[package]
name = "minobot"
version = "0.1.0"
edition = "2021"
publish = false

[dependencies]
arrayvec = "0.5"
enumset = "1"
rand = "0.7"
rand_pcg = "0.2"
serde = { version = "1", features = ["derive"] }
serde_yaml = "0.8"
