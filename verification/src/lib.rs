//! A player of a falling-block puzzle: a board with the rules of movement
//! and rotation, a pathfinder that finds every place where a piece can come
//! to rest, an evaluator of boards, and a best-first search over the pieces
//! to come.
//!
//! - [`geometry`]: the seven kinds, their cells and their kick offsets.
//! - [`row`], [`grid`], [`storage`], [`board`], [`colored`]: rows, the
//!   10 by 40 grid, and the boards built on them.
//! - [`piece`]: a piece on the board and how it moves and turns.
//! - [`pathfinder`], [`frontier`], [`turns`]: the lock positions of a piece
//!   and the ways to them.
//! - [`evaluator`]: scores for boards and placements.
//! - [`bot`], [`worker`]: the search tree and the worker that runs it.
//! - [`queue`], [`garbage`], [`random`]: the bag of pieces and the holes of
//!   garbage rows.

pub mod arith;
pub mod board;
pub mod bot;
pub mod colored;
pub mod evaluator;
pub mod frontier;
pub mod garbage;
pub mod geometry;
pub mod grid;
pub mod pathfinder;
pub mod piece;
pub mod queue;
pub mod random;
pub mod row;
pub mod storage;
pub mod turns;
pub mod worker;

pub use board::{Board, BoardView, LockResult};
pub use bot::{Bot, BotData, BotSettings, Exploration, Node};
pub use colored::ColoredBoard;
pub use evaluator::{Evaluator, StandardEvaluator};
pub use garbage::HoleSource;
pub use geometry::{CellType, PieceType};
pub use pathfinder::{MoveNode, Moves, PathfinderMove};
pub use piece::{Piece, TspinType};
pub use queue::{PieceQueue, RandomPieceQueue};
pub use row::{ColoredRow, Row};
pub use worker::{BotCommand, BotMove, Worker};
