use rand_pcg::Pcg32;
use vstd::prelude::*;
use crate::random::{pick_below, roll, seeded, seeded_from};

verus! {

/// The column of the hole of the next garbage row. The first row has its
/// hole in column `pick`. A later row keeps the column of the row before
/// it unless `change` is set, and then takes the `pick`-th of the other
/// nine columns.
pub open spec fn spec_next_hole(prev: Option<i32>, change: bool, pick: int) -> int {
    match prev {
        None => pick,
        Some(p) => {
            if !change {
                p as int
            } else if pick >= p {
                pick + 1
            } else {
                pick
            }
        },
    }
}

/// The column of the hole of the next garbage row.
pub fn next_hole(prev: Option<i32>, change: bool, pick: usize) -> (hole: i32)
    requires
        match prev {
            None => pick < 10,
            Some(p) => 0 <= p < 10 && pick < 9,
        },
    ensures
        hole == spec_next_hole(prev, change, pick as int),
        0 <= hole < 10,
        prev.is_some() && change ==> hole != prev.unwrap(),
        prev.is_some() && !change ==> hole == prev.unwrap(),
{
    match prev {
        None => pick as i32,
        Some(p) => {
            if !change {
                p
            } else if pick as i32 >= p {
                pick as i32 + 1
            } else {
                pick as i32
            }
        },
    }
}

/// Where the holes of garbage rows come from: a generator of its own, apart
/// from the one that draws the pieces.
pub struct HoleSource {
    rng: Pcg32,
}

impl HoleSource {
    /// A source of holes with a generator fresh from `seed`.
    pub fn new(seed: [u8; 16]) -> (source: Self)
        ensures
            source.generator() == seeded_from(seed@),
    {
        HoleSource { rng: seeded(seed) }
    }

    /// The holes of `count` garbage rows that come in together. The first
    /// hole is in any column. Each later one leaves the column of the one
    /// before it with a chance of `change` in ten, for any of the other
    /// nine columns.
    pub fn holes(&mut self, count: u32, change: u32) -> (holes: Vec<i32>)
        requires
            change <= 10,
        ensures
            holes@.len() == count,
            forall|k: int| 0 <= k < holes@.len() ==> 0 <= #[trigger] holes@[k] < 10,
            change == 0 ==> forall|k: int| 0 <= k < holes@.len() ==> #[trigger] holes@[k] == holes@[0],
            change == 10 ==> forall|k: int|
                0 < k < holes@.len() ==> #[trigger] holes@[k] != holes@[k - 1],
    {
        let mut holes: Vec<i32> = Vec::new();
        let mut prev: Option<i32> = None;
        let mut i: u32 = 0;
        while i < count
            invariant
                i <= count,
                change <= 10,
                holes@.len() == i,
                forall|k: int| 0 <= k < holes@.len() ==> 0 <= #[trigger] holes@[k] < 10,
                i == 0 ==> prev.is_none(),
                i > 0 ==> prev == Some(holes@[i - 1]),
                change == 0 ==> forall|k: int|
                    0 <= k < holes@.len() ==> #[trigger] holes@[k] == holes@[0],
                change == 10 ==> forall|k: int|
                    0 < k < holes@.len() ==> #[trigger] holes@[k] != holes@[k - 1],
            decreases count - i,
        {
            let hole = match prev {
                None => {
                    let pick = pick_below(&mut self.rng, 10);
                    next_hole(prev, false, pick)
                },
                Some(_) => {
                    if roll(&mut self.rng, change, 10) {
                        let pick = pick_below(&mut self.rng, 9);
                        next_hole(prev, true, pick)
                    } else {
                        next_hole(prev, false, 0)
                    }
                },
            };
            holes.push(hole);
            prev = Some(hole);
            i += 1;
        }
        holes
    }

    /// The generator that the next holes are drawn from.
    pub closed spec fn generator(&self) -> Pcg32 {
        self.rng
    }
}

} // verus!
