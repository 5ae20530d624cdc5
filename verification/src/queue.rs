use rand_pcg::Pcg32;
use std::collections::VecDeque;
use vstd::prelude::*;
use crate::geometry::PieceType;
use crate::random::{pick_below, seeded};

verus! {

/// A source of pieces that shows some of the pieces to come.
pub trait PieceQueue {
    /// How many of the pieces to come are shown.
    spec fn spec_previews(&self) -> int;

    /// The pieces to come that are shown, the next one first.
    spec fn spec_shown(&self) -> Seq<PieceType>;

    /// Whether the queue is in order.
    spec fn spec_wf(&self) -> bool;

    /// Takes the next piece. The pieces behind it move up and a new one
    /// comes in at the end.
    fn take(&mut self) -> (piece: PieceType)
        requires
            old(self).spec_wf(),
            old(self).spec_previews() > 0,
        ensures
            final(self).spec_wf(),
            final(self).spec_previews() == old(self).spec_previews(),
            piece == old(self).spec_shown()[0],
            final(self).spec_shown().len() == old(self).spec_shown().len(),
            forall|i: int|
                0 <= i < old(self).spec_shown().len() - 1 ==> final(self).spec_shown()[i] == old(
                    self,
                ).spec_shown()[i + 1],
    ;

    /// The piece `index` places from the front.
    fn get(&self, index: i32) -> (piece: PieceType)
        requires
            self.spec_wf(),
            0 <= index < self.spec_previews(),
        ensures
            piece == self.spec_shown()[index as int],
    ;

    /// How many of the pieces to come are shown.
    fn max_previews(&self) -> (n: i32)
        ensures
            n == self.spec_previews(),
    ;
}

/// The seven kinds, in the order in which a bag holds them.
pub open spec fn all_kinds() -> Seq<PieceType> {
    seq![
        PieceType::J,
        PieceType::L,
        PieceType::S,
        PieceType::T,
        PieceType::Z,
        PieceType::I,
        PieceType::O,
    ]
}

/// A queue that draws its pieces from a bag of the seven kinds without
/// putting any back, and fills the bag again when it is empty.
pub struct RandomPieceQueue {
    rng: Pcg32,
    bag: Vec<PieceType>,
    queue: VecDeque<PieceType>,
    previews: i32,
    drawn: Ghost<Seq<PieceType>>,
}

/// What a random piece queue is, apart from how it is stored.
pub struct QueueView {
    /// The kinds left in the bag.
    pub bag: Seq<PieceType>,
    /// The kinds drawn from the bag since it was last filled.
    pub drawn: Seq<PieceType>,
    /// The pieces to come that are shown, the next one first.
    pub shown: Seq<PieceType>,
    /// How many pieces are shown.
    pub previews: int,
}

impl QueueView {
    /// What holds of every random piece queue: it shows as many pieces as
    /// it says, and every kind is either left in the bag or was drawn
    /// since the bag was filled, once and not both.
    pub open spec fn wf(self) -> bool {
        &&& self.previews >= 0
        &&& self.shown.len() == self.previews
        &&& self.bag.no_duplicates()
        &&& self.drawn.no_duplicates()
        &&& forall|kind: PieceType| self.bag.contains(kind) != self.drawn.contains(kind)
    }
}

impl View for RandomPieceQueue {
    type V = QueueView;

    closed spec fn view(&self) -> QueueView {
        QueueView {
            bag: self.bag@,
            drawn: self.drawn@,
            shown: self.queue@,
            previews: self.previews as int,
        }
    }
}

/// The full bag holds every kind once.
pub proof fn lemma_all_kinds()
    ensures
        all_kinds().len() == 7,
        all_kinds().no_duplicates(),
        forall|kind: PieceType| all_kinds().contains(kind),
{
    let all = all_kinds();
    assert forall|kind: PieceType| all.contains(kind) by {
        match kind {
            PieceType::J => assert(all[0] == kind),
            PieceType::L => assert(all[1] == kind),
            PieceType::S => assert(all[2] == kind),
            PieceType::T => assert(all[3] == kind),
            PieceType::Z => assert(all[4] == kind),
            PieceType::I => assert(all[5] == kind),
            PieceType::O => assert(all[6] == kind),
        }
    }
}

/// A bag with all seven kinds.
fn full_bag() -> (bag: Vec<PieceType>)
    ensures
        bag@ == all_kinds(),
{
    let mut bag: Vec<PieceType> = Vec::new();
    bag.push(PieceType::J);
    bag.push(PieceType::L);
    bag.push(PieceType::S);
    bag.push(PieceType::T);
    bag.push(PieceType::Z);
    bag.push(PieceType::I);
    bag.push(PieceType::O);
    assert(bag@ =~= all_kinds());
    bag
}

impl RandomPieceQueue {
    /// A queue that shows `previews` pieces, drawn by a generator made
    /// from `seed`.
    pub fn new(seed: [u8; 16], previews: i32) -> (queue: Self)
        requires
            previews >= 0,
        ensures
            queue@.wf(),
            queue@.previews == previews,
    {
        proof {
            lemma_all_kinds();
        }
        let mut queue = RandomPieceQueue {
            rng: seeded(seed),
            bag: full_bag(),
            queue: VecDeque::new(),
            previews: 0,
            drawn: Ghost(Seq::empty()),
        };
        let mut i: i32 = 0;
        while i < previews
            invariant
                0 <= i <= previews,
                queue.previews == i,
                queue@.wf(),
            decreases previews - i,
        {
            queue.add_piece();
            queue.previews = i + 1;
            i += 1;
        }
        queue
    }

    /// Draws a kind from the bag, which is filled first where it is empty,
    /// and puts it at the end of the queue.
    fn add_piece(&mut self)
        requires
            old(self)@.bag.no_duplicates(),
            old(self)@.drawn.no_duplicates(),
            forall|kind: PieceType| old(self)@.bag.contains(kind) != old(self)@.drawn.contains(kind),
        ensures
            final(self)@.bag.no_duplicates(),
            final(self)@.drawn.no_duplicates(),
            forall|kind: PieceType|
                final(self)@.bag.contains(kind) != final(self)@.drawn.contains(kind),
            final(self)@.previews == old(self)@.previews,
            final(self)@.shown.len() == old(self)@.shown.len() + 1,
            final(self)@.shown == old(self)@.shown.push(final(self)@.drawn.last()),
            final(self)@.drawn.len() > 0,
            old(self)@.bag.len() > 0 ==> old(self)@.bag.contains(final(self)@.drawn.last())
                && final(self)@.drawn == old(self)@.drawn.push(final(self)@.drawn.last()),
            old(self)@.bag.len() == 0 ==> final(self)@.drawn.len() == 1,
    {
        proof {
            lemma_all_kinds();
        }
        if self.bag.len() == 0 {
            self.bag = full_bag();
            self.drawn = Ghost(Seq::empty());
        }
        let ghost bag = self.bag@;
        let ghost drawn = self.drawn@;
        proof {
            if bag.len() == 0 {
                assert(!bag.contains(PieceType::J));
            }
            assert forall|kind: PieceType| bag.contains(kind) != drawn.contains(kind) by {
                if old(self)@.bag.len() == 0 {
                    assert(!drawn.contains(kind));
                }
            }
        }
        let at = pick_below(&mut self.rng, self.bag.len());
        let piece = self.bag.remove(at);
        self.queue.push_back(piece);
        proof {
            self.drawn@ = drawn.push(piece);
            let bag2 = self.bag@;
            let drawn2 = self.drawn@;
            assert(bag[at as int] == piece);
            assert(bag.contains(piece));
            assert forall|kind: PieceType| bag2.contains(kind) == (bag.contains(kind) && kind
                != piece) by {
                if bag2.contains(kind) {
                    let i = choose|i: int| 0 <= i < bag2.len() && bag2[i] == kind;
                    if i < at {
                        assert(bag[i] == kind);
                    } else {
                        assert(bag[i + 1] == kind);
                    }
                }
                if bag.contains(kind) && kind != piece {
                    let i = choose|i: int| 0 <= i < bag.len() && bag[i] == kind;
                    if i < at {
                        assert(bag2[i] == kind);
                    } else {
                        assert(bag2[i - 1] == kind);
                    }
                }
            }
            assert forall|kind: PieceType| drawn2.contains(kind) == (drawn.contains(kind) || kind
                == piece) by {
                if drawn2.contains(kind) {
                    let i = choose|i: int| 0 <= i < drawn2.len() && drawn2[i] == kind;
                    if i < drawn.len() {
                        assert(drawn[i] == kind);
                    }
                }
                if drawn.contains(kind) {
                    let i = choose|i: int| 0 <= i < drawn.len() && drawn[i] == kind;
                    assert(drawn2[i] == kind);
                }
                assert(drawn2[drawn.len() as int] == piece);
            }
            assert(!drawn.contains(piece));
            assert(drawn2.no_duplicates()) by {
                assert forall|i: int, j: int|
                    0 <= i < drawn2.len() && 0 <= j < drawn2.len() && i != j implies drawn2[i]
                    != drawn2[j] by {
                    if i < drawn.len() && j < drawn.len() {
                        assert(drawn[i] != drawn[j]);
                    } else if i < drawn.len() {
                        assert(drawn.contains(drawn2[i]));
                    } else {
                        assert(drawn.contains(drawn2[j]));
                    }
                }
            }
            assert(bag2.no_duplicates()) by {
                assert forall|i: int, j: int|
                    0 <= i < bag2.len() && 0 <= j < bag2.len() && i != j implies bag2[i]
                    != bag2[j] by {
                    let a = if i < at {
                        i
                    } else {
                        i + 1
                    };
                    let b = if j < at {
                        j
                    } else {
                        j + 1
                    };
                    assert(bag2[i] == bag[a]);
                    assert(bag2[j] == bag[b]);
                }
            }
        }
    }
}

impl PieceQueue for RandomPieceQueue {
    open spec fn spec_previews(&self) -> int {
        self@.previews
    }

    open spec fn spec_shown(&self) -> Seq<PieceType> {
        self@.shown
    }

    open spec fn spec_wf(&self) -> bool {
        self@.wf()
    }

    fn take(&mut self) -> (piece: PieceType)
        ensures
            final(self)@.shown == old(self)@.shown.subrange(1, old(self)@.shown.len() as int).push(
                final(self)@.drawn.last(),
            ),
            old(self)@.bag.len() > 0 ==> old(self)@.bag.contains(final(self)@.drawn.last()),
    {
        let piece = self.queue.pop_front().unwrap();
        self.add_piece();
        piece
    }

    fn get(&self, index: i32) -> (piece: PieceType) {
        self.queue[index as usize]
    }

    fn max_previews(&self) -> (n: i32) {
        self.previews
    }
}

} // verus!
