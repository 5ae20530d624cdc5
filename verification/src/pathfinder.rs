use std::collections::VecDeque;
use vstd::prelude::*;
use crate::board::Board;
use crate::frontier::{
    covered, lemma_candidate, lemma_potential_bound, lemma_search_done, lemma_search_init,
    lemma_search_lock_keep, lemma_search_lock_push, lemma_search_lock_replace, lemma_search_pop,
    lemma_search_put, potential, search_inv,
};
use crate::geometry::PieceType;
use crate::piece::{fits_at, lemma_first_kick, lemma_fits_anchor, lemma_sonic_drop, Piece, TspinType};

verus! {

/// One input of the pathfinder.
#[derive(PartialEq, Eq, Copy, Clone, Debug, Structural)]
pub enum PathfinderMove {
    Left,
    Right,
    RotLeft,
    RotRight,
    SonicDrop,
}

/// What the pathfinder knows of one state: the state it came from, the
/// input that led here, what that input cost and what the whole way cost.
/// The start has no state before it.
#[derive(Copy, Clone, Debug)]
pub struct MoveNode {
    pub parent: Option<Piece>,
    pub mv: PathfinderMove,
    pub total_dist: i32,
    pub dist: i32,
}

/// The number of states of one piece kind: 10 columns, 40 rows, 4
/// rotations, 3 T-spin marks.
pub const STATES: usize = 4800;

/// No way costs more than this, its last drop left out.
pub const LIMIT: i32 = 192000;

/// The place of a T-spin mark in the state table.
pub open spec fn tspin_index(t: TspinType) -> int {
    match t {
        TspinType::NoSpin => 0,
        TspinType::Mini => 1,
        TspinType::Full => 2,
    }
}

/// Whether a piece has its anchor on the grid and one of the four
/// rotations, so that it has a place in the state table.
pub open spec fn in_table(p: Piece) -> bool {
    0 <= p.x < 10 && 0 <= p.y < 40 && p.r < 4
}

/// The place of a state in the state table.
pub open spec fn state_index(p: Piece) -> int {
    ((p.x * 40 + p.y) * 4 + p.r) * 3 + tspin_index(p.tspin)
}

/// Whether an input is tried for a kind: all are, but the turns of an `O`.
pub open spec fn move_allowed(kind: PieceType, mv: PathfinderMove) -> bool {
    kind != PieceType::O || (mv != PathfinderMove::RotLeft && mv != PathfinderMove::RotRight)
}

/// The piece after one input on the grid `g`. An input that cannot be
/// carried out leaves the piece as it is.
#[verifier::opaque]
pub open spec fn apply_move(g: Seq<u16>, p: Piece, mv: PathfinderMove) -> Piece {
    match mv {
        PathfinderMove::Left => p.spec_shift(g, -1),
        PathfinderMove::Right => p.spec_shift(g, 1),
        PathfinderMove::RotLeft => p.spec_rotate(g, p.left_of()),
        PathfinderMove::RotRight => p.spec_rotate(g, p.right_of()),
        PathfinderMove::SonicDrop => p.spec_sonic_drop(g),
    }
}

/// The piece after the inputs of `path`, one after the other.
pub open spec fn replay(g: Seq<u16>, p: Piece, path: Seq<PathfinderMove>) -> Piece
    decreases path.len(),
{
    if path.len() == 0 {
        p
    } else {
        apply_move(g, replay(g, p, path.drop_last()), path.last())
    }
}

/// What an input costs from the state `p`: the rows fallen for a drop, and 1
/// for a shift or a turn.
pub open spec fn step_cost(g: Seq<u16>, p: Piece, mv: PathfinderMove) -> int {
    if mv == PathfinderMove::SonicDrop {
        p.y - apply_move(g, p, mv).y
    } else {
        1
    }
}

/// What the inputs of `path` cost together, from `p` on.
pub open spec fn path_cost(g: Seq<u16>, p: Piece, path: Seq<PathfinderMove>) -> int
    decreases path.len(),
{
    if path.len() == 0 {
        0
    } else {
        path_cost(g, p, path.drop_last()) + step_cost(
            g,
            replay(g, p, path.drop_last()),
            path.last(),
        )
    }
}

/// What the inputs of `path` cost together with a drop at their end left
/// out.
pub open spec fn adjusted_cost(g: Seq<u16>, p: Piece, path: Seq<PathfinderMove>) -> int {
    if path.len() > 0 && path.last() == PathfinderMove::SonicDrop {
        path_cost(g, p, path.drop_last())
    } else {
        path_cost(g, p, path)
    }
}

/// Whether `path` is a way to the state `s` that the entry `n` stands for:
/// inputs that lead from the start to `s` at the cost of the entry, the
/// last of them the entry's own input from the entry's predecessor.
pub open spec fn is_way(
    g: Seq<u16>,
    start: Piece,
    path: Seq<PathfinderMove>,
    s: Piece,
    n: MoveNode,
) -> bool {
    &&& path_allowed(start.kind, path)
    &&& replay(g, start, path) == s
    &&& path_cost(g, start, path) == n.total_dist
    &&& match n.parent {
        None => path.len() == 0,
        Some(p) => path.len() > 0 && path.last() == n.mv && replay(g, start, path.drop_last())
            == p,
    }
}

/// Whether every input of `path` is tried for `kind`.
pub open spec fn path_allowed(kind: PieceType, path: Seq<PathfinderMove>) -> bool {
    forall|i: int| 0 <= i < path.len() ==> move_allowed(kind, #[trigger] path[i])
}

/// Whether some sequence of inputs leads from `start` to `s`.
pub open spec fn reachable(g: Seq<u16>, start: Piece, s: Piece) -> bool {
    exists|path: Seq<PathfinderMove>|
        path_allowed(start.kind, path) && #[trigger] replay(g, start, path) == s
}

/// Whether a piece rests: it does not fit one row further down.
pub open spec fn resting(g: Seq<u16>, p: Piece) -> bool {
    !fits_at(g, p.kind, p.x as int, p.y - 1, p.r as int)
}

/// Whether two pieces cover the same four cells in the same table order.
pub open spec fn same_cells(a: Piece, b: Piece) -> bool {
    &&& a.spec_cells()[0] == b.spec_cells()[0]
    &&& a.spec_cells()[1] == b.spec_cells()[1]
    &&& a.spec_cells()[2] == b.spec_cells()[2]
    &&& a.spec_cells()[3] == b.spec_cells()[3]
}

/// The cost of the way to a state with its last input left out where that
/// was a drop.
pub open spec fn node_true_dist(n: MoveNode) -> int {
    if n.mv == PathfinderMove::SonicDrop {
        n.total_dist - n.dist
    } else {
        n.total_dist as int
    }
}

/// A number that falls along every chain of predecessors.
pub open spec fn node_rank(n: MoveNode) -> int {
    2 * node_true_dist(n) + if n.mv == PathfinderMove::SonicDrop && n.parent.is_some() {
        1int
    } else {
        0int
    }
}

/// Whether the table `t` holds an entry for the state `s` of kind `kind`.
pub open spec fn has_entry(t: Seq<Option<MoveNode>>, kind: PieceType, s: Piece) -> bool {
    s.kind == kind && in_table(s) && t[state_index(s)].is_some()
}

/// What holds of the entry `n` of the state `s`: the start has no
/// predecessor and cost nothing; any other state is what its predecessor's
/// entry, of lower rank, becomes under the entry's input.
pub open spec fn node_ok(
    t: Seq<Option<MoveNode>>,
    g: Seq<u16>,
    start: Piece,
    s: Piece,
    n: MoveNode,
) -> bool {
    &&& 0 <= node_true_dist(n) <= LIMIT
    &&& node_true_dist(n) <= n.total_dist <= node_true_dist(n) + 39
    &&& exists|path: Seq<PathfinderMove>| is_way(g, start, path, s, n)
    &&& match n.parent {
        None => s == start && n.total_dist == 0 && n.dist == 0 && n.mv == PathfinderMove::SonicDrop,
        Some(p) => {
            &&& p.kind == start.kind
            &&& in_table(p)
            &&& t[state_index(p)].is_some()
            &&& node_rank(t[state_index(p)].unwrap()) < node_rank(n)
            &&& move_allowed(start.kind, n.mv)
            &&& apply_move(g, p, n.mv) == s
            &&& s != p
            &&& n.dist == step_cost(g, p, n.mv)
            &&& n.mv == PathfinderMove::SonicDrop ==> resting(g, s)
        },
    }
}

/// What holds of a state table: it has a place for every state, the start
/// has an entry, and every state with an entry fits the grid and has an
/// entry of which `node_ok` holds.
pub open spec fn table_ok(t: Seq<Option<MoveNode>>, g: Seq<u16>, start: Piece) -> bool {
    &&& t.len() == STATES
    &&& has_entry(t, start.kind, start)
    &&& forall|s: Piece| #[trigger]
        has_entry(t, start.kind, s) ==> s.fits(g) && node_ok(
            t,
            g,
            start,
            s,
            t[state_index(s)].unwrap(),
        )
}

/// Two states of one kind with the same place in the table are the same.
pub proof fn lemma_state_index(p: Piece, q: Piece)
    requires
        in_table(p),
        in_table(q),
        p.kind == q.kind,
        state_index(p) == state_index(q),
    ensures
        p == q,
        0 <= state_index(p) < STATES,
{
    let a = tspin_index(p.tspin);
    let b = tspin_index(q.tspin);
    assert(a == b);
    assert(p.r == q.r);
    assert(p.y == q.y);
}

/// Every state has a place in the table.
pub proof fn lemma_state_index_range(p: Piece)
    requires
        in_table(p),
    ensures
        0 <= state_index(p) < STATES,
{
}

/// A replay that begins with `mv` is the replay of the rest from where
/// `mv` leads.
pub proof fn lemma_replay_front(g: Seq<u16>, p: Piece, mv: PathfinderMove, rest: Seq<PathfinderMove>)
    ensures
        replay(g, p, seq![mv] + rest) == replay(g, apply_move(g, p, mv), rest),
    decreases rest.len(),
{
    let whole = seq![mv] + rest;
    if rest.len() == 0 {
        assert(whole.drop_last() =~= Seq::<PathfinderMove>::empty());
        assert(whole.last() == mv);
        assert(replay(g, p, whole.drop_last()) == p);
    } else {
        lemma_replay_front(g, p, mv, rest.drop_last());
        assert(whole.drop_last() =~= seq![mv] + rest.drop_last());
        assert(whole.last() == rest.last());
    }
}

/// An input keeps the kind of the piece, and a piece that fits the grid
/// fits it after any input.
pub proof fn lemma_apply_move(g: Seq<u16>, p: Piece, mv: PathfinderMove)
    requires
        p.r < 4,
        p.fits(g),
    ensures
        apply_move(g, p, mv).kind == p.kind,
        apply_move(g, p, mv).fits(g),
        in_table(apply_move(g, p, mv)),
{
    reveal(apply_move);
    lemma_fits_anchor(g, p.kind, p.x as int, p.y as int, p.r as int);
    let q = apply_move(g, p, mv);
    match mv {
        PathfinderMove::Left => {
            if fits_at(g, p.kind, p.x - 1, p.y as int, p.r as int) {
                lemma_fits_anchor(g, p.kind, p.x - 1, p.y as int, p.r as int);
            }
        },
        PathfinderMove::Right => {
            if fits_at(g, p.kind, p.x + 1, p.y as int, p.r as int) {
                lemma_fits_anchor(g, p.kind, p.x + 1, p.y as int, p.r as int);
            }
        },
        PathfinderMove::RotLeft => {
            crate::piece::lemma_first_kick(p, g, p.left_of(), 0);
            let k = p.first_kick(g, p.left_of());
            if k < p.kind.spec_kick_count() {
                let t = p.kick_target(p.left_of(), k);
                lemma_fits_anchor(g, p.kind, t.0, t.1, p.left_of());
            }
        },
        PathfinderMove::RotRight => {
            crate::piece::lemma_first_kick(p, g, p.right_of(), 0);
            let k = p.first_kick(g, p.right_of());
            if k < p.kind.spec_kick_count() {
                let t = p.kick_target(p.right_of(), k);
                lemma_fits_anchor(g, p.kind, t.0, t.1, p.right_of());
            }
        },
        PathfinderMove::SonicDrop => {
            lemma_sonic_drop(p, g);
        },
    }
    lemma_fits_anchor(g, q.kind, q.x as int, q.y as int, q.r as int);
}

/// A piece that a drop moves does not rest.
pub proof fn lemma_drop_moves(g: Seq<u16>, p: Piece)
    requires
        apply_move(g, p, PathfinderMove::SonicDrop) != p,
    ensures
        !resting(g, p),
        resting(g, apply_move(g, p, PathfinderMove::SonicDrop)),
{
    reveal(apply_move);
    lemma_sonic_drop(p, g);
}

/// Where a drop leads a piece, the piece rests.
pub proof fn lemma_landed(g: Seq<u16>, p: Piece)
    ensures
        resting(g, apply_move(g, p, PathfinderMove::SonicDrop)),
        resting(g, p) ==> apply_move(g, p, PathfinderMove::SonicDrop) == p,
{
    reveal(apply_move);
    lemma_sonic_drop(p, g);
}

/// What the movement rules do is what `apply_move` says, and an input
/// changes the state exactly when it can be carried out.
pub proof fn lemma_step(g: Seq<u16>, p: Piece, mv: PathfinderMove)
    requires
        in_table(p),
    ensures
        apply_move(g, p, mv) == (match mv {
            PathfinderMove::Left => p.spec_shift(g, -1),
            PathfinderMove::Right => p.spec_shift(g, 1),
            PathfinderMove::RotLeft => p.spec_rotate(g, p.left_of()),
            PathfinderMove::RotRight => p.spec_rotate(g, p.right_of()),
            PathfinderMove::SonicDrop => p.spec_sonic_drop(g),
        }),
        (apply_move(g, p, mv) != p) == (match mv {
            PathfinderMove::Left => fits_at(g, p.kind, p.x - 1, p.y as int, p.r as int),
            PathfinderMove::Right => fits_at(g, p.kind, p.x + 1, p.y as int, p.r as int),
            PathfinderMove::RotLeft => p.first_kick(g, p.left_of()) < p.kind.spec_kick_count(),
            PathfinderMove::RotRight => p.first_kick(g, p.right_of()) < p.kind.spec_kick_count(),
            PathfinderMove::SonicDrop => fits_at(g, p.kind, p.x as int, p.y - 1, p.r as int),
        }),
        mv == PathfinderMove::SonicDrop && apply_move(g, p, mv) != p ==> 1 <= p.y - apply_move(
            g,
            p,
            mv,
        ).y <= 39 && resting(g, apply_move(g, p, mv)) && !resting(g, p),
{
    reveal(apply_move);
    match mv {
        PathfinderMove::Left => {
            if fits_at(g, p.kind, p.x - 1, p.y as int, p.r as int) {
                lemma_fits_anchor(g, p.kind, p.x - 1, p.y as int, p.r as int);
            }
        },
        PathfinderMove::Right => {
            if fits_at(g, p.kind, p.x + 1, p.y as int, p.r as int) {
                lemma_fits_anchor(g, p.kind, p.x + 1, p.y as int, p.r as int);
            }
        },
        PathfinderMove::RotLeft => {
            lemma_first_kick(p, g, p.left_of(), 0);
            let k = p.first_kick(g, p.left_of());
            if k < p.kind.spec_kick_count() {
                let t = p.kick_target(p.left_of(), k);
                lemma_fits_anchor(g, p.kind, t.0, t.1, p.left_of());
            }
        },
        PathfinderMove::RotRight => {
            lemma_first_kick(p, g, p.right_of(), 0);
            let k = p.first_kick(g, p.right_of());
            if k < p.kind.spec_kick_count() {
                let t = p.kick_target(p.right_of(), k);
                lemma_fits_anchor(g, p.kind, t.0, t.1, p.right_of());
            }
        },
        PathfinderMove::SonicDrop => {
            lemma_sonic_drop(p, g);
            let d = p.spec_sonic_drop(g);
            if d != p {
                lemma_fits_anchor(g, d.kind, d.x as int, d.y as int, d.r as int);
            }
        },
    }
}

impl MoveNode {
    /// The cost of the way to this node's state, with the node's own input
    /// left out where that is a drop.
    pub fn true_dist(&self) -> (d: i32)
        requires
            i32::MIN <= node_true_dist(*self) <= i32::MAX,
        ensures
            d == node_true_dist(*self),
    {
        let mut dist = self.total_dist;
        if self.mv == PathfinderMove::SonicDrop {
            dist -= self.dist;
        }
        dist
    }
}

/// The place of a state in the state table.
pub fn index_of(state: Piece) -> (i: usize)
    requires
        in_table(state),
    ensures
        i == state_index(state),
        i < STATES,
{
    let t: usize = match state.tspin {
        TspinType::NoSpin => 0,
        TspinType::Mini => 1,
        TspinType::Full => 2,
    };
    ((state.x as usize * 40 + state.y as usize) * 4 + state.r as usize) * 3 + t
}

/// What a search result is, apart from how it is stored.
pub struct MovesView {
    /// The grid that was searched.
    pub grid: Seq<u16>,
    /// The piece that the search started from.
    pub start: Piece,
    /// The state table: the entry of each state at its `state_index`.
    pub table: Seq<Option<MoveNode>>,
    /// The lock positions: for each set of four cells on which the piece
    /// can come to rest one state that covers them, with the cost of the
    /// way to it, its last drop left out.
    pub positions: Seq<(Piece, i32)>,
}

impl MovesView {
    /// Whether the search found a way to `state`.
    pub open spec fn visited(self, state: Piece) -> bool {
        has_entry(self.table, self.start.kind, state)
    }

    /// The entry of `state`.
    pub open spec fn entry(self, state: Piece) -> MoveNode {
        self.table[state_index(state)].unwrap()
    }

    /// The lock positions without their costs.
    pub open spec fn lock_positions(self) -> Seq<Piece> {
        Seq::new(self.positions.len(), |i: int| self.positions[i].0)
    }

    /// What holds of every search result. Where the start fitted the grid,
    /// the search's invariant holds with nothing left to try, and each lock
    /// position stands with the cost of its entry. Where it did not, there
    /// is no entry and no lock position.
    pub open spec fn wf(self) -> bool {
        &&& self.table.len() == STATES
        &&& self.start.r < 4
        &&& if self.start.fits(self.grid) {
            &&& search_inv(
                self.table,
                self.grid,
                self.start,
                Seq::empty(),
                self.lock_positions(),
                None,
            )
            &&& forall|i: int|
                0 <= i < self.positions.len() ==> (#[trigger] self.positions[i]).1
                    == node_true_dist(self.entry(self.positions[i].0))
        } else {
            &&& self.positions.len() == 0
            &&& forall|i: int| 0 <= i < STATES ==> (#[trigger] self.table[i]).is_none()
        }
    }
}

/// All that the pathfinder found for one piece on one board: an entry for
/// every state that the piece can get into, and the places where it can
/// come to rest, each with the cost of the way there.
pub struct Moves {
    field: Vec<Option<MoveNode>>,
    moves: Vec<(Piece, i32)>,
    grid: Ghost<Seq<u16>>,
    start: Ghost<Piece>,
}

impl View for Moves {
    type V = MovesView;

    closed spec fn view(&self) -> MovesView {
        MovesView {
            grid: self.grid@,
            start: self.start@,
            table: self.field@,
            positions: self.moves@,
        }
    }
}

/// Whether two pieces cover the same four cells in the same table order.
pub fn cells_equal(a: &Piece, b: &Piece) -> (same: bool)
    requires
        in_table(*a),
        in_table(*b),
    ensures
        same == same_cells(*a, *b),
{
    let ca = a.cells();
    let cb = b.cells();
    ca[0].0 == cb[0].0 && ca[0].1 == cb[0].1 && ca[1].0 == cb[1].0 && ca[1].1 == cb[1].1 && ca[2].0
        == cb[2].0 && ca[2].1 == cb[2].1 && ca[3].0 == cb[3].0 && ca[3].1 == cb[3].1
}

/// Tries the input `mv` from `parent`, gives the state that it leads to an
/// entry where it has none or a worse one, and queues the state then.
/// Returns the state.
fn relax(
    table: &mut Vec<Option<MoveNode>>,
    board: &Board,
    start: Ghost<Piece>,
    parent: Piece,
    mv: PathfinderMove,
    queue: &mut VecDeque<Piece>,
    Ghost(locks): Ghost<Seq<Piece>>,
) -> (child: Piece)
    requires
        search_inv(old(table)@, board.grid(), start@, old(queue)@, locks, Some(parent)),
        has_entry(old(table)@, start@.kind, parent),
        move_allowed(start@.kind, mv),
    ensures
        child == apply_move(board.grid(), parent, mv),
        search_inv(final(table)@, board.grid(), start@, final(queue)@, locks, Some(parent)),
        has_entry(final(table)@, start@.kind, child),
        forall|s: Piece| #[trigger]
            has_entry(old(table)@, start@.kind, s) ==> has_entry(final(table)@, start@.kind, s)
                && node_true_dist(final(table)@[state_index(s)].unwrap()) <= node_true_dist(
                old(table)@[state_index(s)].unwrap(),
            ),
        final(table)@[state_index(parent)] == old(table)@[state_index(parent)],
        child != parent ==> node_true_dist(final(table)@[state_index(child)].unwrap()) <= old(table)@[state_index(parent)].unwrap().total_dist + if mv == PathfinderMove::SonicDrop {
            0int
        } else {
            1int
        },
        (final(queue)@ == old(queue)@ && final(table)@ == old(table)@) || (0 <= potential(
            final(table)@,
        ) < potential(old(table)@) && final(queue)@.len() == old(queue)@.len() + 1),
{
    let ghost g = board.grid();
    let ghost start = start@;
    let ghost before = table@;
    proof {
        assert(node_ok(before, g, start, parent, before[state_index(parent)].unwrap()));
        assert(parent.fits(g));
        lemma_apply_move(g, parent, mv);
    }
    let mut child = parent;
    let success = match mv {
        PathfinderMove::Left => child.move_left(board),
        PathfinderMove::Right => child.move_right(board),
        PathfinderMove::RotLeft => child.turn_left(board),
        PathfinderMove::RotRight => child.turn_right(board),
        PathfinderMove::SonicDrop => child.sonic_drop(board),
    };
    proof {
        lemma_step(g, parent, mv);
    }
    if success {
        let dist: i32 = if mv == PathfinderMove::SonicDrop {
            parent.y - child.y
        } else {
            1
        };
        let from = match table[index_of(parent)] {
            Some(from) => from,
            None => {
                return child;
            },
        };
        let node = MoveNode { parent: Some(parent), mv, dist, total_dist: from.total_dist + dist };
        proof {
            assert(node.dist == step_cost(g, parent, mv));
            lemma_candidate(before, g, start, queue@, locks, Some(parent), parent, child, node);
        }
        let better = match table[index_of(child)] {
            None => true,
            Some(entry) => {
                proof {
                    assert(has_entry(before, start.kind, child));
                    assert(node_ok(before, g, start, child, entry));
                }
                node.true_dist() < entry.true_dist()
            },
        };
        if better {
            proof {
                lemma_search_put(before, g, start, queue@, locks, Some(parent), parent, child, node);
            }
            let at = index_of(child);
            table[at] = Some(node);
            queue.push_back(child);
        }
    }
    child
}

/// Makes `landed` the lock position of its cells where they have none or
/// one at a higher cost.
fn record_lock(
    table: &Vec<Option<MoveNode>>,
    locks: &mut Vec<Piece>,
    landed: Piece,
    Ghost(g): Ghost<Seq<u16>>,
    Ghost(start): Ghost<Piece>,
    Ghost(queue): Ghost<Seq<Piece>>,
    Ghost(cur): Ghost<Option<Piece>>,
)
    requires
        search_inv(table@, g, start, queue, old(locks)@, cur),
        has_entry(table@, start.kind, landed),
        resting(g, landed),
    ensures
        search_inv(table@, g, start, queue, final(locks)@, cur),
        covered(table@, final(locks)@, landed),
{
    proof {
        assert(node_ok(table@, g, start, landed, table@[state_index(landed)].unwrap()));
    }
    let cost = match table[index_of(landed)] {
        Some(node) => node.true_dist(),
        None => 0,
    };
    let mut i: usize = 0;
    while i < locks.len()
        invariant
            i <= locks@.len(),
            locks@ == old(locks)@,
            in_table(landed),
            has_entry(table@, start.kind, landed),
            resting(g, landed),
            cost == node_true_dist(table@[state_index(landed)].unwrap()),
            search_inv(table@, g, start, queue, locks@, cur),
            forall|k: int| 0 <= k < i ==> !same_cells(#[trigger] locks@[k], landed),
        decreases locks@.len() - i,
    {
        let rep = locks[i];
        proof {
            assert(has_entry(table@, start.kind, locks@[i as int]));
            assert(node_ok(table@, g, start, rep, table@[state_index(rep)].unwrap()));
        }
        if cells_equal(&rep, &landed) {
            let held = match table[index_of(rep)] {
                Some(node) => node.true_dist(),
                None => 0,
            };
            if cost < held {
                proof {
                    lemma_search_lock_replace(table@, g, start, queue, locks@, cur, i as int, landed);
                }
                locks[i] = landed;
            } else {
                proof {
                    lemma_search_lock_keep(table@, locks@, i as int, landed);
                }
            }
            return ;
        }
        i += 1;
    }
    proof {
        lemma_search_lock_push(table@, g, start, queue, locks@, cur, landed);
    }
    locks.push(landed);
}

impl Moves {
    /// What holds of every search result there is.
    #[verifier::type_invariant]
    pub open spec fn wf(&self) -> bool {
        self@.wf()
    }

    /// Every place where `piece` can come to rest on `board`, with the way
    /// to each.
    ///
    /// The search goes through the states breadth first, from `piece` on.
    /// From each state it tries the two turns (not for an `O`), the two
    /// shifts and the drop to the floor. A shift or a turn costs 1, a drop
    /// the number of rows fallen. A state's entry gives way to a new one
    /// only where the new way is shorter, the cost of a drop at its end
    /// left out. Of the resting states that cover the same four cells, the
    /// one with the shortest such way becomes the lock position.
    ///
    /// A piece that does not fit the board has no lock position.
    pub fn moves(board: &Board, piece: Piece) -> (found: Self)
        requires
            piece.r < 4,
        ensures
            found@.wf(),
            found@.grid == board.grid(),
            found@.start == piece,
    {
        let mut field: Vec<Option<MoveNode>> = Vec::new();
        while field.len() < STATES
            invariant
                field@.len() <= STATES,
                forall|i: int| 0 <= i < field@.len() ==> (#[trigger] field@[i]).is_none(),
            decreases STATES - field@.len(),
        {
            field.push(None);
        }
        let ghost g = board.grid();
        if !board.piece_fits(piece) {
            return Moves { field, moves: Vec::new(), grid: Ghost(g), start: Ghost(piece) };
        }
        proof {
            lemma_fits_anchor(g, piece.kind, piece.x as int, piece.y as int, piece.r as int);
            lemma_search_init(field@, g, piece);
        }
        let mut locks: Vec<Piece> = Vec::new();
        let mut queue: VecDeque<Piece> = VecDeque::new();
        let root = MoveNode { parent: None, mv: PathfinderMove::SonicDrop, total_dist: 0, dist: 0 };
        let at = index_of(piece);
        field[at] = Some(root);
        queue.push_back(piece);
        proof {
            assert(queue@ =~= seq![piece]);
            assert(locks@ =~= Seq::<Piece>::empty());
            lemma_potential_bound(field@);
        }
        while queue.len() > 0
            invariant
                g == board.grid(),
                piece.r < 4,
                piece.fits(g),
                search_inv(field@, g, piece, queue@, locks@, None),
                potential(field@) >= 0,
            decreases potential(field@), queue@.len(),
        {
            let ghost before = queue@;
            let parent = queue.pop_front().unwrap();
            proof {
                lemma_search_pop(field@, g, piece, before, locks@);
            }
            if piece.kind != PieceType::O {
                relax(
                    &mut field,
                    board,
                    Ghost(piece),
                    parent,
                    PathfinderMove::RotLeft,
                    &mut queue,
                    Ghost(locks@),
                );
                relax(
                    &mut field,
                    board,
                    Ghost(piece),
                    parent,
                    PathfinderMove::RotRight,
                    &mut queue,
                    Ghost(locks@),
                );
            }
            relax(
                &mut field,
                board,
                Ghost(piece),
                parent,
                PathfinderMove::Left,
                &mut queue,
                Ghost(locks@),
            );
            relax(
                &mut field,
                board,
                Ghost(piece),
                parent,
                PathfinderMove::Right,
                &mut queue,
                Ghost(locks@),
            );
            let landed = relax(
                &mut field,
                board,
                Ghost(piece),
                parent,
                PathfinderMove::SonicDrop,
                &mut queue,
                Ghost(locks@),
            );
            proof {
                lemma_landed(g, parent);
            }
            record_lock(
                &field,
                &mut locks,
                landed,
                Ghost(g),
                Ghost(piece),
                Ghost(queue@),
                Ghost(Some(parent)),
            );
            proof {
                assert(crate::frontier::closed(field@, g, piece.kind, parent)) by {
                    reveal(crate::frontier::closed);
                    assert forall|mv: PathfinderMove| move_allowed(piece.kind, mv) implies (
                    #[trigger] crate::frontier::relaxed(field@, g, piece.kind, parent, mv)) by {
                        match mv {
                            PathfinderMove::Left => {},
                            PathfinderMove::Right => {},
                            PathfinderMove::RotLeft => {},
                            PathfinderMove::RotRight => {},
                            PathfinderMove::SonicDrop => {},
                        }
                    }
                }
                if resting(g, parent) {
                    assert(landed == parent);
                }
                lemma_search_done(field@, g, piece, queue@, locks@, parent);
            }
        }
        let mut moves: Vec<(Piece, i32)> = Vec::new();
        let mut i: usize = 0;
        proof {
            assert(queue@ =~= Seq::<Piece>::empty());
        }
        while i < locks.len()
            invariant
                i <= locks@.len(),
                piece.r < 4,
                piece.fits(g),
                search_inv(field@, g, piece, Seq::empty(), locks@, None),
                moves@.len() == i,
                forall|k: int| 0 <= k < i ==> (#[trigger] moves@[k]).0 == locks@[k],
                forall|k: int|
                    0 <= k < moves@.len() ==> (#[trigger] moves@[k]).1 == node_true_dist(
                        field@[state_index(moves@[k].0)].unwrap(),
                    ),
            decreases locks@.len() - i,
        {
            let rep = locks[i];
            proof {
                assert(has_entry(field@, piece.kind, locks@[i as int]));
                assert(node_ok(field@, g, piece, rep, field@[state_index(rep)].unwrap()));
            }
            let cost = match field[index_of(rep)] {
                Some(node) => node.true_dist(),
                None => 0,
            };
            let ghost so_far = moves@;
            moves.push((rep, cost));
            proof {
                assert forall|k: int| 0 <= k < moves@.len() implies (#[trigger] moves@[k]).1
                    == node_true_dist(field@[state_index(moves@[k].0)].unwrap()) by {
                    if k < so_far.len() {
                        assert(moves@[k] == so_far[k]);
                    }
                }
            }
            i += 1;
        }
        let ghost view = MovesView { grid: g, start: piece, table: field@, positions: moves@ };
        proof {
            assert(view.lock_positions() =~= locks@);
        }
        Moves { field, moves, grid: Ghost(g), start: Ghost(piece) }
    }

    /// The lock positions: for each set of four cells on which the piece
    /// can come to rest one state that covers them, with the cost of the
    /// way to it, its last drop left out.
    pub fn positions(&self) -> (positions: &Vec<(Piece, i32)>)
        ensures
            positions@ == self@.positions,
    {
        &self.moves
    }

    /// The entry of `state`, if there is one.
    pub fn get(&self, state: Piece) -> (entry: Option<MoveNode>)
        requires
            in_table(state),
        ensures
            entry == self@.table[state_index(state)],
    {
        proof {
            use_type_invariant(self);
        }
        self.field[index_of(state)]
    }

    /// Whether the search found a way to `state`.
    pub fn contains(&self, state: Piece) -> (found: bool)
        ensures
            found == (in_table(state) && self@.table[state_index(state)].is_some()),
    {
        if state.x < 0 || state.x >= 10 || state.y < 0 || state.y >= 40 || state.r >= 4 {
            return false;
        }
        self.get(state).is_some()
    }

    /// The inputs that lead from the start to `state`, without the drop at
    /// their end where there is one: the caller ends every placement with
    /// a drop of its own.
    pub fn path(&self, state: Piece) -> (path: VecDeque<PathfinderMove>)
        requires
            self@.visited(state),
        ensures
            path_allowed(self@.start.kind, path@),
            path@.len() > 0 ==> path@.last() != PathfinderMove::SonicDrop,
            replay(self@.grid, self@.start, path@) == state || apply_move(
                self@.grid,
                replay(self@.grid, self@.start, path@),
                PathfinderMove::SonicDrop,
            ) == state,
    {
        proof {
            use_type_invariant(self);
        }
        let ghost g = self@.grid;
        let ghost start = self@.start;
        let ghost table = self@.table;
        let mut path: VecDeque<PathfinderMove> = VecDeque::new();
        let mut current = state;
        let mut skipping = true;
        let ghost mut tail: Seq<PathfinderMove> = Seq::empty();
        proof {
            if !start.fits(g) {
                lemma_state_index_range(state);
                assert(table[state_index(state)].is_none());
            }
        }
        assert(replay(g, current, path@ + tail) == state);
        loop
            invariant
                g == self@.grid,
                start == self@.start,
                table == self@.table,
                table_ok(table, g, start),
                has_entry(table, start.kind, current),
                path_allowed(start.kind, path@),
                skipping ==> path@.len() == 0,
                !skipping ==> path@.len() > 0 && path@.last() != PathfinderMove::SonicDrop,
                tail.len() <= 1,
                tail.len() == 1 ==> tail[0] == PathfinderMove::SonicDrop,
                skipping && tail.len() == 1 ==> !(table[state_index(current)].unwrap().mv
                    == PathfinderMove::SonicDrop && table[state_index(
                    current,
                )].unwrap().parent.is_some()),
                replay(g, current, path@ + tail) == state,
            ensures
                current == start,
                path_allowed(start.kind, path@),
                path@.len() > 0 ==> path@.last() != PathfinderMove::SonicDrop,
                tail.len() <= 1,
                tail.len() == 1 ==> tail[0] == PathfinderMove::SonicDrop,
                replay(g, current, path@ + tail) == state,
            decreases node_rank(table[state_index(current)].unwrap()),
        {
            let node = match self.get(current) {
                Some(node) => node,
                None => {
                    break ;
                },
            };
            assert(node_ok(table, g, start, current, node));
            let previous = match node.parent {
                Some(previous) => previous,
                None => {
                    break ;
                },
            };
            let ghost before = path@ + tail;
            proof {
                lemma_replay_front(g, previous, node.mv, before);
                assert(has_entry(table, start.kind, previous));
                let pn = table[state_index(previous)].unwrap();
                assert(node_ok(table, g, start, previous, pn));
                if node.mv == PathfinderMove::SonicDrop {
                    // The predecessor moved under the drop, so it does not rest and
                    // its own entry is no drop.
                    lemma_drop_moves(g, previous);
                }
            }
            if node.mv != PathfinderMove::SonicDrop {
                skipping = false;
            }
            if !skipping {
                path.push_front(node.mv);
                proof {
                    assert(path@ + tail =~= seq![node.mv] + before);
                }
            } else {
                proof {
                    assert(before =~= Seq::<PathfinderMove>::empty());
                    tail = seq![node.mv];
                    assert(path@ + tail =~= seq![node.mv] + before);
                }
            }
            current = previous;
        }
        proof {
            if tail.len() == 0 {
                assert(path@ + tail =~= path@);
            } else {
                let whole = path@ + tail;
                assert(whole.drop_last() =~= path@);
                assert(whole.last() == PathfinderMove::SonicDrop);
            }
        }
        path
    }
}

/// Every state with an entry can be reached from the start by inputs.
pub proof fn lemma_entry_reachable(t: Seq<Option<MoveNode>>, g: Seq<u16>, start: Piece, s: Piece)
    requires
        table_ok(t, g, start),
        has_entry(t, start.kind, s),
    ensures
        reachable(g, start, s),
    decreases node_rank(t[state_index(s)].unwrap()),
{
    let n = t[state_index(s)].unwrap();
    assert(node_ok(t, g, start, s, n));
    match n.parent {
        None => {
            let path = Seq::<PathfinderMove>::empty();
            assert(replay(g, start, path) == s);
            assert(path_allowed(start.kind, path));
        },
        Some(p) => {
            assert(has_entry(t, start.kind, p));
            assert(node_ok(t, g, start, p, t[state_index(p)].unwrap()));
            lemma_entry_reachable(t, g, start, p);
            let before = choose|path: Seq<PathfinderMove>|
                path_allowed(start.kind, path) && #[trigger] replay(g, start, path) == p;
            let path = before.push(n.mv);
            assert(path.drop_last() =~= before);
            assert(path.last() == n.mv);
            assert(replay(g, start, path) == s);
            assert(path_allowed(start.kind, path));
        },
    }
}

/// The search finds every state that inputs can lead to: whatever
/// sequence of inputs is replayed from a start that fits, the state it
/// ends in has an entry.
pub proof fn law_reachable_found(found: MovesView, path: Seq<PathfinderMove>)
    requires
        found.wf(),
        found.start.fits(found.grid),
        path_allowed(found.start.kind, path),
    ensures
        found.visited(replay(found.grid, found.start, path)),
    decreases path.len(),
{
    let t = found.table;
    let g = found.grid;
    let start = found.start;
    if path.len() > 0 {
        let before = path.drop_last();
        assert forall|i: int| 0 <= i < before.len() implies move_allowed(
            start.kind,
            #[trigger] before[i],
        ) by {
            assert(before[i] == path[i]);
        }
        law_reachable_found(found, before);
        let s = replay(g, start, before);
        assert(has_entry(t, start.kind, s));
        assert(!Seq::<Piece>::empty().contains(s));
        assert(crate::frontier::closed(t, g, start.kind, s));
        reveal(crate::frontier::closed);
        assert(move_allowed(start.kind, path.last()));
        assert(crate::frontier::relaxed(t, g, start.kind, s, path.last()));
        assert(has_entry(t, start.kind, apply_move(g, s, path.last())));
    }
}

/// The search reports a lock position for every place where the piece can
/// come to rest: whatever sequence of inputs ends with the piece at rest,
/// one reported position covers the same four cells, and its cost is no
/// higher than that of the state's own entry.
pub proof fn law_lock_found(found: MovesView, path: Seq<PathfinderMove>)
    requires
        found.wf(),
        found.start.fits(found.grid),
        path_allowed(found.start.kind, path),
        resting(found.grid, replay(found.grid, found.start, path)),
    ensures
        exists|i: int|
            0 <= i < found.positions.len() && same_cells(
                (#[trigger] found.positions[i]).0,
                replay(found.grid, found.start, path),
            ) && found.positions[i].1 <= node_true_dist(
                found.entry(replay(found.grid, found.start, path)),
            ),
{
    let t = found.table;
    let d = replay(found.grid, found.start, path);
    law_reachable_found(found, path);
    assert(has_entry(t, found.start.kind, d));
    assert(!Seq::<Piece>::empty().contains(d));
    assert(covered(t, found.lock_positions(), d));
    reveal(covered);
    let locks = found.lock_positions();
    let i = choose|i: int|
        0 <= i < locks.len() && same_cells(#[trigger] locks[i], d) && node_true_dist(
            t[state_index(locks[i])].unwrap(),
        ) <= node_true_dist(t[state_index(d)].unwrap());
    assert(locks[i] == found.positions[i].0);
    assert(found.positions[i].1 == node_true_dist(found.entry(found.positions[i].0)));
}

/// The search reports nothing else: each reported position fits the grid,
/// rests, and can be reached from the start by inputs; and no two reported
/// positions cover the same four cells.
pub proof fn law_lock_sound(found: MovesView, i: int, j: int)
    requires
        found.wf(),
        0 <= i < found.positions.len(),
        0 <= j < found.positions.len(),
    ensures
        found.start.fits(found.grid),
        found.visited(found.positions[i].0),
        found.positions[i].0.fits(found.grid),
        resting(found.grid, found.positions[i].0),
        reachable(found.grid, found.start, found.positions[i].0),
        i != j ==> !same_cells(found.positions[i].0, found.positions[j].0),
{
    let locks = found.lock_positions();
    assert(locks[i] == found.positions[i].0);
    assert(locks[j] == found.positions[j].0);
    assert(has_entry(found.table, found.start.kind, locks[i]));
    lemma_entry_reachable(found.table, found.grid, found.start, locks[i]);
    if i < j {
        assert(!same_cells(locks[i], locks[j]));
    } else if j < i {
        assert(!same_cells(locks[j], locks[i]));
    }
}

/// The cost reported with a lock position is the least among the entries
/// of all resting states that cover its cells.
pub proof fn law_lock_cost_least(found: MovesView, i: int, d: Piece)
    requires
        found.wf(),
        0 <= i < found.positions.len(),
        found.visited(d),
        resting(found.grid, d),
        same_cells(found.positions[i].0, d),
    ensures
        found.positions[i].1 <= node_true_dist(found.entry(d)),
{
    let t = found.table;
    let locks = found.lock_positions();
    assert(locks[i] == found.positions[i].0);
    assert(!Seq::<Piece>::empty().contains(d));
    assert(covered(t, locks, d));
    reveal(covered);
    let k = choose|k: int|
        0 <= k < locks.len() && same_cells(#[trigger] locks[k], d) && node_true_dist(
            t[state_index(locks[k])].unwrap(),
        ) <= node_true_dist(t[state_index(d)].unwrap());
    if k < i {
        assert(!same_cells(locks[k], locks[i]));
    } else if i < k {
        assert(!same_cells(locks[i], locks[k]));
    }
    assert(found.positions[i].1 == node_true_dist(found.entry(found.positions[i].0)));
}

/// A state with an entry is of the kind of the start.
pub proof fn lemma_entry_kind(found: MovesView, s: Piece)
    requires
        found.visited(s),
    ensures
        s.kind == found.start.kind,
{
}

/// A search reports no more lock positions than there are states.
pub proof fn law_positions_bounded(found: MovesView)
    requires
        found.wf(),
    ensures
        found.positions.len() <= STATES,
{
    if found.start.fits(found.grid) {
        let locks = found.lock_positions();
        let places = Seq::new(locks.len(), |i: int| state_index(locks[i]));
        assert forall|i: int, j: int|
            0 <= i < places.len() && 0 <= j < places.len() && i != j implies places[i]
            != places[j] by {
            assert(has_entry(found.table, found.start.kind, locks[i]));
            assert(has_entry(found.table, found.start.kind, locks[j]));
            if i < j {
                assert(!same_cells(locks[i], locks[j]));
            } else {
                assert(!same_cells(locks[j], locks[i]));
            }
            if places[i] == places[j] {
                lemma_state_index(locks[i], locks[j]);
            }
        }
        places.unique_seq_to_set();
        vstd::set_lib::lemma_int_range(0, STATES as int);
        assert forall|x: int| places.to_set().contains(x) implies vstd::set_lib::set_int_range(
            0,
            STATES as int,
        ).contains(x) by {
            let i = choose|i: int| 0 <= i < places.len() && places[i] == x;
            assert(has_entry(found.table, found.start.kind, locks[i]));
            lemma_state_index_range(locks[i]);
        }
        vstd::set_lib::lemma_len_subset(
            places.to_set(),
            vstd::set_lib::set_int_range(0, STATES as int),
        );
    }
}

/// The cost reported with a lock position is the cost of a way to it:
/// some sequence of inputs leads from the start to the position and costs,
/// a drop at its end left out, what is reported.
pub proof fn law_cost_achieved(found: MovesView, i: int)
    requires
        found.wf(),
        0 <= i < found.positions.len(),
    ensures
        exists|path: Seq<PathfinderMove>|
            path_allowed(found.start.kind, path) && #[trigger] replay(
                found.grid,
                found.start,
                path,
            ) == found.positions[i].0 && adjusted_cost(found.grid, found.start, path)
                == found.positions[i].1,
{
    let g = found.grid;
    let start = found.start;
    let s = found.positions[i].0;
    law_lock_sound(found, i, i);
    let n = found.entry(s);
    assert(node_ok(found.table, g, start, s, n));
    let path = choose|path: Seq<PathfinderMove>| is_way(g, start, path, s, n);
    assert(replay(g, start, path) == s);
    assert(adjusted_cost(g, start, path) == node_true_dist(n));
}

/// No input from a state that the search reached leads to a state at a
/// lower cost than the search found for it: the cost of the state that an
/// input leads to, a drop at its end left out, is no higher than the cost
/// of the state it comes from, all drops counted, and the cost of the
/// input where that is no drop.
pub proof fn law_cost_settled(found: MovesView, s: Piece, mv: PathfinderMove)
    requires
        found.wf(),
        found.visited(s),
        move_allowed(found.start.kind, mv),
        apply_move(found.grid, s, mv) != s,
    ensures
        found.visited(apply_move(found.grid, s, mv)),
        node_true_dist(found.entry(apply_move(found.grid, s, mv))) <= found.entry(s).total_dist
            + if mv == PathfinderMove::SonicDrop {
            0int
        } else {
            1int
        },
{
    if !found.start.fits(found.grid) {
        lemma_state_index_range(s);
    }
    assert(!Seq::<Piece>::empty().contains(s));
    assert(crate::frontier::closed(found.table, found.grid, found.start.kind, s));
    reveal(crate::frontier::closed);
    assert(crate::frontier::relaxed(found.table, found.grid, found.start.kind, s, mv));
}

/// Whether every entry of the search costs, all its drops counted, no more
/// than any way to its state.
pub open spec fn totals_least(found: MovesView) -> bool {
    forall|path: Seq<PathfinderMove>|
        path_allowed(found.start.kind, path) ==> found.entry(
            #[trigger] replay(found.grid, found.start, path),
        ).total_dist <= path_cost(found.grid, found.start, path)
}

/// Where every entry costs, all its drops counted, no more than any way
/// to its state, the cost reported with a lock position is the least: no
/// sequence of inputs that ends with the piece at rest on the same four
/// cells costs less, a drop at its end left out.
///
/// The search keeps for each state the way that is shortest without its
/// last drop, and that way may be longer than another with all its drops
/// counted; the states behind such a state are then reached at a higher
/// cost than need be, and the law does not hold of them.
pub proof fn law_cost_least_where_totals_are(found: MovesView, path: Seq<PathfinderMove>)
    requires
        found.wf(),
        found.start.fits(found.grid),
        totals_least(found),
        path_allowed(found.start.kind, path),
        resting(found.grid, replay(found.grid, found.start, path)),
    ensures
        exists|i: int|
            0 <= i < found.positions.len() && same_cells(
                (#[trigger] found.positions[i]).0,
                replay(found.grid, found.start, path),
            ) && found.positions[i].1 <= adjusted_cost(found.grid, found.start, path),
{
    let g = found.grid;
    let start = found.start;
    let d = replay(g, start, path);
    law_lock_found(found, path);
    law_reachable_found(found, path);
    assert(node_ok(found.table, g, start, d, found.entry(d)));
    if path.len() == 0 {
        assert(found.entry(d).total_dist <= path_cost(g, start, path));
    } else {
        let before = path.drop_last();
        let mv = path.last();
        assert forall|i: int| 0 <= i < before.len() implies move_allowed(
            start.kind,
            #[trigger] before[i],
        ) by {
            assert(before[i] == path[i]);
        }
        law_reachable_found(found, before);
        let s = replay(g, start, before);
        assert(found.entry(s).total_dist <= path_cost(g, start, before));
        assert(move_allowed(start.kind, mv));
        if d != s {
            law_cost_settled(found, s, mv);
        } else {
            reveal(apply_move);
        }
    }
}

} // verus!
