use vstd::prelude::*;
use crate::arith::{sat, sat_add};
use crate::board::{lock_result, lock_view, Board, BoardView, LockResult};
use crate::evaluator::Evaluator;
use crate::geometry::PieceType;
use crate::pathfinder::{
    adjusted_cost, law_cost_achieved, law_lock_found, law_lock_sound, law_positions_bounded,
    path_allowed, replay, resting, same_cells, Moves, PathfinderMove,
};
use crate::piece::{lemma_fits_anchor, Piece, TspinType};

verus! {

/// One explored board: the placement that led to it from its parent, what
/// the evaluator said of it, and the boards that were explored from it.
pub struct Node {
    /// The board after the placement.
    pub board: Board,
    /// The piece that was locked to reach this board.
    pub mv: Piece,
    /// The cost of the way from the spawn to `mv` on the parent's board.
    pub move_dist: i32,
    /// What locking `mv` did.
    pub lock: LockResult,
    /// Whether the placement began with a hold.
    pub uses_hold: bool,
    /// The boards explored from this one.
    pub children: Vec<Node>,
    /// How good the board is: the evaluator's value at first, later the
    /// value of the best line found below.
    pub value: i32,
    /// How good the placement was.
    pub reward: i32,
    /// The reward gathered along the best line found below.
    pub max_child_reward: i32,
    /// How many boards of this subtree were scored.
    pub visits: u32,
    /// Whether nothing is left to explore below.
    pub finished: bool,
    /// How many pieces of the queue were used up to here.
    pub depth: u32,
}

/// The number by which nodes are ranked: value, reward and the reward of
/// the best line below, added with saturation.
pub open spec fn spec_total(value: int, reward: int, max_child_reward: int) -> int {
    sat(sat(value + reward) + max_child_reward)
}

/// How many pieces of the queue the placement of `child` used up on the
/// board `parent`: two where it began with a hold and nothing was held,
/// else one.
pub open spec fn pieces_used(parent: Board, child: Node) -> int {
    if child.uses_hold && parent@.hold.is_none() {
        2
    } else {
        1
    }
}

/// The board on which a placement is made: the parent's board, with
/// `current` put into the hold slot where the placement begins with a
/// hold.
pub open spec fn held_view(parent: BoardView, current: PieceType, uses_hold: bool) -> BoardView {
    if uses_hold {
        BoardView { hold: Some(current), ..parent }
    } else {
        parent
    }
}

/// The kind of the piece that is placed from a node that has used `depth`
/// pieces of `queue`: the next piece of the queue, or, where the placement
/// begins with a hold, the held piece, or the piece after the next where
/// nothing is held.
pub open spec fn placed_kind(
    parent: BoardView,
    depth: int,
    queue: Seq<PieceType>,
    uses_hold: bool,
) -> PieceType {
    if !uses_hold {
        queue[depth]
    } else {
        match parent.hold {
            Some(held) => held,
            None => queue[depth + 1],
        }
    }
}

/// Whether inputs lead from `start` to `mv` on the grid `g` at the cost
/// `cost`, a drop at their end left out.
pub open spec fn way_costs(g: Seq<u16>, start: Piece, mv: Piece, cost: int) -> bool {
    exists|path: Seq<PathfinderMove>|
        path_allowed(start.kind, path) && #[trigger] replay(g, start, path) == mv && adjusted_cost(
            g,
            start,
            path,
        ) == cost
}

/// Whether `child` is a placement from a node with the board `parent` that
/// has used `depth` pieces of `queue`: its piece is of the kind that is
/// placed there and fits at its spawn; its move is a place where that piece
/// can come to rest, reached from the spawn by inputs at the cost that the
/// child keeps; its board is the parent's with the move locked onto it,
/// after the hold where it begins with one; and it has used the pieces that
/// its placement took.
pub open spec fn child_of(parent: Board, depth: int, queue: Seq<PieceType>, child: Node) -> bool {
    let kind = placed_kind(parent@, depth, queue, child.uses_hold);
    let start = Piece::spec_spawn(parent.grid(), kind);
    let before = held_view(parent@, queue[depth], child.uses_hold);
    &&& 0 <= depth < queue.len()
    &&& child.depth == depth + pieces_used(parent, child)
    &&& child.depth <= queue.len()
    &&& child.mv.kind == kind
    &&& start.fits(parent.grid())
    &&& child.mv.fits(parent.grid())
    &&& resting(parent.grid(), child.mv)
    &&& way_costs(parent.grid(), start, child.mv, child.move_dist as int)
    &&& child.board@ == lock_view(before, child.mv)
    &&& child.lock == lock_result(before, child.mv)
}

/// The most children that one expansion can make: a lock position for
/// every state, once without and once with a hold.
pub open spec fn most_children() -> nat {
    9600
}

/// What a node that is still to be expanded weighs at `depth` in a tree
/// over `qlen` pieces: more than a node that was expanded, with as many
/// children as an expansion can make, each still to be expanded.
pub open spec fn leaf_weight(depth: int, qlen: int) -> nat
    decreases qlen - depth,
{
    if depth >= qlen {
        1
    } else {
        2 + most_children() * leaf_weight(depth + 1, qlen)
    }
}

/// The potentials of the children from the `i`-th on, added up.
pub open spec fn potential_from(children: Seq<Node>, i: int, qlen: int) -> nat
    decreases children, children.len() - i,
{
    if 0 <= i < children.len() {
        children[i].potential(qlen) + potential_from(children, i + 1, qlen)
    } else {
        0
    }
}

/// Whether each of `children` is as it was made: scored once, with
/// nothing explored below it, and finished exactly where it has used all
/// `qlen` pieces of the queue.
pub open spec fn all_fresh(children: Seq<Node>, qlen: int) -> bool {
    forall|j: int|
        0 <= j < children.len() ==> (#[trigger] children[j]).visits == 1
            && children[j].children@.len() == 0 && children[j].max_child_reward == 0
            && children[j].finished == (children[j].depth >= qlen)
}

/// Whether none of `children` is a placement that begins with a hold.
pub open spec fn none_held(children: Seq<Node>) -> bool {
    forall|j: int| 0 <= j < children.len() ==> !(#[trigger] children[j]).uses_hold
}

/// Whether no two of `children` that both begin with a hold, or both do
/// not, cover the same four cells.
pub open spec fn apart(children: Seq<Node>) -> bool {
    forall|j: int, k: int|
        0 <= j < k < children.len() && (#[trigger] children[j]).uses_hold == (
        #[trigger] children[k]).uses_hold ==> !same_cells(children[j].mv, children[k].mv)
}

/// Whether each of `children` that begins with a hold, or does not, as
/// `uses_hold` says, was made for one of the first `n` of `positions`.
pub open spec fn made_for(
    children: Seq<Node>,
    positions: Seq<(Piece, i32)>,
    n: int,
    uses_hold: bool,
) -> bool {
    forall|j: int|
        0 <= j < children.len() && (#[trigger] children[j]).uses_hold == uses_hold ==> exists|
            k: int,
        | 0 <= k < n && (#[trigger] positions[k]).0 == children[j].mv
}

/// Whether no two of `positions` cover the same four cells.
pub open spec fn positions_apart(positions: Seq<(Piece, i32)>) -> bool {
    forall|a: int, b: int|
        0 <= a < positions.len() && 0 <= b < positions.len() && a != b ==> !same_cells(
            (#[trigger] positions[a]).0,
            (#[trigger] positions[b]).0,
        )
}

/// Whether one of `children` is a placement at `mv`, with or without a
/// hold as `uses_hold` says.
pub open spec fn has_child(children: Seq<Node>, mv: Piece, uses_hold: bool) -> bool {
    exists|j: int|
        0 <= j < children.len() && (#[trigger] children[j]).mv == mv && children[j].uses_hold
            == uses_hold
}

/// Whether the children hold a placement for every place where a piece
/// that starts at `start` can come to rest on the grid `g`: whatever
/// sequence of inputs ends with the piece at rest, one child, with or
/// without a hold as `uses_hold` says, covers the same four cells.
#[verifier::opaque]
pub open spec fn covers(children: Seq<Node>, g: Seq<u16>, start: Piece, uses_hold: bool) -> bool {
    forall|path: Seq<PathfinderMove>|
        path_allowed(start.kind, path) && resting(g, #[trigger] replay(g, start, path))
            ==> exists|j: int|
            0 <= j < children.len() && (#[trigger] children[j]).uses_hold == uses_hold
                && same_cells(children[j].mv, replay(g, start, path))
}

impl Node {
    /// The number by which this node is ranked.
    pub open spec fn total(&self) -> int {
        spec_total(self.value as int, self.reward as int, self.max_child_reward as int)
    }

    /// The odds of the `j`-th child where `least` is the least total among
    /// the eligible children: how far the child's total lies above `least`,
    /// how far the node's own value with the reward of its best line lies
    /// above it, the visits of the node and the visits of the child.
    pub open spec fn spec_odds(&self, j: int, least: int) -> (i64, i64, u32, u32) {
        (
            (self.children@[j].total() - least) as i64,
            (sat(self.value + self.max_child_reward) - least) as i64,
            self.visits,
            self.children@[j].visits,
        )
    }

    /// Whether the search may descend into this node: it is not finished
    /// and its placement was no block-out.
    pub open spec fn eligible(&self) -> bool {
        !self.finished && !self.lock.block_out
    }

    /// What holds of every node of a search tree over the pieces `queue`:
    /// it uses no more pieces than the queue holds, a finished node has no
    /// child left to descend into, and each child is a placement of a piece
    /// of the queue on the node's board.
    pub open spec fn tree_wf(&self, queue: Seq<PieceType>) -> bool
        decreases self,
    {
        &&& self.depth <= queue.len()
        &&& self.finished ==> forall|i: int|
            0 <= i < self.children@.len() ==> !(#[trigger] self.children@[i]).eligible()
        &&& forall|i: int|
            0 <= i < self.children@.len() ==> (#[trigger] self.children@[i]).tree_wf(queue)
                && child_of(self.board, self.depth as int, queue, self.children@[i])
    }

    /// Whether `after` is `self` with `k` pieces fewer used: every node of
    /// the subtree has its depth lowered by `k` and is no longer finished,
    /// and is otherwise what it was.
    pub open spec fn advanced_to(&self, after: Node, k: int) -> bool
        decreases self,
    {
        &&& after.board == self.board
        &&& after.mv == self.mv
        &&& after.move_dist == self.move_dist
        &&& after.lock == self.lock
        &&& after.uses_hold == self.uses_hold
        &&& after.value == self.value
        &&& after.reward == self.reward
        &&& after.max_child_reward == self.max_child_reward
        &&& after.visits == self.visits
        &&& !after.finished
        &&& after.depth == self.depth - k
        &&& after.children@.len() == self.children@.len()
        &&& forall|i: int|
            0 <= i < self.children@.len() ==> (#[trigger] self.children@[i]).advanced_to(
                after.children@[i],
                k,
            )
    }

    /// What the node itself adds to the potential of its subtree: nothing
    /// once it is finished, one while it has children to descend into, and
    /// its leaf weight while it is still to be expanded.
    pub open spec fn own_weight(&self, qlen: int) -> nat {
        if self.finished {
            0
        } else if self.children@.len() == 0 {
            leaf_weight(self.depth as int, qlen)
        } else {
            1
        }
    }

    /// A number that falls with every pass of the search through a subtree
    /// that is not finished: what the nodes of the subtree add up to.
    pub open spec fn potential(&self, qlen: int) -> nat
        decreases self,
    {
        self.own_weight(qlen) + potential_from(self.children@, 0, qlen)
    }

    /// Whether `self` is what `before` was: the same in every field, with
    /// the same children.
    pub open spec fn unchanged(&self, before: Node) -> bool {
        &&& self.same_placement(before)
        &&& self.value == before.value
        &&& self.max_child_reward == before.max_child_reward
        &&& self.visits == before.visits
        &&& self.finished == before.finished
        &&& self.children@ == before.children@
    }

    /// Whether `self` is `before` after it took in what came up from a
    /// pass below it: the boards scored are counted, and the value and the
    /// reward that came up are kept where their sum is higher than that of
    /// the node's own value and the reward of its best line so far.
    pub open spec fn absorbed(&self, before: Node, below: ((i32, i32), u32)) -> bool {
        let better = sat(below.0.0 + below.0.1) > sat(before.value + before.max_child_reward);
        &&& self.same_placement(before)
        &&& self.finished == before.finished
        &&& self.value == if better {
            below.0.0
        } else {
            before.value
        }
        &&& self.max_child_reward == if better {
            below.0.1
        } else {
            before.max_child_reward
        }
        &&& self.visits == more_visits(before.visits, below.1 as int)
    }

    /// Whether `after` is what one pass of the search can make of `self`,
    /// and `out` what the pass hands up.
    ///
    /// Where a child is eligible, the pass went through one eligible child,
    /// left the others as they were, and the node took in what came up.
    /// Where none is and the node has children, the node is finished and is
    /// otherwise as it was. A node without children was expanded.
    #[verifier::opaque]
    pub open spec fn passed(
        &self,
        after: Node,
        out: ((i32, i32), u32),
        queue: Seq<PieceType>,
        use_hold: bool,
    ) -> bool
        decreases self,
    {
        if exists|i: int| 0 <= i < self.children@.len() && (#[trigger] self.children@[i]).eligible() {
            exists|i: int, below: ((i32, i32), u32)|
                #[trigger] went_through(i, below) && 0 <= i < self.children@.len()
                    && self.children@[i].eligible() && after.children@.len()
                    == self.children@.len() && (forall|j: int|
                    0 <= j < self.children@.len() && j != i ==> #[trigger] after.children@[j]
                        == self.children@[j]) && self.children@[i].passed(
                    after.children@[i],
                    below,
                    queue,
                    use_hold,
                ) && after.absorbed(*self, below) && out == handed_up(self.reward, below)
        } else if self.children@.len() > 0 {
            &&& after.same_placement(*self)
            &&& after.value == self.value
            &&& after.max_child_reward == self.max_child_reward
            &&& after.visits == self.visits
            &&& after.finished
            &&& after.children@ == self.children@
            &&& out == nothing_found()
        } else {
            expanded(*self, after, out, queue, use_hold)
        }
    }

    /// The number by which this node is ranked.
    pub fn total_value(&self) -> (t: i32)
        ensures
            t == self.total(),
    {
        sat_add(sat_add(self.value, self.reward), self.max_child_reward)
    }

    /// The root of a new tree over `board`: no placement led to it, nothing
    /// below it has been scored, and none of the queue is used up.
    pub fn root(board: Board) -> (node: Node)
        ensures
            node.board == board,
            node.mv == (Piece { kind: PieceType::O, x: 0, y: 0, r: 0, tspin: TspinType::NoSpin }),
            node.move_dist == 0,
            node.lock == (LockResult {
                lines_cleared: 0,
                block_out: false,
                combo: 0,
                b2b_bonus: false,
            }),
            node.children@.len() == 0,
            node.value == i32::MIN,
            node.reward == 0,
            node.max_child_reward == 0,
            node.visits == 1,
            !node.uses_hold,
            !node.finished,
            node.depth == 0,
            !node.lock.block_out,
            forall|queue: Seq<PieceType>| node.tree_wf(queue),
    {
        Node {
            board,
            children: Vec::new(),
            mv: Piece { kind: PieceType::O, x: 0, y: 0, r: 0, tspin: TspinType::NoSpin },
            move_dist: 0,
            lock: LockResult { lines_cleared: 0, block_out: false, combo: 0, b2b_bonus: false },
            value: i32::MIN,
            reward: 0,
            max_child_reward: 0,
            visits: 1,
            uses_hold: false,
            finished: false,
            depth: 0,
        }
    }

    /// Takes `k` used pieces off every node of the subtree and opens each
    /// for the search again.
    pub fn advance(&mut self, k: u32)
        requires
            old(self).depths_from(k as int),
        ensures
            old(self).advanced_to(*final(self), k as int),
        decreases *old(self),
    {
        self.finished = false;
        self.depth = self.depth - k;
        let n = self.children.len();
        let mut i: usize = 0;
        while i < n
            invariant
                n == self.children@.len(),
                n == old(self).children@.len(),
                i <= n,
                self.board == old(self).board,
                self.mv == old(self).mv,
                self.move_dist == old(self).move_dist,
                self.lock == old(self).lock,
                self.uses_hold == old(self).uses_hold,
                self.value == old(self).value,
                self.reward == old(self).reward,
                self.max_child_reward == old(self).max_child_reward,
                self.visits == old(self).visits,
                !self.finished,
                self.depth == old(self).depth - k,
                old(self).depths_from(k as int),
                forall|j: int|
                    0 <= j < i ==> (#[trigger] old(self).children@[j]).advanced_to(
                        self.children@[j],
                        k as int,
                    ),
                forall|j: int| i <= j < n ==> self.children@[j] == old(self).children@[j],
            decreases n - i,
        {
            assert(old(self).children@[i as int].depths_from(k as int));
            let child = &mut self.children[i];
            child.advance(k);
            i += 1;
        }
    }

    /// Whether no node of the subtree uses fewer pieces than `least`.
    pub open spec fn depths_from(&self, least: int) -> bool
        decreases self,
    {
        &&& self.depth >= least
        &&& forall|i: int|
            0 <= i < self.children@.len() ==> (#[trigger] self.children@[i]).depths_from(least)
    }
}

/// Ranks the children of a node for the next descent of the search.
///
/// `gain` is how far the child's total lies above the least total among
/// its eligible siblings, `span` how far the parent's own best line lies
/// above that least total. The search descends into the eligible child
/// with the highest key, and into the first of several with the same key.
pub trait Exploration {
    fn score(&self, gain: i64, span: i64, parent_visits: u32, child_visits: u32) -> (key: i64);
}

/// How the search goes about its work.
pub struct BotSettings<X> {
    /// Whether placements that begin with a hold are explored.
    pub use_hold: bool,
    /// What ranks the children of a node for the next descent.
    pub exploration: X,
}

/// What the search works with, apart from its tree.
pub struct BotData<E, X> {
    /// The pieces to come, the next one first.
    pub queue: Vec<PieceType>,
    pub settings: BotSettings<X>,
    pub evaluator: E,
}

/// A search for the best placement of the next piece.
pub struct Bot<E, X> {
    data: BotData<E, X>,
    root: Node,
}

/// What a search is, apart from how it is stored.
pub struct BotView<E, X> {
    /// The pieces to come, the settings and the evaluator.
    pub data: BotData<E, X>,
    /// The board as it is now, with all that was explored from it.
    pub root: Node,
}

impl<E, X> View for Bot<E, X> {
    type V = BotView<E, X>;

    closed spec fn view(&self) -> BotView<E, X> {
        BotView { data: self.data, root: self.root }
    }
}

impl<E, X> BotView<E, X> {
    /// What holds of every search: its tree is well formed over its
    /// queue, and the root has used none of it.
    pub open spec fn wf(self) -> bool {
        &&& self.root.tree_wf(self.data.queue@)
        &&& self.root.depth == 0
        &&& self.data.queue@.len() <= u32::MAX
    }
}

/// Whether `i` is the place of the first of the highest keys.
pub open spec fn is_highest(keys: Seq<Option<i64>>, i: int) -> bool {
    &&& 0 <= i < keys.len()
    &&& keys[i].is_some()
    &&& forall|j: int|
        0 <= j < keys.len() && (#[trigger] keys[j]).is_some() ==> keys[j].unwrap()
            <= keys[i].unwrap() && (j < i ==> keys[j].unwrap() < keys[i].unwrap())
}

/// The place of the first of the highest keys, if there is any key.
pub fn pick_highest(keys: &Vec<Option<i64>>) -> (pick: Option<usize>)
    ensures
        match pick {
            Some(i) => is_highest(keys@, i as int),
            None => forall|j: int| 0 <= j < keys@.len() ==> (#[trigger] keys@[j]).is_none(),
        },
{
    let mut pick: Option<usize> = None;
    let mut best: i64 = 0;
    let mut j: usize = 0;
    while j < keys.len()
        invariant
            j <= keys@.len(),
            match pick {
                Some(i) => is_highest(keys@.take(j as int), i as int) && best
                    == keys@[i as int].unwrap(),
                None => forall|k: int| 0 <= k < j ==> (#[trigger] keys@[k]).is_none(),
            },
        decreases keys@.len() - j,
    {
        let ghost seen = keys@.take(j as int);
        let ghost next = keys@.take(j as int + 1);
        assert(forall|k: int| 0 <= k < j ==> seen[k] == next[k]);
        match keys[j] {
            Some(key) => {
                if pick.is_none() || key > best {
                    pick = Some(j);
                    best = key;
                }
            },
            None => {},
        }
        j += 1;
        proof {
            match pick {
                Some(i) => {
                    assert forall|k: int|
                        0 <= k < next.len() && (#[trigger] next[k]).is_some() implies next[k].unwrap()
                        <= next[i as int].unwrap() && (k < i ==> next[k].unwrap()
                        < next[i as int].unwrap()) by {
                        if k < j - 1 {
                            assert(seen[k] == next[k]);
                        }
                    }
                },
                None => {},
            }
        }
    }
    assert(keys@.take(keys@.len() as int) =~= keys@);
    pick
}

/// Whether `least` is the least total among the eligible children.
pub open spec fn is_least_total(children: Seq<Node>, least: int) -> bool {
    &&& exists|k: int|
        0 <= k < children.len() && (#[trigger] children[k]).eligible() && children[k].total()
            == least
    &&& forall|k: int|
        0 <= k < children.len() && (#[trigger] children[k]).eligible() ==> least
            <= children[k].total()
}

/// Whether `i` is the place of the first of the children with the highest
/// total.
pub open spec fn is_best(children: Seq<Node>, i: int) -> bool {
    &&& 0 <= i < children.len()
    &&& forall|j: int|
        0 <= j < children.len() ==> (#[trigger] children[j]).total() <= children[i].total() && (j
            < i ==> children[j].total() < children[i].total())
}

/// The place of the first of the children with the highest total, if there
/// is any child.
pub fn best_child(children: &Vec<Node>) -> (pick: Option<usize>)
    ensures
        match pick {
            Some(i) => is_best(children@, i as int),
            None => children@.len() == 0,
        },
{
    if children.len() == 0 {
        return None;
    }
    let mut pick: usize = 0;
    let mut best: i32 = children[0].total_value();
    let mut j: usize = 1;
    while j < children.len()
        invariant
            1 <= j <= children@.len(),
            pick < j,
            best == children@[pick as int].total(),
            forall|k: int|
                0 <= k < j ==> (#[trigger] children@[k]).total() <= best && (k < pick
                    ==> children@[k].total() < best),
        decreases children@.len() - j,
    {
        let total = children[j].total_value();
        if total > best {
            pick = j;
            best = total;
        }
        j += 1;
    }
    Some(pick)
}

/// Whether the totals of the children never fall from one to the next.
pub open spec fn sorted_by_total(children: Seq<Node>) -> bool {
    forall|i: int, j: int|
        0 <= i <= j < children.len() ==> (#[trigger] children[i]).total() <= (
        #[trigger] children[j]).total()
}

/// Puts `child` among `children` behind the last of them whose total is no
/// higher than its own, so that children sorted by their totals stay
/// sorted and of two with the same total the older one comes first.
pub fn insert_sorted(children: &mut Vec<Node>, child: Node) -> (at: usize)
    requires
        sorted_by_total(old(children)@),
    ensures
        at <= old(children)@.len(),
        final(children)@ == old(children)@.insert(at as int, child),
        sorted_by_total(final(children)@),
        forall|j: int| 0 <= j < at ==> (#[trigger] old(children)@[j]).total() <= child.total(),
        forall|j: int|
            at <= j < old(children)@.len() ==> (#[trigger] old(children)@[j]).total()
                > child.total(),
{
    let total = child.total_value();
    let mut at: usize = children.len();
    while at > 0 && children[at - 1].total_value() > total
        invariant
            at <= children@.len(),
            children@ == old(children)@,
            total == child.total(),
            forall|j: int|
                at <= j < children@.len() ==> (#[trigger] children@[j]).total() > child.total(),
        decreases at,
    {
        at -= 1;
    }
    let ghost before = children@;
    children.insert(at, child);
    proof {
        let after = children@;
        assert forall|j: int| 0 <= j < at implies (#[trigger] before[j]).total()
            <= child.total() by {
            assert(before[j].total() <= before[at as int - 1].total());
        }
        assert forall|i: int, j: int| 0 <= i <= j < after.len() implies (#[trigger] after[i]).total()
            <= (#[trigger] after[j]).total() by {
            if i < at && j > at {
                assert(after[i] == before[i]);
                assert(after[j] == before[j - 1]);
            } else if i < at && j < at {
                assert(after[i] == before[i]);
                assert(after[j] == before[j]);
            } else if i > at {
                assert(after[i] == before[i - 1]);
                assert(after[j] == before[j - 1]);
            } else if i == at && j > at {
                assert(after[j] == before[j - 1]);
            } else if j == at && i < at {
                assert(after[i] == before[i]);
            }
        }
    }
    at
}

/// What every descent hands up for a node below which nothing was found.
pub open spec fn nothing_found() -> ((i32, i32), u32) {
    ((i32::MIN, 0i32), 0u32)
}

impl Node {
    /// Whether the fields that no descent changes are what they are in
    /// `before`.
    pub open spec fn same_placement(&self, before: Node) -> bool {
        &&& self.board == before.board
        &&& self.mv == before.mv
        &&& self.move_dist == before.move_dist
        &&& self.lock == before.lock
        &&& self.uses_hold == before.uses_hold
        &&& self.reward == before.reward
        &&& self.depth == before.depth
    }

    /// The least total among the eligible children, if any child is
    /// eligible.
    pub fn least_eligible(&self) -> (least: Option<i32>)
        ensures
            match least {
                Some(low) => is_least_total(self.children@, low as int),
                None => forall|j: int|
                    0 <= j < self.children@.len() ==> !(#[trigger] self.children@[j]).eligible(),
            },
    {
        let n = self.children.len();
        let mut least: Option<i32> = None;
        let mut j: usize = 0;
        while j < n
            invariant
                j <= n,
                n == self.children@.len(),
                match least {
                    Some(low) => (exists|k: int|
                        0 <= k < j && (#[trigger] self.children@[k]).eligible()
                            && self.children@[k].total() == low) && (forall|k: int|
                        0 <= k < j && (#[trigger] self.children@[k]).eligible() ==> low
                            <= self.children@[k].total()),
                    None => forall|k: int|
                        0 <= k < j ==> !(#[trigger] self.children@[k]).eligible(),
                },
            decreases n - j,
        {
            let child = &self.children[j];
            if !child.finished && !child.lock.block_out {
                let total = child.total_value();
                let ghost before = least;
                least = match least {
                    Some(low) => Some(
                        if total < low {
                            total
                        } else {
                            low
                        },
                    ),
                    None => Some(total),
                };
                proof {
                    match before {
                        Some(low) => {
                            if total < low {
                                assert(self.children@[j as int].eligible());
                            } else {
                                let k = choose|k: int|
                                    0 <= k < j && (#[trigger] self.children@[k]).eligible()
                                        && self.children@[k].total() == low;
                                assert(self.children@[k].eligible());
                            }
                        },
                        None => {
                            assert(self.children@[j as int].eligible());
                        },
                    }
                }
            } else {
                proof {
                    match least {
                        Some(low) => {
                            let k = choose|k: int|
                                0 <= k < j && (#[trigger] self.children@[k]).eligible()
                                    && self.children@[k].total() == low;
                            assert(self.children@[k].eligible());
                        },
                        None => {},
                    }
                }
            }
            j += 1;
        }
        least
    }

    /// What is handed to the exploration for each child: nothing for a
    /// child that is not eligible, and for an eligible one how far its
    /// total lies above the least total among the eligible children, how
    /// far the node's own best line lies above that total, and the visits
    /// of the node and of the child.
    pub fn odds(&self) -> (odds: Vec<Option<(i64, i64, u32, u32)>>)
        ensures
            odds@.len() == self.children@.len(),
            forall|j: int|
                0 <= j < odds@.len() ==> (#[trigger] odds@[j]).is_some()
                    == self.children@[j].eligible(),
            forall|j: int, least: int|
                0 <= j < odds@.len() && self.children@[j].eligible() && #[trigger] is_least_total(
                    self.children@,
                    least,
                ) ==> (#[trigger] odds@[j]) == Some(self.spec_odds(j, least)),
    {
        let n = self.children.len();
        let mut odds: Vec<Option<(i64, i64, u32, u32)>> = Vec::new();
        let least = match self.least_eligible() {
            Some(least) => least,
            None => {
                while odds.len() < n
                    invariant
                        n == self.children@.len(),
                        odds@.len() <= n,
                        forall|j: int|
                            0 <= j < self.children@.len() ==> !(
                            #[trigger] self.children@[j]).eligible(),
                        forall|j: int| 0 <= j < odds@.len() ==> (#[trigger] odds@[j]).is_none(),
                    decreases n - odds@.len(),
                {
                    odds.push(None);
                }
                return odds;
            },
        };
        proof {
            assert forall|other: int| #[trigger]
                is_least_total(self.children@, other) implies other == least by {
                let a = choose|k: int|
                    0 <= k < self.children@.len() && (#[trigger] self.children@[k]).eligible()
                        && self.children@[k].total() == other;
                let b = choose|k: int|
                    0 <= k < self.children@.len() && (#[trigger] self.children@[k]).eligible()
                        && self.children@[k].total() == least;
                assert(self.children@[a].eligible());
                assert(self.children@[b].eligible());
            }
        }
        let span: i64 = sat_add(self.value, self.max_child_reward) as i64 - least as i64;
        let mut j: usize = 0;
        while j < n
            invariant
                j <= n,
                n == self.children@.len(),
                odds@.len() == j,
                is_least_total(self.children@, least as int),
                span == sat(self.value + self.max_child_reward) - least,
                forall|k: int|
                    0 <= k < j ==> (#[trigger] odds@[k]).is_some() == self.children@[k].eligible(),
                forall|k: int|
                    0 <= k < j && self.children@[k].eligible() ==> (#[trigger] odds@[k]) == Some(
                        self.spec_odds(k, least as int),
                    ),
            decreases n - j,
        {
            let child = &self.children[j];
            let entry = if !child.finished && !child.lock.block_out {
                let gain: i64 = child.total_value() as i64 - least as i64;
                Some((gain, span, self.visits, child.visits))
            } else {
                None
            };
            odds.push(entry);
            j += 1;
        }
        odds
    }

    /// The child into which the next descent goes: among the children
    /// that are not finished and are no block-out, the first with the
    /// highest key, the key of each being what the exploration makes of
    /// its odds. There is none exactly where no child is eligible.
    pub fn select<X: Exploration>(&self, exploration: &X) -> (pick: Option<usize>)
        ensures
            match pick {
                Some(i) => i < self.children@.len() && self.children@[i as int].eligible(),
                None => forall|j: int|
                    0 <= j < self.children@.len() ==> !(#[trigger] self.children@[j]).eligible(),
            },
    {
        let odds = self.odds();
        let mut keys: Vec<Option<i64>> = Vec::new();
        let mut j: usize = 0;
        while j < odds.len()
            invariant
                j <= odds@.len(),
                keys@.len() == j,
                forall|k: int| 0 <= k < j ==> (#[trigger] keys@[k]).is_some() == odds@[k].is_some(),
            decreases odds@.len() - j,
        {
            let key = match odds[j] {
                Some((gain, span, parent_visits, child_visits)) => Some(
                    exploration.score(gain, span, parent_visits, child_visits),
                ),
                None => None,
            };
            keys.push(key);
            j += 1;
        }
        let pick = pick_highest(&keys);
        proof {
            match pick {
                Some(i) => {
                    assert(keys@[i as int].is_some());
                    assert(odds@[i as int].is_some());
                },
                None => {
                    assert forall|j: int| 0 <= j < self.children@.len() implies !(
                    #[trigger] self.children@[j]).eligible() by {
                        assert(keys@[j].is_none());
                        assert(odds@[j].is_none());
                    }
                },
            }
        }
        pick
    }

    /// The node that a placement of `mv` on this node's board leads to,
    /// scored by `data`'s evaluator.
    fn make_child<E: Evaluator, X>(
        &self,
        data: &BotData<E, X>,
        mv: Piece,
        move_dist: i32,
        uses_hold: bool,
    ) -> (child: Node)
        requires
            data.queue@.len() <= u32::MAX,
            self.depth < data.queue@.len(),
            uses_hold && self.board@.hold.is_none() ==> self.depth + 1 < data.queue@.len(),
            mv.kind == placed_kind(self.board@, self.depth as int, data.queue@, uses_hold),
            Piece::spec_spawn(self.board.grid(), mv.kind).fits(self.board.grid()),
            mv.fits(self.board.grid()),
            resting(self.board.grid(), mv),
            way_costs(
                self.board.grid(),
                Piece::spec_spawn(self.board.grid(), mv.kind),
                mv,
                move_dist as int,
            ),
        ensures
            child.tree_wf(data.queue@),
            child_of(self.board, self.depth as int, data.queue@, child),
            child.children@.len() == 0,
            child.mv == mv,
            child.move_dist == move_dist,
            child.uses_hold == uses_hold,
            child.visits == 1,
            child.max_child_reward == 0,
            child.finished == (child.depth >= data.queue@.len()),
    {
        proof {
            lemma_fits_anchor(self.board.grid(), mv.kind, mv.x as int, mv.y as int, mv.r as int);
        }
        let mut board = self.board.clone();
        let mut depth = self.depth;
        if uses_hold {
            if board.hold_swap(data.queue[depth as usize]).is_none() {
                depth += 1;
            }
        }
        let lock = board.lock_piece(mv);
        depth += 1;
        let mut child = Node {
            board,
            mv,
            move_dist,
            lock,
            children: Vec::new(),
            depth,
            value: 0,
            reward: 0,
            max_child_reward: 0,
            visits: 1,
            uses_hold,
            finished: depth as usize >= data.queue.len(),
        };
        let (value, reward) = data.evaluator.evaluate(&child, data.queue.as_slice());
        child.value = value;
        child.reward = reward;
        child
    }

    /// Makes a child of every lock position in `found` and puts it among
    /// the children by its total.
    fn add_children<E: Evaluator, X>(&mut self, data: &BotData<E, X>, found: &Moves, uses_hold: bool)
        requires
            old(self).tree_wf(data.queue@),
            sorted_by_total(old(self).children@),
            all_fresh(old(self).children@, data.queue@.len() as int),
            apart(old(self).children@),
            forall|j: int|
                0 <= j < old(self).children@.len() ==> (#[trigger] old(self).children@[j]).uses_hold
                    != uses_hold,
            !old(self).finished,
            found@.grid == old(self).board.grid(),
            found@.start == Piece::spec_spawn(
                old(self).board.grid(),
                placed_kind(old(self).board@, old(self).depth as int, data.queue@, uses_hold),
            ),
            data.queue@.len() <= u32::MAX,
            old(self).depth < data.queue@.len(),
            uses_hold && old(self).board@.hold.is_none() ==> old(self).depth + 1
                < data.queue@.len(),
        ensures
            final(self).tree_wf(data.queue@),
            sorted_by_total(final(self).children@),
            all_fresh(final(self).children@, data.queue@.len() as int),
            apart(final(self).children@),
            final(self).same_placement(*old(self)),
            final(self).value == old(self).value,
            final(self).max_child_reward == old(self).max_child_reward,
            final(self).visits == old(self).visits,
            !final(self).finished,
            final(self).children@.len() == old(self).children@.len() + found@.positions.len(),
            forall|i: int|
                0 <= i < found@.positions.len() ==> has_child(
                    final(self).children@,
                    (#[trigger] found@.positions[i]).0,
                    uses_hold,
                ),
            forall|j: int|
                0 <= j < old(self).children@.len() ==> final(self).children@.contains(
                    #[trigger] old(self).children@[j],
                ),
            forall|j: int|
                0 <= j < final(self).children@.len() ==> (#[trigger] final(self).children@[j]).uses_hold == uses_hold || old(self).children@.contains(
                    final(self).children@[j],
                ),
            found@.start.fits(found@.grid) ==> covers(
                final(self).children@,
                found@.grid,
                found@.start,
                uses_hold,
            ),
    {
        proof {
            use_type_invariant(found);
            assert(positions_apart(found@.positions)) by {
                assert forall|a: int, b: int|
                    0 <= a < found@.positions.len() && 0 <= b < found@.positions.len() && a
                        != b implies !same_cells(
                    (#[trigger] found@.positions[a]).0,
                    (#[trigger] found@.positions[b]).0,
                ) by {
                    law_lock_sound(found@, a, b);
                }
            }
        }
        let positions = found.positions();
        let mut i: usize = 0;
        while i < positions.len()
            invariant
                i <= positions@.len(),
                positions@ == found@.positions,
                found@.wf(),
                positions_apart(found@.positions),
                apart(self.children@),
                made_for(self.children@, found@.positions, i as int, uses_hold),
                self.tree_wf(data.queue@),
                sorted_by_total(self.children@),
                all_fresh(self.children@, data.queue@.len() as int),
                self.same_placement(*old(self)),
                self.value == old(self).value,
                self.max_child_reward == old(self).max_child_reward,
                self.visits == old(self).visits,
                !self.finished,
                self.children@.len() == old(self).children@.len() + i,
                found@.grid == self.board.grid(),
                found@.start == Piece::spec_spawn(
                    self.board.grid(),
                    placed_kind(self.board@, self.depth as int, data.queue@, uses_hold),
                ),
                data.queue@.len() <= u32::MAX,
                self.depth < data.queue@.len(),
                uses_hold && self.board@.hold.is_none() ==> self.depth + 1 < data.queue@.len(),
                forall|k: int|
                    0 <= k < i ==> has_child(
                        self.children@,
                        (#[trigger] found@.positions[k]).0,
                        uses_hold,
                    ),
                forall|j: int|
                    0 <= j < old(self).children@.len() ==> self.children@.contains(
                        #[trigger] old(self).children@[j],
                    ),
                forall|j: int|
                    0 <= j < self.children@.len() ==> (#[trigger] self.children@[j]).uses_hold
                        == uses_hold || old(self).children@.contains(self.children@[j]),
            decreases positions@.len() - i,
        {
            let (mv, move_dist) = positions[i];
            proof {
                law_lock_sound(found@, i as int, i as int);
                law_cost_achieved(found@, i as int);
                crate::pathfinder::lemma_entry_kind(found@, mv);
            }
            let child = self.make_child(data, mv, move_dist, uses_hold);
            let ghost before = self.children@;
            let at = insert_sorted(&mut self.children, child);
            proof {
                lemma_child_added(*self, data.queue@, before, at as int, child);
                lemma_child_added_found(
                    before,
                    at as int,
                    child,
                    old(self).children@,
                    found@.positions,
                    i as int,
                    uses_hold,
                );
                lemma_child_added_apart(
                    before,
                    at as int,
                    child,
                    found@.positions,
                    i as int,
                    uses_hold,
                );
            }
            i += 1;
        }
        proof {
            reveal(covers);
            if found@.start.fits(found@.grid) {
                assert forall|path: Seq<PathfinderMove>|
                    path_allowed(found@.start.kind, path) && resting(
                        found@.grid,
                        #[trigger] replay(found@.grid, found@.start, path),
                    ) implies exists|j: int|
                    0 <= j < self.children@.len() && (#[trigger] self.children@[j]).uses_hold
                        == uses_hold && same_cells(
                        self.children@[j].mv,
                        replay(found@.grid, found@.start, path),
                    ) by {
                    law_lock_found(found@, path);
                    let d = replay(found@.grid, found@.start, path);
                    let k = choose|k: int|
                        0 <= k < found@.positions.len() && same_cells(
                            (#[trigger] found@.positions[k]).0,
                            d,
                        );
                    assert(has_child(self.children@, found@.positions[k].0, uses_hold));
                    let j = choose|j: int|
                        0 <= j < self.children@.len() && (#[trigger] self.children@[j]).mv
                            == found@.positions[k].0 && self.children@[j].uses_hold == uses_hold;
                    assert(same_cells(self.children@[j].mv, d));
                }
            }
        }
    }

    /// Whether a placement that begins with a hold can be made from this
    /// node: there is a piece next in the queue to be held, and a piece to
    /// take its place, from the hold slot or from the queue.
    pub open spec fn can_hold(&self, queue: Seq<PieceType>) -> bool {
        self.depth < queue.len() && (self.board@.hold.is_some() || self.depth + 1 < queue.len())
    }

    /// Makes the children of a node that has none and is not at the end of
    /// the queue: a child for every lock position of the next piece, and,
    /// where holds are explored, for every lock position of the piece that
    /// a hold brings in.
    fn place_all<E: Evaluator, X>(&mut self, data: &BotData<E, X>)
        requires
            old(self).tree_wf(data.queue@),
            old(self).children@.len() == 0,
            !old(self).finished,
            old(self).depth < data.queue@.len(),
            data.queue@.len() <= u32::MAX,
        ensures
            final(self).tree_wf(data.queue@),
            final(self).same_placement(*old(self)),
            final(self).value == old(self).value,
            final(self).max_child_reward == old(self).max_child_reward,
            final(self).visits == old(self).visits,
            !final(self).finished,
            sorted_by_total(final(self).children@),
            all_fresh(final(self).children@, data.queue@.len() as int),
            apart(final(self).children@),
            final(self).children@.len() <= most_children(),
            !data.settings.use_hold ==> none_held(final(self).children@),
            places_covered(*old(self), data.queue@, false, final(self).children@),
            data.settings.use_hold && old(self).can_hold(data.queue@) ==> places_covered(
                *old(self),
                data.queue@,
                true,
                final(self).children@,
            ),
    {
        let ghost g = self.board.grid();
        let kind = data.queue[self.depth as usize];
        let piece = Piece::spawn(&self.board, kind);
        let found = Moves::moves(&self.board, piece);
        proof {
            use_type_invariant(&found);
            law_positions_bounded(found@);
        }
        self.add_children(data, &found, false);
        let ghost first = self.children@;
        proof {
            assert(none_held(first)) by {
                assert forall|j: int| 0 <= j < first.len() implies !(#[trigger] first[j]).uses_hold by {
                    if old(self).children@.contains(first[j]) {
                        let k = choose|k: int|
                            0 <= k < old(self).children@.len() && old(self).children@[k]
                                == first[j];
                    }
                }
            }
        }
        if data.settings.use_hold {
            let mut hold_board = self.board.clone();
            let held = hold_board.hold_swap(kind);
            let next: Option<PieceType> = match held {
                Some(held) => Some(held),
                None => {
                    if (self.depth as usize) + 1 < data.queue.len() {
                        Some(data.queue[self.depth as usize + 1])
                    } else {
                        None
                    }
                },
            };
            match next {
                Some(next) => {
                    let piece = Piece::spawn(&hold_board, next);
                    let found = Moves::moves(&hold_board, piece);
                    proof {
                        use_type_invariant(&found);
                        law_positions_bounded(found@);
                    }
                    self.add_children(data, &found, true);
                    proof {
                        let start = Piece::spec_spawn(g, kind);
                        if start.fits(g) {
                            lemma_covers_kept(first, self.children@, g, start, false);
                        }
                    }
                },
                None => {},
            }
        }
    }

    /// Explores the placements of the next piece of the queue from this
    /// node, which has no children yet: every lock position of the piece,
    /// and, where holds are explored, every lock position of the piece that
    /// a hold brings in. The children stand sorted by their totals. A node
    /// at the end of the queue, or one from which there is no placement,
    /// is finished. Hands up the scores of the best child and the number of
    /// children.
    pub fn expand<E: Evaluator, X>(&mut self, data: &BotData<E, X>) -> (out: ((i32, i32), u32))
        requires
            old(self).tree_wf(data.queue@),
            old(self).children@.len() == 0,
            data.queue@.len() <= u32::MAX,
        ensures
            final(self).tree_wf(data.queue@),
            final(self).same_placement(*old(self)),
            expanded(*old(self), *final(self), out, data.queue@, data.settings.use_hold),
            !old(self).finished ==> final(self).potential(data.queue@.len() as int) < old(self).potential(data.queue@.len() as int),
            old(self).finished && final(self).children@.len() == 0 ==> final(self).unchanged(*old(self)),
    {
        let ghost qlen = data.queue@.len() as int;
        proof {
            reveal(expanded);
            assert(potential_from(self.children@, 0, qlen) == 0);
            lemma_leaf_weight(self.depth as int, self.depth as int, qlen);
        }
        if self.depth as usize >= data.queue.len() {
            self.finished = true;
            proof {
                assert(self.children@ =~= old(self).children@);
            }
            return ((i32::MIN, 0), 0);
        }
        self.finished = false;
        self.place_all(data);
        let n = self.children.len();
        if n == 0 {
            self.finished = true;
            proof {
                assert(potential_from(self.children@, 0, qlen) == 0);
                assert(self.children@ =~= old(self).children@);
            }
            ((i32::MIN, 0), 0)
        } else {
            proof {
                assert forall|j: int| 0 <= j < self.children@.len() implies (
                #[trigger] self.children@[j]).depth > self.depth by {
                    assert(child_of(self.board, self.depth as int, data.queue@, self.children@[j]));
                }
                lemma_expanded_weighs_less(*self, self.depth as int, qlen);
            }
            let best = &self.children[n - 1];
            let visits: u32 = if n > u32::MAX as usize {
                u32::MAX
            } else {
                n as u32
            };
            let value = best.value;
            let reward = best.reward;
            self.value = value;
            self.max_child_reward = reward;
            self.visits = self.visits.saturating_add(visits);
            ((value, sat_add(self.reward, reward)), visits)
        }
    }
}

/// Whether `children` hold a placement for every place where the piece
/// that is placed from `node`, with or without a hold as `uses_hold` says,
/// can come to rest, provided that it fits at its spawn.
pub open spec fn places_covered(
    node: Node,
    queue: Seq<PieceType>,
    uses_hold: bool,
    children: Seq<Node>,
) -> bool {
    let g = node.board.grid();
    let start = Piece::spec_spawn(g, placed_kind(node.board@, node.depth as int, queue, uses_hold));
    start.fits(g) ==> covers(children, g, start, uses_hold)
}

/// Names the child that a pass went through and what came up from it.
pub open spec fn went_through(i: int, below: ((i32, i32), u32)) -> bool {
    true
}

/// The count of scored boards `visits` with `n` more, held at `u32::MAX`.
pub open spec fn more_visits(visits: u32, n: int) -> u32 {
    if visits + n > u32::MAX {
        u32::MAX
    } else {
        (visits + n) as u32
    }
}

/// What a node hands up from what came up to it: the value as it came,
/// the reward with the node's own reward added, and the count of boards
/// scored.
pub open spec fn handed_up(reward: i32, below: ((i32, i32), u32)) -> ((i32, i32), u32) {
    ((below.0.0, sat(reward + below.0.1) as i32), below.1)
}

/// Whether `after` is what an expansion makes of the childless node
/// `before`, and `out` what the expansion hands up.
///
/// The children are placements from `before`, none of them explored, sorted
/// by their totals, no two of a kind on the same four cells. There is one
/// for every place where the next piece of the queue can come to rest, and,
/// where holds are explored and one can be made, one for every place where
/// the piece that the hold brings in can come to rest. A node at the end
/// of the queue gets no children. The node is finished exactly where it
/// got no children, and is then otherwise as it was; else it takes the
/// scores of its last child and counts its children as scored.
#[verifier::opaque]
pub open spec fn expanded(
    before: Node,
    after: Node,
    out: ((i32, i32), u32),
    queue: Seq<PieceType>,
    use_hold: bool,
) -> bool {
    let kids = after.children@;
    let count = if kids.len() > u32::MAX {
        u32::MAX
    } else {
        kids.len() as u32
    };
    &&& after.same_placement(before)
    &&& after.finished == (kids.len() == 0)
    &&& forall|j: int|
        0 <= j < kids.len() ==> child_of(before.board, before.depth as int, queue, #[trigger] kids[j])
    &&& all_fresh(kids, queue.len() as int)
    &&& sorted_by_total(kids)
    &&& apart(kids)
    &&& !use_hold ==> none_held(kids)
    &&& before.depth >= queue.len() ==> kids.len() == 0
    &&& before.depth < queue.len() ==> places_covered(before, queue, false, kids)
    &&& use_hold && before.can_hold(queue) ==> places_covered(before, queue, true, kids)
    &&& if kids.len() == 0 {
        &&& out == nothing_found()
        &&& after.value == before.value
        &&& after.max_child_reward == before.max_child_reward
        &&& after.visits == before.visits
    } else {
        &&& after.value == kids.last().value
        &&& after.max_child_reward == kids.last().reward
        &&& after.visits == more_visits(before.visits, count as int)
        &&& out == ((kids.last().value, sat(before.reward + kids.last().reward) as i32), count)
    }
}

/// Every child but the new one was a child before, and every child from
/// before is still there, when a child comes among the children at `at`.
pub proof fn lemma_insert_keeps(before: Seq<Node>, at: int, child: Node)
    requires
        0 <= at <= before.len(),
    ensures
        before.insert(at, child)[at] == child,
        forall|j: int|
            0 <= j < before.insert(at, child).len() && j != at ==> #[trigger] before.insert(
                at,
                child,
            )[j] == before[if j < at {
                j
            } else {
                j - 1
            }],
        forall|j: int| 0 <= j < before.len() ==> before.insert(at, child).contains(#[trigger] before[j]),
{
    let after = before.insert(at, child);
    assert forall|j: int| 0 <= j < before.len() implies after.contains(#[trigger] before[j]) by {
        if j < at {
            assert(after[j] == before[j]);
        } else {
            assert(after[j + 1] == before[j]);
        }
    }
}

/// Children that are well-formed placements from `parent` and none of
/// which has been explored stay so when such a child comes among them.
pub proof fn lemma_child_added(
    parent: Node,
    queue: Seq<PieceType>,
    before: Seq<Node>,
    at: int,
    child: Node,
)
    requires
        0 <= at <= before.len(),
        child.tree_wf(queue),
        child_of(parent.board, parent.depth as int, queue, child),
        child.visits == 1 && child.children@.len() == 0 && child.max_child_reward == 0
            && child.finished == (child.depth >= queue.len()),
        forall|j: int|
            0 <= j < before.len() ==> (#[trigger] before[j]).tree_wf(queue) && child_of(
                parent.board,
                parent.depth as int,
                queue,
                before[j],
            ),
        all_fresh(before, queue.len() as int),
    ensures
        forall|j: int|
            0 <= j < before.insert(at, child).len() ==> (#[trigger] before.insert(
                at,
                child,
            )[j]).tree_wf(queue) && child_of(
                parent.board,
                parent.depth as int,
                queue,
                before.insert(at, child)[j],
            ),
        all_fresh(before.insert(at, child), queue.len() as int),
{
    let after = before.insert(at, child);
    lemma_insert_keeps(before, at, child);
    assert forall|j: int| 0 <= j < after.len() implies (#[trigger] after[j]).tree_wf(queue)
        && child_of(parent.board, parent.depth as int, queue, after[j]) by {
        if j != at {
            let m = if j < at {
                j
            } else {
                j - 1
            };
            assert(before[m].tree_wf(queue));
        }
    }
    assert forall|j: int| 0 <= j < after.len() implies (#[trigger] after[j]).visits == 1
        && after[j].children@.len() == 0 && after[j].max_child_reward == 0 && after[j].finished
        == (after[j].depth >= queue.len()) by {
        if j != at {
            let m = if j < at {
                j
            } else {
                j - 1
            };
            assert(before[m].visits == 1);
        }
    }
}

/// The positions that have their children keep them, and the children from
/// `first` stay, when the child made for the `i`-th of `positions` comes
/// among the children; and every child that is not from `first` begins
/// with a hold or does not as `uses_hold` says.
pub proof fn lemma_child_added_found(
    before: Seq<Node>,
    at: int,
    child: Node,
    first: Seq<Node>,
    positions: Seq<(Piece, i32)>,
    i: int,
    uses_hold: bool,
)
    requires
        0 <= at <= before.len(),
        0 <= i < positions.len(),
        child.mv == positions[i].0,
        child.uses_hold == uses_hold,
        forall|k: int| 0 <= k < i ==> has_child(before, (#[trigger] positions[k]).0, uses_hold),
        forall|j: int| 0 <= j < first.len() ==> before.contains(#[trigger] first[j]),
        forall|j: int|
            0 <= j < before.len() ==> (#[trigger] before[j]).uses_hold == uses_hold
                || first.contains(before[j]),
    ensures
        forall|k: int|
            0 <= k <= i ==> has_child(
                before.insert(at, child),
                (#[trigger] positions[k]).0,
                uses_hold,
            ),
        forall|j: int|
            0 <= j < first.len() ==> before.insert(at, child).contains(#[trigger] first[j]),
        forall|j: int|
            0 <= j < before.insert(at, child).len() ==> (#[trigger] before.insert(
                at,
                child,
            )[j]).uses_hold == uses_hold || first.contains(before.insert(at, child)[j]),
{
    let after = before.insert(at, child);
    lemma_insert_keeps(before, at, child);
    assert forall|k: int| 0 <= k <= i implies has_child(
        after,
        (#[trigger] positions[k]).0,
        uses_hold,
    ) by {
        if k < i {
            let j = choose|j: int|
                0 <= j < before.len() && (#[trigger] before[j]).mv == positions[k].0
                    && before[j].uses_hold == uses_hold;
            assert(after.contains(before[j]));
            let m = choose|m: int| 0 <= m < after.len() && after[m] == before[j];
            assert(after[m].mv == positions[k].0 && after[m].uses_hold == uses_hold);
        } else {
            assert(after[at].mv == positions[k].0 && after[at].uses_hold == uses_hold);
        }
    }
    assert forall|j: int| 0 <= j < first.len() implies after.contains(#[trigger] first[j]) by {
        let k = choose|k: int| 0 <= k < before.len() && before[k] == first[j];
        assert(after.contains(before[k]));
    }
    assert forall|j: int| 0 <= j < after.len() implies (#[trigger] after[j]).uses_hold
        == uses_hold || first.contains(after[j]) by {
        if j != at {
            let m = if j < at {
                j
            } else {
                j - 1
            };
            assert(before[m].uses_hold == uses_hold || first.contains(before[m]));
        }
    }
}

/// Children of which no two of a kind cover the same cells stay so when
/// the child made for the `i`-th of `positions` comes among them, the
/// others of its kind having been made for earlier positions.
pub proof fn lemma_child_added_apart(
    before: Seq<Node>,
    at: int,
    child: Node,
    positions: Seq<(Piece, i32)>,
    i: int,
    uses_hold: bool,
)
    requires
        0 <= at <= before.len(),
        0 <= i < positions.len(),
        child.mv == positions[i].0,
        child.uses_hold == uses_hold,
        positions_apart(positions),
        apart(before),
        made_for(before, positions, i, uses_hold),
    ensures
        apart(before.insert(at, child)),
        made_for(before.insert(at, child), positions, i + 1, uses_hold),
{
    let after = before.insert(at, child);
    lemma_insert_keeps(before, at, child);
    assert forall|j: int|
        0 <= j < after.len() && (#[trigger] after[j]).uses_hold == uses_hold implies exists|k: int|
        0 <= k < i + 1 && (#[trigger] positions[k]).0 == after[j].mv by {
        if j == at {
            assert(positions[i].0 == after[j].mv);
        } else {
            let m = if j < at {
                j
            } else {
                j - 1
            };
            assert(after[j] == before[m]);
            let k = choose|k: int| 0 <= k < i && (#[trigger] positions[k]).0 == before[m].mv;
            assert(positions[k].0 == after[j].mv);
        }
    }
    assert forall|j: int, k: int|
        0 <= j < k < after.len() && (#[trigger] after[j]).uses_hold == (
        #[trigger] after[k]).uses_hold implies !same_cells(after[j].mv, after[k].mv) by {
        let mj = if j < at {
            j
        } else {
            j - 1
        };
        let mk = if k < at {
            k
        } else {
            k - 1
        };
        if j != at && k != at {
            assert(after[j] == before[mj]);
            assert(after[k] == before[mk]);
            assert(!same_cells(before[mj].mv, before[mk].mv));
        } else {
            let other = if j == at {
                mk
            } else {
                mj
            };
            assert(before[other].uses_hold == uses_hold);
            let p = choose|p: int| 0 <= p < i && (#[trigger] positions[p]).0 == before[other].mv;
            assert(!same_cells(positions[p].0, positions[i].0));
            assert(!same_cells(positions[i].0, positions[p].0));
        }
    }
}

/// Children that cover every resting place still do when more children
/// come among them.
pub proof fn lemma_covers_kept(
    before: Seq<Node>,
    after: Seq<Node>,
    g: Seq<u16>,
    start: Piece,
    uses_hold: bool,
)
    requires
        covers(before, g, start, uses_hold),
        forall|j: int| 0 <= j < before.len() ==> after.contains(#[trigger] before[j]),
    ensures
        covers(after, g, start, uses_hold),
{
    reveal(covers);
    assert forall|path: Seq<PathfinderMove>|
        path_allowed(start.kind, path) && resting(g, #[trigger] replay(g, start, path)) implies exists|
        j: int,
    |
        0 <= j < after.len() && (#[trigger] after[j]).uses_hold == uses_hold && same_cells(
            after[j].mv,
            replay(g, start, path),
        ) by {
        let d = replay(g, start, path);
        let j = choose|j: int|
            0 <= j < before.len() && (#[trigger] before[j]).uses_hold == uses_hold && same_cells(
                before[j].mv,
                d,
            );
        assert(after.contains(before[j]));
        let k = choose|k: int| 0 <= k < after.len() && after[k] == before[j];
        assert(after[k].uses_hold == uses_hold && same_cells(after[k].mv, d));
    }
}

impl Node {
    /// One pass of the search through this subtree.
    ///
    /// The pass goes down into the child that `select` picks, and so never
    /// into a finished child or a block-out. Where there is no such child,
    /// a node without children is expanded and any other node is finished.
    /// On the way back up each node counts the boards that were scored and
    /// keeps the scores of the best line found below it.
    ///
    /// Hands up the value at the end of the line that was followed, the
    /// reward gathered along it from this node on, and the number of boards
    /// that were scored.
    pub fn update<E: Evaluator, X: Exploration>(&mut self, data: &BotData<E, X>) -> (out: (
        (i32, i32),
        u32,
    ))
        requires
            old(self).tree_wf(data.queue@),
            data.queue@.len() <= u32::MAX,
        ensures
            final(self).tree_wf(data.queue@),
            final(self).same_placement(*old(self)),
            old(self).passed(*final(self), out, data.queue@, data.settings.use_hold),
            !old(self).finished ==> final(self).potential(data.queue@.len() as int) < old(self).potential(data.queue@.len() as int),
            old(self).finished ==> final(self).unchanged(*old(self)) || (old(self).children@.len()
                == 0 && final(self).children@.len() > 0),
        decreases *old(self),
    {
        let ghost qlen = data.queue@.len() as int;
        match self.select(&data.settings.exploration) {
            Some(i) => {
                let ghost before = self.children@;
                let child = &mut self.children[i];
                let ((value, reward), visits) = child.update(data);
                proof {
                    let after = self.children@;
                    assert(after =~= before.update(i as int, after[i as int]));
                    lemma_potential_update(before, i as int, after[i as int], 0, qlen);
                    assert forall|j: int| 0 <= j < after.len() implies (#[trigger] after[j]).tree_wf(
                        data.queue@,
                    ) && child_of(self.board, self.depth as int, data.queue@, after[j]) by {
                        if j != i {
                            assert(after[j] == before[j]);
                        } else {
                            assert(child_of(self.board, self.depth as int, data.queue@, before[j]));
                        }
                    }
                }
                if sat_add(value, reward) > sat_add(self.value, self.max_child_reward) {
                    self.value = value;
                    self.max_child_reward = reward;
                }
                self.visits = self.visits.saturating_add(visits);
                proof {
                    lemma_passed_through(
                        *old(self),
                        *self,
                        i as int,
                        ((value, reward), visits),
                        data.queue@,
                        data.settings.use_hold,
                    );
                }
                ((value, sat_add(self.reward, reward)), visits)
            },
            None => {
                if self.children.len() == 0 {
                    let out = self.expand(data);
                    proof {
                        lemma_passed_expanded(
                            *old(self),
                            *self,
                            out,
                            data.queue@,
                            data.settings.use_hold,
                        );
                    }
                    out
                } else {
                    self.finished = true;
                    proof {
                        lemma_passed_over(*old(self), *self, data.queue@, data.settings.use_hold);
                    }
                    ((i32::MIN, 0), 0)
                }
            },
        }
    }

    /// The node that the steps of `path` lead to from this one, each step
    /// the place of a child among its parent's children.
    pub open spec fn descendant(&self, path: Seq<int>) -> Node
        decreases path.len(),
    {
        if path.len() == 0 {
            *self
        } else {
            self.descendant(path.drop_last()).children@[path.last()]
        }
    }

    /// Whether every step of `path` is the place of a child.
    pub open spec fn has_descendant(&self, path: Seq<int>) -> bool
        decreases path.len(),
    {
        path.len() == 0 || (self.has_descendant(path.drop_last()) && 0 <= path.last()
            < self.descendant(path.drop_last()).children@.len())
    }
}

/// A node that took in what came up from a pass through one of its
/// eligible children, the other children left as they were, was passed.
pub proof fn lemma_passed_through(
    before: Node,
    after: Node,
    i: int,
    below: ((i32, i32), u32),
    queue: Seq<PieceType>,
    use_hold: bool,
)
    requires
        0 <= i < before.children@.len(),
        before.children@[i].eligible(),
        after.children@.len() == before.children@.len(),
        forall|j: int|
            0 <= j < before.children@.len() && j != i ==> #[trigger] after.children@[j]
                == before.children@[j],
        before.children@[i].passed(after.children@[i], below, queue, use_hold),
        after.absorbed(before, below),
    ensures
        before.passed(after, handed_up(before.reward, below), queue, use_hold),
{
    reveal_with_fuel(Node::passed, 2);
    assert(before.children@[i].eligible());
    assert(went_through(i, below));
}

/// A node with children of which none is eligible, and which is finished
/// and otherwise as it was, was passed.
pub proof fn lemma_passed_over(before: Node, after: Node, queue: Seq<PieceType>, use_hold: bool)
    requires
        before.children@.len() > 0,
        forall|i: int| 0 <= i < before.children@.len() ==> !(#[trigger] before.children@[i]).eligible(),
        after.same_placement(before),
        after.value == before.value,
        after.max_child_reward == before.max_child_reward,
        after.visits == before.visits,
        after.finished,
        after.children@ == before.children@,
    ensures
        before.passed(after, nothing_found(), queue, use_hold),
{
    reveal_with_fuel(Node::passed, 2);
}

/// A node without children that was expanded was passed.
pub proof fn lemma_passed_expanded(
    before: Node,
    after: Node,
    out: ((i32, i32), u32),
    queue: Seq<PieceType>,
    use_hold: bool,
)
    requires
        before.children@.len() == 0,
        expanded(before, after, out, queue, use_hold),
    ensures
        before.passed(after, out, queue, use_hold),
{
    reveal_with_fuel(Node::passed, 2);
}

/// A leaf weighs less the deeper it lies, and never nothing.
pub proof fn lemma_leaf_weight(depth: int, deeper: int, qlen: int)
    requires
        depth <= deeper,
    ensures
        1 <= leaf_weight(deeper, qlen) <= leaf_weight(depth, qlen),
    decreases deeper - depth,
{
    if depth < deeper {
        lemma_leaf_weight(depth + 1, deeper, qlen);
        let below = leaf_weight(depth + 1, qlen);
        assert(most_children() * below >= below) by (nonlinear_arith)
            requires
                most_children() >= 1,
                below >= 0,
        ;
    }
}

/// What the potentials of the children add up to changes by the change in
/// the one child that was replaced.
pub proof fn lemma_potential_update(children: Seq<Node>, k: int, child: Node, i: int, qlen: int)
    requires
        0 <= k < children.len(),
        0 <= i <= children.len(),
    ensures
        i <= k ==> potential_from(children.update(k, child), i, qlen) + children[k].potential(qlen)
            == potential_from(children, i, qlen) + child.potential(qlen),
        i > k ==> potential_from(children.update(k, child), i, qlen) == potential_from(
            children,
            i,
            qlen,
        ),
    decreases children.len() - i,
{
    if i < children.len() {
        lemma_potential_update(children, k, child, i + 1, qlen);
    }
}

/// Children of which none weighs more than `most` weigh together no more
/// than their number times `most`.
pub proof fn lemma_potential_bound(children: Seq<Node>, i: int, qlen: int, most: nat)
    requires
        0 <= i <= children.len(),
        forall|j: int| 0 <= j < children.len() ==> (#[trigger] children[j]).potential(qlen) <= most,
    ensures
        potential_from(children, i, qlen) <= (children.len() - i) * most,
    decreases children.len() - i,
{
    if i < children.len() {
        lemma_potential_bound(children, i + 1, qlen, most);
        assert((children.len() - i) * most == (children.len() - (i + 1)) * most + most)
            by (nonlinear_arith);
    }
}

/// A node that was expanded at `depth` weighs, with no more children than
/// an expansion can make and none of them yet explored, less than it did
/// as a leaf.
pub proof fn lemma_expanded_weighs_less(node: Node, depth: int, qlen: int)
    requires
        depth < qlen,
        !node.finished,
        0 < node.children@.len() <= most_children(),
        all_fresh(node.children@, qlen),
        forall|j: int| 0 <= j < node.children@.len() ==> (#[trigger] node.children@[j]).depth > depth,
    ensures
        node.potential(qlen) < leaf_weight(depth, qlen),
{
    let below = leaf_weight(depth + 1, qlen);
    assert forall|j: int| 0 <= j < node.children@.len() implies (
    #[trigger] node.children@[j]).potential(qlen) <= below by {
        let child = node.children@[j];
        assert(child.children@.len() == 0);
        assert(potential_from(child.children@, 0, qlen) == 0);
        lemma_leaf_weight(depth + 1, child.depth as int, qlen);
    }
    lemma_potential_bound(node.children@, 0, qlen, below);
    let n = node.children@.len();
    assert(n * below <= most_children() * below) by (nonlinear_arith)
        requires
            n <= most_children(),
            below >= 0,
    ;
}

/// A tree that is well formed over a queue is well formed over the queue
/// with more pieces behind.
pub proof fn lemma_tree_grows(node: Node, queue: Seq<PieceType>, longer: Seq<PieceType>)
    requires
        node.tree_wf(queue),
        queue.len() <= longer.len(),
        forall|i: int| 0 <= i < queue.len() ==> queue[i] == longer[i],
    ensures
        node.tree_wf(longer),
    decreases node,
{
    assert forall|i: int| 0 <= i < node.children@.len() implies (#[trigger] node.children@[i]).tree_wf(
        longer,
    ) && child_of(node.board, node.depth as int, longer, node.children@[i]) by {
        lemma_tree_grows(node.children@[i], queue, longer);
        assert(child_of(node.board, node.depth as int, queue, node.children@[i]));
    }
}

/// In a well-formed tree no node uses fewer pieces than the root of its
/// subtree.
pub proof fn lemma_tree_depths(node: Node, queue: Seq<PieceType>, least: int)
    requires
        node.tree_wf(queue),
        least <= node.depth,
    ensures
        node.depths_from(least),
    decreases node,
{
    assert forall|i: int| 0 <= i < node.children@.len() implies (
    #[trigger] node.children@[i]).depths_from(least) by {
        assert(child_of(node.board, node.depth as int, queue, node.children@[i]));
        lemma_tree_depths(node.children@[i], queue, least);
    }
}

/// A well-formed tree whose nodes all use at least `k` pieces is well
/// formed over the queue without its first `k` pieces once `k` pieces are
/// taken off every node.
pub proof fn lemma_tree_advanced(node: Node, after: Node, queue: Seq<PieceType>, k: int)
    requires
        node.tree_wf(queue),
        node.advanced_to(after, k),
        node.depth >= k,
        k >= 0,
    ensures
        after.tree_wf(queue.skip(k)),
    decreases node,
{
    assert forall|i: int| 0 <= i < after.children@.len() implies (
    #[trigger] after.children@[i]).tree_wf(queue.skip(k)) && child_of(
        after.board,
        after.depth as int,
        queue.skip(k),
        after.children@[i],
    ) by {
        assert(node.children@[i].advanced_to(after.children@[i], k));
        assert(child_of(node.board, node.depth as int, queue, node.children@[i]));
        lemma_tree_advanced(node.children@[i], after.children@[i], queue, k);
    }
}

/// Taking a move makes its node the root and takes the pieces it used off
/// every node below: each descendant of the new root is the descendant of
/// the chosen child at the same place, with its depth lowered by the
/// number of pieces used.
pub proof fn law_reroot_depth(before: Node, after: Node, k: int, path: Seq<int>)
    requires
        before.advanced_to(after, k),
        before.has_descendant(path),
    ensures
        after.has_descendant(path),
        before.descendant(path).advanced_to(after.descendant(path), k),
        after.descendant(path).depth == before.descendant(path).depth - k,
    decreases path.len(),
{
    if path.len() > 0 {
        law_reroot_depth(before, after, k, path.drop_last());
        let parent = before.descendant(path.drop_last());
        let parent_after = after.descendant(path.drop_last());
        assert(parent.children@[path.last()].advanced_to(parent_after.children@[path.last()], k));
    }
}

impl<E: Evaluator, X: Exploration> Bot<E, X> {
    /// What holds of a search between calls: every function that makes
    /// or changes one leaves it so.
    pub open spec fn wf(&self) -> bool {
        self@.wf()
    }

    /// A search from `board` with nothing explored and an empty queue.
    pub fn new(board: Board, evaluator: E, settings: BotSettings<X>) -> (bot: Self)
        ensures
            bot.wf(),
            bot@.root.board == board,
            bot@.root.children@.len() == 0,
            !bot@.root.finished,
            bot@.data.queue@.len() == 0,
            bot@.data.settings == settings,
            bot@.data.evaluator == evaluator,
    {
        Bot { data: BotData { queue: Vec::new(), evaluator, settings }, root: Node::root(board) }
    }

    /// The board as it is now, with all that was explored from it.
    pub fn root(&self) -> (root: &Node)
        ensures
            *root == self@.root,
    {
        &self.root
    }

    /// The pieces to come, the settings and the evaluator.
    pub fn data(&self) -> (data: &BotData<E, X>)
        ensures
            *data == self@.data,
    {
        &self.data
    }

    /// Appends `mino` to the queue. The tree stays as it is: the search can
    /// only go deeper. The queue must have room for one more piece.
    pub fn update_queue(&mut self, mino: PieceType)
        requires
            old(self).wf(),
            old(self)@.data.queue@.len() < u32::MAX,
        ensures
            final(self).wf(),
            final(self)@.data.queue@ == old(self)@.data.queue@.push(mino),
            final(self)@.root == old(self)@.root,
            final(self)@.data.settings == old(self)@.data.settings,
            final(self)@.data.evaluator == old(self)@.data.evaluator,
    {
        proof {
            lemma_tree_grows(self.root, self.data.queue@, self.data.queue@.push(mino));
        }
        self.data.queue.push(mino);
    }

    /// Starts over from `board` with `queue` as the pieces to come, of
    /// which there must be no more than `u32::MAX`.
    pub fn reset(&mut self, board: Board, queue: Vec<PieceType>)
        requires
            queue@.len() <= u32::MAX,
        ensures
            final(self).wf(),
            final(self)@.root.board == board,
            final(self)@.root.children@.len() == 0,
            !final(self)@.root.finished,
            final(self)@.data.queue == queue,
            final(self)@.data.settings == old(self)@.data.settings,
            final(self)@.data.evaluator == old(self)@.data.evaluator,
    {
        self.root = Node::root(board);
        self.data.queue = queue;
    }

    /// One pass of the search from the root. Returns whether nothing is
    /// left to explore.
    pub fn think(&mut self) -> (finished: bool)
        requires
            old(self).wf(),
        ensures
            final(self).wf(),
            finished == final(self)@.root.finished,
            final(self)@.root.same_placement(old(self)@.root),
            final(self)@.data == old(self)@.data,
            exists|out: ((i32, i32), u32)| #[trigger]
                old(self)@.root.passed(
                    final(self)@.root,
                    out,
                    old(self)@.data.queue@,
                    old(self)@.data.settings.use_hold,
                ),
            !old(self)@.root.finished ==> final(self)@.root.potential(
                old(self)@.data.queue@.len() as int,
            ) < old(self)@.root.potential(old(self)@.data.queue@.len() as int),
            old(self)@.root.finished ==> final(self)@.root.unchanged(old(self)@.root) || (old(self)@.root.children@.len() == 0 && final(self)@.root.children@.len() > 0),
    {
        self.root.update(&self.data);
        self.root.finished
    }

    /// Takes the best move: the first of the root's children with the
    /// highest total becomes the root, the pieces that its placement used
    /// leave the queue, and every node below has those pieces taken off
    /// its depth and is open for the search again. Returns the new root, or
    /// `None` where the root has no child; nothing changes then.
    pub fn next_move(&mut self) -> (chosen: Option<&Node>)
        requires
            old(self).wf(),
        ensures
            final(self).wf(),
            final(self)@.data.settings == old(self)@.data.settings,
            final(self)@.data.evaluator == old(self)@.data.evaluator,
            old(self)@.root.children@.len() == 0 ==> chosen.is_none() && final(self)@.root == old(self)@.root && final(self)@.data.queue == old(self)@.data.queue,
            old(self)@.root.children@.len() > 0 ==> chosen == Some(&final(self)@.root) && exists|
                i: int,
            |
                {
                    let took = #[trigger] old(self)@.root.children@[i];
                    let used = pieces_used(old(self)@.root.board, took);
                    &&& is_best(old(self)@.root.children@, i)
                    &&& took.advanced_to(final(self)@.root, used)
                    &&& final(self)@.data.queue@ == old(self)@.data.queue@.skip(used)
                },
    {
        let pick = match best_child(&self.root.children) {
            Some(pick) => pick,
            None => {
                return None;
            },
        };
        let used: u32 = if self.root.children[pick].uses_hold && self.root.board.hold().is_none() {
            2
        } else {
            1
        };
        let ghost took = self.root.children@[pick as int];
        let ghost queue = self.data.queue@;
        let ghost qlen = queue.len() as int;
        proof {
            assert(took.tree_wf(queue));
            assert(child_of(self.root.board, 0, queue, took));
            assert(took.depth == used);
            lemma_tree_depths(took, queue, used as int);
        }
        let mut k: u32 = 0;
        while k < used
            invariant
                k <= used <= qlen,
                self.data.queue@ == old(self).data.queue@.skip(k as int),
                qlen == old(self).data.queue@.len(),
                self.root == old(self).root,
                self.data.settings == old(self).data.settings,
                self.data.evaluator == old(self).data.evaluator,
            decreases used - k,
        {
            self.data.queue.remove(0);
            proof {
                assert(self.data.queue@ =~= old(self).data.queue@.skip(k as int + 1));
            }
            k += 1;
        }
        let mut next = self.root.children.swap_remove(pick);
        next.advance(used);
        proof {
            lemma_tree_advanced(took, next, queue, used as int);
        }
        self.root = next;
        Some(&self.root)
    }
}

} // verus!
