use vstd::prelude::*;
use crate::geometry::PieceType;
use crate::pathfinder::{
    apply_move, has_entry, in_table, is_way, lemma_apply_move, lemma_state_index, move_allowed,
    node_ok, node_rank, node_true_dist, resting, same_cells, state_index, step_cost, table_ok,
    MoveNode, PathfinderMove, LIMIT, STATES,
};
use crate::piece::Piece;

verus! {

/// The cost that an entry counts for in the table's weight.
pub open spec fn counted_dist(n: MoveNode) -> nat {
    if node_true_dist(n) < 0 {
        0
    } else {
        node_true_dist(n) as nat
    }
}

/// How many places of the table hold an entry.
pub open spec fn count_some(t: Seq<Option<MoveNode>>) -> nat
    decreases t.len(),
{
    if t.len() == 0 {
        0
    } else {
        count_some(t.drop_last()) + if t.last().is_some() {
            1nat
        } else {
            0nat
        }
    }
}

/// The sum of the costs of all entries of the table.
pub open spec fn weight(t: Seq<Option<MoveNode>>) -> nat
    decreases t.len(),
{
    if t.len() == 0 {
        0
    } else {
        weight(t.drop_last()) + match t.last() {
            Some(n) => counted_dist(n),
            None => 0nat,
        }
    }
}

/// A number that falls with every entry that the search writes: a new
/// entry takes a place that counted for more than any cost, and a better
/// entry lowers the weight.
pub open spec fn potential(t: Seq<Option<MoveNode>>) -> int {
    weight(t) + (STATES - count_some(t)) * (LIMIT + 1)
}

/// Whether the input `mv` leads from `s` to a state with an entry that
/// costs, a drop at its end left out, no more than the entry of `s` with
/// all its drops and, where `mv` is no drop, one more.
pub open spec fn relaxed(
    t: Seq<Option<MoveNode>>,
    g: Seq<u16>,
    kind: PieceType,
    s: Piece,
    mv: PathfinderMove,
) -> bool {
    let c = apply_move(g, s, mv);
    &&& has_entry(t, kind, c)
    &&& c != s ==> node_true_dist(t[state_index(c)].unwrap()) <= t[state_index(
        s,
    )].unwrap().total_dist + if mv == PathfinderMove::SonicDrop {
        0int
    } else {
        1int
    }
}

/// Whether every input leads from `s` to a state with an entry, at no
/// higher cost than by that input.
#[verifier::opaque]
pub open spec fn closed(t: Seq<Option<MoveNode>>, g: Seq<u16>, kind: PieceType, s: Piece) -> bool {
    forall|mv: PathfinderMove| move_allowed(kind, mv) ==> #[trigger] relaxed(t, g, kind, s, mv)
}

/// Whether one of `locks` covers the cells of `d` at no higher cost.
#[verifier::opaque]
pub open spec fn covered(t: Seq<Option<MoveNode>>, locks: Seq<Piece>, d: Piece) -> bool {
    exists|i: int|
        0 <= i < locks.len() && same_cells(#[trigger] locks[i], d) && node_true_dist(
            t[state_index(locks[i])].unwrap(),
        ) <= node_true_dist(t[state_index(d)].unwrap())
}

/// What holds of a search while it runs, with the queue `q`, the lock
/// positions `locks` found so far, and the state `cur` whose inputs are
/// being tried:
/// - the table is sound, and no cost exceeds 40 for each entry written;
/// - every queued state has an entry;
/// - every state with an entry is queued, or being tried, or closed;
/// - every lock position has an entry and rests, and no two cover the same
///   cells;
/// - every resting state with an entry is queued, or being tried, or
///   covered by a lock position.
pub open spec fn search_inv(
    t: Seq<Option<MoveNode>>,
    g: Seq<u16>,
    start: Piece,
    q: Seq<Piece>,
    locks: Seq<Piece>,
    cur: Option<Piece>,
) -> bool {
    &&& table_ok(t, g, start)
    &&& forall|s: Piece| #[trigger]
        has_entry(t, start.kind, s) ==> node_true_dist(t[state_index(s)].unwrap()) + 39 <= 40
            * count_some(t)
    &&& forall|i: int| 0 <= i < q.len() ==> has_entry(t, start.kind, #[trigger] q[i])
    &&& forall|s: Piece| #[trigger]
        has_entry(t, start.kind, s) ==> cur == Some(s) || q.contains(s) || closed(
            t,
            g,
            start.kind,
            s,
        )
    &&& forall|i: int|
        0 <= i < locks.len() ==> has_entry(t, start.kind, #[trigger] locks[i]) && resting(
            g,
            locks[i],
        )
    &&& forall|i: int, j: int|
        0 <= i < j < locks.len() ==> !same_cells(#[trigger] locks[i], #[trigger] locks[j])
    &&& forall|d: Piece| #[trigger]
        has_entry(t, start.kind, d) && resting(g, d) ==> cur == Some(d) || q.contains(d)
            || covered(t, locks, d)
}

/// No table holds more entries than it has places.
pub proof fn lemma_count_bound(t: Seq<Option<MoveNode>>)
    ensures
        count_some(t) <= t.len(),
    decreases t.len(),
{
    if t.len() > 0 {
        lemma_count_bound(t.drop_last());
    }
}

/// What writing an entry does to the count and the weight of a table.
pub proof fn lemma_table_update(t: Seq<Option<MoveNode>>, i: int, n: MoveNode)
    requires
        0 <= i < t.len(),
    ensures
        count_some(t.update(i, Some(n))) == count_some(t) + if t[i].is_none() {
            1nat
        } else {
            0nat
        },
        weight(t.update(i, Some(n))) + (match t[i] {
            Some(o) => counted_dist(o),
            None => 0nat,
        }) == weight(t) + counted_dist(n),
    decreases t.len(),
{
    let t2 = t.update(i, Some(n));
    if i == t.len() - 1 {
        assert(t2.drop_last() =~= t.drop_last());
    } else {
        lemma_table_update(t.drop_last(), i, n);
        assert(t2.drop_last() =~= t.drop_last().update(i, Some(n)));
    }
}

/// A table with an entry for `c` written into it holds the entries it held
/// and the one of `c`.
pub proof fn lemma_has_entry_update(
    t: Seq<Option<MoveNode>>,
    kind: PieceType,
    c: Piece,
    n: MoveNode,
    s: Piece,
)
    requires
        t.len() == STATES,
        in_table(c),
        c.kind == kind,
    ensures
        has_entry(t.update(state_index(c), Some(n)), kind, s) <==> (has_entry(t, kind, s) || s == c),
        s.kind == kind && in_table(s) && s != c ==> t.update(state_index(c), Some(n))[state_index(
            s,
        )] == t[state_index(s)],
        t.update(state_index(c), Some(n))[state_index(c)] == Some(n),
{
    crate::pathfinder::lemma_state_index_range(c);
    if s.kind == kind && in_table(s) {
        crate::pathfinder::lemma_state_index_range(s);
        if state_index(s) == state_index(c) {
            lemma_state_index(s, c);
        }
    }
}

/// A state that is closed stays closed when entries are added or give way
/// to better ones, as long as its own entry stays.
pub proof fn lemma_closed_mono(
    t: Seq<Option<MoveNode>>,
    t2: Seq<Option<MoveNode>>,
    g: Seq<u16>,
    kind: PieceType,
    s: Piece,
)
    requires
        closed(t, g, kind, s),
        t2[state_index(s)] == t[state_index(s)],
        forall|x: Piece| #[trigger]
            has_entry(t, kind, x) ==> has_entry(t2, kind, x) && node_true_dist(
                t2[state_index(x)].unwrap(),
            ) <= node_true_dist(t[state_index(x)].unwrap()),
    ensures
        closed(t2, g, kind, s),
{
    reveal(closed);
    assert forall|mv: PathfinderMove| move_allowed(kind, mv) implies #[trigger] relaxed(
        t2,
        g,
        kind,
        s,
        mv,
    ) by {
        assert(relaxed(t, g, kind, s, mv));
        assert(has_entry(t, kind, apply_move(g, s, mv)));
    }
}

/// A queue that gets one more state holds what it held, and that state.
pub proof fn lemma_contains_push(q: Seq<Piece>, c: Piece, s: Piece)
    ensures
        q.contains(s) ==> q.push(c).contains(s),
        q.push(c).contains(c),
{
    if q.contains(s) {
        let i = choose|i: int| 0 <= i < q.len() && q[i] == s;
        assert(q.push(c)[i] == s);
    }
    assert(q.push(c)[q.len() as int] == c);
}

/// The search's invariant holds when the start has been given its entry
/// and queued.
pub proof fn lemma_search_init(t: Seq<Option<MoveNode>>, g: Seq<u16>, start: Piece)
    requires
        t.len() == STATES,
        forall|i: int| 0 <= i < t.len() ==> t[i].is_none(),
        start.fits(g),
        in_table(start),
    ensures
        search_inv(
            t.update(
                state_index(start),
                Some(
                    MoveNode {
                        parent: None,
                        mv: PathfinderMove::SonicDrop,
                        total_dist: 0,
                        dist: 0,
                    },
                ),
            ),
            g,
            start,
            seq![start],
            Seq::empty(),
            None,
        ),
{
    let n = MoveNode { parent: None, mv: PathfinderMove::SonicDrop, total_dist: 0, dist: 0 };
    let t2 = t.update(state_index(start), Some(n));
    crate::pathfinder::lemma_state_index_range(start);
    lemma_table_update(t, state_index(start), n);
    assert forall|s: Piece| #[trigger] has_entry(t2, start.kind, s) implies s == start by {
        lemma_has_entry_update(t, start.kind, start, n, s);
    }
    assert(is_way(g, start, Seq::<PathfinderMove>::empty(), start, n));
    assert(seq![start][0] == start);
    assert(seq![start].contains(start));
}

/// The search's invariant holds for the rest of the queue when its first
/// state is taken out to have its inputs tried.
pub proof fn lemma_search_pop(
    t: Seq<Option<MoveNode>>,
    g: Seq<u16>,
    start: Piece,
    q: Seq<Piece>,
    locks: Seq<Piece>,
)
    requires
        search_inv(t, g, start, q, locks, None),
        q.len() > 0,
    ensures
        search_inv(t, g, start, q.subrange(1, q.len() as int), locks, Some(q[0])),
        has_entry(t, start.kind, q[0]),
{
    let rest = q.subrange(1, q.len() as int);
    assert forall|s: Piece| q.contains(s) implies s == q[0] || rest.contains(s) by {
        let i = choose|i: int| 0 <= i < q.len() && q[i] == s;
        if i > 0 {
            assert(rest[i - 1] == s);
        }
    }
    assert forall|i: int| 0 <= i < rest.len() implies has_entry(t, start.kind, #[trigger] rest[i]) by {
        assert(rest[i] == q[i + 1]);
    }
}

/// The search's invariant holds with no state being tried once the state
/// that was tried is closed and, where it rests, covered.
pub proof fn lemma_search_done(
    t: Seq<Option<MoveNode>>,
    g: Seq<u16>,
    start: Piece,
    q: Seq<Piece>,
    locks: Seq<Piece>,
    p: Piece,
)
    requires
        search_inv(t, g, start, q, locks, Some(p)),
        closed(t, g, start.kind, p),
        resting(g, p) ==> covered(t, locks, p),
    ensures
        search_inv(t, g, start, q, locks, None),
{
}

/// What holds of an entry that the search is about to write for the state
/// `c`, reached from `p` by the input of `n`.
pub open spec fn candidate(
    t: Seq<Option<MoveNode>>,
    g: Seq<u16>,
    start: Piece,
    p: Piece,
    c: Piece,
    n: MoveNode,
) -> bool {
    &&& has_entry(t, start.kind, p)
    &&& n.parent == Some(p)
    &&& move_allowed(start.kind, n.mv)
    &&& apply_move(g, p, n.mv) == c
    &&& c != p
    &&& n.total_dist == t[state_index(p)].unwrap().total_dist + n.dist
    &&& n.dist == step_cost(g, p, n.mv)
    &&& n.mv == PathfinderMove::SonicDrop ==> 1 <= n.dist <= 39 && resting(g, c) && !resting(g, p)
    &&& n.mv != PathfinderMove::SonicDrop ==> n.dist == 1
}

/// What a candidate costs, and that it ranks above its predecessor.
pub proof fn lemma_candidate(
    t: Seq<Option<MoveNode>>,
    g: Seq<u16>,
    start: Piece,
    q: Seq<Piece>,
    locks: Seq<Piece>,
    cur: Option<Piece>,
    p: Piece,
    c: Piece,
    n: MoveNode,
)
    requires
        search_inv(t, g, start, q, locks, cur),
        candidate(t, g, start, p, c, n),
    ensures
        c.kind == start.kind,
        in_table(c),
        c.fits(g),
        0 <= state_index(c) < STATES,
        0 <= node_true_dist(n),
        node_true_dist(n) + 39 <= 40 * (count_some(t) + 1),
        node_true_dist(n) <= n.total_dist <= node_true_dist(n) + 39,
        node_rank(t[state_index(p)].unwrap()) < node_rank(n),
        count_some(t) <= STATES,
        exists|path: Seq<PathfinderMove>| is_way(g, start, path, c, n),
{
    let e = t[state_index(p)].unwrap();
    assert(node_ok(t, g, start, p, e));
    assert(p.fits(g));
    lemma_apply_move(g, p, n.mv);
    crate::pathfinder::lemma_state_index_range(c);
    lemma_count_bound(t);
    let before = choose|path: Seq<PathfinderMove>| is_way(g, start, path, p, e);
    let path = before.push(n.mv);
    assert(path.drop_last() =~= before);
    assert(path.last() == n.mv);
    assert(is_way(g, start, path, c, n));
}

/// Writing a candidate that is new or better, and queueing its state,
/// keeps the search's invariant and lowers the potential.
pub proof fn lemma_search_put(
    t: Seq<Option<MoveNode>>,
    g: Seq<u16>,
    start: Piece,
    q: Seq<Piece>,
    locks: Seq<Piece>,
    cur: Option<Piece>,
    p: Piece,
    c: Piece,
    n: MoveNode,
)
    requires
        search_inv(t, g, start, q, locks, cur),
        candidate(t, g, start, p, c, n),
        t[state_index(c)].is_none() || node_true_dist(n) < node_true_dist(
            t[state_index(c)].unwrap(),
        ),
    ensures
        search_inv(t.update(state_index(c), Some(n)), g, start, q.push(c), locks, cur),
        0 <= potential(t.update(state_index(c), Some(n))) < potential(t),
        forall|s: Piece| #[trigger]
            has_entry(t, start.kind, s) ==> has_entry(
                t.update(state_index(c), Some(n)),
                start.kind,
                s,
            ) && node_true_dist(t.update(state_index(c), Some(n))[state_index(s)].unwrap())
                <= node_true_dist(t[state_index(s)].unwrap()),
        has_entry(t.update(state_index(c), Some(n)), start.kind, c),
        t.update(state_index(c), Some(n))[state_index(c)] == Some(n),
        t.update(state_index(c), Some(n))[state_index(p)] == t[state_index(p)],
{
    let kind = start.kind;
    let i = state_index(c);
    let t2 = t.update(i, Some(n));
    let q2 = q.push(c);
    lemma_candidate(t, g, start, q, locks, cur, p, c, n);
    lemma_table_update(t, i, n);
    lemma_count_bound(t2);
    let fresh = t[i].is_none();
    if !fresh {
        assert(has_entry(t, kind, c));
        assert(node_ok(t, g, start, c, t[i].unwrap()));
    } else {
        assert(count_some(t2) == count_some(t) + 1);
    }
    assert(node_true_dist(n) + 39 <= 40 * count_some(t2));
    assert(node_true_dist(n) <= LIMIT);
    assert(potential(t2) < potential(t)) by (nonlinear_arith)
        requires
            fresh ==> count_some(t2) == count_some(t) + 1 && weight(t2) == weight(t)
                + counted_dist(n),
            !fresh ==> count_some(t2) == count_some(t) && weight(t2) < weight(t),
            counted_dist(n) <= LIMIT,
            potential(t2) == weight(t2) + (STATES - count_some(t2)) * (LIMIT + 1),
            potential(t) == weight(t) + (STATES - count_some(t)) * (LIMIT + 1),
    ;
    assert(potential(t2) >= 0) by (nonlinear_arith)
        requires
            count_some(t2) <= STATES,
            potential(t2) == weight(t2) + (STATES - count_some(t2)) * (LIMIT + 1),
    ;
    // Entries stay, and all but the one of `c` are what they were.
    assert forall|s: Piece| #[trigger] has_entry(t, kind, s) implies has_entry(t2, kind, s)
        && node_true_dist(t2[state_index(s)].unwrap()) <= node_true_dist(
        t[state_index(s)].unwrap(),
    ) by {
        lemma_has_entry_update(t, kind, c, n, s);
    }
    lemma_has_entry_update(t, kind, c, n, c);
    lemma_has_entry_update(t, kind, c, n, start);
    assert(p != c);
    lemma_has_entry_update(t, kind, c, n, p);
    // The table is sound.
    assert forall|s: Piece| #[trigger] has_entry(t2, kind, s) implies s.fits(g) && node_ok(
        t2,
        g,
        start,
        s,
        t2[state_index(s)].unwrap(),
    ) by {
        lemma_has_entry_update(t, kind, c, n, s);
        if s == c {
            assert(t2[state_index(p)] == t[state_index(p)]);
        } else {
            assert(has_entry(t, kind, s));
            let e = t[state_index(s)].unwrap();
            assert(node_ok(t, g, start, s, e));
            match e.parent {
                Some(ps) => {
                    lemma_has_entry_update(t, kind, c, n, ps);
                    if ps == c {
                        assert(!fresh);
                    }
                },
                None => {},
            }
        }
    }
    assert(table_ok(t2, g, start));
    assert forall|s: Piece| #[trigger] has_entry(t2, kind, s) implies node_true_dist(
        t2[state_index(s)].unwrap(),
    ) + 39 <= 40 * count_some(t2) by {
        lemma_has_entry_update(t, kind, c, n, s);
        if s != c {
            assert(has_entry(t, kind, s));
        }
    }
    assert forall|k: int| 0 <= k < q2.len() implies has_entry(t2, kind, #[trigger] q2[k]) by {
        if k < q.len() {
            assert(q2[k] == q[k]);
            assert(has_entry(t, kind, q[k]));
        }
    }
    assert forall|s: Piece| #[trigger] has_entry(t2, kind, s) implies cur == Some(s)
        || q2.contains(s) || closed(t2, g, kind, s) by {
        lemma_has_entry_update(t, kind, c, n, s);
        lemma_contains_push(q, c, s);
        if s != c {
            assert(has_entry(t, kind, s));
            if closed(t, g, kind, s) {
                lemma_closed_mono(t, t2, g, kind, s);
            }
        }
    }
    assert forall|k: int| 0 <= k < locks.len() implies has_entry(t2, kind, #[trigger] locks[k])
        && resting(g, locks[k]) by {
        assert(has_entry(t, kind, locks[k]));
    }
    assert forall|d: Piece| #[trigger] has_entry(t2, kind, d) && resting(g, d) implies cur == Some(
        d,
    ) || q2.contains(d) || covered(t2, locks, d) by {
        lemma_has_entry_update(t, kind, c, n, d);
        lemma_contains_push(q, c, d);
        if d != c {
            assert(has_entry(t, kind, d));
            if covered(t, locks, d) {
                reveal(covered);
                let k = choose|k: int|
                    0 <= k < locks.len() && same_cells(#[trigger] locks[k], d) && node_true_dist(
                        t[state_index(locks[k])].unwrap(),
                    ) <= node_true_dist(t[state_index(d)].unwrap());
                assert(has_entry(t, kind, locks[k]));
                lemma_has_entry_update(t, kind, c, n, locks[k]);
                assert(same_cells(locks[k], d) && node_true_dist(
                    t2[state_index(locks[k])].unwrap(),
                ) <= node_true_dist(t2[state_index(d)].unwrap()));
            }
        }
    }
}

/// A state that is covered stays covered when a lock position gives way
/// to one with the same cells at lower cost.
pub proof fn lemma_search_lock_replace(
    t: Seq<Option<MoveNode>>,
    g: Seq<u16>,
    start: Piece,
    q: Seq<Piece>,
    locks: Seq<Piece>,
    cur: Option<Piece>,
    i: int,
    c: Piece,
)
    requires
        search_inv(t, g, start, q, locks, cur),
        has_entry(t, start.kind, c),
        resting(g, c),
        0 <= i < locks.len(),
        same_cells(locks[i], c),
        node_true_dist(t[state_index(c)].unwrap()) < node_true_dist(
            t[state_index(locks[i])].unwrap(),
        ),
    ensures
        search_inv(t, g, start, q, locks.update(i, c), cur),
        covered(t, locks.update(i, c), c),
{
    let l2 = locks.update(i, c);
    reveal(covered);
    assert(l2[i] == c);
    assert forall|a: int, b: int| 0 <= a < b < l2.len() implies !same_cells(
        #[trigger] l2[a],
        #[trigger] l2[b],
    ) by {
        if a == i {
            assert(!same_cells(locks[i], locks[b]));
        } else if b == i {
            assert(!same_cells(locks[a], locks[i]));
        } else {
            assert(!same_cells(locks[a], locks[b]));
        }
    }
    assert forall|k: int| 0 <= k < l2.len() implies has_entry(t, start.kind, #[trigger] l2[k])
        && resting(g, l2[k]) by {
        if k != i {
            assert(has_entry(t, start.kind, locks[k]));
        }
    }
    assert forall|d: Piece| #[trigger]
        has_entry(t, start.kind, d) && resting(g, d) implies cur == Some(d) || q.contains(d)
        || covered(t, l2, d) by {
        if covered(t, locks, d) {
            let k = choose|k: int|
                0 <= k < locks.len() && same_cells(#[trigger] locks[k], d) && node_true_dist(
                    t[state_index(locks[k])].unwrap(),
                ) <= node_true_dist(t[state_index(d)].unwrap());
            if k == i {
                assert(same_cells(l2[i], d));
            } else {
                assert(l2[k] == locks[k]);
            }
        }
    }
}

/// A lock position that covers the cells of `c` at no higher cost covers
/// `c`.
pub proof fn lemma_search_lock_keep(
    t: Seq<Option<MoveNode>>,
    locks: Seq<Piece>,
    i: int,
    c: Piece,
)
    requires
        0 <= i < locks.len(),
        same_cells(locks[i], c),
        node_true_dist(t[state_index(locks[i])].unwrap()) <= node_true_dist(
            t[state_index(c)].unwrap(),
        ),
    ensures
        covered(t, locks, c),
{
    reveal(covered);
}

/// A resting state whose cells no lock position covers becomes a lock
/// position of its own.
pub proof fn lemma_search_lock_push(
    t: Seq<Option<MoveNode>>,
    g: Seq<u16>,
    start: Piece,
    q: Seq<Piece>,
    locks: Seq<Piece>,
    cur: Option<Piece>,
    c: Piece,
)
    requires
        search_inv(t, g, start, q, locks, cur),
        has_entry(t, start.kind, c),
        resting(g, c),
        forall|k: int| 0 <= k < locks.len() ==> !same_cells(#[trigger] locks[k], c),
    ensures
        search_inv(t, g, start, q, locks.push(c), cur),
        covered(t, locks.push(c), c),
{
    let l2 = locks.push(c);
    reveal(covered);
    assert(l2[locks.len() as int] == c);
    assert forall|a: int, b: int| 0 <= a < b < l2.len() implies !same_cells(
        #[trigger] l2[a],
        #[trigger] l2[b],
    ) by {
        if b == locks.len() {
            assert(!same_cells(locks[a], c));
        } else {
            assert(!same_cells(locks[a], locks[b]));
        }
    }
    assert forall|k: int| 0 <= k < l2.len() implies has_entry(t, start.kind, #[trigger] l2[k])
        && resting(g, l2[k]) by {
        if k < locks.len() {
            assert(has_entry(t, start.kind, locks[k]));
        }
    }
    assert forall|d: Piece| #[trigger]
        has_entry(t, start.kind, d) && resting(g, d) implies cur == Some(d) || q.contains(d)
        || covered(t, l2, d) by {
        if covered(t, locks, d) {
            let k = choose|k: int|
                0 <= k < locks.len() && same_cells(#[trigger] locks[k], d) && node_true_dist(
                    t[state_index(locks[k])].unwrap(),
                ) <= node_true_dist(t[state_index(d)].unwrap());
            assert(l2[k] == locks[k]);
        }
    }
}

/// The potential of a table with a place for every state is not negative.
pub proof fn lemma_potential_bound(t: Seq<Option<MoveNode>>)
    requires
        t.len() == STATES,
    ensures
        potential(t) >= 0,
{
    lemma_count_bound(t);
    assert(potential(t) >= 0) by (nonlinear_arith)
        requires
            count_some(t) <= STATES,
            potential(t) == weight(t) + (STATES - count_some(t)) * (LIMIT + 1),
    ;
}

} // verus!
