use vstd::prelude::*;
use crate::geometry::PieceType;
use crate::pathfinder::{
    apply_move, law_lock_found, move_allowed, path_allowed, replay, resting, same_cells, MovesView,
    PathfinderMove,
};
use crate::piece::{cell_at, fits_at, lemma_first_kick, lemma_fits_anchor, Piece, TspinType};

verus! {

/// Whether an input is a turn.
pub open spec fn is_turn(mv: PathfinderMove) -> bool {
    mv == PathfinderMove::RotLeft || mv == PathfinderMove::RotRight
}

/// The inputs of `path` that are no turns, in their order.
pub open spec fn without_turns(path: Seq<PathfinderMove>) -> Seq<PathfinderMove>
    decreases path.len(),
{
    if path.len() == 0 {
        path
    } else if is_turn(path.last()) {
        without_turns(path.drop_last())
    } else {
        without_turns(path.drop_last()).push(path.last())
    }
}

/// The `O` in rotation 0 that covers the cells of the `O` `p`.
pub open spec fn upright(p: Piece) -> Piece {
    Piece {
        kind: p.kind,
        x: (p.x + PieceType::O.spec_offset(p.r as int, 0).0) as i32,
        y: (p.y + PieceType::O.spec_offset(p.r as int, 0).1) as i32,
        r: 0,
        tspin: TspinType::NoSpin,
    }
}

/// What holds of every state of an `O` that fits: it has one of the four
/// rotations and no T-spin mark.
pub open spec fn plain_o(g: Seq<u16>, p: Piece) -> bool {
    p.kind == PieceType::O && p.r < 4 && p.tspin == TspinType::NoSpin && p.fits(g)
}

/// An `O` covers the same cells in every rotation, its anchor moved by the
/// rotation's entry in the offset table.
pub proof fn lemma_o_cells(x: int, y: int, r: int, i: int)
    requires
        0 <= r < 4,
        0 <= i < 4,
    ensures
        cell_at(PieceType::O, x, y, r, i) == cell_at(
            PieceType::O,
            x + PieceType::O.spec_offset(r, 0).0,
            y + PieceType::O.spec_offset(r, 0).1,
            0,
            i,
        ),
{
}

/// An `O` fits in a rotation exactly where it fits upright on the same
/// cells.
pub proof fn lemma_o_fits(g: Seq<u16>, x: int, y: int, r: int)
    requires
        0 <= r < 4,
    ensures
        fits_at(g, PieceType::O, x, y, r) == fits_at(
            g,
            PieceType::O,
            x + PieceType::O.spec_offset(r, 0).0,
            y + PieceType::O.spec_offset(r, 0).1,
            0,
        ),
{
    lemma_o_cells(x, y, r, 0);
    lemma_o_cells(x, y, r, 1);
    lemma_o_cells(x, y, r, 2);
    lemma_o_cells(x, y, r, 3);
}

/// An `O` that fits covers the cells of its upright twin, which fits too.
pub proof fn lemma_upright(g: Seq<u16>, p: Piece)
    requires
        plain_o(g, p),
    ensures
        plain_o(g, upright(p)),
        same_cells(upright(p), p),
        resting(g, upright(p)) == resting(g, p),
        p.r == 0 ==> upright(p) == p,
{
    lemma_o_fits(g, p.x as int, p.y as int, p.r as int);
    lemma_o_fits(g, p.x as int, p.y - 1, p.r as int);
    lemma_fits_anchor(g, p.kind, p.x as int, p.y as int, p.r as int);
    lemma_o_cells(p.x as int, p.y as int, p.r as int, 0);
    lemma_o_cells(p.x as int, p.y as int, p.r as int, 1);
    lemma_o_cells(p.x as int, p.y as int, p.r as int, 2);
    lemma_o_cells(p.x as int, p.y as int, p.r as int, 3);
    let u = upright(p);
    lemma_fits_anchor(
        g,
        p.kind,
        p.x + PieceType::O.spec_offset(p.r as int, 0).0,
        p.y + PieceType::O.spec_offset(p.r as int, 0).1,
        0,
    );
    assert(u.spec_cells()[0] == p.spec_cells()[0]);
    assert(u.spec_cells()[1] == p.spec_cells()[1]);
    assert(u.spec_cells()[2] == p.spec_cells()[2]);
    assert(u.spec_cells()[3] == p.spec_cells()[3]);
}

/// A drop takes an `O` where it takes its upright twin.
pub proof fn lemma_o_drop(g: Seq<u16>, p: Piece)
    requires
        plain_o(g, p),
    ensures
        plain_o(g, p.spec_sonic_drop(g)),
        upright(p.spec_sonic_drop(g)) == upright(p).spec_sonic_drop(g),
    decreases p.y,
{
    lemma_upright(g, p);
    lemma_o_fits(g, p.x as int, p.y - 1, p.r as int);
    let u = upright(p);
    if fits_at(g, p.kind, p.x as int, p.y - 1, p.r as int) {
        lemma_fits_anchor(g, p.kind, p.x as int, p.y - 1, p.r as int);
        lemma_fits_anchor(g, u.kind, u.x as int, u.y - 1, 0);
        let next = Piece { y: (p.y - 1) as i32, tspin: TspinType::NoSpin, ..p };
        lemma_o_drop(g, next);
        assert(upright(next) == Piece { y: (u.y - 1) as i32, tspin: TspinType::NoSpin, ..u });
    }
}

/// A turn of an `O` that fits changes none of its cells, and any other
/// input takes it where it takes its upright twin.
pub proof fn lemma_o_step(g: Seq<u16>, p: Piece, mv: PathfinderMove)
    requires
        plain_o(g, p),
    ensures
        plain_o(g, apply_move(g, p, mv)),
        is_turn(mv) ==> upright(apply_move(g, p, mv)) == upright(p),
        !is_turn(mv) ==> upright(apply_move(g, p, mv)) == apply_move(g, upright(p), mv),
{
    reveal(apply_move);
    lemma_upright(g, p);
    lemma_fits_anchor(g, p.kind, p.x as int, p.y as int, p.r as int);
    let u = upright(p);
    match mv {
        PathfinderMove::Left => {
            lemma_o_fits(g, p.x - 1, p.y as int, p.r as int);
            if fits_at(g, p.kind, p.x - 1, p.y as int, p.r as int) {
                lemma_fits_anchor(g, p.kind, p.x - 1, p.y as int, p.r as int);
                lemma_fits_anchor(g, u.kind, u.x - 1, u.y as int, 0);
            }
        },
        PathfinderMove::Right => {
            lemma_o_fits(g, p.x + 1, p.y as int, p.r as int);
            if fits_at(g, p.kind, p.x + 1, p.y as int, p.r as int) {
                lemma_fits_anchor(g, p.kind, p.x + 1, p.y as int, p.r as int);
                lemma_fits_anchor(g, u.kind, u.x + 1, u.y as int, 0);
            }
        },
        PathfinderMove::RotLeft => {
            lemma_o_turn(g, p, p.left_of());
        },
        PathfinderMove::RotRight => {
            lemma_o_turn(g, p, p.right_of());
        },
        PathfinderMove::SonicDrop => {
            lemma_o_drop(g, p);
        },
    }
}

/// A turn of an `O` that fits lands on the cells it started from.
pub proof fn lemma_o_turn(g: Seq<u16>, p: Piece, to: int)
    requires
        plain_o(g, p),
        0 <= to < 4,
    ensures
        plain_o(g, p.spec_rotate(g, to)),
        upright(p.spec_rotate(g, to)) == upright(p),
{
    let t = p.kick_target(to, 0);
    lemma_o_fits(g, p.x as int, p.y as int, p.r as int);
    lemma_o_fits(g, t.0, t.1, to);
    assert(p.kick_fits(g, to, 0));
    lemma_first_kick(p, g, to, 0);
    assert(p.first_kick(g, to) == 0);
    lemma_fits_anchor(g, p.kind, t.0, t.1, to);
}

/// Whatever inputs an `O` is given, it comes to cover the cells that it
/// comes to cover under the same inputs without the turns.
pub proof fn lemma_o_replay(g: Seq<u16>, start: Piece, path: Seq<PathfinderMove>)
    requires
        plain_o(g, start),
    ensures
        plain_o(g, replay(g, start, path)),
        path_allowed(PieceType::O, without_turns(path)),
        upright(replay(g, start, path)) == replay(g, upright(start), without_turns(path)),
    decreases path.len(),
{
    if path.len() == 0 {
        lemma_upright(g, start);
    } else {
        let before = path.drop_last();
        lemma_o_replay(g, start, before);
        let s = replay(g, start, before);
        lemma_o_step(g, s, path.last());
        let kept = without_turns(before);
        if !is_turn(path.last()) {
            let all = kept.push(path.last());
            assert(all.drop_last() =~= kept);
            assert(all.last() == path.last());
            assert forall|i: int| 0 <= i < all.len() implies move_allowed(
                PieceType::O,
                #[trigger] all[i],
            ) by {
                if i < kept.len() {
                    assert(all[i] == kept[i]);
                }
            }
        }
    }
}

/// For an `O` the search leaves the turns out and loses nothing by it:
/// whatever sequence of inputs, turns among them, ends with the `O` at
/// rest, one reported position covers the same four cells.
pub proof fn law_o_turns_change_nothing(found: MovesView, path: Seq<PathfinderMove>)
    requires
        found.wf(),
        found.start.kind == PieceType::O,
        found.start.r == 0,
        found.start.tspin == TspinType::NoSpin,
        found.start.fits(found.grid),
        resting(found.grid, replay(found.grid, found.start, path)),
    ensures
        exists|i: int|
            0 <= i < found.positions.len() && same_cells(
                (#[trigger] found.positions[i]).0,
                replay(found.grid, found.start, path),
            ),
{
    let g = found.grid;
    let start = found.start;
    lemma_o_replay(g, start, path);
    lemma_upright(g, start);
    let s = replay(g, start, path);
    lemma_upright(g, s);
    law_lock_found(found, without_turns(path));
    let i = choose|i: int|
        0 <= i < found.positions.len() && same_cells(
            (#[trigger] found.positions[i]).0,
            replay(g, start, without_turns(path)),
        );
    assert(same_cells(found.positions[i].0, s));
}

/// Whether `c` is one of the four cells of the shape.
pub open spec fn is_cell_of(kind: PieceType, x: int, y: int, r: int, c: (int, int)) -> bool {
    c == cell_at(kind, x, y, r, 0) || c == cell_at(kind, x, y, r, 1) || c == cell_at(
        kind,
        x,
        y,
        r,
        2,
    ) || c == cell_at(kind, x, y, r, 3)
}

/// Whether each of the four cells of `a` is a cell of `b`.
pub open spec fn cells_within(a: Piece, b: Piece) -> bool {
    &&& is_cell_of(b.kind, b.x as int, b.y as int, b.r as int, a.spec_cells()[0])
    &&& is_cell_of(b.kind, b.x as int, b.y as int, b.r as int, a.spec_cells()[1])
    &&& is_cell_of(b.kind, b.x as int, b.y as int, b.r as int, a.spec_cells()[2])
    &&& is_cell_of(b.kind, b.x as int, b.y as int, b.r as int, a.spec_cells()[3])
}

/// Two placements of one kind that cover the same set of cells cover them
/// in the same table order: the search, which tells lock positions apart by
/// their cells in table order, tells them apart by their sets of cells.
pub proof fn law_same_set_same_order(a: Piece, b: Piece)
    requires
        a.kind == b.kind,
        a.r < 4,
        b.r < 4,
        cells_within(a, b),
    ensures
        same_cells(a, b),
{
    assert(a.spec_cells()[0] == cell_at(a.kind, a.x as int, a.y as int, a.r as int, 0));
    assert(a.spec_cells()[1] == cell_at(a.kind, a.x as int, a.y as int, a.r as int, 1));
    assert(a.spec_cells()[2] == cell_at(a.kind, a.x as int, a.y as int, a.r as int, 2));
    assert(a.spec_cells()[3] == cell_at(a.kind, a.x as int, a.y as int, a.r as int, 3));
    assert(b.spec_cells()[0] == cell_at(b.kind, b.x as int, b.y as int, b.r as int, 0));
    assert(b.spec_cells()[1] == cell_at(b.kind, b.x as int, b.y as int, b.r as int, 1));
    assert(b.spec_cells()[2] == cell_at(b.kind, b.x as int, b.y as int, b.r as int, 2));
    assert(b.spec_cells()[3] == cell_at(b.kind, b.x as int, b.y as int, b.r as int, 3));
}

} // verus!
