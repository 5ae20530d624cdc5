use vstd::prelude::*;
use crate::geometry::{law_cells_distinct, PieceType};
use crate::piece::{cell_at, cell_free, fits_at, on_grid, shape_cells};
use crate::row::{
    garbage_row, lemma_row_count_bounds, lemma_row_count_set, lemma_row_empty, lemma_row_ext,
    lemma_row_set, row_bit, row_count, row_filled, row_valid,
};
use crate::storage::keep_unfilled;

verus! {

/// A grid is 40 compressed rows, bottom row first.
pub open spec fn grid_valid(g: Seq<u16>) -> bool {
    g.len() == 40 && forall|y: int| 0 <= y < 40 ==> row_valid(#[trigger] g[y])
}

/// Whether `(x, y)` is a cell of the grid that holds something.
pub open spec fn cell_filled(g: Seq<u16>, x: int, y: int) -> bool {
    0 <= y < g.len() && row_bit(g[y], x)
}

/// Whether `(x, y)` is taken: everything off the grid is, and on the grid
/// the cells that hold something are.
pub open spec fn cell_occupied(g: Seq<u16>, x: int, y: int) -> bool {
    x < 0 || x >= 10 || y < 0 || y >= 40 || row_bit(g[y], x)
}

/// The grid of 40 empty rows.
pub open spec fn empty_grid() -> Seq<u16> {
    Seq::new(40, |y: int| 0u16)
}

/// `h` is the height of column `c`: one more than the index of its topmost
/// filled cell, or zero where the column holds nothing.
pub open spec fn is_column_height(g: Seq<u16>, c: int, h: int) -> bool {
    &&& 0 <= h <= 40
    &&& h > 0 ==> cell_filled(g, c, h - 1)
    &&& forall|y: int| h <= y < 40 ==> !cell_filled(g, c, y)
}

/// The grid with the cell `(x, y)` filled.
pub open spec fn set_cell(g: Seq<u16>, x: int, y: int) -> Seq<u16> {
    g.update(y, g[y] | (1u16 << (x as u16)))
}

/// The grid with the first `n` of `cells` filled.
pub open spec fn place_upto(g: Seq<u16>, cells: Seq<(int, int)>, n: int) -> Seq<u16>
    decreases n,
{
    if n <= 0 {
        g
    } else {
        set_cell(place_upto(g, cells, n - 1), cells[n - 1].0, cells[n - 1].1)
    }
}

/// The grid with the four cells of a piece filled.
pub open spec fn place(g: Seq<u16>, kind: PieceType, x: int, y: int, r: int) -> Seq<u16> {
    place_upto(g, shape_cells(kind, x, y, r), 4)
}

/// How many rows of `g` are filled.
pub open spec fn filled_rows(g: Seq<u16>) -> int {
    g.len() - keep_unfilled(g).len()
}

/// The grid after a line clear: the rows that are not filled move down in
/// their order, and empty rows take the places left at the top.
pub open spec fn clear_filled(g: Seq<u16>) -> Seq<u16> {
    keep_unfilled(g) + Seq::new(filled_rows(g) as nat, |i: int| 0u16)
}

/// How many unfilled rows of `g` lie below row `i`: the index that row `i`
/// has after a line clear, where it is not filled itself.
pub open spec fn kept_below(g: Seq<u16>, i: int) -> int {
    keep_unfilled(g.take(i)).len() as int
}

/// The number of filled cells of a grid.
pub open spec fn grid_count(g: Seq<u16>) -> nat
    decreases g.len(),
{
    if g.len() == 0 {
        0
    } else {
        grid_count(g.drop_last()) + row_count(g.last())
    }
}

/// The grid after one garbage row with its hole at `hole` came in from
/// below: every row moves up by one and the top row is lost.
pub open spec fn push_garbage(g: Seq<u16>, hole: int) -> Seq<u16> {
    g.drop_last().insert(0, garbage_row(hole))
}

/// The grid after the first `n` of `holes` came in as garbage rows, one
/// after the other.
pub open spec fn add_garbage_upto(g: Seq<u16>, holes: Seq<i32>, n: int) -> Seq<u16>
    decreases n,
{
    if n <= 0 {
        g
    } else {
        push_garbage(add_garbage_upto(g, holes, n - 1), holes[n - 1] as int)
    }
}

/// Whether `n` garbage rows push a filled cell of `g` off the top.
pub open spec fn tops_out(g: Seq<u16>, n: int) -> bool {
    exists|x: int, y: int| 0 <= y < 40 && y + n >= 40 && #[trigger] cell_filled(g, x, y)
}

/// Filling a cell on a grid keeps it a grid, fills that cell and changes no
/// other.
pub proof fn lemma_set_cell(g: Seq<u16>, x: int, y: int)
    requires
        grid_valid(g),
        0 <= x < 10,
        0 <= y < 40,
    ensures
        grid_valid(set_cell(g, x, y)),
        forall|a: int, b: int|
            0 <= a < 10 && 0 <= b < 40 ==> #[trigger] cell_filled(set_cell(g, x, y), a, b) == ((a
                == x && b == y) || cell_filled(g, a, b)),
{
    lemma_row_set(g[y], x);
    let g2 = set_cell(g, x, y);
    assert forall|b: int| 0 <= b < 40 implies row_valid(#[trigger] g2[b]) by {
        if b != y {
            assert(g2[b] == g[b]);
        }
    }
    assert forall|a: int, b: int| 0 <= a < 10 && 0 <= b < 40 implies #[trigger] cell_filled(
        g2,
        a,
        b,
    ) == ((a == x && b == y) || cell_filled(g, a, b)) by {
        if b != y {
            assert(g2[b] == g[b]);
        }
    }
}

/// Filling the first `n` cells of a shape that lies on the grid keeps it a
/// grid and fills exactly those cells.
pub proof fn lemma_place_upto(g: Seq<u16>, kind: PieceType, x: int, y: int, r: int, n: int)
    requires
        grid_valid(g),
        on_grid(kind, x, y, r),
        0 <= n <= 4,
    ensures
        grid_valid(place_upto(g, shape_cells(kind, x, y, r), n)),
        forall|a: int, b: int|
            0 <= a < 10 && 0 <= b < 40 ==> #[trigger] cell_filled(
                place_upto(g, shape_cells(kind, x, y, r), n),
                a,
                b,
            ) == (cell_filled(g, a, b) || exists|i: int|
                0 <= i < n && #[trigger] cell_at(kind, x, y, r, i) == (a, b)),
    decreases n,
{
    let cells = shape_cells(kind, x, y, r);
    if n > 0 {
        lemma_place_upto(g, kind, x, y, r, n - 1);
        let prev = place_upto(g, cells, n - 1);
        let c = cell_at(kind, x, y, r, n - 1);
        assert(cells[n - 1] == c);
        lemma_set_cell(prev, c.0, c.1);
        let next = place_upto(g, cells, n);
        assert(next == set_cell(prev, c.0, c.1));
        assert forall|a: int, b: int| 0 <= a < 10 && 0 <= b < 40 implies #[trigger] cell_filled(
            next,
            a,
            b,
        ) == (cell_filled(g, a, b) || exists|i: int|
            0 <= i < n && #[trigger] cell_at(kind, x, y, r, i) == (a, b)) by {
            assert(cell_filled(next, a, b) == ((a == c.0 && b == c.1) || cell_filled(prev, a, b)));
            if a == c.0 && b == c.1 {
                assert(cell_at(kind, x, y, r, n - 1) == (a, b));
            }
            if cell_filled(prev, a, b) && !cell_filled(g, a, b) {
                let i = choose|i: int| 0 <= i < n - 1 && #[trigger] cell_at(kind, x, y, r, i) == (
                    a,
                    b,
                );
                assert(cell_at(kind, x, y, r, i) == (a, b));
            }
        }
    }
}

/// The rows that survive a clear are rows of the grid: there are no more
/// of them than rows, and each is a ten-bit pattern that is not filled.
pub proof fn lemma_keep_unfilled(g: Seq<u16>)
    requires
        forall|y: int| 0 <= y < g.len() ==> row_valid(#[trigger] g[y]),
    ensures
        keep_unfilled(g).len() <= g.len(),
        forall|y: int|
            0 <= y < keep_unfilled(g).len() ==> row_valid(#[trigger] keep_unfilled(g)[y])
                && !row_filled(keep_unfilled(g)[y]),
    decreases g.len(),
{
    if g.len() > 0 {
        lemma_keep_unfilled(g.drop_last());
    }
}

/// A line clear on a grid gives a grid, and none of its rows is filled.
pub proof fn lemma_clear_filled(g: Seq<u16>)
    requires
        grid_valid(g),
    ensures
        grid_valid(clear_filled(g)),
        0 <= filled_rows(g) <= 40,
        forall|y: int| 0 <= y < 40 ==> !row_filled(#[trigger] clear_filled(g)[y]),
{
    lemma_keep_unfilled(g);
    lemma_row_empty();
    let c = clear_filled(g);
    assert forall|y: int| 0 <= y < 40 implies row_valid(#[trigger] c[y]) && !row_filled(c[y]) by {
        if y < keep_unfilled(g).len() {
            assert(c[y] == keep_unfilled(g)[y]);
        } else {
            assert(c[y] == 0u16);
        }
    }
}

/// Replacing one row changes the count of filled cells by the difference
/// of the two rows' counts.
pub proof fn lemma_grid_count_update(g: Seq<u16>, y: int, row: u16)
    requires
        0 <= y < g.len(),
    ensures
        grid_count(g.update(y, row)) + row_count(g[y]) == grid_count(g) + row_count(row),
    decreases g.len(),
{
    let g2 = g.update(y, row);
    if y == g.len() - 1 {
        assert(g2.drop_last() =~= g.drop_last());
    } else {
        lemma_grid_count_update(g.drop_last(), y, row);
        assert(g2.drop_last() =~= g.drop_last().update(y, row));
    }
}

/// Filling a free cell raises the count of filled cells by one.
pub proof fn lemma_grid_count_set_cell(g: Seq<u16>, x: int, y: int)
    requires
        grid_valid(g),
        cell_free(g, x, y),
    ensures
        grid_count(set_cell(g, x, y)) == grid_count(g) + 1,
{
    lemma_row_count_set(g[y], x);
    lemma_grid_count_update(g, y, g[y] | (1u16 << (x as u16)));
}

/// Filling the first `n` cells of a piece that fits raises the count of
/// filled cells by `n`.
pub proof fn lemma_grid_count_place(g: Seq<u16>, kind: PieceType, x: int, y: int, r: int, n: int)
    requires
        grid_valid(g),
        fits_at(g, kind, x, y, r),
        0 <= n <= 4,
    ensures
        grid_count(place_upto(g, shape_cells(kind, x, y, r), n)) == grid_count(g) + n,
    decreases n,
{
    if n > 0 {
        crate::piece::lemma_fits_anchor(g, kind, x, y, r);
        lemma_grid_count_place(g, kind, x, y, r, n - 1);
        lemma_place_upto(g, kind, x, y, r, n - 1);
        law_cells_distinct(kind, r);
        let cells = shape_cells(kind, x, y, r);
        let prev = place_upto(g, cells, n - 1);
        let c = cell_at(kind, x, y, r, n - 1);
        assert(cells[n - 1] == c);
        assert(cell_free(g, c.0, c.1));
        assert(!cell_filled(prev, c.0, c.1)) by {
            if cell_filled(prev, c.0, c.1) {
                let i = choose|i: int| 0 <= i < n - 1 && #[trigger] cell_at(kind, x, y, r, i) == c;
                assert(kind.spec_cells(r)[i] != kind.spec_cells(r)[n - 1]);
            }
        }
        lemma_grid_count_set_cell(prev, c.0, c.1);
    }
}

/// The rows that survive a clear hold all filled cells but the ten of each
/// filled row.
pub proof fn lemma_grid_count_keep(g: Seq<u16>)
    ensures
        grid_count(keep_unfilled(g)) + 10 * filled_rows(g) == grid_count(g),
        keep_unfilled(g).len() <= g.len(),
    decreases g.len(),
{
    if g.len() > 0 {
        lemma_grid_count_keep(g.drop_last());
        lemma_row_count_bounds(g.last());
        if !row_filled(g.last()) {
            assert(keep_unfilled(g).drop_last() =~= keep_unfilled(g.drop_last()));
        }
    }
}

/// Empty rows on top add no filled cell.
pub proof fn lemma_grid_count_pad(g: Seq<u16>, k: nat)
    ensures
        grid_count(g + Seq::new(k, |i: int| 0u16)) == grid_count(g),
    decreases k,
{
    let padded = g + Seq::new(k, |i: int| 0u16);
    if k == 0 {
        assert(padded =~= g);
    } else {
        lemma_grid_count_pad(g, (k - 1) as nat);
        lemma_row_empty();
        assert(padded.drop_last() =~= g + Seq::new((k - 1) as nat, |i: int| 0u16));
        assert(padded.last() == 0u16);
    }
}

/// The survivors of a longer prefix are at least those of a shorter one.
pub proof fn lemma_kept_below_monotone(g: Seq<u16>, i: int, j: int)
    requires
        0 <= i <= j <= g.len(),
    ensures
        kept_below(g, i) <= kept_below(g, j),
        i < j && !row_filled(g[i]) ==> kept_below(g, i) < kept_below(g, j),
    decreases j - i,
{
    if i < j {
        lemma_kept_below_monotone(g, i, j - 1);
        assert(g.take(j).drop_last() =~= g.take(j - 1));
        assert(g.take(j).last() == g[j - 1]);
    }
}

/// A row that is not filled stands, after the clear, at the index that
/// counts the unfilled rows below it.
pub proof fn lemma_kept_row(g: Seq<u16>, i: int)
    requires
        0 <= i < g.len(),
        !row_filled(g[i]),
    ensures
        0 <= kept_below(g, i) < keep_unfilled(g).len(),
        keep_unfilled(g)[kept_below(g, i)] == g[i],
    decreases g.len(),
{
    if i == g.len() - 1 {
        assert(g.take(i) =~= g.drop_last());
    } else {
        lemma_kept_row(g.drop_last(), i);
        assert(g.drop_last().take(i) =~= g.take(i));
    }
}

/// A compressed row is zero exactly when none of its columns is occupied.
pub proof fn lemma_row_zero(row: u16)
    requires
        row_valid(row),
    ensures
        (row == 0) <==> (forall|x: int| 0 <= x < 10 ==> !row_bit(row, x)),
{
    lemma_row_empty();
    if forall|x: int| 0 <= x < 10 ==> !row_bit(row, x) {
        lemma_row_ext(row, 0u16);
    }
}

/// One garbage row on a grid gives a grid.
pub proof fn lemma_push_garbage(g: Seq<u16>, hole: int)
    requires
        grid_valid(g),
        0 <= hole < 10,
    ensures
        grid_valid(push_garbage(g, hole)),
        push_garbage(g, hole)[0] == garbage_row(hole),
        forall|y: int| 1 <= y < 40 ==> #[trigger] push_garbage(g, hole)[y] == g[y - 1],
{
    crate::row::lemma_garbage_row(hole);
    let p = push_garbage(g, hole);
    assert forall|y: int| 0 <= y < 40 implies row_valid(#[trigger] p[y]) by {
        if y > 0 {
            assert(p[y] == g[y - 1]);
        }
    }
}

/// The height of column `c` where only the rows below `y` count: one more
/// than the index of the topmost filled cell among them, or zero.
pub open spec fn column_height_below(g: Seq<u16>, c: int, y: int) -> int
    decreases y,
{
    if y <= 0 {
        0
    } else if cell_filled(g, c, y - 1) {
        y
    } else {
        column_height_below(g, c, y - 1)
    }
}

/// The height of column `c`: one more than the index of its topmost filled
/// cell, or zero where the column holds nothing.
pub open spec fn column_height(g: Seq<u16>, c: int) -> int {
    column_height_below(g, c, 40)
}

/// A column has one height only.
pub proof fn lemma_column_height(g: Seq<u16>, c: int, h: int)
    requires
        is_column_height(g, c, h),
    ensures
        h == column_height(g, c),
{
    lemma_column_height_below(g, c, h, 40);
}

proof fn lemma_column_height_below(g: Seq<u16>, c: int, h: int, y: int)
    requires
        is_column_height(g, c, h),
        h <= y <= 40,
    ensures
        column_height_below(g, c, y) == h,
    decreases y,
{
    if y > h {
        assert(!cell_filled(g, c, y - 1));
        lemma_column_height_below(g, c, h, y - 1);
    } else if h > 0 {
        assert(cell_filled(g, c, h - 1));
    }
}

} // verus!
