use vstd::prelude::*;
use crate::geometry::{CellType, PieceType};
use crate::grid::{
    add_garbage_upto, cell_filled, cell_occupied, clear_filled, empty_grid, filled_rows,
    grid_count, grid_valid, is_column_height, kept_below, lemma_clear_filled,
    lemma_grid_count_keep, lemma_grid_count_pad, lemma_grid_count_place, lemma_keep_unfilled,
    lemma_kept_below_monotone, lemma_kept_row, lemma_place_upto, lemma_push_garbage,
    lemma_row_zero, place, place_upto, push_garbage, tops_out,
};
use crate::piece::{cell_at, shape_cells, Piece, TspinType};
use crate::row::{lemma_row_empty, row_bit, row_filled, row_valid, Row, FULL_ROW};
use crate::storage::{
    keep_unfilled, rows_as_slice, rows_clone, rows_from_array, rows_get, rows_insert, rows_len,
    rows_of, rows_pop, rows_push, rows_retain_unfilled, rows_set, Rows,
};

verus! {

/// What locking a piece did to the board.
#[derive(Copy, Clone, Debug)]
pub struct LockResult {
    /// How many filled rows were removed.
    pub lines_cleared: i32,
    /// Whether every cell of the piece lay in the buffer zone, at row 20 or
    /// above.
    pub block_out: bool,
    /// The board's combo counter after the lock.
    pub combo: u32,
    /// Whether this clear and the clear before it were both a four-line
    /// clear or a T-spin clear.
    pub b2b_bonus: bool,
}

/// What a board is, apart from how it is stored.
pub struct BoardView {
    /// The 40 compressed rows, bottom row first.
    pub grid: Seq<u16>,
    /// The held piece kind, if any.
    pub hold: Option<PieceType>,
    /// The number of placements in a row that cleared a line.
    pub combo: u32,
    /// Whether the last clear was a four-line clear or a T-spin clear.
    pub b2b: bool,
}

/// A 10 by 40 occupancy grid with the height of each column, a hold slot, a
/// combo counter and a back-to-back flag. Rows 0 to 19 are the playfield,
/// rows 20 to 39 the buffer above it.
pub struct Board {
    rows: Rows,
    column_heights: [i32; 10],
    hold: Option<PieceType>,
    combo: u32,
    b2b: bool,
}

impl View for Board {
    type V = BoardView;

    closed spec fn view(&self) -> BoardView {
        BoardView { grid: rows_of(self.rows), hold: self.hold, combo: self.combo, b2b: self.b2b }
    }
}

/// Whether every cell of the shape lies in the buffer zone.
pub open spec fn in_buffer(kind: PieceType, x: int, y: int, r: int) -> bool {
    &&& cell_at(kind, x, y, r, 0).1 >= 20
    &&& cell_at(kind, x, y, r, 1).1 >= 20
    &&& cell_at(kind, x, y, r, 2).1 >= 20
    &&& cell_at(kind, x, y, r, 3).1 >= 20
}

/// The combo counter after a lock that cleared `lines` rows: one more
/// (never above `u32::MAX`) after a clear, zero after none.
pub open spec fn combo_after(combo: u32, lines: int) -> u32 {
    if lines > 0 {
        if combo == u32::MAX {
            combo
        } else {
            (combo + 1) as u32
        }
    } else {
        0
    }
}

/// Whether a clear of `lines` rows by a piece with `tspin` keeps a
/// back-to-back chain going: it cleared four rows or was a T-spin.
pub open spec fn is_b2b_clear(lines: int, tspin: TspinType) -> bool {
    lines == 4 || tspin != TspinType::NoSpin
}

/// The back-to-back flag after a lock: set anew by a clear, kept by a lock
/// that clears nothing.
pub open spec fn b2b_after(b2b: bool, lines: int, tspin: TspinType) -> bool {
    if lines > 0 {
        is_b2b_clear(lines, tspin)
    } else {
        b2b
    }
}

/// The board after `piece` was locked onto `before`: the piece's cells are
/// filled, the filled rows cleared, and combo and back-to-back brought up
/// to date. The hold slot stays.
pub open spec fn lock_view(before: BoardView, piece: Piece) -> BoardView {
    let placed = place(before.grid, piece.kind, piece.x as int, piece.y as int, piece.r as int);
    let lines = filled_rows(placed);
    BoardView {
        grid: clear_filled(placed),
        hold: before.hold,
        combo: combo_after(before.combo, lines),
        b2b: b2b_after(before.b2b, lines, piece.tspin),
    }
}

/// What locking `piece` onto `before` reports: the rows cleared, whether the
/// piece lay in the buffer zone with all its cells, the combo counter after
/// the lock, and whether this clear and the one before it both kept a
/// back-to-back chain going.
pub open spec fn lock_result(before: BoardView, piece: Piece) -> LockResult {
    let placed = place(before.grid, piece.kind, piece.x as int, piece.y as int, piece.r as int);
    let lines = filled_rows(placed);
    LockResult {
        lines_cleared: lines as i32,
        block_out: in_buffer(piece.kind, piece.x as int, piece.y as int, piece.r as int),
        combo: combo_after(before.combo, lines),
        b2b_bonus: lines > 0 && before.b2b && is_b2b_clear(lines, piece.tspin),
    }
}

impl Board {
    /// The compressed rows of the board, bottom row first.
    pub open spec fn grid(&self) -> Seq<u16> {
        self@.grid
    }

    /// The heights that the board keeps for its ten columns.
    pub closed spec fn heights(&self) -> Seq<i32> {
        self.column_heights@
    }

    /// The board's invariant: 40 ten-bit rows, and for each column the
    /// height that its cells give. It holds of every board there is.
    #[verifier::type_invariant]
    pub open spec fn wf(&self) -> bool {
        &&& grid_valid(self.grid())
        &&& self.heights().len() == 10
        &&& forall|c: int|
            0 <= c < 10 ==> is_column_height(self.grid(), c, #[trigger] self.heights()[c] as int)
    }

    /// The empty board: no cell filled, nothing held, no combo.
    pub fn new() -> (board: Self)
        ensures
            board.wf(),
            board@ == (BoardView { grid: empty_grid(), hold: None, combo: 0, b2b: false }),
    {
        let rows = rows_from_array([0u16;40]);
        let column_heights = [0i32;10];
        proof {
            lemma_row_empty();
            assert(rows_of(rows) =~= empty_grid());
            assert forall|c: int| 0 <= c < 10 implies is_column_height(
                rows_of(rows),
                c,
                #[trigger] column_heights@[c] as int,
            ) by {
                assert forall|y: int| 0 <= y < 40 implies !cell_filled(rows_of(rows), c, y) by {
                    assert(rows_of(rows)[y] == 0u16);
                }
            }
        }
        Board { rows, column_heights, hold: None, combo: 0, b2b: false }
    }

    /// The board with the rows `rows`, bottom row first, the held kind
    /// `hold`, the combo counter `combo` and the back-to-back flag `b2b`.
    /// The column heights are worked out from the rows. Each row must be a
    /// ten-bit pattern.
    pub fn from_parts(rows: [u16; 40], hold: Option<PieceType>, combo: u32, b2b: bool) -> (board:
        Self)
        requires
            forall|y: int| 0 <= y < 40 ==> row_valid(#[trigger] rows@[y]),
        ensures
            board.wf(),
            board@ == (BoardView { grid: rows@, hold, combo, b2b }),
    {
        let rows = rows_from_array(rows);
        let column_heights = heights_of(&rows);
        Board { rows, column_heights, hold, combo, b2b }
    }

    /// Whether `(x, y)` is taken. Everything off the grid is.
    pub fn occupied(&self, x: i32, y: i32) -> (taken: bool)
        ensures
            taken == cell_occupied(self.grid(), x as int, y as int),
    {
        proof {
            use_type_invariant(self);
        }
        if x < 0 || x >= 10 || y < 0 || y >= 40 {
            true
        } else {
            rows_get(&self.rows, y as usize).get(x as usize)
        }
    }

    /// Whether the `i`-th cell of `piece` is on the grid and free.
    fn cell_fits(&self, piece: Piece, i: usize) -> (free: bool)
        requires
            piece.r < 4,
            i < 4,
        ensures
            free == crate::piece::cell_free(
                self.grid(),
                cell_at(piece.kind, piece.x as int, piece.y as int, piece.r as int, i as int).0,
                cell_at(piece.kind, piece.x as int, piece.y as int, piece.r as int, i as int).1,
            ),
    {
        proof {
            use_type_invariant(self);
            crate::geometry::lemma_cells_near_anchor(piece.kind, piece.r as int);
        }
        let offsets = piece.kind.cells(piece.r);
        let x: i64 = piece.x as i64 + offsets[i].0 as i64;
        let y: i64 = piece.y as i64 + offsets[i].1 as i64;
        if x < 0 || x >= 10 || y < 0 || y >= 40 {
            false
        } else {
            !rows_get(&self.rows, y as usize).get(x as usize)
        }
    }

    /// Whether `piece` fits: its four cells are on the grid and free.
    pub fn piece_fits(&self, piece: Piece) -> (fits: bool)
        requires
            piece.r < 4,
        ensures
            fits == piece.fits(self.grid()),
    {
        self.cell_fits(piece, 0) && self.cell_fits(piece, 1) && self.cell_fits(piece, 2)
            && self.cell_fits(piece, 3)
    }

    /// Locks `piece` onto the board: fills its four cells, removes the
    /// filled rows (the rows left keep their order and empty rows come in
    /// at the top), and brings column heights, combo and back-to-back up to
    /// date. The piece's cells must lie on the grid.
    pub fn lock_piece(&mut self, piece: Piece) -> (result: LockResult)
        requires
            piece.spec_on_grid(),
        ensures
            final(self).wf(),
            final(self)@ == lock_view(old(self)@, piece),
            result == lock_result(old(self)@, piece),
            0 <= result.lines_cleared <= 40,
            result.combo == final(self)@.combo,
    {
        proof {
            use_type_invariant(&*self);
        }
        let ghost g0 = self.grid();
        let ghost shape = shape_cells(piece.kind, piece.x as int, piece.y as int, piece.r as int);
        proof {
            crate::geometry::lemma_cells_near_anchor(piece.kind, piece.r as int);
            assert(cell_at(piece.kind, piece.x as int, piece.y as int, piece.r as int, 0).0 >= 0);
        }
        let cells = piece.cells();
        let color = piece.kind.cell();
        let mut rows = rows_clone(&self.rows);
        let mut block_out = true;
        let mut i: usize = 0;
        while i < 4
            invariant
                i <= 4,
                grid_valid(g0),
                piece.spec_on_grid(),
                shape == shape_cells(piece.kind, piece.x as int, piece.y as int, piece.r as int),
                color != CellType::Empty,
                forall|k: int|
                    0 <= k < 4 ==> (#[trigger] cells@[k]).0 == shape[k].0 && cells@[k].1
                        == shape[k].1,
                rows_of(rows) == place_upto(g0, shape, i as int),
                block_out == (forall|k: int| 0 <= k < i ==> (#[trigger] shape[k]).1 >= 20),
            decreases 4 - i,
        {
            let (x, y) = cells[i];
            proof {
                lemma_place_upto(
                    g0,
                    piece.kind,
                    piece.x as int,
                    piece.y as int,
                    piece.r as int,
                    i as int,
                );
                assert(shape[i as int] == cell_at(
                    piece.kind,
                    piece.x as int,
                    piece.y as int,
                    piece.r as int,
                    i as int,
                ));
            }
            let mut row = rows_get(&rows, y as usize);
            row.set(x as usize, color);
            rows_set(&mut rows, y as usize, row);
            if y < 20 {
                block_out = false;
            }
            i += 1;
        }
        let ghost placed = rows_of(rows);
        proof {
            lemma_place_upto(g0, piece.kind, piece.x as int, piece.y as int, piece.r as int, 4);
            lemma_keep_unfilled(placed);
            lemma_clear_filled(placed);
            assert(in_buffer(piece.kind, piece.x as int, piece.y as int, piece.r as int)
                == block_out) by {
                assert(shape[0] == cell_at(
                    piece.kind,
                    piece.x as int,
                    piece.y as int,
                    piece.r as int,
                    0,
                ));
                assert(shape[1] == cell_at(
                    piece.kind,
                    piece.x as int,
                    piece.y as int,
                    piece.r as int,
                    1,
                ));
                assert(shape[2] == cell_at(
                    piece.kind,
                    piece.x as int,
                    piece.y as int,
                    piece.r as int,
                    2,
                ));
                assert(shape[3] == cell_at(
                    piece.kind,
                    piece.x as int,
                    piece.y as int,
                    piece.r as int,
                    3,
                ));
            }
        }
        rows_retain_unfilled(&mut rows);
        let kept = rows_len(&rows);
        let lines_cleared: i32 = 40 - kept as i32;
        while rows_len(&rows) < 40
            invariant
                kept == keep_unfilled(placed).len(),
                kept <= rows_of(rows).len() <= 40,
                rows_of(rows) == keep_unfilled(placed) + Seq::new(
                    (rows_of(rows).len() - kept) as nat,
                    |i: int| 0u16,
                ),
            decreases 40 - rows_of(rows).len(),
        {
            rows_push(&mut rows, 0u16);
            proof {
                assert(rows_of(rows) =~= keep_unfilled(placed) + Seq::new(
                    (rows_of(rows).len() - kept) as nat,
                    |i: int| 0u16,
                ));
            }
        }
        proof {
            assert(rows_of(rows) =~= clear_filled(placed));
        }
        let mut combo = self.combo;
        let mut b2b = self.b2b;
        let mut b2b_bonus = false;
        if lines_cleared > 0 {
            if combo < u32::MAX {
                combo = combo + 1;
            }
            let chain = b2b;
            b2b = lines_cleared == 4 || piece.tspin != TspinType::NoSpin;
            b2b_bonus = chain && b2b;
        } else {
            combo = 0;
        }
        let column_heights = heights_of(&rows);
        *self = Board { rows, column_heights, hold: self.hold, combo, b2b };
        LockResult { lines_cleared, block_out, combo, b2b_bonus }
    }

    /// The held piece kind, if any.
    pub fn hold(&self) -> (held: Option<PieceType>)
        ensures
            held == self@.hold,
    {
        self.hold
    }

    /// The number of placements in a row that cleared a line.
    pub fn combo(&self) -> (combo: u32)
        ensures
            combo == self@.combo,
    {
        self.combo
    }

    /// Whether the last clear was a four-line clear or a T-spin clear.
    pub fn b2b(&self) -> (b2b: bool)
        ensures
            b2b == self@.b2b,
    {
        self.b2b
    }

    /// The heights of the ten columns.
    pub fn column_heights(&self) -> (heights: &[i32])
        ensures
            heights@.len() == 10,
            forall|c: int|
                0 <= c < 10 ==> is_column_height(self.grid(), c, #[trigger] heights@[c] as int),
    {
        proof {
            use_type_invariant(self);
        }
        let heights = self.column_heights.as_slice();
        heights
    }

    /// The 40 compressed rows, bottom row first.
    pub fn rows(&self) -> (rows: &[u16])
        ensures
            rows@ == self.grid(),
    {
        rows_as_slice(&self.rows)
    }

    /// Lets one garbage row come in from below for each entry of `holes`,
    /// in their order: the rows move up by one, the top row is lost, and
    /// the new bottom row is filled everywhere but in the entry's column.
    /// Returns whether a cell that was filled before the call was pushed
    /// off the top.
    pub fn add_garbage(&mut self, holes: &[i32]) -> (top_out: bool)
        requires
            forall|k: int| 0 <= k < holes@.len() ==> 0 <= #[trigger] holes@[k] < 10,
        ensures
            final(self).wf(),
            final(self).grid() == add_garbage_upto(old(self).grid(), holes@, holes@.len() as int),
            final(self)@.hold == old(self)@.hold,
            final(self)@.combo == old(self)@.combo,
            final(self)@.b2b == old(self)@.b2b,
            top_out == tops_out(old(self).grid(), holes@.len() as int),
    {
        proof {
            use_type_invariant(&*self);
        }
        let ghost g0 = self.grid();
        let mut rows = rows_clone(&self.rows);
        let mut top_out = false;
        let mut k: usize = 0;
        while k < holes.len()
            invariant
                k <= holes@.len(),
                grid_valid(g0),
                grid_valid(rows_of(rows)),
                forall|j: int| 0 <= j < holes@.len() ==> 0 <= #[trigger] holes@[j] < 10,
                rows_of(rows) == add_garbage_upto(g0, holes@, k as int),
                forall|y: int| k <= y < 40 ==> #[trigger] rows_of(rows)[y] == g0[y - k],
                top_out == tops_out(g0, k as int),
            decreases holes@.len() - k,
        {
            let hole = holes[k];
            let ghost before = rows_of(rows);
            let top = rows_pop(&mut rows);
            let row: u16 = FULL_ROW ^ (1u16 << (hole as u16));
            rows_insert(&mut rows, 0, row);
            proof {
                lemma_push_garbage(before, hole as int);
                assert(rows_of(rows) == push_garbage(before, hole as int));
                assert forall|y: int| k + 1 <= y < 40 implies #[trigger] rows_of(rows)[y] == g0[y
                    - (k + 1)] by {
                    assert(rows_of(rows)[y] == before[y - 1]);
                }
            }
            if k < 40 {
                let lost = match top {
                    Some(row) => row,
                    None => 0,
                };
                proof {
                    assert(lost == g0[39 - k]);
                    lemma_row_zero(lost);
                    if lost != 0 {
                        let x = choose|x: int| 0 <= x < 10 && row_bit(lost, x);
                        assert(cell_filled(g0, x, 39 - k));
                    }
                    if tops_out(g0, k as int + 1) && !tops_out(g0, k as int) {
                        let (x, y) = choose|x: int, y: int|
                            0 <= y < 40 && y + (k + 1) >= 40 && #[trigger] cell_filled(g0, x, y);
                        assert(y == 39 - k);
                        assert(row_bit(lost, x));
                    }
                }
                if lost != 0 {
                    top_out = true;
                }
            } else {
                proof {
                    if tops_out(g0, k as int + 1) {
                        let (x, y) = choose|x: int, y: int|
                            0 <= y < 40 && y + (k + 1) >= 40 && #[trigger] cell_filled(g0, x, y);
                        assert(cell_filled(g0, x, y) && y + k >= 40);
                    }
                    if tops_out(g0, k as int) {
                        let (x, y) = choose|x: int, y: int|
                            0 <= y < 40 && y + k >= 40 && #[trigger] cell_filled(g0, x, y);
                        assert(cell_filled(g0, x, y) && y + (k + 1) >= 40);
                    }
                }
            }
            k += 1;
        }
        let column_heights = heights_of(&rows);
        *self = Board { rows, column_heights, hold: self.hold, combo: self.combo, b2b: self.b2b };
        top_out
    }

    /// Replaces the rows of the board by `rows`, bottom row first, and
    /// brings the column heights in line. Each row must be a ten-bit
    /// pattern.
    pub fn set_field(&mut self, rows: [u16; 40])
        requires
            forall|y: int| 0 <= y < 40 ==> row_valid(#[trigger] rows@[y]),
        ensures
            final(self).wf(),
            final(self).grid() == rows@,
            final(self)@.hold == old(self)@.hold,
            final(self)@.combo == old(self)@.combo,
            final(self)@.b2b == old(self)@.b2b,
    {
        let rows = rows_from_array(rows);
        let column_heights = heights_of(&rows);
        *self = Board { rows, column_heights, hold: self.hold, combo: self.combo, b2b: self.b2b };
    }

    /// Puts `current` into the hold slot and returns what the slot held:
    /// `None` where it was empty, and the caller then draws the next piece
    /// of its queue.
    pub fn hold_swap(&mut self, current: PieceType) -> (held: Option<PieceType>)
        ensures
            held == old(self)@.hold,
            final(self)@ == (BoardView { hold: Some(current), ..old(self)@ }),
            final(self).wf(),
    {
        proof {
            use_type_invariant(&*self);
        }
        let held = self.hold;
        self.hold = Some(current);
        held
    }

    /// A copy of the board, to be handed to a search of its own.
    pub fn snapshot(&self) -> (copy: Self)
        ensures
            copy@ == self@,
            copy.wf(),
    {
        proof {
            use_type_invariant(self);
        }
        let copy = Board {
            rows: rows_clone(&self.rows),
            column_heights: self.column_heights,
            hold: self.hold,
            combo: self.combo,
            b2b: self.b2b,
        };
        copy
    }
}

/// The height of each of the ten columns of `rows`.
fn heights_of(rows: &Rows) -> (heights: [i32; 10])
    requires
        grid_valid(rows_of(*rows)),
    ensures
        forall|c: int|
            0 <= c < 10 ==> is_column_height(rows_of(*rows), c, #[trigger] heights@[c] as int),
{
    let mut heights = [0i32;10];
    let mut x: usize = 0;
    while x < 10
        invariant
            x <= 10,
            grid_valid(rows_of(*rows)),
            forall|c: int|
                0 <= c < x ==> is_column_height(rows_of(*rows), c, #[trigger] heights@[c] as int),
        decreases 10 - x,
    {
        let mut h: usize = 40;
        while h > 0 && !rows_get(rows, h - 1).get(x)
            invariant
                x < 10,
                h <= 40,
                grid_valid(rows_of(*rows)),
                forall|y: int| h <= y < 40 ==> !cell_filled(rows_of(*rows), x as int, y),
            decreases h,
        {
            h -= 1;
        }
        heights[x] = h as i32;
        x += 1;
    }
    heights
}

/// On every board the height kept for a column is one more than the row of
/// the column's topmost filled cell, and zero where the column holds
/// nothing.
pub proof fn law_column_height(board: Board, c: int)
    requires
        board.wf(),
        0 <= c < 10,
    ensures
        board.heights()[c] == 0 <==> forall|y: int| 0 <= y < 40 ==> !cell_filled(board.grid(), c, y),
        board.heights()[c] != 0 ==> cell_filled(board.grid(), c, board.heights()[c] - 1) && forall|
            y: int,
        | cell_filled(board.grid(), c, y) ==> y <= board.heights()[c] - 1,
{
    let h = board.heights()[c] as int;
    assert(is_column_height(board.grid(), c, h));
}

/// Locking a piece that fits changes the number of filled cells by the
/// four cells of the piece, less ten for each row that the lock cleared.
pub proof fn law_lock_count(board: Board, piece: Piece)
    requires
        board.wf(),
        piece.fits(board.grid()),
    ensures
        grid_count(lock_view(board@, piece).grid) == grid_count(board.grid()) + 4 - 10 * filled_rows(
            place(board.grid(), piece.kind, piece.x as int, piece.y as int, piece.r as int),
        ),
{
    let g = board.grid();
    let placed = place(g, piece.kind, piece.x as int, piece.y as int, piece.r as int);
    lemma_grid_count_place(g, piece.kind, piece.x as int, piece.y as int, piece.r as int, 4);
    lemma_grid_count_keep(placed);
    lemma_grid_count_pad(keep_unfilled(placed), filled_rows(placed) as nat);
}

/// A lock with its line clear keeps the rows that are not filled in their
/// order: of two such rows of the board with the piece on it, the lower
/// one is the lower one afterwards, and each stands at the index that
/// counts the unfilled rows below it.
pub proof fn law_clear_stable(board: Board, piece: Piece, i: int, j: int)
    requires
        board.wf(),
        piece.spec_on_grid(),
        0 <= i < j < 40,
        !row_filled(
            place(board.grid(), piece.kind, piece.x as int, piece.y as int, piece.r as int)[i],
        ),
        !row_filled(
            place(board.grid(), piece.kind, piece.x as int, piece.y as int, piece.r as int)[j],
        ),
    ensures
        ({
            let placed = place(
                board.grid(),
                piece.kind,
                piece.x as int,
                piece.y as int,
                piece.r as int,
            );
            let after = lock_view(board@, piece).grid;
            &&& 0 <= kept_below(placed, i) < kept_below(placed, j) < 40
            &&& after[kept_below(placed, i)] == placed[i]
            &&& after[kept_below(placed, j)] == placed[j]
        }),
{
    let placed = place(board.grid(), piece.kind, piece.x as int, piece.y as int, piece.r as int);
    lemma_place_upto(board.grid(), piece.kind, piece.x as int, piece.y as int, piece.r as int, 4);
    lemma_keep_unfilled(placed);
    lemma_kept_row(placed, i);
    lemma_kept_row(placed, j);
    lemma_kept_below_monotone(placed, i, j);
}

impl Clone for Board {
    fn clone(&self) -> (copy: Self)
        ensures
            copy@ == self@,
            copy.wf(),
    {
        self.snapshot()
    }
}

} // verus!
