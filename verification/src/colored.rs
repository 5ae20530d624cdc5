use vstd::prelude::*;
use crate::board::{lock_result, lock_view, Board, BoardView, LockResult};
use crate::geometry::{CellType, PieceType};
use crate::grid::{
    add_garbage_upto, cell_filled, clear_filled, empty_grid, grid_valid,
    lemma_keep_unfilled, lemma_place_upto, lemma_set_cell, place, place_upto, push_garbage,
    set_cell, tops_out,
};
use crate::piece::{cell_at, on_grid, shape_cells, Piece};
use crate::row::{
    garbage_row, lemma_garbage_row, lemma_row_empty, row_bit, row_filled, ColoredRow, Row,
};
use crate::storage::keep_unfilled;

verus! {

/// Ten empty cells.
pub open spec fn empty_colors() -> Seq<CellType> {
    Seq::new(10, |x: int| CellType::Empty)
}

/// A garbage row: ten cells of garbage but for the empty one at `hole`.
pub open spec fn garbage_colors(hole: int) -> Seq<CellType> {
    Seq::new(
        10,
        |x: int|
            if x == hole {
                CellType::Empty
            } else {
                CellType::Garbage
            },
    )
}

/// Whether the ten cells `c` are occupied exactly where the compressed row
/// `r` is.
pub open spec fn row_match(c: Seq<CellType>, r: u16) -> bool {
    &&& c.len() == 10
    &&& forall|x: int| 0 <= x < 10 ==> (#[trigger] c[x] != CellType::Empty) == row_bit(r, x)
}

/// Whether the coloured rows `cells` are occupied exactly where the
/// compressed rows `g` are.
pub open spec fn grid_match(cells: Seq<Seq<CellType>>, g: Seq<u16>) -> bool {
    &&& cells.len() == g.len()
    &&& forall|y: int| 0 <= y < cells.len() ==> row_match(#[trigger] cells[y], g[y])
}

/// Whether all cells of a coloured row are occupied.
pub open spec fn colors_filled(c: Seq<CellType>) -> bool {
    forall|x: int| 0 <= x < c.len() ==> #[trigger] c[x] != CellType::Empty
}

/// The coloured rows with the cell `(x, y)` given the colour `color`.
pub open spec fn set_color(
    cells: Seq<Seq<CellType>>,
    x: int,
    y: int,
    color: CellType,
) -> Seq<Seq<CellType>> {
    cells.update(y, cells[y].update(x, color))
}

/// The coloured rows with the first `n` of `shape` given the colour
/// `color`.
pub open spec fn paint_upto(
    cells: Seq<Seq<CellType>>,
    shape: Seq<(int, int)>,
    color: CellType,
    n: int,
) -> Seq<Seq<CellType>>
    decreases n,
{
    if n <= 0 {
        cells
    } else {
        set_color(paint_upto(cells, shape, color, n - 1), shape[n - 1].0, shape[n - 1].1, color)
    }
}

/// The coloured rows that are not filled, in their order.
pub open spec fn keep_open(cells: Seq<Seq<CellType>>) -> Seq<Seq<CellType>>
    decreases cells.len(),
{
    if cells.len() == 0 {
        cells
    } else if colors_filled(cells.last()) {
        keep_open(cells.drop_last())
    } else {
        keep_open(cells.drop_last()).push(cells.last())
    }
}

/// The coloured rows after a line clear: the rows that are not filled move
/// down in their order, and empty rows take the places left at the top.
pub open spec fn clear_colors(cells: Seq<Seq<CellType>>) -> Seq<Seq<CellType>> {
    keep_open(cells) + Seq::new(
        (cells.len() - keep_open(cells).len()) as nat,
        |i: int| empty_colors(),
    )
}

/// The coloured rows after `piece` was locked onto them: its four cells
/// take the colour of its kind, and the filled rows are cleared.
pub open spec fn lock_colors(cells: Seq<Seq<CellType>>, piece: Piece) -> Seq<Seq<CellType>> {
    clear_colors(paint_upto(cells, piece.spec_cells(), piece.kind.spec_cell(), 4))
}

/// The coloured rows after one garbage row with its hole at `hole` came in
/// from below.
pub open spec fn push_colors(cells: Seq<Seq<CellType>>, hole: int) -> Seq<Seq<CellType>> {
    cells.drop_last().insert(0, garbage_colors(hole))
}

/// The coloured rows after the first `n` of `holes` came in as garbage
/// rows, one after the other.
pub open spec fn garbage_colors_upto(
    cells: Seq<Seq<CellType>>,
    holes: Seq<i32>,
    n: int,
) -> Seq<Seq<CellType>>
    decreases n,
{
    if n <= 0 {
        cells
    } else {
        push_colors(garbage_colors_upto(cells, holes, n - 1), holes[n - 1] as int)
    }
}

/// What each of the coloured rows holds.
pub open spec fn colors_of(rows: Seq<ColoredRow>) -> Seq<Seq<CellType>> {
    Seq::new(rows.len(), |y: int| rows[y]@)
}

/// A coloured row is filled exactly when the compressed row that it
/// matches is.
pub proof fn lemma_match_filled(c: Seq<CellType>, r: u16)
    requires
        row_match(c, r),
    ensures
        colors_filled(c) == row_filled(r),
{
    if colors_filled(c) {
        assert forall|x: int| 0 <= x < 10 implies row_bit(r, x) by {
            assert(c[x] != CellType::Empty);
        }
    }
    if row_filled(r) {
        assert forall|x: int| 0 <= x < c.len() implies #[trigger] c[x] != CellType::Empty by {
            assert(row_bit(r, x));
        }
    }
}

/// Painting a cell in a colour that is not `Empty` fills it.
pub proof fn lemma_match_set(
    cells: Seq<Seq<CellType>>,
    g: Seq<u16>,
    x: int,
    y: int,
    color: CellType,
)
    requires
        grid_valid(g),
        grid_match(cells, g),
        0 <= x < 10,
        0 <= y < 40,
        color != CellType::Empty,
    ensures
        grid_match(set_color(cells, x, y, color), set_cell(g, x, y)),
{
    lemma_set_cell(g, x, y);
    let c2 = set_color(cells, x, y, color);
    let g2 = set_cell(g, x, y);
    assert forall|b: int| 0 <= b < c2.len() implies row_match(#[trigger] c2[b], g2[b]) by {
        assert(row_match(cells[b], g[b]));
        assert forall|a: int| 0 <= a < 10 implies (#[trigger] c2[b][a] != CellType::Empty)
            == row_bit(g2[b], a) by {
            assert(cell_filled(g2, a, b) == ((a == x && b == y) || cell_filled(g, a, b)));
            assert((cells[b][a] != CellType::Empty) == row_bit(g[b], a));
        }
    }
}

/// Painting the first `n` cells of a shape on the grid fills them.
pub proof fn lemma_match_paint(
    cells: Seq<Seq<CellType>>,
    g: Seq<u16>,
    kind: PieceType,
    x: int,
    y: int,
    r: int,
    color: CellType,
    n: int,
)
    requires
        grid_valid(g),
        grid_match(cells, g),
        on_grid(kind, x, y, r),
        color != CellType::Empty,
        0 <= n <= 4,
    ensures
        grid_match(
            paint_upto(cells, shape_cells(kind, x, y, r), color, n),
            place_upto(g, shape_cells(kind, x, y, r), n),
        ),
    decreases n,
{
    if n > 0 {
        let shape = shape_cells(kind, x, y, r);
        lemma_match_paint(cells, g, kind, x, y, r, color, n - 1);
        lemma_place_upto(g, kind, x, y, r, n - 1);
        assert(shape[n - 1] == cell_at(kind, x, y, r, n - 1));
        lemma_match_set(
            paint_upto(cells, shape, color, n - 1),
            place_upto(g, shape, n - 1),
            shape[n - 1].0,
            shape[n - 1].1,
            color,
        );
    }
}

/// The rows that are not filled are the same in colour and compressed.
pub proof fn lemma_match_keep(cells: Seq<Seq<CellType>>, g: Seq<u16>)
    requires
        grid_match(cells, g),
    ensures
        grid_match(keep_open(cells), keep_unfilled(g)),
    decreases cells.len(),
{
    if cells.len() > 0 {
        assert(row_match(cells.last(), g.last()));
        lemma_match_filled(cells.last(), g.last());
        assert(grid_match(cells.drop_last(), g.drop_last())) by {
            assert forall|y: int| 0 <= y < cells.len() - 1 implies row_match(
                #[trigger] cells.drop_last()[y],
                g.drop_last()[y],
            ) by {
                assert(row_match(cells[y], g[y]));
            }
        }
        lemma_match_keep(cells.drop_last(), g.drop_last());
        let kc = keep_open(cells);
        let kg = keep_unfilled(g);
        assert forall|y: int| 0 <= y < kc.len() implies row_match(#[trigger] kc[y], kg[y]) by {
            if y < keep_open(cells.drop_last()).len() {
                assert(row_match(keep_open(cells.drop_last())[y], keep_unfilled(g.drop_last())[y]));
            }
        }
    }
}

/// A line clear does the same to the coloured rows as to the compressed.
pub proof fn lemma_match_clear(cells: Seq<Seq<CellType>>, g: Seq<u16>)
    requires
        grid_valid(g),
        grid_match(cells, g),
    ensures
        grid_match(clear_colors(cells), clear_filled(g)),
{
    lemma_match_keep(cells, g);
    lemma_keep_unfilled(g);
    lemma_row_empty();
    let cc = clear_colors(cells);
    let cg = clear_filled(g);
    assert forall|y: int| 0 <= y < cc.len() implies row_match(#[trigger] cc[y], cg[y]) by {
        if y < keep_open(cells).len() {
            assert(row_match(keep_open(cells)[y], keep_unfilled(g)[y]));
        } else {
            assert(cc[y] == empty_colors());
            assert(cg[y] == 0u16);
        }
    }
}

/// A garbage row does the same to the coloured rows as to the compressed.
pub proof fn lemma_match_push(cells: Seq<Seq<CellType>>, g: Seq<u16>, hole: int)
    requires
        grid_valid(g),
        grid_match(cells, g),
        0 <= hole < 10,
    ensures
        grid_match(push_colors(cells, hole), push_garbage(g, hole)),
{
    lemma_garbage_row(hole);
    let pc = push_colors(cells, hole);
    let pg = push_garbage(g, hole);
    assert forall|y: int| 0 <= y < pc.len() implies row_match(#[trigger] pc[y], pg[y]) by {
        if y > 0 {
            assert(pc[y] == cells[y - 1]);
            assert(pg[y] == g[y - 1]);
            assert(row_match(cells[y - 1], g[y - 1]));
        } else {
            assert(pc[0] == garbage_colors(hole));
            assert(pg[0] == garbage_row(hole));
        }
    }
}

/// What a coloured board is, apart from how it is stored.
pub struct ColoredBoardView {
    /// The occupancy, the hold slot and the counters.
    pub board: BoardView,
    /// What each cell of the 40 rows holds, bottom row first.
    pub cells: Seq<Seq<CellType>>,
}

/// A board that remembers for each cell what it holds, for display. It is
/// the board of the same occupancy with a colour for every filled cell.
pub struct ColoredBoard {
    board: Board,
    cells: Vec<ColoredRow>,
}

impl View for ColoredBoard {
    type V = ColoredBoardView;

    closed spec fn view(&self) -> ColoredBoardView {
        ColoredBoardView { board: self.board@, cells: colors_of(self.cells@) }
    }
}

/// A row with all ten cells empty but for `hole`, which are garbage.
fn garbage_cells(hole: usize) -> (row: ColoredRow)
    requires
        hole < 10,
    ensures
        row@ == garbage_colors(hole as int),
{
    let mut row = <ColoredRow as Row>::empty();
    let mut x: usize = 0;
    while x < 10
        invariant
            x <= 10,
            hole < 10,
            row@.len() == 10,
            forall|k: int| 0 <= k < x ==> row@[k] == garbage_colors(hole as int)[k],
            forall|k: int| x <= k < 10 ==> row@[k] == CellType::Empty,
        decreases 10 - x,
    {
        if x != hole {
            row.set(x, CellType::Garbage);
        }
        x += 1;
    }
    assert(row@ =~= garbage_colors(hole as int));
    row
}

impl ColoredBoard {
    /// The invariant of a coloured board: 40 rows of ten cells, occupied
    /// exactly where its board is.
    #[verifier::type_invariant]
    pub open spec fn wf(&self) -> bool {
        &&& grid_valid(self@.board.grid)
        &&& grid_match(self@.cells, self@.board.grid)
    }

    /// The empty coloured board.
    pub fn new() -> (colored: Self)
        ensures
            colored@.board == (BoardView { grid: empty_grid(), hold: None, combo: 0, b2b: false }),
            colored@.cells == Seq::new(40, |y: int| empty_colors()),
    {
        let board = Board::new();
        let mut cells: Vec<ColoredRow> = Vec::new();
        while cells.len() < 40
            invariant
                cells@.len() <= 40,
                forall|y: int| 0 <= y < cells@.len() ==> (#[trigger] cells@[y])@ == empty_colors(),
            decreases 40 - cells@.len(),
        {
            let row = <ColoredRow as Row>::empty();
            assert(row@ =~= empty_colors());
            cells.push(row);
        }
        proof {
            lemma_row_empty();
            assert(colors_of(cells@) =~= Seq::new(40, |y: int| empty_colors()));
        }
        ColoredBoard { board, cells }
    }

    /// What the cell `(x, y)` holds. Everything off the grid is solid.
    pub fn cell_type(&self, x: i32, y: i32) -> (cell: CellType)
        ensures
            cell == if 0 <= x < 10 && 0 <= y < 40 {
                self@.cells[y as int][x as int]
            } else {
                CellType::Solid
            },
    {
        proof {
            use_type_invariant(self);
        }
        if x < 0 || x >= 10 || y < 0 || y >= 40 {
            CellType::Solid
        } else {
            assert(row_match(self@.cells[y as int], self@.board.grid[y as int]));
            self.cells[y as usize].cell_type(x as usize)
        }
    }

    /// The board of the same occupancy, to be handed to a search.
    pub fn snapshot(&self) -> (board: Board)
        ensures
            board@ == self@.board,
    {
        self.board.snapshot()
    }

    /// The board of the same occupancy.
    pub fn board(&self) -> (board: &Board)
        ensures
            board@ == self@.board,
    {
        &self.board
    }

    /// A copy of the coloured rows.
    fn copy_cells(&self) -> (cells: Vec<ColoredRow>)
        ensures
            colors_of(cells@) == self@.cells,
    {
        let mut cells: Vec<ColoredRow> = Vec::new();
        let mut y: usize = 0;
        while y < self.cells.len()
            invariant
                y <= self.cells@.len(),
                cells@.len() == y,
                forall|k: int| 0 <= k < y ==> (#[trigger] cells@[k])@ == self.cells@[k]@,
            decreases self.cells@.len() - y,
        {
            cells.push(self.cells[y]);
            y += 1;
        }
        assert(colors_of(cells@) =~= self@.cells);
        cells
    }

    /// Locks `piece` onto the board as `Board::lock_piece` does, and gives
    /// its four cells the colour of its kind.
    pub fn lock_piece(&mut self, piece: Piece) -> (result: LockResult)
        requires
            piece.spec_on_grid(),
        ensures
            final(self)@.board == lock_view(old(self)@.board, piece),
            final(self)@.cells == lock_colors(old(self)@.cells, piece),
            result == lock_result(old(self)@.board, piece),
    {
        proof {
            use_type_invariant(&*self);
            crate::geometry::lemma_cells_near_anchor(piece.kind, piece.r as int);
            assert(cell_at(piece.kind, piece.x as int, piece.y as int, piece.r as int, 0).0 >= 0);
        }
        let ghost c0 = self@.cells;
        let ghost g0 = self@.board.grid;
        let ghost shape = piece.spec_cells();
        let ghost tint = piece.kind.spec_cell();
        let spots = piece.cells();
        let color = piece.kind.cell();
        let mut painted = self.copy_cells();
        let mut i: usize = 0;
        while i < 4
            invariant
                i <= 4,
                grid_valid(g0),
                grid_match(c0, g0),
                piece.spec_on_grid(),
                shape == piece.spec_cells(),
                color == tint,
                tint == piece.kind.spec_cell(),
                forall|k: int|
                    0 <= k < 4 ==> (#[trigger] spots@[k]).0 == shape[k].0 && spots@[k].1
                        == shape[k].1,
                painted@.len() == 40,
                colors_of(painted@) == paint_upto(c0, shape, tint, i as int),
            decreases 4 - i,
        {
            let (x, y) = spots[i];
            proof {
                lemma_match_paint(
                    c0,
                    g0,
                    piece.kind,
                    piece.x as int,
                    piece.y as int,
                    piece.r as int,
                    tint,
                    i as int,
                );
                lemma_place_upto(
                    g0,
                    piece.kind,
                    piece.x as int,
                    piece.y as int,
                    piece.r as int,
                    i as int,
                );
                assert(shape[i as int] == cell_at(
                    piece.kind,
                    piece.x as int,
                    piece.y as int,
                    piece.r as int,
                    i as int,
                ));
                let before = colors_of(painted@);
                let under = place_upto(g0, shape, i as int);
                assert(row_match(before[y as int], under[y as int]));
            }
            let ghost before = colors_of(painted@);
            let mut row = painted[y as usize];
            row.set(x as usize, color);
            painted[y as usize] = row;
            proof {
                assert(colors_of(painted@) =~= set_color(before, x as int, y as int, tint));
            }
            i += 1;
        }
        let ghost c1 = colors_of(painted@);
        let ghost g1 = place(g0, piece.kind, piece.x as int, piece.y as int, piece.r as int);
        proof {
            lemma_match_paint(
                c0,
                g0,
                piece.kind,
                piece.x as int,
                piece.y as int,
                piece.r as int,
                tint,
                4,
            );
            lemma_place_upto(g0, piece.kind, piece.x as int, piece.y as int, piece.r as int, 4);
        }
        let mut kept: Vec<ColoredRow> = Vec::new();
        let mut y: usize = 0;
        while y < 40
            invariant
                y <= 40,
                painted@.len() == 40,
                c1 == colors_of(painted@),
                grid_match(c1, g1),
                colors_of(kept@) == keep_open(c1.take(y as int)),
            decreases 40 - y,
        {
            let row = painted[y];
            proof {
                assert(row_match(c1[y as int], g1[y as int]));
                assert(c1.take(y as int + 1).drop_last() =~= c1.take(y as int));
                assert(c1.take(y as int + 1).last() == c1[y as int]);
            }
            let ghost so_far = colors_of(kept@);
            if !row.filled() {
                kept.push(row);
                proof {
                    assert(colors_of(kept@) =~= so_far.push(row@));
                    assert(!colors_filled(c1[y as int])) by {
                        let x = choose|x: int|
                            0 <= x < 10 && !(#[trigger] row.spec_cell_type(x) != CellType::Empty);
                        assert(row@[x] == CellType::Empty);
                    }
                }
            } else {
                proof {
                    assert(colors_filled(c1[y as int])) by {
                        assert forall|x: int| 0 <= x < c1[y as int].len() implies #[trigger] c1[y as int][x]
                            != CellType::Empty by {
                            assert(row.spec_cell_type(x) != CellType::Empty);
                        }
                    }
                }
            }
            y += 1;
        }
        proof {
            assert(c1.take(40) =~= c1);
            lemma_match_keep(c1, g1);
            lemma_keep_unfilled(g1);
        }
        while kept.len() < 40
            invariant
                keep_open(c1).len() <= kept@.len() <= 40,
                c1.len() == 40,
                colors_of(kept@) == keep_open(c1) + Seq::new(
                    (kept@.len() - keep_open(c1).len()) as nat,
                    |i: int| empty_colors(),
                ),
            decreases 40 - kept@.len(),
        {
            let row = <ColoredRow as Row>::empty();
            let ghost so_far = colors_of(kept@);
            kept.push(row);
            proof {
                assert(row@ =~= empty_colors());
                assert(colors_of(kept@) =~= so_far.push(empty_colors()));
                assert(so_far.push(empty_colors()) =~= keep_open(c1) + Seq::new(
                    (kept@.len() - keep_open(c1).len()) as nat,
                    |i: int| empty_colors(),
                ));
            }
        }
        let mut board = self.board.snapshot();
        let result = board.lock_piece(piece);
        proof {
            assert(colors_of(kept@) =~= clear_colors(c1));
            lemma_match_clear(c1, g1);
            crate::grid::lemma_clear_filled(g1);
        }
        *self = ColoredBoard { board, cells: kept };
        result
    }

    /// Lets garbage rows come in from below as `Board::add_garbage` does.
    /// Their cells are garbage.
    pub fn add_garbage(&mut self, holes: &[i32]) -> (top_out: bool)
        requires
            forall|k: int| 0 <= k < holes@.len() ==> 0 <= #[trigger] holes@[k] < 10,
        ensures
            final(self)@.board.grid == add_garbage_upto(
                old(self)@.board.grid,
                holes@,
                holes@.len() as int,
            ),
            final(self)@.board.hold == old(self)@.board.hold,
            final(self)@.board.combo == old(self)@.board.combo,
            final(self)@.board.b2b == old(self)@.board.b2b,
            final(self)@.cells == garbage_colors_upto(old(self)@.cells, holes@, holes@.len() as int),
            top_out == tops_out(old(self)@.board.grid, holes@.len() as int),
    {
        proof {
            use_type_invariant(&*self);
        }
        let ghost c0 = self@.cells;
        let ghost g0 = self@.board.grid;
        let mut cells = self.copy_cells();
        let mut k: usize = 0;
        while k < holes.len()
            invariant
                k <= holes@.len(),
                forall|j: int| 0 <= j < holes@.len() ==> 0 <= #[trigger] holes@[j] < 10,
                grid_valid(g0),
                grid_valid(add_garbage_upto(g0, holes@, k as int)),
                cells@.len() == 40,
                colors_of(cells@) == garbage_colors_upto(c0, holes@, k as int),
                grid_match(colors_of(cells@), add_garbage_upto(g0, holes@, k as int)),
            decreases holes@.len() - k,
        {
            let ghost before = colors_of(cells@);
            let ghost under = add_garbage_upto(g0, holes@, k as int);
            let hole = holes[k];
            cells.pop();
            cells.insert(0, garbage_cells(hole as usize));
            proof {
                assert(colors_of(cells@) =~= push_colors(before, hole as int));
                lemma_match_push(before, under, hole as int);
                crate::grid::lemma_push_garbage(under, hole as int);
            }
            k += 1;
        }
        let mut board = self.board.snapshot();
        let top_out = board.add_garbage(holes);
        *self = ColoredBoard { board, cells };
        top_out
    }

    /// Puts `current` into the hold slot and returns what the slot held.
    pub fn hold_swap(&mut self, current: PieceType) -> (held: Option<PieceType>)
        ensures
            held == old(self)@.board.hold,
            final(self)@.board == (BoardView { hold: Some(current), ..old(self)@.board }),
            final(self)@.cells == old(self)@.cells,
    {
        proof {
            use_type_invariant(&*self);
        }
        let mut board = self.board.snapshot();
        let held = board.hold_swap(current);
        let cells = self.copy_cells();
        *self = ColoredBoard { board, cells };
        held
    }
}

/// A coloured board is occupied exactly where the board that it hands to a
/// search is: a cell holds something exactly when the snapshot has it
/// filled.
pub proof fn law_snapshot_occupancy(colored: ColoredBoard, x: int, y: int)
    requires
        colored.wf(),
        0 <= x < 10,
        0 <= y < 40,
    ensures
        (colored@.cells[y][x] != CellType::Empty) == cell_filled(colored@.board.grid, x, y),
{
    assert(row_match(colored@.cells[y], colored@.board.grid[y]));
}

} // verus!
