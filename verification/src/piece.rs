use vstd::prelude::*;
use crate::board::Board;
use crate::geometry::{lemma_kick_bounds, PieceType};
use crate::grid::cell_occupied;
use crate::row::row_bit;

verus! {

/// How a rotation that landed counts as a T-spin.
#[derive(Debug, Copy, Clone, Eq, PartialEq, Structural)]
pub enum TspinType {
    /// Not a T-spin.
    NoSpin,
    Mini,
    Full,
}

/// A piece on the board: its kind, the position of its anchor, its rotation
/// (0 to 3) and what the step that produced it says about a T-spin.
#[derive(Debug, Copy, Clone, Eq, PartialEq, Structural)]
pub struct Piece {
    pub kind: PieceType,
    pub x: i32,
    pub y: i32,
    pub r: u8,
    pub tspin: TspinType,
}

/// The `i`-th cell of a piece of kind `kind` with its anchor at `(x, y)` in
/// rotation `r`.
pub open spec fn cell_at(kind: PieceType, x: int, y: int, r: int, i: int) -> (int, int) {
    (x + kind.cell_offset(r, i).0, y + kind.cell_offset(r, i).1)
}

/// The four cells of a piece of kind `kind` with its anchor at `(x, y)` in
/// rotation `r`, in table order.
pub open spec fn shape_cells(kind: PieceType, x: int, y: int, r: int) -> Seq<(int, int)> {
    Seq::new(4, |i: int| cell_at(kind, x, y, r, i))
}

/// Whether `(x, y)` is a cell of the grid `g` that holds nothing.
pub open spec fn cell_free(g: Seq<u16>, x: int, y: int) -> bool {
    0 <= x < 10 && 0 <= y < 40 && !row_bit(g[y], x)
}

/// Whether a piece of kind `kind` with its anchor at `(x, y)` in rotation
/// `r` fits the grid `g`: all four cells are on the grid and free.
pub open spec fn fits_at(g: Seq<u16>, kind: PieceType, x: int, y: int, r: int) -> bool {
    &&& 0 <= r < 4
    &&& cell_free(g, cell_at(kind, x, y, r, 0).0, cell_at(kind, x, y, r, 0).1)
    &&& cell_free(g, cell_at(kind, x, y, r, 1).0, cell_at(kind, x, y, r, 1).1)
    &&& cell_free(g, cell_at(kind, x, y, r, 2).0, cell_at(kind, x, y, r, 2).1)
    &&& cell_free(g, cell_at(kind, x, y, r, 3).0, cell_at(kind, x, y, r, 3).1)
}

/// Whether all four cells of the shape lie on the grid.
pub open spec fn on_grid(kind: PieceType, x: int, y: int, r: int) -> bool {
    &&& 0 <= r < 4
    &&& forall|i: int|
        0 <= i < 4 ==> 0 <= (#[trigger] cell_at(kind, x, y, r, i)).0 < 10 && 0 <= cell_at(
            kind,
            x,
            y,
            r,
            i,
        ).1 < 40
}

impl Piece {
    /// The four cells that the piece covers, in table order.
    pub open spec fn spec_cells(&self) -> Seq<(int, int)> {
        shape_cells(self.kind, self.x as int, self.y as int, self.r as int)
    }

    /// Whether the piece fits the grid `g`.
    pub open spec fn fits(&self, g: Seq<u16>) -> bool {
        fits_at(g, self.kind, self.x as int, self.y as int, self.r as int)
    }

    /// Whether all four cells of the piece lie on the grid.
    pub open spec fn spec_on_grid(&self) -> bool {
        on_grid(self.kind, self.x as int, self.y as int, self.r as int)
    }

    /// The four cells that the piece covers. The rotation must be one of
    /// the four, and the anchor far enough from the ends of `i32` for the
    /// cells to be representable.
    pub fn cells(&self) -> (c: [(i32, i32); 4])
        requires
            self.r < 4,
            i32::MIN + 2 <= self.x <= i32::MAX - 2,
            i32::MIN + 2 <= self.y <= i32::MAX - 2,
        ensures
            forall|i: int|
                0 <= i < 4 ==> (#[trigger] c@[i]).0 == self.spec_cells()[i].0 && c@[i].1
                    == self.spec_cells()[i].1,
    {
        let o = self.kind.cells(self.r);
        proof {
            crate::geometry::lemma_cells_near_anchor(self.kind, self.r as int);
        }
        let c = [
            (o[0].0 + self.x, o[0].1 + self.y),
            (o[1].0 + self.x, o[1].1 + self.y),
            (o[2].0 + self.x, o[2].1 + self.y),
            (o[3].0 + self.x, o[3].1 + self.y),
        ];
        c
    }

    /// The piece at `(x, y)` in rotation `r` with no T-spin mark where that
    /// fits the grid, and the piece as it is where it does not.
    pub open spec fn moved_to(self, g: Seq<u16>, x: int, y: int, r: int) -> Piece {
        if fits_at(g, self.kind, x, y, r) {
            Piece { kind: self.kind, x: x as i32, y: y as i32, r: r as u8, tspin: TspinType::NoSpin }
        } else {
            self
        }
    }

    /// The piece after a shift by `dx` columns was tried.
    pub open spec fn spec_shift(self, g: Seq<u16>, dx: int) -> Piece {
        self.moved_to(g, self.x + dx, self.y as int, self.r as int)
    }

    /// The piece after a drop by one row was tried.
    pub open spec fn spec_soft_drop(self, g: Seq<u16>) -> Piece {
        self.moved_to(g, self.x as int, self.y - 1, self.r as int)
    }

    /// The piece after it dropped as far as it fits.
    pub open spec fn spec_sonic_drop(self, g: Seq<u16>) -> Piece
        decreases self.y,
    {
        if self.y > 0 && fits_at(g, self.kind, self.x as int, self.y - 1, self.r as int) {
            Piece { y: (self.y - 1) as i32, tspin: TspinType::NoSpin, ..self }.spec_sonic_drop(g)
        } else {
            self
        }
    }

    /// Where the `i`-th kick candidate of a rotation to `to` puts the
    /// anchor.
    pub open spec fn kick_target(self, to: int, i: int) -> (int, int) {
        (
            self.x + self.kind.spec_kick(self.r as int, to, i).0,
            self.y + self.kind.spec_kick(self.r as int, to, i).1,
        )
    }

    /// Whether the `i`-th kick candidate of a rotation to `to` fits.
    pub open spec fn kick_fits(self, g: Seq<u16>, to: int, i: int) -> bool {
        fits_at(g, self.kind, self.kick_target(to, i).0, self.kick_target(to, i).1, to)
    }

    /// The first kick candidate from `i` on that fits, or the number of
    /// candidates where none does.
    pub open spec fn first_kick_from(self, g: Seq<u16>, to: int, i: int) -> int
        decreases self.kind.spec_kick_count() - i,
    {
        if i >= self.kind.spec_kick_count() {
            self.kind.spec_kick_count()
        } else if self.kick_fits(g, to, i) {
            i
        } else {
            self.first_kick_from(g, to, i + 1)
        }
    }

    /// The first kick candidate of a rotation to `to` that fits, or the
    /// number of candidates where none does.
    pub open spec fn first_kick(self, g: Seq<u16>, to: int) -> int {
        self.first_kick_from(g, to, 0)
    }

    /// The piece after a rotation to `to` was tried: at the first kick
    /// candidate that fits, with the T-spin mark of that landing, or as it
    /// is where no candidate fits.
    pub open spec fn spec_rotate(self, g: Seq<u16>, to: int) -> Piece {
        let i = self.first_kick(g, to);
        if i < self.kind.spec_kick_count() {
            let t = self.kick_target(to, i);
            Piece {
                kind: self.kind,
                x: t.0 as i32,
                y: t.1 as i32,
                r: to as u8,
                tspin: classify_tspin(g, self.kind, t.0, t.1, to, i),
            }
        } else {
            self
        }
    }

    /// The rotation to the left of the piece's own.
    pub open spec fn left_of(self) -> int {
        if self.r > 0 {
            self.r - 1
        } else {
            3
        }
    }

    /// The rotation to the right of the piece's own.
    pub open spec fn right_of(self) -> int {
        if self.r < 3 {
            self.r + 1
        } else {
            0
        }
    }

    /// The piece of kind `kind` as it enters the board: at `(4, 20)` in
    /// rotation 0, then dropped by one row where that fits.
    pub open spec fn spec_spawn(g: Seq<u16>, kind: PieceType) -> Piece {
        Piece { kind, x: 4, y: 20, r: 0, tspin: TspinType::NoSpin }.spec_soft_drop(g)
    }

    /// The piece of kind `kind` as it enters the board: at `(4, 20)` in
    /// rotation 0, then dropped by one row where that fits. Whether the
    /// piece fits at all is for the caller to test.
    pub fn spawn(board: &Board, kind: PieceType) -> (piece: Piece)
        ensures
            piece == Piece::spec_spawn(board.grid(), kind),
    {
        let mut piece = Piece { kind, x: 4, y: 20, r: 0, tspin: TspinType::NoSpin };
        piece.soft_drop(board);
        piece
    }

    /// Moves the piece to `(x, y)` in rotation `r` where it fits there, and
    /// takes its T-spin mark away.
    fn try_move(&mut self, board: &Board, x: i32, y: i32, r: u8) -> (ok: bool)
        requires
            r < 4,
        ensures
            ok == fits_at(board.grid(), old(self).kind, x as int, y as int, r as int),
            *final(self) == old(self).moved_to(board.grid(), x as int, y as int, r as int),
    {
        let moved = Piece { kind: self.kind, x, y, r, tspin: TspinType::NoSpin };
        if board.piece_fits(moved) {
            *self = moved;
            true
        } else {
            false
        }
    }

    /// Shifts the piece one column to the left where it fits there.
    pub fn move_left(&mut self, board: &Board) -> (ok: bool)
        requires
            old(self).r < 4,
        ensures
            ok == fits_at(
                board.grid(),
                old(self).kind,
                old(self).x - 1,
                old(self).y as int,
                old(self).r as int,
            ),
            *final(self) == old(self).spec_shift(board.grid(), -1),
    {
        if self.x <= 0 {
            proof {
                if fits_at(board.grid(), self.kind, self.x - 1, self.y as int, self.r as int) {
                    lemma_fits_anchor(board.grid(), self.kind, self.x - 1, self.y as int, self.r as int);
                }
            }
            return false;
        }
        self.try_move(board, self.x - 1, self.y, self.r)
    }

    /// Shifts the piece one column to the right where it fits there.
    pub fn move_right(&mut self, board: &Board) -> (ok: bool)
        requires
            old(self).r < 4,
        ensures
            ok == fits_at(
                board.grid(),
                old(self).kind,
                old(self).x + 1,
                old(self).y as int,
                old(self).r as int,
            ),
            *final(self) == old(self).spec_shift(board.grid(), 1),
    {
        if self.x >= 9 {
            proof {
                if fits_at(board.grid(), self.kind, self.x + 1, self.y as int, self.r as int) {
                    lemma_fits_anchor(board.grid(), self.kind, self.x + 1, self.y as int, self.r as int);
                }
            }
            return false;
        }
        self.try_move(board, self.x + 1, self.y, self.r)
    }

    /// Drops the piece by one row where it fits there.
    pub fn soft_drop(&mut self, board: &Board) -> (ok: bool)
        requires
            old(self).r < 4,
        ensures
            ok == fits_at(
                board.grid(),
                old(self).kind,
                old(self).x as int,
                old(self).y - 1,
                old(self).r as int,
            ),
            *final(self) == old(self).spec_soft_drop(board.grid()),
    {
        if self.y <= 0 {
            proof {
                if fits_at(board.grid(), self.kind, self.x as int, self.y - 1, self.r as int) {
                    lemma_fits_anchor(board.grid(), self.kind, self.x as int, self.y - 1, self.r as int);
                }
            }
            return false;
        }
        self.try_move(board, self.x, self.y - 1, self.r)
    }

    /// Drops the piece row by row until it rests. Returns whether it moved.
    pub fn sonic_drop(&mut self, board: &Board) -> (moved: bool)
        requires
            old(self).r < 4,
        ensures
            *final(self) == old(self).spec_sonic_drop(board.grid()),
            moved == (*final(self) != *old(self)),
            moved == fits_at(
                board.grid(),
                old(self).kind,
                old(self).x as int,
                old(self).y - 1,
                old(self).r as int,
            ),
    {
        let ghost start = *self;
        let mut moved = false;
        loop
            invariant
                self.r < 4,
                start.spec_sonic_drop(board.grid()) == self.spec_sonic_drop(board.grid()),
                self.kind == start.kind && self.x == start.x && self.r == start.r,
                moved ==> self.y < start.y && self.tspin == TspinType::NoSpin,
                !moved ==> *self == start,
                moved ==> fits_at(
                    board.grid(),
                    start.kind,
                    start.x as int,
                    start.y - 1,
                    start.r as int,
                ),
            ensures
                *self == start.spec_sonic_drop(board.grid()),
                moved == (*self != start),
                moved == fits_at(
                    board.grid(),
                    start.kind,
                    start.x as int,
                    start.y - 1,
                    start.r as int,
                ),
            decreases self.y + 1i64 + i32::MAX,
        {
            proof {
                if fits_at(board.grid(), self.kind, self.x as int, self.y - 1, self.r as int) {
                    lemma_fits_anchor(board.grid(), self.kind, self.x as int, self.y - 1, self.r as int);
                }
            }
            if !self.soft_drop(board) {
                break;
            }
            moved = true;
        }
        moved
    }

    /// Turns the piece to the left where one of the kick candidates fits.
    pub fn turn_left(&mut self, board: &Board) -> (ok: bool)
        requires
            old(self).r < 4,
        ensures
            ok == (old(self).first_kick(board.grid(), old(self).left_of()) < old(
                self,
            ).kind.spec_kick_count()),
            *final(self) == old(self).spec_rotate(board.grid(), old(self).left_of()),
    {
        let to: u8 = if self.r > 0 {
            self.r - 1
        } else {
            3
        };
        self.rotate(board, to)
    }

    /// Turns the piece to the right where one of the kick candidates fits.
    pub fn turn_right(&mut self, board: &Board) -> (ok: bool)
        requires
            old(self).r < 4,
        ensures
            ok == (old(self).first_kick(board.grid(), old(self).right_of()) < old(
                self,
            ).kind.spec_kick_count()),
            *final(self) == old(self).spec_rotate(board.grid(), old(self).right_of()),
    {
        let to: u8 = if self.r < 3 {
            self.r + 1
        } else {
            0
        };
        self.rotate(board, to)
    }

    /// Tries the kick candidates of a rotation to `to` in their order and
    /// takes the first that fits. A `T` that lands gets its T-spin mark.
    fn rotate(&mut self, board: &Board, to: u8) -> (ok: bool)
        requires
            old(self).r < 4,
            to < 4,
        ensures
            ok == (old(self).first_kick(board.grid(), to as int) < old(self).kind.spec_kick_count()),
            *final(self) == old(self).spec_rotate(board.grid(), to as int),
    {
        let start = *self;
        let count = start.kind.kick_count();
        let mut i: usize = 0;
        while i < count
            invariant
                start.r < 4,
                to < 4,
                count == start.kind.spec_kick_count(),
                i <= count,
                *self == start,
                start == *old(self),
                start.first_kick(board.grid(), to as int) == start.first_kick_from(
                    board.grid(),
                    to as int,
                    i as int,
                ),
            decreases count - i,
        {
            let from_offset = start.kind.offset(start.r, i);
            let to_offset = start.kind.offset(to, i);
            let x: i64 = start.x as i64 + from_offset.0 as i64 - to_offset.0 as i64;
            let y: i64 = start.y as i64 + from_offset.1 as i64 - to_offset.1 as i64;
            proof {
                lemma_kick_bounds(start.kind, start.r as int, to as int, i as int);
                assert(start.kick_target(to as int, i as int) == (x as int, y as int));
                if start.kick_fits(board.grid(), to as int, i as int) {
                    lemma_fits_anchor(board.grid(), start.kind, x as int, y as int, to as int);
                }
            }
            if 0 <= x && x < 10 && 0 <= y && y < 40 {
                if self.try_move(board, x as i32, y as i32, to) {
                    assert(start.kick_fits(board.grid(), to as int, i as int));
                    assert(start.first_kick_from(board.grid(), to as int, i as int) == i);
                    if start.kind == PieceType::T {
                        self.tspin = classify(board, x as i32, y as i32, to, i);
                    }
                    return true;
                }
            }
            assert(!start.kick_fits(board.grid(), to as int, i as int));
            i += 1;
        }
        false
    }
}

/// One where the cell is taken, zero where it is not.
pub open spec fn taken(g: Seq<u16>, x: int, y: int) -> int {
    if cell_occupied(g, x, y) {
        1
    } else {
        0
    }
}

/// How many of the four diagonal neighbours of `(x, y)` are taken.
pub open spec fn corner_count(g: Seq<u16>, x: int, y: int) -> int {
    taken(g, x - 1, y - 1) + taken(g, x - 1, y + 1) + taken(g, x + 1, y + 1) + taken(g, x + 1, y - 1)
}

/// How many of the two diagonal neighbours of `(x, y)` on the side that a
/// `T` in rotation `r` points to are taken.
pub open spec fn front_count(g: Seq<u16>, x: int, y: int, r: int) -> int {
    if r == 0 {
        taken(g, x - 1, y + 1) + taken(g, x + 1, y + 1)
    } else if r == 1 {
        taken(g, x + 1, y + 1) + taken(g, x + 1, y - 1)
    } else if r == 2 {
        taken(g, x - 1, y - 1) + taken(g, x + 1, y - 1)
    } else {
        taken(g, x - 1, y - 1) + taken(g, x - 1, y + 1)
    }
}

/// The T-spin mark of a piece of kind `kind` that a rotation put at
/// `(x, y)` in rotation `r` by its kick candidate `kick`: none for a piece
/// that is no `T` or has fewer than three diagonal neighbours taken; full
/// where both front neighbours are taken or the last candidate was used;
/// mini otherwise.
pub open spec fn classify_tspin(
    g: Seq<u16>,
    kind: PieceType,
    x: int,
    y: int,
    r: int,
    kick: int,
) -> TspinType {
    if kind != PieceType::T || corner_count(g, x, y) < 3 {
        TspinType::NoSpin
    } else if front_count(g, x, y, r) >= 2 || kick == 4 {
        TspinType::Full
    } else {
        TspinType::Mini
    }
}

/// One where `(x, y)` is taken on the board, zero where it is not.
fn count_taken(board: &Board, x: i32, y: i32) -> (n: u8)
    ensures
        n == taken(board.grid(), x as int, y as int),
{
    if board.occupied(x, y) {
        1
    } else {
        0
    }
}

/// The T-spin mark of a `T` that a rotation put at `(x, y)` in rotation `r`
/// by its kick candidate `kick`.
fn classify(board: &Board, x: i32, y: i32, r: u8, kick: usize) -> (mark: TspinType)
    requires
        0 <= x < 10,
        0 <= y < 40,
        r < 4,
    ensures
        mark == classify_tspin(board.grid(), PieceType::T, x as int, y as int, r as int, kick as int),
{
    let low_left = count_taken(board, x - 1, y - 1);
    let up_left = count_taken(board, x - 1, y + 1);
    let up_right = count_taken(board, x + 1, y + 1);
    let low_right = count_taken(board, x + 1, y - 1);
    if low_left + up_left + up_right + low_right < 3 {
        return TspinType::NoSpin;
    }
    let front: u8 = if r == 0 {
        up_left + up_right
    } else if r == 1 {
        up_right + low_right
    } else if r == 2 {
        low_left + low_right
    } else {
        low_left + up_left
    };
    if front >= 2 || kick == 4 {
        TspinType::Full
    } else {
        TspinType::Mini
    }
}

/// A piece that fits has its anchor on the grid.
pub proof fn lemma_fits_anchor(g: Seq<u16>, kind: PieceType, x: int, y: int, r: int)
    requires
        fits_at(g, kind, x, y, r),
    ensures
        0 <= x < 10,
        0 <= y < 40,
        on_grid(kind, x, y, r),
{
    crate::geometry::lemma_cells_near_anchor(kind, r);
    let i = choose|i: int| 0 <= i < 4 && kind.cell_offset(r, i) == (0int, 0int);
    assert(cell_at(kind, x, y, r, i) == (x, y));
}

/// What `first_kick_from` returns: an index from `i` on, before which no
/// candidate from `i` on fits, and at which one fits unless it is the number
/// of candidates.
pub proof fn lemma_first_kick(piece: Piece, g: Seq<u16>, to: int, i: int)
    requires
        0 <= i <= piece.kind.spec_kick_count(),
    ensures
        i <= piece.first_kick_from(g, to, i) <= piece.kind.spec_kick_count(),
        piece.first_kick_from(g, to, i) < piece.kind.spec_kick_count() ==> piece.kick_fits(
            g,
            to,
            piece.first_kick_from(g, to, i),
        ),
        forall|j: int| i <= j < piece.first_kick_from(g, to, i) ==> !piece.kick_fits(g, to, j),
    decreases piece.kind.spec_kick_count() - i,
{
    if i < piece.kind.spec_kick_count() && !piece.kick_fits(g, to, i) {
        lemma_first_kick(piece, g, to, i + 1);
    }
}

/// A turn changes the piece's position or rotation exactly when one of its
/// kick candidates fits; it then takes the first candidate that fits, and
/// otherwise leaves the piece as it is.
pub proof fn law_rotation_fit(piece: Piece, g: Seq<u16>, to: int)
    requires
        piece.r < 4,
        0 <= to < 4,
        to != piece.r,
    ensures
        ({
            let turned = piece.spec_rotate(g, to);
            let k = piece.first_kick(g, to);
            let some_fits = exists|i: int|
                0 <= i < piece.kind.spec_kick_count() && piece.kick_fits(g, to, i);
            &&& some_fits <==> (turned.x != piece.x || turned.y != piece.y || turned.r != piece.r)
            &&& some_fits ==> 0 <= k < piece.kind.spec_kick_count() && piece.kick_fits(g, to, k)
                && (forall|j: int| 0 <= j < k ==> !piece.kick_fits(g, to, j)) && turned.x
                == piece.kick_target(to, k).0 && turned.y == piece.kick_target(to, k).1 && turned.r
                == to
            &&& !some_fits ==> turned == piece
        }),
{
    lemma_first_kick(piece, g, to, 0);
    let k = piece.first_kick(g, to);
    if k < piece.kind.spec_kick_count() {
        let t = piece.kick_target(to, k);
        lemma_fits_anchor(g, piece.kind, t.0, t.1, to);
    }
}

/// The mark of a `T` that a turn landed: full exactly when at least three
/// of the four diagonal neighbours of its new anchor are taken and either
/// both front neighbours are taken or the fifth kick candidate was used;
/// mini exactly when at least three are taken and it is not full; none
/// exactly when fewer than three are taken.
pub proof fn law_tspin_mark(piece: Piece, g: Seq<u16>, to: int)
    requires
        piece.kind == PieceType::T,
        piece.r < 4,
        0 <= to < 4,
        piece.first_kick(g, to) < piece.kind.spec_kick_count(),
    ensures
        ({
            let turned = piece.spec_rotate(g, to);
            let k = piece.first_kick(g, to);
            let corners = corner_count(g, turned.x as int, turned.y as int);
            let front = front_count(g, turned.x as int, turned.y as int, to);
            &&& turned.tspin == TspinType::Full <==> corners >= 3 && (front >= 2 || k == 4)
            &&& turned.tspin == TspinType::Mini <==> corners >= 3 && !(front >= 2 || k == 4)
            &&& turned.tspin == TspinType::NoSpin <==> corners < 3
        }),
{
    lemma_first_kick(piece, g, to, 0);
    let k = piece.first_kick(g, to);
    let t = piece.kick_target(to, k);
    lemma_fits_anchor(g, piece.kind, t.0, t.1, to);
}

/// Where a piece comes to rest: in its column and rotation, no higher than
/// it was, at a place below which it does not fit. A piece that moved at
/// all has lost its T-spin mark, and fits wherever it fitted one row
/// further down than it started.
pub proof fn lemma_sonic_drop(piece: Piece, g: Seq<u16>)
    ensures
        ({
            let d = piece.spec_sonic_drop(g);
            &&& d.kind == piece.kind && d.x == piece.x && d.r == piece.r && d.y <= piece.y
            &&& !fits_at(g, d.kind, d.x as int, d.y - 1, d.r as int)
            &&& d != piece ==> d.tspin == TspinType::NoSpin && d.y < piece.y && fits_at(
                g,
                d.kind,
                d.x as int,
                d.y as int,
                d.r as int,
            )
            &&& d == piece <==> !fits_at(g, piece.kind, piece.x as int, piece.y - 1, piece.r as int)
        }),
    decreases piece.y,
{
    if fits_at(g, piece.kind, piece.x as int, piece.y - 1, piece.r as int) {
        lemma_fits_anchor(g, piece.kind, piece.x as int, piece.y - 1, piece.r as int);
    }
    if piece.y > 0 && fits_at(g, piece.kind, piece.x as int, piece.y - 1, piece.r as int) {
        let next = Piece { y: (piece.y - 1) as i32, tspin: TspinType::NoSpin, ..piece };
        lemma_sonic_drop(next, g);
    }
}

} // verus!
