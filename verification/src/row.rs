use vstd::prelude::*;
use crate::geometry::CellType;

verus! {

/// The number of columns of a row.
pub const WIDTH: usize = 10;

/// The compressed row with every column occupied.
pub const FULL_ROW: u16 = 0x3ff;

/// Whether column `x` of the compressed row `row` is occupied: bit `x` of
/// the ten-bit pattern.
pub open spec fn row_bit(row: u16, x: int) -> bool {
    0 <= x < 10 && (row & (1u16 << (x as u16))) != 0
}

/// A compressed row is a ten-bit pattern: no bit above the ninth is set.
pub open spec fn row_valid(row: u16) -> bool {
    row <= 0x3ff
}

/// A compressed row is filled when all ten columns are occupied.
pub open spec fn row_filled(row: u16) -> bool {
    forall|x: int| 0 <= x < 10 ==> row_bit(row, x)
}

/// The number of occupied columns among the first `n` of a compressed row.
pub open spec fn row_count_upto(row: u16, n: int) -> nat
    decreases n,
{
    if n <= 0 {
        0
    } else {
        row_count_upto(row, n - 1) + if row_bit(row, n - 1) {
            1nat
        } else {
            0nat
        }
    }
}

/// The number of occupied columns of a compressed row.
pub open spec fn row_count(row: u16) -> nat {
    row_count_upto(row, 10)
}

/// The compressed row that is occupied everywhere but in column `hole`.
pub open spec fn garbage_row(hole: int) -> u16 {
    0x3ffu16 ^ (1u16 << (hole as u16))
}

/// Setting bit `x` occupies column `x` and leaves the other columns alone.
pub proof fn lemma_row_set(row: u16, x: int)
    requires
        0 <= x < 10,
        row_valid(row),
    ensures
        row_valid(row | (1u16 << (x as u16))),
        forall|j: int|
            0 <= j < 10 ==> #[trigger] row_bit(row | (1u16 << (x as u16)), j) == (j == x || row_bit(
                row,
                j,
            )),
{
    let s = x as u16;
    assert(row | (1u16 << s) <= 0x3ff) by (bit_vector)
        requires
            s < 10,
            row <= 0x3ff,
    ;
    assert forall|j: int| 0 <= j < 10 implies #[trigger] row_bit(row | (1u16 << s), j) == (j == x
        || row_bit(row, j)) by {
        let t = j as u16;
        assert((((row | (1u16 << s)) & (1u16 << t)) != 0) == (t == s || (row & (1u16 << t)) != 0))
            by (bit_vector)
            requires
                s < 10,
                t < 10,
        ;
    }
}

/// Clearing bit `x` empties column `x` and leaves the other columns alone.
pub proof fn lemma_row_clear(row: u16, x: int)
    requires
        0 <= x < 10,
        row_valid(row),
    ensures
        row_valid(row & !(1u16 << (x as u16))),
        forall|j: int|
            0 <= j < 10 ==> #[trigger] row_bit(row & !(1u16 << (x as u16)), j) == (j != x
                && row_bit(row, j)),
{
    let s = x as u16;
    assert(row & !(1u16 << s) <= 0x3ff) by (bit_vector)
        requires
            s < 10,
            row <= 0x3ff,
    ;
    assert forall|j: int| 0 <= j < 10 implies #[trigger] row_bit(row & !(1u16 << s), j) == (j != x
        && row_bit(row, j)) by {
        let t = j as u16;
        assert((((row & !(1u16 << s)) & (1u16 << t)) != 0) == (t != s && (row & (1u16 << t)) != 0))
            by (bit_vector)
            requires
                s < 10,
                t < 10,
        ;
    }
}

/// The zero pattern has no occupied column.
pub proof fn lemma_row_empty()
    ensures
        row_valid(0u16),
        forall|j: int| !#[trigger] row_bit(0u16, j),
        row_count(0u16) == 0,
        !row_filled(0u16),
{
    assert forall|j: int| !#[trigger] row_bit(0u16, j) by {
        if 0 <= j < 10 {
            let t = j as u16;
            assert((0u16 & (1u16 << t)) == 0) by (bit_vector);
        }
    }
    reveal_with_fuel(row_count_upto, 11);
    assert(!row_bit(0u16, 0));
}

/// A ten-bit pattern is filled exactly when it is the all-ones pattern.
pub proof fn lemma_row_filled(row: u16)
    requires
        row_valid(row),
    ensures
        row_filled(row) <==> row == 0x3ff,
{
    assert((row == 0x3ff) == ((row & (1u16 << 0u16)) != 0 && (row & (1u16 << 1u16)) != 0 && (row & (
        1u16 << 2u16)) != 0 && (row & (1u16 << 3u16)) != 0 && (row & (1u16 << 4u16)) != 0 && (row
        & (1u16 << 5u16)) != 0 && (row & (1u16 << 6u16)) != 0 && (row & (1u16 << 7u16)) != 0 && (
    row & (1u16 << 8u16)) != 0 && (row & (1u16 << 9u16)) != 0)) by (bit_vector)
        requires
            row <= 0x3ff,
    ;
    if row == 0x3ff {
        assert forall|x: int| 0 <= x < 10 implies row_bit(row, x) by {
            assert(x == 0 || x == 1 || x == 2 || x == 3 || x == 4 || x == 5 || x == 6 || x == 7
                || x == 8 || x == 9);
        }
    }
    if row_filled(row) {
        assert(row_bit(row, 0) && row_bit(row, 1) && row_bit(row, 2) && row_bit(row, 3) && row_bit(
            row,
            4,
        ) && row_bit(row, 5) && row_bit(row, 6) && row_bit(row, 7) && row_bit(row, 8) && row_bit(
            row,
            9,
        ));
    }
}

/// Two ten-bit patterns with the same occupied columns are the same pattern.
pub proof fn lemma_row_ext(a: u16, b: u16)
    requires
        row_valid(a),
        row_valid(b),
        forall|x: int| 0 <= x < 10 ==> row_bit(a, x) == row_bit(b, x),
    ensures
        a == b,
{
    assert(row_bit(a, 0) == row_bit(b, 0) && row_bit(a, 1) == row_bit(b, 1) && row_bit(a, 2)
        == row_bit(b, 2) && row_bit(a, 3) == row_bit(b, 3) && row_bit(a, 4) == row_bit(b, 4)
        && row_bit(a, 5) == row_bit(b, 5) && row_bit(a, 6) == row_bit(b, 6) && row_bit(a, 7)
        == row_bit(b, 7) && row_bit(a, 8) == row_bit(b, 8) && row_bit(a, 9) == row_bit(b, 9));
    assert(a == b) by (bit_vector)
        requires
            a <= 0x3ff,
            b <= 0x3ff,
            ((a & (1u16 << 0u16)) != 0) == ((b & (1u16 << 0u16)) != 0),
            ((a & (1u16 << 1u16)) != 0) == ((b & (1u16 << 1u16)) != 0),
            ((a & (1u16 << 2u16)) != 0) == ((b & (1u16 << 2u16)) != 0),
            ((a & (1u16 << 3u16)) != 0) == ((b & (1u16 << 3u16)) != 0),
            ((a & (1u16 << 4u16)) != 0) == ((b & (1u16 << 4u16)) != 0),
            ((a & (1u16 << 5u16)) != 0) == ((b & (1u16 << 5u16)) != 0),
            ((a & (1u16 << 6u16)) != 0) == ((b & (1u16 << 6u16)) != 0),
            ((a & (1u16 << 7u16)) != 0) == ((b & (1u16 << 7u16)) != 0),
            ((a & (1u16 << 8u16)) != 0) == ((b & (1u16 << 8u16)) != 0),
            ((a & (1u16 << 9u16)) != 0) == ((b & (1u16 << 9u16)) != 0),
    ;
}

/// A garbage row is occupied everywhere but in its hole.
pub proof fn lemma_garbage_row(hole: int)
    requires
        0 <= hole < 10,
    ensures
        row_valid(garbage_row(hole)),
        forall|j: int| 0 <= j < 10 ==> #[trigger] row_bit(garbage_row(hole), j) == (j != hole),
        !row_filled(garbage_row(hole)),
{
    let s = hole as u16;
    assert(0x3ffu16 ^ (1u16 << s) <= 0x3ff) by (bit_vector)
        requires
            s < 10,
    ;
    assert forall|j: int| 0 <= j < 10 implies #[trigger] row_bit(garbage_row(hole), j) == (j
        != hole) by {
        let t = j as u16;
        assert((((0x3ffu16 ^ (1u16 << s)) & (1u16 << t)) != 0) == (t != s)) by (bit_vector)
            requires
                s < 10,
                t < 10,
        ;
    }
    assert(!row_bit(garbage_row(hole), hole));
}

/// Occupying one more column raises the count by one.
pub proof fn lemma_row_count_set(row: u16, x: int)
    requires
        0 <= x < 10,
        row_valid(row),
        !row_bit(row, x),
    ensures
        row_count(row | (1u16 << (x as u16))) == row_count(row) + 1,
{
    lemma_row_set(row, x);
    let after = row | (1u16 << (x as u16));
    lemma_row_count_upto_set(row, after, x, 10);
}

proof fn lemma_row_count_upto_set(row: u16, after: u16, x: int, n: int)
    requires
        0 <= x < 10,
        0 <= n <= 10,
        !row_bit(row, x),
        forall|j: int| 0 <= j < 10 ==> #[trigger] row_bit(after, j) == (j == x || row_bit(row, j)),
    ensures
        row_count_upto(after, n) == row_count_upto(row, n) + if x < n {
            1nat
        } else {
            0nat
        },
    decreases n,
{
    if n > 0 {
        lemma_row_count_upto_set(row, after, x, n - 1);
        assert(row_bit(after, n - 1) == (n - 1 == x || row_bit(row, n - 1)));
    }
}

/// A filled row counts ten occupied columns, and no row counts more.
pub proof fn lemma_row_count_bounds(row: u16)
    ensures
        row_count(row) <= 10,
        row_filled(row) ==> row_count(row) == 10,
{
    lemma_row_count_upto_bounds(row, 10);
}

proof fn lemma_row_count_upto_bounds(row: u16, n: int)
    requires
        0 <= n <= 10,
    ensures
        row_count_upto(row, n) <= n,
        row_filled(row) ==> row_count_upto(row, n) == n,
    decreases n,
{
    if n > 0 {
        lemma_row_count_upto_bounds(row, n - 1);
        if row_filled(row) {
            assert(row_bit(row, n - 1));
        }
    }
}

/// One row of ten cells.
///
/// The model of a row is what each of its columns holds. A column is
/// occupied when it holds anything but `Empty`.
pub trait Row: Copy + Sized {
    /// Whether the value is a row at all. Every value that this trait's
    /// methods hand out is.
    spec fn spec_valid(&self) -> bool;

    /// What column `x` holds.
    spec fn spec_cell_type(&self, x: int) -> CellType;

    /// The row with ten empty columns.
    fn empty() -> (row: Self)
        ensures
            row.spec_valid(),
            forall|x: int| 0 <= x < 10 ==> row.spec_cell_type(x) == CellType::Empty,
    ;

    /// Writes `cell` into column `x`. A row that keeps occupancy only keeps
    /// whether `cell` is `Empty`.
    fn set(&mut self, x: usize, cell: CellType)
        requires
            x < 10,
            old(self).spec_valid(),
        ensures
            final(self).spec_valid(),
            (final(self).spec_cell_type(x as int) == CellType::Empty) == (cell == CellType::Empty),
            forall|j: int|
                0 <= j < 10 && j != x ==> final(self).spec_cell_type(j) == old(self).spec_cell_type(
                    j,
                ),
    ;

    /// Whether column `x` is occupied.
    fn get(&self, x: usize) -> (occupied: bool)
        requires
            x < 10,
            self.spec_valid(),
        ensures
            occupied == (self.spec_cell_type(x as int) != CellType::Empty),
    ;

    /// What column `x` holds.
    fn cell_type(&self, x: usize) -> (cell: CellType)
        requires
            x < 10,
            self.spec_valid(),
        ensures
            cell == self.spec_cell_type(x as int),
    ;

    /// Whether all ten columns are occupied.
    fn filled(&self) -> (full: bool)
        requires
            self.spec_valid(),
        ensures
            full == (forall|x: int|
                0 <= x < 10 ==> #[trigger] self.spec_cell_type(x) != CellType::Empty),
    ;
}

impl Row for u16 {
    open spec fn spec_valid(&self) -> bool {
        row_valid(*self)
    }

    open spec fn spec_cell_type(&self, x: int) -> CellType {
        if row_bit(*self, x) {
            CellType::Garbage
        } else {
            CellType::Empty
        }
    }

    fn empty() -> (row: Self)
        ensures
            row == 0,
    {
        proof {
            lemma_row_empty();
        }
        0
    }

    fn set(&mut self, x: usize, cell: CellType)
        ensures
            forall|j: int|
                0 <= j < 10 ==> #[trigger] row_bit(*final(self), j) == (if j == x {
                    cell != CellType::Empty
                } else {
                    row_bit(*old(self), j)
                }),
            cell != CellType::Empty ==> *final(self) == *old(self) | (1u16 << (x as u16)),
            cell == CellType::Empty ==> *final(self) == *old(self) & !(1u16 << (x as u16)),
    {
        proof {
            lemma_row_set(*self, x as int);
            lemma_row_clear(*self, x as int);
        }
        let mask: u16 = 1u16 << (x as u16);
        if cell == CellType::Empty {
            *self = *self & !mask;
        } else {
            *self = *self | mask;
        }
    }

    fn get(&self, x: usize) -> (occupied: bool)
        ensures
            occupied == row_bit(*self, x as int),
    {
        *self & (1u16 << (x as u16)) != 0
    }

    fn cell_type(&self, x: usize) -> (cell: CellType) {
        if self.get(x) {
            CellType::Garbage
        } else {
            CellType::Empty
        }
    }

    fn filled(&self) -> (full: bool)
        ensures
            full == row_filled(*self),
    {
        proof {
            lemma_row_filled(*self);
            if row_filled(*self) {
                assert forall|x: int| 0 <= x < 10 implies #[trigger] self.spec_cell_type(x)
                    != CellType::Empty by {
                    assert(row_bit(*self, x));
                }
            } else {
                let x = choose|x: int| 0 <= x < 10 && !row_bit(*self, x);
                assert(self.spec_cell_type(x) == CellType::Empty);
            }
        }
        *self == FULL_ROW
    }
}

/// A row that remembers what each of its ten cells holds.
#[derive(Copy, Clone, Debug)]
pub struct ColoredRow {
    row: [CellType; 10],
}

impl View for ColoredRow {
    type V = Seq<CellType>;

    closed spec fn view(&self) -> Seq<CellType> {
        self.row@
    }
}

impl ColoredRow {
    /// The occupancy pattern of this row: bit `x` is set exactly when
    /// column `x` holds something.
    pub fn compress(&self) -> (row: u16)
        ensures
            row_valid(row),
            forall|x: int| 0 <= x < 10 ==> row_bit(row, x) == (self@[x] != CellType::Empty),
    {
        let mut row: u16 = 0;
        let mut x: usize = 0;
        proof {
            lemma_row_empty();
        }
        while x < 10
            invariant
                x <= 10,
                row_valid(row),
                forall|j: int| 0 <= j < x ==> row_bit(row, j) == (self@[j] != CellType::Empty),
                forall|j: int| x <= j < 10 ==> !row_bit(row, j),
            decreases 10 - x,
        {
            row.set(x, self.row[x]);
            x += 1;
        }
        row
    }
}

impl Row for ColoredRow {
    open spec fn spec_valid(&self) -> bool {
        self@.len() == 10
    }

    open spec fn spec_cell_type(&self, x: int) -> CellType {
        self@[x]
    }

    fn empty() -> (row: Self)
        ensures
            row@ == Seq::new(10, |x: int| CellType::Empty),
    {
        let row = ColoredRow { row: [CellType::Empty; 10] };
        assert(row@ =~= Seq::new(10, |x: int| CellType::Empty));
        row
    }

    fn set(&mut self, x: usize, cell: CellType)
        ensures
            final(self)@ == old(self)@.update(x as int, cell),
    {
        self.row[x] = cell;
    }

    fn get(&self, x: usize) -> (occupied: bool) {
        self.row[x] != CellType::Empty
    }

    fn cell_type(&self, x: usize) -> (cell: CellType) {
        self.row[x]
    }

    fn filled(&self) -> (full: bool) {
        let mut x: usize = 0;
        while x < 10
            invariant
                x <= 10,
                self@.len() == 10,
                forall|j: int| 0 <= j < x ==> self.spec_cell_type(j) != CellType::Empty,
            decreases 10 - x,
        {
            if self.row[x] == CellType::Empty {
                assert(self.spec_cell_type(x as int) == CellType::Empty);
                return false;
            }
            x += 1;
        }
        true
    }
}

impl Default for ColoredRow {
    fn default() -> (row: Self)
        ensures
            row@ == Seq::new(10, |x: int| CellType::Empty),
    {
        let row = ColoredRow { row: [CellType::Empty; 10] };
        assert(row@ =~= Seq::new(10, |x: int| CellType::Empty));
        row
    }
}

} // verus!
