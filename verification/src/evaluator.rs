use vstd::prelude::*;
use crate::arith::{sat, sat_add, sat_mul};
use crate::board::Board;
use crate::bot::Node;
use crate::geometry::PieceType;
use crate::grid::{cell_filled, cell_occupied, column_height, is_column_height, lemma_column_height};
use crate::piece::TspinType;
use crate::row::garbage_row;

verus! {

/// Scores a node of the search tree.
///
/// The first number says how good the node's board is, the second how good
/// the placement was that led to it. The search ranks nodes by their sum
/// and never descends into a block-out, whatever is returned for it; the
/// least pair, `(i32::MIN, i32::MIN)`, puts a node last.
pub trait Evaluator: Send {
    fn evaluate(&self, node: &Node, queue: &[PieceType]) -> (scores: (i32, i32));
}

/// The weights of the standard evaluator.
#[derive(Debug, Clone)]
pub struct StandardEvaluator {
    pub holes: i32,
    pub holes_sq: i32,
    pub hole_depths: i32,
    pub hole_depths_sq: i32,
    pub move_height: i32,
    pub move_height_sq: i32,
    pub move_dist: i32,
    pub max_height: i32,
    pub max_height_sq: i32,
    pub bumpiness: i32,
    pub bumpiness_sq: i32,
    pub row_transitions: i32,
    pub row_transitions_sq: i32,
    pub well_depth: i32,
    pub max_well_depth: i32,
    pub line_clear: [i32; 5],
    pub mini_clear: [i32; 3],
    pub tspin_clear: [i32; 4],
    pub perfect_clear: i32,
    pub combo_garbage: i32,
    pub wasted_t: i32,
    pub tslot: i32,
}

/// The garbage lines that a combo of `combo` placements sends.
pub open spec fn combo_table(combo: int) -> int {
    if combo < 3 {
        0
    } else if combo < 5 {
        1
    } else if combo < 7 {
        2
    } else if combo < 9 {
        3
    } else if combo < 12 {
        4
    } else {
        5
    }
}

/// Whether the free cell `(x, y)` is a T-slot: free to its left, to its
/// right, below and above, with both lower diagonal neighbours taken and
/// one of the upper two.
pub open spec fn is_tslot(g: Seq<u16>, x: int, y: int) -> bool {
    &&& !cell_occupied(g, x - 1, y)
    &&& !cell_occupied(g, x + 1, y)
    &&& !cell_occupied(g, x, y - 1)
    &&& !cell_occupied(g, x, y + 1)
    &&& cell_occupied(g, x - 1, y - 1)
    &&& cell_occupied(g, x + 1, y - 1)
    &&& (cell_occupied(g, x - 1, y + 1) || cell_occupied(g, x + 1, y + 1))
}

/// What the free cells of column `x` below row `y` add up to, in a column
/// of height `h`: their number, the sum of their depths below the top of
/// the column, the sum of the squares of those depths, and the number of
/// T-slots among them.
pub open spec fn column_holes(g: Seq<u16>, x: int, h: int, y: int) -> (int, int, int, int)
    decreases y,
{
    if y <= 0 {
        (0, 0, 0, 0)
    } else {
        let below = column_holes(g, x, h, y - 1);
        if cell_filled(g, x, y - 1) {
            below
        } else {
            let depth = h - y;
            (
                below.0 + 1,
                below.1 + depth,
                below.2 + depth * depth,
                below.3 + if is_tslot(g, x, y - 1) {
                    1int
                } else {
                    0int
                },
            )
        }
    }
}

/// What the holes of the columns left of `x` add up to: their number, the
/// sum of their depths, the sum of the squares of their depths, and the
/// number of T-slots among them. A hole is a free cell below the top of
/// its column.
pub open spec fn board_holes(g: Seq<u16>, x: int) -> (int, int, int, int)
    decreases x,
{
    if x <= 0 {
        (0, 0, 0, 0)
    } else {
        let left = board_holes(g, x - 1);
        let h = column_height(g, x - 1);
        let here = column_holes(g, x - 1, h, h);
        (left.0 + here.0, left.1 + here.1, left.2 + here.2, left.3 + here.3)
    }
}

/// The height of the highest of the columns left of `x`.
pub open spec fn max_height(g: Seq<u16>, x: int) -> int
    decreases x,
{
    if x <= 0 {
        0
    } else {
        let left = max_height(g, x - 1);
        if column_height(g, x - 1) > left {
            column_height(g, x - 1)
        } else {
            left
        }
    }
}

/// The leftmost of the lowest columns among those left of `x`.
pub open spec fn lowest_column(g: Seq<u16>, x: int) -> int
    decreases x,
{
    if x <= 1 {
        0
    } else {
        let left = lowest_column(g, x - 1);
        if column_height(g, x - 1) < column_height(g, left) {
            x - 1
        } else {
            left
        }
    }
}

/// The steps between the first `i` pairs of neighbouring columns: the sum
/// of their sizes and the sum of the squares of their sizes.
pub open spec fn bumps(g: Seq<u16>, i: int) -> (int, int)
    decreases i,
{
    if i <= 0 {
        (0, 0)
    } else {
        let left = bumps(g, i - 1);
        let step = column_height(g, i - 1) - column_height(g, i);
        let size = if step < 0 {
            -step
        } else {
            step
        };
        (left.0 + size, left.1 + size * size)
    }
}

/// How many of the queue's pieces from `from` on are a `T`.
pub open spec fn count_t(queue: Seq<PieceType>, from: int) -> int
    decreases queue.len() - from,
{
    if from < 0 || from >= queue.len() {
        0
    } else {
        count_t(queue, from + 1) + if queue[from] == PieceType::T {
            1int
        } else {
            0int
        }
    }
}

/// How often row `y` changes between taken and free from one cell to the
/// next, among the cells left of `x`. The wall left of the row counts as
/// taken, and so does the wall right of it.
pub open spec fn row_changes(g: Seq<u16>, y: int, x: int) -> int
    decreases x,
{
    if x <= 0 {
        0
    } else {
        row_changes(g, y, x - 1) + if cell_occupied(g, x - 2, y) != cell_occupied(g, x - 1, y) {
            1int
        } else {
            0int
        }
    }
}

/// The changes between taken and free in the rows below `y`, walls
/// included.
pub open spec fn transitions(g: Seq<u16>, y: int) -> int
    decreases y,
{
    if y <= 0 {
        0
    } else {
        transitions(g, y - 1) + row_changes(g, y - 1, 11)
    }
}

/// How many rows from `y` upward are, one after the other, filled
/// everywhere but in column `x`.
pub open spec fn well_run(g: Seq<u16>, x: int, y: int) -> int
    decreases 40 - y,
{
    if 0 <= y < 40 && g[y] == garbage_row(x) {
        1 + well_run(g, x, y + 1)
    } else {
        0
    }
}

/// The depth of the board's well: the rows above the lowest column that
/// are filled everywhere but there.
pub open spec fn well_depth(g: Seq<u16>) -> int {
    well_run(g, lowest_column(g, 10), column_height(g, lowest_column(g, 10)))
}

/// Whether no cell of the grid holds anything.
pub open spec fn all_clear(g: Seq<u16>) -> bool {
    forall|x: int| 0 <= x < 10 ==> column_height(g, x) == 0
}

/// The larger of the two.
pub open spec fn larger(a: int, b: int) -> int {
    if a > b {
        a
    } else {
        b
    }
}

/// The smaller of the two.
pub open spec fn smaller(a: int, b: int) -> int {
    if a < b {
        a
    } else {
        b
    }
}

/// `sum` and the product of `feature` and `weight`, both held in `i32`.
pub open spec fn weigh(sum: int, feature: int, weight: int) -> int {
    sat(sum + sat(feature * weight))
}

impl StandardEvaluator {
    /// How good the board of a node is: the weighted features of its grid
    /// and of the height at which its piece was locked, added one after
    /// the other, each product and each sum held in `i32`.
    pub open spec fn spec_value(&self, node: Node, queue: Seq<PieceType>) -> int {
        let g = node.board.grid();
        let holes = board_holes(g, 10);
        let top = max_height(g, 10);
        let bump = bumps(g, 9);
        let t_pieces = count_t(queue, node.depth as int) + if node.board@.hold == Some(
            PieceType::T,
        ) {
            1int
        } else {
            0int
        };
        let changes = transitions(g, 20);
        let height = node.mv.y as int;
        let v1 = weigh(0, holes.0, self.holes as int);
        let v2 = weigh(v1, holes.0 * holes.0, self.holes_sq as int);
        let v3 = weigh(v2, holes.1, self.hole_depths as int);
        let v4 = weigh(v3, holes.2, self.hole_depths_sq as int);
        let v5 = weigh(v4, top, self.max_height as int);
        let v6 = weigh(v5, top * top, self.max_height_sq as int);
        let v7 = weigh(v6, bump.0, self.bumpiness as int);
        let v8 = weigh(v7, bump.1, self.bumpiness_sq as int);
        let v9 = weigh(v8, larger(smaller(t_pieces, holes.3), 1), self.tslot as int);
        let v10 = weigh(v9, changes, self.row_transitions as int);
        let v11 = weigh(v10, changes * changes, self.row_transitions_sq as int);
        let v12 = weigh(
            v11,
            smaller(well_depth(g), self.max_well_depth as int),
            self.well_depth as int,
        );
        let v13 = weigh(v12, height, self.move_height as int);
        weigh(v13, sat(height * height), self.move_height_sq as int)
    }

    /// What a clear of `lines` rows by a piece with the mark `tspin` is
    /// worth. A count beyond the end of a table takes the table's last
    /// entry.
    pub open spec fn spec_clear(&self, tspin: TspinType, lines: int) -> int {
        let at = larger(lines, 0);
        match tspin {
            TspinType::NoSpin => self.line_clear@[smaller(at, 4)] as int,
            TspinType::Mini => self.mini_clear@[smaller(at, 2)] as int,
            TspinType::Full => self.tspin_clear@[smaller(at, 3)] as int,
        }
    }

    /// How good the placement of a node was: what its clear, its combo and
    /// an all-clear are worth, less what a wasted `T` and the way to the
    /// placement cost, added one after the other, each product and each
    /// sum held in `i32`.
    pub open spec fn spec_reward(&self, node: Node) -> int {
        let wasted = node.mv.kind == PieceType::T && (node.mv.tspin == TspinType::NoSpin
            || node.lock.lines_cleared == 0);
        let r1 = if wasted {
            sat(0 + self.wasted_t)
        } else {
            0
        };
        let r2 = sat(r1 + self.spec_clear(node.mv.tspin, node.lock.lines_cleared as int));
        let r3 = weigh(r2, combo_table(node.lock.combo as int), self.combo_garbage as int);
        let r4 = weigh(r3, node.move_dist as int, self.move_dist as int);
        if all_clear(node.board.grid()) {
            sat(r4 + self.perfect_clear)
        } else {
            r4
        }
    }

    /// The scores of a node: the least pair for a block-out, else the value
    /// of its board and the reward of its placement.
    pub open spec fn spec_evaluate(&self, node: Node, queue: Seq<PieceType>) -> (int, int) {
        if node.lock.block_out {
            (i32::MIN as int, i32::MIN as int)
        } else {
            (self.spec_value(node, queue), self.spec_reward(node))
        }
    }
}

/// What the holes of one column add up to is bounded by the column's
/// height.
pub proof fn lemma_column_holes(g: Seq<u16>, x: int, h: int, y: int)
    requires
        0 <= y <= h <= 40,
    ensures
        0 <= column_holes(g, x, h, y).0 <= y,
        0 <= column_holes(g, x, h, y).1 <= 40 * y,
        0 <= column_holes(g, x, h, y).2 <= 1600 * y,
        0 <= column_holes(g, x, h, y).3 <= y,
    decreases y,
{
    if y > 0 {
        lemma_column_holes(g, x, h, y - 1);
        let depth = h - y;
        assert(0 <= depth * depth <= 1600) by (nonlinear_arith)
            requires
                0 <= depth <= 40,
        ;
    }
}

/// The height of a column lies between 0 and 40.
pub proof fn lemma_column_height_range(g: Seq<u16>, c: int)
    ensures
        0 <= column_height(g, c) <= 40,
{
    lemma_height_below_range(g, c, 40);
}

proof fn lemma_height_below_range(g: Seq<u16>, c: int, y: int)
    requires
        0 <= y,
    ensures
        0 <= crate::grid::column_height_below(g, c, y) <= y,
    decreases y,
{
    if y > 0 {
        lemma_height_below_range(g, c, y - 1);
    }
}

/// What the holes of the board add up to is bounded.
pub proof fn lemma_board_holes(g: Seq<u16>, x: int)
    requires
        0 <= x <= 10,
    ensures
        0 <= board_holes(g, x).0 <= 40 * x,
        0 <= board_holes(g, x).1 <= 1600 * x,
        0 <= board_holes(g, x).2 <= 64000 * x,
        0 <= board_holes(g, x).3 <= 40 * x,
    decreases x,
{
    if x > 0 {
        lemma_board_holes(g, x - 1);
        lemma_column_height_range(g, x - 1);
        let h = column_height(g, x - 1);
        lemma_column_holes(g, x - 1, h, h);
    }
}

/// The four sums over the holes of the board.
fn scan_holes(board: &Board) -> (sums: (i32, i32, i32, i32))
    ensures
        sums.0 == board_holes(board.grid(), 10).0,
        sums.1 == board_holes(board.grid(), 10).1,
        sums.2 == board_holes(board.grid(), 10).2,
        sums.3 == board_holes(board.grid(), 10).3,
{
    let ghost g = board.grid();
    proof {
        use_type_invariant(board);
    }
    let heights = board.column_heights();
    let mut holes: i32 = 0;
    let mut depths: i32 = 0;
    let mut depths_sq: i32 = 0;
    let mut tslots: i32 = 0;
    let mut x: i32 = 0;
    while x < 10
        invariant
            0 <= x <= 10,
            g == board.grid(),
            g.len() == 40,
            heights@.len() == 10,
            forall|c: int| 0 <= c < 10 ==> is_column_height(g, c, #[trigger] heights@[c] as int),
            holes == board_holes(g, x as int).0,
            depths == board_holes(g, x as int).1,
            depths_sq == board_holes(g, x as int).2,
            tslots == board_holes(g, x as int).3,
        decreases 10 - x,
    {
        let h = heights[x as usize];
        proof {
            lemma_column_height(g, x as int, h as int);
            lemma_board_holes(g, x as int);
            lemma_board_holes(g, x as int + 1);
        }
        let ghost left = board_holes(g, x as int);
        let mut y: i32 = 0;
        while y < h
            invariant
                0 <= x < 10,
                0 <= y <= h <= 40,
                g == board.grid(),
                g.len() == 40,
                h == column_height(g, x as int),
                left == board_holes(g, x as int),
                0 <= left.0 <= 40 * x,
                0 <= left.1 <= 1600 * x,
                0 <= left.2 <= 64000 * x,
                0 <= left.3 <= 40 * x,
                holes == left.0 + column_holes(g, x as int, h as int, y as int).0,
                depths == left.1 + column_holes(g, x as int, h as int, y as int).1,
                depths_sq == left.2 + column_holes(g, x as int, h as int, y as int).2,
                tslots == left.3 + column_holes(g, x as int, h as int, y as int).3,
            decreases h - y,
        {
            proof {
                lemma_column_holes(g, x as int, h as int, y as int);
                lemma_column_holes(g, x as int, h as int, y as int + 1);
            }
            if !board.occupied(x, y) {
                let depth = h - y - 1;
                assert(0 <= depth * depth <= 1600) by (nonlinear_arith)
                    requires
                        0 <= depth <= 40,
                ;
                holes += 1;
                depths += depth;
                depths_sq += depth * depth;
                if !board.occupied(x - 1, y) && !board.occupied(x + 1, y) && !board.occupied(
                    x,
                    y - 1,
                ) && !board.occupied(x, y + 1) && board.occupied(x - 1, y - 1) && board.occupied(
                    x + 1,
                    y - 1,
                ) && (board.occupied(x - 1, y + 1) || board.occupied(x + 1, y + 1)) {
                    tslots += 1;
                }
            }
            y += 1;
        }
        x += 1;
    }
    (holes, depths, depths_sq, tslots)
}

/// The height of the highest column.
fn highest(board: &Board) -> (top: i32)
    ensures
        top == max_height(board.grid(), 10),
        0 <= top <= 40,
{
    let ghost g = board.grid();
    let heights = board.column_heights();
    let mut top: i32 = 0;
    let mut x: usize = 0;
    while x < 10
        invariant
            x <= 10,
            heights@.len() == 10,
            forall|c: int| 0 <= c < 10 ==> is_column_height(g, c, #[trigger] heights@[c] as int),
            top == max_height(g, x as int),
            0 <= top <= 40,
        decreases 10 - x,
    {
        proof {
            lemma_column_height(g, x as int, heights@[x as int] as int);
        }
        if heights[x] > top {
            top = heights[x];
        }
        x += 1;
    }
    top
}

/// The sizes of the steps between neighbouring columns, and their squares,
/// added up.
fn bumpiness(board: &Board) -> (sums: (i32, i32))
    ensures
        sums.0 == bumps(board.grid(), 9).0,
        sums.1 == bumps(board.grid(), 9).1,
        0 <= sums.0 <= 360,
        0 <= sums.1 <= 14400,
{
    let ghost g = board.grid();
    let heights = board.column_heights();
    let mut sum: i32 = 0;
    let mut sum_sq: i32 = 0;
    let mut i: usize = 0;
    while i < 9
        invariant
            i <= 9,
            heights@.len() == 10,
            forall|c: int| 0 <= c < 10 ==> is_column_height(g, c, #[trigger] heights@[c] as int),
            sum == bumps(g, i as int).0,
            sum_sq == bumps(g, i as int).1,
            0 <= sum <= 40 * i,
            0 <= sum_sq <= 1600 * i,
        decreases 9 - i,
    {
        proof {
            lemma_column_height(g, i as int, heights@[i as int] as int);
            lemma_column_height(g, i as int + 1, heights@[i as int + 1] as int);
        }
        let step = heights[i] - heights[i + 1];
        let size = if step < 0 {
            -step
        } else {
            step
        };
        assert(0 <= size * size <= 1600) by (nonlinear_arith)
            requires
                0 <= size <= 40,
        ;
        sum += size;
        sum_sq += size * size;
        i += 1;
    }
    (sum, sum_sq)
}

/// How many `T` pieces are to come: those of the queue from `from` on and
/// the held one, but no more than `cap`.
fn count_t_capped(queue: &[PieceType], from: u32, held: Option<PieceType>, cap: i32) -> (n: i32)
    requires
        0 <= cap < i32::MAX,
    ensures
        n == smaller(
            count_t(queue@, from as int) + if held == Some(PieceType::T) {
                1int
            } else {
                0int
            },
            cap as int,
        ),
{
    let mut n: i32 = 0;
    match held {
        Some(kind) => {
            if kind == PieceType::T {
                n = 1;
            }
        },
        None => {},
    }
    let ghost first = n;
    let mut i: usize = from as usize;
    proof {
        lemma_count_t_sign(queue@, from as int);
    }
    while i < queue.len()
        invariant
            0 <= cap < i32::MAX,
            0 <= n <= cap + 1,
            first == if held == Some(PieceType::T) {
                1int
            } else {
                0int
            },
            n <= cap ==> count_t(queue@, from as int) + first == n + count_t(queue@, i as int),
            n > cap ==> count_t(queue@, from as int) + first >= n,
            i >= from,
        decreases queue@.len() - i,
    {
        proof {
            lemma_count_t_sign(queue@, i as int + 1);
        }
        if n <= cap && queue[i] == PieceType::T {
            n += 1;
        }
        i += 1;
    }
    proof {
        lemma_count_t_sign(queue@, from as int);
        if from as int >= queue@.len() {
            assert(count_t(queue@, from as int) == 0);
        }
    }
    if n > cap {
        cap
    } else {
        n
    }
}

/// No count of pieces is negative.
pub proof fn lemma_count_t_sign(queue: Seq<PieceType>, from: int)
    ensures
        count_t(queue, from) >= 0,
    decreases queue.len() - from,
{
    if 0 <= from < queue.len() {
        lemma_count_t_sign(queue, from + 1);
    }
}

/// The changes between taken and free in the 20 rows of the playfield.
fn row_transitions(board: &Board) -> (n: i32)
    ensures
        n == transitions(board.grid(), 20),
        0 <= n <= 220,
{
    let ghost g = board.grid();
    let mut n: i32 = 0;
    let mut y: i32 = 0;
    while y < 20
        invariant
            0 <= y <= 20,
            g == board.grid(),
            n == transitions(g, y as int),
            0 <= n <= 11 * y,
        decreases 20 - y,
    {
        let ghost below = n;
        let mut x: i32 = 0;
        while x < 11
            invariant
                0 <= x <= 11,
                0 <= y < 20,
                g == board.grid(),
                below == transitions(g, y as int),
                n == below + row_changes(g, y as int, x as int),
                0 <= below <= 11 * y,
                0 <= n - below <= x,
            decreases 11 - x,
        {
            if board.occupied(x - 1, y) != board.occupied(x, y) {
                n += 1;
            }
            x += 1;
        }
        y += 1;
    }
    n
}

/// The leftmost of the lowest columns.
fn lowest(board: &Board) -> (column: usize)
    ensures
        column == lowest_column(board.grid(), 10),
        column < 10,
{
    let ghost g = board.grid();
    let heights = board.column_heights();
    let mut column: usize = 0;
    let mut x: usize = 1;
    while x < 10
        invariant
            1 <= x <= 10,
            column < x,
            heights@.len() == 10,
            forall|c: int| 0 <= c < 10 ==> is_column_height(g, c, #[trigger] heights@[c] as int),
            column == lowest_column(g, x as int),
        decreases 10 - x,
    {
        proof {
            lemma_column_height(g, x as int, heights@[x as int] as int);
            lemma_column_height(g, column as int, heights@[column as int] as int);
        }
        if heights[x] < heights[column] {
            column = x;
        }
        x += 1;
    }
    column
}

/// The depth of the board's well.
fn measure_well(board: &Board) -> (depth: i32)
    ensures
        depth == well_depth(board.grid()),
        0 <= depth <= 40,
{
    let ghost g = board.grid();
    proof {
        use_type_invariant(board);
    }
    let column = lowest(board);
    let heights = board.column_heights();
    let rows = board.rows();
    let bottom = heights[column];
    proof {
        lemma_column_height(g, column as int, bottom as int);
    }
    let pattern: u16 = crate::row::FULL_ROW ^ (1u16 << (column as u16));
    let mut depth: i32 = 0;
    let mut y: usize = bottom as usize;
    while y < 40 && rows[y] == pattern
        invariant
            bottom <= y <= 40,
            0 <= bottom,
            rows@ == g,
            g.len() == 40,
            column < 10,
            pattern == garbage_row(column as int),
            depth == y - bottom,
            well_run(g, column as int, bottom as int) == depth + well_run(g, column as int, y as int),
        decreases 40 - y,
    {
        depth += 1;
        y += 1;
    }
    depth
}

/// Whether no cell of the board holds anything.
fn is_all_clear(board: &Board) -> (clear: bool)
    ensures
        clear == all_clear(board.grid()),
{
    let ghost g = board.grid();
    let heights = board.column_heights();
    let mut x: usize = 0;
    while x < 10
        invariant
            x <= 10,
            heights@.len() == 10,
            forall|c: int| 0 <= c < 10 ==> is_column_height(g, c, #[trigger] heights@[c] as int),
            forall|c: int| 0 <= c < x ==> column_height(g, c) == 0,
            g == board.grid(),
        decreases 10 - x,
    {
        proof {
            lemma_column_height(g, x as int, heights@[x as int] as int);
        }
        if heights[x] != 0 {
            assert(column_height(g, x as int) != 0);
            return false;
        }
        x += 1;
    }
    true
}

/// `sum` and the product of `feature` and `weight`, both held in `i32`.
fn add_weighted(sum: i32, feature: i32, weight: i32) -> (r: i32)
    ensures
        r == weigh(sum as int, feature as int, weight as int),
{
    sat_add(sum, sat_mul(feature, weight))
}

/// The garbage lines that a combo of `combo` placements sends.
fn combo_lines(combo: u32) -> (lines: i32)
    ensures
        lines == combo_table(combo as int),
{
    if combo < 3 {
        0
    } else if combo < 5 {
        1
    } else if combo < 7 {
        2
    } else if combo < 9 {
        3
    } else if combo < 12 {
        4
    } else {
        5
    }
}

impl StandardEvaluator {
    /// What a clear of `lines` rows by a piece with the mark `tspin` is
    /// worth.
    fn clear_reward(&self, tspin: TspinType, lines: i32) -> (r: i32)
        ensures
            r == self.spec_clear(tspin, lines as int),
    {
        let at: usize = if lines < 0 {
            0
        } else {
            lines as usize
        };
        match tspin {
            TspinType::NoSpin => self.line_clear[if at > 4 {
                4
            } else {
                at
            }],
            TspinType::Mini => self.mini_clear[if at > 2 {
                2
            } else {
                at
            }],
            TspinType::Full => self.tspin_clear[if at > 3 {
                3
            } else {
                at
            }],
        }
    }

    /// How good the board of a node is.
    fn value_of(&self, node: &Node, queue: &[PieceType]) -> (value: i32)
        ensures
            value == self.spec_value(*node, queue@),
    {
        let ghost g = node.board.grid();
        let holes = scan_holes(&node.board);
        let top = highest(&node.board);
        let bump = bumpiness(&node.board);
        proof {
            lemma_board_holes(g, 10);
            assert(0 <= holes.0 * holes.0 <= 160000) by (nonlinear_arith)
                requires
                    0 <= holes.0 <= 400,
            ;
            assert(0 <= top * top <= 1600) by (nonlinear_arith)
                requires
                    0 <= top <= 40,
            ;
        }
        let t_pieces = count_t_capped(queue, node.depth, node.board.hold(), holes.3);
        let slots = if t_pieces < 1 {
            1
        } else {
            t_pieces
        };
        let changes = row_transitions(&node.board);
        assert(0 <= changes * changes <= 48400) by (nonlinear_arith)
            requires
                0 <= changes <= 220,
        ;
        let well = measure_well(&node.board);
        let well = if well > self.max_well_depth {
            self.max_well_depth
        } else {
            well
        };
        let height = node.mv.y;
        let mut value: i32 = 0;
        value = add_weighted(value, holes.0, self.holes);
        value = add_weighted(value, holes.0 * holes.0, self.holes_sq);
        value = add_weighted(value, holes.1, self.hole_depths);
        value = add_weighted(value, holes.2, self.hole_depths_sq);
        value = add_weighted(value, top, self.max_height);
        value = add_weighted(value, top * top, self.max_height_sq);
        value = add_weighted(value, bump.0, self.bumpiness);
        value = add_weighted(value, bump.1, self.bumpiness_sq);
        value = add_weighted(value, slots, self.tslot);
        value = add_weighted(value, changes, self.row_transitions);
        value = add_weighted(value, changes * changes, self.row_transitions_sq);
        value = add_weighted(value, well, self.well_depth);
        value = add_weighted(value, height, self.move_height);
        value = add_weighted(value, sat_mul(height, height), self.move_height_sq);
        value
    }

    /// How good the placement of a node was.
    fn reward_of(&self, node: &Node) -> (reward: i32)
        ensures
            reward == self.spec_reward(*node),
    {
        let mut reward: i32 = 0;
        if node.mv.kind == PieceType::T && (node.mv.tspin == TspinType::NoSpin
            || node.lock.lines_cleared == 0) {
            reward = sat_add(reward, self.wasted_t);
        }
        reward = sat_add(reward, self.clear_reward(node.mv.tspin, node.lock.lines_cleared));
        reward = add_weighted(reward, combo_lines(node.lock.combo), self.combo_garbage);
        reward = add_weighted(reward, node.move_dist, self.move_dist);
        if is_all_clear(&node.board) {
            reward = sat_add(reward, self.perfect_clear);
        }
        reward
    }
}

impl Evaluator for StandardEvaluator {
    fn evaluate(&self, node: &Node, queue: &[PieceType]) -> (scores: (i32, i32))
        ensures
            scores.0 == self.spec_evaluate(*node, queue@).0,
            scores.1 == self.spec_evaluate(*node, queue@).1,
    {
        if node.lock.block_out {
            return (i32::MIN, i32::MIN);
        }
        (self.value_of(node, queue), self.reward_of(node))
    }
}

impl Default for StandardEvaluator {
    fn default() -> (weights: Self)
        ensures
            weights.holes == -203,
            weights.holes_sq == -8,
            weights.hole_depths == -18,
            weights.hole_depths_sq == -1,
            weights.move_height == -18,
            weights.move_height_sq == -4,
            weights.move_dist == -5,
            weights.max_height == -8,
            weights.max_height_sq == 0,
            weights.bumpiness == -15,
            weights.bumpiness_sq == -9,
            weights.row_transitions == -20,
            weights.row_transitions_sq == 0,
            weights.well_depth == 55,
            weights.max_well_depth == 10,
            weights.line_clear@ == seq![7i32, -363i32, -293i32, -280i32, 554i32],
            weights.mini_clear@ == seq![1i32, -194i32, 101i32],
            weights.tspin_clear@ == seq![-6i32, 108i32, 629i32, 1244i32],
            weights.perfect_clear == 5000,
            weights.combo_garbage == 305,
            weights.wasted_t == -268,
            weights.tslot == 301,
    {
        let weights = StandardEvaluator {
            holes: -203,
            holes_sq: -8,
            hole_depths: -18,
            hole_depths_sq: -1,
            move_height: -18,
            move_height_sq: -4,
            move_dist: -5,
            max_height: -8,
            max_height_sq: 0,
            bumpiness: -15,
            bumpiness_sq: -9,
            row_transitions: -20,
            row_transitions_sq: 0,
            well_depth: 55,
            max_well_depth: 10,
            line_clear: [7, -363, -293, -280, 554],
            mini_clear: [1, -194, 101],
            tspin_clear: [-6, 108, 629, 1244],
            perfect_clear: 5000,
            combo_garbage: 305,
            wasted_t: -268,
            tslot: 301,
        };
        assert(weights.line_clear@ =~= seq![7i32, -363i32, -293i32, -280i32, 554i32]);
        assert(weights.mini_clear@ =~= seq![1i32, -194i32, 101i32]);
        assert(weights.tspin_clear@ =~= seq![-6i32, 108i32, 629i32, 1244i32]);
        weights
    }
}

} // verus!
