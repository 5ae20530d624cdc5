use vstd::prelude::*;

verus! {

/// What a board cell holds: nothing, garbage, a wall, or the colour of the
/// piece kind that was locked there.
#[derive(Copy, Clone, PartialEq, Eq, Debug, Structural)]
pub enum CellType {
    Empty,
    Garbage,
    Solid,
    J,
    L,
    S,
    T,
    Z,
    I,
    O,
}

/// The seven piece kinds.
#[derive(Copy, Clone, PartialEq, Eq, Debug, Structural)]
pub enum PieceType {
    J,
    L,
    S,
    T,
    Z,
    I,
    O,
}

impl PieceType {
    /// The four cell offsets of this kind in rotation `r`, relative to the
    /// piece's anchor, as a tuple of `(dx, dy)` pairs. Rows grow upward.
    pub open spec fn shape(self, r: int) -> ((int, int), (int, int), (int, int), (int, int)) {
        match self {
            PieceType::J => {
                if r == 0 {
                    ((-1int, 1int), (-1int, 0int), (0int, 0int), (1int, 0int))
                } else if r == 1 {
                    ((0int, 1int), (0int, 0int), (0int, -1int), (1int, 1int))
                } else if r == 2 {
                    ((-1int, 0int), (0int, 0int), (1int, 0int), (1int, -1int))
                } else {
                    ((-1int, -1int), (0int, 1int), (0int, 0int), (0int, -1int))
                }
            },
            PieceType::L => {
                if r == 0 {
                    ((-1int, 0int), (0int, 0int), (1int, 1int), (1int, 0int))
                } else if r == 1 {
                    ((0int, 1int), (0int, 0int), (0int, -1int), (1int, -1int))
                } else if r == 2 {
                    ((-1int, 0int), (-1int, -1int), (0int, 0int), (1int, 0int))
                } else {
                    ((-1int, 1int), (0int, 1int), (0int, 0int), (0int, -1int))
                }
            },
            PieceType::S => {
                if r == 0 {
                    ((-1int, 0int), (0int, 1int), (0int, 0int), (1int, 1int))
                } else if r == 1 {
                    ((0int, 1int), (0int, 0int), (1int, 0int), (1int, -1int))
                } else if r == 2 {
                    ((-1int, -1int), (0int, 0int), (0int, -1int), (1int, 0int))
                } else {
                    ((-1int, 1int), (-1int, 0int), (0int, 0int), (0int, -1int))
                }
            },
            PieceType::T => {
                if r == 0 {
                    ((-1int, 0int), (0int, 1int), (0int, 0int), (1int, 0int))
                } else if r == 1 {
                    ((0int, 1int), (0int, 0int), (0int, -1int), (1int, 0int))
                } else if r == 2 {
                    ((-1int, 0int), (0int, 0int), (0int, -1int), (1int, 0int))
                } else {
                    ((-1int, 0int), (0int, 1int), (0int, 0int), (0int, -1int))
                }
            },
            PieceType::Z => {
                if r == 0 {
                    ((-1int, 1int), (0int, 1int), (0int, 0int), (1int, 0int))
                } else if r == 1 {
                    ((0int, 0int), (0int, -1int), (1int, 1int), (1int, 0int))
                } else if r == 2 {
                    ((-1int, 0int), (0int, 0int), (0int, -1int), (1int, -1int))
                } else {
                    ((-1int, 0int), (-1int, -1int), (0int, 1int), (0int, 0int))
                }
            },
            PieceType::I => {
                if r == 0 {
                    ((-1int, 0int), (0int, 0int), (1int, 0int), (2int, 0int))
                } else if r == 1 {
                    ((0int, 1int), (0int, 0int), (0int, -1int), (0int, -2int))
                } else if r == 2 {
                    ((-2int, 0int), (-1int, 0int), (0int, 0int), (1int, 0int))
                } else {
                    ((0int, 2int), (0int, 1int), (0int, 0int), (0int, -1int))
                }
            },
            PieceType::O => {
                if r == 0 {
                    ((0int, 1int), (0int, 0int), (1int, 1int), (1int, 0int))
                } else if r == 1 {
                    ((0int, 0int), (0int, -1int), (1int, 0int), (1int, -1int))
                } else if r == 2 {
                    ((-1int, 0int), (-1int, -1int), (0int, 0int), (0int, -1int))
                } else {
                    ((-1int, 1int), (-1int, 0int), (0int, 1int), (0int, 0int))
                }
            },
        }
    }

    /// The `i`-th cell offset of this kind in rotation `r`.
    pub open spec fn cell_offset(self, r: int, i: int) -> (int, int) {
        let s = self.shape(r);
        if i == 0 {
            s.0
        } else if i == 1 {
            s.1
        } else if i == 2 {
            s.2
        } else {
            s.3
        }
    }

    /// The four cell offsets of this kind in rotation `r`, in table order.
    pub open spec fn spec_cells(self, r: int) -> Seq<(int, int)> {
        Seq::new(4, |i: int| self.cell_offset(r, i))
    }

    /// How many kick candidates a rotation of this kind tries: one for `O`,
    /// five for every other kind.
    pub open spec fn spec_kick_count(self) -> int {
        if self == PieceType::O {
            1
        } else {
            5
        }
    }

    /// The `i`-th entry of the offset table of this kind in rotation `r`.
    /// A rotation from `a` to `b` tries, in order, the displacements
    /// `spec_offset(a, i) - spec_offset(b, i)`.
    pub open spec fn spec_offset(self, r: int, i: int) -> (int, int) {
        match self {
            PieceType::O => {
                if r == 0 {
                    (0int, 0int)
                } else if r == 1 {
                    (0int, -1int)
                } else if r == 2 {
                    (-1int, -1int)
                } else {
                    (-1int, 0int)
                }
            },
            PieceType::I => {
                if r == 0 {
                    if i == 0 {
                        (0int, 0int)
                    } else if i == 1 {
                        (-1int, 0int)
                    } else if i == 2 {
                        (2int, 0int)
                    } else if i == 3 {
                        (-1int, 0int)
                    } else {
                        (2int, 0int)
                    }
                } else if r == 1 {
                    if i == 0 {
                        (-1int, 0int)
                    } else if i == 1 {
                        (0int, 0int)
                    } else if i == 2 {
                        (0int, 0int)
                    } else if i == 3 {
                        (0int, 1int)
                    } else {
                        (0int, -2int)
                    }
                } else if r == 2 {
                    if i == 0 {
                        (-1int, 1int)
                    } else if i == 1 {
                        (1int, 1int)
                    } else if i == 2 {
                        (-2int, 1int)
                    } else if i == 3 {
                        (1int, 0int)
                    } else {
                        (-2int, 0int)
                    }
                } else {
                    if i == 0 {
                        (0int, 1int)
                    } else if i == 1 {
                        (0int, 1int)
                    } else if i == 2 {
                        (0int, 1int)
                    } else if i == 3 {
                        (0int, -1int)
                    } else {
                        (0int, 2int)
                    }
                }
            },
            _ => {
                if r == 0 {
                    (0int, 0int)
                } else if r == 1 {
                    if i == 0 {
                        (0int, 0int)
                    } else if i == 1 {
                        (1int, 0int)
                    } else if i == 2 {
                        (1int, -1int)
                    } else if i == 3 {
                        (0int, 2int)
                    } else {
                        (1int, 2int)
                    }
                } else if r == 2 {
                    (0int, 0int)
                } else {
                    if i == 0 {
                        (0int, 0int)
                    } else if i == 1 {
                        (-1int, 0int)
                    } else if i == 2 {
                        (-1int, -1int)
                    } else if i == 3 {
                        (0int, 2int)
                    } else {
                        (-1int, 2int)
                    }
                }
            },
        }
    }

    /// The offset table of this kind in rotation `r`, in kick order.
    pub open spec fn spec_offset_table(self, r: int) -> Seq<(int, int)> {
        Seq::new(self.spec_kick_count() as nat, |i: int| self.spec_offset(r, i))
    }

    /// The displacement that the `i`-th kick candidate of a rotation from
    /// `from` to `to` applies to the anchor.
    pub open spec fn spec_kick(self, from: int, to: int, i: int) -> (int, int) {
        (
            self.spec_offset(from, i).0 - self.spec_offset(to, i).0,
            self.spec_offset(from, i).1 - self.spec_offset(to, i).1,
        )
    }

    /// The colour that cells of this kind take on a coloured row.
    pub open spec fn spec_cell(self) -> CellType {
        match self {
            PieceType::J => CellType::J,
            PieceType::L => CellType::L,
            PieceType::S => CellType::S,
            PieceType::T => CellType::T,
            PieceType::Z => CellType::Z,
            PieceType::I => CellType::I,
            PieceType::O => CellType::O,
        }
    }

    /// The number of kick candidates of this kind.
    pub fn kick_count(self) -> (n: usize)
        ensures
            n == self.spec_kick_count(),
    {
        match self {
            PieceType::O => 1,
            _ => 5,
        }
    }

    /// One entry of the offset table.
    pub fn offset(self, r: u8, i: usize) -> (o: (i32, i32))
        requires
            r < 4,
            i < self.spec_kick_count(),
        ensures
            o.0 == self.spec_offset(r as int, i as int).0,
            o.1 == self.spec_offset(r as int, i as int).1,
    {
        match self {
            PieceType::O => {
                if r == 0 {
                    (0, 0)
                } else if r == 1 {
                    (0, -1)
                } else if r == 2 {
                    (-1, -1)
                } else {
                    (-1, 0)
                }
            },
            PieceType::I => {
                if r == 0 {
                    if i == 0 {
                        (0, 0)
                    } else if i == 1 {
                        (-1, 0)
                    } else if i == 2 {
                        (2, 0)
                    } else if i == 3 {
                        (-1, 0)
                    } else {
                        (2, 0)
                    }
                } else if r == 1 {
                    if i == 0 {
                        (-1, 0)
                    } else if i == 1 {
                        (0, 0)
                    } else if i == 2 {
                        (0, 0)
                    } else if i == 3 {
                        (0, 1)
                    } else {
                        (0, -2)
                    }
                } else if r == 2 {
                    if i == 0 {
                        (-1, 1)
                    } else if i == 1 {
                        (1, 1)
                    } else if i == 2 {
                        (-2, 1)
                    } else if i == 3 {
                        (1, 0)
                    } else {
                        (-2, 0)
                    }
                } else {
                    if i == 0 {
                        (0, 1)
                    } else if i == 1 {
                        (0, 1)
                    } else if i == 2 {
                        (0, 1)
                    } else if i == 3 {
                        (0, -1)
                    } else {
                        (0, 2)
                    }
                }
            },
            _ => {
                if r == 0 {
                    (0, 0)
                } else if r == 1 {
                    if i == 0 {
                        (0, 0)
                    } else if i == 1 {
                        (1, 0)
                    } else if i == 2 {
                        (1, -1)
                    } else if i == 3 {
                        (0, 2)
                    } else {
                        (1, 2)
                    }
                } else if r == 2 {
                    (0, 0)
                } else {
                    if i == 0 {
                        (0, 0)
                    } else if i == 1 {
                        (-1, 0)
                    } else if i == 2 {
                        (-1, -1)
                    } else if i == 3 {
                        (0, 2)
                    } else {
                        (-1, 2)
                    }
                }
            },
        }
    }

    /// The offset table of this kind in rotation `r`: five entries, or one
    /// for `O`.
    pub fn offset_table(self, r: u8) -> (table: Vec<(i32, i32)>)
        requires
            r < 4,
        ensures
            table@.len() == self.spec_kick_count(),
            forall|i: int|
                0 <= i < table@.len() ==> (#[trigger] table@[i]).0 == self.spec_offset(r as int, i).0
                    && table@[i].1 == self.spec_offset(r as int, i).1,
    {
        let n = self.kick_count();
        let mut table: Vec<(i32, i32)> = Vec::new();
        let mut i: usize = 0;
        while i < n
            invariant
                r < 4,
                n == self.spec_kick_count(),
                i <= n,
                table@.len() == i,
                forall|j: int|
                    0 <= j < i ==> (#[trigger] table@[j]).0 == self.spec_offset(r as int, j).0
                        && table@[j].1 == self.spec_offset(r as int, j).1,
            decreases n - i,
        {
            table.push(self.offset(r, i));
            i += 1;
        }
        table
    }

    /// The four cell offsets of this kind in rotation `r`.
    pub fn cells(self, r: u8) -> (c: [(i32, i32); 4])
        requires
            r < 4,
        ensures
            forall|i: int|
                0 <= i < 4 ==> (#[trigger] c@[i]).0 == self.cell_offset(r as int, i).0 && c@[i].1
                    == self.cell_offset(r as int, i).1,
    {
        match self {
            PieceType::J => {
                if r == 0 {
                    [(-1, 1), (-1, 0), (0, 0), (1, 0)]
                } else if r == 1 {
                    [(0, 1), (0, 0), (0, -1), (1, 1)]
                } else if r == 2 {
                    [(-1, 0), (0, 0), (1, 0), (1, -1)]
                } else {
                    [(-1, -1), (0, 1), (0, 0), (0, -1)]
                }
            },
            PieceType::L => {
                if r == 0 {
                    [(-1, 0), (0, 0), (1, 1), (1, 0)]
                } else if r == 1 {
                    [(0, 1), (0, 0), (0, -1), (1, -1)]
                } else if r == 2 {
                    [(-1, 0), (-1, -1), (0, 0), (1, 0)]
                } else {
                    [(-1, 1), (0, 1), (0, 0), (0, -1)]
                }
            },
            PieceType::S => {
                if r == 0 {
                    [(-1, 0), (0, 1), (0, 0), (1, 1)]
                } else if r == 1 {
                    [(0, 1), (0, 0), (1, 0), (1, -1)]
                } else if r == 2 {
                    [(-1, -1), (0, 0), (0, -1), (1, 0)]
                } else {
                    [(-1, 1), (-1, 0), (0, 0), (0, -1)]
                }
            },
            PieceType::T => {
                if r == 0 {
                    [(-1, 0), (0, 1), (0, 0), (1, 0)]
                } else if r == 1 {
                    [(0, 1), (0, 0), (0, -1), (1, 0)]
                } else if r == 2 {
                    [(-1, 0), (0, 0), (0, -1), (1, 0)]
                } else {
                    [(-1, 0), (0, 1), (0, 0), (0, -1)]
                }
            },
            PieceType::Z => {
                if r == 0 {
                    [(-1, 1), (0, 1), (0, 0), (1, 0)]
                } else if r == 1 {
                    [(0, 0), (0, -1), (1, 1), (1, 0)]
                } else if r == 2 {
                    [(-1, 0), (0, 0), (0, -1), (1, -1)]
                } else {
                    [(-1, 0), (-1, -1), (0, 1), (0, 0)]
                }
            },
            PieceType::I => {
                if r == 0 {
                    [(-1, 0), (0, 0), (1, 0), (2, 0)]
                } else if r == 1 {
                    [(0, 1), (0, 0), (0, -1), (0, -2)]
                } else if r == 2 {
                    [(-2, 0), (-1, 0), (0, 0), (1, 0)]
                } else {
                    [(0, 2), (0, 1), (0, 0), (0, -1)]
                }
            },
            PieceType::O => {
                if r == 0 {
                    [(0, 1), (0, 0), (1, 1), (1, 0)]
                } else if r == 1 {
                    [(0, 0), (0, -1), (1, 0), (1, -1)]
                } else if r == 2 {
                    [(-1, 0), (-1, -1), (0, 0), (0, -1)]
                } else {
                    [(-1, 1), (-1, 0), (0, 1), (0, 0)]
                }
            },
        }
    }

    /// The colour of this kind's cells.
    pub fn cell(self) -> (c: CellType)
        ensures
            c == self.spec_cell(),
    {
        match self {
            PieceType::J => CellType::J,
            PieceType::L => CellType::L,
            PieceType::S => CellType::S,
            PieceType::T => CellType::T,
            PieceType::Z => CellType::Z,
            PieceType::I => CellType::I,
            PieceType::O => CellType::O,
        }
    }
}

/// Every kind in every rotation covers exactly four distinct cells.
pub proof fn law_cells_distinct(kind: PieceType, r: int)
    requires
        0 <= r < 4,
    ensures
        kind.spec_cells(r).len() == 4,
        forall|i: int, j: int|
            0 <= i < j < 4 ==> kind.spec_cells(r)[i] != kind.spec_cells(r)[j],
{
}

/// Every shape contains its own anchor, and no cell lies more than two
/// steps from it.
pub proof fn lemma_cells_near_anchor(kind: PieceType, r: int)
    requires
        0 <= r < 4,
    ensures
        exists|i: int| 0 <= i < 4 && kind.cell_offset(r, i) == (0int, 0int),
        forall|i: int|
            0 <= i < 4 ==> -2 <= (#[trigger] kind.cell_offset(r, i)).0 <= 2 && -2
                <= kind.cell_offset(r, i).1 <= 2,
{
    assert(kind.cell_offset(r, 0) == (0int, 0int) || kind.cell_offset(r, 1) == (0int, 0int)
        || kind.cell_offset(r, 2) == (0int, 0int) || kind.cell_offset(r, 3) == (0int, 0int));
}

/// No kick displaces the anchor by more than four steps.
pub proof fn lemma_kick_bounds(kind: PieceType, from: int, to: int, i: int)
    requires
        0 <= from < 4,
        0 <= to < 4,
        0 <= i < kind.spec_kick_count(),
    ensures
        -4 <= kind.spec_kick(from, to, i).0 <= 4,
        -4 <= kind.spec_kick(from, to, i).1 <= 4,
{
}

} // verus!
