use arrayvec::ArrayVec;
use vstd::prelude::*;
use crate::row::{row_filled, row_valid, Row};

verus! {

/// The rows of a board, bottom row first, held in an `arrayvec::ArrayVec`
/// with room for 40 compressed rows.
///
/// Verus sees nothing inside: what the collection holds is `rows_of`, and
/// the functions of this file are the only way to it. Their contracts are
/// believed, not proved.
#[verifier::external_body]
pub struct Rows {
    inner: ArrayVec<[u16; 40]>,
}

/// The compressed rows that the collection holds, bottom row first.
pub uninterp spec fn rows_of(rows: Rows) -> Seq<u16>;

/// The rows of `g` that are not filled, in their order in `g`.
pub open spec fn keep_unfilled(g: Seq<u16>) -> Seq<u16>
    decreases g.len(),
{
    if g.len() == 0 {
        g
    } else if row_filled(g.last()) {
        keep_unfilled(g.drop_last())
    } else {
        keep_unfilled(g.drop_last()).push(g.last())
    }
}

/// Whether a row survives a line clear: it is not filled.
pub fn survives(row: &u16) -> (keep: bool)
    requires
        row_valid(*row),
    ensures
        keep == !row_filled(*row),
{
    !row.filled()
}

/// `ArrayVec::from` on an array of 40 rows: the collection holds the
/// array's rows in the array's order.
#[verifier::external_body]
pub(crate) fn rows_from_array(rows: [u16; 40]) -> (out: Rows)
    ensures
        rows_of(out) == rows@,
{
    Rows { inner: ArrayVec::from(rows) }
}

/// `ArrayVec::len`: the number of rows held.
#[verifier::external_body]
pub(crate) fn rows_len(rows: &Rows) -> (n: usize)
    ensures
        n == rows_of(*rows).len(),
{
    rows.inner.len()
}

/// Indexing an `ArrayVec` through its slice: the row at `y`. The index
/// must be below the length, as indexing past it panics.
#[verifier::external_body]
pub(crate) fn rows_get(rows: &Rows, y: usize) -> (row: u16)
    requires
        y < rows_of(*rows).len(),
    ensures
        row == rows_of(*rows)[y as int],
{
    rows.inner[y]
}

/// Assigning through an `ArrayVec`'s mutable slice: the row at `y` becomes
/// `row` and no other row changes. The index must be below the length.
#[verifier::external_body]
pub(crate) fn rows_set(rows: &mut Rows, y: usize, row: u16)
    requires
        y < rows_of(*old(rows)).len(),
    ensures
        rows_of(*final(rows)) == rows_of(*old(rows)).update(y as int, row),
{
    rows.inner[y] = row;
}

/// `ArrayVec::retain` with `survives` as the test: the rows that are not
/// filled stay, in their order, and the filled ones leave.
#[verifier::external_body]
pub(crate) fn rows_retain_unfilled(rows: &mut Rows)
    requires
        forall|y: int| 0 <= y < rows_of(*old(rows)).len() ==> row_valid(rows_of(*old(rows))[y]),
    ensures
        rows_of(*final(rows)) == keep_unfilled(rows_of(*old(rows))),
{
    rows.inner.retain(|row| survives(row));
}

/// `ArrayVec::push`: `row` is appended. The collection must not be full,
/// as pushing onto a full one panics.
#[verifier::external_body]
pub(crate) fn rows_push(rows: &mut Rows, row: u16)
    requires
        rows_of(*old(rows)).len() < 40,
    ensures
        rows_of(*final(rows)) == rows_of(*old(rows)).push(row),
{
    rows.inner.push(row);
}

/// `ArrayVec::pop`: the last row leaves and is returned, or `None` where
/// there is no row.
#[verifier::external_body]
pub(crate) fn rows_pop(rows: &mut Rows) -> (top: Option<u16>)
    ensures
        rows_of(*old(rows)).len() == 0 ==> top.is_none() && rows_of(*final(rows)) == rows_of(
            *old(rows),
        ),
        rows_of(*old(rows)).len() > 0 ==> top == Some(rows_of(*old(rows)).last()) && rows_of(
            *final(rows),
        ) == rows_of(*old(rows)).drop_last(),
{
    rows.inner.pop()
}

/// `ArrayVec::insert`: `row` is put at `index` and the rows from there on
/// move up by one. The collection must not be full and `index` not above
/// the length: otherwise the call panics.
#[verifier::external_body]
pub(crate) fn rows_insert(rows: &mut Rows, index: usize, row: u16)
    requires
        rows_of(*old(rows)).len() < 40,
        index <= rows_of(*old(rows)).len(),
    ensures
        rows_of(*final(rows)) == rows_of(*old(rows)).insert(index as int, row),
{
    rows.inner.insert(index, row);
}

/// `ArrayVec::clone`: a collection with the same rows.
#[verifier::external_body]
pub(crate) fn rows_clone(rows: &Rows) -> (out: Rows)
    ensures
        rows_of(out) == rows_of(*rows),
{
    Rows { inner: rows.inner.clone() }
}

/// The slice that an `ArrayVec` dereferences to: the rows held, in order.
#[verifier::external_body]
pub(crate) fn rows_as_slice(rows: &Rows) -> (out: &[u16])
    ensures
        out@ == rows_of(*rows),
{
    &rows.inner
}

} // verus!
