//! Trusted view of the two-dimensional backing table.
//!
//! The grid's cells live in a `toodee::TooDee<Option<usize>>`.  Verus does
//! not read that crate, so the table is declared here together with names
//! for what it holds, and each call the grid makes goes through a small
//! wrapper whose contract states what the crate's source shows.

use vstd::prelude::*;
use toodee::TooDee;

verus! {

#[verifier::external_type_specification]
#[verifier::external_body]
#[verifier::reject_recursive_types(T)]
pub struct ExTooDee<T>(TooDee<T>);

/// What the table holds: the cell at row `x`, column `y` is
/// `cells_of(t)[(x, y)]` for every in-range coordinate.
pub uninterp spec fn cells_of(t: TooDee<Option<usize>>) -> Map<(int, int), Option<usize>>;

/// The table's dimensions, as (rows, columns).
pub uninterp spec fn dims_of(t: TooDee<Option<usize>>) -> (nat, nat);

/// Relies on `toodee::TooDee::new`: a rows-by-columns array with every cell
/// set to `Option::default()`, which is `None`.
#[verifier::external_body]
pub(crate) fn table_new(rows: usize, cols: usize) -> (t: TooDee<Option<usize>>)
    requires
        1 <= rows,
        1 <= cols,
        rows * cols <= usize::MAX,
    ensures
        dims_of(t) == (rows as nat, cols as nat),
        forall|x: int, y: int|
            0 <= x < rows && 0 <= y < cols ==> #[trigger] cells_of(t)[(x, y)] is None,
{
    TooDee::new(cols, rows)
}

/// Relies on indexing of `toodee::TooDee`: `t[x]` is row `x` of the
/// row-major table, so `t[x][y]` is the cell at row `x`, column `y`.
#[verifier::external_body]
pub(crate) fn table_get(t: &TooDee<Option<usize>>, x: usize, y: usize) -> (r: Option<usize>)
    requires
        x < dims_of(*t).0,
        y < dims_of(*t).1,
    ensures
        r == cells_of(*t)[(x as int, y as int)],
{
    t[x][y]
}

/// Relies on mutable indexing of `toodee::TooDee`: assigning `t[x][y]`
/// replaces that one cell and leaves every other cell and the dimensions
/// unchanged.
#[verifier::external_body]
pub(crate) fn table_set(t: &mut TooDee<Option<usize>>, x: usize, y: usize, v: Option<usize>)
    requires
        x < dims_of(*old(t)).0,
        y < dims_of(*old(t)).1,
    ensures
        dims_of(*final(t)) == dims_of(*old(t)),
        cells_of(*final(t)) == cells_of(*old(t)).insert((x as int, y as int), v),
{
    t[x][y] = v;
}

} // verus!
