//! A trace-based debugger core for Lisp-family programs: a source-form
//! reader, a width-fitted pretty printer whose tokens keep the coordinate
//! of the source node they render, and a store of execution traces that
//! can be navigated backwards and forwards.

pub mod lisp_pprinter;
pub mod lisp_reader;
pub mod state;
pub mod util_types;

use vstd::prelude::*;

verus! {

/// Child-index path from a form's root to a subexpression.
/// The empty path names the whole form.
pub type Coord = Vec<u16>;

/// A binding recorded at `scope_coord` is visible at `current_coord`
/// when `scope_coord` is a prefix of `current_coord`.
pub open spec fn coord_in_scope(scope_coord: Seq<u16>, current_coord: Seq<u16>) -> bool {
    scope_coord.len() <= current_coord.len()
        && scope_coord == current_coord.subrange(0, scope_coord.len() as int)
}

/// True when every binding made at `scope_coord` is visible at `current_coord`.
pub fn is_coord_in_scope(scope_coord: &Coord, current_coord: &Coord) -> (r: bool)
    ensures
        r == coord_in_scope(scope_coord@, current_coord@),
{
    if scope_coord.len() > current_coord.len() {
        return false;
    }
    let n = scope_coord.len();
    let mut i: usize = 0;
    while i < n
        invariant
            i <= n,
            n == scope_coord@.len(),
            n <= current_coord@.len(),
            forall|j: int| 0 <= j < i ==> scope_coord@[j] == current_coord@[j],
        decreases n - i,
    {
        if scope_coord[i] != current_coord[i] {
            return false;
        }
        i = i + 1;
    }
    proof {
        assert(scope_coord@ =~= current_coord@.subrange(0, scope_coord@.len() as int));
    }
    true
}

} // verus!
