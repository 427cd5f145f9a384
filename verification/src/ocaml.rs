//! Values handed back by the OCaml runtime.
use vstd::prelude::*;

verus! {

/// Whether a value returned by an OCaml callback encodes an exception: its
/// two lowest bits are `10`.
pub fn is_exception_result(v: isize) -> (r: bool)
    ensures
        r == (v & 3 == 2),
{
    (v & 3) == 2
}

} // verus!
