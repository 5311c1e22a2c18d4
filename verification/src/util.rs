//! Small shared helpers.

use vstd::prelude::*;

verus! {

/// Branch-prediction hint shim: the identity on booleans.
pub fn likely(b: bool) -> (r: bool)
    ensures
        r == b,
{
    b
}

/// Branch-prediction hint shim: the identity on booleans.
pub fn unlikely(b: bool) -> (r: bool)
    ensures
        r == b,
{
    b
}

} // verus!
