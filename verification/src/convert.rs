//! Checked conversions between integer types.

use num::ToPrimitive;
use vstd::prelude::*;

verus! {

/// `ToPrimitive::to_i32` on a `usize`: the same number where it fits an
/// `i32`, and nothing where it does not.
#[verifier::external_body]
pub(crate) fn to_i32(n: usize) -> (r: Option<i32>)
    ensures
        r == (if n <= i32::MAX {
            Some(n as i32)
        } else {
            None
        }),
{
    n.to_i32()
}

/// `ToPrimitive::to_usize` on an `i32`: the same number where it is not
/// negative, and nothing where it is.
#[verifier::external_body]
pub(crate) fn to_usize(n: i32) -> (r: Option<usize>)
    ensures
        r == (if n >= 0 {
            Some(n as usize)
        } else {
            None
        }),
{
    n.to_usize()
}

} // verus!
