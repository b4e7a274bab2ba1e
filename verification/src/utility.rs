//! Small helpers on vectors.

use vstd::prelude::*;

verus! {

/// The value that [`max_int`] starts from, and returns for an empty vector.
pub const MAX_INT_FLOOR: i32 = -2147483647;

/// The value that [`argwhere`] returns when nothing matches.
pub const NOT_FOUND: usize = usize::MAX;

/// The largest of `x`, with `0` for an empty vector.
pub fn max(x: Vec<u64>) -> (m: u64)
    ensures
        forall|i: int| 0 <= i < x@.len() ==> x@[i] <= m,
        m == 0 || exists|i: int| 0 <= i < x@.len() && x@[i] == m,
{
    let mut maximum: u64 = 0;
    let mut i: usize = 0;
    while i < x.len()
        invariant
            i <= x@.len(),
            forall|k: int| 0 <= k < i ==> x@[k] <= maximum,
            maximum == 0 || exists|k: int| 0 <= k < i && x@[k] == maximum,
        decreases x@.len() - i,
    {
        if x[i] > maximum {
            maximum = x[i];
        }
        i += 1;
    }
    maximum
}

/// The largest of `x` and [`MAX_INT_FLOOR`].
///
/// The floor is one above `i32::MIN`, so a vector that holds nothing but
/// `i32::MIN` yields the floor, not its own element.
pub fn max_int(x: Vec<i32>) -> (m: i32)
    ensures
        m >= MAX_INT_FLOOR,
        forall|i: int| 0 <= i < x@.len() ==> x@[i] <= m,
        m == MAX_INT_FLOOR || exists|i: int| 0 <= i < x@.len() && x@[i] == m,
{
    let mut maximum: i32 = MAX_INT_FLOOR;
    let mut i: usize = 0;
    while i < x.len()
        invariant
            i <= x@.len(),
            maximum >= MAX_INT_FLOOR,
            forall|k: int| 0 <= k < i ==> x@[k] <= maximum,
            maximum == MAX_INT_FLOOR || exists|k: int| 0 <= k < i && x@[k] == maximum,
        decreases x@.len() - i,
    {
        if x[i] > maximum {
            maximum = x[i];
        }
        i += 1;
    }
    maximum
}

/// The first position at which `x` holds `value`, or [`NOT_FOUND`].
pub fn argwhere(x: Vec<i32>, value: i32) -> (at: usize)
    ensures
        x@.contains(value) ==> at < x@.len() && x@[at as int] == value && forall|k: int|
            0 <= k < at ==> x@[k] != value,
        !x@.contains(value) ==> at == NOT_FOUND,
{
    let mut i: usize = 0;
    while i < x.len()
        invariant
            i <= x@.len(),
            forall|k: int| 0 <= k < i ==> x@[k] != value,
        decreases x@.len() - i,
    {
        if x[i] == value {
            return i;
        }
        i += 1;
    }
    NOT_FOUND
}

} // verus!
