//! Adding amounts of money without leaving the range of `i128`.

use vstd::prelude::*;

verus! {

/// `a + b`, held within the range of `i128`.
pub open spec fn sat_add(a: int, b: int) -> int {
    if a + b > i128::MAX {
        i128::MAX as int
    } else if a + b < i128::MIN {
        i128::MIN as int
    } else {
        a + b
    }
}

/// `a + b`, held within the range of `i128`.
pub fn saturating_sum(a: i128, b: i128) -> (r: i128)
    ensures
        r == sat_add(a as int, b as int),
{
    match a.checked_add(b) {
        Some(v) => v,
        None => if b > 0 {
            i128::MAX
        } else {
            i128::MIN
        },
    }
}

} // verus!
