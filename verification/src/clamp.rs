//! Clamping of any ordered value between two bounds.

use vstd::prelude::*;
use vstd::std_specs::cmp::{PartialOrdIs, PartialOrdSpec};

verus! {

/// `x` held between `lo` and `hi`: `lo` where `x` is less than `lo`,
/// otherwise `hi` where `x` is greater than `hi`, otherwise `x`.
pub open spec fn clamp_spec<T: PartialOrd>(x: T, lo: T, hi: T) -> T {
    if x.is_lt(&lo) {
        lo
    } else if x.is_gt(&hi) {
        hi
    } else {
        x
    }
}

/// Clamps `x` between `lo` and `hi`.
///
/// The lower bound is tested first, so with `hi` below `lo` a value under
/// `lo` still gives `lo`. A value that compares with neither bound, as a
/// partial order allows, is returned as it is.
pub fn clamp_generic<T: PartialOrd>(x: T, lo: T, hi: T) -> (r: T)
    ensures
        r == x || r == lo || r == hi,
        T::obeys_partial_cmp_spec() ==> r == clamp_spec(x, lo, hi),
{
    if x < lo {
        lo
    } else if x > hi {
        hi
    } else {
        x
    }
}

} // verus!
