//! Binary search over sorted slices.
//!
//! Both searches are specified through the comparisons they make. On a
//! slice where the comparison against `target` is partitioned (as it is on
//! any sorted slice under a total order), `bisect_left` returns the first
//! position whose element is not below `target`, and `bisect_right` the
//! first position whose element is above it.

use core::cmp::Ordering;
use vstd::prelude::*;
use vstd::slice::slice_index_get;
use vstd::std_specs::cmp::PartialOrdSpec;

verus! {

/// The positions where `target` is strictly greater form a prefix of `s`:
/// once `target` stops being greater, it never becomes greater again. Any
/// sorted slice satisfies this.
pub open spec fn gt_partitioned<T: PartialOrd>(s: Seq<T>, target: T) -> bool {
    forall|i: int, j: int|
        #![trigger s[i], s[j]]
        0 <= i <= j < s.len() && target.partial_cmp_spec(&s[j]) == Some(Ordering::Greater)
            ==> target.partial_cmp_spec(&s[i]) == Some(Ordering::Greater)
}

/// The positions where `target` is strictly less form a suffix of `s`. Any
/// sorted slice satisfies this.
pub open spec fn lt_partitioned<T: PartialOrd>(s: Seq<T>, target: T) -> bool {
    forall|i: int, j: int|
        #![trigger s[i], s[j]]
        0 <= i <= j < s.len() && target.partial_cmp_spec(&s[i]) == Some(Ordering::Less)
            ==> target.partial_cmp_spec(&s[j]) == Some(Ordering::Less)
}

/// Returns the first position at which `target` could be inserted into the
/// sorted slice `arr` while keeping it sorted: every element before the
/// returned position is strictly below `target`, and no element from the
/// returned position on is.
pub fn bisect_left<T: PartialOrd>(arr: &[T], target: &T) -> (r: usize)
    ensures
        r <= arr@.len(),
        T::obeys_partial_cmp_spec() && gt_partitioned(arr@, *target) ==> {
            &&& forall|i: int|
                0 <= i < r ==> target.partial_cmp_spec(&arr@[i]) == Some(Ordering::Greater)
            &&& forall|i: int|
                r <= i < arr@.len() ==> target.partial_cmp_spec(&arr@[i]) != Some(
                    Ordering::Greater,
                )
        },
{
    if arr.len() == 0 {
        return 0;
    }
    let mut lo: usize = 0;
    let mut hi: usize = arr.len();
    while lo < hi
        invariant
            lo <= hi <= arr@.len(),
            T::obeys_partial_cmp_spec() && gt_partitioned(arr@, *target) ==> {
                &&& forall|i: int|
                    0 <= i < lo ==> target.partial_cmp_spec(&arr@[i]) == Some(Ordering::Greater)
                &&& forall|i: int|
                    hi <= i < arr@.len() ==> target.partial_cmp_spec(&arr@[i]) != Some(
                        Ordering::Greater,
                    )
            },
        decreases hi - lo,
    {
        let mid = (hi - lo) / 2 + lo;
        if target.gt(slice_index_get(arr, mid)) {
            lo = mid + 1;
        } else {
            hi = mid;
        }
    }
    lo
}

/// Returns the position one past the last element of the sorted slice `arr`
/// that is not above `target`: no element before the returned position is
/// strictly above `target`, and every element from the returned position on
/// is.
pub fn bisect_right<T: PartialOrd>(arr: &[T], target: &T) -> (r: usize)
    ensures
        r <= arr@.len(),
        T::obeys_partial_cmp_spec() && lt_partitioned(arr@, *target) ==> {
            &&& forall|i: int|
                0 <= i < r ==> target.partial_cmp_spec(&arr@[i]) != Some(Ordering::Less)
            &&& forall|i: int|
                r <= i < arr@.len() ==> target.partial_cmp_spec(&arr@[i]) == Some(Ordering::Less)
        },
{
    if arr.len() == 0 {
        return 0;
    }
    let mut lo: usize = 0;
    let mut hi: usize = arr.len();
    while lo < hi
        invariant
            lo <= hi <= arr@.len(),
            T::obeys_partial_cmp_spec() && lt_partitioned(arr@, *target) ==> {
                &&& forall|i: int|
                    0 <= i < lo ==> target.partial_cmp_spec(&arr@[i]) != Some(Ordering::Less)
                &&& forall|i: int|
                    hi <= i < arr@.len() ==> target.partial_cmp_spec(&arr@[i]) == Some(
                        Ordering::Less,
                    )
            },
        decreases hi - lo,
    {
        let mid = (hi - lo) / 2 + lo;
        if target.lt(slice_index_get(arr, mid)) {
            hi = mid;
        } else {
            lo = mid + 1;
        }
    }
    lo
}

} // verus!
