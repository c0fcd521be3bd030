//! Searching among string slices.

use vstd::prelude::*;
use vstd::slice::slice_index_get;

verus! {

/// Returns the first non-empty string of `arr`, or `None` when every string
/// in `arr` is empty.
pub fn find_first_non_blank<'a>(arr: &[&'a str]) -> (r: Option<&'a str>)
    ensures
        r matches Some(s) ==> exists|i: int|
            0 <= i < arr@.len() && arr@[i] == s && s@.len() > 0 && (forall|j: int|
                0 <= j < i ==> (#[trigger] arr@[j])@.len() == 0),
        r is None ==> forall|i: int| 0 <= i < arr@.len() ==> (#[trigger] arr@[i])@.len() == 0,
{
    let mut i: usize = 0;
    while i < arr.len()
        invariant
            i <= arr@.len(),
            forall|j: int| 0 <= j < i ==> (#[trigger] arr@[j])@.len() == 0,
        decreases arr@.len() - i,
    {
        let s = *slice_index_get(arr, i);
        if !s.is_empty() {
            return Some(s);
        }
        i = i + 1;
    }
    None
}

} // verus!
