//! File-name helpers.

use vstd::prelude::*;
use vstd::string::StringExecFns;

verus! {

/// Returns `fname` with `suffix` appended when `cond()` answers true, and
/// `fname` unchanged otherwise.
pub fn add_suffix<F: Fn() -> bool>(fname: &str, suffix: &str, cond: F) -> (r: String)
    requires
        call_requires(cond, ()),
    ensures
        exists|b: bool|
            #[trigger] call_ensures(cond, (), b) && r@ == (if b {
                fname@ + suffix@
            } else {
                fname@
            }),
{
    let mut result = fname.to_owned();
    let b = cond();
    if b {
        result.append(suffix);
    }
    result
}

} // verus!
