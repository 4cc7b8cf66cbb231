//! Comparison of names.

use vstd::prelude::*;

verus! {

/// Are the two names equal?
pub fn same_name(a: &str, b: &str) -> (same: bool)
    ensures
        same == (a@ == b@),
{
    let x: String = a.to_owned();
    let y: String = b.to_owned();
    x == y
}

/// A copy of a name.
pub fn copy_name(a: &str) -> (out: String)
    ensures
        out@ == a@,
{
    a.to_owned()
}

} // verus!
