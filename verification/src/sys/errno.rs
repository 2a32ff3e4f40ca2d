//! Error numbers.

use vstd::prelude::*;

verus! {

/// `EPERM`: the privacy controls refuse.
pub open spec fn not_permitted() -> int {
    1
}

/// `EACCES`: ownership or mode refuse.
pub open spec fn no_access() -> int {
    13
}

/// Reads `libc::EPERM`, which is 1 on macOS and on Linux.
#[verifier::external_body]
pub(crate) fn eperm() -> (r: i32)
    ensures
        r == not_permitted(),
{
    libc::EPERM
}

/// Reads `libc::EACCES`, which is 13 on macOS and on Linux.
#[verifier::external_body]
pub(crate) fn eacces() -> (r: i32)
    ensures
        r == no_access(),
{
    libc::EACCES
}

} // verus!
