//! Error numbers of the system.

use vstd::prelude::*;

verus! {

/// The error number that `rustix::io::Errno::INVAL` stands for, by
/// `rustix::io::Errno::raw_os_error`: Linux numbers it 22.
#[verifier::external_body]
pub(crate) fn invalid_argument() -> (r: i32)
    ensures
        r == 22,
{
    rustix::io::Errno::INVAL.raw_os_error()
}

/// The error number that `rustix::io::Errno::NOMEM` stands for, by
/// `rustix::io::Errno::raw_os_error`: Linux numbers it 12.
#[verifier::external_body]
pub(crate) fn no_memory() -> (r: i32)
    ensures
        r == 12,
{
    rustix::io::Errno::NOMEM.raw_os_error()
}

} // verus!
