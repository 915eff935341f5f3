//! Plumbing shared with the unverified edge of the process.

use vstd::prelude::*;

verus! {

/// Declares std::io::Error so that it can stand in signatures; Verus
/// treats its values as opaque.
#[verifier::external_type_specification]
#[verifier::external_body]
pub struct ExIoError(std::io::Error);

/// Unwrap an I/O result whose success the caller has already established.
/// The original write path aborted on an I/O error here, so an erring
/// input is ruled out rather than panicked on.
pub fn handle_io<T>(res: Result<T, std::io::Error>) -> (r: T)
    requires
        res is Ok,
    ensures
        r == res.unwrap(),
{
    match res {
        Ok(t) => t,
        Err(_) => vstd::pervasive::unreached(),
    }
}

} // verus!
