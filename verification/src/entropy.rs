//! The system's random source.
use vstd::prelude::*;

verus! {

/// Fills `bytes` from the system's random source with `getrandom::fill`, rendering a failure as
/// the `Display` text of its error. Nothing is stated of the bytes it leaves, of when it fails,
/// or of the failure text.
#[verifier::external_body]
pub(crate) fn fill(bytes: &mut [u8; 16]) -> (r: Result<(), String>) {
    match getrandom::fill(bytes) {
        Ok(()) => Ok(()),
        Err(error) => Err(format!("{error}")),
    }
}

} // verus!
