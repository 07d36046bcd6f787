//! The interface through which generated bytes are produced. Content
//! sources draw on randomness or on the platform and live outside the
//! library; they implement this trait.

use vstd::prelude::*;

verus! {

/// Declares `std::io::Error` so that signatures may carry it; the value
/// is opaque here and only handed through.
#[verifier::external_type_specification]
#[verifier::external_body]
pub struct ExIoError(std::io::Error);

/// A source of generated content: fills the buffer it is handed with the
/// next run of bytes.
pub trait ContentProvider {
    fn fill_buf(&mut self, buf: &mut Vec<u8>) -> Result<(), std::io::Error>;
}

} // verus!
