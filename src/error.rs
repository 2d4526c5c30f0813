//! What can go wrong while reading or writing values.

use vstd::prelude::*;

verus! {

/// `std::io::Error`, carried as it came inside `Error::Io`; nothing is read
/// from it.
#[verifier::external_type_specification]
#[verifier::external_body]
pub struct ExIoError(std::io::Error);

/// A failed read or write.
#[derive(Debug)]
pub enum Error {
    /// Fewer bytes were available than a fixed width or a length prefix
    /// calls for. Nothing was decoded.
    UnexpectedEof,
    /// A position or a length would reach past the largest offset a store
    /// can address.
    OutOfRange,
    /// The store accepted none of the bytes offered to it.
    WriteZero,
    /// The backing store reported a failure; it is passed on as it came.
    Io(std::io::Error),
}

} // verus!
