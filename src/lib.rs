//! Binary serialization of fixed-width integers, integer sequences and
//! text, together with a random-access byte store to write them through.
//!
//! Every value is laid out in the byte order of the host it is written on
//! (little-endian, the order of every target this library is built for); there
//! is no header, no version tag and no byte-order marker.

pub mod bytes;
pub mod codec;
pub mod error;
pub mod persist;
pub mod serialize;
pub mod store;
