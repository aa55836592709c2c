//! Errors that the storage layer reports instead of panicking.
use vstd::prelude::*;

verus! {

/// Why a record could not be encoded or decoded.
#[derive(Clone, Copy, Debug, PartialEq, Eq, Structural)]
pub enum DbError {
    /// A buffer is too short for the record it should hold, or holds a
    /// value that the format does not allow.
    Format,
    /// A record is too large for the format: a key or value over 255 bytes,
    /// too many released pages, or a node that does not fit its page.
    Capacity,
}

} // verus!
