//! The page size that the engine falls back to when the host's is not known.
use vstd::prelude::*;

verus! {

/// Page size used where the host's page size is not supplied.
pub const DEFAULT_PAGE_SIZE: usize = 4096;

/// The fallback page size. Asking the operating system for its page size is
/// left to the program that opens the database, which passes it in
/// `Options`.
pub fn get() -> (r: usize)
    ensures
        r == DEFAULT_PAGE_SIZE,
{
    DEFAULT_PAGE_SIZE
}

} // verus!
