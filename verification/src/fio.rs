use vstd::prelude::*;
use crate::error::Result;

verus! {

/// The abstract I/O surface a data file's bytes are mirrored through.
///
/// The engine itself owns every file's contents in memory; a concrete backend
/// (ordinary file I/O, for example) lives outside this crate and implements
/// this trait to persist those bytes. Nothing in the engine's verification
/// depends on how a backend behaves.
pub trait IoManger {
    /// Read up to `len` bytes starting at `offset`.
    fn read(&self, offset: u64, len: usize) -> Result<Vec<u8>>;

    /// Append the given bytes; returns how many were written.
    fn write(&self, buf: &[u8]) -> Result<usize>;

    /// Force all previously written bytes to durable storage.
    fn sync(&self) -> Result<()>;
}

} // verus!
