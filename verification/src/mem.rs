//! A byte-addressed memory boundary.

use vstd::prelude::*;

verus! {

/// Anything that can serve reads and writes of plain byte ranges.
pub trait RAM {
    /// Read `len` bytes starting at address `address`.
    fn read(&self, address: usize, len: usize) -> &[u8];

    /// Write the bytes starting at address `address`, returning the range
    /// written.
    fn write(&self, address: usize, len: usize) -> &[u8];
}

} // verus!
