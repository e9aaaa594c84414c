//! Disk sectors: the fixed-size unit the backing device reads and writes.

use crate::crc::{crc64, spec_crc64};
use vstd::prelude::*;

verus! {

broadcast use vstd::array::group_array_axioms;

/// Size of disk sectors in bytes.
pub const SECTOR_SIZE: usize = 1024;

/// A disk sector, the smallest unit that can be read or written from the
/// block device.
pub struct Sector([u8; SECTOR_SIZE]);

impl View for Sector {
    type V = Seq<u8>;

    closed spec fn view(&self) -> Seq<u8> {
        self.0@
    }
}

/// Fills the buffer with bytes drawn from the process-wide random source.
///
/// Relies on `openssl::rand::rand_bytes`; nothing can be said of the bytes it
/// produces, and the buffer keeps its length.
#[verifier::external_body]
fn fill_random(buf: &mut [u8; SECTOR_SIZE])
{
    openssl::rand::rand_bytes(buf).unwrap()
}

impl Sector {
    /// An all-zero sector.
    pub fn new() -> (r: Sector)
        ensures
            r@ == Seq::new(SECTOR_SIZE as nat, |i: int| 0u8),
    {
        let zeroes = [0u8; SECTOR_SIZE];
        let s = Sector(zeroes);
        proof {
            assert(forall|i: int| 0 <= i < SECTOR_SIZE ==> zeroes@[i] == 0u8);
            assert(s.0@ =~= Seq::new(SECTOR_SIZE as nat, |i: int| 0u8));
            assert(s@ =~= Seq::new(SECTOR_SIZE as nat, |i: int| 0u8));
        }
        s
    }

    /// A sector of fresh random bytes.
    pub fn new_rand() -> (r: Sector)
        ensures
            r@.len() == SECTOR_SIZE,
    {
        let mut s = Sector::new();
        s.randomize();
        s
    }

    /// Randomize all data within self.
    pub fn randomize(&mut self)
        ensures
            final(self)@.len() == SECTOR_SIZE,
    {
        fill_random(&mut self.0);
    }

    /// The checksum of the whole sector.
    pub fn crc(&self) -> (r: u64)
        ensures
            r == spec_crc64(self@),
    {
        crc64(self.0.as_slice())
    }

    /// The column header matching the sector line format: the byte offsets of
    /// the first and last eight bytes shown of each sector.
    pub fn header() -> (r: String)
        ensures
            r@ == "crc         0                          7    3f8                         3ff"@,
    {
        String::from_str("crc         0                          7    3f8                         3ff")
    }

    /// Build a sector holding the given bytes.
    pub fn from_bytes(bytes: [u8; SECTOR_SIZE]) -> (r: Sector)
        ensures
            r@ == bytes@,
    {
        Sector(bytes)
    }

    /// The sector's bytes.
    pub fn into_bytes(self) -> (r: [u8; SECTOR_SIZE])
        ensures
            r@ == self@,
    {
        self.0
    }
}

impl PartialEq for Sector {
    fn eq(&self, other: &Self) -> (r: bool) {
        let mut i: usize = 0;
        while i < SECTOR_SIZE
            invariant
                i <= SECTOR_SIZE,
                self.0@.len() == SECTOR_SIZE,
                other.0@.len() == SECTOR_SIZE,
                forall|k: int| 0 <= k < i ==> self.0@[k] == other.0@[k],
            decreases SECTOR_SIZE - i,
        {
            if self.0[i] != other.0[i] {
                return false;
            }
            i = i + 1;
        }
        proof {
            assert(self.0@ =~= other.0@);
        }
        true
    }
}

impl Eq for Sector {

}

impl vstd::std_specs::cmp::PartialEqSpecImpl for Sector {
    open spec fn obeys_eq_spec() -> bool {
        true
    }

    open spec fn eq_spec(&self, other: &Sector) -> bool {
        self@ == other@
    }
}

} // verus!
