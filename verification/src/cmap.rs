//! A packed bitmap keyed by 32-bit indices.

use vstd::prelude::*;

verus! {

/// A bitmap packed eight bits to the byte, with a running count of set bits.
pub struct CollisionMap {
    bitmap: Vec<u8>,
    n_set: u64,
}

impl CollisionMap {
    /// The packed bytes.
    pub closed spec fn spec_bitmap(&self) -> Seq<u8> {
        self.bitmap@
    }

    /// The recorded number of set bits.
    pub closed spec fn spec_n_set(&self) -> u64 {
        self.n_set
    }

    /// A map over the given packed bytes, of which `n_set` bits are set.
    pub fn new(bitmap: Vec<u8>, n_set: u64) -> (r: CollisionMap)
        ensures
            r.spec_bitmap() == bitmap@,
            r.spec_n_set() == n_set,
    {
        CollisionMap { bitmap, n_set }
    }

    /// The bit at `index`.
    pub fn get(&self, index: u32) -> (r: bool)
        requires
            index as nat / 8 < self.spec_bitmap().len(),
        ensures
            r == ((self.spec_bitmap()[index as int / 8] >> (index as u8 % 8)) & 1 == 1),
    {
        let (byte_index, bit_index) = split_index(index);
        let byte = self.bitmap[byte_index as usize];
        (byte >> bit_index) & 1 == 1
    }
}

/// Given an index, split it into the byte and bit index of a bitmap.
pub fn split_index(index: u32) -> (r: (u32, u8))
    ensures
        r.0 == index / 8,
        r.1 == index as u8 % 8,
        r.1 == index % 8,
{
    proof {
        assert(index % 8 == (index as u8 % 8) as u32) by (bit_vector);
    }
    (index / 8, (index % 8) as u8)
}

} // verus!
