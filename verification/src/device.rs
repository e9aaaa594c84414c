//! The backing device boundary: fixed-size sector read and write by index,
//! plus a count query.  The engine depends on nothing else of the medium;
//! whether it is memory, a file or a physical disk is the caller's business.

use crate::sector;
use vstd::prelude::*;

verus! {

broadcast use vstd::array::group_array_axioms;

pub use crate::sector::SECTOR_SIZE;

/// A raw device sector.
pub type Sector = [u8; SECTOR_SIZE];


/// What a device says about itself.
pub struct DeviceMetadata {
    pub name: &'static str,
}

/// A backing device, capable of reading and writing sectors.
pub trait BlockDevice: Sized {
    /// The current content of every sector.
    spec fn sectors(&self) -> Seq<Seq<u8>>;

    /// The device is in a state its operations preserve.
    spec fn inv(&self) -> bool;

    fn read_sector(&mut self, index: u64) -> (r: Sector)
        requires
            old(self).inv(),
            index < old(self).sectors().len(),
        ensures
            final(self).inv(),
            final(self).sectors() == old(self).sectors(),
            r@ == old(self).sectors()[index as int],
    ;

    fn write_sector(&mut self, index: u64, sector: Sector)
        requires
            old(self).inv(),
            index < old(self).sectors().len(),
        ensures
            final(self).inv(),
            final(self).sectors() == old(self).sectors().update(index as int, sector@),
    ;

    fn n_sectors(&self) -> (r: u64)
        requires
            self.inv(),
        ensures
            r as nat == self.sectors().len(),
    ;

    fn meta(&self) -> DeviceMetadata {
        DeviceMetadata { name: "Not set" }
    }
}

/// Fill the entire device with random information.
/// WARNING: This erases all data.
pub fn randomize_device<T: BlockDevice>(dev: &mut T)
    requires
        old(dev).inv(),
    ensures
        final(dev).inv(),
        final(dev).sectors().len() == old(dev).sectors().len(),
{
    let n = dev.n_sectors();
    let mut i: u64 = 0;
    while i < n
        invariant
            dev.inv(),
            dev.sectors().len() == n,
            i <= n,
        decreases n - i,
    {
        let noise = sector::Sector::new_rand();
        dev.write_sector(i, noise.into_bytes());
        i = i + 1;
    }
}

/// An in-memory device: a vector of sectors.
pub struct RAMDisk {
    data: Vec<Sector>,
}

impl BlockDevice for RAMDisk {
    closed spec fn sectors(&self) -> Seq<Seq<u8>> {
        Seq::new(self.data@.len(), |i: int| self.data@[i]@)
    }

    closed spec fn inv(&self) -> bool {
        true
    }

    fn read_sector(&mut self, index: u64) -> (r: Sector) {
        let n = self.data.len();
        self.data[index as usize]
    }

    fn write_sector(&mut self, index: u64, sector: Sector) {
        let ghost pre = self.sectors();
        let n = self.data.len();
        self.data[index as usize] = sector;
        proof {
            assert(self.sectors() =~= pre.update(index as int, sector@));
        }
    }

    fn n_sectors(&self) -> (r: u64) {
        self.data.len() as u64
    }
}

impl RAMDisk {
    /// A zero-filled in-memory device of `n_sectors` sectors.
    pub fn new(n_sectors: usize) -> (r: RAMDisk)
        ensures
            r.inv(),
            r.sectors().len() == n_sectors,
            forall|i: int, j: int|
                0 <= i < n_sectors && 0 <= j < SECTOR_SIZE ==> r.sectors()[i][j] == 0u8,
    {
        let mut data: Vec<Sector> = Vec::new();
        let mut i: usize = 0;
        while i < n_sectors
            invariant
                i <= n_sectors,
                data@.len() == i,
                forall|k: int, j: int|
                    0 <= k < i && 0 <= j < SECTOR_SIZE ==> data@[k]@[j] == 0u8,
            decreases n_sectors - i,
        {
            data.push([0u8; SECTOR_SIZE]);
            i = i + 1;
        }
        RAMDisk { data }
    }
}

} // verus!
