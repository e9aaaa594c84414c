//! The extent: one physical block space and its session allocator.
//!
//! An extent owns a backing device and a session-local occupancy bitmap, one
//! bit per block.  The bitmap is never persisted and never read from disk —
//! true occupancy on disk would betray which blocks belong to undisclosed
//! aspects.  Allocation probes forward from a caller-chosen start, wrapping
//! once around the extent, and reserves the first free block; the probe
//! order is deterministic so that every party that knows a keyword converges
//! on the same positions.  An `ExtentHandle` shares one extent between any
//! number of aspects behind a mutual-exclusion lock.

use crate::block::EncryptedBlock;
use crate::device::BlockDevice;
use vstd::prelude::*;
use vstd::rwlock::{RwLock, WriteHandle};

verus! {

/// What can go wrong below the aspect layer.
#[derive(Clone, Copy, Debug, PartialEq, Eq, Structural)]
pub enum Error {
    /// The shared extent state may be inconsistent.
    PoisonedData,
    /// The backing device failed.
    IoError,
}

/// The session occupancy bitmap, one bit per block of the extent, backed by
/// `bitvec::vec::BitVec`.
#[verifier::external_body]
pub struct UsageMap {
    bits: bitvec::vec::BitVec,
}

/// The bits a `UsageMap` holds, in index order.
pub uninterp spec fn bits_of(v: UsageMap) -> Seq<bool>;

/// Relies on `bitvec::vec::BitVec::repeat`: a vector of `len` copies of
/// `bit`.  The length bound keeps `len` well under the largest bit region
/// the crate can address, on any platform.
#[verifier::external_body]
fn bitvec_repeat(bit: bool, len: usize) -> (v: UsageMap)
    requires
        len <= usize::MAX / 64,
    ensures
        bits_of(v) == Seq::new(len as nat, |i: int| bit),
{
    UsageMap { bits: bitvec::vec::BitVec::repeat(bit, len) }
}

/// Relies on `bitvec::vec::BitVec::len`: how many bits the vector holds.
#[verifier::external_body]
fn bitvec_len(v: &UsageMap) -> (r: usize)
    ensures
        r as nat == bits_of(*v).len(),
{
    v.bits.len()
}

/// Relies on `bitvec::slice::BitSlice::get`: the bit at `index`.
#[verifier::external_body]
fn bitvec_get(v: &UsageMap, index: usize) -> (r: bool)
    requires
        index < bits_of(*v).len(),
    ensures
        r == bits_of(*v)[index as int],
{
    *v.bits.get(index).unwrap()
}

/// Relies on `bitvec::slice::BitSlice::set`: writes the bit at `index` and
/// changes nothing else.
#[verifier::external_body]
fn bitvec_set(v: &mut UsageMap, index: usize, value: bool)
    requires
        index < bits_of(*old(v)).len(),
    ensures
        bits_of(*final(v)) == bits_of(*old(v)).update(index as int, value),
{
    v.bits.set(index, value)
}

/// The first unreserved position reached from `start`, probing forward and
/// wrapping modulo the bitmap length, giving up after `fuel` probes.
pub open spec fn first_free_from(bits: Seq<bool>, start: int, fuel: nat) -> Option<int>
    recommends
        0 <= start < bits.len(),
    decreases fuel,
{
    if fuel == 0 {
        None
    } else if 0 <= start < bits.len() && !bits[start] {
        Some(start)
    } else {
        first_free_from(bits, if start + 1 < bits.len() { start + 1 } else { 0 }, (fuel - 1) as nat)
    }
}

/// Whatever probe finds a free position, that position is in range and free.
pub proof fn lemma_first_free_is_free(bits: Seq<bool>, start: int, fuel: nat)
    requires
        0 <= start < bits.len(),
        first_free_from(bits, start, fuel) is Some,
    ensures
        ({
            let i = first_free_from(bits, start, fuel)->0;
            0 <= i < bits.len() && !bits[i]
        }),
    decreases fuel,
{
    if fuel > 0 && bits[start] {
        lemma_first_free_is_free(
            bits,
            if start + 1 < bits.len() { start + 1 } else { 0 },
            (fuel - 1) as nat,
        );
    }
}

/// No two allocation requests within one session receive the same block:
/// the first probe reserves the position it returns, and a later probe over
/// the updated bitmap only ever returns a free position.
pub proof fn lemma_alloc_distinct(bits: Seq<bool>, s1: int, s2: int, i1: int, i2: int)
    requires
        0 <= s1 < bits.len(),
        0 <= s2 < bits.len(),
        first_free_from(bits, s1, bits.len()) == Some(i1),
        first_free_from(bits.update(i1, true), s2, bits.len()) == Some(i2),
    ensures
        i1 != i2,
{
    lemma_first_free_is_free(bits, s1, bits.len());
    lemma_first_free_is_free(bits.update(i1, true), s2, bits.update(i1, true).len());
}

/// The physical block space: a backing device and the session occupancy
/// bitmap.
pub struct Extent<T: BlockDevice> {
    block_usage_map: UsageMap,
    device: T,
}

impl<T: BlockDevice> Extent<T> {
    /// The occupancy bitmap of the current session.
    pub closed spec fn bits(&self) -> Seq<bool> {
        bits_of(self.block_usage_map)
    }

    /// The content of every block of the extent.
    pub closed spec fn blocks(&self) -> Seq<Seq<u8>> {
        self.device.sectors()
    }

    /// The number of blocks.
    pub closed spec fn spec_n_blocks(&self) -> nat {
        self.bits().len()
    }

    /// The device honours its own invariant.
    pub closed spec fn device_ok(&self) -> bool {
        self.device.inv()
    }

    /// One occupancy bit per device block, and a device that honours its own
    /// invariant.
    pub open spec fn inv(&self) -> bool {
        &&& self.bits().len() == self.blocks().len()
        &&& self.bits().len() == self.spec_n_blocks()
        &&& self.bits().len() <= u64::MAX
        &&& self.bits().len() <= usize::MAX
        &&& self.device_ok()
    }

    /// Bring a device under session management.  Every block starts
    /// unreserved: occupancy is never read back from disk.
    pub fn new(device: T) -> (r: Extent<T>)
        requires
            device.inv(),
            device.sectors().len() <= u64::MAX,
            device.sectors().len() <= usize::MAX / 64,
        ensures
            r.inv(),
            r.spec_n_blocks() == device.sectors().len(),
            r.blocks() == device.sectors(),
            forall|i: int| 0 <= i < r.spec_n_blocks() ==> !r.bits()[i],
    {
        let n = device.n_sectors();
        let map = bitvec_repeat(false, n as usize);
        Extent { block_usage_map: map, device }
    }

    /// Get the number of blocks.
    pub fn n_blocks(&self) -> (r: u64)
        requires
            self.inv(),
        ensures
            r as nat == self.spec_n_blocks(),
    {
        bitvec_len(&self.block_usage_map) as u64
    }

    /// Read the stored image of one block.
    pub fn read_block(&mut self, block_index: u64) -> (r: EncryptedBlock)
        requires
            old(self).inv(),
            block_index < old(self).spec_n_blocks(),
        ensures
            final(self).inv(),
            final(self).bits() == old(self).bits(),
            final(self).blocks() == old(self).blocks(),
            final(self).spec_n_blocks() == old(self).spec_n_blocks(),
            r@ == old(self).blocks()[block_index as int],
    {
        let raw = self.device.read_sector(block_index);
        EncryptedBlock::from_bytes(raw)
    }

    /// Write the stored image of one block.
    pub fn write_block(&mut self, address: u64, block: EncryptedBlock) -> (r: Result<(), Error>)
        requires
            old(self).inv(),
            address < old(self).spec_n_blocks(),
        ensures
            final(self).inv(),
            r is Ok,
            final(self).blocks() == old(self).blocks().update(address as int, block@),
            final(self).bits() == old(self).bits(),
            final(self).spec_n_blocks() == old(self).spec_n_blocks(),
    {
        self.device.write_sector(address, block.into_bytes());
        Ok(())
    }

    /// Mark the given block as deallocated.
    pub fn deallocate_block(&mut self, block_index: u64)
        requires
            old(self).inv(),
            block_index < old(self).spec_n_blocks(),
        ensures
            final(self).inv(),
            final(self).bits() == old(self).bits().update(block_index as int, false),
            final(self).blocks() == old(self).blocks(),
            final(self).spec_n_blocks() == old(self).spec_n_blocks(),
    {
        bitvec_set(&mut self.block_usage_map, block_index as usize, false)
    }

    /// Mark a block as owned.
    pub fn alloc_block(&mut self, block_index: u64)
        requires
            old(self).inv(),
            block_index < old(self).spec_n_blocks(),
        ensures
            final(self).inv(),
            final(self).bits() == old(self).bits().update(block_index as int, true),
            final(self).blocks() == old(self).blocks(),
            final(self).spec_n_blocks() == old(self).spec_n_blocks(),
    {
        bitvec_set(&mut self.block_usage_map, block_index as usize, true)
    }

    /// Reserve the given block, returning `Ok(())` on success; a block that
    /// is already reserved is an expected collision signal, not an error.
    pub fn reserve_block(&mut self, block_id: u64) -> (r: Result<(), ()>)
        requires
            old(self).inv(),
            block_id < old(self).spec_n_blocks(),
        ensures
            final(self).inv(),
            final(self).blocks() == old(self).blocks(),
            final(self).spec_n_blocks() == old(self).spec_n_blocks(),
            r is Ok <==> !old(self).bits()[block_id as int],
            r is Ok ==> final(self).bits() == old(self).bits().update(block_id as int, true),
            r is Err ==> final(self).bits() == old(self).bits(),
    {
        if bitvec_get(&self.block_usage_map, block_id as usize) {
            Err(())
        } else {
            bitvec_set(&mut self.block_usage_map, block_id as usize, true);
            Ok(())
        }
    }

    /// Test if the given block is currently allocated.
    pub fn is_allocated(&self, block_id: u64) -> (r: bool)
        requires
            self.inv(),
            block_id < self.spec_n_blocks(),
        ensures
            r == self.bits()[block_id as int],
    {
        bitvec_get(&self.block_usage_map, block_id as usize)
    }

    /// Reserve and return the first free block at or after `block_index`,
    /// probing forward and wrapping once around the whole extent; `None`
    /// when every block is reserved.
    pub fn alloc_next_block(&mut self, block_index: u64) -> (r: Option<u64>)
        requires
            old(self).inv(),
            block_index < old(self).spec_n_blocks(),
        ensures
            final(self).inv(),
            final(self).blocks() == old(self).blocks(),
            final(self).spec_n_blocks() == old(self).spec_n_blocks(),
            match r {
                Some(id) => {
                    &&& id < old(self).spec_n_blocks()
                    &&& !old(self).bits()[id as int]
                    &&& final(self).bits() == old(self).bits().update(id as int, true)
                    &&& Some(id as int) == first_free_from(
                        old(self).bits(),
                        block_index as int,
                        old(self).spec_n_blocks(),
                    )
                },
                None => {
                    &&& final(self).bits() == old(self).bits()
                    &&& first_free_from(
                        old(self).bits(),
                        block_index as int,
                        old(self).spec_n_blocks(),
                    ) is None
                },
            },
    {
        let n = self.n_blocks();
        let mut index = block_index;
        let mut fuel = n;
        while fuel > 0
            invariant
                self.inv(),
                self.bits() == old(self).bits(),
                self.blocks() == old(self).blocks(),
                index < n,
                fuel <= n,
                n as nat == self.spec_n_blocks(),
                first_free_from(self.bits(), block_index as int, n as nat) == first_free_from(
                    self.bits(),
                    index as int,
                    fuel as nat,
                ),
            decreases fuel,
        {
            if !self.is_allocated(index) {
                self.alloc_block(index);
                return Some(index);
            }
            index = if index + 1 < n {
                index + 1
            } else {
                0
            };
            fuel = fuel - 1;
        }
        None
    }

    /// Give the backing device back, ending this session's management; the
    /// occupancy bitmap is discarded, never persisted.
    pub fn into_device(self) -> (r: T)
        ensures
            r.sectors() == self.blocks(),
            self.inv() ==> r.inv(),
    {
        self.device
    }

    /// Move self into a handle that any number of aspects can share.
    pub fn to_handle(self) -> (r: ExtentHandle<T>)
        requires
            self.inv(),
            self.spec_n_blocks() > 0,
        ensures
            r.wf(),
            r.spec_n_blocks() as nat == self.spec_n_blocks(),
    {
        let nb = self.n_blocks();
        let ghost pred = |e: Extent<T>|
            e.inv() && e.spec_n_blocks() == nb as nat && e.spec_n_blocks() > 0;
        let handle = RwLock::new(self, Ghost(pred));
        ExtentHandle { handle, n_blocks: nb }
    }
}

/// A shared, lock-guarded front for one extent.  Every aspect open against
/// the extent goes through one handle; the lock is held for one allocator or
/// block-transfer call at a time, so aspects on different threads interleave
/// at block granularity but never observe a torn reservation.
#[verifier::reject_recursive_types(T)]
pub struct ExtentHandle<T: BlockDevice> {
    handle: RwLock<Extent<T>, spec_fn(Extent<T>) -> bool>,
    n_blocks: u64,
}

impl<T: BlockDevice> ExtentHandle<T> {
    /// The number of blocks of the underlying extent.
    pub closed spec fn spec_n_blocks(&self) -> u64 {
        self.n_blocks
    }

    /// The lock admits exactly the extents that honour their invariant and
    /// have this handle's block count.
    pub closed spec fn wf(&self) -> bool {
        &&& self.n_blocks > 0
        &&& forall|e: Extent<T>|
            #[trigger] self.handle.inv(e) <==> (e.inv() && e.spec_n_blocks()
                == self.n_blocks as nat && e.spec_n_blocks() > 0)
    }

    /// Number of blocks in the entire extent.
    pub fn n_blocks(&self) -> (r: u64)
        requires
            self.wf(),
        ensures
            r == self.spec_n_blocks(),
            r > 0,
    {
        self.n_blocks
    }

    /// Take exclusive hold of the underlying extent.  The second component
    /// returns the extent to the lock.
    pub fn lock<'a>(&'a self) -> (r: (
        Extent<T>,
        WriteHandle<'a, Extent<T>, spec_fn(Extent<T>) -> bool>,
    ))
        requires
            self.wf(),
        ensures
            r.0.inv(),
            r.0.spec_n_blocks() == self.spec_n_blocks() as nat,
            r.0.spec_n_blocks() > 0,
            forall|e: Extent<T>|
                #[trigger] r.1.rwlock().inv(e) <==> (e.inv() && e.spec_n_blocks()
                    == self.spec_n_blocks() as nat && e.spec_n_blocks() > 0),
    {
        self.handle.acquire_write()
    }

    /// Read the stored image of one block, holding the lock only for the
    /// read.  What the image holds depends on every aspect that shares the
    /// extent, so nothing more than its size can be promised.
    pub fn read_block(&self, block_id: u64) -> (r: Result<EncryptedBlock, Error>)
        requires
            self.wf(),
            block_id < self.spec_n_blocks(),
        ensures
            r is Ok,
    {
        let (mut extent, write_handle) = self.lock();
        let block = extent.read_block(block_id);
        write_handle.release_write(extent);
        Ok(block)
    }

    /// Write the stored image of one block, holding the lock only for the
    /// write.
    pub fn write_block(&self, block_id: u64, block: EncryptedBlock) -> (r: Result<(), Error>)
        requires
            self.wf(),
            block_id < self.spec_n_blocks(),
        ensures
            r is Ok,
    {
        let (mut extent, write_handle) = self.lock();
        let result = extent.write_block(block_id, block);
        write_handle.release_write(extent);
        result
    }

    /// Take the extent back out of the handle, ending the sharing.
    pub fn into_extent(self) -> (r: Extent<T>)
        requires
            self.wf(),
        ensures
            r.inv(),
            r.spec_n_blocks() == self.spec_n_blocks() as nat,
    {
        self.handle.into_inner()
    }
}

} // verus!
