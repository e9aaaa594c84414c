//! The on-disk block format and its keyed transform.
//!
//! A block is a fixed-size record: a header holding the chain pointer to the
//! next block's extent address and a checksum of the payload, then the
//! payload itself.  Before a block reaches the device its whole byte image is
//! xored with a keystream derived from a per-position key, so that without
//! the key the stored bytes carry no structure; decryption is attempted
//! blindly and `validate_checksum` decides whether the result is genuine.

use crate::bytes::{
    be_value, lemma_u64_be_bytes_of_value, lemma_xor_with_involutes, u64_be_bytes, u64_to_be_bytes,
    xor_with,
};
use crate::crc::{crc64, spec_crc64};
use crate::keyword::{FromByteSlice, Key};
use crate::sector::Sector;
use aes::cipher::generic_array::GenericArray;
use aes::{Aes256, BlockEncrypt, NewBlockCipher};
use vstd::prelude::*;
use vstd::slice::{slice_subrange, slice_to_vec};

verus! {

/// Total size of a block on disk, header included.
pub const BLOCK_SIZE: usize = 1024;

/// Size of the block header: chain pointer and checksum, eight bytes each.
pub const HEADER_SIZE: usize = 16;

/// Size of a block's payload.
pub const BLOCK_DATA_SIZE: usize = BLOCK_SIZE - HEADER_SIZE;

/// The chain pointer of the last block of an aspect: no next block.
pub const NO_NEXT_BLOCK: u64 = 0xffff_ffff_ffff_ffff;

/// A block image exactly as read from the device, before any decryption.
#[derive(Clone, Copy, Debug, PartialEq, Eq)]
pub struct RawBlock(pub [u8; BLOCK_SIZE]);

/// A block image after the keyed transform: what is written to the device.
#[derive(Clone, Copy)]
pub struct EncryptedBlock([u8; BLOCK_SIZE]);

/// The plaintext header of a block.
#[derive(Clone, Copy, Debug, PartialEq, Eq)]
#[verifier::ext_equal]
pub struct BlockHeader {
    /// Extent address of the next block in the chain, `NO_NEXT_BLOCK` at the
    /// end of the chain.
    pub next_sector_id: u64,
    /// Checksum of the payload.
    pub checksum: u64,
}

/// A plaintext block: header and payload.
#[derive(Clone, Copy, Debug, PartialEq, Eq)]
#[verifier::ext_equal]
pub struct Block {
    pub header: BlockHeader,
    pub data: [u8; BLOCK_DATA_SIZE],
}

/// The byte image of a block: both header integers big-endian, then the
/// payload.
pub open spec fn spec_block_bytes(b: Block) -> Seq<u8> {
    u64_be_bytes(b.header.next_sector_id) + u64_be_bytes(b.header.checksum) + b.data@
}

/// A block is valid when its stored checksum matches its payload.
pub open spec fn spec_block_valid(b: Block) -> bool {
    b.header.checksum == spec_crc64(b.data@)
}

/// What AES-256 makes of a single sixteen-byte cipher block.  The permutation
/// is far too large to state here; the library only relies on it being a
/// function of key and block alone.
pub uninterp spec fn aes_block_of(key: Seq<u8>, block: Seq<u8>) -> Seq<u8>;

/// The sixteen-byte counter block for keystream position `i`: eight zero
/// bytes, then `i` big-endian.
pub open spec fn counter_bytes(i: u64) -> Seq<u8> {
    Seq::new(8, |k: int| 0u8) + u64_be_bytes(i)
}

/// The first `n` sixteen-byte keystream blocks for `key`, concatenated.
pub open spec fn keystream_prefix(key: Seq<u8>, n: nat) -> Seq<u8>
    decreases n,
{
    if n == 0 {
        Seq::empty()
    } else {
        keystream_prefix(key, (n - 1) as nat) + aes_block_of(key, counter_bytes((n - 1) as u64))
    }
}

/// The whole-block keystream for `key`: one sixteen-byte cipher block for
/// each of the 64 counter values a block covers.
pub open spec fn keystream_of(key: Seq<u8>) -> Seq<u8> {
    keystream_prefix(key, (BLOCK_SIZE / 16) as nat)
}

/// The keyed transform of a block image: xor with the key's keystream.  The
/// transform is its own inverse.
pub open spec fn spec_cipher(image: Seq<u8>, key: Seq<u8>) -> Seq<u8> {
    xor_with(image, keystream_of(key))
}

/// Encrypts one counter block under `key`.
///
/// Relies on `aes::Aes256` (`encrypt_block`): a sixteen-byte permutation that
/// depends on key and block alone.
#[verifier::external_body]
fn aes256_encrypt_counter(key: &Key, counter: u64) -> (r: [u8; 16])
    ensures
        r@ == aes_block_of(key@, counter_bytes(counter)),
{
    let mut block = [0u8; 16];
    block[8..16].copy_from_slice(&counter.to_be_bytes());
    let cipher = Aes256::new(GenericArray::from_slice(key));
    let mut buf = GenericArray::clone_from_slice(&block);
    cipher.encrypt_block(&mut buf);
    block.copy_from_slice(&buf);
    block
}

/// The whole-block keystream for `key`.
fn keystream(key: &Key) -> (r: Vec<u8>)
    ensures
        r@ == keystream_of(key@),
        r@.len() == BLOCK_SIZE,
{
    let mut r: Vec<u8> = Vec::new();
    let mut i: usize = 0;
    while i < BLOCK_SIZE / 16
        invariant
            i <= BLOCK_SIZE / 16,
            r@.len() == 16 * i,
            r@ == keystream_prefix(key@, i as nat),
        decreases BLOCK_SIZE / 16 - i,
    {
        let block = aes256_encrypt_counter(key, i as u64);
        let mut tail = slice_to_vec(block.as_slice());
        r.append(&mut tail);
        i = i + 1;
    }
    r
}

/// The byte image of a block.
pub fn block_to_bytes(b: &Block) -> (r: Vec<u8>)
    ensures
        r@ == spec_block_bytes(*b),
        r@.len() == BLOCK_SIZE,
{
    let mut r = u64_to_be_bytes(b.header.next_sector_id);
    let mut cs = u64_to_be_bytes(b.header.checksum);
    r.append(&mut cs);
    let mut data = slice_to_vec(b.data.as_slice());
    r.append(&mut data);
    proof {
        assert(r@ =~= spec_block_bytes(*b));
    }
    r
}

/// The block whose byte image is `bytes`.
pub fn block_from_bytes(bytes: &[u8]) -> (r: Block)
    requires
        bytes@.len() == BLOCK_SIZE,
    ensures
        spec_block_bytes(r) == bytes@,
{
    let next = u64::from_bytes(slice_subrange(bytes, 0, 8));
    let checksum = u64::from_bytes(slice_subrange(bytes, 8, 16));
    let mut data = [0u8; BLOCK_DATA_SIZE];
    let mut i: usize = 0;
    while i < BLOCK_DATA_SIZE
        invariant
            i <= BLOCK_DATA_SIZE,
            bytes@.len() == BLOCK_SIZE,
            data@.len() == BLOCK_DATA_SIZE,
            forall|k: int| 0 <= k < i ==> data@[k] == bytes@[HEADER_SIZE + k],
        decreases BLOCK_DATA_SIZE - i,
    {
        data[i] = bytes[HEADER_SIZE + i];
        i = i + 1;
    }
    let r = Block { header: BlockHeader { next_sector_id: next, checksum }, data };
    proof {
        lemma_u64_be_bytes_of_value(bytes@.subrange(0, 8));
        lemma_u64_be_bytes_of_value(bytes@.subrange(8, 16));
        assert(spec_block_bytes(r) =~= bytes@);
    }
    r
}

/// How a block's fields sit inside its byte image.
pub proof fn lemma_block_fields(b: Block)
    ensures
        spec_block_bytes(b).len() == BLOCK_SIZE,
        be_value(spec_block_bytes(b).subrange(0, 8)) == b.header.next_sector_id,
        be_value(spec_block_bytes(b).subrange(8, 16)) == b.header.checksum,
        spec_block_bytes(b).subrange(16, BLOCK_SIZE as int) == b.data@,
{
    let s = spec_block_bytes(b);
    assert(u64_be_bytes(b.header.next_sector_id) =~= s.subrange(0, 8));
    assert(u64_be_bytes(b.header.checksum) =~= s.subrange(8, 16));
    assert(b.data@ =~= s.subrange(16, BLOCK_SIZE as int));
    crate::bytes::lemma_u64_be_bytes_value(b.header.next_sector_id);
    crate::bytes::lemma_u64_be_bytes_value(b.header.checksum);
}

/// Blocks with the same byte image are the same block.
pub proof fn lemma_block_bytes_injective(a: Block, b: Block)
    requires
        spec_block_bytes(a) == spec_block_bytes(b),
    ensures
        a == b,
{
    let sa = spec_block_bytes(a);
    let sb = spec_block_bytes(b);
    assert(u64_be_bytes(a.header.next_sector_id) =~= sa.subrange(0, 8));
    assert(u64_be_bytes(a.header.checksum) =~= sa.subrange(8, 16));
    assert(a.data@ =~= sa.subrange(16, BLOCK_SIZE as int));
    assert(u64_be_bytes(b.header.next_sector_id) =~= sb.subrange(0, 8));
    assert(u64_be_bytes(b.header.checksum) =~= sb.subrange(8, 16));
    assert(b.data@ =~= sb.subrange(16, BLOCK_SIZE as int));
    crate::bytes::lemma_u64_be_bytes_injective(a.header.next_sector_id, b.header.next_sector_id);
    crate::bytes::lemma_u64_be_bytes_injective(a.header.checksum, b.header.checksum);
    assert(a.data =~= b.data);
    assert(a.header =~= b.header);
    assert(a =~= b);
}

/// Decrypting a block image with the key that encrypted it restores the
/// image: the keyed transform is an involution.
pub proof fn lemma_cipher_involutes(image: Seq<u8>, key: Seq<u8>)
    ensures
        spec_cipher(spec_cipher(image, key), key) == image,
{
    lemma_xor_with_involutes(image, keystream_of(key));
}

/// Checksum sensitivity: a valid block whose payload suffers any single bit
/// flip no longer validates — the checksum always notices.
pub proof fn lemma_bit_flip_invalidates(b: Block, byte: int, bit: u8)
    requires
        spec_block_valid(b),
        0 <= byte < BLOCK_DATA_SIZE,
        bit < 8,
    ensures
        !spec_block_valid(
            Block {
                header: b.header,
                data: vstd::array::spec_array_update(b.data, byte, b.data@[byte] ^ (1u8 << bit)),
            },
        ),
{
    broadcast use vstd::array::group_array_axioms;

    crate::crc::lemma_crc64_bit_sensitivity(b.data@, byte, bit);
}

/// Round trip: a block decrypted with the key that encrypted it is the
/// original block, for every block and key.  `encrypt` yields the image
/// `spec_cipher(spec_block_bytes(b), key)` and `decrypt` yields the block
/// whose image is the transform of its input, so `d` here is what
/// `b.encrypt(key).decrypt(key)` returns.
pub proof fn lemma_encrypt_decrypt_round_trip(b: Block, d: Block, key: Seq<u8>)
    requires
        spec_block_bytes(d) == spec_cipher(spec_cipher(spec_block_bytes(b), key), key),
    ensures
        d == b,
{
    lemma_cipher_involutes(spec_block_bytes(b), key);
    lemma_block_bytes_injective(d, b);
}

impl Block {
    /// A fresh block: zero payload, no next block, checksum of the zero
    /// payload.
    pub fn new() -> (r: Block)
        ensures
            r.header.next_sector_id == NO_NEXT_BLOCK,
            r.data@ == Seq::new(BLOCK_DATA_SIZE as nat, |i: int| 0u8),
            spec_block_valid(r),
    {
        let header = BlockHeader { next_sector_id: NO_NEXT_BLOCK, checksum: 0 };
        let mut block = Block { header, data: [0u8; BLOCK_DATA_SIZE] };
        block.update_checksum();
        proof {
            assert(block.data@ =~= Seq::new(BLOCK_DATA_SIZE as nat, |i: int| 0u8));
        }
        block
    }

    /// Calculate the checksum for the block: ECMA-182 based CRC64 of the
    /// payload.
    fn calculate_checksum(&self) -> (r: u64)
        ensures
            r == spec_crc64(self.data@),
    {
        crc64(self.data.as_slice())
    }

    /// Store the payload's checksum in the header.
    fn update_checksum(&mut self)
        ensures
            final(self).header.checksum == spec_crc64(old(self).data@),
            final(self).header.next_sector_id == old(self).header.next_sector_id,
            final(self).data == old(self).data,
            spec_block_valid(*final(self)),
    {
        self.header.checksum = self.calculate_checksum()
    }

    /// Tests if the checksum is valid.  This is the only signal that decides
    /// whether a decrypted block is genuinely ours; it reads the block and
    /// nothing else, so repeated calls always agree.
    pub fn validate_checksum(&self) -> (r: bool)
        ensures
            r == spec_block_valid(*self),
    {
        self.calculate_checksum() == self.header.checksum
    }

    /// Replace the payload with `data` and restore the checksum.
    pub fn set_data(&mut self, data: &[u8])
        requires
            data@.len() <= BLOCK_DATA_SIZE,
        ensures
            final(self).data@ == data@ + Seq::new(
                (BLOCK_DATA_SIZE - data@.len()) as nat,
                |i: int| 0u8,
            ),
            final(self).header.next_sector_id == old(self).header.next_sector_id,
            spec_block_valid(*final(self)),
    {
        let mut fresh = [0u8; BLOCK_DATA_SIZE];
        let mut i: usize = 0;
        while i < data.len()
            invariant
                i <= data@.len() <= BLOCK_DATA_SIZE,
                fresh@.len() == BLOCK_DATA_SIZE,
                forall|k: int| 0 <= k < i ==> fresh@[k] == data@[k],
                forall|k: int| i <= k < BLOCK_DATA_SIZE ==> fresh@[k] == 0u8,
            decreases data@.len() - i,
        {
            fresh[i] = data[i];
            i = i + 1;
        }
        self.data = fresh;
        self.update_checksum();
        proof {
            assert(self.data@ =~= data@ + Seq::new(
                (BLOCK_DATA_SIZE - data@.len()) as nat,
                |i: int| 0u8,
            ));
        }
    }

    /// Point this block's chain pointer at `next` and restore the checksum.
    pub fn set_next(&mut self, next: u64)
        ensures
            final(self).header.next_sector_id == next,
            final(self).data == old(self).data,
            spec_block_valid(*final(self)),
    {
        self.header.next_sector_id = next;
        self.update_checksum();
    }

    /// Transform the whole block image under `key`.
    pub fn encrypt(self, key: Key) -> (r: EncryptedBlock)
        ensures
            r@ == spec_cipher(spec_block_bytes(self), key@),
    {
        let bytes = block_to_bytes(&self);
        EncryptedBlock::cipher_bytes(&bytes, &key)
    }

    /// Total size of a block on disk.
    pub fn size() -> (r: usize)
        ensures
            r == BLOCK_SIZE,
    {
        BLOCK_SIZE
    }
}

impl View for EncryptedBlock {
    type V = Seq<u8>;

    closed spec fn view(&self) -> Seq<u8> {
        self.0@
    }
}

impl EncryptedBlock {
    /// An all-zero block image.
    pub fn new() -> (r: EncryptedBlock)
        ensures
            r@ == Seq::new(BLOCK_SIZE as nat, |i: int| 0u8),
    {
        let r = EncryptedBlock([0u8; BLOCK_SIZE]);
        proof {
            assert(r@ =~= Seq::new(BLOCK_SIZE as nat, |i: int| 0u8));
        }
        r
    }

    /// The block image stored in a raw device sector.
    pub fn from_sector(sector: Sector) -> (r: EncryptedBlock)
        ensures
            r@ == sector@,
    {
        EncryptedBlock(sector.into_bytes())
    }

    /// The raw bytes of the image.
    pub fn into_bytes(self) -> (r: [u8; BLOCK_SIZE])
        ensures
            r@ == self@,
    {
        self.0
    }

    /// Build an image from raw bytes.
    pub fn from_bytes(bytes: [u8; BLOCK_SIZE]) -> (r: EncryptedBlock)
        ensures
            r@ == bytes@,
    {
        EncryptedBlock(bytes)
    }

    /// Xors `bytes` with the keystream of `key`.
    fn cipher_bytes(bytes: &Vec<u8>, key: &Key) -> (r: EncryptedBlock)
        requires
            bytes@.len() == BLOCK_SIZE,
        ensures
            r@ == spec_cipher(bytes@, key@),
    {
        let ks = keystream(key);
        let mut out = [0u8; BLOCK_SIZE];
        let mut i: usize = 0;
        while i < BLOCK_SIZE
            invariant
                i <= BLOCK_SIZE,
                bytes@.len() == BLOCK_SIZE,
                ks@.len() == BLOCK_SIZE,
                ks@ == keystream_of(key@),
                out@.len() == BLOCK_SIZE,
                forall|k: int| 0 <= k < i ==> out@[k] == spec_cipher(bytes@, key@)[k],
            decreases BLOCK_SIZE - i,
        {
            out[i] = bytes[i] ^ ks[i];
            i = i + 1;
        }
        let r = EncryptedBlock(out);
        proof {
            assert(r@ =~= spec_cipher(bytes@, key@));
        }
        r
    }

    /// Undo the keyed transform and parse the result as a block.  The caller
    /// does not know ahead of time whether the image belongs to its aspect:
    /// decryption is attempted blindly and the block's own checksum is the
    /// only verdict.
    pub fn decrypt(self, key: Key) -> (r: Block)
        ensures
            spec_block_bytes(r) == spec_cipher(self@, key@),
    {
        let ks = keystream(&key);
        let mut plain: Vec<u8> = Vec::new();
        let mut i: usize = 0;
        while i < BLOCK_SIZE
            invariant
                i <= BLOCK_SIZE,
                self@.len() == BLOCK_SIZE,
                ks@.len() == BLOCK_SIZE,
                ks@ == keystream_of(key@),
                plain@.len() == i,
                forall|k: int| 0 <= k < i ==> plain@[k] == spec_cipher(self@, key@)[k],
            decreases BLOCK_SIZE - i,
        {
            let b = self.byte_at(i);
            plain.push(b ^ ks[i]);
            i = i + 1;
        }
        proof {
            assert(plain@ =~= spec_cipher(self@, key@));
        }
        block_from_bytes(plain.as_slice())
    }

    /// The image byte at `i`.
    fn byte_at(&self, i: usize) -> (r: u8)
        requires
            i < BLOCK_SIZE,
        ensures
            r == self@[i as int],
    {
        self.0[i]
    }
}

} // verus!
