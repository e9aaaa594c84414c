//! Aspects: keyword-addressed logical volumes over one shared extent.
//!
//! An aspect is a flat, appendable chain of blocks.  Its first block — the
//! seed — sits at a position derived from the keyword, shifted forward by
//! deterministic probing when that position was already taken; every later
//! block is reached through the chain pointer of its predecessor.  Nothing on
//! disk names the aspect: loading probes from the derived position, decrypts
//! blindly with the keyword's first block key, and accepts the first block
//! whose checksum validates.  A keyword that finds nothing is reported
//! absent, never distinguished from one that was wrong.

use crate::block::{
    spec_block_bytes, spec_block_valid, spec_cipher, Block, BlockHeader, BLOCK_SIZE, NO_NEXT_BLOCK,
};
use crate::bytes::be_value;
use crate::crc::spec_crc64;
use crate::device::BlockDevice;
use crate::extent::{first_free_from, Extent, ExtentHandle};
use crate::keyword::{block_key_of, Key, Keyword};
use vstd::prelude::*;
use vstd::set_lib::{lemma_int_range, lemma_len_subset, set_int_range};

verus! {

/// What can go wrong at the aspect layer.
#[derive(Clone, Copy, Debug, PartialEq, Eq, Structural)]
pub enum Error {
    /// The seed could not be located: no block decodes and validates under
    /// the keyword anywhere in the extent.
    SeedNotFound,
    /// A decoded chain pointer is bad: out of range, part of a cycle, or
    /// pointing at a block that does not validate.
    BadPointer,
    /// A block of the known chain failed validation on a targeted re-check.
    BadSuperBlock,
    /// Every block of the extent is reserved; nothing can be allocated.
    ExtentFull,
}

/// The plaintext a stored block image yields under `key`.
pub open spec fn decoded_bytes(stored: Seq<u8>, key: Seq<u8>) -> Seq<u8> {
    spec_cipher(stored, key)
}

/// Whether the image decodes to a genuine block under `key`: the checksum
/// field of the plaintext matches the checksum of its payload.
pub open spec fn decoded_valid(stored: Seq<u8>, key: Seq<u8>) -> bool {
    let p = decoded_bytes(stored, key);
    be_value(p.subrange(8, 16)) == spec_crc64(p.subrange(16, BLOCK_SIZE as int)) as nat
}

/// The chain pointer the image yields under `key`.
pub open spec fn decoded_next(stored: Seq<u8>, key: Seq<u8>) -> u64 {
    be_value(decoded_bytes(stored, key).subrange(0, 8)) as u64
}

/// Decrypting an image and validating the result is exactly the spec-level
/// decode test, and the decrypted header carries the spec-level pointer.
pub proof fn lemma_decrypt_decodes(stored: Seq<u8>, key: Seq<u8>, b: Block)
    requires
        spec_block_bytes(b) == spec_cipher(stored, key),
    ensures
        spec_block_valid(b) == decoded_valid(stored, key),
        b.header.next_sector_id == decoded_next(stored, key),
{
    crate::block::lemma_block_fields(b);
}

/// The first position at or after `start` (probing forward, wrapping at the
/// end of the extent) whose block decodes and validates under the keyword's
/// first block key; `None` when `fuel` probes find nothing.
pub open spec fn spec_find_seed(dev: Seq<Seq<u8>>, hash: Seq<u8>, start: u64, fuel: nat) -> Option<
    u64,
>
    recommends
        (start as int) < dev.len(),
    decreases fuel,
{
    if fuel == 0 {
        None
    } else if (start as int) < dev.len() && decoded_valid(dev[start as int], block_key_of(hash, 0)) {
        Some(start)
    } else {
        let next = if (start as int) + 1 < dev.len() {
            (start + 1) as u64
        } else {
            0
        };
        spec_find_seed(dev, hash, next, (fuel - 1) as nat)
    }
}

/// A found seed is in range and decodes under the first block key.
pub proof fn lemma_found_seed_decodes(dev: Seq<Seq<u8>>, hash: Seq<u8>, start: u64, fuel: nat)
    requires
        (start as int) < dev.len(),
        spec_find_seed(dev, hash, start, fuel) is Some,
    ensures
        ({
            let s = spec_find_seed(dev, hash, start, fuel)->0;
            (s as int) < dev.len() && decoded_valid(dev[s as int], block_key_of(hash, 0))
        }),
    decreases fuel,
{
    if fuel > 0 && !decoded_valid(dev[start as int], block_key_of(hash, 0)) {
        let next = if (start as int) + 1 < dev.len() {
            (start + 1) as u64
        } else {
            0
        };
        lemma_found_seed_decodes(dev, hash, next, (fuel - 1) as nat);
    }
}

/// One step of the chain walk, continued: the addresses collected so far,
/// the pointer decoded from the last of them, and the probes left.  The walk
/// ends at the sentinel pointer; a pointer that leaves the extent, revisits
/// a collected address, or reaches a block that does not validate under the
/// next position's key surfaces `BadPointer` — never an unbounded traversal
/// or an out-of-range access.
pub open spec fn spec_walk(
    dev: Seq<Seq<u8>>,
    hash: Seq<u8>,
    addrs: Seq<u64>,
    ptr: u64,
    fuel: nat,
) -> Result<Seq<u64>, Error>
    decreases fuel,
{
    if ptr == NO_NEXT_BLOCK {
        Ok(addrs)
    } else if (ptr as int) >= dev.len() {
        Err(Error::BadPointer)
    } else if addrs.contains(ptr) {
        Err(Error::BadPointer)
    } else if fuel == 0 {
        Err(Error::BadPointer)
    } else {
        let key = block_key_of(hash, addrs.len() as u64);
        if !decoded_valid(dev[ptr as int], key) {
            Err(Error::BadPointer)
        } else {
            spec_walk(
                dev,
                hash,
                addrs.push(ptr),
                decoded_next(dev[ptr as int], key),
                (fuel - 1) as nat,
            )
        }
    }
}

/// A well-formed chain on a device: every address in range, no address
/// repeated, every block validating under the key of its position, every
/// pointer naming its successor, and the last pointer the sentinel.
pub open spec fn is_chain(dev: Seq<Seq<u8>>, hash: Seq<u8>, addrs: Seq<u64>) -> bool {
    &&& forall|i: int| 0 <= i < addrs.len() ==> (#[trigger] addrs[i] as int) < dev.len()
    &&& forall|i: int, j: int| 0 <= i < j < addrs.len() ==> addrs[i] != addrs[j]
    &&& forall|i: int|
        0 <= i < addrs.len() ==> decoded_valid(
            dev[#[trigger] addrs[i] as int],
            block_key_of(hash, i as u64),
        )
    &&& forall|i: int|
        0 <= i < addrs.len() - 1 ==> decoded_next(
            dev[#[trigger] addrs[i] as int],
            block_key_of(hash, i as u64),
        ) == addrs[i + 1]
    &&& addrs.len() > 0 ==> decoded_next(
        dev[addrs.last() as int],
        block_key_of(hash, (addrs.len() - 1) as u64),
    ) == NO_NEXT_BLOCK
}

/// Chain integrity: walking a well-formed chain of N blocks from its head
/// visits exactly those N blocks, in order, and terminates at the sentinel.
/// Stated over any prefix already visited, so it applies at every stage of
/// the walk.
pub proof fn lemma_walk_visits_chain(
    dev: Seq<Seq<u8>>,
    hash: Seq<u8>,
    addrs: Seq<u64>,
    k: int,
    fuel: nat,
)
    requires
        is_chain(dev, hash, addrs),
        dev.len() <= u64::MAX,
        1 <= k <= addrs.len(),
        fuel >= addrs.len() - k,
    ensures
        spec_walk(
            dev,
            hash,
            addrs.take(k),
            if k == addrs.len() {
                NO_NEXT_BLOCK
            } else {
                addrs[k]
            },
            fuel,
        ) == Ok::<Seq<u64>, Error>(addrs),
    decreases addrs.len() - k,
{
    if k == addrs.len() {
        assert(addrs.take(k) =~= addrs);
    } else {
        let ptr = addrs[k];
        assert((ptr as int) < dev.len());
        assert(ptr != NO_NEXT_BLOCK) by {
            assert((ptr as int) < dev.len() <= u64::MAX);
        }
        assert(!addrs.take(k).contains(ptr)) by {
            if addrs.take(k).contains(ptr) {
                let j = choose|j: int| 0 <= j < k && addrs.take(k)[j] == ptr;
                assert(addrs[j] == addrs[k]);
            }
        }
        assert(addrs.take(k).len() == k);
        let key = block_key_of(hash, k as u64);
        assert(decoded_valid(dev[ptr as int], key));
        assert(addrs.take(k).push(ptr) =~= addrs.take(k + 1));
        assert(decoded_next(dev[ptr as int], key) == if k + 1 == addrs.len() {
            NO_NEXT_BLOCK
        } else {
            addrs[k + 1]
        }) by {
            if k + 1 == addrs.len() {
                assert(addrs.last() == addrs[k]);
            }
        }
        lemma_walk_visits_chain(dev, hash, addrs, k + 1, (fuel - 1) as nat);
    }
}

/// The walk fails in only one way: `BadPointer`.
pub proof fn lemma_walk_err_is_bad_pointer(
    dev: Seq<Seq<u8>>,
    hash: Seq<u8>,
    addrs: Seq<u64>,
    ptr: u64,
    fuel: nat,
)
    ensures
        spec_walk(dev, hash, addrs, ptr, fuel) matches Err(e) ==> e == Error::BadPointer,
    decreases fuel,
{
    if ptr != NO_NEXT_BLOCK && (ptr as int) < dev.len() && !addrs.contains(ptr) && fuel > 0 {
        let key = block_key_of(hash, addrs.len() as u64);
        if decoded_valid(dev[ptr as int], key) {
            lemma_walk_err_is_bad_pointer(
                dev,
                hash,
                addrs.push(ptr),
                decoded_next(dev[ptr as int], key),
                (fuel - 1) as nat,
            );
        }
    }
}

/// What the engine writes, it finds again: walking from the head of a
/// well-formed chain — as `write_chain_seed` and `append_chain_block` leave
/// it — recovers exactly the chain's addresses.
pub proof fn lemma_load_recovers_chain(dev: Seq<Seq<u8>>, hash: Seq<u8>, addrs: Seq<u64>, fuel: nat)
    requires
        is_chain(dev, hash, addrs),
        addrs.len() >= 1,
        dev.len() <= u64::MAX,
        fuel >= addrs.len() - 1,
    ensures
        spec_walk(
            dev,
            hash,
            seq![addrs[0]],
            decoded_next(dev[addrs[0] as int], block_key_of(hash, 0)),
            fuel,
        ) == Ok::<Seq<u64>, Error>(addrs),
{
    assert(seq![addrs[0]] =~= addrs.take(1));
    if addrs.len() == 1 {
        assert(addrs.last() == addrs[0]);
    }
    lemma_walk_visits_chain(dev, hash, addrs, 1, fuel);
}

/// A chain never holds more blocks than the extent: its addresses are
/// distinct and all lie inside the device.
pub proof fn lemma_chain_len_bounded(dev: Seq<Seq<u8>>, hash: Seq<u8>, addrs: Seq<u64>)
    requires
        is_chain(dev, hash, addrs),
    ensures
        addrs.len() <= dev.len(),
{
    let ints = addrs.map_values(|x: u64| x as int);
    assert(ints.no_duplicates()) by {
        assert forall|i: int, j: int|
            0 <= i < ints.len() && 0 <= j < ints.len() && i != j implies ints[i] != ints[j] by {
            if i < j {
                assert(addrs[i] != addrs[j]);
            } else {
                assert(addrs[j] != addrs[i]);
            }
        }
    }
    ints.unique_seq_to_set();
    let range = set_int_range(0, dev.len() as int);
    lemma_int_range(0, dev.len() as int);
    assert(ints.to_set().subset_of(range)) by {
        assert forall|x: int| ints.to_set().contains(x) implies range.contains(x) by {
            let idx = choose|idx: int| 0 <= idx < ints.len() && ints[idx] == x;
            assert((addrs[idx] as int) < dev.len());
        }
    }
    lemma_len_subset(ints.to_set(), range);
}

/// Chain recovery by keyword: when the seed probe over the whole extent
/// lands on the head of a well-formed chain, the walk that loading performs
/// — with the extent's block count as fuel, which a chain can never exhaust
/// — returns exactly the chain's addresses, in order.  The probe premise is
/// inherent to the property: an alien block that by chance validated under
/// the keyword's first block key at an earlier probe position would divert
/// the probe.
pub proof fn lemma_load_finds_whole_chain(
    dev: Seq<Seq<u8>>,
    hash: Seq<u8>,
    addrs: Seq<u64>,
    n: nat,
)
    requires
        is_chain(dev, hash, addrs),
        addrs.len() >= 1,
        dev.len() == n,
        n <= u64::MAX,
        spec_find_seed(dev, hash, (be_value(hash) % n) as u64, n) == Some(addrs[0]),
    ensures
        spec_walk(
            dev,
            hash,
            seq![addrs[0]],
            decoded_next(dev[addrs[0] as int], block_key_of(hash, 0)),
            n,
        ) == Ok::<Seq<u64>, Error>(addrs),
{
    lemma_chain_len_bounded(dev, hash, addrs);
    lemma_load_recovers_chain(dev, hash, addrs, n);
}

/// A pointer that leaves the extent surfaces `BadPointer` at once.
pub proof fn lemma_walk_rejects_out_of_range(
    dev: Seq<Seq<u8>>,
    hash: Seq<u8>,
    addrs: Seq<u64>,
    ptr: u64,
    fuel: nat,
)
    requires
        ptr != NO_NEXT_BLOCK,
        (ptr as int) >= dev.len(),
    ensures
        spec_walk(dev, hash, addrs, ptr, fuel) == Err::<Seq<u64>, Error>(Error::BadPointer),
{
}

/// A pointer that revisits a block already walked surfaces `BadPointer` at
/// once: a cycle never causes an unbounded traversal.
pub proof fn lemma_walk_rejects_cycle(
    dev: Seq<Seq<u8>>,
    hash: Seq<u8>,
    addrs: Seq<u64>,
    ptr: u64,
    fuel: nat,
)
    requires
        ptr != NO_NEXT_BLOCK,
        (ptr as int) < dev.len(),
        addrs.contains(ptr),
    ensures
        spec_walk(dev, hash, addrs, ptr, fuel) == Err::<Seq<u64>, Error>(Error::BadPointer),
{
}

/// `content` as the chain engine stores it: the chain pointer set to `next`
/// and the checksum restored over the payload.
pub open spec fn sealed_block(content: Block, next: u64) -> Block {
    Block {
        header: BlockHeader { next_sector_id: next, checksum: spec_crc64(content.data@) },
        data: content.data,
    }
}

/// Extending a chain by one block keeps it well formed: with the old tail
/// repointed at a fresh block that validates under the next position's key
/// and carries the sentinel, and every other block untouched, the extended
/// address sequence is again a chain.
pub proof fn lemma_append_extends_chain(
    old_dev: Seq<Seq<u8>>,
    new_dev: Seq<Seq<u8>>,
    hash: Seq<u8>,
    addrs: Seq<u64>,
    new_addr: u64,
)
    requires
        is_chain(old_dev, hash, addrs),
        addrs.len() >= 1,
        new_dev.len() == old_dev.len(),
        (new_addr as int) < old_dev.len(),
        !addrs.contains(new_addr),
        forall|b: int|
            0 <= b < old_dev.len() && b != addrs.last() as int && b != new_addr as int
                ==> #[trigger] new_dev[b] == old_dev[b],
        decoded_valid(new_dev[addrs.last() as int], block_key_of(hash, (addrs.len() - 1) as u64)),
        decoded_next(new_dev[addrs.last() as int], block_key_of(hash, (addrs.len() - 1) as u64))
            == new_addr,
        decoded_valid(new_dev[new_addr as int], block_key_of(hash, addrs.len() as u64)),
        decoded_next(new_dev[new_addr as int], block_key_of(hash, addrs.len() as u64))
            == NO_NEXT_BLOCK,
    ensures
        is_chain(new_dev, hash, addrs.push(new_addr)),
{
    let s = addrs.push(new_addr);
    let m = addrs.len() as int;
    assert forall|i: int| 0 <= i < s.len() implies (#[trigger] s[i] as int) < new_dev.len() by {
        if i < m {
            assert(addrs[i] == s[i]);
        }
    }
    assert forall|i: int, j: int| 0 <= i < j < s.len() implies s[i] != s[j] by {
        if j < m {
            assert(addrs[i] == s[i] && addrs[j] == s[j]);
        } else {
            assert(s[j] == new_addr);
            assert(addrs[i] == s[i]);
            assert(addrs.contains(addrs[i]));
        }
    }
    assert forall|i: int|
        0 <= i < s.len() implies decoded_valid(
        new_dev[#[trigger] s[i] as int],
        block_key_of(hash, i as u64),
    ) by {
        if i < m - 1 {
            assert(addrs[i] != addrs.last() && addrs[i] != new_addr);
            assert(new_dev[s[i] as int] == old_dev[addrs[i] as int]);
        } else if i == m - 1 {
            assert(s[i] == addrs.last());
        } else {
            assert(s[i] == new_addr);
        }
    }
    assert forall|i: int|
        0 <= i < s.len() - 1 implies decoded_next(
        new_dev[#[trigger] s[i] as int],
        block_key_of(hash, i as u64),
    ) == s[i + 1] by {
        if i < m - 1 {
            assert(addrs[i] != addrs.last() && addrs[i] != new_addr);
            assert(new_dev[s[i] as int] == old_dev[addrs[i] as int]);
            assert(s[i + 1] == addrs[i + 1]);
        } else {
            assert(s[i] == addrs.last() && s[i + 1] == new_addr);
        }
    }
    assert(s.last() == new_addr);
    assert(decoded_next(new_dev[s.last() as int], block_key_of(hash, (s.len() - 1) as u64))
        == NO_NEXT_BLOCK);
}

/// Relocating one block keeps the chain well formed: with the block's new
/// home validating under the same position key and carrying the same
/// pointer, the predecessor — when the block has one — repointed at the new
/// home, and every other chain block untouched, the address sequence with
/// that one position replaced is again a chain.
pub proof fn lemma_move_preserves_chain(
    old_dev: Seq<Seq<u8>>,
    new_dev: Seq<Seq<u8>>,
    hash: Seq<u8>,
    addrs: Seq<u64>,
    k: int,
    new_addr: u64,
)
    requires
        is_chain(old_dev, hash, addrs),
        0 <= k < addrs.len(),
        new_dev.len() == old_dev.len(),
        (new_addr as int) < old_dev.len(),
        !addrs.contains(new_addr),
        decoded_valid(new_dev[new_addr as int], block_key_of(hash, k as u64)),
        decoded_next(new_dev[new_addr as int], block_key_of(hash, k as u64)) == decoded_next(
            old_dev[addrs[k] as int],
            block_key_of(hash, k as u64),
        ),
        k == 0 ==> forall|b: int|
            0 <= b < old_dev.len() && b != new_addr as int ==> #[trigger] new_dev[b] == old_dev[b],
        k > 0 ==> ({
            &&& decoded_valid(new_dev[addrs[k - 1] as int], block_key_of(hash, (k - 1) as u64))
            &&& decoded_next(new_dev[addrs[k - 1] as int], block_key_of(hash, (k - 1) as u64))
                == new_addr
            &&& forall|b: int|
                0 <= b < old_dev.len() && b != new_addr as int && b != addrs[k - 1] as int
                    ==> #[trigger] new_dev[b] == old_dev[b]
        }),
    ensures
        is_chain(new_dev, hash, addrs.update(k, new_addr)),
{
    let s = addrs.update(k, new_addr);
    let m = addrs.len() as int;
    assert forall|i: int| 0 <= i < s.len() implies (#[trigger] s[i] as int) < new_dev.len() by {
        if i != k {
            assert(s[i] == addrs[i]);
        }
    }
    assert forall|i: int, j: int| 0 <= i < j < s.len() implies s[i] != s[j] by {
        if i != k && j != k {
            assert(s[i] == addrs[i] && s[j] == addrs[j]);
        } else if i == k {
            assert(s[j] == addrs[j] && addrs.contains(addrs[j]));
        } else {
            assert(s[i] == addrs[i] && addrs.contains(addrs[i]));
        }
    }
    assert forall|i: int|
        0 <= i < s.len() implies decoded_valid(
        new_dev[#[trigger] s[i] as int],
        block_key_of(hash, i as u64),
    ) by {
        if i == k {
        } else if i == k - 1 {
            assert(s[i] == addrs[i]);
        } else {
            assert(s[i] == addrs[i]);
            assert(addrs[i] != new_addr) by {
                assert(addrs.contains(addrs[i]));
            }
            assert(k > 0 ==> addrs[i] != addrs[k - 1]);
            assert(new_dev[addrs[i] as int] == old_dev[addrs[i] as int]);
        }
    }
    assert forall|i: int|
        0 <= i < s.len() - 1 implies decoded_next(
        new_dev[#[trigger] s[i] as int],
        block_key_of(hash, i as u64),
    ) == s[i + 1] by {
        if i == k {
            assert(s[i + 1] == addrs[i + 1]);
        } else if i == k - 1 {
            assert(s[i] == addrs[i] && s[i + 1] == new_addr);
        } else {
            assert(s[i] == addrs[i]);
            assert(addrs[i] != new_addr) by {
                assert(addrs.contains(addrs[i]));
            }
            assert(k > 0 ==> addrs[i] != addrs[k - 1]);
            assert(new_dev[addrs[i] as int] == old_dev[addrs[i] as int]);
            assert(i + 1 != k);
            assert(s[i + 1] == addrs[i + 1]);
        }
    }
    assert(s.len() > 0);
    assert(decoded_next(new_dev[s.last() as int], block_key_of(hash, (s.len() - 1) as u64))
        == NO_NEXT_BLOCK) by {
        if k == m - 1 {
            assert(s.last() == new_addr);
            assert(addrs.last() == addrs[k]);
        } else {
            assert(s.last() == addrs[m - 1]);
            assert(addrs.contains(addrs[m - 1]));
            assert(addrs[m - 1] != new_addr);
            assert(k > 0 ==> addrs[m - 1] != addrs[k - 1]);
            assert(new_dev[addrs[m - 1] as int] == old_dev[addrs[m - 1] as int]);
            assert(addrs.last() == addrs[m - 1]);
        }
    }
}

/// Place `content` as the seed block of a new chain for `keyword`: the first
/// free position probing forward from the keyword's derived seed index is
/// reserved, and the block — repointed to the sentinel, its checksum
/// restored — is written there encrypted under the key of chain position
/// zero.  The written position carries a well-formed one-block chain.  Fails
/// only when every block of the extent is reserved, leaving it untouched.
pub fn write_chain_seed<T: BlockDevice>(
    extent: &mut Extent<T>,
    keyword: &Keyword,
    content: Block,
) -> (r: Result<u64, Error>)
    requires
        old(extent).inv(),
        old(extent).spec_n_blocks() > 0,
    ensures
        final(extent).inv(),
        final(extent).spec_n_blocks() == old(extent).spec_n_blocks(),
        ({
            let n = old(extent).spec_n_blocks();
            let hash = keyword.spec_hash();
            let start = (be_value(hash) % n) as int;
            match r {
                Ok(seed) => {
                    &&& (seed as nat) < n
                    &&& !old(extent).bits()[seed as int]
                    &&& final(extent).bits() == old(extent).bits().update(seed as int, true)
                    &&& Some(seed as int) == first_free_from(old(extent).bits(), start, n)
                    &&& final(extent).blocks() == old(extent).blocks().update(
                        seed as int,
                        spec_cipher(
                            spec_block_bytes(sealed_block(content, NO_NEXT_BLOCK)),
                            block_key_of(hash, 0),
                        ),
                    )
                    &&& is_chain(final(extent).blocks(), hash, seq![seed])
                },
                Err(e) => {
                    &&& e == Error::ExtentFull
                    &&& final(extent).bits() == old(extent).bits()
                    &&& final(extent).blocks() == old(extent).blocks()
                    &&& first_free_from(old(extent).bits(), start, n) is None
                },
            }
        }),
{
    let n = extent.n_blocks();
    let start = keyword.seed_index(n);
    match extent.alloc_next_block(start) {
        None => Err(Error::ExtentFull),
        Some(seed) => {
            let mut body = content;
            body.set_next(NO_NEXT_BLOCK);
            let key0 = keyword.block_key(0);
            let image = body.encrypt(key0);
            let _ = extent.write_block(seed, image);
            proof {
                let hash = keyword.spec_hash();
                let sealed = sealed_block(content, NO_NEXT_BLOCK);
                assert(body =~= sealed);
                crate::block::lemma_cipher_involutes(spec_block_bytes(sealed), block_key_of(hash, 0));
                lemma_decrypt_decodes(image@, block_key_of(hash, 0), sealed);
                let s = seq![seed];
                assert(s.last() == seed && s[0] == seed);
                assert(is_chain(extent.blocks(), hash, s));
            }
            Ok(seed)
        },
    }
}

/// Append `content` past the tail of the chain `addrs` of `keyword`: a
/// fresh block is reserved probing forward from the tail's own address, the
/// tail is repointed at it and rewritten, and the new block is written with
/// the sentinel pointer, each block encrypted under the key of its own chain
/// position.  The tail must decode and validate under its position's key —
/// checked against the device, and surfaced as `BadPointer` when it does
/// not, with the extent left untouched.
pub fn append_chain_block<T: BlockDevice>(
    extent: &mut Extent<T>,
    keyword: &Keyword,
    addrs: &Vec<u64>,
    content: Block,
) -> (r: Result<u64, Error>)
    requires
        old(extent).inv(),
        addrs@.len() >= 1,
        forall|i: int|
            0 <= i < addrs@.len() ==> (#[trigger] addrs@[i] as nat) < old(
                extent,
            ).spec_n_blocks(),
    ensures
        final(extent).inv(),
        final(extent).spec_n_blocks() == old(extent).spec_n_blocks(),
        ({
            let n = old(extent).spec_n_blocks();
            let hash = keyword.spec_hash();
            let m = addrs@.len();
            let tail = addrs@.last();
            let tail_key = block_key_of(hash, (m - 1) as u64);
            let new_key = block_key_of(hash, m as u64);
            match r {
                Ok(new_addr) => {
                    &&& (new_addr as nat) < n
                    &&& new_addr != tail
                    &&& old(extent).bits()[tail as int]
                    &&& !old(extent).bits()[new_addr as int]
                    &&& final(extent).bits() == old(extent).bits().update(new_addr as int, true)
                    &&& decoded_valid(old(extent).blocks()[tail as int], tail_key)
                    &&& forall|b: int|
                        0 <= b < n && b != tail as int && b != new_addr as int
                            ==> #[trigger] final(extent).blocks()[b] == old(extent).blocks()[b]
                    &&& decoded_valid(final(extent).blocks()[tail as int], tail_key)
                    &&& decoded_next(final(extent).blocks()[tail as int], tail_key) == new_addr
                    &&& decoded_bytes(final(extent).blocks()[tail as int], tail_key).subrange(
                        16,
                        BLOCK_SIZE as int,
                    ) == decoded_bytes(old(extent).blocks()[tail as int], tail_key).subrange(
                        16,
                        BLOCK_SIZE as int,
                    )
                    &&& decoded_valid(final(extent).blocks()[new_addr as int], new_key)
                    &&& decoded_next(final(extent).blocks()[new_addr as int], new_key)
                        == NO_NEXT_BLOCK
                    &&& decoded_bytes(final(extent).blocks()[new_addr as int], new_key).subrange(
                        16,
                        BLOCK_SIZE as int,
                    ) == content.data@
                },
                Err(e) => {
                    &&& final(extent).bits() == old(extent).bits()
                    &&& final(extent).blocks() == old(extent).blocks()
                    &&& e == Error::ExtentFull || e == Error::BadPointer
                    &&& e == Error::ExtentFull ==> first_free_from(
                        old(extent).bits(),
                        tail as int,
                        n,
                    ) is None
                    &&& e == Error::BadPointer ==> (!decoded_valid(
                        old(extent).blocks()[tail as int],
                        tail_key,
                    ) || !old(extent).bits()[tail as int])
                },
            }
        }),
{
    let m = addrs.len();
    let tail = addrs[m - 1];
    let ghost hash = keyword.spec_hash();
    let tail_key = keyword.block_key((m - 1) as u64);
    match extent.alloc_next_block(tail) {
        None => Err(Error::ExtentFull),
        Some(new_addr) => {
            if new_addr == tail {
                // The chain's own tail was not reserved: the session state
                // is inconsistent with the bitmap.
                extent.deallocate_block(new_addr);
                proof {
                    assert(extent.bits() =~= old(extent).bits());
                }
                return Err(Error::BadPointer);
            }
            let tail_image = extent.read_block(tail);
            let mut tail_block = tail_image.decrypt(tail_key);
            proof {
                lemma_decrypt_decodes(
                    old(extent).blocks()[tail as int],
                    block_key_of(hash, (m - 1) as u64),
                    tail_block,
                );
            }
            if !tail_block.validate_checksum() {
                extent.deallocate_block(new_addr);
                proof {
                    assert(extent.bits() =~= old(extent).bits());
                }
                return Err(Error::BadPointer);
            }
            let ghost tail_decoded = tail_block;
            tail_block.set_next(new_addr);
            let tail_out = tail_block.encrypt(tail_key);
            let _ = extent.write_block(tail, tail_out);
            let mut fresh = content;
            fresh.set_next(NO_NEXT_BLOCK);
            let new_key = keyword.block_key(m as u64);
            let new_out = fresh.encrypt(new_key);
            let _ = extent.write_block(new_addr, new_out);
            proof {
                let tk = block_key_of(hash, (m - 1) as u64);
                let nk = block_key_of(hash, m as u64);
                let relinked = sealed_block(tail_decoded, new_addr);
                assert(tail_block =~= relinked);
                crate::block::lemma_cipher_involutes(spec_block_bytes(relinked), tk);
                lemma_decrypt_decodes(tail_out@, tk, relinked);
                crate::block::lemma_block_fields(relinked);
                crate::block::lemma_block_fields(tail_decoded);
                let sealed = sealed_block(content, NO_NEXT_BLOCK);
                assert(fresh =~= sealed);
                crate::block::lemma_cipher_involutes(spec_block_bytes(sealed), nk);
                lemma_decrypt_decodes(new_out@, nk, sealed);
                crate::block::lemma_block_fields(sealed);
            }
            Ok(new_addr)
        },
    }
}

/// Relocate the chain block at position `block_id` of `addrs` to the first
/// free position probing forward from `hint`: the block's content — payload
/// and chain pointer alike — is re-encrypted under its own position key at
/// the new address, the predecessor (when the block has one) is repointed at
/// it and rewritten, and only after both writes is the old address freed;
/// the old block's image is never touched, so it stays readable until the
/// relocation is complete.  The moved block and its predecessor must decode
/// and validate under their position keys — checked against the device, and
/// surfaced as `BadPointer` when they do not, with the extent left
/// untouched.
pub fn move_chain_block<T: BlockDevice>(
    extent: &mut Extent<T>,
    keyword: &Keyword,
    addrs: &Vec<u64>,
    block_id: u64,
    hint: u64,
) -> (r: Result<u64, Error>)
    requires
        old(extent).inv(),
        (block_id as nat) < addrs@.len(),
        (hint as nat) < old(extent).spec_n_blocks(),
        forall|i: int|
            0 <= i < addrs@.len() ==> (#[trigger] addrs@[i] as nat) < old(
                extent,
            ).spec_n_blocks(),
    ensures
        final(extent).inv(),
        final(extent).spec_n_blocks() == old(extent).spec_n_blocks(),
        ({
            let n = old(extent).spec_n_blocks();
            let hash = keyword.spec_hash();
            let a = addrs@[block_id as int];
            let key = block_key_of(hash, block_id);
            match r {
                Ok(new_addr) => {
                    &&& (new_addr as nat) < n
                    &&& new_addr != a
                    &&& !old(extent).bits()[new_addr as int]
                    &&& Some(new_addr as int) == first_free_from(
                        old(extent).bits(),
                        hint as int,
                        n,
                    )
                    &&& final(extent).bits() == old(extent).bits().update(
                        new_addr as int,
                        true,
                    ).update(a as int, false)
                    &&& decoded_valid(old(extent).blocks()[a as int], key)
                    &&& final(extent).blocks()[a as int] == old(extent).blocks()[a as int]
                    &&& decoded_valid(final(extent).blocks()[new_addr as int], key)
                    &&& decoded_next(final(extent).blocks()[new_addr as int], key) == decoded_next(
                        old(extent).blocks()[a as int],
                        key,
                    )
                    &&& decoded_bytes(final(extent).blocks()[new_addr as int], key).subrange(
                        16,
                        BLOCK_SIZE as int,
                    ) == decoded_bytes(old(extent).blocks()[a as int], key).subrange(
                        16,
                        BLOCK_SIZE as int,
                    )
                    &&& block_id == 0 ==> forall|b: int|
                        0 <= b < n && b != new_addr as int ==> #[trigger] final(extent).blocks()[b]
                            == old(extent).blocks()[b]
                    &&& block_id > 0 ==> ({
                        let p = addrs@[block_id as int - 1];
                        let prev_key = block_key_of(hash, (block_id - 1) as u64);
                        &&& p != a
                        &&& p != new_addr
                        &&& decoded_valid(old(extent).blocks()[p as int], prev_key)
                        &&& decoded_valid(final(extent).blocks()[p as int], prev_key)
                        &&& decoded_next(final(extent).blocks()[p as int], prev_key) == new_addr
                        &&& decoded_bytes(final(extent).blocks()[p as int], prev_key).subrange(
                            16,
                            BLOCK_SIZE as int,
                        ) == decoded_bytes(old(extent).blocks()[p as int], prev_key).subrange(
                            16,
                            BLOCK_SIZE as int,
                        )
                        &&& forall|b: int|
                            0 <= b < n && b != new_addr as int && b != p as int
                                ==> #[trigger] final(extent).blocks()[b] == old(
                                extent,
                            ).blocks()[b]
                    })
                },
                Err(e) => {
                    &&& final(extent).bits() == old(extent).bits()
                    &&& final(extent).blocks() == old(extent).blocks()
                    &&& e == Error::ExtentFull || e == Error::BadPointer
                    &&& e == Error::ExtentFull ==> first_free_from(
                        old(extent).bits(),
                        hint as int,
                        n,
                    ) is None
                    &&& e == Error::BadPointer ==> (!decoded_valid(
                        old(extent).blocks()[a as int],
                        key,
                    ) || !old(extent).bits()[a as int] || (block_id > 0 && ({
                        let p = addrs@[block_id as int - 1];
                        p == a || !old(extent).bits()[p as int] || !decoded_valid(
                            old(extent).blocks()[p as int],
                            block_key_of(hash, (block_id - 1) as u64),
                        )
                    })))
                },
            }
        }),
{
    let n_addrs = addrs.len();
    let a = addrs[block_id as usize];
    let ghost hash = keyword.spec_hash();
    let key = keyword.block_key(block_id);
    // The block being moved must be genuine.
    let image = extent.read_block(a);
    let block = image.decrypt(key);
    proof {
        lemma_decrypt_decodes(old(extent).blocks()[a as int], block_key_of(hash, block_id), block);
    }
    if !block.validate_checksum() {
        return Err(Error::BadPointer);
    }
    match extent.alloc_next_block(hint) {
        None => Err(Error::ExtentFull),
        Some(new_addr) => {
            if new_addr == a {
                // The block's own address was not reserved: the session
                // state is inconsistent with the bitmap.
                extent.deallocate_block(new_addr);
                proof {
                    assert(extent.bits() =~= old(extent).bits());
                }
                return Err(Error::BadPointer);
            }
            if block_id > 0 {
                let p = addrs[(block_id - 1) as usize];
                if p == a || p == new_addr {
                    extent.deallocate_block(new_addr);
                    proof {
                        assert(extent.bits() =~= old(extent).bits());
                    }
                    return Err(Error::BadPointer);
                }
                let prev_key = keyword.block_key(block_id - 1);
                let prev_image = extent.read_block(p);
                let mut prev = prev_image.decrypt(prev_key);
                proof {
                    lemma_decrypt_decodes(
                        old(extent).blocks()[p as int],
                        block_key_of(hash, (block_id - 1) as u64),
                        prev,
                    );
                }
                if !prev.validate_checksum() {
                    extent.deallocate_block(new_addr);
                    proof {
                        assert(extent.bits() =~= old(extent).bits());
                    }
                    return Err(Error::BadPointer);
                }
                // The new home is written first, then the predecessor's
                // pointer; the old block is freed only after both.
                let moved_out = block.encrypt(key);
                let _ = extent.write_block(new_addr, moved_out);
                let ghost prev_decoded = prev;
                prev.set_next(new_addr);
                let prev_out = prev.encrypt(prev_key);
                let _ = extent.write_block(p, prev_out);
                extent.deallocate_block(a);
                proof {
                    let pk = block_key_of(hash, (block_id - 1) as u64);
                    crate::block::lemma_cipher_involutes(spec_block_bytes(block), block_key_of(hash, block_id));
                    lemma_decrypt_decodes(moved_out@, block_key_of(hash, block_id), block);
                    crate::block::lemma_block_fields(block);
                    let relinked = sealed_block(prev_decoded, new_addr);
                    assert(prev =~= relinked);
                    crate::block::lemma_cipher_involutes(spec_block_bytes(relinked), pk);
                    lemma_decrypt_decodes(prev_out@, pk, relinked);
                    crate::block::lemma_block_fields(relinked);
                    crate::block::lemma_block_fields(prev_decoded);
                }
                Ok(new_addr)
            } else {
                let moved_out = block.encrypt(key);
                let _ = extent.write_block(new_addr, moved_out);
                extent.deallocate_block(a);
                proof {
                    crate::block::lemma_cipher_involutes(spec_block_bytes(block), block_key_of(hash, block_id));
                    lemma_decrypt_decodes(moved_out@, block_key_of(hash, block_id), block);
                    crate::block::lemma_block_fields(block);
                }
                Ok(new_addr)
            }
        },
    }
}

/// Does the vector hold `x`?
fn vec_contains(v: &Vec<u64>, x: u64) -> (r: bool)
    ensures
        r == v@.contains(x),
{
    let mut i: usize = 0;
    while i < v.len()
        invariant
            i <= v@.len(),
            forall|k: int| 0 <= k < i ==> v@[k] != x,
        decreases v@.len() - i,
    {
        if v[i] == x {
            return true;
        }
        i = i + 1;
    }
    false
}

/// Locate the keyword's chain on an exclusively held extent: probe for the
/// seed from the keyword's derived position, walk the chain pointers, and
/// reserve every discovered block for the session.  The device is only
/// read; on any error the occupancy bitmap is left untouched.
pub fn load_chain<T: BlockDevice>(extent: &mut Extent<T>, keyword: &Keyword) -> (r: Result<
    Vec<u64>,
    Error,
>)
    requires
        old(extent).inv(),
        old(extent).spec_n_blocks() > 0,
    ensures
        final(extent).inv(),
        final(extent).blocks() == old(extent).blocks(),
        final(extent).spec_n_blocks() == old(extent).spec_n_blocks(),
        ({
            let dev = old(extent).blocks();
            let hash = keyword.spec_hash();
            let n = old(extent).spec_n_blocks();
            let seed = (be_value(hash) % n) as u64;
            match spec_find_seed(dev, hash, seed, n) {
                None => r == Err::<Vec<u64>, Error>(Error::SeedNotFound) && final(extent).bits()
                    == old(extent).bits(),
                Some(s0) => {
                    let walked = spec_walk(
                        dev,
                        hash,
                        seq![s0],
                        decoded_next(dev[s0 as int], block_key_of(hash, 0)),
                        n,
                    );
                    match walked {
                        Ok(addrs) => {
                            &&& r matches Ok(v) && v@ == addrs
                            &&& addrs.len() >= 1
                            &&& forall|i: int| 0 <= i < addrs.len() ==> (#[trigger] addrs[i] as int) < n
                            &&& forall|b: int|
                                0 <= b < n ==> final(extent).bits()[b] == (old(extent).bits()[b]
                                    || addrs.contains(b as u64))
                        },
                        Err(e) => r == Err::<Vec<u64>, Error>(e) && final(extent).bits() == old(
                            extent,
                        ).bits(),
                    }
                },
            }
        }),
{
    let ghost dev = extent.blocks();
    let ghost hash = keyword.spec_hash();
    let n = extent.n_blocks();
    let seed = keyword.seed_index(n);
    let key0 = keyword.block_key(0);

    // Probe for the seed block.
    let mut index = seed;
    let mut fuel = n;
    let mut found: Option<u64> = None;
    let mut next_ptr: u64 = 0;
    while fuel > 0 && found.is_none()
        invariant
            extent.inv(),
            extent.bits() == old(extent).bits(),
            extent.blocks() == old(extent).blocks(),
            extent.spec_n_blocks() == old(extent).spec_n_blocks(),
            dev == extent.blocks(),
            hash == keyword.spec_hash(),
            n as nat == extent.spec_n_blocks(),
            n > 0,
            index < n,
            fuel <= n,
            key0@ == block_key_of(hash, 0),
            found is None ==> spec_find_seed(dev, hash, seed, n as nat) == spec_find_seed(
                dev,
                hash,
                index,
                fuel as nat,
            ),
            found matches Some(s) ==> spec_find_seed(dev, hash, seed, n as nat) == Some(s) && (
            s as int) < dev.len() && next_ptr == decoded_next(dev[s as int], block_key_of(hash, 0)),
        decreases fuel,
    {
        let eb = extent.read_block(index);
        let b = eb.decrypt(key0);
        proof {
            lemma_decrypt_decodes(dev[index as int], block_key_of(hash, 0), b);
        }
        if b.validate_checksum() {
            found = Some(index);
            next_ptr = b.header.next_sector_id;
            fuel = fuel - 1;
        } else {
            index = if index + 1 < n {
                index + 1
            } else {
                0
            };
            fuel = fuel - 1;
        }
    }
    let seed_addr: u64;
    match found {
        Some(s) => {
            seed_addr = s;
        },
        None => {
            return Err(Error::SeedNotFound);
        },
    }

    // Walk the chain from the seed.
    let mut blocks: Vec<u64> = Vec::new();
    blocks.push(seed_addr);
    let ghost ptr0 = decoded_next(dev[seed_addr as int], block_key_of(hash, 0));
    let mut ptr: u64 = next_ptr;
    let mut fuel2 = n;
    while ptr != NO_NEXT_BLOCK
        invariant
            extent.inv(),
            extent.bits() == old(extent).bits(),
            extent.blocks() == old(extent).blocks(),
            extent.spec_n_blocks() == old(extent).spec_n_blocks(),
            dev == extent.blocks(),
            hash == keyword.spec_hash(),
            n as nat == extent.spec_n_blocks(),
            n > 0,
            seed as nat == be_value(hash) % (n as nat),
            spec_find_seed(dev, hash, seed, n as nat) == Some(seed_addr),
            (seed_addr as int) < dev.len(),
            ptr0 == decoded_next(dev[seed_addr as int], block_key_of(hash, 0)),
            blocks@.len() >= 1,
            forall|i: int| 0 <= i < blocks@.len() ==> #[trigger] blocks@[i] < n,
            fuel2 <= n,
            spec_walk(dev, hash, seq![seed_addr], ptr0, n as nat) == spec_walk(
                dev,
                hash,
                blocks@,
                ptr,
                fuel2 as nat,
            ),
        decreases fuel2,
    {
        if ptr >= n {
            return Err(Error::BadPointer);
        }
        if vec_contains(&blocks, ptr) {
            return Err(Error::BadPointer);
        }
        if fuel2 == 0 {
            return Err(Error::BadPointer);
        }
        let key = keyword.block_key(blocks.len() as u64);
        let eb = extent.read_block(ptr);
        let b = eb.decrypt(key);
        proof {
            lemma_decrypt_decodes(dev[ptr as int], block_key_of(hash, blocks@.len() as u64), b);
        }
        if !b.validate_checksum() {
            return Err(Error::BadPointer);
        }
        blocks.push(ptr);
        ptr = b.header.next_sector_id;
        fuel2 = fuel2 - 1;
    }

    // The chain is genuine: reserve its blocks for this session.
    let ghost addrs = blocks@;
    let mut j: usize = 0;
    while j < blocks.len()
        invariant
            extent.inv(),
            extent.blocks() == old(extent).blocks(),
            extent.spec_n_blocks() == old(extent).spec_n_blocks(),
            dev == extent.blocks(),
            hash == keyword.spec_hash(),
            n as nat == extent.spec_n_blocks(),
            n > 0,
            seed as nat == be_value(hash) % (n as nat),
            spec_find_seed(dev, hash, seed, n as nat) == Some(seed_addr),
            (seed_addr as int) < dev.len(),
            ptr0 == decoded_next(dev[seed_addr as int], block_key_of(hash, 0)),
            spec_walk(dev, hash, seq![seed_addr], ptr0, n as nat) == Ok::<Seq<u64>, Error>(addrs),
            blocks@ == addrs,
            j <= blocks@.len(),
            forall|i: int| 0 <= i < blocks@.len() ==> #[trigger] blocks@[i] < n,
            forall|x: int|
                0 <= x < n ==> extent.bits()[x] == (old(extent).bits()[x] || exists|t: int|
                    0 <= t < j && addrs[t] == x as u64),
        decreases blocks@.len() - j,
    {
        let ghost pre = extent.bits();
        extent.alloc_block(blocks[j]);
        proof {
            assert forall|x: int| 0 <= x < n implies extent.bits()[x] == (old(extent).bits()[x]
                || exists|t: int| 0 <= t < j + 1 && addrs[t] == x as u64) by {
                if x == addrs[j as int] as int {
                    assert(addrs[j as int] == x as u64);
                    assert(exists|t: int| 0 <= t < j + 1 && addrs[t] == x as u64);
                } else {
                    assert(extent.bits()[x] == pre[x]);
                    if exists|t: int| 0 <= t < j + 1 && addrs[t] == x as u64 {
                        let t = choose|t: int| 0 <= t < j + 1 && addrs[t] == x as u64;
                        assert(t < j);
                    }
                }
            }
        }
        j = j + 1;
    }
    proof {
        assert forall|x: int| 0 <= x < n implies extent.bits()[x] == (old(extent).bits()[x]
            || addrs.contains(x as u64)) by {
            if addrs.contains(x as u64) {
                let t = choose|t: int| 0 <= t < addrs.len() && addrs[t] == x as u64;
                assert(exists|u: int| 0 <= u < blocks@.len() && addrs[u] == x as u64);
            }
            if exists|t: int| 0 <= t < blocks@.len() && addrs[t] == x as u64 {
                let t = choose|t: int| 0 <= t < blocks@.len() && addrs[t] == x as u64;
                assert(addrs.contains(x as u64));
            }
        }
    }
    Ok(blocks)
}

/// A named, keyword-identified logical volume over one extent: the keyword,
/// a shared handle on the extent, and the chain table discovered or built
/// during this session.  Only the on-disk chain pointers are canonical; the
/// table is never persisted.
#[verifier::reject_recursive_types(T)]
pub struct Aspect<'a, T: BlockDevice> {
    extent_handle: &'a ExtentHandle<T>,
    keyword: Keyword,
    blocks: Vec<u64>,
}

impl<'a, T: BlockDevice> Aspect<'a, T> {
    /// The session chain table: the extent address of each chain position.
    pub closed spec fn spec_blocks(&self) -> Seq<u64> {
        self.blocks@
    }

    /// The digest of this aspect's keyword.
    pub closed spec fn spec_hash(&self) -> Seq<u8> {
        self.keyword.spec_hash()
    }

    /// The block count of the underlying extent.
    pub closed spec fn spec_n_blocks(&self) -> u64 {
        self.extent_handle.spec_n_blocks()
    }

    /// The extent handle is sound.
    pub closed spec fn handle_ok(&self) -> bool {
        self.extent_handle.wf()
    }

    /// Every address of the chain table lies inside the extent.
    pub open spec fn inv(&self) -> bool {
        &&& self.handle_ok()
        &&& forall|i: int|
            0 <= i < self.spec_blocks().len() ==> (#[trigger] self.spec_blocks()[i])
                < self.spec_n_blocks()
    }

    /// An aspect with an empty chain table over the given extent.
    pub fn new(extent: &'a ExtentHandle<T>, keyword: Keyword) -> (r: Aspect<'a, T>)
        requires
            extent.wf(),
        ensures
            r.inv(),
            r.spec_blocks() == Seq::<u64>::empty(),
            r.spec_hash() == keyword.spec_hash(),
            r.spec_n_blocks() == extent.spec_n_blocks(),
    {
        let r = Aspect { extent_handle: extent, keyword, blocks: Vec::new() };
        proof {
            assert(r.spec_blocks() =~= Seq::<u64>::empty());
        }
        r
    }

    /// Open an existing aspect: probe the extent for the keyword's seed
    /// block, walk its chain, and reserve the discovered blocks for the
    /// session.  A keyword whose seed is nowhere to be found is reported
    /// absent; nothing distinguishes a wrong keyword from a missing aspect.
    pub fn read_aspect(extent: &'a ExtentHandle<T>, keyword: Keyword) -> (r: Result<
        Aspect<'a, T>,
        Error,
    >)
        requires
            extent.wf(),
        ensures
            match r {
                Ok(a) => a.inv() && a.spec_blocks().len() >= 1 && a.spec_hash()
                    == keyword.spec_hash() && a.spec_n_blocks() == extent.spec_n_blocks(),
                Err(e) => e == Error::SeedNotFound || e == Error::BadPointer,
            },
    {
        let (mut ext, write_handle) = extent.lock();
        proof {
            let dev = ext.blocks();
            let hash = keyword.spec_hash();
            let n = ext.spec_n_blocks();
            let seed = (be_value(hash) % n) as u64;
            if spec_find_seed(dev, hash, seed, n) is Some {
                let s0 = spec_find_seed(dev, hash, seed, n)->0;
                lemma_found_seed_decodes(dev, hash, seed, n);
                lemma_walk_err_is_bad_pointer(
                    dev,
                    hash,
                    seq![s0],
                    decoded_next(dev[s0 as int], block_key_of(hash, 0)),
                    n,
                );
            }
        }
        let result = load_chain(&mut ext, &keyword);
        write_handle.release_write(ext);
        match result {
            Ok(blocks) => {
                let aspect = Aspect { extent_handle: extent, keyword, blocks };
                proof {
                    assert forall|i: int|
                        0 <= i < aspect.spec_blocks().len() implies (
                    #[trigger] aspect.spec_blocks()[i]) < aspect.spec_n_blocks() by {
                        assert((aspect.spec_blocks()[i] as int) < extent.spec_n_blocks() as nat);
                    }
                }
                Ok(aspect)
            },
            Err(e) => Err(e),
        }
    }

    /// How many blocks of the chain this session knows.
    pub fn len(&self) -> (r: u64)
        ensures
            r as nat == self.spec_blocks().len(),
    {
        self.blocks.len() as u64
    }

    /// Translate an aspect-relative block id into the extent address that
    /// holds it.  The two address spaces must never be mixed silently.
    fn transform_block_id(&self, block_id: u64) -> (r: u64)
        requires
            self.inv(),
            block_id < self.spec_blocks().len(),
        ensures
            r == self.spec_blocks()[block_id as int],
            r < self.spec_n_blocks(),
    {
        let n = self.blocks.len();
        self.blocks[block_id as usize]
    }

    /// Calculate the first possible seed index.
    fn seed_index(&self) -> (r: u64)
        requires
            self.inv(),
        ensures
            r as nat == be_value(self.spec_hash()) % (self.spec_n_blocks() as nat),
            r < self.spec_n_blocks(),
    {
        let n = self.extent_handle.n_blocks();
        self.keyword.seed_index(n)
    }

    /// Return the block key for the given chain position.
    pub fn block_key(&self, block_id: u64) -> (r: Key)
        ensures
            r@ == block_key_of(self.spec_hash(), block_id),
    {
        self.keyword.block_key(block_id)
    }

    /// Allocate and write this aspect's seed block: a fresh block, placed at
    /// the first free position probing from the keyword's seed index, and
    /// encrypted under the key of chain position zero.
    pub fn write_seed_block(&mut self) -> (r: Result<(), Error>)
        requires
            old(self).inv(),
            old(self).spec_blocks().len() == 0,
        ensures
            final(self).inv(),
            final(self).spec_hash() == old(self).spec_hash(),
            final(self).spec_n_blocks() == old(self).spec_n_blocks(),
            match r {
                Ok(()) => final(self).spec_blocks().len() == 1,
                Err(e) => e == Error::ExtentFull && final(self).spec_blocks() == old(
                    self,
                ).spec_blocks(),
            },
    {
        let handle = self.extent_handle;
        let (mut ext, write_handle) = handle.lock();
        let result = write_chain_seed(&mut ext, &self.keyword, Block::new());
        write_handle.release_write(ext);
        match result {
            Ok(seed) => {
                self.blocks.push(seed);
                Ok(())
            },
            Err(e) => Err(e),
        }
    }

    /// Read one block of the aspect by its chain position, extending the
    /// known chain by following on-disk pointers when the position lies past
    /// it.  Every block returned has been decrypted under the position's key
    /// and validated; a sentinel, out-of-range or cyclic pointer on the way
    /// surfaces `BadPointer`, and a known block that no longer validates
    /// surfaces `BadSuperBlock` at the seed and `BadPointer` elsewhere.
    pub fn read_block(&mut self, block_id: u64) -> (r: Result<Block, Error>)
        requires
            old(self).inv(),
        ensures
            final(self).inv(),
            final(self).spec_hash() == old(self).spec_hash(),
            final(self).spec_n_blocks() == old(self).spec_n_blocks(),
            final(self).spec_blocks().len() >= old(self).spec_blocks().len(),
            final(self).spec_blocks().take(old(self).spec_blocks().len() as int) == old(
                self,
            ).spec_blocks(),
            match r {
                Ok(b) => spec_block_valid(b) && block_id < final(self).spec_blocks().len(),
                Err(e) => e != Error::SeedNotFound && e != Error::ExtentFull,
            },
    {
        let handle = self.extent_handle;
        if self.blocks.len() == 0 {
            return Err(Error::BadPointer);
        }
        proof {
            assert(old(self).spec_blocks().take(old(self).spec_blocks().len() as int) =~= old(
                self,
            ).spec_blocks());
        }
        // Follow chain pointers until the requested position is known.
        while (self.blocks.len() as u64) <= block_id
            invariant
                self.inv(),
                self.spec_hash() == old(self).spec_hash(),
                self.spec_n_blocks() == old(self).spec_n_blocks(),
                self.blocks@.len() >= 1,
                self.spec_blocks().len() >= old(self).spec_blocks().len(),
                self.spec_blocks().take(old(self).spec_blocks().len() as int) == old(
                    self,
                ).spec_blocks(),
                self.extent_handle == old(self).extent_handle,
                handle == old(self).extent_handle,
                self.keyword == old(self).keyword,
            decreases block_id + 1 - self.blocks@.len(),
        {
            let len = self.blocks.len() as u64;
            let last_addr = self.transform_block_id(len - 1);
            let last_key = self.keyword.block_key(len - 1);
            let (mut ext, write_handle) = handle.lock();
            let image = ext.read_block(last_addr);
            let last = image.decrypt(last_key);
            if !last.validate_checksum() {
                write_handle.release_write(ext);
                return Err(
                    if len == 1 {
                        Error::BadSuperBlock
                    } else {
                        Error::BadPointer
                    },
                );
            }
            let ptr = last.header.next_sector_id;
            if ptr == NO_NEXT_BLOCK {
                write_handle.release_write(ext);
                return Err(Error::BadPointer);
            }
            let n = handle.n_blocks();
            if ptr >= n {
                write_handle.release_write(ext);
                return Err(Error::BadPointer);
            }
            if vec_contains(&self.blocks, ptr) {
                write_handle.release_write(ext);
                return Err(Error::BadPointer);
            }
            let next_key = self.keyword.block_key(len);
            let next_image = ext.read_block(ptr);
            let next = next_image.decrypt(next_key);
            if !next.validate_checksum() {
                write_handle.release_write(ext);
                return Err(Error::BadPointer);
            }
            ext.alloc_block(ptr);
            write_handle.release_write(ext);
            let ghost pre = self.spec_blocks();
            self.blocks.push(ptr);
            proof {
                assert(self.spec_blocks().take(old(self).spec_blocks().len() as int)
                    =~= pre.take(old(self).spec_blocks().len() as int));
            }
        }
        // The position is in the chain table: a targeted read.
        let addr = self.transform_block_id(block_id);
        let key = self.keyword.block_key(block_id);
        let (mut ext, write_handle) = handle.lock();
        let image = ext.read_block(addr);
        write_handle.release_write(ext);
        let block = image.decrypt(key);
        if !block.validate_checksum() {
            return Err(
                if block_id == 0 {
                    Error::BadSuperBlock
                } else {
                    Error::BadPointer
                },
            );
        }
        Ok(block)
    }

    /// Write one block of the aspect by its chain position.  A position
    /// inside the known chain is overwritten in place, keeping its chain
    /// pointer; the position one past the end appends: a fresh block is
    /// allocated probing from the previous block's own address, the previous
    /// block's pointer is updated and rewritten, and the new block is
    /// written with the sentinel pointer.  Positions further out surface
    /// `BadPointer`.
    pub fn write_block(&mut self, block_id: u64, content: Block) -> (r: Result<(), Error>)
        requires
            old(self).inv(),
        ensures
            final(self).inv(),
            final(self).spec_hash() == old(self).spec_hash(),
            final(self).spec_n_blocks() == old(self).spec_n_blocks(),
            block_id as nat > old(self).spec_blocks().len() ==> r == Err::<(), Error>(
                Error::BadPointer,
            ) && final(self).spec_blocks() == old(self).spec_blocks(),
            match r {
                Ok(()) => {
                    &&& block_id as nat <= old(self).spec_blocks().len()
                    &&& final(self).spec_blocks().len() == if (block_id as nat) < old(
                        self,
                    ).spec_blocks().len() {
                        old(self).spec_blocks().len()
                    } else {
                        old(self).spec_blocks().len() + 1
                    }
                    &&& final(self).spec_blocks().take(old(self).spec_blocks().len() as int)
                        == old(self).spec_blocks()
                },
                Err(e) => final(self).spec_blocks() == old(self).spec_blocks(),
            },
    {
        let handle = self.extent_handle;
        let len = self.blocks.len() as u64;
        proof {
            assert(old(self).spec_blocks().take(old(self).spec_blocks().len() as int) =~= old(
                self,
            ).spec_blocks());
        }
        if block_id > len {
            return Err(Error::BadPointer);
        }
        let mut content = content;
        if block_id < len {
            // Overwrite in place, keeping the stored chain pointer.
            let addr = self.transform_block_id(block_id);
            let key = self.keyword.block_key(block_id);
            let (mut ext, write_handle) = handle.lock();
            let image = ext.read_block(addr);
            let current = image.decrypt(key);
            if !current.validate_checksum() {
                write_handle.release_write(ext);
                return Err(
                    if block_id == 0 {
                        Error::BadSuperBlock
                    } else {
                        Error::BadPointer
                    },
                );
            }
            content.set_next(current.header.next_sector_id);
            let _ = ext.write_block(addr, content.encrypt(key));
            write_handle.release_write(ext);
            return Ok(());
        }
        if len == 0 {
            // First block of a fresh aspect: place it like a seed.
            let (mut ext, write_handle) = handle.lock();
            let result = write_chain_seed(&mut ext, &self.keyword, content);
            write_handle.release_write(ext);
            match result {
                Ok(seed) => {
                    self.blocks.push(seed);
                    proof {
                        assert(self.spec_blocks().take(0) =~= old(self).spec_blocks());
                    }
                    return Ok(());
                },
                Err(e) => {
                    return Err(e);
                },
            }
        }
        // Append past the chain end, probing from the tail block's own
        // address so the chain stays spatially close.
        let (mut ext, write_handle) = handle.lock();
        proof {
            assert forall|i: int|
                0 <= i < self.blocks@.len() implies (#[trigger] self.blocks@[i] as nat)
                < ext.spec_n_blocks() by {
                assert(self.spec_blocks()[i] < self.spec_n_blocks());
            }
        }
        let result = append_chain_block(&mut ext, &self.keyword, &self.blocks, content);
        write_handle.release_write(ext);
        match result {
            Ok(new_addr) => {
                let ghost pre = self.spec_blocks();
                self.blocks.push(new_addr);
                proof {
                    assert(self.spec_blocks().take(pre.len() as int) =~= pre);
                }
                Ok(())
            },
            Err(e) => Err(
                if len == 1 && e == Error::BadPointer {
                    Error::BadSuperBlock
                } else {
                    e
                },
            ),
        }
    }
}

impl<'a, T: BlockDevice> Aspect<'a, T> {
    /// Relocate the block at chain position `block_id` to the first free
    /// position probing from `hint`, returning the new extent address now
    /// recorded in the chain table.  The content is re-encrypted under the
    /// same logical position key — the key depends on the position, never
    /// the address — the predecessor's pointer is rewritten, and the old
    /// position is freed only after both writes.
    pub fn move_block(&mut self, block_id: u64, hint: u64) -> (r: Result<u64, Error>)
        requires
            old(self).inv(),
            hint < old(self).spec_n_blocks(),
        ensures
            final(self).inv(),
            final(self).spec_hash() == old(self).spec_hash(),
            final(self).spec_n_blocks() == old(self).spec_n_blocks(),
            block_id as nat >= old(self).spec_blocks().len() ==> r == Err::<u64, Error>(
                Error::BadPointer,
            ),
            match r {
                Ok(new_addr) => {
                    &&& (block_id as nat) < old(self).spec_blocks().len()
                    &&& new_addr < final(self).spec_n_blocks()
                    &&& new_addr != old(self).spec_blocks()[block_id as int]
                    &&& final(self).spec_blocks() == old(self).spec_blocks().update(
                        block_id as int,
                        new_addr,
                    )
                },
                Err(e) => final(self).spec_blocks() == old(self).spec_blocks(),
            },
    {
        let handle = self.extent_handle;
        let len = self.blocks.len() as u64;
        if block_id >= len {
            return Err(Error::BadPointer);
        }
        let (mut ext, write_handle) = handle.lock();
        proof {
            assert forall|i: int|
                0 <= i < self.blocks@.len() implies (#[trigger] self.blocks@[i] as nat)
                < ext.spec_n_blocks() by {
                assert(self.spec_blocks()[i] < self.spec_n_blocks());
            }
        }
        let result = move_chain_block(&mut ext, &self.keyword, &self.blocks, block_id, hint);
        write_handle.release_write(ext);
        match result {
            Ok(new_addr) => {
                self.blocks[block_id as usize] = new_addr;
                proof {
                    assert forall|i: int|
                        0 <= i < self.spec_blocks().len() implies (
                    #[trigger] self.spec_blocks()[i]) < self.spec_n_blocks() by {
                        if i != block_id as int {
                            assert(self.spec_blocks()[i] == old(self).spec_blocks()[i]);
                        }
                    }
                }
                Ok(new_addr)
            },
            Err(e) => Err(
                if block_id == 0 && e == Error::BadPointer {
                    Error::BadSuperBlock
                } else {
                    e
                },
            ),
        }
    }
}

impl<T: BlockDevice> ExtentHandle<T> {
    /// Create a new aspect on disk: its seed block is allocated and written
    /// at once, so a later aspect can never take the same position.
    pub fn create_aspect(&self, keyword: Keyword) -> (r: Result<Aspect<'_, T>, Error>)
        requires
            self.wf(),
        ensures
            match r {
                Ok(a) => a.inv() && a.spec_blocks().len() == 1 && a.spec_hash()
                    == keyword.spec_hash() && a.spec_n_blocks() == self.spec_n_blocks(),
                Err(e) => e == Error::ExtentFull,
            },
    {
        let mut aspect = Aspect::new(self, keyword);
        match aspect.write_seed_block() {
            Ok(()) => Ok(aspect),
            Err(e) => Err(e),
        }
    }
}

} // verus!
