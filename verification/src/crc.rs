//! CRC-64 with the ECMA-182 polynomial, MSB-first, table driven.
//!
//! The checksum is the integrity oracle of the whole engine: a decrypted
//! block is accepted as genuine content exactly when its stored checksum
//! matches the checksum of its payload.

use vstd::prelude::*;

verus! {

/// The ECMA-182 polynomial, MSB first.
pub const ECMA_POLY: u64 = 0x42F0E1EBA9EA3693;

/// One shift-and-reduce round of the table generator: `crc` accumulates the
/// remainder while `c` feeds in the next message bit from the top.
pub open spec fn crc_round(crc: u64, c: u64) -> (u64, u64) {
    if (crc ^ c) & 0x8000000000000000 != 0 {
        (((crc << 1) ^ ECMA_POLY) as u64, (c << 1) as u64)
    } else {
        ((crc << 1) as u64, (c << 1) as u64)
    }
}

/// `rounds` applications of `crc_round`, starting from `(crc, c)`.
pub open spec fn crc_rounds(crc: u64, c: u64, rounds: nat) -> u64
    decreases rounds,
{
    if rounds == 0 {
        crc
    } else {
        let (crc2, c2) = crc_round(crc, c);
        crc_rounds(crc2, c2, (rounds - 1) as nat)
    }
}

/// The lookup-table entry for a byte `i`: eight rounds over `i` placed in the
/// top byte of the feed register.
pub open spec fn table_entry(i: u64) -> u64
    recommends
        i < 256,
{
    crc_rounds(0, (i << 56) as u64, 8)
}

/// One byte step of the table-driven checksum.
pub open spec fn crc_step(crc: u64, b: u8) -> u64 {
    (table_entry((((crc >> 56) as u8) ^ b) as u64) ^ ((crc << 8) as u64)) as u64
}

/// The checksum of the bytes of `data` that follow, folded onto the
/// accumulator `crc`.
pub open spec fn crc_fold(data: Seq<u8>, crc: u64) -> u64
    decreases data.len(),
{
    if data.len() == 0 {
        crc
    } else {
        crc_fold(data.drop_first(), crc_step(crc, data[0]))
    }
}

/// The CRC-64/ECMA-182 checksum of a byte sequence.
pub open spec fn spec_crc64(data: Seq<u8>) -> u64 {
    crc_fold(data, 0)
}

/// One table-generator round, on the remainder alone; the feed register of
/// `crc_round` evolves by a plain shift beside it.
spec fn rnd(crc: u64, c: u64) -> u64 {
    if (crc ^ c) & 0x8000000000000000 != 0 {
        ((crc << 1) ^ ECMA_POLY) as u64
    } else {
        (crc << 1) as u64
    }
}

/// `table_entry`, with the eight rounds written out; this form the bit-level
/// solver can swallow.
spec fn expand(i: u64) -> u64 {
    let c0 = (i << 56) as u64;
    let r1 = rnd(0, c0);
    let r2 = rnd(r1, (c0 << 1) as u64);
    let r3 = rnd(r2, ((c0 << 1) << 1) as u64);
    let r4 = rnd(r3, (((c0 << 1) << 1) << 1) as u64);
    let r5 = rnd(r4, ((((c0 << 1) << 1) << 1) << 1) as u64);
    let r6 = rnd(r5, (((((c0 << 1) << 1) << 1) << 1) << 1) as u64);
    let r7 = rnd(r6, ((((((c0 << 1) << 1) << 1) << 1) << 1) << 1) as u64);
    rnd(r7, (((((((c0 << 1) << 1) << 1) << 1) << 1) << 1) << 1) as u64)
}

proof fn lemma_table_entry_expand(i: u64)
    ensures
        table_entry(i) == expand(i),
{
    reveal_with_fuel(crc_rounds, 9);
    let c0 = (i << 56) as u64;
    let r1 = rnd(0, c0);
    let c1 = (c0 << 1) as u64;
    let r2 = rnd(r1, c1);
    let c2 = (c1 << 1) as u64;
    let r3 = rnd(r2, c2);
    let c3 = (c2 << 1) as u64;
    let r4 = rnd(r3, c3);
    let c4 = (c3 << 1) as u64;
    let r5 = rnd(r4, c4);
    let c5 = (c4 << 1) as u64;
    let r6 = rnd(r5, c5);
    let c6 = (c5 << 1) as u64;
    let r7 = rnd(r6, c6);
    let c7 = (c6 << 1) as u64;
    let r8 = rnd(r7, c7);
    assert(crc_round(0, c0) == (r1, c1));
    assert(crc_round(r1, c1) == (r2, c2));
    assert(crc_round(r2, c2) == (r3, c3));
    assert(crc_round(r3, c3) == (r4, c4));
    assert(crc_round(r4, c4) == (r5, c5));
    assert(crc_round(r5, c5) == (r6, c6));
    assert(crc_round(r6, c6) == (r7, c7));
    assert(crc_round(r7, c7) == (r8, (c7 << 1) as u64));
    assert(crc_rounds(0, c0, 8) == r8);
    assert(expand(i) == r8);
}

proof fn bv_round_linear(a: u64, b: u64, ca: u64, cb: u64)
    by (bit_vector)
    ensures
        rnd(a, ca) ^ rnd(b, cb) == rnd(a ^ b, ca ^ cb),
{
}

proof fn bv_shl_xor(x: u64, y: u64)
    by (bit_vector)
    ensures
        ((x ^ y) << 1) as u64 == ((x << 1) as u64) ^ ((y << 1) as u64),
{
}

proof fn bv_shl56_xor(x: u64, y: u64)
    by (bit_vector)
    ensures
        ((x ^ y) << 56) as u64 == ((x << 56) as u64) ^ ((y << 56) as u64),
{
}

/// The table is linear over exclusive or: each entry is the remainder of
/// the index polynomial, and remainders add bitwise.
proof fn lemma_expand_linear(i1: u64, i2: u64)
    ensures
        expand(i1) ^ expand(i2) == expand(i1 ^ i2),
{
    let a0 = (i1 << 56) as u64;
    let b0 = (i2 << 56) as u64;
    bv_shl56_xor(i1, i2);
    let a1 = (a0 << 1) as u64;
    let b1 = (b0 << 1) as u64;
    let a2 = (a1 << 1) as u64;
    let b2 = (b1 << 1) as u64;
    let a3 = (a2 << 1) as u64;
    let b3 = (b2 << 1) as u64;
    let a4 = (a3 << 1) as u64;
    let b4 = (b3 << 1) as u64;
    let a5 = (a4 << 1) as u64;
    let b5 = (b4 << 1) as u64;
    let a6 = (a5 << 1) as u64;
    let b6 = (b5 << 1) as u64;
    let a7 = (a6 << 1) as u64;
    let b7 = (b6 << 1) as u64;
    bv_shl_xor(a0, b0);
    bv_shl_xor(a1, b1);
    bv_shl_xor(a2, b2);
    bv_shl_xor(a3, b3);
    bv_shl_xor(a4, b4);
    bv_shl_xor(a5, b5);
    bv_shl_xor(a6, b6);
    let ra1 = rnd(0, a0);
    let rb1 = rnd(0, b0);
    bv_round_linear(0, 0, a0, b0);
    let ra2 = rnd(ra1, a1);
    let rb2 = rnd(rb1, b1);
    bv_round_linear(ra1, rb1, a1, b1);
    let ra3 = rnd(ra2, a2);
    let rb3 = rnd(rb2, b2);
    bv_round_linear(ra2, rb2, a2, b2);
    let ra4 = rnd(ra3, a3);
    let rb4 = rnd(rb3, b3);
    bv_round_linear(ra3, rb3, a3, b3);
    let ra5 = rnd(ra4, a4);
    let rb5 = rnd(rb4, b4);
    bv_round_linear(ra4, rb4, a4, b4);
    let ra6 = rnd(ra5, a5);
    let rb6 = rnd(rb5, b5);
    bv_round_linear(ra5, rb5, a5, b5);
    let ra7 = rnd(ra6, a6);
    let rb7 = rnd(rb6, b6);
    bv_round_linear(ra6, rb6, a6, b6);
    bv_round_linear(ra7, rb7, a7, b7);
    assert(0u64 ^ 0u64 == 0u64) by (bit_vector);
}

proof fn bv_expand_nonzero(t: u8)
    by (bit_vector)
    requires
        t != 0,
    ensures
        expand(t as u64) != 0,
{
}

proof fn bv_expand_low_byte(t: u8)
    by (bit_vector)
    requires
        t != 0,
    ensures
        expand(t as u64) & 0xff != 0,
{
}

proof fn bv_expand_zero()
    by (bit_vector)
    ensures
        expand(0) == 0,
{
}

/// Multiplying a nonzero remainder through one byte step never annihilates
/// it: the byte step is invertible.
proof fn lemma_byte_shift_nonzero(y: u64)
    requires
        y != 0,
    ensures
        ((y << 8) as u64) ^ table_entry(y >> 56) != 0,
        table_entry(y >> 56) ^ ((y << 8) as u64) != 0,
{
    assert forall|p: u64, q: u64| (p ^ q != 0) == (q ^ p != 0) by {
        assert((p ^ q != 0) == (q ^ p != 0)) by (bit_vector);
    }
    lemma_table_entry_expand(y >> 56);
    let t = (y >> 56) as u8;
    assert(t as u64 == y >> 56) by (bit_vector)
        requires
            t == (y >> 56) as u8,
    ;
    if t == 0 {
        bv_expand_zero();
        assert((y << 8) as u64 != 0) by (bit_vector)
            requires
                y != 0,
                y >> 56 == 0,
        ;
        assert(((y << 8) as u64) ^ 0u64 == (y << 8) as u64) by (bit_vector);
    } else {
        bv_expand_low_byte(t);
        let d = table_entry(y >> 56);
        assert(((y << 8) as u64) ^ d != 0) by (bit_vector)
            requires
                d & 0xff != 0,
        ;
    }
}

/// The byte step separates different accumulators: feeding the same byte to
/// two different remainders never makes them collide.
pub proof fn lemma_crc_step_injective_acc(c1: u64, c2: u64, b: u8)
    requires
        c1 != c2,
    ensures
        crc_step(c1, b) != crc_step(c2, b),
{
    let t1 = ((((c1 >> 56) as u8) ^ b)) as u64;
    let t2 = ((((c2 >> 56) as u8) ^ b)) as u64;
    let e1 = table_entry(t1);
    let e2 = table_entry(t2);
    let s1 = (c1 << 8) as u64;
    let s2 = (c2 << 8) as u64;
    let y = c1 ^ c2;
    assert(y != 0) by (bit_vector)
        requires
            c1 != c2,
            y == c1 ^ c2,
    ;
    lemma_expand_linear(t1, t2);
    lemma_table_entry_expand(t1);
    lemma_table_entry_expand(t2);
    lemma_table_entry_expand(t1 ^ t2);
    assert(t1 ^ t2 == y >> 56) by (bit_vector)
        requires
            t1 == ((((c1 >> 56) as u8) ^ b)) as u64,
            t2 == ((((c2 >> 56) as u8) ^ b)) as u64,
            y == c1 ^ c2,
    ;
    assert(s1 ^ s2 == (y << 8) as u64) by (bit_vector)
        requires
            s1 == (c1 << 8) as u64,
            s2 == (c2 << 8) as u64,
            y == c1 ^ c2,
    ;
    lemma_byte_shift_nonzero(y);
    assert((e1 ^ s1) != (e2 ^ s2)) by (bit_vector)
        requires
            (e1 ^ e2) ^ (s1 ^ s2) != 0,
    ;
}

/// The byte step separates different bytes: feeding two different bytes to
/// the same remainder never makes them collide.
pub proof fn lemma_crc_step_injective_byte(c: u64, b1: u8, b2: u8)
    requires
        b1 != b2,
    ensures
        crc_step(c, b1) != crc_step(c, b2),
{
    let t1 = ((((c >> 56) as u8) ^ b1)) as u64;
    let t2 = ((((c >> 56) as u8) ^ b2)) as u64;
    let e1 = table_entry(t1);
    let e2 = table_entry(t2);
    let s = (c << 8) as u64;
    lemma_expand_linear(t1, t2);
    lemma_table_entry_expand(t1);
    lemma_table_entry_expand(t2);
    lemma_table_entry_expand(t1 ^ t2);
    let d = (b1 ^ b2) as u8;
    assert(t1 ^ t2 == d as u64 && d != 0) by (bit_vector)
        requires
            b1 != b2,
            t1 == ((((c >> 56) as u8) ^ b1)) as u64,
            t2 == ((((c >> 56) as u8) ^ b2)) as u64,
            d == (b1 ^ b2) as u8,
    ;
    bv_expand_nonzero(d);
    assert((e1 ^ s) != (e2 ^ s)) by (bit_vector)
        requires
            e1 ^ e2 != 0,
    ;
}

/// Folding a concatenation folds the parts in turn.
pub proof fn lemma_crc_fold_append(s1: Seq<u8>, s2: Seq<u8>, crc: u64)
    ensures
        crc_fold(s1 + s2, crc) == crc_fold(s2, crc_fold(s1, crc)),
    decreases s1.len(),
{
    if s1.len() == 0 {
        assert(s1 + s2 =~= s2);
    } else {
        assert((s1 + s2).drop_first() =~= s1.drop_first() + s2);
        assert((s1 + s2)[0] == s1[0]);
        lemma_crc_fold_append(s1.drop_first(), s2, crc_step(crc, s1[0]));
    }
}

/// Folding the same bytes onto different accumulators keeps them different.
pub proof fn lemma_crc_fold_injective(data: Seq<u8>, crc1: u64, crc2: u64)
    requires
        crc1 != crc2,
    ensures
        crc_fold(data, crc1) != crc_fold(data, crc2),
    decreases data.len(),
{
    if data.len() > 0 {
        lemma_crc_step_injective_acc(crc1, crc2, data[0]);
        lemma_crc_fold_injective(data.drop_first(), crc_step(crc1, data[0]), crc_step(crc2, data[0]));
    }
}

/// Checksum sensitivity: flipping any single bit of a byte sequence changes
/// its checksum — a corrupted payload can never keep its stored checksum.
pub proof fn lemma_crc64_bit_sensitivity(data: Seq<u8>, byte: int, bit: u8)
    requires
        0 <= byte < data.len(),
        bit < 8,
    ensures
        spec_crc64(data.update(byte, data[byte] ^ (1u8 << bit))) != spec_crc64(data),
{
    let b = data[byte];
    let b2 = b ^ (1u8 << bit);
    assert(b2 != b) by (bit_vector)
        requires
            bit < 8,
            b2 == b ^ (1u8 << bit),
    ;
    let flipped = data.update(byte, b2);
    let front = data.take(byte);
    let back = data.skip(byte + 1);
    assert(data =~= (front + seq![b]) + back);
    assert(flipped =~= (front + seq![b2]) + back);
    lemma_crc_fold_append(front + seq![b], back, 0);
    lemma_crc_fold_append(front + seq![b2], back, 0);
    lemma_crc_fold_append(front, seq![b], 0);
    lemma_crc_fold_append(front, seq![b2], 0);
    let mid = crc_fold(front, 0);
    assert(crc_fold(seq![b], mid) == crc_step(mid, b)) by {
        reveal_with_fuel(crc_fold, 2);
        assert(seq![b].len() == 1 && seq![b][0] == b);
        assert(seq![b].drop_first() =~= Seq::<u8>::empty());
    }
    assert(crc_fold(seq![b2], mid) == crc_step(mid, b2)) by {
        reveal_with_fuel(crc_fold, 2);
        assert(seq![b2].len() == 1 && seq![b2][0] == b2);
        assert(seq![b2].drop_first() =~= Seq::<u8>::empty());
    }
    lemma_crc_step_injective_byte(mid, b, b2);
    lemma_crc_fold_injective(back, crc_step(mid, b), crc_step(mid, b2));
}

/// Generates the 256-entry lookup table for the checksum.
pub fn gen_crc_table() -> (table: Vec<u64>)
    ensures
        table@.len() == 256,
        forall|i: int| 0 <= i < 256 ==> table@[i] == table_entry(i as u64),
{
    let mut table: Vec<u64> = Vec::new();
    let mut i: u64 = 0;
    while i < 256
        invariant
            i <= 256,
            table@.len() == i,
            forall|k: int| 0 <= k < i ==> table@[k] == table_entry(k as u64),
        decreases 256 - i,
    {
        let mut crc: u64 = 0;
        let mut c: u64 = i << 56;
        let mut j: u64 = 0;
        while j < 8
            invariant
                j <= 8,
                table_entry(i) == crc_rounds(crc, c, (8 - j) as nat),
            decreases 8 - j,
        {
            proof {
                assert(crc_rounds(crc, c, (8 - j) as nat) == {
                    let (crc2, c2) = crc_round(crc, c);
                    crc_rounds(crc2, c2, (8 - j - 1) as nat)
                });
            }
            if (crc ^ c) & 0x8000000000000000 != 0 {
                crc = (crc << 1) ^ ECMA_POLY;
            } else {
                crc = crc << 1;
            }
            c = c << 1;
            j = j + 1;
        }
        table.push(crc);
        i = i + 1;
    }
    table
}

/// The CRC-64/ECMA-182 checksum of `data`.
pub fn crc64(data: &[u8]) -> (crc: u64)
    ensures
        crc == spec_crc64(data@),
{
    let table = gen_crc_table();
    let mut crc: u64 = 0;
    let mut idx: usize = 0;
    proof {
        assert(data@.skip(0) =~= data@);
    }
    while idx < data.len()
        invariant
            idx <= data@.len(),
            table@.len() == 256,
            forall|k: int| 0 <= k < 256 ==> table@[k] == table_entry(k as u64),
            spec_crc64(data@) == crc_fold(data@.skip(idx as int), crc),
        decreases data@.len() - idx,
    {
        let b = data[idx];
        proof {
            assert(data@.skip(idx as int).drop_first() =~= data@.skip(idx as int + 1));
            assert(data@.skip(idx as int)[0] == data@[idx as int]);
            assert(crc >> 56 < 256) by (bit_vector);
        }
        let t = ((crc >> 56) as u8) ^ b;
        crc = table[t as usize] ^ (crc << 8);
        idx = idx + 1;
    }
    crc
}

} // verus!
