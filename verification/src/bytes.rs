//! Byte-sequence arithmetic shared by the keyword and block modules: the
//! big-endian unsigned value of a byte sequence, the fixed eight-byte
//! big-endian image of a `u64`, and byte-wise exclusive or.

use vstd::arithmetic::power2::{lemma2_to64, lemma2_to64_rest, lemma_pow2_adds, lemma_pow2_pos, pow2};
use vstd::prelude::*;

verus! {

/// The value of `s` read as an unsigned, big-endian integer.
pub open spec fn be_value(s: Seq<u8>) -> nat
    decreases s.len(),
{
    if s.len() == 0 {
        0
    } else {
        be_value(s.drop_last()) * 256 + s.last() as nat
    }
}

/// A big-endian byte sequence of length `n` is smaller than `2^(8n)`.
pub proof fn lemma_be_value_bound(s: Seq<u8>)
    ensures
        be_value(s) < pow2(8 * s.len()),
    decreases s.len(),
{
    lemma2_to64();
    if s.len() > 0 {
        lemma_be_value_bound(s.drop_last());
        lemma_pow2_adds(8 * (s.len() - 1) as nat, 8);
    }
}

/// The eight-byte big-endian image of `x`.
pub open spec fn u64_be_bytes(x: u64) -> Seq<u8> {
    seq![
        (x >> 56) as u8,
        (x >> 48) as u8,
        (x >> 40) as u8,
        (x >> 32) as u8,
        (x >> 24) as u8,
        (x >> 16) as u8,
        (x >> 8) as u8,
        x as u8,
    ]
}

/// Reading the eight-byte image of `x` yields `x` again.
pub proof fn lemma_u64_be_bytes_value(x: u64)
    ensures
        be_value(u64_be_bytes(x)) == x,
{
    let s = u64_be_bytes(x);
    assert(be_value(s) == ((((((((x >> 56) as u8) * 256 + (x >> 48) as u8) * 256 + (x >> 40) as u8)
        * 256 + (x >> 32) as u8) * 256 + (x >> 24) as u8) * 256 + (x >> 16) as u8) * 256 + (x
        >> 8) as u8) * 256 + x as u8) by {
        reveal_with_fuel(be_value, 9);
        assert(s.drop_last() =~= seq![
            (x >> 56) as u8,
            (x >> 48) as u8,
            (x >> 40) as u8,
            (x >> 32) as u8,
            (x >> 24) as u8,
            (x >> 16) as u8,
            (x >> 8) as u8,
        ]);
    }
    assert(((((((((x >> 56) as u8) * 256 + (x >> 48) as u8) * 256 + (x >> 40) as u8) * 256 + (x
        >> 32) as u8) * 256 + (x >> 24) as u8) * 256 + (x >> 16) as u8) * 256 + (x >> 8) as u8)
        * 256 + x as u8 == x) by (bit_vector);
}

/// Writing the value read from an eight-byte sequence yields that sequence
/// again.
pub proof fn lemma_u64_be_bytes_of_value(s: Seq<u8>)
    requires
        s.len() == 8,
    ensures
        be_value(s) < 0x10000000000000000,
        u64_be_bytes(be_value(s) as u64) == s,
{
    lemma_be_value_bound(s);
    lemma2_to64_rest();
    let b0 = s[0];
    let b1 = s[1];
    let b2 = s[2];
    let b3 = s[3];
    let b4 = s[4];
    let b5 = s[5];
    let b6 = s[6];
    let b7 = s[7];
    assert(be_value(s) == ((((((b0 * 256 + b1) * 256 + b2) * 256 + b3) * 256 + b4) * 256 + b5)
        * 256 + b6) * 256 + b7) by {
        reveal_with_fuel(be_value, 9);
        assert(s.drop_last() =~= seq![b0, b1, b2, b3, b4, b5, b6]);
        assert(s.drop_last().drop_last() =~= seq![b0, b1, b2, b3, b4, b5]);
        assert(s.drop_last().drop_last().drop_last() =~= seq![b0, b1, b2, b3, b4]);
        assert(s.drop_last().drop_last().drop_last().drop_last() =~= seq![b0, b1, b2, b3]);
        assert(s.drop_last().drop_last().drop_last().drop_last().drop_last() =~= seq![b0, b1, b2]);
        assert(s.drop_last().drop_last().drop_last().drop_last().drop_last().drop_last() =~= seq![
            b0,
            b1,
        ]);
        assert(s.drop_last().drop_last().drop_last().drop_last().drop_last().drop_last().drop_last()
            =~= seq![b0]);
    }
    let x = (((((((b0 * 256 + b1) * 256 + b2) * 256 + b3) * 256 + b4) * 256 + b5) * 256 + b6) * 256
        + b7) as u64;
    assert((x >> 56) as u8 == b0 && (x >> 48) as u8 == b1 && (x >> 40) as u8 == b2 && (x
        >> 32) as u8 == b3 && (x >> 24) as u8 == b4 && (x >> 16) as u8 == b5 && (x >> 8) as u8 == b6
        && x as u8 == b7) by (bit_vector)
        requires
            x == (((((((b0 * 256 + b1) * 256 + b2) * 256 + b3) * 256 + b4) * 256 + b5) * 256 + b6)
                * 256 + b7) as u64,
    ;
    assert(u64_be_bytes(be_value(s) as u64) =~= s);
}

/// Two `u64` values with the same big-endian image are equal.
pub proof fn lemma_u64_be_bytes_injective(x: u64, y: u64)
    requires
        u64_be_bytes(x) == u64_be_bytes(y),
    ensures
        x == y,
{
    lemma_u64_be_bytes_value(x);
    lemma_u64_be_bytes_value(y);
}

/// Writes `x` as eight big-endian bytes.
pub fn u64_to_be_bytes(x: u64) -> (r: Vec<u8>)
    ensures
        r@ == u64_be_bytes(x),
{
    let mut r: Vec<u8> = Vec::new();
    r.push((x >> 56) as u8);
    r.push((x >> 48) as u8);
    r.push((x >> 40) as u8);
    r.push((x >> 32) as u8);
    r.push((x >> 24) as u8);
    r.push((x >> 16) as u8);
    r.push((x >> 8) as u8);
    r.push(x as u8);
    proof {
        assert(r@ =~= u64_be_bytes(x));
    }
    r
}

/// Reads a big-endian unsigned integer of up to sixteen bytes.
pub fn be_u128(bytes: &[u8]) -> (r: u128)
    requires
        bytes@.len() <= 16,
    ensures
        r as nat == be_value(bytes@),
{
    let mut acc: u128 = 0;
    let mut i: usize = 0;
    proof {
        assert(bytes@.take(0) =~= Seq::<u8>::empty());
    }
    while i < bytes.len()
        invariant
            i <= bytes@.len() <= 16,
            acc as nat == be_value(bytes@.take(i as int)),
        decreases bytes@.len() - i,
    {
        let b = bytes[i];
        proof {
            lemma_be_value_bound(bytes@.take(i as int));
            lemma2_to64();
            lemma_pow2_adds(8 * i as nat, 8);
            lemma_pow2_increases(8 * i as nat + 8, 128);
            lemma2_to64_rest();
            lemma_pow2_adds(64, 64);
            assert(bytes@.take(i as int + 1).drop_last() =~= bytes@.take(i as int));
            assert(bytes@.take(i as int + 1).last() == bytes@[i as int]);
        }
        acc = acc * 256 + b as u128;
        i = i + 1;
    }
    proof {
        assert(bytes@.take(bytes@.len() as int) =~= bytes@);
    }
    acc
}

/// `pow2` is monotone in its exponent.
proof fn lemma_pow2_increases(e1: nat, e2: nat)
    requires
        e1 <= e2,
    ensures
        pow2(e1) <= pow2(e2),
{
    lemma_pow2_adds(e1, (e2 - e1) as nat);
    lemma_pow2_pos((e2 - e1) as nat);
    vstd::arithmetic::mul::lemma_mul_inequality(1, pow2((e2 - e1) as nat) as int, pow2(e1) as int);
}

/// `a` xored byte-for-byte with `b`; positions past the end of `b` are left
/// unchanged, so xoring twice with the same `b` always restores `a`.
pub open spec fn xor_with(a: Seq<u8>, b: Seq<u8>) -> Seq<u8> {
    Seq::new(a.len(), |i: int| if i < b.len() { (a[i] ^ b[i]) as u8 } else { a[i] })
}

/// Xoring twice with the same sequence restores the original.
pub proof fn lemma_xor_with_involutes(a: Seq<u8>, b: Seq<u8>)
    ensures
        xor_with(xor_with(a, b), b) == a,
{
    assert forall|i: int| 0 <= i < a.len() implies xor_with(xor_with(a, b), b)[i] == a[i] by {
        if i < b.len() {
            let x = a[i];
            let k = b[i];
            assert(((x ^ k) ^ k) == x) by (bit_vector);
        }
    }
    assert(xor_with(xor_with(a, b), b) =~= a);
}

} // verus!
