//! Keywords: the secret identity of an aspect.
//!
//! A keyword holds a passphrase and its 256-bit digest.  Everything an aspect
//! needs — where its chain starts inside an extent, and the key that encrypts
//! each block of the chain — is derived deterministically from that digest,
//! so a party who knows the passphrase can find and decode its data in any
//! session without any stored metadata.

use crate::bytes::{be_u128, be_value, lemma_be_value_bound, u64_be_bytes, u64_to_be_bytes};
use vstd::arithmetic::div_mod::{
    lemma_add_mod_noop, lemma_mod_bound, lemma_mul_mod_noop_left, lemma_small_mod,
};
use vstd::arithmetic::power2::{lemma2_to64, lemma2_to64_rest};
use vstd::prelude::*;
use vstd::slice::{slice_subrange, slice_to_vec};
use vstd::string::StringExecFns;
use vstd::utf8::encode_utf8;

verus! {

/// The lowercase hex digit for `d`.
pub open spec fn hex_digit(d: nat) -> char {
    if d == 0 {
        '0'
    } else if d == 1 {
        '1'
    } else if d == 2 {
        '2'
    } else if d == 3 {
        '3'
    } else if d == 4 {
        '4'
    } else if d == 5 {
        '5'
    } else if d == 6 {
        '6'
    } else if d == 7 {
        '7'
    } else if d == 8 {
        '8'
    } else if d == 9 {
        '9'
    } else if d == 10 {
        'a'
    } else if d == 11 {
        'b'
    } else if d == 12 {
        'c'
    } else if d == 13 {
        'd'
    } else if d == 14 {
        'e'
    } else {
        'f'
    }
}

/// The lowercase hex digits of `n`, most significant first, without leading
/// zeros.
pub open spec fn hex_str(n: nat) -> Seq<char>
    decreases n,
{
    if n < 16 {
        seq![hex_digit(n)]
    } else {
        hex_str(n / 16).push(hex_digit(n % 16))
    }
}

/// `n` in lowercase hex, zero padded on the left to at least four digits.
pub open spec fn hex_pad4(n: nat) -> Seq<char> {
    if n < 0x10 {
        seq!['0', '0', '0'] + hex_str(n)
    } else if n < 0x100 {
        seq!['0', '0'] + hex_str(n)
    } else if n < 0x1000 {
        seq!['0'] + hex_str(n)
    } else {
        hex_str(n)
    }
}

/// A pretty form of a 32-byte digest: its eight big-endian 32-bit words in
/// lowercase hex, four digits minimum, separated by single spaces.
pub open spec fn pretty_of(hash: Seq<u8>) -> Seq<char> {
    hex_pad4(be_value(hash.subrange(0x00, 0x04))) + seq![' '] + hex_pad4(
        be_value(hash.subrange(0x04, 0x08)),
    ) + seq![' '] + hex_pad4(be_value(hash.subrange(0x08, 0x0c))) + seq![' '] + hex_pad4(
        be_value(hash.subrange(0x0c, 0x10)),
    ) + seq![' '] + hex_pad4(be_value(hash.subrange(0x10, 0x14))) + seq![' '] + hex_pad4(
        be_value(hash.subrange(0x14, 0x18)),
    ) + seq![' '] + hex_pad4(be_value(hash.subrange(0x18, 0x1c))) + seq![' '] + hex_pad4(
        be_value(hash.subrange(0x1c, 0x20)),
    )
}

/// The one-character string holding the hex digit for `d`.
fn hex_char_str(d: u8) -> (r: &'static str)
    requires
        d < 16,
    ensures
        r@ == seq![hex_digit(d as nat)],
{
    proof {
        reveal_strlit("0");
        reveal_strlit("1");
        reveal_strlit("2");
        reveal_strlit("3");
        reveal_strlit("4");
        reveal_strlit("5");
        reveal_strlit("6");
        reveal_strlit("7");
        reveal_strlit("8");
        reveal_strlit("9");
        reveal_strlit("a");
        reveal_strlit("b");
        reveal_strlit("c");
        reveal_strlit("d");
        reveal_strlit("e");
        reveal_strlit("f");
        assert("0"@ =~= seq!['0']);
        assert("1"@ =~= seq!['1']);
        assert("2"@ =~= seq!['2']);
        assert("3"@ =~= seq!['3']);
        assert("4"@ =~= seq!['4']);
        assert("5"@ =~= seq!['5']);
        assert("6"@ =~= seq!['6']);
        assert("7"@ =~= seq!['7']);
        assert("8"@ =~= seq!['8']);
        assert("9"@ =~= seq!['9']);
        assert("a"@ =~= seq!['a']);
        assert("b"@ =~= seq!['b']);
        assert("c"@ =~= seq!['c']);
        assert("d"@ =~= seq!['d']);
        assert("e"@ =~= seq!['e']);
        assert("f"@ =~= seq!['f']);
    }
    match d {
        0 => "0",
        1 => "1",
        2 => "2",
        3 => "3",
        4 => "4",
        5 => "5",
        6 => "6",
        7 => "7",
        8 => "8",
        9 => "9",
        10 => "a",
        11 => "b",
        12 => "c",
        13 => "d",
        14 => "e",
        _ => "f",
    }
}

/// `v` in lowercase hex, without leading zeros.
fn hex_str_exec(v: u32) -> (r: String)
    ensures
        r@ == hex_str(v as nat),
    decreases v,
{
    if v < 16 {
        String::from_str(hex_char_str(v as u8))
    } else {
        let prefix = hex_str_exec(v / 16);
        let r = prefix.concat(hex_char_str((v % 16) as u8));
        proof {
            assert(r@ =~= hex_str(v as nat));
        }
        r
    }
}

/// `v` in lowercase hex, zero padded to at least four digits.
fn hex_u32_min4(v: u32) -> (r: String)
    ensures
        r@ == hex_pad4(v as nat),
{
    let s = hex_str_exec(v);
    proof {
        reveal_strlit("000");
        reveal_strlit("00");
        reveal_strlit("0");
        assert("000"@ =~= seq!['0', '0', '0']);
        assert("00"@ =~= seq!['0', '0']);
        assert("0"@ =~= seq!['0']);
    }
    if v < 0x10 {
        String::from_str("000").concat(s.as_str())
    } else if v < 0x100 {
        String::from_str("00").concat(s.as_str())
    } else if v < 0x1000 {
        String::from_str("0").concat(s.as_str())
    } else {
        s
    }
}

/// The hashed, secure key.
pub type Key = [u8; 32];

/// The SHA-256 digest of a byte sequence, as computed by OpenSSL.  The digest
/// is far too large to state here; the library only relies on it being a
/// function of the input bytes alone.
pub uninterp spec fn sha256_of(data: Seq<u8>) -> Seq<u8>;

/// The digest a keyword built from `text` carries: SHA-256 of the UTF-8
/// encoding of the text.
pub open spec fn keyword_hash(text: Seq<char>) -> Seq<u8> {
    sha256_of(encode_utf8(text))
}

/// Key the given string.
///
/// Relies on `openssl::sha::sha256`: a 32-byte digest that depends on the
/// input bytes alone.
#[verifier::external_body]
fn hash(data: &[u8]) -> (r: Key)
    ensures
        r@ == sha256_of(data@),
{
    openssl::sha::sha256(data)
}

/// A combination of the text and hash of a given key.  Needed for decryption.
pub struct Keyword {
    text: String,
    hash: Key,
}

impl Keyword {
    /// The passphrase this keyword was built from.
    pub closed spec fn spec_text(&self) -> Seq<char> {
        self.text@
    }

    /// The 256-bit digest this keyword carries.
    pub closed spec fn spec_hash(&self) -> Seq<u8> {
        self.hash@
    }

    /// Create a new keyword from a given string.
    pub fn new(text: String) -> (r: Keyword)
        ensures
            r.spec_text() == text@,
            r.spec_hash() == keyword_hash(text@),
    {
        let h = hash(text.as_str().as_bytes());
        Keyword { hash: h, text }
    }

    /// Create a keyword that carries a caller-chosen digest in place of the
    /// derived one.
    pub fn from_hash(text: String, hash: Key) -> (r: Keyword)
        ensures
            r.spec_text() == text@,
            r.spec_hash() == hash@,
    {
        Keyword { text, hash }
    }

    pub fn text(&self) -> (r: &str)
        ensures
            r@ == self.spec_text(),
    {
        self.text.as_str()
    }

    pub fn hash(&self) -> (r: &Key)
        ensures
            r@ == self.spec_hash(),
    {
        &self.hash
    }

    /// A pretty form of the hash.
    pub fn pretty_hash(&self) -> (r: String)
        ensures
            r@ == pretty_of(self.spec_hash()),
    {
        let w0 = self.slice_int::<u32>(0x00);
        let w1 = self.slice_int::<u32>(0x04);
        let w2 = self.slice_int::<u32>(0x08);
        let w3 = self.slice_int::<u32>(0x0c);
        let w4 = self.slice_int::<u32>(0x10);
        let w5 = self.slice_int::<u32>(0x14);
        let w6 = self.slice_int::<u32>(0x18);
        let w7 = self.slice_int::<u32>(0x1c);
        proof {
            reveal_strlit(" ");
            assert(" "@ =~= seq![' ']);
        }
        let r = hex_u32_min4(w0.unwrap()).concat(" ").concat(
            hex_u32_min4(w1.unwrap()).as_str(),
        ).concat(" ").concat(hex_u32_min4(w2.unwrap()).as_str()).concat(" ").concat(
            hex_u32_min4(w3.unwrap()).as_str(),
        ).concat(" ").concat(hex_u32_min4(w4.unwrap()).as_str()).concat(" ").concat(
            hex_u32_min4(w5.unwrap()).as_str(),
        ).concat(" ").concat(hex_u32_min4(w6.unwrap()).as_str()).concat(" ").concat(
            hex_u32_min4(w7.unwrap()).as_str(),
        );
        proof {
            assert(r@ =~= pretty_of(self.spec_hash()));
        }
        r
    }

    /// Returns a slice at `index` of length `length` from the hash.
    fn get_slice(&self, index: usize, length: usize) -> (r: Option<&[u8]>)
        ensures
            match r {
                Some(s) => index + length <= 32 && s@ == self.spec_hash().subrange(
                    index as int,
                    index as int + length as int,
                ),
                None => index + length > 32,
            },
    {
        if index > 32 || length > 32 - index {
            return None;
        }
        Some(slice_subrange(self.hash.as_slice(), index, index + length))
    }

    /// Return an int, read as an unsigned, big-endian integer starting at
    /// `offset` of the hash; `None` when fewer than the type's bytes remain.
    pub fn slice_int<T: FromByteSlice>(&self, offset: usize) -> (r: Option<T>)
        ensures
            match r {
                Some(v) => offset + T::byte_len() <= 32 && v.to_nat() == be_value(
                    self.spec_hash().subrange(offset as int, offset as int + T::byte_len() as int),
                ),
                None => offset + T::byte_len() > 32,
            },
    {
        let n = T::num_bytes();
        match self.get_slice(offset, n) {
            Some(s) => Some(T::from_bytes(s)),
            None => None,
        }
    }

    /// Lower 16 bytes of the hash interpreted as a big-endian, unsigned int.
    pub fn lower_128(&self) -> (r: u128)
        ensures
            r as nat == be_value(self.spec_hash().subrange(0, 16)),
    {
        let r = self.slice_int::<u128>(0);
        r.unwrap()
    }

    /// Lower 8 bytes of the hash interpreted as a big-endian, unsigned int.
    pub fn lower_64(&self) -> (r: u64)
        ensures
            r as nat == be_value(self.spec_hash().subrange(0, 8)),
    {
        let r = self.slice_int::<u64>(0);
        r.unwrap()
    }

    /// Lower 4 bytes of the hash interpreted as a big-endian, unsigned int.
    pub fn lower_32(&self) -> (r: u32)
        ensures
            r as nat == be_value(self.spec_hash().subrange(0, 4)),
    {
        let r = self.slice_int::<u32>(0);
        r.unwrap()
    }

    /// Lower 2 bytes of the hash interpreted as a big-endian, unsigned int.
    pub fn lower_16(&self) -> (r: u16)
        ensures
            r as nat == be_value(self.spec_hash().subrange(0, 2)),
    {
        let r = self.slice_int::<u16>(0);
        r.unwrap()
    }

    /// The first candidate position of this keyword's seed block inside an
    /// extent of `n_blocks` blocks: the whole hash, read as an unsigned
    /// big-endian integer, reduced modulo `n_blocks`.
    pub fn seed_index(&self, n_blocks: u64) -> (r: u64)
        requires
            n_blocks > 0,
        ensures
            r < n_blocks,
            r as nat == be_value(self.spec_hash()) % n_blocks as nat,
    {
        let mut acc: u64 = 0;
        let mut i: usize = 0;
        proof {
            assert(self.hash@.take(0) =~= Seq::<u8>::empty());
            lemma_small_mod(0, n_blocks as nat);
        }
        while i < 32
            invariant
                i <= 32,
                n_blocks > 0,
                acc < n_blocks,
                acc as nat == be_value(self.hash@.take(i as int)) % n_blocks as nat,
            decreases 32 - i,
        {
            let b = self.hash[i];
            let t: u128 = acc as u128 * 256 + b as u128;
            let m: u64 = (t % n_blocks as u128) as u64;
            proof {
                let prev = be_value(self.hash@.take(i as int)) as int;
                let n = n_blocks as int;
                assert(self.hash@.take(i as int + 1).drop_last() =~= self.hash@.take(i as int));
                assert(self.hash@.take(i as int + 1).last() == self.hash@[i as int]);
                lemma_mul_mod_noop_left(prev, 256, n);
                lemma_add_mod_noop(prev * 256, b as int, n);
                lemma_add_mod_noop((prev % n) * 256, b as int, n);
                lemma_mod_bound(t as int, n);
            }
            acc = m;
            i = i + 1;
        }
        proof {
            assert(self.hash@.take(32) =~= self.hash@);
        }
        acc
    }

    /// The encryption key of the block at chain position `block_id` of this
    /// keyword's aspect: the digest of the keyword hash followed by the
    /// position.  The key depends on the logical position only, never on the
    /// physical address, so a moved block keeps its ciphertext semantics.
    pub fn block_key(&self, block_id: u64) -> (r: Key)
        ensures
            r@ == block_key_of(self.spec_hash(), block_id),
    {
        let mut buf: Vec<u8> = slice_to_vec(self.hash.as_slice());
        let mut tail = u64_to_be_bytes(block_id);
        buf.append(&mut tail);
        hash(buf.as_slice())
    }
}

/// The per-position block key derived from a keyword hash.
pub open spec fn block_key_of(hash: Seq<u8>, block_id: u64) -> Seq<u8> {
    sha256_of(hash + u64_be_bytes(block_id))
}

/// Able to convert from a slice of bytes.
pub trait FromByteSlice: Sized {
    /// How many bytes the type is read from.
    spec fn byte_len() -> nat;

    /// The numeric value of the converted result.
    spec fn to_nat(self) -> nat;

    /// How many bytes the type is read from.
    fn num_bytes() -> (n: usize)
        ensures
            n as nat == Self::byte_len(),
    ;

    /// Converts the slice into the type, assuming both unsigned-ness and
    /// big-endian-ness.
    fn from_bytes(bytes: &[u8]) -> (r: Self)
        requires
            bytes@.len() == Self::byte_len(),
        ensures
            r.to_nat() == be_value(bytes@),
    ;
}

impl FromByteSlice for u8 {
    open spec fn byte_len() -> nat {
        1
    }

    open spec fn to_nat(self) -> nat {
        self as nat
    }

    fn num_bytes() -> usize {
        1
    }

    fn from_bytes(bytes: &[u8]) -> (r: u8) {
        proof {
            lemma_be_value_bound(bytes@);
            lemma2_to64();
        }
        let v = be_u128(bytes);
        v as u8
    }
}

impl FromByteSlice for u16 {
    open spec fn byte_len() -> nat {
        2
    }

    open spec fn to_nat(self) -> nat {
        self as nat
    }

    fn num_bytes() -> usize {
        2
    }

    fn from_bytes(bytes: &[u8]) -> (r: u16) {
        proof {
            lemma_be_value_bound(bytes@);
            lemma2_to64();
        }
        let v = be_u128(bytes);
        v as u16
    }
}

impl FromByteSlice for u32 {
    open spec fn byte_len() -> nat {
        4
    }

    open spec fn to_nat(self) -> nat {
        self as nat
    }

    fn num_bytes() -> usize {
        4
    }

    fn from_bytes(bytes: &[u8]) -> (r: u32) {
        proof {
            lemma_be_value_bound(bytes@);
            lemma2_to64();
        }
        let v = be_u128(bytes);
        v as u32
    }
}

impl FromByteSlice for u64 {
    open spec fn byte_len() -> nat {
        8
    }

    open spec fn to_nat(self) -> nat {
        self as nat
    }

    fn num_bytes() -> usize {
        8
    }

    fn from_bytes(bytes: &[u8]) -> (r: u64) {
        proof {
            lemma_be_value_bound(bytes@);
            lemma2_to64_rest();
        }
        let v = be_u128(bytes);
        v as u64
    }
}

impl FromByteSlice for u128 {
    open spec fn byte_len() -> nat {
        16
    }

    open spec fn to_nat(self) -> nat {
        self as nat
    }

    fn num_bytes() -> usize {
        16
    }

    fn from_bytes(bytes: &[u8]) -> (r: u128) {
        be_u128(bytes)
    }
}

} // verus!
