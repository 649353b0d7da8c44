//! Checksums: the identity of elements and of states.

use vstd::prelude::*;
use crypto::digest::Digest;
use crypto::sha2::Sha256;
use crate::wire::be64;
use crate::wire::from_be64;
use crate::wire::field;
use crate::wire::lemma_be64_decodes;
use crate::wire::lemma_be64_encodes;
use crate::wire::u64_at;
use crate::wire::append_u64;
use vstd::string::StringExecFns;
use crate::text::hex_pair;
use crate::text::push_hex;

verus! {

/// Number of bytes in a checksum.
pub const BYTES: usize = 32;

/// The SHA-256 digest of a byte string.
pub uninterp spec fn sha256(data: Seq<u8>) -> Seq<u8>;

/// Computes the SHA-256 digest of `data` with `crypto::sha2::Sha256`:
/// `Digest::input` on a new hasher, then `Digest::result` into 32 bytes.
/// The contract gives the digest its name; that it has 32 bytes follows from
/// the type.
#[verifier::external_body]
pub(crate) fn sha256_digest(data: &[u8]) -> (out: [u8; 32])
    ensures
        out@ == sha256(data@),
{
    let mut hasher = Sha256::new();
    hasher.input(data);
    let mut out = [0u8; 32];
    hasher.result(&mut out);
    out
}

/// A checksum of 32 bytes, held as four words; `w0` holds the first eight
/// bytes, most significant first.
#[derive(Clone, Copy, Debug, PartialEq, Eq, Structural, Hash)]
pub struct Sum {
    pub w0: u64,
    pub w1: u64,
    pub w2: u64,
    pub w3: u64,
}

/// The checksum of an element: the digest of the identifier's eight bytes
/// followed by the payload.
pub open spec fn elt_sum_of(id: u64, data: Seq<u8>) -> Sum {
    Sum::from_bytes(sha256(be64(id) + data))
}

/// The checksum of a byte string: its digest.
pub open spec fn sum_of(data: Seq<u8>) -> Sum {
    Sum::from_bytes(sha256(data))
}

impl Sum {
    /// The checksum whose bytes are all zero.
    pub open spec fn zero_sum() -> Sum {
        Sum { w0: 0, w1: 0, w2: 0, w3: 0 }
    }

    /// The 32 bytes of the checksum.
    #[verifier::opaque]
    pub open spec fn bytes(self) -> Seq<u8> {
        be64(self.w0) + be64(self.w1) + be64(self.w2) + be64(self.w3)
    }

    /// The checksum that the first 32 bytes of `s` hold.
    pub open spec fn from_bytes(s: Seq<u8>) -> Sum {
        Sum {
            w0: from_be64(field(s, 0, 8)),
            w1: from_be64(field(s, 8, 8)),
            w2: from_be64(field(s, 16, 8)),
            w3: from_be64(field(s, 24, 8)),
        }
    }

    /// Bitwise exclusive or of two checksums.
    pub open spec fn xored(self, other: Sum) -> Sum {
        Sum {
            w0: self.w0 ^ other.w0,
            w1: self.w1 ^ other.w1,
            w2: self.w2 ^ other.w2,
            w3: self.w3 ^ other.w3,
        }
    }

    /// The zero checksum.
    pub fn zero() -> (r: Sum)
        ensures
            r == Sum::zero_sum(),
    {
        Sum { w0: 0, w1: 0, w2: 0, w3: 0 }
    }

    /// Loads a checksum from exactly 32 bytes.
    pub fn load(bytes: &[u8]) -> (r: Sum)
        requires
            bytes.len() == BYTES,
        ensures
            r == Sum::from_bytes(bytes@),
    {
        Sum::load_at(bytes, 0)
    }

    /// Loads the checksum that stands at `pos`.
    pub fn load_at(bytes: &[u8], pos: usize) -> (r: Sum)
        requires
            pos + BYTES <= bytes.len(),
        ensures
            r == Sum::from_bytes(field(bytes@, pos as int, 32)),
    {
        proof {
            let s = field(bytes@, pos as int, 32);
            assert(field(s, 0, 8) =~= field(bytes@, pos as int, 8));
            assert(field(s, 8, 8) =~= field(bytes@, pos + 8, 8));
            assert(field(s, 16, 8) =~= field(bytes@, pos + 16, 8));
            assert(field(s, 24, 8) =~= field(bytes@, pos + 24, 8));
        }
        Sum {
            w0: u64_at(bytes, pos),
            w1: u64_at(bytes, pos + 8),
            w2: u64_at(bytes, pos + 16),
            w3: u64_at(bytes, pos + 24),
        }
    }

    /// Appends the 32 bytes of the checksum to `w`.
    pub fn write(&self, w: &mut Vec<u8>)
        ensures
            final(w)@ == old(w)@ + self.bytes(),
    {
        proof {
            reveal(Sum::bytes);
        }
        append_u64(w, self.w0);
        append_u64(w, self.w1);
        append_u64(w, self.w2);
        append_u64(w, self.w3);
        assert(w@ =~= old(w)@ + self.bytes());
    }

    /// The 32 bytes of the checksum.
    pub fn to_bytes(&self) -> (out: Vec<u8>)
        ensures
            out@ == self.bytes(),
    {
        let mut out: Vec<u8> = Vec::new();
        self.write(&mut out);
        assert(out@ =~= self.bytes());
        out
    }

    /// Bitwise exclusive or with `other`.
    pub fn xor(&self, other: &Sum) -> (r: Sum)
        ensures
            r == self.xored(*other),
    {
        Sum {
            w0: self.w0 ^ other.w0,
            w1: self.w1 ^ other.w1,
            w2: self.w2 ^ other.w2,
            w3: self.w3 ^ other.w3,
        }
    }

    /// Whether the checksum that stands at `pos` in `bytes` is this one.
    pub fn eq_at(&self, bytes: &[u8], pos: usize) -> (r: bool)
        requires
            pos + BYTES <= bytes.len(),
        ensures
            r == (field(bytes@, pos as int, 32) == self.bytes()),
    {
        let other = Sum::load_at(bytes, pos);
        proof {
            lemma_sum_bytes(*self);
            lemma_sum_of_bytes(field(bytes@, pos as int, 32));
        }
        *self == other
    }

    /// The digest of `data`.
    pub fn calculate(data: &[u8]) -> (r: Sum)
        ensures
            r == sum_of(data@),
    {
        let digest = sha256_digest(data);
        Sum::load(digest.as_slice())
    }

    /// The checksum of the element `id` with payload `data`.
    pub fn elt_sum(id: u64, data: &[u8]) -> (r: Sum)
        ensures
            r == elt_sum_of(id, data@),
    {
        let mut buf: Vec<u8> = Vec::new();
        append_u64(&mut buf, id);
        crate::wire::append(&mut buf, data);
        assert(buf@ =~= be64(id) + data@);
        Sum::calculate(buf.as_slice())
    }
}

/// A checksum is what its 32 bytes hold.
pub proof fn lemma_sum_bytes(s: Sum)
    ensures
        s.bytes().len() == 32,
        Sum::from_bytes(s.bytes()) == s,
{
    reveal(Sum::bytes);
    lemma_be64_decodes(s.w0);
    lemma_be64_decodes(s.w1);
    lemma_be64_decodes(s.w2);
    lemma_be64_decodes(s.w3);
    let b = s.bytes();
    assert(field(b, 0, 8) =~= be64(s.w0));
    assert(field(b, 8, 8) =~= be64(s.w1));
    assert(field(b, 16, 8) =~= be64(s.w2));
    assert(field(b, 24, 8) =~= be64(s.w3));
}

/// 32 bytes are the bytes of the checksum that they hold.
pub proof fn lemma_sum_of_bytes(b: Seq<u8>)
    requires
        b.len() == 32,
    ensures
        Sum::from_bytes(b).bytes() == b,
{
    reveal(Sum::bytes);
    lemma_be64_encodes(field(b, 0, 8));
    lemma_be64_encodes(field(b, 8, 8));
    lemma_be64_encodes(field(b, 16, 8));
    lemma_be64_encodes(field(b, 24, 8));
    assert(Sum::from_bytes(b).bytes() =~= b);
}

/// Exclusive or is commutative and associative, has the zero checksum as its
/// neutral element, and every checksum is its own inverse.
pub proof fn lemma_xor_laws(a: Sum, b: Sum, c: Sum)
    ensures
        a.xored(b) == b.xored(a),
        a.xored(b).xored(c) == a.xored(b.xored(c)),
        a.xored(Sum::zero_sum()) == a,
        Sum::zero_sum().xored(a) == a,
        a.xored(a) == Sum::zero_sum(),
        a.xored(b).xored(b) == a,
{
    lemma_xor_word(a.w0, b.w0, c.w0);
    lemma_xor_word(a.w1, b.w1, c.w1);
    lemma_xor_word(a.w2, b.w2, c.w2);
    lemma_xor_word(a.w3, b.w3, c.w3);
}

proof fn lemma_xor_word(a: u64, b: u64, c: u64)
    ensures
        a ^ b == b ^ a,
        (a ^ b) ^ c == a ^ (b ^ c),
        a ^ 0 == a,
        0 ^ a == a,
        a ^ a == 0,
        (a ^ b) ^ b == a,
{
    assert(a ^ b == b ^ a) by (bit_vector);
    assert((a ^ b) ^ c == a ^ (b ^ c)) by (bit_vector);
    assert(a ^ 0 == a) by (bit_vector);
    assert(0 ^ a == a) by (bit_vector);
    assert(a ^ a == 0) by (bit_vector);
    assert((a ^ b) ^ b == a) by (bit_vector);
}

/// The byte of the hexadecimal digit for a number below sixteen: `0` to
/// `9`, then `A` to `F`.
pub open spec fn hex_digit(d: int) -> u8 {
    if d < 10 {
        (48 + d) as u8
    } else {
        (55 + d) as u8
    }
}

/// The hexadecimal digits of bytes, two for each byte, as bytes.
pub open spec fn hex_bytes(b: Seq<u8>) -> Seq<u8>
    decreases b.len(),
{
    if b.len() == 0 {
        Seq::empty()
    } else {
        hex_bytes(b.drop_last()) + seq![
            hex_digit(b.last() as int / 16),
            hex_digit(b.last() as int % 16),
        ]
    }
}

/// The hexadecimal digits of bytes, two for each byte, as text; with
/// `separate`, a space stands behind every fourth byte but the last.
pub open spec fn hex_chars(b: Seq<u8>, separate: bool) -> Seq<char>
    decreases b.len(),
{
    if b.len() == 0 {
        Seq::empty()
    } else {
        hex_chars(b.drop_last(), separate) + (if separate && b.len() > 1 && (b.len() - 1) % 4
            == 0 {
            " "@
        } else {
            Seq::empty()
        }) + hex_pair(b.last())
    }
}

/// Whether `prefix` starts the hexadecimal digits of the checksum `s`.
pub open spec fn has_prefix(s: Sum, prefix: Seq<u8>) -> bool {
    prefix.len() <= 64 && prefix == hex_bytes(s.bytes()).subrange(0, prefix.len() as int)
}

/// Two hexadecimal digits for each byte.
pub proof fn lemma_hex_bytes(b: Seq<u8>)
    ensures
        hex_bytes(b).len() == 2 * b.len(),
        forall|i: int|
            0 <= i < b.len() ==> hex_bytes(b)[2 * i] == hex_digit(#[trigger] b[i] as int / 16)
                && hex_bytes(b)[2 * i + 1] == hex_digit(b[i] as int % 16),
    decreases b.len(),
{
    if b.len() > 0 {
        lemma_hex_bytes(b.drop_last());
        assert forall|i: int| 0 <= i < b.len() implies hex_bytes(b)[2 * i] == hex_digit(
            #[trigger] b[i] as int / 16,
        ) && hex_bytes(b)[2 * i + 1] == hex_digit(b[i] as int % 16) by {
            if i < b.len() - 1 {
                assert(b.drop_last()[i] == b[i]);
            }
        }
    }
}

impl Sum {
    /// Whether the hexadecimal digits of the checksum start with `string`,
    /// which holds digits and capital letters.
    pub fn matches_string(&self, string: &[u8]) -> (r: bool)
        ensures
            r == has_prefix(*self, string@),
    {
        if string.len() > 64 {
            return false;
        }
        let bytes = self.to_bytes();
        proof {
            lemma_sum_bytes(*self);
            lemma_hex_bytes(bytes@);
        }
        let ghost hex = hex_bytes(bytes@);
        let mut i: usize = 0;
        while i < string.len()
            invariant
                i <= string.len() <= 64,
                bytes@ == self.bytes(),
                bytes@.len() == 32,
                hex == hex_bytes(bytes@),
                hex.len() == 64,
                forall|k: int|
                    0 <= k < 32 ==> hex[2 * k] == hex_digit(#[trigger] bytes@[k] as int / 16)
                        && hex[2 * k + 1] == hex_digit(bytes@[k] as int % 16),
                forall|j: int| 0 <= j < i ==> string@[j] == hex[j],
            decreases string.len() - i,
        {
            let b = bytes[i / 2];
            let d = if i % 2 == 0 {
                b / 16
            } else {
                b % 16
            };
            let c = if d < 10 {
                48 + d
            } else {
                55 + d
            };
            proof {
                let k = (i / 2) as int;
                assert(bytes@[k] == b);
                assert(hex[i as int] == c);
            }
            if string[i] != c {
                assert(hex.subrange(0, string@.len() as int)[i as int] != string@[i as int]);
                return false;
            }
            i += 1;
        }
        assert(string@ =~= hex.subrange(0, string@.len() as int));
        true
    }

    /// The checksum in hexadecimal digits; with `separate`, in groups of
    /// eight digits with a space between them.
    pub fn as_string(&self, separate: bool) -> (s: String)
        ensures
            s@ == hex_chars(self.bytes(), separate),
    {
        let bytes = self.to_bytes();
        let mut s = String::new();
        let mut i: usize = 0;
        proof {
            assert(bytes@.subrange(0, 0) =~= Seq::<u8>::empty());
            assert(s@ =~= hex_chars(bytes@.subrange(0, 0), separate));
        }
        while i < bytes.len()
            invariant
                i <= bytes.len(),
                bytes@ == self.bytes(),
                s@ == hex_chars(bytes@.subrange(0, i as int), separate),
            decreases bytes.len() - i,
        {
            if separate && i > 0 && i % 4 == 0 {
                s.append(" ");
            }
            push_hex(&mut s, bytes[i]);
            proof {
                let t = bytes@.subrange(0, i + 1);
                assert(t.drop_last() =~= bytes@.subrange(0, i as int));
                assert(t.last() == bytes@[i as int]);
                assert(s@ =~= hex_chars(t, separate));
            }
            i += 1;
        }
        assert(bytes@.subrange(0, bytes@.len() as int) =~= bytes@);
        s
    }
}

impl Sum {
    /// Whether this checksum stands before `other` in the order of their
    /// bytes.
    pub open spec fn before(self, other: Sum) -> bool {
        self.w0 < other.w0 || (self.w0 == other.w0 && (self.w1 < other.w1 || (self.w1 == other.w1
            && (self.w2 < other.w2 || (self.w2 == other.w2 && self.w3 < other.w3)))))
    }

    /// Whether this checksum stands before `other` in the order of their
    /// bytes.
    pub fn is_before(&self, other: &Sum) -> (r: bool)
        ensures
            r == self.before(*other),
    {
        self.w0 < other.w0 || (self.w0 == other.w0 && (self.w1 < other.w1 || (self.w1 == other.w1
            && (self.w2 < other.w2 || (self.w2 == other.w2 && self.w3 < other.w3)))))
    }
}

} // verus!
