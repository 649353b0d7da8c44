//! Byte-level building blocks of the file formats: big-endian integers,
//! padding to sixteen bytes and markers.

use vstd::prelude::*;
use byteorder::BigEndian;
use byteorder::ByteOrder;

verus! {

/// The byte of `n` that starts `shift` bits above its lowest bit.
pub open spec fn hi_byte(n: u64, shift: u64) -> u8 {
    (n >> shift) as u8
}

/// The eight bytes of `n`, most significant first.
#[verifier::opaque]
pub open spec fn be64(n: u64) -> Seq<u8> {
    seq![
        hi_byte(n, 56),
        hi_byte(n, 48),
        hi_byte(n, 40),
        hi_byte(n, 32),
        hi_byte(n, 24),
        hi_byte(n, 16),
        hi_byte(n, 8),
        hi_byte(n, 0),
    ]
}

/// The integer whose bytes, most significant first, are `b0` to `b7`.
pub open spec fn join64(b0: u8, b1: u8, b2: u8, b3: u8, b4: u8, b5: u8, b6: u8, b7: u8) -> u64 {
    (b0 as u64) << 56 | (b1 as u64) << 48 | (b2 as u64) << 40 | (b3 as u64) << 32 | (b4 as u64)
        << 24 | (b5 as u64) << 16 | (b6 as u64) << 8 | (b7 as u64)
}

/// The integer that the first eight bytes of `s` encode, most significant first.
pub open spec fn from_be64(s: Seq<u8>) -> u64 {
    join64(s[0], s[1], s[2], s[3], s[4], s[5], s[6], s[7])
}

/// The four bytes of `n`, most significant first.
#[verifier::opaque]
pub open spec fn be32(n: u32) -> Seq<u8> {
    seq![(n >> 24) as u8, (n >> 16) as u8, (n >> 8) as u8, n as u8]
}

/// The integer whose bytes, most significant first, are `b0` to `b3`.
pub open spec fn join32(b0: u8, b1: u8, b2: u8, b3: u8) -> u32 {
    (b0 as u32) << 24 | (b1 as u32) << 16 | (b2 as u32) << 8 | (b3 as u32)
}

/// The integer that the first four bytes of `s` encode, most significant first.
pub open spec fn from_be32(s: Seq<u8>) -> u32 {
    join32(s[0], s[1], s[2], s[3])
}

/// The eight bytes of a signed integer in two's complement, most significant first.
pub open spec fn be64_signed(n: i64) -> Seq<u8> {
    be64(n as u64)
}

/// The signed integer that the first eight bytes of `s` encode.
pub open spec fn from_be64_signed(s: Seq<u8>) -> i64 {
    from_be64(s) as i64
}

/// Decoding the encoding of `n` gives `n` back.
pub proof fn lemma_be64_decodes(n: u64)
    ensures
        be64(n).len() == 8,
        from_be64(be64(n)) == n,
{
    reveal(be64);
    assert(join64(
        hi_byte(n, 56),
        hi_byte(n, 48),
        hi_byte(n, 40),
        hi_byte(n, 32),
        hi_byte(n, 24),
        hi_byte(n, 16),
        hi_byte(n, 8),
        hi_byte(n, 0),
    ) == n) by (bit_vector);
}

/// Encoding what eight bytes decode to gives the eight bytes back.
pub proof fn lemma_be64_encodes(s: Seq<u8>)
    requires
        s.len() == 8,
    ensures
        be64(from_be64(s)) == s,
{
    reveal(be64);
    let (b0, b1, b2, b3, b4, b5, b6, b7) = (s[0], s[1], s[2], s[3], s[4], s[5], s[6], s[7]);
    let n = join64(b0, b1, b2, b3, b4, b5, b6, b7);
    assert(hi_byte(join64(b0, b1, b2, b3, b4, b5, b6, b7), 56) == b0) by (bit_vector);
    assert(hi_byte(join64(b0, b1, b2, b3, b4, b5, b6, b7), 48) == b1) by (bit_vector);
    assert(hi_byte(join64(b0, b1, b2, b3, b4, b5, b6, b7), 40) == b2) by (bit_vector);
    assert(hi_byte(join64(b0, b1, b2, b3, b4, b5, b6, b7), 32) == b3) by (bit_vector);
    assert(hi_byte(join64(b0, b1, b2, b3, b4, b5, b6, b7), 24) == b4) by (bit_vector);
    assert(hi_byte(join64(b0, b1, b2, b3, b4, b5, b6, b7), 16) == b5) by (bit_vector);
    assert(hi_byte(join64(b0, b1, b2, b3, b4, b5, b6, b7), 8) == b6) by (bit_vector);
    assert(hi_byte(join64(b0, b1, b2, b3, b4, b5, b6, b7), 0) == b7) by (bit_vector);
    assert(be64(n) =~= s);
}

/// Decoding the encoding of a 32-bit `n` gives `n` back.
pub proof fn lemma_be32_decodes(n: u32)
    ensures
        be32(n).len() == 4,
        from_be32(be32(n)) == n,
{
    reveal(be32);
    assert(join32((n >> 24) as u8, (n >> 16) as u8, (n >> 8) as u8, n as u8) == n)
        by (bit_vector);
}

/// A signed integer survives the passage through its unsigned bit pattern.
pub proof fn lemma_signed_round_trip(n: i64)
    ensures
        from_be64_signed(be64_signed(n)) == n,
{
    lemma_be64_decodes(n as u64);
    assert((n as u64) as i64 == n) by (bit_vector);
}

/// Number of NUL bytes that bring a field of `n` bytes to a multiple of sixteen.
pub open spec fn pad_len(n: nat) -> nat {
    ((16 - n % 16) % 16) as nat
}

/// `n` NUL bytes.
pub open spec fn zeros(n: nat) -> Seq<u8> {
    Seq::new(n, |i: int| 0u8)
}

/// `s` followed by the NUL bytes that bring it to a multiple of sixteen.
pub open spec fn padded(s: Seq<u8>) -> Seq<u8> {
    s + zeros(pad_len(s.len()))
}

/// Reads a big-endian `u64` with `byteorder::BigEndian::read_u64`, which
/// decodes the first eight bytes of the buffer and panics on a shorter one.
#[verifier::external_body]
pub(crate) fn decode_u64(buf: &[u8]) -> (n: u64)
    requires
        buf@.len() >= 8,
    ensures
        n == from_be64(buf@),
{
    BigEndian::read_u64(buf)
}

/// Reads a big-endian `u32` with `byteorder::BigEndian::read_u32`, which
/// decodes the first four bytes of the buffer and panics on a shorter one.
#[verifier::external_body]
pub(crate) fn decode_u32(buf: &[u8]) -> (n: u32)
    requires
        buf@.len() >= 4,
    ensures
        n == from_be32(buf@),
{
    BigEndian::read_u32(buf)
}

/// Reads a big-endian `i64` with `byteorder::BigEndian::read_i64`, which is
/// `read_u64` followed by a cast to the signed type.
#[verifier::external_body]
pub(crate) fn decode_i64(buf: &[u8]) -> (n: i64)
    requires
        buf@.len() >= 8,
    ensures
        n == from_be64_signed(buf@),
{
    BigEndian::read_i64(buf)
}

/// Encodes a `u64` with `byteorder::BigEndian::write_u64`, which stores the
/// eight bytes of `n`, most significant first, at the start of the buffer.
#[verifier::external_body]
pub(crate) fn encode_u64(n: u64) -> (out: [u8; 8])
    ensures
        out@ == be64(n),
{
    let mut out = [0u8; 8];
    BigEndian::write_u64(&mut out, n);
    out
}

/// Encodes a `u32` with `byteorder::BigEndian::write_u32`, which stores the
/// four bytes of `n`, most significant first, at the start of the buffer.
#[verifier::external_body]
pub(crate) fn encode_u32(n: u32) -> (out: [u8; 4])
    ensures
        out@ == be32(n),
{
    let mut out = [0u8; 4];
    BigEndian::write_u32(&mut out, n);
    out
}

/// Encodes an `i64` with `byteorder::BigEndian::write_i64`, which casts `n`
/// to the unsigned type and stores it as `write_u64` does.
#[verifier::external_body]
pub(crate) fn encode_i64(n: i64) -> (out: [u8; 8])
    ensures
        out@ == be64_signed(n),
{
    let mut out = [0u8; 8];
    BigEndian::write_i64(&mut out, n);
    out
}

/// Appends `s` to `w`.
pub fn append(w: &mut Vec<u8>, s: &[u8])
    ensures
        final(w)@ == old(w)@ + s@,
{
    let mut i: usize = 0;
    while i < s.len()
        invariant
            i <= s.len(),
            w@ == old(w)@ + s@.subrange(0, i as int),
        decreases s.len() - i,
    {
        w.push(s[i]);
        i += 1;
        assert(w@ =~= old(w)@ + s@.subrange(0, i as int));
    }
    assert(s@.subrange(0, s.len() as int) =~= s@);
}

/// Appends `n` NUL bytes to `w`.
pub fn append_zeros(w: &mut Vec<u8>, n: usize)
    ensures
        final(w)@ == old(w)@ + zeros(n as nat),
{
    let mut i: usize = 0;
    while i < n
        invariant
            i <= n,
            w@ == old(w)@ + zeros(i as nat),
        decreases n - i,
    {
        w.push(0u8);
        i += 1;
        assert(w@ =~= old(w)@ + zeros(i as nat));
    }
}

/// Number of NUL bytes that follow a field of `n` bytes.
pub fn padding_for(n: usize) -> (r: usize)
    ensures
        r == pad_len(n as nat),
        r < 16,
{
    (16 - n % 16) % 16
}

/// Appends `s` and its padding to `w`.
pub fn append_padded(w: &mut Vec<u8>, s: &[u8])
    ensures
        final(w)@ == old(w)@ + padded(s@),
{
    append(w, s);
    append_zeros(w, padding_for(s.len()));
    assert(w@ =~= old(w)@ + padded(s@));
}

/// Appends the eight bytes of `n`.
pub fn append_u64(w: &mut Vec<u8>, n: u64)
    ensures
        final(w)@ == old(w)@ + be64(n),
{
    let b = encode_u64(n);
    append(w, b.as_slice());
}

/// Appends the four bytes of `n`.
pub fn append_u32(w: &mut Vec<u8>, n: u32)
    ensures
        final(w)@ == old(w)@ + be32(n),
{
    let b = encode_u32(n);
    append(w, b.as_slice());
}

/// Appends the eight bytes of the signed `n`.
pub fn append_i64(w: &mut Vec<u8>, n: i64)
    ensures
        final(w)@ == old(w)@ + be64_signed(n),
{
    let b = encode_i64(n);
    append(w, b.as_slice());
}

/// Whether `len` bytes can be read at `pos`.
pub open spec fn avail(bytes: Seq<u8>, pos: int, len: int) -> bool {
    0 <= pos && 0 <= len && pos + len <= bytes.len()
}

/// The `len` bytes at `pos`.
pub open spec fn field(bytes: Seq<u8>, pos: int, len: int) -> Seq<u8> {
    bytes.subrange(pos, pos + len)
}

/// Whether `marker` stands at `pos`.
pub open spec fn marked(bytes: Seq<u8>, pos: int, marker: Seq<u8>) -> bool {
    avail(bytes, pos, marker.len() as int) && field(bytes, pos, marker.len() as int) == marker
}

/// Tests whether `marker` stands at `pos` in `bytes`.
pub fn is_marked(bytes: &[u8], pos: usize, marker: &[u8]) -> (r: bool)
    ensures
        r == marked(bytes@, pos as int, marker@),
{
    if marker.len() > bytes.len() || pos > bytes.len() - marker.len() {
        return false;
    }
    let mut i: usize = 0;
    while i < marker.len()
        invariant
            i <= marker.len(),
            pos + marker.len() <= bytes.len(),
            forall|j: int| 0 <= j < i ==> bytes@[pos + j] == marker@[j],
        decreases marker.len() - i,
    {
        if bytes[pos + i] != marker[i] {
            assert(field(bytes@, pos as int, marker@.len() as int)[i as int] != marker@[i as int]);
            return false;
        }
        i += 1;
    }
    assert(field(bytes@, pos as int, marker@.len() as int) =~= marker@);
    true
}

/// Copies the bytes from `from` up to `to`.
pub fn copy_range(bytes: &[u8], from: usize, to: usize) -> (out: Vec<u8>)
    requires
        from <= to <= bytes.len(),
    ensures
        out@ == bytes@.subrange(from as int, to as int),
{
    let mut out: Vec<u8> = Vec::new();
    let mut i: usize = from;
    while i < to
        invariant
            from <= i <= to <= bytes.len(),
            out@ == bytes@.subrange(from as int, i as int),
        decreases to - i,
    {
        out.push(bytes[i]);
        i += 1;
        assert(out@ =~= bytes@.subrange(from as int, i as int));
    }
    out
}

/// Reads the big-endian `u64` at `pos`.
pub fn u64_at(bytes: &[u8], pos: usize) -> (n: u64)
    requires
        pos + 8 <= bytes.len(),
    ensures
        n == from_be64(field(bytes@, pos as int, 8)),
{
    let part = vstd::slice::slice_subrange(bytes, pos, pos + 8);
    decode_u64(part)
}

/// Reads the big-endian `u32` at `pos`.
pub fn u32_at(bytes: &[u8], pos: usize) -> (n: u32)
    requires
        pos + 4 <= bytes.len(),
    ensures
        n == from_be32(field(bytes@, pos as int, 4)),
{
    let part = vstd::slice::slice_subrange(bytes, pos, pos + 4);
    decode_u32(part)
}

/// Reads the big-endian `i64` at `pos`.
pub fn i64_at(bytes: &[u8], pos: usize) -> (n: i64)
    requires
        pos + 8 <= bytes.len(),
    ensures
        n == from_be64_signed(field(bytes@, pos as int, 8)),
{
    let part = vstd::slice::slice_subrange(bytes, pos, pos + 8);
    decode_i64(part)
}

} // verus!
