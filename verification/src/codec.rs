//! Fixed-width integers in big-endian byte order, byte buffers and checksums:
//! the primitives every on-disk structure here is put together from.

use vstd::prelude::*;

verus! {

/// The two bytes of `v`, most significant first.
#[verifier::opaque]
pub open spec fn u16_be(v: u16) -> Seq<u8> {
    seq![(v / 256) as u8, (v % 256) as u8]
}

/// The number whose big-endian bytes are `hi`, `lo`.
pub open spec fn u16_from_be(hi: u8, lo: u8) -> u16 {
    (hi * 256 + lo) as u16
}

/// The four bytes of `v`, most significant first.
#[verifier::opaque]
pub open spec fn u32_be(v: u32) -> Seq<u8> {
    seq![
        (v / 0x100_0000) as u8,
        ((v / 0x1_0000) % 256) as u8,
        ((v / 256) % 256) as u8,
        (v % 256) as u8,
    ]
}

/// The number whose big-endian bytes are `b0`, `b1`, `b2`, `b3`.
pub open spec fn u32_from_be(b0: u8, b1: u8, b2: u8, b3: u8) -> u32 {
    (b0 * 0x100_0000 + b1 * 0x1_0000 + b2 * 256 + b3) as u32
}

/// The 16-bit number stored at `pos` in `data`.
pub open spec fn u16_at(data: Seq<u8>, pos: int) -> u16 {
    u16_from_be(data[pos], data[pos + 1])
}

/// The 32-bit number stored at `pos` in `data`.
pub open spec fn u32_at(data: Seq<u8>, pos: int) -> u32 {
    u32_from_be(data[pos], data[pos + 1], data[pos + 2], data[pos + 3])
}

/// A 16-bit number takes two bytes.
pub broadcast proof fn lemma_u16_be_len(v: u16)
    ensures
        #[trigger] u16_be(v).len() == 2,
{
    reveal(u16_be);
}

/// A 32-bit number takes four bytes.
pub broadcast proof fn lemma_u32_be_len(v: u32)
    ensures
        #[trigger] u32_be(v).len() == 4,
{
    reveal(u32_be);
}

/// The lengths of the stored numbers.
pub broadcast group group_be_len {
    lemma_u16_be_len,
    lemma_u32_be_len,
}

/// Reading back the bytes of a 16-bit number gives the number.
pub proof fn lemma_u16_round_trip(v: u16)
    ensures
        u16_be(v).len() == 2,
        u16_from_be(u16_be(v)[0], u16_be(v)[1]) == v,
{
    reveal(u16_be);
}

/// Reading back the bytes of a 32-bit number gives the number.
pub proof fn lemma_u32_round_trip(v: u32)
    ensures
        u32_be(v).len() == 4,
        u32_from_be(u32_be(v)[0], u32_be(v)[1], u32_be(v)[2], u32_be(v)[3]) == v,
{
    reveal(u32_be);
}

/// A 32-bit number that follows `before` in a byte string is read back at
/// the length of `before`.
pub proof fn lemma_u32_at_concat(before: Seq<u8>, v: u32, after: Seq<u8>)
    ensures
        u32_be(v).len() == 4,
        u32_at(before + u32_be(v) + after, before.len() as int) == v,
{
    lemma_u32_round_trip(v);
    let s = before + u32_be(v) + after;
    assert(s[before.len() as int] == u32_be(v)[0]);
    assert(s[before.len() as int + 1] == u32_be(v)[1]);
    assert(s[before.len() as int + 2] == u32_be(v)[2]);
    assert(s[before.len() as int + 3] == u32_be(v)[3]);
}

/// Four digits to the base 256 are given by the number they write.
proof fn lemma_base_256_injective(
    a0: int,
    a1: int,
    a2: int,
    a3: int,
    b0: int,
    b1: int,
    b2: int,
    b3: int,
)
    requires
        0 <= a0 < 256 && 0 <= a1 < 256 && 0 <= a2 < 256 && 0 <= a3 < 256,
        0 <= b0 < 256 && 0 <= b1 < 256 && 0 <= b2 < 256 && 0 <= b3 < 256,
        a0 * 0x100_0000 + a1 * 0x1_0000 + a2 * 256 + a3 == b0 * 0x100_0000 + b1 * 0x1_0000 + b2
            * 256 + b3,
    ensures
        a0 == b0 && a1 == b1 && a2 == b2 && a3 == b3,
{
}

/// Four bytes that differ in one place are different numbers.
pub proof fn lemma_u32_from_be_injective(a: Seq<u8>, b: Seq<u8>)
    requires
        a.len() == 4,
        b.len() == 4,
        a != b,
    ensures
        u32_at(a, 0) != u32_at(b, 0),
{
    if u32_at(a, 0) == u32_at(b, 0) {
        lemma_base_256_injective(
            a[0] as int,
            a[1] as int,
            a[2] as int,
            a[3] as int,
            b[0] as int,
            b[1] as int,
            b[2] as int,
            b[3] as int,
        );
        assert(a =~= b);
    }
}

/// Writing the number read from two bytes gives those bytes.
pub proof fn lemma_u16_bytes_round_trip(hi: u8, lo: u8)
    ensures
        u16_be(u16_from_be(hi, lo)) == seq![hi, lo],
{
    reveal(u16_be);
    assert(u16_be(u16_from_be(hi, lo)) =~= seq![hi, lo]);
}

/// The CRC-32 checksum of a byte string, as `crc32fast::hash` computes it.
pub uninterp spec fn crc32(data: Seq<u8>) -> u32;

/// The bytes that a `bytes::Bytes` buffer holds.
pub uninterp spec fn bytes_view(b: bytes::Bytes) -> Seq<u8>;

/// `bytes::Bytes`, an immutable shared byte buffer.
#[verifier::external_type_specification]
#[verifier::external_body]
pub struct ExBytes(bytes::Bytes);

/// Calls `bytes::BufMut::put_u16` on a vector, which appends the two bytes of
/// `v` in big-endian order and leaves what the vector held in place.
#[verifier::external_body]
pub(crate) fn put_u16(buf: &mut Vec<u8>, v: u16)
    ensures
        final(buf)@ == old(buf)@ + u16_be(v),
{
    bytes::BufMut::put_u16(buf, v)
}

/// Calls `bytes::BufMut::put_u32` on a vector, which appends the four bytes of
/// `v` in big-endian order and leaves what the vector held in place.
#[verifier::external_body]
pub(crate) fn put_u32(buf: &mut Vec<u8>, v: u32)
    ensures
        final(buf)@ == old(buf)@ + u32_be(v),
{
    bytes::BufMut::put_u32(buf, v)
}

/// Calls `bytes::BufMut::put` on a vector with a slice as the source, which
/// appends every byte of the slice in order.
#[verifier::external_body]
pub(crate) fn put_slice(buf: &mut Vec<u8>, src: &[u8])
    ensures
        final(buf)@ == old(buf)@ + src@,
{
    bytes::BufMut::put(buf, src)
}

/// Calls `bytes::Buf::get_u16` on a slice, which reads its first two bytes as
/// a big-endian number. The call panics on a slice shorter than two bytes.
#[verifier::external_body]
pub(crate) fn get_u16(data: &[u8]) -> (v: u16)
    requires
        data@.len() >= 2,
    ensures
        v == u16_at(data@, 0),
{
    let mut cursor = data;
    bytes::Buf::get_u16(&mut cursor)
}

/// Calls `bytes::Buf::get_u32` on a slice, which reads its first four bytes as
/// a big-endian number. The call panics on a slice shorter than four bytes.
#[verifier::external_body]
pub(crate) fn get_u32(data: &[u8]) -> (v: u32)
    requires
        data@.len() >= 4,
    ensures
        v == u32_at(data@, 0),
{
    let mut cursor = data;
    bytes::Buf::get_u32(&mut cursor)
}

/// Calls `bytes::Bytes::from` on a vector: the buffer holds the vector's bytes.
#[verifier::external_body]
pub(crate) fn bytes_from_vec(v: Vec<u8>) -> (b: bytes::Bytes)
    ensures
        bytes_view(b) == v@,
{
    bytes::Bytes::from(v)
}

/// Calls `AsRef::<[u8]>::as_ref` on a `bytes::Bytes`: the slice is what the
/// buffer holds.
#[verifier::external_body]
pub(crate) fn bytes_as_slice(b: &bytes::Bytes) -> (s: &[u8])
    ensures
        s@ == bytes_view(*b),
{
    b.as_ref()
}

/// Calls `crc32fast::hash`, the CRC-32 checksum of the slice.
#[verifier::external_body]
pub(crate) fn checksum(data: &[u8]) -> (c: u32)
    ensures
        c == crc32(data@),
{
    crc32fast::hash(data)
}

/// The 16-bit number stored at `pos` in `data`.
pub fn read_u16(data: &[u8], pos: usize) -> (v: u16)
    requires
        pos + 2 <= data@.len(),
    ensures
        v == u16_at(data@, pos as int),
{
    get_u16(vstd::slice::slice_subrange(data, pos, data.len()))
}

/// The 32-bit number stored at `pos` in `data`.
pub fn read_u32(data: &[u8], pos: usize) -> (v: u32)
    requires
        pos + 4 <= data@.len(),
    ensures
        v == u32_at(data@, pos as int),
{
    get_u32(vstd::slice::slice_subrange(data, pos, data.len()))
}

} // verus!
