//! Byte buffers of the wire format: what the rest of the crate knows of `bytes::Bytes` and
//! `bytes::BytesMut`, and big-endian integers.
//!
//! Running out of memory is outside every contract here, as it is for `Vec`.

use bytes::{BufMut, Bytes, BytesMut};
use vstd::prelude::*;

verus! {

/// A shared, immutable byte string of the `bytes` crate.
#[verifier::external_type_specification]
#[verifier::external_body]
pub struct ExBytes(bytes::Bytes);

/// A growable byte buffer of the `bytes` crate.
#[verifier::external_type_specification]
#[verifier::external_body]
pub struct ExBytesMut(bytes::BytesMut);

/// The bytes that a `Bytes` holds.
pub uninterp spec fn bytes_view(b: Bytes) -> Seq<u8>;

/// The bytes that a `BytesMut` holds, without its spare capacity.
pub uninterp spec fn buffer_view(b: BytesMut) -> Seq<u8>;

/// `Bytes::clone`: another handle on the same bytes.
pub assume_specification[ <bytes::Bytes as Clone>::clone ](b: &bytes::Bytes) -> (r: bytes::Bytes)
    ensures
        bytes_view(r) == bytes_view(*b),
;

/// `Bytes::new`: the empty byte string.
#[verifier::external_body]
pub(crate) fn bytes_empty() -> (r: Bytes)
    ensures
        bytes_view(r) == Seq::<u8>::empty(),
{
    Bytes::new()
}

/// `Bytes::from(Vec<u8>)`: takes over the vector's bytes.
#[verifier::external_body]
pub(crate) fn bytes_from_vec(v: Vec<u8>) -> (r: Bytes)
    ensures
        bytes_view(r) == v@,
{
    Bytes::from(v)
}

/// `<Bytes as AsRef<[u8]>>::as_ref`: the bytes as a slice.
#[verifier::external_body]
pub(crate) fn bytes_as_slice(b: &Bytes) -> (r: &[u8])
    ensures
        r@ == bytes_view(*b),
{
    b.as_ref()
}

/// `Bytes::slice` over an open-ended range: the bytes from `from` on. It panics past the end.
#[verifier::external_body]
pub(crate) fn bytes_tail(b: &Bytes, from: usize) -> (r: Bytes)
    requires
        from <= bytes_view(*b).len(),
    ensures
        bytes_view(r) == bytes_view(*b).subrange(from as int, bytes_view(*b).len() as int),
{
    b.slice(from..)
}

/// `BytesMut::new`: the empty buffer.
#[verifier::external_body]
pub(crate) fn buffer_empty() -> (r: BytesMut)
    ensures
        buffer_view(r) == Seq::<u8>::empty(),
{
    BytesMut::new()
}

/// `BytesMut::len`: how many bytes the buffer holds.
#[verifier::external_body]
pub(crate) fn buffer_len(b: &BytesMut) -> (r: usize)
    ensures
        r == buffer_view(*b).len(),
{
    b.len()
}

/// `BytesMut::extend_from_slice`: appends the slice.
#[verifier::external_body]
pub(crate) fn buffer_extend(b: &mut BytesMut, data: &[u8])
    ensures
        buffer_view(*final(b)) == buffer_view(*old(b)) + data@,
{
    b.extend_from_slice(data)
}

/// `BufMut::put_u8`: appends one byte.
#[verifier::external_body]
pub(crate) fn buffer_put_u8(b: &mut BytesMut, value: u8)
    ensures
        buffer_view(*final(b)) == buffer_view(*old(b)).push(value),
{
    b.put_u8(value)
}

/// `BufMut::put_u16`: appends the two bytes of `value`, most significant first.
#[verifier::external_body]
pub(crate) fn buffer_put_u16(b: &mut BytesMut, value: u16)
    ensures
        buffer_view(*final(b)) == buffer_view(*old(b)) + be16(value),
{
    b.put_u16(value)
}

/// `BufMut::put_u32`: appends the four bytes of `value`, most significant first.
#[verifier::external_body]
pub(crate) fn buffer_put_u32(b: &mut BytesMut, value: u32)
    ensures
        buffer_view(*final(b)) == buffer_view(*old(b)) + be32(value),
{
    b.put_u32(value)
}

/// `copy_from_slice` into the range `from..to` of a `BytesMut`: overwrites those bytes. It
/// panics where the range is not in the buffer or has another length than the data.
#[verifier::external_body]
pub(crate) fn buffer_overwrite(b: &mut BytesMut, from: usize, to: usize, data: &[u8])
    requires
        from <= to <= buffer_view(*old(b)).len(),
        data@.len() == to - from,
    ensures
        buffer_view(*final(b)) == buffer_view(*old(b)).subrange(0, from as int) + data@
            + buffer_view(*old(b)).subrange(to as int, buffer_view(*old(b)).len() as int),
{
    b[from..to].copy_from_slice(data)
}

/// `BytesMut::truncate`: keeps the first `len` bytes, all of them where there are fewer.
#[verifier::external_body]
pub(crate) fn buffer_truncate(b: &mut BytesMut, len: usize)
    ensures
        buffer_view(*final(b)) == (if len <= buffer_view(*old(b)).len() {
            buffer_view(*old(b)).subrange(0, len as int)
        } else {
            buffer_view(*old(b))
        }),
{
    b.truncate(len)
}

/// `BytesMut::freeze`: the buffer's bytes as a `Bytes`.
#[verifier::external_body]
pub(crate) fn buffer_freeze(b: BytesMut) -> (r: Bytes)
    ensures
        bytes_view(r) == buffer_view(b),
{
    b.freeze()
}

/// The two bytes of `x`, most significant first.
pub open spec fn be16(x: u16) -> Seq<u8> {
    seq![(x / 0x100) as u8, (x % 0x100) as u8]
}

/// The four bytes of `x`, most significant first.
pub open spec fn be32(x: u32) -> Seq<u8> {
    seq![
        (x / 0x100_0000) as u8,
        (x / 0x1_0000 % 0x100) as u8,
        (x / 0x100 % 0x100) as u8,
        (x % 0x100) as u8,
    ]
}

/// The eight bytes of `x`, most significant first.
pub open spec fn be64(x: u64) -> Seq<u8> {
    seq![
        (x / 0x100_0000_0000_0000) as u8,
        (x / 0x1_0000_0000_0000 % 0x100) as u8,
        (x / 0x100_0000_0000 % 0x100) as u8,
        (x / 0x1_0000_0000 % 0x100) as u8,
        (x / 0x100_0000 % 0x100) as u8,
        (x / 0x1_0000 % 0x100) as u8,
        (x / 0x100 % 0x100) as u8,
        (x % 0x100) as u8,
    ]
}

/// The number that two bytes spell, most significant first.
pub open spec fn from_be16(a: u8, b: u8) -> int {
    a * 0x100 + b
}

/// The number that four bytes spell, most significant first.
pub open spec fn from_be32(a: u8, b: u8, c: u8, d: u8) -> int {
    a * 0x100_0000 + b * 0x1_0000 + c * 0x100 + d
}

/// Reads two bytes, most significant first.
pub(crate) fn read_be16(a: u8, b: u8) -> (r: u16)
    ensures
        r == from_be16(a, b),
{
    (a as u16) * 0x100 + b as u16
}

/// Reads four bytes, most significant first.
pub(crate) fn read_be32(a: u8, b: u8, c: u8, d: u8) -> (r: u32)
    ensures
        r == from_be32(a, b, c, d),
{
    (a as u32) * 0x100_0000 + (b as u32) * 0x1_0000 + (c as u32) * 0x100 + d as u32
}

/// Writes two bytes, most significant first.
pub(crate) fn write_be16(x: u16) -> (r: [u8; 2])
    ensures
        r@ == be16(x),
{
    [(x / 0x100) as u8, (x % 0x100) as u8]
}

/// Writes four bytes, most significant first.
pub(crate) fn write_be32(x: u32) -> (r: [u8; 4])
    ensures
        r@ == be32(x),
{
    [
        (x / 0x100_0000) as u8,
        (x / 0x1_0000 % 0x100) as u8,
        (x / 0x100 % 0x100) as u8,
        (x % 0x100) as u8,
    ]
}

/// Writes eight bytes, most significant first.
pub(crate) fn write_be64(x: u64) -> (r: [u8; 8])
    ensures
        r@ == be64(x),
{
    [
        (x / 0x100_0000_0000_0000) as u8,
        (x / 0x1_0000_0000_0000 % 0x100) as u8,
        (x / 0x100_0000_0000 % 0x100) as u8,
        (x / 0x1_0000_0000 % 0x100) as u8,
        (x / 0x100_0000 % 0x100) as u8,
        (x / 0x1_0000 % 0x100) as u8,
        (x / 0x100 % 0x100) as u8,
        (x % 0x100) as u8,
    ]
}

/// Reading back the two bytes of a number gives the number.
pub proof fn law_be16_round_trip(x: u16)
    ensures
        from_be16(be16(x)[0], be16(x)[1]) == x,
{
}

/// Reading back the four bytes of a number gives the number.
pub proof fn law_be32_round_trip(x: u32)
    ensures
        from_be32(be32(x)[0], be32(x)[1], be32(x)[2], be32(x)[3]) == x,
{
}

/// Copies a slice into a vector.
pub(crate) fn to_vec(data: &[u8]) -> (r: Vec<u8>)
    ensures
        r@ == data@,
{
    let mut out: Vec<u8> = Vec::new();
    out.extend_from_slice(data);
    proof {
        assert(out@ =~= data@);
    }
    out
}

/// Copies a slice of eight bytes into an array.
pub(crate) fn array8(data: &[u8]) -> (r: [u8; 8])
    requires
        data@.len() == 8,
    ensures
        r@ == data@,
{
    let mut out: [u8; 8] = [0; 8];
    let mut i: usize = 0;
    while i < 8
        invariant
            data@.len() == 8,
            i <= 8,
            forall|j: int| 0 <= j < i ==> out@[j] == data@[j],
        decreases 8 - i,
    {
        out[i] = data[i];
        i += 1;
    }
    proof {
        assert(out@ =~= data@);
    }
    out
}

/// Copies a slice of sixteen bytes into an array.
pub(crate) fn array16(data: &[u8]) -> (r: [u8; 16])
    requires
        data@.len() == 16,
    ensures
        r@ == data@,
{
    let mut out: [u8; 16] = [0; 16];
    let mut i: usize = 0;
    while i < 16
        invariant
            data@.len() == 16,
            i <= 16,
            forall|j: int| 0 <= j < i ==> out@[j] == data@[j],
        decreases 16 - i,
    {
        out[i] = data[i];
        i += 1;
    }
    proof {
        assert(out@ =~= data@);
    }
    out
}

/// Copies a slice of twenty-four bytes into an array.
pub(crate) fn array24(data: &[u8]) -> (r: [u8; 24])
    requires
        data@.len() == 24,
    ensures
        r@ == data@,
{
    let mut out: [u8; 24] = [0; 24];
    let mut i: usize = 0;
    while i < 24
        invariant
            data@.len() == 24,
            i <= 24,
            forall|j: int| 0 <= j < i ==> out@[j] == data@[j],
        decreases 24 - i,
    {
        out[i] = data[i];
        i += 1;
    }
    proof {
        assert(out@ =~= data@);
    }
    out
}

/// Copies a slice of thirty-two bytes into an array.
pub(crate) fn array32(data: &[u8]) -> (r: [u8; 32])
    requires
        data@.len() == 32,
    ensures
        r@ == data@,
{
    let mut out: [u8; 32] = [0; 32];
    let mut i: usize = 0;
    while i < 32
        invariant
            data@.len() == 32,
            i <= 32,
            forall|j: int| 0 <= j < i ==> out@[j] == data@[j],
        decreases 32 - i,
    {
        out[i] = data[i];
        i += 1;
    }
    proof {
        assert(out@ =~= data@);
    }
    out
}

/// Whether every byte is zero.
pub open spec fn all_zero(s: Seq<u8>) -> bool {
    forall|i: int| 0 <= i < s.len() ==> s[i] == 0
}

/// Whether every byte is zero.
pub(crate) fn is_all_zero(data: &[u8]) -> (r: bool)
    ensures
        r == all_zero(data@),
{
    let mut i: usize = 0;
    while i < data.len()
        invariant
            i <= data.len(),
            forall|j: int| 0 <= j < i ==> data@[j] == 0,
        decreases data.len() - i,
    {
        if data[i] != 0 {
            return false;
        }
        i += 1;
    }
    true
}

/// Whether two byte strings are the same.
pub(crate) fn same_bytes(a: &[u8], b: &[u8]) -> (r: bool)
    ensures
        r == (a@ == b@),
{
    if a.len() != b.len() {
        return false;
    }
    let mut i: usize = 0;
    while i < a.len()
        invariant
            a.len() == b.len(),
            i <= a.len(),
            forall|j: int| 0 <= j < i ==> a@[j] == b@[j],
        decreases a.len() - i,
    {
        if a[i] != b[i] {
            return false;
        }
        i += 1;
    }
    proof {
        assert(a@ =~= b@);
    }
    true
}

/// Whether the byte string begins with `prefix`.
pub(crate) fn has_prefix(data: &[u8], prefix: &[u8]) -> (r: bool)
    ensures
        r == (prefix@.len() <= data@.len() && data@.subrange(0, prefix@.len() as int) == prefix@),
{
    if data.len() < prefix.len() {
        return false;
    }
    same_bytes(vstd::slice::slice_subrange(data, 0, prefix.len()), prefix)
}

} // verus!
