//! Big-endian integers and byte buffers.
//!
//! Every on-disk and in-memory value is a run of bytes held by the `bytes` crate.
//! This module states what the calls into that crate do, over plain sequences of bytes.
use bytes::{Buf, BufMut, Bytes, BytesMut};
use vstd::prelude::*;

verus! {

/// Upper bound on the length of a growing buffer. Growth at most doubles the capacity, so up to
/// this length the allocator is never asked for more than `isize::MAX` bytes.
pub const MAX_BUFFER: usize = usize::MAX / 4;

// ---------------------------------------------------------------------------------------------
// Big-endian numbers
// ---------------------------------------------------------------------------------------------
/// `256^n`.
pub open spec fn byte_pow(n: nat) -> nat
    decreases n,
{
    if n == 0 {
        1
    } else {
        256 * byte_pow((n - 1) as nat)
    }
}

/// The `n` low bytes of `x`, most significant first.
pub open spec fn be_bytes(x: nat, n: nat) -> Seq<u8>
    decreases n,
{
    if n == 0 {
        Seq::empty()
    } else {
        be_bytes(x / 256, (n - 1) as nat).push((x % 256) as u8)
    }
}

/// The number whose bytes, most significant first, are `s`.
pub open spec fn be_value(s: Seq<u8>) -> nat
    decreases s.len(),
{
    if s.len() == 0 {
        0
    } else {
        be_value(s.drop_last()) * 256 + s.last() as nat
    }
}

/// The 32 low bits of a length, which is what a 32-bit length field keeps of it.
pub open spec fn low32(n: nat) -> u32 {
    (n % 0x1_0000_0000) as u32
}

pub proof fn lemma_be_bytes_len(x: nat, n: nat)
    ensures
        be_bytes(x, n).len() == n,
    decreases n,
{
    if n > 0 {
        lemma_be_bytes_len(x / 256, (n - 1) as nat);
    }
}

pub proof fn lemma_be_value_bound(s: Seq<u8>)
    ensures
        be_value(s) < byte_pow(s.len()),
    decreases s.len(),
{
    if s.len() > 0 {
        lemma_be_value_bound(s.drop_last());
    }
}

/// Reading back what was written gives the number that was written.
pub proof fn lemma_be_value_of_bytes(x: nat, n: nat)
    requires
        x < byte_pow(n),
    ensures
        be_value(be_bytes(x, n)) == x,
    decreases n,
{
    if n > 0 {
        let s = be_bytes(x, n);
        lemma_be_value_of_bytes(x / 256, (n - 1) as nat);
        assert(s.drop_last() =~= be_bytes(x / 256, (n - 1) as nat));
    }
}

/// Writing the number that a run of bytes spells gives the same bytes.
pub proof fn lemma_be_bytes_of_value(s: Seq<u8>)
    ensures
        be_bytes(be_value(s), s.len()) == s,
    decreases s.len(),
{
    if s.len() > 0 {
        lemma_be_bytes_of_value(s.drop_last());
        let v = be_value(s);
        assert(v / 256 == be_value(s.drop_last()));
        assert(v % 256 == s.last() as nat);
        assert(be_bytes(v, s.len()) =~= s);
    } else {
        assert(be_bytes(be_value(s), 0) =~= s);
    }
}

/// The powers that bound the integer types of the formats.
pub proof fn lemma_byte_pows()
    ensures
        byte_pow(1) == 0x100,
        byte_pow(4) == 0x1_0000_0000,
        byte_pow(8) == 0x1_0000_0000_0000_0000,
        byte_pow(16) == 0x1_0000_0000_0000_0000_0000_0000_0000_0000,
{
    reveal_with_fuel(byte_pow, 17);
}

/// A number that fits its type is read back unchanged from its big-endian bytes.
pub proof fn lemma_be_ints(a: u8, b: u32, c: u64, d: u128)
    ensures
        be_value(be_bytes(a as nat, 1)) == a,
        be_value(be_bytes(b as nat, 4)) == b,
        be_value(be_bytes(c as nat, 8)) == c,
        be_value(be_bytes(d as nat, 16)) == d,
        be_bytes(a as nat, 1).len() == 1,
        be_bytes(b as nat, 4).len() == 4,
        be_bytes(c as nat, 8).len() == 8,
        be_bytes(d as nat, 16).len() == 16,
{
    lemma_byte_pows();
    lemma_be_value_of_bytes(a as nat, 1);
    lemma_be_value_of_bytes(b as nat, 4);
    lemma_be_value_of_bytes(c as nat, 8);
    lemma_be_value_of_bytes(d as nat, 16);
    lemma_be_bytes_len(a as nat, 1);
    lemma_be_bytes_len(b as nat, 4);
    lemma_be_bytes_len(c as nat, 8);
    lemma_be_bytes_len(d as nat, 16);
}

/// The 32 low bits of `n`.
pub fn low_32(n: usize) -> (r: u32)
    ensures
        r == low32(n as nat),
{
    ((n as u64) % 0x1_0000_0000) as u32
}

// ---------------------------------------------------------------------------------------------
// Buffers of the `bytes` crate
// ---------------------------------------------------------------------------------------------
#[verifier::external_type_specification]
#[verifier::external_body]
pub struct ExBytes(Bytes);

#[verifier::external_type_specification]
#[verifier::external_body]
pub struct ExBytesMut(BytesMut);

/// The bytes that a `Bytes` holds.
pub uninterp spec fn bytes_view(b: Bytes) -> Seq<u8>;

/// The bytes that a `BytesMut` holds.
pub uninterp spec fn buffer_view(b: BytesMut) -> Seq<u8>;

/// `Bytes::copy_from_slice` holds a copy of the slice.
pub assume_specification [Bytes::copy_from_slice] (data: &[u8]) -> (r: Bytes)
    ensures
        bytes_view(r) == data@,
;

/// `Bytes::new` holds nothing.
pub assume_specification [Bytes::new] () -> (r: Bytes)
    ensures
        bytes_view(r) == Seq::<u8>::empty(),
;

/// `Bytes::len` is the number of bytes held.
pub assume_specification [Bytes::len] (b: &Bytes) -> (r: usize)
    ensures
        r == bytes_view(*b).len(),
;

/// A clone of a `Bytes` holds the same bytes.
pub assume_specification [<Bytes as Clone>::clone] (b: &Bytes) -> (r: Bytes)
    ensures
        bytes_view(r) == bytes_view(*b),
;

/// A `Bytes` dereferences to the bytes it holds.
pub assume_specification [<Bytes as core::ops::Deref>::deref] (b: &Bytes) -> (r: &[u8])
    ensures
        r@ == bytes_view(*b),
;

/// `BytesMut::with_capacity` holds nothing; the capacity is only reserved.
pub assume_specification [BytesMut::with_capacity] (capacity: usize) -> (r: BytesMut)
    requires
        capacity <= MAX_BUFFER,
    ensures
        buffer_view(r) == Seq::<u8>::empty(),
;

/// `BytesMut::new` holds nothing.
pub assume_specification [BytesMut::new] () -> (r: BytesMut)
    ensures
        buffer_view(r) == Seq::<u8>::empty(),
;

/// `BytesMut::len` is the number of bytes held.
pub assume_specification [BytesMut::len] (b: &BytesMut) -> (r: usize)
    ensures
        r == buffer_view(*b).len(),
;

/// `BytesMut::clear` drops every byte.
pub assume_specification [BytesMut::clear] (b: &mut BytesMut)
    ensures
        buffer_view(*final(b)) == Seq::<u8>::empty(),
;

/// `BytesMut::freeze` keeps the bytes.
pub assume_specification [BytesMut::freeze] (b: BytesMut) -> (r: Bytes)
    ensures
        bytes_view(r) == buffer_view(b),
;

/// A `BytesMut` dereferences to the bytes it holds.
pub assume_specification [<BytesMut as core::ops::Deref>::deref] (b: &BytesMut) -> (r: &[u8])
    ensures
        r@ == buffer_view(*b),
;

/// `BufMut::put_slice` appends the slice.
#[verifier::external_body]
pub(crate) fn put_slice(buf: &mut BytesMut, src: &[u8])
    requires
        buffer_view(*old(buf)).len() + src@.len() <= MAX_BUFFER,
    ensures
        buffer_view(*final(buf)) == buffer_view(*old(buf)) + src@,
{
    buf.put_slice(src)
}

/// `BufMut::put_u8` appends one byte.
#[verifier::external_body]
pub(crate) fn put_u8(buf: &mut BytesMut, n: u8)
    requires
        buffer_view(*old(buf)).len() + 1 <= MAX_BUFFER,
    ensures
        buffer_view(*final(buf)) == buffer_view(*old(buf)) + be_bytes(n as nat, 1),
{
    buf.put_u8(n)
}

/// `BufMut::put_u32` appends the four bytes of the number, most significant first.
#[verifier::external_body]
pub(crate) fn put_u32(buf: &mut BytesMut, n: u32)
    requires
        buffer_view(*old(buf)).len() + 4 <= MAX_BUFFER,
    ensures
        buffer_view(*final(buf)) == buffer_view(*old(buf)) + be_bytes(n as nat, 4),
{
    buf.put_u32(n)
}

/// `BufMut::put_u64` appends the eight bytes of the number, most significant first.
#[verifier::external_body]
pub(crate) fn put_u64(buf: &mut BytesMut, n: u64)
    requires
        buffer_view(*old(buf)).len() + 8 <= MAX_BUFFER,
    ensures
        buffer_view(*final(buf)) == buffer_view(*old(buf)) + be_bytes(n as nat, 8),
{
    buf.put_u64(n)
}

/// `Buf::get_u8` reads one byte and moves past it.
#[verifier::external_body]
pub(crate) fn get_u8(buf: &mut &[u8]) -> (r: u8)
    requires
        old(buf)@.len() >= 1,
    ensures
        r == be_value(old(buf)@.take(1)),
        final(buf)@ == old(buf)@.skip(1),
{
    buf.get_u8()
}

/// `Buf::get_u32` reads four bytes, most significant first, and moves past them.
#[verifier::external_body]
pub(crate) fn get_u32(buf: &mut &[u8]) -> (r: u32)
    requires
        old(buf)@.len() >= 4,
    ensures
        r == be_value(old(buf)@.take(4)),
        final(buf)@ == old(buf)@.skip(4),
{
    buf.get_u32()
}

/// `Buf::get_u64` reads eight bytes, most significant first, and moves past them.
#[verifier::external_body]
pub(crate) fn get_u64(buf: &mut &[u8]) -> (r: u64)
    requires
        old(buf)@.len() >= 8,
    ensures
        r == be_value(old(buf)@.take(8)),
        final(buf)@ == old(buf)@.skip(8),
{
    buf.get_u64()
}

/// `Buf::copy_to_slice` fills the slice from the front of the buffer and moves past what it read.
#[verifier::external_body]
pub(crate) fn get_16(buf: &mut &[u8]) -> (r: [u8; 16])
    requires
        old(buf)@.len() >= 16,
    ensures
        r@ == old(buf)@.take(16),
        final(buf)@ == old(buf)@.skip(16),
{
    let mut out = [0u8; 16];
    buf.copy_to_slice(&mut out);
    out
}

/// `Buf::advance` moves past `n` bytes.
#[verifier::external_body]
pub(crate) fn advance(buf: &mut &[u8], n: usize)
    requires
        n <= old(buf)@.len(),
    ensures
        final(buf)@ == old(buf)@.skip(n as int),
{
    buf.advance(n)
}

} // verus!
