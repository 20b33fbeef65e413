//! A Bloom filter over 128-bit keys.
use bytes::{Bytes, BytesMut};
use vstd::prelude::*;

use crate::types::PlayerId;
use crate::wire;

verus! {

/// The fewest bits that a filter has.
pub const MIN_BITS: usize = 64;

/// The most hash functions that a filter uses.
pub const MAX_HASHES: u8 = 30;

/// A set of keys that forgets none: a key that was inserted is always found, one that was not is
/// found with a small probability.
#[derive(Debug)]
pub struct BloomFilter {
    bit_vec: Vec<u8>,
    num_hashes: u8,
    num_bits: usize,
}

/// A filter: its number of hash functions and its bits, eight to a byte, lowest first.
pub struct BloomView {
    pub num_hashes: u8,
    pub bytes: Seq<u8>,
}

impl View for BloomFilter {
    type V = BloomView;

    closed spec fn view(&self) -> BloomView {
        BloomView { num_hashes: self.num_hashes, bytes: self.bit_vec@ }
    }
}

// ---------------------------------------------------------------------------------------------
// Hashing
// ---------------------------------------------------------------------------------------------
/// One round of mixing.
pub open spec fn mix(h: u64) -> u64 {
    let a = h ^ (h >> 33);
    let b = a.wrapping_mul(0xff51afd7ed558ccd);
    let c = b ^ (b >> 33);
    let d = c.wrapping_mul(0xc4ceb9fe1a85ec53);
    d ^ (d >> 33)
}

/// The two hashes of a key. The second is odd.
pub open spec fn hash_pair(key: u128) -> (u64, u64) {
    let a = ((key >> 64) as u64) ^ 0x517cc1b727220a95;
    let b = (key as u64) ^ 0x9e3779b97f4a7c15;
    let h1 = mix(a.wrapping_add(b));
    let h2 = mix(b.wrapping_add(h1));
    (h1, h2 | 1)
}

/// The second hash of a key is odd.
pub proof fn law_second_hash_is_odd(key: u128)
    ensures
        hash_pair(key).1 % 2 == 1,
{
    let a = ((key >> 64) as u64) ^ 0x517cc1b727220a95;
    let b = (key as u64) ^ 0x9e3779b97f4a7c15;
    let h2 = mix(b.wrapping_add(mix(a.wrapping_add(b))));
    assert((h2 | 1) % 2 == 1) by (bit_vector);
}

/// The bit that the `i`-th hash function gives a key, of `num_bits` bits.
pub open spec fn probe(key: u128, i: u64, num_bits: nat) -> int {
    let (h1, h2) = hash_pair(key);
    h1.wrapping_add(i.wrapping_mul(h2)) as int % num_bits as int
}

/// Bit `k` of a byte.
pub open spec fn byte_bit(b: u8, k: u8) -> bool {
    b & (1u8 << k) != 0
}

/// Bit `i` of some bytes.
pub open spec fn bit(bytes: Seq<u8>, i: int) -> bool {
    byte_bit(bytes[i / 8], (i % 8) as u8)
}

/// One of the first `n` hash functions gives the key this bit.
pub open spec fn probed(key: u128, n: u64, num_bits: nat, b: int) -> bool {
    exists|i: u64| i < n && #[trigger] probe(key, i, num_bits) == b
}

/// The filter finds the key: it has bits, and those of the key are set.
pub open spec fn finds(f: BloomView, key: u128) -> bool {
    &&& f.bytes.len() > 0
    &&& forall|i: u64|
        i < f.num_hashes ==> bit(f.bytes, #[trigger] probe(key, i, f.bytes.len() * 8))
}

/// `after` is `before` with the bits of a key set.
pub open spec fn inserted(before: BloomView, key: u128, after: BloomView) -> bool {
    &&& after.num_hashes == before.num_hashes
    &&& after.bytes.len() == before.bytes.len()
    &&& forall|b: int|
        0 <= b < before.bytes.len() * 8 ==> (#[trigger] bit(after.bytes, b) <==> bit(before.bytes, b)
            || probed(key, before.num_hashes as u64, before.bytes.len() * 8, b))
}

/// The bytes of a filter in a table's file: number of hash functions, length, bits.
pub open spec fn encoded(f: BloomView) -> Seq<u8> {
    wire::be_bytes(f.num_hashes as nat, 1) + wire::be_bytes(
        wire::low32(f.bytes.len()) as nat,
        4,
    ) + f.bytes
}

/// The filter that some bytes start with; none where they are too few, or where the machine cannot
/// count its bits.
pub open spec fn decoded(s: Seq<u8>) -> Option<BloomView> {
    let len = wire::be_value(s.subrange(1, 5)) as int;
    if s.len() < 5 || s.len() - 5 < len || len * 8 > usize::MAX {
        None
    } else {
        Some(
            BloomView {
                num_hashes: wire::be_value(s.subrange(0, 1)) as u8,
                bytes: s.subrange(5, 5 + len),
            },
        )
    }
}

impl Clone for BloomFilter {
    fn clone(&self) -> (r: Self)
        ensures
            r@ == self@,
            r.wf() == self.wf(),
    {
        let bit_vec = self.bit_vec.clone();
        assert(bit_vec@ =~= self.bit_vec@);
        BloomFilter { bit_vec, num_hashes: self.num_hashes, num_bits: self.num_bits }
    }
}

proof fn lemma_set_bit(b: u8, k: u8, j: u8)
    requires
        k < 8,
        j < 8,
    ensures
        byte_bit(b | (1u8 << k), j) == (byte_bit(b, j) || j == k),
{
    assert(((b | (1u8 << k)) & (1u8 << j) != 0) == ((b & (1u8 << j) != 0) || j == k))
        by (bit_vector)
        requires
            k < 8,
            j < 8,
    ;
}

impl BloomFilter {
    pub closed spec fn wf(&self) -> bool {
        self.num_bits == self.bit_vec@.len() * 8
    }

    /// The machine can count the bits of a filter.
    pub proof fn lemma_wf_size(&self)
        requires
            self.wf(),
        ensures
            self@.bytes.len() * 8 <= usize::MAX,
    {
    }

    /// An empty filter of at least `num_bits` bits, and never fewer than 64, with `num_hashes`
    /// hash functions, kept between 1 and 30.
    pub fn with_size(num_bits: usize, num_hashes: u8) -> (r: Self)
        requires
            num_bits <= usize::MAX - 7,
        ensures
            r.wf(),
            r@.num_hashes == (if num_hashes < 1 {
                1
            } else if num_hashes > MAX_HASHES {
                MAX_HASHES
            } else {
                num_hashes
            }),
            r@.bytes.len() == ((if num_bits < MIN_BITS {
                MIN_BITS
            } else {
                num_bits
            }) + 7) / 8,
            forall|i: int| 0 <= i < r@.bytes.len() ==> #[trigger] r@.bytes[i] == 0,
    {
        let bits: usize = if num_bits < MIN_BITS {
            MIN_BITS
        } else {
            num_bits
        };
        let hashes: u8 = if num_hashes < 1 {
            1
        } else if num_hashes > MAX_HASHES {
            MAX_HASHES
        } else {
            num_hashes
        };
        let num_bytes: usize = (bits + 7) / 8;
        BloomFilter { bit_vec: vec![0u8; num_bytes], num_hashes: hashes, num_bits: num_bytes * 8 }
    }

    /// The number of bytes that hold the bits.
    pub fn byte_len(&self) -> (r: usize)
        ensures
            r == self@.bytes.len(),
    {
        self.bit_vec.len()
    }

    /// The two hashes of a key.
    pub fn get_hash_pair(key: PlayerId) -> (r: (u64, u64))
        ensures
            r == hash_pair(key.0),
    {
        let val: u128 = key.0;
        let a: u64 = ((val >> 64) as u64) ^ 0x517cc1b727220a95;
        let b: u64 = (val as u64) ^ 0x9e3779b97f4a7c15;
        let h1: u64 = BloomFilter::mixed(a.wrapping_add(b));
        let h2: u64 = BloomFilter::mixed(b.wrapping_add(h1));
        (h1, h2 | 1)
    }

    fn mixed(h: u64) -> (r: u64)
        ensures
            r == mix(h),
    {
        let mut x: u64 = h;
        x = x ^ (x >> 33);
        x = x.wrapping_mul(0xff51afd7ed558ccd);
        x = x ^ (x >> 33);
        x = x.wrapping_mul(0xc4ceb9fe1a85ec53);
        x ^ (x >> 33)
    }

    /// Adds a key.
    pub fn insert(&mut self, key: PlayerId)
        requires
            old(self).wf(),
            old(self)@.bytes.len() > 0,
        ensures
            final(self).wf(),
            inserted(old(self)@, key.0, final(self)@),
    {
        let (h1, h2) = BloomFilter::get_hash_pair(key);
        let num_bits: u64 = self.num_bits as u64;
        let n: u64 = self.num_hashes as u64;
        let ghost before = self.bit_vec@;
        let mut i: u64 = 0;
        while i < n
            invariant
                i <= n,
                n == self.num_hashes,
                self.num_hashes == old(self).num_hashes,
                before == old(self).bit_vec@,
                self.wf(),
                self.bit_vec@.len() == before.len(),
                before.len() > 0,
                num_bits == before.len() * 8,
                (h1, h2) == hash_pair(key.0),
                forall|b: int|
                    0 <= b < before.len() * 8 ==> (#[trigger] bit(self.bit_vec@, b) <==> bit(
                        before,
                        b,
                    ) || probed(key.0, i, before.len() * 8, b)),
            decreases n - i,
        {
            let bit_idx: usize = (h1.wrapping_add(i.wrapping_mul(h2)) % num_bits) as usize;
            let byte_idx: usize = bit_idx / 8;
            let bit_offset: u8 = (bit_idx % 8) as u8;
            let ghost held = self.bit_vec@;
            assert(bit_idx == probe(key.0, i, before.len() * 8));
            let cell: u8 = self.bit_vec[byte_idx];
            self.bit_vec.set(byte_idx, cell | (1u8 << bit_offset));
            proof {
                let total = before.len() * 8;
                assert forall|b: int| 0 <= b < total implies (#[trigger] bit(self.bit_vec@, b)
                    <==> bit(before, b) || probed(key.0, (i + 1) as u64, total, b)) by {
                    if b / 8 == byte_idx {
                        lemma_set_bit(cell, bit_offset, (b % 8) as u8);
                    }
                    assert(bit(self.bit_vec@, b) == (bit(held, b) || b == bit_idx));
                    if probed(key.0, i, total, b) {
                        let w = choose|w: u64| w < i && #[trigger] probe(key.0, w, total) == b;
                        assert(probe(key.0, w, total) == b);
                    }
                    if b == bit_idx {
                        assert(probe(key.0, i, total) == b);
                    }
                    if probed(key.0, (i + 1) as u64, total, b) {
                        let w = choose|w: u64|
                            w < (i + 1) as u64 && #[trigger] probe(key.0, w, total) == b;
                        assert(w < i || w == i);
                    }
                }
            }
            i = i + 1;
        }
    }

    /// Whether a key may have been inserted. One that was inserted always is found.
    pub fn contains(&self, key: PlayerId) -> (r: bool)
        requires
            self.wf(),
        ensures
            r == finds(self@, key.0),
    {
        if self.num_bits == 0 || self.bit_vec.len() == 0 {
            return false;
        }
        let (h1, h2) = BloomFilter::get_hash_pair(key);
        let num_bits: u64 = self.num_bits as u64;
        let n: u64 = self.num_hashes as u64;
        let mut i: u64 = 0;
        while i < n
            invariant
                i <= n,
                n == self.num_hashes,
                self.wf(),
                self.bit_vec@.len() > 0,
                num_bits == self.bit_vec@.len() * 8,
                (h1, h2) == hash_pair(key.0),
                forall|j: u64|
                    j < i ==> bit(
                        self.bit_vec@,
                        #[trigger] probe(key.0, j, self.bit_vec@.len() * 8),
                    ),
            decreases n - i,
        {
            let bit_idx: usize = (h1.wrapping_add(i.wrapping_mul(h2)) % num_bits) as usize;
            let byte_idx: usize = bit_idx / 8;
            let bit_offset: u8 = (bit_idx % 8) as u8;
            assert(bit_idx == probe(key.0, i, self.bit_vec@.len() * 8));
            if self.bit_vec[byte_idx] & (1u8 << bit_offset) == 0 {
                assert(!bit(self.bit_vec@, bit_idx as int));
                return false;
            }
            i = i + 1;
        }
        true
    }

    /// The bytes of the filter.
    pub fn encode(&self) -> (r: Bytes)
        requires
            self.wf(),
        ensures
            wire::bytes_view(r) == encoded(self@),
    {
        proof {
            wire::lemma_be_ints(self.num_hashes, wire::low32(self.bit_vec@.len()), 0, 0);
        }
        let mut buf = BytesMut::with_capacity(5 + self.bit_vec.len());
        wire::put_u8(&mut buf, self.num_hashes);
        wire::put_u32(&mut buf, wire::low_32(self.bit_vec.len()));
        wire::put_slice(&mut buf, &self.bit_vec);
        assert(wire::buffer_view(buf) =~= encoded(self@));
        buf.freeze()
    }

    /// Reads a filter.
    pub fn decode(data: &[u8]) -> (r: Option<Self>)
        ensures
            match r {
                Some(f) => f.wf() && decoded(data@) == Some(f@),
                None => decoded(data@) is None,
            },
    {
        if data.len() < 5 {
            return None;
        }
        let mut buf: &[u8] = data;
        let num_hashes: u8 = wire::get_u8(&mut buf);
        let vec_len: usize = wire::get_u32(&mut buf) as usize;
        proof {
            assert(data@.take(1) =~= data@.subrange(0, 1));
            assert(data@.skip(1).take(4) =~= data@.subrange(1, 5));
            assert(data@.skip(1).skip(4) =~= data@.skip(5));
        }
        if buf.len() < vec_len || vec_len > usize::MAX / 8 {
            return None;
        }
        let mut bit_vec: Vec<u8> = Vec::new();
        bit_vec.extend_from_slice(&buf[0..vec_len]);
        assert(bit_vec@ =~= data@.subrange(5, 5 + vec_len));
        Some(BloomFilter { bit_vec, num_hashes, num_bits: vec_len * 8 })
    }
}

// ---------------------------------------------------------------------------------------------
// Laws
// ---------------------------------------------------------------------------------------------
proof fn lemma_probe_in_range(key: u128, i: u64, num_bits: nat)
    requires
        num_bits > 0,
    ensures
        0 <= probe(key, i, num_bits) < num_bits,
{
}

/// No false negatives: a key that was inserted is found.
pub proof fn law_inserted_key_is_found(before: BloomView, key: u128, after: BloomView)
    requires
        inserted(before, key, after),
        before.bytes.len() > 0,
    ensures
        finds(after, key),
{
    let total = before.bytes.len() * 8;
    assert forall|i: u64| i < after.num_hashes implies bit(
        after.bytes,
        #[trigger] probe(key, i, total),
    ) by {
        lemma_probe_in_range(key, i, total);
        assert(probed(key, before.num_hashes as u64, total, probe(key, i, total)));
    }
}

/// Inserting a key loses no other: what was found before is found after.
pub proof fn law_insert_keeps_other_keys(before: BloomView, key: u128, after: BloomView, other: u128)
    requires
        inserted(before, key, after),
        finds(before, other),
    ensures
        finds(after, other),
{
    let total = before.bytes.len() * 8;
    assert forall|i: u64| i < after.num_hashes implies bit(
        after.bytes,
        #[trigger] probe(other, i, total),
    ) by {
        lemma_probe_in_range(other, i, total);
        assert(bit(before.bytes, probe(other, i, total)));
    }
}

/// A filter reads back from its bytes, whatever follows them. More than 2^32 - 1 bytes of bits do
/// not fit the length field.
pub proof fn law_filter_round_trip(f: BloomView, rest: Seq<u8>)
    requires
        f.bytes.len() <= u32::MAX,
        f.bytes.len() * 8 <= usize::MAX,
    ensures
        decoded(encoded(f) + rest) == Some(f),
{
    let s = encoded(f) + rest;
    wire::lemma_be_ints(f.num_hashes, wire::low32(f.bytes.len()), 0, 0);
    assert(s.subrange(0, 1) =~= wire::be_bytes(f.num_hashes as nat, 1));
    assert(s.subrange(1, 5) =~= wire::be_bytes(wire::low32(f.bytes.len()) as nat, 4));
    assert(s.subrange(5, (5 + f.bytes.len()) as int) =~= f.bytes);
}

/// An empty filter finds no key; a filter without bits finds none either.
pub proof fn law_empty_filter_finds_nothing(f: BloomView, key: u128)
    requires
        f.num_hashes > 0,
        forall|i: int| 0 <= i < f.bytes.len() ==> #[trigger] f.bytes[i] == 0,
    ensures
        !finds(f, key),
{
    if f.bytes.len() > 0 {
        let b = probe(key, 0, f.bytes.len() * 8);
        let k = (b % 8) as u8;
        assert(0 <= b < f.bytes.len() * 8);
        assert(f.bytes[b / 8] == 0);
        assert(0u8 & (1u8 << k) == 0) by (bit_vector);
        assert(!bit(f.bytes, b));
    }
}

} // verus!
