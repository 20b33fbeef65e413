//! Sorted tables: the format of their files, building, opening, lookups.
//!
//! A file holds blocks of entries in key order, the index of the blocks, a Bloom filter over the
//! keys, and a footer of 80 bytes that says where these lie.
use bytes::{Bytes, BytesMut};
use vstd::prelude::*;

use crate::storage::bloom_filter::{BloomFilter, BloomView};
use crate::storage::{bloom_filter, wal};
use crate::text;
use crate::types::{DbError, EntryView, ErrorView, PlayerId, Result, ValueEntry};
use crate::types;
use crate::wire;

verus! {

/// The last eight bytes of every table file.
pub const SSTABLE_MAGIC: u64 = 0x4d454f5753535431;

/// The size at which a block is closed.
pub const DEFAULT_BLOCK_SIZE: usize = 16384;

/// Bytes of the footer.
pub const FOOTER_SIZE: usize = 80;

/// Bytes of an entry before its value: key, sequence number, timestamp, operation, value length.
pub const ENTRY_FIXED_SIZE: usize = 37;

/// Bytes of a block's place in the index: first key, offset, length.
pub const INDEX_ENTRY_SIZE: usize = 28;

/// What reports a seek to a place before the start of a file.
pub const BAD_SEEK: &'static str = "Invalid argument (os error 22)";

/// How blocks are compressed.
#[derive(Debug, Clone, Copy, PartialEq, Eq, Structural)]
pub enum CompressionType {
    Raw,
    Lz4,
    Zstd,
}

/// The name of a way to compress.
pub open spec fn compression_name(c: CompressionType) -> Seq<char> {
    match c {
        CompressionType::Raw => "NONE"@,
        CompressionType::Lz4 => "LZ4"@,
        CompressionType::Zstd => "ZSTD"@,
    }
}

impl CompressionType {
    pub fn as_str(&self) -> (r: &'static str)
        ensures
            r@ == compression_name(*self),
    {
        match self {
            CompressionType::Raw => "NONE",
            CompressionType::Lz4 => "LZ4",
            CompressionType::Zstd => "ZSTD",
        }
    }
}

// ---------------------------------------------------------------------------------------------
// Entries and blocks
// ---------------------------------------------------------------------------------------------
/// The bytes of one entry.
pub open spec fn entry_bytes(key: u128, e: EntryView) -> Seq<u8> {
    let value = wal::value_bytes(e.value);
    wire::be_bytes(key as nat, 16) + wire::be_bytes(e.seq_num as nat, 8) + wire::be_bytes(
        e.timestamp as nat,
        8,
    ) + wire::be_bytes(if e.value is None { 2 } else { 1 }, 1) + wire::be_bytes(
        wire::low32(value.len()) as nat,
        4,
    ) + value
}

/// The bytes of a block of entries.
pub open spec fn block_bytes(s: Seq<(u128, EntryView)>) -> Seq<u8>
    decreases s.len(),
{
    if s.len() == 0 {
        Seq::empty()
    } else {
        block_bytes(s.drop_last()) + entry_bytes(s.last().0, s.last().1)
    }
}

/// An entry as a block holds it: its operation byte may be unknown.
pub struct RawEntry {
    pub key: u128,
    pub seq_num: u64,
    pub timestamp: u64,
    pub op: u8,
    pub value: Seq<u8>,
}

/// The entry that a block starts with; none where the block is too short for one.
pub open spec fn first_raw(b: Seq<u8>) -> Option<RawEntry> {
    let len = wire::be_value(b.subrange(33, 37)) as int;
    if b.len() < 37 || b.len() - 37 < len {
        None
    } else {
        Some(
            RawEntry {
                key: wire::be_value(b.subrange(0, 16)) as u128,
                seq_num: wire::be_value(b.subrange(16, 24)) as u64,
                timestamp: wire::be_value(b.subrange(24, 32)) as u64,
                op: wire::be_value(b.subrange(32, 33)) as u8,
                value: b.subrange(37, 37 + len),
            },
        )
    }
}

/// What an entry of a block stands for; none where its operation is unknown.
pub open spec fn raw_view(e: RawEntry) -> Option<EntryView> {
    if e.op == 1 {
        Some(EntryView { value: Some(e.value), seq_num: e.seq_num, timestamp: e.timestamp })
    } else if e.op == 2 {
        Some(EntryView { value: None, seq_num: e.seq_num, timestamp: e.timestamp })
    } else {
        None
    }
}

/// What reports an operation byte that is neither a put nor a deletion.
pub open spec fn unknown_op() -> ErrorView {
    ErrorView::SstableCorruption("Unknown op_type in SSTable"@)
}

/// Search for a key in a block: entries stand in key order, and a block that ends inside an entry
/// ends before it.
pub open spec fn block_find(b: Seq<u8>, key: u128) -> core::result::Result<
    Option<EntryView>,
    ErrorView,
>
    decreases b.len(),
{
    match first_raw(b) {
        None => Ok(None),
        Some(e) => if e.key == key {
            match raw_view(e) {
                Some(v) => Ok(Some(v)),
                None => Err(unknown_op()),
            }
        } else if e.key > key {
            Ok(None)
        } else {
            block_find(b.skip((37 + e.value.len()) as int), key)
        },
    }
}

/// All entries of a block.
pub open spec fn block_entries(b: Seq<u8>) -> core::result::Result<
    Seq<(u128, EntryView)>,
    ErrorView,
>
    decreases b.len(),
{
    match first_raw(b) {
        None => Ok(Seq::empty()),
        Some(e) => match raw_view(e) {
            None => Err(unknown_op()),
            Some(v) => match block_entries(b.skip((37 + e.value.len()) as int)) {
                Ok(rest) => Ok(seq![(e.key, v)] + rest),
                Err(err) => Err(err),
            },
        },
    }
}

proof fn lemma_entry_parts(key: u128, e: EntryView)
    ensures
        wire::be_bytes(key as nat, 16).len() == 16,
        wire::be_bytes(e.seq_num as nat, 8).len() == 8,
        wire::be_bytes(e.timestamp as nat, 8).len() == 8,
        wire::be_bytes(if e.value is None { 2 } else { 1 }, 1).len() == 1,
        wire::be_bytes(wire::low32(wal::value_bytes(e.value).len()) as nat, 4).len() == 4,
        entry_bytes(key, e).len() == 37 + wal::value_bytes(e.value).len(),
{
    wire::lemma_be_ints(
        if e.value is None { 2 } else { 1 },
        wire::low32(wal::value_bytes(e.value).len()),
        e.seq_num,
        key,
    );
    wire::lemma_be_ints(0, 0, e.timestamp, 0);
}

/// The entry that starts a block is read back, whatever follows it.
proof fn lemma_first_raw(key: u128, e: EntryView, rest: Seq<u8>)
    requires
        wal::value_bytes(e.value).len() <= u32::MAX,
    ensures
        first_raw(entry_bytes(key, e) + rest) matches Some(raw) && raw.key == key && raw_view(raw)
            == Some(e) && raw.value.len() == wal::value_bytes(e.value).len(),
        (entry_bytes(key, e) + rest).skip((37 + wal::value_bytes(e.value).len()) as int) == rest,
{
    let b = entry_bytes(key, e) + rest;
    let value = wal::value_bytes(e.value);
    let op: u8 = if e.value is None { 2 } else { 1 };
    lemma_entry_parts(key, e);
    wire::lemma_be_ints(op, wire::low32(value.len()), e.seq_num, key);
    wire::lemma_be_ints(0, 0, e.timestamp, 0);
    assert(b.subrange(0, 16) =~= wire::be_bytes(key as nat, 16));
    assert(b.subrange(16, 24) =~= wire::be_bytes(e.seq_num as nat, 8));
    assert(b.subrange(24, 32) =~= wire::be_bytes(e.timestamp as nat, 8));
    assert(b.subrange(32, 33) =~= wire::be_bytes(op as nat, 1));
    assert(b.subrange(33, 37) =~= wire::be_bytes(wire::low32(value.len()) as nat, 4));
    assert(b.subrange(37, (37 + value.len()) as int) =~= value);
    assert(b.skip((37 + value.len()) as int) =~= rest);
}

/// Reads the entry that a block starts with and moves past it.
fn next_raw(slice: &mut &[u8]) -> (r: Option<(PlayerId, u64, u64, u8, Bytes)>)
    ensures
        match r {
            None => first_raw(old(slice)@) is None,
            Some((key, seq_num, timestamp, op, value)) => first_raw(old(slice)@) == Some(
                RawEntry { key: key.0, seq_num, timestamp, op, value: wire::bytes_view(value) },
            ) && final(slice)@ == old(slice)@.skip((37 + wire::bytes_view(value).len()) as int)
                && final(slice)@.len() < old(slice)@.len(),
        },
{
    if slice.len() < ENTRY_FIXED_SIZE {
        return None;
    }
    let ghost b = slice@;
    let key = PlayerId::from_bytes(wire::get_16(slice));
    let seq_num: u64 = wire::get_u64(slice);
    let timestamp: u64 = wire::get_u64(slice);
    let op: u8 = wire::get_u8(slice);
    let val_len: usize = wire::get_u32(slice) as usize;
    proof {
        assert(b.take(16) =~= b.subrange(0, 16));
        assert(b.skip(16).take(8) =~= b.subrange(16, 24));
        assert(b.skip(16).skip(8) =~= b.skip(24));
        assert(b.skip(24).take(8) =~= b.subrange(24, 32));
        assert(b.skip(24).skip(8) =~= b.skip(32));
        assert(b.skip(32).take(1) =~= b.subrange(32, 33));
        assert(b.skip(32).skip(1) =~= b.skip(33));
        assert(b.skip(33).take(4) =~= b.subrange(33, 37));
        assert(b.skip(33).skip(4) =~= b.skip(37));
    }
    if slice.len() < val_len {
        return None;
    }
    let value = Bytes::copy_from_slice(&(*slice)[0..val_len]);
    assert(wire::bytes_view(value) =~= b.subrange(37, 37 + val_len));
    wire::advance(slice, val_len);
    assert(b.skip(37).skip(val_len as int) =~= b.skip(37 + val_len));
    Some((key, seq_num, timestamp, op, value))
}

/// Makes an entry of what a block holds.
fn to_entry(seq_num: u64, timestamp: u64, op: u8, value: Bytes, Ghost(key): Ghost<u128>) -> (r:
    Option<ValueEntry>)
    ensures
        match r {
            Some(e) => raw_view(
                RawEntry { key, seq_num, timestamp, op, value: wire::bytes_view(value) },
            ) == Some(e@),
            None => raw_view(
                RawEntry { key, seq_num, timestamp, op, value: wire::bytes_view(value) },
            ) is None,
        },
{
    if op == 1 {
        Some(ValueEntry::put(value, seq_num, timestamp))
    } else if op == 2 {
        Some(ValueEntry::delete(seq_num, timestamp))
    } else {
        None
    }
}

/// Looks for a key in a block.
pub fn find_in_block(block: &[u8], key: &PlayerId) -> (r: Result<Option<ValueEntry>>)
    ensures
        match r {
            Ok(Some(e)) => block_find(block@, key.0) == Ok::<Option<EntryView>, ErrorView>(
                Some(e@),
            ),
            Ok(None) => block_find(block@, key.0) == Ok::<Option<EntryView>, ErrorView>(None),
            Err(e) => block_find(block@, key.0) == Err::<Option<EntryView>, ErrorView>(e@),
        },
{
    let mut slice: &[u8] = block;
    loop
        invariant
            block_find(block@, key.0) == block_find(slice@, key.0),
        decreases slice@.len(),
    {
        match next_raw(&mut slice) {
            None => {
                return Ok(None);
            },
            Some((entry_key, seq_num, timestamp, op, value)) => {
                if entry_key.0 == key.0 {
                    return match to_entry(seq_num, timestamp, op, value, Ghost(entry_key.0)) {
                        Some(e) => Ok(Some(e)),
                        None => Err(
                            DbError::SstableCorruption("Unknown op_type in SSTable".to_owned()),
                        ),
                    };
                }
                if entry_key.0 > key.0 {
                    return Ok(None);
                }
            },
        }
    }
}

/// `head` before what a block gives.
spec fn join(
    head: Seq<(u128, EntryView)>,
    rest: core::result::Result<Seq<(u128, EntryView)>, ErrorView>,
) -> core::result::Result<Seq<(u128, EntryView)>, ErrorView> {
    match rest {
        Ok(tail) => Ok(head + tail),
        Err(e) => Err(e),
    }
}

/// Appends all entries of a block to a list. On an error the list holds some of them.
fn append_block(block: &[u8], entries: &mut Vec<(PlayerId, ValueEntry)>) -> (r: Result<()>)
    ensures
        match r {
            Ok(_) => block_entries(block@) matches Ok(tail) && types::entries_view(final(entries)@)
                == types::entries_view(old(entries)@) + tail,
            Err(e) => block_entries(block@) == Err::<Seq<(u128, EntryView)>, ErrorView>(e@),
        },
{
    let mut slice: &[u8] = block;
    let ghost start = types::entries_view(entries@);
    let ghost mut read: Seq<(u128, EntryView)> = Seq::empty();
    proof {
        if let Ok(tail) = block_entries(block@) {
            assert(read + tail =~= tail);
        }
        assert(start + read =~= start);
    }
    loop
        invariant
            block_entries(block@) == join(read, block_entries(slice@)),
            types::entries_view(entries@) == start + read,
            start == types::entries_view(old(entries)@),
        decreases slice@.len(),
    {
        let ghost b = slice@;
        match next_raw(&mut slice) {
            None => {
                assert(read + Seq::empty() =~= read);
                return Ok(());
            },
            Some((key, seq_num, timestamp, op, value)) => {
                match to_entry(seq_num, timestamp, op, value, Ghost(key.0)) {
                    None => {
                        return Err(
                            DbError::SstableCorruption("Unknown op_type in SSTable".to_owned()),
                        );
                    },
                    Some(e) => {
                        proof {
                            let item = (key.0, e@);
                            if let Ok(tail) = block_entries(slice@) {
                                assert(read + (seq![item] + tail) =~= read.push(item) + tail);
                            }
                            assert(types::entries_view(entries@.push((key, e))) =~= (start
                                + read).push(item));
                            assert((start + read).push(item) =~= start + read.push(item));
                            read = read.push(item);
                        }
                        entries.push((key, e));
                    },
                }
            },
        }
    }
}

// ---------------------------------------------------------------------------------------------
// Index and footer
// ---------------------------------------------------------------------------------------------
/// Where a block lies in the file.
#[derive(Debug, Clone, Copy, PartialEq, Eq, Structural)]
pub struct BlockMeta {
    pub first_key: PlayerId,
    pub offset: u64,
    pub length: u32,
}

/// The bytes of a block's place in the index.
pub open spec fn meta_bytes(m: BlockMeta) -> Seq<u8> {
    wire::be_bytes(m.first_key.0 as nat, 16) + wire::be_bytes(m.offset as nat, 8) + wire::be_bytes(
        m.length as nat,
        4,
    )
}

/// The bytes of the places of some blocks.
pub open spec fn metas_bytes(s: Seq<BlockMeta>) -> Seq<u8>
    decreases s.len(),
{
    if s.len() == 0 {
        Seq::empty()
    } else {
        metas_bytes(s.drop_last()) + meta_bytes(s.last())
    }
}

/// The bytes of the block index: the number of blocks, then their places.
pub open spec fn index_bytes(s: Seq<BlockMeta>) -> Seq<u8> {
    wire::be_bytes(wire::low32(s.len()) as nat, 4) + metas_bytes(s)
}

/// The place that stands at an offset of the index.
pub open spec fn meta_at(b: Seq<u8>, at: int) -> BlockMeta {
    BlockMeta {
        first_key: PlayerId(wire::be_value(b.subrange(at, at + 16)) as u128),
        offset: wire::be_value(b.subrange(at + 16, at + 24)) as u64,
        length: wire::be_value(b.subrange(at + 24, at + 28)) as u32,
    }
}

/// The block index that some bytes hold; an error where they are fewer than their count asks for.
pub open spec fn index_of(b: Seq<u8>) -> core::result::Result<Seq<BlockMeta>, ErrorView> {
    let n = wire::be_value(b.take(4));
    if b.len() < 4 || b.len() < 4 + n * 28 {
        Err(ErrorView::SstableCorruption("Truncated SSTable block index"@))
    } else {
        Ok(Seq::new(n, |i: int| meta_at(b, 4 + i * 28)))
    }
}

/// What a footer says.
#[derive(Debug, Clone, Copy, PartialEq, Eq, Structural)]
pub struct Footer {
    pub index_offset: u64,
    pub index_len: u64,
    pub bloom_offset: u64,
    pub bloom_len: u64,
    pub min_key: PlayerId,
    pub max_key: PlayerId,
    pub entry_count: u64,
    pub magic: u64,
}

/// The bytes of a footer.
pub open spec fn footer_bytes(f: Footer) -> Seq<u8> {
    wire::be_bytes(f.index_offset as nat, 8) + wire::be_bytes(f.index_len as nat, 8)
        + wire::be_bytes(f.bloom_offset as nat, 8) + wire::be_bytes(f.bloom_len as nat, 8)
        + wire::be_bytes(f.min_key.0 as nat, 16) + wire::be_bytes(f.max_key.0 as nat, 16)
        + wire::be_bytes(f.entry_count as nat, 8) + wire::be_bytes(f.magic as nat, 8)
}

/// The footer that 80 bytes hold.
pub open spec fn footer_of(b: Seq<u8>) -> Footer {
    Footer {
        index_offset: wire::be_value(b.subrange(0, 8)) as u64,
        index_len: wire::be_value(b.subrange(8, 16)) as u64,
        bloom_offset: wire::be_value(b.subrange(16, 24)) as u64,
        bloom_len: wire::be_value(b.subrange(24, 32)) as u64,
        min_key: PlayerId(wire::be_value(b.subrange(32, 48)) as u128),
        max_key: PlayerId(wire::be_value(b.subrange(48, 64)) as u128),
        entry_count: wire::be_value(b.subrange(64, 72)) as u64,
        magic: wire::be_value(b.subrange(72, 80)) as u64,
    }
}

proof fn lemma_footer_round_trip(f: Footer)
    ensures
        footer_bytes(f).len() == 80,
        footer_of(footer_bytes(f)) == f,
{
    let b = footer_bytes(f);
    wire::lemma_be_ints(0, 0, f.index_offset, f.min_key.0);
    wire::lemma_be_ints(0, 0, f.index_len, f.max_key.0);
    wire::lemma_be_ints(0, 0, f.bloom_offset, 0);
    wire::lemma_be_ints(0, 0, f.bloom_len, 0);
    wire::lemma_be_ints(0, 0, f.entry_count, 0);
    wire::lemma_be_ints(0, 0, f.magic, 0);
    assert(b.subrange(0, 8) =~= wire::be_bytes(f.index_offset as nat, 8));
    assert(b.subrange(8, 16) =~= wire::be_bytes(f.index_len as nat, 8));
    assert(b.subrange(16, 24) =~= wire::be_bytes(f.bloom_offset as nat, 8));
    assert(b.subrange(24, 32) =~= wire::be_bytes(f.bloom_len as nat, 8));
    assert(b.subrange(32, 48) =~= wire::be_bytes(f.min_key.0 as nat, 16));
    assert(b.subrange(48, 64) =~= wire::be_bytes(f.max_key.0 as nat, 16));
    assert(b.subrange(64, 72) =~= wire::be_bytes(f.entry_count as nat, 8));
    assert(b.subrange(72, 80) =~= wire::be_bytes(f.magic as nat, 8));
}

fn decode_footer(data: &[u8]) -> (r: Footer)
    requires
        data@.len() == 80,
    ensures
        r == footer_of(data@),
{
    let ghost b = data@;
    let mut buf: &[u8] = data;
    let index_offset: u64 = wire::get_u64(&mut buf);
    let index_len: u64 = wire::get_u64(&mut buf);
    let bloom_offset: u64 = wire::get_u64(&mut buf);
    let bloom_len: u64 = wire::get_u64(&mut buf);
    let min_key = PlayerId::from_bytes(wire::get_16(&mut buf));
    let max_key = PlayerId::from_bytes(wire::get_16(&mut buf));
    let entry_count: u64 = wire::get_u64(&mut buf);
    let magic: u64 = wire::get_u64(&mut buf);
    proof {
        assert(b.take(8) =~= b.subrange(0, 8));
        assert(b.skip(8).take(8) =~= b.subrange(8, 16));
        assert(b.skip(8).skip(8) =~= b.skip(16));
        assert(b.skip(16).take(8) =~= b.subrange(16, 24));
        assert(b.skip(16).skip(8) =~= b.skip(24));
        assert(b.skip(24).take(8) =~= b.subrange(24, 32));
        assert(b.skip(24).skip(8) =~= b.skip(32));
        assert(b.skip(32).take(16) =~= b.subrange(32, 48));
        assert(b.skip(32).skip(16) =~= b.skip(48));
        assert(b.skip(48).take(16) =~= b.subrange(48, 64));
        assert(b.skip(48).skip(16) =~= b.skip(64));
        assert(b.skip(64).take(8) =~= b.subrange(64, 72));
        assert(b.skip(64).skip(8) =~= b.skip(72));
        assert(b.skip(72).take(8) =~= b.subrange(72, 80));
    }
    Footer {
        index_offset,
        index_len,
        bloom_offset,
        bloom_len,
        min_key,
        max_key,
        entry_count,
        magic,
    }
}

fn decode_index(data: &[u8]) -> (r: Result<Vec<BlockMeta>>)
    ensures
        match r {
            Ok(v) => index_of(data@) == Ok::<Seq<BlockMeta>, ErrorView>(v@),
            Err(e) => index_of(data@) == Err::<Seq<BlockMeta>, ErrorView>(e@),
        },
{
    if data.len() < 4 {
        return Err(DbError::SstableCorruption("Truncated SSTable block index".to_owned()));
    }
    let ghost b = data@;
    let mut buf: &[u8] = data;
    let n: u32 = wire::get_u32(&mut buf);
    if (buf.len() as u64) < n as u64 * 28 {
        return Err(DbError::SstableCorruption("Truncated SSTable block index".to_owned()));
    }
    let mut out: Vec<BlockMeta> = Vec::new();
    let mut i: u32 = 0;
    while i < n
        invariant
            i <= n,
            b.len() >= 4 + n * 28,
            buf@ == b.skip(4 + i * 28),
            out@ =~= Seq::new(i as nat, |j: int| meta_at(b, 4 + j * 28)),
        decreases n - i,
    {
        let ghost at = 4 + i * 28;
        let first_key = PlayerId::from_bytes(wire::get_16(&mut buf));
        let offset: u64 = wire::get_u64(&mut buf);
        let length: u32 = wire::get_u32(&mut buf);
        proof {
            assert(b.skip(at).take(16) =~= b.subrange(at, at + 16));
            assert(b.skip(at).skip(16) =~= b.skip(at + 16));
            assert(b.skip(at + 16).take(8) =~= b.subrange(at + 16, at + 24));
            assert(b.skip(at + 16).skip(8) =~= b.skip(at + 24));
            assert(b.skip(at + 24).take(4) =~= b.subrange(at + 24, at + 28));
            assert(b.skip(at + 24).skip(4) =~= b.skip(at + 28));
        }
        out.push(BlockMeta { first_key, offset, length });
        i = i + 1;
    }
    Ok(out)
}

proof fn lemma_metas_bytes(s: Seq<BlockMeta>, i: int)
    requires
        0 <= i < s.len(),
    ensures
        metas_bytes(s).len() == s.len() * 28,
        metas_bytes(s).subrange(i * 28, i * 28 + 28) == meta_bytes(s[i]),
    decreases s.len(),
{
    let head = s.drop_last();
    let m = s.last();
    wire::lemma_be_ints(0, m.length, m.offset, m.first_key.0);
    assert(meta_bytes(m).len() == 28);
    if i < head.len() {
        lemma_metas_bytes(head, i);
        assert(metas_bytes(s).subrange(i * 28, i * 28 + 28) =~= metas_bytes(head).subrange(
            i * 28,
            i * 28 + 28,
        ));
    } else {
        if head.len() > 0 {
            lemma_metas_bytes(head, 0);
        }
        assert(metas_bytes(s).subrange(i * 28, i * 28 + 28) =~= meta_bytes(m));
    }
}

/// A block index reads back from its bytes.
proof fn lemma_index_round_trip(s: Seq<BlockMeta>)
    requires
        s.len() <= u32::MAX,
    ensures
        index_bytes(s).len() == 4 + s.len() * 28,
        index_of(index_bytes(s)) == Ok::<Seq<BlockMeta>, ErrorView>(s),
{
    let b = index_bytes(s);
    wire::lemma_be_ints(0, wire::low32(s.len()), 0, 0);
    if s.len() > 0 {
        lemma_metas_bytes(s, 0);
    }
    assert(b.take(4) =~= wire::be_bytes(wire::low32(s.len()) as nat, 4));
    let read = Seq::new(s.len(), |i: int| meta_at(b, 4 + i * 28));
    assert forall|i: int| 0 <= i < s.len() implies #[trigger] read[i] == s[i] by {
        lemma_metas_bytes(s, i);
        let at = 4 + i * 28;
        let m = s[i];
        let mb = meta_bytes(m);
        wire::lemma_be_ints(0, m.length, m.offset, m.first_key.0);
        assert(b.subrange(at, at + 28) =~= mb);
        assert(b.subrange(at, at + 16) =~= mb.subrange(0, 16));
        assert(b.subrange(at + 16, at + 24) =~= mb.subrange(16, 24));
        assert(b.subrange(at + 24, at + 28) =~= mb.subrange(24, 28));
        assert(mb.subrange(0, 16) =~= wire::be_bytes(m.first_key.0 as nat, 16));
        assert(mb.subrange(16, 24) =~= wire::be_bytes(m.offset as nat, 8));
        assert(mb.subrange(24, 28) =~= wire::be_bytes(m.length as nat, 4));
    }
    assert(read =~= s);
}

// ---------------------------------------------------------------------------------------------
// Tables
// ---------------------------------------------------------------------------------------------
/// A file: what each read of it gives, by offset and length.
pub struct FileView {
    pub read: spec_fn(int, int) -> core::result::Result<Seq<u8>, ErrorView>,
}

/// What reading `len` bytes at an offset of a file gives.
pub open spec fn read_at(file: FileView, offset: int, len: int) -> core::result::Result<
    Seq<u8>,
    ErrorView,
> {
    (file.read)(offset, len)
}

/// A file with some contents.
pub open spec fn file_of(image: Seq<u8>) -> FileView {
    FileView { read: |offset: int, len: int| bytes_at(image, offset, len) }
}

/// What reading `len` bytes at an offset of some contents gives.
pub open spec fn bytes_at(image: Seq<u8>, offset: int, len: int) -> core::result::Result<
    Seq<u8>,
    ErrorView,
> {
    if len == 0 {
        Ok(Seq::empty())
    } else if offset + len <= image.len() {
        Ok(image.subrange(offset, offset + len))
    } else {
        Err(ErrorView::Io(wal::SHORT_READ@))
    }
}

/// The reader gives, of table `id`, what reads of a file give. A reader takes a table's number, an
/// offset and a length.
pub open spec fn reads<R: Fn(u64, u64, u64) -> Result<Vec<u8>>>(
    read: R,
    id: u64,
    file: FileView,
) -> bool {
    forall|offset: u64, len: u64, r: Result<Vec<u8>>|
        #[trigger] call_ensures(read, (id, offset, len), r) ==> types::result_view(r) == read_at(
            file,
            offset as int,
            len as int,
        )
}

/// The reader gives, of every table, what reads of its file give.
pub open spec fn reads_all<R: Fn(u64, u64, u64) -> Result<Vec<u8>>>(
    read: R,
    files: spec_fn(u64) -> FileView,
) -> bool {
    forall|id: u64| #[trigger] reads(read, id, files(id))
}

/// What reads may give: which outcomes a read of a table's file, by the table's number, an offset and
/// a length, may have. Two reads of one place need not agree.
pub struct Reads {
    pub may: spec_fn(u64, u64, u64, core::result::Result<Seq<u8>, ErrorView>) -> bool,
}

/// A read may have an outcome.
pub open spec fn may_read(
    can: Reads,
    id: u64,
    offset: u64,
    len: u64,
    got: core::result::Result<Seq<u8>, ErrorView>,
) -> bool {
    (can.may)(id, offset, len, got)
}

/// What a reader may give.
pub open spec fn outcomes<R: Fn(u64, u64, u64) -> Result<Vec<u8>>>(read: R) -> Reads {
    Reads {
        may: |id: u64, offset: u64, len: u64, got: core::result::Result<Seq<u8>, ErrorView>|
            exists|r: Result<Vec<u8>>| #[trigger]
                call_ensures(read, (id, offset, len), r) && types::result_view(r) == got,
    }
}

/// Reads that give what files hold, and nothing else.
pub open spec fn fixed(files: spec_fn(u64) -> FileView) -> Reads {
    Reads {
        may: |id: u64, offset: u64, len: u64, got: core::result::Result<Seq<u8>, ErrorView>|
            got == read_at(files(id), offset as int, len as int),
    }
}

/// What the first may give, the second may give.
pub open spec fn within(a: Reads, b: Reads) -> bool {
    forall|id: u64, offset: u64, len: u64, got: core::result::Result<Seq<u8>, ErrorView>|
        #[trigger] may_read(a, id, offset, len, got) ==> may_read(b, id, offset, len, got)
}

/// A reader that gives what files hold gives nothing else.
pub proof fn law_reader_of_files_gives_what_they_hold<R: Fn(u64, u64, u64) -> Result<Vec<u8>>>(
    read: R,
    files: spec_fn(u64) -> FileView,
)
    requires
        reads_all(read, files),
    ensures
        within(outcomes(read), fixed(files)),
{
    assert forall|id: u64, offset: u64, len: u64, got: core::result::Result<Seq<u8>, ErrorView>|
        #[trigger] may_read(outcomes(read), id, offset, len, got) implies may_read(
        fixed(files),
        id,
        offset,
        len,
        got,
    ) by {
        assert(reads(read, id, files(id)));
    }
}

/// Reads a part of a table's file.
fn ask<R: Fn(u64, u64, u64) -> Result<Vec<u8>>>(read: &R, id: u64, offset: u64, len: u64) -> (r:
    Result<Vec<u8>>)
    requires
        can_read(*read),
    ensures
        may_read(outcomes(*read), id, offset, len, types::result_view(r)),
{
    read(id, offset, len)
}

/// The reader can be called with anything.
pub open spec fn can_read<R: Fn(u64, u64, u64) -> Result<Vec<u8>>>(read: R) -> bool {
    forall|id: u64, offset: u64, len: u64| #[trigger] call_requires(read, (id, offset, len))
}

/// A table: what is held of it in memory.
pub struct TableView {
    pub path: Seq<char>,
    pub id: u64,
    pub level: u32,
    pub min_key: u128,
    pub max_key: u128,
    pub entry_count: u64,
    pub index: Seq<BlockMeta>,
    pub bloom: BloomView,
}

/// What opening a file of some length gives.
pub open spec fn opened(
    path: Seq<char>,
    file: FileView,
    len: int,
    id: u64,
    level: u32,
) -> core::result::Result<TableView, ErrorView> {
    if len < 72 {
        Err(ErrorView::SstableCorruption("SSTable file "@ + path + " too small"@))
    } else if len < 80 {
        Err(ErrorView::Io(BAD_SEEK@))
    } else {
        match read_at(file, len - 80, 80) {
            Err(e) => Err(e),
            Ok(end) => if end.len() != 80 {
                Err(ErrorView::Io(wal::SHORT_READ@))
            } else {
                opened_by(path, file, footer_of(end), id, level)
            },
        }
    }
}

/// What opening a file with some contents gives.
pub open spec fn opened_image(path: Seq<char>, image: Seq<u8>, id: u64, level: u32) -> core::result::Result<
    TableView,
    ErrorView,
> {
    opened(path, file_of(image), image.len() as int, id, level)
}

/// What opening a file with some last bytes gives.
pub open spec fn opened_by(
    path: Seq<char>,
    file: FileView,
    f: Footer,
    id: u64,
    level: u32,
) -> core::result::Result<TableView, ErrorView> {
    if f.magic != SSTABLE_MAGIC {
        Err(ErrorView::SstableCorruption(magic_text(f.magic, path)))
    } else {
        match read_at(file, f.bloom_offset as int, f.bloom_len as int) {
            Err(e) => Err(e),
            Ok(bb) => match bloom_filter::decoded(bb) {
                None => Err(ErrorView::SstableCorruption("Failed to decode SSTable bloom filter"@)),
                Some(bloom) => match read_at(file, f.index_offset as int, f.index_len as int) {
                    Err(e) => Err(e),
                    Ok(ib) => match index_of(ib) {
                        Err(e) => Err(e),
                        Ok(index) => Ok(
                            TableView {
                                path,
                                id,
                                level,
                                min_key: f.min_key.0,
                                max_key: f.max_key.0,
                                entry_count: f.entry_count,
                                index,
                                bloom,
                            },
                        ),
                    },
                },
            },
        }
    }
}

/// What opening a file of some length may give.
pub open spec fn open_gives(
    can: Reads,
    path: Seq<char>,
    len: u64,
    id: u64,
    level: u32,
    r: core::result::Result<TableView, ErrorView>,
) -> bool {
    if len < 72 {
        r == Err::<TableView, ErrorView>(
            ErrorView::SstableCorruption("SSTable file "@ + path + " too small"@),
        )
    } else if len < 80 {
        r == Err::<TableView, ErrorView>(ErrorView::Io(BAD_SEEK@))
    } else {
        exists|end: core::result::Result<Seq<u8>, ErrorView>| #[trigger]
            may_read(can, id, (len - 80) as u64, 80, end) && match end {
                Err(e) => r == Err::<TableView, ErrorView>(e),
                Ok(b) => if b.len() != 80 {
                    r == Err::<TableView, ErrorView>(ErrorView::Io(wal::SHORT_READ@))
                } else {
                    filter_gives(can, path, footer_of(b), id, level, r)
                },
            }
    }
}

/// What opening a file with some last bytes may give.
pub open spec fn filter_gives(
    can: Reads,
    path: Seq<char>,
    f: Footer,
    id: u64,
    level: u32,
    r: core::result::Result<TableView, ErrorView>,
) -> bool {
    if f.magic != SSTABLE_MAGIC {
        r == Err::<TableView, ErrorView>(
            ErrorView::SstableCorruption(magic_text(f.magic, path)),
        )
    } else {
        exists|bb: core::result::Result<Seq<u8>, ErrorView>| #[trigger]
            may_read(can, id, f.bloom_offset, f.bloom_len, bb) && match bb {
                Err(e) => r == Err::<TableView, ErrorView>(e),
                Ok(b) => match bloom_filter::decoded(b) {
                    None => r == Err::<TableView, ErrorView>(
                        ErrorView::SstableCorruption("Failed to decode SSTable bloom filter"@),
                    ),
                    Some(bloom) => index_gives(can, path, f, bloom, id, level, r),
                },
            }
    }
}

/// What opening a file with some last bytes and some filter may give.
pub open spec fn index_gives(
    can: Reads,
    path: Seq<char>,
    f: Footer,
    bloom: BloomView,
    id: u64,
    level: u32,
    r: core::result::Result<TableView, ErrorView>,
) -> bool {
    exists|ib: core::result::Result<Seq<u8>, ErrorView>| #[trigger]
        may_read(can, id, f.index_offset, f.index_len, ib) && match ib {
            Err(e) => r == Err::<TableView, ErrorView>(e),
            Ok(b) => match index_of(b) {
                Err(e) => r == Err::<TableView, ErrorView>(e),
                Ok(index) => r == Ok::<TableView, ErrorView>(
                    TableView {
                        path,
                        id,
                        level,
                        min_key: f.min_key.0,
                        max_key: f.max_key.0,
                        entry_count: f.entry_count,
                        index,
                        bloom,
                    },
                ),
            },
        }
}

/// Where the reads of a table's file are fixed, opening it gives one thing.
pub proof fn lemma_open_fixed(
    can: Reads,
    file: FileView,
    path: Seq<char>,
    len: u64,
    id: u64,
    level: u32,
    r: core::result::Result<TableView, ErrorView>,
)
    requires
        forall|offset: u64, n: u64, got: core::result::Result<Seq<u8>, ErrorView>|
            #[trigger] may_read(can, id, offset, n, got) ==> got == read_at(
                file,
                offset as int,
                n as int,
            ),
        open_gives(can, path, len, id, level, r),
    ensures
        r == opened(path, file, len as int, id, level),
{
    if len >= 80 {
        let end = choose|end: core::result::Result<Seq<u8>, ErrorView>| #[trigger]
            may_read(can, id, (len - 80) as u64, 80, end) && match end {
                Err(e) => r == Err::<TableView, ErrorView>(e),
                Ok(b) => if b.len() != 80 {
                    r == Err::<TableView, ErrorView>(ErrorView::Io(wal::SHORT_READ@))
                } else {
                    filter_gives(can, path, footer_of(b), id, level, r)
                },
            };
        assert(end == read_at(file, len - 80, 80));
    }
}

/// The text that reports a file with other last bytes than a table's.
pub open spec fn magic_text(magic: u64, path: Seq<char>) -> Seq<char> {
    "Invalid SSTable magic header "@ + text::hex_text(magic as nat, 16) + " in "@ + path
}

/// The number of blocks that a search between `lo` and `hi` leaves before the key: each step
/// compares the first key of the middle block.
pub open spec fn blocks_before(index: Seq<BlockMeta>, key: u128, lo: int, hi: int) -> int
    decreases hi - lo,
{
    if lo >= hi {
        lo
    } else {
        let mid = lo + (hi - lo) / 2;
        if index[mid].first_key.0 <= key {
            blocks_before(index, key, mid + 1, hi)
        } else {
            blocks_before(index, key, lo, mid)
        }
    }
}

/// The block that can hold a key: the last one whose first key is not above it, else the first.
pub open spec fn block_for(index: Seq<BlockMeta>, key: u128) -> int {
    let n = blocks_before(index, key, 0, index.len() as int);
    if n == 0 {
        0
    } else {
        n - 1
    }
}

/// Lookup of a key in a table: nothing outside the range of its keys, nothing that the filter does
/// not find, else what the one block says that can hold the key.
pub open spec fn table_find(t: TableView, file: FileView, key: u128) -> core::result::Result<
    Option<EntryView>,
    ErrorView,
> {
    if key < t.min_key || key > t.max_key || !bloom_filter::finds(t.bloom, key) || t.index.len()
        == 0 {
        Ok(None)
    } else {
        let m = t.index[block_for(t.index, key)];
        match read_at(file, m.offset as int, m.length as int) {
            Err(e) => Err(e),
            Ok(block) => block_find(block, key),
        }
    }
}

/// What a lookup of a key in a table may give.
pub open spec fn find_gives(
    can: Reads,
    t: TableView,
    key: u128,
    r: core::result::Result<Option<EntryView>, ErrorView>,
) -> bool {
    if key < t.min_key || key > t.max_key || !bloom_filter::finds(t.bloom, key) || t.index.len()
        == 0 {
        r == Ok::<Option<EntryView>, ErrorView>(None)
    } else {
        let m = t.index[block_for(t.index, key)];
        exists|got: core::result::Result<Seq<u8>, ErrorView>| #[trigger]
            may_read(can, t.id, m.offset, m.length as u64, got) && r == (match got {
                Err(e) => Err(e),
                Ok(block) => block_find(block, key),
            })
    }
}

pub proof fn lemma_find_within(
    a: Reads,
    b: Reads,
    t: TableView,
    key: u128,
    r: core::result::Result<Option<EntryView>, ErrorView>,
)
    requires
        within(a, b),
        find_gives(a, t, key, r),
    ensures
        find_gives(b, t, key, r),
{
}

/// Where reads are fixed, a lookup gives one thing.
pub proof fn lemma_find_fixed(
    can: Reads,
    files: spec_fn(u64) -> FileView,
    t: TableView,
    key: u128,
    r: core::result::Result<Option<EntryView>, ErrorView>,
)
    requires
        within(can, fixed(files)),
        find_gives(can, t, key, r),
    ensures
        r == table_find(t, files(t.id), key),
{
}

/// The entries of some blocks with those of the next, of which a read gave `got`.
pub open spec fn with_block(
    head: Seq<(u128, EntryView)>,
    got: core::result::Result<Seq<u8>, ErrorView>,
) -> core::result::Result<Seq<(u128, EntryView)>, ErrorView> {
    match got {
        Err(e) => Err(e),
        Ok(block) => match block_entries(block) {
            Err(e) => Err(e),
            Ok(tail) => Ok(head + tail),
        },
    }
}

/// The entries of the first blocks, of which reads gave `got`.
pub open spec fn blocks_from(
    got: Seq<core::result::Result<Seq<u8>, ErrorView>>,
) -> core::result::Result<Seq<(u128, EntryView)>, ErrorView>
    decreases got.len(),
{
    if got.len() == 0 {
        Ok(Seq::empty())
    } else {
        match blocks_from(got.drop_last()) {
            Err(e) => Err(e),
            Ok(head) => with_block(head, got.last()),
        }
    }
}

/// The first blocks may have been read so: the reads may have given this, one block after the other,
/// all of them, or up to an error.
pub open spec fn blocks_read(
    can: Reads,
    t: TableView,
    got: Seq<core::result::Result<Seq<u8>, ErrorView>>,
) -> bool {
    &&& got.len() <= t.index.len()
    &&& forall|k: int|
        0 <= k < got.len() ==> may_read(
            can,
            t.id,
            t.index[k].offset,
            t.index[k].length as u64,
            #[trigger] got[k],
        )
    &&& got.len() == t.index.len() || blocks_from(got) is Err
}

/// What reading all entries of a table may give.
pub open spec fn entries_give(
    can: Reads,
    t: TableView,
    r: core::result::Result<Seq<(u128, EntryView)>, ErrorView>,
) -> bool {
    exists|got: Seq<core::result::Result<Seq<u8>, ErrorView>>| #[trigger]
        blocks_read(can, t, got) && r == blocks_from(got)
}

pub proof fn lemma_entries_within(
    a: Reads,
    b: Reads,
    t: TableView,
    r: core::result::Result<Seq<(u128, EntryView)>, ErrorView>,
)
    requires
        within(a, b),
        entries_give(a, t, r),
    ensures
        entries_give(b, t, r),
{
    let got = choose|got: Seq<core::result::Result<Seq<u8>, ErrorView>>| #[trigger]
        blocks_read(a, t, got) && r == blocks_from(got);
    assert(blocks_read(b, t, got));
}

proof fn lemma_blocks_fixed(
    can: Reads,
    file: FileView,
    t: TableView,
    got: Seq<core::result::Result<Seq<u8>, ErrorView>>,
)
    requires
        got.len() <= t.index.len(),
        forall|k: int|
            0 <= k < got.len() ==> #[trigger] got[k] == read_at(
                file,
                t.index[k].offset as int,
                t.index[k].length as int,
            ),
    ensures
        blocks_from(got) == blocks_entries(t.index, file, got.len() as int),
    decreases got.len(),
{
    if got.len() > 0 {
        let head = got.drop_last();
        assert forall|k: int| 0 <= k < head.len() implies #[trigger] head[k] == read_at(
            file,
            t.index[k].offset as int,
            t.index[k].length as int,
        ) by {
            assert(head[k] == got[k]);
        }
        lemma_blocks_fixed(can, file, t, head);
        assert(got.last() == got[got.len() - 1]);
    }
}

/// Where reads are fixed, reading all entries of a table gives one thing.
pub proof fn lemma_entries_fixed(
    can: Reads,
    files: spec_fn(u64) -> FileView,
    t: TableView,
    r: core::result::Result<Seq<(u128, EntryView)>, ErrorView>,
)
    requires
        within(can, fixed(files)),
        entries_give(can, t, r),
    ensures
        r == table_entries(t, files(t.id)),
{
    let got = choose|got: Seq<core::result::Result<Seq<u8>, ErrorView>>| #[trigger]
        blocks_read(can, t, got) && r == blocks_from(got);
    assert forall|k: int| 0 <= k < got.len() implies #[trigger] got[k] == read_at(
        files(t.id),
        t.index[k].offset as int,
        t.index[k].length as int,
    ) by {
        assert(may_read(can, t.id, t.index[k].offset, t.index[k].length as u64, got[k]));
    }
    lemma_blocks_fixed(can, files(t.id), t, got);
    if got.len() < t.index.len() {
        lemma_blocks_entries_stop(
            t.index,
            files(t.id),
            got.len() as int,
            t.index.len() as int,
        );
    }
}

/// Once the first `n` blocks give an error, more blocks give the same one.
proof fn lemma_blocks_entries_stop(index: Seq<BlockMeta>, file: FileView, n: int, m: int)
    requires
        0 <= n <= m,
        blocks_entries(index, file, n) is Err,
    ensures
        blocks_entries(index, file, m) == blocks_entries(index, file, n),
    decreases m - n,
{
    if n < m {
        lemma_blocks_entries_stop(index, file, n, m - 1);
    }
}

/// All entries of the first `n` blocks.
pub open spec fn blocks_entries(index: Seq<BlockMeta>, file: FileView, n: int) -> core::result::Result<
    Seq<(u128, EntryView)>,
    ErrorView,
>
    decreases n,
{
    if n <= 0 {
        Ok(Seq::empty())
    } else {
        match blocks_entries(index, file, n - 1) {
            Err(e) => Err(e),
            Ok(head) => match read_at(
                file,
                index[n - 1].offset as int,
                index[n - 1].length as int,
            ) {
                Err(e) => Err(e),
                Ok(block) => match block_entries(block) {
                    Err(e) => Err(e),
                    Ok(tail) => Ok(head + tail),
                },
            },
        }
    }
}

/// All entries of a table.
pub open spec fn table_entries(t: TableView, file: FileView) -> core::result::Result<
    Seq<(u128, EntryView)>,
    ErrorView,
> {
    blocks_entries(t.index, file, t.index.len() as int)
}

/// The key lies within optional bounds, both included.
pub open spec fn in_range(key: u128, start: Option<PlayerId>, end: Option<PlayerId>) -> bool {
    &&& start matches Some(a) ==> a.0 <= key
    &&& end matches Some(b) ==> key <= b.0
}

/// The entries whose keys lie within bounds.
pub open spec fn entries_in_range(
    s: Seq<(u128, EntryView)>,
    start: Option<PlayerId>,
    end: Option<PlayerId>,
) -> Seq<(u128, EntryView)> {
    s.filter(|e: (u128, EntryView)| in_range(e.0, start, end))
}

/// What reading the entries of a table within bounds may give.
pub open spec fn range_gives(
    can: Reads,
    t: TableView,
    start: Option<PlayerId>,
    end: Option<PlayerId>,
    r: core::result::Result<Seq<(u128, EntryView)>, ErrorView>,
) -> bool {
    exists|all: core::result::Result<Seq<(u128, EntryView)>, ErrorView>| #[trigger]
        entries_give(can, t, all) && r == (match all {
            Err(e) => Err(e),
            Ok(s) => Ok(entries_in_range(s, start, end)),
        })
}

pub proof fn lemma_range_within(
    a: Reads,
    b: Reads,
    t: TableView,
    start: Option<PlayerId>,
    end: Option<PlayerId>,
    r: core::result::Result<Seq<(u128, EntryView)>, ErrorView>,
)
    requires
        within(a, b),
        range_gives(a, t, start, end, r),
    ensures
        range_gives(b, t, start, end, r),
{
    let all = choose|all: core::result::Result<Seq<(u128, EntryView)>, ErrorView>| #[trigger]
        entries_give(a, t, all) && r == (match all {
            Err(e) => Err(e),
            Ok(s) => Ok(entries_in_range(s, start, end)),
        });
    lemma_entries_within(a, b, t, all);
}

/// Where reads are fixed, reading the entries of a table within bounds gives one thing.
pub proof fn lemma_range_fixed(
    can: Reads,
    files: spec_fn(u64) -> FileView,
    t: TableView,
    start: Option<PlayerId>,
    end: Option<PlayerId>,
    r: core::result::Result<Seq<(u128, EntryView)>, ErrorView>,
)
    requires
        within(can, fixed(files)),
        range_gives(can, t, start, end, r),
    ensures
        r == (match table_entries(t, files(t.id)) {
            Err(e) => Err(e),
            Ok(s) => Ok(entries_in_range(s, start, end)),
        }),
{
    let all = choose|all: core::result::Result<Seq<(u128, EntryView)>, ErrorView>| #[trigger]
        entries_give(can, t, all) && r == (match all {
            Err(e) => Err(e),
            Ok(s) => Ok(entries_in_range(s, start, end)),
        });
    lemma_entries_fixed(can, files, t, all);
}

/// The values of results, or the error of the first that is one.
pub open spec fn gathered<A>(s: Seq<core::result::Result<A, ErrorView>>) -> core::result::Result<
    Seq<A>,
    ErrorView,
>
    decreases s.len(),
{
    if s.len() == 0 {
        Ok(Seq::empty())
    } else {
        match gathered(s.drop_last()) {
            Err(e) => Err(e),
            Ok(head) => match s.last() {
                Err(e) => Err(e),
                Ok(a) => Ok(head.push(a)),
            },
        }
    }
}

/// A result that holds entries, by view.
pub open spec fn entries_result(r: Result<Vec<(PlayerId, ValueEntry)>>) -> core::result::Result<
    Seq<(u128, EntryView)>,
    ErrorView,
> {
    match r {
        Ok(v) => Ok(types::entries_view(v@)),
        Err(e) => Err(e@),
    }
}

/// A result that may hold an entry, by view.
pub open spec fn found_view(r: Result<Option<ValueEntry>>) -> core::result::Result<
    Option<EntryView>,
    ErrorView,
> {
    match r {
        Ok(Some(e)) => Ok(Some(e@)),
        Ok(None) => Ok(None),
        Err(e) => Err(e@),
    }
}

/// A table's file, opened: its index and filter are held in memory, its blocks are read through a
/// reader.
#[derive(Debug)]
pub struct SsTable {
    path: String,
    id: u64,
    level: u32,
    min_key: PlayerId,
    max_key: PlayerId,
    entry_count: u64,
    block_index: Vec<BlockMeta>,
    bloom_filter: BloomFilter,
}

impl View for SsTable {
    type V = TableView;

    closed spec fn view(&self) -> TableView {
        TableView {
            path: self.path@,
            id: self.id,
            level: self.level,
            min_key: self.min_key.0,
            max_key: self.max_key.0,
            entry_count: self.entry_count,
            index: self.block_index@,
            bloom: self.bloom_filter@,
        }
    }
}

impl Clone for SsTable {
    fn clone(&self) -> (r: Self)
        ensures
            r@ == self@,
            r.wf() == self.wf(),
    {
        let block_index = self.block_index.clone();
        assert(block_index@ =~= self.block_index@);
        SsTable {
            path: self.path.clone(),
            id: self.id,
            level: self.level,
            min_key: self.min_key,
            max_key: self.max_key,
            entry_count: self.entry_count,
            block_index,
            bloom_filter: self.bloom_filter.clone(),
        }
    }
}

impl SsTable {
    pub closed spec fn wf(&self) -> bool {
        self.bloom_filter.wf()
    }

    pub fn id(&self) -> (r: u64)
        ensures
            r == self@.id,
    {
        self.id
    }

    pub fn level(&self) -> (r: u32)
        ensures
            r == self@.level,
    {
        self.level
    }

    pub fn path(&self) -> (r: &str)
        ensures
            r@ == self@.path,
    {
        self.path.as_str()
    }

    pub fn min_key(&self) -> (r: PlayerId)
        ensures
            r.0 == self@.min_key,
    {
        self.min_key
    }

    pub fn max_key(&self) -> (r: PlayerId)
        ensures
            r.0 == self@.max_key,
    {
        self.max_key
    }

    pub fn entry_count(&self) -> (r: u64)
        ensures
            r == self@.entry_count,
    {
        self.entry_count
    }

    /// Opens a table's file and loads its index and filter.
    pub fn open<R: Fn(u64, u64, u64) -> Result<Vec<u8>>>(
        path: &str,
        file_len: u64,
        read: &R,
        id: u64,
        level: u32,
    ) -> (r: Result<Self>)
        requires
            can_read(*read),
        ensures
            r matches Ok(t) ==> t.wf(),
            open_gives(outcomes(*read), path@, file_len, id, level, types::result_view(r)),
    {
        if file_len < 72 {
            let mut msg = "SSTable file ".to_owned();
            text::push_text(&mut msg, path);
            text::push_text(&mut msg, " too small");
            return Err(DbError::SstableCorruption(msg));
        }
        if file_len < 80 {
            return Err(DbError::Io(BAD_SEEK.to_owned()));
        }
        let footer_bytes = match ask(read, id, file_len - 80, 80) {
            Ok(b) => b,
            Err(e) => return Err(e),
        };
        if footer_bytes.len() != FOOTER_SIZE {
            return Err(DbError::Io(wal::SHORT_READ.to_owned()));
        }
        let footer = decode_footer(&footer_bytes);
        if footer.magic != SSTABLE_MAGIC {
            let mut msg = "Invalid SSTable magic header ".to_owned();
            let magic = text::to_hex(footer.magic, 16);
            text::push_text(&mut msg, magic.as_str());
            text::push_text(&mut msg, " in ");
            text::push_text(&mut msg, path);
            return Err(DbError::SstableCorruption(msg));
        }
        let bloom_bytes = match ask(read, id, footer.bloom_offset, footer.bloom_len) {
            Ok(b) => b,
            Err(e) => return Err(e),
        };
        let bloom_filter = match BloomFilter::decode(&bloom_bytes) {
            Some(f) => f,
            None => {
                return Err(
                    DbError::SstableCorruption("Failed to decode SSTable bloom filter".to_owned()),
                );
            },
        };
        let index_bytes = match ask(read, id, footer.index_offset, footer.index_len) {
            Ok(b) => b,
            Err(e) => return Err(e),
        };
        let block_index = match decode_index(&index_bytes) {
            Ok(v) => v,
            Err(e) => return Err(e),
        };
        Ok(
            SsTable {
                path: path.to_owned(),
                id,
                level,
                min_key: footer.min_key,
                max_key: footer.max_key,
                entry_count: footer.entry_count,
                block_index,
                bloom_filter,
            },
        )
    }

    /// The block that can hold a key.
    fn find_block(&self, key: &PlayerId) -> (r: usize)
        requires
            self@.index.len() > 0,
        ensures
            r == block_for(self@.index, key.0),
            r < self@.index.len(),
    {
        let mut lo: usize = 0;
        let mut hi: usize = self.block_index.len();
        let ghost index = self.block_index@;
        while lo < hi
            invariant
                lo <= hi <= index.len(),
                index == self.block_index@,
                blocks_before(index, key.0, 0, index.len() as int) == blocks_before(
                    index,
                    key.0,
                    lo as int,
                    hi as int,
                ),
            decreases hi - lo,
        {
            let mid: usize = lo + (hi - lo) / 2;
            if self.block_index[mid].first_key.0 <= key.0 {
                lo = mid + 1;
            } else {
                hi = mid;
            }
        }
        if lo == 0 {
            0
        } else {
            lo - 1
        }
    }

    /// Looks a key up. At most one block is read.
    pub fn get<R: Fn(u64, u64, u64) -> Result<Vec<u8>>>(&self, key: &PlayerId, read: &R) -> (r:
        Result<Option<ValueEntry>>)
        requires
            self.wf(),
            can_read(*read),
        ensures
            find_gives(outcomes(*read), self@, key.0, found_view(r)),
    {
        if key.0 < self.min_key.0 || key.0 > self.max_key.0 {
            return Ok(None);
        }
        if !self.bloom_filter.contains(*key) {
            return Ok(None);
        }
        if self.block_index.len() == 0 {
            return Ok(None);
        }
        let idx: usize = self.find_block(key);
        let meta = self.block_index[idx];
        let got = ask(read, self.id, meta.offset, meta.length as u64);
        let ghost heard = types::result_view(got);
        assert(self@.index[block_for(self@.index, key.0)] == meta);
        assert(may_read(outcomes(*read), self@.id, meta.offset, meta.length as u64, heard));
        let block = match got {
            Ok(b) => b,
            Err(e) => return Err(e),
        };
        find_in_block(&block, key)
    }

    /// Reads every entry of the table.
    pub fn read_all_entries<R: Fn(u64, u64, u64) -> Result<Vec<u8>>>(&self, read: &R) -> (r: Result<
        Vec<(PlayerId, ValueEntry)>,
    >)
        requires
            can_read(*read),
        ensures
            entries_give(outcomes(*read), self@, entries_result(r)),
    {
        let mut entries: Vec<(PlayerId, ValueEntry)> = Vec::new();
        let ghost t = self@;
        let ghost can = outcomes(*read);
        let ghost mut heard: Seq<core::result::Result<Seq<u8>, ErrorView>> = Seq::empty();
        let mut i: usize = 0;
        assert(types::entries_view(entries@) =~= Seq::empty());
        while i < self.block_index.len()
            invariant
                i <= t.index.len(),
                t == self@,
                can == outcomes(*read),
                can_read(*read),
                heard.len() == i,
                forall|k: int|
                    0 <= k < i ==> may_read(
                        can,
                        t.id,
                        t.index[k].offset,
                        t.index[k].length as u64,
                        #[trigger] heard[k],
                    ),
                blocks_from(heard) == Ok::<Seq<(u128, EntryView)>, ErrorView>(
                    types::entries_view(entries@),
                ),
            decreases t.index.len() - i,
        {
            let meta = self.block_index[i];
            let ghost before = heard;
            let got = ask(read, self.id, meta.offset, meta.length as u64);
            proof {
                heard = before.push(types::result_view(got));
                assert(heard.drop_last() =~= before);
            }
            match got {
                Err(e) => {
                    assert(blocks_read(can, t, heard));
                    return Err(e);
                },
                Ok(block) => {
                    match append_block(&block, &mut entries) {
                        Ok(_) => {},
                        Err(e) => {
                            assert(blocks_read(can, t, heard));
                            return Err(e);
                        },
                    }
                },
            }
            i = i + 1;
        }
        assert(blocks_read(can, t, heard));
        Ok(entries)
    }

    /// The entries of the table whose keys lie within bounds, both included.
    pub fn scan_range<R: Fn(u64, u64, u64) -> Result<Vec<u8>>>(
        &self,
        start: Option<PlayerId>,
        end: Option<PlayerId>,
        read: &R,
    ) -> (r: Result<Vec<(PlayerId, ValueEntry)>>)
        requires
            can_read(*read),
        ensures
            range_gives(outcomes(*read), self@, start, end, entries_result(r)),
            r matches Ok(v) ==> forall|i: int|
                0 <= i < v@.len() ==> in_range((#[trigger] v@[i]).0.0, start, end),
    {
        let got = self.read_all_entries(read);
        assert(entries_give(outcomes(*read), self@, entries_result(got)));
        let all = match got {
            Ok(v) => v,
            Err(e) => return Err(e),
        };
        let mut out: Vec<(PlayerId, ValueEntry)> = Vec::new();
        let ghost view = types::entries_view(all@);
        let ghost f = |e: (u128, EntryView)| in_range(e.0, start, end);
        let mut i: usize = 0;
        assert(types::entries_view(out@) =~= Seq::empty());
        assert(view.take(0).filter(f) =~= Seq::empty()) by {
            reveal(Seq::filter);
        }
        while i < all.len()
            invariant
                i <= all@.len(),
                view == types::entries_view(all@),
                f == (|e: (u128, EntryView)| in_range(e.0, start, end)),
                types::entries_view(out@) == view.take(i as int).filter(f),
                forall|j: int| 0 <= j < out@.len() ==> in_range((#[trigger] out@[j]).0.0, start, end),
            decreases all@.len() - i,
        {
            let key = all[i].0;
            let after = match start {
                Some(a) => a.0 <= key.0,
                None => true,
            };
            let before = match end {
                Some(b) => key.0 <= b.0,
                None => true,
            };
            proof {
                assert(view.take(i + 1).drop_last() =~= view.take(i as int));
                reveal(Seq::filter);
            }
            if after && before {
                let ghost held = types::entries_view(out@);
                out.push((key, all[i].1.clone()));
                assert(types::entries_view(out@) =~= held.push(view[i as int]));
            }
            i = i + 1;
        }
        assert(view.take(i as int) =~= view);
        Ok(out)
    }
}

// ---------------------------------------------------------------------------------------------
// Building
// ---------------------------------------------------------------------------------------------
/// The blocks of some entries: an entry goes to the last block while that is below the target size,
/// else it starts a new one.
pub open spec fn groups(s: Seq<(u128, EntryView)>, target: nat) -> Seq<Seq<(u128, EntryView)>>
    decreases s.len(),
{
    if s.len() == 0 {
        Seq::empty()
    } else {
        let g = groups(s.drop_last(), target);
        if g.len() > 0 && block_bytes(g.last()).len() < target {
            g.drop_last().push(g.last().push(s.last()))
        } else {
            g.push(seq![s.last()])
        }
    }
}

/// The bytes of some blocks, one after the other.
pub open spec fn data_bytes(g: Seq<Seq<(u128, EntryView)>>) -> Seq<u8>
    decreases g.len(),
{
    if g.len() == 0 {
        Seq::empty()
    } else {
        data_bytes(g.drop_last()) + block_bytes(g.last())
    }
}

/// The offset after some blocks, by the lengths that the index holds.
pub open spec fn data_end(g: Seq<Seq<(u128, EntryView)>>) -> nat
    decreases g.len(),
{
    if g.len() == 0 {
        0
    } else {
        data_end(g.drop_last()) + wire::low32(block_bytes(g.last()).len()) as nat
    }
}

/// The index of some blocks.
pub open spec fn metas(g: Seq<Seq<(u128, EntryView)>>) -> Seq<BlockMeta>
    decreases g.len(),
{
    if g.len() == 0 {
        Seq::empty()
    } else {
        metas(g.drop_last()).push(
            BlockMeta {
                first_key: PlayerId(g.last()[0].0),
                offset: data_end(g.drop_last()) as u64,
                length: wire::low32(block_bytes(g.last()).len()),
            },
        )
    }
}

/// The footer of a table of some entries.
pub open spec fn table_footer(
    s: Seq<(u128, EntryView)>,
    g: Seq<Seq<(u128, EntryView)>>,
    bloom: BloomView,
) -> Footer {
    let index_len = index_bytes(metas(g)).len();
    Footer {
        index_offset: data_end(g) as u64,
        index_len: index_len as u64,
        bloom_offset: (data_end(g) + index_len) as u64,
        bloom_len: bloom_filter::encoded(bloom).len() as u64,
        min_key: PlayerId(s[0].0),
        max_key: PlayerId(s.last().0),
        entry_count: s.len() as u64,
        magic: SSTABLE_MAGIC,
    }
}

/// The file of a table: blocks, index, filter, footer.
pub open spec fn file_bytes(s: Seq<(u128, EntryView)>, target: nat, bloom: BloomView) -> Seq<u8> {
    let g = groups(s, target);
    data_bytes(g) + index_bytes(metas(g)) + bloom_filter::encoded(bloom) + footer_bytes(
        table_footer(s, g, bloom),
    )
}

/// `after` is `before` with the bits of the keys of some entries set.
pub open spec fn all_inserted(before: BloomView, s: Seq<(u128, EntryView)>, after: BloomView) -> bool {
    &&& after.num_hashes == before.num_hashes
    &&& after.bytes.len() == before.bytes.len()
    &&& forall|b: int|
        0 <= b < before.bytes.len() * 8 ==> (#[trigger] bloom_filter::bit(after.bytes, b)
            <==> bloom_filter::bit(before.bytes, b) || exists|i: int|
            0 <= i < s.len() && bloom_filter::probed(
                (#[trigger] s[i]).0,
                before.num_hashes as u64,
                before.bytes.len() * 8,
                b,
            ))
}

/// A buffer can hold the file of some entries with a filter of `bloom_len` bytes.
pub open spec fn file_fits(s: Seq<(u128, EntryView)>, bloom_len: nat) -> bool {
    block_bytes(s).len() + 28 * s.len() + bloom_len + 89 <= wire::MAX_BUFFER
}

proof fn lemma_groups(s: Seq<(u128, EntryView)>, target: nat)
    ensures
        data_bytes(groups(s, target)) == block_bytes(s),
        groups(s, target).len() <= s.len(),
        s.len() > 0 ==> groups(s, target).len() > 0,
        forall|i: int| 0 <= i < groups(s, target).len() ==> (#[trigger] groups(s, target)[i]).len() > 0,
    decreases s.len(),
{
    if s.len() > 0 {
        let head = s.drop_last();
        lemma_groups(head, target);
        let g = groups(head, target);
        let all = groups(s, target);
        if g.len() > 0 && block_bytes(g.last()).len() < target {
            let last = g.last().push(s.last());
            assert(all.drop_last() =~= g.drop_last());
            assert(last.drop_last() =~= g.last());
            assert(data_bytes(all) =~= data_bytes(g) + entry_bytes(s.last().0, s.last().1));
        } else {
            let one = seq![s.last()];
            assert(all.drop_last() =~= g);
            assert(one.drop_last() =~= Seq::empty());
            assert(block_bytes(one) =~= entry_bytes(s.last().0, s.last().1)) by {
                assert(block_bytes(one.drop_last()) =~= Seq::<u8>::empty());
            }
        }
    }
}

proof fn lemma_data_end(g: Seq<Seq<(u128, EntryView)>>)
    ensures
        data_end(g) <= data_bytes(g).len(),
    decreases g.len(),
{
    if g.len() > 0 {
        lemma_data_end(g.drop_last());
    }
}

proof fn lemma_index_len(s: Seq<BlockMeta>)
    ensures
        index_bytes(s).len() == 4 + s.len() * 28,
{
    wire::lemma_be_ints(0, wire::low32(s.len()), 0, 0);
    if s.len() > 0 {
        lemma_metas_bytes(s, 0);
    }
}

proof fn lemma_metas_len(g: Seq<Seq<(u128, EntryView)>>)
    ensures
        metas(g).len() == g.len(),
    decreases g.len(),
{
    if g.len() > 0 {
        lemma_metas_len(g.drop_last());
    }
}

proof fn lemma_block_len(s: Seq<(u128, EntryView)>, n: int)
    requires
        0 <= n <= s.len(),
    ensures
        block_bytes(s.take(n)).len() + 37 * (s.len() - n) <= block_bytes(s).len(),
    decreases s.len(),
{
    if n == s.len() {
        assert(s.take(n) =~= s);
    } else {
        lemma_block_len(s.drop_last(), n);
        assert(s.drop_last().take(n) =~= s.take(n));
        lemma_entry_parts(s.last().0, s.last().1);
    }
}

proof fn lemma_all_inserted_step(
    before: BloomView,
    s: Seq<(u128, EntryView)>,
    mid: BloomView,
    item: (u128, EntryView),
    after: BloomView,
)
    requires
        all_inserted(before, s, mid),
        bloom_filter::inserted(mid, item.0, after),
    ensures
        all_inserted(before, s.push(item), after),
{
    let n = before.num_hashes as u64;
    let total = before.bytes.len() * 8;
    let t = s.push(item);
    assert forall|b: int| 0 <= b < total implies (#[trigger] bloom_filter::bit(after.bytes, b)
        <==> bloom_filter::bit(before.bytes, b) || exists|i: int|
        0 <= i < t.len() && bloom_filter::probed((#[trigger] t[i]).0, n, total, b)) by {
        assert(bloom_filter::bit(mid.bytes, b) <==> bloom_filter::bit(before.bytes, b) || exists|
            i: int,
        |
            0 <= i < s.len() && bloom_filter::probed((#[trigger] s[i]).0, n, total, b));
        if exists|i: int| 0 <= i < s.len() && bloom_filter::probed((#[trigger] s[i]).0, n, total, b) {
            let i = choose|i: int|
                0 <= i < s.len() && bloom_filter::probed((#[trigger] s[i]).0, n, total, b);
            assert(t[i] == s[i]);
        }
        if bloom_filter::probed(item.0, n, total, b) {
            assert(t[s.len() as int] == item);
        }
        if exists|i: int| 0 <= i < t.len() && bloom_filter::probed((#[trigger] t[i]).0, n, total, b) {
            let i = choose|i: int|
                0 <= i < t.len() && bloom_filter::probed((#[trigger] t[i]).0, n, total, b);
            if i < s.len() {
                assert(s[i] == t[i]);
            } else {
                assert(t[i] == item);
            }
        }
    }
}

/// Appends one entry to a block.
fn append_entry(block: &mut BytesMut, key: PlayerId, entry: &ValueEntry)
    requires
        wire::buffer_view(*old(block)).len() + entry_bytes(key.0, entry@).len() <= wire::MAX_BUFFER,
    ensures
        wire::buffer_view(*final(block)) == wire::buffer_view(*old(block)) + entry_bytes(
            key.0,
            entry@,
        ),
{
    let ghost start = wire::buffer_view(*block);
    proof {
        lemma_entry_parts(key.0, entry@);
    }
    wire::put_slice(block, &key.to_bytes());
    wire::put_u64(block, entry.seq_num);
    wire::put_u64(block, entry.timestamp);
    let op: u8 = if entry.is_tombstone() {
        2
    } else {
        1
    };
    wire::put_u8(block, op);
    match &entry.value {
        Some(v) => {
            wire::put_u32(block, wire::low_32(v.len()));
            wire::put_slice(block, v);
        },
        None => {
            wire::put_u32(block, 0);
        },
    }
    assert(wire::buffer_view(*block) =~= start + entry_bytes(key.0, entry@));
}

/// Builds the file of a table.
pub struct SsTableBuilder {
    path: String,
    id: u64,
    level: u32,
    target_block_size: usize,
}

impl SsTableBuilder {
    pub closed spec fn spec_path(&self) -> Seq<char> {
        self.path@
    }

    pub closed spec fn spec_id(&self) -> u64 {
        self.id
    }

    pub closed spec fn spec_level(&self) -> u32 {
        self.level
    }

    pub closed spec fn spec_target(&self) -> usize {
        self.target_block_size
    }

    pub fn new(path: &str, id: u64, level: u32) -> (r: Self)
        ensures
            r.spec_path() == path@,
            r.spec_id() == id,
            r.spec_level() == level,
            r.spec_target() == DEFAULT_BLOCK_SIZE,
    {
        SsTableBuilder { path: path.to_owned(), id, level, target_block_size: DEFAULT_BLOCK_SIZE }
    }

    /// Whether a buffer can hold the file of some entries.
    pub fn fits(entries: &Vec<(PlayerId, ValueEntry)>, bloom_len: usize) -> (r: bool)
        ensures
            r == file_fits(types::entries_view(entries@), bloom_len as nat),
    {
        let ghost view = types::entries_view(entries@);
        let limit: usize = wire::MAX_BUFFER;
        if bloom_len > limit || limit - bloom_len < 89 {
            return false;
        }
        let mut left: usize = limit - bloom_len - 89;
        let mut i: usize = 0;
        assert(view.take(0) =~= Seq::empty());
        while i < entries.len()
            invariant
                i <= entries@.len(),
                view == types::entries_view(entries@),
                limit == wire::MAX_BUFFER,
                left + block_bytes(view.take(i as int)).len() + 28 * i + bloom_len + 89 == limit,
            decreases entries@.len() - i,
        {
            proof {
                let next = view.take(i + 1);
                assert(next.drop_last() =~= view.take(i as int));
                lemma_entry_parts(next.last().0, next.last().1);
                lemma_block_len(view, i + 1);
            }
            let len: usize = match &entries[i].1.value {
                Some(v) => v.len(),
                None => 0,
            };
            if left < 65 || left - 65 < len {
                return false;
            }
            left = left - 65 - len;
            i = i + 1;
        }
        assert(view.take(i as int) =~= view);
        true
    }

    /// Builds the file of some entries, given in key order, and opens it. No file is made of no
    /// entries. `bloom` is an empty filter of the size that the table is to have.
    #[verifier::rlimit(60)]
    pub fn build(self, entries: &Vec<(PlayerId, ValueEntry)>, bloom: BloomFilter) -> (r: Result<
        Option<(Bytes, SsTable)>,
    >)
        requires
            bloom.wf(),
            bloom@.bytes.len() > 0,
            file_fits(types::entries_view(entries@), bloom@.bytes.len()),
        ensures
            entries@.len() == 0 <==> r == Ok::<Option<(Bytes, SsTable)>, DbError>(None),
            entries@.len() > 0 ==> exists|filter: BloomView| #[trigger]
                built(self, types::entries_view(entries@), bloom@, filter, r),
            r matches Ok(Some(out)) ==> out.1.wf(),
    {
        if entries.len() == 0 {
            return Ok(None);
        }
        let ghost view = types::entries_view(entries@);
        let ghost target = self.target_block_size as nat;
        let ghost empty_bloom = bloom@;
        let mut bloom = bloom;
        let mut writer = BytesMut::new();
        let mut block_index: Vec<BlockMeta> = Vec::new();
        let mut current_block = BytesMut::new();
        let mut block_first_key: Option<PlayerId> = None;
        let mut current_offset: u64 = 0;
        let mut i: usize = 0;
        // Blocks that are written, and whether another one is open.
        let ghost mut done: Seq<Seq<(u128, EntryView)>> = Seq::empty();
        let ghost mut current: Seq<(u128, EntryView)> = Seq::empty();
        proof {
            assert(view.take(0) =~= Seq::empty());
            assert(block_bytes(current) =~= Seq::empty());
            assert(groups(view.take(0), target) =~= done);
            assert(block_bytes(view.take(0)) =~= Seq::empty());
        }
        while i < entries.len()
            invariant
                i <= entries@.len(),
                view == types::entries_view(entries@),
                target == self.target_block_size,
                file_fits(view, empty_bloom.bytes.len()),
                empty_bloom.bytes.len() > 0,
                bloom.wf(),
                all_inserted(empty_bloom, view.take(i as int), bloom@),
                groups(view.take(i as int), target) == (if current.len() == 0 {
                    done
                } else {
                    done.push(current)
                }),
                current.len() == 0 ==> (done.len() == 0 || block_bytes(done.last()).len() >= target),
                current.len() > 0 ==> block_bytes(current).len() < target,
                wire::buffer_view(writer) == data_bytes(done),
                wire::buffer_view(current_block) == block_bytes(current),
                data_bytes(done).len() + block_bytes(current).len() == block_bytes(
                    view.take(i as int),
                ).len(),
                block_index@ == metas(done),
                current_offset == data_end(done),
                block_first_key == (if current.len() == 0 {
                    None
                } else {
                    Some(PlayerId(current[0].0))
                }),
            decreases entries@.len() - i,
        {
            let key = entries[i].0;
            let ghost item = view[i as int];
            let ghost mid = bloom@;
            bloom.insert(key);
            proof {
                let next = view.take(i + 1);
                assert(next.drop_last() =~= view.take(i as int));
                assert(next =~= view.take(i as int).push(item));
                lemma_all_inserted_step(empty_bloom, view.take(i as int), mid, item, bloom@);
                lemma_block_len(view, i + 1);
                lemma_entry_parts(item.0, item.1);
            }
            if block_first_key.is_none() {
                block_first_key = Some(key);
            }
            append_entry(&mut current_block, key, &entries[i].1);
            proof {
                let more = current.push(item);
                assert(more.drop_last() =~= current);
                if current.len() > 0 {
                    assert(done.push(current).drop_last() =~= done);
                } else {
                    assert(more =~= seq![item]);
                }
                current = more;
                assert(groups(view.take(i + 1), target) =~= done.push(current));
            }
            if current_block.len() >= self.target_block_size {
                let block_len: u32 = wire::low_32(current_block.len());
                wire::put_slice(&mut writer, &current_block);
                proof {
                    lemma_data_end(done);
                    assert(done.push(current).drop_last() =~= done);
                }
                block_index.push(
                    BlockMeta {
                        first_key: block_first_key.unwrap(),
                        offset: current_offset,
                        length: block_len,
                    },
                );
                current_offset = current_offset + block_len as u64;
                current_block.clear();
                block_first_key = None;
                proof {
                    done = done.push(current);
                    current = Seq::empty();
                    assert(block_bytes(current) =~= Seq::empty());
                }
            }
            i = i + 1;
        }
        assert(view.take(i as int) =~= view);
        let ghost g = groups(view, target);
        if current_block.len() > 0 {
            let block_len: u32 = wire::low_32(current_block.len());
            wire::put_slice(&mut writer, &current_block);
            proof {
                assert(current.len() > 0);
                lemma_data_end(done);
                assert(g.drop_last() =~= done);
            }
            block_index.push(
                BlockMeta {
                    first_key: block_first_key.unwrap(),
                    offset: current_offset,
                    length: block_len,
                },
            );
            current_offset = current_offset + block_len as u64;
        } else {
            proof {
                if current.len() > 0 {
                    lemma_block_len(current, 0);
                    assert(current.take(0) =~= Seq::empty());
                }
            }
        }
        proof {
            lemma_groups(view, target);
            lemma_metas_len(g);
            lemma_index_len(metas(g));
            lemma_data_end(g);
            bloom.lemma_wf_size();
            wire::lemma_be_ints(bloom@.num_hashes, wire::low32(bloom@.bytes.len()), 0, 0);
            lemma_footer_round_trip(table_footer(view, g, bloom@));
        }
        let index_offset: u64 = current_offset;
        let index = encode_index(&block_index);
        let index_len: u64 = index.len() as u64;
        wire::put_slice(&mut writer, &index);
        current_offset = current_offset + index_len;
        let bloom_offset: u64 = current_offset;
        let bloom_bytes = bloom.encode();
        let bloom_len: u64 = bloom_bytes.len() as u64;
        wire::put_slice(&mut writer, &bloom_bytes);
        let footer = Footer {
            index_offset,
            index_len,
            bloom_offset,
            bloom_len,
            min_key: entries[0].0,
            max_key: entries[entries.len() - 1].0,
            entry_count: entries.len() as u64,
            magic: SSTABLE_MAGIC,
        };
        let footer_data = encode_footer(&footer);
        wire::put_slice(&mut writer, &footer_data);
        let image = writer.freeze();
        assert(wire::bytes_view(image) =~= file_bytes(view, target, bloom@));
        let data: &[u8] = &image;
        let reader = |id: u64, offset: u64, len: u64| -> (r: Result<Vec<u8>>)
            ensures
                types::result_view(r) == bytes_at(data@, offset as int, len as int),
            { read_slice(data, offset, len) };
        let image_len: u64 = image.len() as u64;
        let opened_table = SsTable::open(
            self.path.as_str(),
            image_len,
            &reader,
            self.id,
            self.level,
        );
        proof {
            lemma_open_fixed(
                outcomes(reader),
                file_of(data@),
                self.path@,
                image_len,
                self.id,
                self.level,
                types::result_view(opened_table),
            );
        }
        let r = match opened_table {
            Ok(t) => Ok(Some((image, t))),
            Err(e) => Err(e),
        };
        assert(built(self, view, empty_bloom, bloom@, r));
        r
    }
}

/// What building some entries gives: the file, with a filter that holds all keys, and what opening
/// it gives.
pub open spec fn built(
    b: SsTableBuilder,
    s: Seq<(u128, EntryView)>,
    empty_bloom: BloomView,
    bloom: BloomView,
    r: Result<Option<(Bytes, SsTable)>>,
) -> bool {
    let image = file_bytes(s, b.spec_target() as nat, bloom);
    &&& all_inserted(empty_bloom, s, bloom)
    &&& match r {
        Ok(Some(out)) => wire::bytes_view(out.0) == image && opened_image(
            b.spec_path(),
            image,
            b.spec_id(),
            b.spec_level(),
        ) == Ok::<TableView, ErrorView>(out.1@),
        Ok(None) => false,
        Err(e) => opened_image(
            b.spec_path(),
            image,
            b.spec_id(),
            b.spec_level(),
        ) == Err::<TableView, ErrorView>(e@),
    }
}

/// Reads from bytes in memory.
pub fn read_slice(data: &[u8], offset: u64, len: u64) -> (r: Result<Vec<u8>>)
    ensures
        types::result_view(r) == bytes_at(data@, offset as int, len as int),
{
    let mut out: Vec<u8> = Vec::new();
    if len == 0 {
        assert(out@ =~= Seq::empty());
        return Ok(out);
    }
    let size: u64 = data.len() as u64;
    if len > size || offset > size - len {
        return Err(DbError::Io(wal::SHORT_READ.to_owned()));
    }
    out.extend_from_slice(&data[offset as usize..(offset + len) as usize]);
    assert(out@ =~= data@.subrange(offset as int, offset + len));
    Ok(out)
}

fn encode_index(block_index: &Vec<BlockMeta>) -> (r: BytesMut)
    requires
        4 + 28 * block_index@.len() <= wire::MAX_BUFFER,
    ensures
        wire::buffer_view(r) == index_bytes(block_index@),
{
    let mut out = BytesMut::new();
    let ghost s = block_index@;
    proof {
        wire::lemma_be_ints(0, wire::low32(s.len()), 0, 0);
        assert(s.take(0) =~= Seq::empty());
    }
    wire::put_u32(&mut out, wire::low_32(block_index.len()));
    assert(wire::buffer_view(out) =~= wire::be_bytes(wire::low32(s.len()) as nat, 4) + metas_bytes(
        s.take(0),
    ));
    let mut i: usize = 0;
    while i < block_index.len()
        invariant
            i <= s.len(),
            s == block_index@,
            4 + 28 * s.len() <= wire::MAX_BUFFER,
            wire::be_bytes(wire::low32(s.len()) as nat, 4).len() == 4,
            wire::buffer_view(out) == wire::be_bytes(wire::low32(s.len()) as nat, 4) + metas_bytes(
                s.take(i as int),
            ),
            metas_bytes(s.take(i as int)).len() == 28 * i,
        decreases s.len() - i,
    {
        let meta = &block_index[i];
        let ghost before = wire::buffer_view(out);
        proof {
            let next = s.take(i + 1);
            assert(next.drop_last() =~= s.take(i as int));
            wire::lemma_be_ints(0, meta.length, meta.offset, meta.first_key.0);
        }
        wire::put_slice(&mut out, &meta.first_key.to_bytes());
        wire::put_u64(&mut out, meta.offset);
        wire::put_u32(&mut out, meta.length);
        assert(wire::buffer_view(out) =~= before + meta_bytes(*meta));
        i = i + 1;
    }
    assert(s.take(i as int) =~= s);
    out
}

fn encode_footer(f: &Footer) -> (r: BytesMut)
    ensures
        wire::buffer_view(r) == footer_bytes(*f),
{
    let mut out = BytesMut::with_capacity(FOOTER_SIZE);
    proof {
        wire::lemma_be_ints(0, 0, f.index_offset, f.min_key.0);
        wire::lemma_be_ints(0, 0, f.index_len, f.max_key.0);
        wire::lemma_be_ints(0, 0, f.bloom_offset, 0);
        wire::lemma_be_ints(0, 0, f.bloom_len, 0);
        wire::lemma_be_ints(0, 0, f.entry_count, 0);
        wire::lemma_be_ints(0, 0, f.magic, 0);
    }
    wire::put_u64(&mut out, f.index_offset);
    wire::put_u64(&mut out, f.index_len);
    wire::put_u64(&mut out, f.bloom_offset);
    wire::put_u64(&mut out, f.bloom_len);
    wire::put_slice(&mut out, &f.min_key.to_bytes());
    wire::put_slice(&mut out, &f.max_key.to_bytes());
    wire::put_u64(&mut out, f.entry_count);
    wire::put_u64(&mut out, f.magic);
    assert(wire::buffer_view(out) =~= footer_bytes(*f));
    out
}

// ---------------------------------------------------------------------------------------------
// Laws
// ---------------------------------------------------------------------------------------------
/// Keys ascend, none occurs twice.
pub open spec fn ascending(s: Seq<(u128, EntryView)>) -> bool {
    forall|i: int, j: int| 0 <= i < j < s.len() ==> (#[trigger] s[i]).0 < (#[trigger] s[j]).0
}

/// The entry under a key; of several, the last.
pub open spec fn lookup(s: Seq<(u128, EntryView)>, key: u128) -> Option<EntryView>
    decreases s.len(),
{
    if s.len() == 0 {
        None
    } else if s.last().0 == key {
        Some(s.last().1)
    } else {
        lookup(s.drop_last(), key)
    }
}

/// Every block's length, the number of blocks and the filter's size fit their fields. Blocks hold
/// less than the target size and one entry more, so this asks that no value is close to four
/// gigabytes long.
pub open spec fn lengths_fit(s: Seq<(u128, EntryView)>, target: nat, bloom: BloomView) -> bool {
    let g = groups(s, target);
    &&& g.len() <= u32::MAX
    &&& forall|i: int| 0 <= i < g.len() ==> block_bytes(#[trigger] g[i]).len() <= u32::MAX
    &&& bloom.bytes.len() <= u32::MAX
    &&& bloom.bytes.len() * 8 <= usize::MAX
    &&& file_fits(s, bloom.bytes.len())
}

/// What is held in memory of a table that was built of some entries.
pub open spec fn built_view(
    path: Seq<char>,
    id: u64,
    level: u32,
    s: Seq<(u128, EntryView)>,
    target: nat,
    bloom: BloomView,
) -> TableView {
    TableView {
        path,
        id,
        level,
        min_key: s[0].0,
        max_key: s.last().0,
        entry_count: s.len() as u64,
        index: metas(groups(s, target)),
        bloom,
    }
}

/// A file that was built opens: smallest and largest key, number of entries, index and filter are
/// those it was built with.
#[verifier::rlimit(40)]
pub proof fn law_built_table_opens(
    path: Seq<char>,
    id: u64,
    level: u32,
    s: Seq<(u128, EntryView)>,
    target: nat,
    bloom: BloomView,
)
    requires
        s.len() > 0,
        lengths_fit(s, target, bloom),
    ensures
        opened_image(path, file_bytes(s, target, bloom), id, level) == Ok::<TableView, ErrorView>(
            built_view(path, id, level, s, target, bloom),
        ),
{
    let g = groups(s, target);
    let image = file_bytes(s, target, bloom);
    let f = table_footer(s, g, bloom);
    let data = data_bytes(g);
    let index = index_bytes(metas(g));
    let filter = bloom_filter::encoded(bloom);
    lemma_groups(s, target);
    lemma_metas_len(g);
    lemma_index_round_trip(metas(g));
    lemma_data_end_exact(g);
    lemma_footer_round_trip(f);
    wire::lemma_be_ints(bloom.num_hashes, wire::low32(bloom.bytes.len()), 0, 0);
    bloom_filter::law_filter_round_trip(bloom, Seq::empty());
    assert(filter + Seq::empty() =~= filter);
    assert(image.subrange(image.len() - 80, image.len() as int) =~= footer_bytes(f));
    assert(image.subrange(f.bloom_offset as int, f.bloom_offset + f.bloom_len) =~= filter);
    assert(image.subrange(f.index_offset as int, f.index_offset + f.index_len) =~= index);
}

proof fn lemma_data_end_exact(g: Seq<Seq<(u128, EntryView)>>)
    requires
        forall|i: int| 0 <= i < g.len() ==> block_bytes(#[trigger] g[i]).len() <= u32::MAX,
    ensures
        data_end(g) == data_bytes(g).len(),
    decreases g.len(),
{
    if g.len() > 0 {
        let head = g.drop_last();
        assert forall|i: int| 0 <= i < head.len() implies block_bytes(#[trigger] head[i]).len()
            <= u32::MAX by {
            assert(head[i] == g[i]);
        }
        lemma_data_end_exact(head);
        assert(g.last() == g[g.len() - 1]);
    }
}

/// A block lies where the index says.
#[verifier::rlimit(40)]
proof fn lemma_block_place(g: Seq<Seq<(u128, EntryView)>>, rest: Seq<u8>, i: int)
    requires
        0 <= i < g.len(),
        forall|j: int| 0 <= j < g.len() ==> block_bytes(#[trigger] g[j]).len() <= u32::MAX,
        data_bytes(g).len() <= u64::MAX,
    ensures
        metas(g).len() == g.len(),
        metas(g)[i].first_key.0 == g[i][0].0,
        metas(g)[i].length == block_bytes(g[i]).len(),
        bytes_at(data_bytes(g) + rest, metas(g)[i].offset as int, metas(g)[i].length as int) == Ok::<
            Seq<u8>,
            ErrorView,
        >(block_bytes(g[i])),
    decreases g.len(),
{
    let head = g.drop_last();
    lemma_metas_len(g);
    lemma_metas_len(head);
    assert forall|j: int| 0 <= j < head.len() implies block_bytes(#[trigger] head[j]).len()
        <= u32::MAX by {
        assert(head[j] == g[j]);
    }
    assert(g.last() == g[g.len() - 1]);
    let more = block_bytes(g.last()) + rest;
    assert(data_bytes(g) + rest =~= data_bytes(head) + more);
    if i < head.len() {
        lemma_block_place(head, more, i);
    } else {
        lemma_data_end_exact(head);
        let off = data_bytes(head).len() as int;
        let len = block_bytes(g.last()).len() as int;
        assert((data_bytes(g) + rest).subrange(off, off + len) =~= block_bytes(g.last()));
        if len == 0 {
            assert(block_bytes(g.last()) =~= Seq::empty());
        }
    }
}

proof fn lemma_block_bytes_concat(a: Seq<(u128, EntryView)>, b: Seq<(u128, EntryView)>)
    ensures
        block_bytes(a + b) == block_bytes(a) + block_bytes(b),
    decreases b.len(),
{
    if b.len() == 0 {
        assert(a + b =~= a);
        assert(block_bytes(a) + block_bytes(b) =~= block_bytes(a));
    } else {
        lemma_block_bytes_concat(a, b.drop_last());
        assert((a + b).drop_last() =~= a + b.drop_last());
        assert(block_bytes(a + b) =~= block_bytes(a) + block_bytes(b));
    }
}

/// A block starts with the bytes of its first entry.
proof fn lemma_block_front(b: Seq<(u128, EntryView)>)
    requires
        b.len() > 0,
    ensures
        block_bytes(b) == entry_bytes(b[0].0, b[0].1) + block_bytes(b.skip(1)),
        block_bytes(b).len() >= 37 + wal::value_bytes(b[0].1.value).len(),
        block_bytes(b.skip(1)).len() <= block_bytes(b).len(),
{
    let one = seq![b[0]];
    assert(b =~= one + b.skip(1));
    lemma_block_bytes_concat(one, b.skip(1));
    assert(one.drop_last() =~= Seq::empty());
    assert(block_bytes(one.drop_last()) =~= Seq::<u8>::empty());
    assert(block_bytes(one) =~= entry_bytes(b[0].0, b[0].1));
    lemma_entry_parts(b[0].0, b[0].1);
}

proof fn lemma_block_entries(b: Seq<(u128, EntryView)>)
    requires
        block_bytes(b).len() <= u32::MAX,
    ensures
        block_entries(block_bytes(b)) == Ok::<Seq<(u128, EntryView)>, ErrorView>(b),
    decreases b.len(),
{
    if b.len() == 0 {
        assert(block_bytes(b) =~= Seq::empty());
        assert(b =~= Seq::empty());
    } else {
        lemma_block_front(b);
        lemma_first_raw(b[0].0, b[0].1, block_bytes(b.skip(1)));
        lemma_block_entries(b.skip(1));
        assert(seq![b[0]] + b.skip(1) =~= b);
    }
}

/// The entries of some blocks, one after the other.
spec fn flat(g: Seq<Seq<(u128, EntryView)>>) -> Seq<(u128, EntryView)>
    decreases g.len(),
{
    if g.len() == 0 {
        Seq::empty()
    } else {
        flat(g.drop_last()) + g.last()
    }
}

proof fn lemma_flat_groups(s: Seq<(u128, EntryView)>, target: nat)
    ensures
        flat(groups(s, target)) == s,
    decreases s.len(),
{
    if s.len() == 0 {
        assert(flat(groups(s, target)) =~= s);
    } else {
        lemma_flat_groups(s.drop_last(), target);
        let g = groups(s.drop_last(), target);
        let all = groups(s, target);
        if g.len() > 0 && block_bytes(g.last()).len() < target {
            assert(all.drop_last() =~= g.drop_last());
            assert(flat(all) =~= flat(g).push(s.last()));
        } else {
            assert(all.drop_last() =~= g);
            assert(flat(all) =~= flat(g).push(s.last()));
        }
        assert(s.drop_last().push(s.last()) =~= s);
    }
}

/// A table that was built gives back the entries it was built of.
pub proof fn law_built_table_reads_back(
    path: Seq<char>,
    id: u64,
    level: u32,
    s: Seq<(u128, EntryView)>,
    target: nat,
    bloom: BloomView,
)
    requires
        s.len() > 0,
        lengths_fit(s, target, bloom),
    ensures
        table_entries(
            built_view(path, id, level, s, target, bloom),
            file_of(file_bytes(s, target, bloom)),
        ) == Ok::<Seq<(u128, EntryView)>, ErrorView>(s),
{
    let g = groups(s, target);
    let image = file_bytes(s, target, bloom);
    let rest = index_bytes(metas(g)) + bloom_filter::encoded(bloom) + footer_bytes(
        table_footer(s, g, bloom),
    );
    assert(image =~= data_bytes(g) + rest);
    lemma_groups(s, target);
    lemma_metas_len(g);
    lemma_flat_groups(s, target);
    lemma_blocks_read_back(g, rest, g.len() as int);
    assert(g.take(g.len() as int) =~= g);
}

proof fn lemma_blocks_read_back(g: Seq<Seq<(u128, EntryView)>>, rest: Seq<u8>, n: int)
    requires
        0 <= n <= g.len(),
        forall|j: int| 0 <= j < g.len() ==> block_bytes(#[trigger] g[j]).len() <= u32::MAX,
        data_bytes(g).len() <= u64::MAX,
    ensures
        blocks_entries(metas(g), file_of(data_bytes(g) + rest), n) == Ok::<
            Seq<(u128, EntryView)>,
            ErrorView,
        >(flat(g.take(n))),
    decreases n,
{
    if n == 0 {
        assert(flat(g.take(0)) =~= Seq::empty());
    } else {
        lemma_blocks_read_back(g, rest, n - 1);
        lemma_block_place(g, rest, n - 1);
        lemma_block_entries(g[n - 1]);
        assert(g.take(n).drop_last() =~= g.take(n - 1));
    }
}

proof fn lemma_block_find(b: Seq<(u128, EntryView)>, key: u128)
    requires
        block_bytes(b).len() <= u32::MAX,
        ascending(b),
    ensures
        block_find(block_bytes(b), key) == Ok::<Option<EntryView>, ErrorView>(lookup(b, key)),
    decreases b.len(),
{
    if b.len() == 0 {
        assert(block_bytes(b) =~= Seq::empty());
    } else {
        let rest = b.skip(1);
        lemma_block_front(b);
        lemma_first_raw(b[0].0, b[0].1, block_bytes(rest));
        assert(ascending(rest)) by {
            assert forall|i: int, j: int| 0 <= i < j < rest.len() implies (#[trigger] rest[i]).0
                < (#[trigger] rest[j]).0 by {
                assert(rest[i] == b[i + 1] && rest[j] == b[j + 1]);
            }
        }
        assert(b =~= seq![b[0]] + rest);
        if b[0].0 >= key {
            lemma_lookup_absent(rest, key);
        } else {
            lemma_block_find(rest, key);
        }
        lemma_lookup_concat(seq![b[0]], rest, key);
        assert(seq![b[0]].drop_last() =~= Seq::empty());
        assert(lookup(seq![b[0]].drop_last(), key) is None);
    }
}

/// Nothing is looked up under a key that does not occur.
pub proof fn lemma_lookup_absent(s: Seq<(u128, EntryView)>, key: u128)
    requires
        forall|i: int| 0 <= i < s.len() ==> (#[trigger] s[i]).0 != key,
    ensures
        lookup(s, key) is None,
    decreases s.len(),
{
    if s.len() > 0 {
        assert(s.last() == s[s.len() - 1]);
        assert forall|i: int| 0 <= i < s.drop_last().len() implies (#[trigger] s.drop_last()[i]).0
            != key by {
            assert(s.drop_last()[i] == s[i]);
        }
        lemma_lookup_absent(s.drop_last(), key);
    }
}

/// Of two sequences, one after the other, the second is looked at first.
pub proof fn lemma_lookup_concat(a: Seq<(u128, EntryView)>, b: Seq<(u128, EntryView)>, key: u128)
    ensures
        lookup(a + b, key) == (if lookup(b, key) is Some {
            lookup(b, key)
        } else {
            lookup(a, key)
        }),
    decreases b.len(),
{
    if b.len() == 0 {
        assert(a + b =~= a);
    } else {
        assert((a + b).drop_last() =~= a + b.drop_last());
        lemma_lookup_concat(a, b.drop_last(), key);
    }
}

/// In an ascending sequence the entry that stands under a key is the one that is looked up.
pub proof fn lemma_lookup_at(s: Seq<(u128, EntryView)>, i: int)
    requires
        0 <= i < s.len(),
        ascending(s),
    ensures
        lookup(s, s[i].0) == Some(s[i].1),
    decreases s.len(),
{
    if i < s.len() - 1 {
        assert(s[i].0 < s[s.len() - 1].0);
        let head = s.drop_last();
        assert(ascending(head)) by {
            assert forall|a: int, b: int| 0 <= a < b < head.len() implies (#[trigger] head[a]).0
                < (#[trigger] head[b]).0 by {
                assert(head[a] == s[a] && head[b] == s[b]);
            }
        }
        lemma_lookup_at(head, i);
    }
}

/// The entry that is looked up stands in the sequence.
pub proof fn lemma_lookup_some(s: Seq<(u128, EntryView)>, key: u128)
    requires
        lookup(s, key) is Some,
    ensures
        exists|i: int| 0 <= i < s.len() && (#[trigger] s[i]) == (key, lookup(s, key).unwrap()),
    decreases s.len(),
{
    if s.last().0 == key {
        assert(s[s.len() - 1] == (key, lookup(s, key).unwrap()));
    } else {
        lemma_lookup_some(s.drop_last(), key);
        let i = choose|i: int|
            0 <= i < s.drop_last().len() && (#[trigger] s.drop_last()[i]) == (
                key,
                lookup(s, key).unwrap(),
            );
        assert(s[i] == (key, lookup(s, key).unwrap()));
    }
}

/// Every entry of a block stands among the entries of all blocks.
proof fn lemma_flat_contains(g: Seq<Seq<(u128, EntryView)>>, i: int, k: int) -> (at: int)
    requires
        0 <= i < g.len(),
        0 <= k < g[i].len(),
    ensures
        0 <= at < flat(g).len(),
        flat(g)[at] == g[i][k],
        at >= flat(g.take(i)).len(),
        i < g.len() - 1 ==> at < flat(g.drop_last()).len(),
    decreases g.len(),
{
    let head = g.drop_last();
    if i < head.len() {
        let at = lemma_flat_contains(head, i, k);
        assert(head.take(i) =~= g.take(i));
        at
    } else {
        assert(g.take(i) =~= head);
        flat(head).len() + k
    }
}

/// Blocks of ascending entries ascend, within and across.
proof fn lemma_groups_ascend(g: Seq<Seq<(u128, EntryView)>>)
    requires
        ascending(flat(g)),
    ensures
        forall|i: int| 0 <= i < g.len() ==> ascending(#[trigger] g[i]),
        forall|i: int, j: int, k: int, m: int|
            0 <= i < j < g.len() && 0 <= k < g[i].len() && 0 <= m < g[j].len() ==> (
            #[trigger] g[i][k]).0 < (#[trigger] g[j][m]).0,
    decreases g.len(),
{
    if g.len() > 0 {
        let head = g.drop_last();
        let all = flat(g);
        assert(ascending(flat(head))) by {
            assert forall|a: int, b: int| 0 <= a < b < flat(head).len() implies (
            #[trigger] flat(head)[a]).0 < (#[trigger] flat(head)[b]).0 by {
                assert(flat(head)[a] == all[a] && flat(head)[b] == all[b]);
            }
        }
        lemma_groups_ascend(head);
        let base = flat(head).len() as int;
        assert forall|i: int| 0 <= i < g.len() implies ascending(#[trigger] g[i]) by {
            if i < head.len() {
                assert(head[i] == g[i]);
            } else {
                assert forall|a: int, b: int| 0 <= a < b < g[i].len() implies (#[trigger] g[i][a]).0
                    < (#[trigger] g[i][b]).0 by {
                    assert(all[base + a] == g[i][a] && all[base + b] == g[i][b]);
                }
            }
        }
        assert forall|i: int, j: int, k: int, m: int|
            0 <= i < j < g.len() && 0 <= k < g[i].len() && 0 <= m < g[j].len() implies (
        #[trigger] g[i][k]).0 < (#[trigger] g[j][m]).0 by {
            if j < head.len() {
                assert(head[i][k] == g[i][k] && head[j][m] == g[j][m]);
            } else {
                let at = lemma_flat_contains(g, i, k);
                assert(all[base + m] == g[j][m]);
                assert(all[at].0 < all[base + m].0);
            }
        }
    }
}

/// A key that only one block can hold is looked up in that block.
proof fn lemma_lookup_flat(g: Seq<Seq<(u128, EntryView)>>, key: u128, b: int)
    requires
        0 <= b < g.len(),
        forall|j: int, m: int|
            0 <= j < g.len() && j != b && 0 <= m < g[j].len() ==> (#[trigger] g[j][m]).0 != key,
    ensures
        lookup(flat(g), key) == lookup(g[b], key),
    decreases g.len(),
{
    let head = g.drop_last();
    lemma_lookup_concat(flat(head), g.last(), key);
    if b < head.len() {
        assert forall|m: int| 0 <= m < g.last().len() implies (#[trigger] g.last()[m]).0 != key by {
            assert(g[g.len() - 1][m] == g.last()[m]);
        }
        lemma_lookup_absent(g.last(), key);
        assert forall|j: int, m: int|
            0 <= j < head.len() && j != b && 0 <= m < head[j].len() implies (
        #[trigger] head[j][m]).0 != key by {
            assert(g[j][m] == head[j][m]);
        }
        lemma_lookup_flat(head, key, b);
    } else {
        assert forall|i: int| 0 <= i < flat(head).len() implies (#[trigger] flat(head)[i]).0 != key by {
            let (j, m) = lemma_flat_at(head, i);
            assert(g[j][m] == flat(head)[i]);
        }
        lemma_lookup_absent(flat(head), key);
    }
}

proof fn lemma_flat_at(g: Seq<Seq<(u128, EntryView)>>, i: int) -> (r: (int, int))
    requires
        0 <= i < flat(g).len(),
    ensures
        0 <= r.0 < g.len(),
        0 <= r.1 < g[r.0].len(),
        flat(g)[i] == g[r.0][r.1],
    decreases g.len(),
{
    let head = g.drop_last();
    if i < flat(head).len() {
        lemma_flat_at(head, i)
    } else {
        (g.len() - 1, i - flat(head).len())
    }
}

proof fn lemma_blocks_before(index: Seq<BlockMeta>, key: u128, lo: int, hi: int)
    requires
        0 <= lo <= hi <= index.len(),
        forall|i: int, j: int|
            0 <= i < j < index.len() ==> (#[trigger] index[i]).first_key.0 < (
            #[trigger] index[j]).first_key.0,
        forall|i: int| 0 <= i < lo ==> (#[trigger] index[i]).first_key.0 <= key,
        forall|i: int| hi <= i < index.len() ==> (#[trigger] index[i]).first_key.0 > key,
    ensures
        lo <= blocks_before(index, key, lo, hi) <= hi,
        forall|i: int|
            0 <= i < blocks_before(index, key, lo, hi) ==> (#[trigger] index[i]).first_key.0 <= key,
        forall|i: int|
            blocks_before(index, key, lo, hi) <= i < index.len() ==> (
            #[trigger] index[i]).first_key.0 > key,
    decreases hi - lo,
{
    if lo < hi {
        let mid = lo + (hi - lo) / 2;
        if index[mid].first_key.0 <= key {
            lemma_blocks_before(index, key, mid + 1, hi);
        } else {
            lemma_blocks_before(index, key, lo, mid);
        }
    }
}

/// Lookups in a table that was built of ascending entries find each entry under its key and
/// nothing under any other key.
pub proof fn law_built_table_finds(
    path: Seq<char>,
    id: u64,
    level: u32,
    s: Seq<(u128, EntryView)>,
    target: nat,
    empty_bloom: BloomView,
    bloom: BloomView,
    key: u128,
)
    requires
        s.len() > 0,
        ascending(s),
        lengths_fit(s, target, bloom),
        empty_bloom.bytes.len() > 0,
        all_inserted(empty_bloom, s, bloom),
    ensures
        table_find(
            built_view(path, id, level, s, target, bloom),
            file_of(file_bytes(s, target, bloom)),
            key,
        ) == Ok::<Option<EntryView>, ErrorView>(lookup(s, key)),
{
    let g = groups(s, target);
    let t = built_view(path, id, level, s, target, bloom);
    let image = file_bytes(s, target, bloom);
    let rest = index_bytes(metas(g)) + bloom_filter::encoded(bloom) + footer_bytes(
        table_footer(s, g, bloom),
    );
    assert(image =~= data_bytes(g) + rest);
    lemma_groups(s, target);
    lemma_metas_len(g);
    lemma_flat_groups(s, target);
    lemma_groups_ascend(g);
    if key < t.min_key || key > t.max_key || !bloom_filter::finds(bloom, key) {
        assert forall|i: int| 0 <= i < s.len() implies (#[trigger] s[i]).0 != key by {
            if s[i].0 == key {
                assert(i > 0 ==> s[0].0 < s[i].0);
                assert(i < s.len() - 1 ==> s[i].0 < s[s.len() - 1].0);
                lemma_inserted_key_found(empty_bloom, s, bloom, i);
            }
        }
        lemma_lookup_absent(s, key);
    } else {
        let index = metas(g);
        assert forall|i: int| 0 <= i < g.len() implies (#[trigger] index[i]).first_key.0
            == g[i][0].0 by {
            lemma_block_place(g, rest, i);
        }
        assert forall|i: int, j: int| 0 <= i < j < index.len() implies (
        #[trigger] index[i]).first_key.0 < (#[trigger] index[j]).first_key.0 by {
            assert(g[i].len() > 0 && g[j].len() > 0);
            assert(g[i][0].0 < g[j][0].0);
        }
        lemma_blocks_before(index, key, 0, index.len() as int);
        let b = block_for(index, key);
        lemma_first_of_flat(g);
        assert(index[0].first_key.0 == s[0].0);
        assert forall|j: int, m: int|
            0 <= j < g.len() && j != b && 0 <= m < g[j].len() implies (#[trigger] g[j][m]).0
            != key by {
            assert(g[b].len() > 0 && g[j].len() > 0);
            assert(index[b].first_key.0 <= key);
            if j < b {
                assert(g[j][m].0 < g[b][0].0);
            } else {
                assert(index[j].first_key.0 > key);
                assert(ascending(g[j]));
                assert(m > 0 ==> g[j][0].0 < g[j][m].0);
            }
        }
        lemma_lookup_flat(g, key, b);
        lemma_block_place(g, rest, b);
        lemma_block_find(g[b], key);
    }
}

proof fn lemma_first_of_flat(g: Seq<Seq<(u128, EntryView)>>)
    requires
        g.len() > 0,
        forall|i: int| 0 <= i < g.len() ==> (#[trigger] g[i]).len() > 0,
    ensures
        flat(g).len() > 0,
        flat(g)[0] == g[0][0],
    decreases g.len(),
{
    let head = g.drop_last();
    assert(g[g.len() - 1].len() > 0);
    if head.len() > 0 {
        assert forall|i: int| 0 <= i < head.len() implies (#[trigger] head[i]).len() > 0 by {
            assert(head[i] == g[i]);
        }
        lemma_first_of_flat(head);
        assert(head[0] == g[0]);
    } else {
        assert(flat(head) =~= Seq::empty());
    }
}

proof fn lemma_inserted_key_found(
    empty_bloom: BloomView,
    s: Seq<(u128, EntryView)>,
    bloom: BloomView,
    i: int,
)
    requires
        0 <= i < s.len(),
        empty_bloom.bytes.len() > 0,
        all_inserted(empty_bloom, s, bloom),
    ensures
        bloom_filter::finds(bloom, s[i].0),
{
    let key = s[i].0;
    let n = empty_bloom.num_hashes as u64;
    let total = empty_bloom.bytes.len() * 8;
    assert forall|k: u64| k < bloom.num_hashes implies bloom_filter::bit(
        bloom.bytes,
        #[trigger] bloom_filter::probe(key, k, total),
    ) by {
        let b = bloom_filter::probe(key, k, total);
        assert(0 <= b < total);
        assert(bloom_filter::probed(key, n, total, b));
        assert(bloom_filter::probed(s[i].0, n, total, b));
    }
}

} // verus!
