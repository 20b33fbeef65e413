//! The write-ahead log: its records, how batches of them are committed, how a log is replayed.
use bytes::{Bytes, BytesMut};
use vstd::prelude::*;

use crate::text;
use crate::types::{DbError, EntryView, ErrorView, OpType, PlayerId, Result, ValueEntry};
use crate::types;
use crate::wire;

verus! {

/// Bytes before a record's payload: its checksum and its length.
pub const HEADER_SIZE: usize = 8;

/// Bytes of a payload before the value: sequence number, timestamp, operation, key.
pub const RECORD_FIXED_SIZE: usize = 33;

/// The most requests that one group commit takes.
pub const MAX_GROUP: usize = 8192;

/// How often a writer that does not sync every batch syncs in the background, in milliseconds.
pub const BACKGROUND_SYNC_MS: u64 = 500;

/// The CRC-32 checksum of some bytes.
pub uninterp spec fn crc32(data: Seq<u8>) -> u32;

/// `crc32fast::hash` is determined by the bytes.
pub assume_specification [crc32fast::hash] (buf: &[u8]) -> (r: u32)
    ensures
        r == crc32(buf@),
;

/// One operation of the log.
#[derive(Debug, PartialEq, Eq)]
pub struct WalRecord {
    pub seq_num: u64,
    pub timestamp: u64,
    pub op_type: OpType,
    pub key: PlayerId,
    pub value: Option<Bytes>,
}

/// An operation with its value as a sequence of bytes.
pub struct RecordView {
    pub seq_num: u64,
    pub timestamp: u64,
    pub op_type: OpType,
    pub key: u128,
    pub value: Option<Seq<u8>>,
}

impl View for WalRecord {
    type V = RecordView;

    open spec fn view(&self) -> RecordView {
        RecordView {
            seq_num: self.seq_num,
            timestamp: self.timestamp,
            op_type: self.op_type,
            key: self.key.0,
            value: types::value_view(self.value),
        }
    }
}

/// The operations of a list, by views.
pub open spec fn records_view(s: Seq<WalRecord>) -> Seq<RecordView> {
    s.map_values(|r: WalRecord| r@)
}

/// The operations of a group of requests, in order.
pub open spec fn group_view(s: Seq<Vec<WalRecord>>) -> Seq<RecordView>
    decreases s.len(),
{
    if s.len() == 0 {
        Seq::empty()
    } else {
        group_view(s.drop_last()) + records_view(s.last()@)
    }
}

/// The byte that marks an operation.
pub open spec fn op_byte(op: OpType) -> u8 {
    match op {
        OpType::Put => 1,
        OpType::Delete => 2,
    }
}

/// The bytes of an optional value; none for no value.
pub open spec fn value_bytes(v: Option<Seq<u8>>) -> Seq<u8> {
    match v {
        Some(b) => b,
        None => Seq::empty(),
    }
}

/// The payload of a record: sequence number, timestamp, operation, key, value.
pub open spec fn payload_bytes(r: RecordView) -> Seq<u8> {
    wire::be_bytes(r.seq_num as nat, 8) + wire::be_bytes(r.timestamp as nat, 8) + wire::be_bytes(
        op_byte(r.op_type) as nat,
        1,
    ) + wire::be_bytes(r.key as nat, 16) + value_bytes(r.value)
}

/// A record of the log: checksum and length of the payload, then the payload.
pub open spec fn record_bytes(r: RecordView) -> Seq<u8> {
    let payload = payload_bytes(r);
    wire::be_bytes(crc32(payload) as nat, 4) + wire::be_bytes(
        wire::low32(RECORD_FIXED_SIZE as nat + value_bytes(r.value).len()) as nat,
        4,
    ) + payload
}

/// The bytes of a log that holds some records.
pub open spec fn log_bytes(s: Seq<RecordView>) -> Seq<u8>
    decreases s.len(),
{
    if s.len() == 0 {
        Seq::empty()
    } else {
        log_bytes(s.drop_last()) + record_bytes(s.last())
    }
}

/// The length of a log that holds some records.
pub open spec fn log_len(s: Seq<RecordView>) -> nat
    decreases s.len(),
{
    if s.len() == 0 {
        0
    } else {
        log_len(s.drop_last()) + HEADER_SIZE as nat + RECORD_FIXED_SIZE as nat + value_bytes(
            s.last().value,
        ).len()
    }
}

/// The bytes of a log are as many as its length says.
pub proof fn law_log_has_its_length(s: Seq<RecordView>)
    ensures
        log_bytes(s).len() == log_len(s),
    decreases s.len(),
{
    if s.len() > 0 {
        law_log_has_its_length(s.drop_last());
        lemma_payload_len(s.last());
    }
}

// ---------------------------------------------------------------------------------------------
// Writing
// ---------------------------------------------------------------------------------------------
/// Appends one record.
fn append_record(out: &mut BytesMut, record: &WalRecord)
    requires
        wire::buffer_view(*old(out)).len() + record_bytes(record@).len() <= wire::MAX_BUFFER,
    ensures
        wire::buffer_view(*final(out)) == wire::buffer_view(*old(out)) + record_bytes(record@),
{
    let ghost start = wire::buffer_view(*out);
    let ghost r = record@;
    proof {
        lemma_payload_len(r);
        wire::lemma_be_bytes_len(crc32(payload_bytes(r)) as nat, 4);
        wire::lemma_be_bytes_len(
            wire::low32(RECORD_FIXED_SIZE as nat + value_bytes(r.value).len()) as nat,
            4,
        );
        lemma_payload_parts(r);
    }
    let val_len: usize = match &record.value {
        Some(v) => v.len(),
        None => 0,
    };
    let payload_len: u32 = wire::low_32(RECORD_FIXED_SIZE + val_len);
    let mut payload = BytesMut::with_capacity(payload_len as usize);
    wire::put_u64(&mut payload, record.seq_num);
    wire::put_u64(&mut payload, record.timestamp);
    wire::put_u8(
        &mut payload,
        match record.op_type {
            OpType::Put => 1,
            OpType::Delete => 2,
        },
    );
    wire::put_slice(&mut payload, &record.key.to_bytes());
    if let Some(v) = &record.value {
        wire::put_slice(&mut payload, v);
    }
    assert(wire::buffer_view(payload) =~= payload_bytes(r));
    let crc: u32 = crc32fast::hash(&payload);
    wire::put_u32(out, crc);
    wire::put_u32(out, payload_len);
    wire::put_slice(out, &payload);
    assert(wire::buffer_view(*out) =~= start + record_bytes(r));
}

proof fn lemma_payload_parts(r: RecordView)
    ensures
        wire::be_bytes(r.seq_num as nat, 8).len() == 8,
        wire::be_bytes(r.timestamp as nat, 8).len() == 8,
        wire::be_bytes(op_byte(r.op_type) as nat, 1).len() == 1,
        wire::be_bytes(r.key as nat, 16).len() == 16,
{
    wire::lemma_be_ints(op_byte(r.op_type), 0, r.seq_num, r.key);
    wire::lemma_be_ints(0, 0, r.timestamp, 0);
}

pub proof fn lemma_payload_len(r: RecordView)
    ensures
        payload_bytes(r).len() == RECORD_FIXED_SIZE + value_bytes(r.value).len(),
        record_bytes(r).len() == HEADER_SIZE + RECORD_FIXED_SIZE + value_bytes(r.value).len(),
{
    lemma_payload_parts(r);
    wire::lemma_be_ints(
        0,
        wire::low32(RECORD_FIXED_SIZE as nat + value_bytes(r.value).len()),
        0,
        0,
    );
    wire::lemma_be_ints(0, crc32(payload_bytes(r)), 0, 0);
}

proof fn lemma_len_grows(a: Seq<RecordView>, b: Seq<RecordView>)
    ensures
        log_len(a) <= log_len(a + b),
    decreases b.len(),
{
    if b.len() == 0 {
        assert(a + b =~= a);
    } else {
        lemma_len_grows(a, b.drop_last());
        assert((a + b).drop_last() =~= a + b.drop_last());
    }
}

proof fn lemma_group_step(s: Seq<Vec<WalRecord>>, i: int)
    requires
        0 <= i < s.len(),
    ensures
        group_view(s.take(i + 1)) == group_view(s.take(i)) + records_view(s[i]@),
{
    assert(s.take(i + 1).drop_last() =~= s.take(i));
    assert(s.take(i + 1).last() == s[i]);
}

proof fn lemma_group_len_grows(s: Seq<Vec<WalRecord>>, n: int)
    requires
        0 <= n <= s.len(),
    ensures
        log_len(group_view(s.take(n))) <= log_len(group_view(s)),
    decreases s.len() - n,
{
    if n < s.len() {
        lemma_group_len_grows(s, n + 1);
        lemma_group_step(s, n);
        lemma_len_grows(group_view(s.take(n)), records_view(s[n]@));
    } else {
        assert(s.take(n) =~= s);
    }
}

proof fn lemma_log_len(s: Seq<RecordView>, n: int)
    requires
        0 <= n <= s.len(),
    ensures
        log_bytes(s.take(n)).len() <= log_bytes(s).len(),
    decreases s.len(),
{
    if n == s.len() {
        assert(s.take(n) =~= s);
    } else {
        lemma_log_len(s.drop_last(), n);
        assert(s.drop_last().take(n) =~= s.take(n));
    }
}

/// Appends the records of one request.
fn append_records(out: &mut BytesMut, records: &Vec<WalRecord>)
    requires
        wire::buffer_view(*old(out)).len() + log_bytes(records_view(records@)).len()
            <= wire::MAX_BUFFER,
    ensures
        wire::buffer_view(*final(out)) == wire::buffer_view(*old(out)) + log_bytes(
            records_view(records@),
        ),
{
    let ghost start = wire::buffer_view(*out);
    let ghost rs = records_view(records@);
    let mut i: usize = 0;
    assert(rs.take(0) =~= Seq::<RecordView>::empty());
    assert(start + log_bytes(rs.take(0)) =~= start);
    while i < records.len()
        invariant
            i <= records@.len(),
            rs == records_view(records@),
            start.len() + log_bytes(rs).len() <= wire::MAX_BUFFER,
            wire::buffer_view(*out) == start + log_bytes(rs.take(i as int)),
        decreases records@.len() - i,
    {
        proof {
            let next = rs.take(i + 1);
            lemma_log_len(rs, i + 1);
            assert(next.drop_last() =~= rs.take(i as int));
            assert(next.last() == records@[i as int]@);
            assert(start + log_bytes(next) =~= start + log_bytes(rs.take(i as int)) + record_bytes(
                next.last(),
            ));
        }
        append_record(out, &records[i]);
        i = i + 1;
    }
    assert(rs.take(i as int) =~= rs);
}

proof fn lemma_log_concat(a: Seq<RecordView>, b: Seq<RecordView>)
    ensures
        log_bytes(a + b) == log_bytes(a) + log_bytes(b),
    decreases b.len(),
{
    if b.len() == 0 {
        assert(a + b =~= a);
        assert(log_bytes(a) + log_bytes(b) =~= log_bytes(a));
    } else {
        lemma_log_concat(a, b.drop_last());
        assert((a + b).drop_last() =~= a + b.drop_last());
        assert((a + b).last() == b.last());
        assert(log_bytes(a + b) =~= log_bytes(a) + log_bytes(b));
    }
}

proof fn lemma_group_len(s: Seq<Vec<WalRecord>>, n: int)
    requires
        0 <= n <= s.len(),
    ensures
        log_bytes(group_view(s.take(n))).len() <= log_bytes(group_view(s)).len(),
    decreases s.len(),
{
    if n == s.len() {
        assert(s.take(n) =~= s);
    } else {
        lemma_group_len(s.drop_last(), n);
        assert(s.drop_last().take(n) =~= s.take(n));
        lemma_log_concat(group_view(s.drop_last()), records_view(s.last()@));
    }
}

// ---------------------------------------------------------------------------------------------
// The writer
// ---------------------------------------------------------------------------------------------
/// The sequence number `n` places after one; the numbers wrap around.
pub open spec fn seq_after(first: u64, n: int) -> u64 {
    ((first + n) % 0x1_0000_0000_0000_0000) as u64
}

/// How the log is committed.
#[derive(Clone, Debug, Copy, PartialEq, Eq, Structural)]
pub struct WalConfig {
    /// For how long a commit gathers concurrent requests, in microseconds.
    pub commit_delay_us: u64,
    /// Hand batches to the kernel and sync in the background, in place of syncing each batch.
    pub async_fsync: bool,
}

impl Default for WalConfig {
    fn default() -> (r: Self)
        ensures
            r.commit_delay_us == 1000,
            !r.async_fsync,
    {
        WalConfig { commit_delay_us: 1000, async_fsync: false }
    }
}

/// What is done with the file once a batch has been written to its buffer.
#[derive(Clone, Debug, Copy, PartialEq, Eq, Structural)]
pub enum SyncStep {
    /// Flush the buffer to the kernel.
    Flush,
    /// Flush the buffer to the kernel, then sync the file and ignore how that ends.
    FlushThenBackgroundSync,
    /// Flush the buffer and sync the file: both have to succeed.
    FlushAndSync,
}

/// What the log's writer decides: sequence numbers, batches, syncs.
pub struct WalWriter {
    next_seq_num: u64,
    closed: bool,
    config: WalConfig,
}

impl WalWriter {
    pub closed spec fn spec_next_seq(&self) -> u64 {
        self.next_seq_num
    }

    pub closed spec fn spec_closed(&self) -> bool {
        self.closed
    }

    pub closed spec fn spec_config(&self) -> WalConfig {
        self.config
    }

    /// A writer whose first record gets `start_seq_num`.
    pub fn open(start_seq_num: u64, config: WalConfig) -> (r: Self)
        ensures
            r.spec_next_seq() == start_seq_num,
            !r.spec_closed(),
            r.spec_config() == config,
    {
        WalWriter { next_seq_num: start_seq_num, closed: false, config }
    }

    /// Numbers the operations of a request and stamps them with the time. Returns the first number,
    /// the timestamp and the records; of an empty request, the next number, 0 and none.
    pub fn append_batch(
        &mut self,
        records: Vec<(PlayerId, Option<Bytes>, OpType)>,
        now_ms: u64,
    ) -> (r: (u64, u64, Vec<WalRecord>))
        ensures
            final(self).spec_next_seq() == seq_after(
                old(self).spec_next_seq(),
                records@.len() as int,
            ),
            final(self).spec_closed() == old(self).spec_closed(),
            final(self).spec_config() == old(self).spec_config(),
            r.0 == old(self).spec_next_seq(),
            r.1 == (if records@.len() == 0 { 0 } else { now_ms }),
            r.2@.len() == records@.len(),
            forall|i: int|
                0 <= i < records@.len() ==> (#[trigger] r.2@[i])@ == (RecordView {
                    seq_num: seq_after(old(self).spec_next_seq(), i),
                    timestamp: now_ms,
                    op_type: records@[i].2,
                    key: records@[i].0.0,
                    value: types::value_view(records@[i].1),
                }),
    {
        let start_seq: u64 = self.next_seq_num;
        let count: usize = records.len();
        let mut out: Vec<WalRecord> = Vec::new();
        if count == 0 {
            return (start_seq, 0, out);
        }
        self.next_seq_num = start_seq.wrapping_add(count as u64);
        let mut i: usize = 0;
        while i < count
            invariant
                i <= count,
                count == records@.len(),
                out@.len() == i,
                forall|j: int|
                    0 <= j < i ==> (#[trigger] out@[j])@ == (RecordView {
                        seq_num: seq_after(start_seq, j),
                        timestamp: now_ms,
                        op_type: records@[j].2,
                        key: records@[j].0.0,
                        value: types::value_view(records@[j].1),
                    }),
            decreases count - i,
        {
            let value = match &records[i].1 {
                Some(b) => Some(b.clone()),
                None => None,
            };
            out.push(
                WalRecord {
                    seq_num: start_seq.wrapping_add(i as u64),
                    timestamp: now_ms,
                    op_type: records[i].2,
                    key: records[i].0,
                    value,
                },
            );
            i = i + 1;
        }
        (start_seq, now_ms, out)
    }

    /// Whether a commit that has waited for `waited_us` and holds `gathered` requests takes more.
    pub fn gathers(&self, waited_us: u64, gathered: usize) -> (r: bool)
        ensures
            r == (waited_us < self.spec_config().commit_delay_us && gathered < MAX_GROUP),
    {
        waited_us < self.config.commit_delay_us && gathered < MAX_GROUP
    }

    /// Whether the bytes of a group of requests fit into one buffer.
    pub fn group_fits(requests: &Vec<Vec<WalRecord>>) -> (r: bool)
        ensures
            r == (log_len(group_view(requests@)) <= wire::MAX_BUFFER),
    {
        let mut room: usize = wire::MAX_BUFFER;
        let mut i: usize = 0;
        assert(requests@.take(0) =~= Seq::<Vec<WalRecord>>::empty());
        while i < requests.len()
            invariant
                i <= requests@.len(),
                room <= wire::MAX_BUFFER,
                room == wire::MAX_BUFFER - log_len(group_view(requests@.take(i as int))),
            decreases requests@.len() - i,
        {
            let batch = &requests[i];
            let ghost before = group_view(requests@.take(i as int));
            let ghost rs = records_view(batch@);
            let mut k: usize = 0;
            assert(before + rs.take(0) =~= before);
            while k < batch.len()
                invariant
                    i < requests@.len(),
                    batch@ == requests@[i as int]@,
                    k <= batch@.len(),
                    rs == records_view(batch@),
                    before == group_view(requests@.take(i as int)),
                    room <= wire::MAX_BUFFER,
                    room == wire::MAX_BUFFER - log_len(before + rs.take(k as int)),
                decreases batch@.len() - k,
            {
                let val_len: usize = match &batch[k].value {
                    Some(v) => v.len(),
                    None => 0,
                };
                proof {
                    let next = before + rs.take(k + 1);
                    assert(next.drop_last() =~= before + rs.take(k as int));
                    assert(next.last() == rs[k as int]);
                    lemma_group_step(requests@, i as int);
                    assert(before + rs =~= next + rs.skip(k + 1));
                    lemma_len_grows(next, rs.skip(k + 1));
                    lemma_group_len_grows(requests@, i + 1);
                }
                if room < HEADER_SIZE + RECORD_FIXED_SIZE || room - HEADER_SIZE - RECORD_FIXED_SIZE
                    < val_len {
                    return false;
                }
                room = room - HEADER_SIZE - RECORD_FIXED_SIZE - val_len;
                k = k + 1;
            }
            proof {
                assert(rs.take(k as int) =~= rs);
                lemma_group_step(requests@, i as int);
            }
            i = i + 1;
        }
        assert(requests@.take(i as int) =~= requests@);
        true
    }

    /// The bytes that commit a group of requests.
    pub fn group_bytes(requests: &Vec<Vec<WalRecord>>) -> (r: Bytes)
        requires
            log_len(group_view(requests@)) <= wire::MAX_BUFFER,
        ensures
            wire::bytes_view(r) == log_bytes(group_view(requests@)),
    {
        proof {
            law_log_has_its_length(group_view(requests@));
        }
        let mut out = BytesMut::new();
        let mut i: usize = 0;
        assert(requests@.take(0) =~= Seq::<Vec<WalRecord>>::empty());
        assert(wire::buffer_view(out) =~= log_bytes(group_view(requests@.take(0))));
        while i < requests.len()
            invariant
                i <= requests@.len(),
                log_bytes(group_view(requests@)).len() <= wire::MAX_BUFFER,
                wire::buffer_view(out) == log_bytes(group_view(requests@.take(i as int))),
            decreases requests@.len() - i,
        {
            proof {
                let next = requests@.take(i + 1);
                lemma_group_len(requests@, i + 1);
                assert(next.drop_last() =~= requests@.take(i as int));
                lemma_log_concat(group_view(next.drop_last()), records_view(next.last()@));
            }
            append_records(&mut out, &requests[i]);
            i = i + 1;
        }
        assert(requests@.take(i as int) =~= requests@);
        out.freeze()
    }

    /// What follows a batch that was written: each batch is synced, or, where the configuration
    /// leaves that to the background, handed to the kernel and synced now and then.
    pub fn sync_step(&self, since_sync_ms: u64) -> (r: SyncStep)
        ensures
            r == (if !self.spec_config().async_fsync {
                SyncStep::FlushAndSync
            } else if since_sync_ms >= BACKGROUND_SYNC_MS {
                SyncStep::FlushThenBackgroundSync
            } else {
                SyncStep::Flush
            }),
    {
        if !self.config.async_fsync {
            SyncStep::FlushAndSync
        } else if since_sync_ms >= BACKGROUND_SYNC_MS {
            SyncStep::FlushThenBackgroundSync
        } else {
            SyncStep::Flush
        }
    }

    /// What each request of a batch is told.
    pub fn outcome(written: bool) -> (r: Result<()>)
        ensures
            match r {
                Ok(_) => written,
                Err(e) => !written && e@ == ErrorView::WalCorruption("Failed to write to WAL"@),
            },
    {
        if written {
            Ok(())
        } else {
            Err(DbError::WalCorruption("Failed to write to WAL".to_owned()))
        }
    }

    pub fn next_seq(&self) -> (r: u64)
        ensures
            r == self.spec_next_seq(),
    {
        self.next_seq_num
    }

    /// Stops the writer: no further batch is taken.
    pub fn close(&mut self)
        ensures
            final(self).spec_closed(),
            final(self).spec_next_seq() == old(self).spec_next_seq(),
            final(self).spec_config() == old(self).spec_config(),
    {
        self.closed = true;
    }

    pub fn is_closed(&self) -> (r: bool)
        ensures
            r == self.spec_closed(),
    {
        self.closed
    }
}

// ---------------------------------------------------------------------------------------------
// Recovery
// ---------------------------------------------------------------------------------------------
/// What reports a read past the end of the data.
pub const SHORT_READ: &'static str = "failed to fill whole buffer";

/// The key and the entry of a payload; none where the operation is unknown.
pub open spec fn payload_entry(p: Seq<u8>) -> Option<(u128, EntryView)> {
    let seq_num = wire::be_value(p.subrange(0, 8)) as u64;
    let timestamp = wire::be_value(p.subrange(8, 16)) as u64;
    let op = wire::be_value(p.subrange(16, 17));
    let key = wire::be_value(p.subrange(17, 33)) as u128;
    if op == 1 {
        Some((key, EntryView { value: Some(p.skip(33)), seq_num, timestamp }))
    } else if op == 2 {
        Some((key, EntryView { value: None, seq_num, timestamp }))
    } else {
        None
    }
}

/// The text that reports a checksum that does not fit.
pub open spec fn crc_text(expected: u32, actual: u32) -> Seq<char> {
    "CRC mismatch at WAL record! Expected "@ + text::hex_text(expected as nat, 8) + ", got "@
        + text::hex_text(actual as nat, 8)
}

/// The entry of a payload whose checksum is `actual` and should be `expected`.
pub open spec fn checked_entry(
    payload: Seq<u8>,
    expected: u32,
    actual: u32,
) -> core::result::Result<(u128, EntryView), ErrorView> {
    if actual != expected {
        Err(ErrorView::WalCorruption(crc_text(expected, actual)))
    } else {
        match payload_entry(payload) {
            Some(entry) => Ok(entry),
            None => Err(ErrorView::WalCorruption("Unknown op_type in WAL"@)),
        }
    }
}

/// The entries of a log, in order. A log may end inside a record's header; any other damage is an
/// error.
pub open spec fn recovered(log: Seq<u8>) -> core::result::Result<Seq<(u128, EntryView)>, ErrorView>
    decreases log.len(),
{
    let expected = wire::be_value(log.take(4)) as u32;
    let len = wire::be_value(log.subrange(4, 8)) as int;
    let payload = log.subrange(8, 8 + len);
    if log.len() < 8 {
        Ok(Seq::empty())
    } else if len < 33 {
        Err(ErrorView::WalCorruption("Corrupt WAL payload length"@))
    } else if log.len() < 8 + len {
        Err(ErrorView::Io(SHORT_READ@))
    } else {
        match checked_entry(payload, expected, crc32(payload)) {
            Err(e) => Err(e),
            Ok(entry) => match recovered(log.skip(8 + len)) {
                Ok(rest) => Ok(seq![entry] + rest),
                Err(e) => Err(e),
            },
        }
    }
}

/// The highest sequence number of some entries; 0 of none.
pub open spec fn max_seq(s: Seq<(u128, EntryView)>) -> u64
    decreases s.len(),
{
    if s.len() == 0 {
        0
    } else if s.last().1.seq_num > max_seq(s.drop_last()) {
        s.last().1.seq_num
    } else {
        max_seq(s.drop_last())
    }
}

/// `head` before what recovery gives of the rest.
spec fn prepend(
    head: Seq<(u128, EntryView)>,
    rest: core::result::Result<Seq<(u128, EntryView)>, ErrorView>,
) -> core::result::Result<Seq<(u128, EntryView)>, ErrorView> {
    match rest {
        Ok(tail) => Ok(head + tail),
        Err(e) => Err(e),
    }
}

/// Replays a log.
pub struct WalRecovery;

impl WalRecovery {
    /// The entries of a log and the sequence number to go on with; of a log that does not exist,
    /// none and 1. The number after the largest one is 0.
    pub fn recover(log: Option<&[u8]>) -> (r: Result<(Vec<(PlayerId, ValueEntry)>, u64)>)
        ensures
            log is None ==> (r matches Ok(out) && out.0@.len() == 0 && out.1 == 1),
            log matches Some(data) ==> match r {
                Ok(out) => recovered(data@) == Ok::<Seq<(u128, EntryView)>, ErrorView>(
                    types::entries_view(out.0@),
                ) && out.1 == (max_seq(types::entries_view(out.0@)) + 1) % 0x1_0000_0000_0000_0000,
                Err(e) => recovered(data@) == Err::<Seq<(u128, EntryView)>, ErrorView>(e@),
            },
    {
        match log {
            None => Ok((Vec::new(), 1)),
            Some(data) => {
                let entries = match WalRecovery::replay(data) {
                    Ok(e) => e,
                    Err(e) => return Err(e),
                };
                let mut top: u64 = 0;
                let mut i: usize = 0;
                let ghost view = types::entries_view(entries@);
                while i < entries.len()
                    invariant
                        i <= entries@.len(),
                        view == types::entries_view(entries@),
                        top == max_seq(view.take(i as int)),
                    decreases entries@.len() - i,
                {
                    assert(view.take(i + 1).drop_last() =~= view.take(i as int));
                    if entries[i].1.seq_num > top {
                        top = entries[i].1.seq_num;
                    }
                    i = i + 1;
                }
                assert(view.take(i as int) =~= view);
                Ok((entries, top.wrapping_add(1)))
            },
        }
    }

    /// The entry of a payload whose checksum is `actual` and should be `expected`.
    pub fn read_record(payload: &[u8], expected: u32, actual: u32) -> (r: Result<
        (PlayerId, ValueEntry),
    >)
        requires
            payload@.len() >= RECORD_FIXED_SIZE,
        ensures
            match r {
                Ok(item) => checked_entry(payload@, expected, actual) == Ok::<
                    (u128, EntryView),
                    ErrorView,
                >((item.0.0, item.1@)),
                Err(e) => checked_entry(payload@, expected, actual) == Err::<
                    (u128, EntryView),
                    ErrorView,
                >(e@),
            },
    {
        if actual != expected {
            return Err(DbError::WalCorruption(crc_message(expected, actual)));
        }
        match decode_payload(payload) {
            Some(item) => Ok(item),
            None => Err(DbError::WalCorruption("Unknown op_type in WAL".to_owned())),
        }
    }

    /// The entries of a log.
    fn replay(data: &[u8]) -> (r: Result<Vec<(PlayerId, ValueEntry)>>)
        ensures
            match r {
                Ok(out) => recovered(data@) == Ok::<Seq<(u128, EntryView)>, ErrorView>(
                    types::entries_view(out@),
                ),
                Err(e) => recovered(data@) == Err::<Seq<(u128, EntryView)>, ErrorView>(e@),
            },
    {
        let mut entries: Vec<(PlayerId, ValueEntry)> = Vec::new();
        let mut rest: &[u8] = data;
        proof {
            assert(types::entries_view(entries@) =~= Seq::empty());
            if let Ok(tail) = recovered(data@) {
                assert(Seq::empty() + tail =~= tail);
            }
        }
        while rest.len() >= HEADER_SIZE
            invariant
                recovered(data@) == prepend(types::entries_view(entries@), recovered(rest@)),
            decreases rest@.len(),
        {
            let ghost log = rest@;
            let expected: u32 = wire::get_u32(&mut rest);
            let len: u32 = wire::get_u32(&mut rest);
            proof {
                assert(log.skip(4).take(4) =~= log.subrange(4, 8));
                assert(log.skip(4).skip(4) =~= log.skip(8));
            }
            if (len as usize) < RECORD_FIXED_SIZE {
                return Err(DbError::WalCorruption("Corrupt WAL payload length".to_owned()));
            }
            if rest.len() < len as usize {
                return Err(DbError::Io(SHORT_READ.to_owned()));
            }
            let payload = &rest[0..len as usize];
            assert(payload@ =~= log.subrange(8, 8 + len));
            let actual: u32 = crc32fast::hash(payload);
            let item = match WalRecovery::read_record(payload, expected, actual) {
                Ok(item) => item,
                Err(e) => return Err(e),
            };
            let ghost before = types::entries_view(entries@);
            entries.push(item);
            wire::advance(&mut rest, len as usize);
            proof {
                let item_view = payload_entry(payload@).unwrap();
                assert(types::entries_view(entries@) =~= before.push(item_view));
                assert(log.skip(8).skip(len as int) =~= log.skip(8 + len));
                if let Ok(tail) = recovered(rest@) {
                    assert(before + (seq![item_view] + tail) =~= before.push(item_view) + tail);
                }
            }
        }
        proof {
            assert(types::entries_view(entries@) + Seq::empty() =~= types::entries_view(entries@));
        }
        Ok(entries)
    }
}

fn crc_message(expected: u32, actual: u32) -> (r: String)
    ensures
        r@ == crc_text(expected, actual),
{
    let mut msg = "CRC mismatch at WAL record! Expected ".to_owned();
    let a = text::to_hex(expected as u64, 8);
    let b = text::to_hex(actual as u64, 8);
    text::push_text(&mut msg, a.as_str());
    text::push_text(&mut msg, ", got ");
    text::push_text(&mut msg, b.as_str());
    msg
}

fn decode_payload(payload: &[u8]) -> (r: Option<(PlayerId, ValueEntry)>)
    requires
        payload@.len() >= 33,
    ensures
        match r {
            Some(item) => payload_entry(payload@) == Some((item.0.0, item.1@)),
            None => payload_entry(payload@) is None,
        },
{
    let ghost p = payload@;
    let mut buf: &[u8] = payload;
    let seq_num: u64 = wire::get_u64(&mut buf);
    let timestamp: u64 = wire::get_u64(&mut buf);
    let op: u8 = wire::get_u8(&mut buf);
    let key = PlayerId::from_bytes(wire::get_16(&mut buf));
    proof {
        assert(p.take(8) =~= p.subrange(0, 8));
        assert(p.skip(8).take(8) =~= p.subrange(8, 16));
        assert(p.skip(8).skip(8).take(1) =~= p.subrange(16, 17));
        assert(p.skip(8).skip(8).skip(1).take(16) =~= p.subrange(17, 33));
        assert(p.skip(8).skip(8).skip(1).skip(16) =~= p.skip(33));
    }
    let value = if buf.len() > 0 {
        Some(Bytes::copy_from_slice(buf))
    } else {
        None
    };
    if op == 1 {
        let bytes = match value {
            Some(b) => b,
            None => Bytes::new(),
        };
        assert(wire::bytes_view(bytes) =~= p.skip(33));
        Some((key, ValueEntry::put(bytes, seq_num, timestamp)))
    } else if op == 2 {
        Some((key, ValueEntry::delete(seq_num, timestamp)))
    } else {
        None
    }
}

// ---------------------------------------------------------------------------------------------
// Laws
// ---------------------------------------------------------------------------------------------
/// The entry that a record stands for: a put holds the value, empty where none is given; a
/// deletion holds none.
pub open spec fn record_entry(r: RecordView) -> (u128, EntryView) {
    let value = match r.op_type {
        OpType::Put => Some(value_bytes(r.value)),
        OpType::Delete => None,
    };
    (r.key, EntryView { value, seq_num: r.seq_num, timestamp: r.timestamp })
}

proof fn lemma_payload_round_trip(r: RecordView)
    ensures
        payload_entry(payload_bytes(r)) == Some(record_entry(r)),
{
    let p = payload_bytes(r);
    lemma_payload_parts(r);
    wire::lemma_be_ints(op_byte(r.op_type), 0, r.seq_num, r.key);
    wire::lemma_be_ints(0, 0, r.timestamp, 0);
    assert(p.subrange(0, 8) =~= wire::be_bytes(r.seq_num as nat, 8));
    assert(p.subrange(8, 16) =~= wire::be_bytes(r.timestamp as nat, 8));
    assert(p.subrange(16, 17) =~= wire::be_bytes(op_byte(r.op_type) as nat, 1));
    assert(p.subrange(17, 33) =~= wire::be_bytes(r.key as nat, 16));
    assert(p.skip(33) =~= value_bytes(r.value));
}

/// Recovery of a record followed by more of the log.
proof fn lemma_recover_record(r: RecordView, rest: Seq<u8>)
    requires
        RECORD_FIXED_SIZE + value_bytes(r.value).len() < 0x1_0000_0000,
    ensures
        recovered(record_bytes(r) + rest) == prepend(seq![record_entry(r)], recovered(rest)),
{
    let log = record_bytes(r) + rest;
    let p = payload_bytes(r);
    let len = RECORD_FIXED_SIZE as nat + value_bytes(r.value).len();
    lemma_payload_len(r);
    lemma_payload_round_trip(r);
    wire::lemma_be_ints(0, crc32(p), 0, 0);
    wire::lemma_be_ints(0, wire::low32(len), 0, 0);
    assert(wire::low32(len) == len);
    assert(log.take(4) =~= wire::be_bytes(crc32(p) as nat, 4));
    assert(log.subrange(4, 8) =~= wire::be_bytes(wire::low32(len) as nat, 4));
    assert(log.subrange(8, (8 + len) as int) =~= p);
    assert(log.skip((8 + len) as int) =~= rest);
}

/// A log gives back what was written to it: recovery of the bytes of some records yields their
/// entries, in order. A payload of four gigabytes or more does not fit its length field.
pub proof fn law_recovery_gives_back_the_records(s: Seq<RecordView>)
    requires
        forall|i: int|
            0 <= i < s.len() ==> RECORD_FIXED_SIZE + value_bytes((#[trigger] s[i]).value).len()
                < 0x1_0000_0000,
    ensures
        recovered(log_bytes(s)) == Ok::<Seq<(u128, EntryView)>, ErrorView>(
            s.map_values(|r: RecordView| record_entry(r)),
        ),
{
    lemma_recover_log(s, Seq::empty());
    assert(log_bytes(s) + Seq::empty() =~= log_bytes(s));
    let all = s.map_values(|r: RecordView| record_entry(r));
    assert(all + Seq::empty() =~= all);
}

/// A log that stops inside the header of its last record still gives back the records before it.
pub proof fn law_recovery_ignores_a_torn_header(s: Seq<RecordView>, torn: Seq<u8>)
    requires
        torn.len() < HEADER_SIZE,
        forall|i: int|
            0 <= i < s.len() ==> RECORD_FIXED_SIZE + value_bytes((#[trigger] s[i]).value).len()
                < 0x1_0000_0000,
    ensures
        recovered(log_bytes(s) + torn) == Ok::<Seq<(u128, EntryView)>, ErrorView>(
            s.map_values(|r: RecordView| record_entry(r)),
        ),
{
    lemma_recover_log(s, torn);
    let all = s.map_values(|r: RecordView| record_entry(r));
    assert(all + Seq::empty() =~= all);
}

proof fn lemma_recover_log(s: Seq<RecordView>, rest: Seq<u8>)
    requires
        forall|i: int|
            0 <= i < s.len() ==> RECORD_FIXED_SIZE + value_bytes((#[trigger] s[i]).value).len()
                < 0x1_0000_0000,
    ensures
        recovered(log_bytes(s) + rest) == prepend(
            s.map_values(|r: RecordView| record_entry(r)),
            recovered(rest),
        ),
    decreases s.len(),
{
    let f = |r: RecordView| record_entry(r);
    if s.len() == 0 {
        assert(log_bytes(s) + rest =~= rest);
        if let Ok(tail) = recovered(rest) {
            assert(s.map_values(f) + tail =~= tail);
        }
    } else {
        let head = s.drop_last();
        let more = record_bytes(s.last()) + rest;
        lemma_recover_record(s.last(), rest);
        lemma_recover_log(head, more);
        assert(log_bytes(s) + rest =~= log_bytes(head) + more);
        if let Ok(tail) = recovered(rest) {
            assert(head.map_values(f) + (seq![record_entry(s.last())] + tail) =~= s.map_values(f)
                + tail);
        }
    }
}

/// A record of the log stands as 4 bytes of checksum, 4 of length, and a payload of sequence number,
/// timestamp, a byte that is 1 for a put and 2 for a deletion, key, and value; the checksum and the
/// length are those of the payload.
pub proof fn law_record_has_its_layout(r: RecordView)
    requires
        value_bytes(r.value).len() + 33 < 0x1_0000_0000,
    ensures
        ({
            let b = record_bytes(r);
            let payload = b.skip(8);
            &&& b.len() == 41 + value_bytes(r.value).len()
            &&& wire::be_value(b.subrange(0, 4)) == crc32(payload)
            &&& wire::be_value(b.subrange(4, 8)) == payload.len()
            &&& wire::be_value(b.subrange(8, 16)) == r.seq_num
            &&& wire::be_value(b.subrange(16, 24)) == r.timestamp
            &&& b[24] == if r.op_type == OpType::Put { 1u8 } else { 2u8 }
            &&& wire::be_value(b.subrange(25, 41)) == r.key
            &&& r.value matches Some(v) ==> b.skip(41) == v
            &&& r.value is None ==> b.len() == 41
        }),
{
    let b = record_bytes(r);
    let p = payload_bytes(r);
    let len = RECORD_FIXED_SIZE as nat + value_bytes(r.value).len();
    lemma_payload_len(r);
    lemma_payload_parts(r);
    wire::lemma_be_ints(op_byte(r.op_type), crc32(p), r.seq_num, r.key);
    wire::lemma_be_ints(0, wire::low32(len), r.timestamp, 0);
    assert(b.skip(8) =~= p);
    assert(b.subrange(0, 4) =~= wire::be_bytes(crc32(p) as nat, 4));
    assert(b.subrange(4, 8) =~= wire::be_bytes(wire::low32(len) as nat, 4));
    assert(b.subrange(8, 16) =~= wire::be_bytes(r.seq_num as nat, 8));
    assert(b.subrange(16, 24) =~= wire::be_bytes(r.timestamp as nat, 8));
    assert(b.subrange(25, 41) =~= wire::be_bytes(r.key as nat, 16));
    let op = wire::be_bytes(op_byte(r.op_type) as nat, 1);
    assert(b[24] == op[0]);
    assert(wire::be_value(op) == op[0]) by {
        reveal_with_fuel(wire::be_value, 2);
        assert(op.drop_last() =~= Seq::<u8>::empty());
    }
    assert(b.skip(41) =~= value_bytes(r.value));
}

/// Behind good records, damage is told: a length below that of an empty record, a checksum that is not
/// that of the payload, an operation that is none, and a payload that is cut off.
pub proof fn law_recovery_tells_damage(s: Seq<RecordView>, bad: Seq<u8>)
    requires
        forall|i: int|
            0 <= i < s.len() ==> RECORD_FIXED_SIZE + value_bytes((#[trigger] s[i]).value).len()
                < 0x1_0000_0000,
        bad.len() >= 8,
    ensures
        ({
            let len = wire::be_value(bad.subrange(4, 8)) as int;
            let payload = bad.subrange(8, 8 + len);
            let all = recovered(log_bytes(s) + bad);
            &&& len < 33 ==> (all matches Err(ErrorView::WalCorruption(_)))
            &&& len >= 33 && bad.len() < 8 + len ==> (all matches Err(ErrorView::Io(_)))
            &&& len >= 33 && bad.len() >= 8 + len && wire::be_value(bad.subrange(0, 4)) != crc32(
                payload,
            ) ==> (all matches Err(ErrorView::WalCorruption(_)))
            &&& len >= 33 && bad.len() >= 8 + len && payload[16] != 1 && payload[16] != 2
                ==> (all matches Err(ErrorView::WalCorruption(_)))
        }),
{
    let len = wire::be_value(bad.subrange(4, 8)) as int;
    let payload = bad.subrange(8, 8 + len);
    lemma_recover_log(s, bad);
    assert(bad.take(4) =~= bad.subrange(0, 4));
    wire::lemma_be_value_bound(bad.take(4));
    assert(wire::byte_pow(4) == 0x1_0000_0000) by {
        reveal_with_fuel(wire::byte_pow, 5);
    }
    if len >= 33 && bad.len() >= 8 + len {
        let op = payload.subrange(16, 17);
        assert(wire::be_value(op) == payload[16]) by {
            reveal_with_fuel(wire::be_value, 2);
            assert(op.drop_last() =~= Seq::<u8>::empty());
        }
    }
}

/// The highest sequence number of some entries is that of one of them, and none has a higher one.
pub proof fn law_highest_sequence_number(s: Seq<(u128, EntryView)>, i: int)
    requires
        0 <= i < s.len(),
    ensures
        s[i].1.seq_num <= max_seq(s),
        exists|j: int| 0 <= j < s.len() && (#[trigger] s[j]).1.seq_num == max_seq(s),
    decreases s.len(),
{
    let rest = s.drop_last();
    if i < rest.len() {
        law_highest_sequence_number(rest, i);
        assert(rest[i] == s[i]);
    }
    if s.last().1.seq_num >= max_seq(rest) {
        assert(s[s.len() - 1].1.seq_num == max_seq(s));
    } else {
        law_highest_sequence_number(rest, 0);
        let j = choose|j: int| 0 <= j < rest.len() && (#[trigger] rest[j]).1.seq_num == max_seq(rest);
        assert(s[j].1.seq_num == max_seq(s));
    }
}

} // verus!
