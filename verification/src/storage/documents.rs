//! The JSON documents that an engine holds: changing a field, and counting, deleting and measuring
//! those that meet a filter.
use bytes::Bytes;
use vstd::prelude::*;

use crate::index::json::{JsonValue, JsonView};
use crate::index::json;
use crate::index::query::{ExpressionView, QueryFilter};
use crate::index::query;
use crate::proto::reply;
use crate::storage::engine::{EngineView, OpView, StorageEngine};
use crate::storage::sstable::{FileView, Reads};
use crate::storage::wal::WalRecord;
use crate::storage::{engine, iterator, laws, sstable, wal};
use crate::types::{ErrorView, OpType, PlayerId, Result};
use crate::wire;

verus! {

/// The number of records that one query looks at.
pub const SCAN_LIMIT: usize = 1000000;

// ---------------------------------------------------------------------------------------------
// Changing a field
// ---------------------------------------------------------------------------------------------
/// The document under a key: an empty object where there is none.
pub open spec fn document_of(value: Option<Seq<u8>>) -> JsonView {
    match value {
        None => JsonView::Object(Map::empty()),
        Some(bytes) => match json::parsed_json(bytes) {
            Some(v) => v,
            None => JsonView::Object(Map::empty()),
        },
    }
}

/// A document whose field at a path has been set.
pub open spec fn updated_document(
    value: Option<Seq<u8>>,
    path: Seq<char>,
    raw: Seq<char>,
) -> JsonView {
    query::with_value(document_of(value), query::path_parts(path), query::raw_value(raw))
}

/// The bytes of a document whose field at a path has been set.
pub open spec fn updated_bytes(value: Option<Seq<u8>>, path: Seq<char>, raw: Seq<char>) -> Seq<u8> {
    vstd::utf8::encode_utf8(json::json_text(updated_document(value, path, raw)))
}

/// The bytes of a document whose field at a path has been set spell it, as long as its numbers are whole
/// and it is not nested too deep to be parsed.
pub open spec fn parses_back(value: Option<Seq<u8>>, path: Seq<char>, raw: Seq<char>) -> bool {
    json::whole(updated_document(value, path, raw), json::MAX_DEPTH as nat) ==> json::parsed_json(
        updated_bytes(value, path, raw),
    ) == Some(updated_document(value, path, raw))
}

/// The new document where reading the old one gave `got`: an error stays one.
pub open spec fn updates(
    got: core::result::Result<Option<Seq<u8>>, ErrorView>,
    path: Seq<char>,
    raw: Seq<char>,
    r: Result<Bytes>,
) -> bool {
    match got {
        Err(e) => r matches Err(err) && err@ == e,
        Ok(value) => parses_back(value, path, raw) && (r matches Ok(b) && wire::bytes_view(b)
            == updated_bytes(value, path, raw)),
    }
}

/// What setting a field leaves where reading the old document gave `got`: the new document under the
/// key, unless the old one could not be read.
pub open spec fn sets_field<W: FnOnce(&Vec<WalRecord>) -> Result<()>>(
    before: EngineView,
    got: core::result::Result<Option<Seq<u8>>, ErrorView>,
    key: u128,
    path: Seq<char>,
    raw: Seq<char>,
    now_ms: u64,
    write: W,
    after: EngineView,
    r: Result<Bytes>,
) -> bool {
    match got {
        Err(e) => after == before && (r matches Err(err) && err@ == e),
        Ok(value) => {
            let ops = engine::put_ops(key, updated_bytes(value, path, raw));
            &&& parses_back(value, path, raw)
            &&& r matches Ok(b) ==> wire::bytes_view(b) == updated_bytes(value, path, raw)
            &&& engine::logs_batch(before, ops, now_ms, write, after, engine::ended(r))
        },
    }
}

/// The document of some bytes with the field at a path set to what raw text spells.
pub fn set_field(value: Option<&[u8]>, path: &str, raw: &str) -> (r: Bytes)
    ensures
        wire::bytes_view(r) == updated_bytes(
            match value {
                Some(b) => Some(b@),
                None => None,
            },
            path@,
            raw@,
        ),
        parses_back(
            match value {
                Some(b) => Some(b@),
                None => None,
            },
            path@,
            raw@,
        ),
{
    let root = match value {
        Some(bytes) => match JsonValue::parse(bytes) {
            Some(v) => v,
            None => empty_object(),
        },
        None => empty_object(),
    };
    let new_val = QueryFilter::parse_json_value(raw);
    let updated = QueryFilter::set_json_path(root, path, new_val);
    let out = updated.to_text();
    Bytes::copy_from_slice(out.as_str().as_bytes())
}

fn empty_object() -> (r: JsonValue)
    ensures
        json::doc_ok(r),
        r@ == JsonView::Object(Map::empty()),
{
    let r = JsonValue::Object(Vec::new());
    assert(r@->Object_0 =~= Map::empty());
    r
}

// ---------------------------------------------------------------------------------------------
// Records that meet a filter
// ---------------------------------------------------------------------------------------------
/// The records that meet a filter; all where there is none.
pub open spec fn matching(
    s: Seq<(u128, Seq<u8>)>,
    filter: Option<ExpressionView>,
    near: spec_fn(u64, u64) -> Option<bool>,
) -> Seq<(u128, Seq<u8>)>
    decreases s.len(),
{
    if s.len() == 0 {
        Seq::empty()
    } else {
        let rest = matching(s.drop_last(), filter, near);
        match filter {
            Some(f) => if query::bytes_meet(f, s.last().1, near) {
                rest.push(s.last())
            } else {
                rest
            },
            None => rest.push(s.last()),
        }
    }
}

/// The operations that delete some records.
pub open spec fn deletions(s: Seq<(u128, Seq<u8>)>) -> Seq<OpView> {
    s.map_values(|e: (u128, Seq<u8>)| OpView { key: e.0, value: None, op: OpType::Delete })
}

/// The numbers at a path in the documents that meet a filter.
pub open spec fn numbers_in(
    s: Seq<(u128, Seq<u8>)>,
    field: Seq<char>,
    filter: Option<ExpressionView>,
    near: spec_fn(u64, u64) -> Option<bool>,
) -> Seq<u64>
    decreases s.len(),
{
    if s.len() == 0 {
        Seq::empty()
    } else {
        let rest = numbers_in(s.drop_last(), field, filter, near);
        match number_in(s.last().1, field, filter, near) {
            Some(bits) => rest.push(bits),
            None => rest,
        }
    }
}

/// The number at a path in a document, where it meets a filter and has one there.
pub open spec fn number_in(
    bytes: Seq<u8>,
    field: Seq<char>,
    filter: Option<ExpressionView>,
    near: spec_fn(u64, u64) -> Option<bool>,
) -> Option<u64> {
    match json::parsed_json(bytes) {
        None => None,
        Some(v) => if filter matches Some(f) && !query::meets(f, v, near) {
            None
        } else {
            query::number_at(v, field)
        },
    }
}

/// A filter, where there is one.
pub open spec fn filter_view(f: Option<&QueryFilter>) -> Option<ExpressionView> {
    match f {
        Some(q) => Some(q@),
        None => None,
    }
}

/// All records of an engine, as far as one query looks.
pub open spec fn all_records(v: EngineView, files: spec_fn(u64) -> FileView, now_secs: u64) -> core::result::Result<
    Seq<(u128, Seq<u8>)>,
    ErrorView,
> {
    engine::scan_of(v, files, None, None, SCAN_LIMIT as nat, now_secs)
}

/// What reading all records of an engine, as far as one query looks, may give.
pub open spec fn records_give(
    can: Reads,
    v: EngineView,
    now_secs: u64,
    r: core::result::Result<Seq<(u128, Seq<u8>)>, ErrorView>,
) -> bool {
    engine::scan_gives(can, v, None, None, SCAN_LIMIT as nat, now_secs, r)
}

/// The least of some doubles, NaN aside; infinity where there is none.
pub open spec fn least(s: Seq<u64>) -> u64
    decreases s.len(),
{
    if s.len() == 0 {
        0x7ff0_0000_0000_0000
    } else if json::float_less(s.last(), least(s.drop_last())) {
        s.last()
    } else {
        least(s.drop_last())
    }
}

/// The greatest of some doubles, NaN aside; negative infinity where there is none.
pub open spec fn greatest(s: Seq<u64>) -> u64
    decreases s.len(),
{
    if s.len() == 0 {
        0xfff0_0000_0000_0000
    } else if json::float_less(greatest(s.drop_last()), s.last()) {
        s.last()
    } else {
        greatest(s.drop_last())
    }
}

impl StorageEngine {
    /// The document under a key with the field at a path set to what raw text spells.
    pub fn json_updated<R: Fn(u64, u64, u64) -> Result<Vec<u8>>>(
        &self,
        key: &PlayerId,
        path: &str,
        raw: &str,
        now_secs: u64,
        read: &R,
    ) -> (r: Result<Bytes>)
        requires
            self.wf(),
            sstable::can_read(*read),
        ensures
            exists|got: core::result::Result<Option<Seq<u8>>, ErrorView>| #[trigger]
                engine::value_gives(sstable::outcomes(*read), self@, key.0, now_secs, got)
                    && updates(got, path@, raw@, r),
    {
        let got = self.get(key, now_secs, read);
        assert(engine::value_gives(
            sstable::outcomes(*read),
            self@,
            key.0,
            now_secs,
            engine::read_view(got),
        ));
        match got {
            Err(e) => Err(e),
            Ok(None) => Ok(set_field(None, path, raw)),
            Ok(Some(b)) => Ok(set_field(Some(&*b), path, raw)),
        }
    }

    /// Sets one field of the document under a key. Gives the document after that.
    pub fn json_set<
        R: Fn(u64, u64, u64) -> Result<Vec<u8>>,
        W: FnOnce(&Vec<WalRecord>) -> Result<()>,
    >(&mut self, key: PlayerId, path: &str, raw: &str, now_ms: u64, read: &R, write: W) -> (r:
        Result<Bytes>)
        requires
            old(self).wf(),
            sstable::can_read(*read),
            forall|records: &Vec<WalRecord>| #[trigger] call_requires(write, (records,)),
        ensures
            final(self).wf(),
            final(self).spec_config() == old(self).spec_config(),
            final(self).spec_compression() == old(self).spec_compression(),
            exists|got: core::result::Result<Option<Seq<u8>>, ErrorView>| #[trigger]
                engine::value_gives(
                    sstable::outcomes(*read),
                    old(self)@,
                    key.0,
                    now_ms / 1000,
                    got,
                ) && sets_field(
                    old(self)@,
                    got,
                    key.0,
                    path@,
                    raw@,
                    now_ms,
                    write,
                    final(self)@,
                    r,
                ),
    {
        let made = self.json_updated(&key, path, raw, now_ms / 1000, read);
        let ghost got = choose|got: core::result::Result<Option<Seq<u8>>, ErrorView>| #[trigger]
            engine::value_gives(
                sstable::outcomes(*read),
                self@,
                key.0,
                now_ms / 1000,
                got,
            ) && updates(got, path@, raw@, made);
        let updated = match made {
            Err(e) => {
                return Err(e);
            },
            Ok(b) => b,
        };
        let copy = updated.clone();
        let r = match self.put(key, copy, now_ms, write) {
            Err(e) => Err(e),
            Ok(_) => Ok(updated),
        };
        assert(sets_field(old(self)@, got, key.0, path@, raw@, now_ms, write, self@, r));
        r
    }

    /// The operations that delete the records that meet a filter.
    pub fn deletions_where<
        R: Fn(u64, u64, u64) -> Result<Vec<u8>>,
        N: Fn(u64, u64) -> Option<bool>,
    >(&self, filter: &QueryFilter, now_secs: u64, near: &N, read: &R) -> (r: Result<
        Vec<(PlayerId, Option<Bytes>, OpType)>,
    >)
        requires
            sstable::can_read(*read),
            query::can_compare(*near),
        ensures
            exists|got: core::result::Result<Seq<(u128, Seq<u8>)>, ErrorView>| #[trigger]
                records_give(sstable::outcomes(*read), self@, now_secs, got) && match got {
                    Err(e) => r matches Err(err) && err@ == e,
                    Ok(s) => r matches Ok(ops) && engine::ops_view(ops@) == deletions(
                        matching(s, Some(filter@), query::answers(*near)),
                    ),
                },
            r matches Ok(ops) ==> ops@.len() <= SCAN_LIMIT,
    {
        let got = self.scan(None, None, SCAN_LIMIT, now_secs, read);
        assert(records_give(
            sstable::outcomes(*read),
            self@,
            now_secs,
            iterator::pairs_result(got),
        ));
        let all = match got {
            Err(e) => {
                return Err(e);
            },
            Ok(v) => v,
        };
        let ghost view = iterator::pairs_view(all@);
        let mut ops: Vec<(PlayerId, Option<Bytes>, OpType)> = Vec::new();
        let mut i: usize = 0;
        assert(view.take(0) =~= Seq::empty());
        assert(engine::ops_view(ops@) =~= deletions(Seq::empty()));
        while i < all.len()
            invariant
                i <= all@.len(),
                ops@.len() <= i,
                view == iterator::pairs_view(all@),
                query::can_compare(*near),
                engine::ops_view(ops@) == deletions(
                    matching(view.take(i as int), Some(filter@), query::answers(*near)),
                ),
            decreases all@.len() - i,
        {
            let ghost held = engine::ops_view(ops@);
            let ghost item = view[i as int];
            assert(view.take(i + 1).drop_last() =~= view.take(i as int));
            if filter.matches(&*all[i].1, near) {
                ops.push((all[i].0, None, OpType::Delete));
                proof {
                    let op = OpView { key: item.0, value: None, op: OpType::Delete };
                    assert(engine::ops_view(ops@) =~= held.push(op));
                    let rest = matching(
                        view.take(i as int),
                        Some(filter@),
                        query::answers(*near),
                    );
                    assert(deletions(rest.push(item)) =~= deletions(rest).push(op));
                }
            }
            i = i + 1;
        }
        assert(view.take(i as int) =~= view);
        Ok(ops)
    }

    /// Deletes the records that meet a filter, in one batch. Gives their number.
    pub fn del_where<
        R: Fn(u64, u64, u64) -> Result<Vec<u8>>,
        N: Fn(u64, u64) -> Option<bool>,
        W: FnOnce(&Vec<WalRecord>) -> Result<()>,
    >(&mut self, filter: &QueryFilter, now_ms: u64, near: &N, read: &R, write: W) -> (r: Result<
        usize,
    >)
        requires
            old(self).wf(),
            sstable::can_read(*read),
            query::can_compare(*near),
            forall|records: &Vec<WalRecord>| #[trigger] call_requires(write, (records,)),
        ensures
            final(self).wf(),
            final(self).spec_config() == old(self).spec_config(),
            final(self).spec_compression() == old(self).spec_compression(),
            exists|got: core::result::Result<Seq<(u128, Seq<u8>)>, ErrorView>| #[trigger]
                records_give(sstable::outcomes(*read), old(self)@, now_ms / 1000, got)
                    && deletes_where(
                    old(self)@,
                    got,
                    filter@,
                    query::answers(*near),
                    now_ms,
                    write,
                    final(self)@,
                    r,
                ),
    {
        let made = self.deletions_where(filter, now_ms / 1000, near, read);
        let ghost got = choose|got: core::result::Result<Seq<(u128, Seq<u8>)>, ErrorView>|
            #[trigger]
            records_give(sstable::outcomes(*read), self@, now_ms / 1000, got) && match got {
                Err(e) => made matches Err(err) && err@ == e,
                Ok(s) => made matches Ok(ops) && engine::ops_view(ops@) == deletions(
                    matching(s, Some(filter@), query::answers(*near)),
                ),
            };
        let ops = match made {
            Err(e) => {
                return Err(e);
            },
            Ok(v) => v,
        };
        let count: usize = ops.len();
        let ghost ov = engine::ops_view(ops@);
        let r = match self.apply_batch(ops, now_ms, write) {
            Err(e) => Err(e),
            Ok(_) => Ok(count),
        };
        proof {
            let gone = matching(got->Ok_0, Some(filter@), query::answers(*near));
            assert(ov == deletions(gone));
            assert(ov.len() == gone.len());
            assert(deletes_where(
                old(self)@,
                got,
                filter@,
                query::answers(*near),
                now_ms,
                write,
                self@,
                r,
            ));
        }
        r
    }

    /// The number of records that meet a filter; of all where there is none.
    pub fn count_records<
        R: Fn(u64, u64, u64) -> Result<Vec<u8>>,
        N: Fn(u64, u64) -> Option<bool>,
    >(&self, filter: Option<&QueryFilter>, now_secs: u64, near: &N, read: &R) -> (r: Result<usize>)
        requires
            sstable::can_read(*read),
            query::can_compare(*near),
        ensures
            exists|got: core::result::Result<Seq<(u128, Seq<u8>)>, ErrorView>| #[trigger]
                records_give(sstable::outcomes(*read), self@, now_secs, got) && match got {
                    Err(e) => r matches Err(err) && err@ == e,
                    Ok(s) => r matches Ok(n) && n == matching(s, filter_view(filter), query::answers(*near)).len(),
                },
    {
        let got = self.scan(None, None, SCAN_LIMIT, now_secs, read);
        assert(records_give(
            sstable::outcomes(*read),
            self@,
            now_secs,
            iterator::pairs_result(got),
        ));
        let all = match got {
            Err(e) => {
                return Err(e);
            },
            Ok(v) => v,
        };
        let ghost view = iterator::pairs_view(all@);
        let ghost fv = filter_view(filter);
        let mut count: usize = 0;
        let mut i: usize = 0;
        assert(view.take(0) =~= Seq::empty());
        while i < all.len()
            invariant
                i <= all@.len(),
                count <= i,
                view == iterator::pairs_view(all@),
                fv == filter_view(filter),
                query::can_compare(*near),
                count == matching(view.take(i as int), fv, query::answers(*near)).len(),
            decreases all@.len() - i,
        {
            assert(view.take(i + 1).drop_last() =~= view.take(i as int));
            assert(view.take(i + 1).last().1 == wire::bytes_view(all@[i as int].1));
            let n: usize = all.len();
            let taken = match filter {
                Some(f) => f.matches(&*all[i].1, near),
                None => true,
            };
            if taken {
                count = count + 1;
            }
            i = i + 1;
        }
        assert(view.take(i as int) =~= view);
        Ok(count)
    }

    /// The numbers at a path in the documents that meet a filter, as the bits of doubles.
    pub fn field_numbers<
        R: Fn(u64, u64, u64) -> Result<Vec<u8>>,
        N: Fn(u64, u64) -> Option<bool>,
    >(&self, field: &str, filter: Option<&QueryFilter>, now_secs: u64, near: &N, read: &R) -> (r:
        Result<Vec<u64>>)
        requires
            sstable::can_read(*read),
            query::can_compare(*near),
        ensures
            exists|got: core::result::Result<Seq<(u128, Seq<u8>)>, ErrorView>| #[trigger]
                records_give(sstable::outcomes(*read), self@, now_secs, got) && match got {
                    Err(e) => r matches Err(err) && err@ == e,
                    Ok(s) => r matches Ok(v) && v@ == numbers_in(
                        s,
                        field@,
                        filter_view(filter),
                        query::answers(*near),
                    ),
                },
    {
        let got = self.scan(None, None, SCAN_LIMIT, now_secs, read);
        assert(records_give(
            sstable::outcomes(*read),
            self@,
            now_secs,
            iterator::pairs_result(got),
        ));
        let all = match got {
            Err(e) => {
                return Err(e);
            },
            Ok(v) => v,
        };
        let ghost view = iterator::pairs_view(all@);
        let ghost fv = filter_view(filter);
        let mut out: Vec<u64> = Vec::new();
        let mut i: usize = 0;
        assert(view.take(0) =~= Seq::empty());
        while i < all.len()
            invariant
                i <= all@.len(),
                view == iterator::pairs_view(all@),
                fv == filter_view(filter),
                query::can_compare(*near),
                out@ == numbers_in(view.take(i as int), field@, fv, query::answers(*near)),
            decreases all@.len() - i,
        {
            assert(view.take(i + 1).drop_last() =~= view.take(i as int));
            assert(view.take(i + 1).last().1 == wire::bytes_view(all@[i as int].1));
            if let Some(doc) = JsonValue::parse(&*all[i].1) {
                let taken = match filter {
                    Some(f) => f.matches_value(&doc, near),
                    None => true,
                };
                if taken {
                    if let Some(bits) = QueryFilter::extract_number(&doc, field) {
                        out.push(bits);
                    }
                }
            }
            i = i + 1;
        }
        assert(view.take(i as int) =~= view);
        Ok(out)
    }
}

/// What deleting by a filter leaves where reading the records gave `got`: a batch of deletions, unless
/// they could not be read.
pub open spec fn deletes_where<W: FnOnce(&Vec<WalRecord>) -> Result<()>>(
    before: EngineView,
    got: core::result::Result<Seq<(u128, Seq<u8>)>, ErrorView>,
    filter: ExpressionView,
    near: spec_fn(u64, u64) -> Option<bool>,
    now_ms: u64,
    write: W,
    after: EngineView,
    r: Result<usize>,
) -> bool {
    match got {
        Err(e) => after == before && (r matches Err(err) && err@ == e),
        Ok(s) => {
            let gone = matching(s, Some(filter), near);
            &&& r matches Ok(n) ==> n == gone.len()
            &&& if gone.len() == 0 {
                r is Ok && after == before
            } else {
                engine::logs_batch(before, deletions(gone), now_ms, write, after, engine::ended(r))
            }
        },
    }
}

proof fn lemma_deletions(s: Seq<(u128, Seq<u8>)>, key: u128)
    ensures
        laws::last_op(deletions(s), key) is Some <==> exists|i: int|
            0 <= i < s.len() && (#[trigger] s[i]).0 == key,
        laws::last_op(deletions(s), key) matches Some(o) ==> o.op == OpType::Delete,
    decreases s.len(),
{
    if s.len() > 0 {
        let head = s.drop_last();
        lemma_deletions(head, key);
        assert(deletions(s).drop_last() =~= deletions(head));
        if s.last().0 == key {
            assert(s[s.len() - 1].0 == key);
        } else if exists|i: int| 0 <= i < s.len() && (#[trigger] s[i]).0 == key {
            let i = choose|i: int| 0 <= i < s.len() && (#[trigger] s[i]).0 == key;
            assert(head[i].0 == key);
        }
        if exists|i: int| 0 <= i < head.len() && (#[trigger] head[i]).0 == key {
            let i = choose|i: int| 0 <= i < head.len() && (#[trigger] head[i]).0 == key;
            assert(s[i].0 == key);
        }
    }
}

/// Deleting by a filter, once its records are in the log, takes away every record that meets it,
/// and no other.
pub proof fn law_deleting_by_filter_takes_what_matches(
    v: EngineView,
    files: spec_fn(u64) -> FileView,
    filter: ExpressionView,
    near: spec_fn(u64, u64) -> Option<bool>,
    now_ms: u64,
    records: Seq<(u128, Seq<u8>)>,
    after: EngineView,
    key: u128,
    now_secs: u64,
)
    requires
        v.memory.dom().finite(),
        all_records(v, files, now_ms / 1000) == Ok::<Seq<(u128, Seq<u8>)>, ErrorView>(records),
        if matching(records, Some(filter), near).len() == 0 {
            after == v
        } else {
            engine::batch_outcome(
                v,
                deletions(matching(records, Some(filter), near)),
                now_ms,
                Ok(()),
                after,
                Ok(()),
            )
        },
    ensures
        ({
            let gone = matching(records, Some(filter), near);
            engine::value_of(after, files, key, now_secs) == (if exists|i: int|
                0 <= i < gone.len() && (#[trigger] gone[i]).0 == key {
                Ok::<Option<Seq<u8>>, ErrorView>(None)
            } else {
                engine::value_of(v, files, key, now_secs)
            })
        }),
{
    let gone = matching(records, Some(filter), near);
    let ops = deletions(gone);
    lemma_deletions(gone, key);
    if gone.len() > 0 {
        let numbered = EngineView {
            next_seq: wal::seq_after(v.next_seq, ops.len() as int),
            ..v
        };
        if laws::last_op(ops, key) is Some {
            laws::law_batch_is_read(numbered, ops, v.next_seq, now_ms, files, key, now_secs);
        } else {
            laws::law_batch_keeps_other_keys(
                numbered,
                ops,
                v.next_seq,
                now_ms,
                files,
                key,
                now_secs,
            );
            assert(engine::newest_entry(numbered, files, key) == engine::newest_entry(
                v,
                files,
                key,
            ));
        }
    }
}

/// The least and the greatest of some doubles.
pub fn extremes(numbers: &Vec<u64>) -> (r: (u64, u64))
    ensures
        r == (least(numbers@), greatest(numbers@)),
{
    let mut min: u64 = 0x7ff0_0000_0000_0000;
    let mut max: u64 = 0xfff0_0000_0000_0000;
    let mut i: usize = 0;
    assert(numbers@.take(0) =~= Seq::empty());
    while i < numbers.len()
        invariant
            i <= numbers@.len(),
            min == least(numbers@.take(i as int)),
            max == greatest(numbers@.take(i as int)),
        decreases numbers@.len() - i,
    {
        assert(numbers@.take(i + 1).drop_last() =~= numbers@.take(i as int));
        if json::bits_less(numbers[i], min) {
            min = numbers[i];
        }
        if json::bits_less(max, numbers[i]) {
            max = numbers[i];
        }
        i = i + 1;
    }
    assert(numbers@.take(i as int) =~= numbers@);
    (min, max)
}

/// The measures of a field: how many numbers there are, their sum and mean as given, the least and
/// the greatest; without numbers those are zero.
pub open spec fn measures(field: Seq<char>, numbers: Seq<u64>, sum: u64, avg: u64) -> JsonView {
    JsonView::Object(
        reply::no_fields().insert("field"@, JsonView::String(field)).insert(
            "count"@,
            reply::count(numbers.len()),
        ).insert("sum"@, json::float_json(sum)).insert("avg"@, json::float_json(avg)).insert(
            "min"@,
            json::float_json(
                if numbers.len() == 0 {
                    0
                } else {
                    least(numbers)
                },
            ),
        ).insert(
            "max"@,
            json::float_json(
                if numbers.len() == 0 {
                    0
                } else {
                    greatest(numbers)
                },
            ),
        ),
    )
}

/// The document of a field's measures; `sum` and `avg` are the bits of the sum and of the mean.
pub fn measures_document(field: &str, numbers: &Vec<u64>, sum: u64, avg: u64) -> (r: JsonValue)
    ensures
        json::doc_ok(r),
        r@ == measures(field@, numbers@, sum, avg),
{
    let (min, max) = if numbers.len() == 0 {
        (0, 0)
    } else {
        extremes(numbers)
    };
    let v = query::with_field(reply::new_object(), "field", JsonValue::from_text(field));
    let v = query::with_field(v, "count", JsonValue::from_u64(numbers.len() as u64));
    let v = query::with_field(v, "sum", JsonValue::from_bits(sum));
    let v = query::with_field(v, "avg", JsonValue::from_bits(avg));
    let v = query::with_field(v, "min", JsonValue::from_bits(min));
    query::with_field(v, "max", JsonValue::from_bits(max))
}

/// The least double is not above any, and one of them or infinity.
pub proof fn law_least_bounds(s: Seq<u64>, i: int)
    requires
        0 <= i < s.len(),
        !json::is_nan(s[i]),
    ensures
        json::float_at_most(least(s), s[i]),
        json::float_at_most(s[i], greatest(s)),
        s.contains(least(s)) || least(s) == 0x7ff0_0000_0000_0000,
        s.contains(greatest(s)) || greatest(s) == 0xfff0_0000_0000_0000,
{
    lemma_extremes_bound(s);
}

proof fn lemma_extremes_bound(s: Seq<u64>)
    ensures
        !json::is_nan(least(s)),
        !json::is_nan(greatest(s)),
        forall|i: int|
            0 <= i < s.len() && !json::is_nan(#[trigger] s[i]) ==> json::float_at_most(
                least(s),
                s[i],
            ) && json::float_at_most(s[i], greatest(s)),
        s.contains(least(s)) || least(s) == 0x7ff0_0000_0000_0000,
        s.contains(greatest(s)) || greatest(s) == 0xfff0_0000_0000_0000,
    decreases s.len(),
{
    if s.len() > 0 {
        let rest = s.drop_last();
        lemma_extremes_bound(rest);
        assert forall|i: int| 0 <= i < s.len() && !json::is_nan(#[trigger] s[i]) implies
            json::float_at_most(least(s), s[i]) && json::float_at_most(s[i], greatest(s)) by {
            if i < rest.len() {
                assert(rest[i] == s[i]);
            }
        }
        assert(s[s.len() - 1] == s.last());
        if rest.contains(least(rest)) {
            let j = choose|j: int| 0 <= j < rest.len() && rest[j] == least(rest);
            assert(s[j] == least(rest));
        }
        if rest.contains(greatest(rest)) {
            let j = choose|j: int| 0 <= j < rest.len() && rest[j] == greatest(rest);
            assert(s[j] == greatest(rest));
        }
    }
}

} // verus!
