//! Merging of sorted sources: of the entries under one key the newest wins.
use bytes::Bytes;
use vstd::prelude::*;

use crate::storage::memtable::MemTable;
use crate::storage::sstable::{FileView, Reads, SsTable};
use crate::storage::{memtable, sstable};
use crate::types::{EntryView, ErrorView, PlayerId, Result, ValueEntry};
use crate::types;
use crate::wire;

verus! {

// ---------------------------------------------------------------------------------------------
// What merging gives
// ---------------------------------------------------------------------------------------------
/// The smallest key that stands first in one of the first `n` sources.
pub open spec fn min_head(s: Seq<Seq<(u128, EntryView)>>, n: int) -> Option<u128>
    decreases n,
{
    if n <= 0 {
        None
    } else {
        let before = min_head(s, n - 1);
        let src = s[n - 1];
        if src.len() > 0 && (before is None || src[0].0 < before.unwrap()) {
            Some(src[0].0)
        } else {
            before
        }
    }
}

/// The newer of two entries by sequence number; the first where they are equal.
pub open spec fn newer(best: Option<EntryView>, e: EntryView) -> Option<EntryView> {
    match best {
        Some(b) if e.seq_num <= b.seq_num => Some(b),
        _ => Some(e),
    }
}

/// The newest of `best` and the entries under a key that a source starts with.
pub open spec fn best_of_source(
    src: Seq<(u128, EntryView)>,
    key: u128,
    best: Option<EntryView>,
) -> Option<EntryView>
    decreases src.len(),
{
    if src.len() > 0 && src[0].0 == key {
        best_of_source(src.skip(1), key, newer(best, src[0].1))
    } else {
        best
    }
}

/// The newest of the entries under a key that the first `n` sources start with.
pub open spec fn best_of(s: Seq<Seq<(u128, EntryView)>>, key: u128, n: int) -> Option<EntryView>
    decreases n,
{
    if n <= 0 {
        None
    } else {
        best_of_source(s[n - 1], key, best_of(s, key, n - 1))
    }
}

/// A source without the entries under a key that it starts with.
pub open spec fn skip_key(src: Seq<(u128, EntryView)>, key: u128) -> Seq<(u128, EntryView)>
    decreases src.len(),
{
    if src.len() > 0 && src[0].0 == key {
        skip_key(src.skip(1), key)
    } else {
        src
    }
}

/// All sources without the entries under a key that they start with.
pub open spec fn advanced(s: Seq<Seq<(u128, EntryView)>>, key: u128) -> Seq<Seq<(u128, EntryView)>> {
    Seq::new(s.len(), |i: int| skip_key(s[i], key))
}

/// The number of entries of the first `n` sources.
pub open spec fn item_count(s: Seq<Seq<(u128, EntryView)>>, n: int) -> nat
    decreases n,
{
    if n <= 0 {
        0
    } else {
        item_count(s, n - 1) + s[n - 1].len()
    }
}

/// What merging some sources gives: again and again the smallest key that a source starts with,
/// with the newest of its entries.
pub open spec fn merged(s: Seq<Seq<(u128, EntryView)>>) -> Seq<(u128, EntryView)>
    decreases item_count(s, s.len() as int),
{
    match min_head(s, s.len() as int) {
        None => Seq::empty(),
        Some(key) => {
            proof {
                lemma_advanced_smaller(s, key);
            }
            seq![(key, best_of(s, key, s.len() as int).unwrap())] + merged(advanced(s, key))
        },
    }
}

proof fn lemma_skip_key_len(src: Seq<(u128, EntryView)>, key: u128)
    ensures
        skip_key(src, key).len() <= src.len(),
        src.len() > 0 && src[0].0 == key ==> skip_key(src, key).len() < src.len(),
    decreases src.len(),
{
    if src.len() > 0 && src[0].0 == key {
        lemma_skip_key_len(src.skip(1), key);
    }
}

proof fn lemma_min_head(s: Seq<Seq<(u128, EntryView)>>, n: int)
    requires
        0 <= n <= s.len(),
    ensures
        min_head(s, n) is None <==> (forall|i: int| 0 <= i < n ==> (#[trigger] s[i]).len() == 0),
        min_head(s, n) matches Some(k) ==> (exists|i: int|
            0 <= i < n && (#[trigger] s[i]).len() > 0 && s[i][0].0 == k) && (forall|i: int|
            0 <= i < n && (#[trigger] s[i]).len() > 0 ==> k <= s[i][0].0),
    decreases n,
{
    if n > 0 {
        lemma_min_head(s, n - 1);
        if s[n - 1].len() > 0 && (min_head(s, n - 1) is None || s[n - 1][0].0 < min_head(
            s,
            n - 1,
        ).unwrap()) {
            assert(s[n - 1].len() > 0 && s[n - 1][0].0 == min_head(s, n).unwrap());
        }
    }
}

proof fn lemma_count_le(s: Seq<Seq<(u128, EntryView)>>, key: u128, n: int)
    requires
        0 <= n <= s.len(),
    ensures
        item_count(advanced(s, key), n) <= item_count(s, n),
        (exists|i: int| 0 <= i < n && (#[trigger] s[i]).len() > 0 && s[i][0].0 == key)
            ==> item_count(advanced(s, key), n) < item_count(s, n),
    decreases n,
{
    if n > 0 {
        lemma_count_le(s, key, n - 1);
        lemma_skip_key_len(s[n - 1], key);
    }
}

/// Taking a key from all sources that start with it leaves fewer entries.
pub proof fn lemma_advanced_smaller(s: Seq<Seq<(u128, EntryView)>>, key: u128)
    requires
        min_head(s, s.len() as int) == Some(key),
    ensures
        item_count(advanced(s, key), advanced(s, key).len() as int) < item_count(s, s.len() as int),
{
    lemma_min_head(s, s.len() as int);
    lemma_count_le(s, key, s.len() as int);
}

proof fn lemma_best_some(s: Seq<Seq<(u128, EntryView)>>, key: u128, n: int)
    requires
        0 <= n <= s.len(),
        exists|i: int| 0 <= i < n && (#[trigger] s[i]).len() > 0 && s[i][0].0 == key,
    ensures
        best_of(s, key, n) is Some,
    decreases n,
{
    let i = choose|i: int| 0 <= i < n && (#[trigger] s[i]).len() > 0 && s[i][0].0 == key;
    if i == n - 1 {
        lemma_best_of_source_some(s[i].skip(1), key, newer(best_of(s, key, n - 1), s[i][0].1));
    } else {
        assert(0 <= i < n - 1 && s[i].len() > 0 && s[i][0].0 == key);
        lemma_best_some(s, key, n - 1);
        lemma_best_of_source_some(s[n - 1], key, best_of(s, key, n - 1));
    }
}

proof fn lemma_best_of_source_some(src: Seq<(u128, EntryView)>, key: u128, best: Option<EntryView>)
    requires
        best is Some,
    ensures
        best_of_source(src, key, best) is Some,
    decreases src.len(),
{
    if src.len() > 0 && src[0].0 == key {
        lemma_best_of_source_some(src.skip(1), key, newer(best, src[0].1));
    }
}

// ---------------------------------------------------------------------------------------------
// The iterator
// ---------------------------------------------------------------------------------------------
/// Sources, each with the place up to which it has been read.
pub struct MergingIter {
    sources: Vec<Vec<(PlayerId, ValueEntry)>>,
    pos: Vec<usize>,
}

/// The sources of a list, by views.
pub open spec fn sources_view(s: Seq<Vec<(PlayerId, ValueEntry)>>) -> Seq<Seq<(u128, EntryView)>> {
    Seq::new(s.len(), |i: int| types::entries_view(s[i]@))
}

impl MergingIter {
    pub closed spec fn wf(&self) -> bool {
        &&& self.pos@.len() == self.sources@.len()
        &&& forall|i: int|
            0 <= i < self.pos@.len() ==> (#[trigger] self.pos@[i]) <= self.sources@[i]@.len()
    }

    /// What is left of the sources.
    pub closed spec fn rest(&self) -> Seq<Seq<(u128, EntryView)>> {
        Seq::new(
            self.sources@.len(),
            |i: int| types::entries_view(self.sources@[i]@).skip(self.pos@[i] as int),
        )
    }

    /// An iterator over sorted sources.
    pub fn over(sources: Vec<Vec<(PlayerId, ValueEntry)>>) -> (r: Self)
        ensures
            r.wf(),
            r.rest() == sources_view(sources@),
    {
        let mut pos: Vec<usize> = Vec::new();
        let n: usize = sources.len();
        let mut i: usize = 0;
        while i < n
            invariant
                i <= n,
                n == sources@.len(),
                pos@.len() == i,
                forall|j: int| 0 <= j < i ==> #[trigger] pos@[j] == 0,
            decreases n - i,
        {
            pos.push(0);
            i = i + 1;
        }
        let r = MergingIter { sources, pos };
        assert(r.rest() =~= sources_view(r.sources@)) by {
            assert forall|j: int| 0 <= j < n implies #[trigger] r.rest()[j] == sources_view(
                r.sources@,
            )[j] by {
                let v = types::entries_view(r.sources@[j]@);
                assert(v.skip(0) =~= v);
            }
        }
        r
    }

    /// The smallest key that a source has next.
    fn next_key(&self) -> (r: Option<PlayerId>)
        requires
            self.wf(),
        ensures
            match r {
                Some(k) => min_head(self.rest(), self.rest().len() as int) == Some(k.0),
                None => min_head(self.rest(), self.rest().len() as int) is None,
            },
    {
        let mut best: Option<PlayerId> = None;
        let mut i: usize = 0;
        while i < self.sources.len()
            invariant
                self.wf(),
                i <= self.sources@.len(),
                match best {
                    Some(k) => min_head(self.rest(), i as int) == Some(k.0),
                    None => min_head(self.rest(), i as int) is None,
                },
            decreases self.sources@.len() - i,
        {
            let at: usize = self.pos[i];
            proof {
                let v = types::entries_view(self.sources@[i as int]@);
                assert(self.rest()[i as int] == v.skip(at as int));
                assert(at < v.len() ==> v.skip(at as int)[0] == v[at as int]);
            }
            if at < self.sources[i].len() {
                let key = self.sources[i][at].0;
                match best {
                    Some(k) => {
                        if key.0 < k.0 {
                            best = Some(key);
                        }
                    },
                    None => {
                        best = Some(key);
                    },
                }
            }
            i = i + 1;
        }
        best
    }

    /// Reads past the entries under a key that one source has next.
    fn take_from(&mut self, i: usize, key: PlayerId, best: Option<ValueEntry>) -> (r: Option<ValueEntry>)
        requires
            old(self).wf(),
            i < old(self).rest().len(),
        ensures
            final(self).wf(),
            final(self).rest() == old(self).rest().update(
                i as int,
                skip_key(old(self).rest()[i as int], key.0),
            ),
            entry_view(r) == best_of_source(old(self).rest()[i as int], key.0, entry_view(best)),
    {
        let ghost src = types::entries_view(self.sources@[i as int]@);
        let ghost from = self.rest()[i as int];
        let start: usize = self.pos[i];
        let mut at: usize = start;
        let len: usize = self.sources[i].len();
        let mut found = best;
        assert(src.skip(at as int) == from);
        while at < len && self.sources[i][at].0.0 == key.0
            invariant
                i < self.sources@.len(),
                len == self.sources@[i as int]@.len(),
                at <= len,
                src == types::entries_view(self.sources@[i as int]@),
                skip_key(from, key.0) == skip_key(src.skip(at as int), key.0),
                best_of_source(from, key.0, entry_view(best)) == best_of_source(
                    src.skip(at as int),
                    key.0,
                    entry_view(found),
                ),
            decreases len - at,
        {
            assert(src.skip(at as int)[0] == src[at as int]);
            assert(src.skip(at as int).skip(1) =~= src.skip(at + 1));
            let take = match &found {
                Some(b) => self.sources[i][at].1.seq_num > b.seq_num,
                None => true,
            };
            if take {
                found = Some(self.sources[i][at].1.clone());
            }
            at = at + 1;
        }
        proof {
            if at < len {
                assert(src.skip(at as int)[0] == src[at as int]);
            }
        }
        let ghost before = self.rest();
        let ghost old_pos = self.pos@;
        self.pos.set(i, at);
        assert(self.rest() =~= before.update(i as int, src.skip(at as int)));
        found
    }

    /// The next key with the newest of its entries.
    pub fn next(&mut self) -> (r: Option<(PlayerId, ValueEntry)>)
        requires
            old(self).wf(),
        ensures
            final(self).wf(),
            match r {
                None => merged(old(self).rest()).len() == 0 && final(self).rest()
                    == old(self).rest(),
                Some((key, e)) => merged(old(self).rest()) == seq![(key.0, e@)] + merged(
                    final(self).rest(),
                ) && item_count(final(self).rest(), final(self).rest().len() as int) < item_count(
                    old(self).rest(),
                    old(self).rest().len() as int,
                ),
            },
    {
        let ghost all = self.rest();
        let n: usize = self.sources.len();
        let key = match self.next_key() {
            Some(k) => k,
            None => {
                return None;
            },
        };
        proof {
            lemma_min_head(all, n as int);
            lemma_best_some(all, key.0, n as int);
            lemma_advanced_smaller(all, key.0);
        }
        let mut best: Option<ValueEntry> = None;
        let mut i: usize = 0;
        while i < n
            invariant
                i <= n,
                n == all.len(),
                self.wf(),
                self.rest().len() == n,
                entry_view(best) == best_of(all, key.0, i as int),
                forall|j: int|
                    0 <= j < n ==> #[trigger] self.rest()[j] == (if j < i {
                        skip_key(all[j], key.0)
                    } else {
                        all[j]
                    }),
            decreases n - i,
        {
            let ghost before = self.rest();
            best = self.take_from(i, key, best);
            i = i + 1;
        }
        assert(self.rest() =~= advanced(all, key.0));
        match best {
            Some(e) => Some((key, e)),
            None => None,
        }
    }
}

/// An optional entry, by view.
pub open spec fn entry_view(e: Option<ValueEntry>) -> Option<EntryView> {
    match e {
        Some(v) => Some(v@),
        None => None,
    }
}

// ---------------------------------------------------------------------------------------------
// Scanning
// ---------------------------------------------------------------------------------------------
/// The entries that hold a value, with their values.
pub open spec fn live(s: Seq<(u128, EntryView)>) -> Seq<(u128, Seq<u8>)>
    decreases s.len(),
{
    if s.len() == 0 {
        Seq::empty()
    } else {
        match s.last().1.value {
            Some(v) => live(s.drop_last()).push((s.last().0, v)),
            None => live(s.drop_last()),
        }
    }
}

/// The first `limit` items of a sequence.
pub open spec fn first<A>(s: Seq<A>, limit: nat) -> Seq<A> {
    if s.len() <= limit {
        s
    } else {
        s.take(limit as int)
    }
}

/// The entries of the first `n` memory tables whose keys lie within bounds.
pub open spec fn mem_sources(
    mems: Seq<Map<u128, EntryView>>,
    start: Option<PlayerId>,
    end: Option<PlayerId>,
) -> Seq<Seq<(u128, EntryView)>> {
    Seq::new(mems.len(), |i: int| memtable::sorted_range(mems[i], start, end))
}

/// The entries of the first `n` tables on disk whose keys lie within bounds.
pub open spec fn table_sources(
    tables: Seq<sstable::TableView>,
    files: spec_fn(u64) -> FileView,
    start: Option<PlayerId>,
    end: Option<PlayerId>,
    n: int,
) -> core::result::Result<Seq<Seq<(u128, EntryView)>>, ErrorView>
    decreases n,
{
    if n <= 0 {
        Ok(Seq::empty())
    } else {
        match table_sources(tables, files, start, end, n - 1) {
            Err(e) => Err(e),
            Ok(head) => match sstable::table_entries(tables[n - 1], files(tables[n - 1].id)) {
                Err(e) => Err(e),
                Ok(all) => Ok(head.push(sstable::entries_in_range(all, start, end))),
            },
        }
    }
}

/// All sources of a scan: the active memory table, the others, the tables on disk.
pub open spec fn scan_sources(
    active: Map<u128, EntryView>,
    mems: Seq<Map<u128, EntryView>>,
    tables: Seq<sstable::TableView>,
    files: spec_fn(u64) -> FileView,
    start: Option<PlayerId>,
    end: Option<PlayerId>,
) -> core::result::Result<Seq<Seq<(u128, EntryView)>>, ErrorView> {
    match table_sources(tables, files, start, end, tables.len() as int) {
        Err(e) => Err(e),
        Ok(rest) => Ok(
            seq![memtable::sorted_range(active, start, end)] + mem_sources(mems, start, end) + rest,
        ),
    }
}

/// What a scan gives: the first `limit` values in key order.
pub open spec fn scanned(
    active: Map<u128, EntryView>,
    mems: Seq<Map<u128, EntryView>>,
    tables: Seq<sstable::TableView>,
    files: spec_fn(u64) -> FileView,
    start: Option<PlayerId>,
    end: Option<PlayerId>,
    limit: nat,
) -> core::result::Result<Seq<(u128, Seq<u8>)>, ErrorView> {
    if limit == 0 {
        Ok(Seq::empty())
    } else {
        match scan_sources(active, mems, tables, files, start, end) {
            Err(e) => Err(e),
            Ok(sources) => Ok(first(live(merged(sources)), limit)),
        }
    }
}

/// The entries within bounds of the first tables on disk may have been read so: one table after the
/// other, all of them, or up to an error.
pub open spec fn tables_read(
    can: Reads,
    tables: Seq<sstable::TableView>,
    start: Option<PlayerId>,
    end: Option<PlayerId>,
    got: Seq<core::result::Result<Seq<(u128, EntryView)>, ErrorView>>,
) -> bool {
    &&& got.len() <= tables.len()
    &&& forall|k: int|
        0 <= k < got.len() ==> sstable::range_gives(can, tables[k], start, end, #[trigger] got[k])
    &&& got.len() == tables.len() || sstable::gathered(got) is Err
}

/// What reading the entries within bounds of all tables on disk may give.
pub open spec fn tables_give(
    can: Reads,
    tables: Seq<sstable::TableView>,
    start: Option<PlayerId>,
    end: Option<PlayerId>,
    r: core::result::Result<Seq<Seq<(u128, EntryView)>>, ErrorView>,
) -> bool {
    exists|got: Seq<core::result::Result<Seq<(u128, EntryView)>, ErrorView>>| #[trigger]
        tables_read(can, tables, start, end, got) && r == sstable::gathered(got)
}

/// The sources of a scan: the active memory table, the others, the tables on disk, of which reads
/// gave `rest`.
pub open spec fn with_memory(
    active: Map<u128, EntryView>,
    mems: Seq<Map<u128, EntryView>>,
    start: Option<PlayerId>,
    end: Option<PlayerId>,
    rest: core::result::Result<Seq<Seq<(u128, EntryView)>>, ErrorView>,
) -> core::result::Result<Seq<Seq<(u128, EntryView)>>, ErrorView> {
    match rest {
        Err(e) => Err(e),
        Ok(s) => Ok(
            seq![memtable::sorted_range(active, start, end)] + mem_sources(mems, start, end) + s,
        ),
    }
}

/// The first `limit` values of merged sources.
pub open spec fn values_of(
    sources: core::result::Result<Seq<Seq<(u128, EntryView)>>, ErrorView>,
    limit: nat,
) -> core::result::Result<Seq<(u128, Seq<u8>)>, ErrorView> {
    match sources {
        Err(e) => Err(e),
        Ok(s) => Ok(first(live(merged(s)), limit)),
    }
}

/// What a scan may give.
pub open spec fn scan_gives(
    can: Reads,
    active: Map<u128, EntryView>,
    mems: Seq<Map<u128, EntryView>>,
    tables: Seq<sstable::TableView>,
    start: Option<PlayerId>,
    end: Option<PlayerId>,
    limit: nat,
    r: core::result::Result<Seq<(u128, Seq<u8>)>, ErrorView>,
) -> bool {
    if limit == 0 {
        r == Ok::<Seq<(u128, Seq<u8>)>, ErrorView>(Seq::empty())
    } else {
        exists|rest: core::result::Result<Seq<Seq<(u128, EntryView)>>, ErrorView>| #[trigger]
            tables_give(can, tables, start, end, rest) && r == values_of(
                with_memory(active, mems, start, end, rest),
                limit,
            )
    }
}

pub proof fn lemma_tables_within(
    a: Reads,
    b: Reads,
    tables: Seq<sstable::TableView>,
    start: Option<PlayerId>,
    end: Option<PlayerId>,
    r: core::result::Result<Seq<Seq<(u128, EntryView)>>, ErrorView>,
)
    requires
        sstable::within(a, b),
        tables_give(a, tables, start, end, r),
    ensures
        tables_give(b, tables, start, end, r),
{
    let got = choose|got: Seq<core::result::Result<Seq<(u128, EntryView)>, ErrorView>>| #[trigger]
        tables_read(a, tables, start, end, got) && r == sstable::gathered(got);
    assert forall|k: int| 0 <= k < got.len() implies sstable::range_gives(
        b,
        tables[k],
        start,
        end,
        #[trigger] got[k],
    ) by {
        sstable::lemma_range_within(a, b, tables[k], start, end, got[k]);
    }
    assert(tables_read(b, tables, start, end, got));
}

pub proof fn lemma_scan_within(
    a: Reads,
    b: Reads,
    active: Map<u128, EntryView>,
    mems: Seq<Map<u128, EntryView>>,
    tables: Seq<sstable::TableView>,
    start: Option<PlayerId>,
    end: Option<PlayerId>,
    limit: nat,
    r: core::result::Result<Seq<(u128, Seq<u8>)>, ErrorView>,
)
    requires
        sstable::within(a, b),
        scan_gives(a, active, mems, tables, start, end, limit, r),
    ensures
        scan_gives(b, active, mems, tables, start, end, limit, r),
{
    if limit != 0 {
        let rest = choose|rest: core::result::Result<Seq<Seq<(u128, EntryView)>>, ErrorView>|
            #[trigger]
            tables_give(a, tables, start, end, rest) && r == values_of(
                with_memory(active, mems, start, end, rest),
                limit,
            );
        lemma_tables_within(a, b, tables, start, end, rest);
    }
}

proof fn lemma_gathered_fixed(
    can: Reads,
    files: spec_fn(u64) -> FileView,
    tables: Seq<sstable::TableView>,
    start: Option<PlayerId>,
    end: Option<PlayerId>,
    got: Seq<core::result::Result<Seq<(u128, EntryView)>, ErrorView>>,
)
    requires
        sstable::within(can, sstable::fixed(files)),
        got.len() <= tables.len(),
        forall|k: int|
            0 <= k < got.len() ==> sstable::range_gives(
                can,
                tables[k],
                start,
                end,
                #[trigger] got[k],
            ),
    ensures
        sstable::gathered(got) == table_sources(tables, files, start, end, got.len() as int),
    decreases got.len(),
{
    if got.len() > 0 {
        let head = got.drop_last();
        let last = got.len() - 1;
        assert forall|k: int| 0 <= k < head.len() implies sstable::range_gives(
            can,
            tables[k],
            start,
            end,
            #[trigger] head[k],
        ) by {
            assert(head[k] == got[k]);
        }
        lemma_gathered_fixed(can, files, tables, start, end, head);
        assert(got.last() == got[last]);
        sstable::lemma_range_fixed(can, files, tables[last], start, end, got[last]);
    }
}

/// Where reads are fixed, reading the entries of the tables on disk gives one thing.
pub proof fn lemma_tables_fixed(
    can: Reads,
    files: spec_fn(u64) -> FileView,
    tables: Seq<sstable::TableView>,
    start: Option<PlayerId>,
    end: Option<PlayerId>,
    r: core::result::Result<Seq<Seq<(u128, EntryView)>>, ErrorView>,
)
    requires
        sstable::within(can, sstable::fixed(files)),
        tables_give(can, tables, start, end, r),
    ensures
        r == table_sources(tables, files, start, end, tables.len() as int),
{
    let got = choose|got: Seq<core::result::Result<Seq<(u128, EntryView)>, ErrorView>>| #[trigger]
        tables_read(can, tables, start, end, got) && r == sstable::gathered(got);
    lemma_gathered_fixed(can, files, tables, start, end, got);
    if got.len() < tables.len() {
        lemma_table_sources_stop(
            tables,
            files,
            start,
            end,
            got.len() as int,
            tables.len() as int,
        );
    }
}

/// Where reads are fixed, a scan gives one thing.
pub proof fn lemma_scan_fixed(
    can: Reads,
    files: spec_fn(u64) -> FileView,
    active: Map<u128, EntryView>,
    mems: Seq<Map<u128, EntryView>>,
    tables: Seq<sstable::TableView>,
    start: Option<PlayerId>,
    end: Option<PlayerId>,
    limit: nat,
    r: core::result::Result<Seq<(u128, Seq<u8>)>, ErrorView>,
)
    requires
        sstable::within(can, sstable::fixed(files)),
        scan_gives(can, active, mems, tables, start, end, limit, r),
    ensures
        r == scanned(active, mems, tables, files, start, end, limit),
{
    if limit != 0 {
        let rest = choose|rest: core::result::Result<Seq<Seq<(u128, EntryView)>>, ErrorView>|
            #[trigger]
            tables_give(can, tables, start, end, rest) && r == values_of(
                with_memory(active, mems, start, end, rest),
                limit,
            );
        lemma_tables_fixed(can, files, tables, start, end, rest);
    }
}

/// A result that holds sources, by view.
pub open spec fn sources_result(
    r: Result<Vec<Vec<(PlayerId, ValueEntry)>>>,
) -> core::result::Result<Seq<Seq<(u128, EntryView)>>, ErrorView> {
    match r {
        Ok(v) => Ok(sources_view(v@)),
        Err(e) => Err(e@),
    }
}

/// A result that holds pairs, by view.
pub open spec fn pairs_result(r: Result<Vec<(PlayerId, Bytes)>>) -> core::result::Result<
    Seq<(u128, Seq<u8>)>,
    ErrorView,
> {
    match r {
        Ok(v) => Ok(pairs_view(v@)),
        Err(e) => Err(e@),
    }
}

/// The contents of some memory tables.
pub open spec fn mems_view(s: Seq<MemTable>) -> Seq<Map<u128, EntryView>> {
    Seq::new(s.len(), |i: int| s[i]@)
}

/// What is held in memory of some tables.
pub open spec fn tables_view(s: Seq<SsTable>) -> Seq<sstable::TableView> {
    Seq::new(s.len(), |i: int| s[i]@)
}

/// Keys and values, by views.
pub open spec fn pairs_view(s: Seq<(PlayerId, Bytes)>) -> Seq<(u128, Seq<u8>)> {
    s.map_values(|e: (PlayerId, Bytes)| (e.0.0, wire::bytes_view(e.1)))
}

proof fn lemma_live_concat(a: Seq<(u128, EntryView)>, b: Seq<(u128, EntryView)>)
    ensures
        live(a + b) == live(a) + live(b),
    decreases b.len(),
{
    if b.len() == 0 {
        assert(a + b =~= a);
        assert(live(a) + live(b) =~= live(a));
    } else {
        lemma_live_concat(a, b.drop_last());
        assert((a + b).drop_last() =~= a + b.drop_last());
        assert(live(a + b) =~= live(a) + live(b));
    }
}

proof fn lemma_table_sources_stop(
    tables: Seq<sstable::TableView>,
    files: spec_fn(u64) -> FileView,
    start: Option<PlayerId>,
    end: Option<PlayerId>,
    n: int,
    m: int,
)
    requires
        0 <= n <= m,
        table_sources(tables, files, start, end, n) is Err,
    ensures
        table_sources(tables, files, start, end, m) == table_sources(tables, files, start, end, n),
    decreases m - n,
{
    if n < m {
        lemma_table_sources_stop(tables, files, start, end, n, m - 1);
    }
}

/// Merges the memory tables and the tables on disk.
pub struct MergingScanner;

impl MergingScanner {
    /// The sources of a scan.
    fn sources<R: Fn(u64, u64, u64) -> Result<Vec<u8>>>(
        active: &MemTable,
        mems: &Vec<MemTable>,
        tables: &Vec<SsTable>,
        start: Option<PlayerId>,
        end: Option<PlayerId>,
        read: &R,
    ) -> (r: Result<Vec<Vec<(PlayerId, ValueEntry)>>>)
        requires
            sstable::can_read(*read),
        ensures
            exists|rest: core::result::Result<Seq<Seq<(u128, EntryView)>>, ErrorView>| #[trigger]
                tables_give(
                    sstable::outcomes(*read),
                    tables_view(tables@),
                    start,
                    end,
                    rest,
                ) && sources_result(r) == with_memory(
                    active@,
                    mems_view(mems@),
                    start,
                    end,
                    rest,
                ),
    {
        let mut sources: Vec<Vec<(PlayerId, ValueEntry)>> = Vec::new();
        let ghost mems_v = mems_view(mems@);
        let ghost tables_v = tables_view(tables@);
        sources.push(active.range(start, end));
        let ghost base = seq![memtable::sorted_range(active@, start, end)];
        let mut i: usize = 0;
        assert(sources_view(sources@) =~= base + mem_sources(mems_v.take(0), start, end));
        while i < mems.len()
            invariant
                i <= mems@.len(),
                mems_v == mems_view(mems@),
                sources_view(sources@) == base + mem_sources(mems_v.take(i as int), start, end),
            decreases mems@.len() - i,
        {
            let ghost before = sources@;
            sources.push(mems[i].range(start, end));
            proof {
                let item = memtable::sorted_range(mems_v[i as int], start, end);
                assert(sources_view(sources@) =~= sources_view(before).push(item));
                assert(mem_sources(mems_v.take(i + 1), start, end) =~= mem_sources(
                    mems_v.take(i as int),
                    start,
                    end,
                ).push(item));
                assert(sources_view(sources@) =~= base + mem_sources(
                    mems_v.take(i + 1),
                    start,
                    end,
                ));
            }
            i = i + 1;
        }
        assert(mems_v.take(i as int) =~= mems_v);
        let ghost memory = base + mem_sources(mems_v, start, end);
        let mut j: usize = 0;
        let ghost can = sstable::outcomes(*read);
        let ghost mut heard: Seq<core::result::Result<Seq<(u128, EntryView)>, ErrorView>> =
            Seq::empty();
        let ghost mut rest: Seq<Seq<(u128, EntryView)>> = Seq::empty();
        assert(memory + Seq::empty() =~= memory);
        while j < tables.len()
            invariant
                j <= tables@.len(),
                tables_v == tables_view(tables@),
                sstable::can_read(*read),
                can == sstable::outcomes(*read),
                heard.len() == j,
                forall|k: int|
                    0 <= k < j ==> sstable::range_gives(
                        can,
                        tables_v[k],
                        start,
                        end,
                        #[trigger] heard[k],
                    ),
                sstable::gathered(heard) == Ok::<Seq<Seq<(u128, EntryView)>>, ErrorView>(rest),
                sources_view(sources@) == memory + rest,
                memory == seq![memtable::sorted_range(active@, start, end)] + mem_sources(
                    mems_view(mems@),
                    start,
                    end,
                ),
            decreases tables@.len() - j,
        {
            let ghost before = sources_view(sources@);
            let ghost old_heard = heard;
            let got = tables[j].scan_range(start, end, read);
            proof {
                heard = old_heard.push(sstable::entries_result(got));
                assert(heard.drop_last() =~= old_heard);
            }
            match got {
                Err(e) => {
                    assert(tables_read(can, tables_v, start, end, heard));
                    assert(tables_give(can, tables_v, start, end, sstable::gathered(heard)));
                    return Err(e);
                },
                Ok(v) => {
                    let ghost item = types::entries_view(v@);
                    sources.push(v);
                    proof {
                        assert(sources_view(sources@) =~= before.push(item));
                        assert((memory + rest).push(item) =~= memory + rest.push(item));
                        rest = rest.push(item);
                    }
                },
            }
            j = j + 1;
        }
        assert(tables_read(can, tables_v, start, end, heard));
        assert(tables_give(can, tables_v, start, end, sstable::gathered(heard)));
        Ok(sources)
    }

    /// The first `limit` values whose keys lie within bounds, both included, in key order.
    pub fn scan<R: Fn(u64, u64, u64) -> Result<Vec<u8>>>(
        active: &MemTable,
        mems: &Vec<MemTable>,
        tables: &Vec<SsTable>,
        start: Option<PlayerId>,
        end: Option<PlayerId>,
        limit: usize,
        read: &R,
    ) -> (r: Result<Vec<(PlayerId, Bytes)>>)
        requires
            sstable::can_read(*read),
        ensures
            scan_gives(
                sstable::outcomes(*read),
                active@,
                mems_view(mems@),
                tables_view(tables@),
                start,
                end,
                limit as nat,
                pairs_result(r),
            ),
            r matches Ok(v) ==> v@.len() <= limit,
    {
        let mut results: Vec<(PlayerId, Bytes)> = Vec::new();
        assert(pairs_view(results@) =~= Seq::empty());
        if limit == 0 {
            return Ok(results);
        }
        let got = MergingScanner::sources(active, mems, tables, start, end, read);
        let ghost rest = choose|rest: core::result::Result<Seq<Seq<(u128, EntryView)>>, ErrorView>|
            #[trigger]
            tables_give(sstable::outcomes(*read), tables_view(tables@), start, end, rest)
                && sources_result(got) == with_memory(active@, mems_view(mems@), start, end, rest);
        let sources = match got {
            Ok(v) => v,
            Err(e) => return Err(e),
        };
        let ghost all = merged(sources_view(sources@));
        let mut iter = MergingIter::over(sources);
        assert(pairs_view(results@) + live(all) =~= live(all));
        while results.len() < limit
            invariant_except_break
                iter.wf(),
                limit > 0,
                results@.len() <= limit,
                live(all) == pairs_view(results@) + live(merged(iter.rest())),
            ensures
                results@.len() <= limit,
                pairs_view(results@) == first(live(all), limit as nat),
            decreases item_count(iter.rest(), iter.rest().len() as int),
        {
            let ghost before = merged(iter.rest());
            match iter.next() {
                None => {
                    proof {
                        assert(before =~= Seq::empty());
                        assert(live(all) =~= pairs_view(results@));
                    }
                    break ;
                },
                Some((key, entry)) => {
                    let ghost item = (key.0, entry@);
                    let ghost held = pairs_view(results@);
                    proof {
                        lemma_live_concat(seq![item], merged(iter.rest()));
                        assert(seq![item].drop_last() =~= Seq::empty());
                        assert(live(seq![item].drop_last()) =~= Seq::empty());
                    }
                    match entry.value {
                        Some(val) => {
                            results.push((key, val));
                            proof {
                                let pair = (key.0, wire::bytes_view(val));
                                assert(pairs_view(results@) =~= held.push(pair));
                                assert(live(seq![item]) =~= seq![pair]);
                                assert(held + (seq![pair] + live(merged(iter.rest()))) =~= held.push(
                                    pair,
                                ) + live(merged(iter.rest())));
                            }
                        },
                        None => {
                            assert(live(seq![item]) =~= Seq::empty());
                            assert(live(before) =~= live(merged(iter.rest())));
                        },
                    }
                    proof {
                        if results@.len() >= limit {
                            assert(live(all).take(limit as int) =~= pairs_view(results@));
                            if live(all).len() <= limit {
                                assert(live(all) =~= pairs_view(results@));
                            }
                        }
                    }
                },
            }
        }
        Ok(results)
    }
}

// ---------------------------------------------------------------------------------------------
// Laws
// ---------------------------------------------------------------------------------------------
/// The newest entry under a key in the first `n` sources.
pub open spec fn newest(s: Seq<Seq<(u128, EntryView)>>, key: u128, n: int) -> Option<EntryView>
    decreases n,
{
    if n <= 0 {
        None
    } else {
        match sstable::lookup(s[n - 1], key) {
            Some(e) => newer(newest(s, key, n - 1), e),
            None => newest(s, key, n - 1),
        }
    }
}

/// Every source ascends.
pub open spec fn all_ascending(s: Seq<Seq<(u128, EntryView)>>) -> bool {
    forall|i: int| 0 <= i < s.len() ==> sstable::ascending(#[trigger] s[i])
}

proof fn lemma_ascending_front(src: Seq<(u128, EntryView)>, key: u128)
    requires
        sstable::ascending(src),
        src.len() > 0,
        src[0].0 == key,
    ensures
        skip_key(src, key) == src.skip(1),
        sstable::ascending(src.skip(1)),
        forall|best: Option<EntryView>| #[trigger]
            best_of_source(src, key, best) == newer(best, src[0].1),
        sstable::lookup(src, key) == Some(src[0].1),
        forall|other: u128|
            other != key ==> #[trigger] sstable::lookup(src.skip(1), other) == sstable::lookup(
                src,
                other,
            ),
        sstable::lookup(src.skip(1), key) is None,
{
    let rest = src.skip(1);
    assert forall|i: int, j: int| 0 <= i < j < rest.len() implies (#[trigger] rest[i]).0 < (
    #[trigger] rest[j]).0 by {
        assert(rest[i] == src[i + 1] && rest[j] == src[j + 1]);
    }
    assert forall|i: int| 0 <= i < rest.len() implies (#[trigger] rest[i]).0 != key by {
        assert(src[0].0 < src[i + 1].0);
    }
    if rest.len() > 0 {
        assert(rest[0].0 != key);
    }
    assert(skip_key(rest, key) == rest);
    assert forall|best: Option<EntryView>| #[trigger] best_of_source(src, key, best) == newer(
        best,
        src[0].1,
    ) by {
        assert(best_of_source(rest, key, newer(best, src[0].1)) == newer(best, src[0].1));
    }
    sstable::lemma_lookup_absent(rest, key);
    sstable::lemma_lookup_at(src, 0);
    assert(src =~= seq![src[0]] + rest);
    assert forall|other: u128| other != key implies #[trigger] sstable::lookup(rest, other)
        == sstable::lookup(src, other) by {
        sstable::lemma_lookup_concat(seq![src[0]], rest, other);
        assert(seq![src[0]].drop_last() =~= Seq::empty());
        assert(sstable::lookup(seq![src[0]].drop_last(), other) is None);
    }
}

/// What an ascending source holds below its first key.
proof fn lemma_below_front(src: Seq<(u128, EntryView)>, key: u128)
    requires
        sstable::ascending(src),
        src.len() == 0 || key < src[0].0,
    ensures
        sstable::lookup(src, key) is None,
{
    assert forall|i: int| 0 <= i < src.len() implies (#[trigger] src[i]).0 != key by {
        if i > 0 {
            assert(src[0].0 < src[i].0);
        }
    }
    sstable::lemma_lookup_absent(src, key);
}

proof fn lemma_newest_step(s: Seq<Seq<(u128, EntryView)>>, key: u128, other: u128, n: int)
    requires
        0 <= n <= s.len(),
        all_ascending(s),
        forall|i: int| 0 <= i < s.len() && (#[trigger] s[i]).len() > 0 ==> key <= s[i][0].0,
    ensures
        best_of(s, key, n) == newest(s, key, n),
        newest(advanced(s, key), key, n) is None,
        other != key ==> newest(advanced(s, key), other, n) == newest(s, other, n),
        other < key ==> newest(s, other, n) is None,
        forall|i: int| 0 <= i < n ==> sstable::ascending(#[trigger] advanced(s, key)[i]),
    decreases n,
{
    if n > 0 {
        lemma_newest_step(s, key, other, n - 1);
        let src = s[n - 1];
        assert(sstable::ascending(src));
        if src.len() > 0 && src[0].0 == key {
            lemma_ascending_front(src, key);
        } else {
            lemma_below_front(src, key);
        }
        if other < key {
            lemma_below_front(src, other);
        }
    }
}

/// Merging ascending sources gives ascending keys, each once, each with its newest entry, and
/// exactly the keys of the sources.
pub proof fn law_merge_keeps_the_newest(s: Seq<Seq<(u128, EntryView)>>, key: u128)
    requires
        all_ascending(s),
    ensures
        sstable::ascending(merged(s)),
        sstable::lookup(merged(s), key) == newest(s, key, s.len() as int),
    decreases item_count(s, s.len() as int),
{
    let n = s.len() as int;
    lemma_min_head(s, n);
    match min_head(s, n) {
        None => {
            lemma_newest_of_empty(s, key, n);
        },
        Some(k) => {
            lemma_advanced_smaller(s, k);
            let rest = advanced(s, k);
            let tail = merged(rest);
            let item = (k, best_of(s, k, n).unwrap());
            lemma_newest_step(s, k, key, n);
            lemma_best_some(s, k, n);
            assert(all_ascending(rest));
            law_merge_keeps_the_newest(rest, key);
            assert forall|i: int| 0 <= i < tail.len() implies k < (#[trigger] tail[i]).0 by {
                let ki = tail[i].0;
                law_merge_keeps_the_newest(rest, ki);
                sstable::lemma_lookup_at(tail, i);
                lemma_newest_step(s, k, ki, n);
            }
            let all = merged(s);
            assert(all == seq![item] + tail);
            assert forall|i: int, j: int| 0 <= i < j < all.len() implies (#[trigger] all[i]).0 < (
            #[trigger] all[j]).0 by {
                assert(all[j] == tail[j - 1]);
                if i > 0 {
                    assert(all[i] == tail[i - 1]);
                }
            }
            sstable::lemma_lookup_concat(seq![item], tail, key);
            assert(seq![item].drop_last() =~= Seq::empty());
            assert(sstable::lookup(seq![item].drop_last(), key) is None);
        },
    }
}

proof fn lemma_newest_of_empty(s: Seq<Seq<(u128, EntryView)>>, key: u128, n: int)
    requires
        0 <= n <= s.len(),
        forall|i: int| 0 <= i < s.len() ==> (#[trigger] s[i]).len() == 0,
    ensures
        newest(s, key, n) is None,
    decreases n,
{
    if n > 0 {
        lemma_newest_of_empty(s, key, n - 1);
        assert(s[n - 1].len() == 0);
    }
}

} // verus!
