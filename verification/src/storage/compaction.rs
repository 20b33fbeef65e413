//! Compaction: which tables are merged next, and what merging them gives.
use bytes::Bytes;
use vstd::prelude::*;

use crate::storage::bloom_filter::BloomFilter;
use crate::storage::bloom_filter;
use crate::storage::iterator::MergingIter;
use crate::storage::sstable::{FileView, Reads, SsTable, SsTableBuilder, TableView};
use crate::storage::{iterator, sstable};
use crate::types::{DbError, EntryView, ErrorView, PlayerId, Result, ValueEntry};
use crate::types;

verus! {

/// The number of tables on level 1 at which one of them moves to level 2.
pub const L1_TRIGGER: usize = 8;

/// What reports a table whose file no buffer can hold.
pub const TOO_LARGE: &'static str = "table file too large";

// ---------------------------------------------------------------------------------------------
// Planning
// ---------------------------------------------------------------------------------------------
/// A step of compaction: the places of the tables that are merged, the level of the result, and
/// whether no older table can hold their keys, so that tombstones go.
#[derive(Debug)]
pub struct CompactionPlan {
    pub inputs: Vec<usize>,
    pub output_level: u32,
    pub is_bottom_level: bool,
}

/// A step of compaction, by views.
pub struct PlanView {
    pub inputs: Seq<int>,
    pub output_level: u32,
    pub is_bottom_level: bool,
}

impl View for CompactionPlan {
    type V = PlanView;

    open spec fn view(&self) -> PlanView {
        PlanView {
            inputs: places_view(self.inputs@),
            output_level: self.output_level,
            is_bottom_level: self.is_bottom_level,
        }
    }
}

/// Places as numbers.
pub open spec fn places_view(s: Seq<usize>) -> Seq<int> {
    s.map_values(|i: usize| i as int)
}

/// The level that a table counts as: 0, 1, or 2 for all below.
pub open spec fn tier(t: TableView) -> int {
    if t.level == 0 {
        0
    } else if t.level == 1 {
        1
    } else {
        2
    }
}

/// A table has a key between two keys, as far as its smallest and largest key tell.
pub open spec fn overlaps(t: TableView, min: u128, max: u128) -> bool {
    t.max_key >= min && t.min_key <= max
}

/// The places of the tables on a level among the first `n`.
pub open spec fn on_level(tables: Seq<TableView>, level: int, n: int) -> Seq<int>
    decreases n,
{
    if n <= 0 {
        Seq::empty()
    } else if tier(tables[n - 1]) == level {
        on_level(tables, level, n - 1).push(n - 1)
    } else {
        on_level(tables, level, n - 1)
    }
}

/// Those places whose tables overlap a range of keys.
pub open spec fn overlapping(
    tables: Seq<TableView>,
    places: Seq<int>,
    min: u128,
    max: u128,
) -> Seq<int>
    decreases places.len(),
{
    if places.len() == 0 {
        Seq::empty()
    } else if overlaps(tables[places.last()], min, max) {
        overlapping(tables, places.drop_last(), min, max).push(places.last())
    } else {
        overlapping(tables, places.drop_last(), min, max)
    }
}

/// The smallest key of the tables at some places; the largest number of none.
pub open spec fn lowest(tables: Seq<TableView>, places: Seq<int>) -> u128
    decreases places.len(),
{
    if places.len() == 0 {
        u128::MAX
    } else {
        let rest = lowest(tables, places.drop_last());
        let key = tables[places.last()].min_key;
        if key < rest {
            key
        } else {
            rest
        }
    }
}

/// The largest key of the tables at some places; 0 of none.
pub open spec fn highest(tables: Seq<TableView>, places: Seq<int>) -> u128
    decreases places.len(),
{
    if places.len() == 0 {
        0
    } else {
        let rest = highest(tables, places.drop_last());
        let key = tables[places.last()].max_key;
        if key > rest {
            key
        } else {
            rest
        }
    }
}

/// The next step: all tables of level 0, once there are enough, with those of level 1 that overlap
/// them; else, once level 1 is full, its first table with those of level 2 that overlap it.
pub open spec fn plan_for(tables: Seq<TableView>, l0_trigger: nat) -> Option<PlanView> {
    let n = tables.len() as int;
    let l0 = on_level(tables, 0, n);
    let l1 = on_level(tables, 1, n);
    let l2 = on_level(tables, 2, n);
    if l0.len() >= l0_trigger {
        if l0.len() == 0 {
            None
        } else {
            Some(
                PlanView {
                    inputs: l0 + overlapping(tables, l1, lowest(tables, l0), highest(tables, l0)),
                    output_level: 1,
                    is_bottom_level: l2.len() == 0,
                },
            )
        }
    } else if l1.len() >= L1_TRIGGER {
        let first = tables[l1[0]];
        Some(
            PlanView {
                inputs: seq![l1[0]] + overlapping(tables, l2, first.min_key, first.max_key),
                output_level: 2,
                is_bottom_level: true,
            },
        )
    } else {
        None
    }
}

/// Every place lies in the list.
pub open spec fn places_in(places: Seq<int>, n: int) -> bool {
    forall|i: int| 0 <= i < places.len() ==> 0 <= #[trigger] places[i] < n
}

proof fn lemma_on_level_in(tables: Seq<TableView>, level: int, n: int)
    requires
        0 <= n <= tables.len(),
    ensures
        places_in(on_level(tables, level, n), n),
    decreases n,
{
    if n > 0 {
        lemma_on_level_in(tables, level, n - 1);
    }
}

fn append_overlapping(
    tables: &Vec<SsTable>,
    places: &Vec<usize>,
    min: PlayerId,
    max: PlayerId,
    out: &mut Vec<usize>,
)
    requires
        places_in(places_view(places@), tables@.len() as int),
    ensures
        places_view(final(out)@) == places_view(old(out)@) + overlapping(
            iterator::tables_view(tables@),
            places_view(places@),
            min.0,
            max.0,
        ),
{
    let ghost view = iterator::tables_view(tables@);
    let ghost pv = places_view(places@);
    let ghost start = places_view(out@);
    let mut i: usize = 0;
    assert(pv.take(0) =~= Seq::empty());
    assert(start + overlapping(view, pv.take(0), min.0, max.0) =~= start);
    while i < places.len()
        invariant
            i <= places@.len(),
            view == iterator::tables_view(tables@),
            pv == places_view(places@),
            places_in(pv, tables@.len() as int),
            places_view(out@) == start + overlapping(view, pv.take(i as int), min.0, max.0),
        decreases places@.len() - i,
    {
        let at: usize = places[i];
        proof {
            assert(pv[i as int] == at);
            assert(pv.take(i + 1).drop_last() =~= pv.take(i as int));
        }
        let t = &tables[at];
        if t.max_key().0 >= min.0 && t.min_key().0 <= max.0 {
            let ghost before = places_view(out@);
            out.push(at);
            assert(places_view(out@) =~= before.push(at as int));
            assert(before.push(at as int) =~= start + overlapping(
                view,
                pv.take(i as int),
                min.0,
                max.0,
            ).push(at as int));
        }
        i = i + 1;
    }
    assert(pv.take(i as int) =~= pv);
}

fn key_span(tables: &Vec<SsTable>, places: &Vec<usize>) -> (r: (PlayerId, PlayerId))
    requires
        places_in(places_view(places@), tables@.len() as int),
    ensures
        r.0.0 == lowest(iterator::tables_view(tables@), places_view(places@)),
        r.1.0 == highest(iterator::tables_view(tables@), places_view(places@)),
{
    let ghost view = iterator::tables_view(tables@);
    let ghost pv = places_view(places@);
    let mut min: u128 = u128::MAX;
    let mut max: u128 = 0;
    let mut i: usize = 0;
    assert(pv.take(0) =~= Seq::empty());
    while i < places.len()
        invariant
            i <= places@.len(),
            view == iterator::tables_view(tables@),
            pv == places_view(places@),
            places_in(pv, tables@.len() as int),
            min == lowest(view, pv.take(i as int)),
            max == highest(view, pv.take(i as int)),
        decreases places@.len() - i,
    {
        let at: usize = places[i];
        proof {
            assert(pv[i as int] == at);
            assert(pv.take(i + 1).drop_last() =~= pv.take(i as int));
        }
        let lo = tables[at].min_key();
        let hi = tables[at].max_key();
        if lo.0 < min {
            min = lo.0;
        }
        if hi.0 > max {
            max = hi.0;
        }
        i = i + 1;
    }
    assert(pv.take(i as int) =~= pv);
    (PlayerId(min), PlayerId(max))
}

// ---------------------------------------------------------------------------------------------
// Merging
// ---------------------------------------------------------------------------------------------
/// What stays of merged entries: all, or, where nothing older is left, those that hold a value.
pub open spec fn kept(s: Seq<(u128, EntryView)>, is_bottom_level: bool) -> Seq<(u128, EntryView)>
    decreases s.len(),
{
    if s.len() == 0 {
        Seq::empty()
    } else if is_bottom_level && s.last().1.value is None {
        kept(s.drop_last(), is_bottom_level)
    } else {
        kept(s.drop_last(), is_bottom_level).push(s.last())
    }
}

proof fn lemma_kept_concat(
    a: Seq<(u128, EntryView)>,
    b: Seq<(u128, EntryView)>,
    is_bottom_level: bool,
)
    ensures
        kept(a + b, is_bottom_level) == kept(a, is_bottom_level) + kept(b, is_bottom_level),
    decreases b.len(),
{
    if b.len() == 0 {
        assert(a + b =~= a);
        assert(kept(a, is_bottom_level) + kept(b, is_bottom_level) =~= kept(a, is_bottom_level));
    } else {
        lemma_kept_concat(a, b.drop_last(), is_bottom_level);
        assert((a + b).drop_last() =~= a + b.drop_last());
        assert(kept(a + b, is_bottom_level) =~= kept(a, is_bottom_level) + kept(
            b,
            is_bottom_level,
        ));
    }
}

proof fn lemma_kept_one(item: (u128, EntryView), is_bottom_level: bool)
    ensures
        kept(seq![item], is_bottom_level) == (if is_bottom_level && item.1.value is None {
            Seq::empty()
        } else {
            seq![item]
        }),
{
    assert(seq![item].drop_last() =~= Seq::empty());
    assert(kept(seq![item].drop_last(), is_bottom_level) =~= Seq::empty());
    assert(kept(seq![item], is_bottom_level) =~= (if is_bottom_level && item.1.value is None {
        Seq::empty()
    } else {
        seq![item]
    }));
}

/// The merged entries of some tables, one by one.
pub struct CompactionStreamIter {
    merge: MergingIter,
    is_bottom_level: bool,
}

impl CompactionStreamIter {
    pub closed spec fn wf(&self) -> bool {
        self.merge.wf()
    }

    /// What is still to come.
    pub closed spec fn rest(&self) -> Seq<(u128, EntryView)> {
        kept(iterator::merged(self.merge.rest()), self.is_bottom_level)
    }

    pub fn new(sources: Vec<Vec<(PlayerId, ValueEntry)>>, is_bottom_level: bool) -> (r: Self)
        ensures
            r.wf(),
            r.rest() == kept(iterator::merged(iterator::sources_view(sources@)), is_bottom_level),
    {
        CompactionStreamIter { merge: MergingIter::over(sources), is_bottom_level }
    }

    pub fn next(&mut self) -> (r: Option<(PlayerId, ValueEntry)>)
        requires
            old(self).wf(),
        ensures
            final(self).wf(),
            match r {
                None => old(self).rest().len() == 0,
                Some((key, e)) => old(self).rest() == seq![(key.0, e@)] + final(self).rest(),
            },
    {
        loop
            invariant
                self.wf(),
                old(self).rest() == self.rest(),
                self.is_bottom_level == old(self).is_bottom_level,
            decreases iterator::item_count(self.merge.rest(), self.merge.rest().len() as int),
        {
            let ghost before = iterator::merged(self.merge.rest());
            match self.merge.next() {
                None => {
                    assert(before =~= Seq::empty());
                    return None;
                },
                Some((key, entry)) => {
                    proof {
                        let item = (key.0, entry@);
                        let tail = iterator::merged(self.merge.rest());
                        lemma_kept_concat(seq![item], tail, self.is_bottom_level);
                        lemma_kept_one(item, self.is_bottom_level);
                        assert(Seq::empty() + kept(tail, self.is_bottom_level) =~= kept(
                            tail,
                            self.is_bottom_level,
                        ));
                    }
                    if !(self.is_bottom_level && entry.is_tombstone()) {
                        return Some((key, entry));
                    }
                },
            }
        }
    }
}

/// All entries of the tables at the first `n` places.
pub open spec fn input_sources(
    tables: Seq<TableView>,
    files: spec_fn(u64) -> FileView,
    places: Seq<int>,
    n: int,
) -> core::result::Result<Seq<Seq<(u128, EntryView)>>, ErrorView>
    decreases n,
{
    if n <= 0 {
        Ok(Seq::empty())
    } else {
        let t = tables[places[n - 1]];
        match input_sources(tables, files, places, n - 1) {
            Err(e) => Err(e),
            Ok(head) => match sstable::table_entries(t, files(t.id)) {
                Err(e) => Err(e),
                Ok(all) => Ok(head.push(all)),
            },
        }
    }
}

/// What merging the tables at some places gives.
pub open spec fn compacted(
    tables: Seq<TableView>,
    files: spec_fn(u64) -> FileView,
    places: Seq<int>,
    is_bottom_level: bool,
) -> core::result::Result<Seq<(u128, EntryView)>, ErrorView> {
    match input_sources(tables, files, places, places.len() as int) {
        Err(e) => Err(e),
        Ok(sources) => Ok(kept(iterator::merged(sources), is_bottom_level)),
    }
}

proof fn lemma_input_sources_stop(
    tables: Seq<TableView>,
    files: spec_fn(u64) -> FileView,
    places: Seq<int>,
    n: int,
    m: int,
)
    requires
        0 <= n <= m,
        input_sources(tables, files, places, n) is Err,
    ensures
        input_sources(tables, files, places, m) == input_sources(tables, files, places, n),
    decreases m - n,
{
    if n < m {
        lemma_input_sources_stop(tables, files, places, n, m - 1);
    }
}

/// The tables at some places may have been read so: one after the other, all of them, or up to an
/// error.
pub open spec fn inputs_read(
    can: Reads,
    tables: Seq<TableView>,
    places: Seq<int>,
    got: Seq<core::result::Result<Seq<(u128, EntryView)>, ErrorView>>,
) -> bool {
    &&& got.len() <= places.len()
    &&& forall|k: int|
        0 <= k < got.len() ==> sstable::entries_give(can, tables[places[k]], #[trigger] got[k])
    &&& got.len() == places.len() || sstable::gathered(got) is Err
}

/// What is kept of merged sources.
pub open spec fn kept_of(
    sources: core::result::Result<Seq<Seq<(u128, EntryView)>>, ErrorView>,
    is_bottom_level: bool,
) -> core::result::Result<Seq<(u128, EntryView)>, ErrorView> {
    match sources {
        Err(e) => Err(e),
        Ok(s) => Ok(kept(iterator::merged(s), is_bottom_level)),
    }
}

/// What merging the tables at some places may give.
pub open spec fn merge_gives(
    can: Reads,
    tables: Seq<TableView>,
    places: Seq<int>,
    is_bottom_level: bool,
    r: core::result::Result<Seq<(u128, EntryView)>, ErrorView>,
) -> bool {
    exists|got: Seq<core::result::Result<Seq<(u128, EntryView)>, ErrorView>>| #[trigger]
        inputs_read(can, tables, places, got) && r == kept_of(
            sstable::gathered(got),
            is_bottom_level,
        )
}

proof fn lemma_inputs_fixed(
    can: Reads,
    files: spec_fn(u64) -> FileView,
    tables: Seq<TableView>,
    places: Seq<int>,
    got: Seq<core::result::Result<Seq<(u128, EntryView)>, ErrorView>>,
)
    requires
        sstable::within(can, sstable::fixed(files)),
        got.len() <= places.len(),
        forall|k: int|
            0 <= k < got.len() ==> sstable::entries_give(can, tables[places[k]], #[trigger] got[k]),
    ensures
        sstable::gathered(got) == input_sources(tables, files, places, got.len() as int),
    decreases got.len(),
{
    if got.len() > 0 {
        let head = got.drop_last();
        let last = got.len() - 1;
        assert forall|k: int| 0 <= k < head.len() implies sstable::entries_give(
            can,
            tables[places[k]],
            #[trigger] head[k],
        ) by {
            assert(head[k] == got[k]);
        }
        lemma_inputs_fixed(can, files, tables, places, head);
        assert(got.last() == got[last]);
        sstable::lemma_entries_fixed(can, files, tables[places[last]], got[last]);
    }
}

/// Where reads are fixed, merging the tables at some places gives one thing.
pub proof fn lemma_merge_fixed(
    can: Reads,
    files: spec_fn(u64) -> FileView,
    tables: Seq<TableView>,
    places: Seq<int>,
    is_bottom_level: bool,
    r: core::result::Result<Seq<(u128, EntryView)>, ErrorView>,
)
    requires
        sstable::within(can, sstable::fixed(files)),
        merge_gives(can, tables, places, is_bottom_level, r),
    ensures
        r == compacted(tables, files, places, is_bottom_level),
{
    let got = choose|got: Seq<core::result::Result<Seq<(u128, EntryView)>, ErrorView>>| #[trigger]
        inputs_read(can, tables, places, got) && r == kept_of(
            sstable::gathered(got),
            is_bottom_level,
        );
    lemma_inputs_fixed(can, files, tables, places, got);
    if got.len() < places.len() {
        lemma_input_sources_stop(tables, files, places, got.len() as int, places.len() as int);
    }
}

/// The number of entries of the tables at some places, as their footers tell; it wraps around.
pub open spec fn entry_total(tables: Seq<TableView>, places: Seq<int>) -> u64
    decreases places.len(),
{
    if places.len() == 0 {
        0
    } else {
        entry_total(tables, places.drop_last()).wrapping_add(tables[places.last()].entry_count)
    }
}

/// Plans and runs compactions.
pub struct Compactor;

impl Compactor {
    /// Plans the next step.
    pub fn pick_compaction(tables: &Vec<SsTable>, l0_trigger: usize) -> (r: Option<CompactionPlan>)
        ensures
            match r {
                Some(p) => plan_for(iterator::tables_view(tables@), l0_trigger as nat) == Some(p@)
                    && places_in(p@.inputs, tables@.len() as int),
                None => plan_for(iterator::tables_view(tables@), l0_trigger as nat) is None,
            },
    {
        let ghost view = iterator::tables_view(tables@);
        let mut l0: Vec<usize> = Vec::new();
        let mut l1: Vec<usize> = Vec::new();
        let mut l2: Vec<usize> = Vec::new();
        let mut i: usize = 0;
        assert(places_view(l0@) =~= Seq::empty());
        while i < tables.len()
            invariant
                i <= tables@.len(),
                view == iterator::tables_view(tables@),
                places_view(l0@) == on_level(view, 0, i as int),
                places_view(l1@) == on_level(view, 1, i as int),
                places_view(l2@) == on_level(view, 2, i as int),
            decreases tables@.len() - i,
        {
            let ghost b0 = places_view(l0@);
            let ghost b1 = places_view(l1@);
            let ghost b2 = places_view(l2@);
            let level: u32 = tables[i].level();
            if level == 0 {
                l0.push(i);
                assert(places_view(l0@) =~= b0.push(i as int));
            } else if level == 1 {
                l1.push(i);
                assert(places_view(l1@) =~= b1.push(i as int));
            } else {
                l2.push(i);
                assert(places_view(l2@) =~= b2.push(i as int));
            }
            i = i + 1;
        }
        let ghost n = tables@.len() as int;
        proof {
            lemma_on_level_in(view, 0, n);
            lemma_on_level_in(view, 1, n);
            lemma_on_level_in(view, 2, n);
        }
        if l0.len() >= l0_trigger {
            if l0.len() == 0 {
                return None;
            }
            let (min, max) = key_span(tables, &l0);
            let mut inputs = l0;
            append_overlapping(tables, &l1, min, max, &mut inputs);
            proof {
                lemma_overlapping_in(view, places_view(l1@), min.0, max.0, n);
            }
            return Some(
                CompactionPlan { inputs, output_level: 1, is_bottom_level: l2.len() == 0 },
            );
        }
        if l1.len() >= L1_TRIGGER {
            let at: usize = l1[0];
            assert(places_view(l1@)[0] == at);
            let min = tables[at].min_key();
            let max = tables[at].max_key();
            let mut inputs: Vec<usize> = Vec::new();
            inputs.push(at);
            assert(places_view(inputs@) =~= seq![at as int]);
            append_overlapping(tables, &l2, min, max, &mut inputs);
            proof {
                lemma_overlapping_in(view, places_view(l2@), min.0, max.0, n);
            }
            return Some(CompactionPlan { inputs, output_level: 2, is_bottom_level: true });
        }
        None
    }

    /// The number of entries of the tables at some places.
    pub fn estimated_entries(tables: &Vec<SsTable>, inputs: &Vec<usize>) -> (r: u64)
        requires
            places_in(places_view(inputs@), tables@.len() as int),
        ensures
            r == entry_total(iterator::tables_view(tables@), places_view(inputs@)),
    {
        let ghost view = iterator::tables_view(tables@);
        let ghost pv = places_view(inputs@);
        let mut total: u64 = 0;
        let mut i: usize = 0;
        assert(pv.take(0) =~= Seq::empty());
        while i < inputs.len()
            invariant
                i <= inputs@.len(),
                view == iterator::tables_view(tables@),
                pv == places_view(inputs@),
                places_in(pv, tables@.len() as int),
                total == entry_total(view, pv.take(i as int)),
            decreases inputs@.len() - i,
        {
            let at: usize = inputs[i];
            proof {
                assert(pv[i as int] == at);
                assert(pv.take(i + 1).drop_last() =~= pv.take(i as int));
            }
            total = total.wrapping_add(tables[at].entry_count());
            i = i + 1;
        }
        assert(pv.take(i as int) =~= pv);
        total
    }

    /// Merges the tables at some places.
    pub fn merge<R: Fn(u64, u64, u64) -> Result<Vec<u8>>>(
        tables: &Vec<SsTable>,
        inputs: &Vec<usize>,
        is_bottom_level: bool,
        read: &R,
    ) -> (r: Result<Vec<(PlayerId, ValueEntry)>>)
        requires
            places_in(places_view(inputs@), tables@.len() as int),
            sstable::can_read(*read),
        ensures
            merge_gives(
                sstable::outcomes(*read),
                iterator::tables_view(tables@),
                places_view(inputs@),
                is_bottom_level,
                sstable::entries_result(r),
            ),
    {
        let ghost view = iterator::tables_view(tables@);
        let ghost pv = places_view(inputs@);
        let ghost can = sstable::outcomes(*read);
        let ghost mut heard: Seq<core::result::Result<Seq<(u128, EntryView)>, ErrorView>> =
            Seq::empty();
        let mut sources: Vec<Vec<(PlayerId, ValueEntry)>> = Vec::new();
        let mut i: usize = 0;
        assert(iterator::sources_view(sources@) =~= Seq::empty());
        while i < inputs.len()
            invariant
                i <= inputs@.len(),
                view == iterator::tables_view(tables@),
                pv == places_view(inputs@),
                places_in(pv, tables@.len() as int),
                sstable::can_read(*read),
                can == sstable::outcomes(*read),
                heard.len() == i,
                forall|k: int|
                    0 <= k < i ==> sstable::entries_give(can, view[pv[k]], #[trigger] heard[k]),
                sstable::gathered(heard) == Ok::<Seq<Seq<(u128, EntryView)>>, ErrorView>(
                    iterator::sources_view(sources@),
                ),
            decreases inputs@.len() - i,
        {
            let at: usize = inputs[i];
            assert(pv[i as int] == at);
            let ghost before = iterator::sources_view(sources@);
            let ghost old_heard = heard;
            let got = tables[at].read_all_entries(read);
            proof {
                heard = old_heard.push(sstable::entries_result(got));
                assert(heard.drop_last() =~= old_heard);
            }
            match got {
                Err(e) => {
                    assert(inputs_read(can, view, pv, heard));
                    return Err(e);
                },
                Ok(v) => {
                    let ghost item = types::entries_view(v@);
                    sources.push(v);
                    assert(iterator::sources_view(sources@) =~= before.push(item));
                },
            }
            i = i + 1;
        }
        assert(inputs_read(can, view, pv, heard));
        let ghost all = kept(iterator::merged(iterator::sources_view(sources@)), is_bottom_level);
        let mut stream = CompactionStreamIter::new(sources, is_bottom_level);
        let mut out: Vec<(PlayerId, ValueEntry)> = Vec::new();
        assert(types::entries_view(out@) + all =~= all);
        loop
            invariant_except_break
                stream.wf(),
                all == types::entries_view(out@) + stream.rest(),
            ensures
                all == types::entries_view(out@),
            decreases stream.rest().len(),
        {
            match stream.next() {
                None => {
                    assert(all =~= types::entries_view(out@));
                    break ;
                },
                Some((key, e)) => {
                    let ghost held = types::entries_view(out@);
                    let ghost item = (key.0, e@);
                    out.push((key, e));
                    proof {
                        assert(types::entries_view(out@) =~= held.push(item));
                        assert(held + (seq![item] + stream.rest()) =~= held.push(item)
                            + stream.rest());
                    }
                },
            }
        }
        Ok(out)
    }

    /// Merges the tables at some places into the file of a new table. Of no tables, or where
    /// nothing stays, none is made.
    pub fn compact<R: Fn(u64, u64, u64) -> Result<Vec<u8>>>(
        tables: &Vec<SsTable>,
        inputs: &Vec<usize>,
        is_bottom_level: bool,
        builder: SsTableBuilder,
        bloom: BloomFilter,
        read: &R,
    ) -> (r: Result<Option<(Bytes, SsTable)>>)
        requires
            places_in(places_view(inputs@), tables@.len() as int),
            sstable::can_read(*read),
            bloom.wf(),
            bloom@.bytes.len() > 0,
        ensures
            exists|m: core::result::Result<Seq<(u128, EntryView)>, ErrorView>| #[trigger]
                merge_gives(
                    sstable::outcomes(*read),
                    iterator::tables_view(tables@),
                    places_view(inputs@),
                    is_bottom_level,
                    m,
                ) && compact_gives(m, builder, bloom@, r),
            r matches Ok(Some(out)) ==> out.1.wf(),
    {
        let ghost pv = places_view(inputs@);
        let ghost view = iterator::tables_view(tables@);
        let ghost can = sstable::outcomes(*read);
        if inputs.len() == 0 {
            proof {
                lemma_merged_nothing();
                let none: Seq<core::result::Result<Seq<(u128, EntryView)>, ErrorView>> =
                    Seq::empty();
                assert(inputs_read(can, view, pv, none));
                let m = kept_of(sstable::gathered(none), is_bottom_level);
                assert(merge_gives(can, view, pv, is_bottom_level, m));
                assert(m == Ok::<Seq<(u128, EntryView)>, ErrorView>(Seq::empty()));
            }
            return Ok(None);
        }
        let got = Compactor::merge(tables, inputs, is_bottom_level, read);
        let ghost m = sstable::entries_result(got);
        assert(merge_gives(can, view, pv, is_bottom_level, m));
        let entries = match got {
            Ok(v) => v,
            Err(e) => return Err(e),
        };
        if entries.len() == 0 {
            return Ok(None);
        }
        if !SsTableBuilder::fits(&entries, bloom.byte_len()) {
            return Err(DbError::Io(TOO_LARGE.to_owned()));
        }
        builder.build(&entries, bloom)
    }
}

/// What a compaction gives, given the merged entries.
pub open spec fn compact_gives(
    merged: core::result::Result<Seq<(u128, EntryView)>, ErrorView>,
    builder: SsTableBuilder,
    bloom: bloom_filter::BloomView,
    r: Result<Option<(Bytes, SsTable)>>,
) -> bool {
    match merged {
        Err(e) => r matches Err(err) && err@ == e,
        Ok(s) => if s.len() == 0 {
            r == Ok::<Option<(Bytes, SsTable)>, DbError>(None)
        } else if !sstable::file_fits(s, bloom.bytes.len()) {
            r matches Err(err) && err@ == ErrorView::Io(TOO_LARGE@)
        } else {
            exists|filter: bloom_filter::BloomView| #[trigger]
                sstable::built(builder, s, bloom, filter, r)
        },
    }
}

proof fn lemma_merged_nothing()
    ensures
        iterator::merged(Seq::empty()) == Seq::<(u128, EntryView)>::empty(),
{
}

proof fn lemma_overlapping_in(
    tables: Seq<TableView>,
    places: Seq<int>,
    min: u128,
    max: u128,
    n: int,
)
    requires
        places_in(places, n),
    ensures
        places_in(overlapping(tables, places, min, max), n),
    decreases places.len(),
{
    if places.len() > 0 {
        assert(places.last() == places[places.len() - 1]);
        assert forall|i: int| 0 <= i < places.drop_last().len() implies 0
            <= #[trigger] places.drop_last()[i] < n by {
            assert(places.drop_last()[i] == places[i]);
        }
        lemma_overlapping_in(tables, places.drop_last(), min, max, n);
    }
}

} // verus!
