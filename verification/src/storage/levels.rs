//! The order that holds among the tables of an engine: newer entries stand before older ones, and
//! below the first level no two tables overlap. Compactions keep it, and change no read.
use vstd::prelude::*;

use crate::storage::bloom_filter::BloomView;
use crate::storage::compaction::PlanView;
use crate::storage::sstable::{FileView, TableView};
use crate::storage::{compaction, engine, iterator, sstable};
use crate::types::{EntryView, ErrorView};

verus! {

// ---------------------------------------------------------------------------------------------
// The order
// ---------------------------------------------------------------------------------------------
/// A file holds some entries: it can be read, each entry is found under its key, and the keys lie
/// between the smallest and the largest that the table names.
pub open spec fn holds(t: TableView, file: FileView, s: Seq<(u128, EntryView)>) -> bool {
    &&& sstable::table_entries(t, file) == Ok::<Seq<(u128, EntryView)>, ErrorView>(s)
    &&& sstable::ascending(s)
    &&& forall|key: u128| #[trigger]
        sstable::table_find(t, file, key) == Ok::<Option<EntryView>, ErrorView>(
            sstable::lookup(s, key),
        )
    &&& forall|i: int| 0 <= i < s.len() ==> t.min_key <= (#[trigger] s[i]).0 <= t.max_key
}

/// A file can be read.
pub open spec fn readable(t: TableView, file: FileView) -> bool {
    exists|s: Seq<(u128, EntryView)>| #[trigger] holds(t, file, s)
}

/// The entry under a key in a table that can be read.
pub open spec fn found(t: TableView, files: spec_fn(u64) -> FileView, key: u128) -> Option<EntryView> {
    match sstable::table_find(t, files(t.id), key) {
        Ok(e) => e,
        Err(_) => None,
    }
}

/// One table stands before another: on a level above, or on the same level with a higher number.
pub open spec fn precedes(a: TableView, b: TableView) -> bool {
    a.level < b.level || a.level == b.level && a.id > b.id
}

/// The keys of two tables lie apart.
pub open spec fn apart(a: TableView, b: TableView) -> bool {
    a.max_key < b.min_key || b.max_key < a.min_key
}

/// What holds of two tables of which the first precedes the second.
pub open spec fn pair_ok(a: TableView, b: TableView) -> bool {
    &&& precedes(a, b)
    &&& a.id != b.id
    &&& a.path != b.path
    &&& a.level == b.level && a.level > 0 ==> apart(a, b)
}

/// The order among the tables of an engine.
pub open spec fn in_order(tables: Seq<TableView>, files: spec_fn(u64) -> FileView) -> bool {
    &&& forall|i: int|
        0 <= i < tables.len() ==> (#[trigger] tables[i]).level <= 2 && tables[i].min_key
            <= tables[i].max_key && readable(tables[i], files(tables[i].id))
    &&& forall|i: int, j: int|
        0 <= i < j < tables.len() ==> pair_ok(#[trigger] tables[i], #[trigger] tables[j])
}

// ---------------------------------------------------------------------------------------------
// The first table that has a key
// ---------------------------------------------------------------------------------------------
/// The first of two entries that is there.
pub open spec fn either(a: Option<EntryView>, b: Option<EntryView>) -> Option<EntryView> {
    match a {
        Some(e) => Some(e),
        None => b,
    }
}

/// The entry under a key in the first table that has one.
pub open spec fn first_in(s: Seq<TableView>, files: spec_fn(u64) -> FileView, key: u128) -> Option<
    EntryView,
>
    decreases s.len(),
{
    if s.len() == 0 {
        None
    } else {
        either(first_in(s.drop_last(), files, key), found(s.last(), files, key))
    }
}

/// No table has a newer entry under a key than the first table that has one.
pub open spec fn settled(
    tables: Seq<TableView>,
    files: spec_fn(u64) -> FileView,
    key: u128,
) -> bool {
    first_in(tables, files, key) matches Some(e) ==> forall|j: int|
        0 <= j < tables.len() && found(#[trigger] tables[j], files, key) is Some ==> found(
            tables[j],
            files,
            key,
        ).unwrap().seq_num <= e.seq_num
}

proof fn lemma_in_tables(
    tables: Seq<TableView>,
    files: spec_fn(u64) -> FileView,
    key: u128,
    i: int,
)
    requires
        0 <= i <= tables.len(),
        forall|j: int|
            0 <= j < tables.len() ==> readable(#[trigger] tables[j], files(tables[j].id)),
    ensures
        engine::in_tables(tables, files, key, 0) == (match first_in(tables.take(i), files, key) {
            Some(e) => Ok::<Option<EntryView>, ErrorView>(Some(e)),
            None => engine::in_tables(tables, files, key, i),
        }),
    decreases i,
{
    if i == 0 {
        assert(tables.take(0) =~= Seq::empty());
    } else {
        lemma_in_tables(tables, files, key, i - 1);
        assert(tables.take(i).drop_last() =~= tables.take(i - 1));
        assert(tables.take(i).last() == tables[i - 1]);
        let t = tables[i - 1];
        let s = choose|s: Seq<(u128, EntryView)>| #[trigger] holds(t, files(t.id), s);
        assert(sstable::table_find(t, files(t.id), key) == Ok::<Option<EntryView>, ErrorView>(
            sstable::lookup(s, key),
        ));
    }
}

/// A lookup in tables that can be read gives the entry of the first that has one.
pub proof fn lemma_lookup_is_first(
    tables: Seq<TableView>,
    files: spec_fn(u64) -> FileView,
    key: u128,
)
    requires
        forall|j: int|
            0 <= j < tables.len() ==> readable(#[trigger] tables[j], files(tables[j].id)),
    ensures
        engine::in_tables(tables, files, key, 0) == Ok::<Option<EntryView>, ErrorView>(
            first_in(tables, files, key),
        ),
{
    lemma_in_tables(tables, files, key, tables.len() as int);
    assert(tables.take(tables.len() as int) =~= tables);
}

/// The place of the first table that has a key.
pub proof fn lemma_first_place(s: Seq<TableView>, files: spec_fn(u64) -> FileView, key: u128) -> (r: int)
    ensures
        match first_in(s, files, key) {
            None => forall|i: int| 0 <= i < s.len() ==> found(#[trigger] s[i], files, key) is None,
            Some(e) => 0 <= r < s.len() && found(s[r], files, key) == Some(e) && forall|i: int|
                0 <= i < r ==> found(#[trigger] s[i], files, key) is None,
        },
    decreases s.len(),
{
    if s.len() == 0 {
        0
    } else {
        let head = s.drop_last();
        let r = lemma_first_place(head, files, key);
        match first_in(head, files, key) {
            None => {
                assert forall|i: int| 0 <= i < s.len() - 1 implies found(
                    #[trigger] s[i],
                    files,
                    key,
                ) is None by {
                    assert(head[i] == s[i]);
                }
                s.len() - 1
            },
            Some(e) => {
                assert(s[r] == head[r]);
                assert forall|i: int| 0 <= i < r implies found(#[trigger] s[i], files, key) is None by {
                    assert(head[i] == s[i]);
                }
                r
            },
        }
    }
}

/// The first table that has a key is the one before which none has it.
pub proof fn lemma_first_is(
    s: Seq<TableView>,
    files: spec_fn(u64) -> FileView,
    key: u128,
    at: int,
)
    requires
        0 <= at < s.len(),
        found(s[at], files, key) is Some,
        forall|i: int| 0 <= i < at ==> found(#[trigger] s[i], files, key) is None,
    ensures
        first_in(s, files, key) == found(s[at], files, key),
{
    let r = lemma_first_place(s, files, key);
    match first_in(s, files, key) {
        None => {
            assert(found(s[at], files, key) is None);
        },
        Some(_) => {
            if r < at {
                assert(found(s[r], files, key) is None);
            }
            if at < r {
                assert(found(s[at], files, key) is None);
            }
        },
    }
}

// ---------------------------------------------------------------------------------------------
// Tables taken out, and one put in
// ---------------------------------------------------------------------------------------------
/// A table is among those whose files go.
pub open spec fn goes(tables: Seq<TableView>, paths: Seq<Seq<char>>, i: int) -> bool {
    paths.contains(tables[i].path)
}

proof fn lemma_first_push(
    s: Seq<TableView>,
    x: TableView,
    files: spec_fn(u64) -> FileView,
    key: u128,
)
    ensures
        first_in(s.push(x), files, key) == either(
            first_in(s, files, key),
            found(x, files, key),
        ),
{
    assert(s.push(x).drop_last() =~= s);
}

/// What stays is found among those that stay.
proof fn lemma_without_none(
    tables: Seq<TableView>,
    paths: Seq<Seq<char>>,
    files: spec_fn(u64) -> FileView,
    key: u128,
    n: int,
)
    requires
        0 <= n <= tables.len(),
        forall|x: int|
            0 <= x < n && !goes(tables, paths, x) ==> found(#[trigger] tables[x], files, key) is None,
    ensures
        first_in(engine::tables_without(tables, paths, n), files, key) is None,
    decreases n,
{
    if n > 0 {
        lemma_without_none(tables, paths, files, key, n - 1);
        if !goes(tables, paths, n - 1) {
            lemma_first_push(
                engine::tables_without(tables, paths, n - 1),
                tables[n - 1],
                files,
                key,
            );
        }
    }
}

/// The first of those that stay, once found, is found with more tables too.
proof fn lemma_without_more(
    tables: Seq<TableView>,
    paths: Seq<Seq<char>>,
    files: spec_fn(u64) -> FileView,
    key: u128,
    n: int,
    m: int,
)
    requires
        0 <= n <= m <= tables.len(),
        first_in(engine::tables_without(tables, paths, n), files, key) is Some,
    ensures
        first_in(engine::tables_without(tables, paths, m), files, key) == first_in(
            engine::tables_without(tables, paths, n),
            files,
            key,
        ),
    decreases m - n,
{
    if n < m {
        lemma_without_more(tables, paths, files, key, n, m - 1);
        if !goes(tables, paths, m - 1) {
            lemma_first_push(
                engine::tables_without(tables, paths, m - 1),
                tables[m - 1],
                files,
                key,
            );
        }
    }
}

/// Reads after a table was put in for those that went, where `at` is the first of those that has
/// the key.
proof fn lemma_reads_after(
    tables: Seq<TableView>,
    paths: Seq<Seq<char>>,
    t: TableView,
    files: spec_fn(u64) -> FileView,
    key: u128,
    at: int,
    n: int,
)
    requires
        0 <= at < tables.len(),
        0 <= n <= tables.len(),
        forall|i: int, j: int|
            0 <= i < j < tables.len() ==> (#[trigger] tables[i]).level <= (
            #[trigger] tables[j]).level,
        forall|x: int|
            0 <= x < tables.len() && !goes(tables, paths, x) && found(
                #[trigger] tables[x],
                files,
                key,
            ) is Some ==> (x < at && tables[x].level < t.level) || (x > at && tables[x].level
                > t.level),
    ensures
        ({
            let before = first_in(
                engine::tables_without(
                    tables,
                    paths,
                    if n < at {
                        n
                    } else {
                        at
                    },
                ),
                files,
                key,
            );
            let after = first_in(
                engine::placed(engine::tables_without(tables, paths, n), t),
                files,
                key,
            );
            &&& before is Some ==> after == before
            &&& before is None && found(t, files, key) is Some ==> after == found(t, files, key)
            &&& before is None && found(t, files, key) is None && (forall|x: int|
                at < x < tables.len() && !goes(tables, paths, x) ==> found(
                    #[trigger] tables[x],
                    files,
                    key,
                ) is None) ==> after is None
        }),
    decreases n,
{
    let rest = engine::tables_without(tables, paths, n);
    let low = if n < at {
        n
    } else {
        at
    };
    let before = first_in(engine::tables_without(tables, paths, low), files, key);
    lemma_first_push(rest, t, files, key);
    if n == 0 {
        assert(rest =~= Seq::empty());
        assert(engine::tables_without(tables, paths, low) =~= Seq::empty());
    } else {
        lemma_reads_after(tables, paths, t, files, key, at, n - 1);
        let fewer = engine::tables_without(tables, paths, n - 1);
        let last = tables[n - 1];
        if goes(tables, paths, n - 1) {
            assert(rest == fewer);
        } else {
            assert(rest == fewer.push(last));
            assert(rest.drop_last() =~= fewer);
            lemma_first_push(fewer, last, files, key);
            if engine::not_after(last, t) {
                assert(engine::placed(rest, t) == rest.push(t));
                if before is Some {
                    lemma_without_more(tables, paths, files, key, low, n);
                } else {
                    assert forall|x: int| 0 <= x < n && !goes(tables, paths, x) implies found(
                        #[trigger] tables[x],
                        files,
                        key,
                    ) is None by {
                        if found(tables[x], files, key) is Some {
                            if x > at {
                                assert(x < n - 1 ==> tables[x].level <= tables[n - 1].level);
                            } else {
                                lemma_without_has(tables, paths, files, key, low, x);
                            }
                        }
                    }
                    lemma_without_none(tables, paths, files, key, n);
                }
            } else {
                let inner = engine::placed(fewer, t);
                assert(engine::placed(rest, t) == inner.push(last));
                lemma_first_push(inner, last, files, key);
                if n <= at {
                    // The last table stands above the new one, so it does not have the key.
                    assert(found(last, files, key) is None);
                }
            }
        }
    }
}

/// A table that stays and has a key makes the lookup among those that stay succeed.
proof fn lemma_without_has(
    tables: Seq<TableView>,
    paths: Seq<Seq<char>>,
    files: spec_fn(u64) -> FileView,
    key: u128,
    n: int,
    x: int,
)
    requires
        0 <= x < n <= tables.len(),
        !goes(tables, paths, x),
        found(tables[x], files, key) is Some,
    ensures
        first_in(engine::tables_without(tables, paths, n), files, key) is Some,
    decreases n,
{
    if !goes(tables, paths, n - 1) {
        lemma_first_push(
            engine::tables_without(tables, paths, n - 1),
            tables[n - 1],
            files,
            key,
        );
    }
    if x < n - 1 {
        lemma_without_has(tables, paths, files, key, n - 1, x);
    }
}

/// Without an entry in the tables that went or in the new one, reads are those of the tables that
/// stay.
proof fn lemma_reads_untouched(
    tables: Seq<TableView>,
    paths: Seq<Seq<char>>,
    t: TableView,
    files: spec_fn(u64) -> FileView,
    key: u128,
    n: int,
)
    requires
        0 <= n <= tables.len(),
        found(t, files, key) is None,
        forall|x: int|
            0 <= x < tables.len() && goes(tables, paths, x) ==> found(
                #[trigger] tables[x],
                files,
                key,
            ) is None,
    ensures
        first_in(engine::placed(engine::tables_without(tables, paths, n), t), files, key)
            == first_in(tables.take(n), files, key),
        first_in(engine::tables_without(tables, paths, n), files, key) == first_in(
            tables.take(n),
            files,
            key,
        ),
    decreases n,
{
    let rest = engine::tables_without(tables, paths, n);
    lemma_first_push(rest, t, files, key);
    if n == 0 {
        assert(rest =~= Seq::empty());
        assert(tables.take(0) =~= Seq::empty());
    } else {
        lemma_reads_untouched(tables, paths, t, files, key, n - 1);
        let fewer = engine::tables_without(tables, paths, n - 1);
        let last = tables[n - 1];
        assert(tables.take(n).drop_last() =~= tables.take(n - 1));
        assert(tables.take(n).last() == last);
        if !goes(tables, paths, n - 1) {
            assert(rest == fewer.push(last));
            assert(rest.drop_last() =~= fewer);
            lemma_first_push(fewer, last, files, key);
            if !engine::not_after(last, t) {
                lemma_first_push(engine::placed(fewer, t), last, files, key);
            }
        }
    }
}

// ---------------------------------------------------------------------------------------------
// What a plan takes
// ---------------------------------------------------------------------------------------------
/// Places stand in ascending order.
pub open spec fn places_ascend(s: Seq<int>) -> bool {
    forall|i: int, j: int| 0 <= i < j < s.len() ==> #[trigger] s[i] < #[trigger] s[j]
}

/// A table's range of keys has a key.
pub open spec fn spans(t: TableView, key: u128) -> bool {
    t.min_key <= key <= t.max_key
}

/// A table that a step leaves alone, and one that it takes, both with a key in their ranges: the
/// first stands before and above the result, or after and below it; where tombstones go, not
/// after.
pub open spec fn sides(
    tables: Seq<TableView>,
    x: int,
    p: int,
    output_level: u32,
    is_bottom_level: bool,
) -> bool {
    ||| x < p && tables[x].level < output_level
    ||| x > p && tables[x].level > output_level && !is_bottom_level
}

/// A table lies to one side of all that a step takes.
pub open spec fn beside(tables: Seq<TableView>, inputs: Seq<int>, x: int) -> bool {
    ||| forall|p: int| #[trigger] inputs.contains(p) ==> tables[x].max_key < tables[p].min_key
    ||| forall|p: int| #[trigger] inputs.contains(p) ==> tables[p].max_key < tables[x].min_key
}

/// What a step takes, and how the rest lies to it.
pub open spec fn divides(tables: Seq<TableView>, plan: PlanView) -> bool {
    &&& compaction::places_in(plan.inputs, tables.len() as int)
    &&& places_ascend(plan.inputs)
    &&& 1 <= plan.output_level <= 2
    &&& forall|x: int|
        0 <= x < tables.len() && !(#[trigger] plan.inputs.contains(x)) && tables[x].level
            == plan.output_level ==> beside(tables, plan.inputs, x)
    &&& forall|x: int, p: int, key: u128|
        0 <= x < tables.len() && !plan.inputs.contains(x) && plan.inputs.contains(p) && #[trigger]
            spans(tables[x], key) && #[trigger] spans(tables[p], key) ==> sides(
            tables,
            x,
            p,
            plan.output_level,
            plan.is_bottom_level,
        )
}

/// The tables stand by level, and below the first level their keys lie apart.
pub open spec fn levelled(tables: Seq<TableView>) -> bool {
    &&& forall|i: int|
        0 <= i < tables.len() ==> (#[trigger] tables[i]).level <= 2 && tables[i].min_key
            <= tables[i].max_key
    &&& forall|i: int, j: int|
        0 <= i < j < tables.len() ==> (#[trigger] tables[i]).level <= (#[trigger] tables[j]).level
            && (tables[i].level == tables[j].level && tables[i].level > 0 ==> apart(
            tables[i],
            tables[j],
        ))
}

proof fn lemma_on_level(tables: Seq<TableView>, level: int, n: int)
    requires
        0 <= n <= tables.len(),
    ensures
        places_ascend(compaction::on_level(tables, level, n)),
        forall|i: int|
            #[trigger] compaction::on_level(tables, level, n).contains(i) <==> 0 <= i < n
                && compaction::tier(tables[i]) == level,
    decreases n,
{
    if n > 0 {
        let fewer = compaction::on_level(tables, level, n - 1);
        let all = compaction::on_level(tables, level, n);
        lemma_on_level(tables, level, n - 1);
        if compaction::tier(tables[n - 1]) == level {
            assert forall|i: int, j: int| 0 <= i < j < all.len() implies #[trigger] all[i]
                < #[trigger] all[j] by {
                assert(all[i] == fewer[i]);
                assert(fewer.contains(fewer[i]));
                if j < fewer.len() {
                    assert(all[j] == fewer[j]);
                }
            }
            assert forall|i: int| #[trigger] all.contains(i) <==> 0 <= i < n && compaction::tier(
                tables[i],
            ) == level by {
                lemma_push_contains(fewer, n - 1, i);
            }
        } else {
            assert forall|i: int| #[trigger] all.contains(i) <==> 0 <= i < n && compaction::tier(
                tables[i],
            ) == level by {
                assert(fewer.contains(i) <==> 0 <= i < n - 1 && compaction::tier(tables[i])
                    == level);
            }
        }
    } else {
        assert(compaction::on_level(tables, level, n) =~= Seq::empty());
    }
}

proof fn lemma_push_contains(s: Seq<int>, x: int, i: int)
    ensures
        s.push(x).contains(i) <==> s.contains(i) || i == x,
{
    if s.contains(i) {
        let j = choose|j: int| 0 <= j < s.len() && s[j] == i;
        assert(s.push(x)[j] == i);
    }
    if i == x {
        assert(s.push(x)[s.len() as int] == i);
    }
    if s.push(x).contains(i) {
        let j = choose|j: int| 0 <= j < s.push(x).len() && s.push(x)[j] == i;
        if j < s.len() {
            assert(s[j] == i);
        }
    }
}

proof fn lemma_concat_contains(a: Seq<int>, b: Seq<int>, i: int)
    ensures
        (a + b).contains(i) <==> a.contains(i) || b.contains(i),
{
    if a.contains(i) {
        let j = choose|j: int| 0 <= j < a.len() && a[j] == i;
        assert((a + b)[j] == i);
    }
    if b.contains(i) {
        let j = choose|j: int| 0 <= j < b.len() && b[j] == i;
        assert((a + b)[a.len() + j] == i);
    }
    if (a + b).contains(i) {
        let j = choose|j: int| 0 <= j < (a + b).len() && (a + b)[j] == i;
        if j < a.len() {
            assert(a[j] == i);
        } else {
            assert(b[j - a.len()] == i);
        }
    }
}

proof fn lemma_overlapping(tables: Seq<TableView>, places: Seq<int>, min: u128, max: u128)
    requires
        places_ascend(places),
    ensures
        places_ascend(compaction::overlapping(tables, places, min, max)),
        forall|i: int|
            #[trigger] compaction::overlapping(tables, places, min, max).contains(i)
                <==> places.contains(i) && compaction::overlaps(tables[i], min, max),
    decreases places.len(),
{
    let all = compaction::overlapping(tables, places, min, max);
    if places.len() > 0 {
        let head = places.drop_last();
        let last = places.last();
        assert(places =~= head.push(last));
        assert forall|i: int, j: int| 0 <= i < j < head.len() implies #[trigger] head[i]
            < #[trigger] head[j] by {
            assert(head[i] == places[i] && head[j] == places[j]);
        }
        lemma_overlapping(tables, head, min, max);
        let fewer = compaction::overlapping(tables, head, min, max);
        assert forall|i: int| #[trigger] all.contains(i) <==> places.contains(i)
            && compaction::overlaps(tables[i], min, max) by {
            lemma_push_contains(head, last, i);
            if compaction::overlaps(tables[last], min, max) {
                lemma_push_contains(fewer, last, i);
            }
        }
        if compaction::overlaps(tables[last], min, max) {
            assert forall|i: int, j: int| 0 <= i < j < all.len() implies #[trigger] all[i]
                < #[trigger] all[j] by {
                assert(all[i] == fewer[i]);
                assert(fewer.contains(fewer[i]));
                let k = choose|k: int| 0 <= k < head.len() && head[k] == fewer[i];
                assert(places[k] < places[places.len() - 1]);
                if j < fewer.len() {
                    assert(all[j] == fewer[j]);
                }
            }
        }
    } else {
        assert(all =~= Seq::empty());
    }
}

proof fn lemma_key_span(tables: Seq<TableView>, places: Seq<int>, p: int)
    requires
        places.contains(p),
    ensures
        compaction::lowest(tables, places) <= tables[p].min_key,
        compaction::highest(tables, places) >= tables[p].max_key,
    decreases places.len(),
{
    let head = places.drop_last();
    assert(places =~= head.push(places.last()));
    lemma_push_contains(head, places.last(), p);
    if head.contains(p) {
        lemma_key_span(tables, head, p);
    }
}

proof fn lemma_concat_ascends(a: Seq<int>, b: Seq<int>)
    requires
        places_ascend(a),
        places_ascend(b),
        forall|i: int, j: int| a.contains(i) && b.contains(j) ==> i < j,
    ensures
        places_ascend(a + b),
{
    let all = a + b;
    assert forall|i: int, j: int| 0 <= i < j < all.len() implies #[trigger] all[i]
        < #[trigger] all[j] by {
        if i < a.len() && j >= a.len() {
            assert(a.contains(all[i]));
            assert(b.contains(all[j]));
        } else if i >= a.len() {
            assert(all[i] == b[i - a.len()] && all[j] == b[j - a.len()]);
        }
    }
}

/// What a step takes lies apart from what it leaves, as far as the result can come between them.
pub proof fn lemma_plan_divides(tables: Seq<TableView>, l0_trigger: nat)
    requires
        levelled(tables),
        compaction::plan_for(tables, l0_trigger) is Some,
    ensures
        divides(tables, compaction::plan_for(tables, l0_trigger).unwrap()),
{
    let plan = compaction::plan_for(tables, l0_trigger).unwrap();
    let n = tables.len() as int;
    let l0 = compaction::on_level(tables, 0, n);
    let l1 = compaction::on_level(tables, 1, n);
    let l2 = compaction::on_level(tables, 2, n);
    lemma_on_level(tables, 0, n);
    lemma_on_level(tables, 1, n);
    lemma_on_level(tables, 2, n);
    if l0.len() >= l0_trigger {
        let lo = compaction::lowest(tables, l0);
        let hi = compaction::highest(tables, l0);
        let over = compaction::overlapping(tables, l1, lo, hi);
        lemma_overlapping(tables, l1, lo, hi);
        assert forall|i: int, j: int| l0.contains(i) && over.contains(j) implies i < j by {
            assert(l1.contains(j));
        }
        lemma_concat_ascends(l0, over);
        assert forall|i: int| 0 <= i < plan.inputs.len() implies 0 <= #[trigger] plan.inputs[i]
            < n by {
            assert(plan.inputs.contains(plan.inputs[i]));
            lemma_concat_contains(l0, over, plan.inputs[i]);
        }
        assert forall|x: int, p: int, key: u128|
            0 <= x < tables.len() && !plan.inputs.contains(x) && plan.inputs.contains(p)
                && #[trigger] spans(tables[x], key) && #[trigger] spans(
                tables[p],
                key,
            ) implies sides(tables, x, p, plan.output_level, plan.is_bottom_level) by {
            lemma_concat_contains(l0, over, x);
            lemma_concat_contains(l0, over, p);
            assert(l0.contains(x) <==> compaction::tier(tables[x]) == 0);
            assert(l1.contains(x) <==> compaction::tier(tables[x]) == 1);
            assert(l2.contains(x) <==> compaction::tier(tables[x]) == 2);
            if tables[x].level == 1 {
                if l0.contains(p) {
                    lemma_key_span(tables, l0, p);
                } else {
                    assert(over.contains(p) && l1.contains(p));
                    assert(x < p ==> apart(tables[x], tables[p]));
                    assert(p < x ==> apart(tables[p], tables[x]));
                }
            } else {
                assert(tables[x].level == 2);
                assert(over.contains(p) ==> l1.contains(p));
                assert(tables[p].level <= 1);
                assert(l2.len() > 0);
            }
        }
        assert forall|x: int|
            0 <= x < tables.len() && !(#[trigger] plan.inputs.contains(x)) && tables[x].level
                == plan.output_level implies beside(tables, plan.inputs, x) by {
            lemma_concat_contains(l0, over, x);
            assert(l1.contains(x));
            assert forall|p: int| #[trigger] plan.inputs.contains(p) implies if tables[x].max_key
                < lo {
                tables[x].max_key < tables[p].min_key
            } else {
                tables[p].max_key < tables[x].min_key
            } by {
                lemma_concat_contains(l0, over, p);
                if l0.contains(p) {
                    lemma_key_span(tables, l0, p);
                } else {
                    assert(l1.contains(p));
                    assert(x < p ==> apart(tables[x], tables[p]));
                    assert(p < x ==> apart(tables[p], tables[x]));
                }
            }
        }
    } else {
        let at = l1[0];
        let first = tables[at];
        let over = compaction::overlapping(tables, l2, first.min_key, first.max_key);
        assert(l1.contains(at));
        lemma_overlapping(tables, l2, first.min_key, first.max_key);
        let one = seq![at];
        assert forall|i: int| one.contains(i) <==> i == at by {
            if i == at {
                assert(one[0] == i);
            }
        }
        assert forall|i: int, j: int| one.contains(i) && over.contains(j) implies i < j by {
            assert(l2.contains(j));
        }
        lemma_concat_ascends(one, over);
        assert forall|i: int| 0 <= i < plan.inputs.len() implies 0 <= #[trigger] plan.inputs[i]
            < n by {
            assert(plan.inputs.contains(plan.inputs[i]));
            lemma_concat_contains(one, over, plan.inputs[i]);
            assert(over.contains(plan.inputs[i]) ==> l2.contains(plan.inputs[i]));
        }
        assert forall|x: int, p: int, key: u128|
            0 <= x < tables.len() && !plan.inputs.contains(x) && plan.inputs.contains(p)
                && #[trigger] spans(tables[x], key) && #[trigger] spans(
                tables[p],
                key,
            ) implies sides(tables, x, p, plan.output_level, plan.is_bottom_level) by {
            lemma_concat_contains(one, over, x);
            lemma_concat_contains(one, over, p);
            assert(l2.contains(x) <==> compaction::tier(tables[x]) == 2);
            assert(over.contains(p) ==> l2.contains(p));
            assert(x < p ==> tables[x].level <= tables[p].level);
            assert(p < x ==> tables[p].level <= tables[x].level);
            assert(x < p && tables[x].level == tables[p].level && tables[x].level > 0 ==> apart(
                tables[x],
                tables[p],
            ));
            assert(p < x && tables[x].level == tables[p].level && tables[x].level > 0 ==> apart(
                tables[p],
                tables[x],
            ));
        }
        assert forall|x: int|
            0 <= x < tables.len() && !(#[trigger] plan.inputs.contains(x)) && tables[x].level
                == plan.output_level implies beside(tables, plan.inputs, x) by {
            lemma_concat_contains(one, over, x);
            assert(l2.contains(x));
            assert forall|p: int| #[trigger] plan.inputs.contains(p) implies if tables[x].max_key
                < first.min_key {
                tables[x].max_key < tables[p].min_key
            } else {
                tables[p].max_key < tables[x].min_key
            } by {
                lemma_concat_contains(one, over, p);
                if p != at {
                    assert(l2.contains(p));
                    assert(x < p ==> apart(tables[x], tables[p]));
                    assert(p < x ==> apart(tables[p], tables[x]));
                }
            }
        }
    }
}

// ---------------------------------------------------------------------------------------------
// What merging gives
// ---------------------------------------------------------------------------------------------
proof fn lemma_found_spans(t: TableView, files: spec_fn(u64) -> FileView, key: u128)
    requires
        readable(t, files(t.id)),
        found(t, files, key) is Some,
    ensures
        spans(t, key),
{
    let s = choose|s: Seq<(u128, EntryView)>| #[trigger] holds(t, files(t.id), s);
    assert(sstable::table_find(t, files(t.id), key) == Ok::<Option<EntryView>, ErrorView>(
        sstable::lookup(s, key),
    ));
    sstable::lemma_lookup_some(s, key);
}

/// The sources of a merge are what the tables hold.
proof fn lemma_sources(
    tables: Seq<TableView>,
    files: spec_fn(u64) -> FileView,
    inputs: Seq<int>,
    n: int,
)
    requires
        0 <= n <= inputs.len(),
        compaction::places_in(inputs, tables.len() as int),
        forall|j: int|
            0 <= j < tables.len() ==> readable(#[trigger] tables[j], files(tables[j].id)),
    ensures
        compaction::input_sources(tables, files, inputs, n) matches Ok(src) && src.len() == n
            && forall|k: int|
            0 <= k < n ==> holds(
                tables[inputs[k]],
                files(tables[inputs[k]].id),
                #[trigger] src[k],
            ),
    decreases n,
{
    if n > 0 {
        lemma_sources(tables, files, inputs, n - 1);
        let t = tables[inputs[n - 1]];
        let s = choose|s: Seq<(u128, EntryView)>| #[trigger] holds(t, files(t.id), s);
        let head = compaction::input_sources(tables, files, inputs, n - 1)->Ok_0;
        let src = head.push(s);
        assert(compaction::input_sources(tables, files, inputs, n) == Ok::<
            Seq<Seq<(u128, EntryView)>>,
            ErrorView,
        >(src));
        assert forall|k: int| 0 <= k < n implies holds(
            tables[inputs[k]],
            files(tables[inputs[k]].id),
            #[trigger] src[k],
        ) by {
            if k < n - 1 {
                assert(src[k] == head[k]);
            }
        }
    }
}

/// The newest entry under a key in the sources of a merge is that of one of the tables: of the
/// `top`-th, where that is the first that has one and none is newer.
proof fn lemma_newest_input(
    tables: Seq<TableView>,
    files: spec_fn(u64) -> FileView,
    inputs: Seq<int>,
    src: Seq<Seq<(u128, EntryView)>>,
    key: u128,
    n: int,
    top: int,
) -> (r: int)
    requires
        0 <= n <= inputs.len(),
        src.len() == inputs.len(),
        forall|k: int|
            0 <= k < inputs.len() ==> holds(
                tables[inputs[k]],
                files(tables[inputs[k]].id),
                #[trigger] src[k],
            ),
        top >= 0 ==> top < inputs.len() && found(tables[inputs[top]], files, key) is Some
            && forall|k: int|
            0 <= k < inputs.len() && found(tables[#[trigger] inputs[k]], files, key) is Some ==> top
                <= k && found(tables[inputs[k]], files, key).unwrap().seq_num <= found(
                tables[inputs[top]],
                files,
                key,
            ).unwrap().seq_num,
    ensures
        match iterator::newest(src, key, n) {
            None => forall|k: int|
                0 <= k < n ==> found(tables[#[trigger] inputs[k]], files, key) is None,
            Some(e) => 0 <= r < n && found(tables[inputs[r]], files, key) == Some(e) && (0 <= top
                < n ==> r == top),
        },
    decreases n,
{
    if n == 0 {
        0
    } else {
        let r = lemma_newest_input(tables, files, inputs, src, key, n - 1, top);
        let last = tables[inputs[n - 1]];
        assert(holds(last, files(last.id), src[n - 1]));
        assert(sstable::table_find(last, files(last.id), key) == Ok::<
            Option<EntryView>,
            ErrorView,
        >(sstable::lookup(src[n - 1], key)));
        if iterator::newest(src, key, n - 1) is Some {
            assert(found(tables[inputs[r]], files, key) is Some);
        }
        match sstable::lookup(src[n - 1], key) {
            None => r,
            Some(e) => match iterator::newest(src, key, n - 1) {
                None => n - 1,
                Some(b) => if e.seq_num > b.seq_num {
                    n - 1
                } else {
                    r
                },
            },
        }
    }
}

proof fn lemma_kept(s: Seq<(u128, EntryView)>, is_bottom_level: bool, key: u128)
    requires
        sstable::ascending(s),
    ensures
        sstable::ascending(compaction::kept(s, is_bottom_level)),
        forall|i: int|
            0 <= i < compaction::kept(s, is_bottom_level).len() ==> s.contains(
                #[trigger] compaction::kept(s, is_bottom_level)[i],
            ),
        sstable::lookup(compaction::kept(s, is_bottom_level), key) == (match sstable::lookup(
            s,
            key,
        ) {
            Some(e) => if is_bottom_level && e.value is None {
                None
            } else {
                Some(e)
            },
            None => None,
        }),
    decreases s.len(),
{
    let out = compaction::kept(s, is_bottom_level);
    if s.len() > 0 {
        let head = s.drop_last();
        let last = s.last();
        assert forall|i: int, j: int| 0 <= i < j < head.len() implies (#[trigger] head[i]).0 < (
        #[trigger] head[j]).0 by {
            assert(head[i] == s[i] && head[j] == s[j]);
        }
        lemma_kept(head, is_bottom_level, key);
        let fewer = compaction::kept(head, is_bottom_level);
        assert forall|i: int| 0 <= i < out.len() implies s.contains(#[trigger] out[i]) by {
            if i < fewer.len() {
                assert(out[i] == fewer[i]);
                let j = choose|j: int| 0 <= j < head.len() && head[j] == fewer[i];
                assert(s[j] == out[i]);
            } else {
                assert(s[s.len() - 1] == out[i]);
            }
        }
        if !(is_bottom_level && last.1.value is None) {
            assert(out.drop_last() =~= fewer);
            assert forall|i: int, j: int| 0 <= i < j < out.len() implies (#[trigger] out[i]).0 < (
            #[trigger] out[j]).0 by {
                assert(out[i] == fewer[i]);
                let a = choose|a: int| 0 <= a < head.len() && head[a] == fewer[i];
                assert(s[a].0 < s[s.len() - 1].0);
                if j < fewer.len() {
                    assert(out[j] == fewer[j]);
                }
            }
        }
        if last.0 == key {
            assert forall|i: int| 0 <= i < head.len() implies (#[trigger] head[i]).0 != key by {
                assert(s[i].0 < s[s.len() - 1].0);
            }
            sstable::lemma_lookup_absent(head, key);
        }
    }
}

// ---------------------------------------------------------------------------------------------
// The tables after a compaction
// ---------------------------------------------------------------------------------------------
/// The place from which the `i`-th of the tables that stay comes.
pub open spec fn kept_place(
    tables: Seq<TableView>,
    paths: Seq<Seq<char>>,
    n: int,
    i: int,
) -> int
    decreases n,
{
    if n <= 0 {
        0
    } else if !goes(tables, paths, n - 1) && i == engine::tables_without(
        tables,
        paths,
        n - 1,
    ).len() {
        n - 1
    } else {
        kept_place(tables, paths, n - 1, i)
    }
}

proof fn lemma_kept_place(tables: Seq<TableView>, paths: Seq<Seq<char>>, n: int)
    requires
        0 <= n <= tables.len(),
    ensures
        forall|i: int|
            0 <= i < engine::tables_without(tables, paths, n).len() ==> 0 <= #[trigger] kept_place(
                tables,
                paths,
                n,
                i,
            ) < n && !goes(tables, paths, kept_place(tables, paths, n, i))
                && engine::tables_without(tables, paths, n)[i] == tables[kept_place(
                tables,
                paths,
                n,
                i,
            )],
        forall|i: int, j: int|
            0 <= i < j < engine::tables_without(tables, paths, n).len() ==> #[trigger] kept_place(
                tables,
                paths,
                n,
                i,
            ) < #[trigger] kept_place(tables, paths, n, j),
    decreases n,
{
    if n > 0 {
        lemma_kept_place(tables, paths, n - 1);
        let fewer = engine::tables_without(tables, paths, n - 1);
        let rest = engine::tables_without(tables, paths, n);
        assert forall|i: int| 0 <= i < rest.len() implies 0 <= #[trigger] kept_place(
            tables,
            paths,
            n,
            i,
        ) < n && !goes(tables, paths, kept_place(tables, paths, n, i)) && rest[i]
            == tables[kept_place(tables, paths, n, i)] by {
            if i < fewer.len() {
                assert(kept_place(tables, paths, n, i) == kept_place(tables, paths, n - 1, i));
                assert(rest[i] == fewer[i]);
            }
        }
        assert forall|i: int, j: int| 0 <= i < j < rest.len() implies #[trigger] kept_place(
            tables,
            paths,
            n,
            i,
        ) < #[trigger] kept_place(tables, paths, n, j) by {
            assert(i < fewer.len());
            assert(kept_place(tables, paths, n, i) == kept_place(tables, paths, n - 1, i));
            if j < fewer.len() {
                assert(kept_place(tables, paths, n, j) == kept_place(tables, paths, n - 1, j));
            }
        }
    }
}

/// Tables of which each precedes those after it.
pub open spec fn strictly_sorted(s: Seq<TableView>) -> bool {
    forall|i: int, j: int| 0 <= i < j < s.len() ==> precedes(#[trigger] s[i], #[trigger] s[j])
}

proof fn lemma_sorted_stays(s: Seq<TableView>)
    requires
        strictly_sorted(s),
    ensures
        engine::sorted_tables(s) == s,
    decreases s.len(),
{
    if s.len() > 0 {
        let head = s.drop_last();
        assert forall|i: int, j: int| 0 <= i < j < head.len() implies precedes(
            #[trigger] head[i],
            #[trigger] head[j],
        ) by {
            assert(head[i] == s[i] && head[j] == s[j]);
        }
        lemma_sorted_stays(head);
        if head.len() > 0 {
            assert(head.last() == s[s.len() - 2]);
            assert(precedes(s[s.len() - 2], s[s.len() - 1]));
        }
        assert(engine::placed(head, s.last()) =~= s);
    }
}

/// Where a table is put among sorted ones.
pub proof fn lemma_placed(s: Seq<TableView>, t: TableView) -> (k: int)
    requires
        strictly_sorted(s),
        forall|i: int| 0 <= i < s.len() ==> (#[trigger] s[i]).id != t.id,
    ensures
        0 <= k <= s.len(),
        engine::placed(s, t) == s.insert(k, t),
        forall|i: int| 0 <= i < k ==> precedes(#[trigger] s[i], t),
        forall|i: int| k <= i < s.len() ==> precedes(t, #[trigger] s[i]),
    decreases s.len(),
{
    if s.len() == 0 {
        assert(s.push(t) =~= s.insert(0, t));
        0
    } else {
        let n = s.len() - 1;
        assert(s.last() == s[n]);
        if engine::not_after(s.last(), t) {
            assert(s.push(t) =~= s.insert(s.len() as int, t));
            assert forall|i: int| 0 <= i < s.len() implies precedes(#[trigger] s[i], t) by {
                if i < n {
                    assert(precedes(s[i], s[n]));
                }
            }
            s.len() as int
        } else {
            let head = s.drop_last();
            assert forall|i: int, j: int| 0 <= i < j < head.len() implies precedes(
                #[trigger] head[i],
                #[trigger] head[j],
            ) by {
                assert(head[i] == s[i] && head[j] == s[j]);
            }
            assert forall|i: int| 0 <= i < head.len() implies (#[trigger] head[i]).id != t.id by {
                assert(head[i] == s[i]);
            }
            let k = lemma_placed(head, t);
            assert(head.insert(k, t).push(s.last()) =~= s.insert(k, t));
            assert forall|i: int| 0 <= i < k implies precedes(#[trigger] s[i], t) by {
                assert(head[i] == s[i]);
            }
            assert forall|i: int| k <= i < s.len() implies precedes(t, #[trigger] s[i]) by {
                if i < n {
                    assert(head[i] == s[i]);
                }
            }
            k
        }
    }
}

/// A new table holds what merging the tables of a step gave, in a file with a number and a path
/// that no other table has; the other files stay as they are.
pub open spec fn merged_into(
    tables: Seq<TableView>,
    files: spec_fn(u64) -> FileView,
    plan: PlanView,
    s: Seq<(u128, EntryView)>,
    empty_bloom: BloomView,
    bloom: BloomView,
    with_file: spec_fn(u64) -> FileView,
    t: TableView,
) -> bool {
    &&& compaction::compacted(tables, files, plan.inputs, plan.is_bottom_level) == Ok::<
        Seq<(u128, EntryView)>,
        ErrorView,
    >(s)
    &&& s.len() > 0
    &&& empty_bloom.bytes.len() > 0
    &&& sstable::all_inserted(empty_bloom, s, bloom)
    &&& sstable::lengths_fit(s, sstable::DEFAULT_BLOCK_SIZE as nat, bloom)
    &&& with_file(t.id) == sstable::file_of(
        sstable::file_bytes(s, sstable::DEFAULT_BLOCK_SIZE as nat, bloom),
    )
    &&& sstable::opened_image(
        t.path,
        sstable::file_bytes(s, sstable::DEFAULT_BLOCK_SIZE as nat, bloom),
        t.id,
        plan.output_level,
    ) == Ok::<TableView, ErrorView>(t)
    &&& forall|i: int|
        0 <= i < tables.len() ==> (#[trigger] tables[i]).id != t.id && tables[i].path != t.path
    &&& forall|id: u64| id != t.id ==> #[trigger] with_file(id) == files(id)
}

/// A table that was built of entries in order holds them.
pub proof fn lemma_built_holds(
    path: Seq<char>,
    id: u64,
    level: u32,
    s: Seq<(u128, EntryView)>,
    target: nat,
    empty_bloom: BloomView,
    bloom: BloomView,
    t: TableView,
)
    requires
        s.len() > 0,
        sstable::ascending(s),
        empty_bloom.bytes.len() > 0,
        sstable::all_inserted(empty_bloom, s, bloom),
        sstable::lengths_fit(s, target, bloom),
        sstable::opened_image(path, sstable::file_bytes(s, target, bloom), id, level) == Ok::<
            TableView,
            ErrorView,
        >(t),
    ensures
        holds(t, sstable::file_of(sstable::file_bytes(s, target, bloom)), s),
        t.id == id,
        t.path == path,
        t.level == level,
        t.min_key == s[0].0,
        t.max_key == s.last().0,
        t.min_key <= t.max_key,
{
    let file = sstable::file_of(sstable::file_bytes(s, target, bloom));
    sstable::law_built_table_opens(path, id, level, s, target, bloom);
    sstable::law_built_table_reads_back(path, id, level, s, target, bloom);
    assert forall|key: u128| #[trigger]
        sstable::table_find(t, file, key) == Ok::<Option<EntryView>, ErrorView>(
        sstable::lookup(s, key),
    ) by {
        sstable::law_built_table_finds(path, id, level, s, target, empty_bloom, bloom, key);
    }
    assert forall|i: int| 0 <= i < s.len() implies t.min_key <= (#[trigger] s[i]).0
        <= t.max_key by {
        if i > 0 {
            assert(s[0].0 < s[i].0);
        }
        if i < s.len() - 1 {
            assert(s[i].0 < s[s.len() - 1].0);
        }
    }
    assert(t.min_key <= s[0].0 <= t.max_key);
}

/// The new table holds what was merged.
proof fn lemma_new_table(
    tables: Seq<TableView>,
    files: spec_fn(u64) -> FileView,
    plan: PlanView,
    s: Seq<(u128, EntryView)>,
    empty_bloom: BloomView,
    bloom: BloomView,
    with_file: spec_fn(u64) -> FileView,
    t: TableView,
)
    requires
        merged_into(tables, files, plan, s, empty_bloom, bloom, with_file, t),
        sstable::ascending(s),
    ensures
        holds(t, with_file(t.id), s),
        t.level == plan.output_level,
        t.min_key == s[0].0,
        t.max_key == s.last().0,
{
    lemma_built_holds(
        t.path,
        t.id,
        plan.output_level,
        s,
        sstable::DEFAULT_BLOCK_SIZE as nat,
        empty_bloom,
        bloom,
        t,
    );
}

/// What the new table has under a key is what one of the tables that went has, unless that is a
/// tombstone that goes: the table at `top`, where that is the first that has one and none is newer.
proof fn lemma_new_found(
    tables: Seq<TableView>,
    files: spec_fn(u64) -> FileView,
    plan: PlanView,
    s: Seq<(u128, EntryView)>,
    empty_bloom: BloomView,
    bloom: BloomView,
    with_file: spec_fn(u64) -> FileView,
    t: TableView,
    key: u128,
    top: int,
) -> (at: int)
    requires
        in_order(tables, files),
        divides(tables, plan),
        merged_into(tables, files, plan, s, empty_bloom, bloom, with_file, t),
        top >= 0 ==> plan.inputs.contains(top) && found(tables[top], files, key) is Some && forall|
            p: int,
        | #[trigger]
            plan.inputs.contains(p) && found(tables[p], files, key) is Some ==> top <= p && found(
                tables[p],
                files,
                key,
            ).unwrap().seq_num <= found(tables[top], files, key).unwrap().seq_num,
    ensures
        sstable::ascending(s),
        holds(t, with_file(t.id), s),
        (forall|p: int|
            #[trigger] plan.inputs.contains(p) ==> found(tables[p], files, key) is None) ==> found(
            t,
            with_file,
            key,
        ) is None,
        !(forall|p: int|
            #[trigger] plan.inputs.contains(p) ==> found(tables[p], files, key) is None) ==> {
            &&& plan.inputs.contains(at)
            &&& found(tables[at], files, key) is Some
            &&& top >= 0 ==> at == top
            &&& found(t, with_file, key) == (if plan.is_bottom_level && found(
                tables[at],
                files,
                key,
            ).unwrap().value is None {
                None
            } else {
                found(tables[at], files, key)
            })
        },
{
    let inputs = plan.inputs;
    let n = inputs.len() as int;
    lemma_sources(tables, files, inputs, n);
    let src = compaction::input_sources(tables, files, inputs, n)->Ok_0;
    assert forall|i: int| 0 <= i < src.len() implies sstable::ascending(#[trigger] src[i]) by {
        assert(holds(tables[inputs[i]], files(tables[inputs[i]].id), src[i]));
    }
    iterator::law_merge_keeps_the_newest(src, key);
    lemma_kept(iterator::merged(src), plan.is_bottom_level, key);
    lemma_new_table(tables, files, plan, s, empty_bloom, bloom, with_file, t);
    assert(sstable::table_find(t, with_file(t.id), key) == Ok::<Option<EntryView>, ErrorView>(
        sstable::lookup(s, key),
    ));
    let k = if top >= 0 {
        choose|k: int| 0 <= k < n && inputs[k] == top
    } else {
        -1
    };
    if top >= 0 {
        assert forall|j: int|
            0 <= j < n && found(tables[#[trigger] inputs[j]], files, key) is Some implies k <= j
            && found(tables[inputs[j]], files, key).unwrap().seq_num <= found(
            tables[inputs[k]],
            files,
            key,
        ).unwrap().seq_num by {
            assert(inputs.contains(inputs[j]));
            if j < k {
                assert(inputs[j] < inputs[k]);
            }
        }
    }
    let r = lemma_newest_input(tables, files, inputs, src, key, n, k);
    match iterator::newest(src, key, n) {
        None => {
            assert forall|p: int| #[trigger] inputs.contains(p) implies found(
                tables[p],
                files,
                key,
            ) is None by {
                let j = choose|j: int| 0 <= j < n && inputs[j] == p;
            }
            0
        },
        Some(e) => {
            assert(inputs.contains(inputs[r]));
            inputs[r]
        },
    }
}

/// What a lookup shows to a reader: a value, or nothing.
pub open spec fn shown(e: Option<EntryView>) -> Option<Seq<u8>> {
    match e {
        Some(x) => x.value,
        None => None,
    }
}

proof fn lemma_goes_is_input(tables: Seq<TableView>, files: spec_fn(u64) -> FileView, inputs: Seq<int>, x: int)
    requires
        in_order(tables, files),
        compaction::places_in(inputs, tables.len() as int),
        0 <= x < tables.len(),
    ensures
        goes(tables, engine::paths_at(tables, inputs), x) <==> inputs.contains(x),
{
    let paths = engine::paths_at(tables, inputs);
    if inputs.contains(x) {
        let k = choose|k: int| 0 <= k < inputs.len() && inputs[k] == x;
        assert(paths[k] == tables[x].path);
    }
    if paths.contains(tables[x].path) {
        let k = choose|k: int| 0 <= k < paths.len() && paths[k] == tables[x].path;
        let y = inputs[k];
        assert(tables[y].path == tables[x].path);
        assert(x < y ==> pair_ok(tables[x], tables[y]));
        assert(y < x ==> pair_ok(tables[y], tables[x]));
        assert(inputs.contains(y));
    }
}

/// The tables after a compaction, as those that stay with the new one put in.
proof fn lemma_tables_after(
    tables: Seq<TableView>,
    files: spec_fn(u64) -> FileView,
    paths: Seq<Seq<char>>,
    t: TableView,
) -> (k: int)
    requires
        in_order(tables, files),
        forall|i: int| 0 <= i < tables.len() ==> (#[trigger] tables[i]).id != t.id,
    ensures
        ({
            let rest = engine::tables_without(tables, paths, tables.len() as int);
            &&& engine::tables_after(tables, paths, t) == engine::placed(rest, t)
            &&& engine::placed(rest, t) == rest.insert(k, t)
            &&& 0 <= k <= rest.len()
            &&& forall|i: int| 0 <= i < k ==> precedes(#[trigger] rest[i], t)
            &&& forall|i: int| k <= i < rest.len() ==> precedes(t, #[trigger] rest[i])
        }),
{
    let n = tables.len() as int;
    let rest = engine::tables_without(tables, paths, n);
    lemma_kept_place(tables, paths, n);
    assert forall|i: int, j: int| 0 <= i < j < rest.len() implies precedes(
        #[trigger] rest[i],
        #[trigger] rest[j],
    ) by {
        let a = kept_place(tables, paths, n, i);
        let b = kept_place(tables, paths, n, j);
        assert(a < b);
        assert(pair_ok(tables[a], tables[b]));
    }
    assert forall|i: int| 0 <= i < rest.len() implies (#[trigger] rest[i]).id != t.id by {
        let a = kept_place(tables, paths, n, i);
        assert(rest[i] == tables[a]);
    }
    lemma_sorted_stays(rest);
    assert(rest.push(t).drop_last() =~= rest);
    lemma_placed(rest, t)
}

/// Reads of the tables that stay with the new one among them: the same entry is found, or none
/// where that was a tombstone.
proof fn lemma_reads_kept(
    tables: Seq<TableView>,
    files: spec_fn(u64) -> FileView,
    plan: PlanView,
    s: Seq<(u128, EntryView)>,
    empty_bloom: BloomView,
    bloom: BloomView,
    with_file: spec_fn(u64) -> FileView,
    t: TableView,
    key: u128,
)
    requires
        in_order(tables, files),
        settled(tables, files, key),
        divides(tables, plan),
        merged_into(tables, files, plan, s, empty_bloom, bloom, with_file, t),
    ensures
        same_or_gone(
            first_in(tables, files, key),
            first_in(
                engine::placed(
                    engine::tables_without(
                        tables,
                        engine::paths_at(tables, plan.inputs),
                        tables.len() as int,
                    ),
                    t,
                ),
                with_file,
                key,
            ),
        ),
{
    let paths = engine::paths_at(tables, plan.inputs);
    let n = tables.len() as int;
    let first = lemma_first_place(tables, files, key);
    let top = if plan.inputs.contains(first) && found(tables[first], files, key) is Some
        && first_in(tables, files, key) is Some {
        first
    } else {
        -1
    };
    if top >= 0 {
        assert forall|p: int| #[trigger]
            plan.inputs.contains(p) && found(tables[p], files, key) is Some implies top <= p
            && found(tables[p], files, key).unwrap().seq_num <= found(
            tables[top],
            files,
            key,
        ).unwrap().seq_num by {
            let k = choose|k: int| 0 <= k < plan.inputs.len() && plan.inputs[k] == p;
            assert(0 <= plan.inputs[k] < n);
            assert(found(tables[p], files, key) is Some);
        }
    }
    let at = lemma_new_found(
        tables,
        files,
        plan,
        s,
        empty_bloom,
        bloom,
        with_file,
        t,
        key,
        top,
    );
    lemma_new_table(tables, files, plan, s, empty_bloom, bloom, with_file, t);
    lemma_first_same(tables, files, with_file, key, t.id);
    assert forall|x: int| 0 <= x < n implies found(#[trigger] tables[x], with_file, key) == found(
        tables[x],
        files,
        key,
    ) by {
        assert(tables[x].id != t.id);
    }
    assert forall|x: int| 0 <= x < n implies (goes(tables, paths, x) <==> #[trigger]
        plan.inputs.contains(x)) by {
        lemma_goes_is_input(tables, files, plan.inputs, x);
    }
    if forall|p: int|
        #[trigger] plan.inputs.contains(p) ==> found(tables[p], files, key) is None {
        assert forall|x: int| 0 <= x < n && goes(tables, paths, x) implies found(
            #[trigger] tables[x],
            with_file,
            key,
        ) is None by {
            assert(plan.inputs.contains(x));
        }
        lemma_reads_untouched(tables, paths, t, with_file, key, n);
        assert(tables.take(n) =~= tables);
    } else {
        let j = choose|j: int| 0 <= j < plan.inputs.len() && plan.inputs[j] == at;
        assert(0 <= plan.inputs[j] < n);
        assert(found(tables[at], files, key) is Some);
        assert forall|x: int|
            0 <= x < n && !goes(tables, paths, x) && found(
                #[trigger] tables[x],
                with_file,
                key,
            ) is Some implies sides(tables, x, at, plan.output_level, plan.is_bottom_level) by {
            lemma_sides(tables, files, plan, key, x, at);
        }
        assert(goes(tables, paths, at));
        lemma_reads_with_entry(
            tables,
            files,
            paths,
            t,
            with_file,
            key,
            at,
            first,
            plan.output_level,
            plan.is_bottom_level,
        );
    }
}

/// The same entry is found as before, or none where a tombstone was.
pub open spec fn same_or_gone(was: Option<EntryView>, is_now: Option<EntryView>) -> bool {
    is_now == was || is_now is None && shown(was) is None
}

proof fn lemma_sides(
    tables: Seq<TableView>,
    files: spec_fn(u64) -> FileView,
    plan: PlanView,
    key: u128,
    x: int,
    p: int,
)
    requires
        in_order(tables, files),
        divides(tables, plan),
        0 <= x < tables.len(),
        !plan.inputs.contains(x),
        plan.inputs.contains(p),
        found(tables[x], files, key) is Some,
        found(tables[p], files, key) is Some,
    ensures
        0 <= p < tables.len(),
        sides(tables, x, p, plan.output_level, plan.is_bottom_level),
{
    let k = choose|k: int| 0 <= k < plan.inputs.len() && plan.inputs[k] == p;
    assert(0 <= plan.inputs[k] < tables.len());
    lemma_found_spans(tables[x], files, key);
    lemma_found_spans(tables[p], files, key);
    assert(spans(tables[x], key) && spans(tables[p], key));
}

/// Reads where `at` is one of the tables that went that has the key, and `first` the first table
/// that has it: one that stays, or `at` itself.
proof fn lemma_reads_with_entry(
    tables: Seq<TableView>,
    files: spec_fn(u64) -> FileView,
    paths: Seq<Seq<char>>,
    t: TableView,
    with_file: spec_fn(u64) -> FileView,
    key: u128,
    at: int,
    first: int,
    output_level: u32,
    is_bottom_level: bool,
)
    requires
        in_order(tables, files),
        0 <= at < tables.len(),
        0 <= first <= at,
        t.level == output_level,
        goes(tables, paths, at),
        found(tables[at], with_file, key) is Some,
        found(tables[first], with_file, key) is Some,
        forall|i: int| 0 <= i < first ==> found(#[trigger] tables[i], with_file, key) is None,
        first == at || !goes(tables, paths, first),
        forall|x: int|
            0 <= x < tables.len() && !goes(tables, paths, x) && found(
                #[trigger] tables[x],
                with_file,
                key,
            ) is Some ==> sides(tables, x, at, output_level, is_bottom_level),
        first == at ==> found(t, with_file, key) == (if is_bottom_level && found(
            tables[at],
            with_file,
            key,
        ).unwrap().value is None {
            None
        } else {
            found(tables[at], with_file, key)
        }),
    ensures
        same_or_gone(
            first_in(tables, with_file, key),
            first_in(
                engine::placed(engine::tables_without(tables, paths, tables.len() as int), t),
                with_file,
                key,
            ),
        ),
{
    let n = tables.len() as int;
    assert forall|i: int, j: int| 0 <= i < j < n implies (#[trigger] tables[i]).level <= (
    #[trigger] tables[j]).level by {
        assert(pair_ok(tables[i], tables[j]));
    }
    lemma_reads_after(tables, paths, t, with_file, key, at, n);
    lemma_first_is(tables, with_file, key, first);
    if first == at {
        assert forall|x: int| 0 <= x < at && !goes(tables, paths, x) implies found(
            #[trigger] tables[x],
            with_file,
            key,
        ) is None by {}
        lemma_without_none(tables, paths, with_file, key, at);
    } else {
        lemma_without_has(tables, paths, with_file, key, first + 1, first);
        lemma_first_before(tables, paths, with_file, key, first + 1);
        lemma_without_more(tables, paths, with_file, key, first + 1, at);
    }
}

/// A compaction changes no read: under a key of which the first table has the newest entry, the same
/// value, or none, is found as before, and the first table still has the newest.
pub proof fn law_compaction_keeps_reads(
    tables: Seq<TableView>,
    files: spec_fn(u64) -> FileView,
    l0_trigger: nat,
    s: Seq<(u128, EntryView)>,
    empty_bloom: BloomView,
    bloom: BloomView,
    with_file: spec_fn(u64) -> FileView,
    t: TableView,
    key: u128,
)
    requires
        in_order(tables, files),
        settled(tables, files, key),
        compaction::plan_for(tables, l0_trigger) matches Some(plan) && merged_into(
            tables,
            files,
            plan,
            s,
            empty_bloom,
            bloom,
            with_file,
            t,
        ),
    ensures
        ({
            let plan = compaction::plan_for(tables, l0_trigger).unwrap();
            let after = engine::tables_after(tables, engine::paths_at(tables, plan.inputs), t);
            &&& engine::in_tables(tables, files, key, 0) matches Ok(was)
            &&& engine::in_tables(after, with_file, key, 0) matches Ok(is_now)
            &&& shown(is_now) == shown(was)
            &&& same_or_gone(was, is_now)
            &&& settled(after, with_file, key)
        }),
{
    let plan = compaction::plan_for(tables, l0_trigger).unwrap();
    let paths = engine::paths_at(tables, plan.inputs);
    law_compaction_keeps_the_order(
        tables,
        files,
        l0_trigger,
        s,
        empty_bloom,
        bloom,
        with_file,
        t,
    );
    lemma_levelled(tables, files);
    lemma_plan_divides(tables, l0_trigger);
    let after = engine::tables_after(tables, paths, t);
    let k = lemma_tables_after(tables, files, paths, t);
    lemma_lookup_is_first(tables, files, key);
    lemma_lookup_is_first(after, with_file, key);
    lemma_reads_kept(tables, files, plan, s, empty_bloom, bloom, with_file, t, key);
    if let Some(e) = first_in(after, with_file, key) {
        assert forall|j: int|
            0 <= j < after.len() && found(#[trigger] after[j], with_file, key) is Some implies found(
            after[j],
            with_file,
            key,
        ).unwrap().seq_num <= e.seq_num by {
            let x = lemma_entry_was_there(
                tables,
                files,
                l0_trigger,
                s,
                empty_bloom,
                bloom,
                with_file,
                t,
                j,
                key,
            );
            assert(found(tables[x], files, key) is Some);
        }
    }
}

/// The first table that has a key, where one that stays has it before all that go.
proof fn lemma_first_before(
    tables: Seq<TableView>,
    paths: Seq<Seq<char>>,
    files: spec_fn(u64) -> FileView,
    key: u128,
    at: int,
)
    requires
        0 <= at <= tables.len(),
        first_in(engine::tables_without(tables, paths, at), files, key) is Some,
        forall|p: int|
            0 <= p < at && goes(tables, paths, p) ==> found(#[trigger] tables[p], files, key) is None,
    ensures
        first_in(tables, files, key) == first_in(
            engine::tables_without(tables, paths, at),
            files,
            key,
        ),
{
    lemma_kept_place(tables, paths, at);
    let rest = engine::tables_without(tables, paths, at);
    let r = lemma_first_place(rest, files, key);
    let x = kept_place(tables, paths, at, r);
    assert forall|i: int| 0 <= i < x implies found(#[trigger] tables[i], files, key) is None by {
        if !goes(tables, paths, i) && found(tables[i], files, key) is Some {
            lemma_without_has(tables, paths, files, key, x, i);
            lemma_without_more(tables, paths, files, key, x, at);
            let q = lemma_first_place(engine::tables_without(tables, paths, x), files, key);
            lemma_kept_place(tables, paths, x);
            lemma_prefix_places(tables, paths, x, at, q);
            if q < r {
                assert(found(rest[q], files, key) is None);
            } else {
                assert(kept_place(tables, paths, at, q) < x);
                assert(q > r ==> x < kept_place(tables, paths, at, q));
            }
        }
    }
    lemma_first_is(tables, files, key, x);
}

proof fn lemma_prefix_places(
    tables: Seq<TableView>,
    paths: Seq<Seq<char>>,
    n: int,
    m: int,
    i: int,
)
    requires
        0 <= n <= m <= tables.len(),
        0 <= i < engine::tables_without(tables, paths, n).len(),
    ensures
        engine::tables_without(tables, paths, n).len() <= engine::tables_without(
            tables,
            paths,
            m,
        ).len(),
        engine::tables_without(tables, paths, m)[i] == engine::tables_without(
            tables,
            paths,
            n,
        )[i],
        kept_place(tables, paths, m, i) == kept_place(tables, paths, n, i),
    decreases m - n,
{
    if n < m {
        lemma_prefix_places(tables, paths, n, m - 1, i);
    }
}

proof fn lemma_first_same(
    tables: Seq<TableView>,
    files: spec_fn(u64) -> FileView,
    with_file: spec_fn(u64) -> FileView,
    key: u128,
    id: u64,
)
    requires
        forall|i: int| 0 <= i < tables.len() ==> (#[trigger] tables[i]).id != id,
        forall|other: u64| other != id ==> #[trigger] with_file(other) == files(other),
    ensures
        first_in(tables, with_file, key) == first_in(tables, files, key),
    decreases tables.len(),
{
    if tables.len() > 0 {
        let head = tables.drop_last();
        assert forall|i: int| 0 <= i < head.len() implies (#[trigger] head[i]).id != id by {
            assert(head[i] == tables[i]);
        }
        lemma_first_same(head, files, with_file, key, id);
        assert(tables[tables.len() - 1].id != id);
    }
}

pub proof fn lemma_levelled(tables: Seq<TableView>, files: spec_fn(u64) -> FileView)
    requires
        in_order(tables, files),
    ensures
        levelled(tables),
{
    assert forall|i: int, j: int| 0 <= i < j < tables.len() implies (#[trigger] tables[i]).level
        <= (#[trigger] tables[j]).level && (tables[i].level == tables[j].level && tables[i].level
        > 0 ==> apart(tables[i], tables[j])) by {
        assert(pair_ok(tables[i], tables[j]));
    }
}

/// A compaction keeps the order among the tables.
pub proof fn law_compaction_keeps_the_order(
    tables: Seq<TableView>,
    files: spec_fn(u64) -> FileView,
    l0_trigger: nat,
    s: Seq<(u128, EntryView)>,
    empty_bloom: BloomView,
    bloom: BloomView,
    with_file: spec_fn(u64) -> FileView,
    t: TableView,
)
    requires
        in_order(tables, files),
        compaction::plan_for(tables, l0_trigger) matches Some(plan) && merged_into(
            tables,
            files,
            plan,
            s,
            empty_bloom,
            bloom,
            with_file,
            t,
        ),
    ensures
        in_order(
            engine::tables_after(
                tables,
                engine::paths_at(
                    tables,
                    compaction::plan_for(tables, l0_trigger).unwrap().inputs,
                ),
                t,
            ),
            with_file,
        ),
{
    let plan = compaction::plan_for(tables, l0_trigger).unwrap();
    let paths = engine::paths_at(tables, plan.inputs);
    lemma_levelled(tables, files);
    lemma_plan_divides(tables, l0_trigger);
    let k = lemma_tables_after(tables, files, paths, t);
    lemma_order_kept(tables, files, plan, s, empty_bloom, bloom, with_file, t, k);
}

/// The tables that stay keep their order.
proof fn lemma_rest_order(
    tables: Seq<TableView>,
    files: spec_fn(u64) -> FileView,
    paths: Seq<Seq<char>>,
    with_file: spec_fn(u64) -> FileView,
    id: u64,
)
    requires
        in_order(tables, files),
        forall|i: int| 0 <= i < tables.len() ==> (#[trigger] tables[i]).id != id,
        forall|other: u64| other != id ==> #[trigger] with_file(other) == files(other),
    ensures
        in_order(engine::tables_without(tables, paths, tables.len() as int), with_file),
{
    let n = tables.len() as int;
    let rest = engine::tables_without(tables, paths, n);
    lemma_kept_place(tables, paths, n);
    assert forall|i: int| 0 <= i < rest.len() implies (#[trigger] rest[i]).level <= 2
        && rest[i].min_key <= rest[i].max_key && readable(rest[i], with_file(rest[i].id)) by {
        let x = kept_place(tables, paths, n, i);
        assert(rest[i] == tables[x]);
        assert(with_file(tables[x].id) == files(tables[x].id));
    }
    assert forall|i: int, j: int| 0 <= i < j < rest.len() implies pair_ok(#[trigger] rest[i], #[trigger] rest[j]) by {
        let a = kept_place(tables, paths, n, i);
        let b = kept_place(tables, paths, n, j);
        assert(a < b);
        assert(pair_ok(tables[a], tables[b]));
    }
}

/// A table put in at its place keeps the order.
pub proof fn lemma_insert_order(
    rest: Seq<TableView>,
    t: TableView,
    k: int,
    files: spec_fn(u64) -> FileView,
)
    requires
        in_order(rest, files),
        0 <= k <= rest.len(),
        t.level <= 2,
        t.min_key <= t.max_key,
        readable(t, files(t.id)),
        forall|i: int| 0 <= i < k ==> pair_ok(#[trigger] rest[i], t),
        forall|i: int| k <= i < rest.len() ==> pair_ok(t, #[trigger] rest[i]),
    ensures
        in_order(rest.insert(k, t), files),
{
    let after = rest.insert(k, t);
    assert forall|i: int| 0 <= i < after.len() implies (#[trigger] after[i]).level <= 2
        && after[i].min_key <= after[i].max_key && readable(after[i], files(after[i].id)) by {
        if i < k {
            assert(after[i] == rest[i]);
        } else if i > k {
            assert(after[i] == rest[i - 1]);
        }
    }
    assert forall|i: int, j: int| 0 <= i < j < after.len() implies pair_ok(#[trigger] after[i], #[trigger] after[j]) by {
        let a = if i < k {
            i
        } else {
            i - 1
        };
        let b = if j < k {
            j
        } else {
            j - 1
        };
        if i == k {
            assert(after[j] == rest[b]);
        } else if j == k {
            assert(after[i] == rest[a]);
        } else {
            assert(after[i] == rest[a] && after[j] == rest[b]);
            assert(pair_ok(rest[a], rest[b]));
        }
    }
}

/// The tables that stay, with the new one in its place, are in order.
proof fn lemma_order_kept(
    tables: Seq<TableView>,
    files: spec_fn(u64) -> FileView,
    plan: PlanView,
    s: Seq<(u128, EntryView)>,
    empty_bloom: BloomView,
    bloom: BloomView,
    with_file: spec_fn(u64) -> FileView,
    t: TableView,
    k: int,
)
    requires
        in_order(tables, files),
        divides(tables, plan),
        merged_into(tables, files, plan, s, empty_bloom, bloom, with_file, t),
        ({
            let rest = engine::tables_without(
                tables,
                engine::paths_at(tables, plan.inputs),
                tables.len() as int,
            );
            &&& 0 <= k <= rest.len()
            &&& forall|i: int| 0 <= i < k ==> precedes(#[trigger] rest[i], t)
            &&& forall|i: int| k <= i < rest.len() ==> precedes(t, #[trigger] rest[i])
        }),
    ensures
        in_order(
            engine::tables_without(
                tables,
                engine::paths_at(tables, plan.inputs),
                tables.len() as int,
            ).insert(k, t),
            with_file,
        ),
{
    let paths = engine::paths_at(tables, plan.inputs);
    let n = tables.len() as int;
    let rest = engine::tables_without(tables, paths, n);
    lemma_rest_order(tables, files, paths, with_file, t.id);
    lemma_kept_place(tables, paths, n);
    let any = lemma_new_found(
        tables,
        files,
        plan,
        s,
        empty_bloom,
        bloom,
        with_file,
        t,
        0,
        -1,
    );
    lemma_new_table(tables, files, plan, s, empty_bloom, bloom, with_file, t);
    assert(readable(t, with_file(t.id)));
    assert(s[0].0 <= s[s.len() - 1].0) by {
        if s.len() > 1 {
            assert(s[0].0 < s[s.len() - 1].0);
        }
    }
    assert forall|i: int| 0 <= i < rest.len() implies (precedes(#[trigger] rest[i], t) ==> pair_ok(rest[i], t)) && (precedes(t, rest[i]) ==> pair_ok(t, rest[i])) by {
        let x = kept_place(tables, paths, n, i);
        lemma_goes_is_input(tables, files, plan.inputs, x);
        lemma_against_new(tables, files, plan, s, empty_bloom, bloom, with_file, t, x);
    }
    lemma_insert_order(rest, t, k, with_file);
}

/// How a table that stays lies to the new one.
proof fn lemma_against_new(
    tables: Seq<TableView>,
    files: spec_fn(u64) -> FileView,
    plan: PlanView,
    s: Seq<(u128, EntryView)>,
    empty_bloom: BloomView,
    bloom: BloomView,
    with_file: spec_fn(u64) -> FileView,
    t: TableView,
    x: int,
)
    requires
        in_order(tables, files),
        divides(tables, plan),
        merged_into(tables, files, plan, s, empty_bloom, bloom, with_file, t),
        0 <= x < tables.len(),
        !plan.inputs.contains(x),
    ensures
        precedes(tables[x], t) ==> pair_ok(tables[x], t),
        precedes(t, tables[x]) ==> pair_ok(t, tables[x]),
{
    let other = tables[x];
    let first = lemma_new_found(
        tables,
        files,
        plan,
        s,
        empty_bloom,
        bloom,
        with_file,
        t,
        s[0].0,
        -1,
    );
    let last = lemma_new_found(
        tables,
        files,
        plan,
        s,
        empty_bloom,
        bloom,
        with_file,
        t,
        s.last().0,
        -1,
    );
    lemma_new_table(tables, files, plan, s, empty_bloom, bloom, with_file, t);
    if other.level == t.level {
        lemma_key_comes_from(
            tables,
            files,
            plan,
            s,
            empty_bloom,
            bloom,
            with_file,
            t,
            0,
        );
        lemma_key_comes_from(
            tables,
            files,
            plan,
            s,
            empty_bloom,
            bloom,
            with_file,
            t,
            s.len() - 1,
        );
        assert(beside(tables, plan.inputs, x));
        assert(apart(other, t) && apart(t, other));
    }
}

/// Every key of the new table lies in the range of a table that went.
proof fn lemma_key_comes_from(
    tables: Seq<TableView>,
    files: spec_fn(u64) -> FileView,
    plan: PlanView,
    s: Seq<(u128, EntryView)>,
    empty_bloom: BloomView,
    bloom: BloomView,
    with_file: spec_fn(u64) -> FileView,
    t: TableView,
    i: int,
)
    requires
        in_order(tables, files),
        divides(tables, plan),
        merged_into(tables, files, plan, s, empty_bloom, bloom, with_file, t),
        0 <= i < s.len(),
    ensures
        exists|p: int| #[trigger] plan.inputs.contains(p) && spans(tables[p], s[i].0),
{
    let key = s[i].0;
    let at = lemma_new_found(
        tables,
        files,
        plan,
        s,
        empty_bloom,
        bloom,
        with_file,
        t,
        key,
        -1,
    );
    sstable::lemma_lookup_at(s, i);
    assert(sstable::table_find(t, with_file(t.id), key) == Ok::<Option<EntryView>, ErrorView>(
        sstable::lookup(s, key),
    ));
    assert(found(t, with_file, key) is Some);
    lemma_found_spans(tables[at], files, key);
}

/// Every table after a compaction was there before, or is the new one.
pub proof fn lemma_table_was_there(
    tables: Seq<TableView>,
    files: spec_fn(u64) -> FileView,
    l0_trigger: nat,
    t: TableView,
    i: int,
) -> (x: int)
    requires
        in_order(tables, files),
        compaction::plan_for(tables, l0_trigger) is Some,
        forall|j: int| 0 <= j < tables.len() ==> (#[trigger] tables[j]).id != t.id,
        0 <= i < engine::tables_after(
            tables,
            engine::paths_at(tables, compaction::plan_for(tables, l0_trigger).unwrap().inputs),
            t,
        ).len(),
    ensures
        ({
            let after = engine::tables_after(
                tables,
                engine::paths_at(
                    tables,
                    compaction::plan_for(tables, l0_trigger).unwrap().inputs,
                ),
                t,
            );
            after[i] == t || 0 <= x < tables.len() && after[i] == tables[x]
        }),
{
    let paths = engine::paths_at(
        tables,
        compaction::plan_for(tables, l0_trigger).unwrap().inputs,
    );
    let n = tables.len() as int;
    let rest = engine::tables_without(tables, paths, n);
    let k = lemma_tables_after(tables, files, paths, t);
    lemma_kept_place(tables, paths, n);
    if i < k {
        assert(rest.insert(k, t)[i] == rest[i]);
        kept_place(tables, paths, n, i)
    } else if i > k {
        assert(rest.insert(k, t)[i] == rest[i - 1]);
        kept_place(tables, paths, n, i - 1)
    } else {
        0
    }
}

/// A table that a compaction does not take is there afterwards.
pub proof fn lemma_table_stays(
    tables: Seq<TableView>,
    files: spec_fn(u64) -> FileView,
    inputs: Seq<int>,
    t: TableView,
    x: int,
)
    requires
        in_order(tables, files),
        forall|j: int| 0 <= j < tables.len() ==> (#[trigger] tables[j]).id != t.id,
        compaction::places_in(inputs, tables.len() as int),
        0 <= x < tables.len(),
        !inputs.contains(x),
    ensures
        engine::tables_after(tables, engine::paths_at(tables, inputs), t).contains(tables[x]),
{
    let paths = engine::paths_at(tables, inputs);
    let n = tables.len() as int;
    let rest = engine::tables_without(tables, paths, n);
    let k = lemma_tables_after(tables, files, paths, t);
    lemma_goes_is_input(tables, files, inputs, x);
    let i = lemma_kept_has(tables, paths, n, x);
    if i < k {
        assert(rest.insert(k, t)[i] == rest[i]);
    } else {
        assert(rest.insert(k, t)[i + 1] == rest[i]);
    }
}

proof fn lemma_kept_has(tables: Seq<TableView>, paths: Seq<Seq<char>>, n: int, x: int) -> (i: int)
    requires
        0 <= x < n <= tables.len(),
        !goes(tables, paths, x),
    ensures
        0 <= i < engine::tables_without(tables, paths, n).len(),
        engine::tables_without(tables, paths, n)[i] == tables[x],
    decreases n,
{
    if x == n - 1 {
        engine::tables_without(tables, paths, n - 1).len() as int
    } else {
        lemma_kept_has(tables, paths, n - 1, x)
    }
}

/// Every entry after a compaction was there before.
pub proof fn lemma_entry_was_there(
    tables: Seq<TableView>,
    files: spec_fn(u64) -> FileView,
    l0_trigger: nat,
    s: Seq<(u128, EntryView)>,
    empty_bloom: BloomView,
    bloom: BloomView,
    with_file: spec_fn(u64) -> FileView,
    t: TableView,
    i: int,
    key: u128,
) -> (x: int)
    requires
        in_order(tables, files),
        compaction::plan_for(tables, l0_trigger) matches Some(plan) && merged_into(
            tables,
            files,
            plan,
            s,
            empty_bloom,
            bloom,
            with_file,
            t,
        ),
        ({
            let after = engine::tables_after(
                tables,
                engine::paths_at(
                    tables,
                    compaction::plan_for(tables, l0_trigger).unwrap().inputs,
                ),
                t,
            );
            0 <= i < after.len() && found(after[i], with_file, key) is Some
        }),
    ensures
        0 <= x < tables.len(),
        found(tables[x], files, key) == found(
            engine::tables_after(
                tables,
                engine::paths_at(
                    tables,
                    compaction::plan_for(tables, l0_trigger).unwrap().inputs,
                ),
                t,
            )[i],
            with_file,
            key,
        ),
{
    let plan = compaction::plan_for(tables, l0_trigger).unwrap();
    let after = engine::tables_after(tables, engine::paths_at(tables, plan.inputs), t);
    let x = lemma_table_was_there(tables, files, l0_trigger, t, i);
    if after[i] == t {
        lemma_levelled(tables, files);
        lemma_plan_divides(tables, l0_trigger);
        let at = lemma_new_found(
            tables,
            files,
            plan,
            s,
            empty_bloom,
            bloom,
            with_file,
            t,
            key,
            -1,
        );
        let k = choose|k: int| 0 <= k < plan.inputs.len() && plan.inputs[k] == at;
        assert(0 <= plan.inputs[k] < tables.len());
        at
    } else {
        assert(tables[x].id != t.id);
        x
    }
}

} // verus!
