//! What the upkeep of the store promises: what is compacted, how files are named, what is cached.
use vstd::prelude::*;

use crate::storage::cache::{CacheKey, CacheView};
use crate::storage::engine::{EngineView, OpView, TableFile};
use crate::storage::sstable::TableView;
use crate::storage::{cache, compaction, engine, sstable};
use crate::text;
use crate::types::{EntryView, OpType};
use crate::wire;

verus! {

// ---------------------------------------------------------------------------------------------
// Compaction
// ---------------------------------------------------------------------------------------------
/// The places of the tables on a level are listed once each, in order: 0 and 1 are levels of their
/// own, all from 2 on count as one.
pub proof fn law_levels_list_their_tables(tables: Seq<TableView>, n: int, p: int)
    requires
        0 <= n <= tables.len(),
    ensures
        compaction::on_level(tables, 0, n).contains(p) <==> 0 <= p < n && tables[p].level == 0,
        compaction::on_level(tables, 1, n).contains(p) <==> 0 <= p < n && tables[p].level == 1,
        compaction::on_level(tables, 2, n).contains(p) <==> 0 <= p < n && tables[p].level >= 2,
        forall|level: int, i: int, j: int|
            #![trigger compaction::on_level(tables, level, n)[i], compaction::on_level(tables, level, n)[j]]
            0 <= i < j < compaction::on_level(tables, level, n).len() ==> compaction::on_level(
                tables,
                level,
                n,
            )[i] < compaction::on_level(tables, level, n)[j],
{
    lemma_level(tables, 0, n, p);
    lemma_level(tables, 1, n, p);
    lemma_level(tables, 2, n, p);
    assert forall|level: int, i: int, j: int|
        #![trigger compaction::on_level(tables, level, n)[i], compaction::on_level(tables, level, n)[j]]
        0 <= i < j < compaction::on_level(tables, level, n).len() implies compaction::on_level(
        tables,
        level,
        n,
    )[i] < compaction::on_level(tables, level, n)[j] by {
        lemma_level_order(tables, level, n);
    }
}

proof fn lemma_level(tables: Seq<TableView>, level: int, n: int, p: int)
    requires
        0 <= n <= tables.len(),
    ensures
        compaction::on_level(tables, level, n).contains(p) <==> 0 <= p < n && compaction::tier(
            tables[p],
        ) == level,
    decreases n,
{
    if n > 0 {
        lemma_level(tables, level, n - 1, p);
        lemma_push_contains(compaction::on_level(tables, level, n - 1), n - 1, p);
    }
}

proof fn lemma_push_contains(s: Seq<int>, x: int, p: int)
    ensures
        s.push(x).contains(p) <==> s.contains(p) || p == x,
{
    let t = s.push(x);
    assert(t[s.len() as int] == x);
    if s.contains(p) {
        let i = choose|i: int| 0 <= i < s.len() && s[i] == p;
        assert(t[i] == p);
    }
    if t.contains(p) && p != x {
        let i = choose|i: int| 0 <= i < t.len() && t[i] == p;
        assert(s[i] == p);
    }
}

proof fn lemma_level_order(tables: Seq<TableView>, level: int, n: int)
    requires
        0 <= n <= tables.len(),
    ensures
        forall|i: int|
            0 <= i < compaction::on_level(tables, level, n).len() ==> (
            #[trigger] compaction::on_level(tables, level, n)[i]) < n,
        forall|i: int, j: int|
            0 <= i < j < compaction::on_level(tables, level, n).len()
                ==> #[trigger] compaction::on_level(tables, level, n)[i]
                < #[trigger] compaction::on_level(tables, level, n)[j],
    decreases n,
{
    if n > 0 {
        lemma_level_order(tables, level, n - 1);
        let fewer = compaction::on_level(tables, level, n - 1);
        let all = compaction::on_level(tables, level, n);
        assert forall|i: int| 0 <= i < all.len() implies (#[trigger] all[i]) < n by {
            if i < fewer.len() {
                assert(all[i] == fewer[i]);
            }
        }
        assert forall|i: int, j: int| 0 <= i < j < all.len() implies #[trigger] all[i]
            < #[trigger] all[j] by {
            assert(all[i] == fewer[i]);
            if j < fewer.len() {
                assert(all[j] == fewer[j]);
            }
        }
    }
}

proof fn lemma_overlapping(
    tables: Seq<TableView>,
    places: Seq<int>,
    min: u128,
    max: u128,
    p: int,
)
    ensures
        compaction::overlapping(tables, places, min, max).contains(p) <==> places.contains(p)
            && tables[p].max_key >= min && tables[p].min_key <= max,
    decreases places.len(),
{
    if places.len() > 0 {
        let rest = places.drop_last();
        lemma_overlapping(tables, rest, min, max, p);
        assert(rest.push(places.last()) =~= places);
        lemma_push_contains(rest, places.last(), p);
        lemma_push_contains(
            compaction::overlapping(tables, rest, min, max),
            places.last(),
            p,
        );
    }
}

proof fn lemma_bounds(tables: Seq<TableView>, places: Seq<int>)
    ensures
        forall|i: int|
            0 <= i < places.len() ==> compaction::lowest(tables, places)
                <= tables[#[trigger] places[i]].min_key && tables[places[i]].max_key
                <= compaction::highest(tables, places),
        places.len() > 0 ==> exists|i: int|
            0 <= i < places.len() && tables[#[trigger] places[i]].min_key == compaction::lowest(
                tables,
                places,
            ),
        places.len() > 0 ==> exists|i: int|
            0 <= i < places.len() && tables[#[trigger] places[i]].max_key == compaction::highest(
                tables,
                places,
            ),
    decreases places.len(),
{
    if places.len() > 0 {
        let rest = places.drop_last();
        let last = places.len() - 1;
        lemma_bounds(tables, rest);
        assert forall|i: int| 0 <= i < places.len() implies compaction::lowest(tables, places)
            <= tables[#[trigger] places[i]].min_key && tables[places[i]].max_key
            <= compaction::highest(tables, places) by {
            if i < last {
                assert(rest[i] == places[i]);
            }
        }
        if compaction::lowest(tables, places) == tables[places.last()].min_key {
            assert(tables[places[last]].min_key == compaction::lowest(tables, places));
        } else {
            assert(rest.len() > 0);
            let i = choose|i: int|
                0 <= i < rest.len() && tables[#[trigger] rest[i]].min_key == compaction::lowest(
                    tables,
                    rest,
                );
            assert(tables[places[i]].min_key == compaction::lowest(tables, places));
        }
        if compaction::highest(tables, places) == tables[places.last()].max_key {
            assert(tables[places[last]].max_key == compaction::highest(tables, places));
        } else {
            assert(rest.len() > 0);
            let i = choose|i: int|
                0 <= i < rest.len() && tables[#[trigger] rest[i]].max_key == compaction::highest(
                    tables,
                    rest,
                );
            assert(tables[places[i]].max_key == compaction::highest(tables, places));
        }
    }
}

/// While level 0 has fewer tables than the trigger and level 1 fewer than 8, nothing is compacted.
pub proof fn law_nothing_is_compacted_early(tables: Seq<TableView>, l0_trigger: nat)
    requires
        compaction::on_level(tables, 0, tables.len() as int).len() < l0_trigger,
        compaction::on_level(tables, 1, tables.len() as int).len() < 8,
    ensures
        compaction::plan_for(tables, l0_trigger) is None,
{
}

/// Once level 0 has as many tables as the trigger, all its tables go, and of level 1 those that some table of level 0 does not lie
/// wholly above, and some does not lie wholly below, and nothing else: into level 1, which is the bottom
/// where no table lies deeper.
#[verifier::rlimit(40)]
pub proof fn law_level_0_is_compacted_whole(
    tables: Seq<TableView>,
    l0_trigger: nat,
    p: int,
    deeper: int,
)
    requires
        0 <= p < tables.len(),
        compaction::on_level(tables, 0, tables.len() as int).len() >= l0_trigger,
        compaction::on_level(tables, 0, tables.len() as int).len() > 0,
    ensures
        compaction::plan_for(tables, l0_trigger) matches Some(plan) && {
            &&& plan.output_level == 1
            &&& 0 <= deeper < tables.len() && tables[deeper].level >= 2 ==> !plan.is_bottom_level
            &&& !plan.is_bottom_level ==> exists|d: int|
                0 <= d < tables.len() && (#[trigger] tables[d]).level >= 2
            &&& tables[p].level == 0 ==> plan.inputs.contains(p)
            &&& tables[p].level == 1 ==> (plan.inputs.contains(p) <==> (exists|a: int|
                0 <= a < tables.len() && (#[trigger] tables[a]).level == 0 && tables[a].min_key
                    <= tables[p].max_key) && (exists|b: int|
                0 <= b < tables.len() && (#[trigger] tables[b]).level == 0 && tables[b].max_key
                    >= tables[p].min_key))
            &&& tables[p].level >= 2 ==> !plan.inputs.contains(p)
        },
{
    let n = tables.len() as int;
    let l0 = compaction::on_level(tables, 0, n);
    let l1 = compaction::on_level(tables, 1, n);
    let l2 = compaction::on_level(tables, 2, n);
    let low = compaction::lowest(tables, l0);
    let high = compaction::highest(tables, l0);
    let over = compaction::overlapping(tables, l1, low, high);
    law_levels_list_their_tables(tables, n, p);
    law_levels_list_their_tables(tables, n, deeper);
    lemma_overlapping(tables, l1, low, high, p);
    lemma_bounds(tables, l0);
    lemma_concat_contains(l0, over, p);
    if l2.len() > 0 {
        law_levels_list_their_tables(tables, n, l2[0]);
        assert(l2.contains(l2[0]));
        assert(tables[l2[0]].level >= 2);
    }
    if tables[p].level == 1 {
        let i = choose|i: int| 0 <= i < l0.len() && tables[#[trigger] l0[i]].min_key == low;
        let j = choose|j: int| 0 <= j < l0.len() && tables[#[trigger] l0[j]].max_key == high;
        law_levels_list_their_tables(tables, n, l0[i]);
        law_levels_list_their_tables(tables, n, l0[j]);
        assert(l0.contains(l0[i]) && l0.contains(l0[j]));
        assert(tables[l0[i]].level == 0 && tables[l0[j]].level == 0);
        if exists|a: int|
            0 <= a < tables.len() && (#[trigger] tables[a]).level == 0 && tables[a].min_key
                <= tables[p].max_key {
            let a = choose|a: int|
                0 <= a < tables.len() && (#[trigger] tables[a]).level == 0 && tables[a].min_key
                    <= tables[p].max_key;
            law_levels_list_their_tables(tables, n, a);
            let k = choose|k: int| 0 <= k < l0.len() && l0[k] == a;
            assert(low <= tables[l0[k]].min_key);
        }
        if exists|b: int|
            0 <= b < tables.len() && (#[trigger] tables[b]).level == 0 && tables[b].max_key
                >= tables[p].min_key {
            let b = choose|b: int|
                0 <= b < tables.len() && (#[trigger] tables[b]).level == 0 && tables[b].max_key
                    >= tables[p].min_key;
            law_levels_list_their_tables(tables, n, b);
            let k = choose|k: int| 0 <= k < l0.len() && l0[k] == b;
            assert(tables[l0[k]].max_key <= high);
        }
    }
}

proof fn lemma_concat_contains(a: Seq<int>, b: Seq<int>, p: int)
    ensures
        (a + b).contains(p) <==> a.contains(p) || b.contains(p),
{
    let s = a + b;
    if s.contains(p) {
        let i = choose|i: int| 0 <= i < s.len() && s[i] == p;
        if i < a.len() {
            assert(a[i] == p);
        } else {
            assert(b[i - a.len()] == p);
        }
    }
    if a.contains(p) {
        let i = choose|i: int| 0 <= i < a.len() && a[i] == p;
        assert(s[i] == p);
    }
    if b.contains(p) {
        let i = choose|i: int| 0 <= i < b.len() && b[i] == p;
        assert(s[a.len() + i] == p);
    }
}

/// Where level 0 is not due and level 1 has 8 tables or more, the first of those goes, with the deeper
/// tables that share keys with it as far as their smallest and largest keys tell, into level 2, the
/// bottom.
pub proof fn law_level_1_is_compacted_table_by_table(
    tables: Seq<TableView>,
    l0_trigger: nat,
    first: int,
    p: int,
)
    requires
        0 <= p < tables.len(),
        compaction::on_level(tables, 0, tables.len() as int).len() < l0_trigger,
        0 <= first < tables.len(),
        tables[first].level == 1,
        forall|i: int| 0 <= i < first ==> (#[trigger] tables[i]).level != 1,
    ensures
        compaction::on_level(tables, 1, tables.len() as int).len() >= 8 ==> {
            &&& compaction::plan_for(tables, l0_trigger) matches Some(plan)
            &&& plan.output_level == 2
            &&& plan.is_bottom_level
            &&& plan.inputs.contains(p) <==> p == first || tables[p].level >= 2
                && tables[p].min_key <= tables[first].max_key && tables[first].min_key
                <= tables[p].max_key
        },
{
    let n = tables.len() as int;
    let l1 = compaction::on_level(tables, 1, n);
    let l2 = compaction::on_level(tables, 2, n);
    law_levels_list_their_tables(tables, n, p);
    law_levels_list_their_tables(tables, n, first);
    let k = choose|k: int| 0 <= k < l1.len() && l1[k] == first;
    law_levels_list_their_tables(tables, n, l1[0]);
    assert(l1.contains(l1[0]));
    if k > 0 {
        assert(l1[0] < l1[k]);
    }
    assert(l1[0] == first);
    lemma_overlapping(tables, l2, tables[first].min_key, tables[first].max_key, p);
    let over = compaction::overlapping(tables, l2, tables[first].min_key, tables[first].max_key);
    lemma_concat_contains(seq![first], over, p);
    assert(seq![first][0] == first);
}

/// Merged entries all stay, in their order; on the bottom level those without a value go, and only
/// those.
pub proof fn law_only_tombstones_go(s: Seq<(u128, EntryView)>, bottom: bool, i: int)
    requires
        0 <= i < s.len(),
        forall|a: int, b: int|
            #![trigger s[a], s[b]]
            0 <= a < b < s.len() ==> s[a].0 < s[b].0,
    ensures
        compaction::kept(s, false) == s,
        compaction::kept(s, bottom).contains(s[i]) <==> !bottom || s[i].1.value is Some,
        forall|a: int|
            #![trigger compaction::kept(s, bottom)[a]]
            0 <= a < compaction::kept(s, bottom).len() ==> s.contains(
                compaction::kept(s, bottom)[a],
            ),
        forall|a: int, b: int|
            #![trigger compaction::kept(s, bottom)[a], compaction::kept(s, bottom)[b]]
            0 <= a < b < compaction::kept(s, bottom).len() ==> compaction::kept(s, bottom)[a].0
                < compaction::kept(s, bottom)[b].0,
{
    lemma_kept(s, bottom);
    lemma_kept_all(s);
    if compaction::kept(s, bottom).contains(s[i]) {
        let k = compaction::kept(s, bottom);
        let a = choose|a: int| 0 <= a < k.len() && k[a] == s[i];
        assert(k[a] == s[i]);
    }
    if !bottom || s[i].1.value is Some {
        lemma_kept_has(s, bottom, i);
    }
}

proof fn lemma_kept_all(s: Seq<(u128, EntryView)>)
    ensures
        compaction::kept(s, false) == s,
    decreases s.len(),
{
    if s.len() > 0 {
        lemma_kept_all(s.drop_last());
        assert(s.drop_last().push(s.last()) =~= s);
    } else {
        assert(s =~= Seq::empty());
    }
}

proof fn lemma_kept_has(s: Seq<(u128, EntryView)>, bottom: bool, i: int)
    requires
        0 <= i < s.len(),
        !bottom || s[i].1.value is Some,
    ensures
        compaction::kept(s, bottom).contains(s[i]),
    decreases s.len(),
{
    let rest = s.drop_last();
    let fewer = compaction::kept(rest, bottom);
    let k = compaction::kept(s, bottom);
    if i < rest.len() {
        lemma_kept_has(rest, bottom, i);
        let a = choose|a: int| 0 <= a < fewer.len() && fewer[a] == rest[i];
        assert(k[a] == s[i]);
    } else {
        assert(k[fewer.len() as int] == s[i]);
    }
}

proof fn lemma_kept(s: Seq<(u128, EntryView)>, bottom: bool)
    requires
        forall|a: int, b: int|
            #![trigger s[a], s[b]]
            0 <= a < b < s.len() ==> s[a].0 < s[b].0,
    ensures
        ({
            let k = compaction::kept(s, bottom);
            &&& forall|a: int|
                #![trigger k[a]]
                0 <= a < k.len() ==> s.contains(k[a]) && (!bottom || k[a].1.value is Some)
            &&& forall|a: int, b: int|
                #![trigger k[a], k[b]]
                0 <= a < b < k.len() ==> k[a].0 < k[b].0
        }),
    decreases s.len(),
{
    if s.len() > 0 {
        let rest = s.drop_last();
        assert forall|a: int, b: int|
            #![trigger rest[a], rest[b]]
            0 <= a < b < rest.len() implies rest[a].0 < rest[b].0 by {
            assert(s[a].0 < s[b].0);
        }
        lemma_kept(rest, bottom);
        let fewer = compaction::kept(rest, bottom);
        let k = compaction::kept(s, bottom);
        assert forall|a: int| #![trigger k[a]] 0 <= a < k.len() implies s.contains(k[a]) && (!bottom
            || k[a].1.value is Some) by {
            if a < fewer.len() {
                assert(k[a] == fewer[a]);
                let j = choose|j: int| 0 <= j < rest.len() && rest[j] == fewer[a];
                assert(s[j] == fewer[a]);
            } else {
                assert(k[a] == s[s.len() - 1]);
            }
        }
        assert forall|a: int, b: int| #![trigger k[a], k[b]] 0 <= a < b < k.len() implies k[a].0
            < k[b].0 by {
            assert(k[a] == fewer[a]);
            if b < fewer.len() {
                assert(k[b] == fewer[b]);
            } else {
                assert(k[b] == s[s.len() - 1]);
                let j = choose|j: int| 0 <= j < rest.len() && rest[j] == fewer[a];
                assert(s[j].0 < s[s.len() - 1].0);
            }
        }
    }
}

// ---------------------------------------------------------------------------------------------
// Tables in order
// ---------------------------------------------------------------------------------------------
#[verifier::rlimit(40)]
proof fn lemma_placed(s: Seq<TableView>, t: TableView)
    requires
        forall|i: int, j: int|
            #![trigger s[i], s[j]]
            0 <= i < j < s.len() ==> engine::not_after(s[i], s[j]),
    ensures
        ({
            let all = engine::placed(s, t);
            &&& all.to_multiset() == s.to_multiset().insert(t)
            &&& all.len() == s.len() + 1
            &&& forall|i: int| #![trigger all[i]] 0 <= i < all.len() ==> all[i] == t || s.contains(all[i])
            &&& forall|i: int, j: int|
                #![trigger all[i], all[j]]
                0 <= i < j < all.len() ==> engine::not_after(all[i], all[j])
        }),
    decreases s.len(),
{
    broadcast use vstd::seq_lib::group_to_multiset_ensures;

    let all = engine::placed(s, t);
    if s.len() == 0 || engine::not_after(s.last(), t) {
        assert(all =~= s.push(t));
        assert forall|i: int, j: int| #![trigger all[i], all[j]] 0 <= i < j < all.len() implies
            engine::not_after(all[i], all[j]) by {
            if j == s.len() {
                if i < s.len() - 1 {
                    assert(engine::not_after(s[i], s[s.len() - 1]));
                }
            } else {
                assert(engine::not_after(s[i], s[j]));
            }
        }
        assert forall|i: int| #![trigger all[i]] 0 <= i < all.len() implies all[i] == t
            || s.contains(all[i]) by {
            if i < s.len() {
                assert(s[i] == all[i]);
            }
        }
    } else {
        let rest = s.drop_last();
        let x = s.last();
        assert forall|i: int, j: int| #![trigger rest[i], rest[j]] 0 <= i < j < rest.len() implies
            engine::not_after(rest[i], rest[j]) by {
            assert(engine::not_after(s[i], s[j]));
        }
        lemma_placed(rest, t);
        let most = engine::placed(rest, t);
        assert(all =~= most.push(x));
        assert(rest.push(x) =~= s);
        assert(all.to_multiset() =~= s.to_multiset().insert(t));
        assert forall|i: int| #![trigger all[i]] 0 <= i < all.len() implies all[i] == t
            || s.contains(all[i]) by {
            if i < most.len() {
                assert(all[i] == most[i]);
                if most[i] != t {
                    let k = choose|k: int| 0 <= k < rest.len() && rest[k] == most[i];
                    assert(s[k] == most[i]);
                }
            } else {
                assert(s[s.len() - 1] == all[i]);
            }
        }
        assert forall|i: int, j: int| #![trigger all[i], all[j]] 0 <= i < j < all.len() implies
            engine::not_after(all[i], all[j]) by {
            assert(all[i] == most[i]);
            if j < most.len() {
                assert(all[j] == most[j]);
            } else if most[i] != t {
                let k = choose|k: int| 0 <= k < rest.len() && rest[k] == most[i];
                assert(engine::not_after(s[k], s[s.len() - 1]));
            }
        }
    }
}

/// Sorting tables loses none and adds none, puts each before all of deeper levels, and within a level
/// the newest first.
pub proof fn law_sorted_tables_stand_by_level_and_age(s: Seq<TableView>)
    ensures
        ({
            let all = engine::sorted_tables(s);
            &&& all.to_multiset() == s.to_multiset()
            &&& all.len() == s.len()
            &&& forall|i: int, j: int|
                #![trigger all[i], all[j]]
                0 <= i < j < all.len() ==> all[i].level < all[j].level || all[i].level
                    == all[j].level && all[i].id >= all[j].id
        }),
    decreases s.len(),
{
    broadcast use vstd::seq_lib::group_to_multiset_ensures;

    if s.len() > 0 {
        let rest = s.drop_last();
        law_sorted_tables_stand_by_level_and_age(rest);
        let most = engine::sorted_tables(rest);
        assert forall|i: int, j: int| #![trigger most[i], most[j]] 0 <= i < j < most.len() implies
            engine::not_after(most[i], most[j]) by {}
        lemma_placed(most, s.last());
        assert(rest.push(s.last()) =~= s);
        let all = engine::sorted_tables(s);
        assert forall|i: int, j: int| #![trigger all[i], all[j]] 0 <= i < j < all.len() implies
            all[i].level < all[j].level || all[i].level == all[j].level && all[i].id >= all[j].id by {
            assert(engine::not_after(all[i], all[j]));
        }
    }
}

// ---------------------------------------------------------------------------------------------
// Files
// ---------------------------------------------------------------------------------------------
proof fn lemma_padded(digits: Seq<char>)
    requires
        text::all_digits(digits),
        digits.len() > 0,
    ensures
        text::all_digits(engine::padded(digits)),
        engine::padded(digits).len() >= 6,
        engine::padded(digits).len() >= digits.len(),
        text::dec_value(engine::padded(digits)) == text::dec_value(digits),
    decreases 6 - digits.len(),
{
    if digits.len() < 6 {
        let more = seq!['0'] + digits;
        assert forall|i: int| 0 <= i < more.len() implies '0' <= #[trigger] more[i] && more[i]
            <= '9' by {
            if i > 0 {
                assert(more[i] == digits[i - 1]);
            }
        }
        lemma_zero(digits);
        lemma_padded(more);
    }
}

proof fn lemma_zero(digits: Seq<char>)
    ensures
        text::dec_value(seq!['0'] + digits) == text::dec_value(digits),
    decreases digits.len(),
{
    let more = seq!['0'] + digits;
    if digits.len() == 0 {
        assert(more.drop_last() =~= Seq::<char>::empty());
        reveal_with_fuel(text::dec_value, 2);
    } else {
        lemma_zero(digits.drop_last());
        assert(more.drop_last() =~= seq!['0'] + digits.drop_last());
        assert(more.last() == digits.last());
    }
}

/// The file of a table is found again by its name, and its number read from it; so tables with
/// different numbers have different files.
pub proof fn law_table_file_names_its_number(dir: Seq<char>, id: u64, other: u64)
    ensures
        engine::names_table(engine::padded(text::dec_text(id as nat)) + ".sst"@),
        engine::id_of_name(engine::padded(text::dec_text(id as nat)) + ".sst"@) == Some(id as nat),
        id != other ==> engine::table_path(dir, id) != engine::table_path(dir, other),
        engine::table_path(dir, id).len() >= dir.len() + 10,
        engine::table_path(dir, id).take(dir.len() as int) == dir,
{
    lemma_file_name(id);
    lemma_file_name(other);
    reveal_strlit("/");
    reveal_strlit(".sst");
    let a = engine::padded(text::dec_text(id as nat)) + ".sst"@;
    let b = engine::padded(text::dec_text(other as nat)) + ".sst"@;
    let head = if dir.len() == 0 || dir.last() == '/' {
        dir
    } else {
        dir + "/"@
    };
    assert(engine::table_path(dir, id) =~= head + a);
    assert(engine::table_path(dir, other) =~= head + b);
    if engine::table_path(dir, id) == engine::table_path(dir, other) {
        assert((head + a).skip(head.len() as int) =~= a);
        assert((head + b).skip(head.len() as int) =~= b);
    }
    assert((head + a).take(dir.len() as int) =~= dir);
}

proof fn lemma_file_name(id: u64)
    ensures
        engine::names_table(engine::padded(text::dec_text(id as nat)) + ".sst"@),
        engine::id_of_name(engine::padded(text::dec_text(id as nat)) + ".sst"@) == Some(id as nat),
        engine::padded(text::dec_text(id as nat)).len() >= 6,
{
    reveal_strlit(".sst");
    reveal_strlit("sst");
    crate::proto::laws::lemma_dec_text(id as nat);
    let digits = engine::padded(text::dec_text(id as nat));
    lemma_padded(text::dec_text(id as nat));
    let name = digits + ".sst"@;
    let at = digits.len() as int;
    assert(name[at] == '.');
    lemma_last_place(name, '.', at);
    assert(name.skip(at + 1) =~= "sst"@);
    assert(name.take(at) =~= digits);
    assert('0' <= digits[0]);
}

proof fn lemma_last_place(s: Seq<char>, c: char, at: int)
    requires
        0 <= at < s.len(),
        s[at] == c,
        forall|i: int| at < i < s.len() ==> #[trigger] s[i] != c,
    ensures
        engine::last_place(s, c) == Some(at),
    decreases s.len(),
{
    if at < s.len() - 1 {
        assert(s[s.len() - 1] != c);
        lemma_last_place(s.drop_last(), c, at);
    }
}

/// The highest number of some files is that of one of them, and no file has a higher one.
pub proof fn law_highest_number_is_above_none(listing: Seq<TableFile>, n: int, i: int)
    requires
        0 <= i < n <= listing.len(),
    ensures
        listing[i].id <= engine::max_id(listing, n),
        exists|j: int| 0 <= j < n && (#[trigger] listing[j]).id == engine::max_id(listing, n),
    decreases n,
{
    let rest = engine::max_id(listing, n - 1);
    if i < n - 1 {
        law_highest_number_is_above_none(listing, n - 1, i);
    }
    if listing[n - 1].id >= rest {
        assert(listing[n - 1].id == engine::max_id(listing, n));
    } else {
        law_highest_number_is_above_none(listing, n - 1, 0);
        let j = choose|j: int| 0 <= j < n - 1 && (#[trigger] listing[j]).id == rest;
        assert(listing[j].id == engine::max_id(listing, n));
    }
}

// ---------------------------------------------------------------------------------------------
// Memory
// ---------------------------------------------------------------------------------------------
/// A put counts the bytes of its value and 96 more, a delete 96; and once the count reaches the limit
/// the memory table is set aside and a new one begun.
pub proof fn law_memory_is_set_aside_at_its_limit(
    v: EngineView,
    op: OpView,
    seq_num: u64,
    timestamp: u64,
)
    requires
        v.memory.dom().finite(),
        v.memory_size + 96 + (if op.value is Some { op.value.unwrap().len() } else { 0 }) <= usize::MAX,
    ensures
        ({
            let size = v.memory_size + 96 + (if op.op == OpType::Put && op.value is Some {
                op.value.unwrap().len()
            } else {
                0
            });
            let w = engine::after_batch(v, seq![op], seq_num, timestamp);
            if size >= v.limit {
                w.memory == Map::<u128, EntryView>::empty() && w.memory_size == 0 && w.waiting.len()
                    == v.waiting.len() + 1 && w.waiting.last().contains_key(op.key)
            } else {
                w.memory_size == size && w.waiting == v.waiting && w.memory.contains_key(op.key)
            }
        }),
{
    reveal_with_fuel(engine::applied, 2);
    reveal_with_fuel(engine::applied_size, 2);
    let ops = seq![op];
    assert(ops.drop_last() =~= Seq::empty());
    let more = if op.op == OpType::Put && op.value is Some {
        op.value.unwrap().len()
    } else {
        0
    };
    assert(crate::storage::memtable::value_len(engine::op_entry(op, 0, 0)) == more);
    assert(engine::applied_size(v.memory_size, ops.drop_last()) == v.memory_size);
    let size = v.memory_size + 96 + more;
    assert(0 <= size < usize::MAX + 1);
    vstd::arithmetic::div_mod::lemma_small_mod(size as nat, (usize::MAX + 1) as nat);
    assert(engine::applied_size(v.memory_size, ops) == size);
    let m = engine::applied(v.memory, ops, seq_num, timestamp);
    assert(m.dom().contains(op.key));
    assert(m.dom() =~= v.memory.dom().insert(op.key));
    assert(m.dom().len() > 0) by {
        if m.dom().len() == 0 {
            assert(m.dom() =~= Set::empty());
        }
    }
}

// ---------------------------------------------------------------------------------------------
// The cache
// ---------------------------------------------------------------------------------------------
proof fn lemma_total_concat(a: Seq<(CacheKey, Seq<u8>)>, b: Seq<(CacheKey, Seq<u8>)>)
    ensures
        cache::total_len(a + b) == cache::total_len(a) + cache::total_len(b),
    decreases b.len(),
{
    if b.len() == 0 {
        assert(a + b =~= a);
    } else {
        lemma_total_concat(a, b.drop_last());
        assert((a + b).drop_last() =~= a + b.drop_last());
    }
}

proof fn lemma_total_without(s: Seq<(CacheKey, Seq<u8>)>, key: CacheKey)
    ensures
        cache::total_len(cache::without(s, key)) <= cache::total_len(s),
    decreases s.len(),
{
    if s.len() > 0 {
        lemma_total_without(s.drop_last(), key);
        let p = cache::without(s.drop_last(), key);
        assert(p.push(s.last()).drop_last() =~= p);
    }
}

/// A block that was stored or looked up is the one used last; what is stored fits the limit together
/// with what stays, and where all fits, nothing else goes.
pub proof fn law_cache_keeps_what_fits(c: CacheView, key: CacheKey, data: Seq<u8>)
    requires
        c.capacity > 0,
        data.len() <= c.capacity,
    ensures
        ({
            let after = cache::stored(c, key, data);
            &&& after.capacity == c.capacity
            &&& after.blocks.len() > 0 && after.blocks[0] == (key, data)
            &&& cache::total_len(after.blocks) <= c.capacity
            &&& cache::total_len(c.blocks) + data.len() <= c.capacity ==> after.blocks == seq![
                (key, data),
            ] + cache::without(c.blocks, key)
        }),
        cache::cached(c.blocks, key) matches Some(v) ==> cache::touched(c, key).blocks.len() > 0
            && cache::touched(c, key).blocks[0] == (key, v),
        cache::cached(c.blocks, key) is None ==> cache::touched(c, key) == c,
{
    let room = c.capacity - data.len();
    cache::law_eviction_takes_from_the_end(c.blocks, room);
    let rest = cache::evicted(c.blocks, room);
    let n = choose|n: int|
        0 <= n <= c.blocks.len() && rest == #[trigger] c.blocks.take(n) && cache::total_len(
            c.blocks.take(n),
        ) <= room && (n < c.blocks.len() ==> cache::total_len(c.blocks.take(n + 1)) > room);
    lemma_total_without(rest, key);
    lemma_total_concat(seq![(key, data)], cache::without(rest, key));
    assert(cache::total_len(seq![(key, data)]) == data.len()) by {
        reveal_with_fuel(cache::total_len, 2);
        assert(seq![(key, data)].drop_last() =~= Seq::empty());
    }
}

// ---------------------------------------------------------------------------------------------
// Files that are no tables
// ---------------------------------------------------------------------------------------------
/// A file that is too short for a table, or whose last 8 bytes are not the mark of one, is not opened.
pub proof fn law_other_files_are_not_opened(path: Seq<char>, image: Seq<u8>, id: u64, level: u32)
    ensures
        image.len() < 80 ==> sstable::opened_image(path, image, id, level) is Err,
        image.len() >= 80 && wire::be_value(image.subrange(image.len() - 8, image.len() as int))
            != 0x4d454f5753535431 ==> sstable::opened_image(path, image, id, level) is Err,
{
    if image.len() >= 80 {
        let end = image.subrange(image.len() - 80, image.len() as int);
        assert(end.subrange(72, 80) =~= image.subrange(image.len() - 8, image.len() as int));
        wire::lemma_be_value_bound(end.subrange(72, 80));
        assert(wire::byte_pow(8) == 0x1_0000_0000_0000_0000) by {
            reveal_with_fuel(wire::byte_pow, 9);
        }
    }
}

/// The entries that wait are counted memory table by memory table, as far as the machine counts.
pub proof fn law_waiting_entries_are_counted(waiting: Seq<Map<u128, EntryView>>, n: int)
    requires
        0 <= n < waiting.len(),
        engine::waiting_total(waiting, n) + waiting[n].len() <= usize::MAX,
    ensures
        engine::waiting_total(waiting, 0) == 0,
        engine::waiting_total(waiting, n + 1) == engine::waiting_total(waiting, n) + waiting[n].len(),
{
}

/// The records of a batch are its operations in their order, numbered one after the other from the first
/// number on, all with the time of the batch; an engine goes on with the number after the last.
pub proof fn law_records_of_a_batch(ops: Seq<OpView>, first: u64, timestamp: u64, i: int)
    requires
        0 <= i < ops.len(),
        first + ops.len() <= u64::MAX,
    ensures
        ({
            let records = engine::batch_records(ops, first, timestamp);
            &&& records.len() == ops.len()
            &&& records[i].seq_num == first + i
            &&& records[i].timestamp == timestamp
            &&& records[i].key == ops[i].key
            &&& records[i].value == ops[i].value
            &&& records[i].op_type == ops[i].op
            &&& crate::storage::wal::seq_after(first, ops.len() as int) == first + ops.len()
        }),
{
}

} // verus!
