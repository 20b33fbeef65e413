//! The table of recent writes, kept in memory in key order.
use core::ops::Bound;
use crossbeam_skiplist::SkipMap;
use vstd::prelude::*;

use crate::storage::sstable;
use crate::types::{EntryView, PlayerId, ValueEntry};
use crate::types;

verus! {

#[verifier::external_type_specification]
#[verifier::external_body]
#[verifier::reject_recursive_types(K)]
#[verifier::reject_recursive_types(V)]
pub struct ExSkipMap<K, V>(SkipMap<K, V>);

/// A skip map of entries.
pub type EntryMap = SkipMap<u128, ValueEntry>;

/// What a skip map of entries holds.
pub uninterp spec fn skip_map_entries(m: EntryMap) -> Map<u128, EntryView>;

/// `SkipMap::new` holds nothing.
#[verifier::external_body]
fn map_new() -> (r: EntryMap)
    ensures
        skip_map_entries(r).dom() == Set::<u128>::empty(),
{
    SkipMap::new()
}

/// `SkipMap::insert` puts the value under the key, in place of one that was there.
#[verifier::external_body]
fn map_insert(m: &mut EntryMap, key: u128, entry: ValueEntry)
    ensures
        skip_map_entries(*final(m)) == skip_map_entries(*old(m)).insert(key, entry@),
{
    m.insert(key, entry);
}

/// `SkipMap::get` finds the value under the key; a copy of it is handed out.
#[verifier::external_body]
fn map_get(m: &EntryMap, key: u128) -> (r: Option<ValueEntry>)
    ensures
        match r {
            Some(e) => skip_map_entries(*m).contains_key(key) && skip_map_entries(*m)[key] == e@,
            None => !skip_map_entries(*m).contains_key(key),
        },
{
    m.get(&key).map(|e| e.value().clone())
}

/// `SkipMap::contains_key` tells whether there is a value under the key.
#[verifier::external_body]
fn map_contains(m: &EntryMap, key: u128) -> (r: bool)
    ensures
        r == skip_map_entries(*m).contains_key(key),
{
    m.contains_key(&key)
}

/// `SkipMap::len` is the number of keys.
#[verifier::external_body]
fn map_len(m: &EntryMap) -> (r: usize)
    ensures
        r == skip_map_entries(*m).len(),
{
    m.len()
}

/// `SkipMap::range` walks the keys within the bounds, both included, in ascending order; copies of
/// the keys and values are handed out.
#[verifier::external_body]
fn map_range(m: &EntryMap, start: Option<u128>, end: Option<u128>) -> (r: Vec<
    (PlayerId, ValueEntry),
>)
    ensures
        sstable::ascending(types::entries_view(r@)),
        forall|i: int|
            0 <= i < r@.len() ==> within((#[trigger] r@[i]).0.0, start, end)
                && skip_map_entries(*m).contains_key(r@[i].0.0) && skip_map_entries(*m)[r@[i].0.0]
                == r@[i].1@,
        forall|k: u128|
            within(k, start, end) && #[trigger] skip_map_entries(*m).contains_key(k) ==> exists|
                i: int,
            | 0 <= i < r@.len() && (#[trigger] r@[i]).0.0 == k,
{
    let lower = start.map_or(Bound::Unbounded, Bound::Included);
    let upper = end.map_or(Bound::Unbounded, Bound::Included);
    m.range((lower, upper)).map(|e| (PlayerId(*e.key()), e.value().clone())).collect()
}

/// The key lies within optional bounds, both included.
pub open spec fn within(key: u128, start: Option<u128>, end: Option<u128>) -> bool {
    &&& start matches Some(a) ==> a <= key
    &&& end matches Some(b) ==> key <= b
}

/// The entries of a map whose keys lie within bounds, in ascending order.
pub open spec fn lists_range(
    s: Seq<(u128, EntryView)>,
    m: Map<u128, EntryView>,
    start: Option<PlayerId>,
    end: Option<PlayerId>,
) -> bool {
    &&& sstable::ascending(s)
    &&& forall|i: int|
        0 <= i < s.len() ==> sstable::in_range((#[trigger] s[i]).0, start, end) && m.contains_key(
            s[i].0,
        ) && m[s[i].0] == s[i].1
    &&& forall|k: u128|
        sstable::in_range(k, start, end) && #[trigger] m.contains_key(k) ==> exists|i: int|
            0 <= i < s.len() && (#[trigger] s[i]).0 == k
}

/// The list of the entries of a map whose keys lie within bounds, in ascending order.
pub open spec fn sorted_range(
    m: Map<u128, EntryView>,
    start: Option<PlayerId>,
    end: Option<PlayerId>,
) -> Seq<(u128, EntryView)> {
    choose|s: Seq<(u128, EntryView)>| lists_range(s, m, start, end)
}

/// What one entry adds to the estimate of memory used, besides its value: key, entry, node.
pub const ENTRY_OVERHEAD: usize = 96;

/// The memory table.
pub struct MemTable {
    map: EntryMap,
    approx_size_bytes: usize,
}

impl View for MemTable {
    type V = Map<u128, EntryView>;

    closed spec fn view(&self) -> Map<u128, EntryView> {
        skip_map_entries(self.map)
    }
}

/// The bytes of an entry's value.
pub open spec fn value_len(e: EntryView) -> nat {
    match e.value {
        Some(v) => v.len(),
        None => 0,
    }
}

impl MemTable {
    /// The number of keys is finite.
    pub closed spec fn wf(&self) -> bool {
        skip_map_entries(self.map).dom().finite()
    }

    pub closed spec fn spec_size(&self) -> usize {
        self.approx_size_bytes
    }

    pub proof fn lemma_finite(&self)
        requires
            self.wf(),
        ensures
            self@.dom().finite(),
    {
    }

    pub fn new() -> (r: Self)
        ensures
            r.wf(),
            r@ == Map::<u128, EntryView>::empty(),
            r.spec_size() == 0,
    {
        let map = map_new();
        assert(skip_map_entries(map) =~= Map::<u128, EntryView>::empty());
        MemTable { map, approx_size_bytes: 0 }
    }

    /// Puts an entry under a key, in place of one that was there. The size estimate grows by the
    /// value's length and 96 bytes either way, and wraps around.
    pub fn insert(&mut self, key: PlayerId, entry: ValueEntry)
        requires
            old(self).wf(),
        ensures
            final(self).wf(),
            final(self)@ == old(self)@.insert(key.0, entry@),
            final(self).spec_size() == (old(self).spec_size() + ENTRY_OVERHEAD + value_len(entry@))
                % (usize::MAX + 1),
    {
        let val_len: usize = match &entry.value {
            Some(v) => v.len(),
            None => 0,
        };
        let added: usize = ENTRY_OVERHEAD.wrapping_add(val_len);
        map_insert(&mut self.map, key.0, entry);
        proof {
            let m = usize::MAX + 1;
            let total = self.approx_size_bytes + ENTRY_OVERHEAD + val_len;
            let left = self.approx_size_bytes.wrapping_add(added);
            let turns: int = if total < m {
                0
            } else if total < 2 * m {
                1
            } else {
                2
            };
            assert(total == turns * m + left) by (nonlinear_arith)
                requires
                    turns == 0 && total == left || turns == 1 && total == m + left || turns == 2
                        && total == m + m + left,
            ;
            vstd::arithmetic::div_mod::lemma_fundamental_div_mod_converse(
                total,
                m,
                turns,
                left as int,
            );
        }
        self.approx_size_bytes = self.approx_size_bytes.wrapping_add(added);
    }

    pub fn get(&self, key: &PlayerId) -> (r: Option<ValueEntry>)
        ensures
            match r {
                Some(e) => self@.contains_key(key.0) && self@[key.0] == e@,
                None => !self@.contains_key(key.0),
            },
    {
        map_get(&self.map, key.0)
    }

    pub fn contains_key(&self, key: &PlayerId) -> (r: bool)
        ensures
            r == self@.contains_key(key.0),
    {
        map_contains(&self.map, key.0)
    }

    /// All entries in key order.
    pub fn iter(&self) -> (r: Vec<(PlayerId, ValueEntry)>)
        ensures
            lists_range(types::entries_view(r@), self@, None, None),
            types::entries_view(r@) == sorted_range(self@, None, None),
    {
        self.range(None, None)
    }

    /// The entries whose keys lie within bounds, both included, in key order.
    pub fn range(&self, start: Option<PlayerId>, end: Option<PlayerId>) -> (r: Vec<
        (PlayerId, ValueEntry),
    >)
        ensures
            lists_range(types::entries_view(r@), self@, start, end),
            types::entries_view(r@) == sorted_range(self@, start, end),
    {
        let lower = match start {
            Some(k) => Some(k.0),
            None => None,
        };
        let upper = match end {
            Some(k) => Some(k.0),
            None => None,
        };
        let out = map_range(&self.map, lower, upper);
        proof {
            let view = types::entries_view(out@);
            assert forall|i: int| 0 <= i < view.len() implies sstable::in_range(
                (#[trigger] view[i]).0,
                start,
                end,
            ) && self@.contains_key(view[i].0) && self@[view[i].0] == view[i].1 by {
                assert(view[i] == (out@[i].0.0, out@[i].1@));
            }
            assert forall|k: u128|
                sstable::in_range(k, start, end) && #[trigger] self@.contains_key(
                    k,
                ) implies exists|i: int| 0 <= i < view.len() && (#[trigger] view[i]).0 == k by {
                assert(within(k, lower, upper));
                assert(skip_map_entries(self.map).contains_key(k));
                let i = choose|i: int| 0 <= i < out@.len() && (#[trigger] out@[i]).0.0 == k;
                assert(view[i].0 == k);
            }
            lemma_lists_range_unique(view, sorted_range(self@, start, end), self@, start, end);
        }
        out
    }

    pub fn len(&self) -> (r: usize)
        ensures
            r == self@.len(),
    {
        map_len(&self.map)
    }

    pub fn is_empty(&self) -> (r: bool)
        requires
            self.wf(),
        ensures
            r == (self@ == Map::<u128, EntryView>::empty()),
    {
        let n: usize = map_len(&self.map);
        proof {
            if n == 0 {
                assert(self@.dom() =~= Set::empty());
                assert(self@ =~= Map::empty());
            }
        }
        n == 0
    }

    /// The estimate of memory used.
    pub fn size_bytes(&self) -> (r: usize)
        ensures
            r == self.spec_size(),
    {
        self.approx_size_bytes
    }
}

impl Default for MemTable {
    fn default() -> (r: Self)
        ensures
            r.wf(),
            r@ == Map::<u128, EntryView>::empty(),
            r.spec_size() == 0,
    {
        MemTable::new()
    }
}

/// Two ascending lists of the same range of the same map are the same.
pub proof fn lemma_lists_range_unique(
    a: Seq<(u128, EntryView)>,
    b: Seq<(u128, EntryView)>,
    m: Map<u128, EntryView>,
    start: Option<PlayerId>,
    end: Option<PlayerId>,
)
    requires
        lists_range(a, m, start, end),
        lists_range(b, m, start, end),
    ensures
        a == b,
    decreases a.len(),
{
    if a.len() == 0 {
        if b.len() > 0 {
            assert(m.contains_key(b[0].0));
            let i = choose|i: int| 0 <= i < a.len() && (#[trigger] a[i]).0 == b[0].0;
            assert(false);
        }
        assert(a =~= b);
    } else {
        assert(b.len() > 0) by {
            assert(m.contains_key(a[0].0));
            let i = choose|i: int| 0 <= i < b.len() && (#[trigger] b[i]).0 == a[0].0;
        }
        let la = a.last();
        let lb = b.last();
        assert(la.0 == lb.0) by {
            assert(m.contains_key(a[a.len() - 1].0));
            assert(m.contains_key(b[b.len() - 1].0));
            let i = choose|i: int| 0 <= i < b.len() && (#[trigger] b[i]).0 == la.0;
            let j = choose|j: int| 0 <= j < a.len() && (#[trigger] a[j]).0 == lb.0;
            assert(i < b.len() - 1 ==> b[i].0 < b[b.len() - 1].0);
            assert(j < a.len() - 1 ==> a[j].0 < a[a.len() - 1].0);
        }
        let m2 = m.remove(la.0);
        let pa = a.drop_last();
        let pb = b.drop_last();
        lemma_lists_range_shorter(a, m, start, end);
        lemma_lists_range_shorter(b, m, start, end);
        lemma_lists_range_unique(pa, pb, m2, start, end);
        assert(a =~= pa.push(la));
        assert(b =~= pb.push(lb));
        assert(m[a[a.len() - 1].0] == a[a.len() - 1].1);
        assert(m[b[b.len() - 1].0] == b[b.len() - 1].1);
    }
}

proof fn lemma_lists_range_shorter(
    a: Seq<(u128, EntryView)>,
    m: Map<u128, EntryView>,
    start: Option<PlayerId>,
    end: Option<PlayerId>,
)
    requires
        lists_range(a, m, start, end),
        a.len() > 0,
    ensures
        lists_range(a.drop_last(), m.remove(a.last().0), start, end),
{
    let p = a.drop_last();
    let m2 = m.remove(a.last().0);
    assert forall|i: int, j: int| 0 <= i < j < p.len() implies (#[trigger] p[i]).0 < (
    #[trigger] p[j]).0 by {
        assert(p[i] == a[i] && p[j] == a[j]);
    }
    assert forall|i: int| 0 <= i < p.len() implies sstable::in_range((#[trigger] p[i]).0, start, end)
        && m2.contains_key(p[i].0) && m2[p[i].0] == p[i].1 by {
        assert(p[i] == a[i]);
        assert(a[i].0 < a[a.len() - 1].0);
    }
    assert forall|k: u128|
        sstable::in_range(k, start, end) && #[trigger] m2.contains_key(k) implies exists|i: int|
        0 <= i < p.len() && (#[trigger] p[i]).0 == k by {
        assert(m.contains_key(k));
        let i = choose|i: int| 0 <= i < a.len() && (#[trigger] a[i]).0 == k;
        assert(i < a.len() - 1);
        assert(p[i].0 == k);
    }
}

} // verus!
