//! A cache of blocks that keeps the ones used last.
use bytes::Bytes;
use std::collections::HashMap;
use vstd::prelude::*;

use crate::wire;

verus! {

broadcast use vstd::std_specs::hash::group_hash_axioms;

/// A block: the table it belongs to and its offset there.
#[derive(Clone, Copy, Debug, PartialEq, Eq, Hash, Structural)]
pub struct CacheKey {
    pub sst_id: u64,
    pub block_offset: u64,
}

/// A block as one number.
spec fn code(key: CacheKey) -> u128 {
    (key.sst_id * 0x1_0000_0000_0000_0000 + key.block_offset) as u128
}

fn code_of(key: CacheKey) -> (r: u128)
    ensures
        r == code(key),
{
    key.sst_id as u128 * 0x1_0000_0000_0000_0000 + key.block_offset as u128
}

proof fn lemma_code_injective(a: CacheKey, b: CacheKey)
    requires
        code(a) == code(b),
    ensures
        a == b,
{
}

// ---------------------------------------------------------------------------------------------
// What a cache holds
// ---------------------------------------------------------------------------------------------
/// The bytes of some blocks together.
pub open spec fn total_len(s: Seq<(CacheKey, Seq<u8>)>) -> nat
    decreases s.len(),
{
    if s.len() == 0 {
        0
    } else {
        total_len(s.drop_last()) + s.last().1.len()
    }
}

/// The blocks that are left when those used least recently go until the rest fits `room`.
pub open spec fn evicted(s: Seq<(CacheKey, Seq<u8>)>, room: int) -> Seq<(CacheKey, Seq<u8>)>
    decreases s.len(),
{
    if s.len() == 0 || total_len(s) <= room {
        s
    } else {
        evicted(s.drop_last(), room)
    }
}

/// The blocks but for one.
pub open spec fn without(s: Seq<(CacheKey, Seq<u8>)>, key: CacheKey) -> Seq<(CacheKey, Seq<u8>)>
    decreases s.len(),
{
    if s.len() == 0 {
        s
    } else if s.last().0 == key {
        without(s.drop_last(), key)
    } else {
        without(s.drop_last(), key).push(s.last())
    }
}

/// The bytes of a block, where it is held.
pub open spec fn cached(s: Seq<(CacheKey, Seq<u8>)>, key: CacheKey) -> Option<Seq<u8>>
    decreases s.len(),
{
    if s.len() == 0 {
        None
    } else if s.last().0 == key {
        Some(s.last().1)
    } else {
        cached(s.drop_last(), key)
    }
}

/// No block is held twice.
pub open spec fn distinct_keys(s: Seq<(CacheKey, Seq<u8>)>) -> bool {
    forall|i: int, j: int| 0 <= i < j < s.len() ==> (#[trigger] s[i]).0 != (#[trigger] s[j]).0
}

proof fn lemma_absent(s: Seq<(CacheKey, Seq<u8>)>, key: CacheKey)
    requires
        forall|i: int| 0 <= i < s.len() ==> (#[trigger] s[i]).0 != key,
    ensures
        cached(s, key) is None,
        without(s, key) == s,
    decreases s.len(),
{
    if s.len() > 0 {
        let p = s.drop_last();
        assert(s[s.len() - 1] == s.last());
        assert forall|i: int| 0 <= i < p.len() implies (#[trigger] p[i]).0 != key by {
            assert(p[i] == s[i]);
        }
        lemma_absent(p, key);
        assert(p.push(s.last()) =~= s);
    }
}

proof fn lemma_present(s: Seq<(CacheKey, Seq<u8>)>, at: int)
    requires
        distinct_keys(s),
        0 <= at < s.len(),
    ensures
        cached(s, s[at].0) == Some(s[at].1),
        without(s, s[at].0) == s.remove(at),
    decreases s.len(),
{
    let key = s[at].0;
    let p = s.drop_last();
    assert(distinct_keys(p)) by {
        assert forall|i: int, j: int| 0 <= i < j < p.len() implies (#[trigger] p[i]).0 != (
        #[trigger] p[j]).0 by {
            assert(p[i] == s[i] && p[j] == s[j]);
        }
    }
    if at == s.len() - 1 {
        assert forall|i: int| 0 <= i < p.len() implies (#[trigger] p[i]).0 != key by {
            assert(p[i] == s[i]);
        }
        lemma_absent(p, key);
        assert(s.remove(at) =~= p);
    } else {
        assert(s[at].0 != s[s.len() - 1].0);
        lemma_present(p, at);
        assert(p[at] == s[at]);
        assert(s.remove(at) =~= p.remove(at).push(s.last()));
    }
}

// ---------------------------------------------------------------------------------------------
// The list
// ---------------------------------------------------------------------------------------------
struct Node {
    key: CacheKey,
    val: Bytes,
    size: usize,
    prev: Option<usize>,
    next: Option<usize>,
}

/// Blocks in a doubly linked list, the one used last at the head.
struct LruInner {
    nodes: Vec<Option<Node>>,
    free_indices: Vec<usize>,
    map: HashMap<u128, usize>,
    head: Option<usize>,
    tail: Option<usize>,
    current_bytes: usize,
    order: Ghost<Seq<usize>>,
}

/// The node at place `i` of a list knows its neighbours.
spec fn node_ok(nodes: Seq<Option<Node>>, order: Seq<usize>, i: int) -> bool {
    &&& order[i] < nodes.len()
    &&& nodes[order[i] as int] matches Some(n) && n.prev == (if i == 0 {
        None
    } else {
        Some(order[i - 1])
    }) && n.next == (if i == order.len() - 1 {
        None
    } else {
        Some(order[i + 1])
    })
}

/// The links between the nodes of a list say the order in which they stand.
spec fn linked(
    nodes: Seq<Option<Node>>,
    order: Seq<usize>,
    head: Option<usize>,
    tail: Option<usize>,
) -> bool {
    &&& forall|i: int, j: int| 0 <= i < j < order.len() ==> #[trigger] order[i] != #[trigger] order[j]
    &&& forall|i: int| 0 <= i < order.len() ==> #[trigger] node_ok(nodes, order, i)
    &&& head == (if order.len() == 0 {
        None
    } else {
        Some(order[0])
    })
    &&& tail == (if order.len() == 0 {
        None
    } else {
        Some(order.last())
    })
}

/// The map leads to this node, and the node knows its size.
spec fn entry_ok(nodes: Seq<Option<Node>>, map: Map<u128, usize>, idx: usize) -> bool {
    &&& idx < nodes.len()
    &&& nodes[idx as int] matches Some(n) && map.contains_key(code(n.key)) && map[code(n.key)] == idx
        && n.size == wire::bytes_view(n.val).len()
}

/// Two sets of nodes differ in their links alone.
spec fn same_but_links(a: Seq<Option<Node>>, b: Seq<Option<Node>>) -> bool {
    &&& a.len() == b.len()
    &&& forall|i: int|
        0 <= i < a.len() ==> ((#[trigger] a[i]) is Some <==> b[i] is Some) && (a[i] is Some
            ==> a[i].unwrap().key == b[i].unwrap().key && a[i].unwrap().val == b[i].unwrap().val
            && a[i].unwrap().size == b[i].unwrap().size)
}

/// The block of a node.
spec fn node_view(n: Option<Node>) -> (CacheKey, Seq<u8>) {
    (n.unwrap().key, wire::bytes_view(n.unwrap().val))
}

/// The blocks of a list in order.
spec fn list_view(nodes: Seq<Option<Node>>, order: Seq<usize>) -> Seq<(CacheKey, Seq<u8>)> {
    order.map_values(|i: usize| node_view(nodes[i as int]))
}

impl LruInner {
    spec fn entries(&self) -> Seq<(CacheKey, Seq<u8>)> {
        list_view(self.nodes@, self.order@)
    }

    spec fn wf(&self) -> bool {
        let nodes = self.nodes@;
        let order = self.order@;
        &&& linked(nodes, order, self.head, self.tail)
        &&& forall|i: int|
            0 <= i < order.len() ==> entry_ok(nodes, self.map@, #[trigger] order[i])
        &&& forall|k: u128| #[trigger]
            self.map@.contains_key(k) ==> order.contains(self.map@[k]) && code(
                nodes[self.map@[k] as int].unwrap().key,
            ) == k
        &&& forall|i: int|
            0 <= i < self.free_indices@.len() ==> (#[trigger] self.free_indices@[i]) < nodes.len()
                && nodes[self.free_indices@[i] as int] is None
        &&& forall|i: int, j: int|
            0 <= i < j < self.free_indices@.len() ==> #[trigger] self.free_indices@[i]
                != #[trigger] self.free_indices@[j]
        &&& self.current_bytes == total_len(list_view(nodes, order))
    }

    proof fn lemma_distinct(&self)
        requires
            self.wf(),
        ensures
            distinct_keys(self.entries()),
    {
        let e = self.entries();
        assert forall|i: int, j: int| 0 <= i < j < e.len() implies (#[trigger] e[i]).0 != (
        #[trigger] e[j]).0 by {
            assert(self.order@[i] != self.order@[j]);
        }
    }

    fn new() -> (r: Self)
        ensures
            r.wf(),
            r.entries().len() == 0,
    {
        let r = LruInner {
            nodes: Vec::new(),
            free_indices: Vec::new(),
            map: HashMap::new(),
            head: None,
            tail: None,
            current_bytes: 0,
            order: Ghost(Seq::empty()),
        };
        assert(list_view(r.nodes@, r.order@) =~= Seq::empty());
        r
    }

    fn set_next(&mut self, at: usize, next: Option<usize>)
        requires
            at < old(self).nodes@.len(),
            old(self).nodes@[at as int] is Some,
        ensures
            final(self).nodes@ == old(self).nodes@.update(
                at as int,
                Some((Node { next, ..old(self).nodes@[at as int].unwrap() })),
            ),
            final(self).map == old(self).map,
            final(self).free_indices == old(self).free_indices,
            final(self).head == old(self).head,
            final(self).tail == old(self).tail,
            final(self).current_bytes == old(self).current_bytes,
            final(self).order == old(self).order,
    {
        match &mut self.nodes[at] {
            Some(n) => {
                n.next = next;
            },
            None => {},
        }
    }

    fn set_prev(&mut self, at: usize, prev: Option<usize>)
        requires
            at < old(self).nodes@.len(),
            old(self).nodes@[at as int] is Some,
        ensures
            final(self).nodes@ == old(self).nodes@.update(
                at as int,
                Some((Node { prev, ..old(self).nodes@[at as int].unwrap() })),
            ),
            final(self).map == old(self).map,
            final(self).free_indices == old(self).free_indices,
            final(self).head == old(self).head,
            final(self).tail == old(self).tail,
            final(self).current_bytes == old(self).current_bytes,
            final(self).order == old(self).order,
    {
        match &mut self.nodes[at] {
            Some(n) => {
                n.prev = prev;
            },
            None => {},
        }
    }

    /// Takes a node out of the list.
    fn remove_node(&mut self, idx: usize, Ghost(at): Ghost<int>)
        requires
            linked(old(self).nodes@, old(self).order@, old(self).head, old(self).tail),
            0 <= at < old(self).order@.len(),
            old(self).order@[at] == idx,
        ensures
            final(self).order@ == old(self).order@.remove(at),
            linked(final(self).nodes@, final(self).order@, final(self).head, final(self).tail),
            same_but_links(old(self).nodes@, final(self).nodes@),
            final(self).map == old(self).map,
            final(self).free_indices == old(self).free_indices,
            final(self).current_bytes == old(self).current_bytes,
    {
        let ghost order = self.order@;
        let ghost before = self.nodes@;
        let ghost rest = order.remove(at);
        assert(node_ok(before, order, at));
        let (prev, next): (Option<usize>, Option<usize>) = match &self.nodes[idx] {
            Some(n) => (n.prev, n.next),
            None => (None, None),
        };
        proof {
            if at > 0 {
                assert(node_ok(before, order, at - 1));
            }
            if at < order.len() - 1 {
                assert(node_ok(before, order, at + 1));
                assert(at > 0 ==> order[at - 1] != order[at + 1]);
            }
        }
        match prev {
            Some(p) => {
                self.set_next(p, next);
            },
            None => {
                self.head = next;
            },
        }
        match next {
            Some(n) => {
                self.set_prev(n, prev);
            },
            None => {
                self.tail = prev;
            },
        }
        self.order = Ghost(rest);
        proof {
            let nodes = self.nodes@;
            assert forall|i: int, j: int| 0 <= i < j < rest.len() implies #[trigger] rest[i]
                != #[trigger] rest[j] by {
                let a = if i < at { i } else { i + 1 };
                let b = if j < at { j } else { j + 1 };
                assert(order[a] != order[b]);
            }
            assert forall|i: int| 0 <= i < rest.len() implies #[trigger] node_ok(nodes, rest, i) by {
                lemma_unlinked(before, order, nodes, at, i);
            }
        }
    }

    /// Puts a node at the head of the list.
    fn push_front(&mut self, idx: usize)
        requires
            linked(old(self).nodes@, old(self).order@, old(self).head, old(self).tail),
            idx < old(self).nodes@.len(),
            old(self).nodes@[idx as int] is Some,
            !old(self).order@.contains(idx),
        ensures
            final(self).order@ == seq![idx] + old(self).order@,
            linked(final(self).nodes@, final(self).order@, final(self).head, final(self).tail),
            same_but_links(old(self).nodes@, final(self).nodes@),
            final(self).map == old(self).map,
            final(self).free_indices == old(self).free_indices,
            final(self).current_bytes == old(self).current_bytes,
    {
        let ghost order = self.order@;
        let ghost before = self.nodes@;
        let ghost all = seq![idx] + order;
        let head = self.head;
        self.set_prev(idx, None);
        self.set_next(idx, head);
        match head {
            Some(h) => {
                assert(order.contains(order[0]));
                assert(node_ok(before, order, 0));
                self.set_prev(h, Some(idx));
            },
            None => {
                self.tail = Some(idx);
            },
        }
        self.head = Some(idx);
        self.order = Ghost(all);
        proof {
            assert forall|i: int, j: int| 0 <= i < j < all.len() implies #[trigger] all[i]
                != #[trigger] all[j] by {
                assert(all[j] == order[j - 1]);
                if i > 0 {
                    assert(all[i] == order[i - 1]);
                } else {
                    assert(order.contains(order[j - 1]));
                }
            }
            let nodes = self.nodes@;
            assert forall|i: int| 0 <= i < all.len() implies #[trigger] node_ok(nodes, all, i) by {
                if i > 0 {
                    assert(node_ok(before, order, i - 1));
                    assert(all[i] == order[i - 1]);
                    assert(order.contains(order[i - 1]));
                    if i > 1 {
                        assert(order[0] != order[i - 1]);
                        assert(all[i - 1] == order[i - 2]);
                    }
                    if i < all.len() - 1 {
                        assert(all[i + 1] == order[i]);
                    }
                }
            }
        }
    }

    proof fn lemma_same_view(a: Seq<Option<Node>>, b: Seq<Option<Node>>, order: Seq<usize>)
        requires
            same_but_links(a, b),
            forall|i: int| 0 <= i < order.len() ==> (#[trigger] order[i]) < a.len(),
            forall|i: int| 0 <= i < order.len() ==> a[(#[trigger] order[i]) as int] is Some,
        ensures
            list_view(a, order) == list_view(b, order),
    {
        assert forall|i: int| 0 <= i < order.len() implies list_view(a, order)[i] == list_view(
            b,
            order,
        )[i] by {
            assert(a[order[i] as int] is Some);
        }
        assert(list_view(a, order) =~= list_view(b, order));
    }

    /// Makes a node the one used last.
    fn move_to_head(&mut self, idx: usize, Ghost(at): Ghost<int>)
        requires
            old(self).wf(),
            0 <= at < old(self).order@.len(),
            old(self).order@[at] == idx,
        ensures
            final(self).wf(),
            final(self).entries() == seq![old(self).entries()[at]] + old(self).entries().remove(at),
            final(self).current_bytes == old(self).current_bytes,
            final(self).order@.len() > 0,
            final(self).order@[0] == idx,
            final(self).nodes@[idx as int] is Some,
            node_view(final(self).nodes@[idx as int]) == old(self).entries()[at],
    {
        let ghost before = self.nodes@;
        let ghost order = self.order@;
        if let Some(h) = self.head {
            if h == idx {
                proof {
                    if at > 0 {
                        assert(order[0] != order[at]);
                    }
                    assert(self.entries() =~= seq![self.entries()[at]] + self.entries().remove(at));
                }
                return ;
            }
        }
        self.remove_node(idx, Ghost(at));
        let ghost mid = self.nodes@;
        assert(!self.order@.contains(idx)) by {
            if self.order@.contains(idx) {
                let i = choose|i: int| 0 <= i < self.order@.len() && self.order@[i] == idx;
                let a = if i < at { i } else { i + 1 };
                assert(order[a] == idx);
                if a < at {
                    assert(order[a] != order[at]);
                } else {
                    assert(order[at] != order[a]);
                }
            }
        }
        assert(mid[idx as int] is Some) by {
            assert(before[idx as int] is Some);
        }
        self.push_front(idx);
        proof {
            let now = self.order@;
            let nodes = self.nodes@;
            assert(same_but_links(before, nodes)) by {
                assert forall|i: int| 0 <= i < before.len() implies ((#[trigger] before[i]) is Some
                    <==> nodes[i] is Some) && (before[i] is Some ==> before[i].unwrap().key
                    == nodes[i].unwrap().key && before[i].unwrap().val == nodes[i].unwrap().val
                    && before[i].unwrap().size == nodes[i].unwrap().size) by {
                    assert(mid[i] is Some <==> before[i] is Some);
                }
            }
            LruInner::lemma_same_view(before, nodes, order);
            assert(list_view(before, order)[at] == node_view(before[idx as int]));
            assert(self.entries() =~= seq![list_view(before, order)[at]] + list_view(
                before,
                order,
            ).remove(at)) by {
                assert forall|i: int| 0 <= i < now.len() implies self.entries()[i] == (seq![
                    list_view(before, order)[at],
                ] + list_view(before, order).remove(at))[i] by {
                    let a = if i == 0 {
                        at
                    } else if i - 1 < at {
                        i - 1
                    } else {
                        i
                    };
                    assert(now[i] == order[a]);
                    assert(before[order[a] as int] is Some);
                }
            }
            lemma_total_moved(list_view(before, order), at);
            assert forall|i: int| 0 <= i < now.len() implies self.map@.contains_key(
                code(nodes[(#[trigger] now[i]) as int].unwrap().key),
            ) && self.map@[code(nodes[now[i] as int].unwrap().key)] == now[i] && nodes[now[i] as int].unwrap().size
                == wire::bytes_view(nodes[now[i] as int].unwrap().val).len() by {
                let a = if i == 0 {
                    at
                } else if i - 1 < at {
                    i - 1
                } else {
                    i
                };
                assert(now[i] == order[a]);
                assert(before[order[a] as int] is Some);
            }
            assert forall|k: u128| #[trigger] self.map@.contains_key(k) implies now.contains(
                self.map@[k],
            ) && code(nodes[self.map@[k] as int].unwrap().key) == k by {
                let a = choose|a: int| 0 <= a < order.len() && order[a] == self.map@[k];
                let i = if a == at {
                    0
                } else if a < at {
                    a + 1
                } else {
                    a
                };
                assert(now[i] == order[a]);
                assert(before[order[a] as int] is Some);
            }
            assert forall|i: int| 0 <= i < self.free_indices@.len() implies (
            #[trigger] self.free_indices@[i]) < nodes.len() && nodes[self.free_indices@[i] as int] is None by {
                assert(before[self.free_indices@[i] as int] is None);
            }
        }
    }

    /// Drops the block used least recently.
    fn evict_tail(&mut self) -> (r: Option<usize>)
        requires
            old(self).wf(),
        ensures
            final(self).wf(),
            old(self).entries().len() == 0 ==> r is None && final(self).entries()
                == old(self).entries(),
            old(self).entries().len() > 0 ==> r is Some && final(self).entries()
                == old(self).entries().drop_last(),
    {
        let ghost before = self.nodes@;
        let ghost order = self.order@;
        let t: usize = match self.tail {
            Some(t) => t,
            None => {
                return None;
            },
        };
        let ghost at = order.len() - 1;
        assert(order[at] == t);
        let (key, size): (CacheKey, usize) = match &self.nodes[t] {
            Some(n) => (n.key, n.size),
            None => {
                return None;
            },
        };
        self.remove_node(t, Ghost(at));
        let ghost mid = self.nodes@;
        let ghost rest = self.order@;
        let c: u128 = code_of(key);
        self.map.remove(&c);
        proof {
            assert(rest =~= order.drop_last());
            LruInner::lemma_same_view(before, mid, order);
            assert(list_view(before, order).drop_last() =~= list_view(mid, rest));
            assert(list_view(before, order).last() == node_view(before[t as int]));
        }
        self.current_bytes = self.current_bytes - size;
        self.nodes.set(t, None);
        self.free_indices.push(t);
        proof {
            let nodes = self.nodes@;
            assert forall|i: int| 0 <= i < rest.len() implies (#[trigger] rest[i]) != t
                && nodes[rest[i] as int] == mid[rest[i] as int] && before[rest[i] as int] is Some by {
                assert(rest[i] == order[i]);
                assert(order[i] != order[at]);
            }
            assert forall|i: int| 0 <= i < rest.len() implies #[trigger] node_ok(nodes, rest, i) by {
                assert(node_ok(mid, rest, i));
                assert(rest[i] != t);
            }
            assert(list_view(nodes, rest) =~= list_view(mid, rest));
            assert forall|i: int| 0 <= i < rest.len() implies self.map@.contains_key(
                code(nodes[(#[trigger] rest[i]) as int].unwrap().key),
            ) && self.map@[code(nodes[rest[i] as int].unwrap().key)] == rest[i] && nodes[rest[i] as int].unwrap().size
                == wire::bytes_view(nodes[rest[i] as int].unwrap().val).len() by {
                assert(rest[i] == order[i]);
                let k = code(before[order[i] as int].unwrap().key);
                assert(k != c);
            }
            assert forall|k: u128| #[trigger] self.map@.contains_key(k) implies rest.contains(
                self.map@[k],
            ) && code(nodes[self.map@[k] as int].unwrap().key) == k by {
                let a = choose|a: int| 0 <= a < order.len() && order[a] == self.map@[k];
                assert(a != at);
                assert(rest[a] == order[a]);
            }
            let free = self.free_indices@;
            assert forall|i: int| 0 <= i < free.len() implies (#[trigger] free[i]) < nodes.len()
                && nodes[free[i] as int] is None by {
                if i < free.len() - 1 {
                    assert(before[free[i] as int] is None);
                    assert(mid[free[i] as int] is None);
                }
            }
            assert forall|i: int, j: int| 0 <= i < j < free.len() implies #[trigger] free[i]
                != #[trigger] free[j] by {
                if j == free.len() - 1 {
                    assert(before[free[i] as int] is None);
                }
            }
        }
        Some(t)
    }

    /// Drops the blocks used least recently until the rest fits `room`.
    fn evict_to(&mut self, room: usize)
        requires
            old(self).wf(),
        ensures
            final(self).wf(),
            final(self).entries() == evicted(old(self).entries(), room as int),
            final(self).current_bytes <= room,
    {
        let ghost all = self.entries();
        while self.current_bytes > room
            invariant
                self.wf(),
                evicted(all, room as int) == evicted(self.entries(), room as int),
            decreases self.entries().len(),
        {
            self.evict_tail();
        }
    }

    /// Where a block stands in the list.
    fn find(&self, key: CacheKey) -> (r: Option<(usize, Ghost<int>)>)
        requires
            self.wf(),
        ensures
            match r {
                Some((idx, at)) => 0 <= at@ < self.order@.len() && self.order@[at@] == idx
                    && self.entries()[at@].0 == key,
                None => forall|i: int| 0 <= i < self.entries().len() ==> (#[trigger] self.entries()[i]).0 != key,
            },
    {
        let c: u128 = code_of(key);
        match self.map.get(&c) {
            Some(idx) => {
                let ghost at = choose|i: int| 0 <= i < self.order@.len() && self.order@[i] == *idx;
                proof {
                    lemma_code_injective(self.nodes@[*idx as int].unwrap().key, key);
                }
                Some((*idx, Ghost(at)))
            },
            None => {
                assert forall|i: int| 0 <= i < self.entries().len() implies (
                #[trigger] self.entries()[i]).0 != key by {
                    let idx = self.order@[i];
                    assert(self.map@.contains_key(code(self.nodes@[idx as int].unwrap().key)));
                }
                None
            },
        }
    }

    /// Puts a block that is not held at the head.
    fn add_front(&mut self, key: CacheKey, data: Bytes)
        requires
            old(self).wf(),
            forall|i: int| 0 <= i < old(self).entries().len() ==> (#[trigger] old(self).entries()[i]).0 != key,
            old(self).current_bytes + wire::bytes_view(data).len() <= usize::MAX,
        ensures
            final(self).wf(),
            final(self).entries() == seq![(key, wire::bytes_view(data))] + old(self).entries(),
            final(self).current_bytes == old(self).current_bytes + wire::bytes_view(data).len(),
    {
        let ghost before = self.nodes@;
        let ghost order = self.order@;
        let ghost held = self.entries();
        let ghost bytes = wire::bytes_view(data);
        let size: usize = data.len();
        let node = Node { key, val: data, size, prev: None, next: None };
        let idx: usize = match self.free_indices.pop() {
            Some(free) => {
                self.nodes.set(free, Some(node));
                free
            },
            None => {
                self.nodes.push(Some(node));
                self.nodes.len() - 1
            },
        };
        let ghost mid = self.nodes@;
        let ghost free = self.free_indices@;
        proof {
            assert(idx < before.len() ==> before[idx as int] is None);
            assert forall|i: int| 0 <= i < before.len() && i != idx implies mid[i] == before[i] by {}
            assert forall|i: int| 0 <= i < order.len() implies (#[trigger] order[i]) != idx
                && mid[order[i] as int] == before[order[i] as int] by {
                assert(before[order[i] as int] is Some);
            }
            assert forall|i: int| 0 <= i < order.len() implies #[trigger] node_ok(mid, order, i) by {
                assert(node_ok(before, order, i));
                assert(order[i] != idx);
            }
            assert(list_view(mid, order) =~= held);
            assert forall|i: int| 0 <= i < free.len() implies (#[trigger] free[i]) < mid.len()
                && mid[free[i] as int] is None by {
                assert(free[i] == old(self).free_indices@[i]);
                if free[i] == idx {
                    assert(old(self).free_indices@[i] != old(self).free_indices@[free.len() as int]);
                }
            }
            assert forall|i: int, j: int| 0 <= i < j < free.len() implies #[trigger] free[i]
                != #[trigger] free[j] by {
                assert(free[i] == old(self).free_indices@[i]);
                assert(free[j] == old(self).free_indices@[j]);
            }
            assert(!order.contains(idx));
        }
        let c: u128 = code_of(key);
        self.map.insert(c, idx);
        self.current_bytes = self.current_bytes + size;
        self.push_front(idx);
        proof {
            let nodes = self.nodes@;
            let now = self.order@;
            LruInner::lemma_same_view(mid, nodes, now);
            assert(list_view(mid, now) =~= seq![(key, bytes)] + held) by {
                assert forall|i: int| 0 <= i < now.len() implies list_view(mid, now)[i] == (seq![
                    (key, bytes),
                ] + held)[i] by {
                    if i > 0 {
                        assert(now[i] == order[i - 1]);
                        assert(held[i - 1] == list_view(mid, order)[i - 1]);
                    }
                }
            }
            lemma_total_concat(seq![(key, bytes)], held);
            lemma_total_one((key, bytes));
            assert forall|i: int| 0 <= i < now.len() implies self.map@.contains_key(
                code(nodes[(#[trigger] now[i]) as int].unwrap().key),
            ) && self.map@[code(nodes[now[i] as int].unwrap().key)] == now[i] && nodes[now[i] as int].unwrap().size
                == wire::bytes_view(nodes[now[i] as int].unwrap().val).len() by {
                assert(mid[now[i] as int] is Some);
                if i > 0 {
                    assert(now[i] == order[i - 1]);
                    assert(held[i - 1].0 == before[order[i - 1] as int].unwrap().key);
                    if code(held[i - 1].0) == c {
                        lemma_code_injective(held[i - 1].0, key);
                    }
                }
            }
            assert forall|k: u128| #[trigger] self.map@.contains_key(k) implies now.contains(
                self.map@[k],
            ) && code(nodes[self.map@[k] as int].unwrap().key) == k by {
                if k == c {
                    assert(now[0] == idx);
                    assert(mid[idx as int] is Some);
                } else {
                    assert(old(self).map@.contains_key(k));
                    let a = choose|a: int| 0 <= a < order.len() && order[a] == self.map@[k];
                    assert(now[a + 1] == order[a]);
                    assert(mid[order[a] as int] is Some);
                }
            }
            assert forall|i: int| 0 <= i < free.len() implies (#[trigger] free[i]) < nodes.len()
                && nodes[free[i] as int] is None by {
                assert(mid[free[i] as int] is None);
            }
        }
    }

    /// Gives the node at the head other bytes.
    fn set_front(&mut self, idx: usize, data: Bytes)
        requires
            old(self).wf(),
            old(self).order@.len() > 0,
            old(self).order@[0] == idx,
            old(self).current_bytes - old(self).entries()[0].1.len() + wire::bytes_view(data).len()
                <= usize::MAX,
        ensures
            final(self).wf(),
            final(self).entries() == old(self).entries().update(
                0,
                (old(self).entries()[0].0, wire::bytes_view(data)),
            ),
            final(self).current_bytes == old(self).current_bytes - old(self).entries()[0].1.len()
                + wire::bytes_view(data).len(),
    {
        let ghost before = self.nodes@;
        let ghost order = self.order@;
        let ghost held = self.entries();
        let ghost bytes = wire::bytes_view(data);
        let entry_size: usize = data.len();
        let old_size: usize = match &self.nodes[idx] {
            Some(n) => n.size,
            None => 0,
        };
        proof {
            assert(held[0] == node_view(before[idx as int]));
            lemma_total_update(held, 0, (held[0].0, bytes));
        }
        self.current_bytes = self.current_bytes - old_size + entry_size;
        match &mut self.nodes[idx] {
            Some(n) => {
                n.val = data;
                n.size = entry_size;
            },
            None => {},
        }
        proof {
            let nodes = self.nodes@;
            assert forall|i: int| 0 <= i < order.len() implies if i == 0 {
                nodes[(#[trigger] order[i]) as int] == Some(
                    Node { val: data, size: entry_size, ..before[idx as int].unwrap() },
                )
            } else {
                nodes[order[i] as int] == before[order[i] as int]
            } by {
                if i > 0 {
                    assert(order[0] != order[i]);
                }
            }
            assert forall|i: int| 0 <= i < order.len() implies #[trigger] node_ok(nodes, order, i) by {
                assert(node_ok(before, order, i));
                assert(order[i] == order[i]);
            }
            assert(list_view(nodes, order) =~= held.update(0, (held[0].0, bytes))) by {
                assert forall|i: int| 0 <= i < order.len() implies list_view(nodes, order)[i]
                    == held.update(0, (held[0].0, bytes))[i] by {
                    assert(order[i] == order[i]);
                }
            }
            assert forall|k: u128| #[trigger] self.map@.contains_key(k) implies order.contains(
                self.map@[k],
            ) && code(nodes[self.map@[k] as int].unwrap().key) == k by {
                let a = choose|a: int| 0 <= a < order.len() && order[a] == self.map@[k];
                assert(order[a] == self.map@[k]);
            }
            assert forall|i: int| 0 <= i < self.free_indices@.len() implies (
            #[trigger] self.free_indices@[i]) < nodes.len() && nodes[self.free_indices@[i] as int] is None by {
                assert(before[self.free_indices@[i] as int] is None);
            }
        }
    }

    fn clear(&mut self)
        ensures
            final(self).wf(),
            final(self).entries().len() == 0,
            final(self).current_bytes == 0,
    {
        self.nodes.clear();
        self.free_indices.clear();
        self.map.clear();
        self.head = None;
        self.tail = None;
        self.current_bytes = 0;
        self.order = Ghost(Seq::empty());
        assert(list_view(self.nodes@, self.order@) =~= Seq::empty());
    }
}

proof fn lemma_total_concat(a: Seq<(CacheKey, Seq<u8>)>, b: Seq<(CacheKey, Seq<u8>)>)
    ensures
        total_len(a + b) == total_len(a) + total_len(b),
    decreases b.len(),
{
    if b.len() == 0 {
        assert(a + b =~= a);
    } else {
        lemma_total_concat(a, b.drop_last());
        assert((a + b).drop_last() =~= a + b.drop_last());
    }
}

proof fn lemma_total_one(x: (CacheKey, Seq<u8>))
    ensures
        total_len(seq![x]) == x.1.len(),
{
    assert(seq![x].drop_last() =~= Seq::empty());
    assert(total_len(seq![x].drop_last()) == 0);
}

proof fn lemma_total_split(s: Seq<(CacheKey, Seq<u8>)>, at: int)
    requires
        0 <= at < s.len(),
    ensures
        total_len(s) == total_len(s.take(at)) + s[at].1.len() + total_len(s.skip(at + 1)),
{
    assert(s =~= s.take(at) + (seq![s[at]] + s.skip(at + 1)));
    lemma_total_concat(s.take(at), seq![s[at]] + s.skip(at + 1));
    lemma_total_concat(seq![s[at]], s.skip(at + 1));
    lemma_total_one(s[at]);
}

proof fn lemma_total_moved(s: Seq<(CacheKey, Seq<u8>)>, at: int)
    requires
        0 <= at < s.len(),
    ensures
        total_len(seq![s[at]] + s.remove(at)) == total_len(s),
{
    lemma_total_split(s, at);
    assert(s.remove(at) =~= s.take(at) + s.skip(at + 1));
    lemma_total_concat(s.take(at), s.skip(at + 1));
    lemma_total_concat(seq![s[at]], s.remove(at));
    lemma_total_one(s[at]);
}

proof fn lemma_total_update(s: Seq<(CacheKey, Seq<u8>)>, at: int, x: (CacheKey, Seq<u8>))
    requires
        0 <= at < s.len(),
    ensures
        total_len(s.update(at, x)) == total_len(s) - s[at].1.len() + x.1.len(),
        s[at].1.len() <= total_len(s),
{
    lemma_total_split(s, at);
    lemma_total_split(s.update(at, x), at);
    assert(s.update(at, x).take(at) =~= s.take(at));
    assert(s.update(at, x).skip(at + 1) =~= s.skip(at + 1));
}

/// A node that stays in a list knows its neighbours after another was taken out.
proof fn lemma_unlinked(
    before: Seq<Option<Node>>,
    order: Seq<usize>,
    nodes: Seq<Option<Node>>,
    at: int,
    i: int,
)
    requires
        forall|i: int, j: int| 0 <= i < j < order.len() ==> #[trigger] order[i] != #[trigger] order[j],
        forall|i: int| 0 <= i < order.len() ==> #[trigger] node_ok(before, order, i),
        0 <= at < order.len(),
        0 <= i < order.len() - 1,
        nodes.len() == before.len(),
        forall|k: int|
            0 <= k < nodes.len() && (at == 0 || k != order[at - 1]) && (at == order.len() - 1 || k
                != order[at + 1]) ==> #[trigger] nodes[k] == before[k],
        at > 0 ==> nodes[order[at - 1] as int] == Some(
            Node {
                next: before[order[at] as int].unwrap().next,
                ..before[order[at - 1] as int].unwrap()
            },
        ),
        at < order.len() - 1 ==> nodes[order[at + 1] as int] == Some(
            Node {
                prev: before[order[at] as int].unwrap().prev,
                ..before[order[at + 1] as int].unwrap()
            },
        ),
    ensures
        node_ok(nodes, order.remove(at), i),
{
    let rest = order.remove(at);
    let a = if i < at { i } else { i + 1 };
    assert(rest[i] == order[a]);
    assert(node_ok(before, order, a));
    assert(node_ok(before, order, at));
    if at > 0 && a != at - 1 {
        assert(order[a] != order[at - 1]);
    }
    if at < order.len() - 1 && a != at + 1 {
        assert(order[a] != order[at + 1]);
    }
    if i > 0 {
        assert(rest[i - 1] == (if i - 1 < at { order[i - 1] } else { order[i] }));
    }
    if i < rest.len() - 1 {
        assert(rest[i + 1] == (if i + 1 < at { order[i + 1] } else { order[i + 2] }));
    }
}

// ---------------------------------------------------------------------------------------------
// The cache
// ---------------------------------------------------------------------------------------------
/// A cache: how many bytes it may hold, and its blocks, the one used last first.
pub struct CacheView {
    pub capacity: usize,
    pub blocks: Seq<(CacheKey, Seq<u8>)>,
}

/// What a lookup leaves: a block that is held becomes the one used last.
pub open spec fn touched(c: CacheView, key: CacheKey) -> CacheView {
    match cached(c.blocks, key) {
        Some(v) if c.capacity > 0 => CacheView {
            blocks: seq![(key, v)] + without(c.blocks, key),
            ..c
        },
        _ => c,
    }
}

/// What inserting a block leaves: nothing changes where the cache is off or the block is larger
/// than it; else those used least recently go until the block fits, and it becomes the one used
/// last.
pub open spec fn stored(c: CacheView, key: CacheKey, data: Seq<u8>) -> CacheView {
    if c.capacity == 0 || data.len() > c.capacity {
        c
    } else {
        CacheView {
            blocks: seq![(key, data)] + without(
                evicted(c.blocks, c.capacity - data.len()),
                key,
            ),
            ..c
        }
    }
}

/// A cache of blocks with a limit on their bytes. A limit of 0 turns it off.
pub struct BlockCache {
    capacity_bytes: usize,
    inner: LruInner,
}

impl View for BlockCache {
    type V = CacheView;

    closed spec fn view(&self) -> CacheView {
        CacheView { capacity: self.capacity_bytes, blocks: self.inner.entries() }
    }
}

impl BlockCache {
    /// The list is sound, and the blocks fit the limit.
    pub closed spec fn wf(&self) -> bool {
        &&& self.inner.wf()
        &&& self.inner.current_bytes <= self.capacity_bytes
    }

    /// No block is held twice, and all together fit the limit.
    pub proof fn law_blocks_fit(&self)
        requires
            self.wf(),
        ensures
            distinct_keys(self@.blocks),
            total_len(self@.blocks) <= self@.capacity,
    {
        self.inner.lemma_distinct();
    }

    pub fn new(capacity_bytes: usize) -> (r: Self)
        ensures
            r.wf(),
            r@.capacity == capacity_bytes,
            r@.blocks.len() == 0,
    {
        BlockCache { capacity_bytes, inner: LruInner::new() }
    }

    pub fn is_enabled(&self) -> (r: bool)
        ensures
            r == (self@.capacity > 0),
    {
        self.capacity_bytes > 0
    }

    /// Changes the limit; blocks used least recently go until the rest fits.
    pub fn set_capacity(&mut self, capacity_bytes: usize)
        requires
            old(self).wf(),
        ensures
            final(self).wf(),
            final(self)@.capacity == capacity_bytes,
            final(self)@.blocks == (if capacity_bytes == 0 {
                Seq::empty()
            } else {
                evicted(old(self)@.blocks, capacity_bytes as int)
            }),
    {
        self.capacity_bytes = capacity_bytes;
        if capacity_bytes == 0 {
            self.inner.clear();
            assert(self@.blocks =~= Seq::empty());
        } else {
            self.inner.evict_to(capacity_bytes);
        }
    }

    /// Looks a block up.
    pub fn get(&mut self, sst_id: u64, block_offset: u64) -> (r: Option<Bytes>)
        requires
            old(self).wf(),
        ensures
            final(self).wf(),
            final(self)@ == touched(old(self)@, (CacheKey { sst_id, block_offset })),
            match r {
                Some(b) => old(self)@.capacity > 0 && cached(
                    old(self)@.blocks,
                    (CacheKey { sst_id, block_offset }),
                ) == Some(wire::bytes_view(b)),
                None => old(self)@.capacity == 0 || cached(
                    old(self)@.blocks,
                    (CacheKey { sst_id, block_offset }),
                ) is None,
            },
    {
        let key = CacheKey { sst_id, block_offset };
        let ghost held = self.inner.entries();
        if self.capacity_bytes == 0 {
            return None;
        }
        match self.inner.find(key) {
            None => {
                proof {
                    lemma_absent(held, key);
                }
                None
            },
            Some((idx, at)) => {
                proof {
                    self.inner.lemma_distinct();
                    lemma_present(held, at@);
                }
                self.inner.move_to_head(idx, at);
                match &self.inner.nodes[idx] {
                    Some(n) => Some(n.val.clone()),
                    None => None,
                }
            },
        }
    }

    /// Stores a block.
    pub fn insert(&mut self, sst_id: u64, block_offset: u64, data: Bytes)
        requires
            old(self).wf(),
        ensures
            final(self).wf(),
            final(self)@ == stored(
                old(self)@,
                (CacheKey { sst_id, block_offset }),
                wire::bytes_view(data),
            ),
    {
        let cap: usize = self.capacity_bytes;
        if cap == 0 {
            return ;
        }
        let entry_size: usize = data.len();
        if entry_size > cap {
            return ;
        }
        let key = CacheKey { sst_id, block_offset };
        let ghost bytes = wire::bytes_view(data);
        self.inner.evict_to(cap - entry_size);
        let ghost held = self.inner.entries();
        match self.inner.find(key) {
            Some((idx, at)) => {
                proof {
                    self.inner.lemma_distinct();
                    lemma_present(held, at@);
                    lemma_total_update(held, at@, held[at@]);
                }
                self.inner.move_to_head(idx, at);
                let ghost moved = self.inner.entries();
                proof {
                    assert(moved[0] == held[at@]);
                    lemma_total_update(moved, 0, moved[0]);
                }
                self.inner.set_front(idx, data);
                assert(self.inner.entries() =~= seq![(key, bytes)] + without(held, key));
            },
            None => {
                proof {
                    lemma_absent(held, key);
                }
                self.inner.add_front(key, data);
            },
        }
    }

    pub fn clear(&mut self)
        ensures
            final(self).wf(),
            final(self)@.capacity == old(self)@.capacity,
            final(self)@.blocks.len() == 0,
    {
        self.inner.clear();
    }

    /// The bytes held and the limit.
    pub fn current_usage(&self) -> (r: (usize, usize))
        requires
            self.wf(),
        ensures
            r.0 == total_len(self@.blocks),
            r.1 == self@.capacity,
    {
        (self.inner.current_bytes, self.capacity_bytes)
    }
}

// ---------------------------------------------------------------------------------------------
// Laws
// ---------------------------------------------------------------------------------------------
proof fn lemma_cached_concat(
    a: Seq<(CacheKey, Seq<u8>)>,
    b: Seq<(CacheKey, Seq<u8>)>,
    key: CacheKey,
)
    ensures
        cached(a + b, key) == (if cached(b, key) is Some {
            cached(b, key)
        } else {
            cached(a, key)
        }),
    decreases b.len(),
{
    if b.len() == 0 {
        assert(a + b =~= a);
    } else {
        assert((a + b).drop_last() =~= a + b.drop_last());
        lemma_cached_concat(a, b.drop_last(), key);
    }
}

proof fn lemma_cached_one(x: (CacheKey, Seq<u8>), key: CacheKey)
    ensures
        cached(seq![x], key) == (if x.0 == key {
            Some(x.1)
        } else {
            None
        }),
{
    assert(seq![x].drop_last() =~= Seq::empty());
    assert(cached(seq![x].drop_last(), key) is None);
}

proof fn lemma_cached_without(s: Seq<(CacheKey, Seq<u8>)>, gone: CacheKey, key: CacheKey)
    ensures
        cached(without(s, gone), key) == (if key == gone {
            None
        } else {
            cached(s, key)
        }),
    decreases s.len(),
{
    if s.len() > 0 {
        lemma_cached_without(s.drop_last(), gone, key);
        let p = without(s.drop_last(), gone);
        assert(p.push(s.last()).drop_last() =~= p);
    }
}

/// A block that was stored is found, unless the cache is off or smaller than the block.
pub proof fn law_stored_block_is_found(c: CacheView, key: CacheKey, data: Seq<u8>)
    requires
        c.capacity > 0,
        data.len() <= c.capacity,
    ensures
        cached(stored(c, key, data).blocks, key) == Some(data),
{
    let rest = evicted(c.blocks, c.capacity - data.len());
    lemma_cached_without(rest, key, key);
    lemma_cached_concat(seq![(key, data)], without(rest, key), key);
    lemma_cached_one((key, data), key);
}

/// A lookup changes the order alone: every block is found as before.
pub proof fn law_lookup_keeps_blocks(c: CacheView, key: CacheKey, other: CacheKey)
    ensures
        cached(touched(c, key).blocks, other) == cached(c.blocks, other),
{
    if let Some(v) = cached(c.blocks, key) {
        lemma_cached_without(c.blocks, key, other);
        lemma_cached_concat(seq![(key, v)], without(c.blocks, key), other);
        lemma_cached_one((key, v), other);
    }
}

/// Eviction drops the blocks used least recently and no more than it has to.
pub proof fn law_eviction_takes_from_the_end(s: Seq<(CacheKey, Seq<u8>)>, room: int)
    requires
        room >= 0,
    ensures
        exists|n: int|
            0 <= n <= s.len() && evicted(s, room) == #[trigger] s.take(n) && total_len(s.take(n))
                <= room && (n < s.len() ==> total_len(s.take(n + 1)) > room),
    decreases s.len(),
{
    if s.len() == 0 || total_len(s) <= room {
        assert(s.take(s.len() as int) =~= s);
    } else {
        let p = s.drop_last();
        law_eviction_takes_from_the_end(p, room);
        let n = choose|n: int|
            0 <= n <= p.len() && evicted(p, room) == #[trigger] p.take(n) && total_len(p.take(n))
                <= room && (n < p.len() ==> total_len(p.take(n + 1)) > room);
        assert(p.take(n) =~= s.take(n));
        if n < p.len() {
            assert(p.take(n + 1) =~= s.take(n + 1));
        } else {
            assert(s.take(n + 1) =~= s);
        }
    }
}

} // verus!
