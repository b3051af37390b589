//! Reading from the tree: single keys, seeks and range queries.

use vstd::prelude::*;
use crate::btree::Btree;
use crate::btree_kvs::{BtreeKey, BtreeValue, EMPTY_BNODEID};
use crate::btree_node::{CoreView, NodeCore};
use crate::btree_req::{copy_key, BtreeKeyRange, GetFilter, RangeView};
use crate::btree_types::BtreeError;
use crate::contents::{
    from_key, is_first, lemma_pick, lemma_pick_add, lemma_pick_middle, lemma_pick_none,
    lemma_pick_some, lookup, ordered, pick, with_key,
};
use crate::node_search::{is_position, lemma_bound_start};
use crate::tree_lemmas::{
    lemma_flat_all_add, lemma_flat_sorted, lemma_flat_split, lemma_kid_keys, lemma_kvs_add,
    lemma_le_lt, lemma_lt_not_lt,
};
use crate::tree_model::{flat, flat_all, kvs, placed, Place, Tree, KV};
use crate::underlying::UnderlyingBtree;

verus! {

//==============================================================================
// Entries before, in and behind a child
//==============================================================================

impl<K: BtreeKey, V: BtreeValue, S: UnderlyingBtree> Btree<K, V, S> {
    /// The keys and values below a place.
    pub open spec fn kvs_at(&self, w: Place) -> Seq<KV> {
        kvs(self.storage.store().ov, flat(w.t))
    }

    /// The keys and values before child `i`.
    pub open spec fn kvs_before(&self, w: Place, i: int) -> Seq<KV> {
        kvs(self.storage.store().ov, flat_all(w.t.kids.take(i)))
    }

    /// The keys and values from child `i` on.
    pub open spec fn kvs_from(&self, w: Place, i: int) -> Seq<KV> {
        kvs(self.storage.store().ov, flat_all(w.t.kids.skip(i)))
    }

    /// The keys and values of an interior node, split at a child.
    pub proof fn lemma_kid_split(&self, w: Place, i: int)
        requires
            0 <= i < w.t.kids.len(),
            !w.t.leaf,
        ensures
            self.kvs_at(w) == self.kvs_before(w, i) + self.kvs_at(w.kid(i)) + self.kvs_from(
                w,
                i + 1,
            ),
            self.kvs_before(w, i + 1) == self.kvs_before(w, i) + self.kvs_at(w.kid(i)),
            self.kvs_from(w, i) == self.kvs_at(w.kid(i)) + self.kvs_from(w, i + 1),
    {
        let ov = self.storage.store().ov;
        let a = flat_all(w.t.kids.take(i));
        let m = flat(w.t.kids[i]);
        let b = flat_all(w.t.kids.skip(i + 1));
        lemma_flat_split(w.t.kids, i);
        lemma_kvs_add(ov, a, m);
        lemma_kvs_add(ov, a + m, b);
        lemma_kvs_add(ov, m, b);
    }

    /// Nothing lies before the first child, and everything before the end.
    pub proof fn lemma_kid_ends(&self, w: Place)
        requires
            !w.t.leaf,
        ensures
            self.kvs_before(w, 0) == Seq::<KV>::empty(),
            self.kvs_from(w, 0) == self.kvs_at(w),
            self.kvs_before(w, w.t.kids.len() as int) == self.kvs_at(w),
            self.kvs_from(w, w.t.kids.len() as int) == Seq::<KV>::empty(),
    {
        let n = w.t.kids.len() as int;
        assert(w.t.kids.take(0) =~= Seq::empty());
        assert(w.t.kids.skip(0) =~= w.t.kids);
        assert(w.t.kids.take(n) =~= w.t.kids);
        assert(w.t.kids.skip(n) =~= Seq::empty());
        assert(self.kvs_before(w, 0) =~= Seq::<KV>::empty());
        assert(self.kvs_from(w, n) =~= Seq::<KV>::empty());
    }

    /// How the keys before and from child `i` lie to the key between them.
    pub proof fn lemma_kid_order(&self, w: Place, i: int)
        requires
            placed::<K, V>(self.params(), self.storage.store(), w),
            !w.t.leaf,
            0 < i <= w.t.es.len(),
        ensures
            forall|j: int|
                0 <= j < self.kvs_before(w, i).len() ==> !K::lt(
                    w.t.es[i - 1].key,
                    (#[trigger] self.kvs_before(w, i)[j]).key,
                ),
            forall|j: int|
                0 <= j < self.kvs_from(w, i).len() ==> K::lt(
                    w.t.es[i - 1].key,
                    (#[trigger] self.kvs_from(w, i)[j]).key,
                ),
    {
        lemma_kid_keys::<K, V>(self.params(), w.t, w.h, w.after, w.lo, w.hi, i);
        assert forall|j: int| 0 <= j < self.kvs_before(w, i).len() implies !K::lt(
            w.t.es[i - 1].key,
            (#[trigger] self.kvs_before(w, i)[j]).key,
        ) by {
            assert(self.kvs_before(w, i)[j].key == flat_all(w.t.kids.take(i))[j].key);
        }
        assert forall|j: int| 0 <= j < self.kvs_from(w, i).len() implies K::lt(
            w.t.es[i - 1].key,
            (#[trigger] self.kvs_from(w, i)[j]).key,
        ) by {
            assert(self.kvs_from(w, i)[j].key == flat_all(w.t.kids.skip(i))[j].key);
        }
    }

    /// Keys before the child at the position of `k` are smaller than `k`, and keys behind it
    /// are greater.
    pub proof fn lemma_position(&self, w: Place, k: Seq<u8>, i: int)
        requires
            placed::<K, V>(self.params(), self.storage.store(), w),
            !w.t.leaf,
            is_position::<K>(w.t.es, k, i),
        ensures
            forall|j: int|
                0 <= j < self.kvs_before(w, i).len() ==> K::lt(
                    (#[trigger] self.kvs_before(w, i)[j]).key,
                    k,
                ),
            i < w.t.es.len() ==> forall|j: int|
                0 <= j < self.kvs_from(w, i + 1).len() ==> K::lt(
                    k,
                    (#[trigger] self.kvs_from(w, i + 1)[j]).key,
                ),
    {
        if i == 0 {
            self.lemma_kid_ends(w);
        } else {
            self.lemma_kid_order(w, i);
            assert forall|j: int| 0 <= j < self.kvs_before(w, i).len() implies K::lt(
                (#[trigger] self.kvs_before(w, i)[j]).key,
                k,
            ) by {
                lemma_le_lt::<K>(self.kvs_before(w, i)[j].key, w.t.es[i - 1].key, k);
            }
        }
        if i < w.t.es.len() {
            self.lemma_kid_order(w, i + 1);
            assert forall|j: int| 0 <= j < self.kvs_from(w, i + 1).len() implies K::lt(
                k,
                (#[trigger] self.kvs_from(w, i + 1)[j]).key,
            ) by {
                lemma_le_lt::<K>(k, w.t.es[i].key, self.kvs_from(w, i + 1)[j].key);
            }
        }
    }
}

//==============================================================================
// Single keys
//==============================================================================

/// The serialized form of an optional value.
pub open spec fn opt_val<V: BtreeValue>(r: Option<V>) -> Option<Seq<u8>> {
    match r {
        Some(v) => Some(v.bytes()),
        None => None,
    }
}

/// The serialized form of an optional key with its value.
pub open spec fn opt_pair<K: BtreeKey, V: BtreeValue>(r: Option<(K, V)>) -> Option<KV> {
    match r {
        Some(e) => Some(KV { key: e.0.bytes(), val: e.1.bytes() }),
        None => None,
    }
}

impl<K: BtreeKey, V: BtreeValue, S: UnderlyingBtree> Btree<K, V, S> {
    /// The value of a key.
    pub fn get(&self, key: &K) -> (r: Result<Option<V>, BtreeError>)
        requires
            self.wf(),
        ensures
            r matches Err(e) ==> self.storage.failures().contains(e),
            r matches Ok(v) ==> opt_val(v) == lookup(self@, key.bytes()),
            self.storage.reliable() ==> r is Ok,
    {
        self.get_one_internal(key)
    }

    fn get_one_internal(&self, key: &K) -> (r: Result<Option<V>, BtreeError>)
        requires
            self.wf(),
        ensures
            r matches Err(e) ==> self.storage.failures().contains(e),
            r matches Ok(v) ==> opt_val(v) == lookup(self@, key.bytes()),
            self.storage.reliable() ==> r is Ok,
    {
        let root = match self.read_root() {
            Ok(c) => c,
            Err(e) => {
                return Err(e);
            },
        };
        self.get_one_walk(&root, key, Ghost(self.top()))
    }

    fn get_one_walk(&self, node: &NodeCore, key: &K, Ghost(w): Ghost<Place>) -> (r: Result<
        Option<V>,
        BtreeError,
    >)
        requires
            self.at(node@, w),
        ensures
            r matches Err(e) ==> self.storage.failures().contains(e),
            r matches Ok(v) ==> opt_val(v) == lookup(self.kvs_at(w), key.bytes()),
            self.storage.reliable() ==> r is Ok,
        decreases w.t,
    {
        proof {
            self.lemma_at(node@, w);
        }
        if node.is_leaf() {
            return self.get_one_in_leaf(node, key, Ghost(w));
        }
        let ghost k = key.bytes();
        let (_, idx) = self.int_ops.find::<K, u64>(node, key);
        proof {
            self.lemma_position(w, k, idx as int);
        }
        if idx == node.header.nentries && !node.has_valid_edge() {
            // the key lies behind the last child
            proof {
                self.lemma_kid_ends(w);
                self.lemma_edge(node@, w);
                assert forall|j: int| 0 <= j < self.kvs_at(w).len() implies !with_key(k)(
                    #[trigger] self.kvs_at(w)[j],
                ) by {
                    assert(self.kvs_before(w, idx as int)[j] == self.kvs_at(w)[j]);
                    K::lemma_irreflexive(k);
                }
                lemma_pick_none(self.kvs_at(w), with_key(k));
            }
            return Ok(None);
        }
        proof {
            self.lemma_edge(node@, w);
        }
        let child = match self.get_child(node, idx, Ghost(w)) {
            Ok(c) => c,
            Err(e) => {
                return Err(e);
            },
        };
        proof {
            let a = self.kvs_before(w, idx as int);
            let b = self.kvs_from(w, idx + 1);
            self.lemma_kid_split(w, idx as int);
            K::lemma_irreflexive(k);
            if idx == w.t.es.len() {
                self.lemma_kid_ends(w);
            }
            assert forall|j: int| 0 <= j < a.len() implies !with_key(k)(#[trigger] a[j]) by {}
            assert forall|j: int| 0 <= j < b.len() implies !with_key(k)(#[trigger] b[j]) by {}
            lemma_pick_middle(a, self.kvs_at(w.kid(idx as int)), b, with_key(k));
        }
        self.get_one_walk(&child, key, Ghost(w.kid(idx as int)))
    }

    /// Whether a node has a child behind its last entry.
    pub proof fn lemma_edge(&self, core: CoreView, w: Place)
        requires
            self.at(core, w),
            !w.t.leaf,
        ensures
            (core.header.edge_id != EMPTY_BNODEID) == w.t.edge,
            w.t.kids.len() == w.t.es.len() + if w.t.edge {
                1int
            } else {
                0int
            },
            w.t.kids.len() > 0,
    {
        self.lemma_at(core, w);
        if w.t.edge {
            self.lemma_kid_at(core, w, w.t.kids.len() - 1);
        }
    }

    /// The value of a key in a leaf.
    fn get_one_in_leaf(&self, node: &NodeCore, key: &K, Ghost(w): Ghost<Place>) -> (r: Result<
        Option<V>,
        BtreeError,
    >)
        requires
            self.at(node@, w),
            w.t.leaf,
        ensures
            r matches Err(e) ==> self.storage.failures().contains(e),
            r matches Ok(v) ==> opt_val(v) == lookup(self.kvs_at(w), key.bytes()),
            self.storage.reliable() ==> r is Ok,
    {
        proof {
            self.lemma_at(node@, w);
            K::lemma_irreflexive(key.bytes());
        }
        let (found, idx) = self.leaf_ops.find::<K, V>(node, key);
        let ghost s = self.kvs_at(w);
        let ghost f = with_key(key.bytes());
        if found {
            match self.leaf_value(node, idx, Ghost(w)) {
                Ok(v) => {
                    proof {
                        assert forall|j: int| 0 <= j < idx implies !f(#[trigger] s[j]) by {
                            assert(K::lt(w.t.es[j].key, key.bytes()));
                        }
                        lemma_pick(s, f, idx as int);
                    }
                    Ok(Some(v))
                },
                Err(e) => Err(e),
            }
        } else {
            proof {
                assert forall|j: int| 0 <= j < s.len() implies !f(#[trigger] s[j]) by {
                    if j < idx {
                        assert(K::lt(w.t.es[j].key, key.bytes()));
                    } else if w.t.es[j].key == key.bytes() && j > idx {
                        assert(K::lt(w.t.es[idx as int].key, w.t.es[j].key));
                    }
                }
                lemma_pick_none(s, f);
            }
            Ok(None)
        }
    }
}

//==============================================================================
// The first key from some key on
//==============================================================================

impl<K: BtreeKey, V: BtreeValue, S: UnderlyingBtree> Btree<K, V, S> {
    /// Some key in the range from `start` to before `end`, with its value: the first one.
    pub fn get_any(&self, start: &K, end: &K) -> (r: Result<Option<(K, V)>, BtreeError>)
        requires
            self.wf(),
        ensures
            r matches Err(e) ==> self.storage.failures().contains(e),
            r matches Ok(e) ==> opt_pair(e) == pick(
                self@,
                in_range::<K>(
                    RangeView {
                        start: start.bytes(),
                        start_incl: true,
                        end: end.bytes(),
                        end_incl: false,
                    },
                ),
            ),
            self.storage.reliable() ==> r is Ok,
    {
        let range = BtreeKeyRange::new(copy_key(start), true, copy_key(end), false);
        self.get_any_internal(&range)
    }

    /// The first key in the range, with its value.
    pub(crate) fn get_any_internal(&self, range: &BtreeKeyRange<K>) -> (r: Result<
        Option<(K, V)>,
        BtreeError,
    >)
        requires
            self.wf(),
        ensures
            r matches Err(e) ==> self.storage.failures().contains(e),
            r matches Ok(e) ==> opt_pair(e) == pick(self@, in_range::<K>(range@)),
            self.storage.reliable() ==> r is Ok,
    {
        let root = match self.read_root() {
            Ok(c) => c,
            Err(e) => {
                return Err(e);
            },
        };
        let first = match self.seek_gte_walk(
            &root,
            &range.start_key,
            range.start_incl,
            Ghost(self.top()),
        ) {
            Ok(first) => first,
            Err(e) => {
                return Err(e);
            },
        };
        proof {
            self.lemma_ordered();
            lemma_first_in_range::<K>(self@, range@);
        }
        match first {
            Some((k, v)) => if range.is_to_end(&k) {
                Ok(Some((k, v)))
            } else {
                Ok(None)
            },
            None => Ok(None),
        }
    }

    /// The first key that is not smaller than `key`, with its value.
    pub fn seek_gte(&self, key: &K) -> (r: Result<Option<(K, V)>, BtreeError>)
        requires
            self.wf(),
        ensures
            r matches Err(e) ==> self.storage.failures().contains(e),
            r matches Ok(e) ==> opt_pair(e) == pick(self@, from_key::<K>(key.bytes(), true)),
            self.storage.reliable() ==> r is Ok,
    {
        self.seek_gte_internal(key)
    }

    fn seek_gte_internal(&self, key: &K) -> (r: Result<Option<(K, V)>, BtreeError>)
        requires
            self.wf(),
        ensures
            r matches Err(e) ==> self.storage.failures().contains(e),
            r matches Ok(e) ==> opt_pair(e) == pick(self@, from_key::<K>(key.bytes(), true)),
            self.storage.reliable() ==> r is Ok,
    {
        let root = match self.read_root() {
            Ok(c) => c,
            Err(e) => {
                return Err(e);
            },
        };
        self.seek_gte_walk(&root, key, true, Ghost(self.top()))
    }

    /// Looks below a node: first where the key would be, and where nothing from it on is there,
    /// in the children behind.
    fn seek_gte_walk(&self, node: &NodeCore, key: &K, incl: bool, Ghost(w): Ghost<Place>) -> (r:
        Result<Option<(K, V)>, BtreeError>)
        requires
            self.at(node@, w),
        ensures
            r matches Err(e) ==> self.storage.failures().contains(e),
            r matches Ok(e) ==> opt_pair(e) == pick(
                self.kvs_at(w),
                from_key::<K>(key.bytes(), incl),
            ),
            self.storage.reliable() ==> r is Ok,
        decreases w.t,
    {
        proof {
            self.lemma_at(node@, w);
        }
        if node.is_leaf() {
            return self.seek_gte_in_leaf(node, key, incl, Ghost(w));
        }
        let ghost k = key.bytes();
        let ghost f = from_key::<K>(k, incl);
        let (_, idx) = self.int_ops.find::<K, u64>(node, key);
        let n: u32 = node.header.nentries;
        let has_edge: bool = node.has_valid_edge();
        proof {
            self.lemma_edge(node@, w);
            self.lemma_kid_ends(w);
            self.lemma_position(w, k, idx as int);
            let a = self.kvs_before(w, idx as int);
            assert forall|j: int| 0 <= j < a.len() implies !f(#[trigger] a[j]) by {
                lemma_lt_not_lt::<K>(a[j].key, k);
                K::lemma_irreflexive(k);
            }
            lemma_pick_none(a, f);
        }
        if idx == n && !has_edge {
            return Ok(None);
        }
        let child = match self.get_child(node, idx, Ghost(w)) {
            Ok(c) => c,
            Err(e) => {
                return Err(e);
            },
        };
        let result = match self.seek_gte_walk(&child, key, incl, Ghost(w.kid(idx as int))) {
            Ok(result) => result,
            Err(e) => {
                return Err(e);
            },
        };
        proof {
            let m = self.kvs_at(w.kid(idx as int));
            let b = self.kvs_from(w, idx + 1);
            self.lemma_kid_split(w, idx as int);
            lemma_pick_add(self.kvs_before(w, idx as int) + m, b, f);
            lemma_pick_add(self.kvs_before(w, idx as int), m, f);
        }
        if result.is_some() || idx == n {
            return Ok(result);
        }
        // nothing from the key on in this child: everything behind it is
        let mut next: u32 = idx + 1;
        while next < n || next == n && has_edge
            invariant
                self.at(node@, w),
                !w.t.leaf,
                n == w.t.es.len(),
                has_edge == w.t.edge,
                w.t.kids.len() == n + if has_edge {
                    1int
                } else {
                    0int
                },
                idx < next <= w.t.kids.len(),
                f == from_key::<K>(k, incl),
                k == key.bytes(),
                pick(self.kvs_at(w), f) == pick(self.kvs_from(w, next as int), f),
                forall|j: int|
                    0 <= j < self.kvs_from(w, next as int).len() ==> K::lt(
                        k,
                        (#[trigger] self.kvs_from(w, next as int)[j]).key,
                    ),
            decreases w.t.kids.len() - next,
        {
            let child = match self.get_child(node, next, Ghost(w)) {
                Ok(c) => c,
                Err(e) => {
                    return Err(e);
                },
            };
            let ghost m = self.kvs_at(w.kid(next as int));
            let ghost b = self.kvs_from(w, next + 1);
            let first = match self.leftmost_entry(&child, Ghost(w.kid(next as int))) {
                Ok(first) => first,
                Err(e) => {
                    return Err(e);
                },
            };
            proof {
                self.lemma_kid_split(w, next as int);
                lemma_pick_add(m, b, f);
                let s = self.kvs_from(w, next as int);
                assert forall|j: int| 0 <= j < m.len() implies f(#[trigger] m[j]) by {
                    assert(s[j] == m[j]);
                }
                assert forall|j: int| 0 <= j < b.len() implies K::lt(k, (#[trigger] b[j]).key) by {
                    assert(s[j + m.len()] == b[j]);
                }
                if m.len() > 0 {
                    lemma_pick(m, f, 0);
                } else {
                    lemma_pick_none(m, f);
                }
            }
            if first.is_some() {
                return Ok(first);
            }
            if next == n {
                proof {
                    self.lemma_kid_ends(w);
                    lemma_pick_none(b, f);
                }
                return Ok(None);
            }
            next = next + 1;
        }
        proof {
            self.lemma_kid_ends(w);
            lemma_pick_none(self.kvs_from(w, next as int), f);
        }
        Ok(None)
    }

    /// The first entry of a leaf from the key on.
    fn seek_gte_in_leaf(&self, node: &NodeCore, key: &K, incl: bool, Ghost(w): Ghost<Place>) -> (r:
        Result<Option<(K, V)>, BtreeError>)
        requires
            self.at(node@, w),
            w.t.leaf,
        ensures
            r matches Err(e) ==> self.storage.failures().contains(e),
            r matches Ok(e) ==> opt_pair(e) == pick(
                self.kvs_at(w),
                from_key::<K>(key.bytes(), incl),
            ),
            self.storage.reliable() ==> r is Ok,
    {
        proof {
            self.lemma_at(node@, w);
        }
        let (found, pos) = self.leaf_ops.find::<K, V>(node, key);
        let idx: u32 = if found && !incl {
            pos + 1
        } else {
            pos
        };
        let ghost s = self.kvs_at(w);
        let ghost k = key.bytes();
        let ghost f = from_key::<K>(k, incl);
        proof {
            assert forall|j: int| 0 <= j < s.len() implies f(#[trigger] s[j]) == (idx <= j) by {
                let range = RangeView { start: k, start_incl: incl, end: k, end_incl: false };
                lemma_bound_start::<K>(w.t.es, range, pos as int, j);
                assert(s[j].key == w.t.es[j].key);
            }
        }
        if idx < node.header.nentries {
            let key = self.leaf_key(node, idx, Ghost(w));
            match self.leaf_value(node, idx, Ghost(w)) {
                Ok(v) => {
                    proof {
                        lemma_pick(s, f, idx as int);
                    }
                    Ok(Some((key, v)))
                },
                Err(e) => Err(e),
            }
        } else {
            proof {
                lemma_pick_none(s, f);
            }
            Ok(None)
        }
    }

    /// The first entry below a node.
    fn leftmost_entry(&self, node: &NodeCore, Ghost(w): Ghost<Place>) -> (r: Result<
        Option<(K, V)>,
        BtreeError,
    >)
        requires
            self.at(node@, w),
        ensures
            r matches Err(e) ==> self.storage.failures().contains(e),
            r matches Ok(e) ==> opt_pair(e) == if self.kvs_at(w).len() == 0 {
                None
            } else {
                Some(self.kvs_at(w)[0])
            },
            self.storage.reliable() ==> r is Ok,
        decreases w.t,
    {
        proof {
            self.lemma_at(node@, w);
        }
        if node.is_leaf() {
            if node.header.nentries == 0 {
                return Ok(None);
            }
            let key = self.leaf_key(node, 0, Ghost(w));
            return match self.leaf_value(node, 0, Ghost(w)) {
                Ok(v) => Ok(Some((key, v))),
                Err(e) => Err(e),
            };
        }
        let n: u32 = node.header.nentries;
        let has_edge: bool = node.has_valid_edge();
        proof {
            self.lemma_edge(node@, w);
            self.lemma_kid_ends(w);
        }
        let mut idx: u32 = 0;
        while idx < n || idx == n && has_edge
            invariant
                self.at(node@, w),
                !w.t.leaf,
                n == w.t.es.len(),
                has_edge == w.t.edge,
                w.t.kids.len() == n + if has_edge {
                    1int
                } else {
                    0int
                },
                0 <= idx <= w.t.kids.len(),
                self.kvs_at(w) == self.kvs_from(w, idx as int),
            decreases w.t.kids.len() - idx,
        {
            let child = match self.get_child(node, idx, Ghost(w)) {
                Ok(c) => c,
                Err(e) => {
                    return Err(e);
                },
            };
            let first = match self.leftmost_entry(&child, Ghost(w.kid(idx as int))) {
                Ok(first) => first,
                Err(e) => {
                    return Err(e);
                },
            };
            proof {
                self.lemma_kid_split(w, idx as int);
            }
            if first.is_some() {
                return Ok(first);
            }
            proof {
                assert(self.kvs_from(w, idx as int) =~= self.kvs_from(w, idx + 1));
            }
            if idx == n {
                proof {
                    self.lemma_kid_ends(w);
                }
                return Ok(None);
            }
            idx = idx + 1;
        }
        proof {
            self.lemma_kid_ends(w);
        }
        Ok(None)
    }

    /// The keys of the tree are strictly increasing.
    pub proof fn lemma_ordered(&self)
        requires
            self.wf(),
        ensures
            ordered::<K>(self@),
    {
        let w = self.top();
        lemma_flat_sorted::<K, V>(self.params(), w.t, w.h, w.after, w.lo, w.hi);
        assert forall|i: int, j: int| 0 <= i < j < self@.len() implies K::lt(
            #[trigger] self@[i].key,
            #[trigger] self@[j].key,
        ) by {
            assert(K::lt(flat(w.t)[i].key, flat(w.t)[j].key));
        }
    }
}

/// The entry has a key in the range.
pub open spec fn in_range<K: BtreeKey>(range: RangeView) -> spec_fn(KV) -> bool {
    |e: KV| range.has::<K>(e.key)
}

/// The first entry in a range is the first one from its start on, if that is in the range.
pub proof fn lemma_first_in_range<K: BtreeKey>(s: Seq<KV>, range: RangeView)
    requires
        ordered::<K>(s),
    ensures
        pick(s, in_range::<K>(range)) == match pick(
            s,
            from_key::<K>(range.start, range.start_incl),
        ) {
            Some(e) => if range.to_end::<K>(e.key) {
                Some(e)
            } else {
                None
            },
            None => None,
        },
{
    let f = from_key::<K>(range.start, range.start_incl);
    let g = in_range::<K>(range);
    if exists|i: int| is_first(s, f, i) {
        let i = choose|i: int| is_first(s, f, i);
        lemma_pick(s, f, i);
        if range.to_end::<K>(s[i].key) {
            assert(is_first(s, g, i)) by {
                assert forall|j: int| 0 <= j < i implies !g(#[trigger] s[j]) by {
                    assert(!f(s[j]));
                }
            }
            lemma_pick(s, g, i);
        } else {
            assert forall|j: int| 0 <= j < s.len() implies !g(#[trigger] s[j]) by {
                if j < i {
                    assert(!f(s[j]));
                } else if j > i {
                    assert(K::lt(s[i].key, s[j].key));
                    if K::lt(s[j].key, range.end) {
                        K::lemma_transitive(s[i].key, s[j].key, range.end);
                    }
                }
            }
            lemma_pick_none(s, g);
        }
    } else {
        assert forall|j: int| 0 <= j < s.len() implies !g(#[trigger] s[j]) by {
            if f(s[j]) {
                let r = lemma_pick_some(s, f, j);
            }
        }
        lemma_pick_none(s, g);
    }
}

//==============================================================================
// The children that a range reaches
//==============================================================================

/// No entry has a key in the range.
pub open spec fn none_in<K: BtreeKey>(s: Seq<KV>, range: RangeView) -> bool {
    forall|j: int| 0 <= j < s.len() ==> !range.has::<K>((#[trigger] s[j]).key)
}

/// The first and the last child that keys of the range can be in, for the positions of its
/// bounds in an interior node.
pub open spec fn reach(t: Tree, start_pos: int, end_pos: int) -> Option<(int, int)> {
    let last = if end_pos == t.es.len() && !t.edge {
        end_pos - 1
    } else {
        end_pos
    };
    if start_pos > last {
        None
    } else {
        Some((start_pos, last))
    }
}

impl<K: BtreeKey, V: BtreeValue, S: UnderlyingBtree> Btree<K, V, S> {
    /// All keys of the range below a place are in the given children, from the first to the
    /// last.
    pub open spec fn covers(&self, w: Place, range: RangeView, r: Option<(u32, u32)>) -> bool {
        match r {
            Some((s, e)) => {
                &&& s <= e < w.t.kids.len()
                &&& none_in::<K>(self.kvs_before(w, s as int), range)
                &&& none_in::<K>(self.kvs_from(w, e + 1), range)
            },
            None => none_in::<K>(self.kvs_at(w), range),
        }
    }

    pub proof fn lemma_reach(&self, w: Place, range: RangeView, start_pos: int, end_pos: int)
        requires
            placed::<K, V>(self.params(), self.storage.store(), w),
            !w.t.leaf,
            is_position::<K>(w.t.es, range.start, start_pos),
            is_position::<K>(w.t.es, range.end, end_pos),
        ensures
            reach(w.t, start_pos, end_pos) matches Some((s, e)) ==> {
                &&& 0 <= s <= e < w.t.kids.len()
                &&& none_in::<K>(self.kvs_before(w, s), range)
                &&& none_in::<K>(self.kvs_from(w, e + 1), range)
            },
            reach(w.t, start_pos, end_pos) is None ==> none_in::<K>(self.kvs_at(w), range),
    {
        let n = w.t.es.len() as int;
        let a = self.kvs_before(w, start_pos);
        self.lemma_kid_ends(w);
        self.lemma_position(w, range.start, start_pos);
        self.lemma_position(w, range.end, end_pos);
        assert forall|j: int| 0 <= j < a.len() implies !range.has::<K>((#[trigger] a[j]).key) by {
            lemma_lt_not_lt::<K>(a[j].key, range.start);
            K::lemma_irreflexive(range.start);
        }
        let last = if end_pos == n && !w.t.edge {
            end_pos - 1
        } else {
            end_pos
        };
        let b = self.kvs_from(w, last + 1);
        if end_pos < n {
            assert forall|j: int| 0 <= j < b.len() implies !range.has::<K>((#[trigger] b[j]).key) by {
                lemma_lt_not_lt::<K>(range.end, b[j].key);
                K::lemma_irreflexive(range.end);
            }
        }
        if start_pos > last {
            // every child lies before the range or behind it
            let ov = self.storage.store().ov;
            let ks = w.t.kids;
            let s = self.kvs_at(w);
            let c = self.kvs_from(w, start_pos);
            assert(ks =~= ks.take(start_pos) + ks.skip(start_pos));
            lemma_flat_all_add(ks.take(start_pos), ks.skip(start_pos));
            lemma_kvs_add(ov, flat_all(ks.take(start_pos)), flat_all(ks.skip(start_pos)));
            assert(s == a + c);
            let mid = ks.subrange(last + 1, start_pos);
            assert(ks.skip(last + 1) =~= mid + ks.skip(start_pos));
            lemma_flat_all_add(mid, ks.skip(start_pos));
            lemma_kvs_add(ov, flat_all(mid), flat_all(ks.skip(start_pos)));
            let d = kvs(ov, flat_all(mid));
            assert(b == d + c);
            assert forall|j: int| 0 <= j < s.len() implies !range.has::<K>((#[trigger] s[j]).key) by {
                if j < a.len() {
                    assert(s[j] == a[j]);
                } else {
                    assert(s[j] == c[j - a.len()]);
                    assert(b[d.len() + j - a.len()] == c[j - a.len()]);
                }
            }
        }
    }

    /// The first and the last child of a node that keys of the range can be in.
    pub(crate) fn child_range(
        &self,
        node: &NodeCore,
        range: &BtreeKeyRange<K>,
        Ghost(w): Ghost<Place>,
    ) -> (r: Option<(u32, u32)>)
        requires
            self.at(node@, w),
            !w.t.leaf,
        ensures
            self.covers(w, range@, r),
            exists|x: int, y: int|
                is_position::<K>(w.t.es, range@.start, x) && is_position::<K>(
                    w.t.es,
                    range@.end,
                    y,
                ) && match r {
                    Some((s, e)) => #[trigger] reach(w.t, x, y) == Some((s as int, e as int)),
                    None => reach(w.t, x, y) is None,
                },
    {
        proof {
            self.lemma_at(node@, w);
            self.lemma_edge(node@, w);
        }
        let n: u32 = node.header.nentries;
        let has_edge: bool = node.has_valid_edge();
        let (_, start_idx) = self.int_ops.find::<K, u64>(node, &range.start_key);
        let (_, end_pos) = self.int_ops.find::<K, u64>(node, &range.end_key);
        proof {
            self.lemma_reach(w, range@, start_idx as int, end_pos as int);
        }
        let ghost g = reach(w.t, start_idx as int, end_pos as int);
        if end_pos == n && !has_edge {
            if start_idx >= end_pos {
                None
            } else {
                Some((start_idx, end_pos - 1))
            }
        } else if start_idx > end_pos {
            None
        } else {
            Some((start_idx, end_pos))
        }
    }
}

} // verus!
