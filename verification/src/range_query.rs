//! Range queries, in batches.

use std::sync::Arc;
use vstd::prelude::*;
use crate::btree::Btree;
use crate::btree_kvs::{BtreeKey, BtreeValue, Entry, EMPTY_BNODEID};
use crate::btree_node::NodeCore;
use crate::btree_req::{
    copy_key, includes, pairs, BtreeKeyRange, BtreeQueryRequest, GetFilter, GetFilterDecision,
    QueryResultHandle, RangeView,
};
use crate::btree_types::BtreeError;
use crate::contents::{
    lemma_filter_add, lemma_filter_all, lemma_filter_filter, lemma_filter_none,
    lemma_filter_ordered, ordered,
};
use crate::tree_lemmas::{
    lemma_flat_all_add, lemma_flat_all_one, lemma_flat_split, lemma_kvs_add, lemma_le_lt,
    lemma_leaf_placed,
    lemma_leaves_all_flat, lemma_leaves_chained, lemma_leaves_flat, lemma_leaves_split, lemma_lt_le,
    lemma_lt_not_lt,
};
use crate::tree_model::{
    chained, flat, flat_all, kv, kvs, leaf_place, leaves, leaves_all, names_next, node_rep, Place,
    Tree, KV,
};
use crate::underlying::UnderlyingBtree;

verus! {

//==============================================================================
// Scans
//==============================================================================

impl<K: BtreeKey, F> BtreeQueryRequest<K, F> {
    /// The results in two pieces.
    pub proof fn lemma_scan_add<V: BtreeValue>(self, a: Seq<KV>, b: Seq<KV>) where
        F: GetFilter<K, V>,

        ensures
            self.scan::<V>(a + b) == if self.reverse_order {
                self.scan::<V>(b) + self.scan::<V>(a)
            } else {
                self.scan::<V>(a) + self.scan::<V>(b)
            },
    {
        let f = self.wanted::<V>();
        lemma_filter_add(a, b, f);
        if self.reverse_order {
            assert((a.filter(f) + b.filter(f)).reverse() =~= b.filter(f).reverse() + a.filter(
                f,
            ).reverse());
        }
    }

    /// No result where nothing lies in the range.
    pub proof fn lemma_scan_none<V: BtreeValue>(self, s: Seq<KV>) where F: GetFilter<K, V>
        requires
            forall|i: int|
                0 <= i < s.len() ==> !self.working_range@.has::<K>((#[trigger] s[i]).key),
        ensures
            self.scan::<V>(s) == Seq::<KV>::empty(),
    {
        lemma_filter_none(s, self.wanted::<V>());
        assert(self.scan::<V>(s) =~= Seq::<KV>::empty());
    }

    /// The result for a single entry.
    pub proof fn lemma_scan_one<V: BtreeValue>(self, e: KV) where F: GetFilter<K, V>
        ensures
            self.scan::<V>(seq![e]) == if self.wants::<V>(e) {
                seq![e]
            } else {
                Seq::empty()
            },
    {
        let f = self.wanted::<V>();
        if f(e) {
            lemma_filter_all(seq![e], f);
            assert(seq![e].reverse() =~= seq![e]);
        } else {
            lemma_filter_none(seq![e], f);
            assert(self.scan::<V>(seq![e]) =~= Seq::<KV>::empty());
        }
    }

    /// What is left after the first results, once the range has been shifted behind the last
    /// one.
    pub proof fn lemma_scan_shift<V: BtreeValue>(self, req2: Self, s: Seq<KV>, m: int) where
        F: GetFilter<K, V>,

        requires
            ordered::<K>(s),
            0 < m <= self.scan::<V>(s).len(),
            req2.same_query(self),
            req2.working_range@ == if self.reverse_order {
                RangeView {
                    end: self.scan::<V>(s)[m - 1].key,
                    end_incl: false,
                    ..self.working_range@
                }
            } else {
                RangeView {
                    start: self.scan::<V>(s)[m - 1].key,
                    start_incl: false,
                    ..self.working_range@
                }
            },
        ensures
            req2.scan::<V>(s) == self.scan::<V>(s).skip(m),
    {
        let f = self.wanted::<V>();
        let x = s.filter(f);
        let last = self.scan::<V>(s)[m - 1].key;
        lemma_filter_ordered::<K>(s, f);
        let range = self.working_range@;
        let pos = if self.reverse_order {
            x.len() - m
        } else {
            m - 1
        };
        assert(last == x[pos].key);
        assert(f(x[pos]));
        assert(range.has::<K>(last));
        let g: spec_fn(KV) -> bool = |e: KV|
            if self.reverse_order {
                K::lt(e.key, last)
            } else {
                K::lt(last, e.key)
            };
        let h = req2.wanted::<V>();
        assert forall|i: int| 0 <= i < s.len() implies #[trigger] h(s[i]) == (f(s[i]) && g(s[i])) by {
            let k = s[i].key;
            if K::lt(last, k) && K::lt(range.start, last) {
                K::lemma_transitive(range.start, last, k);
            }
            if K::lt(k, last) && K::lt(last, range.end) {
                K::lemma_transitive(k, last, range.end);
            }
        }
        lemma_filter_filter(s, f, g, h);
        let lower = x.take(pos);
        let upper = x.skip(pos + 1);
        assert(x =~= lower + seq![x[pos]] + upper);
        lemma_filter_add(lower + seq![x[pos]], upper, g);
        lemma_filter_add(lower, seq![x[pos]], g);
        K::lemma_irreflexive(last);
        lemma_filter_none(seq![x[pos]], g);
        assert forall|i: int| 0 <= i < lower.len() implies K::lt((#[trigger] lower[i]).key, last) by {
            assert(lower[i] == x[i]);
        }
        assert forall|i: int| 0 <= i < upper.len() implies K::lt(last, (#[trigger] upper[i]).key) by {
            assert(upper[i] == x[i + pos + 1]);
        }
        if self.reverse_order {
            lemma_filter_all(lower, g);
            assert forall|i: int| 0 <= i < upper.len() implies !g(#[trigger] upper[i]) by {
                lemma_lt_not_lt::<K>(last, upper[i].key);
            }
            lemma_filter_none(upper, g);
            assert(x.filter(g) =~= lower);
            assert(lower.reverse() =~= x.reverse().skip(m));
        } else {
            assert forall|i: int| 0 <= i < lower.len() implies !g(#[trigger] lower[i]) by {
                lemma_lt_not_lt::<K>(lower[i].key, last);
            }
            lemma_filter_none(lower, g);
            lemma_filter_all(upper, g);
            assert(x.filter(g) =~= upper);
            assert(upper =~= x.skip(m));
        }
    }
}

/// The first `m` results, or all where there are fewer.
pub open spec fn upto_count(s: Seq<KV>, m: int) -> Seq<KV> {
    if s.len() <= m {
        s
    } else {
        s.take(m)
    }
}

//==============================================================================
// Leaves
//==============================================================================

/// No key of the range lies behind the entries of a leaf, in the order of the query.
pub open spec fn range_done<K: BtreeKey>(range: RangeView, reverse: bool, es: Seq<Entry>) -> bool {
    if reverse {
        forall|k: Seq<u8>| #[trigger] K::lt(k, es[0].key) ==> !range.has::<K>(k)
    } else {
        forall|k: Seq<u8>| #[trigger] K::lt(es.last().key, k) ==> !range.has::<K>(k)
    }
}

/// The entries of a leaf reach the end of the range, in the order of the query.
pub open spec fn reaches_end<K: BtreeKey>(range: RangeView, reverse: bool, es: Seq<Entry>) -> bool {
    if reverse {
        !K::lt(range.start, es[0].key)
    } else {
        !K::lt(es.last().key, range.end)
    }
}

/// The entry that a query looks at as number `k` of those from `start` to `end`.
spec fn examined_at(reverse: bool, start: int, end: int, k: int) -> int {
    if reverse {
        end - k
    } else {
        start + k
    }
}

/// The range of a query takes in the last entry of a leaf, in the order of the query.
pub open spec fn takes_last<K: BtreeKey>(range: RangeView, reverse: bool, es: Seq<Entry>) -> bool {
    range.has::<K>(
        if reverse {
            es[0].key
        } else {
            es.last().key
        },
    )
}

/// The results among the entries in front of entry `j`, in the order of the query.
pub open spec fn scan_before<K: BtreeKey, V: BtreeValue, F: GetFilter<K, V>>(
    req: BtreeQueryRequest<K, F>,
    s: Seq<KV>,
    j: int,
) -> Seq<KV> {
    req.scan::<V>(
        if req.reverse_order {
            s.skip(j + 1)
        } else {
            s.take(j)
        },
    )
}

/// Some entry in the range is not looked at, since those in front of it give `max_count` results
/// already.
pub open spec fn unexamined<K: BtreeKey, V: BtreeValue, F: GetFilter<K, V>>(
    req: BtreeQueryRequest<K, F>,
    s: Seq<KV>,
    max_count: int,
) -> bool {
    exists|j: int|
        0 <= j < s.len() && req.working_range@.has::<K>(s[j].key) && #[trigger] scan_before::<
            K,
            V,
            F,
        >(req, s, j).len() >= max_count
}

/// How a leaf leaves a query.
#[derive(Debug, Clone, Copy, PartialEq, Eq, Structural)]
pub enum PaginationStatus {
    /// The range ends in this leaf and is done.
    Completed,
    /// The batch is full before the end of the range in this leaf.
    Continue,
    /// The range may go on behind this leaf.
    Unknown,
}

impl<K: BtreeKey, V: BtreeValue, S: UnderlyingBtree> Btree<K, V, S> {
    /// What the filter makes of an entry, and the value where it had to be fetched for that: the
    /// key alone is shown to the filter first, unless it always needs the value.
    fn apply_get_filter<F: GetFilter<K, V>>(
        &self,
        node: &NodeCore,
        idx: u32,
        filter: Option<&F>,
        Ghost(w): Ghost<Place>,
    ) -> (r: Result<(GetFilterDecision, Option<V>), BtreeError>)
        requires
            self.at(node@, w),
            w.t.leaf,
            idx < w.t.es.len(),
        ensures
            r matches Err(e) ==> self.storage.failures().contains(e),
            r matches Ok((d, v)) ==> {
                let e = self.kv(w.t.es[idx as int]);
                &&& (d != GetFilterDecision::Skip) == includes::<K, V, F>(filter, e)
                &&& match filter {
                    None => d == GetFilterDecision::Include && v is None,
                    Some(f) => if !f.spec_always_needs_value() && f.spec_check_key(e.key)
                        != GetFilterDecision::NeedValue {
                        d == f.spec_check_key(e.key) && v is None
                    } else {
                        d == f.spec_check_kv(e.key, e.val) && v is Some && v->0.bytes() == e.val
                    },
                }
            },
            self.storage.reliable() ==> r is Ok,
    {
        let filter = match filter {
            None => {
                return Ok((GetFilterDecision::Include, None));
            },
            Some(f) => f,
        };
        let key = self.leaf_key(node, idx, Ghost(w));
        if !filter.always_needs_value() {
            let decision = filter.check_key(&key);
            if decision != GetFilterDecision::NeedValue {
                return Ok((decision, None));
            }
        }
        match self.leaf_value(node, idx, Ghost(w)) {
            Ok(v) => Ok((filter.check_kv(&key, &v), Some(v))),
            Err(e) => Err(e),
        }
    }

    /// Appends entry `idx` of a leaf to the results if it is one.
    fn collect_entry<F: GetFilter<K, V>>(
        &self,
        node: &NodeCore,
        idx: u32,
        req: &BtreeQueryRequest<K, F>,
        out_values: &mut Vec<(K, V)>,
        Ghost(w): Ghost<Place>,
    ) -> (r: Result<bool, BtreeError>)
        requires
            self.at(node@, w),
            w.t.leaf,
            idx < w.t.es.len(),
            req.working_range@.has::<K>(w.t.es[idx as int].key),
        ensures
            r matches Err(e) ==> self.storage.failures().contains(e),
            r matches Ok(b) ==> {
                &&& b == req.wants::<V>(self.kv(w.t.es[idx as int]))
                &&& pairs(final(out_values)@) == pairs(old(out_values)@) + req.scan::<V>(
                    seq![self.kv(w.t.es[idx as int])],
                )
                &&& final(out_values)@.len() == old(out_values)@.len() + if b {
                    1int
                } else {
                    0int
                }
            },
            self.storage.reliable() ==> r is Ok,
    {
        let ghost e = self.kv(w.t.es[idx as int]);
        proof {
            req.lemma_scan_one::<V>(e);
        }
        let (decision, value) = match self.apply_get_filter(node, idx, req.filter(), Ghost(w)) {
            Ok(x) => x,
            Err(e) => {
                return Err(e);
            },
        };
        if decision == GetFilterDecision::Skip {
            proof {
                assert(pairs(out_values@) =~= pairs(old(out_values)@) + req.scan::<V>(seq![e]));
            }
            return Ok(false);
        }
        let value = match value {
            Some(v) => v,
            None => match self.leaf_value(node, idx, Ghost(w)) {
                Ok(v) => v,
                Err(e) => {
                    return Err(e);
                },
            },
        };
        let key = self.leaf_key(node, idx, Ghost(w));
        out_values.push((key, value));
        proof {
            assert(pairs(out_values@) =~= pairs(old(out_values)@) + req.scan::<V>(seq![e]));
        }
        Ok(true)
    }

    /// Appends the results of a leaf, up to `max_count` of them, in the order of the query, and
    /// answers their number and whether the range is done, goes on in the leaf, or may go on
    /// behind it.
    #[verifier::rlimit(50)]
    fn multi_get_from_leaf<F: GetFilter<K, V>>(
        &self,
        node: &NodeCore,
        req: &BtreeQueryRequest<K, F>,
        max_count: u32,
        out_values: &mut Vec<(K, V)>,
        Ghost(w): Ghost<Place>,
    ) -> (r: Result<(u32, PaginationStatus), BtreeError>)
        requires
            self.at(node@, w),
            w.t.leaf,
        ensures
            r matches Err(e) ==> self.storage.failures().contains(e),
            r matches Ok((count, status)) ==> {
                let hits = req.scan::<V>(self.kvs_at(w));
                &&& pairs(final(out_values)@) == pairs(old(out_values)@) + upto_count(
                    hits,
                    max_count as int,
                )
                &&& count == upto_count(hits, max_count as int).len()
                &&& final(out_values)@.len() == old(out_values)@.len() + count
                &&& status == if w.t.es.len() == 0 {
                    PaginationStatus::Unknown
                } else {
                    let open = unexamined::<K, V, F>(*req, self.kvs_at(w), max_count as int);
                    if !open && reaches_end::<K>(req.working_range@, req.reverse_order, w.t.es) {
                        PaginationStatus::Completed
                    } else if open && !takes_last::<K>(
                        req.working_range@,
                        req.reverse_order,
                        w.t.es,
                    ) {
                        PaginationStatus::Continue
                    } else {
                        PaginationStatus::Unknown
                    }
                }
                &&& status == PaginationStatus::Continue ==> count == max_count
                &&& status == PaginationStatus::Completed ==> count == hits.len()
                    && w.t.es.len() > 0 && range_done::<K>(
                    req.working_range@,
                    req.reverse_order,
                    w.t.es,
                )
            },
            self.storage.reliable() ==> r is Ok,
    {
        proof {
            self.lemma_at(node@, w);
        }
        let n: u32 = node.header.nentries;
        let ghost s = self.kvs_at(w);
        let ghost out0 = out_values@;
        let ghost range = req.working_range@;
        if n == 0 {
            // an empty leaf says nothing about the range
            proof {
                req.lemma_scan_none::<V>(s);
                assert(pairs(out_values@) =~= pairs(out0) + upto_count(
                    req.scan::<V>(s),
                    max_count as int,
                ));
            }
            return Ok((0, PaginationStatus::Unknown));
        }
        let (matched, start_idx, end_idx) = self.leaf_ops.match_range::<K, V>(
            node,
            &req.working_range,
        );
        if !matched {
            proof {
                req.lemma_scan_none::<V>(s);
                assert(pairs(out_values@) =~= pairs(out0) + upto_count(
                    req.scan::<V>(s),
                    max_count as int,
                ));
            }
            let done = self.range_ends_here(node, req, Ghost(w));
            proof {
                assert forall|j: int| 0 <= j < s.len() implies !range.has::<K>(
                    (#[trigger] s[j]).key,
                ) by {
                    assert(s[j].key == w.t.es[j].key);
                }
            }
            return Ok(
                (
                    0,
                    if done {
                        PaginationStatus::Completed
                    } else {
                        PaginationStatus::Unknown
                    },
                ),
            );
        }
        let total: u32 = end_idx - start_idx + 1;
        let reverse: bool = req.reverse_order;
        let mut count: u32 = 0;
        let mut i: u32 = 0;
        let ghost part = Seq::<KV>::empty();
        let ghost front = s.subrange(0, start_idx as int);
        let ghost back = s.subrange(end_idx + 1, s.len() as int);
        proof {
            assert(front.len() == start_idx);
            assert forall|j: int| 0 <= j < front.len() implies !range.has::<K>(
                (#[trigger] front[j]).key,
            ) by {
                assert(front[j] == s[j]);
                assert(s[j].key == w.t.es[j].key);
            }
            assert forall|j: int| 0 <= j < back.len() implies !range.has::<K>(
                (#[trigger] back[j]).key,
            ) by {
                assert(back[j] == s[j + end_idx + 1]);
                assert(s[j + end_idx + 1].key == w.t.es[j + end_idx + 1].key);
            }
            req.lemma_scan_none::<V>(front);
            req.lemma_scan_none::<V>(back);
            req.lemma_scan_none::<V>(part);
            assert(pairs(out_values@) =~= pairs(out0) + req.scan::<V>(part));
        }
        while i < total && count < max_count
            invariant
                self.at(node@, w),
                w.t.leaf,
                n == w.t.es.len(),
                reverse == req.reverse_order,
                s == self.kvs_at(w),
                range == req.working_range@,
                start_idx <= end_idx < n,
                total == end_idx - start_idx + 1,
                i <= total,
                count <= max_count,
                forall|j: int|
                    0 <= j < n ==> range.has::<K>((#[trigger] w.t.es[j]).key) == (start_idx <= j
                        <= end_idx),
                part == if reverse {
                    s.subrange(end_idx + 1 - i, end_idx + 1)
                } else {
                    s.subrange(start_idx as int, start_idx + i)
                },
                pairs(out_values@) == pairs(out0) + req.scan::<V>(part),
                out_values@.len() == out0.len() + count,
                s.len() == n,
                front == s.subrange(0, start_idx as int),
                back == s.subrange(end_idx + 1, s.len() as int),
                req.scan::<V>(front) == Seq::<KV>::empty(),
                req.scan::<V>(back) == Seq::<KV>::empty(),
                forall|k: int|
                    0 <= k < i ==> scan_before::<K, V, F>(
                        *req,
                        s,
                        #[trigger] examined_at(reverse, start_idx as int, end_idx as int, k),
                    ).len() < max_count,
            decreases total - i,
        {
            let idx: u32 = if reverse {
                end_idx - i
            } else {
                start_idx + i
            };
            let ghost e = self.kv(w.t.es[idx as int]);
            let ghost before = out_values@;
            proof {
                assert(s[idx as int] == e);
                assert(range.has::<K>(w.t.es[idx as int].key));
                if reverse {
                    assert(s.skip(idx + 1) =~= part + back);
                    req.lemma_scan_add::<V>(part, back);
                } else {
                    assert(s.take(idx as int) =~= front + part);
                    req.lemma_scan_add::<V>(front, part);
                }
                assert(scan_before::<K, V, F>(*req, s, idx as int) =~= req.scan::<V>(part));
                assert(req.scan::<V>(part).len() == count) by {
                    assert(pairs(out_values@).len() == out_values@.len());
                    assert(pairs(out0).len() == out0.len());
                }
            }
            match self.collect_entry(node, idx, req, out_values, Ghost(w)) {
                Ok(taken) => {
                    if taken {
                        count = count + 1;
                    }
                },
                Err(e) => {
                    return Err(e);
                },
            }
            i = i + 1;
            proof {
                if reverse {
                    let next = s.subrange(end_idx + 1 - i, end_idx + 1);
                    assert(next =~= seq![e] + part);
                    req.lemma_scan_add::<V>(seq![e], part);
                    assert(pairs(out_values@) =~= pairs(out0) + req.scan::<V>(next));
                    part = next;
                } else {
                    let next = s.subrange(start_idx as int, start_idx + i);
                    assert(next =~= part + seq![e]);
                    req.lemma_scan_add::<V>(part, seq![e]);
                    assert(pairs(out_values@) =~= pairs(out0) + req.scan::<V>(next));
                    part = next;
                }
            }
        }
        proof {
            let rest = if reverse {
                s.subrange(start_idx as int, end_idx + 1 - i)
            } else {
                s.subrange(start_idx + i, end_idx + 1)
            };
            let mid = s.subrange(start_idx as int, end_idx + 1);
            if reverse {
                assert(mid =~= rest + part);
                req.lemma_scan_add::<V>(rest, part);
            } else {
                assert(mid =~= part + rest);
                req.lemma_scan_add::<V>(part, rest);
            }
            assert(s =~= front + mid + back);
            req.lemma_scan_add::<V>(front, mid);
            req.lemma_scan_add::<V>(front + mid, back);
            let hits = req.scan::<V>(s);
            assert(hits =~= req.scan::<V>(part) + req.scan::<V>(rest));
            assert(req.scan::<V>(part).len() == count) by {
                assert(pairs(out_values@).len() == out_values@.len());
                assert(pairs(out0).len() == out0.len());
            }
            if i == total {
                assert(rest =~= Seq::<KV>::empty());
                req.lemma_scan_none::<V>(rest);
                assert(hits =~= req.scan::<V>(part));
            }
            assert(upto_count(hits, max_count as int) =~= req.scan::<V>(part));
            if i < total {
                let j = examined_at(reverse, start_idx as int, end_idx as int, i as int);
                if reverse {
                    assert(s.skip(j + 1) =~= part + back);
                    req.lemma_scan_add::<V>(part, back);
                } else {
                    assert(s.take(j) =~= front + part);
                    req.lemma_scan_add::<V>(front, part);
                }
                assert(scan_before::<K, V, F>(*req, s, j) =~= req.scan::<V>(part));
                assert(range.has::<K>(w.t.es[j].key));
                assert(s[j].key == w.t.es[j].key);
                assert(unexamined::<K, V, F>(*req, s, max_count as int));
            } else {
                assert forall|j: int| 0 <= j < s.len() && range.has::<K>(
                    s[j].key,
                ) implies #[trigger] scan_before::<K, V, F>(*req, s, j).len() < max_count by {
                    assert(s[j].key == w.t.es[j].key);
                    let k = if reverse {
                        end_idx - j
                    } else {
                        j - start_idx
                    };
                    assert(examined_at(reverse, start_idx as int, end_idx as int, k) == j);
                }
                assert(!unexamined::<K, V, F>(*req, s, max_count as int));
            }
            assert(range.has::<K>(w.t.es[0].key) == (start_idx == 0));
            assert(range.has::<K>(w.t.es[n - 1].key) == (end_idx == n - 1));
        }
        let at_end: bool = if reverse {
            start_idx == 0
        } else {
            end_idx == n - 1
        };
        let done: bool = i == total && self.range_ends_here(node, req, Ghost(w));
        let status = if done {
            PaginationStatus::Completed
        } else if at_end || i == total {
            PaginationStatus::Unknown
        } else {
            PaginationStatus::Continue
        };
        Ok((count, status))
    }

    /// Whether the entries of a leaf reach the end of the range of a query, in its order. No key
    /// of the range lies behind the leaf then.
    fn range_ends_here<F>(
        &self,
        node: &NodeCore,
        req: &BtreeQueryRequest<K, F>,
        Ghost(w): Ghost<Place>,
    ) -> (r: bool)
        requires
            self.at(node@, w),
            w.t.leaf,
            w.t.es.len() > 0,
        ensures
            r == reaches_end::<K>(req.working_range@, req.reverse_order, w.t.es),
            r ==> range_done::<K>(req.working_range@, req.reverse_order, w.t.es),
    {
        proof {
            self.lemma_at(node@, w);
        }
        let n: u32 = node.header.nentries;
        let ghost range = req.working_range@;
        if req.reverse_order {
            let first = self.leaf_key(node, 0, Ghost(w));
            let r: bool = !req.working_range.start_key.is_less(&first);
            proof {
                assert forall|k: Seq<u8>| r && #[trigger] K::lt(k, first.bytes()) implies !range.has::<
                    K,
                >(k) by {
                    lemma_lt_le::<K>(k, first.bytes(), range.start);
                    lemma_lt_not_lt::<K>(k, range.start);
                    K::lemma_irreflexive(k);
                }
            }
            r
        } else {
            let last = self.leaf_key(node, n - 1, Ghost(w));
            let r: bool = !last.is_less(&req.working_range.end_key);
            proof {
                assert forall|k: Seq<u8>| r && #[trigger] K::lt(last.bytes(), k) implies !range.has::<
                    K,
                >(k) by {
                    lemma_le_lt::<K>(range.end, last.bytes(), k);
                    lemma_lt_not_lt::<K>(range.end, k);
                    K::lemma_irreflexive(k);
                }
            }
            r
        }
    }
}

//==============================================================================
// Queries that walk down from the root
//==============================================================================

/// A batch with the results `d` takes further ones, of `m` and then of `r`, until it has `left`.
proof fn lemma_batch_grows(out: Seq<KV>, d: Seq<KV>, m: Seq<KV>, r: Seq<KV>, left: int)
    requires
        d.len() < left,
    ensures
        ({
            let part = upto_count(m, left - d.len());
            &&& out + d + part == out + upto_count(d + m, left)
            &&& part.len() == left - d.len() ==> upto_count(d + m, left) == upto_count(
                d + m + r,
                left,
            )
            &&& part.len() < left - d.len() ==> upto_count(d + m, left) == d + m
            &&& upto_count(d, left) == d
        }),
{
    let part = upto_count(m, left - d.len());
    assert(upto_count(d + m, left) =~= d + part);
    assert(out + d + part =~= out + (d + part));
    if part.len() == left - d.len() {
        assert(upto_count(d + m + r, left) =~= d + part);
    }
}

impl<K: BtreeKey, V: BtreeValue, S: UnderlyingBtree> Btree<K, V, S> {
    /// The results lie in the children that keys of the range can be in.
    proof fn lemma_scan_outside<F: GetFilter<K, V>>(
        &self,
        req: &BtreeQueryRequest<K, F>,
        w: Place,
        r: Option<(u32, u32)>,
    )
        requires
            self.covers(w, req.working_range@, r),
        ensures
            r matches Some((s, e)) ==> req.scan::<V>(self.kvs_before(w, s as int))
                == Seq::<KV>::empty() && req.scan::<V>(self.kvs_from(w, e + 1))
                == Seq::<KV>::empty(),
            r is None ==> req.scan::<V>(self.kvs_at(w)) == Seq::<KV>::empty(),
    {
        match r {
            Some((s, e)) => {
                req.lemma_scan_none::<V>(self.kvs_before(w, s as int));
                req.lemma_scan_none::<V>(self.kvs_from(w, e + 1));
            },
            None => {
                req.lemma_scan_none::<V>(self.kvs_at(w));
            },
        }
    }

    /// Appends the results below a node until the batch is full, and answers whether it is.
    fn traversal_query_walk<F: GetFilter<K, V>>(
        &self,
        my_node: &NodeCore,
        req: &BtreeQueryRequest<K, F>,
        out_values: &mut Vec<(K, V)>,
        Ghost(w): Ghost<Place>,
    ) -> (r: Result<bool, BtreeError>)
        requires
            self.at(my_node@, w),
            old(out_values)@.len() < req.batch_size,
        ensures
            r matches Err(e) ==> self.storage.failures().contains(e),
            r matches Ok(more) ==> {
                &&& pairs(final(out_values)@) == pairs(old(out_values)@) + upto_count(
                    req.scan::<V>(self.kvs_at(w)),
                    req.batch_size - old(out_values)@.len(),
                )
                &&& more == (final(out_values)@.len() == req.batch_size)
                &&& final(out_values)@.len() <= req.batch_size
            },
            self.storage.reliable() ==> r is Ok,
        decreases w.t,
    {
        proof {
            self.lemma_at(my_node@, w);
        }
        let ghost out0 = out_values@;
        if my_node.is_leaf() {
            let have: u32 = out_values.len() as u32;
            let remaining: u32 = req.batch_size - have;
            return match self.multi_get_from_leaf(my_node, req, remaining, out_values, Ghost(w)) {
                Ok(_) => Ok(out_values.len() as u32 >= req.batch_size),
                Err(e) => Err(e),
            };
        }
        let ghost s = self.kvs_at(w);
        let ghost left = req.batch_size - out0.len();
        let children = self.child_range(my_node, &req.working_range, Ghost(w));
        proof {
            self.lemma_scan_outside(req, w, children);
        }
        let (start_idx, end_idx) = match children {
            Some(x) => x,
            None => {
                proof {
                    assert(pairs(out_values@) =~= pairs(out0) + upto_count(
                        req.scan::<V>(s),
                        left,
                    ));
                }
                return Ok(false);
            },
        };
        let reverse: bool = req.reverse_order;
        let total: u32 = end_idx - start_idx;
        let mut i: u32 = 0;
        // what has been visited
        let ghost done = if reverse {
            self.kvs_from(w, end_idx + 1)
        } else {
            self.kvs_before(w, start_idx as int)
        };
        proof {
            assert(pairs(out_values@) =~= pairs(out0) + req.scan::<V>(done));
        }
        loop
            invariant
                self.at(my_node@, w),
                !w.t.leaf,
                s == self.kvs_at(w),
                out0 == old(out_values)@,
                reverse == req.reverse_order,
                left == req.batch_size - out0.len(),
                start_idx <= end_idx < w.t.kids.len(),
                total == end_idx - start_idx,
                i <= total,
                req.scan::<V>(self.kvs_before(w, start_idx as int)) == Seq::<KV>::empty(),
                req.scan::<V>(self.kvs_from(w, end_idx + 1)) == Seq::<KV>::empty(),
                done == if reverse {
                    self.kvs_from(w, end_idx + 1 - i)
                } else {
                    self.kvs_before(w, start_idx + i)
                },
                pairs(out_values@) == pairs(out0) + req.scan::<V>(done),
                out_values@.len() < req.batch_size,
            decreases total - i,
        {
            let idx: u32 = if reverse {
                end_idx - i
            } else {
                start_idx + i
            };
            let child = match self.get_child(my_node, idx, Ghost(w)) {
                Ok(c) => c,
                Err(e) => {
                    return Err(e);
                },
            };
            let ghost before = out_values@;
            let has_more: bool = match self.traversal_query_walk(
                &child,
                req,
                out_values,
                Ghost(w.kid(idx as int)),
            ) {
                Ok(m) => m,
                Err(e) => {
                    return Err(e);
                },
            };
            proof {
                let m = self.kvs_at(w.kid(idx as int));
                let a = self.kvs_before(w, idx as int);
                let b = self.kvs_from(w, idx + 1);
                self.lemma_kid_split(w, idx as int);
                req.lemma_scan_add::<V>(a + m, b);
                req.lemma_scan_add::<V>(a, m);
                req.lemma_scan_add::<V>(m, b);
                assert(pairs(before).len() == before.len());
                assert(pairs(out_values@).len() == out_values@.len());
                assert(pairs(out0).len() == out0.len());
                let rest = if reverse {
                    a
                } else {
                    b
                };
                lemma_batch_grows(
                    pairs(out0),
                    req.scan::<V>(done),
                    req.scan::<V>(m),
                    req.scan::<V>(rest),
                    left,
                );
                assert(req.scan::<V>(s) =~= req.scan::<V>(done) + req.scan::<V>(m) + req.scan::<V>(
                    rest,
                ));
                done = if reverse {
                    self.kvs_from(w, idx as int)
                } else {
                    self.kvs_before(w, idx + 1)
                };
            }
            if has_more {
                return Ok(true);
            }
            if i == total {
                return Ok(false);
            }
            i = i + 1;
        }
    }

    /// Answers a query by walking down from the root.
    fn traversal_query_internal<F: GetFilter<K, V>>(&self, req: BtreeQueryRequest<K, F>) -> (r:
        Result<QueryResultHandle<K, V, F>, BtreeError>)
        requires
            self.wf(),
        ensures
            r matches Err(e) ==> self.storage.failures().contains(e),
            r matches Ok(h) ==> h.answers(req, self@) && (req.batch_size > 0 ==> h.more == (
            h.results@.len() == req.batch_size)),
            self.storage.reliable() ==> r is Ok,
    {
        if req.batch_size == 0 {
            return Ok(QueryResultHandle::new(Vec::new(), req, false));
        }
        let root = match self.read_root() {
            Ok(c) => c,
            Err(e) => {
                return Err(e);
            },
        };
        let mut results: Vec<(K, V)> = Vec::new();
        let has_more: bool = match self.traversal_query_walk(
            &root,
            &req,
            &mut results,
            Ghost(self.top()),
        ) {
            Ok(m) => m,
            Err(e) => {
                return Err(e);
            },
        };
        proof {
            assert(pairs(results@) =~= upto_count(req.scan::<V>(self@), req.batch_size as int));
            assert(pairs(results@).len() == results@.len());
        }
        Ok(self.finish_query(req, results, has_more))
    }

    /// The handle for a batch of results.
    fn finish_query<F: GetFilter<K, V>>(
        &self,
        req: BtreeQueryRequest<K, F>,
        results: Vec<(K, V)>,
        has_more: bool,
    ) -> (h: QueryResultHandle<K, V, F>)
        requires
            self.wf(),
            req.batch_size > 0,
            pairs(results@) == upto_count(req.scan::<V>(self@), req.batch_size as int),
            has_more ==> results@.len() == req.batch_size,
            !has_more ==> results@.len() == req.scan::<V>(self@).len(),
        ensures
            h.answers(req, self@),
            h.results == results,
            h.more == has_more,
    {
        let mut req2 = req;
        proof {
            self.lemma_ordered();
            assert(pairs(results@).len() == results@.len());
        }
        let ghost all = req.scan::<V>(self@);
        if has_more {
            let n: usize = results.len();
            let last_key = copy_key(&results[n - 1].0);
            req2.shift_working_range(last_key);
            proof {
                assert(pairs(results@)[n - 1] == all[n - 1]);
                req.lemma_scan_shift::<V>(req2, self@, n as int);
                assert(all =~= pairs(results@) + req2.scan::<V>(self@));
            }
        } else {
            proof {
                assert(all =~= pairs(results@) + Seq::<KV>::empty());
            }
        }
        QueryResultHandle::new(results, req2, has_more)
    }

    /// The first `batch_size` entries in the range that the filter lets through, from the last
    /// key down where `reverse_order` is set.
    pub fn query_traversal<F: GetFilter<K, V>>(
        &self,
        range: BtreeKeyRange<K>,
        batch_size: u32,
        filter: Option<Arc<F>>,
        reverse_order: bool,
    ) -> (r: Result<QueryResultHandle<K, V, F>, BtreeError>)
        requires
            self.wf(),
        ensures
            r matches Err(e) ==> self.storage.failures().contains(e),
            r matches Ok(h) ==> h.answers(
                BtreeQueryRequest {
                    working_range: range,
                    batch_size,
                    filter,
                    reverse_order,
                    sweep_query: false,
                },
                self@,
            ) && (batch_size > 0 ==> h.more == (h.results@.len() == batch_size)),
            self.storage.reliable() ==> r is Ok,
    {
        let req = BtreeQueryRequest::new(range, batch_size, filter, reverse_order, false);
        self.traversal_query_internal(req)
    }
}

//==============================================================================
// Queries that follow the chain of leaves
//==============================================================================

impl<K: BtreeKey, V: BtreeValue, S: UnderlyingBtree> Btree<K, V, S> {
    /// What the first `j` leaves below a place hold.
    pub open spec fn kvs_leaves(&self, w: Place, j: int) -> Seq<KV> {
        kvs(self.storage.store().ov, flat_all(leaves(w.t).take(j)))
    }

    /// The leaf below a node in which the key would be. All keys in the leaves before are
    /// smaller.
    fn descend_to_leaf(&self, node: NodeCore, key: &K, Ghost(w): Ghost<Place>) -> (r: Result<
        (NodeCore, Ghost<int>),
        BtreeError,
    >)
        requires
            self.at(node@, w),
        ensures
            r matches Err(e) ==> self.storage.failures().contains(e),
            r matches Ok((leaf, j)) ==> {
                &&& 0 <= j@ < leaves(w.t).len()
                &&& self.at(leaf@, leaf_place(leaves(w.t)[j@]))
                &&& forall|i: int|
                    0 <= i < self.kvs_leaves(w, j@).len() ==> K::lt(
                        (#[trigger] self.kvs_leaves(w, j@)[i]).key,
                        key.bytes(),
                    )
            },
            self.storage.reliable() ==> r is Ok,
        decreases w.t,
    {
        proof {
            self.lemma_at(node@, w);
        }
        if node.is_leaf() {
            proof {
                lemma_leaf_placed::<K, V>(self.params(), self.storage.store(), w, 0);
                assert(leaves(w.t)[0] == w.t);
                assert(leaves(w.t).take(0) =~= Seq::<Tree>::empty());
            }
            return Ok((node, Ghost(0int)));
        }
        let n: u32 = node.header.nentries;
        let (_, pos) = self.int_ops.find::<K, u64>(&node, key);
        proof {
            self.lemma_edge(node@, w);
        }
        let idx: u32 = if pos == n && !node.has_valid_edge() {
            n - 1
        } else {
            pos
        };
        let child = match self.get_child(&node, idx, Ghost(w)) {
            Ok(c) => c,
            Err(e) => {
                return Err(e);
            },
        };
        let (leaf, Ghost(m)) = match self.descend_to_leaf(child, key, Ghost(w.kid(idx as int))) {
            Ok(x) => x,
            Err(e) => {
                return Err(e);
            },
        };
        let ghost front = leaves_all(w.t.kids.take(idx as int));
        let ghost j = front.len() + m;
        proof {
            let ks = w.t.kids;
            let ov = self.storage.store().ov;
            let kid = w.kid(idx as int);
            lemma_leaves_split(ks, idx as int);
            assert(leaves(w.t)[j] == leaves(kid.t)[m]);
            assert(leaves(w.t).take(j) =~= front + leaves(kid.t).take(m));
            lemma_flat_all_add(front, leaves(kid.t).take(m));
            lemma_leaves_all_flat(ks.take(idx as int));
            lemma_kvs_add(ov, flat_all(front), flat_all(leaves(kid.t).take(m)));
            self.lemma_position(w, key.bytes(), pos as int);
            let a = self.kvs_before(w, idx as int);
            let b = self.kvs_leaves(kid, m);
            if idx < pos {
                self.lemma_kid_split(w, idx as int);
                assert(self.kvs_before(w, pos as int) =~= a + self.kvs_at(kid));
                assert forall|i: int| 0 <= i < a.len() implies K::lt(
                    (#[trigger] a[i]).key,
                    key.bytes(),
                ) by {
                    assert(self.kvs_before(w, pos as int)[i] == a[i]);
                }
            }
            let s = self.kvs_leaves(w, j);
            assert(s =~= a + b);
            assert forall|i: int| 0 <= i < s.len() implies K::lt(
                (#[trigger] s[i]).key,
                key.bytes(),
            ) by {
                if i < a.len() {
                    assert(s[i] == a[i]);
                } else {
                    assert(s[i] == b[i - a.len()]);
                }
            }
        }
        Ok((leaf, Ghost(j)))
    }

    /// The batch of a query that follows the leaves is filled in leaf `j`, and that is not where
    /// the query ends: some entry of the leaf in the range has not been looked at, or the last
    /// key of the leaf lies before the end of the range.
    pub open spec fn filled_in<F: GetFilter<K, V>>(
        &self,
        req: BtreeQueryRequest<K, F>,
        j: int,
    ) -> bool {
        let leaf = leaves(self.tree@)[j];
        let before = req.scan::<V>(self.kvs_leaves(self.top(), j)).len();
        &&& 0 <= j < leaves(self.tree@).len()
        &&& before < req.batch_size
        &&& req.batch_size <= req.scan::<V>(self.kvs_leaves(self.top(), j + 1)).len()
        &&& unexamined::<K, V, F>(
            req,
            kvs(self.storage.store().ov, leaf.es),
            req.batch_size - before,
        ) || K::lt(leaf.es.last().key, req.working_range@.end)
    }

    /// Whether a query that follows the leaves says that more may follow.
    pub open spec fn says_more<F: GetFilter<K, V>>(&self, req: BtreeQueryRequest<K, F>) -> bool {
        exists|j: int| #[trigger] self.filled_in(req, j)
    }

    /// Further leaves have further results.
    pub proof fn lemma_more_leaves<F: GetFilter<K, V>>(
        &self,
        req: BtreeQueryRequest<K, F>,
        i: int,
        j: int,
    )
        requires
            !req.reverse_order,
            0 <= i <= j <= leaves(self.tree@).len(),
        ensures
            req.scan::<V>(self.kvs_leaves(self.top(), i)).len() <= req.scan::<V>(
                self.kvs_leaves(self.top(), j),
            ).len(),
    {
        let ls = leaves(self.tree@);
        let ov = self.storage.store().ov;
        let a = ls.take(i);
        let b = ls.subrange(i, j);
        assert(ls.take(j) =~= a + b);
        lemma_flat_all_add(a, b);
        lemma_kvs_add(ov, flat_all(a), flat_all(b));
        req.lemma_scan_add::<V>(kvs(ov, flat_all(a)), kvs(ov, flat_all(b)));
    }

    /// No more may follow where the batch is not filled, or ends in a leaf that ends the query.
    proof fn lemma_says_no<F: GetFilter<K, V>>(&self, req: BtreeQueryRequest<K, F>, j: int)
        requires
            !req.reverse_order,
            flat_all(leaves(self.tree@)) == flat(self.tree@),
            0 <= j < leaves(self.tree@).len(),
            req.scan::<V>(self.kvs_leaves(self.top(), j)).len() < req.batch_size,
            !self.filled_in(req, j),
            req.scan::<V>(self.kvs_leaves(self.top(), j + 1)).len() >= req.batch_size || req.scan::<
                V,
            >(self@).len() < req.batch_size,
        ensures
            !self.says_more(req),
    {
        let ls = leaves(self.tree@);
        let n = ls.len() as int;
        assert(ls.take(n) =~= ls);
        assert forall|i: int| !#[trigger] self.filled_in(req, i) by {
            if 0 <= i < j {
                self.lemma_more_leaves(req, i + 1, j);
            } else if j < i < n {
                self.lemma_more_leaves(req, j + 1, i);
                self.lemma_more_leaves(req, i + 1, n);
            }
        }
    }

    /// Appends the results from a leaf on, following the chain of leaves, until the batch is
    /// full or the range is done. Answers whether the batch is full.
    fn sweep_query_walk<F: GetFilter<K, V>>(
        &self,
        my_node: NodeCore,
        req: &BtreeQueryRequest<K, F>,
        out_values: &mut Vec<(K, V)>,
        Ghost(j0): Ghost<int>,
    ) -> (r: Result<bool, BtreeError>)
        requires
            self.wf(),
            !req.reverse_order,
            req.batch_size > 0,
            old(out_values)@.len() == 0,
            0 <= j0 < leaves(self.tree@).len(),
            self.at(my_node@, leaf_place(leaves(self.tree@)[j0])),
            req.scan::<V>(self.kvs_leaves(self.top(), j0)) == Seq::<KV>::empty(),
        ensures
            r matches Err(e) ==> self.storage.failures().contains(e),
            r matches Ok(more) ==> {
                &&& pairs(final(out_values)@) == upto_count(
                    req.scan::<V>(self@),
                    req.batch_size as int,
                )
                &&& more ==> final(out_values)@.len() == req.batch_size
                &&& !more ==> final(out_values)@.len() == req.scan::<V>(self@).len()
                &&& more == self.says_more(*req)
            },
            self.storage.reliable() ==> r is Ok,
    {
        let ghost ls = leaves(self.tree@);
        let ghost w = self.top();
        let ghost ov = self.storage.store().ov;
        let ghost all = req.scan::<V>(self@);
        proof {
            lemma_leaves_chained::<K, V>(self.params(), w);
            lemma_leaves_flat(w.t);
            assert(pairs(out_values@) =~= req.scan::<V>(self.kvs_leaves(w, j0)));
        }
        let mut my_node = my_node;
        let ghost mut j = j0;
        loop
            invariant
                self.wf(),
                !req.reverse_order,
                w == self.top(),
                ls == leaves(self.tree@),
                ov == self.storage.store().ov,
                all == req.scan::<V>(self@),
                chained(ls, EMPTY_BNODEID),
                flat_all(ls) == flat(self.tree@),
                0 <= j < ls.len(),
                self.at(my_node@, leaf_place(ls[j])),
                pairs(out_values@) == req.scan::<V>(self.kvs_leaves(w, j)),
                out_values@.len() < req.batch_size,
            decreases ls.len() - j,
        {
            let have: u32 = out_values.len() as u32;
            let remaining: u32 = req.batch_size - have;
            let ghost lw = leaf_place(ls[j]);
            let ghost before = out_values@;
            proof {
                lemma_leaf_placed::<K, V>(self.params(), self.storage.store(), w, j);
                self.lemma_at(my_node@, lw);
            }
            let (count, status) = match self.multi_get_from_leaf(
                &my_node,
                req,
                remaining,
                out_values,
                Ghost(lw),
            ) {
                Ok(x) => x,
                Err(e) => {
                    return Err(e);
                },
            };
            let ghost m = self.kvs_at(lw);
            let ghost a = self.kvs_leaves(w, j);
            let ghost b = kvs(ov, flat_all(ls.skip(j + 1)));
            proof {
                lemma_flat_split(ls, j);
                lemma_kvs_add(ov, flat_all(ls.take(j)), flat(ls[j]));
                lemma_kvs_add(
                    ov,
                    flat_all(ls.take(j)) + flat(ls[j]),
                    flat_all(ls.skip(j + 1)),
                );
                assert(self@ == a + m + b);
                req.lemma_scan_add::<V>(a + m, b);
                req.lemma_scan_add::<V>(a, m);
                assert(all == req.scan::<V>(a) + req.scan::<V>(m) + req.scan::<V>(b));
                assert(pairs(before).len() == before.len());
                assert(pairs(out_values@).len() == out_values@.len());
                let part = upto_count(req.scan::<V>(m), remaining as int);
                assert(pairs(out_values@) == req.scan::<V>(a) + part);
                if status == PaginationStatus::Completed {
                    self.lemma_ordered();
                    assert forall|i: int| 0 <= i < b.len() implies !req.working_range@.has::<K>(
                        (#[trigger] b[i]).key,
                    ) by {
                        let last = lw.t.es.len() - 1;
                        assert(self@[a.len() + last] == m[last]);
                        assert(self@[a.len() + m.len() + i] == b[i]);
                        assert(K::lt(
                            self@[a.len() + last].key,
                            self@[a.len() + m.len() + i].key,
                        ));
                        assert(K::lt(lw.t.es.last().key, b[i].key));
                    }
                    req.lemma_scan_none::<V>(b);
                    assert(all =~= req.scan::<V>(a) + req.scan::<V>(m));
                }
                if out_values@.len() >= req.batch_size {
                    assert(upto_count(all, req.batch_size as int) =~= pairs(out_values@));
                } else {
                    assert(part == req.scan::<V>(m));
                    assert(pairs(out_values@) =~= req.scan::<V>(a + m));
                    if status == PaginationStatus::Completed {
                        assert(upto_count(all, req.batch_size as int) =~= pairs(out_values@));
                    }
                }
            }
            proof {
                lemma_flat_all_add(ls.take(j), seq![ls[j]]);
                lemma_flat_all_one(ls[j]);
                assert(ls.take(j + 1) =~= ls.take(j) + seq![ls[j]]);
                assert(self.kvs_leaves(w, j + 1) == a + m);
                assert(req.scan::<V>(a + m) == req.scan::<V>(a) + req.scan::<V>(m));
                assert(m == kvs(ov, ls[j].es));
                if status == PaginationStatus::Completed {
                    assert(!self.filled_in(*req, j));
                    self.lemma_says_no(*req, j);
                } else if out_values@.len() >= req.batch_size {
                    assert(self.filled_in(*req, j));
                }
            }
            match status {
                PaginationStatus::Completed => {
                    return Ok(false);
                },
                PaginationStatus::Continue => {
                    return Ok(true);
                },
                PaginationStatus::Unknown => {
                    if out_values.len() as u32 >= req.batch_size {
                        return Ok(true);
                    }
                },
            }
            let next_id: u64 = my_node.header.next_node;
            proof {
                assert(names_next(ls, j, EMPTY_BNODEID));
                if j + 1 < ls.len() {
                    lemma_leaf_placed::<K, V>(self.params(), self.storage.store(), w, j + 1);
                    assert(node_rep(self.params(), self.storage.store().nodes, ls[j + 1]));
                } else {
                    assert(ls.skip(j + 1) =~= Seq::<Tree>::empty());
                    req.lemma_scan_none::<V>(b);
                    assert(all =~= pairs(out_values@));
                    assert(!self.filled_in(*req, j));
                    self.lemma_says_no(*req, j);
                }
            }
            if next_id == EMPTY_BNODEID {
                return Ok(false);
            }
            my_node = match self.storage.read_node(next_id) {
                Ok(c) => c,
                Err(e) => {
                    return Err(e);
                },
            };
            proof {
                j = j + 1;
            }
        }
    }

    /// Answers a query by following the chain of leaves.
    fn sweep_query_internal<F: GetFilter<K, V>>(&self, req: BtreeQueryRequest<K, F>) -> (r: Result<
        QueryResultHandle<K, V, F>,
        BtreeError,
    >)
        requires
            self.wf(),
            !req.reverse_order,
        ensures
            r matches Err(e) ==> self.storage.failures().contains(e),
            r matches Ok(h) ==> h.answers(req, self@) && h.more == (req.batch_size > 0
                && self.says_more(req)),
            self.storage.reliable() ==> r is Ok,
    {
        if req.batch_size == 0 {
            return Ok(QueryResultHandle::new(Vec::new(), req, false));
        }
        let root = match self.read_root() {
            Ok(c) => c,
            Err(e) => {
                return Err(e);
            },
        };
        let (leaf, Ghost(j)) = match self.descend_to_leaf(
            root,
            &req.working_range.start_key,
            Ghost(self.top()),
        ) {
            Ok(x) => x,
            Err(e) => {
                return Err(e);
            },
        };
        proof {
            let s = self.kvs_leaves(self.top(), j);
            let r = req.working_range@;
            assert forall|i: int| 0 <= i < s.len() implies !r.has::<K>((#[trigger] s[i]).key) by {
                lemma_lt_not_lt::<K>(s[i].key, r.start);
                K::lemma_irreflexive(r.start);
            }
            req.lemma_scan_none::<V>(s);
        }
        let mut results: Vec<(K, V)> = Vec::new();
        let has_more: bool = match self.sweep_query_walk(leaf, &req, &mut results, Ghost(j)) {
            Ok(m) => m,
            Err(e) => {
                return Err(e);
            },
        };
        Ok(self.finish_query(req, results, has_more))
    }

    /// The first `batch_size` entries in the range that the filter lets through.
    pub fn query<F: GetFilter<K, V>>(
        &self,
        range: BtreeKeyRange<K>,
        batch_size: u32,
        filter: Option<Arc<F>>,
    ) -> (r: Result<QueryResultHandle<K, V, F>, BtreeError>)
        requires
            self.wf(),
        ensures
            r matches Err(e) ==> self.storage.failures().contains(e),
            r matches Ok(h) ==> h.answers(
                BtreeQueryRequest {
                    working_range: range,
                    batch_size,
                    filter,
                    reverse_order: false,
                    sweep_query: true,
                },
                self@,
            ) && h.more == (batch_size > 0 && self.says_more(
                BtreeQueryRequest {
                    working_range: range,
                    batch_size,
                    filter,
                    reverse_order: false,
                    sweep_query: true,
                },
            )),
            self.storage.reliable() ==> r is Ok,
    {
        let req = BtreeQueryRequest::new(range, batch_size, filter, false, true);
        self.sweep_query_internal(req)
    }

    /// The batch that follows a handle. It is empty where nothing is left, and is searched for
    /// in the same way as the first one.
    pub fn query_next_batch<F: GetFilter<K, V>>(&self, handle: QueryResultHandle<K, V, F>) -> (r:
        Result<QueryResultHandle<K, V, F>, BtreeError>)
        requires
            self.wf(),
            handle.request.sweep_query ==> !handle.request.reverse_order,
        ensures
            r matches Err(e) ==> self.storage.failures().contains(e),
            r matches Ok(h) ==> {
                &&& h.request.same_query(handle.request)
                &&& handle.more ==> h.answers(handle.request, self@)
                &&& handle.more && handle.request.sweep_query ==> h.more == (
                handle.request.batch_size > 0 && self.says_more(handle.request))
                &&& handle.more && !handle.request.sweep_query && handle.request.batch_size > 0
                    ==> h.more == (h.results@.len() == handle.request.batch_size)
                &&& !handle.more ==> h.results@.len() == 0 && !h.more
            },
            self.storage.reliable() || !handle.more ==> r is Ok,
    {
        if !handle.has_more() {
            return Ok(QueryResultHandle::new(Vec::new(), handle.request(), false));
        }
        let req = handle.request();
        if req.sweep_query {
            self.sweep_query_internal(req)
        } else {
            self.traversal_query_internal(req)
        }
    }
}

} // verus!
