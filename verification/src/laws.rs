//! What holds of trees, indices and tables whatever they contain. The laws speak of entries in key
//! order, which is what the contracts of the operations speak of.

use vstd::prelude::*;
use crate::btree::{new_root, Btree};
use crate::btree_config::BtreeConfig;
use crate::btree_index::{found, sought, IndexQueries};
use crate::btree_kvs::{BtreeKey, BtreeValue};
use crate::btree_node::CoreView;
use crate::btree_req::{
    pairs, replaces, AcceptAll, BtreeQueryRequest, GetFilter, PutFilter, QueryResultHandle,
    RangeView,
};
use crate::btree_types::MergePolicy;
use crate::contents::{
    from_key, lemma_filter_all, lemma_filter_contains, lemma_filter_ordered, lookup, not, ordered,
    pick, with_key,
};
use crate::db_kv::{
    lemma_lex_irreflexive, lemma_lex_total, lemma_lex_transitive, lex_lt, DbKey, DbValue,
};
use crate::iterator::RangeIterator;
use crate::merge_lemmas::join_upto;
use crate::merge_plan::{fit_together, key_fits, lemma_one_key, lemma_small_plan, merge_due};
use crate::ordered_lemmas::{
    lemma_filter_first, lemma_lookup, lemma_lookup_same, lemma_lookup_some, lemma_pick_known,
    lemma_pick_least, lemma_same_members, lemma_updated,
};
use crate::partition::{lemma_part_order, part_of, shard_of};
use crate::put::{put_over, put_over_all, updated};
use crate::query::in_range;
use crate::remove::capped;
use crate::shard_lemmas::{all_known, counted, in_part, in_shard, lemma_filter_len, spread};
use crate::table::put_all;
use crate::tree_model::{has_id, only_tree, placed, tidy, Params, Place, Store, KV};
use crate::underlying::UnderlyingBtree;
use crate::var_node_ops::VarNodeOps;
use crate::variants::{alike, uniform};
use crate::varlen_node_common::VarRecordOps;

verus! {

//==============================================================================
// Puts and removals
//==============================================================================

/// A key has the value that was put last.
pub proof fn law_get_after_put<K: BtreeKey>(s: Seq<KV>, e: KV)
    requires
        ordered::<K>(s),
    ensures
        lookup(updated::<K>(s, e), e.key) == Some(e.val),
{
    lemma_updated::<K>(s, e);
    assert(updated::<K>(s, e).contains(e));
    lemma_lookup_some::<K>(updated::<K>(s, e), e);
}

/// A put leaves the values of all other keys alone.
pub proof fn law_put_keeps_others<K: BtreeKey>(s: Seq<KV>, e: KV, k: Seq<u8>)
    requires
        ordered::<K>(s),
        k != e.key,
    ensures
        lookup(updated::<K>(s, e), k) == lookup(s, k),
{
    lemma_updated::<K>(s, e);
    assert forall|x: KV| x.key == k implies #[trigger] updated::<K>(s, e).contains(x)
        == s.contains(x) by {}
    lemma_lookup_same::<K>(updated::<K>(s, e), s, k);
}

/// A put keeps the keys in order.
pub proof fn law_put_keeps_order<K: BtreeKey>(s: Seq<KV>, e: KV)
    requires
        ordered::<K>(s),
    ensures
        ordered::<K>(updated::<K>(s, e)),
{
    lemma_updated::<K>(s, e);
}

/// Of two puts of one key only the second one counts.
pub proof fn law_put_twice<K: BtreeKey>(s: Seq<KV>, a: KV, b: KV)
    requires
        ordered::<K>(s),
        a.key == b.key,
    ensures
        updated::<K>(updated::<K>(s, a), b) == updated::<K>(s, b),
{
    let x = updated::<K>(s, a);
    lemma_updated::<K>(s, a);
    lemma_updated::<K>(s, b);
    lemma_updated::<K>(x, b);
    assert forall|e: KV| #[trigger] updated::<K>(x, b).contains(e) == updated::<K>(s, b).contains(
        e,
    ) by {
        assert(x.contains(e) == (e == a || s.contains(e) && e.key != a.key));
    }
    lemma_same_members::<K>(updated::<K>(x, b), updated::<K>(s, b));
}

/// Puts of different keys can change places.
pub proof fn law_puts_commute<K: BtreeKey>(s: Seq<KV>, a: KV, b: KV)
    requires
        ordered::<K>(s),
        a.key != b.key,
    ensures
        updated::<K>(updated::<K>(s, a), b) == updated::<K>(updated::<K>(s, b), a),
{
    let x = updated::<K>(s, a);
    let y = updated::<K>(s, b);
    lemma_updated::<K>(s, a);
    lemma_updated::<K>(s, b);
    lemma_updated::<K>(x, b);
    lemma_updated::<K>(y, a);
    assert forall|e: KV| #[trigger] updated::<K>(x, b).contains(e) == updated::<K>(y, a).contains(
        e,
    ) by {
        assert(x.contains(e) == (e == a || s.contains(e) && e.key != a.key));
        assert(y.contains(e) == (e == b || s.contains(e) && e.key != b.key));
    }
    lemma_same_members::<K>(updated::<K>(x, b), updated::<K>(y, a));
}

/// A removed key has no value.
pub proof fn law_get_after_remove<K: BtreeKey>(s: Seq<KV>, k: Seq<u8>)
    requires
        ordered::<K>(s),
    ensures
        lookup(s.filter(not(with_key(k))), k) is None,
{
    let r = s.filter(not(with_key(k)));
    lemma_filter_ordered::<K>(s, not(with_key(k)));
    lemma_lookup::<K>(r, k);
    match pick(r, with_key(k)) {
        Some(e) => {
            lemma_filter_contains(s, not(with_key(k)), e);
        },
        None => {},
    }
}

/// A removal leaves the values of all other keys alone.
pub proof fn law_remove_keeps_others<K: BtreeKey>(s: Seq<KV>, k: Seq<u8>, other: Seq<u8>)
    requires
        ordered::<K>(s),
        other != k,
    ensures
        lookup(s.filter(not(with_key(k))), other) == lookup(s, other),
{
    let r = s.filter(not(with_key(k)));
    lemma_filter_ordered::<K>(s, not(with_key(k)));
    assert forall|x: KV| x.key == other implies #[trigger] r.contains(x) == s.contains(x) by {
        lemma_filter_contains(s, not(with_key(k)), x);
    }
    lemma_lookup_same::<K>(r, s, other);
}

/// To remove a key that was put when it was not there is to undo the put.
pub proof fn law_remove_undoes_put<K: BtreeKey>(s: Seq<KV>, e: KV)
    requires
        ordered::<K>(s),
        lookup(s, e.key) is None,
    ensures
        updated::<K>(s, e).filter(not(with_key(e.key))) == s,
{
    let u = updated::<K>(s, e);
    let r = u.filter(not(with_key(e.key)));
    lemma_updated::<K>(s, e);
    lemma_filter_ordered::<K>(u, not(with_key(e.key)));
    lemma_lookup::<K>(s, e.key);
    assert forall|x: KV| #[trigger] r.contains(x) == s.contains(x) by {
        lemma_filter_contains(u, not(with_key(e.key)), x);
        assert(u.contains(x) == (x == e || s.contains(x) && x.key != e.key));
    }
    lemma_same_members::<K>(r, s);
}

/// What a removal leaves and what it counts are together what there was.
pub proof fn law_removal_counts(s: Seq<KV>, sel: spec_fn(KV) -> bool)
    ensures
        s.len() == s.filter(not(sel)).len() + s.filter(sel).len(),
        s.filter(sel).len() <= u32::MAX ==> s.len() == s.filter(not(sel)).len() + capped(
            s.filter(sel).len(),
        ),
{
    let all = |e: KV| true;
    lemma_filter_len(s, sel, not(sel), all);
    lemma_filter_all(s, all);
}

/// After a range is removed, none of its keys has a value, and all other keys have theirs.
pub proof fn law_range_removed<K: BtreeKey>(s: Seq<KV>, range: RangeView, k: Seq<u8>)
    requires
        ordered::<K>(s),
    ensures
        lookup(s.filter(not(in_range::<K>(range))), k) == if range.has::<K>(k) {
            None
        } else {
            lookup(s, k)
        },
{
    let f = not(in_range::<K>(range));
    let r = s.filter(f);
    lemma_filter_ordered::<K>(s, f);
    if range.has::<K>(k) {
        lemma_lookup::<K>(r, k);
        match pick(r, with_key(k)) {
            Some(e) => {
                lemma_filter_contains(s, f, e);
            },
            None => {},
        }
    } else {
        assert forall|x: KV| x.key == k implies #[trigger] r.contains(x) == s.contains(x) by {
            lemma_filter_contains(s, f, x);
        }
        lemma_lookup_same::<K>(r, s, k);
    }
}

/// A value that is put over a range is that of the keys of the range which the filter lets through,
/// and no key comes or goes.
pub proof fn law_range_put<K: BtreeKey, V: BtreeValue, F: PutFilter<K, V>>(
    s: Seq<KV>,
    range: RangeView,
    v: Seq<u8>,
    filter: Option<&F>,
    k: Seq<u8>,
)
    requires
        ordered::<K>(s),
    ensures
        ordered::<K>(put_over_all::<K, V, F>(s, range, v, filter)),
        lookup(put_over_all::<K, V, F>(s, range, v, filter), k) == match pick(s, with_key(k)) {
            None => None,
            Some(e) => if range.has::<K>(k) && replaces::<K, V, F>(filter, e, v) {
                Some(v)
            } else {
                Some(e.val)
            },
        },
{
    let t = put_over_all::<K, V, F>(s, range, v, filter);
    assert forall|i: int, j: int| 0 <= i < j < t.len() implies K::lt(
        #[trigger] t[i].key,
        #[trigger] t[j].key,
    ) by {
        assert(K::lt(s[i].key, s[j].key));
    }
    lemma_lookup::<K>(s, k);
    match pick(s, with_key(k)) {
        Some(e) => {
            let i = choose|i: int| 0 <= i < s.len() && s[i] == e;
            assert(t[i] == put_over::<K, V, F>(e, range, v, filter));
            assert(t.contains(t[i]));
            lemma_lookup_some::<K>(t, t[i]);
        },
        None => {
            lemma_lookup::<K>(t, k);
            match pick(t, with_key(k)) {
                Some(x) => {
                    let i = choose|i: int| 0 <= i < t.len() && t[i] == x;
                    assert(s.contains(s[i]));
                },
                None => {},
            }
        },
    }
}

/// Of entries that are put one after the other, a key has the value of its last one.
pub proof fn law_put_all(s: Seq<KV>, es: Seq<KV>, i: int)
    requires
        ordered::<DbKey>(s),
        0 <= i < es.len(),
        forall|j: int| i < j < es.len() ==> (#[trigger] es[j]).key != es[i].key,
    ensures
        ordered::<DbKey>(put_all(s, es)),
        lookup(put_all(s, es), es[i].key) == Some(es[i].val),
    decreases es.len(),
{
    let d = es.drop_last();
    lemma_put_all_ordered(s, d);
    lemma_updated::<DbKey>(put_all(s, d), es.last());
    if i == es.len() - 1 {
        law_get_after_put::<DbKey>(put_all(s, d), es.last());
    } else {
        assert(es[es.len() - 1].key != es[i].key);
        assert forall|j: int| i < j < d.len() implies (#[trigger] d[j]).key != d[i].key by {
            assert(es[j].key != es[i].key);
        }
        law_put_all(s, d, i);
        law_put_keeps_others::<DbKey>(put_all(s, d), es.last(), es[i].key);
    }
}

proof fn lemma_put_all_ordered(s: Seq<KV>, es: Seq<KV>)
    requires
        ordered::<DbKey>(s),
    ensures
        ordered::<DbKey>(put_all(s, es)),
    decreases es.len(),
{
    if es.len() > 0 {
        lemma_put_all_ordered(s, es.drop_last());
        lemma_updated::<DbKey>(put_all(s, es.drop_last()), es.last());
    }
}

//==============================================================================
// Queries
//==============================================================================

/// Batch `i` goes on with what the one before it has left.
pub open spec fn goes_on<K: BtreeKey, V: BtreeValue, F: GetFilter<K, V>>(
    s: Seq<KV>,
    hs: Seq<QueryResultHandle<K, V, F>>,
    i: int,
) -> bool {
    hs[i - 1].more && hs[i].answers(hs[i - 1].request, s)
}

/// Batches in a row: the first one answers the request, and each one goes on with what the one
/// before it has left.
pub open spec fn in_a_row<K: BtreeKey, V: BtreeValue, F: GetFilter<K, V>>(
    s: Seq<KV>,
    req: BtreeQueryRequest<K, F>,
    hs: Seq<QueryResultHandle<K, V, F>>,
) -> bool {
    &&& hs.len() > 0
    &&& hs[0].answers(req, s)
    &&& forall|i: int| 0 < i < hs.len() ==> #[trigger] goes_on(s, hs, i)
}

/// The results of all batches.
pub open spec fn gathered<K: BtreeKey, V: BtreeValue, F>(
    hs: Seq<QueryResultHandle<K, V, F>>,
) -> Seq<KV>
    decreases hs.len(),
{
    if hs.len() == 0 {
        Seq::empty()
    } else {
        gathered(hs.drop_last()) + pairs(hs.last().results@)
    }
}

/// However many batches there are in a row, together they are the first part of what was asked
/// for, and the rest is still to come. No batch is larger than the request allows.
pub proof fn law_batches_follow<K: BtreeKey, V: BtreeValue, F: GetFilter<K, V>>(
    s: Seq<KV>,
    req: BtreeQueryRequest<K, F>,
    hs: Seq<QueryResultHandle<K, V, F>>,
)
    requires
        req.batch_size > 0,
        in_a_row(s, req, hs),
    ensures
        req.scan::<V>(s) == gathered(hs) + hs.last().rest(s),
        hs.last().results@.len() <= req.batch_size,
        hs.last().request.batch_size == req.batch_size,
    decreases hs.len(),
{
    let front = hs.drop_last();
    let h = hs.last();
    if front.len() == 0 {
        assert(gathered(front) =~= Seq::<KV>::empty());
        assert(gathered(hs) =~= pairs(h.results@));
    } else {
        assert forall|i: int| 0 < i < front.len() implies #[trigger] goes_on(s, front, i) by {
            assert(goes_on(s, hs, i));
        }
        law_batches_follow(s, req, front);
        assert(goes_on(s, hs, hs.len() - 1));
        assert(front.last() == hs[hs.len() - 2]);
        assert(gathered(front) + (pairs(h.results@) + h.rest(s)) =~= gathered(hs) + h.rest(s));
    }
}

/// A query returns each key of its range once, in key order or in the opposite order.
pub proof fn law_query_order<F: GetFilter<DbKey, DbValue>>(
    s: Seq<KV>,
    range: RangeView,
    filter: Option<&F>,
)
    requires
        ordered::<DbKey>(s),
    ensures
        ordered::<DbKey>(found::<F>(s, range, filter, false)),
        found::<F>(s, range, filter, true) == found::<F>(s, range, filter, false).reverse(),
{
    lemma_filter_ordered::<DbKey>(s, sought::<F>(range, filter));
}

/// A query without a filter returns an entry exactly if it is there and in the range.
pub proof fn law_query_complete(s: Seq<KV>, range: RangeView, reverse: bool, e: KV)
    ensures
        found::<AcceptAll>(s, range, None, reverse).contains(e) == (s.contains(e) && range.has::<
            DbKey,
        >(e.key)),
{
    let f = sought::<AcceptAll>(range, None);
    let t = s.filter(f);
    lemma_filter_contains(s, f, e);
    if reverse {
        let r = t.reverse();
        if t.contains(e) {
            let i = choose|i: int| 0 <= i < t.len() && t[i] == e;
            assert(r[t.len() - 1 - i] == e);
        }
        if r.contains(e) {
            let i = choose|i: int| 0 <= i < r.len() && r[i] == e;
            assert(t[t.len() - 1 - i] == e);
        }
    }
}

/// A search back for a key that is there finds that key first.
pub proof fn law_seek_back_finds_key(s: Seq<KV>, start: Seq<u8>, e: KV)
    requires
        ordered::<DbKey>(s),
        s.contains(e),
        !lex_lt(e.key, start),
    ensures
        ({
            let r = found::<AcceptAll>(
                s,
                RangeView { start, start_incl: true, end: e.key, end_incl: true },
                None,
                true,
            );
            r.len() > 0 && r[0] == e
        }),
{
    let range = RangeView { start, start_incl: true, end: e.key, end_incl: true };
    let f = sought::<AcceptAll>(range, None);
    let t = s.filter(f);
    lemma_lex_total(start, e.key);
    assert(range.has::<DbKey>(e.key));
    lemma_filter_contains(s, f, e);
    lemma_filter_ordered::<DbKey>(s, f);
    let i = choose|i: int| 0 <= i < t.len() && t[i] == e;
    let n = t.len() - 1;
    if i < n {
        assert(lex_lt(t[i].key, t[n].key));
        assert(f(t[n]));
        lemma_lex_irreflexive(e.key);
        if lex_lt(t[n].key, e.key) {
            lemma_lex_transitive(e.key, t[n].key, e.key);
        }
    }
    assert(t.reverse()[0] == t[n]);
}

/// The first key from a given one on is where a search forward starts, unless it lies behind the
/// end.
pub proof fn law_seek_forward_finds_first(s: Seq<KV>, key: Seq<u8>, end: Seq<u8>)
    requires
        ordered::<DbKey>(s),
    ensures
        ({
            let r = found::<AcceptAll>(
                s,
                RangeView { start: key, start_incl: true, end, end_incl: false },
                None,
                false,
            );
            match pick(s, from_key::<DbKey>(key, true)) {
                Some(e) => if lex_lt(e.key, end) {
                    r.len() > 0 && r[0] == e
                } else {
                    r.len() == 0
                },
                None => r.len() == 0,
            }
        }),
{
    let range = RangeView { start: key, start_incl: true, end, end_incl: false };
    let f = sought::<AcceptAll>(range, None);
    let g = from_key::<DbKey>(key, true);
    lemma_filter_first::<DbKey>(s, f);
    lemma_pick_known::<DbKey>(s, g);
    lemma_pick_known::<DbKey>(s, f);
    match pick(s, g) {
        Some(e) => {
            if lex_lt(e.key, end) {
                assert forall|x: KV| #[trigger] s.contains(x) && f(x) implies !DbKey::lt(
                    x.key,
                    e.key,
                ) by {
                    assert(g(x));
                }
                lemma_pick_least::<DbKey>(s, f, e);
            } else {
                match pick(s, f) {
                    Some(x) => {
                        assert(g(x));
                        assert(!DbKey::lt(x.key, e.key));
                        lemma_lex_total(x.key, e.key);
                        if lex_lt(e.key, x.key) {
                            lemma_lex_transitive(e.key, x.key, end);
                        }
                    },
                    None => {},
                }
            }
        },
        None => {
            match pick(s, f) {
                Some(x) => {
                    assert(g(x));
                },
                None => {},
            }
        },
    }
}

//==============================================================================
// Trees, nodes and shards
//==============================================================================

/// Any two entries that a tree takes fit into a leaf, and entries with their keys into an
/// interior node.
pub proof fn law_two_entries_fit<K: BtreeKey, V: BtreeValue>(
    config: BtreeConfig,
    k1: nat,
    v1: nat,
    k2: nat,
    v2: nat,
)
    requires
        config.usable::<V>(),
        config.storable::<K, V>(k1 as int, v1 as int),
        config.storable::<K, V>(k2 as int, v2 as int),
    ensures
        ({
            let rec = config.params::<K, V>().leaf.rec;
            60 + (rec + k1 + config.stored_len(v1 as int)) + (rec + k2 + config.stored_len(
                v2 as int,
            )) <= config.node_size
        }),
        60 + (config.params::<K, V>().interior.rec + k1 + 8) + (config.params::<
            K,
            V,
        >().interior.rec + k2 + 8) <= config.node_size,
{
    config.lemma_usable::<K, V>();
}

/// Unless the policy rules merges out, children that fit into a single node are merged, as long
/// as their parent has room for the key of that node.
pub proof fn law_small_children_merge<K: BtreeKey, V: BtreeValue>(
    p: Params,
    policy: MergePolicy,
    fill: int,
    st: Store,
    w: Place,
    a: int,
    b: int,
)
    requires
        placed::<K, V>(p, st, w),
        policy != MergePolicy::Never,
        0 <= a < b < w.t.kids.len(),
        fit_together(p, fill, st, w.t, a, b),
        key_fits(p, w.t, a, b),
    ensures
        merge_due(p, policy, fill, st, w.t, a, b),
{
    let j = join_upto(w.t, a, (b - a + 1) as nat);
    lemma_small_plan::<K, V>(p, fill, st, w, a, b);
    lemma_one_key(p, w.t, a, b);
    assert(seq![0int].push(j.es.len() as int) =~= seq![0int, j.es.len() as int]);
}

/// An entry lies in exactly one shard: that of its partition.
pub proof fn law_one_shard(p: nat, all: Seq<KV>, views: Seq<Seq<KV>>, i: int, e: KV)
    requires
        spread(p, all, views),
        0 <= i < views.len(),
    ensures
        views[i].contains(e) == (all.contains(e) && shard_of(views.len(), part_of(p, e.key)) == i),
{
    assert(views[i] == all.filter(in_shard(p, views.len(), i)));
    lemma_filter_contains(all, in_shard(p, views.len(), i), e);
}

/// As long as all counts are known, the partitions that an index lists are those with entries.
pub proof fn law_listed_partitions_have_entries(
    p: nat,
    m: Map<Seq<u8>, i64>,
    all: Seq<KV>,
    pk: Seq<u8>,
)
    requires
        counted(p, m, all),
        all_known(m),
        forall|q: Seq<u8>| #[trigger] m.contains_key(q) ==> m[q] > 0,
    ensures
        m.contains_key(pk) == exists|e: KV| #[trigger]
            all.contains(e) && part_of(p, e.key) == pk,
{
    if m.contains_key(pk) {
        let es = all.filter(in_part(p, pk));
        let e = es[0];
        assert(es.contains(e));
        lemma_filter_contains(all, in_part(p, pk), e);
    }
}

/// A key between two keys of a partition has the same partition.
pub proof fn law_partitions_are_intervals(p: nat, a: Seq<u8>, k: Seq<u8>, b: Seq<u8>)
    requires
        lex_lt(a, k),
        lex_lt(k, b),
        part_of(p, a) == part_of(p, b),
    ensures
        part_of(p, k) == part_of(p, a),
{
    lemma_part_order(p, a, k);
    lemma_part_order(p, k, b);
    if part_of(p, k) != part_of(p, a) {
        lemma_lex_transitive(part_of(p, a), part_of(p, k), part_of(p, b));
        lemma_lex_irreflexive(part_of(p, a));
    }
}

//==============================================================================
// Iterators
//==============================================================================

/// How many of the first `n` calls of an iterator fetch a batch.
pub open spec fn fetches<'a, I: IndexQueries<AcceptAll>>(
    its: Seq<RangeIterator<'a, I>>,
    n: nat,
) -> nat
    decreases n,
{
    if n == 0 {
        0
    } else {
        fetches(its, (n - 1) as nat) + if its[n - 1].at_end_of_batch() {
            1nat
        } else {
            0nat
        }
    }
}

/// What an iterator has returned after `n` calls, and what is left of its batch, are the batches
/// that it has fetched.
proof fn lemma_batches_so_far<'a, I: IndexQueries<AcceptAll>>(
    its: Seq<RangeIterator<'a, I>>,
    es: Seq<KV>,
    n: nat,
)
    requires
        n <= es.len() < its.len(),
        its[0].batches@ == seq![its[0].unread()],
        forall|i: int| 0 <= i < es.len() ==> its[i + 1].advanced(&its[i], Some(#[trigger] es[i])),
    ensures
        es.take(n as int) + its[n as int].unread() == its[n as int].batches@.flatten_alt(),
        its[n as int].batches@.len() == 1 + fetches(its, n),
    decreases n,
{
    if n == 0 {
        let b = its[0].batches@;
        b.lemma_flatten_one_element();
        b.lemma_flatten_and_flatten_alt_are_equivalent();
        assert(es.take(0) + its[0].unread() =~= b.flatten_alt());
    } else {
        let m = n - 1;
        lemma_batches_so_far(its, es, m as nat);
        let o = its[m];
        let it = its[m + 1];
        assert(it.advanced(&o, Some(es[m])));
        assert(es.take(n as int) =~= es.take(m).push(es[m]));
        if o.at_end_of_batch() {
            let u = it.batches@.last();
            assert(it.batches@.drop_last() =~= o.batches@);
            assert(o.unread() =~= Seq::<KV>::empty());
            assert(es.take(n as int) + it.unread() =~= (es.take(m) + o.unread()) + u);
        } else {
            assert(es.take(n as int) + it.unread() =~= es.take(m) + o.unread());
        }
    }
}

/// An iterator that is read to its end has returned the entries of all its batches, each once and
/// in order, and has fetched each batch behind the first one once.
pub proof fn law_iterator_reads_each_batch_once<'a, I: IndexQueries<AcceptAll>>(
    its: Seq<RangeIterator<'a, I>>,
    es: Seq<KV>,
)
    requires
        its.len() == es.len() + 2,
        its[0].batches@ == seq![its[0].unread()],
        forall|i: int| 0 <= i < es.len() ==> its[i + 1].advanced(&its[i], Some(#[trigger] es[i])),
        its.last().advanced(&its[es.len() as int], None),
    ensures
        es == its.last().batches@.flatten(),
        fetches(its, es.len() + 1) == its.last().batches@.len() - 1,
{
    let n = es.len();
    let o = its[n as int];
    let it = its.last();
    lemma_batches_so_far(its, es, n);
    assert(es.take(n as int) =~= es);
    if o.at_end_of_batch() {
        assert(it.batches@.drop_last() =~= o.batches@);
        assert(it.batches@.last() =~= Seq::<KV>::empty());
    }
    assert(o.unread() =~= Seq::<KV>::empty());
    assert(es =~= it.batches@.flatten_alt());
    it.batches@.lemma_flatten_and_flatten_alt_are_equivalent();
}

//==============================================================================
// Nodes
//==============================================================================

/// A second compaction leaves the node as it is, where no entry has an empty key and an empty
/// value.
pub proof fn law_second_compact_changes_nothing<K: BtreeKey, V: BtreeValue, R: VarRecordOps>(
    ops: VarNodeOps<R>,
    c: CoreView,
    c1: CoreView,
    c2: CoreView,
)
    requires
        forall|i: int|
            0 <= i < ops.entries::<K, V>(c).len() ==> 0 < (#[trigger] ops.entries::<K, V>(c)[i]).size(),
        ops.compacted::<K, V>(c, c1),
        ops.compacted::<K, V>(c1, c2),
    ensures
        c2 == c1,
{
}

//==============================================================================
// What the storage holds
//==============================================================================

/// A tree made in a storage that held nothing is all that the storage holds, and has the variant
/// that the configuration gives to leaves.
pub proof fn law_new_tree_is_all<K: BtreeKey, V: BtreeValue, S: UnderlyingBtree>(
    storage: S,
    b: &Btree<K, V, S>,
)
    requires
        storage.store() == (Store { nodes: Map::empty(), ov: Map::empty() }),
        b.wf(),
        new_root(
            storage.store(),
            b.root_node_id,
            b.config.leaf_node_variant,
            b.storage.store(),
        ),
    ensures
        only_tree(b.storage.store(), b.tree@),
        uniform(b.config, b.storage.store()),
{
    assert(has_id(b.tree@, b.tree@.id));
}

/// Where all nodes have the variants that the configuration gives to leaves and to interior nodes,
/// they have after a put or a removal that succeeds.
pub proof fn law_nodes_have_their_variants<K: BtreeKey, V: BtreeValue, S: UnderlyingBtree>(
    b: &Btree<K, V, S>,
    b2: &Btree<K, V, S>,
)
    requires
        uniform(b.config, b.storage.store()),
        b2.env_of(b),
        b2.keeps_variants(b),
    ensures
        uniform(b2.config, b2.storage.store()),
{
    reveal(alike);
}

/// Where a storage holds nothing but a tree, it holds nothing but the tree after a put or a
/// removal that succeeds: each node and each overflow record that the tree no longer uses is
/// gone.
pub proof fn law_nothing_is_left_behind<K: BtreeKey, V: BtreeValue, S: UnderlyingBtree>(
    b: &Btree<K, V, S>,
    b2: &Btree<K, V, S>,
)
    requires
        only_tree(b.storage.store(), b.tree@),
        b2.leaves_nothing(b),
    ensures
        only_tree(b2.storage.store(), b2.tree@),
{
    reveal(tidy);
}

} // verus!
