//! What the operations do, said of keys, values, bounds and filters alone. Each law starts from what
//! an operation ensures and ends with what a caller sees.

use std::collections::hash_map::DefaultHasher;
use vstd::prelude::*;
use vstd::std_specs::hash::DefaultHasherAdditionalSpecFns;
use crate::any_index::AnyIndex;
use crate::btree::Btree;
use crate::btree_index::{
    found, sought, AnyQueryHandle, BtreeIndex, IndexModel, IndexQueries, IndexQueryHandle,
};
use crate::btree_kvs::{BtreeKey, BtreeValue, Entry};
use crate::btree_req::{
    includes, pairs, removes, replaces, AcceptAll, BtreeKeyRange, BtreeQueryRequest, GetFilter,
    GetFilterDecision, PutFilter, QueryResultHandle, RemoveFilter, RemoveFilterDecision,
};
use crate::contents::{
    from_key, lemma_filter_add, lemma_filter_all, lemma_filter_contains, lemma_filter_not,
    lemma_filter_one, lemma_filter_ordered, lemma_pick, lemma_pick_middle, lemma_pick_none, lookup,
    not, ordered, pick, with_key,
};
use crate::db_kv::{
    lemma_lex_irreflexive, lemma_lex_total, lemma_lex_transitive, lex_lt, DbKey, DbValue,
};
use crate::iterator::{byte_pair, byte_pairs, RangeIterator};
use crate::node_search::is_position;
use crate::ordered_lemmas::{
    lemma_key_once, lemma_lookup, lemma_lookup_some, lemma_pick_known, lemma_same_members,
    lemma_updated,
};
use crate::partition::{
    follows, lemma_all_largest, lemma_follows, lemma_shard_bound, part_of, shard_of,
};
use crate::put::{put_outcome, put_over_all, range_partly, updated, PutResult};
use crate::query::{in_range, none_in, opt_pair, opt_val, reach};
use crate::range_query::{reaches_end, scan_before, takes_last, unexamined};
use crate::remove::{
    bare, capped, central, lemma_only_key, nearest, only, partly_removed, spans, victims,
    without_first,
};
use crate::shard_lemmas::{in_shard, lemma_filter_len};
use crate::sharded_btree::{ShardedBtree, ShardedQueryHandle};
use crate::table_index::half_open;
use crate::tree_lemmas::lemma_leaves_flat;
use crate::tree_model::{flat, flat_all, kvs, leaves, Tree, KV};
use crate::underlying::UnderlyingBtree;
use crate::unsharded_btree::{SingleQueryHandle, UnshardedBtree};

verus! {

//==============================================================================
// Order
//==============================================================================

/// Keys of tables are in the order of the first byte in which they differ; a key that another one
/// starts with comes first.
pub proof fn law_order_of_keys(a: Seq<u8>, b: Seq<u8>)
    ensures
        DbKey::lt(a, b) ==> exists|i: int|
            0 <= i <= a.len() && i < b.len() && (i == a.len() || a[i] < b[i]) && #[trigger] a.take(i)
                == b.take(i),
        forall|i: int|
            0 <= i <= a.len() && i < b.len() && (i == a.len() || a[i] < b[i]) && #[trigger] a.take(i)
                == b.take(i) ==> DbKey::lt(a, b),
    decreases a.len(),
{
    if b.len() == 0 {
    } else if a.len() == 0 {
        assert(a.take(0) =~= b.take(0));
        assert(b[0] == b[0]);
    } else if a[0] != b[0] {
        if a[0] < b[0] {
            assert(a.take(0) =~= b.take(0));
        }
        assert forall|i: int|
            0 <= i <= a.len() && i < b.len() && (i == a.len() || a[i] < b[i]) && #[trigger] a.take(i)
                == b.take(i) implies a[0] < b[0] by {
            if i > 0 {
                assert(a.take(i)[0] == b.take(i)[0]);
            }
        }
    } else {
        let x = a.skip(1);
        let y = b.skip(1);
        law_order_of_keys(x, y);
        assert(lex_lt(a, b) == lex_lt(x, y));
        if DbKey::lt(x, y) {
            let i = choose|i: int|
                0 <= i <= x.len() && i < y.len() && (i == x.len() || x[i] < y[i]) && #[trigger] x.take(
                    i,
                ) == y.take(i);
            assert(0 <= i <= x.len() && i < y.len() && x.take(i) == y.take(i));
            assert forall|j: int| 0 <= j < i + 1 implies #[trigger] a.take(i + 1)[j] == b.take(i + 1)[j] by {
                if j > 0 {
                    assert(x.take(i)[j - 1] == y.take(i)[j - 1]);
                }
            }
            assert(a.take(i + 1) =~= b.take(i + 1));
            assert(b[i + 1] == y[i]);
        }
        assert forall|i: int|
            0 <= i <= a.len() && i < b.len() && (i == a.len() || a[i] < b[i]) && #[trigger] a.take(i)
                == b.take(i) implies lex_lt(x, y) by {
            assert(i > 0);
            assert(x.take(i - 1) =~= a.take(i).skip(1));
            assert(y.take(i - 1) =~= b.take(i).skip(1));
            assert(y[i - 1] == b[i]);
        }
    }
}

/// Keys and values of tables are stored as they are.
pub proof fn law_bytes_as_they_are(k: DbKey, v: DbValue)
    ensures
        k.bytes() == k@,
        v.bytes() == v@,
{
}

/// The keys of a tree are strictly increasing.
pub proof fn law_keys_increase<K: BtreeKey, V: BtreeValue, S: UnderlyingBtree>(
    b: &Btree<K, V, S>,
    i: int,
    j: int,
)
    requires
        b.wf(),
        0 <= i < j < b@.len(),
    ensures
        K::lt(b@[i].key, b@[j].key),
{
    b.lemma_ordered();
}

/// A range has the keys from its start to its end, and its bounds where they are included.
pub proof fn law_range<K: BtreeKey>(r: BtreeKeyRange<K>, k: Seq<u8>)
    ensures
        r@.has::<K>(k) == ((K::lt(r.start_key.bytes(), k) || r.start_incl && k
            == r.start_key.bytes()) && (K::lt(k, r.end_key.bytes()) || r.end_incl && k
            == r.end_key.bytes())),
        r@.start == r.start_key.bytes(),
        r@.end == r.end_key.bytes(),
        r@.start_incl == r.start_incl,
        r@.end_incl == r.end_incl,
{
}

//==============================================================================
// Puts
//==============================================================================

/// A put of a key that is not there makes it the only new entry, and the keys stay in order.
pub proof fn law_put_of_new_key<K: BtreeKey, V: BtreeValue, F: PutFilter<K, V>>(
    s: Seq<KV>,
    key: Seq<u8>,
    val: Seq<u8>,
    filter: Option<&F>,
    r: PutResult,
    s2: Seq<KV>,
) -> (i: int)
    requires
        forall|m: int, n: int|
            0 <= m < n < s.len() ==> K::lt(#[trigger] s[m].key, #[trigger] s[n].key),
        forall|m: int| 0 <= m < s.len() ==> (#[trigger] s[m]).key != key,
        put_outcome::<K, V, F>(s, KV { key, val }, filter, r, s2),
    ensures
        r == PutResult::Success,
        0 <= i <= s.len(),
        s2 == s.take(i) + seq![KV { key, val }] + s.skip(i),
        forall|m: int| 0 <= m < i ==> K::lt((#[trigger] s[m]).key, key),
        forall|m: int| i <= m < s.len() ==> K::lt(key, (#[trigger] s[m]).key),
{
    let e = KV { key, val };
    lemma_lookup::<K>(s, key);
    match pick(s, with_key(key)) {
        Some(x) => {
            let m = choose|m: int| 0 <= m < s.len() && s[m] == x;
            assert(s[m].key == key);
        },
        None => {},
    }
    let i = lemma_place::<K>(s, key, s.len() as int);
    let t = s.take(i) + seq![e] + s.skip(i);
    lemma_updated::<K>(s, e);
    assert forall|m: int, n: int| 0 <= m < n < t.len() implies K::lt(
        #[trigger] t[m].key,
        #[trigger] t[n].key,
    ) by {}
    assert forall|x: KV| #[trigger] t.contains(x) == updated::<K>(s, e).contains(x) by {
        if t.contains(x) {
            let m = choose|m: int| 0 <= m < t.len() && t[m] == x;
            if m < i {
                assert(s[m] == x);
            } else if m > i {
                assert(s[m - 1] == x);
            }
        }
        if x == e {
            assert(t[i] == e);
        } else if s.contains(x) {
            let m = choose|m: int| 0 <= m < s.len() && s[m] == x;
            if m < i {
                assert(t[m] == x);
            } else {
                assert(t[m + 1] == x);
            }
        }
    }
    lemma_same_members::<K>(updated::<K>(s, e), t);
    i
}

/// Where a key that is not there belongs.
proof fn lemma_place<K: BtreeKey>(s: Seq<KV>, key: Seq<u8>, n: int) -> (i: int)
    requires
        ordered::<K>(s),
        forall|m: int| 0 <= m < s.len() ==> (#[trigger] s[m]).key != key,
        0 <= n <= s.len(),
        forall|m: int| n <= m < s.len() ==> K::lt(key, (#[trigger] s[m]).key),
    ensures
        0 <= i <= n,
        forall|m: int| 0 <= m < i ==> K::lt((#[trigger] s[m]).key, key),
        forall|m: int| i <= m < s.len() ==> K::lt(key, (#[trigger] s[m]).key),
    decreases n,
{
    if n == 0 {
        0
    } else {
        K::lemma_total(s[n - 1].key, key);
        if K::lt(key, s[n - 1].key) {
            lemma_place::<K>(s, key, n - 1)
        } else {
            assert forall|m: int| 0 <= m < n implies K::lt((#[trigger] s[m]).key, key) by {
                if m < n - 1 {
                    K::lemma_transitive(s[m].key, s[n - 1].key, key);
                }
            }
            n
        }
    }
}

/// A put of a key that is there replaces its value, and nothing else, where there is no filter or
/// the filter accepts the new value for the old one; otherwise it changes nothing.
pub proof fn law_put_of_existing_key<K: BtreeKey, V: BtreeValue, F: PutFilter<K, V>>(
    s: Seq<KV>,
    i: int,
    val: Seq<u8>,
    filter: Option<&F>,
    r: PutResult,
    s2: Seq<KV>,
)
    requires
        forall|m: int, n: int|
            0 <= m < n < s.len() ==> K::lt(#[trigger] s[m].key, #[trigger] s[n].key),
        0 <= i < s.len(),
        put_outcome::<K, V, F>(s, KV { key: s[i].key, val }, filter, r, s2),
    ensures
        filter is None ==> r == PutResult::Updated && s2 == s.update(
            i,
            KV { key: s[i].key, val },
        ),
        filter matches Some(f) ==> if f.spec_accepts(s[i].key, s[i].val, val) {
            r == PutResult::Updated && s2 == s.update(i, KV { key: s[i].key, val })
        } else {
            r == PutResult::Skipped && s2 == s
        },
{
    let e = KV { key: s[i].key, val };
    let t = s.update(i, e);
    assert(s.contains(s[i]));
    lemma_lookup_some::<K>(s, s[i]);
    lemma_updated::<K>(s, e);
    assert forall|m: int, n: int| 0 <= m < n < t.len() implies K::lt(
        #[trigger] t[m].key,
        #[trigger] t[n].key,
    ) by {
        assert(K::lt(s[m].key, s[n].key));
    }
    assert forall|x: KV| #[trigger] t.contains(x) == updated::<K>(s, e).contains(x) by {
        if t.contains(x) {
            let m = choose|m: int| 0 <= m < t.len() && t[m] == x;
            if m != i {
                assert(s[m] == x);
                if x.key == e.key {
                    lemma_key_once::<K>(s, x, s[i]);
                    lemma_apart::<K>(s, m, i);
                }
            }
        }
        if x == e {
            assert(t[i] == e);
        } else if s.contains(x) && x.key != e.key {
            let m = choose|m: int| 0 <= m < s.len() && s[m] == x;
            assert(t[m] == x);
        }
    }
    lemma_same_members::<K>(updated::<K>(s, e), t);
}

/// Two places have two keys.
proof fn lemma_apart<K: BtreeKey>(s: Seq<KV>, m: int, i: int)
    requires
        ordered::<K>(s),
        0 <= m < s.len(),
        0 <= i < s.len(),
        m != i,
    ensures
        s[m].key != s[i].key,
{
    K::lemma_irreflexive(s[i].key);
    if m < i {
        assert(K::lt(s[m].key, s[i].key));
    } else {
        assert(K::lt(s[i].key, s[m].key));
    }
}

/// A put over a range changes no key and no place. It gives the value to the entries whose keys the
/// range has, if there is no filter or the filter accepts the value for theirs, and leaves all
/// others as they are.
pub proof fn law_put_over_range<K: BtreeKey, V: BtreeValue, F: PutFilter<K, V>>(
    s: Seq<KV>,
    r: BtreeKeyRange<K>,
    val: Seq<u8>,
    filter: Option<&F>,
    s2: Seq<KV>,
    i: int,
)
    requires
        s2 == put_over_all::<K, V, F>(s, r@, val, filter),
        0 <= i < s.len(),
    ensures
        s2.len() == s.len(),
        s2[i].key == s[i].key,
        s2[i].val == if (K::lt(r.start_key.bytes(), s[i].key) || r.start_incl && s[i].key
            == r.start_key.bytes()) && (K::lt(s[i].key, r.end_key.bytes()) || r.end_incl && s[i].key
            == r.end_key.bytes()) && (filter matches Some(f) ==> f.spec_accepts(
            s[i].key,
            s[i].val,
            val,
        )) {
            val
        } else {
            s[i].val
        },
{
}

/// A put over a range that fails has given the value to no entry but those.
pub proof fn law_put_over_part_of_range<K: BtreeKey, V: BtreeValue, F: PutFilter<K, V>>(
    s: Seq<KV>,
    r: BtreeKeyRange<K>,
    val: Seq<u8>,
    filter: Option<&F>,
    s2: Seq<KV>,
    i: int,
)
    requires
        range_partly::<K, V, F>(s, r@, val, filter, s2),
        0 <= i < s.len(),
    ensures
        s2.len() == s.len(),
        s2[i].key == s[i].key,
        s2[i].val != s[i].val ==> {
            &&& s2[i].val == val
            &&& K::lt(r.start_key.bytes(), s[i].key) || r.start_incl && s[i].key
                == r.start_key.bytes()
            &&& K::lt(s[i].key, r.end_key.bytes()) || r.end_incl && s[i].key == r.end_key.bytes()
            &&& filter matches Some(f) ==> f.spec_accepts(s[i].key, s[i].val, val)
        },
{
    assert(s2[i] == s[i] || s2[i].val == val);
}

//==============================================================================
// Removals
//==============================================================================

/// A removal of a range takes exactly the entries whose keys the range has and which the filter, if
/// there is one, marks for removal: by the key, where the key decides, and else by key and value.
/// The others stay in their order, and the answer is how many have gone.
pub proof fn law_remove_range<K: BtreeKey, V: BtreeValue, F: RemoveFilter<K, V>>(
    s: Seq<KV>,
    r: BtreeKeyRange<K>,
    filter: Option<&F>,
    n: u32,
    s2: Seq<KV>,
    e: KV,
)
    requires
        forall|i: int, j: int|
            0 <= i < j < s.len() ==> K::lt(#[trigger] s[i].key, #[trigger] s[j].key),
        s2 == s.filter(not(victims::<K, V, F>(r@, filter))),
        n == capped(s.filter(victims::<K, V, F>(r@, filter)).len()),
    ensures
        s2.contains(e) == (s.contains(e) && !({
            &&& K::lt(r.start_key.bytes(), e.key) || r.start_incl && e.key == r.start_key.bytes()
            &&& K::lt(e.key, r.end_key.bytes()) || r.end_incl && e.key == r.end_key.bytes()
            &&& filter matches Some(f) ==> if f.spec_always_needs_value() {
                f.spec_check_kv(e.key, e.val) == RemoveFilterDecision::Remove
            } else {
                match f.spec_check_key(e.key) {
                    RemoveFilterDecision::Remove => true,
                    RemoveFilterDecision::Skip => false,
                    RemoveFilterDecision::NeedValue => f.spec_check_kv(e.key, e.val)
                        == RemoveFilterDecision::Remove,
                }
            }
        })),
        forall|i: int, j: int|
            0 <= i < j < s2.len() ==> K::lt(#[trigger] s2[i].key, #[trigger] s2[j].key),
        s2.len() <= s.len(),
        n == if s.len() - s2.len() <= u32::MAX {
            s.len() - s2.len()
        } else {
            u32::MAX as int
        },
{
    let sel = victims::<K, V, F>(r@, filter);
    lemma_filter_contains(s, not(sel), e);
    lemma_filter_ordered::<K>(s, not(sel));
    lemma_split_len(s, sel);
}

/// What has a property and what has not are together everything.
proof fn lemma_split_len(s: Seq<KV>, sel: spec_fn(KV) -> bool)
    ensures
        s.len() == s.filter(not(sel)).len() + s.filter(sel).len(),
{
    let all = |e: KV| true;
    lemma_filter_len(s, sel, not(sel), all);
    lemma_filter_all(s, all);
}

/// A removal of a key takes its entry and answers its value, unless the filter does not mark it for
/// removal.
pub proof fn law_remove_of_existing_key<K: BtreeKey, V: BtreeValue, F: RemoveFilter<K, V>>(
    s: Seq<KV>,
    i: int,
    filter: Option<&F>,
    v: Option<V>,
    s2: Seq<KV>,
)
    requires
        forall|m: int, n: int|
            0 <= m < n < s.len() ==> K::lt(#[trigger] s[m].key, #[trigger] s[n].key),
        0 <= i < s.len(),
        s2 == s.filter(not(victims::<K, V, F>(only(s[i].key), filter))),
        opt_val(v) == match pick(s, victims::<K, V, F>(only(s[i].key), filter)) {
            Some(e) => Some(e.val),
            None => None,
        },
    ensures
        ({
            let goes = match filter {
                None => true,
                Some(f) => if f.spec_always_needs_value() {
                    f.spec_check_kv(s[i].key, s[i].val) == RemoveFilterDecision::Remove
                } else {
                    match f.spec_check_key(s[i].key) {
                        RemoveFilterDecision::Remove => true,
                        RemoveFilterDecision::Skip => false,
                        RemoveFilterDecision::NeedValue => f.spec_check_kv(s[i].key, s[i].val)
                            == RemoveFilterDecision::Remove,
                    }
                },
            };
            if goes {
                s2 == s.take(i) + s.skip(i + 1) && (v matches Some(v) && v.bytes() == s[i].val)
            } else {
                s2 == s && v is None
            }
        }),
{
    let k = s[i].key;
    let sel = victims::<K, V, F>(only(k), filter);
    K::lemma_irreflexive(k);
    assert forall|m: int| 0 <= m < s.len() && m != i implies !sel(#[trigger] s[m]) by {
        lemma_apart::<K>(s, m, i);
        lemma_only_key::<K>(k, s[m].key);
    }
    let goes = match filter {
        None => true,
        Some(f) => if f.spec_always_needs_value() {
            f.spec_check_kv(k, s[i].val) == RemoveFilterDecision::Remove
        } else {
            match f.spec_check_key(k) {
                RemoveFilterDecision::Remove => true,
                RemoveFilterDecision::Skip => false,
                RemoveFilterDecision::NeedValue => f.spec_check_kv(k, s[i].val)
                    == RemoveFilterDecision::Remove,
            }
        },
    };
    lemma_only_key::<K>(k, k);
    assert(sel(s[i]) == goes);
    let a = s.take(i);
    let b = s.skip(i + 1);
    assert(s =~= a + seq![s[i]] + b);
    assert forall|m: int| 0 <= m < a.len() implies !sel(#[trigger] a[m]) by {
        assert(a[m] == s[m]);
    }
    assert forall|m: int| 0 <= m < b.len() implies !sel(#[trigger] b[m]) by {
        assert(b[m] == s[m + i + 1]);
    }
    lemma_filter_not(a, sel);
    lemma_filter_not(b, sel);
    lemma_filter_one(s[i], not(sel));
    lemma_filter_add(a + seq![s[i]], b, not(sel));
    lemma_filter_add(a, seq![s[i]], not(sel));
    lemma_pick_middle(a, seq![s[i]], b, sel);
    if goes {
        assert(seq![s[i]][0] == s[i]);
        lemma_pick(seq![s[i]], sel, 0);
        assert(s2 =~= a + b);
    } else {
        assert forall|m: int| 0 <= m < 1 implies !sel(#[trigger] seq![s[i]][m]) by {}
        lemma_pick_none(seq![s[i]], sel);
        assert(s2 =~= s);
    }
}

/// A removal of a key that is not there changes nothing.
pub proof fn law_remove_of_missing_key<K: BtreeKey, V: BtreeValue, F: RemoveFilter<K, V>>(
    s: Seq<KV>,
    k: Seq<u8>,
    filter: Option<&F>,
    v: Option<V>,
    s2: Seq<KV>,
)
    requires
        forall|m: int| 0 <= m < s.len() ==> (#[trigger] s[m]).key != k,
        s2 == s.filter(not(victims::<K, V, F>(only(k), filter))),
        opt_val(v) == match pick(s, victims::<K, V, F>(only(k), filter)) {
            Some(e) => Some(e.val),
            None => None,
        },
    ensures
        s2 == s,
        v is None,
{
    let sel = victims::<K, V, F>(only(k), filter);
    assert forall|m: int| 0 <= m < s.len() implies !sel(#[trigger] s[m]) by {
        lemma_only_key::<K>(k, s[m].key);
    }
    lemma_filter_not(s, sel);
    lemma_pick_none(s, sel);
}

/// A removal that fails has taken nothing but what it was to take, and has added nothing.
pub proof fn law_failed_removal<K: BtreeKey, V: BtreeValue, F: RemoveFilter<K, V>>(
    s: Seq<KV>,
    r: BtreeKeyRange<K>,
    filter: Option<&F>,
    s2: Seq<KV>,
    e: KV,
)
    requires
        partly_removed(s, victims::<K, V, F>(r@, filter), s2),
    ensures
        s2.contains(e) ==> s.contains(e),
        s.contains(e) && !s2.contains(e) ==> {
            &&& K::lt(r.start_key.bytes(), e.key) || r.start_incl && e.key == r.start_key.bytes()
            &&& K::lt(e.key, r.end_key.bytes()) || r.end_incl && e.key == r.end_key.bytes()
            &&& filter matches Some(f) ==> if f.spec_always_needs_value() {
                f.spec_check_kv(e.key, e.val) == RemoveFilterDecision::Remove
            } else {
                match f.spec_check_key(e.key) {
                    RemoveFilterDecision::Remove => true,
                    RemoveFilterDecision::Skip => false,
                    RemoveFilterDecision::NeedValue => f.spec_check_kv(e.key, e.val)
                        == RemoveFilterDecision::Remove,
                }
            }
        },
{
    let sel = victims::<K, V, F>(r@, filter);
    lemma_filter_contains(s, not(sel), e);
    lemma_filter_contains(s2, not(sel), e);
}

/// A removal from a leaf that is limited to a number of entries takes the first ones of those that it
/// is about, that many or all, and leaves the others in their order.
pub proof fn law_first_removed(es: Seq<Entry>, f: spec_fn(Entry) -> bool, n: nat)
    ensures
        without_first(es, f, n).filter(|e: Entry| !f(e)) == es.filter(|e: Entry| !f(e)),
        n <= es.filter(f).len() ==> without_first(es, f, n).filter(f) == es.filter(f).skip(n as int),
        n > es.filter(f).len() ==> without_first(es, f, n).filter(f) == Seq::<Entry>::empty(),
    decreases es.len(),
{
    let g = |e: Entry| !f(e);
    if n == 0 {
        assert(es.filter(f).skip(0) =~= es.filter(f));
    } else if es.len() == 0 {
        es.lemma_filter_len(f);
        assert(es.filter(f) =~= Seq::<Entry>::empty());
    } else {
        let head = seq![es[0]];
        let rest = es.skip(1);
        assert(es =~= head + rest);
        Seq::filter_distributes_over_add(head, rest, f);
        Seq::filter_distributes_over_add(head, rest, g);
        reveal_with_fuel(Seq::filter, 2);
        assert(head.drop_last() =~= Seq::<Entry>::empty());
        if f(es[0]) {
            law_first_removed(rest, f, (n - 1) as nat);
            assert(head.filter(f) =~= head);
            assert(head.filter(g) =~= Seq::<Entry>::empty());
            assert(es.filter(g) =~= rest.filter(g));
            if n <= es.filter(f).len() {
                assert(es.filter(f).skip(n as int) =~= rest.filter(f).skip(n - 1));
            }
        } else {
            law_first_removed(rest, f, n);
            let t = without_first(rest, f, n);
            Seq::filter_distributes_over_add(head, t, f);
            Seq::filter_distributes_over_add(head, t, g);
            assert(head.filter(f) =~= Seq::<Entry>::empty());
            assert(head.filter(g) =~= head);
            assert(es.filter(f) =~= rest.filter(f));
            assert((head + t).filter(f) =~= t.filter(f));
        }
    }
}

/// Of the keys of a range in a leaf, the one in the middle is removed. Of an even number it is the
/// last one of the first half.
pub proof fn law_middle_of_leaf<K: BtreeKey>(t: Tree, r: BtreeKeyRange<K>, k: Seq<u8>) -> (p: (
    int,
    int,
    int,
))
    requires
        t.leaf,
        central::<K>(t, r@, k),
    ensures
        ({
            let (first, m, last) = p;
            &&& 0 <= first <= m <= last < t.es.len()
            &&& t.es[m].key == k
            &&& last - m == m - first || last - m == m - first + 1
            &&& forall|j: int|
                0 <= j < t.es.len() ==> ({
                    let x = (#[trigger] t.es[j]).key;
                    &&& K::lt(r.start_key.bytes(), x) || r.start_incl && x == r.start_key.bytes()
                    &&& K::lt(x, r.end_key.bytes()) || r.end_incl && x == r.end_key.bytes()
                }) == (first <= j <= last)
        }),
{
    let (x, y) = choose|x: int, y: int| #[trigger]
        spans::<K>(t.es, r@, x, y) && k == t.es[x + (y - x) / 2].key;
    (x, x + (y - x) / 2, y)
}

/// Of the children that keys of the range can be in, the key that is removed comes from the one in
/// the middle. Where that has none, it comes from the next one behind it that has some, and where
/// there is no such one, from the first one in front of it.
pub proof fn law_middle_child<K: BtreeKey>(t: Tree, r: BtreeKeyRange<K>, k: Seq<u8>) -> (p: (
    int,
    int,
    int,
    int,
))
    requires
        !t.leaf,
        central::<K>(t, r@, k),
        forall|m: int, n: int|
            0 <= m < n < t.es.len() ==> K::lt(#[trigger] t.es[m].key, #[trigger] t.es[n].key),
        t.kids.len() == t.es.len() + if t.edge {
            1int
        } else {
            0int
        },
    ensures
        ({
            let (first, mid, last, i) = p;
            let none = |j: int|
                forall|n: int|
                    0 <= n < flat(t.kids[j]).len() ==> !r@.has::<K>(
                        (#[trigger] flat(t.kids[j])[n]).key,
                    );
            &&& 0 <= first <= mid <= last < t.kids.len()
            &&& last - mid == mid - first || last - mid == mid - first + 1
            &&& forall|j: int|
                0 <= j < t.kids.len() ==> (first <= j <= last) == ((j == t.es.len() || !K::lt(
                    t.es[j].key,
                    r.start_key.bytes(),
                )) && (j == 0 || K::lt(t.es[j - 1].key, r.end_key.bytes())))
            &&& first <= i <= last
            &&& central::<K>(t.kids[i], r@, k)
            &&& forall|j: int| mid <= j < i ==> #[trigger] none(j)
            &&& i < mid ==> forall|j: int|
                first <= j < i || mid <= j <= last ==> #[trigger] none(j)
        }),
{
    let (i, x, y) = choose|i: int, x: int, y: int|
        {
            &&& 0 <= i < t.kids.len()
            &&& central::<K>(#[trigger] t.kid(i), r@, k)
            &&& #[trigger] is_position::<K>(t.es, r@.start, x)
            &&& #[trigger] is_position::<K>(t.es, r@.end, y)
            &&& reach(t, x, y) matches Some((s, e)) && nearest::<K>(t, r@, s, e, i)
        };
    let (s, e) = reach(t, x, y)->0;
    let mid = s + (e - s) / 2;
    let none = |j: int|
        forall|n: int|
            0 <= n < flat(t.kids[j]).len() ==> !r@.has::<K>((#[trigger] flat(t.kids[j])[n]).key);
    assert forall|j: int| 0 <= j < t.kids.len() && bare::<K>(t.kid(j), r@) implies #[trigger] none(
        j,
    ) by {
        assert(t.kid(j) == t.kids[j]);
    }
    assert forall|j: int| mid <= j < i implies #[trigger] none(j) by {
        assert(bare::<K>(t.kid(j), r@));
    }
    if i < mid {
        assert forall|j: int| s <= j < i || mid <= j <= e implies #[trigger] none(j) by {
            assert(bare::<K>(t.kid(j), r@));
        }
    }
    assert forall|j: int| 0 <= j < t.kids.len() implies (s <= j <= e) == ((j == t.es.len()
        || !K::lt(t.es[j].key, r.start_key.bytes())) && (j == 0 || K::lt(
        t.es[j - 1].key,
        r.end_key.bytes(),
    ))) by {}
    (s, mid, e, i)
}

/// Any entry of a range that is removed was there, with that key in the range, and is the only one
/// that has gone; where none is answered, the range has none.
pub proof fn law_remove_any<K: BtreeKey>(s: Seq<KV>, r: BtreeKeyRange<K>, e: KV, s2: Seq<KV>, x: KV)
    requires
        s.contains(e),
        r@.has::<K>(e.key),
        s2 == s.filter(not(with_key(e.key))),
    ensures
        K::lt(r.start_key.bytes(), e.key) || r.start_incl && e.key == r.start_key.bytes(),
        K::lt(e.key, r.end_key.bytes()) || r.end_incl && e.key == r.end_key.bytes(),
        s2.contains(x) == (s.contains(x) && x.key != e.key),
{
    lemma_filter_contains(s, not(with_key(e.key)), x);
}

/// Where no entry of a range is found, no key lies in it.
pub proof fn law_none_in_range<K: BtreeKey>(s: Seq<KV>, r: BtreeKeyRange<K>, e: KV)
    requires
        none_in::<K>(s, r@),
        s.contains(e),
    ensures
        !((K::lt(r.start_key.bytes(), e.key) || r.start_incl && e.key == r.start_key.bytes()) && (
        K::lt(e.key, r.end_key.bytes()) || r.end_incl && e.key == r.end_key.bytes())),
{
    let i = choose|i: int| 0 <= i < s.len() && s[i] == e;
    assert(!r@.has::<K>(s[i].key));
}

//==============================================================================
// Reads
//==============================================================================

/// A read of a key answers the value of the entry with that key, and nothing where there is none.
pub proof fn law_get<K: BtreeKey, V: BtreeValue>(s: Seq<KV>, k: Seq<u8>, v: Option<V>)
    requires
        forall|m: int, n: int|
            0 <= m < n < s.len() ==> K::lt(#[trigger] s[m].key, #[trigger] s[n].key),
        opt_val(v) == lookup(s, k),
    ensures
        match v {
            Some(v) => s.contains(KV { key: k, val: v.bytes() }),
            None => forall|m: int| 0 <= m < s.len() ==> (#[trigger] s[m]).key != k,
        },
{
    lemma_lookup::<K>(s, k);
    match pick(s, with_key(k)) {
        Some(e) => {
            assert(e == KV { key: k, val: e.val });
        },
        None => {
            assert forall|m: int| 0 <= m < s.len() implies (#[trigger] s[m]).key != k by {
                assert(s.contains(s[m]));
            }
        },
    }
}

/// A search from a key on answers the entry with the least key that is not smaller.
pub proof fn law_seek<K: BtreeKey, V: BtreeValue>(s: Seq<KV>, k: Seq<u8>, r: Option<(K, V)>)
    requires
        forall|m: int, n: int|
            0 <= m < n < s.len() ==> K::lt(#[trigger] s[m].key, #[trigger] s[n].key),
        opt_pair(r) == pick(s, from_key::<K>(k, true)),
    ensures
        match r {
            Some((x, v)) => {
                &&& s.contains(KV { key: x.bytes(), val: v.bytes() })
                &&& !K::lt(x.bytes(), k)
                &&& forall|m: int|
                    0 <= m < s.len() && K::lt((#[trigger] s[m]).key, x.bytes()) ==> K::lt(
                        s[m].key,
                        k,
                    )
            },
            None => forall|m: int| 0 <= m < s.len() ==> K::lt((#[trigger] s[m]).key, k),
        },
{
    let f = from_key::<K>(k, true);
    lemma_pick_known::<K>(s, f);
    K::lemma_irreflexive(k);
    match r {
        Some((x, v)) => {
            let e = KV { key: x.bytes(), val: v.bytes() };
            assert(f(e));
            if K::lt(x.bytes(), k) && K::lt(k, x.bytes()) {
                K::lemma_transitive(k, x.bytes(), k);
            }
            assert forall|m: int|
                0 <= m < s.len() && K::lt((#[trigger] s[m]).key, x.bytes()) implies K::lt(
                s[m].key,
                k,
            ) by {
                assert(s.contains(s[m]));
                K::lemma_total(s[m].key, k);
            }
        },
        None => {
            assert forall|m: int| 0 <= m < s.len() implies K::lt((#[trigger] s[m]).key, k) by {
                assert(s.contains(s[m]));
                K::lemma_total(s[m].key, k);
            }
        },
    }
}

/// The first entry of a range has the least of its keys.
pub proof fn law_first_in_range<K: BtreeKey, V: BtreeValue>(
    s: Seq<KV>,
    r: BtreeKeyRange<K>,
    e: Option<(K, V)>,
    m: int,
)
    requires
        forall|m: int, n: int|
            0 <= m < n < s.len() ==> K::lt(#[trigger] s[m].key, #[trigger] s[n].key),
        opt_pair(e) == pick(s, in_range::<K>(r@)),
        0 <= m < s.len(),
    ensures
        e matches Some((x, v)) ==> {
            &&& s.contains(KV { key: x.bytes(), val: v.bytes() })
            &&& K::lt(r.start_key.bytes(), x.bytes()) || r.start_incl && x.bytes()
                == r.start_key.bytes()
            &&& K::lt(x.bytes(), r.end_key.bytes()) || r.end_incl && x.bytes() == r.end_key.bytes()
        },
        (K::lt(r.start_key.bytes(), s[m].key) || r.start_incl && s[m].key == r.start_key.bytes())
            && (K::lt(s[m].key, r.end_key.bytes()) || r.end_incl && s[m].key == r.end_key.bytes())
            ==> (e matches Some((x, _)) && !K::lt(s[m].key, x.bytes())),
{
    lemma_pick_known::<K>(s, in_range::<K>(r@));
    assert(s.contains(s[m]));
}

//==============================================================================
// Queries
//==============================================================================

/// A query answers the entries whose keys its range has and which its filter, if there is one, lets
/// through: by the key, where the key decides, and else by key and value. It answers each of them
/// once, in increasing order of keys, or in decreasing order where that is asked for.
pub proof fn law_query_of_tree<K: BtreeKey, V: BtreeValue, F: GetFilter<K, V>>(
    s: Seq<KV>,
    req: BtreeQueryRequest<K, F>,
    e: KV,
)
    requires
        forall|m: int, n: int|
            0 <= m < n < s.len() ==> K::lt(#[trigger] s[m].key, #[trigger] s[n].key),
    ensures
        ({
            let r = req.working_range;
            req.scan::<V>(s).contains(e) == {
                &&& s.contains(e)
                &&& K::lt(r.start_key.bytes(), e.key) || r.start_incl && e.key
                    == r.start_key.bytes()
                &&& K::lt(e.key, r.end_key.bytes()) || r.end_incl && e.key == r.end_key.bytes()
                &&& req.filter matches Some(f) ==> if (*f).spec_always_needs_value() || (
                *f).spec_check_key(e.key) == GetFilterDecision::NeedValue {
                    (*f).spec_check_kv(e.key, e.val) != GetFilterDecision::Skip
                } else {
                    (*f).spec_check_key(e.key) == GetFilterDecision::Include
                }
            }
        }),
        forall|m: int, n: int|
            0 <= m < n < req.scan::<V>(s).len() ==> if req.reverse_order {
                K::lt((#[trigger] req.scan::<V>(s)[n]).key, (#[trigger] req.scan::<V>(s)[m]).key)
            } else {
                K::lt(req.scan::<V>(s)[m].key, req.scan::<V>(s)[n].key)
            },
{
    let f = req.wanted::<V>();
    let t = s.filter(f);
    lemma_filter_contains(s, f, e);
    lemma_filter_ordered::<K>(s, f);
    lemma_reversed(t, e);
}

/// A sequence has the same members in the opposite order.
proof fn lemma_reversed(t: Seq<KV>, e: KV)
    ensures
        t.reverse().contains(e) == t.contains(e),
{
    let r = t.reverse();
    if t.contains(e) {
        let i = choose|i: int| 0 <= i < t.len() && t[i] == e;
        assert(r[t.len() - 1 - i] == e);
    }
    if r.contains(e) {
        let i = choose|i: int| 0 <= i < r.len() && r[i] == e;
        assert(t[t.len() - 1 - i] == e);
    }
}

/// The filter that lets everything through returns, removes and replaces every entry.
pub proof fn law_accept_all<K: BtreeKey, V: BtreeValue>(f: AcceptAll, e: KV, new: Seq<u8>)
    ensures
        includes::<K, V, AcceptAll>(Some(&f), e),
        removes::<K, V, AcceptAll>(Some(&f), e),
        replaces::<K, V, AcceptAll>(Some(&f), e, new),
{
}

/// Where a query stands when it leaves a leaf. The leaf reaches the end of the range if the bound
/// that the query goes towards is not beyond its last key in that direction. The leaf is open if
/// some key of it in the range comes after as many results as are wanted.
pub proof fn law_end_of_leaf<K: BtreeKey, V: BtreeValue, F: GetFilter<K, V>>(
    req: BtreeQueryRequest<K, F>,
    es: Seq<Entry>,
    s: Seq<KV>,
    wanted: int,
)
    requires
        es.len() > 0,
    ensures
        ({
            let r = req.working_range;
            let last = if req.reverse_order {
                es.first().key
            } else {
                es.last().key
            };
            let inside = |k: Seq<u8>|
                {
                    &&& K::lt(r.start_key.bytes(), k) || r.start_incl && k == r.start_key.bytes()
                    &&& K::lt(k, r.end_key.bytes()) || r.end_incl && k == r.end_key.bytes()
                };
            let left = |j: int|
                {
                    &&& 0 <= j < s.len()
                    &&& inside(s[j].key)
                    &&& wanted <= req.scan::<V>(
                        if req.reverse_order {
                            s.skip(j + 1)
                        } else {
                            s.take(j)
                        },
                    ).len()
                };
            &&& reaches_end::<K>(r@, req.reverse_order, es) == if req.reverse_order {
                K::lt(last, r.start_key.bytes()) || last == r.start_key.bytes()
            } else {
                K::lt(r.end_key.bytes(), last) || last == r.end_key.bytes()
            }
            &&& takes_last::<K>(r@, req.reverse_order, es) == inside(last)
            &&& forall|j: int| #[trigger] left(j) ==> unexamined::<K, V, F>(req, s, wanted)
            &&& unexamined::<K, V, F>(req, s, wanted) ==> exists|j: int| #[trigger] left(j)
        }),
{
    let r = req.working_range;
    let last = if req.reverse_order {
        es.first().key
    } else {
        es.last().key
    };
    let inside = |k: Seq<u8>|
        {
            &&& K::lt(r.start_key.bytes(), k) || r.start_incl && k == r.start_key.bytes()
            &&& K::lt(k, r.end_key.bytes()) || r.end_incl && k == r.end_key.bytes()
        };
    let left = |j: int|
        {
            &&& 0 <= j < s.len()
            &&& inside(s[j].key)
            &&& wanted <= req.scan::<V>(
                if req.reverse_order {
                    s.skip(j + 1)
                } else {
                    s.take(j)
                },
            ).len()
        };
    K::lemma_total(last, r.start_key.bytes());
    K::lemma_total(last, r.end_key.bytes());
    K::lemma_irreflexive(last);
    if K::lt(last, r.start_key.bytes()) && K::lt(r.start_key.bytes(), last) {
        K::lemma_transitive(last, r.start_key.bytes(), last);
    }
    if K::lt(last, r.end_key.bytes()) && K::lt(r.end_key.bytes(), last) {
        K::lemma_transitive(last, r.end_key.bytes(), last);
    }
    assert forall|j: int| #[trigger] left(j) implies unexamined::<K, V, F>(req, s, wanted) by {
        assert(scan_before::<K, V, F>(req, s, j).len() >= wanted);
    }
    if unexamined::<K, V, F>(req, s, wanted) {
        let j = choose|j: int|
            0 <= j < s.len() && r@.has::<K>(s[j].key) && #[trigger] scan_before::<K, V, F>(
                req,
                s,
                j,
            ).len() >= wanted;
        assert(left(j));
    }
}

/// A query that follows the leaves says that more may follow where its batch is filled before the
/// end of the range: in a leaf whose last key is smaller than the upper bound, or with some key of
/// the leaf in the range that comes after as many results as the batch takes.
pub proof fn law_more_after_sweep<K: BtreeKey, V: BtreeValue, S: UnderlyingBtree, F>(
    tree: Btree<K, V, S>,
    req: BtreeQueryRequest<K, F>,
    j: int,
) where F: GetFilter<K, V>
    requires
        !req.reverse_order,
        0 <= j < leaves(tree.tree@).len(),
        req.scan::<V>(kvs(tree.storage.store().ov, flat_all(leaves(tree.tree@).take(j)))).len()
            < req.batch_size,
        req.scan::<V>(kvs(tree.storage.store().ov, flat_all(leaves(tree.tree@).take(j + 1)))).len()
            >= req.batch_size,
    ensures
        ({
            let r = req.working_range;
            let ov = tree.storage.store().ov;
            let es = leaves(tree.tree@)[j].es;
            let front = req.scan::<V>(kvs(ov, flat_all(leaves(tree.tree@).take(j)))).len();
            let left = |m: int|
                {
                    &&& 0 <= m < es.len()
                    &&& K::lt(r.start_key.bytes(), es[m].key) || r.start_incl && es[m].key
                        == r.start_key.bytes()
                    &&& K::lt(es[m].key, r.end_key.bytes()) || r.end_incl && es[m].key
                        == r.end_key.bytes()
                    &&& front + req.scan::<V>(kvs(ov, es).take(m)).len() >= req.batch_size
                };
            &&& K::lt(es.last().key, r.end_key.bytes()) ==> tree.says_more(req)
            &&& forall|m: int| #[trigger] left(m) ==> tree.says_more(req)
            &&& tree.says_more(req) ==> K::lt(es.last().key, r.end_key.bytes()) || exists|m: int| #[trigger]
                left(m)
        }),
{
    let r = req.working_range;
    let ov = tree.storage.store().ov;
    let es = leaves(tree.tree@)[j].es;
    let s = kvs(ov, es);
    let front = req.scan::<V>(kvs(ov, flat_all(leaves(tree.tree@).take(j)))).len();
    let left = |m: int|
        {
            &&& 0 <= m < es.len()
            &&& K::lt(r.start_key.bytes(), es[m].key) || r.start_incl && es[m].key
                == r.start_key.bytes()
            &&& K::lt(es[m].key, r.end_key.bytes()) || r.end_incl && es[m].key == r.end_key.bytes()
            &&& front + req.scan::<V>(s.take(m)).len() >= req.batch_size
        };
    assert forall|m: int| #[trigger] left(m) implies tree.says_more(req) by {
        assert(s[m].key == es[m].key);
        assert(scan_before::<K, V, F>(req, s, m).len() >= req.batch_size - front);
        assert(tree.filled_in(req, j));
    }
    if K::lt(es.last().key, r.end_key.bytes()) {
        assert(tree.filled_in(req, j));
    }
    if tree.says_more(req) {
        let i = choose|i: int| #[trigger] tree.filled_in(req, i);
        if i < j {
            tree.lemma_more_leaves(req, i + 1, j);
        } else if j < i {
            tree.lemma_more_leaves(req, j + 1, i);
        }
        if !K::lt(es.last().key, r.end_key.bytes()) {
            let m = choose|m: int|
                0 <= m < s.len() && req.working_range@.has::<K>(s[m].key) && #[trigger] scan_before::<
                    K,
                    V,
                    F,
                >(req, s, m).len() >= req.batch_size - front;
            assert(s[m].key == es[m].key);
            assert(left(m));
        }
    }
}

/// A query that follows the leaves and finds fewer results than its batch takes says that none
/// follow.
pub proof fn law_no_more_after_sweep<K: BtreeKey, V: BtreeValue, S: UnderlyingBtree, F>(
    tree: Btree<K, V, S>,
    req: BtreeQueryRequest<K, F>,
) where F: GetFilter<K, V>
    requires
        tree.wf(),
        !req.reverse_order,
        req.scan::<V>(tree@).len() < req.batch_size,
    ensures
        !tree.says_more(req),
{
    let ls = leaves(tree.tree@);
    lemma_leaves_flat(tree.tree@);
    assert(ls.take(ls.len() as int) =~= ls);
    assert forall|i: int| !#[trigger] tree.filled_in(req, i) by {
        if 0 <= i < ls.len() {
            tree.lemma_more_leaves(req, i + 1, ls.len() as int);
        }
    }
}

/// A batch of a query on a tree has the first results of what is asked for, as many as the batch
/// takes or all there are. Where no more are announced, there are none.
pub proof fn law_batch_of_tree<K: BtreeKey, V: BtreeValue, F: GetFilter<K, V>>(
    s: Seq<KV>,
    req: BtreeQueryRequest<K, F>,
    h: QueryResultHandle<K, V, F>,
    i: int,
)
    requires
        h.answers(req, s),
        req.batch_size > 0,
        0 <= i < req.scan::<V>(s).len(),
    ensures
        h.results@.len() <= req.batch_size,
        h.results@.len() == req.batch_size || !h.more && h.results@.len() == req.scan::<V>(s).len(),
        i < h.results@.len() ==> h.results@[i].0.bytes() == req.scan::<V>(s)[i].key
            && h.results@[i].1.bytes() == req.scan::<V>(s)[i].val,
        i >= h.results@.len() ==> h.more && h.request.scan::<V>(s)[i - h.results@.len()]
            == req.scan::<V>(s)[i],
{
    let a = pairs(h.results@);
    assert(a.len() == h.results@.len());
    assert(req.scan::<V>(s) == a + h.rest(s));
    if i < a.len() {
        assert(req.scan::<V>(s)[i] == a[i]);
    } else {
        assert(req.scan::<V>(s)[i] == h.rest(s)[i - a.len()]);
    }
}

/// What a query of an index finds: the entries whose keys its range has and which its filter, if
/// there is one, lets through, each of them once, in increasing or in decreasing order of keys.
pub proof fn law_query_of_index<F: GetFilter<DbKey, DbValue>>(
    s: Seq<KV>,
    r: BtreeKeyRange<DbKey>,
    filter: Option<&F>,
    reverse: bool,
    e: KV,
)
    requires
        forall|m: int, n: int|
            0 <= m < n < s.len() ==> lex_lt(#[trigger] s[m].key, #[trigger] s[n].key),
    ensures
        found::<F>(s, r@, filter, reverse).contains(e) == {
            &&& s.contains(e)
            &&& lex_lt(r.start_key@, e.key) || r.start_incl && e.key == r.start_key@
            &&& lex_lt(e.key, r.end_key@) || r.end_incl && e.key == r.end_key@
            &&& filter matches Some(f) ==> if f.spec_always_needs_value() || f.spec_check_key(
                e.key,
            ) == GetFilterDecision::NeedValue {
                f.spec_check_kv(e.key, e.val) != GetFilterDecision::Skip
            } else {
                f.spec_check_key(e.key) == GetFilterDecision::Include
            }
        },
        forall|m: int, n: int|
            0 <= m < n < found::<F>(s, r@, filter, reverse).len() ==> if reverse {
                lex_lt(
                    (#[trigger] found::<F>(s, r@, filter, reverse)[n]).key,
                    (#[trigger] found::<F>(s, r@, filter, reverse)[m]).key,
                )
            } else {
                lex_lt(
                    found::<F>(s, r@, filter, reverse)[m].key,
                    found::<F>(s, r@, filter, reverse)[n].key,
                )
            },
{
    let f = sought::<F>(r@, filter);
    let t = s.filter(f);
    assert(ordered::<DbKey>(s));
    lemma_filter_contains(s, f, e);
    lemma_filter_ordered::<DbKey>(s, f);
    lemma_reversed(t, e);
}

/// A batch of a query on an index has the first of what is left to be found, in order, and what
/// follows is left for the next batch. Where no more are announced, the batch has all of it.
pub proof fn law_batch_of_index<F: GetFilter<DbKey, DbValue>, I: IndexQueries<F>>(
    index: &I,
    h: AnyQueryHandle<F>,
    all: Seq<KV>,
    i: int,
)
    requires
        all == pairs(h.spec_results()) + index.left(&h),
        !h.spec_has_more() ==> index.left(&h) == Seq::<KV>::empty(),
        0 <= i < all.len(),
    ensures
        i < h.spec_results().len() ==> h.spec_results()[i].0@ == all[i].key
            && h.spec_results()[i].1@ == all[i].val,
        i >= h.spec_results().len() ==> h.spec_has_more() && index.left(&h)[i
            - h.spec_results().len()] == all[i],
        !h.spec_has_more() ==> all.len() == h.spec_results().len(),
{
    let a = pairs(h.spec_results());
    assert(a.len() == h.spec_results().len());
    if i < a.len() {
        assert(all[i] == a[i]);
    } else {
        assert(all[i] == index.left(&h)[i - a.len()]);
    }
}

/// A query on a sharded index announces more exactly while there are partitions that it is not done
/// with, one that it has begun included.
pub proof fn law_more_of_shards<F: GetFilter<DbKey, DbValue>, S: UnderlyingBtree>(
    index: &ShardedBtree<S>,
    h: ShardedQueryHandle<F>,
)
    requires
        IndexQueries::<F>::fits(index, &AnyQueryHandle::Sharded(h)),
    ensures
        AnyQueryHandle::Sharded(h).spec_has_more() == (h.cur_part_idx < h.partitions@.len()),
        AnyQueryHandle::Sharded(h).spec_results() == h.results@,
{
}

/// A query on an index of one tree announces more exactly if the tree does.
pub proof fn law_more_of_tree<F>(h: SingleQueryHandle<F>)
    ensures
        AnyQueryHandle::Single(h).spec_has_more() == h.0.more,
        AnyQueryHandle::Single(h).spec_results() == h.0.results@,
{
}

//==============================================================================
// Iterators
//==============================================================================

/// An iterator over a range of an index has the entries from the start key on, itself included, to
/// before the end key, in increasing order of keys, or in decreasing order if it is reversed.
pub proof fn law_iterator_over_range(
    s: Seq<KV>,
    start: Seq<u8>,
    end: Seq<u8>,
    reverse: bool,
    rest: Seq<KV>,
    e: KV,
)
    requires
        forall|m: int, n: int|
            0 <= m < n < s.len() ==> lex_lt(#[trigger] s[m].key, #[trigger] s[n].key),
        rest == found::<AcceptAll>(s, half_open(start, end), None, reverse),
    ensures
        rest.contains(e) == (s.contains(e) && !lex_lt(e.key, start) && lex_lt(e.key, end)),
        forall|m: int, n: int|
            0 <= m < n < rest.len() ==> if reverse {
                lex_lt((#[trigger] rest[n]).key, (#[trigger] rest[m]).key)
            } else {
                lex_lt(rest[m].key, rest[n].key)
            },
{
    let f = sought::<AcceptAll>(half_open(start, end), None);
    assert(ordered::<DbKey>(s));
    lemma_filter_contains(s, f, e);
    lemma_filter_ordered::<DbKey>(s, f);
    lemma_reversed(s.filter(f), e);
    lemma_not_before(start, e.key);
}

/// A key lies behind another one or is the same exactly if it does not lie before it.
proof fn lemma_not_before(a: Seq<u8>, b: Seq<u8>)
    ensures
        (lex_lt(a, b) || a == b) == !lex_lt(b, a),
{
    lemma_lex_total(a, b);
    lemma_lex_irreflexive(a);
    if lex_lt(a, b) && lex_lt(b, a) {
        lemma_lex_transitive(a, b, a);
    }
}

/// After a search for a key, a reversed iterator has the entries from that key, itself included,
/// down to the start key of its range, which is included too; one that is not reversed has those
/// from the key on to before the end key. They come in the order of the iterator, and the answer is
/// whether there are any.
pub proof fn law_seek_in_iterator<'a, I: IndexQueries<AcceptAll>>(
    o: &RangeIterator<'a, I>,
    it: &RangeIterator<'a, I>,
    key: Seq<u8>,
    b: bool,
    e: KV,
)
    requires
        o.index.wf(),
        o.batch_size > 0,
        b == (it.rest().len() > 0),
        it.rest() == found::<AcceptAll>(
            o.index.contents(),
            o.seek_range(key),
            None,
            o.reverse,
        ),
    ensures
        o.reverse ==> it.rest().contains(e) == (o.index.contents().contains(e) && !lex_lt(
            e.key,
            o.start_key@,
        ) && !lex_lt(key, e.key)),
        !o.reverse ==> it.rest().contains(e) == (o.index.contents().contains(e) && !lex_lt(
            e.key,
            key,
        ) && lex_lt(e.key, o.end_key@)),
        forall|m: int, n: int|
            0 <= m < n < it.rest().len() ==> if o.reverse {
                lex_lt((#[trigger] it.rest()[n]).key, (#[trigger] it.rest()[m]).key)
            } else {
                lex_lt(it.rest()[m].key, it.rest()[n].key)
            },
        it.rest().contains(e) ==> b,
        b ==> it.rest().contains(it.rest()[0]),
{
    let s = o.index.contents();
    let f = sought::<AcceptAll>(o.seek_range(key), None);
    o.index.lemma_contents_ordered();
    lemma_filter_contains(s, f, e);
    lemma_filter_ordered::<DbKey>(s, f);
    lemma_reversed(s.filter(f), e);
    lemma_not_before(o.start_key@, e.key);
    lemma_not_before(e.key, key);
    lemma_not_before(key, e.key);
}

/// What an iterator has to return is what is left of its batch and what its index has left.
pub proof fn law_rest_of_iterator<'a, I: IndexQueries<AcceptAll>>(
    it: &RangeIterator<'a, I>,
    i: int,
)
    requires
        it.wf(),
        0 <= i < it.rest().len(),
    ensures
        ({
            let n = it.current_batch@.len() - it.cursor;
            if i < n {
                it.rest()[i].key == it.current_batch@[it.cursor + i].0@ && it.rest()[i].val
                    == it.current_batch@[it.cursor + i].1@
            } else {
                it.handle matches Some(h) && it.rest()[i] == it.index.left(&h)[i - n]
            }
        }),
{
    let u = pairs(it.current_batch@).skip(it.cursor as int);
    if i < u.len() {
        assert(it.rest()[i] == u[i]);
    } else {
        assert(it.handle is Some);
        assert(it.rest()[i] == it.index.left(&it.handle->0)[i - u.len()]);
    }
}

/// Entries come out of an iterator as the bytes of their keys and values.
pub proof fn law_bytes_of_entries(v: Seq<(Vec<u8>, Vec<u8>)>, rest: Seq<KV>, i: int)
    requires
        byte_pairs(v) == rest,
        0 <= i < v.len(),
    ensures
        v.len() == rest.len(),
        v[i].0@ == rest[i].key,
        v[i].1@ == rest[i].val,
{
    assert(byte_pairs(v)[i] == rest[i]);
}

/// One entry comes out as the bytes of its key and of its value.
pub proof fn law_bytes_of_entry(e: Option<(Vec<u8>, Vec<u8>)>, x: Option<KV>)
    requires
        byte_pair(e) == x,
    ensures
        e is Some == x is Some,
        e matches Some(e) ==> e.0@ == x->0.key && e.1@ == x->0.val,
{
}

//==============================================================================
// Indices and tables
//==============================================================================

/// An index in one tree has the entries of the tree.
pub proof fn law_contents_of_tree<S: UnderlyingBtree>(i: &UnshardedBtree<S>)
    ensures
        i.contents() == i.btree@,
        AnyIndex::<S>::Unsharded(*i).contents() == i.btree@,
{
}

/// A sharded index has an entry exactly if one of its trees has it, and that is the tree of the
/// entry's partition.
pub proof fn law_contents_of_shards<S: UnderlyingBtree>(b: &ShardedBtree<S>, e: KV)
    requires
        b.wf(),
    ensures
        b.contents().contains(e) ==> exists|i: int|
            0 <= i < b.shards@.len() && (#[trigger] b.shards@[i])@.contains(e),
        forall|i: int|
            0 <= i < b.shards@.len() && (#[trigger] b.shards@[i])@.contains(e)
                ==> b.contents().contains(e),
        forall|i: int, j: int|
            0 <= i < b.shards@.len() && 0 <= j < b.shards@.len() && (
            #[trigger] b.shards@[i])@.contains(e) && (#[trigger] b.shards@[j])@.contains(e) ==> i
                == j,
        AnyIndex::<S>::Sharded(*b).contents() == b.contents(),
{
    let n = b.shards@.len();
    let p = b.p();
    assert forall|i: int| 0 <= i < n implies (#[trigger] b.shards@[i])@.contains(e) == (
    b.contents().contains(e) && shard_of(n, part_of(p, e.key)) == i) by {
        assert(b.views()[i] == b.shards@[i]@);
        lemma_filter_contains(b.all@, in_shard(p, n, i), e);
    }
    if b.contents().contains(e) {
        lemma_shard_bound(n, part_of(p, e.key));
        let i = shard_of(n, part_of(p, e.key));
        assert(b.shards@[i]@.contains(e));
    }
}

/// The partition of a key is the key itself where partitions have no length, and else its first
/// bytes, as many as partitions are long or as the key has.
pub proof fn law_partition_of_key(p: nat, k: Seq<u8>)
    ensures
        p == 0 ==> part_of(p, k) == k,
        p > 0 && k.len() <= p ==> part_of(p, k) == k,
        p > 0 && k.len() > p ==> part_of(p, k).len() == p && forall|i: int|
            0 <= i < p ==> #[trigger] part_of(p, k)[i] == k[i],
{
}

/// The shard of a partition comes from a hash of the number of its bytes and the bytes.
pub proof fn law_shard_of_partition(n: nat, pk: Seq<u8>)
    requires
        n > 0,
    ensures
        shard_of(n, pk) == (DefaultHasher::spec_finish(
            seq![vstd::bytes::spec_u64_to_le_bytes(pk.len() as u64), pk],
        ) as usize) as int % n as int,
        0 <= shard_of(n, pk) < n,
{
    lemma_shard_bound(n, pk);
}

/// The partition that follows another one has the last byte that is not the largest one increased,
/// and those behind it are zero.
pub proof fn law_next_partition(a: Seq<u8>, b: Seq<u8>) -> (i: int)
    requires
        follows(a, b),
    ensures
        0 <= i < a.len(),
        b.len() == a.len(),
        a[i] < 255,
        b[i] == a[i] + 1,
        forall|j: int| 0 <= j < i ==> #[trigger] b[j] == a[j],
        forall|j: int| i < j < a.len() ==> #[trigger] a[j] == 255 && b[j] == 0,
{
    let n = a.len() as int;
    if forall|j: int| 0 <= j < n ==> #[trigger] a[j] == 255 {
        lemma_all_largest(a, b);
    }
    let i = lemma_last_not_largest(a, n);
    let q = Seq::new(
        a.len(),
        |j: int|
            if j < i {
                a[j]
            } else if j == i {
                (a[j] + 1) as u8
            } else {
                0u8
            },
    );
    lemma_follows(a, q, i);
    lemma_lex_total(b, q);
    assert(lex_lt(a, q) && lex_lt(a, b));
    assert(b == q);
    i
}

/// The last byte of the first `n` that is not the largest one.
proof fn lemma_last_not_largest(a: Seq<u8>, n: int) -> (i: int)
    requires
        0 <= n <= a.len(),
        !(forall|j: int| 0 <= j < n ==> #[trigger] a[j] == 255),
    ensures
        0 <= i < n,
        a[i] < 255,
        forall|j: int| i < j < n ==> #[trigger] a[j] == 255,
    decreases n,
{
    if a[n - 1] < 255 {
        n - 1
    } else {
        lemma_last_not_largest(a, n - 1)
    }
}

} // verus!
