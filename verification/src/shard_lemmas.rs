//! Entries that are spread over several trees.

use vstd::prelude::*;
use crate::btree_index::in_order;
use crate::btree_kvs::BtreeKey;
use crate::btree_req::{PutFilter, RangeView};
use crate::contents::{
    lemma_filter_all, lemma_filter_contains, lemma_filter_filter, lemma_filter_none,
    lemma_filter_ordered, lemma_filter_push, lookup, not, ordered, pick, with_key,
};
use crate::db_kv::{lemma_lex_irreflexive, lemma_lex_transitive, lex_lt, DbKey, DbValue};
use crate::ordered_lemmas::{
    lemma_filter_split, lemma_key_once, lemma_lookup, lemma_lookup_same, lemma_lookup_some,
    lemma_same_members, lemma_updated,
};
use crate::partition::{is_part, lemma_part_order, lemma_parts_behind, part_of, shard_of};
use crate::put::{over, put_over, put_over_all, range_partly, under, updated};
use crate::registry::increasing;
use crate::remove::partly_removed;
use crate::tree_model::KV;

verus! {

/// The entry lies in shard `i` of `n`.
pub open spec fn in_shard(p: nat, n: nat, i: int) -> spec_fn(KV) -> bool {
    |e: KV| shard_of(n, part_of(p, e.key)) == i
}

/// The entry lies in the partition.
pub open spec fn in_part(p: nat, pk: Seq<u8>) -> spec_fn(KV) -> bool {
    |e: KV| part_of(p, e.key) == pk
}

/// Each shard has the entries of its partitions.
pub open spec fn spread(p: nat, all: Seq<KV>, views: Seq<Seq<KV>>) -> bool {
    forall|i: int|
        0 <= i < views.len() ==> #[trigger] views[i] == all.filter(in_shard(p, views.len(), i))
}

/// Entries with either of two properties that exclude one another.
pub proof fn lemma_filter_len(
    s: Seq<KV>,
    f: spec_fn(KV) -> bool,
    g: spec_fn(KV) -> bool,
    h: spec_fn(KV) -> bool,
)
    requires
        forall|e: KV| #[trigger] h(e) == (f(e) || g(e)),
        forall|e: KV| !(#[trigger] f(e) && g(e)),
    ensures
        s.filter(h).len() == s.filter(f).len() + s.filter(g).len(),
    decreases s.len(),
{
    if s.len() == 0 {
        lemma_filter_none(s, f);
        lemma_filter_none(s, g);
        lemma_filter_none(s, h);
    } else {
        let d = s.drop_last();
        let e = s.last();
        assert(s =~= d.push(e));
        lemma_filter_len(d, f, g, h);
        lemma_filter_push(d, e, f);
        lemma_filter_push(d, e, g);
        lemma_filter_push(d, e, h);
        assert(h(e) == (f(e) || g(e)));
        assert(!(f(e) && g(e)));
    }
}

/// An update adds an entry unless there is one with the key.
pub proof fn lemma_updated_len(s: Seq<KV>, e: KV)
    requires
        ordered::<DbKey>(s),
    ensures
        updated::<DbKey>(s, e).len() == s.len() + if pick(s, with_key(e.key)) is None {
            1int
        } else {
            0
        },
{
    let f = under::<DbKey>(e.key);
    let g = over::<DbKey>(e.key);
    let w = with_key(e.key);
    let fg = |x: KV| f(x) || g(x);
    let all = |x: KV| true;
    assert forall|x: KV| !(#[trigger] f(x) && g(x)) by {
        if f(x) && g(x) {
            DbKey::lemma_transitive(x.key, e.key, x.key);
            DbKey::lemma_irreflexive(x.key);
        }
    }
    lemma_filter_len(s, f, g, fg);
    assert forall|x: KV| #[trigger] all(x) == (fg(x) || w(x)) by {
        DbKey::lemma_total(x.key, e.key);
    }
    assert forall|x: KV| !(#[trigger] fg(x) && w(x)) by {
        DbKey::lemma_irreflexive(e.key);
    }
    lemma_filter_len(s, fg, w, all);
    lemma_filter_all(s, all);
    lemma_one_with_key(s, e.key);
}

/// An update and a choice by keys.
pub proof fn lemma_updated_filter(s: Seq<KV>, e: KV, f: spec_fn(KV) -> bool)
    requires
        ordered::<DbKey>(s),
        forall|x: KV| #[trigger] s.contains(x) && x.key == e.key ==> f(x) == f(e),
    ensures
        updated::<DbKey>(s, e).filter(f) == if f(e) {
            updated::<DbKey>(s.filter(f), e)
        } else {
            s.filter(f)
        },
{
    let u = updated::<DbKey>(s, e);
    let sf = s.filter(f);
    lemma_updated::<DbKey>(s, e);
    lemma_filter_ordered::<DbKey>(s, f);
    lemma_filter_ordered::<DbKey>(u, f);
    lemma_updated::<DbKey>(sf, e);
    let r = if f(e) {
        updated::<DbKey>(sf, e)
    } else {
        sf
    };
    assert forall|x: KV| #[trigger] u.filter(f).contains(x) == r.contains(x) by {
        lemma_filter_contains(u, f, x);
        lemma_filter_contains(s, f, x);
        assert(u.contains(x) == (x == e || s.contains(x) && x.key != e.key));
        assert(updated::<DbKey>(sf, e).contains(x) == (x == e || sf.contains(x) && x.key != e.key));
        if s.contains(x) && x.key == e.key {
            assert(f(x) == f(e));
        }
    }
    lemma_same_members::<DbKey>(u.filter(f), r);
}

/// What is found under a key is found in its shard.
pub proof fn lemma_shard_pick(p: nat, all: Seq<KV>, views: Seq<Seq<KV>>, i: int, k: Seq<u8>)
    requires
        ordered::<DbKey>(all),
        spread(p, all, views),
        0 <= i < views.len(),
        i == shard_of(views.len(), part_of(p, k)),
    ensures
        ordered::<DbKey>(views[i]),
        pick(views[i], with_key(k)) == pick(all, with_key(k)),
        lookup(views[i], k) == lookup(all, k),
{
    let f = in_shard(p, views.len(), i);
    lemma_filter_ordered::<DbKey>(all, f);
    assert(views[i] == all.filter(f));
    assert forall|e: KV| e.key == k implies #[trigger] views[i].contains(e) == all.contains(e) by {
        lemma_filter_contains(all, f, e);
    }
    lemma_lookup_same::<DbKey>(views[i], all, k);
}

/// A put into the shard of its key.
pub proof fn lemma_put_spread(p: nat, all: Seq<KV>, views: Seq<Seq<KV>>, i: int, e: KV)
    requires
        ordered::<DbKey>(all),
        spread(p, all, views),
        0 <= i < views.len(),
        i == shard_of(views.len(), part_of(p, e.key)),
    ensures
        ordered::<DbKey>(updated::<DbKey>(all, e)),
        spread(
            p,
            updated::<DbKey>(all, e),
            views.update(i, updated::<DbKey>(views[i], e)),
        ),
{
    let n = views.len();
    let v2 = views.update(i, updated::<DbKey>(views[i], e));
    lemma_updated::<DbKey>(all, e);
    assert forall|j: int| 0 <= j < v2.len() implies #[trigger] v2[j] == updated::<DbKey>(
        all,
        e,
    ).filter(in_shard(p, v2.len(), j)) by {
        lemma_updated_filter(all, e, in_shard(p, n, j));
        assert(views[j] == all.filter(in_shard(p, n, j)));
    }
}

/// The entries that are left when only those of `v2` are left of a shard.
pub open spec fn cut(p: nat, n: nat, all: Seq<KV>, i: int, v2: Seq<KV>) -> Seq<KV> {
    all.filter(|e: KV| in_shard(p, n, i)(e) ==> v2.contains(e))
}

/// Entries leave a shard.
pub proof fn lemma_cut_spread(p: nat, all: Seq<KV>, views: Seq<Seq<KV>>, i: int, v2: Seq<KV>)
    requires
        ordered::<DbKey>(all),
        spread(p, all, views),
        0 <= i < views.len(),
        ordered::<DbKey>(v2),
        forall|e: KV| #[trigger] v2.contains(e) ==> views[i].contains(e),
    ensures
        ordered::<DbKey>(cut(p, views.len(), all, i, v2)),
        spread(p, cut(p, views.len(), all, i, v2), views.update(i, v2)),
        forall|e: KV| #[trigger]
            cut(p, views.len(), all, i, v2).contains(e) == (all.contains(e) && (in_shard(
                p,
                views.len(),
                i,
            )(e) ==> v2.contains(e))),
{
    let n = views.len();
    let keep = |e: KV| in_shard(p, n, i)(e) ==> v2.contains(e);
    let c = cut(p, n, all, i, v2);
    assert(c == all.filter(keep));
    lemma_filter_ordered::<DbKey>(all, keep);
    assert forall|e: KV| #[trigger] c.contains(e) == (all.contains(e) && (in_shard(p, n, i)(e)
        ==> v2.contains(e))) by {
        lemma_filter_contains(all, keep, e);
    }
    let w = views.update(i, v2);
    assert forall|j: int| 0 <= j < w.len() implies #[trigger] w[j] == c.filter(
        in_shard(p, w.len(), j),
    ) by {
        let f = in_shard(p, n, j);
        assert(views[j] == all.filter(f));
        lemma_filter_ordered::<DbKey>(c, f);
        lemma_filter_ordered::<DbKey>(all, f);
        assert forall|e: KV| #[trigger] w[j].contains(e) == c.filter(f).contains(e) by {
            lemma_filter_contains(c, f, e);
            lemma_filter_contains(all, f, e);
            assert(c.contains(e) == (all.contains(e) && (in_shard(p, n, i)(e) ==> v2.contains(e))));
            if v2.contains(e) {
                assert(views[i].contains(e));
                assert(views[i] == all.filter(in_shard(p, n, i)));
                lemma_filter_contains(all, in_shard(p, n, i), e);
            }
        }
        lemma_same_members::<DbKey>(w[j], c.filter(f));
    }
}

/// The entries with the values that those of shard `i` have in `v2`.
pub open spec fn revalued(p: nat, n: nat, all: Seq<KV>, i: int, v2: Seq<KV>) -> Seq<KV> {
    Seq::new(
        all.len(),
        |m: int|
            if in_shard(p, n, i)(all[m]) && lookup(v2, all[m].key) is Some {
                KV { key: all[m].key, val: lookup(v2, all[m].key)->0 }
            } else {
                all[m]
            },
    )
}

/// The same keys, in the same places.
pub open spec fn same_keys(a: Seq<KV>, b: Seq<KV>) -> bool {
    &&& a.len() == b.len()
    &&& forall|m: int| 0 <= m < a.len() ==> (#[trigger] a[m]).key == b[m].key
}

pub proof fn lemma_same_keys_ordered(a: Seq<KV>, b: Seq<KV>)
    requires
        ordered::<DbKey>(a),
        same_keys(a, b),
    ensures
        ordered::<DbKey>(b),
{
    assert forall|i: int, j: int| 0 <= i < j < b.len() implies DbKey::lt(
        #[trigger] b[i].key,
        #[trigger] b[j].key,
    ) by {
        assert(a[i].key == b[i].key && a[j].key == b[j].key);
    }
}

/// `x` and `y` stand in the same place.
pub open spec fn twins(a: Seq<KV>, b: Seq<KV>, x: KV, y: KV) -> bool {
    exists|j: int| 0 <= j < a.len() && j < b.len() && #[trigger] a[j] == x && b[j] == y
}

/// Values change in a shard.
pub proof fn lemma_revalued_spread(p: nat, all: Seq<KV>, views: Seq<Seq<KV>>, i: int, v2: Seq<KV>)
    requires
        ordered::<DbKey>(all),
        spread(p, all, views),
        0 <= i < views.len(),
        same_keys(views[i], v2),
    ensures
        ordered::<DbKey>(revalued(p, views.len(), all, i, v2)),
        same_keys(all, revalued(p, views.len(), all, i, v2)),
        spread(p, revalued(p, views.len(), all, i, v2), views.update(i, v2)),
        forall|m: int|
            0 <= m < all.len() ==> if in_shard(p, views.len(), i)(all[m]) {
                twins(views[i], v2, all[m], #[trigger] revalued(p, views.len(), all, i, v2)[m])
            } else {
                revalued(p, views.len(), all, i, v2)[m] == all[m]
            },
{
    let n = views.len();
    let c = revalued(p, n, all, i, v2);
    let fi = in_shard(p, n, i);
    assert(views[i] == all.filter(fi));
    lemma_filter_ordered::<DbKey>(all, fi);
    lemma_same_keys_ordered(views[i], v2);
    lemma_same_keys_ordered(all, c);
    assert forall|m: int| 0 <= m < all.len() && fi(all[m]) implies twins(
        views[i],
        v2,
        all[m],
        #[trigger] c[m],
    ) by {
        assert(all.contains(all[m]));
        lemma_filter_contains(all, fi, all[m]);
        let j = choose|j: int| 0 <= j < views[i].len() && views[i][j] == all[m];
        assert(views[i][j].key == v2[j].key);
        assert(v2.contains(v2[j]));
        lemma_lookup_some::<DbKey>(v2, v2[j]);
        assert(c[m] == v2[j]);
    }
    let w = views.update(i, v2);
    assert forall|j: int| 0 <= j < w.len() implies #[trigger] w[j] == c.filter(
        in_shard(p, w.len(), j),
    ) by {
        let f = in_shard(p, n, j);
        assert(views[j] == all.filter(f));
        lemma_filter_ordered::<DbKey>(c, f);
        lemma_filter_ordered::<DbKey>(all, f);
        assert forall|e: KV| #[trigger] w[j].contains(e) == c.filter(f).contains(e) by {
            lemma_filter_contains(c, f, e);
            if c.contains(e) && f(e) {
                let m = choose|m: int| 0 <= m < c.len() && c[m] == e;
                assert(all[m].key == e.key);
                assert(f(all[m]));
                if j == i {
                    assert(twins(views[i], v2, all[m], c[m]));
                    assert(v2.contains(e));
                } else {
                    assert(all.contains(all[m]));
                    lemma_filter_contains(all, f, e);
                }
            }
            if w[j].contains(e) {
                if j == i {
                    let x = choose|x: int| 0 <= x < v2.len() && v2[x] == e;
                    assert(views[i][x].key == e.key);
                    assert(views[i].contains(views[i][x]));
                    lemma_filter_contains(all, fi, views[i][x]);
                    let m = choose|m: int| 0 <= m < all.len() && all[m] == views[i][x];
                    assert(twins(views[i], v2, all[m], c[m]));
                    let y = choose|y: int|
                        0 <= y < views[i].len() && y < v2.len() && #[trigger] views[i][y] == all[m]
                            && v2[y] == c[m];
                    assert(views[i][x].key == views[i][y].key);
                    DbKey::lemma_irreflexive(e.key);
                    if x < y {
                        assert(DbKey::lt(views[i][x].key, views[i][y].key));
                    } else if y < x {
                        assert(DbKey::lt(views[i][y].key, views[i][x].key));
                    }
                    assert(c[m] == e);
                } else {
                    lemma_filter_contains(all, f, e);
                    let m = choose|m: int| 0 <= m < all.len() && all[m] == e;
                    assert(c[m] == e);
                }
            }
        }
        lemma_same_members::<DbKey>(w[j], c.filter(f));
    }
}

//==============================================================================
// Counts
//==============================================================================

/// The counts are those of the partitions that have entries; the largest number stands for an
/// unknown one.
pub open spec fn counted(p: nat, m: Map<Seq<u8>, i64>, all: Seq<KV>) -> bool {
    &&& forall|pk: Seq<u8>| #[trigger]
        m.contains_key(pk) ==> is_part(p, pk) && (m[pk] == i64::MAX || m[pk] == all.filter(
            in_part(p, pk),
        ).len())
    &&& forall|e: KV| #[trigger] all.contains(e) ==> m.contains_key(part_of(p, e.key))
}

/// No count has been given up.
pub open spec fn all_known(m: Map<Seq<u8>, i64>) -> bool {
    forall|pk: Seq<u8>| #[trigger] m.contains_key(pk) ==> m[pk] != i64::MAX
}

/// The count after one more entry.
pub open spec fn one_more(m: Map<Seq<u8>, i64>, pk: Seq<u8>) -> Map<Seq<u8>, i64> {
    m.insert(
        pk,
        if !m.contains_key(pk) {
            1
        } else if m[pk] < i64::MAX {
            (m[pk] + 1) as i64
        } else {
            i64::MAX
        },
    )
}

/// A put changes the count of the partition of its key where the key is new.
pub proof fn lemma_put_counted(p: nat, m: Map<Seq<u8>, i64>, all: Seq<KV>, e: KV)
    requires
        ordered::<DbKey>(all),
        counted(p, m, all),
    ensures
        counted(
            p,
            if pick(all, with_key(e.key)) is None {
                one_more(m, part_of(p, e.key))
            } else {
                m
            },
            updated::<DbKey>(all, e),
        ),
{
    let pk = part_of(p, e.key);
    let u = updated::<DbKey>(all, e);
    let m2 = if pick(all, with_key(e.key)) is None {
        one_more(m, pk)
    } else {
        m
    };
    lemma_updated::<DbKey>(all, e);
    lemma_lookup::<DbKey>(all, e.key);
    assert forall|q: Seq<u8>| #[trigger] m2.contains_key(q) implies is_part(p, q) && (m2[q]
        == i64::MAX || m2[q] == u.filter(in_part(p, q)).len()) by {
        let f = in_part(p, q);
        lemma_updated_filter(all, e, f);
        if q == pk {
            lemma_filter_ordered::<DbKey>(all, f);
            lemma_updated_len(all.filter(f), e);
            assert forall|x: KV| x.key == e.key implies #[trigger] all.filter(f).contains(x)
                == all.contains(x) by {
                lemma_filter_contains(all, f, x);
            }
            lemma_lookup_same::<DbKey>(all.filter(f), all, e.key);
            if !m.contains_key(pk) {
                assert forall|i: int| 0 <= i < all.len() implies !f(#[trigger] all[i]) by {
                    assert(all.contains(all[i]));
                }
                lemma_filter_none(all, f);
            } else {
                assert(m.contains_key(q));
            }
        } else {
            assert(m.contains_key(q));
        }
    }
    assert forall|x: KV| #[trigger] u.contains(x) implies m2.contains_key(part_of(p, x.key)) by {
        if x == e {
            match pick(all, with_key(e.key)) {
                Some(y) => {
                    assert(all.contains(y));
                },
                None => {},
            }
        } else {
            assert(all.contains(x));
        }
    }
}

/// Entries of one partition leave.
pub proof fn lemma_cut_counted(
    p: nat,
    m: Map<Seq<u8>, i64>,
    all: Seq<KV>,
    pk: Seq<u8>,
    m2: Map<Seq<u8>, i64>,
    all2: Seq<KV>,
)
    requires
        ordered::<DbKey>(all),
        ordered::<DbKey>(all2),
        counted(p, m, all),
        forall|e: KV| #[trigger] all2.contains(e) ==> all.contains(e),
        forall|e: KV| #[trigger] all.contains(e) && part_of(p, e.key) != pk ==> all2.contains(e),
        forall|q: Seq<u8>| q != pk ==> #[trigger] m2.contains_key(q) == m.contains_key(q),
        forall|q: Seq<u8>| q != pk && #[trigger] m2.contains_key(q) ==> m2[q] == m[q],
        m2.contains_key(pk) ==> m.contains_key(pk) && (m2[pk] == i64::MAX || m2[pk] == all2.filter(
            in_part(p, pk),
        ).len()),
        !m2.contains_key(pk) ==> all2.filter(in_part(p, pk)).len() == 0,
    ensures
        counted(p, m2, all2),
{
    assert forall|q: Seq<u8>| #[trigger] m2.contains_key(q) implies is_part(p, q) && (m2[q]
        == i64::MAX || m2[q] == all2.filter(in_part(p, q)).len()) by {
        assert(m.contains_key(q));
        if q != pk {
            let f = in_part(p, q);
            lemma_filter_ordered::<DbKey>(all, f);
            lemma_filter_ordered::<DbKey>(all2, f);
            assert forall|e: KV| #[trigger] all.filter(f).contains(e) == all2.filter(f).contains(
                e,
            ) by {
                lemma_filter_contains(all, f, e);
                lemma_filter_contains(all2, f, e);
                if all.contains(e) && f(e) {
                    assert(all2.contains(e));
                }
                if all2.contains(e) {
                    assert(all.contains(e));
                }
            }
            lemma_same_members::<DbKey>(all.filter(f), all2.filter(f));
        }
    }
    assert forall|e: KV| #[trigger] all2.contains(e) implies m2.contains_key(
        part_of(p, e.key),
    ) by {
        assert(all.contains(e));
        let f = in_part(p, pk);
        if part_of(p, e.key) == pk {
            lemma_filter_contains(all2, f, e);
        }
    }
}

/// How many entries of a partition are left.
pub proof fn lemma_left_of_part(p: nat, all: Seq<KV>, pk: Seq<u8>, sel: spec_fn(KV) -> bool)
    requires
        forall|e: KV| #[trigger] sel(e) ==> part_of(p, e.key) == pk,
    ensures
        all.filter(in_part(p, pk)).len() == all.filter(sel).len() + all.filter(not(sel)).filter(
            in_part(p, pk),
        ).len(),
{
    let f = in_part(p, pk);
    let g = |e: KV| f(e) && !sel(e);
    lemma_filter_len(all, sel, g, f);
    lemma_filter_filter(all, not(sel), f, g);
}

/// At most one entry has a key.
pub proof fn lemma_one_with_key(s: Seq<KV>, k: Seq<u8>)
    requires
        ordered::<DbKey>(s),
    ensures
        s.filter(with_key(k)).len() == if pick(s, with_key(k)) is Some {
            1int
        } else {
            0
        },
{
    let w = with_key(k);
    lemma_lookup::<DbKey>(s, k);
    match pick(s, w) {
        None => {
            assert forall|i: int| 0 <= i < s.len() implies !w(#[trigger] s[i]) by {
                assert(s.contains(s[i]));
            }
            lemma_filter_none(s, w);
        },
        Some(x) => {
            lemma_filter_ordered::<DbKey>(s, w);
            let one = seq![x];
            assert forall|y: KV| #[trigger] s.filter(w).contains(y) implies one.contains(y) by {
                lemma_filter_contains(s, w, y);
                lemma_key_once::<DbKey>(s, x, y);
                assert(one[0] == y);
            }
            assert forall|y: KV| #[trigger] one.contains(y) implies s.filter(w).contains(y) by {
                lemma_filter_contains(s, w, y);
            }
            lemma_same_members::<DbKey>(s.filter(w), one);
        },
    }
}

/// A partition that is not listed has no entries.
pub proof fn lemma_unlisted_part(p: nat, m: Map<Seq<u8>, i64>, all: Seq<KV>, pk: Seq<u8>)
    requires
        counted(p, m, all),
        !m.contains_key(pk),
    ensures
        all.filter(in_part(p, pk)).len() == 0,
{
    let f = in_part(p, pk);
    assert forall|i: int| 0 <= i < all.len() implies !f(#[trigger] all[i]) by {
        assert(all.contains(all[i]));
    }
    lemma_filter_none(all, f);
}

//==============================================================================
// Partition by partition
//==============================================================================

/// The chosen entries of a partition.
pub open spec fn within(p: nat, pk: Seq<u8>, sel: spec_fn(KV) -> bool) -> spec_fn(KV) -> bool {
    |e: KV| sel(e) && part_of(p, e.key) == pk
}

/// The chosen entries of some partitions.
pub open spec fn taken(p: nat, parts: Seq<Seq<u8>>, sel: spec_fn(KV) -> bool) -> spec_fn(
    KV,
) -> bool {
    |e: KV| sel(e) && parts.contains(part_of(p, e.key))
}

/// Two properties that agree on the entries.
pub proof fn lemma_filter_same(s: Seq<KV>, f: spec_fn(KV) -> bool, g: spec_fn(KV) -> bool)
    requires
        forall|e: KV| #[trigger] s.contains(e) ==> f(e) == g(e),
    ensures
        s.filter(f) == s.filter(g),
{
    assert forall|i: int| 0 <= i < s.len() implies #[trigger] g(s[i]) == (f(s[i]) && f(s[i])) by {
        assert(s.contains(s[i]));
    }
    lemma_filter_filter(s, f, f, g);
    lemma_filter_filter(s, f, f, f);
}

/// One partition more.
pub proof fn lemma_taken_next(
    p: nat,
    s: Seq<KV>,
    parts: Seq<Seq<u8>>,
    i: int,
    sel: spec_fn(KV) -> bool,
)
    requires
        0 <= i < parts.len(),
        increasing(parts),
    ensures
        ({
            let a = taken(p, parts.take(i), sel);
            let b = taken(p, parts.take(i + 1), sel);
            let w = within(p, parts[i], sel);
            &&& s.filter(not(a)).filter(not(w)) == s.filter(not(b))
            &&& s.filter(b).len() == s.filter(a).len() + s.filter(not(a)).filter(w).len()
            &&& forall|e: KV| #[trigger] b(e) == (a(e) || w(e))
            &&& forall|e: KV| !(#[trigger] a(e) && w(e))
        }),
{
    let a = taken(p, parts.take(i), sel);
    let b = taken(p, parts.take(i + 1), sel);
    let w = within(p, parts[i], sel);
    let x = parts.take(i);
    let y = parts.take(i + 1);
    assert forall|q: Seq<u8>| #[trigger] y.contains(q) == (x.contains(q) || q == parts[i]) by {
        assert(y =~= x.push(parts[i]));
        assert(y[i] == parts[i]);
        if x.contains(q) {
            let j = choose|j: int| 0 <= j < x.len() && x[j] == q;
            assert(y[j] == q);
        }
        if y.contains(q) {
            let j = choose|j: int| 0 <= j < y.len() && y[j] == q;
            if j < i {
                assert(x[j] == q);
            }
        }
    }
    assert(!x.contains(parts[i])) by {
        if x.contains(parts[i]) {
            let j = choose|j: int| 0 <= j < x.len() && x[j] == parts[i];
            assert(lex_lt(parts[j], parts[i]));
            lemma_lex_irreflexive(parts[i]);
        }
    }
    assert forall|e: KV| #[trigger] b(e) == (a(e) || w(e)) by {}
    assert forall|e: KV| !(#[trigger] a(e) && w(e)) by {}
    lemma_filter_filter(s, not(a), not(w), not(b));
    lemma_filter_len(s, a, w, b);
    lemma_filter_filter(s, not(a), w, w);
}

/// Keys alone decide how many entries have a property of keys.
pub proof fn lemma_same_keys_len(p: nat, a: Seq<KV>, b: Seq<KV>, pk: Seq<u8>)
    requires
        same_keys(a, b),
    ensures
        a.filter(in_part(p, pk)).len() == b.filter(in_part(p, pk)).len(),
    decreases a.len(),
{
    let f = in_part(p, pk);
    if a.len() == 0 {
        lemma_filter_none(a, f);
        lemma_filter_none(b, f);
    } else {
        let x = a.drop_last();
        let y = b.drop_last();
        assert forall|m: int| 0 <= m < x.len() implies (#[trigger] x[m]).key == y[m].key by {
            assert(a[m].key == b[m].key);
        }
        lemma_same_keys_len(p, x, y, pk);
        assert(a =~= x.push(a.last()));
        assert(b =~= y.push(b.last()));
        assert(a[a.len() - 1].key == b[a.len() - 1].key);
        lemma_filter_push(x, a.last(), f);
        lemma_filter_push(y, b.last(), f);
    }
}

pub proof fn lemma_same_keys_counted(p: nat, m: Map<Seq<u8>, i64>, a: Seq<KV>, b: Seq<KV>)
    requires
        counted(p, m, a),
        same_keys(a, b),
    ensures
        counted(p, m, b),
{
    assert forall|pk: Seq<u8>| #[trigger] m.contains_key(pk) implies is_part(p, pk) && (m[pk]
        == i64::MAX || m[pk] == b.filter(in_part(p, pk)).len()) by {
        lemma_same_keys_len(p, a, b, pk);
    }
    assert forall|e: KV| #[trigger] b.contains(e) implies m.contains_key(part_of(p, e.key)) by {
        let i = choose|i: int| 0 <= i < b.len() && b[i] == e;
        assert(a[i].key == e.key);
        assert(a.contains(a[i]));
    }
}

/// What is left of a partition that is not listed.
pub proof fn lemma_unlisted_cut(
    p: nat,
    n: nat,
    m: Map<Seq<u8>, i64>,
    all: Seq<KV>,
    pk: Seq<u8>,
    i: int,
    v2: Seq<KV>,
)
    requires
        counted(p, m, all),
        !m.contains_key(pk),
    ensures
        cut(p, n, all, i, v2).filter(in_part(p, pk)).len() == 0,
{
    let keep = |e: KV| in_shard(p, n, i)(e) ==> v2.contains(e);
    let c = cut(p, n, all, i, v2);
    let f = in_part(p, pk);
    assert forall|j: int| 0 <= j < c.len() implies !f(#[trigger] c[j]) by {
        assert(c.contains(c[j]));
        lemma_filter_contains(all, keep, c[j]);
    }
    lemma_filter_none(c, f);
}

/// A removal that fails in the middle.
pub proof fn lemma_taken_partly(
    s: Seq<KV>,
    a: spec_fn(KV) -> bool,
    w: spec_fn(KV) -> bool,
    sel: spec_fn(KV) -> bool,
    now: Seq<KV>,
)
    requires
        forall|e: KV| #[trigger] a(e) ==> sel(e),
        forall|e: KV| #[trigger] w(e) ==> sel(e),
        partly_removed(s.filter(not(a)), w, now),
    ensures
        partly_removed(s, sel, now),
{
    let was = s.filter(not(a));
    lemma_filter_filter(s, not(a), not(sel), not(sel));
    lemma_filter_filter(now, not(w), not(sel), not(sel));
    lemma_filter_filter(was, not(w), not(sel), not(sel));
    assert forall|e: KV| #[trigger] now.contains(e) implies s.contains(e) by {
        assert(was.contains(e));
        lemma_filter_contains(s, not(a), e);
    }
}

/// The value is put over the chosen entries of some partitions.
pub open spec fn poured<F: PutFilter<DbKey, DbValue>>(
    p: nat,
    s0: Seq<KV>,
    range: RangeView,
    v: Seq<u8>,
    f: Option<&F>,
    parts: Seq<Seq<u8>>,
    s: Seq<KV>,
) -> bool {
    &&& s.len() == s0.len()
    &&& forall|m: int|
        0 <= m < s0.len() ==> #[trigger] s[m] == if parts.contains(part_of(p, s0[m].key)) {
            put_over::<DbKey, DbValue, F>(s0[m], range, v, f)
        } else {
            s0[m]
        }
}

/// The value is put over the chosen entries of one partition.
pub open spec fn poured_one<F: PutFilter<DbKey, DbValue>>(
    p: nat,
    s0: Seq<KV>,
    range: RangeView,
    v: Seq<u8>,
    f: Option<&F>,
    pk: Seq<u8>,
    s: Seq<KV>,
) -> bool {
    &&& s.len() == s0.len()
    &&& forall|m: int|
        0 <= m < s0.len() ==> #[trigger] s[m] == if part_of(p, s0[m].key) == pk {
            put_over::<DbKey, DbValue, F>(s0[m], range, v, f)
        } else {
            s0[m]
        }
}

/// The value is put over some of the chosen entries of one partition.
pub open spec fn poured_partly<F: PutFilter<DbKey, DbValue>>(
    p: nat,
    s0: Seq<KV>,
    range: RangeView,
    v: Seq<u8>,
    f: Option<&F>,
    pk: Seq<u8>,
    s: Seq<KV>,
) -> bool {
    &&& s.len() == s0.len()
    &&& forall|m: int|
        0 <= m < s0.len() ==> #[trigger] s[m] == s0[m] || (part_of(p, s0[m].key) == pk && s[m]
            == put_over::<DbKey, DbValue, F>(s0[m], range, v, f))
}

pub proof fn lemma_poured_next<F: PutFilter<DbKey, DbValue>>(
    p: nat,
    s0: Seq<KV>,
    range: RangeView,
    v: Seq<u8>,
    f: Option<&F>,
    ps: Seq<Seq<u8>>,
    i: int,
    was: Seq<KV>,
    now: Seq<KV>,
)
    requires
        0 <= i < ps.len(),
        increasing(ps),
        poured::<F>(p, s0, range, v, f, ps.take(i), was),
        poured_one::<F>(p, was, range, v, f, ps[i], now),
    ensures
        poured::<F>(p, s0, range, v, f, ps.take(i + 1), now),
{
    let x = ps.take(i);
    let y = ps.take(i + 1);
    assert forall|m: int| 0 <= m < s0.len() implies #[trigger] now[m] == if y.contains(
        part_of(p, s0[m].key),
    ) {
        put_over::<DbKey, DbValue, F>(s0[m], range, v, f)
    } else {
        s0[m]
    } by {
        let q = part_of(p, s0[m].key);
        assert(was[m].key == s0[m].key);
        if x.contains(q) {
            let j = choose|j: int| 0 <= j < x.len() && x[j] == q;
            assert(y[j] == q);
            assert(lex_lt(ps[j], ps[i]));
            lemma_lex_irreflexive(q);
        } else if q == ps[i] {
            assert(y[i] == q);
        } else if y.contains(q) {
            let j = choose|j: int| 0 <= j < y.len() && y[j] == q;
            assert(x[j] == q);
        }
    }
}

pub proof fn lemma_poured_partly<F: PutFilter<DbKey, DbValue>>(
    p: nat,
    s0: Seq<KV>,
    range: RangeView,
    v: Seq<u8>,
    f: Option<&F>,
    ps: Seq<Seq<u8>>,
    i: int,
    was: Seq<KV>,
    now: Seq<KV>,
)
    requires
        0 <= i < ps.len(),
        increasing(ps),
        poured::<F>(p, s0, range, v, f, ps.take(i), was),
        poured_partly::<F>(p, was, range, v, f, ps[i], now),
    ensures
        range_partly::<DbKey, DbValue, F>(s0, range, v, f, now),
        same_keys(s0, was),
{
    let x = ps.take(i);
    assert forall|m: int| 0 <= m < s0.len() implies #[trigger] now[m] == s0[m] || now[m]
        == put_over::<DbKey, DbValue, F>(s0[m], range, v, f) by {
        let q = part_of(p, s0[m].key);
        assert(was[m].key == s0[m].key);
        if x.contains(q) {
            let j = choose|j: int| 0 <= j < x.len() && x[j] == q;
            assert(lex_lt(ps[j], ps[i]));
            lemma_lex_irreflexive(q);
        }
    }
}

/// When the rest of the partitions lies behind the range, everything is done.
pub proof fn lemma_poured_rest<F: PutFilter<DbKey, DbValue>>(
    p: nat,
    s0: Seq<KV>,
    range: RangeView,
    v: Seq<u8>,
    f: Option<&F>,
    ps: Seq<Seq<u8>>,
    i: int,
    s: Seq<KV>,
)
    requires
        0 <= i <= ps.len(),
        increasing(ps),
        poured::<F>(p, s0, range, v, f, ps.take(i), s),
        forall|e: KV| #[trigger]
            s0.contains(e) && range.has::<DbKey>(e.key) ==> ps.contains(part_of(p, e.key)),
        i < ps.len() ==> !range.to_end::<DbKey>(ps[i]),
    ensures
        s == put_over_all::<DbKey, DbValue, F>(s0, range, v, f),
{
    let all = put_over_all::<DbKey, DbValue, F>(s0, range, v, f);
    assert forall|m: int| 0 <= m < s0.len() implies s[m] == #[trigger] all[m] by {
        let q = part_of(p, s0[m].key);
        assert(s0.contains(s0[m]));
        if range.has::<DbKey>(s0[m].key) {
            let j = choose|j: int| 0 <= j < ps.len() && ps[j] == q;
            if j < i {
                assert(ps.take(i)[j] == q);
            } else {
                lemma_lex_irreflexive(q);
                if i < j {
                    assert(lex_lt(ps[i], ps[j]));
                    if lex_lt(ps[j], ps[i]) {
                        lemma_lex_transitive(ps[j], ps[i], ps[j]);
                    }
                }
                lemma_parts_behind(p, range, ps[i], s0[m].key);
            }
        }
    }
    assert(s =~= all);
}

//==============================================================================
// Queries
//==============================================================================

/// The chosen entries of the partitions from the `i`-th on, one partition after the other.
pub open spec fn found_from(
    p: nat,
    s: Seq<KV>,
    sel: spec_fn(KV) -> bool,
    reverse: bool,
    parts: Seq<Seq<u8>>,
    i: int,
) -> Seq<KV>
    decreases parts.len() - i,
{
    if i < 0 || i >= parts.len() {
        Seq::empty()
    } else {
        in_order(s, within(p, parts[i], sel), reverse) + found_from(
            p,
            s,
            sel,
            reverse,
            parts,
            i + 1,
        )
    }
}

/// Partitions in the order in which a query visits them.
pub open spec fn visited(parts: Seq<Seq<u8>>, reverse: bool) -> bool {
    forall|i: int, j: int|
        0 <= i < j < parts.len() ==> if reverse {
            lex_lt(#[trigger] parts[j], #[trigger] parts[i])
        } else {
            lex_lt(parts[i], parts[j])
        }
}

/// What is found partition by partition is what is found at all.
pub proof fn lemma_found_from(
    p: nat,
    s: Seq<KV>,
    sel: spec_fn(KV) -> bool,
    reverse: bool,
    parts: Seq<Seq<u8>>,
    i: int,
)
    requires
        ordered::<DbKey>(s),
        visited(parts, reverse),
        0 <= i <= parts.len(),
    ensures
        found_from(p, s, sel, reverse, parts, i) == in_order(
            s,
            taken(p, parts.skip(i), sel),
            reverse,
        ),
    decreases parts.len() - i,
{
    let t = taken(p, parts.skip(i), sel);
    if i == parts.len() {
        lemma_filter_none(s, t);
        assert(in_order(s, t, reverse) =~= Seq::<KV>::empty());
    } else {
        let w = within(p, parts[i], sel);
        let n = taken(p, parts.skip(i + 1), sel);
        let x = parts.skip(i);
        let y = parts.skip(i + 1);
        lemma_found_from(p, s, sel, reverse, parts, i + 1);
        assert forall|q: Seq<u8>| #[trigger] x.contains(q) == (q == parts[i] || y.contains(q)) by {
            if x.contains(q) {
                let j = choose|j: int| 0 <= j < x.len() && x[j] == q;
                if j > 0 {
                    assert(y[j - 1] == q);
                }
            }
            if y.contains(q) {
                let j = choose|j: int| 0 <= j < y.len() && y[j] == q;
                assert(x[j + 1] == q);
            }
            assert(x[0] == parts[i]);
        }
        assert forall|e: KV| #[trigger] t(e) == (w(e) || n(e)) by {}
        assert forall|a: KV, b: KV| #[trigger] w(a) && #[trigger] n(b) implies if reverse {
            lex_lt(part_of(p, b.key), part_of(p, a.key))
        } else {
            lex_lt(part_of(p, a.key), part_of(p, b.key))
        } by {
            let j = choose|j: int| 0 <= j < y.len() && y[j] == part_of(p, b.key);
            assert(parts[j + i + 1] == part_of(p, b.key));
            assert(parts[i] == part_of(p, a.key));
        }
        assert forall|e: KV| !(#[trigger] w(e) && n(e)) by {
            lemma_lex_irreflexive(part_of(p, e.key));
        }
        assert forall|a: int, b: int| 0 <= a < b < s.len() && !reverse implies !(#[trigger] n(s[a])
            && #[trigger] w(s[b])) by {
            lemma_part_pair(p, s, a, b);
        }
        assert forall|a: int, b: int| 0 <= a < b < s.len() && reverse implies !(#[trigger] w(s[a])
            && #[trigger] n(s[b])) by {
            lemma_part_pair(p, s, a, b);
        }
        if reverse {
            assert forall|e: KV| !(#[trigger] n(e) && w(e)) by {
                assert(!(w(e) && n(e)));
            }
            lemma_filter_split(s, n, w, t);
            assert(s.filter(t).reverse() =~= s.filter(w).reverse() + s.filter(n).reverse());
        } else {
            lemma_filter_split(s, w, n, t);
        }
    }
}

/// Of two entries, the later one does not have the smaller partition.
proof fn lemma_part_pair(p: nat, s: Seq<KV>, a: int, b: int)
    requires
        ordered::<DbKey>(s),
        0 <= a < b < s.len(),
    ensures
        !lex_lt(part_of(p, s[b].key), part_of(p, s[a].key)),
{
    let x = part_of(p, s[a].key);
    let y = part_of(p, s[b].key);
    assert(DbKey::lt(s[a].key, s[b].key));
    lemma_part_order(p, s[a].key, s[b].key);
    lemma_lex_irreflexive(x);
    if lex_lt(x, y) && lex_lt(y, x) {
        lemma_lex_transitive(x, y, x);
    }
}

/// The entries of a partition are found in its shard.
pub proof fn lemma_shard_found(
    p: nat,
    all: Seq<KV>,
    views: Seq<Seq<KV>>,
    i: int,
    pk: Seq<u8>,
    sel: spec_fn(KV) -> bool,
    reverse: bool,
)
    requires
        spread(p, all, views),
        0 <= i < views.len(),
        i == shard_of(views.len(), pk),
    ensures
        in_order(views[i], within(p, pk, sel), reverse) == in_order(
            all,
            within(p, pk, sel),
            reverse,
        ),
{
    let w = within(p, pk, sel);
    assert(views[i] == all.filter(in_shard(p, views.len(), i)));
    lemma_filter_filter(all, in_shard(p, views.len(), i), w, w);
}

} // verus!
