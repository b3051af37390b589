//! Facts about entries in key order.

use vstd::prelude::*;
use crate::btree_kvs::BtreeKey;
use crate::contents::{
    is_first, lemma_filter_contains, lemma_filter_none, lemma_filter_ordered, lemma_filter_push,
    lemma_pick_some, lookup, ordered, pick, with_key,
};
use crate::put::{over, under, updated};
use crate::tree_model::KV;

verus! {

pub proof fn lemma_drop_ordered<K: BtreeKey>(s: Seq<KV>)
    requires
        ordered::<K>(s),
        s.len() > 0,
    ensures
        ordered::<K>(s.drop_last()),
        forall|e: KV| #[trigger] s.drop_last().contains(e) == (s.contains(e) && e != s.last()),
{
    let d = s.drop_last();
    assert forall|i: int, j: int| 0 <= i < j < d.len() implies K::lt(
        #[trigger] d[i].key,
        #[trigger] d[j].key,
    ) by {
        assert(d[i] == s[i] && d[j] == s[j]);
    }
    assert forall|e: KV| #[trigger] d.contains(e) == (s.contains(e) && e != s.last()) by {
        if d.contains(e) {
            let i = choose|i: int| 0 <= i < d.len() && d[i] == e;
            assert(s[i] == e);
            assert(K::lt(s[i].key, s[s.len() - 1].key));
            K::lemma_irreflexive(e.key);
        }
        if s.contains(e) && e != s.last() {
            let i = choose|i: int| 0 <= i < s.len() && s[i] == e;
            assert(d[i] == e);
        }
    }
}

/// Two entries with the same key are the same.
pub proof fn lemma_key_once<K: BtreeKey>(s: Seq<KV>, a: KV, b: KV)
    requires
        ordered::<K>(s),
        s.contains(a),
        s.contains(b),
        a.key == b.key,
    ensures
        a == b,
{
    let i = choose|i: int| 0 <= i < s.len() && s[i] == a;
    let j = choose|j: int| 0 <= j < s.len() && s[j] == b;
    K::lemma_irreflexive(a.key);
    if i < j {
        assert(K::lt(s[i].key, s[j].key));
    } else if j < i {
        assert(K::lt(s[j].key, s[i].key));
    }
}

/// Entries in key order are known by what they contain.
pub proof fn lemma_same_members<K: BtreeKey>(a: Seq<KV>, b: Seq<KV>)
    requires
        ordered::<K>(a),
        ordered::<K>(b),
        forall|e: KV| #[trigger] a.contains(e) ==> b.contains(e),
        forall|e: KV| #[trigger] b.contains(e) ==> a.contains(e),
    ensures
        a == b,
    decreases a.len(),
{
    if a.len() == 0 {
        if b.len() > 0 {
            assert(b.contains(b[0]));
        }
        assert(a =~= b);
    } else {
        let x = a.last();
        assert(a[a.len() - 1] == x);
        assert(a.contains(x));
        assert(b.contains(x));
        let j = choose|j: int| 0 <= j < b.len() && b[j] == x;
        let y = b.last();
        assert(b[b.len() - 1] == y);
        assert(b.contains(y));
        assert(a.contains(y));
        let i = choose|i: int| 0 <= i < a.len() && a[i] == y;
        if j < b.len() - 1 {
            assert(K::lt(b[j].key, b[b.len() - 1].key));
            if i < a.len() - 1 {
                assert(K::lt(a[i].key, a[a.len() - 1].key));
                K::lemma_transitive(x.key, y.key, x.key);
            }
            K::lemma_irreflexive(x.key);
            assert(false);
        }
        assert(x == y);
        lemma_drop_ordered::<K>(a);
        lemma_drop_ordered::<K>(b);
        assert forall|e: KV| #[trigger] a.drop_last().contains(e) implies b.drop_last().contains(
            e,
        ) by {
            assert(a.contains(e));
        }
        assert forall|e: KV| #[trigger] b.drop_last().contains(e) implies a.drop_last().contains(
            e,
        ) by {
            assert(b.contains(e));
        }
        lemma_same_members::<K>(a.drop_last(), b.drop_last());
        assert(a =~= a.drop_last().push(x));
        assert(b =~= b.drop_last().push(x));
    }
}

/// Where all entries with one property come before those with another, the entries with either
/// are the first ones and then the others.
pub proof fn lemma_filter_split(
    s: Seq<KV>,
    f: spec_fn(KV) -> bool,
    g: spec_fn(KV) -> bool,
    h: spec_fn(KV) -> bool,
)
    requires
        forall|i: int| 0 <= i < s.len() ==> #[trigger] h(s[i]) == (f(s[i]) || g(s[i])),
        forall|i: int| 0 <= i < s.len() ==> !(#[trigger] f(s[i]) && g(s[i])),
        forall|i: int, j: int| 0 <= i < j < s.len() ==> !(#[trigger] g(s[i]) && #[trigger] f(s[j])),
    ensures
        s.filter(h) == s.filter(f) + s.filter(g),
    decreases s.len(),
{
    if s.len() == 0 {
        lemma_filter_none(s, f);
        lemma_filter_none(s, g);
        lemma_filter_none(s, h);
        assert(s.filter(h) =~= s.filter(f) + s.filter(g));
    } else {
        let d = s.drop_last();
        let e = s.last();
        assert(s =~= d.push(e));
        assert forall|i: int| 0 <= i < d.len() implies #[trigger] h(d[i]) == (f(d[i]) || g(
            d[i],
        )) by {
            assert(d[i] == s[i]);
        }
        assert forall|i: int| 0 <= i < d.len() implies !(#[trigger] f(d[i]) && g(d[i])) by {
            assert(d[i] == s[i]);
        }
        assert forall|i: int, j: int| 0 <= i < j < d.len() implies !(#[trigger] g(d[i])
            && #[trigger] f(d[j])) by {
            assert(d[i] == s[i] && d[j] == s[j]);
        }
        lemma_filter_split(d, f, g, h);
        lemma_filter_push(d, e, f);
        lemma_filter_push(d, e, g);
        lemma_filter_push(d, e, h);
        let m = s.len() - 1;
        assert(h(s[m]) == (f(s[m]) || g(s[m])));
        assert(!(f(s[m]) && g(s[m])));
        if f(e) {
            assert forall|i: int| 0 <= i < d.len() implies !g(#[trigger] d[i]) by {
                assert(d[i] == s[i]);
                assert(!(g(s[i]) && f(s[m])));
            }
            lemma_filter_none(d, g);
            assert(s.filter(h) =~= s.filter(f) + s.filter(g));
        } else {
            assert(s.filter(h) =~= s.filter(f) + s.filter(g));
        }
    }
}

/// What an update leaves, and that it keeps the order.
pub proof fn lemma_updated<K: BtreeKey>(s: Seq<KV>, e: KV)
    requires
        ordered::<K>(s),
    ensures
        ordered::<K>(updated::<K>(s, e)),
        forall|x: KV| #[trigger]
            updated::<K>(s, e).contains(x) == (x == e || s.contains(x) && x.key != e.key),
{
    let u = updated::<K>(s, e);
    let lo = s.filter(under::<K>(e.key));
    let hi = s.filter(over::<K>(e.key));
    lemma_filter_ordered::<K>(s, under::<K>(e.key));
    lemma_filter_ordered::<K>(s, over::<K>(e.key));
    let n = lo.len() as int;
    assert forall|i: int, j: int| 0 <= i < j < u.len() implies K::lt(
        #[trigger] u[i].key,
        #[trigger] u[j].key,
    ) by {
        if i < n {
            assert(u[i] == lo[i]);
            assert(under::<K>(e.key)(lo[i]));
        } else if i > n {
            assert(u[i] == hi[i - n - 1]);
        }
        if j < n {
            assert(u[j] == lo[j]);
        } else if j > n {
            assert(u[j] == hi[j - n - 1]);
            assert(over::<K>(e.key)(hi[j - n - 1]));
        }
        if i < n && j > n {
            K::lemma_transitive(u[i].key, e.key, u[j].key);
        }
    }
    assert forall|x: KV| #[trigger] u.contains(x) == (x == e || s.contains(x) && x.key
        != e.key) by {
        lemma_filter_contains(s, under::<K>(e.key), x);
        lemma_filter_contains(s, over::<K>(e.key), x);
        K::lemma_irreflexive(e.key);
        K::lemma_total(x.key, e.key);
        if u.contains(x) {
            let i = choose|i: int| 0 <= i < u.len() && u[i] == x;
            if i < n {
                assert(lo[i] == x);
                assert(lo.contains(x));
            } else if i > n {
                assert(hi[i - n - 1] == x);
                assert(hi.contains(x));
            }
        }
        if lo.contains(x) {
            let i = choose|i: int| 0 <= i < lo.len() && lo[i] == x;
            assert(u[i] == x);
        }
        if hi.contains(x) {
            let i = choose|i: int| 0 <= i < hi.len() && hi[i] == x;
            assert(u[i + n + 1] == x);
        }
        assert(u[n] == e);
    }
}

/// The entry with a key is the one that is found under it.
pub proof fn lemma_lookup_some<K: BtreeKey>(s: Seq<KV>, e: KV)
    requires
        ordered::<K>(s),
        s.contains(e),
    ensures
        pick(s, with_key(e.key)) == Some(e),
        lookup(s, e.key) == Some(e.val),
{
    let i = choose|i: int| 0 <= i < s.len() && s[i] == e;
    let f = with_key(e.key);
    assert(f(s[i]));
    let r = lemma_pick_some(s, f, i);
    assert(f(s[r]));
    assert(s.contains(s[r]));
    lemma_key_once::<K>(s, s[r], e);
}

/// What is found under a key is an entry with that key, and nothing is found only where there is
/// none.
pub proof fn lemma_lookup<K: BtreeKey>(s: Seq<KV>, k: Seq<u8>)
    requires
        ordered::<K>(s),
    ensures
        pick(s, with_key(k)) matches Some(e) ==> s.contains(e) && e.key == k && lookup(s, k)
            == Some(e.val),
        pick(s, with_key(k)) is None ==> lookup(s, k) is None && forall|e: KV| #[trigger]
            s.contains(e) ==> e.key != k,
{
    let f = with_key(k);
    if exists|i: int| is_first(s, f, i) {
        let i = choose|i: int| is_first(s, f, i);
        assert(f(s[i]));
        assert(s.contains(s[i]));
    } else {
        assert forall|e: KV| #[trigger] s.contains(e) implies e.key != k by {
            if e.key == k {
                lemma_lookup_some::<K>(s, e);
            }
        }
    }
}

/// Two sequences in key order that contain the same entries under a key agree on that key.
pub proof fn lemma_lookup_same<K: BtreeKey>(a: Seq<KV>, b: Seq<KV>, k: Seq<u8>)
    requires
        ordered::<K>(a),
        ordered::<K>(b),
        forall|e: KV| e.key == k ==> #[trigger] a.contains(e) == b.contains(e),
    ensures
        pick(a, with_key(k)) == pick(b, with_key(k)),
        lookup(a, k) == lookup(b, k),
{
    lemma_lookup::<K>(a, k);
    lemma_lookup::<K>(b, k);
    match pick(a, with_key(k)) {
        Some(e) => {
            assert(b.contains(e));
            lemma_lookup_some::<K>(b, e);
        },
        None => {
            match pick(b, with_key(k)) {
                Some(e) => {
                    assert(a.contains(e));
                },
                None => {},
            }
        },
    }
}

/// The first entry with a property of entries in key order is the least one that has it.
pub proof fn lemma_pick_least<K: BtreeKey>(s: Seq<KV>, f: spec_fn(KV) -> bool, e: KV)
    requires
        ordered::<K>(s),
        s.contains(e),
        f(e),
        forall|x: KV| #[trigger] s.contains(x) && f(x) ==> !K::lt(x.key, e.key),
    ensures
        pick(s, f) == Some(e),
{
    let i = choose|i: int| 0 <= i < s.len() && s[i] == e;
    let r = lemma_pick_some(s, f, i);
    if r < i {
        assert(s.contains(s[r]));
        assert(K::lt(s[r].key, s[i].key));
    }
}

/// What the first entry with a property is.
pub proof fn lemma_pick_known<K: BtreeKey>(s: Seq<KV>, f: spec_fn(KV) -> bool)
    requires
        ordered::<K>(s),
    ensures
        pick(s, f) matches Some(e) ==> s.contains(e) && f(e) && forall|x: KV| #[trigger]
            s.contains(x) && f(x) ==> !K::lt(x.key, e.key),
        pick(s, f) is None ==> forall|x: KV| #[trigger] s.contains(x) ==> !f(x),
{
    if exists|i: int| is_first(s, f, i) {
        let i = choose|i: int| is_first(s, f, i);
        assert(s.contains(s[i]));
        assert forall|x: KV| #[trigger] s.contains(x) && f(x) implies !K::lt(x.key, s[i].key) by {
            let j = choose|j: int| 0 <= j < s.len() && s[j] == x;
            if j < i {
                assert(!f(s[j]));
            } else if i < j {
                assert(K::lt(s[i].key, s[j].key));
                if K::lt(x.key, s[i].key) {
                    K::lemma_transitive(x.key, s[i].key, x.key);
                }
            }
            K::lemma_irreflexive(x.key);
        }
    } else {
        assert forall|x: KV| #[trigger] s.contains(x) implies !f(x) by {
            if f(x) {
                let j = choose|j: int| 0 <= j < s.len() && s[j] == x;
                let r = lemma_pick_some(s, f, j);
            }
        }
    }
}

/// The first of the entries with a property.
pub proof fn lemma_filter_first<K: BtreeKey>(s: Seq<KV>, f: spec_fn(KV) -> bool)
    requires
        ordered::<K>(s),
    ensures
        pick(s, f) == if s.filter(f).len() > 0 {
            Some(s.filter(f)[0])
        } else {
            None
        },
{
    let t = s.filter(f);
    lemma_filter_ordered::<K>(s, f);
    lemma_pick_known::<K>(s, f);
    if t.len() > 0 {
        assert(f(t[0]) && s.contains(t[0]));
        assert forall|x: KV| #[trigger] s.contains(x) && f(x) implies !K::lt(x.key, t[0].key) by {
            lemma_filter_contains(s, f, x);
            let j = choose|j: int| 0 <= j < t.len() && t[j] == x;
            K::lemma_irreflexive(x.key);
            if j > 0 {
                assert(K::lt(t[0].key, t[j].key));
                if K::lt(x.key, t[0].key) {
                    K::lemma_transitive(x.key, t[0].key, x.key);
                }
            }
        }
        lemma_pick_least::<K>(s, f, t[0]);
    } else {
        match pick(s, f) {
            Some(e) => {
                lemma_filter_contains(s, f, e);
            },
            None => {},
        }
    }
}

} // verus!
