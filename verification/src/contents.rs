//! Keys and values in key order, as plain sequences.

use vstd::prelude::*;
use crate::btree_kvs::BtreeKey;
use crate::tree_model::KV;

verus! {

/// The keys are strictly increasing.
pub open spec fn ordered<K: BtreeKey>(s: Seq<KV>) -> bool {
    forall|i: int, j: int| 0 <= i < j < s.len() ==> K::lt(#[trigger] s[i].key, #[trigger] s[j].key)
}

/// Entry `i` is the first one with the property.
pub open spec fn is_first(s: Seq<KV>, f: spec_fn(KV) -> bool, i: int) -> bool {
    &&& 0 <= i < s.len()
    &&& f(s[i])
    &&& forall|j: int| 0 <= j < i ==> !f(#[trigger] s[j])
}

/// The first entry with a property.
pub open spec fn pick(s: Seq<KV>, f: spec_fn(KV) -> bool) -> Option<KV> {
    if exists|i: int| is_first(s, f, i) {
        Some(s[choose|i: int| is_first(s, f, i)])
    } else {
        None
    }
}

/// The entry has the key.
pub open spec fn with_key(k: Seq<u8>) -> spec_fn(KV) -> bool {
    |e: KV| e.key == k
}

/// The entry has a key that does not lie before `k`, and is not `k` unless that is included.
pub open spec fn from_key<K: BtreeKey>(k: Seq<u8>, incl: bool) -> spec_fn(KV) -> bool {
    |e: KV| K::lt(k, e.key) || incl && e.key == k
}

/// The value that belongs to a key.
pub open spec fn lookup(s: Seq<KV>, k: Seq<u8>) -> Option<Seq<u8>> {
    match pick(s, with_key(k)) {
        Some(e) => Some(e.val),
        None => None,
    }
}

pub proof fn lemma_pick(s: Seq<KV>, f: spec_fn(KV) -> bool, i: int)
    requires
        is_first(s, f, i),
    ensures
        pick(s, f) == Some(s[i]),
{
    let j = choose|j: int| is_first(s, f, j);
    assert(is_first(s, f, j));
    if i < j {
        assert(!f(s[i]));
    } else if j < i {
        assert(!f(s[j]));
    }
}

/// Where some entry has a property there is a first one.
pub proof fn lemma_pick_some(s: Seq<KV>, f: spec_fn(KV) -> bool, i: int) -> (r: int)
    requires
        0 <= i < s.len(),
        f(s[i]),
    ensures
        r <= i,
        is_first(s, f, r),
        pick(s, f) == Some(s[r]),
    decreases i,
{
    if exists|j: int| 0 <= j < i && f(#[trigger] s[j]) {
        let j = choose|j: int| 0 <= j < i && f(#[trigger] s[j]);
        lemma_pick_some(s, f, j)
    } else {
        assert(is_first(s, f, i));
        lemma_pick(s, f, i);
        i
    }
}

pub proof fn lemma_pick_none(s: Seq<KV>, f: spec_fn(KV) -> bool)
    requires
        forall|i: int| 0 <= i < s.len() ==> !f(#[trigger] s[i]),
    ensures
        pick(s, f) is None,
{
}

/// The first entry of two pieces is in the first piece if it is there at all.
pub proof fn lemma_pick_add(a: Seq<KV>, b: Seq<KV>, f: spec_fn(KV) -> bool)
    ensures
        pick(a + b, f) == if pick(a, f) is Some {
            pick(a, f)
        } else {
            pick(b, f)
        },
{
    let s = a + b;
    if exists|i: int| is_first(a, f, i) {
        let i = choose|i: int| is_first(a, f, i);
        assert(is_first(s, f, i)) by {
            assert forall|j: int| 0 <= j < i implies !f(#[trigger] s[j]) by {
                assert(s[j] == a[j]);
            }
        }
        lemma_pick(s, f, i);
        lemma_pick(a, f, i);
    } else {
        assert forall|i: int| 0 <= i < a.len() implies !f(#[trigger] a[i]) by {
            if f(a[i]) {
                let r = lemma_pick_some(a, f, i);
            }
        }
        if exists|i: int| is_first(b, f, i) {
            let i = choose|i: int| is_first(b, f, i);
            assert(is_first(s, f, i + a.len())) by {
                assert forall|j: int| 0 <= j < i + a.len() implies !f(#[trigger] s[j]) by {
                    if j < a.len() {
                        assert(s[j] == a[j]);
                    } else {
                        assert(s[j] == b[j - a.len()]);
                    }
                }
            }
            lemma_pick(s, f, i + a.len());
            lemma_pick(b, f, i);
        } else {
            assert forall|i: int| 0 <= i < s.len() implies !f(#[trigger] s[i]) by {
                if f(s[i]) {
                    if i < a.len() {
                        assert(s[i] == a[i]);
                    } else {
                        let r = lemma_pick_some(b, f, i - a.len());
                    }
                }
            }
        }
    }
}

/// Three pieces, of which only the middle one has entries with the property.
pub proof fn lemma_pick_middle(a: Seq<KV>, m: Seq<KV>, b: Seq<KV>, f: spec_fn(KV) -> bool)
    requires
        forall|i: int| 0 <= i < a.len() ==> !f(#[trigger] a[i]),
        forall|i: int| 0 <= i < b.len() ==> !f(#[trigger] b[i]),
    ensures
        pick(a + m + b, f) == pick(m, f),
{
    lemma_pick_add(a + m, b, f);
    lemma_pick_add(a, m, f);
    lemma_pick_none(a, f);
    lemma_pick_none(b, f);
}

//==============================================================================
// Filters
//==============================================================================

pub proof fn lemma_filter_none(s: Seq<KV>, f: spec_fn(KV) -> bool)
    requires
        forall|i: int| 0 <= i < s.len() ==> !f(#[trigger] s[i]),
    ensures
        s.filter(f) == Seq::<KV>::empty(),
    decreases s.len(),
{
    reveal(Seq::filter);
    if s.len() > 0 {
        assert(!f(s[s.len() - 1]));
        assert forall|i: int| 0 <= i < s.drop_last().len() implies !f(
            #[trigger] s.drop_last()[i],
        ) by {
            assert(s.drop_last()[i] == s[i]);
        }
        lemma_filter_none(s.drop_last(), f);
    }
    assert(s.filter(f) =~= Seq::<KV>::empty());
}

pub proof fn lemma_filter_all(s: Seq<KV>, f: spec_fn(KV) -> bool)
    requires
        forall|i: int| 0 <= i < s.len() ==> f(#[trigger] s[i]),
    ensures
        s.filter(f) == s,
    decreases s.len(),
{
    reveal(Seq::filter);
    if s.len() > 0 {
        assert(f(s[s.len() - 1]));
        assert forall|i: int| 0 <= i < s.drop_last().len() implies f(
            #[trigger] s.drop_last()[i],
        ) by {
            assert(s.drop_last()[i] == s[i]);
        }
        lemma_filter_all(s.drop_last(), f);
    }
    assert(s.filter(f) =~= s);
}

pub proof fn lemma_filter_add(a: Seq<KV>, b: Seq<KV>, f: spec_fn(KV) -> bool)
    ensures
        (a + b).filter(f) == a.filter(f) + b.filter(f),
{
    Seq::filter_distributes_over_add(a, b, f);
}

pub proof fn lemma_filter_push(s: Seq<KV>, e: KV, f: spec_fn(KV) -> bool)
    ensures
        s.push(e).filter(f) == if f(e) {
            s.filter(f).push(e)
        } else {
            s.filter(f)
        },
{
    reveal(Seq::filter);
    assert(s.push(e).drop_last() =~= s);
}

/// What is left of sorted entries is sorted.
pub proof fn lemma_filter_ordered<K: BtreeKey>(s: Seq<KV>, f: spec_fn(KV) -> bool)
    requires
        ordered::<K>(s),
    ensures
        ordered::<K>(s.filter(f)),
        forall|i: int| 0 <= i < s.filter(f).len() ==> f(#[trigger] s.filter(f)[i]) && s.contains(
            s.filter(f)[i],
        ),
    decreases s.len(),
{
    reveal(Seq::filter);
    if s.len() > 0 {
        let front = s.drop_last();
        assert(ordered::<K>(front)) by {
            assert forall|i: int, j: int| 0 <= i < j < front.len() implies K::lt(
                #[trigger] front[i].key,
                #[trigger] front[j].key,
            ) by {
                assert(front[i] == s[i] && front[j] == s[j]);
            }
        }
        lemma_filter_ordered::<K>(front, f);
        let x = front.filter(f);
        let y = s.filter(f);
        assert forall|i: int| 0 <= i < y.len() implies f(#[trigger] y[i]) && s.contains(y[i]) by {
            if i < x.len() {
                assert(y[i] == x[i]);
                let m = choose|m: int| 0 <= m < front.len() && front[m] == x[i];
                assert(s[m] == x[i]);
            } else {
                assert(y[i] == s[s.len() - 1]);
            }
        }
        assert forall|i: int, j: int| 0 <= i < j < y.len() implies K::lt(
            #[trigger] y[i].key,
            #[trigger] y[j].key,
        ) by {
            if j < x.len() {
                assert(y[i] == x[i] && y[j] == x[j]);
            } else {
                assert(y[i] == x[i]);
                let m = choose|m: int| 0 <= m < front.len() && front[m] == x[i];
                assert(s[m] == x[i]);
                assert(y[j] == s[s.len() - 1]);
            }
        }
    }
}

/// Two filters, one after the other.
pub proof fn lemma_filter_filter(
    s: Seq<KV>,
    f: spec_fn(KV) -> bool,
    g: spec_fn(KV) -> bool,
    h: spec_fn(KV) -> bool,
)
    requires
        forall|i: int| 0 <= i < s.len() ==> #[trigger] h(s[i]) == (f(s[i]) && g(s[i])),
    ensures
        s.filter(f).filter(g) == s.filter(h),
    decreases s.len(),
{
    if s.len() > 0 {
        let front = s.drop_last();
        let e = s.last();
        assert(s =~= front.push(e));
        assert forall|i: int| 0 <= i < front.len() implies #[trigger] h(front[i]) == (f(front[i])
            && g(front[i])) by {
            assert(front[i] == s[i]);
        }
        lemma_filter_filter(front, f, g, h);
        lemma_filter_push(front, e, f);
        lemma_filter_push(front, e, h);
        lemma_filter_push(front.filter(f), e, g);
        assert(h(s[s.len() - 1]) == (f(s[s.len() - 1]) && g(s[s.len() - 1])));
    } else {
        assert(s =~= Seq::<KV>::empty());
        lemma_filter_none(s, f);
        lemma_filter_none(s, h);
        lemma_filter_none(s.filter(f), g);
    }
}

/// The opposite property.
pub open spec fn not(f: spec_fn(KV) -> bool) -> spec_fn(KV) -> bool {
    |e: KV| !f(e)
}

/// An entry with a property is left by the filter, and nothing else is.
pub proof fn lemma_filter_contains(s: Seq<KV>, f: spec_fn(KV) -> bool, e: KV)
    ensures
        s.filter(f).contains(e) == (s.contains(e) && f(e)),
    decreases s.len(),
{
    reveal(Seq::filter);
    if s.len() > 0 {
        let front = s.drop_last();
        lemma_filter_contains(front, f, e);
        let x = front.filter(f);
        let y = s.filter(f);
        if s.contains(e) && f(e) {
            let i = choose|i: int| 0 <= i < s.len() && s[i] == e;
            if i < front.len() {
                assert(front[i] == e);
                let m = choose|m: int| 0 <= m < x.len() && x[m] == e;
                assert(y[m] == e);
            } else {
                assert(y[y.len() - 1] == e);
            }
        }
        if y.contains(e) {
            let m = choose|m: int| 0 <= m < y.len() && y[m] == e;
            if m < x.len() {
                assert(x[m] == e);
                let i = choose|i: int| 0 <= i < front.len() && front[i] == e;
                assert(s[i] == e);
            } else {
                assert(s[s.len() - 1] == e);
            }
        }
    }
}

/// Where nothing has a property, the filter for the opposite leaves everything.
pub proof fn lemma_filter_not(s: Seq<KV>, f: spec_fn(KV) -> bool)
    requires
        forall|i: int| 0 <= i < s.len() ==> !f(#[trigger] s[i]),
    ensures
        s.filter(not(f)) == s,
        s.filter(f) == Seq::<KV>::empty(),
{
    lemma_filter_none(s, f);
    lemma_filter_all(s, not(f));
}

pub proof fn lemma_filter_one(e: KV, f: spec_fn(KV) -> bool)
    ensures
        seq![e].filter(f) == if f(e) {
            seq![e]
        } else {
            Seq::empty()
        },
{
    if f(e) {
        lemma_filter_all(seq![e], f);
    } else {
        lemma_filter_none(seq![e], f);
    }
}

} // verus!
