//! Facts about trees.

use vstd::prelude::*;
use crate::btree_kvs::{id_bytes, id_of, BtreeKey, BtreeValue, Entry, EMPTY_BNODEID};
use crate::btree_node::CoreView;
use crate::tree_model::{
    above, apart, chained, distinct, first_leaf, flat, flat_all, has_id, holds, key_ok, kvs,
    leaf_place, leaves, leaves_all, names_next, node_rep, ov_ok, placed, refers, rep, reshaped,
    sorted, sound, upto, val_ok, Params, Place, Store, Tree,
};

verus! {

//==============================================================================
// Deletions from a storage
//==============================================================================

/// The members of a longer sequence.
proof fn lemma_push_set(s: Seq<u64>, x: u64)
    ensures
        s.push(x).to_set() == s.to_set().insert(x),
{
    assert forall|k: u64| s.to_set().insert(x).contains(k) implies s.push(x).to_set().contains(k) by {
        if s.to_set().contains(k) {
            let i = choose|i: int| 0 <= i < s.len() && s[i] == k;
            assert(s.push(x)[i] == k);
        } else {
            assert(s.push(x)[s.len() as int] == x);
        }
    }
    assert(s.push(x).to_set() =~= s.to_set().insert(x));
}

/// One more key is taken out of a map.
pub proof fn lemma_remove_next<A>(m: Map<u64, A>, s: Seq<u64>, x: u64)
    ensures
        m.remove_keys(s.to_set()).remove(x) == m.remove_keys(s.push(x).to_set()),
{
    lemma_push_set(s, x);
    assert(m.remove_keys(s.to_set()).remove(x) =~= m.remove_keys(s.push(x).to_set()));
}

/// One more key is taken out of a map, unless it is the one to be kept.
pub proof fn lemma_remove_but<A>(m: Map<u64, A>, s: Seq<u64>, x: u64, keep: u64)
    ensures
        m.remove_keys(s.push(x).to_set().remove(keep)) == if x == keep {
            m.remove_keys(s.to_set().remove(keep))
        } else {
            m.remove_keys(s.to_set().remove(keep)).remove(x)
        },
{
    lemma_push_set(s, x);
    assert(s.push(x).to_set().remove(keep) =~= if x == keep {
        s.to_set().remove(keep)
    } else {
        s.to_set().remove(keep).insert(x)
    });
    assert(m.remove_keys(s.to_set().remove(keep).insert(x)) =~= m.remove_keys(
        s.to_set().remove(keep),
    ).remove(x));
}

//==============================================================================
// The order of keys
//==============================================================================

/// What is above a key is above every bound that the key is above.
pub proof fn lemma_above<K: BtreeKey>(lo: Option<Seq<u8>>, b: Seq<u8>, k: Seq<u8>)
    requires
        above::<K>(lo, b),
        K::lt(b, k),
    ensures
        above::<K>(lo, k),
{
    if let Some(x) = lo {
        K::lemma_transitive(x, b, k);
    }
}

/// What does not exceed a key does not exceed the bounds of the key.
pub proof fn lemma_upto<K: BtreeKey>(hi: Option<Seq<u8>>, b: Seq<u8>, k: Seq<u8>)
    requires
        upto::<K>(hi, b),
        !K::lt(b, k),
    ensures
        upto::<K>(hi, k),
{
    if let Some(x) = hi {
        lemma_le_trans::<K>(k, b, x);
    }
}

/// Not being greater is transitive.
pub proof fn lemma_le_trans<K: BtreeKey>(a: Seq<u8>, b: Seq<u8>, c: Seq<u8>)
    requires
        !K::lt(b, a),
        !K::lt(c, b),
    ensures
        !K::lt(c, a),
{
    if K::lt(c, a) {
        K::lemma_total(a, b);
        if a != b {
            K::lemma_transitive(c, a, b);
        }
    }
}

/// Of two keys at most one is smaller.
pub proof fn lemma_lt_not_lt<K: BtreeKey>(a: Seq<u8>, b: Seq<u8>)
    requires
        K::lt(a, b),
    ensures
        !K::lt(b, a),
{
    if K::lt(b, a) {
        K::lemma_transitive(a, b, a);
        K::lemma_irreflexive(a);
    }
}

/// A key that is not greater than another is smaller than what is greater than that.
pub proof fn lemma_le_lt<K: BtreeKey>(a: Seq<u8>, b: Seq<u8>, c: Seq<u8>)
    requires
        !K::lt(b, a),
        K::lt(b, c),
    ensures
        K::lt(a, c),
{
    K::lemma_total(a, b);
    if a != b {
        K::lemma_transitive(a, b, c);
    }
}

/// A key that is smaller than another is smaller than what is not smaller than that.
pub proof fn lemma_lt_le<K: BtreeKey>(a: Seq<u8>, b: Seq<u8>, c: Seq<u8>)
    requires
        K::lt(a, b),
        !K::lt(c, b),
    ensures
        K::lt(a, c),
{
    K::lemma_total(b, c);
    if b != c {
        K::lemma_transitive(a, b, c);
    }
}

//==============================================================================
// Entries in order
//==============================================================================

pub proof fn lemma_flat_all_add(a: Seq<Tree>, b: Seq<Tree>)
    ensures
        flat_all(a + b) == flat_all(a) + flat_all(b),
    decreases b.len(),
{
    if b.len() == 0 {
        assert(a + b =~= a);
    } else {
        assert((a + b).drop_last() =~= a + b.drop_last());
        lemma_flat_all_add(a, b.drop_last());
        assert(flat_all(a + b) =~= flat_all(a) + flat_all(b));
    }
}

pub proof fn lemma_flat_all_one(k: Tree)
    ensures
        flat_all(seq![k]) == flat(k),
{
    reveal_with_fuel(flat_all, 2);
    assert(seq![k].drop_last() =~= Seq::<Tree>::empty());
    assert(flat_all(seq![k]) =~= flat(k));
}

/// The entries before, in and behind one of several trees.
pub proof fn lemma_flat_split(ks: Seq<Tree>, i: int)
    requires
        0 <= i < ks.len(),
    ensures
        flat_all(ks) == flat_all(ks.take(i)) + flat(ks[i]) + flat_all(ks.skip(i + 1)),
        flat_all(ks.take(i + 1)) == flat_all(ks.take(i)) + flat(ks[i]),
        flat_all(ks.skip(i)) == flat(ks[i]) + flat_all(ks.skip(i + 1)),
{
    lemma_flat_all_one(ks[i]);
    assert(ks.take(i + 1) =~= ks.take(i) + seq![ks[i]]);
    lemma_flat_all_add(ks.take(i), seq![ks[i]]);
    assert(ks.skip(i) =~= seq![ks[i]] + ks.skip(i + 1));
    lemma_flat_all_add(seq![ks[i]], ks.skip(i + 1));
    assert(ks =~= ks.take(i + 1) + ks.skip(i + 1));
    lemma_flat_all_add(ks.take(i + 1), ks.skip(i + 1));
}

/// An entry below several trees lies below one of them.
pub proof fn lemma_flat_all_member(ks: Seq<Tree>, j: int) -> (r: (int, int))
    requires
        0 <= j < flat_all(ks).len(),
    ensures
        0 <= r.0 < ks.len(),
        0 <= r.1 < flat(ks[r.0]).len(),
        flat(ks[r.0])[r.1] == flat_all(ks)[j],
    decreases ks.len(),
{
    let front = flat_all(ks.drop_last());
    if j < front.len() {
        lemma_flat_all_member(ks.drop_last(), j)
    } else {
        (ks.len() - 1, j - front.len())
    }
}

/// All keys of a sound tree lie between its bounds, and all values can be read.
pub proof fn lemma_flat_ok<K: BtreeKey, V: BtreeValue>(
    p: Params,
    t: Tree,
    h: nat,
    after: u64,
    lo: Option<Seq<u8>>,
    hi: Option<Seq<u8>>,
)
    requires
        sound::<K, V>(p, t, h, after, lo, hi),
    ensures
        forall|j: int|
            0 <= j < flat(t).len() ==> key_ok::<K>(p, (#[trigger] flat(t)[j]).key, lo, hi)
                && val_ok::<V>(p, flat(t)[j]),
    decreases t,
{
    if !t.leaf {
        assert forall|j: int| 0 <= j < flat(t).len() implies key_ok::<K>(
            p,
            (#[trigger] flat(t)[j]).key,
            lo,
            hi,
        ) && val_ok::<V>(p, flat(t)[j]) by {
            let (i, m) = lemma_flat_all_member(t.kids, j);
            let kid = t.kid(i);
            lemma_flat_ok::<K, V>(
                p,
                kid,
                (h - 1) as nat,
                t.after(i, after),
                t.lo(i, lo),
                t.hi(i, hi),
            );
            let e = flat(kid)[m];
            assert(key_ok::<K>(p, e.key, t.lo(i, lo), t.hi(i, hi)));
            if i > 0 {
                assert(key_ok::<K>(p, t.es[i - 1].key, lo, hi));
                lemma_above::<K>(lo, t.es[i - 1].key, e.key);
            }
            if i < t.es.len() {
                assert(key_ok::<K>(p, t.es[i].key, lo, hi));
                lemma_upto::<K>(hi, t.es[i].key, e.key);
            }
        }
    }
}

/// Sorted pieces with all keys of the first below all keys of the second.
pub proof fn lemma_sorted_add<K: BtreeKey>(a: Seq<Entry>, b: Seq<Entry>)
    requires
        sorted::<K>(a),
        sorted::<K>(b),
        forall|i: int, j: int|
            0 <= i < a.len() && 0 <= j < b.len() ==> K::lt(#[trigger] a[i].key, #[trigger] b[j].key),
    ensures
        sorted::<K>(a + b),
{
    let s = a + b;
    assert forall|i: int, j: int| 0 <= i < j < s.len() implies K::lt(
        #[trigger] s[i].key,
        #[trigger] s[j].key,
    ) by {
        if j < a.len() {
            assert(s[i] == a[i] && s[j] == a[j]);
        } else if i >= a.len() {
            assert(s[i] == b[i - a.len()] && s[j] == b[j - a.len()]);
        } else {
            assert(s[i] == a[i] && s[j] == b[j - a.len()]);
        }
    }
}

/// The keys below the first `i` children and those below the others, seen from key `i - 1`.
pub proof fn lemma_kid_keys<K: BtreeKey, V: BtreeValue>(
    p: Params,
    t: Tree,
    h: nat,
    after: u64,
    lo: Option<Seq<u8>>,
    hi: Option<Seq<u8>>,
    i: int,
)
    requires
        sound::<K, V>(p, t, h, after, lo, hi),
        !t.leaf,
        0 < i <= t.es.len(),
    ensures
        forall|j: int|
            0 <= j < flat_all(t.kids.take(i)).len() ==> !K::lt(
                t.es[i - 1].key,
                (#[trigger] flat_all(t.kids.take(i))[j]).key,
            ),
        forall|j: int|
            0 <= j < flat_all(t.kids.skip(i)).len() ==> K::lt(
                t.es[i - 1].key,
                (#[trigger] flat_all(t.kids.skip(i))[j]).key,
            ),
{
    let front = t.kids.take(i);
    let back = t.kids.skip(i);
    assert forall|j: int| 0 <= j < flat_all(front).len() implies !K::lt(
        t.es[i - 1].key,
        (#[trigger] flat_all(front)[j]).key,
    ) by {
        let (c, m) = lemma_flat_all_member(front, j);
        assert(front[c] == t.kids[c]);
        lemma_flat_ok::<K, V>(
            p,
            t.kid(c),
            (h - 1) as nat,
            t.after(c, after),
            t.lo(c, lo),
            t.hi(c, hi),
        );
        assert(flat(t.kids[c])[m] == flat_all(front)[j]);
        let k = flat_all(front)[j].key;
        assert(upto::<K>(Some(t.es[c].key), k));
        if c < i - 1 {
            assert(K::lt(t.es[c].key, t.es[i - 1].key));
            lemma_le_lt::<K>(k, t.es[c].key, t.es[i - 1].key);
            lemma_lt_not_lt::<K>(k, t.es[i - 1].key);
        }
    }
    assert forall|j: int| 0 <= j < flat_all(back).len() implies K::lt(
        t.es[i - 1].key,
        (#[trigger] flat_all(back)[j]).key,
    ) by {
        let (c, m) = lemma_flat_all_member(back, j);
        assert(back[c] == t.kids[c + i]);
        lemma_flat_ok::<K, V>(
            p,
            t.kid(c + i),
            (h - 1) as nat,
            t.after(c + i, after),
            t.lo(c + i, lo),
            t.hi(c + i, hi),
        );
        assert(flat(t.kids[c + i])[m] == flat_all(back)[j]);
        assert(above::<K>(Some(t.es[c + i - 1].key), flat_all(back)[j].key));
        if c > 0 {
            assert(K::lt(t.es[i - 1].key, t.es[c + i - 1].key));
            K::lemma_transitive(t.es[i - 1].key, t.es[c + i - 1].key, flat_all(back)[j].key);
        }
    }
}

/// The entries of a sound tree are in order.
pub proof fn lemma_flat_sorted<K: BtreeKey, V: BtreeValue>(
    p: Params,
    t: Tree,
    h: nat,
    after: u64,
    lo: Option<Seq<u8>>,
    hi: Option<Seq<u8>>,
)
    requires
        sound::<K, V>(p, t, h, after, lo, hi),
    ensures
        sorted::<K>(flat(t)),
    decreases t, 1nat, 0nat,
{
    if !t.leaf {
        lemma_front_sorted::<K, V>(p, t, h, after, lo, hi, t.kids.len());
        assert(t.kids.take(t.kids.len() as int) =~= t.kids);
    }
}

proof fn lemma_front_sorted<K: BtreeKey, V: BtreeValue>(
    p: Params,
    t: Tree,
    h: nat,
    after: u64,
    lo: Option<Seq<u8>>,
    hi: Option<Seq<u8>>,
    n: nat,
)
    requires
        sound::<K, V>(p, t, h, after, lo, hi),
        !t.leaf,
        n <= t.kids.len(),
    ensures
        sorted::<K>(flat_all(t.kids.take(n as int))),
    decreases t, 0nat, n,
{
    if n > 0 {
        let i = n - 1;
        lemma_front_sorted::<K, V>(p, t, h, after, lo, hi, i as nat);
        lemma_flat_split(t.kids, i);
        lemma_flat_sorted::<K, V>(
            p,
            t.kid(i),
            (h - 1) as nat,
            t.after(i, after),
            t.lo(i, lo),
            t.hi(i, hi),
        );
        if i > 0 {
            lemma_kid_keys::<K, V>(p, t, h, after, lo, hi, i);
            lemma_flat_ok::<K, V>(
                p,
                t.kid(i),
                (h - 1) as nat,
                t.after(i, after),
                t.lo(i, lo),
                t.hi(i, hi),
            );
            let a = flat_all(t.kids.take(i));
            let b = flat(t.kids[i]);
            assert forall|x: int, y: int| 0 <= x < a.len() && 0 <= y < b.len() implies K::lt(
                #[trigger] a[x].key,
                #[trigger] b[y].key,
            ) by {
                assert(above::<K>(t.lo(i, lo), b[y].key));
                lemma_le_lt::<K>(a[x].key, t.es[i - 1].key, b[y].key);
            }
        }
        lemma_sorted_add::<K>(flat_all(t.kids.take(i)), flat(t.kids[i]));
    } else {
        assert(flat_all(t.kids.take(0)) =~= Seq::<Entry>::empty());
    }
}

//==============================================================================
// Bounds
//==============================================================================

/// Bound `a` is not above bound `b`, as lower bounds.
pub open spec fn lo_le<K: BtreeKey>(a: Option<Seq<u8>>, b: Option<Seq<u8>>) -> bool {
    match (a, b) {
        (None, _) => true,
        (Some(x), Some(y)) => !K::lt(y, x),
        (Some(x), None) => false,
    }
}

/// Bound `a` is not above bound `b`, as upper bounds.
pub open spec fn hi_le<K: BtreeKey>(a: Option<Seq<u8>>, b: Option<Seq<u8>>) -> bool {
    match (a, b) {
        (_, None) => true,
        (Some(x), Some(y)) => !K::lt(y, x),
        (None, Some(y)) => false,
    }
}

/// A key stays between wider bounds.
pub proof fn lemma_widen_key<K: BtreeKey>(
    k: Seq<u8>,
    lo: Option<Seq<u8>>,
    hi: Option<Seq<u8>>,
    lo2: Option<Seq<u8>>,
    hi2: Option<Seq<u8>>,
)
    requires
        above::<K>(lo, k),
        upto::<K>(hi, k),
        lo_le::<K>(lo2, lo),
        hi_le::<K>(hi, hi2),
    ensures
        above::<K>(lo2, k),
        upto::<K>(hi2, k),
{
    if let Some(x) = lo2 {
        lemma_le_lt::<K>(x, lo->0, k);
    }
    if let Some(x) = hi2 {
        lemma_le_trans::<K>(k, hi->0, x);
    }
}

/// A sound tree stays sound between wider bounds.
pub proof fn lemma_widen<K: BtreeKey, V: BtreeValue>(
    p: Params,
    t: Tree,
    h: nat,
    after: u64,
    lo: Option<Seq<u8>>,
    hi: Option<Seq<u8>>,
    lo2: Option<Seq<u8>>,
    hi2: Option<Seq<u8>>,
)
    requires
        sound::<K, V>(p, t, h, after, lo, hi),
        lo_le::<K>(lo2, lo),
        hi_le::<K>(hi, hi2),
    ensures
        sound::<K, V>(p, t, h, after, lo2, hi2),
    decreases t,
{
    assert forall|i: int| 0 <= i < t.es.len() implies key_ok::<K>(
        p,
        #[trigger] t.es[i].key,
        lo2,
        hi2,
    ) by {
        assert(key_ok::<K>(p, t.es[i].key, lo, hi));
        lemma_widen_key::<K>(t.es[i].key, lo, hi, lo2, hi2);
    }
    assert forall|i: int| 0 <= i < t.kids.len() implies lo_le::<K>(t.lo(i, lo2), t.lo(i, lo))
        && hi_le::<K>(#[trigger] t.hi(i, hi), t.hi(i, hi2)) by {
        if i > 0 {
            K::lemma_irreflexive(t.es[i - 1].key);
        }
        if i < t.es.len() {
            K::lemma_irreflexive(t.es[i].key);
        }
    }
    assert forall|i: int| 0 <= i < t.kids.len() implies sound::<K, V>(
        p,
        #[trigger] t.kid(i),
        (h - 1) as nat,
        t.after(i, after),
        t.lo(i, lo2),
        t.hi(i, hi2),
    ) by {
        lemma_widen::<K, V>(
            p,
            t.kid(i),
            (h - 1) as nat,
            t.after(i, after),
            t.lo(i, lo),
            t.hi(i, hi),
            t.lo(i, lo2),
            t.hi(i, hi2),
        );
    }
}

//==============================================================================
// Ids
//==============================================================================

/// A tree stays stored where none of its nodes changes.
pub proof fn lemma_rep_frame(
    p: Params,
    nodes: Map<u64, CoreView>,
    nodes2: Map<u64, CoreView>,
    t: Tree,
)
    requires
        rep(p, nodes, t),
        forall|x: u64| #[trigger] has_id(t, x) ==> nodes2.contains_key(x) && nodes2[x] == nodes[x],
    ensures
        rep(p, nodes2, t),
    decreases t,
{
    assert(has_id(t, t.id));
    assert forall|i: int| 0 <= i < t.kids.len() implies rep(p, nodes2, #[trigger] t.kid(i)) by {
        assert forall|x: u64| #[trigger] has_id(t.kid(i), x) implies nodes2.contains_key(x)
            && nodes2[x] == nodes[x] by {
            assert(has_id(t, x));
        }
        lemma_rep_frame(p, nodes, nodes2, t.kid(i));
    }
}

/// Every node of a stored tree is stored.
pub proof fn lemma_rep_has(p: Params, nodes: Map<u64, CoreView>, t: Tree, x: u64)
    requires
        rep(p, nodes, t),
        has_id(t, x),
    ensures
        nodes.contains_key(x),
        x != EMPTY_BNODEID,
    decreases t,
{
    if t.id != x {
        let i = choose|i: int| 0 <= i < t.kids.len() && has_id(#[trigger] t.kid(i), x);
        lemma_rep_has(p, nodes, t.kid(i), x);
    }
}

/// A node below a child is a node of the tree.
pub proof fn lemma_kid_id(t: Tree, i: int, x: u64)
    requires
        0 <= i < t.kids.len(),
        has_id(t.kids[i], x),
    ensures
        has_id(t, x),
{
    assert(has_id(t.kid(i), x));
}

//==============================================================================
// Overflow records
//==============================================================================

pub proof fn lemma_refers_add(a: Seq<Entry>, b: Seq<Entry>, x: u64)
    ensures
        refers(a + b, x) == (refers(a, x) || refers(b, x)),
{
    let s = a + b;
    if refers(a, x) {
        let i = choose|i: int| 0 <= i < a.len() && (#[trigger] a[i]).overflow && id_of(a[i].val) == x;
        assert(s[i] == a[i]);
    }
    if refers(b, x) {
        let i = choose|i: int| 0 <= i < b.len() && (#[trigger] b[i]).overflow && id_of(b[i].val) == x;
        assert(s[i + a.len()] == b[i]);
    }
    if refers(s, x) {
        let i = choose|i: int| 0 <= i < s.len() && (#[trigger] s[i]).overflow && id_of(s[i].val) == x;
        if i < a.len() {
            assert(s[i] == a[i]);
        } else {
            assert(s[i] == b[i - a.len()]);
        }
    }
}

/// Two pieces have their own overflow records.
pub proof fn lemma_ov_add<V: BtreeValue>(ov: Map<u64, Seq<u8>>, a: Seq<Entry>, b: Seq<Entry>)
    ensures
        ov_ok::<V>(ov, a + b) == (ov_ok::<V>(ov, a) && ov_ok::<V>(ov, b) && forall|x: u64|
            !(#[trigger] refers(a, x) && #[trigger] refers(b, x))),
{
    let s = a + b;
    if ov_ok::<V>(ov, s) {
        assert forall|i: int| 0 <= i < a.len() && (#[trigger] a[i]).overflow implies ov.contains_key(
            id_of(a[i].val),
        ) && V::valid(ov[id_of(a[i].val)]) by {
            assert(s[i] == a[i]);
        }
        assert forall|i: int, j: int|
            0 <= i < j < a.len() && (#[trigger] a[i]).overflow && (
            #[trigger] a[j]).overflow implies id_of(a[i].val) != id_of(a[j].val) by {
            assert(s[i] == a[i] && s[j] == a[j]);
        }
        assert forall|i: int| 0 <= i < b.len() && (#[trigger] b[i]).overflow implies ov.contains_key(
            id_of(b[i].val),
        ) && V::valid(ov[id_of(b[i].val)]) by {
            assert(s[i + a.len()] == b[i]);
        }
        assert forall|i: int, j: int|
            0 <= i < j < b.len() && (#[trigger] b[i]).overflow && (
            #[trigger] b[j]).overflow implies id_of(b[i].val) != id_of(b[j].val) by {
            assert(s[i + a.len()] == b[i] && s[j + a.len()] == b[j]);
        }
        assert forall|x: u64| !(#[trigger] refers(a, x) && #[trigger] refers(b, x)) by {
            if refers(a, x) && refers(b, x) {
                let i = choose|i: int|
                    0 <= i < a.len() && (#[trigger] a[i]).overflow && id_of(a[i].val) == x;
                let j = choose|j: int|
                    0 <= j < b.len() && (#[trigger] b[j]).overflow && id_of(b[j].val) == x;
                assert(s[i] == a[i] && s[j + a.len()] == b[j]);
            }
        }
    }
    if ov_ok::<V>(ov, a) && ov_ok::<V>(ov, b) && forall|x: u64|
        !(#[trigger] refers(a, x) && #[trigger] refers(b, x)) {
        assert forall|i: int, j: int|
            0 <= i < j < s.len() && (#[trigger] s[i]).overflow && (
            #[trigger] s[j]).overflow implies id_of(s[i].val) != id_of(s[j].val) by {
            if j < a.len() {
                assert(s[i] == a[i] && s[j] == a[j]);
            } else if i >= a.len() {
                assert(s[i] == b[i - a.len()] && s[j] == b[j - a.len()]);
            } else {
                assert(s[i] == a[i] && s[j] == b[j - a.len()]);
                assert(refers(a, id_of(s[i].val)));
                assert(refers(b, id_of(s[j].val)));
            }
        }
        assert forall|i: int| 0 <= i < s.len() && (#[trigger] s[i]).overflow implies ov.contains_key(
            id_of(s[i].val),
        ) && V::valid(ov[id_of(s[i].val)]) by {
            if i < a.len() {
                assert(s[i] == a[i]);
            } else {
                assert(s[i] == b[i - a.len()]);
            }
        }
    }
}

/// Entries keep what they hold where their overflow records do not change.
pub proof fn lemma_ov_frame<V: BtreeValue>(
    ov: Map<u64, Seq<u8>>,
    ov2: Map<u64, Seq<u8>>,
    es: Seq<Entry>,
)
    requires
        ov_ok::<V>(ov, es),
        forall|x: u64| #[trigger] refers(es, x) ==> ov2.contains_key(x) && ov2[x] == ov[x],
    ensures
        ov_ok::<V>(ov2, es),
        kvs(ov2, es) == kvs(ov, es),
{
    assert forall|i: int| 0 <= i < es.len() && (#[trigger] es[i]).overflow implies ov2.contains_key(
        id_of(es[i].val),
    ) && ov2[id_of(es[i].val)] == ov[id_of(es[i].val)] by {
        assert(refers(es, id_of(es[i].val)));
    }
    assert(kvs(ov2, es) =~= kvs(ov, es));
}

pub proof fn lemma_kvs_add(ov: Map<u64, Seq<u8>>, a: Seq<Entry>, b: Seq<Entry>)
    ensures
        kvs(ov, a + b) == kvs(ov, a) + kvs(ov, b),
{
    assert(kvs(ov, a + b) =~= kvs(ov, a) + kvs(ov, b));
}

/// The middle one of three pieces has been replaced, with its own overflow records.
pub proof fn lemma_ov_replace<V: BtreeValue>(
    ov: Map<u64, Seq<u8>>,
    ov2: Map<u64, Seq<u8>>,
    a: Seq<Entry>,
    m: Seq<Entry>,
    m2: Seq<Entry>,
    b: Seq<Entry>,
)
    requires
        ov_ok::<V>(ov, a + m + b),
        ov_ok::<V>(ov2, m2),
        forall|x: u64| #[trigger] refers(m2, x) ==> refers(m, x) || !ov.contains_key(x),
        forall|x: u64| #[trigger]
            ov.contains_key(x) && !refers(m, x) ==> ov2.contains_key(x) && ov2[x] == ov[x],
    ensures
        ov_ok::<V>(ov, m),
        ov_ok::<V>(ov2, a + m2 + b),
        kvs(ov2, a) == kvs(ov, a),
        kvs(ov2, b) == kvs(ov, b),
        kvs(ov2, a + m2 + b) == kvs(ov, a) + kvs(ov2, m2) + kvs(ov, b),
        kvs(ov, a + m + b) == kvs(ov, a) + kvs(ov, m) + kvs(ov, b),
        forall|x: u64| #[trigger]
            refers(a + m2 + b, x) ==> refers(a + m + b, x) || !ov.contains_key(x),
        forall|x: u64| #[trigger]
            ov.contains_key(x) && !refers(a + m + b, x) ==> ov2.contains_key(x) && ov2[x] == ov[x],
{
    lemma_ov_add::<V>(ov, a, m);
    lemma_ov_add::<V>(ov, a + m, b);
    assert forall|x: u64| #[trigger] refers(a, x) implies ov.contains_key(x) && !refers(m, x) by {
        let i = choose|i: int| 0 <= i < a.len() && (#[trigger] a[i]).overflow && id_of(a[i].val) == x;
    }
    assert forall|x: u64| #[trigger] refers(b, x) implies ov.contains_key(x) && !refers(m, x)
        && !refers(a, x) by {
        let i = choose|i: int| 0 <= i < b.len() && (#[trigger] b[i]).overflow && id_of(b[i].val) == x;
        lemma_refers_add(a, m, x);
    }
    lemma_ov_frame::<V>(ov, ov2, a);
    lemma_ov_frame::<V>(ov, ov2, b);
    lemma_ov_add::<V>(ov2, a, m2);
    assert forall|x: u64| !(#[trigger] refers(a + m2, x) && #[trigger] refers(b, x)) by {
        lemma_refers_add(a, m2, x);
    }
    lemma_ov_add::<V>(ov2, a + m2, b);
    lemma_kvs_add(ov2, a, m2);
    lemma_kvs_add(ov2, a + m2, b);
    lemma_kvs_add(ov, a, m);
    lemma_kvs_add(ov, a + m, b);
    assert forall|x: u64| #[trigger] refers(a + m2 + b, x) implies refers(a + m + b, x)
        || !ov.contains_key(x) by {
        lemma_refers_add(a, m2, x);
        lemma_refers_add(a + m2, b, x);
        lemma_refers_add(a, m, x);
        lemma_refers_add(a + m, b, x);
    }
    assert forall|x: u64| #[trigger] ov.contains_key(x) && !refers(a + m + b, x) implies ov2.contains_key(
        x,
    ) && ov2[x] == ov[x] by {
        lemma_refers_add(a, m, x);
        lemma_refers_add(a + m, b, x);
    }
}

//==============================================================================
// Replacing a child
//==============================================================================

/// The facts about a child that follow from those about its parent.
pub proof fn lemma_kid_holds<K: BtreeKey, V: BtreeValue>(
    p: Params,
    st: Store,
    t: Tree,
    h: nat,
    after: u64,
    lo: Option<Seq<u8>>,
    hi: Option<Seq<u8>>,
    i: int,
)
    requires
        holds::<K, V>(p, st, t, h, after, lo, hi),
        0 <= i < t.kids.len(),
    ensures
        h > 0,
        !t.leaf,
        holds::<K, V>(
            p,
            st,
            t.kids[i],
            (h - 1) as nat,
            t.after(i, after),
            t.lo(i, lo),
            t.hi(i, hi),
        ),
        t.kids[i].id != t.id,
{
    let k = t.kid(i);
    assert(has_id(k, k.id));
    lemma_flat_split(t.kids, i);
    let a = flat_all(t.kids.take(i));
    let b = flat_all(t.kids.skip(i + 1));
    lemma_ov_add::<V>(st.ov, a + flat(k), b);
    lemma_ov_add::<V>(st.ov, a, flat(k));
}

/// A child has been reshaped, and with it its parent.
pub proof fn lemma_replace_kid<K: BtreeKey, V: BtreeValue>(
    p: Params,
    st: Store,
    t: Tree,
    h: nat,
    after: u64,
    lo: Option<Seq<u8>>,
    hi: Option<Seq<u8>>,
    i: int,
    st2: Store,
    k2: Tree,
)
    requires
        holds::<K, V>(p, st, t, h, after, lo, hi),
        0 <= i < t.kids.len(),
        reshaped(st, t.kids[i], st2, k2),
        holds::<K, V>(
            p,
            st2,
            k2,
            (h - 1) as nat,
            t.after(i, after),
            t.lo(i, lo),
            t.hi(i, hi),
        ),
    ensures
        holds::<K, V>(p, st2, t.with_kid(i, k2), h, after, lo, hi),
        reshaped(st, t, st2, t.with_kid(i, k2)),
        ({
            let a = flat_all(t.kids.take(i));
            let b = flat_all(t.kids.skip(i + 1));
            &&& kvs(st.ov, flat(t)) == kvs(st.ov, a) + kvs(st.ov, flat(t.kids[i])) + kvs(st.ov, b)
            &&& kvs(st2.ov, flat(t.with_kid(i, k2))) == kvs(st.ov, a) + kvs(st2.ov, flat(k2))
                + kvs(st.ov, b)
        }),
{
    let t2 = t.with_kid(i, k2);
    let k = t.kid(i);
    lemma_kid_holds::<K, V>(p, st, t, h, after, lo, hi, i);
    // entries and overflow records
    let a = flat_all(t.kids.take(i));
    let b = flat_all(t.kids.skip(i + 1));
    lemma_flat_split(t.kids, i);
    lemma_flat_split(t2.kids, i);
    assert(t2.kids.take(i) =~= t.kids.take(i));
    assert(t2.kids.skip(i + 1) =~= t.kids.skip(i + 1));
    lemma_ov_replace::<V>(st.ov, st2.ov, a, flat(k), flat(k2), b);
    // ids
    assert(!has_id(k, t.id));
    assert(st.nodes.contains_key(t.id));
    assert(!has_id(k2, t.id));
    assert(st2.nodes[t.id] == st.nodes[t.id]);
    assert forall|j: int| 0 <= j < t2.kids.len() && j != i implies {
        let o = #[trigger] t2.kid(j);
        apart(o, k2) && rep(p, st2.nodes, o)
    } by {
        let o = t.kid(j);
        assert forall|x: u64| has_id(o, x) implies st.nodes.contains_key(x) && !has_id(k, x) by {
            lemma_rep_has(p, st.nodes, o, x);
            assert(apart(t.kid(i), t.kid(j)));
        }
        assert(rep(p, st.nodes, o));
        lemma_rep_frame(p, st.nodes, st2.nodes, o);
    }
    assert forall|m: int, n: int|
        0 <= m < t2.kids.len() && 0 <= n < t2.kids.len() && m != n implies apart(
        #[trigger] t2.kid(m),
        #[trigger] t2.kid(n),
    ) by {
        assert(apart(t.kid(m), t.kid(n)));
    }
    assert forall|m: int| 0 <= m < t2.kids.len() implies distinct(#[trigger] t2.kid(m)) && !has_id(
        t2.kid(m),
        t2.id,
    ) && rep(p, st2.nodes, t2.kid(m)) by {
        if m != i {
            assert(distinct(t.kid(m)));
        }
    }
    assert(t2.edge_id() == t.edge_id());
    assert(node_rep(p, st2.nodes, t2));
    // search tree
    assert forall|j: int| 0 <= j < t2.es.len() implies {
        &&& (#[trigger] t2.es[j]).val == id_bytes(t2.kids[j].id)
        &&& !t2.es[j].overflow
        &&& !t2.kids[j].edge
    } by {
        assert(t.es[j] == t2.es[j]);
    }
    assert forall|j: int| 0 <= j < t2.kids.len() implies sound::<K, V>(
        p,
        #[trigger] t2.kid(j),
        (h - 1) as nat,
        t2.after(j, after),
        t2.lo(j, lo),
        t2.hi(j, hi),
    ) by {
        assert(t2.after(j, after) == t.after(j, after));
        if j != i {
            assert(t2.kid(j) == t.kid(j));
        }
    }
    // what has changed
    assert forall|x: u64| #[trigger] has_id(t2, x) implies has_id(t, x) || !st.nodes.contains_key(
        x,
    ) by {
        if x != t2.id {
            let j = choose|j: int| 0 <= j < t2.kids.len() && has_id(#[trigger] t2.kid(j), x);
            if j == i {
                if has_id(k, x) {
                    lemma_kid_id(t, i, x);
                }
            } else {
                lemma_kid_id(t, j, x);
            }
        }
    }
    assert forall|x: u64| #[trigger] st.nodes.contains_key(x) && !has_id(t, x) implies st2.nodes.contains_key(
        x,
    ) && st2.nodes[x] == st.nodes[x] by {
        if has_id(k, x) {
            lemma_kid_id(t, i, x);
        }
    }
}

/// Reshaping in two steps.
pub proof fn lemma_reshaped_trans(st: Store, t: Tree, st2: Store, t2: Tree, st3: Store, t3: Tree)
    requires
        reshaped(st, t, st2, t2),
        reshaped(st2, t2, st3, t3),
    ensures
        reshaped(st, t, st3, t3),
{
}

//==============================================================================
// Leaves
//==============================================================================

pub proof fn lemma_leaves_all_add(a: Seq<Tree>, b: Seq<Tree>)
    ensures
        leaves_all(a + b) == leaves_all(a) + leaves_all(b),
    decreases b.len(),
{
    if b.len() == 0 {
        assert(a + b =~= a);
        assert(leaves_all(a + b) =~= leaves_all(a) + leaves_all(b));
    } else {
        assert((a + b).drop_last() =~= a + b.drop_last());
        lemma_leaves_all_add(a, b.drop_last());
        assert(leaves_all(a + b) =~= leaves_all(a) + leaves_all(b));
    }
}

pub proof fn lemma_leaves_split(ks: Seq<Tree>, i: int)
    requires
        0 <= i < ks.len(),
    ensures
        leaves_all(ks) == leaves_all(ks.take(i)) + leaves(ks[i]) + leaves_all(ks.skip(i + 1)),
        leaves_all(ks.take(i + 1)) == leaves_all(ks.take(i)) + leaves(ks[i]),
{
    let one = seq![ks[i]];
    assert(leaves_all(one) =~= leaves(ks[i])) by {
        reveal_with_fuel(leaves_all, 2);
        assert(one.drop_last() =~= Seq::<Tree>::empty());
    }
    assert(ks.take(i + 1) =~= ks.take(i) + one);
    lemma_leaves_all_add(ks.take(i), one);
    assert(ks =~= ks.take(i + 1) + ks.skip(i + 1));
    lemma_leaves_all_add(ks.take(i + 1), ks.skip(i + 1));
}

/// A leaf below several trees lies below one of them.
pub proof fn lemma_leaves_all_member(ks: Seq<Tree>, j: int) -> (r: (int, int))
    requires
        0 <= j < leaves_all(ks).len(),
    ensures
        0 <= r.0 < ks.len(),
        0 <= r.1 < leaves(ks[r.0]).len(),
        leaves(ks[r.0])[r.1] == leaves_all(ks)[j],
    decreases ks.len(),
{
    let front = leaves_all(ks.drop_last());
    if j < front.len() {
        lemma_leaves_all_member(ks.drop_last(), j)
    } else {
        (ks.len() - 1, j - front.len())
    }
}

proof fn lemma_chained_add(a: Seq<Tree>, b: Seq<Tree>, after: u64)
    requires
        b.len() > 0,
        chained(a, b[0].id),
        chained(b, after),
    ensures
        chained(a + b, after),
{
    let s = a + b;
    assert forall|j: int| 0 <= j < s.len() implies #[trigger] names_next(s, j, after) by {
        if j < a.len() {
            assert(names_next(a, j, b[0].id));
        } else {
            assert(names_next(b, j - a.len(), after));
        }
    }
}

/// The leaves of a sound tree are chained.
pub proof fn lemma_leaves_chained<K: BtreeKey, V: BtreeValue>(p: Params, w: Place)
    requires
        sound::<K, V>(p, w.t, w.h, w.after, w.lo, w.hi),
    ensures
        leaves(w.t).len() > 0,
        leaves(w.t)[0].id == first_leaf(w.t),
        chained(leaves(w.t), w.after),
    decreases w.t, 1nat, 0nat,
{
    if !w.t.leaf {
        lemma_front_chained::<K, V>(p, w, w.t.kids.len());
        assert(w.t.kids.take(w.t.kids.len() as int) =~= w.t.kids);
    }
}

proof fn lemma_front_chained<K: BtreeKey, V: BtreeValue>(p: Params, w: Place, n: nat)
    requires
        sound::<K, V>(p, w.t, w.h, w.after, w.lo, w.hi),
        !w.t.leaf,
        0 < n <= w.t.kids.len(),
    ensures
        leaves_all(w.t.kids.take(n as int)).len() > 0,
        leaves_all(w.t.kids.take(n as int))[0].id == first_leaf(w.t.kids[0]),
        chained(leaves_all(w.t.kids.take(n as int)), w.t.after(n - 1, w.after)),
    decreases w.t, 0nat, n,
{
    let i = n - 1;
    let kid = w.t.kid(i);
    lemma_leaves_chained::<K, V>(p, w.kid(i));
    lemma_leaves_split(w.t.kids, i);
    if i > 0 {
        lemma_front_chained::<K, V>(p, w, i as nat);
        lemma_chained_add(leaves_all(w.t.kids.take(i)), leaves(kid), w.t.after(i, w.after));
    } else {
        assert(leaves_all(w.t.kids.take(0)) =~= Seq::<Tree>::empty());
        assert(leaves_all(w.t.kids.take(1)) =~= leaves(kid));
    }
}

/// The leaves hold all entries.
pub proof fn lemma_leaves_flat(t: Tree)
    ensures
        flat_all(leaves(t)) == flat(t),
    decreases t, 1nat,
{
    if t.leaf {
        lemma_flat_all_one(t);
    } else {
        lemma_leaves_all_flat(t.kids);
    }
}

pub proof fn lemma_leaves_all_flat(ks: Seq<Tree>)
    ensures
        flat_all(leaves_all(ks)) == flat_all(ks),
    decreases ks, 0nat,
{
    if ks.len() > 0 {
        lemma_leaves_all_flat(ks.drop_last());
        lemma_leaves_flat(ks.last());
        lemma_flat_all_add(leaves_all(ks.drop_last()), leaves(ks.last()));
    } else {
        assert(leaves_all(ks) =~= Seq::<Tree>::empty());
    }
}

/// Each leaf of a stored tree is stored.
pub proof fn lemma_leaf_placed<K: BtreeKey, V: BtreeValue>(p: Params, st: Store, w: Place, j: int)
    requires
        placed::<K, V>(p, st, w),
        0 <= j < leaves(w.t).len(),
    ensures
        placed::<K, V>(p, st, leaf_place(leaves(w.t)[j])),
        leaves(w.t)[j].leaf,
    decreases w.t,
{
    if w.t.leaf {
        assert(leaves(w.t)[j] == w.t);
        lemma_widen::<K, V>(p, w.t, w.h, w.after, w.lo, w.hi, None, None);
    } else {
        let (i, m) = lemma_leaves_all_member(w.t.kids, j);
        lemma_kid_holds::<K, V>(p, st, w.t, w.h, w.after, w.lo, w.hi, i);
        lemma_leaf_placed::<K, V>(p, st, w.kid(i), m);
    }
}

} // verus!
