//! Replacing neighbouring children by others.

use vstd::prelude::*;
use crate::btree_kvs::{id_bytes, BtreeKey, BtreeValue, Entry};
use crate::merge_lemmas::{lemma_hi_refl, sound_at};
use crate::tree_lemmas::{
    lemma_above, lemma_flat_all_add, lemma_kid_id, lemma_le_lt, lemma_rep_frame, lemma_rep_has,
    lemma_upto, lemma_widen,
};
use crate::tree_model::{
    apart, distinct, first_leaf, flat, flat_all, has_id, key_ok, node_rep, placed, rep, reshaped,
    sound, Params, Place, Store, Tree,
};

verus! {

/// The entry for a child.
pub open spec fn child_entry(key: Seq<u8>, id: u64) -> Entry {
    Entry { key, val: id_bytes(id), overflow: false }
}

/// The entries for new children, which replace those of the children from `a` to `b`.
pub open spec fn spliced_es(t: Tree, a: int, b: int, ns: Seq<Tree>, keys: Seq<Seq<u8>>) -> Seq<
    Entry,
> {
    t.es.take(a) + Seq::new(keys.len(), |i: int| child_entry(keys[i], ns[i].id)) + if b
        < t.es.len() {
        t.es.skip(b + 1)
    } else {
        Seq::empty()
    }
}

/// The tree with the children from `a` to `b` replaced by others, with the given keys.
pub open spec fn spliced(t: Tree, a: int, b: int, ns: Seq<Tree>, keys: Seq<Seq<u8>>) -> Tree {
    Tree {
        es: spliced_es(t, a, b, ns, keys),
        kids: t.kids.take(a) + ns + t.kids.skip(b + 1),
        ..t
    }
}

/// The place of new child `i`.
pub open spec fn new_place(
    w: Place,
    a: int,
    b: int,
    ns: Seq<Tree>,
    keys: Seq<Seq<u8>>,
    i: int,
) -> Place {
    Place {
        t: ns[i],
        h: (w.h - 1) as nat,
        after: if i + 1 < ns.len() {
            first_leaf(ns[i + 1])
        } else {
            w.t.after(b, w.after)
        },
        lo: if i == 0 {
            w.t.lo(a, w.lo)
        } else {
            Some(keys[i - 1])
        },
        hi: if i < keys.len() {
            Some(keys[i])
        } else {
            w.hi
        },
    }
}

/// The new children and their keys fit into the place of the old ones.
pub open spec fn splices<K: BtreeKey, V: BtreeValue>(
    p: Params,
    w: Place,
    a: int,
    b: int,
    ns: Seq<Tree>,
    keys: Seq<Seq<u8>>,
) -> bool {
    &&& 0 <= a <= b < w.t.kids.len()
    &&& ns.len() > 0
    &&& keys.len() == if b < w.t.es.len() {
        ns.len() as int
    } else {
        ns.len() - 1
    }
    &&& forall|i: int| 0 <= i < ns.len() ==> #[trigger] sound_at::<K, V>(
        p,
        new_place(w, a, b, ns, keys, i),
    )
    &&& forall|i: int|
        0 <= i < keys.len() ==> key_ok::<K>(
            p,
            #[trigger] keys[i],
            w.t.lo(a, w.lo),
            w.t.hi(b, w.hi),
        )
    &&& forall|i: int, j: int|
        0 <= i < j < keys.len() ==> K::lt(#[trigger] keys[i], #[trigger] keys[j])
    &&& forall|i: int| 0 <= i < keys.len() ==> !(#[trigger] ns[i]).edge
    &&& first_leaf(ns[0]) == first_leaf(w.t.kids[a])
}

/// The replaced children leave a search tree.
pub proof fn lemma_spliced_sound<K: BtreeKey, V: BtreeValue>(
    p: Params,
    w: Place,
    a: int,
    b: int,
    ns: Seq<Tree>,
    keys: Seq<Seq<u8>>,
)
    requires
        sound_at::<K, V>(p, w),
        !w.t.leaf,
        splices::<K, V>(p, w, a, b, ns, keys),
    ensures
        sound_at::<K, V>(p, w.with(spliced(w.t, a, b, ns, keys))),
        first_leaf(spliced(w.t, a, b, ns, keys)) == first_leaf(w.t),
{
    let t = w.t;
    let t2 = spliced(t, a, b, ns, keys);
    let nk = keys.len() as int;
    let nn = ns.len() as int;
    let lo = w.t.lo(a, w.lo);
    let hi = w.t.hi(b, w.hi);
    // which entry is which
    assert forall|i: int| 0 <= i < t2.es.len() implies #[trigger] t2.es[i] == if i < a {
        t.es[i]
    } else if i < a + nk {
        child_entry(keys[i - a], ns[i - a].id)
    } else {
        t.es[i - a - nk + b + 1]
    } by {}
    assert forall|i: int| 0 <= i < t2.kids.len() implies #[trigger] t2.kids[i] == if i < a {
        t.kids[i]
    } else if i < a + nn {
        ns[i - a]
    } else {
        t.kids[i - a - nn + b + 1]
    } by {}
    // keys
    assert forall|i: int| 0 <= i < t2.es.len() implies key_ok::<K>(
        p,
        #[trigger] t2.es[i].key,
        w.lo,
        w.hi,
    ) by {
        if i < a {
            assert(key_ok::<K>(p, t.es[i].key, w.lo, w.hi));
        } else if i < a + nk {
            let k = keys[i - a];
            assert(key_ok::<K>(p, k, lo, hi));
            if a > 0 {
                assert(key_ok::<K>(p, t.es[a - 1].key, w.lo, w.hi));
                lemma_above::<K>(w.lo, t.es[a - 1].key, k);
            }
            if b < t.es.len() {
                assert(key_ok::<K>(p, t.es[b].key, w.lo, w.hi));
                lemma_upto::<K>(w.hi, t.es[b].key, k);
            }
        } else {
            assert(key_ok::<K>(p, t.es[i - a - nk + b + 1].key, w.lo, w.hi));
        }
    }
    assert forall|i: int, j: int| 0 <= i < j < t2.es.len() implies K::lt(
        #[trigger] t2.es[i].key,
        #[trigger] t2.es[j].key,
    ) by {
        let ki = t2.es[i].key;
        let kj = t2.es[j].key;
        if i >= a && i < a + nk {
            assert(key_ok::<K>(p, keys[i - a], lo, hi));
        }
        if j >= a && j < a + nk {
            assert(key_ok::<K>(p, keys[j - a], lo, hi));
        }
        if j < a {
        } else if i < a && j < a + nk {
            if i < a - 1 {
                K::lemma_transitive(ki, t.es[a - 1].key, kj);
            }
        } else if i < a + nk && i >= a && j >= a + nk {
            lemma_le_lt::<K>(ki, t.es[b].key, kj);
        }
    }
    assert forall|i: int| 0 <= i < t2.es.len() implies {
        &&& (#[trigger] t2.es[i]).val == id_bytes(t2.kids[i].id)
        &&& !t2.es[i].overflow
        &&& !t2.kids[i].edge
    } by {
        if i < a {
            assert(t.es[i].val == id_bytes(t.kids[i].id));
        } else if i < a + nk {
            assert(!ns[i - a].edge);
        } else {
            assert(nk == nn);
            assert(t.es[i - a - nk + b + 1].val == id_bytes(t.kids[i - a - nk + b + 1].id));
        }
    }
    // children
    assert forall|i: int| 0 <= i < t2.kids.len() implies sound::<K, V>(
        p,
        #[trigger] t2.kid(i),
        (w.h - 1) as nat,
        t2.after(i, w.after),
        t2.lo(i, w.lo),
        t2.hi(i, w.hi),
    ) by {
        if i < a {
            assert(t2.kid(i) == t.kid(i));
            assert(t2.after(i, w.after) == t.after(i, w.after)) by {
                if i + 1 == a {
                    assert(t2.kids[i + 1] == ns[0]);
                } else {
                    assert(t2.kids[i + 1] == t.kids[i + 1]);
                }
            }
            assert(t2.lo(i, w.lo) == t.lo(i, w.lo));
            assert(t2.hi(i, w.hi) == t.hi(i, w.hi));
        } else if i < a + nn {
            let m = i - a;
            let q = new_place(w, a, b, ns, keys, m);
            assert(sound_at::<K, V>(p, q));
            assert(t2.kid(i) == ns[m]);
            assert(t2.after(i, w.after) == q.after) by {
                if m + 1 < nn {
                    assert(t2.kids[i + 1] == ns[m + 1]);
                } else if b + 1 < t.kids.len() {
                    assert(t2.kids[i + 1] == t.kids[b + 1]);
                }
            }
            assert(t2.lo(i, w.lo) == q.lo);
            assert(t2.hi(i, w.hi) == q.hi);
        } else {
            let m = i - a - nn + b + 1;
            assert(nk == nn);
            assert(t2.kid(i) == t.kid(m));
            assert(t2.after(i, w.after) == t.after(m, w.after)) by {
                if i + 1 < t2.kids.len() {
                    assert(t2.kids[i + 1] == t.kids[m + 1]);
                }
            }
            assert(t2.hi(i, w.hi) == t.hi(m, w.hi));
            if m == b + 1 {
                // the key before has changed
                let k = keys[nk - 1];
                assert(key_ok::<K>(p, k, lo, hi));
                assert(t2.lo(i, w.lo) == Some(k));
                lemma_hi_refl::<K>(t.hi(m, w.hi));
                lemma_widen::<K, V>(
                    p,
                    t.kid(m),
                    (w.h - 1) as nat,
                    t.after(m, w.after),
                    Some(t.es[b].key),
                    t.hi(m, w.hi),
                    Some(k),
                    t.hi(m, w.hi),
                );
            } else {
                assert(t2.lo(i, w.lo) == t.lo(m, w.lo));
            }
        }
    }
    assert(t2.kids[0] == if a == 0 {
        ns[0]
    } else {
        t.kids[0]
    });
}

/// A node below one of the children from `a` to `b`.
pub open spec fn below(t: Tree, a: int, b: int, x: u64) -> bool {
    exists|k: int| a <= k <= b && has_id(#[trigger] t.kid(k), x)
}

/// The new children have no node twice, and their nodes are old ones of the replaced children
/// or were free.
pub open spec fn fresh_pieces(st: Store, t: Tree, a: int, b: int, ns: Seq<Tree>) -> bool {
    &&& forall|i: int| 0 <= i < ns.len() ==> distinct(#[trigger] ns[i])
    &&& forall|i: int, j: int|
        0 <= i < ns.len() && 0 <= j < ns.len() && i != j ==> apart(
            #[trigger] ns[i],
            #[trigger] ns[j],
        )
    &&& forall|i: int, x: u64|
        0 <= i < ns.len() && #[trigger] has_id(ns[i], x) ==> below(t, a, b, x)
            || !st.nodes.contains_key(x)
}

/// Everything but the replaced children and their parent is as before.
pub open spec fn others_kept(st: Store, t: Tree, a: int, b: int, st2: Store) -> bool {
    forall|x: u64| #[trigger]
        st.nodes.contains_key(x) && !below(t, a, b, x) && x != t.id ==> st2.nodes.contains_key(x)
            && st2.nodes[x] == st.nodes[x]
}

/// A child that stays is stored as before and has no node in common with the new ones.
proof fn lemma_other_kid(
    p: Params,
    st: Store,
    t: Tree,
    a: int,
    b: int,
    ns: Seq<Tree>,
    st2: Store,
    m: int,
)
    requires
        rep(p, st.nodes, t),
        distinct(t),
        fresh_pieces(st, t, a, b, ns),
        others_kept(st, t, a, b, st2),
        0 <= a <= b < t.kids.len(),
        0 <= m < t.kids.len(),
        !(a <= m <= b),
    ensures
        rep(p, st2.nodes, t.kids[m]),
        forall|i: int| 0 <= i < ns.len() ==> apart(t.kids[m], #[trigger] ns[i]),
{
    let o = t.kid(m);
    assert(rep(p, st.nodes, o));
    assert forall|x: u64| #[trigger] has_id(o, x) implies st.nodes.contains_key(x) && !below(
        t,
        a,
        b,
        x,
    ) && x != t.id by {
        lemma_rep_has(p, st.nodes, o, x);
        if below(t, a, b, x) {
            let k = choose|k: int| a <= k <= b && has_id(#[trigger] t.kid(k), x);
            assert(apart(t.kid(m), t.kid(k)));
        }
        if x == t.id {
            assert(!has_id(t.kid(m), t.id));
        }
    }
    lemma_rep_frame(p, st.nodes, st2.nodes, o);
    assert forall|i: int| 0 <= i < ns.len() implies apart(o, #[trigger] ns[i]) by {
        assert forall|x: u64| !(#[trigger] has_id(o, x) && #[trigger] has_id(ns[i], x)) by {}
    }
}

/// The entries below the replaced children.
proof fn lemma_spliced_flat(t: Tree, a: int, b: int, ns: Seq<Tree>, keys: Seq<Seq<u8>>)
    requires
        !t.leaf,
        0 <= a <= b < t.kids.len(),
        flat_all(ns) == flat_all(t.kids.subrange(a, b + 1)),
    ensures
        flat(spliced(t, a, b, ns, keys)) == flat(t),
{
    let front = t.kids.take(a);
    let mid = t.kids.subrange(a, b + 1);
    let back = t.kids.skip(b + 1);
    assert(t.kids =~= front + mid + back);
    lemma_flat_all_add(front, mid);
    lemma_flat_all_add(front + mid, back);
    lemma_flat_all_add(front, ns);
    lemma_flat_all_add(front + ns, back);
}

/// No node occurs twice, and all are stored.
proof fn lemma_spliced_ids(
    p: Params,
    st: Store,
    t: Tree,
    a: int,
    b: int,
    ns: Seq<Tree>,
    keys: Seq<Seq<u8>>,
    st2: Store,
)
    requires
        rep(p, st.nodes, t),
        distinct(t),
        fresh_pieces(st, t, a, b, ns),
        others_kept(st, t, a, b, st2),
        0 <= a <= b < t.kids.len(),
        node_rep(p, st2.nodes, spliced(t, a, b, ns, keys)),
        forall|i: int| 0 <= i < ns.len() ==> rep(p, st2.nodes, #[trigger] ns[i]),
    ensures
        rep(p, st2.nodes, spliced(t, a, b, ns, keys)),
        distinct(spliced(t, a, b, ns, keys)),
{
    let t2 = spliced(t, a, b, ns, keys);
    let nn = ns.len() as int;
    assert forall|i: int| 0 <= i < t2.kids.len() implies {
        &&& distinct(#[trigger] t2.kid(i))
        &&& !has_id(t2.kid(i), t2.id)
        &&& rep(p, st2.nodes, t2.kid(i))
    } by {
        if a <= i && i < a + nn {
            assert(t2.kid(i) == ns[i - a]);
            assert(distinct(ns[i - a]));
            assert(rep(p, st2.nodes, ns[i - a]));
            if has_id(ns[i - a], t.id) {
                assert(node_rep(p, st.nodes, t));
                assert(below(t, a, b, t.id));
                let k = choose|k: int| a <= k <= b && has_id(#[trigger] t.kid(k), t.id);
                assert(!has_id(t.kid(k), t.id));
            }
        } else {
            let m = if i < a {
                i
            } else {
                i - a - nn + b + 1
            };
            assert(t2.kid(i) == t.kid(m));
            assert(distinct(t.kid(m)));
            assert(!has_id(t.kid(m), t.id));
            lemma_other_kid(p, st, t, a, b, ns, st2, m);
        }
    }
    assert forall|i: int, j: int|
        0 <= i < t2.kids.len() && 0 <= j < t2.kids.len() && i != j implies apart(
        #[trigger] t2.kid(i),
        #[trigger] t2.kid(j),
    ) by {
        let ni = a <= i && i < a + nn;
        let nj = a <= j && j < a + nn;
        let mi = if i < a {
            i
        } else {
            i - a - nn + b + 1
        };
        let mj = if j < a {
            j
        } else {
            j - a - nn + b + 1
        };
        if ni && nj {
            assert(t2.kid(i) == ns[i - a] && t2.kid(j) == ns[j - a]);
            assert(apart(ns[i - a], ns[j - a]));
        } else if ni {
            assert(t2.kid(i) == ns[i - a] && t2.kid(j) == t.kids[mj]);
            lemma_other_kid(p, st, t, a, b, ns, st2, mj);
            assert(apart(t.kids[mj], ns[i - a]));
        } else if nj {
            assert(t2.kid(i) == t.kids[mi] && t2.kid(j) == ns[j - a]);
            lemma_other_kid(p, st, t, a, b, ns, st2, mi);
            assert(apart(t.kids[mi], ns[j - a]));
        } else {
            assert(t2.kid(i) == t.kid(mi) && t2.kid(j) == t.kid(mj));
            assert(apart(t.kid(mi), t.kid(mj)));
        }
    }
}

/// The replaced children are stored in the place of the old ones.
pub proof fn lemma_spliced_placed<K: BtreeKey, V: BtreeValue>(
    p: Params,
    st: Store,
    w: Place,
    a: int,
    b: int,
    ns: Seq<Tree>,
    keys: Seq<Seq<u8>>,
    st2: Store,
)
    requires
        placed::<K, V>(p, st, w),
        !w.t.leaf,
        splices::<K, V>(p, w, a, b, ns, keys),
        fresh_pieces(st, w.t, a, b, ns),
        flat_all(ns) == flat_all(w.t.kids.subrange(a, b + 1)),
        st2.ov == st.ov,
        node_rep(p, st2.nodes, spliced(w.t, a, b, ns, keys)),
        forall|i: int| 0 <= i < ns.len() ==> rep(p, st2.nodes, #[trigger] ns[i]),
        others_kept(st, w.t, a, b, st2),
    ensures
        placed::<K, V>(p, st2, w.with(spliced(w.t, a, b, ns, keys))),
        reshaped(st, w.t, st2, spliced(w.t, a, b, ns, keys)),
        flat(spliced(w.t, a, b, ns, keys)) == flat(w.t),
{
    let t = w.t;
    let t2 = spliced(t, a, b, ns, keys);
    let nn = ns.len() as int;
    lemma_spliced_sound::<K, V>(p, w, a, b, ns, keys);
    lemma_spliced_flat(t, a, b, ns, keys);
    lemma_spliced_ids(p, st, t, a, b, ns, keys, st2);
    assert forall|x: u64| #[trigger] has_id(t2, x) implies has_id(t, x) || !st.nodes.contains_key(
        x,
    ) by {
        if x != t2.id {
            let i = choose|i: int| 0 <= i < t2.kids.len() && has_id(#[trigger] t2.kid(i), x);
            if a <= i && i < a + nn {
                assert(t2.kid(i) == ns[i - a]);
                assert(has_id(ns[i - a], x));
                if below(t, a, b, x) {
                    let k = choose|k: int| a <= k <= b && has_id(#[trigger] t.kid(k), x);
                    lemma_kid_id(t, k, x);
                }
            } else {
                let m = if i < a {
                    i
                } else {
                    i - a - nn + b + 1
                };
                assert(t2.kid(i) == t.kids[m]);
                lemma_kid_id(t, m, x);
            }
        }
    }
    assert forall|x: u64| #[trigger] st.nodes.contains_key(x) && !has_id(t, x) implies st2.nodes.contains_key(
        x,
    ) && st2.nodes[x] == st.nodes[x] by {
        assert(has_id(t, t.id));
        if below(t, a, b, x) {
            let k = choose|k: int| a <= k <= b && has_id(#[trigger] t.kid(k), x);
            lemma_kid_id(t, k, x);
        }
    }
}

} // verus!
