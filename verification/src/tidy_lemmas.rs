//! Why nothing is left behind in a storage.

use vstd::prelude::*;
use crate::btree_kvs::{id_of, BtreeKey, BtreeValue, Entry};
use crate::merge_lemmas::{cut_pieces, cuts, join_place, join_upto, lemma_join, piece, sound_at};
use crate::merge_state::piece_ids;
use crate::splice_lemmas::spliced;
use crate::tree_lemmas::{lemma_flat_split, lemma_kid_id, lemma_refers_add};
use crate::tree_model::{flat, flat_all, has_id, placed, refers, tidy, Params, Place, Store, Tree};

verus! {

/// Where nothing changes, nothing is left behind.
pub proof fn lemma_tidy_same(st: Store, t: Tree)
    ensures
        tidy(st, t, st, t),
{
    reveal(tidy);
}

/// Two changes, each of which leaves nothing behind.
pub proof fn lemma_tidy_both(st: Store, t: Tree, st1: Store, t1: Tree, st2: Store, t2: Tree)
    requires
        tidy(st, t, st1, t1),
        tidy(st1, t1, st2, t2),
    ensures
        tidy(st, t, st2, t2),
{
    reveal(tidy);
}

/// A node with the same children.
proof fn lemma_same_ids(t: Tree, t2: Tree)
    requires
        t2.id == t.id,
        t2.kids == t.kids,
    ensures
        forall|x: u64| #[trigger] has_id(t, x) ==> has_id(t2, x),
{
    assert forall|x: u64| #[trigger] has_id(t, x) implies has_id(t2, x) by {
        if x != t.id {
            let m = choose|m: int| 0 <= m < t.kids.len() && has_id(#[trigger] t.kid(m), x);
            assert(t2.kids[m] == t.kids[m]);
            lemma_kid_id(t2, m, x);
        }
    }
}

/// A node written anew, with the same children.
pub proof fn lemma_tidy_node(st: Store, t: Tree, st2: Store, t2: Tree)
    requires
        t2.id == t.id,
        t2.kids == t.kids,
        !t.leaf && !t2.leaf,
        st2.ov == st.ov,
        forall|x: u64| #[trigger] st2.nodes.contains_key(x) ==> st.nodes.contains_key(x),
    ensures
        tidy(st, t, st2, t2),
{
    reveal(tidy);
    assert(flat(t2) == flat(t));
    lemma_same_ids(t, t2);
}

/// A node put over the tree.
pub proof fn lemma_tidy_over(st: Store, t: Tree, st2: Store, t2: Tree)
    requires
        !t2.leaf,
        t2.kids == seq![t],
        flat(t2) == flat(t),
        st2.ov == st.ov,
        forall|x: u64| #[trigger]
            st2.nodes.contains_key(x) ==> st.nodes.contains_key(x) || x == t2.id,
    ensures
        tidy(st, t, st2, t2),
{
    reveal(tidy);
    assert forall|x: u64| #[trigger] has_id(t, x) implies has_id(t2, x) by {
        assert(t2.kids[0] == t);
        lemma_kid_id(t2, 0, x);
    }
}

/// A leaf written with entry `e` put in or replaced.
pub proof fn lemma_tidy_leaf(
    st: Store,
    t: Tree,
    i: int,
    found: bool,
    e: Entry,
    st2: Store,
    t2: Tree,
)
    requires
        t.leaf,
        0 <= i <= t.es.len(),
        found ==> i < t.es.len(),
        t2 == (Tree {
            es: if found {
                t.es.update(i, e)
            } else {
                t.es.insert(i, e)
            },
            ..t
        }),
        forall|x: u64| #[trigger] st2.nodes.contains_key(x) ==> st.nodes.contains_key(x),
        forall|x: u64| #[trigger]
            st2.ov.contains_key(x) ==> e.overflow && id_of(e.val) == x || st.ov.contains_key(x) && !(
            found && t.es[i].overflow && id_of(t.es[i].val) == x),
    ensures
        tidy(st, t, st2, t2),
{
    reveal(tidy);
    lemma_same_ids(t, t2);
    assert forall|x: u64| #[trigger] st2.ov.contains_key(x) && !refers(flat(t2), x) implies st.ov.contains_key(
        x,
    ) && !refers(flat(t), x) by {
        assert(t2.es[i] == e);
        if refers(t.es, x) {
            let m = choose|m: int|
                0 <= m < t.es.len() && (#[trigger] t.es[m]).overflow && id_of(t.es[m].val) == x;
            let n = if m < i || found {
                m
            } else {
                m + 1
            };
            assert(t2.es[n] == t.es[m]);
        }
    }
}

/// A leaf written without some of its entries, whose overflow records are gone.
pub proof fn lemma_tidy_fewer(st: Store, t: Tree, st2: Store, t2: Tree)
    requires
        t.leaf,
        t2 == (Tree { es: t2.es, ..t }),
        forall|x: u64| #[trigger] st2.nodes.contains_key(x) ==> st.nodes.contains_key(x),
        forall|x: u64| #[trigger]
            st2.ov.contains_key(x) ==> st.ov.contains_key(x) && (refers(t.es, x) ==> refers(t2.es, x)),
    ensures
        tidy(st, t, st2, t2),
{
    reveal(tidy);
    lemma_same_ids(t, t2);
}

/// A root taken away from over its only child.
pub proof fn lemma_tidy_under(st: Store, t: Tree, st2: Store, t2: Tree)
    requires
        t.kids == seq![t2],
        flat(t) == flat(t2),
        st2.ov == st.ov,
        st2.nodes == st.nodes.remove(t.id),
    ensures
        tidy(st, t, st2, t2),
{
    reveal(tidy);
    assert forall|x: u64| #[trigger] has_id(t, x) && x != t.id implies has_id(t2, x) by {
        let m = choose|m: int| 0 <= m < t.kids.len() && has_id(#[trigger] t.kid(m), x);
        assert(t.kid(m) == t2);
    }
}

/// A change of a child that leaves nothing behind leaves nothing behind of the whole.
pub proof fn lemma_tidy_kid(st: Store, t: Tree, i: int, st2: Store, k2: Tree)
    requires
        !t.leaf,
        0 <= i < t.kids.len(),
        tidy(st, t.kids[i], st2, k2),
    ensures
        tidy(st, t, st2, t.with_kid(i, k2)),
{
    reveal(tidy);
    let t2 = t.with_kid(i, k2);
    assert forall|x: u64| #[trigger] st2.nodes.contains_key(x) && !has_id(t2, x) implies st.nodes.contains_key(
        x,
    ) && !has_id(t, x) by {
        if has_id(k2, x) {
            assert(t2.kids[i] == k2);
            lemma_kid_id(t2, i, x);
        }
        if has_id(t, x) {
            assert(x != t.id);
            let m = choose|m: int| 0 <= m < t.kids.len() && has_id(#[trigger] t.kid(m), x);
            if m != i {
                assert(t2.kids[m] == t.kids[m]);
                lemma_kid_id(t2, m, x);
            }
        }
    }
    let a = flat_all(t.kids.take(i));
    let b = flat_all(t.kids.skip(i + 1));
    lemma_flat_split(t.kids, i);
    lemma_flat_split(t2.kids, i);
    assert(t2.kids.take(i) =~= t.kids.take(i));
    assert(t2.kids.skip(i + 1) =~= t.kids.skip(i + 1));
    assert forall|x: u64| #[trigger] st2.ov.contains_key(x) && !refers(flat(t2), x) implies st.ov.contains_key(
        x,
    ) && !refers(flat(t), x) by {
        lemma_refers_add(a, flat(t.kids[i]), x);
        lemma_refers_add(a + flat(t.kids[i]), b, x);
        lemma_refers_add(a, flat(k2), x);
        lemma_refers_add(a + flat(k2), b, x);
    }
}

/// Where a child of joined nodes is found.
proof fn lemma_join_has(t: Tree, a: int, n: nat, k: int, m: int) -> (c: int)
    requires
        0 < n,
        a <= k < a + n,
        0 <= m < t.kids[k].kids.len(),
    ensures
        0 <= c < join_upto(t, a, n).kids.len(),
        join_upto(t, a, n).kids[c] == t.kids[k].kids[m],
    decreases n,
{
    if n == 1 {
        m
    } else if k == a + n - 1 {
        join_upto(t, a, (n - 1) as nat).kids.len() + m
    } else {
        lemma_join_has(t, a, (n - 1) as nat, k, m)
    }
}

/// The piece, from piece `i` on, that a child goes to.
proof fn lemma_piece_of(j: Tree, o: Seq<int>, c: int, i: int) -> (q: int)
    requires
        cuts(j, o),
        0 <= i <= o.len() - 2,
        o[i] <= c,
    ensures
        i <= q <= o.len() - 2,
        o[q] <= c,
        q == o.len() - 2 || c < o[q + 1],
    decreases o.len() - i,
{
    if i == o.len() - 2 || c < o[i + 1] {
        i
    } else {
        lemma_piece_of(j, o, c, i + 1)
    }
}

/// Putting the pieces of joined children in their place leaves nothing behind, once the children
/// behind the first one are gone.
pub proof fn lemma_pieces_tidy<K: BtreeKey, V: BtreeValue>(
    p: Params,
    st: Store,
    w: Place,
    a: int,
    n: nat,
    o: Seq<int>,
    ids: Seq<u64>,
    nexts: Seq<u64>,
    keys: Seq<Seq<u8>>,
    st2: Store,
)
    requires
        placed::<K, V>(p, st, w),
        !w.t.leaf,
        0 <= a,
        0 < n,
        a + n <= w.t.kids.len(),
        cuts(join_upto(w.t, a, n), o),
        ids.len() == o.len() - 1,
        piece_ids(st, w.t.kids[a].id, ids),
        st2.ov == st.ov,
        flat(
            spliced(
                w.t,
                a,
                a + n - 1,
                cut_pieces(join_upto(w.t, a, n), o, ids, nexts),
                keys,
            ),
        ) == flat(w.t),
        forall|x: u64| #[trigger]
            st2.nodes.contains_key(x) ==> ids.contains(x) || st.nodes.contains_key(x) && (forall|k: int|
                a < k < a + n ==> x != (#[trigger] w.t.kids[k]).id),
    ensures
        tidy(
            st,
            w.t,
            st2,
            spliced(
                w.t,
                a,
                a + n - 1,
                cut_pieces(join_upto(w.t, a, n), o, ids, nexts),
                keys,
            ),
        ),
{
    reveal(tidy);
    let t = w.t;
    let b = a + n - 1;
    let j = join_upto(t, a, n);
    let ns = cut_pieces(j, o, ids, nexts);
    let t2 = spliced(t, a, b, ns, keys);
    lemma_join::<K, V>(p, w, a, n);
    assert(sound_at::<K, V>(p, join_place(w, a, n)));
    assert forall|i: int| 0 <= i < ns.len() implies #[trigger] t2.kids[a + i] == ns[i] by {}
    assert forall|x: u64| #[trigger] st2.nodes.contains_key(x) && !has_id(t2, x) implies st.nodes.contains_key(
        x,
    ) && !has_id(t, x) by {
        if ids.contains(x) {
            let i = choose|i: int| 0 <= i < ids.len() && ids[i] == x;
            assert(ns[i] == piece(j, o, ids, nexts, i));
            assert(has_id(ns[i], x));
            assert(t2.kids[a + i] == ns[i]);
            lemma_kid_id(t2, a + i, x);
        }
        if has_id(t, x) {
            assert(x != t.id);
            let k = choose|k: int| 0 <= k < t.kids.len() && has_id(#[trigger] t.kid(k), x);
            if k < a {
                assert(t2.kids[k] == t.kids[k]);
                lemma_kid_id(t2, k, x);
            } else if k > b {
                assert(t2.kids[k - b - 1 + a + ns.len()] == t.kids[k]);
                lemma_kid_id(t2, k - b - 1 + a + ns.len(), x);
            } else {
                if x == t.kids[k].id {
                    assert(k == a);
                    assert(ids[0] == x);
                    assert(ids.contains(x));
                }
                let m = choose|m: int|
                    0 <= m < t.kids[k].kids.len() && has_id(#[trigger] t.kids[k].kid(m), x);
                let c = lemma_join_has(t, a, n, k, m);
                let q = lemma_piece_of(j, o, c, 0);
                let piece_q = piece(j, o, ids, nexts, q);
                assert(ns[q] == piece_q);
                if q + 1 < o.len() - 1 {
                    assert(o[q + 1] <= o[o.len() - 2]) by {
                        if q + 1 < o.len() - 2 {
                            assert(o[q + 1] < o[o.len() - 2]);
                        }
                    }
                }
                assert(piece_q.kids[c - o[q]] == j.kids[c]);
                lemma_kid_id(piece_q, c - o[q], x);
                assert(t2.kids[a + q] == ns[q]);
                lemma_kid_id(t2, a + q, x);
            }
        }
    }
}

} // verus!
