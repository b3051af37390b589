//! What a committed merge leaves in the storage.

use vstd::prelude::*;
use crate::btree_kvs::{BtreeKey, BtreeValue, EMPTY_BNODEID};
use crate::btree_node::CoreView;
use crate::merge_lemmas::{
    cut_pieces, cuts, join_place, join_upto, lemma_cut_flat, lemma_cut_sound, lemma_cuts,
    lemma_hi_refl, lemma_join, lemma_join_apart, lemma_join_member, nexts_ok, piece, piece_place,
    sound_at,
};
use crate::splice_lemmas::{
    below, fresh_pieces, lemma_spliced_placed, new_place, others_kept, spliced, splices,
};
use crate::tree_lemmas::{lemma_kid_id, lemma_rep_frame, lemma_rep_has, lemma_widen};
use crate::tree_measure::{
    each, lemma_own_each, lemma_total_cut, lemma_total_join, lemma_total_spliced, total, total_all,
};
use crate::tree_model::{
    apart, core_rep, distinct, first_leaf, flat, has_id, key_ok, node_rep, placed, rep, reshaped,
    Params, Place, Store, Tree,
};

verus! {

/// The ids of the pieces: the first one is that of the leftmost child, the others were free.
pub open spec fn piece_ids(st: Store, id0: u64, ids: Seq<u64>) -> bool {
    &&& ids.len() > 0
    &&& ids[0] == id0
    &&& id0 != EMPTY_BNODEID
    &&& forall|i: int|
        0 < i < ids.len() ==> !st.nodes.contains_key(#[trigger] ids[i]) && ids[i] != EMPTY_BNODEID
    &&& forall|i: int, j: int| 0 <= i < j < ids.len() ==> #[trigger] ids[i] != #[trigger] ids[j]
}

/// Id `x` is none of those that a merge of the children from `a` to `b` touches.
pub open spec fn untouched(t: Tree, a: int, b: int, ids: Seq<u64>, x: u64) -> bool {
    &&& x != t.id
    &&& forall|m: int| 0 <= m < ids.len() ==> x != #[trigger] ids[m]
    &&& forall|k: int| a <= k <= b ==> x != (#[trigger] t.kids[k]).id
}

/// The keys of the new children: the last key of each, but for one behind the last entry.
pub open spec fn piece_keys(t: Tree, b: int, j: Tree, o: Seq<int>) -> Seq<Seq<u8>> {
    Seq::new(
        if b < t.es.len() {
            (o.len() - 1) as nat
        } else {
            (o.len() - 2) as nat
        },
        |i: int| j.es[o[i + 1] - 1].key,
    )
}

/// A grandchild of joined children is stored, and a merge does not touch it.
proof fn lemma_grandkid(
    p: Params,
    st: Store,
    t: Tree,
    a: int,
    n: nat,
    ids: Seq<u64>,
    c: int,
)
    requires
        rep(p, st.nodes, t),
        distinct(t),
        0 <= a,
        0 < n,
        a + n <= t.kids.len(),
        piece_ids(st, t.kids[a].id, ids),
        0 <= c < join_upto(t, a, n).kids.len(),
    ensures
        rep(p, st.nodes, join_upto(t, a, n).kids[c]),
        distinct(join_upto(t, a, n).kids[c]),
        forall|x: u64| #[trigger]
            has_id(join_upto(t, a, n).kids[c], x) ==> st.nodes.contains_key(x) && below(
                t,
                a,
                a + n - 1,
                x,
            ) && untouched(t, a, a + n - 1, ids, x),
{
    let (k, m) = lemma_join_member(t, a, n, c);
    let g = join_upto(t, a, n).kids[c];
    let b = a + n - 1;
    assert(rep(p, st.nodes, t.kid(k)));
    assert(distinct(t.kid(k)));
    assert(rep(p, st.nodes, t.kid(k).kid(m)));
    assert(distinct(t.kid(k).kid(m)));
    assert forall|x: u64| #[trigger] has_id(g, x) implies st.nodes.contains_key(x) && below(
        t,
        a,
        b,
        x,
    ) && untouched(t, a, b, ids, x) by {
        lemma_rep_has(p, st.nodes, g, x);
        lemma_kid_id(t.kids[k], m, x);
        assert(has_id(t.kid(k), x));
        assert(!has_id(t.kid(k), t.id));
        assert(x != t.id);
        assert forall|q: int| a <= q <= b implies x != (#[trigger] t.kids[q]).id by {
            if q == k {
                assert(!has_id(t.kid(k).kid(m), t.kid(k).id));
            } else {
                assert(apart(t.kid(k), t.kid(q)));
                assert(has_id(t.kid(q), t.kids[q].id));
            }
        }
        assert forall|q: int| 0 <= q < ids.len() implies x != #[trigger] ids[q] by {
            if q == 0 {
                assert(x != t.kids[a].id);
            }
        }
    }
}

/// The pieces of joined children have no node twice and no foreign one.
pub proof fn lemma_pieces_fresh(
    p: Params,
    st: Store,
    t: Tree,
    a: int,
    n: nat,
    o: Seq<int>,
    ids: Seq<u64>,
    nexts: Seq<u64>,
)
    requires
        rep(p, st.nodes, t),
        distinct(t),
        0 <= a,
        0 < n,
        a + n <= t.kids.len(),
        piece_ids(st, t.kids[a].id, ids),
        cuts(join_upto(t, a, n), o),
        ids.len() == o.len() - 1,
        ({
            let j = join_upto(t, a, n);
            j.leaf || j.kids.len() == j.es.len() + if j.edge {
                1int
            } else {
                0int
            }
        }),
    ensures
        fresh_pieces(
            st,
            t,
            a,
            a + n - 1,
            cut_pieces(join_upto(t, a, n), o, ids, nexts),
        ),
{
    let j = join_upto(t, a, n);
    let ns = cut_pieces(j, o, ids, nexts);
    let b = a + n - 1;
    lemma_join_apart(t, a, n);
    // which child of the join a child of a piece is
    assert forall|i: int, c: int|
        0 <= i < ns.len() && 0 <= c < ns[i].kids.len() implies #[trigger] ns[i].kid(c) == j.kids[o[i]
        + c] && 0 <= o[i] + c < j.kids.len() by {
        lemma_cuts(j, o, i);
        assert(ns[i] == piece(j, o, ids, nexts, i));
    }
    assert forall|i: int, x: u64| 0 <= i < ns.len() && #[trigger] has_id(ns[i], x) implies x
        == ids[i] || untouched(t, a, b, ids, x) && below(t, a, b, x) && exists|c: int|
        0 <= c < ns[i].kids.len() && has_id(#[trigger] ns[i].kid(c), x) by {
        assert(ns[i] == piece(j, o, ids, nexts, i));
        if x != ids[i] {
            let c = choose|c: int| 0 <= c < ns[i].kids.len() && has_id(#[trigger] ns[i].kid(c), x);
            assert(ns[i].kid(c) == j.kids[o[i] + c]);
            lemma_grandkid(p, st, t, a, n, ids, o[i] + c);
        }
    }
    assert forall|i: int| 0 <= i < ns.len() implies distinct(#[trigger] ns[i]) by {
        let q = ns[i];
        assert(q == piece(j, o, ids, nexts, i));
        assert forall|c: int| 0 <= c < q.kids.len() implies !has_id(#[trigger] q.kid(c), q.id)
            && distinct(q.kid(c)) by {
            assert(ns[i].kid(c) == j.kids[o[i] + c]);
            lemma_grandkid(p, st, t, a, n, ids, o[i] + c);
            if has_id(q.kid(c), ids[i]) {
                assert(untouched(t, a, b, ids, ids[i]));
            }
        }
        assert forall|c: int, d: int|
            0 <= c < q.kids.len() && 0 <= d < q.kids.len() && c != d implies apart(
            #[trigger] q.kid(c),
            #[trigger] q.kid(d),
        ) by {
            assert(ns[i].kid(c) == j.kids[o[i] + c]);
            assert(ns[i].kid(d) == j.kids[o[i] + d]);
            assert(apart(j.kids[o[i] + c], j.kids[o[i] + d]));
        }
    }
    assert forall|i: int, m: int| 0 <= i < ns.len() && 0 <= m < ns.len() && i != m implies apart(
        #[trigger] ns[i],
        #[trigger] ns[m],
    ) by {
        assert forall|x: u64| !(#[trigger] has_id(ns[i], x) && #[trigger] has_id(ns[m], x)) by {
            if has_id(ns[i], x) && has_id(ns[m], x) {
                assert(ids[i] != ids[m]) by {
                    if i < m {
                    } else {
                        assert(ids[m] != ids[i]);
                    }
                }
                if x == ids[i] {
                    assert(x != ids[m]);
                } else if x == ids[m] {
                    assert(x != ids[i]);
                } else {
                    let c = choose|c: int|
                        0 <= c < ns[i].kids.len() && has_id(#[trigger] ns[i].kid(c), x);
                    let d = choose|d: int|
                        0 <= d < ns[m].kids.len() && has_id(#[trigger] ns[m].kid(d), x);
                    assert(ns[i].kid(c) == j.kids[o[i] + c]);
                    assert(ns[m].kid(d) == j.kids[o[m] + d]);
                    lemma_offsets_differ(j, o, ids, nexts, i, c, m, d);
                    assert(apart(j.kids[o[i] + c], j.kids[o[m] + d]));
                }
            }
        }
    }
    assert forall|i: int, x: u64| 0 <= i < ns.len() && #[trigger] has_id(ns[i], x) implies below(
        t,
        a,
        b,
        x,
    ) || !st.nodes.contains_key(x) by {
        if x == ids[i] && i == 0 {
            assert(has_id(t.kid(a), t.kids[a].id));
        }
    }
}

/// Children of two pieces are different children of the node that was cut.
proof fn lemma_offsets_differ(
    j: Tree,
    o: Seq<int>,
    ids: Seq<u64>,
    nexts: Seq<u64>,
    i: int,
    c: int,
    m: int,
    d: int,
)
    requires
        cuts(j, o),
        0 <= i < o.len() - 1,
        0 <= m < o.len() - 1,
        i != m,
        0 <= c < piece(j, o, ids, nexts, i).kids.len(),
        0 <= d < piece(j, o, ids, nexts, m).kids.len(),
        j.leaf || j.kids.len() == j.es.len() + if j.edge {
            1int
        } else {
            0int
        },
    ensures
        o[i] + c != o[m] + d,
{
    lemma_cuts(j, o, i);
    lemma_cuts(j, o, m);
    if i < m {
        if i + 1 < m {
            assert(o[i + 1] < o[m]);
        }
    } else {
        if m + 1 < i {
            assert(o[m + 1] < o[i]);
        }
    }
}

/// The pieces and their keys fit into the place of the joined children.
pub proof fn lemma_pieces_splice<K: BtreeKey, V: BtreeValue>(
    p: Params,
    w: Place,
    a: int,
    n: nat,
    o: Seq<int>,
    ids: Seq<u64>,
    nexts: Seq<u64>,
)
    requires
        sound_at::<K, V>(p, w),
        !w.t.leaf,
        0 <= a,
        0 < n,
        a + n <= w.t.kids.len(),
        cuts(join_upto(w.t, a, n), o),
        ids.len() == o.len() - 1,
        ids[0] == w.t.kids[a].id,
        nexts_ok(join_upto(w.t, a, n), ids, nexts),
    ensures
        splices::<K, V>(
            p,
            w,
            a,
            a + n - 1,
            cut_pieces(join_upto(w.t, a, n), o, ids, nexts),
            piece_keys(w.t, a + n - 1, join_upto(w.t, a, n), o),
        ),
{
    let t = w.t;
    let b = a + n - 1;
    let jw = join_place(w, a, n);
    let j = jw.t;
    let ns = cut_pieces(j, o, ids, nexts);
    let keys = piece_keys(t, b, j, o);
    lemma_join::<K, V>(p, w, a, n);
    assert(b < t.es.len() ==> !j.edge);
    assert forall|i: int| 0 <= i < keys.len() implies key_ok::<K>(
        p,
        #[trigger] keys[i],
        t.lo(a, w.lo),
        t.hi(b, w.hi),
    ) && o[i] < o[i + 1] by {
        lemma_cuts(j, o, i);
        assert(key_ok::<K>(p, j.es[o[i + 1] - 1].key, jw.lo, jw.hi));
    }
    assert forall|i: int, m: int| 0 <= i < m < keys.len() implies K::lt(
        #[trigger] keys[i],
        #[trigger] keys[m],
    ) by {
        lemma_cuts(j, o, i);
        lemma_cuts(j, o, m);
        if i + 1 < m {
            assert(o[i + 1] < o[m]);
        }
        assert(K::lt(j.es[o[i + 1] - 1].key, j.es[o[m + 1] - 1].key));
    }
    assert forall|i: int| 0 <= i < keys.len() implies !(#[trigger] ns[i]).edge by {
        assert(ns[i] == piece(j, o, ids, nexts, i));
    }
    assert forall|i: int| 0 <= i < ns.len() implies #[trigger] sound_at::<K, V>(
        p,
        new_place(w, a, b, ns, keys, i),
    ) by {
        lemma_cut_sound::<K, V>(p, jw, o, ids, nexts, i);
        lemma_cuts(j, o, i);
        let q = piece_place(jw, o, ns, i);
        let r = new_place(w, a, b, ns, keys, i);
        assert(q.t == r.t && q.h == r.h);
        assert(q.after == r.after);
        assert(q.lo == r.lo);
        if i < keys.len() || j.edge {
            assert(q.hi == r.hi);
        } else {
            // a last child without an edge of its own
            let last = j.es[o[i + 1] - 1].key;
            assert(q.hi == Some(last));
            assert(key_ok::<K>(p, last, jw.lo, jw.hi));
            lemma_hi_refl::<K>(q.lo);
            lemma_widen::<K, V>(p, q.t, q.h, q.after, q.lo, q.hi, r.lo, r.hi);
        }
    }
    assert(first_leaf(ns[0]) == first_leaf(t.kids[a])) by {
        lemma_cuts(j, o, 0);
        assert(ns[0] == piece(j, o, ids, nexts, 0));
        if !j.leaf {
            assert(ns[0].kids[0] == j.kids[0]);
        }
    }
}

/// A piece is stored.
proof fn lemma_piece_rep(
    p: Params,
    st: Store,
    t: Tree,
    a: int,
    n: nat,
    o: Seq<int>,
    ids: Seq<u64>,
    nexts: Seq<u64>,
    st2: Store,
    i: int,
)
    requires
        rep(p, st.nodes, t),
        distinct(t),
        0 <= a,
        0 < n,
        a + n <= t.kids.len(),
        piece_ids(st, t.kids[a].id, ids),
        cuts(join_upto(t, a, n), o),
        ids.len() == o.len() - 1,
        ({
            let j = join_upto(t, a, n);
            j.leaf || j.kids.len() == j.es.len() + if j.edge {
                1int
            } else {
                0int
            }
        }),
        0 <= i < ids.len(),
        st2.nodes.contains_key(ids[i]),
        core_rep(p, st2.nodes[ids[i]], piece(join_upto(t, a, n), o, ids, nexts, i)),
        forall|x: u64| #[trigger]
            st.nodes.contains_key(x) && untouched(t, a, a + n - 1, ids, x)
                ==> st2.nodes.contains_key(x) && st2.nodes[x] == st.nodes[x],
    ensures
        rep(p, st2.nodes, piece(join_upto(t, a, n), o, ids, nexts, i)),
{
    let j = join_upto(t, a, n);
    let q = piece(j, o, ids, nexts, i);
    lemma_cuts(j, o, i);
    assert(node_rep(p, st2.nodes, q));
    assert forall|c: int| 0 <= c < q.kids.len() implies rep(p, st2.nodes, #[trigger] q.kid(c)) by {
        assert(q.kid(c) == j.kids[o[i] + c]);
        lemma_grandkid(p, st, t, a, n, ids, o[i] + c);
        lemma_rep_frame(p, st.nodes, st2.nodes, q.kid(c));
    }
}

/// What a merge does not touch is everything outside the merged children and their parent.
proof fn lemma_others_kept(st: Store, t: Tree, a: int, b: int, ids: Seq<u64>, st2: Store)
    requires
        0 <= a <= b < t.kids.len(),
        piece_ids(st, t.kids[a].id, ids),
        forall|x: u64| #[trigger]
            st.nodes.contains_key(x) && untouched(t, a, b, ids, x) ==> st2.nodes.contains_key(x)
                && st2.nodes[x] == st.nodes[x],
    ensures
        others_kept(st, t, a, b, st2),
{
    assert forall|x: u64| #[trigger]
        st.nodes.contains_key(x) && !below(t, a, b, x) && x != t.id implies st2.nodes.contains_key(x)
        && st2.nodes[x] == st.nodes[x] by {
        assert forall|k: int| a <= k <= b implies x != (#[trigger] t.kids[k]).id by {
            assert(has_id(t.kid(k), t.kids[k].id));
        }
        assert forall|m: int| 0 <= m < ids.len() implies x != #[trigger] ids[m] by {
            if m == 0 {
                assert(x != t.kids[a].id);
            }
        }
        assert(untouched(t, a, b, ids, x));
    }
}

/// Pieces of joined children that are stored in their place leave the tree in its own, with the
/// same entries.
pub proof fn lemma_replaced<K: BtreeKey, V: BtreeValue>(
    p: Params,
    st: Store,
    w: Place,
    a: int,
    n: nat,
    o: Seq<int>,
    ids: Seq<u64>,
    nexts: Seq<u64>,
    keys: Seq<Seq<u8>>,
    cores: Seq<CoreView>,
    pc: CoreView,
    st2: Store,
)
    requires
        placed::<K, V>(p, st, w),
        !w.t.leaf,
        0 <= a,
        0 < n,
        a + n <= w.t.kids.len(),
        cuts(join_upto(w.t, a, n), o),
        ids.len() == o.len() - 1,
        cores.len() == ids.len(),
        piece_ids(st, w.t.kids[a].id, ids),
        splices::<K, V>(
            p,
            w,
            a,
            a + n - 1,
            cut_pieces(join_upto(w.t, a, n), o, ids, nexts),
            keys,
        ),
        forall|i: int|
            0 <= i < cores.len() ==> core_rep(
                p,
                #[trigger] cores[i],
                piece(join_upto(w.t, a, n), o, ids, nexts, i),
            ),
        forall|i: int|
            0 <= i < ids.len() ==> st2.nodes.contains_key(#[trigger] ids[i]) && st2.nodes[ids[i]]
                == cores[i],
        core_rep(
            p,
            pc,
            spliced(
                w.t,
                a,
                a + n - 1,
                cut_pieces(join_upto(w.t, a, n), o, ids, nexts),
                keys,
            ),
        ),
        st2.nodes.contains_key(w.t.id),
        st2.nodes[w.t.id] == pc,
        st2.ov == st.ov,
        forall|x: u64| #[trigger]
            st.nodes.contains_key(x) && untouched(w.t, a, a + n - 1, ids, x)
                ==> st2.nodes.contains_key(x) && st2.nodes[x] == st.nodes[x],
    ensures
        ({
            let t2 = spliced(
                w.t,
                a,
                a + n - 1,
                cut_pieces(join_upto(w.t, a, n), o, ids, nexts),
                keys,
            );
            &&& placed::<K, V>(p, st2, w.with(t2))
            &&& reshaped(st, w.t, st2, t2)
            &&& flat(t2) == flat(w.t)
        }),
{
    let t = w.t;
    let b = a + n - 1;
    let j = join_upto(t, a, n);
    let ns = cut_pieces(j, o, ids, nexts);
    lemma_join::<K, V>(p, w, a, n);
    assert(sound_at::<K, V>(p, join_place(w, a, n)));
    lemma_pieces_fresh(p, st, t, a, n, o, ids, nexts);
    lemma_cut_flat(j, o, ids, nexts, ns.len());
    assert(ns.take(ns.len() as int) =~= ns);
    assert(j.es.take(j.es.len() as int) =~= j.es);
    assert(node_rep(p, st.nodes, t));
    assert(node_rep(p, st2.nodes, spliced(t, a, b, ns, keys)));
    assert forall|i: int| 0 <= i < ns.len() implies rep(p, st2.nodes, #[trigger] ns[i]) by {
        assert(core_rep(p, cores[i], piece(j, o, ids, nexts, i)));
        assert(st2.nodes[ids[i]] == cores[i]);
        lemma_piece_rep(p, st, t, a, n, o, ids, nexts, st2, i);
    }
    lemma_others_kept(st, t, a, b, ids, st2);
    lemma_spliced_placed::<K, V>(p, st, w, a, b, ns, keys, st2);
}

/// How many nodes a merge saves.
pub proof fn lemma_merged_count<K: BtreeKey, V: BtreeValue>(
    p: Params,
    w: Place,
    a: int,
    n: nat,
    o: Seq<int>,
    ids: Seq<u64>,
    nexts: Seq<u64>,
)
    requires
        sound_at::<K, V>(p, w),
        !w.t.leaf,
        0 <= a,
        0 < n,
        a + n <= w.t.kids.len(),
        cuts(join_upto(w.t, a, n), o),
        ids.len() == o.len() - 1,
    ensures
        ({
            let j = join_upto(w.t, a, n);
            let t2 = spliced(
                w.t,
                a,
                a + n - 1,
                cut_pieces(j, o, ids, nexts),
                piece_keys(w.t, a + n - 1, j, o),
            );
            total(t2, 0, each()) + n == total(w.t, 0, each()) + ids.len()
        }),
{
    let t = w.t;
    let j = join_upto(t, a, n);
    let ns = cut_pieces(j, o, ids, nexts);
    let keys = piece_keys(t, a + n - 1, j, o);
    lemma_join::<K, V>(p, w, a, n);
    assert(sound_at::<K, V>(p, join_place(w, a, n)));
    lemma_total_spliced(t, a, a + n - 1, ns, keys, 0, each());
    lemma_total_join(t, a, n, 1, each());
    lemma_total_cut(j, o, ids, nexts, ns.len(), 1, each());
    assert(ns.take(ns.len() as int) =~= ns);
    assert(t.kids.subrange(a, a + n) =~= t.kids.subrange(a, a + n - 1 + 1));
    lemma_own_each(ns, 1);
    lemma_own_each(t.kids.subrange(a, a + n), 1);
    assert(total_all(Seq::<Tree>::empty(), 2, each()) == 0);
    if j.leaf {
        assert(j.kids =~= Seq::<Tree>::empty());
    }
}

} // verus!
