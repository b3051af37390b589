//! Joining neighbouring nodes and cutting a node into pieces.

use vstd::prelude::*;
use crate::btree_kvs::{id_bytes, BtreeKey, BtreeValue, Entry};
use crate::tree_lemmas::{
    hi_le, lemma_above, lemma_flat_all_add, lemma_flat_all_one, lemma_flat_split, lemma_kid_id,
    lemma_le_lt, lemma_lt_not_lt, lemma_upto, lemma_widen, lo_le,
};
use crate::tree_model::{
    above, apart, distinct, first_leaf, flat, flat_all, has_id, key_ok, sound, upto, val_ok, Params,
    Place, Tree,
};

verus! {

//==============================================================================
// Joining neighbours
//==============================================================================

/// Two neighbours in one node.
pub open spec fn join2(x: Tree, y: Tree) -> Tree {
    Tree {
        id: x.id,
        next: y.next,
        leaf: x.leaf,
        es: x.es + y.es,
        kids: x.kids + y.kids,
        edge: y.edge,
    }
}

/// The children from `a` on, `n` of them, in one node.
pub open spec fn join_upto(t: Tree, a: int, n: nat) -> Tree
    decreases n,
{
    if n <= 1 {
        t.kids[a]
    } else {
        join2(join_upto(t, a, (n - 1) as nat), t.kids[a + n - 1])
    }
}

/// The place of joined children.
pub open spec fn join_place(w: Place, a: int, n: nat) -> Place {
    Place {
        t: join_upto(w.t, a, n),
        h: (w.h - 1) as nat,
        after: w.t.after(a + n - 1, w.after),
        lo: w.t.lo(a, w.lo),
        hi: w.t.hi(a + n - 1, w.hi),
    }
}

pub open spec fn sound_at<K: BtreeKey, V: BtreeValue>(p: Params, w: Place) -> bool {
    sound::<K, V>(p, w.t, w.h, w.after, w.lo, w.hi)
}

/// Two neighbours make a search tree together.
proof fn lemma_join2<K: BtreeKey, V: BtreeValue>(
    p: Params,
    x: Tree,
    y: Tree,
    h: nat,
    after: u64,
    lo: Option<Seq<u8>>,
    sep: Seq<u8>,
    hi: Option<Seq<u8>>,
)
    requires
        sound::<K, V>(p, x, h, first_leaf(y), lo, Some(sep)),
        sound::<K, V>(p, y, h, after, Some(sep), hi),
        !x.edge,
        above::<K>(lo, sep),
        upto::<K>(hi, sep),
    ensures
        sound::<K, V>(p, join2(x, y), h, after, lo, hi),
{
    let j = join2(x, y);
    let nx = x.es.len();
    assert forall|i: int| 0 <= i < j.es.len() implies key_ok::<K>(
        p,
        #[trigger] j.es[i].key,
        lo,
        hi,
    ) by {
        if i < nx {
            assert(j.es[i] == x.es[i]);
            assert(key_ok::<K>(p, x.es[i].key, lo, Some(sep)));
            lemma_upto::<K>(hi, sep, x.es[i].key);
        } else {
            assert(j.es[i] == y.es[i - nx]);
            assert(key_ok::<K>(p, y.es[i - nx].key, Some(sep), hi));
            lemma_above::<K>(lo, sep, y.es[i - nx].key);
        }
    }
    assert forall|i: int, m: int| 0 <= i < m < j.es.len() implies K::lt(
        #[trigger] j.es[i].key,
        #[trigger] j.es[m].key,
    ) by {
        if m < nx {
            assert(j.es[i] == x.es[i] && j.es[m] == x.es[m]);
        } else if i >= nx {
            assert(j.es[i] == y.es[i - nx] && j.es[m] == y.es[m - nx]);
        } else {
            assert(j.es[i] == x.es[i] && j.es[m] == y.es[m - nx]);
            assert(key_ok::<K>(p, x.es[i].key, lo, Some(sep)));
            assert(key_ok::<K>(p, y.es[m - nx].key, Some(sep), hi));
            lemma_le_lt::<K>(x.es[i].key, sep, y.es[m - nx].key);
        }
    }
    if x.leaf {
        assert forall|i: int| 0 <= i < j.es.len() implies val_ok::<V>(p, #[trigger] j.es[i]) by {
            if i < nx {
                assert(j.es[i] == x.es[i]);
            } else {
                assert(j.es[i] == y.es[i - nx]);
            }
        }
    } else {
        assert forall|i: int| 0 <= i < j.es.len() implies {
            &&& (#[trigger] j.es[i]).val == id_bytes(j.kids[i].id)
            &&& !j.es[i].overflow
            &&& !j.kids[i].edge
        } by {
            if i < nx {
                assert(j.es[i] == x.es[i]);
            } else {
                assert(j.es[i] == y.es[i - nx]);
            }
        }
        assert forall|i: int| 0 <= i < j.kids.len() implies sound::<K, V>(
            p,
            #[trigger] j.kid(i),
            (h - 1) as nat,
            j.after(i, after),
            j.lo(i, lo),
            j.hi(i, hi),
        ) by {
            if i < nx {
                assert(j.kid(i) == x.kid(i));
                assert(x.after(i, first_leaf(y)) == j.after(i, after));
                assert(x.lo(i, lo) == j.lo(i, lo));
                assert(x.hi(i, Some(sep)) == j.hi(i, hi));
            } else {
                let m = i - nx;
                assert(j.kid(i) == y.kid(m));
                assert(y.after(m, after) == j.after(i, after));
                assert(y.hi(m, hi) == j.hi(i, hi));
                if m == 0 {
                    let last = x.es[nx - 1].key;
                    assert(key_ok::<K>(p, last, lo, Some(sep)));
                    assert(j.lo(i, lo) == Some(last));
                    lemma_hi_refl::<K>(y.hi(m, hi));
                    lemma_widen::<K, V>(
                        p,
                        y.kid(m),
                        (h - 1) as nat,
                        y.after(m, after),
                        Some(sep),
                        y.hi(m, hi),
                        Some(last),
                        y.hi(m, hi),
                    );
                } else {
                    assert(y.lo(m, Some(sep)) == j.lo(i, lo));
                }
            }
        }
    }
}

pub proof fn lemma_hi_refl<K: BtreeKey>(b: Option<Seq<u8>>)
    ensures
        hi_le::<K>(b, b),
        lo_le::<K>(b, b),
{
    if let Some(x) = b {
        K::lemma_irreflexive(x);
    }
}

/// The key between two children is between the bounds of both.
pub proof fn lemma_sep_between<K: BtreeKey, V: BtreeValue>(p: Params, w: Place, a: int, i: int)
    requires
        sound_at::<K, V>(p, w),
        !w.t.leaf,
        0 <= a <= i,
        i + 1 < w.t.kids.len(),
    ensures
        above::<K>(w.t.lo(a, w.lo), w.t.es[i].key),
        upto::<K>(w.t.hi(i + 1, w.hi), w.t.es[i].key),
        key_ok::<K>(p, w.t.es[i].key, w.lo, w.hi),
{
    let t = w.t;
    assert(key_ok::<K>(p, t.es[i].key, w.lo, w.hi));
    if a > 0 {
        assert(K::lt(t.es[a - 1].key, t.es[i].key));
    }
    if i + 1 < t.es.len() {
        assert(K::lt(t.es[i].key, t.es[i + 1].key));
        lemma_lt_not_lt::<K>(t.es[i].key, t.es[i + 1].key);
    }
}

/// Joined children make a search tree with the same entries.
pub proof fn lemma_join<K: BtreeKey, V: BtreeValue>(p: Params, w: Place, a: int, n: nat)
    requires
        sound_at::<K, V>(p, w),
        !w.t.leaf,
        0 <= a,
        0 < n,
        a + n <= w.t.kids.len(),
    ensures
        sound_at::<K, V>(p, join_place(w, a, n)),
        flat(join_upto(w.t, a, n)) == flat_all(w.t.kids.subrange(a, a + n)),
        join_upto(w.t, a, n).edge == w.t.kids[a + n - 1].edge,
        join_upto(w.t, a, n).leaf == w.t.kids[a].leaf,
        join_upto(w.t, a, n).id == w.t.kids[a].id,
        join_upto(w.t, a, n).next == w.t.kids[a + n - 1].next,
        join_upto(w.t, a, n).edge ==> a + n - 1 == w.t.es.len(),
        first_leaf(join_upto(w.t, a, n)) == first_leaf(w.t.kids[a]),
    decreases n,
{
    let t = w.t;
    let j = join_upto(t, a, n);
    let b = a + n - 1;
    let y = t.kid(b);
    assert(y.edge ==> b == t.es.len()) by {
        if b < t.es.len() {
            assert(t.es[b].val == id_bytes(t.kids[b].id));
        }
    }
    if n == 1 {
        assert(t.kids.subrange(a, a + 1) =~= seq![y]);
        lemma_flat_all_one(y);
    } else {
        let x = join_upto(t, a, (n - 1) as nat);
        lemma_join::<K, V>(p, w, a, (n - 1) as nat);
        assert(!x.edge);
        lemma_sep_between::<K, V>(p, w, a, b - 1);
        lemma_join2::<K, V>(
            p,
            x,
            y,
            (w.h - 1) as nat,
            t.after(b, w.after),
            t.lo(a, w.lo),
            t.es[b - 1].key,
            t.hi(b, w.hi),
        );
        assert(t.kids.subrange(a, a + n) =~= t.kids.subrange(a, b) + seq![y]);
        lemma_flat_all_add(t.kids.subrange(a, b), seq![y]);
        lemma_flat_all_one(y);
        assert(sound_at::<K, V>(p, w.kid(b)));
        assert(x.leaf == y.leaf);
        if x.leaf {
            assert(flat(j) =~= flat(x) + flat(y));
        } else {
            lemma_flat_all_add(x.kids, y.kids);
        }
    }
}

/// A child of joined children is a child of one of them.
pub proof fn lemma_join_member(t: Tree, a: int, n: nat, c: int) -> (r: (int, int))
    requires
        0 <= a,
        0 < n,
        a + n <= t.kids.len(),
        0 <= c < join_upto(t, a, n).kids.len(),
    ensures
        a <= r.0 < a + n,
        0 <= r.1 < t.kids[r.0].kids.len(),
        join_upto(t, a, n).kids[c] == t.kids[r.0].kids[r.1],
    decreases n,
{
    if n == 1 {
        (a, c)
    } else {
        let x = join_upto(t, a, (n - 1) as nat);
        if c < x.kids.len() {
            lemma_join_member(t, a, (n - 1) as nat, c)
        } else {
            (a + n - 1, c - x.kids.len())
        }
    }
}

/// The children of joined children have no node in common.
pub proof fn lemma_join_apart(t: Tree, a: int, n: nat)
    requires
        distinct(t),
        0 <= a,
        0 < n,
        a + n <= t.kids.len(),
    ensures
        forall|c: int, d: int|
            0 <= c < join_upto(t, a, n).kids.len() && 0 <= d < join_upto(t, a, n).kids.len() && c
                != d ==> apart(
                #[trigger] join_upto(t, a, n).kids[c],
                #[trigger] join_upto(t, a, n).kids[d],
            ),
    decreases n,
{
    let j = join_upto(t, a, n);
    if n == 1 {
        assert(distinct(t.kid(a)));
        assert forall|c: int, d: int|
            0 <= c < j.kids.len() && 0 <= d < j.kids.len() && c != d implies apart(
            #[trigger] j.kids[c],
            #[trigger] j.kids[d],
        ) by {
            assert(apart(t.kid(a).kid(c), t.kid(a).kid(d)));
        }
    } else {
        let x = join_upto(t, a, (n - 1) as nat);
        let b = a + n - 1;
        let y = t.kid(b);
        lemma_join_apart(t, a, (n - 1) as nat);
        assert(distinct(y));
        assert forall|c: int, d: int|
            0 <= c < j.kids.len() && 0 <= d < j.kids.len() && c != d implies apart(
            #[trigger] j.kids[c],
            #[trigger] j.kids[d],
        ) by {
            let nx = x.kids.len();
            if c < nx && d < nx {
                assert(j.kids[c] == x.kids[c] && j.kids[d] == x.kids[d]);
            } else if c >= nx && d >= nx {
                assert(apart(y.kid(c - nx), y.kid(d - nx)));
            } else {
                let (e, f) = if c < nx {
                    (c, d - nx)
                } else {
                    (d, c - nx)
                };
                let (k, m) = lemma_join_member(t, a, (n - 1) as nat, e);
                assert(apart(t.kid(k), t.kid(b)));
                assert forall|z: u64| !(#[trigger] has_id(x.kids[e], z) && #[trigger] has_id(
                    y.kids[f],
                    z,
                )) by {
                    if has_id(x.kids[e], z) && has_id(y.kids[f], z) {
                        lemma_kid_id(t.kids[k], m, z);
                        lemma_kid_id(y, f, z);
                    }
                }
            }
        }
    }
}

//==============================================================================
// Cutting a node into pieces
//==============================================================================

/// Offsets that cut a node into pieces. Only the last piece can be without entries, and only
/// where it has an edge.
pub open spec fn cuts(j: Tree, o: Seq<int>) -> bool {
    &&& o.len() >= 2
    &&& o[0] == 0
    &&& o.last() == j.es.len()
    &&& forall|x: int, y: int| 0 <= x < y < o.len() - 1 ==> #[trigger] o[x] < #[trigger] o[y]
    &&& o[o.len() - 2] <= o[o.len() - 1]
    &&& o[o.len() - 2] == o[o.len() - 1] ==> j.edge
}

/// Piece `i` of a node, under its own id.
pub open spec fn piece(j: Tree, o: Seq<int>, ids: Seq<u64>, nexts: Seq<u64>, i: int) -> Tree {
    let last = i == o.len() - 2;
    Tree {
        id: ids[i],
        next: nexts[i],
        leaf: j.leaf,
        es: j.es.subrange(o[i], o[i + 1]),
        kids: if j.leaf {
            Seq::empty()
        } else if last {
            j.kids.skip(o[i])
        } else {
            j.kids.subrange(o[i], o[i + 1])
        },
        edge: last && j.edge,
    }
}

/// All pieces of a node.
pub open spec fn cut_pieces(j: Tree, o: Seq<int>, ids: Seq<u64>, nexts: Seq<u64>) -> Seq<Tree> {
    Seq::new((o.len() - 1) as nat, |i: int| piece(j, o, ids, nexts, i))
}

/// Each piece names the next one, and the last one what the node named.
pub open spec fn nexts_ok(j: Tree, ids: Seq<u64>, nexts: Seq<u64>) -> bool {
    &&& ids.len() == nexts.len()
    &&& forall|i: int|
        0 <= i < nexts.len() ==> #[trigger] nexts[i] == if i + 1 < ids.len() {
            ids[i + 1]
        } else {
            j.next
        }
}

/// The bounds of a piece.
pub open spec fn piece_lo(w: Place, o: Seq<int>, i: int) -> Option<Seq<u8>> {
    if i == 0 {
        w.lo
    } else {
        Some(w.t.es[o[i] - 1].key)
    }
}

pub open spec fn piece_hi(w: Place, o: Seq<int>, i: int) -> Option<Seq<u8>> {
    if w.t.edge && i == o.len() - 2 {
        w.hi
    } else {
        Some(w.t.es[o[i + 1] - 1].key)
    }
}

pub open spec fn piece_after(w: Place, ns: Seq<Tree>, i: int) -> u64 {
    if i + 1 < ns.len() {
        first_leaf(ns[i + 1])
    } else {
        w.after
    }
}

pub open spec fn piece_place(w: Place, o: Seq<int>, ns: Seq<Tree>, i: int) -> Place {
    Place {
        t: ns[i],
        h: w.h,
        after: piece_after(w, ns, i),
        lo: piece_lo(w, o, i),
        hi: piece_hi(w, o, i),
    }
}

/// Offsets of pieces lie inside the node.
pub proof fn lemma_cuts(j: Tree, o: Seq<int>, i: int)
    requires
        cuts(j, o),
        0 <= i < o.len() - 1,
    ensures
        0 <= o[i] <= o[i + 1] <= j.es.len(),
        i > 0 ==> o[i] > 0,
        i + 1 < o.len() - 1 ==> o[i] < o[i + 1],
        o[i] < o[i + 1] || i == o.len() - 2 && j.edge,
{
    if i > 0 {
        assert(o[0] < o[i]);
    }
    let l = o.len() - 2;
    if i + 1 < l {
        assert(o[i] < o[i + 1]);
        assert(o[i + 1] < o[l]);
    } else if i + 1 == l {
        assert(o[i] < o[i + 1]);
    }
}

/// Each piece of a search tree is one.
pub proof fn lemma_cut_sound<K: BtreeKey, V: BtreeValue>(
    p: Params,
    w: Place,
    o: Seq<int>,
    ids: Seq<u64>,
    nexts: Seq<u64>,
    i: int,
)
    requires
        sound_at::<K, V>(p, w),
        w.t.leaf ==> w.t.next == w.after,
        cuts(w.t, o),
        ids.len() == o.len() - 1,
        nexts_ok(w.t, ids, nexts),
        0 <= i < o.len() - 1,
    ensures
        sound_at::<K, V>(p, piece_place(w, o, cut_pieces(w.t, o, ids, nexts), i)),
{
    let j = w.t;
    let ns = cut_pieces(j, o, ids, nexts);
    let t = ns[i];
    let q = piece_place(w, o, ns, i);
    let h = w.h;
    lemma_cuts(j, o, i);
    assert(t == piece(j, o, ids, nexts, i));
    // keys
    assert forall|c: int| 0 <= c < t.es.len() implies key_ok::<K>(
        p,
        #[trigger] t.es[c].key,
        q.lo,
        q.hi,
    ) by {
        assert(t.es[c] == j.es[o[i] + c]);
        assert(key_ok::<K>(p, j.es[o[i] + c].key, w.lo, w.hi));
        if i > 0 {
            assert(K::lt(j.es[o[i] - 1].key, j.es[o[i] + c].key));
        }
        let last = o[i + 1] - 1;
        if o[i] + c < last {
            assert(K::lt(j.es[o[i] + c].key, j.es[last].key));
            lemma_lt_not_lt::<K>(j.es[o[i] + c].key, j.es[last].key);
        } else {
            K::lemma_irreflexive(j.es[last].key);
        }
    }
    assert forall|c: int, d: int| 0 <= c < d < t.es.len() implies K::lt(
        #[trigger] t.es[c].key,
        #[trigger] t.es[d].key,
    ) by {
        assert(t.es[c] == j.es[o[i] + c] && t.es[d] == j.es[o[i] + d]);
    }
    if j.leaf {
        assert forall|c: int| 0 <= c < t.es.len() implies val_ok::<V>(p, #[trigger] t.es[c]) by {
            assert(t.es[c] == j.es[o[i] + c]);
        }
        assert(nexts[i] == q.after) by {
            if i + 1 < ns.len() {
                assert(ns[i + 1] == piece(j, o, ids, nexts, i + 1));
            }
        }
    } else {
        assert(t.kids.len() == t.es.len() + if t.edge {
            1int
        } else {
            0int
        });
        assert forall|c: int| 0 <= c < t.es.len() implies {
            &&& (#[trigger] t.es[c]).val == id_bytes(t.kids[c].id)
            &&& !t.es[c].overflow
            &&& !t.kids[c].edge
        } by {
            assert(t.es[c] == j.es[o[i] + c]);
            assert(t.kids[c] == j.kids[o[i] + c]);
        }
        assert forall|c: int| 0 <= c < t.kids.len() implies sound::<K, V>(
            p,
            #[trigger] t.kid(c),
            (h - 1) as nat,
            t.after(c, q.after),
            t.lo(c, q.lo),
            t.hi(c, q.hi),
        ) by {
            let d = o[i] + c;
            assert(t.kid(c) == j.kid(d));
            assert(t.lo(c, q.lo) == j.lo(d, w.lo)) by {
                if c > 0 {
                    assert(t.es[c - 1] == j.es[d - 1]);
                }
            }
            assert(t.hi(c, q.hi) == j.hi(d, w.hi)) by {
                if c < t.es.len() {
                    assert(t.es[c] == j.es[d]);
                }
            }
            assert(t.after(c, q.after) == j.after(d, w.after)) by {
                if c + 1 < t.kids.len() {
                    assert(t.kids[c + 1] == j.kids[d + 1]);
                } else if i + 1 < ns.len() {
                    lemma_cuts(j, o, i + 1);
                    assert(ns[i + 1] == piece(j, o, ids, nexts, i + 1));
                    assert(ns[i + 1].kids[0] == j.kids[o[i + 1]]);
                }
            }
        }
    }
}

/// The entries below the pieces are those of the node.
pub proof fn lemma_cut_flat(j: Tree, o: Seq<int>, ids: Seq<u64>, nexts: Seq<u64>, n: nat)
    requires
        cuts(j, o),
        n < o.len(),
        j.leaf || j.kids.len() == j.es.len() + if j.edge {
            1int
        } else {
            0int
        },
    ensures
        flat_all(cut_pieces(j, o, ids, nexts).take(n as int)) == if j.leaf {
            j.es.take(o[n as int])
        } else if n == o.len() - 1 {
            flat_all(j.kids)
        } else {
            flat_all(j.kids.take(o[n as int]))
        },
    decreases n,
{
    let ns = cut_pieces(j, o, ids, nexts);
    if n == 0 {
        assert(ns.take(0) =~= Seq::<Tree>::empty());
        assert(j.es.take(0) =~= Seq::<Entry>::empty());
        assert(j.kids.take(0) =~= Seq::<Tree>::empty());
    } else {
        let i = n - 1;
        lemma_cuts(j, o, i);
        lemma_cut_flat(j, o, ids, nexts, i as nat);
        lemma_flat_split(ns, i);
        let t = piece(j, o, ids, nexts, i);
        assert(ns[i] == t);
        if j.leaf {
            assert(j.es.take(o[i + 1]) =~= j.es.take(o[i]) + t.es);
        } else {
            lemma_flat_all_add(j.kids.take(o[i]), t.kids);
            if i == o.len() - 2 {
                assert(j.kids =~= j.kids.take(o[i]) + t.kids);
            } else {
                assert(j.kids.take(o[i + 1]) =~= j.kids.take(o[i]) + t.kids);
            }
        }
    }
}

} // verus!
