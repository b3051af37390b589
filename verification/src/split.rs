//! Splitting a full child in two.

use vstd::prelude::*;
use crate::btree::Btree;
use crate::btree_config::BtreeConfig;
use crate::btree_kvs::{
    id_bytes, lemma_id_bytes, BNodeId, BtreeKey, BtreeValue, Entry, ValueOrOverflow, EMPTY_BNODEID,
};
use crate::btree_node::{CoreView, NodeCore};
use crate::btree_types::BtreeError;
use crate::merge::{core_ok, ents, kept, lemma_kept_placed};
use crate::merge_lemmas::{
    cut_pieces, cuts, join_upto, lemma_cut_sound, lemma_cuts, lemma_hi_refl, nexts_ok, piece,
    piece_place, sound_at,
};
use crate::merge_state::{lemma_replaced, piece_ids, untouched};
use crate::node_layout::{
    lemma_data_size_nonneg, lemma_data_size_one, lemma_data_size_split, lemma_data_size_update,
    lemma_entry_lens,
};
use crate::splice_lemmas::{child_entry, new_place, spliced, splices};
use crate::tidy_lemmas::lemma_pieces_tidy;
use crate::tree_lemmas::{lemma_lt_le, lemma_widen};
use crate::tree_measure::{
    lemma_total_cut, lemma_total_join, lemma_total_spliced, own_all, total, total_all,
};
use crate::tree_model::{
    core_rep, first_leaf, flat, has_id, key_ok, node_rep, placed, rep, reshaped, sound, tidy,
    val_ok, Params, Place, Store, Tree,
};
use crate::underlying::UnderlyingBtree;
use crate::variants::{alike, as_configured, lemma_alike, same_kind};

verus! {

//==============================================================================
// How much splitting is left
//==============================================================================

/// Entries of a node beyond the first.
pub open spec fn excess(n: nat) -> nat {
    if n == 0 {
        0
    } else {
        (n - 1) as nat
    }
}

pub open spec fn slack() -> spec_fn(nat, nat) -> nat {
    |n: nat, d: nat| excess(n)
}

pub open spec fn deep() -> spec_fn(nat, nat) -> nat {
    |n: nat, d: nat| d * excess(n)
}

/// The effect of one split on the sums of excess entries. An entry more in the parent, at depth
/// `d`, which had `n`.
pub open spec fn split_once(t: Tree, t2: Tree, d: nat, n: nat) -> bool {
    &&& total(t2, d, slack()) + 1 + excess(n) == total(t, d, slack()) + excess(n + 1)
    &&& total(t2, d, deep()) < total(t, d, deep())
}

proof fn lemma_split_measure<K: BtreeKey, V: BtreeValue>(
    p: Params,
    w: Place,
    i: int,
    s: int,
    ids: Seq<u64>,
    nexts: Seq<u64>,
    keys: Seq<Seq<u8>>,
    d: nat,
)
    requires
        sound_at::<K, V>(p, w),
        !w.t.leaf,
        0 <= i < w.t.kids.len(),
        0 < s < w.t.kids[i].es.len(),
        ids.len() == 2,
        keys.len() == if i < w.t.es.len() {
            2int
        } else {
            1int
        },
    ensures
        ({
            let k = w.t.kids[i];
            let o = seq![0int, s, k.es.len() as int];
            let t2 = spliced(w.t, i, i, cut_pieces(k, o, ids, nexts), keys);
            split_once(w.t, t2, d, w.t.es.len())
        }),
{
    let t = w.t;
    let k = t.kids[i];
    let o = seq![0int, s, k.es.len() as int];
    let ns = cut_pieces(k, o, ids, nexts);
    let t2 = spliced(t, i, i, ns, keys);
    assert(join_upto(t, i, 1) == k);
    assert(sound_at::<K, V>(p, w.kid(i))) by {
        assert(sound::<K, V>(
            p,
            t.kid(i),
            (w.h - 1) as nat,
            t.after(i, w.after),
            t.lo(i, w.lo),
            t.hi(i, w.hi),
        ));
    }
    assert(cuts(k, o));
    assert(t2.es.len() == t.es.len() + 1);
    let n1 = s as nat;
    let n2 = (k.es.len() - s) as nat;
    assert(ns.take(2) =~= ns);
    assert(t.kids.subrange(i, i + 1) =~= seq![k]);
    if k.leaf {
        assert(k.kids =~= Seq::<Tree>::empty());
    }
    lemma_one_split(t, t2, k, i, o, ids, nexts, keys, d, slack());
    lemma_one_split(t, t2, k, i, o, ids, nexts, keys, d, deep());
    let n = t.es.len();
    let m = k.es.len();
    assert((d + 1) * excess(n1) + (d + 1) * excess(n2) + (d + 1) == (d + 1) * excess(m))
        by (nonlinear_arith)
        requires
            excess(n1) + excess(n2) + 1 == excess(m),
    ;
    assert(d * excess(n + 1) <= d * excess(n) + d) by (nonlinear_arith)
        requires
            excess(n + 1) <= excess(n) + 1,
    ;
}

/// The sums before and after a split.
proof fn lemma_one_split(
    t: Tree,
    t2: Tree,
    k: Tree,
    i: int,
    o: Seq<int>,
    ids: Seq<u64>,
    nexts: Seq<u64>,
    keys: Seq<Seq<u8>>,
    d: nat,
    f: spec_fn(nat, nat) -> nat,
)
    requires
        0 <= i < t.kids.len(),
        k == t.kids[i],
        o.len() == 3,
        cuts(k, o),
        ids.len() == 2,
        k.leaf ==> k.kids.len() == 0,
        !k.leaf ==> k.kids.len() == k.es.len() + if k.edge {
            1int
        } else {
            0int
        },
        t2 == spliced(t, i, i, cut_pieces(k, o, ids, nexts), keys),
        t2.es.len() == t.es.len() + 1,
    ensures
        total(t2, d, f) + f(t.es.len(), d) + f(k.es.len(), d + 1) == total(t, d, f) + f(
            t.es.len() + 1,
            d,
        ) + f(o[1] as nat, d + 1) + f((k.es.len() - o[1]) as nat, d + 1),
{
    let ns = cut_pieces(k, o, ids, nexts);
    lemma_cuts(k, o, 0);
    lemma_cuts(k, o, 1);
    lemma_total_spliced(t, i, i, ns, keys, d, f);
    lemma_total_join(t, i, 1, d + 1, f);
    lemma_total_cut(k, o, ids, nexts, 2, d + 1, f);
    assert(ns.take(2) =~= ns);
    assert(t.kids.subrange(i, i + 1) =~= seq![k]);
    assert(join_upto(t, i, 1) == k);
    reveal_with_fuel(own_all, 3);
    assert(own_all(seq![k], d + 1, f) == f(k.es.len(), d + 1)) by {
        assert(seq![k].drop_last() =~= Seq::<Tree>::empty());
    }
    assert(own_all(ns, d + 1, f) == f(o[1] as nat, d + 1) + f((k.es.len() - o[1]) as nat, d + 1)) by {
        assert(ns.drop_last().drop_last() =~= Seq::<Tree>::empty());
        assert(ns.drop_last().last() == piece(k, o, ids, nexts, 0));
        assert(ns.last() == piece(k, o, ids, nexts, 1));
    }
    assert(total_all(Seq::<Tree>::empty(), d + 2, f) == 0);
    if k.leaf {
        assert(k.kids =~= Seq::<Tree>::empty());
    }
}

//==============================================================================
// Room
//==============================================================================

/// Free bytes of a node that holds the entries of the tree's root.
pub open spec fn free_of(p: Params, t: Tree) -> int {
    p.layout(t.leaf).free(p.node_size, t.es)
}

/// An interior node has room for another key.
pub open spec fn key_room(p: Params, t: Tree) -> bool {
    p.max_key + 8 + p.interior.rec <= free_of(p, t)
}

/// A node with at most one entry is at most half full.
pub proof fn lemma_half_full<K: BtreeKey, V: BtreeValue>(p: Params, w: Place)
    requires
        p.wf(),
        sound_at::<K, V>(p, w),
        w.t.es.len() <= 1,
    ensures
        2 * free_of(p, w.t) >= p.room(),
{
    broadcast use crate::record_sizes::lemma_times;

    let t = w.t;
    if t.es.len() == 0 {
        assert(t.es =~= Seq::<Entry>::empty());
    } else {
        assert(t.es =~= seq![t.es[0]]);
        lemma_data_size_one(t.es[0]);
        assert(key_ok::<K>(p, t.es[0].key, w.lo, w.hi));
        if t.leaf {
            assert(val_ok::<V>(p, t.es[0]));
        } else {
            assert(t.es[0].val == id_bytes(t.kids[0].id));
            lemma_id_bytes(t.kids[0].id);
        }
    }
}

impl<K: BtreeKey, V: BtreeValue, S: UnderlyingBtree> Btree<K, V, S> {
    /// Free bytes of a node.
    pub(crate) fn free_bytes(&self, core: &NodeCore, Ghost(w): Ghost<Place>) -> (r: u32)
        requires
            self.at(core@, w),
        ensures
            r as int == free_of(self.params(), w.t),
    {
        proof {
            self.lemma_at(core@, w);
        }
        if core.is_leaf() {
            self.leaf_ops.available_size::<K, V>(core)
        } else {
            self.int_ops.available_size::<K, u64>(core)
        }
    }
}

//==============================================================================
// The split
//==============================================================================

/// The last entries of a node, from entry `s` on, have gone to an empty one.
pub open spec fn halved(
    p: Params,
    c1: CoreView,
    d1: CoreView,
    s: int,
    c2: CoreView,
    d2: CoreView,
) -> bool {
    &&& 0 < s < ents(p, c1).len()
    &&& core_ok(p, c2)
    &&& core_ok(p, d2)
    &&& ents(p, c2) == ents(p, c1).take(s)
    &&& ents(p, d2) == ents(p, c1).skip(s)
    &&& c2.header.node_id == c1.header.node_id
    &&& c2.header.leaf == c1.header.leaf
    &&& d2.header.node_id == d1.header.node_id
    &&& d2.header.leaf == d1.header.leaf
    &&& same_kind(c2, c1)
    &&& same_kind(d2, d1)
    &&& c2.header.edge_id == if c1.header.leaf {
        c1.header.edge_id
    } else {
        EMPTY_BNODEID
    }
    &&& d2.header.edge_id == if c1.header.leaf {
        d1.header.edge_id
    } else {
        c1.header.edge_id
    }
}

impl<K: BtreeKey, V: BtreeValue, S: UnderlyingBtree> Btree<K, V, S> {
    /// Moves about half of the entries of a node, by size, to an empty one.
    #[verifier::rlimit(20)]
    fn move_half(&self, left: &mut NodeCore, right: &mut NodeCore) -> (r: Ghost<int>)
        requires
            self.env_wf(),
            core_ok(self.params(), old(left)@),
            core_ok(self.params(), old(right)@),
            old(left)@.header.leaf == old(right)@.header.leaf,
            old(right)@.header.nentries == 0,
            old(right)@.header.edge_id == EMPTY_BNODEID,
            old(left)@.header.nentries >= 2,
        ensures
            halved(
                self.params(),
                old(left)@,
                old(right)@,
                r@,
                final(left)@,
                final(right)@,
            ),
    {
        broadcast use crate::record_sizes::lemma_times;

        let ghost p = self.params();
        let ghost l = p.layout(left@.header.leaf);
        let ghost es = ents(p, left@);
        let ghost c1 = left@;
        let ghost d1 = right@;
        proof {
            self.config.lemma_usable::<K, V>();
            lemma_data_size_nonneg(es);
            assert(ents(p, right@) =~= Seq::<Entry>::empty());
            assert(es.skip(0) =~= es);
            assert(es.len() == left@.header.nentries);
        }
        let n: u32 = left.header.nentries;
        if left.is_leaf() {
            let free: u32 = self.leaf_ops.available_size::<K, V>(left);
            let total: u32 = left.node_size() as u32 - 60 - free;
            let m: u32 = self.leaf_ops.move_out_to_right_by_size::<K, V>(left, right, total / 2);
            if m > 0 {
                proof {
                    assert(ents(p, right@) =~= es.skip(n - m));
                }
                return Ghost(n - m);
            }
            let ghost c3 = left@;
            let ghost d3 = right@;
            proof {
                assert(ents(p, left@) =~= es);
                assert(ents(p, right@) =~= Seq::<Entry>::empty());
                self.lemma_fits_empty(c3, d3);
            }
            let m: u32 = self.leaf_ops.move_out_to_right_by_entries::<K, V>(left, right, 1);
            proof {
                assert(ents(p, right@) =~= es.skip(n - 1));
            }
            Ghost(n - 1)
        } else {
            let free: u32 = self.int_ops.available_size::<K, u64>(left);
            let total: u32 = left.node_size() as u32 - 60 - free;
            let m: u32 = self.int_ops.move_out_to_right_by_size::<K, u64>(left, right, total / 2);
            if m > 0 {
                proof {
                    assert(ents(p, right@) =~= es.skip(n - m));
                }
                return Ghost(n - m);
            }
            let ghost c3 = left@;
            let ghost d3 = right@;
            proof {
                assert(ents(p, left@) =~= es);
                assert(ents(p, right@) =~= Seq::<Entry>::empty());
                self.lemma_fits_empty(c3, d3);
            }
            let m: u32 = self.int_ops.move_out_to_right_by_entries::<K, u64>(left, right, 1);
            proof {
                assert(ents(p, right@) =~= es.skip(n - 1));
            }
            Ghost(n - 1)
        }
    }

    /// The last entry of a node fits into an empty one.
    proof fn lemma_fits_empty(&self, c: CoreView, d: CoreView)
        requires
            self.env_wf(),
            core_ok(self.params(), c),
            core_ok(self.params(), d),
            c.header.leaf == d.header.leaf,
            ents(self.params(), c).len() > 0,
            d.header.nentries == 0,
        ensures
            c.header.leaf ==> !self.leaf_ops.right_is_full::<K, V>(c, d, 0),
            !c.header.leaf ==> !self.int_ops.right_is_full::<K, u64>(c, d, 0),
    {
        let p = self.params();
        let es = ents(p, c);
        let l = p.layout(c.header.leaf);
        let n = es.len() as int;
        lemma_data_size_split(es, n - 1);
        lemma_data_size_nonneg(es.take(n - 1));
        assert(es.skip(n - 1) =~= seq![es[n - 1]]);
        lemma_data_size_one(es[n - 1]);
        assert(ents(p, d) =~= Seq::<Entry>::empty());
        assert(es.skip(n) + ents(p, d) =~= Seq::<Entry>::empty());
        lemma_entry_lens(l, c.buf, c.header.nentries as int, n - 1);
    }
}

/// The keys of the two halves: the last key of the left one, and the old key of the child.
pub open spec fn split_keys(t: Tree, i: int, s: int) -> Seq<Seq<u8>> {
    let left = t.kids[i].es[s - 1].key;
    if i < t.es.len() {
        seq![left, t.es[i].key]
    } else {
        seq![left]
    }
}

/// The tree with child `i` split before its entry `s`.
pub open spec fn split_tree(t: Tree, i: int, s: int, right: u64) -> Tree {
    let k = t.kids[i];
    spliced(
        t,
        i,
        i,
        cut_pieces(
            k,
            seq![0int, s, k.es.len() as int],
            seq![k.id, right],
            seq![right, k.next],
        ),
        split_keys(t, i, s),
    )
}

proof fn lemma_split_splices<K: BtreeKey, V: BtreeValue>(
    p: Params,
    w: Place,
    i: int,
    s: int,
    right: u64,
)
    requires
        sound_at::<K, V>(p, w),
        !w.t.leaf,
        0 <= i < w.t.kids.len(),
        0 < s < w.t.kids[i].es.len(),
    ensures
        ({
            let k = w.t.kids[i];
            let o = seq![0int, s, k.es.len() as int];
            let ids = seq![k.id, right];
            let nexts = seq![right, k.next];
            let ns = cut_pieces(k, o, ids, nexts);
            &&& cuts(k, o)
            &&& splices::<K, V>(p, w, i, i, ns, split_keys(w.t, i, s))
        }),
{
    let t = w.t;
    let k = t.kids[i];
    let kw = w.kid(i);
    let o = seq![0int, s, k.es.len() as int];
    let ids = seq![k.id, right];
    let nexts = seq![right, k.next];
    let ns = cut_pieces(k, o, ids, nexts);
    let keys = split_keys(t, i, s);
    assert(sound_at::<K, V>(p, kw)) by {
        assert(sound::<K, V>(
            p,
            t.kid(i),
            (w.h - 1) as nat,
            t.after(i, w.after),
            t.lo(i, w.lo),
            t.hi(i, w.hi),
        ));
    }
    assert(cuts(k, o));
    assert(nexts_ok(k, ids, nexts));
    lemma_cut_sound::<K, V>(p, kw, o, ids, nexts, 0);
    lemma_cut_sound::<K, V>(p, kw, o, ids, nexts, 1);
    assert(ns[0] == piece(k, o, ids, nexts, 0));
    assert(ns[1] == piece(k, o, ids, nexts, 1));
    let left = k.es[s - 1].key;
    let last = k.es[k.es.len() - 1].key;
    assert(key_ok::<K>(p, left, kw.lo, kw.hi));
    assert(key_ok::<K>(p, last, kw.lo, kw.hi));
    assert(K::lt(left, last));
    // the keys
    if i < t.es.len() {
        let sep = t.es[i].key;
        assert(key_ok::<K>(p, sep, w.lo, w.hi));
        assert(t.es[i].val == id_bytes(t.kids[i].id));
        assert(!k.edge);
        lemma_lt_le::<K>(left, last, sep);
        K::lemma_irreflexive(sep);
        if i > 0 {
            assert(K::lt(t.es[i - 1].key, sep));
        }
        assert(key_ok::<K>(p, sep, kw.lo, kw.hi));
    }
    assert forall|x: int| 0 <= x < keys.len() implies key_ok::<K>(
        p,
        #[trigger] keys[x],
        t.lo(i, w.lo),
        t.hi(i, w.hi),
    ) by {}
    // the halves
    assert forall|x: int| 0 <= x < ns.len() implies #[trigger] sound_at::<K, V>(
        p,
        new_place(w, i, i, ns, keys, x),
    ) by {
        let q = piece_place(kw, o, ns, x);
        let r = new_place(w, i, i, ns, keys, x);
        assert(q.t == r.t && q.h == r.h && q.after == r.after && q.lo == r.lo);
        if x == 1 && !k.edge {
            assert(q.hi == Some(last));
            lemma_hi_refl::<K>(q.lo);
            lemma_widen::<K, V>(p, q.t, q.h, q.after, q.lo, q.hi, r.lo, r.hi);
        } else {
            assert(q.hi == r.hi);
        }
    }
    assert(first_leaf(ns[0]) == first_leaf(k)) by {
        if !k.leaf {
            assert(ns[0].kids[0] == k.kids[0]);
        }
    }
}

/// A split has been written.
proof fn lemma_split_done<K: BtreeKey, V: BtreeValue>(
    p: Params,
    st: Store,
    w: Place,
    i: int,
    s: int,
    lc: CoreView,
    rc: CoreView,
    pc: CoreView,
    st2: Store,
    d: nat,
)
    requires
        placed::<K, V>(p, st, w),
        !w.t.leaf,
        0 <= i < w.t.kids.len(),
        0 < s < w.t.kids[i].es.len(),
        !st.nodes.contains_key(rc.header.node_id),
        rc.header.node_id != EMPTY_BNODEID,
        ({
            let k = w.t.kids[i];
            let right = rc.header.node_id;
            let o = seq![0int, s, k.es.len() as int];
            let ids = seq![k.id, right];
            let nexts = seq![right, k.next];
            &&& core_rep(p, lc, piece(k, o, ids, nexts, 0))
            &&& core_rep(p, rc, piece(k, o, ids, nexts, 1))
            &&& core_rep(p, pc, split_tree(w.t, i, s, right))
            &&& st2.ov == st.ov
            &&& st2.nodes.contains_key(k.id) && st2.nodes[k.id] == lc
            &&& st2.nodes.contains_key(right) && st2.nodes[right] == rc
            &&& st2.nodes.contains_key(w.t.id) && st2.nodes[w.t.id] == pc
            &&& forall|x: u64| #[trigger]
                st.nodes.contains_key(x) && x != k.id && x != right && x != w.t.id
                    ==> st2.nodes.contains_key(x) && st2.nodes[x] == st.nodes[x]
            &&& forall|x: u64| #[trigger]
                st2.nodes.contains_key(x) ==> st.nodes.contains_key(x) || x == right
        }),
    ensures
        ({
            let t2 = split_tree(w.t, i, s, rc.header.node_id);
            &&& tidy(st, w.t, st2, t2)
            &&& placed::<K, V>(p, st2, w.with(t2))
            &&& reshaped(st, w.t, st2, t2)
            &&& flat(t2) == flat(w.t)
            &&& split_once(w.t, t2, d, w.t.es.len())
        }),
{
    let t = w.t;
    let k = t.kids[i];
    let right = rc.header.node_id;
    let o = seq![0int, s, k.es.len() as int];
    let ids = seq![k.id, right];
    let nexts = seq![right, k.next];
    let keys = split_keys(t, i, s);
    let cores = seq![lc, rc];
    lemma_split_splices::<K, V>(p, w, i, s, right);
    assert(join_upto(t, i, 1) == k);
    assert(rep(p, st.nodes, t.kid(i)));
    assert(node_rep(p, st.nodes, t.kid(i)));
    assert(piece_ids(st, t.kids[i].id, ids));
    assert forall|x: int| 0 <= x < cores.len() implies core_rep(
        p,
        #[trigger] cores[x],
        piece(k, o, ids, nexts, x),
    ) by {}
    assert forall|x: int| 0 <= x < ids.len() implies st2.nodes.contains_key(#[trigger] ids[x])
        && st2.nodes[ids[x]] == cores[x] by {}
    assert forall|x: u64| #[trigger]
        st.nodes.contains_key(x) && untouched(t, i, i, ids, x) implies st2.nodes.contains_key(x)
        && st2.nodes[x] == st.nodes[x] by {
        assert(x != ids[0] && x != ids[1]);
    }
    lemma_replaced::<K, V>(p, st, w, i, 1, o, ids, nexts, keys, cores, pc, st2);
    lemma_split_measure::<K, V>(p, w, i, s, ids, nexts, keys, d);
    assert(ids[1] == right);
    lemma_pieces_tidy::<K, V>(p, st, w, i, 1, o, ids, nexts, keys, st2);
}

/// A split leaves a node, its new neighbour and its parent with their variants.
proof fn lemma_split_alike(
    config: BtreeConfig,
    st: Store,
    parent: CoreView,
    child: CoreView,
    lc: CoreView,
    rc: CoreView,
    pc: CoreView,
    st2: Store,
)
    requires
        st.nodes.contains_key(child.header.node_id),
        st.nodes[child.header.node_id] == child,
        st.nodes.contains_key(parent.header.node_id),
        st.nodes[parent.header.node_id] == parent,
        same_kind(lc, child),
        same_kind(rc, child),
        same_kind(pc, parent),
        forall|x: u64| #[trigger]
            st2.nodes.contains_key(x) ==> {
                ||| st2.nodes[x] == lc
                ||| st2.nodes[x] == rc
                ||| st2.nodes[x] == pc
                ||| st.nodes.contains_key(x) && st2.nodes[x] == st.nodes[x]
            },
    ensures
        alike(config, st, st2),
{
    assert forall|x: u64| #[trigger]
        st2.nodes.contains_key(x) implies as_configured(config, st2.nodes[x]) || exists|y: u64|
        st.nodes.contains_key(y) && #[trigger] same_kind(st2.nodes[x], st.nodes[y]) by {
        if st2.nodes[x] == pc {
            assert(same_kind(st2.nodes[x], st.nodes[parent.header.node_id]));
        } else if st2.nodes[x] == lc || st2.nodes[x] == rc {
            assert(same_kind(st2.nodes[x], st.nodes[child.header.node_id]));
        } else {
            assert(same_kind(st2.nodes[x], st.nodes[x]));
        }
    }
    lemma_alike(config, st, st2);
}

impl<K: BtreeKey, V: BtreeValue, S: UnderlyingBtree> Btree<K, V, S> {
    /// The parent with an entry for each of two halves of child `idx`.
    #[verifier::rlimit(40)]
    fn parent_of_halves(
        &self,
        parent: &NodeCore,
        idx: u32,
        left_key: &K,
        left: BNodeId,
        right: BNodeId,
        Ghost(w): Ghost<Place>,
        Ghost(s): Ghost<int>,
    ) -> (r: NodeCore)
        requires
            self.at(parent@, w),
            !w.t.leaf,
            idx < w.t.kids.len(),
            key_room(self.params(), w.t),
            0 < s < w.t.kids[idx as int].es.len(),
            left_key.bytes() == w.t.kids[idx as int].es[s - 1].key,
            left == w.t.kids[idx as int].id,
            key_ok::<K>(
                self.params(),
                left_key.bytes(),
                w.kid(idx as int).lo,
                w.kid(idx as int).hi,
            ),
        ensures
            core_rep(self.params(), r@, split_tree(w.t, idx as int, s, right)),
            same_kind(r@, parent@),
    {
        let ghost p = self.params();
        let ghost t = w.t;
        let ghost i = idx as int;
        let n: u32 = parent.header.nentries;
        proof {
            self.config.lemma_usable::<K, V>();
            self.lemma_at(parent@, w);
            self.lemma_edge(parent@, w);
            assert(node_rep(p, self.storage.store().nodes, t));
            lemma_id_bytes(left);
            lemma_id_bytes(right);
        }
        let mut p2 = parent.copy();
        let left_child: ValueOrOverflow<u64> = ValueOrOverflow::Inline(left);
        let right_child: ValueOrOverflow<u64> = ValueOrOverflow::Inline(right);
        if idx < n {
            proof {
                assert(t.es[i].val == id_bytes(t.kids[i].id));
                lemma_id_bytes(t.kids[i].id);
                assert(key_ok::<K>(p, t.es[i].key, w.lo, w.hi));
                assert(p.interior.fits(child_entry(t.es[i].key, right)));
                lemma_data_size_update(
                    t.es,
                    i,
                    child_entry(t.es[i].key, right),
                );
            }
            let _ = self.int_ops.update::<K, u64>(&mut p2, idx, &right_child);
        } else {
            p2.set_edge(right);
        }
        let ghost es1 = ents(p, p2@);
        proof {
            assert(p.interior.fits(child_entry(left_key.bytes(), left)));
            assert(es1 == if idx < n {
                t.es.update(i, child_entry(t.es[i].key, right))
            } else {
                t.es
            });
        }
        let _ = self.int_ops.insert::<K, u64>(&mut p2, idx, left_key, &left_child);
        proof {
            let t2 = split_tree(t, i, s, right);
            let k = t.kids[i];
            let keys = split_keys(t, i, s);
            let ns = cut_pieces(
                k,
                seq![0int, s, k.es.len() as int],
                seq![k.id, right],
                seq![right, k.next],
            );
            assert(ns[0].id == k.id && ns[1].id == right);
            assert(ents(p, p2@) == es1.insert(i, child_entry(left_key.bytes(), left)));
            assert(ents(p, p2@) =~= t2.es);
            if t.edge {
                if idx == n {
                    assert(t2.kids.last() == ns[1]);
                } else {
                    assert(t2.kids.last() == t.kids.last());
                }
            }
        }
        p2
    }

    /// Splits child `idx` of a node in two.
    #[verifier::rlimit(40)]
    pub(crate) fn split_child(
        &mut self,
        parent: &NodeCore,
        idx: u32,
        child: NodeCore,
        Ghost(w): Ghost<Place>,
        Ghost(d): Ghost<nat>,
    ) -> (r: Result<Ghost<Tree>, BtreeError>)
        requires
            old(self).at(parent@, w),
            !w.t.leaf,
            idx < w.t.kids.len(),
            old(self).at(child@, w.kid(idx as int)),
            w.t.kids[idx as int].es.len() >= 2,
            key_room(old(self).params(), w.t),
        ensures
            r matches Err(e) ==> old(self).storage.failures().contains(e),
            final(self).env_of(old(self)),
            final(self).tree == old(self).tree,
            final(self).height == old(self).height,
            final(self).root_node_id == old(self).root_node_id,
            final(self).storage.root() == old(self).storage.root(),
            r matches Ok(t2) ==> {
                &&& placed::<K, V>(old(self).params(), final(self).storage.store(), w.with(t2@))
                &&& reshaped(
                    old(self).storage.store(),
                    w.t,
                    final(self).storage.store(),
                    t2@,
                )
                &&& tidy(old(self).storage.store(), w.t, final(self).storage.store(), t2@)
                &&& alike(
                    old(self).config,
                    old(self).storage.store(),
                    final(self).storage.store(),
                )
                &&& flat(t2@) == flat(w.t)
                &&& final(self).storage.store().ov == old(self).storage.store().ov
                &&& split_once(w.t, t2@, d, w.t.es.len())
            },
            r is Err && old(self).storage.reliable() ==> final(self).storage.exhausted() && kept(
                old(self).storage.store(),
                final(self).storage.store(),
            ),
    {
        let ghost p = self.params();
        let ghost st = self.storage.store();
        let ghost t = w.t;
        let ghost i = idx as int;
        let ghost k = t.kids[i];
        let ghost kw = w.kid(i);
        proof {
            self.lemma_at(child@, kw);
            self.lemma_kid_at(parent@, w, i);
            assert(node_rep(p, st.nodes, k));
            assert(node_rep(p, st.nodes, t));
        }
        let mut right = match self.create_new_node(child.is_leaf(), child.header.node_variant) {
            Ok(c) => c,
            Err(e) => {
                return Err(e);
            },
        };
        let ghost st1 = self.storage.store();
        let mut left = child;
        let child_next: BNodeId = left.header.next_node;
        let ghost c0 = left@;
        let ghost r0 = right@;
        let Ghost(s) = self.move_half(&mut left, &mut right);
        right.set_next_node(child_next);
        let right_id: BNodeId = right.node_id();
        left.set_next_node(right_id);
        proof {
            assert(key_ok::<K>(p, k.es[s - 1].key, kw.lo, kw.hi));
            assert(ents(p, left@) == k.es.take(s));
            assert(ents(p, left@).last() == k.es[s - 1]);
            lemma_kept_placed::<K, V>(p, st, st1, w);
            assert(self.at(parent@, w));
            assert(ents(p, left@).len() == left@.header.nentries);
        }
        let left_key = self.get_last_key(&left);
        let p2 = self.parent_of_halves(
            parent,
            idx,
            &left_key,
            left.node_id(),
            right_id,
            Ghost(w),
            Ghost(s),
        );
        if let Err(e) = self.storage.write_node(&right) {
            return Err(e);
        }
        if let Err(e) = self.storage.write_node(&left) {
            return Err(e);
        }
        if let Err(e) = self.storage.write_node(&p2) {
            return Err(e);
        }
        let ghost t2 = split_tree(t, i, s, right_id);
        proof {
            let o = seq![0int, s, k.es.len() as int];
            let ids = seq![k.id, right_id];
            let nexts = seq![right_id, k.next];
            let lp = piece(k, o, ids, nexts, 0);
            let rp = piece(k, o, ids, nexts, 1);
            assert(lp.es =~= k.es.take(s));
            assert(rp.es =~= k.es.skip(s));
            if rp.edge {
                assert(sound_at::<K, V>(p, kw));
                assert(rp.kids.last() == k.kids.last());
            }
            assert(core_rep(p, left@, lp));
            assert(core_rep(p, right@, rp));
            assert(!has_id(t.kid(i), t.id));
            assert(has_id(t.kid(i), k.id));
            lemma_split_done::<K, V>(
                p,
                st,
                w,
                i,
                s,
                left@,
                right@,
                p2@,
                self.storage.store(),
                d,
            );
            lemma_split_alike(
                self.config,
                st,
                parent@,
                c0,
                left@,
                right@,
                p2@,
                self.storage.store(),
            );
        }
        Ok(Ghost(t2))
    }
}

} // verus!
