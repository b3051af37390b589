//! Packing the children of a node into fewer nodes.

use vstd::prelude::*;
use crate::btree::Btree;
use crate::btree_kvs::{
    id_bytes, lemma_id_bytes, BNodeId, BtreeKey, BtreeValue, Entry, ValueOrOverflow, EMPTY_BNODEID,
};
use crate::btree_node::{CoreView, NodeCore, PersistentHeader};
use crate::btree_types::{BtreeError, MergePolicy};
use crate::merge_lemmas::{
    cut_pieces, cuts, join2, join_place, join_upto, lemma_cuts, lemma_join, nexts_ok, piece,
    sound_at,
};
use crate::merge_plan::{
    chain_ids, child_ids, filling, keys_fit, lemma_filling_done, lemma_filling_start,
    lemma_filling_step, lemma_key_step, lemma_merge_alike, lemma_packing_one, merge_due, merge_result, merged_store,
    merged_tree, packing_all, packing_upto, plan, staying, used, with_keys, worth_merging, Packing,
};
use crate::merge_state::{
    lemma_merged_count, lemma_pieces_splice, lemma_replaced, piece_ids, piece_keys, untouched,
};
use crate::settled::under_filled;
use crate::splice_lemmas::{child_entry, spliced};
use crate::tidy_lemmas::{lemma_pieces_tidy, lemma_tidy_same};
use crate::tree_lemmas::{lemma_remove_but, lemma_remove_next, lemma_rep_frame, lemma_rep_has};
use crate::tree_measure::{count, total};
use crate::tree_model::{
    apart, core_rep, distinct, flat, has_id, key_ok, node_rep, placed, rep, reshaped, sound, tidy,
    Params, Place, Store, Tree,
};
use crate::underlying::UnderlyingBtree;
use crate::variants::{alike, lemma_alike_same, same_kind};

verus! {

//==============================================================================
// Nodes outside the tree
//==============================================================================

/// The entries of a node.
pub open spec fn ents(p: Params, c: CoreView) -> Seq<Entry> {
    p.layout(c.header.leaf).entries(c.buf, c.header.nentries as int)
}

/// The node is in order.
pub open spec fn core_ok(p: Params, c: CoreView) -> bool {
    &&& c.buf.len() == p.node_size
    &&& p.layout(c.header.leaf).node_wf(c.buf, c.header.nentries as int)
}

/// The storage still holds all it held.
pub open spec fn kept(st: Store, st2: Store) -> bool {
    &&& st2.ov == st.ov
    &&& forall|x: u64| #[trigger]
        st.nodes.contains_key(x) ==> st2.nodes.contains_key(x) && st2.nodes[x] == st.nodes[x]
}

/// A tree stays in its place where the storage keeps what it holds.
pub proof fn lemma_kept_placed<K: BtreeKey, V: BtreeValue>(
    p: Params,
    st: Store,
    st2: Store,
    w: Place,
)
    requires
        placed::<K, V>(p, st, w),
        kept(st, st2),
    ensures
        placed::<K, V>(p, st2, w),
        reshaped(st, w.t, st2, w.t),
        st2.nodes[w.t.id] == st.nodes[w.t.id],
{
    assert forall|x: u64| #[trigger] has_id(w.t, x) implies st2.nodes.contains_key(x)
        && st2.nodes[x] == st.nodes[x] by {
        lemma_rep_has(p, st.nodes, w.t, x);
    }
    lemma_rep_frame(p, st.nodes, st2.nodes, w.t);
    assert(has_id(w.t, w.t.id));
}

/// A node on its own as the last one of a packing.
pub open spec fn last_node(p: Params, c: CoreView) -> Packing {
    Packing { cuts: Seq::empty(), es: ents(p, c), occ: used(p, c) }
}

/// Appending entries of one node to another: `d2` is `d1` with the entries of `c` from the
/// cursor on up to the new cursor behind its own, and with the edge of `c` once all are there.
pub open spec fn absorbed(
    p: Params,
    d1: CoreView,
    c: CoreView,
    cursor: int,
    d2: CoreView,
    cursor2: int,
    r: bool,
) -> bool {
    &&& core_ok(p, d2)
    &&& cursor <= cursor2 <= c.header.nentries
    &&& r == (cursor2 < c.header.nentries)
    &&& ents(p, d2) == ents(p, d1) + ents(p, c).subrange(cursor, cursor2)
    &&& d2.header.node_id == d1.header.node_id
    &&& d2.header.leaf == d1.header.leaf
    &&& d2.header.node_variant == d1.header.node_variant
    &&& d2.header.next_node == d1.header.next_node
    &&& d2.header.edge_id == if !r && c.header.edge_id != EMPTY_BNODEID {
        c.header.edge_id
    } else {
        d1.header.edge_id
    }
}

impl<K: BtreeKey, V: BtreeValue, S: UnderlyingBtree> Btree<K, V, S> {
    /// Appends entries to a node until it is filled as far as the configuration wants it.
    fn absorb_or_fill(
        &self,
        dst: &mut NodeCore,
        src: &NodeCore,
        cursor: &mut u32,
        copy_only_if_fits: bool,
    ) -> (r: bool)
        requires
            self.env_wf(),
            core_ok(self.params(), old(dst)@),
            core_ok(self.params(), src@),
            old(dst)@.header.leaf == src@.header.leaf,
            old(dst)@.header.edge_id == EMPTY_BNODEID,
            src@.header.leaf ==> src@.header.edge_id == EMPTY_BNODEID,
            *old(cursor) <= src@.header.nentries,
        ensures
            absorbed(
                self.params(),
                old(dst)@,
                src@,
                *old(cursor) as int,
                final(dst)@,
                *final(cursor) as int,
                r,
            ),
            ({
                let p = self.params();
                let l = p.layout(src@.header.leaf);
                let fill = self.config.ideal_fill_size as int;
                let s = last_node(p, old(dst)@);
                let e = ents(p, src@).skip(*old(cursor) as int);
                *final(cursor) - *old(cursor) == if copy_only_if_fits && l.entries_size(e) > fill
                    - s.occ {
                    0
                } else {
                    l.fitting(s.room(p, l, fill), e)
                }
            }),
            used(self.params(), final(dst)@) == self.params().layout(
                src@.header.leaf,
            ).used_with(
                self.params().node_size,
                used(self.params(), old(dst)@),
                ents(self.params(), old(dst)@),
                ents(self.params(), src@).subrange(*old(cursor) as int, *final(cursor) as int),
            ),
    {
        let fill: u32 = self.config.ideal_fill_size;
        let ghost d1 = dst@;
        let ghost c1 = *cursor as int;
        if src.is_leaf() {
            let r = self.leaf_ops.append_copy_in_upto_size::<K, V>(
                dst,
                src,
                cursor,
                fill,
                copy_only_if_fits,
            );
            proof {
                self.leaf_ops.lemma_append_count::<K, V>(
                    d1,
                    src@,
                    c1,
                    fill as int,
                    copy_only_if_fits,
                    dst@,
                    *cursor as int,
                    r,
                );
                assert(ents(self.params(), d1) + ents(self.params(), src@).subrange(c1, c1) =~= ents(
                    self.params(),
                    d1,
                ));
            }
            r
        } else {
            let r = self.int_ops.append_copy_in_upto_size::<K, u64>(
                dst,
                src,
                cursor,
                fill,
                copy_only_if_fits,
            );
            proof {
                self.int_ops.lemma_append_count::<K, u64>(
                    d1,
                    src@,
                    c1,
                    fill as int,
                    copy_only_if_fits,
                    dst@,
                    *cursor as int,
                    r,
                );
                assert(ents(self.params(), d1) + ents(self.params(), src@).subrange(c1, c1) =~= ents(
                    self.params(),
                    d1,
                ));
            }
            r
        }
    }

    /// Deletes nodes that were created for nothing; the node `keep` is none of them.
    fn discard(&mut self, nodes: &Vec<NodeCore>, keep: BNodeId, Ghost(st): Ghost<Store>) -> (r:
        Result<(), BtreeError>)
        requires
            kept(st, old(self).storage.store()),
            forall|i: int|
                0 <= i < nodes@.len() ==> {
                    let id = (#[trigger] nodes@[i])@.header.node_id;
                    id == keep || !st.nodes.contains_key(id) && old(
                        self,
                    ).storage.store().nodes.contains_key(id)
                },
            forall|i: int, j: int|
                0 <= i < j < nodes@.len() ==> (#[trigger] nodes@[i])@.header.node_id != (
                #[trigger] nodes@[j])@.header.node_id,
        ensures
            r matches Err(e) ==> old(self).storage.failures().contains(e),
            final(self).env_of(old(self)),
            final(self).tree == old(self).tree,
            final(self).height == old(self).height,
            final(self).root_node_id == old(self).root_node_id,
            final(self).storage.root() == old(self).storage.root(),
            r is Ok ==> kept(st, final(self).storage.store()),
            r is Ok ==> final(self).storage.store() == (Store {
                nodes: old(self).storage.store().nodes.remove_keys(
                    ids_of(views(nodes@)).to_set().remove(keep),
                ),
                ..old(self).storage.store()
            }),
            old(self).storage.reliable() ==> r is Ok,
    {
        let n: usize = nodes.len();
        let ghost st1 = self.storage.store();
        let ghost ids = ids_of(views(nodes@));
        let mut i: usize = 0;
        proof {
            assert(st1.nodes.remove_keys(ids.take(0).to_set().remove(keep)) =~= st1.nodes);
        }
        while i < n
            invariant
                n == nodes@.len(),
                i <= n,
                self.env_of(old(self)),
                self.tree == old(self).tree,
                self.height == old(self).height,
                self.root_node_id == old(self).root_node_id,
                self.storage.root() == old(self).storage.root(),
                kept(st, self.storage.store()),
                ids == ids_of(views(nodes@)),
                st1 == old(self).storage.store(),
                self.storage.store() == (Store {
                    nodes: st1.nodes.remove_keys(ids.take(i as int).to_set().remove(keep)),
                    ..st1
                }),
                forall|m: int|
                    i <= m < nodes@.len() ==> {
                        let id = (#[trigger] nodes@[m])@.header.node_id;
                        id == keep || !st.nodes.contains_key(id)
                            && self.storage.store().nodes.contains_key(id)
                    },
                forall|m: int, j: int|
                    0 <= m < j < nodes@.len() ==> (#[trigger] nodes@[m])@.header.node_id != (
                    #[trigger] nodes@[j])@.header.node_id,
            decreases n - i,
        {
            let id: BNodeId = nodes[i].node_id();
            if id != keep {
                if let Err(e) = self.storage.delete_node(id) {
                    return Err(e);
                }
            }
            proof {
                assert(ids.take(i + 1) =~= ids.take(i as int).push(id));
                lemma_remove_but(st1.nodes, ids.take(i as int), id, keep);
            }
            i = i + 1;
        }
        proof {
            assert(ids.take(n as int) =~= ids);
        }
        Ok(())
    }
}

//==============================================================================
// Packing
//==============================================================================

/// The nodes of a packing: the first one is the leftmost child, the others are new.
pub open spec fn packed_ids(st: Store, id0: u64, all: Seq<CoreView>, st2: Store) -> bool {
    &&& all.len() > 0
    &&& all[0].header.node_id == id0
    &&& forall|i: int|
        0 < i < all.len() ==> {
            let id = (#[trigger] all[i]).header.node_id;
            &&& !st.nodes.contains_key(id)
            &&& st2.nodes.contains_key(id)
            &&& id != EMPTY_BNODEID
        }
    &&& forall|i: int, j: int|
        0 <= i < j < all.len() ==> (#[trigger] all[i]).header.node_id != (
        #[trigger] all[j]).header.node_id
    &&& forall|i: int|
        0 <= i < all.len() ==> (#[trigger] all[i]).header.node_variant
            == st.nodes[id0].header.node_variant
    &&& st.nodes.contains_key(id0)
    &&& id0 != EMPTY_BNODEID
    &&& kept(st, st2)
    &&& forall|x: u64| #[trigger]
        st2.nodes.contains_key(x) ==> st.nodes.contains_key(x) || ids_of(all).contains(x)
}

/// The nodes hold the entries `x`, cut at the given offsets, the last one the rest.
pub open spec fn packed_entries(
    p: Params,
    leaf: bool,
    x: Seq<Entry>,
    all: Seq<CoreView>,
    o: Seq<int>,
) -> bool {
    &&& o.len() == all.len()
    &&& o.len() > 0
    &&& o[0] == 0
    &&& forall|i: int, j: int| 0 <= i < j < o.len() ==> #[trigger] o[i] < #[trigger] o[j]
    &&& o.last() <= x.len()
    &&& forall|i: int|
        0 <= i < all.len() ==> core_ok(p, #[trigger] all[i]) && all[i].header.leaf == leaf
    &&& forall|i: int|
        0 <= i < all.len() - 1 ==> ents(p, #[trigger] all[i]) == x.subrange(o[i], o[i + 1])
            && all[i].header.edge_id == EMPTY_BNODEID
    &&& ents(p, all.last()) == x.skip(o.last())
}

/// The result of a packing: the first `c` children from `a` on, in new nodes.
pub open spec fn packed(
    p: Params,
    st: Store,
    w: Place,
    a: int,
    c: nat,
    all: Seq<CoreView>,
    o: Seq<int>,
    st2: Store,
) -> bool {
    let j = join_upto(w.t, a, c);
    &&& 0 < c
    &&& a + c <= w.t.kids.len()
    &&& packed_ids(st, w.t.kids[a].id, all, st2)
    &&& packed_entries(p, j.leaf, j.es, all, o)
    &&& all.last().header.edge_id == j.edge_id()
    &&& o.last() < j.es.len() || j.edge
}

/// The contents of several nodes.
pub open spec fn views(s: Seq<NodeCore>) -> Seq<CoreView> {
    Seq::new(s.len(), |i: int| s[i]@)
}

/// The last node of a packing has taken in more entries.
proof fn lemma_packed_more(
    p: Params,
    leaf: bool,
    x: Seq<Entry>,
    all: Seq<CoreView>,
    o: Seq<int>,
    y: Seq<Entry>,
    cur: CoreView,
)
    requires
        packed_entries(p, leaf, x, all, o),
        core_ok(p, cur),
        cur.header.leaf == leaf,
        ents(p, cur) == ents(p, all.last()) + y,
    ensures
        packed_entries(p, leaf, x + y, all.update(all.len() - 1, cur), o),
{
    let all2 = all.update(all.len() - 1, cur);
    let z = x + y;
    assert forall|i: int| 0 <= i < all2.len() - 1 implies ents(p, #[trigger] all2[i]) == z.subrange(
        o[i],
        o[i + 1],
    ) && all2[i].header.edge_id == EMPTY_BNODEID by {
        assert(all2[i] == all[i]);
        if i + 1 < o.len() - 1 {
            assert(o[i + 1] < o[o.len() - 1]);
        }
        assert(x.subrange(o[i], o[i + 1]) =~= z.subrange(o[i], o[i + 1])) by {
            if i > 0 {
                assert(o[0] < o[i]);
            }
            assert(o[i] < o[i + 1]);
        }
    }
    assert(z.skip(o.last()) =~= x.skip(o.last()) + y) by {
        if o.len() > 1 {
            assert(o[0] < o[o.len() - 1]);
        }
    }
}

/// The last node of a packing is full, and an empty one follows it.
proof fn lemma_packed_push(
    p: Params,
    leaf: bool,
    x: Seq<Entry>,
    all: Seq<CoreView>,
    o: Seq<int>,
    f: CoreView,
)
    requires
        packed_entries(p, leaf, x, all, o),
        ents(p, all.last()).len() > 0,
        all.last().header.edge_id == EMPTY_BNODEID,
        core_ok(p, f),
        f.header.leaf == leaf,
        ents(p, f) == Seq::<Entry>::empty(),
    ensures
        packed_entries(p, leaf, x, all.push(f), o.push(x.len() as int)),
{
    let all2 = all.push(f);
    let o2 = o.push(x.len() as int);
    if o.len() > 1 {
        assert(o[0] < o[o.len() - 1]);
    }
    assert(x.skip(o.last()).len() == x.len() - o.last());
    assert forall|i: int, j: int| 0 <= i < j < o2.len() implies #[trigger] o2[i] < #[trigger] o2[j] by {
        if j == o.len() && i < o.len() - 1 {
            assert(o[i] < o[o.len() - 1]);
        }
    }
    assert forall|i: int| 0 <= i < all2.len() - 1 implies ents(p, #[trigger] all2[i]) == x.subrange(
        o2[i],
        o2[i + 1],
    ) && all2[i].header.edge_id == EMPTY_BNODEID by {
        assert(all2[i] == all[i]);
        if i == all.len() - 1 {
            assert(x.subrange(o2[i], o2[i + 1]) =~= x.skip(o.last()));
        }
    }
    assert(x.skip(o2.last()) =~= Seq::<Entry>::empty());
}

/// One more child has been joined.
proof fn lemma_join_next(t: Tree, a: int, c: nat)
    requires
        0 < c,
    ensures
        join_upto(t, a, c + 1).es == join_upto(t, a, c).es + t.kids[a + c].es,
        join_upto(t, a, c + 1).leaf == join_upto(t, a, c).leaf,
{
}

impl<K: BtreeKey, V: BtreeValue, S: UnderlyingBtree> Btree<K, V, S> {
    /// Packs the children from `start_idx` to `end_idx` into nodes that are filled as far as
    /// the configuration wants it; the last child is taken in as a whole or not at all. The
    /// first of the nodes stands for the leftmost child. Nothing is answered where the children
    /// have no entries, or cannot be packed this way.
    #[verifier::spinoff_prover]
    #[verifier::rlimit(40)]
    fn pack_children(
        &mut self,
        parent: &NodeCore,
        leftmost: NodeCore,
        start_idx: u32,
        end_idx: u32,
        Ghost(w): Ghost<Place>,
    ) -> (r: Result<Option<(Vec<NodeCore>, u32, Ghost<Seq<int>>)>, BtreeError>)
        requires
            old(self).at(parent@, w),
            !w.t.leaf,
            start_idx < end_idx < w.t.kids.len(),
            old(self).at(leftmost@, w.kid(start_idx as int)),
        ensures
            r matches Err(e) ==> old(self).storage.failures().contains(e),
            final(self).env_of(old(self)),
            final(self).tree == old(self).tree,
            final(self).height == old(self).height,
            final(self).root_node_id == old(self).root_node_id,
            final(self).storage.root() == old(self).storage.root(),
            r matches Ok(Some((ns, c, o))) ==> packed(
                old(self).params(),
                old(self).storage.store(),
                w,
                start_idx as int,
                c as nat,
                views(ns@),
                o@,
                final(self).storage.store(),
            ) && start_idx + c <= end_idx + 1,
            r matches Ok(None) ==> final(self).storage.store() == old(self).storage.store(),
            r matches Ok(x) ==> plan(
                old(self).params(),
                old(self).config.ideal_fill_size as int,
                old(self).storage.store(),
                w.t,
                start_idx as int,
                end_idx as int,
            ) == match x {
                Some((_, c, o)) => Some((c as nat, o@)),
                None => None,
            },
            r is Ok || old(self).storage.reliable() ==> kept(
                old(self).storage.store(),
                final(self).storage.store(),
            ),
            r is Err && old(self).storage.reliable() ==> final(self).storage.exhausted(),
    {
        let ghost p = self.params();
        let ghost st = self.storage.store();
        let ghost a = start_idx as int;
        let ghost t = w.t;
        let ghost id0 = t.kids[a].id;
        let ghost fill = self.config.ideal_fill_size as int;
        let is_leaf: bool = leftmost.is_leaf();
        let variant: u8 = leftmost.header.node_variant;
        let keep: BNodeId = leftmost.node_id();
        let mut new_nodes: Vec<NodeCore> = Vec::new();
        let mut cur = leftmost;
        let mut idx: u32 = start_idx + 1;
        let mut give_up: bool = false;
        let mut stop: bool = false;
        let ghost mut o: Seq<int> = seq![0int];
        let ghost l = p.layout(is_leaf);
        let ghost b = end_idx as int;
        let ghost mut s = Packing { cuts: o, ..last_node(p, cur@) };
        proof {
            self.lemma_at(leftmost@, w.kid(a));
            self.lemma_kid_at(parent@, w, a);
            let all = views(new_nodes@).push(cur@);
            assert(all.len() == 1 && all[0] == cur@);
            assert(ents(p, cur@) == t.kids[a].es);
            assert(t.kids[a].es.skip(0) =~= t.kids[a].es);
            assert(packed_entries(p, is_leaf, t.kids[a].es, all, o));
            assert(!t.kids[a].edge) by {
                assert(t.es[a].val == id_bytes(t.kids[a].id));
            }
            lemma_packing_one(p, fill, st, t, a);
        }
        while idx <= end_idx && !give_up && !stop
            invariant
                old(self).at(parent@, w),
                self.env_of(old(self)),
                self.tree == old(self).tree,
                self.height == old(self).height,
                self.root_node_id == old(self).root_node_id,
                self.storage.root() == old(self).storage.root(),
                p == old(self).params(),
                st == old(self).storage.store(),
                a == start_idx,
                t == w.t,
                !t.leaf,
                id0 == t.kids[a].id,
                keep == id0,
                start_idx < idx <= end_idx + 1,
                end_idx < t.kids.len(),
                is_leaf == t.kids[a].leaf,
                variant == st.nodes[id0].header.node_variant,
                packed_ids(st, id0, views(new_nodes@).push(cur@), self.storage.store()),
                !give_up ==> packed_entries(
                    p,
                    is_leaf,
                    join_upto(t, a, (idx - a) as nat).es,
                    views(new_nodes@).push(cur@),
                    o,
                ),
                !give_up ==> cur@.header.edge_id == join_upto(t, a, (idx - a) as nat).edge_id(),
                !give_up ==> join_upto(t, a, (idx - a) as nat).leaf == is_leaf,
                idx <= end_idx && !give_up ==> cur@.header.edge_id == EMPTY_BNODEID,
                fill == old(self).config.ideal_fill_size,
                l == p.layout(is_leaf),
                b == end_idx,
                !give_up ==> s == (Packing { cuts: o, ..last_node(p, cur@) }),
                idx <= end_idx && !give_up && !stop ==> packing_upto(
                    p,
                    fill,
                    st,
                    t,
                    a,
                    (idx - a) as nat,
                ) == Some(s),
                idx > end_idx || stop ==> packing_all(p, fill, st, t, a, b) == Some(
                    ((idx - a) as nat, s),
                ),
                give_up ==> packing_all(p, fill, st, t, a, b) is None && idx <= end_idx && !stop,
                join_upto(t, a, (idx - a) as nat).edge ==> join_upto(
                    t,
                    a,
                    (idx - a) as nat,
                ).edge_id() != EMPTY_BNODEID,
            decreases end_idx + 1 - idx + if give_up || stop {
                0int
            } else {
                1int
            },
        {
            let ghost st1 = self.storage.store();
            let ghost c = (idx - a) as nat;
            let ghost j = join_upto(t, a, c);
            proof {
                lemma_kept_placed::<K, V>(p, st, st1, w);
                assert(self.at(parent@, w));
            }
            let old_node = match self.get_child(parent, idx, Ghost(w)) {
                Ok(n) => n,
                Err(e) => {
                    return Err(e);
                },
            };
            let ghost kw = w.kid(idx as int);
            let ghost e = t.kids[idx as int].es;
            proof {
                self.lemma_at(old_node@, kw);
                self.lemma_kid_at(parent@, w, a);
                assert(sound_at::<K, V>(p, w.kid(a)));
                assert(sound_at::<K, V>(p, kw));
                assert(e.take(0) =~= Seq::<Entry>::empty());
                assert(j.es + e.take(0) =~= j.es);
                assert(ents(p, old_node@) == e);
                if t.kids[idx as int].edge {
                    self.lemma_kid_at(old_node@, kw, t.kids[idx as int].kids.len() - 1);
                }
                assert(t.kids[idx as int].edge ==> idx == t.es.len()) by {
                    if idx < t.es.len() {
                        assert(t.es[idx as int].val == id_bytes(t.kids[idx as int].id));
                    }
                }
            }
            proof {
                assert(rep(p, st.nodes, t.kid(idx as int)));
                assert(node_rep(p, st.nodes, t.kid(idx as int)));
                assert(old_node@ == st.nodes[t.kids[idx as int].id]);
                lemma_filling_start(p, fill, st, t, a, b, idx as int, s);
            }
            let whole: bool = idx == end_idx;
            let mut cursor: u32 = 0;
            let mut more: bool = true;
            while more && !give_up && !stop
                invariant
                    old(self).at(parent@, w),
                    self.env_of(old(self)),
                    self.tree == old(self).tree,
                    self.height == old(self).height,
                    self.root_node_id == old(self).root_node_id,
                    self.storage.root() == old(self).storage.root(),
                    p == old(self).params(),
                    st == old(self).storage.store(),
                    a == start_idx,
                    t == w.t,
                    id0 == t.kids[a].id,
                    c == idx - a,
                    j == join_upto(t, a, c),
                    e == t.kids[idx as int].es,
                    start_idx < idx <= end_idx,
                    whole == (idx == end_idx),
                    core_ok(p, old_node@),
                    ents(p, old_node@) == e,
                    old_node@.header.leaf == is_leaf,
                    old_node@.header.nentries == e.len(),
                    is_leaf ==> old_node@.header.edge_id == EMPTY_BNODEID,
                    old_node@.header.edge_id == t.kids[idx as int].edge_id(),
                    cursor <= e.len(),
                    variant == st.nodes[id0].header.node_variant,
                    packed_ids(st, id0, views(new_nodes@).push(cur@), self.storage.store()),
                    !give_up ==> packed_entries(
                        p,
                        is_leaf,
                        j.es + e.take(cursor as int),
                        views(new_nodes@).push(cur@),
                        o,
                    ),
                    more && !give_up ==> cur@.header.edge_id == EMPTY_BNODEID,
                    !more ==> cursor == e.len() && !stop && cur@.header.edge_id
                        == old_node@.header.edge_id,
                    stop ==> cursor == 0 && whole && more && !give_up,
                    fill == old(self).config.ideal_fill_size,
                    l == p.layout(is_leaf),
                    b == end_idx,
                    is_leaf == t.kids[a].leaf,
                    old_node@ == st.nodes[t.kids[idx as int].id],
                    !give_up ==> s == (Packing { cuts: o, ..last_node(p, cur@) }),
                    filling(
                        p,
                        fill,
                        st,
                        t,
                        a,
                        b,
                        idx as int,
                        s,
                        cursor as int,
                        more,
                        give_up,
                        stop,
                    ),
                decreases
                        e.len() - cursor,
                        if cur@.header.nentries > 0 {
                            1int
                        } else {
                            0int
                        },
                        if give_up || stop || !more {
                            0int
                        } else {
                            1int
                        },
            {
                let ghost before = cursor as int;
                let ghost x = j.es + e.take(before);
                let ghost all = views(new_nodes@).push(cur@);
                more = self.absorb_or_fill(&mut cur, &old_node, &mut cursor, whole);
                proof {
                    let y = e.subrange(before, cursor as int);
                    lemma_filling_step(
                        p,
                        fill,
                        st,
                        t,
                        a,
                        b,
                        idx as int,
                        s,
                        before,
                        cursor as int,
                    );
                    s = s.with(p, l, y);
                    lemma_packed_more(p, is_leaf, x, all, o, y, cur@);
                    assert(x + y =~= j.es + e.take(cursor as int));
                    let all2 = views(new_nodes@).push(cur@);
                    assert(all2 =~= all.update(all.len() - 1, cur@));
                    lemma_same_ids(st, id0, all, all2, self.storage.store());
                }
                if more {
                    if whole {
                        if cursor == 0 {
                            stop = true;
                        } else {
                            give_up = true;
                        }
                    } else if cur.header.nentries == 0 {
                        give_up = true;
                    } else {
                        let ghost all = views(new_nodes@).push(cur@);
                        let ghost st1 = self.storage.store();
                        let fresh = match self.create_new_node(is_leaf, variant) {
                            Ok(n) => n,
                            Err(e) => {
                                proof {
                                    assert(kept(st, self.storage.store())
                                        || !self.storage.reliable());
                                }
                                return Err(e);
                            },
                        };
                        proof {
                            lemma_packed_push(
                                p,
                                is_leaf,
                                j.es + e.take(cursor as int),
                                all,
                                o,
                                fresh@,
                            );
                            o = o.push((j.es + e.take(cursor as int)).len() as int);
                            s = s.next();
                            lemma_more_ids(st, id0, all, st1, fresh@, self.storage.store());
                        }
                        new_nodes.push(cur);
                        cur = fresh;
                        proof {
                            assert(views(new_nodes@).push(cur@) =~= all.push(fresh@));
                        }
                    }
                }
            }
            proof {
                lemma_filling_done(
                    p,
                    fill,
                    st,
                    t,
                    a,
                    b,
                    idx as int,
                    s,
                    cursor as int,
                    more,
                    give_up,
                    stop,
                );
            }
            if !stop && !give_up {
                proof {
                    lemma_join_next(t, a, c);
                    assert(e.take(e.len() as int) =~= e);
                    assert(join_upto(t, a, (idx + 1 - a) as nat) == join2(j, t.kids[idx as int]));
                    if t.kids[idx as int].edge {
                        assert(join2(j, t.kids[idx as int]).kids.last() == t.kids[idx as int].kids.last());
                    }
                }
                idx = idx + 1;
            } else {
                proof {
                    assert(j.es + e.take(0) =~= j.es);
                }
            }
        }
        let ghost st1 = self.storage.store();
        let ghost all = views(new_nodes@).push(cur@);
        let empty: bool = cur.header.nentries == 0 && !cur.has_valid_edge();
        let c: u32 = idx - start_idx;
        new_nodes.push(cur);
        proof {
            assert(views(new_nodes@) =~= all);
        }
        if give_up || empty {
            proof {
                assert forall|i: int| 0 <= i < new_nodes@.len() implies {
                    let id = (#[trigger] new_nodes@[i])@.header.node_id;
                    id == keep || !st.nodes.contains_key(id)
                        && self.storage.store().nodes.contains_key(id)
                } by {
                    assert(all[i] == new_nodes@[i]@);
                }
                assert forall|i: int, j: int| 0 <= i < j < new_nodes@.len() implies (
                #[trigger] new_nodes@[i])@.header.node_id != (
                #[trigger] new_nodes@[j])@.header.node_id by {
                    assert(all[i] == new_nodes@[i]@ && all[j] == new_nodes@[j]@);
                }
            }
            return match self.discard(&new_nodes, keep, Ghost(st)) {
                Ok(()) => {
                    proof {
                        lemma_discarded(st, keep, views(new_nodes@), st1, self.storage.store());
                    }
                    Ok(None)
                },
                Err(e) => Err(e),
            };
        }
        proof {
            let j = join_upto(t, a, c as nat);
            assert(ents(p, all.last()).len() == cur@.header.nentries);
            assert(j.es.skip(o.last()).len() == j.es.len() - o.last()) by {
                if o.len() > 1 {
                    assert(o[0] < o[o.len() - 1]);
                }
            }
            if j.edge_id() == EMPTY_BNODEID {
                assert(cur@.header.nentries > 0);
            }
        }
        Ok(Some((new_nodes, c, Ghost(o))))
    }
}

/// A packing that is given up leaves nothing behind.
proof fn lemma_discarded(st: Store, id0: u64, all: Seq<CoreView>, st1: Store, st2: Store)
    requires
        packed_ids(st, id0, all, st1),
        st2 == (Store { nodes: st1.nodes.remove_keys(ids_of(all).to_set().remove(id0)), ..st1 }),
    ensures
        st2 == st,
{
    let ids = ids_of(all);
    assert forall|x: u64| #[trigger] st2.nodes.contains_key(x) == st.nodes.contains_key(x) by {
        if ids.contains(x) {
            let i = choose|i: int| 0 <= i < ids.len() && ids[i] == x;
            assert(all[i].header.node_id == x);
        }
    }
    assert(st2.nodes =~= st.nodes);
}

/// The nodes of a packing keep their ids.
proof fn lemma_same_ids(st: Store, id0: u64, all: Seq<CoreView>, all2: Seq<CoreView>, st2: Store)
    requires
        packed_ids(st, id0, all, st2),
        all2.len() == all.len(),
        forall|i: int|
            0 <= i < all.len() ==> (#[trigger] all2[i]).header.node_id == all[i].header.node_id
                && all2[i].header.node_variant == all[i].header.node_variant,
    ensures
        packed_ids(st, id0, all2, st2),
{
    assert(all2[0].header.node_id == all[0].header.node_id);
    assert forall|i: int| 0 < i < all2.len() implies {
        let id = (#[trigger] all2[i]).header.node_id;
        &&& !st.nodes.contains_key(id)
        &&& st2.nodes.contains_key(id)
        &&& id != EMPTY_BNODEID
    } by {
        assert(all2[i].header.node_id == all[i].header.node_id);
    }
    assert forall|i: int, j: int| 0 <= i < j < all2.len() implies (
    #[trigger] all2[i]).header.node_id != (#[trigger] all2[j]).header.node_id by {
        assert(all2[i].header.node_id == all[i].header.node_id);
        assert(all2[j].header.node_id == all[j].header.node_id);
    }
    assert(ids_of(all2) =~= ids_of(all));
}

/// A new node joins a packing.
proof fn lemma_more_ids(
    st: Store,
    id0: u64,
    all: Seq<CoreView>,
    st1: Store,
    f: CoreView,
    st2: Store,
)
    requires
        packed_ids(st, id0, all, st1),
        !st1.nodes.contains_key(f.header.node_id),
        f.header.node_id != EMPTY_BNODEID,
        f.header.node_variant == st.nodes[id0].header.node_variant,
        st2.ov == st1.ov,
        st2.nodes == st1.nodes.insert(f.header.node_id, st2.nodes[f.header.node_id]),
    ensures
        packed_ids(st, id0, all.push(f), st2),
{
    let all2 = all.push(f);
    assert forall|i: int| 0 < i < all2.len() implies {
        let id = (#[trigger] all2[i]).header.node_id;
        &&& !st.nodes.contains_key(id)
        &&& st2.nodes.contains_key(id)
        &&& id != EMPTY_BNODEID
    } by {
        if i < all.len() {
            assert(all2[i] == all[i]);
        }
    }
    assert forall|i: int, j: int| 0 <= i < j < all2.len() implies (
    #[trigger] all2[i]).header.node_id != (#[trigger] all2[j]).header.node_id by {
        assert(all2[i] == all[i]);
        if j < all.len() {
            assert(all2[j] == all[j]);
        } else if i == 0 {
            assert(st1.nodes.contains_key(id0));
        }
    }
    assert forall|x: u64| #[trigger] st2.nodes.contains_key(x) implies st.nodes.contains_key(x)
        || ids_of(all2).contains(x) by {
        if x == f.header.node_id {
            assert(ids_of(all2)[all.len() as int] == x);
        } else if ids_of(all).contains(x) {
            let i = choose|i: int| 0 <= i < ids_of(all).len() && ids_of(all)[i] == x;
            assert(ids_of(all2)[i] == x);
        }
    }
}

//==============================================================================
// The decision
//==============================================================================

impl<K: BtreeKey, V: BtreeValue, S: UnderlyingBtree> Btree<K, V, S> {
    /// Whether a merge is worth it. Any saved node is, under an aggressive policy; a
    /// conservative one wants two, or one where only two nodes were available.
    pub(crate) fn should_accept_merge(&self, attempted: u32, old_total: usize, new_total: usize) -> (r:
        bool)
        ensures
            r == worth_merging(
                self.config.merge_policy,
                attempted as int,
                old_total as int,
                new_total as int,
            ),
    {
        if new_total >= old_total {
            return false;
        }
        let nodes_saved: usize = old_total - new_total;
        match self.config.merge_policy {
            MergePolicy::Never => false,
            MergePolicy::Aggressive => nodes_saved > 0,
            MergePolicy::Conservative => if attempted == 2 {
                nodes_saved >= 1
            } else {
                nodes_saved >= 2
            },
        }
    }

    /// Whether a child has so few bytes in use that it should be merged with its neighbours.
    pub(crate) fn is_merge_needed(&self, child: &NodeCore, Ghost(w): Ghost<Place>) -> (r: bool)
        requires
            self.at(child@, w),
        ensures
            r == under_filled(self.params(), self.config, child@),
    {
        proof {
            self.lemma_at(child@, w);
        }
        let occupied: usize = if child.is_leaf() {
            self.leaf_ops.occupied_size::<K, V>(child)
        } else {
            self.int_ops.occupied_size::<K, u64>(child)
        };
        self.config.merge_policy != MergePolicy::Never && occupied
            < self.config.suggested_min_size as usize
    }

    /// The last key of a node.
    pub(crate) fn get_last_key(&self, core: &NodeCore) -> (r: K)
        requires
            self.env_wf(),
            core_ok(self.params(), core@),
            core@.header.nentries > 0,
            K::valid(ents(self.params(), core@).last().key),
        ensures
            r.bytes() == ents(self.params(), core@).last().key,
    {
        let n: u32 = core.header.nentries;
        if core.is_leaf() {
            self.leaf_ops.get_nth_key::<K, V>(core, n - 1)
        } else {
            self.int_ops.get_nth_key::<K, u64>(core, n - 1)
        }
    }
}

//==============================================================================
// Committing
//==============================================================================

/// The ids of nodes.
pub open spec fn ids_of(all: Seq<CoreView>) -> Seq<u64> {
    Seq::new(all.len(), |i: int| all[i].header.node_id)
}

/// The successors of nodes in a chain that ends in `last`.
pub open spec fn chain_of(all: Seq<CoreView>, last: u64) -> Seq<u64> {
    Seq::new(
        all.len(),
        |i: int|
            if i + 1 < all.len() {
                all[i + 1].header.node_id
            } else {
                last
            },
    )
}

/// A packing cuts the joined children.
proof fn lemma_packed_cuts(
    p: Params,
    st: Store,
    w: Place,
    a: int,
    c: nat,
    all: Seq<CoreView>,
    o: Seq<int>,
    st2: Store,
)
    requires
        packed(p, st, w, a, c, all, o, st2),
    ensures
        cuts(join_upto(w.t, a, c), o.push(join_upto(w.t, a, c).es.len() as int)),
        piece_ids(st, w.t.kids[a].id, ids_of(all)),
        forall|i: int|
            0 <= i < all.len() ==> {
                let j = join_upto(w.t, a, c);
                let o2 = o.push(j.es.len() as int);
                &&& ents(p, #[trigger] all[i]) == j.es.subrange(o2[i], o2[i + 1])
                &&& all[i].header.edge_id == if i == all.len() - 1 {
                    j.edge_id()
                } else {
                    EMPTY_BNODEID
                }
            },
{
    let j = join_upto(w.t, a, c);
    let o2 = o.push(j.es.len() as int);
    assert forall|x: int, y: int| 0 <= x < y < o2.len() - 1 implies #[trigger] o2[x]
        < #[trigger] o2[y] by {
        assert(o[x] < o[y]);
    }
    let ids = ids_of(all);
    assert forall|i: int| 0 < i < ids.len() implies !st.nodes.contains_key(#[trigger] ids[i])
        && ids[i] != EMPTY_BNODEID by {
        assert(ids[i] == all[i].header.node_id);
    }
    assert forall|i: int, m: int| 0 <= i < m < ids.len() implies #[trigger] ids[i]
        != #[trigger] ids[m] by {
        assert(ids[i] == all[i].header.node_id && ids[m] == all[m].header.node_id);
    }
    assert forall|i: int| 0 <= i < all.len() implies {
        &&& ents(p, #[trigger] all[i]) == j.es.subrange(o2[i], o2[i + 1])
        &&& all[i].header.edge_id == if i == all.len() - 1 {
            j.edge_id()
        } else {
            EMPTY_BNODEID
        }
    } by {
        if i == all.len() - 1 {
            assert(j.es.skip(o.last()) =~= j.es.subrange(o2[i], o2[i + 1])) by {
                if o.len() > 1 {
                    assert(o[0] < o[o.len() - 1]);
                }
            }
        }
    }
}

impl<K: BtreeKey, V: BtreeValue, S: UnderlyingBtree> Btree<K, V, S> {
    /// The parent with entries for the packed nodes in place of those for the first `c`
    /// children from `a` on, if its keys leave room for that.
    fn rebuild_parent(
        &self,
        parent: &NodeCore,
        ns: &Vec<NodeCore>,
        a: u32,
        c: u32,
        Ghost(w): Ghost<Place>,
        Ghost(o): Ghost<Seq<int>>,
        Ghost(st): Ghost<Store>,
        Ghost(nexts): Ghost<Seq<u64>>,
    ) -> (r: Option<NodeCore>)
        requires
            self.env_wf(),
            placed::<K, V>(self.params(), st, w),
            !w.t.leaf,
            core_rep(self.params(), parent@, w.t),
            packed(
                self.params(),
                st,
                w,
                a as int,
                c as nat,
                views(ns@),
                o,
                self.storage.store(),
            ),
            ns@.len() < c,
            a + c <= u32::MAX,
        ensures
            r matches Some(p2) ==> ({
                let j = join_upto(w.t, a as int, c as nat);
                let o2 = o.push(j.es.len() as int);
                core_rep(
                    self.params(),
                    p2@,
                    spliced(
                        w.t,
                        a as int,
                        a + c - 1,
                        cut_pieces(j, o2, ids_of(views(ns@)), nexts),
                        piece_keys(w.t, a + c - 1, j, o2),
                    ),
                )
            }),
            r matches Some(p2) ==> same_kind(p2@, parent@),
            r is Some == keys_fit(
                self.params(),
                w.t,
                a as int,
                a + c - 1,
                piece_keys(
                    w.t,
                    a + c - 1,
                    join_upto(w.t, a as int, c as nat),
                    o.push(join_upto(w.t, a as int, c as nat).es.len() as int),
                ),
            ),
    {
        let ghost p = self.params();
        let ghost t = w.t;
        let ghost jw = join_place(w, a as int, c as nat);
        let ghost j = jw.t;
        let ghost o2 = o.push(j.es.len() as int);
        let ghost all = views(ns@);
        let ghost ids = ids_of(all);
        let ghost pieces = cut_pieces(j, o2, ids, nexts);
        let ghost keys = piece_keys(t, a + c - 1, j, o2);
        let n: u32 = ns.len() as u32;
        let b: u32 = a + c - 1;
        let total: u32 = parent.header.nentries;
        let at_edge: bool = b == total;
        proof {
            self.config.lemma_usable::<K, V>();
            lemma_packed_cuts(p, st, w, a as int, c as nat, all, o, self.storage.store());
            lemma_join::<K, V>(p, w, a as int, c as nat);
            assert(sound_at::<K, V>(p, jw));
            assert(p.interior.entries(parent@.buf, total as int).len() == total);
            assert(total == t.es.len());
            if at_edge {
                assert(t.es[a + n - 1].val == id_bytes(t.kids[a + n - 1].id));
                lemma_id_bytes(t.kids[a + n - 1].id);
                assert(t.edge);
                assert(rep(p, st.nodes, t.kid(t.kids.len() - 1)));
                assert(node_rep(p, st.nodes, t.kid(t.kids.len() - 1)));
            }
        }
        let mut p2 = parent.copy();
        let _ = self.int_ops.remove_range::<K, u64>(&mut p2, a + n, b);
        let ghost base = ents(p, p2@);
        let nk: u32 = if at_edge {
            n - 1
        } else {
            n
        };
        proof {
            if at_edge {
                assert(base =~= t.es.take(a + n - 1));
            } else {
                assert(base =~= t.es.take(a + n) + t.es.skip(b + 1));
            }
            assert(keys.len() == nk);
            assert(base =~= staying(t, a as int, b as int, nk as int));
        }
        let mut i: u32 = n;
        while i > 0
            invariant
                self.env_wf(),
                p == self.params(),
                p.wf(),
                t == w.t,
                !t.leaf,
                !p2@.header.leaf,
                all == views(ns@),
                ids == ids_of(all),
                n == ns@.len(),
                jw == join_place(w, a as int, c as nat),
                j == jw.t,
                o2 == o.push(j.es.len() as int),
                cuts(j, o2),
                o2.len() == n + 1,
                sound_at::<K, V>(p, jw),
                keys == piece_keys(t, a + c - 1, j, o2),
                nk == keys.len(),
                nk == if at_edge {
                    n - 1
                } else {
                    n as int
                },
                a + c <= u32::MAX,
                n < c,
                b == a + c - 1,
                j.edge ==> at_edge,
                forall|m: int|
                    0 <= m < all.len() ==> ents(p, #[trigger] all[m]) == j.es.subrange(
                        o2[m],
                        o2[m + 1],
                    ) && core_ok(p, all[m]),
                i <= n,
                core_ok(p, p2@),
                p2@.header.node_id == t.id,
                p2@.header.next_node == t.next,
                same_kind(p2@, parent@),
                at_edge == (b == t.es.len()),
                base == staying(t, a as int, b as int, nk as int),
                forall|q: int|
                    i <= q < nk ==> p.interior.entries_size(
                        #[trigger] with_keys(base, a as int, keys, q),
                    ) <= p.node_size - 60,
                base.len() >= a + nk,
                at_edge ==> base.len() == a + nk,
                p2@.header.nentries == base.len(),
                ents(p, p2@).len() == base.len(),
                forall|m: int|
                    0 <= m < base.len() ==> #[trigger] ents(p, p2@)[m] == if a + i <= m < a + nk {
                        child_entry(keys[m - a], ids[m - a])
                    } else {
                        base[m]
                    },
                p2@.header.edge_id == if at_edge {
                    if i == n {
                        p2@.header.edge_id
                    } else {
                        ids[n - 1]
                    }
                } else {
                    t.edge_id()
                },
            decreases i,
        {
            let idx: u32 = a + i - 1;
            let id: BNodeId = ns[i as usize - 1].node_id();
            proof {
                assert(all[i - 1] == ns@[i - 1]@);
                assert(ids[i - 1] == id);
            }
            if at_edge && i == n {
                p2.set_edge(id);
            } else {
                proof {
                    lemma_cuts(j, o2, i - 1);
                    assert(key_ok::<K>(p, j.es[o2[i as int] - 1].key, jw.lo, jw.hi));
                    assert(keys[i - 1] == j.es[o2[i as int] - 1].key);
                    assert(ents(p, all[i - 1]).last() == j.es[o2[i as int] - 1]);
                    assert(ents(p, all[i - 1]).len() == all[i - 1].header.nentries);
                }
                let last_key = self.get_last_key(&ns[i as usize - 1]);
                let ghost before = ents(p, p2@);
                let child: ValueOrOverflow<u64> = ValueOrOverflow::Inline(id);
                proof {
                    lemma_id_bytes(id);
                    assert(child.entry(last_key.bytes()) == child_entry(keys[i - 1], id));
                    assert(p.interior.fits(child_entry(keys[i - 1], id)));
                }
                proof {
                    lemma_key_step(p.interior, base, a as int, keys, ids, i as int, before, id);
                }
                if self.int_ops.update_with_key::<K, u64>(&mut p2, idx, &last_key, &child).is_err() {
                    proof {
                        assert(p.interior.entries_size(
                            with_keys(base, a as int, keys, i - 1),
                        ) > p.node_size - 60);
                    }
                    return None;
                }
                proof {
                    assert(ents(p, p2@) == before.update(
                        idx as int,
                        child_entry(keys[i - 1], id),
                    ));
                }
            }
            i = i - 1;
        }
        proof {
            let t2 = spliced(t, a as int, b as int, pieces, keys);
            assert(ents(p, p2@) =~= t2.es) by {
                assert forall|m: int| 0 <= m < base.len() implies #[trigger] ents(p, p2@)[m]
                    == t2.es[m] by {
                    if a <= m < a + nk {
                        assert(pieces[m - a] == piece(j, o2, ids, nexts, m - a));
                    }
                }
            }
            if at_edge {
                assert(t2.kids.last() == pieces[n - 1]);
                assert(pieces[n - 1] == piece(j, o2, ids, nexts, n - 1));
            } else if t.edge {
                assert(t2.kids.last() == t.kids.last());
            }
            assert(p2@.header.edge_id == t2.edge_id());
        }
        Some(p2)
    }
}

/// A node with another successor.
pub open spec fn with_next(c: CoreView, next: u64) -> CoreView {
    CoreView { header: PersistentHeader { next_node: next, ..c.header }, ..c }
}

/// Nodes with their successors in a chain.
pub open spec fn with_nexts(all: Seq<CoreView>, nexts: Seq<u64>) -> Seq<CoreView> {
    Seq::new(all.len(), |i: int| with_next(all[i], nexts[i]))
}

/// The nodes are stored under their ids, and nothing else has changed.
pub open spec fn nodes_written(
    st: Store,
    ids: Seq<u64>,
    cores: Seq<CoreView>,
    st2: Store,
) -> bool {
    &&& st2.ov == st.ov
    &&& forall|i: int|
        0 <= i < ids.len() ==> st2.nodes.contains_key(#[trigger] ids[i]) && st2.nodes[ids[i]]
            == cores[i]
    &&& forall|x: u64| #[trigger]
        st.nodes.contains_key(x) && (forall|m: int| 0 <= m < ids.len() ==> x != #[trigger] ids[m])
            ==> st2.nodes.contains_key(x) && st2.nodes[x] == st.nodes[x]
    &&& st2.nodes.dom() == st.nodes.dom()
}

/// The children from `from` to before `upto` are gone, and nothing else has changed.
pub open spec fn children_deleted(st: Store, t: Tree, from: int, upto: int, st2: Store) -> bool {
    st2 == (Store { nodes: st.nodes.remove_keys(child_ids(t, from, upto).to_set()), ..st })
}

/// A node that is none of the deleted children is still there.
proof fn lemma_not_deleted(st: Store, t: Tree, from: int, upto: int, st2: Store, x: u64)
    requires
        from <= upto,
        children_deleted(st, t, from, upto, st2),
        st.nodes.contains_key(x),
        forall|k: int| from <= k < upto ==> x != (#[trigger] t.kids[k]).id,
    ensures
        st2.nodes.contains_key(x),
        st2.nodes[x] == st.nodes[x],
{
    let ids = child_ids(t, from, upto);
    if ids.to_set().contains(x) {
        let i = choose|i: int| 0 <= i < ids.len() && ids[i] == x;
        assert(t.kids[from + i].id == x);
    }
}

impl<K: BtreeKey, V: BtreeValue, S: UnderlyingBtree> Btree<K, V, S> {
    /// Stores packed nodes, each with the next one as its successor.
    fn write_chain(&mut self, ns: &Vec<NodeCore>, last_next: BNodeId) -> (r: Result<(), BtreeError>)
        requires
            forall|i: int, j: int|
                0 <= i < j < ns@.len() ==> (#[trigger] ns@[i])@.header.node_id != (
                #[trigger] ns@[j])@.header.node_id,
            forall|i: int|
                0 <= i < ns@.len() ==> old(self).storage.store().nodes.contains_key(
                    (#[trigger] ns@[i])@.header.node_id,
                ),
        ensures
            r matches Err(e) ==> old(self).storage.failures().contains(e),
            final(self).env_of(old(self)),
            final(self).tree == old(self).tree,
            final(self).height == old(self).height,
            final(self).root_node_id == old(self).root_node_id,
            final(self).storage.root() == old(self).storage.root(),
            r is Ok ==> nodes_written(
                old(self).storage.store(),
                ids_of(views(ns@)),
                with_nexts(views(ns@), chain_of(views(ns@), last_next)),
                final(self).storage.store(),
            ),
            old(self).storage.reliable() ==> r is Ok,
    {
        let n: usize = ns.len();
        let ghost st = self.storage.store();
        let ghost all = views(ns@);
        let ghost ids = ids_of(all);
        let ghost nexts = chain_of(all, last_next);
        let ghost cores = with_nexts(all, nexts);
        let mut i: usize = 0;
        while i < n
            invariant
                n == ns@.len(),
                i <= n,
                st == old(self).storage.store(),
                all == views(ns@),
                ids == ids_of(all),
                nexts == chain_of(all, last_next),
                cores == with_nexts(all, nexts),
                self.env_of(old(self)),
                self.tree == old(self).tree,
                self.height == old(self).height,
                self.root_node_id == old(self).root_node_id,
                self.storage.root() == old(self).storage.root(),
                self.storage.store().ov == st.ov,
                self.storage.store().nodes.dom() == st.nodes.dom(),
                forall|m: int, j: int|
                    0 <= m < j < ns@.len() ==> (#[trigger] ns@[m])@.header.node_id != (
                    #[trigger] ns@[j])@.header.node_id,
                forall|m: int|
                    0 <= m < ns@.len() ==> self.storage.store().nodes.contains_key(
                        (#[trigger] ns@[m])@.header.node_id,
                    ),
                forall|m: int|
                    0 <= m < i ==> self.storage.store().nodes.contains_key(#[trigger] ids[m])
                        && self.storage.store().nodes[ids[m]] == cores[m],
                forall|x: u64| #[trigger]
                    st.nodes.contains_key(x) && (forall|m: int|
                        0 <= m < ids.len() ==> x != #[trigger] ids[m])
                        ==> self.storage.store().nodes.contains_key(x)
                        && self.storage.store().nodes[x] == st.nodes[x],
            decreases n - i,
        {
            let mut node = ns[i].copy();
            let next: BNodeId = if i + 1 < n {
                ns[i + 1].node_id()
            } else {
                last_next
            };
            node.set_next_node(next);
            proof {
                assert(ns@[i as int]@ == all[i as int]);
                assert(ids[i as int] == node@.header.node_id);
                assert(nexts[i as int] == next);
                assert(node@ == cores[i as int]);
                assert forall|m: int| 0 <= m < i implies #[trigger] ids[m] != ids[i as int] by {
                    assert(ns@[m]@.header.node_id != ns@[i as int]@.header.node_id);
                }
            }
            if let Err(e) = self.storage.write_node(&node) {
                return Err(e);
            }
            proof {
                assert(self.storage.store().nodes.dom() =~= st.nodes.dom());
            }
            i = i + 1;
        }
        Ok(())
    }

    /// Deletes the children of a node from `from` to before `upto`.
    fn delete_children(
        &mut self,
        parent: &NodeCore,
        from: u32,
        upto: u32,
        Ghost(w): Ghost<Place>,
        Ghost(st): Ghost<Store>,
    ) -> (r: Result<(), BtreeError>)
        requires
            old(self).env_wf(),
            placed::<K, V>(old(self).params(), st, w),
            core_rep(old(self).params(), parent@, w.t),
            !w.t.leaf,
            from <= upto <= w.t.kids.len(),
            forall|k: int|
                from <= k < upto ==> old(self).storage.store().nodes.contains_key(
                    (#[trigger] w.t.kids[k]).id,
                ),
        ensures
            r matches Err(e) ==> old(self).storage.failures().contains(e),
            final(self).env_of(old(self)),
            final(self).tree == old(self).tree,
            final(self).height == old(self).height,
            final(self).root_node_id == old(self).root_node_id,
            final(self).storage.root() == old(self).storage.root(),
            r is Ok ==> children_deleted(
                old(self).storage.store(),
                w.t,
                from as int,
                upto as int,
                final(self).storage.store(),
            ),
            old(self).storage.reliable() ==> r is Ok,
    {
        let ghost st1 = self.storage.store();
        let mut k: u32 = from;
        proof {
            assert(st1.nodes.remove_keys(child_ids(w.t, from as int, from as int).to_set())
                =~= st1.nodes);
        }
        while k < upto
            invariant
                old(self).env_wf(),
                self.env_of(old(self)),
                self.tree == old(self).tree,
                self.height == old(self).height,
                self.root_node_id == old(self).root_node_id,
                self.storage.root() == old(self).storage.root(),
                placed::<K, V>(old(self).params(), st, w),
                core_rep(old(self).params(), parent@, w.t),
                !w.t.leaf,
                st1 == old(self).storage.store(),
                from <= k <= upto <= w.t.kids.len(),
                children_deleted(st1, w.t, from as int, k as int, self.storage.store()),
                forall|m: int|
                    k <= m < upto ==> self.storage.store().nodes.contains_key(
                        (#[trigger] w.t.kids[m]).id,
                    ),
            decreases upto - k,
        {
            let id: BNodeId = if k < parent.header.nentries {
                let b = self.int_ops.get_nth_value_bytes::<K, u64>(parent, k);
                proof {
                    assert(w.t.es[k as int].val == id_bytes(w.t.kids[k as int].id));
                    lemma_id_bytes(w.t.kids[k as int].id);
                }
                vstd::bytes::u64_from_le_bytes(b.as_slice())
            } else {
                parent.header.edge_id
            };
            proof {
                assert(self.params().interior.entries(
                    parent@.buf,
                    parent@.header.nentries as int,
                ).len() == parent@.header.nentries);
                assert(id == w.t.kids[k as int].id);
                assert forall|m: int| k < m < upto implies (#[trigger] w.t.kids[m]).id != id by {
                    assert(apart(w.t.kid(k as int), w.t.kid(m)));
                    assert(has_id(w.t.kid(k as int), id));
                    assert(has_id(w.t.kid(m), w.t.kids[m].id));
                }
            }
            if let Err(e) = self.storage.delete_node(id) {
                return Err(e);
            }
            proof {
                let ids = child_ids(w.t, from as int, k as int);
                assert(child_ids(w.t, from as int, k + 1) =~= ids.push(id));
                lemma_remove_next(st1.nodes, ids, id);
            }
            k = k + 1;
        }
        Ok(())
    }

    /// Puts packed nodes in the place of the first `c` children from `a` on.
    fn commit_merge(
        &mut self,
        parent: &NodeCore,
        p2: &NodeCore,
        ns: &Vec<NodeCore>,
        a: u32,
        c: u32,
        last_next: BNodeId,
        Ghost(w): Ghost<Place>,
        Ghost(o): Ghost<Seq<int>>,
        Ghost(st): Ghost<Store>,
    ) -> (r: Result<Ghost<Tree>, BtreeError>)
        requires
            old(self).env_wf(),
            placed::<K, V>(old(self).params(), st, w),
            !w.t.leaf,
            core_rep(old(self).params(), parent@, w.t),
            packed(
                old(self).params(),
                st,
                w,
                a as int,
                c as nat,
                views(ns@),
                o,
                old(self).storage.store(),
            ),
            ns@.len() < c,
            same_kind(p2@, st.nodes[w.t.id]),
            a + c <= u32::MAX,
            last_next == join_upto(w.t, a as int, c as nat).next,
            ({
                let j = join_upto(w.t, a as int, c as nat);
                let o2 = o.push(j.es.len() as int);
                core_rep(
                    old(self).params(),
                    p2@,
                    spliced(
                        w.t,
                        a as int,
                        a + c - 1,
                        cut_pieces(j, o2, ids_of(views(ns@)), chain_of(views(ns@), last_next)),
                        piece_keys(w.t, a + c - 1, j, o2),
                    ),
                )
            }),
        ensures
            r matches Err(e) ==> old(self).storage.failures().contains(e),
            final(self).env_of(old(self)),
            final(self).tree == old(self).tree,
            final(self).height == old(self).height,
            final(self).root_node_id == old(self).root_node_id,
            final(self).storage.root() == old(self).storage.root(),
            r matches Ok(t2) ==> {
                &&& placed::<K, V>(
                    old(self).params(),
                    final(self).storage.store(),
                    w.with(t2@),
                )
                &&& reshaped(st, w.t, final(self).storage.store(), t2@)
                &&& flat(t2@) == flat(w.t)
                &&& final(self).storage.store().ov == st.ov
                &&& count(t2@) < count(w.t)
                &&& tidy(st, w.t, final(self).storage.store(), t2@)
                &&& merge_result(
                    st,
                    w.t,
                    a as int,
                    c as nat,
                    o,
                    final(self).storage.store(),
                    t2@,
                )
            },
            old(self).storage.reliable() ==> r is Ok,
    {
        let ghost p = self.params();
        let ghost t = w.t;
        let ghost aa = a as int;
        let ghost j = join_upto(t, aa, c as nat);
        let ghost o2 = o.push(j.es.len() as int);
        let ghost all = views(ns@);
        let ghost ids = ids_of(all);
        let ghost nexts = chain_of(all, last_next);
        let ghost cores = with_nexts(all, nexts);
        let ghost st1 = self.storage.store();
        proof {
            lemma_packed_cuts(p, st, w, aa, c as nat, all, o, st1);
            assert forall|i: int, m: int| 0 <= i < m < ns@.len() implies (
            #[trigger] ns@[i])@.header.node_id != (#[trigger] ns@[m])@.header.node_id by {
                assert(all[i] == ns@[i]@ && all[m] == ns@[m]@);
            }
            assert forall|i: int| 0 <= i < ns@.len() implies st1.nodes.contains_key(
                (#[trigger] ns@[i])@.header.node_id,
            ) by {
                assert(all[i] == ns@[i]@);
            }
        }
        if let Err(e) = self.write_chain(ns, last_next) {
            return Err(e);
        }
        let ghost stw = self.storage.store();
        proof {
            assert(node_rep(p, st.nodes, t));
            assert forall|m: int| 0 <= m < ids.len() implies t.id != #[trigger] ids[m] by {
                if m == 0 {
                    assert(!has_id(t.kid(aa), t.id));
                    assert(has_id(t.kid(aa), t.kids[aa].id));
                }
            }
            assert forall|k: int| a < k < a + c implies stw.nodes.contains_key(
                (#[trigger] t.kids[k]).id,
            ) by {
                lemma_sibling_ids(p, st, t, aa, k, ids);
            }
        }
        if let Err(e) = self.storage.write_node(p2) {
            return Err(e);
        }
        let ghost stp = self.storage.store();
        if let Err(e) = self.delete_children(parent, a + 1, a + c, Ghost(w), Ghost(st)) {
            return Err(e);
        }
        let ghost st2 = self.storage.store();
        let ghost t2 = spliced(
            t,
            aa,
            a + c - 1,
            cut_pieces(j, o2, ids, nexts),
            piece_keys(t, a + c - 1, j, o2),
        );
        proof {
            lemma_committed::<K, V>(p, st, w, aa, c as nat, all, o, st1, last_next, stw, p2@, st2);
        }
        Ok(Ghost(t2))
    }
}

/// The stored pieces.
proof fn lemma_committed_cores<K: BtreeKey, V: BtreeValue>(
    p: Params,
    st: Store,
    w: Place,
    a: int,
    c: nat,
    all: Seq<CoreView>,
    o: Seq<int>,
    st1: Store,
    last_next: u64,
)
    requires
        placed::<K, V>(p, st, w),
        !w.t.leaf,
        0 <= a,
        packed(p, st, w, a, c, all, o, st1),
        last_next == join_upto(w.t, a, c).next,
    ensures
        ({
            let j = join_upto(w.t, a, c);
            let o2 = o.push(j.es.len() as int);
            let ids = ids_of(all);
            let nexts = chain_of(all, last_next);
            let cores = with_nexts(all, nexts);
            &&& nexts_ok(j, ids, nexts)
            &&& forall|i: int|
                0 <= i < cores.len() ==> core_rep(
                    p,
                    #[trigger] cores[i],
                    piece(j, o2, ids, nexts, i),
                )
        }),
{
    let j = join_upto(w.t, a, c);
    let o2 = o.push(j.es.len() as int);
    let ids = ids_of(all);
    let nexts = chain_of(all, last_next);
    let cores = with_nexts(all, nexts);
    lemma_packed_cuts(p, st, w, a, c, all, o, st1);
    assert forall|i: int| 0 <= i < nexts.len() implies #[trigger] nexts[i] == if i + 1 < ids.len() {
        ids[i + 1]
    } else {
        j.next
    } by {}
    assert forall|i: int| 0 <= i < cores.len() implies core_rep(
        p,
        #[trigger] cores[i],
        piece(j, o2, ids, nexts, i),
    ) by {
        assert(ents(p, all[i]) == j.es.subrange(o2[i], o2[i + 1]));
        let q = piece(j, o2, ids, nexts, i);
        lemma_cuts(j, o2, i);
        if q.edge {
            lemma_join::<K, V>(p, w, a, c);
            lemma_join_leaf::<K, V>(p, w, a, c);
            assert(q.kids.last() == j.kids.last());
        }
    }
}

/// Packed nodes are of the kind of the leftmost child.
proof fn lemma_packed_kinds<K: BtreeKey, V: BtreeValue>(
    p: Params,
    st: Store,
    w: Place,
    a: int,
    c: nat,
    all: Seq<CoreView>,
    o: Seq<int>,
    st1: Store,
)
    requires
        placed::<K, V>(p, st, w),
        !w.t.leaf,
        0 <= a,
        packed(p, st, w, a, c, all, o, st1),
    ensures
        forall|i: int|
            0 <= i < all.len() ==> same_kind(#[trigger] all[i], st.nodes[w.t.kids[a].id]),
{
    let t = w.t;
    let jw = join_place(w, a, c);
    lemma_join::<K, V>(p, w, a, c);
    assert(sound_at::<K, V>(p, jw));
    assert(sound_at::<K, V>(p, w.kid(a))) by {
        assert(sound::<K, V>(
            p,
            t.kid(a),
            (w.h - 1) as nat,
            t.after(a, w.after),
            t.lo(a, w.lo),
            t.hi(a, w.hi),
        ));
    }
    assert(rep(p, st.nodes, t.kid(a)));
    assert(node_rep(p, st.nodes, t.kid(a)));
    assert forall|i: int| 0 <= i < all.len() implies same_kind(
        #[trigger] all[i],
        st.nodes[t.kids[a].id],
    ) by {}
}

/// A merge has been written.
#[verifier::rlimit(30)]
proof fn lemma_committed<K: BtreeKey, V: BtreeValue>(
    p: Params,
    st: Store,
    w: Place,
    a: int,
    c: nat,
    all: Seq<CoreView>,
    o: Seq<int>,
    st1: Store,
    last_next: u64,
    stw: Store,
    pc: CoreView,
    st2: Store,
)
    requires
        placed::<K, V>(p, st, w),
        !w.t.leaf,
        0 <= a,
        packed(p, st, w, a, c, all, o, st1),
        all.len() < c,
        same_kind(pc, st.nodes[w.t.id]),
        last_next == join_upto(w.t, a, c).next,
        nodes_written(st1, ids_of(all), with_nexts(all, chain_of(all, last_next)), stw),
        children_deleted(
            Store { nodes: stw.nodes.insert(w.t.id, pc), ..stw },
            w.t,
            a + 1,
            a + c,
            st2,
        ),
        ({
            let j = join_upto(w.t, a, c);
            let o2 = o.push(j.es.len() as int);
            core_rep(
                p,
                pc,
                spliced(
                    w.t,
                    a,
                    a + c - 1,
                    cut_pieces(j, o2, ids_of(all), chain_of(all, last_next)),
                    piece_keys(w.t, a + c - 1, j, o2),
                ),
            )
        }),
    ensures
        ({
            let j = join_upto(w.t, a, c);
            let o2 = o.push(j.es.len() as int);
            let t2 = spliced(
                w.t,
                a,
                a + c - 1,
                cut_pieces(j, o2, ids_of(all), chain_of(all, last_next)),
                piece_keys(w.t, a + c - 1, j, o2),
            );
            &&& placed::<K, V>(p, st2, w.with(t2))
            &&& reshaped(st, w.t, st2, t2)
            &&& flat(t2) == flat(w.t)
            &&& st2.ov == st.ov
            &&& count(t2) < count(w.t)
            &&& merge_result(st, w.t, a, c, o, st2, t2)
            &&& tidy(st, w.t, st2, t2)
        }),
{
    let t = w.t;
    let j = join_upto(t, a, c);
    let o2 = o.push(j.es.len() as int);
    let ids = ids_of(all);
    let nexts = chain_of(all, last_next);
    let cores = with_nexts(all, nexts);
    let stp = Store { nodes: stw.nodes.insert(t.id, pc), ..stw };
    lemma_packed_cuts(p, st, w, a, c, all, o, st1);
    lemma_committed_cores::<K, V>(p, st, w, a, c, all, o, st1, last_next);
    assert forall|m: int| 0 <= m < ids.len() implies t.id != #[trigger] ids[m] by {
        assert(node_rep(p, st.nodes, t));
        if m == 0 {
            assert(!has_id(t.kid(a), t.id));
            assert(has_id(t.kid(a), t.kids[a].id));
        }
    }
    assert forall|i: int| 0 <= i < ids.len() implies st2.nodes.contains_key(#[trigger] ids[i])
        && st2.nodes[ids[i]] == cores[i] by {
        assert forall|k: int| a + 1 <= k < a + c implies ids[i] != (#[trigger] t.kids[k]).id by {
            lemma_sibling_ids(p, st, t, a, k, ids);
        }
        assert(stp.nodes.contains_key(ids[i]));
        lemma_not_deleted(stp, t, a + 1, a + c, st2, ids[i]);
    }
    assert(st2.nodes.contains_key(t.id) && st2.nodes[t.id] == pc) by {
        assert forall|k: int| a + 1 <= k < a + c implies t.id != (#[trigger] t.kids[k]).id by {
            lemma_sibling_ids(p, st, t, a, k, ids);
        }
        assert(stp.nodes.contains_key(t.id));
        lemma_not_deleted(stp, t, a + 1, a + c, st2, t.id);
    }
    assert forall|x: u64| #[trigger]
        st.nodes.contains_key(x) && untouched(t, a, a + c - 1, ids, x) implies st2.nodes.contains_key(
        x,
    ) && st2.nodes[x] == st.nodes[x] by {
        assert(st1.nodes.contains_key(x));
        assert(stw.nodes.contains_key(x) && stw.nodes[x] == st.nodes[x]);
        assert(stp.nodes.contains_key(x));
        assert forall|k: int| a + 1 <= k < a + c implies x != (#[trigger] t.kids[k]).id by {}
        lemma_not_deleted(stp, t, a + 1, a + c, st2, x);
    }
    lemma_pieces_splice::<K, V>(p, w, a, c, o2, ids, nexts);
    lemma_replaced::<K, V>(
        p,
        st,
        w,
        a,
        c,
        o2,
        ids,
        nexts,
        piece_keys(t, a + c - 1, j, o2),
        cores,
        pc,
        st2,
    );
    lemma_merged_count::<K, V>(p, w, a, c, o2, ids, nexts);
    assert(nexts =~= chain_ids(ids, j.next));
    assert(merged_store(st, t, a, c, ids, st2)) by {
        let gone = child_ids(t, a + 1, a + c);
        lemma_packed_kinds::<K, V>(p, st, w, a, c, all, o, st1);
        assert forall|i: int| 0 <= i < ids.len() implies same_kind(
            st2.nodes[#[trigger] ids[i]],
            st.nodes[t.kids[a].id],
        ) by {
            assert(st2.nodes[ids[i]] == cores[i]);
            assert(same_kind(all[i], st.nodes[t.kids[a].id]));
        }
        assert forall|x: u64| #[trigger]
            st2.nodes.contains_key(x) == (st.nodes.contains_key(x) && !gone.contains(x)
            || ids.contains(x)) by {
            assert(stp.nodes.dom() =~= st1.nodes.dom()) by {
                assert(node_rep(p, st.nodes, t));
                assert(st1.nodes.contains_key(t.id));
            }
            assert(st2.nodes.contains_key(x) == (st1.nodes.contains_key(x) && !gone.contains(x)))
                by {
                assert(gone.to_set().contains(x) == gone.contains(x));
                assert(stp.nodes.dom().contains(x) == st1.nodes.dom().contains(x));
            }
            if ids.contains(x) {
                let i = choose|i: int| 0 <= i < ids.len() && ids[i] == x;
                assert(st2.nodes.contains_key(ids[i]));
            }
        }
        assert forall|x: u64| #[trigger]
            st2.nodes.contains_key(x) && !ids.contains(x) && x != t.id implies st2.nodes[x]
            == st.nodes[x] by {
            assert(st.nodes.contains_key(x) && !gone.contains(x));
            assert forall|m: int| 0 <= m < ids.len() implies x != #[trigger] ids[m] by {}
            assert forall|k: int| a <= k <= a + c - 1 implies x != (#[trigger] t.kids[k]).id by {
                if k == a {
                    assert(ids[0] == t.kids[a].id);
                } else {
                    assert(gone[k - a - 1] == t.kids[k].id);
                }
            }
            assert(untouched(t, a, a + c - 1, ids, x));
        }
    }
    assert(spliced(
        t,
        a,
        a + c - 1,
        cut_pieces(j, o2, ids, nexts),
        piece_keys(t, a + c - 1, j, o2),
    ) == merged_tree(t, a, c, o, ids));
    assert forall|x: u64| #[trigger]
        st2.nodes.contains_key(x) implies ids.contains(x) || st.nodes.contains_key(x) && (forall|
        k: int,
    |
        a < k < a + c ==> x != (#[trigger] t.kids[k]).id) by {
        let gone = child_ids(t, a + 1, a + c);
        assert forall|k: int| a < k < a + c && !ids.contains(x) implies x != (
        #[trigger] t.kids[k]).id by {
            assert(gone[k - a - 1] == t.kids[k].id);
        }
    }
    lemma_pieces_tidy::<K, V>(
        p,
        st,
        w,
        a,
        c,
        o2,
        ids,
        nexts,
        piece_keys(t, a + c - 1, j, o2),
        st2,
    );
}

/// Joined interior nodes have their children.
proof fn lemma_join_leaf<K: BtreeKey, V: BtreeValue>(p: Params, w: Place, a: int, n: nat)
    requires
        sound_at::<K, V>(p, join_place(w, a, n)),
        join_upto(w.t, a, n).edge,
    ensures
        join_upto(w.t, a, n).kids.len() == join_upto(w.t, a, n).es.len() + 1,
        !join_upto(w.t, a, n).leaf,
{
}

/// The id of another child is stored and is none of the pieces'.
proof fn lemma_sibling_ids(p: Params, st: Store, t: Tree, a: int, k: int, ids: Seq<u64>)
    requires
        rep(p, st.nodes, t),
        distinct(t),
        0 <= a < k < t.kids.len(),
        piece_ids(st, t.kids[a].id, ids),
    ensures
        st.nodes.contains_key(t.kids[k].id),
        forall|m: int| 0 <= m < ids.len() ==> t.kids[k].id != #[trigger] ids[m],
        t.kids[k].id != t.id,
{
    assert(rep(p, st.nodes, t.kid(k)));
    assert(node_rep(p, st.nodes, t.kid(k)));
    assert(has_id(t.kid(k), t.kids[k].id));
    assert(has_id(t.kid(a), t.kids[a].id));
    assert(apart(t.kid(a), t.kid(k)));
    assert(!has_id(t.kid(k), t.id));
}

impl<K: BtreeKey, V: BtreeValue, S: UnderlyingBtree> Btree<K, V, S> {
    /// Packs the children from `start_idx` to `end_idx` into fewer nodes, if that is worth it
    /// and the parent can take their keys, and answers whether it has.
    pub(crate) fn merge_child_nodes(
        &mut self,
        parent_node: &NodeCore,
        leftmost_node: NodeCore,
        start_idx: u32,
        end_idx: u32,
        Ghost(w): Ghost<Place>,
    ) -> (r: Result<(bool, Ghost<Tree>), BtreeError>)
        requires
            old(self).at(parent_node@, w),
            !w.t.leaf,
            end_idx < w.t.kids.len(),
            start_idx < end_idx ==> old(self).at(leftmost_node@, w.kid(start_idx as int)),
        ensures
            end_idx <= start_idx || old(self).config.merge_policy == MergePolicy::Never ==> r == Ok::<
                (bool, Ghost<Tree>),
                BtreeError,
            >((false, Ghost(w.t))) && *final(self) == *old(self),
            r matches Err(e) ==> old(self).storage.failures().contains(e),
            final(self).env_of(old(self)),
            final(self).tree == old(self).tree,
            final(self).height == old(self).height,
            final(self).root_node_id == old(self).root_node_id,
            final(self).storage.root() == old(self).storage.root(),
            r matches Ok((merged, t2)) ==> {
                let st = old(self).storage.store();
                let st2 = final(self).storage.store();
                &&& placed::<K, V>(old(self).params(), st2, w.with(t2@))
                &&& reshaped(st, w.t, st2, t2@)
                &&& flat(t2@) == flat(w.t)
                &&& st2.ov == st.ov
                &&& tidy(st, w.t, st2, t2@)
                &&& alike(old(self).config, st, st2)
                &&& merged ==> count(t2@) < count(w.t)
                &&& !merged ==> t2@ == w.t && st2 == st
                &&& merged ==> {
                    let (c, o) = plan(
                        old(self).params(),
                        old(self).config.ideal_fill_size as int,
                        st,
                        w.t,
                        start_idx as int,
                        end_idx as int,
                    )->0;
                    merge_result(st, w.t, start_idx as int, c, o, st2, t2@)
                }
                &&& merged == merge_due(
                    old(self).params(),
                    old(self).config.merge_policy,
                    old(self).config.ideal_fill_size as int,
                    st,
                    w.t,
                    start_idx as int,
                    end_idx as int,
                )
            },
            r is Err && old(self).storage.reliable() ==> final(self).storage.exhausted() && kept(
                old(self).storage.store(),
                final(self).storage.store(),
            ),
    {
        let ghost p = self.params();
        let ghost st = self.storage.store();
        let ghost t = w.t;
        proof {
            self.lemma_at(parent_node@, w);
            self.lemma_edge(parent_node@, w);
        }
        if end_idx <= start_idx || self.config.merge_policy == MergePolicy::Never || end_idx
            == u32::MAX {
            proof {
                lemma_kept_placed::<K, V>(p, st, st, w);
                lemma_tidy_same(st, t);
                lemma_alike_same(self.config, st);
            }
            return Ok((false, Ghost(t)));
        }
        proof {
            self.lemma_at(leftmost_node@, w.kid(start_idx as int));
        }
        let keep: BNodeId = leftmost_node.node_id();
        let (ns, c, Ghost(o)) = match self.pack_children(
            parent_node,
            leftmost_node,
            start_idx,
            end_idx,
            Ghost(w),
        ) {
            Ok(Some(x)) => x,
            Ok(None) => {
                proof {
                    lemma_kept_placed::<K, V>(p, st, self.storage.store(), w);
                    lemma_tidy_same(st, t);
                    lemma_alike_same(self.config, st);
                }
                return Ok((false, Ghost(t)));
            },
            Err(e) => {
                return Err(e);
            },
        };
        let ghost st1 = self.storage.store();
        let ghost all = views(ns@);
        proof {
            lemma_kept_placed::<K, V>(p, st, st1, w);
            lemma_join::<K, V>(p, w, start_idx as int, c as nat);
            assert(node_rep(p, st.nodes, t));
            assert forall|i: int| 0 <= i < ns@.len() implies {
                let id = (#[trigger] ns@[i])@.header.node_id;
                id == keep || !st.nodes.contains_key(id) && st1.nodes.contains_key(id)
            } by {
                assert(all[i] == ns@[i]@);
            }
            assert forall|i: int, j: int| 0 <= i < j < ns@.len() implies (
            #[trigger] ns@[i])@.header.node_id != (#[trigger] ns@[j])@.header.node_id by {
                assert(all[i] == ns@[i]@ && all[j] == ns@[j]@);
            }
        }
        let mut rebuilt: Option<NodeCore> = None;
        let mut last_next: BNodeId = EMPTY_BNODEID;
        if self.should_accept_merge(end_idx - start_idx + 1, c as usize, ns.len()) {
            let last = match self.get_child(parent_node, start_idx + c - 1, Ghost(w)) {
                Ok(n) => n,
                Err(e) => {
                    return Err(e);
                },
            };
            proof {
                self.lemma_at(last@, w.kid(start_idx + c - 1));
            }
            last_next = last.header.next_node;
            rebuilt = self.rebuild_parent(
                parent_node,
                &ns,
                start_idx,
                c,
                Ghost(w),
                Ghost(o),
                Ghost(st),
                Ghost(chain_of(all, last_next)),
            );
        }
        match rebuilt {
            None => match self.discard(&ns, keep, Ghost(st)) {
                Ok(()) => {
                    proof {
                        lemma_discarded(st, keep, all, st1, self.storage.store());
                        lemma_kept_placed::<K, V>(p, st, self.storage.store(), w);
                        lemma_tidy_same(st, t);
                        lemma_alike_same(self.config, st);
                    }
                    Ok((false, Ghost(t)))
                },
                Err(e) => Err(e),
            },
            Some(p2) => match self.commit_merge(
                parent_node,
                &p2,
                &ns,
                start_idx,
                c,
                last_next,
                Ghost(w),
                Ghost(o),
                Ghost(st),
            ) {
                Ok(t2) => {
                    proof {
                        assert(rep(p, st.nodes, t.kid(start_idx as int)));
                        assert(node_rep(p, st.nodes, t.kid(start_idx as int)));
                        lemma_merge_alike(
                            self.config,
                            st,
                            t,
                            start_idx as int,
                            c as nat,
                            o,
                            self.storage.store(),
                            t2@,
                        );
                    }
                    Ok((true, t2))
                },
                Err(e) => Err(e),
            },
        }
    }
}

} // verus!
