//! How children are packed into fewer nodes, and when they are.

use vstd::prelude::*;
use crate::btree_config::BtreeConfig;
use crate::btree_kvs::{lemma_id_bytes, BtreeKey, BtreeValue, Entry};
use crate::btree_node::CoreView;
use crate::btree_types::MergePolicy;
use crate::merge_lemmas::{cut_pieces, join_upto};
use crate::merge_state::{piece_ids, piece_keys};
use crate::node_layout::{
    data_size, lemma_data_inside, lemma_data_size_insert, lemma_data_size_nonneg,
    lemma_data_size_update, lemma_fitting, lemma_used_with, tail, Layout,
};
use crate::splice_lemmas::{child_entry, spliced};
use crate::tree_model::{node_rep, placed, rep, sound, Params, Place, Store, Tree};
use crate::variants::{alike, as_configured, lemma_alike, same_kind};

verus! {

//==============================================================================
// Bytes in use
//==============================================================================

/// Bytes that a node has in use.
pub open spec fn used(p: Params, c: CoreView) -> int {
    4 + p.layout(c.header.leaf).records_size(c.header.nentries as int) + c.buf.len() - tail(c.buf)
}

/// Bytes in use of the child `a` once it has taken the entries of those behind it, `n` children
/// in all.
pub open spec fn used_together(p: Params, st: Store, t: Tree, a: int, n: nat) -> int
    decreases n,
{
    if n <= 1 {
        used(p, st.nodes[t.kids[a].id])
    } else {
        used_together(p, st, t, a, (n - 1) as nat) + p.layout(t.kids[a].leaf).entries_size(
            t.kids[a + n - 1].es,
        )
    }
}

/// The children from `a` to `b` hold something, and fit into one node that has no more than
/// `fill` bytes in use.
pub open spec fn fit_together(
    p: Params,
    fill: int,
    st: Store,
    t: Tree,
    a: int,
    b: int,
) -> bool {
    let n = (b - a + 1) as nat;
    let j = join_upto(t, a, n);
    &&& used_together(p, st, t, a, n) <= fill
    &&& used_together(p, st, t, a, n) <= p.node_size - 56
    &&& j.es.len() > 0 || j.edge
}

/// The node has room for the key of one child in place of those of the children from `a` to
/// `b`. The last child of a node with an edge has no key.
pub open spec fn key_fits(p: Params, t: Tree, a: int, b: int) -> bool {
    let j = join_upto(t, a, (b - a + 1) as nat);
    ||| b == t.es.len()
    ||| p.interior.entries_size(t.es.take(a) + t.es.skip(b + 1)) + p.interior.entry_size(
        child_entry(j.es.last().key, t.kids[a].id),
    ) <= p.node_size - 60
}

/// Further children have further bytes in use.
proof fn lemma_used_more(p: Params, st: Store, t: Tree, a: int, m: nat, n: nat)
    requires
        p.layout(t.kids[a].leaf).wf(),
        0 < m <= n,
    ensures
        used_together(p, st, t, a, m) <= used_together(p, st, t, a, n),
    decreases n,
{
    broadcast use crate::record_sizes::lemma_times;

    if m < n {
        lemma_used_more(p, st, t, a, m, (n - 1) as nat);
        lemma_data_size_nonneg(t.kids[a + n - 1].es);
    }
}

//==============================================================================
// The plan
//==============================================================================

/// A packing under way: the offsets at which its nodes start among all entries, and the entries
/// and the bytes in use of its last node.
pub struct Packing {
    pub cuts: Seq<int>,
    pub es: Seq<Entry>,
    pub occ: int,
}

impl Packing {
    /// Bytes that entries can take in the last node before it has `fill` bytes in use or is
    /// full.
    pub open spec fn room(self, p: Params, l: Layout, fill: int) -> int {
        let free = p.node_size - 60 - l.entries_size(self.es);
        if fill - self.occ <= free {
            fill - self.occ
        } else {
            free
        }
    }

    /// The last node takes further entries.
    pub open spec fn with(self, p: Params, l: Layout, more: Seq<Entry>) -> Packing {
        Packing {
            es: self.es + more,
            occ: l.used_with(p.node_size, self.occ, self.es, more),
            ..self
        }
    }

    /// A new node follows.
    pub open spec fn next(self) -> Packing {
        Packing {
            cuts: self.cuts.push(self.cuts.last() + self.es.len()),
            es: Seq::empty(),
            occ: 4,
        }
    }
}

/// At most all entries fit.
pub proof fn lemma_fitting_bound(l: Layout, room: int, e: Seq<Entry>)
    ensures
        0 <= l.fitting(room, e) <= e.len(),
    decreases e.len(),
{
    if e.len() > 0 {
        lemma_fitting_bound(l, room - l.entry_size(e[0]), e.skip(1));
    }
}

/// A packing with further entries: each node takes all that fit, and the rest goes to the nodes
/// behind it. This fails where an entry does not fit into an empty node.
#[verifier::opaque]
pub open spec fn extended(p: Params, l: Layout, fill: int, s: Packing, e: Seq<Entry>) -> Option<
    Packing,
>
    decreases
            e.len(),
            (if s.es.len() > 0 {
                1int
            } else {
                0int
            }),
{
    let m = l.fitting(s.room(p, l, fill), e);
    let s2 = s.with(p, l, e.take(m));
    proof {
        lemma_fitting_bound(l, s.room(p, l, fill), e);
    }
    if m == e.len() {
        Some(s2)
    } else if m == 0 && s.es.len() == 0 {
        None
    } else {
        extended(p, l, fill, s2.next(), e.skip(m))
    }
}

/// The packing of the first `n` children from `a` on, which starts with the leftmost one as it
/// is.
#[verifier::opaque]
pub open spec fn packing_upto(
    p: Params,
    fill: int,
    st: Store,
    t: Tree,
    a: int,
    n: nat,
) -> Option<Packing>
    decreases n,
{
    if n <= 1 {
        Some(
            Packing {
                cuts: seq![0int],
                es: t.kids[a].es,
                occ: used(p, st.nodes[t.kids[a].id]),
            },
        )
    } else {
        match packing_upto(p, fill, st, t, a, (n - 1) as nat) {
            Some(s) => extended(p, p.layout(t.kids[a].leaf), fill, s, t.kids[a + n - 1].es),
            None => None,
        }
    }
}

/// The packing of the leftmost child alone.
pub proof fn lemma_packing_one(p: Params, fill: int, st: Store, t: Tree, a: int)
    ensures
        packing_upto(p, fill, st, t, a, 1) == Some(
            Packing {
                cuts: seq![0int],
                es: t.kids[a].es,
                occ: used(p, st.nodes[t.kids[a].id]),
            },
        ),
{
    reveal(packing_upto);
}

/// Once a packing has failed, it stays so.
pub proof fn lemma_packing_fails(p: Params, fill: int, st: Store, t: Tree, a: int, m: nat, n: nat)
    requires
        m <= n,
        packing_upto(p, fill, st, t, a, m) is None,
    ensures
        packing_upto(p, fill, st, t, a, n) is None,
    decreases n,
{
    reveal(packing_upto);
    if m < n {
        lemma_packing_fails(p, fill, st, t, a, m, (n - 1) as nat);
    }
}

/// The packing of the children from `a` to `b`, and how many of them it takes in. The last one
/// goes to the last node as a whole, or else stays out.
#[verifier::opaque]
pub open spec fn packing_all(p: Params, fill: int, st: Store, t: Tree, a: int, b: int) -> Option<
    (nat, Packing),
> {
    let l = p.layout(t.kids[a].leaf);
    let k = (b - a) as nat;
    match packing_upto(p, fill, st, t, a, k) {
        None => None,
        Some(s) => {
            let e = t.kids[b].es;
            let m = if l.entries_size(e) > fill - s.occ {
                0
            } else {
                l.fitting(s.room(p, l, fill), e)
            };
            if m == e.len() {
                Some((k + 1, s.with(p, l, e)))
            } else if m == 0 {
                Some((k, s))
            } else {
                None
            }
        },
    }
}

/// How many of the children from `a` to `b` are packed, and where the nodes of the packing
/// start. The last node must hold something.
pub open spec fn plan(p: Params, fill: int, st: Store, t: Tree, a: int, b: int) -> Option<
    (nat, Seq<int>),
> {
    match packing_all(p, fill, st, t, a, b) {
        Some((c, s)) => if s.es.len() > 0 || join_upto(t, a, c).edge {
            Some((c, s.cuts))
        } else {
            None
        },
        None => None,
    }
}

//==============================================================================
// The decision
//==============================================================================

/// Whether a merge of `old_total` nodes, out of `attempted`, into `new_total` is worth it.
pub open spec fn worth_merging(
    policy: MergePolicy,
    attempted: int,
    old_total: int,
    new_total: int,
) -> bool {
    &&& new_total < old_total
    &&& match policy {
        MergePolicy::Never => false,
        MergePolicy::Aggressive => true,
        MergePolicy::Conservative => attempted == 2 || old_total - new_total >= 2,
    }
}

/// The entries of a node that stay where the children from `a` to `b` are replaced, with places
/// for `n` keys. The last child of a node with an edge has no entry.
pub open spec fn staying(t: Tree, a: int, b: int, n: int) -> Seq<Entry> {
    t.es.take(a + n) + if b < t.es.len() {
        t.es.skip(b + 1)
    } else {
        Seq::empty()
    }
}

/// The entries with the keys from the one with number `i` on in their places.
pub open spec fn with_keys(
    base: Seq<Entry>,
    a: int,
    keys: Seq<Seq<u8>>,
    i: int,
) -> Seq<Entry> {
    Seq::new(
        base.len(),
        |m: int|
            if a + i <= m < a + keys.len() {
                child_entry(keys[m - a], 0)
            } else {
                base[m]
            },
    )
}

/// The node has room for the keys in place of those of the children from `a` to `b`, whenever
/// they are put in from the last one on.
pub open spec fn keys_fit(p: Params, t: Tree, a: int, b: int, keys: Seq<Seq<u8>>) -> bool {
    forall|i: int|
        0 <= i < keys.len() ==> p.interior.entries_size(
            #[trigger] with_keys(staying(t, a, b, keys.len() as int), a, keys, i),
        ) <= p.node_size - 60
}

/// Whether the children from `a` to `b` are merged: there is a plan for them, it is worth it,
/// and their parent has room for the keys.
pub open spec fn merge_due(
    p: Params,
    policy: MergePolicy,
    fill: int,
    st: Store,
    t: Tree,
    a: int,
    b: int,
) -> bool {
    &&& a < b
    &&& plan(p, fill, st, t, a, b) matches Some((c, o)) && {
        let j = join_upto(t, a, c);
        let keys = piece_keys(t, a + c - 1, j, o.push(j.es.len() as int));
        &&& worth_merging(policy, b - a + 1, c as int, o.len() as int)
        &&& keys_fit(p, t, a, a + c - 1, keys)
    }
}

/// Entries of the same sizes take the same bytes.
proof fn lemma_same_sizes(x: Seq<Entry>, y: Seq<Entry>)
    requires
        x.len() == y.len(),
        forall|i: int| 0 <= i < x.len() ==> (#[trigger] x[i]).size() == y[i].size(),
    ensures
        data_size(x) == data_size(y),
    decreases x.len(),
{
    if x.len() > 0 {
        assert(x[x.len() - 1].size() == y[y.len() - 1].size());
        assert forall|i: int| 0 <= i < x.len() - 1 implies (
        #[trigger] x.drop_last()[i]).size() == y.drop_last()[i].size() by {
            assert(x[i].size() == y[i].size());
        }
        lemma_same_sizes(x.drop_last(), y.drop_last());
    }
}

/// One more key is put in its place.
pub proof fn lemma_key_step(
    l: Layout,
    base: Seq<Entry>,
    a: int,
    keys: Seq<Seq<u8>>,
    ids: Seq<u64>,
    i: int,
    es: Seq<Entry>,
    id: u64,
)
    requires
        0 <= a,
        0 < i <= keys.len(),
        a + keys.len() <= base.len(),
        es.len() == base.len(),
        forall|m: int|
            0 <= m < base.len() ==> #[trigger] es[m] == if a + i <= m < a + keys.len() {
                child_entry(keys[m - a], ids[m - a])
            } else {
                base[m]
            },
    ensures
        l.entries_size(with_keys(base, a, keys, i - 1)) == l.entries_size(es) - es[a + i
            - 1].size() + child_entry(keys[i - 1], id).size(),
{
    let e = child_entry(keys[i - 1], id);
    let es2 = es.update(a + i - 1, e);
    let ks = with_keys(base, a, keys, i - 1);
    lemma_data_size_update(es, a + i - 1, e);
    lemma_id_bytes(id);
    lemma_id_bytes(0);
    assert forall|m: int| 0 <= m < es2.len() implies (#[trigger] es2[m]).size() == ks[m].size() by {
        if a + i <= m < a + keys.len() {
            lemma_id_bytes(ids[m - a]);
        }
    }
    lemma_same_sizes(es2, ks);
}

//==============================================================================
// The outcome
//==============================================================================

/// The ids that nodes in a chain name as their successors; the last one names `last`.
pub open spec fn chain_ids(ids: Seq<u64>, last: u64) -> Seq<u64> {
    Seq::new(
        ids.len(),
        |i: int|
            if i + 1 < ids.len() {
                ids[i + 1]
            } else {
                last
            },
    )
}

/// The tree in which the first `c` children from `a` on are packed into nodes with the given
/// ids, which start at the offsets `o` among their entries. Each has the last of its keys for a
/// key, and the other children stay.
pub open spec fn merged_tree(t: Tree, a: int, c: nat, o: Seq<int>, ids: Seq<u64>) -> Tree {
    let j = join_upto(t, a, c);
    let o2 = o.push(j.es.len() as int);
    spliced(
        t,
        a,
        a + c - 1,
        cut_pieces(j, o2, ids, chain_ids(ids, j.next)),
        piece_keys(t, a + c - 1, j, o2),
    )
}

/// The ids of the children from `from` to before `upto`.
pub open spec fn child_ids(t: Tree, from: int, upto: int) -> Seq<u64> {
    Seq::new((upto - from) as nat, |i: int| t.kids[from + i].id)
}

/// The children behind the first one are gone, the packed nodes, of the variant of the first one,
/// and the parent are written, and nothing else in the storage has changed.
pub open spec fn merged_store(
    st: Store,
    t: Tree,
    a: int,
    c: nat,
    ids: Seq<u64>,
    st2: Store,
) -> bool {
    &&& st2.ov == st.ov
    &&& forall|x: u64| #[trigger]
        st2.nodes.contains_key(x) == (st.nodes.contains_key(x) && !child_ids(
            t,
            a + 1,
            a + c,
        ).contains(x) || ids.contains(x))
    &&& forall|x: u64| #[trigger]
        st2.nodes.contains_key(x) && !ids.contains(x) && x != t.id ==> st2.nodes[x] == st.nodes[x]
    &&& forall|i: int|
        0 <= i < ids.len() ==> same_kind(st2.nodes[#[trigger] ids[i]], st.nodes[t.kids[a].id])
    &&& same_kind(st2.nodes[t.id], st.nodes[t.id])
}

/// What a merge of the first `c` children from `a` on, cut at `o`, leaves: the first of the
/// packed nodes is the leftmost child, and the others have ids that were free.
pub open spec fn merge_result(
    st: Store,
    t: Tree,
    a: int,
    c: nat,
    o: Seq<int>,
    st2: Store,
    t2: Tree,
) -> bool {
    exists|ids: Seq<u64>|
        {
            &&& ids.len() == o.len()
            &&& piece_ids(st, t.kids[a].id, ids)
            &&& t2 == #[trigger] merged_tree(t, a, c, o, ids)
            &&& merged_store(st, t, a, c, ids, st2)
        }
}

/// A merge keeps the variants of the nodes.
pub proof fn lemma_merge_alike(
    config: BtreeConfig,
    st: Store,
    t: Tree,
    a: int,
    c: nat,
    o: Seq<int>,
    st2: Store,
    t2: Tree,
)
    requires
        st.nodes.contains_key(t.id),
        st.nodes.contains_key(t.kids[a].id),
        merge_result(st, t, a, c, o, st2, t2),
    ensures
        alike(config, st, st2),
{
    let ids = choose|ids: Seq<u64>|
        {
            &&& ids.len() == o.len()
            &&& piece_ids(st, t.kids[a].id, ids)
            &&& t2 == #[trigger] merged_tree(t, a, c, o, ids)
            &&& merged_store(st, t, a, c, ids, st2)
        };
    assert forall|x: u64| #[trigger]
        st2.nodes.contains_key(x) implies as_configured(config, st2.nodes[x]) || exists|y: u64|
        st.nodes.contains_key(y) && #[trigger] same_kind(st2.nodes[x], st.nodes[y]) by {
        if ids.contains(x) {
            let i = choose|i: int| 0 <= i < ids.len() && ids[i] == x;
            assert(same_kind(st2.nodes[ids[i]], st.nodes[t.kids[a].id]));
        } else if x == t.id {
            assert(same_kind(st2.nodes[x], st.nodes[t.id]));
        } else {
            assert(same_kind(st2.nodes[x], st.nodes[x]));
        }
    }
    lemma_alike(config, st, st2);
}

//==============================================================================
// Children that fit into one node
//==============================================================================

/// The bytes in use of a child, and its entries.
pub proof fn lemma_child<K: BtreeKey, V: BtreeValue>(p: Params, st: Store, w: Place, a: int, i: int)
    requires
        placed::<K, V>(p, st, w),
        0 <= a < w.t.kids.len(),
        0 <= i < w.t.kids.len(),
    ensures
        w.t.kids[i].leaf == w.t.kids[a].leaf,
        4 + p.layout(w.t.kids[a].leaf).entries_size(w.t.kids[i].es) <= used(
            p,
            st.nodes[w.t.kids[i].id],
        ),
        p.layout(w.t.kids[a].leaf).wf(),
{
    let t = w.t;
    let c = st.nodes[t.kids[i].id];
    assert(rep(p, st.nodes, t.kid(i)));
    assert(node_rep(p, st.nodes, t.kid(i)));
    let h = (w.h - 1) as nat;
    assert(sound::<K, V>(p, t.kid(i), h, t.after(i, w.after), t.lo(i, w.lo), t.hi(i, w.hi)));
    assert(sound::<K, V>(p, t.kid(a), h, t.after(a, w.after), t.lo(a, w.lo), t.hi(a, w.hi)));
    lemma_data_inside(p.layout(t.kids[i].leaf), c.buf, c.header.nentries as int);
    assert(p.layout(t.kids[i].leaf).entries(c.buf, c.header.nentries as int).len()
        == c.header.nentries);
}

/// All entries fit where there is room for all.
proof fn lemma_fitting_all(l: Layout, room: int, e: Seq<Entry>)
    requires
        l.wf(),
        l.entries_size(e) <= room,
    ensures
        l.fitting(room, e) == e.len(),
{
    assert(e.take(e.len() as int) =~= e);
    lemma_fitting(l, room, e, e.len() as int);
}

/// Children that fit into one node are packed into one.
proof fn lemma_small_packing<K: BtreeKey, V: BtreeValue>(
    p: Params,
    fill: int,
    st: Store,
    w: Place,
    a: int,
    n: nat,
)
    requires
        placed::<K, V>(p, st, w),
        0 <= a,
        0 < n,
        a + n <= w.t.kids.len(),
        used_together(p, st, w.t, a, n) <= fill,
        used_together(p, st, w.t, a, n) <= p.node_size - 56,
    ensures
        packing_upto(p, fill, st, w.t, a, n) matches Some(s) && {
            &&& s.cuts == seq![0int]
            &&& s.es == join_upto(w.t, a, n).es
            &&& 4 + p.layout(w.t.kids[a].leaf).entries_size(s.es) <= s.occ
            &&& s.occ <= used_together(p, st, w.t, a, n)
        },
    decreases n,
{
    reveal(packing_upto);
    reveal(extended);
    let t = w.t;
    let l = p.layout(t.kids[a].leaf);
    lemma_child::<K, V>(p, st, w, a, a);
    if n > 1 {
        let m = (n - 1) as nat;
        lemma_used_more(p, st, t, a, m, n);
        lemma_small_packing::<K, V>(p, fill, st, w, a, m);
        let s = packing_upto(p, fill, st, t, a, m)->0;
        let e = t.kids[a + n - 1].es;
        lemma_child::<K, V>(p, st, w, a, a + n - 1);
        lemma_fitting_all(l, s.room(p, l, fill), e);
        assert(e.take(e.len() as int) =~= e);
        lemma_used_with(l, p.node_size, s.occ, s.es, e);
    }
}

/// The last of the children that fit into one node is taken in.
pub proof fn lemma_small_plan<K: BtreeKey, V: BtreeValue>(
    p: Params,
    fill: int,
    st: Store,
    w: Place,
    a: int,
    b: int,
)
    requires
        placed::<K, V>(p, st, w),
        0 <= a < b < w.t.kids.len(),
        fit_together(p, fill, st, w.t, a, b),
    ensures
        plan(p, fill, st, w.t, a, b) == Some(((b - a + 1) as nat, seq![0int])),
{
    reveal(packing_all);
    let t = w.t;
    let l = p.layout(t.kids[a].leaf);
    let k = (b - a) as nat;
    let e = t.kids[b].es;
    lemma_child::<K, V>(p, st, w, a, b);
    lemma_used_more(p, st, t, a, k, k + 1);
    lemma_small_packing::<K, V>(p, fill, st, w, a, k);
    let s = packing_upto(p, fill, st, t, a, k)->0;
    lemma_fitting_all(l, s.room(p, l, fill), e);
    assert(join_upto(t, a, k + 1).es == join_upto(t, a, k).es + e);
}

/// The key of a single node fits where there is room for it.
pub proof fn lemma_one_key(p: Params, t: Tree, a: int, b: int)
    requires
        p.interior.wf(),
        0 <= a <= b <= t.es.len(),
        key_fits(p, t, a, b),
    ensures
        ({
            let j = join_upto(t, a, (b - a + 1) as nat);
            keys_fit(p, t, a, b, piece_keys(t, b, j, seq![0int, j.es.len() as int]))
        }),
{
    broadcast use crate::record_sizes::lemma_times;

    let j = join_upto(t, a, (b - a + 1) as nat);
    let keys = piece_keys(t, b, j, seq![0int, j.es.len() as int]);
    if b < t.es.len() {
        let base = staying(t, a, b, 1);
        let rest = t.es.take(a) + t.es.skip(b + 1);
        let e = child_entry(j.es.last().key, 0);
        assert(keys.len() == 1 && keys[0] == j.es.last().key);
        assert(with_keys(base, a, keys, 0) =~= rest.insert(a, e));
        lemma_data_size_insert(rest, a, e);
        lemma_id_bytes(0);
        lemma_id_bytes(t.kids[a].id);
        assert forall|i: int| 0 <= i < keys.len() implies p.interior.entries_size(
            #[trigger] with_keys(base, a, keys, i),
        ) <= p.node_size - 60 by {
            assert(i == 0);
        }
    }
}

//==============================================================================
// Following the plan
//==============================================================================

/// Child `k` of those from `a` to `b` is being packed: the entries before `cursor` are in the
/// packing. Either `more` are to come, or all are there; or the packing has failed, or stops
/// before the child.
#[verifier::opaque]
pub open spec fn filling(
    p: Params,
    fill: int,
    st: Store,
    t: Tree,
    a: int,
    b: int,
    k: int,
    s: Packing,
    cursor: int,
    more: bool,
    failed: bool,
    stop: bool,
) -> bool {
    let l = p.layout(t.kids[a].leaf);
    let e = t.kids[k].es;
    let c = (k - a) as nat;
    match packing_upto(p, fill, st, t, a, c) {
        None => false,
        Some(s0) => if k == b {
            let goal = packing_all(p, fill, st, t, a, b);
            if failed {
                goal is None
            } else if stop {
                goal == Some((c, s))
            } else if !more {
                goal == Some((c + 1, s))
            } else {
                s == s0 && cursor == 0
            }
        } else {
            let goal = extended(p, l, fill, s0, e);
            if failed {
                goal is None
            } else if stop {
                false
            } else if more {
                goal == extended(p, l, fill, s, e.skip(cursor))
            } else {
                goal == Some(s)
            }
        },
    }
}

/// Nothing of child `k` is in the packing yet.
pub proof fn lemma_filling_start(
    p: Params,
    fill: int,
    st: Store,
    t: Tree,
    a: int,
    b: int,
    k: int,
    s: Packing,
)
    requires
        packing_upto(p, fill, st, t, a, (k - a) as nat) == Some(s),
    ensures
        filling(p, fill, st, t, a, b, k, s, 0, true, false, false),
{
    reveal(filling);
    assert(t.kids[k].es.skip(0) =~= t.kids[k].es);
}

/// The last node has taken the entries up to `cursor2`.
pub proof fn lemma_filling_step(
    p: Params,
    fill: int,
    st: Store,
    t: Tree,
    a: int,
    b: int,
    k: int,
    s: Packing,
    cursor: int,
    cursor2: int,
)
    requires
        filling(p, fill, st, t, a, b, k, s, cursor, true, false, false),
        a < k <= b,
        0 <= cursor <= cursor2 <= t.kids[k].es.len(),
        ({
            let l = p.layout(t.kids[a].leaf);
            let e = t.kids[k].es.skip(cursor);
            cursor2 - cursor == if k == b && l.entries_size(e) > fill - s.occ {
                0
            } else {
                l.fitting(s.room(p, l, fill), e)
            }
        }),
    ensures
        ({
            let l = p.layout(t.kids[a].leaf);
            let e = t.kids[k].es;
            let s2 = s.with(p, l, e.subrange(cursor, cursor2));
            if cursor2 == e.len() {
                filling(p, fill, st, t, a, b, k, s2, cursor2, false, false, false)
            } else if k == b && cursor2 == 0 {
                filling(p, fill, st, t, a, b, k, s2, cursor2, true, false, true)
            } else if k == b || s2.es.len() == 0 {
                filling(p, fill, st, t, a, b, k, s2, cursor2, true, true, false)
            } else {
                filling(p, fill, st, t, a, b, k, s2.next(), cursor2, true, false, false)
            }
        }),
        k == b ==> cursor == 0,
{
    reveal(filling);
    reveal(extended);
    reveal(packing_all);
    let l = p.layout(t.kids[a].leaf);
    let e = t.kids[k].es;
    let y = e.subrange(cursor, cursor2);
    assert(y =~= e.skip(cursor).take(cursor2 - cursor));
    assert(e.skip(cursor).skip(cursor2 - cursor) =~= e.skip(cursor2));
    if k == b {
        assert(e.skip(0) =~= e);
        assert(e.subrange(0, e.len() as int) =~= e);
        if cursor2 == cursor {
            assert(s.es + y =~= s.es);
        }
    } else if cursor2 == e.len() {
        assert(e.skip(cursor).take(cursor2 - cursor) =~= e.skip(cursor));
    }
}

/// Child `k` has been dealt with.
pub proof fn lemma_filling_done(
    p: Params,
    fill: int,
    st: Store,
    t: Tree,
    a: int,
    b: int,
    k: int,
    s: Packing,
    cursor: int,
    more: bool,
    failed: bool,
    stop: bool,
)
    requires
        filling(p, fill, st, t, a, b, k, s, cursor, more, failed, stop),
        a < k <= b,
        !more || failed || stop,
    ensures
        failed ==> packing_all(p, fill, st, t, a, b) is None,
        !failed && stop ==> k == b && packing_all(p, fill, st, t, a, b) == Some(
            ((k - a) as nat, s),
        ),
        !failed && !stop ==> if k == b {
            packing_all(p, fill, st, t, a, b) == Some(((k + 1 - a) as nat, s))
        } else {
            packing_upto(p, fill, st, t, a, (k + 1 - a) as nat) == Some(s)
        },
{
    reveal(filling);
    reveal(packing_upto);
    reveal(packing_all);
    if failed && k < b {
        lemma_packing_fails(p, fill, st, t, a, (k + 1 - a) as nat, (b - a) as nat);
    }
}

} // verus!
