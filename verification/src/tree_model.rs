//! What a stored B-tree means.
//!
//! A [`Tree`] is the decoded picture of the nodes that can be reached from a root. It says
//! which node hangs where; [`rep`] ties the picture to the stored nodes, [`sound`] says that
//! the picture is a search tree, and [`flat`] reads off the entries in key order.

use vstd::prelude::*;
use crate::btree_kvs::{
    id_bytes, id_of, BtreeKey, BtreeValue, Entry, ValueOrOverflow, EMPTY_BNODEID,
};
use crate::btree_node::CoreView;
use crate::node_layout::Layout;

verus! {

/// A node together with everything below it.
#[verifier::ext_equal]
pub struct Tree {
    /// Id under which the node is stored.
    pub id: u64,
    /// The right sibling, as the node names it.
    pub next: u64,
    /// Whether the entries hold values rather than children.
    pub leaf: bool,
    /// The entries of the node.
    pub es: Seq<Entry>,
    /// The children of an interior node.
    pub kids: Seq<Tree>,
    /// Whether the last child hangs behind the last entry.
    pub edge: bool,
}

/// The fixed parameters of a tree.
pub struct Params {
    /// Records of the leaves.
    pub leaf: Layout,
    /// Records of the interior nodes.
    pub interior: Layout,
    /// Bytes of a node.
    pub node_size: int,
    /// Longest key in bytes, negative where the nodes are too small for any.
    pub max_key: int,
    /// Longest stored value in bytes.
    pub max_val: int,
}

impl Params {
    pub open spec fn layout(self, leaf: bool) -> Layout {
        if leaf {
            self.leaf
        } else {
            self.interior
        }
    }

    /// Bytes of a node that entries can take.
    pub open spec fn room(self) -> int {
        self.node_size - 60
    }

    /// Two of the largest entries fit into a node.
    pub open spec fn wf(self) -> bool {
        &&& self.leaf.wf()
        &&& self.interior.wf()
        &&& self.leaf.rec <= 6
        &&& self.interior.rec <= 6
        &&& self.interior.val_fixed == Some(8int)
        &&& 60 <= self.node_size <= 0xffff
        &&& 8 <= self.max_val
        &&& 2 * (self.max_key + self.max_val + 6) <= self.room()
    }
}

//==============================================================================
// Reading a tree
//==============================================================================

/// The entries of the leaves, from left to right.
pub open spec fn flat(t: Tree) -> Seq<Entry>
    decreases t,
{
    if t.leaf {
        t.es
    } else {
        flat_all(t.kids)
    }
}

/// The entries of the leaves under several nodes.
pub open spec fn flat_all(ks: Seq<Tree>) -> Seq<Entry>
    decreases ks,
{
    if ks.len() == 0 {
        Seq::empty()
    } else {
        flat_all(ks.drop_last()) + flat(ks.last())
    }
}

/// Whether the tree has a node with id `x`.
pub open spec fn has_id(t: Tree, x: u64) -> bool
    decreases t,
{
    t.id == x || exists|i: int| 0 <= i < t.kids.len() && has_id(#[trigger] t.kid(i), x)
}

/// Two trees have no node in common.
pub open spec fn apart(a: Tree, b: Tree) -> bool {
    forall|x: u64| !(#[trigger] has_id(a, x) && #[trigger] has_id(b, x))
}

/// No id occurs twice in the tree.
pub open spec fn distinct(t: Tree) -> bool
    decreases t,
{
    &&& forall|i: int| 0 <= i < t.kids.len() ==> !has_id(#[trigger] t.kid(i), t.id)
    &&& forall|i: int, j: int|
        0 <= i < t.kids.len() && 0 <= j < t.kids.len() && i != j ==> apart(
            #[trigger] t.kid(i),
            #[trigger] t.kid(j),
        )
    &&& forall|i: int| 0 <= i < t.kids.len() ==> distinct(#[trigger] t.kid(i))
}

/// The id of the leftmost leaf.
pub open spec fn first_leaf(t: Tree) -> u64
    decreases t,
{
    if t.leaf || t.kids.len() == 0 {
        t.id
    } else {
        first_leaf(t.kids[0])
    }
}

/// The leaves, from left to right.
pub open spec fn leaves(t: Tree) -> Seq<Tree>
    decreases t,
{
    if t.leaf {
        seq![t]
    } else {
        leaves_all(t.kids)
    }
}

/// The leaves under several nodes.
pub open spec fn leaves_all(ks: Seq<Tree>) -> Seq<Tree>
    decreases ks,
{
    if ks.len() == 0 {
        Seq::empty()
    } else {
        leaves_all(ks.drop_last()) + leaves(ks.last())
    }
}

/// Leaf `j` names the next one, the last one `after`.
pub open spec fn names_next(ls: Seq<Tree>, j: int, after: u64) -> bool {
    ls[j].leaf && ls[j].next == if j + 1 < ls.len() {
        ls[j + 1].id
    } else {
        after
    }
}

/// Each leaf names the next one, the last one `after`.
pub open spec fn chained(ls: Seq<Tree>, after: u64) -> bool {
    forall|j: int| 0 <= j < ls.len() ==> #[trigger] names_next(ls, j, after)
}

//==============================================================================
// Stored trees
//==============================================================================

impl Tree {
    /// Child `i`.
    pub open spec fn kid(self, i: int) -> Tree {
        self.kids[i]
    }

    /// The id of the child behind the last entry.
    pub open spec fn edge_id(self) -> u64 {
        if self.edge {
            self.kids.last().id
        } else {
            EMPTY_BNODEID
        }
    }

    /// The tree with child `i` replaced.
    pub open spec fn with_kid(self, i: int, k: Tree) -> Tree {
        Tree { kids: self.kids.update(i, k), ..self }
    }

    /// The leaf that follows the leaves of child `i`.
    pub open spec fn after(self, i: int, after: u64) -> u64 {
        if i + 1 < self.kids.len() {
            first_leaf(self.kids[i + 1])
        } else {
            after
        }
    }

    /// Keys below child `i` are greater than this one.
    pub open spec fn lo(self, i: int, lo: Option<Seq<u8>>) -> Option<Seq<u8>> {
        if i == 0 {
            lo
        } else {
            Some(self.es[i - 1].key)
        }
    }

    /// Keys below child `i` are not greater than this one.
    pub open spec fn hi(self, i: int, hi: Option<Seq<u8>>) -> Option<Seq<u8>> {
        if i < self.es.len() {
            Some(self.es[i].key)
        } else {
            hi
        }
    }
}

/// The stored node is the root of the tree.
pub open spec fn node_rep(p: Params, nodes: Map<u64, CoreView>, t: Tree) -> bool {
    let c = nodes[t.id];
    &&& nodes.contains_key(t.id)
    &&& t.id != EMPTY_BNODEID
    &&& core_rep(p, c, t)
}

/// The node is the root of the tree.
pub open spec fn core_rep(p: Params, c: CoreView, t: Tree) -> bool {
    let l = p.layout(t.leaf);
    &&& c.header.node_id == t.id
    &&& c.header.leaf == t.leaf
    &&& c.header.next_node == t.next
    &&& c.header.edge_id == t.edge_id()
    &&& c.buf.len() == p.node_size
    &&& l.node_wf(c.buf, c.header.nentries as int)
    &&& l.entries(c.buf, c.header.nentries as int) == t.es
}

/// All nodes of the tree are stored.
pub open spec fn rep(p: Params, nodes: Map<u64, CoreView>, t: Tree) -> bool
    decreases t,
{
    &&& node_rep(p, nodes, t)
    &&& forall|i: int| 0 <= i < t.kids.len() ==> rep(p, nodes, #[trigger] t.kid(i))
}

//==============================================================================
// Search trees
//==============================================================================

/// Key `k` is greater than the bound.
pub open spec fn above<K: BtreeKey>(lo: Option<Seq<u8>>, k: Seq<u8>) -> bool {
    lo matches Some(b) ==> K::lt(b, k)
}

/// Key `k` is not greater than the bound.
pub open spec fn upto<K: BtreeKey>(hi: Option<Seq<u8>>, k: Seq<u8>) -> bool {
    hi matches Some(b) ==> !K::lt(b, k)
}

/// The entries have strictly increasing keys.
pub open spec fn sorted<K: BtreeKey>(es: Seq<Entry>) -> bool {
    forall|i: int, j: int| 0 <= i < j < es.len() ==> K::lt(#[trigger] es[i].key, #[trigger] es[j].key)
}

/// The key is one, is not too long, and lies between the bounds.
pub open spec fn key_ok<K: BtreeKey>(
    p: Params,
    k: Seq<u8>,
    lo: Option<Seq<u8>>,
    hi: Option<Seq<u8>>,
) -> bool {
    &&& K::valid(k)
    &&& k.len() <= p.max_key
    &&& p.interior.key_fixed matches Some(n) ==> k.len() == n
    &&& above::<K>(lo, k)
    &&& upto::<K>(hi, k)
}

/// The stored value can be read and is not too long.
pub open spec fn val_ok<V: BtreeValue>(p: Params, e: Entry) -> bool {
    &&& ValueOrOverflow::<V>::readable(e.val, e.overflow)
    &&& e.val.len() <= p.max_val
}

/// What a single node contributes to a search tree whose keys lie between the bounds.
pub open spec fn local<K: BtreeKey, V: BtreeValue>(
    p: Params,
    t: Tree,
    lo: Option<Seq<u8>>,
    hi: Option<Seq<u8>>,
) -> bool {
    &&& sorted::<K>(t.es)
    &&& forall|i: int| 0 <= i < t.es.len() ==> key_ok::<K>(p, #[trigger] t.es[i].key, lo, hi)
    &&& t.leaf ==> {
        &&& t.kids.len() == 0
        &&& !t.edge
        &&& forall|i: int| 0 <= i < t.es.len() ==> val_ok::<V>(p, #[trigger] t.es[i])
    }
    &&& !t.leaf ==> {
        &&& t.kids.len() == t.es.len() + if t.edge {
            1int
        } else {
            0int
        }
        &&& t.kids.len() > 0
        &&& forall|i: int|
            0 <= i < t.es.len() ==> {
                &&& (#[trigger] t.es[i]).val == id_bytes(t.kids[i].id)
                &&& !t.es[i].overflow
                &&& !t.kids[i].edge
            }
    }
}

/// The tree is a search tree with leaves `h` levels down, its keys lie between the bounds, and
/// each leaf names the next one, the last one `after`.
pub open spec fn sound<K: BtreeKey, V: BtreeValue>(
    p: Params,
    t: Tree,
    h: nat,
    after: u64,
    lo: Option<Seq<u8>>,
    hi: Option<Seq<u8>>,
) -> bool
    decreases t,
{
    &&& local::<K, V>(p, t, lo, hi)
    &&& t.leaf == (h == 0)
    &&& t.leaf ==> t.next == after
    &&& forall|i: int|
        0 <= i < t.kids.len() ==> sound::<K, V>(
            p,
            #[trigger] t.kid(i),
            (h - 1) as nat,
            t.after(i, after),
            t.lo(i, lo),
            t.hi(i, hi),
        )
}

//==============================================================================
// Overflow records
//==============================================================================

/// An entry refers to overflow record `x`.
pub open spec fn refers(es: Seq<Entry>, x: u64) -> bool {
    exists|i: int| 0 <= i < es.len() && (#[trigger] es[i]).overflow && id_of(es[i].val) == x
}

/// Every overflow record that an entry refers to exists and belongs to that entry alone.
pub open spec fn ov_ok<V: BtreeValue>(ov: Map<u64, Seq<u8>>, es: Seq<Entry>) -> bool {
    &&& forall|i: int|
        0 <= i < es.len() && (#[trigger] es[i]).overflow ==> ov.contains_key(id_of(es[i].val))
            && V::valid(ov[id_of(es[i].val)])
    &&& forall|i: int, j: int|
        0 <= i < j < es.len() && (#[trigger] es[i]).overflow && (#[trigger] es[j]).overflow
            ==> id_of(es[i].val) != id_of(es[j].val)
}

//==============================================================================
// States
//==============================================================================

/// What a storage holds.
#[verifier::ext_equal]
pub struct Store {
    pub nodes: Map<u64, CoreView>,
    pub ov: Map<u64, Seq<u8>>,
}

/// The storage holds the tree, which is a search tree.
pub open spec fn holds<K: BtreeKey, V: BtreeValue>(
    p: Params,
    st: Store,
    t: Tree,
    h: nat,
    after: u64,
    lo: Option<Seq<u8>>,
    hi: Option<Seq<u8>>,
) -> bool {
    &&& rep(p, st.nodes, t)
    &&& distinct(t)
    &&& sound::<K, V>(p, t, h, after, lo, hi)
    &&& ov_ok::<V>(st.ov, flat(t))
}

/// A tree at its place in a larger one: with leaves `h` levels down, keys between two bounds,
/// and leaf `after` behind its last one.
#[verifier::ext_equal]
pub struct Place {
    pub t: Tree,
    pub h: nat,
    pub after: u64,
    pub lo: Option<Seq<u8>>,
    pub hi: Option<Seq<u8>>,
}

impl Place {
    /// The place of child `i`.
    pub open spec fn kid(self, i: int) -> Place {
        Place {
            t: self.t.kids[i],
            h: (self.h - 1) as nat,
            after: self.t.after(i, self.after),
            lo: self.t.lo(i, self.lo),
            hi: self.t.hi(i, self.hi),
        }
    }

    /// Another tree in the same place.
    pub open spec fn with(self, t: Tree) -> Place {
        Place { t, ..self }
    }
}

/// The place of a leaf, seen on its own.
pub open spec fn leaf_place(l: Tree) -> Place {
    Place { t: l, h: 0, after: l.next, lo: None, hi: None }
}

/// The storage holds the tree in its place.
pub open spec fn placed<K: BtreeKey, V: BtreeValue>(p: Params, st: Store, w: Place) -> bool {
    holds::<K, V>(p, st, w.t, w.h, w.after, w.lo, w.hi)
}

/// Tree `t` has become tree `t2` in place: the root keeps its id and the leftmost leaf its
/// place, nothing else in the storage has changed, and what is new was free before.
pub open spec fn reshaped(st: Store, t: Tree, st2: Store, t2: Tree) -> bool {
    &&& t2.id == t.id
    &&& t2.edge == t.edge
    &&& first_leaf(t2) == first_leaf(t)
    &&& forall|x: u64| #[trigger] has_id(t2, x) ==> has_id(t, x) || !st.nodes.contains_key(x)
    &&& forall|x: u64| #[trigger]
        st.nodes.contains_key(x) && !has_id(t, x) ==> st2.nodes.contains_key(x) && st2.nodes[x]
            == st.nodes[x]
    &&& forall|x: u64| #[trigger]
        refers(flat(t2), x) ==> refers(flat(t), x) || !st.ov.contains_key(x)
    &&& forall|x: u64| #[trigger]
        st.ov.contains_key(x) && !refers(flat(t), x) ==> st2.ov.contains_key(x) && st2.ov[x]
            == st.ov[x]
}

/// Nothing is left behind: what the storage holds beside tree `t2` it held before, beside tree
/// `t`.
#[verifier::opaque]
pub open spec fn tidy(st: Store, t: Tree, st2: Store, t2: Tree) -> bool {
    &&& forall|x: u64| #[trigger]
        st2.nodes.contains_key(x) && !has_id(t2, x) ==> st.nodes.contains_key(x) && !has_id(t, x)
    &&& forall|x: u64| #[trigger]
        st2.ov.contains_key(x) && !refers(flat(t2), x) ==> st.ov.contains_key(x) && !refers(
            flat(t),
            x,
        )
}

/// The storage holds nothing but the tree.
pub open spec fn only_tree(st: Store, t: Tree) -> bool {
    &&& forall|x: u64| #[trigger] st.nodes.contains_key(x) ==> has_id(t, x)
    &&& forall|x: u64| #[trigger] st.ov.contains_key(x) ==> refers(flat(t), x)
}

/// A key with its value, both serialized.
#[verifier::ext_equal]
pub struct KV {
    pub key: Seq<u8>,
    pub val: Seq<u8>,
}

/// What an entry holds.
pub open spec fn kv(ov: Map<u64, Seq<u8>>, e: Entry) -> KV {
    KV {
        key: e.key,
        val: if e.overflow {
            ov[id_of(e.val)]
        } else {
            e.val
        },
    }
}

/// What the entries hold.
pub open spec fn kvs(ov: Map<u64, Seq<u8>>, es: Seq<Entry>) -> Seq<KV> {
    Seq::new(es.len(), |i: int| kv(ov, es[i]))
}

} // verus!
