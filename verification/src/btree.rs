//! The B-tree.

use std::marker::PhantomData;
use vstd::prelude::*;
use crate::btree_config::BtreeConfig;
use crate::btree_kvs::{
    id_bytes, lemma_id_bytes, BNodeId, BtreeKey, BtreeValue, Entry, ValueOrOverflow, EMPTY_BNODEID,
};
use crate::btree_node::{CoreView, NodeCore};
use crate::btree_types::{BtreeError, IoErrorKind};
use crate::node_layout::tail;
use crate::node_search::searchable;
use crate::record_ops::RecordPolicy;
use crate::tree_lemmas::lemma_kid_holds;
use crate::tree_model::{
    core_rep, flat, holds, key_ok, kv, kvs, node_rep, placed, tidy, val_ok, Params, Place, Store,
    Tree, KV,
};
use crate::underlying::UnderlyingBtree;
use crate::variants::alike;
use crate::var_node_ops::VarNodeOps;

verus! {

/// An ordered map from keys to values, kept as a B-tree in a storage.
pub struct Btree<K, V, S> {
    pub config: BtreeConfig,
    /// Where the nodes are kept.
    pub storage: S,
    pub root_node_id: BNodeId,
    /// Access to the entries of leaves.
    pub leaf_ops: VarNodeOps<RecordPolicy>,
    /// Access to the entries of interior nodes.
    pub int_ops: VarNodeOps<RecordPolicy>,
    /// The nodes that can be reached from the root.
    pub tree: Ghost<Tree>,
    /// How many levels the leaves lie below the root.
    pub height: Ghost<nat>,
    pub kinds: PhantomData<(K, V)>,
}

impl<K: BtreeKey, V: BtreeValue, S: UnderlyingBtree> Btree<K, V, S> {
    /// The parameters of the tree.
    pub open spec fn params(&self) -> Params {
        self.config.params::<K, V>()
    }

    /// Everything but the nodes is in order.
    pub open spec fn env_wf(&self) -> bool {
        &&& self.config.usable::<V>()
        &&& self.leaf_ops.record_ops == self.config.spec_leaf_policy()
        &&& self.int_ops.record_ops == self.config.spec_int_policy()
        &&& self.storage.node_size() == self.config.node_size
    }

    /// The place of the root.
    pub open spec fn top(&self) -> Place {
        Place { t: self.tree@, h: self.height@, after: EMPTY_BNODEID, lo: None, hi: None }
    }

    /// The storage holds a search tree under the root.
    pub open spec fn wf(&self) -> bool {
        &&& self.env_wf()
        &&& self.root_node_id == self.tree@.id
        &&& placed::<K, V>(self.params(), self.storage.store(), self.top())
    }

    /// Nothing but the stored nodes differs from `o`.
    pub open spec fn env_of(&self, o: &Self) -> bool {
        &&& self.config == o.config
        &&& self.leaf_ops == o.leaf_ops
        &&& self.int_ops == o.int_ops
        &&& self.storage.node_size() == o.storage.node_size()
        &&& self.storage.reliable() == o.storage.reliable()
        &&& self.storage.failures() == o.storage.failures()
        &&& o.storage.exhausted() ==> self.storage.exhausted()
    }

    /// A storage that knew the root of `o` knows the root now.
    pub open spec fn keeps_told(&self, o: &Self) -> bool {
        o.storage.root() == o.root_node_id ==> self.storage.root() == self.root_node_id
    }

    /// Between `o` and now, nothing was left in the storage that the tree does not use.
    pub open spec fn leaves_nothing(&self, o: &Self) -> bool {
        tidy(o.storage.store(), o.tree@, self.storage.store(), self.tree@)
    }

    /// Where all nodes had the variants that the configuration gives them, they still have.
    pub open spec fn keeps_variants(&self, o: &Self) -> bool {
        alike(o.config, o.storage.store(), self.storage.store())
    }

    /// What an entry holds.
    pub open spec fn kv(&self, e: Entry) -> KV {
        kv(self.storage.store().ov, e)
    }
}

/// The keys and values of the tree, in key order.
impl<K: BtreeKey, V: BtreeValue, S: UnderlyingBtree> View for Btree<K, V, S> {
    type V = Seq<KV>;

    open spec fn view(&self) -> Seq<KV> {
        kvs(self.storage.store().ov, flat(self.tree@))
    }
}

//==============================================================================
// Reading nodes
//==============================================================================

impl<K: BtreeKey, V: BtreeValue, S: UnderlyingBtree> Btree<K, V, S> {
    /// The node is the root of the tree at the place.
    pub open spec fn at(&self, core: CoreView, w: Place) -> bool {
        &&& self.env_wf()
        &&& placed::<K, V>(self.params(), self.storage.store(), w)
        &&& self.storage.store().nodes[w.t.id] == core
    }

    /// What the entries of a node are, and that they can be searched.
    pub proof fn lemma_at(&self, core: CoreView, w: Place)
        requires
            self.at(core, w),
        ensures
            core.header.leaf == w.t.leaf,
            core.header.node_id == w.t.id,
            core.header.next_node == w.t.next,
            core.header.nentries == w.t.es.len(),
            core.header.edge_id == w.t.edge_id(),
            core.buf.len() == self.params().node_size,
            w.t.leaf ==> self.leaf_ops.wf::<K, V>(core) && self.leaf_ops.entries::<K, V>(core)
                == w.t.es,
            !w.t.leaf ==> self.int_ops.wf::<K, u64>(core) && self.int_ops.entries::<K, u64>(core)
                == w.t.es,
            searchable::<K>(w.t.es),
            w.t.leaf ==> forall|i: int|
                0 <= i < w.t.es.len() ==> val_ok::<V>(self.params(), #[trigger] w.t.es[i]),
    {
        let p = self.params();
        let st = self.storage.store();
        assert(node_rep(p, st.nodes, w.t));
        assert(core_rep(p, core, w.t));
        assert(p.layout(w.t.leaf).entries(core.buf, core.header.nentries as int).len()
            == core.header.nentries);
        assert forall|j: int| 0 <= j < w.t.es.len() implies K::valid(#[trigger] w.t.es[j].key) by {
            assert(key_ok::<K>(p, w.t.es[j].key, w.lo, w.hi));
        }
    }

    /// What is known of a child.
    pub proof fn lemma_kid_at(&self, core: CoreView, w: Place, i: int)
        requires
            self.at(core, w),
            0 <= i < w.t.kids.len(),
        ensures
            placed::<K, V>(self.params(), self.storage.store(), w.kid(i)),
            self.storage.store().nodes.contains_key(w.t.kids[i].id),
            self.at(self.storage.store().nodes[w.t.kids[i].id], w.kid(i)),
            w.t.kids[i].id != EMPTY_BNODEID,
            !w.t.leaf,
    {
        let p = self.params();
        let st = self.storage.store();
        lemma_kid_holds::<K, V>(p, st, w.t, w.h, w.after, w.lo, w.hi, i);
        assert(node_rep(p, st.nodes, w.kid(i).t));
    }

    /// The id of child `idx`; the child behind the last entry comes last.
    pub(crate) fn get_nth_child_id(&self, core: &NodeCore, idx: u32, Ghost(w): Ghost<Place>) -> (r:
        BNodeId)
        requires
            self.at(core@, w),
            !w.t.leaf,
            idx < w.t.kids.len(),
        ensures
            r == w.t.kids[idx as int].id,
    {
        proof {
            self.lemma_at(core@, w);
        }
        if idx < core.header.nentries {
            let b = self.int_ops.get_nth_value_bytes::<K, u64>(core, idx);
            proof {
                assert(w.t.es[idx as int].val == id_bytes(w.t.kids[idx as int].id));
                lemma_id_bytes(w.t.kids[idx as int].id);
            }
            vstd::bytes::u64_from_le_bytes(b.as_slice())
        } else {
            core.header.edge_id
        }
    }

    /// Reads child `idx`.
    pub(crate) fn get_child(&self, core: &NodeCore, idx: u32, Ghost(w): Ghost<Place>) -> (r: Result<
        NodeCore,
        BtreeError,
    >)
        requires
            self.at(core@, w),
            !w.t.leaf,
            idx < w.t.kids.len(),
        ensures
            r matches Err(e) ==> self.storage.failures().contains(e),
            r matches Ok(c) ==> self.at(c@, w.kid(idx as int)),
            self.storage.reliable() ==> r is Ok,
    {
        let id: BNodeId = self.get_nth_child_id(core, idx, Ghost(w));
        proof {
            self.lemma_kid_at(core@, w, idx as int);
        }
        self.storage.read_node(id)
    }

    /// Reads the root.
    pub(crate) fn read_root(&self) -> (r: Result<NodeCore, BtreeError>)
        requires
            self.wf(),
        ensures
            r matches Err(e) ==> self.storage.failures().contains(e),
            r matches Ok(c) ==> self.at(c@, self.top()),
            self.storage.reliable() ==> r is Ok,
    {
        proof {
            assert(node_rep(self.params(), self.storage.store().nodes, self.tree@));
        }
        self.storage.read_node(self.root_node_id)
    }

    /// The key of entry `idx` of a leaf.
    pub(crate) fn leaf_key(&self, core: &NodeCore, idx: u32, Ghost(w): Ghost<Place>) -> (r: K)
        requires
            self.at(core@, w),
            w.t.leaf,
            idx < w.t.es.len(),
        ensures
            r.bytes() == w.t.es[idx as int].key,
    {
        proof {
            self.lemma_at(core@, w);
            assert(K::valid(w.t.es[idx as int].key));
        }
        self.leaf_ops.get_nth_key::<K, V>(core, idx)
    }

    /// The value of entry `idx` of a leaf, fetched from its overflow record where it has one.
    pub(crate) fn leaf_value(&self, core: &NodeCore, idx: u32, Ghost(w): Ghost<Place>) -> (r: Result<
        V,
        BtreeError,
    >)
        requires
            self.at(core@, w),
            w.t.leaf,
            idx < w.t.es.len(),
        ensures
            r matches Err(e) ==> self.storage.failures().contains(e),
            r matches Ok(v) ==> v.bytes() == self.kv(w.t.es[idx as int]).val,
            self.storage.reliable() ==> r is Ok,
    {
        proof {
            self.lemma_at(core@, w);
            assert(val_ok::<V>(self.params(), w.t.es[idx as int]));
        }
        match self.leaf_ops.get_nth_value::<K, V>(core, idx) {
            ValueOrOverflow::Inline(v) => Ok(v),
            ValueOrOverflow::Overflow(id) => {
                proof {
                    lemma_id_bytes(id);
                    assert(flat(w.t)[idx as int] == w.t.es[idx as int]);
                }
                match self.storage.read_overflow(id) {
                    Ok(d) => Ok(V::deserialize_from(d.as_slice())),
                    Err(e) => Err(e),
                }
            },
        }
    }
}

//==============================================================================
// Construction
//==============================================================================

/// A storage holds a search tree under the given root.
pub open spec fn is_tree<K: BtreeKey, V: BtreeValue>(
    p: Params,
    st: Store,
    root: BNodeId,
    t: Tree,
    h: nat,
) -> bool {
    &&& t.id == root
    &&& holds::<K, V>(p, st, t, h, EMPTY_BNODEID, None, None)
}

/// A storage holds some search tree under the given root.
pub open spec fn has_tree<K: BtreeKey, V: BtreeValue>(p: Params, st: Store, root: BNodeId) -> bool {
    exists|t: Tree, h: nat| is_tree::<K, V>(p, st, root, t, h)
}

/// A storage has got one more node, an empty leaf.
pub open spec fn new_root(st: Store, id: BNodeId, variant: u8, st2: Store) -> bool {
    &&& !st.nodes.contains_key(id)
    &&& st2 == (Store { nodes: st.nodes.insert(id, st2.nodes[id]), ..st })
    &&& st2.nodes[id].header.leaf
    &&& st2.nodes[id].header.nentries == 0
    &&& st2.nodes[id].header.node_variant == variant
}

impl<K: BtreeKey, V: BtreeValue, S: UnderlyingBtree> Btree<K, V, S> {
    /// Opens the tree under `root_node_id`, or makes an empty one where there is no root yet. A
    /// configuration that trees cannot be built with is refused.
    pub fn new(config: BtreeConfig, storage: S, root_node_id: Option<BNodeId>) -> (r: Result<
        Self,
        BtreeError,
    >)
        requires
            storage.node_size() == config.node_size,
            root_node_id matches Some(id) ==> has_tree::<K, V>(
                config.params::<K, V>(),
                storage.store(),
                id,
            ),
        ensures
            r matches Ok(b) ==> {
                &&& b.wf()
                &&& b.config == config
                &&& b.storage.reliable() == storage.reliable()
                &&& root_node_id matches Some(id) ==> b.root_node_id == id && b.storage == storage
                &&& b.storage.failures() == storage.failures()
                &&& root_node_id is None ==> b@ == Seq::<KV>::empty() && b.storage.root()
                    == b.root_node_id && new_root(
                    storage.store(),
                    b.root_node_id,
                    config.leaf_node_variant,
                    b.storage.store(),
                )
            },
            r matches Err(e) ==> storage.failures().contains(e) || !config.usable::<V>(),
            !config.usable::<V>() ==> r is Err && r->Err_0 == BtreeError::Io(
                IoErrorKind::InvalidInput,
            ),
            config.usable::<V>() && root_node_id is Some ==> r is Ok,
            config.usable::<V>() && storage.reliable() && !storage.exhausted() ==> r is Ok,
    {
        if !config.is_usable::<V>() {
            return Err(BtreeError::Io(IoErrorKind::InvalidInput));
        }
        let leaf_ops = VarNodeOps::new(config.leaf_policy());
        let int_ops = VarNodeOps::new(config.int_policy());
        let ghost (t, h) = choose|t: Tree, h: nat|
            is_tree::<K, V>(config.params::<K, V>(), storage.store(), root_node_id->0, t, h);
        let mut btree = Btree {
            config,
            storage,
            root_node_id: 0,
            leaf_ops,
            int_ops,
            tree: Ghost(t),
            height: Ghost(h),
            kinds: PhantomData,
        };
        match root_node_id {
            Some(id) => {
                btree.root_node_id = id;
                Ok(btree)
            },
            None => match btree.create_root_node() {
                Ok(_) => Ok(btree),
                Err(e) => Err(e),
            },
        }
    }
}

impl<K: BtreeKey, V: BtreeValue, S: UnderlyingBtree> Btree<K, V, S> {
    /// Creates a node of the variant, without entries, initialized in memory only.
    pub(crate) fn create_new_node(&mut self, is_leaf: bool, variant: u8) -> (r: Result<
        NodeCore,
        BtreeError,
    >)
        requires
            old(self).env_wf(),
        ensures
            r matches Err(e) ==> old(self).storage.failures().contains(e),
            final(self).env_of(old(self)),
            final(self).tree == old(self).tree,
            final(self).height == old(self).height,
            final(self).root_node_id == old(self).root_node_id,
            final(self).storage.root() == old(self).storage.root(),
            r matches Ok(c) ==> {
                let st = old(self).storage.store();
                let st2 = final(self).storage.store();
                let id = c@.header.node_id;
                &&& !st.nodes.contains_key(id)
                &&& id != EMPTY_BNODEID
                &&& c@.header.leaf == is_leaf
                &&& c@.header.nentries == 0
                &&& c@.header.node_variant == variant
                &&& c@.header.edge_id == EMPTY_BNODEID
                &&& c@.header.next_node == EMPTY_BNODEID
                &&& c@.buf.len() == old(self).params().node_size
                &&& old(self).params().layout(is_leaf).node_wf(c@.buf, 0)
                &&& old(self).params().layout(is_leaf).entries(c@.buf, 0) == Seq::<Entry>::empty()
                &&& tail(c@.buf) == c@.buf.len()
                &&& st2.ov == st.ov
                &&& st2.nodes == st.nodes.insert(id, st2.nodes[id])
            },
            old(self).storage.reliable() && !old(self).storage.exhausted() ==> r is Ok,
            old(self).storage.reliable() && r is Err ==> final(self).storage.exhausted()
                && final(self).storage.store() == old(self).storage.store(),
    {
        proof {
            self.config.lemma_usable::<K, V>();
        }
        match self.storage.create_node(is_leaf, variant) {
            Err(e) => Err(e),
            Ok(mut core) => {
                if is_leaf {
                    self.leaf_ops.init_new_node::<K, V>(&mut core);
                } else {
                    self.int_ops.init_new_node::<K, u64>(&mut core);
                }
                core.header.node_variant = variant;
                Ok(core)
            },
        }
    }

    /// Creates an empty leaf and makes it the root.
    fn create_root_node(&mut self) -> (r: Result<BNodeId, BtreeError>)
        requires
            old(self).env_wf(),
        ensures
            r matches Err(e) ==> old(self).storage.failures().contains(e),
            final(self).env_of(old(self)),
            r matches Ok(id) ==> {
                &&& final(self).wf()
                &&& final(self).root_node_id == id
                &&& final(self)@ == Seq::<KV>::empty()
                &&& final(self).storage.root() == id
                &&& new_root(
                    old(self).storage.store(),
                    id,
                    old(self).config.leaf_node_variant,
                    final(self).storage.store(),
                )
            },
            old(self).storage.reliable() && !old(self).storage.exhausted() ==> r is Ok,
    {
        let core = match self.create_new_node(true, self.config.leaf_node_variant) {
            Ok(core) => core,
            Err(e) => {
                return Err(e);
            },
        };
        if let Err(e) = self.storage.write_node(&core) {
            return Err(e);
        }
        let id: BNodeId = core.node_id();
        if let Err(e) = self.storage.on_root_changed(id) {
            return Err(e);
        }
        self.root_node_id = id;
        let ghost t = Tree {
            id,
            next: EMPTY_BNODEID,
            leaf: true,
            es: Seq::empty(),
            kids: Seq::empty(),
            edge: false,
        };
        self.tree = Ghost(t);
        self.height = Ghost(0nat);
        proof {
            let st = self.storage.store();
            assert(core_rep(self.params(), core@, t));
            assert(node_rep(self.params(), st.nodes, t));
            assert(st.nodes =~= old(self).storage.store().nodes.insert(id, core@));
            assert(self@ =~= Seq::<KV>::empty());
        }
        Ok(id)
    }

    /// The longest key that the tree takes. Two entries with such keys fit into a node.
    pub fn max_key_size(&self) -> (r: u32)
        ensures
            r == self.config.spec_max_key_size(),
    {
        self.config.max_key_size()
    }
}

} // verus!
