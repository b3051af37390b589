//! Where nodes and overflow records are kept.

use std::collections::HashMap;
use vstd::prelude::*;
use crate::btree_kvs::{BNodeId, EMPTY_BNODEID};
use crate::btree_node::{NodeCore, PersistentHeader};
use crate::btree_types::{BtreeError, IoErrorKind};
use crate::bytes::{copy_vec, zeroed};
use crate::tree_model::Store;

verus! {

/// A storage for nodes and overflow records. It decides about ids and keeps what it is given;
/// it knows nothing of trees.
///
/// A storage is reliable where requests for what it holds succeed. Only ids can run out in a
/// reliable storage. Of a request that an unreliable storage refuses, nothing is known but
/// that reading changes nothing.
pub trait UnderlyingBtree: Sized {
    /// What the storage holds.
    spec fn store(&self) -> Store;

    /// Bytes of a node.
    spec fn node_size(&self) -> nat;

    /// Whether requests for what the storage holds succeed.
    spec fn reliable(&self) -> bool;

    /// Whether the storage may have run out of ids.
    spec fn exhausted(&self) -> bool;

    /// The errors that requests can come back with.
    spec fn failures(&self) -> Set<BtreeError>;

    /// The root that the storage was told of last.
    spec fn root(&self) -> BNodeId;

    /// The node with the given id.
    fn read_node(&self, id: BNodeId) -> (r: Result<NodeCore, BtreeError>)
        ensures
            r matches Err(e) ==> self.failures().contains(e),
            r matches Ok(c) ==> self.store().nodes.contains_key(id) && c@ == self.store().nodes[id],
            self.reliable() && self.store().nodes.contains_key(id) ==> r is Ok,
            self.reliable() ==> (r matches Err(e) ==> e == BtreeError::NodeNotFound),
    ;

    /// Stores the node under its id.
    fn write_node(&mut self, node: &NodeCore) -> (r: Result<(), BtreeError>)
        ensures
            final(self).node_size() == old(self).node_size(),
            final(self).reliable() == old(self).reliable(),
            final(self).failures() == old(self).failures(),
            r matches Err(e) ==> old(self).failures().contains(e),
            final(self).root() == old(self).root(),
            old(self).exhausted() ==> final(self).exhausted(),
            r is Ok ==> final(self).store() == (Store {
                nodes: old(self).store().nodes.insert(node@.header.node_id, node@),
                ..old(self).store()
            }),
            old(self).reliable() && old(self).store().nodes.contains_key(node@.header.node_id)
                ==> r is Ok,
    ;

    /// A new node under an id that was free.
    fn create_node(&mut self, is_leaf: bool, node_type: u8) -> (r: Result<NodeCore, BtreeError>)
        ensures
            final(self).node_size() == old(self).node_size(),
            final(self).reliable() == old(self).reliable(),
            final(self).failures() == old(self).failures(),
            r matches Err(e) ==> old(self).failures().contains(e),
            final(self).root() == old(self).root(),
            old(self).exhausted() ==> final(self).exhausted(),
            r matches Ok(c) ==> {
                &&& !old(self).store().nodes.contains_key(c@.header.node_id)
                &&& c@.header.node_id != EMPTY_BNODEID
                &&& c@.header.leaf == is_leaf
                &&& c@.header.node_variant == node_type
                &&& c@.header.next_node == EMPTY_BNODEID
                &&& c@.buf.len() == old(self).node_size()
                &&& final(self).store() == (Store {
                    nodes: old(self).store().nodes.insert(c@.header.node_id, c@),
                    ..old(self).store()
                })
            },
            old(self).reliable() && !old(self).exhausted() ==> r is Ok,
            old(self).reliable() && r is Err ==> final(self).exhausted() && final(self).store()
                == old(self).store(),
    ;

    /// Forgets the node.
    fn delete_node(&mut self, id: BNodeId) -> (r: Result<(), BtreeError>)
        ensures
            final(self).node_size() == old(self).node_size(),
            final(self).reliable() == old(self).reliable(),
            final(self).failures() == old(self).failures(),
            r matches Err(e) ==> old(self).failures().contains(e),
            final(self).root() == old(self).root(),
            old(self).exhausted() ==> final(self).exhausted(),
            r is Ok ==> final(self).store() == (Store {
                nodes: old(self).store().nodes.remove(id),
                ..old(self).store()
            }),
            old(self).reliable() && old(self).store().nodes.contains_key(id) ==> r is Ok,
    ;

    /// Takes note of a new root.
    fn on_root_changed(&mut self, root_node_id: BNodeId) -> (r: Result<(), BtreeError>)
        ensures
            final(self).node_size() == old(self).node_size(),
            final(self).reliable() == old(self).reliable(),
            final(self).failures() == old(self).failures(),
            r matches Err(e) ==> old(self).failures().contains(e),
            old(self).exhausted() ==> final(self).exhausted(),
            r is Ok ==> final(self).store() == old(self).store() && final(self).root()
                == root_node_id,
            old(self).reliable() ==> r is Ok,
    ;

    /// Keeps the bytes under a new id.
    fn write_overflow(&mut self, data: Vec<u8>) -> (r: Result<BNodeId, BtreeError>)
        ensures
            final(self).node_size() == old(self).node_size(),
            final(self).reliable() == old(self).reliable(),
            final(self).failures() == old(self).failures(),
            r matches Err(e) ==> old(self).failures().contains(e),
            final(self).root() == old(self).root(),
            old(self).exhausted() ==> final(self).exhausted(),
            r matches Ok(id) ==> {
                &&& !old(self).store().ov.contains_key(id)
                &&& final(self).store() == (Store {
                    ov: old(self).store().ov.insert(id, data@),
                    ..old(self).store()
                })
            },
            old(self).reliable() && !old(self).exhausted() ==> r is Ok,
            old(self).reliable() && r is Err ==> final(self).exhausted() && final(self).store()
                == old(self).store(),
    ;

    /// The bytes kept under an id.
    fn read_overflow(&self, id: BNodeId) -> (r: Result<Vec<u8>, BtreeError>)
        ensures
            r matches Err(e) ==> self.failures().contains(e),
            r matches Ok(d) ==> self.store().ov.contains_key(id) && d@ == self.store().ov[id],
            self.reliable() && self.store().ov.contains_key(id) ==> r is Ok,
            self.reliable() ==> (r matches Err(e) ==> e == BtreeError::NodeNotFound),
    ;

    /// Forgets the bytes kept under an id.
    fn delete_overflow(&mut self, id: BNodeId) -> (r: Result<(), BtreeError>)
        ensures
            final(self).node_size() == old(self).node_size(),
            final(self).reliable() == old(self).reliable(),
            final(self).failures() == old(self).failures(),
            r matches Err(e) ==> old(self).failures().contains(e),
            final(self).root() == old(self).root(),
            old(self).exhausted() ==> final(self).exhausted(),
            r is Ok ==> final(self).store() == (Store {
                ov: old(self).store().ov.remove(id),
                ..old(self).store()
            }),
            old(self).reliable() && old(self).store().ov.contains_key(id) ==> r is Ok,
    ;
}

/// A storage in memory.
pub struct MemBtree {
    nodes: HashMap<u64, NodeCore>,
    overflow: HashMap<u64, Vec<u8>>,
    next_id: u64,
    node_bytes: usize,
    root_node_id: u64,
}

impl MemBtree {
    /// Ids from `next_id` on are free.
    #[verifier::type_invariant]
    closed spec fn fresh(self) -> bool {
        &&& forall|x: u64| #[trigger] self.nodes@.contains_key(x) ==> x < self.next_id
        &&& forall|x: u64| #[trigger] self.overflow@.contains_key(x) ==> x < self.next_id
    }

    /// How many ids the storage has given out.
    pub closed spec fn ids_given(self) -> int {
        self.next_id - 1
    }

    /// The storage runs out of ids when it has given out all but two of the numbers of 64 bits: zero
    /// is never given, nor the one that stands for no node.
    pub proof fn law_ids_suffice(self)
        ensures
            self.exhausted() ==> self.ids_given() == 0xffff_ffff_ffff_fffe,
            self.ids_given() == 0xffff_ffff_ffff_fffe ==> self.exhausted(),
    {
    }

    /// An empty storage for nodes of `node_size` bytes.
    pub fn new(node_size: usize) -> (r: Self)
        ensures
            r.store() == (Store { nodes: Map::empty(), ov: Map::empty() }),
            r.node_size() == node_size,
            r.reliable(),
            !r.exhausted(),
            r.ids_given() == 0,
    {
        broadcast use vstd::std_specs::hash::group_hash_axioms;

        let r = MemBtree {
            nodes: HashMap::new(),
            overflow: HashMap::new(),
            next_id: 1,
            node_bytes: node_size,
            root_node_id: EMPTY_BNODEID,
        };
        proof {
            assert(r.store().nodes =~= Map::empty());
            assert(r.store().ov =~= Map::empty());
        }
        r
    }

    /// The root that the storage was told of last.
    pub fn root_node_id(&self) -> (r: BNodeId)
        ensures
            r == self.root(),
    {
        self.root_node_id
    }
}

impl UnderlyingBtree for MemBtree {
    closed spec fn store(&self) -> Store {
        Store {
            nodes: self.nodes@.map_values(|c: NodeCore| c@),
            ov: self.overflow@.map_values(|d: Vec<u8>| d@),
        }
    }

    closed spec fn node_size(&self) -> nat {
        self.node_bytes as nat
    }

    closed spec fn reliable(&self) -> bool {
        true
    }

    closed spec fn exhausted(&self) -> bool {
        self.next_id == EMPTY_BNODEID
    }

    open spec fn failures(&self) -> Set<BtreeError> {
        set![BtreeError::NodeNotFound, BtreeError::Io(IoErrorKind::OutOfMemory)]
    }

    closed spec fn root(&self) -> BNodeId {
        self.root_node_id
    }

    fn read_node(&self, id: BNodeId) -> (r: Result<NodeCore, BtreeError>) {
        broadcast use vstd::std_specs::hash::group_hash_axioms;

        match self.nodes.get(&id) {
            Some(c) => Ok(c.copy()),
            None => Err(BtreeError::NodeNotFound),
        }
    }

    fn write_node(&mut self, node: &NodeCore) -> (r: Result<(), BtreeError>)
        ensures
            final(self).ids_given() == old(self).ids_given(),
    {
        broadcast use vstd::std_specs::hash::group_hash_axioms;

        proof {
            use_type_invariant(&*self);
        }
        let id: u64 = node.header.node_id;
        if id >= self.next_id {
            return Err(BtreeError::NodeNotFound);
        }
        let c = node.copy();
        let ghost before = self.store();
        let mut nodes: HashMap<u64, NodeCore> = HashMap::new();
        std::mem::swap(&mut nodes, &mut self.nodes);
        nodes.insert(id, c);
        self.nodes = nodes;
        proof {
            assert(self.store().nodes =~= before.nodes.insert(id, node@));
        }
        Ok(())
    }

    fn create_node(&mut self, is_leaf: bool, node_type: u8) -> (r: Result<NodeCore, BtreeError>)
        ensures
            r is Ok ==> final(self).ids_given() == old(self).ids_given() + 1,
            r matches Ok(c) ==> c@.header.node_id == final(self).ids_given(),
            r is Ok == !old(self).exhausted(),
            r matches Err(e) ==> *final(self) == *old(self) && e == BtreeError::Io(
                IoErrorKind::OutOfMemory,
            ),
    {
        broadcast use vstd::std_specs::hash::group_hash_axioms;

        proof {
            use_type_invariant(&*self);
        }
        let id: u64 = self.next_id;
        if id == EMPTY_BNODEID {
            return Err(BtreeError::Io(IoErrorKind::OutOfMemory));
        }
        let c = NodeCore {
            header: PersistentHeader {
                node_id: id,
                nentries: 0,
                edge_id: EMPTY_BNODEID,
                next_node: EMPTY_BNODEID,
                node_gen: 0,
                leaf: is_leaf,
                node_variant: node_type,
            },
            phys_buf: zeroed(self.node_bytes),
        };
        let copy = c.copy();
        let ghost before = self.store();
        self.next_id = id + 1;
        let mut nodes: HashMap<u64, NodeCore> = HashMap::new();
        std::mem::swap(&mut nodes, &mut self.nodes);
        nodes.insert(id, copy);
        self.nodes = nodes;
        proof {
            assert(self.store().nodes =~= before.nodes.insert(id, c@));
        }
        Ok(c)
    }

    fn delete_node(&mut self, id: BNodeId) -> (r: Result<(), BtreeError>)
        ensures
            final(self).ids_given() == old(self).ids_given(),
    {
        broadcast use vstd::std_specs::hash::group_hash_axioms;

        proof {
            use_type_invariant(&*self);
        }
        let ghost before = self.store();
        let mut nodes: HashMap<u64, NodeCore> = HashMap::new();
        std::mem::swap(&mut nodes, &mut self.nodes);
        let gone = nodes.remove(&id);
        self.nodes = nodes;
        proof {
            assert(self.store().nodes =~= before.nodes.remove(id));
        }
        match gone {
            Some(_) => Ok(()),
            None => Err(BtreeError::NodeNotFound),
        }
    }

    fn on_root_changed(&mut self, root_node_id: BNodeId) -> (r: Result<(), BtreeError>)
        ensures
            final(self).ids_given() == old(self).ids_given(),
    {
        proof {
            use_type_invariant(&*self);
        }
        self.root_node_id = root_node_id;
        Ok(())
    }

    fn write_overflow(&mut self, data: Vec<u8>) -> (r: Result<BNodeId, BtreeError>)
        ensures
            r is Ok ==> final(self).ids_given() == old(self).ids_given() + 1,
            r matches Ok(id) ==> id == final(self).ids_given(),
            r is Ok == !old(self).exhausted(),
            r matches Err(e) ==> *final(self) == *old(self) && e == BtreeError::Io(
                IoErrorKind::OutOfMemory,
            ),
    {
        broadcast use vstd::std_specs::hash::group_hash_axioms;

        proof {
            use_type_invariant(&*self);
        }
        let id: u64 = self.next_id;
        if id == EMPTY_BNODEID {
            return Err(BtreeError::Io(IoErrorKind::OutOfMemory));
        }
        let ghost before = self.store();
        let ghost bytes = data@;
        self.next_id = id + 1;
        let mut overflow: HashMap<u64, Vec<u8>> = HashMap::new();
        std::mem::swap(&mut overflow, &mut self.overflow);
        overflow.insert(id, data);
        self.overflow = overflow;
        proof {
            assert(self.store().ov =~= before.ov.insert(id, bytes));
        }
        Ok(id)
    }

    fn read_overflow(&self, id: BNodeId) -> (r: Result<Vec<u8>, BtreeError>) {
        broadcast use vstd::std_specs::hash::group_hash_axioms;

        match self.overflow.get(&id) {
            Some(d) => Ok(copy_vec(d)),
            None => Err(BtreeError::NodeNotFound),
        }
    }

    fn delete_overflow(&mut self, id: BNodeId) -> (r: Result<(), BtreeError>)
        ensures
            final(self).ids_given() == old(self).ids_given(),
    {
        broadcast use vstd::std_specs::hash::group_hash_axioms;

        proof {
            use_type_invariant(&*self);
        }
        let ghost before = self.store();
        let mut overflow: HashMap<u64, Vec<u8>> = HashMap::new();
        std::mem::swap(&mut overflow, &mut self.overflow);
        let gone = overflow.remove(&id);
        self.overflow = overflow;
        proof {
            assert(self.store().ov =~= before.ov.remove(id));
        }
        match gone {
            Some(_) => Ok(()),
            None => Err(BtreeError::NodeNotFound),
        }
    }
}

} // verus!
