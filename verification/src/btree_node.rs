//! The in-memory image of a stored node.

use vstd::prelude::*;
use crate::btree_kvs::{BNodeId, EMPTY_BNODEID};
use crate::bytes::copy_vec;

verus! {

/// Bytes at the front of every node buffer that belong to the persistent header.
pub const PERSISTENT_HEADER_SIZE: u16 = 56;

/// What every node knows about itself, whatever the layout of its entries.
#[derive(Debug, Clone, Copy)]
pub struct PersistentHeader {
    /// Id under which the node is stored.
    pub node_id: BNodeId,
    /// Number of entries.
    pub nentries: u32,
    /// The child behind the last entry of an interior node, if there is one.
    pub edge_id: BNodeId,
    /// The right sibling, if there is one.
    pub next_node: BNodeId,
    /// Counts the changes of the node.
    pub node_gen: u64,
    /// Whether the entries hold values rather than children.
    pub leaf: bool,
    /// Which record layout the node uses.
    pub node_variant: u8,
}

impl PersistentHeader {
    /// Size of the header in a node buffer.
    pub fn size() -> (r: u16)
        ensures
            r == PERSISTENT_HEADER_SIZE,
    {
        PERSISTENT_HEADER_SIZE
    }
}

/// A node: its header, decoded, and its buffer.
pub struct NodeCore {
    pub header: PersistentHeader,
    pub phys_buf: Vec<u8>,
}

/// The content of a node.
#[verifier::ext_equal]
pub struct CoreView {
    pub header: PersistentHeader,
    pub buf: Seq<u8>,
}

impl View for NodeCore {
    type V = CoreView;

    open spec fn view(&self) -> CoreView {
        CoreView { header: self.header, buf: self.phys_buf@ }
    }
}

/// A generation counter after one more change.
pub open spec fn next_gen(gen: u64) -> u64 {
    if gen == u64::MAX {
        0
    } else {
        (gen + 1) as u64
    }
}

impl NodeCore {
    /// A copy of the node.
    pub fn copy(&self) -> (r: NodeCore)
        ensures
            r@ == self@,
    {
        NodeCore { header: self.header, phys_buf: copy_vec(&self.phys_buf) }
    }

    pub fn node_id(&self) -> (r: BNodeId)
        ensures
            r == self@.header.node_id,
    {
        self.header.node_id
    }

    pub fn is_leaf(&self) -> (r: bool)
        ensures
            r == self@.header.leaf,
    {
        self.header.leaf
    }

    /// Length of the node buffer.
    pub fn node_size(&self) -> (r: usize)
        ensures
            r == self@.buf.len(),
    {
        self.phys_buf.len()
    }

    /// Whether there is a child behind the last entry.
    pub fn has_valid_edge(&self) -> (r: bool)
        ensures
            r == (self@.header.edge_id != EMPTY_BNODEID),
    {
        self.header.edge_id != EMPTY_BNODEID
    }

    /// Makes `id` the child behind the last entry.
    pub fn set_edge(&mut self, id: BNodeId)
        ensures
            final(self)@ == (CoreView {
                header: PersistentHeader { edge_id: id, ..old(self)@.header },
                ..old(self)@
            }),
    {
        self.header.edge_id = id;
    }

    /// Drops the child behind the last entry.
    pub fn invalidate_edge(&mut self)
        ensures
            final(self)@ == (CoreView {
                header: PersistentHeader { edge_id: EMPTY_BNODEID, ..old(self)@.header },
                ..old(self)@
            }),
    {
        self.header.edge_id = EMPTY_BNODEID;
    }

    /// Sets the right sibling.
    pub fn set_next_node(&mut self, id: BNodeId)
        ensures
            final(self)@ == (CoreView {
                header: PersistentHeader { next_node: id, ..old(self)@.header },
                ..old(self)@
            }),
    {
        self.header.next_node = id;
    }

    /// Sets the number of entries.
    pub fn set_nentries(&mut self, n: u32)
        ensures
            final(self)@ == (CoreView {
                header: PersistentHeader { nentries: n, ..old(self)@.header },
                ..old(self)@
            }),
    {
        self.header.nentries = n;
    }

    /// Sets the generation counter to the one that follows `gen`.
    pub fn set_gen_after(&mut self, gen: u64)
        ensures
            final(self)@ == (CoreView {
                header: PersistentHeader { node_gen: next_gen(gen), ..old(self)@.header },
                ..old(self)@
            }),
    {
        self.header.node_gen = if gen == u64::MAX {
            0
        } else {
            gen + 1
        };
    }
}

} // verus!
