//! The configuration of a B-tree.

use vstd::prelude::*;
use crate::btree_kvs::{BtreeKey, BtreeValue, Entry};
use crate::btree_types::MergePolicy;
use crate::record_ops::{RecordPolicy, VAR_KEY_NODE, VAR_OBJECT_NODE, VAR_VALUE_NODE};
use crate::tree_model::Params;
use crate::varlen_node_common::VarRecordOps;

verus! {

/// How a B-tree lays out, fills and merges its nodes.
pub struct BtreeConfig {
    pub btree_name: String,
    /// Bytes of a node.
    pub node_size: u32,
    /// Record layout of the leaves.
    pub leaf_node_variant: u8,
    /// Record layout of the interior nodes.
    pub int_node_variant: u8,
    /// The length of all keys, where they have the same.
    pub fixed_key_size: Option<u32>,
    /// The length of all values, where they have the same.
    pub fixed_value_size: Option<u32>,
    /// The prefix length that keys are expected to share.
    pub expected_prefix_size: u16,
    /// Longer values go to overflow records. Two values of this size should fit into a node.
    pub inline_value_size: u32,
    /// Bytes up to which a merge fills a node.
    pub ideal_fill_size: u32,
    /// Nodes with fewer bytes in use are candidates for a merge.
    pub suggested_min_size: u32,
    /// Most nodes that one merge takes part in.
    pub max_merge_nodes: u32,
    pub merge_policy: MergePolicy,
}

/// The records of a node variant. A variant that leaves out a length needs it to be fixed; where
/// it is not, the records keep both.
pub open spec fn spec_policy(variant: u8, key: Option<u32>, value: Option<u32>) -> RecordPolicy {
    if variant == VAR_KEY_NODE && value is Some {
        RecordPolicy::VarKey { value_size: value->0 }
    } else if variant == VAR_VALUE_NODE && key is Some {
        RecordPolicy::VarValue { key_size: key->0 }
    } else {
        RecordPolicy::VarObject { variant }
    }
}

fn policy(variant: u8, key: Option<u32>, value: Option<u32>) -> (r: RecordPolicy)
    ensures
        r == spec_policy(variant, key, value),
{
    if variant == VAR_KEY_NODE {
        match value {
            Some(value_size) => RecordPolicy::VarKey { value_size },
            None => RecordPolicy::VarObject { variant },
        }
    } else if variant == VAR_VALUE_NODE {
        match key {
            Some(key_size) => RecordPolicy::VarValue { key_size },
            None => RecordPolicy::VarObject { variant },
        }
    } else {
        RecordPolicy::VarObject { variant }
    }
}

/// Bytes that a stored value takes at most, where values of up to `inline` bytes stay in the
/// nodes.
pub open spec fn max_stored(inline: u32) -> int {
    if inline < 8 {
        8
    } else {
        inline as int
    }
}

impl BtreeConfig {
    /// A configuration for nodes of `node_size` bytes: values take up to a quarter of a node,
    /// nodes are filled to nine tenths, and merges start below two fifths.
    pub fn new(node_size: u32, btree_name: String) -> (r: Self)
        ensures
            r.node_size == node_size,
            r.btree_name == btree_name,
            r.leaf_node_variant == VAR_OBJECT_NODE,
            r.int_node_variant == VAR_OBJECT_NODE,
            r.fixed_key_size is None,
            r.fixed_value_size is None,
            r.expected_prefix_size == 0,
            r.inline_value_size == Self::inline_limit(node_size as int),
            r.ideal_fill_size == node_size / 10 * 9,
            r.suggested_min_size == node_size / 10 * 4,
            r.max_merge_nodes == 3,
            r.merge_policy == MergePolicy::Conservative,
    {
        let mut config = BtreeConfig {
            btree_name,
            node_size,
            leaf_node_variant: VAR_OBJECT_NODE,
            int_node_variant: VAR_OBJECT_NODE,
            fixed_key_size: None,
            fixed_value_size: None,
            expected_prefix_size: 0,
            inline_value_size: 0,
            ideal_fill_size: node_size / 10 * 9,
            suggested_min_size: node_size / 10 * 4,
            max_merge_nodes: 3,
            merge_policy: MergePolicy::Conservative,
        };
        config.suggest_inline_value_size(u32::MAX);
        config
    }

    /// The two configurations differ in nothing but the name.
    pub open spec fn named_like(self, o: Self) -> bool {
        self == BtreeConfig { btree_name: self.btree_name, ..o }
    }

    /// Trees with configurations that differ in the name take the same keys and values.
    pub proof fn lemma_named_like<K: BtreeKey, V: BtreeValue>(&self, o: Self, k: int, v: int)
        requires
            self.named_like(o),
        ensures
            self.storable::<K, V>(k, v) == o.storable::<K, V>(k, v),
            self.spec_max_key_size() == o.spec_max_key_size(),
    {
        reveal(BtreeConfig::spec_inline_size);
        reveal(BtreeConfig::longest_key);
    }

    /// A copy under another name.
    pub fn copy_as(&self, btree_name: String) -> (r: Self)
        ensures
            r == (BtreeConfig { btree_name, ..*self }),
    {
        BtreeConfig {
            btree_name,
            node_size: self.node_size,
            leaf_node_variant: self.leaf_node_variant,
            int_node_variant: self.int_node_variant,
            fixed_key_size: self.fixed_key_size,
            fixed_value_size: self.fixed_value_size,
            expected_prefix_size: self.expected_prefix_size,
            inline_value_size: self.inline_value_size,
            ideal_fill_size: self.ideal_fill_size,
            suggested_min_size: self.suggested_min_size,
            max_merge_nodes: self.max_merge_nodes,
            merge_policy: self.merge_policy,
        }
    }

    /// A quarter of what a node has room for.
    pub open spec fn inline_limit(node_size: int) -> int {
        if node_size < 60 {
            0
        } else {
            (node_size - 60) / 4
        }
    }

    /// Keeps values of up to `size` bytes in the nodes, as far as a quarter of a node.
    pub fn suggest_inline_value_size(&mut self, size: u32)
        ensures
            *final(self) == (BtreeConfig {
                inline_value_size: final(self).inline_value_size,
                ..*old(self)
            }),
            final(self).inline_value_size == if size < Self::inline_limit(
                old(self).node_size as int,
            ) {
                size as int
            } else {
                Self::inline_limit(old(self).node_size as int)
            },
    {
        let limit: u32 = if self.node_size < 60 {
            0
        } else {
            (self.node_size - 60) / 4
        };
        self.inline_value_size = if size < limit {
            size
        } else {
            limit
        };
    }

    /// Longer values go to overflow records: the configured limit, or a quarter of a node where
    /// a node has no room for two values of that size.
    #[verifier::opaque]
    pub open spec fn spec_inline_size(&self) -> u32 {
        if 60 + 2 * (max_stored(self.inline_value_size) + 6) <= self.node_size {
            self.inline_value_size
        } else {
            Self::inline_limit(self.node_size as int) as u32
        }
    }

    /// The size up to which values stay in the nodes.
    pub fn inline_size(&self) -> (r: u32)
        ensures
            r == self.spec_inline_size(),
    {
        proof {
            reveal(BtreeConfig::spec_inline_size);
        }
        let stored: u64 = if self.inline_value_size < 8 {
            8
        } else {
            self.inline_value_size as u64
        };
        if 60 + 2 * (stored + 6) <= self.node_size as u64 {
            self.inline_value_size
        } else if self.node_size < 60 {
            0
        } else {
            (self.node_size - 60) / 4
        }
    }

    /// The length of the longest key of which two fit into a node, each with the largest stored
    /// value; negative where not even the empty one does.
    #[verifier::opaque]
    pub open spec fn longest_key(&self) -> int {
        (self.node_size - 60) / 2 - 6 - max_stored(self.spec_inline_size())
    }

    /// The longest key that the tree takes.
    pub open spec fn spec_max_key_size(&self) -> u32 {
        if self.node_size < 60 || self.longest_key() < 0 {
            0
        } else {
            self.longest_key() as u32
        }
    }

    /// The longest key that the tree takes. Two entries with such keys fit into a node.
    pub fn max_key_size(&self) -> (r: u32)
        ensures
            r == self.spec_max_key_size(),
    {
        proof {
            reveal(BtreeConfig::spec_inline_size);
            reveal(BtreeConfig::longest_key);
        }
        if self.node_size < 60 {
            return 0;
        }
        let half: u32 = (self.node_size - 60) / 2;
        let inline: u32 = self.inline_size();
        let value: u32 = if inline < 8 {
            8
        } else {
            inline
        };
        if half < 6 || half - 6 < value {
            0
        } else {
            half - 6 - value
        }
    }

    pub open spec fn spec_leaf_policy(&self) -> RecordPolicy {
        spec_policy(self.leaf_node_variant, self.fixed_key_size, self.fixed_value_size)
    }

    pub open spec fn spec_int_policy(&self) -> RecordPolicy {
        spec_policy(self.int_node_variant, self.fixed_key_size, Some(8u32))
    }

    /// The records of the leaves.
    pub fn leaf_policy(&self) -> (r: RecordPolicy)
        ensures
            r == self.spec_leaf_policy(),
    {
        policy(self.leaf_node_variant, self.fixed_key_size, self.fixed_value_size)
    }

    /// The records of the interior nodes.
    pub fn int_policy(&self) -> (r: RecordPolicy)
        ensures
            r == self.spec_int_policy(),
    {
        policy(self.int_node_variant, self.fixed_key_size, Some(8))
    }

    /// The parameters of trees with this configuration.
    pub open spec fn params<K: BtreeKey, V: BtreeValue>(&self) -> Params {
        Params {
            leaf: self.spec_leaf_policy().layout().with_fixed(
                K::spec_fixed_serialized_size(),
                V::spec_fixed_serialized_size(),
            ),
            interior: self.spec_int_policy().layout().with_fixed(
                K::spec_fixed_serialized_size(),
                Some(8u32),
            ),
            node_size: self.node_size as int,
            max_key: self.longest_key(),
            max_val: max_stored(self.spec_inline_size()),
        }
    }

    /// Whether a node has room for its headers, two bytes can hold its offsets, and the length
    /// that the type of the values fixes, if it does, can be written down in a record.
    pub open spec fn usable<V: BtreeValue>(&self) -> bool {
        &&& 60 <= self.node_size <= 0xffff
        &&& V::spec_fixed_serialized_size() matches Some(n) ==> n <= 0x7fff
    }

    pub proof fn lemma_usable<K: BtreeKey, V: BtreeValue>(&self)
        requires
            self.usable::<V>(),
        ensures
            self.params::<K, V>().wf(),
            self.longest_key() <= 0xffff,
    {
        reveal(BtreeConfig::spec_inline_size);
        reveal(BtreeConfig::longest_key);
    }

    /// Whether trees can be built with this configuration.
    pub fn is_usable<V: BtreeValue>(&self) -> (r: bool)
        ensures
            r == self.usable::<V>(),
    {
        let value_ok: bool = match V::fixed_serialized_size() {
            Some(n) => n <= 0x7fff,
            None => true,
        };
        60 <= self.node_size && self.node_size <= 0xffff && value_ok
    }

    /// Whether two entries with empty keys fit into a node.
    pub fn has_room(&self) -> (r: bool)
        requires
            60 <= self.node_size,
        ensures
            r == (self.longest_key() >= 0),
    {
        proof {
            reveal(BtreeConfig::spec_inline_size);
            reveal(BtreeConfig::longest_key);
        }
        let inline: u32 = self.inline_size();
        let value: u32 = if inline < 8 {
            8
        } else {
            inline
        };
        (self.node_size - 60) / 2 >= 6 + value
    }

    /// Whether a value of this length goes to an overflow record.
    pub open spec fn overflows(&self, val_len: int) -> bool {
        val_len > self.spec_inline_size()
    }

    /// Bytes that a value of this length takes in a node.
    pub open spec fn stored_len(&self, val_len: int) -> int {
        if self.overflows(val_len) {
            8
        } else {
            val_len
        }
    }

    /// Whether the tree takes keys and values of these lengths.
    pub open spec fn storable<K: BtreeKey, V: BtreeValue>(&self, key_len: int, val_len: int) -> bool {
        let p = self.params::<K, V>();
        &&& key_len <= p.max_key
        &&& p.leaf.key_fixed matches Some(n) ==> key_len == n
        &&& p.interior.key_fixed matches Some(n) ==> key_len == n
        &&& p.leaf.val_fixed matches Some(n) ==> self.stored_len(val_len) == n
        &&& p.leaf.val_field is None ==> !self.overflows(val_len)
    }

    pub proof fn lemma_storable<K: BtreeKey, V: BtreeValue>(&self, key_len: int, val_len: int)
        requires
            self.usable::<V>(),
            self.storable::<K, V>(key_len, val_len),
            0 <= key_len,
            0 <= val_len,
        ensures
            forall|e: Entry|
                #![trigger self.params::<K, V>().leaf.fits(e)]
                e.key.len() == key_len && e.val.len() == self.stored_len(val_len) && e.overflow
                    == self.overflows(val_len) ==> self.params::<K, V>().leaf.fits(e),
            forall|e: Entry|
                #![trigger self.params::<K, V>().interior.fits(e)]
                e.key.len() == key_len && e.val.len() == 8 && !e.overflow ==> self.params::<
                    K,
                    V,
                >().interior.fits(e),
            self.stored_len(val_len) <= self.params::<K, V>().max_val,
    {
        self.lemma_usable::<K, V>();
    }

    /// Whether the tree takes keys and values of these lengths.
    pub fn is_storable<K: BtreeKey, V: BtreeValue>(&self, key_len: usize, val_len: usize) -> (r: bool)
        requires
            self.usable::<V>(),
        ensures
            r == self.storable::<K, V>(key_len as int, val_len as int),
    {
        proof {
            self.lemma_usable::<K, V>();
        }
        let overflow: bool = val_len > self.inline_size() as usize;
        let stored: usize = if overflow {
            8
        } else {
            val_len
        };
        let leaf = self.leaf_policy();
        let interior = self.int_policy();
        let key_type: Option<u32> = K::fixed_serialized_size();
        let val_type: Option<u32> = V::fixed_serialized_size();
        self.has_room() && key_len <= self.max_key_size() as usize && fixed_len_ok(key_type, leaf.key_size(), key_len)
            && fixed_len_ok(key_type, interior.key_size(), key_len) && fixed_len_ok(
            val_type,
            leaf.value_size(),
            stored,
        ) && (!overflow || leaf.marks_overflow())
    }
}

/// Whether a length agrees with the one that the type fixes, or else the records.
fn fixed_len_ok(by_type: Option<u32>, by_records: Option<u32>, len: usize) -> (r: bool)
    ensures
        r == match by_type {
            Some(n) => len == n,
            None => by_records matches Some(n) ==> len == n,
        },
{
    match by_type {
        Some(n) => len == n as usize,
        None => match by_records {
            Some(n) => len == n as usize,
            None => true,
        },
    }
}

} // verus!
