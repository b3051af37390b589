//! An index of a table: keys and values are checked against the specification of the table.

use vstd::prelude::*;
use vstd::string::StringExecFns;
use crate::any_index::AnyIndex;
use crate::btree_config::BtreeConfig;
use crate::btree_index::{found, sought, BtreeIndex, IndexModel, IndexQueries, IndexQueryHandle};
use crate::btree_req::{pairs, AcceptAll, BtreeKeyRange, RangeView};
use crate::btree_types::{BtreeError, IoErrorKind, MergePolicy};
use crate::bytes::copy_vec;
use crate::contents::{from_key, lookup, not, ordered, pick, with_key};
use crate::db_kv::{DbKey, DbValue};
use crate::iterator::{byte_pair, RangeIterator};
use crate::ordered_lemmas::{lemma_filter_first, lemma_lookup_some, lemma_pick_known};
use crate::put::updated;
use crate::query::in_range;
use crate::record_ops::{PREFIX_NODE, VAR_KEY_NODE, VAR_OBJECT_NODE, VAR_VALUE_NODE};
use crate::remove::{capped, partly_removed, victims};
use crate::schema::{
    failed_tree, of_tree, tree_failure, HomeDbError, KeyType, PrefixType, TableSpec, ValueSpec,
};
use crate::sharded_btree::{ShardedBtree, DEFAULT_NUM_SHARDS};
use crate::text::{copy_text, decimal, decimal_text};
use crate::tree_model::KV;
use crate::underlying::{MemBtree, UnderlyingBtree};
use crate::unsharded_btree::UnshardedBtree;

verus! {

/// What an index is for.
#[derive(Debug, Clone, Copy, PartialEq, Eq, Structural)]
pub enum IndexType {
    /// It has the rows themselves.
    Primary,
    /// It has the keys of rows.
    Secondary,
}

/// An index of a table, kept in memory.
pub struct TableIndex {
    pub name: String,
    pub index_type: IndexType,
    pub spec: TableSpec,
    pub btree: AnyIndex<MemBtree>,
    /// The longest key that the index takes.
    pub max_key_size: u32,
}

//==============================================================================
// Limits
//==============================================================================

/// Bytes of values that nodes have room for.
pub open spec fn inline_of(spec: TableSpec) -> int {
    let size = match spec.value_spec {
        ValueSpec::Fixed(n) => n,
        ValueSpec::Variable(n) => n,
    };
    let limit = BtreeConfig::inline_limit(spec.node_size as int);
    if size < limit {
        size as int
    } else {
        limit
    }
}

/// The longest key of which two fit into a node, each with a value.
pub open spec fn capacity(spec: TableSpec) -> int {
    let value = if inline_of(spec) < 8 {
        8
    } else {
        inline_of(spec)
    };
    let rest = (spec.node_size - 60) / 2 - 6 - value;
    if spec.node_size < 60 || rest < 0 {
        0
    } else {
        rest
    }
}

/// Nodes have room for their headers, and are not too large for their offsets.
pub open spec fn addressable(spec: TableSpec) -> bool {
    60 <= spec.node_size <= 0xffff
}

/// Nodes have room for two entries as well.
pub open spec fn buildable(spec: TableSpec) -> bool {
    let value = if inline_of(spec) < 8 {
        8
    } else {
        inline_of(spec)
    };
    addressable(spec) && 60 + 2 * (value + 6) <= spec.node_size
}

/// The longest key that the specification allows.
pub open spec fn longest_key(spec: TableSpec) -> usize {
    match spec.key_spec.key_type {
        KeyType::Fixed(n) => n,
        KeyType::Variable(n) => n,
    }
}

/// Why there is no index for the specification: its keys are too long, or nodes of the given
/// size cannot hold anything.
pub open spec fn refused(spec: TableSpec, e: HomeDbError) -> bool {
    if addressable(spec) && longest_key(spec) > capacity(spec) {
        e matches HomeDbError::Config(s) && s@ == capacity_message(spec)
    } else {
        tree_failure(e, BtreeError::Io(IoErrorKind::InvalidInput))
    }
}

/// The record layout that suits the lengths of keys and values.
pub open spec fn variant_of(spec: TableSpec) -> u8 {
    match spec.key_spec.prefix_type {
        PrefixType::Prefixable(_) => PREFIX_NODE,
        PrefixType::Plain => match (spec.key_spec.key_type, spec.value_spec) {
            (KeyType::Fixed(_), ValueSpec::Fixed(_)) => VAR_OBJECT_NODE,
            (KeyType::Variable(_), ValueSpec::Fixed(_)) => VAR_KEY_NODE,
            (KeyType::Fixed(_), ValueSpec::Variable(_)) => VAR_VALUE_NODE,
            (KeyType::Variable(_), ValueSpec::Variable(_)) => VAR_OBJECT_NODE,
        },
    }
}

/// The prefix length that keys are expected to share.
pub open spec fn prefix_of(spec: TableSpec) -> int {
    match spec.key_spec.prefix_type {
        PrefixType::Prefixable(Some(n)) => if n < 0xffff {
            n as int
        } else {
            0xffff
        },
        _ => 0,
    }
}

/// The length of all keys, where the records leave it out.
pub open spec fn fixed_key_of(spec: TableSpec) -> Option<u32> {
    match spec.key_spec.key_type {
        KeyType::Fixed(n) => if variant_of(spec) == VAR_VALUE_NODE && n <= 0xffff {
            Some(n as u32)
        } else {
            None
        },
        KeyType::Variable(_) => None,
    }
}

/// The length of all values, where the records leave it out. They cannot if values go to overflow
/// records.
pub open spec fn fixed_value_of(spec: TableSpec) -> Option<u32> {
    match spec.value_spec {
        ValueSpec::Fixed(n) => if variant_of(spec) == VAR_KEY_NODE && n <= inline_of(spec) {
            Some(n as u32)
        } else {
            None
        },
        ValueSpec::Variable(_) => None,
    }
}

/// The configuration is the one for trees of the specification.
pub open spec fn configured(spec: TableSpec, c: BtreeConfig) -> bool {
    &&& c.node_size == spec.node_size
    &&& c.leaf_node_variant == variant_of(spec)
    &&& c.int_node_variant == variant_of(spec)
    &&& c.fixed_key_size == fixed_key_of(spec)
    &&& c.fixed_value_size == fixed_value_of(spec)
    &&& c.expected_prefix_size == prefix_of(spec)
    &&& c.inline_value_size == inline_of(spec)
    &&& c.ideal_fill_size == spec.node_size / 10 * 9
    &&& c.suggested_min_size == spec.node_size / 10 * 4
    &&& c.max_merge_nodes == 3
    &&& c.merge_policy == MergePolicy::Conservative
}

/// The trees of an index are configured for the specification, and partitions have the length
/// that it asks for.
pub open spec fn set_up(spec: TableSpec, name: Seq<char>, index: AnyIndex<MemBtree>) -> bool {
    match index {
        AnyIndex::Unsharded(b) => {
            &&& spec.partition_key_size == 0
            &&& configured(spec, b.btree.config)
            &&& b.btree.config.btree_name@ == name
        },
        AnyIndex::Sharded(b) => {
            &&& spec.partition_key_size > 0
            &&& b.partition_key_len == spec.partition_key_size
            &&& b.shards@.len() == DEFAULT_NUM_SHARDS
            &&& forall|i: int|
                0 <= i < b.shards@.len() ==> {
                    let c = (#[trigger] b.shards@[i]).config;
                    configured(spec, c) && c.btree_name@ == name + "_"@ + decimal(i as nat)
                }
        },
    }
}

/// Trees for a specification take the keys and values that it allows.
proof fn lemma_configured(spec: TableSpec, c: BtreeConfig)
    requires
        configured(spec, c),
    ensures
        c.usable::<DbValue>() == addressable(spec),
        addressable(spec) ==> buildable(spec) == (c.longest_key() >= 0),
        c.spec_max_key_size() == capacity(spec),
        buildable(spec) ==> forall|k: int, v: int|
            0 <= k <= capacity(spec) && spec.key_spec.allows(k) && 0 <= v
                && spec.value_spec.allows(v) ==> #[trigger] c.storable::<DbKey, DbValue>(k, v),
{
    reveal(BtreeConfig::spec_inline_size);
    reveal(BtreeConfig::longest_key);
    let n = spec.node_size as int;
    let q = BtreeConfig::inline_limit(n);
    if addressable(spec) && !buildable(spec) {
        assert(q < 8);
    }
}

/// The bounds of a range, of which the second one is left out.
pub open spec fn half_open(start: Seq<u8>, end: Seq<u8>) -> RangeView {
    RangeView { start, start_incl: true, end, end_incl: false }
}

/// The complaint about a specification that asks for too long keys.
pub open spec fn capacity_message(spec: TableSpec) -> Seq<char> {
    "Key size "@ + decimal(longest_key(spec) as nat) + " exceeds btree capacity "@ + decimal(
        capacity(spec) as nat,
    ) + " (node_size="@ + decimal(spec.node_size as nat) + ", inline_value_size="@ + decimal(
        inline_of(spec) as nat,
    ) + ")"@
}

fn capacity_text(spec: &TableSpec, key: usize, max_key: u32, inline: u32) -> (r: String)
    requires
        key == longest_key(*spec),
        max_key == capacity(*spec),
        inline == inline_of(*spec),
    ensures
        r@ == capacity_message(*spec),
{
    let mut s = String::from_str("Key size ");
    s.append(decimal_text(key as u64).as_str());
    s.append(" exceeds btree capacity ");
    s.append(decimal_text(max_key as u64).as_str());
    s.append(" (node_size=");
    s.append(decimal_text(spec.node_size as u64).as_str());
    s.append(", inline_value_size=");
    s.append(decimal_text(inline as u64).as_str());
    s.append(")");
    s
}

//==============================================================================
// Construction
//==============================================================================

impl TableIndex {
    pub open spec fn wf(&self) -> bool {
        &&& self.btree.wf()
        &&& self.btree.reliable()
        &&& forall|k: int, v: int|
            0 <= k <= self.max_key_size && self.spec.key_spec.allows(k) && 0 <= v
                && self.spec.value_spec.allows(v) ==> #[trigger] self.btree.storable(k, v)
    }

    /// The entries, in key order.
    pub open spec fn contents(&self) -> Seq<KV> {
        self.btree.contents()
    }

    /// The index has no room for more nodes.
    pub open spec fn exhausted(&self) -> bool {
        self.btree.exhausted()
    }

    /// The index itself, whatever it contains.
    pub open spec fn same_table(&self, o: &Self) -> bool {
        &&& self.name == o.name
        &&& self.index_type == o.index_type
        &&& self.spec == o.spec
        &&& self.max_key_size == o.max_key_size
    }

    /// An empty index. The specification is refused where its keys are longer than nodes of the
    /// given size allow.
    pub fn new(name: String, index_type: IndexType, spec: TableSpec) -> (r: Result<
        Self,
        HomeDbError,
    >)
        ensures
            r is Ok == (buildable(spec) && longest_key(spec) <= capacity(spec)),
            r matches Ok(t) ==> {
                &&& t.wf()
                &&& t.contents() == Seq::<KV>::empty()
                &&& t.name@ == name@
                &&& t.index_type == index_type
                &&& t.spec == spec
                &&& t.max_key_size == capacity(spec)
                &&& set_up(spec, name@, t.btree)
            },
            r matches Err(e) ==> refused(spec, e),
    {
        let node_variant: u8 = Self::determine_node_variant(&spec);
        let mut config = BtreeConfig::new(spec.node_size, copy_text(&name));
        config.leaf_node_variant = node_variant;
        config.int_node_variant = node_variant;
        match spec.key_spec.prefix_type {
            PrefixType::Prefixable(Some(prefix_size)) => {
                config.expected_prefix_size = if prefix_size < 0xffff {
                    prefix_size as u16
                } else {
                    0xffff
                };
            },
            _ => {},
        }
        let value_size: usize = match &spec.value_spec {
            ValueSpec::Fixed(n) => *n,
            ValueSpec::Variable(n) => *n,
        };
        config.suggest_inline_value_size(
            if value_size < 0xffff_ffff {
                value_size as u32
            } else {
                0xffff_ffff
            },
        );
        let inline_value_size: u32 = config.inline_value_size;
        let partition_key_size: usize = spec.partition_key_size;
        if node_variant == VAR_VALUE_NODE {
            if let KeyType::Fixed(n) = spec.key_spec.key_type {
                if n <= 0xffff {
                    config.fixed_key_size = Some(n as u32);
                }
            }
        }
        if node_variant == VAR_KEY_NODE && value_size <= inline_value_size as usize {
            config.fixed_value_size = Some(value_size as u32);
        }
        proof {
            lemma_configured(spec, config);
        }
        let max_key_size: u32 = config.max_key_size();
        let has_room: bool = spec.node_size >= 60 && config.has_room();
        let ghost cfg = config;
        let factory = |c: &BtreeConfig| -> (s: MemBtree)
            ensures
                s.node_size() == c.node_size,
                s.reliable(),
                !s.exhausted(),
            { MemBtree::new(c.node_size as usize) };
        let btree = if partition_key_size == 0 {
            match UnshardedBtree::new(config, factory) {
                Ok(b) => AnyIndex::Unsharded(b),
                Err(e) => {
                    return Err(failed_tree(e));
                },
            }
        } else {
            match ShardedBtree::new(config, partition_key_size, factory) {
                Ok(b) => {
                    proof {
                        assert(b.shards@[0].config.named_like(cfg));
                        lemma_configured(spec, b.shards@[0].config);
                    }
                    AnyIndex::Sharded(b)
                },
                Err(e) => {
                    return Err(failed_tree(e));
                },
            }
        };
        let spec_max_key: usize = match &spec.key_spec.key_type {
            KeyType::Fixed(n) => *n,
            KeyType::Variable(n) => *n,
        };
        if spec_max_key > max_key_size as usize {
            return Err(
                HomeDbError::Config(
                    capacity_text(&spec, spec_max_key, max_key_size, inline_value_size),
                ),
            );
        }
        if !has_room {
            return Err(failed_tree(BtreeError::Io(IoErrorKind::InvalidInput)));
        }
        Ok(TableIndex { name, index_type, spec, btree, max_key_size })
    }

    /// The record layout that suits the lengths of keys and values.
    pub fn determine_node_variant(spec: &TableSpec) -> (r: u8)
        ensures
            r == variant_of(*spec),
    {
        match spec.key_spec.prefix_type {
            PrefixType::Prefixable(_) => {
                return PREFIX_NODE;
            },
            PrefixType::Plain => {},
        }
        match (&spec.key_spec.key_type, &spec.value_spec) {
            (KeyType::Fixed(_), ValueSpec::Fixed(_)) => VAR_OBJECT_NODE,
            (KeyType::Variable(_), ValueSpec::Fixed(_)) => VAR_KEY_NODE,
            (KeyType::Fixed(_), ValueSpec::Variable(_)) => VAR_VALUE_NODE,
            (KeyType::Variable(_), ValueSpec::Variable(_)) => VAR_OBJECT_NODE,
        }
    }

    pub fn name(&self) -> (r: &str)
        ensures
            r@ == self.name@,
    {
        self.name.as_str()
    }

    pub fn index_type(&self) -> (r: IndexType)
        ensures
            r == self.index_type,
    {
        self.index_type
    }

    pub fn spec(&self) -> (r: &TableSpec)
        ensures
            *r == self.spec,
    {
        &self.spec
    }
}

//==============================================================================
// Operations
//==============================================================================

impl TableIndex {
    /// What is wrong with the bounds of a range.
    pub open spec fn bounds_ok(&self, start: Seq<u8>, end: Seq<u8>) -> bool {
        self.spec.key_spec.allows(start.len() as int) && self.spec.key_spec.allows(end.len() as int)
    }

    /// Refuses bounds of a length that keys cannot have.
    fn validate_bounds(&self, start_key: &Vec<u8>, end_key: &Vec<u8>) -> (r: Result<
        (),
        HomeDbError,
    >)
        ensures
            r is Ok == self.bounds_ok(start_key@, end_key@),
            r matches Err(e) ==> e == self.bounds_complaint(start_key.len(), end_key.len()),
    {
        match self.spec.key_spec.validate_key(start_key) {
            Err(e) => Err(e),
            Ok(()) => self.spec.key_spec.validate_key(end_key),
        }
    }

    /// What is wrong with the lengths of two bounds; the first one is looked at first.
    pub open spec fn bounds_complaint(&self, start_len: usize, end_len: usize) -> HomeDbError {
        if !self.spec.key_spec.allows(start_len as int) {
            self.spec.key_spec.complaint(start_len)
        } else {
            self.spec.key_spec.complaint(end_len)
        }
    }

    /// Sets the value of a key. A key that is longer than the index takes is refused first, and
    /// then a key or a value that the specification does not allow.
    pub fn put(&mut self, key: Vec<u8>, value: Vec<u8>) -> (r: Result<(), HomeDbError>)
        requires
            old(self).wf(),
        ensures
            final(self).wf(),
            final(self).same_table(old(self)),
            r is Ok ==> {
                &&& key@.len() <= old(self).max_key_size
                &&& old(self).spec.key_spec.allows(key@.len() as int)
                &&& old(self).spec.value_spec.allows(value@.len() as int)
                &&& final(self).contents() == updated::<DbKey>(
                    old(self).contents(),
                    KV { key: key@, val: value@ },
                )
            },
            r matches Err(e) ==> {
                &&& final(self).contents() == old(self).contents()
                &&& if key@.len() > old(self).max_key_size {
                    e == (HomeDbError::KeyTooLarge {
                        size: key.len(),
                        max: old(self).max_key_size as usize,
                    })
                } else if !old(self).spec.key_spec.allows(key@.len() as int) {
                    e == old(self).spec.key_spec.complaint(key.len())
                } else if !old(self).spec.value_spec.allows(value@.len() as int) {
                    e == old(self).spec.value_spec.complaint(value.len())
                } else {
                    of_tree(e) && final(self).exhausted()
                }
            },
    {
        if key.len() > self.max_key_size as usize {
            return Err(
                HomeDbError::KeyTooLarge { size: key.len(), max: self.max_key_size as usize },
            );
        }
        match self.spec.validate(&key, &value) {
            Ok(()) => {},
            Err(e) => {
                return Err(e);
            },
        }
        let db_key = DbKey::new(key, &self.spec.key_spec);
        let db_value = DbValue::new(value, &self.spec.value_spec);
        match self.btree.put(&db_key, &db_value) {
            Ok(()) => Ok(()),
            Err(e) => Err(failed_tree(e)),
        }
    }

    /// The value of a key.
    pub fn get(&self, key: Vec<u8>) -> (r: Result<Option<Vec<u8>>, HomeDbError>)
        requires
            self.wf(),
        ensures
            r is Ok == self.spec.key_spec.allows(key@.len() as int),
            r matches Ok(v) ==> (match v {
                Some(v) => Some(v@),
                None => None,
            }) == lookup(self.contents(), key@),
            r matches Err(e) ==> e == self.spec.key_spec.complaint(key.len()),
    {
        match self.spec.key_spec.validate_key(&key) {
            Ok(()) => {},
            Err(e) => {
                return Err(e);
            },
        }
        let db_key = DbKey::new(key, &self.spec.key_spec);
        match self.btree.get(&db_key) {
            Ok(Some(v)) => Ok(Some(v.into_vec())),
            Ok(None) => Ok(None),
            Err(e) => Err(failed_tree(e)),
        }
    }

    /// Removes a key, and returns the value that it had.
    pub fn remove(&mut self, key: Vec<u8>) -> (r: Result<Option<Vec<u8>>, HomeDbError>)
        requires
            old(self).wf(),
        ensures
            final(self).wf(),
            final(self).same_table(old(self)),
            r matches Ok(v) ==> {
                &&& old(self).spec.key_spec.allows(key@.len() as int)
                &&& final(self).contents() == old(self).contents().filter(not(with_key(key@)))
                &&& (match v {
                    Some(v) => Some(v@),
                    None => None,
                }) == lookup(old(self).contents(), key@)
            },
            r matches Err(e) ==> if old(self).spec.key_spec.allows(key@.len() as int) {
                &&& of_tree(e)
                &&& final(self).exhausted()
                &&& partly_removed(old(self).contents(), with_key(key@), final(self).contents())
            } else {
                &&& e == old(self).spec.key_spec.complaint(key.len())
                &&& final(self).contents() == old(self).contents()
            },
    {
        match self.spec.key_spec.validate_key(&key) {
            Ok(()) => {},
            Err(e) => {
                return Err(e);
            },
        }
        let db_key = DbKey::new(key, &self.spec.key_spec);
        match self.btree.remove(&db_key) {
            Ok(Some(v)) => Ok(Some(v.into_vec())),
            Ok(None) => Ok(None),
            Err(e) => Err(failed_tree(e)),
        }
    }

    /// The first entry whose key does not lie before the given one.
    pub fn seek_gte(&self, key: Vec<u8>) -> (r: Result<Option<(Vec<u8>, Vec<u8>)>, HomeDbError>)
        requires
            self.wf(),
        ensures
            r is Ok == self.spec.key_spec.allows(key@.len() as int),
            r matches Ok(e) ==> byte_pair(e) == pick(
                self.contents(),
                from_key::<DbKey>(key@, true),
            ),
            r matches Err(e) ==> e == self.spec.key_spec.complaint(key.len()),
    {
        match self.spec.key_spec.validate_key(&key) {
            Ok(()) => {},
            Err(e) => {
                return Err(e);
            },
        }
        let db_key = DbKey::new(key, &self.spec.key_spec);
        match self.btree.seek_gte(&db_key) {
            Ok(Some((k, v))) => Ok(Some((k.into_vec(), v.into_vec()))),
            Ok(None) => Ok(None),
            Err(e) => Err(failed_tree(e)),
        }
    }

    /// An iterator over the keys of a range in one order or the other.
    fn range_in_order(&self, start_key: Vec<u8>, end_key: Vec<u8>, batch_size: u32, reverse: bool) -> (r:
        Result<RangeIterator<'_, AnyIndex<MemBtree>>, HomeDbError>)
        requires
            self.wf(),
        ensures
            r is Ok == self.bounds_ok(start_key@, end_key@),
            r matches Ok(it) ==> {
                &&& it.wf()
                &&& *it.index == self.btree
                &&& it.start_key@ == start_key@
                &&& it.end_key@ == end_key@
                &&& it.batch_size == batch_size
                &&& it.reverse == reverse
                &&& it.key_spec == self.spec.key_spec
                &&& it.rest() == if batch_size > 0 {
                    found::<AcceptAll>(
                        self.contents(),
                        half_open(start_key@, end_key@),
                        None,
                        reverse,
                    )
                } else {
                    Seq::empty()
                }
            },
            r matches Err(e) ==> e == self.bounds_complaint(start_key.len(), end_key.len()),
    {
        match self.validate_bounds(&start_key, &end_key) {
            Ok(()) => {},
            Err(e) => {
                return Err(e);
            },
        }
        let start = DbKey::new(copy_vec(&start_key), &self.spec.key_spec);
        let end = DbKey::new(copy_vec(&end_key), &self.spec.key_spec);
        let range = BtreeKeyRange::new(start, true, end, false);
        match self.btree.query(range, batch_size, None, reverse) {
            Ok(handle) => {
                proof {
                    if batch_size == 0 {
                        assert(pairs(handle.spec_results()) + Seq::empty() =~= Seq::<KV>::empty());
                    }
                }
                Ok(
                    RangeIterator::new(
                        &self.btree,
                        handle,
                        start_key,
                        end_key,
                        batch_size,
                        reverse,
                        self.spec.key_spec,
                    ),
                )
            },
            Err(e) => Err(failed_tree(e)),
        }
    }

    /// The entries of a range, in batches. The range leaves out its end.
    pub fn get_range(&self, start_key: Vec<u8>, end_key: Vec<u8>, batch_size: u32) -> (r: Result<
        RangeIterator<'_, AnyIndex<MemBtree>>,
        HomeDbError,
    >)
        requires
            self.wf(),
        ensures
            r is Ok == self.bounds_ok(start_key@, end_key@),
            r matches Ok(it) ==> {
                &&& it.wf()
                &&& *it.index == self.btree
                &&& it.start_key@ == start_key@
                &&& it.end_key@ == end_key@
                &&& it.batch_size == batch_size
                &&& !it.reverse
                &&& it.rest() == if batch_size > 0 {
                    found::<AcceptAll>(
                        self.contents(),
                        half_open(start_key@, end_key@),
                        None,
                        false,
                    )
                } else {
                    Seq::empty()
                }
            },
            r matches Err(e) ==> e == self.bounds_complaint(start_key.len(), end_key.len()),
    {
        self.range_in_order(start_key, end_key, batch_size, false)
    }

    /// The entries of a range in reversed order, in batches. The range leaves out its end.
    pub fn get_range_reverse(&self, start_key: Vec<u8>, end_key: Vec<u8>, batch_size: u32) -> (r:
        Result<RangeIterator<'_, AnyIndex<MemBtree>>, HomeDbError>)
        requires
            self.wf(),
        ensures
            r is Ok == self.bounds_ok(start_key@, end_key@),
            r matches Ok(it) ==> {
                &&& it.wf()
                &&& *it.index == self.btree
                &&& it.start_key@ == start_key@
                &&& it.end_key@ == end_key@
                &&& it.batch_size == batch_size
                &&& it.reverse
                &&& it.rest() == if batch_size > 0 {
                    found::<AcceptAll>(
                        self.contents(),
                        half_open(start_key@, end_key@),
                        None,
                        true,
                    )
                } else {
                    Seq::empty()
                }
            },
            r matches Err(e) ==> e == self.bounds_complaint(start_key.len(), end_key.len()),
    {
        self.range_in_order(start_key, end_key, batch_size, true)
    }

    /// The first entry of a range that leaves out its end.
    pub fn get_any(&self, start_key: Vec<u8>, end_key: Vec<u8>) -> (r: Result<
        Option<(Vec<u8>, Vec<u8>)>,
        HomeDbError,
    >)
        requires
            self.wf(),
        ensures
            r is Ok == self.bounds_ok(start_key@, end_key@),
            r matches Ok(e) ==> byte_pair(e) == pick(
                self.contents(),
                in_range::<DbKey>(half_open(start_key@, end_key@)),
            ),
            r matches Err(e) ==> e == self.bounds_complaint(start_key.len(), end_key.len()),
    {
        match self.validate_bounds(&start_key, &end_key) {
            Ok(()) => {},
            Err(e) => {
                return Err(e);
            },
        }
        let ghost bounds = half_open(start_key@, end_key@);
        let start = DbKey::new(start_key, &self.spec.key_spec);
        let end = DbKey::new(end_key, &self.spec.key_spec);
        let range = BtreeKeyRange::new(start, true, end, false);
        match self.btree.query(range, 1, None::<std::sync::Arc<AcceptAll>>, false) {
            Ok(handle) => {
                let results = handle.results();
                proof {
                    self.btree.lemma_contents_ordered();
                    lemma_first_found(self.contents(), bounds);
                    assert(pairs(results@).len() == results@.len());
                    if results@.len() > 0 {
                        assert((pairs(results@) + self.btree.left(&handle))[0] == pairs(
                            results@,
                        )[0]);
                    } else {
                        assert((pairs(results@) + self.btree.left(&handle)).len() == 0);
                    }
                }
                if results.len() > 0 {
                    let first = &results[0];
                    Ok(Some((copy_vec(first.0.as_bytes()), copy_vec(first.1.as_bytes()))))
                } else {
                    Ok(None)
                }
            },
            Err(e) => Err(failed_tree(e)),
        }
    }

    /// Removes all keys of a range that leaves out its end, and returns how many there were.
    pub fn remove_range(&mut self, start_key: Vec<u8>, end_key: Vec<u8>) -> (r: Result<
        u32,
        HomeDbError,
    >)
        requires
            old(self).wf(),
        ensures
            final(self).wf(),
            final(self).same_table(old(self)),
            r matches Ok(n) ==> {
                let sel = in_range::<DbKey>(half_open(start_key@, end_key@));
                &&& old(self).bounds_ok(start_key@, end_key@)
                &&& final(self).contents() == old(self).contents().filter(not(sel))
                &&& n == capped(old(self).contents().filter(sel).len())
            },
            r matches Err(e) ==> if old(self).bounds_ok(start_key@, end_key@) {
                &&& of_tree(e)
                &&& final(self).exhausted()
                &&& partly_removed(
                    old(self).contents(),
                    in_range::<DbKey>(half_open(start_key@, end_key@)),
                    final(self).contents(),
                )
            } else {
                &&& e == old(self).bounds_complaint(start_key.len(), end_key.len())
                &&& final(self).contents() == old(self).contents()
            },
    {
        match self.validate_bounds(&start_key, &end_key) {
            Ok(()) => {},
            Err(e) => {
                return Err(e);
            },
        }
        let ghost bounds = half_open(start_key@, end_key@);
        let start = DbKey::new(start_key, &self.spec.key_spec);
        let end = DbKey::new(end_key, &self.spec.key_spec);
        let range = BtreeKeyRange::new(start, true, end, false);
        proof {
            assert(victims::<DbKey, DbValue, AcceptAll>(bounds, None) =~= in_range::<DbKey>(
                bounds,
            ));
        }
        match self.btree.remove_range(range, None::<std::sync::Arc<AcceptAll>>) {
            Ok(n) => Ok(n),
            Err(e) => Err(failed_tree(e)),
        }
    }

    /// Removes the first entry of a range that leaves out its end, and returns it.
    pub fn remove_any(&mut self, start_key: Vec<u8>, end_key: Vec<u8>) -> (r: Result<
        Option<(Vec<u8>, Vec<u8>)>,
        HomeDbError,
    >)
        requires
            old(self).wf(),
        ensures
            final(self).wf(),
            final(self).same_table(old(self)),
            r matches Ok(e) ==> {
                &&& old(self).bounds_ok(start_key@, end_key@)
                &&& byte_pair(e) == pick(
                    old(self).contents(),
                    in_range::<DbKey>(half_open(start_key@, end_key@)),
                )
                &&& final(self).contents() == match byte_pair(e) {
                    Some(x) => old(self).contents().filter(not(with_key(x.key))),
                    None => old(self).contents(),
                }
            },
            r matches Err(e) ==> if old(self).bounds_ok(start_key@, end_key@) {
                &&& of_tree(e)
                &&& final(self).exhausted()
                &&& pick(
                    old(self).contents(),
                    in_range::<DbKey>(half_open(start_key@, end_key@)),
                ) matches Some(x) && partly_removed(
                    old(self).contents(),
                    with_key(x.key),
                    final(self).contents(),
                )
            } else {
                &&& e == old(self).bounds_complaint(start_key.len(), end_key.len())
                &&& final(self).contents() == old(self).contents()
            },
    {
        let ghost bounds = half_open(start_key@, end_key@);
        let (k, v) = match self.get_any(start_key, end_key) {
            Ok(Some(e)) => e,
            Ok(None) => {
                return Ok(None);
            },
            Err(e) => {
                return Err(e);
            },
        };
        proof {
            self.btree.lemma_contents_ordered();
            lemma_pick_known::<DbKey>(self.contents(), in_range::<DbKey>(bounds));
            lemma_lookup_some::<DbKey>(self.contents(), KV { key: k@, val: v@ });
        }
        let db_key = DbKey::new(k, &self.spec.key_spec);
        match self.btree.remove(&db_key) {
            Ok(Some(removed)) => Ok(Some((db_key.into_vec(), removed.into_vec()))),
            Ok(None) => Ok(None),
            Err(e) => Err(failed_tree(e)),
        }
    }
}

/// The first result of a query is the first entry of the range.
proof fn lemma_first_found(s: Seq<KV>, range: RangeView)
    requires
        ordered::<DbKey>(s),
    ensures
        pick(s, in_range::<DbKey>(range)) == if found::<AcceptAll>(s, range, None, false).len() > 0 {
            Some(found::<AcceptAll>(s, range, None, false)[0])
        } else {
            None
        },
{
    assert(sought::<AcceptAll>(range, None) =~= in_range::<DbKey>(range));
    lemma_filter_first::<DbKey>(s, in_range::<DbKey>(range));
}

} // verus!
