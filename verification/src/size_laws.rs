//! How large keys, values and nodes may be, and what tables are made of, in numbers.

use vstd::prelude::*;
use crate::any_index::AnyIndex;
use crate::btree_config::BtreeConfig;
use crate::btree_kvs::{BtreeKey, BtreeValue};
use crate::btree_types::{BtreeError, IoErrorKind, MergePolicy};
use crate::db_kv::{DbKey, DbValue};
use crate::put::{kept_as, under, updated};
use crate::record_ops::RecordPolicy;
use crate::schema::{
    tree_failure, HomeDbError, KeySpec, KeyType, PrefixType, TableSpec, ValueSpec,
};
use crate::table::{missing, put_reply, taken_name};
use crate::table_index::{
    buildable, capacity, configured, longest_key, refused, set_up, variant_of, TableIndex,
};
use crate::text::decimal;
use crate::tree_model::{flat, Tree, KV};
use crate::underlying::MemBtree;

verus! {

//==============================================================================
// Configurations
//==============================================================================

/// The limit for values that stay in nodes is the largest of which four fit into a node behind its
/// headers.
pub proof fn law_inline_limit(node_size: int)
    ensures
        node_size >= 60 ==> 60 + 4 * BtreeConfig::inline_limit(node_size) <= node_size < 60 + 4 * (
        BtreeConfig::inline_limit(node_size) + 1),
        node_size < 60 ==> BtreeConfig::inline_limit(node_size) == 0,
{
}

/// A value goes to an overflow record, where eight bytes of the node refer to it, exactly if it is
/// longer than the configured limit; where two entries with values of that limit do not fit into a
/// node, the limit is that of which four values fit.
pub proof fn law_overflow(c: BtreeConfig, len: int)
    requires
        60 <= c.node_size,
        0 <= len,
    ensures
        ({
            let v = if c.inline_value_size < 8 {
                8
            } else {
                c.inline_value_size as int
            };
            if 60 + 2 * (6 + v) <= c.node_size {
                c.overflows(len) == (len > c.inline_value_size)
            } else {
                c.overflows(len) == (60 + 4 * len > c.node_size)
            }
        }),
        c.stored_len(len) == if c.overflows(len) {
            8
        } else {
            len
        },
{
    reveal(BtreeConfig::spec_inline_size);
}

/// The value of a key that has been put is in the entry of the key, unless it is longer than that
/// limit.
pub proof fn law_place_of_value<K: BtreeKey>(c: BtreeConfig, t: Tree, e: KV, i: int)
    requires
        60 <= c.node_size,
        kept_as(c, t, e),
        forall|m: int, n: int|
            0 <= m < n < flat(t).len() ==> K::lt(
                (#[trigger] flat(t)[m]).key,
                (#[trigger] flat(t)[n]).key,
            ),
        0 <= i < flat(t).len(),
        flat(t)[i].key == e.key,
    ensures
        ({
            let v = if c.inline_value_size < 8 {
                8
            } else {
                c.inline_value_size as int
            };
            if 60 + 2 * (6 + v) <= c.node_size {
                flat(t)[i].overflow == (e.val.len() > c.inline_value_size)
            } else {
                flat(t)[i].overflow == (60 + 4 * e.val.len() > c.node_size)
            }
        }),
{
    law_overflow(c, e.val.len() as int);
    K::lemma_irreflexive(e.key);
    let j = choose|j: int|
        0 <= j < flat(t).len() && (#[trigger] flat(t)[j]).key == e.key && flat(t)[j].overflow
            == c.overflows(e.val.len() as int);
    if i < j {
        assert(K::lt(flat(t)[i].key, flat(t)[j].key));
    } else if j < i {
        assert(K::lt(flat(t)[j].key, flat(t)[i].key));
    }
}

/// The longest key is the largest of which two fit into a node, each with a record of six bytes and
/// the longest value that the node stores, which is at least a reference.
pub proof fn law_longest_key(c: BtreeConfig, len: int)
    requires
        60 <= c.node_size,
        c.overflows(len + 1),
        !c.overflows(len),
        0 <= len,
    ensures
        ({
            let v = if len < 8 {
                8
            } else {
                len
            };
            let k = c.spec_max_key_size() as int;
            &&& (c.longest_key() >= 0) == (60 + 2 * (6 + v) <= c.node_size)
            &&& if 60 + 2 * (6 + v) <= c.node_size {
                60 + 2 * (6 + v + k) <= c.node_size < 60 + 2 * (6 + v + k + 1)
            } else {
                k == 0
            }
        }),
{
    reveal(BtreeConfig::longest_key);
    reveal(BtreeConfig::spec_inline_size);
    assert(c.spec_inline_size() == len);
}

/// A tree takes keys that are not too long, and where the records of its nodes leave a length out,
/// keys and values of that length only. In records without a mark for it no value overflows.
pub proof fn law_storable(c: BtreeConfig, k: int, v: int)
    requires
        60 <= c.node_size <= 0xffff,
        0 <= k,
        0 <= v,
    ensures
        c.storable::<DbKey, DbValue>(k, v) == {
            &&& c.longest_key() >= 0 && k <= c.spec_max_key_size()
            &&& c.fixed_key_size matches Some(n) ==> (c.leaf_node_variant == 2
                || c.int_node_variant == 2) ==> k == n
            &&& c.fixed_value_size matches Some(n) ==> c.leaf_node_variant == 1 ==> v == n
                && !c.overflows(v)
        },
{
    reveal(BtreeConfig::longest_key);
    reveal(BtreeConfig::spec_inline_size);
}

/// Nodes have at least room for their headers, and offsets of two bytes.
pub proof fn law_usable<V: BtreeValue>(c: BtreeConfig)
    ensures
        c.usable::<V>() == (60 <= c.node_size && c.node_size < 0x10000 && (
        V::spec_fixed_serialized_size() is None || V::spec_fixed_serialized_size()->0 < 0x8000)),
{
}

/// Which records a variant has.
pub proof fn law_records_of_variant(c: BtreeConfig)
    ensures
        c.spec_leaf_policy() == if c.leaf_node_variant == 1 && c.fixed_value_size is Some {
            RecordPolicy::VarKey { value_size: c.fixed_value_size->0 }
        } else if c.leaf_node_variant == 2 && c.fixed_key_size is Some {
            RecordPolicy::VarValue { key_size: c.fixed_key_size->0 }
        } else {
            RecordPolicy::VarObject { variant: c.leaf_node_variant }
        },
        c.spec_int_policy() == if c.int_node_variant == 1 {
            RecordPolicy::VarKey { value_size: 8 }
        } else if c.int_node_variant == 2 && c.fixed_key_size is Some {
            RecordPolicy::VarValue { key_size: c.fixed_key_size->0 }
        } else {
            RecordPolicy::VarObject { variant: c.int_node_variant }
        },
{
}

//==============================================================================
// Specifications of tables
//==============================================================================

/// A key of fixed length has that length, and one of variable length no more than its limit.
pub proof fn law_key_lengths(spec: KeySpec, len: usize)
    ensures
        spec.key_type matches KeyType::Fixed(n) ==> {
            &&& spec.allows(len as int) == (len == n)
            &&& spec.complaint(len) == (HomeDbError::InvalidKeySize { size: len, expected: n })
        },
        spec.key_type matches KeyType::Variable(n) ==> {
            &&& spec.allows(len as int) == (len <= n)
            &&& spec.complaint(len) == (HomeDbError::KeyTooLarge { size: len, max: n })
        },
{
}

/// A value of fixed length has that length, and one of variable length no more than its limit.
pub proof fn law_value_lengths(spec: ValueSpec, len: usize)
    ensures
        spec matches ValueSpec::Fixed(n) ==> {
            &&& spec.allows(len as int) == (len == n)
            &&& spec.complaint(len) == (HomeDbError::InvalidValueSize { size: len, expected: n })
        },
        spec matches ValueSpec::Variable(n) ==> {
            &&& spec.allows(len as int) == (len <= n)
            &&& spec.complaint(len) == (HomeDbError::ValueTooLarge { size: len, max: n })
        },
{
}

/// The bounds of a range are keys of the table; the start is looked at first.
pub proof fn law_bounds(t: TableIndex, start: Seq<u8>, end: Seq<u8>)
    requires
        start.len() <= usize::MAX,
        end.len() <= usize::MAX,
    ensures
        t.bounds_ok(start, end) == (t.spec.key_spec.allows(start.len() as int)
            && t.spec.key_spec.allows(end.len() as int)),
        !t.spec.key_spec.allows(start.len() as int) ==> t.bounds_complaint(
            start.len() as usize,
            end.len() as usize,
        ) == t.spec.key_spec.complaint(start.len() as usize),
        t.spec.key_spec.allows(start.len() as int) ==> t.bounds_complaint(
            start.len() as usize,
            end.len() as usize,
        ) == t.spec.key_spec.complaint(end.len() as usize),
{
}

/// The nodes of a table have room for two of the longest keys, each with a record of six bytes and
/// the part of its value that stays in the node: all of it, up to a quarter of what nodes have room
/// for, and at least a reference.
pub proof fn law_table_has_room(spec: TableSpec, inline: int)
    requires
        60 <= spec.node_size <= 0xffff,
        ({
            let size = match spec.value_spec {
                ValueSpec::Fixed(n) => n,
                ValueSpec::Variable(n) => n,
            };
            if 60 + 4 * size <= spec.node_size {
                inline == size
            } else {
                60 + 4 * inline <= spec.node_size < 60 + 4 * (inline + 1)
            }
        }),
    ensures
        ({
            let v = if inline < 8 {
                8
            } else {
                inline
            };
            let key = match spec.key_spec.key_type {
                KeyType::Fixed(n) => n,
                KeyType::Variable(n) => n,
            };
            &&& (buildable(spec) && longest_key(spec) <= capacity(spec)) == (60 + 2 * (6 + v + key)
                <= spec.node_size)
            &&& 60 + 2 * (6 + v) <= spec.node_size ==> 60 + 2 * (6 + v + capacity(spec))
                <= spec.node_size < 60 + 2 * (6 + v + capacity(spec) + 1)
        }),
{
}

/// A specification of which the longest keys do not fit is answered with a message that names its
/// numbers, and nodes that hold nothing at all with the failure of the tree.
pub proof fn law_refused_table(spec: TableSpec, inline: int, e: HomeDbError)
    requires
        refused(spec, e),
        ({
            let size = match spec.value_spec {
                ValueSpec::Fixed(n) => n,
                ValueSpec::Variable(n) => n,
            };
            if 60 + 4 * size <= spec.node_size {
                inline == size
            } else {
                60 + 4 * inline <= spec.node_size < 60 + 4 * (inline + 1)
            }
        }),
    ensures
        ({
            let key = match spec.key_spec.key_type {
                KeyType::Fixed(n) => n,
                KeyType::Variable(n) => n,
            };
            60 <= spec.node_size <= 0xffff && key > capacity(spec) ==> (e matches HomeDbError::Config(
                s,
            ) && s@ == "Key size "@ + decimal(key as nat) + " exceeds btree capacity "@ + decimal(
                capacity(spec) as nat,
            ) + " (node_size="@ + decimal(spec.node_size as nat) + ", inline_value_size="@ + decimal(
                inline as nat,
            ) + ")"@)
        }),
        ({
            let key = match spec.key_spec.key_type {
                KeyType::Fixed(n) => n,
                KeyType::Variable(n) => n,
            };
            !(60 <= spec.node_size <= 0xffff && key > capacity(spec)) ==> tree_failure(
                e,
                BtreeError::Io(IoErrorKind::InvalidInput),
            )
        }),
{
}

/// Keys with a prefix have variant four. Of the others, variant one is for fixed values only,
/// variant two for fixed keys only, and variant three for both or neither.
pub proof fn law_variant_of_table(spec: TableSpec)
    ensures
        spec.key_spec.prefix_type is Prefixable ==> variant_of(spec) == 4,
        spec.key_spec.prefix_type is Plain ==> {
            let k = spec.key_spec.key_type is Fixed;
            let v = spec.value_spec is Fixed;
            &&& !k && v ==> variant_of(spec) == 1
            &&& k && !v ==> variant_of(spec) == 2
            &&& k == v ==> variant_of(spec) == 3
        },
{
}

/// Trees of a table have its node size and variant, keep values in their nodes up to a quarter of
/// what these have room for, fill nodes to nine tenths, merge up to three of them, those under four
/// tenths, and do so only where it pays.
pub proof fn law_trees_of_table(spec: TableSpec, c: BtreeConfig)
    requires
        configured(spec, c),
        60 <= spec.node_size <= 0xffff,
    ensures
        c.node_size == spec.node_size,
        c.leaf_node_variant == variant_of(spec),
        c.int_node_variant == variant_of(spec),
        ({
            let size = match spec.value_spec {
                ValueSpec::Fixed(n) => n,
                ValueSpec::Variable(n) => n,
            };
            if 60 + 4 * size <= spec.node_size {
                c.inline_value_size == size
            } else {
                60 + 4 * c.inline_value_size <= spec.node_size < 60 + 4 * (c.inline_value_size + 1)
            }
        }),
        c.ideal_fill_size == spec.node_size / 10 * 9,
        c.suggested_min_size == spec.node_size / 10 * 4,
        c.max_merge_nodes == 3,
        c.merge_policy == MergePolicy::Conservative,
        c.fixed_key_size matches Some(n) ==> spec.key_spec.key_type == KeyType::Fixed(n as usize),
        c.fixed_value_size matches Some(n) ==> spec.value_spec == ValueSpec::Fixed(n as usize)
            && n <= c.inline_value_size,
        variant_of(spec) == 2 && spec.key_spec.key_type->Fixed_0 <= 0xffff
            ==> c.fixed_key_size is Some,
        variant_of(spec) == 1 && 60 + 4 * (spec.value_spec->Fixed_0) <= spec.node_size
            ==> c.fixed_value_size is Some,
        spec.key_spec.prefix_type matches PrefixType::Prefixable(Some(n)) ==> n <= 0xffff
            ==> c.expected_prefix_size == n,
        spec.key_spec.prefix_type is Plain ==> c.expected_prefix_size == 0,
{
}

/// Without a length for partitions a table has one tree, and else sixty-four, and partitions have
/// that length.
pub proof fn law_shards_of_table(spec: TableSpec, name: Seq<char>, i: AnyIndex<MemBtree>)
    requires
        set_up(spec, name, i),
    ensures
        i is Unsharded == (spec.partition_key_size == 0),
        i matches AnyIndex::Unsharded(b) ==> configured(spec, b.btree.config)
            && b.btree.config.btree_name@ == name,
        i matches AnyIndex::Sharded(b) ==> {
            &&& b.partition_key_len == spec.partition_key_size
            &&& b.shards@.len() == 64
            &&& forall|n: int|
                0 <= n < 64 ==> configured(spec, (#[trigger] b.shards@[n]).config)
                    && b.shards@[n].config.btree_name@ == name + "_"@ + decimal(n as nat)
        },
{
}

/// A put into a table succeeds for a key that is not too long for the nodes and keys and values of
/// allowed lengths, unless the storage runs out; otherwise nothing changes, and the first of these
/// that does not hold is named.
pub proof fn law_table_put(
    before: TableIndex,
    key: Vec<u8>,
    value: Vec<u8>,
    r: Result<(), HomeDbError>,
    after: TableIndex,
)
    requires
        put_reply(before, key, value, r, after),
        key@.len() <= usize::MAX,
        value@.len() <= usize::MAX,
    ensures
        r is Err ==> after.contents() == before.contents(),
        key@.len() > before.max_key_size ==> r == Err::<(), HomeDbError>(
            HomeDbError::KeyTooLarge {
                size: key@.len() as usize,
                max: before.max_key_size as usize,
            },
        ),
        key@.len() <= before.max_key_size && !before.spec.key_spec.allows(key@.len() as int) ==> r
            == Err::<(), HomeDbError>(before.spec.key_spec.complaint(key@.len() as usize)),
        key@.len() <= before.max_key_size && before.spec.key_spec.allows(key@.len() as int)
            && !before.spec.value_spec.allows(value@.len() as int) ==> r == Err::<
            (),
            HomeDbError,
        >(before.spec.value_spec.complaint(value@.len() as usize)),
        key@.len() <= before.max_key_size && before.spec.key_spec.allows(key@.len() as int)
            && before.spec.value_spec.allows(value@.len() as int) && !after.exhausted() ==> r is Ok,
        r is Ok ==> after.contents().contains(KV { key: key@, val: value@ }),
{
    if r is Ok {
        let s = before.contents();
        let e = KV { key: key@, val: value@ };
        let u = updated::<DbKey>(s, e);
        let n = s.filter(under::<DbKey>(e.key)).len() as int;
        assert(u[n] == e);
    }
}

//==============================================================================
// Texts
//==============================================================================

/// The number that decimal digits stand for.
pub open spec fn number(s: Seq<char>) -> int
    decreases s.len(),
{
    if s.len() == 0 {
        0
    } else {
        10 * number(s.drop_last()) + (s.last() as int - '0' as int)
    }
}

/// A number is written in decimal digits, without zeros in front.
pub proof fn law_decimal(n: nat)
    ensures
        number(decimal(n)) == n,
        forall|i: int|
            0 <= i < decimal(n).len() ==> '0' <= #[trigger] decimal(n)[i] && decimal(n)[i] <= '9',
        n > 0 ==> decimal(n)[0] != '0',
        decimal(n).len() > 0,
    decreases n,
{
    if n < 10 {
        assert(decimal(n).drop_last() =~= Seq::<char>::empty());
        assert(number(Seq::<char>::empty()) == 0);
        assert(decimal(n).last() as int == 48 + n);
    } else {
        law_decimal(n / 10);
        assert(decimal(n).drop_last() =~= decimal(n / 10));
        assert(decimal(n).last() as int == 48 + n % 10);
    }
}

/// The messages about names of indices name the index and the table.
pub proof fn law_name_messages(table: Seq<char>, index: Seq<char>)
    ensures
        missing(table, index) == "Index '"@ + index + "' not found on table '"@ + table + "'"@,
        taken_name(table, index) == "Index '"@ + index + "' already exists on table '"@ + table
            + "'"@,
{
}

/// The failure of a tree is told in words.
pub proof fn law_failure_texts(e: HomeDbError, cause: BtreeError)
    requires
        tree_failure(e, cause),
    ensures
        e is BtreeError,
        cause == BtreeError::NodeNotFound ==> e->BtreeError_0@ == "NodeNotFound"@,
        cause == BtreeError::Io(IoErrorKind::InvalidInput) ==> e->BtreeError_0@
            == "Io(InvalidInput)"@,
        cause == BtreeError::Io(IoErrorKind::OutOfMemory) ==> e->BtreeError_0@
            == "Io(OutOfMemory)"@,
        cause == BtreeError::Io(IoErrorKind::Other) ==> e->BtreeError_0@ == "Io(Other)"@,
{
}

} // verus!
