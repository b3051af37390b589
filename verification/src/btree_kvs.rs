//! Keys and values as the nodes see them: byte strings with an order.

use vstd::prelude::*;
use vstd::bytes::{spec_u64_from_le_bytes, spec_u64_to_le_bytes};

verus! {

/// Identifier of a stored node.
pub type BNodeId = u64;

/// The id that names no node.
pub const EMPTY_BNODEID: u64 = 0xffff_ffff_ffff_ffff;

/// Bytes that an overflow reference takes in a node.
pub const OVERFLOW_REFERENCE_SIZE: u32 = 8;

/// One entry of a node: the stored key bytes, the stored value bytes, and whether the value
/// bytes are a reference to an overflow record.
#[verifier::ext_equal]
pub struct Entry {
    pub key: Seq<u8>,
    pub val: Seq<u8>,
    pub overflow: bool,
}

impl Entry {
    /// Bytes that key and value take together.
    pub open spec fn size(self) -> int {
        (self.key.len() + self.val.len()) as int
    }
}

/// A key of the B-tree. A key is known by its serialized bytes, which a strict total order
/// `lt` ranks.
pub trait BtreeKey: Sized {
    /// The serialized form.
    spec fn bytes(&self) -> Seq<u8>;

    /// Whether the bytes are the serialized form of some key.
    spec fn valid(b: Seq<u8>) -> bool;

    /// The order of keys, on serialized forms.
    spec fn lt(a: Seq<u8>, b: Seq<u8>) -> bool;

    /// The length of every serialized key, where all have the same.
    spec fn spec_fixed_serialized_size() -> Option<u32>;

    proof fn lemma_bytes_valid(&self)
        ensures
            Self::valid(self.bytes()),
    ;

    proof fn lemma_fixed_size(b: Seq<u8>)
        requires
            Self::valid(b),
        ensures
            Self::spec_fixed_serialized_size() matches Some(n) ==> b.len() == n,
    ;

    proof fn lemma_irreflexive(a: Seq<u8>)
        ensures
            !Self::lt(a, a),
    ;

    proof fn lemma_transitive(a: Seq<u8>, b: Seq<u8>, c: Seq<u8>)
        requires
            Self::lt(a, b),
            Self::lt(b, c),
        ensures
            Self::lt(a, c),
    ;

    proof fn lemma_total(a: Seq<u8>, b: Seq<u8>)
        ensures
            a == b || Self::lt(a, b) || Self::lt(b, a),
    ;

    fn fixed_serialized_size() -> (r: Option<u32>)
        ensures
            r == Self::spec_fixed_serialized_size(),
    ;

    fn serialize(&self) -> (r: Vec<u8>)
        ensures
            r@ == self.bytes(),
    ;

    fn deserialize_from(b: &[u8]) -> (r: Self)
        requires
            Self::valid(b@),
        ensures
            r.bytes() == b@,
    ;

    /// Whether this key sorts before `other`.
    fn is_less(&self, other: &Self) -> (r: bool)
        ensures
            r == Self::lt(self.bytes(), other.bytes()),
    ;
}

/// A value of the B-tree, known by its serialized bytes.
pub trait BtreeValue: Sized {
    /// The serialized form.
    spec fn bytes(&self) -> Seq<u8>;

    /// Whether the bytes are the serialized form of some value.
    spec fn valid(b: Seq<u8>) -> bool;

    /// The length of every serialized value, where all have the same.
    spec fn spec_fixed_serialized_size() -> Option<u32>;

    proof fn lemma_bytes_valid(&self)
        ensures
            Self::valid(self.bytes()),
    ;

    proof fn lemma_fixed_size(b: Seq<u8>)
        requires
            Self::valid(b),
        ensures
            Self::spec_fixed_serialized_size() matches Some(n) ==> b.len() == n,
    ;

    fn fixed_serialized_size() -> (r: Option<u32>)
        ensures
            r == Self::spec_fixed_serialized_size(),
    ;

    fn serialize(&self) -> (r: Vec<u8>)
        ensures
            r@ == self.bytes(),
    ;

    fn deserialize_from(b: &[u8]) -> (r: Self)
        requires
            Self::valid(b@),
        ensures
            r.bytes() == b@,
    ;
}

/// Child pointers are the values of interior nodes.
impl BtreeValue for u64 {
    open spec fn bytes(&self) -> Seq<u8> {
        spec_u64_to_le_bytes(*self)
    }

    open spec fn valid(b: Seq<u8>) -> bool {
        b.len() == 8
    }

    open spec fn spec_fixed_serialized_size() -> Option<u32> {
        Some(8u32)
    }

    proof fn lemma_bytes_valid(&self) {
        vstd::bytes::lemma_auto_spec_u64_to_from_le_bytes();
    }

    proof fn lemma_fixed_size(b: Seq<u8>) {
    }

    fn fixed_serialized_size() -> (r: Option<u32>) {
        Some(8)
    }

    fn serialize(&self) -> (r: Vec<u8>) {
        vstd::bytes::u64_to_le_bytes(*self)
    }

    fn deserialize_from(b: &[u8]) -> (r: Self) {
        proof {
            vstd::bytes::lemma_auto_spec_u64_to_from_le_bytes();
        }
        vstd::bytes::u64_from_le_bytes(b)
    }
}

/// The node id that eight stored bytes name.
pub open spec fn id_of(b: Seq<u8>) -> u64 {
    spec_u64_from_le_bytes(b)
}

/// The eight bytes that store a node id.
pub open spec fn id_bytes(id: u64) -> Seq<u8> {
    spec_u64_to_le_bytes(id)
}

/// Storing an id and reading it back are inverse to each other.
pub broadcast proof fn lemma_id_bytes(id: u64)
    ensures
        (#[trigger] id_bytes(id)).len() == 8,
        id_of(id_bytes(id)) == id,
{
    vstd::bytes::lemma_auto_spec_u64_to_from_le_bytes();
}

/// Eight bytes are determined by the id that they name.
pub proof fn lemma_id_of(b: Seq<u8>)
    requires
        b.len() == 8,
    ensures
        id_bytes(id_of(b)) == b,
{
    vstd::bytes::lemma_auto_spec_u64_to_from_le_bytes();
}

/// A stored value: the value itself, or a reference to the overflow record that holds it.
pub enum ValueOrOverflow<V> {
    Inline(V),
    Overflow(BNodeId),
}

impl<V: BtreeValue> ValueOrOverflow<V> {
    /// The bytes that a node stores.
    pub open spec fn stored(&self) -> Seq<u8> {
        match self {
            ValueOrOverflow::Inline(v) => v.bytes(),
            ValueOrOverflow::Overflow(id) => id_bytes(*id),
        }
    }

    pub open spec fn spec_is_overflow(&self) -> bool {
        self is Overflow
    }

    /// Whether stored bytes can be read back as a value or a reference.
    pub open spec fn readable(val: Seq<u8>, overflow: bool) -> bool {
        if overflow {
            val.len() == 8
        } else {
            V::valid(val)
        }
    }

    pub fn is_overflow(&self) -> (r: bool)
        ensures
            r == self.spec_is_overflow(),
    {
        matches!(self, ValueOrOverflow::Overflow(_))
    }

    /// The bytes that a node stores.
    pub fn serialize(&self) -> (r: Vec<u8>)
        ensures
            r@ == self.stored(),
    {
        match self {
            ValueOrOverflow::Inline(v) => v.serialize(),
            ValueOrOverflow::Overflow(id) => vstd::bytes::u64_to_le_bytes(*id),
        }
    }

    /// Reads back what `serialize` wrote.
    pub fn deserialize_from(b: &[u8], overflow: bool) -> (r: Self)
        requires
            Self::readable(b@, overflow),
        ensures
            r.stored() == b@,
            r.spec_is_overflow() == overflow,
    {
        if overflow {
            proof {
                lemma_id_of(b@);
            }
            ValueOrOverflow::Overflow(vstd::bytes::u64_from_le_bytes(b))
        } else {
            ValueOrOverflow::Inline(V::deserialize_from(b))
        }
    }

    /// The node entry that a key and this value make.
    pub open spec fn entry(&self, key: Seq<u8>) -> Entry {
        Entry { key, val: self.stored(), overflow: self.spec_is_overflow() }
    }
}

} // verus!
