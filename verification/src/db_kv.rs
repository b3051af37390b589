//! Byte strings as keys and values.

use vstd::prelude::*;
use crate::btree_kvs::{BtreeKey, BtreeValue};
use crate::bytes::slice_to_bytes;
use crate::schema::{KeySpec, ValueSpec};

verus! {

/// The lexicographic order of byte strings.
pub open spec fn lex_lt(a: Seq<u8>, b: Seq<u8>) -> bool
    decreases a.len(),
{
    if b.len() == 0 {
        false
    } else if a.len() == 0 {
        true
    } else if a[0] != b[0] {
        a[0] < b[0]
    } else {
        lex_lt(a.skip(1), b.skip(1))
    }
}

pub proof fn lemma_lex_irreflexive(a: Seq<u8>)
    ensures
        !lex_lt(a, a),
    decreases a.len(),
{
    if a.len() > 0 {
        lemma_lex_irreflexive(a.skip(1));
    }
}

/// Nothing sorts before the empty byte string.
pub proof fn lemma_lex_empty(a: Seq<u8>)
    ensures
        !lex_lt(a, Seq::empty()),
{
}

pub proof fn lemma_lex_transitive(a: Seq<u8>, b: Seq<u8>, c: Seq<u8>)
    requires
        lex_lt(a, b),
        lex_lt(b, c),
    ensures
        lex_lt(a, c),
    decreases a.len(),
{
    if a.len() > 0 && a[0] == b[0] && b[0] == c[0] {
        lemma_lex_transitive(a.skip(1), b.skip(1), c.skip(1));
    }
}

pub proof fn lemma_lex_total(a: Seq<u8>, b: Seq<u8>)
    ensures
        a == b || lex_lt(a, b) || lex_lt(b, a),
    decreases a.len(),
{
    if a.len() > 0 && b.len() > 0 && a[0] == b[0] {
        lemma_lex_total(a.skip(1), b.skip(1));
        if a.skip(1) == b.skip(1) {
            assert(a =~= seq![a[0]] + a.skip(1));
            assert(b =~= seq![b[0]] + b.skip(1));
        }
    } else if a.len() == 0 && b.len() == 0 {
        assert(a =~= b);
    }
}

/// A common prefix does not matter for the order.
pub proof fn lemma_lex_prefix(a: Seq<u8>, b: Seq<u8>, i: int)
    requires
        0 <= i <= a.len(),
        i <= b.len(),
        a.take(i) == b.take(i),
    ensures
        lex_lt(a, b) == lex_lt(a.skip(i), b.skip(i)),
    decreases i,
{
    if i == 0 {
        assert(a.skip(0) =~= a);
        assert(b.skip(0) =~= b);
    } else {
        assert(a[0] == a.take(i)[0]);
        assert(b[0] == b.take(i)[0]);
        assert(a.skip(1).take(i - 1) =~= a.take(i).skip(1));
        assert(b.skip(1).take(i - 1) =~= b.take(i).skip(1));
        lemma_lex_prefix(a.skip(1), b.skip(1), i - 1);
        assert(a.skip(1).skip(i - 1) =~= a.skip(i));
        assert(b.skip(1).skip(i - 1) =~= b.skip(i));
    }
}

/// Whether the first byte string sorts before the second.
pub fn bytes_less(a: &Vec<u8>, b: &Vec<u8>) -> (r: bool)
    ensures
        r == lex_lt(a@, b@),
{
    let mut i: usize = 0;
    proof {
        assert(a@.take(0) =~= b@.take(0));
    }
    while i < a.len() && i < b.len() && a[i] == b[i]
        invariant
            i <= a.len(),
            i <= b.len(),
            a@.take(i as int) == b@.take(i as int),
        decreases a.len() - i,
    {
        proof {
            assert(a@.take(i + 1) =~= a@.take(i as int).push(a@[i as int]));
            assert(b@.take(i + 1) =~= b@.take(i as int).push(b@[i as int]));
        }
        i = i + 1;
    }
    proof {
        lemma_lex_prefix(a@, b@, i as int);
    }
    if i >= b.len() {
        false
    } else if i >= a.len() {
        true
    } else {
        a[i] < b[i]
    }
}

/// A key of a table.
#[derive(Debug)]
pub struct DbKey {
    bytes: Vec<u8>,
}

/// A value of a table.
#[derive(Debug)]
pub struct DbValue {
    bytes: Vec<u8>,
}

impl View for DbKey {
    type V = Seq<u8>;

    closed spec fn view(&self) -> Seq<u8> {
        self.bytes@
    }
}

impl View for DbValue {
    type V = Seq<u8>;

    closed spec fn view(&self) -> Seq<u8> {
        self.bytes@
    }
}

impl DbKey {
    /// A key for tables with the given specification. The bytes are kept whole, whatever prefix
    /// keys are expected to share.
    pub fn new(bytes: Vec<u8>, _spec: &KeySpec) -> (r: Self)
        ensures
            r@ == bytes@,
    {
        DbKey { bytes }
    }

    /// A key of the given bytes.
    pub fn from_bytes(bytes: Vec<u8>) -> (r: Self)
        ensures
            r@ == bytes@,
    {
        DbKey { bytes }
    }

    pub fn as_bytes(&self) -> (r: &Vec<u8>)
        ensures
            r@ == self@,
    {
        &self.bytes
    }

    pub fn into_vec(self) -> (r: Vec<u8>)
        ensures
            r@ == self@,
    {
        self.bytes
    }
}

impl DbValue {
    /// A value of the given bytes.
    pub fn from_bytes(bytes: Vec<u8>) -> (r: Self)
        ensures
            r@ == bytes@,
    {
        DbValue { bytes }
    }

    /// A value for tables with the given specification.
    pub fn new(bytes: Vec<u8>, _spec: &ValueSpec) -> (r: Self)
        ensures
            r@ == bytes@,
    {
        DbValue { bytes }
    }

    pub fn as_bytes(&self) -> (r: &Vec<u8>)
        ensures
            r@ == self@,
    {
        &self.bytes
    }

    pub fn into_vec(self) -> (r: Vec<u8>)
        ensures
            r@ == self@,
    {
        self.bytes
    }
}

impl BtreeKey for DbKey {
    open spec fn bytes(&self) -> Seq<u8> {
        self@
    }

    open spec fn valid(b: Seq<u8>) -> bool {
        true
    }

    open spec fn lt(a: Seq<u8>, b: Seq<u8>) -> bool {
        lex_lt(a, b)
    }

    open spec fn spec_fixed_serialized_size() -> Option<u32> {
        None
    }

    proof fn lemma_bytes_valid(&self) {
    }

    proof fn lemma_fixed_size(b: Seq<u8>) {
    }

    proof fn lemma_irreflexive(a: Seq<u8>) {
        lemma_lex_irreflexive(a);
    }

    proof fn lemma_transitive(a: Seq<u8>, b: Seq<u8>, c: Seq<u8>) {
        lemma_lex_transitive(a, b, c);
    }

    proof fn lemma_total(a: Seq<u8>, b: Seq<u8>) {
        lemma_lex_total(a, b);
    }

    fn fixed_serialized_size() -> (r: Option<u32>) {
        None
    }

    fn serialize(&self) -> (r: Vec<u8>) {
        slice_to_bytes(self.bytes.as_slice())
    }

    fn deserialize_from(b: &[u8]) -> (r: Self) {
        DbKey { bytes: slice_to_bytes(b) }
    }

    fn is_less(&self, other: &Self) -> (r: bool) {
        bytes_less(&self.bytes, &other.bytes)
    }
}

impl BtreeValue for DbValue {
    open spec fn bytes(&self) -> Seq<u8> {
        self@
    }

    open spec fn valid(b: Seq<u8>) -> bool {
        true
    }

    open spec fn spec_fixed_serialized_size() -> Option<u32> {
        None
    }

    proof fn lemma_bytes_valid(&self) {
    }

    proof fn lemma_fixed_size(b: Seq<u8>) {
    }

    fn fixed_serialized_size() -> (r: Option<u32>) {
        None
    }

    fn serialize(&self) -> (r: Vec<u8>) {
        slice_to_bytes(self.bytes.as_slice())
    }

    fn deserialize_from(b: &[u8]) -> (r: Self) {
        DbValue { bytes: slice_to_bytes(b) }
    }
}

} // verus!
