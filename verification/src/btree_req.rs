//! Ranges, filters and query requests.

use std::sync::Arc;
use vstd::prelude::*;
use crate::btree_kvs::{BtreeKey, BtreeValue};
use crate::tree_model::KV;

verus! {

//==============================================================================
// Ranges
//==============================================================================

/// A copy of a key.
pub fn copy_key<K: BtreeKey>(k: &K) -> (r: K)
    ensures
        r.bytes() == k.bytes(),
{
    let b = k.serialize();
    proof {
        k.lemma_bytes_valid();
    }
    K::deserialize_from(b.as_slice())
}

/// A copy of a value.
pub fn copy_value<V: BtreeValue>(v: &V) -> (r: V)
    ensures
        r.bytes() == v.bytes(),
{
    let b = v.serialize();
    proof {
        v.lemma_bytes_valid();
    }
    V::deserialize_from(b.as_slice())
}

/// The keys between two keys.
pub struct BtreeKeyRange<K> {
    pub start_key: K,
    pub start_incl: bool,
    pub end_key: K,
    pub end_incl: bool,
}

/// The bounds of a range, serialized.
#[verifier::ext_equal]
pub struct RangeView {
    pub start: Seq<u8>,
    pub start_incl: bool,
    pub end: Seq<u8>,
    pub end_incl: bool,
}

impl RangeView {
    /// Key `k` does not lie before the range.
    pub open spec fn from_start<K: BtreeKey>(self, k: Seq<u8>) -> bool {
        K::lt(self.start, k) || self.start_incl && k == self.start
    }

    /// Key `k` does not lie behind the range.
    pub open spec fn to_end<K: BtreeKey>(self, k: Seq<u8>) -> bool {
        K::lt(k, self.end) || self.end_incl && k == self.end
    }

    /// Key `k` lies in the range.
    pub open spec fn has<K: BtreeKey>(self, k: Seq<u8>) -> bool {
        self.from_start::<K>(k) && self.to_end::<K>(k)
    }
}

impl<K: BtreeKey> View for BtreeKeyRange<K> {
    type V = RangeView;

    open spec fn view(&self) -> RangeView {
        RangeView {
            start: self.start_key.bytes(),
            start_incl: self.start_incl,
            end: self.end_key.bytes(),
            end_incl: self.end_incl,
        }
    }
}

impl<K: BtreeKey> BtreeKeyRange<K> {
    pub fn new(start_key: K, start_incl: bool, end_key: K, end_incl: bool) -> (r: Self)
        ensures
            r@ == (RangeView {
                start: start_key.bytes(),
                start_incl,
                end: end_key.bytes(),
                end_incl,
            }),
            r.start_key == start_key,
            r.end_key == end_key,
    {
        BtreeKeyRange { start_key, start_incl, end_key, end_incl }
    }

    /// A copy of the range.
    pub fn copy(&self) -> (r: Self)
        ensures
            r@ == self@,
    {
        BtreeKeyRange {
            start_key: copy_key(&self.start_key),
            start_incl: self.start_incl,
            end_key: copy_key(&self.end_key),
            end_incl: self.end_incl,
        }
    }

    /// Whether the key does not lie behind the range.
    pub fn is_to_end(&self, k: &K) -> (r: bool)
        ensures
            r == self@.to_end::<K>(k.bytes()),
    {
        proof {
            K::lemma_total(self.end_key.bytes(), k.bytes());
            K::lemma_irreflexive(k.bytes());
        }
        k.is_less(&self.end_key) || self.end_incl && !self.end_key.is_less(k)
    }
}

//==============================================================================
// Filters
//==============================================================================

/// What a filter makes of an entry that a query has come upon.
#[derive(Debug, Clone, Copy, PartialEq, Eq, Structural)]
pub enum GetFilterDecision {
    /// The entry is a result.
    Include,
    /// The entry is passed over.
    Skip,
    /// The key does not decide.
    NeedValue,
}

/// Chooses the entries that a query returns.
pub trait GetFilter<K: BtreeKey, V: BtreeValue> {
    open spec fn spec_always_needs_value(&self) -> bool {
        false
    }

    open spec fn spec_check_key(&self, key: Seq<u8>) -> GetFilterDecision {
        GetFilterDecision::Include
    }

    open spec fn spec_check_kv(&self, key: Seq<u8>, val: Seq<u8>) -> GetFilterDecision {
        GetFilterDecision::Include
    }

    /// Whether keys alone never decide.
    fn always_needs_value(&self) -> (r: bool)
        ensures
            r == self.spec_always_needs_value(),
    ;

    /// Decides by the key.
    fn check_key(&self, key: &K) -> (r: GetFilterDecision)
        ensures
            r == self.spec_check_key(key.bytes()),
    ;

    /// Decides by key and value.
    fn check_kv(&self, key: &K, val: &V) -> (r: GetFilterDecision)
        ensures
            r == self.spec_check_kv(key.bytes(), val.bytes()),
    ;
}

/// Whether the filter, if there is one, lets the entry through.
pub open spec fn includes<K: BtreeKey, V: BtreeValue, F: GetFilter<K, V>>(
    f: Option<&F>,
    e: KV,
) -> bool {
    match f {
        None => true,
        Some(f) => if !f.spec_always_needs_value() && f.spec_check_key(e.key)
            != GetFilterDecision::NeedValue {
            f.spec_check_key(e.key) == GetFilterDecision::Include
        } else {
            f.spec_check_kv(e.key, e.val) != GetFilterDecision::Skip
        },
    }
}

/// What a filter makes of an entry that is about to be removed.
#[derive(Debug, Clone, Copy, PartialEq, Eq, Structural)]
pub enum RemoveFilterDecision {
    /// The entry goes.
    Remove,
    /// The entry stays.
    Skip,
    /// The key does not decide.
    NeedValue,
}

/// Chooses the entries that are removed.
pub trait RemoveFilter<K: BtreeKey, V: BtreeValue> {
    open spec fn spec_always_needs_value(&self) -> bool {
        false
    }

    open spec fn spec_check_key(&self, key: Seq<u8>) -> RemoveFilterDecision {
        RemoveFilterDecision::Remove
    }

    open spec fn spec_check_kv(&self, key: Seq<u8>, val: Seq<u8>) -> RemoveFilterDecision {
        RemoveFilterDecision::Remove
    }

    /// Whether keys alone never decide.
    fn always_needs_value(&self) -> (r: bool)
        ensures
            r == self.spec_always_needs_value(),
    ;

    /// Decides by the key.
    fn check_key(&self, key: &K) -> (r: RemoveFilterDecision)
        ensures
            r == self.spec_check_key(key.bytes()),
    ;

    /// Decides by key and value.
    fn check_kv(&self, key: &K, val: &V) -> (r: RemoveFilterDecision)
        ensures
            r == self.spec_check_kv(key.bytes(), val.bytes()),
    ;
}

/// Whether the filter, if there is one, lets the entry go. A filter that does not decide by
/// key and value keeps the entry.
pub open spec fn removes<K: BtreeKey, V: BtreeValue, F: RemoveFilter<K, V>>(
    f: Option<&F>,
    e: KV,
) -> bool {
    match f {
        None => true,
        Some(f) => if !f.spec_always_needs_value() && f.spec_check_key(e.key)
            != RemoveFilterDecision::NeedValue {
            f.spec_check_key(e.key) == RemoveFilterDecision::Remove
        } else {
            f.spec_check_kv(e.key, e.val) == RemoveFilterDecision::Remove
        },
    }
}

/// Decides whether the value of an existing key may be replaced.
pub trait PutFilter<K: BtreeKey, V: BtreeValue> {
    open spec fn spec_accepts(&self, key: Seq<u8>, existing: Seq<u8>, new: Seq<u8>) -> bool {
        true
    }

    fn accepts(&self, key: &K, existing: &V, new: &V) -> (r: bool)
        ensures
            r == self.spec_accepts(key.bytes(), existing.bytes(), new.bytes()),
    ;
}

/// Whether the filter, if there is one, lets the value of the entry be replaced.
pub open spec fn replaces<K: BtreeKey, V: BtreeValue, F: PutFilter<K, V>>(
    f: Option<&F>,
    e: KV,
    new: Seq<u8>,
) -> bool {
    f matches Some(f) ==> f.spec_accepts(e.key, e.val, new)
}

/// The filter that lets everything through.
#[derive(Debug, Clone, Copy)]
pub struct AcceptAll;

impl<K: BtreeKey, V: BtreeValue> GetFilter<K, V> for AcceptAll {
    open spec fn spec_always_needs_value(&self) -> bool {
        false
    }

    open spec fn spec_check_key(&self, key: Seq<u8>) -> GetFilterDecision {
        GetFilterDecision::Include
    }

    open spec fn spec_check_kv(&self, key: Seq<u8>, val: Seq<u8>) -> GetFilterDecision {
        GetFilterDecision::Include
    }

    fn always_needs_value(&self) -> (r: bool) {
        false
    }

    fn check_key(&self, key: &K) -> (r: GetFilterDecision) {
        GetFilterDecision::Include
    }

    fn check_kv(&self, key: &K, val: &V) -> (r: GetFilterDecision) {
        GetFilterDecision::Include
    }
}

impl<K: BtreeKey, V: BtreeValue> RemoveFilter<K, V> for AcceptAll {
    open spec fn spec_always_needs_value(&self) -> bool {
        false
    }

    open spec fn spec_check_key(&self, key: Seq<u8>) -> RemoveFilterDecision {
        RemoveFilterDecision::Remove
    }

    open spec fn spec_check_kv(&self, key: Seq<u8>, val: Seq<u8>) -> RemoveFilterDecision {
        RemoveFilterDecision::Remove
    }

    fn always_needs_value(&self) -> (r: bool) {
        false
    }

    fn check_key(&self, key: &K) -> (r: RemoveFilterDecision) {
        RemoveFilterDecision::Remove
    }

    fn check_kv(&self, key: &K, val: &V) -> (r: RemoveFilterDecision) {
        RemoveFilterDecision::Remove
    }
}

impl<K: BtreeKey, V: BtreeValue> PutFilter<K, V> for AcceptAll {
    open spec fn spec_accepts(&self, key: Seq<u8>, existing: Seq<u8>, new: Seq<u8>) -> bool {
        true
    }

    fn accepts(&self, key: &K, existing: &V, new: &V) -> (r: bool) {
        true
    }
}

//==============================================================================
// Queries
//==============================================================================

/// The serialized forms of keys and values.
pub open spec fn pairs<K: BtreeKey, V: BtreeValue>(s: Seq<(K, V)>) -> Seq<KV> {
    Seq::new(s.len(), |i: int| KV { key: s[i].0.bytes(), val: s[i].1.bytes() })
}

/// What is left to be answered of a range query.
pub struct BtreeQueryRequest<K, F> {
    pub working_range: BtreeKeyRange<K>,
    pub batch_size: u32,
    pub filter: Option<Arc<F>>,
    pub reverse_order: bool,
    pub sweep_query: bool,
}

/// The filter behind an optional shared pointer.
pub open spec fn shared<'a, F>(f: Option<Arc<F>>) -> Option<&'a F> {
    match f {
        None => None,
        Some(a) => Some(&*a),
    }
}

impl<K: BtreeKey, F> BtreeQueryRequest<K, F> {
    /// Whether the entry is a result.
    pub open spec fn wants<V: BtreeValue>(self, e: KV) -> bool where F: GetFilter<K, V> {
        self.working_range@.has::<K>(e.key) && includes::<K, V, F>(shared(self.filter), e)
    }

    pub open spec fn wanted<V: BtreeValue>(self) -> spec_fn(KV) -> bool where F: GetFilter<K, V> {
        |e: KV| self.wants::<V>(e)
    }

    /// The results among the entries, in the order in which they are returned.
    pub open spec fn scan<V: BtreeValue>(self, s: Seq<KV>) -> Seq<KV> where F: GetFilter<K, V> {
        if self.reverse_order {
            s.filter(self.wanted::<V>()).reverse()
        } else {
            s.filter(self.wanted::<V>())
        }
    }
}

impl<K: BtreeKey, F> BtreeQueryRequest<K, F> {
    pub fn new(
        range: BtreeKeyRange<K>,
        batch_size: u32,
        filter: Option<Arc<F>>,
        reverse_order: bool,
        sweep_query: bool,
    ) -> (r: Self)
        ensures
            r == (BtreeQueryRequest {
                working_range: range,
                batch_size,
                filter,
                reverse_order,
                sweep_query,
            }),
    {
        BtreeQueryRequest { working_range: range, batch_size, filter, reverse_order, sweep_query }
    }

    /// The filter, if there is one.
    pub fn filter(&self) -> (r: Option<&F>)
        ensures
            r == shared(self.filter),
    {
        match &self.filter {
            None => None,
            Some(f) => Some(&**f),
        }
    }

    /// Leaves out everything up to the last result.
    pub fn shift_working_range(&mut self, last_key: K)
        ensures
            final(self).batch_size == old(self).batch_size,
            final(self).filter == old(self).filter,
            final(self).reverse_order == old(self).reverse_order,
            final(self).sweep_query == old(self).sweep_query,
            final(self).working_range@ == if old(self).reverse_order {
                RangeView { end: last_key.bytes(), end_incl: false, ..old(self).working_range@ }
            } else {
                RangeView { start: last_key.bytes(), start_incl: false, ..old(self).working_range@ }
            },
    {
        if self.reverse_order {
            self.working_range.end_key = last_key;
            self.working_range.end_incl = false;
        } else {
            self.working_range.start_key = last_key;
            self.working_range.start_incl = false;
        }
    }

    /// The same query, whatever is left of it.
    pub open spec fn same_query(self, o: Self) -> bool {
        &&& self.batch_size == o.batch_size
        &&& self.filter == o.filter
        &&& self.reverse_order == o.reverse_order
        &&& self.sweep_query == o.sweep_query
    }
}

/// The results of one batch, and what is left of the query.
pub struct QueryResultHandle<K, V, F> {
    pub results: Vec<(K, V)>,
    pub request: BtreeQueryRequest<K, F>,
    pub more: bool,
}

impl<K: BtreeKey, V: BtreeValue, F> QueryResultHandle<K, V, F> {
    pub fn new(results: Vec<(K, V)>, request: BtreeQueryRequest<K, F>, more: bool) -> (r: Self)
        ensures
            r == (QueryResultHandle { results, request, more }),
    {
        QueryResultHandle { results, request, more }
    }

    /// Whether another batch may follow.
    pub fn has_more(&self) -> (r: bool)
        ensures
            r == self.more,
    {
        self.more
    }

    /// What is left of the query.
    pub fn request(self) -> (r: BtreeQueryRequest<K, F>)
        ensures
            r == self.request,
    {
        self.request
    }

    /// The results of the batches that follow.
    pub open spec fn rest(self, s: Seq<KV>) -> Seq<KV> where F: GetFilter<K, V> {
        if self.more {
            self.request.scan::<V>(s)
        } else {
            Seq::empty()
        }
    }

    /// This handle is the answer to a request on the given entries.
    pub open spec fn answers(self, req: BtreeQueryRequest<K, F>, s: Seq<KV>) -> bool where
        F: GetFilter<K, V>,
     {
        &&& self.request.same_query(req)
        &&& self.results@.len() <= req.batch_size
        &&& self.more ==> self.results@.len() == req.batch_size
        &&& req.batch_size == 0 ==> !self.more
        &&& req.batch_size > 0 ==> req.scan::<V>(s) == pairs(self.results@) + self.rest(s)
    }
}

} // verus!
