//! What indices have in common, whether they are kept in one tree or in several.

use std::sync::Arc;
use vstd::prelude::*;
use crate::btree_req::{
    includes, pairs, shared, BtreeKeyRange, BtreeQueryRequest, GetFilter, PutFilter, RangeView,
    RemoveFilter,
};
use crate::btree_types::{BtreeError, IoErrorKind};
use crate::contents::{from_key, lookup, not, ordered, pick, with_key};
use crate::db_kv::{DbKey, DbValue};
use crate::put::{put_over_all, range_partly, updated};
use crate::query::{opt_pair, opt_val};
use crate::remove::{capped, partly_removed, victims};
use crate::sharded_btree::ShardedQueryHandle;
use crate::tree_model::KV;
use crate::unsharded_btree::SingleQueryHandle;

verus! {

//==============================================================================
// Query handles
//==============================================================================

/// A query handle of any index.
pub enum AnyQueryHandle<F> {
    Single(SingleQueryHandle<F>),
    Sharded(ShardedQueryHandle<F>),
}

/// The results of one batch, and what is needed to go on.
pub trait IndexQueryHandle<F>: Sized {
    spec fn spec_results(&self) -> Seq<(DbKey, DbValue)>;

    spec fn spec_has_more(&self) -> bool;

    spec fn spec_into_any(self) -> AnyQueryHandle<F>;

    /// The results of the batch.
    fn results(&self) -> (r: &Vec<(DbKey, DbValue)>)
        ensures
            r@ == self.spec_results(),
    ;

    /// Whether another batch may follow.
    fn has_more(&self) -> (r: bool)
        ensures
            r == self.spec_has_more(),
    ;

    /// The handle as one of any index.
    fn into_any_send(self) -> (r: AnyQueryHandle<F>)
        ensures
            r == self.spec_into_any(),
    ;
}

/// The handle as one of any index, from which the index takes back its own kind.
pub fn index_query_handle_into_any<F, H: IndexQueryHandle<F>>(me: H) -> (r: AnyQueryHandle<F>)
    ensures
        r == me.spec_into_any(),
{
    me.into_any_send()
}

impl<F> IndexQueryHandle<F> for AnyQueryHandle<F> {
    open spec fn spec_results(&self) -> Seq<(DbKey, DbValue)> {
        match self {
            AnyQueryHandle::Single(h) => h.spec_results(),
            AnyQueryHandle::Sharded(h) => h.spec_results(),
        }
    }

    open spec fn spec_has_more(&self) -> bool {
        match self {
            AnyQueryHandle::Single(h) => h.spec_has_more(),
            AnyQueryHandle::Sharded(h) => h.spec_has_more(),
        }
    }

    open spec fn spec_into_any(self) -> AnyQueryHandle<F> {
        self
    }

    fn results(&self) -> (r: &Vec<(DbKey, DbValue)>) {
        match self {
            AnyQueryHandle::Single(h) => h.results(),
            AnyQueryHandle::Sharded(h) => h.results(),
        }
    }

    fn has_more(&self) -> (r: bool) {
        match self {
            AnyQueryHandle::Single(h) => h.has_more(),
            AnyQueryHandle::Sharded(h) => h.has_more(),
        }
    }

    fn into_any_send(self) -> (r: AnyQueryHandle<F>) {
        self
    }
}

//==============================================================================
// Queries
//==============================================================================

/// The entries that a query is after.
pub open spec fn sought<F: GetFilter<DbKey, DbValue>>(
    range: RangeView,
    filter: Option<&F>,
) -> spec_fn(KV) -> bool {
    |e: KV| range.has::<DbKey>(e.key) && includes::<DbKey, DbValue, F>(filter, e)
}

/// The entries with a property, in the order in which a query returns them.
pub open spec fn in_order(s: Seq<KV>, sel: spec_fn(KV) -> bool, reverse: bool) -> Seq<KV> {
    if reverse {
        s.filter(sel).reverse()
    } else {
        s.filter(sel)
    }
}

/// What a query returns, in all its batches.
pub open spec fn found<F: GetFilter<DbKey, DbValue>>(
    s: Seq<KV>,
    range: RangeView,
    filter: Option<&F>,
    reverse: bool,
) -> Seq<KV> {
    in_order(s, sought::<F>(range, filter), reverse)
}

pub proof fn lemma_scan<F: GetFilter<DbKey, DbValue>>(req: BtreeQueryRequest<DbKey, F>, s: Seq<KV>)
    ensures
        req.scan::<DbValue>(s) == found::<F>(
            s,
            req.working_range@,
            shared(req.filter),
            req.reverse_order,
        ),
{
    assert(req.wanted::<DbValue>() =~= sought::<F>(req.working_range@, shared(req.filter)));
}

//==============================================================================
// Indices
//==============================================================================

/// What an index stands for.
pub trait IndexModel: Sized {
    spec fn wf(&self) -> bool;

    /// The entries, in key order.
    spec fn contents(&self) -> Seq<KV>;

    /// The storage does not fail.
    spec fn reliable(&self) -> bool;

    /// The storage has no room for more nodes.
    spec fn exhausted(&self) -> bool;

    /// Keys and values of these lengths can be stored.
    spec fn storable(&self, key_len: int, val_len: int) -> bool;
}

/// Two states of one index.
pub open spec fn same_index<I: IndexModel>(a: &I, b: &I) -> bool {
    &&& a.reliable() == b.reliable()
    &&& a.exhausted() ==> b.exhausted()
    &&& forall|k: int, v: int| #[trigger] b.storable(k, v) == a.storable(k, v)
}

pub proof fn lemma_same_self<I: IndexModel>(a: &I)
    ensures
        same_index(a, a),
{
}

pub proof fn lemma_same_trans<I: IndexModel>(a: &I, b: &I, c: &I)
    requires
        same_index(a, b),
        same_index(b, c),
    ensures
        same_index(a, c),
{
    assert forall|k: int, v: int| #[trigger] c.storable(k, v) == a.storable(k, v) by {
        assert(b.storable(k, v) == a.storable(k, v));
    }
}

/// An ordered map from keys to values.
pub trait BtreeIndex: IndexModel {
    proof fn lemma_contents_ordered(&self)
        requires
            self.wf(),
        ensures
            ordered::<DbKey>(self.contents()),
    ;

    /// Sets the value of a key.
    fn put(&mut self, key: &DbKey, value: &DbValue) -> (r: Result<(), BtreeError>)
        requires
            old(self).wf(),
        ensures
            same_index(old(self), final(self)),
            r is Ok ==> final(self).wf() && final(self).contents() == updated::<DbKey>(
                old(self).contents(),
                KV { key: key@, val: value@ },
            ),
            !old(self).storable(key@.len() as int, value@.len() as int) ==> r == Err::<
                (),
                BtreeError,
            >(BtreeError::Io(IoErrorKind::InvalidInput)) && final(self).wf()
                && final(self).contents() == old(self).contents(),
            r is Err && old(self).reliable() ==> {
                &&& final(self).wf()
                &&& final(self).contents() == old(self).contents()
                &&& old(self).storable(key@.len() as int, value@.len() as int)
                    ==> final(self).exhausted()
            },
    ;

    /// Sets the value of all keys of a range that the filter, if there is one, lets through.
    fn put_range<F: PutFilter<DbKey, DbValue>>(
        &mut self,
        range: BtreeKeyRange<DbKey>,
        value: &DbValue,
        filter: Option<Arc<F>>,
    ) -> (r: Result<(), BtreeError>)
        requires
            old(self).wf(),
        ensures
            same_index(old(self), final(self)),
            r is Ok ==> final(self).wf() && final(self).contents() == put_over_all::<
                DbKey,
                DbValue,
                F,
            >(old(self).contents(), range@, value@, shared(filter)),
            r is Err && old(self).reliable() ==> {
                &&& final(self).wf()
                &&& range_partly::<DbKey, DbValue, F>(
                    old(self).contents(),
                    range@,
                    value@,
                    shared(filter),
                    final(self).contents(),
                )
                &&& final(self).exhausted() || exists|i: int|
                    0 <= i < old(self).contents().len() && range@.has::<DbKey>(
                        (#[trigger] old(self).contents()[i]).key,
                    ) && !old(self).storable(
                        old(self).contents()[i].key.len() as int,
                        value@.len() as int,
                    )
            },
    ;

    /// Removes a key, and returns the value that it had.
    fn remove(&mut self, key: &DbKey) -> (r: Result<Option<DbValue>, BtreeError>)
        requires
            old(self).wf(),
        ensures
            same_index(old(self), final(self)),
            r matches Ok(v) ==> {
                &&& final(self).wf()
                &&& final(self).contents() == old(self).contents().filter(not(with_key(key@)))
                &&& opt_val(v) == lookup(old(self).contents(), key@)
            },
            r is Err && old(self).reliable() ==> {
                &&& final(self).exhausted()
                &&& final(self).wf()
                &&& partly_removed(old(self).contents(), with_key(key@), final(self).contents())
            },
    ;

    /// Removes all keys of a range that the filter, if there is one, lets go, and returns how many
    /// there were.
    fn remove_range<F: RemoveFilter<DbKey, DbValue>>(
        &mut self,
        range: BtreeKeyRange<DbKey>,
        filter: Option<Arc<F>>,
    ) -> (r: Result<u32, BtreeError>)
        requires
            old(self).wf(),
        ensures
            same_index(old(self), final(self)),
            r matches Ok(n) ==> {
                let sel = victims::<DbKey, DbValue, F>(range@, shared(filter));
                &&& final(self).wf()
                &&& final(self).contents() == old(self).contents().filter(not(sel))
                &&& n == capped(old(self).contents().filter(sel).len())
            },
            r is Err && old(self).reliable() ==> {
                &&& final(self).exhausted()
                &&& final(self).wf()
                &&& partly_removed(
                    old(self).contents(),
                    victims::<DbKey, DbValue, F>(range@, shared(filter)),
                    final(self).contents(),
                )
            },
    ;

    /// The value of a key.
    fn get(&self, key: &DbKey) -> (r: Result<Option<DbValue>, BtreeError>)
        requires
            self.wf(),
        ensures
            r matches Ok(v) ==> opt_val(v) == lookup(self.contents(), key@),
            self.reliable() ==> r is Ok,
    ;

    /// The first entry whose key does not lie before the given one.
    fn seek_gte(&self, key: &DbKey) -> (r: Result<Option<(DbKey, DbValue)>, BtreeError>)
        requires
            self.wf(),
        ensures
            r matches Ok(e) ==> opt_pair(e) == pick(
                self.contents(),
                from_key::<DbKey>(key@, true),
            ),
            self.reliable() ==> r is Ok,
    ;
}

/// Range queries, with filters of one type.
pub trait IndexQueries<F: GetFilter<DbKey, DbValue>>: BtreeIndex {
    /// The handle is of the kind that this index gives out.
    spec fn own(&self, h: &AnyQueryHandle<F>) -> bool;

    /// The largest number of results of a batch.
    spec fn limit(&self, h: &AnyQueryHandle<F>) -> int;

    /// The number of results that the next batch takes at most from where the handle stands,
    /// before it goes on elsewhere.
    spec fn share(&self, h: &AnyQueryHandle<F>) -> int;

    /// The handle is one that the index can go on with.
    spec fn fits(&self, h: &AnyQueryHandle<F>) -> bool;

    /// The results of the batches that follow.
    spec fn left(&self, h: &AnyQueryHandle<F>) -> Seq<KV>;

    /// The first batch of the entries of a range that the filter, if there is one, lets through.
    fn query(
        &self,
        range: BtreeKeyRange<DbKey>,
        batch_size: u32,
        filter: Option<Arc<F>>,
        reverse: bool,
    ) -> (r: Result<AnyQueryHandle<F>, BtreeError>)
        requires
            self.wf(),
        ensures
            r matches Ok(h) ==> {
                &&& self.own(&h)
                &&& self.fits(&h)
                &&& self.limit(&h) == batch_size
                &&& h.spec_results().len() <= batch_size
                &&& batch_size > 0 && h.spec_has_more() ==> h.spec_results().len() == batch_size
                &&& !h.spec_has_more() ==> self.left(&h) == Seq::<KV>::empty()
                &&& batch_size > 0 ==> found::<F>(self.contents(), range@, shared(filter), reverse)
                    == pairs(h.spec_results()) + self.left(&h)
            },
            self.reliable() ==> r is Ok,
    ;

    /// The next batch of a query. The handle of another kind of index is refused.
    fn query_next_batch<H: IndexQueryHandle<F>>(&self, handle: H) -> (r: Result<
        AnyQueryHandle<F>,
        BtreeError,
    >)
        requires
            self.wf(),
            self.own(&handle.spec_into_any()) ==> self.fits(&handle.spec_into_any()),
        ensures
            r matches Ok(h) ==> {
                &&& self.own(&h)
                &&& self.fits(&h)
                &&& self.limit(&h) == self.limit(&handle.spec_into_any())
                &&& h.spec_results().len() <= self.limit(&h)
                &&& self.limit(&h) > 0 && h.spec_has_more() ==> h.spec_results().len() > 0 && (
                h.spec_results().len() == self.limit(&h) || h.spec_results().len() == self.share(
                    &handle.spec_into_any(),
                ))
                &&& !h.spec_has_more() ==> self.left(&h) == Seq::<KV>::empty()
                &&& self.left(&handle.spec_into_any()) == pairs(h.spec_results()) + self.left(&h)
            },
            !self.own(&handle.spec_into_any()) ==> r is Err && r->Err_0 == BtreeError::Io(
                IoErrorKind::Other,
            ),
            self.own(&handle.spec_into_any()) && self.reliable() ==> r is Ok,
    ;
}

} // verus!
