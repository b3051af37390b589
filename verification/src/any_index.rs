//! An index of either kind.

use std::sync::Arc;
use vstd::prelude::*;
use crate::btree_index::{AnyQueryHandle, BtreeIndex, IndexModel, IndexQueries, IndexQueryHandle};
use crate::btree_req::{BtreeKeyRange, GetFilter, PutFilter, RemoveFilter};
use crate::btree_types::BtreeError;
use crate::db_kv::{DbKey, DbValue};
use crate::sharded_btree::ShardedBtree;
use crate::tree_model::KV;
use crate::underlying::UnderlyingBtree;
use crate::unsharded_btree::UnshardedBtree;

verus! {

/// An index of either kind.
pub enum AnyIndex<S> {
    Unsharded(UnshardedBtree<S>),
    Sharded(ShardedBtree<S>),
}

impl<S: UnderlyingBtree> IndexModel for AnyIndex<S> {
    open spec fn wf(&self) -> bool {
        match self {
            AnyIndex::Unsharded(i) => i.wf(),
            AnyIndex::Sharded(i) => i.wf(),
        }
    }

    open spec fn contents(&self) -> Seq<KV> {
        match self {
            AnyIndex::Unsharded(i) => i.contents(),
            AnyIndex::Sharded(i) => i.contents(),
        }
    }

    open spec fn reliable(&self) -> bool {
        match self {
            AnyIndex::Unsharded(i) => i.reliable(),
            AnyIndex::Sharded(i) => i.reliable(),
        }
    }

    open spec fn exhausted(&self) -> bool {
        match self {
            AnyIndex::Unsharded(i) => i.exhausted(),
            AnyIndex::Sharded(i) => i.exhausted(),
        }
    }

    open spec fn storable(&self, key_len: int, val_len: int) -> bool {
        match self {
            AnyIndex::Unsharded(i) => i.storable(key_len, val_len),
            AnyIndex::Sharded(i) => i.storable(key_len, val_len),
        }
    }
}

impl<S: UnderlyingBtree> BtreeIndex for AnyIndex<S> {
    proof fn lemma_contents_ordered(&self) {
        match self {
            AnyIndex::Unsharded(i) => i.lemma_contents_ordered(),
            AnyIndex::Sharded(i) => i.lemma_contents_ordered(),
        }
    }

    fn put(&mut self, key: &DbKey, value: &DbValue) -> (r: Result<(), BtreeError>) {
        match self {
            AnyIndex::Unsharded(i) => i.put(key, value),
            AnyIndex::Sharded(i) => i.put(key, value),
        }
    }

    fn put_range<F: PutFilter<DbKey, DbValue>>(
        &mut self,
        range: BtreeKeyRange<DbKey>,
        value: &DbValue,
        filter: Option<Arc<F>>,
    ) -> (r: Result<(), BtreeError>) {
        match self {
            AnyIndex::Unsharded(i) => i.put_range(range, value, filter),
            AnyIndex::Sharded(i) => i.put_range(range, value, filter),
        }
    }

    fn remove(&mut self, key: &DbKey) -> (r: Result<Option<DbValue>, BtreeError>) {
        match self {
            AnyIndex::Unsharded(i) => i.remove(key),
            AnyIndex::Sharded(i) => i.remove(key),
        }
    }

    fn remove_range<F: RemoveFilter<DbKey, DbValue>>(
        &mut self,
        range: BtreeKeyRange<DbKey>,
        filter: Option<Arc<F>>,
    ) -> (r: Result<u32, BtreeError>) {
        match self {
            AnyIndex::Unsharded(i) => i.remove_range(range, filter),
            AnyIndex::Sharded(i) => i.remove_range(range, filter),
        }
    }

    fn get(&self, key: &DbKey) -> (r: Result<Option<DbValue>, BtreeError>) {
        match self {
            AnyIndex::Unsharded(i) => i.get(key),
            AnyIndex::Sharded(i) => i.get(key),
        }
    }

    fn seek_gte(&self, key: &DbKey) -> (r: Result<Option<(DbKey, DbValue)>, BtreeError>) {
        match self {
            AnyIndex::Unsharded(i) => i.seek_gte(key),
            AnyIndex::Sharded(i) => i.seek_gte(key),
        }
    }
}

impl<S: UnderlyingBtree, F: GetFilter<DbKey, DbValue>> IndexQueries<F> for AnyIndex<S> {
    open spec fn own(&self, h: &AnyQueryHandle<F>) -> bool {
        match self {
            AnyIndex::Unsharded(i) => i.own(h),
            AnyIndex::Sharded(i) => i.own(h),
        }
    }

    open spec fn limit(&self, h: &AnyQueryHandle<F>) -> int {
        match self {
            AnyIndex::Unsharded(i) => i.limit(h),
            AnyIndex::Sharded(i) => i.limit(h),
        }
    }

    open spec fn share(&self, h: &AnyQueryHandle<F>) -> int {
        match self {
            AnyIndex::Unsharded(i) => i.share(h),
            AnyIndex::Sharded(i) => i.share(h),
        }
    }

    open spec fn fits(&self, h: &AnyQueryHandle<F>) -> bool {
        match self {
            AnyIndex::Unsharded(i) => i.fits(h),
            AnyIndex::Sharded(i) => i.fits(h),
        }
    }

    open spec fn left(&self, h: &AnyQueryHandle<F>) -> Seq<KV> {
        match self {
            AnyIndex::Unsharded(i) => i.left(h),
            AnyIndex::Sharded(i) => i.left(h),
        }
    }

    fn query(
        &self,
        range: BtreeKeyRange<DbKey>,
        batch_size: u32,
        filter: Option<Arc<F>>,
        reverse: bool,
    ) -> (r: Result<AnyQueryHandle<F>, BtreeError>) {
        match self {
            AnyIndex::Unsharded(i) => i.query(range, batch_size, filter, reverse),
            AnyIndex::Sharded(i) => i.query(range, batch_size, filter, reverse),
        }
    }

    fn query_next_batch<H: IndexQueryHandle<F>>(&self, handle: H) -> (r: Result<
        AnyQueryHandle<F>,
        BtreeError,
    >) {
        match self {
            AnyIndex::Unsharded(i) => i.query_next_batch(handle),
            AnyIndex::Sharded(i) => i.query_next_batch(handle),
        }
    }
}

} // verus!
