//! An index kept in one tree.

use std::sync::Arc;
use vstd::prelude::*;
use crate::btree::Btree;
use crate::btree_config::BtreeConfig;
use crate::btree_index::{
    index_query_handle_into_any, lemma_scan, AnyQueryHandle, BtreeIndex, IndexModel, IndexQueries,
    IndexQueryHandle,
};
use crate::btree_req::{
    pairs, shared, AcceptAll, BtreeKeyRange, BtreeQueryRequest, GetFilter, PutFilter,
    QueryResultHandle, RemoveFilter,
};
use crate::btree_types::{BtreeError, IoErrorKind};
use crate::contents::with_key;
use crate::db_kv::{lemma_lex_irreflexive, lemma_lex_transitive, DbKey, DbValue};
use crate::remove::{only, victims};
use crate::tree_model::KV;
use crate::underlying::UnderlyingBtree;

verus! {

/// The handle of a query on one tree.
pub struct SingleQueryHandle<F>(pub QueryResultHandle<DbKey, DbValue, F>);

impl<F> IndexQueryHandle<F> for SingleQueryHandle<F> {
    open spec fn spec_results(&self) -> Seq<(DbKey, DbValue)> {
        self.0.results@
    }

    open spec fn spec_has_more(&self) -> bool {
        self.0.more
    }

    open spec fn spec_into_any(self) -> AnyQueryHandle<F> {
        AnyQueryHandle::Single(self)
    }

    fn results(&self) -> (r: &Vec<(DbKey, DbValue)>) {
        &self.0.results
    }

    fn has_more(&self) -> (r: bool) {
        self.0.has_more()
    }

    fn into_any_send(self) -> (r: AnyQueryHandle<F>) {
        AnyQueryHandle::Single(self)
    }
}

/// Takes back the handle of a query on one tree.
fn to_single_query_handle<F, H: IndexQueryHandle<F>>(handle: H) -> (r: Result<
    SingleQueryHandle<F>,
    BtreeError,
>)
    ensures
        r matches Ok(h) ==> handle.spec_into_any() == AnyQueryHandle::Single(h),
        r matches Err(e) ==> !(handle.spec_into_any() is Single) && e == BtreeError::Io(
            IoErrorKind::Other,
        ),
{
    match index_query_handle_into_any(handle) {
        AnyQueryHandle::Single(h) => Ok(h),
        AnyQueryHandle::Sharded(_) => Err(BtreeError::Io(IoErrorKind::Other)),
    }
}

/// An index kept in one tree.
pub struct UnshardedBtree<S> {
    pub btree: Btree<DbKey, DbValue, S>,
}

impl<S: UnderlyingBtree> UnshardedBtree<S> {
    /// An empty index, in the storage that the factory makes for the configuration.
    pub fn new<M: Fn(&BtreeConfig) -> S>(config: BtreeConfig, storage_factory: M) -> (r: Result<
        Self,
        BtreeError,
    >)
        requires
            storage_factory.requires((&config,)),
            forall|s: S| #[trigger]
                storage_factory.ensures((&config,), s) ==> s.node_size() == config.node_size,
        ensures
            r matches Ok(i) ==> {
                &&& i.wf()
                &&& i.contents() == Seq::<KV>::empty()
                &&& i.btree.config == config
                &&& (forall|s: S| #[trigger]
                    storage_factory.ensures((&config,), s) ==> s.reliable()) ==> i.reliable()
            },
            !config.usable::<DbValue>() ==> r is Err && r->Err_0 == BtreeError::Io(
                IoErrorKind::InvalidInput,
            ),
            config.usable::<DbValue>() && (forall|s: S| #[trigger]
                storage_factory.ensures((&config,), s) ==> s.reliable() && !s.exhausted())
                ==> r is Ok,
    {
        let storage = storage_factory(&config);
        match Btree::new(config, storage, None) {
            Ok(btree) => Ok(UnshardedBtree { btree }),
            Err(e) => Err(e),
        }
    }

    /// The tree.
    pub fn btree(&self) -> (r: &Btree<DbKey, DbValue, S>)
        ensures
            *r == self.btree,
    {
        &self.btree
    }
}

/// Without a filter, the only entry that goes is the one with the key.
pub proof fn lemma_victims_one(k: Seq<u8>)
    ensures
        victims::<DbKey, DbValue, AcceptAll>(only(k), None) == with_key(k),
{
    let v = victims::<DbKey, DbValue, AcceptAll>(only(k), None);
    assert forall|e: KV| #[trigger] v(e) == with_key(k)(e) by {
        if only(k).has::<DbKey>(e.key) && e.key != k {
            lemma_lex_transitive(k, e.key, k);
        }
        lemma_lex_irreflexive(k);
    }
    assert(v =~= with_key(k));
}

impl<S: UnderlyingBtree> IndexModel for UnshardedBtree<S> {
    open spec fn wf(&self) -> bool {
        self.btree.wf()
    }

    open spec fn contents(&self) -> Seq<KV> {
        self.btree@
    }

    open spec fn reliable(&self) -> bool {
        self.btree.storage.reliable()
    }

    open spec fn exhausted(&self) -> bool {
        self.btree.storage.exhausted()
    }

    open spec fn storable(&self, key_len: int, val_len: int) -> bool {
        self.btree.config.storable::<DbKey, DbValue>(key_len, val_len)
    }
}

impl<S: UnderlyingBtree> BtreeIndex for UnshardedBtree<S> {
    proof fn lemma_contents_ordered(&self) {
        self.btree.lemma_ordered();
    }

    fn put(&mut self, key: &DbKey, value: &DbValue) -> (r: Result<(), BtreeError>) {
        match self.btree.put_one(key, value, None::<&AcceptAll>) {
            Ok(_) => Ok(()),
            Err(e) => Err(e),
        }
    }

    fn put_range<F: PutFilter<DbKey, DbValue>>(
        &mut self,
        range: BtreeKeyRange<DbKey>,
        value: &DbValue,
        filter: Option<Arc<F>>,
    ) -> (r: Result<(), BtreeError>) {
        let f: Option<&F> = match &filter {
            Some(a) => Some(&**a),
            None => None,
        };
        let ghost o = *self;
        let r = self.btree.put_range(range, value, f);
        proof {
            if r is Err && o.reliable() && !self.exhausted() {
                let i = choose|i: int|
                    0 <= i < o.btree@.len() && range@.has::<DbKey>((#[trigger] o.btree@[i]).key)
                        && !o.btree.config.storable::<DbKey, DbValue>(
                        o.btree@[i].key.len() as int,
                        value@.len() as int,
                    );
                assert(range@.has::<DbKey>(o.contents()[i].key) && !o.storable(
                    o.contents()[i].key.len() as int,
                    value@.len() as int,
                ));
            }
        }
        r
    }

    fn remove(&mut self, key: &DbKey) -> (r: Result<Option<DbValue>, BtreeError>)
        ensures
            r is Ok ==> final(self).btree.swept(
                &old(self).btree,
                only(key@),
                victims::<DbKey, DbValue, AcceptAll>(only(key@), None),
            ),
    {
        proof {
            lemma_victims_one(key@);
        }
        self.btree.remove_one(key, None::<&AcceptAll>)
    }

    fn remove_range<F: RemoveFilter<DbKey, DbValue>>(
        &mut self,
        range: BtreeKeyRange<DbKey>,
        filter: Option<Arc<F>>,
    ) -> (r: Result<u32, BtreeError>)
        ensures
            r is Ok ==> final(self).btree.swept(
                &old(self).btree,
                range@,
                victims::<DbKey, DbValue, F>(range@, shared(filter)),
            ),
    {
        let f: Option<&F> = match &filter {
            Some(a) => Some(&**a),
            None => None,
        };
        self.btree.remove_range(range, f)
    }

    fn get(&self, key: &DbKey) -> (r: Result<Option<DbValue>, BtreeError>) {
        self.btree.get(key)
    }

    fn seek_gte(&self, key: &DbKey) -> (r: Result<Option<(DbKey, DbValue)>, BtreeError>) {
        self.btree.seek_gte(key)
    }
}

impl<S: UnderlyingBtree, F: GetFilter<DbKey, DbValue>> IndexQueries<F> for UnshardedBtree<S> {
    open spec fn own(&self, h: &AnyQueryHandle<F>) -> bool {
        h is Single
    }

    open spec fn limit(&self, h: &AnyQueryHandle<F>) -> int {
        match h {
            AnyQueryHandle::Single(h) => h.0.request.batch_size as int,
            AnyQueryHandle::Sharded(_) => 0,
        }
    }

    open spec fn share(&self, h: &AnyQueryHandle<F>) -> int {
        self.limit(h)
    }

    open spec fn fits(&self, h: &AnyQueryHandle<F>) -> bool {
        h matches AnyQueryHandle::Single(h) && (h.0.request.sweep_query
            ==> !h.0.request.reverse_order) && (h.0.more ==> h.0.request.batch_size > 0)
    }

    open spec fn left(&self, h: &AnyQueryHandle<F>) -> Seq<KV> {
        match h {
            AnyQueryHandle::Single(h) => h.0.rest(self.btree@),
            AnyQueryHandle::Sharded(_) => Seq::empty(),
        }
    }

    fn query(
        &self,
        range: BtreeKeyRange<DbKey>,
        batch_size: u32,
        filter: Option<Arc<F>>,
        reverse: bool,
    ) -> (r: Result<AnyQueryHandle<F>, BtreeError>)
        ensures
            r matches Ok(h) ==> h matches AnyQueryHandle::Single(h) && {
                let req = BtreeQueryRequest {
                    working_range: range,
                    batch_size,
                    filter,
                    reverse_order: reverse,
                    sweep_query: !reverse,
                };
                &&& h.0.request.same_query(req)
                &&& reverse && batch_size > 0 ==> h.0.more == (h.0.results@.len() == batch_size)
                &&& !reverse ==> h.0.more == (batch_size > 0 && self.btree.says_more(req))
            },
    {
        let ghost req = BtreeQueryRequest {
            working_range: range,
            batch_size,
            filter,
            reverse_order: reverse,
            sweep_query: !reverse,
        };
        proof {
            lemma_scan(req, self.btree@);
            lemma_scan(BtreeQueryRequest { sweep_query: false, ..req }, self.btree@);
        }
        let res = if reverse {
            self.btree.query_traversal(range, batch_size, filter, reverse)
        } else {
            self.btree.query(range, batch_size, filter)
        };
        match res {
            Ok(h) => Ok(AnyQueryHandle::Single(SingleQueryHandle(h))),
            Err(e) => Err(e),
        }
    }

    fn query_next_batch<H: IndexQueryHandle<F>>(&self, handle: H) -> (r: Result<
        AnyQueryHandle<F>,
        BtreeError,
    >)
        ensures
            r matches Ok(n) ==> n matches AnyQueryHandle::Single(n)
                && handle.spec_into_any() matches AnyQueryHandle::Single(h) && {
                &&& n.0.request.same_query(h.0.request)
                &&& h.0.more && h.0.request.sweep_query ==> n.0.more == self.btree.says_more(
                    h.0.request,
                )
                &&& h.0.more && !h.0.request.sweep_query ==> n.0.more == (n.0.results@.len()
                    == h.0.request.batch_size)
                &&& !h.0.more ==> !n.0.more
            },
    {
        let h = match to_single_query_handle(handle) {
            Ok(h) => h,
            Err(e) => {
                return Err(e);
            },
        };
        match self.btree.query_next_batch(h.0) {
            Ok(next) => {
                proof {
                    assert(pairs(next.results@) + next.rest(self.btree@) =~= h.0.rest(self.btree@));
                }
                Ok(AnyQueryHandle::Single(SingleQueryHandle(next)))
            },
            Err(e) => Err(e),
        }
    }
}

} // verus!
