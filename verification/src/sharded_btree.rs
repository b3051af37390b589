//! An index kept in several trees, between which partitions are spread by hash.

use std::sync::Arc;
use vstd::prelude::*;
use crate::btree::Btree;
use crate::btree_config::BtreeConfig;
use crate::btree_index::{
    found, in_order, index_query_handle_into_any, lemma_same_self, lemma_same_trans, lemma_scan,
    same_index, sought, AnyQueryHandle, BtreeIndex, IndexModel, IndexQueries, IndexQueryHandle,
};
use crate::btree_kvs::BtreeKey;
use crate::btree_req::{
    pairs, shared, AcceptAll, BtreeKeyRange, BtreeQueryRequest, GetFilter, PutFilter,
    QueryResultHandle, RemoveFilter,
};
use crate::btree_types::{BtreeError, IoErrorKind};
use crate::contents::{
    from_key, lemma_filter_all, lemma_filter_contains, lemma_filter_filter, lemma_filter_none,
    lemma_filter_ordered, not, ordered, pick, with_key,
};
use crate::db_kv::{lemma_lex_empty, lex_lt, DbKey, DbValue};
use crate::ordered_lemmas::{lemma_lookup, lemma_pick_known, lemma_pick_least, lemma_same_members};
use crate::partition::{
    clamp_range, copy_part, is_part, lemma_range_parts, lemma_shard_bound, part_of, shard_index,
    shard_of, Partition, PartitionKey,
};
use crate::put::{put_over, put_over_all, updated, PutResult};
use crate::query::opt_pair;
use crate::registry::{increasing, part_views, Registry};
use crate::remove::{capped, only, partly_removed, victims};
use crate::shard_lemmas::{
    all_known, counted, cut, found_from, in_part, in_shard, lemma_cut_counted, lemma_cut_spread,
    lemma_filter_same, lemma_found_from, lemma_left_of_part, lemma_one_with_key, lemma_poured_next,
    lemma_poured_partly, lemma_poured_rest, lemma_put_counted, lemma_put_spread,
    lemma_revalued_spread, lemma_same_keys_counted, lemma_shard_found, lemma_shard_pick,
    lemma_taken_next, lemma_taken_partly, lemma_unlisted_cut, lemma_unlisted_part, poured,
    poured_one, poured_partly, revalued, same_keys, spread, taken, twins, visited, within,
};
use crate::text::{decimal, decimal_text, joined};
use crate::tree_model::KV;
use crate::underlying::UnderlyingBtree;
use crate::unsharded_btree::lemma_victims_one;

verus! {

/// The handle of a query on a sharded index.
pub struct ShardedQueryHandle<F> {
    pub results: Vec<(DbKey, DbValue)>,
    pub input_range: BtreeKeyRange<DbKey>,
    pub batch_size: u32,
    pub filter: Option<Arc<F>>,
    pub reverse: bool,
    /// The partitions that the query looks into, in the order of the query.
    pub partitions: Vec<PartitionKey>,
    /// The partition that comes next.
    pub cur_part_idx: usize,
    /// What is left of the query in that partition, where it has been begun.
    pub cur_handle: Option<QueryResultHandle<DbKey, DbValue, F>>,
}

impl<F> ShardedQueryHandle<F> {
    fn has_more_impl(&self) -> (r: bool)
        ensures
            r == self.spec_has_more(),
    {
        let current = match &self.cur_handle {
            Some(h) => h.has_more(),
            None => false,
        };
        current || self.cur_part_idx < self.partitions.len()
    }
}

impl<F> IndexQueryHandle<F> for ShardedQueryHandle<F> {
    open spec fn spec_results(&self) -> Seq<(DbKey, DbValue)> {
        self.results@
    }

    open spec fn spec_has_more(&self) -> bool {
        (self.cur_handle matches Some(h) && h.more) || self.cur_part_idx < self.partitions@.len()
    }

    open spec fn spec_into_any(self) -> AnyQueryHandle<F> {
        AnyQueryHandle::Sharded(self)
    }

    fn results(&self) -> (r: &Vec<(DbKey, DbValue)>) {
        &self.results
    }

    fn has_more(&self) -> (r: bool) {
        self.has_more_impl()
    }

    fn into_any_send(self) -> (r: AnyQueryHandle<F>) {
        AnyQueryHandle::Sharded(self)
    }
}

//==============================================================================
// Sharded indices
//==============================================================================

/// How many trees an index is spread over.
pub const DEFAULT_NUM_SHARDS: usize = 64;

/// An index kept in several trees, between which partitions are spread by hash.
pub struct ShardedBtree<S> {
    pub shards: Vec<Btree<DbKey, DbValue, S>>,
    /// The partitions that have entries.
    pub registry: Registry,
    /// How many of the leading bytes of a key name its partition.
    pub partition_key_len: usize,
    /// The entries of all shards, in key order.
    pub all: Ghost<Seq<KV>>,
}

impl<S: UnderlyingBtree> ShardedBtree<S> {
    /// The entries by shard.
    pub open spec fn views(&self) -> Seq<Seq<KV>> {
        Seq::new(self.shards@.len(), |i: int| self.shards@[i]@)
    }

    pub open spec fn p(&self) -> nat {
        self.partition_key_len as nat
    }

    /// The shards are in order, each by itself.
    pub open spec fn shards_wf(&self) -> bool {
        &&& self.shards@.len() > 0
        &&& forall|i: int| 0 <= i < self.shards@.len() ==> (#[trigger] self.shards@[i]).wf()
        &&& forall|i: int, k: int, v: int|
            0 <= i < self.shards@.len() ==> #[trigger] self.shards@[i].config.storable::<
                DbKey,
                DbValue,
            >(k, v) == self.storable(k, v)
    }

    /// Shard `i` is another one, and the rest is as it was.
    pub open spec fn but_shard(&self, o: &Self, i: int, b: Btree<DbKey, DbValue, S>) -> bool {
        &&& self.shards@ == o.shards@.update(i, b)
        &&& self.partition_key_len == o.partition_key_len
    }
}

impl<S: UnderlyingBtree> IndexModel for ShardedBtree<S> {
    open spec fn wf(&self) -> bool {
        &&& self.shards_wf()
        &&& ordered::<DbKey>(self.all@)
        &&& spread(self.p(), self.all@, self.views())
        &&& self.registry.wf()
        &&& counted(self.p(), self.registry@, self.all@)
    }

    open spec fn contents(&self) -> Seq<KV> {
        self.all@
    }

    open spec fn reliable(&self) -> bool {
        forall|i: int| 0 <= i < self.shards@.len() ==> (#[trigger] self.shards@[i]).storage.reliable()
    }

    open spec fn exhausted(&self) -> bool {
        exists|i: int| 0 <= i < self.shards@.len() && (#[trigger] self.shards@[i]).storage.exhausted()
    }

    open spec fn storable(&self, key_len: int, val_len: int) -> bool {
        self.shards@[0].config.storable::<DbKey, DbValue>(key_len, val_len)
    }
}

/// What the storage of a shard has to be, for every configuration of a shard.
pub open spec fn fits_shards<S: UnderlyingBtree, M: Fn(&BtreeConfig) -> S>(
    config: BtreeConfig,
    storage_factory: M,
) -> bool {
    forall|c: BtreeConfig|
        #[trigger] c.named_like(config) ==> {
            &&& storage_factory.requires((&c,))
            &&& forall|s: S| #[trigger]
                storage_factory.ensures((&c,), s) ==> s.node_size() == c.node_size
        }
}

/// The storage of no shard fails, and there is room in it.
pub open spec fn good_shards<S: UnderlyingBtree, M: Fn(&BtreeConfig) -> S>(
    config: BtreeConfig,
    storage_factory: M,
) -> bool {
    forall|c: BtreeConfig, s: S|
        #![trigger c.named_like(config), storage_factory.ensures((&c,), s)]
        c.named_like(config) && storage_factory.ensures((&c,), s) ==> s.reliable() && !s.exhausted()
}

/// Makes the tree of a shard.
fn new_btree_on_shard<S: UnderlyingBtree>(config: BtreeConfig, storage: S) -> (r: Result<
    Btree<DbKey, DbValue, S>,
    BtreeError,
>)
    requires
        storage.node_size() == config.node_size,
    ensures
        r matches Ok(b) ==> {
            &&& b.wf()
            &&& b.config == config
            &&& b.storage.reliable() == storage.reliable()
            &&& b@ == Seq::<KV>::empty()
        },
        !config.usable::<DbValue>() ==> r is Err && r->Err_0 == BtreeError::Io(
            IoErrorKind::InvalidInput,
        ),
        config.usable::<DbValue>() && storage.reliable() && !storage.exhausted() ==> r is Ok,
{
    Btree::new(config, storage, None)
}

impl<S: UnderlyingBtree> ShardedBtree<S> {
    /// An empty index, in the storages that the factory makes for the shards. Shards are named
    /// after the index, with their number behind an underscore.
    pub fn new<M: Fn(&BtreeConfig) -> S>(
        config: BtreeConfig,
        partition_key_len: usize,
        storage_factory: M,
    ) -> (r: Result<Self, BtreeError>)
        requires
            fits_shards(config, storage_factory),
        ensures
            r matches Ok(t) ==> {
                &&& t.wf()
                &&& t.contents() == Seq::<KV>::empty()
                &&& t.partition_key_len == partition_key_len
                &&& t.shards@.len() == DEFAULT_NUM_SHARDS
                &&& forall|i: int|
                    0 <= i < t.shards@.len() ==> {
                        let c = (#[trigger] t.shards@[i]).config;
                        c.named_like(config) && c.btree_name@ == config.btree_name@ + "_"@
                            + decimal(i as nat)
                    }
                &&& good_shards(config, storage_factory) ==> t.reliable()
            },
            !config.usable::<DbValue>() ==> r is Err && r->Err_0 == BtreeError::Io(
                IoErrorKind::InvalidInput,
            ),
            config.usable::<DbValue>() && good_shards(config, storage_factory) ==> r is Ok,
    {
        let mut shards: Vec<Btree<DbKey, DbValue, S>> = Vec::new();
        let mut i: usize = 0;
        while i < DEFAULT_NUM_SHARDS
            invariant
                i <= DEFAULT_NUM_SHARDS,
                i > 0 ==> config.usable::<DbValue>(),
                shards@.len() == i,
                fits_shards(config, storage_factory),
                forall|j: int|
                    0 <= j < i ==> {
                        let b = #[trigger] shards@[j];
                        &&& b.wf()
                        &&& b@ == Seq::<KV>::empty()
                        &&& b.config.named_like(config)
                        &&& b.config.btree_name@ == config.btree_name@ + "_"@ + decimal(j as nat)
                        &&& good_shards(config, storage_factory) ==> b.storage.reliable()
                    },
            decreases DEFAULT_NUM_SHARDS - i,
        {
            let number = decimal_text(i as u64);
            let cfg = config.copy_as(joined(&config.btree_name, number.as_str()));
            proof {
                assert(cfg.named_like(config));
            }
            let storage = storage_factory(&cfg);
            match new_btree_on_shard(cfg, storage) {
                Ok(btree) => {
                    shards.push(btree);
                },
                Err(e) => {
                    return Err(e);
                },
            }
            i = i + 1;
        }
        let t = ShardedBtree {
            shards,
            registry: Registry::new(),
            partition_key_len,
            all: Ghost(Seq::empty()),
        };
        proof {
            let none = Seq::<KV>::empty();
            assert forall|j: int| 0 <= j < t.views().len() implies #[trigger] t.views()[j]
                == none.filter(in_shard(t.p(), t.views().len(), j)) by {
                assert(t.shards@[j]@ == none);
                lemma_filter_none(none, in_shard(t.p(), t.views().len(), j));
            }
            assert forall|j: int, k: int, v: int| 0 <= j < t.shards@.len() implies #[trigger]
                t.shards@[j].config.storable::<DbKey, DbValue>(k, v) == t.storable(k, v) by {
                assert(t.shards@[j].config.named_like(config));
                assert(t.shards@[0].config.named_like(config));
                t.shards@[j].config.lemma_named_like::<DbKey, DbValue>(config, k, v);
                t.shards@[0].config.lemma_named_like::<DbKey, DbValue>(config, k, v);
            }
        }
        Ok(t)
    }

    /// An operation on one shard leaves the rest of the index as it was.
    proof fn lemma_but_shard(&self, o: &Self, i: int, b: Btree<DbKey, DbValue, S>)
        requires
            o.shards_wf(),
            0 <= i < o.shards@.len(),
            self.but_shard(o, i, b),
            b.env_of(&o.shards@[i]),
        ensures
            same_index(o, self),
            b.storage.exhausted() ==> self.exhausted(),
            b.wf() ==> self.shards_wf(),
            self.views() == o.views().update(i, b@),
            o.reliable() ==> o.shards@[i].storage.reliable(),
    {
        assert(self.shards@[i] == b);
        assert(self.views() =~= o.views().update(i, b@));
        assert forall|k: int, v: int| #[trigger] self.storable(k, v) == o.storable(k, v) by {
            assert(self.shards@[0].config.storable::<DbKey, DbValue>(k, v)
                == o.shards@[0].config.storable::<DbKey, DbValue>(k, v));
        }
        assert(o.reliable() == self.reliable()) by {
            if o.reliable() {
                assert forall|j: int| 0 <= j < self.shards@.len() implies (
                #[trigger] self.shards@[j]).storage.reliable() by {
                    assert(o.shards@[j].storage.reliable());
                }
            }
            if self.reliable() {
                assert forall|j: int| 0 <= j < o.shards@.len() implies (
                #[trigger] o.shards@[j]).storage.reliable() by {
                    assert(self.shards@[j].storage.reliable());
                }
            }
        }
        if o.exhausted() {
            let j = choose|j: int|
                0 <= j < o.shards@.len() && (#[trigger] o.shards@[j]).storage.exhausted();
            assert(self.shards@[j].storage.exhausted());
        }
        if b.wf() {
            assert forall|j: int| 0 <= j < self.shards@.len() implies (
            #[trigger] self.shards@[j]).wf() by {
                assert(o.shards@[j].wf());
            }
            assert forall|j: int, k: int, v: int| 0 <= j < self.shards@.len() implies #[trigger]
                self.shards@[j].config.storable::<DbKey, DbValue>(k, v) == self.storable(k, v) by {
                assert(o.shards@[j].config.storable::<DbKey, DbValue>(k, v) == o.storable(k, v));
                assert(self.storable(k, v) == o.storable(k, v));
            }
        }
    }

    fn num_shards(&self) -> (r: usize)
        ensures
            r == self.shards@.len(),
    {
        self.shards.len()
    }

    /// The number of the shard that has a partition.
    fn shard_from_part_key(&self, part_key: &PartitionKey) -> (r: usize)
        requires
            self.shards@.len() > 0,
        ensures
            r < self.shards@.len(),
            r == shard_of(self.shards@.len(), part_key@),
    {
        shard_index(part_key, self.num_shards())
    }

    /// The partition of a key.
    fn get_part_key(&self, key: &DbKey) -> (r: PartitionKey)
        ensures
            r@ == part_of(self.p(), key@),
    {
        Partition::from_key(key, self.partition_key_len).part_key
    }

    /// Entries of one partition have left its shard.
    proof fn lemma_part_cut(&self, o: &Self, i: int, b: Btree<DbKey, DbValue, S>, pk: Seq<u8>, sel:
        spec_fn(KV) -> bool)
        requires
            o.wf(),
            0 <= i < o.shards@.len(),
            i == shard_of(o.shards@.len(), pk),
            self.but_shard(o, i, b),
            self.registry.wf(),
            b.env_of(&o.shards@[i]),
            b.wf(),
            forall|e: KV| #[trigger] sel(e) ==> part_of(o.p(), e.key) == pk,
            partly_removed(o.shards@[i]@, sel, b@),
            self.all@ == cut(o.p(), o.shards@.len(), o.all@, i, b@),
            forall|q: Seq<u8>| q != pk ==> #[trigger] self.registry@.contains_key(q)
                == o.registry@.contains_key(q),
            forall|q: Seq<u8>| q != pk && #[trigger] self.registry@.contains_key(q)
                ==> self.registry@[q] == o.registry@[q],
            self.registry@.contains_key(pk) ==> o.registry@.contains_key(pk) && (self.registry@[pk]
                == i64::MAX || self.registry@[pk] == self.all@.filter(in_part(o.p(), pk)).len()),
            !self.registry@.contains_key(pk) ==> self.all@.filter(in_part(o.p(), pk)).len() == 0,
        ensures
            self.wf(),
            partly_removed(o.all@, sel, self.all@),
    {
        let p = o.p();
        let n = o.shards@.len();
        let v = o.shards@[i]@;
        let c = self.all@;
        self.lemma_but_shard(o, i, b);
        b.lemma_ordered();
        assert(o.views()[i] == v);
        lemma_cut_spread(p, o.all@, o.views(), i, b@);
        lemma_filter_ordered::<DbKey>(o.all@, not(sel));
        lemma_filter_ordered::<DbKey>(c, not(sel));
        assert forall|e: KV| #[trigger] o.all@.contains(e) && !sel(e) implies c.contains(e) by {
            if in_shard(p, n, i)(e) {
                assert(v == o.all@.filter(in_shard(p, n, i)));
                lemma_filter_contains(o.all@, in_shard(p, n, i), e);
                lemma_filter_contains(v, not(sel), e);
                lemma_filter_contains(b@, not(sel), e);
            }
        }
        assert forall|e: KV| #[trigger] c.filter(not(sel)).contains(e) == o.all@.filter(
            not(sel),
        ).contains(e) by {
            lemma_filter_contains(c, not(sel), e);
            lemma_filter_contains(o.all@, not(sel), e);
            assert(c.contains(e) ==> o.all@.contains(e));
        }
        lemma_same_members::<DbKey>(c.filter(not(sel)), o.all@.filter(not(sel)));
        assert forall|e: KV| #[trigger] o.all@.contains(e) && part_of(p, e.key)
            != pk implies c.contains(e) by {
            assert(!sel(e));
        }
        lemma_cut_counted(p, o.registry@, o.all@, pk, self.registry@, c);
    }

    /// What is left in a shard is what is left of the whole.
    proof fn lemma_all_cut(&self, o: &Self, i: int, b: Btree<DbKey, DbValue, S>, sel: spec_fn(
        KV,
    ) -> bool)
        requires
            o.wf(),
            0 <= i < o.shards@.len(),
            b.wf(),
            forall|e: KV| #[trigger] sel(e) ==> shard_of(o.shards@.len(), part_of(o.p(), e.key))
                == i,
            b@ == o.shards@[i]@.filter(not(sel)),
        ensures
            cut(o.p(), o.shards@.len(), o.all@, i, b@) == o.all@.filter(not(sel)),
            partly_removed(o.shards@[i]@, sel, b@),
            o.shards@[i]@.filter(sel) == o.all@.filter(sel),
    {
        let p = o.p();
        let n = o.shards@.len();
        let v = o.shards@[i]@;
        let f = in_shard(p, n, i);
        let c = cut(p, n, o.all@, i, b@);
        assert(o.views()[i] == v);
        assert(v == o.all@.filter(f));
        o.shards@[i].lemma_ordered();
        b.lemma_ordered();
        assert forall|e: KV| #[trigger] b@.contains(e) implies v.contains(e) by {
            lemma_filter_contains(v, not(sel), e);
        }
        lemma_cut_spread(p, o.all@, o.views(), i, b@);
        lemma_filter_ordered::<DbKey>(o.all@, not(sel));
        assert forall|e: KV| #[trigger] c.contains(e) == o.all@.filter(not(sel)).contains(e) by {
            lemma_filter_contains(o.all@, not(sel), e);
            lemma_filter_contains(v, not(sel), e);
            lemma_filter_contains(o.all@, f, e);
        }
        lemma_same_members::<DbKey>(c, o.all@.filter(not(sel)));
        lemma_filter_filter(v, not(sel), not(sel), not(sel));
        lemma_filter_filter(o.all@, f, sel, sel);
    }

    /// The partition at a place of a list.
    fn nth_partition(parts: &Vec<PartitionKey>, idx: usize) -> (r: Partition)
        requires
            idx < parts@.len(),
        ensures
            r.part_key@ == parts@[idx as int]@,
    {
        Partition { part_key: copy_part(&parts[idx]) }
    }

    /// Sets the value of the keys of a range in one partition that the filter, if there is one,
    /// lets through.
    fn put_in_partition<F: PutFilter<DbKey, DbValue>>(
        &mut self,
        part: &Partition,
        range: &BtreeKeyRange<DbKey>,
        value: &DbValue,
        filter: Option<&F>,
    ) -> (r: Result<(), BtreeError>)
        requires
            old(self).wf(),
            is_part(old(self).p(), part.part_key@),
        ensures
            same_index(old(self), final(self)),
            final(self).partition_key_len == old(self).partition_key_len,
            final(self).registry == old(self).registry,
            r is Ok ==> final(self).wf() && poured_one::<F>(
                old(self).p(),
                old(self).all@,
                range@,
                value@,
                filter,
                part.part_key@,
                final(self).all@,
            ),
            r is Err && old(self).reliable() ==> {
                &&& final(self).wf()
                &&& poured_partly::<F>(
                    old(self).p(),
                    old(self).all@,
                    range@,
                    value@,
                    filter,
                    part.part_key@,
                    final(self).all@,
                )
                &&& final(self).exhausted() || exists|m: int|
                    0 <= m < old(self).all@.len() && range@.has::<DbKey>(
                        (#[trigger] old(self).all@[m]).key,
                    ) && !old(self).storable(
                        old(self).all@[m].key.len() as int,
                        value@.len() as int,
                    )
            },
    {
        let ghost o = *self;
        let ghost pk = part.part_key@;
        let ghost p = self.p();
        let this_range = clamp_range(range, part, self.partition_key_len);
        let ghost cl = this_range@;
        let i: usize = self.shard_from_part_key(&part.part_key);
        let ghost v = o.shards@[i as int]@;
        let result = self.shards[i].put_range(this_range, value, filter);
        let ghost b = self.shards@[i as int];
        proof {
            assert(self.shards@ =~= o.shards@.update(i as int, b));
            self.lemma_but_shard(&o, i as int, b);
            assert(o.views()[i as int] == v);
            self.all@ = revalued(p, o.shards@.len(), o.all@, i as int, b@);
            if result is Ok || o.reliable() {
                assert(same_keys(v, b@));
                lemma_revalued_spread(p, o.all@, o.views(), i as int, b@);
                lemma_same_keys_counted(p, o.registry@, o.all@, self.all@);
                assert(self.wf());
                assert forall|m: int| 0 <= m < o.all@.len() implies #[trigger] self.all@[m]
                    == o.all@[m] || (part_of(p, o.all@[m].key) == pk && self.all@[m] == put_over::<
                    DbKey,
                    DbValue,
                    F,
                >(o.all@[m], range@, value@, filter)) by {
                    assert(cl.has::<DbKey>(o.all@[m].key) == (range@.has::<DbKey>(o.all@[m].key)
                        && part_of(p, o.all@[m].key) == pk));
                    if in_shard(p, o.shards@.len(), i as int)(o.all@[m]) {
                        assert(twins(v, b@, o.all@[m], self.all@[m]));
                    }
                }
            }
            if result is Ok {
                assert forall|m: int| 0 <= m < o.all@.len() implies #[trigger] self.all@[m]
                    == if part_of(p, o.all@[m].key) == pk {
                    put_over::<DbKey, DbValue, F>(o.all@[m], range@, value@, filter)
                } else {
                    o.all@[m]
                } by {
                    assert(cl.has::<DbKey>(o.all@[m].key) == (range@.has::<DbKey>(o.all@[m].key)
                        && part_of(p, o.all@[m].key) == pk));
                    if in_shard(p, o.shards@.len(), i as int)(o.all@[m]) {
                        assert(twins(v, b@, o.all@[m], self.all@[m]));
                    }
                }
            } else if o.reliable() && !self.exhausted() {
                let j = choose|j: int|
                    0 <= j < v.len() && cl.has::<DbKey>((#[trigger] v[j]).key)
                        && !o.shards@[i as int].config.storable::<DbKey, DbValue>(
                        v[j].key.len() as int,
                        value@.len() as int,
                    );
                assert(v == o.all@.filter(in_shard(p, o.shards@.len(), i as int)));
                assert(v.contains(v[j]));
                lemma_filter_contains(o.all@, in_shard(p, o.shards@.len(), i as int), v[j]);
                let m = choose|m: int| 0 <= m < o.all@.len() && o.all@[m] == v[j];
                assert(range@.has::<DbKey>(o.all@[m].key));
                assert(o.shards@[i as int].config.storable::<DbKey, DbValue>(
                    v[j].key.len() as int,
                    value@.len() as int,
                ) == o.storable(v[j].key.len() as int, value@.len() as int));
            }
        }
        result
    }

    /// Removes what the filter, if there is one, lets go of the keys of a range in one partition.
    fn remove_in_partition<F: RemoveFilter<DbKey, DbValue>>(
        &mut self,
        part: &Partition,
        range: &BtreeKeyRange<DbKey>,
        filter: Option<&F>,
    ) -> (r: Result<u32, BtreeError>)
        requires
            old(self).wf(),
            is_part(old(self).p(), part.part_key@),
        ensures
            same_index(old(self), final(self)),
            final(self).partition_key_len == old(self).partition_key_len,
            r matches Ok(n) ==> {
                let sel = within(
                    old(self).p(),
                    part.part_key@,
                    victims::<DbKey, DbValue, F>(range@, filter),
                );
                &&& final(self).wf()
                &&& final(self).all@ == old(self).all@.filter(not(sel))
                &&& n == capped(old(self).all@.filter(sel).len())
                &&& n < u32::MAX && all_known(old(self).registry@) ==> all_known(
                    final(self).registry@,
                )
            },
            r is Err && old(self).reliable() ==> {
                &&& final(self).exhausted()
                &&& final(self).wf()
                &&& partly_removed(
                    old(self).all@,
                    within(
                        old(self).p(),
                        part.part_key@,
                        victims::<DbKey, DbValue, F>(range@, filter),
                    ),
                    final(self).all@,
                )
            },
    {
        let ghost o = *self;
        let ghost pk = part.part_key@;
        let ghost sel = within(self.p(), pk, victims::<DbKey, DbValue, F>(range@, filter));
        let this_range = clamp_range(range, part, self.partition_key_len);
        proof {
            let v = victims::<DbKey, DbValue, F>(this_range@, filter);
            assert forall|e: KV| #[trigger] v(e) == sel(e) by {
                assert(this_range@.has::<DbKey>(e.key) == (range@.has::<DbKey>(e.key) && part_of(
                    self.p(),
                    e.key,
                ) == pk));
            }
            assert(v =~= sel);
        }
        let i: usize = self.shard_from_part_key(&part.part_key);
        let result = self.shards[i].remove_range(this_range, filter);
        let ghost b = self.shards@[i as int];
        proof {
            assert(self.shards@ =~= o.shards@.update(i as int, b));
            self.lemma_but_shard(&o, i as int, b);
            self.all@ = cut(o.p(), o.shards@.len(), o.all@, i as int, b@);
        }
        match result {
            Ok(count) => {
                proof {
                    self.lemma_all_cut(&o, i as int, b, sel);
                    lemma_left_of_part(self.p(), o.all@, pk, sel);
                    if !o.registry@.contains_key(pk) {
                        lemma_unlisted_part(self.p(), o.registry@, o.all@, pk);
                    }
                }
                if count == u32::MAX {
                    self.registry.lose_count(&part.part_key);
                } else if count > 0 {
                    self.registry.decrement_and_cleanup(&part.part_key, count);
                }
                proof {
                    self.lemma_part_cut(&o, i as int, b, pk, sel);
                }
                Ok(count)
            },
            Err(e) => {
                self.registry.lose_count(&part.part_key);
                proof {
                    if o.reliable() {
                        if !o.registry@.contains_key(pk) {
                            lemma_unlisted_cut(
                                o.p(),
                                o.shards@.len(),
                                o.registry@,
                                o.all@,
                                pk,
                                i as int,
                                b@,
                            );
                        }
                        self.lemma_part_cut(&o, i as int, b, pk, sel);
                    }
                }
                Err(e)
            },
        }
    }
}

impl<S: UnderlyingBtree> BtreeIndex for ShardedBtree<S> {
    proof fn lemma_contents_ordered(&self) {
    }

    fn put(&mut self, key: &DbKey, value: &DbValue) -> (r: Result<(), BtreeError>)
        ensures
            r is Ok && all_known(old(self).registry@) && old(self).contents().len() < i64::MAX - 1
                ==> all_known(final(self).registry@),
    {
        let ghost o = *self;
        let part_key = self.get_part_key(key);
        let i: usize = self.shard_from_part_key(&part_key);
        let ghost e = KV { key: key@, val: value@ };
        let result = self.shards[i].put_one(key, value, None::<&AcceptAll>);
        let ghost b = self.shards@[i as int];
        proof {
            assert(self.shards@ =~= o.shards@.update(i as int, b));
            self.lemma_but_shard(&o, i as int, b);
            lemma_shard_pick(self.p(), o.all@, o.views(), i as int, key@);
            assert(o.shards@[i as int].config.storable::<DbKey, DbValue>(
                key@.len() as int,
                value@.len() as int,
            ) == o.storable(key@.len() as int, value@.len() as int));
        }
        match result {
            Ok(res) => {
                proof {
                    lemma_put_spread(self.p(), o.all@, o.views(), i as int, e);
                    lemma_put_counted(self.p(), o.registry@, o.all@, e);
                    self.all@ = updated::<DbKey>(o.all@, e);
                    let pk = part_of(self.p(), key@);
                    if o.registry@.contains_key(pk) {
                        o.all@.lemma_filter_len(in_part(self.p(), pk));
                    }
                }
                match res {
                    PutResult::Success => {
                        self.registry.get_or_create_entry(&part_key);
                    },
                    _ => {},
                }
                Ok(())
            },
            Err(err) => {
                proof {
                    assert(o.views().update(i as int, o.views()[i as int]) =~= o.views());
                }
                Err(err)
            },
        }
    }

    fn remove(&mut self, key: &DbKey) -> (r: Result<Option<DbValue>, BtreeError>)
        ensures
            r is Ok && all_known(old(self).registry@) ==> all_known(final(self).registry@),
            r is Ok ==> {
                let i = shard_of(old(self).shards@.len(), part_of(old(self).p(), key@));
                &&& final(self).shards@ == old(self).shards@.update(i, final(self).shards@[i])
                &&& final(self).shards@[i].swept(
                    &old(self).shards@[i],
                    only(key@),
                    victims::<DbKey, DbValue, AcceptAll>(only(key@), None),
                )
            },
    {
        let ghost o = *self;
        let part_key = self.get_part_key(key);
        let i: usize = self.shard_from_part_key(&part_key);
        let ghost sel = with_key(key@);
        let result = self.shards[i].remove_one(key, None::<&AcceptAll>);
        let ghost b = self.shards@[i as int];
        proof {
            assert(self.shards@ =~= o.shards@.update(i as int, b));
            self.lemma_but_shard(&o, i as int, b);
            lemma_shard_pick(self.p(), o.all@, o.views(), i as int, key@);
            lemma_victims_one(key@);
            lemma_lookup::<DbKey>(o.all@, key@);
            self.all@ = cut(o.p(), o.shards@.len(), o.all@, i as int, b@);
        }
        match result {
            Ok(found) => {
                proof {
                    self.lemma_all_cut(&o, i as int, b, sel);
                    lemma_left_of_part(self.p(), o.all@, part_key@, sel);
                    lemma_one_with_key(o.all@, key@);
                }
                if found.is_some() {
                    self.registry.decrement_and_cleanup(&part_key, 1);
                }
                proof {
                    let e = pick(o.all@, sel);
                    assert(e is Some ==> o.registry@.contains_key(part_key@)) by {
                        if e is Some {
                            assert(o.all@.contains(e->0));
                        }
                    }
                    if !o.registry@.contains_key(part_key@) {
                        lemma_unlisted_part(self.p(), o.registry@, o.all@, part_key@);
                    }
                    self.lemma_part_cut(&o, i as int, b, part_key@, sel);
                }
                Ok(found)
            },
            Err(e) => {
                self.registry.lose_count(&part_key);
                proof {
                    if o.reliable() {
                        if !o.registry@.contains_key(part_key@) {
                            lemma_unlisted_cut(
                                o.p(),
                                o.shards@.len(),
                                o.registry@,
                                o.all@,
                                part_key@,
                                i as int,
                                b@,
                            );
                        }
                        self.lemma_part_cut(&o, i as int, b, part_key@, sel);
                    }
                }
                Err(e)
            },
        }
    }

    fn remove_range<F: RemoveFilter<DbKey, DbValue>>(
        &mut self,
        range: BtreeKeyRange<DbKey>,
        filter: Option<Arc<F>>,
    ) -> (r: Result<u32, BtreeError>)
        ensures
            r matches Ok(n) ==> n < u32::MAX && all_known(old(self).registry@) ==> all_known(
                final(self).registry@,
            ),
    {
        let ghost o = *self;
        let start_part = self.get_part_key(&range.start_key);
        let end_part = self.get_part_key(&range.end_key);
        let parts = self.registry.active_partitions_in_range(&start_part, &end_part);
        let f: Option<&F> = match &filter {
            Some(a) => Some(&**a),
            None => None,
        };
        let mut total: u32 = 0;
        let mut idx: usize = 0;
        let ghost p = self.p();
        let ghost ps = part_views(parts@);
        let ghost sel = victims::<DbKey, DbValue, F>(range@, f);
        proof {
            lemma_same_self(&o);
            assert forall|e: KV| #[trigger] o.all@.contains(e) implies not(
                taken(p, ps.take(0), sel),
            )(e) by {}
            lemma_filter_same(o.all@, not(taken(p, ps.take(0), sel)), |e: KV| true);
            lemma_filter_all(o.all@, |e: KV| true);
            lemma_filter_same(o.all@, taken(p, ps.take(0), sel), |e: KV| false);
            lemma_filter_none(o.all@, |e: KV| false);
        }
        while idx < parts.len()
            invariant
                o == *old(self),
                self.wf(),
                self.p() == p,
                same_index(&o, self),
                o.wf(),
                o.p() == p,
                idx <= parts@.len(),
                ps == part_views(parts@),
                increasing(ps),
                forall|pk: Seq<u8>| #[trigger] ps.contains(pk) ==> is_part(p, pk),
                f == shared(filter),
                sel == victims::<DbKey, DbValue, F>(range@, f),
                self.all@ == o.all@.filter(not(taken(p, ps.take(idx as int), sel))),
                total == capped(o.all@.filter(taken(p, ps.take(idx as int), sel)).len()),
                total < u32::MAX && all_known(o.registry@) ==> all_known(self.registry@),
            decreases parts@.len() - idx,
        {
            let part = Self::nth_partition(&parts, idx);
            let ghost was = *self;
            proof {
                assert(ps[idx as int] == part.part_key@);
                assert(ps.contains(part.part_key@));
                lemma_taken_next(p, o.all@, ps, idx as int, sel);
            }
            match self.remove_in_partition(&part, &range, f) {
                Ok(count) => {
                    total = total.saturating_add(count);
                    proof {
                        lemma_same_trans(&o, &was, self);
                    }
                },
                Err(e) => {
                    proof {
                        lemma_same_trans(&o, &was, self);
                        if o.reliable() {
                            lemma_taken_partly(
                                o.all@,
                                taken(p, ps.take(idx as int), sel),
                                within(p, part.part_key@, sel),
                                sel,
                                self.all@,
                            );
                        }
                    }
                    return Err(e);
                },
            }
            idx = idx + 1;
        }
        proof {
            assert(ps.take(idx as int) =~= ps);
            assert forall|e: KV| #[trigger] o.all@.contains(e) implies taken(p, ps, sel)(e) == sel(
                e,
            ) by {
                if sel(e) {
                    lemma_range_parts(p, range@, e.key);
                    assert(ps.contains(part_of(p, e.key)));
                }
            }
            lemma_filter_same(o.all@, taken(p, ps, sel), sel);
            lemma_filter_same(o.all@, not(taken(p, ps, sel)), not(sel));
        }
        Ok(total)
    }

    fn get(&self, key: &DbKey) -> (r: Result<Option<DbValue>, BtreeError>) {
        let part_key = self.get_part_key(key);
        let i: usize = self.shard_from_part_key(&part_key);
        proof {
            lemma_shard_pick(self.p(), self.all@, self.views(), i as int, key@);
        }
        self.shards[i].get(key)
    }

    fn seek_gte(&self, key: &DbKey) -> (r: Result<Option<(DbKey, DbValue)>, BtreeError>) {
        let ghost f = from_key::<DbKey>(key@, true);
        let ghost n = self.shards@.len();
        let ghost p = self.p();
        let mut best: Option<(DbKey, DbValue)> = None;
        let mut i: usize = 0;
        while i < self.shards.len()
            invariant
                self.wf(),
                i <= self.shards@.len(),
                f == from_key::<DbKey>(key@, true),
                n == self.shards@.len(),
                p == self.p(),
                opt_pair(best) matches Some(e) ==> self.all@.contains(e) && f(e),
                forall|x: KV| #[trigger]
                    self.all@.contains(x) && f(x) && shard_of(n, part_of(p, x.key)) < i ==> (
                    opt_pair(best) matches Some(e) && !DbKey::lt(x.key, e.key)),
            decreases self.shards@.len() - i,
        {
            let ghost v = self.shards@[i as int]@;
            let ghost was = opt_pair(best);
            let next = match self.shards[i].seek_gte(key) {
                Ok(r) => r,
                Err(e) => {
                    return Err(e);
                },
            };
            proof {
                assert(self.views()[i as int] == v);
                assert(v == self.all@.filter(in_shard(p, n, i as int)));
                self.shards@[i as int].lemma_ordered();
                lemma_pick_known::<DbKey>(v, f);
                match opt_pair(next) {
                    Some(e) => {
                        lemma_filter_contains(self.all@, in_shard(p, n, i as int), e);
                    },
                    None => {},
                }
            }
            let ghost found = opt_pair(next);
            let better = match (&next, &best) {
                (Some(a), Some(b)) => a.0.is_less(&b.0),
                (Some(_), None) => true,
                (None, _) => false,
            };
            if better {
                best = next;
            }
            proof {
                assert forall|x: KV| #[trigger]
                    self.all@.contains(x) && f(x) && shard_of(n, part_of(p, x.key)) < i
                        + 1 implies (opt_pair(best) matches Some(e) && !DbKey::lt(
                    x.key,
                    e.key,
                )) by {
                    lemma_filter_contains(self.all@, in_shard(p, n, i as int), x);
                    if shard_of(n, part_of(p, x.key)) == i {
                        assert(v.contains(x));
                        assert(found is Some && !DbKey::lt(x.key, found->0.key));
                        if !better {
                            DbKey::lemma_total(was->0.key, found->0.key);
                            if DbKey::lt(x.key, was->0.key) && DbKey::lt(
                                was->0.key,
                                found->0.key,
                            ) {
                                DbKey::lemma_transitive(x.key, was->0.key, found->0.key);
                            }
                        }
                    } else {
                        assert(was is Some && !DbKey::lt(x.key, was->0.key));
                        if better && DbKey::lt(x.key, found->0.key) {
                            DbKey::lemma_transitive(x.key, found->0.key, was->0.key);
                        }
                    }
                }
            }
            i = i + 1;
        }
        proof {
            assert forall|x: KV| #[trigger] self.all@.contains(x) implies shard_of(
                n,
                part_of(p, x.key),
            ) < n by {
                lemma_shard_bound(n, part_of(p, x.key));
            }
            match opt_pair(best) {
                Some(e) => {
                    lemma_pick_least::<DbKey>(self.all@, f, e);
                },
                None => {
                    assert forall|j: int| 0 <= j < self.all@.len() implies !f(
                        #[trigger] self.all@[j],
                    ) by {
                        assert(self.all@.contains(self.all@[j]));
                    }
                },
            }
        }
        Ok(best)
    }

    fn put_range<F: PutFilter<DbKey, DbValue>>(
        &mut self,
        range: BtreeKeyRange<DbKey>,
        value: &DbValue,
        filter: Option<Arc<F>>,
    ) -> (r: Result<(), BtreeError>)
        ensures
            final(self).registry == old(self).registry,
    {
        let ghost o = *self;
        let start = Partition::from_range(&range, self.partition_key_len);
        let end_part = self.get_part_key(&range.end_key);
        let parts = self.registry.active_partitions_in_range(&start.part_key, &end_part);
        let f: Option<&F> = match &filter {
            Some(a) => Some(&**a),
            None => None,
        };
        let ghost p = self.p();
        let ghost ps = part_views(parts@);
        let mut idx: usize = 0;
        proof {
            lemma_same_self(&o);
            assert(poured::<F>(p, o.all@, range@, value@, f, ps.take(0), o.all@));
            assert forall|e: KV| #[trigger] o.all@.contains(e) && range@.has::<DbKey>(
                e.key,
            ) implies ps.contains(part_of(p, e.key)) by {
                lemma_range_parts(p, range@, e.key);
                if p == 0 {
                    lemma_lex_empty(part_of(p, e.key));
                }
            }
            if parts@.len() == 0 {
                lemma_poured_rest::<F>(p, o.all@, range@, value@, f, ps, 0, o.all@);
            }
        }
        while idx < parts.len()
            invariant_except_break
                o == *old(self),
                self.registry == o.registry,
                idx <= parts@.len(),
                idx == parts@.len() ==> self.all@ == put_over_all::<DbKey, DbValue, F>(
                    o.all@,
                    range@,
                    value@,
                    f,
                ),
                self.wf(),
                self.p() == p,
                same_index(&o, self),
                o.wf(),
                o.p() == p,
                ps == part_views(parts@),
                increasing(ps),
                forall|pk: Seq<u8>| #[trigger] ps.contains(pk) ==> is_part(p, pk),
                f == shared(filter),
                poured::<F>(p, o.all@, range@, value@, f, ps.take(idx as int), self.all@),
                forall|e: KV| #[trigger]
                    o.all@.contains(e) && range@.has::<DbKey>(e.key) ==> ps.contains(
                        part_of(p, e.key),
                    ),
            ensures
                o == *old(self),
                self.registry == o.registry,
                self.wf(),
                same_index(&o, self),
                self.all@ == put_over_all::<DbKey, DbValue, F>(o.all@, range@, value@, f),
            decreases parts@.len() - idx,
        {
            let part = Self::nth_partition(&parts, idx);
            let ghost pk = part.part_key@;
            proof {
                assert(ps[idx as int] == pk);
                assert(ps.contains(pk));
            }
            if part.is_out_of_range(&range) {
                proof {
                    lemma_poured_rest::<F>(
                        p,
                        o.all@,
                        range@,
                        value@,
                        f,
                        ps,
                        idx as int,
                        self.all@,
                    );
                }
                break;
            }
            let ghost was = *self;
            match self.put_in_partition(&part, &range, value, f) {
                Ok(()) => {
                    proof {
                        lemma_same_trans(&o, &was, self);
                        lemma_poured_next::<F>(
                            p,
                            o.all@,
                            range@,
                            value@,
                            f,
                            ps,
                            idx as int,
                            was.all@,
                            self.all@,
                        );
                    }
                },
                Err(e) => {
                    proof {
                        lemma_same_trans(&o, &was, self);
                        if o.reliable() {
                            lemma_poured_partly::<F>(
                                p,
                                o.all@,
                                range@,
                                value@,
                                f,
                                ps,
                                idx as int,
                                was.all@,
                                self.all@,
                            );
                            if !self.exhausted() {
                                let m = choose|m: int|
                                    0 <= m < was.all@.len() && range@.has::<DbKey>(
                                        (#[trigger] was.all@[m]).key,
                                    ) && !was.storable(
                                        was.all@[m].key.len() as int,
                                        value@.len() as int,
                                    );
                                assert(o.all@[m].key == was.all@[m].key);
                                assert(was.storable(
                                    o.all@[m].key.len() as int,
                                    value@.len() as int,
                                ) == o.storable(
                                    o.all@[m].key.len() as int,
                                    value@.len() as int,
                                ));
                                assert(range@.has::<DbKey>(o.contents()[m].key) && !o.storable(
                                    o.contents()[m].key.len() as int,
                                    value@.len() as int,
                                ));
                            }
                        }
                    }
                    return Err(e);
                },
            }
            idx = idx + 1;
            proof {
                if idx == parts@.len() {
                    lemma_poured_rest::<F>(
                        p,
                        o.all@,
                        range@,
                        value@,
                        f,
                        ps,
                        idx as int,
                        self.all@,
                    );
                }
            }
        }
        Ok(())
    }
}

//==============================================================================
// Queries
//==============================================================================

/// Takes back the handle of a query on a sharded index.
fn to_sharded_query_handle<F, H: IndexQueryHandle<F>>(handle: H) -> (r: Result<
    ShardedQueryHandle<F>,
    BtreeError,
>)
    ensures
        r matches Ok(h) ==> handle.spec_into_any() == AnyQueryHandle::Sharded(h),
        r matches Err(e) ==> !(handle.spec_into_any() is Sharded) && e == BtreeError::Io(
            IoErrorKind::Other,
        ),
{
    match index_query_handle_into_any(handle) {
        AnyQueryHandle::Sharded(h) => Ok(h),
        AnyQueryHandle::Single(_) => Err(BtreeError::Io(IoErrorKind::Other)),
    }
}

/// The partition keys in the opposite order.
fn reversed(parts: &Vec<PartitionKey>) -> (r: Vec<PartitionKey>)
    ensures
        part_views(r@) == part_views(parts@).reverse(),
{
    let mut r: Vec<PartitionKey> = Vec::new();
    let mut n: usize = parts.len();
    while n > 0
        invariant
            n <= parts@.len(),
            r@.len() == parts@.len() - n,
            forall|j: int|
                0 <= j < r@.len() ==> (#[trigger] r@[j])@ == parts@[parts@.len() - 1 - j]@,
        decreases n,
    {
        n = n - 1;
        r.push(copy_part(&parts[n]));
    }
    proof {
        assert(part_views(r@) =~= part_views(parts@).reverse());
    }
    r
}

impl<F> ShardedQueryHandle<F> {
    pub open spec fn parts(&self) -> Seq<Seq<u8>> {
        part_views(self.partitions@)
    }

    /// What is left of the query in the current partition.
    pub open spec fn current_wf(&self) -> bool {
        self.cur_handle matches Some(h) ==> {
            &&& self.cur_part_idx < self.partitions@.len()
            &&& h.more
            &&& h.request.sweep_query ==> !h.request.reverse_order
            &&& 0 < h.request.batch_size <= self.batch_size
        }
    }

    /// The handle is one that an index with partition keys of `p` bytes can go on with.
    pub open spec fn fits_len(&self, p: nat) -> bool {
        &&& self.cur_part_idx <= self.partitions@.len()
        &&& forall|pk: Seq<u8>| #[trigger] self.parts().contains(pk) ==> is_part(p, pk)
        &&& self.current_wf()
    }

    /// Only the results and the progress differ.
    pub open spec fn same_query(&self, o: &Self) -> bool {
        &&& self.input_range == o.input_range
        &&& self.batch_size == o.batch_size
        &&& self.filter == o.filter
        &&& self.reverse == o.reverse
        &&& self.partitions == o.partitions
    }
}

impl<S: UnderlyingBtree> ShardedBtree<S> {
    /// The results of the partitions from the `i`-th on.
    pub open spec fn left_from<F: GetFilter<DbKey, DbValue>>(
        &self,
        h: &ShardedQueryHandle<F>,
        i: int,
    ) -> Seq<KV> {
        found_from(
            self.p(),
            self.all@,
            sought::<F>(h.input_range@, shared(h.filter)),
            h.reverse,
            h.parts(),
            i,
        )
    }

    /// The results of the batches that follow.
    pub open spec fn left_of<F: GetFilter<DbKey, DbValue>>(&self, h: &ShardedQueryHandle<F>) -> Seq<
        KV,
    > {
        match h.cur_handle {
            Some(c) => c.rest(
                self.shards@[shard_of(
                    self.shards@.len(),
                    h.partitions@[h.cur_part_idx as int]@,
                )]@,
            ) + self.left_from(h, h.cur_part_idx + 1),
            None => self.left_from(h, h.cur_part_idx as int),
        }
    }

    /// Goes on with the partitions that follow until the batch is full.
    fn fill_query_handle<F: GetFilter<DbKey, DbValue>>(&self, handle: &mut ShardedQueryHandle<F>) -> (r:
        Result<(), BtreeError>)
        requires
            self.wf(),
            old(handle).fits_len(self.p()),
            old(handle).cur_handle is None,
            old(handle).results@.len() <= old(handle).batch_size,
        ensures
            final(handle).same_query(old(handle)),
            r is Ok ==> {
                &&& final(handle).cur_handle matches Some(c) ==> c.request.sweep_query
                    == !final(handle).reverse
                &&& final(handle).fits_len(self.p())
                &&& final(handle).results@.len() <= final(handle).batch_size
                &&& final(handle).spec_has_more() ==> final(handle).results@.len()
                    == final(handle).batch_size
                &&& pairs(final(handle).results@) + self.left_of(final(handle)) == pairs(
                    old(handle).results@,
                ) + self.left_of(old(handle))
            },
            self.reliable() ==> r is Ok,
    {
        let ghost h0 = *handle;
        let ghost p = self.p();
        let ghost sel = sought::<F>(h0.input_range@, shared(h0.filter));
        while handle.cur_part_idx < handle.partitions.len() && (handle.results.len() as u32)
            < handle.batch_size
            invariant_except_break
                handle.cur_handle is None,
                pairs(handle.results@) + self.left_from(handle, handle.cur_part_idx as int)
                    == pairs(h0.results@) + self.left_of(&h0),
            invariant
                h0 == *old(handle),
                self.wf(),
                p == self.p(),
                handle.same_query(&h0),
                handle.fits_len(p),
                handle.results@.len() <= handle.batch_size,
                sel == sought::<F>(h0.input_range@, shared(h0.filter)),
            ensures
                handle.cur_handle matches Some(c) ==> c.request.sweep_query == !handle.reverse,
                handle.spec_has_more() ==> handle.results@.len() == handle.batch_size,
                pairs(handle.results@) + self.left_of(handle) == pairs(h0.results@) + self.left_of(
                    &h0,
                ),
            decreases handle.partitions@.len() - handle.cur_part_idx,
        {
            let ghost hw = *handle;
            let ghost c = handle.cur_part_idx as int;
            let part = Self::nth_partition(&handle.partitions, handle.cur_part_idx);
            let ghost pk = part.part_key@;
            proof {
                assert(handle.parts()[c] == pk);
                assert(handle.parts().contains(pk));
            }
            let i: usize = self.shard_from_part_key(&part.part_key);
            let this_range = clamp_range(&handle.input_range, &part, self.partition_key_len);
            let remaining: u32 = handle.batch_size - handle.results.len() as u32;
            let filter: Option<Arc<F>> = match &handle.filter {
                Some(f) => Some(Arc::clone(f)),
                None => None,
            };
            let reverse = handle.reverse;
            let ghost v = self.shards@[i as int]@;
            let ghost req = BtreeQueryRequest {
                working_range: this_range,
                batch_size: remaining,
                filter,
                reverse_order: reverse,
                sweep_query: !reverse,
            };
            proof {
                assert(shared(filter) == shared(h0.filter));
                lemma_scan(req, v);
                let s2 = sought::<F>(this_range@, shared(filter));
                assert forall|e: KV| #[trigger] s2(e) == within(p, pk, sel)(e) by {
                    assert(this_range@.has::<DbKey>(e.key) == (h0.input_range@.has::<DbKey>(e.key)
                        && part_of(p, e.key) == pk));
                }
                assert(s2 =~= within(p, pk, sel));
                assert(self.views()[i as int] == v);
                lemma_shard_found(p, self.all@, self.views(), i as int, pk, sel, reverse);
                assert(self.left_from(handle, c) == in_order(v, s2, reverse) + self.left_from(
                    handle,
                    c + 1,
                ));
            }
            let found = if reverse {
                self.shards[i].query_traversal(this_range, remaining, filter, reverse)
            } else {
                self.shards[i].query(this_range, remaining, filter)
            };
            let mut inner = match found {
                Ok(h) => h,
                Err(e) => {
                    return Err(e);
                },
            };
            let ghost got = inner.results@;
            handle.results.append(&mut inner.results);
            proof {
                assert(pairs(handle.results@) =~= pairs(hw.results@) + pairs(got));
            }
            if inner.has_more() {
                handle.cur_handle = Some(inner);
                proof {
                    assert(self.left_of(handle) == inner.rest(v) + self.left_from(&hw, c + 1));
                    assert(pairs(handle.results@) + self.left_of(handle) =~= pairs(hw.results@)
                        + self.left_from(&hw, c));
                }
                break;
            }
            handle.cur_part_idx = handle.cur_part_idx + 1;
            proof {
                assert(self.left_from(handle, c + 1) == self.left_from(&hw, c + 1));
                assert(pairs(handle.results@) + self.left_from(handle, c + 1) =~= pairs(hw.results@)
                    + self.left_from(&hw, c));
            }
        }
        Ok(())
    }
}

impl<S: UnderlyingBtree, F: GetFilter<DbKey, DbValue>> IndexQueries<F> for ShardedBtree<S> {
    open spec fn own(&self, h: &AnyQueryHandle<F>) -> bool {
        h is Sharded
    }

    open spec fn limit(&self, h: &AnyQueryHandle<F>) -> int {
        match h {
            AnyQueryHandle::Single(_) => 0,
            AnyQueryHandle::Sharded(h) => h.batch_size as int,
        }
    }

    open spec fn share(&self, h: &AnyQueryHandle<F>) -> int {
        match h {
            AnyQueryHandle::Single(_) => 0,
            AnyQueryHandle::Sharded(h) => match h.cur_handle {
                Some(c) => c.request.batch_size as int,
                None => h.batch_size as int,
            },
        }
    }

    open spec fn fits(&self, h: &AnyQueryHandle<F>) -> bool {
        h matches AnyQueryHandle::Sharded(h) && h.fits_len(self.p())
    }

    open spec fn left(&self, h: &AnyQueryHandle<F>) -> Seq<KV> {
        match h {
            AnyQueryHandle::Single(_) => Seq::empty(),
            AnyQueryHandle::Sharded(h) => self.left_of(h),
        }
    }

    fn query(
        &self,
        range: BtreeKeyRange<DbKey>,
        batch_size: u32,
        filter: Option<Arc<F>>,
        reverse: bool,
    ) -> (r: Result<AnyQueryHandle<F>, BtreeError>)
        ensures
            r matches Ok(h) ==> h matches AnyQueryHandle::Sharded(h) && {
                &&& h.input_range == range
                &&& h.filter == filter
                &&& h.reverse == reverse
                &&& h.cur_handle matches Some(c) ==> c.request.sweep_query == !reverse
                &&& visited(h.parts(), reverse)
                &&& forall|pk: Seq<u8>| #[trigger]
                    h.parts().contains(pk) == (self.registry@.contains_key(pk) && !lex_lt(
                        pk,
                        part_of(self.p(), range.start_key@),
                    ) && !lex_lt(part_of(self.p(), range.end_key@), pk))
            },
    {
        let start_part = self.get_part_key(&range.start_key);
        let end_part = self.get_part_key(&range.end_key);
        let mut partitions = self.registry.active_partitions_in_range(&start_part, &end_part);
        let ghost ps = part_views(partitions@);
        if reverse {
            partitions = reversed(&partitions);
        }
        let ghost p = self.p();
        let ghost sel = sought::<F>(range@, shared(filter));
        let ghost qs = part_views(partitions@);
        proof {
            assert forall|pk: Seq<u8>| #[trigger] qs.contains(pk) == ps.contains(pk) by {
                if reverse {
                    if qs.contains(pk) {
                        let j = choose|j: int| 0 <= j < qs.len() && qs[j] == pk;
                        assert(ps[ps.len() - 1 - j] == pk);
                    }
                    if ps.contains(pk) {
                        let j = choose|j: int| 0 <= j < ps.len() && ps[j] == pk;
                        assert(qs[ps.len() - 1 - j] == pk);
                    }
                }
            }
            lemma_found_from(p, self.all@, sel, reverse, qs, 0);
            assert(qs.skip(0) =~= qs);
            assert forall|e: KV| #[trigger] self.all@.contains(e) implies taken(p, qs, sel)(e)
                == sel(e) by {
                if sel(e) {
                    lemma_range_parts(p, range@, e.key);
                    assert(ps.contains(part_of(p, e.key)));
                    assert(qs.contains(part_of(p, e.key)));
                }
            }
            lemma_filter_same(self.all@, taken(p, qs, sel), sel);
            assert forall|pk: Seq<u8>| #[trigger] qs.contains(pk) implies is_part(p, pk) by {
                assert(ps.contains(pk));
            }
        }
        let mut handle = ShardedQueryHandle {
            results: Vec::new(),
            input_range: range,
            batch_size,
            filter,
            reverse,
            partitions,
            cur_part_idx: 0,
            cur_handle: None,
        };
        let ghost h0 = handle;
        proof {
            assert(pairs(h0.results@) + self.left_of(&h0) =~= self.left_of(&h0));
        }
        match self.fill_query_handle(&mut handle) {
            Ok(()) => Ok(AnyQueryHandle::Sharded(handle)),
            Err(e) => Err(e),
        }
    }

    fn query_next_batch<H: IndexQueryHandle<F>>(&self, handle: H) -> (r: Result<
        AnyQueryHandle<F>,
        BtreeError,
    >)
        ensures
            r matches Ok(n) ==> n matches AnyQueryHandle::Sharded(n)
                && handle.spec_into_any() matches AnyQueryHandle::Sharded(h) && {
                &&& n.same_query(&h)
                &&& (h.cur_handle matches Some(c) ==> c.request.sweep_query == !h.reverse) ==> (
                n.cur_handle matches Some(c) ==> c.request.sweep_query == !h.reverse)
            },
    {
        let mut h = match to_sharded_query_handle(handle) {
            Ok(h) => h,
            Err(e) => {
                return Err(e);
            },
        };
        let ghost h0 = h;
        h.results = Vec::new();
        match h.cur_handle.take() {
            Some(inner) => {
                let i: usize = self.shard_from_part_key(&h.partitions[h.cur_part_idx]);
                let ghost v = self.shards@[i as int]@;
                let ghost c = h.cur_part_idx as int;
                let mut next = match self.shards[i].query_next_batch(inner) {
                    Ok(n) => n,
                    Err(e) => {
                        return Err(e);
                    },
                };
                let ghost got = next.results@;
                h.results.append(&mut next.results);
                proof {
                    assert(h.results@ =~= got);
                }
                if next.has_more() {
                    h.cur_handle = Some(next);
                    proof {
                        assert(self.left_of(&h) == next.rest(v) + self.left_from(&h0, c + 1));
                        assert(pairs(got) + self.left_of(&h) =~= self.left_of(&h0));
                    }
                    return Ok(AnyQueryHandle::Sharded(h));
                }
                assert(h.cur_part_idx < h.partitions.len());
                h.cur_part_idx = h.cur_part_idx + 1;
                proof {
                    assert(self.left_of(&h) == self.left_from(&h0, c + 1));
                    assert(pairs(h.results@) + self.left_of(&h) =~= self.left_of(&h0));
                }
            },
            None => {
                proof {
                    assert(self.left_of(&h) == self.left_of(&h0));
                    assert(pairs(h.results@) + self.left_of(&h) =~= self.left_of(&h0));
                }
            },
        }
        match self.fill_query_handle(&mut h) {
            Ok(()) => Ok(AnyQueryHandle::Sharded(h)),
            Err(e) => Err(e),
        }
    }
}

} // verus!