//! Iteration over the results of a range query.

use vstd::prelude::*;
use vstd::string::StringExecFns;
use crate::btree_index::{
    found, AnyQueryHandle, BtreeIndex, IndexModel, IndexQueries, IndexQueryHandle,
};
use crate::btree_req::{copy_key, copy_value, pairs, AcceptAll, BtreeKeyRange, RangeView};
use crate::bytes::copy_vec;
use crate::db_kv::{DbKey, DbValue};
use crate::schema::{failed_tree, of_tree, HomeDbError, KeySpec};
use crate::tree_model::KV;

verus! {

/// Keys and values as plain bytes.
pub open spec fn byte_pairs(s: Seq<(Vec<u8>, Vec<u8>)>) -> Seq<KV> {
    Seq::new(s.len(), |i: int| KV { key: s[i].0@, val: s[i].1@ })
}

/// A key and a value as plain bytes.
pub open spec fn byte_pair(e: Option<(Vec<u8>, Vec<u8>)>) -> Option<KV> {
    match e {
        Some(e) => Some(KV { key: e.0@, val: e.1@ }),
        None => None,
    }
}

/// A copy of query results.
fn copy_results(results: &Vec<(DbKey, DbValue)>) -> (r: Vec<(DbKey, DbValue)>)
    ensures
        r@.len() == results@.len(),
        pairs(r@) == pairs(results@),
{
    let mut r: Vec<(DbKey, DbValue)> = Vec::new();
    let mut i: usize = 0;
    while i < results.len()
        invariant
            i <= results@.len(),
            r@.len() == i,
            forall|j: int|
                0 <= j < i ==> (#[trigger] r@[j]).0@ == results@[j].0@ && r@[j].1@
                    == results@[j].1@,
        decreases results@.len() - i,
    {
        r.push((copy_key(&results[i].0), copy_value(&results[i].1)));
        i = i + 1;
    }
    proof {
        assert(pairs(r@) =~= pairs(results@));
    }
    r
}

/// Returns the results of a range query one by one, and fetches batch after batch.
pub struct RangeIterator<'a, I> {
    pub index: &'a I,
    /// What is needed to fetch the next batch, if there is one.
    pub handle: Option<AnyQueryHandle<AcceptAll>>,
    pub current_batch: Vec<(DbKey, DbValue)>,
    /// How many results of the batch have been returned.
    pub cursor: usize,
    pub start_key: Vec<u8>,
    pub end_key: Vec<u8>,
    pub batch_size: u32,
    pub reverse: bool,
    pub key_spec: KeySpec,
    /// The batches that have been fetched, the first one included.
    pub batches: Ghost<Seq<Seq<KV>>>,
}

impl<'a, I: IndexQueries<AcceptAll>> RangeIterator<'a, I> {
    pub open spec fn wf(&self) -> bool {
        &&& self.index.wf()
        &&& self.cursor <= self.current_batch@.len()
        &&& self.handle matches Some(h) ==> self.index.own(&h) && self.index.fits(&h)
            && h.spec_has_more() && self.index.limit(&h) > 0
        &&& self.batches@.len() > 0
    }

    /// What has not been returned yet of the current batch.
    pub open spec fn unread(&self) -> Seq<KV> {
        pairs(self.current_batch@).skip(self.cursor as int)
    }

    /// The next call has to fetch a batch.
    pub open spec fn at_end_of_batch(&self) -> bool {
        self.unread().len() == 0 && self.handle is Some
    }

    /// From `o` on, the iterator has returned `e`. One batch has been fetched where the batch had
    /// been read to its end and another one followed, and none otherwise.
    pub open spec fn advanced(&self, o: &Self, e: Option<KV>) -> bool {
        let u = if o.at_end_of_batch() {
            self.batches@.last()
        } else {
            o.unread()
        };
        &&& if o.at_end_of_batch() {
            &&& self.batches@ == o.batches@.push(u)
            &&& o.rest() == u + match self.handle {
                Some(h) => self.index.left(&h),
                None => Seq::empty(),
            }
        } else {
            self.batches == o.batches && self.handle == o.handle
        }
        &&& match e {
            Some(e) => u.len() > 0 && e == u[0] && self.unread() == u.skip(1),
            None => u.len() == 0 && self.unread().len() == 0 && self.handle is None,
        }
    }

    /// The results that are still to come.
    pub open spec fn rest(&self) -> Seq<KV> {
        pairs(self.current_batch@).skip(self.cursor as int) + match self.handle {
            Some(h) => self.index.left(&h),
            None => Seq::empty(),
        }
    }

    /// The iterators differ in nothing but how far they have come.
    pub open spec fn same_range(&self, o: &Self) -> bool {
        &&& self.index == o.index
        &&& self.start_key == o.start_key
        &&& self.end_key == o.end_key
        &&& self.batch_size == o.batch_size
        &&& self.reverse == o.reverse
        &&& self.key_spec == o.key_spec
    }

    /// Where a search for a key looks: up to the key, itself included, when the order is reversed,
    /// and else from the key on.
    pub open spec fn seek_range(&self, key: Seq<u8>) -> RangeView {
        if self.reverse {
            RangeView { start: self.start_key@, start_incl: true, end: key, end_incl: true }
        } else {
            RangeView { start: key, start_incl: true, end: self.end_key@, end_incl: false }
        }
    }

    /// Starts with the first batch of a query. Empty batches lead nowhere: nothing follows them.
    pub fn new(
        index: &'a I,
        handle: AnyQueryHandle<AcceptAll>,
        start_key: Vec<u8>,
        end_key: Vec<u8>,
        batch_size: u32,
        reverse: bool,
        key_spec: KeySpec,
    ) -> (r: Self)
        requires
            index.wf(),
            index.own(&handle),
            index.fits(&handle),
            index.limit(&handle) == batch_size,
            !handle.spec_has_more() ==> index.left(&handle) == Seq::<KV>::empty(),
        ensures
            r.wf(),
            r.rest() == pairs(handle.spec_results()) + if batch_size > 0 {
                index.left(&handle)
            } else {
                Seq::empty()
            },
            r.index == index,
            r.start_key == start_key,
            r.end_key == end_key,
            r.batch_size == batch_size,
            r.reverse == reverse,
            r.key_spec == key_spec,
            r.batches@ == seq![pairs(handle.spec_results())],
            r.unread() == r.batches@[0],
    {
        let results = copy_results(handle.results());
        let ghost first = seq![pairs(results@)];
        let has_more = handle.has_more();
        let r = RangeIterator {
            index,
            handle: if has_more && batch_size > 0 {
                Some(handle)
            } else {
                None
            },
            current_batch: results,
            cursor: 0,
            start_key,
            end_key,
            batch_size,
            reverse,
            key_spec,
            batches: Ghost(first),
        };
        proof {
            assert(pairs(r.current_batch@).skip(0) =~= pairs(r.current_batch@));
        }
        r
    }

    /// The next result.
    pub fn next(&mut self) -> (r: Result<Option<(Vec<u8>, Vec<u8>)>, HomeDbError>)
        requires
            old(self).wf(),
        ensures
            final(self).wf(),
            final(self).same_range(old(self)),
            r matches Ok(e) ==> {
                &&& e is Some == (old(self).rest().len() > 0)
                &&& e is Some ==> byte_pair(e) == Some(old(self).rest()[0]) && final(self).rest()
                    == old(self).rest().skip(1)
                &&& e is None ==> final(self).rest().len() == 0
                &&& final(self).advanced(old(self), byte_pair(e))
            },
            r matches Err(e) ==> of_tree(e) && final(self).rest().len() == 0 && old(
                self,
            ).at_end_of_batch(),
            old(self).index.reliable() ==> r is Ok,
    {
        let ghost o = *self;
        loop
            invariant
                o == *old(self),
                *self == o || {
                    &&& o.at_end_of_batch()
                    &&& self.batches@ == o.batches@.push(self.unread())
                    &&& o.rest() == self.rest()
                    &&& self.cursor == 0
                    &&& self.handle is Some ==> self.current_batch@.len() > 0
                },
                self.wf(),
                self.same_range(&o),
                self.rest() == o.rest(),
            decreases
                (if self.cursor < self.current_batch@.len() {
                    0int
                } else if self.handle is Some {
                    2
                } else {
                    1
                }),
        {
            let ghost w = *self;
            if self.cursor < self.current_batch.len() {
                let e = &self.current_batch[self.cursor];
                let result = (copy_vec(e.0.as_bytes()), copy_vec(e.1.as_bytes()));
                self.cursor = self.cursor + 1;
                proof {
                    let b = pairs(w.current_batch@);
                    let c = w.cursor as int;
                    assert(w.rest()[0] == b.skip(c)[0]);
                    assert(b.skip(c)[0] == b[c]);
                    assert(self.rest() =~= w.rest().skip(1));
                    assert(self.unread() =~= w.unread().skip(1));
                    assert(w.unread().len() > 0 && w.unread()[0] == b[c]);
                }
                return Ok(Some(result));
            }
            self.current_batch = Vec::new();
            self.cursor = 0;
            match self.handle.take() {
                Some(h) => {
                    match self.index.query_next_batch(h) {
                        Ok(next_handle) => {
                            self.current_batch = copy_results(next_handle.results());
                            let has_more = next_handle.has_more();
                            self.handle = if has_more {
                                Some(next_handle)
                            } else {
                                None
                            };
                            self.batches = Ghost(self.batches@.push(self.unread()));
                            proof {
                                assert(pairs(w.current_batch@).skip(w.cursor as int) =~= Seq::<
                                    KV,
                                >::empty());
                                assert(w.rest() =~= w.index.left(&h));
                                assert(pairs(self.current_batch@).skip(0) =~= pairs(
                                    next_handle.spec_results(),
                                ));
                                assert(self.rest() =~= w.rest());
                            }
                        },
                        Err(e) => {
                            return Err(failed_tree(e));
                        },
                    }
                },
                None => {
                    return Ok(None);
                },
            }
        }
    }

    /// All results that are still to come.
    pub fn collect(self) -> (r: Result<Vec<(Vec<u8>, Vec<u8>)>, HomeDbError>)
        requires
            self.wf(),
        ensures
            r matches Ok(v) ==> byte_pairs(v@) == self.rest(),
            r matches Err(e) ==> of_tree(e),
            self.index.reliable() ==> r is Ok,
    {
        let mut it = self;
        let mut results: Vec<(Vec<u8>, Vec<u8>)> = Vec::new();
        loop
            invariant
                it.wf(),
                it.index == self.index,
                byte_pairs(results@) + it.rest() == self.rest(),
            decreases it.rest().len(),
        {
            let ghost w = it.rest();
            let ghost done = byte_pairs(results@);
            match it.next() {
                Ok(Some(item)) => {
                    results.push(item);
                    proof {
                        assert(byte_pairs(results@) =~= done.push(w[0]));
                        assert(byte_pairs(results@) + it.rest() =~= done + w);
                    }
                },
                Ok(None) => {
                    proof {
                        assert(byte_pairs(results@) =~= self.rest());
                    }
                    return Ok(results);
                },
                Err(e) => {
                    return Err(e);
                },
            }
        }
    }

    /// Goes to a key, wherever the iterator stands, and says whether anything follows. In reversed
    /// order the key is the first to be returned, if it is there.
    pub fn seek(&mut self, key: &Vec<u8>) -> (r: Result<bool, HomeDbError>)
        requires
            old(self).wf(),
        ensures
            final(self).wf(),
            final(self).same_range(old(self)),
            final(self).batches@ == seq![final(self).unread()],
            r matches Ok(b) ==> {
                &&& b == (final(self).rest().len() > 0)
                &&& final(self).rest() == if old(self).batch_size > 0 {
                    found::<AcceptAll>(
                        old(self).index.contents(),
                        old(self).seek_range(key@),
                        None,
                        old(self).reverse,
                    )
                } else {
                    Seq::empty()
                }
            },
            r matches Err(e) ==> of_tree(e) && final(self).rest().len() == 0,
            old(self).index.reliable() ==> r is Ok,
    {
        self.handle = None;
        self.current_batch = Vec::new();
        self.cursor = 0;
        let ghost first = seq![self.unread()];
        self.batches = Ghost(first);
        let (range_start, range_end) = if self.reverse {
            (
                DbKey::new(copy_vec(&self.start_key), &self.key_spec),
                DbKey::new(copy_vec(key), &self.key_spec),
            )
        } else {
            (
                DbKey::new(copy_vec(key), &self.key_spec),
                DbKey::new(copy_vec(&self.end_key), &self.key_spec),
            )
        };
        let range = BtreeKeyRange::new(range_start, true, range_end, self.reverse);
        proof {
            assert(range@ =~= self.seek_range(key@));
            assert(pairs(self.current_batch@).skip(0) =~= Seq::<KV>::empty());
        }
        match self.index.query(range, self.batch_size, None, self.reverse) {
            Ok(new_handle) => {
                proof {
                    assert(pairs(new_handle.spec_results()).len()
                        == new_handle.spec_results().len());
                }
                if new_handle.results().len() == 0 {
                    proof {
                        if self.batch_size > 0 {
                            assert(pairs(new_handle.spec_results()) + self.index.left(&new_handle)
                                =~= Seq::<KV>::empty());
                        }
                    }
                    return Ok(false);
                }
                self.current_batch = copy_results(new_handle.results());
                let ghost first = seq![self.unread()];
                self.batches = Ghost(first);
                let has_more = new_handle.has_more();
                self.handle = if has_more {
                    Some(new_handle)
                } else {
                    None
                };
                proof {
                    assert(pairs(self.current_batch@).skip(0) =~= pairs(new_handle.spec_results()));
                }
                Ok(true)
            },
            Err(e) => Err(failed_tree(e)),
        }
    }

    /// Goes back to a key, in reversed order only.
    pub fn seek_for_prev(&mut self, key: &Vec<u8>) -> (r: Result<bool, HomeDbError>)
        requires
            old(self).wf(),
        ensures
            final(self).wf(),
            final(self).same_range(old(self)),
            !old(self).reverse ==> *final(self) == *old(self) && (r matches Err(
                HomeDbError::InvalidOperation(s),
            ) && s@ == "seek_for_prev only valid for reverse iterators"@),
            old(self).reverse ==> {
                &&& final(self).batches@ == seq![final(self).unread()]
                &&& r matches Ok(b) ==> {
                    &&& b == (final(self).rest().len() > 0)
                    &&& final(self).rest() == if old(self).batch_size > 0 {
                        found::<AcceptAll>(
                            old(self).index.contents(),
                            old(self).seek_range(key@),
                            None,
                            true,
                        )
                    } else {
                        Seq::empty()
                    }
                }
                &&& r matches Err(e) ==> of_tree(e) && final(self).rest().len() == 0
                &&& old(self).index.reliable() ==> r is Ok
            },
    {
        if !self.reverse {
            return Err(
                HomeDbError::InvalidOperation(
                    String::from_str("seek_for_prev only valid for reverse iterators"),
                ),
            );
        }
        self.seek(key)
    }
}

} // verus!
