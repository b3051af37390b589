//! The partitions that have entries.

use vstd::prelude::*;
use crate::db_kv::{lemma_lex_irreflexive, lemma_lex_total, lemma_lex_transitive, lex_lt};
use crate::partition::{copy_part, part_less, PartitionKey};

verus! {

/// What is known of a partition.
#[derive(Debug, Clone, Copy)]
pub struct PartitionEntry {
    /// How many entries the partition has. The largest number stands for an unknown one.
    pub entry_count: i64,
}

/// The partitions that have entries, in order.
pub struct Registry {
    pub entries: Vec<(PartitionKey, PartitionEntry)>,
}

/// Byte strings that are strictly increasing.
pub open spec fn increasing(s: Seq<Seq<u8>>) -> bool {
    forall|i: int, j: int| 0 <= i < j < s.len() ==> lex_lt(#[trigger] s[i], #[trigger] s[j])
}

/// The bytes of partition keys.
pub open spec fn part_views(s: Seq<PartitionKey>) -> Seq<Seq<u8>> {
    Seq::new(s.len(), |i: int| s[i]@)
}

/// The counts by partition.
impl View for Registry {
    type V = Map<Seq<u8>, i64>;

    open spec fn view(&self) -> Map<Seq<u8>, i64> {
        Map::new(
            |pk: Seq<u8>| self.keys().contains(pk),
            |pk: Seq<u8>| self.entries@[self.keys().index_of(pk)].1.entry_count,
        )
    }
}

impl Registry {
    pub open spec fn keys(&self) -> Seq<Seq<u8>> {
        Seq::new(self.entries@.len(), |i: int| self.entries@[i].0@)
    }

    pub open spec fn wf(&self) -> bool {
        &&& increasing(self.keys())
        &&& forall|i: int|
            0 <= i < self.entries@.len() ==> (#[trigger] self.entries@[i]).1.entry_count > 0
    }

    /// What stands at a place.
    proof fn lemma_entry(&self, i: int)
        requires
            self.wf(),
            0 <= i < self.entries@.len(),
        ensures
            self@.contains_key(self.entries@[i].0@),
            self@[self.entries@[i].0@] == self.entries@[i].1.entry_count,
    {
        let ks = self.keys();
        let pk = self.entries@[i].0@;
        assert(ks[i] == pk);
        assert(ks.contains(pk));
        let j = ks.index_of(pk);
        assert(ks[j] == pk);
        lemma_lex_irreflexive(pk);
        if i < j {
            assert(lex_lt(ks[i], ks[j]));
        } else if j < i {
            assert(lex_lt(ks[j], ks[i]));
        }
    }

    /// A registry without partitions.
    pub fn new() -> (r: Self)
        ensures
            r.wf(),
            r@ == Map::<Seq<u8>, i64>::empty(),
    {
        let r = Registry { entries: Vec::new() };
        proof {
            assert(r@ =~= Map::<Seq<u8>, i64>::empty());
        }
        r
    }

    /// Where the partition stands, or would stand.
    fn find(&self, pk: &PartitionKey) -> (r: (usize, bool))
        requires
            self.wf(),
        ensures
            r.0 <= self.entries@.len(),
            r.1 == self@.contains_key(pk@),
            r.1 ==> r.0 < self.entries@.len() && self.entries@[r.0 as int].0@ == pk@,
            forall|j: int| 0 <= j < r.0 ==> lex_lt((#[trigger] self.entries@[j]).0@, pk@),
            !r.1 ==> forall|j: int|
                r.0 <= j < self.entries@.len() ==> lex_lt(pk@, (#[trigger] self.entries@[j]).0@),
            r.1 ==> forall|j: int|
                r.0 < j < self.entries@.len() ==> lex_lt(pk@, (#[trigger] self.entries@[j]).0@),
    {
        let ghost ks = self.keys();
        let mut lo: usize = 0;
        let mut hi: usize = self.entries.len();
        while lo < hi
            invariant
                lo <= hi <= self.entries@.len(),
                increasing(ks),
                ks == self.keys(),
                forall|j: int| 0 <= j < lo ==> lex_lt((#[trigger] self.entries@[j]).0@, pk@),
                forall|j: int|
                    hi <= j < self.entries@.len() ==> !lex_lt(
                        (#[trigger] self.entries@[j]).0@,
                        pk@,
                    ),
            decreases hi - lo,
        {
            let mid: usize = lo + (hi - lo) / 2;
            let less = part_less(&self.entries[mid].0, pk);
            proof {
                assert(ks[mid as int] == self.entries@[mid as int].0@);
                assert forall|j: int| 0 <= j <= mid && less implies lex_lt(
                    (#[trigger] self.entries@[j]).0@,
                    pk@,
                ) by {
                    assert(ks[j] == self.entries@[j].0@);
                    if j < mid {
                        assert(lex_lt(ks[j], ks[mid as int]));
                        lemma_lex_transitive(ks[j], ks[mid as int], pk@);
                    }
                }
                assert forall|j: int| mid <= j < self.entries@.len() && !less implies !lex_lt(
                    (#[trigger] self.entries@[j]).0@,
                    pk@,
                ) by {
                    assert(ks[j] == self.entries@[j].0@);
                    if mid < j {
                        assert(lex_lt(ks[mid as int], ks[j]));
                        if lex_lt(ks[j], pk@) {
                            lemma_lex_transitive(ks[mid as int], ks[j], pk@);
                        }
                    }
                }
            }
            if less {
                lo = mid + 1;
            } else {
                hi = mid;
            }
        }
        let found = lo < self.entries.len() && !part_less(pk, &self.entries[lo].0);
        proof {
            if found {
                lemma_lex_total(self.entries@[lo as int].0@, pk@);
                self.lemma_entry(lo as int);
            }
            assert forall|j: int|
                lo <= j < self.entries@.len() && (found ==> lo < j) implies lex_lt(
                pk@,
                (#[trigger] self.entries@[j]).0@,
            ) by {
                assert(ks[j] == self.entries@[j].0@);
                assert(ks[lo as int] == self.entries@[lo as int].0@);
                if lo < j {
                    assert(lex_lt(ks[lo as int], ks[j]));
                    if !found {
                        lemma_lex_transitive(pk@, ks[lo as int], ks[j]);
                    }
                }
            }
            if !found && ks.contains(pk@) {
                let j = choose|j: int| 0 <= j < ks.len() && ks[j] == pk@;
                assert(self.entries@[j].0@ == pk@);
                lemma_lex_irreflexive(pk@);
            }
        }
        (lo, found)
    }

    /// What a registry holds in terms of its entries.
    proof fn lemma_view(&self, m: Map<Seq<u8>, i64>)
        requires
            self.wf(),
            forall|i: int|
                0 <= i < self.entries@.len() ==> m.contains_key(
                    (#[trigger] self.entries@[i]).0@,
                ) && m[self.entries@[i].0@] == self.entries@[i].1.entry_count,
            forall|pk: Seq<u8>| #[trigger] m.contains_key(pk) ==> self.keys().contains(pk),
        ensures
            self@ == m,
    {
        assert forall|pk: Seq<u8>| #[trigger] self@.contains_key(pk) == m.contains_key(pk) by {
            if self.keys().contains(pk) {
                let i = choose|i: int| 0 <= i < self.keys().len() && self.keys()[i] == pk;
                assert(self.entries@[i].0@ == pk);
            }
        }
        assert forall|pk: Seq<u8>| #[trigger] self@.contains_key(pk) implies self@[pk] == m[pk] by {
            let i = choose|i: int| 0 <= i < self.keys().len() && self.keys()[i] == pk;
            assert(self.entries@[i].0@ == pk);
            self.lemma_entry(i);
        }
        assert(self@ =~= m);
    }

    /// Counts an entry that has come into a partition.
    pub fn get_or_create_entry(&mut self, pk: &PartitionKey)
        requires
            old(self).wf(),
        ensures
            final(self).wf(),
            final(self)@ == old(self)@.insert(
                pk@,
                if !old(self)@.contains_key(pk@) {
                    1
                } else if old(self)@[pk@] < i64::MAX {
                    (old(self)@[pk@] + 1) as i64
                } else {
                    i64::MAX
                },
            ),
    {
        let ghost was = *self;
        let (i, found) = self.find(pk);
        if found {
            let c: i64 = self.entries[i].1.entry_count;
            proof {
                was.lemma_entry(i as int);
            }
            if c < i64::MAX {
                self.set_count(i, c + 1);
            } else {
                proof {
                    assert(was@.insert(pk@, i64::MAX) =~= was@);
                }
            }
        } else {
            self.entries.insert(i, (copy_part(pk), PartitionEntry { entry_count: 1 }));
            proof {
                let ks = self.keys();
                let e0 = was.entries@;
                let e1 = self.entries@;
                assert forall|a: int, b: int| 0 <= a < b < ks.len() implies lex_lt(
                    #[trigger] ks[a],
                    #[trigger] ks[b],
                ) by {
                    let a0 = if a < i { a } else { a - 1 };
                    let b0 = if b < i { b } else { b - 1 };
                    if a != i {
                        assert(e1[a] == e0[a0]);
                        assert(was.keys()[a0] == ks[a]);
                    }
                    if b != i {
                        assert(e1[b] == e0[b0]);
                        assert(was.keys()[b0] == ks[b]);
                    }
                }
                assert forall|a: int| 0 <= a < e1.len() implies (
                #[trigger] e1[a]).1.entry_count > 0 by {
                    if a != i {
                        assert(e1[a] == e0[if a < i { a } else { a - 1 }]);
                    }
                }
                let m = was@.insert(pk@, 1);
                assert forall|a: int| 0 <= a < e1.len() implies m.contains_key(
                    (#[trigger] e1[a]).0@,
                ) && m[e1[a].0@] == e1[a].1.entry_count by {
                    if a != i {
                        let a0 = if a < i { a } else { a - 1 };
                        assert(e1[a] == e0[a0]);
                        was.lemma_entry(a0);
                        lemma_lex_irreflexive(pk@);
                    }
                }
                assert forall|q: Seq<u8>| #[trigger] m.contains_key(q) implies ks.contains(q) by {
                    if q == pk@ {
                        assert(ks[i as int] == q);
                    } else {
                        let a0 = choose|a: int| 0 <= a < was.keys().len() && was.keys()[a] == q;
                        let a = if a0 < i { a0 } else { a0 + 1 };
                        assert(e1[a] == e0[a0]);
                        assert(ks[a] == q);
                    }
                }
                self.lemma_view(m);
            }
        }
    }

    fn set_count(&mut self, i: usize, c: i64)
        requires
            old(self).wf(),
            i < old(self).entries@.len(),
            c > 0,
        ensures
            final(self).wf(),
            final(self)@ == old(self)@.insert(old(self).entries@[i as int].0@, c),
    {
        let ghost was = *self;
        let pk = copy_part(&self.entries[i].0);
        self.entries.set(i, (pk, PartitionEntry { entry_count: c }));
        proof {
            assert(self.keys() =~= was.keys());
            let pk = was.entries@[i as int].0@;
            let m = was@.insert(pk, c);
            assert forall|a: int| 0 <= a < self.entries@.len() implies m.contains_key(
                (#[trigger] self.entries@[a]).0@,
            ) && m[self.entries@[a].0@] == self.entries@[a].1.entry_count by {
                if a != i {
                    was.lemma_entry(a);
                    lemma_lex_irreflexive(pk);
                    assert(was.keys()[a] == was.entries@[a].0@);
                    assert(was.keys()[i as int] == pk);
                    if a < i {
                        assert(lex_lt(was.keys()[a], was.keys()[i as int]));
                    } else {
                        assert(lex_lt(was.keys()[i as int], was.keys()[a]));
                    }
                }
            }
            assert forall|q: Seq<u8>| #[trigger] m.contains_key(q) implies self.keys().contains(
                q,
            ) by {
                if q == pk {
                    assert(self.keys()[i as int] == q);
                }
            }
            self.lemma_view(m);
        }
    }

    /// Counts entries that have left a partition, and forgets it when it has none left.
    pub fn decrement_and_cleanup(&mut self, pk: &PartitionKey, count: u32)
        requires
            old(self).wf(),
        ensures
            final(self).wf(),
            final(self)@ == if !old(self)@.contains_key(pk@) || old(self)@[pk@] == i64::MAX {
                old(self)@
            } else if old(self)@[pk@] <= count {
                old(self)@.remove(pk@)
            } else {
                old(self)@.insert(pk@, (old(self)@[pk@] - count) as i64)
            },
    {
        let ghost was = *self;
        let (i, found) = self.find(pk);
        if !found {
            return;
        }
        proof {
            was.lemma_entry(i as int);
        }
        let c: i64 = self.entries[i].1.entry_count;
        if c == i64::MAX {
            return;
        }
        if c > count as i64 {
            self.set_count(i, c - count as i64);
            return;
        }
        let _ = self.entries.remove(i);
        proof {
            let ks = self.keys();
            let e0 = was.entries@;
            let e1 = self.entries@;
            assert forall|a: int| 0 <= a < e1.len() implies #[trigger] e1[a] == e0[if a < i {
                a
            } else {
                a + 1
            }] by {}
            assert forall|a: int, b: int| 0 <= a < b < ks.len() implies lex_lt(
                #[trigger] ks[a],
                #[trigger] ks[b],
            ) by {
                let a0 = if a < i { a } else { a + 1 };
                let b0 = if b < i { b } else { b + 1 };
                assert(was.keys()[a0] == ks[a]);
                assert(was.keys()[b0] == ks[b]);
            }
            let m = was@.remove(pk@);
            assert forall|a: int| 0 <= a < e1.len() implies m.contains_key(
                (#[trigger] e1[a]).0@,
            ) && m[e1[a].0@] == e1[a].1.entry_count by {
                let a0 = if a < i { a } else { a + 1 };
                was.lemma_entry(a0);
                lemma_lex_irreflexive(pk@);
                assert(was.keys()[a0] == e1[a].0@);
                assert(was.keys()[i as int] == pk@);
                if a0 < i {
                    assert(lex_lt(was.keys()[a0], was.keys()[i as int]));
                } else {
                    assert(lex_lt(was.keys()[i as int], was.keys()[a0]));
                }
            }
            assert forall|q: Seq<u8>| #[trigger] m.contains_key(q) implies ks.contains(q) by {
                let a0 = choose|a: int| 0 <= a < was.keys().len() && was.keys()[a] == q;
                assert(was.entries@[a0].0@ == q);
                let a = if a0 < i { a0 } else { a0 - 1 };
                assert(ks[a] == q);
            }
            self.lemma_view(m);
        }
    }

    /// Gives up the count of a partition.
    pub fn lose_count(&mut self, pk: &PartitionKey)
        requires
            old(self).wf(),
        ensures
            final(self).wf(),
            final(self)@ == if old(self)@.contains_key(pk@) {
                old(self)@.insert(pk@, i64::MAX)
            } else {
                old(self)@
            },
    {
        let (i, found) = self.find(pk);
        if found {
            self.set_count(i, i64::MAX);
        }
    }

    /// The partitions from the first one to the second one, both included.
    pub fn active_partitions_in_range(
        &self,
        start_part_key: &PartitionKey,
        end_part_key: &PartitionKey,
    ) -> (r: Vec<PartitionKey>)
        requires
            self.wf(),
        ensures
            increasing(part_views(r@)),
            forall|pk: Seq<u8>| #[trigger]
                part_views(r@).contains(pk) == (self@.contains_key(pk) && !lex_lt(
                    pk,
                    start_part_key@,
                ) && !lex_lt(end_part_key@, pk)),
    {
        let ghost ks = self.keys();
        let (from, _) = self.find(start_part_key);
        let mut r: Vec<PartitionKey> = Vec::new();
        let mut i: usize = from;
        while i < self.entries.len() && !part_less(end_part_key, &self.entries[i].0)
            invariant
                from <= i <= self.entries@.len(),
                ks == self.keys(),
                increasing(ks),
                part_views(r@) == ks.subrange(from as int, i as int),
                forall|j: int|
                    from <= j < i ==> !lex_lt(end_part_key@, (#[trigger] self.entries@[j]).0@),
            decreases self.entries@.len() - i,
        {
            let ghost r0 = r@;
            r.push(copy_part(&self.entries[i].0));
            i = i + 1;
            proof {
                assert(part_views(r@) =~= part_views(r0).push(ks[i - 1]));
                assert(part_views(r@) =~= ks.subrange(from as int, i as int));
            }
        }
        proof {
            let v = part_views(r@);
            assert forall|a: int, b: int| 0 <= a < b < v.len() implies lex_lt(
                #[trigger] v[a],
                #[trigger] v[b],
            ) by {
                assert(v[a] == ks[a + from] && v[b] == ks[b + from]);
            }
            assert forall|pk: Seq<u8>| #[trigger] v.contains(pk) == (self@.contains_key(pk)
                && !lex_lt(pk, start_part_key@) && !lex_lt(end_part_key@, pk)) by {
                if v.contains(pk) {
                    let a = choose|a: int| 0 <= a < v.len() && v[a] == pk;
                    assert(ks[a + from] == pk);
                    assert(self.entries@[a + from].0@ == pk);
                    self.lemma_entry(a + from);
                    lemma_lex_irreflexive(pk);
                    if lex_lt(pk, start_part_key@) && lex_lt(start_part_key@, pk) {
                        lemma_lex_transitive(pk, start_part_key@, pk);
                    }
                }
                if self@.contains_key(pk) && !lex_lt(pk, start_part_key@) && !lex_lt(
                    end_part_key@,
                    pk,
                ) {
                    let j = choose|j: int| 0 <= j < ks.len() && ks[j] == pk;
                    assert(self.entries@[j].0@ == pk);
                    if j >= i {
                        assert(ks[i as int] == self.entries@[i as int].0@);
                        if j > i {
                            assert(lex_lt(ks[i as int], ks[j]));
                            lemma_lex_transitive(end_part_key@, ks[i as int], ks[j]);
                        }
                    }
                    assert(from <= j);
                    assert(v[j - from] == pk);
                }
            }
        }
        r
    }
}

} // verus!
