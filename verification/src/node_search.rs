//! Finding keys and ranges in a node.

use vstd::prelude::*;
use crate::btree_kvs::{BtreeKey, BtreeValue, Entry};
use crate::btree_node::NodeCore;
use crate::btree_req::{BtreeKeyRange, RangeView};
use crate::tree_lemmas::lemma_lt_not_lt;
use crate::tree_model::sorted;
use crate::var_node_ops::VarNodeOps;
use crate::varlen_node_common::VarRecordOps;

verus! {

/// The first entry whose key is not smaller than `k`.
pub open spec fn is_position<K: BtreeKey>(es: Seq<Entry>, k: Seq<u8>, i: int) -> bool {
    &&& 0 <= i <= es.len()
    &&& forall|j: int| 0 <= j < i ==> K::lt(#[trigger] es[j].key, k)
    &&& forall|j: int| i <= j < es.len() ==> !K::lt(#[trigger] es[j].key, k)
}

/// All keys can be read and are in order.
pub open spec fn searchable<K: BtreeKey>(es: Seq<Entry>) -> bool {
    &&& sorted::<K>(es)
    &&& forall|j: int| 0 <= j < es.len() ==> K::valid(#[trigger] es[j].key)
}

impl<R: VarRecordOps> VarNodeOps<R> {
    /// The position of a key by binary search, and whether the key is there.
    pub fn find<K: BtreeKey, V: BtreeValue>(&self, core: &NodeCore, key: &K) -> (r: (bool, u32))
        requires
            self.wf::<K, V>(core@),
            searchable::<K>(self.entries::<K, V>(core@)),
        ensures
            is_position::<K>(self.entries::<K, V>(core@), key.bytes(), r.1 as int),
            r.0 == (r.1 < core@.header.nentries && self.entries::<K, V>(core@)[r.1 as int].key
                == key.bytes()),
            r.1 <= core@.header.nentries,
    {
        let n: u32 = core.header.nentries;
        let ghost es = self.entries::<K, V>(core@);
        let mut low: u32 = 0;
        let mut high: u32 = n;
        while low < high
            invariant
                self.wf::<K, V>(core@),
                n == core@.header.nentries,
                es == self.entries::<K, V>(core@),
                searchable::<K>(es),
                low <= high <= n,
                forall|j: int| 0 <= j < low ==> K::lt(#[trigger] es[j].key, key.bytes()),
                forall|j: int| high <= j < es.len() ==> !K::lt(#[trigger] es[j].key, key.bytes()),
            decreases high - low,
        {
            let mid: u32 = low + (high - low) / 2;
            let k: K = self.get_nth_key::<K, V>(core, mid);
            if k.is_less(key) {
                proof {
                    assert forall|j: int| 0 <= j < mid + 1 implies K::lt(
                        #[trigger] es[j].key,
                        key.bytes(),
                    ) by {
                        if j < mid {
                            K::lemma_transitive(es[j].key, es[mid as int].key, key.bytes());
                        }
                    }
                }
                low = mid + 1;
            } else {
                proof {
                    assert forall|j: int| mid <= j < es.len() implies !K::lt(
                        #[trigger] es[j].key,
                        key.bytes(),
                    ) by {
                        if j > mid && K::lt(es[j].key, key.bytes()) {
                            K::lemma_transitive(es[mid as int].key, es[j].key, key.bytes());
                        }
                    }
                }
                high = mid;
            }
        }
        if low < n {
            let k: K = self.get_nth_key::<K, V>(core, low);
            proof {
                K::lemma_total(k.bytes(), key.bytes());
                K::lemma_irreflexive(key.bytes());
            }
            (!key.is_less(&k), low)
        } else {
            (false, low)
        }
    }

    /// The entries of a leaf in a range: whether there are any, the first and the last.
    pub fn match_range<K: BtreeKey, V: BtreeValue>(
        &self,
        core: &NodeCore,
        range: &BtreeKeyRange<K>,
    ) -> (r: (bool, u32, u32))
        requires
            self.wf::<K, V>(core@),
            searchable::<K>(self.entries::<K, V>(core@)),
        ensures
            r.0 ==> r.1 <= r.2 < core@.header.nentries,
            forall|j: int|
                0 <= j < core@.header.nentries ==> range@.has::<K>(
                    (#[trigger] self.entries::<K, V>(core@)[j]).key,
                ) == (r.0 && r.1 <= j <= r.2),
    {
        let n: u32 = core.header.nentries;
        let ghost es = self.entries::<K, V>(core@);
        let (start_found, start_pos) = self.find::<K, V>(core, &range.start_key);
        let start: u32 = if start_found && !range.start_incl {
            start_pos + 1
        } else {
            start_pos
        };
        let (end_found, end_pos) = self.find::<K, V>(core, &range.end_key);
        let end: u32 = if end_found && range.end_incl {
            end_pos + 1
        } else {
            end_pos
        };
        proof {
            assert forall|j: int| 0 <= j < es.len() implies {
                &&& range@.from_start::<K>((#[trigger] es[j]).key) == (start <= j)
                &&& range@.to_end::<K>(es[j].key) == (j < end)
            } by {
                lemma_bound_start::<K>(es, range@, start_pos as int, j);
                lemma_bound_end::<K>(es, range@, end_pos as int, j);
            }
        }
        if start < end {
            (true, start, end - 1)
        } else {
            (false, 0, 0)
        }
    }
}

/// Which entries do not lie before a range, seen from the position of its start.
pub proof fn lemma_bound_start<K: BtreeKey>(es: Seq<Entry>, range: RangeView, pos: int, j: int)
    requires
        sorted::<K>(es),
        is_position::<K>(es, range.start, pos),
        0 <= j < es.len(),
    ensures
        range.from_start::<K>(es[j].key) == (pos < j || pos == j && (range.start_incl || es[j].key
            != range.start)),
{
    let k = es[j].key;
    K::lemma_total(k, range.start);
    K::lemma_irreflexive(k);
    if j < pos {
        lemma_lt_not_lt::<K>(k, range.start);
    } else if j > pos {
        assert(K::lt(es[pos].key, es[j].key));
        if k == range.start {
            lemma_lt_not_lt::<K>(es[pos].key, k);
        }
    }
}

/// Which entries do not lie behind a range, seen from the position of its end.
pub proof fn lemma_bound_end<K: BtreeKey>(es: Seq<Entry>, range: RangeView, pos: int, j: int)
    requires
        sorted::<K>(es),
        is_position::<K>(es, range.end, pos),
        0 <= j < es.len(),
    ensures
        range.to_end::<K>(es[j].key) == (j < pos || pos == j && range.end_incl && es[j].key
            == range.end),
{
    let k = es[j].key;
    K::lemma_irreflexive(k);
    if j > pos {
        assert(K::lt(es[pos].key, es[j].key));
        if k == range.end {
            lemma_lt_not_lt::<K>(es[pos].key, k);
        }
    }
}

} // verus!
