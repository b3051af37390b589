//! Partitions: the keys that share their leading bytes.

use std::collections::hash_map::DefaultHasher;
use std::hash::Hasher;
use smallvec::SmallVec;
use vstd::prelude::*;
use vstd::std_specs::hash::DefaultHasherAdditionalSpecFns;
use crate::btree_kvs::BtreeKey;
use crate::btree_req::{copy_key, BtreeKeyRange, RangeView};
use crate::bytes::{read_bytes, slice_to_bytes};
use crate::db_kv::{
    bytes_less, lemma_lex_irreflexive, lemma_lex_total, lemma_lex_transitive, lex_lt, DbKey,
};

verus! {

//==============================================================================
// Partition keys
//==============================================================================

/// The leading bytes of the keys of a partition.
#[verifier::external_body]
pub struct PartitionKey {
    bytes: SmallVec<[u8; 16]>,
}

/// The bytes that a partition key holds.
pub uninterp spec fn part_bytes(k: PartitionKey) -> Seq<u8>;

impl View for PartitionKey {
    type V = Seq<u8>;

    open spec fn view(&self) -> Seq<u8> {
        part_bytes(*self)
    }
}

/// `SmallVec::from_slice`: a vector with the bytes of the slice.
#[verifier::external_body]
pub(crate) fn part_from_slice(b: &[u8]) -> (r: PartitionKey)
    ensures
        part_bytes(r) == b@,
{
    PartitionKey { bytes: SmallVec::from_slice(b) }
}

/// `SmallVec::as_slice`: the bytes of the vector.
#[verifier::external_body]
pub(crate) fn part_as_slice(k: &PartitionKey) -> (r: &[u8])
    ensures
        r@ == part_bytes(*k),
{
    k.bytes.as_slice()
}

/// A copy of a partition key.
pub fn copy_part(k: &PartitionKey) -> (r: PartitionKey)
    ensures
        r@ == k@,
{
    part_from_slice(part_as_slice(k))
}

/// Whether the first partition sorts before the second.
pub fn part_less(a: &PartitionKey, b: &PartitionKey) -> (r: bool)
    ensures
        r == lex_lt(a@, b@),
{
    let x = slice_to_bytes(part_as_slice(a));
    let y = slice_to_bytes(part_as_slice(b));
    bytes_less(&x, &y)
}

//==============================================================================
// Leading bytes
//==============================================================================

/// The first `n` bytes.
pub open spec fn leading(n: nat, k: Seq<u8>) -> Seq<u8> {
    if k.len() <= n {
        k
    } else {
        k.take(n as int)
    }
}

/// The partition of a key. Without a length for partition keys each key is a partition of its
/// own.
pub open spec fn part_of(p: nat, k: Seq<u8>) -> Seq<u8> {
    if p == 0 {
        k
    } else {
        leading(p, k)
    }
}

/// Some key has this partition.
pub open spec fn is_part(p: nat, pk: Seq<u8>) -> bool {
    p == 0 || pk.len() <= p
}

proof fn lemma_leading_order(n: nat, a: Seq<u8>, b: Seq<u8>)
    requires
        lex_lt(a, b),
    ensures
        leading(n, a) == leading(n, b) || lex_lt(leading(n, a), leading(n, b)),
    decreases n,
{
    if n == 0 {
        assert(leading(n, a) =~= leading(n, b));
    } else if a.len() > 0 && a[0] == b[0] {
        let m = (n - 1) as nat;
        lemma_leading_order(m, a.skip(1), b.skip(1));
        assert(leading(n, a).skip(1) =~= leading(m, a.skip(1)));
        assert(leading(n, b).skip(1) =~= leading(m, b.skip(1)));
        assert(leading(n, a) =~= seq![a[0]] + leading(m, a.skip(1)));
        assert(leading(n, b) =~= seq![b[0]] + leading(m, b.skip(1)));
    }
}

/// Partitions lie in the order of their keys: of two keys, the smaller one has the smaller
/// partition, or both have the same.
pub proof fn lemma_part_order(p: nat, a: Seq<u8>, b: Seq<u8>)
    requires
        lex_lt(a, b),
    ensures
        part_of(p, a) == part_of(p, b) || lex_lt(part_of(p, a), part_of(p, b)),
{
    if p > 0 {
        lemma_leading_order(p, a, b);
    }
}

/// The least byte string that lies above everything that starts with the given bytes.
pub open spec fn above(p: Seq<u8>) -> Option<Seq<u8>>
    decreases p.len(),
{
    if p.len() == 0 {
        None
    } else {
        match above(p.skip(1)) {
            Some(q) => Some(seq![p[0]] + q),
            None => if p[0] < 255 {
                Some(seq![(p[0] + 1) as u8])
            } else {
                None
            },
        }
    }
}

/// What starts with the given bytes is an interval.
pub proof fn lemma_leading_interval(p: Seq<u8>, k: Seq<u8>)
    ensures
        (!lex_lt(k, p) && (above(p) matches Some(n) ==> lex_lt(k, n))) == (p.len() <= k.len()
            && k.take(p.len() as int) == p),
    decreases p.len(),
{
    if p.len() == 0 {
        assert(k.take(0) =~= p);
    } else if k.len() > 0 {
        let p1 = p.skip(1);
        let k1 = k.skip(1);
        lemma_leading_interval(p1, k1);
        if p.len() <= k.len() {
            let t = k.take(p.len() as int);
            assert(t =~= seq![k[0]] + k1.take(p1.len() as int));
            assert(p =~= seq![p[0]] + p1);
            assert(t.skip(1) =~= k1.take(p1.len() as int));
        }
        match above(p1) {
            Some(q) => {
                let n = seq![p[0]] + q;
                assert(n.skip(1) =~= q);
                assert(n[0] == p[0]);
                assert(lex_lt(k, n) == if k[0] != p[0] {
                    k[0] < p[0]
                } else {
                    lex_lt(k1, q)
                });
            },
            None => {
                if p[0] < 255 {
                    let n = seq![(p[0] + 1) as u8];
                    assert(!lex_lt(k1, n.skip(1)));
                    assert(lex_lt(k, n) == (k[0] < n[0]));
                }
            },
        }
    }
}

/// Of the byte strings with the length of `p`, `q` is the least one above it.
pub open spec fn follows(p: Seq<u8>, q: Seq<u8>) -> bool {
    &&& q.len() == p.len()
    &&& lex_lt(p, q)
    &&& forall|x: Seq<u8>| x.len() == p.len() && #[trigger] lex_lt(p, x) ==> !lex_lt(x, q)
}

/// Nothing of the same length lies above bytes that are all the largest.
pub proof fn lemma_all_largest(p: Seq<u8>, x: Seq<u8>)
    requires
        forall|j: int| 0 <= j < p.len() ==> #[trigger] p[j] == 255,
        x.len() == p.len(),
    ensures
        !lex_lt(p, x),
    decreases p.len(),
{
    if p.len() > 0 {
        assert(p[0] == 255);
        assert forall|j: int| 0 <= j < p.skip(1).len() implies #[trigger] p.skip(1)[j] == 255 by {
            assert(p[j + 1] == 255);
        }
        lemma_all_largest(p.skip(1), x.skip(1));
    }
}

/// Nothing of the same length lies below bytes that are all zero.
proof fn lemma_all_zero(q: Seq<u8>, x: Seq<u8>)
    requires
        forall|j: int| 0 <= j < q.len() ==> #[trigger] q[j] == 0,
        x.len() == q.len(),
    ensures
        !lex_lt(x, q),
    decreases q.len(),
{
    if q.len() > 0 {
        assert(q[0] == 0);
        assert forall|j: int| 0 <= j < q.skip(1).len() implies #[trigger] q.skip(1)[j] == 0 by {
            assert(q[j + 1] == 0);
        }
        lemma_all_zero(q.skip(1), x.skip(1));
    }
}

/// Counting up at byte `i`, behind which the largest bytes turn to zero, gives what follows.
pub proof fn lemma_follows(p: Seq<u8>, q: Seq<u8>, i: int)
    requires
        0 <= i < p.len(),
        q.len() == p.len(),
        p[i] < 255,
        q[i] == p[i] + 1,
        forall|j: int| 0 <= j < i ==> #[trigger] q[j] == p[j],
        forall|j: int| i < j < p.len() ==> #[trigger] p[j] == 255 && q[j] == 0,
    ensures
        follows(p, q),
    decreases p.len(),
{
    let p1 = p.skip(1);
    let q1 = q.skip(1);
    if i > 0 {
        assert(q[0] == p[0]);
        assert forall|j: int| 0 <= j < i - 1 implies #[trigger] q1[j] == p1[j] by {
            assert(q[j + 1] == p[j + 1]);
        }
        assert forall|j: int| i - 1 < j < p1.len() implies #[trigger] p1[j] == 255 && q1[j] == 0 by {
            assert(p[j + 1] == 255);
        }
        lemma_follows(p1, q1, i - 1);
    } else {
        assert forall|j: int| 0 <= j < p1.len() implies #[trigger] p1[j] == 255 by {
            assert(p[j + 1] == 255);
        }
        assert forall|j: int| 0 <= j < q1.len() implies #[trigger] q1[j] == 0 by {
            assert(p[j + 1] == 255);
        }
    }
    assert forall|x: Seq<u8>| x.len() == p.len() && #[trigger] lex_lt(p, x) implies !lex_lt(x, q) by {
        if i > 0 {
            if x[0] == p[0] {
                assert(lex_lt(p1, x.skip(1)));
            }
            assert(x[0] == q[0] ==> !lex_lt(x.skip(1), q1));
        } else {
            lemma_all_largest(p1, x.skip(1));
            lemma_all_zero(q1, x.skip(1));
        }
    }
}

/// How the bound above a byte string is written down.
pub proof fn lemma_above(p: Seq<u8>, i: int)
    requires
        -1 <= i < p.len(),
        i >= 0 ==> p[i] < 255,
        forall|j: int| i < j < p.len() ==> #[trigger] p[j] == 255,
    ensures
        above(p) == if i < 0 {
            None
        } else {
            Some(p.take(i).push((p[i] + 1) as u8))
        },
    decreases p.len(),
{
    if p.len() > 0 {
        let p1 = p.skip(1);
        assert forall|j: int| 0 <= j && i - 1 < j < p1.len() implies #[trigger] p1[j] == 255 by {
            assert(p1[j] == p[j + 1]);
        }
        if i >= 1 {
            assert(p1[i - 1] == p[i]);
            lemma_above(p1, i - 1);
            assert(seq![p[0]] + p1.take(i - 1).push((p[i] + 1) as u8) =~= p.take(i).push(
                (p[i] + 1) as u8,
            ));
        } else {
            lemma_above(p1, -1);
            if i == 0 {
                assert(p.take(0).push((p[0] + 1) as u8) =~= seq![(p[0] + 1) as u8]);
            } else {
                assert(p[0] == 255);
            }
        }
    }
}

//==============================================================================
// Partitions
//==============================================================================

/// A partition.
pub struct Partition {
    pub part_key: PartitionKey,
}

/// How many of the leading bytes of a key name its partition.
fn part_len(partition_key_len: usize, len: usize) -> (r: usize)
    ensures
        r <= len,
        r == if partition_key_len == 0 || len < partition_key_len {
            len
        } else {
            partition_key_len
        },
{
    if partition_key_len == 0 || len < partition_key_len {
        len
    } else {
        partition_key_len
    }
}

impl Partition {
    /// The partition of a key.
    pub fn from_key(key: &DbKey, partition_key_len: usize) -> (r: Self)
        ensures
            r.part_key@ == part_of(partition_key_len as nat, key@),
            is_part(partition_key_len as nat, r.part_key@),
    {
        let bytes = key.as_bytes();
        let plen: usize = part_len(partition_key_len, bytes.len());
        let b = read_bytes(bytes, 0, plen);
        proof {
            assert(b@ =~= part_of(partition_key_len as nat, key@));
        }
        Partition { part_key: part_from_slice(b.as_slice()) }
    }

    /// A partition that no key of the range lies before.
    pub fn from_range(range: &BtreeKeyRange<DbKey>, partition_key_len: usize) -> (r: Self)
        ensures
            r.part_key@ == if partition_key_len == 0 {
                Seq::empty()
            } else {
                part_of(partition_key_len as nat, range.start_key@)
            },
    {
        if partition_key_len == 0 {
            let b: Vec<u8> = Vec::new();
            return Partition { part_key: part_from_slice(b.as_slice()) };
        }
        Self::from_key(&range.start_key, partition_key_len)
    }

    /// The least key that a partition can have.
    pub fn first_key(&self) -> (r: DbKey)
        ensures
            r@ == self.part_key@,
    {
        DbKey::from_bytes(slice_to_bytes(part_as_slice(&self.part_key)))
    }

    /// The partition whose key follows among those of the same length, if there is one.
    pub fn next(&self) -> (r: Option<Partition>)
        ensures
            match r {
                Some(n) => follows(self.part_key@, n.part_key@),
                None => forall|i: int|
                    0 <= i < self.part_key@.len() ==> #[trigger] self.part_key@[i] == 255,
            },
    {
        let b = slice_to_bytes(part_as_slice(&self.part_key));
        let mut nxt = slice_to_bytes(part_as_slice(&self.part_key));
        let mut n: usize = b.len();
        while n > 0
            invariant
                n <= b.len(),
                b@ == self.part_key@,
                nxt@.len() == b@.len(),
                nxt@.take(n as int) == b@.take(n as int),
                forall|j: int| n <= j < b.len() ==> #[trigger] b@[j] == 255 && nxt@[j] == 0,
            decreases n,
        {
            let i: usize = n - 1;
            let ghost before = nxt@;
            if b[i] < 255 {
                nxt.set(i, b[i] + 1);
                proof {
                    assert forall|j: int| 0 <= j < i implies #[trigger] nxt@[j] == b@[j] by {
                        assert(before.take(n as int)[j] == b@.take(n as int)[j]);
                    }
                    lemma_follows(b@, nxt@, i as int);
                }
                return Some(Partition { part_key: part_from_slice(nxt.as_slice()) });
            }
            nxt.set(i, 0);
            proof {
                assert forall|j: int| 0 <= j < i implies #[trigger] nxt@[j] == b@[j] by {
                    assert(before.take(n as int)[j] == b@.take(n as int)[j]);
                }
                assert(nxt@.take(i as int) =~= b@.take(i as int));
            }
            n = i;
        }
        None
    }

    /// The bound above all keys that start with the bytes of the partition, if there is one.
    fn end_key(&self) -> (r: Option<DbKey>)
        ensures
            r matches Some(n) ==> above(self.part_key@) == Some(n@),
            r is None ==> above(self.part_key@) is None,
    {
        let b = slice_to_bytes(part_as_slice(&self.part_key));
        let mut n: usize = b.len();
        while n > 0
            invariant
                n <= b.len(),
                b@ == self.part_key@,
                forall|j: int| n <= j < b.len() ==> #[trigger] b@[j] == 255,
            decreases n,
        {
            let i: usize = n - 1;
            if b[i] < 255 {
                let mut nxt = read_bytes(&b, 0, i);
                nxt.push(b[i] + 1);
                proof {
                    lemma_above(b@, i as int);
                    assert(nxt@ =~= b@.take(i as int).push((b@[i as int] + 1) as u8));
                }
                return Some(DbKey::from_bytes(nxt));
            }
            n = i;
        }
        proof {
            lemma_above(b@, -1);
        }
        None
    }

    /// Whether the partition lies behind the range.
    pub fn is_out_of_range(&self, range: &BtreeKeyRange<DbKey>) -> (r: bool)
        ensures
            r == !range@.to_end::<DbKey>(self.part_key@),
    {
        !range.is_to_end(&self.first_key())
    }
}

/// The partitions of the keys of a range lie between those of its bounds.
pub proof fn lemma_range_parts(p: nat, range: RangeView, k: Seq<u8>)
    requires
        range.has::<DbKey>(k),
    ensures
        !lex_lt(part_of(p, k), part_of(p, range.start)),
        !lex_lt(part_of(p, range.end), part_of(p, k)),
{
    let a = part_of(p, range.start);
    let b = part_of(p, k);
    let c = part_of(p, range.end);
    lemma_lex_irreflexive(b);
    if lex_lt(range.start, k) {
        lemma_part_order(p, range.start, k);
        if lex_lt(b, a) && lex_lt(a, b) {
            lemma_lex_transitive(b, a, b);
        }
    }
    if lex_lt(k, range.end) {
        lemma_part_order(p, k, range.end);
        if lex_lt(b, c) && lex_lt(c, b) {
            lemma_lex_transitive(b, c, b);
        }
    }
}

/// A key does not lie before its partition.
pub proof fn lemma_part_first(p: nat, k: Seq<u8>)
    ensures
        !lex_lt(k, part_of(p, k)),
{
    lemma_lex_irreflexive(k);
    if p > 0 {
        lemma_leading_interval(leading(p, k), k);
        assert(k.take(k.len() as int) =~= k);
    }
}

/// The keys of a partition that lies behind a range lie behind it too, and so do those of the
/// partitions that follow.
pub proof fn lemma_parts_behind(p: nat, range: RangeView, pk: Seq<u8>, k: Seq<u8>)
    requires
        !range.to_end::<DbKey>(pk),
        !lex_lt(part_of(p, k), pk),
    ensures
        !range.has::<DbKey>(k),
{
    let q = part_of(p, k);
    lemma_part_first(p, k);
    lemma_lex_total(q, pk);
    lemma_lex_total(k, q);
    if lex_lt(pk, q) && lex_lt(q, k) {
        lemma_lex_transitive(pk, q, k);
    }
    assert(pk == k || lex_lt(pk, k));
    if range.to_end::<DbKey>(k) && lex_lt(pk, k) && lex_lt(k, range.end) {
        lemma_lex_transitive(pk, k, range.end);
    }
}

/// The later one of two lower bounds lets through what both let through.
proof fn lemma_later_start(r: RangeView, f: Seq<u8>, k: Seq<u8>)
    ensures
        lex_lt(r.start, f) ==> (!lex_lt(k, f)) == (r.from_start::<DbKey>(k) && !lex_lt(k, f)),
        !lex_lt(r.start, f) ==> r.from_start::<DbKey>(k) == (r.from_start::<DbKey>(k) && !lex_lt(
            k,
            f,
        )),
{
    lemma_lex_total(r.start, f);
    lemma_lex_total(k, f);
    lemma_lex_irreflexive(f);
    if lex_lt(r.start, f) && lex_lt(f, k) {
        lemma_lex_transitive(r.start, f, k);
    }
    if lex_lt(f, r.start) && lex_lt(r.start, k) {
        lemma_lex_transitive(f, r.start, k);
    }
    if lex_lt(k, f) {
        if lex_lt(f, k) {
            lemma_lex_transitive(k, f, k);
            lemma_lex_irreflexive(k);
        }
        if lex_lt(f, r.start) {
            lemma_lex_transitive(k, f, r.start);
            if lex_lt(r.start, k) {
                lemma_lex_transitive(r.start, k, r.start);
                lemma_lex_irreflexive(r.start);
            }
        }
        if r.start == f && lex_lt(r.start, k) {
            lemma_lex_transitive(k, f, k);
            lemma_lex_irreflexive(k);
        }
    }
}

/// The earlier one of two upper bounds lets through what both let through.
proof fn lemma_earlier_end(r: RangeView, n: Seq<u8>, k: Seq<u8>)
    ensures
        !lex_lt(r.end, n) ==> lex_lt(k, n) == (r.to_end::<DbKey>(k) && lex_lt(k, n)),
        lex_lt(r.end, n) ==> r.to_end::<DbKey>(k) == (r.to_end::<DbKey>(k) && lex_lt(k, n)),
{
    lemma_lex_total(r.end, n);
    if lex_lt(k, n) && lex_lt(n, r.end) {
        lemma_lex_transitive(k, n, r.end);
    }
    if lex_lt(k, r.end) && lex_lt(r.end, n) {
        lemma_lex_transitive(k, r.end, n);
    }
}

/// The part of a range that lies in a partition.
pub fn clamp_range(
    range: &BtreeKeyRange<DbKey>,
    partition: &Partition,
    partition_key_len: usize,
) -> (r: BtreeKeyRange<DbKey>)
    requires
        is_part(partition_key_len as nat, partition.part_key@),
    ensures
        forall|k: Seq<u8>| #[trigger]
            r@.has::<DbKey>(k) == (range@.has::<DbKey>(k) && part_of(partition_key_len as nat, k)
                == partition.part_key@),
{
    let mut ret = range.copy();
    let first = partition.first_key();
    let single = partition_key_len == 0 || first.as_bytes().len() < partition_key_len;
    let ghost f = first@;
    let ghost p = partition_key_len as nat;
    if range.start_key.is_less(&first) {
        ret.start_key = copy_key(&first);
        ret.start_incl = true;
    }
    proof {
        assert forall|k: Seq<u8>| #[trigger]
            ret@.from_start::<DbKey>(k) == (range@.from_start::<DbKey>(k) && !lex_lt(k, f)) by {
            lemma_later_start(range@, f, k);
            lemma_lex_total(k, f);
            lemma_lex_irreflexive(f);
            if lex_lt(f, k) && lex_lt(k, f) {
                lemma_lex_transitive(f, k, f);
            }
        }
    }
    let ghost ret1 = ret@;
    if single {
        if range.is_to_end(&first) {
            ret.end_key = first;
            ret.end_incl = true;
        }
        proof {
            assert forall|k: Seq<u8>| #[trigger]
                ret@.has::<DbKey>(k) == (range@.has::<DbKey>(k) && part_of(p, k) == f) by {
                assert(part_of(p, k) == f <==> k == f);
                assert(ret@.from_start::<DbKey>(k) == ret1.from_start::<DbKey>(k));
                lemma_lex_total(k, f);
                lemma_lex_irreflexive(f);
                if lex_lt(f, k) {
                    if lex_lt(k, f) {
                        lemma_lex_transitive(f, k, f);
                    }
                    if range@.to_end::<DbKey>(k) && lex_lt(k, range@.end) {
                        lemma_lex_transitive(f, k, range@.end);
                    }
                }
            }
        }
    } else {
        match partition.end_key() {
            Some(nf) => {
                if !range.end_key.is_less(&nf) {
                    ret.end_key = copy_key(&nf);
                    ret.end_incl = false;
                }
                proof {
                    let n = nf@;
                    assert forall|k: Seq<u8>| #[trigger]
                        ret@.has::<DbKey>(k) == (range@.has::<DbKey>(k) && part_of(p, k) == f) by {
                        assert(ret@.from_start::<DbKey>(k) == ret1.from_start::<DbKey>(k));
                        lemma_earlier_end(range@, n, k);
                        lemma_leading_interval(f, k);
                        lemma_of_len(p, f, k);
                    }
                }
            },
            None => {
                proof {
                    assert forall|k: Seq<u8>| #[trigger]
                        ret@.has::<DbKey>(k) == (range@.has::<DbKey>(k) && part_of(p, k) == f) by {
                        assert(ret@.from_start::<DbKey>(k) == ret1.from_start::<DbKey>(k));
                        lemma_leading_interval(f, k);
                        lemma_of_len(p, f, k);
                    }
                }
            },
        }
    }
    ret
}

/// The keys of a partition with full length are those that start with its bytes.
proof fn lemma_of_len(p: nat, f: Seq<u8>, k: Seq<u8>)
    requires
        p > 0,
        f.len() == p,
    ensures
        (part_of(p, k) == f) == (f.len() <= k.len() && k.take(f.len() as int) == f),
{
    if k.len() == p {
        assert(k.take(p as int) =~= k);
    }
}

//==============================================================================
// Shards
//==============================================================================

/// The hash of the bytes of a partition: their number first, and then the bytes themselves.
pub open spec fn part_hash(pk: Seq<u8>) -> u64 {
    DefaultHasher::spec_finish(
        seq![vstd::bytes::spec_u64_to_le_bytes(pk.len() as u64), pk],
    )
}

/// The shard that holds a partition.
pub open spec fn shard_of(n: nat, pk: Seq<u8>) -> int {
    part_hash(pk) as usize as int % n as int
}

pub proof fn lemma_shard_bound(n: nat, pk: Seq<u8>)
    requires
        n > 0,
    ensures
        0 <= shard_of(n, pk) < n,
{
}

/// The shard, of `n`, that holds a partition.
pub fn shard_index(pk: &PartitionKey, n: usize) -> (r: usize)
    requires
        n > 0,
    ensures
        r == shard_of(n as nat, pk@),
        r < n,
{
    let b = part_as_slice(pk);
    let mut h = DefaultHasher::new();
    let len = vstd::bytes::u64_to_le_bytes(b.len() as u64);
    h.write(len.as_slice());
    h.write(b);
    proof {
        assert(h@ =~= seq![vstd::bytes::spec_u64_to_le_bytes(pk@.len() as u64), pk@]);
    }
    (h.finish() as usize) % n
}

} // verus!
