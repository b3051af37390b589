//! Sums over the nodes of a tree.

use vstd::prelude::*;
use crate::merge_lemmas::{cut_pieces, cuts, join_upto, lemma_cuts, piece};
use crate::splice_lemmas::spliced;
use crate::tree_model::Tree;

verus! {

/// The sum of `f` over the nodes of a tree whose root lies at depth `d`. The function takes
/// the number of entries of a node and its depth.
pub open spec fn total(t: Tree, d: nat, f: spec_fn(nat, nat) -> nat) -> nat
    decreases t,
{
    f(t.es.len(), d) + total_all(t.kids, d + 1, f)
}

pub open spec fn total_all(ks: Seq<Tree>, d: nat, f: spec_fn(nat, nat) -> nat) -> nat
    decreases ks,
{
    if ks.len() == 0 {
        0
    } else {
        total_all(ks.drop_last(), d, f) + total(ks.last(), d, f)
    }
}

/// The sum of `f` over some nodes alone.
pub open spec fn own_all(ks: Seq<Tree>, d: nat, f: spec_fn(nat, nat) -> nat) -> nat
    decreases ks.len(),
{
    if ks.len() == 0 {
        0
    } else {
        own_all(ks.drop_last(), d, f) + f(ks.last().es.len(), d)
    }
}

pub proof fn lemma_total_all_add(
    a: Seq<Tree>,
    b: Seq<Tree>,
    d: nat,
    f: spec_fn(nat, nat) -> nat,
)
    ensures
        total_all(a + b, d, f) == total_all(a, d, f) + total_all(b, d, f),
    decreases b.len(),
{
    if b.len() == 0 {
        assert(a + b =~= a);
    } else {
        assert((a + b).drop_last() =~= a + b.drop_last());
        lemma_total_all_add(a, b.drop_last(), d, f);
    }
}

pub proof fn lemma_total_one(k: Tree, d: nat, f: spec_fn(nat, nat) -> nat)
    ensures
        total_all(seq![k], d, f) == total(k, d, f),
        own_all(seq![k], d, f) == f(k.es.len(), d),
{
    reveal_with_fuel(total_all, 2);
    reveal_with_fuel(own_all, 2);
    assert(seq![k].drop_last() =~= Seq::<Tree>::empty());
}

/// A child has been replaced.
pub proof fn lemma_total_kid(t: Tree, i: int, k: Tree, d: nat, f: spec_fn(nat, nat) -> nat)
    requires
        0 <= i < t.kids.len(),
    ensures
        total(t.with_kid(i, k), d, f) + total(t.kids[i], d + 1, f) == total(t, d, f) + total(
            k,
            d + 1,
            f,
        ),
{
    let t2 = t.with_kid(i, k);
    let front = t.kids.take(i);
    let back = t.kids.skip(i + 1);
    assert(t.kids =~= front + seq![t.kids[i]] + back);
    assert(t2.kids =~= front + seq![k] + back);
    lemma_total_all_add(front, seq![t.kids[i]], d + 1, f);
    lemma_total_all_add(front + seq![t.kids[i]], back, d + 1, f);
    lemma_total_all_add(front, seq![k], d + 1, f);
    lemma_total_all_add(front + seq![k], back, d + 1, f);
    lemma_total_one(t.kids[i], d + 1, f);
    lemma_total_one(k, d + 1, f);
}

/// Neighbouring children have been replaced.
pub proof fn lemma_total_spliced(
    t: Tree,
    a: int,
    b: int,
    ns: Seq<Tree>,
    keys: Seq<Seq<u8>>,
    d: nat,
    f: spec_fn(nat, nat) -> nat,
)
    requires
        0 <= a <= b < t.kids.len(),
    ensures
        total(spliced(t, a, b, ns, keys), d, f) + f(t.es.len(), d) + total_all(
            t.kids.subrange(a, b + 1),
            d + 1,
            f,
        ) == total(t, d, f) + f(spliced(t, a, b, ns, keys).es.len(), d) + total_all(ns, d + 1, f),
{
    let t2 = spliced(t, a, b, ns, keys);
    let front = t.kids.take(a);
    let mid = t.kids.subrange(a, b + 1);
    let back = t.kids.skip(b + 1);
    assert(t.kids =~= front + mid + back);
    lemma_total_all_add(front, mid, d + 1, f);
    lemma_total_all_add(front + mid, back, d + 1, f);
    lemma_total_all_add(front, ns, d + 1, f);
    lemma_total_all_add(front + ns, back, d + 1, f);
}

/// The nodes themselves, and what is below them once they are joined.
pub proof fn lemma_total_join(t: Tree, a: int, n: nat, d: nat, f: spec_fn(nat, nat) -> nat)
    requires
        0 <= a,
        0 < n,
        a + n <= t.kids.len(),
    ensures
        total_all(t.kids.subrange(a, a + n), d, f) == own_all(t.kids.subrange(a, a + n), d, f)
            + total_all(join_upto(t, a, n).kids, d + 1, f),
    decreases n,
{
    let b = a + n - 1;
    let ks = t.kids.subrange(a, a + n);
    if n == 1 {
        assert(ks =~= seq![t.kids[a]]);
        lemma_total_one(t.kids[a], d, f);
    } else {
        lemma_total_join(t, a, (n - 1) as nat, d, f);
        assert(ks.drop_last() =~= t.kids.subrange(a, a + (n - 1)));
        assert(ks.last() == t.kids[b]);
        assert(total(ks.last(), d, f) == f(t.kids[b].es.len(), d) + total_all(
            t.kids[b].kids,
            d + 1,
            f,
        ));
        lemma_total_all_add(
            join_upto(t, a, (n - 1) as nat).kids,
            t.kids[b].kids,
            d + 1,
            f,
        );
    }
}

/// The pieces themselves, and what is below the node that was cut.
pub proof fn lemma_total_cut(
    j: Tree,
    o: Seq<int>,
    ids: Seq<u64>,
    nexts: Seq<u64>,
    n: nat,
    d: nat,
    f: spec_fn(nat, nat) -> nat,
)
    requires
        cuts(j, o),
        n < o.len(),
        j.leaf ==> j.kids.len() == 0,
        !j.leaf ==> j.kids.len() == j.es.len() + if j.edge {
            1int
        } else {
            0int
        },
    ensures
        total_all(cut_pieces(j, o, ids, nexts).take(n as int), d, f) == own_all(
            cut_pieces(j, o, ids, nexts).take(n as int),
            d,
            f,
        ) + if j.leaf {
            0
        } else if n == o.len() - 1 {
            total_all(j.kids, d + 1, f)
        } else {
            total_all(j.kids.take(o[n as int]), d + 1, f)
        },
    decreases n,
{
    let ns = cut_pieces(j, o, ids, nexts);
    if n == 0 {
        assert(ns.take(0) =~= Seq::<Tree>::empty());
        assert(j.kids.take(0) =~= Seq::<Tree>::empty());
    } else {
        let i = n - 1;
        lemma_cuts(j, o, i);
        lemma_total_cut(j, o, ids, nexts, i as nat, d, f);
        assert(ns.take(n as int).drop_last() =~= ns.take(i));
        let t = piece(j, o, ids, nexts, i);
        assert(ns.take(n as int).last() == t);
        assert(total(t, d, f) == f(t.es.len(), d) + total_all(t.kids, d + 1, f));
        if !j.leaf {
            lemma_total_all_add(j.kids.take(o[i]), t.kids, d + 1, f);
            if i == o.len() - 2 {
                assert(j.kids =~= j.kids.take(o[i]) + t.kids);
            } else {
                assert(j.kids.take(o[i + 1]) =~= j.kids.take(o[i]) + t.kids);
            }
        }
    }
}

//==============================================================================
// Counting nodes
//==============================================================================

pub open spec fn each() -> spec_fn(nat, nat) -> nat {
    |n: nat, d: nat| 1nat
}

/// The number of nodes.
pub open spec fn count(t: Tree) -> nat {
    total(t, 0, each())
}

pub proof fn lemma_own_each(ks: Seq<Tree>, d: nat)
    ensures
        own_all(ks, d, each()) == ks.len(),
    decreases ks.len(),
{
    if ks.len() > 0 {
        lemma_own_each(ks.drop_last(), d);
    }
}

/// The number of nodes does not depend on the depth of the root.
pub proof fn lemma_count_depth(t: Tree, d: nat, e: nat)
    ensures
        total(t, d, each()) == total(t, e, each()),
    decreases t, 1nat,
{
    lemma_count_all_depth(t.kids, d + 1, e + 1);
}

proof fn lemma_count_all_depth(ks: Seq<Tree>, d: nat, e: nat)
    ensures
        total_all(ks, d, each()) == total_all(ks, e, each()),
    decreases ks, 0nat,
{
    if ks.len() > 0 {
        lemma_count_all_depth(ks.drop_last(), d, e);
        lemma_count_depth(ks.last(), d, e);
    }
}

} // verus!
