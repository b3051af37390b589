//! How children are packed when they are merged.

use vstd::prelude::*;
use crate::btree_config::BtreeConfig;
use crate::btree_kvs::{BtreeKey, BtreeValue, Entry};
use crate::merge_laws::lemma_layout_size;
use crate::merge_lemmas::join_upto;
use crate::merge_plan::{
    extended, lemma_child, lemma_fitting_bound, packing_all, packing_upto, plan, used, Packing,
};
use crate::node_laws::{record_bytes, size_of, two_bytes};
use crate::node_layout::{
    lemma_data_size_add, lemma_data_size_nonneg, lemma_data_size_one, lemma_used_with, Layout,
};
use crate::record_sizes::lemma_times_add;
use crate::tree_model::{node_rep, placed, rep, Params, Place, Store, Tree};

verus! {

/// The entries of two stretches take what they take together.
proof fn lemma_sizes(l: Layout, a: Seq<Entry>, b: Seq<Entry>)
    requires
        l.wf(),
    ensures
        l.entries_size(a + b) == l.entries_size(a) + l.entries_size(b),
        l.entries_size(a) >= 0,
{
    broadcast use crate::record_sizes::lemma_times;

    lemma_data_size_add(a, b);
    lemma_data_size_nonneg(a);
    lemma_times_add(l.rec, a.len() as int, b.len() as int);
    assert(l.records_size(0) == 0);
    assert(l.records_size(a.len() as int) >= 0);
}

/// As many entries fit as there is room for, and no more.
proof fn lemma_fitting_tight(l: Layout, room: int, e: Seq<Entry>)
    requires
        l.wf(),
    ensures
        ({
            let m = l.fitting(room, e);
            &&& 0 <= m <= e.len()
            &&& m > 0 ==> l.entries_size(e.take(m)) <= room
            &&& m < e.len() ==> l.entries_size(e.take(m + 1)) > room
        }),
    decreases e.len(),
{
    lemma_fitting_bound(l, room, e);
    if e.len() > 0 {
        let one = seq![e[0]];
        let rest = e.skip(1);
        lemma_one_size(l, e[0]);
        assert(e.take(1) =~= one);
        if l.entry_size(e[0]) <= room {
            lemma_fitting_tight(l, room - l.entry_size(e[0]), rest);
            let m = l.fitting(room, e);
            assert(e.take(m) =~= one + rest.take(m - 1));
            lemma_sizes(l, one, rest.take(m - 1));
            if m == 1 {
                assert(rest.take(0) =~= Seq::<Entry>::empty());
                assert(e.take(1) =~= one);
            }
            if m < e.len() {
                assert(e.take(m + 1) =~= one + rest.take(m));
                lemma_sizes(l, one, rest.take(m));
            }
        }
    }
}

proof fn lemma_one_size(l: Layout, e: Entry)
    requires
        l.wf(),
    ensures
        l.entries_size(seq![e]) == l.entry_size(e),
        l.entries_size(Seq::<Entry>::empty()) == 0,
{
    broadcast use crate::record_sizes::lemma_times;

    lemma_data_size_one(e);
    assert(l.records_size(0) == 0);
    assert(l.records_size(1) == l.rec);
}

/// Entry `j` did not fit into a node that starts with entry `i`. The first node had `n0` entries
/// and `used0` bytes in use before.
spec fn too_much(
    p: Params,
    l: Layout,
    fill: int,
    f: Seq<Entry>,
    n0: int,
    used0: int,
    i: int,
    j: int,
) -> bool {
    &&& 0 <= i <= j < f.len()
    &&& i == 0 ==> n0 <= j
    &&& l.entries_size(f.subrange(i, j + 1)) > p.node_size - 60 || if i == 0 {
        used0 + l.entries_size(f.subrange(n0, j + 1)) > fill
    } else {
        4 + l.entries_size(f.subrange(i, j + 1)) > fill
    }
}

/// A packing of the first `x` entries, in which no node could have taken the first entry of the
/// next one.
#[verifier::opaque]
spec fn tight(
    p: Params,
    l: Layout,
    fill: int,
    f: Seq<Entry>,
    n0: int,
    used0: int,
    x: int,
    s: Packing,
) -> bool {
    let last = s.cuts.last();
    &&& 0 <= n0 <= x <= f.len()
    &&& s.cuts.len() > 0
    &&& s.cuts[0] == 0
    &&& 0 <= last <= x
    &&& s.cuts.len() > 1 ==> last > 0
    &&& s.es == f.subrange(last, x)
    &&& 4 + l.entries_size(s.es) <= s.occ
    &&& s.cuts.len() == 1 ==> s.occ <= used0 + l.entries_size(f.subrange(n0, x))
    &&& s.cuts.len() > 1 ==> s.occ <= 4 + l.entries_size(s.es)
    &&& forall|k: int|
        0 <= k < s.cuts.len() - 1 ==> (k > 0 ==> s.cuts[k] > 0) && too_much(
            p,
            l,
            fill,
            f,
            n0,
            used0,
            #[trigger] s.cuts[k],
            s.cuts[k + 1],
        )
}

/// Further entries keep a packing tight.
proof fn lemma_tight_more(
    p: Params,
    l: Layout,
    fill: int,
    f: Seq<Entry>,
    n0: int,
    used0: int,
    x: int,
    s: Packing,
    m: int,
)
    requires
        l.wf(),
        tight(p, l, fill, f, n0, used0, x, s),
        0 <= m,
        x + m <= f.len(),
    ensures
        tight(p, l, fill, f, n0, used0, x + m, s.with(p, l, f.subrange(x, x + m))),
{
    reveal(tight);
    let e = f.subrange(x, x + m);
    let s2 = s.with(p, l, e);
    let last = s.cuts.last();
    assert(s.es + e =~= f.subrange(last, x + m));
    assert(f.subrange(n0, x) + e =~= f.subrange(n0, x + m));
    lemma_sizes(l, f.subrange(n0, x), e);
    lemma_sizes(l, s.es, e);
    lemma_used_with(l, p.node_size, s.occ, s.es, e);
}

/// Where not all entries fit into the last node of a packing, a new node follows, and the packing
/// is tight.
proof fn lemma_tight_next(
    p: Params,
    l: Layout,
    fill: int,
    f: Seq<Entry>,
    n0: int,
    used0: int,
    x: int,
    s: Packing,
    e: Seq<Entry>,
)
    requires
        l.wf(),
        tight(p, l, fill, f, n0, used0, x, s),
        x + e.len() <= f.len(),
        e == f.subrange(x, x + e.len()),
        l.fitting(s.room(p, l, fill), e) < e.len(),
        l.fitting(s.room(p, l, fill), e) > 0 || s.es.len() > 0,
    ensures
        ({
            let m = l.fitting(s.room(p, l, fill), e);
            tight(p, l, fill, f, n0, used0, x + m, s.with(p, l, e.take(m)).next())
        }),
{
    reveal(tight);
    let room = s.room(p, l, fill);
    let m = l.fitting(room, e);
    lemma_fitting_tight(l, room, e);
    let s2 = s.with(p, l, e.take(m));
    assert(e.take(m) =~= f.subrange(x, x + m));
    lemma_tight_more(p, l, fill, f, n0, used0, x, s, m);
    let last = s.cuts.last();
    let j = x + m;
    let s3 = s2.next();
    assert(e.take(m + 1) =~= f.subrange(x, j + 1));
    assert(f.subrange(last, j + 1) =~= s.es + f.subrange(x, j + 1));
    assert(f.subrange(n0, j + 1) =~= f.subrange(n0, x) + f.subrange(x, j + 1));
    lemma_sizes(l, s.es, f.subrange(x, j + 1));
    lemma_sizes(l, f.subrange(n0, x), f.subrange(x, j + 1));
    assert(too_much(p, l, fill, f, n0, used0, last, j)) by {
        if s.cuts.len() == 1 {
            assert(last == 0);
        }
    }
    assert(j > 0) by {
        if j == 0 {
            assert(s.es.len() == 0 && m == 0);
        }
    }
    lemma_one_size(l, e[0]);
    assert(s3.es =~= f.subrange(j, j));
    assert(f.subrange(j, j) =~= Seq::<Entry>::empty());
    assert(s3.cuts.last() == j) by {
        assert(s2.es.len() == j - last);
    }
    assert forall|k: int| 0 <= k < s3.cuts.len() - 1 implies (k > 0 ==> s3.cuts[k] > 0)
        && too_much(p, l, fill, f, n0, used0, #[trigger] s3.cuts[k], s3.cuts[k + 1]) by {
        if k < s.cuts.len() - 1 {
            assert(s.cuts[k] == s3.cuts[k]);
        } else {
            assert(s3.cuts[k] == last);
            assert(s3.cuts[k + 1] == j);
        }
    }
    assert(tight(p, l, fill, f, n0, used0, j, s3));
}

/// What is packed into nodes that take all that fits is packed tightly.
proof fn lemma_extended_tight(
    p: Params,
    l: Layout,
    fill: int,
    f: Seq<Entry>,
    n0: int,
    used0: int,
    x: int,
    s: Packing,
    e: Seq<Entry>,
)
    requires
        l.wf(),
        tight(p, l, fill, f, n0, used0, x, s),
        x + e.len() <= f.len(),
        e == f.subrange(x, x + e.len()),
        extended(p, l, fill, s, e) is Some,
    ensures
        tight(p, l, fill, f, n0, used0, x + e.len(), extended(p, l, fill, s, e)->0),
    decreases
            e.len(),
            (if s.es.len() > 0 {
                1int
            } else {
                0int
            }),
{
    reveal(extended);
    lemma_fresh_node(p, l, fill, f, n0, used0, x, s);
    let room = s.room(p, l, fill);
    let m = l.fitting(room, e);
    lemma_fitting_tight(l, room, e);
    let s2 = s.with(p, l, e.take(m));
    assert(e.take(m) =~= f.subrange(x, x + m));
    lemma_tight_more(p, l, fill, f, n0, used0, x, s, m);
    if m < e.len() {
        let j = x + m;
        let s3 = s2.next();
        lemma_tight_next(p, l, fill, f, n0, used0, x, s, e);
        assert(e.skip(m) =~= f.subrange(j, j + e.skip(m).len()));
        lemma_extended_tight(p, l, fill, f, n0, used0, j, s3, e.skip(m));
    }
}

/// A new node of a packing has only its header in use.
proof fn lemma_fresh_node(
    p: Params,
    l: Layout,
    fill: int,
    f: Seq<Entry>,
    n0: int,
    used0: int,
    x: int,
    s: Packing,
)
    requires
        l.wf(),
        tight(p, l, fill, f, n0, used0, x, s),
    ensures
        0 <= x <= f.len(),
        s.cuts.len() > 0,
        s.es.len() == 0 && s.cuts.len() > 1 ==> s.occ == 4 && l.entries_size(s.es) == 0,
{
    reveal(tight);
    lemma_sizes(l, Seq::empty(), Seq::empty());
    assert(Seq::<Entry>::empty() + Seq::<Entry>::empty() =~= Seq::<Entry>::empty());
    if s.es.len() == 0 {
        assert(s.es =~= Seq::<Entry>::empty());
    }
}

/// Entries that each fit into a node can be packed, and the last node of the packing is not empty.
proof fn lemma_extended_some(
    p: Params,
    l: Layout,
    fill: int,
    f: Seq<Entry>,
    n0: int,
    used0: int,
    x: int,
    s: Packing,
    e: Seq<Entry>,
)
    requires
        l.wf(),
        tight(p, l, fill, f, n0, used0, x, s),
        x + e.len() <= f.len(),
        e == f.subrange(x, x + e.len()),
        s.es.len() > 0 || s.cuts.len() > 1 && e.len() > 0,
        forall|i: int|
            0 <= i < e.len() ==> 4 + l.entry_size(#[trigger] e[i]) <= fill && 60 + l.entry_size(e[i])
                <= p.node_size,
    ensures
        extended(p, l, fill, s, e) matches Some(r) && r.es.len() > 0,
    decreases
            e.len(),
            (if s.es.len() > 0 {
                1int
            } else {
                0int
            }),
{
    reveal(extended);
    let room = s.room(p, l, fill);
    let m = l.fitting(room, e);
    lemma_fitting_tight(l, room, e);
    let s2 = s.with(p, l, e.take(m));
    lemma_fresh_node(p, l, fill, f, n0, used0, x, s);
    if e.len() > 0 {
        lemma_one_size(l, e[0]);
    }
    if m < e.len() {
        if m == 0 && s.es.len() == 0 {
            assert(e.take(1) =~= seq![e[0]]);
            assert(4 + l.entry_size(e[0]) <= fill);
            assert(room >= l.entry_size(e[0]));
        }
        let j = x + m;
        let s3 = s2.next();
        let r = e.skip(m);
        // the packing goes on behind what has been packed
        lemma_tight_next(p, l, fill, f, n0, used0, x, s, e);
        assert(r =~= f.subrange(j, j + r.len()));
        assert forall|i: int| 0 <= i < r.len() implies 4 + l.entry_size(#[trigger] r[i]) <= fill
            && 60 + l.entry_size(r[i]) <= p.node_size by {
            assert(r[i] == e[m + i]);
        }
        lemma_extended_some(p, l, fill, f, n0, used0, j, s3, r);
    }
}

/// The entries of the first children are the first entries of more.
proof fn lemma_joined_prefix(t: Tree, a: int, n: nat, m: nat)
    requires
        0 < n <= m,
    ensures
        join_upto(t, a, n).es.len() <= join_upto(t, a, m).es.len(),
        join_upto(t, a, n).es == join_upto(t, a, m).es.take(join_upto(t, a, n).es.len() as int),
    decreases m,
{
    let x = join_upto(t, a, n).es;
    if n == m {
        assert(x.take(x.len() as int) =~= x);
    } else {
        lemma_joined_prefix(t, a, n, (m - 1) as nat);
        let y = join_upto(t, a, (m - 1) as nat).es;
        let z = join_upto(t, a, m).es;
        assert(z == y + t.kids[a + m - 1].es);
        assert(z.take(x.len() as int) =~= y.take(x.len() as int));
    }
}

proof fn lemma_packing_tight<K: BtreeKey, V: BtreeValue>(
    p: Params,
    fill: int,
    st: Store,
    w: Place,
    a: int,
    n: nat,
    c: nat,
)
    requires
        placed::<K, V>(p, st, w),
        0 <= a,
        0 < n <= c,
        a + c <= w.t.kids.len(),
        packing_upto(p, fill, st, w.t, a, n) is Some,
    ensures
        ({
            let t = w.t;
            tight(
                p,
                p.layout(t.kids[a].leaf),
                fill,
                join_upto(t, a, c).es,
                t.kids[a].es.len() as int,
                used(p, st.nodes[t.kids[a].id]),
                join_upto(t, a, n).es.len() as int,
                packing_upto(p, fill, st, t, a, n)->0,
            )
        }),
    decreases n,
{
    reveal(tight);
    reveal(packing_upto);
    let t = w.t;
    let l = p.layout(t.kids[a].leaf);
    let f = join_upto(t, a, c).es;
    let n0 = t.kids[a].es.len() as int;
    let used0 = used(p, st.nodes[t.kids[a].id]);
    lemma_child::<K, V>(p, st, w, a, a);
    lemma_joined_prefix(t, a, n, c);
    if n == 1 {
        assert(f.subrange(0, n0) =~= t.kids[a].es);
        assert(f.subrange(n0, n0) =~= Seq::<Entry>::empty());
        if t.kids[a].es.len() > 0 {
            lemma_one_size(l, t.kids[a].es[0]);
        } else {
            lemma_sizes(l, Seq::empty(), Seq::empty());
            assert(Seq::<Entry>::empty() + Seq::<Entry>::empty() =~= Seq::<Entry>::empty());
        }
    } else {
        let m = (n - 1) as nat;
        lemma_packing_tight::<K, V>(p, fill, st, w, a, m, c);
        lemma_joined_prefix(t, a, m, c);
        let x = join_upto(t, a, m).es.len() as int;
        let e = t.kids[a + n - 1].es;
        let g = join_upto(t, a, n).es;
        assert(g == join_upto(t, a, m).es + e);
        assert(f.subrange(x, x + e.len()) =~= e) by {
            assert forall|i: int| 0 <= i < e.len() implies f.subrange(x, x + e.len())[i] == e[i] by {
                assert(f.take(g.len() as int)[x + i] == g[x + i]);
            }
        }
        lemma_extended_tight(
            p,
            l,
            fill,
            f,
            n0,
            used0,
            x,
            packing_upto(p, fill, st, t, a, m)->0,
            e,
        );
    }
}

proof fn lemma_packing_some<K: BtreeKey, V: BtreeValue>(
    p: Params,
    fill: int,
    st: Store,
    w: Place,
    a: int,
    n: nat,
)
    requires
        placed::<K, V>(p, st, w),
        0 <= a,
        0 < n,
        a + n <= w.t.kids.len(),
        w.t.kids[a].es.len() > 0,
        forall|k: int, i: int|
            a < k < a + n && 0 <= i < w.t.kids[k].es.len() ==> 4 + p.layout(
                w.t.kids[a].leaf,
            ).entry_size(#[trigger] w.t.kids[k].es[i]) <= fill && 60 + p.layout(
                w.t.kids[a].leaf,
            ).entry_size(w.t.kids[k].es[i]) <= p.node_size,
    ensures
        packing_upto(p, fill, st, w.t, a, n) matches Some(s) && s.es.len() > 0,
    decreases n,
{
    reveal(packing_upto);
    let t = w.t;
    let l = p.layout(t.kids[a].leaf);
    if n > 1 {
        let m = (n - 1) as nat;
        lemma_packing_some::<K, V>(p, fill, st, w, a, m);
        lemma_packing_tight::<K, V>(p, fill, st, w, a, m, n);
        lemma_child::<K, V>(p, st, w, a, a);
        let f = join_upto(t, a, n).es;
        let e = t.kids[a + n - 1].es;
        let x = join_upto(t, a, m).es.len() as int;
        assert(f == join_upto(t, a, m).es + e);
        assert(f.subrange(x, x + e.len()) =~= e);
        lemma_extended_some(
            p,
            l,
            fill,
            f,
            t.kids[a].es.len() as int,
            used(p, st.nodes[t.kids[a].id]),
            x,
            packing_upto(p, fill, st, t, a, m)->0,
            e,
        );
    }
}

/// Where the leftmost child is not empty and every entry of the others fits into a node, there is a
/// way to pack the children but for the last one; the last one stays out if it is more than a node
/// is to be filled with.
pub proof fn law_packing_exists<K: BtreeKey, V: BtreeValue>(
    config: BtreeConfig,
    st: Store,
    w: Place,
    a: int,
    b: int,
)
    requires
        placed::<K, V>(config.params::<K, V>(), st, w),
        0 <= a < b < w.t.kids.len(),
        w.t.kids[a].es.len() > 0,
        ({
            let records = if w.t.kids[a].leaf {
                config.spec_leaf_policy()
            } else {
                config.spec_int_policy()
            };
            &&& forall|k: int, i: int|
                a < k < b && 0 <= i < w.t.kids[k].es.len() ==> {
                    let e = #[trigger] w.t.kids[k].es[i];
                    let size = record_bytes(records) + e.key.len() + e.val.len();
                    4 + size <= config.ideal_fill_size && 60 + size <= config.node_size
                }
            &&& 4 + size_of(records, w.t.kids[b].es) > config.ideal_fill_size
            &&& w.t.kids[b].es.len() > 0
        }),
    ensures
        plan(config.params::<K, V>(), config.ideal_fill_size as int, st, w.t, a, b) matches Some(
            (c, o),
        ) && c == b - a,
{
    reveal(packing_all);
    reveal(tight);
    let t = w.t;
    let p = config.params::<K, V>();
    let fill = config.ideal_fill_size as int;
    let n = (b - a) as nat;
    let l = p.layout(t.kids[a].leaf);
    lemma_child::<K, V>(p, st, w, a, a);
    lemma_packing_some::<K, V>(p, fill, st, w, a, n);
    lemma_packing_tight::<K, V>(p, fill, st, w, a, n, n);
    lemma_layout_size::<K, V>(config, t.kids[a].leaf, t.kids[b].es);
    let s = packing_upto(p, fill, st, t, a, n)->0;
    lemma_sizes(l, s.es, Seq::empty());
}

/// A merge packs the children from `a` on, all of them but perhaps the last one, as tightly as it
/// can: no node could have taken the first entry of the next one, since then it would have had more
/// bytes in use than nodes are to be filled with, or more than a node has.
pub proof fn law_packing_is_tight<K: BtreeKey, V: BtreeValue>(
    config: BtreeConfig,
    st: Store,
    w: Place,
    a: int,
    b: int,
    c: nat,
    o: Seq<int>,
    k: int,
)
    requires
        placed::<K, V>(config.params::<K, V>(), st, w),
        0 <= a < b < w.t.kids.len(),
        plan(config.params::<K, V>(), config.ideal_fill_size as int, st, w.t, a, b) == Some((c, o)),
        0 <= k < o.len() - 1,
    ensures
        c == b - a || c == b - a + 1,
        o[0] == 0,
        ({
            let t = w.t;
            let node = st.nodes[t.kids[a].id];
            let records = if t.kids[a].leaf {
                config.spec_leaf_policy()
            } else {
                config.spec_int_policy()
            };
            let es = join_upto(t, a, c).es;
            let n0 = t.kids[a].es.len() as int;
            let first = 4 + record_bytes(records) * node.header.nentries + node.buf.len()
                - two_bytes(node.buf, 56);
            &&& o[k] <= o[k + 1] < es.len()
            &&& 60 + size_of(records, es.subrange(o[k], o[k + 1] + 1)) > config.node_size || if k
                == 0 {
                n0 <= o[1] && first + size_of(records, es.subrange(n0, o[1] + 1))
                    > config.ideal_fill_size
            } else {
                4 + size_of(records, es.subrange(o[k], o[k + 1] + 1)) > config.ideal_fill_size
            }
        }),
{
    reveal(tight);
    reveal(packing_all);
    let t = w.t;
    let p = config.params::<K, V>();
    let fill = config.ideal_fill_size as int;
    let n = (b - a) as nat;
    let l = p.layout(t.kids[a].leaf);
    let s = packing_upto(p, fill, st, t, a, n)->0;
    let es = join_upto(t, a, c).es;
    let n0 = t.kids[a].es.len() as int;
    assert(rep(p, st.nodes, t.kid(a)));
    assert(node_rep(p, st.nodes, t.kid(a)));
    lemma_packing_tight::<K, V>(p, fill, st, w, a, n, c);
    assert(o == s.cuts);
    assert(too_much(
        p,
        l,
        fill,
        es,
        n0,
        used(p, st.nodes[t.kids[a].id]),
        s.cuts[k],
        s.cuts[k + 1],
    ));
    lemma_layout_size::<K, V>(config, t.kids[a].leaf, es.subrange(o[k], o[k + 1] + 1));
    lemma_layout_size::<K, V>(config, t.kids[a].leaf, es.subrange(n0, o[k + 1] + 1));
}

/// The last child goes to the last node as a whole where that has room for it and then has no more
/// bytes in use than nodes are to be filled with. It stays out where it would have more, or where
/// not even its first entry fits.
pub proof fn law_last_child_of_a_merge<K: BtreeKey, V: BtreeValue>(
    config: BtreeConfig,
    st: Store,
    w: Place,
    a: int,
    b: int,
    c: nat,
    o: Seq<int>,
)
    requires
        placed::<K, V>(config.params::<K, V>(), st, w),
        0 <= a < b < w.t.kids.len(),
        w.t.kids[b].es.len() > 0,
        plan(config.params::<K, V>(), config.ideal_fill_size as int, st, w.t, a, b) == Some((c, o)),
    ensures
        ({
            let t = w.t;
            let node = st.nodes[t.kids[a].id];
            let records = if t.kids[a].leaf {
                config.spec_leaf_policy()
            } else {
                config.spec_int_policy()
            };
            let es = join_upto(t, a, (b - a) as nat).es;
            let more = t.kids[b].es;
            let first = 4 + record_bytes(records) * node.header.nentries + node.buf.len()
                - two_bytes(node.buf, 56);
            let occupied = if o.len() == 1 {
                first + size_of(records, es.skip(t.kids[a].es.len() as int))
            } else {
                4 + size_of(records, es.skip(o.last()))
            };
            &&& c == b - a ==> occupied + size_of(records, more) > config.ideal_fill_size || 60
                + size_of(records, es.skip(o.last()) + seq![more[0]]) > config.node_size
            &&& c == b - a + 1 ==> 60 + size_of(records, es.skip(o.last()) + more)
                <= config.node_size
            &&& c == b - a + 1 && o.len() > 1 ==> occupied + size_of(records, more)
                <= config.ideal_fill_size
        }),
{
    reveal(tight);
    reveal(packing_all);
    let t = w.t;
    let p = config.params::<K, V>();
    let fill = config.ideal_fill_size as int;
    let n = (b - a) as nat;
    let leaf = t.kids[a].leaf;
    let l = p.layout(leaf);
    let s = packing_upto(p, fill, st, t, a, n)->0;
    let es = join_upto(t, a, n).es;
    let more = t.kids[b].es;
    let n0 = t.kids[a].es.len() as int;
    lemma_child::<K, V>(p, st, w, a, a);
    assert(rep(p, st.nodes, t.kid(a)));
    assert(node_rep(p, st.nodes, t.kid(a)));
    lemma_packing_tight::<K, V>(p, fill, st, w, a, n, n);
    assert(es.subrange(n0, es.len() as int) =~= es.skip(n0));
    assert(es.subrange(o.last(), es.len() as int) =~= es.skip(o.last()));
    lemma_layout_size::<K, V>(config, leaf, es.skip(n0));
    lemma_layout_size::<K, V>(config, leaf, es.skip(o.last()));
    lemma_layout_size::<K, V>(config, leaf, more);
    lemma_layout_size::<K, V>(config, leaf, es.skip(o.last()) + more);
    lemma_layout_size::<K, V>(config, leaf, es.skip(o.last()) + seq![more[0]]);
    lemma_sizes(l, es.skip(o.last()), more);
    lemma_sizes(l, es.skip(o.last()), seq![more[0]]);
    lemma_fitting_tight(l, s.room(p, l, fill), more);
    assert(more.take(1) =~= seq![more[0]]);
    assert(more =~= seq![more[0]] + more.skip(1));
    lemma_sizes(l, seq![more[0]], more.skip(1));
    lemma_sizes(l, more.skip(1), Seq::empty());
    assert(more.take(more.len() as int) =~= more);
}

} // verus!
