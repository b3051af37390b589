//! When nodes are merged and what a merge leaves, in bytes and numbers of nodes.

use vstd::prelude::*;
use crate::btree::Btree;
use crate::btree_config::BtreeConfig;
use crate::btree_kvs::{id_bytes, id_of, lemma_id_bytes, BtreeKey, BtreeValue, Entry};
use crate::btree_node::CoreView;
use crate::btree_req::RangeView;
use crate::btree_types::MergePolicy;
use crate::laws::law_small_children_merge;
use crate::merge_lemmas::{cut_pieces, join_upto, piece};
use crate::merge_plan::{
    chain_ids, child_ids, fit_together, key_fits, merge_due, merge_result, merged_store,
    merged_tree, used, used_together, worth_merging,
};
use crate::merge_state::piece_ids;
use crate::node_laws::{lemma_bytes_of, record_bytes, size_of, two_bytes};
use crate::node_search::is_position;
use crate::query::reach;
use crate::record_ops::RecordPolicy;
use crate::remove::partly_removed;
use crate::settled::{merge_end, merge_wanted, same_shape, settled, under_filled, visits};
use crate::tree_model::{
    flat, has_id, node_rep, placed, refers, rep, tidy, Params, Place, Store, Tree, KV,
};
use crate::underlying::UnderlyingBtree;
use crate::variants::alike;

verus! {

//==============================================================================
// Which nodes are to be merged
//==============================================================================

/// A node is to be merged exactly if merges are not ruled out and its bytes in use are fewer than
/// the configured minimum: four of its header, its records, and everything from the lowest data
/// byte on.
pub proof fn law_under_filled<K: BtreeKey, V: BtreeValue>(config: BtreeConfig, c: CoreView)
    ensures
        ({
            let records = if c.header.leaf {
                config.spec_leaf_policy()
            } else {
                config.spec_int_policy()
            };
            under_filled(config.params::<K, V>(), config, c) == (config.merge_policy
                != MergePolicy::Never && 4 + record_bytes(records) * c.header.nentries
                + c.buf.len() - two_bytes(c.buf, 56) < config.suggested_min_size)
        }),
{
}

/// A merge is tried with as many nodes as the configuration allows, or as there are.
pub proof fn law_nodes_of_a_merge(config: BtreeConfig, t: Tree, i: int)
    requires
        0 <= i < t.kids.len(),
    ensures
        i <= merge_end(config, t, i) < t.kids.len(),
        merge_end(config, t, i) - i + 1 <= config.max_merge_nodes || merge_end(config, t, i) == i,
        merge_end(config, t, i) - i + 1 == config.max_merge_nodes || merge_end(config, t, i)
            == t.kids.len() - 1 || config.max_merge_nodes == 0,
{
}

/// A merge pays if it leaves fewer nodes. Where merges are wanted only if they pay well, it has to
/// save two nodes, unless there were no more than two.
pub proof fn law_merge_pays(attempted: int, old_total: int, new_total: int)
    ensures
        !worth_merging(MergePolicy::Never, attempted, old_total, new_total),
        worth_merging(MergePolicy::Aggressive, attempted, old_total, new_total) == (new_total
            < old_total),
        worth_merging(MergePolicy::Conservative, attempted, old_total, new_total) == (new_total
            < old_total && (attempted == 2 || new_total + 2 <= old_total)),
{
}

/// When a walk through a range has found nothing to merge, no child that it came by has fewer bytes
/// in use than the minimum while a merge with the children behind it is due. It came by those
/// children whose keys reach the start of the range and that begin before its end. The same holds
/// below each of them.
pub proof fn law_no_merge_is_left<K: BtreeKey, V: BtreeValue>(
    config: BtreeConfig,
    range: RangeView,
    st: Store,
    t: Tree,
    i: int,
)
    requires
        settled::<K>(config.params::<K, V>(), config, range, st, t),
        !t.leaf,
        forall|m: int, n: int|
            0 <= m < n < t.es.len() ==> K::lt(#[trigger] t.es[m].key, #[trigger] t.es[n].key),
        t.kids.len() == t.es.len() + if t.edge {
            1int
        } else {
            0int
        },
        0 <= i < t.kids.len(),
        i == t.es.len() || !K::lt(t.es[i].key, range.start),
        i == 0 || K::lt(t.es[i - 1].key, range.end),
        config.merge_policy != MergePolicy::Never,
        ({
            let c = st.nodes[t.kids[i].id];
            let records = if c.header.leaf {
                config.spec_leaf_policy()
            } else {
                config.spec_int_policy()
            };
            4 + record_bytes(records) * c.header.nentries + c.buf.len() - two_bytes(c.buf, 56)
                < config.suggested_min_size
        }),
    ensures
        ({
            let last = t.kids.len() - 1;
            let end = i + config.max_merge_nodes - 1;
            !merge_due(
                config.params::<K, V>(),
                config.merge_policy,
                config.ideal_fill_size as int,
                st,
                t,
                i,
                if end < last {
                    end
                } else {
                    last
                },
            )
        }),
{
    law_visited::<K, V>(config, range, st, t, i);
    law_under_filled::<K, V>(config, st.nodes[t.kids[i].id]);
}

/// What holds of a walk through a range holds below each child that it came by.
pub proof fn law_visited<K: BtreeKey, V: BtreeValue>(
    config: BtreeConfig,
    range: RangeView,
    st: Store,
    t: Tree,
    i: int,
)
    requires
        settled::<K>(config.params::<K, V>(), config, range, st, t),
        !t.leaf,
        forall|m: int, n: int|
            0 <= m < n < t.es.len() ==> K::lt(#[trigger] t.es[m].key, #[trigger] t.es[n].key),
        t.kids.len() == t.es.len() + if t.edge {
            1int
        } else {
            0int
        },
        0 <= i < t.kids.len(),
        i == t.es.len() || !K::lt(t.es[i].key, range.start),
        i == 0 || K::lt(t.es[i - 1].key, range.end),
    ensures
        settled::<K>(config.params::<K, V>(), config, range, st, t.kids[i]),
        !merge_wanted(config.params::<K, V>(), config, st, t, i),
{
    let x = lemma_position_of::<K>(t, range.start, t.es.len() as int);
    let y = lemma_position_of::<K>(t, range.end, t.es.len() as int);
    assert(x <= i) by {
        if x > i {
            assert(K::lt(t.es[i].key, range.start));
        }
    }
    assert(i <= y) by {
        if i > y {
            if y < i - 1 {
                assert(K::lt(t.es[y].key, t.es[i - 1].key));
                K::lemma_transitive(t.es[y].key, t.es[i - 1].key, range.end);
            }
            assert(!K::lt(t.es[y].key, range.end));
        }
    }
    assert(reach(t, x, y) matches Some((s, e)) && s <= i <= e);
    assert(visits::<K>(t, range, i));
    assert(t.kid(i) == t.kids[i]);
}

/// Every key has a position.
proof fn lemma_position_of<K: BtreeKey>(t: Tree, k: Seq<u8>, n: int) -> (x: int)
    requires
        forall|m: int, n: int|
            0 <= m < n < t.es.len() ==> K::lt(#[trigger] t.es[m].key, #[trigger] t.es[n].key),
        0 <= n <= t.es.len(),
        forall|m: int| n <= m < t.es.len() ==> !K::lt(#[trigger] t.es[m].key, k),
    ensures
        is_position::<K>(t.es, k, x),
    decreases n,
{
    if n == 0 {
        0
    } else if K::lt(t.es[n - 1].key, k) {
        assert forall|j: int| 0 <= j < n implies K::lt(#[trigger] t.es[j].key, k) by {
            if j < n - 1 {
                K::lemma_transitive(t.es[j].key, t.es[n - 1].key, k);
            }
        }
        n
    } else {
        lemma_position_of::<K>(t, k, n - 1)
    }
}

/// A removal that succeeds ends with a walk that has found nothing to merge, in a tree of the same
/// nodes, from whose leaves it has taken entries. It leaves no interior root without entries, unless
/// merges are ruled out.
pub proof fn law_removal_merges<K: BtreeKey, V: BtreeValue, S: UnderlyingBtree>(
    o: &Btree<K, V, S>,
    b: &Btree<K, V, S>,
    range: RangeView,
    sel: spec_fn(KV) -> bool,
) -> (w: Btree<K, V, S>)
    requires
        b.swept(o, range, sel),
        b.env_of(o),
    ensures
        w.wf(),
        w.config == o.config,
        settled::<K>(o.config.params::<K, V>(), o.config, range, w.storage.store(), w.tree@),
        w.tree@.id == b.tree@.id,
        w.tree@.leaf == b.tree@.leaf,
        w.tree@.kids.len() == b.tree@.kids.len(),
        !b.tree@.leaf ==> w.tree@.es == b.tree@.es,
        forall|i: int|
            0 <= i < b.tree@.kids.len() ==> (#[trigger] w.tree@.kids[i]).id == b.tree@.kids[i].id,
        forall|e: KV| #[trigger] w@.contains(e) ==> o@.contains(e),
        o.config.merge_policy != MergePolicy::Never && !b.tree@.leaf ==> b.tree@.es.len() > 0,
{
    let w = choose|w: Btree<K, V, S>|
        {
            &&& #[trigger] w.quiet(range)
            &&& w.wf()
            &&& w.env_of(o)
            &&& partly_removed(o@, sel, w@)
            &&& same_shape(w.tree@, b.tree@)
        };
    assert forall|i: int| 0 <= i < b.tree@.kids.len() implies (#[trigger] w.tree@.kids[i]).id
        == b.tree@.kids[i].id by {
        assert(same_shape(w.tree@.kid(i), b.tree@.kid(i)));
    }
    w
}

/// A removal merges no nodes that have enough bytes in use: where none of the tree has fewer than the
/// configured minimum, the tree has the same nodes afterwards.
pub proof fn law_full_nodes_stay<K: BtreeKey, V: BtreeValue, S: UnderlyingBtree>(
    o: &Btree<K, V, S>,
    b: &Btree<K, V, S>,
    range: RangeView,
    sel: spec_fn(KV) -> bool,
    x: u64,
)
    requires
        b.swept(o, range, sel),
        o.tree@.leaf || o.tree@.es.len() > 0,
        forall|y: u64| #[trigger]
            has_id(o.tree@, y) ==> {
                let c = o.storage.store().nodes[y];
                let records = if c.header.leaf {
                    o.config.spec_leaf_policy()
                } else {
                    o.config.spec_int_policy()
                };
                4 + record_bytes(records) * c.header.nentries + c.buf.len() - two_bytes(c.buf, 56)
                    >= o.config.suggested_min_size
            },
    ensures
        has_id(b.tree@, x) == has_id(o.tree@, x),
        b.tree@.id == o.tree@.id,
{
    assert forall|y: u64| #[trigger] has_id(o.tree@, y) implies !under_filled(
        o.params(),
        o.config,
        o.storage.store().nodes[y],
    ) by {
        law_under_filled::<K, V>(o.config, o.storage.store().nodes[y]);
    }
    lemma_full_settled::<K>(o.params(), o.config, range, o.storage.store(), o.tree@);
    lemma_same_ids(o.tree@, b.tree@, x);
}

/// Nothing is to be merged where no node has too few bytes in use.
proof fn lemma_full_settled<K: BtreeKey>(
    p: Params,
    config: BtreeConfig,
    range: RangeView,
    st: Store,
    t: Tree,
)
    requires
        forall|y: u64| #[trigger] has_id(t, y) ==> !under_filled(p, config, st.nodes[y]),
    ensures
        settled::<K>(p, config, range, st, t),
    decreases t,
{
    assert forall|i: int|
        0 <= i < t.kids.len() && !t.leaf && #[trigger] visits::<K>(t, range, i) implies {
        &&& !merge_wanted(p, config, st, t, i)
        &&& settled::<K>(p, config, range, st, t.kid(i))
    } by {
        let k = t.kid(i);
        assert(has_id(k, k.id));
        assert(has_id(t, k.id));
        assert forall|y: u64| #[trigger] has_id(k, y) implies !under_filled(
            p,
            config,
            st.nodes[y],
        ) by {
            assert(has_id(t, y));
        }
        lemma_full_settled::<K>(p, config, range, st, k);
    }
}

/// Trees of one shape have the same nodes.
proof fn lemma_same_ids(t: Tree, t2: Tree, x: u64)
    requires
        same_shape(t, t2),
    ensures
        has_id(t2, x) == has_id(t, x),
    decreases t,
{
    assert forall|i: int| 0 <= i < t.kids.len() implies has_id(#[trigger] t2.kid(i), x) == has_id(
        t.kid(i),
        x,
    ) by {
        assert(same_shape(t.kid(i), t2.kid(i)));
        lemma_same_ids(t.kid(i), t2.kid(i), x);
    }
    if has_id(t, x) && t.id != x {
        let i = choose|i: int| 0 <= i < t.kids.len() && has_id(#[trigger] t.kid(i), x);
        assert(has_id(t2.kid(i), x));
    }
    if has_id(t2, x) && t2.id != x {
        let i = choose|i: int| 0 <= i < t2.kids.len() && has_id(#[trigger] t2.kid(i), x);
        assert(has_id(t2.kid(i), x) == has_id(t.kid(i), x));
    }
}

//==============================================================================
// What a merge does
//==============================================================================

/// The bytes of the entries of children, with their records.
pub open spec fn size_of_children(records: RecordPolicy, t: Tree, from: int, upto: int) -> int
    decreases upto - from,
{
    if upto <= from {
        0
    } else {
        size_of_children(records, t, from, upto - 1) + size_of(records, t.kids[upto - 1].es)
    }
}

pub proof fn lemma_layout_size<K: BtreeKey, V: BtreeValue>(
    config: BtreeConfig,
    leaf: bool,
    es: Seq<Entry>,
)
    ensures
        ({
            let records = if leaf {
                config.spec_leaf_policy()
            } else {
                config.spec_int_policy()
            };
            config.params::<K, V>().layout(leaf).entries_size(es) == size_of(records, es)
        }),
{
    lemma_bytes_of(es);
}

proof fn lemma_children_size<K: BtreeKey, V: BtreeValue>(
    config: BtreeConfig,
    st: Store,
    t: Tree,
    a: int,
    n: nat,
)
    requires
        0 < n,
    ensures
        ({
            let records = if t.kids[a].leaf {
                config.spec_leaf_policy()
            } else {
                config.spec_int_policy()
            };
            let p = config.params::<K, V>();
            used_together(p, st, t, a, n) == used(p, st.nodes[t.kids[a].id]) + size_of_children(
                records,
                t,
                a + 1,
                a + n,
            )
        }),
    decreases n,
{
    if n > 1 {
        lemma_children_size::<K, V>(config, st, t, a, (n - 1) as nat);
        lemma_layout_size::<K, V>(config, t.kids[a].leaf, t.kids[a + n - 1].es);
    }
}

/// An entry of joined children is one of a child.
proof fn lemma_joined_entry(t: Tree, a: int, n: nat, i: int) -> (k: int)
    requires
        0 < n,
        0 <= i < join_upto(t, a, n).es.len(),
    ensures
        a <= k < a + n,
        t.kids[k].es.contains(join_upto(t, a, n).es[i]),
    decreases n,
{
    let j = join_upto(t, a, n);
    if n == 1 {
        assert(t.kids[a].es[i] == j.es[i]);
        a
    } else {
        let x = join_upto(t, a, (n - 1) as nat);
        if i < x.es.len() {
            assert(j.es[i] == x.es[i]);
            lemma_joined_entry(t, a, (n - 1) as nat, i)
        } else {
            assert(t.kids[a + n - 1].es[i - x.es.len()] == j.es[i]);
            a + n - 1
        }
    }
}

/// Entries of children are entries of the joined ones.
proof fn lemma_joined_some(t: Tree, a: int, n: nat, k: int)
    requires
        0 < n,
        a <= k < a + n,
    ensures
        join_upto(t, a, n).es.len() >= t.kids[k].es.len(),
        join_upto(t, a, n).edge == t.kids[a + n - 1].edge,
    decreases n,
{
    if n > 1 {
        lemma_joined_some(t, a, (n - 1) as nat, if k < a + n - 1 {
            k
        } else {
            a
        });
    }
}

/// Unless merges are ruled out, children are merged whose entries, behind the bytes in use of the
/// first one, neither exceed what a node is to be filled with nor what it has room for, as long as
/// there are any, and their parent has room for the key of any of them.
pub proof fn law_small_children_are_merged<K: BtreeKey, V: BtreeValue>(
    config: BtreeConfig,
    st: Store,
    w: Place,
    a: int,
    b: int,
)
    requires
        placed::<K, V>(config.params::<K, V>(), st, w),
        config.merge_policy != MergePolicy::Never,
        !w.t.leaf,
        0 <= a < b < w.t.kids.len(),
        ({
            let t = w.t;
            let c = st.nodes[t.kids[a].id];
            let records = if t.kids[a].leaf {
                config.spec_leaf_policy()
            } else {
                config.spec_int_policy()
            };
            let inner = config.spec_int_policy();
            let first = 4 + record_bytes(records) * c.header.nentries + c.buf.len() - two_bytes(
                c.buf,
                56,
            );
            let all = first + size_of_children(records, t, a + 1, b + 1);
            &&& all <= config.ideal_fill_size
            &&& all + 56 <= config.node_size
            &&& t.kids[b].edge || exists|k: int| a <= k <= b && (#[trigger] t.kids[k]).es.len() > 0
            &&& b < t.es.len() ==> forall|k: int, i: int|
                a <= k <= b && 0 <= i < t.kids[k].es.len() ==> size_of(
                    inner,
                    t.es.take(a) + t.es.skip(b + 1),
                ) + record_bytes(inner) + (#[trigger] t.kids[k].es[i]).key.len() + 8 + 60
                    <= config.node_size
        }),
    ensures
        merge_due(
            config.params::<K, V>(),
            config.merge_policy,
            config.ideal_fill_size as int,
            st,
            w.t,
            a,
            b,
        ),
{
    let t = w.t;
    let p = config.params::<K, V>();
    let n = (b - a + 1) as nat;
    let j = join_upto(t, a, n);
    let c = st.nodes[t.kids[a].id];
    assert(rep(p, st.nodes, t.kid(a)));
    assert(node_rep(p, st.nodes, t.kid(a)));
    lemma_children_size::<K, V>(config, st, t, a, n);
    law_under_filled::<K, V>(config, c);
    assert(used(p, c) == 4 + record_bytes(
        if c.header.leaf {
            config.spec_leaf_policy()
        } else {
            config.spec_int_policy()
        },
    ) * c.header.nentries + c.buf.len() - two_bytes(c.buf, 56));
    lemma_joined_some(t, a, n, a);
    if !t.kids[b].edge {
        let k = choose|k: int| a <= k <= b && (#[trigger] t.kids[k]).es.len() > 0;
        lemma_joined_some(t, a, n, k);
    }
    assert(fit_together(p, config.ideal_fill_size as int, st, t, a, b));
    if b < t.es.len() {
        assert(!t.kids[b].edge) by {
            assert(t.es[b].val == id_bytes(t.kids[b].id));
        }
        let last = j.es.len() - 1;
        let k = lemma_joined_entry(t, a, n, last);
        let i = choose|i: int| 0 <= i < t.kids[k].es.len() && t.kids[k].es[i] == j.es[last];
        lemma_layout_size::<K, V>(config, false, t.es.take(a) + t.es.skip(b + 1));
        lemma_id_bytes(t.kids[a].id);
        assert(t.kids[k].es[i].key.len() == j.es.last().key.len());
    }
    assert(key_fits(p, t, a, b));
    law_small_children_merge::<K, V>(
        p,
        config.merge_policy,
        config.ideal_fill_size as int,
        st,
        w,
        a,
        b,
    );
}

/// What a merge of `c` children into `o.len()` nodes leaves: the children before and behind them as
/// they were, the first one in its place under its id, and as many nodes less as it saves. The
/// storage has the new nodes and none of the children that are gone.
pub proof fn law_merge_result(
    st: Store,
    t: Tree,
    a: int,
    c: nat,
    o: Seq<int>,
    st2: Store,
    t2: Tree,
)
    requires
        merge_result(st, t, a, c, o, st2, t2),
        0 <= a,
        0 < c,
        a + c <= t.kids.len(),
        o.len() > 0,
    ensures
        t2.kids.len() == t.kids.len() - c + o.len(),
        forall|i: int| 0 <= i < a ==> #[trigger] t2.kids[i] == t.kids[i],
        forall|i: int|
            a + o.len() <= i < t2.kids.len() ==> #[trigger] t2.kids[i] == t.kids[i + c - o.len()],
        t2.kids[a].id == t.kids[a].id,
        forall|i: int|
            a < i < a + o.len() ==> !st.nodes.contains_key((#[trigger] t2.kids[i]).id)
                && st2.nodes.contains_key(t2.kids[i].id),
        forall|k: int|
            a < k < a + c && t.kids[k].id != t.kids[a].id && st.nodes.contains_key(
                (#[trigger] t.kids[k]).id,
            ) ==> !st2.nodes.contains_key(t.kids[k].id),
        forall|i: int|
            a <= i < a + o.len() - 1 ==> (#[trigger] t2.kids[i]).next == t2.kids[i + 1].id,
        t2.kids[a + o.len() - 1].next == t.kids[a + c - 1].next,
        st2.ov == st.ov,
{
    let ids = choose|ids: Seq<u64>|
        {
            &&& ids.len() == o.len()
            &&& piece_ids(st, t.kids[a].id, ids)
            &&& t2 == #[trigger] merged_tree(t, a, c, o, ids)
            &&& merged_store(st, t, a, c, ids, st2)
        };
    let j = join_upto(t, a, c);
    let o2 = o.push(j.es.len() as int);
    let nexts = chain_ids(ids, j.next);
    let ns = cut_pieces(j, o2, ids, nexts);
    lemma_joined_next(t, a, c);
    assert forall|i: int| 0 <= i < ns.len() implies #[trigger] t2.kids[a + i] == piece(
        j,
        o2,
        ids,
        nexts,
        i,
    ) by {
        assert(ns[i] == piece(j, o2, ids, nexts, i));
    }
    assert(t2.kids[a + 0] == piece(j, o2, ids, nexts, 0));
    assert forall|i: int| a < i < a + o.len() implies !st.nodes.contains_key(
        (#[trigger] t2.kids[i]).id,
    ) && st2.nodes.contains_key(t2.kids[i].id) by {
        assert(t2.kids[a + (i - a)] == piece(j, o2, ids, nexts, i - a));
        assert(ids.contains(ids[i - a]));
    }
    assert forall|k: int|
        a < k < a + c && t.kids[k].id != t.kids[a].id && st.nodes.contains_key(
            (#[trigger] t.kids[k]).id,
        ) implies !st2.nodes.contains_key(t.kids[k].id) by {
        let gone = child_ids(t, a + 1, a + c);
        assert(gone[k - a - 1] == t.kids[k].id);
        if ids.contains(t.kids[k].id) {
            let m = choose|m: int| 0 <= m < ids.len() && ids[m] == t.kids[k].id;
        }
    }
    assert forall|i: int| a <= i < a + o.len() - 1 implies (#[trigger] t2.kids[i]).next
        == t2.kids[i + 1].id by {
        assert(t2.kids[a + (i - a)] == piece(j, o2, ids, nexts, i - a));
        assert(t2.kids[a + (i + 1 - a)] == piece(j, o2, ids, nexts, i + 1 - a));
    }
    assert(t2.kids[a + (o.len() - 1)] == piece(j, o2, ids, nexts, o.len() - 1));
}

proof fn lemma_joined_next(t: Tree, a: int, n: nat)
    requires
        0 < n,
    ensures
        join_upto(t, a, n).next == t.kids[a + n - 1].next,
    decreases n,
{
}

//==============================================================================
// What is stored
//==============================================================================

/// Where every node and every overflow record of a storage belongs to the tree, this is so after a
/// put or a removal that succeeds: a node is one of the tree, and a record is one that an entry of
/// the tree refers to.
pub proof fn law_all_belongs_to_tree<K: BtreeKey, V: BtreeValue, S: UnderlyingBtree>(
    b: &Btree<K, V, S>,
    b2: &Btree<K, V, S>,
    x: u64,
)
    requires
        b2.leaves_nothing(b),
        forall|x: u64| #[trigger]
            b.storage.store().nodes.contains_key(x) ==> has_id(b.tree@, x),
        forall|x: u64| #[trigger]
            b.storage.store().ov.contains_key(x) ==> exists|i: int|
                0 <= i < flat(b.tree@).len() && (#[trigger] flat(b.tree@)[i]).overflow && id_of(
                    flat(b.tree@)[i].val,
                ) == x,
    ensures
        b2.storage.store().nodes.contains_key(x) ==> has_id(b2.tree@, x),
        b2.storage.store().ov.contains_key(x) ==> exists|i: int|
            0 <= i < flat(b2.tree@).len() && (#[trigger] flat(b2.tree@)[i]).overflow && id_of(
                flat(b2.tree@)[i].val,
            ) == x,
{
    reveal(tidy);
    assert(b.storage.store().ov.contains_key(x) ==> refers(flat(b.tree@), x));
}

/// Where a storage knew the root of a tree, it knows the root after a change.
pub proof fn law_root_is_told<K: BtreeKey, V: BtreeValue, S: UnderlyingBtree>(
    b: &Btree<K, V, S>,
    b2: &Btree<K, V, S>,
)
    requires
        b2.keeps_told(b),
        b.storage.root() == b.root_node_id,
    ensures
        b2.storage.root() == b2.root_node_id,
{
}

/// Where leaves and interior nodes have the variants of the configuration, they have after a put or
/// a removal that succeeds.
pub proof fn law_variant_of_nodes<K: BtreeKey, V: BtreeValue, S: UnderlyingBtree>(
    b: &Btree<K, V, S>,
    b2: &Btree<K, V, S>,
    x: u64,
)
    requires
        b2.keeps_variants(b),
        forall|x: u64| #[trigger]
            b.storage.store().nodes.contains_key(x) ==> b.storage.store().nodes[x].header.node_variant
                == if b.storage.store().nodes[x].header.leaf {
                b.config.leaf_node_variant
            } else {
                b.config.int_node_variant
            },
        b2.storage.store().nodes.contains_key(x),
    ensures
        b2.storage.store().nodes[x].header.node_variant == if b2.storage.store().nodes[x].header.leaf {
            b.config.leaf_node_variant
        } else {
            b.config.int_node_variant
        },
{
    reveal(alike);
}

} // verus!
