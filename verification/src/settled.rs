//! When a walk down a tree finds nothing to merge.

use vstd::prelude::*;
use crate::btree_config::BtreeConfig;
use crate::btree_kvs::{BtreeKey, BtreeValue};
use crate::btree_node::CoreView;
use crate::btree_req::RangeView;
use crate::btree_types::MergePolicy;
use crate::merge_lemmas::join_upto;
use crate::merge_plan::{keys_fit, merge_due, packing_all, packing_upto, plan, staying, used};
use crate::merge_state::piece_keys;
use crate::node_search::is_position;
use crate::query::reach;
use crate::put::lemma_one_position;
use crate::tree_lemmas::lemma_rep_has;
use crate::tree_model::{apart, has_id, placed, rep, reshaped, Params, Place, Store, Tree};

verus! {

/// The node has so few bytes in use that it should be merged with its neighbours.
pub open spec fn under_filled(p: Params, config: BtreeConfig, c: CoreView) -> bool {
    config.merge_policy != MergePolicy::Never && used(p, c) < config.suggested_min_size
}

/// The last of the children that a merge from child `i` on is tried with.
pub open spec fn merge_end(config: BtreeConfig, t: Tree, i: int) -> int {
    let last = t.kids.len() - 1;
    let end = if config.max_merge_nodes == 0 {
        i
    } else {
        i + config.max_merge_nodes - 1
    };
    if end < last {
        end
    } else {
        last
    }
}

/// Child `i` is to be merged with those behind it, and can be.
pub open spec fn merge_wanted(p: Params, config: BtreeConfig, st: Store, t: Tree, i: int) -> bool {
    &&& under_filled(p, config, st.nodes[t.kids[i].id])
    &&& merge_due(
        p,
        config.merge_policy,
        config.ideal_fill_size as int,
        st,
        t,
        i,
        merge_end(config, t, i),
    )
}

/// A walk through the keys of the range comes by child `i`.
pub open spec fn visits<K: BtreeKey>(t: Tree, range: RangeView, i: int) -> bool {
    exists|x: int, y: int|
        {
            &&& #[trigger] is_position::<K>(t.es, range.start, x)
            &&& #[trigger] is_position::<K>(t.es, range.end, y)
            &&& reach(t, x, y) matches Some((s, e)) && s <= i <= e
        }
}

/// No node that a walk through the keys of the range comes by is to be merged.
pub open spec fn settled<K: BtreeKey>(
    p: Params,
    config: BtreeConfig,
    range: RangeView,
    st: Store,
    t: Tree,
) -> bool
    decreases t,
{
    forall|i: int|
        0 <= i < t.kids.len() && !t.leaf && #[trigger] visits::<K>(t, range, i) ==> {
            &&& !merge_wanted(p, config, st, t, i)
            &&& settled::<K>(p, config, range, st, t.kid(i))
        }
}

/// The trees differ in nothing but the entries of their leaves.
pub open spec fn same_shape(t: Tree, t2: Tree) -> bool
    decreases t,
{
    &&& t2 == (Tree { es: t2.es, kids: t2.kids, ..t })
    &&& t2.kids.len() == t.kids.len()
    &&& !t.leaf ==> t2.es == t.es
    &&& forall|i: int| 0 <= i < t.kids.len() ==> same_shape(#[trigger] t.kid(i), t2.kid(i))
}

/// A tree has its own shape.
pub proof fn lemma_own_shape(t: Tree)
    ensures
        same_shape(t, t),
    decreases t,
{
    assert forall|i: int| 0 <= i < t.kids.len() implies same_shape(#[trigger] t.kid(i), t.kid(i)) by {
        lemma_own_shape(t.kid(i));
    }
}

/// The packing of the first `n` children from `a` on depends on nothing but these children.
proof fn lemma_same_packing(
    p: Params,
    fill: int,
    st: Store,
    t: Tree,
    st2: Store,
    t2: Tree,
    a: int,
    n: nat,
)
    requires
        0 <= a,
        0 < n,
        st2.nodes[t.kids[a].id] == st.nodes[t.kids[a].id],
        forall|m: int| a <= m < a + n ==> t2.kids[m] == #[trigger] t.kids[m],
    ensures
        packing_upto(p, fill, st2, t2, a, n) == packing_upto(p, fill, st, t, a, n),
        join_upto(t2, a, n) == join_upto(t, a, n),
    decreases n,
{
    reveal(packing_upto);
    assert(t2.kids[a] == t.kids[a]);
    if n > 1 {
        lemma_same_packing(p, fill, st, t, st2, t2, a, (n - 1) as nat);
        assert(t2.kids[a + n - 1] == t.kids[a + n - 1]);
    }
}

/// Whether a child is to be merged depends on nothing but the keys of its parent, the child and
/// those behind it.
pub proof fn lemma_wanted_same(
    p: Params,
    config: BtreeConfig,
    st: Store,
    t: Tree,
    st2: Store,
    t2: Tree,
    i: int,
)
    requires
        0 <= i < t.kids.len(),
        t2.es == t.es,
        t2.kids.len() == t.kids.len(),
        forall|m: int| i <= m < t.kids.len() ==> t2.kids[m] == #[trigger] t.kids[m],
        st2.nodes[t.kids[i].id] == st.nodes[t.kids[i].id],
    ensures
        merge_wanted(p, config, st2, t2, i) == merge_wanted(p, config, st, t, i),
{
    let fill = config.ideal_fill_size as int;
    let b = merge_end(config, t, i);
    assert(t2.kids[i] == t.kids[i]);
    if i < b {
        assert(t2.kids[b] == t.kids[b]);
        lemma_same_packing(p, fill, st, t, st2, t2, i, (b - i) as nat);
        lemma_same_packing(p, fill, st, t, st2, t2, i, (b - i + 1) as nat);
        reveal(packing_all);
        assert(plan(p, fill, st2, t2, i, b) == plan(p, fill, st, t, i, b));
        if let Some((c, o)) = plan(p, fill, st, t, i, b) {
            let j = join_upto(t, i, c);
            let o2 = o.push(j.es.len() as int);
            let keys = piece_keys(t, i + c - 1, j, o2);
            assert(piece_keys(t2, i + c - 1, j, o2) =~= keys);
            let n = keys.len() as int;
            assert(staying(t2, i, i + c - 1, n) == staying(t, i, i + c - 1, n));
            assert(keys_fit(p, t2, i, i + c - 1, keys) == keys_fit(p, t, i, i + c - 1, keys));
        }
    }
}

/// Whether anything is to be merged depends on nothing but the nodes of the tree.
pub proof fn lemma_settled_same<K: BtreeKey>(
    p: Params,
    config: BtreeConfig,
    range: RangeView,
    st: Store,
    st2: Store,
    t: Tree,
)
    requires
        settled::<K>(p, config, range, st, t),
        forall|x: u64| #[trigger] has_id(t, x) ==> st2.nodes[x] == st.nodes[x],
    ensures
        settled::<K>(p, config, range, st2, t),
    decreases t,
{
    assert forall|i: int|
        0 <= i < t.kids.len() && !t.leaf && #[trigger] visits::<K>(t, range, i) implies {
        &&& !merge_wanted(p, config, st2, t, i)
        &&& settled::<K>(p, config, range, st2, t.kid(i))
    } by {
        let k = t.kid(i);
        assert(has_id(k, k.id));
        assert forall|x: u64| #[trigger] has_id(k, x) implies st2.nodes[x] == st.nodes[x] by {
            assert(has_id(t, x));
        }
        assert(has_id(t, k.id));
        lemma_wanted_same(p, config, st, t, st2, t, i);
        lemma_settled_same::<K>(p, config, range, st, st2, k);
    }
}

/// A walk comes by the children that the positions of the bounds of the range give.
proof fn lemma_visits<K: BtreeKey>(t: Tree, range: RangeView, x: int, y: int, i: int)
    requires
        is_position::<K>(t.es, range.start, x),
        is_position::<K>(t.es, range.end, y),
        visits::<K>(t, range, i),
    ensures
        reach(t, x, y) matches Some((s, e)) && s <= i <= e,
{
    lemma_one_position::<K>(t.es, range.start, x);
    lemma_one_position::<K>(t.es, range.end, y);
}

/// Where nothing is to be merged among the children that a walk comes by, nor below them, nothing
/// is to be merged.
pub proof fn lemma_all_settled<K: BtreeKey>(
    p: Params,
    config: BtreeConfig,
    range: RangeView,
    st: Store,
    t: Tree,
    x: int,
    y: int,
)
    requires
        is_position::<K>(t.es, range.start, x),
        is_position::<K>(t.es, range.end, y),
        reach(t, x, y) matches Some((s, e)) ==> forall|m: int|
            s <= m <= e ==> !merge_wanted(p, config, st, t, m) && settled::<K>(
                p,
                config,
                range,
                st,
                #[trigger] t.kids[m],
            ),
    ensures
        settled::<K>(p, config, range, st, t),
{
    assert forall|i: int|
        0 <= i < t.kids.len() && !t.leaf && #[trigger] visits::<K>(t, range, i) implies {
        &&& !merge_wanted(p, config, st, t, i)
        &&& settled::<K>(p, config, range, st, t.kid(i))
    } by {
        lemma_visits::<K>(t, range, x, y, i);
        assert(t.kid(i) == t.kids[i]);
    }
}

/// A change of a child leaves the nodes of those behind it alone.
pub proof fn lemma_later_kids<K: BtreeKey, V: BtreeValue>(
    p: Params,
    st: Store,
    w: Place,
    i: int,
    st2: Store,
    k2: Tree,
)
    requires
        placed::<K, V>(p, st, w),
        0 <= i < w.t.kids.len(),
        reshaped(st, w.t.kids[i], st2, k2),
    ensures
        forall|m: int, x: u64|
            i < m < w.t.kids.len() && #[trigger] has_id(w.t.kids[m], x) ==> st2.nodes[x]
                == st.nodes[x],
{
    assert forall|m: int, x: u64|
        i < m < w.t.kids.len() && #[trigger] has_id(w.t.kids[m], x) implies st2.nodes[x]
        == st.nodes[x] by {
        assert(apart(w.t.kid(i), w.t.kid(m)));
        assert(has_id(w.t.kid(m), x));
        assert(!has_id(w.t.kid(i), x));
        assert(rep(p, st.nodes, w.t.kid(m)));
        lemma_rep_has(p, st.nodes, w.t.kid(m), x);
    }
}

/// A walk has come from child `from` to child `idx`: `t` has become `t2`, of the same shape, in
/// the children before, among which nothing was to be merged, and the others are as they were.
#[verifier::opaque]
pub open spec fn walked<K: BtreeKey>(
    p: Params,
    config: BtreeConfig,
    range: RangeView,
    st: Store,
    t: Tree,
    from: int,
    idx: int,
    st2: Store,
    t2: Tree,
) -> bool {
    &&& t2 == (Tree { kids: t2.kids, ..t })
    &&& t2.kids.len() == t.kids.len()
    &&& forall|m: int| 0 <= m < t.kids.len() ==> same_shape(#[trigger] t.kids[m], t2.kids[m])
    &&& forall|m: int| idx <= m < t.kids.len() ==> t2.kids[m] == #[trigger] t.kids[m]
    &&& forall|m: int|
        from <= m < idx ==> !merge_wanted(p, config, st, t, m) && settled::<K>(
            p,
            config,
            range,
            st,
            #[trigger] t.kids[m],
        )
    &&& forall|m: int, x: u64|
        idx <= m < t.kids.len() && #[trigger] has_id(t.kids[m], x) ==> st2.nodes[x] == st.nodes[x]
}

pub proof fn lemma_walk_starts<K: BtreeKey>(
    p: Params,
    config: BtreeConfig,
    range: RangeView,
    st: Store,
    t: Tree,
    from: int,
)
    ensures
        walked::<K>(p, config, range, st, t, from, from, st, t),
{
    reveal(walked);
    assert forall|m: int| 0 <= m < t.kids.len() implies same_shape(
        #[trigger] t.kids[m],
        t.kids[m],
    ) by {
        lemma_own_shape(t.kids[m]);
    }
}

/// The walk has come to the next child.
pub proof fn lemma_walk_goes_on<K: BtreeKey, V: BtreeValue>(
    p: Params,
    config: BtreeConfig,
    range: RangeView,
    st: Store,
    t: Tree,
    from: int,
    idx: int,
    st1: Store,
    w: Place,
    st2: Store,
    k2: Tree,
)
    requires
        walked::<K>(p, config, range, st, t, from, idx, st1, w.t),
        0 <= idx < t.kids.len(),
        placed::<K, V>(p, st1, w),
        !merge_wanted(p, config, st1, w.t, idx),
        settled::<K>(p, config, range, st1, w.t.kids[idx]),
        same_shape(w.t.kids[idx], k2),
        reshaped(st1, w.t.kids[idx], st2, k2),
    ensures
        walked::<K>(p, config, range, st, t, from, idx + 1, st2, w.t.with_kid(idx, k2)),
{
    reveal(walked);
    let k = t.kids[idx];
    let t2 = w.t.with_kid(idx, k2);
    assert(w.t.kids[idx] == k);
    assert(has_id(k, k.id));
    lemma_wanted_same(p, config, st, t, st1, w.t, idx);
    lemma_settled_same::<K>(p, config, range, st1, st, k);
    lemma_later_kids::<K, V>(p, st1, w, idx, st2, k2);
    assert forall|m: int| 0 <= m < t.kids.len() implies same_shape(
        #[trigger] t.kids[m],
        t2.kids[m],
    ) by {
        assert(same_shape(t.kids[m], w.t.kids[m]));
    }
    assert forall|m: int, x: u64|
        idx + 1 <= m < t.kids.len() && #[trigger] has_id(t.kids[m], x) implies st2.nodes[x]
        == st.nodes[x] by {
        assert(w.t.kids[m] == t.kids[m]);
        assert(has_id(w.t.kids[m], x));
    }
}

/// The walk breaks off where something is to be merged, which was so from the start.
pub proof fn lemma_walk_breaks_off<K: BtreeKey>(
    p: Params,
    config: BtreeConfig,
    range: RangeView,
    st: Store,
    t: Tree,
    from: int,
    to: int,
    idx: int,
    st1: Store,
    t1: Tree,
    x: int,
    y: int,
)
    requires
        walked::<K>(p, config, range, st, t, from, idx, st1, t1),
        !t.leaf,
        from <= idx <= to,
        0 <= idx < t.kids.len(),
        is_position::<K>(t.es, range.start, x),
        is_position::<K>(t.es, range.end, y),
        reach(t, x, y) == Some((from, to)),
        merge_wanted(p, config, st1, t1, idx) || !settled::<K>(
            p,
            config,
            range,
            st1,
            t1.kids[idx],
        ),
    ensures
        !settled::<K>(p, config, range, st, t),
{
    reveal(walked);
    if settled::<K>(p, config, range, st, t) {
        let k = t.kids[idx];
        assert(t1.kids[idx] == k && t.kid(idx) == k);
        assert(visits::<K>(t, range, idx));
        assert(has_id(k, k.id));
        lemma_wanted_same(p, config, st, t, st1, t1, idx);
        lemma_settled_same::<K>(p, config, range, st, st1, k);
    }
}

/// The walk has come to its end.
pub proof fn lemma_walk_ends<K: BtreeKey>(
    p: Params,
    config: BtreeConfig,
    range: RangeView,
    st: Store,
    t: Tree,
    from: int,
    idx: int,
    st2: Store,
    t2: Tree,
    x: int,
    y: int,
)
    requires
        walked::<K>(p, config, range, st, t, from, idx + 1, st2, t2),
        is_position::<K>(t.es, range.start, x),
        is_position::<K>(t.es, range.end, y),
        reach(t, x, y) == Some((from, idx)),
    ensures
        settled::<K>(p, config, range, st, t),
        same_shape(t, t2),
{
    reveal(walked);
    lemma_all_settled::<K>(p, config, range, st, t, x, y);
    assert forall|i: int| 0 <= i < t.kids.len() implies same_shape(#[trigger] t.kid(i), t2.kid(i)) by {
        assert(same_shape(t.kids[i], t2.kids[i]));
    }
}

} // verus!
