//! The variants of the nodes of a tree.

use vstd::prelude::*;
use crate::btree_config::BtreeConfig;
use crate::btree_node::CoreView;
use crate::tree_model::Store;

verus! {

/// The node has the variant that the configuration gives it.
pub open spec fn as_configured(config: BtreeConfig, c: CoreView) -> bool {
    c.header.node_variant == if c.header.leaf {
        config.leaf_node_variant
    } else {
        config.int_node_variant
    }
}

/// All nodes have the variants that the configuration gives them.
pub open spec fn uniform(config: BtreeConfig, st: Store) -> bool {
    forall|x: u64| #[trigger] st.nodes.contains_key(x) ==> as_configured(config, st.nodes[x])
}

/// Where all nodes had the variants that the configuration gives them, they still have.
#[verifier::opaque]
pub open spec fn alike(config: BtreeConfig, st: Store, st2: Store) -> bool {
    uniform(config, st) ==> uniform(config, st2)
}

/// Both nodes are leaves or neither is, and they have the same variant.
pub open spec fn same_kind(a: CoreView, b: CoreView) -> bool {
    a.header.leaf == b.header.leaf && a.header.node_variant == b.header.node_variant
}

/// Each node has the variant that the configuration gives it, or is of the kind of a node that
/// was there before.
pub proof fn lemma_alike(config: BtreeConfig, st: Store, st2: Store)
    requires
        forall|x: u64| #[trigger]
            st2.nodes.contains_key(x) ==> as_configured(config, st2.nodes[x]) || exists|y: u64|
                st.nodes.contains_key(y) && #[trigger] same_kind(st2.nodes[x], st.nodes[y]),
    ensures
        alike(config, st, st2),
{
    reveal(alike);
    if uniform(config, st) {
        assert forall|x: u64| #[trigger] st2.nodes.contains_key(x) implies as_configured(
            config,
            st2.nodes[x],
        ) by {}
    }
}

pub proof fn lemma_alike_same(config: BtreeConfig, st: Store)
    ensures
        alike(config, st, st),
{
    reveal(alike);
}

pub proof fn lemma_alike_both(config: BtreeConfig, st: Store, st1: Store, st2: Store)
    requires
        alike(config, st, st1),
        alike(config, st1, st2),
    ensures
        alike(config, st, st2),
{
    reveal(alike);
}

/// A node has been written in place of one of its kind, or with the variant that the
/// configuration gives it.
pub proof fn lemma_alike_write(config: BtreeConfig, st: Store, id: u64, c: CoreView, st2: Store)
    requires
        st2.nodes == st.nodes.insert(id, c),
        as_configured(config, c) || st.nodes.contains_key(id) && same_kind(c, st.nodes[id]),
    ensures
        alike(config, st, st2),
{
    assert forall|x: u64| #[trigger]
        st2.nodes.contains_key(x) implies as_configured(config, st2.nodes[x]) || exists|y: u64|
        st.nodes.contains_key(y) && #[trigger] same_kind(st2.nodes[x], st.nodes[y]) by {
        if x != id {
            assert(same_kind(st2.nodes[x], st.nodes[x]));
        } else if !as_configured(config, c) {
            assert(same_kind(st2.nodes[x], st.nodes[id]));
        }
    }
    lemma_alike(config, st, st2);
}

} // verus!
