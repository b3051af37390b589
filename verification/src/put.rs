//! Putting keys and values into the tree.

use vstd::prelude::*;
use crate::btree::Btree;
use crate::btree_config::BtreeConfig;
use crate::btree_kvs::{
    id_bytes, id_of, lemma_id_bytes, BNodeId, BtreeKey, BtreeValue, Entry, ValueOrOverflow,
    EMPTY_BNODEID,
};
use crate::btree_node::{CoreView, NodeCore};
use crate::btree_req::{copy_value, replaces, BtreeKeyRange, PutFilter, RangeView};
use crate::btree_types::{BtreeError, IoErrorKind};
use crate::contents::{
    is_first, lemma_filter_add, lemma_filter_all, lemma_filter_none, lemma_pick, lemma_pick_middle,
    lemma_pick_none, lemma_pick_some, ordered, pick, with_key,
};
use crate::merge::{kept, lemma_kept_placed};
use crate::merge_lemmas::{lemma_hi_refl, sound_at};
use crate::node_layout::lemma_entry_lens;
use crate::node_search::is_position;
use crate::query::in_range;
use crate::splice_lemmas::child_entry;
use crate::split::{deep, free_of, key_room, lemma_half_full, slack};
use crate::tidy_lemmas::{
    lemma_tidy_both, lemma_tidy_kid, lemma_tidy_leaf, lemma_tidy_node, lemma_tidy_over, lemma_tidy_same,
};
use crate::tree_lemmas::{
    lemma_flat_all_one, lemma_flat_split, lemma_lt_not_lt, lemma_rep_frame, lemma_rep_has,
    lemma_replace_kid, lemma_reshaped_trans, lemma_widen,
};
use crate::tree_measure::{lemma_total_kid, lemma_total_one, total, total_all};
use crate::tree_model::{
    apart, core_rep, distinct, flat, flat_all, has_id, key_ok, kv, kvs, node_rep, ov_ok, placed,
    refers, rep, reshaped, sorted, sound, tidy, val_ok, KV, Params, Place, Store, Tree,
};
use crate::underlying::UnderlyingBtree;
use crate::variants::{alike, lemma_alike_both, lemma_alike_same, lemma_alike_write};
use crate::varlen_node_common::VarRecordOps;

verus! {

/// What a put has done.
#[derive(Debug, Clone, Copy, PartialEq, Eq, Structural)]
pub enum PutResult {
    /// The key is new.
    Success,
    /// The key was there and has a new value.
    Updated,
    /// The key was there, and the filter has kept its value.
    Skipped,
}

//==============================================================================
// The entries after a put
//==============================================================================

/// Entries with smaller keys.
pub open spec fn under<K: BtreeKey>(k: Seq<u8>) -> spec_fn(KV) -> bool {
    |e: KV| K::lt(e.key, k)
}

/// Entries with greater keys.
pub open spec fn over<K: BtreeKey>(k: Seq<u8>) -> spec_fn(KV) -> bool {
    |e: KV| K::lt(k, e.key)
}

/// The entries with `e` in the place of its key.
pub open spec fn updated<K: BtreeKey>(s: Seq<KV>, e: KV) -> Seq<KV> {
    s.filter(under::<K>(e.key)) + seq![e] + s.filter(over::<K>(e.key))
}

/// What a put makes of entries `s`.
pub open spec fn put_outcome<K: BtreeKey, V: BtreeValue, F: PutFilter<K, V>>(
    s: Seq<KV>,
    e: KV,
    filter: Option<&F>,
    r: PutResult,
    s2: Seq<KV>,
) -> bool {
    match pick(s, with_key(e.key)) {
        None => r == PutResult::Success && s2 == updated::<K>(s, e),
        Some(old) => if replaces::<K, V, F>(filter, old, e.val) {
            r == PutResult::Updated && s2 == updated::<K>(s, e)
        } else {
            r == PutResult::Skipped && s2 == s
        },
    }
}

/// Entries of which the first `i` have smaller keys and those from `j` on greater ones.
pub proof fn lemma_updated<K: BtreeKey>(s: Seq<KV>, e: KV, i: int, j: int)
    requires
        0 <= i <= j <= s.len(),
        forall|m: int| 0 <= m < i ==> K::lt((#[trigger] s[m]).key, e.key),
        forall|m: int| i <= m < j ==> (#[trigger] s[m]).key == e.key,
        forall|m: int| j <= m < s.len() ==> K::lt(e.key, (#[trigger] s[m]).key),
    ensures
        updated::<K>(s, e) == s.take(i) + seq![e] + s.skip(j),
{
    let a = s.take(i);
    let b = s.subrange(i, j);
    let c = s.skip(j);
    let f = under::<K>(e.key);
    let g = over::<K>(e.key);
    K::lemma_irreflexive(e.key);
    assert(s =~= a + b + c);
    lemma_filter_add(a + b, c, f);
    lemma_filter_add(a, b, f);
    lemma_filter_add(a + b, c, g);
    lemma_filter_add(a, b, g);
    assert forall|m: int| 0 <= m < a.len() implies f(#[trigger] a[m]) && !g(a[m]) by {
        assert(a[m] == s[m]);
        lemma_lt_not_lt::<K>(a[m].key, e.key);
    }
    assert forall|m: int| 0 <= m < b.len() implies !f(#[trigger] b[m]) && !g(b[m]) by {
        assert(b[m] == s[m + i]);
    }
    assert forall|m: int| 0 <= m < c.len() implies !f(#[trigger] c[m]) && g(c[m]) by {
        assert(c[m] == s[m + j]);
        lemma_lt_not_lt::<K>(e.key, c[m].key);
    }
    lemma_filter_all(a, f);
    lemma_filter_none(a, g);
    lemma_filter_none(b, f);
    lemma_filter_none(b, g);
    lemma_filter_none(c, f);
    lemma_filter_all(c, g);
    assert(s.filter(f) =~= a);
    assert(s.filter(g) =~= c);
}

/// A put in the middle of three pieces.
pub proof fn lemma_put_middle<K: BtreeKey, V: BtreeValue, F: PutFilter<K, V>>(
    a: Seq<KV>,
    m: Seq<KV>,
    b: Seq<KV>,
    e: KV,
    filter: Option<&F>,
    r: PutResult,
    m2: Seq<KV>,
)
    requires
        forall|i: int| 0 <= i < a.len() ==> K::lt((#[trigger] a[i]).key, e.key),
        forall|i: int| 0 <= i < b.len() ==> K::lt(e.key, (#[trigger] b[i]).key),
        put_outcome::<K, V, F>(m, e, filter, r, m2),
    ensures
        put_outcome::<K, V, F>(a + m + b, e, filter, r, a + m2 + b),
{
    let f = under::<K>(e.key);
    let g = over::<K>(e.key);
    K::lemma_irreflexive(e.key);
    assert forall|i: int| 0 <= i < a.len() implies !with_key(e.key)(#[trigger] a[i]) && f(a[i])
        && !g(a[i]) by {
        lemma_lt_not_lt::<K>(a[i].key, e.key);
    }
    assert forall|i: int| 0 <= i < b.len() implies !with_key(e.key)(#[trigger] b[i]) && !f(b[i])
        && g(b[i]) by {
        lemma_lt_not_lt::<K>(e.key, b[i].key);
    }
    lemma_pick_middle(a, m, b, with_key(e.key));
    lemma_filter_add(a + m, b, f);
    lemma_filter_add(a, m, f);
    lemma_filter_add(a + m, b, g);
    lemma_filter_add(a, m, g);
    lemma_filter_all(a, f);
    lemma_filter_none(a, g);
    lemma_filter_none(b, f);
    lemma_filter_all(b, g);
    assert(updated::<K>(a + m + b, e) =~= a + updated::<K>(m, e) + b);
}

//==============================================================================
// Leaves
//==============================================================================

/// A leaf has room for a key with a stored value of the given length.
pub open spec fn leaf_room<K: BtreeKey>(p: Params, t: Tree, k: Seq<u8>, stored: int) -> bool {
    forall|i: int| #[trigger]
        is_position::<K>(t.es, k, i) ==> if i < t.es.len() && t.es[i].key == k {
            k.len() + stored <= t.es[i].size() + free_of(p, t)
        } else {
            k.len() + stored + p.leaf.rec <= free_of(p, t)
        }
}

/// The tree has an entry for the key, with the value in an overflow record if it is too long for a
/// node, and else in the entry.
pub open spec fn kept_as(config: BtreeConfig, t: Tree, e: KV) -> bool {
    exists|i: int|
        0 <= i < flat(t).len() && (#[trigger] flat(t)[i]).key == e.key && flat(t)[i].overflow
            == config.overflows(e.val.len() as int)
}

/// An entry below a child is one below its parent.
proof fn lemma_kept_kid(config: BtreeConfig, t: Tree, i: int, k2: Tree, e: KV)
    requires
        !t.leaf,
        0 <= i < t.kids.len(),
        kept_as(config, k2, e),
    ensures
        kept_as(config, t.with_kid(i, k2), e),
{
    let t2 = t.with_kid(i, k2);
    let j = choose|j: int|
        0 <= j < flat(k2).len() && (#[trigger] flat(k2)[j]).key == e.key && flat(k2)[j].overflow
            == config.overflows(e.val.len() as int);
    lemma_flat_split(t2.kids, i);
    assert(t2.kids[i] == k2);
    assert(flat(t2)[flat_all(t2.kids.take(i)).len() + j] == flat(k2)[j]);
}

/// A leaf with entry `e` at the position of its key.
pub open spec fn leaf_with(t: Tree, i: int, found: bool, e: Entry) -> Tree {
    Tree {
        es: if found {
            t.es.update(i, e)
        } else {
            t.es.insert(i, e)
        },
        ..t
    }
}

/// The leaf with the entry is a search tree.
proof fn lemma_leaf_with_sound<K: BtreeKey, V: BtreeValue>(
    p: Params,
    w: Place,
    i: int,
    found: bool,
    e: Entry,
)
    requires
        sound_at::<K, V>(p, w),
        w.t.leaf,
        is_position::<K>(w.t.es, e.key, i),
        found == (i < w.t.es.len() && w.t.es[i].key == e.key),
        key_ok::<K>(p, e.key, w.lo, w.hi),
        val_ok::<V>(p, e),
    ensures
        sound_at::<K, V>(p, w.with(leaf_with(w.t, i, found, e))),
        forall|m: int|
            (i + if found {
                1int
            } else {
                0int
            }) <= m < w.t.es.len() ==> K::lt(e.key, (#[trigger] w.t.es[m]).key),
{
    let es = w.t.es;
    let t2 = leaf_with(w.t, i, found, e);
    let from = i + if found {
        1int
    } else {
        0int
    };
    assert forall|m: int| from <= m < es.len() implies K::lt(e.key, (#[trigger] es[m]).key) by {
        K::lemma_total(e.key, es[m].key);
        if m > i {
            assert(K::lt(es[i].key, es[m].key));
            if es[m].key == e.key {
                assert(!K::lt(es[i].key, e.key));
            }
        }
    }
    assert forall|m: int| 0 <= m < t2.es.len() implies #[trigger] t2.es[m] == if m < i {
        es[m]
    } else if m == i {
        e
    } else if found {
        es[m]
    } else {
        es[m - 1]
    } by {}
    assert forall|m: int, n: int| 0 <= m < n < t2.es.len() implies K::lt(
        #[trigger] t2.es[m].key,
        #[trigger] t2.es[n].key,
    ) by {}
    assert forall|m: int| 0 <= m < t2.es.len() implies key_ok::<K>(
        p,
        #[trigger] t2.es[m].key,
        w.lo,
        w.hi,
    ) by {}
    assert forall|m: int| 0 <= m < t2.es.len() implies val_ok::<V>(p, #[trigger] t2.es[m]) by {}
}

/// The overflow records of the leaf with the entry, and what it holds.
proof fn lemma_leaf_with_ov<V: BtreeValue>(
    ov: Map<u64, Seq<u8>>,
    es: Seq<Entry>,
    i: int,
    found: bool,
    e: Entry,
    val: Seq<u8>,
    ov2: Map<u64, Seq<u8>>,
)
    requires
        ov_ok::<V>(ov, es),
        0 <= i <= es.len(),
        found ==> i < es.len(),
        e.overflow ==> !ov.contains_key(id_of(e.val)) && ov2.contains_key(id_of(e.val)) && ov2[id_of(
            e.val,
        )] == val && V::valid(val),
        !e.overflow ==> e.val == val,
        forall|x: u64| #[trigger]
            ov.contains_key(x) && !(found && es[i].overflow && id_of(es[i].val) == x)
                ==> ov2.contains_key(x) && ov2[x] == ov[x],
    ensures
        ({
            let es2 = if found {
                es.update(i, e)
            } else {
                es.insert(i, e)
            };
            let x = KV { key: e.key, val };
            let s = kvs(ov, es);
            &&& ov_ok::<V>(ov2, es2)
            &&& kvs(ov2, es2) == s.take(i) + seq![x] + s.skip(
                i + if found {
                    1int
                } else {
                    0int
                },
            )
            &&& forall|y: u64| #[trigger]
                refers(es2, y) ==> refers(es, y) || !ov.contains_key(y)
            &&& forall|y: u64| #[trigger]
                ov.contains_key(y) && !refers(es, y) ==> ov2.contains_key(y) && ov2[y] == ov[y]
        }),
{
    let es2 = if found {
        es.update(i, e)
    } else {
        es.insert(i, e)
    };
    let from = |m: int|
        if m < i || found {
            m
        } else {
            m - 1
        };
    assert forall|m: int| 0 <= m < es2.len() && m != i implies #[trigger] es2[m] == es[from(m)]
        && 0 <= from(m) < es.len() && (found ==> from(m) != i) by {}
    // the other entries keep their records
    assert forall|m: int| 0 <= m < es2.len() && m != i && (#[trigger] es2[m]).overflow implies {
        let y = id_of(es2[m].val);
        ov.contains_key(y) && ov2.contains_key(y) && ov2[y] == ov[y] && V::valid(ov[y])
    } by {
        let n = from(m);
        assert(es[n] == es2[m]);
        if found && es[i].overflow {
            if n < i {
                assert(id_of(es[n].val) != id_of(es[i].val));
            } else {
                assert(id_of(es[i].val) != id_of(es[n].val));
            }
        }
    }
    assert forall|m: int, n: int|
        0 <= m < n < es2.len() && (#[trigger] es2[m]).overflow && (
        #[trigger] es2[n]).overflow implies id_of(es2[m].val) != id_of(es2[n].val) by {
        if m != i && n != i {
            assert(es[from(m)] == es2[m] && es[from(n)] == es2[n]);
            assert(from(m) < from(n));
        }
    }
    let s = kvs(ov, es);
    let x = KV { key: e.key, val };
    let right = s.take(i) + seq![x] + s.skip(
        i + if found {
            1int
        } else {
            0int
        },
    );
    assert(kvs(ov2, es2) =~= right) by {
        assert forall|m: int| 0 <= m < es2.len() implies kvs(ov2, es2)[m] == right[m] by {
            if m == i {
                assert(es2[m] == e);
            } else {
                assert(es2[m] == es[from(m)]);
            }
        }
    }
    assert forall|y: u64| #[trigger] refers(es2, y) implies refers(es, y) || !ov.contains_key(y) by {
        let m = choose|m: int|
            0 <= m < es2.len() && (#[trigger] es2[m]).overflow && id_of(es2[m].val) == y;
        if m != i {
            assert(es[from(m)] == es2[m]);
        }
    }
}

/// A leaf that has been written with its entry is in its place.
proof fn lemma_leaf_put<K: BtreeKey, V: BtreeValue>(
    p: Params,
    st: Store,
    w: Place,
    t2: Tree,
    c: CoreView,
    st2: Store,
)
    requires
        placed::<K, V>(p, st, w),
        w.t.leaf,
        t2 == (Tree { es: t2.es, ..w.t }),
        sound_at::<K, V>(p, w.with(t2)),
        core_rep(p, c, t2),
        ov_ok::<V>(st2.ov, t2.es),
        st2.nodes == st.nodes.insert(w.t.id, c),
        forall|y: u64| #[trigger] refers(t2.es, y) ==> refers(w.t.es, y) || !st.ov.contains_key(y),
        forall|y: u64| #[trigger]
            st.ov.contains_key(y) && !refers(w.t.es, y) ==> st2.ov.contains_key(y) && st2.ov[y]
                == st.ov[y],
    ensures
        placed::<K, V>(p, st2, w.with(t2)),
        reshaped(st, w.t, st2, t2),
{
    assert(node_rep(p, st.nodes, w.t));
    assert(node_rep(p, st2.nodes, t2));
    assert(rep(p, st2.nodes, t2));
    assert(distinct(t2));
    assert(has_id(w.t, w.t.id));
    assert forall|x: u64| #[trigger] has_id(t2, x) implies has_id(w.t, x) by {}
}

impl<K: BtreeKey, V: BtreeValue, S: UnderlyingBtree> Btree<K, V, S> {
    /// A put at a place has been done: the tree has become `t2`.
    pub open spec fn put_done<F: PutFilter<K, V>>(
        &self,
        w: Place,
        e: KV,
        filter: Option<&F>,
        r: PutResult,
        b: &Self,
        t2: Tree,
    ) -> bool {
        &&& placed::<K, V>(self.params(), b.storage.store(), w.with(t2))
        &&& reshaped(self.storage.store(), w.t, b.storage.store(), t2)
        &&& tidy(self.storage.store(), w.t, b.storage.store(), t2)
        &&& alike(self.config, self.storage.store(), b.storage.store())
        &&& put_outcome::<K, V, F>(self.kvs_at(w), e, filter, r, b.kvs_at(w.with(t2)))
        &&& r != PutResult::Skipped ==> kept_as(self.config, t2, e)
    }

    /// Puts the key into a leaf that has room for it.
    #[verifier::rlimit(20)]
    fn put_in_leaf<F: PutFilter<K, V>>(
        &mut self,
        leaf: &NodeCore,
        key: &K,
        value: &V,
        filter: Option<&F>,
        Ghost(w): Ghost<Place>,
    ) -> (r: (Result<PutResult, BtreeError>, Ghost<Tree>))
        requires
            old(self).at(leaf@, w),
            w.t.leaf,
            key_ok::<K>(old(self).params(), key.bytes(), w.lo, w.hi),
            old(self).config.storable::<K, V>(
                key.bytes().len() as int,
                value.bytes().len() as int,
            ),
            leaf_room::<K>(
                old(self).params(),
                w.t,
                key.bytes(),
                old(self).config.stored_len(value.bytes().len() as int),
            ),
        ensures
            r.0 matches Err(e) ==> old(self).storage.failures().contains(e),
            final(self).env_of(old(self)),
            final(self).tree == old(self).tree,
            final(self).height == old(self).height,
            final(self).root_node_id == old(self).root_node_id,
            final(self).storage.root() == old(self).storage.root(),
            r.0 matches Ok(res) ==> old(self).put_done(
                w,
                KV { key: key.bytes(), val: value.bytes() },
                filter,
                res,
                final(self),
                r.1@,
            ),
            r.0 is Err && old(self).storage.reliable() ==> final(self).storage.exhausted() && kept(
                old(self).storage.store(),
                final(self).storage.store(),
            ),
    {
        let ghost p = self.params();
        let ghost st = self.storage.store();
        let ghost t = w.t;
        let ghost k = key.bytes();
        let ghost x = KV { key: k, val: value.bytes() };
        let ghost s = self.kvs_at(w);
        proof {
            self.lemma_at(leaf@, w);
            self.config.lemma_usable::<K, V>();
            self.config.lemma_storable::<K, V>(k.len() as int, value.bytes().len() as int);
            value.lemma_bytes_valid();
            K::lemma_irreflexive(k);
        }
        let (found, idx) = self.leaf_ops.find::<K, V>(leaf, key);
        let ghost i = idx as int;
        proof {
            lemma_leaf_pick::<K>(st.ov, t.es, k, i, found);
        }
        let mut old_overflow: Option<BNodeId> = None;
        if found {
            if let Some(f) = filter {
                let existing = match self.leaf_value(leaf, idx, Ghost(w)) {
                    Ok(v) => v,
                    Err(e) => {
                        return (Err(e), Ghost(t));
                    },
                };
                if !f.accepts(key, &existing, value) {
                    proof {
                        lemma_kept_placed::<K, V>(p, st, st, w);
                        lemma_tidy_same(st, t);
                        lemma_alike_same(self.config, st);
                    }
                    return (Ok(PutResult::Skipped), Ghost(t));
                }
            }
            old_overflow = self.overflow_id(leaf, idx, Ghost(w));
        }
        let bytes: Vec<u8> = value.serialize();
        let stored: ValueOrOverflow<V> = if bytes.len() > self.config.inline_size() as usize {
            match self.storage.write_overflow(bytes) {
                Ok(id) => ValueOrOverflow::Overflow(id),
                Err(e) => {
                    return (Err(e), Ghost(t));
                },
            }
        } else {
            ValueOrOverflow::Inline(copy_value(value))
        };
        let ghost e = stored.entry(k);
        let ghost t2 = leaf_with(t, i, found, e);
        proof {
            if let ValueOrOverflow::Overflow(id) = stored {
                lemma_id_bytes(id);
            }
            assert(e.val.len() == self.config.stored_len(value.bytes().len() as int));
            assert(p.leaf.fits(e));
            assert(val_ok::<V>(p, e));
            lemma_leaf_with_sound::<K, V>(p, w, i, found, e);
        }
        let mut work = leaf.copy();
        if found {
            let _ = self.leaf_ops.update::<K, V>(&mut work, idx, &stored);
        } else {
            let _ = self.leaf_ops.insert::<K, V>(&mut work, idx, key, &stored);
        }
        proof {
            assert(node_rep(p, st.nodes, t));
            assert(core_rep(p, work@, t2));
        }
        if let Err(e) = self.storage.write_node(&work) {
            return (Err(e), Ghost(t));
        }
        let ghost ov1 = self.storage.store().ov;
        if let Some(id) = old_overflow {
            proof {
                assert(flat(t)[i] == t.es[i]);
                assert(st.ov.contains_key(id));
            }
            if let Err(e) = self.storage.delete_overflow(id) {
                return (Err(e), Ghost(t));
            }
        }
        proof {
            let st2 = self.storage.store();
            assert forall|y: u64| #[trigger]
                st.ov.contains_key(y) && !(found && t.es[i].overflow && id_of(t.es[i].val)
                    == y) implies st2.ov.contains_key(y) && st2.ov[y] == st.ov[y] by {
                assert(ov1.contains_key(y));
            }
            lemma_leaf_with_ov::<V>(st.ov, t.es, i, found, e, value.bytes(), st2.ov);
            lemma_leaf_put::<K, V>(p, st, w, t2, work@, st2);
            lemma_tidy_leaf(st, t, i, found, e, st2, t2);
            lemma_alike_write(self.config, st, t.id, work@, st2);
            let j = i + if found {
                1int
            } else {
                0int
            };
            assert forall|m: int| j <= m < s.len() implies K::lt(k, (#[trigger] s[m]).key) by {
                assert(s[m].key == t.es[m].key);
            }
            assert forall|m: int| 0 <= m < i implies K::lt((#[trigger] s[m]).key, k) by {
                assert(s[m].key == t.es[m].key);
            }
            lemma_updated::<K>(s, x, i, j);
            assert(self.kvs_at(w.with(t2)) == updated::<K>(s, x));
            assert(flat(t2)[i] == e);
        }
        if found {
            (Ok(PutResult::Updated), Ghost(t2))
        } else {
            (Ok(PutResult::Success), Ghost(t2))
        }
    }
}

/// The entry of a leaf with a key.
proof fn lemma_leaf_pick<K: BtreeKey>(
    ov: Map<u64, Seq<u8>>,
    es: Seq<Entry>,
    k: Seq<u8>,
    i: int,
    found: bool,
)
    requires
        sorted::<K>(es),
        is_position::<K>(es, k, i),
        found == (i < es.len() && es[i].key == k),
    ensures
        pick(kvs(ov, es), with_key(k)) == if found {
            Some(kv(ov, es[i]))
        } else {
            None
        },
{
    let s = kvs(ov, es);
    let f = with_key(k);
    K::lemma_irreflexive(k);
    assert forall|j: int| 0 <= j < s.len() && j < i implies !f(#[trigger] s[j]) by {
        assert(K::lt(es[j].key, k));
    }
    if found {
        lemma_pick(s, f, i);
    } else {
        assert forall|j: int| 0 <= j < s.len() implies !f(#[trigger] s[j]) by {
            if j > i && es[j].key == k {
                assert(K::lt(es[i].key, es[j].key));
            }
        }
        lemma_pick_none(s, f);
    }
}

//==============================================================================
// The walk down
//==============================================================================

/// A node has room for what a put brings: a leaf for the entry, an interior node for a key.
pub open spec fn put_room<K: BtreeKey>(p: Params, t: Tree, k: Seq<u8>, stored: int) -> bool {
    if t.leaf {
        leaf_room::<K>(p, t, k, stored)
    } else {
        key_room(p, t)
    }
}

/// A node with at most one entry has room.
proof fn lemma_put_room<K: BtreeKey, V: BtreeValue>(p: Params, w: Place, k: Seq<u8>, stored: int)
    requires
        p.wf(),
        sound_at::<K, V>(p, w),
        w.t.es.len() <= 1,
        k.len() <= p.max_key,
        0 <= stored <= p.max_val,
    ensures
        put_room::<K>(p, w.t, k, stored),
{
    broadcast use crate::record_sizes::lemma_times;

    lemma_half_full::<K, V>(p, w);
}

/// What a step of a put has come to.
pub enum PutStep {
    /// The put is done.
    Done(PutResult),
    /// A node has been split, and the put has to start over.
    Retry,
}

/// The tree with the key of its last child raised to `k`.
pub open spec fn raised(t: Tree, k: Seq<u8>) -> Tree {
    let i = t.es.len() - 1;
    Tree { es: t.es.update(i, child_entry(k, t.kids[i].id)), ..t }
}

/// Raising the key of the last child.
proof fn lemma_raised<K: BtreeKey, V: BtreeValue>(
    p: Params,
    st: Store,
    w: Place,
    k: Seq<u8>,
    c: CoreView,
    st2: Store,
)
    requires
        placed::<K, V>(p, st, w),
        !w.t.leaf,
        !w.t.edge,
        is_position::<K>(w.t.es, k, w.t.es.len() as int),
        key_ok::<K>(p, k, w.lo, w.hi),
        core_rep(p, c, raised(w.t, k)),
        st2 == (Store { nodes: st.nodes.insert(w.t.id, c), ..st }),
    ensures
        placed::<K, V>(p, st2, w.with(raised(w.t, k))),
        reshaped(st, w.t, st2, raised(w.t, k)),
        tidy(st, w.t, st2, raised(w.t, k)),
        flat(raised(w.t, k)) == flat(w.t),
{
    let t = w.t;
    let t2 = raised(t, k);
    let n = t.es.len() as int;
    let i = n - 1;
    assert(t2.kids == t.kids);
    assert(t.es[i].val == id_bytes(t.kids[i].id));
    assert forall|m: int| 0 <= m < t2.es.len() implies key_ok::<K>(
        p,
        #[trigger] t2.es[m].key,
        w.lo,
        w.hi,
    ) by {
        if m < i {
            assert(key_ok::<K>(p, t.es[m].key, w.lo, w.hi));
        }
    }
    assert forall|m: int, q: int| 0 <= m < q < t2.es.len() implies K::lt(
        #[trigger] t2.es[m].key,
        #[trigger] t2.es[q].key,
    ) by {
        if q == i {
            assert(K::lt(t.es[m].key, k));
        } else {
            assert(K::lt(t.es[m].key, t.es[q].key));
        }
    }
    assert forall|m: int| 0 <= m < t2.es.len() implies {
        &&& (#[trigger] t2.es[m]).val == id_bytes(t2.kids[m].id)
        &&& !t2.es[m].overflow
        &&& !t2.kids[m].edge
    } by {
        assert(t.es[m].val == id_bytes(t.kids[m].id));
    }
    assert forall|m: int| 0 <= m < t2.kids.len() implies sound::<K, V>(
        p,
        #[trigger] t2.kid(m),
        (w.h - 1) as nat,
        t2.after(m, w.after),
        t2.lo(m, w.lo),
        t2.hi(m, w.hi),
    ) by {
        assert(t2.kid(m) == t.kid(m));
        assert(t2.after(m, w.after) == t.after(m, w.after));
        assert(t2.lo(m, w.lo) == t.lo(m, w.lo));
        if m == i {
            assert(K::lt(t.es[i].key, k));
            lemma_lt_not_lt::<K>(t.es[i].key, k);
            lemma_hi_refl::<K>(t.lo(m, w.lo));
            lemma_widen::<K, V>(
                p,
                t.kid(m),
                (w.h - 1) as nat,
                t.after(m, w.after),
                t.lo(m, w.lo),
                t.hi(m, w.hi),
                t2.lo(m, w.lo),
                t2.hi(m, w.hi),
            );
        } else {
            assert(t2.hi(m, w.hi) == t.hi(m, w.hi));
        }
    }
    assert(node_rep(p, st.nodes, t));
    assert(node_rep(p, st2.nodes, t2));
    lemma_tidy_node(st, t, st2, t2);
    assert forall|m: int| 0 <= m < t2.kids.len() implies {
        let q = #[trigger] t2.kid(m);
        rep(p, st2.nodes, q) && distinct(q) && !has_id(q, t2.id)
    } by {
        let q = t.kid(m);
        assert(t2.kid(m) == q);
        assert(rep(p, st.nodes, q));
        assert(!has_id(q, t.id));
        assert(distinct(q));
        assert forall|x: u64| #[trigger] has_id(q, x) implies st2.nodes.contains_key(x)
            && st2.nodes[x] == st.nodes[x] by {
            lemma_rep_has(p, st.nodes, q, x);
        }
        lemma_rep_frame(p, st.nodes, st2.nodes, q);
    }
    assert forall|m: int, q: int|
        0 <= m < t2.kids.len() && 0 <= q < t2.kids.len() && m != q implies apart(
        #[trigger] t2.kid(m),
        #[trigger] t2.kid(q),
    ) by {
        assert(apart(t.kid(m), t.kid(q)));
    }
    assert(has_id(t, t.id));
    assert forall|x: u64| #[trigger] has_id(t2, x) implies has_id(t, x) by {
        if x != t2.id {
            let m = choose|m: int| 0 <= m < t2.kids.len() && has_id(#[trigger] t2.kid(m), x);
            assert(has_id(t.kid(m), x));
        }
    }
}

impl<K: BtreeKey, V: BtreeValue, S: UnderlyingBtree> Btree<K, V, S> {
    /// Whether a node is too full for what a put brings.
    fn is_split_needed(&self, node: &NodeCore, key: &K, val_len: usize, Ghost(w): Ghost<Place>) -> (r:
        bool)
        requires
            self.at(node@, w),
            key.bytes().len() <= self.params().max_key,
            self.config.stored_len(val_len as int) <= self.params().max_val,
        ensures
            !r ==> put_room::<K>(
                self.params(),
                w.t,
                key.bytes(),
                self.config.stored_len(val_len as int),
            ),
            r ==> w.t.es.len() >= 2 && !put_room::<K>(
                self.params(),
                w.t,
                key.bytes(),
                self.config.stored_len(val_len as int),
            ),
    {
        let ghost p = self.params();
        proof {
            self.lemma_at(node@, w);
            self.config.lemma_usable::<K, V>();
            if w.t.es.len() <= 1 {
                lemma_put_room::<K, V>(
                    p,
                    w,
                    key.bytes(),
                    self.config.stored_len(val_len as int),
                );
            }
        }
        if node.header.nentries <= 1 {
            return false;
        }
        let free: u32 = self.free_bytes(node, Ghost(w));
        if !node.is_leaf() {
            let rec: usize = VarRecordOps::record_size(
                &self.int_ops.record_ops,
            );
            let need: u32 = self.config.max_key_size() + 8 + rec as u32;
            return need > free;
        }
        let stored: usize = if val_len > self.config.inline_size() as usize {
            8
        } else {
            val_len
        };
        let key_len: usize = key.serialize().len();
        let rec: usize = VarRecordOps::record_size(
            &self.leaf_ops.record_ops,
        );
        let (found, idx) = self.leaf_ops.find::<K, V>(node, key);
        proof {
            lemma_one_position::<K>(w.t.es, key.bytes(), idx as int);
            if found {
                lemma_entry_lens(
                    p.leaf,
                    node@.buf,
                    node@.header.nentries as int,
                    idx as int,
                );
            }
        }
        if found {
            let old_key: usize = self.leaf_ops.get_key_size::<K, V>(node, idx);
            let old_val: usize = self.leaf_ops.get_value_size::<K, V>(node, idx);
            key_len + stored > old_key + old_val + free as usize
        } else {
            key_len + stored + rec > free as usize
        }
    }

    /// Raises the key of the last child of a node without an edge.
    fn raise_last_key(&mut self, node: &NodeCore, key: &K, Ghost(w): Ghost<Place>) -> (r: Result<
        NodeCore,
        BtreeError,
    >)
        requires
            old(self).at(node@, w),
            !w.t.leaf,
            !w.t.edge,
            is_position::<K>(w.t.es, key.bytes(), w.t.es.len() as int),
            key_ok::<K>(old(self).params(), key.bytes(), w.lo, w.hi),
            key_room(old(self).params(), w.t),
        ensures
            r matches Err(e) ==> old(self).storage.failures().contains(e),
            final(self).env_of(old(self)),
            final(self).tree == old(self).tree,
            final(self).height == old(self).height,
            final(self).root_node_id == old(self).root_node_id,
            final(self).storage.root() == old(self).storage.root(),
            r matches Ok(c) ==> {
                let t2 = raised(w.t, key.bytes());
                &&& final(self).at(c@, w.with(t2))
                &&& reshaped(old(self).storage.store(), w.t, final(self).storage.store(), t2)
                &&& tidy(old(self).storage.store(), w.t, final(self).storage.store(), t2)
                &&& alike(
                    old(self).config,
                    old(self).storage.store(),
                    final(self).storage.store(),
                )
                &&& final(self).kvs_at(w.with(t2)) == old(self).kvs_at(w)
                &&& kept_kids(old(self).storage.store(), w.t, final(self).storage.store())
            },
            old(self).storage.reliable() ==> r is Ok,
    {
        let ghost p = self.params();
        let ghost st = self.storage.store();
        let ghost t = w.t;
        let ghost i = t.es.len() - 1;
        proof {
            self.lemma_at(node@, w);
            self.lemma_edge(node@, w);
            self.config.lemma_usable::<K, V>();
            assert(node_rep(p, st.nodes, t));
        }
        let idx: u32 = node.header.nentries - 1;
        let id: BNodeId = self.get_nth_child_id(node, idx, Ghost(w));
        let mut p2 = node.copy();
        let child: ValueOrOverflow<u64> = ValueOrOverflow::Inline(id);
        proof {
            lemma_id_bytes(id);
            assert(t.es[i].val == id_bytes(t.kids[i].id));
            assert(p.interior.fits(child_entry(key.bytes(), id)));
        }
        let _ = self.int_ops.update_with_key::<K, u64>(&mut p2, idx, key, &child);
        proof {
            assert(core_rep(p, p2@, raised(t, key.bytes())));
        }
        if let Err(e) = self.storage.write_node(&p2) {
            return Err(e);
        }
        proof {
            lemma_raised::<K, V>(p, st, w, key.bytes(), p2@, self.storage.store());
            lemma_alike_write(self.config, st, t.id, p2@, self.storage.store());
            assert(has_id(t, t.id));
            assert forall|x: u64| #[trigger] st.nodes.contains_key(x) && x != t.id implies self.storage.store().nodes.contains_key(
                x,
            ) && self.storage.store().nodes[x] == st.nodes[x] by {}
        }
        Ok(p2)
    }
}

/// Only the root of the tree may have changed.
pub open spec fn kept_kids(st: Store, t: Tree, st2: Store) -> bool {
    &&& st2.ov == st.ov
    &&& forall|x: u64| #[trigger]
        st.nodes.contains_key(x) && x != t.id ==> st2.nodes.contains_key(x) && st2.nodes[x]
            == st.nodes[x]
}

/// A key has one position.
pub proof fn lemma_one_position<K: BtreeKey>(es: Seq<Entry>, k: Seq<u8>, i: int)
    requires
        is_position::<K>(es, k, i),
    ensures
        forall|j: int| #[trigger] is_position::<K>(es, k, j) ==> j == i,
{
    assert forall|j: int| #[trigger] is_position::<K>(es, k, j) implies j == i by {
        if j < i {
            assert(K::lt(es[j].key, k));
        } else if i < j {
            assert(K::lt(es[i].key, k));
        }
    }
}

impl<K: BtreeKey, V: BtreeValue, S: UnderlyingBtree> Btree<K, V, S> {
    /// The tree at a place has become `t2`, with the same entries.
    pub open spec fn rearranged(&self, w: Place, b: &Self, t2: Tree) -> bool {
        &&& placed::<K, V>(self.params(), b.storage.store(), w.with(t2))
        &&& reshaped(self.storage.store(), w.t, b.storage.store(), t2)
        &&& b.kvs_at(w.with(t2)) == self.kvs_at(w)
    }

    /// A child has been rearranged, and with it its parent.
    proof fn lemma_rearranged_kid(&self, w: Place, b: &Self, i: int, k2: Tree)
        requires
            placed::<K, V>(self.params(), self.storage.store(), w),
            0 <= i < w.t.kids.len(),
            self.rearranged(w.kid(i), b, k2),
        ensures
            self.rearranged(w, b, w.t.with_kid(i, k2)),
    {
        lemma_replace_kid::<K, V>(
            self.params(),
            self.storage.store(),
            w.t,
            w.h,
            w.after,
            w.lo,
            w.hi,
            i,
            b.storage.store(),
            k2,
        );
    }

    /// A put below a child is a put below its parent.
    proof fn lemma_put_kid<F: PutFilter<K, V>>(
        &self,
        w: Place,
        e: KV,
        filter: Option<&F>,
        r: PutResult,
        b: &Self,
        i: int,
        k2: Tree,
    )
        requires
            placed::<K, V>(self.params(), self.storage.store(), w),
            !w.t.leaf,
            0 <= i < w.t.kids.len(),
            is_position::<K>(w.t.es, e.key, i),
            self.put_done(w.kid(i), e, filter, r, b, k2),
        ensures
            self.put_done(w, e, filter, r, b, w.t.with_kid(i, k2)),
    {
        let p = self.params();
        let st = self.storage.store();
        lemma_replace_kid::<K, V>(
            p,
            st,
            w.t,
            w.h,
            w.after,
            w.lo,
            w.hi,
            i,
            b.storage.store(),
            k2,
        );
        lemma_tidy_kid(st, w.t, i, b.storage.store(), k2);
        if r != PutResult::Skipped {
            lemma_kept_kid(self.config, w.t, i, k2, e);
        }
        self.lemma_position(w, e.key, i);
        self.lemma_kid_split(w, i);
        if i == w.t.es.len() {
            self.lemma_kid_ends(w);
        }
        lemma_put_middle::<K, V, F>(
            self.kvs_before(w, i),
            self.kvs_at(w.kid(i)),
            self.kvs_from(w, i + 1),
            e,
            filter,
            r,
            b.kvs_at(w.kid(i).with(k2)),
        );
    }

    /// Puts the key below a node that has room for what a put brings. A child that has not is
    /// split on the way, and the put has to start over.
    #[verifier::rlimit(30)]
    fn put_walk<F: PutFilter<K, V>>(
        &mut self,
        node: &NodeCore,
        key: &K,
        value: &V,
        val_len: usize,
        filter: Option<&F>,
        Ghost(w): Ghost<Place>,
        Ghost(d): Ghost<nat>,
    ) -> (r: (Result<PutStep, BtreeError>, Ghost<Tree>))
        requires
            old(self).at(node@, w),
            key_ok::<K>(old(self).params(), key.bytes(), w.lo, w.hi),
            val_len == value.bytes().len(),
            old(self).config.storable::<K, V>(key.bytes().len() as int, val_len as int),
            put_room::<K>(
                old(self).params(),
                w.t,
                key.bytes(),
                old(self).config.stored_len(val_len as int),
            ),
        ensures
            r.0 matches Err(e) ==> old(self).storage.failures().contains(e),
            final(self).env_of(old(self)),
            final(self).tree == old(self).tree,
            final(self).height == old(self).height,
            final(self).root_node_id == old(self).root_node_id,
            final(self).storage.root() == old(self).storage.root(),
            r.0 matches Ok(PutStep::Done(res)) ==> old(self).put_done(
                w,
                KV { key: key.bytes(), val: value.bytes() },
                filter,
                res,
                final(self),
                r.1@,
            ),
            r.0 matches Ok(PutStep::Retry) ==> {
                &&& old(self).rearranged(w, final(self), r.1@)
                &&& tidy(old(self).storage.store(), w.t, final(self).storage.store(), r.1@)
                &&& alike(
                    old(self).config,
                    old(self).storage.store(),
                    final(self).storage.store(),
                )
                &&& total(r.1@, d, slack()) <= total(w.t, d, slack())
                &&& total(r.1@, d, deep()) < total(w.t, d, deep())
            },
            r.0 is Err && old(self).storage.reliable() ==> final(self).storage.exhausted() && old(
                self,
            ).rearranged(w, final(self), r.1@),
        decreases w.t,
    {
        let ghost p = self.params();
        let ghost st = self.storage.store();
        let ghost t = w.t;
        let ghost k = key.bytes();
        let ghost e = KV { key: k, val: value.bytes() };
        proof {
            self.lemma_at(node@, w);
            self.config.lemma_usable::<K, V>();
            self.config.lemma_storable::<K, V>(k.len() as int, val_len as int);
            lemma_kept_placed::<K, V>(p, st, st, w);
            lemma_tidy_same(st, t);
            lemma_alike_same(self.config, st);
        }
        if node.is_leaf() {
            let (r, t2) = self.put_in_leaf(node, key, value, filter, Ghost(w));
            return match r {
                Ok(res) => (Ok(PutStep::Done(res)), t2),
                Err(e) => {
                    proof {
                        if old(self).storage.reliable() {
                            lemma_kept_placed::<K, V>(p, st, self.storage.store(), w);
                        }
                    }
                    (Err(e), Ghost(t))
                },
            };
        }
        let n: u32 = node.header.nentries;
        let (_, pos) = self.int_ops.find::<K, u64>(node, key);
        proof {
            self.lemma_edge(node@, w);
        }
        let raise: bool = pos == n && !node.has_valid_edge();
        let idx: u32 = if raise {
            n - 1
        } else {
            pos
        };
        let child = match self.get_child(node, idx, Ghost(w)) {
            Ok(c) => c,
            Err(e) => {
                return (Err(e), Ghost(t));
            },
        };
        let ghost i = idx as int;
        if self.is_split_needed(&child, key, val_len, Ghost(w.kid(i))) {
            return match self.split_child(node, idx, child, Ghost(w), Ghost(d)) {
                Ok(t2) => (Ok(PutStep::Retry), t2),
                Err(e) => {
                    proof {
                        if old(self).storage.reliable() {
                            lemma_kept_placed::<K, V>(p, st, self.storage.store(), w);
                        }
                    }
                    (Err(e), Ghost(t))
                },
            };
        }
        let ghost wc = if raise {
            w.with(raised(t, k))
        } else {
            w
        };
        if raise {
            if let Err(e) = self.raise_last_key(node, key, Ghost(w)) {
                return (Err(e), Ghost(t));
            }
        }
        let ghost mid = *self;
        let ghost st1 = self.storage.store();
        let ghost kw = wc.kid(i);
        proof {
            lemma_into_child::<K, V, S>(old(self), &mid, node@, child@, w, wc, k, i, raise);
        }
        let (r, Ghost(k2)) = self.put_walk(
            &child,
            key,
            value,
            val_len,
            filter,
            Ghost(kw),
            Ghost(d + 1),
        );
        let ghost t2 = wc.t.with_kid(i, k2);
        proof {
            match r {
                Ok(PutStep::Done(res)) => {
                    lemma_put_step::<K, V, S, F>(old(self), &mid, self, w, wc, e, filter, res, i, k2);
                },
                Ok(PutStep::Retry) => {
                    lemma_retry_step::<K, V, S>(old(self), &mid, self, w, wc, i, k2);
                    lemma_tidy_kid(st1, wc.t, i, self.storage.store(), k2);
                    lemma_tidy_both(st, t, st1, wc.t, self.storage.store(), t2);
                    lemma_alike_both(self.config, st, st1, self.storage.store());
                    lemma_total_kid(wc.t, i, k2, d, slack());
                    lemma_total_kid(wc.t, i, k2, d, deep());
                    assert(total(wc.t, d, slack()) == total(t, d, slack()));
                    assert(total(wc.t, d, deep()) == total(t, d, deep()));
                },
                Err(_) => {
                    if old(self).storage.reliable() {
                        lemma_retry_step::<K, V, S>(old(self), &mid, self, w, wc, i, k2);
                    }
                },
            }
        }
        (r, Ghost(t2))
    }

    /// Splits the root under a new one.
    fn split_root(&mut self, root: NodeCore) -> (r: Result<(), BtreeError>)
        requires
            old(self).wf(),
            old(self).at(root@, old(self).top()),
            old(self).tree@.es.len() >= 2,
        ensures
            r matches Err(e) ==> old(self).storage.failures().contains(e),
            final(self).env_of(old(self)),
            r is Ok || old(self).storage.reliable() ==> final(self).keeps_told(old(self)),
            r is Ok || old(self).storage.reliable() ==> final(self).wf() && final(self)@ == old(
                self,
            )@,
            r is Ok ==> final(self).leaves_nothing(old(self)) && final(self).keeps_variants(
                old(self),
            ),
            r is Ok ==> total(final(self).tree@, 0, slack()) < total(
                old(self).tree@,
                0,
                slack(),
            ),
            r is Err && old(self).storage.reliable() ==> final(self).storage.exhausted(),
    {
        let ghost p = self.params();
        let ghost st = self.storage.store();
        let ghost w = self.top();
        let ghost t = self.tree@;
        proof {
            self.lemma_at(root@, w);
            self.config.lemma_usable::<K, V>();
            assert(node_rep(p, st.nodes, t));
        }
        let mut top = match self.create_new_node(false, self.config.int_node_variant) {
            Ok(c) => c,
            Err(e) => {
                return Err(e);
            },
        };
        let ghost st1 = self.storage.store();
        top.set_edge(self.root_node_id);
        let top_id: BNodeId = top.node_id();
        proof {
            lemma_kept_placed::<K, V>(p, st, st1, w);
        }
        if let Err(e) = self.storage.write_node(&top) {
            return Err(e);
        }
        let ghost st2 = self.storage.store();
        let ghost nt = Tree {
            id: top_id,
            next: EMPTY_BNODEID,
            leaf: false,
            es: Seq::empty(),
            kids: seq![t],
            edge: true,
        };
        let ghost nw = Place { t: nt, h: w.h + 1, after: EMPTY_BNODEID, lo: None, hi: None };
        proof {
            assert(kept(st, st2));
            lemma_kept_placed::<K, V>(p, st, st2, w);
            lemma_new_top::<K, V>(p, st, st2, w, nt, top@);
            assert(nw.kid(0) == w);
            assert(self.at(top@, nw));
            assert(self.at(root@, nw.kid(0)));
            assert(nt.es =~= Seq::<Entry>::empty());
        }
        let ghost before = *self;
        match self.split_child(&top, 0, root, Ghost(nw), Ghost(0nat)) {
            Err(e) => {
                proof {
                    if old(self).storage.reliable() {
                        assert(kept(st, self.storage.store()));
                        lemma_kept_placed::<K, V>(p, st, self.storage.store(), w);
                    }
                }
                Err(e)
            },
            Ok(t2) => {
                if let Err(e) = self.storage.on_root_changed(top_id) {
                    return Err(e);
                }
                self.root_node_id = top_id;
                self.tree = t2;
                self.height = Ghost(w.h + 1);
                proof {
                    lemma_flat_all_one(t);
                    assert(flat(nt) == flat(t));
                    lemma_total_one(t, 1, slack());
                    lemma_slack_depth(t, 1, 0);
                    lemma_tidy_over(st, t, st2, nt);
                    lemma_tidy_both(st, t, st2, nt, self.storage.store(), t2@);
                    assert(st2.nodes =~= st.nodes.insert(top_id, top@));
                    lemma_alike_write(self.config, st, top_id, top@, st2);
                    lemma_alike_both(self.config, st, st2, self.storage.store());
                    assert(self.top() == nw.with(t2@));
                }
                Ok(())
            },
        }
    }
}

/// The child at the position of a key, after the key of the last child has been raised where it
/// was too small.
proof fn lemma_into_child<K: BtreeKey, V: BtreeValue, S: UnderlyingBtree>(
    b0: &Btree<K, V, S>,
    b1: &Btree<K, V, S>,
    node: CoreView,
    child: CoreView,
    w: Place,
    wc: Place,
    k: Seq<u8>,
    i: int,
    raise: bool,
)
    requires
        b0.at(node, w),
        b0.at(child, w.kid(i)),
        b1.env_of(b0),
        !w.t.leaf,
        0 <= i < w.t.kids.len(),
        key_ok::<K>(b0.params(), k, w.lo, w.hi),
        raise ==> {
            &&& is_position::<K>(w.t.es, k, w.t.es.len() as int)
            &&& i == w.t.es.len() - 1
            &&& wc == w.with(raised(w.t, k))
            &&& placed::<K, V>(b0.params(), b1.storage.store(), wc)
            &&& kept_kids(b0.storage.store(), w.t, b1.storage.store())
        },
        !raise ==> is_position::<K>(w.t.es, k, i) && wc == w && b1.storage.store()
            == b0.storage.store(),
    ensures
        wc.t.kids == w.t.kids,
        wc.t.es.len() == w.t.es.len(),
        !wc.t.leaf,
        b1.at(child, wc.kid(i)),
        is_position::<K>(wc.t.es, k, i),
        key_ok::<K>(b0.params(), k, wc.kid(i).lo, wc.kid(i).hi),
{
    let t = w.t;
    let p = b0.params();
    b0.lemma_kid_at(node, w, i);
    assert(!has_id(t.kid(i), t.id));
    assert(has_id(t.kid(i), t.kids[i].id));
    b1.lemma_kid_at(b1.storage.store().nodes[wc.t.id], wc, i);
    if raise {
        K::lemma_irreflexive(k);
        assert forall|j: int| 0 <= j < i implies K::lt(#[trigger] wc.t.es[j].key, k) by {
            assert(K::lt(t.es[j].key, k));
        }
    }
}

/// Two changes of a tree, each of which leaves nothing behind and keeps the variants of nodes.
pub proof fn lemma_leaves_both<K: BtreeKey, V: BtreeValue, S: UnderlyingBtree>(
    b0: &Btree<K, V, S>,
    b1: &Btree<K, V, S>,
    b2: &Btree<K, V, S>,
)
    requires
        b1.config == b0.config,
        b1.leaves_nothing(b0),
        b1.keeps_variants(b0),
        b2.leaves_nothing(b1),
        b2.keeps_variants(b1),
    ensures
        b2.leaves_nothing(b0),
        b2.keeps_variants(b0),
{
    lemma_alike_both(b0.config, b0.storage.store(), b1.storage.store(), b2.storage.store());
    lemma_tidy_both(
        b0.storage.store(),
        b0.tree@,
        b1.storage.store(),
        b1.tree@,
        b2.storage.store(),
        b2.tree@,
    );
}

/// A put below a child of a tree that was rearranged before.
proof fn lemma_put_step<K: BtreeKey, V: BtreeValue, S: UnderlyingBtree, F: PutFilter<K, V>>(
    b0: &Btree<K, V, S>,
    b1: &Btree<K, V, S>,
    b2: &Btree<K, V, S>,
    w: Place,
    wc: Place,
    e: KV,
    filter: Option<&F>,
    r: PutResult,
    i: int,
    k2: Tree,
)
    requires
        b1.env_of(b0),
        wc == w.with(wc.t),
        b0.rearranged(w, b1, wc.t),
        tidy(b0.storage.store(), w.t, b1.storage.store(), wc.t),
        alike(b0.config, b0.storage.store(), b1.storage.store()),
        !wc.t.leaf,
        0 <= i < wc.t.kids.len(),
        is_position::<K>(wc.t.es, e.key, i),
        b1.put_done(wc.kid(i), e, filter, r, b2, k2),
    ensures
        b0.put_done(w, e, filter, r, b2, wc.t.with_kid(i, k2)),
{
    let t2 = wc.t.with_kid(i, k2);
    b1.lemma_put_kid(wc, e, filter, r, b2, i, k2);
    lemma_alike_both(b0.config, b0.storage.store(), b1.storage.store(), b2.storage.store());
    lemma_tidy_both(
        b0.storage.store(),
        w.t,
        b1.storage.store(),
        wc.t,
        b2.storage.store(),
        t2,
    );
    lemma_reshaped_trans(
        b0.storage.store(),
        w.t,
        b1.storage.store(),
        wc.t,
        b2.storage.store(),
        t2,
    );
    assert(wc.with(t2) == w.with(t2));
}

/// A child of a tree that was rearranged before has been rearranged.
proof fn lemma_retry_step<K: BtreeKey, V: BtreeValue, S: UnderlyingBtree>(
    b0: &Btree<K, V, S>,
    b1: &Btree<K, V, S>,
    b2: &Btree<K, V, S>,
    w: Place,
    wc: Place,
    i: int,
    k2: Tree,
)
    requires
        b1.env_of(b0),
        wc == w.with(wc.t),
        b0.rearranged(w, b1, wc.t),
        0 <= i < wc.t.kids.len(),
        b1.rearranged(wc.kid(i), b2, k2),
    ensures
        b0.rearranged(w, b2, wc.t.with_kid(i, k2)),
{
    let t2 = wc.t.with_kid(i, k2);
    b1.lemma_rearranged_kid(wc, b2, i, k2);
    lemma_reshaped_trans(
        b0.storage.store(),
        w.t,
        b1.storage.store(),
        wc.t,
        b2.storage.store(),
        t2,
    );
    assert(wc.with(t2) == w.with(t2));
}

/// The excess entries do not depend on the depth of the root.
proof fn lemma_slack_depth(t: Tree, d: nat, e: nat)
    ensures
        total(t, d, slack()) == total(t, e, slack()),
    decreases t, 1nat,
{
    lemma_slack_all_depth(t.kids, d + 1, e + 1);
}

proof fn lemma_slack_all_depth(ks: Seq<Tree>, d: nat, e: nat)
    ensures
        total_all(ks, d, slack()) == total_all(ks, e, slack()),
    decreases ks, 0nat,
{
    if ks.len() > 0 {
        lemma_slack_all_depth(ks.drop_last(), d, e);
        lemma_slack_depth(ks.last(), d, e);
    }
}

/// A new root over the old one.
proof fn lemma_new_top<K: BtreeKey, V: BtreeValue>(
    p: Params,
    st: Store,
    st2: Store,
    w: Place,
    nt: Tree,
    c: CoreView,
)
    requires
        placed::<K, V>(p, st, w),
        placed::<K, V>(p, st2, w),
        w.after == EMPTY_BNODEID,
        w.lo is None,
        w.hi is None,
        nt == (Tree {
            id: nt.id,
            next: EMPTY_BNODEID,
            leaf: false,
            es: Seq::empty(),
            kids: seq![w.t],
            edge: true,
        }),
        nt.id != EMPTY_BNODEID,
        !st.nodes.contains_key(nt.id),
        st2.nodes.contains_key(nt.id),
        st2.nodes[nt.id] == c,
        core_rep(p, c, nt),
    ensures
        placed::<K, V>(
            p,
            st2,
            Place { t: nt, h: w.h + 1, after: EMPTY_BNODEID, lo: None, hi: None },
        ),
{
    let nw = Place { t: nt, h: w.h + 1, after: EMPTY_BNODEID, lo: None, hi: None };
    lemma_flat_all_one(w.t);
    assert(flat(nt) == flat(w.t));
    assert(node_rep(p, st2.nodes, nt));
    assert forall|i: int| 0 <= i < nt.kids.len() implies {
        let q = #[trigger] nt.kid(i);
        rep(p, st2.nodes, q) && distinct(q) && !has_id(q, nt.id)
    } by {
        if has_id(w.t, nt.id) {
            lemma_rep_has(p, st.nodes, w.t, nt.id);
        }
    }
    assert forall|i: int| 0 <= i < nt.kids.len() implies sound::<K, V>(
        p,
        #[trigger] nt.kid(i),
        (nw.h - 1) as nat,
        nt.after(i, nw.after),
        nt.lo(i, nw.lo),
        nt.hi(i, nw.hi),
    ) by {}
}

impl<K: BtreeKey, V: BtreeValue, S: UnderlyingBtree> Btree<K, V, S> {
    /// Puts a key with its value: a new key is inserted, and the value of an existing one is
    /// replaced if the filter accepts that. Keys and values that the tree does not take are
    /// refused.
    pub fn put_one<F: PutFilter<K, V>>(&mut self, key: &K, value: &V, filter: Option<&F>) -> (r:
        Result<PutResult, BtreeError>)
        requires
            old(self).wf(),
        ensures
            r matches Err(e) ==> old(self).storage.failures().contains(e) || e == BtreeError::Io(
                IoErrorKind::InvalidInput,
            ) && !old(self).config.storable::<K, V>(
                key.bytes().len() as int,
                value.bytes().len() as int,
            ),
            final(self).env_of(old(self)),
            r is Ok || old(self).storage.reliable() ==> final(self).keeps_told(old(self)),
            r is Ok ==> final(self).leaves_nothing(old(self)),
            r is Ok ==> final(self).keeps_variants(old(self)),
            r matches Ok(res) ==> {
                &&& final(self).wf()
                &&& put_outcome::<K, V, F>(
                    old(self)@,
                    KV { key: key.bytes(), val: value.bytes() },
                    filter,
                    res,
                    final(self)@,
                )
                &&& res != PutResult::Skipped ==> kept_as(
                    old(self).config,
                    final(self).tree@,
                    KV { key: key.bytes(), val: value.bytes() },
                )
            },
            !old(self).config.storable::<K, V>(
                key.bytes().len() as int,
                value.bytes().len() as int,
            ) ==> *final(self) == *old(self) && r == Err::<PutResult, BtreeError>(
                BtreeError::Io(IoErrorKind::InvalidInput),
            ),
            r is Err && old(self).storage.reliable() ==> {
                &&& final(self).wf()
                &&& final(self)@ == old(self)@
                &&& old(self).config.storable::<K, V>(
                    key.bytes().len() as int,
                    value.bytes().len() as int,
                ) ==> final(self).storage.exhausted()
            },
    {
        self.put_one_internal(key, value, filter)
    }

    fn put_one_internal<F: PutFilter<K, V>>(&mut self, key: &K, value: &V, filter: Option<&F>) -> (r:
        Result<PutResult, BtreeError>)
        requires
            old(self).wf(),
        ensures
            r matches Err(e) ==> old(self).storage.failures().contains(e) || e == BtreeError::Io(
                IoErrorKind::InvalidInput,
            ) && !old(self).config.storable::<K, V>(
                key.bytes().len() as int,
                value.bytes().len() as int,
            ),
            final(self).env_of(old(self)),
            r is Ok || old(self).storage.reliable() ==> final(self).keeps_told(old(self)),
            r is Ok ==> final(self).leaves_nothing(old(self)),
            r is Ok ==> final(self).keeps_variants(old(self)),
            r matches Ok(res) ==> {
                &&& final(self).wf()
                &&& put_outcome::<K, V, F>(
                    old(self)@,
                    KV { key: key.bytes(), val: value.bytes() },
                    filter,
                    res,
                    final(self)@,
                )
                &&& res != PutResult::Skipped ==> kept_as(
                    old(self).config,
                    final(self).tree@,
                    KV { key: key.bytes(), val: value.bytes() },
                )
            },
            !old(self).config.storable::<K, V>(
                key.bytes().len() as int,
                value.bytes().len() as int,
            ) ==> *final(self) == *old(self) && r == Err::<PutResult, BtreeError>(
                BtreeError::Io(IoErrorKind::InvalidInput),
            ),
            r is Err && old(self).storage.reliable() ==> {
                &&& final(self).wf()
                &&& final(self)@ == old(self)@
                &&& old(self).config.storable::<K, V>(
                    key.bytes().len() as int,
                    value.bytes().len() as int,
                ) ==> final(self).storage.exhausted()
            },
    {
        let ghost s0 = self@;
        let key_len: usize = key.serialize().len();
        let val_len: usize = value.serialize().len();
        if !self.config.is_storable::<K, V>(key_len, val_len) {
            return Err(BtreeError::Io(IoErrorKind::InvalidInput));
        }
        proof {
            key.lemma_bytes_valid();
            self.config.lemma_usable::<K, V>();
            self.config.lemma_storable::<K, V>(key_len as int, val_len as int);
            lemma_tidy_same(self.storage.store(), self.tree@);
            lemma_alike_same(self.config, self.storage.store());
        }
        loop
            invariant
                self.leaves_nothing(old(self)),
                self.keeps_variants(old(self)),
                s0 == old(self)@,
                self@ == s0,
                self.wf(),
                self.env_of(old(self)),
                self.keeps_told(old(self)),
                K::valid(key.bytes()),
                key_len == key.bytes().len(),
                val_len == value.bytes().len(),
                old(self).config.storable::<K, V>(key_len as int, val_len as int),
                self.params().wf(),
                self.config.stored_len(val_len as int) <= self.params().max_val,
            decreases total(self.tree@, 0, slack()), total(self.tree@, 0, deep()),
        {
            let root = match self.read_root() {
                Ok(c) => c,
                Err(e) => {
                    return Err(e);
                },
            };
            let ghost w = self.top();
            if self.is_split_needed(&root, key, val_len, Ghost(w)) {
                let ghost before = *self;
                if let Err(e) = self.split_root(root) {
                    return Err(e);
                }
                proof {
                    lemma_leaves_both(old(self), &before, self);
                }
                continue;
            }
            let ghost before = *self;
            let (r, Ghost(t2)) = self.put_walk(
                &root,
                key,
                value,
                val_len,
                filter,
                Ghost(w),
                Ghost(0nat),
            );
            self.tree = Ghost(t2);
            proof {
                if r is Ok || old(self).storage.reliable() {
                    assert(self.top() == w.with(t2));
                }
                if r is Ok {
                    lemma_leaves_both(old(self), &before, self);
                }
            }
            match r {
                Ok(PutStep::Done(res)) => {
                    return Ok(res);
                },
                Ok(PutStep::Retry) => {},
                Err(e) => {
                    return Err(e);
                },
            }
        }
    }
}

//==============================================================================
// Ranges
//==============================================================================

/// An entry after a put of value `v` to all keys of a range.
pub open spec fn put_over<K: BtreeKey, V: BtreeValue, F: PutFilter<K, V>>(
    e: KV,
    range: RangeView,
    v: Seq<u8>,
    filter: Option<&F>,
) -> KV {
    if range.has::<K>(e.key) && replaces::<K, V, F>(filter, e, v) {
        KV { key: e.key, val: v }
    } else {
        e
    }
}

/// The entries after a put of value `v` to all keys of a range.
pub open spec fn put_over_all<K: BtreeKey, V: BtreeValue, F: PutFilter<K, V>>(
    s: Seq<KV>,
    range: RangeView,
    v: Seq<u8>,
    filter: Option<&F>,
) -> Seq<KV> {
    Seq::new(s.len(), |i: int| put_over::<K, V, F>(s[i], range, v, filter))
}

/// How far a put to a range has come: the entries before `done` are behind it.
pub open spec fn range_progress<K: BtreeKey, V: BtreeValue, F: PutFilter<K, V>>(
    s0: Seq<KV>,
    range: RangeView,
    v: Seq<u8>,
    filter: Option<&F>,
    rest: RangeView,
    s: Seq<KV>,
    done: int,
) -> bool {
    &&& 0 <= done <= s0.len()
    &&& s.len() == s0.len()
    &&& forall|m: int|
        0 <= m < s0.len() ==> #[trigger] s[m] == if m < done {
            put_over::<K, V, F>(s0[m], range, v, filter)
        } else {
            s0[m]
        }
    &&& forall|m: int|
        0 <= m < s0.len() ==> rest.has::<K>((#[trigger] s0[m]).key) == (m >= done && range.has::<K>(
            s0[m].key,
        ))
}

/// One more key of the range has been dealt with.
proof fn lemma_range_step<K: BtreeKey, V: BtreeValue, F: PutFilter<K, V>>(
    s0: Seq<KV>,
    range: RangeView,
    v: Seq<u8>,
    filter: Option<&F>,
    rest: RangeView,
    s: Seq<KV>,
    done: int,
    i: int,
    r: PutResult,
    s2: Seq<KV>,
)
    requires
        ordered::<K>(s0),
        ordered::<K>(s),
        range_progress::<K, V, F>(s0, range, v, filter, rest, s, done),
        is_first(s, in_range::<K>(rest), i),
        put_outcome::<K, V, F>(s, KV { key: s[i].key, val: v }, filter, r, s2),
        rest.end == range.end,
        rest.end_incl == range.end_incl,
    ensures
        done <= i < s0.len(),
        range_progress::<K, V, F>(
            s0,
            range,
            v,
            filter,
            RangeView { start: s[i].key, start_incl: false, ..rest },
            s2,
            i + 1,
        ),
{
    let e = KV { key: s[i].key, val: v };
    let rest2 = RangeView { start: s[i].key, start_incl: false, ..rest };
    assert(s[i].key == s0[i].key);
    assert(rest.has::<K>(s0[i].key));
    assert(s[i] == s0[i]);
    // the put has hit this entry
    assert(is_first(s, with_key(e.key), i)) by {
        assert forall|j: int| 0 <= j < i implies !with_key(e.key)(#[trigger] s[j]) by {
            assert(K::lt(s[j].key, s[i].key));
            K::lemma_irreflexive(e.key);
        }
    }
    lemma_pick(s, with_key(e.key), i);
    lemma_updated::<K>(s, e, i, i + 1);
    assert(s.take(i) + seq![e] + s.skip(i + 1) =~= s.update(i, e));
    assert forall|m: int| 0 <= m < s0.len() implies #[trigger] s2[m] == if m < i + 1 {
        put_over::<K, V, F>(s0[m], range, v, filter)
    } else {
        s0[m]
    } by {
        if done <= m < i {
            assert(!in_range::<K>(rest)(s[m]));
            assert(s[m] == s0[m]);
        } else if m != i {
            assert(s2[m] == s[m]);
        }
    }
    assert forall|m: int| 0 <= m < s0.len() implies rest2.has::<K>((#[trigger] s0[m]).key) == (m >= i
        + 1 && range.has::<K>(s0[m].key)) by {
        K::lemma_irreflexive(s0[i].key);
        if m < i {
            assert(K::lt(s0[m].key, s0[i].key));
            lemma_lt_not_lt::<K>(s0[m].key, s0[i].key);
        } else if m > i {
            assert(K::lt(s0[i].key, s0[m].key));
            assert(rest.has::<K>(s0[m].key) == range.has::<K>(s0[m].key));
            if K::lt(rest.start, s0[i].key) {
                K::lemma_transitive(rest.start, s0[i].key, s0[m].key);
            }
        }
    }
}

impl<K: BtreeKey, V: BtreeValue, S: UnderlyingBtree> Btree<K, V, S> {
    /// Puts a value to all existing keys in the range, where the filter accepts that.
    pub fn put_range<F: PutFilter<K, V>>(
        &mut self,
        range: BtreeKeyRange<K>,
        value: &V,
        filter: Option<&F>,
    ) -> (r: Result<(), BtreeError>)
        requires
            old(self).wf(),
        ensures
            r matches Err(e) ==> old(self).storage.failures().contains(e) || e == BtreeError::Io(
                IoErrorKind::InvalidInput,
            ),
            final(self).env_of(old(self)),
            r is Ok || old(self).storage.reliable() ==> final(self).keeps_told(old(self)),
            r is Ok ==> final(self).leaves_nothing(old(self)),
            r is Ok ==> final(self).keeps_variants(old(self)),
            r is Ok ==> final(self).wf() && final(self)@ == put_over_all::<K, V, F>(
                old(self)@,
                range@,
                value.bytes(),
                filter,
            ),
            r is Err && old(self).storage.reliable() ==> {
                &&& final(self).wf()
                &&& range_partly::<K, V, F>(
                    old(self)@,
                    range@,
                    value.bytes(),
                    filter,
                    final(self)@,
                )
                &&& final(self).storage.exhausted() || exists|i: int|
                    0 <= i < old(self)@.len() && range@.has::<K>((#[trigger] old(self)@[i]).key)
                        && !old(self).config.storable::<K, V>(
                        old(self)@[i].key.len() as int,
                        value.bytes().len() as int,
                    )
            },
    {
        self.put_range_internal(range, value, filter)
    }

    fn put_range_internal<F: PutFilter<K, V>>(
        &mut self,
        range: BtreeKeyRange<K>,
        value: &V,
        filter: Option<&F>,
    ) -> (r: Result<(), BtreeError>)
        requires
            old(self).wf(),
        ensures
            r matches Err(e) ==> old(self).storage.failures().contains(e) || e == BtreeError::Io(
                IoErrorKind::InvalidInput,
            ),
            final(self).env_of(old(self)),
            r is Ok || old(self).storage.reliable() ==> final(self).keeps_told(old(self)),
            r is Ok ==> final(self).leaves_nothing(old(self)),
            r is Ok ==> final(self).keeps_variants(old(self)),
            r is Ok ==> final(self).wf() && final(self)@ == put_over_all::<K, V, F>(
                old(self)@,
                range@,
                value.bytes(),
                filter,
            ),
            r is Err && old(self).storage.reliable() ==> {
                &&& final(self).wf()
                &&& range_partly::<K, V, F>(
                    old(self)@,
                    range@,
                    value.bytes(),
                    filter,
                    final(self)@,
                )
                &&& final(self).storage.exhausted() || exists|i: int|
                    0 <= i < old(self)@.len() && range@.has::<K>((#[trigger] old(self)@[i]).key)
                        && !old(self).config.storable::<K, V>(
                        old(self)@[i].key.len() as int,
                        value.bytes().len() as int,
                    )
            },
    {
        let ghost s0 = self@;
        let ghost all = range@;
        let ghost v = value.bytes();
        let mut rest = range;
        let ghost mut done: int = 0;
        proof {
            self.lemma_ordered();
            lemma_tidy_same(self.storage.store(), self.tree@);
            lemma_alike_same(self.config, self.storage.store());
        }
        loop
            invariant
                self.leaves_nothing(old(self)),
                self.keeps_variants(old(self)),
                s0 == old(self)@,
                v == value.bytes(),
                all == range@,
                ordered::<K>(s0),
                self.wf(),
                self.env_of(old(self)),
                self.keeps_told(old(self)),
                rest@.end == all.end,
                rest@.end_incl == all.end_incl,
                range_progress::<K, V, F>(s0, all, v, filter, rest@, self@, done),
            decreases s0.len() - done,
        {
            let ghost s = self@;
            proof {
                self.lemma_ordered();
            }
            let key = match self.get_any_internal(&rest) {
                Ok(Some((k, _))) => k,
                Ok(None) => {
                    proof {
                        assert forall|m: int| 0 <= m < s.len() implies #[trigger] s[m]
                            == put_over_all::<K, V, F>(s0, all, v, filter)[m] by {
                            assert(s[m].key == s0[m].key);
                            if rest@.has::<K>(s0[m].key) {
                                let q = lemma_pick_some(s, in_range::<K>(rest@), m);
                            }
                        }
                        assert(s =~= put_over_all::<K, V, F>(s0, all, v, filter));
                    }
                    return Ok(());
                },
                Err(e) => {
                    return Err(e);
                },
            };
            let ghost i = choose|i: int| is_first(s, in_range::<K>(rest@), i);
            proof {
                assert(s[i].key == key.bytes());
                assert(s0[i].key == s[i].key);
                assert(rest@.has::<K>(s0[i].key));
            }
            let ghost before = *self;
            match self.put_one_internal(&key, value, filter) {
                Ok(r) => {
                    proof {
                        lemma_leaves_both(old(self), &before, self);
                        lemma_range_step::<K, V, F>(
                            s0,
                            all,
                            v,
                            filter,
                            rest@,
                            s,
                            done,
                            i,
                            r,
                            self@,
                        );
                        done = i + 1;
                    }
                },
                Err(e) => {
                    return Err(e);
                },
            }
            rest.start_key = key;
            rest.start_incl = false;
        }
    }
}

/// A put to a range that did not finish: each entry is as before or has been dealt with.
pub open spec fn range_partly<K: BtreeKey, V: BtreeValue, F: PutFilter<K, V>>(
    s0: Seq<KV>,
    range: RangeView,
    v: Seq<u8>,
    filter: Option<&F>,
    s: Seq<KV>,
) -> bool {
    &&& s.len() == s0.len()
    &&& forall|m: int|
        0 <= m < s0.len() ==> #[trigger] s[m] == s0[m] || s[m] == put_over::<K, V, F>(
            s0[m],
            range,
            v,
            filter,
        )
}

} // verus!
