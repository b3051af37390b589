//! Tables with several indices.

use dashmap::DashMap;
use vstd::prelude::*;
use vstd::string::StringExecFns;
use crate::any_index::AnyIndex;
use crate::btree_index::{found, BtreeIndex, IndexModel};
use crate::btree_req::AcceptAll;
use crate::bytes::copy_vec;
use crate::contents::{from_key, lookup, not, pick, with_key};
use crate::db_kv::DbKey;
use crate::iterator::{byte_pair, byte_pairs, RangeIterator};
use crate::put::updated;
use crate::query::in_range;
use crate::remove::{capped, partly_removed};
use crate::schema::{of_tree, HomeDbError, TableSpec};
use crate::table_index::{
    buildable, capacity, half_open, longest_key, refused, set_up, IndexType, TableIndex,
};
use crate::text::joined;
use crate::tree_model::KV;
use crate::underlying::MemBtree;

verus! {

//==============================================================================
// Names of indices
//==============================================================================

#[verifier::external_type_specification]
#[verifier::external_body]
#[verifier::reject_recursive_types(K)]
#[verifier::reject_recursive_types(V)]
#[verifier::reject_recursive_types(S)]
pub struct ExDashMap<K, V, S>(dashmap::DashMap<K, V, S>);

/// The places that names stand for.
pub uninterp spec fn slots_of(m: DashMap<String, usize>) -> Map<Seq<char>, usize>;

/// `DashMap::new`: a map without entries.
#[verifier::external_body]
fn slots_new() -> (r: DashMap<String, usize>)
    ensures
        forall|n: Seq<char>| !#[trigger] slots_of(r).contains_key(n),
{
    DashMap::new()
}

/// `DashMap::contains_key`: whether there is an entry under the key.
#[verifier::external_body]
fn slots_contain(m: &DashMap<String, usize>, name: &str) -> (r: bool)
    ensures
        r == slots_of(*m).contains_key(name@),
{
    m.contains_key(name)
}

/// `DashMap::get`: the value under the key, if there is one.
#[verifier::external_body]
fn slots_get(m: &DashMap<String, usize>, name: &str) -> (r: Option<usize>)
    ensures
        r == if slots_of(*m).contains_key(name@) {
            Some(slots_of(*m)[name@])
        } else {
            None
        },
{
    m.get(name).map(|slot| *slot.value())
}

/// `DashMap::insert`: the value stands under the key afterwards, and the one that stood there
/// before is returned.
#[verifier::external_body]
fn slots_insert(m: &mut DashMap<String, usize>, name: String, slot: usize) -> (r: Option<usize>)
    ensures
        slots_of(*final(m)) == slots_of(*old(m)).insert(name@, slot),
        r == if slots_of(*old(m)).contains_key(name@) {
            Some(slots_of(*old(m))[name@])
        } else {
            None
        },
{
    m.insert(name, slot)
}

/// `DashMap::remove`: nothing stands under the key afterwards, and the value that stood there
/// before is returned.
#[verifier::external_body]
fn slots_remove(m: &mut DashMap<String, usize>, name: &str) -> (r: Option<usize>)
    ensures
        slots_of(*final(m)) == slots_of(*old(m)).remove(name@),
        r == if slots_of(*old(m)).contains_key(name@) {
            Some(slots_of(*old(m))[name@])
        } else {
            None
        },
{
    m.remove(name).map(|entry| entry.1)
}

/// `DashMap::iter`: each key comes once, in some order.
#[verifier::external_body]
fn slots_names(m: &DashMap<String, usize>) -> (r: Vec<String>)
    ensures
        forall|i: int| 0 <= i < r@.len() ==> slots_of(*m).contains_key((#[trigger] r@[i])@),
        forall|n: Seq<char>| #[trigger]
            slots_of(*m).contains_key(n) ==> exists|i: int| 0 <= i < r@.len() && r@[i]@ == n,
        forall|i: int, j: int|
            0 <= i < j < r@.len() ==> (#[trigger] r@[i])@ != (#[trigger] r@[j])@,
{
    m.iter().map(|entry| entry.key().clone()).collect()
}

//==============================================================================
// Tables
//==============================================================================

/// The places of the indices of a table, by their names.
pub struct Slots {
    map: DashMap<String, usize>,
}

impl View for Slots {
    type V = Map<Seq<char>, usize>;

    closed spec fn view(&self) -> Map<Seq<char>, usize> {
        slots_of(self.map)
    }
}

/// A table: rows in a primary index, and secondary indices.
pub struct Table {
    pub name: String,
    pub spec: TableSpec,
    /// The places of the indices: the primary index has the first place, and the secondary ones
    /// have those that follow.
    pub indices: Slots,
    pub primary: TableIndex,
    /// The secondary indices; the places of dropped ones are empty.
    pub secondary: Vec<Option<TableIndex>>,
}

/// The message about an index that is not there.
pub open spec fn missing(table: Seq<char>, index: Seq<char>) -> Seq<char> {
    "Index '"@ + index + "' not found on table '"@ + table + "'"@
}

/// The message about an index that is already there.
pub open spec fn taken_name(table: Seq<char>, index: Seq<char>) -> Seq<char> {
    "Index '"@ + index + "' already exists on table '"@ + table + "'"@
}

/// Entries that are put one after the other.
pub open spec fn put_all(s: Seq<KV>, es: Seq<KV>) -> Seq<KV>
    decreases es.len(),
{
    if es.len() == 0 {
        s
    } else {
        updated::<DbKey>(put_all(s, es.drop_last()), es.last())
    }
}

impl Table {
    /// The names of the indices.
    pub open spec fn names(&self) -> Set<Seq<char>> {
        self.indices@.dom()
    }

    /// The index at a place.
    pub open spec fn at(&self, slot: int) -> TableIndex {
        if slot == 0 {
            self.primary
        } else {
            self.secondary@[slot - 1]->0
        }
    }

    /// The index with a name.
    pub open spec fn index(&self, name: Seq<char>) -> TableIndex {
        self.at(self.indices@[name] as int)
    }

    /// The place is that of an index.
    pub open spec fn slot_wf(&self, slot: int) -> bool {
        &&& 0 <= slot <= self.secondary@.len()
        &&& slot > 0 ==> self.secondary@[slot - 1] is Some
        &&& self.at(slot).wf()
    }

    pub open spec fn wf(&self) -> bool {
        let m = self.indices@;
        &&& m.contains_key("primary"@)
        &&& forall|n: Seq<char>| #[trigger]
            m.contains_key(n) ==> self.slot_wf(m[n] as int) && (m[n] == 0) == (n == "primary"@)
        &&& forall|a: Seq<char>, b: Seq<char>| #[trigger]
            m.contains_key(a) && #[trigger] m.contains_key(b) && m[a] == m[b] ==> a == b
    }

    /// The table with another primary index in the same state.
    pub open spec fn but_primary(&self, o: &Self) -> bool {
        &&& self.name == o.name
        &&& self.spec == o.spec
        &&& self.indices == o.indices
        &&& self.secondary == o.secondary
    }

    /// A change of the primary index leaves the table in order.
    proof fn lemma_primary(&self, o: &Self)
        requires
            o.wf(),
            self.but_primary(o),
            self.primary.wf(),
        ensures
            self.wf(),
            self.names() == o.names(),
            forall|n: Seq<char>| #[trigger]
                o.names().contains(n) && n != "primary"@ ==> self.index(n) == o.index(n),
            self.index("primary"@) == self.primary,
    {
        let m = o.indices@;
        assert forall|n: Seq<char>| #[trigger] m.contains_key(n) implies self.slot_wf(m[n] as int)
            && (m[n] == 0) == (n == "primary"@) by {
            assert(o.slot_wf(m[n] as int));
        }
        assert(m.contains_key("primary"@));
    }

    /// A table with an empty primary index.
    pub fn new(name: String, spec: TableSpec) -> (r: Result<Self, HomeDbError>)
        ensures
            r is Ok == (buildable(spec) && longest_key(spec) <= capacity(spec)),
            r matches Ok(t) ==> {
                &&& t.wf()
                &&& t.name@ == name@
                &&& t.spec == spec
                &&& t.names() == set!["primary"@]
                &&& t.primary.contents() == Seq::<KV>::empty()
                &&& t.primary.name@ == name@ + "_"@ + "primary"@
                &&& t.primary.index_type == IndexType::Primary
                &&& t.primary.spec == spec
                &&& t.primary.max_key_size == capacity(spec)
                &&& set_up(spec, t.primary.name@, t.primary.btree)
            },
            r matches Err(e) ==> refused(spec, e),
    {
        let primary = match TableIndex::new(joined(&name, "primary"), IndexType::Primary, spec) {
            Ok(p) => p,
            Err(e) => {
                return Err(e);
            },
        };
        let mut map = slots_new();
        let _ = slots_insert(&mut map, String::from_str("primary"), 0);
        let t = Table { name, spec, indices: Slots { map }, primary, secondary: Vec::new() };
        proof {
            assert(t.names() =~= set!["primary"@]);
        }
        Ok(t)
    }

    pub fn name(&self) -> (r: &str)
        ensures
            r@ == self.name@,
    {
        self.name.as_str()
    }

    pub fn spec(&self) -> (r: &TableSpec)
        ensures
            *r == self.spec,
    {
        &self.spec
    }

    /// The primary index.
    pub fn primary_index(&self) -> (r: &TableIndex)
        ensures
            *r == self.primary,
    {
        &self.primary
    }

    fn missing_text(&self, index_name: &str) -> (r: String)
        ensures
            r@ == missing(self.name@, index_name@),
    {
        let mut s = String::from_str("Index '");
        s.append(index_name);
        s.append("' not found on table '");
        s.append(self.name.as_str());
        s.append("'");
        s
    }

    fn taken_text(&self, index_name: &str) -> (r: String)
        ensures
            r@ == taken_name(self.name@, index_name@),
    {
        let mut s = String::from_str("Index '");
        s.append(index_name);
        s.append("' already exists on table '");
        s.append(self.name.as_str());
        s.append("'");
        s
    }

    /// Makes a secondary index under a name that no index has yet, and returns it.
    pub fn create_index(&mut self, index_name: &str, spec: TableSpec) -> (r: Result<
        &TableIndex,
        HomeDbError,
    >)
        requires
            old(self).wf(),
        ensures
            final(self).wf(),
            final(self).name == old(self).name,
            final(self).spec == old(self).spec,
            final(self).primary == old(self).primary,
            forall|n: Seq<char>| #[trigger]
                old(self).names().contains(n) ==> final(self).index(n) == old(self).index(n),
            r is Ok == (!old(self).names().contains(index_name@) && buildable(spec) && longest_key(
                spec,
            ) <= capacity(spec)),
            r matches Ok(t) ==> {
                &&& *t == final(self).index(index_name@)
                &&& final(self).names() == old(self).names().insert(index_name@)
                &&& t.contents() == Seq::<KV>::empty()
                &&& t.name@ == old(self).name@ + "_"@ + index_name@
                &&& t.index_type == IndexType::Secondary
                &&& t.spec == spec
                &&& t.max_key_size == capacity(spec)
                &&& set_up(spec, t.name@, t.btree)
            },
            r is Err ==> *final(self) == *old(self),
            r matches Err(e) ==> if old(self).names().contains(index_name@) {
                e matches HomeDbError::InvalidConfig(s) && s@ == taken_name(
                    old(self).name@,
                    index_name@,
                )
            } else {
                refused(spec, e)
            },
    {
        let ghost o = *self;
        if slots_contain(&self.indices.map, index_name) {
            return Err(HomeDbError::InvalidConfig(self.taken_text(index_name)));
        }
        let index = match TableIndex::new(
            joined(&self.name, index_name),
            IndexType::Secondary,
            spec,
        ) {
            Ok(i) => i,
            Err(e) => {
                return Err(e);
            },
        };
        self.secondary.push(Some(index));
        let slot: usize = self.secondary.len();
        let _ = slots_insert(&mut self.indices.map, String::from_str(index_name), slot);
        proof {
            let m0 = o.indices@;
            let m = self.indices@;
            assert(m == m0.insert(index_name@, slot));
            assert forall|n: Seq<char>| #[trigger] m.contains_key(n) implies self.slot_wf(
                m[n] as int,
            ) && (m[n] == 0) == (n == "primary"@) && (n != index_name@ ==> self.index(n)
                == o.index(n)) by {
                if n != index_name@ {
                    assert(m0.contains_key(n));
                    assert(o.slot_wf(m0[n] as int));
                } else {
                    assert(self.secondary@[slot - 1] == Some(index));
                }
            }
            assert forall|a: Seq<char>, b: Seq<char>| #[trigger]
                m.contains_key(a) && #[trigger] m.contains_key(b) && m[a] == m[b] implies a == b by {
                if a != index_name@ {
                    assert(o.slot_wf(m0[a] as int));
                }
                if b != index_name@ {
                    assert(o.slot_wf(m0[b] as int));
                }
            }
            assert(self.names() =~= o.names().insert(index_name@));
            assert(self.index(index_name@) == index);
        }
        self.get_index(index_name)
    }

    /// The index with a name.
    pub fn get_index(&self, index_name: &str) -> (r: Result<&TableIndex, HomeDbError>)
        requires
            self.wf(),
        ensures
            r is Ok == self.names().contains(index_name@),
            r matches Ok(t) ==> *t == self.index(index_name@) && t.wf(),
            r matches Err(e) ==> (e matches HomeDbError::InvalidConfig(s) && s@ == missing(
                self.name@,
                index_name@,
            )),
    {
        match slots_get(&self.indices.map, index_name) {
            Some(slot) => {
                proof {
                    assert(self.indices@.contains_key(index_name@));
                    assert(self.slot_wf(slot as int));
                }
                if slot == 0 {
                    return Ok(&self.primary);
                }
                match &self.secondary[slot - 1] {
                    Some(t) => Ok(t),
                    None => Err(HomeDbError::InvalidConfig(self.missing_text(index_name))),
                }
            },
            None => Err(HomeDbError::InvalidConfig(self.missing_text(index_name))),
        }
    }

    /// The table after its index with a name has changed from `t` to `t2`.
    pub open spec fn replaced(&self, o: &Self, name: Seq<char>, t2: TableIndex) -> bool {
        &&& self.name == o.name
        &&& self.spec == o.spec
        &&& self.names() == o.names()
        &&& self.index(name) == t2
        &&& forall|n: Seq<char>| #[trigger]
            o.names().contains(n) && n != name ==> self.index(n) == o.index(n)
        &&& t2.wf() ==> self.wf()
    }

    /// The index with a name, to be changed.
    pub fn get_index_mut(&mut self, index_name: &str) -> (r: Result<&mut TableIndex, HomeDbError>)
        requires
            old(self).wf(),
        ensures
            r is Ok == old(self).names().contains(index_name@),
            r matches Ok(t) ==> {
                &&& *t == old(self).index(index_name@)
                &&& t.wf()
                &&& final(self).replaced(old(self), index_name@, *final(t))
            },
            r matches Err(e) ==> *final(self) == *old(self) && (e matches HomeDbError::InvalidConfig(
                s,
            ) && s@ == missing(old(self).name@, index_name@)),
    {
        let ghost o = *self;
        let ghost m = o.indices@;
        match slots_get(&self.indices.map, index_name) {
            Some(slot) => {
                proof {
                    assert(m.contains_key(index_name@));
                    assert(o.slot_wf(slot as int));
                }
                if slot == 0 {
                    return Ok(&mut self.primary);
                }
                let text = self.missing_text(index_name);
                match &mut self.secondary[slot - 1] {
                    Some(t) => Ok(t),
                    None => Err(HomeDbError::InvalidConfig(text)),
                }
            },
            None => Err(HomeDbError::InvalidConfig(self.missing_text(index_name))),
        }
    }

    /// The names of all indices, in no particular order.
    pub fn list_indices(&self) -> (r: Vec<String>)
        ensures
            forall|i: int| 0 <= i < r@.len() ==> self.names().contains((#[trigger] r@[i])@),
            forall|n: Seq<char>| #[trigger]
                self.names().contains(n) ==> exists|i: int| 0 <= i < r@.len() && r@[i]@ == n,
            forall|i: int, j: int|
                0 <= i < j < r@.len() ==> (#[trigger] r@[i])@ != (#[trigger] r@[j])@,
    {
        slots_names(&self.indices.map)
    }

    /// Drops a secondary index.
    pub fn drop_index(&mut self, index_name: &str) -> (r: Result<(), HomeDbError>)
        requires
            old(self).wf(),
        ensures
            final(self).wf(),
            final(self).name == old(self).name,
            final(self).spec == old(self).spec,
            final(self).primary == old(self).primary,
            r is Ok == (old(self).names().contains(index_name@) && index_name@ != "primary"@),
            r is Ok ==> {
                &&& final(self).names() == old(self).names().remove(index_name@)
                &&& forall|n: Seq<char>| #[trigger]
                    final(self).names().contains(n) ==> final(self).index(n) == old(self).index(n)
            },
            r is Err ==> *final(self) == *old(self),
            r matches Err(e) ==> (e matches HomeDbError::InvalidConfig(s) && s@ == if index_name@
                == "primary"@ {
                "Cannot drop primary index"@
            } else {
                missing(old(self).name@, index_name@)
            }),
    {
        let ghost o = *self;
        let slot: usize = match slots_get(&self.indices.map, index_name) {
            Some(slot) => slot,
            None => {
                return Err(HomeDbError::InvalidConfig(self.missing_text(index_name)));
            },
        };
        proof {
            assert(o.indices@.contains_key(index_name@));
            assert(o.slot_wf(slot as int));
        }
        if slot == 0 {
            return Err(HomeDbError::InvalidConfig(String::from_str("Cannot drop primary index")));
        }
        let _ = slots_remove(&mut self.indices.map, index_name);
        self.secondary.set(slot - 1, None);
        proof {
            let m0 = o.indices@;
            let m = self.indices@;
            assert forall|n: Seq<char>| #[trigger] m.contains_key(n) implies self.slot_wf(
                m[n] as int,
            ) && (m[n] == 0) == (n == "primary"@) && self.index(n) == o.index(n) by {
                assert(m0.contains_key(n));
                assert(o.slot_wf(m0[n] as int));
                assert(m0[n] != slot);
            }
            assert(m.contains_key("primary"@)) by {
                assert(m0.contains_key("primary"@));
            }
            assert forall|a: Seq<char>, b: Seq<char>| #[trigger]
                m.contains_key(a) && #[trigger] m.contains_key(b) && m[a] == m[b] implies a == b by {
                assert(m0.contains_key(a) && m0.contains_key(b));
            }
            assert(self.names() =~= o.names().remove(index_name@));
        }
        Ok(())
    }
}

//==============================================================================
// Operations on the primary index
//==============================================================================

impl Table {
    /// Sets the value of a key.
    pub fn put(&mut self, key: Vec<u8>, value: Vec<u8>) -> (r: Result<(), HomeDbError>)
        requires
            old(self).wf(),
        ensures
            final(self).wf(),
            final(self).but_primary(old(self)),
            final(self).primary.same_table(&old(self).primary),
            put_reply(old(self).primary, key, value, r, final(self).primary),
    {
        let ghost o = *self;
        proof {
            assert(self.indices@.contains_key("primary"@));
        }
        let r = self.primary.put(key, value);
        proof {
            self.lemma_primary(&o);
        }
        r
    }

    /// The value of a key.
    pub fn get(&self, key: Vec<u8>) -> (r: Result<Option<Vec<u8>>, HomeDbError>)
        requires
            self.wf(),
        ensures
            r is Ok == self.primary.spec.key_spec.allows(key@.len() as int),
            r matches Ok(v) ==> (match v {
                Some(v) => Some(v@),
                None => None,
            }) == lookup(self.primary.contents(), key@),
            r matches Err(e) ==> e == self.primary.spec.key_spec.complaint(key.len()),
    {
        proof {
            assert(self.indices@.contains_key("primary"@));
        }
        self.primary.get(key)
    }

    /// Removes a key, and returns the value that it had.
    pub fn remove(&mut self, key: Vec<u8>) -> (r: Result<Option<Vec<u8>>, HomeDbError>)
        requires
            old(self).wf(),
        ensures
            final(self).wf(),
            final(self).but_primary(old(self)),
            final(self).primary.same_table(&old(self).primary),
            r matches Ok(v) ==> {
                &&& old(self).primary.spec.key_spec.allows(key@.len() as int)
                &&& final(self).primary.contents() == old(self).primary.contents().filter(
                    not(with_key(key@)),
                )
                &&& (match v {
                    Some(v) => Some(v@),
                    None => None,
                }) == lookup(old(self).primary.contents(), key@)
            },
            r matches Err(e) ==> if old(self).primary.spec.key_spec.allows(key@.len() as int) {
                &&& of_tree(e)
                &&& final(self).primary.exhausted()
                &&& partly_removed(
                    old(self).primary.contents(),
                    with_key(key@),
                    final(self).primary.contents(),
                )
            } else {
                &&& e == old(self).primary.spec.key_spec.complaint(key.len())
                &&& final(self).primary.contents() == old(self).primary.contents()
            },
    {
        let ghost o = *self;
        proof {
            assert(self.indices@.contains_key("primary"@));
        }
        let r = self.primary.remove(key);
        proof {
            self.lemma_primary(&o);
        }
        r
    }

    /// Removes all keys of a range that leaves out its end, and returns how many there were.
    pub fn remove_range(&mut self, start_key: Vec<u8>, end_key: Vec<u8>) -> (r: Result<
        u32,
        HomeDbError,
    >)
        requires
            old(self).wf(),
        ensures
            final(self).wf(),
            final(self).but_primary(old(self)),
            final(self).primary.same_table(&old(self).primary),
            r matches Ok(n) ==> {
                let sel = in_range::<DbKey>(half_open(start_key@, end_key@));
                &&& old(self).primary.bounds_ok(start_key@, end_key@)
                &&& final(self).primary.contents() == old(self).primary.contents().filter(not(sel))
                &&& n == capped(old(self).primary.contents().filter(sel).len())
            },
            r matches Err(e) ==> if old(self).primary.bounds_ok(start_key@, end_key@) {
                &&& of_tree(e)
                &&& final(self).primary.exhausted()
                &&& partly_removed(
                    old(self).primary.contents(),
                    in_range::<DbKey>(half_open(start_key@, end_key@)),
                    final(self).primary.contents(),
                )
            } else {
                &&& e == old(self).primary.bounds_complaint(start_key.len(), end_key.len())
                &&& final(self).primary.contents() == old(self).primary.contents()
            },
    {
        let ghost o = *self;
        proof {
            assert(self.indices@.contains_key("primary"@));
        }
        let r = self.primary.remove_range(start_key, end_key);
        proof {
            self.lemma_primary(&o);
        }
        r
    }

    /// Puts several entries, one after the other, and stops at the first that is refused.
    pub fn put_range(&mut self, kvs: Vec<(Vec<u8>, Vec<u8>)>) -> (r: Result<(), HomeDbError>)
        requires
            old(self).wf(),
        ensures
            final(self).wf(),
            final(self).but_primary(old(self)),
            final(self).primary.same_table(&old(self).primary),
            r is Ok ==> final(self).primary.contents() == put_all(
                old(self).primary.contents(),
                byte_pairs(kvs@),
            ),
            r is Err ==> exists|n: int|
                0 <= n < kvs@.len() && final(self).primary.contents() == #[trigger] put_all(
                    old(self).primary.contents(),
                    byte_pairs(kvs@).take(n),
                ) && put_refused(old(self).primary, kvs@[n].0, kvs@[n].1, r, final(self).primary),
    {
        let ghost o = *self;
        let ghost es = byte_pairs(kvs@);
        proof {
            assert(self.indices@.contains_key("primary"@));
            assert(es.take(0) =~= Seq::<KV>::empty());
        }
        let mut i: usize = 0;
        while i < kvs.len()
            invariant
                o == *old(self),
                i <= kvs@.len(),
                es == byte_pairs(kvs@),
                self.wf(),
                self.but_primary(&o),
                self.primary.same_table(&o.primary),
                self.primary.contents() == put_all(o.primary.contents(), es.take(i as int)),
            decreases kvs@.len() - i,
        {
            let k = copy_vec(&kvs[i].0);
            let v = copy_vec(&kvs[i].1);
            let r = self.put(k, v);
            proof {
                assert(es.take(i + 1).drop_last() =~= es.take(i as int));
            }
            match r {
                Ok(()) => {},
                Err(e) => {
                    proof {
                        assert(put_refused(
                            o.primary,
                            kvs@[i as int].0,
                            kvs@[i as int].1,
                            Err::<(), HomeDbError>(e),
                            self.primary,
                        ));
                    }
                    return Err(e);
                },
            }
            i = i + 1;
        }
        proof {
            assert(es.take(i as int) =~= es);
        }
        Ok(())
    }

    /// The first entry whose key does not lie before the given one.
    pub fn seek_gte(&self, key: Vec<u8>) -> (r: Result<Option<(Vec<u8>, Vec<u8>)>, HomeDbError>)
        requires
            self.wf(),
        ensures
            r is Ok == self.primary.spec.key_spec.allows(key@.len() as int),
            r matches Ok(e) ==> byte_pair(e) == pick(
                self.primary.contents(),
                from_key::<DbKey>(key@, true),
            ),
            r matches Err(e) ==> e == self.primary.spec.key_spec.complaint(key.len()),
    {
        proof {
            assert(self.indices@.contains_key("primary"@));
        }
        self.primary.seek_gte(key)
    }

    /// The entries of a range, in batches. The range leaves out its end.
    pub fn get_range(&self, start_key: Vec<u8>, end_key: Vec<u8>, batch_size: u32) -> (r: Result<
        RangeIterator<'_, AnyIndex<MemBtree>>,
        HomeDbError,
    >)
        requires
            self.wf(),
        ensures
            r is Ok == self.primary.bounds_ok(start_key@, end_key@),
            r matches Ok(it) ==> {
                &&& it.wf()
                &&& *it.index == self.primary.btree
                &&& it.start_key@ == start_key@
                &&& it.end_key@ == end_key@
                &&& it.batch_size == batch_size
                &&& !it.reverse
                &&& it.rest() == if batch_size > 0 {
                    found::<AcceptAll>(
                        self.primary.contents(),
                        half_open(start_key@, end_key@),
                        None,
                        false,
                    )
                } else {
                    Seq::empty()
                }
            },
            r matches Err(e) ==> e == self.primary.bounds_complaint(
                start_key.len(),
                end_key.len(),
            ),
    {
        proof {
            assert(self.indices@.contains_key("primary"@));
        }
        self.primary.get_range(start_key, end_key, batch_size)
    }

    /// The entries of a range in reversed order, in batches. The range leaves out its end.
    pub fn get_range_reverse(&self, start_key: Vec<u8>, end_key: Vec<u8>, batch_size: u32) -> (r:
        Result<RangeIterator<'_, AnyIndex<MemBtree>>, HomeDbError>)
        requires
            self.wf(),
        ensures
            r is Ok == self.primary.bounds_ok(start_key@, end_key@),
            r matches Ok(it) ==> {
                &&& it.wf()
                &&& *it.index == self.primary.btree
                &&& it.start_key@ == start_key@
                &&& it.end_key@ == end_key@
                &&& it.batch_size == batch_size
                &&& it.reverse
                &&& it.rest() == if batch_size > 0 {
                    found::<AcceptAll>(
                        self.primary.contents(),
                        half_open(start_key@, end_key@),
                        None,
                        true,
                    )
                } else {
                    Seq::empty()
                }
            },
            r matches Err(e) ==> e == self.primary.bounds_complaint(
                start_key.len(),
                end_key.len(),
            ),
    {
        proof {
            assert(self.indices@.contains_key("primary"@));
        }
        self.primary.get_range_reverse(start_key, end_key, batch_size)
    }

    /// The first entry of a range that leaves out its end.
    pub fn get_any(&self, start_key: Vec<u8>, end_key: Vec<u8>) -> (r: Result<
        Option<(Vec<u8>, Vec<u8>)>,
        HomeDbError,
    >)
        requires
            self.wf(),
        ensures
            r is Ok == self.primary.bounds_ok(start_key@, end_key@),
            r matches Ok(e) ==> byte_pair(e) == pick(
                self.primary.contents(),
                in_range::<DbKey>(half_open(start_key@, end_key@)),
            ),
            r matches Err(e) ==> e == self.primary.bounds_complaint(
                start_key.len(),
                end_key.len(),
            ),
    {
        proof {
            assert(self.indices@.contains_key("primary"@));
        }
        self.primary.get_any(start_key, end_key)
    }

    /// Removes the first entry of a range that leaves out its end, and returns it.
    pub fn remove_any(&mut self, start_key: Vec<u8>, end_key: Vec<u8>) -> (r: Result<
        Option<(Vec<u8>, Vec<u8>)>,
        HomeDbError,
    >)
        requires
            old(self).wf(),
        ensures
            final(self).wf(),
            final(self).but_primary(old(self)),
            final(self).primary.same_table(&old(self).primary),
            r matches Ok(e) ==> {
                &&& old(self).primary.bounds_ok(start_key@, end_key@)
                &&& byte_pair(e) == pick(
                    old(self).primary.contents(),
                    in_range::<DbKey>(half_open(start_key@, end_key@)),
                )
                &&& final(self).primary.contents() == match byte_pair(e) {
                    Some(x) => old(self).primary.contents().filter(not(with_key(x.key))),
                    None => old(self).primary.contents(),
                }
            },
            r matches Err(e) ==> if old(self).primary.bounds_ok(start_key@, end_key@) {
                &&& of_tree(e)
                &&& final(self).primary.exhausted()
                &&& pick(
                    old(self).primary.contents(),
                    in_range::<DbKey>(half_open(start_key@, end_key@)),
                ) matches Some(x) && partly_removed(
                    old(self).primary.contents(),
                    with_key(x.key),
                    final(self).primary.contents(),
                )
            } else {
                &&& e == old(self).primary.bounds_complaint(start_key.len(), end_key.len())
                &&& final(self).primary.contents() == old(self).primary.contents()
            },
    {
        let ghost o = *self;
        proof {
            assert(self.indices@.contains_key("primary"@));
        }
        let r = self.primary.remove_any(start_key, end_key);
        proof {
            self.lemma_primary(&o);
        }
        r
    }
}

/// What a put that was refused says.
pub open spec fn put_refused(
    before: TableIndex,
    key: Vec<u8>,
    value: Vec<u8>,
    r: Result<(), HomeDbError>,
    after: TableIndex,
) -> bool {
    r matches Err(e) && if key@.len() > before.max_key_size {
        e == (HomeDbError::KeyTooLarge {
            size: key@.len() as usize,
            max: before.max_key_size as usize,
        })
    } else if !before.spec.key_spec.allows(key@.len() as int) {
        e == before.spec.key_spec.complaint(key@.len() as usize)
    } else if !before.spec.value_spec.allows(value@.len() as int) {
        e == before.spec.value_spec.complaint(value@.len() as usize)
    } else {
        of_tree(e) && after.exhausted()
    }
}

/// What a put into an index returns and changes.
pub open spec fn put_reply(
    before: TableIndex,
    key: Vec<u8>,
    value: Vec<u8>,
    r: Result<(), HomeDbError>,
    after: TableIndex,
) -> bool {
    &&& r is Ok ==> {
        &&& key@.len() <= before.max_key_size
        &&& before.spec.key_spec.allows(key@.len() as int)
        &&& before.spec.value_spec.allows(value@.len() as int)
        &&& after.contents() == updated::<DbKey>(
            before.contents(),
            KV { key: key@, val: value@ },
        )
    }
    &&& r is Err ==> after.contents() == before.contents() && put_refused(
        before,
        key,
        value,
        r,
        after,
    )
}

} // verus!
