//! The relay's indexes: concurrent maps and sets of `dashmap`, with what each holds as a
//! mathematical map or set. Keys are the thirty-two bytes of node keys.
//!
//! The order in which a map or set is walked is not fixed, so contracts say only which items
//! come out, each once.

use dashmap::{DashMap, DashSet};
use smallvec::SmallVec;
use tokio::sync::mpsc::Sender;
use vstd::prelude::*;

use crate::protocol::Frame;

verus! {

/// A concurrent map of `dashmap`.
#[verifier::external_type_specification]
#[verifier::external_body]
#[verifier::reject_recursive_types(K)]
#[verifier::reject_recursive_types(V)]
#[verifier::reject_recursive_types(S)]
pub struct ExDashMap<K, V, S>(dashmap::DashMap<K, V, S>);

/// A concurrent set of `dashmap`.
#[verifier::external_type_specification]
#[verifier::external_body]
#[verifier::reject_recursive_types(K)]
#[verifier::reject_recursive_types(S)]
pub struct ExDashSet<K, S>(dashmap::DashSet<K, S>);

/// The sessions of each node: a `dashmap::DashMap` of `smallvec::SmallVec`s, which keep a single
/// session in place.
#[verifier::external_body]
pub struct Lists {
    lists: DashMap<[u8; 32], SmallVec<[u64; 1]>>,
}

/// One session of each node.
pub(crate) type Singles = DashMap<[u8; 32], u64>;

/// A set of nodes for each node.
pub(crate) type Paths = DashMap<[u8; 32], DashSet<[u8; 32]>>;

/// The mesh routes to each node.
pub(crate) type Routes = DashMap<[u8; 32], Vec<MeshRoute>>;

/// A way to a node through a mesh connection.
pub struct MeshRoute {
    pub mesh_id: u64,
    pub tx: Sender<Frame>,
}

/// Which sessions each node has.
pub uninterp spec fn lists_view(m: Lists) -> Map<Seq<u8>, Seq<u64>>;

/// Which session stands for each node.
pub uninterp spec fn singles_view(m: DashMap<[u8; 32], u64>) -> Map<Seq<u8>, u64>;

/// Which nodes are noted for each node.
pub uninterp spec fn paths_view(m: DashMap<[u8; 32], DashSet<[u8; 32]>>) -> Map<
    Seq<u8>,
    Set<Seq<u8>>,
>;

/// Which routes lead to each node.
pub uninterp spec fn routes_view(m: DashMap<[u8; 32], Vec<MeshRoute>>) -> Map<
    Seq<u8>,
    Seq<MeshRoute>,
>;

/// Which sessions are in a set.
pub uninterp spec fn ids_view(s: DashSet<u64>) -> Set<u64>;

/// Whether keys are those of a set, each once.
pub open spec fn lists_keys(keys: Seq<[u8; 32]>, set: Set<Seq<u8>>) -> bool {
    &&& forall|i: int| 0 <= i < keys.len() ==> set.contains(#[trigger] keys[i]@)
    &&& forall|i: int, j: int|
        0 <= i < keys.len() && 0 <= j < keys.len() && i != j ==> #[trigger] keys[i]@
            != #[trigger] keys[j]@
    &&& forall|k: Seq<u8>| #[trigger]
        set.contains(k) ==> exists|i: int| 0 <= i < keys.len() && #[trigger] keys[i]@ == k
}

/// `DashMap::new`: an empty map.
#[verifier::external_body]
pub(crate) fn lists_new() -> (r: Lists)
    ensures
        lists_view(r).dom() == Set::<Seq<u8>>::empty(),
{
    Lists { lists: DashMap::new() }
}

/// `DashMap::get`: the sessions of a node, copied out.
#[verifier::external_body]
pub(crate) fn lists_get(m: &Lists, key: &[u8; 32]) -> (r: Option<Vec<u64>>)
    ensures
        match r {
            Some(v) => lists_view(*m).contains_key(key@) && v@ == lists_view(*m)[key@],
            None => !lists_view(*m).contains_key(key@),
        },
{
    m.lists.get(key).map(|list| list.to_vec())
}

/// `DashMap::insert`: sets the sessions of a node, kept as a `SmallVec`.
#[verifier::external_body]
pub(crate) fn lists_put(m: &mut Lists, key: &[u8; 32], ids: &[u64])
    ensures
        lists_view(*final(m)) == lists_view(*old(m)).insert(key@, ids@),
{
    m.lists.insert(*key, SmallVec::from_slice(ids));
}

/// `DashMap::remove`: forgets a node's sessions.
#[verifier::external_body]
pub(crate) fn lists_remove(m: &mut Lists, key: &[u8; 32])
    ensures
        lists_view(*final(m)) == lists_view(*old(m)).remove(key@),
{
    m.lists.remove(key);
}

/// `DashMap::iter`: the nodes that have sessions, in no particular order.
#[verifier::external_body]
pub(crate) fn lists_keys_of(m: &Lists) -> (r: Vec<[u8; 32]>)
    ensures
        lists_keys(r@, lists_view(*m).dom()),
{
    m.lists.iter().map(|entry| *entry.key()).collect()
}

/// `DashMap::len`: how many nodes have sessions.
#[verifier::external_body]
pub(crate) fn lists_len(m: &Lists) -> (r: usize)
    ensures
        r == lists_view(*m).dom().len(),
{
    m.lists.len()
}

/// `DashMap::new`: an empty map.
#[verifier::external_body]
pub(crate) fn singles_new() -> (r: Singles)
    ensures
        singles_view(r).dom() == Set::<Seq<u8>>::empty(),
{
    DashMap::new()
}

/// `DashMap::get`: the session that stands for a node, copied out.
#[verifier::external_body]
pub(crate) fn singles_get(m: &Singles, key: &[u8; 32]) -> (r: Option<u64>)
    ensures
        match r {
            Some(id) => singles_view(*m).contains_key(key@) && id == singles_view(*m)[key@],
            None => !singles_view(*m).contains_key(key@),
        },
{
    m.get(key).map(|id| *id)
}

/// `DashMap::insert`: sets the session that stands for a node.
#[verifier::external_body]
pub(crate) fn singles_put(m: &mut Singles, key: &[u8; 32], id: u64)
    ensures
        singles_view(*final(m)) == singles_view(*old(m)).insert(key@, id),
{
    m.insert(*key, id);
}

/// `DashMap::remove`: forgets the session that stands for a node.
#[verifier::external_body]
pub(crate) fn singles_remove(m: &mut Singles, key: &[u8; 32])
    ensures
        singles_view(*final(m)) == singles_view(*old(m)).remove(key@),
{
    m.remove(key);
}

/// `DashMap::new`: an empty map.
#[verifier::external_body]
pub(crate) fn paths_new() -> (r: Paths)
    ensures
        paths_view(r).dom() == Set::<Seq<u8>>::empty(),
{
    DashMap::new()
}

/// `DashMap::entry` with `or_default`, and `DashSet::insert` on what it gives: notes a node for
/// another, whose set is made where it has none.
#[verifier::external_body]
pub(crate) fn paths_note(m: &mut Paths, key: &[u8; 32], node: &[u8; 32])
    ensures
        paths_view(*final(m)) == paths_view(*old(m)).insert(
            key@,
            (if paths_view(*old(m)).contains_key(key@) {
                paths_view(*old(m))[key@]
            } else {
                Set::empty()
            }).insert(node@),
        ),
{
    m.entry(*key).or_default().insert(*node);
}

/// `DashMap::remove`: forgets a node's set and hands out what was in it, in no particular order.
#[verifier::external_body]
pub(crate) fn paths_take(m: &mut Paths, key: &[u8; 32]) -> (r: Option<Vec<[u8; 32]>>)
    ensures
        paths_view(*final(m)) == paths_view(*old(m)).remove(key@),
        match r {
            Some(v) => paths_view(*old(m)).contains_key(key@) && lists_keys(
                v@,
                paths_view(*old(m))[key@],
            ),
            None => !paths_view(*old(m)).contains_key(key@),
        },
{
    m.remove(key).map(|(_, set)| set.into_iter().collect())
}

/// `DashMap::get` and `DashSet::remove` on what it gives: takes a node out of another's set.
#[verifier::external_body]
pub(crate) fn paths_drop(m: &mut Paths, key: &[u8; 32], node: &[u8; 32])
    requires
        paths_view(*old(m)).contains_key(key@),
    ensures
        paths_view(*final(m)) == paths_view(*old(m)).insert(
            key@,
            paths_view(*old(m))[key@].remove(node@),
        ),
{
    m.get(key).map(|set| set.remove(node));
}

/// `DashMap::iter`: the nodes that have a set, in no particular order.
#[verifier::external_body]
pub(crate) fn paths_keys_of(m: &Paths) -> (r: Vec<[u8; 32]>)
    ensures
        lists_keys(r@, paths_view(*m).dom()),
{
    m.iter().map(|entry| *entry.key()).collect()
}

/// `DashMap::new`: an empty map.
#[verifier::external_body]
pub(crate) fn routes_new() -> (r: Routes)
    ensures
        routes_view(r).dom() == Set::<Seq<u8>>::empty(),
{
    DashMap::new()
}

/// `DashMap::remove`: takes the routes to a node out of the map.
#[verifier::external_body]
pub(crate) fn routes_take(m: &mut Routes, key: &[u8; 32]) -> (r: Option<Vec<MeshRoute>>)
    ensures
        routes_view(*final(m)) == routes_view(*old(m)).remove(key@),
        match r {
            Some(v) => routes_view(*old(m)).contains_key(key@) && v@ == routes_view(*old(m))[key@],
            None => !routes_view(*old(m)).contains_key(key@),
        },
{
    m.remove(key).map(|(_, routes)| routes)
}

/// `DashMap::insert`: sets the routes to a node.
#[verifier::external_body]
pub(crate) fn routes_put(m: &mut Routes, key: &[u8; 32], routes: Vec<MeshRoute>)
    ensures
        routes_view(*final(m)) == routes_view(*old(m)).insert(key@, routes@),
{
    m.insert(*key, routes);
}

/// `DashMap::iter`: the nodes that have routes, in no particular order.
#[verifier::external_body]
pub(crate) fn routes_keys_of(m: &Routes) -> (r: Vec<[u8; 32]>)
    ensures
        lists_keys(r@, routes_view(*m).dom()),
{
    m.iter().map(|entry| *entry.key()).collect()
}

/// `DashSet::new`: an empty set.
#[verifier::external_body]
pub(crate) fn ids_new() -> (r: DashSet<u64>)
    ensures
        ids_view(r) == Set::<u64>::empty(),
{
    DashSet::new()
}

/// `DashSet::insert`: adds a session.
#[verifier::external_body]
pub(crate) fn ids_add(s: &mut DashSet<u64>, id: u64)
    ensures
        ids_view(*final(s)) == ids_view(*old(s)).insert(id),
{
    s.insert(id);
}

/// `DashSet::remove`: takes a session out.
#[verifier::external_body]
pub(crate) fn ids_remove(s: &mut DashSet<u64>, id: u64)
    ensures
        ids_view(*final(s)) == ids_view(*old(s)).remove(id),
{
    s.remove(&id);
}

/// `DashSet::contains`: whether a session is in the set.
#[verifier::external_body]
pub(crate) fn ids_has(s: &DashSet<u64>, id: u64) -> (r: bool)
    ensures
        r == ids_view(*s).contains(id),
{
    s.contains(&id)
}

/// `DashSet::iter`: the sessions, each once, in no particular order.
#[verifier::external_body]
pub(crate) fn ids_of(s: &DashSet<u64>) -> (r: Vec<u64>)
    ensures
        r@.no_duplicates(),
        r@.to_set() == ids_view(*s),
{
    s.iter().map(|id| *id).collect()
}

/// `subtle::ConstantTimeEq::ct_eq`: compares two keys in a time that does not depend on them.
#[verifier::external_body]
pub(crate) fn same_key(a: &[u8; 32], b: &[u8; 32]) -> (r: bool)
    ensures
        r == (a@ == b@),
{
    bool::from(subtle::ConstantTimeEq::ct_eq(a.as_slice(), b.as_slice()))
}

} // verus!
