//! Every operation keeps the relay's invariant.

use vstd::prelude::*;

use crate::protocol::FrameView;
use crate::relay::model::{
    lemma_without, newest, tried_routes, without, Joining, RelayView, RouteView,
};

verus! {

/// A list keeps its items when one is added at the end.
pub proof fn lemma_push_contains(list: Seq<u64>, id: u64)
    ensures
        list.push(id).contains(id),
        forall|x: u64| #[trigger] list.push(id).contains(x) == (list.contains(x) || x == id),
{
    assert(list.push(id)[list.len() as int] == id);
    assert forall|x: u64| #[trigger] list.push(id).contains(x) == (list.contains(x) || x == id) by {
        if list.contains(x) {
            let i = choose|i: int| 0 <= i < list.len() && list[i] == x;
            assert(list.push(id)[i] == x);
        }
        if list.push(id).contains(x) {
            let i = choose|i: int| 0 <= i <= list.len() && list.push(id)[i] == x;
            if i < list.len() {
                assert(list[i] == x);
            }
        }
    }
}

/// Whoever is in a node's list is one of its connections.
pub proof fn lemma_listed(v: RelayView, key: Seq<u8>, id: u64)
    requires
        v.wf(),
        v.here(key),
        v.peers[key].contains(id),
    ensures
        v.sessions.contains_key(id),
        v.sessions[id].key == key,
        v.sessions[id].connected,
{
    assert(v.list_ok(key));
    let i = choose|i: int| 0 <= i < v.peers[key].len() && v.peers[key][i] == id;
    assert(v.sessions.contains_key(v.peers[key][i]));
}

/// A node that is here has an active connection, which is its own.
pub proof fn lemma_active(v: RelayView, key: Seq<u8>)
    requires
        v.wf(),
        v.here(key),
    ensures
        v.peers[key].len() > 0,
        v.peers[key].contains(v.active(key)),
        v.sessions.contains_key(v.active(key)),
        v.sessions[v.active(key)].key == key,
        v.sessions[v.active(key)].connected,
{
    assert(v.list_ok(key));
    let n = v.peers[key].len() - 1;
    assert(v.peers[key][n] == v.active(key));
    lemma_listed(v, key, v.active(key));
}

/// A client that joins.
pub proof fn lemma_joined(v: RelayView, j: Joining, now: u64)
    requires
        v.wf(),
        v.next_id < u64::MAX,
    ensures
        v.joined(j, now).wf(),
        !v.sessions.contains_key(v.next_id),
        !v.watchers.contains(v.next_id),
        v.joined(j, now).sessions.contains_key(v.next_id),
        forall|id: u64| #[trigger]
            v.sessions.contains_key(id) ==> v.joined(j, now).sessions.contains_key(id),
{
    let w = v.joined(j, now);
    let id = v.next_id;
    let list = v.list(j.key);
    assert(w.sessions.dom() =~= v.sessions.dom().insert(id));
    assert(w.peers.dom() =~= v.peers.dom().insert(j.key));
    if v.sessions.contains_key(id) {
        assert(v.session_ok(id));
    }
    if v.watchers.contains(id) {
        assert(v.may_mesh(id));
    }
    lemma_push_contains(list, id);
    if v.here(j.key) {
        assert(v.list_ok(j.key));
    }
    assert(!list.contains(id)) by {
        if list.contains(id) {
            lemma_listed(v, j.key, id);
        }
    }
    assert forall|x: u64| #[trigger] w.sessions.contains_key(x) implies w.session_ok(x) by {
        if x != id {
            assert(v.sessions.contains_key(x));
            assert(v.session_ok(x));
        }
    }
    assert forall|k: Seq<u8>| #[trigger] w.peers.contains_key(k) implies w.list_ok(k) by {
        if k == j.key {
            let l = w.peers[k];
            assert forall|a: int, b: int|
                0 <= a < l.len() && 0 <= b < l.len() && a != b implies l[a] != l[b] by {
                if a < list.len() {
                    assert(list.contains(list[a]));
                }
                if b < list.len() {
                    assert(list.contains(list[b]));
                }
            }
            assert forall|i: int| 0 <= i < l.len() implies w.sessions.contains_key(#[trigger] l[i])
                && w.sessions[l[i]].key == k && w.sessions[l[i]].connected by {
                if i < list.len() {
                    assert(list.contains(list[i]));
                    lemma_listed(v, k, list[i]);
                }
            }
        } else {
            assert(v.peers.contains_key(k));
            assert(v.list_ok(k));
            let l = w.peers[k];
            assert forall|i: int| 0 <= i < l.len() implies w.sessions.contains_key(#[trigger] l[i])
                && w.sessions[l[i]].key == k && w.sessions[l[i]].connected by {
                assert(v.sessions.contains_key(l[i]));
                assert(l[i] != id);
            }
        }
    }
    assert forall|x: u64| #[trigger] w.watchers.contains(x) implies w.may_mesh(x) by {
        assert(v.may_mesh(x));
    }
    assert forall|k: Seq<u8>| #[trigger] w.routes.contains_key(k) implies w.routes_ok(k) by {
        assert(v.routes_ok(k));
    }
}

/// A connection that becomes its node's active one.
pub proof fn lemma_active_noted(v: RelayView, id: u64)
    requires
        v.wf(),
    ensures
        v.active_noted(id).wf(),
{
    if let Some(x) = v.selected(id) {
        lemma_selected(v, id);
        lemma_moved_up(v, x);
    }
}

/// What a connection that is used selects is a connection of its node.
pub proof fn lemma_selected(v: RelayView, id: u64)
    requires
        v.wf(),
        v.selected(id) is Some,
    ensures
        v.is_connected(v.selected(id)->0),
        v.sessions[v.selected(id)->0].key == v.sessions[id].key,
        v.here(v.sessions[id].key),
{
    let key = v.sessions[id].key;
    if v.is_connected(id) {
        assert(v.session_ok(id));
    } else {
        assert(v.list_ok(key));
        lemma_newest(v.peers[key]);
        lemma_listed(v, key, newest(v.peers[key]));
    }
}

/// The newest connection of a list is in it, and no other is newer.
pub proof fn lemma_newest(list: Seq<u64>)
    requires
        list.len() > 0,
    ensures
        list.contains(newest(list)),
        forall|i: int| 0 <= i < list.len() ==> #[trigger] list[i] <= newest(list),
    decreases list.len(),
{
    if list.len() > 1 {
        let init = list.drop_last();
        lemma_newest(init);
        let i = choose|i: int| 0 <= i < init.len() && init[i] == newest(init);
        assert(list[i] == newest(init));
        assert(list[list.len() - 1] == list.last());
        assert forall|k: int| 0 <= k < list.len() implies #[trigger] list[k] <= newest(list) by {
            if k < init.len() {
                assert(init[k] <= newest(init));
            }
        }
    } else {
        assert(list[0] == newest(list));
    }
}

/// A connection that moves to the end of its node's list.
proof fn lemma_moved_up(v: RelayView, id: u64)
    requires
        v.wf(),
        v.is_connected(id),
    ensures
        v.active_noted(id).wf(),
{
    let w = v.active_noted(id);
    let key = v.sessions[id].key;
    assert(v.session_ok(id));
    assert(v.list_ok(key));
    let rest = without(v.peers[key], id);
    lemma_without(v.peers[key], id);
    lemma_push_contains(rest, id);
    assert forall|x: u64| #[trigger] w.sessions.contains_key(x) implies w.session_ok(x) by {
        assert(v.session_ok(x));
    }
    assert forall|k: Seq<u8>| #[trigger] w.peers.contains_key(k) implies w.list_ok(k) by {
        assert(v.peers.contains_key(k));
        assert(v.list_ok(k));
        if k == key {
            let l = w.peers[k];
            assert forall|a: int, b: int|
                0 <= a < l.len() && 0 <= b < l.len() && a != b implies l[a] != l[b] by {
                if a < rest.len() {
                    assert(rest.contains(rest[a]));
                }
                if b < rest.len() {
                    assert(rest.contains(rest[b]));
                }
            }
            assert forall|i: int|
                0 <= i < l.len() implies w.sessions.contains_key(#[trigger] l[i])
                && w.sessions[l[i]].key == k && w.sessions[l[i]].connected by {
                if i < rest.len() {
                    assert(rest.contains(rest[i]));
                    lemma_listed(v, k, rest[i]);
                }
            }
        } else {
            let l = w.peers[k];
            assert forall|i: int|
                0 <= i < l.len() implies w.sessions.contains_key(#[trigger] l[i])
                && w.sessions[l[i]].key == k && w.sessions[l[i]].connected by {
                assert(v.sessions.contains_key(l[i]));
            }
        }
    }
    assert forall|x: u64| #[trigger] w.watchers.contains(x) implies w.may_mesh(x) by {
        assert(v.may_mesh(x));
    }
    assert forall|k: Seq<u8>| #[trigger] w.routes.contains_key(k) implies w.routes_ok(k) by {
        assert(v.routes_ok(k));
    }
}

/// A change to the connections that leaves them under their numbers, with their keys, their marks
/// and their rights.
pub proof fn lemma_sessions_changed(v: RelayView, w: RelayView)
    requires
        v.wf(),
        w.sessions.dom() == v.sessions.dom(),
        forall|id: u64| #[trigger]
            v.sessions.contains_key(id) ==> w.sessions[id].id == v.sessions[id].id
                && w.sessions[id].key == v.sessions[id].key && w.sessions[id].duplicate
                == v.sessions[id].duplicate && w.sessions[id].can_mesh == v.sessions[id].can_mesh
                && w.sessions[id].connected == v.sessions[id].connected,
        w.peers == v.peers,
        w.watchers == v.watchers,
        w.next_id == v.next_id,
        w.queue_depth == v.queue_depth,
        forall|p: (Seq<u8>, Seq<u8>)| #[trigger] w.paths.contains(p) ==> w.here(p.1),
        forall|k: Seq<u8>| #[trigger] w.routes.contains_key(k) ==> w.routes_ok(k),
    ensures
        w.wf(),
{
    assert forall|x: u64| #[trigger] w.sessions.contains_key(x) implies w.session_ok(x) by {
        assert(v.sessions.contains_key(x));
        assert(v.session_ok(x));
    }
    assert forall|k: Seq<u8>| #[trigger] w.peers.contains_key(k) implies w.list_ok(k) by {
        assert(v.list_ok(k));
        let l = w.peers[k];
        assert forall|i: int| 0 <= i < l.len() implies w.sessions.contains_key(#[trigger] l[i])
            && w.sessions[l[i]].key == k && w.sessions[l[i]].connected by {
            assert(v.sessions.contains_key(l[i]));
        }
    }
    assert forall|x: u64| #[trigger] w.watchers.contains(x) implies w.may_mesh(x) by {
        assert(v.may_mesh(x));
        assert(v.sessions.contains_key(x));
    }
}

/// Routes that are left as they were.
pub proof fn lemma_routes_kept(pre: RelayView, post: RelayView)
    requires
        pre.wf(),
        post.routes == pre.routes,
    ensures
        forall|k: Seq<u8>| #[trigger] post.routes.contains_key(k) ==> post.routes_ok(k),
{
    assert forall|k: Seq<u8>| #[trigger] post.routes.contains_key(k) implies post.routes_ok(k) by {
        assert(pre.routes_ok(k));
    }
}

/// A connection that leaves.
pub proof fn lemma_left(v: RelayView, id: u64)
    requires
        v.wf(),
        v.sessions.contains_key(id),
    ensures
        v.left(id).wf(),
        v.list(v.sessions[id].key).len() == v.rest(id).len() + if v.sessions[id].connected {
            1int
        } else {
            0
        },
        v.left(id).sessions.dom() == v.sessions.dom(),
        forall|x: u64| #[trigger]
            v.sessions.contains_key(x) ==> v.left(id).sessions[x].key == v.sessions[x].key
                && v.left(id).sessions[x].connected == (v.sessions[x].connected && x != id),
{
    let w = v.left(id);
    let key = v.sessions[id].key;
    assert(v.session_ok(id));
    if v.here(key) {
        assert(v.list_ok(key));
    }
    let rest = v.rest(id);
    lemma_without(v.list(key), id);
    if v.here(key) && v.peers[key].contains(id) {
        lemma_listed(v, key, id);
    }
    assert(w.sessions.dom() =~= v.sessions.dom());
    assert forall|x: u64| #[trigger] w.sessions.contains_key(x) implies w.session_ok(x) by {
        assert(v.sessions.contains_key(x));
        assert(v.session_ok(x));
        if w.sessions[x].connected && v.sessions[x].key == key {
            assert(rest.contains(x));
        }
    }
    assert forall|k: Seq<u8>| #[trigger] w.peers.contains_key(k) implies w.list_ok(k) by {
        assert(v.peers.contains_key(k));
        assert(v.list_ok(k));
        let l = w.peers[k];
        assert forall|i: int| 0 <= i < l.len() implies w.sessions.contains_key(#[trigger] l[i])
            && w.sessions[l[i]].key == k && w.sessions[l[i]].connected by {
            if k == key {
                assert(rest.contains(rest[i]));
                lemma_listed(v, k, rest[i]);
            } else {
                assert(v.sessions.contains_key(l[i]));
            }
        }
    }
    assert forall|x: u64| #[trigger] w.watchers.contains(x) implies w.may_mesh(x) by {
        assert(v.may_mesh(x));
    }
    assert forall|p: (Seq<u8>, Seq<u8>)| #[trigger] w.paths.contains(p) implies w.here(p.1) by {
        assert(v.paths.contains(p));
    }
    assert forall|k: Seq<u8>| #[trigger] w.routes.contains_key(k) implies w.routes_ok(k) by {
        assert(v.routes_ok(k));
    }
}

/// Routes that were tried.
pub proof fn lemma_tried(
    v: RelayView,
    w: RelayView,
    dst: Seq<u8>,
    frame: FrameView,
    tried: nat,
    ok: bool,
)
    requires
        v.wf(),
        v.routes.contains_key(dst),
        w.routes == v.routes.insert(dst, tried_routes(v.routes[dst], frame, tried, ok)),
    ensures
        forall|k: Seq<u8>| #[trigger] w.routes.contains_key(k) ==> w.routes_ok(k),
{
    assert forall|k: Seq<u8>| #[trigger] w.routes.contains_key(k) implies w.routes_ok(k) by {
        assert(v.routes.contains_key(k));
        assert(v.routes_ok(k));
        let rs = w.routes[k];
        assert forall|i: int, j: int| 0 <= i < j < rs.len() implies (#[trigger] rs[i]).mesh_id != (
        #[trigger] rs[j]).mesh_id by {
            assert(v.routes[k][i].mesh_id != v.routes[k][j].mesh_id);
        }
    }
}

/// A route that becomes known.
pub proof fn lemma_route_added(
    v: RelayView,
    mesh_id: u64,
    peer: Seq<u8>,
    queue: int,
    offers: Seq<(FrameView, bool)>,
)
    requires
        v.wf(),
    ensures
        v.route_added(mesh_id, peer, queue, offers).wf(),
{
    let w = v.route_added(mesh_id, peer, queue, offers);
    assert forall|k: Seq<u8>| #[trigger] w.routes.contains_key(k) implies w.routes_ok(k) by {
        if v.routes.contains_key(k) {
            assert(v.routes_ok(k));
        }
        if k == peer && w.routes != v.routes {
            let old_routes = v.routes_to(peer);
            let rs = w.routes[k];
            assert forall|i: int, j: int|
                0 <= i < j < rs.len() implies (#[trigger] rs[i]).mesh_id != (
            #[trigger] rs[j]).mesh_id by {
                assert(rs[i] == old_routes[i]);
                if j < old_routes.len() {
                    assert(rs[j] == old_routes[j]);
                }
            }
        }
    }
    lemma_sessions_changed(v, w);
}

/// What a filter leaves of routes has each mesh connection once, too.
pub proof fn lemma_other_routes(rs: Seq<RouteView>, mesh_id: u64)
    requires
        forall|i: int, j: int|
            0 <= i < j < rs.len() ==> (#[trigger] rs[i]).mesh_id != (#[trigger] rs[j]).mesh_id,
    ensures
        ({
            let f = rs.filter(|r: RouteView| r.mesh_id != mesh_id);
            &&& forall|i: int, j: int|
                0 <= i < j < f.len() ==> (#[trigger] f[i]).mesh_id != (#[trigger] f[j]).mesh_id
            &&& forall|i: int|
                0 <= i < f.len() ==> exists|j: int| 0 <= j < rs.len() && #[trigger] rs[j] == (
                #[trigger] f[i]) && rs[j].mesh_id != mesh_id
        }),
    decreases rs.len(),
{
    reveal(Seq::filter);
    let p = |r: RouteView| r.mesh_id != mesh_id;
    if rs.len() > 0 {
        let init = rs.drop_last();
        assert forall|i: int, j: int| 0 <= i < j < init.len() implies (#[trigger] init[i]).mesh_id
            != (#[trigger] init[j]).mesh_id by {
            assert(rs[i].mesh_id != rs[j].mesh_id);
        }
        lemma_other_routes(init, mesh_id);
        let g = init.filter(p);
        let f = rs.filter(p);
        assert forall|i: int| 0 <= i < f.len() implies exists|j: int|
            0 <= j < rs.len() && #[trigger] rs[j] == (#[trigger] f[i]) && rs[j].mesh_id
                != mesh_id by {
            if i < g.len() {
                assert(f[i] == g[i]);
                let j = choose|j: int|
                    0 <= j < init.len() && #[trigger] init[j] == g[i] && init[j].mesh_id != mesh_id;
                assert(rs[j] == init[j]);
            } else {
                assert(rs[rs.len() - 1] == f[i]);
            }
        }
        assert forall|i: int, j: int| 0 <= i < j < f.len() implies (#[trigger] f[i]).mesh_id != (
        #[trigger] f[j]).mesh_id by {
            assert(f[i] == g[i]);
            if j < g.len() {
                assert(f[j] == g[j]);
            } else {
                let a = choose|a: int|
                    0 <= a < init.len() && #[trigger] init[a] == g[i] && init[a].mesh_id != mesh_id;
                assert(rs[a] == init[a]);
                assert(f[j] == rs[rs.len() - 1]);
            }
        }
    }
}

/// A route that is lost.
pub proof fn lemma_route_removed(v: RelayView, mesh_id: u64, peer: Seq<u8>)
    requires
        v.wf(),
    ensures
        v.route_removed(mesh_id, peer).wf(),
{
    let w = v.route_removed(mesh_id, peer);
    assert forall|k: Seq<u8>| #[trigger] w.routes.contains_key(k) implies w.routes_ok(k) by {
        if v.routes.contains_key(k) {
            assert(v.routes_ok(k));
        }
        if k == peer {
            lemma_other_routes(v.routes_to(peer), mesh_id);
        }
    }
    lemma_sessions_changed(v, w);
}

/// A mesh connection that ends.
pub proof fn lemma_mesh_removed(v: RelayView, mesh_id: u64)
    requires
        v.wf(),
    ensures
        v.mesh_removed(mesh_id).wf(),
{
    let w = v.mesh_removed(mesh_id);
    assert forall|k: Seq<u8>| #[trigger] w.routes.contains_key(k) implies w.routes_ok(k) by {
        assert(v.routes_ok(k));
        lemma_other_routes(v.routes_to(k), mesh_id);
    }
    lemma_sessions_changed(v, w);
}

/// A connection that is released.
pub proof fn lemma_released(v: RelayView, id: u64)
    requires
        v.wf(),
    ensures
        v.released(id).wf(),
{
    let w = v.released(id);
    assert forall|x: u64| #[trigger] w.sessions.contains_key(x) implies w.session_ok(x) by {
        assert(v.session_ok(x));
    }
    assert forall|k: Seq<u8>| #[trigger] w.peers.contains_key(k) implies w.list_ok(k) by {
        assert(v.list_ok(k));
        let l = w.peers[k];
        assert forall|i: int| 0 <= i < l.len() implies w.sessions.contains_key(#[trigger] l[i])
            && w.sessions[l[i]].key == k && w.sessions[l[i]].connected by {
            assert(v.sessions.contains_key(l[i]));
        }
    }
    assert forall|x: u64| #[trigger] w.watchers.contains(x) implies w.may_mesh(x) by {
        assert(v.may_mesh(x));
    }
    lemma_routes_kept(v, w);
}

/// A mesh member that starts to watch does not disturb the invariant.
pub proof fn lemma_watching(v: RelayView, id: u64)
    requires
        v.wf(),
        v.may_mesh(id),
    ensures
        (RelayView { watchers: v.watchers.insert(id), ..v }).wf(),
{
    let w = RelayView { watchers: v.watchers.insert(id), ..v };
    assert forall|x: u64| #[trigger] w.sessions.contains_key(x) implies w.session_ok(x) by {
        assert(v.session_ok(x));
    }
    assert forall|k: Seq<u8>| #[trigger] w.peers.contains_key(k) implies w.list_ok(k) by {
        assert(v.list_ok(k));
    }
    assert forall|x: u64| #[trigger] w.watchers.contains(x) implies w.may_mesh(x) by {
        if x != id {
            assert(v.watchers.contains(x));
        }
    }
    assert forall|k: Seq<u8>| #[trigger] w.routes.contains_key(k) implies w.routes_ok(k) by {
        assert(v.routes_ok(k));
    }
}

} // verus!
