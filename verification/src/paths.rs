//! The park's route finding: the entrance search that places the boarding
//! tile, a guest's next step towards a target, and the far end of a ride.

use vstd::prelude::*;
use crate::grid::{
    adj, passable, reach, reachable, Filter, ENTRANCE_IDX, N, TILE_TRACK,
};
use crate::rng::{base_dirs, base_neighbors, shuffled, shuffled_neighbors, lemma_base_valid, lemma_shuffled_valid};
use crate::search::{
    bfs, bfs_result, first_step, as_search, search_wf, Search, BfsState,
    lemma_result_inv, lemma_result_queue, lemma_result_seen, lemma_result_order,
    lemma_result_depths, lemma_result_reachable, lemma_result_found, lemma_result_parent,
    lemma_result_no_parent, lemma_first_step, greach,
};
use crate::grid::lemma_shortest_iff;
use crate::world::{World, WorldView};

verus! {

/// The search from the entrance over walkable tiles, in the fixed direction order.
pub open spec fn entrance_search(tiles: Seq<u8>) -> Search {
    Search { tiles, start: ENTRANCE_IDX as int, filter: Filter::Walkable, dirs: base_dirs(), stop: None }
}

/// Where the entrance search ends.
pub open spec fn entrance_result(tiles: Seq<u8>) -> BfsState {
    bfs_result(entrance_search(tiles))
}

/// The first track tile in the sequence `q` from position `i` on, or -1.
pub open spec fn first_track(tiles: Seq<u8>, q: Seq<usize>, i: int) -> i16
    decreases q.len() - i,
{
    if i >= q.len() || i < 0 {
        -1i16
    } else if tiles[q[i] as int] == TILE_TRACK {
        q[i] as i16
    } else {
        first_track(tiles, q, i + 1)
    }
}

/// The boarding tile for `tiles`: the first track tile the entrance search sees.
pub open spec fn boarding_spec(tiles: Seq<u8>) -> i16 {
    first_track(tiles, entrance_result(tiles).queue, 0)
}

/// `b` is a track tile reachable from the entrance and no farther from it
/// than any other track tile.
pub open spec fn nearest_track(tiles: Seq<u8>, b: int) -> bool {
    &&& 0 <= b < N
    &&& tiles[b] == TILE_TRACK
    &&& reachable(tiles, Filter::Walkable, ENTRANCE_IDX as int, b)
    &&& forall|v: int, k: nat|
        0 <= v < N && tiles[v] == TILE_TRACK && #[trigger] reach(tiles, Filter::Walkable, ENTRANCE_IDX as int, k, v)
            ==> reach(tiles, Filter::Walkable, ENTRANCE_IDX as int, k, b)
}

/// `parent` records, for every tile reachable from the entrance other than
/// the entrance itself, a neighbour one step nearer the entrance, and -1 for
/// every other tile.
pub open spec fn parent_tree(tiles: Seq<u8>, parent: Seq<i16>) -> bool {
    &&& parent.len() == N
    &&& forall|v: int| 0 <= v < N ==> {
        if v != ENTRANCE_IDX && reachable(tiles, Filter::Walkable, ENTRANCE_IDX as int, v) {
            &&& 0 <= #[trigger] parent[v] < N
            &&& adj(parent[v] as int, v)
            &&& forall|k: nat| #[trigger] reach(tiles, Filter::Walkable, ENTRANCE_IDX as int, k + 1, v)
                == reach(tiles, Filter::Walkable, ENTRANCE_IDX as int, k, parent[v] as int)
        } else {
            parent[v] == -1
        }
    }
}

proof fn lemma_first_track(tiles: Seq<u8>, q: Seq<usize>, i: int)
    requires
        0 <= i <= q.len(),
        forall|k: int| 0 <= k < q.len() ==> q[k] < N,
    ensures
        first_track(tiles, q, i) == -1 <==> forall|k: int| i <= k < q.len() ==> tiles[q[k] as int] != TILE_TRACK,
        first_track(tiles, q, i) != -1 ==> exists|k: int| i <= k < q.len() && first_track(tiles, q, i) == q[k] as i16
            && tiles[q[k] as int] == TILE_TRACK
            && forall|l: int| i <= l < k ==> tiles[q[l] as int] != TILE_TRACK,
    decreases q.len() - i,
{
    if i < q.len() {
        lemma_first_track(tiles, q, i + 1);
    }
}

/// The boarding tile is -1 exactly when no track tile is reachable from the
/// entrance, and otherwise a nearest reachable track tile.
pub proof fn lemma_boarding(tiles: Seq<u8>)
    requires
        tiles.len() == N,
    ensures
        boarding_spec(tiles) < 0 <==> forall|v: int| 0 <= v < N && tiles[v] == TILE_TRACK
            ==> !reachable(tiles, Filter::Walkable, ENTRANCE_IDX as int, v),
        boarding_spec(tiles) >= 0 ==> nearest_track(tiles, boarding_spec(tiles) as int),
{
    let g = entrance_search(tiles);
    let r = entrance_result(tiles);
    lemma_base_valid();
    assert(search_wf(g));
    lemma_result_inv(g);
    let q = r.queue;
    assert forall|k: int| 0 <= k < q.len() implies q[k] < N by {
        lemma_result_queue(g, k);
    }
    lemma_first_track(tiles, q, 0);
    let b = boarding_spec(tiles);
    if b == -1 {
        assert forall|v: int| 0 <= v < N && tiles[v] == TILE_TRACK implies !reachable(tiles, Filter::Walkable, ENTRANCE_IDX as int, v) by {
            lemma_result_reachable(g, v);
            if reachable(tiles, Filter::Walkable, ENTRANCE_IDX as int, v) {
                lemma_result_seen(g, v);
                let p = r.pos[v];
                assert(tiles[q[p] as int] != TILE_TRACK);
            }
        }
    } else {
        let k0 = choose|k: int| 0 <= k < q.len() && b == q[k] as i16 && tiles[q[k] as int] == TILE_TRACK
            && forall|l: int| 0 <= l < k ==> tiles[q[l] as int] != TILE_TRACK;
        lemma_result_queue(g, k0);
        let bi = q[k0] as int;
        assert(b as int == bi);
        lemma_result_reachable(g, bi);
        lemma_result_depths(g, bi);
        assert forall|v: int, k: nat|
            0 <= v < N && tiles[v] == TILE_TRACK && #[trigger] reach(tiles, Filter::Walkable, ENTRANCE_IDX as int, k, v)
                implies reach(tiles, Filter::Walkable, ENTRANCE_IDX as int, k, bi) by {
            lemma_result_reachable(g, v);
            lemma_result_seen(g, v);
            lemma_result_depths(g, v);
            let p = r.pos[v];
            assert(q[p] as int == v);
            if p < k0 {
                assert(tiles[q[p] as int] != TILE_TRACK);
            }
            lemma_result_order(g, k0, p);
            lemma_shortest_iff(tiles, Filter::Walkable, ENTRANCE_IDX as int, r.depth[v] as nat, v, k);
            lemma_shortest_iff(tiles, Filter::Walkable, ENTRANCE_IDX as int, r.depth[bi] as nat, bi, k);
        }
        assert(b >= 0);
    }
}

/// The entrance search's parents form a shortest-path tree back to the entrance.
pub proof fn lemma_parent_tree(tiles: Seq<u8>)
    requires
        tiles.len() == N,
    ensures
        parent_tree(tiles, entrance_result(tiles).parent),
{
    let g = entrance_search(tiles);
    let r = entrance_result(tiles);
    lemma_base_valid();
    assert(search_wf(g));
    lemma_result_inv(g);
    assert forall|v: int| 0 <= v < N implies {
        if v != ENTRANCE_IDX && reachable(tiles, Filter::Walkable, ENTRANCE_IDX as int, v) {
            &&& 0 <= #[trigger] r.parent[v] < N
            &&& adj(r.parent[v] as int, v)
            &&& forall|k: nat| #[trigger] reach(tiles, Filter::Walkable, ENTRANCE_IDX as int, k + 1, v)
                == reach(tiles, Filter::Walkable, ENTRANCE_IDX as int, k, r.parent[v] as int)
        } else {
            r.parent[v] == -1
        }
    } by {
        lemma_result_reachable(g, v);
        if v != ENTRANCE_IDX && reachable(tiles, Filter::Walkable, ENTRANCE_IDX as int, v) {
            lemma_result_parent(g, v);
            assert forall|k: nat| #[trigger] reach(tiles, Filter::Walkable, ENTRANCE_IDX as int, k + 1, v)
                == reach(tiles, Filter::Walkable, ENTRANCE_IDX as int, k, r.parent[v] as int) by {
                assert(greach(g, k + 1, v) == greach(g, k, r.parent[v] as int));
            }
        } else {
            lemma_result_no_parent(g, v);
        }
    }
}

/// Breadth-first search from the entrance over walkable tiles: records, for
/// every reachable tile, its parent one step nearer the entrance, and as the
/// boarding tile the first track tile the search reaches (a nearest one).
pub fn recompute_paths(w: &mut World)
    requires
        old(w).tiles.len() == N,
    ensures
        final(w)@ == (WorldView {
            parent: entrance_result(old(w).tiles@).parent,
            boarding_tile: boarding_spec(old(w).tiles@),
            ..old(w)@
        }),
        parent_tree(final(w).tiles@, final(w).parent@),
        final(w).boarding_tile < 0 <==> forall|v: int| 0 <= v < N && final(w).tiles@[v] == TILE_TRACK
            ==> !reachable(final(w).tiles@, Filter::Walkable, ENTRANCE_IDX as int, v),
        final(w).boarding_tile >= 0 ==> nearest_track(final(w).tiles@, final(w).boarding_tile as int),
{
    let dirs = base_neighbors();
    let ghost g = entrance_search(w.tiles@);
    proof {
        assert(as_search(w.tiles@, ENTRANCE_IDX, Filter::Walkable, dirs@, None) == g);
        lemma_base_valid();
        lemma_result_inv(g);
    }
    let (order, parent, _found) = bfs(&w.tiles, ENTRANCE_IDX, Filter::Walkable, &dirs, None);
    w.parent = parent;
    let mut boarding: i16 = -1;
    let mut i: usize = 0;
    while boarding < 0 && i < order.len()
        invariant
            order@ == entrance_result(w.tiles@).queue,
            w.tiles.len() == N,
            g == entrance_search(w.tiles@),
            search_wf(g),
            i <= order.len(),
            boarding == -1 ==> first_track(w.tiles@, order@, 0) == first_track(w.tiles@, order@, i as int),
            boarding != -1 ==> boarding == first_track(w.tiles@, order@, 0) && boarding >= 0,
        decreases order.len() - i + (if boarding < 0 { 1int } else { 0int }),
    {
        let cur = order[i];
        proof { lemma_result_queue(g, i as int); }
        if w.tiles[cur] == TILE_TRACK {
            boarding = cur as i16;
        } else {
            i += 1;
        }
    }
    w.boarding_tile = boarding;
    proof {
        lemma_boarding(w.tiles@);
        lemma_parent_tree(w.tiles@);
    }
}


/// The search a guest at `from` makes towards `target`, trying directions
/// in the order its seed gives.
pub open spec fn step_search(tiles: Seq<u8>, from: int, target: int, filter: Filter, seed: u32) -> Search {
    Search { tiles, start: from, filter, dirs: shuffled(seed), stop: Some(target) }
}

/// The tile a guest at `from` steps onto next on its way to `target`.
pub open spec fn step_spec(tiles: Seq<u8>, from: u16, target: u16, filter: Filter, seed: u32) -> Option<u16> {
    if from == target {
        None
    } else {
        let r = bfs_result(step_search(tiles, from as int, target as int, filter, seed));
        if !r.found {
            None
        } else {
            match first_step(r, from as int, target as int, N as nat) {
                Some(n) => Some(n as u16),
                None => None,
            }
        }
    }
}

/// `r` is no step when `from` is `target` or `target` cannot be reached;
/// otherwise it is a passable neighbour of `from` on a shortest way to
/// `target`: from it, `target` is within `k` steps exactly when it is within
/// `k + 1` steps from `from`.
#[verifier::opaque]
pub open spec fn good_step(tiles: Seq<u8>, filter: Filter, from: u16, target: u16, r: Option<u16>) -> bool {
    &&& (r is None <==> (from == target || !reachable(tiles, filter, from as int, target as int)))
    &&& (r matches Some(n) ==> {
        &&& adj(from as int, n as int)
        &&& passable(tiles, filter, n as int)
        &&& forall|k: nat| #[trigger] reach(tiles, filter, n as int, k, target as int)
            == reach(tiles, filter, from as int, k + 1, target as int)
    })
}

/// A step, when there is one, is to a passable neighbour on the grid.
pub proof fn lemma_step_adj(tiles: Seq<u8>, filter: Filter, from: u16, target: u16, r: Option<u16>)
    requires
        good_step(tiles, filter, from, target, r),
    ensures
        r matches Some(n) ==> adj(from as int, n as int) && n < N && passable(tiles, filter, n as int),
{
    reveal(good_step);
    if let Some(n) = r {
        crate::grid::lemma_adj_sym(from as int, n as int);
    }
}

/// There is no step exactly when `from` is `target` or `target` cannot be
/// reached; a step keeps `target` reachable.
pub proof fn lemma_step_cases(tiles: Seq<u8>, from: u16, target: u16, filter: Filter, seed: u32)
    requires
        tiles.len() == N,
        from < N || from == target,
    ensures
        step_spec(tiles, from, target, filter, seed) is None <==> (from == target
            || !reachable(tiles, filter, from as int, target as int)),
        step_spec(tiles, from, target, filter, seed) matches Some(n) ==> {
            &&& n < N
            &&& adj(from as int, n as int)
            &&& passable(tiles, filter, n as int)
            &&& reachable(tiles, filter, n as int, target as int)
        },
{
    lemma_step_spec(tiles, from, target, filter, seed);
    reveal(good_step);
    if let Some(n) = step_spec(tiles, from, target, filter, seed) {
        crate::grid::lemma_adj_sym(from as int, n as int);
        let k = choose|k: nat| #[trigger] reach(tiles, filter, from as int, k, target as int);
        if k == 0 {
            assert(from == target);
        } else {
            assert(reach(tiles, filter, n as int, (k - 1) as nat, target as int)
                == reach(tiles, filter, from as int, ((k - 1) as nat + 1) as nat, target as int));
        }
    }
}

/// The step the search picks is a step along a shortest way.
pub proof fn lemma_step_spec(tiles: Seq<u8>, from: u16, target: u16, filter: Filter, seed: u32)
    requires
        tiles.len() == N,
        from < N || from == target,
    ensures
        good_step(tiles, filter, from, target, step_spec(tiles, from, target, filter, seed)),
{
    reveal(good_step);
    if from != target {
        let g = step_search(tiles, from as int, target as int, filter, seed);
        lemma_shuffled_valid(seed);
        assert(search_wf(g));
        lemma_result_found(g, target as int);
        let r = bfs_result(g);
        if r.found {
            lemma_first_step(g, target as int);
            let n = first_step(r, from as int, target as int, N as nat)->0;
            assert(0 <= n < N);
            assert forall|k: nat| #[trigger] reach(tiles, filter, n as u16 as int, k, target as int)
                == reach(tiles, filter, from as int, k + 1, target as int) by {
                assert(reach(tiles, filter, n, k, target as int) == greach(g, k + 1, target as int));
            }
        }
    }
}

/// Breadth-first search from `from` towards `target` over the tiles that
/// pass `filter`, trying neighbours in the order given by `seed`. Returns
/// the next tile on the shortest path found, or `None` if `from` is
/// `target` or `target` is unreachable.
pub fn step_bfs(tiles: &Vec<u8>, from: u16, target: u16, filter: Filter, seed: u32) -> (r: Option<u16>)
    requires
        tiles.len() == N,
        from < N || from == target,
    ensures
        r == step_spec(tiles@, from, target, filter, seed),
        good_step(tiles@, filter, from, target, r),
{
    proof { lemma_step_spec(tiles@, from, target, filter, seed); }
    if from == target {
        return None;
    }
    let dirs = shuffled_neighbors(seed);
    let ghost g = step_search(tiles@, from as int, target as int, filter, seed);
    proof {
        assert(as_search(tiles@, from as usize, filter, dirs@, Some(target as usize)) == g);
        lemma_result_inv(g);
    }
    let (_queue, parent, found) = bfs(tiles, from as usize, filter, &dirs, Some(target as usize));
    if !found {
        return None;
    }
    let ghost r = bfs_result(g);
    proof {
        lemma_result_found(g, target as int);
        lemma_result_seen(g, target as int);
    }
    let mut cur: i16 = target as i16;
    let ghost mut fuel: nat = N as nat;
    loop
        invariant
            search_wf(g),
            r == bfs_result(g),
            g.start == from as int,
            parent@ == r.parent,
            r.parent.len() == N,
            good_step(tiles@, filter, from, target, step_spec(tiles@, from, target, filter, seed)),
            0 <= cur < N,
            cur != from as int,
            r.visited[cur as int],
            r.depth[cur as int] <= fuel,
            first_step(r, from as int, cur as int, fuel) == first_step(r, from as int, target as int, N as nat),
            step_spec(tiles@, from, target, filter, seed) == match first_step(r, from as int, target as int, N as nat) {
                Some(n) => Some(n as u16),
                None => None::<u16>,
            },
        decreases r.depth[cur as int],
    {
        proof {
            lemma_result_parent(g, cur as int);
            lemma_result_depths(g, r.parent[cur as int] as int);
        }
        let p = parent[cur as usize];
        if p < 0 {
            return None;
        }
        if p as u16 == from {
            return Some(cur as u16);
        }
        cur = p;
        proof { fuel = (fuel - 1) as nat; }
    }
}

/// The next step of a guest walking from `from` to `target` over walkable tiles.
pub fn step_toward(w: &World, from: u16, target: u16, seed: u32) -> (r: Option<u16>)
    requires
        w.tiles.len() == N,
        from < N || from == target,
    ensures
        r == step_spec(w.tiles@, from, target, Filter::Walkable, seed),
        good_step(w.tiles@, Filter::Walkable, from, target, r),
{
    step_bfs(&w.tiles, from, target, Filter::Walkable, seed)
}

/// The next step of a riding guest moving from `from` to `target` along track.
pub fn step_along_track(w: &World, from: u16, target: u16, seed: u32) -> (r: Option<u16>)
    requires
        w.tiles.len() == N,
        from < N || from == target,
    ensures
        r == step_spec(w.tiles@, from, target, Filter::Track, seed),
        good_step(w.tiles@, Filter::Track, from, target, r),
{
    step_bfs(&w.tiles, from, target, Filter::Track, seed)
}

/// The search over track from a boarding tile.
pub open spec fn ride_search(tiles: Seq<u8>, boarding: int) -> Search {
    Search { tiles, start: boarding, filter: Filter::Track, dirs: base_dirs(), stop: None }
}

/// The tile a ride from `boarding` heads out to: the last tile the search
/// over track from `boarding` sees.
pub open spec fn ride_target_spec(tiles: Seq<u8>, boarding: u16) -> u16 {
    let q = bfs_result(ride_search(tiles, boarding as int)).queue;
    q[q.len() - 1] as u16
}

/// `r` can be reached from `b` along track, and every tile that can be is
/// no farther from `b` than `r`.
pub open spec fn farthest_track(tiles: Seq<u8>, b: int, r: int) -> bool {
    &&& reachable(tiles, Filter::Track, b, r)
    &&& forall|v: int, k: nat| reachable(tiles, Filter::Track, b, v) && reach(tiles, Filter::Track, b, k, r)
        ==> #[trigger] reach(tiles, Filter::Track, b, k, v)
}

/// The far end of a ride is a farthest tile along track from the boarding tile.
pub proof fn lemma_ride_target(tiles: Seq<u8>, boarding: u16)
    requires
        tiles.len() == N,
        boarding < N,
    ensures
        ride_target_spec(tiles, boarding) < N,
        farthest_track(tiles, boarding as int, ride_target_spec(tiles, boarding) as int),
{
    let g = ride_search(tiles, boarding as int);
    lemma_base_valid();
    assert(search_wf(g));
    lemma_result_inv(g);
    let r = bfs_result(g);
    let q = r.queue;
    let last = q.len() - 1;
    lemma_result_queue(g, last);
    let t = q[last] as int;
    lemma_result_reachable(g, t);
    lemma_result_depths(g, t);
    assert forall|v: int, k: nat| reachable(tiles, Filter::Track, boarding as int, v) && reach(tiles, Filter::Track, boarding as int, k, t)
        implies #[trigger] reach(tiles, Filter::Track, boarding as int, k, v) by {
        lemma_result_reachable(g, v);
        lemma_result_seen(g, v);
        lemma_result_depths(g, v);
        let p = r.pos[v];
        lemma_result_order(g, p, last);
        lemma_shortest_iff(tiles, Filter::Track, boarding as int, r.depth[t] as nat, t, k);
        lemma_shortest_iff(tiles, Filter::Track, boarding as int, r.depth[v] as nat, v, k);
    }
}

/// From a tile with no track beside it, only that tile can be reached along track.
pub proof fn lemma_track_alone(tiles: Seq<u8>, b: int, k: nat, v: int)
    requires
        0 <= b < N,
        forall|u: int| adj(b, u) ==> tiles[u] != TILE_TRACK,
        reach(tiles, Filter::Track, b, k, v),
    ensures
        v == b,
    decreases k,
{
    if k > 0 {
        let j = (k - 1) as nat;
        if reach(tiles, Filter::Track, b, j, v) {
            lemma_track_alone(tiles, b, j, v);
        } else {
            let u = if (crate::grid::moved(v, 1, 0) matches Some(u) && reach(tiles, Filter::Track, b, j, u)) {
                crate::grid::moved(v, 1, 0)->0
            } else if (crate::grid::moved(v, -1, 0) matches Some(u) && reach(tiles, Filter::Track, b, j, u)) {
                crate::grid::moved(v, -1, 0)->0
            } else if (crate::grid::moved(v, 0, 1) matches Some(u) && reach(tiles, Filter::Track, b, j, u)) {
                crate::grid::moved(v, 0, 1)->0
            } else {
                crate::grid::moved(v, 0, -1)->0
            };
            assert(adj(v, u));
            crate::grid::lemma_adj_sym(v, u);
            lemma_track_alone(tiles, b, j, u);
        }
    }
}

/// Picks the farthest reachable track tile from `boarding` by searching over
/// track only; that is `boarding` itself when no track lies beside it.
pub fn pick_ride_target(w: &World, boarding: u16) -> (r: u16)
    requires
        w.tiles.len() == N,
        boarding < N,
    ensures
        r == ride_target_spec(w.tiles@, boarding),
        r < N,
        farthest_track(w.tiles@, boarding as int, r as int),
        (forall|u: int| adj(boarding as int, u) ==> w.tiles@[u] != TILE_TRACK) ==> r == boarding,
{
    let dirs = base_neighbors();
    let ghost g = ride_search(w.tiles@, boarding as int);
    proof {
        assert(as_search(w.tiles@, boarding as usize, Filter::Track, dirs@, None) == g);
        lemma_result_inv(g);
        lemma_ride_target(w.tiles@, boarding);
    }
    let (order, _parent, _found) = bfs(&w.tiles, boarding as usize, Filter::Track, &dirs, None);
    proof {
        lemma_result_queue(g, order.len() - 1);
        if forall|u: int| adj(boarding as int, u) ==> w.tiles@[u] != TILE_TRACK {
            let t = order@[order.len() - 1] as int;
            let k = choose|k: nat| #[trigger] reach(w.tiles@, Filter::Track, boarding as int, k, t);
            lemma_track_alone(w.tiles@, boarding as int, k, t);
        }
    }
    order[order.len() - 1] as u16
}


/// The boarding tile is -1 or a tile index.
pub proof fn lemma_boarding_range(tiles: Seq<u8>)
    requires
        tiles.len() == N,
    ensures
        boarding_spec(tiles) == -1 || 0 <= boarding_spec(tiles) < N,
{
    let g = entrance_search(tiles);
    lemma_base_valid();
    assert(search_wf(g));
    lemma_result_inv(g);
    let q = entrance_result(tiles).queue;
    assert forall|k: int| 0 <= k < q.len() implies q[k] < N by {
        lemma_result_queue(g, k);
    }
    lemma_first_track(tiles, q, 0);
}

} // verus!
