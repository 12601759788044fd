//! The park grid: its dimensions, tile kinds, index arithmetic, and the
//! reachability relation that the path searches are measured against.

use vstd::prelude::*;

verus! {

/// Width of the park in tiles.
pub const W: usize = 20;
/// Height of the park in tiles.
pub const H: usize = 15;
/// Number of tiles.
pub const N: usize = W * H;
/// Column of the entrance.
pub const ENTRANCE_X: usize = 0;
/// Row of the entrance.
pub const ENTRANCE_Y: usize = 7;
/// Tile index of the entrance.
pub const ENTRANCE_IDX: usize = ENTRANCE_Y * W + ENTRANCE_X;

pub const TILE_GRASS: u8 = 0;
pub const TILE_PATH: u8 = 1;
pub const TILE_TRACK: u8 = 2;

/// Which tiles a search may step onto.
#[derive(Clone, Copy, PartialEq, Eq, Debug)]
pub enum Filter {
    /// Path, track, and the entrance tile.
    Walkable,
    /// Track only.
    Track,
}

/// Whether tile `i` may be stepped onto under `filter`.
pub open spec fn passable(tiles: Seq<u8>, filter: Filter, i: int) -> bool {
    match filter {
        Filter::Walkable => i == ENTRANCE_IDX || tiles[i] == TILE_PATH || tiles[i] == TILE_TRACK,
        Filter::Track => tiles[i] == TILE_TRACK,
    }
}

/// The tile reached from `u` by the offset `(dx, dy)`, if it lies on the grid.
pub open spec fn moved(u: int, dx: int, dy: int) -> Option<int> {
    let nx = u % (W as int) + dx;
    let ny = u / (W as int) + dy;
    if 0 <= nx < W && 0 <= ny < H {
        Some(ny * W + nx)
    } else {
        None
    }
}

/// `v` is one of the four grid neighbours of `u`.
pub open spec fn adj(u: int, v: int) -> bool {
    &&& 0 <= u < N
    &&& {
        ||| moved(u, 1, 0) == Some(v)
        ||| moved(u, -1, 0) == Some(v)
        ||| moved(u, 0, 1) == Some(v)
        ||| moved(u, 0, -1) == Some(v)
    }
}

/// `v` can be reached from `s` in at most `k` steps between grid neighbours,
/// every tile after `s` being passable.
pub open spec fn reach(tiles: Seq<u8>, filter: Filter, s: int, k: nat, v: int) -> bool
    decreases k,
{
    if k == 0 {
        v == s
    } else {
        let j = (k - 1) as nat;
        ||| reach(tiles, filter, s, j, v)
        ||| {
            &&& 0 <= v < N
            &&& passable(tiles, filter, v)
            &&& {
                ||| (moved(v, 1, 0) matches Some(u) && reach(tiles, filter, s, j, u))
                ||| (moved(v, -1, 0) matches Some(u) && reach(tiles, filter, s, j, u))
                ||| (moved(v, 0, 1) matches Some(u) && reach(tiles, filter, s, j, u))
                ||| (moved(v, 0, -1) matches Some(u) && reach(tiles, filter, s, j, u))
            }
        }
    }
}

/// `v` can be reached from `s` at all.
pub open spec fn reachable(tiles: Seq<u8>, filter: Filter, s: int, v: int) -> bool {
    exists|k: nat| #[trigger] reach(tiles, filter, s, k, v)
}

/// `k` is the length of a shortest way from `s` to `v`.
pub open spec fn shortest(tiles: Seq<u8>, filter: Filter, s: int, k: nat, v: int) -> bool {
    &&& reach(tiles, filter, s, k, v)
    &&& forall|j: nat| j < k ==> !#[trigger] reach(tiles, filter, s, j, v)
}

/// A tile's coordinates round-trip through its index.
pub proof fn lemma_coords(x: int, y: int)
    requires
        0 <= x < W,
        0 <= y < H,
    ensures
        (y * W + x) % (W as int) == x,
        (y * W + x) / (W as int) == y,
        0 <= y * W + x < N,
{
    assert((y * 20 + x) % 20 == x && (y * 20 + x) / 20 == y) by (nonlinear_arith)
        requires
            0 <= x < 20,
            0 <= y < 15,
    ;
}

/// A grid index splits into its column and row.
pub proof fn lemma_split(u: int)
    requires
        0 <= u < N,
    ensures
        0 <= u % (W as int) < W,
        0 <= u / (W as int) < H,
        u == (u / (W as int)) * W + u % (W as int),
{
    assert(0 <= u % 20 < 20 && 0 <= u / 20 < 15 && u == (u / 20) * 20 + u % 20) by (nonlinear_arith)
        requires
            0 <= u < 300,
    ;
}

/// Moving by an offset and back by its opposite returns to the start.
pub proof fn lemma_moved_back(u: int, dx: int, dy: int, v: int)
    requires
        0 <= u < N,
        moved(u, dx, dy) == Some(v),
    ensures
        0 <= v < N,
        moved(v, -dx, -dy) == Some(u),
{
    lemma_split(u);
    let nx = u % (W as int) + dx;
    let ny = u / (W as int) + dy;
    lemma_coords(nx, ny);
}

/// Grid adjacency is symmetric.
pub proof fn lemma_adj_sym(u: int, v: int)
    requires
        adj(u, v),
    ensures
        adj(v, u),
        0 <= v < N,
{
    if moved(u, 1, 0) == Some(v) {
        lemma_moved_back(u, 1, 0, v);
    } else if moved(u, -1, 0) == Some(v) {
        lemma_moved_back(u, -1, 0, v);
    } else if moved(u, 0, 1) == Some(v) {
        lemma_moved_back(u, 0, 1, v);
    } else {
        lemma_moved_back(u, 0, -1, v);
    }
}

/// Reachability within `j` steps implies reachability within any `k >= j`.
pub proof fn lemma_reach_mono(tiles: Seq<u8>, filter: Filter, s: int, j: nat, k: nat, v: int)
    requires
        j <= k,
        reach(tiles, filter, s, j, v),
    ensures
        reach(tiles, filter, s, k, v),
    decreases k - j,
{
    if j < k {
        lemma_reach_mono(tiles, filter, s, j, (k - 1) as nat, v);
    }
}

/// A neighbour `u` of a passable `v` that is within `k` steps puts `v` within `k + 1`.
pub proof fn lemma_reach_step(tiles: Seq<u8>, filter: Filter, s: int, k: nat, u: int, v: int)
    requires
        adj(u, v),
        passable(tiles, filter, v),
        reach(tiles, filter, s, k, u),
    ensures
        reach(tiles, filter, s, k + 1, v),
{
    lemma_adj_sym(u, v);
}

/// Stepping first from `p` to its passable neighbour `v` and then on from `v`
/// is a way from `p`.
pub proof fn lemma_reach_prepend(tiles: Seq<u8>, filter: Filter, p: int, v: int, k: nat, t: int)
    requires
        adj(p, v),
        passable(tiles, filter, v),
        reach(tiles, filter, v, k, t),
    ensures
        reach(tiles, filter, p, k + 1, t),
    decreases k,
{
    if k == 0 {
        lemma_reach_step(tiles, filter, p, 0, p, v);
    } else {
        let j = (k - 1) as nat;
        if reach(tiles, filter, v, j, t) {
            lemma_reach_prepend(tiles, filter, p, v, j, t);
            lemma_reach_mono(tiles, filter, p, k, k + 1, t);
        } else {
            let u = if (moved(t, 1, 0) matches Some(u) && reach(tiles, filter, v, j, u)) {
                moved(t, 1, 0)->0
            } else if (moved(t, -1, 0) matches Some(u) && reach(tiles, filter, v, j, u)) {
                moved(t, -1, 0)->0
            } else if (moved(t, 0, 1) matches Some(u) && reach(tiles, filter, v, j, u)) {
                moved(t, 0, 1)->0
            } else {
                moved(t, 0, -1)->0
            };
            lemma_reach_prepend(tiles, filter, p, v, j, u);
            assert(adj(t, u));
            lemma_adj_sym(t, u);
            lemma_reach_step(tiles, filter, p, k, u, t);
        }
    }
}

/// Reachability within a bound is the same as the bound being at least the distance.
pub proof fn lemma_shortest_iff(tiles: Seq<u8>, filter: Filter, s: int, d: nat, v: int, k: nat)
    requires
        shortest(tiles, filter, s, d, v),
    ensures
        reach(tiles, filter, s, k, v) <==> d <= k,
{
    if d <= k {
        lemma_reach_mono(tiles, filter, s, d, k, v);
    }
}

pub fn xy_to_idx(x: usize, y: usize) -> (r: usize)
    requires
        y * W + x <= usize::MAX,
    ensures
        r == y * W + x,
        x < W && y < H ==> {
            &&& r < N
            &&& r as int % (W as int) == x
            &&& r as int / (W as int) == y
        },
{
    proof {
        if x < W && y < H {
            lemma_coords(x as int, y as int);
        }
    }
    y * W + x
}

pub fn idx_to_x(i: usize) -> (r: usize)
    ensures
        r == i % W,
{
    i % W
}

pub fn idx_to_y(i: usize) -> (r: usize)
    ensures
        r == i / W,
{
    i / W
}

/// Whether a guest can stand on tile `i`: path, track, or the entrance.
pub fn walkable(tiles: &Vec<u8>, i: usize) -> (r: bool)
    requires
        i < tiles.len(),
    ensures
        r == passable(tiles@, Filter::Walkable, i as int),
{
    if i == ENTRANCE_IDX {
        return true;
    }
    let t = tiles[i];
    t == TILE_PATH || t == TILE_TRACK
}

/// Whether tile `i` is ride track.
pub fn is_track(tiles: &Vec<u8>, i: usize) -> (r: bool)
    requires
        i < tiles.len(),
    ensures
        r == passable(tiles@, Filter::Track, i as int),
{
    tiles[i] == TILE_TRACK
}

/// Whether tile `i` may be stepped onto under `filter`.
pub fn passes(tiles: &Vec<u8>, filter: Filter, i: usize) -> (r: bool)
    requires
        i < tiles.len(),
    ensures
        r == passable(tiles@, filter, i as int),
{
    match filter {
        Filter::Walkable => walkable(tiles, i),
        Filter::Track => is_track(tiles, i),
    }
}

} // verus!
