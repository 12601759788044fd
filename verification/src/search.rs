//! Breadth-first search over the park grid.
//!
//! The search is stated once as a spec-level state machine (`bfs_step`,
//! `run`), and proved to label every tile it visits with its true distance
//! from the start and to record, for each, a neighbour one step closer.
//! `bfs` runs that same machine on concrete vectors.

use vstd::prelude::*;
use crate::grid::{
    adj, lemma_adj_sym, lemma_reach_mono, lemma_reach_prepend, lemma_reach_step,
    lemma_shortest_iff, lemma_split, moved, passable, reach, reachable, shortest, xy_to_idx,
    idx_to_x, idx_to_y, passes, Filter, H, N, W,
};
use crate::rng::{is_unit, valid_dirs};

verus! {

/// What a search is asked: the tiles, where it starts, which tiles it may
/// enter, in which order it tries the four directions, and where, if
/// anywhere, it stops as soon as it takes that tile off the queue.
pub struct Search {
    pub tiles: Seq<u8>,
    pub start: int,
    pub filter: Filter,
    pub dirs: Seq<(i32, i32)>,
    pub stop: Option<int>,
}

/// A search's state: the queue and how far it has been taken off, which
/// tiles have been seen and from where, whether the stop tile was reached,
/// and (for the proofs) each tile's depth and queue position.
#[verifier::ext_equal]
pub struct BfsState {
    pub queue: Seq<usize>,
    pub head: int,
    pub visited: Seq<bool>,
    pub parent: Seq<i16>,
    pub found: bool,
    pub depth: Seq<int>,
    pub pos: Seq<int>,
}

/// A search the proofs cover: a full grid, a start on it, and the four
/// unit directions in some order.
pub open spec fn search_wf(g: Search) -> bool {
    &&& g.tiles.len() == N
    &&& 0 <= g.start < N
    &&& valid_dirs(g.dirs)
}

/// The search may enter tile `v`.
pub open spec fn ok(g: Search, v: int) -> bool {
    passable(g.tiles, g.filter, v)
}

/// `v` is within `k` steps of the search's start.
pub open spec fn greach(g: Search, k: nat, v: int) -> bool {
    reach(g.tiles, g.filter, g.start, k, v)
}

/// Only the start seen and queued.
pub open spec fn init_state(g: Search) -> BfsState {
    BfsState {
        queue: seq![g.start as usize],
        head: 0,
        visited: Seq::new(N as nat, |i: int| i == g.start),
        parent: Seq::new(N as nat, |i: int| -1i16),
        found: false,
        depth: Seq::new(N as nat, |i: int| 0int),
        pos: Seq::new(N as nat, |i: int| 0int),
    }
}

/// `st` with `ni` marked seen, given parent `cur`, and queued.
pub open spec fn pushed(st: BfsState, cur: int, ni: int) -> BfsState {
    BfsState {
        queue: st.queue.push(ni as usize),
        visited: st.visited.update(ni, true),
        parent: st.parent.update(ni, cur as i16),
        depth: st.depth.update(ni, st.depth[cur] + 1),
        pos: st.pos.update(ni, st.queue.len() as int),
        ..st
    }
}

/// Tries the neighbour of `cur` in direction `d`: an unseen, enterable tile
/// is marked seen, given `cur` as its parent, and queued.
pub open spec fn expand_one(g: Search, st: BfsState, cur: int, d: (i32, i32)) -> BfsState {
    match moved(cur, d.0 as int, d.1 as int) {
        Some(ni) => if st.visited[ni] || !ok(g, ni) {
            st
        } else {
            pushed(st, cur, ni)
        },
        None => st,
    }
}

/// Tries the first `j` directions around `cur`, in the search's order.
pub open spec fn expand_upto(g: Search, st: BfsState, cur: int, j: nat) -> BfsState
    decreases j,
{
    if j == 0 {
        st
    } else {
        expand_one(g, expand_upto(g, st, cur, (j - 1) as nat), cur, g.dirs[j - 1])
    }
}

pub open spec fn finished(st: BfsState) -> bool {
    st.found || st.head >= st.queue.len()
}

/// Takes the next tile off the queue; stops there if it is the stop tile,
/// else tries its four neighbours.
pub open spec fn bfs_step(g: Search, st: BfsState) -> BfsState {
    if finished(st) {
        st
    } else {
        let cur = st.queue[st.head] as int;
        let st1 = BfsState { head: st.head + 1, ..st };
        if g.stop == Some(cur) {
            BfsState { found: true, ..st1 }
        } else {
            expand_upto(g, st1, cur, 4)
        }
    }
}

pub open spec fn run(g: Search, st: BfsState, fuel: nat) -> BfsState
    decreases fuel,
{
    if fuel == 0 || finished(st) {
        st
    } else {
        run(g, bfs_step(g, st), (fuel - 1) as nat)
    }
}

/// The state in which the search of `g` ends.
#[verifier::opaque]
pub open spec fn bfs_result(g: Search) -> BfsState {
    run(g, init_state(g), (N + 1) as nat)
}

/// The first tile reached when following parents back from `v` whose
/// parent is `start`; `None` if the chain breaks first.
pub open spec fn first_step(st: BfsState, start: int, v: int, fuel: nat) -> Option<int>
    decreases fuel,
{
    if fuel == 0 {
        None
    } else {
        let p = st.parent[v] as int;
        if p < 0 {
            None
        } else if p == start {
            Some(v)
        } else {
            first_step(st, start, p, (fuel - 1) as nat)
        }
    }
}

// ---------------------------------------------------------------------
// Invariants

pub open spec fn expanded(st: BfsState) -> int {
    if st.found { st.head - 1 } else { st.head }
}

pub open spec fn inv_shape(st: BfsState) -> bool {
    &&& st.visited.len() == N
    &&& st.parent.len() == N
    &&& st.depth.len() == N
    &&& st.pos.len() == N
    &&& 1 <= st.queue.len()
    &&& 0 <= st.head <= st.queue.len()
    &&& (st.head == 0 ==> st.queue.len() == 1)
    &&& (st.found ==> st.head >= 1)
}

/// The queue lists each seen tile once, at its recorded position, no
/// deeper than that position; it starts with the start.
#[verifier::opaque]
pub open spec fn inv_queue(g: Search, st: BfsState) -> bool {
    &&& forall|i: int| #![trigger st.queue[i]] 0 <= i < st.queue.len() ==> {
        &&& st.queue[i] < N
        &&& st.visited[st.queue[i] as int]
        &&& st.pos[st.queue[i] as int] == i
        &&& 0 <= st.depth[st.queue[i] as int] <= i
    }
    &&& forall|v: int| #![trigger st.visited[v]] 0 <= v < N && st.visited[v] ==> {
        &&& 0 <= st.pos[v] < st.queue.len()
        &&& st.queue[st.pos[v]] == v
    }
    &&& st.queue[0] == g.start
    &&& st.depth[g.start] == 0
}

/// Each seen tile but the start is enterable and has a seen neighbour one
/// level up as its parent; unseen tiles have none; the depth of every seen
/// tile is the length of a way to it from the start.
#[verifier::opaque]
pub open spec fn inv_tree(g: Search, st: BfsState) -> bool {
    &&& st.parent[g.start] == -1
    &&& forall|v: int| #![trigger st.visited[v]] #![trigger st.parent[v]]
        0 <= v < N && v != g.start ==> {
            if st.visited[v] {
                &&& ok(g, v)
                &&& 0 <= st.parent[v] < N
                &&& st.visited[st.parent[v] as int]
                &&& adj(st.parent[v] as int, v)
                &&& st.depth[v] == st.depth[st.parent[v] as int] + 1
            } else {
                st.parent[v] == -1
            }
        }
    &&& forall|v: int| #![trigger st.visited[v]]
        0 <= v < N && st.visited[v] ==> st.depth[v] >= 0 && greach(g, st.depth[v] as nat, v)
}

/// Depths never decrease along the queue.
#[verifier::opaque]
pub open spec fn inv_order(st: BfsState) -> bool {
    forall|i: int, j: int| #![trigger st.queue[i], st.queue[j]]
        0 <= i <= j < st.queue.len() ==> st.depth[st.queue[i] as int] <= st.depth[st.queue[j] as int]
}

/// The search has stopped exactly when the stop tile was last taken off the queue.
#[verifier::opaque]
pub open spec fn inv_stop(g: Search, st: BfsState) -> bool {
    &&& st.found ==> g.stop == Some(st.queue[st.head - 1] as int)
    &&& !st.found ==> forall|i: int| #![trigger st.queue[i]] 0 <= i < st.head ==> g.stop != Some(st.queue[i] as int)
}

pub open spec fn inv_core(g: Search, st: BfsState) -> bool {
    &&& inv_shape(st)
    &&& inv_queue(g, st)
    &&& inv_tree(g, st)
    &&& inv_order(st)
    &&& inv_stop(g, st)
}

/// Every tile whose queue position is below `n` has had all its enterable
/// neighbours seen, at most one level deeper.
#[verifier::opaque]
pub open spec fn closed_below(g: Search, st: BfsState, n: int) -> bool {
    forall|u: int, w: int| #![trigger st.visited[u], adj(u, w)]
        0 <= u < N && st.visited[u] && st.pos[u] < n && adj(u, w) && ok(g, w) ==> {
            &&& st.visited[w]
            &&& st.depth[w] <= st.depth[u] + 1
        }
}

/// No queued tile is more than one level deeper than `c`.
#[verifier::opaque]
pub open spec fn spread(st: BfsState, c: int) -> bool {
    forall|i: int| #![trigger st.queue[i]] 0 <= i < st.queue.len() ==> st.depth[st.queue[i] as int] <= c + 1
}

pub open spec fn inv(g: Search, st: BfsState) -> bool {
    &&& inv_core(g, st)
    &&& closed_below(g, st, expanded(st))
    &&& (st.head > 0 ==> spread(st, st.depth[st.queue[st.head - 1] as int]))
}

pub open spec fn dir_ok(g: Search, st: BfsState, cur: int, d: (i32, i32)) -> bool {
    match moved(cur, d.0 as int, d.1 as int) {
        Some(w) => ok(g, w) ==> st.visited[w] && st.depth[w] <= st.depth[cur] + 1,
        None => true,
    }
}

/// The first `j` directions around `cur` have been tried.
#[verifier::opaque]
pub open spec fn dirs_done(g: Search, st: BfsState, cur: int, j: int) -> bool {
    forall|m: int| #![trigger g.dirs[m]] 0 <= m < j ==> dir_ok(g, st, cur, g.dirs[m])
}

/// The state while the neighbours of `cur` are being tried, `j` of them done.
pub open spec fn mid(g: Search, st: BfsState, cur: int, j: int) -> bool {
    &&& inv_core(g, st)
    &&& st.head >= 1
    &&& !st.found
    &&& cur == st.queue[st.head - 1] as int
    &&& closed_below(g, st, st.head - 1)
    &&& spread(st, st.depth[cur])
    &&& dirs_done(g, st, cur, j)
}

// ---------------------------------------------------------------------
// Proofs

proof fn lemma_unit_adj(cur: int, d: (i32, i32), w: int)
    requires
        0 <= cur < N,
        is_unit(d),
        moved(cur, d.0 as int, d.1 as int) == Some(w),
    ensures
        adj(cur, w),
{
}

/// What the queue invariant says of one queued tile.
pub proof fn lemma_queued(g: Search, st: BfsState, i: int)
    requires
        inv_core(g, st),
        0 <= i < st.queue.len(),
    ensures
        st.queue[i] < N,
        st.visited[st.queue[i] as int],
        st.pos[st.queue[i] as int] == i,
        0 <= st.depth[st.queue[i] as int] <= i,
{
    reveal(inv_queue);
}

/// What the queue invariant says of one seen tile.
pub proof fn lemma_seen(g: Search, st: BfsState, v: int)
    requires
        inv_core(g, st),
        0 <= v < N,
        st.visited[v],
    ensures
        0 <= st.pos[v] < st.queue.len(),
        st.queue[st.pos[v]] == v,
{
    reveal(inv_queue);
}

/// The queue never holds more than every tile once.
pub proof fn lemma_queue_len(g: Search, st: BfsState)
    requires
        inv_core(g, st),
    ensures
        st.queue.len() <= N,
{
    reveal(inv_queue);
    let q = st.queue;
    let s = Seq::new(q.len(), |i: int| q[i] as int);
    assert forall|i: int, j: int| 0 <= i < s.len() && 0 <= j < s.len() && i != j implies s[i] != s[j] by {
        assert(st.pos[q[i] as int] == i);
        assert(st.pos[q[j] as int] == j);
    }
    s.unique_seq_to_set();
    vstd::set_lib::lemma_int_range(0, N as int);
    assert forall|x: int| s.to_set().contains(x) implies vstd::set_lib::set_int_range(0, N as int).contains(x) by {
        let i = choose|i: int| 0 <= i < s.len() && s[i] == x;
        assert(q[i] < N);
    }
    vstd::set_lib::lemma_len_subset(s.to_set(), vstd::set_lib::set_int_range(0, N as int));
}

proof fn lemma_init(g: Search)
    requires
        search_wf(g),
    ensures
        inv(g, init_state(g)),
{
    let st = init_state(g);
    reveal(inv_queue);
    reveal(inv_tree);
    reveal(inv_order);
    reveal(inv_stop);
    reveal(closed_below);
    reveal(spread);
    assert(st.queue[0] == g.start);
    assert forall|v: int| 0 <= v < N && st.visited[v] implies st.depth[v] >= 0 && greach(g, st.depth[v] as nat, v) by {
        assert(v == g.start);
    }
    assert forall|v: int| #![trigger st.visited[v]] 0 <= v < N && st.visited[v] implies
        0 <= st.pos[v] < st.queue.len() && st.queue[st.pos[v]] == v by {
        assert(v == g.start);
    }
}

/// Basic facts about the tile whose neighbours are being tried.
proof fn lemma_cur(g: Search, st: BfsState, cur: int, j: int)
    requires
        search_wf(g),
        mid(g, st, cur, j),
    ensures
        0 <= cur < N,
        st.visited[cur],
        st.pos[cur] == st.head - 1,
        0 <= st.depth[cur] <= st.head - 1,
        greach(g, st.depth[cur] as nat, cur),
        st.head - 1 < st.queue.len(),
{
    lemma_queued(g, st, st.head - 1);
    reveal(inv_tree);
}

/// The facts every part of the push proof starts from.
pub open spec fn push_pre(g: Search, st: BfsState, cur: int, m: int, ni: int) -> bool {
    &&& search_wf(g)
    &&& mid(g, st, cur, m)
    &&& 0 <= m < 4
    &&& moved(cur, g.dirs[m].0 as int, g.dirs[m].1 as int) == Some(ni)
    &&& !st.visited[ni]
    &&& ok(g, ni)
    &&& 0 <= cur < N
    &&& st.visited[cur]
    &&& st.pos[cur] == st.head - 1
    &&& 0 <= st.depth[cur] <= st.head - 1
    &&& greach(g, st.depth[cur] as nat, cur)
    &&& st.head - 1 < st.queue.len()
    &&& adj(cur, ni)
    &&& 0 <= ni < N
    &&& ni != cur
    &&& ni != g.start
}

proof fn lemma_push_queue(g: Search, st: BfsState, cur: int, m: int, ni: int)
    requires
        push_pre(g, st, cur, m, ni),
    ensures
        inv_queue(g, pushed(st, cur, ni)),
{
    reveal(inv_queue);
    let st2 = pushed(st, cur, ni);
    let len = st.queue.len() as int;
    assert forall|i: int| #![trigger st2.queue[i]] 0 <= i < st2.queue.len() implies {
        &&& st2.queue[i] < N
        &&& st2.visited[st2.queue[i] as int]
        &&& st2.pos[st2.queue[i] as int] == i
        &&& 0 <= st2.depth[st2.queue[i] as int] <= i
    } by {
        if i < len {
            assert(st2.queue[i] == st.queue[i]);
            assert(st.visited[st.queue[i] as int]);
        }
    }
    assert forall|v: int| #![trigger st2.visited[v]] 0 <= v < N && st2.visited[v] implies {
        &&& 0 <= st2.pos[v] < st2.queue.len()
        &&& st2.queue[st2.pos[v]] == v
    } by {
        if v != ni {
            assert(st.visited[v]);
        }
    }
    assert(st2.queue[0] == g.start);
}

proof fn lemma_push_tree(g: Search, st: BfsState, cur: int, m: int, ni: int)
    requires
        push_pre(g, st, cur, m, ni),
    ensures
        inv_tree(g, pushed(st, cur, ni)),
{
    reveal(inv_tree);
    let st2 = pushed(st, cur, ni);
    lemma_reach_step(g.tiles, g.filter, g.start, st.depth[cur] as nat, cur, ni);
    assert forall|v: int| #![trigger st2.visited[v]] #![trigger st2.parent[v]]
        0 <= v < N && v != g.start implies {
            if st2.visited[v] {
                &&& ok(g, v)
                &&& 0 <= st2.parent[v] < N
                &&& st2.visited[st2.parent[v] as int]
                &&& adj(st2.parent[v] as int, v)
                &&& st2.depth[v] == st2.depth[st2.parent[v] as int] + 1
            } else {
                st2.parent[v] == -1
            }
        } by {
        if v != ni {
            assert(st.visited[v] == st2.visited[v]);
            if st.visited[v] {
                assert(st.parent[v] != ni);
            }
        }
    }
    assert forall|v: int| #![trigger st2.visited[v]]
        0 <= v < N && st2.visited[v] implies st2.depth[v] >= 0 && greach(g, st2.depth[v] as nat, v) by {
        if v != ni {
            assert(st.visited[v]);
        }
    }
}

proof fn lemma_push_order(g: Search, st: BfsState, cur: int, m: int, ni: int)
    requires
        push_pre(g, st, cur, m, ni),
    ensures
        inv_order(pushed(st, cur, ni)),
        spread(pushed(st, cur, ni), st.depth[cur]),
{
    reveal(inv_order);
    reveal(spread);
    reveal(inv_queue);
    let st2 = pushed(st, cur, ni);
    let len = st.queue.len() as int;
    assert forall|i: int, j: int| #![trigger st2.queue[i], st2.queue[j]]
        0 <= i <= j < st2.queue.len() implies
        st2.depth[st2.queue[i] as int] <= st2.depth[st2.queue[j] as int] by {
        if j < len {
            assert(st.queue[i] == st2.queue[i]);
            assert(st.queue[j] == st2.queue[j]);
            assert(st.visited[st.queue[i] as int]);
            assert(st.visited[st.queue[j] as int]);
        } else if i < len {
            assert(st.queue[i] == st2.queue[i]);
            assert(st.visited[st.queue[i] as int]);
        }
    }
    assert forall|i: int| #![trigger st2.queue[i]] 0 <= i < st2.queue.len() implies
        st2.depth[st2.queue[i] as int] <= st2.depth[cur] + 1 by {
        if i < len {
            assert(st.queue[i] == st2.queue[i]);
            assert(st.visited[st.queue[i] as int]);
        }
    }
}

proof fn lemma_push_rest(g: Search, st: BfsState, cur: int, m: int, ni: int)
    requires
        push_pre(g, st, cur, m, ni),
    ensures
        inv_stop(g, pushed(st, cur, ni)),
        closed_below(g, pushed(st, cur, ni), st.head - 1),
        dirs_done(g, pushed(st, cur, ni), cur, m + 1),
{
    reveal(inv_stop);
    reveal(closed_below);
    reveal(dirs_done);
    let st2 = pushed(st, cur, ni);
    assert forall|i: int| #![trigger st2.queue[i]] 0 <= i < st2.head implies g.stop != Some(st2.queue[i] as int) by {
        assert(st.queue[i] == st2.queue[i]);
    }
    assert forall|u: int, w: int| #![trigger st2.visited[u], adj(u, w)]
        0 <= u < N && st2.visited[u] && st2.pos[u] < st2.head - 1 && adj(u, w) && ok(g, w) implies {
            &&& st2.visited[w]
            &&& st2.depth[w] <= st2.depth[u] + 1
        } by {
        if u != ni {
            assert(st.visited[u]);
            assert(st.visited[w]);
        }
    }
    assert forall|k: int| #![trigger g.dirs[k]] 0 <= k < m + 1 implies dir_ok(g, st2, cur, g.dirs[k]) by {
        if k < m {
            assert(dir_ok(g, st, cur, g.dirs[k]));
            if let Some(w) = moved(cur, g.dirs[k].0 as int, g.dirs[k].1 as int) {
                if ok(g, w) {
                    assert(st.visited[w]);
                }
            }
        }
    }
}

proof fn lemma_expand_one(g: Search, st: BfsState, cur: int, m: int)
    requires
        search_wf(g),
        mid(g, st, cur, m),
        0 <= m < 4,
    ensures
        mid(g, expand_one(g, st, cur, g.dirs[m]), cur, m + 1),
        expand_one(g, st, cur, g.dirs[m]).head == st.head,
        expand_one(g, st, cur, g.dirs[m]).queue.len() >= st.queue.len(),
        forall|i: int| 0 <= i < st.queue.len() ==> #[trigger] expand_one(g, st, cur, g.dirs[m]).queue[i] == st.queue[i],
{
    let d = g.dirs[m];
    let st2 = expand_one(g, st, cur, d);
    assert(is_unit(d));
    lemma_cur(g, st, cur, m);
    match moved(cur, d.0 as int, d.1 as int) {
        None => {
            reveal(dirs_done);
        },
        Some(ni) => {
            lemma_unit_adj(cur, d, ni);
            lemma_adj_sym(cur, ni);
            if st.visited[ni] || !ok(g, ni) {
                reveal(dirs_done);
                if ok(g, ni) {
                    lemma_seen(g, st, ni);
                    reveal(spread);
                    let p = st.pos[ni];
                    assert(st.queue[p] == ni);
                }
            } else {
                reveal(inv_queue);
                assert(ni != g.start);
                lemma_push_queue(g, st, cur, m, ni);
                lemma_push_tree(g, st, cur, m, ni);
                lemma_push_order(g, st, cur, m, ni);
                lemma_push_rest(g, st, cur, m, ni);
                assert(st2.queue[st2.head - 1] == cur);
            }
        },
    }
}

proof fn lemma_expand_upto(g: Search, st: BfsState, cur: int, j: nat)
    requires
        search_wf(g),
        mid(g, st, cur, 0),
        j <= 4,
    ensures
        mid(g, expand_upto(g, st, cur, j), cur, j as int),
        expand_upto(g, st, cur, j).head == st.head,
        expand_upto(g, st, cur, j).queue.len() >= st.queue.len(),
        forall|i: int| 0 <= i < st.queue.len() ==> #[trigger] expand_upto(g, st, cur, j).queue[i] == st.queue[i],
    decreases j,
{
    if j > 0 {
        let prev = expand_upto(g, st, cur, (j - 1) as nat);
        lemma_expand_upto(g, st, cur, (j - 1) as nat);
        lemma_expand_one(g, prev, cur, j - 1);
    }
}

/// Taking the next tile off the queue of an unfinished search.
pub open spec fn dequeued(st: BfsState) -> BfsState {
    BfsState { head: st.head + 1, ..st }
}

proof fn lemma_dequeue(g: Search, st: BfsState)
    requires
        search_wf(g),
        inv(g, st),
        !finished(st),
    ensures
        g.stop != Some(st.queue[st.head] as int) ==> mid(g, dequeued(st), st.queue[st.head] as int, 0),
        g.stop == Some(st.queue[st.head] as int) ==> inv(g, BfsState { found: true, ..dequeued(st) }),
        st.queue[st.head] < N,
{
    let cur = st.queue[st.head] as int;
    let st1 = dequeued(st);
    lemma_queued(g, st, st.head);
    reveal(spread);
    reveal(inv_order);
    reveal(inv_stop);
    reveal(closed_below);
    reveal(dirs_done);
    reveal(inv_queue);
    if st.head > 0 {
        assert forall|i: int| #![trigger st.queue[i]] 0 <= i < st.queue.len() implies
            st.depth[st.queue[i] as int] <= st.depth[cur] + 1 by {
            assert(st.depth[st.queue[i] as int] <= st.depth[st.queue[st.head - 1] as int] + 1);
            assert(st.depth[st.queue[st.head - 1] as int] <= st.depth[st.queue[st.head] as int]);
        }
    }
    assert(spread(st1, st1.depth[cur]));
    assert(closed_below(g, st1, st.head));
    assert(inv_queue(g, st1));
    assert(inv_tree(g, st1)) by { reveal(inv_tree); }
    assert(inv_order(st1));
    if g.stop == Some(cur) {
        let st2 = BfsState { found: true, ..st1 };
        assert(inv_queue(g, st2));
        assert(inv_tree(g, st2)) by { reveal(inv_tree); }
        assert(inv_order(st2));
        assert(inv_stop(g, st2));
        assert(inv_shape(st2));
        assert(closed_below(g, st2, expanded(st2)));
        assert(spread(st2, st2.depth[st2.queue[st2.head - 1] as int]));
    } else {
        assert forall|i: int| #![trigger st1.queue[i]] 0 <= i < st1.head implies g.stop != Some(st1.queue[i] as int) by {
            if i < st.head {
            }
        }
        assert(inv_stop(g, st1));
        assert(dirs_done(g, st1, cur, 0));
    }
}

/// Once all four directions around `cur` are tried, `cur` is expanded.
proof fn lemma_close_cur(g: Search, st: BfsState, cur: int)
    requires
        search_wf(g),
        mid(g, st, cur, 4),
    ensures
        closed_below(g, st, st.head),
{
    reveal(closed_below);
    reveal(dirs_done);
    reveal(inv_queue);
    assert forall|u: int, w: int| #![trigger st.visited[u], adj(u, w)]
        0 <= u < N && st.visited[u] && st.pos[u] < st.head && adj(u, w) && ok(g, w) implies {
            &&& st.visited[w]
            &&& st.depth[w] <= st.depth[u] + 1
        } by {
        if st.pos[u] < st.head - 1 {
        } else {
            assert(st.queue[st.pos[u]] == u);
            assert(u == cur);
            let k = if moved(u, 1, 0) == Some(w) {
                choose|k: int| 0 <= k < 4 && g.dirs[k] == (1i32, 0i32)
            } else if moved(u, -1, 0) == Some(w) {
                choose|k: int| 0 <= k < 4 && g.dirs[k] == (-1i32, 0i32)
            } else if moved(u, 0, 1) == Some(w) {
                choose|k: int| 0 <= k < 4 && g.dirs[k] == (0i32, 1i32)
            } else {
                choose|k: int| 0 <= k < 4 && g.dirs[k] == (0i32, -1i32)
            };
            assert(dir_ok(g, st, cur, g.dirs[k]));
        }
    }
}

proof fn lemma_step(g: Search, st: BfsState)
    requires
        search_wf(g),
        inv(g, st),
        !finished(st),
    ensures
        inv(g, bfs_step(g, st)),
        bfs_step(g, st).head == st.head + 1,
{
    let cur = st.queue[st.head] as int;
    lemma_dequeue(g, st);
    if g.stop != Some(cur) {
        let st1 = dequeued(st);
        lemma_expand_upto(g, st1, cur, 4);
        let st2 = expand_upto(g, st1, cur, 4);
        lemma_close_cur(g, st2, cur);
    }
}

proof fn lemma_run(g: Search, st: BfsState, fuel: nat)
    requires
        search_wf(g),
        inv(g, st),
    ensures
        inv(g, run(g, st, fuel)),
        fuel + st.head >= N + 1 ==> finished(run(g, st, fuel)),
    decreases fuel,
{
    lemma_queue_len(g, st);
    if fuel == 0 || finished(st) {
    } else {
        lemma_step(g, st);
        lemma_run(g, bfs_step(g, st), (fuel - 1) as nat);
    }
}

/// The finished search satisfies the invariants.
pub proof fn lemma_result_inv(g: Search)
    requires
        search_wf(g),
    ensures
        inv(g, bfs_result(g)),
        finished(bfs_result(g)),
        1 <= bfs_result(g).queue.len() <= N,
        bfs_result(g).queue[0] == g.start,
        g.stop == None::<int> ==> !bfs_result(g).found,
        !bfs_result(g).found ==> bfs_result(g).head == bfs_result(g).queue.len(),
{
    reveal(bfs_result);
    lemma_init(g);
    lemma_run(g, init_state(g), (N + 1) as nat);
    lemma_queue_len(g, bfs_result(g));
    reveal(inv_stop);
    reveal(inv_queue);
}

/// Anything within `k <= bnd` steps is seen, at depth at most `k`, provided
/// every seen tile shallower than `bnd` has been expanded.
proof fn lemma_complete(g: Search, st: BfsState, bnd: int, k: nat, v: int)
    requires
        search_wf(g),
        inv(g, st),
        forall|u: int| #![trigger st.visited[u]]
            0 <= u < N && st.visited[u] && st.depth[u] < bnd ==> st.pos[u] < expanded(st),
        k <= bnd,
        greach(g, k, v),
    ensures
        0 <= v < N,
        st.visited[v],
        st.depth[v] <= k,
    decreases k,
{
    reveal(inv_queue);
    if k == 0 {
        assert(st.queue[0] == g.start);
    } else {
        let j = (k - 1) as nat;
        if greach(g, j, v) {
            lemma_complete(g, st, bnd, j, v);
        } else {
            let u = if (moved(v, 1, 0) matches Some(u) && greach(g, j, u)) {
                moved(v, 1, 0)->0
            } else if (moved(v, -1, 0) matches Some(u) && greach(g, j, u)) {
                moved(v, -1, 0)->0
            } else if (moved(v, 0, 1) matches Some(u) && greach(g, j, u)) {
                moved(v, 0, 1)->0
            } else {
                moved(v, 0, -1)->0
            };
            assert(adj(v, u));
            lemma_adj_sym(v, u);
            lemma_complete(g, st, bnd, j, u);
            assert(st.visited[u]);
            reveal(closed_below);
        }
    }
}

/// In the finished search every seen tile's depth is its distance from the start.
pub proof fn lemma_result_depths(g: Search, v: int)
    requires
        search_wf(g),
        0 <= v < N,
        bfs_result(g).visited[v],
    ensures
        shortest(g.tiles, g.filter, g.start, bfs_result(g).depth[v] as nat, v),
        bfs_result(g).depth[v] >= 0,
{
    let st = bfs_result(g);
    lemma_result_inv(g);
    reveal(inv_tree);
    reveal(inv_queue);
    let dv = st.depth[v];
    assert(greach(g, dv as nat, v));
    assert forall|j: nat| j < dv implies !#[trigger] reach(g.tiles, g.filter, g.start, j, v) by {
        if reach(g.tiles, g.filter, g.start, j, v) {
            if st.found {
                let t = st.queue[st.head - 1] as int;
                let bnd = st.depth[t];
                reveal(inv_order);
                reveal(spread);
                assert forall|u: int| #![trigger st.visited[u]]
                    0 <= u < N && st.visited[u] && st.depth[u] < bnd implies st.pos[u] < expanded(st) by {
                    let p = st.pos[u];
                    assert(st.queue[p] == u);
                    if p >= st.head - 1 {
                        assert(st.depth[st.queue[st.head - 1] as int] <= st.depth[st.queue[p] as int]);
                    }
                }
                let p = st.pos[v];
                assert(st.queue[p] == v);
                assert(st.depth[st.queue[p] as int] <= bnd + 1);
                lemma_complete(g, st, bnd, j, v);
            } else {
                assert forall|u: int| #![trigger st.visited[u]]
                    0 <= u < N && st.visited[u] && st.depth[u] < j implies st.pos[u] < expanded(st) by {
                }
                lemma_complete(g, st, j as int, j, v);
            }
        }
    }
}

/// When the search ran out of queue, it has seen exactly the reachable tiles.
pub proof fn lemma_result_reachable(g: Search, v: int)
    requires
        search_wf(g),
        !bfs_result(g).found,
    ensures
        reachable(g.tiles, g.filter, g.start, v) <==> (0 <= v < N && bfs_result(g).visited[v]),
{
    let st = bfs_result(g);
    lemma_result_inv(g);
    reveal(inv_queue);
    if reachable(g.tiles, g.filter, g.start, v) {
        let k = choose|k: nat| #[trigger] reach(g.tiles, g.filter, g.start, k, v);
        assert forall|u: int| #![trigger st.visited[u]]
            0 <= u < N && st.visited[u] && st.depth[u] < k implies st.pos[u] < expanded(st) by {
        }
        lemma_complete(g, st, k as int, k, v);
    }
    if 0 <= v < N && st.visited[v] {
        reveal(inv_tree);
        assert(greach(g, st.depth[v] as nat, v));
    }
}

/// The search stops at its stop tile exactly when that tile is reachable.
pub proof fn lemma_result_found(g: Search, t: int)
    requires
        search_wf(g),
        g.stop == Some(t),
    ensures
        bfs_result(g).found <==> reachable(g.tiles, g.filter, g.start, t),
        bfs_result(g).found ==> bfs_result(g).visited[t] && 0 <= t < N,
{
    let st = bfs_result(g);
    lemma_result_inv(g);
    reveal(inv_stop);
    reveal(inv_queue);
    reveal(inv_tree);
    if st.found {
        let q = st.queue[st.head - 1] as int;
        assert(q == t);
        assert(st.visited[q]);
        assert(greach(g, st.depth[t] as nat, t));
    } else {
        lemma_result_reachable(g, t);
        if 0 <= t < N && st.visited[t] {
            let p = st.pos[t];
            assert(st.queue[p] == t);
        }
    }
}

/// The parent recorded for a seen tile other than the start is a neighbour
/// one step closer to the start.
pub proof fn lemma_result_parent(g: Search, v: int)
    requires
        search_wf(g),
        0 <= v < N,
        v != g.start,
        bfs_result(g).visited[v],
    ensures
        0 <= bfs_result(g).parent[v] < N,
        bfs_result(g).visited[bfs_result(g).parent[v] as int],
        adj(bfs_result(g).parent[v] as int, v),
        ok(g, v),
        bfs_result(g).depth[v] == bfs_result(g).depth[bfs_result(g).parent[v] as int] + 1,
        forall|k: nat| #[trigger] greach(g, k + 1, v) <==> greach(g, k, bfs_result(g).parent[v] as int),
{
    let st = bfs_result(g);
    lemma_result_inv(g);
    reveal(inv_tree);
    let p = st.parent[v] as int;
    lemma_result_depths(g, v);
    lemma_result_depths(g, p);
    assert forall|k: nat| #[trigger] greach(g, k + 1, v) <==> greach(g, k, p) by {
        lemma_shortest_iff(g.tiles, g.filter, g.start, st.depth[v] as nat, v, k + 1);
        lemma_shortest_iff(g.tiles, g.filter, g.start, st.depth[p] as nat, p, k);
    }
}

/// The start has no parent and unseen tiles have none either.
pub proof fn lemma_result_no_parent(g: Search, v: int)
    requires
        search_wf(g),
        0 <= v < N,
        v == g.start || !bfs_result(g).visited[v],
    ensures
        bfs_result(g).parent[v] == -1,
{
    lemma_result_inv(g);
    reveal(inv_tree);
}

/// What the invariants say of one entry of the finished queue.
pub proof fn lemma_result_queue(g: Search, i: int)
    requires
        search_wf(g),
        0 <= i < bfs_result(g).queue.len(),
    ensures
        bfs_result(g).queue[i] < N,
        bfs_result(g).visited[bfs_result(g).queue[i] as int],
        bfs_result(g).pos[bfs_result(g).queue[i] as int] == i,
        bfs_result(g).queue.len() <= N,
        bfs_result(g).queue[0] == g.start,
        bfs_result(g).visited.len() == N,
        bfs_result(g).parent.len() == N,
{
    lemma_result_inv(g);
    lemma_queued(g, bfs_result(g), i);
    lemma_queue_len(g, bfs_result(g));
    reveal(inv_queue);
}

/// What the invariants say of one seen tile of the finished search.
pub proof fn lemma_result_seen(g: Search, v: int)
    requires
        search_wf(g),
        0 <= v < N,
        bfs_result(g).visited[v],
    ensures
        0 <= bfs_result(g).pos[v] < bfs_result(g).queue.len(),
        bfs_result(g).queue[bfs_result(g).pos[v]] == v,
        0 <= bfs_result(g).depth[v] < N,
{
    lemma_result_inv(g);
    lemma_seen(g, bfs_result(g), v);
    lemma_queued(g, bfs_result(g), bfs_result(g).pos[v]);
    lemma_queue_len(g, bfs_result(g));
}

/// Later entries of the finished queue are no nearer the start.
pub proof fn lemma_result_order(g: Search, i: int, j: int)
    requires
        search_wf(g),
        0 <= i <= j < bfs_result(g).queue.len(),
    ensures
        bfs_result(g).depth[bfs_result(g).queue[i] as int] <= bfs_result(g).depth[bfs_result(g).queue[j] as int],
{
    lemma_result_inv(g);
    reveal(inv_order);
}

proof fn lemma_walk(g: Search, st: BfsState, v: int, t: int, fuel: nat)
    requires
        search_wf(g),
        inv(g, st),
        0 <= v < N,
        v != g.start,
        st.visited[v],
        st.depth[v] <= fuel,
        reach(g.tiles, g.filter, v, (st.depth[t] - st.depth[v]) as nat, t),
        st.depth[t] >= st.depth[v],
    ensures
        first_step(st, g.start, v, fuel) matches Some(n) && {
            &&& adj(g.start, n)
            &&& ok(g, n)
            &&& st.depth[n] == 1
            &&& reach(g.tiles, g.filter, n, (st.depth[t] - 1) as nat, t)
        },
    decreases fuel,
{
    reveal(inv_tree);
    reveal(inv_queue);
    let p = st.parent[v] as int;
    assert(st.visited[v]);
    if p == g.start {
    } else {
        assert(st.visited[p]);
        lemma_reach_prepend(g.tiles, g.filter, p, v, (st.depth[t] - st.depth[v]) as nat, t);
        assert(st.depth[p] >= 1) by {
            assert(p != g.start);
            assert(st.visited[p]);
        }
        lemma_walk(g, st, p, t, (fuel - 1) as nat);
    }
}

/// Following parents back from a seen tile `t` reaches, one step from the
/// start, a neighbour of the start from which `t` is one step nearer.
pub proof fn lemma_first_step(g: Search, t: int)
    requires
        search_wf(g),
        0 <= t < N,
        t != g.start,
        bfs_result(g).visited[t],
    ensures
        first_step(bfs_result(g), g.start, t, N as nat) matches Some(n) && {
            &&& adj(g.start, n)
            &&& ok(g, n)
            &&& forall|k: nat| #[trigger] reach(g.tiles, g.filter, n, k, t) == greach(g, k + 1, t)
        },
{
    let st = bfs_result(g);
    lemma_result_inv(g);
    lemma_result_depths(g, t);
    reveal(inv_queue);
    let dt = st.depth[t];
    let p = st.pos[t];
    assert(st.queue[p] == t);
    assert(dt <= p);
    lemma_queue_len(g, st);
    lemma_walk(g, st, t, t, N as nat);
    let n = first_step(st, g.start, t, N as nat)->0;
    assert forall|k: nat| #[trigger] reach(g.tiles, g.filter, n, k, t) == greach(g, k + 1, t) by {
        if reach(g.tiles, g.filter, n, k, t) {
            lemma_reach_prepend(g.tiles, g.filter, g.start, n, k, t);
        }
        if greach(g, k + 1, t) {
            lemma_shortest_iff(g.tiles, g.filter, g.start, dt as nat, t, k + 1);
            lemma_reach_mono(g.tiles, g.filter, n, (dt - 1) as nat, k, t);
        }
    }
}

// ---------------------------------------------------------------------
// Execution

pub open spec fn as_search(tiles: Seq<u8>, start: usize, filter: Filter, dirs: Seq<(i32, i32)>, stop: Option<usize>) -> Search {
    Search {
        tiles,
        start: start as int,
        filter,
        dirs,
        stop: match stop {
            Some(t) => Some(t as int),
            None => None,
        },
    }
}

pub open spec fn snapshot(
    queue: Seq<usize>,
    head: usize,
    visited: Seq<bool>,
    parent: Seq<i16>,
    found: bool,
    depth: Seq<int>,
    pos: Seq<int>,
) -> BfsState {
    BfsState { queue, head: head as int, visited, parent, found, depth, pos }
}

/// Runs the breadth-first search of the grid from `start`, entering only
/// tiles that pass `filter`, trying directions in the order `dirs`, and
/// stopping early when `stop` is taken off the queue. Returns the queue
/// (the tiles seen, in the order seen), each tile's parent (`-1` if none),
/// and whether the stop tile was reached.
pub fn bfs(tiles: &Vec<u8>, start: usize, filter: Filter, dirs: &Vec<(i32, i32)>, stop: Option<usize>) -> (res: (Vec<usize>, Vec<i16>, bool))
    requires
        search_wf(as_search(tiles@, start, filter, dirs@, stop)),
    ensures
        res.0@ == bfs_result(as_search(tiles@, start, filter, dirs@, stop)).queue,
        res.1@ == bfs_result(as_search(tiles@, start, filter, dirs@, stop)).parent,
        res.2 == bfs_result(as_search(tiles@, start, filter, dirs@, stop)).found,
{
    let ghost g = as_search(tiles@, start, filter, dirs@, stop);
    proof { reveal(bfs_result); }
    let mut queue: Vec<usize> = Vec::new();
    queue.push(start);
    let mut visited: Vec<bool> = Vec::new();
    let mut parent: Vec<i16> = Vec::new();
    let mut i: usize = 0;
    while i < N
        invariant
            i <= N,
            visited@ =~= Seq::new(i as nat, |k: int| k == start),
            parent@ =~= Seq::new(i as nat, |k: int| -1i16),
        decreases N - i,
    {
        visited.push(i == start);
        parent.push(-1);
        i += 1;
    }
    let mut head: usize = 0;
    let mut found = false;
    let ghost mut depth: Seq<int> = Seq::new(N as nat, |k: int| 0int);
    let ghost mut pos: Seq<int> = Seq::new(N as nat, |k: int| 0int);
    proof {
        assert(snapshot(queue@, head, visited@, parent@, found, depth, pos) =~= init_state(g));
        lemma_init(g);
    }
    while !found && head < queue.len()
        invariant
            search_wf(g),
            g == as_search(tiles@, start, filter, dirs@, stop),
            inv(g, snapshot(queue@, head, visited@, parent@, found, depth, pos)),
            run(g, snapshot(queue@, head, visited@, parent@, found, depth, pos), (N + 1 - head) as nat) == bfs_result(g),
            head <= N,
        decreases N - head,
    {
        let ghost st0 = snapshot(queue@, head, visited@, parent@, found, depth, pos);
        proof {
            lemma_queue_len(g, st0);
            lemma_step(g, st0);
            lemma_dequeue(g, st0);
        }
        let cur = queue[head];
        head += 1;
        let is_stop = match stop {
            Some(t) => t == cur,
            None => false,
        };
        if is_stop {
            found = true;
            proof {
                assert(snapshot(queue@, head, visited@, parent@, found, depth, pos) =~= bfs_step(g, st0));
            }
        } else {
            let ghost st1 = snapshot(queue@, head, visited@, parent@, found, depth, pos);
            assert(st1 =~= dequeued(st0));
            let cx = idx_to_x(cur);
            let cy = idx_to_y(cur);
            proof {
                lemma_split(cur as int);
            }
            let mut j: usize = 0;
            while j < 4
                invariant
                    search_wf(g),
                    g == as_search(tiles@, start, filter, dirs@, stop),
                    mid(g, st1, cur as int, 0),
                    j <= 4,
                    snapshot(queue@, head, visited@, parent@, found, depth, pos) == expand_upto(g, st1, cur as int, j as nat),
                    cur < N,
                    cx == cur % W,
                    cy == cur / W,
                    cx < W,
                    cy < H,
                decreases 4 - j,
            {
                proof {
                    lemma_expand_upto(g, st1, cur as int, j as nat);
                }
                let ghost before = snapshot(queue@, head, visited@, parent@, found, depth, pos);
                let (dx, dy) = dirs[j];
                assert(is_unit(dirs@[j as int]));
                let nx = cx as i32 + dx;
                let ny = cy as i32 + dy;
                if nx >= 0 && ny >= 0 && nx < W as i32 && ny < H as i32 {
                    let ni = xy_to_idx(nx as usize, ny as usize);
                    assert(moved(cur as int, dx as int, dy as int) == Some(ni as int));
                    if !visited[ni] && passes(tiles, filter, ni) {
                        visited.set(ni, true);
                        parent.set(ni, cur as i16);
                        let ghost old_len = queue@.len();
                        queue.push(ni);
                        proof {
                            depth = depth.update(ni as int, depth[cur as int] + 1);
                            pos = pos.update(ni as int, old_len as int);
                            assert(snapshot(queue@, head, visited@, parent@, found, depth, pos) =~= pushed(before, cur as int, ni as int));
                        }
                    }
                } else {
                    assert(moved(cur as int, dx as int, dy as int) == None::<int>);
                }
                j += 1;
                proof {
                    assert(snapshot(queue@, head, visited@, parent@, found, depth, pos) == expand_one(g, before, cur as int, g.dirs[j - 1]));
                }
            }
        }
    }
    proof {
        lemma_queue_len(g, snapshot(queue@, head, visited@, parent@, found, depth, pos));
    }
    (queue, parent, found)
}

} // verus!
