//! What happens to guests as time passes: spawning at the entrance, walking
//! to the boarding tile, riding out along the track and back, and walking
//! back out to leave.

use vstd::prelude::*;
use crate::grid::{passable, reach, reachable, lemma_reach_mono, lemma_reach_prepend, Filter, ENTRANCE_IDX, N};
use crate::paths::{
    step_spec, ride_target_spec, step_toward, step_along_track, pick_ride_target,
    lemma_step_spec, lemma_ride_target, lemma_boarding_range,
};
use crate::rng::{xorshift, xorshift_next};
use crate::grid::walkable;
use crate::world::{
    Guest, World, WorldView, world_wf, park_wf, guest_wf, GUEST_STEP_MS, RIDE_STEP_MS, MAX_RIDE_TILES,
    MAX_GUESTS, RIDE_FEE, STATE_FREE, STATE_TO_RIDE, STATE_RIDING, STATE_TO_EXIT,
};

verus! {

/// A guest walking towards the boarding tile `target` with `timer` time to
/// spend: one step per interval; on the boarding tile it boards; with no
/// way there it gives up and heads for the exit.
pub open spec fn walk_to_ride(tiles: Seq<u8>, g: Guest, target: u16, timer: nat) -> Guest
    decreases timer,
{
    if timer < GUEST_STEP_MS {
        Guest { step_timer: timer as u32, ..g }
    } else if g.tile == target {
        Guest { state: STATE_RIDING, ride_origin: g.tile, ride_tiles_visited: 0, ride_phase: 0, step_timer: 0, ..g }
    } else {
        match step_spec(tiles, g.tile, target, Filter::Walkable, g.path_seed) {
            Some(n) => walk_to_ride(tiles, Guest { tile: n, ..g }, target, (timer - GUEST_STEP_MS) as nat),
            None => Guest { state: STATE_TO_EXIT, step_timer: 0, ..g },
        }
    }
}

/// The ride counter after one more track tile, stuck at its maximum.
pub open spec fn bumped(c: u8) -> u8 {
    if c + 1 > u8::MAX { u8::MAX } else { (c + 1) as u8 }
}

/// A riding guest with `timer` time to spend: one track tile per interval,
/// out towards `far` and, once there (or after enough tiles), back to
/// `boarding`; arriving back, or finding no way on, ends the ride. The
/// flag says whether the ride ended (and the fee is due).
pub open spec fn ride(tiles: Seq<u8>, g: Guest, far: u16, boarding: u16, timer: nat) -> (Guest, bool)
    decreases timer,
{
    if timer < RIDE_STEP_MS {
        (Guest { step_timer: timer as u32, ..g }, false)
    } else {
        let target = if g.ride_phase == 0 { far } else { boarding };
        match step_spec(tiles, g.tile, target, Filter::Track, g.path_seed) {
            Some(n) => {
                let visited = bumped(g.ride_tiles_visited);
                let phase1: u8 = if n == far && g.ride_phase == 0 { 1 } else { g.ride_phase };
                let phase2: u8 = if visited as u32 >= MAX_RIDE_TILES && phase1 == 0 { 1 } else { phase1 };
                let g2 = Guest { tile: n, ride_tiles_visited: visited, ride_phase: phase2, ..g };
                if n == boarding && phase2 == 1 {
                    (Guest { state: STATE_TO_EXIT, step_timer: 0, ..g2 }, true)
                } else {
                    ride(tiles, g2, far, boarding, (timer - RIDE_STEP_MS) as nat)
                }
            },
            None => (Guest { state: STATE_TO_EXIT, step_timer: 0, ..g }, true),
        }
    }
}

/// A guest walking back to the entrance with `timer` time to spend; at the
/// entrance, or with no way there, the guest leaves and the slot is freed.
pub open spec fn walk_out(tiles: Seq<u8>, g: Guest, timer: nat) -> Guest
    decreases timer,
{
    if timer < GUEST_STEP_MS {
        Guest { step_timer: timer as u32, ..g }
    } else if g.tile == ENTRANCE_IDX as u16 {
        Guest { state: STATE_FREE, ..g }
    } else {
        match step_spec(tiles, g.tile, ENTRANCE_IDX as u16, Filter::Walkable, g.path_seed) {
            Some(n) => walk_out(tiles, Guest { tile: n, ..g }, (timer - GUEST_STEP_MS) as nat),
            None => Guest { state: STATE_FREE, ..g },
        }
    }
}

/// The park after guest `gi` has spent `dt` milliseconds.
pub open spec fn guest_tick_spec(v: WorldView, gi: int, dt: u32) -> WorldView {
    let g = v.guests[gi];
    let t = (g.step_timer + dt) as nat;
    if g.state == STATE_TO_RIDE {
        if v.boarding_tile < 0 {
            WorldView { guests: v.guests.update(gi, Guest { state: STATE_TO_EXIT, ..g }), ..v }
        } else {
            WorldView { guests: v.guests.update(gi, walk_to_ride(v.tiles, g, v.boarding_tile as u16, t)), ..v }
        }
    } else if g.state == STATE_RIDING {
        let far = ride_target_spec(v.tiles, g.ride_origin);
        let (g2, paid) = ride(v.tiles, g, far, g.ride_origin, t);
        WorldView {
            guests: v.guests.update(gi, g2),
            money: if paid { v.money + RIDE_FEE } else { v.money },
            ..v
        }
    } else if g.state == STATE_TO_EXIT {
        if g.tile != ENTRANCE_IDX && !passable(v.tiles, Filter::Walkable, g.tile as int) {
            WorldView { guests: v.guests.update(gi, Guest { state: STATE_FREE, ..g }), ..v }
        } else {
            WorldView { guests: v.guests.update(gi, walk_out(v.tiles, g, t)), ..v }
        }
    } else {
        v
    }
}

proof fn lemma_walk_to_ride(tiles: Seq<u8>, g: Guest, target: u16, timer: nat)
    requires
        tiles.len() == N,
        guest_wf(g),
        g.state == STATE_TO_RIDE,
        target < N,
    ensures
        guest_wf(walk_to_ride(tiles, g, target, timer)),
        walk_to_ride(tiles, g, target, timer).path_seed == g.path_seed,
        walk_to_ride(tiles, g, target, timer).state == STATE_RIDING ==> walk_to_ride(tiles, g, target, timer).step_timer == 0,
        reach(tiles, Filter::Walkable, g.tile as int, timer / (GUEST_STEP_MS as nat), walk_to_ride(tiles, g, target, timer).tile as int),
    decreases timer,
{
    let k = timer / (GUEST_STEP_MS as nat);
    lemma_reach_mono(tiles, Filter::Walkable, g.tile as int, 0, k, g.tile as int);
    if timer >= GUEST_STEP_MS && g.tile != target {
        lemma_step_spec(tiles, g.tile, target, Filter::Walkable, g.path_seed);
        crate::paths::lemma_step_adj(tiles, Filter::Walkable, g.tile, target, step_spec(tiles, g.tile, target, Filter::Walkable, g.path_seed));
        if let Some(n) = step_spec(tiles, g.tile, target, Filter::Walkable, g.path_seed) {
            let rest = (timer - GUEST_STEP_MS) as nat;
            lemma_walk_to_ride(tiles, Guest { tile: n, ..g }, target, rest);
            lemma_one_more_step(timer, GUEST_STEP_MS as nat);
            lemma_reach_prepend(tiles, Filter::Walkable, g.tile as int, n as int, rest / (GUEST_STEP_MS as nat),
                walk_to_ride(tiles, Guest { tile: n, ..g }, target, rest).tile as int);
        }
    }
}

/// Spending one period leaves one step fewer.
proof fn lemma_one_more_step(timer: nat, p: nat)
    requires
        p > 0,
        timer >= p,
    ensures
        ((timer - p) as nat) / p + 1 == timer / p,
{
    assert(((timer - p) as nat) / p + 1 == timer / p) by (nonlinear_arith)
        requires
            p > 0,
            timer >= p,
    ;
}

proof fn lemma_ride(tiles: Seq<u8>, g: Guest, far: u16, boarding: u16, timer: nat)
    requires
        tiles.len() == N,
        guest_wf(g),
        far < N,
        boarding < N,
    ensures
        guest_wf(ride(tiles, g, far, boarding, timer).0),
        g.state == STATE_RIDING ==> {
            let (g2, paid) = ride(tiles, g, far, boarding, timer);
            &&& paid <==> g2.state == STATE_TO_EXIT
            &&& !paid ==> g2.state == STATE_RIDING
            &&& paid ==> g2.step_timer == 0
        },
        reach(tiles, Filter::Track, g.tile as int, timer / (RIDE_STEP_MS as nat), ride(tiles, g, far, boarding, timer).0.tile as int),
    decreases timer,
{
    let k = timer / (RIDE_STEP_MS as nat);
    lemma_reach_mono(tiles, Filter::Track, g.tile as int, 0, k, g.tile as int);
    if timer >= RIDE_STEP_MS {
        let target = if g.ride_phase == 0 { far } else { boarding };
        lemma_step_spec(tiles, g.tile, target, Filter::Track, g.path_seed);
        crate::paths::lemma_step_adj(tiles, Filter::Track, g.tile, target, step_spec(tiles, g.tile, target, Filter::Track, g.path_seed));
        if let Some(n) = step_spec(tiles, g.tile, target, Filter::Track, g.path_seed) {
            let visited = bumped(g.ride_tiles_visited);
            let phase1: u8 = if n == far && g.ride_phase == 0 { 1 } else { g.ride_phase };
            let phase2: u8 = if visited as u32 >= MAX_RIDE_TILES && phase1 == 0 { 1 } else { phase1 };
            let g2 = Guest { tile: n, ride_tiles_visited: visited, ride_phase: phase2, ..g };
            let rest = (timer - RIDE_STEP_MS) as nat;
            lemma_ride(tiles, g2, far, boarding, rest);
            lemma_one_more_step(timer, RIDE_STEP_MS as nat);
            lemma_reach_prepend(tiles, Filter::Track, g.tile as int, n as int, rest / (RIDE_STEP_MS as nat),
                ride(tiles, g2, far, boarding, rest).0.tile as int);
            assert(reach(tiles, Filter::Track, g.tile as int, 1, n as int)) by {
                lemma_reach_prepend(tiles, Filter::Track, g.tile as int, n as int, 0, n as int);
            }
            lemma_reach_mono(tiles, Filter::Track, g.tile as int, 1, k, n as int);
        }
    }
}

proof fn lemma_walk_out(tiles: Seq<u8>, g: Guest, timer: nat)
    requires
        tiles.len() == N,
        guest_wf(g),
        g.state == STATE_TO_EXIT,
    ensures
        guest_wf(walk_out(tiles, g, timer)),
        reach(tiles, Filter::Walkable, g.tile as int, timer / (GUEST_STEP_MS as nat), walk_out(tiles, g, timer).tile as int),
    decreases timer,
{
    let k = timer / (GUEST_STEP_MS as nat);
    lemma_reach_mono(tiles, Filter::Walkable, g.tile as int, 0, k, g.tile as int);
    if timer >= GUEST_STEP_MS && g.tile != ENTRANCE_IDX as u16 {
        lemma_step_spec(tiles, g.tile, ENTRANCE_IDX as u16, Filter::Walkable, g.path_seed);
        crate::paths::lemma_step_adj(tiles, Filter::Walkable, g.tile, ENTRANCE_IDX as u16, step_spec(tiles, g.tile, ENTRANCE_IDX as u16, Filter::Walkable, g.path_seed));
        if let Some(n) = step_spec(tiles, g.tile, ENTRANCE_IDX as u16, Filter::Walkable, g.path_seed) {
            let rest = (timer - GUEST_STEP_MS) as nat;
            lemma_walk_out(tiles, Guest { tile: n, ..g }, rest);
            lemma_one_more_step(timer, GUEST_STEP_MS as nat);
            lemma_reach_prepend(tiles, Filter::Walkable, g.tile as int, n as int, rest / (GUEST_STEP_MS as nat),
                walk_out(tiles, Guest { tile: n, ..g }, rest).tile as int);
        }
    }
}

/// A guest's tick keeps the park in order, changes only that guest's slot
/// and the money, and adds either nothing or one ride fee.
pub proof fn lemma_guest_tick(v: WorldView, gi: int, dt: u32)
    requires
        world_wf(v),
        0 <= gi < MAX_GUESTS,
    ensures
        world_wf(guest_tick_spec(v, gi, dt)),
        guest_tick_spec(v, gi, dt).money == v.money || guest_tick_spec(v, gi, dt).money == v.money + RIDE_FEE,
        guest_tick_spec(v, gi, dt).tiles == v.tiles,
        guest_tick_spec(v, gi, dt).boarding_tile == v.boarding_tile,
        guest_tick_spec(v, gi, dt).guests.len() == v.guests.len(),
        forall|j: int| 0 <= j < v.guests.len() && j != gi ==> #[trigger] guest_tick_spec(v, gi, dt).guests[j] == v.guests[j],
{
    let g = v.guests[gi];
    assert(guest_wf(g));
    let t = (g.step_timer + dt) as nat;
    let v2 = guest_tick_spec(v, gi, dt);
    lemma_boarding_range(v.tiles);
    if g.state == STATE_TO_RIDE {
        if v.boarding_tile >= 0 {
            lemma_walk_to_ride(v.tiles, g, v.boarding_tile as u16, t);
        }
    } else if g.state == STATE_RIDING {
        lemma_ride_target(v.tiles, g.ride_origin);
        lemma_ride(v.tiles, g, ride_target_spec(v.tiles, g.ride_origin), g.ride_origin, t);
    } else if g.state == STATE_TO_EXIT {
        lemma_walk_out(v.tiles, g, t);
    }
    assert forall|i: int| 0 <= i < MAX_GUESTS implies guest_wf(#[trigger] v2.guests[i]) by {
        if i != gi {
            assert(v2.guests[i] == v.guests[i]);
        }
    }
}

/// The time one step takes for a guest in `state`.
pub open spec fn step_period(state: u8) -> u32 {
    if state == STATE_RIDING { RIDE_STEP_MS } else { GUEST_STEP_MS }
}

/// The tiles a guest in `state` moves over: track while riding, walkable tiles otherwise.
pub open spec fn step_filter(state: u8) -> Filter {
    if state == STATE_RIDING { Filter::Track } else { Filter::Walkable }
}

/// Guest `gi`'s tick adds the elapsed time to its step timer: it is walking
/// to an existing boarding tile, riding, or walking out from a tile it can
/// still stand on.
pub open spec fn spends_time(v: WorldView, gi: int) -> bool {
    let g = v.guests[gi];
    ||| g.state == STATE_TO_RIDE && v.boarding_tile >= 0
    ||| g.state == STATE_RIDING
    ||| g.state == STATE_TO_EXIT && (g.tile == ENTRANCE_IDX || passable(v.tiles, Filter::Walkable, g.tile as int))
}

/// What one guest's tick does, in the large: only that guest's slot and the
/// money change; the fee is paid exactly when a riding guest turns to
/// leaving; a free slot is left alone; a guest still in the park has its
/// step timer below its step period, and a zero one right after boarding or
/// after the ride ends; and the guest has moved at most one tile per whole
/// step period spent, each tile entered being walkable (track while riding).
pub proof fn lemma_guest_tick_laws(v: WorldView, gi: int, dt: u32)
    requires
        world_wf(v),
        0 <= gi < MAX_GUESTS,
    ensures
        ({
            let g = v.guests[gi];
            let v2 = guest_tick_spec(v, gi, dt);
            let g2 = v2.guests[gi];
            &&& v2.tiles == v.tiles
            &&& v2.parent == v.parent
            &&& v2.boarding_tile == v.boarding_tile
            &&& v2.rng == v.rng
            &&& v2.spawn_timer == v.spawn_timer
            &&& v2.guests.len() == v.guests.len()
            &&& forall|j: int| 0 <= j < v.guests.len() && j != gi ==> #[trigger] v2.guests[j] == v.guests[j]
            &&& v2.money == v.money + if g.state == STATE_RIDING && g2.state == STATE_TO_EXIT { RIDE_FEE as int } else { 0 }
            &&& (g.state != STATE_TO_RIDE && g.state != STATE_RIDING && g.state != STATE_TO_EXIT ==> v2 == v)
            &&& (g2.state != STATE_FREE ==> g2.step_timer < step_period(g2.state))
            &&& ((g.state == STATE_TO_RIDE && g2.state == STATE_RIDING) || (g.state == STATE_RIDING && g2.state == STATE_TO_EXIT)
                ==> g2.step_timer == 0)
            &&& reach(v.tiles, step_filter(g.state), g.tile as int,
                ((g.step_timer + dt) / (step_period(g.state) as int)) as nat, g2.tile as int)
        }),
{
    let g = v.guests[gi];
    assert(guest_wf(g));
    let t = (g.step_timer + dt) as nat;
    let v2 = guest_tick_spec(v, gi, dt);
    let g2 = v2.guests[gi];
    lemma_guest_tick(v, gi, dt);
    assert(guest_wf(g2));
    lemma_boarding_range(v.tiles);
    let k = ((g.step_timer + dt) / (step_period(g.state) as int)) as nat;
    lemma_reach_mono(v.tiles, step_filter(g.state), g.tile as int, 0, k, g.tile as int);
    if g.state == STATE_TO_RIDE {
        if v.boarding_tile >= 0 {
            lemma_walk_to_ride(v.tiles, g, v.boarding_tile as u16, t);
        }
    } else if g.state == STATE_RIDING {
        lemma_ride_target(v.tiles, g.ride_origin);
        lemma_ride(v.tiles, g, ride_target_spec(v.tiles, g.ride_origin), g.ride_origin, t);
    } else if g.state == STATE_TO_EXIT {
        lemma_walk_out(v.tiles, g, t);
    }
}

proof fn lemma_walk_out_reachable(tiles: Seq<u8>, g: Guest, timer: nat)
    requires
        tiles.len() == N,
        guest_wf(g),
        g.state == STATE_TO_EXIT,
        reachable(tiles, Filter::Walkable, g.tile as int, ENTRANCE_IDX as int),
    ensures
        walk_out(tiles, g, timer).state == STATE_TO_EXIT || walk_out(tiles, g, timer).state == STATE_FREE,
        walk_out(tiles, g, timer).state == STATE_FREE ==> walk_out(tiles, g, timer).tile == ENTRANCE_IDX,
    decreases timer,
{
    if timer >= GUEST_STEP_MS && g.tile != ENTRANCE_IDX as u16 {
        crate::paths::lemma_step_cases(tiles, g.tile, ENTRANCE_IDX as u16, Filter::Walkable, g.path_seed);
        if let Some(n) = step_spec(tiles, g.tile, ENTRANCE_IDX as u16, Filter::Walkable, g.path_seed) {
            lemma_walk_out_reachable(tiles, Guest { tile: n, ..g }, (timer - GUEST_STEP_MS) as nat);
        }
    }
}

/// A guest on its way out leaves the park only where it should: at once
/// when its tile has been bulldozed to grass; otherwise, while the entrance
/// can be reached, only by arriving at the entrance, and not at all before
/// a whole step period has passed.
pub proof fn lemma_exit_laws(v: WorldView, gi: int, dt: u32)
    requires
        world_wf(v),
        0 <= gi < MAX_GUESTS,
        v.guests[gi].state == STATE_TO_EXIT,
    ensures
        ({
            let g = v.guests[gi];
            let g2 = guest_tick_spec(v, gi, dt).guests[gi];
            &&& (g.tile != ENTRANCE_IDX && !passable(v.tiles, Filter::Walkable, g.tile as int))
                ==> g2.state == STATE_FREE && g2.tile == g.tile
            &&& ((g.tile == ENTRANCE_IDX || passable(v.tiles, Filter::Walkable, g.tile as int))
                && reachable(v.tiles, Filter::Walkable, g.tile as int, ENTRANCE_IDX as int)) ==> {
                &&& g2.state == STATE_TO_EXIT || g2.state == STATE_FREE
                &&& g2.state == STATE_FREE ==> g2.tile == ENTRANCE_IDX
                &&& g.step_timer + dt < GUEST_STEP_MS ==> g2.state == STATE_TO_EXIT && g2.tile == g.tile
            }
        }),
{
    let g = v.guests[gi];
    assert(guest_wf(g));
    if (g.tile == ENTRANCE_IDX || passable(v.tiles, Filter::Walkable, g.tile as int))
        && reachable(v.tiles, Filter::Walkable, g.tile as int, ENTRANCE_IDX as int) {
        lemma_walk_out_reachable(v.tiles, g, (g.step_timer + dt) as nat);
    }
}

/// A riding guest on a tile with no track beside it (a one-tile ride, or
/// track bulldozed around it) has nowhere to ride: at its next ride step the
/// ride ends where it stands, it heads out, and the ride fee is paid.
pub proof fn lemma_stranded_ride_ends(v: WorldView, gi: int, dt: u32)
    requires
        world_wf(v),
        0 <= gi < MAX_GUESTS,
        v.guests[gi].state == STATE_RIDING,
        forall|u: int| crate::grid::adj(v.guests[gi].tile as int, u) ==> v.tiles[u] != crate::grid::TILE_TRACK,
        v.guests[gi].step_timer + dt >= RIDE_STEP_MS,
    ensures
        guest_tick_spec(v, gi, dt).guests[gi].state == STATE_TO_EXIT,
        guest_tick_spec(v, gi, dt).guests[gi].tile == v.guests[gi].tile,
        guest_tick_spec(v, gi, dt).money == v.money + RIDE_FEE,
{
    let g = v.guests[gi];
    assert(guest_wf(g));
    let far = ride_target_spec(v.tiles, g.ride_origin);
    lemma_ride_target(v.tiles, g.ride_origin);
    let target = if g.ride_phase == 0 { far } else { g.ride_origin };
    crate::paths::lemma_step_cases(v.tiles, g.tile, target, Filter::Track, g.path_seed);
    if target != g.tile && reachable(v.tiles, Filter::Track, g.tile as int, target as int) {
        let k = choose|k: nat| #[trigger] reach(v.tiles, Filter::Track, g.tile as int, k, target as int);
        crate::paths::lemma_track_alone(v.tiles, g.tile as int, k, target as int);
    }
}

/// Spends `time` on a guest walking to the boarding tile `target`.
fn advance_to_ride(w: &World, guest: Guest, target: u16, time: u32) -> (r: Guest)
    requires
        w.tiles.len() == N,
        guest.tile < N,
        target < N,
    ensures
        r == walk_to_ride(w.tiles@, guest, target, time as nat),
{
    let mut g = guest;
    let mut timer = time;
    while timer >= GUEST_STEP_MS
        invariant
            w.tiles.len() == N,
            g.tile < N,
            target < N,
            walk_to_ride(w.tiles@, g, target, timer as nat) == walk_to_ride(w.tiles@, guest, target, time as nat),
        decreases timer,
    {
        let ghost gb = g;
        let ghost tb = timer;
        timer -= GUEST_STEP_MS;
        let cur = g.tile;
        if cur == target {
            g.state = STATE_RIDING;
            g.ride_origin = cur;
            g.ride_tiles_visited = 0;
            g.ride_phase = 0;
            g.step_timer = 0;
            assert(g == walk_to_ride(w.tiles@, gb, target, tb as nat));
            return g;
        }
        let seed = g.path_seed;
        match step_toward(w, cur, target, seed) {
            Some(next) => {
                proof { crate::paths::lemma_step_adj(w.tiles@, Filter::Walkable, cur, target, Some(next)); }
                g.tile = next;
                assert(walk_to_ride(w.tiles@, gb, target, tb as nat) == walk_to_ride(w.tiles@, g, target, timer as nat));
            },
            None => {
                g.state = STATE_TO_EXIT;
                g.step_timer = 0;
                assert(g == walk_to_ride(w.tiles@, gb, target, tb as nat));
                return g;
            },
        }
    }
    g.step_timer = timer;
    g
}


/// Spends `time` on a riding guest; the flag says whether the ride ended.
fn advance_ride(w: &World, guest: Guest, far: u16, boarding: u16, time: u32) -> (r: (Guest, bool))
    requires
        w.tiles.len() == N,
        guest.tile < N,
        far < N,
        boarding < N,
    ensures
        r == ride(w.tiles@, guest, far, boarding, time as nat),
{
    let mut g = guest;
    let mut timer = time;
    while timer >= RIDE_STEP_MS
        invariant
            w.tiles.len() == N,
            g.tile < N,
            far < N,
            boarding < N,
            ride(w.tiles@, g, far, boarding, timer as nat) == ride(w.tiles@, guest, far, boarding, time as nat),
        decreases timer,
    {
        let ghost gb = g;
        let ghost tb = timer;
        timer -= RIDE_STEP_MS;
        let cur = g.tile;
        let target = if g.ride_phase == 0 { far } else { boarding };
        let seed = g.path_seed;
        match step_along_track(w, cur, target, seed) {
            Some(next) => {
                proof { crate::paths::lemma_step_adj(w.tiles@, Filter::Track, cur, target, Some(next)); }
                g.tile = next;
                g.ride_tiles_visited = g.ride_tiles_visited.saturating_add(1);
                if next == far && g.ride_phase == 0 {
                    g.ride_phase = 1;
                }
                if g.ride_tiles_visited as u32 >= MAX_RIDE_TILES && g.ride_phase == 0 {
                    g.ride_phase = 1;
                }
                if next == boarding && g.ride_phase == 1 {
                    g.state = STATE_TO_EXIT;
                    g.step_timer = 0;
                    assert((g, true) == ride(w.tiles@, gb, far, boarding, tb as nat));
                    return (g, true);
                }
                assert(ride(w.tiles@, gb, far, boarding, tb as nat) == ride(w.tiles@, g, far, boarding, timer as nat));
            },
            None => {
                // Single-tile track, or track bulldozed mid-ride: the ride ends.
                g.state = STATE_TO_EXIT;
                g.step_timer = 0;
                assert((g, true) == ride(w.tiles@, gb, far, boarding, tb as nat));
                return (g, true);
            },
        }
    }
    g.step_timer = timer;
    (g, false)
}

/// Spends `time` on a guest walking back to the entrance.
fn advance_out(w: &World, guest: Guest, time: u32) -> (r: Guest)
    requires
        w.tiles.len() == N,
        guest.tile < N,
    ensures
        r == walk_out(w.tiles@, guest, time as nat),
{
    let mut g = guest;
    let mut timer = time;
    while timer >= GUEST_STEP_MS
        invariant
            w.tiles.len() == N,
            g.tile < N,
            walk_out(w.tiles@, g, timer as nat) == walk_out(w.tiles@, guest, time as nat),
        decreases timer,
    {
        let ghost gb = g;
        let ghost tb = timer;
        timer -= GUEST_STEP_MS;
        let cur = g.tile;
        if cur == ENTRANCE_IDX as u16 {
            g.state = STATE_FREE;
            assert(g == walk_out(w.tiles@, gb, tb as nat));
            return g;
        }
        let seed = g.path_seed;
        match step_toward(w, cur, ENTRANCE_IDX as u16, seed) {
            Some(next) => {
                proof { crate::paths::lemma_step_adj(w.tiles@, Filter::Walkable, cur, ENTRANCE_IDX as u16, Some(next)); }
                g.tile = next;
                assert(walk_out(w.tiles@, gb, tb as nat) == walk_out(w.tiles@, g, timer as nat));
            },
            None => {
                g.state = STATE_FREE;
                assert(g == walk_out(w.tiles@, gb, tb as nat));
                return g;
            },
        }
    }
    g.step_timer = timer;
    g
}

/// Advances guest `gi` by `dt` milliseconds: walking to the boarding tile,
/// riding the track out and back (paying the ride fee when the ride ends),
/// or walking back to the entrance to leave.
pub fn guest_tick(w: &mut World, gi: usize, dt: u32)
    requires
        world_wf(old(w)@),
        gi < MAX_GUESTS,
        spends_time(old(w)@, gi as int) ==> old(w).guests@[gi as int].step_timer + dt <= u32::MAX,
        guest_tick_spec(old(w)@, gi as int, dt).money <= i32::MAX,
    ensures
        final(w)@ == guest_tick_spec(old(w)@, gi as int, dt),
        world_wf(final(w)@),
        final(w).money == old(w).money + if old(w).guests@[gi as int].state == STATE_RIDING
            && final(w).guests@[gi as int].state == STATE_TO_EXIT { RIDE_FEE } else { 0 },
{
    proof {
        lemma_guest_tick(w@, gi as int, dt);
        lemma_guest_tick_laws(w@, gi as int, dt);
        lemma_boarding_range(w.tiles@);
    }
    let g = w.guests[gi];
    assert(guest_wf(g));
    let state = g.state;
    if state == STATE_TO_RIDE {
        if w.boarding_tile < 0 {
            let mut g2 = g;
            g2.state = STATE_TO_EXIT;
            w.guests.set(gi, g2);
            assert(w@ == guest_tick_spec(old(w)@, gi as int, dt));
            return;
        }
        let target = w.boarding_tile as u16;
        let timer = g.step_timer + dt;
        let g2 = advance_to_ride(w, g, target, timer);
        w.guests.set(gi, g2);
        assert(w@ == guest_tick_spec(old(w)@, gi as int, dt));
    } else if state == STATE_RIDING {
        let boarding = g.ride_origin;
        let far = pick_ride_target(w, boarding);
        let timer = g.step_timer + dt;
        let (g2, paid) = advance_ride(w, g, far, boarding, timer);
        w.guests.set(gi, g2);
        if paid {
            w.money += RIDE_FEE;
        }
        assert(w@ == guest_tick_spec(old(w)@, gi as int, dt));
    } else if state == STATE_TO_EXIT {
        // A guest whose tile was bulldozed from under them leaves at once.
        let cur_idx = g.tile as usize;
        if cur_idx != ENTRANCE_IDX && !walkable(&w.tiles, cur_idx) {
            let mut g2 = g;
            g2.state = STATE_FREE;
            w.guests.set(gi, g2);
            assert(w@ == guest_tick_spec(old(w)@, gi as int, dt));
            return;
        }
        let timer = g.step_timer + dt;
        let g2 = advance_out(w, g, timer);
        w.guests.set(gi, g2);
        assert(w@ == guest_tick_spec(old(w)@, gi as int, dt));
    }
}

/// The first free guest slot at or after `i`, or -1.
pub open spec fn first_free(guests: Seq<Guest>, i: int) -> int
    decreases guests.len() - i,
{
    if i < 0 || i >= guests.len() {
        -1
    } else if guests[i].state == STATE_FREE {
        i
    } else {
        first_free(guests, i + 1)
    }
}

/// Every slot from `i` up to the first free slot is occupied.
pub(crate) proof fn lemma_first_free_prefix(guests: Seq<Guest>, i: int, j: int)
    requires
        0 <= i <= j < guests.len(),
        first_free(guests, i) != -1,
        j < first_free(guests, i),
    ensures
        guests[j].state != STATE_FREE,
    decreases guests.len() - i,
{
    if i < j {
        lemma_first_free_prefix(guests, i + 1, j);
    }
}

/// A guest just arrived at the entrance, heading for the ride.
pub open spec fn arriving(seed: u32) -> Guest {
    Guest {
        state: STATE_TO_RIDE,
        tile: ENTRANCE_IDX as u16,
        step_timer: 0,
        ride_tiles_visited: 0,
        ride_phase: 0,
        ride_origin: 0,
        path_seed: seed,
    }
}

/// The park after one spawn attempt, and whether a guest arrived.
pub open spec fn spawn_spec(v: WorldView) -> (WorldView, bool) {
    if v.boarding_tile < 0 {
        (v, false)
    } else {
        let seed = xorshift_next(v.rng);
        let i = first_free(v.guests, 0);
        if i < 0 {
            (WorldView { rng: seed, ..v }, false)
        } else {
            (WorldView { rng: seed, guests: v.guests.update(i, arriving(seed)), ..v }, true)
        }
    }
}

pub(crate) proof fn lemma_first_free(guests: Seq<Guest>, i: int)
    requires
        0 <= i <= guests.len(),
    ensures
        first_free(guests, i) == -1 <==> forall|k: int| i <= k < guests.len() ==> guests[k].state != STATE_FREE,
        first_free(guests, i) != -1 ==> i <= first_free(guests, i) < guests.len()
            && guests[first_free(guests, i)].state == STATE_FREE,
    decreases guests.len() - i,
{
    if i < guests.len() {
        lemma_first_free(guests, i + 1);
    }
}

/// A spawn attempt keeps the park in order; a guest arrives exactly when a
/// boarding tile exists and a slot is free.
pub proof fn lemma_spawn(v: WorldView)
    ensures
        park_wf(v) ==> park_wf(spawn_spec(v).0),
        spawn_spec(v).1 <==> (v.boarding_tile >= 0 && exists|k: int| 0 <= k < v.guests.len() && #[trigger] v.guests[k].state == STATE_FREE),
        spawn_spec(v).0.tiles == v.tiles,
        spawn_spec(v).0.money == v.money,
        spawn_spec(v).0.spawn_timer == v.spawn_timer,
        spawn_spec(v).0.boarding_tile == v.boarding_tile,
        spawn_spec(v).0.parent == v.parent,
        spawn_spec(v).0.guests.len() == v.guests.len(),
{
    lemma_first_free(v.guests, 0);
    if v.boarding_tile >= 0 {
        crate::rng::lemma_xorshift_nonzero(v.rng);
        let i = first_free(v.guests, 0);
        let v2 = spawn_spec(v).0;
        if i >= 0 && park_wf(v) {
            assert forall|k: int| 0 <= k < MAX_GUESTS implies guest_wf(#[trigger] v2.guests[k]) by {
                if k != i {
                    assert(v2.guests[k] == v.guests[k]);
                }
            }
        }
    }
}

/// If a boarding tile exists, draws a fresh seed and places a new guest,
/// heading for the ride, at the entrance in the first free slot. Returns
/// whether a guest was placed.
pub fn try_spawn_guest(w: &mut World) -> (r: bool)
    ensures
        (final(w)@, r) == spawn_spec(old(w)@),
        park_wf(old(w)@) ==> park_wf(final(w)@),
        final(w).spawn_timer == old(w).spawn_timer,
        r <==> (old(w).boarding_tile >= 0 && exists|k: int| 0 <= k < old(w).guests.len() && #[trigger] old(w).guests@[k].state == STATE_FREE),
{
    proof { lemma_spawn(w@); }
    if w.boarding_tile < 0 {
        return false;
    }
    let seed = xorshift(&mut w.rng);
    let mut i: usize = 0;
    while i < w.guests.len()
        invariant
            w@ == (WorldView { rng: xorshift_next(old(w).rng), ..old(w)@ }),
            seed == xorshift_next(old(w).rng),
            old(w).boarding_tile >= 0,
            park_wf(old(w)@) ==> park_wf(spawn_spec(old(w)@).0),
            i <= w.guests.len(),
            first_free(w.guests@, 0) == first_free(w.guests@, i as int),
        decreases w.guests.len() - i,
    {
        if w.guests[i].state == STATE_FREE {
            w.guests.set(i, Guest {
                state: STATE_TO_RIDE,
                tile: ENTRANCE_IDX as u16,
                step_timer: 0,
                ride_tiles_visited: 0,
                ride_phase: 0,
                ride_origin: 0,
                path_seed: seed,
            });
            proof { lemma_first_free(old(w).guests@, 0); }
            assert(w@ == spawn_spec(old(w)@).0);
            return true;
        }
        i += 1;
    }
    proof { lemma_first_free(old(w).guests@, 0); }
    assert(w@ == spawn_spec(old(w)@).0);
    false
}

} // verus!
