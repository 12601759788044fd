//! The park's interface: starting a game, advancing time, clicking tiles
//! with a tool, and reading the state back.

use vstd::prelude::*;
use crate::grid::{
    reach, reachable, xy_to_idx, idx_to_x, idx_to_y, Filter, ENTRANCE_IDX, ENTRANCE_X, ENTRANCE_Y, H, N, W,
    TILE_GRASS, TILE_PATH, TILE_TRACK,
};
use crate::paths::{
    boarding_spec, entrance_result, recompute_paths, parent_tree, nearest_track,
    lemma_boarding, lemma_boarding_range, lemma_parent_tree,
};
use crate::sim::{guest_tick, guest_tick_spec, try_spawn_guest, spawn_spec, lemma_guest_tick, lemma_spawn};
use crate::world::{
    Guest, World, WorldView, world_wf, park_wf, tile_wf, guest_wf, MAX_GUESTS, MAX_TICK_MS,
    PATH_COST, RIDE_FEE, SPAWN_INTERVAL_MS, STARTING_MONEY, STATE_FREE, STATE_TO_RIDE, TOOL_BULLDOZE, TOOL_PATH,
    TOOL_TRACK, TRACK_COST,
};

verus! {

/// An empty guest slot.
pub open spec fn empty_guest() -> Guest {
    Guest { state: STATE_FREE, tile: 0, step_timer: 0, ride_tiles_visited: 0, ride_phase: 0, ride_origin: 0, path_seed: 0 }
}

/// A new game: all grass, no guests, the starting money, and the generator
/// seeded with `seed` (or 1 for a zero seed).
pub open spec fn init_view(seed: u32) -> WorldView {
    WorldView {
        tiles: Seq::new(N as nat, |i: int| TILE_GRASS),
        guests: Seq::new(MAX_GUESTS as nat, |i: int| empty_guest()),
        money: STARTING_MONEY as int,
        spawn_timer: 0,
        rng: if seed == 0 { 1u32 } else { seed },
        parent: Seq::new(N as nat, |i: int| -1i16),
        boarding_tile: -1i16,
    }
}

proof fn lemma_grass_reach(k: nat, v: int)
    requires
        reach(Seq::new(N as nat, |i: int| TILE_GRASS), Filter::Walkable, ENTRANCE_IDX as int, k, v),
    ensures
        v == ENTRANCE_IDX,
    decreases k,
{
    let tiles = Seq::new(N as nat, |i: int| TILE_GRASS);
    if k > 0 {
        if reach(tiles, Filter::Walkable, ENTRANCE_IDX as int, (k - 1) as nat, v) {
            lemma_grass_reach((k - 1) as nat, v);
        }
    }
}

/// On an all-grass park only the entrance can be reached: no tile has a
/// parent and there is no boarding tile.
pub proof fn lemma_grass_routes()
    ensures
        entrance_result(Seq::new(N as nat, |i: int| TILE_GRASS)).parent == Seq::new(N as nat, |i: int| -1i16),
        boarding_spec(Seq::new(N as nat, |i: int| TILE_GRASS)) == -1,
{
    let tiles = Seq::new(N as nat, |i: int| TILE_GRASS);
    lemma_parent_tree(tiles);
    lemma_boarding(tiles);
    lemma_boarding_range(tiles);
    let p = entrance_result(tiles).parent;
    assert forall|v: int| 0 <= v < N implies p[v] == -1i16 by {
        if reachable(tiles, Filter::Walkable, ENTRANCE_IDX as int, v) {
            let k = choose|k: nat| #[trigger] reach(tiles, Filter::Walkable, ENTRANCE_IDX as int, k, v);
            lemma_grass_reach(k, v);
        }
    }
    assert(p =~= Seq::new(N as nat, |i: int| -1i16));
}

/// The starting state is one that play can reach.
pub proof fn lemma_init_wf(seed: u32)
    ensures
        world_wf(init_view(seed)),
{
    lemma_grass_routes();
}

/// Starts a new game: all grass, no guests, the starting money, and the
/// generator seeded with `seed` (a zero seed is replaced by 1).
pub fn init(w: &mut World, seed: u32)
    ensures
        final(w)@ == init_view(seed),
        world_wf(final(w)@),
{
    let mut tiles: Vec<u8> = Vec::new();
    let mut parent: Vec<i16> = Vec::new();
    let mut i: usize = 0;
    while i < N
        invariant
            i <= N,
            tiles@ =~= Seq::new(i as nat, |k: int| TILE_GRASS),
            parent@ =~= Seq::new(i as nat, |k: int| -1i16),
        decreases N - i,
    {
        tiles.push(TILE_GRASS);
        parent.push(-1);
        i += 1;
    }
    let mut guests: Vec<Guest> = Vec::new();
    let mut j: usize = 0;
    while j < MAX_GUESTS
        invariant
            j <= MAX_GUESTS,
            guests@ =~= Seq::new(j as nat, |k: int| empty_guest()),
        decreases MAX_GUESTS - j,
    {
        guests.push(Guest {
            state: STATE_FREE,
            tile: 0,
            step_timer: 0,
            ride_tiles_visited: 0,
            ride_phase: 0,
            ride_origin: 0,
            path_seed: 0,
        });
        j += 1;
    }
    w.tiles = tiles;
    w.guests = guests;
    w.money = STARTING_MONEY;
    w.spawn_timer = 0;
    w.rng = if seed == 0 { 1 } else { seed };
    w.parent = parent;
    w.boarding_tile = -1;
    proof { lemma_init_wf(seed); }
}

impl World {
    /// A park in its starting state, with the generator seeded with 1.
    pub fn new() -> (w: World)
        ensures
            w@ == init_view(1),
            world_wf(w@),
    {
        let mut w = World {
            tiles: Vec::new(),
            guests: Vec::new(),
            money: 0,
            spawn_timer: 0,
            rng: 1,
            parent: Vec::new(),
            boarding_tile: -1,
        };
        init(&mut w, 1);
        w
    }
}

// ---------------------------------------------------------------------
// Time

/// Spawn attempts while a whole interval has accumulated, one per interval.
pub open spec fn spawn_loop(v: WorldView) -> WorldView
    decreases v.spawn_timer,
{
    if v.spawn_timer < SPAWN_INTERVAL_MS {
        v
    } else {
        spawn_loop(spawn_spec(WorldView { spawn_timer: (v.spawn_timer - SPAWN_INTERVAL_MS) as u32, ..v }).0)
    }
}

/// Every occupied guest slot from `i` on, in order, spends `dt`.
pub open spec fn guests_loop(v: WorldView, dt: u32, i: int) -> WorldView
    decreases MAX_GUESTS - i,
{
    if i < 0 || i >= MAX_GUESTS {
        v
    } else {
        let v2 = if v.guests[i].state != STATE_FREE { guest_tick_spec(v, i, dt) } else { v };
        guests_loop(v2, dt, i + 1)
    }
}

/// The time step a tick simulates: `dt_ms`, at most `MAX_TICK_MS`.
pub open spec fn clamp_dt(dt_ms: u32) -> u32 {
    if dt_ms > MAX_TICK_MS { MAX_TICK_MS } else { dt_ms }
}

/// The park after a tick of `dt_ms` milliseconds.
pub open spec fn tick_spec(v: WorldView, dt_ms: u32) -> WorldView {
    let dt = clamp_dt(dt_ms);
    let t = v.spawn_timer + dt;
    let v1 = WorldView { spawn_timer: if t > u32::MAX { u32::MAX } else { t as u32 }, ..v };
    guests_loop(spawn_loop(v1), dt, 0)
}

proof fn lemma_spawn_loop(v: WorldView)
    requires
        park_wf(v),
    ensures
        world_wf(spawn_loop(v)),
        spawn_loop(v).money == v.money,
        spawn_loop(v).tiles == v.tiles,
        spawn_loop(v).parent == v.parent,
        spawn_loop(v).boarding_tile == v.boarding_tile,
        v.spawn_timer < 2 * SPAWN_INTERVAL_MS ==> active_count(spawn_loop(v).guests) <= active_count(v.guests) + 1,
    decreases v.spawn_timer,
{
    if v.spawn_timer >= SPAWN_INTERVAL_MS {
        let v1 = WorldView { spawn_timer: (v.spawn_timer - SPAWN_INTERVAL_MS) as u32, ..v };
        lemma_spawn(v1);
        lemma_spawn_count(v1);
        lemma_spawn_loop(spawn_spec(v1).0);
    }
}

/// The number of occupied slots after slot `i` is replaced by `g`.
proof fn lemma_active_update(s: Seq<Guest>, i: int, g: Guest)
    requires
        0 <= i < s.len(),
    ensures
        active_count(s.update(i, g)) == active_count(s) - (if s[i].state != STATE_FREE { 1int } else { 0int })
            + (if g.state != STATE_FREE { 1int } else { 0int }),
    decreases s.len(),
{
    let t = s.update(i, g);
    if i == s.len() - 1 {
        assert(t.drop_last() =~= s.drop_last());
    } else {
        assert(t.drop_last() =~= s.drop_last().update(i, g));
        lemma_active_update(s.drop_last(), i, g);
    }
}

/// A spawn attempt fills at most one slot.
proof fn lemma_spawn_count(v: WorldView)
    ensures
        active_count(spawn_spec(v).0.guests) <= active_count(v.guests) + 1,
{
    if v.boarding_tile >= 0 {
        let i = crate::sim::first_free(v.guests, 0);
        if i >= 0 {
            crate::sim::lemma_first_free(v.guests, 0);
            lemma_active_update(v.guests, i, crate::sim::arriving(crate::rng::xorshift_next(v.rng)));
        }
    }
}

proof fn lemma_guests_loop(v: WorldView, dt: u32, i: int)
    requires
        world_wf(v),
        0 <= i <= MAX_GUESTS,
    ensures
        world_wf(guests_loop(v, dt, i)),
        guests_loop(v, dt, i).money >= v.money,
        guests_loop(v, dt, i).money <= v.money + (MAX_GUESTS - i) * RIDE_FEE,
        (guests_loop(v, dt, i).money - v.money) % (RIDE_FEE as int) == 0,
        guests_loop(v, dt, i).tiles == v.tiles,
        guests_loop(v, dt, i).parent == v.parent,
        guests_loop(v, dt, i).boarding_tile == v.boarding_tile,
        guests_loop(v, dt, i).spawn_timer == v.spawn_timer,
        active_count(guests_loop(v, dt, i).guests) <= active_count(v.guests),
    decreases MAX_GUESTS - i,
{
    if i < MAX_GUESTS {
        let v2 = if v.guests[i].state != STATE_FREE { guest_tick_spec(v, i, dt) } else { v };
        lemma_guest_tick(v, i, dt);
        crate::sim::lemma_guest_tick_laws(v, i, dt);
        if v.guests[i].state != STATE_FREE {
            assert(v2.guests =~= v.guests.update(i, v2.guests[i]));
            lemma_active_update(v.guests, i, v2.guests[i]);
        }
        lemma_guests_loop(v2, dt, i + 1);
        let m0 = v.money;
        let m1 = v2.money;
        let m2 = guests_loop(v2, dt, i + 1).money;
        assert((m2 - m0) % 15 == 0) by (nonlinear_arith)
            requires
                (m2 - m1) % 15 == 0,
                m1 == m0 || m1 == m0 + 15,
        ;
    }
}

/// A guest's tick reads only the tiles, the boarding tile and that guest's
/// own slot.
proof fn lemma_guest_tick_frame(v: WorldView, w: WorldView, j: int, dt: u32)
    requires
        0 <= j < v.guests.len(),
        w.guests.len() == v.guests.len(),
        w.tiles == v.tiles,
        w.boarding_tile == v.boarding_tile,
        w.guests[j] == v.guests[j],
    ensures
        guest_tick_spec(w, j, dt).guests[j] == guest_tick_spec(v, j, dt).guests[j],
{
}

proof fn lemma_guests_loop_slot(v: WorldView, dt: u32, i: int, j: int)
    requires
        world_wf(v),
        0 <= i <= MAX_GUESTS,
        0 <= j < MAX_GUESTS,
    ensures
        guests_loop(v, dt, i).guests[j] == if j < i || v.guests[j].state == STATE_FREE {
            v.guests[j]
        } else {
            guest_tick_spec(v, j, dt).guests[j]
        },
    decreases MAX_GUESTS - i,
{
    if i < MAX_GUESTS {
        let v2 = if v.guests[i].state != STATE_FREE { guest_tick_spec(v, i, dt) } else { v };
        lemma_guest_tick(v, i, dt);
        lemma_guests_loop_slot(v2, dt, i + 1, j);
        if j > i {
            assert(v2.guests[j] == v.guests[j]);
            lemma_guest_tick_frame(v, v2, j, dt);
        }
    }
}

/// The guests' phase of a tick moves every occupied slot exactly as that
/// guest's own tick would on the park as it stood, whatever the other
/// slots hold, and leaves every free slot alone.
pub proof fn lemma_guest_phase(v: WorldView, dt: u32, j: int)
    requires
        world_wf(v),
        0 <= j < MAX_GUESTS,
    ensures
        guests_loop(v, dt, 0).guests[j] == if v.guests[j].state == STATE_FREE {
            v.guests[j]
        } else {
            guest_tick_spec(v, j, dt).guests[j]
        },
{
    lemma_guests_loop_slot(v, dt, 0, j);
}

/// In a tick, once guests have arrived, every occupied slot is advanced by
/// its own guest tick over the time simulated.
pub proof fn lemma_tick_moves_every_guest(v: WorldView, dt_ms: u32, j: int)
    requires
        world_wf(v),
        0 <= j < MAX_GUESTS,
    ensures
        ({
            let dt = clamp_dt(dt_ms);
            let t = v.spawn_timer + dt;
            let arrived = spawn_loop(WorldView { spawn_timer: if t > u32::MAX { u32::MAX } else { t as u32 }, ..v });
            tick_spec(v, dt_ms).guests[j] == if arrived.guests[j].state == STATE_FREE {
                arrived.guests[j]
            } else {
                guest_tick_spec(arrived, j, dt).guests[j]
            }
        }),
{
    let dt = clamp_dt(dt_ms);
    let t = v.spawn_timer + dt;
    let v1 = WorldView { spawn_timer: if t > u32::MAX { u32::MAX } else { t as u32 }, ..v };
    lemma_spawn_loop(v1);
    lemma_guest_phase(spawn_loop(v1), dt, j);
}

/// A spawn attempt that places a guest writes it into the first free slot,
/// at the entrance and heading for the ride, and changes no other slot; so
/// it never overwrites a guest and fills exactly one more slot. One that
/// places no guest leaves every slot as it was.
pub proof fn lemma_spawn_slot(v: WorldView)
    ensures
        spawn_spec(v).1 ==> exists|i: int| #![trigger v.guests[i]] {
            &&& 0 <= i < v.guests.len()
            &&& v.guests[i].state == STATE_FREE
            &&& (forall|j: int| 0 <= j < i ==> v.guests[j].state != STATE_FREE)
            &&& spawn_spec(v).0.guests == v.guests.update(i, spawn_spec(v).0.guests[i])
            &&& spawn_spec(v).0.guests[i].state == STATE_TO_RIDE
            &&& spawn_spec(v).0.guests[i].tile == ENTRANCE_IDX
            &&& spawn_spec(v).0.guests[i].step_timer == 0
        },
        !spawn_spec(v).1 ==> spawn_spec(v).0.guests == v.guests,
        spawn_spec(v).0.guests.len() == v.guests.len(),
        forall|j: int| 0 <= j < v.guests.len() && v.guests[j].state != STATE_FREE
            ==> #[trigger] spawn_spec(v).0.guests[j] == v.guests[j],
        spawn_spec(v).1 ==> active_count(spawn_spec(v).0.guests) == active_count(v.guests) + 1,
{
    crate::sim::lemma_first_free(v.guests, 0);
    if spawn_spec(v).1 {
        let i = crate::sim::first_free(v.guests, 0);
        let g = crate::sim::arriving(crate::rng::xorshift_next(v.rng));
        assert(spawn_spec(v).0.guests == v.guests.update(i, g));
        assert(v.guests.update(i, g) =~= v.guests.update(i, spawn_spec(v).0.guests[i]));
        lemma_active_update(v.guests, i, g);
        assert forall|j: int| 0 <= j < i implies v.guests[j].state != STATE_FREE by {
            crate::sim::lemma_first_free_prefix(v.guests, 0, j);
        }
        assert(v.guests[i].state == STATE_FREE);
    }
}

/// What a click does, in terms of where and with what it clicks: it takes
/// effect exactly on a tile of the grid other than the entrance, with path
/// or track on grass that the money pays for, or with the bulldozer on path
/// or track. Then it sets that tile to path, track or grass, charges the
/// tool's cost and leaves the rest of the tiles and the guests alone; else
/// it changes nothing.
pub proof fn lemma_click_outcome(v: WorldView, x: u32, y: u32, tool: u32)
    requires
        v.tiles.len() == N,
    ensures
        ({
            let (v2, r) = click_spec(v, x, y, tool);
            let idx = y * W + x;
            let takes = x < W && y < H && idx != ENTRANCE_IDX && {
                ||| tool == TOOL_PATH && v.tiles[idx] == TILE_GRASS && v.money >= PATH_COST
                ||| tool == TOOL_TRACK && v.tiles[idx] == TILE_GRASS && v.money >= TRACK_COST
                ||| tool == TOOL_BULLDOZE && v.tiles[idx] != TILE_GRASS
            };
            &&& (r == 1) == takes
            &&& (r == 0) == !takes
            &&& takes ==> {
                &&& v2.tiles == v.tiles.update(idx, if tool == TOOL_PATH { TILE_PATH } else if tool == TOOL_TRACK { TILE_TRACK } else { TILE_GRASS })
                &&& v2.money == v.money - if tool == TOOL_PATH { PATH_COST as int } else if tool == TOOL_TRACK { TRACK_COST as int } else { 0 }
                &&& v2.guests == v.guests
            }
            &&& !takes ==> v2 == v
        }),
{
}

/// A tick keeps the park in order, never touches the tiles or the routes,
/// adds a whole number of ride fees (at most one per guest slot), and lets
/// at most one guest arrive.
pub proof fn lemma_tick(v: WorldView, dt_ms: u32)
    requires
        world_wf(v),
    ensures
        world_wf(tick_spec(v, dt_ms)),
        tick_spec(v, dt_ms).money >= v.money,
        tick_spec(v, dt_ms).money <= v.money + MAX_GUESTS * RIDE_FEE,
        (tick_spec(v, dt_ms).money - v.money) % (RIDE_FEE as int) == 0,
        tick_spec(v, dt_ms).tiles == v.tiles,
        tick_spec(v, dt_ms).parent == v.parent,
        tick_spec(v, dt_ms).boarding_tile == v.boarding_tile,
        active_count(tick_spec(v, dt_ms).guests) <= active_count(v.guests) + 1,
{
    let dt = clamp_dt(dt_ms);
    let t = v.spawn_timer + dt;
    let v1 = WorldView { spawn_timer: if t > u32::MAX { u32::MAX } else { t as u32 }, ..v };
    lemma_spawn_loop(v1);
    lemma_guests_loop(spawn_loop(v1), dt, 0);
}

/// A tick cannot overflow the money of a park that holds at most
/// `i32::MAX - MAX_GUESTS * RIDE_FEE`: the condition `tick` asks for holds.
pub proof fn lemma_tick_fits(v: WorldView, dt_ms: u32)
    requires
        world_wf(v),
        v.money <= i32::MAX - MAX_GUESTS * RIDE_FEE,
    ensures
        tick_spec(v, dt_ms).money <= i32::MAX,
{
    lemma_tick(v, dt_ms);
}

/// Ticks longer than `MAX_TICK_MS` act as ticks of exactly `MAX_TICK_MS`.
pub proof fn lemma_tick_clamped(v: WorldView, dt_ms: u32)
    requires
        dt_ms >= MAX_TICK_MS,
    ensures
        tick_spec(v, dt_ms) == tick_spec(v, MAX_TICK_MS),
{
}

/// Advances the park by `dt_ms` milliseconds (at most `MAX_TICK_MS` are
/// simulated): one spawn attempt per whole spawn interval accumulated,
/// then every occupied guest slot in order spends the time.
pub fn tick(w: &mut World, dt_ms: u32)
    requires
        world_wf(old(w)@),
        tick_spec(old(w)@, dt_ms).money <= i32::MAX,
    ensures
        final(w)@ == tick_spec(old(w)@, dt_ms),
        dt_ms >= MAX_TICK_MS ==> final(w)@ == tick_spec(old(w)@, MAX_TICK_MS),
        world_wf(final(w)@),
        final(w).money >= old(w).money,
        final(w).money <= old(w).money + MAX_GUESTS * RIDE_FEE,
        (final(w).money - old(w).money) % (RIDE_FEE as int) == 0,
        final(w).tiles@ == old(w).tiles@,
        final(w).parent@ == old(w).parent@,
        final(w).boarding_tile == old(w).boarding_tile,
        active_count(final(w).guests@) <= active_count(old(w).guests@) + 1,
{
    proof { lemma_tick(w@, dt_ms); }
    let dt = if dt_ms > MAX_TICK_MS { MAX_TICK_MS } else { dt_ms };
    w.spawn_timer = w.spawn_timer.saturating_add(dt);
    let ghost v1 = w@;
    proof { lemma_spawn_loop(v1); }
    while w.spawn_timer >= SPAWN_INTERVAL_MS
        invariant
            park_wf(w@),
            spawn_loop(w@) == spawn_loop(v1),
            guests_loop(spawn_loop(v1), dt, 0) == tick_spec(old(w)@, dt_ms),
            dt == clamp_dt(dt_ms),
            tick_spec(old(w)@, dt_ms).money <= i32::MAX,
        decreases w.spawn_timer,
    {
        w.spawn_timer -= SPAWN_INTERVAL_MS;
        proof { lemma_spawn(w@); }
        let _ = try_spawn_guest(w);
    }
    let ghost v2 = w@;
    proof { lemma_guests_loop(v2, dt, 0); }
    let mut i: usize = 0;
    while i < MAX_GUESTS
        invariant
            world_wf(w@),
            0 <= i <= MAX_GUESTS,
            guests_loop(w@, dt, i as int) == tick_spec(old(w)@, dt_ms),
            dt <= MAX_TICK_MS,
            tick_spec(old(w)@, dt_ms).money <= i32::MAX,
        decreases MAX_GUESTS - i,
    {
        proof {
            lemma_guest_tick(w@, i as int, dt);
            lemma_guests_loop(guest_tick_spec(w@, i as int, dt), dt, i + 1);
            lemma_guests_loop(w@, dt, i + 1);
            assert(guest_wf(w.guests@[i as int]));
        }
        if w.guests[i].state != STATE_FREE {
            guest_tick(w, i, dt);
        }
        i += 1;
    }
}


// ---------------------------------------------------------------------
// Building

/// The park with its tiles replaced by `t` and the routes recomputed for them.
pub open spec fn with_tiles(v: WorldView, t: Seq<u8>) -> WorldView {
    WorldView { tiles: t, parent: entrance_result(t).parent, boarding_tile: boarding_spec(t), ..v }
}

/// What a click with `tool` on tile (`x`, `y`) does, and whether it took effect.
/// Off the grid, on the entrance, with an unknown tool, on a tile the tool
/// cannot change, or without the money to pay, it does nothing and returns 0.
/// A path (cost 1) or track (cost 10) can be laid on grass; the bulldozer
/// turns path or track back into grass at no cost and no refund.
pub open spec fn click_spec(v: WorldView, x: u32, y: u32, tool: u32) -> (WorldView, u32) {
    if x >= W || y >= H {
        (v, 0)
    } else {
        let idx = y * W + x;
        if idx == ENTRANCE_IDX {
            (v, 0)
        } else if tool == TOOL_PATH {
            if v.tiles[idx] != TILE_GRASS || v.money < PATH_COST {
                (v, 0)
            } else {
                (with_tiles(WorldView { money: v.money - PATH_COST, ..v }, v.tiles.update(idx, TILE_PATH)), 1)
            }
        } else if tool == TOOL_TRACK {
            if v.tiles[idx] != TILE_GRASS || v.money < TRACK_COST {
                (v, 0)
            } else {
                (with_tiles(WorldView { money: v.money - TRACK_COST, ..v }, v.tiles.update(idx, TILE_TRACK)), 1)
            }
        } else if tool == TOOL_BULLDOZE {
            if v.tiles[idx] == TILE_GRASS {
                (v, 0)
            } else {
                (with_tiles(v, v.tiles.update(idx, TILE_GRASS)), 1)
            }
        } else {
            (v, 0)
        }
    }
}

/// A click keeps the park in order, never touches the entrance, never adds
/// money, and when it has no effect it changes nothing.
pub proof fn lemma_click(v: WorldView, x: u32, y: u32, tool: u32)
    requires
        v.tiles.len() == N,
    ensures
        world_wf(v) ==> world_wf(click_spec(v, x, y, tool).0),
        click_spec(v, x, y, tool).1 == 0 ==> click_spec(v, x, y, tool).0 == v,
        click_spec(v, x, y, tool).1 == 0 || click_spec(v, x, y, tool).1 == 1,
        click_spec(v, x, y, tool).0.money <= v.money,
        click_spec(v, x, y, tool).0.guests == v.guests,
{
    if x < W && y < H {
        let idx = y * W + x;
        let v2 = click_spec(v, x, y, tool).0;
        if click_spec(v, x, y, tool).1 == 1 && world_wf(v) {
            assert forall|i: int| 0 <= i < N implies tile_wf(#[trigger] v2.tiles[i]) by {
                if i != idx {
                    assert(v2.tiles[i] == v.tiles[i]);
                }
            }
        }
    }
}

/// Bulldozing a tile just built on restores the tiles and routes as they
/// were; only the building cost stays spent.
pub proof fn lemma_bulldoze_undoes_build(v: WorldView, x: u32, y: u32, tool: u32)
    requires
        world_wf(v),
        tool == TOOL_PATH || tool == TOOL_TRACK,
        click_spec(v, x, y, tool).1 == 1,
    ensures
        click_spec(click_spec(v, x, y, tool).0, x, y, TOOL_BULLDOZE).1 == 1,
        click_spec(click_spec(v, x, y, tool).0, x, y, TOOL_BULLDOZE).0 == (WorldView {
            money: v.money - (if tool == TOOL_PATH { PATH_COST } else { TRACK_COST }),
            ..v
        }),
{
    let idx = y * W + x;
    let v1 = click_spec(v, x, y, tool).0;
    assert(v1.tiles.update(idx, TILE_GRASS) =~= v.tiles);
}

/// Applies `tool` to tile (`tile_x`, `tile_y`): lays path or track on grass
/// if the money suffices, or bulldozes path or track back to grass; then
/// recomputes the routes. Returns 1 if the click took effect, else 0 (off
/// the grid, the entrance, an unknown tool, a tile the tool cannot change,
/// or too little money).
pub fn click(w: &mut World, tile_x: u32, tile_y: u32, tool: u32) -> (r: u32)
    requires
        old(w).tiles.len() == N,
    ensures
        (final(w)@, r) == click_spec(old(w)@, tile_x, tile_y, tool),
        world_wf(old(w)@) ==> world_wf(final(w)@),
        r == 0 ==> final(w)@ == old(w)@,
        final(w).money <= old(w).money,
{
    proof { lemma_click(w@, tile_x, tile_y, tool); }
    if tile_x >= W as u32 || tile_y >= H as u32 {
        return 0;
    }
    let idx = xy_to_idx(tile_x as usize, tile_y as usize);
    // The entrance tile is untouchable.
    if idx == ENTRANCE_IDX {
        return 0;
    }
    if tool == TOOL_PATH {
        if w.tiles[idx] != TILE_GRASS {
            return 0;
        }
        if w.money < PATH_COST {
            return 0;
        }
        w.money -= PATH_COST;
        w.tiles.set(idx, TILE_PATH);
    } else if tool == TOOL_TRACK {
        if w.tiles[idx] != TILE_GRASS {
            return 0;
        }
        if w.money < TRACK_COST {
            return 0;
        }
        w.money -= TRACK_COST;
        w.tiles.set(idx, TILE_TRACK);
    } else if tool == TOOL_BULLDOZE {
        if w.tiles[idx] == TILE_GRASS {
            return 0;
        }
        w.tiles.set(idx, TILE_GRASS);
    } else {
        return 0;
    }
    recompute_paths(w);
    1
}

// ---------------------------------------------------------------------
// Reading the state

pub fn get_money(w: &World) -> (r: i32)
    ensures
        r == w.money,
{
    w.money
}

/// The number of occupied slots among `guests`.
pub open spec fn active_count(guests: Seq<Guest>) -> nat
    decreases guests.len(),
{
    if guests.len() == 0 {
        0
    } else {
        active_count(guests.drop_last()) + if guests.last().state != STATE_FREE { 1nat } else { 0nat }
    }
}

proof fn lemma_active_count_bound(guests: Seq<Guest>)
    ensures
        active_count(guests) <= guests.len(),
    decreases guests.len(),
{
    if guests.len() > 0 {
        lemma_active_count_bound(guests.drop_last());
    }
}

/// The number of guests in the park.
pub fn get_guest_count(w: &World) -> (r: u32)
    requires
        w.guests.len() <= MAX_GUESTS,
    ensures
        r == active_count(w.guests@),
        r <= MAX_GUESTS,
{
    let mut n: u32 = 0;
    let mut i: usize = 0;
    while i < w.guests.len()
        invariant
            i <= w.guests.len() <= MAX_GUESTS,
            n == active_count(w.guests@.subrange(0, i as int)),
        decreases w.guests.len() - i,
    {
        proof {
            lemma_active_count_bound(w.guests@.subrange(0, i as int));
            assert(w.guests@.subrange(0, i + 1).drop_last() =~= w.guests@.subrange(0, i as int));
        }
        if w.guests[i].state != STATE_FREE {
            n += 1;
        }
        i += 1;
    }
    proof {
        assert(w.guests@.subrange(0, i as int) =~= w.guests@);
        lemma_active_count_bound(w.guests@);
    }
    n
}

/// The tile kind at (`x`, `y`), or 0 off the grid.
pub fn get_tile(w: &World, x: u32, y: u32) -> (r: u32)
    requires
        w.tiles.len() == N,
    ensures
        r == if x >= W || y >= H { 0 } else { w.tiles@[y * W + x] as u32 },
{
    if x >= W as u32 || y >= H as u32 {
        return 0;
    }
    w.tiles[xy_to_idx(x as usize, y as usize)] as u32
}

/// A guest packed as state in bits 0-7, column in bits 8-15 and row in bits 16-23.
pub open spec fn pack_guest(g: Guest) -> u32 {
    let x = (g.tile % (W as u16)) as u32;
    let y = (g.tile / (W as u16)) as u32;
    (g.state as u32) | (x << 8u32) | (y << 16u32)
}

/// Guest slot `i` packed as state, column and row in successive bytes;
/// 0 for a free slot or an index out of range.
pub fn get_guest(w: &World, i: u32) -> (r: u32)
    requires
        w.guests.len() == MAX_GUESTS,
    ensures
        r == if i >= MAX_GUESTS || w.guests@[i as int].state == STATE_FREE { 0 } else { pack_guest(w.guests@[i as int]) },
        i < MAX_GUESTS && w.guests@[i as int].state != STATE_FREE && guest_wf(w.guests@[i as int]) ==> {
            &&& r & 0xff == w.guests@[i as int].state
            &&& (r >> 8u32) & 0xff == w.guests@[i as int].tile % (W as u16)
            &&& r >> 16u32 == w.guests@[i as int].tile / (W as u16)
        },
{
    if i as usize >= MAX_GUESTS {
        return 0;
    }
    let g = w.guests[i as usize];
    if g.state == STATE_FREE {
        return 0;
    }
    let x = idx_to_x(g.tile as usize) as u32;
    let y = idx_to_y(g.tile as usize) as u32;
    let s = g.state as u32;
    proof {
        if guest_wf(g) {
        assert(x < 20 && y < 15);
        assert(((s | (x << 8u32) | (y << 16u32)) & 0xff) == s
            && (((s | (x << 8u32) | (y << 16u32)) >> 8u32) & 0xff) == x
            && ((s | (x << 8u32) | (y << 16u32)) >> 16u32) == y) by (bit_vector)
            requires
                s < 4,
                x < 20,
                y < 15,
        ;
        }
    }
    s | (x << 8) | (y << 16)
}

pub fn width() -> (r: u32)
    ensures
        r == W,
{
    W as u32
}

pub fn height() -> (r: u32)
    ensures
        r == H,
{
    H as u32
}

pub fn max_guests() -> (r: u32)
    ensures
        r == MAX_GUESTS,
{
    MAX_GUESTS as u32
}

pub fn entrance_x() -> (r: u32)
    ensures
        r == ENTRANCE_X,
{
    ENTRANCE_X as u32
}

pub fn entrance_y() -> (r: u32)
    ensures
        r == ENTRANCE_Y,
{
    ENTRANCE_Y as u32
}

// ---------------------------------------------------------------------
// Laws of reachable states

/// In every reachable state the boarding tile is -1 exactly when no track
/// tile can be reached from the entrance, and otherwise a nearest one; and
/// the parents form a shortest-path tree back to the entrance.
pub proof fn lemma_routes(v: WorldView)
    requires
        world_wf(v),
    ensures
        parent_tree(v.tiles, v.parent),
        v.boarding_tile < 0 <==> forall|t: int| 0 <= t < N && v.tiles[t] == TILE_TRACK
            ==> !reachable(v.tiles, Filter::Walkable, ENTRANCE_IDX as int, t),
        v.boarding_tile >= 0 ==> nearest_track(v.tiles, v.boarding_tile as int),
{
    lemma_parent_tree(v.tiles);
    lemma_boarding(v.tiles);
}

/// A guest can arrive only when some track tile can be reached from the entrance.
pub proof fn lemma_spawn_needs_track(v: WorldView)
    requires
        world_wf(v),
        spawn_spec(v).1,
    ensures
        exists|t: int| 0 <= t < N && v.tiles[t] == TILE_TRACK && reachable(v.tiles, Filter::Walkable, ENTRANCE_IDX as int, t),
{
    lemma_boarding(v.tiles);
    lemma_spawn(v);
    let b = v.boarding_tile as int;
    assert(nearest_track(v.tiles, b));
}

} // verus!
