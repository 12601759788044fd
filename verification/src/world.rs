//! The park's state: tiles, guests, money, timers, and the route data
//! derived from the tiles.

use vstd::prelude::*;
use crate::grid::{N, ENTRANCE_IDX, TILE_GRASS, TILE_PATH, TILE_TRACK};
use crate::paths::{boarding_spec, entrance_result};

verus! {

pub const TOOL_PATH: u32 = 0;
pub const TOOL_TRACK: u32 = 1;
pub const TOOL_BULLDOZE: u32 = 2;

pub const PATH_COST: i32 = 1;
pub const TRACK_COST: i32 = 10;
pub const RIDE_FEE: i32 = 15;
pub const STARTING_MONEY: i32 = 100;

pub const MAX_GUESTS: usize = 64;
pub const SPAWN_INTERVAL_MS: u32 = 2000;
pub const GUEST_STEP_MS: u32 = 300;
pub const RIDE_STEP_MS: u32 = 120;
pub const MAX_RIDE_TILES: u32 = 32;
/// The longest time step a tick simulates.
pub const MAX_TICK_MS: u32 = 500;

pub const STATE_FREE: u8 = 0;
pub const STATE_TO_RIDE: u8 = 1;
pub const STATE_RIDING: u8 = 2;
pub const STATE_TO_EXIT: u8 = 3;

/// One guest slot.
#[derive(Clone, Copy, PartialEq, Eq, Structural, Debug)]
pub struct Guest {
    /// One of the `STATE_` values; `STATE_FREE` marks an empty slot.
    pub state: u8,
    /// The tile the guest stands on.
    pub tile: u16,
    /// Time accumulated towards the guest's next step.
    pub step_timer: u32,
    /// Track tiles travelled on the current ride.
    pub ride_tiles_visited: u8,
    /// 0 while riding out to the far end of the track, 1 while riding back.
    pub ride_phase: u8,
    /// The boarding tile the current ride started from.
    pub ride_origin: u16,
    /// Per-guest seed used to permute the search's neighbour order, so that
    /// guests disperse across equally short paths at forks.
    pub path_seed: u32,
}

/// The whole park.
pub struct World {
    pub tiles: Vec<u8>,
    pub guests: Vec<Guest>,
    pub money: i32,
    pub spawn_timer: u32,
    pub rng: u32,
    /// For every tile, the neighbour one step nearer the entrance, or -1.
    pub parent: Vec<i16>,
    /// The track tile nearest the entrance, or -1 if none is reachable.
    pub boarding_tile: i16,
}

/// The park as plain mathematical values.
pub struct WorldView {
    pub tiles: Seq<u8>,
    pub guests: Seq<Guest>,
    pub money: int,
    pub spawn_timer: u32,
    pub rng: u32,
    pub parent: Seq<i16>,
    pub boarding_tile: i16,
}

impl View for World {
    type V = WorldView;

    open spec fn view(&self) -> WorldView {
        WorldView {
            tiles: self.tiles@,
            guests: self.guests@,
            money: self.money as int,
            spawn_timer: self.spawn_timer,
            rng: self.rng,
            parent: self.parent@,
            boarding_tile: self.boarding_tile,
        }
    }
}

/// A guest that the park can hold.
pub open spec fn guest_wf(g: Guest) -> bool {
    &&& g.state <= STATE_TO_EXIT
    &&& g.tile < N
    &&& g.ride_origin < N
    &&& g.step_timer < GUEST_STEP_MS
    &&& g.state == STATE_RIDING ==> g.step_timer < RIDE_STEP_MS
}

/// A tile value that the park can hold.
pub open spec fn tile_wf(t: u8) -> bool {
    t == TILE_GRASS || t == TILE_PATH || t == TILE_TRACK
}


/// A park state that play can reach, but for the spawn timer: every tile
/// is grass, path or track and the entrance is grass; all guest slots are
/// in order; money is not negative; the generator state is not zero; and
/// the route data is the entrance search over the current tiles.
pub open spec fn park_wf(v: WorldView) -> bool {
    &&& v.tiles.len() == N
    &&& forall|i: int| 0 <= i < N ==> tile_wf(#[trigger] v.tiles[i])
    &&& v.tiles[ENTRANCE_IDX as int] == TILE_GRASS
    &&& v.guests.len() == MAX_GUESTS
    &&& forall|i: int| 0 <= i < MAX_GUESTS ==> guest_wf(#[trigger] v.guests[i])
    &&& 0 <= v.money
    &&& v.rng != 0
    &&& v.parent == entrance_result(v.tiles).parent
    &&& v.boarding_tile == boarding_spec(v.tiles)
}

/// A park state that play can reach: `park_wf`, with the spawn timer below
/// one interval.
pub open spec fn world_wf(v: WorldView) -> bool {
    &&& park_wf(v)
    &&& v.spawn_timer < SPAWN_INTERVAL_MS
}

} // verus!
