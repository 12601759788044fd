use park_sim::api::{
    click, entrance_x, entrance_y, get_guest, get_guest_count, get_money, get_tile, height, init,
    max_guests, tick, width,
};
use park_sim::grid::{xy_to_idx, ENTRANCE_IDX};
use park_sim::sim::{guest_tick, try_spawn_guest};
use park_sim::world::{
    World, STATE_FREE, STATE_RIDING, STATE_TO_EXIT, STATE_TO_RIDE, TOOL_BULLDOZE, TOOL_PATH,
    TOOL_TRACK,
};

fn at(x: usize, y: usize) -> usize {
    xy_to_idx(x, y)
}

fn pack(state: u32, x: u32, y: u32) -> u32 {
    state | (x << 8) | (y << 16)
}

/// Path at (1,7), track at (2,7) and (3,7).
fn small_park() -> World {
    let mut w = World::new();
    assert_eq!(click(&mut w, 1, 7, TOOL_PATH), 1);
    assert_eq!(click(&mut w, 2, 7, TOOL_TRACK), 1);
    assert_eq!(click(&mut w, 3, 7, TOOL_TRACK), 1);
    w
}

#[test]
fn new_world_starts_empty() {
    let w = World::new();
    assert_eq!(get_money(&w), 100);
    assert_eq!(get_guest_count(&w), 0);
    assert_eq!(get_tile(&w, 3, 4), 0);
    assert_eq!(w.boarding_tile, -1);
    assert_eq!(w.rng, 1);
    assert!(w.parent.iter().all(|&p| p == -1));
}

#[test]
fn dimensions() {
    assert_eq!(width(), 20);
    assert_eq!(height(), 15);
    assert_eq!(max_guests(), 64);
    assert_eq!(entrance_x(), 0);
    assert_eq!(entrance_y(), 7);
}

#[test]
fn init_resets_and_replaces_zero_seed() {
    let mut w = small_park();
    tick(&mut w, 500);
    init(&mut w, 0);
    assert_eq!(w.rng, 1);
    assert_eq!(get_money(&w), 100);
    assert_eq!(get_tile(&w, 2, 7), 0);
    assert_eq!(w.boarding_tile, -1);
    init(&mut w, 77);
    assert_eq!(w.rng, 77);
}

#[test]
fn building_costs() {
    let mut w = World::new();
    assert_eq!(click(&mut w, 1, 7, TOOL_PATH), 1);
    assert_eq!(get_money(&w), 99);
    assert_eq!(get_tile(&w, 1, 7), 1);
    assert_eq!(click(&mut w, 2, 7, TOOL_TRACK), 1);
    assert_eq!(get_money(&w), 89);
    assert_eq!(get_tile(&w, 2, 7), 2);
    assert_eq!(w.boarding_tile, at(2, 7) as i16);
    // Bulldozing is free and refunds nothing.
    assert_eq!(click(&mut w, 2, 7, TOOL_BULLDOZE), 1);
    assert_eq!(get_money(&w), 89);
    assert_eq!(get_tile(&w, 2, 7), 0);
    assert_eq!(w.boarding_tile, -1);
}

#[test]
fn refused_clicks_change_nothing() {
    let mut w = small_park();
    let money = get_money(&w);
    let tiles = w.tiles.clone();
    assert_eq!(click(&mut w, 20, 3, TOOL_PATH), 0);
    assert_eq!(click(&mut w, 3, 15, TOOL_PATH), 0);
    assert_eq!(click(&mut w, 0, 7, TOOL_PATH), 0);
    assert_eq!(click(&mut w, 0, 7, TOOL_BULLDOZE), 0);
    assert_eq!(click(&mut w, 1, 7, TOOL_TRACK), 0);
    assert_eq!(click(&mut w, 5, 5, TOOL_BULLDOZE), 0);
    assert_eq!(click(&mut w, 5, 5, 3), 0);
    assert_eq!(get_money(&w), money);
    assert_eq!(w.tiles, tiles);
}

#[test]
fn not_enough_money() {
    let mut w = World::new();
    for x in 1..11u32 {
        assert_eq!(click(&mut w, x, 0, TOOL_TRACK), 1);
    }
    assert_eq!(get_money(&w), 0);
    assert_eq!(click(&mut w, 11, 0, TOOL_TRACK), 0);
    assert_eq!(click(&mut w, 11, 0, TOOL_PATH), 0);
    assert_eq!(get_tile(&w, 11, 0), 0);
    assert_eq!(get_money(&w), 0);
}

#[test]
fn bulldoze_undoes_build() {
    let mut w = small_park();
    let tiles = w.tiles.clone();
    let parent = w.parent.clone();
    let boarding = w.boarding_tile;
    let money = get_money(&w);
    assert_eq!(click(&mut w, 4, 7, TOOL_TRACK), 1);
    assert_eq!(click(&mut w, 4, 7, TOOL_BULLDOZE), 1);
    assert_eq!(w.tiles, tiles);
    assert_eq!(w.parent, parent);
    assert_eq!(w.boarding_tile, boarding);
    assert_eq!(get_money(&w), money - 10);
}

#[test]
fn no_guests_without_ride() {
    let mut w = World::new();
    assert_eq!(click(&mut w, 1, 7, TOOL_PATH), 1);
    for _ in 0..20 {
        tick(&mut w, 500);
    }
    assert_eq!(get_guest_count(&w), 0);
    assert_eq!(w.rng, 1);
}

#[test]
fn guest_rides_and_pays() {
    let mut w = small_park();
    assert_eq!(get_money(&w), 79);
    for _ in 0..3 {
        tick(&mut w, 500);
    }
    assert_eq!(get_guest_count(&w), 0);
    // The fourth tick completes the spawn interval; the guest takes one step at once.
    tick(&mut w, 500);
    assert_eq!(get_guest_count(&w), 1);
    assert_eq!(w.guests[0].path_seed, 270369);
    assert_eq!(get_guest(&w, 0), pack(STATE_TO_RIDE as u32, 1, 7));
    assert_eq!(w.guests[0].step_timer, 200);
    // Two more steps reach the boarding tile and board.
    tick(&mut w, 500);
    assert_eq!(get_guest(&w, 0), pack(STATE_RIDING as u32, 2, 7));
    assert_eq!(w.guests[0].ride_origin, at(2, 7) as u16);
    // Out to the far end and back: the ride ends and the fee is paid.
    tick(&mut w, 500);
    assert_eq!(get_money(&w), 94);
    assert_eq!(get_guest(&w, 0), pack(STATE_TO_EXIT as u32, 2, 7));
    assert_eq!(w.guests[0].ride_tiles_visited, 2);
    tick(&mut w, 500);
    assert_eq!(get_guest(&w, 0), pack(STATE_TO_EXIT as u32, 1, 7));
    // Back at the entrance the guest leaves; a new guest spawned into slot 1 meanwhile.
    tick(&mut w, 500);
    assert_eq!(get_guest(&w, 0), 0);
    assert_eq!(w.guests[0].state, STATE_FREE);
    assert_eq!(w.guests[1].state, STATE_TO_RIDE);
    assert_eq!(get_guest_count(&w), 1);
}

#[test]
fn long_ticks_are_clamped() {
    let mut a = small_park();
    let mut b = small_park();
    for _ in 0..6 {
        tick(&mut a, 500);
        tick(&mut b, 60_000);
    }
    assert_eq!(a.guests, b.guests);
    assert_eq!(get_money(&a), get_money(&b));
    assert_eq!(a.spawn_timer, b.spawn_timer);
    assert_eq!(a.rng, b.rng);
}

#[test]
fn guest_gives_up_when_ride_removed() {
    let mut w = small_park();
    for _ in 0..4 {
        tick(&mut w, 500);
    }
    assert_eq!(w.guests[0].state, STATE_TO_RIDE);
    assert_eq!(click(&mut w, 2, 7, TOOL_BULLDOZE), 1);
    assert_eq!(click(&mut w, 3, 7, TOOL_BULLDOZE), 1);
    assert_eq!(w.boarding_tile, -1);
    tick(&mut w, 100);
    assert_eq!(w.guests[0].state, STATE_TO_EXIT);
}

#[test]
fn bulldozed_exiting_guest_leaves() {
    let mut w = small_park();
    for _ in 0..6 {
        tick(&mut w, 500);
    }
    assert_eq!(get_guest(&w, 0), pack(STATE_TO_EXIT as u32, 2, 7));
    assert_eq!(click(&mut w, 2, 7, TOOL_BULLDOZE), 1);
    guest_tick(&mut w, 0, 0);
    assert_eq!(w.guests[0].state, STATE_FREE);
}

#[test]
fn spawn_uses_first_free_slot() {
    let mut w = small_park();
    assert!(try_spawn_guest(&mut w));
    assert!(try_spawn_guest(&mut w));
    assert_eq!(w.guests[0].state, STATE_TO_RIDE);
    assert_eq!(w.guests[1].state, STATE_TO_RIDE);
    assert_eq!(w.guests[1].tile, ENTRANCE_IDX as u16);
    assert_eq!(w.guests[0].path_seed, 270369);
    assert_ne!(w.guests[1].path_seed, w.guests[0].path_seed);
    assert_eq!(get_guest_count(&w), 2);
    for _ in 2..64 {
        assert!(try_spawn_guest(&mut w));
    }
    assert_eq!(get_guest_count(&w), 64);
    let rng = w.rng;
    assert!(!try_spawn_guest(&mut w));
    // The generator still advanced.
    assert_ne!(w.rng, rng);
}

#[test]
fn spawn_refused_without_boarding() {
    let mut w = World::new();
    assert!(!try_spawn_guest(&mut w));
    assert_eq!(w.rng, 1);
    assert_eq!(get_guest_count(&w), 0);
}

#[test]
fn get_guest_and_tile_out_of_range() {
    let w = small_park();
    assert_eq!(get_guest(&w, 64), 0);
    assert_eq!(get_guest(&w, 5), 0);
    assert_eq!(get_tile(&w, 20, 0), 0);
    assert_eq!(get_tile(&w, 0, 15), 0);
}

#[test]
fn riding_guest_turns_back_after_max_tiles() {
    // A long track: out along row 7, down column 19, back along row 14.
    let mut w = World::new();
    w.money = 1000;
    assert_eq!(click(&mut w, 1, 7, TOOL_PATH), 1);
    for x in 2..20u32 {
        assert_eq!(click(&mut w, x, 7, TOOL_TRACK), 1);
    }
    for y in 8..15u32 {
        assert_eq!(click(&mut w, 19, y, TOOL_TRACK), 1);
    }
    for x in (5..19u32).rev() {
        assert_eq!(click(&mut w, x, 14, TOOL_TRACK), 1);
    }
    let far = park_sim::paths::pick_ride_target(&w, at(2, 7) as u16);
    assert_eq!(far, at(5, 14) as u16);
    assert!(try_spawn_guest(&mut w));
    let money = get_money(&w);
    let mut paid = false;
    for _ in 0..200 {
        tick(&mut w, 120);
        if get_money(&w) > money {
            paid = true;
            break;
        }
    }
    assert!(paid);
    assert_eq!(get_money(&w), money + 15);
    assert_eq!(w.guests[0].state, STATE_TO_EXIT);
    // 32 tiles out, then 32 tiles back to the boarding tile.
    assert_eq!(w.guests[0].ride_tiles_visited, 64);
    assert_eq!(w.guests[0].tile, at(2, 7) as u16);
}

#[test]
fn packed_guest_decodes() {
    let mut w = small_park();
    for _ in 0..4 {
        tick(&mut w, 500);
    }
    let r = get_guest(&w, 0);
    assert_eq!(r & 0xff, STATE_TO_RIDE as u32);
    assert_eq!((r >> 8) & 0xff, 1);
    assert_eq!(r >> 16, 7);
}

#[test]
fn tick_laws_hold_along_a_game() {
    let mut w = small_park();
    for x in 4..10u32 {
        assert_eq!(click(&mut w, x, 7, TOOL_TRACK), 1);
    }
    for step in 0..400u32 {
        let money = get_money(&w);
        let count = get_guest_count(&w);
        let tiles = w.tiles.clone();
        let parent = w.parent.clone();
        let before = w.guests.clone();
        tick(&mut w, 37 + (step * 97) % 700);
        let gained = get_money(&w) - money;
        assert!(gained >= 0 && gained % 15 == 0 && gained <= 64 * 15);
        assert!(get_guest_count(&w) <= count + 1);
        assert_eq!(w.tiles, tiles);
        assert_eq!(w.parent, parent);
        assert!(w.spawn_timer < 2000);
        for (g, old) in w.guests.iter().zip(before.iter()) {
            if g.state != STATE_FREE {
                let period = if g.state == STATE_RIDING { 120 } else { 300 };
                assert!(g.step_timer < period);
                assert!((g.tile as usize) < park_sim::grid::N);
            }
            if (old.state == STATE_TO_RIDE && g.state == STATE_RIDING)
                || (old.state == STATE_RIDING && g.state == STATE_TO_EXIT)
            {
                assert_eq!(g.step_timer, 0);
            }
        }
    }
}

#[test]
fn guest_tick_fee_exactly_on_ride_end() {
    let mut w = small_park();
    for _ in 0..5 {
        tick(&mut w, 500);
    }
    assert_eq!(w.guests[0].state, STATE_RIDING);
    let money = get_money(&w);
    guest_tick(&mut w, 0, 100);
    assert_eq!(w.guests[0].state, STATE_RIDING);
    assert_eq!(get_money(&w), money);
    guest_tick(&mut w, 0, 400);
    assert_eq!(w.guests[0].state, STATE_TO_EXIT);
    assert_eq!(get_money(&w), money + 15);
    assert_eq!(w.guests[0].step_timer, 0);
}
