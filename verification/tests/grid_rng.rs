use park_sim::grid::{idx_to_x, idx_to_y, is_track, passes, walkable, xy_to_idx, Filter, ENTRANCE_IDX, N};
use park_sim::rng::{shuffled_neighbors, xorshift};

fn grass() -> Vec<u8> {
    vec![0u8; N]
}

#[test]
fn index_round_trip() {
    assert_eq!(xy_to_idx(3, 2), 43);
    assert_eq!(idx_to_x(43), 3);
    assert_eq!(idx_to_y(43), 2);
    assert_eq!(xy_to_idx(0, 7), ENTRANCE_IDX);
    assert_eq!(xy_to_idx(19, 14), N - 1);
}

#[test]
fn walkable_tiles() {
    let mut t = grass();
    t[5] = 1;
    t[6] = 2;
    assert!(walkable(&t, ENTRANCE_IDX));
    assert!(walkable(&t, 5));
    assert!(walkable(&t, 6));
    assert!(!walkable(&t, 7));
    assert!(!is_track(&t, 5));
    assert!(is_track(&t, 6));
    assert!(!is_track(&t, ENTRANCE_IDX));
    assert!(passes(&t, Filter::Walkable, 5));
    assert!(!passes(&t, Filter::Track, 5));
}

#[test]
fn xorshift_values() {
    let mut s: u32 = 1;
    assert_eq!(xorshift(&mut s), 270369);
    assert_eq!(s, 270369);
    let mut z: u32 = 0;
    let r = xorshift(&mut z);
    assert_eq!(r, 1359758873);
    assert_eq!(z, r);
    let mut t: u32 = 12345;
    assert_eq!(xorshift(&mut t), 3336926330);
}

#[test]
fn xorshift_never_zero() {
    let mut s: u32 = 0;
    for _ in 0..1000 {
        assert_ne!(xorshift(&mut s), 0);
    }
}

#[test]
fn shuffle_exact_orders() {
    assert_eq!(shuffled_neighbors(42), vec![(1, 0), (0, 1), (0, -1), (-1, 0)]);
    assert_eq!(shuffled_neighbors(7), vec![(-1, 0), (0, -1), (1, 0), (0, 1)]);
    assert_eq!(shuffled_neighbors(0), vec![(-1, 0), (0, 1), (0, -1), (1, 0)]);
}

#[test]
fn shuffle_is_permutation() {
    for seed in 0..200u32 {
        let mut a = shuffled_neighbors(seed.wrapping_mul(2654435761));
        a.sort();
        assert_eq!(a, vec![(-1, 0), (0, -1), (0, 1), (1, 0)]);
    }
}
