//! A tiny theme-park simulation on a fixed grid: the player lays paths and
//! ride track, guests walk from the entrance to the ride along shortest
//! paths, ride the track and walk back out, paying a fee for each ride.

pub mod grid;
pub mod rng;
pub mod search;
pub mod world;
pub mod paths;
pub mod sim;
pub mod api;
