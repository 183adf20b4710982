//! Search for cheap RNG manipulations through the opening rooms of a game
//! whose random number generator is a WELL512-style generator seeded by a
//! linear congruential generator.

pub mod rng;
pub mod unique_seeds;
pub mod node_heap;
mod sealed;
pub mod layer;
pub mod visitor;
pub mod layers;
