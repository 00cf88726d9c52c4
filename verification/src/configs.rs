//! The settings of the simulation that are whole numbers.

use vstd::prelude::*;

verus! {

/// Side of the square window, in pixels.
pub const SCREEN_DIMENSIONS: u32 = 720;

/// Number of rockets in a generation.
pub const NUM_ROCKETS: u32 = 750;

/// Number of frames that a generation lasts, and of genes in a genome.
pub const ROCKET_LIFESPAN: usize = 200;

/// Where a rocket starts, in window coordinates.
pub const ROCKET_SPAWN_LOCATION: (i16, i16) = (-350, 0);

/// Centre of the target, in window coordinates.
pub const TARGET_LOCATION: (i16, i16) = (330, 0);

/// Radius of the target, in pixels.
pub const TARGET_RADIUS: u16 = 22;

/// Chance of a gene to mutate, in thousandths.
pub const MUTATION_PROBABILITY: u8 = 10;

} // verus!
