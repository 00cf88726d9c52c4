//! Evolution of a population of rockets that learn to fly from a spawn point
//! to a target through a grid of obstacles.

pub mod configs;
pub mod flood;
pub mod flood_laws;
pub mod flood_order;
pub mod floodfill;
pub mod genetics;
pub mod population;
pub mod rocket;
pub mod simulation;
pub mod vector;
pub mod world;

pub use configs::{
    MUTATION_PROBABILITY, NUM_ROCKETS, ROCKET_LIFESPAN, ROCKET_SPAWN_LOCATION, SCREEN_DIMENSIONS,
    TARGET_LOCATION, TARGET_RADIUS,
};
pub use floodfill::FloodFill;
pub use genetics::{Dna, Evolution, Reproduction, SelectionError};
pub use population::{GenePool, Mating, Population, Sighting};
pub use rocket::{Rocket, RocketState};
pub use simulation::{Simulation, Supply};
pub use world::{Wall, WindowPoint, World};
