//! The rocket: a point mass that its genes push around until it reaches the
//! target or runs into a wall.

use vstd::prelude::*;
use nannou::glam::Vec2;
use crate::configs::ROCKET_SPAWN_LOCATION;
use crate::genetics::{crossed, mutated, Dna, Reproduction};
use crate::vector::{vec2_add_assign, vec2_at, vec2_from, vec2_sum};

verus! {

/// Where a rocket is in its life.
#[derive(Clone, Copy, Debug, PartialEq, Eq, Structural)]
pub enum RocketState {
    /// It can move.
    Alive,
    /// It ran into a wall, and stays there.
    Crashed,
    /// It reached the target, and stays there.
    Completed,
}

/// What a rocket is at one moment.
pub struct Flight {
    /// Position in the window.
    pub pos: Vec2,
    /// Velocity: what is added to the position in a frame.
    pub vel: Vec2,
    /// Acceleration: what is added to the velocity in a frame.
    pub acc: Vec2,
    /// Where the rocket is in its life.
    pub state: RocketState,
    /// The genes: the force for each frame.
    pub genes: Seq<Vec2>,
}

impl Flight {
    /// A rocket with `genes` at rest at the spawn point, alive.
    pub open spec fn newborn(genes: Seq<Vec2>) -> Flight {
        Flight {
            pos: vec2_at(ROCKET_SPAWN_LOCATION.0 as int, ROCKET_SPAWN_LOCATION.1 as int),
            vel: vec2_at(0, 0),
            acc: vec2_at(0, 0),
            state: RocketState::Alive,
            genes,
        }
    }

    /// The rocket after `force` has acted on it for a frame: the force goes
    /// to the acceleration, the new acceleration to the velocity, the new
    /// velocity to the position, and the acceleration is spent.
    pub open spec fn pushed(self, force: Vec2) -> Flight {
        let acc = vec2_sum(self.acc, force);
        let vel = vec2_sum(self.vel, acc);
        let pos = vec2_sum(self.pos, vel);
        Flight { pos, vel, acc: vec2_at(0, 0), ..self }
    }

    /// The rocket can take the frame `frame` when it is at the target or not,
    /// and at a wall or not: if it is to move, it has a gene for the frame.
    pub open spec fn can_update(self, frame: int, at_target: bool, is_wall: bool) -> bool {
        self.state == RocketState::Alive && !at_target && !is_wall ==> 0 <= frame < self.genes.len()
    }

    /// The rocket after the frame `frame`. A rocket that is not alive stays
    /// as it is. A live one is completed if it is at the target, else crashed
    /// if it is at a wall, else pushed by its gene for the frame.
    pub open spec fn updated(self, frame: int, at_target: bool, is_wall: bool) -> Flight {
        if self.state != RocketState::Alive {
            self
        } else if at_target {
            Flight { state: RocketState::Completed, ..self }
        } else if is_wall {
            Flight { state: RocketState::Crashed, ..self }
        } else {
            self.pushed(self.genes[frame])
        }
    }
}

/// The autonomous agent that moves around the world.
pub struct Rocket {
    /// Position in the window.
    pub pos: Vec2,
    vel: Vec2,
    acc: Vec2,
    state: RocketState,
    dna: Dna,
}

impl View for Rocket {
    type V = Flight;

    closed spec fn view(&self) -> Flight {
        Flight { pos: self.pos, vel: self.vel, acc: self.acc, state: self.state, genes: self.dna@ }
    }
}

impl Clone for Rocket {
    /// A rocket in the same place and state, with the same genes.
    fn clone(&self) -> (copy: Rocket)
        ensures
            copy@ == self@,
    {
        Rocket {
            pos: self.pos,
            vel: self.vel,
            acc: self.acc,
            state: self.state,
            dna: self.dna.clone(),
        }
    }
}

impl Rocket {
    /// A rocket with a copy of `dna` at rest at the spawn point, alive.
    pub fn new(dna: &Dna) -> (rocket: Rocket)
        ensures
            rocket@ == Flight::newborn(dna@),
    {
        Rocket {
            pos: vec2_from(ROCKET_SPAWN_LOCATION.0, ROCKET_SPAWN_LOCATION.1),
            vel: vec2_from(0, 0),
            acc: vec2_from(0, 0),
            state: RocketState::Alive,
            dna: dna.clone(),
        }
    }

    /// Takes the rocket through the frame `frame_idx`, given whether it is
    /// within the target's radius and whether it is at a wall.
    pub fn update(&mut self, frame_idx: usize, at_target: bool, is_wall: bool)
        requires
            old(self)@.can_update(frame_idx as int, at_target, is_wall),
        ensures
            final(self)@ == old(self)@.updated(frame_idx as int, at_target, is_wall),
    {
        match self.state {
            RocketState::Alive => {},
            _ => {
                return ;
            },
        }
        if at_target {
            self.state = RocketState::Completed;
            return ;
        }
        if is_wall {
            self.state = RocketState::Crashed;
            return ;
        }
        let force = self.dna.get(frame_idx);
        self.apply_force(force);
    }

    /// The child of `first` and `second`: a newborn whose genes are crossed
    /// from the parents' at a point drawn at random, then mutated by `drift`.
    pub fn reproduce(first: &Rocket, second: &Rocket, drift: &Vec<Option<Vec2>>) -> (child: Rocket)
        requires
            0 < first@.genes.len() <= second@.genes.len() + 1,
        ensures
            exists|split: int|
                0 <= split < first@.genes.len() && child@ == Flight::newborn(
                    mutated(#[trigger] crossed(first@.genes, second@.genes, split), drift@),
                ),
    {
        let child_dna = Dna::crossover(&first.dna, &second.dna).mutate(drift);
        Rocket::new(&child_dna)
    }

    /// Where the rocket is in its life.
    pub fn state(&self) -> (state: RocketState)
        ensures
            state == self@.state,
    {
        self.state
    }

    /// The velocity.
    pub fn vel(&self) -> (vel: Vec2)
        ensures
            vel == self@.vel,
    {
        self.vel
    }

    /// The genes.
    pub fn dna(&self) -> (dna: &Dna)
        ensures
            dna@ == self@.genes,
    {
        &self.dna
    }

    /// Lets `force` act on the rocket for a frame.
    fn apply_force(&mut self, force: Vec2)
        ensures
            final(self)@ == old(self)@.pushed(force),
    {
        vec2_add_assign(&mut self.acc, force);
        vec2_add_assign(&mut self.vel, self.acc);
        vec2_add_assign(&mut self.pos, self.vel);
        self.acc = vec2_from(0, 0);
    }
}

/// A rocket that is at the target when a frame begins is completed by it,
/// whether it is at a wall or not, and stays where it is.
pub proof fn lemma_target_completes(rocket: Flight, frame: int, is_wall: bool)
    requires
        rocket.state == RocketState::Alive,
    ensures
        rocket.updated(frame, true, is_wall) == (Flight { state: RocketState::Completed, ..rocket }),
{
}

/// A rocket that is at a wall and not at the target when a frame begins is
/// crashed by it, and stays where it is.
pub proof fn lemma_wall_crashes(rocket: Flight, frame: int)
    requires
        rocket.state == RocketState::Alive,
    ensures
        rocket.updated(frame, false, true) == (Flight { state: RocketState::Crashed, ..rocket }),
{
}

/// A rocket that has crashed or completed is the same after any number of
/// further frames, whatever it meets in them.
pub proof fn lemma_terminal_stays(
    rocket: Flight,
    frame: int,
    at_target: bool,
    is_wall: bool,
    next_frame: int,
    next_at_target: bool,
    next_is_wall: bool,
)
    ensures
        rocket.state != RocketState::Alive ==> rocket.updated(frame, at_target, is_wall) == rocket,
        rocket.updated(frame, at_target, is_wall).state != RocketState::Alive ==> rocket.updated(
            frame,
            at_target,
            is_wall,
        ).updated(next_frame, next_at_target, next_is_wall) == rocket.updated(
            frame,
            at_target,
            is_wall,
        ),
{
}

} // verus!
