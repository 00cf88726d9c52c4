//! The controller: it counts the frames and the generations, and at the
//! start of each cycle of frames has the population ranked and replaced.

use vstd::prelude::*;
use crate::configs::{NUM_ROCKETS, ROCKET_LIFESPAN};
use crate::genetics::{Dna, Evolution};
use crate::population::{Cohort, GenePool, Mating, Population, Sighting};
use crate::rocket::Flight;
use crate::world::{layout_of, Layout, World};

verus! {

/// What a frame takes from outside the simulation: the things that are
/// measured on the rockets' positions or drawn by chance.
pub struct Supply {
    /// The ranking of the rockets as they stand, or nothing if their fitness
    /// allows none. It is looked at when a generation ends.
    pub ranking: Option<GenePool>,
    /// The matings that make the next generation, drawn by that ranking. They
    /// are looked at when a generation is replaced.
    pub brood: Vec<Mating>,
    /// What each rocket meets where it stands, in the rockets' order.
    pub sightings: Vec<Sighting>,
    /// What a rocket meets at the spawn point. It stands for every rocket of
    /// a generation that begins in this frame.
    pub newcomer: Sighting,
}

/// What a simulation is at one moment.
pub struct Course {
    /// The number of generations that have begun.
    pub generation_count: u32,
    /// The frame of the present generation.
    pub frame_idx: usize,
    /// The rockets.
    pub population: Cohort,
    /// The world.
    pub world: Layout,
}

impl Course {
    /// The frame is one of a generation's, and the population is complete.
    pub open spec fn wf(self) -> bool {
        self.frame_idx < ROCKET_LIFESPAN && self.population.complete()
    }

    /// The simulation after the present generation was ended with `ranking`.
    /// Before the first generation there is nothing to end; later the frame
    /// goes back to 0 and the population takes note of the ranking.
    pub open spec fn ended(self, ranking: Option<GenePool>) -> Course {
        if self.generation_count == 0 {
            self
        } else {
            Course { frame_idx: 0, population: self.population.selected(ranking), ..self }
        }
    }

    /// `next` is the simulation after a new generation was started with
    /// `brood`: one generation more is counted, and the population has bred.
    pub open spec fn started(self, brood: Seq<Mating>, next: Course) -> bool {
        &&& next.generation_count == self.generation_count + 1
        &&& next.frame_idx == self.frame_idx
        &&& next.world == self.world
        &&& self.population.bred(brood, next.population)
    }

    /// `next` is the simulation after what the start of a frame asks for: at
    /// frame 0 the present generation is ended and a new one started, at any
    /// other frame nothing is done.
    pub open spec fn turned(self, supply: Supply, next: Course) -> bool {
        if self.frame_idx == 0 {
            self.ended(supply.ranking).started(supply.brood@, next)
        } else {
            next == self
        }
    }

    /// This frame ends a generation, so that the ranking of `supply` is
    /// looked at: it is frame 0, and a generation has begun before.
    pub open spec fn ranks(self) -> bool {
        self.frame_idx == 0 && self.generation_count != 0
    }

    /// This frame replaces the rockets: it is frame 0, and when the present
    /// generation has ended there is a ranking.
    pub open spec fn replaces(self, supply: Supply) -> bool {
        self.frame_idx == 0 && self.ended(supply.ranking).population.gene_pool is Some
    }

    /// What the rockets meet in this frame: the newcomer's sighting each if
    /// they are replaced in it, their own sightings if not.
    pub open spec fn sensed(self, supply: Supply) -> Seq<Sighting> {
        if self.replaces(supply) {
            Seq::new(supply.brood@.len(), |i: int| supply.newcomer)
        } else {
            supply.sightings@
        }
    }

    /// The simulation after the frame was advanced and the rockets were
    /// taken through the new frame, meeting `sightings`.
    pub open spec fn flown(self, sightings: Seq<Sighting>) -> Course {
        let frame = ((self.frame_idx + 1) % (ROCKET_LIFESPAN as int)) as usize;
        Course {
            frame_idx: frame,
            population: self.population.updated(frame as int, self.world, sightings),
            ..self
        }
    }

    /// The simulation can take a frame with `supply`: it is well formed; if a
    /// generation is to start, it can be counted and `supply` can breed it;
    /// and if the rockets stay, there is a sighting for each.
    pub open spec fn can_step(self, supply: Supply) -> bool {
        &&& self.wf()
        &&& self.frame_idx == 0 ==> self.generation_count < u32::MAX
        &&& self.frame_idx == 0 ==> self.ended(supply.ranking).population.can_breed(supply.brood@)
        &&& !self.replaces(supply) ==> supply.sightings@.len() == self.population.agents.len()
    }

    /// `next` is the simulation one frame on: first what the start of the
    /// frame asks for, then the flight.
    pub open spec fn stepped(self, supply: Supply, next: Course) -> bool {
        exists|turn: Course| #[trigger]
            self.turned(supply, turn) && next == turn.flown(self.sensed(supply))
    }
}

/// The state of the whole simulation.
pub struct Simulation {
    /// The number of generations that have begun.
    pub generation_count: u32,
    frame_idx: usize,
    population: Population,
    world: World,
}

impl View for Simulation {
    type V = Course;

    closed spec fn view(&self) -> Course {
        Course {
            generation_count: self.generation_count,
            frame_idx: self.frame_idx,
            population: self.population@,
            world: self.world@,
        }
    }
}

impl Simulation {
    /// A simulation that has not begun: no generation counted, a rocket for
    /// each genome of `genomes`, and the world that the map `map` describes.
    /// There is a genome for each rocket of a generation, with a gene for
    /// each frame.
    pub fn new(genomes: &Vec<Dna>, map: &str) -> (simulation: Simulation)
        requires
            genomes@.len() == NUM_ROCKETS,
            forall|i: int| 0 <= i < genomes@.len() ==> (#[trigger] genomes@[i])@.len() == ROCKET_LIFESPAN,
        ensures
            simulation@ == (Course {
                generation_count: 0,
                frame_idx: 0,
                population: Cohort::founded(genomes@),
                world: layout_of(map@),
            }),
            simulation@.wf(),
    {
        Simulation {
            generation_count: 0,
            frame_idx: 0,
            population: Population::new(genomes),
            world: World::new(map),
        }
    }

    /// Takes the simulation through one frame.
    pub fn update(&mut self, supply: &Supply)
        requires
            old(self)@.can_step(*supply),
        ensures
            old(self)@.stepped(*supply, final(self)@),
            final(self)@.wf(),
    {
        let ghost before = self@;
        let at_start = self.frame_idx == 0;
        if at_start {
            self.end_current_generation(supply.ranking);
            self.start_new_generation(&supply.brood);
        }
        let ghost turn = self@;
        assert(before.turned(*supply, turn));
        let replaced = at_start && self.population.gene_pool().is_some();
        assert(replaced == before.replaces(*supply));
        proof {
            if replaced {
                assert forall|i: int| 0 <= i < turn.population.agents.len() implies (
                #[trigger] turn.population.agents[i]).genes.len() == ROCKET_LIFESPAN by {
                    let ended = before.ended(supply.ranking);
                    assert(ended.population.child_of(supply.brood@[i], turn.population.agents[i]));
                    assert(ended.population.can_mate(supply.brood@[i]));
                }
            }
        }
        self.frame_idx = (self.frame_idx + 1) % ROCKET_LIFESPAN;
        if replaced {
            let mut sightings: Vec<Sighting> = Vec::new();
            let mut i: usize = 0;
            while i < supply.brood.len()
                invariant
                    i <= supply.brood@.len(),
                    sightings@ == Seq::new(i as nat, |k: int| supply.newcomer),
                decreases supply.brood@.len() - i,
            {
                sightings.push(supply.newcomer);
                i += 1;
            }
            self.population.update(self.frame_idx, &self.world, &sightings);
        } else {
            self.population.update(self.frame_idx, &self.world, &supply.sightings);
        }
        assert(self@ == turn.flown(before.sensed(*supply)));
    }

    /// Whether the simulation can take a frame with `supply`.
    pub fn accepts(&self, supply: &Supply) -> (ok: bool)
        ensures
            ok == self@.can_step(*supply),
    {
        if self.frame_idx >= ROCKET_LIFESPAN || !self.population.complete() {
            return false;
        }
        if self.frame_idx != 0 {
            return supply.sightings.len() == self.population.agents().len();
        }
        if self.generation_count == u32::MAX {
            return false;
        }
        let pool = if self.generation_count == 0 {
            self.population.gene_pool()
        } else {
            supply.ranking
        };
        match pool {
            None => supply.sightings.len() == self.population.agents().len(),
            Some(pool) => pool.ranked == self.population.agents().len() && self.population.suits(
                &supply.brood,
            ),
        }
    }

    /// Whether the next frame ends a generation and so looks at a ranking.
    pub fn ranks(&self) -> (due: bool)
        ensures
            due == self@.ranks(),
    {
        self.frame_idx == 0 && self.generation_count != 0
    }

    /// The frame of the present generation.
    pub fn frame_idx(&self) -> (frame: usize)
        ensures
            frame == self@.frame_idx,
    {
        self.frame_idx
    }

    /// The rockets.
    pub fn population(&self) -> (population: &Population)
        ensures
            population@ == self@.population,
    {
        &self.population
    }

    /// The world.
    pub fn world(&self) -> (world: &World)
        ensures
            world@ == self@.world,
    {
        &self.world
    }

    /// Counts one generation more and has the population breed.
    fn start_new_generation(&mut self, brood: &Vec<Mating>)
        requires
            old(self)@.generation_count < u32::MAX,
            old(self)@.population.can_breed(brood@),
        ensures
            old(self)@.started(brood@, final(self)@),
    {
        self.generation_count += 1;
        self.population.reproduction(brood);
    }

    /// Ends the present generation, if there is one: the frame goes back to
    /// 0 and the population takes note of `ranking`.
    fn end_current_generation(&mut self, ranking: Option<GenePool>)
        ensures
            final(self)@ == old(self)@.ended(ranking),
    {
        if self.generation_count == 0 {
            return ;
        }
        self.frame_idx = 0;
        let _ = self.population.selection(ranking);
    }
}

/// A frame moves the frame index one on, round the generation; it counts a
/// generation more if and only if it began at frame 0; it leaves the world
/// as it is and the rockets as many as a generation has.
pub proof fn lemma_stepped(course: Course, supply: Supply, next: Course)
    requires
        course.can_step(supply),
        course.stepped(supply, next),
    ensures
        next.frame_idx == (course.frame_idx + 1) % (ROCKET_LIFESPAN as int),
        next.generation_count == course.generation_count + if course.frame_idx == 0 {
            1int
        } else {
            0int
        },
        next.world == course.world,
        next.population.agents.len() == NUM_ROCKETS,
{
    let turn = choose|turn: Course| #[trigger]
        course.turned(supply, turn) && next == turn.flown(course.sensed(supply));
    assert(course.turned(supply, turn));
}

/// A frame that replaces the rockets leaves newborns that have met what a
/// newcomer meets: none of them has moved if the newcomer is at the target
/// or at a wall.
pub proof fn lemma_replaced_are_newborn(course: Course, supply: Supply, next: Course, k: int)
    requires
        course.can_step(supply),
        course.replaces(supply),
        course.stepped(supply, next),
        0 <= k < next.population.agents.len(),
    ensures
        exists|genes: Seq<nannou::glam::Vec2>| #[trigger]
            Flight::newborn(genes).updated(
                1,
                supply.newcomer.at_target,
                course.world.blocks(supply.newcomer.point),
            ) == next.population.agents[k],
{
    let turn = choose|turn: Course| #[trigger]
        course.turned(supply, turn) && next == turn.flown(course.sensed(supply));
    assert(course.turned(supply, turn));
    let ended = course.ended(supply.ranking);
    assert(ended.population.child_of(supply.brood@[k], turn.population.agents[k]));
    let child = turn.population.agents[k];
    assert(child == Flight::newborn(child.genes));
    assert(next.population.agents[k] == Flight::newborn(child.genes).updated(
        1,
        supply.newcomer.at_target,
        course.world.blocks(supply.newcomer.point),
    ));
}

} // verus!
