//! A generation of rockets, and how the next one comes out of it.

use vstd::prelude::*;
use nannou::glam::Vec2;
use crate::configs::{NUM_ROCKETS, ROCKET_LIFESPAN};
use crate::genetics::{crossed, mutated, Dna, Evolution, SelectionError};
use crate::rocket::{Flight, Rocket};
use crate::world::{Layout, Wall, WindowPoint, World};

verus! {

/// The record that the present generation was ranked and that parents can be
/// drawn by rank. The drawing itself is done where the ranks are kept.
#[derive(Clone, Copy, Debug, PartialEq, Eq, Structural)]
pub struct GenePool {
    /// The number of rockets that were ranked.
    pub ranked: usize,
}

/// What a rocket meets where it stands.
#[derive(Clone, Copy, Debug)]
pub struct Sighting {
    /// The rocket is within the target's radius.
    pub at_target: bool,
    /// Where the rocket is in the window.
    pub point: WindowPoint,
}

/// The making of one child.
pub struct Mating {
    /// The place of the first parent among the rockets.
    pub first: usize,
    /// The place of the second parent among the rockets.
    pub second: usize,
    /// What the child's genes take up after the parents' were crossed.
    pub drift: Vec<Option<Vec2>>,
}

/// What a population is at one moment.
pub struct Cohort {
    /// The rockets, in their order.
    pub agents: Seq<Flight>,
    /// The ranking of this generation, once there is one.
    pub gene_pool: Option<GenePool>,
}

impl Cohort {
    /// The first generation: a newborn for each genome, and no ranking.
    pub open spec fn founded(genomes: Seq<Dna>) -> Cohort {
        Cohort {
            agents: Seq::new(genomes.len(), |i: int| Flight::newborn(genomes[i]@)),
            gene_pool: None,
        }
    }

    /// The rockets are as many as a generation has, and each has a gene for
    /// every frame of a generation.
    pub open spec fn complete(self) -> bool {
        &&& self.agents.len() == NUM_ROCKETS
        &&& forall|i: int|
            0 <= i < self.agents.len() ==> (#[trigger] self.agents[i]).genes.len()
                == ROCKET_LIFESPAN
    }

    /// The population with `ranking` for its ranking, or with none.
    pub open spec fn selected(self, ranking: Option<GenePool>) -> Cohort {
        Cohort { gene_pool: ranking, ..self }
    }

    /// There is a sighting for each rocket, and each rocket can take the
    /// frame `frame` with its sighting.
    pub open spec fn can_update(self, frame: int, world: Layout, sightings: Seq<Sighting>) -> bool {
        &&& sightings.len() == self.agents.len()
        &&& forall|i: int|
            0 <= i < self.agents.len() ==> (#[trigger] self.agents[i]).can_update(
                frame,
                sightings[i].at_target,
                world.blocks(sightings[i].point),
            )
    }

    /// The population after the frame `frame`, in which each rocket met what
    /// its sighting says: it is at a wall if `world` has one at the place
    /// sighted.
    pub open spec fn updated(self, frame: int, world: Layout, sightings: Seq<Sighting>) -> Cohort {
        Cohort {
            agents: Seq::new(
                self.agents.len(),
                |i: int|
                    self.agents[i].updated(
                        frame,
                        sightings[i].at_target,
                        world.blocks(sightings[i].point),
                    ),
            ),
            ..self
        }
    }

    /// The parents of `mating` are rockets of the population that can be
    /// crossed.
    pub open spec fn can_mate(self, mating: Mating) -> bool {
        &&& mating.first < self.agents.len()
        &&& mating.second < self.agents.len()
        &&& 0 < self.agents[mating.first as int].genes.len()
            <= self.agents[mating.second as int].genes.len() + 1
    }

    /// `brood` suits this population: it makes as many children as a
    /// generation has rockets, each of parents that can be crossed.
    pub open spec fn suits(self, brood: Seq<Mating>) -> bool {
        &&& brood.len() == NUM_ROCKETS
        &&& forall|k: int| 0 <= k < brood.len() ==> self.can_mate(#[trigger] brood[k])
    }

    /// The population can breed by `brood`: if it has a ranking, the ranking
    /// is of the rockets that are there, and `brood` suits them.
    pub open spec fn can_breed(self, brood: Seq<Mating>) -> bool {
        match self.gene_pool {
            Some(pool) => pool.ranked == self.agents.len() && self.suits(brood),
            None => true,
        }
    }

    /// `child` is a newborn whose genes are those of the parents of `mating`,
    /// crossed at one of the places of the first parent's genes and then
    /// mutated by the drift of `mating`.
    pub open spec fn child_of(self, mating: Mating, child: Flight) -> bool {
        exists|split: int|
            0 <= split < self.agents[mating.first as int].genes.len() && child == Flight::newborn(
                mutated(
                    #[trigger] crossed(
                        self.agents[mating.first as int].genes,
                        self.agents[mating.second as int].genes,
                        split,
                    ),
                    mating.drift@,
                ),
            )
    }

    /// `next` comes after this population by `brood`: it is this population
    /// itself if there is no ranking; else it has the same ranking and, for
    /// each mating of `brood`, in order, a child of it.
    pub open spec fn bred(self, brood: Seq<Mating>, next: Cohort) -> bool {
        if self.gene_pool is None {
            next == self
        } else {
            &&& next.gene_pool == self.gene_pool
            &&& next.agents.len() == brood.len()
            &&& forall|k: int|
                0 <= k < brood.len() ==> self.child_of(brood[k], #[trigger] next.agents[k])
        }
    }
}

/// A group of rockets that live and are replaced together.
pub struct Population {
    agents: Vec<Rocket>,
    gene_pool: Option<GenePool>,
}

impl View for Population {
    type V = Cohort;

    closed spec fn view(&self) -> Cohort {
        Cohort {
            agents: Seq::new(self.agents@.len(), |i: int| self.agents@[i]@),
            gene_pool: self.gene_pool,
        }
    }
}

impl Population {
    /// The first generation: a rocket for each genome of `genomes`, of which
    /// there are as many as a generation has rockets.
    pub fn new(genomes: &Vec<Dna>) -> (population: Population)
        requires
            genomes@.len() == NUM_ROCKETS,
        ensures
            population@ == Cohort::founded(genomes@),
    {
        Population::initialize(genomes)
    }

    /// Takes every rocket through the frame `frame_idx`. Rocket number `i`
    /// meets what `sightings[i]` says.
    pub fn update(&mut self, frame_idx: usize, world: &World, sightings: &Vec<Sighting>)
        requires
            old(self)@.can_update(frame_idx as int, world@, sightings@),
        ensures
            final(self)@ == old(self)@.updated(frame_idx as int, world@, sightings@),
    {
        let ghost before = self@;
        let mut i: usize = 0;
        while i < self.agents.len()
            invariant
                i <= self.agents@.len(),
                self.agents@.len() == before.agents.len(),
                self.gene_pool == before.gene_pool,
                before.can_update(frame_idx as int, world@, sightings@),
                forall|j: int|
                    0 <= j < i ==> (#[trigger] self.agents@[j])@ == before.agents[j].updated(
                        frame_idx as int,
                        sightings@[j].at_target,
                        world@.blocks(sightings@[j].point),
                    ),
                forall|j: int|
                    i <= j < self.agents@.len() ==> (#[trigger] self.agents@[j])@
                        == before.agents[j],
            decreases self.agents@.len() - i,
        {
            let sighting = &sightings[i];
            let is_wall = world.is_wall(&sighting.point);
            assert(before.agents[i as int].can_update(
                frame_idx as int,
                sightings@[i as int].at_target,
                world@.blocks(sightings@[i as int].point),
            ));
            self.agents[i].update(frame_idx, sighting.at_target, is_wall);
            i += 1;
        }
        assert(self@.agents =~= before.updated(frame_idx as int, world@, sightings@).agents);
    }

    /// The rockets, in their order.
    pub fn agents(&self) -> (agents: &Vec<Rocket>)
        ensures
            agents@.len() == self@.agents.len(),
            forall|i: int| 0 <= i < agents@.len() ==> (#[trigger] agents@[i])@ == self@.agents[i],
    {
        &self.agents
    }

    /// Whether the rockets are as many as a generation has, each with a gene
    /// for every frame.
    pub fn complete(&self) -> (ok: bool)
        ensures
            ok == self@.complete(),
    {
        if self.agents.len() != NUM_ROCKETS as usize {
            return false;
        }
        let mut i: usize = 0;
        while i < self.agents.len()
            invariant
                i <= self.agents@.len(),
                forall|j: int| 0 <= j < i ==> (#[trigger] self@.agents[j]).genes.len() == ROCKET_LIFESPAN,
            decreases self.agents@.len() - i,
        {
            if self.agents[i].dna().len() != ROCKET_LIFESPAN {
                assert(self@.agents[i as int].genes.len() != ROCKET_LIFESPAN);
                return false;
            }
            i += 1;
        }
        true
    }

    /// Whether `brood` suits this population.
    pub fn suits(&self, brood: &Vec<Mating>) -> (ok: bool)
        ensures
            ok == self@.suits(brood@),
    {
        if brood.len() != NUM_ROCKETS as usize {
            return false;
        }
        let mut k: usize = 0;
        while k < brood.len()
            invariant
                k <= brood.len(),
                forall|j: int| 0 <= j < k ==> self@.can_mate(#[trigger] brood@[j]),
            decreases brood.len() - k,
        {
            let mating = &brood[k];
            if mating.first >= self.agents.len() || mating.second >= self.agents.len() {
                assert(!self@.can_mate(brood@[k as int]));
                return false;
            }
            let first = self.agents[mating.first].dna().len();
            let second = self.agents[mating.second].dna().len();
            if first == 0 || first - 1 > second {
                assert(!self@.can_mate(brood@[k as int]));
                return false;
            }
            k += 1;
        }
        true
    }

    /// The ranking of this generation, if there is one.
    pub fn gene_pool(&self) -> (pool: Option<GenePool>)
        ensures
            pool == self@.gene_pool,
    {
        self.gene_pool
    }
}

impl Evolution for Population {
    type Seed = Vec<Dna>;

    type Ranking = Option<GenePool>;

    type Brood = Vec<Mating>;

    /// There is a genome for each rocket of a generation.
    open spec fn can_found(seed: &Vec<Dna>) -> bool {
        seed@.len() == NUM_ROCKETS
    }

    open spec fn can_breed(&self, brood: &Vec<Mating>) -> bool {
        self@.can_breed(brood@)
    }

    /// The first generation: a newborn rocket for each genome of `seed`, in
    /// order, and no ranking yet.
    fn initialize(seed: &Vec<Dna>) -> (first: Population)
        ensures
            first@ == Cohort::founded(seed@),
    {
        let mut rockets: Vec<Rocket> = Vec::new();
        let mut i: usize = 0;
        while i < seed.len()
            invariant
                i <= seed.len(),
                rockets@.len() == i,
                forall|j: int| 0 <= j < i ==> (#[trigger] rockets@[j])@ == Flight::newborn(seed@[j]@),
            decreases seed.len() - i,
        {
            rockets.push(Rocket::new(&seed[i]));
            i += 1;
        }
        let first = Population { agents: rockets, gene_pool: None };
        assert(first@.agents =~= Cohort::founded(seed@).agents);
        first
    }

    /// Takes note of how the present generation was ranked: `ranking` is the
    /// ranking, or nothing if the rockets' fitness allowed none. Then no
    /// ranking is kept, and the selection has failed. The rockets stay as
    /// they are.
    fn selection(&mut self, ranking: Option<GenePool>) -> (done: Result<(), SelectionError>)
        ensures
            final(self)@ == old(self)@.selected(ranking),
            done == if ranking is Some {
                Ok::<(), SelectionError>(())
            } else {
                Err::<(), SelectionError>(SelectionError::NoRanking)
            },
    {
        self.gene_pool = ranking;
        match ranking {
            Some(_) => Ok(()),
            None => Err(SelectionError::NoRanking),
        }
    }

    /// Replaces the rockets by the children that `brood` asks for, if the
    /// generation has a ranking; without one, nothing changes.
    fn reproduction(&mut self, brood: &Vec<Mating>)
        ensures
            old(self)@.bred(brood@, final(self)@),
    {
        if self.gene_pool.is_none() {
            return ;
        }
        let ghost before = self@;
        let mut new_population: Vec<Rocket> = Vec::new();
        let mut k: usize = 0;
        while k < brood.len()
            invariant
                k <= brood.len(),
                new_population@.len() == k,
                self@ == before,
                before.can_breed(brood@),
                before.gene_pool is Some,
                forall|j: int|
                    0 <= j < k ==> before.child_of(brood@[j], (#[trigger] new_population@[j])@),
            decreases brood.len() - k,
        {
            let mating = &brood[k];
            assert(before.can_mate(brood@[k as int]));
            let first = &self.agents[mating.first];
            let second = &self.agents[mating.second];
            assert(first@ == before.agents[mating.first as int]);
            assert(second@ == before.agents[mating.second as int]);
            let child = Rocket::reproduce(first, second, &mating.drift);
            new_population.push(child);
            k += 1;
        }
        self.agents = new_population;
    }
}

/// Reproduction in a population that was never ranked changes nothing: the
/// first generation comes out of it as it went in.
pub proof fn lemma_unranked_stays(genomes: Seq<Dna>, brood: Seq<Mating>, next: Cohort)
    requires
        Cohort::founded(genomes).bred(brood, next),
    ensures
        next == Cohort::founded(genomes),
        Cohort::founded(genomes).can_breed(brood),
{
}

/// Reproduction after a selection that failed changes nothing either.
pub proof fn lemma_failed_selection_stays(cohort: Cohort, brood: Seq<Mating>, next: Cohort)
    requires
        cohort.selected(None).bred(brood, next),
    ensures
        next == cohort.selected(None),
        next.agents == cohort.agents,
{
}

/// A generation that was ranked is followed by one of as many rockets as the
/// brood has matings, all of them newborn.
pub proof fn lemma_bred_are_newborn(cohort: Cohort, brood: Seq<Mating>, next: Cohort, k: int)
    requires
        cohort.gene_pool is Some,
        cohort.can_breed(brood),
        cohort.bred(brood, next),
        0 <= k < next.agents.len(),
    ensures
        next.agents.len() == NUM_ROCKETS,
        next.agents[k] == Flight::newborn(next.agents[k].genes),
        next.agents[k].genes.len() == cohort.agents[brood[k].second as int].genes.len(),
{
    assert(cohort.child_of(brood[k], next.agents[k]));
}

} // verus!
