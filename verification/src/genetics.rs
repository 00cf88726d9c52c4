//! The genome of a rocket and the two operators that make a child's genome
//! from its parents'.

use vstd::prelude::*;
use nannou::glam::Vec2;
use crate::vector::{vec2_add_assign, vec2_sum};

verus! {

/// A way to make a new individual from two parents.
pub trait Reproduction: Sized {
    /// What decides a mutation: drawn by the caller, applied by `mutate`.
    type Drift;

    /// The two parents can be crossed.
    spec fn fertile(first: &Self, second: &Self) -> bool;

    /// A child that takes after `first` up to a point drawn at random, and
    /// after `second` from there on.
    fn crossover(first: &Self, second: &Self) -> (child: Self)
        requires
            Self::fertile(first, second),
    ;

    /// A copy of `self` to which `drift` was applied.
    fn mutate(&self, drift: &Self::Drift) -> (mutant: Self);
}

/// Why a selection has failed.
#[derive(Clone, Copy, Debug, PartialEq, Eq, Structural)]
pub enum SelectionError {
    /// The fitness of the generation allows no ranking, as when it is zero
    /// for every individual.
    NoRanking,
}

/// The way in which a population changes from generation to generation.
pub trait Evolution: Sized {
    /// What a first generation is made from.
    type Seed;

    /// What a generation's ranking comes to.
    type Ranking;

    /// What the next generation is to be made by.
    type Brood;

    /// A first generation can be made from `seed`.
    spec fn can_found(seed: &Self::Seed) -> bool;

    /// The population can be replaced by the children that `brood` asks for.
    spec fn can_breed(&self, brood: &Self::Brood) -> bool;

    /// The first generation.
    fn initialize(seed: &Self::Seed) -> (first: Self)
        requires
            Self::can_found(seed),
    ;

    /// Takes note of how the present generation was ranked, and fails if it
    /// could not be ranked.
    fn selection(&mut self, ranking: Self::Ranking) -> (done: Result<(), SelectionError>);

    /// Replaces the present generation by its children.
    fn reproduction(&mut self, brood: &Self::Brood)
        requires
            old(self).can_breed(brood),
    ;
}

/// The genes of a rocket: the force that drives it in each frame of its life.
pub struct Dna {
    genes: Vec<Vec2>,
}

impl View for Dna {
    type V = Seq<Vec2>;

    closed spec fn view(&self) -> Seq<Vec2> {
        self.genes@
    }
}

/// The genes of a child that has the first `split` genes of `first` and the
/// genes of `second` from `split` on.
pub open spec fn crossed(first: Seq<Vec2>, second: Seq<Vec2>, split: int) -> Seq<Vec2> {
    first.take(split) + second.skip(split)
}

/// The gene that `gene` becomes under `change`: its sum with the change, if
/// there is one.
pub open spec fn drifted(gene: Vec2, change: Option<Vec2>) -> Vec2 {
    match change {
        Some(delta) => vec2_sum(gene, delta),
        None => gene,
    }
}

/// The genes that `genes` become under `drift`, gene by gene. A gene for
/// which `drift` has no entry stays as it is.
pub open spec fn mutated(genes: Seq<Vec2>, drift: Seq<Option<Vec2>>) -> Seq<Vec2> {
    Seq::new(
        genes.len(),
        |i: int|
            if i < drift.len() {
                drifted(genes[i], drift[i])
            } else {
                genes[i]
            },
    )
}

/// Calls `random_range(0, n)`, which draws from the thread's generator a
/// number that is at least 0 and less than `n`. It panics for `n == 0`.
#[verifier::external_body]
fn random_below(n: usize) -> (drawn: usize)
    requires
        n > 0,
    ensures
        drawn < n,
{
    nannou::rand::random_range(0, n)
}

impl Dna {
    /// A genome with a copy of `genes`, whatever their number.
    pub fn new(genes: &Vec<Vec2>) -> (dna: Dna)
        ensures
            dna@ == genes@,
    {
        let mut copy: Vec<Vec2> = Vec::new();
        let mut i: usize = 0;
        while i < genes.len()
            invariant
                i <= genes.len(),
                copy@ == genes@.take(i as int),
            decreases genes.len() - i,
        {
            copy.push(genes[i]);
            i += 1;
        }
        Dna { genes: copy }
    }

    /// The number of genes.
    pub fn len(&self) -> (n: usize)
        ensures
            n == self@.len(),
    {
        self.genes.len()
    }

    /// The gene at `index`.
    pub fn get(&self, index: usize) -> (gene: Vec2)
        requires
            index < self@.len(),
        ensures
            gene == self@[index as int],
    {
        self.genes[index]
    }

    /// The child of `first` and `second` for the split point `split`: the
    /// first `split` genes are `first`'s, the others are `second`'s, each at
    /// the place it had in its parent.
    pub fn crossover_at(first: &Dna, second: &Dna, split: usize) -> (child: Dna)
        requires
            split <= first@.len(),
            split <= second@.len(),
        ensures
            child@ == crossed(first@, second@, split as int),
    {
        let mut genes: Vec<Vec2> = Vec::new();
        let mut i: usize = 0;
        while i < split
            invariant
                i <= split <= first.genes@.len(),
                genes@ == first.genes@.take(i as int),
            decreases split - i,
        {
            genes.push(first.genes[i]);
            i += 1;
        }
        while i < second.genes.len()
            invariant
                split <= i <= second.genes@.len(),
                split <= first.genes@.len(),
                genes@ == first.genes@.take(split as int) + second.genes@.subrange(
                    split as int,
                    i as int,
                ),
            decreases second.genes.len() - i,
        {
            genes.push(second.genes[i]);
            i += 1;
        }
        Dna { genes }
    }
}

impl Clone for Dna {
    /// A genome with the same genes.
    fn clone(&self) -> (copy: Dna)
        ensures
            copy@ == self@,
    {
        Dna::new(&self.genes)
    }
}

impl Reproduction for Dna {
    type Drift = Vec<Option<Vec2>>;

    /// `first` has a gene, and `second` has at most one gene less.
    open spec fn fertile(first: &Dna, second: &Dna) -> bool {
        0 < first@.len() <= second@.len() + 1
    }

    /// The child of `first` and `second` for a split point that is drawn at
    /// random among the places of `first`'s genes.
    fn crossover(first: &Dna, second: &Dna) -> (child: Dna)
        ensures
            exists|split: int|
                0 <= split < first@.len() && child@ == #[trigger] crossed(first@, second@, split),
    {
        let split = random_below(first.genes.len());
        Dna::crossover_at(first, second, split)
    }

    /// The genome in which each gene has taken up what `drift` holds for it.
    fn mutate(&self, drift: &Vec<Option<Vec2>>) -> (mutant: Dna)
        ensures
            mutant@ == mutated(self@, drift@),
    {
        let mut genes: Vec<Vec2> = Vec::new();
        let mut i: usize = 0;
        while i < self.genes.len()
            invariant
                i <= self.genes@.len(),
                genes@ == mutated(self.genes@, drift@).take(i as int),
            decreases self.genes.len() - i,
        {
            let mut gene = self.genes[i];
            if i < drift.len() {
                match drift[i] {
                    Some(delta) => {
                        vec2_add_assign(&mut gene, delta);
                    },
                    None => {},
                }
            }
            genes.push(gene);
            i += 1;
        }
        Dna { genes }
    }
}

/// A crossed genome is as long as the second parent's; up to the split point
/// its genes are the first parent's, from there on the second parent's.
pub proof fn lemma_crossed(first: Seq<Vec2>, second: Seq<Vec2>, split: int)
    requires
        0 <= split <= first.len(),
        split <= second.len(),
    ensures
        crossed(first, second, split).len() == second.len(),
        forall|i: int| 0 <= i < split ==> crossed(first, second, split)[i] == first[i],
        forall|i: int| split <= i < second.len() ==> crossed(first, second, split)[i] == second[i],
{
}

/// A split at 0 gives the second parent's genome, a split at the end of
/// genomes of one length gives the first parent's.
pub proof fn lemma_crossed_at_ends(first: Seq<Vec2>, second: Seq<Vec2>)
    requires
        first.len() == second.len(),
    ensures
        crossed(first, second, 0) == second,
        crossed(first, second, first.len() as int) == first,
{
    assert(crossed(first, second, 0) =~= second);
    assert(crossed(first, second, first.len() as int) =~= first);
}

/// Mutation keeps the number of genes, whatever the drift.
pub proof fn lemma_mutated_len(genes: Seq<Vec2>, drift: Seq<Option<Vec2>>)
    ensures
        mutated(genes, drift).len() == genes.len(),
{
}

} // verus!
