use genetic_rockets::{
    Dna, Evolution, GenePool, Mating, Population, Rocket, RocketState, SelectionError, Sighting,
    WindowPoint, World, NUM_ROCKETS,
};
use nannou::glam::Vec2;

const COUNT: usize = NUM_ROCKETS as usize;

fn genome(x: f32, count: usize) -> Dna {
    Dna::new(&vec![Vec2::new(x, 1.0); count])
}

fn genes_of(dna: &Dna) -> Vec<Vec2> {
    (0..dna.len()).map(|i| dna.get(i)).collect()
}

fn free() -> Sighting {
    Sighting { at_target: false, point: WindowPoint { outside: false, cell: (0, 0) } }
}

fn snapshot(agents: &Vec<Rocket>) -> Vec<(Vec2, Vec2, RocketState, Vec<Vec2>)> {
    agents.iter().map(|r| (r.pos, r.vel(), r.state(), genes_of(r.dna()))).collect()
}

/// Rocket `i` has three genes `(i % 4 + 1, 1)`.
fn cohort() -> Population {
    let genomes: Vec<Dna> = (0..COUNT).map(|i| genome((i % 4 + 1) as f32, 3)).collect();
    Population::new(&genomes)
}

#[test]
fn the_first_generation_has_a_newborn_for_each_genome() {
    let population = cohort();
    assert_eq!(population.agents().len(), COUNT);
    assert_eq!(population.gene_pool(), None);
    for (i, rocket) in population.agents().iter().enumerate() {
        assert_eq!(rocket.pos, Vec2::new(-350.0, 0.0));
        assert_eq!(rocket.vel(), Vec2::ZERO);
        assert_eq!(rocket.state(), RocketState::Alive);
        assert_eq!(genes_of(rocket.dna()), vec![Vec2::new((i % 4 + 1) as f32, 1.0); 3]);
    }
}

#[test]
fn initialize_is_what_new_does() {
    let genomes: Vec<Dna> = (0..COUNT).map(|i| genome(i as f32, 2)).collect();
    let population = Population::initialize(&genomes);
    assert_eq!(population.agents().len(), COUNT);
    assert_eq!(population.gene_pool(), None);
    assert_eq!(snapshot(population.agents()), snapshot(Population::new(&genomes).agents()));
}

#[test]
fn each_rocket_meets_its_own_sighting() {
    let world = World::new("111\n101\n111");
    let mut population = cohort();
    let mut sightings = vec![free(); COUNT];
    sightings[0] = Sighting { at_target: true, point: WindowPoint { outside: true, cell: (0, 0) } };
    sightings[1] = Sighting { at_target: false, point: WindowPoint { outside: true, cell: (0, 0) } };
    sightings[2] = Sighting { at_target: false, point: WindowPoint { outside: false, cell: (1, 1) } };
    sightings[3] = Sighting { at_target: false, point: WindowPoint { outside: false, cell: (2, 1) } };
    population.update(0, &world, &sightings);
    let agents = population.agents();
    assert_eq!(agents[0].state(), RocketState::Completed);
    assert_eq!(agents[1].state(), RocketState::Crashed);
    assert_eq!(agents[2].state(), RocketState::Crashed);
    assert_eq!(agents[3].state(), RocketState::Alive);
    assert_eq!(agents[0].pos, Vec2::new(-350.0, 0.0));
    assert_eq!(agents[1].pos, Vec2::new(-350.0, 0.0));
    assert_eq!(agents[2].pos, Vec2::new(-350.0, 0.0));
    assert_eq!(agents[3].pos, Vec2::new(-346.0, 1.0));
    for (i, rocket) in agents.iter().enumerate().skip(4) {
        assert_eq!(rocket.state(), RocketState::Alive);
        assert_eq!(rocket.pos, Vec2::new(-350.0 + (i % 4 + 1) as f32, 1.0));
    }
}

#[test]
fn selection_takes_note_of_the_ranking() {
    let mut population = cohort();
    let before = snapshot(population.agents());
    assert_eq!(population.selection(Some(GenePool { ranked: COUNT })), Ok(()));
    assert_eq!(population.gene_pool(), Some(GenePool { ranked: COUNT }));
    assert_eq!(snapshot(population.agents()), before);
}

#[test]
fn selection_without_a_ranking_fails_and_keeps_none() {
    let mut population = cohort();
    let before = snapshot(population.agents());
    assert_eq!(population.selection(None), Err(SelectionError::NoRanking));
    assert_eq!(population.gene_pool(), None);
    assert_eq!(population.selection(Some(GenePool { ranked: COUNT })), Ok(()));
    assert_eq!(population.selection(None), Err(SelectionError::NoRanking));
    assert_eq!(population.gene_pool(), None);
    assert_eq!(snapshot(population.agents()), before);
}

#[test]
fn reproduction_without_selection_changes_nothing() {
    let world = World::new("1");
    let mut population = cohort();
    population.update(0, &world, &vec![free(); COUNT]);
    population.update(1, &world, &vec![free(); COUNT]);
    let before = snapshot(population.agents());
    population.reproduction(&vec![]);
    assert_eq!(snapshot(population.agents()), before);
    assert_eq!(population.gene_pool(), None);
    let brood: Vec<Mating> =
        (0..COUNT).map(|_| Mating { first: 0, second: 1, drift: vec![] }).collect();
    population.reproduction(&brood);
    assert_eq!(snapshot(population.agents()), before);
    assert_eq!(population.agents().len(), COUNT);
}

#[test]
fn reproduction_after_a_failed_selection_changes_nothing() {
    let mut population = cohort();
    let _ = population.selection(Some(GenePool { ranked: COUNT }));
    let _ = population.selection(None);
    let before = snapshot(population.agents());
    population.reproduction(&vec![]);
    assert_eq!(snapshot(population.agents()), before);
}

#[test]
fn reproduction_replaces_the_rockets_by_children() {
    let world = World::new("1");
    let mut population = cohort();
    population.update(0, &world, &vec![free(); COUNT]);
    let _ = population.selection(Some(GenePool { ranked: COUNT }));
    let brood: Vec<Mating> = (0..COUNT)
        .map(|k| Mating {
            first: k % 4,
            second: (k + 1) % 4,
            drift: vec![None, None, Some(Vec2::new(0.5, 0.5))],
        })
        .collect();
    assert!(population.suits(&brood));
    population.reproduction(&brood);
    assert_eq!(population.agents().len(), COUNT);
    assert_eq!(population.gene_pool(), Some(GenePool { ranked: COUNT }));
    for (k, child) in population.agents().iter().enumerate() {
        assert_eq!(child.pos, Vec2::new(-350.0, 0.0));
        assert_eq!(child.vel(), Vec2::ZERO);
        assert_eq!(child.state(), RocketState::Alive);
        let first = (k % 4 + 1) as f32;
        let second = ((k + 1) % 4 + 1) as f32;
        let genes = genes_of(child.dna());
        assert_eq!(genes.len(), 3);
        let split = genes.iter().take(2).take_while(|g| g.x == first).count();
        assert!(genes[split..2].iter().all(|g| *g == Vec2::new(second, 1.0)));
        assert_eq!(genes[2], Vec2::new(second + 0.5, 1.5));
    }
}

#[test]
fn a_brood_suits_only_if_it_is_complete_and_names_rockets_that_are_there() {
    let population = cohort();
    let good = |k: usize| Mating { first: k % 4, second: COUNT - 1, drift: vec![] };
    let brood: Vec<Mating> = (0..COUNT).map(good).collect();
    assert!(population.suits(&brood));
    let short: Vec<Mating> = (0..COUNT - 1).map(good).collect();
    assert!(!population.suits(&short));
    let long: Vec<Mating> = (0..COUNT + 1).map(good).collect();
    assert!(!population.suits(&long));
    let mut stray: Vec<Mating> = (0..COUNT).map(good).collect();
    stray[17].second = COUNT;
    assert!(!population.suits(&stray));
    let mut stray: Vec<Mating> = (0..COUNT).map(good).collect();
    stray[COUNT - 1].first = COUNT;
    assert!(!population.suits(&stray));
}

#[test]
fn a_brood_does_not_suit_parents_that_cannot_be_crossed() {
    let mut genomes: Vec<Dna> = (0..COUNT).map(|_| genome(1.0, 3)).collect();
    genomes[0] = genome(1.0, 0);
    genomes[2] = genome(3.0, 1);
    let population = Population::new(&genomes);
    let brood = |first: usize, second: usize| -> Vec<Mating> {
        (0..COUNT).map(|_| Mating { first, second, drift: vec![] }).collect()
    };
    assert!(!population.suits(&brood(0, 1)));
    assert!(population.suits(&brood(1, 1)));
    assert!(population.suits(&brood(2, 1)));
    assert!(!population.suits(&brood(1, 2)));
    assert!(population.suits(&brood(2, 0)));
}

#[test]
fn a_population_is_complete_if_every_rocket_has_a_gene_for_every_frame() {
    assert!(!cohort().complete());
    let genomes: Vec<Dna> =
        (0..COUNT).map(|_| genome(1.0, genetic_rockets::ROCKET_LIFESPAN)).collect();
    assert!(Population::new(&genomes).complete());
    let mut genomes: Vec<Dna> =
        (0..COUNT).map(|_| genome(1.0, genetic_rockets::ROCKET_LIFESPAN)).collect();
    genomes[COUNT - 1] = genome(1.0, genetic_rockets::ROCKET_LIFESPAN - 1);
    assert!(!Population::new(&genomes).complete());
}
