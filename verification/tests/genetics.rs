use genetic_rockets::{Dna, Reproduction};
use nannou::glam::Vec2;

fn ramp(from: usize, count: usize) -> Vec<Vec2> {
    (0..count).map(|i| Vec2::new((from + i) as f32, -((from + i) as f32))).collect()
}

fn genes_of(dna: &Dna) -> Vec<Vec2> {
    (0..dna.len()).map(|i| dna.get(i)).collect()
}

#[test]
fn new_keeps_the_genes() {
    let genes = ramp(0, 5);
    let dna = Dna::new(&genes);
    assert_eq!(dna.len(), 5);
    assert_eq!(genes_of(&dna), genes);
    assert_eq!(dna.get(3), Vec2::new(3.0, -3.0));
}

#[test]
fn crossover_at_takes_the_head_of_the_first_and_the_tail_of_the_second() {
    let first = Dna::new(&ramp(0, 6));
    let second = Dna::new(&ramp(100, 6));
    let child = Dna::crossover_at(&first, &second, 2);
    let mut expected = ramp(0, 2);
    expected.extend(ramp(102, 4));
    assert_eq!(genes_of(&child), expected);
}

#[test]
fn crossover_at_the_ends() {
    let first = Dna::new(&ramp(0, 4));
    let second = Dna::new(&ramp(100, 4));
    assert_eq!(genes_of(&Dna::crossover_at(&first, &second, 0)), ramp(100, 4));
    assert_eq!(genes_of(&Dna::crossover_at(&first, &second, 4)), ramp(0, 4));
}

#[test]
fn crossover_splits_somewhere() {
    let first = Dna::new(&ramp(0, 8));
    let second = Dna::new(&ramp(100, 8));
    for _ in 0..200 {
        let child = genes_of(&Dna::crossover(&first, &second));
        assert_eq!(child.len(), 8);
        let split = child.iter().take_while(|g| g.x < 50.0).count();
        assert!(split < 8);
        for (i, g) in child.iter().enumerate() {
            let origin = if i < split { 0 } else { 100 };
            assert_eq!(*g, Vec2::new((origin + i) as f32, -((origin + i) as f32)));
        }
    }
}

#[test]
fn crossover_draws_more_than_one_split() {
    let first = Dna::new(&ramp(0, 50));
    let second = Dna::new(&ramp(100, 50));
    let mut seen = std::collections::HashSet::new();
    for _ in 0..400 {
        let child = genes_of(&Dna::crossover(&first, &second));
        seen.insert(child.iter().take_while(|g| g.x < 50.0).count());
    }
    assert!(seen.len() > 1);
}

#[test]
fn mutate_adds_the_drift() {
    let dna = Dna::new(&ramp(0, 4));
    let drift = vec![None, Some(Vec2::new(0.25, -0.5)), None, Some(Vec2::new(-1.0, 1.0))];
    let mutant = dna.mutate(&drift);
    assert_eq!(
        genes_of(&mutant),
        vec![
            Vec2::new(0.0, 0.0),
            Vec2::new(1.25, -1.5),
            Vec2::new(2.0, -2.0),
            Vec2::new(2.0, -2.0),
        ]
    );
    assert_eq!(genes_of(&dna), ramp(0, 4));
}

#[test]
fn mutate_keeps_the_length() {
    let dna = Dna::new(&ramp(0, 5));
    assert_eq!(dna.mutate(&vec![]).len(), 5);
    assert_eq!(genes_of(&dna.mutate(&vec![])), ramp(0, 5));
    let long = vec![Some(Vec2::new(1.0, 1.0)); 9];
    assert_eq!(dna.mutate(&long).len(), 5);
    let short = vec![Some(Vec2::new(1.0, 1.0)); 2];
    let mutant = genes_of(&dna.mutate(&short));
    assert_eq!(mutant[1], Vec2::new(2.0, 0.0));
    assert_eq!(mutant[2], Vec2::new(2.0, -2.0));
}
