use genetic_rockets::{Dna, Rocket, RocketState, ROCKET_SPAWN_LOCATION};
use nannou::glam::Vec2;

fn genes() -> Vec<Vec2> {
    vec![Vec2::new(1.0, 2.0), Vec2::new(0.5, -1.0), Vec2::new(-3.0, 0.25)]
}

fn genes_of(dna: &Dna) -> Vec<Vec2> {
    (0..dna.len()).map(|i| dna.get(i)).collect()
}

#[test]
fn a_new_rocket_rests_at_the_spawn_point() {
    let rocket = Rocket::new(&Dna::new(&genes()));
    assert_eq!(rocket.pos, Vec2::new(-350.0, 0.0));
    assert_eq!(
        rocket.pos,
        Vec2::new(ROCKET_SPAWN_LOCATION.0 as f32, ROCKET_SPAWN_LOCATION.1 as f32)
    );
    assert_eq!(rocket.vel(), Vec2::ZERO);
    assert_eq!(rocket.state(), RocketState::Alive);
    assert_eq!(genes_of(rocket.dna()), genes());
}

#[test]
fn a_free_rocket_is_pushed_by_its_gene() {
    let mut rocket = Rocket::new(&Dna::new(&genes()));
    rocket.update(0, false, false);
    assert_eq!(rocket.state(), RocketState::Alive);
    assert_eq!(rocket.vel(), Vec2::new(1.0, 2.0));
    assert_eq!(rocket.pos, Vec2::new(-349.0, 2.0));
    rocket.update(1, false, false);
    assert_eq!(rocket.vel(), Vec2::new(1.5, 1.0));
    assert_eq!(rocket.pos, Vec2::new(-347.5, 3.0));
    rocket.update(2, false, false);
    assert_eq!(rocket.vel(), Vec2::new(-1.5, 1.25));
    assert_eq!(rocket.pos, Vec2::new(-349.0, 4.25));
}

#[test]
fn the_acceleration_is_spent_in_each_frame() {
    let mut rocket = Rocket::new(&Dna::new(&vec![Vec2::new(1.0, 0.0), Vec2::new(0.0, 0.0)]));
    rocket.update(0, false, false);
    rocket.update(1, false, false);
    assert_eq!(rocket.vel(), Vec2::new(1.0, 0.0));
    assert_eq!(rocket.pos, Vec2::new(-348.0, 0.0));
}

#[test]
fn a_rocket_at_the_target_is_completed() {
    let mut rocket = Rocket::new(&Dna::new(&genes()));
    rocket.update(0, true, false);
    assert_eq!(rocket.state(), RocketState::Completed);
    assert_eq!(rocket.pos, Vec2::new(-350.0, 0.0));
}

#[test]
fn the_target_counts_before_the_wall() {
    let mut rocket = Rocket::new(&Dna::new(&genes()));
    rocket.update(0, true, true);
    assert_eq!(rocket.state(), RocketState::Completed);
}

#[test]
fn a_rocket_at_a_wall_is_crashed() {
    let mut rocket = Rocket::new(&Dna::new(&genes()));
    rocket.update(0, false, false);
    rocket.update(1, false, true);
    assert_eq!(rocket.state(), RocketState::Crashed);
    assert_eq!(rocket.pos, Vec2::new(-349.0, 2.0));
    assert_eq!(rocket.vel(), Vec2::new(1.0, 2.0));
}

#[test]
fn a_crashed_rocket_stays_as_it_is() {
    let mut rocket = Rocket::new(&Dna::new(&genes()));
    rocket.update(0, false, true);
    for frame in 0..3 {
        rocket.update(frame, false, false);
        rocket.update(frame, true, false);
        assert_eq!(rocket.state(), RocketState::Crashed);
        assert_eq!(rocket.pos, Vec2::new(-350.0, 0.0));
    }
}

#[test]
fn a_completed_rocket_stays_as_it_is() {
    let mut rocket = Rocket::new(&Dna::new(&genes()));
    rocket.update(0, false, false);
    rocket.update(1, true, false);
    for frame in 0..3 {
        rocket.update(frame, false, true);
        rocket.update(frame, false, false);
        assert_eq!(rocket.state(), RocketState::Completed);
        assert_eq!(rocket.pos, Vec2::new(-349.0, 2.0));
    }
}

#[test]
fn a_terminal_rocket_needs_no_gene_for_the_frame() {
    let mut rocket = Rocket::new(&Dna::new(&genes()));
    rocket.update(0, false, true);
    rocket.update(1000, false, false);
    assert_eq!(rocket.state(), RocketState::Crashed);
}

#[test]
fn a_child_is_newborn_and_has_its_parents_genes() {
    let mut first = Rocket::new(&Dna::new(&vec![Vec2::new(1.0, 1.0); 6]));
    let second = Rocket::new(&Dna::new(&vec![Vec2::new(2.0, 2.0); 6]));
    first.update(0, false, false);
    first.update(1, false, true);
    for _ in 0..50 {
        let child = Rocket::reproduce(&first, &second, &vec![]);
        assert_eq!(child.pos, Vec2::new(-350.0, 0.0));
        assert_eq!(child.vel(), Vec2::ZERO);
        assert_eq!(child.state(), RocketState::Alive);
        let genes = genes_of(child.dna());
        assert_eq!(genes.len(), 6);
        let split = genes.iter().take_while(|g| g.x == 1.0).count();
        assert!(split < 6);
        assert!(genes[split..].iter().all(|g| *g == Vec2::new(2.0, 2.0)));
    }
}

#[test]
fn a_child_takes_up_the_drift() {
    let first = Rocket::new(&Dna::new(&vec![Vec2::new(1.0, 1.0)]));
    let second = Rocket::new(&Dna::new(&vec![Vec2::new(2.0, 2.0), Vec2::new(3.0, 3.0)]));
    let drift = vec![Some(Vec2::new(0.5, -0.5)), None];
    let child = Rocket::reproduce(&first, &second, &drift);
    assert_eq!(genes_of(child.dna()), vec![Vec2::new(2.5, 1.5), Vec2::new(3.0, 3.0)]);
}
