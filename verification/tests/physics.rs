use cgmath::{InnerSpace, Vector2};
use orbit_playground::body::{BodyId, IdRegistry};
use orbit_playground::universe::Universe;
use std::f64::consts::PI;

#[derive(Debug, Clone, PartialEq)]
struct Body {
    pos: Vector2<f64>,
    vel: Vector2<f64>,
    radius: f64,
    density: f64,
}

fn mass(body: &Body) -> f64 {
    body.density * PI * (body.radius * body.radius)
}

fn attract(gravity: f64, a: &Body, b: &Body, dt: f64) -> (Body, Body) {
    let a_to_b = b.pos - a.pos;
    let dist2 = a_to_b.magnitude2();
    let mut a_next = a.clone();
    let mut b_next = b.clone();
    if dist2 == 0.0 {
        return (a_next, b_next);
    }
    a_next.vel += a_to_b.normalize() * (gravity * mass(b) / dist2) * dt;
    b_next.vel -= a_to_b.normalize() * (gravity * mass(a) / dist2) * dt;
    (a_next, b_next)
}

fn advance(body: &Body, dt: f64) -> Body {
    let mut next = body.clone();
    next.pos += next.vel * dt;
    next
}

fn at_rest(x: f64, y: f64, radius: f64, density: f64) -> Body {
    Body { pos: Vector2::new(x, y), vel: Vector2::new(0.0, 0.0), radius, density }
}

fn two_unit_masses() -> (Universe<Body, f64>, BodyId, BodyId) {
    let mut registry = IdRegistry::new();
    let mut universe: Universe<Body, f64> = Universe::new(1.0);
    let a = universe.bodies.push(&mut registry, at_rest(-5.0, 0.0, 1.0, 1.0 / PI));
    let b = universe.bodies.push(&mut registry, at_rest(5.0, 0.0, 1.0, 1.0 / PI));
    (universe, a, b)
}

#[test]
fn a_new_universe_is_empty_and_marked_as_changed() {
    let universe: Universe<Body, f64> = Universe::new(2.5);
    assert!(universe.bodies.is_empty());
    assert_eq!(universe.gravity, 2.5);
    assert!(universe.changed);
}

#[test]
fn two_unit_masses_ten_apart_pull_each_other() {
    let (universe, a, b) = two_unit_masses();
    let dt = 1.0 / 128.0;
    let next = universe.step(dt, &attract, &advance);
    let after_a = next.bodies.get(a).unwrap().clone();
    let after_b = next.bodies.get(b).unwrap().clone();
    // G * m / r^2 * dt = 1 * 1 / 100 / 128
    let expected = 0.01 / 128.0;
    assert!((after_a.vel.x - expected).abs() < 1e-15);
    assert_eq!(after_a.vel.y, 0.0);
    assert_eq!(after_b.vel.x, -after_a.vel.x);
    assert_eq!(after_b.vel.y, -after_a.vel.y);
    assert!((after_a.pos.x - (-5.0 + expected * dt)).abs() < 1e-15);
    assert!((after_b.pos.x - (5.0 - expected * dt)).abs() < 1e-15);
    assert_eq!(after_a.pos.y, 0.0);
}

#[test]
fn velocity_changes_balance_by_mass() {
    let mut registry = IdRegistry::new();
    let mut universe: Universe<Body, f64> = Universe::new(3.0);
    let a = universe.bodies.push(&mut registry, at_rest(1.0, 2.0, 2.0, 0.5));
    let b = universe.bodies.push(&mut registry, at_rest(-3.0, 7.0, 0.5, 4.0));
    let before_a = universe.bodies.get(a).unwrap().clone();
    let before_b = universe.bodies.get(b).unwrap().clone();
    let next = universe.step(1.0 / 64.0, &attract, &advance);
    let after_a = next.bodies.get(a).unwrap();
    let after_b = next.bodies.get(b).unwrap();
    let push_a = (after_a.vel - before_a.vel) * mass(&before_a);
    let push_b = (after_b.vel - before_b.vel) * mass(&before_b);
    assert!((push_a.x + push_b.x).abs() < 1e-12);
    assert!((push_a.y + push_b.y).abs() < 1e-12);
    assert!(push_a.magnitude() > 0.0);
}

#[test]
fn the_same_snapshot_steps_to_the_same_snapshot() {
    let mut registry = IdRegistry::new();
    let mut universe: Universe<Body, f64> = Universe::new(1.0);
    universe.bodies.push(&mut registry, at_rest(0.0, 0.0, 1.0, 1.0));
    universe.bodies.push(&mut registry, at_rest(4.0, 1.0, 0.3, 2.0));
    universe.bodies.push(&mut registry, at_rest(-2.0, 3.0, 0.7, 0.1));
    let mut first = universe.step(1.0 / 512.0, &attract, &advance);
    let mut second = universe.step(1.0 / 512.0, &attract, &advance);
    for _ in 0..49 {
        first = first.step(1.0 / 512.0, &attract, &advance);
        second = second.step(1.0 / 512.0, &attract, &advance);
    }
    let first_items = first.bodies.iter();
    let second_items = second.bodies.iter();
    assert_eq!(first_items.len(), 3);
    for i in 0..3 {
        assert_eq!(first_items[i].0, second_items[i].0);
        assert_eq!(first_items[i].1.pos.x.to_bits(), second_items[i].1.pos.x.to_bits());
        assert_eq!(first_items[i].1.pos.y.to_bits(), second_items[i].1.pos.y.to_bits());
        assert_eq!(first_items[i].1.vel.x.to_bits(), second_items[i].1.vel.x.to_bits());
        assert_eq!(first_items[i].1.vel.y.to_bits(), second_items[i].1.vel.y.to_bits());
    }
}

#[test]
fn a_step_keeps_the_constant_and_the_identities_and_is_not_marked() {
    let (universe, a, b) = two_unit_masses();
    assert!(universe.changed);
    let next = universe.step(0.5, &attract, &advance);
    assert!(!next.changed);
    assert_eq!(next.gravity, 1.0);
    let after = next.step(0.5, &attract, &advance);
    assert!(!after.changed);
    assert_eq!(after.gravity, 1.0);
    let items = after.bodies.iter();
    assert_eq!(items.len(), 2);
    assert_eq!(items[0].0, a);
    assert_eq!(items[1].0, b);
}

#[test]
fn a_step_leaves_the_snapshot_it_starts_from_as_it_was() {
    let (universe, a, b) = two_unit_masses();
    let next = universe.step(1.0 / 128.0, &attract, &advance);
    assert!(universe.changed);
    assert_eq!(universe.gravity, 1.0);
    assert_eq!(universe.bodies.len(), 2);
    assert_eq!(universe.bodies.get(a), Some(&at_rest(-5.0, 0.0, 1.0, 1.0 / PI)));
    assert_eq!(universe.bodies.get(b), Some(&at_rest(5.0, 0.0, 1.0, 1.0 / PI)));
    assert!(next.bodies.get(a).unwrap().vel.x > 0.0);
    assert!(next.bodies.get(b).unwrap().vel.x < 0.0);
}

#[test]
fn the_same_bodies_under_other_identities_step_alike() {
    let mut registry = IdRegistry::new();
    let mut first: Universe<Body, f64> = Universe::new(2.0);
    let mut second: Universe<Body, f64> = Universe::new(2.0);
    let bodies = vec![at_rest(0.0, 0.0, 1.0, 1.0), at_rest(4.0, 1.0, 0.3, 2.0), at_rest(-2.0, 3.0, 0.7, 0.1)];
    for body in bodies.iter() {
        first.bodies.push(&mut registry, body.clone());
    }
    for body in bodies.iter() {
        second.bodies.push(&mut registry, body.clone());
    }
    let issued = registry.issued_count();
    let first = first.step(0.125, &attract, &advance);
    let second = second.step(0.125, &attract, &advance);
    assert_eq!(registry.issued_count(), issued);
    let first_items = first.bodies.iter();
    let second_items = second.bodies.iter();
    for k in 0..3 {
        assert_ne!(first_items[k].0, second_items[k].0);
        assert_eq!(first_items[k].1, second_items[k].1);
    }
}

#[test]
fn a_lone_body_moves_by_its_velocity() {
    let mut registry = IdRegistry::new();
    let mut universe: Universe<Body, f64> = Universe::new(1.0);
    let mut body = at_rest(1.0, 1.0, 1.0, 1.0);
    body.vel = Vector2::new(2.0, -4.0);
    let id = universe.bodies.push(&mut registry, body);
    let next = universe.step(0.25, &attract, &advance);
    let after = next.bodies.get(id).unwrap();
    assert_eq!(after.pos, Vector2::new(1.5, 0.0));
    assert_eq!(after.vel, Vector2::new(2.0, -4.0));
}

#[test]
fn bodies_at_the_same_place_leave_each_other_alone() {
    let mut registry = IdRegistry::new();
    let mut universe: Universe<Body, f64> = Universe::new(1.0);
    let a = universe.bodies.push(&mut registry, at_rest(2.0, 2.0, 1.0, 1.0));
    let b = universe.bodies.push(&mut registry, at_rest(2.0, 2.0, 3.0, 1.0));
    let next = universe.step(0.5, &attract, &advance);
    assert_eq!(next.bodies.get(a), Some(&at_rest(2.0, 2.0, 1.0, 1.0)));
    assert_eq!(next.bodies.get(b), Some(&at_rest(2.0, 2.0, 3.0, 1.0)));
}

#[test]
fn an_empty_universe_steps_to_itself() {
    let universe: Universe<Body, f64> = Universe::new(1.0);
    let next = universe.step(1.0, &attract, &advance);
    assert!(next.bodies.is_empty());
    assert_eq!(next.gravity, 1.0);
    assert!(!next.changed);
}

#[test]
fn a_clone_is_not_marked_as_changed() {
    let (universe, a, b) = two_unit_masses();
    assert!(universe.changed);
    let copy = universe.clone();
    assert!(!copy.changed);
    assert_eq!(copy.gravity, 1.0);
    assert_eq!(copy.bodies.get(a), universe.bodies.get(a));
    assert_eq!(copy.bodies.get(b), universe.bodies.get(b));
    assert_eq!(copy.bodies.len(), 2);
}

fn tag(_gravity: i64, a: &Vec<i64>, b: &Vec<i64>, _dt: i64) -> (Vec<i64>, Vec<i64>) {
    let mut a_next = a.clone();
    let mut b_next = b.clone();
    a_next.push(b[0]);
    b_next.push(a[0]);
    (a_next, b_next)
}

fn close(body: &Vec<i64>, dt: i64) -> Vec<i64> {
    let mut next = body.clone();
    next.push(-dt);
    next
}

#[test]
fn every_pair_interacts_before_any_body_moves() {
    let mut registry = IdRegistry::new();
    let mut universe: Universe<Vec<i64>, i64> = Universe::new(0);
    let a = universe.bodies.push(&mut registry, vec![1]);
    let b = universe.bodies.push(&mut registry, vec![2]);
    let c = universe.bodies.push(&mut registry, vec![3]);
    let next = universe.step(9, &tag, &close);
    assert_eq!(next.bodies.get(a), Some(&vec![1, 2, 3, -9]));
    assert_eq!(next.bodies.get(b), Some(&vec![2, 1, 3, -9]));
    assert_eq!(next.bodies.get(c), Some(&vec![3, 1, 2, -9]));
}

fn weigh(gravity: i64, a: &i64, b: &i64, dt: i64) -> (i64, i64) {
    (*a + gravity * dt, *b - gravity * dt)
}

fn keep(body: &i64, _dt: i64) -> i64 {
    *body
}

#[test]
fn the_interaction_gets_the_constant_of_the_snapshot_and_the_step_size() {
    let mut registry = IdRegistry::new();
    let mut universe: Universe<i64, i64> = Universe::new(7);
    let a = universe.bodies.push(&mut registry, 0);
    let b = universe.bodies.push(&mut registry, 0);
    let next = universe.step(3, &weigh, &keep);
    assert_eq!(next.bodies.get(a), Some(&21));
    assert_eq!(next.bodies.get(b), Some(&-21));
}
