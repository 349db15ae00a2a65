use orbit_playground::body::{BodyId, IdRegistry};
use orbit_playground::save::{LoadError, Save, SavedUniverse};
use orbit_playground::universe::Universe;
use orbit_playground::world::{GenerationState, ProducerAction, World, DEFAULT_HORIZON};

fn pass(_gravity: i64, a: &i64, b: &i64, _dt: i64) -> (i64, i64) {
    (*a, *b)
}

fn tick(body: &i64, dt: i64) -> i64 {
    *body + dt
}

fn record(index: usize, gravity: i64, bodies: Vec<(usize, i64)>) -> SavedUniverse<i64, i64> {
    SavedUniverse { index, gravity, bodies }
}

fn kept(current_state: usize, step_size: i64, states: Vec<SavedUniverse<i64, i64>>) -> Save<i64, i64> {
    Save { gen_future: 123, current_state, step_size, states }
}

fn load(save: Save<i64, i64>, registry: &mut IdRegistry) -> Result<(World<i64, i64>, GenerationState<i64, i64>), LoadError> {
    World::from_save(save, registry, &pass, &tick)
}

fn numbered(universe: &Universe<i64, i64>) -> Vec<(usize, i64)> {
    universe.bodies.iter().into_iter().map(|(id, body)| (id.get_id(), *body)).collect()
}

#[test]
fn only_changed_snapshots_are_kept() {
    let mut registry = IdRegistry::new();
    let (mut world, mut generation): (World<i64, i64>, GenerationState<i64, i64>) = World::new(2, 5);
    let a = world.states.bodies_mut(0).push(&mut registry, 10);
    let b = world.states.bodies_mut(0).push(&mut registry, 20);
    world.gen_future = 4;
    world.current_state_modified = true;
    world.gen_future(&mut generation);
    world.current_state_modified = false;
    let mut working = None;
    let mut action = generation.next_task(&mut working);
    while let ProducerAction::Compute(dt) = action {
        let next = working.as_ref().unwrap().step(dt, &pass, &tick);
        action = generation.offer(&mut working, next);
    }
    world.gen_future(&mut generation);
    assert_eq!(world.states.len(), 4);
    world.move_time(2);
    world.states.bodies_mut(2).remove(a);
    world.current_state_modified = true;
    world.gen_future(&mut generation);
    let save = world.to_save();
    assert_eq!(save.gen_future, 4);
    assert_eq!(save.current_state, 2);
    assert_eq!(save.step_size, 2);
    assert_eq!(save.states.len(), 2);
    assert_eq!(save.states[0].index, 0);
    assert_eq!(save.states[0].gravity, 5);
    assert_eq!(save.states[0].bodies, vec![(a.get_id(), 10), (b.get_id(), 20)]);
    assert_eq!(save.states[1].index, 2);
    assert_eq!(save.states[1].bodies, vec![(b.get_id(), 24)]);
    assert!(save.fault().is_none());
}

#[test]
fn a_record_holds_the_bodies_under_their_numbers() {
    let mut registry = IdRegistry::new();
    let mut universe: Universe<i64, i64> = Universe::new(8);
    let _ = BodyId::next_id(&mut registry);
    let a = universe.bodies.push(&mut registry, -1);
    let b = universe.bodies.push(&mut registry, -2);
    let kept = SavedUniverse::of(&universe, 17);
    assert_eq!(kept.index, 17);
    assert_eq!(kept.gravity, 8);
    assert_eq!(kept.bodies, vec![(2, -1), (3, -2)]);
    assert_eq!(a.get_id(), 2);
    assert_eq!(b.get_id(), 3);
}

#[test]
fn a_world_is_rebuilt_with_every_snapshot_at_its_index() {
    let mut registry = IdRegistry::new();
    let save = kept(
        6,
        1,
        vec![
            record(0, 3, vec![(7, 0), (9, 100)]),
            record(3, 4, vec![(9, 500), (7, 50), (2, -1)]),
        ],
    );
    let (world, generation) = load(save, &mut registry).unwrap();
    assert_eq!(world.states.len(), 7);
    assert_eq!(world.current_state, 6);
    assert_eq!(world.gen_future, DEFAULT_HORIZON);
    assert_eq!(world.step_size, 1);
    assert!(!world.current_state_modified);
    // 7 is the first number met, 9 the second, 2 the third.
    assert_eq!(registry.issued_count(), 3);
    let expected: Vec<(bool, i64, Vec<(usize, i64)>)> = vec![
        (true, 3, vec![(1, 0), (2, 100)]),
        (false, 3, vec![(1, 1), (2, 101)]),
        (false, 3, vec![(1, 2), (2, 102)]),
        (true, 4, vec![(1, 50), (2, 500), (3, -1)]),
        (false, 4, vec![(1, 51), (2, 501), (3, 0)]),
        (false, 4, vec![(1, 52), (2, 502), (3, 1)]),
        (false, 4, vec![(1, 53), (2, 503), (3, 2)]),
    ];
    for (index, (changed, gravity, bodies)) in expected.into_iter().enumerate() {
        let snapshot = world.states.get(index);
        assert_eq!(snapshot.changed, changed);
        assert_eq!(snapshot.gravity, gravity);
        assert_eq!(numbered(snapshot), bodies);
    }
    assert_eq!(generation.states_buffer_size, DEFAULT_HORIZON - 1);
    assert_eq!(generation.step_size, 1);
    assert!(generation.new_states.is_empty());
    let seed = generation.initial_state.unwrap();
    assert!(!seed.changed);
    assert_eq!(numbered(&seed), vec![(1, 53), (2, 503), (3, 2)]);
}

#[test]
fn identities_of_a_rebuilt_world_continue_the_registry() {
    let mut registry = IdRegistry::new();
    let _ = BodyId::next_id(&mut registry);
    let _ = BodyId::next_id(&mut registry);
    let save = kept(0, 1, vec![record(0, 1, vec![(40, 4), (30, 3)])]);
    let (world, _) = load(save, &mut registry).unwrap();
    assert_eq!(numbered(world.states.get(0)), vec![(3, 4), (4, 3)]);
    assert_eq!(registry.issued_count(), 4);
    let next = BodyId::next_id(&mut registry);
    assert_eq!(next.get_id(), 5);
}

#[test]
fn a_present_before_the_last_snapshot_kept_adds_nothing_after_it() {
    let mut registry = IdRegistry::new();
    let save = kept(1, 10, vec![record(0, 1, vec![(1, 0)]), record(2, 1, vec![(1, 7)])]);
    let (world, generation) = load(save, &mut registry).unwrap();
    assert_eq!(world.states.len(), 3);
    assert_eq!(world.current_state, 1);
    assert_eq!(numbered(world.states.get(0)), vec![(1, 0)]);
    assert_eq!(numbered(world.states.get(1)), vec![(1, 10)]);
    assert_eq!(numbered(world.states.get(2)), vec![(1, 7)]);
    assert!(world.states.get(2).changed);
    assert_eq!(generation.states_buffer_size, DEFAULT_HORIZON - 2);
}

#[test]
fn snapshots_kept_next_to_each_other_have_nothing_computed_between_them() {
    let mut registry = IdRegistry::new();
    let save = kept(1, 1, vec![record(0, 1, vec![(5, 0)]), record(1, 1, vec![(5, 9)])]);
    let (world, _) = load(save, &mut registry).unwrap();
    assert_eq!(world.states.len(), 2);
    assert_eq!(numbered(world.states.get(0)), vec![(1, 0)]);
    assert_eq!(numbered(world.states.get(1)), vec![(1, 9)]);
}

#[test]
fn what_is_kept_of_a_world_rebuilds_it() {
    let mut registry = IdRegistry::new();
    let first = kept(3, 1, vec![record(0, 2, vec![(1, 0), (2, 10)]), record(2, 2, vec![(2, 20)])]);
    let (world, _) = load(first, &mut registry).unwrap();
    let again = world.to_save();
    assert_eq!(again.current_state, 3);
    assert_eq!(again.states.len(), 2);
    assert_eq!(again.states[0].index, 0);
    assert_eq!(again.states[0].bodies, vec![(1, 0), (2, 10)]);
    assert_eq!(again.states[1].index, 2);
    assert_eq!(again.states[1].bodies, vec![(2, 20)]);
    let mut other_registry = IdRegistry::new();
    let (rebuilt, _) = load(again, &mut other_registry).unwrap();
    assert_eq!(rebuilt.states.len(), world.states.len());
    for index in 0..world.states.len() {
        assert_eq!(numbered(rebuilt.states.get(index)), numbered(world.states.get(index)));
        assert_eq!(rebuilt.states.get(index).changed, world.states.get(index).changed);
    }
}

#[test]
fn nothing_kept_is_a_missing_start() {
    let mut registry = IdRegistry::new();
    let save = kept(0, 1, vec![]);
    assert_eq!(save.fault(), Some(LoadError::MissingStart));
    assert_eq!(load(save, &mut registry).err(), Some(LoadError::MissingStart));
    assert_eq!(registry.issued_count(), 0);
}

#[test]
fn a_first_snapshot_after_the_start_is_a_missing_start() {
    let mut registry = IdRegistry::new();
    let save = kept(0, 1, vec![record(1, 1, vec![(1, 0)])]);
    assert_eq!(save.fault(), Some(LoadError::MissingStart));
    assert_eq!(load(save, &mut registry).err(), Some(LoadError::MissingStart));
    assert_eq!(registry.issued_count(), 0);
}

#[test]
fn an_index_that_does_not_grow_is_out_of_order() {
    let mut registry = IdRegistry::new();
    let repeated = kept(0, 1, vec![record(0, 1, vec![]), record(2, 1, vec![]), record(2, 1, vec![])]);
    assert_eq!(repeated.fault(), Some(LoadError::OutOfOrder));
    assert_eq!(load(repeated, &mut registry).err(), Some(LoadError::OutOfOrder));
    let falling = kept(0, 1, vec![record(0, 1, vec![]), record(5, 1, vec![]), record(3, 1, vec![])]);
    assert_eq!(load(falling, &mut registry).err(), Some(LoadError::OutOfOrder));
    let second_start = kept(0, 1, vec![record(0, 1, vec![]), record(0, 1, vec![])]);
    assert_eq!(load(second_start, &mut registry).err(), Some(LoadError::OutOfOrder));
    assert_eq!(registry.issued_count(), 0);
}

#[test]
fn a_number_twice_in_one_snapshot_is_a_duplicate_body() {
    let mut registry = IdRegistry::new();
    let save = kept(0, 1, vec![record(0, 1, vec![(1, 0)]), record(1, 1, vec![(4, 0), (5, 1), (4, 2)])]);
    assert_eq!(save.fault(), Some(LoadError::DuplicateBody));
    assert_eq!(load(save, &mut registry).err(), Some(LoadError::DuplicateBody));
    assert_eq!(registry.issued_count(), 0);
}

#[test]
fn a_missing_start_is_told_before_other_faults() {
    let save = kept(0, 1, vec![record(3, 1, vec![(1, 0), (1, 1)]), record(2, 1, vec![])]);
    assert_eq!(save.fault(), Some(LoadError::MissingStart));
    let save = kept(0, 1, vec![record(0, 1, vec![(1, 0), (1, 1)]), record(0, 1, vec![])]);
    assert_eq!(save.fault(), Some(LoadError::OutOfOrder));
}

#[test]
fn a_number_in_two_snapshots_is_no_fault() {
    let save = kept(0, 1, vec![record(0, 1, vec![(1, 0), (2, 1)]), record(1, 1, vec![(2, 5), (1, 6)])]);
    assert_eq!(save.fault(), None);
}

#[test]
fn a_registry_with_room_for_every_body_fits() {
    let mut registry = IdRegistry::new();
    let _ = BodyId::next_id(&mut registry);
    let save = kept(0, 1, vec![record(0, 1, vec![(1, 0), (2, 1)]), record(1, 1, vec![(2, 5), (1, 6)])]);
    assert!(save.fits(&registry));
    assert!(kept(0, 1, vec![]).fits(&registry));
}
