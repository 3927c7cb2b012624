use rand::rngs::StdRng;
use rand::{Rng, SeedableRng};
use sugarscape::{
    choose_destination, simulation_step, Agent, AgentStore, Location, MapData, MapDimensions,
    Metabolism, Name, SimError, Snapshot, Vision,
};

fn dims(width: u32, height: u32) -> MapDimensions {
    MapDimensions { width, height }
}

fn agent(name: &str, x: u32, y: u32, vision: u32, sugar: u32) -> Agent {
    Agent {
        name: Name(name.to_string()),
        location: Location { x, y },
        vision: Vision(vision),
        metabolism: Metabolism { sugar, spice: 0 },
    }
}

fn store_of(d: &MapDimensions, agents: Vec<Agent>) -> AgentStore {
    let mut store = AgentStore::new();
    for a in agents {
        store.add_agent(a, d).unwrap();
    }
    store
}

fn location(store: &AgentStore, i: usize) -> (u32, u32) {
    let l = store.agent(i).location;
    (l.x, l.y)
}

fn reference_world(seed: u64) -> (MapData, AgentStore) {
    let d = dims(10, 10);
    let mut field = MapData::new(d);
    let mut rng = StdRng::seed_from_u64(seed);
    field.fill_random(&mut rng, 20);
    let smith = Agent {
        name: Name("Smith".to_string()),
        location: Location { x: 0, y: 0 },
        vision: Vision(4),
        metabolism: Metabolism { sugar: 5, spice: 3 },
    };
    let jones = Agent {
        name: Name("Jones".to_string()),
        location: Location { x: 9, y: 9 },
        vision: Vision(2),
        metabolism: Metabolism { sugar: 7, spice: 4 },
    };
    (field, store_of(&d, vec![smith, jones]))
}

#[test]
fn new_field_is_empty() {
    let field = MapData::new(dims(3, 2));
    assert_eq!(field.dims(), dims(3, 2));
    for x in 0..3 {
        for y in 0..2 {
            assert_eq!(field.quantity_at(x, y), Ok(0));
        }
    }
}

#[test]
fn quantity_at_reports_out_of_bounds() {
    let field = MapData::new(dims(10, 10));
    assert_eq!(field.quantity_at(10, 0), Err(SimError::OutOfBounds { x: 10, y: 0 }));
    assert_eq!(field.quantity_at(0, 10), Err(SimError::OutOfBounds { x: 0, y: 10 }));
    assert_eq!(field.quantity_at(9, 9), Ok(0));
}

#[test]
fn set_quantity_writes_one_cell() {
    let mut field = MapData::new(dims(3, 3));
    assert_eq!(field.set_quantity(1, 2, 17), Ok(()));
    assert_eq!(field.quantity_at(1, 2), Ok(17));
    assert_eq!(field.quantity_at(2, 1), Ok(0));
    assert_eq!(field.set_quantity(3, 0, 1), Err(SimError::OutOfBounds { x: 3, y: 0 }));
}

#[test]
fn consume_deducts_and_clamps_at_zero() {
    let mut field = MapData::new(dims(2, 2));
    field.set_quantity(0, 1, 10).unwrap();
    field.set_quantity(1, 0, 3).unwrap();
    assert_eq!(field.consume(0, 1, 4), Ok(()));
    assert_eq!(field.quantity_at(0, 1), Ok(6));
    assert_eq!(field.consume(1, 0, 5), Ok(()));
    assert_eq!(field.quantity_at(1, 0), Ok(0));
    assert_eq!(field.consume(1, 0, u32::MAX), Ok(()));
    assert_eq!(field.quantity_at(1, 0), Ok(0));
}

#[test]
fn consume_reports_out_of_bounds_and_changes_nothing() {
    let mut field = MapData::new(dims(2, 2));
    field.set_quantity(1, 1, 8).unwrap();
    assert_eq!(field.consume(2, 1, 1), Err(SimError::OutOfBounds { x: 2, y: 1 }));
    assert_eq!(field.quantity_at(1, 1), Ok(8));
}

#[test]
fn fill_random_stays_below_bound() {
    let mut field = MapData::new(dims(10, 10));
    let mut rng = StdRng::seed_from_u64(42);
    field.fill_random(&mut rng, 20);
    let mut seen = std::collections::BTreeSet::new();
    for x in 0..10 {
        for y in 0..10 {
            let q = field.quantity_at(x, y).unwrap();
            assert!(q < 20);
            seen.insert(q);
        }
    }
    assert!(seen.len() > 1);
}

#[test]
fn fill_random_with_same_seed_is_reproducible() {
    let (a, _) = reference_world(9);
    let (b, _) = reference_world(9);
    for x in 0..10 {
        for y in 0..10 {
            assert_eq!(a.quantity_at(x, y), b.quantity_at(x, y));
        }
    }
}

#[test]
fn dimensions_contain_only_cells_on_the_field() {
    let d = dims(10, 10);
    assert!(d.contains(0, 0));
    assert!(d.contains(9, 9));
    assert!(!d.contains(10, 9));
    assert!(!d.contains(100, 1000));
}

#[test]
fn add_agent_rejects_placement_off_the_field() {
    let d = dims(10, 10);
    let mut store = AgentStore::new();
    let r = store.add_agent(agent("Far", 100, 1000, 1, 1), &d);
    assert_eq!(r, Err(SimError::OutOfBounds { x: 100, y: 1000 }));
    assert_eq!(store.len(), 0);
    assert_eq!(store.add_agent(agent("Near", 9, 9, 1, 1), &d), Ok(()));
    assert_eq!(store.len(), 1);
    assert_eq!(store.agent(0).name.0, "Near");
}

#[test]
fn set_position_moves_one_agent() {
    let d = dims(10, 10);
    let mut store = store_of(&d, vec![agent("A", 1, 1, 1, 1), agent("B", 2, 2, 1, 1)]);
    store.set_position(1, Location { x: 5, y: 6 });
    assert_eq!(location(&store, 0), (1, 1));
    assert_eq!(location(&store, 1), (5, 6));
    assert_eq!(store.agent(1).name.0, "B");
}

#[test]
fn snapshot_records_start_positions() {
    let d = dims(10, 10);
    let store = store_of(&d, vec![agent("A", 3, 3, 1, 1), agent("B", 4, 3, 1, 1)]);
    let snap = Snapshot::of(&store);
    assert!(snap.is_occupied(3, 3));
    assert!(snap.is_occupied(4, 3));
    assert!(!snap.is_occupied(3, 4));
    assert!(!snap.is_occupied(5, 3));
}

#[test]
fn tie_break_selects_strict_maximum_in_row() {
    let d = dims(4, 1);
    let mut field = MapData::new(d);
    for (x, q) in [5u32, 5, 9, 5].iter().enumerate() {
        field.set_quantity(x as u32, 0, *q).unwrap();
    }
    for vision in [3u32, 4, 10] {
        let store = store_of(&d, vec![agent("A", 0, 0, vision, 0)]);
        let snap = Snapshot::of(&store);
        let to = choose_destination(&field, &snap, store.agent(0));
        assert_eq!(to, Location { x: 2, y: 0 });
    }
}

#[test]
fn equal_quantities_keep_first_cell_scanned() {
    let d = dims(10, 10);
    let mut field = MapData::new(d);
    field.set_quantity(2, 5, 6).unwrap();
    field.set_quantity(6, 5, 6).unwrap();
    field.set_quantity(4, 3, 6).unwrap();
    let store = store_of(&d, vec![agent("A", 4, 5, 3, 0)]);
    let snap = Snapshot::of(&store);
    assert_eq!(choose_destination(&field, &snap, store.agent(0)), Location { x: 2, y: 5 });
}

#[test]
fn column_beats_row_only_when_strictly_richer() {
    let d = dims(10, 10);
    let mut field = MapData::new(d);
    field.set_quantity(5, 5, 4).unwrap();
    field.set_quantity(4, 6, 7).unwrap();
    let store = store_of(&d, vec![agent("A", 4, 5, 2, 0)]);
    let snap = Snapshot::of(&store);
    assert_eq!(choose_destination(&field, &snap, store.agent(0)), Location { x: 4, y: 6 });
}

#[test]
fn vision_window_excludes_far_end() {
    let d = dims(10, 10);
    let mut field = MapData::new(d);
    field.set_quantity(6, 4, 9).unwrap();
    field.set_quantity(2, 4, 1).unwrap();
    let store = store_of(&d, vec![agent("A", 4, 4, 2, 0)]);
    let snap = Snapshot::of(&store);
    assert_eq!(choose_destination(&field, &snap, store.agent(0)), Location { x: 2, y: 4 });
}

#[test]
fn zero_resource_cross_falls_back_to_origin() {
    let d = dims(10, 10);
    let mut field = MapData::new(d);
    field.set_quantity(7, 7, 12).unwrap();
    let mut store = store_of(&d, vec![agent("A", 5, 5, 2, 1)]);
    let snap = Snapshot::of(&store);
    assert_eq!(choose_destination(&field, &snap, store.agent(0)), Location { x: 0, y: 0 });
    assert_eq!(simulation_step(&mut field, &mut store), Ok(()));
    assert_eq!(location(&store, 0), (0, 0));
    assert_eq!(field.quantity_at(0, 0), Ok(0));
}

#[test]
fn zero_vision_falls_back_to_origin() {
    let d = dims(10, 10);
    let mut field = MapData::new(d);
    field.set_quantity(5, 5, 3).unwrap();
    field.set_quantity(6, 5, 3).unwrap();
    let store = store_of(&d, vec![agent("A", 5, 5, 0, 1)]);
    let snap = Snapshot::of(&store);
    assert_eq!(choose_destination(&field, &snap, store.agent(0)), Location { x: 0, y: 0 });
}

#[test]
fn vision_is_clipped_at_the_corner() {
    let d = dims(10, 10);
    let mut field = MapData::new(d);
    field.set_quantity(9, 0, 7).unwrap();
    field.set_quantity(0, 9, 8).unwrap();
    for vision in [1u32, 5, 10, 11, u32::MAX] {
        let store = store_of(&d, vec![agent("A", 0, 0, vision, 0)]);
        let snap = Snapshot::of(&store);
        let to = choose_destination(&field, &snap, store.agent(0));
        assert!(d.contains(to.x, to.y));
        if vision >= 10 {
            assert_eq!(to, Location { x: 0, y: 9 });
        } else {
            assert_eq!(to, Location { x: 0, y: 0 });
        }
    }
}

#[test]
fn agents_decide_against_start_of_tick_positions() {
    let d = dims(10, 10);
    let mut field = MapData::new(d);
    field.set_quantity(3, 3, 8).unwrap();
    field.set_quantity(4, 3, 9).unwrap();
    field.set_quantity(2, 3, 1).unwrap();
    field.set_quantity(5, 3, 2).unwrap();
    let mut store = store_of(&d, vec![agent("A", 3, 3, 2, 1), agent("B", 4, 3, 2, 1)]);
    assert_eq!(simulation_step(&mut field, &mut store), Ok(()));
    assert_eq!(location(&store, 0), (2, 3));
    assert_eq!(location(&store, 1), (5, 3));
    assert_eq!(field.quantity_at(2, 3), Ok(0));
    assert_eq!(field.quantity_at(5, 3), Ok(1));
    assert_eq!(field.quantity_at(3, 3), Ok(8));
    assert_eq!(field.quantity_at(4, 3), Ok(9));
}

#[test]
fn later_agent_sees_earlier_consumption() {
    let d = dims(5, 1);
    let mut field = MapData::new(d);
    field.set_quantity(1, 0, 7).unwrap();
    field.set_quantity(2, 0, 10).unwrap();
    let mut store = store_of(&d, vec![agent("A", 0, 0, 5, 5), agent("B", 4, 0, 5, 3)]);
    assert_eq!(simulation_step(&mut field, &mut store), Ok(()));
    assert_eq!(location(&store, 0), (2, 0));
    assert_eq!(location(&store, 1), (1, 0));
    assert_eq!(field.quantity_at(2, 0), Ok(5));
    assert_eq!(field.quantity_at(1, 0), Ok(4));
}

#[test]
fn step_keeps_name_vision_and_metabolism() {
    let (mut field, mut store) = reference_world(3);
    assert_eq!(simulation_step(&mut field, &mut store), Ok(()));
    assert_eq!(store.len(), 2);
    assert_eq!(store.agent(0).name.0, "Smith");
    assert_eq!(store.agent(0).vision, Vision(4));
    assert_eq!(store.agent(0).metabolism, Metabolism { sugar: 5, spice: 3 });
    assert_eq!(store.agent(1).name.0, "Jones");
    assert_eq!(store.agent(1).vision, Vision(2));
    assert_eq!(store.agent(1).metabolism, Metabolism { sugar: 7, spice: 4 });
}

#[test]
fn step_reports_agent_off_the_field_and_changes_nothing() {
    let d = dims(10, 10);
    let mut field = MapData::new(d);
    field.set_quantity(1, 0, 5).unwrap();
    let mut store = store_of(&d, vec![agent("A", 0, 0, 3, 1), agent("B", 5, 5, 3, 1)]);
    store.set_position(1, Location { x: 100, y: 1000 });
    let r = simulation_step(&mut field, &mut store);
    assert_eq!(r, Err(SimError::OutOfBounds { x: 100, y: 1000 }));
    assert_eq!(location(&store, 0), (0, 0));
    assert_eq!(location(&store, 1), (100, 1000));
    assert_eq!(field.quantity_at(1, 0), Ok(5));
}

#[test]
fn agents_stay_in_bounds_over_many_ticks() {
    let (mut field, mut store) = reference_world(11);
    let d = field.dims();
    for _ in 0..50 {
        assert_eq!(simulation_step(&mut field, &mut store), Ok(()));
        for i in 0..store.len() {
            let l = store.agent(i).location;
            assert!(d.contains(l.x, l.y));
        }
    }
}

#[test]
fn identical_worlds_step_identically() {
    let (mut f1, mut s1) = reference_world(5);
    let (mut f2, mut s2) = reference_world(5);
    for _ in 0..5 {
        assert_eq!(simulation_step(&mut f1, &mut s1), Ok(()));
        assert_eq!(simulation_step(&mut f2, &mut s2), Ok(()));
        for i in 0..2 {
            assert_eq!(location(&s1, i), location(&s2, i));
        }
        for x in 0..10 {
            for y in 0..10 {
                assert_eq!(f1.quantity_at(x, y), f2.quantity_at(x, y));
            }
        }
    }
}

#[test]
fn step_on_empty_store_changes_nothing() {
    let d = dims(3, 3);
    let mut field = MapData::new(d);
    field.set_quantity(1, 1, 4).unwrap();
    let mut store = AgentStore::new();
    assert_eq!(simulation_step(&mut field, &mut store), Ok(()));
    assert_eq!(field.quantity_at(1, 1), Ok(4));
}

#[test]
fn fill_from_places_draws_column_by_column() {
    let mut field = MapData::new(dims(3, 2));
    field.set_quantity(2, 1, 99).unwrap();
    field.fill_from(&vec![10, 11, 12, 13, 14, 15]);
    assert_eq!(field.quantity_at(0, 0), Ok(10));
    assert_eq!(field.quantity_at(0, 1), Ok(11));
    assert_eq!(field.quantity_at(1, 0), Ok(12));
    assert_eq!(field.quantity_at(1, 1), Ok(13));
    assert_eq!(field.quantity_at(2, 0), Ok(14));
    assert_eq!(field.quantity_at(2, 1), Ok(15));
}

#[test]
fn fill_random_overwrites_old_contents() {
    let mut field = MapData::new(dims(4, 4));
    for x in 0..4 {
        for y in 0..4 {
            field.set_quantity(x, y, 500).unwrap();
        }
    }
    let mut rng = StdRng::seed_from_u64(1);
    field.fill_random(&mut rng, 20);
    for x in 0..4 {
        for y in 0..4 {
            assert!(field.quantity_at(x, y).unwrap() < 20);
        }
    }
}

#[test]
fn fill_random_places_draws_as_fill_from_does() {
    let mut a = MapData::new(dims(3, 5));
    let mut rng = StdRng::seed_from_u64(77);
    a.fill_random(&mut rng, 20);
    let mut rng = StdRng::seed_from_u64(77);
    let draws: Vec<u32> = (0..15).map(|_| rng.gen_range(0..20u32)).collect();
    let mut b = MapData::new(dims(3, 5));
    b.fill_from(&draws);
    for x in 0..3 {
        for y in 0..5 {
            assert_eq!(a.quantity_at(x, y), b.quantity_at(x, y));
        }
    }
}
