//! The world: spawn routing, queries, and in-place writes.

use kvantuma::component::{ComponentKind, ErasedComponent};
use kvantuma::world::{Access, ComponentQuery, Query, World};

fn pod(id: u32, data: Vec<u8>) -> ErasedComponent {
    ErasedComponent { id, data, kind: ComponentKind::Pod }
}

#[test]
fn spawn_creates_one_archetype_per_schema() {
    let mut w = World::new();
    let e0 = w.spawn_erased(&[pod(1, vec![1]), pod(2, vec![2, 2])]);
    let e1 = w.spawn_erased(&[pod(1, vec![3]), pod(2, vec![4, 4])]);
    let e2 = w.spawn_erased(&[pod(3, vec![5])]);
    assert_eq!((e0, e1, e2), (0, 1, 2));
    assert_eq!(w.archetypes.len(), 2);
    assert_eq!(w.archetypes[0].entities, vec![0, 1]);
    assert_eq!(w.archetypes[1].entities, vec![2]);
}

#[test]
fn bundles_with_reversed_order_share_an_archetype() {
    // Two spawns with {Position(id=1), Velocity(id=2)} given in opposite
    // construction order land in the same archetype, which then holds two
    // rows; a (read, write) query returns both rows, each resolvable back
    // to its entity identity.
    let mut w = World::new();
    let position = vec![10, 0, 0, 0];
    let velocity = vec![1, 0];
    let e0 = w.spawn_erased(&[pod(1, position.clone()), pod(2, velocity.clone())]);
    let e1 = w.spawn_erased(&[pod(2, vec![9, 9]), pod(1, vec![7, 0, 0, 0])]);
    assert_eq!(w.archetypes.len(), 1);
    assert_eq!(w.archetypes[0].entities.len(), 2);

    let results = w.query_erased(&[(1, Access::Read), (2, Access::Write)]);
    assert_eq!(results.len(), 2);
    assert_eq!(results[0].entity, e0);
    assert_eq!(results[1].entity, e1);
    match &results[0].components[0] {
        ComponentQuery::Read(bytes) => assert_eq!(bytes, &position),
        ComponentQuery::Write(_) => panic!("read access expected"),
    }
    match &results[1].components[1] {
        ComponentQuery::Write(loc) => {
            assert_eq!(w.read_component(*loc), vec![9, 9]);
        }
        ComponentQuery::Read(_) => panic!("write access expected"),
    }
}

#[test]
fn sixty_five_spawns_grow_the_column_once() {
    // One-component schema, initial column capacity 64: the 65th spawn
    // grows the column, which must still hold every value.
    let mut w = World::new();
    for i in 0..65u32 {
        let e = w.spawn_erased(&[pod(1, i.to_le_bytes().to_vec())]);
        assert_eq!(e, i);
    }
    assert_eq!(w.archetypes.len(), 1);
    let col = &w.archetypes[0].columns[0];
    assert_eq!(col.len, 65);
    assert!(col.capacity >= 128, "column should have grown at least once");
    for i in 0..65u32 {
        assert_eq!(col.read(i as usize), i.to_le_bytes().to_vec(), "row {i}");
    }
    assert_eq!(w.archetypes[0].entities.len(), 65);
}

#[test]
fn rows_stay_in_lockstep_across_spawns() {
    let mut w = World::new();
    w.spawn_erased(&[pod(1, vec![1]), pod(2, vec![2, 2])]);
    w.spawn_erased(&[pod(3, vec![3])]);
    w.spawn_erased(&[pod(2, vec![4, 4]), pod(1, vec![5])]);
    w.spawn_erased(&[pod(3, vec![6])]);
    for arch in &w.archetypes {
        for col in &arch.columns {
            assert_eq!(col.len, arch.entities.len());
        }
    }
}

#[test]
fn query_for_unseen_identity_is_empty() {
    let mut w = World::new();
    w.spawn_erased(&[pod(1, vec![1])]);
    let results = w.query_erased(&[(200, Access::Read)]);
    assert!(results.is_empty());
    let empty_world = World::new();
    assert!(empty_world.query_erased(&[(1, Access::Read)]).is_empty());
}

#[test]
fn query_visits_every_matching_archetype() {
    let mut w = World::new();
    w.spawn_erased(&[pod(1, vec![1]), pod(2, vec![2])]);
    w.spawn_erased(&[pod(1, vec![3])]);
    w.spawn_erased(&[pod(2, vec![4]), pod(3, vec![5])]);
    let only_first = w.query_erased(&[(1, Access::Read), (2, Access::Read)]);
    assert_eq!(only_first.len(), 1);
    let with_one = w.query_erased(&[(1, Access::Read)]);
    assert_eq!(with_one.len(), 2);
    let with_two = w.query_erased(&[(2, Access::Read)]);
    assert_eq!(with_two.len(), 2);
}

#[test]
fn write_component_updates_one_slice() {
    let mut w = World::new();
    w.spawn_erased(&[pod(1, vec![1, 1]), pod(2, vec![7])]);
    w.spawn_erased(&[pod(1, vec![2, 2]), pod(2, vec![8])]);
    let results = w.query_erased(&[(1, Access::Write)]);
    assert_eq!(results.len(), 2);
    let loc = match &results[1].components[0] {
        ComponentQuery::Write(loc) => *loc,
        ComponentQuery::Read(_) => panic!("write access expected"),
    };
    w.write_component(loc, &[5, 6]);
    assert_eq!(w.read_component(loc), vec![5, 6]);
    // the sibling row and the other column are untouched
    let after = w.query_erased(&[(1, Access::Read), (2, Access::Read)]);
    match &after[0].components[0] {
        ComponentQuery::Read(bytes) => assert_eq!(bytes, &vec![1, 1]),
        ComponentQuery::Write(_) => panic!("read access expected"),
    }
    match &after[1].components[1] {
        ComponentQuery::Read(bytes) => assert_eq!(bytes, &vec![8]),
        ComponentQuery::Write(_) => panic!("read access expected"),
    }
}

#[test]
fn empty_bundles_share_the_empty_schema() {
    let mut w = World::new();
    let e0 = w.spawn_erased(&[]);
    let e1 = w.spawn_erased(&[]);
    assert_eq!((e0, e1), (0, 1));
    assert_eq!(w.archetypes.len(), 1);
    assert_eq!(w.archetypes[0].entities, vec![0, 1]);
    assert!(w.archetypes[0].columns.is_empty());
    // the empty request matches every archetype, one result per row
    let results = w.query_erased(&[]);
    assert_eq!(results.len(), 2);
    assert!(results[0].components.is_empty());
}

#[test]
fn boundary_identity_is_usable() {
    let mut w = World::new();
    w.spawn_erased(&[pod(255, vec![1])]);
    let results = w.query_erased(&[(255, Access::Read)]);
    assert_eq!(results.len(), 1);
}

#[test]
fn typed_spawn_routes_like_the_erased_path() {
    let mut w = World::new();
    let bundle: Vec<ErasedComponent> = vec![pod(4, vec![1, 2, 3, 4]), pod(5, vec![9])];
    let e0 = w.spawn(&bundle);
    let e1 = w.spawn_erased(&[pod(5, vec![8]), pod(4, vec![4, 3, 2, 1])]);
    assert_eq!((e0, e1), (0, 1));
    assert_eq!(w.archetypes.len(), 1);
    assert_eq!(w.archetypes[0].entities, vec![0, 1]);
}

struct Heads;

impl Query for Heads {
    type Result = (u32, u8);

    fn query_world(world: &World) -> Vec<(u32, u8)> {
        world
            .query_erased(&[(1, Access::Read)])
            .into_iter()
            .map(|res| {
                let first = match &res.components[0] {
                    ComponentQuery::Read(bytes) => bytes[0],
                    ComponentQuery::Write(_) => panic!("read access expected"),
                };
                (res.entity, first)
            })
            .collect()
    }
}

#[test]
fn typed_query_decodes_the_erased_results() {
    let mut w = World::new();
    w.spawn_erased(&[pod(1, vec![41])]);
    w.spawn_erased(&[pod(1, vec![42])]);
    let heads = w.query::<Heads>();
    assert_eq!(heads, vec![(0, 41), (1, 42)]);
}
