//! The type registry: stable, memoizing identity assignment.

use kvantuma::component::{TypeRegistry, component_id};

#[test]
fn identity_is_stable_across_repeated_calls() {
    let mut reg = TypeRegistry::new();
    let first = component_id(&mut reg, 0xDEAD);
    let second = component_id(&mut reg, 0xDEAD);
    let third = component_id(&mut reg, 0xDEAD);
    assert_eq!(first, second);
    assert_eq!(first, third);
}

#[test]
fn distinct_keys_never_collide() {
    let mut reg = TypeRegistry::new();
    let a = component_id(&mut reg, 1);
    let b = component_id(&mut reg, 2);
    let c = component_id(&mut reg, 3);
    assert_ne!(a, b);
    assert_ne!(a, c);
    assert_ne!(b, c);
    assert_eq!(a, component_id(&mut reg, 1));
    assert_eq!(b, component_id(&mut reg, 2));
    assert_eq!(c, component_id(&mut reg, 3));
}

#[test]
fn identities_start_above_the_sentinel() {
    let mut reg = TypeRegistry::new();
    let a = component_id(&mut reg, 42);
    assert_ne!(a, 0);
    assert_eq!(a, 1);
    assert_eq!(component_id(&mut reg, 43), 2);
    assert_eq!(component_id(&mut reg, 44), 3);
}

#[test]
fn interleaved_lookups_keep_assignments() {
    let mut reg = TypeRegistry::new();
    let a = component_id(&mut reg, 10);
    let b = component_id(&mut reg, 20);
    let a2 = component_id(&mut reg, 10);
    let c = component_id(&mut reg, 30);
    let b2 = component_id(&mut reg, 20);
    assert_eq!(a, a2);
    assert_eq!(b, b2);
    assert_eq!(vec![a, b, c], vec![1, 2, 3]);
}
