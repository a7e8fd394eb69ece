//! Schema masks: construction and containment.

use kvantuma::archetype::ArchetypeMask;

#[test]
fn mask_contains_is_reflexive() {
    let m = ArchetypeMask::from_ids(&[1, 2, 200]);
    assert!(m.contains(&m));
}

#[test]
fn mask_contains_subsets() {
    let big = ArchetypeMask::from_ids(&[1, 2, 3, 70, 140, 250]);
    let small = ArchetypeMask::from_ids(&[2, 140]);
    assert!(big.contains(&small));
    assert!(!small.contains(&big));
}

#[test]
fn mask_contains_is_transitive_on_values() {
    let a = ArchetypeMask::from_ids(&[1, 2, 3, 4, 100]);
    let b = ArchetypeMask::from_ids(&[2, 3, 100]);
    let c = ArchetypeMask::from_ids(&[3, 100]);
    assert!(a.contains(&b));
    assert!(b.contains(&c));
    assert!(a.contains(&c));
}

#[test]
fn empty_mask_is_contained_by_every_mask() {
    let empty = ArchetypeMask::from_ids(&[]);
    let m = ArchetypeMask::from_ids(&[5, 64, 128, 192]);
    assert!(m.contains(&empty));
    assert!(empty.contains(&empty));
    assert!(!empty.contains(&m));
}

#[test]
fn mask_ignores_identity_order() {
    let a = ArchetypeMask::from_ids(&[9, 64, 199]);
    let b = ArchetypeMask::from_ids(&[199, 9, 64]);
    assert!(a == b);
}

#[test]
fn disjoint_masks_do_not_contain_each_other() {
    let a = ArchetypeMask::from_ids(&[1, 65]);
    let b = ArchetypeMask::from_ids(&[2, 66]);
    assert!(!a.contains(&b));
    assert!(!b.contains(&a));
}
