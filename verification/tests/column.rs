//! Columns: raw byte storage with doubling growth and teardown records.

use kvantuma::archetype::{Archetype, ArchetypeMask, Column};
use kvantuma::component::{ComponentKind, ErasedComponent};

#[test]
fn push_stores_bytes_in_row_order() {
    let mut col = Column::new(4, 1, 2, ComponentKind::Pod);
    col.push(&[1, 2]);
    col.push(&[3, 4]);
    col.push(&[5, 6]);
    assert_eq!(col.len, 3);
    assert_eq!(col.capacity, 4);
    assert_eq!(col.read(0), vec![1, 2]);
    assert_eq!(col.read(1), vec![3, 4]);
    assert_eq!(col.read(2), vec![5, 6]);
}

#[test]
fn growth_doubles_capacity_and_preserves_content() {
    let mut col = Column::new(2, 7, 4, ComponentKind::Pod);
    let mut expected: Vec<Vec<u8>> = Vec::new();
    for i in 0..9u8 {
        let bytes = [i, i.wrapping_mul(3), 0xAB, i.wrapping_add(1)];
        col.push(&bytes);
        expected.push(bytes.to_vec());
    }
    // capacity 2 -> 4 -> 8 -> 16 across nine pushes
    assert_eq!(col.capacity, 16);
    assert_eq!(col.len, 9);
    for (i, bytes) in expected.iter().enumerate() {
        assert_eq!(&col.read(i), bytes, "row {i} changed across growth");
    }
}

#[test]
fn push_erased_matches_push() {
    let mut a = Column::new(2, 9, 3, ComponentKind::Pod);
    let mut b = Column::new(2, 9, 3, ComponentKind::Pod);
    let rec = ErasedComponent { id: 9, data: vec![10, 20, 30], kind: ComponentKind::Pod };
    a.push(&[10, 20, 30]);
    b.push_erased(&rec);
    assert_eq!(a.read(0), b.read(0));
    assert_eq!(a.len, b.len);
}

#[test]
fn write_replaces_one_row_only() {
    let mut col = Column::new(4, 1, 2, ComponentKind::Pod);
    col.push(&[1, 1]);
    col.push(&[2, 2]);
    col.push(&[3, 3]);
    col.write(1, &[9, 9]);
    assert_eq!(col.read(0), vec![1, 1]);
    assert_eq!(col.read(1), vec![9, 9]);
    assert_eq!(col.read(2), vec![3, 3]);
}

#[test]
fn destroy_hands_back_each_live_extern_element_once() {
    let mut col = Column::new(2, 5, 1, ComponentKind::Extern);
    col.push(&[11]);
    col.push(&[22]);
    col.push(&[33]);
    let drops = col.destroy();
    assert_eq!(drops, vec![vec![11], vec![22], vec![33]]);
}

#[test]
fn destroy_runs_no_destructor_for_plain_data() {
    let mut col = Column::new(2, 5, 1, ComponentKind::Pod);
    col.push(&[11]);
    col.push(&[22]);
    let drops = col.destroy();
    assert!(drops.is_empty());
}

#[test]
fn archetype_destroy_covers_extern_columns_only() {
    let mask = ArchetypeMask::from_ids(&[1, 2]);
    let mut plain = Column::new(4, 1, 1, ComponentKind::Pod);
    let mut owned = Column::new(4, 2, 2, ComponentKind::Extern);
    plain.push(&[7]);
    plain.push(&[8]);
    owned.push(&[1, 2]);
    owned.push(&[3, 4]);
    let mut arch = Archetype::new(mask, vec![plain, owned]);
    arch.add_entity(0);
    arch.add_entity(1);
    let drops = arch.destroy();
    assert_eq!(drops.len(), 2);
    assert_eq!(drops[0].id, 2);
    assert_eq!(drops[0].data, vec![1, 2]);
    assert!(matches!(drops[0].kind, ComponentKind::Extern));
    assert_eq!(drops[1].id, 2);
    assert_eq!(drops[1].data, vec![3, 4]);
}

#[test]
fn archetype_lookup_finds_columns_by_identity() {
    let mask = ArchetypeMask::from_ids(&[3, 8]);
    let a = Column::new(4, 3, 1, ComponentKind::Pod);
    let b = Column::new(4, 8, 2, ComponentKind::Pod);
    let mut arch = Archetype::new(mask, vec![a, b]);
    assert!(arch.has_components(&[3]));
    assert!(arch.has_components(&[8, 3]));
    assert!(!arch.has_components(&[4]));
    assert_eq!(arch.get_column_with_component(8).map(|c| c.meta.size), Some(2));
    assert!(arch.get_column_with_component(4).is_none());
    assert_eq!(arch.get_column_with_component_mut(3), Some(0));
    assert_eq!(arch.get_column_with_component_mut(8), Some(1));
    assert_eq!(arch.get_column_with_component_mut(9), None);
}
