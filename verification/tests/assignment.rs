use seating::ids::{Id, NameToId};
use seating::tables::{CapacityError, TableSpec, Tables};

fn layout(spec: &[(usize, usize)]) -> Tables {
    let specs: Vec<TableSpec> = spec
        .iter()
        .map(|&(seats, quantity)| TableSpec { seats, quantity })
        .collect();
    Tables::from_specs(&specs).expect("layout fits in usize")
}

fn people(n: usize) -> (NameToId, Vec<Id>) {
    let mut reg = NameToId::new();
    let mut ids = Vec::new();
    for i in 0..n {
        ids.push(reg.add_person(format!("person-{}", i)));
    }
    (reg, ids)
}

#[test]
fn too_many_people_fail_with_capacity_error() {
    // Capacity precondition: more items than seats always fails.
    let t = layout(&[(1, 2)]);
    let (_, ids) = people(3);
    let err = t.create_seats_from(&ids).unwrap_err();
    assert_eq!(err, CapacityError { needed: 3, available: 2 });
}

#[test]
fn exactly_capacity_fills_every_slot() {
    // Capacity precondition: exactly as many items as seats leaves
    // no slot empty.
    let t = layout(&[(2, 2)]);
    let (_, ids) = people(4);
    let seats = t.create_seats_from(&ids).unwrap();
    assert_eq!(seats.len(), 4);
    assert!(seats.is_well_formed());
    for i in 0..4 {
        assert_eq!(seats.get(i), Some(ids[i]));
    }
}

#[test]
fn fewer_people_pad_with_empty_slots() {
    let t = layout(&[(3, 2)]);
    let (_, ids) = people(2);
    let seats = t.create_seats_from(&ids).unwrap();
    assert_eq!(seats.len(), 6);
    assert_eq!(seats.get(0), Some(ids[0]));
    assert_eq!(seats.get(1), Some(ids[1]));
    for i in 2..6 {
        assert_eq!(seats.get(i), None);
    }
}

#[test]
fn swap_is_self_inverse() {
    // Move self-inverse: swapping the same two slots twice restores
    // the original contents exactly, empty slots included.
    let t = layout(&[(2, 2)]);
    let (_, ids) = people(3);
    let mut seats = t.create_seats_from(&ids).unwrap();
    let before = seats.occupants();
    seats.swap(0, 3);
    assert_eq!(seats.get(0), None);
    assert_eq!(seats.get(3), Some(ids[0]));
    seats.swap(0, 3);
    assert_eq!(seats.occupants(), before);
}

#[test]
fn assignment_delegates_table_lookups() {
    let t = layout(&[(2, 1), (3, 1)]);
    let (_, ids) = people(4);
    let seats = t.create_seats_from(&ids).unwrap();
    let ranges = seats.indexes_on_each_table();
    assert_eq!(ranges.len(), 2);
    assert_eq!(ranges[0].start, 0);
    assert_eq!(ranges[0].end, 2);
    assert_eq!(ranges[1].start, 2);
    assert_eq!(ranges[1].end, 5);
    assert_eq!(seats.indexes_on_table_with_index(1), ranges[0]);
    assert_eq!(seats.indexes_on_table_with_index(4), ranges[1]);
}
