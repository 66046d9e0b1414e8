use seating::tables::{SeatRange, TableSpec, TableSpecError, Tables};

fn layout(spec: &[(usize, usize)]) -> Tables {
    let specs: Vec<TableSpec> = spec
        .iter()
        .map(|&(seats, quantity)| TableSpec { seats, quantity })
        .collect();
    Tables::from_specs(&specs).expect("layout fits in usize")
}

#[test]
fn layout_coverage_example() {
    // Layout coverage: [(4,2),(6,1)] expands to the contiguous
    // ranges [0,4), [4,8), [8,14), total capacity 14.
    let t = layout(&[(4, 2), (6, 1)]);
    assert_eq!(t.seat_count(), 14);
    let ranges = t.table_indexes();
    assert_eq!(ranges.len(), 3);
    assert_eq!(ranges[0], SeatRange { start: 0, end: 4 });
    assert_eq!(ranges[1], SeatRange { start: 4, end: 8 });
    assert_eq!(ranges[2], SeatRange { start: 8, end: 14 });
}

#[test]
fn empty_layout_has_no_seats() {
    let t = layout(&[]);
    assert_eq!(t.seat_count(), 0);
    assert_eq!(t.table_indexes().len(), 0);
    assert!(!t.multi_table());
}

#[test]
fn containing_table_found_by_binary_search() {
    let t = layout(&[(4, 2), (6, 1)]);
    assert_eq!(t.table_indexes_containing(0), SeatRange { start: 0, end: 4 });
    assert_eq!(t.table_indexes_containing(3), SeatRange { start: 0, end: 4 });
    assert_eq!(t.table_indexes_containing(4), SeatRange { start: 4, end: 8 });
    assert_eq!(t.table_indexes_containing(7), SeatRange { start: 4, end: 8 });
    assert_eq!(t.table_indexes_containing(8), SeatRange { start: 8, end: 14 });
    assert_eq!(t.table_indexes_containing(13), SeatRange { start: 8, end: 14 });
}

#[test]
fn multi_table_distinguishes_layouts() {
    assert!(!layout(&[(6, 1)]).multi_table());
    assert!(layout(&[(1, 2)]).multi_table());
    assert!(layout(&[(2, 2)]).multi_table());
    // A lone table plus empty tables still concentrates all seats on
    // one table.
    assert!(!layout(&[(6, 1), (0, 3)]).multi_table());
}

#[test]
fn layout_overflow_is_rejected() {
    let specs = vec![TableSpec { seats: usize::MAX, quantity: 2 }];
    assert!(Tables::from_specs(&specs).is_none());
}

#[test]
fn parse_plain_number_is_one_table() {
    assert_eq!(TableSpec::parse(b"8"), Ok(TableSpec { seats: 8, quantity: 1 }));
    assert_eq!(TableSpec::parse(b"12"), Ok(TableSpec { seats: 12, quantity: 1 }));
}

#[test]
fn parse_seats_by_tables() {
    assert_eq!(TableSpec::parse(b"6x3"), Ok(TableSpec { seats: 6, quantity: 3 }));
    assert_eq!(TableSpec::parse(b"6X3"), Ok(TableSpec { seats: 6, quantity: 3 }));
    assert_eq!(TableSpec::parse(b"10x2"), Ok(TableSpec { seats: 10, quantity: 2 }));
}

#[test]
fn parse_rejects_malformed_specs() {
    assert_eq!(TableSpec::parse(b""), Err(TableSpecError::BadShape));
    assert_eq!(TableSpec::parse(b"abc"), Err(TableSpecError::BadShape));
    assert_eq!(
        TableSpec::parse(b"99999999999999999999999999"),
        Err(TableSpecError::BadShape)
    );
    assert_eq!(TableSpec::parse(b"x3"), Err(TableSpecError::BadSeats));
    assert_eq!(TableSpec::parse(b"ax3"), Err(TableSpecError::BadSeats));
    assert_eq!(TableSpec::parse(b"3x"), Err(TableSpecError::BadQuantity));
    assert_eq!(TableSpec::parse(b"3xx2"), Err(TableSpecError::BadQuantity));
    assert_eq!(TableSpec::parse(b"3x2x4"), Err(TableSpecError::BadQuantity));
}
