use seating::cost::Cost;
use seating::ids::{Id, NameToId, Scores};
use seating::tables::{TableSpec, Tables};

fn layout(spec: &[(usize, usize)]) -> Tables {
    let specs: Vec<TableSpec> = spec
        .iter()
        .map(|&(seats, quantity)| TableSpec { seats, quantity })
        .collect();
    Tables::from_specs(&specs).expect("layout fits in usize")
}

fn three_people() -> (Vec<Id>, Scores) {
    let mut reg = NameToId::new();
    let p1 = reg.add_person(String::from("p1"));
    let p2 = reg.add_person(String::from("p2"));
    let p3 = reg.add_person(String::from("p3"));
    let mut scores = Scores::new();
    scores.add_score(p1, p2, 5);
    scores.add_score(p1, p3, -2);
    scores.add_score(p2, p3, 0);
    (vec![p1, p2, p3], scores)
}

#[test]
fn empty_assignment_costs_nothing() {
    // Cost non-negativity of absence: with every seat empty the
    // total cost is 0, whatever the affinity table holds.
    let (_, scores) = three_people();
    let t = layout(&[(3, 2)]);
    let nobody: Vec<Id> = Vec::new();
    let seats = t.create_seats_from(&nobody).unwrap();
    let cost = Cost::new(scores);
    assert_eq!(cost.total_cost(&seats), 0);
}

#[test]
fn single_table_cost_consistency() {
    // Cost consistency: occupants {p1,p2,p3} with scores 5, -2, 0
    // give a total of 3, and p1's marginal cost is 5 + -2 = 3.
    let (ids, scores) = three_people();
    let t = layout(&[(3, 1)]);
    let seats = t.create_seats_from(&ids).unwrap();
    let cost = Cost::new(scores);
    assert_eq!(cost.total_cost(&seats), 3);
    assert_eq!(cost.individual_cost(&seats, 0), 3);
    assert_eq!(cost.individual_cost(&seats, 1), 5);
    assert_eq!(cost.individual_cost(&seats, 2), -2);
}

#[test]
fn pairs_on_different_tables_do_not_count() {
    let (ids, scores) = three_people();
    // p1 alone on one table, p2 and p3 on the other: only the
    // p2-p3 pair (score 0) shares a table.
    let t = layout(&[(1, 1), (2, 1)]);
    let seats = t.create_seats_from(&ids).unwrap();
    let cost = Cost::new(scores);
    assert_eq!(cost.total_cost(&seats), 0);
    assert_eq!(cost.individual_cost(&seats, 0), 0);
}

#[test]
fn empty_slots_contribute_nothing() {
    let (ids, scores) = three_people();
    // Three people on a table of five: two empty slots beside them.
    let t = layout(&[(5, 1)]);
    let seats = t.create_seats_from(&ids).unwrap();
    let cost = Cost::new(scores);
    assert_eq!(cost.total_cost(&seats), 3);
    assert_eq!(cost.individual_cost(&seats, 3), 0);
}

#[test]
fn unscored_pairs_read_as_zero() {
    let mut reg = NameToId::new();
    let a = reg.add_person(String::from("a"));
    let b = reg.add_person(String::from("b"));
    let t = layout(&[(2, 1)]);
    let seats = t.create_seats_from(&vec![a, b]).unwrap();
    let cost = Cost::new(Scores::new());
    assert_eq!(cost.total_cost(&seats), 0);
    assert_eq!(cost.individual_cost(&seats, 0), 0);
}

#[test]
fn negative_scores_lower_the_total() {
    let mut reg = NameToId::new();
    let a = reg.add_person(String::from("a"));
    let b = reg.add_person(String::from("b"));
    let mut scores = Scores::new();
    scores.add_score(a, b, -10);
    let t = layout(&[(2, 1)]);
    let seats = t.create_seats_from(&vec![a, b]).unwrap();
    let cost = Cost::new(scores);
    assert_eq!(cost.total_cost(&seats), -10);
}
