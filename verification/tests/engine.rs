use seating::cost::Cost;
use seating::ids::{Id, NameToId, Scores};
use seating::search::{Move, Moves, Search, TEMP_RISE, TEMP_SCALE};
use seating::tables::{TableSpec, Tables};

fn layout(spec: &[(usize, usize)]) -> Tables {
    let specs: Vec<TableSpec> = spec
        .iter()
        .map(|&(seats, quantity)| TableSpec { seats, quantity })
        .collect();
    Tables::from_specs(&specs).expect("layout fits in usize")
}

/// Four people for two tables of two; A and B want to sit together
/// (score -10), everyone else is neutral.
fn four_people() -> (Vec<Id>, Scores) {
    let mut reg = NameToId::new();
    let a = reg.add_person(String::from("A"));
    let b = reg.add_person(String::from("B"));
    let c = reg.add_person(String::from("C"));
    let d = reg.add_person(String::from("D"));
    let mut scores = Scores::new();
    scores.add_score(a, b, -10);
    (vec![a, b, c, d], scores)
}

#[test]
fn batch_trial_leaves_assignment_unchanged() {
    // The trial path applies and reverts: the assignment afterwards
    // is exactly the assignment before.
    let (ids, scores) = four_people();
    let t = layout(&[(2, 2)]);
    let mut seats = t.create_seats_from(&ids).unwrap();
    let before = seats.occupants();
    let cost = Cost::new(scores);
    let moves = Moves::from_vec(vec![Move::new(0, 2), Move::new(1, 3), Move::new(0, 3)]);
    let trial_cost = moves.cost_of_moves(&mut seats, &cost);
    assert_eq!(seats.occupants(), before);
    // Applying the same batch for real yields the reported cost.
    moves.apply(&mut seats);
    assert_eq!(cost.total_cost(&seats), trial_cost);
    moves.unapply(&mut seats);
    assert_eq!(seats.occupants(), before);
}

#[test]
fn single_move_trial_reports_marginal_costs() {
    let (ids, scores) = four_people();
    let t = layout(&[(2, 2)]);
    // Seated in order: A,B on table one, C,D on table two.
    let mut seats = t.create_seats_from(&ids).unwrap();
    let before = seats.occupants();
    let cost = Cost::new(scores);
    // Swapping B (seat 1) and C (seat 2) separates A and B: seat 1
    // then holds C beside A and seat 2 holds B beside D, both
    // unscored pairs.
    let m = Move::new(1, 2);
    let c = m.cost_of_move(&mut seats, &cost);
    assert_eq!(seats.occupants(), before);
    assert_eq!(c, 0);
}

#[test]
fn random_moves_cross_tables() {
    let (ids, _) = four_people();
    let t = layout(&[(2, 2)]);
    let seats = t.create_seats_from(&ids).unwrap();
    for _ in 0..100 {
        let m = Move::random(&seats);
        assert!(m.a < 4 && m.b < 4);
        let ra = seats.indexes_on_table_with_index(m.a);
        let rb = seats.indexes_on_table_with_index(m.b);
        assert_ne!(ra, rb);
    }
}

#[test]
fn random_batch_reverts_cleanly() {
    let (ids, _) = four_people();
    let t = layout(&[(2, 2)]);
    let mut seats = t.create_seats_from(&ids).unwrap();
    let before = seats.occupants();
    let ms = Moves::random(&seats, 4);
    ms.apply(&mut seats);
    ms.unapply(&mut seats);
    assert_eq!(seats.occupants(), before);
}

#[test]
fn engine_starts_cold_with_the_true_cost() {
    let (ids, scores) = four_people();
    let t = layout(&[(2, 2)]);
    let seats = t.create_seats_from(&ids).unwrap();
    let expected = Cost::new(scores.clone()).total_cost(&seats);
    let search = Search::new(seats, scores);
    assert_eq!(search.cost(), expected);
    assert_eq!(search.cost(), -10);
    assert_eq!(search.temperature(), 0);
}

#[test]
fn temperature_never_goes_negative() {
    // Temperature floor: from temperature 0, rejected steps only
    // raise it, and an accepted step's drop is clamped at 0.
    let (ids, scores) = four_people();
    let t = layout(&[(2, 2)]);
    // Seat A and B apart: A,C on table one, B,D on table two.
    let split = vec![ids[0], ids[2], ids[1], ids[3]];
    let seats = t.create_seats_from(&split).unwrap();
    let mut search = Search::new(seats, scores);
    assert_eq!(search.cost(), 0);
    assert_eq!(search.temperature(), 0);
    // Swapping C (seat 1) and D (seat 3) leaves the cost at 0, so
    // with a maximal draw the step is rejected and the temperature
    // drifts up one unit.
    let null_move = Moves::from_vec(vec![Move::new(1, 3)]);
    search.step_with(&null_move, TEMP_SCALE - 1);
    assert_eq!(search.cost(), 0);
    assert_eq!(search.temperature(), TEMP_RISE);
    search.step_with(&null_move, TEMP_SCALE - 1);
    assert_eq!(search.temperature(), 2 * TEMP_RISE);
    // Swapping B (seat 2) next to A improves the cost to -10: the
    // step is accepted and the cooling drop is clamped at 0.
    let join = Moves::from_vec(vec![Move::new(2, 1)]);
    search.step_with(&join, 0);
    assert_eq!(search.cost(), -10);
    assert_eq!(search.temperature(), 0);
}

#[test]
fn step_with_is_deterministic() {
    // Engine determinism modulo randomness: with the draws injected,
    // two engines built alike take identical steps.
    let (ids, scores) = four_people();
    let t = layout(&[(2, 2)]);
    let seats1 = t.create_seats_from(&ids).unwrap();
    let seats2 = t.create_seats_from(&ids).unwrap();
    let mut s1 = Search::new(seats1, scores.clone());
    let mut s2 = Search::new(seats2, scores);
    let script = || {
        vec![
            (Moves::from_vec(vec![Move::new(1, 2)]), 0u64),
            (Moves::from_vec(vec![Move::new(0, 3), Move::new(1, 2)]), 5u64),
            (Moves::from_vec(vec![Move::new(2, 0)]), 0u64),
        ]
    };
    for (ms, draw) in &script() {
        s1.step_with(ms, *draw);
    }
    for (ms, draw) in &script() {
        s2.step_with(ms, *draw);
    }
    assert_eq!(s1.cost(), s2.cost());
    assert_eq!(s1.temperature(), s2.temperature());
    assert_eq!(s1.best().occupants(), s2.best().occupants());
}

#[test]
fn engine_converges_on_wanted_pairing() {
    // End-to-end: A-B score -10, two tables of two; the search must
    // reach an arrangement with A and B together, total cost -10.
    let (ids, scores) = four_people();
    let t = layout(&[(2, 2)]);
    // Start with A and B apart so the engine has work to do.
    let split = vec![ids[0], ids[2], ids[1], ids[3]];
    let seats = t.create_seats_from(&split).unwrap();
    let mut search = Search::new(seats, scores);
    let mut best = search.cost();
    for _ in 0..200_000 {
        search.step();
        if search.cost() < best {
            best = search.cost();
        }
        if best == -10 {
            break;
        }
    }
    assert_eq!(best, -10);
}

#[test]
fn cached_cost_tracks_the_live_assignment() {
    let (ids, scores) = four_people();
    let t = layout(&[(2, 2)]);
    let seats = t.create_seats_from(&ids).unwrap();
    let checker = Cost::new(scores.clone());
    let mut search = Search::new(seats, scores);
    for _ in 0..500 {
        search.step();
        assert_eq!(search.cost(), checker.total_cost(search.best()));
    }
}
