use seating::ids::{NameToId, Scores};

#[test]
fn register_is_idempotent() {
    let mut reg = NameToId::new();
    let a1 = reg.add_person(String::from("Alice"));
    let b1 = reg.add_person(String::from("Bob"));
    let a2 = reg.add_person(String::from("Alice"));
    assert_eq!(a1, a2);
    assert_ne!(a1, b1);
    assert_eq!(reg.count(), 2);
}

#[test]
fn register_round_trips_names_and_ids() {
    let mut reg = NameToId::new();
    let a = reg.add_person(String::from("Alice"));
    let b = reg.add_person(String::from("Bob"));
    assert_eq!(reg.get_id("Alice"), Some(a));
    assert_eq!(reg.get_id("Bob"), Some(b));
    assert_eq!(reg.get_id("Carol"), None);
    assert_eq!(reg.get_name(a), Some("Alice"));
    assert_eq!(reg.get_name(b), Some("Bob"));
}

#[test]
fn unknown_id_has_no_name() {
    let mut reg = NameToId::new();
    let a = reg.add_person(String::from("Alice"));
    assert_eq!(reg.get_name(a), Some("Alice"));
    // Only one identifier was handed out, so the registry holds
    // exactly one id; iterate and check.
    let ids = reg.iter_ids();
    assert_eq!(ids.len(), 1);
    assert_eq!(ids[0], a);
}

#[test]
fn iter_ids_covers_every_person() {
    let mut reg = NameToId::new();
    let a = reg.add_person(String::from("A"));
    let b = reg.add_person(String::from("B"));
    let c = reg.add_person(String::from("C"));
    let ids = reg.iter_ids();
    assert_eq!(ids.len(), 3);
    assert!(ids.contains(&a));
    assert!(ids.contains(&b));
    assert!(ids.contains(&c));
}

#[test]
fn score_symmetry() {
    // Symmetry: storing a score under (a, b) makes it readable under
    // both (a, b) and (b, a).
    let mut reg = NameToId::new();
    let a = reg.add_person(String::from("Alice"));
    let b = reg.add_person(String::from("Bob"));
    let mut scores = Scores::new();
    scores.add_score(a, b, 7);
    assert_eq!(scores.get_score(a, b), Some(7));
    assert_eq!(scores.get_score(b, a), Some(7));
    scores.add_score(b, a, -3);
    assert_eq!(scores.get_score(a, b), Some(-3));
    assert_eq!(scores.get_score(b, a), Some(-3));
}

#[test]
fn missing_pair_is_absent_not_error() {
    let mut reg = NameToId::new();
    let a = reg.add_person(String::from("Alice"));
    let b = reg.add_person(String::from("Bob"));
    let c = reg.add_person(String::from("Carol"));
    let mut scores = Scores::new();
    scores.add_score(a, b, 5);
    assert_eq!(scores.get_score(a, c), None);
    assert_eq!(scores.get_score(b, c), None);
    assert_eq!(scores.get_score(a, a), None);
}

#[test]
fn other_pairs_keep_their_scores() {
    let mut reg = NameToId::new();
    let a = reg.add_person(String::from("A"));
    let b = reg.add_person(String::from("B"));
    let c = reg.add_person(String::from("C"));
    let mut scores = Scores::new();
    scores.add_score(a, b, 1);
    scores.add_score(a, c, 2);
    scores.add_score(b, c, 3);
    scores.add_score(a, b, 9);
    assert_eq!(scores.get_score(a, b), Some(9));
    assert_eq!(scores.get_score(a, c), Some(2));
    assert_eq!(scores.get_score(c, b), Some(3));
}
