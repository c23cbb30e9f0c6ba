use timeline_engine::checker::{accepts, cast_covers, check_timeline, has_double_death, isPossible, Verdict};
use timeline_engine::types::{Character, Effect, Event};
use timeline_engine::types::Effect::Death;

fn character(name: &str, faction: &str) -> Character {
    Character::new(name.to_string(), faction.to_string())
}

fn event(name: &str, description: &str, before: &[&str], category: &str, characters: Vec<Character>, effects: Vec<Effect>) -> Event {
    Event::new(
        name.to_string(),
        description.to_string(),
        before.iter().map(|b| b.to_string()).collect(),
        category.to_string(),
        characters,
        effects,
    )
}

#[test]
fn test_simple_sequence() {
    let events = vec![
        event("e1", "", &["e2"], "normal", vec![character("Alice", "A")], vec![]),
        event("e2", "", &[], "normal", vec![character("Alice", "A")], vec![]),
    ];
    assert!(isPossible(events, vec![character("Alice", "A")]));
}

#[test]
fn test_death_event() {
    let events = vec![
        event("e1", "", &["e2"], "combat", vec![character("Bob", "B")], vec![Death("Bob".parse().unwrap())]),
        event("e2", "", &[], "normal", vec![character("Bob", "B")], vec![]),
    ];
    // Bob dies in e1, but is in e2 -> impossible
    assert!(!isPossible(events, vec![character("Alice", "A"), character("Bob", "B")]));
}

#[test]
fn test_multiple_characters() {
    let events = vec![
        event("e1", "", &["e2"], "normal", vec![character("Alice", "A"), character("Bob", "B")], vec![]),
        event("e2", "", &[], "normal", vec![character("Alice", "A")], vec![]),
    ];
    assert!(isPossible(events, vec![character("Alice", "A"), character("Bob", "B")]));
}

#[test]
fn test_double_death_same_character() {
    let events = vec![
        event("death1", "Bob dies the first time", &["death2"], "catastrophe", vec![character("Bob", "B")], vec![Death("Bob".to_string())]),
        event("death2", "Bob dies again (impossible)", &[], "catastrophe", vec![character("Bob", "B")], vec![Death("Bob".to_string())]),
    ];

    // Bob cannot die twice in a valid timeline
    assert!(
        !isPossible(events, vec![character("Bob", "B")]),
        "A character should not be able to die twice in sequence"
    );
}

#[test]
fn test_chain_of_deaths() {
    let events = vec![
        event("e1", "", &["e2"], "combat", vec![character("Alice", "A")], vec![Death("Alice".to_string())]),
        event("e2", "", &["e3"], "combat", vec![character("Bob", "B")], vec![Death("Bob".to_string())]),
        event("e3", "", &[], "normal", vec![character("Charlie", "C")], vec![]),
    ];
    // No contradictions, should be possible
    assert!(isPossible(events, vec![character("Alice", "A"), character("Bob", "B"), character("Charlie", "C")]));
}

#[test]
fn test_impossible_cycle() {
    let events = vec![
        event("e1", "", &["e2"], "normal", vec![character("Alice", "A")], vec![]),
        event("e2", "", &["e1"], "normal", vec![character("Alice", "A")], vec![]),
    ];
    assert!(!isPossible(events, vec![character("Alice", "A")]));
}

#[test]
fn killed_character_required_later_then_not_required() {
    let cast = vec![character("X", "g"), character("Y", "t")];
    let with_x = vec![
        event("A", "", &["B"], "catastrophe", vec![character("X", "g")], vec![Death("X".to_string())]),
        event("B", "", &[], "ceremony", vec![character("X", "g")], vec![]),
    ];
    assert!(!isPossible(with_x, cast.clone()));
    let without_x = vec![
        event("A", "", &["B"], "catastrophe", vec![character("X", "g")], vec![Death("X".to_string())]),
        event("B", "", &[], "ceremony", vec![], vec![]),
    ];
    assert!(isPossible(without_x, cast));
}

#[test]
fn killed_character_replaced_by_another_participant() {
    let cast = vec![character("X", "g"), character("Y", "t")];
    let events = vec![
        event("A", "", &["B"], "catastrophe", vec![character("X", "g")], vec![Death("X".to_string())]),
        event("B", "", &[], "ceremony", vec![character("Y", "t")], vec![]),
    ];
    assert!(isPossible(events, cast));
}

#[test]
fn participant_may_appear_before_own_death() {
    let cast = vec![character("X", "g")];
    let events = vec![
        event("A", "", &["B"], "ceremony", vec![character("X", "g")], vec![]),
        event("B", "", &[], "catastrophe", vec![character("X", "g")], vec![Death("X".to_string())]),
    ];
    assert!(isPossible(events, cast));
}

#[test]
fn victim_cannot_attend_an_event_at_its_death() {
    let cast = vec![character("X", "g")];
    let events = vec![event("A", "", &[], "catastrophe", vec![character("X", "g")], vec![Effect::NoEffect, Death("X".to_string())])];
    // X takes part without dying here, yet the same event kills X
    assert!(!isPossible(events, cast));
}

#[test]
fn double_death_is_found() {
    let twice = vec![
        event("A", "", &[], "catastrophe", vec![], vec![Death("X".to_string())]),
        event("B", "", &[], "catastrophe", vec![], vec![Death("X".to_string())]),
    ];
    assert!(has_double_death(&twice));
    let once = vec![
        event("A", "", &[], "catastrophe", vec![], vec![Death("X".to_string())]),
        event("B", "", &[], "catastrophe", vec![], vec![Death("Y".to_string())]),
    ];
    assert!(!has_double_death(&once));
    let cast = vec![character("X", "g"), character("Y", "g")];
    assert_eq!(check_timeline(&twice, &cast), Verdict::Unsat);
}

#[test]
fn cast_must_cover_victims_and_participants() {
    let cast = vec![character("X", "g")];
    let unknown_victim = vec![event("A", "", &[], "catastrophe", vec![], vec![Death("Z".to_string())])];
    assert!(!cast_covers(&unknown_victim, &cast));
    let unknown_participant = vec![event("A", "", &[], "ceremony", vec![character("Z", "g")], vec![])];
    assert!(!cast_covers(&unknown_participant, &cast));
    let known = vec![event("A", "", &[], "catastrophe", vec![character("X", "g")], vec![Death("X".to_string())])];
    assert!(cast_covers(&known, &cast));
}

#[test]
fn only_sat_accepts() {
    assert!(accepts(Verdict::Sat));
    assert!(!accepts(Verdict::Unsat));
    assert!(!accepts(Verdict::Unknown));
}

#[test]
fn empty_timeline_is_possible() {
    assert_eq!(check_timeline(&vec![], &vec![character("X", "g")]), Verdict::Sat);
}
