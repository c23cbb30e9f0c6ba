use rand::rngs::StdRng;
use rand::SeedableRng;
use timeline_engine::planner::{category_name, finish_event, maybe_transitive_insert, plan_event, placeholder, rewire, safe_prepend, try_insertion};
use timeline_engine::schedule::ScheduleError;
use timeline_engine::types::{Character, Effect, Event, Ratio};

fn event(name: &str, before: &[&str]) -> Event {
    Event::new(
        name.to_string(),
        "".to_string(),
        before.iter().map(|b| b.to_string()).collect(),
        "".to_string(),
        vec![],
        vec![],
    )
}

fn cast() -> Vec<Character> {
    vec![
        Character::new("Gia".to_string(), "g".to_string()),
        Character::new("Tor".to_string(), "t".to_string()),
        Character::new("Cel".to_string(), "c".to_string()),
        Character::new("Gus".to_string(), "g".to_string()),
    ]
}

#[test]
fn prepend_goes_before_first_source() {
    let mut events = vec![event("A", &["B"]), event("B", &[])];
    events[0].start = Ratio::new(0, 2);
    let (before, (start, end), track) = safe_prepend(&events);
    assert_eq!(before, vec!["A".to_string()]);
    assert_eq!(start, Ratio::new(0, 1));
    assert_eq!(end, Ratio::new(1, 20));
    assert_eq!(track, 0);
}

#[test]
fn prepend_keeps_a_later_source_start() {
    let mut events = vec![event("B", &[]), event("A", &["B"])];
    events[1].start = Ratio::new(1, 4);
    let (before, (_, end), _) = safe_prepend(&events);
    assert_eq!(before, vec!["A".to_string()]);
    assert_eq!(end, Ratio::new(1, 4));
}

#[test]
fn prepend_without_source_is_isolated() {
    let events = vec![event("A", &["B"]), event("B", &["A"])];
    let (before, (start, end), track) = safe_prepend(&events);
    assert!(before.is_empty());
    assert_eq!((start, end, track), (Ratio::new(0, 1), Ratio::new(1, 10), 0));
}

#[test]
fn rewire_puts_new_event_between() {
    let events = vec![event("A", &["B", "C"]), event("B", &[]), event("C", &[])];
    let out = rewire(events, "B");
    assert_eq!(out[0].before, vec![placeholder().to_string(), "C".to_string()]);
    assert!(out[1].before.is_empty());
    let untouched = rewire(vec![event("A", &[]), event("B", &[])], "B");
    assert!(untouched[0].before.is_empty());
}

#[test]
fn transitive_insert_keeps_target_as_successor() {
    let mut rng = StdRng::seed_from_u64(11);
    for _ in 0..20 {
        let events = vec![event("A", &["B"]), event("B", &[])];
        let (out, before) = maybe_transitive_insert(events, &mut rng, "B");
        assert_eq!(before, vec!["B".to_string()]);
        let a = &out[0].before;
        assert!(a == &vec!["B".to_string()] || a == &vec![placeholder().to_string()]);
    }
}

#[test]
fn categories_are_mostly_catastrophes() {
    assert_eq!(category_name(0), "auxiliary");
    assert_eq!(category_name(2), "ceremony");
    assert_eq!(category_name(4), "miracle");
    assert_eq!(category_name(1), "catastrophe");
    assert_eq!(category_name(11), "catastrophe");
}

#[test]
fn planner_always_places_the_event() {
    let roster = cast();
    for seed in 0..30u64 {
        let mut rng = StdRng::seed_from_u64(seed);
        let events = vec![event("A", &["B"]), event("B", &["C"]), event("C", &[])];
        let plan = plan_event(&events, &roster, &mut rng);
        assert_eq!(plan.events.len(), 3);
        let names: Vec<&str> = plan.events.iter().map(|e| e.name.as_str()).collect();
        assert_eq!(names, vec!["A", "B", "C"]);
        assert!(plan.event.effects.len() <= 1);
        assert!(plan.event.characters.len() <= 3);
        assert_eq!(plan.event.name, placeholder());
        if plan.accepted {
            assert_eq!(plan.event.before.len(), 1);
            assert!(plan.event.start.num < plan.event.end.num);
            assert!(plan.event.end.num <= plan.event.end.den);
            let target = &plan.event.before[0];
            let t = plan.events.iter().find(|e| &e.name == target).unwrap();
            assert_eq!(plan.event.track, t.track);
        } else {
            assert_eq!(plan.event.before, vec!["A".to_string()]);
            assert_eq!(plan.event.track, 0);
        }
        let names: Vec<&String> = plan.event.characters.iter().map(|c| &c.name).collect();
        for i in 0..names.len() {
            for j in 0..names.len() {
                assert!(i == j || names[i] != names[j]);
            }
        }
        let factions: Vec<&String> = plan.event.characters.iter().map(|c| &c.faction).collect();
        if plan.event.effects.is_empty() {
            assert!(factions.windows(2).all(|w| w[0] == w[1]));
        }
        assert!(["auxiliary", "catastrophe", "ceremony", "miracle"].contains(&plan.event.category.as_str()));
        for c in &plan.event.characters {
            assert!(roster.iter().any(|r| r.name == c.name && r.faction == c.faction));
        }
        if let Some(Effect::Death(victim)) = plan.event.effects.first() {
            assert_eq!(plan.event.characters.len(), 1);
            assert_eq!(&plan.event.characters[0].name, victim);
        }
    }
}

#[test]
fn finished_event_is_appended_and_checked() {
    let roster = cast();
    let events = vec![event("A", &["B"]), event("B", &[])];
    let mut new_event = event("C", &["B"]);
    new_event.characters = vec![roster[0].clone()];
    let (sat, combined) = finish_event(events, new_event, &roster);
    assert!(sat);
    assert_eq!(combined.len(), 3);
    assert_eq!(combined[2].name, "C");

    let killing = vec![{
        let mut e = event("A", &["B"]);
        e.characters = vec![roster[1].clone()];
        e.effects = vec![Effect::Death("Tor".to_string())];
        e
    }, event("B", &[])];
    let mut late = event("C", &[]);
    late.characters = vec![roster[1].clone()];
    let mut killing_then_late = killing;
    killing_then_late[1].before = vec!["C".to_string()];
    let (sat, _) = finish_event(killing_then_late, late, &roster);
    assert!(!sat);
}

#[test]
fn chain_is_always_accepted() {
    let roster = cast();
    for seed in 0..10u64 {
        let mut rng = StdRng::seed_from_u64(seed);
        let events = vec![event("A", &["B"]), event("B", &[])];
        let plan = plan_event(&events, &roster, &mut rng);
        assert!(plan.accepted);
    }
}

#[test]
fn empty_timeline_gets_an_isolated_event() {
    let mut rng = StdRng::seed_from_u64(3);
    let plan = plan_event(&vec![], &cast(), &mut rng);
    assert!(!plan.accepted);
    assert!(plan.events.is_empty());
    assert!(plan.event.before.is_empty());
    assert_eq!((plan.event.start, plan.event.end), (Ratio::new(0, 1), Ratio::new(1, 10)));
}

#[test]
fn insertion_attempts_follow_the_draw() {
    let events = vec![event("A", &["B"]), event("B", &[])];
    let (iv, tr, out) = try_insertion(&events, 1, true).unwrap();
    assert_eq!(out[0].before, vec![placeholder().to_string()]);
    // A < NEW < B: ranks 1, 2, 3 over a span of 3
    assert_eq!(iv, (Ratio::new(1, 3), Ratio::new(2, 3)));
    assert_eq!(tr, out[1].track as i64);
    let (iv, _, out) = try_insertion(&events, 1, false).unwrap();
    assert_eq!(out[0].before, vec!["B".to_string()]);
    assert_eq!(iv, (Ratio::new(0, 2), Ratio::new(1, 2)));
    let cyclic = vec![event("A", &[placeholder()])];
    assert_eq!(try_insertion(&cyclic, 0, false).unwrap_err(), ScheduleError::Cycle);
}

#[test]
fn finishing_renames_the_placeholder() {
    let roster = cast();
    let events = vec![event("A", &[placeholder()]), event("B", &[])];
    let new_event = event("Raid", &["B"]);
    let (sat, combined) = finish_event(events, new_event, &roster);
    assert!(sat);
    assert_eq!(combined[0].before, vec!["Raid".to_string()]);
    assert_eq!(combined[2].name, "Raid");
}
