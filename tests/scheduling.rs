use timeline_engine::graph::is_interval_graph;
use timeline_engine::schedule::{add_constraint_and_get_interval, assign_tracks, build_graph, insert_constraint, ScheduleError};
use timeline_engine::types::{Event, Ratio};

fn event(name: &str, before: &[&str]) -> Event {
    Event::new(
        name.to_string(),
        "".to_string(),
        before.iter().map(|b| b.to_string()).collect(),
        "".to_string(),
        vec![],
        vec![],
    )
}

fn value(r: Ratio) -> f64 {
    r.num as f64 / r.den as f64
}

fn find<'a>(events: &'a [Event], name: &str) -> &'a Event {
    events.iter().find(|e| e.name == name).unwrap()
}

#[test]
fn test_add_constraint_simple() {
    let events = vec![event("A", &[]), event("B", &[])];

    let ((start, end), _, updated_events) =
        add_constraint_and_get_interval(events.clone(), ("A", "B")).unwrap();

    // Check that the new constraint interval is valid
    assert!(value(start) < value(end), "Start must be less than end for new constraint");

    // Check that the "before" list in event A is updated
    let event_a = find(&updated_events, "A");
    assert!(event_a.before.contains(&"B".to_string()));

    // Check that start/end times are normalized between 0 and 1
    for e in &updated_events {
        assert!(value(e.start) >= 0.0 && value(e.start) <= 1.0);
        assert!(value(e.end) >= 0.0 && value(e.end) <= 1.0);
        assert!(value(e.start) <= value(e.end));
    }
}

#[test]
fn test_cycle_detection() {
    let events = vec![event("X", &["Y"]), event("Y", &[])];

    // Adding a constraint Y -> X should create a cycle
    let result = add_constraint_and_get_interval(events, ("Y", "X"));
    assert!(result.is_err());
    assert!(result.unwrap_err().message().contains("cycle"));
}

#[test]
fn test_no_cycle_multiple_events() {
    let events = vec![event("A", &["B"]), event("B", &["C"]), event("C", &[])];

    // Adding a new constraint A -> C is fine
    let result = add_constraint_and_get_interval(events.clone(), ("A", "C"));
    assert!(result.is_ok());
    let (_, _, updated_events) = result.unwrap();

    // Check that the "before" lists were updated properly
    let a_event = find(&updated_events, "A");
    assert!(a_event.before.contains(&"C".to_string()));
}

#[test]
fn repeated_edge_changes_nothing_and_uses_one_track() {
    let events = vec![event("A", &["B"]), event("B", &[])];
    let ((start, end), track, out) = add_constraint_and_get_interval(events, ("A", "B")).unwrap();
    let a = find(&out, "A");
    let b = find(&out, "B");
    assert_eq!(a.before, vec!["B".to_string()]);
    assert!(b.before.is_empty());
    assert!(value(a.start) < value(a.end));
    assert!(value(a.end) <= value(b.start));
    assert_eq!((a.start, a.end), (Ratio::new(0, 2), Ratio::new(1, 2)));
    assert_eq!((b.start, b.end), (Ratio::new(1, 2), Ratio::new(2, 2)));
    assert!(out.iter().all(|e| e.track == 0));
    assert_eq!((start, end), (Ratio::new(0, 2), Ratio::new(1, 2)));
    assert_eq!(track, 0);
}

#[test]
fn chain_is_laid_out_in_thirds() {
    let events = vec![event("A", &["B"]), event("B", &["C"]), event("C", &[])];
    let (_, _, out) = add_constraint_and_get_interval(events, ("A", "B")).unwrap();
    let spans: Vec<(u64, u64, u64)> = out.iter().map(|e| (e.start.num, e.end.num, e.start.den)).collect();
    assert_eq!(spans, vec![(0, 1, 3), (1, 2, 3), (2, 3, 3)]);
    assert!(out.iter().all(|e| e.track == 0));
}

#[test]
fn branches_go_on_separate_tracks() {
    let events = vec![event("A", &["B", "C"]), event("B", &[]), event("C", &[])];
    let ((start, end), track, out) = add_constraint_and_get_interval(events, ("A", "B")).unwrap();
    let tracks: Vec<u64> = out.iter().map(|e| e.track).collect();
    assert_eq!(tracks, vec![0, 0, 1]);
    assert_eq!((start, end), (Ratio::new(0, 2), Ratio::new(1, 2)));
    assert_eq!(track, 0);
    let c = find(&out, "C");
    assert_eq!((c.start, c.end), (Ratio::new(1, 2), Ratio::new(2, 2)));
}

#[test]
fn new_event_node_takes_the_target_track() {
    let events = vec![event("A", &["B"]), event("B", &[])];
    let ((start, end), track, out) = add_constraint_and_get_interval(events, ("NEW", "B")).unwrap();
    assert_eq!(out.len(), 2);
    assert_eq!(find(&out, "A").before, vec!["B".to_string()]);
    assert_eq!((start, end), (Ratio::new(0, 2), Ratio::new(1, 2)));
    assert_eq!(track, find(&out, "B").track as i64);
}

#[test]
fn constraint_between_unknown_names_has_no_track() {
    let events = vec![event("A", &["B"]), event("B", &[])];
    let result = add_constraint_and_get_interval(events, ("X", "Y"));
    assert_eq!(result.unwrap_err(), ScheduleError::Disconnected);
}

#[test]
fn island_event_is_refused() {
    let events = vec![event("A", &[]), event("B", &[]), event("C", &[])];
    let result = add_constraint_and_get_interval(events, ("A", "B"));
    assert_eq!(result.unwrap_err(), ScheduleError::Disconnected);
    assert_eq!(ScheduleError::Disconnected.message(), "Graph is not a valid interval graph");
}

#[test]
fn self_loop_is_a_cycle() {
    let events = vec![event("A", &[])];
    let result = add_constraint_and_get_interval(events, ("A", "A"));
    assert_eq!(result.unwrap_err(), ScheduleError::Cycle);
}

#[test]
fn refused_constraint_leaves_timeline_unchanged() {
    let mut timeline = vec![event("X", &["Y"]), event("Y", &["Z"]), event("Z", &[])];
    let before: Vec<(String, Vec<String>, Ratio, Ratio, u64)> =
        timeline.iter().map(|e| (e.name.clone(), e.before.clone(), e.start, e.end, e.track)).collect();
    let result = insert_constraint(&mut timeline, "Z", "X");
    assert_eq!(result.unwrap_err(), ScheduleError::Cycle);
    let after: Vec<(String, Vec<String>, Ratio, Ratio, u64)> =
        timeline.iter().map(|e| (e.name.clone(), e.before.clone(), e.start, e.end, e.track)).collect();
    assert_eq!(before, after);
}

#[test]
fn accepted_constraint_is_recorded_in_place() {
    let mut timeline = vec![event("X", &[]), event("Y", &[])];
    let (start, end) = insert_constraint(&mut timeline, "X", "Y").unwrap();
    assert_eq!(timeline[0].before, vec!["Y".to_string()]);
    assert_eq!((start, end), (Ratio::new(0, 2), Ratio::new(1, 2)));
    assert_eq!((timeline[1].start, timeline[1].end), (Ratio::new(1, 2), Ratio::new(2, 2)));
}

#[test]
fn greedy_tracks_do_not_overlap() {
    let starts = vec![0, 1, 0, 3];
    let ends = vec![2, 3, 1, 4];
    let (tracks, count) = assign_tracks(&starts, &ends, 4);
    assert_eq!(tracks, vec![0, 1, 1, 0]);
    assert_eq!(count, 2);
    for i in 0..4 {
        for j in 0..4 {
            if i != j && tracks[i] == tracks[j] {
                assert!(ends[i] <= starts[j] || ends[j] <= starts[i]);
            }
        }
    }
}

#[test]
fn ratio_comparison_is_exact() {
    assert!(Ratio::new(1, 3).at_most(&Ratio::new(2, 6)));
    assert!(!Ratio::new(2, 5).at_most(&Ratio::new(1, 3)));
    assert_eq!(Ratio::zero(), Ratio::new(0, 1));
}

#[test]
fn track_count_matches_widest_overlap() {
    let starts = vec![0, 0, 0, 2];
    let ends = vec![3, 2, 1, 4];
    let (tracks, count) = assign_tracks(&starts, &ends, 4);
    assert_eq!(tracks, vec![0, 1, 2, 1]);
    // the first three intervals all contain point 0, so three tracks are needed
    assert_eq!(count, 3);
}

#[test]
fn no_intervals_need_no_tracks() {
    let (tracks, count) = assign_tracks(&vec![], &vec![], 0);
    assert!(tracks.is_empty());
    assert_eq!(count, 0);
}

#[test]
fn graph_shape_checks() {
    let chain = build_graph(&vec![event("A", &["B"]), event("B", &[])], "A", "B");
    assert_eq!(chain.names.len(), 2);
    assert!(!chain.has_cycle());
    assert!(chain.is_single_component());
    assert!(is_interval_graph(&chain));

    let island = build_graph(&vec![event("A", &["B"]), event("B", &[]), event("C", &[])], "A", "B");
    assert!(!island.has_cycle());
    assert!(!island.is_single_component());
    assert!(!is_interval_graph(&island));

    let cycle = build_graph(&vec![event("A", &["B"]), event("B", &[])], "B", "A");
    assert!(cycle.has_cycle());
    assert!(!is_interval_graph(&cycle));

    let forward = build_graph(&vec![event("A", &["Z"])], "A", "Z");
    assert_eq!(forward.names.len(), 2);
    assert!(is_interval_graph(&forward));
}
