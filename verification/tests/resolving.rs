use supertimeline::api::{resolve_timeline, ResolveOptions, TimelineKeyframe, TimelineObject};
use supertimeline::caps::{join_caps, CapsBuilder};
use supertimeline::expression::{Expression, ExpressionError, ExpressionOperator};
use supertimeline::instance::{Cap, TimelineEnable, TimelineObjectInstance};
use supertimeline::resolver::{ResolveError, TimeWithReference};
use supertimeline::state::{get_state, get_times_from_parent, resolve_all_states, transform_state, EventType};
use supertimeline::text::string_less;
use supertimeline::util::{cap_instance, operate_times};

fn text(s: &str) -> Expression {
    Expression::String(s.to_string())
}

fn object(id: &str, layer: &str, enable: TimelineEnable) -> TimelineObject {
    TimelineObject { id: id.to_string(), layer: layer.to_string(), enable: vec![enable], ..Default::default() }
}

fn options() -> ResolveOptions {
    ResolveOptions { time: 0, limit_count: None, limit_time: None }
}

fn cap(id: &str, start: u64, end: Option<u64>) -> Cap {
    Cap { id: id.to_string(), start, end }
}

fn inst(id: &str, start: u64, end: Option<u64>) -> TimelineObjectInstance {
    TimelineObjectInstance { id: id.to_string(), start, end, ..Default::default() }
}

#[test]
fn circular_reference_is_refused() {
    let timeline = vec![
        object("a", "0", TimelineEnable { enable_start: Some(text("#b")), ..Default::default() }),
        object("b", "1", TimelineEnable { enable_start: Some(text("#a")), ..Default::default() }),
    ];
    let r = resolve_timeline(&timeline, options());
    assert!(matches!(r, Err(ResolveError::CircularDependency(_))));
}

#[test]
fn unparsable_end_is_a_bad_expression() {
    let timeline = vec![object(
        "x",
        "0",
        TimelineEnable { enable_start: Some(Expression::Number(0)), enable_end: Some(text("1 +")), ..Default::default() },
    )];
    match resolve_timeline(&timeline, options()) {
        Err(ResolveError::BadExpression((id, part, e))) => {
            assert_eq!(id, "x");
            assert_eq!(part, "end");
            assert_eq!(e, ExpressionError::Invalid);
        },
        other => panic!("unexpected result {:?}", other.map(|r| r.objects.len())),
    }
}

#[test]
fn duration_of_many_instances_is_refused() {
    let timeline = vec![
        object(
            "x",
            "0",
            TimelineEnable {
                enable_start: Some(Expression::Number(0)),
                duration: Some(Expression::Number(10)),
                repeating: Some(Expression::Number(50)),
                ..Default::default()
            },
        ),
        object(
            "y",
            "1",
            TimelineEnable {
                enable_start: Some(Expression::Number(5)),
                duration: Some(text("#x.start")),
                ..Default::default()
            },
        ),
    ];
    match resolve_timeline(&timeline, options()) {
        Err(ResolveError::InstancesArrayNotSupported((id, part))) => {
            assert_eq!(id, "y");
            assert_eq!(part, "duration");
        },
        other => panic!("unexpected result {:?}", other.map(|r| r.objects.len())),
    }
}

#[test]
fn resolved_timeline_keeps_every_object() {
    let timeline = vec![
        object(
            "a",
            "0",
            TimelineEnable { enable_start: Some(Expression::Number(10)), duration: Some(Expression::Number(5)), ..Default::default() },
        ),
        object("b", "1", TimelineEnable { enable_start: Some(text("#a.end + 1")), ..Default::default() }),
    ];
    let resolved = resolve_timeline(&timeline, options()).expect("Resolve timeline failed");
    assert_eq!(resolved.objects.len(), 2);
    let b = resolved.get_object("b").expect("Missing b object");
    assert_eq!(b.resolved.instances.len(), 1);
    assert_eq!(b.resolved.instances[0].start, 16);
    assert_eq!(b.resolved.instances[0].end, None);
    assert!(!b.resolved.is_self_referencing);
    assert!(!b.resolved.direct_references.is_empty());
    assert!(resolved.get_object("c").is_none());
}

#[test]
fn state_event_limit_keeps_the_first_events() {
    let timeline = vec![
        object(
            "a",
            "0",
            TimelineEnable { enable_start: Some(Expression::Number(10)), duration: Some(Expression::Number(10)), ..Default::default() },
        ),
        object(
            "b",
            "1",
            TimelineEnable { enable_start: Some(Expression::Number(30)), duration: Some(Expression::Number(10)), ..Default::default() },
        ),
    ];
    let resolved = resolve_timeline(&timeline, options()).expect("Resolve timeline failed");
    let states = resolve_all_states(&resolved, None).expect("Resolve states failed");
    let all = get_state(&states, 0, None);
    assert_eq!(all.next_events.len(), 4);
    let limited = get_state(&states, 0, Some(1));
    assert_eq!(limited.next_events.len(), 1);
    assert_eq!(limited.next_events[0].event_type, EventType::Start);
    assert_eq!(limited.next_events[0].object_id, "a");
    assert_eq!(limited.next_events[0].time, 10);
    let later = get_state(&states, 20, None);
    assert!(later.next_events.iter().all(|e| e.time > 20));
    assert_eq!(later.next_events.len(), 2);
    let at_15 = get_state(&states, 15, None);
    assert_eq!(at_15.get_layer("0").expect("Missing state for layer 0").object_id, "a");
    assert!(at_15.get_layer("1").is_none());
    let shown = transform_state(at_15.get_layer("0")).expect("Missing transformed state");
    assert_eq!(shown.object_id, "a");
    assert_eq!(shown.instance.expect("Missing instance").start, 10);
    assert!(transform_state(None).is_none());
}

#[test]
fn caps_builder_later_caps_win() {
    let built = CapsBuilder::new()
        .add(vec![cap("p", 0, Some(10)), cap("q", 5, None)])
        .add_some(Some(vec![cap("p", 20, Some(30))]))
        .add_some(None)
        .done();
    assert_eq!(built.len(), 2);
    let p = built.iter().find(|c| c.id == "p").expect("Missing cap p");
    assert_eq!(p.start, 20);
    assert_eq!(p.end, Some(30));
    let joined = join_caps(&vec![cap("q", 1, Some(2))], &vec![cap("q", 3, Some(4)), cap("r", 0, None)]);
    assert_eq!(joined.len(), 2);
    let q = joined.iter().find(|c| c.id == "q").expect("Missing cap q");
    assert_eq!(q.start, 3);
}

#[test]
fn strings_are_ordered_by_their_characters() {
    assert!(string_less(&"a".to_string(), &"b".to_string()));
    assert!(string_less(&"ab".to_string(), &"abc".to_string()));
    assert!(!string_less(&"abc".to_string(), &"ab".to_string()));
    assert!(!string_less(&"x".to_string(), &"x".to_string()));
}

#[test]
fn cap_instance_keeps_it_inside_the_parent() {
    let child = inst("c", 10, Some(50));
    let parent = inst("p", 20, Some(30));
    let capped = cap_instance(&child, &[&parent]).expect("Expected a capped instance");
    assert_eq!(capped.start, 20);
    assert_eq!(capped.end, Some(30));
    assert_eq!(capped.original_start, Some(10));
    assert_eq!(capped.original_end, Some(50));
    assert_eq!(capped.id, "c");

    let outside = inst("o", 40, Some(50));
    assert!(cap_instance(&outside, &[&parent]).is_none());

    let wide = inst("w", 0, Some(100));
    let short = inst("s", 10, Some(20));
    let long = inst("l", 30, Some(90));
    let chosen = cap_instance(&wide, &[&short, &long]).expect("Expected a capped instance");
    assert_eq!(chosen.start, 30);
    assert_eq!(chosen.end, Some(90));
}

#[test]
fn time_arithmetic_joins_references() {
    let a = TimeWithReference { value: 10, references: vec!["x".to_string()] };
    let b = TimeWithReference { value: 4, references: vec!["y".to_string(), "x".to_string()] };
    let sum = operate_times(Some(&a), Some(&b), ExpressionOperator::Add).expect("Expected a sum");
    assert_eq!(sum.value, 14);
    assert_eq!(sum.references.len(), 2);
    let diff = operate_times(Some(&b), Some(&a), ExpressionOperator::Subtract).expect("Expected a difference");
    assert_eq!(diff.value, 0);
    assert_eq!(operate_times(Some(&a), Some(&b), ExpressionOperator::Remainder).expect("Expected a remainder").value, 2);
    let zero = TimeWithReference { value: 0, references: vec![] };
    assert!(operate_times(Some(&a), Some(&zero), ExpressionOperator::Divide).is_none());
    assert!(operate_times(Some(&a), None, ExpressionOperator::Add).is_none());
    assert!(operate_times(Some(&a), Some(&b), ExpressionOperator::And).is_none());
}

#[test]
fn parent_times_of_a_child() {
    let timeline = vec![TimelineObject {
        children: Some(vec![object(
            "child",
            "1",
            TimelineEnable { enable_start: Some(Expression::Number(5)), duration: Some(Expression::Number(10)), ..Default::default() },
        )]),
        ..object(
            "group",
            "0",
            TimelineEnable { enable_start: Some(Expression::Number(10)), enable_end: Some(Expression::Number(100)), ..Default::default() },
        )
    }];
    let resolved = resolve_timeline(&timeline, options()).expect("Resolve timeline failed");
    let child = resolved.get_object("child").expect("Missing child object");
    let times = get_times_from_parent(&resolved, child);
    let seen: Vec<(u64, bool)> = times.iter().map(|t| (t.time, t.enable)).collect();
    assert_eq!(seen, vec![(10, true), (100, false)]);
    let group = resolved.get_object("group").expect("Missing group object");
    assert!(get_times_from_parent(&resolved, group).is_empty());
}

#[test]
fn constant_enables_are_on_during_their_span() {
    let timeline = vec![
        object(
            "start_end",
            "0",
            TimelineEnable {
                enable_start: Some(Expression::Number(10)),
                enable_end: Some(Expression::Number(100)),
                ..Default::default()
            },
        ),
        object(
            "start_duration",
            "1",
            TimelineEnable {
                enable_start: Some(Expression::Number(-5)),
                duration: Some(Expression::Number(20)),
                ..Default::default()
            },
        ),
        object("start_only", "2", TimelineEnable { enable_start: Some(Expression::Number(7)), ..Default::default() }),
    ];
    let resolved = resolve_timeline(&timeline, options()).expect("Resolve timeline failed");
    let a = resolved.get_object("start_end").expect("Missing object");
    assert_eq!(a.resolved.instances.len(), 1);
    assert_eq!((a.resolved.instances[0].start, a.resolved.instances[0].end), (10, Some(100)));
    let b = resolved.get_object("start_duration").expect("Missing object");
    assert_eq!(b.resolved.instances.len(), 1);
    assert_eq!((b.resolved.instances[0].start, b.resolved.instances[0].end), (0, Some(20)));
    let c = resolved.get_object("start_only").expect("Missing object");
    assert_eq!(c.resolved.instances.len(), 1);
    assert_eq!((c.resolved.instances[0].start, c.resolved.instances[0].end), (7, None));
}

#[test]
fn every_layer_state_is_of_an_enabled_object_on_that_layer() {
    let timeline = vec![
        object("a", "L1", TimelineEnable { enable_start: Some(Expression::Number(0)), ..Default::default() }),
        object(
            "b",
            "L2",
            TimelineEnable { enable_start: Some(Expression::Number(5)), duration: Some(Expression::Number(10)), ..Default::default() },
        ),
        object("c", "L2", TimelineEnable { enable_start: Some(Expression::Number(8)), ..Default::default() }),
        TimelineObject {
            disabled: true,
            priority: 100,
            ..object("d", "L1", TimelineEnable { enable_start: Some(Expression::Number(1)), ..Default::default() })
        },
    ];
    let resolved = resolve_timeline(&timeline, options()).expect("Resolve timeline failed");
    let states = resolve_all_states(&resolved, None).expect("Resolve states failed");
    for (layer, entries) in states.state.iter() {
        for (_, entry) in entries.iter() {
            if let Some(st) = entry {
                assert_eq!(&st.info.layer, layer);
                assert!(!st.info.disabled);
                assert_ne!(st.object_id, "d");
            }
        }
    }
    for time in [0u64, 6, 9, 20] {
        let st = get_state(&states, time, None);
        for (layer, state) in st.layers.iter() {
            assert_eq!(&state.info.layer, layer);
            assert!(!state.info.disabled);
        }
    }
    let at_9 = get_state(&states, 9, None);
    assert_eq!(at_9.get_layer("L1").expect("Missing state for layer L1").object_id, "a");
    assert_eq!(at_9.get_layer("L2").expect("Missing state for layer L2").object_id, "c");
}

#[test]
fn an_end_before_the_start_is_not_an_end() {
    let timeline = vec![object(
        "backwards",
        "0",
        TimelineEnable {
            enable_start: Some(Expression::Number(10)),
            enable_end: Some(Expression::Number(5)),
            ..Default::default()
        },
    )];
    let resolved = resolve_timeline(&timeline, options()).expect("Resolve timeline failed");
    let o = resolved.get_object("backwards").expect("Missing object");
    let spans: Vec<(u64, Option<u64>)> = o.resolved.instances.iter().map(|i| (i.start, i.end)).collect();
    assert_eq!(spans, vec![(10, None)]);
}

#[test]
fn enabled_keyframes_are_among_the_state_objects() {
    let mut parent = object("parent", "L1", TimelineEnable { enable_start: Some(Expression::Number(0)), ..Default::default() });
    parent.keyframes = vec![
        TimelineKeyframe {
            id: "kf_on".to_string(),
            enable: vec![TimelineEnable { enable_start: Some(Expression::Number(5)), ..Default::default() }],
            ..Default::default()
        },
        TimelineKeyframe {
            id: "kf_off".to_string(),
            enable: vec![TimelineEnable { enable_start: Some(Expression::Number(5)), ..Default::default() }],
            disabled: true,
            ..Default::default()
        },
    ];
    let resolved = resolve_timeline(&vec![parent], options()).expect("Resolve timeline failed");
    let states = resolve_all_states(&resolved, None).expect("Resolve states failed");
    assert!(states.get_object("kf_on").is_some());
    assert!(states.get_object("kf_off").is_none());
    assert!(states.get_object("parent").is_some());
}

fn check_changes_announced(states: &supertimeline::state::ResolvedStates, after: u64) {
    for (_, entries) in states.state.iter() {
        for (time, entry) in entries.iter() {
            if *time <= after {
                continue;
            }
            let wanted = match entry {
                Some(st) if st.keyframes.is_empty() && st.instance.start == *time => Some(EventType::Start),
                Some(_) => None,
                None => Some(EventType::End),
            };
            if let Some(kind) = wanted {
                assert!(
                    states.next_events.iter().any(|e| e.event_type == kind && e.time == *time),
                    "no {:?} event at {}",
                    kind,
                    time
                );
            }
        }
    }
}

#[test]
fn state_changes_after_the_time_are_next_events() {
    let timeline = vec![
        object(
            "a",
            "0",
            TimelineEnable { enable_start: Some(Expression::Number(0)), enable_end: Some(Expression::Number(50)), ..Default::default() },
        ),
        object(
            "b",
            "0",
            TimelineEnable { enable_start: Some(Expression::Number(50)), enable_end: Some(Expression::Number(100)), ..Default::default() },
        ),
        object(
            "c",
            "1",
            TimelineEnable { enable_start: Some(Expression::Number(20)), duration: Some(Expression::Number(10)), ..Default::default() },
        ),
    ];
    let resolved = resolve_timeline(&timeline, options()).expect("Resolve timeline failed");
    let states = resolve_all_states(&resolved, None).expect("Resolve states failed");
    let layer0 = &states.state.iter().find(|(l, _)| l == "0").expect("Missing layer 0").1;
    let times: Vec<u64> = layer0.iter().map(|(t, _)| *t).collect();
    assert_eq!(times, vec![0, 50, 100]);
    assert!(layer0[2].1.is_none());
    check_changes_announced(&states, 0);
    let events: Vec<(EventType, u64, String)> =
        states.next_events.iter().map(|e| (e.event_type, e.time, e.object_id.clone())).collect();
    assert_eq!(
        events,
        vec![
            (EventType::Start, 20, "c".to_string()),
            (EventType::End, 30, "c".to_string()),
            (EventType::End, 50, "a".to_string()),
            (EventType::Start, 50, "b".to_string()),
            (EventType::End, 100, "b".to_string()),
        ]
    );
    let at_60 = resolve_all_states(&resolved, Some(60)).expect("Resolve states failed");
    check_changes_announced(&at_60, 60);
    assert!(at_60.next_events.iter().all(|e| e.time > 60));
    assert!(at_60.next_events.iter().any(|e| e.event_type == EventType::End && e.time == 100));
}

#[test]
fn an_enabled_instance_gives_the_layers_states() {
    let timeline = vec![object(
        "x",
        "L",
        TimelineEnable { enable_start: Some(Expression::Number(10)), enable_end: Some(Expression::Number(20)), ..Default::default() },
    )];
    let resolved = resolve_timeline(&timeline, options()).expect("Resolve timeline failed");
    let all = resolve_all_states(&resolved, None).expect("Resolve states failed");
    assert!(!all.state.is_empty());
    assert_eq!(all.state[0].0, "L");
    let at_15 = resolve_all_states(&resolved, Some(15)).expect("Resolve states failed");
    assert!(!at_15.state.is_empty());
    let at_30 = resolve_all_states(&resolved, Some(30)).expect("Resolve states failed");
    assert!(at_30.state.is_empty());
}

#[test]
fn a_lone_object_with_a_reference_resolves() {
    let timeline = vec![object(
        "x",
        "0",
        TimelineEnable { enable_start: Some(text("#nothere + 5")), duration: Some(text("10")), ..Default::default() },
    )];
    let resolved = resolve_timeline(&timeline, options()).expect("Resolve timeline failed");
    assert_eq!(resolved.objects.len(), 1);
    assert!(resolved.objects[0].resolved.instances.is_empty());
}

#[test]
fn objects_referring_to_earlier_ones_resolve() {
    let timeline = vec![
        object("a", "0", TimelineEnable { enable_start: Some(text("10")), duration: Some(text("5")), ..Default::default() }),
        object("b", "1", TimelineEnable { enable_start: Some(text("#a.end + 1")), duration: Some(text("3")), ..Default::default() }),
        object("c", "2", TimelineEnable { enable_start: Some(text("#b.start")), enable_end: Some(text("#a.end + 20")), ..Default::default() }),
    ];
    let resolved = resolve_timeline(&timeline, options()).expect("Resolve timeline failed");
    assert_eq!(resolved.objects.len(), 3);
    let spans: Vec<(u64, Option<u64>)> = resolved
        .objects
        .iter()
        .map(|o| (o.resolved.instances[0].start, o.resolved.instances[0].end))
        .collect();
    assert_eq!(spans, vec![(10, Some(15)), (16, Some(19)), (16, Some(35))]);
}

#[test]
fn objects_starting_at_each_other_name_the_first() {
    let timeline = vec![
        object("a", "0", TimelineEnable { enable_start: Some(text("#c.end")), ..Default::default() }),
        object("x", "1", TimelineEnable { enable_start: Some(Expression::Number(5)), ..Default::default() }),
        object("c", "2", TimelineEnable { enable_start: Some(text("#a")), duration: Some(text("4")), ..Default::default() }),
    ];
    match resolve_timeline(&timeline, options()) {
        Err(ResolveError::CircularDependency(id)) => assert_eq!(id, "a"),
        other => panic!("unexpected result {:?}", other.map(|r| r.objects.len())),
    }
}
