use supertimeline::api::{resolve_timeline, ResolveOptions, TimelineObject};
use supertimeline::expression::Expression;
use supertimeline::instance::{Time, TimelineEnable, TimelineObjectInstance};
use supertimeline::state::{get_state, resolve_all_states, EventType, NextEvent, TimelineState};

fn assert_instances2(result: &Vec<TimelineObjectInstance>, expected: &Vec<TimelineObjectInstance>) {
    assert_eq!(result.len(), expected.len());
    for (val, exp) in result.iter().zip(expected) {
        assert_eq!(val.start, exp.start);
        assert_eq!(val.end, exp.end);
        if exp.original_start.is_some() {
            assert_eq!(val.original_start, exp.original_start);
        }
        if exp.original_end.is_some() {
            assert_eq!(val.original_end, exp.original_end);
        }
    }
}

fn assert_instances(result: &Vec<TimelineObjectInstance>, expected: &Vec<TimelineObjectInstance>) {
    let mut sorted: Vec<TimelineObjectInstance> = result
        .iter()
        .map(|i| TimelineObjectInstance {
            id: i.id.clone(),
            start: i.start,
            end: i.end,
            original_start: i.original_start,
            original_end: i.original_end,
            ..Default::default()
        })
        .collect();
    sorted.sort_by(|a, b| a.start.cmp(&b.start).then_with(|| b.id.cmp(&a.id)));
    assert_instances2(&sorted, expected);
}

fn assert_obj_on_layer(state: &TimelineState, layer: &str, id: &str) {
    let obj = state.get_layer(layer).expect(&format!("Expected '{}' on layer '{}'", id, layer));
    assert_eq!(obj.object_id, id.to_string());
}

fn inst(start: Time, end: Option<Time>) -> TimelineObjectInstance {
    TimelineObjectInstance { start, end, ..Default::default() }
}

fn event(event_type: EventType, object_id: &str, time: Time) -> NextEvent {
    NextEvent { event_type, object_id: object_id.to_string(), time }
}

fn start_end(start: Expression, end: Expression) -> Vec<TimelineEnable> {
    vec![TimelineEnable { enable_start: Some(start), enable_end: Some(end), ..Default::default() }]
}

fn start_duration(start: Expression, duration: Expression) -> Vec<TimelineEnable> {
    vec![TimelineEnable { enable_start: Some(start), duration: Some(duration), ..Default::default() }]
}

fn start_only(start: Expression) -> Vec<TimelineEnable> {
    vec![TimelineEnable { enable_start: Some(start), ..Default::default() }]
}

fn object(id: &str, layer: &str, enable: Vec<TimelineEnable>) -> TimelineObject {
    TimelineObject { id: id.to_string(), layer: layer.to_string(), enable, ..Default::default() }
}

fn text(s: &str) -> Expression {
    Expression::String(s.to_string())
}

#[test]
fn groups_simple_group() {
    let timeline = vec![TimelineObject {
        children: Some(vec![
            object("child0", "1", start_duration(text("5"), Expression::Number(10))),
            object("child1", "1", start_duration(text("#child0.end"), Expression::Number(10))),
            object("child2", "2", start_duration(text("-1"), Expression::Number(150))),
        ]),
        ..object("group", "0", start_end(Expression::Number(10), Expression::Number(100)))
    }];
    let options = ResolveOptions { time: 0, limit_count: None, limit_time: None };
    let resolved = resolve_timeline(&timeline, options).expect("Resolve timeline failed");
    let states = resolve_all_states(&resolved, None).expect("Resolve states failed");

    states.get_object("group").expect("Missing group object");
    let obj_child0 = states.get_object("child0").expect("Missing child0 object");
    let obj_child1 = states.get_object("child1").expect("Missing child1 object");
    let obj_child2 = states.get_object("child2").expect("Missing child2 object");
    assert_instances(&obj_child0.instances, &vec![inst(15, Some(25))]);
    assert_instances(&obj_child1.instances, &vec![inst(25, Some(35))]);
    assert_instances(&obj_child2.instances, &vec![inst(10, Some(100))]);
    {
        let state0 = get_state(&states, 11, None);
        assert_obj_on_layer(&state0, "0", "group");
        assert!(state0.get_layer("1").is_none());
        assert_obj_on_layer(&state0, "2", "child2");
    }
    {
        let state0 = get_state(&states, 15, None);
        assert_obj_on_layer(&state0, "0", "group");
        assert_obj_on_layer(&state0, "1", "child0");
        assert_obj_on_layer(&state0, "2", "child2");
    }
    {
        let state0 = get_state(&states, 30, None);
        assert_obj_on_layer(&state0, "0", "group");
        assert_obj_on_layer(&state0, "1", "child1");
        assert_obj_on_layer(&state0, "2", "child2");
    }
}

fn two_groups(group_layer: &str) -> Vec<TimelineObject> {
    vec![
        TimelineObject {
            children: Some(vec![object("child0", "1", start_only(text("5")))]),
            ..object("group0", group_layer, start_end(Expression::Number(10), Expression::Number(100)))
        },
        TimelineObject {
            children: Some(vec![object("child1", "2", start_only(text("5")))]),
            ..object("group1", group_layer, start_end(Expression::Number(50), Expression::Number(100)))
        },
    ]
}

#[test]
fn groups_etheral_groups() {
    let timeline = two_groups("");
    let options = ResolveOptions { time: 0, limit_count: None, limit_time: None };
    let resolved = resolve_timeline(&timeline, options).expect("Resolve timeline failed");
    let states = resolve_all_states(&resolved, None).expect("Resolve states failed");

    let obj_group0 = resolved.get_object("group0").expect("Missing group0 object");
    let obj_group1 = resolved.get_object("group1").expect("Missing group1 object");
    let obj_child0 = resolved.get_object("child0").expect("Missing child0 object");
    let obj_child1 = resolved.get_object("child1").expect("Missing child1 object");
    assert_instances2(&obj_group0.resolved.instances, &vec![inst(10, Some(100))]);
    assert_instances2(&obj_child0.resolved.instances, &vec![inst(15, Some(100))]);
    assert_instances2(&obj_group1.resolved.instances, &vec![inst(50, Some(100))]);
    assert_instances2(&obj_child1.resolved.instances, &vec![inst(55, Some(100))]);
    {
        let state0 = get_state(&states, 16, None);
        assert_obj_on_layer(&state0, "1", "child0");
        assert!(state0.get_layer("2").is_none());
    }
    {
        let state0 = get_state(&states, 56, None);
        assert_obj_on_layer(&state0, "1", "child0");
        assert_obj_on_layer(&state0, "2", "child1");
        assert_eq!(
            &state0.next_events,
            &vec![event(EventType::End, "child0", 100), event(EventType::End, "child1", 100)],
        );
    }
    {
        // objects should be capped inside their parent:
        let state0 = get_state(&states, 120, None);
        assert!(state0.get_layer("1").is_none());
        assert!(state0.get_layer("2").is_none());
    }
}

#[test]
fn solid_groups() {
    let timeline = two_groups("g0");
    let options = ResolveOptions { time: 0, limit_count: None, limit_time: None };
    let resolved = resolve_timeline(&timeline, options).expect("Resolve timeline failed");
    let states = resolve_all_states(&resolved, None).expect("Resolve states failed");

    let obj_group0 = states.get_object("group0").expect("Missing group0 object");
    let obj_group1 = states.get_object("group1").expect("Missing group1 object");
    let obj_child0 = states.get_object("child0").expect("Missing child0 object");
    let obj_child1 = states.get_object("child1").expect("Missing child1 object");
    assert_instances(&obj_group0.instances, &vec![inst(10, Some(50))]);
    assert_instances(&obj_child0.instances, &vec![inst(15, Some(100))]);
    assert_instances(&obj_group1.instances, &vec![inst(50, Some(100))]);
    assert_instances(&obj_child1.instances, &vec![inst(55, Some(100))]);
    {
        let state0 = get_state(&states, 16, None);
        assert_obj_on_layer(&state0, "g0", "group0");
        assert_obj_on_layer(&state0, "1", "child0");
        assert!(state0.get_layer("2").is_none());
        assert_eq!(
            &state0.next_events,
            &vec![
                event(EventType::End, "group0", 50),
                event(EventType::Start, "group1", 50),
                event(EventType::Start, "child1", 55),
                event(EventType::End, "child0", 100),
                event(EventType::End, "child1", 100),
                event(EventType::End, "group1", 100),
            ],
        );
    }
    {
        let state0 = get_state(&states, 56, None);
        assert_obj_on_layer(&state0, "g0", "group1");
        assert_obj_on_layer(&state0, "2", "child1");
        assert_eq!(
            &state0.next_events,
            &vec![
                event(EventType::End, "child0", 100),
                event(EventType::End, "child1", 100),
                event(EventType::End, "group1", 100),
            ],
        );
    }
    {
        // objects should be capped inside their parent:
        let state0 = get_state(&states, 120, None);
        assert!(state0.get_layer("g0").is_none());
        assert!(state0.get_layer("1").is_none());
        assert!(state0.get_layer("2").is_none());
    }
}

#[test]
fn cap_in_repeating_parent_group() {
    let timeline = vec![TimelineObject {
        children: Some(vec![
            object("child0", "1", start_duration(Expression::Number(50), Expression::Number(20))),
            object("child1", "2", start_duration(text("#child0.end"), Expression::Number(50))),
        ]),
        ..object(
            "group0",
            "g0",
            vec![TimelineEnable {
                enable_start: Some(Expression::Number(0)),
                enable_end: Some(Expression::Number(80)),
                repeating: Some(Expression::Number(100)),
                ..Default::default()
            }],
        )
    }];
    let options = ResolveOptions { time: 0, limit_count: None, limit_time: None };
    let resolved = resolve_timeline(&timeline, options).expect("Resolve timeline failed");
    let states = resolve_all_states(&resolved, None).expect("Resolve states failed");

    let obj_group0 = states.get_object("group0").expect("Missing group0 object");
    let obj_child0 = states.get_object("child0").expect("Missing child0 object");
    let obj_child1 = states.get_object("child1").expect("Missing child1 object");
    assert_instances(&obj_group0.instances, &vec![inst(0, Some(80)), inst(100, Some(180))]);
    assert_instances(&obj_child0.instances, &vec![inst(50, Some(70)), inst(150, Some(170))]);
    assert_instances(&obj_child1.instances, &vec![inst(70, Some(80)), inst(170, Some(180))]);

    let expectations: Vec<(Time, Option<&str>, Option<&str>, Option<&str>)> = vec![
        (10, Some("group0"), None, None),
        (55, Some("group0"), Some("child0"), None),
        (78, Some("group0"), None, Some("child1")),
        (85, None, None, None),
        (110, Some("group0"), None, None),
        (155, Some("group0"), Some("child0"), None),
        (178, Some("group0"), None, Some("child1")),
        (185, None, None, None),
    ];
    for (time, g0, l1, l2) in expectations {
        let state0 = get_state(&states, time, None);
        for (layer, expected) in [("g0", g0), ("1", l1), ("2", l2)] {
            match expected {
                Some(id) => assert_obj_on_layer(&state0, layer, id),
                None => assert!(state0.get_layer(layer).is_none()),
            }
        }
    }
}

/// A copy of an instance with many properties removed, for comparison.
#[derive(Debug, Clone, PartialEq)]
struct TimelineObjectInstanceLight {
    is_first: bool,
    start: Time,
    end: Option<Time>,
    original_start: Option<Time>,
    original_end: Option<Time>,
    from_instance_id: Option<String>,
}

impl TimelineObjectInstanceLight {
    fn from(instance: &TimelineObjectInstance) -> TimelineObjectInstanceLight {
        TimelineObjectInstanceLight {
            is_first: instance.is_first,
            start: instance.start,
            end: instance.end,
            original_start: instance.original_start,
            original_end: instance.original_end,
            from_instance_id: instance.from_instance_id.clone(),
        }
    }
}

#[test]
fn referencing_child_in_parent_group() {
    let timeline = |child0_while: &str| -> Vec<TimelineObject> {
        vec![
            TimelineObject {
                children: Some(vec![object(
                    "child0",
                    "1",
                    vec![TimelineEnable { enable_while: Some(text(child0_while)), ..Default::default() }],
                )]),
                ..object("group0", "g0", start_end(Expression::Number(0), Expression::Number(80)))
            },
            object("other", "other", vec![TimelineEnable { enable_while: Some(text("1")), ..Default::default() }]),
            object("refChild0", "42", vec![TimelineEnable { enable_while: Some(text("#child0")), ..Default::default() }]),
        ]
    };
    let options = ResolveOptions { time: 0, limit_count: Some(99), limit_time: Some(199) };

    let resolved0 = resolve_timeline(&timeline("#other"), options).expect("Resolve timeline failed");
    let states0 = resolve_all_states(&resolved0, None).expect("Resolve states failed");
    let resolved1 = resolve_timeline(&timeline("1"), options).expect("Resolve timeline failed");
    let states1 = resolve_all_states(&resolved1, None).expect("Resolve states failed");

    states0.get_layer("other").expect("Missing other layer");
    states1.get_layer("other").expect("Missing other layer");
    states0.get_layer("42").expect("Missing 42 layer");
    states1.get_layer("42").expect("Missing 42 layer");

    let obj0_child0 = resolved0.get_object("refChild0").expect("Missing refChild0 object");
    let obj1_child0 = resolved1.get_object("refChild0").expect("Missing refChild0 object");
    let obj0_instances: Vec<TimelineObjectInstanceLight> =
        obj0_child0.resolved.instances.iter().map(TimelineObjectInstanceLight::from).collect();
    let obj1_instances: Vec<TimelineObjectInstanceLight> =
        obj1_child0.resolved.instances.iter().map(TimelineObjectInstanceLight::from).collect();
    assert_eq!(obj0_instances, obj1_instances);
}

#[test]
fn content_start_time_in_capped_object() {
    let timeline = vec![
        object("extRef", "e0", start_duration(Expression::Number(10), Expression::Number(20))),
        TimelineObject {
            children: Some(vec![
                object("video", "1", start_duration(text("#extRef"), Expression::Number(200))),
                object("interrupting", "1", start_duration(Expression::Number(10), Expression::Number(10))),
                object("video2", "2", start_duration(text("-10"), Expression::Number(200))),
                object(
                    "interrupting2",
                    "2",
                    vec![TimelineEnable { enable_while: Some(text("#interrupting")), ..Default::default() }],
                ),
            ]),
            ..object("myGroup", "g0", start_end(Expression::Number(50), Expression::Number(100)))
        },
    ];
    let options = ResolveOptions { time: 0, limit_count: Some(100), limit_time: Some(99999) };
    let resolved = resolve_timeline(&timeline, options).expect("Resolve timeline failed");
    let states = resolve_all_states(&resolved, None).expect("Resolve states failed");

    let obj_my_group = states.get_object("myGroup").expect("Missing myGroup object");
    assert_instances(&obj_my_group.instances, &vec![inst(50, Some(100))]);
    let obj_interrupting = states.get_object("interrupting").expect("Missing interrupting object");
    assert_instances(&obj_interrupting.instances, &vec![inst(60, Some(70))]);
    let obj_video = states.get_object("video").expect("Missing video object");
    assert_instances(
        &obj_video.instances,
        &vec![
            TimelineObjectInstance {
                start: 50,
                end: Some(60),
                original_start: Some(10),
                original_end: Some(210),
                ..Default::default()
            },
            TimelineObjectInstance {
                start: 70,
                end: Some(100),
                original_start: Some(10),
                original_end: Some(210),
                ..Default::default()
            },
        ],
    );
    let obj_video2 = states.get_object("video2").expect("Missing video2 object");
    assert_instances(
        &obj_video2.instances,
        &vec![
            TimelineObjectInstance {
                start: 50,
                end: Some(60),
                original_start: Some(50),
                original_end: Some(250),
                ..Default::default()
            },
            TimelineObjectInstance {
                start: 70,
                end: Some(100),
                original_start: Some(50),
                original_end: Some(250),
                ..Default::default()
            },
        ],
    );
}

#[test]
fn parent_references() {
    let timeline = vec![
        TimelineObject {
            children: Some(vec![
                object("video0", "0", start_duration(Expression::Number(20 + 30), Expression::Number(10))),
                object("video1", "1", start_duration(text("20 + 30"), Expression::Number(10))),
            ]),
            ..object("parent", "p0", start_only(Expression::Number(100)))
        },
        object("video2", "2", start_duration(Expression::Number(150), Expression::Number(10))),
    ];
    let options = ResolveOptions { time: 0, limit_count: Some(10), limit_time: Some(999) };
    let resolved = resolve_timeline(&timeline, options).expect("Resolve timeline failed");
    let states = resolve_all_states(&resolved, None).expect("Resolve states failed");

    let obj_video0 = states.get_object("video0").expect("Missing video0 object");
    let obj_video1 = states.get_object("video1").expect("Missing video1 object");
    let obj_video2 = states.get_object("video2").expect("Missing video2 object");
    assert_instances(&obj_video0.instances, &vec![inst(150, Some(160))]);
    assert_instances(&obj_video1.instances, &vec![inst(150, Some(160))]);
    assert_instances(&obj_video2.instances, &vec![inst(150, Some(160))]);
}
