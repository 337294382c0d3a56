use std::collections::HashSet;
use supertimeline::api::{resolve_timeline, ResolveOptions, TimelineKeyframe, TimelineObject};
use supertimeline::expression::Expression;
use supertimeline::instance::{TimelineEnable, TimelineObjectInstance};
use supertimeline::state::{get_state, resolve_all_states, EventType, NextEvent, TimelineState};

fn assert_instances(result: &Vec<TimelineObjectInstance>, expected: &Vec<TimelineObjectInstance>) {
    let mut sorted: Vec<&TimelineObjectInstance> = result.iter().collect();
    sorted.sort_by(|a, b| a.start.cmp(&b.start).then_with(|| b.id.cmp(&a.id)));
    assert_eq!(sorted.len(), expected.len());
    for (val, exp) in sorted.iter().zip(expected) {
        assert_eq!(val.start, exp.start);
        assert_eq!(val.end, exp.end);
        if exp.original_start.is_some() {
            assert_eq!(val.original_start, exp.original_start);
        }
        if exp.original_end.is_some() {
            assert_eq!(val.original_end, exp.original_end);
        }
    }
}

fn assert_obj_on_layer(state: &TimelineState, layer: &str, id: &str) {
    let obj = state.get_layer(layer).expect(&format!("Expected '{}' on layer '{}'", id, layer));
    assert_eq!(obj.object_id, id.to_string());
}

fn inst(start: u64, end: Option<u64>) -> TimelineObjectInstance {
    TimelineObjectInstance { start, end, ..Default::default() }
}

fn event(event_type: EventType, object_id: &str, time: u64) -> NextEvent {
    NextEvent { event_type, object_id: object_id.to_string(), time }
}

#[test]
fn basic_simple_timeline() {
    let timeline = vec![
        TimelineObject {
            id: "video".to_string(),
            layer: "0".to_string(),
            enable: vec![TimelineEnable {
                enable_start: Some(Expression::Number(0)),
                enable_end: Some(Expression::Number(100)),
                ..Default::default()
            }],
            ..Default::default()
        },
        TimelineObject {
            id: "graphic0".to_string(),
            layer: "1".to_string(),
            enable: vec![TimelineEnable {
                enable_start: Some(Expression::String("#video.start + 10".to_string())),
                duration: Some(Expression::Number(10)),
                ..Default::default()
            }],
            ..Default::default()
        },
        TimelineObject {
            id: "graphic1".to_string(),
            layer: "1".to_string(),
            enable: vec![TimelineEnable {
                enable_start: Some(Expression::String("#graphic0.end + 10".to_string())),
                duration: Some(Expression::Number(15)),
                ..Default::default()
            }],
            ..Default::default()
        },
    ];
    let options = ResolveOptions { time: 0, limit_count: None, limit_time: None };
    let resolved = resolve_timeline(&timeline, options).expect("Resolve timeline failed");
    let states = resolve_all_states(&resolved, None).expect("Resolve states failed");

    assert_eq!(
        &states.next_events,
        &vec![
            event(EventType::Start, "graphic0", 10),
            event(EventType::End, "graphic0", 20),
            event(EventType::Start, "graphic1", 30),
            event(EventType::End, "graphic1", 45),
            event(EventType::End, "video", 100),
        ],
    );

    let obj_video = states.get_object("video").expect("Missing video object");
    let obj_graphics0 = states.get_object("graphic0").expect("Missing graphic0 object");
    let obj_graphics1 = states.get_object("graphic1").expect("Missing graphic1 object");
    assert_instances(&obj_video.instances, &vec![inst(0, Some(100))]);
    assert_instances(&obj_graphics0.instances, &vec![inst(10, Some(20))]);
    assert_instances(&obj_graphics1.instances, &vec![inst(30, Some(45))]);

    {
        let state0 = get_state(&states, 5, None);
        assert_eq!(state0.time, 5);
        assert_obj_on_layer(&state0, "0", "video");
        assert!(state0.get_layer("1").is_none());
    }
    {
        let state0 = get_state(&states, 15, None);
        assert_obj_on_layer(&state0, "0", "video");
        assert_obj_on_layer(&state0, "1", "graphic0");
        assert_eq!(
            &state0.next_events,
            &vec![
                event(EventType::End, "graphic0", 20),
                event(EventType::Start, "graphic1", 30),
                event(EventType::End, "graphic1", 45),
                event(EventType::End, "video", 100),
            ],
        );
    }
    {
        let state0 = get_state(&states, 21, None);
        assert_obj_on_layer(&state0, "0", "video");
        assert!(state0.get_layer("1").is_none());
    }
    {
        let state0 = get_state(&states, 31, None);
        assert_obj_on_layer(&state0, "0", "video");
        assert_obj_on_layer(&state0, "1", "graphic1");
    }
    {
        let state0 = get_state(&states, 46, None);
        assert_obj_on_layer(&state0, "0", "video");
        assert!(state0.get_layer("1").is_none());
    }
}

#[test]
fn repeating_object() {
    let timeline = vec![
        TimelineObject {
            id: "video".to_string(),
            layer: "0".to_string(),
            enable: vec![TimelineEnable {
                enable_start: Some(Expression::Number(0)),
                enable_end: Some(Expression::Number(40)),
                repeating: Some(Expression::Number(50)),
                ..Default::default()
            }],
            ..Default::default()
        },
        TimelineObject {
            id: "graphic0".to_string(),
            layer: "1".to_string(),
            enable: vec![TimelineEnable {
                enable_start: Some(Expression::String("#video.start + 20".to_string())),
                duration: Some(Expression::Number(19)),
                ..Default::default()
            }],
            ..Default::default()
        },
    ];
    let options = ResolveOptions { time: 0, limit_count: Some(99), limit_time: Some(145) };
    let resolved = resolve_timeline(&timeline, options).expect("Resolve timeline failed");
    let states = resolve_all_states(&resolved, None).expect("Resolve states failed");

    let obj_video = states.get_object("video").expect("Missing video object");
    let obj_graphics0 = states.get_object("graphic0").expect("Missing graphic0 object");
    assert_instances(
        &obj_video.instances,
        &vec![inst(0, Some(40)), inst(50, Some(90)), inst(100, Some(140))],
    );
    assert_instances(
        &obj_graphics0.instances,
        &vec![inst(20, Some(39)), inst(70, Some(89)), inst(120, Some(139))],
    );
    {
        let state0 = get_state(&states, 15, None);
        assert_eq!(state0.time, 15);
        assert!(state0.get_layer("1").is_none());
        assert_obj_on_layer(&state0, "0", "video");
        assert_eq!(
            &state0.next_events,
            &vec![
                event(EventType::Start, "graphic0", 20),
                event(EventType::End, "graphic0", 39),
                event(EventType::End, "video", 40),
                event(EventType::Start, "video", 50),
                event(EventType::Start, "graphic0", 70),
                event(EventType::End, "graphic0", 89),
                event(EventType::End, "video", 90),
                event(EventType::Start, "video", 100),
                event(EventType::Start, "graphic0", 120),
                event(EventType::End, "graphic0", 139),
                event(EventType::End, "video", 140),
            ],
        );
    }
    {
        let state0 = get_state(&states, 21, None);
        assert_obj_on_layer(&state0, "0", "video");
        assert_obj_on_layer(&state0, "1", "graphic0");
    }
    {
        let state0 = get_state(&states, 39, None);
        assert_obj_on_layer(&state0, "0", "video");
        assert!(state0.get_layer("1").is_none());
    }
    {
        let state0 = get_state(&states, 51, None);
        assert_obj_on_layer(&state0, "0", "video");
    }
    {
        let state0 = get_state(&states, 72, None);
        assert_obj_on_layer(&state0, "0", "video");
        assert_obj_on_layer(&state0, "1", "graphic0");
    }
}

#[test]
fn classes() {
    let timeline = vec![
        TimelineObject {
            id: "video0".to_string(),
            layer: "0".to_string(),
            enable: vec![TimelineEnable {
                enable_start: Some(Expression::Number(0)),
                enable_end: Some(Expression::Number(10)),
                repeating: Some(Expression::Number(50)),
                ..Default::default()
            }],
            classes: vec!["class0".to_string()],
            ..Default::default()
        },
        TimelineObject {
            id: "video1".to_string(),
            layer: "0".to_string(),
            enable: vec![TimelineEnable {
                enable_start: Some(Expression::String("#video0.end + 15".to_string())),
                duration: Some(Expression::Number(10)),
                repeating: Some(Expression::Number(50)),
                ..Default::default()
            }],
            classes: vec!["class0".to_string(), "class1".to_string()],
            ..Default::default()
        },
        TimelineObject {
            id: "graphic0".to_string(),
            layer: "1".to_string(),
            enable: vec![TimelineEnable {
                enable_while: Some(Expression::String(".class0".to_string())),
                ..Default::default()
            }],
            ..Default::default()
        },
        TimelineObject {
            id: "graphic1".to_string(),
            layer: "2".to_string(),
            enable: vec![TimelineEnable {
                enable_while: Some(Expression::String(".class1 + 1".to_string())),
                ..Default::default()
            }],
            ..Default::default()
        },
    ];
    let options = ResolveOptions { time: 0, limit_count: None, limit_time: Some(100) };
    let resolved = resolve_timeline(&timeline, options).expect("Resolve timeline failed");
    let states = resolve_all_states(&resolved, None).expect("Resolve states failed");

    let obj_video0 = states.get_object("video0").expect("Missing video0 object");
    let obj_video1 = states.get_object("video1").expect("Missing video1 object");
    let obj_graphics0 = states.get_object("graphic0").expect("Missing graphic0 object");
    let obj_graphics1 = states.get_object("graphic1").expect("Missing graphic1 object");
    assert_instances(&obj_video0.instances, &vec![inst(0, Some(10)), inst(50, Some(60))]);
    assert_instances(&obj_video1.instances, &vec![inst(25, Some(35)), inst(75, Some(85))]);
    assert_instances(
        &obj_graphics0.instances,
        &vec![inst(0, Some(10)), inst(25, Some(35)), inst(50, Some(60)), inst(75, Some(85))],
    );
    assert_instances(&obj_graphics1.instances, &vec![inst(26, Some(36)), inst(76, Some(86))]);
    {
        let state0 = get_state(&states, 5, None);
        assert_obj_on_layer(&state0, "0", "video0");
        assert_obj_on_layer(&state0, "1", "graphic0");
        assert!(state0.get_layer("2").is_none());
    }
    {
        let state0 = get_state(&states, 25, None);
        assert_obj_on_layer(&state0, "0", "video1");
        assert_obj_on_layer(&state0, "1", "graphic0");
        assert!(state0.get_layer("2").is_none());
    }
    {
        let state0 = get_state(&states, 26, None);
        assert_obj_on_layer(&state0, "0", "video1");
        assert_obj_on_layer(&state0, "1", "graphic0");
        assert_obj_on_layer(&state0, "2", "graphic1");
    }
    {
        let state0 = get_state(&states, 76, None);
        assert_obj_on_layer(&state0, "0", "video1");
        assert_obj_on_layer(&state0, "1", "graphic0");
        assert_obj_on_layer(&state0, "2", "graphic1");
    }
}

#[test]
fn unique_instance_ids() {
    let timeline = vec![
        TimelineObject {
            id: "video0".to_string(),
            layer: "0".to_string(),
            enable: vec![TimelineEnable {
                enable_start: Some(Expression::Number(10)),
                enable_end: Some(Expression::Number(80)),
                ..Default::default()
            }],
            ..Default::default()
        },
        TimelineObject {
            id: "video1".to_string(),
            layer: "0".to_string(),
            enable: vec![TimelineEnable {
                enable_start: Some(Expression::Number(10)),
                duration: Some(Expression::Number(20)),
                ..Default::default()
            }],
            priority: 1,
            ..Default::default()
        },
    ];
    let options = ResolveOptions { time: 0, limit_count: None, limit_time: None };
    let resolved = resolve_timeline(&timeline, options).expect("Resolve timeline failed");
    let states = resolve_all_states(&resolved, None).expect("Resolve states failed");

    states.get_object("video0").expect("Missing video0 object");
    states.get_object("video1").expect("Missing video1 object");

    let mut instance_ids = HashSet::new();
    let mut instance_count = 0;
    for obj in &states.objects {
        for instance in &obj.instances {
            instance_ids.insert(instance.id.clone());
            instance_count += 1;
        }
    }
    assert_eq!(instance_count, 3);
    assert_eq!(instance_ids.len(), 3);
}

#[test]
fn repeating_many() {
    let timeline = vec![TimelineObject {
        id: "video0".to_string(),
        layer: "0".to_string(),
        enable: vec![TimelineEnable {
            enable_start: Some(Expression::Number(0)),
            enable_end: Some(Expression::Number(8)),
            repeating: Some(Expression::Number(10)),
            ..Default::default()
        }],
        ..Default::default()
    }];
    let options = ResolveOptions { time: 0, limit_count: Some(100), limit_time: Some(99999) };
    let resolved = resolve_timeline(&timeline, options).expect("Resolve timeline failed");
    let states = resolve_all_states(&resolved, None).expect("Resolve states failed");
    let obj_video0 = states.get_object("video0").expect("Missing video0 object");
    assert_eq!(obj_video0.instances.len(), 100);
}

#[test]
fn class_not_defined() {
    let timeline = vec![TimelineObject {
        id: "video0".to_string(),
        layer: "0".to_string(),
        enable: vec![TimelineEnable {
            enable_while: Some(Expression::String("!.class0".to_string())),
            ..Default::default()
        }],
        ..Default::default()
    }];
    let options = ResolveOptions { time: 0, limit_count: Some(10), limit_time: Some(999) };
    let resolved = resolve_timeline(&timeline, options).expect("Resolve timeline failed");
    let states = resolve_all_states(&resolved, None).expect("Resolve states failed");
    let obj_video0 = states.get_object("video0").expect("Missing video0 object");
    assert_eq!(obj_video0.instances.len(), 1);
    let state0 = get_state(&states, 10, Some(10));
    assert_obj_on_layer(&state0, "0", "video0");
}

#[test]
fn reference_duration() {
    let timeline = vec![
        TimelineObject {
            id: "video0".to_string(),
            layer: "0".to_string(),
            enable: vec![TimelineEnable {
                enable_start: Some(Expression::Number(10)),
                enable_end: Some(Expression::Number(100)),
                ..Default::default()
            }],
            ..Default::default()
        },
        TimelineObject {
            id: "video1".to_string(),
            layer: "1".to_string(),
            enable: vec![TimelineEnable {
                enable_start: Some(Expression::Number(20)),
                enable_end: Some(Expression::String("#video0".to_string())),
                ..Default::default()
            }],
            ..Default::default()
        },
    ];
    let options = ResolveOptions { time: 0, limit_count: Some(10), limit_time: Some(999) };
    let resolved = resolve_timeline(&timeline, options).expect("Resolve timeline failed");
    let states = resolve_all_states(&resolved, None).expect("Resolve states failed");
    let obj_video0 = states.get_object("video0").expect("Missing video0 object");
    let obj_video1 = states.get_object("video1").expect("Missing video1 object");
    assert_eq!(obj_video0.instances.len(), 1);
    assert_eq!(obj_video1.instances.len(), 1);
    assert_instances(&obj_video1.instances, &vec![inst(20, Some(100))]);
}

fn own_reference_timeline(class_based: bool) -> Vec<TimelineObject> {
    let (start1, start2, classes, layer12) = if class_based {
        (".insert_after.end", ".insert_after.end + 1", vec!["insert_after".to_string()], "1")
    } else {
        ("$0.end", "$0.end + 1", Vec::new(), "0")
    };
    vec![
        TimelineObject {
            id: "video0".to_string(),
            layer: "0".to_string(),
            enable: vec![if class_based {
                TimelineEnable {
                    enable_start: Some(Expression::Number(0)),
                    duration: Some(Expression::Number(8)),
                    ..Default::default()
                }
            } else {
                TimelineEnable {
                    enable_start: Some(Expression::Number(0)),
                    enable_end: Some(Expression::Number(8)),
                    ..Default::default()
                }
            }],
            classes: classes.clone(),
            ..Default::default()
        },
        TimelineObject {
            id: "video1".to_string(),
            layer: layer12.to_string(),
            enable: vec![TimelineEnable {
                enable_start: Some(Expression::String(start1.to_string())),
                duration: Some(Expression::Number(2)),
                ..Default::default()
            }],
            classes: classes.clone(),
            ..Default::default()
        },
        TimelineObject {
            id: "video2".to_string(),
            layer: layer12.to_string(),
            enable: vec![TimelineEnable {
                enable_start: Some(Expression::String(start2.to_string())),
                duration: Some(Expression::Number(2)),
                ..Default::default()
            }],
            classes,
            ..Default::default()
        },
    ]
}

fn check_own_reference(timeline: &Vec<TimelineObject>) {
    let options = ResolveOptions { time: 0, limit_count: Some(100), limit_time: Some(99999) };
    let resolved = resolve_timeline(timeline, options).expect("Resolve timeline failed");
    let states = resolve_all_states(&resolved, None).expect("Resolve states failed");
    let obj_video0 = states.get_object("video0").expect("Missing video0 object");
    let obj_video1 = states.get_object("video1").expect("Missing video1 object");
    let obj_video2 = states.get_object("video2").expect("Missing video2 object");
    assert_instances(&obj_video0.instances, &vec![inst(0, Some(8))]);
    assert_instances(
        &obj_video1.instances,
        &vec![TimelineObjectInstance { start: 8, end: Some(9), original_end: Some(10), ..Default::default() }],
    );
    assert_instances(&obj_video2.instances, &vec![inst(9, Some(11))]);
}

#[test]
fn reference_own_layer() {
    let mut timeline = own_reference_timeline(false);
    for _ in 0..2 {
        timeline.reverse();
        assert_eq!(timeline.len(), 3);
        check_own_reference(&timeline);
    }
}

#[test]
fn reference_own_class() {
    let mut timeline = own_reference_timeline(true);
    for _ in 0..2 {
        timeline.reverse();
        assert_eq!(timeline.len(), 3);
        check_own_reference(&timeline);
    }
}

#[test]
fn continuous_combined_negated_and_normal_classes_on_different_objects() {
    let timeline = vec![
        TimelineObject {
            id: "parent".to_string(),
            layer: "p0".to_string(),
            priority: 0,
            enable: vec![TimelineEnable { enable_while: Some(Expression::Number(1)), ..Default::default() }],
            keyframes: vec![TimelineKeyframe {
                id: "kf0".to_string(),
                enable: vec![TimelineEnable {
                    enable_while: Some(Expression::String(".playout & !.muted".to_string())),
                    ..Default::default()
                }],
                ..Default::default()
            }],
            ..Default::default()
        },
        TimelineObject {
            id: "muted_playout1".to_string(),
            layer: "2".to_string(),
            priority: 0,
            enable: vec![TimelineEnable {
                enable_start: Some(Expression::String("100".to_string())),
                duration: Some(Expression::Number(100)),
                ..Default::default()
            }],
            classes: vec!["playout".to_string(), "muted".to_string()],
            ..Default::default()
        },
        TimelineObject {
            id: "muted_playout2".to_string(),
            layer: "2".to_string(),
            priority: 0,
            enable: vec![TimelineEnable {
                enable_start: Some(Expression::String("200".to_string())),
                duration: Some(Expression::Number(100)),
                ..Default::default()
            }],
            classes: vec!["playout".to_string(), "muted".to_string()],
            ..Default::default()
        },
        TimelineObject {
            id: "unmuted_playout1".to_string(),
            layer: "2".to_string(),
            priority: 0,
            enable: vec![TimelineEnable {
                enable_start: Some(Expression::String("300".to_string())),
                duration: Some(Expression::Number(100)),
                ..Default::default()
            }],
            classes: vec!["playout".to_string()],
            ..Default::default()
        },
    ];
    let options = ResolveOptions { time: 0, limit_count: Some(10), limit_time: Some(999) };
    let resolved = resolve_timeline(&timeline, options).expect("Resolve timeline failed");
    let states = resolve_all_states(&resolved, None).expect("Resolve states failed");

    states.get_object("parent").expect("Missing parent object");
    states.get_object("muted_playout1").expect("Missing muted_playout1 object");
    states.get_object("muted_playout2").expect("Missing muted_playout2 object");
    states.get_object("unmuted_playout1").expect("Missing unmuted_playout1 object");

    for (time, keyframes) in [(50, 0), (150, 0), (250, 0), (350, 1)] {
        let state0 = get_state(&states, time, None);
        let layer = state0.get_layer("p0").expect("Missing state for layer p0");
        assert_eq!(layer.object_id, "parent");
        assert_eq!(layer.keyframes.len(), keyframes);
    }
}
