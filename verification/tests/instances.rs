use supertimeline::api::{ResolveOptions, ResolvedTimeline};
use supertimeline::boolean::boolean_instances;
use supertimeline::expression::{Expression, ExpressionObj, ExpressionOperator};
use supertimeline::instance::{TimelineObjectInfo, TimelineObjectInstance, TimelineObjectResolved};
use supertimeline::lookup_expression::{
    lookup_expression, lookup_expression_str, LookupExpressionResult, LookupExpressionResultType,
};
use supertimeline::resolver::{
    cap_in_parents, events_from_lookup, keep_positive, ObjectRefType, ResolverContext, ResolvingTimelineObject,
    TimeWithReference, TimelineObjectResolvingStatus,
};
use supertimeline::util::{
    apply_parent_instances, apply_repeating_instances, clean_instances, invert_instances, operate_on_arrays,
};

fn context() -> ResolverContext {
    let timeline = ResolvedTimeline {
        options: ResolveOptions { time: 0, limit_count: None, limit_time: None },
        objects: Vec::new(),
        classes: Vec::new(),
        layers: Vec::new(),
    };
    ResolverContext::create(&timeline, Vec::new())
}

fn inst(id: &str, start: u64, end: Option<u64>) -> TimelineObjectInstance {
    TimelineObjectInstance { id: id.to_string(), start, end, ..Default::default() }
}

fn spans(v: &Vec<TimelineObjectInstance>) -> Vec<(u64, Option<u64>)> {
    v.iter().map(|i| (i.start, i.end)).collect()
}

fn instances(v: Vec<TimelineObjectInstance>) -> LookupExpressionResult {
    LookupExpressionResult { result: LookupExpressionResultType::Instances(v), all_references: Vec::new() }
}

#[test]
fn generated_ids_count_up() {
    let mut ctx = context();
    assert_eq!(ctx.generate_id(), "@0");
    assert_eq!(ctx.generate_id(), "@1");
    assert_eq!(ctx.next_id, 2);
}

#[test]
fn cleaning_joins_overlapping_instances() {
    let mut ctx = context();
    let cleaned = clean_instances(
        &mut ctx,
        &[inst("a", 0, Some(10)), inst("b", 5, Some(20)), inst("c", 30, Some(40))],
        true,
        false,
    );
    assert_eq!(spans(&cleaned), vec![(0, Some(20)), (30, Some(40))]);
    let touching = clean_instances(&mut ctx, &[inst("a", 0, Some(10)), inst("b", 10, None)], true, false);
    assert_eq!(spans(&touching), vec![(0, None)]);
    let single = clean_instances(&mut ctx, &[inst("a", 3, Some(7))], true, false);
    assert_eq!(spans(&single), vec![(3, Some(7))]);
    assert_eq!(single[0].original_start, Some(3));
    assert_eq!(single[0].original_end, Some(7));
    assert!(clean_instances(&mut ctx, &[], true, false).is_empty());
}

#[test]
fn inverting_gives_the_gaps() {
    let mut ctx = context();
    let inverted = invert_instances(&mut ctx, &[inst("a", 10, Some(20)), inst("b", 30, Some(40))]);
    assert_eq!(spans(&inverted), vec![(0, Some(10)), (20, Some(30)), (40, None)]);
    assert!(inverted[0].is_first);
    let everything = invert_instances(&mut ctx, &[]);
    assert_eq!(spans(&everything), vec![(0, None)]);
    let from_zero = invert_instances(&mut ctx, &[inst("a", 0, Some(5))]);
    assert_eq!(spans(&from_zero), vec![(5, None)]);
}

#[test]
fn boolean_of_instances() {
    let mut ctx = context();
    let left = instances(vec![inst("a", 0, Some(10)), inst("b", 20, Some(30))]);
    let right = instances(vec![inst("c", 5, Some(25))]);
    let and = boolean_instances(&mut ctx, &left, &right, ExpressionOperator::And);
    assert_eq!(spans(&and), vec![(5, Some(10)), (20, Some(25))]);
    let or = boolean_instances(&mut ctx, &left, &right, ExpressionOperator::Or);
    assert_eq!(spans(&or), vec![(0, Some(30))]);
    let time = LookupExpressionResult {
        result: LookupExpressionResultType::TimeRef(TimeWithReference { value: 1, references: Vec::new() }),
        all_references: Vec::new(),
    };
    let and_time = boolean_instances(&mut ctx, &left, &time, ExpressionOperator::And);
    assert_eq!(spans(&and_time), vec![(0, Some(10)), (20, Some(30))]);
    let nothing = LookupExpressionResult { result: LookupExpressionResultType::Null, all_references: Vec::new() };
    assert!(boolean_instances(&mut ctx, &left, &nothing, ExpressionOperator::And).is_empty());
}

#[test]
fn lookup_events_are_numbered() {
    let looked_up = LookupExpressionResultType::Instances(vec![inst("a", 1, Some(2)), inst("b", 3, None)]);
    let events = events_from_lookup(&looked_up, &"obj".to_string(), true);
    assert_eq!(events.len(), 2);
    assert_eq!(events[0].id, "obj_0");
    assert_eq!(events[1].id, "obj_1");
    assert_eq!(events[1].time, 3);
    let time = LookupExpressionResultType::TimeRef(TimeWithReference { value: 7, references: vec!["x".to_string()] });
    let events = events_from_lookup(&time, &"obj".to_string(), false);
    assert_eq!(events.len(), 1);
    assert_eq!(events[0].id, "obj_0");
    assert!(!events[0].is_start);
    assert_eq!(events[0].references, vec!["x".to_string()]);
}

#[test]
fn zero_length_instances_are_dropped() {
    let kept = keep_positive(vec![inst("a", 1, Some(1)), inst("b", 2, Some(5)), inst("c", 6, None), inst("d", 9, Some(4))]);
    assert_eq!(spans(&kept), vec![(2, Some(5)), (6, None)]);
}

#[test]
fn arithmetic_on_instances_shifts_them() {
    let mut ctx = context();
    let shows = LookupExpressionResultType::Instances(vec![inst("a", 10, Some(20)), inst("b", 30, Some(40))]);
    let five = LookupExpressionResultType::TimeRef(TimeWithReference { value: 5, references: Vec::new() });
    match operate_on_arrays(&mut ctx, &shows, &five, ExpressionOperator::Add) {
        LookupExpressionResultType::Instances(v) => assert_eq!(spans(&v), vec![(15, Some(25)), (35, Some(45))]),
        _ => panic!("Expected instances"),
    }
    match operate_on_arrays(&mut ctx, &shows, &five, ExpressionOperator::Subtract) {
        LookupExpressionResultType::Instances(v) => assert_eq!(spans(&v), vec![(5, Some(15)), (25, Some(35))]),
        _ => panic!("Expected instances"),
    }
    let ten = LookupExpressionResultType::TimeRef(TimeWithReference { value: 10, references: Vec::new() });
    match operate_on_arrays(&mut ctx, &ten, &five, ExpressionOperator::Add) {
        LookupExpressionResultType::Instances(v) => assert_eq!(spans(&v), vec![(15, Some(15))]),
        _ => panic!("Expected instances"),
    }
    assert!(matches!(
        operate_on_arrays(&mut ctx, &shows, &LookupExpressionResultType::Null, ExpressionOperator::Add),
        LookupExpressionResultType::Null
    ));
}

#[test]
fn constant_times_count_from_the_parent() {
    let mut ctx = context();
    let parents = Some(vec![inst("p", 100, Some(200))]);
    let ten = LookupExpressionResultType::TimeRef(TimeWithReference { value: 10, references: Vec::new() });
    match apply_parent_instances(&mut ctx, &parents, &ten) {
        LookupExpressionResultType::Instances(v) => assert_eq!(spans(&v), vec![(110, Some(210))]),
        _ => panic!("Expected instances"),
    }
    assert!(matches!(apply_parent_instances(&mut ctx, &None, &ten), LookupExpressionResultType::Null));
}

#[test]
fn repeating_from_the_latest_repetition() {
    let mut ctx = context();
    let options = ResolveOptions { time: 120, limit_count: None, limit_time: None };
    let every = Some(TimeWithReference { value: 50, references: Vec::new() });
    let repeated = apply_repeating_instances(&mut ctx, vec![inst("a", 0, Some(10))], every, &options);
    assert_eq!(spans(&repeated), vec![(100, Some(110)), (150, Some(160))]);
    let limited = ResolveOptions { time: 120, limit_count: Some(5), limit_time: Some(230) };
    let every = Some(TimeWithReference { value: 50, references: Vec::new() });
    let repeated = apply_repeating_instances(&mut ctx, vec![inst("a", 0, Some(10))], every, &limited);
    assert_eq!(spans(&repeated), vec![(100, Some(110)), (150, Some(160)), (200, Some(210))]);
    let kept = apply_repeating_instances(&mut ctx, vec![inst("a", 0, Some(10))], None, &options);
    assert_eq!(spans(&kept), vec![(0, Some(10))]);
}

#[test]
fn children_are_kept_inside_their_parents() {
    let parents = Some(vec![inst("p0", 0, Some(50)), inst("p1", 100, Some(150))]);
    let mut referring = inst("c", 40, Some(120));
    referring.references = vec!["p1".to_string()];
    let capped = cap_in_parents(&vec![referring], &parents);
    assert_eq!(spans(&capped), vec![(100, Some(120))]);
    assert_eq!(capped[0].caps.len(), 1);
    assert_eq!(capped[0].caps[0].id, "p1");
    let in_each = cap_in_parents(&vec![inst("c", 40, Some(120))], &parents);
    assert_eq!(spans(&in_each), vec![(40, Some(50)), (100, Some(120))]);
    assert!(cap_in_parents(&vec![inst("c", 40, Some(120))], &None).is_empty());
}

fn context_with(ids: &[&str]) -> ResolverContext {
    let timeline = ResolvedTimeline {
        options: ResolveOptions { time: 0, limit_count: None, limit_time: None },
        objects: Vec::new(),
        classes: Vec::new(),
        layers: Vec::new(),
    };
    let objects = ids
        .iter()
        .map(|id| ResolvingTimelineObject {
            resolved: TimelineObjectResolvingStatus::Pending,
            info: TimelineObjectInfo {
                id: id.to_string(),
                enable: Vec::new(),
                priority: 0,
                disabled: false,
                layer: "0".to_string(),
                depth: 0,
                parent_id: None,
                is_keyframe: false,
            },
        })
        .collect();
    ResolverContext::create(&timeline, objects)
}

#[test]
fn text_without_references_looks_up_nothing() {
    let mut ctx = context_with(&["a"]);
    let res = lookup_expression_str(&mut ctx, 0, "plain words", &ObjectRefType::Start).expect("Lookup failed");
    assert!(matches!(res.result, LookupExpressionResultType::Null));
    assert!(res.all_references.is_empty());
    assert!(matches!(ctx.objects[0].resolved, TimelineObjectResolvingStatus::Pending));
    let missing = lookup_expression_str(&mut ctx, 0, "#nothere", &ObjectRefType::Start).expect("Lookup failed");
    assert!(matches!(missing.result, LookupExpressionResultType::Null));
    assert_eq!(missing.all_references, vec!["#nothere".to_string()]);
}

fn covers_time(v: &Vec<TimelineObjectInstance>, t: u64) -> bool {
    v.iter().any(|i| i.start <= t && i.end.map_or(true, |e| t < e))
}

fn combine(l: Expression, o: ExpressionOperator, r: Expression) -> Expression {
    Expression::Expression(Box::new(ExpressionObj { l, o, r }))
}

#[test]
fn a_number_is_a_time_without_references() {
    let mut ctx = context_with(&["a"]);
    let res = lookup_expression(&mut ctx, 0, &Expression::Number(42), &ObjectRefType::Start).expect("Lookup failed");
    match res.result {
        LookupExpressionResultType::TimeRef(t) => {
            assert_eq!(t.value, 42);
            assert!(t.references.is_empty());
        },
        _ => panic!("expected a time"),
    }
    assert!(res.all_references.is_empty());
    let negative = lookup_expression(&mut ctx, 0, &Expression::Number(-5), &ObjectRefType::Start).expect("Lookup failed");
    assert!(matches!(negative.result, LookupExpressionResultType::TimeRef(TimeWithReference { value: 0, .. })));
}

#[test]
fn inverting_nothing_gives_all_times() {
    let mut ctx = context_with(&["a"]);
    for inner in [Expression::Null, Expression::Bool(false)] {
        let res = lookup_expression(&mut ctx, 0, &Expression::Invert(Box::new(inner)), &ObjectRefType::Start)
            .expect("Lookup failed");
        match res.result {
            LookupExpressionResultType::Instances(v) => {
                for t in [0u64, 1, 1000, u64::MAX - 1] {
                    assert!(covers_time(&v, t));
                }
            },
            _ => panic!("expected instances"),
        }
    }
}

#[test]
fn and_or_of_constants() {
    let mut ctx = context_with(&["a"]);
    let and = lookup_expression(
        &mut ctx,
        0,
        &combine(Expression::Number(5), ExpressionOperator::And, Expression::Bool(false)),
        &ObjectRefType::Start,
    )
    .expect("Lookup failed");
    match and.result {
        LookupExpressionResultType::Instances(v) => {
            for t in [0u64, 10, 1000] {
                assert!(!covers_time(&v, t));
            }
        },
        _ => panic!("expected instances"),
    }
    let or = lookup_expression(
        &mut ctx,
        0,
        &combine(Expression::Number(5), ExpressionOperator::Or, Expression::Bool(false)),
        &ObjectRefType::Start,
    )
    .expect("Lookup failed");
    match or.result {
        LookupExpressionResultType::Instances(v) => {
            for t in [0u64, 10, 1000] {
                assert!(covers_time(&v, t));
            }
        },
        _ => panic!("expected instances"),
    }
    // `true` stands for the time 0, which does not hold as a side of a boolean
    let zero_or = lookup_expression(
        &mut ctx,
        0,
        &combine(Expression::Bool(true), ExpressionOperator::Or, Expression::Bool(false)),
        &ObjectRefType::Start,
    )
    .expect("Lookup failed");
    match zero_or.result {
        LookupExpressionResultType::Instances(v) => {
            for t in [0u64, 10, 1000] {
                assert!(!covers_time(&v, t));
            }
        },
        _ => panic!("expected instances"),
    }
    let with_null = lookup_expression(
        &mut ctx,
        0,
        &combine(Expression::Null, ExpressionOperator::Add, Expression::Number(3)),
        &ObjectRefType::Start,
    )
    .expect("Lookup failed");
    assert!(matches!(with_null.result, LookupExpressionResultType::Null));
}

#[test]
fn references_to_resolved_objects_are_looked_up() {
    let mut ctx = context_with(&["a", "b"]);
    ctx.objects[1].resolved = TimelineObjectResolvingStatus::Complete(TimelineObjectResolved {
        is_self_referencing: false,
        instances: vec![inst("b0", 10, Some(20))],
        direct_references: Vec::new(),
    });
    let starts = lookup_expression_str(&mut ctx, 0, "#b", &ObjectRefType::Start).expect("Lookup failed");
    match starts.result {
        LookupExpressionResultType::Instances(v) => assert_eq!(spans(&v), vec![(10, Some(20))]),
        _ => panic!("expected instances"),
    }
    let ends = lookup_expression_str(&mut ctx, 0, "#b.end", &ObjectRefType::Start).expect("Lookup failed");
    match ends.result {
        LookupExpressionResultType::Instances(v) => assert_eq!(spans(&v), vec![(20, None)]),
        _ => panic!("expected instances"),
    }
    let duration = lookup_expression_str(&mut ctx, 0, "#b.duration", &ObjectRefType::Start).expect("Lookup failed");
    assert!(matches!(duration.result, LookupExpressionResultType::TimeRef(TimeWithReference { value: 10, .. })));
    assert!(matches!(ctx.objects[1].resolved, TimelineObjectResolvingStatus::Complete(_)));
}

#[test]
fn one_or_zero_and_one_and_zero() {
    let mut ctx = context_with(&["a"]);
    let or = lookup_expression(
        &mut ctx,
        0,
        &combine(Expression::Number(1), ExpressionOperator::Or, Expression::Number(0)),
        &ObjectRefType::Start,
    )
    .expect("Lookup failed");
    match or.result {
        LookupExpressionResultType::Instances(v) => {
            assert!(!v.is_empty());
            assert_eq!(v[0].start, 0);
            for t in [0u64, 1, 50, 100000] {
                assert!(covers_time(&v, t));
            }
        },
        _ => panic!("expected instances"),
    }
    let and = lookup_expression(
        &mut ctx,
        0,
        &combine(Expression::Number(1), ExpressionOperator::And, Expression::Number(0)),
        &ObjectRefType::Start,
    )
    .expect("Lookup failed");
    match and.result {
        LookupExpressionResultType::Instances(v) => {
            for t in [0u64, 1, 50, 100000] {
                assert!(!covers_time(&v, t));
            }
        },
        _ => panic!("expected instances"),
    }
    let inverted = lookup_expression(&mut ctx, 0, &Expression::Invert(Box::new(Expression::Null)), &ObjectRefType::Start)
        .expect("Lookup failed");
    match inverted.result {
        LookupExpressionResultType::Instances(v) => {
            assert_eq!(spans(&v), vec![(0, None)]);
            assert!(v[0].is_first);
            assert!(v[0].references.is_empty());
            assert!(v[0].caps.is_empty());
        },
        _ => panic!("expected instances"),
    }
}
