//! Operations on lists of instances.

use vstd::prelude::*;
use crate::caps::{CapsBuilder, cap_fold, caps_view, cap_map, distinct_cap_ids};
use crate::events::{
    EventForInstance, EventForInstanceExt, event_wf, instances_ordered, no_touching, starts_before_end, ends_by,
    active_at, all_positive, covers, distinct_instance_ids, event_of_instance, events_of_instances, events_sorted,
    lemma_events_cover_instances, lemma_events_of_push, lemma_events_of_reordered, in_span, grows_from,
    lemma_covers_before, lemma_covers_from, lemma_ordered_instances_disjoint, ends_no_later,
};
use crate::instance::{
    Cap, CapValue, Time, TimelineObjectInstance, copy_caps, copy_strings, distinct_strings,
    instance_wf, string_set,
};
use crate::references::ReferencesBuilder;
use crate::resolver::{
    ResolverContext, TimeWithReference, generated_id, lemma_generated_id_injective, next_counter, same_but_ids,
};
use crate::lookup_expression::{LookupExpressionResultType, lookup_type_wf};
use crate::expression::ExpressionOperator;
use crate::api::{ResolveOptions, DEFAULT_LIMIT_COUNT};
use crate::caps::join_caps;
use crate::instance::{copy_instances, end_or_max};

verus! {

/// The caps that a resumed instance takes from an event: those that end
/// after the instance's end, made to start from zero.
pub open spec fn resumed_caps(caps: Seq<CapValue>, end: Option<Time>) -> Seq<CapValue>
    decreases caps.len(),
{
    if caps.len() == 0 {
        Seq::empty()
    } else {
        let c = caps.last();
        resumed_caps(caps.drop_last(), end) + if c.end is Some && end is Some && c.end->0 > end->0 {
            seq![CapValue { id: c.id, start: 0, end: c.end }]
        } else {
            Seq::empty()
        }
    }
}

/// Adds to a resumed instance the caps of `caps` that end after it.
pub fn add_caps_to_resuming(instance: &mut TimelineObjectInstance, caps: &[Cap])
    ensures
        distinct_cap_ids(final(instance).caps@),
        cap_map(final(instance).caps@) == cap_fold(
            cap_fold(Map::empty(), caps_view(old(instance).caps@)),
            resumed_caps(caps_view(caps@), old(instance).end),
        ),
        final(instance).id == old(instance).id,
        final(instance).is_first == old(instance).is_first,
        final(instance).start == old(instance).start,
        final(instance).end == old(instance).end,
        final(instance).original_start == old(instance).original_start,
        final(instance).original_end == old(instance).original_end,
        final(instance).references == old(instance).references,
        final(instance).from_instance_id == old(instance).from_instance_id,
{
    let mut new_caps: Vec<Cap> = Vec::new();
    let mut i: usize = 0;
    while i < caps.len()
        invariant
            i <= caps@.len(),
            caps_view(new_caps@) == resumed_caps(caps_view(caps@.take(i as int)), instance.end),
        decreases caps@.len() - i,
    {
        proof {
            assert(caps_view(caps@.take(i + 1)).drop_last() =~= caps_view(caps@.take(i as int)));
            assert(caps_view(caps@.take(i + 1)).last() == caps@[i as int]@);
        }
        let cap = &caps[i];
        if let Some(cap_end) = cap.end {
            if let Some(instance_end) = instance.end {
                if cap_end > instance_end {
                    let ghost before = new_caps@;
                    new_caps.push(Cap { id: cap.id.clone(), start: 0, end: Some(cap_end) });
                    assert(caps_view(new_caps@) =~= caps_view(before) + seq![
                        CapValue { id: cap.id@, start: 0, end: Some(cap_end) },
                    ]);
                }
            }
        }
        i = i + 1;
        assert(caps_view(new_caps@) =~= resumed_caps(caps_view(caps@.take(i as int)), instance.end));
    }
    assert(caps@.take(caps@.len() as int) =~= caps@);
    let current = copy_caps(&instance.caps);
    assert(caps_view(current@) =~= caps_view(instance.caps@));
    instance.caps = CapsBuilder::new().add(current).add(new_caps).done();
}

/// Ends an instance at `end`, keeping its first end in `original_end`.
pub fn set_instance_end_time(instance: &mut TimelineObjectInstance, end: Time)
    ensures
        final(instance).end == Some(end),
        final(instance).original_end == if old(instance).original_end is None {
            old(instance).end
        } else {
            old(instance).original_end
        },
        final(instance).id == old(instance).id,
        final(instance).is_first == old(instance).is_first,
        final(instance).start == old(instance).start,
        final(instance).original_start == old(instance).original_start,
        final(instance).references == old(instance).references,
        final(instance).caps == old(instance).caps,
        final(instance).from_instance_id == old(instance).from_instance_id,
{
    if instance.original_end.is_none() {
        instance.original_end = instance.end;
    }
    instance.end = Some(end);
}

/// Starts an instance at `start`, keeping its first start in
/// `original_start`.
pub fn set_instance_start_time(instance: &mut TimelineObjectInstance, start: Time)
    ensures
        final(instance).start == start,
        final(instance).original_start == if old(instance).original_start is None {
            Some(old(instance).start)
        } else {
            old(instance).original_start
        },
        final(instance).id == old(instance).id,
        final(instance).is_first == old(instance).is_first,
        final(instance).end == old(instance).end,
        final(instance).original_end == old(instance).original_end,
        final(instance).references == old(instance).references,
        final(instance).caps == old(instance).caps,
        final(instance).from_instance_id == old(instance).from_instance_id,
{
    if instance.original_start.is_none() {
        instance.original_start = Some(instance.start);
    }
    instance.start = start;
}

/// Every instance of the list stands for sets.
pub open spec fn all_wf(s: Seq<TimelineObjectInstance>) -> bool {
    forall|k: int| 0 <= k < s.len() ==> instance_wf(#[trigger] s[k])
}

fn event_of(instance: &TimelineObjectInstance, time: Time, is_start: bool) -> (e: EventForInstance)
    requires
        instance_wf(*instance),
    ensures
        event_wf(e),
        e.time == time,
        e.is_start == is_start,
        e.id@ == instance.id@,
{
    EventForInstance {
        time,
        is_start,
        references: copy_strings(&instance.references),
        caps: copy_caps(&instance.caps),
        id: instance.id.clone(),
    }
}

/// Cleans up a list of instances: joins those that overlap (and, with
/// `allow_merge`, those that touch) into instances in time order. A single
/// instance is kept as it is, with its span noted as its original one.
pub fn clean_instances(
    ctx: &mut ResolverContext,
    instances: &[TimelineObjectInstance],
    allow_merge: bool,
    allow_zero_gaps: bool,
) -> (r: Vec<TimelineObjectInstance>)
    requires
        all_wf(instances@),
    ensures
        same_but_ids(*old(ctx), *final(ctx)),
        all_wf(r@),
        instances@.len() == 0 ==> r@.len() == 0,
        instances@.len() == 1 ==> r@.len() == 1 && r@[0].id@ == instances@[0].id@ && r@[0].start
            == instances@[0].start && r@[0].end == instances@[0].end && r@[0].original_start == Some(
            instances@[0].start,
        ) && r@[0].original_end == instances@[0].end && r@[0].is_first == instances@[0].is_first,
        instances@.len() != 1 ==> instances_ordered(r@),
        allow_merge && !allow_zero_gaps ==> no_touching(r@),
        distinct_instance_ids(instances@) && all_positive(instances@) ==> forall|x: Time|
            covers(r@, x) <==> covers(instances@, x),
{
    if instances.len() == 0 {
        Vec::new()
    } else if instances.len() == 1 {
        let mut instance = instances[0].copy();
        instance.original_start = Some(instance.start);
        instance.original_end = instance.end;
        let mut r: Vec<TimelineObjectInstance> = Vec::new();
        r.push(instance);
        r
    } else {
        let mut events: Vec<EventForInstance> = Vec::new();
        let mut i: usize = 0;
        proof {
            reveal(events_of_instances);
        }
        while i < instances.len()
            invariant
                i <= instances@.len(),
                all_wf(instances@),
                forall|j: int| 0 <= j < events@.len() ==> event_wf(#[trigger] events@[j]),
                events_of_instances(events@, instances@.take(i as int)),
            decreases instances@.len() - i,
        {
            let instance = &instances[i];
            proof {
                assert(instance_wf(instances@[i as int]));
            }
            let ghost e0 = events@;
            events.push(event_of(instance, instance.start, true));
            if let Some(end) = instance.end {
                events.push(event_of(instance, end, false));
            }
            proof {
                assert(instances@.take(i + 1) =~= instances@.take(i as int).push(instances@[i as int]));
                lemma_events_of_push(e0, events@, instances@.take(i as int), instances@[i as int]);
            }
            i = i + 1;
        }
        let ghost all_events = events@;
        let r = events.into_instances(ctx, allow_merge, allow_zero_gaps);
        proof {
            assert(instances@.take(instances@.len() as int) =~= instances@);
            if distinct_instance_ids(instances@) && all_positive(instances@) {
                let s = choose|s: Seq<EventForInstance>|
                    s.to_multiset() == all_events.to_multiset() && events_sorted(s) && forall|x: Time|
                        covers(r@, x) <==> active_at(s, x);
                lemma_events_of_reordered(all_events, s, instances@);
                assert forall|x: Time| covers(r@, x) <==> covers(instances@, x) by {
                    lemma_events_cover_instances(s, instances@, x);
                }
            }
        }
        r
    }
}

fn instance_with_refs(id: String, is_first: bool, start: Time, references: Vec<String>, caps: Vec<Cap>) -> (i: TimelineObjectInstance)
    ensures
        i.id == id,
        i.is_first == is_first,
        i.start == start,
        i.end is None,
        i.references == references,
        i.caps == caps,
        i.original_start is None,
        i.original_end is None,
        i.from_instance_id is None,
{
    TimelineObjectInstance {
        id,
        is_first,
        start,
        end: None,
        original_start: None,
        original_end: None,
        references,
        caps,
        from_instance_id: None,
    }
}

/// Adding an instance adds what it covers.
pub(crate) proof fn lemma_covers_push(r: Seq<TimelineObjectInstance>, y: TimelineObjectInstance, x: Time)
    ensures
        covers(r.push(y), x) <==> covers(r, x) || in_span(y, x),
{
    let r2 = r.push(y);
    if covers(r, x) {
        let k = choose|k: int| 0 <= k < r.len() && in_span(#[trigger] r[k], x);
        assert(r2[k] == r[k]);
    }
    if in_span(y, x) {
        assert(r2[r.len() as int] == y);
    }
    if covers(r2, x) {
        let k = choose|k: int| 0 <= k < r2.len() && in_span(#[trigger] r2[k], x);
        if k < r.len() {
            assert(r2[k] == r[k]);
        }
    }
}

/// Of instances in order, none before the `i`-th covers a time from its
/// start on.
proof fn lemma_ordered_prefix_before(c: Seq<TimelineObjectInstance>, i: int, x: Time)
    requires
        instances_ordered(c),
        0 <= i < c.len(),
        x >= c[i].start,
    ensures
        !covers(c.take(i), x),
{
    if covers(c.take(i), x) {
        let k = choose|k: int| 0 <= k < c.take(i).len() && in_span(#[trigger] c.take(i)[k], x);
        assert(c.take(i)[k] == c[k]);
        lemma_ordered_instances_disjoint(c, k, i);
    }
}

/// The instances of the gaps between the given instances: from the
/// beginning of time to the first, between each and the next, and after
/// the last. No instances give one instance over all of time. Where the
/// instances have distinct ids and each ends after it starts, the gaps
/// cover just the times that the instances do not.
#[verifier::spinoff_prover]
#[verifier::rlimit(60)]
pub fn invert_instances(ctx: &mut ResolverContext, instances: &[TimelineObjectInstance]) -> (r: Vec<TimelineObjectInstance>)
    requires
        all_wf(instances@),
    ensures
        same_but_ids(*old(ctx), *final(ctx)),
        all_wf(r@),
        instances@.len() != 1 ==> instances_ordered(r@),
        all_positive(instances@) ==> instances_ordered(r@),
        instances@.len() == 0 ==> r@.len() == 1 && r@[0].is_first && r@[0].start == 0 && r@[0].end is None
            && r@[0].references@.len() == 0 && r@[0].caps@.len() == 0,
        forall|k: int| 0 <= k < r@.len() && (#[trigger] r@[k]).is_first ==> k == 0 && r@[k].start == 0,
        distinct_instance_ids(instances@) && all_positive(instances@) ==> forall|x: Time|
            covers(r@, x) <==> !covers(instances@, x),
{
    if instances.len() == 0 {
        let id = ctx.generate_id();
        let mut r: Vec<TimelineObjectInstance> = Vec::new();
        r.push(instance_with_refs(id, true, 0, Vec::new(), Vec::new()));
        proof {
            assert forall|x: Time| covers(r@, x) <==> !covers(instances@, x) by {
                assert(in_span(r@[0], x));
            }
        }
        return r;
    }
    let ghost ctx0 = *ctx;
    let cleaned = clean_instances(ctx, instances, true, true);
    let ghost c = cleaned@;
    let ghost law = distinct_instance_ids(instances@) && all_positive(instances@);
    let ghost ord = instances_ordered(c);
    proof {
        if all_positive(instances@) && instances@.len() == 1 {
            assert(end_or_max(instances@[0].end) > instances@[0].start);
            assert(starts_before_end(c[0]));
            assert(ord);
        }
        if law {
            if instances@.len() == 1 {
                assert(end_or_max(instances@[0].end) > instances@[0].start);
                assert(starts_before_end(c[0]));
            }
            assert(ord);
            assert(covers(instances@, instances@[0].start)) by {
                assert(in_span(instances@[0], instances@[0].start));
            }
            assert(c.len() > 0);
        }
    }
    let mut inverted: Vec<TimelineObjectInstance> = Vec::new();
    if cleaned.len() > 0 && cleaned[0].start != 0 {
        let first = &cleaned[0];
        proof {
            assert(instance_wf(cleaned@[0]));
        }
        let id = ctx.generate_id();
        let refs = ReferencesBuilder::new().add(&first.references).add_id(&first.id).done();
        inverted.push(instance_with_refs(id, true, 0, refs, Vec::new()));
    }
    proof {
        if law {
            assert forall|x: Time| x < c[0].start implies covers(inverted@, x) by {
                assert(in_span(inverted@[0], x));
            }
        }
    }
    let mut i: usize = 0;
    while i < cleaned.len()
        invariant
            i <= cleaned@.len(),
            c == cleaned@,
            all_wf(cleaned@),
            same_but_ids(ctx0, *ctx),
            instances@.len() != 1 ==> instances_ordered(cleaned@),
            ord == instances_ordered(c),
            law ==> ord && c.len() > 0,
            all_wf(inverted@),
            ord ==> instances_ordered(inverted@),
            ord && i < cleaned@.len() && inverted@.len() > 0 ==> inverted@.last().start
                <= cleaned@[i as int].start && inverted@.last().end is None,
            ord && i > 0 && i < cleaned@.len() ==> inverted@.len() > 0,
            ord && i == 0 && inverted@.len() > 0 ==> inverted@.last().start == 0,
            law && i == 0 ==> forall|x: Time| x < c[0].start ==> covers(inverted@, x),
            law && i > 0 ==> forall|x: Time| covers(inverted@, x) <==> !covers(c.take(i as int), x),
            forall|k: int| 0 <= k < inverted@.len() && (#[trigger] inverted@[k]).is_first ==> k == 0 && inverted@[k].start == 0,
        decreases cleaned@.len() - i,
    {
        let instance = &cleaned[i];
        proof {
            assert(instance_wf(cleaned@[i as int]));
        }
        let ghost inv0 = inverted@;
        let n = inverted.len();
        if n > 0 {
            let mut prev = inverted.pop().unwrap();
            prev.end = Some(instance.start);
            inverted.push(prev);
        }
        let ghost inv1 = inverted@;
        if let Some(end) = instance.end {
            let id = ctx.generate_id();
            let refs = ReferencesBuilder::new().add(&instance.references).add_id(&instance.id).done();
            let caps = copy_caps(&instance.caps);
            inverted.push(instance_with_refs(id, false, end, refs, caps));
            assert(inverted@.drop_last() =~= inv1);
        }
        proof {
            assert forall|k: int| 0 <= k < inverted@.len() && (#[trigger] inverted@[k]).is_first implies k == 0
                && inverted@[k].start == 0 by {
                if k < inv0.len() - 1 {
                    assert(inverted@[k] == inv0[k]);
                } else if k == inv0.len() - 1 {
                    assert(inverted@[k].is_first == inv0[k].is_first && inverted@[k].start == inv0[k].start);
                }
            }
        }
        proof {
            if ord && i + 1 < cleaned@.len() {
                assert(ends_by(cleaned@[i as int], cleaned@[i + 1].start));
                assert(starts_before_end(cleaned@[i as int]));
            }
            if law {
                lemma_invert_step(c, i as int, inv0, inv1, inverted@);
            }
        }
        i = i + 1;
    }
    proof {
        if law {
            assert(c.take(c.len() as int) =~= c);
        }
    }
    inverted
}

/// One step of inverting keeps the gaps covering just what the instances
/// taken so far do not.
proof fn lemma_invert_step(
    c: Seq<TimelineObjectInstance>,
    i: int,
    inv0: Seq<TimelineObjectInstance>,
    inv1: Seq<TimelineObjectInstance>,
    inv2: Seq<TimelineObjectInstance>,
)
    requires
        instances_ordered(c),
        0 <= i < c.len(),
        instances_ordered(inv0),
        inv0.len() > 0 ==> inv0.last().start <= c[i].start && inv0.last().end is None,
        i > 0 ==> inv0.len() > 0,
        i == 0 ==> forall|x: Time| x < c[0].start ==> covers(inv0, x),
        i > 0 ==> forall|x: Time| covers(inv0, x) <==> !covers(c.take(i), x),
        inv0.len() == 0 ==> inv1 == inv0,
        inv0.len() > 0 ==> inv1 == inv0.drop_last().push(
            TimelineObjectInstance { end: Some(c[i].start), ..inv0.last() },
        ),
        match c[i].end {
            Some(e) => inv2.len() == inv1.len() + 1 && inv2.drop_last() == inv1 && inv2.last().start == e
                && inv2.last().end is None,
            None => inv2 == inv1,
        },
    ensures
        forall|x: Time| covers(inv2, x) <==> !covers(c.take(i + 1), x),
{
    let t = c[i].start;
    assert(starts_before_end(c[i]));
    assert(c.take(i + 1) =~= c.take(i).push(c[i]));
    assert forall|x: Time| covers(inv2, x) <==> !covers(c.take(i + 1), x) by {
        lemma_covers_push(c.take(i), c[i], x);
        if inv0.len() > 0 {
            assert forall|k: int| 0 <= k < inv1.len() implies (#[trigger] inv1[k]).start <= t && ends_no_later(inv1[k], t) by {
                if k < inv0.len() - 1 {
                    assert(inv1[k] == inv0[k]);
                    lemma_ordered_instances_disjoint(inv0, k, inv0.len() - 1);
                }
            }
            assert(instances_ordered(inv1)) by {
                assert forall|k: int| 0 <= k < inv1.len() - 1 implies ends_by(#[trigger] inv1[k], inv1[k + 1].start) by {
                    assert(inv1[k] == inv0[k]);
                    assert(inv1[k + 1].start == inv0[k + 1].start);
                }
            }
        }
        if x < t {
            assert(!in_span(c[i], x));
            assert(grows_from(inv0, inv1, t));
            lemma_covers_before(inv0, inv1, t, x);
            match c[i].end {
                Some(e) => {
                    lemma_covers_push(inv1, inv2.last(), x);
                    assert(inv2 =~= inv1.push(inv2.last()));
                },
                None => {},
            }
        } else {
            lemma_ordered_prefix_before(c, i, x);
            if inv0.len() > 0 {
                lemma_covers_from(inv1, t, x);
            }
            match c[i].end {
                Some(e) => {
                    lemma_covers_push(inv1, inv2.last(), x);
                    assert(inv2 =~= inv1.push(inv2.last()));
                },
                None => {},
            }
        }
    }
}

/// What an arithmetic operator gives for two times: subtraction stops at
/// zero, as negative times do elsewhere; an overflowing sum or product, a
/// division by zero and a boolean operator give nothing.
pub open spec fn time_operation(a: Time, o: ExpressionOperator, b: Time) -> Option<Time> {
    match o {
        ExpressionOperator::Add => a.checked_add(b),
        ExpressionOperator::Subtract => Some(
            if a >= b {
                (a - b) as Time
            } else {
                0
            },
        ),
        ExpressionOperator::Multiply => a.checked_mul(b),
        ExpressionOperator::Divide => a.checked_div(b),
        ExpressionOperator::Remainder => a.checked_rem(b),
        _ => None,
    }
}

/// The arithmetic of times: a sum or product that fits is the sum or
/// product, a difference stops at zero, and a division by a non-zero time
/// gives the quotient `q` and remainder `m` with `a == q * b + m` and
/// `m < b`; a division by zero gives nothing.
pub proof fn lemma_time_arithmetic(a: Time, b: Time)
    ensures
        a + b <= Time::MAX ==> time_operation(a, ExpressionOperator::Add, b) == Some((a + b) as Time),
        a + b > Time::MAX ==> time_operation(a, ExpressionOperator::Add, b) is None,
        a >= b ==> time_operation(a, ExpressionOperator::Subtract, b) == Some((a - b) as Time),
        a < b ==> time_operation(a, ExpressionOperator::Subtract, b) == Some(0u64),
        a * b <= Time::MAX ==> time_operation(a, ExpressionOperator::Multiply, b) == Some((a * b) as Time),
        a * b > Time::MAX ==> time_operation(a, ExpressionOperator::Multiply, b) is None,
        b != 0 ==> (time_operation(a, ExpressionOperator::Divide, b) matches Some(q) && q * b <= a < (q + 1) * b),
        b != 0 ==> (time_operation(a, ExpressionOperator::Remainder, b) matches Some(m) && m < b && exists|q: int|
            0 <= q && #[trigger] (q * b) + m == a),
        b == 0 ==> time_operation(a, ExpressionOperator::Divide, b) is None && time_operation(
            a,
            ExpressionOperator::Remainder,
            b,
        ) is None,
{
    if b != 0 {
        let q = a / b;
        let m = a % b;
        assert(q * b <= a < (q + 1) * b && m < b && q * b + m == a && 0 <= q) by (nonlinear_arith)
            requires
                b > 0,
                q == a / b,
                m == a % b,
        ;
        assert((q as int) * b + m == a);
    }
}

/// Applies an arithmetic operator to two times, joining their references.
pub fn operate_times(a: Option<&TimeWithReference>, b: Option<&TimeWithReference>, o: ExpressionOperator) -> (r: Option<TimeWithReference>)
    ensures
        match (a, b) {
            (Some(x), Some(y)) => match time_operation(x.value, o, y.value) {
                Some(v) => r matches Some(t) && t.value == v && distinct_strings(t.references@)
                    && string_set(t.references@) == string_set(x.references@).union(string_set(y.references@)),
                None => r is None,
            },
            _ => r is None,
        },
{
    match (a, b) {
        (Some(x), Some(y)) => {
            let v = match o {
                ExpressionOperator::Add => x.value.checked_add(y.value),
                ExpressionOperator::Subtract => Some(
                    if x.value >= y.value {
                        x.value - y.value
                    } else {
                        0
                    },
                ),
                ExpressionOperator::Multiply => x.value.checked_mul(y.value),
                ExpressionOperator::Divide => x.value.checked_div(y.value),
                ExpressionOperator::Remainder => x.value.checked_rem(y.value),
                _ => None,
            };
            match v {
                Some(value) => Some(
                    TimeWithReference {
                        value,
                        references: ReferencesBuilder::new().add(&x.references).add(&y.references).done(),
                    },
                ),
                None => None,
            }
        },
        _ => None,
    }
}

fn time_ref_instance(t: &TimeWithReference) -> (i: TimelineObjectInstance)
    requires
        distinct_strings(t.references@),
    ensures
        instance_wf(i),
        i.start == t.value,
        i.end == Some(t.value),
        !i.is_first,
{
    TimelineObjectInstance {
        id: String::new(),
        is_first: false,
        start: t.value,
        end: Some(t.value),
        original_start: None,
        original_end: None,
        references: copy_strings(&t.references),
        caps: Vec::new(),
        from_instance_id: None,
    }
}

/// An operand of an arithmetic operation on lookups: the span of an
/// instance, and whether it runs from the beginning of time.
pub open spec fn operand_of(i: TimelineObjectInstance) -> (Time, Option<Time>, bool) {
    (i.start, i.end, i.is_first)
}

/// The operands of a lookup: its instances, or one that starts and ends at
/// its time.
pub open spec fn operands(r: LookupExpressionResultType) -> Seq<(Time, Option<Time>, bool)> {
    match r {
        LookupExpressionResultType::Instances(v) => v@.map_values(|i: TimelineObjectInstance| operand_of(i)),
        LookupExpressionResultType::TimeRef(t) => seq![(t.value, Some(t.value), false)],
        LookupExpressionResultType::Null => Seq::empty(),
    }
}

/// How many pairs of operands an operation on two lookups takes: one for
/// two times; as many as the instances of one lookup where the other is a
/// time; else as many as the shorter list of instances.
pub open spec fn paired_count(r0: LookupExpressionResultType, r1: LookupExpressionResultType) -> int {
    let n0 = operands(r0).len() as int;
    let n1 = operands(r1).len() as int;
    if !(r0 is Instances) && !(r1 is Instances) {
        1
    } else if !(r0 is Instances) {
        n1
    } else if !(r1 is Instances) {
        n0
    } else if n0 < n1 {
        n0
    } else {
        n1
    }
}

/// The operand at place `i`, or the first where there are fewer.
pub open spec fn operand_at(ops: Seq<(Time, Option<Time>, bool)>, i: int) -> (Time, Option<Time>, bool) {
    if i < ops.len() {
        ops[i]
    } else {
        ops[0]
    }
}

/// The span that two operands give: that of one running from the beginning
/// of time, else the operator applied to their starts and to their ends
/// (no end where either has none or the operation fails); nothing where the
/// operation on the starts fails.
pub open spec fn paired_span(
    a: (Time, Option<Time>, bool),
    b: (Time, Option<Time>, bool),
    o: ExpressionOperator,
) -> Option<(Time, Option<Time>)> {
    if a.2 {
        Some((a.0, a.1))
    } else if b.2 {
        Some((b.0, b.1))
    } else {
        match time_operation(a.0, o, b.0) {
            Some(start) => Some(
                (
                    start,
                    match (a.1, b.1) {
                        (Some(x), Some(y)) => time_operation(x, o, y),
                        _ => None,
                    },
                ),
            ),
            None => None,
        }
    }
}

/// The span of the `i`-th pair of operands.
pub open spec fn pair_span(
    r0: LookupExpressionResultType,
    r1: LookupExpressionResultType,
    o: ExpressionOperator,
    i: int,
) -> Option<(Time, Option<Time>)> {
    paired_span(operand_at(operands(r0), i), operand_at(operands(r1), i), o)
}

/// The span is on at time `x`.
pub open spec fn span_covers(s: (Time, Option<Time>), x: Time) -> bool {
    s.0 <= x && match s.1 {
        Some(e) => x < e,
        None => true,
    }
}

/// Every pair of operands that gives a span gives one that ends after it
/// starts.
pub open spec fn pairs_positive(r0: LookupExpressionResultType, r1: LookupExpressionResultType, o: ExpressionOperator) -> bool {
    forall|i: int|
        0 <= i < paired_count(r0, r1) ==> match #[trigger] pair_span(r0, r1, o, i) {
            Some(s) => end_or_max(s.1) > s.0,
            None => true,
        }
}

/// Some pair of operands gives a span that is on at time `x`.
pub open spec fn pairs_cover(r0: LookupExpressionResultType, r1: LookupExpressionResultType, o: ExpressionOperator, x: Time) -> bool {
    exists|i: int|
        0 <= i < paired_count(r0, r1) && match #[trigger] pair_span(r0, r1, o, i) {
            Some(s) => span_covers(s, x),
            None => false,
        }
}

/// The instances to operate on: those of the lookup, or the one zero-length
/// instance at a time; and whether they are the lookup's own.
fn array_to_operate(a: &LookupExpressionResultType) -> (r: Option<(Vec<TimelineObjectInstance>, bool)>)
    requires
        lookup_type_wf(*a),
    ensures
        r is None <==> a is Null,
        r matches Some(p) ==> all_wf(p.0@),
        r matches Some(p) ==> (p.1 <==> a is Instances),
        r matches Some(p) ==> p.0@.map_values(|i: TimelineObjectInstance| operand_of(i)) == operands(*a),
{
    match a {
        LookupExpressionResultType::Null => None,
        LookupExpressionResultType::TimeRef(t) => {
            let mut v: Vec<TimelineObjectInstance> = Vec::new();
            v.push(time_ref_instance(t));
            assert(v@.map_values(|i: TimelineObjectInstance| operand_of(i)) =~= operands(*a));
            Some((v, false))
        },
        LookupExpressionResultType::Instances(instances) => {
            let v = copy_instances(instances);
            assert(v@.map_values(|i: TimelineObjectInstance| operand_of(i)) =~= operands(*a));
            Some((v, true))
        },
    }
}

/// A time of an instance, with its references and, unless it is a first
/// instance, its id.
fn time_of(i: &TimelineObjectInstance, value: Time) -> (t: TimeWithReference)
    requires
        instance_wf(*i),
    ensures
        t.value == value,
        distinct_strings(t.references@),
{
    if i.is_first {
        TimeWithReference { value, references: copy_strings(&i.references) }
    } else {
        TimeWithReference {
            value,
            references: ReferencesBuilder::new().add(&i.references).add_id(&i.id).done(),
        }
    }
}

/// Instance `k` has the span of one of the first `done` pairs.
spec fn span_made(
    result: Seq<TimelineObjectInstance>,
    r0: LookupExpressionResultType,
    r1: LookupExpressionResultType,
    o: ExpressionOperator,
    done: int,
    k: int,
) -> bool {
    exists|i: int| 0 <= i < done && pair_span(r0, r1, o, i) == Some((result[k].start, result[k].end))
}

/// The span of pair `i` is that of one of the instances.
spec fn pair_kept(
    result: Seq<TimelineObjectInstance>,
    r0: LookupExpressionResultType,
    r1: LookupExpressionResultType,
    o: ExpressionOperator,
    i: int,
) -> bool {
    exists|k: int| 0 <= k < result.len() && pair_span(r0, r1, o, i) == Some((result[k].start, result[k].end))
}

/// The id made from a value of the counter.
spec fn counter_id(m: int) -> Seq<char> {
    generated_id(m as usize)
}

/// Instance `k` has an id made from the counter since it stood at `n0`.
spec fn id_generated(result: Seq<TimelineObjectInstance>, k: int, n0: int, next: int) -> bool {
    exists|m: int| n0 <= m < next && result[k].id@ == #[trigger] counter_id(m)
}

/// The instances made so far cover just what the spans of the pairs taken
/// so far do, and have ids generated from the counter since it stood at
/// `n0`.
spec fn pairs_made(
    result: Seq<TimelineObjectInstance>,
    r0: LookupExpressionResultType,
    r1: LookupExpressionResultType,
    o: ExpressionOperator,
    done: int,
    n0: int,
    next: int,
) -> bool {
    &&& forall|k: int| 0 <= k < result.len() ==> #[trigger] span_made(result, r0, r1, o, done, k)
    &&& forall|i: int|
        0 <= i < done && (#[trigger] pair_span(r0, r1, o, i)) is Some ==> pair_kept(result, r0, r1, o, i)
    &&& forall|k: int| 0 <= k < result.len() ==> #[trigger] id_generated(result, k, n0, next)
    &&& distinct_instance_ids(result)
}

/// The instance that two operands give, with a fresh id.
fn make_pair(ctx: &mut ResolverContext, a: &TimelineObjectInstance, b: &TimelineObjectInstance, operate: ExpressionOperator) -> (r: Option<TimelineObjectInstance>)
    requires
        instance_wf(*a),
        instance_wf(*b),
    ensures
        same_but_ids(*old(ctx), *final(ctx)),
        match paired_span(operand_of(*a), operand_of(*b), operate) {
            None => r is None && final(ctx).next_id == old(ctx).next_id,
            Some(s) => r matches Some(x) && x.start == s.0 && x.end == s.1 && x.id@ == generated_id(old(ctx).next_id)
                && final(ctx).next_id == next_counter(old(ctx).next_id) && instance_wf(x),
        },
{
    let start = if a.is_first {
        Some(time_of(a, a.start))
    } else if b.is_first {
        Some(time_of(b, b.start))
    } else {
        let ta = time_of(a, a.start);
        let tb = time_of(b, b.start);
        operate_times(Some(&ta), Some(&tb), operate)
    };
    match start {
        Some(start) => {
            let end = if a.is_first {
                match a.end {
                    Some(e) => Some(time_of(a, e)),
                    None => None,
                }
            } else if b.is_first {
                match b.end {
                    Some(e) => Some(time_of(b, e)),
                    None => None,
                }
            } else {
                let a_end = match a.end {
                    Some(e) => Some(time_of(a, e)),
                    None => None,
                };
                let b_end = match b.end {
                    Some(e) => Some(time_of(b, e)),
                    None => None,
                };
                operate_times(a_end.as_ref(), b_end.as_ref(), operate)
            };
            let end_value = match &end {
                Some(e) => Some(e.value),
                None => None,
            };
            let references = match &end {
                Some(e) => ReferencesBuilder::new().add(&start.references).add(&e.references).done(),
                None => ReferencesBuilder::new().add(&start.references).done(),
            };
            let caps = join_caps(&a.caps, &b.caps);
            let id = ctx.generate_id();
            Some(
                TimelineObjectInstance {
                    id,
                    is_first: false,
                    start: start.value,
                    end: end_value,
                    original_start: None,
                    original_end: None,
                    references,
                    caps,
                    from_instance_id: None,
                },
            )
        },
        None => None,
    }
}

/// Pairs the instances of two lookups one by one (a time counting as a
/// zero-length instance that pairs with each) and applies the operator to
/// their starts and ends. A first instance passes its own times through.
/// Either lookup being nothing gives nothing. Where every pair gives a span
/// that ends after it starts (and the id counter does not wrap around), the
/// result covers just the times that the spans of the pairs cover.
pub fn operate_on_arrays(
    ctx: &mut ResolverContext,
    lookup0: &LookupExpressionResultType,
    lookup1: &LookupExpressionResultType,
    operate: ExpressionOperator,
) -> (r: LookupExpressionResultType)
    requires
        lookup_type_wf(*lookup0),
        lookup_type_wf(*lookup1),
    ensures
        same_but_ids(*old(ctx), *final(ctx)),
        r is Null <==> (lookup0 is Null || lookup1 is Null),
        !(r is TimeRef),
        lookup_type_wf(r),
        !(lookup0 is Null) && !(lookup1 is Null) && pairs_positive(*lookup0, *lookup1, operate) && old(ctx).next_id
            + paired_count(*lookup0, *lookup1) <= usize::MAX ==> (r matches LookupExpressionResultType::Instances(v)
            && forall|x: Time| covers(v@, x) <==> pairs_cover(*lookup0, *lookup1, operate, x)),
{
    let a0 = array_to_operate(lookup0);
    let a1 = array_to_operate(lookup1);
    match (a0, a1) {
        (Some((arr0, orig0)), Some((arr1, orig1))) => {
            let ghost ops0 = operands(*lookup0);
            let ghost ops1 = operands(*lookup1);
            let min_length: usize = if !orig0 && !orig1 {
                1
            } else if !orig0 {
                arr1.len()
            } else if !orig1 {
                arr0.len()
            } else if arr0.len() < arr1.len() {
                arr0.len()
            } else {
                arr1.len()
            };
            proof {
                assert(arr0@.len() == ops0.len() && arr1@.len() == ops1.len()) by {
                    assert(arr0@.map_values(|i: TimelineObjectInstance| operand_of(i)).len() == arr0@.len());
                    assert(arr1@.map_values(|i: TimelineObjectInstance| operand_of(i)).len() == arr1@.len());
                }
                assert(min_length == paired_count(*lookup0, *lookup1));
            }
            let ghost ctx0 = *ctx;
            let ghost n0 = ctx.next_id as int;
            let ghost pos = pairs_positive(*lookup0, *lookup1, operate) && n0 + paired_count(*lookup0, *lookup1)
                <= usize::MAX;
            let mut result: Vec<TimelineObjectInstance> = Vec::new();
            let mut i: usize = 0;
            while i < min_length
                invariant
                    i <= min_length,
                    min_length == paired_count(*lookup0, *lookup1),
                    arr0@.map_values(|i: TimelineObjectInstance| operand_of(i)) == ops0,
                    arr1@.map_values(|i: TimelineObjectInstance| operand_of(i)) == ops1,
                    ops0 == operands(*lookup0),
                    ops1 == operands(*lookup1),
                    orig0 <==> lookup0 is Instances,
                    orig1 <==> lookup1 is Instances,
                    !orig0 ==> arr0@.len() == 1,
                    !orig1 ==> arr1@.len() == 1,
                    same_but_ids(ctx0, *ctx),
                    all_wf(arr0@),
                    all_wf(arr1@),
                    all_wf(result@),
                    pos == (pairs_positive(*lookup0, *lookup1, operate) && n0 + paired_count(*lookup0, *lookup1)
                        <= usize::MAX),
                    0 <= n0,
                    pos ==> ctx.next_id as int == n0 + result@.len() && result@.len() <= i,
                    pos ==> all_positive(result@),
                    pos ==> pairs_made(result@, *lookup0, *lookup1, operate, i as int, n0, ctx.next_id as int),
                decreases min_length - i,
            {
                let ia = if i < arr0.len() {
                    i
                } else {
                    0
                };
                let ib = if i < arr1.len() {
                    i
                } else {
                    0
                };
                let ghost r_before = result@;
                let ghost next_before = ctx.next_id as int;
                proof {
                    assert(instance_wf(arr0@[ia as int]));
                    assert(instance_wf(arr1@[ib as int]));
                    assert(operand_at(ops0, i as int) == operand_of(arr0@[ia as int]));
                    assert(operand_at(ops1, i as int) == operand_of(arr1@[ib as int]));
                }
                let pair = make_pair(ctx, &arr0[ia], &arr1[ib], operate);
                match pair {
                    Some(p) => {
                        result.push(p);
                        proof {
                            if pos {
                                lemma_pair_pushed(r_before, result@, *lookup0, *lookup1, operate, i as int, n0, next_before);
                            }
                        }
                    },
                    None => {
                        proof {
                            if pos {
                                lemma_pair_skipped(result@, *lookup0, *lookup1, operate, i as int, n0, ctx.next_id as int);
                            }
                        }
                    },
                }
                i = i + 1;
            }
            let ghost made = result@;
            let cleaned = clean_instances(ctx, result.as_slice(), false, false);
            proof {
                if pos {
                    assert forall|x: Time| covers(cleaned@, x) <==> pairs_cover(*lookup0, *lookup1, operate, x) by {
                        lemma_made_covers(made, *lookup0, *lookup1, operate, x, n0, min_length as int);
                    }
                }
            }
            LookupExpressionResultType::Instances(cleaned)
        },
        _ => LookupExpressionResultType::Null,
    }
}

proof fn lemma_pair_pushed(
    r0: Seq<TimelineObjectInstance>,
    r1: Seq<TimelineObjectInstance>,
    l0: LookupExpressionResultType,
    l1: LookupExpressionResultType,
    o: ExpressionOperator,
    i: int,
    n0: int,
    next: int,
)
    requires
        pairs_made(r0, l0, l1, o, i, n0, next),
        next == n0 + r0.len(),
        0 <= n0,
        next < usize::MAX,
        0 <= i < paired_count(l0, l1),
        pairs_positive(l0, l1, o),
        all_positive(r0),
        r1 == r0.push(r1.last()),
        pair_span(l0, l1, o, i) == Some((r1.last().start, r1.last().end)),
        r1.last().id@ == generated_id(next as usize),
    ensures
        pairs_made(r1, l0, l1, o, i + 1, n0, next + 1),
        all_positive(r1),
{
    let n = r0.len() as int;
    let x = r1.last();
    assert forall|k: int| 0 <= k < r1.len() implies #[trigger] span_made(r1, l0, l1, o, i + 1, k) by {
        if k < n {
            assert(r1[k] == r0[k]);
            assert(span_made(r0, l0, l1, o, i, k));
            let j = choose|j: int| 0 <= j < i && pair_span(l0, l1, o, j) == Some((r0[k].start, r0[k].end));
            assert(0 <= j < i + 1 && pair_span(l0, l1, o, j) == Some((r1[k].start, r1[k].end)));
        } else {
            assert(r1[k] == x);
            assert(0 <= i < i + 1 && pair_span(l0, l1, o, i) == Some((r1[k].start, r1[k].end)));
        }
    }
    assert forall|j: int| 0 <= j < i + 1 && (#[trigger] pair_span(l0, l1, o, j)) is Some implies pair_kept(
        r1,
        l0,
        l1,
        o,
        j,
    ) by {
        if j < i {
            assert(pair_kept(r0, l0, l1, o, j));
            let k = choose|k: int| 0 <= k < r0.len() && pair_span(l0, l1, o, j) == Some((r0[k].start, r0[k].end));
            assert(r1[k] == r0[k]);
            assert(0 <= k < r1.len() && pair_span(l0, l1, o, j) == Some((r1[k].start, r1[k].end)));
        } else {
            assert(r1[n] == x);
            assert(0 <= n < r1.len() && pair_span(l0, l1, o, j) == Some((r1[n].start, r1[n].end)));
        }
    }
    assert forall|k: int| 0 <= k < r1.len() implies #[trigger] id_generated(r1, k, n0, next + 1) by {
        if k < n {
            assert(r1[k] == r0[k]);
            assert(id_generated(r0, k, n0, next));
            let m = choose|m: int| n0 <= m < next && r0[k].id@ == #[trigger] counter_id(m);
            assert(n0 <= m < next + 1 && r1[k].id@ == counter_id(m));
        } else {
            assert(r1[k] == x);
            assert(n0 <= next < next + 1 && r1[k].id@ == counter_id(next));
        }
    }
    assert(distinct_instance_ids(r1)) by {
        assert forall|a: int, b: int| 0 <= a < r1.len() && 0 <= b < r1.len() && a != b implies r1[a].id@ != r1[b].id@ by {
            if a < n && b < n {
                assert(r1[a] == r0[a] && r1[b] == r0[b]);
            } else {
                let y = if a == n { b } else { a };
                assert(y < n);
                assert(r1[y] == r0[y]);
                assert(r1[n] == x);
                assert(id_generated(r0, y, n0, next));
                let m = choose|m: int| n0 <= m < next && r0[y].id@ == #[trigger] counter_id(m);
                if r1[a].id@ == r1[b].id@ {
                    assert(counter_id(m) == generated_id(m as usize));
                    lemma_generated_id_injective(m as usize, next as usize);
                    assert(m as usize == m);
                }
            }
        }
    }
    assert(all_positive(r1)) by {
        assert forall|k: int| 0 <= k < r1.len() implies end_or_max((#[trigger] r1[k]).end) > r1[k].start by {
            if k < n {
                assert(r1[k] == r0[k]);
            } else {
                assert(r1[k] == x);
                assert(match pair_span(l0, l1, o, i) {
                    Some(s) => end_or_max(s.1) > s.0,
                    None => true,
                });
            }
        }
    }
}

proof fn lemma_pair_skipped(
    r: Seq<TimelineObjectInstance>,
    l0: LookupExpressionResultType,
    l1: LookupExpressionResultType,
    o: ExpressionOperator,
    i: int,
    n0: int,
    next: int,
)
    requires
        pairs_made(r, l0, l1, o, i, n0, next),
        pair_span(l0, l1, o, i) is None,
    ensures
        pairs_made(r, l0, l1, o, i + 1, n0, next),
{
    assert forall|k: int| 0 <= k < r.len() implies #[trigger] span_made(r, l0, l1, o, i + 1, k) by {
        assert(span_made(r, l0, l1, o, i, k));
        let j = choose|j: int| 0 <= j < i && pair_span(l0, l1, o, j) == Some((r[k].start, r[k].end));
        assert(0 <= j < i + 1 && pair_span(l0, l1, o, j) == Some((r[k].start, r[k].end)));
    }
}

proof fn lemma_made_covers(
    r: Seq<TimelineObjectInstance>,
    l0: LookupExpressionResultType,
    l1: LookupExpressionResultType,
    o: ExpressionOperator,
    x: Time,
    n0: int,
    count: int,
)
    requires
        count == paired_count(l0, l1),
        pairs_made(r, l0, l1, o, count, n0, n0 + r.len()),
    ensures
        covers(r, x) <==> pairs_cover(l0, l1, o, x),
{
    if covers(r, x) {
        let k = choose|k: int| 0 <= k < r.len() && in_span(#[trigger] r[k], x);
        assert(span_made(r, l0, l1, o, count, k));
        let j = choose|j: int| 0 <= j < count && pair_span(l0, l1, o, j) == Some((r[k].start, r[k].end));
        assert(span_covers((r[k].start, r[k].end), x));
    }
    if pairs_cover(l0, l1, o, x) {
        let j = choose|j: int|
            0 <= j < count && match #[trigger] pair_span(l0, l1, o, j) {
                Some(s) => span_covers(s, x),
                None => false,
            };
        assert(pair_kept(r, l0, l1, o, j));
        let k = choose|k: int| 0 <= k < r.len() && pair_span(l0, l1, o, j) == Some((r[k].start, r[k].end));
        assert(in_span(r[k], x));
    }
}

/// Applies the times of a lookup to each instance of the parent, the way a
/// child's constant times count from its parent's start.
pub fn apply_parent_instances(
    ctx: &mut ResolverContext,
    parent_instances: &Option<Vec<TimelineObjectInstance>>,
    value: &LookupExpressionResultType,
) -> (r: LookupExpressionResultType)
    requires
        parent_instances matches Some(p) ==> all_wf(p@),
        lookup_type_wf(*value),
    ensures
        same_but_ids(*old(ctx), *final(ctx)),
        r is Null <==> (parent_instances is None || value is Null),
        !(r is TimeRef),
        lookup_type_wf(r),
        parent_instances is Some && !(value is Null) && pairs_positive(
            LookupExpressionResultType::Instances(parent_instances->0),
            *value,
            ExpressionOperator::Add,
        ) && old(ctx).next_id + paired_count(LookupExpressionResultType::Instances(parent_instances->0), *value)
            <= usize::MAX ==> (r matches LookupExpressionResultType::Instances(v) && forall|x: Time|
            covers(v@, x) <==> pairs_cover(
                LookupExpressionResultType::Instances(parent_instances->0),
                *value,
                ExpressionOperator::Add,
                x,
            )),
{
    match parent_instances {
        Some(p) => {
            let parents = LookupExpressionResultType::Instances(copy_instances(p));
            let ghost own = LookupExpressionResultType::Instances(*p);
            proof {
                assert(operands(parents) =~= operands(own));
                assert forall|i: int| #[trigger] pair_span(parents, *value, ExpressionOperator::Add, i) == pair_span(
                    own,
                    *value,
                    ExpressionOperator::Add,
                    i,
                ) by {}
                assert(paired_count(parents, *value) == paired_count(own, *value));
                assert(pairs_positive(own, *value, ExpressionOperator::Add) ==> pairs_positive(
                    parents,
                    *value,
                    ExpressionOperator::Add,
                ));
                assert forall|x: Time| #[trigger] pairs_cover(parents, *value, ExpressionOperator::Add, x) == pairs_cover(
                    own,
                    *value,
                    ExpressionOperator::Add,
                    x,
                ) by {
                    if pairs_cover(parents, *value, ExpressionOperator::Add, x) {
                        let i = choose|i: int|
                            0 <= i < paired_count(parents, *value) && match #[trigger] pair_span(
                                parents,
                                *value,
                                ExpressionOperator::Add,
                                i,
                            ) {
                                Some(s) => span_covers(s, x),
                                None => false,
                            };
                        assert(pair_span(own, *value, ExpressionOperator::Add, i) == pair_span(
                            parents,
                            *value,
                            ExpressionOperator::Add,
                            i,
                        ));
                    }
                    if pairs_cover(own, *value, ExpressionOperator::Add, x) {
                        let i = choose|i: int|
                            0 <= i < paired_count(own, *value) && match #[trigger] pair_span(
                                own,
                                *value,
                                ExpressionOperator::Add,
                                i,
                            ) {
                                Some(s) => span_covers(s, x),
                                None => false,
                            };
                        assert(pair_span(own, *value, ExpressionOperator::Add, i) == pair_span(
                            parents,
                            *value,
                            ExpressionOperator::Add,
                            i,
                        ));
                    }
                }
            }
            operate_on_arrays(ctx, &parents, value, ExpressionOperator::Add)
        },
        None => LookupExpressionResultType::Null,
    }
}

/// The first repetition to consider of an instance starting at `start`:
/// the latest one starting at `time` or before, or the instance itself when
/// it starts after `time`.
pub open spec fn first_repeat_start(time: Time, start: Time, interval: Time) -> Time {
    if time >= start {
        (time - (time - start) % (interval as int)) as Time
    } else {
        start
    }
}

fn find_cap(instance: &TimelineObjectInstance) -> (r: Option<usize>)
    ensures
        match r {
            Some(k) => k < instance.caps@.len() && string_set(instance.references@).contains(
                instance.caps@[k as int].id@,
            ) && forall|j: int| 0 <= j < k ==> !string_set(instance.references@).contains(
                #[trigger] instance.caps@[j].id@,
            ),
            None => forall|k: int| 0 <= k < instance.caps@.len() ==> !string_set(instance.references@).contains(
                #[trigger] instance.caps@[k].id@,
            ),
        },
{
    let mut k: usize = 0;
    while k < instance.caps.len()
        invariant
            k <= instance.caps@.len(),
            forall|j: int| 0 <= j < k ==> !string_set(instance.references@).contains(
                #[trigger] instance.caps@[j].id@,
            ),
        decreases instance.caps@.len() - k,
    {
        if crate::references::contains_string(&instance.references, &instance.caps[k].id) {
            return Some(k);
        }
        k = k + 1;
    }
    None
}

/// A time, or the end of time where it would be later.
pub open spec fn saturated(v: int) -> Time {
    if v >= Time::MAX {
        Time::MAX
    } else {
        v as Time
    }
}

/// The cap an instance refers to: the first of its caps whose id is among
/// its references.
pub open spec fn referred_cap(i: TimelineObjectInstance) -> Option<CapValue> {
    if exists|k: int| 0 <= k < i.caps@.len() && string_set(i.references@).contains(#[trigger] i.caps@[k].id@) {
        let k = choose|k: int|
            0 <= k < i.caps@.len() && string_set(i.references@).contains(#[trigger] i.caps@[k].id@) && forall|j: int|
                0 <= j < k ==> !string_set(i.references@).contains(#[trigger] i.caps@[j].id@);
        Some(i.caps@[k]@)
    } else {
        None
    }
}

/// Repetition `c` of an instance, before it is capped: `c` intervals after
/// the first one (see [`first_repeat_start`]), stopping at the end of time.
pub open spec fn repetition(i: TimelineObjectInstance, interval: Time, time: Time, c: nat) -> (Time, Option<Time>) {
    let first = first_repeat_start(time, i.start, interval);
    (
        saturated(first + c * interval),
        match i.end {
            Some(e) => Some(saturated(e + (first - i.start) + c * interval)),
            None => None,
        },
    )
}

/// A span kept inside a cap: starting no earlier, ending no later.
pub open spec fn capped_span(s: (Time, Option<Time>), cap: Option<CapValue>) -> (Time, Option<Time>) {
    (
        match cap {
            Some(c) => if c.start > s.0 {
                c.start
            } else {
                s.0
            },
            None => s.0,
        },
        match s.1 {
            Some(e) => match cap {
                Some(c) => match c.end {
                    Some(ce) => Some(
                        if ce < e {
                            ce
                        } else {
                            e
                        },
                    ),
                    None => Some(e),
                },
                None => Some(e),
            },
            None => None,
        },
    )
}

/// The span is not empty: it ends after it starts, or goes on for ever
/// from before the end of time.
pub open spec fn span_kept(s: (Time, Option<Time>)) -> bool {
    match s.1 {
        Some(e) => e > s.0,
        None => s.0 < Time::MAX,
    }
}

/// How many repetitions there are at most.
pub open spec fn limit_of(options: ResolveOptions) -> nat {
    match options.limit_count {
        Some(l) => l as nat,
        None => DEFAULT_LIMIT_COUNT as nat,
    }
}

/// Repetition `c` is made: there are at most the limit of them, and none
/// starting at the time limit or later.
pub open spec fn repetition_considered(i: TimelineObjectInstance, interval: Time, options: ResolveOptions, c: nat) -> bool {
    c < limit_of(options) && match options.limit_time {
        Some(lt) => repetition(i, interval, options.time, c).0 < lt,
        None => true,
    }
}

/// The span of repetition `c` of instance `n`, where it is made and not
/// empty once capped.
pub open spec fn repeat_span(
    v: Seq<TimelineObjectInstance>,
    interval: Time,
    options: ResolveOptions,
    n: int,
    c: nat,
) -> Option<(Time, Option<Time>)> {
    let s = capped_span(repetition(v[n], interval, options.time, c), referred_cap(v[n]));
    if repetition_considered(v[n], interval, options, c) && span_kept(s) {
        Some(s)
    } else {
        None
    }
}

/// Some repetition of an instance is on at time `x`.
pub open spec fn repeats_cover(v: Seq<TimelineObjectInstance>, interval: Time, options: ResolveOptions, x: Time) -> bool {
    exists|n: int, c: nat|
        0 <= n < v.len() && match #[trigger] repeat_span(v, interval, options, n, c) {
            Some(s) => span_covers(s, x),
            None => false,
        }
}

/// Instance `k` has the span of some repetition.
spec fn repeat_made(r: Seq<TimelineObjectInstance>, v: Seq<TimelineObjectInstance>, interval: Time, options: ResolveOptions, k: int) -> bool {
    exists|n: int, c: nat| 0 <= n < v.len() && repeat_span(v, interval, options, n, c) == Some((r[k].start, r[k].end))
}

/// The span of repetition `c` of instance `n` is that of one of the
/// instances.
spec fn repeat_kept(r: Seq<TimelineObjectInstance>, v: Seq<TimelineObjectInstance>, interval: Time, options: ResolveOptions, n: int, c: nat) -> bool {
    exists|k: int| 0 <= k < r.len() && repeat_span(v, interval, options, n, c) == Some((r[k].start, r[k].end))
}

/// The repetitions made so far: each instance has the span of a
/// repetition, those of the instances before `n`, and the first `count` of
/// instance `n`, are all among them, and the ids are fresh from the counter.
spec fn repeats_made(
    r: Seq<TimelineObjectInstance>,
    v: Seq<TimelineObjectInstance>,
    interval: Time,
    options: ResolveOptions,
    n: int,
    count: nat,
    n0: int,
    next: int,
) -> bool {
    &&& forall|k: int| 0 <= k < r.len() ==> #[trigger] repeat_made(r, v, interval, options, k)
    &&& forall|m: int, c: nat|
        0 <= m < n && (#[trigger] repeat_span(v, interval, options, m, c)) is Some ==> repeat_kept(r, v, interval, options, m, c)
    &&& forall|c: nat|
        c < count && (#[trigger] repeat_span(v, interval, options, n, c)) is Some ==> repeat_kept(r, v, interval, options, n, c)
    &&& forall|k: int| 0 <= k < r.len() ==> #[trigger] id_generated(r, k, n0, next)
    &&& distinct_instance_ids(r)
    &&& all_positive(r)
}

proof fn lemma_saturated_step(a: int, b: int)
    requires
        0 <= a,
        0 <= b,
    ensures
        saturated(saturated(a) + b) == saturated(a + b),
{
}

proof fn lemma_repetition_step(i: TimelineObjectInstance, interval: Time, time: Time, c: nat)
    requires
        first_repeat_start(time, i.start, interval) >= i.start,
    ensures
        repetition(i, interval, time, c + 1).0 == saturated(repetition(i, interval, time, c).0 + interval),
        match i.end {
            Some(e) => repetition(i, interval, time, c + 1).1 == Some(
                saturated(repetition(i, interval, time, c).1->0 + interval),
            ),
            None => repetition(i, interval, time, c + 1).1 is None,
        },
        repetition(i, interval, time, c).0 <= repetition(i, interval, time, c + 1).0,
{
    let first = first_repeat_start(time, i.start, interval);
    assert((c + 1) * interval == c * interval + interval) by (nonlinear_arith);
    assert(c * interval >= 0) by (nonlinear_arith);
    lemma_saturated_step(first + c * interval, interval as int);
    if let Some(e) = i.end {
        lemma_saturated_step(e + (first - i.start) + c * interval, interval as int);
    }
}

proof fn lemma_repetition_monotonic(i: TimelineObjectInstance, interval: Time, time: Time, c: nat, d: nat)
    requires
        first_repeat_start(time, i.start, interval) >= i.start,
        c <= d,
    ensures
        repetition(i, interval, time, c).0 <= repetition(i, interval, time, d).0,
    decreases d - c,
{
    if c < d {
        lemma_repetition_step(i, interval, time, c);
        lemma_repetition_monotonic(i, interval, time, c + 1, d);
    }
}

/// A repetition of an instance, kept inside the cap of the parent it
/// refers to, with a fresh id; none where that leaves it empty.
fn make_repetition(
    ctx: &mut ResolverContext,
    instance: &TimelineObjectInstance,
    cap_index: Option<usize>,
    start_time: Time,
    end_time: Option<Time>,
    repeat_references: &Vec<String>,
) -> (r: Option<TimelineObjectInstance>)
    requires
        instance_wf(*instance),
        distinct_strings(repeat_references@),
        cap_index matches Some(c) ==> c < instance.caps@.len(),
    ensures
        same_but_ids(*old(ctx), *final(ctx)),
        ({
            let s = capped_span(
                (start_time, end_time),
                match cap_index {
                    Some(c) => Some(instance.caps@[c as int]@),
                    None => None,
                },
            );
            if span_kept(s) {
                r matches Some(x) && x.start == s.0 && x.end == s.1 && x.id@ == generated_id(old(ctx).next_id)
                    && final(ctx).next_id == next_counter(old(ctx).next_id) && instance_wf(x)
            } else {
                r is None && final(ctx).next_id == old(ctx).next_id
            }
        }),
{
    let capped_start_time = match cap_index {
        Some(c) => if instance.caps[c].start > start_time {
            instance.caps[c].start
        } else {
            start_time
        },
        None => start_time,
    };
    let capped_end_time = match end_time {
        Some(e) => match cap_index {
            Some(c) => match instance.caps[c].end {
                Some(ce) => Some(
                    if ce < e {
                        ce
                    } else {
                        e
                    },
                ),
                None => Some(e),
            },
            None => Some(e),
        },
        None => None,
    };
    let keep = match capped_end_time {
        Some(e) => e > capped_start_time,
        None => capped_start_time < Time::MAX,
    };
    if keep {
        let references = ReferencesBuilder::new().add_id(&instance.id).add(&instance.references).add(
            repeat_references,
        ).done();
        let id = ctx.generate_id();
        Some(
            TimelineObjectInstance {
                id,
                is_first: false,
                start: capped_start_time,
                end: capped_end_time,
                original_start: None,
                original_end: None,
                references,
                caps: Vec::new(),
                from_instance_id: None,
            },
        )
    } else {
        None
    }
}

/// Repeats each instance every `repeat_time`, from the latest repetition
/// at `options.time` on, as many times as `options.limit_count` says (two
/// by default) and no later than `options.limit_time`. A repetition is kept
/// inside the cap of a parent that the instance refers to; one that is left
/// empty is dropped. Without a repeat time, or with zero, the instances stay
/// as they are. Where the id counter does not wrap around, the result
/// covers just the times that the repetitions cover.
pub fn apply_repeating_instances(
    ctx: &mut ResolverContext,
    instances: Vec<TimelineObjectInstance>,
    repeat_time: Option<TimeWithReference>,
    options: &ResolveOptions,
) -> (r: Vec<TimelineObjectInstance>)
    requires
        all_wf(instances@),
        repeat_time matches Some(t) ==> distinct_strings(t.references@),
    ensures
        same_but_ids(*old(ctx), *final(ctx)),
        all_wf(r@),
        match repeat_time {
            Some(t) => t.value != 0 ==> instances_ordered(r@),
            None => true,
        },
        (repeat_time is None || repeat_time->0.value == 0) ==> r == instances && *final(ctx) == *old(ctx),
        repeat_time is Some && repeat_time->0.value != 0 && old(ctx).next_id + instances@.len() * limit_of(*options)
            <= usize::MAX ==> forall|x: Time| covers(r@, x) <==> repeats_cover(instances@, repeat_time->0.value, *options, x),
{
    match &repeat_time {
        Some(rt) => {
            if rt.value == 0 {
                return instances;
            }
            let ghost ctx0 = *ctx;
            let ghost v = instances@;
            let ghost n0 = ctx.next_id as int;
            let ghost pos = n0 + v.len() * limit_of(*options) <= usize::MAX;
            let mut repeated: Vec<TimelineObjectInstance> = Vec::new();
            let limit = match options.limit_count {
                Some(l) => l,
                None => DEFAULT_LIMIT_COUNT,
            };
            let mut n: usize = 0;
            while n < instances.len()
                invariant
                    n <= instances@.len(),
                    v == instances@,
                    rt.value != 0,
                    limit as nat == limit_of(*options),
                    distinct_strings(rt.references@),
                    same_but_ids(ctx0, *ctx),
                    all_wf(instances@),
                    all_wf(repeated@),
                    forall|k: int| 0 <= k < repeated@.len() ==> starts_before_end(#[trigger] repeated@[k]),
                    0 <= n0,
                    pos == (n0 + v.len() * limit_of(*options) <= usize::MAX),
                    pos ==> ctx.next_id as int == n0 + repeated@.len() && repeated@.len() <= n * limit_of(*options),
                    pos ==> repeats_made(repeated@, v, rt.value, *options, n as int, 0, n0, ctx.next_id as int),
                decreases instances@.len() - n,
            {
                let instance = &instances[n];
                proof {
                    assert(instance_wf(instances@[n as int]));
                }
                let mut start_time: Time = if options.time >= instance.start {
                    let diff = options.time - instance.start;
                    proof {
                        vstd::arithmetic::div_mod::lemma_mod_decreases(diff as nat, rt.value as nat);
                    }
                    options.time - diff % rt.value
                } else {
                    instance.start
                };
                let mut end_time: Option<Time> = match instance.end {
                    Some(end) => Some(end.saturating_add(start_time - instance.start)),
                    None => None,
                };
                let cap_index = find_cap(instance);
                let ghost cap = match cap_index {
                    Some(c) => Some(instance.caps@[c as int]@),
                    None => None,
                };
                proof {
                    assert(start_time == first_repeat_start(options.time, instance.start, rt.value));
                    assert(cap == referred_cap(*instance)) by {
                        lemma_referred_cap(*instance, cap_index);
                    }
                    assert(repetition(*instance, rt.value, options.time, 0).0 == start_time) by {
                        assert(0 * rt.value == 0);
                    }
                    assert(repetition(*instance, rt.value, options.time, 0).1 == end_time) by {
                        assert(0 * rt.value == 0);
                    }
                    if pos {
                        assert(repeated@.len() <= n * limit_of(*options));
                    }
                }
                let mut count: usize = 0;
                let ghost base = repeated@.len();
                proof {
                    if pos {
                        assert(base + limit_of(*options) <= (n + 1) * limit_of(*options)) by (nonlinear_arith)
                            requires
                                base <= n * limit_of(*options),
                        ;
                    }
                }
                loop
                    invariant
                        count <= limit,
                        n < instances@.len(),
                        v == instances@,
                        *instance == instances@[n as int],
                        instance_wf(*instance),
                        rt.value != 0,
                        limit as nat == limit_of(*options),
                        cap_index matches Some(c) ==> c < instance.caps@.len(),
                        cap == referred_cap(*instance),
                        cap == match cap_index {
                            Some(c) => Some(instance.caps@[c as int]@),
                            None => None,
                        },
                        first_repeat_start(options.time, instance.start, rt.value) >= instance.start,
                        start_time == repetition(*instance, rt.value, options.time, count as nat).0,
                        end_time == repetition(*instance, rt.value, options.time, count as nat).1,
                        forall|c: nat| c < count ==> repetition_considered(*instance, rt.value, *options, c),
                        distinct_strings(rt.references@),
                        same_but_ids(ctx0, *ctx),
                        all_wf(repeated@),
                        forall|k: int| 0 <= k < repeated@.len() ==> starts_before_end(#[trigger] repeated@[k]),
                        0 <= n0,
                        pos == (n0 + v.len() * limit_of(*options) <= usize::MAX),
                        pos ==> ctx.next_id as int == n0 + repeated@.len() && repeated@.len() <= base + count
                            && base <= n * limit_of(*options) && base + limit_of(*options) <= (n + 1) * limit_of(*options),
                        pos ==> repeats_made(repeated@, v, rt.value, *options, n as int, count as nat, n0, ctx.next_id as int),
                    ensures
                        pos ==> repeats_made(repeated@, v, rt.value, *options, n as int + 1, 0, n0, ctx.next_id as int),
                        pos ==> ctx.next_id as int == n0 + repeated@.len() && repeated@.len() <= (n + 1) * limit_of(*options),
                        all_wf(repeated@),
                        forall|k: int| 0 <= k < repeated@.len() ==> starts_before_end(#[trigger] repeated@[k]),
                        same_but_ids(ctx0, *ctx),
                    decreases limit - count,
                {
                    if count >= limit {
                        proof {
                            if pos {
                                lemma_repeats_done(repeated@, v, rt.value, *options, n as int, count as nat, n0, ctx.next_id as int);
                            }
                        }
                        break;
                    }
                    if let Some(limit_time) = options.limit_time {
                        if start_time >= limit_time {
                            proof {
                                if pos {
                                    lemma_repeats_done(repeated@, v, rt.value, *options, n as int, count as nat, n0, ctx.next_id as int);
                                }
                            }
                            break;
                        }
                    }
                    proof {
                        assert(repetition_considered(*instance, rt.value, *options, count as nat));
                        assert forall|c: nat| c < count + 1 implies repetition_considered(*instance, rt.value, *options, c) by {}
                    }
                    let ghost r_before = repeated@;
                    let ghost next_before = ctx.next_id as int;
                    let rep = make_repetition(ctx, instance, cap_index, start_time, end_time, &rt.references);
                    match rep {
                        Some(x) => {
                            repeated.push(x);
                            proof {
                                if pos {
                                    assert(n * limit_of(*options) + count < v.len() * limit_of(*options)) by (nonlinear_arith)
                                        requires
                                            n < v.len(),
                                            count < limit_of(*options),
                                    ;
                                    lemma_repeat_pushed(r_before, repeated@, v, rt.value, *options, n as int, count as nat, n0, next_before);
                                }
                            }
                        },
                        None => {
                            proof {
                                if pos {
                                    lemma_repeat_skipped(repeated@, v, rt.value, *options, n as int, count as nat, n0, ctx.next_id as int);
                                }
                            }
                        },
                    }
                    proof {
                        lemma_repetition_step(*instance, rt.value, options.time, count as nat);
                    }
                    start_time = start_time.saturating_add(rt.value);
                    end_time = match end_time {
                        Some(e) => Some(e.saturating_add(rt.value)),
                        None => None,
                    };
                    count = count + 1;
                }
                n = n + 1;
            }
            let ghost made = repeated@;
            let ghost next_end = ctx.next_id as int;
            let r = clean_instances(ctx, repeated.as_slice(), false, false);
            proof {
                if repeated@.len() == 1 {
                    assert(starts_before_end(repeated@[0]));
                }
                if pos {
                    assert forall|x: Time| covers(r@, x) <==> repeats_cover(v, rt.value, *options, x) by {
                        lemma_repeats_cover(made, v, rt.value, *options, x, n0, next_end);
                    }
                }
            }
            r
        },
        None => instances,
    }
}

proof fn lemma_referred_cap(i: TimelineObjectInstance, cap_index: Option<usize>)
    requires
        match cap_index {
            Some(k) => k < i.caps@.len() && string_set(i.references@).contains(i.caps@[k as int].id@) && forall|j: int|
                0 <= j < k ==> !string_set(i.references@).contains(#[trigger] i.caps@[j].id@),
            None => forall|k: int| 0 <= k < i.caps@.len() ==> !string_set(i.references@).contains(#[trigger] i.caps@[k].id@),
        },
    ensures
        referred_cap(i) == match cap_index {
            Some(c) => Some(i.caps@[c as int]@),
            None => None,
        },
{
    if let Some(k) = cap_index {
        let p = |x: int|
            0 <= x < i.caps@.len() && string_set(i.references@).contains(i.caps@[x].id@) && forall|j: int|
                0 <= j < x ==> !string_set(i.references@).contains(#[trigger] i.caps@[j].id@);
        assert(p(k as int));
        let c = choose|x: int|
            0 <= x < i.caps@.len() && string_set(i.references@).contains(#[trigger] i.caps@[x].id@) && forall|j: int|
                0 <= j < x ==> !string_set(i.references@).contains(#[trigger] i.caps@[j].id@);
        assert(c == k) by {
            if c < k {
                assert(!string_set(i.references@).contains(i.caps@[c].id@));
            } else if c > k {
                assert(!string_set(i.references@).contains(i.caps@[k as int].id@));
            }
        }
    }
}

proof fn lemma_repeat_pushed(
    r0: Seq<TimelineObjectInstance>,
    r1: Seq<TimelineObjectInstance>,
    v: Seq<TimelineObjectInstance>,
    interval: Time,
    options: ResolveOptions,
    n: int,
    count: nat,
    n0: int,
    next: int,
)
    requires
        repeats_made(r0, v, interval, options, n, count, n0, next),
        next == n0 + r0.len(),
        0 <= n0,
        next < usize::MAX,
        0 <= n < v.len(),
        r1 == r0.push(r1.last()),
        repeat_span(v, interval, options, n, count) == Some((r1.last().start, r1.last().end)),
        r1.last().id@ == generated_id(next as usize),
    ensures
        repeats_made(r1, v, interval, options, n, count + 1, n0, next + 1),
{
    let len0 = r0.len() as int;
    let x = r1.last();
    assert forall|k: int| 0 <= k < r1.len() implies #[trigger] repeat_made(r1, v, interval, options, k) by {
        if k < len0 {
            assert(r1[k] == r0[k]);
            assert(repeat_made(r0, v, interval, options, k));
            let (m, c) = choose|m: int, c: nat|
                0 <= m < v.len() && repeat_span(v, interval, options, m, c) == Some((r0[k].start, r0[k].end));
            assert(0 <= m < v.len() && repeat_span(v, interval, options, m, c) == Some((r1[k].start, r1[k].end)));
        } else {
            assert(r1[k] == x);
            assert(0 <= n < v.len() && repeat_span(v, interval, options, n, count) == Some((r1[k].start, r1[k].end)));
        }
    }
    assert forall|m: int, c: nat|
        0 <= m < n && (#[trigger] repeat_span(v, interval, options, m, c)) is Some implies repeat_kept(
        r1,
        v,
        interval,
        options,
        m,
        c,
    ) by {
        assert(repeat_kept(r0, v, interval, options, m, c));
        let k = choose|k: int| 0 <= k < r0.len() && repeat_span(v, interval, options, m, c) == Some((r0[k].start, r0[k].end));
        assert(r1[k] == r0[k]);
        assert(0 <= k < r1.len() && repeat_span(v, interval, options, m, c) == Some((r1[k].start, r1[k].end)));
    }
    assert forall|c: nat|
        c < count + 1 && (#[trigger] repeat_span(v, interval, options, n, c)) is Some implies repeat_kept(
        r1,
        v,
        interval,
        options,
        n,
        c,
    ) by {
        if c < count {
            assert(repeat_kept(r0, v, interval, options, n, c));
            let k = choose|k: int| 0 <= k < r0.len() && repeat_span(v, interval, options, n, c) == Some((r0[k].start, r0[k].end));
            assert(r1[k] == r0[k]);
            assert(0 <= k < r1.len() && repeat_span(v, interval, options, n, c) == Some((r1[k].start, r1[k].end)));
        } else {
            assert(r1[len0] == x);
            assert(0 <= len0 < r1.len() && repeat_span(v, interval, options, n, c) == Some((r1[len0].start, r1[len0].end)));
        }
    }
    assert forall|k: int| 0 <= k < r1.len() implies #[trigger] id_generated(r1, k, n0, next + 1) by {
        if k < len0 {
            assert(r1[k] == r0[k]);
            assert(id_generated(r0, k, n0, next));
            let m = choose|m: int| n0 <= m < next && r0[k].id@ == #[trigger] counter_id(m);
            assert(n0 <= m < next + 1 && r1[k].id@ == counter_id(m));
        } else {
            assert(r1[k] == x);
            assert(n0 <= next < next + 1 && r1[k].id@ == counter_id(next));
        }
    }
    assert(distinct_instance_ids(r1)) by {
        assert forall|a: int, b: int| 0 <= a < r1.len() && 0 <= b < r1.len() && a != b implies r1[a].id@ != r1[b].id@ by {
            if a < len0 && b < len0 {
                assert(r1[a] == r0[a] && r1[b] == r0[b]);
            } else {
                let y = if a == len0 { b } else { a };
                assert(y < len0);
                assert(r1[y] == r0[y]);
                assert(r1[len0] == x);
                assert(id_generated(r0, y, n0, next));
                let m = choose|m: int| n0 <= m < next && r0[y].id@ == #[trigger] counter_id(m);
                if r1[a].id@ == r1[b].id@ {
                    assert(counter_id(m) == generated_id(m as usize));
                    lemma_generated_id_injective(m as usize, next as usize);
                    assert(m as usize == m);
                }
            }
        }
    }
    assert(all_positive(r1)) by {
        assert forall|k: int| 0 <= k < r1.len() implies end_or_max((#[trigger] r1[k]).end) > r1[k].start by {
            if k < len0 {
                assert(r1[k] == r0[k]);
            } else {
                assert(r1[k] == x);
            }
        }
    }
}

proof fn lemma_repeat_skipped(
    r: Seq<TimelineObjectInstance>,
    v: Seq<TimelineObjectInstance>,
    interval: Time,
    options: ResolveOptions,
    n: int,
    count: nat,
    n0: int,
    next: int,
)
    requires
        repeats_made(r, v, interval, options, n, count, n0, next),
        repeat_span(v, interval, options, n, count) is None,
    ensures
        repeats_made(r, v, interval, options, n, count + 1, n0, next),
{
}

/// Once no later repetition of instance `n` is made, the next instance's
/// turn begins.
proof fn lemma_repeats_done(
    r: Seq<TimelineObjectInstance>,
    v: Seq<TimelineObjectInstance>,
    interval: Time,
    options: ResolveOptions,
    n: int,
    count: nat,
    n0: int,
    next: int,
)
    requires
        repeats_made(r, v, interval, options, n, count, n0, next),
        0 <= n < v.len(),
        first_repeat_start(options.time, v[n].start, interval) >= v[n].start,
        count >= limit_of(options) || !repetition_considered(v[n], interval, options, count),
    ensures
        repeats_made(r, v, interval, options, n + 1, 0, n0, next),
{
    assert forall|m: int, c: nat|
        0 <= m < n + 1 && (#[trigger] repeat_span(v, interval, options, m, c)) is Some implies repeat_kept(
        r,
        v,
        interval,
        options,
        m,
        c,
    ) by {
        if m == n && c >= count {
            assert(repetition_considered(v[n], interval, options, c));
            if count < limit_of(options) {
                lemma_repetition_monotonic(v[n], interval, options.time, count, c);
            }
        }
    }
}

proof fn lemma_repeats_cover(
    r: Seq<TimelineObjectInstance>,
    v: Seq<TimelineObjectInstance>,
    interval: Time,
    options: ResolveOptions,
    x: Time,
    n0: int,
    next: int,
)
    requires
        repeats_made(r, v, interval, options, v.len() as int, 0, n0, next),
    ensures
        covers(r, x) <==> repeats_cover(v, interval, options, x),
{
    if covers(r, x) {
        let k = choose|k: int| 0 <= k < r.len() && in_span(#[trigger] r[k], x);
        assert(repeat_made(r, v, interval, options, k));
        let (m, c) = choose|m: int, c: nat|
            0 <= m < v.len() && repeat_span(v, interval, options, m, c) == Some((r[k].start, r[k].end));
        assert(span_covers((r[k].start, r[k].end), x));
    }
    if repeats_cover(v, interval, options, x) {
        let (m, c) = choose|m: int, c: nat|
            0 <= m < v.len() && match #[trigger] repeat_span(v, interval, options, m, c) {
                Some(s) => span_covers(s, x),
                None => false,
            };
        assert(repeat_kept(r, v, interval, options, m, c));
        let k = choose|k: int| 0 <= k < r.len() && repeat_span(v, interval, options, m, c) == Some((r[k].start, r[k].end));
        assert(in_span(r[k], x));
    }
}

/// A child instance overlaps a parent instance: it starts inside it, or it
/// starts before it and ends after it.
pub open spec fn overlaps_parent(i: TimelineObjectInstance, p: TimelineObjectInstance) -> bool {
    (i.start >= p.start && i.start < end_or_max(p.end)) || (i.start < p.start && end_or_max(i.end)
        > end_or_max(p.end))
}

/// A child instance ends inside a parent instance.
pub open spec fn ends_in_parent(i: TimelineObjectInstance, p: TimelineObjectInstance) -> bool {
    end_or_max(i.end) > p.start && end_or_max(i.end) <= end_or_max(p.end)
}

/// `r` is `i` kept inside `p`: started no earlier than `p` and ended no
/// later, the spans it had noted as its original ones.
pub open spec fn capped_into(i: TimelineObjectInstance, p: TimelineObjectInstance, r: TimelineObjectInstance) -> bool {
    let cap_end = p.end is Some && end_or_max(i.end) > p.end->0;
    let cap_start = i.start < p.start;
    &&& r.start == if cap_start {
        p.start
    } else {
        i.start
    }
    &&& r.end == if cap_end {
        p.end
    } else {
        i.end
    }
    &&& r.original_start == if cap_start && i.original_start is None {
        Some(i.start)
    } else {
        i.original_start
    }
    &&& r.original_end == if cap_end && i.original_end is None {
        i.end
    } else {
        i.original_end
    }
    &&& r.id@ == i.id@
    &&& r.is_first == i.is_first
    &&& string_set(r.references@) == string_set(i.references@)
    &&& caps_view(r.caps@) == caps_view(i.caps@)
}

/// The parent instance `k` is the one an instance belongs to: of those it
/// overlaps, one that ends last; or, where it overlaps none, one it ends in.
pub open spec fn chosen_parent(i: TimelineObjectInstance, ps: Seq<&TimelineObjectInstance>, k: int) -> bool {
    ||| (overlaps_parent(i, *ps[k]) && (forall|j: int|
        0 <= j < ps.len() && overlaps_parent(i, *ps[j]) ==> end_or_max(ps[j].end) <= end_or_max(
            ps[k].end,
        )))
    ||| (ends_in_parent(i, *ps[k]) && (forall|j: int| 0 <= j < ps.len() ==> !overlaps_parent(i, *ps[j])))
}

/// Keeps an instance inside the parent instance it belongs to: the one it
/// overlaps that ends last (the first such), or else the last one it ends
/// in. An instance with no such parent is dropped.
pub fn cap_instance(instance: &TimelineObjectInstance, parent_instances: &[&TimelineObjectInstance]) -> (r: Option<TimelineObjectInstance>)
    requires
        instance_wf(*instance),
    ensures
        r is None <==> forall|k: int|
            0 <= k < parent_instances@.len() ==> !overlaps_parent(*instance, *parent_instances@[k])
                && !ends_in_parent(*instance, *parent_instances@[k]),
        r matches Some(x) ==> instance_wf(x) && exists|k: int|
            0 <= k < parent_instances@.len() && capped_into(*instance, *parent_instances@[k], x)
                && chosen_parent(*instance, parent_instances@, k),
{
    let mut parent: Option<usize> = None;
    let mut k: usize = 0;
    while k < parent_instances.len()
        invariant
            k <= parent_instances@.len(),
            match parent {
                Some(q) => q < k && overlaps_parent(*instance, *parent_instances@[q as int]) && forall|j: int|
                    0 <= j < k && overlaps_parent(*instance, *parent_instances@[j]) ==> end_or_max(
                        parent_instances@[j].end,
                    ) <= end_or_max(parent_instances@[q as int].end),
                None => forall|j: int| 0 <= j < k ==> !overlaps_parent(*instance, *parent_instances@[j]),
            },
        decreases parent_instances@.len() - k,
    {
        let p = parent_instances[k];
        let p_end = match p.end {
            Some(e) => e,
            None => Time::MAX,
        };
        let instance_end = match instance.end {
            Some(e) => e,
            None => Time::MAX,
        };
        if (instance.start >= p.start && instance.start < p_end) || (instance.start < p.start
            && instance_end > p_end) {
            match parent {
                Some(q) => {
                    let old_end = match parent_instances[q].end {
                        Some(e) => e,
                        None => Time::MAX,
                    };
                    if p_end > old_end {
                        parent = Some(k);
                    }
                },
                None => {
                    parent = Some(k);
                },
            }
        }
        k = k + 1;
    }
    let ghost first_found = parent is Some;
    if parent.is_none() {
        let mut k: usize = 0;
        while k < parent_instances.len()
            invariant
                k <= parent_instances@.len(),
                !first_found,
                forall|j: int| 0 <= j < parent_instances@.len() ==> !overlaps_parent(*instance, *parent_instances@[j]),
                match parent {
                    Some(q) => q < k && ends_in_parent(*instance, *parent_instances@[q as int]),
                    None => forall|j: int| 0 <= j < k ==> !ends_in_parent(*instance, *parent_instances@[j]),
                },
            decreases parent_instances@.len() - k,
        {
            let p = parent_instances[k];
            let p_end = match p.end {
                Some(e) => e,
                None => Time::MAX,
            };
            let instance_end = match instance.end {
                Some(e) => e,
                None => Time::MAX,
            };
            if instance_end > p.start && instance_end <= p_end {
                parent = Some(k);
            }
            k = k + 1;
        }
    }
    match parent {
        Some(q) => {
            let p = parent_instances[q];
            let mut instance2 = instance.copy();
            if let Some(p_end) = p.end {
                let instance_end = match instance.end {
                    Some(e) => e,
                    None => Time::MAX,
                };
                if instance_end > p_end {
                    set_instance_end_time(&mut instance2, p_end);
                }
            }
            if instance.start < p.start {
                set_instance_start_time(&mut instance2, p.start);
            }
            proof {
                assert(caps_view(instance2.caps@) =~= caps_view(instance.caps@));
                assert(string_set(instance2.references@) == string_set(instance.references@));
                assert(capped_into(*instance, *parent_instances@[q as int], instance2));
                assert(instance_wf(instance2));
                assert(chosen_parent(*instance, parent_instances@, q as int));
            }
            Some(instance2)
        },
        None => None,
    }
}

/// An instance kept inside a single parent is on just when both are;
/// where it has no place in the parent, they are never on together.
pub proof fn lemma_capped_covers(i: TimelineObjectInstance, p: TimelineObjectInstance, r: Option<TimelineObjectInstance>, x: Time)
    requires
        x < Time::MAX,
        r is None <==> !overlaps_parent(i, p) && !ends_in_parent(i, p),
        r matches Some(c) ==> capped_into(i, p, c),
    ensures
        match r {
            Some(c) => in_span(c, x) <==> in_span(i, x) && in_span(p, x),
            None => !(in_span(i, x) && in_span(p, x)),
        },
{
}

/// An instance kept inside a parent lies inside both the parent and
/// itself.
pub proof fn lemma_capped_inside(i: TimelineObjectInstance, p: TimelineObjectInstance, r: TimelineObjectInstance)
    requires
        capped_into(i, p, r),
    ensures
        p.start <= r.start,
        i.start <= r.start,
        end_or_max(r.end) <= end_or_max(p.end),
        end_or_max(r.end) <= end_or_max(i.end),
{
}

} // verus!
