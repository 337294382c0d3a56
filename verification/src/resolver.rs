//! Resolving the objects of a timeline into instances.

use vstd::prelude::*;
use crate::api::ResolveOptions;
use crate::expression::ExpressionError;
use crate::instance::{
    Time, TimelineObjectInfo, TimelineObjectResolved, TimelineObjectResolvedWip, distinct_strings,
    end_or_max, string_set,
};
use crate::caps::caps_view;
use crate::util::{
    all_wf, apply_parent_instances, apply_repeating_instances, cap_instance, lemma_capped_covers, lemma_covers_push,
    span_covers,
};
use crate::events::{
    active_at, at_event_times, covers, events_sorted, in_span, lemma_one_start, lemma_start_then_end,
};
use crate::events::{EventForInstance, EventForInstanceExt, event_wf};
use crate::expression::{
    ExprValue, Expression, boolean_while_spec, hack_boolean_expression, interpret_expression,
    interpret_expression_spec, is_constant, simplify_expression, simplify_spec,
};
use crate::instance::{
    Cap, TimelineEnable, TimelineObjectInstance, copy_caps, copy_enables, copy_opt_string, copy_strings,
    instance_wf, same_enable,
};
use crate::lookup_expression::{
    LookupExpressionResultType, lookup_expression, lookup_type_wf, expr_refers_resolved, refers_resolved,
    lemma_refers_resolved_step, first_start_ref, start_blocked, start_waits_on, first_with_id, referred_id,
    MATCH_ID_PATTERN,
};
use crate::patterns::regex_captures_result;
use crate::references::{ReferencesBuilder, contains_string, insert_strings};
use crate::names::{copy_names, ids_for_name, names_lookup, strings_view};
use crate::api::ResolvedTimeline;
use crate::text::{concat, decimal, decimal_string, lemma_decimal_injective};

verus! {

/// Which point of a referenced object an expression means.
#[derive(PartialEq, Eq, Structural, Debug, Clone, Copy)]
pub enum ObjectRefType {
    Start,
    End,
    Duration,
}

/// A point in time, with the references it was computed from.
#[derive(Debug)]
pub struct TimeWithReference {
    pub value: Time,
    /// The references (no duplicates)
    pub references: Vec<String>,
}

/// Why a timeline could not be resolved.
#[derive(Debug)]
pub enum ResolveError {
    CircularDependency(String),
    BadExpression((String, &'static str, ExpressionError)),
    InstancesArrayNotSupported((String, &'static str)),
    ResolvedWhilePending(String),
    ResolvedWhileResolvec(String),
    UnresolvedObjects(Vec<String>),
}

/// Where the resolving of an object stands.
#[derive(Debug)]
pub enum TimelineObjectResolvingStatus {
    Pending,
    InProgress(TimelineObjectResolvedWip),
    Complete(TimelineObjectResolved),
}

impl TimelineObjectResolvingStatus {
    pub open spec fn self_referencing(self) -> bool {
        match self {
            TimelineObjectResolvingStatus::Pending => false,
            TimelineObjectResolvingStatus::InProgress(p) => p.is_self_referencing,
            TimelineObjectResolvingStatus::Complete(r) => r.is_self_referencing,
        }
    }

    /// Whether the object refers to itself; an object not yet started does
    /// not.
    pub fn is_self_referencing(&self) -> (b: bool)
        ensures
            b == self.self_referencing(),
    {
        match self {
            TimelineObjectResolvingStatus::Pending => false,
            TimelineObjectResolvingStatus::InProgress(progress) => progress.is_self_referencing,
            TimelineObjectResolvingStatus::Complete(res) => res.is_self_referencing,
        }
    }
}

/// An object of the timeline while it is being resolved.
#[derive(Debug)]
pub struct ResolvingTimelineObject {
    pub resolved: TimelineObjectResolvingStatus,
    pub info: TimelineObjectInfo,
}

impl ResolvingTimelineObject {
    pub fn is_self_referencing(&self) -> (b: bool)
        ensures
            b == self.resolved.self_referencing(),
    {
        self.resolved.is_self_referencing()
    }
}

/// The number of objects whose resolving has not started.
pub open spec fn pending_count(objs: Seq<ResolvingTimelineObject>) -> nat
    decreases objs.len(),
{
    if objs.len() == 0 {
        0
    } else {
        pending_count(objs.drop_last()) + if objs.last().resolved is Pending {
            1nat
        } else {
            0nat
        }
    }
}

/// Everything the resolver works with: the options, the objects and where
/// each stands, the classes and layers, and the counter that instance ids
/// are made from.
pub struct ResolverContext {
    pub options: ResolveOptions,
    /// All objects of the timeline
    pub objects: Vec<ResolvingTimelineObject>,
    /// The ids of the objects of each class
    pub classes: Vec<(String, Vec<String>)>,
    /// The ids of the objects of each layer
    pub layers: Vec<(String, Vec<String>)>,
    pub next_id: usize,
}

/// `b` is `a` but for the id counter.
pub open spec fn same_but_ids(a: ResolverContext, b: ResolverContext) -> bool {
    &&& a.options == b.options
    &&& a.objects == b.objects
    &&& a.classes == b.classes
    &&& a.layers == b.layers
}

/// The id counter after one id was taken: it wraps around as an atomic
/// counter does.
pub open spec fn next_counter(n: usize) -> usize {
    if n == usize::MAX {
        0
    } else {
        (n + 1) as usize
    }
}

/// The id made from a value of the counter.
pub open spec fn generated_id(n: usize) -> Seq<char> {
    seq!['@'] + decimal(n as nat)
}

/// Different values of the counter make different ids.
pub proof fn lemma_generated_id_injective(a: usize, b: usize)
    requires
        generated_id(a) == generated_id(b),
    ensures
        a == b,
{
    assert(generated_id(a).drop_first() =~= decimal(a as nat));
    assert(generated_id(b).drop_first() =~= decimal(b as nat));
    lemma_decimal_injective(a as nat, b as nat);
}

impl ResolverContext {
    /// A context for resolving the given objects with the options, classes
    /// and layers of a timeline.
    pub fn create(resolved_timeline: &ResolvedTimeline, objects: Vec<ResolvingTimelineObject>) -> (c: ResolverContext)
        ensures
            c.options == resolved_timeline.options,
            c.objects == objects,
            forall|k: Seq<char>| #[trigger] names_lookup(c.classes@, k) == names_lookup(resolved_timeline.classes@, k),
            forall|k: Seq<char>| #[trigger] names_lookup(c.layers@, k) == names_lookup(resolved_timeline.layers@, k),
            c.next_id == 0,
    {
        ResolverContext {
            options: resolved_timeline.options,
            objects,
            classes: copy_names(&resolved_timeline.classes),
            layers: copy_names(&resolved_timeline.layers),
            next_id: 0,
        }
    }

    /// A fresh id for an instance: `@` and the counter.
    pub fn generate_id(&mut self) -> (id: String)
        ensures
            id@ == generated_id(old(self).next_id),
            final(self).next_id == next_counter(old(self).next_id),
            same_but_ids(*old(self), *final(self)),
    {
        let index = self.next_id;
        self.next_id = if index == usize::MAX {
            0
        } else {
            index + 1
        };
        let digits = decimal_string(index);
        let id = concat("@", digits.as_str());
        proof {
            reveal_strlit("@");
        }
        id
    }

    /// The index of the first object with the given id.
    pub fn find_object(&self, id: &String) -> (r: Option<usize>)
        ensures
            match r {
                Some(i) => i < self.objects@.len() && self.objects@[i as int].info.id@ == id@
                    && forall|j: int| 0 <= j < i ==> self.objects@[j].info.id@ != id@,
                None => forall|j: int| 0 <= j < self.objects@.len() ==> self.objects@[j].info.id@ != id@,
            },
    {
        let mut i: usize = 0;
        while i < self.objects.len()
            invariant
                i <= self.objects@.len(),
                forall|j: int| 0 <= j < i ==> self.objects@[j].info.id@ != id@,
            decreases self.objects@.len() - i,
        {
            if self.objects[i].info.id == *id {
                return Some(i);
            }
            i = i + 1;
        }
        None
    }

    /// The first object with the given id.
    pub fn get_object(&self, id: &String) -> (r: Option<&ResolvingTimelineObject>)
        ensures
            match r {
                Some(o) => exists|i: int| 0 <= i < self.objects@.len() && self.objects@[i] == *o
                    && o.info.id@ == id@,
                None => forall|j: int| 0 <= j < self.objects@.len() ==> self.objects@[j].info.id@ != id@,
            },
    {
        match self.find_object(id) {
            Some(i) => Some(&self.objects[i]),
            None => None,
        }
    }

    /// The ids of the objects of a class.
    pub fn get_object_ids_for_class(&self, class: &String) -> (r: Option<&Vec<String>>)
        ensures
            match r {
                Some(v) => names_lookup(self.classes@, class@) == Some(strings_view(v@)),
                None => names_lookup(self.classes@, class@) is None,
            },
    {
        ids_for_name(&self.classes, class)
    }

    /// The ids of the objects of a layer.
    pub fn get_object_ids_for_layer(&self, layer: &String) -> (r: Option<&Vec<String>>)
        ensures
            match r {
                Some(v) => names_lookup(self.layers@, layer@) == Some(strings_view(v@)),
                None => names_lookup(self.layers@, layer@) is None,
            },
    {
        ids_for_name(&self.layers, layer)
    }
}

/// A resolved object's instances and references stand for sets, and each
/// of its instances ends after it starts.
pub open spec fn resolved_wf(s: TimelineObjectResolvingStatus) -> bool {
    match s {
        TimelineObjectResolvingStatus::Complete(r) => {
            &&& all_wf(r.instances@)
            &&& distinct_strings(r.direct_references@)
            &&& forall|k: int|
                0 <= k < r.instances@.len() ==> end_or_max(#[trigger] r.instances@[k].end)
                    > r.instances@[k].start
        },
        _ => true,
    }
}

/// An object of a constant span, once resolved, is on just during its span.
pub open spec fn resolved_as_declared(o: ResolvingTimelineObject) -> bool {
    match o.resolved {
        TimelineObjectResolvingStatus::Complete(r) => match constant_object_span(o.info) {
            Some(span) => forall|x: Time| covers(r.instances@, x) <==> span_covers(span, x),
            None => true,
        },
        _ => true,
    }
}

/// Every resolved object of the context is well formed, and is on just
/// during its span where that span is constant.
pub open spec fn ctx_wf(c: ResolverContext) -> bool {
    forall|i: int|
        0 <= i < c.objects@.len() ==> resolved_wf(#[trigger] c.objects@[i].resolved) && resolved_as_declared(
            c.objects@[i],
        )
}

/// What resolving may do to a context: the objects stay as they are but for
/// where their resolving stands; a resolved object stays as it is, a
/// started one does not go back to pending, one in progress is not
/// finished by another's resolving, and well-formedness is kept.
pub open spec fn ctx_step(a: ResolverContext, b: ResolverContext) -> bool {
    &&& a.options == b.options
    &&& a.classes == b.classes
    &&& a.layers == b.layers
    &&& b.objects@.len() == a.objects@.len()
    &&& forall|i: int| 0 <= i < a.objects@.len() ==> (#[trigger] b.objects@[i]).info == a.objects@[i].info
    &&& forall|i: int|
        0 <= i < a.objects@.len() && a.objects@[i].resolved is Complete ==> (#[trigger] b.objects@[i]).resolved
            == a.objects@[i].resolved
    &&& forall|i: int|
        0 <= i < a.objects@.len() && !(a.objects@[i].resolved is Pending) ==> !((
        #[trigger] b.objects@[i]).resolved is Pending)
    &&& forall|i: int|
        0 <= i < a.objects@.len() && a.objects@[i].resolved is InProgress ==> (
        #[trigger] b.objects@[i]).resolved is InProgress
    &&& pending_count(b.objects@) <= pending_count(a.objects@)
    &&& ctx_wf(a) ==> ctx_wf(b)
}

/// Every object but `i` is resolved.
pub open spec fn others_complete(c: ResolverContext, i: int) -> bool {
    forall|j: int| 0 <= j < c.objects@.len() && j != i ==> (#[trigger] c.objects@[j]).resolved is Complete
}

/// A step of resolving keeps the resolved objects resolved.
pub proof fn lemma_others_complete_step(a: ResolverContext, b: ResolverContext, i: int)
    requires
        ctx_step(a, b),
        others_complete(a, i),
    ensures
        others_complete(b, i),
{
    assert forall|j: int| 0 <= j < b.objects@.len() && j != i implies (#[trigger] b.objects@[j]).resolved is Complete by {
        assert(a.objects@[j].resolved is Complete);
    }
}

/// Two steps of resolving make one.
pub proof fn lemma_ctx_step_trans(a: ResolverContext, b: ResolverContext, c: ResolverContext)
    requires
        ctx_step(a, b),
        ctx_step(b, c),
    ensures
        ctx_step(a, c),
{
    assert forall|i: int| 0 <= i < a.objects@.len() implies (#[trigger] c.objects@[i]).info == a.objects@[i].info by {
        assert(b.objects@[i].info == a.objects@[i].info);
    }
    assert forall|i: int|
        0 <= i < a.objects@.len() && a.objects@[i].resolved is Complete implies (#[trigger] c.objects@[i]).resolved
            == a.objects@[i].resolved by {
        assert(b.objects@[i].resolved == a.objects@[i].resolved);
    }
    assert forall|i: int|
        0 <= i < a.objects@.len() && !(a.objects@[i].resolved is Pending) implies !((
        #[trigger] c.objects@[i]).resolved is Pending) by {
        assert(!(b.objects@[i].resolved is Pending));
    }
    assert forall|i: int|
        0 <= i < a.objects@.len() && a.objects@[i].resolved is InProgress implies (
        #[trigger] c.objects@[i]).resolved is InProgress by {
        assert(b.objects@[i].resolved is InProgress);
    }
}

/// Taking ids is a step of resolving.
pub proof fn lemma_same_but_ids_step(a: ResolverContext, b: ResolverContext)
    requires
        same_but_ids(a, b),
    ensures
        ctx_step(a, b),
{
}

proof fn lemma_pending_update(objs: Seq<ResolvingTimelineObject>, i: int, o: ResolvingTimelineObject)
    requires
        0 <= i < objs.len(),
    ensures
        pending_count(objs.update(i, o)) + (if objs[i].resolved is Pending {
            1int
        } else {
            0int
        }) == pending_count(objs) + (if o.resolved is Pending {
            1int
        } else {
            0int
        }),
    decreases objs.len(),
{
    let u = objs.update(i, o);
    if i == objs.len() - 1 {
        assert(u.drop_last() =~= objs.drop_last());
    } else {
        assert(u.drop_last() =~= objs.drop_last().update(i, o));
        lemma_pending_update(objs.drop_last(), i, o);
    }
}

/// Sets where the resolving of object `i` stands.
pub fn set_status(ctx: &mut ResolverContext, i: usize, status: TimelineObjectResolvingStatus)
    requires
        i < old(ctx).objects@.len(),
    ensures
        final(ctx).objects@ == old(ctx).objects@.update(
            i as int,
            ResolvingTimelineObject { resolved: status, info: old(ctx).objects@[i as int].info },
        ),
        final(ctx).options == old(ctx).options,
        final(ctx).classes == old(ctx).classes,
        final(ctx).layers == old(ctx).layers,
        final(ctx).next_id == old(ctx).next_id,
        pending_count(final(ctx).objects@) + (if old(ctx).objects@[i as int].resolved is Pending {
            1int
        } else {
            0int
        }) == pending_count(old(ctx).objects@) + (if status is Pending {
            1int
        } else {
            0int
        }),
{
    let ghost before = ctx.objects@;
    let mut o = ctx.objects.remove(i);
    o.resolved = status;
    ctx.objects.insert(i, o);
    proof {
        assert(ctx.objects@ =~= before.update(i as int, o));
        lemma_pending_update(before, i as int, o);
    }
}

/// The id of the `k`-th event of object `obj_id`.
pub open spec fn lookup_event_id(obj_id: Seq<char>, k: int) -> Seq<char> {
    obj_id + "_"@ + decimal(k as nat)
}

/// `e` is an event at `time`, with id `id`, carrying the given references
/// and caps.
pub open spec fn event_is(
    e: EventForInstance,
    time: Time,
    is_start: bool,
    id: Seq<char>,
    references: Seq<String>,
    caps: Seq<Cap>,
) -> bool {
    &&& e.time == time
    &&& e.is_start == is_start
    &&& e.id@ == id
    &&& string_set(e.references@) == string_set(references)
    &&& caps_view(e.caps@) == caps_view(caps)
}

/// `events` are the events of a lookup for object `obj_id`: one for each
/// instance, at its start, or one at the time looked up.
pub open spec fn lookup_events(
    looked_up: LookupExpressionResultType,
    obj_id: Seq<char>,
    is_start: bool,
    events: Seq<EventForInstance>,
) -> bool {
    match looked_up {
        LookupExpressionResultType::Instances(v) => events.len() == v@.len() && forall|j: int|
            0 <= j < events.len() ==> event_is(
                #[trigger] events[j],
                v@[j].start,
                is_start,
                lookup_event_id(obj_id, j),
                v@[j].references@,
                v@[j].caps@,
            ),
        LookupExpressionResultType::TimeRef(t) => events.len() == 1 && event_is(
            events[0],
            t.value,
            is_start,
            lookup_event_id(obj_id, 0),
            t.references@,
            Seq::empty(),
        ),
        LookupExpressionResultType::Null => events.len() == 0,
    }
}

/// The events of the instances (or the time) of a lookup, for object
/// `obj_id`: the `k`-th one gets the id `obj_id` `_` `k`.
pub fn events_from_lookup(looked_up: &LookupExpressionResultType, obj_id: &String, is_start: bool) -> (events: Vec<EventForInstance>)
    requires
        lookup_type_wf(*looked_up),
    ensures
        lookup_events(*looked_up, obj_id@, is_start, events@),
        forall|j: int| 0 <= j < events@.len() ==> event_wf(#[trigger] events@[j]) && events@[j].is_start
            == is_start,
{
    let mut events: Vec<EventForInstance> = Vec::new();
    match looked_up {
        LookupExpressionResultType::Instances(instances) => {
            let mut k: usize = 0;
            while k < instances.len()
                invariant
                    k <= instances@.len(),
                    all_wf(instances@),
                    events@.len() == k,
                    forall|j: int| 0 <= j < events@.len() ==> event_wf(#[trigger] events@[j]) && events@[j].is_start
                        == is_start,
                    forall|j: int|
                        0 <= j < events@.len() ==> event_is(
                            #[trigger] events@[j],
                            instances@[j].start,
                            is_start,
                            lookup_event_id(obj_id@, j),
                            instances@[j].references@,
                            instances@[j].caps@,
                        ),
                decreases instances@.len() - k,
            {
                let instance = &instances[k];
                proof {
                    assert(instance_wf(instances@[k as int]));
                }
                let suffix = concat("_", decimal_string(k).as_str());
                let caps = copy_caps(&instance.caps);
                assert(caps_view(caps@) =~= caps_view(instance.caps@));
                events.push(
                    EventForInstance {
                        time: instance.start,
                        is_start,
                        id: concat(obj_id.as_str(), suffix.as_str()),
                        references: copy_strings(&instance.references),
                        caps,
                    },
                );
                proof {
                    assert(lookup_event_id(obj_id@, k as int) =~= obj_id@ + suffix@);
                }
                k = k + 1;
            }
        },
        LookupExpressionResultType::TimeRef(time_ref) => {
            let suffix = concat("_", decimal_string(0).as_str());
            events.push(
                EventForInstance {
                    time: time_ref.value,
                    is_start,
                    id: concat(obj_id.as_str(), suffix.as_str()),
                    references: copy_strings(&time_ref.references),
                    caps: Vec::new(),
                },
            );
            proof {
                assert(lookup_event_id(obj_id@, 0) =~= obj_id@ + suffix@);
                assert(caps_view(events@[0].caps@) =~= caps_view(Seq::<Cap>::empty()));
            }
        },
        LookupExpressionResultType::Null => {},
    }
    events
}

/// The start events among `s`, in their order.
pub open spec fn start_events(s: Seq<EventForInstance>) -> Seq<EventForInstance> {
    s.filter(|e: EventForInstance| e.is_start)
}

/// The end events for start events that end `duration` later (or at the
/// end of time), referring also to what the duration refers to.
pub open spec fn duration_events_of(
    events: Seq<EventForInstance>,
    duration: Time,
    duration_references: Seq<String>,
    r: Seq<EventForInstance>,
) -> bool {
    let starts = start_events(events);
    &&& r.len() == starts.len()
    &&& forall|j: int|
        0 <= j < r.len() ==> (#[trigger] r[j]).time == (if starts[j].time + duration <= Time::MAX {
            (starts[j].time + duration) as Time
        } else {
            Time::MAX
        }) && !r[j].is_start && r[j].id@ == starts[j].id@ && string_set(r[j].references@) == string_set(
            starts[j].references@,
        ).union(string_set(duration_references)) && r[j].caps@.len() == 0
}

/// An end event for each start event, `duration` later, referring also to
/// what the duration refers to.
pub fn duration_events(events: &Vec<EventForInstance>, duration: Time, duration_references: &Vec<String>) -> (r: Vec<EventForInstance>)
    requires
        forall|j: int| 0 <= j < events@.len() ==> event_wf(#[trigger] events@[j]),
    ensures
        duration_events_of(events@, duration, duration_references@, r@),
        forall|j: int| 0 <= j < r@.len() ==> event_wf(#[trigger] r@[j]) && !r@[j].is_start,
{
    let ghost all = events@;
    let mut new_events: Vec<EventForInstance> = Vec::new();
    let mut k: usize = 0;
    proof {
        reveal(Seq::filter);
        assert(all.take(0) =~= Seq::<EventForInstance>::empty());
    }
    while k < events.len()
        invariant
            k <= events@.len(),
            all == events@,
            duration_events_of(all.take(k as int), duration, duration_references@, new_events@),
            forall|j: int| 0 <= j < new_events@.len() ==> event_wf(#[trigger] new_events@[j]) && !new_events@[j].is_start,
        decreases events@.len() - k,
    {
        let event = &events[k];
        let ghost before = new_events@;
        proof {
            reveal(Seq::filter);
            assert(all.take(k + 1).drop_last() =~= all.take(k as int));
            assert(all.take(k + 1).last() == all[k as int]);
            assert(start_events(all.take(k + 1)) == if all[k as int].is_start {
                start_events(all.take(k as int)).push(all[k as int])
            } else {
                start_events(all.take(k as int))
            });
        }
        if event.is_start {
            let references = ReferencesBuilder::new().add(&event.references).add(duration_references).done();
            new_events.push(
                EventForInstance {
                    time: event.time.saturating_add(duration),
                    is_start: false,
                    id: event.id.clone(),
                    references,
                    caps: Vec::new(),
                },
            );
            proof {
                let starts = start_events(all.take(k + 1));
                assert forall|j: int| 0 <= j < new_events@.len() implies (#[trigger] new_events@[j]).time == (
                if starts[j].time + duration <= Time::MAX {
                    (starts[j].time + duration) as Time
                } else {
                    Time::MAX
                }) && !new_events@[j].is_start && new_events@[j].id@ == starts[j].id@ && string_set(
                    new_events@[j].references@,
                ) == string_set(starts[j].references@).union(string_set(duration_references@))
                    && new_events@[j].caps@.len() == 0 by {
                    if j < before.len() {
                        assert(new_events@[j] == before[j]);
                        assert(starts[j] == start_events(all.take(k as int))[j]);
                    }
                }
            }
        }
        k = k + 1;
    }
    assert(all.take(k as int) =~= all);
    new_events
}

/// The parent instance that an instance refers to: the first whose id is
/// among its references.
pub open spec fn referred_parent(i: TimelineObjectInstance, parents: Seq<TimelineObjectInstance>) -> Option<int> {
    if exists|k: int| 0 <= k < parents.len() && string_set(i.references@).contains(#[trigger] parents[k].id@) {
        Some(
            choose|k: int|
                0 <= k < parents.len() && string_set(i.references@).contains(#[trigger] parents[k].id@) && forall|j: int|
                    0 <= j < k ==> !string_set(i.references@).contains(#[trigger] parents[j].id@),
        )
    } else {
        None
    }
}

/// At time `x` the instance is on, and so is the parent instance it refers
/// to, or (where it refers to none) some parent instance.
pub open spec fn on_in_parent(i: TimelineObjectInstance, parents: Seq<TimelineObjectInstance>, x: Time) -> bool {
    in_span(i, x) && match referred_parent(i, parents) {
        Some(k) => in_span(parents[k], x),
        None => covers(parents, x),
    }
}

/// Some of the instances is on inside its parent at time `x`.
pub open spec fn some_on_in_parent(v: Seq<TimelineObjectInstance>, parents: Seq<TimelineObjectInstance>, n: int, x: Time) -> bool {
    exists|m: int| 0 <= m < n && #[trigger] on_in_parent(v[m], parents, x)
}

proof fn lemma_referred_parent(i: TimelineObjectInstance, parents: Seq<TimelineObjectInstance>, q: Option<int>)
    requires
        match q {
            Some(k) => 0 <= k < parents.len() && string_set(i.references@).contains(parents[k].id@) && forall|j: int|
                0 <= j < k ==> !string_set(i.references@).contains(#[trigger] parents[j].id@),
            None => forall|k: int| 0 <= k < parents.len() ==> !string_set(i.references@).contains(#[trigger] parents[k].id@),
        },
    ensures
        referred_parent(i, parents) == q,
{
    if let Some(k) = q {
        let c = choose|x: int|
            0 <= x < parents.len() && string_set(i.references@).contains(#[trigger] parents[x].id@) && forall|j: int|
                0 <= j < x ==> !string_set(i.references@).contains(#[trigger] parents[j].id@);
        assert(string_set(i.references@).contains(parents[k].id@));
        assert(c == k) by {
            if c < k {
                assert(!string_set(i.references@).contains(parents[c].id@));
            } else if c > k {
                assert(!string_set(i.references@).contains(parents[k].id@));
            }
        }
    }
}

/// Keeps each instance inside its parent's instances: inside the one it
/// refers to, or else inside each; the parent becomes one of its caps.
/// Before the end of time, the result is on just when some instance is on
/// inside its parent.
pub fn cap_in_parents(new_instances: &Vec<TimelineObjectInstance>, parent_instances: &Option<Vec<TimelineObjectInstance>>) -> (r: Vec<TimelineObjectInstance>)
    requires
        all_wf(new_instances@),
    ensures
        all_wf(r@),
        parent_instances is None ==> r@.len() == 0,
        parent_instances matches Some(p) ==> forall|x: Time|
            x < Time::MAX ==> (covers(r@, x) <==> some_on_in_parent(new_instances@, p@, new_instances@.len() as int, x)),
{
    let mut capped_instances: Vec<TimelineObjectInstance> = Vec::new();
    if let Some(parents) = parent_instances {
        let ghost pv = parents@;
        let ghost v = new_instances@;
        let mut n: usize = 0;
        while n < new_instances.len()
            invariant
                n <= new_instances@.len(),
                v == new_instances@,
                pv == parents@,
                all_wf(new_instances@),
                all_wf(capped_instances@),
                forall|x: Time|
                    #![trigger covers(capped_instances@, x)]
                    x < Time::MAX ==> (covers(capped_instances@, x) <==> some_on_in_parent(v, pv, n as int, x)),
            decreases new_instances@.len() - n,
        {
            let instance = &new_instances[n];
            proof {
                assert(instance_wf(new_instances@[n as int]));
            }
            let mut referred: Option<usize> = None;
            let mut k: usize = 0;
            while k < parents.len() && referred.is_none()
                invariant
                    k <= parents@.len(),
                    pv == parents@,
                    match referred {
                        Some(q) => q < k && string_set(instance.references@).contains(pv[q as int].id@) && forall|j: int|
                            0 <= j < q ==> !string_set(instance.references@).contains(#[trigger] pv[j].id@),
                        None => forall|j: int| 0 <= j < k ==> !string_set(instance.references@).contains(#[trigger] pv[j].id@),
                    },
                decreases parents@.len() - k,
            {
                if contains_string(&instance.references, &parents[k].id) {
                    referred = Some(k);
                }
                k = k + 1;
            }
            proof {
                lemma_referred_parent(*instance, pv, match referred {
                    Some(q) => Some(q as int),
                    None => None,
                });
            }
            let ghost before = capped_instances@;
            match referred {
                Some(q) => {
                    let p = &parents[q];
                    let mut ps: Vec<&TimelineObjectInstance> = Vec::new();
                    ps.push(p);
                    let capped = cap_instance(instance, ps.as_slice());
                    proof {
                        assert(ps@[0] == p);
                    }
                    let ghost cr = capped;
                    if let Some(mut c) = capped {
                        c.caps.push(Cap { id: p.id.clone(), start: p.start, end: p.end });
                        capped_instances.push(c);
                    }
                    proof {
                        assert forall|x: Time| x < Time::MAX implies (covers(capped_instances@, x) <==> some_on_in_parent(
                            v,
                            pv,
                            n + 1,
                            x,
                        )) by {
                            lemma_capped_covers(*instance, *p, cr, x);
                            lemma_some_on_step(v, pv, n as int, x);
                            match cr {
                                Some(c0) => {
                                    lemma_covers_push(before, capped_instances@.last(), x);
                                    assert(capped_instances@ =~= before.push(capped_instances@.last()));
                                },
                                None => {},
                            }
                        }
                    }
                },
                None => {
                    let mut k: usize = 0;
                    while k < parents.len()
                        invariant
                            k <= parents@.len(),
                            pv == parents@,
                            n < v.len(),
                            *instance == v[n as int],
                            instance_wf(*instance),
                            referred_parent(*instance, pv) is None,
                            all_wf(capped_instances@),
                            forall|x: Time|
                                #![trigger covers(capped_instances@, x)]
                                x < Time::MAX ==> (covers(capped_instances@, x) <==> (some_on_in_parent(v, pv, n as int, x)
                                    || (in_span(*instance, x) && covers(pv.take(k as int), x)))),
                        decreases parents@.len() - k,
                    {
                        let p = &parents[k];
                        let mut ps: Vec<&TimelineObjectInstance> = Vec::new();
                        ps.push(p);
                        let ghost b2 = capped_instances@;
                        let capped = cap_instance(instance, ps.as_slice());
                        proof {
                            assert(ps@[0] == p);
                        }
                        let ghost cr = capped;
                        if let Some(mut c) = capped {
                            c.caps.push(Cap { id: p.id.clone(), start: p.start, end: p.end });
                            capped_instances.push(c);
                        }
                        proof {
                            assert(pv.take(k + 1) =~= pv.take(k as int).push(pv[k as int]));
                            assert forall|x: Time|
                                #![trigger covers(capped_instances@, x)]
                                x < Time::MAX implies (covers(capped_instances@, x) <==> (some_on_in_parent(
                                    v,
                                    pv,
                                    n as int,
                                    x,
                                ) || (in_span(*instance, x) && covers(pv.take(k + 1), x)))) by {
                                assert(*p == pv[k as int]);
                                assert(covers(b2, x) <==> (some_on_in_parent(v, pv, n as int, x) || (in_span(*instance, x)
                                    && covers(pv.take(k as int), x))));
                                lemma_capped_covers(*instance, *p, cr, x);
                                lemma_covers_push(pv.take(k as int), pv[k as int], x);
                                match cr {
                                    Some(c0) => {
                                        lemma_covers_push(b2, capped_instances@.last(), x);
                                        assert(capped_instances@ =~= b2.push(capped_instances@.last()));
                                        assert(capped_instances@.last().start == c0.start && capped_instances@.last().end
                                            == c0.end);
                                        assert(in_span(capped_instances@.last(), x) == in_span(c0, x));
                                    },
                                    None => {
                                        assert(capped_instances@ == b2);
                                    },
                                }
                            }
                        }
                        k = k + 1;
                    }
                    proof {
                        assert(pv.take(pv.len() as int) =~= pv);
                        assert forall|x: Time| x < Time::MAX implies (covers(capped_instances@, x) <==> some_on_in_parent(
                            v,
                            pv,
                            n + 1,
                            x,
                        )) by {
                            assert(covers(capped_instances@, x) <==> (some_on_in_parent(v, pv, n as int, x) || (in_span(
                                *instance,
                                x,
                            ) && covers(pv.take(pv.len() as int), x))));
                            lemma_some_on_step(v, pv, n as int, x);
                        }
                    }
                },
            }
            n = n + 1;
        }
    }
    capped_instances
}

proof fn lemma_some_on_step(v: Seq<TimelineObjectInstance>, parents: Seq<TimelineObjectInstance>, n: int, x: Time)
    requires
        0 <= n < v.len(),
    ensures
        some_on_in_parent(v, parents, n + 1, x) <==> some_on_in_parent(v, parents, n, x) || on_in_parent(v[n], parents, x),
{
    if some_on_in_parent(v, parents, n + 1, x) {
        let m = choose|m: int| 0 <= m < n + 1 && #[trigger] on_in_parent(v[m], parents, x);
    }
    if some_on_in_parent(v, parents, n, x) {
        let m = choose|m: int| 0 <= m < n && #[trigger] on_in_parent(v[m], parents, x);
    }
}

/// An instance ends after it starts.
pub open spec fn is_positive(i: TimelineObjectInstance) -> bool {
    end_or_max(i.end) > i.start
}

/// The instances that end after they start, in their order.
pub open spec fn positive_instances(s: Seq<TimelineObjectInstance>) -> Seq<TimelineObjectInstance> {
    s.filter(|i: TimelineObjectInstance| is_positive(i))
}

/// The instances that end after they start.
pub fn keep_positive(instances: Vec<TimelineObjectInstance>) -> (r: Vec<TimelineObjectInstance>)
    requires
        all_wf(instances@),
    ensures
        r@ == positive_instances(instances@),
        all_wf(r@),
        forall|k: int| 0 <= k < r@.len() ==> end_or_max(#[trigger] r@[k].end) > r@[k].start,
{
    let mut kept: Vec<TimelineObjectInstance> = Vec::new();
    let mut rest = instances;
    let ghost all = rest@;
    let total = rest.len();
    let mut n: usize = 0;
    proof {
        reveal(Seq::filter);
        assert(all.take(0) =~= Seq::<TimelineObjectInstance>::empty());
    }
    while rest.len() > 0
        invariant
            n + rest@.len() == all.len(),
            all.len() == total,
            rest@ == all.skip(n as int),
            all_wf(all),
            all_wf(kept@),
            kept@ == positive_instances(all.take(n as int)),
            forall|k: int| 0 <= k < kept@.len() ==> end_or_max(#[trigger] kept@[k].end) > kept@[k].start,
        decreases rest@.len(),
    {
        let instance = rest.remove(0);
        assert(instance == all[n as int]);
        proof {
            reveal(Seq::filter);
            assert(all.take(n + 1).drop_last() =~= all.take(n as int));
            assert(all.take(n + 1).last() == all[n as int]);
        }
        let end = match instance.end {
            Some(e) => e,
            None => Time::MAX,
        };
        if end > instance.start {
            kept.push(instance);
        }
        n = n + 1;
        assert(rest@ =~= all.skip(n as int));
    }
    assert(all.take(n as int) =~= all);
    kept
}

fn with_start(id: String, start: Time, references: Vec<String>) -> (i: TimelineObjectInstance)
    ensures
        i.references == references,
{
    TimelineObjectInstance {
        id,
        is_first: false,
        start,
        end: None,
        original_start: None,
        original_end: None,
        references,
        caps: Vec::new(),
        from_instance_id: None,
    }
}

/// The instances of the events of a constant span: one start event, and
/// one end event with the same id where the span ends.
proof fn lemma_constant_span_instances(
    events: Seq<EventForInstance>,
    r: Seq<TimelineObjectInstance>,
    span: (Time, Option<Time>),
)
    requires
        events.len() >= 1,
        events[0].is_start,
        events[0].time == span.0,
        span.1 is None ==> events.len() == 1,
        span.1 matches Some(e) ==> events.len() == 2 && !events[1].is_start && events[1].id@ == events[0].id@
            && events[1].time == e && span.0 < e,
        span.0 < Time::MAX,
        span.1 matches Some(e) ==> e < Time::MAX,
        forall|k: int| 0 <= k < r.len() ==> at_event_times(events, #[trigger] r[k]),
        exists|s: Seq<EventForInstance>|
            s.to_multiset() == events.to_multiset() && events_sorted(s) && forall|x: Time|
                covers(r, x) <==> active_at(s, x),
    ensures
        forall|x: Time| covers(r, x) <==> span_covers(span, x),
        forall|x: Time| covers(positive_instances(r), x) <==> covers(r, x),
{
    assert forall|k: int| 0 <= k < r.len() implies (#[trigger] r[k]).start < Time::MAX by {
        assert(at_event_times(events, r[k]));
    }
    assert forall|x: Time| covers(positive_instances(r), x) <==> covers(r, x) by {
        lemma_covers_positive(r, x);
    }
    let s = choose|s: Seq<EventForInstance>|
        s.to_multiset() == events.to_multiset() && events_sorted(s) && forall|x: Time|
            covers(r, x) <==> active_at(s, x);
    assert forall|x: Time| covers(r, x) <==> span_covers(span, x) by {
        if span.1 is None {
            lemma_one_start(events, s, x);
        } else {
            lemma_start_then_end(events, s, x);
        }
    }
}

/// Where a single start event stands alone, it is its own start events.
proof fn lemma_single_start_events(e: Seq<EventForInstance>)
    requires
        e.len() == 1,
        e[0].is_start,
    ensures
        start_events(e) == e,
{
    reveal_with_fuel(Seq::filter, 2);
    assert(e.drop_last() =~= Seq::<EventForInstance>::empty());
    assert(e.drop_last().filter(|x: EventForInstance| x.is_start) =~= Seq::<EventForInstance>::empty());
    assert(start_events(e) =~= e);
}

/// The time that a number stands for: negative numbers count as zero.
pub open spec fn number_time(n: i64) -> Time {
    if n < 0 {
        0
    } else {
        n as Time
    }
}

/// The span of an enable with a constant start, and a constant end, a
/// constant duration or neither (and no `while` and no repetition): from the
/// start to the end, for the duration, or for ever. None where the enable
/// is not of that kind, or the span would be empty.
pub open spec fn constant_enable_span(enable: TimelineEnable) -> Option<(Time, Option<Time>)> {
    if enable.enable_while is None && enable.repeating is None && enable.enable_start is Some {
        match enable.enable_start->0@ {
            ExprValue::Number(s) => {
                let st = number_time(s);
                match enable.enable_end {
                    Some(end) => match end@ {
                        ExprValue::Number(e) => if st < number_time(e) {
                            Some((st, Some(number_time(e))))
                        } else {
                            None
                        },
                        _ => None,
                    },
                    None => match enable.duration {
                        Some(duration) => match duration@ {
                            ExprValue::Number(d) => if number_time(d) > 0 {
                                Some((st, Some((st + number_time(d)) as Time)))
                            } else {
                                None
                            },
                            _ => None,
                        },
                        None => Some((st, None)),
                    },
                }
            },
            _ => None,
        }
    } else {
        None
    }
}

/// Enables that denote the same expressions have the same constant span.
pub proof fn lemma_same_enable_span(a: TimelineEnable, b: TimelineEnable)
    requires
        same_enable(a, b),
    ensures
        constant_enable_span(a) == constant_enable_span(b),
{
}

/// The span of an object that has no parent and one enable, of a constant
/// span.
pub open spec fn constant_object_span(info: TimelineObjectInfo) -> Option<(Time, Option<Time>)> {
    if info.parent_id is None && info.enable@.len() == 1 {
        constant_enable_span(info.enable@[0])
    } else {
        None
    }
}

/// Every enable of a top-level object has a constant span.
pub open spec fn constant_enables(info: TimelineObjectInfo) -> bool {
    &&& info.parent_id is None
    &&& forall|k: int| 0 <= k < info.enable@.len() ==> (#[trigger] constant_enable_span(info.enable@[k])) is Some
}

/// One of the first `n` enables of the object has a constant span that
/// covers `x`.
pub open spec fn enables_cover(info: TimelineObjectInfo, n: int, x: Time) -> bool {
    exists|k: int| 0 <= k < n && span_covers(#[trigger] constant_enable_span(info.enable@[k])->0, x)
}

/// Two lists of instances together cover what either covers.
proof fn lemma_covers_concat(a: Seq<TimelineObjectInstance>, b: Seq<TimelineObjectInstance>, x: Time)
    ensures
        covers(a + b, x) <==> covers(a, x) || covers(b, x),
{
    if covers(a + b, x) {
        let k = choose|k: int| 0 <= k < (a + b).len() && in_span(#[trigger] (a + b)[k], x);
        if k < a.len() {
            assert(in_span(a[k], x));
        } else {
            assert(in_span(b[k - a.len()], x));
        }
    }
    if covers(a, x) {
        let k = choose|k: int| 0 <= k < a.len() && in_span(#[trigger] a[k], x);
        assert(in_span((a + b)[k], x));
    }
    if covers(b, x) {
        let k = choose|k: int| 0 <= k < b.len() && in_span(#[trigger] b[k], x);
        assert(in_span((a + b)[k + a.len()], x));
    }
}

/// Keeping the positive instances of two lists keeps those of each.
proof fn lemma_positive_concat(a: Seq<TimelineObjectInstance>, b: Seq<TimelineObjectInstance>)
    ensures
        positive_instances(a + b) == positive_instances(a) + positive_instances(b),
{
    Seq::filter_distributes_over_add(a, b, |i: TimelineObjectInstance| is_positive(i));
}

/// Keeping only the instances that last changes no time that is covered,
/// where no instance starts at the end of time.
proof fn lemma_covers_positive(v: Seq<TimelineObjectInstance>, x: Time)
    requires
        forall|k: int| 0 <= k < v.len() ==> (#[trigger] v[k]).start < Time::MAX,
    ensures
        covers(positive_instances(v), x) <==> covers(v, x),
{
    let pred = |i: TimelineObjectInstance| is_positive(i);
    let p = positive_instances(v);
    if covers(v, x) {
        let k = choose|k: int| 0 <= k < v.len() && in_span(#[trigger] v[k], x);
        v.lemma_filter_contains(pred, k);
        let j = choose|j: int| 0 <= j < p.len() && p[j] == v[k];
        assert(in_span(p[j], x));
    }
    if covers(p, x) {
        let j = choose|j: int| 0 <= j < p.len() && in_span(#[trigger] p[j], x);
        assert(p.contains(p[j]));
        v.lemma_filter_contains_rev(pred, p[j]);
        let k = choose|k: int| 0 <= k < v.len() && v[k] == p[j];
        assert(in_span(v[k], x));
    }
}

/// Resolves one enable of object `i` into instances, adding what it refers
/// to to `direct_references`.
#[verifier::spinoff_prover]
#[verifier::rlimit(60)]
pub fn resolve_enable(
    ctx: &mut ResolverContext,
    i: usize,
    enable: &TimelineEnable,
    direct_references: &mut Vec<String>,
) -> (r: Result<Vec<TimelineObjectInstance>, ResolveError>)
    requires
        i < old(ctx).objects@.len(),
        ctx_wf(*old(ctx)),
        distinct_strings(old(direct_references)@),
    ensures
        ctx_step(*old(ctx), *final(ctx)),
        ctx_wf(*final(ctx)),
        distinct_strings(final(direct_references)@),
        r matches Ok(v) ==> all_wf(v@),
        r matches Err(e) ==> !(e is UnresolvedObjects),
        r matches Err(e) ==> error_witnessed(*final(ctx), e) || own_error(old(ctx).objects@[i as int].info.id@, *enable, e),
        others_complete(*old(ctx), i as int) ==> (r matches Err(e) ==> own_error(old(ctx).objects@[i as int].info.id@, *enable, e)),
        others_complete(*old(ctx), i as int) && enable_clean(*enable) ==> r is Ok,
        enable_refers_resolved(*old(ctx), i as int, *enable) ==> (r matches Err(e) ==> own_error(
            old(ctx).objects@[i as int].info.id@,
            *enable,
            e,
        )),
        enable_refers_resolved(*old(ctx), i as int, *enable) && enable_clean(*enable) ==> r is Ok,
        enable_refers_resolved(*old(ctx), i as int, *enable) ==> forall|j: int|
            0 <= j < old(ctx).objects@.len() && j != i ==> #[trigger] final(ctx).objects@[j] == old(ctx).objects@[j],
        (exists|p: Seq<char>, err: ExpressionError| #[trigger] bad_part(*enable, p, err)) ==> r is Err,
        simplify_spec(start_source(*enable)) matches Ok(ExprValue::Text(s)) ==> (enable.repeating is None
            && old(ctx).objects@[i as int].info.parent_id is None && !old(ctx).objects@[i as int].resolved.self_referencing()
            && regex_captures_result(MATCH_ID_PATTERN@, s) is Some && referred_id(s) != old(ctx).objects@[i as int].info.id@
            ==> forall|j: int|
            #[trigger] first_with_id(*old(ctx), referred_id(s), j) ==> (old(ctx).objects@[j].resolved is InProgress ==> (
            r matches Err(ResolveError::CircularDependency(id)) && id@ == referred_id(s))) && (start_blocked(*old(ctx), j)
                ==> (r matches Err(ResolveError::CircularDependency(id)) && id@ == first_start_ref(*old(ctx), j)->0))),
        old(ctx).objects@[i as int].info.parent_id is None && constant_enable_span(*enable) is Some ==> (r matches Ok(v)
            && final(ctx).objects == old(ctx).objects && forall|x: Time|
            #![trigger covers(v@, x)]
            (covers(v@, x) <==> span_covers(constant_enable_span(*enable)->0, x)) && (covers(
                positive_instances(v@),
                x,
            ) <==> covers(v@, x))),
    decreases pending_count(old(ctx).objects@), 2nat, 0nat,
{
    let ghost ctx0 = *ctx;
    let ghost basic = ctx.objects@[i as int].info.parent_id is None && constant_enable_span(*enable) is Some;
    let ghost span = constant_enable_span(*enable)->0;
    let obj_id = ctx.objects[i].info.id.clone();
    let parent_id = copy_opt_string(&ctx.objects[i].info.parent_id);
    let options = ctx.options;
    let repeating_expr = match &enable.repeating {
        Some(expr) => match interpret_expression(expr) {
            Ok(val) => val,
            Err(err) => {
                proof {
                assert(bad_part(*enable, "repeating"@, err));
            }
            return Err(ResolveError::BadExpression((obj_id, "repeating", err)));
            },
        },
        None => Expression::Null,
    };
    let looked_up_repeating = lookup_expression(ctx, i, &repeating_expr, &ObjectRefType::Duration)?;
    let ghost ctx1 = *ctx;
    insert_strings(direct_references, &looked_up_repeating.all_references);
    let looked_up_repeating2 = match looked_up_repeating.result {
        LookupExpressionResultType::Instances(_) => {
            proof {
                assert(multi_part(*enable, "repeating"@));
            }
            return Err(ResolveError::InstancesArrayNotSupported((obj_id, "repeating")));
        },
        LookupExpressionResultType::TimeRef(r) => Some(r),
        LookupExpressionResultType::Null => None,
    };
    let hacked_while = hack_boolean_expression(enable.enable_while.as_ref());
    let null_expression = Expression::Null;
    let start_source: &Expression = match &hacked_while {
        Some(h) => h,
        None => match &enable.enable_while {
            Some(w) => w,
            None => match &enable.enable_start {
                Some(s) => s,
                None => &null_expression,
            },
        },
    };
    let start = match simplify_expression(start_source) {
        Ok(v) => v,
        Err(e) => {
            proof {
                assert(bad_part(*enable, "simplify"@, e));
            }
            return Err(ResolveError::BadExpression((obj_id, "simplify", e)));
        },
    };
    let mut parent_instances: Option<Vec<TimelineObjectInstance>> = None;
    let mut has_parent = false;
    let mut refer_to_parent = false;
    if let Some(pid) = &parent_id {
        has_parent = true;
        let expr = Expression::String(concat("#", pid.as_str()));
        let ghost before = *ctx;
        proof {
            if others_complete(ctx0, i as int) {
                lemma_others_complete_step(ctx0, *ctx, i as int);
            }
            if enable_refers_resolved(ctx0, i as int, *enable) {
                lemma_enable_refers_step(ctx0, *ctx, i as int, *enable);
            }
        }
        let lookup = match lookup_expression(ctx, i, &expr, &ObjectRefType::Start) {
            Ok(x) => x,
            Err(e) => {
                proof {
                    lemma_ctx_step_trans(ctx0, before, *ctx);
                }
                return Err(e);
            },
        };
        proof {
            lemma_ctx_step_trans(ctx0, before, *ctx);
        }
        match lookup.result {
            LookupExpressionResultType::Instances(instances) => {
                parent_instances = Some(instances);
            },
            _ => {},
        }
        insert_strings(direct_references, &lookup.all_references);
        if is_constant(&start) {
            refer_to_parent = true;
        }
    }
    let ghost ctx2 = *ctx;
    proof {
        if others_complete(ctx0, i as int) {
            lemma_others_complete_step(ctx0, *ctx, i as int);
        }
        if enable_refers_resolved(ctx0, i as int, *enable) {
            lemma_enable_refers_step(ctx0, *ctx, i as int, *enable);
        }
    }
    let lookup_start = match lookup_expression(ctx, i, &start, &ObjectRefType::Start) {
        Ok(x) => x,
        Err(e) => {
            proof {
                lemma_ctx_step_trans(ctx0, ctx2, *ctx);
            }
            return Err(e);
        },
    };
    proof {
        lemma_ctx_step_trans(ctx0, ctx2, *ctx);
    }
    insert_strings(direct_references, &lookup_start.all_references);
    assert(basic ==> !has_parent && !refer_to_parent && (lookup_start.result matches LookupExpressionResultType::TimeRef(t)
        && t.value == span.0));
    let ghost ctx3 = *ctx;
    let looked_up_starts = if refer_to_parent {
        apply_parent_instances(ctx, &parent_instances, &lookup_start.result)
    } else {
        lookup_start.result
    };
    proof {
        lemma_same_but_ids_step(ctx3, *ctx);
        lemma_ctx_step_trans(ctx0, ctx3, *ctx);
    }
    let mut new_instances: Vec<TimelineObjectInstance>;
    if enable.enable_while.is_some() {
        new_instances = match looked_up_starts {
            LookupExpressionResultType::Instances(instances) => instances,
            LookupExpressionResultType::TimeRef(time_ref) => {
                let ghost before = *ctx;
                let id = ctx.generate_id();
                proof {
                    lemma_same_but_ids_step(before, *ctx);
                    lemma_ctx_step_trans(ctx0, before, *ctx);
                }
                let mut v: Vec<TimelineObjectInstance> = Vec::new();
                v.push(with_start(id, time_ref.value, time_ref.references));
                v
            },
            LookupExpressionResultType::Null => Vec::new(),
        };
    } else {
        let mut events = events_from_lookup(&looked_up_starts, &obj_id, true);
        assert(basic ==> events@.len() == 1 && events@[0].is_start && events@[0].time == span.0);
        if let Some(enable_end) = &enable.enable_end {
            let end_expr = match interpret_expression(enable_end) {
                Ok(val) => val,
                Err(err) => {
                    proof {
                        assert(bad_part(*enable, "end"@, err));
                    }
                    return Err(ResolveError::BadExpression((obj_id, "end", err)));
                },
            };
            let ghost before = *ctx;
            proof {
                if others_complete(ctx0, i as int) {
                    lemma_others_complete_step(ctx0, *ctx, i as int);
                }
                if enable_refers_resolved(ctx0, i as int, *enable) {
                    lemma_enable_refers_step(ctx0, *ctx, i as int, *enable);
                }
            }
            let lookup_end = match lookup_expression(ctx, i, &end_expr, &ObjectRefType::End) {
                Ok(x) => x,
                Err(e) => {
                    proof {
                        lemma_ctx_step_trans(ctx0, before, *ctx);
                    }
                    return Err(e);
                },
            };
            let ghost before2 = *ctx;
            let looked_up_ends = if refer_to_parent && is_constant(&end_expr) {
                apply_parent_instances(ctx, &parent_instances, &lookup_end.result)
            } else {
                lookup_end.result
            };
            proof {
                lemma_ctx_step_trans(ctx0, before, before2);
                lemma_same_but_ids_step(before2, *ctx);
                lemma_ctx_step_trans(ctx0, before2, *ctx);
            }
            insert_strings(direct_references, &lookup_end.all_references);
            let mut end_events = events_from_lookup(&looked_up_ends, &obj_id, false);
            events.append(&mut end_events);
            assert(basic ==> events@.len() == 2 && !events@[1].is_start && events@[1].id@ == events@[0].id@
                && events@[1].time == span.1->0 && span.0 < span.1->0);
        } else if let Some(enable_duration) = &enable.duration {
            let duration_expr = match interpret_expression(enable_duration) {
                Ok(val) => val,
                Err(err) => {
                    proof {
                        assert(bad_part(*enable, "duration"@, err));
                    }
                    return Err(ResolveError::BadExpression((obj_id, "duration", err)));
                },
            };
            let ghost before = *ctx;
            proof {
                if others_complete(ctx0, i as int) {
                    lemma_others_complete_step(ctx0, *ctx, i as int);
                }
                if enable_refers_resolved(ctx0, i as int, *enable) {
                    lemma_enable_refers_step(ctx0, *ctx, i as int, *enable);
                }
            }
            let lookup_duration = match lookup_expression(ctx, i, &duration_expr, &ObjectRefType::Duration) {
                Ok(x) => x,
                Err(e) => {
                    proof {
                        lemma_ctx_step_trans(ctx0, before, *ctx);
                    }
                    return Err(e);
                },
            };
            proof {
                lemma_ctx_step_trans(ctx0, before, *ctx);
            }
            insert_strings(direct_references, &lookup_duration.all_references);
            let looked_up_duration = match lookup_duration.result {
                LookupExpressionResultType::Instances(instances) => {
                    if instances.len() > 1 {
                        proof {
                            assert(multi_part(*enable, "duration"@));
                        }
                        return Err(ResolveError::InstancesArrayNotSupported((obj_id, "duration")));
                    } else if instances.len() == 1 {
                        proof {
                            assert(instance_wf(instances@[0]));
                        }
                        Some(
                            TimeWithReference {
                                value: instances[0].start,
                                references: copy_strings(&instances[0].references),
                            },
                        )
                    } else {
                        None
                    }
                },
                LookupExpressionResultType::TimeRef(time_ref) => Some(time_ref),
                LookupExpressionResultType::Null => None,
            };
            if let Some(duration2) = looked_up_duration {
                let duration_val = match &looked_up_repeating2 {
                    Some(repeating) => if repeating.value < duration2.value {
                        repeating.value
                    } else {
                        duration2.value
                    },
                    None => duration2.value,
                };
                proof {
                    if basic {
                        lemma_single_start_events(events@);
                    }
                }
                let mut new_events = duration_events(&events, duration_val, &duration2.references);
                let ghost before_events = events@;
                let ghost added = new_events@;
                events.append(&mut new_events);
                proof {
                    assert forall|j: int| 0 <= j < events@.len() implies event_wf(#[trigger] events@[j]) by {
                        if j >= before_events.len() {
                            assert(event_wf(added[j - before_events.len()]));
                        }
                    }
                }
                assert(basic ==> events@.len() == 2 && !events@[1].is_start && events@[1].id@ == events@[0].id@
                    && events@[1].time == span.1->0 && span.0 < span.1->0);
            }
        }
        let ghost all_events = events@;
        let ghost before = *ctx;
        new_instances = events.into_instances(ctx, false, false);
        proof {
            lemma_same_but_ids_step(before, *ctx);
            lemma_ctx_step_trans(ctx0, before, *ctx);
            if basic {
                lemma_constant_span_instances(all_events, new_instances@, span);
            }
        }
    }
    if has_parent {
        new_instances = cap_in_parents(&new_instances, &parent_instances);
    }
    let ghost before = *ctx;
    let result = apply_repeating_instances(ctx, new_instances, looked_up_repeating2, &options);
    proof {
        lemma_same_but_ids_step(before, *ctx);
        lemma_ctx_step_trans(ctx0, before, *ctx);
    }
    Ok(result)
}

/// The expression an enable starts by, as it goes to be simplified: the
/// `while` expression (a plain `0` or `1` as a boolean), else the start.
pub open spec fn start_source(en: TimelineEnable) -> ExprValue {
    let w = match en.enable_while {
        Some(x) => Some(x@),
        None => None,
    };
    match boolean_while_spec(w) {
        Some(b) => ExprValue::Bool(b),
        None => match en.enable_while {
            Some(x) => x@,
            None => match en.enable_start {
                Some(x) => x@,
                None => ExprValue::Null,
            },
        },
    }
}

/// The part `part` of the enable is an expression that cannot be read,
/// with the error `err`.
pub open spec fn bad_part(en: TimelineEnable, part: Seq<char>, err: ExpressionError) -> bool {
    ||| part == "repeating"@ && (en.repeating matches Some(x) && interpret_expression_spec(x@) == Err::<
        ExprValue,
        ExpressionError,
    >(err))
    ||| part == "simplify"@ && simplify_spec(start_source(en)) == Err::<ExprValue, ExpressionError>(err)
    ||| part == "end"@ && en.enable_while is None && (en.enable_end matches Some(x) && interpret_expression_spec(x@)
        == Err::<ExprValue, ExpressionError>(err))
    ||| part == "duration"@ && en.enable_while is None && en.enable_end is None && (en.duration matches Some(x)
        && interpret_expression_spec(x@) == Err::<ExprValue, ExpressionError>(err))
}

/// Looking the expression up gives a time or nothing, never a list of
/// instances: null, a number or `true`.
pub open spec fn looks_up_to_time(v: ExprValue) -> bool {
    v is Null || v is Number || v == ExprValue::Bool(true)
}

/// The part `part` of the enable (its repetition, or its duration where it
/// has no end and no `while`) is an expression that may look up to a list
/// of instances, where a single time is needed.
pub open spec fn multi_part(en: TimelineEnable, part: Seq<char>) -> bool {
    ||| part == "repeating"@ && (en.repeating matches Some(x) && interpret_expression_spec(x@) matches Ok(v)
        && !looks_up_to_time(v))
    ||| part == "duration"@ && en.enable_while is None && en.enable_end is None && (en.duration matches Some(x)
        && interpret_expression_spec(x@) matches Ok(v) && !looks_up_to_time(v))
}

/// The error is one that resolving the enable `en` of the object `id`
/// itself raises, for the cause that the error names.
pub open spec fn own_error(id: Seq<char>, en: TimelineEnable, e: ResolveError) -> bool {
    match e {
        ResolveError::BadExpression((eid, part, err)) => eid@ == id && bad_part(en, part@, err),
        ResolveError::InstancesArrayNotSupported((eid, part)) => eid@ == id && multi_part(en, part@),
        _ => false,
    }
}

/// The context shows the cause of the error: for a circular dependency, the
/// object is still in progress and marked as referring to itself; for a
/// bad expression or a list of instances where one time was needed, an
/// enable of the object has such a part.
pub open spec fn error_witnessed(c: ResolverContext, e: ResolveError) -> bool {
    match e {
        ResolveError::CircularDependency(id) => exists|i: int|
            0 <= i < c.objects@.len() && c.objects@[i].info.id@ == id@ && #[trigger] c.objects@[i].resolved
                == TimelineObjectResolvingStatus::InProgress(TimelineObjectResolvedWip { is_self_referencing: true }),
        ResolveError::BadExpression((id, part, err)) => exists|i: int, k: int|
            0 <= i < c.objects@.len() && c.objects@[i].info.id@ == id@ && 0 <= k < c.objects@[i].info.enable@.len()
                && bad_part(#[trigger] c.objects@[i].info.enable@[k], part@, err),
        ResolveError::InstancesArrayNotSupported((id, part)) => exists|i: int, k: int|
            0 <= i < c.objects@.len() && c.objects@[i].info.id@ == id@ && 0 <= k < c.objects@[i].info.enable@.len()
                && multi_part(#[trigger] c.objects@[i].info.enable@[k], part@),
        _ => false,
    }
}

/// Each object that the expressions of the enable of object `i` refer to
/// (its repetition, start, end, duration, and its parent) is resolved.
pub open spec fn enable_refers_resolved(c: ResolverContext, i: int, en: TimelineEnable) -> bool {
    &&& (en.repeating matches Some(x) ==> (interpret_expression_spec(x@) matches Ok(v) ==> expr_refers_resolved(c, i, v)))
    &&& (simplify_spec(start_source(en)) matches Ok(v) ==> expr_refers_resolved(c, i, v))
    &&& (c.objects@[i].info.parent_id matches Some(p) ==> refers_resolved(c, i, "#"@ + p@))
    &&& (en.enable_end matches Some(x) ==> (interpret_expression_spec(x@) matches Ok(v) ==> expr_refers_resolved(c, i, v)))
    &&& (en.duration matches Some(x) ==> (interpret_expression_spec(x@) matches Ok(v) ==> expr_refers_resolved(c, i, v)))
}

/// A step of resolving keeps the objects an enable refers to resolved.
pub proof fn lemma_enable_refers_step(a: ResolverContext, b: ResolverContext, i: int, en: TimelineEnable)
    requires
        ctx_step(a, b),
        0 <= i < a.objects@.len(),
        enable_refers_resolved(a, i, en),
    ensures
        enable_refers_resolved(b, i, en),
{
    if let Some(x) = en.repeating {
        if let Ok(v) = interpret_expression_spec(x@) {
            lemma_refers_resolved_step(a, b, i, v);
        }
    }
    if let Ok(v) = simplify_spec(start_source(en)) {
        lemma_refers_resolved_step(a, b, i, v);
    }
    assert(b.objects@[i].info == a.objects@[i].info);
    if let Some(p) = a.objects@[i].info.parent_id {
        lemma_refers_resolved_step(a, b, i, ExprValue::Text("#"@ + p@));
    }
    if let Some(x) = en.enable_end {
        if let Ok(v) = interpret_expression_spec(x@) {
            lemma_refers_resolved_step(a, b, i, v);
        }
    }
    if let Some(x) = en.duration {
        if let Ok(v) = interpret_expression_spec(x@) {
            lemma_refers_resolved_step(a, b, i, v);
        }
    }
}

/// No part of the enable fails to parse, and none may look up to a list of
/// instances where one time is needed.
pub open spec fn enable_clean(en: TimelineEnable) -> bool {
    &&& forall|p: Seq<char>, err: ExpressionError| !#[trigger] bad_part(en, p, err)
    &&& forall|p: Seq<char>| !#[trigger] multi_part(en, p)
}

/// Enables that denote the same expressions have the same bad parts.
pub(crate) proof fn lemma_same_enable_errors(a: TimelineEnable, b: TimelineEnable)
    requires
        same_enable(a, b),
    ensures
        start_source(a) == start_source(b),
        forall|p: Seq<char>, err: ExpressionError| bad_part(a, p, err) == bad_part(b, p, err),
        forall|p: Seq<char>| multi_part(a, p) == multi_part(b, p),
{
}

/// Marking object `i` as being resolved leaves what the first enables of
/// the objects start at, and blocks an object that waited on `i`.
proof fn lemma_blocked_after_mark(c0: ResolverContext, c1: ResolverContext, i: int, j: int)
    requires
        0 <= i < c0.objects@.len(),
        0 <= j < c0.objects@.len(),
        j != i,
        c1.objects@.len() == c0.objects@.len(),
        forall|m: int| 0 <= m < c0.objects@.len() ==> (#[trigger] c1.objects@[m]).info == c0.objects@[m].info,
        forall|m: int| 0 <= m < c0.objects@.len() && m != i ==> #[trigger] c1.objects@[m] == c0.objects@[m],
        c1.objects@[i].resolved is InProgress,
        start_waits_on(c0, j, i),
    ensures
        start_blocked(c1, j),
        first_start_ref(c1, j) == first_start_ref(c0, j),
{
    assert(c1.objects@[j] == c0.objects@[j]);
    let id = first_start_ref(c0, j)->0;
    let m = choose|m: int| #[trigger] first_with_id(c0, id, m) && (m == i || c0.objects@[m].resolved is InProgress);
    assert(c1.objects@[m].info == c0.objects@[m].info);
    assert forall|x: int| 0 <= x < m implies c1.objects@[x].info.id@ != id by {
        assert(c1.objects@[x].info == c0.objects@[x].info);
    }
    assert(first_with_id(c1, id, m));
    if m != i {
        assert(c1.objects@[m] == c0.objects@[m]);
    }
}

/// Names of a context carry over to one with the same objects' infos.
proof fn lemma_first_with_id_same_infos(c0: ResolverContext, c1: ResolverContext, id: Seq<char>, m: int)
    requires
        c1.objects@.len() == c0.objects@.len(),
        forall|x: int| 0 <= x < c0.objects@.len() ==> (#[trigger] c1.objects@[x]).info == c0.objects@[x].info,
        first_with_id(c0, id, m),
    ensures
        first_with_id(c1, id, m),
{
    assert(c1.objects@[m].info == c0.objects@[m].info);
    assert forall|x: int| 0 <= x < m implies c1.objects@[x].info.id@ != id by {
        assert(c1.objects@[x].info == c0.objects@[x].info);
    }
}

/// Resolves object `i`, and first every object it refers to. An object
/// met again while it is being resolved is a circular dependency.
#[verifier::spinoff_prover]
pub fn resolve_object(ctx: &mut ResolverContext, i: usize) -> (r: Result<(), ResolveError>)
    requires
        i < old(ctx).objects@.len(),
        ctx_wf(*old(ctx)),
    ensures
        ctx_step(*old(ctx), *final(ctx)),
        ctx_wf(*final(ctx)),
        r is Ok ==> final(ctx).objects@[i as int].resolved is Complete,
        r matches Err(e) ==> !(e is UnresolvedObjects),
        old(ctx).objects@[i as int].resolved is Complete ==> r is Ok && *final(ctx) == *old(ctx),
        old(ctx).objects@[i as int].resolved is InProgress ==> (r matches Err(ResolveError::CircularDependency(id))
            && id@ == old(ctx).objects@[i as int].info.id@ && final(ctx).objects@[i as int].resolved
            == TimelineObjectResolvingStatus::InProgress(TimelineObjectResolvedWip { is_self_referencing: true })),
        r matches Err(e) ==> error_witnessed(*final(ctx), e),
        old(ctx).objects@[i as int].resolved is Pending && constant_object_span(old(ctx).objects@[i as int].info) is Some
            ==> (r is Ok && (final(ctx).objects@[i as int].resolved matches TimelineObjectResolvingStatus::Complete(res)
            && forall|x: Time|
            covers(res.instances@, x) <==> span_covers(constant_object_span(old(ctx).objects@[i as int].info)->0, x))
            && forall|j: int| 0 <= j < old(ctx).objects@.len() && j != i ==> #[trigger] final(ctx).objects@[j] == old(ctx).objects@[j]),
        old(ctx).objects@[i as int].resolved is Pending && others_complete(*old(ctx), i as int) ==> (r matches Err(e)
            ==> exists|k: int|
            0 <= k < old(ctx).objects@[i as int].info.enable@.len() && own_error(
                old(ctx).objects@[i as int].info.id@,
                #[trigger] old(ctx).objects@[i as int].info.enable@[k],
                e,
            )),
        old(ctx).objects@[i as int].resolved is Pending && others_complete(*old(ctx), i as int) && (forall|k: int|
            0 <= k < old(ctx).objects@[i as int].info.enable@.len() ==> enable_clean(
                #[trigger] old(ctx).objects@[i as int].info.enable@[k],
            )) ==> r is Ok,
        old(ctx).objects@[i as int].resolved is Pending && (forall|k: int|
            0 <= k < old(ctx).objects@[i as int].info.enable@.len() ==> enable_refers_resolved(
                *old(ctx),
                i as int,
                #[trigger] old(ctx).objects@[i as int].info.enable@[k],
            ) && enable_clean(old(ctx).objects@[i as int].info.enable@[k])) ==> r is Ok,
        old(ctx).objects@[i as int].resolved is Pending && (forall|k: int|
            0 <= k < old(ctx).objects@[i as int].info.enable@.len() ==> enable_refers_resolved(
                *old(ctx),
                i as int,
                #[trigger] old(ctx).objects@[i as int].info.enable@[k],
            )) ==> forall|j: int|
            0 <= j < old(ctx).objects@.len() && j != i ==> #[trigger] final(ctx).objects@[j] == old(ctx).objects@[j],
        old(ctx).objects@[i as int].resolved is Pending && (exists|k: int, p: Seq<char>, err: ExpressionError|
            0 <= k < old(ctx).objects@[i as int].info.enable@.len() && #[trigger] bad_part(
                old(ctx).objects@[i as int].info.enable@[k],
                p,
                err,
            )) ==> r is Err,
        old(ctx).objects@[i as int].resolved is Pending && constant_enables(old(ctx).objects@[i as int].info) ==> (r is Ok
            && (final(ctx).objects@[i as int].resolved matches TimelineObjectResolvingStatus::Complete(res) && forall|x: Time|
            covers(res.instances@, x) <==> enables_cover(
                old(ctx).objects@[i as int].info,
                old(ctx).objects@[i as int].info.enable@.len() as int,
                x,
            )) && forall|j: int| 0 <= j < old(ctx).objects@.len() && j != i ==> #[trigger] final(ctx).objects@[j]
            == old(ctx).objects@[j]),
        start_blocked(*old(ctx), i as int) ==> (r matches Err(ResolveError::CircularDependency(id)) && id@
            == first_start_ref(*old(ctx), i as int)->0),
        old(ctx).objects@[i as int].resolved is Pending && first_start_ref(*old(ctx), i as int) is Some ==> forall|j: int|
            #[trigger] first_with_id(*old(ctx), first_start_ref(*old(ctx), i as int)->0, j) && start_waits_on(
                *old(ctx),
                j,
                i as int,
            ) ==> (r matches Err(ResolveError::CircularDependency(id)) && id@ == first_start_ref(*old(ctx), j)->0),
    decreases pending_count(old(ctx).objects@), 0nat, 0nat,
{
    let ghost ctx0 = *ctx;
    let ghost basic = old(ctx).objects@[i as int].resolved is Pending && constant_object_span(
        old(ctx).objects@[i as int].info,
    ) is Some;
    let ghost span = constant_object_span(old(ctx).objects@[i as int].info)->0;
    match &ctx.objects[i].resolved {
        TimelineObjectResolvingStatus::Complete(_) => {
            return Ok(());
        },
        TimelineObjectResolvingStatus::InProgress(_) => {
            let id = ctx.objects[i].info.id.clone();
            set_status(
                ctx,
                i,
                TimelineObjectResolvingStatus::InProgress(TimelineObjectResolvedWip { is_self_referencing: true }),
            );
            return Err(ResolveError::CircularDependency(id));
        },
        TimelineObjectResolvingStatus::Pending => {},
    }
    set_status(
        ctx,
        i,
        TimelineObjectResolvingStatus::InProgress(TimelineObjectResolvedWip { is_self_referencing: false }),
    );
    let ghost ctx1 = *ctx;
    assert(ctx_step(ctx0, ctx1));
    proof {
        if others_complete(ctx0, i as int) {
            lemma_others_complete_step(ctx0, ctx1, i as int);
        }
        assert forall|k2: int|
            0 <= k2 < ctx0.objects@[i as int].info.enable@.len() && enable_refers_resolved(
                ctx0,
                i as int,
                #[trigger] ctx0.objects@[i as int].info.enable@[k2],
            ) implies enable_refers_resolved(ctx1, i as int, ctx0.objects@[i as int].info.enable@[k2]) by {
            lemma_enable_refers_step(ctx0, ctx1, i as int, ctx0.objects@[i as int].info.enable@[k2]);
        }
    }
    let enables = copy_enables(&ctx.objects[i].info.enable);
    let ghost rid = first_start_ref(ctx0, i as int)->0;
    let ghost blk = start_blocked(ctx0, i as int) || (first_start_ref(ctx0, i as int) is Some && exists|j: int|
        #[trigger] first_with_id(ctx0, rid, j) && start_waits_on(ctx0, j, i as int));
    let ghost allc = constant_enables(ctx0.objects@[i as int].info);
    let ghost info0 = ctx0.objects@[i as int].info;
    let mut direct_references: Vec<String> = Vec::new();
    let mut instances: Vec<TimelineObjectInstance> = Vec::new();
    let mut k: usize = 0;
    while k < enables.len()
        invariant
            allc == constant_enables(ctx0.objects@[i as int].info),
            info0 == ctx0.objects@[i as int].info,
            allc ==> ctx.objects == ctx1.objects,
            allc ==> forall|x: Time|
                #![trigger covers(instances@, x)]
                (covers(instances@, x) <==> enables_cover(info0, k as int, x)) && (covers(
                    positive_instances(instances@),
                    x,
                ) <==> covers(instances@, x)),
            k == 0 ==> *ctx == ctx1,
            blk == (start_blocked(ctx0, i as int) || (first_start_ref(ctx0, i as int) is Some && exists|j: int|
                #[trigger] first_with_id(ctx0, rid, j) && start_waits_on(ctx0, j, i as int))),
            rid == first_start_ref(ctx0, i as int)->0,
            blk ==> k == 0,
            ctx1.objects@ == ctx0.objects@.update(
                i as int,
                ResolvingTimelineObject {
                    resolved: TimelineObjectResolvingStatus::InProgress(TimelineObjectResolvedWip { is_self_referencing: false }),
                    info: ctx0.objects@[i as int].info,
                },
            ),
            i < ctx.objects@.len(),
            ctx_step(ctx1, *ctx),
            ctx_step(ctx0, ctx1),
            ctx0 == *old(ctx),
            ctx0.objects@[i as int].resolved is Pending,
            pending_count(ctx1.objects@) < pending_count(ctx0.objects@),
            ctx_wf(*ctx),
            distinct_strings(direct_references@),
            all_wf(instances@),
            k <= enables@.len(),
            basic == (ctx0.objects@[i as int].resolved is Pending && constant_object_span(ctx0.objects@[i as int].info) is Some),
            span == constant_object_span(ctx0.objects@[i as int].info)->0,
            enables@.len() == ctx0.objects@[i as int].info.enable@.len(),
            forall|j: int| 0 <= j < enables@.len() ==> same_enable(#[trigger] enables@[j], ctx0.objects@[i as int].info.enable@[j]),
            basic ==> ctx.objects == ctx1.objects,
            basic && k == 0 ==> instances@.len() == 0,
            basic && k > 0 ==> forall|x: Time|
                #![trigger covers(instances@, x)]
                (covers(instances@, x) <==> span_covers(span, x)) && (covers(positive_instances(instances@), x)
                    <==> covers(instances@, x)),
            others_complete(ctx0, i as int) ==> others_complete(*ctx, i as int),
            forall|k2: int, p: Seq<char>, err: ExpressionError|
                0 <= k2 < k ==> !#[trigger] bad_part(ctx0.objects@[i as int].info.enable@[k2], p, err),
            forall|k2: int|
                0 <= k2 < ctx0.objects@[i as int].info.enable@.len() && enable_refers_resolved(
                    ctx0,
                    i as int,
                    #[trigger] ctx0.objects@[i as int].info.enable@[k2],
                ) ==> enable_refers_resolved(*ctx, i as int, ctx0.objects@[i as int].info.enable@[k2]),
            (forall|k2: int|
                0 <= k2 < ctx0.objects@[i as int].info.enable@.len() ==> enable_refers_resolved(
                    ctx0,
                    i as int,
                    #[trigger] ctx0.objects@[i as int].info.enable@[k2],
                )) ==> forall|j: int| 0 <= j < ctx0.objects@.len() && j != i ==> #[trigger] ctx.objects@[j] == ctx0.objects@[j],
        decreases enables@.len() - k,
    {
        let ghost before = *ctx;
        proof {
            if basic {
                lemma_same_enable_span(enables@[k as int], ctx0.objects@[i as int].info.enable@[k as int]);
                assert(ctx.objects@[i as int].info == ctx0.objects@[i as int].info);
                assert(k == 0);
            }
        }
        proof {
            let en0 = ctx0.objects@[i as int].info.enable@[k as int];
            lemma_same_enable_errors(enables@[k as int], en0);
            assert(before.objects@[i as int].info == ctx0.objects@[i as int].info);
            if enable_refers_resolved(ctx0, i as int, en0) {
                assert(enable_refers_resolved(before, i as int, en0));
                assert(enable_refers_resolved(before, i as int, enables@[k as int]));
            }
        }
        proof {
            if blk {
                let en0 = ctx0.objects@[i as int].info.enable@[0];
                assert(k == 0);
                lemma_same_enable_errors(enables@[0], en0);
                assert(ctx1.objects@[i as int].info == ctx0.objects@[i as int].info);
                assert(!ctx1.objects@[i as int].resolved.self_referencing());
                assert forall|m: int| 0 <= m < ctx0.objects@.len() && m != i implies #[trigger] ctx1.objects@[m]
                    == ctx0.objects@[m] by {}
                assert forall|m: int| 0 <= m < ctx0.objects@.len() implies (#[trigger] ctx1.objects@[m]).info
                    == ctx0.objects@[m].info by {}
                if start_blocked(ctx0, i as int) {
                    let m = choose|m: int| #[trigger] first_with_id(ctx0, rid, m) && ctx0.objects@[m].resolved is InProgress;
                    lemma_first_with_id_same_infos(ctx0, ctx1, rid, m);
                    assert(m != i);
                    assert(ctx1.objects@[m].resolved is InProgress);
                }
                assert forall|j: int| #[trigger] first_with_id(ctx0, rid, j) && start_waits_on(ctx0, j, i as int)
                    implies start_blocked(ctx1, j) && first_start_ref(ctx1, j) == first_start_ref(ctx0, j)
                    && first_with_id(ctx1, rid, j) by {
                    assert(j != i);
                    lemma_blocked_after_mark(ctx0, ctx1, i as int, j);
                    lemma_first_with_id_same_infos(ctx0, ctx1, rid, j);
                }
            }
        }
        proof {
            if allc {
                let en0 = ctx0.objects@[i as int].info.enable@[k as int];
                lemma_same_enable_span(enables@[k as int], en0);
                assert(constant_enable_span(en0) is Some);
                assert(ctx.objects@[i as int].info == ctx0.objects@[i as int].info);
            }
        }
        let res = resolve_enable(ctx, i, &enables[k], &mut direct_references);
        proof {
            assert forall|k2: int|
                0 <= k2 < ctx0.objects@[i as int].info.enable@.len() && enable_refers_resolved(
                    ctx0,
                    i as int,
                    #[trigger] ctx0.objects@[i as int].info.enable@[k2],
                ) implies enable_refers_resolved(*ctx, i as int, ctx0.objects@[i as int].info.enable@[k2]) by {
                lemma_enable_refers_step(before, *ctx, i as int, ctx0.objects@[i as int].info.enable@[k2]);
            }
            lemma_ctx_step_trans(ctx1, before, *ctx);
            lemma_same_enable_errors(enables@[k as int], ctx0.objects@[i as int].info.enable@[k as int]);
            if others_complete(ctx0, i as int) {
                lemma_others_complete_step(before, *ctx, i as int);
            }
        }
        let mut new_instances = match res {
            Ok(v) => v,
            Err(e) => {
                proof {
                    lemma_ctx_step_trans(ctx0, ctx1, *ctx);
                    if others_complete(ctx0, i as int) {
                        assert(own_error(ctx0.objects@[i as int].info.id@, ctx0.objects@[i as int].info.enable@[k as int], e));
                        if forall|k2: int| 0 <= k2 < ctx0.objects@[i as int].info.enable@.len() ==> enable_clean(
                            #[trigger] ctx0.objects@[i as int].info.enable@[k2],
                        ) {
                            assert(enable_clean(ctx0.objects@[i as int].info.enable@[k as int]));
                            assert(enable_clean(enables@[k as int]));
                        }
                    }
                }
                return Err(e);
            },
        };
        proof {
            assert forall|k2: int, p: Seq<char>, err: ExpressionError|
                0 <= k2 < k + 1 implies !#[trigger] bad_part(ctx0.objects@[i as int].info.enable@[k2], p, err) by {
                if k2 == k {
                    if bad_part(ctx0.objects@[i as int].info.enable@[k2], p, err) {
                        assert(bad_part(enables@[k as int], p, err));
                    }
                }
            }
        }
        let ghost before_instances = instances@;
        let ghost added = new_instances@;
        instances.append(&mut new_instances);
        assert(basic ==> instances@ == added);
        proof {
            if allc {
                let en0 = ctx0.objects@[i as int].info.enable@[k as int];
                lemma_same_enable_span(enables@[k as int], en0);
                assert(instances@ =~= before_instances + added);
                lemma_positive_concat(before_instances, added);
                assert forall|x: Time| #![trigger covers(instances@, x)]
                    (covers(instances@, x) <==> enables_cover(info0, k + 1, x)) && (covers(
                        positive_instances(instances@),
                        x,
                    ) <==> covers(instances@, x)) by {
                    lemma_covers_concat(before_instances, added, x);
                    lemma_covers_concat(positive_instances(before_instances), positive_instances(added), x);
                    assert(covers(before_instances, x) <==> enables_cover(info0, k as int, x));
                    assert(covers(added, x) <==> span_covers(constant_enable_span(en0)->0, x));
                    if enables_cover(info0, k + 1, x) && !enables_cover(info0, k as int, x) {
                        let k2 = choose|k2: int| 0 <= k2 < k + 1 && span_covers(
                            #[trigger] constant_enable_span(info0.enable@[k2])->0,
                            x,
                        );
                        assert(k2 == k);
                    }
                    if span_covers(constant_enable_span(en0)->0, x) {
                        assert(span_covers(constant_enable_span(info0.enable@[k as int])->0, x));
                    }
                }
            }
        }
        proof {
            assert forall|x: int| 0 <= x < instances@.len() implies instance_wf(#[trigger] instances@[x]) by {
                if x >= before_instances.len() {
                    assert(instance_wf(added[x - before_instances.len()]));
                }
            }
        }
        k = k + 1;
    }
    proof {
        lemma_ctx_step_trans(ctx0, ctx1, *ctx);
    }
    // filter out zero-length instances:
    let ghost all_instances = instances@;
    let instances = keep_positive(instances);
    let ghost kept = instances@;
    assert(allc ==> ctx.objects@[i as int].resolved is InProgress && forall|x: Time|
        #![trigger covers(kept, x)]
        covers(kept, x) <==> enables_cover(info0, info0.enable@.len() as int, x)) by {
        if allc {
            assert forall|x: Time| #![trigger covers(kept, x)] covers(kept, x) <==> enables_cover(
                info0,
                info0.enable@.len() as int,
                x,
            ) by {
                assert(covers(all_instances, x) <==> enables_cover(info0, k as int, x));
            }
        }
    }
    assert(basic ==> k == 1 && ctx.objects@[i as int].resolved is InProgress && forall|x: Time|
        #![trigger covers(kept, x)]
        covers(kept, x) <==> span_covers(span, x)) by {
        if basic {
            assert forall|x: Time| #![trigger covers(kept, x)] covers(kept, x) <==> span_covers(span, x) by {
                assert(covers(all_instances, x) <==> span_covers(span, x));
            }
        }
    }
    let id = ctx.objects[i].info.id.clone();
    let self_referencing = match &ctx.objects[i].resolved {
        TimelineObjectResolvingStatus::Pending => {
            return Err(ResolveError::ResolvedWhilePending(id));
        },
        TimelineObjectResolvingStatus::Complete(_) => {
            return Err(ResolveError::ResolvedWhileResolvec(id));
        },
        TimelineObjectResolvingStatus::InProgress(progress) => progress.is_self_referencing,
    };
    let ghost ctx2 = *ctx;
    set_status(
        ctx,
        i,
        TimelineObjectResolvingStatus::Complete(
            TimelineObjectResolved { is_self_referencing: self_referencing, instances, direct_references },
        ),
    );
    proof {
        assert(ctx_wf(ctx2));
        assert forall|j: int| 0 <= j < ctx.objects@.len() implies resolved_wf(#[trigger] ctx.objects@[j].resolved)
            && resolved_as_declared(ctx.objects@[j]) by {
            if j != i {
                assert(ctx.objects@[j] == ctx2.objects@[j]);
            }
        }
        assert(ctx_wf(*ctx));
        assert forall|j: int| 0 <= j < ctx0.objects@.len() && j != i implies #[trigger] ctx.objects@[j] == ctx2.objects@[j] by {}
        assert(ctx_step(ctx0, *ctx));
    }
    Ok(())
}

} // verus!
