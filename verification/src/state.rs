//! The state of every layer over time: which object's instance is on top
//! of each layer at each point in time, and the events to come.

use vstd::prelude::*;
use crate::api::{ResolvedTimeline, ResolvedTimelineObject};
use crate::instance::{
    Time, TimelineObjectInfo, TimelineObjectInstance, copy_opt_string, end_or_max, opt_chars, same_instance,
};
use crate::names::{add_id_for_name, copy_names, names_lookup, strings_view};
use crate::text::{concat, decimal_string, seq_less, string_less, lemma_seq_less_asymmetric, lemma_seq_less_total, lemma_seq_less_transitive};
use crate::util::set_instance_end_time;

verus! {

/// What happens at a next event.
#[derive(PartialEq, Eq, Structural, Debug, Clone, Copy)]
pub enum EventType {
    Start,
    End,
    KeyFrame,
}

/// The rank of an event type: starts, then ends, then keyframes.
pub open spec fn event_rank(t: EventType) -> int {
    match t {
        EventType::Start => 0,
        EventType::End => 1,
        EventType::KeyFrame => 2,
    }
}

/// Something that happens on the timeline at a later time.
#[derive(Debug, PartialEq)]
pub struct NextEvent {
    pub event_type: EventType,
    pub time: Time,
    pub object_id: String,
}

/// `a` goes after `b` among the next events: it is later; or, at the same
/// time, of a lower rank; or, of the same rank too, of a greater object id.
pub open spec fn next_event_after(a: NextEvent, b: NextEvent) -> bool {
    if a.time != b.time {
        a.time > b.time
    } else if a.event_type != b.event_type {
        event_rank(a.event_type) < event_rank(b.event_type)
    } else {
        seq_less(b.object_id@, a.object_id@)
    }
}

/// The next events are in order: none goes after the one that follows it.
pub open spec fn next_events_sorted(v: Seq<NextEvent>) -> bool {
    forall|i: int| 0 <= i < v.len() - 1 ==> !next_event_after(#[trigger] v[i], v[i + 1])
}

impl NextEvent {
    pub fn copy(&self) -> (c: NextEvent)
        ensures
            c.event_type == self.event_type,
            c.time == self.time,
            c.object_id@ == self.object_id@,
    {
        NextEvent { event_type: self.event_type, time: self.time, object_id: self.object_id.clone() }
    }
}

/// A keyframe that applies to the state of a layer.
#[derive(Debug)]
pub struct ResolvedTimelineObjectInstanceKeyframe {
    pub info: TimelineObjectInfo,
    pub keyframe_end_time: Option<Time>,
}

impl ResolvedTimelineObjectInstanceKeyframe {
    pub fn copy(&self) -> (c: ResolvedTimelineObjectInstanceKeyframe)
        ensures
            c.info.id@ == self.info.id@,
            c.info.parent_id is Some <==> self.info.parent_id is Some,
            c.info.parent_id matches Some(p) ==> p@ == self.info.parent_id->0@,
            c.keyframe_end_time == self.keyframe_end_time,
    {
        ResolvedTimelineObjectInstanceKeyframe { info: self.info.copy(), keyframe_end_time: self.keyframe_end_time }
    }
}

/// An instance of an object, with what is known of the object.
#[derive(Debug)]
pub struct ResolvedTimelineObjectInstance {
    pub info: TimelineObjectInfo,
    pub instance: TimelineObjectInstance,
}

/// The state of a layer: the object on it, its instance and the keyframes
/// that apply.
#[derive(Debug)]
pub struct TimelineLayerState {
    pub object_id: String,
    pub info: TimelineObjectInfo,
    pub instance: TimelineObjectInstance,
    pub keyframes: Vec<ResolvedTimelineObjectInstanceKeyframe>,
}

/// The instances in which an object is the state of its layer.
#[derive(Debug)]
pub struct ResolvedStatesForObject {
    pub info: TimelineObjectInfo,
    pub instances: Vec<TimelineObjectInstance>,
}

/// The states of the layers over time.
#[derive(Debug)]
pub struct ResolvedStates {
    /// For each layer, the state from each point in time on (none where the
    /// layer is empty from that time on)
    pub state: Vec<(String, Vec<(Time, Option<TimelineLayerState>)>)>,
    pub next_events: Vec<NextEvent>,
    /// The objects that are the state of a layer at some time
    pub objects: Vec<ResolvedStatesForObject>,
    /// The ids of the objects of each class
    pub classes: Vec<(String, Vec<String>)>,
    /// The ids of the objects on each layer
    pub layers: Vec<(String, Vec<String>)>,
}

/// The state of the timeline at one point in time.
#[derive(Debug)]
pub struct TimelineState {
    pub time: Time,
    /// The state of each layer that has one
    pub layers: Vec<(String, TimelineLayerState)>,
    pub next_events: Vec<NextEvent>,
}

/// Why the states could not be resolved: nothing makes them fail.
#[derive(Debug)]
pub enum ResolvedStatesError {
    Unreachable,
}

fn find_object_states(objects: &Vec<ResolvedStatesForObject>, id: &String) -> (r: Option<usize>)
    ensures
        match r {
            Some(i) => i < objects@.len() && objects@[i as int].info.id@ == id@ && forall|j: int|
                0 <= j < i ==> objects@[j].info.id@ != id@,
            None => forall|j: int| 0 <= j < objects@.len() ==> objects@[j].info.id@ != id@,
        },
{
    let mut i: usize = 0;
    while i < objects.len()
        invariant
            i <= objects@.len(),
            forall|j: int| 0 <= j < i ==> objects@[j].info.id@ != id@,
        decreases objects@.len() - i,
    {
        if objects[i].info.id == *id {
            return Some(i);
        }
        i = i + 1;
    }
    None
}

impl ResolvedStates {
    /// The states of the object with the given id.
    pub fn get_object(&self, id: &str) -> (r: Option<&ResolvedStatesForObject>)
        ensures
            match r {
                Some(o) => o.info.id@ == id@ && exists|i: int|
                    0 <= i < self.objects@.len() && self.objects@[i] == *o && forall|j: int|
                        0 <= j < i ==> self.objects@[j].info.id@ != id@,
                None => forall|j: int| 0 <= j < self.objects@.len() ==> self.objects@[j].info.id@ != id@,
            },
    {
        match find_object_states(&self.objects, &id.to_owned()) {
            Some(i) => Some(&self.objects[i]),
            None => None,
        }
    }

    /// The ids of the objects that are on a layer at some time.
    pub fn get_layer(&self, layer: &str) -> (r: Option<&Vec<String>>)
        ensures
            match r {
                Some(v) => names_lookup(self.layers@, layer@) == Some(strings_view(v@)),
                None => names_lookup(self.layers@, layer@) is None,
            },
    {
        crate::names::ids_for_name(&self.layers, &layer.to_owned())
    }
}

impl TimelineState {
    /// The state of a layer, if it has one.
    pub fn get_layer(&self, layer: &str) -> (r: Option<&TimelineLayerState>)
        ensures
            match r {
                Some(s) => exists|i: int| 0 <= i < self.layers@.len() && self.layers@[i].0@ == layer@ && self.layers@[i].1 == *s,
                None => forall|i: int| 0 <= i < self.layers@.len() ==> self.layers@[i].0@ != layer@,
            },
    {
        let key = layer.to_owned();
        let mut i: usize = 0;
        while i < self.layers.len()
            invariant
                i <= self.layers@.len(),
                key@ == layer@,
                forall|j: int| 0 <= j < i ==> self.layers@[j].0@ != layer@,
            decreases self.layers@.len() - i,
        {
            if self.layers[i].0 == key {
                return Some(&self.layers[i].1);
            }
            i = i + 1;
        }
        None
    }
}

/// The states of a layer, from the first entry with its name.
pub open spec fn state_lookup(
    states: Seq<(String, Vec<(Time, Option<TimelineLayerState>)>)>,
    layer: Seq<char>,
) -> Option<Seq<(Time, Option<TimelineLayerState>)>>
    decreases states.len(),
{
    if states.len() == 0 {
        None
    } else if states[0].0@ == layer {
        Some(states[0].1@)
    } else {
        state_lookup(states.drop_first(), layer)
    }
}

/// How many leading entries are from `t` or before.
pub open spec fn entries_prefix(entries: Seq<(Time, Option<TimelineLayerState>)>, t: Time) -> nat
    decreases entries.len(),
{
    if entries.len() == 0 {
        0
    } else if entries[0].0 <= t {
        1 + entries_prefix(entries.drop_first(), t)
    } else {
        0
    }
}

/// A keyframe applies to the state of object `object_id` at `t`: it
/// belongs to the object and has not ended.
pub open spec fn keyframe_applies(k: ResolvedTimelineObjectInstanceKeyframe, object_id: Seq<char>, t: Time) -> bool {
    match k.info.parent_id {
        Some(p) => p@ == object_id && end_or_max(k.keyframe_end_time) > t,
        None => false,
    }
}

/// The ids of the keyframes that apply, in order.
pub open spec fn kept_keyframe_ids(
    kfs: Seq<ResolvedTimelineObjectInstanceKeyframe>,
    object_id: Seq<char>,
    t: Time,
) -> Seq<Seq<char>>
    decreases kfs.len(),
{
    if kfs.len() == 0 {
        Seq::empty()
    } else {
        let rest = kept_keyframe_ids(kfs.drop_last(), object_id, t);
        if keyframe_applies(kfs.last(), object_id, t) {
            rest.push(kfs.last().info.id@)
        } else {
            rest
        }
    }
}

/// The ids of a list of keyframes.
pub open spec fn keyframe_ids(kfs: Seq<ResolvedTimelineObjectInstanceKeyframe>) -> Seq<Seq<char>> {
    kfs.map_values(|k: ResolvedTimelineObjectInstanceKeyframe| k.info.id@)
}

/// `s` is the state `e` as it stands at `t`: the same object and instance,
/// with the keyframes that still apply.
pub open spec fn layer_state_at(s: TimelineLayerState, e: TimelineLayerState, t: Time) -> bool {
    &&& s.object_id@ == e.object_id@
    &&& s.info.id@ == e.info.id@
    &&& s.info.layer@ == e.info.layer@
    &&& s.info.disabled == e.info.disabled
    &&& same_instance(s.instance, e.instance)
    &&& keyframe_ids(s.keyframes@) == kept_keyframe_ids(e.keyframes@, e.object_id@, t)
}

/// The state of a layer at `t`, from its entries: that of the last of the
/// leading entries from `t` or before.
pub open spec fn state_at(states: Seq<(String, Vec<(Time, Option<TimelineLayerState>)>)>, layer: Seq<char>, t: Time, s: Option<TimelineLayerState>) -> bool {
    match state_lookup(states, layer) {
        None => s is None,
        Some(entries) => {
            let p = entries_prefix(entries, t);
            if p == 0 {
                s is None
            } else {
                match entries[p - 1].1 {
                    Some(e) => match s {
                        Some(x) => layer_state_at(x, e, t),
                        None => false,
                    },
                    None => s is None,
                }
            }
        },
    }
}

fn find_layer_states(states: &Vec<(String, Vec<(Time, Option<TimelineLayerState>)>)>, layer: &String) -> (r: Option<usize>)
    ensures
        match r {
            Some(i) => i < states@.len() && state_lookup(states@, layer@) == Some(states@[i as int].1@),
            None => state_lookup(states@, layer@) is None,
        },
{
    let mut i: usize = 0;
    assert(states@.skip(0) =~= states@);
    while i < states.len()
        invariant
            i <= states@.len(),
            state_lookup(states@, layer@) == state_lookup(states@.skip(i as int), layer@),
        decreases states@.len() - i,
    {
        assert(states@.skip(i as int)[0] == states@[i as int]);
        assert(states@.skip(i as int).drop_first() =~= states@.skip(i + 1));
        if states[i].0 == *layer {
            return Some(i);
        }
        i = i + 1;
    }
    None
}

fn copy_layer_state(e: &TimelineLayerState, t: Time) -> (s: TimelineLayerState)
    ensures
        layer_state_at(s, *e, t),
{
    let mut keyframes: Vec<ResolvedTimelineObjectInstanceKeyframe> = Vec::new();
    let mut j: usize = 0;
    while j < e.keyframes.len()
        invariant
            j <= e.keyframes@.len(),
            keyframe_ids(keyframes@) == kept_keyframe_ids(e.keyframes@.take(j as int), e.object_id@, t),
        decreases e.keyframes@.len() - j,
    {
        let k = &e.keyframes[j];
        let applies = match &k.info.parent_id {
            Some(p) => *p == e.object_id && match k.keyframe_end_time {
                Some(end) => end > t,
                None => Time::MAX > t,
            },
            None => false,
        };
        proof {
            assert(e.keyframes@.take(j + 1).drop_last() =~= e.keyframes@.take(j as int));
            assert(e.keyframes@.take(j + 1).last() == e.keyframes@[j as int]);
        }
        let ghost before = keyframes@;
        assert(applies == keyframe_applies(e.keyframes@[j as int], e.object_id@, t));
        if applies {
            keyframes.push(k.copy());
            assert(keyframe_ids(keyframes@) =~= keyframe_ids(before).push(k.info.id@));
        }
        j = j + 1;
    }
    assert(e.keyframes@.take(e.keyframes@.len() as int) =~= e.keyframes@);
    TimelineLayerState {
        object_id: e.object_id.clone(),
        info: e.info.copy(),
        instance: e.instance.copy(),
        keyframes,
    }
}

/// The state of a layer at a point in time.
pub fn get_state_at_time_for_layer(
    states: &Vec<(String, Vec<(Time, Option<TimelineLayerState>)>)>,
    layer_id: &String,
    request_time: Time,
) -> (r: Option<TimelineLayerState>)
    ensures
        state_at(states@, layer_id@, request_time, r),
{
    match find_layer_states(states, layer_id) {
        None => None,
        Some(li) => {
            let entries = &states[li].1;
            let mut k: usize = 0;
            assert(entries@.skip(0) =~= entries@);
            while k < entries.len() && entries[k].0 <= request_time
                invariant
                    k <= entries@.len(),
                    entries_prefix(entries@, request_time) == k + entries_prefix(entries@.skip(k as int), request_time),
                decreases entries@.len() - k,
            {
                assert(entries@.skip(k as int)[0] == entries@[k as int]);
                assert(entries@.skip(k as int).drop_first() =~= entries@.skip(k + 1));
                k = k + 1;
            }
            proof {
                if k < entries@.len() {
                    assert(entries@.skip(k as int)[0] == entries@[k as int]);
                }
            }
            if k == 0 {
                None
            } else {
                match &entries[k - 1].1 {
                    Some(e) => Some(copy_layer_state(e, request_time)),
                    None => None,
                }
            }
        },
    }
}

/// The events after `t`, in order.
pub open spec fn events_after(v: Seq<NextEvent>, t: Time) -> Seq<(EventType, Time, Seq<char>)>
    decreases v.len(),
{
    if v.len() == 0 {
        Seq::empty()
    } else {
        let rest = events_after(v.drop_last(), t);
        if v.last().time > t {
            rest.push((v.last().event_type, v.last().time, v.last().object_id@))
        } else {
            rest
        }
    }
}

/// The view of a list of events.
pub open spec fn events_view(v: Seq<NextEvent>) -> Seq<(EventType, Time, Seq<char>)> {
    v.map_values(|e: NextEvent| (e.event_type, e.time, e.object_id@))
}

/// At most `limit` of `s`.
pub open spec fn at_most(s: Seq<(EventType, Time, Seq<char>)>, limit: nat) -> Seq<(EventType, Time, Seq<char>)> {
    if s.len() <= limit {
        s
    } else {
        s.take(limit as int)
    }
}

/// The limit on next events: none where it is absent or zero.
pub open spec fn event_limit_spec(event_limit: Option<usize>) -> nat {
    match event_limit {
        Some(l) => if l == 0 {
            usize::MAX as nat
        } else {
            l as nat
        },
        None => usize::MAX as nat,
    }
}

/// A layer of that name is listed.
pub open spec fn layer_listed(layers: Seq<(String, Vec<String>)>, name: Seq<char>) -> bool {
    exists|j: int| 0 <= j < layers.len() && layers[j].0@ == name
}

/// The state of the timeline at `time`: the state of each layer, and the
/// events after `time` (at most `event_limit` of them, where it is set and
/// not zero).
pub fn get_state(resolved: &ResolvedStates, time: Time, event_limit: Option<usize>) -> (s: TimelineState)
    ensures
        s.time == time,
        events_view(s.next_events@) == at_most(
            events_after(resolved.next_events@, time),
            event_limit_spec(event_limit),
        ),
        forall|i: int|
            0 <= i < s.layers@.len() ==> layer_listed(resolved.layers@, (#[trigger] s.layers@[i]).0@)
                && state_at(resolved.state@, s.layers@[i].0@, time, Some(s.layers@[i].1)),
        forall|j: int|
            0 <= j < resolved.layers@.len() && !state_at(resolved.state@, (#[trigger] resolved.layers@[j]).0@, time, None)
                ==> exists|i: int| 0 <= i < s.layers@.len() && s.layers@[i].0@ == resolved.layers@[j].0@,
        states_on_own_layers(resolved.state@) ==> forall|i: int|
            0 <= i < s.layers@.len() ==> (#[trigger] s.layers@[i]).1.info.layer@ == s.layers@[i].0@
                && !s.layers@[i].1.info.disabled,
{
    let limit: usize = match event_limit {
        Some(l) => if l == 0 {
            usize::MAX
        } else {
            l
        },
        None => usize::MAX,
    };
    let mut next_events: Vec<NextEvent> = Vec::new();
    let mut i: usize = 0;
    while i < resolved.next_events.len()
        invariant
            i <= resolved.next_events@.len(),
            limit == event_limit_spec(event_limit),
            events_view(next_events@) == at_most(events_after(resolved.next_events@.take(i as int), time), limit as nat),
        decreases resolved.next_events@.len() - i,
    {
        let e = &resolved.next_events[i];
        proof {
            assert(resolved.next_events@.take(i + 1).drop_last() =~= resolved.next_events@.take(i as int));
            assert(resolved.next_events@.take(i + 1).last() == resolved.next_events@[i as int]);
        }
        let ghost before = next_events@;
        if e.time > time && next_events.len() < limit {
            next_events.push(e.copy());
            assert(events_view(next_events@) =~= events_view(before).push((e.event_type, e.time, e.object_id@)));
        }
        proof {
            let f = events_after(resolved.next_events@.take(i as int), time);
            let f2 = events_after(resolved.next_events@.take(i + 1), time);
            if e.time > time {
                assert(f2 == f.push((e.event_type, e.time, e.object_id@)));
                if f.len() >= limit {
                    assert(f2.take(limit as int) =~= f.take(limit as int));
                }
            }
        }
        i = i + 1;
    }
    assert(resolved.next_events@.take(resolved.next_events@.len() as int) =~= resolved.next_events@);
    let mut layers: Vec<(String, TimelineLayerState)> = Vec::new();
    let mut j: usize = 0;
    while j < resolved.layers.len()
        invariant
            j <= resolved.layers@.len(),
            forall|i: int|
                0 <= i < layers@.len() ==> layer_listed(resolved.layers@, (#[trigger] layers@[i]).0@)
                    && state_at(resolved.state@, layers@[i].0@, time, Some(layers@[i].1)),
            forall|k: int|
                0 <= k < j && !state_at(resolved.state@, (#[trigger] resolved.layers@[k]).0@, time, None)
                    ==> exists|i: int| 0 <= i < layers@.len() && layers@[i].0@ == resolved.layers@[k].0@,
        decreases resolved.layers@.len() - j,
    {
        let layer_id = &resolved.layers[j].0;
        let st = get_state_at_time_for_layer(&resolved.state, layer_id, time);
        let ghost before = layers@;
        match st {
            Some(state) => {
                layers.push((layer_id.clone(), state));
                proof {
                    assert(layers@[before.len() as int].0@ == resolved.layers@[j as int].0@);
                    assert(layer_listed(resolved.layers@, layers@[before.len() as int].0@));
                    assert forall|k: int|
                        0 <= k < j + 1 && !state_at(resolved.state@, (#[trigger] resolved.layers@[k]).0@, time, None)
                            implies exists|i: int| 0 <= i < layers@.len() && layers@[i].0@ == resolved.layers@[k].0@ by {
                        if k < j {
                            let i0 = choose|i: int| 0 <= i < before.len() && before[i].0@ == resolved.layers@[k].0@;
                            assert(layers@[i0] == before[i0]);
                        } else {
                            assert(layers@[before.len() as int].0@ == resolved.layers@[k].0@);
                        }
                    }
                }
            },
            None => {},
        }
        j = j + 1;
    }
    let ghost lv = layers@;
    proof {
        if states_on_own_layers(resolved.state@) {
            assert forall|i: int| 0 <= i < lv.len() implies (#[trigger] lv[i]).1.info.layer@ == lv[i].0@
                && !lv[i].1.info.disabled by {
                lemma_state_on_own_layer(resolved.state@, lv[i].0@, time, lv[i].1);
            }
        }
    }
    let st = TimelineState { time, layers, next_events };
    assert(st.layers@ == lv);
    st
}

/// An instance turning on or off at a point in time.
pub struct PointInTime {
    /// Whether the instance turns on at this point
    pub enable: bool,
    /// The instance, by its place among the candidates
    pub obj: usize,
}

/// A point in time of a parent, where it turns on or off.
pub struct TimeEvent {
    pub time: Time,
    pub enable: bool,
}

/// The index of the first object with the given id.
pub open spec fn first_with_id(objects: Seq<ResolvedTimelineObject>, id: Seq<char>, i: int) -> bool {
    0 <= i < objects.len() && objects[i].info.id@ == id && forall|j: int| 0 <= j < i ==> objects[j].info.id@ != id
}

/// The turning on and off of the given instances, in their order.
pub open spec fn instance_times(s: Seq<TimelineObjectInstance>) -> Seq<(Time, bool)>
    decreases s.len(),
{
    if s.len() == 0 {
        Seq::empty()
    } else {
        let rest = instance_times(s.drop_last()).push((s.last().start, true));
        match s.last().end {
            Some(e) => rest.push((e, false)),
            None => rest,
        }
    }
}

/// The turning on and off of the instances of the parent with the given id,
/// then of its parent, and so on, for at most `fuel` parents.
pub open spec fn parent_times(objects: Seq<ResolvedTimelineObject>, parent_id: Option<Seq<char>>, fuel: nat) -> Seq<(Time, bool)>
    decreases fuel,
{
    if fuel == 0 {
        Seq::empty()
    } else {
        match parent_id {
            None => Seq::empty(),
            Some(p) => if exists|i: int| first_with_id(objects, p, i) {
                let i = choose|i: int| first_with_id(objects, p, i);
                instance_times(objects[i].resolved.instances@) + parent_times(
                    objects,
                    opt_chars(objects[i].info.parent_id),
                    (fuel - 1) as nat,
                )
            } else {
                Seq::empty()
            },
        }
    }
}

/// The view of a list of time events.
pub open spec fn time_events_view(v: Seq<TimeEvent>) -> Seq<(Time, bool)> {
    v.map_values(|e: TimeEvent| (e.time, e.enable))
}

/// The first object with the given id.
fn find_resolved(resolved: &ResolvedTimeline, id: &String) -> (r: Option<usize>)
    ensures
        match r {
            Some(i) => first_with_id(resolved.objects@, id@, i as int),
            None => forall|j: int| 0 <= j < resolved.objects@.len() ==> resolved.objects@[j].info.id@ != id@,
        },
{
    let mut i: usize = 0;
    while i < resolved.objects.len()
        invariant
            i <= resolved.objects@.len(),
            forall|j: int| 0 <= j < i ==> resolved.objects@[j].info.id@ != id@,
        decreases resolved.objects@.len() - i,
    {
        if resolved.objects[i].info.id == *id {
            return Some(i);
        }
        i = i + 1;
    }
    None
}

/// The times at which the parents of an object (and theirs) turn on and
/// off. A chain of parents longer than the number of objects can only be
/// a loop, and is followed no further.
pub fn get_times_from_parent(resolved: &ResolvedTimeline, obj: &ResolvedTimelineObject) -> (times: Vec<TimeEvent>)
    ensures
        time_events_view(times@) == parent_times(resolved.objects@, opt_chars(obj.info.parent_id), resolved.objects@.len()),
{
    let ghost objs = resolved.objects@;
    let ghost n = objs.len();
    let mut times: Vec<TimeEvent> = Vec::new();
    let mut parent_id = copy_opt_string(&obj.info.parent_id);
    let mut steps: usize = 0;
    while steps < resolved.objects.len()
        invariant
            objs == resolved.objects@,
            n == objs.len(),
            steps <= n,
            time_events_view(times@) + parent_times(objs, opt_chars(parent_id), (n - steps) as nat) == parent_times(
                objs,
                opt_chars(obj.info.parent_id),
                n,
            ),
        ensures
            time_events_view(times@) == parent_times(objs, opt_chars(obj.info.parent_id), n),
        decreases n - steps,
    {
        let pid = match &parent_id {
            Some(p) => p.clone(),
            None => {
                assert(time_events_view(times@) + Seq::<(Time, bool)>::empty() =~= time_events_view(times@));
                break;
            },
        };
        match find_resolved(resolved, &pid) {
            Some(pi) => {
                proof {
                    let c = choose|i: int| first_with_id(objs, pid@, i);
                    assert(first_with_id(objs, pid@, pi as int));
                    assert(c == pi as int) by {
                        if c < pi as int {
                            assert(objs[c].info.id@ != pid@);
                        } else if c > pi as int {
                            assert(objs[pi as int].info.id@ != pid@);
                        }
                    }
                }
                let parent_obj = &resolved.objects[pi];
                let ghost before = time_events_view(times@);
                let ghost insts = parent_obj.resolved.instances@;
                let mut k: usize = 0;
                assert(insts.take(0) =~= Seq::<TimelineObjectInstance>::empty());
                assert(before + instance_times(insts.take(0)) =~= before);
                while k < parent_obj.resolved.instances.len()
                    invariant
                        insts == parent_obj.resolved.instances@,
                        k <= insts.len(),
                        time_events_view(times@) == before + instance_times(insts.take(k as int)),
                    decreases insts.len() - k,
                {
                    let instance = &parent_obj.resolved.instances[k];
                    assert(insts.take(k + 1).drop_last() =~= insts.take(k as int));
                    assert(insts.take(k + 1).last() == insts[k as int]);
                    let ghost tv0 = time_events_view(times@);
                    times.push(TimeEvent { time: instance.start, enable: true });
                    assert(time_events_view(times@) =~= tv0.push((instance.start, true)));
                    if let Some(end) = instance.end {
                        let ghost tv1 = time_events_view(times@);
                        times.push(TimeEvent { time: end, enable: false });
                        assert(time_events_view(times@) =~= tv1.push((end, false)));
                    }
                    k = k + 1;
                    assert(time_events_view(times@) =~= before + instance_times(insts.take(k as int)));
                }
                assert(insts.take(k as int) =~= insts);
                parent_id = copy_opt_string(&parent_obj.info.parent_id);
                assert(opt_chars(parent_id) == opt_chars(objs[pi as int].info.parent_id));
                assert(time_events_view(times@) + parent_times(objs, opt_chars(parent_id), (n - steps - 1) as nat)
                    =~= before + parent_times(objs, Some(pid@), (n - steps) as nat));
            },
            None => {
                assert(!exists|i: int| first_with_id(objs, pid@, i));
                assert(time_events_view(times@) + Seq::<(Time, bool)>::empty() =~= time_events_view(times@));
                break;
            },
        }
        steps = steps + 1;
    }
    times
}

/// An instance of an object, with what is known of the object.
pub fn make_resolved_obj(obj: &ResolvedTimelineObject, instance: &TimelineObjectInstance) -> (r: ResolvedTimelineObjectInstance)
    ensures
        r.info.id@ == obj.info.id@,
        r.info.disabled == obj.info.disabled,
        r.info.is_keyframe == obj.info.is_keyframe,
        r.info.parent_id is None <==> obj.info.parent_id is None,
        r.info.layer@ == obj.info.layer@,
        same_instance(r.instance, *instance),
{
    ResolvedTimelineObjectInstance { info: obj.info.copy(), instance: instance.copy() }
}

/// `a` is evaluated after `b`: it is deeper, or as deep with a greater id.
pub open spec fn object_after(a: ResolvedTimelineObject, b: ResolvedTimelineObject) -> bool {
    a.info.depth > b.info.depth || (a.info.depth == b.info.depth && seq_less(b.info.id@, a.info.id@))
}

fn object_after_exec(a: &ResolvedTimelineObject, b: &ResolvedTimelineObject) -> (r: bool)
    ensures
        r == object_after(*a, *b),
{
    a.info.depth > b.info.depth || (a.info.depth == b.info.depth && string_less(&b.info.id, &a.info.id))
}

/// The order in which the objects are evaluated: parents before their
/// children, and by id.
pub fn object_order(objects: &Vec<ResolvedTimelineObject>) -> (order: Vec<usize>)
    ensures
        order@.len() == objects@.len(),
        forall|k: int| 0 <= k < order@.len() ==> #[trigger] order@[k] < objects@.len(),
        forall|k: int| 0 <= k < order@.len() - 1 ==> !object_after(objects@[#[trigger] order@[k] as int], objects@[order@[k + 1] as int]),
        forall|i: usize| i < objects@.len() ==> #[trigger] order@.contains(i),
{
    let mut order: Vec<usize> = Vec::new();
    let mut n: usize = 0;
    while n < objects.len()
        invariant
            n <= objects@.len(),
            order@.len() == n,
            forall|k: int| 0 <= k < order@.len() ==> #[trigger] order@[k] < objects@.len(),
            forall|k: int| 0 <= k < order@.len() - 1 ==> !object_after(objects@[#[trigger] order@[k] as int], objects@[order@[k + 1] as int]),
            forall|i: usize| i < n ==> #[trigger] order@.contains(i),
        decreases objects@.len() - n,
    {
        let mut p = order.len();
        while p > 0 && object_after_exec(&objects[order[p - 1]], &objects[n])
            invariant
                p <= order@.len(),
                n < objects@.len(),
                forall|k: int| 0 <= k < order@.len() ==> #[trigger] order@[k] < objects@.len(),
                forall|k: int| p <= k < order@.len() ==> object_after(objects@[#[trigger] order@[k] as int], objects@[n as int]),
                forall|i: usize| i < n ==> #[trigger] order@.contains(i),
            decreases p,
        {
            p = p - 1;
        }
        let ghost before = order@;
        order.insert(p, n);
        proof {
            assert(order@[p as int] == n);
            assert forall|i: usize| i < n + 1 implies #[trigger] order@.contains(i) by {
                if i < n {
                    assert(before.contains(i));
                    let j = choose|j: int| 0 <= j < before.len() && before[j] == i;
                    if j < p {
                        assert(order@[j] == before[j]);
                    } else {
                        assert(order@[j + 1] == before[j]);
                    }
                }
            }
            assert forall|k: int| 0 <= k < order@.len() - 1 implies !object_after(
                objects@[#[trigger] order@[k] as int],
                objects@[order@[k + 1] as int],
            ) by {
                if k == p {
                    let b = objects@[before[p as int] as int];
                    let a = objects@[n as int];
                    assert(object_after(b, a));
                    crate::text::lemma_seq_less_asymmetric(a.info.id@, b.info.id@);
                } else if k < p - 1 {
                    assert(order@[k] == before[k] && order@[k + 1] == before[k + 1]);
                } else if k == p - 1 {
                    assert(order@[k] == before[k]);
                } else {
                    assert(order@[k] == before[k - 1] && order@[k + 1] == before[k]);
                }
            }
        }
        n = n + 1;
    }
    order
}

/// Every state listed under a layer is that of an enabled object on that
/// layer.
pub open spec fn states_on_own_layers(states: Seq<(String, Vec<(Time, Option<TimelineLayerState>)>)>) -> bool {
    forall|l: int, k: int|
        0 <= l < states.len() && 0 <= k < states[l].1@.len() ==> entry_on_layer(#[trigger] states[l].1@[k], states[l].0@)
}

/// The entry is empty or shows an enabled object on `layer`.
pub open spec fn entry_on_layer(e: (Time, Option<TimelineLayerState>), layer: Seq<char>) -> bool {
    match e.1 {
        Some(st) => st.info.layer@ == layer && !st.info.disabled,
        None => true,
    }
}

/// The entries that the states list under a name are listed under it.
proof fn lemma_state_lookup_found(states: Seq<(String, Vec<(Time, Option<TimelineLayerState>)>)>, layer: Seq<char>)
    requires
        state_lookup(states, layer) is Some,
    ensures
        exists|l: int| 0 <= l < states.len() && states[l].0@ == layer && states[l].1@ == state_lookup(states, layer)->0,
    decreases states.len(),
{
    if states[0].0@ != layer {
        lemma_state_lookup_found(states.drop_first(), layer);
        let l = choose|l: int|
            0 <= l < states.drop_first().len() && states.drop_first()[l].0@ == layer && states.drop_first()[l].1@
                == state_lookup(states.drop_first(), layer)->0;
        assert(states[l + 1] == states.drop_first()[l]);
    }
}

/// Where every state is listed under its own layer, the state of a layer at
/// any time is that of an enabled object on that layer.
pub proof fn lemma_state_on_own_layer(
    states: Seq<(String, Vec<(Time, Option<TimelineLayerState>)>)>,
    layer: Seq<char>,
    t: Time,
    s: TimelineLayerState,
)
    requires
        states_on_own_layers(states),
        state_at(states, layer, t, Some(s)),
    ensures
        s.info.layer@ == layer,
        !s.info.disabled,
{
    lemma_state_lookup_found(states, layer);
    let l = choose|l: int| 0 <= l < states.len() && states[l].0@ == layer && states[l].1@ == state_lookup(states, layer)->0;
    let entries = state_lookup(states, layer)->0;
    let p = entries_prefix(entries, t);
    lemma_entries_prefix_len(entries, t);
    assert(entry_on_layer(states[l].1@[p - 1], states[l].0@));
}

proof fn lemma_entries_prefix_len(entries: Seq<(Time, Option<TimelineLayerState>)>, t: Time)
    ensures
        entries_prefix(entries, t) <= entries.len(),
    decreases entries.len(),
{
    if entries.len() > 0 {
        lemma_entries_prefix_len(entries.drop_first(), t);
    }
}

/// The times of each layer's states rise strictly.
pub open spec fn states_sorted(states: Seq<(String, Vec<(Time, Option<TimelineLayerState>)>)>) -> bool {
    forall|l: int, i: int, j: int|
        0 <= l < states.len() && 0 <= i < j < states[l].1@.len() ==> (#[trigger] states[l].1@[i]).0 < (
        #[trigger] states[l].1@[j]).0
}

fn layer_state_of(instance: &ResolvedTimelineObjectInstance) -> (s: TimelineLayerState)
    ensures
        s.object_id@ == instance.info.id@,
        s.info.layer@ == instance.info.layer@,
        s.info.disabled == instance.info.disabled,
        s.keyframes@.len() == 0,
{
    TimelineLayerState {
        object_id: instance.info.id.clone(),
        info: instance.info.copy(),
        instance: instance.instance.copy(),
        keyframes: Vec::new(),
    }
}

/// The entry shows the object `id`.
pub open spec fn entry_shows(e: (Time, Option<TimelineLayerState>), id: Seq<char>) -> bool {
    match e.1 {
        Some(st) => st.object_id@ == id,
        None => false,
    }
}

/// The ids of the objects that the states show.
pub open spec fn shown_ids(states: Seq<(String, Vec<(Time, Option<TimelineLayerState>)>)>) -> Set<Seq<char>> {
    Set::new(
        |id: Seq<char>|
            exists|l: int, k: int|
                0 <= l < states.len() && 0 <= k < states[l].1@.len() && #[trigger] entry_shows(states[l].1@[k], id),
    )
}

/// The state of a layer from `time` on shows the object `id` (or, with no
/// id, nothing).
pub open spec fn entry_at(entries: Seq<(Time, Option<TimelineLayerState>)>, time: Time, id: Option<Seq<char>>) -> bool {
    exists|k: int|
        0 <= k < entries.len() && entries[k].0 == time && match id {
            Some(x) => entry_shows(entries[k], x),
            None => entries[k].1 is None,
        }
}

proof fn lemma_state_lookup_push(
    m: Seq<(String, Vec<(Time, Option<TimelineLayerState>)>)>,
    e: (String, Vec<(Time, Option<TimelineLayerState>)>),
    k: Seq<char>,
)
    ensures
        state_lookup(m.push(e), k) == match state_lookup(m, k) {
            Some(x) => Some(x),
            None => if e.0@ == k {
                Some(e.1@)
            } else {
                None
            },
        },
    decreases m.len(),
{
    if m.len() > 0 {
        assert(m.push(e)[0] == m[0]);
        assert(m.push(e).drop_first() =~= m.drop_first().push(e));
        lemma_state_lookup_push(m.drop_first(), e, k);
    } else {
        assert(m.push(e)[0] == e);
        assert(m.push(e).drop_first() =~= Seq::<(String, Vec<(Time, Option<TimelineLayerState>)>)>::empty());
        if e.0@ != k {
            assert(state_lookup(m.push(e), k) == state_lookup(m.push(e).drop_first(), k));
        }
    }
}

proof fn lemma_state_lookup_update(
    m: Seq<(String, Vec<(Time, Option<TimelineLayerState>)>)>,
    i: int,
    e: (String, Vec<(Time, Option<TimelineLayerState>)>),
    k: Seq<char>,
)
    requires
        0 <= i < m.len(),
        e.0@ == m[i].0@,
        forall|j: int| 0 <= j < i ==> m[j].0@ != m[i].0@,
    ensures
        state_lookup(m.update(i, e), k) == if k == m[i].0@ {
            Some(e.1@)
        } else {
            state_lookup(m, k)
        },
    decreases i,
{
    if i > 0 {
        assert(m.update(i, e)[0] == m[0]);
        assert(m.update(i, e).drop_first() =~= m.drop_first().update(i - 1, e));
        lemma_state_lookup_update(m.drop_first(), i - 1, e, k);
    } else {
        assert(m.update(i, e)[0] == e);
        assert(m.update(i, e).drop_first() =~= m.drop_first());
    }
}

/// Each layer with states in `a` has states in `b`.
pub open spec fn lookups_kept(
    a: Seq<(String, Vec<(Time, Option<TimelineLayerState>)>)>,
    b: Seq<(String, Vec<(Time, Option<TimelineLayerState>)>)>,
) -> bool {
    forall|l: Seq<char>| #[trigger] state_lookup(a, l) is Some ==> state_lookup(b, l) is Some
}

/// The entry `e` is among the entries of some layer.
pub open spec fn entry_in(states: Seq<(String, Vec<(Time, Option<TimelineLayerState>)>)>, e: (Time, Option<TimelineLayerState>)) -> bool {
    exists|l: int, k: int| 0 <= l < states.len() && 0 <= k < states[l].1@.len() && #[trigger] states[l].1@[k] == e
}

/// Some next event of the kind `kind` comes at `t`.
pub open spec fn event_at(events: Seq<NextEvent>, kind: EventType, t: Time) -> bool {
    exists|k: int| 0 <= k < events.len() && (#[trigger] events[k]).event_type == kind && events[k].time == t
}

/// A change of a layer's state after `after` is among the next events: a
/// state that starts at the entry's time (with no keyframes) with a start
/// event at that time, a layer left empty with an end event at that time.
pub open spec fn entry_announced(e: (Time, Option<TimelineLayerState>), events: Seq<NextEvent>, after: Time) -> bool {
    e.0 > after ==> match e.1 {
        Some(st) => st.keyframes@.len() == 0 && st.instance.start == e.0 ==> event_at(events, EventType::Start, e.0),
        None => event_at(events, EventType::End, e.0),
    }
}

/// Every change of state of every layer after `after` is among the next events.
pub open spec fn changes_announced(
    states: Seq<(String, Vec<(Time, Option<TimelineLayerState>)>)>,
    events: Seq<NextEvent>,
    after: Time,
) -> bool {
    forall|l: int, k: int|
        0 <= l < states.len() && 0 <= k < states[l].1@.len() ==> entry_announced(#[trigger] states[l].1@[k], events, after)
}

/// Each event of `before` is among those of `after`.
pub open spec fn events_kept(before: Seq<NextEvent>, after: Seq<NextEvent>) -> bool {
    forall|k: int| 0 <= k < before.len() ==> after.contains(#[trigger] before[k])
}

proof fn lemma_announced_step(
    s0: Seq<(String, Vec<(Time, Option<TimelineLayerState>)>)>,
    s1: Seq<(String, Vec<(Time, Option<TimelineLayerState>)>)>,
    ev0: Seq<NextEvent>,
    ev1: Seq<NextEvent>,
    after: Time,
)
    requires
        changes_announced(s0, ev0, after),
        events_kept(ev0, ev1),
        forall|l: int, k: int|
            0 <= l < s1.len() && 0 <= k < s1[l].1@.len() ==> entry_in(s0, #[trigger] s1[l].1@[k]) || entry_announced(
                s1[l].1@[k],
                ev1,
                after,
            ),
    ensures
        changes_announced(s1, ev1, after),
{
    assert forall|l: int, k: int| 0 <= l < s1.len() && 0 <= k < s1[l].1@.len() implies entry_announced(
        #[trigger] s1[l].1@[k],
        ev1,
        after,
    ) by {
        let e = s1[l].1@[k];
        if !entry_announced(e, ev1, after) {
            assert(entry_in(s0, e));
            let (l0, k0) = choose|l0: int, k0: int| 0 <= l0 < s0.len() && 0 <= k0 < s0[l0].1@.len() && #[trigger] s0[l0].1@[k0] == e;
            assert(entry_announced(s0[l0].1@[k0], ev0, after));
            if e.0 > after {
                let kind = match e.1 {
                    Some(_) => EventType::Start,
                    None => EventType::End,
                };
                if event_at(ev0, kind, e.0) {
                    let j = choose|j: int| 0 <= j < ev0.len() && (#[trigger] ev0[j]).event_type == kind && ev0[j].time == e.0;
                    assert(ev1.contains(ev0[j]));
                    let j1 = choose|j1: int| 0 <= j1 < ev1.len() && ev1[j1] == ev0[j];
                    assert(ev1[j1].event_type == kind);
                }
            }
        }
    }
}

proof fn lemma_announced_events(
    s: Seq<(String, Vec<(Time, Option<TimelineLayerState>)>)>,
    ev0: Seq<NextEvent>,
    ev1: Seq<NextEvent>,
    after: Time,
)
    requires
        changes_announced(s, ev0, after),
        forall|k: int| 0 <= k < ev0.len() && (#[trigger] ev0[k]).time > after ==> ev1.contains(ev0[k]),
    ensures
        changes_announced(s, ev1, after),
{
    assert forall|l: int, k: int| 0 <= l < s.len() && 0 <= k < s[l].1@.len() implies entry_announced(
        #[trigger] s[l].1@[k],
        ev1,
        after,
    ) by {
        let e = s[l].1@[k];
        assert(entry_announced(e, ev0, after));
        if e.0 > after {
            let kind = match e.1 {
                Some(_) => EventType::Start,
                None => EventType::End,
            };
            if event_at(ev0, kind, e.0) {
                let j = choose|j: int| 0 <= j < ev0.len() && (#[trigger] ev0[j]).event_type == kind && ev0[j].time == e.0;
                assert(ev1.contains(ev0[j]));
                let j1 = choose|j1: int| 0 <= j1 < ev1.len() && ev1[j1] == ev0[j];
                assert(ev1[j1].event_type == kind);
            }
        }
    }
}

proof fn lemma_events_kept_push(ev: Seq<NextEvent>, x: NextEvent)
    ensures
        events_kept(ev, ev.push(x)),
        ev.push(x).contains(x),
{
    assert forall|k: int| 0 <= k < ev.len() implies ev.push(x).contains(#[trigger] ev[k]) by {
        assert(ev.push(x)[k] == ev[k]);
    }
    assert(ev.push(x)[ev.len() as int] == x);
}

proof fn lemma_events_kept_refl(a: Seq<NextEvent>)
    ensures
        events_kept(a, a),
{
    assert forall|k: int| 0 <= k < a.len() implies a.contains(#[trigger] a[k]) by {}
}

/// The time after which the sweep notes events: the time it is made for, or 0.
pub open spec fn after_time(only_for_time: Option<Time>) -> Time {
    match only_for_time {
        Some(t) => t,
        None => 0,
    }
}

proof fn lemma_events_kept_trans(a: Seq<NextEvent>, b: Seq<NextEvent>, c: Seq<NextEvent>)
    requires
        events_kept(a, b),
        events_kept(b, c),
    ensures
        events_kept(a, c),
{
    assert forall|k: int| 0 <= k < a.len() implies c.contains(#[trigger] a[k]) by {
        assert(b.contains(a[k]));
        let j = choose|j: int| 0 <= j < b.len() && b[j] == a[k];
        assert(c.contains(b[j]));
    }
}

fn layer_entries_index(states: &mut Vec<(String, Vec<(Time, Option<TimelineLayerState>)>)>, layer: &String) -> (r: usize)
    requires
        states_sorted(old(states)@),
    ensures
        forall|l: int, k: int|
            0 <= l < final(states)@.len() && 0 <= k < final(states)@[l].1@.len() ==> entry_in(
                old(states)@,
                #[trigger] final(states)@[l].1@[k],
            ),
        r < final(states)@.len(),
        final(states)@.len() >= old(states)@.len(),
        states_sorted(final(states)@),
        final(states)@[r as int].0@ == layer@,
        forall|j: int| 0 <= j < r ==> final(states)@[j].0@ != layer@,
        forall|k: Seq<char>| k != layer@ ==> #[trigger] state_lookup(final(states)@, k) == state_lookup(old(states)@, k),
        state_lookup(final(states)@, layer@) == match state_lookup(old(states)@, layer@) {
            Some(x) => Some(x),
            None => Some(Seq::<(Time, Option<TimelineLayerState>)>::empty()),
        },
        shown_ids(final(states)@) == shown_ids(old(states)@),
        states_on_own_layers(old(states)@) ==> states_on_own_layers(final(states)@),
{
    let mut i: usize = 0;
    assert(states@.skip(0) =~= states@);
    while i < states.len()
        invariant
            i <= states@.len(),
            states@ == old(states)@,
            states_sorted(states@),
            forall|j: int| 0 <= j < i ==> states@[j].0@ != layer@,
            state_lookup(states@, layer@) == state_lookup(states@.skip(i as int), layer@),
        decreases states@.len() - i,
    {
        assert(states@.skip(i as int)[0] == states@[i as int]);
        assert(states@.skip(i as int).drop_first() =~= states@.skip(i + 1));
        if states[i].0 == *layer {
            proof {
                assert forall|l: int, k: int| 0 <= l < states@.len() && 0 <= k < states@[l].1@.len() implies entry_in(
                    old(states)@,
                    #[trigger] states@[l].1@[k],
                ) by {
                    assert(old(states)@[l].1@[k] == states@[l].1@[k]);
                }
            }
            return i;
        }
        i = i + 1;
    }
    let ghost before = states@;
    assert(state_lookup(before, layer@) is None) by {
        assert(before.skip(before.len() as int) =~= Seq::<(String, Vec<(Time, Option<TimelineLayerState>)>)>::empty());
    }
    let e = (layer.clone(), Vec::new());
    states.push(e);
    proof {
        let s = states@;
        assert forall|l: int, a: int, b: int|
            0 <= l < s.len() && 0 <= a < b < s[l].1@.len() implies (#[trigger] s[l].1@[a]).0 < (#[trigger] s[l].1@[b]).0 by {
            assert(l < s.len() - 1);
            assert(s[l] == old(states)@[l]);
        }
        assert forall|k: Seq<char>| k != layer@ implies #[trigger] state_lookup(s, k) == state_lookup(before, k) by {
            lemma_state_lookup_push(before, e, k);
        }
        lemma_state_lookup_push(before, e, layer@);
        assert(e.1@ =~= Seq::<(Time, Option<TimelineLayerState>)>::empty());
        assert forall|l: int, k: int| states_on_own_layers(before) && 0 <= l < s.len() && 0 <= k < s[l].1@.len() implies entry_on_layer(
            #[trigger] s[l].1@[k],
            s[l].0@,
        ) by {
            assert(l < before.len());
            assert(s[l] == before[l]);
        }
        assert(shown_ids(s) =~= shown_ids(before)) by {
            assert forall|id: Seq<char>| shown_ids(s).contains(id) implies shown_ids(before).contains(id) by {
                let (l, k) = choose|l: int, k: int|
                    0 <= l < s.len() && 0 <= k < s[l].1@.len() && #[trigger] entry_shows(s[l].1@[k], id);
                assert(l < before.len());
                assert(s[l] == before[l]);
            }
            assert forall|id: Seq<char>| shown_ids(before).contains(id) implies shown_ids(s).contains(id) by {
                let (l, k) = choose|l: int, k: int|
                    0 <= l < before.len() && 0 <= k < before[l].1@.len() && #[trigger] entry_shows(before[l].1@[k], id);
                assert(s[l] == before[l]);
                assert(entry_shows(s[l].1@[k], id));
            }
        }
        assert forall|l: int, k: int| 0 <= l < s.len() && 0 <= k < s[l].1@.len() implies entry_in(before, #[trigger] s[l].1@[k]) by {
            assert(l < before.len());
            assert(s[l] == before[l]);
            assert(before[l].1@[k] == s[l].1@[k]);
        }
    }
    states.len() - 1
}

/// The entries of a layer are those it had, but for those at `time`.
pub open spec fn entries_kept(
    before: Seq<(Time, Option<TimelineLayerState>)>,
    after: Seq<(Time, Option<TimelineLayerState>)>,
    time: Time,
) -> bool {
    &&& forall|k: int| 0 <= k < before.len() && before[k].0 != time ==> after.contains(#[trigger] before[k])
    &&& forall|k: int| 0 <= k < after.len() && after[k].0 != time ==> before.contains(#[trigger] after[k])
}

/// The entries of a layer, none where it has none.
pub open spec fn layer_entries(
    states: Seq<(String, Vec<(Time, Option<TimelineLayerState>)>)>,
    layer: Seq<char>,
) -> Seq<(Time, Option<TimelineLayerState>)> {
    match state_lookup(states, layer) {
        Some(e) => e,
        None => Seq::empty(),
    }
}

/// Sets the state of a layer from `time` on; with no instance, the layer is
/// empty from then on.
#[verifier::spinoff_prover]
#[verifier::rlimit(50)]
pub fn set_state_at_time(
    states: &mut Vec<(String, Vec<(Time, Option<TimelineLayerState>)>)>,
    layer: &String,
    time: Time,
    instance: Option<&ResolvedTimelineObjectInstance>,
)
    requires
        states_sorted(old(states)@),
        instance matches Some(i) ==> i.info.layer@ == layer@ && !i.info.disabled,
    ensures
        states_sorted(final(states)@),
        final(states)@.len() >= old(states)@.len(),
        final(states)@.len() > 0,
        states_on_own_layers(old(states)@) ==> states_on_own_layers(final(states)@),
        forall|k: Seq<char>| k != layer@ ==> #[trigger] state_lookup(final(states)@, k) == state_lookup(old(states)@, k),
        state_lookup(final(states)@, layer@) is Some,
        entry_at(
            layer_entries(final(states)@, layer@),
            time,
            match instance {
                Some(i) => Some(i.info.id@),
                None => None,
            },
        ),
        entries_kept(layer_entries(old(states)@, layer@), layer_entries(final(states)@, layer@), time),
        forall|l: int, k: int|
            0 <= l < final(states)@.len() && 0 <= k < final(states)@[l].1@.len() ==> entry_in(
                old(states)@,
                #[trigger] final(states)@[l].1@[k],
            ) || (final(states)@[l].1@[k].0 == time && (final(states)@[l].1@[k].1 is Some <==> instance is Some)),
        shown_ids(final(states)@).subset_of(
            match instance {
                Some(i) => shown_ids(old(states)@).insert(i.info.id@),
                None => shown_ids(old(states)@),
            },
        ),
{
    let li = layer_entries_index(states, layer);
    let ghost mid = states@;
    let (name, mut entries) = states.remove(li);
    let mut p: usize = 0;
    while p < entries.len() && entries[p].0 < time
        invariant
            p <= entries@.len(),
            forall|k: int| 0 <= k < p ==> (#[trigger] entries@[k]).0 < time,
        decreases entries@.len() - p,
    {
        p = p + 1;
    }
    let ghost e0 = entries@;
    assert(forall|a: int, b: int| 0 <= a < b < e0.len() ==> (#[trigger] e0[a]).0 < (#[trigger] e0[b]).0) by {
        assert(mid[li as int].1@ == e0);
    }
    let exists_at = p < entries.len() && entries[p].0 == time;
    let state = match instance {
        Some(inst) => Some(layer_state_of(inst)),
        None => None,
    };
    let ghost new_entry = (time, state);
    if exists_at {
        entries.set(p, (time, state));
    } else {
        entries.insert(p, (time, state));
    }
    proof {
        let e1 = entries@;
        assert(e1[p as int] == new_entry);
        assert forall|a: int, b: int| 0 <= a < b < e1.len() implies (#[trigger] e1[a]).0 < (#[trigger] e1[b]).0 by {
            if p < e0.len() {
                assert(e0[p as int].0 >= time);
            }
            if a > 0 && a - 1 < e0.len() {
                assert(e0[a - 1].0 < e0[a].0 || a >= e0.len());
            }
        }
        assert forall|k: int| 0 <= k < e0.len() && e0[k].0 != time implies e1.contains(#[trigger] e0[k]) by {
            if exists_at {
                assert(e1[k] == e0[k]);
            } else if k < p {
                assert(e1[k] == e0[k]);
            } else {
                assert(e1[k + 1] == e0[k]);
            }
        }
        assert forall|k: int| 0 <= k < e1.len() && e1[k].0 != time implies e0.contains(#[trigger] e1[k]) by {
            if exists_at {
                assert(e1[k] == e0[k]);
            } else if k < p {
                assert(e1[k] == e0[k]);
            } else {
                assert(e1[k] == e0[k - 1]);
            }
        }
    }
    let ghost e1 = entries@;
    let ghost new_layer = (name, entries);
    states.insert(li, (name, entries));
    proof {
        let s = states@;
        assert(s =~= mid.update(li as int, new_layer));
        assert(s.len() == mid.len() && mid.len() >= old(states)@.len());
        assert forall|l: int, a: int, b: int|
            0 <= l < s.len() && 0 <= a < b < s[l].1@.len() implies (#[trigger] s[l].1@[a]).0 < (#[trigger] s[l].1@[b]).0 by {
            if l != li {
                assert(s[l] == mid[l]);
            }
        }
        assert forall|k: Seq<char>| k != layer@ implies #[trigger] state_lookup(s, k) == state_lookup(old(states)@, k) by {
            lemma_state_lookup_update(mid, li as int, new_layer, k);
        }
        lemma_state_lookup_update(mid, li as int, new_layer, layer@);
        assert(layer_entries(s, layer@) == e1);
        lemma_state_lookup_update(mid, li as int, mid[li as int], layer@);
        assert(mid.update(li as int, mid[li as int]) =~= mid);
        assert(layer_entries(old(states)@, layer@) == e0);
        assert(e1[p as int].0 == time);
        assert forall|l: int, k: int| states_on_own_layers(old(states)@) && 0 <= l < s.len() && 0 <= k < s[l].1@.len() implies entry_on_layer(
            #[trigger] s[l].1@[k],
            s[l].0@,
        ) by {
            assert(states_on_own_layers(mid));
            if l != li {
                assert(s[l] == mid[l]);
            } else if k != p {
                assert(e1[k].0 != time) by {
                    if k < p {
                        assert(e1[k].0 < e1[p as int].0);
                    } else {
                        assert(e1[p as int].0 < e1[k].0);
                    }
                }
                assert(e0.contains(e1[k]));
                let j = choose|j: int| 0 <= j < e0.len() && e0[j] == e1[k];
                assert(mid[li as int].1@[j] == e1[k]);
                assert(entry_on_layer(mid[li as int].1@[j], mid[li as int].0@));
            }
        }
        assert forall|l: int, k: int| 0 <= l < s.len() && 0 <= k < s[l].1@.len() implies entry_in(
            old(states)@,
            #[trigger] s[l].1@[k],
        ) || (s[l].1@[k].0 == time && (s[l].1@[k].1 is Some <==> instance is Some)) by {
            if l != li {
                assert(s[l] == mid[l]);
                assert(entry_in(old(states)@, mid[l].1@[k]));
            } else if k != p {
                assert(e1[k].0 != time) by {
                    if k < p {
                        assert(e1[k].0 < e1[p as int].0);
                    } else {
                        assert(e1[p as int].0 < e1[k].0);
                    }
                }
                assert(e0.contains(e1[k]));
                let j = choose|j: int| 0 <= j < e0.len() && e0[j] == e1[k];
                assert(mid[li as int].1@[j] == e1[k]);
                assert(entry_in(old(states)@, mid[li as int].1@[j]));
            }
        }
        let target = match instance {
            Some(i) => shown_ids(old(states)@).insert(i.info.id@),
            None => shown_ids(old(states)@),
        };
        assert forall|id: Seq<char>| shown_ids(s).contains(id) implies target.contains(id) by {
            let (l, k) = choose|l: int, k: int|
                0 <= l < s.len() && 0 <= k < s[l].1@.len() && #[trigger] entry_shows(s[l].1@[k], id);
            if l != li {
                assert(s[l] == mid[l]);
                assert(shown_ids(mid).contains(id));
            } else if e1[k].0 == time {
                assert(k == p) by {
                    if k < p {
                        assert(e1[k].0 < e1[p as int].0);
                    } else if k > p {
                        assert(e1[p as int].0 < e1[k].0);
                    }
                }
            } else {
                assert(e0.contains(e1[k]));
                let j = choose|j: int| 0 <= j < e0.len() && e0[j] == e1[k];
                assert(mid[li as int].1@[j] == e1[k]);
                assert(entry_shows(mid[li as int].1@[j], id));
                assert(shown_ids(mid).contains(id));
            }
        }
    }
}

/// The state of a layer from `time` on applies the keyframe `id`.
pub open spec fn entry_has_keyframe(entries: Seq<(Time, Option<TimelineLayerState>)>, time: Time, id: Seq<char>) -> bool {
    exists|k: int|
        0 <= k < entries.len() && entries[k].0 == time && match entries[k].1 {
            Some(st) => keyframe_ids(st.keyframes@).contains(id),
            None => false,
        }
}

/// The layer has an entry at `time` that shows something.
pub open spec fn shows_at(entries: Seq<(Time, Option<TimelineLayerState>)>, time: Time) -> bool {
    exists|k: int| 0 <= k < entries.len() && entries[k].0 == time && entries[k].1 is Some
}

/// The layer has an entry at `time`.
pub open spec fn has_entry_at(entries: Seq<(Time, Option<TimelineLayerState>)>, time: Time) -> bool {
    exists|k: int| 0 <= k < entries.len() && entries[k].0 == time
}

/// The times of the entries rise strictly.
pub open spec fn entries_sorted(e: Seq<(Time, Option<TimelineLayerState>)>) -> bool {
    forall|a: int, b: int| 0 <= a < b < e.len() ==> (#[trigger] e[a]).0 < (#[trigger] e[b]).0
}

/// Some entry shows the object `id`.
pub open spec fn entries_show(e: Seq<(Time, Option<TimelineLayerState>)>, id: Seq<char>) -> bool {
    exists|k: int| 0 <= k < e.len() && #[trigger] entry_shows(e[k], id)
}

#[verifier::spinoff_prover]
fn add_keyframe_to_entries(
    entries: &mut Vec<(Time, Option<TimelineLayerState>)>,
    time: Time,
    keyframe: ResolvedTimelineObjectInstanceKeyframe,
    current: &ResolvedTimelineObjectInstance,
    create: bool,
)
    requires
        entries_sorted(old(entries)@),
    ensures
        entries_sorted(final(entries)@),
        (forall|k: int| 0 <= k < old(entries)@.len() ==> entry_on_layer(#[trigger] old(entries)@[k], current.info.layer@))
            && !current.info.disabled ==> forall|k: int|
            0 <= k < final(entries)@.len() ==> entry_on_layer(#[trigger] final(entries)@[k], current.info.layer@),
        entries_kept(old(entries)@, final(entries)@, time),
        forall|k: int|
            0 <= k < final(entries)@.len() ==> old(entries)@.contains(#[trigger] final(entries)@[k]) || (final(entries)@[k].1 matches Some(st)
                && st.keyframes@.len() > 0),
        shows_at(old(entries)@, time) || (create && !has_entry_at(old(entries)@, time)) ==> entry_has_keyframe(
            final(entries)@,
            time,
            keyframe.info.id@,
        ),
        forall|id: Seq<char>| entries_show(final(entries)@, id) ==> entries_show(old(entries)@, id) || id == current.info.id@,
{
    let ghost e0 = entries@;
    let ghost kid = keyframe.info.id@;
    let mut p: usize = 0;
    while p < entries.len() && entries[p].0 < time
        invariant
            p <= entries@.len(),
            entries@ == e0,
            forall|k: int| 0 <= k < p ==> (#[trigger] entries@[k]).0 < time,
        decreases entries@.len() - p,
    {
        p = p + 1;
    }
    let exists_at = p < entries.len() && entries[p].0 == time;
    if exists_at {
        let (t, state) = entries.remove(p);
        let state = match state {
            Some(mut st) => {
                let ghost before_kfs = st.keyframes@;
                st.keyframes.push(keyframe);
                assert(keyframe_ids(st.keyframes@)[before_kfs.len() as int] == kid);
                Some(st)
            },
            None => None,
        };
        entries.insert(p, (t, state));
        assert(entries@ =~= e0.update(p as int, (t, state)));
        assert(entries@[p as int].0 == time);
        assert(e0.contains(entries@[p as int]) || (entries@[p as int].1 matches Some(st) && st.keyframes@.len() > 0)) by {
            if e0[p as int].1 is None {
                assert(entries@[p as int] == e0[p as int]);
            }
        }
    } else if create {
        let mut state = layer_state_of(current);
        state.keyframes.push(keyframe);
        assert(keyframe_ids(state.keyframes@)[0] == kid);
        entries.insert(p, (time, Some(state)));
        assert(entries@[p as int].0 == time);
    }
    proof {
        let e1 = entries@;
        assert forall|a: int, b: int| 0 <= a < b < e1.len() implies (#[trigger] e1[a]).0 < (#[trigger] e1[b]).0 by {
            if p < e0.len() {
                assert(e0[p as int].0 >= time);
            }
        }
        assert forall|k: int| 0 <= k < e0.len() && e0[k].0 != time implies e1.contains(#[trigger] e0[k]) by {
            if exists_at || !create {
                assert(e1[k] == e0[k]);
            } else if k < p {
                assert(e1[k] == e0[k]);
            } else {
                assert(e1[k + 1] == e0[k]);
            }
        }
        assert forall|k: int| 0 <= k < e1.len() && e1[k].0 != time implies e0.contains(#[trigger] e1[k]) by {
            if exists_at || !create {
                assert(e1[k] == e0[k]);
            } else if k < p {
                assert(e1[k] == e0[k]);
            } else {
                assert(k != p);
                assert(e1[k] == e0[k - 1]);
            }
        }
        if shows_at(e0, time) {
            let k0 = choose|k: int| 0 <= k < e0.len() && e0[k].0 == time && e0[k].1 is Some;
            assert(k0 == p) by {
                if k0 < p {
                    assert(e0[k0].0 < time);
                }
                if k0 > p && p < e0.len() {
                    assert(e0[p as int].0 < e0[k0].0);
                }
            }
            assert(exists_at);
            assert(e1[p as int].1 is Some);
        }
        assert forall|k: int| 0 <= k < e1.len() implies e0.contains(#[trigger] e1[k]) || (e1[k].1 matches Some(st)
            && st.keyframes@.len() > 0) by {
            if exists_at && k == p {
            } else if !exists_at && create && k == p {
            } else {
                let j = if exists_at || !create || k < p {
                    k
                } else {
                    k - 1
                };
                assert(e1[k] == e0[j]);
            }
        }
        let cl = current.info.layer@;
        assert forall|k: int|
            (forall|j: int| 0 <= j < e0.len() ==> entry_on_layer(#[trigger] e0[j], cl)) && !current.info.disabled && 0
                <= k < e1.len() implies entry_on_layer(
            #[trigger] e1[k],
            cl,
        ) by {
            if exists_at && k == p {
                assert(entry_on_layer(e0[k], cl));
            } else if !exists_at && create && k == p {
            } else {
                let j = if exists_at || !create || k < p {
                    k
                } else {
                    k - 1
                };
                assert(e1[k] == e0[j]);
                assert(entry_on_layer(e0[j], cl));
            }
        }
        assert forall|id: Seq<char>| entries_show(e1, id) implies entries_show(e0, id) || id == current.info.id@ by {
            let k = choose|k: int| 0 <= k < e1.len() && #[trigger] entry_shows(e1[k], id);
            if exists_at && k == p {
                assert(entry_shows(e0[k], id));
            } else if !exists_at && create && k == p {
            } else {
                let j = if exists_at || !create || k < p {
                    k
                } else {
                    k - 1
                };
                assert(e1[k] == e0[j]);
                assert(entry_shows(e0[j], id));
            }
        }
    }
}

/// Adds a keyframe to the state of a layer at `time`. Where the layer has
/// no state at that time and `create` is set, the state it has (that of
/// `current`) starts again at `time`, with the keyframe.
#[verifier::spinoff_prover]
pub fn add_keyframe_at_time(
    states: &mut Vec<(String, Vec<(Time, Option<TimelineLayerState>)>)>,
    layer: &String,
    time: Time,
    keyframe: ResolvedTimelineObjectInstanceKeyframe,
    current: &ResolvedTimelineObjectInstance,
    create: bool,
)
    requires
        states_sorted(old(states)@),
        current.info.layer@ == layer@,
        !current.info.disabled,
    ensures
        states_sorted(final(states)@),
        final(states)@.len() >= old(states)@.len(),
        state_lookup(final(states)@, layer@) is Some,
        states_on_own_layers(old(states)@) ==> states_on_own_layers(final(states)@),
        forall|k: Seq<char>| k != layer@ ==> #[trigger] state_lookup(final(states)@, k) == state_lookup(old(states)@, k),
        entries_kept(layer_entries(old(states)@, layer@), layer_entries(final(states)@, layer@), time),
        forall|l: int, k: int|
            0 <= l < final(states)@.len() && 0 <= k < final(states)@[l].1@.len() ==> entry_in(
                old(states)@,
                #[trigger] final(states)@[l].1@[k],
            ) || (final(states)@[l].1@[k].1 matches Some(st) && st.keyframes@.len() > 0),
        shows_at(layer_entries(old(states)@, layer@), time) || (create && !has_entry_at(
            layer_entries(old(states)@, layer@),
            time,
        )) ==> entry_has_keyframe(layer_entries(final(states)@, layer@), time, keyframe.info.id@),
        shown_ids(final(states)@).subset_of(shown_ids(old(states)@).insert(current.info.id@)),
{
    let li = layer_entries_index(states, layer);
    let ghost mid = states@;
    let (name, mut entries) = states.remove(li);
    let ghost e0 = entries@;
    assert(entries_sorted(e0)) by {
        assert(mid[li as int].1@ == e0);
    }
    let ghost cid = current.info.id@;
    add_keyframe_to_entries(&mut entries, time, keyframe, current, create);
    let ghost e1 = entries@;
    let ghost new_layer = (name, entries);
    states.insert(li, (name, entries));
    proof {
        let s = states@;
        assert(s =~= mid.update(li as int, new_layer));
        assert forall|l: int, a: int, b: int|
            0 <= l < s.len() && 0 <= a < b < s[l].1@.len() implies (#[trigger] s[l].1@[a]).0 < (#[trigger] s[l].1@[b]).0 by {
            if l != li {
                assert(s[l] == mid[l]);
            }
        }
        assert forall|k: Seq<char>| k != layer@ implies #[trigger] state_lookup(s, k) == state_lookup(old(states)@, k) by {
            lemma_state_lookup_update(mid, li as int, new_layer, k);
        }
        lemma_state_lookup_update(mid, li as int, new_layer, layer@);
        lemma_state_lookup_update(mid, li as int, mid[li as int], layer@);
        assert(mid.update(li as int, mid[li as int]) =~= mid);
        assert(layer_entries(s, layer@) == e1);
        assert(layer_entries(old(states)@, layer@) == e0);
        if states_on_own_layers(old(states)@) {
            assert(states_on_own_layers(mid));
            assert forall|j: int| 0 <= j < e0.len() implies entry_on_layer(#[trigger] e0[j], current.info.layer@) by {
                assert(mid[li as int].1@[j] == e0[j]);
                assert(entry_on_layer(mid[li as int].1@[j], mid[li as int].0@));
            }
            assert forall|l: int, k: int| 0 <= l < s.len() && 0 <= k < s[l].1@.len() implies entry_on_layer(
                #[trigger] s[l].1@[k],
                s[l].0@,
            ) by {
                if l != li {
                    assert(s[l] == mid[l]);
                } else {
                    assert(s[l].1@ == e1);
                    assert(entry_on_layer(e1[k], current.info.layer@));
                }
            }
        }
        assert forall|l: int, k: int| 0 <= l < s.len() && 0 <= k < s[l].1@.len() implies entry_in(
            old(states)@,
            #[trigger] s[l].1@[k],
        ) || (s[l].1@[k].1 matches Some(st) && st.keyframes@.len() > 0) by {
            if l != li {
                assert(s[l] == mid[l]);
                assert(entry_in(old(states)@, mid[l].1@[k]));
            } else {
                assert(s[l].1@ == e1);
                if e0.contains(e1[k]) {
                    let j = choose|j: int| 0 <= j < e0.len() && e0[j] == e1[k];
                    assert(mid[li as int].1@[j] == e1[k]);
                    assert(entry_in(old(states)@, mid[li as int].1@[j]));
                }
            }
        }
        assert forall|id: Seq<char>| shown_ids(s).contains(id) implies shown_ids(old(states)@).insert(cid).contains(id) by {
            let (l, k) = choose|l: int, k: int|
                0 <= l < s.len() && 0 <= k < s[l].1@.len() && #[trigger] entry_shows(s[l].1@[k], id);
            if l != li {
                assert(s[l] == mid[l]);
                assert(shown_ids(mid).contains(id));
            } else {
                assert(entries_show(e1, id));
                if id != cid {
                    assert(entries_show(e0, id));
                    let j = choose|j: int| 0 <= j < e0.len() && #[trigger] entry_shows(e0[j], id);
                    assert(mid[li as int].1@[j] == e0[j]);
                    assert(shown_ids(mid).contains(id));
                }
            }
        }
    }
}

/// Some entry of the list holds the value `x`.
pub open spec fn value_in(v: Seq<(String, usize)>, x: usize) -> bool {
    exists|j: int| 0 <= j < v.len() && v[j].1 == x
}

/// Some entry of the list is under `key`.
pub open spec fn has_key(v: Seq<(String, usize)>, key: Seq<char>) -> bool {
    exists|j: int| 0 <= j < v.len() && v[j].0@ == key
}

/// `i` is the first entry of the list under `key`.
pub open spec fn first_key(v: Seq<(String, usize)>, key: Seq<char>, i: int) -> bool {
    0 <= i < v.len() && v[i].0@ == key && forall|j: int| 0 <= j < i ==> v[j].0@ != key
}

/// The first entry under `key`, if any.
fn key_index(v: &Vec<(String, usize)>, key: &String) -> (r: Option<usize>)
    ensures
        match r {
            Some(i) => i < v@.len() && v@[i as int].0@ == key@ && first_key(v@, key@, i as int),
            None => !has_key(v@, key@),
        },
{
    let mut i: usize = 0;
    while i < v.len()
        invariant
            i <= v@.len(),
            forall|j: int| 0 <= j < i ==> v@[j].0@ != key@,
        decreases v@.len() - i,
    {
        if v[i].0 == *key {
            return Some(i);
        }
        i = i + 1;
    }
    None
}

/// Sets the value of the first entry under `key`, or adds an entry.
fn set_key(v: &mut Vec<(String, usize)>, key: &String, value: usize)
    ensures
        if has_key(old(v)@, key@) {
            exists|i: int|
                first_key(old(v)@, key@, i) && final(v)@.len() == old(v)@.len() && final(v)@[i].0@ == key@
                    && final(v)@[i].1 == value && forall|j: int|
                    0 <= j < old(v)@.len() && j != i ==> #[trigger] final(v)@[j] == old(v)@[j]
        } else {
            &&& final(v)@.len() == old(v)@.len() + 1
            &&& final(v)@[old(v)@.len() as int].0@ == key@
            &&& final(v)@[old(v)@.len() as int].1 == value
            &&& forall|j: int| 0 <= j < old(v)@.len() ==> #[trigger] final(v)@[j] == old(v)@[j]
        },
        forall|k: int| 0 <= k < final(v)@.len() ==> (#[trigger] final(v)@[k]).1 == value || value_in(old(v)@, final(v)@[k].1),
        forall|k: int|
            0 <= k < final(v)@.len() ==> old(v)@.contains(#[trigger] final(v)@[k]) || (final(v)@[k].0@ == key@
                && final(v)@[k].1 == value),
{
    match key_index(v, key) {
        Some(i) => {
            v.set(i, (key.clone(), value));
        },
        None => {
            v.push((key.clone(), value));
        },
    }
    proof {
        assert forall|k: int| 0 <= k < v@.len() implies (#[trigger] v@[k]).1 == value || value_in(old(v)@, v@[k].1) by {
            if v@[k].1 != value {
                assert(old(v)@[k].1 == v@[k].1);
            }
        }
        assert forall|k: int| 0 <= k < v@.len() implies old(v)@.contains(#[trigger] v@[k]) || (v@[k].0@ == key@
            && v@[k].1 == value) by {
            if k < old(v)@.len() && v@[k] == old(v)@[k] {
                assert(old(v)@.contains(old(v)@[k]));
            }
        }
    }
}

/// Removes the first entry under `key`, if any.
fn remove_key(v: &mut Vec<(String, usize)>, key: &String)
    ensures
        if has_key(old(v)@, key@) {
            exists|i: int| first_key(old(v)@, key@, i) && final(v)@ == old(v)@.remove(i)
        } else {
            final(v)@ == old(v)@
        },
        forall|k: int| 0 <= k < final(v)@.len() ==> value_in(old(v)@, (#[trigger] final(v)@[k]).1),
        forall|k: int| 0 <= k < final(v)@.len() ==> old(v)@.contains(#[trigger] final(v)@[k]),
{
    match key_index(v, key) {
        Some(i) => {
            let ghost before = v@;
            v.remove(i);
            proof {
                assert forall|k: int| 0 <= k < v@.len() implies value_in(before, (#[trigger] v@[k]).1) && before.contains(
                    v@[k],
                ) by {
                    if k < i {
                        assert(before[k] == v@[k]);
                    } else {
                        assert(before[k + 1] == v@[k]);
                    }
                }
            }
        },
        None => {
            assert forall|k: int| 0 <= k < v@.len() implies value_in(old(v)@, (#[trigger] v@[k]).1) && old(v)@.contains(
                v@[k],
            ) by {
                assert(old(v)@[k] == v@[k]);
            }
        },
    }
}

/// Whether the list holds the time `t`.
fn contains_time(v: &Vec<Time>, t: Time) -> (b: bool)
    ensures
        b == v@.contains(t),
{
    let mut i: usize = 0;
    while i < v.len()
        invariant
            i <= v@.len(),
            forall|j: int| 0 <= j < i ==> v@[j] != t,
        decreases v@.len() - i,
    {
        if v[i] == t {
            return true;
        }
        i = i + 1;
    }
    false
}

/// The strings of the list that are not `s`, in order.
pub open spec fn without_string(v: Seq<String>, s: Seq<char>) -> Seq<String> {
    v.filter(not_string(s))
}

/// Whether a string is other than `s`.
pub open spec fn not_string(s: Seq<char>) -> spec_fn(String) -> bool {
    |x: String| x@ != s
}

/// Filtering one string more adds it where it is not `s`.
proof fn lemma_without_string_step(v: Seq<String>, s: Seq<char>, n: int)
    requires
        0 <= n < v.len(),
    ensures
        without_string(v.take(n + 1), s) == if v[n]@ != s {
            without_string(v.take(n), s).push(v[n])
        } else {
            without_string(v.take(n), s)
        },
{
    reveal(Seq::filter);
    assert(v.take(n + 1).drop_last() =~= v.take(n));
    assert(v.take(n + 1).last() == v[n]);
}

/// Removes every copy of `s` from the list.
fn remove_string(v: &mut Vec<String>, s: &String)
    ensures
        final(v)@ == without_string(old(v)@, s@),
{
    let ghost orig = v@;
    let ghost mut n: int = 0;
    let mut i: usize = 0;
    proof {
        reveal(Seq::filter);
        assert(orig.take(0) =~= Seq::<String>::empty());
        assert(orig.skip(0) =~= orig);
        assert(v@ =~= without_string(orig.take(0), s@) + orig.skip(0));
    }
    while i < v.len()
        invariant
            0 <= n <= orig.len(),
            orig == old(v)@,
            i == without_string(orig.take(n), s@).len(),
            v@ == without_string(orig.take(n), s@) + orig.skip(n),
        decreases v@.len() - i,
    {
        proof {
            assert(v@[i as int] == orig[n]);
            lemma_without_string_step(orig, s@, n);
        }
        if v[i] == *s {
            v.remove(i);
        } else {
            i = i + 1;
        }
        proof {
            n = n + 1;
            assert(v@ =~= without_string(orig.take(n), s@) + orig.skip(n));
        }
    }
    proof {
        assert(n == orig.len());
        assert(orig.take(n) =~= orig);
        assert(orig.skip(n) =~= Seq::<String>::empty());
        assert(v@ =~= without_string(orig, s@));
    }
}

/// The work state of the sweep over the points in time.
struct Sweep {
    /// The instances that may become the state of a layer
    arena: Vec<ResolvedTimelineObjectInstance>,
    /// For each layer, the instances that want to be its state, the one
    /// taking precedence first
    aspiring: Vec<(String, Vec<usize>)>,
    /// For each layer, its state (by its place in `shown`)
    current: Vec<(String, usize)>,
    /// For each object that is the state of a layer, that state
    active: Vec<(String, usize)>,
    /// The states that layers have had
    shown: Vec<ResolvedTimelineObjectInstance>,
    /// The keyframes that are on, by id
    active_keyframes: Vec<(String, usize)>,
    /// The keyframes that have been added to a state
    checked_keyframes: Vec<String>,
    /// The times that have an event
    event_object_times: Vec<Time>,
    keyframe_events: Vec<NextEvent>,
    states: ResolvedStates,
    /// The ids of the objects of the timeline
    ids: Ghost<Set<Seq<char>>>,
}

impl Sweep {
    spec fn wf(&self) -> bool {
        &&& forall|k: int, m: int|
            0 <= k < self.aspiring@.len() && 0 <= m < self.aspiring@[k].1@.len() ==> #[trigger] self.aspiring@[k].1@[m]
                < self.arena@.len()
        &&& self.current@.len() > 0 ==> self.states.state@.len() > 0
        &&& forall|k: int, m: int|
            0 <= k < self.aspiring@.len() && 0 <= m < self.aspiring@[k].1@.len() ==> self.arena@[#[trigger] self.aspiring@[k].1@[m] as int].info.layer@
                == self.aspiring@[k].0@
        &&& forall|k: int|
            0 <= k < self.states.objects@.len() ==> exists|y: int|
                0 <= y < self.arena@.len() && self.arena@[y].info.id@ == (#[trigger] self.states.objects@[k]).info.id@
                    && self.arena@[y].info.layer@ == self.states.objects@[k].info.layer@
        &&& forall|k: int| 0 <= k < self.current@.len() ==> state_lookup(self.states.state@, (#[trigger] self.current@[k]).0@) is Some
        &&& forall|k: int| 0 <= k < self.current@.len() ==> (#[trigger] self.current@[k]).1 < self.shown@.len()
        &&& forall|k: int|
            0 <= k < self.current@.len() ==> self.shown@[(#[trigger] self.current@[k]).1 as int].info.layer@
                == self.current@[k].0@
        &&& states_on_own_layers(self.states.state@)
        &&& forall|k: int| 0 <= k < self.arena@.len() ==> !(#[trigger] self.arena@[k]).info.disabled
        &&& forall|k: int| 0 <= k < self.shown@.len() ==> !(#[trigger] self.shown@[k]).info.disabled
        &&& forall|k: int| 0 <= k < self.states.objects@.len() ==> !(#[trigger] self.states.objects@[k]).info.disabled
        &&& forall|k: int| 0 <= k < self.active@.len() ==> (#[trigger] self.active@[k]).1 < self.shown@.len()
        &&& forall|k: int|
            0 <= k < self.active_keyframes@.len() ==> (#[trigger] self.active_keyframes@[k]).1 < self.arena@.len()
        &&& states_sorted(self.states.state@)
        &&& forall|k: int| 0 <= k < self.arena@.len() ==> self.ids@.contains((#[trigger] self.arena@[k]).info.id@)
        &&& forall|k: int| 0 <= k < self.shown@.len() ==> self.ids@.contains((#[trigger] self.shown@[k]).info.id@)
        &&& shown_ids(self.states.state@).subset_of(self.ids@)
        &&& forall|k: int|
            0 <= k < self.states.next_events@.len() ==> self.ids@.contains(
                (#[trigger] self.states.next_events@[k]).object_id@,
            )
        &&& forall|k: int|
            0 <= k < self.keyframe_events@.len() ==> self.ids@.contains((#[trigger] self.keyframe_events@[k]).object_id@)
        &&& forall|k: int| 0 <= k < self.aspiring@.len() ==> precedence_sorted(self.arena@, #[trigger] self.aspiring@[k].1@)
    }
}

/// The ids of the objects of a resolved timeline.
pub open spec fn object_ids(objects: Seq<ResolvedTimelineObject>) -> Set<Seq<char>> {
    Set::new(|id: Seq<char>| exists|k: int| 0 <= k < objects.len() && objects[k].info.id@ == id)
}

/// `a` takes precedence after `b` on a layer: it has a lower priority; or
/// the same, and it started earlier; or that too, and a smaller id.
pub open spec fn aspiring_after_spec(a: ResolvedTimelineObjectInstance, b: ResolvedTimelineObjectInstance) -> bool {
    if a.info.priority != b.info.priority {
        a.info.priority < b.info.priority
    } else if a.instance.start != b.instance.start {
        a.instance.start < b.instance.start
    } else {
        seq_less(a.info.id@, b.info.id@)
    }
}

/// Precedence between two instances on a layer: of two priorities the
/// higher goes first, whatever the starts; at equal priority the later start
/// goes first; at equal priority and start, the greater id. Of two
/// instances that differ in priority, start or id, exactly one goes first;
/// of two that differ in none, neither.
pub proof fn lemma_precedence(a: ResolvedTimelineObjectInstance, b: ResolvedTimelineObjectInstance)
    ensures
        a.info.priority > b.info.priority ==> aspiring_after_spec(b, a) && !aspiring_after_spec(a, b),
        a.info.priority == b.info.priority && a.instance.start > b.instance.start ==> aspiring_after_spec(b, a)
            && !aspiring_after_spec(a, b),
        a.info.priority == b.info.priority && a.instance.start == b.instance.start && seq_less(b.info.id@, a.info.id@)
            ==> aspiring_after_spec(b, a) && !aspiring_after_spec(a, b),
        !aspiring_after_spec(a, b) || !aspiring_after_spec(b, a),
        a.info.priority != b.info.priority || a.instance.start != b.instance.start || a.info.id@ != b.info.id@
            ==> aspiring_after_spec(a, b) || aspiring_after_spec(b, a),
{
    lemma_seq_less_asymmetric(a.info.id@, b.info.id@);
    lemma_seq_less_asymmetric(b.info.id@, a.info.id@);
    lemma_seq_less_total(a.info.id@, b.info.id@);
}

/// Going no later is transitive: where `x` goes no later than `y`, and `y`
/// no later than `z`, `x` goes no later than `z`.
proof fn lemma_not_after_transitive(
    x: ResolvedTimelineObjectInstance,
    y: ResolvedTimelineObjectInstance,
    z: ResolvedTimelineObjectInstance,
)
    requires
        !aspiring_after_spec(x, y),
        !aspiring_after_spec(y, z),
    ensures
        !aspiring_after_spec(x, z),
{
    if x.info.priority == y.info.priority && y.info.priority == z.info.priority && x.instance.start == y.instance.start
        && y.instance.start == z.instance.start && seq_less(x.info.id@, z.info.id@) {
        lemma_seq_less_total(x.info.id@, y.info.id@);
        if x.info.id@ != y.info.id@ {
            lemma_seq_less_transitive(y.info.id@, x.info.id@, z.info.id@);
        }
    }
}

/// Of the instances that `l` lists, none goes after one listed later.
pub open spec fn precedence_sorted(arena: Seq<ResolvedTimelineObjectInstance>, l: Seq<usize>) -> bool {
    forall|m1: int, m2: int|
        #![trigger l[m1], l[m2]]
        0 <= m1 < m2 < l.len() ==> !aspiring_after_spec(arena[l[m1] as int], arena[l[m2] as int])
}

/// Inserting an instance before the first listed instance that goes after
/// it, past all that do not, keeps a list in order of precedence.
proof fn lemma_insert_sorted(arena: Seq<ResolvedTimelineObjectInstance>, l: Seq<usize>, p: int, x: usize)
    requires
        precedence_sorted(arena, l),
        0 <= p <= l.len(),
        forall|m: int| p <= m < l.len() ==> aspiring_after_spec(arena[#[trigger] l[m] as int], arena[x as int]),
        p > 0 ==> !aspiring_after_spec(arena[l[p - 1] as int], arena[x as int]),
    ensures
        precedence_sorted(arena, l.insert(p, x)),
{
    let n = l.insert(p, x);
    assert forall|m1: int, m2: int| 0 <= m1 < m2 < n.len() implies !aspiring_after_spec(
        arena[n[m1] as int],
        arena[n[m2] as int],
    ) by {
        let i1 = if m1 < p { m1 } else { m1 - 1 };
        let i2 = if m2 < p { m2 } else { m2 - 1 };
        if m1 == p {
            assert(n[m2] == l[i2]);
            assert(aspiring_after_spec(arena[l[i2] as int], arena[x as int]));
            lemma_precedence(arena[l[i2] as int], arena[x as int]);
        } else if m2 == p {
            assert(n[m1] == l[m1]);
            if m1 < p - 1 {
                assert(!aspiring_after_spec(arena[l[m1] as int], arena[l[p - 1] as int]));
                lemma_not_after_transitive(arena[l[m1] as int], arena[l[p - 1] as int], arena[x as int]);
            }
        } else {
            assert(n[m1] == l[i1]);
            assert(n[m2] == l[i2]);
            assert(i1 < i2);
        }
    }
}

/// Keeping some of the instances of a list keeps it in order of
/// precedence.
proof fn lemma_filter_sorted(arena: Seq<ResolvedTimelineObjectInstance>, l: Seq<usize>, pred: spec_fn(usize) -> bool)
    requires
        precedence_sorted(arena, l),
    ensures
        precedence_sorted(arena, l.filter(pred)),
    decreases l.len(),
{
    reveal(Seq::filter);
    if l.len() > 0 {
        let d = l.drop_last();
        assert forall|m1: int, m2: int| 0 <= m1 < m2 < d.len() implies !aspiring_after_spec(
            arena[d[m1] as int],
            arena[d[m2] as int],
        ) by {
            assert(d[m1] == l[m1] && d[m2] == l[m2]);
        }
        lemma_filter_sorted(arena, d, pred);
        let sub = d.filter(pred);
        if pred(l.last()) {
            let f = sub.push(l.last());
            assert(l.filter(pred) == f);
            assert forall|m1: int, m2: int| 0 <= m1 < m2 < f.len() implies !aspiring_after_spec(
                arena[f[m1] as int],
                arena[f[m2] as int],
            ) by {
                if m2 == sub.len() {
                    let e = f[m1];
                    assert(sub.contains(e));
                    d.lemma_filter_contains_rev(pred, e);
                    let j = choose|j: int| 0 <= j < d.len() && d[j] == e;
                    assert(l[j] == e);
                    assert(f[m2] == l[l.len() - 1]);
                } else {
                    assert(f[m1] == sub[m1] && f[m2] == sub[m2]);
                }
            }
        }
    }
}

/// Whether `a` takes precedence after `b` on a layer.
fn aspiring_after(a: &ResolvedTimelineObjectInstance, b: &ResolvedTimelineObjectInstance) -> (r: bool)
    ensures
        r == aspiring_after_spec(*a, *b),
{
    if a.info.priority != b.info.priority {
        a.info.priority < b.info.priority
    } else if a.instance.start != b.instance.start {
        a.instance.start < b.instance.start
    } else {
        string_less(&a.info.id, &b.info.id)
    }
}

/// The candidates listed under the first entry named `layer`, none where
/// there is no such entry.
pub open spec fn aspirants(a: Seq<(String, Vec<usize>)>, layer: Seq<char>) -> Seq<usize>
    decreases a.len(),
{
    if a.len() == 0 {
        Seq::empty()
    } else if a[0].0@ == layer {
        a[0].1@
    } else {
        aspirants(a.drop_first(), layer)
    }
}

/// Pushing an empty entry changes no layer's candidates.
proof fn lemma_aspirants_push(a: Seq<(String, Vec<usize>)>, e: (String, Vec<usize>), k: Seq<char>)
    requires
        e.1@.len() == 0,
    ensures
        aspirants(a.push(e), k) == aspirants(a, k),
    decreases a.len(),
{
    if a.len() > 0 {
        assert(a.push(e)[0] == a[0]);
        assert(a.push(e).drop_first() =~= a.drop_first().push(e));
        lemma_aspirants_push(a.drop_first(), e, k);
    } else {
        assert(a.push(e).drop_first() =~= Seq::<(String, Vec<usize>)>::empty());
        assert(e.1@ =~= Seq::<usize>::empty());
        assert(a.push(e)[0] == e);
        assert(aspirants(a.push(e).drop_first(), k) == Seq::<usize>::empty());
        assert(aspirants(a, k) == Seq::<usize>::empty());
        assert(aspirants(a.push(e), k) =~= Seq::<usize>::empty());
    }
}

/// Replacing the first entry of a layer replaces that layer's candidates.
proof fn lemma_aspirants_update(a: Seq<(String, Vec<usize>)>, i: int, e: (String, Vec<usize>), k: Seq<char>)
    requires
        0 <= i < a.len(),
        e.0@ == a[i].0@,
        forall|j: int| 0 <= j < i ==> a[j].0@ != a[i].0@,
    ensures
        aspirants(a.update(i, e), k) == if k == a[i].0@ {
            e.1@
        } else {
            aspirants(a, k)
        },
    decreases i,
{
    if i > 0 {
        assert(a.update(i, e)[0] == a[0]);
        assert(a.update(i, e).drop_first() =~= a.drop_first().update(i - 1, e));
        lemma_aspirants_update(a.drop_first(), i - 1, e, k);
    } else {
        assert(a.update(i, e)[0] == e);
        assert(a.update(i, e).drop_first() =~= a.drop_first());
    }
}

/// The first entry of a layer holds its candidates.
proof fn lemma_aspirants_first(a: Seq<(String, Vec<usize>)>, i: int)
    requires
        0 <= i < a.len(),
        forall|j: int| 0 <= j < i ==> a[j].0@ != a[i].0@,
    ensures
        aspirants(a, a[i].0@) == a[i].1@,
    decreases i,
{
    if i > 0 {
        assert(a.drop_first()[i - 1] == a[i]);
        lemma_aspirants_first(a.drop_first(), i - 1);
    }
}

/// Filtering the first `n + 1` items adds the last one where it passes.
proof fn lemma_filter_take_step<A>(v: Seq<A>, pred: spec_fn(A) -> bool, n: int)
    requires
        0 <= n < v.len(),
    ensures
        v.take(n + 1).filter(pred) == if pred(v[n]) {
            v.take(n).filter(pred).push(v[n])
        } else {
            v.take(n).filter(pred)
        },
{
    reveal(Seq::filter);
    assert(v.take(n + 1).drop_last() =~= v.take(n));
    assert(v.take(n + 1).last() == v[n]);
}

/// Whether a candidate is of an object other than `id`.
pub open spec fn other_object(arena: Seq<ResolvedTimelineObjectInstance>, id: Seq<char>) -> spec_fn(usize) -> bool {
    |x: usize| arena[x as int].info.id@ != id
}

fn layer_index(aspiring: &mut Vec<(String, Vec<usize>)>, layer: &String) -> (r: usize)
    ensures
        r < final(aspiring)@.len(),
        final(aspiring)@.len() >= old(aspiring)@.len(),
        forall|k: int| 0 <= k < old(aspiring)@.len() ==> #[trigger] final(aspiring)@[k] == old(aspiring)@[k],
        forall|k: int| old(aspiring)@.len() <= k < final(aspiring)@.len() ==> (#[trigger] final(aspiring)@[k]).1@.len() == 0,
        final(aspiring)@[r as int].0@ == layer@,
        forall|j: int| 0 <= j < r ==> final(aspiring)@[j].0@ != layer@,
        final(aspiring)@.len() <= old(aspiring)@.len() + 1,
        final(aspiring)@.len() == old(aspiring)@.len() + 1 ==> final(aspiring)@ == old(aspiring)@.push(final(aspiring)@[r as int]),
{
    let mut i: usize = 0;
    while i < aspiring.len()
        invariant
            i <= aspiring@.len(),
            aspiring@ == old(aspiring)@,
            forall|j: int| 0 <= j < i ==> aspiring@[j].0@ != layer@,
        decreases aspiring@.len() - i,
    {
        if aspiring[i].0 == *layer {
            return i;
        }
        i = i + 1;
    }
    aspiring.push((layer.clone(), Vec::new()));
    assert(aspiring@ =~= old(aspiring)@.push(aspiring@[aspiring@.len() - 1]));
    aspiring.len() - 1
}

fn new_event(event_type: EventType, time: Time, object_id: String) -> (e: NextEvent)
    ensures
        e.event_type == event_type,
        e.time == time,
        e.object_id == object_id,
{
    NextEvent { event_type, time, object_id }
}

/// `after` keeps the objects of `before`, by id, in their places, and may
/// have more.
pub open spec fn keeps_object_ids(before: Seq<ResolvedStatesForObject>, after: Seq<ResolvedStatesForObject>) -> bool {
    &&& before.len() <= after.len()
    &&& forall|i: int| 0 <= i < before.len() ==> #[trigger] after[i].info.id@ == before[i].info.id@
}

/// Some object has the id `id`.
pub open spec fn has_object_id(v: Seq<ResolvedStatesForObject>, id: Seq<char>) -> bool {
    exists|i: int| 0 <= i < v.len() && #[trigger] v[i].info.id@ == id
}

/// An id kept in place stays among the objects.
proof fn lemma_keeps_object_ids(a: Seq<ResolvedStatesForObject>, b: Seq<ResolvedStatesForObject>, id: Seq<char>)
    requires
        keeps_object_ids(a, b),
        has_object_id(a, id),
    ensures
        has_object_id(b, id),
{
    let i = choose|i: int| 0 <= i < a.len() && #[trigger] a[i].info.id@ == id;
    assert(b[i].info.id@ == id);
}

/// Keeping the objects' ids is transitive.
proof fn lemma_keeps_trans(a: Seq<ResolvedStatesForObject>, b: Seq<ResolvedStatesForObject>, c: Seq<ResolvedStatesForObject>)
    requires
        keeps_object_ids(a, b),
        keeps_object_ids(b, c),
    ensures
        keeps_object_ids(a, c),
{
    assert forall|i: int| 0 <= i < a.len() implies #[trigger] c[i].info.id@ == a[i].info.id@ by {
        assert(b[i].info.id@ == a[i].info.id@);
    }
}

/// The instance ended at `time`, its first end kept as its original one.
pub open spec fn ended_at(a: TimelineObjectInstance, time: Time) -> TimelineObjectInstance {
    TimelineObjectInstance {
        end: Some(time),
        original_end: if a.original_end is None {
            a.end
        } else {
            a.original_end
        },
        ..a
    }
}

/// `k` is the first instance with the id `id`.
pub open spec fn first_instance(v: Seq<TimelineObjectInstance>, id: Seq<char>, k: int) -> bool {
    0 <= k < v.len() && v[k].id@ == id && forall|j: int| 0 <= j < k ==> v[j].id@ != id
}

/// `i` is the first object with the id `id`.
pub open spec fn first_object_states(v: Seq<ResolvedStatesForObject>, id: Seq<char>, i: int) -> bool {
    0 <= i < v.len() && v[i].info.id@ == id && forall|j: int| 0 <= j < i ==> v[j].info.id@ != id
}

/// `after` is `before` with the first instance `instance_id` of the first
/// object `object_id` ended at `time`, where there is one.
pub open spec fn shown_instance_capped(
    before: Seq<ResolvedStatesForObject>,
    after: Seq<ResolvedStatesForObject>,
    object_id: Seq<char>,
    instance_id: Seq<char>,
    time: Time,
) -> bool {
    &&& after.len() == before.len()
    &&& forall|i: int| 0 <= i < before.len() && !first_object_states(before, object_id, i) ==> #[trigger] after[i] == before[i]
    &&& forall|i: int|
        #![trigger first_object_states(before, object_id, i)]
        first_object_states(before, object_id, i) ==> after[i].info == before[i].info && if exists|k: int|
            first_instance(before[i].instances@, instance_id, k) {
            exists|k: int|
                first_instance(before[i].instances@, instance_id, k) && after[i].instances@ == before[i].instances@.update(
                    k,
                    ended_at(before[i].instances@[k], time),
                )
        } else {
            after[i].instances@ == before[i].instances@
        }
}

/// The keyframe `kidx` applies where it is active: its parent is the state
/// of a layer with a name, and that layer has a state.
spec fn keyframe_handled(s: Sweep, kidx: int) -> bool {
    match s.arena@[kidx].info.parent_id {
        Some(pid) => exists|ak: int|
            #![trigger first_key(s.active@, pid@, ak)]
            first_key(s.active@, pid@, ak) && s.shown@[s.active@[ak].1 as int].info.layer@.len() > 0 && has_key(
                s.current@,
                s.shown@[s.active@[ak].1 as int].info.layer@,
            ),
        None => false,
    }
}

/// The candidate `obj` wants to be the state of its layer at `time`: it is
/// on then, and its parent, where the timeline has it, has no layer or is
/// the state of one.
spec fn wants_layer(s: Sweep, resolved: ResolvedTimeline, obj: int, time: Time) -> bool {
    let e = s.arena@[obj];
    &&& e.instance.start <= time
    &&& end_or_max(e.instance.end) > time
    &&& match e.info.parent_id {
        Some(pid) => forall|pi: int|
            #[trigger] first_with_id(resolved.objects@, pid@, pi) ==> (resolved.objects@[pi].info.layer@.len() == 0
                || has_key(s.active@, resolved.objects@[pi].info.id@)),
        None => true,
    }
}

/// `k` is the last of the first `n` active keyframes with the id `id`.
spec fn last_active_keyframe(s: Sweep, id: Seq<char>, n: int, k: int) -> bool {
    &&& 0 <= k < n
    &&& s.arena@[s.active_keyframes@[k].1 as int].info.id@ == id
    &&& forall|j: int| k < j < n ==> s.arena@[s.active_keyframes@[j].1 as int].info.id@ != id
}

/// The list of checked keyframes holds `id`.
pub open spec fn lists_id(v: Seq<String>, id: Seq<char>) -> bool {
    exists|j: int| 0 <= j < v.len() && v[j]@ == id
}

/// Removing `s` from a list leaves every other string in it.
proof fn lemma_lists_id_without(v: Seq<String>, s: Seq<char>, id: Seq<char>)
    ensures
        lists_id(without_string(v, s), id) <==> (id != s && lists_id(v, id)),
{
    let pred = not_string(s);
    let w = v.filter(pred);
    assert(w == without_string(v, s));
    if lists_id(w, id) {
        let j = choose|j: int| 0 <= j < w.len() && w[j]@ == id;
        let x = w[j];
        assert(w.contains(x));
        v.lemma_filter_contains_rev(pred, x);
        v.lemma_filter_pred(pred, j);
        let i = choose|i: int| 0 <= i < v.len() && v[i] == x;
        assert(v[i]@ == id);
    }
    if id != s && lists_id(v, id) {
        let j = choose|j: int| 0 <= j < v.len() && v[j]@ == id;
        v.lemma_filter_contains(pred, j);
        let i = choose|i: int| 0 <= i < w.len() && w[i] == v[j];
        assert(w[i]@ == id);
    }
}

impl Sweep {
    /// Ends the state instance `instance_id` of object `object_id` at `time`.
    fn cap_shown_instance(&mut self, object_id: &String, instance_id: &String, time: Time)
        requires
            old(self).wf(),
        ensures
            final(self).wf(),
            final(self).arena == old(self).arena,
            final(self).ids == old(self).ids,
            final(self).aspiring == old(self).aspiring,
            final(self).current == old(self).current,
            final(self).active == old(self).active,
            final(self).shown == old(self).shown,
            final(self).active_keyframes == old(self).active_keyframes,
            final(self).checked_keyframes == old(self).checked_keyframes,
            final(self).event_object_times == old(self).event_object_times,
            final(self).keyframe_events == old(self).keyframe_events,
            final(self).states.state == old(self).states.state,
            final(self).states.next_events == old(self).states.next_events,
            final(self).states.classes == old(self).states.classes,
            final(self).states.layers == old(self).states.layers,
            shown_instance_capped(old(self).states.objects@, final(self).states.objects@, object_id@, instance_id@, time),
            keeps_object_ids(old(self).states.objects@, final(self).states.objects@),
    {
        if let Some(oi) = find_object_states(&self.states.objects, object_id) {
            let ghost before = self.states.objects@;
            let mut o = self.states.objects.remove(oi);
            assert(!o.info.disabled) by {
                assert(before[oi as int] == o);
            }
            let ghost rest = self.states.objects@;
            let ghost o0 = o;
            let mut k: usize = 0;
            while k < o.instances.len()
                invariant_except_break
                    o.instances@ == o0.instances@,
                    k <= o.instances@.len(),
                    forall|j: int| 0 <= j < k ==> o0.instances@[j].id@ != instance_id@,
                invariant
                    !o.info.disabled,
                    o.info == o0.info,
                ensures
                    o.info == o0.info,
                    !o.info.disabled,
                    if exists|k: int| first_instance(o0.instances@, instance_id@, k) {
                        exists|k: int|
                            first_instance(o0.instances@, instance_id@, k) && o.instances@ == o0.instances@.update(
                                k,
                                ended_at(o0.instances@[k], time),
                            )
                    } else {
                        o.instances@ == o0.instances@
                    },
                decreases o.instances@.len() - k,
            {
                if o.instances[k].id == *instance_id {
                    let ghost kk = k as int;
                    let mut inst = o.instances.remove(k);
                    set_instance_end_time(&mut inst, time);
                    o.instances.insert(k, inst);
                    proof {
                        assert(first_instance(o0.instances@, instance_id@, kk));
                        assert(inst == ended_at(o0.instances@[kk], time));
                        assert(o.instances@ =~= o0.instances@.update(kk, ended_at(o0.instances@[kk], time)));
                    }
                    break;
                }
                k = k + 1;
            }
            self.states.objects.insert(oi, o);
            proof {
                assert forall|k: int| 0 <= k < self.states.objects@.len() implies !(
                #[trigger] self.states.objects@[k]).info.disabled by {
                    if k < oi {
                        assert(self.states.objects@[k] == rest[k]);
                        assert(rest[k] == before[k]);
                    } else if k > oi {
                        assert(self.states.objects@[k] == rest[k - 1]);
                        assert(rest[k - 1] == before[k]);
                    }
                }
                assert(before[oi as int] == o0);
                assert(first_object_states(before, object_id@, oi as int));
                assert forall|i: int| 0 <= i < before.len() && !first_object_states(before, object_id@, i) implies #[trigger] self.states.objects@[i] == before[i] by {
                    if i < oi {
                        assert(self.states.objects@[i] == rest[i]);
                    } else {
                        assert(i != oi);
                        assert(self.states.objects@[i] == rest[i - 1]);
                    }
                }
                assert forall|i: int| first_object_states(before, object_id@, i) implies i == oi by {
                    if i < oi {
                    } else if i > oi {
                        assert(before[oi as int].info.id@ == object_id@);
                    }
                }
            }
        } else {
            assert forall|i: int| first_object_states(self.states.objects@, object_id@, i) implies false by {
                assert(self.states.objects@[i].info.id@ != object_id@);
            }
        }
    }

    /// Makes a candidate instance the state of its layer from `time` on,
    /// as a new instance of its object.
    #[verifier::spinoff_prover]
    #[verifier::rlimit(40)]
    fn show(&mut self, t: usize, time: Time) -> (r: (usize, Time))
        requires
            old(self).wf(),
            t < old(self).arena@.len(),
        ensures
            final(self).wf(),
            final(self).arena == old(self).arena,
            final(self).ids == old(self).ids,
            final(self).aspiring == old(self).aspiring,
            final(self).active_keyframes == old(self).active_keyframes,
            final(self).checked_keyframes == old(self).checked_keyframes,
            keeps_object_ids(old(self).states.objects@, final(self).states.objects@),
            r.0 < final(self).shown@.len(),
            r.0 == old(self).shown@.len(),
            final(self).shown@.len() == old(self).shown@.len() + 1,
            final(self).shown@[r.0 as int].info.id@ == old(self).arena@[t as int].info.id@,
            final(self).shown@[r.0 as int].instance.start == time,
            final(self).shown@[r.0 as int].instance.end is None,
            r.1 == time,
            has_key(final(self).current@, final(self).shown@[r.0 as int].info.layer@),
            has_key(final(self).active@, old(self).arena@[t as int].info.id@),
            state_lookup(final(self).states.state@, final(self).shown@[r.0 as int].info.layer@) is Some,
            final(self).states.next_events == old(self).states.next_events,
            forall|l: int, k: int|
                0 <= l < final(self).states.state@.len() && 0 <= k < final(self).states.state@[l].1@.len() ==> entry_in(
                    old(self).states.state@,
                    #[trigger] final(self).states.state@[l].1@[k],
                ) || (final(self).states.state@[l].1@[k].0 == time && final(self).states.state@[l].1@[k].1 is Some),
            final(self).states.state@.len() > 0,
            final(self).states.state@.len() >= old(self).states.state@.len(),
            lookups_kept(old(self).states.state@, final(self).states.state@),
            exists|y: int|
                0 <= y < old(self).arena@.len() && old(self).arena@[y].info.id@ == old(self).arena@[t as int].info.id@
                    && old(self).arena@[y].info.layer@ == final(self).shown@[r.0 as int].info.layer@,
    {
        let top_id = self.arena[t].info.id.clone();
        let oi = match find_object_states(&self.states.objects, &top_id) {
            Some(i) => i,
            None => {
                let info = self.arena[t].info.copy();
                if !info.layer.as_str().is_empty() {
                    add_id_for_name(&mut self.states.layers, &info.layer, top_id.clone());
                }
                self.states.objects.push(ResolvedStatesForObject { info, instances: Vec::new() });
                self.states.objects.len() - 1
            },
        };
        let top_instance = &self.arena[t].instance;
        let mut new_instance = top_instance.copy();
        new_instance.start = time;
        new_instance.end = None;
        new_instance.from_instance_id = Some(top_instance.id.clone());
        if new_instance.original_end.is_none() {
            new_instance.original_end = top_instance.end;
        }
        if new_instance.original_start.is_none() {
            new_instance.original_start = Some(top_instance.start);
        }
        let ghost objs1 = self.states.objects@;
        assert(keeps_object_ids(old(self).states.objects@, objs1));
        let mut o = self.states.objects.remove(oi);
        let ghost o1 = o;
        assert(o1 == objs1[oi as int]);
        // Make the instance id unique:
        let count = o.instances.len();
        let mut k: usize = 0;
        while k < o.instances.len()
            invariant
                new_instance.start == time,
                new_instance.end is None,
                o == o1,
            decreases o.instances@.len() - k,
        {
            if o.instances[k].id == new_instance.id {
                let suffix = concat("_$", decimal_string(count).as_str());
                new_instance.id = concat(new_instance.id.as_str(), suffix.as_str());
            }
            k = k + 1;
        }
        o.instances.push(new_instance.copy());
        let shown_info = o.info.copy();
        assert(o.info == o1.info);
        self.states.objects.insert(oi, o);
        assert(keeps_object_ids(old(self).states.objects@, self.states.objects@)) by {
            assert forall|i: int| 0 <= i < objs1.len() implies #[trigger] self.states.objects@[i].info.id@ == objs1[i].info.id@ by {
                if i != oi {
                    assert(self.states.objects@[i] == objs1[i]);
                }
            }
        }
        let start = new_instance.start;
        let layer = shown_info.layer.clone();
        let id = shown_info.id.clone();
        self.shown.push(ResolvedTimelineObjectInstance { info: shown_info, instance: new_instance });
        let sidx = self.shown.len() - 1;
        set_key(&mut self.current, &layer, sidx);
        set_key(&mut self.active, &id, sidx);
        set_state_at_time(&mut self.states.state, &layer, time, Some(&self.shown[sidx]));
        proof {
            assert forall|k: int| 0 <= k < self.current@.len() implies (#[trigger] self.current@[k]).1 < self.shown@.len() by {
                if self.current@[k].1 != sidx {
                    let j = choose|j: int| 0 <= j < old(self).current@.len() && old(self).current@[j].1 == self.current@[k].1;
                    assert(value_in(old(self).current@, self.current@[k].1));
                    assert(old(self).current@[j].1 < old(self).shown@.len());
                }
            }
            assert forall|k: int| 0 <= k < self.active@.len() implies (#[trigger] self.active@[k]).1 < self.shown@.len() by {
                if self.active@[k].1 != sidx {
                    let j = choose|j: int| 0 <= j < old(self).active@.len() && old(self).active@[j].1 == self.active@[k].1;
                    assert(old(self).active@[j].1 < old(self).shown@.len());
                }
            }
        }
        (sidx, start)
    }

    /// Checks a candidate that is no keyframe turning on or off at `time`.
    #[verifier::spinoff_prover]
    #[verifier::rlimit(100)]
    fn check_candidate_point(&mut self, resolved: &ResolvedTimeline, time: Time, o: &PointInTime, only_for_time: Option<Time>)
        requires
            old(self).wf(),
            o.obj < old(self).arena@.len(),
            !old(self).arena@[o.obj as int].info.is_keyframe,
        ensures
            final(self).wf(),
            events_kept(old(self).states.next_events@, final(self).states.next_events@),
            final(self).states.state@.len() >= old(self).states.state@.len(),
            wants_layer(*old(self), *resolved, o.obj as int, time) ==> final(self).states.state@.len() > 0,
            lookups_kept(old(self).states.state@, final(self).states.state@),
            wants_layer(*old(self), *resolved, o.obj as int, time) ==> exists|t: int, y: int|
                0 <= t < old(self).arena@.len() && 0 <= y < old(self).arena@.len() && old(self).arena@[t].info.layer@
                    == old(self).arena@[o.obj as int].info.layer@ && old(self).arena@[y].info.id@ == old(self).arena@[t].info.id@
                    && state_lookup(final(self).states.state@, old(self).arena@[y].info.layer@) is Some,
            changes_announced(old(self).states.state@, old(self).states.next_events@, after_time(only_for_time))
                ==> changes_announced(final(self).states.state@, final(self).states.next_events@, after_time(only_for_time)),
            final(self).arena == old(self).arena,
            final(self).ids == old(self).ids,
            keeps_object_ids(old(self).states.objects@, final(self).states.objects@),
            ({
                let layer = old(self).arena@[o.obj as int].info.layer@;
                let before = aspirants(old(self).aspiring@, layer);
                let after = aspirants(final(self).aspiring@, layer);
                &&& forall|l: Seq<char>|
                    l != layer ==> #[trigger] aspirants(final(self).aspiring@, l) == aspirants(old(self).aspiring@, l)
                &&& wants_layer(*old(self), *resolved, o.obj as int, time) ==> exists|p: int|
                    0 <= p <= before.len() && after == before.insert(p, o.obj)
                &&& !wants_layer(*old(self), *resolved, o.obj as int, time) ==> after == before.filter(
                    other_object(old(self).arena@, old(self).arena@[o.obj as int].info.id@),
                )
                &&& precedence_sorted(final(self).arena@, after)
                &&& final(self).shown@.len() > old(self).shown@.len() ==> after.len() > 0 && final(self).shown@.last().info.id@
                    == final(self).arena@[after[0] as int].info.id@
                &&& final(self).shown@.len() >= old(self).shown@.len()
                &&& after.len() > 0 && final(self).shown@.len() == old(self).shown@.len() ==> exists|i: int|
                    #[trigger] first_key(final(self).current@, layer, i) && final(self).current@[i].1 < final(self).shown@.len()
                        && final(self).shown@[final(self).current@[i].1 as int].info.id@ == final(self).arena@[after[0] as int].info.id@
            }),
    {
        let ghost s0 = *self;
        proof {
            lemma_events_kept_refl(s0.states.next_events@);
        }
        assert(keeps_object_ids(s0.states.objects@, self.states.objects@));
        let entry = &self.arena[o.obj];
        let info_id = entry.info.id.clone();
        let layer = entry.info.layer.clone();
        let is_keyframe = entry.info.is_keyframe;
        let parent_id = copy_opt_string(&entry.info.parent_id);
        let inst_start = entry.instance.start;
        let inst_end = entry.instance.end;
        let to_be_enabled = inst_start <= time && match inst_end {
            Some(e) => e > time,
            None => Time::MAX > time,
        };
        // If the object has a parent, only set it if the parent is on a
        // layer (where the parent has a layer)
        let to_be_enabled2 = if to_be_enabled {
            match &parent_id {
                Some(pid) => match find_resolved(resolved, pid) {
                    Some(pi) => resolved.objects[pi].info.layer.as_str().is_empty() || key_index(
                        &self.active,
                        &resolved.objects[pi].info.id,
                    ).is_some(),
                    None => true,
                },
                None => true,
            }
        } else {
            false
        };
        assert(to_be_enabled2 == wants_layer(s0, *resolved, o.obj as int, time)) by {
            if to_be_enabled {
                if let Some(pid) = s0.arena@[o.obj as int].info.parent_id {
                    assert forall|a: int, b: int|
                        first_with_id(resolved.objects@, pid@, a) && first_with_id(resolved.objects@, pid@, b) implies a
                        == b by {
                        if a < b {
                            assert(resolved.objects@[a].info.id@ == pid@);
                        } else if b < a {
                            assert(resolved.objects@[b].info.id@ == pid@);
                        }
                    }
                }
            }
        }
        let ghost a0 = self.aspiring@;
        let li = layer_index(&mut self.aspiring, &layer);
        let ghost a1 = self.aspiring@;
        proof {
            lemma_aspirants_first(a1, li as int);
            if a1.len() > a0.len() {
                assert(a1 =~= a0.push(a1[a0.len() as int]));
                assert forall|l: Seq<char>| #[trigger] aspirants(a1, l) == aspirants(a0, l) by {
                    lemma_aspirants_push(a0, a1[a0.len() as int], l);
                }
            } else {
                assert(a1 =~= a0);
            }
            assert(aspirants(a0, layer@) == a1[li as int].1@);
        }
        let (name, mut list) = self.aspiring.remove(li);
        let ghost l0 = list@;
        assert(forall|m: int| 0 <= m < l0.len() ==> #[trigger] l0[m] < self.arena@.len()) by {
            if li < a0.len() {
                assert forall|m: int| 0 <= m < l0.len() implies #[trigger] l0[m] < self.arena@.len() by {
                    assert(a0[li as int].1@[m] < self.arena@.len());
                }
            }
        }
        assert(name@ == layer@);
        assert(precedence_sorted(s0.arena@, l0)) by {
            if li < a0.len() {
                assert(a1[li as int] == a0[li as int]);
                assert(precedence_sorted(s0.arena@, a0[li as int].1@));
            } else {
                assert(l0.len() == 0);
            }
        }
        assert(forall|m: int| 0 <= m < l0.len() ==> s0.arena@[#[trigger] l0[m] as int].info.layer@ == layer@) by {
            if li < a0.len() {
                assert forall|m: int| 0 <= m < l0.len() implies s0.arena@[#[trigger] l0[m] as int].info.layer@ == layer@ by {
                    assert(a0[li as int].1@[m] == l0[m]);
                    assert(s0.arena@[a0[li as int].1@[m] as int].info.layer@ == a0[li as int].0@);
                }
            }
        }
        if to_be_enabled2 {
            // The instance wants to be enabled: add it to the aspiring
            // instances, in order of precedence
            let mut p = list.len();
            while p > 0 && aspiring_after(&self.arena[list[p - 1]], &self.arena[o.obj])
                invariant
                    p <= list@.len(),
                    list@ == l0,
                    o.obj < self.arena@.len(),
                    forall|m: int| 0 <= m < list@.len() ==> #[trigger] list@[m] < self.arena@.len(),
                    forall|m: int|
                        p <= m < l0.len() ==> aspiring_after_spec(self.arena@[#[trigger] l0[m] as int], self.arena@[o.obj as int]),
                decreases p,
            {
                p = p - 1;
            }
            proof {
                lemma_insert_sorted(self.arena@, l0, p as int, o.obj);
            }
            list.insert(p, o.obj);
            assert(list@ == l0.insert(p as int, o.obj));
            assert forall|m: int| 0 <= m < list@.len() implies s0.arena@[#[trigger] list@[m] as int].info.layer@ == layer@ by {
                if m < p {
                    assert(list@[m] == l0[m]);
                } else if m > p {
                    assert(list@[m] == l0[m - 1]);
                }
            }
        } else {
            // The instance doesn't want to be enabled: remove it
            let ghost pred = other_object(s0.arena@, s0.arena@[o.obj as int].info.id@);
            let mut kept: Vec<usize> = Vec::new();
            let mut m: usize = 0;
            proof {
                reveal(Seq::filter);
                assert(l0.take(0) =~= Seq::<usize>::empty());
            }
            while m < list.len()
                invariant
                    forall|x: int| 0 <= x < list@.len() ==> #[trigger] list@[x] < self.arena@.len(),
                    forall|x: int| 0 <= x < kept@.len() ==> #[trigger] kept@[x] < self.arena@.len(),
                    list@ == l0,
                    m <= list@.len(),
                    self.arena == s0.arena,
                    info_id@ == s0.arena@[o.obj as int].info.id@,
                    pred == other_object(s0.arena@, s0.arena@[o.obj as int].info.id@),
                    kept@ == l0.take(m as int).filter(pred),
                decreases list@.len() - m,
            {
                proof {
                    lemma_filter_take_step(l0, pred, m as int);
                }
                if self.arena[list[m]].info.id != info_id {
                    kept.push(list[m]);
                }
                m = m + 1;
            }
            assert(l0.take(l0.len() as int) =~= l0);
            proof {
                lemma_filter_sorted(s0.arena@, l0, pred);
            }
            assert forall|m: int| 0 <= m < kept@.len() implies s0.arena@[#[trigger] kept@[m] as int].info.layer@ == layer@ by {
                let xv = kept@[m];
                assert(kept@.contains(xv));
                l0.lemma_filter_contains_rev(pred, xv);
                let j = choose|j: int| 0 <= j < l0.len() && l0[j] == xv;
            }
            list = kept;
        }
        let top: Option<usize> = if list.len() > 0 {
            Some(list[0])
        } else {
            None
        };
        let ghost a2 = self.aspiring@;
        let ghost new_entry = (name, list);
        self.aspiring.insert(li, (name, list));
        proof {
            let a1_ = a1;
            assert(self.aspiring@ =~= a1_.update(li as int, new_entry));
            assert forall|l: Seq<char>| true implies #[trigger] aspirants(self.aspiring@, l) == if l == layer@ {
                new_entry.1@
            } else {
                aspirants(a0, l)
            } by {
                lemma_aspirants_update(a1_, li as int, new_entry, l);
            }
        }
        let ghost a1 = a2;
        proof {
            assert(precedence_sorted(s0.arena@, new_entry.1@));
            assert forall|k: int| 0 <= k < self.aspiring@.len() implies precedence_sorted(
                self.arena@,
                #[trigger] self.aspiring@[k].1@,
            ) by {
                if k < li {
                    assert(self.aspiring@[k] == a1[k]);
                } else if k > li {
                    assert(self.aspiring@[k] == a1[k - 1]);
                }
            }
        }
        proof {
            assert forall|k: int, m: int|
                0 <= k < self.aspiring@.len() && 0 <= m < self.aspiring@[k].1@.len() implies #[trigger] self.aspiring@[k].1@[m]
                    < self.arena@.len() by {
                if k < li {
                    assert(self.aspiring@[k] == a1[k]);
                } else if k > li {
                    assert(self.aspiring@[k] == a1[k - 1]);
                }
            }
        }
        proof {
            assert(forall|m: int| 0 <= m < new_entry.1@.len() ==> s0.arena@[#[trigger] new_entry.1@[m] as int].info.layer@ == layer@);
            assert forall|k: int, m: int|
                0 <= k < self.aspiring@.len() && 0 <= m < self.aspiring@[k].1@.len() implies self.arena@[#[trigger] self.aspiring@[k].1@[m] as int].info.layer@
                    == self.aspiring@[k].0@ by {
                if k < li {
                    assert(self.aspiring@[k] == a1[k]);
                    assert(a1[k] == a0[k]);
                    assert(a0[k].1@[m] == self.aspiring@[k].1@[m]);
                } else if k > li {
                    assert(self.aspiring@[k] == a1[k - 1]);
                    if k < a0.len() {
                        assert(a1[k - 1] == a0[k]);
                        assert(a0[k].1@[m] == self.aspiring@[k].1@[m]);
                    }
                } else {
                    assert(self.aspiring@[k] == new_entry);
                }
            }
        }
        // The one on top has the throne
        let ghost mut prev_k: int = 0;
        let prev: Option<usize> = match key_index(&self.current, &layer) {
            Some(k) => {
                proof {
                    assert(state_lookup(self.states.state@, self.current@[k as int].0@) is Some);
                    prev_k = k as int;
                }
                Some(self.current[k].1)
            },
            None => None,
        };
        let ghost current0 = self.current@;
        assert(prev matches Some(pv) ==> first_key(current0, layer@, prev_k) && current0[prev_k].1 == pv
            && pv < self.shown@.len());
        assert(prev is Some ==> state_lookup(self.states.state@, layer@) is Some);
        let ghost mut wit_y: int = 0;
        let replace_old_obj = match top {
            Some(t) => match prev {
                Some(pv) => self.shown[pv].info.id != self.arena[t].info.id || self.shown[pv].instance.id
                    != self.arena[t].instance.id,
                None => true,
            },
            None => false,
        };
        let remove_old_obj = prev.is_some() && top.is_none();
        if replace_old_obj || remove_old_obj {
            if let Some(pv) = prev {
                let prev_obj_id = self.shown[pv].info.id.clone();
                let prev_instance_id = self.shown[pv].instance.id.clone();
                // Cap the old instance, so it ends at this point in time
                let ghost objs_before_cap = self.states.objects@;
                self.cap_shown_instance(&prev_obj_id, &prev_instance_id, time);
                proof {
                    lemma_keeps_trans(s0.states.objects@, objs_before_cap, self.states.objects@);
                }
                remove_key(&mut self.active, &prev_obj_id);
                let add_event = match only_for_time {
                    Some(t) => time > t,
                    None => true,
                };
                if add_event {
                    let ghost ev_b = self.states.next_events@;
                    self.states.next_events.push(new_event(EventType::End, time, prev_obj_id));
                    proof {
                        let x = self.states.next_events@[ev_b.len() as int];
                        assert(self.states.next_events@ == ev_b.push(x));
                        lemma_events_kept_push(ev_b, x);
                        lemma_events_kept_trans(s0.states.next_events@, ev_b, self.states.next_events@);
                        assert(event_at(self.states.next_events@, EventType::End, time));
                    }
                    if let Some(end) = inst_end {
                        self.event_object_times.push(end);
                    }
                }
                assert(time > after_time(only_for_time) ==> event_at(self.states.next_events@, EventType::End, time));
                proof {
                    assert forall|k: int| 0 <= k < self.active@.len() implies (#[trigger] self.active@[k]).1 < self.shown@.len() by {}
                }
            }
        }
        let ghost st_mid = self.states.state@;
        assert(st_mid == s0.states.state@);
        assert(events_kept(s0.states.next_events@, self.states.next_events@));
        let ghost shown_before = self.shown@;
        if replace_old_obj {
            if let Some(t) = top {
                let ghost objs_before_show = self.states.objects@;
                let (_sidx, start) = self.show(t, time);
                proof {
                    assert(self.shown@.last() == self.shown@[_sidx as int]);
                    assert(t == new_entry.1@[0]);
                }
                proof {
                    wit_y = choose|y: int|
                        0 <= y < s0.arena@.len() && s0.arena@[y].info.id@ == s0.arena@[t as int].info.id@
                            && s0.arena@[y].info.layer@ == self.shown@[_sidx as int].info.layer@;
                }
                let ghost st_show = self.states.state@;
                proof {
                    lemma_keeps_trans(s0.states.objects@, objs_before_show, self.states.objects@);
                }
                let after = match only_for_time {
                    Some(x) => x,
                    None => 0,
                };
                if start > after {
                    let ghost ev_b = self.states.next_events@;
                    self.states.next_events.push(new_event(EventType::Start, start, info_id));
                    proof {
                        let x = self.states.next_events@[ev_b.len() as int];
                        assert(self.states.next_events@ == ev_b.push(x));
                        lemma_events_kept_push(ev_b, x);
                        lemma_events_kept_trans(s0.states.next_events@, ev_b, self.states.next_events@);
                        assert(event_at(self.states.next_events@, EventType::Start, time));
                    }
                    self.event_object_times.push(start);
                }
                assert(time > after_time(only_for_time) ==> event_at(self.states.next_events@, EventType::Start, time));
            }
        } else if remove_old_obj {
            remove_key(&mut self.current, &layer);
            set_state_at_time(&mut self.states.state, &layer, time, None);
            proof {
                assert forall|k: int| 0 <= k < self.current@.len() implies (#[trigger] self.current@[k]).1 < self.shown@.len() by {}
            }
        }
        proof {
            let after = after_time(only_for_time);
            let st1 = self.states.state@;
            let ev1 = self.states.next_events@;
            assert forall|l: int, k: int| 0 <= l < st1.len() && 0 <= k < st1[l].1@.len() implies entry_in(
                s0.states.state@,
                #[trigger] st1[l].1@[k],
            ) || entry_announced(st1[l].1@[k], ev1, after) by {
                if !replace_old_obj && !remove_old_obj {
                    assert(s0.states.state@[l].1@[k] == st1[l].1@[k]);
                }
            }
            if changes_announced(s0.states.state@, s0.states.next_events@, after) {
                lemma_announced_step(s0.states.state@, st1, s0.states.next_events@, ev1, after);
            }
            assert forall|l: Seq<char>| #[trigger] state_lookup(s0.states.state@, l) is Some implies state_lookup(st1, l) is Some by {
                if !replace_old_obj && remove_old_obj {
                    if l != layer@ {
                        assert(state_lookup(st1, l) == state_lookup(st_mid, l));
                    }
                } else if replace_old_obj {
                    assert(state_lookup(st_mid, l) is Some);
                }
            }
            if to_be_enabled2 {
                let t = top->0 as int;
                assert(new_entry.1@[0] == t);
                assert(s0.arena@[t].info.layer@ == layer@);
                if replace_old_obj {
                    assert(0 <= wit_y < s0.arena@.len() && s0.arena@[wit_y].info.id@ == s0.arena@[t].info.id@
                        && state_lookup(st1, s0.arena@[wit_y].info.layer@) is Some);
                } else {
                    assert(prev is Some);
                    assert(state_lookup(st1, s0.arena@[o.obj as int].info.layer@) is Some);
                    assert(s0.arena@[o.obj as int].info.id@ == s0.arena@[o.obj as int].info.id@);
                }
            }
        }
    }

    /// Checks an instance turning on or off at `time`: updates what wants
    /// to be on its layer and, where that changes which instance is on
    /// top, the layer's state and the next events.
    #[verifier::spinoff_prover]
    #[verifier::rlimit(60)]
    fn check_point(&mut self, resolved: &ResolvedTimeline, time: Time, o: &PointInTime, only_for_time: Option<Time>)
        requires
            old(self).wf(),
            o.obj < old(self).arena@.len(),
        ensures
            final(self).wf(),
            events_kept(old(self).states.next_events@, final(self).states.next_events@),
            final(self).states.state@.len() >= old(self).states.state@.len(),
            !old(self).arena@[o.obj as int].info.is_keyframe && wants_layer(*old(self), *resolved, o.obj as int, time)
                ==> final(self).states.state@.len() > 0,
            lookups_kept(old(self).states.state@, final(self).states.state@),
            !old(self).arena@[o.obj as int].info.is_keyframe && wants_layer(*old(self), *resolved, o.obj as int, time)
                ==> exists|t: int, y: int|
                0 <= t < old(self).arena@.len() && 0 <= y < old(self).arena@.len() && old(self).arena@[t].info.layer@
                    == old(self).arena@[o.obj as int].info.layer@ && old(self).arena@[y].info.id@ == old(self).arena@[t].info.id@
                    && state_lookup(final(self).states.state@, old(self).arena@[y].info.layer@) is Some,
            changes_announced(old(self).states.state@, old(self).states.next_events@, after_time(only_for_time))
                ==> changes_announced(final(self).states.state@, final(self).states.next_events@, after_time(only_for_time)),
            final(self).arena == old(self).arena,
            final(self).ids == old(self).ids,
            keeps_object_ids(old(self).states.objects@, final(self).states.objects@),
            !old(self).arena@[o.obj as int].info.is_keyframe ==> ({
                let layer = old(self).arena@[o.obj as int].info.layer@;
                let before = aspirants(old(self).aspiring@, layer);
                let after = aspirants(final(self).aspiring@, layer);
                &&& forall|l: Seq<char>|
                    l != layer ==> #[trigger] aspirants(final(self).aspiring@, l) == aspirants(old(self).aspiring@, l)
                &&& wants_layer(*old(self), *resolved, o.obj as int, time) ==> exists|p: int|
                    0 <= p <= before.len() && after == before.insert(p, o.obj)
                &&& !wants_layer(*old(self), *resolved, o.obj as int, time) ==> after == before.filter(
                    other_object(old(self).arena@, old(self).arena@[o.obj as int].info.id@),
                )
            }),
            old(self).arena@[o.obj as int].info.is_keyframe ==> ({
                let e = old(self).arena@[o.obj as int];
                &&& final(self).aspiring == old(self).aspiring
                &&& exists|i: int|
                    0 <= i < final(self).states.objects@.len() && final(self).states.objects@[i].info.id@ == e.info.id@
                        && final(self).states.objects@[i].instances@.len() == 1 && same_instance(
                        final(self).states.objects@[i].instances@[0],
                        e.instance,
                    )
                &&& e.instance.start <= time && end_or_max(e.instance.end) > time ==> exists|i: int|
                    first_key(final(self).active_keyframes@, e.info.id@, i) && final(self).active_keyframes@[i].1 == o.obj
                &&& !(e.instance.start <= time && end_or_max(e.instance.end) > time) ==> !lists_id(
                    final(self).checked_keyframes@,
                    e.info.id@,
                ) && if has_key(old(self).active_keyframes@, e.info.id@) {
                    exists|i: int|
                        first_key(old(self).active_keyframes@, e.info.id@, i) && final(self).active_keyframes@
                            == old(self).active_keyframes@.remove(i)
                } else {
                    final(self).active_keyframes@ == old(self).active_keyframes@
                }
            }),
    {
        let ghost s0 = *self;
        proof {
            lemma_events_kept_refl(s0.states.next_events@);
        }
        assert(keeps_object_ids(s0.states.objects@, self.states.objects@));
        let entry = &self.arena[o.obj];
        let info_id = entry.info.id.clone();
        let layer = entry.info.layer.clone();
        let is_keyframe = entry.info.is_keyframe;
        let parent_id = copy_opt_string(&entry.info.parent_id);
        let inst_start = entry.instance.start;
        let inst_end = entry.instance.end;
        let to_be_enabled = inst_start <= time && match inst_end {
            Some(e) => e > time,
            None => Time::MAX > time,
        };
        if !is_keyframe {
            self.check_candidate_point(resolved, time, o, only_for_time);
        } else {
            // A keyframe: add it to the objects
            let kf_obj = ResolvedStatesForObject {
                info: self.arena[o.obj].info.copy(),
                instances: {
                    let mut v: Vec<TimelineObjectInstance> = Vec::new();
                    v.push(self.arena[o.obj].instance.copy());
                    v
                },
            };
            let ghost kf = kf_obj;
            assert(kf.instances@.len() == 1 && same_instance(kf.instances@[0], s0.arena@[o.obj as int].instance));
            let ghost ki: int;
            match find_object_states(&self.states.objects, &info_id) {
                Some(i) => {
                    self.states.objects.set(i, kf_obj);
                    proof {
                        ki = i as int;
                    }
                },
                None => {
                    self.states.objects.push(kf_obj);
                    proof {
                        ki = self.states.objects@.len() - 1;
                    }
                },
            }
            assert(self.states.objects@[ki] == kf);
            assert(keeps_object_ids(s0.states.objects@, self.states.objects@)) by {
                assert forall|i: int| 0 <= i < s0.states.objects@.len() implies #[trigger] self.states.objects@[i].info.id@
                    == s0.states.objects@[i].info.id@ by {
                    if i != ki {
                        assert(self.states.objects@[i] == s0.states.objects@[i]);
                    }
                }
            }
            let ghost ak0 = self.active_keyframes@;
            if to_be_enabled {
                set_key(&mut self.active_keyframes, &info_id, o.obj);
                proof {
                    if has_key(ak0, info_id@) {
                        let i = choose|i: int|
                            first_key(ak0, info_id@, i) && self.active_keyframes@.len() == ak0.len()
                                && self.active_keyframes@[i].0@ == info_id@ && self.active_keyframes@[i].1 == o.obj
                                && forall|j: int| 0 <= j < ak0.len() && j != i ==> #[trigger] self.active_keyframes@[j] == ak0[j];
                        assert(first_key(self.active_keyframes@, info_id@, i));
                    } else {
                        assert(first_key(self.active_keyframes@, info_id@, ak0.len() as int));
                    }
                }
            } else {
                remove_key(&mut self.active_keyframes, &info_id);
                let ghost ck0 = self.checked_keyframes@;
                remove_string(&mut self.checked_keyframes, &info_id);
                proof {
                    lemma_lists_id_without(ck0, info_id@, info_id@);
                }
            }
            proof {
                assert forall|k: int| 0 <= k < self.active_keyframes@.len() implies (#[trigger] self.active_keyframes@[k]).1
                    < self.arena@.len() by {
                    if self.active_keyframes@[k].1 != o.obj {
                        let j = choose|j: int|
                            0 <= j < old(self).active_keyframes@.len() && old(self).active_keyframes@[j].1
                                == self.active_keyframes@[k].1;
                        assert(old(self).active_keyframes@[j].1 < old(self).arena@.len());
                    }
                }
                assert(self.states.state@ == s0.states.state@);
                assert(self.states.next_events@ == s0.states.next_events@);
            }
        }
    }

    /// Adds the keyframes that are on to the states of their parents'
    /// layers, and notes their events.
    #[verifier::spinoff_prover]
    fn check_keyframes(&mut self, time: Time)
        requires
            old(self).wf(),
        ensures
            final(self).wf(),
            final(self).arena == old(self).arena,
            final(self).ids == old(self).ids,
            final(self).active_keyframes == old(self).active_keyframes,
            final(self).active == old(self).active,
            final(self).current == old(self).current,
            final(self).shown == old(self).shown,
            final(self).states.objects == old(self).states.objects,
            final(self).states.next_events == old(self).states.next_events,
            forall|l: int, k: int|
                0 <= l < final(self).states.state@.len() && 0 <= k < final(self).states.state@[l].1@.len() ==> entry_in(
                    old(self).states.state@,
                    #[trigger] final(self).states.state@[l].1@[k],
                ) || (final(self).states.state@[l].1@[k].1 matches Some(st) && st.keyframes@.len() > 0),
            final(self).states.state@.len() >= old(self).states.state@.len(),
            lookups_kept(old(self).states.state@, final(self).states.state@),
            forall|id: Seq<char>, k: int|
                last_active_keyframe(*old(self), id, old(self).active_keyframes@.len() as int, k) ==> (lists_id(
                    final(self).checked_keyframes@,
                    id,
                ) <==> keyframe_handled(*old(self), old(self).active_keyframes@[k].1 as int)),
            forall|id: Seq<char>|
                (forall|k: int|
                    0 <= k < old(self).active_keyframes@.len() ==> old(self).arena@[old(
                        self,
                    ).active_keyframes@[k].1 as int].info.id@ != id) ==> (lists_id(final(self).checked_keyframes@, id)
                    <==> lists_id(old(self).checked_keyframes@, id)),
    {
        let ghost s0 = *self;
        proof {
            assert forall|l: int, j: int| 0 <= l < self.states.state@.len() && 0 <= j < self.states.state@[l].1@.len() implies entry_in(
                s0.states.state@,
                #[trigger] self.states.state@[l].1@[j],
            ) by {
                assert(s0.states.state@[l].1@[j] == self.states.state@[l].1@[j]);
            }
        }
        let mut k: usize = 0;
        while k < self.active_keyframes.len()
            invariant
                self.wf(),
                self.arena == old(self).arena,
                self.ids == old(self).ids,
                s0 == *old(self),
                self.active_keyframes == s0.active_keyframes,
                self.active == s0.active,
                self.current == s0.current,
                self.shown == s0.shown,
                self.states.objects == s0.states.objects,
                self.states.next_events == s0.states.next_events,
                self.states.state@.len() >= s0.states.state@.len(),
                lookups_kept(s0.states.state@, self.states.state@),
                forall|l: int, j: int|
                    0 <= l < self.states.state@.len() && 0 <= j < self.states.state@[l].1@.len() ==> entry_in(
                        s0.states.state@,
                        #[trigger] self.states.state@[l].1@[j],
                    ) || (self.states.state@[l].1@[j].1 matches Some(st) && st.keyframes@.len() > 0),
                k <= self.active_keyframes@.len(),
                forall|id: Seq<char>, j: int|
                    last_active_keyframe(s0, id, k as int, j) ==> (lists_id(self.checked_keyframes@, id)
                        <==> keyframe_handled(s0, s0.active_keyframes@[j].1 as int)),
                forall|id: Seq<char>|
                    (forall|j: int| 0 <= j < k ==> s0.arena@[s0.active_keyframes@[j].1 as int].info.id@ != id) ==> (
                    lists_id(self.checked_keyframes@, id) <==> lists_id(s0.checked_keyframes@, id)),
            decreases self.active_keyframes@.len() - k,
        {
            let ghost c0 = self.checked_keyframes@;
            let kidx = self.active_keyframes[k].1;
            let kf_id = self.arena[kidx].info.id.clone();
            let mut unhandled = true;
            if let Some(pid) = &self.arena[kidx].info.parent_id {
                if let Some(ak) = key_index(&self.active, pid) {
                    let p_sidx = self.active[ak].1;
                    let p_layer = self.shown[p_sidx].info.layer.clone();
                    if !p_layer.as_str().is_empty() {
                        if let Some(ck) = key_index(&self.current, &p_layer) {
                            let cur = self.current[ck].1;
                            unhandled = false;
                            let mut first = true;
                            let mut m: usize = 0;
                            while m < self.checked_keyframes.len()
                                invariant
                                    m <= self.checked_keyframes@.len(),
                                    first <==> forall|j: int| 0 <= j < m ==> self.checked_keyframes@[j]@ != kf_id@,
                                decreases self.checked_keyframes@.len() - m,
                            {
                                if self.checked_keyframes[m] == kf_id {
                                    first = false;
                                }
                                m = m + 1;
                            }
                            if first {
                                let ghost before = self.checked_keyframes@;
                                let added = kf_id.clone();
                                self.checked_keyframes.push(added);
                                proof {
                                    assert(self.checked_keyframes@[before.len() as int]@ == kf_id@);
                                    assert forall|id: Seq<char>| id != kf_id@ implies (lists_id(self.checked_keyframes@, id)
                                        <==> lists_id(before, id)) by {
                                        if lists_id(self.checked_keyframes@, id) {
                                            let j = choose|j: int|
                                                0 <= j < self.checked_keyframes@.len() && self.checked_keyframes@[j]@ == id;
                                            assert(j < before.len());
                                            assert(before[j] == self.checked_keyframes@[j]);
                                        }
                                        if lists_id(before, id) {
                                            let j = choose|j: int| 0 <= j < before.len() && before[j]@ == id;
                                            assert(self.checked_keyframes@[j] == before[j]);
                                        }
                                    }
                                }
                            }
                            assert(lists_id(self.checked_keyframes@, kf_id@));
                            assert(keyframe_handled(s0, kidx as int)) by {
                                assert(first_key(s0.active@, pid@, ak as int));
                            }
                            let keyframe_instance = ResolvedTimelineObjectInstanceKeyframe {
                                info: self.arena[kidx].info.copy(),
                                keyframe_end_time: self.arena[kidx].instance.end,
                            };
                            let ghost st_before = self.states.state@;
                            add_keyframe_at_time(
                                &mut self.states.state,
                                &p_layer,
                                time,
                                keyframe_instance,
                                &self.shown[cur],
                                first,
                            );
                            proof {
                                let st1 = self.states.state@;
                                assert forall|l: Seq<char>| #[trigger] state_lookup(s0.states.state@, l) is Some implies state_lookup(st1, l) is Some by {
                                    assert(state_lookup(st_before, l) is Some);
                                    if l != p_layer@ {
                                        assert(state_lookup(st1, l) == state_lookup(st_before, l));
                                    }
                                }
                                assert forall|l: int, j: int| 0 <= l < st1.len() && 0 <= j < st1[l].1@.len() implies entry_in(
                                    s0.states.state@,
                                    #[trigger] st1[l].1@[j],
                                ) || (st1[l].1@[j].1 matches Some(st) && st.keyframes@.len() > 0) by {
                                    if entry_in(st_before, st1[l].1@[j]) {
                                        let (l0, j0) = choose|l0: int, j0: int|
                                            0 <= l0 < st_before.len() && 0 <= j0 < st_before[l0].1@.len()
                                                && #[trigger] st_before[l0].1@[j0] == st1[l].1@[j];
                                        assert(entry_in(s0.states.state@, st_before[l0].1@[j0])
                                            || (st_before[l0].1@[j0].1 matches Some(st) && st.keyframes@.len() > 0));
                                    }
                                }
                            }
                            if first {
                                self.keyframe_events.push(
                                    new_event(EventType::KeyFrame, self.arena[kidx].instance.start, kf_id.clone()),
                                );
                                if let Some(end) = self.arena[kidx].instance.end {
                                    let before_parent_end = match self.shown[cur].instance.end {
                                        Some(p_end) => end < p_end,
                                        None => true,
                                    };
                                    if before_parent_end {
                                        self.keyframe_events.push(new_event(EventType::KeyFrame, end, kf_id.clone()));
                                    }
                                }
                            }
                        }
                    }
                }
            }
            if unhandled {
                proof {
                    if keyframe_handled(s0, kidx as int) {
                        let pid = s0.arena@[kidx as int].info.parent_id->0;
                        let ak = choose|ak: int|
                            #![trigger first_key(s0.active@, pid@, ak)]
                            first_key(s0.active@, pid@, ak) && s0.shown@[s0.active@[ak].1 as int].info.layer@.len() > 0
                                && has_key(s0.current@, s0.shown@[s0.active@[ak].1 as int].info.layer@);
                        assert(has_key(s0.active@, pid@));
                    }
                }
                remove_string(&mut self.checked_keyframes, &kf_id);
                proof {
                    assert forall|id: Seq<char>| #![auto] lists_id(self.checked_keyframes@, id) <==> (id != kf_id@ && lists_id(c0, id)) by {
                        lemma_lists_id_without(c0, kf_id@, id);
                    }
                }
            }
            proof {
                let kk = k as int;
                assert forall|id: Seq<char>, j: int|
                    last_active_keyframe(s0, id, kk + 1, j) implies (lists_id(self.checked_keyframes@, id)
                        <==> keyframe_handled(s0, s0.active_keyframes@[j].1 as int)) by {
                    if j < kk {
                        assert(last_active_keyframe(s0, id, kk, j));
                        assert(id != kf_id@);
                    }
                }
                assert forall|id: Seq<char>|
                    (forall|j: int| 0 <= j < kk + 1 ==> s0.arena@[s0.active_keyframes@[j].1 as int].info.id@ != id) implies (
                    lists_id(self.checked_keyframes@, id) <==> lists_id(s0.checked_keyframes@, id)) by {
                    assert(s0.arena@[s0.active_keyframes@[kk].1 as int].info.id@ != id);
                }
                assert forall|id: Seq<char>, j: int|
                    last_active_keyframe(s0, id, kk + 1, j) && j < kk implies last_active_keyframe(s0, id, kk, j) by {}
            }
            k = k + 1;
        }
    }
}

/// `a` comes after `b` among the instances checked at one point in time:
/// keyframes come first, then ending instances, then the shallower ones.
pub open spec fn point_after_spec(a: PointInTime, b: PointInTime, arena: Seq<ResolvedTimelineObjectInstance>) -> bool {
    let ai = arena[a.obj as int].info;
    let bi = arena[b.obj as int].info;
    if ai.is_keyframe != bi.is_keyframe {
        !ai.is_keyframe
    } else if a.enable != b.enable {
        a.enable
    } else {
        ai.depth > bi.depth
    }
}

/// Whether `a` comes after `b` among the instances checked at one point in
/// time.
fn point_after(a: &PointInTime, b: &PointInTime, arena: &Vec<ResolvedTimelineObjectInstance>) -> (r: bool)
    requires
        a.obj < arena@.len(),
        b.obj < arena@.len(),
    ensures
        r == point_after_spec(*a, *b, arena@),
{
    let ai = &arena[a.obj].info;
    let bi = &arena[b.obj].info;
    if ai.is_keyframe != bi.is_keyframe {
        !ai.is_keyframe
    } else if a.enable != b.enable {
        a.enable
    } else {
        ai.depth > bi.depth
    }
}

/// Sorts the next events into the order of [`next_event_after`].
#[verifier::spinoff_prover]
#[verifier::rlimit(40)]
fn sort_next_events(events: &mut Vec<NextEvent>)
    ensures
        next_events_sorted(final(events)@),
        forall|k: int| 0 <= k < final(events)@.len() ==> old(events)@.contains(#[trigger] final(events)@[k]),
        forall|k: int| 0 <= k < old(events)@.len() ==> final(events)@.contains(#[trigger] old(events)@[k]),
{
    let mut sorted: Vec<NextEvent> = Vec::new();
    let ghost orig = events@;
    let total = events.len();
    let mut n: usize = 0;
    while events.len() > 0
        invariant
            next_events_sorted(sorted@),
            n + events@.len() == orig.len(),
            orig.len() == total,
            events@ == orig.skip(n as int),
            orig == old(events)@,
            forall|k: int| 0 <= k < sorted@.len() ==> orig.contains(#[trigger] sorted@[k]),
            forall|k: int| 0 <= k < n ==> sorted@.contains(#[trigger] orig[k]),
        decreases events@.len(),
    {
        let e = events.remove(0);
        assert(e == orig[n as int]);
        n = n + 1;
        assert(events@ =~= orig.skip(n as int));
        let mut p = sorted.len();
        while p > 0 && next_event_after_exec(&sorted[p - 1], &e)
            invariant
                p <= sorted@.len(),
                forall|k: int| p <= k < sorted@.len() ==> next_event_after(#[trigger] sorted@[k], e),
            decreases p,
        {
            p = p - 1;
        }
        let ghost before = sorted@;
        sorted.insert(p, e);
        proof {
            assert forall|k: int| 0 <= k < sorted@.len() - 1 implies !next_event_after(#[trigger] sorted@[k], sorted@[k + 1]) by {
                if k == p {
                    let b = before[p as int];
                    assert(next_event_after(b, e));
                    crate::text::lemma_seq_less_asymmetric(e.object_id@, b.object_id@);
                    crate::text::lemma_seq_less_asymmetric(b.object_id@, e.object_id@);
                } else if k < p - 1 {
                    assert(sorted@[k] == before[k] && sorted@[k + 1] == before[k + 1]);
                } else if k == p - 1 {
                    assert(sorted@[k] == before[k]);
                } else {
                    assert(sorted@[k] == before[k - 1] && sorted@[k + 1] == before[k]);
                }
            }
            assert forall|k: int| 0 <= k < sorted@.len() implies orig.contains(#[trigger] sorted@[k]) by {
                if k < p {
                    assert(sorted@[k] == before[k]);
                } else if k > p {
                    assert(sorted@[k] == before[k - 1]);
                }
            }
            assert forall|k: int| 0 <= k < n implies sorted@.contains(#[trigger] orig[k]) by {
                if k == n - 1 {
                    assert(sorted@[p as int] == orig[k]);
                } else {
                    assert(before.contains(orig[k]));
                    let q = choose|q: int| 0 <= q < before.len() && before[q] == orig[k];
                    if q < p {
                        assert(sorted@[q] == before[q]);
                    } else {
                        assert(sorted@[q + 1] == before[q]);
                    }
                }
            }
        }
    }
    assert(n == orig.len());
    *events = sorted;
}

fn next_event_after_exec(a: &NextEvent, b: &NextEvent) -> (r: bool)
    ensures
        r == next_event_after(*a, *b),
{
    if a.time != b.time {
        a.time > b.time
    } else if a.event_type != b.event_type {
        let ra: u8 = match a.event_type {
            EventType::Start => 0,
            EventType::End => 1,
            EventType::KeyFrame => 2,
        };
        let rb: u8 = match b.event_type {
            EventType::Start => 0,
            EventType::End => 1,
            EventType::KeyFrame => 2,
        };
        ra < rb
    } else {
        string_less(&b.object_id, &a.object_id)
    }
}

/// An enabled keyframe, of a parent, with instances.
pub open spec fn keyframe_with_instances(o: ResolvedTimelineObject) -> bool {
    &&& o.info.is_keyframe
    &&& !o.info.disabled
    &&& o.info.parent_id is Some
    &&& o.resolved.instances@.len() > 0
}

/// No two objects have the same id.
pub open spec fn distinct_object_ids(objects: Seq<ResolvedTimelineObject>) -> bool {
    forall|a: int, b: int|
        0 <= a < objects.len() && 0 <= b < objects.len() && a != b ==> #[trigger] objects[a].info.id@ != #[trigger] objects[b].info.id@
}

/// The candidate is of some object: it has its id and is a keyframe as it is.
spec fn arena_from(objects: Seq<ResolvedTimelineObject>, a: ResolvedTimelineObjectInstance) -> bool {
    exists|i: int|
        0 <= i < objects.len() && objects[i].info.id@ == a.info.id@ && objects[i].info.is_keyframe == a.info.is_keyframe
}

/// The candidate `a` is the instance `n` of the object `objects[i]`.
spec fn arena_is(objects: Seq<ResolvedTimelineObject>, a: ResolvedTimelineObjectInstance, i: int, n: int) -> bool {
    &&& 0 <= i < objects.len()
    &&& 0 <= n < objects[i].resolved.instances@.len()
    &&& a.info.id@ == objects[i].info.id@
    &&& a.info.is_keyframe == objects[i].info.is_keyframe
    &&& a.info.layer@ == objects[i].info.layer@
    &&& (a.info.parent_id is None <==> objects[i].info.parent_id is None)
    &&& a.instance.id@ == objects[i].resolved.instances@[n].id@
    &&& a.instance.start == objects[i].resolved.instances@[n].start
    &&& a.instance.end == objects[i].resolved.instances@[n].end
}

/// The candidate `a` is an instance of one of the objects.
spec fn arena_exact(objects: Seq<ResolvedTimelineObject>, a: ResolvedTimelineObjectInstance) -> bool {
    exists|i: int, n: int| arena_is(objects, a, i, n)
}

/// Within each object, the instances have distinct ids.
pub open spec fn distinct_instance_ids_each(objects: Seq<ResolvedTimelineObject>) -> bool {
    forall|i: int, a: int, b: int|
        0 <= i < objects.len() && 0 <= a < objects[i].resolved.instances@.len() && 0 <= b
            < objects[i].resolved.instances@.len() && a != b ==> #[trigger] objects[i].resolved.instances@[a].id@
            != #[trigger] objects[i].resolved.instances@[b].id@
}

/// The instance `n` of the object wants to be the state of the object's
/// layer at some time: the object is enabled, is no keyframe, is on a layer
/// and has no parent, and the instance ends after it starts (and, where the
/// states are made for one time, spans that time).
pub open spec fn candidate_instance(o: ResolvedTimelineObject, n: int, only_for_time: Option<Time>) -> bool {
    &&& 0 <= n < o.resolved.instances@.len()
    &&& !o.info.disabled
    &&& !o.info.is_keyframe
    &&& o.info.layer@.len() > 0
    &&& o.info.parent_id is None
    &&& o.resolved.instances@[n].start < end_or_max(o.resolved.instances@[n].end)
    &&& match only_for_time {
        Some(t) => o.resolved.instances@[n].start <= t && end_or_max(o.resolved.instances@[n].end) > t,
        None => true,
    }
}

/// The candidate wants its layer at `time`: it is no keyframe, has no
/// parent, and its instance is on then.
spec fn wanted_at(a: ResolvedTimelineObjectInstance, time: Time) -> bool {
    !a.info.is_keyframe && a.info.parent_id is None && a.instance.start <= time && end_or_max(a.instance.end) > time
}

/// The instance `n` of `objects[i]` is a candidate that turns on at its
/// start among the points.
spec fn start_pointed(
    objects: Seq<ResolvedTimelineObject>,
    arena: Seq<ResolvedTimelineObjectInstance>,
    points: Seq<(Time, Vec<PointInTime>)>,
    i: int,
    n: int,
) -> bool {
    exists|x: int|
        0 <= x < arena.len() && arena_is(objects, arena[x], i, n) && has_point(points, arena[x].instance.start, true, x as usize)
}

/// Adding candidates and points keeps an instance pointed to.
proof fn lemma_start_pointed_grow(
    objects: Seq<ResolvedTimelineObject>,
    a: Seq<ResolvedTimelineObjectInstance>,
    p: Seq<(Time, Vec<PointInTime>)>,
    a2: Seq<ResolvedTimelineObjectInstance>,
    p2: Seq<(Time, Vec<PointInTime>)>,
    i: int,
    n: int,
)
    requires
        start_pointed(objects, a, p, i, n),
        a.len() <= a2.len(),
        forall|x: int| 0 <= x < a.len() ==> a2[x] == a[x],
        forall|t: Time, e: bool, x: usize| has_point(p, t, e, x) ==> has_point(p2, t, e, x),
    ensures
        start_pointed(objects, a2, p2, i, n),
{
    let x = choose|x: int|
        0 <= x < a.len() && arena_is(objects, a[x], i, n) && has_point(p, a[x].instance.start, true, x as usize);
    assert(a2[x] == a[x]);
    assert(has_point(p2, a[x].instance.start, true, x as usize));
}

/// The candidate instances of the first `k` objects in `order` are pointed to.
spec fn pointed_upto(
    objects: Seq<ResolvedTimelineObject>,
    order: Seq<usize>,
    arena: Seq<ResolvedTimelineObjectInstance>,
    points: Seq<(Time, Vec<PointInTime>)>,
    k: int,
    only_for_time: Option<Time>,
) -> bool {
    forall|k2: int, n2: int|
        0 <= k2 < k && #[trigger] candidate_instance(objects[order[k2] as int], n2, only_for_time) ==> start_pointed(
            objects,
            arena,
            points,
            order[k2] as int,
            n2,
        )
}

/// The first `n` candidate instances of `objects[i]` are pointed to.
spec fn pointed_instances_upto(
    objects: Seq<ResolvedTimelineObject>,
    arena: Seq<ResolvedTimelineObjectInstance>,
    points: Seq<(Time, Vec<PointInTime>)>,
    i: int,
    n: int,
    only_for_time: Option<Time>,
) -> bool {
    forall|n2: int| 0 <= n2 < n && #[trigger] candidate_instance(objects[i], n2, only_for_time) ==> start_pointed(objects, arena, points, i, n2)
}

proof fn lemma_pointed_grow(
    objects: Seq<ResolvedTimelineObject>,
    order: Seq<usize>,
    a: Seq<ResolvedTimelineObjectInstance>,
    p: Seq<(Time, Vec<PointInTime>)>,
    a2: Seq<ResolvedTimelineObjectInstance>,
    p2: Seq<(Time, Vec<PointInTime>)>,
    k: int,
    i: int,
    n: int,
    only_for_time: Option<Time>,
)
    requires
        a.len() <= a2.len(),
        forall|x: int| 0 <= x < a.len() ==> a2[x] == a[x],
        forall|t: Time, e: bool, x: usize| has_point(p, t, e, x) ==> has_point(p2, t, e, x),
    ensures
        pointed_upto(objects, order, a, p, k, only_for_time) ==> pointed_upto(objects, order, a2, p2, k, only_for_time),
        pointed_instances_upto(objects, a, p, i, n, only_for_time) ==> pointed_instances_upto(objects, a2, p2, i, n, only_for_time),
{
    if pointed_upto(objects, order, a, p, k, only_for_time) {
        assert forall|k2: int, n2: int|
            0 <= k2 < k && #[trigger] candidate_instance(objects[order[k2] as int], n2, only_for_time) implies start_pointed(
            objects,
            a2,
            p2,
            order[k2] as int,
            n2,
        ) by {
            lemma_start_pointed_grow(objects, a, p, a2, p2, order[k2] as int, n2);
        }
    }
    if pointed_instances_upto(objects, a, p, i, n, only_for_time) {
        assert forall|n2: int| 0 <= n2 < n && #[trigger] candidate_instance(objects[i], n2, only_for_time) implies start_pointed(
            objects,
            a2,
            p2,
            i,
            n2,
        ) by {
            lemma_start_pointed_grow(objects, a, p, a2, p2, i, n2);
        }
    }
}

/// Where the ids of the objects are distinct, candidates with one id are on
/// one layer.
proof fn lemma_same_id_same_layer(
    objects: Seq<ResolvedTimelineObject>,
    a: ResolvedTimelineObjectInstance,
    b: ResolvedTimelineObjectInstance,
)
    requires
        distinct_object_ids(objects),
        arena_exact(objects, a),
        arena_exact(objects, b),
        a.info.id@ == b.info.id@,
    ensures
        a.info.layer@ == b.info.layer@,
{
    let (i, n) = choose|i: int, n: int| arena_is(objects, a, i, n);
    let (j, m) = choose|j: int, m: int| arena_is(objects, b, j, m);
    if i != j {
        assert(objects[i].info.id@ != objects[j].info.id@);
    }
}

/// Where the ids of the objects, and those of each object's instances, are
/// distinct, two candidates with the same ids are the same instance.
proof fn lemma_same_ids_same_instance(
    objects: Seq<ResolvedTimelineObject>,
    a: ResolvedTimelineObjectInstance,
    b: ResolvedTimelineObjectInstance,
)
    requires
        distinct_object_ids(objects),
        distinct_instance_ids_each(objects),
        arena_exact(objects, a),
        arena_exact(objects, b),
        a.info.id@ == b.info.id@,
        a.instance.id@ == b.instance.id@,
    ensures
        a.info.is_keyframe == b.info.is_keyframe,
        a.info.layer@ == b.info.layer@,
        a.info.parent_id is None <==> b.info.parent_id is None,
        a.instance.start == b.instance.start,
        a.instance.end == b.instance.end,
{
    let (i, n) = choose|i: int, n: int| arena_is(objects, a, i, n);
    let (j, m) = choose|j: int, m: int| arena_is(objects, b, j, m);
    if i != j {
        assert(objects[i].info.id@ != objects[j].info.id@);
    }
    if n != m {
        assert(objects[i].resolved.instances@[n].id@ != objects[i].resolved.instances@[m].id@);
    }
}

/// Some keyframe candidate with the id `id` turns on at its start among the
/// points.
spec fn kf_pointed(arena: Seq<ResolvedTimelineObjectInstance>, points: Seq<(Time, Vec<PointInTime>)>, id: Seq<char>) -> bool {
    exists|x: int|
        0 <= x < arena.len() && arena[x].info.id@ == id && arena[x].info.is_keyframe && has_point(
            points,
            arena[x].instance.start,
            true,
            x as usize,
        )
}

/// Where ids are distinct, candidates with one id are of one kind.
proof fn lemma_same_id_same_kind(
    objects: Seq<ResolvedTimelineObject>,
    a: ResolvedTimelineObjectInstance,
    b: ResolvedTimelineObjectInstance,
)
    requires
        distinct_object_ids(objects),
        arena_from(objects, a),
        arena_from(objects, b),
        a.info.id@ == b.info.id@,
    ensures
        a.info.is_keyframe == b.info.is_keyframe,
{
    let i = choose|i: int|
        0 <= i < objects.len() && objects[i].info.id@ == a.info.id@ && objects[i].info.is_keyframe == a.info.is_keyframe;
    let j = choose|j: int|
        0 <= j < objects.len() && objects[j].info.id@ == b.info.id@ && objects[j].info.is_keyframe == b.info.is_keyframe;
    if i != j {
        assert(objects[i].info.id@ != objects[j].info.id@);
    }
}

/// Adding candidates and points keeps a keyframe pointed to.
proof fn lemma_kf_pointed_grow(
    a: Seq<ResolvedTimelineObjectInstance>,
    p: Seq<(Time, Vec<PointInTime>)>,
    a2: Seq<ResolvedTimelineObjectInstance>,
    p2: Seq<(Time, Vec<PointInTime>)>,
    id: Seq<char>,
)
    requires
        kf_pointed(a, p, id),
        a.len() <= a2.len(),
        forall|x: int| 0 <= x < a.len() ==> a2[x] == a[x],
        forall|t: Time, e: bool, x: usize| has_point(p, t, e, x) ==> has_point(p2, t, e, x),
    ensures
        kf_pointed(a2, p2, id),
{
    let x = choose|x: int|
        0 <= x < a.len() && a[x].info.id@ == id && a[x].info.is_keyframe && has_point(p, a[x].instance.start, true, x as usize);
    assert(a2[x] == a[x]);
    assert(has_point(p2, a[x].instance.start, true, x as usize));
}

/// Resolves the states of the layers over time: sweeping the points in time
/// where instances start and end, the instance that takes precedence on each
/// layer (by priority, then the latest start) is its state. Each object
/// that is a state gets the instances in which it is, and the next events
/// are noted; with `only_for_time`, only the instances at that time count
/// and only the events after it are kept. Every change of a layer's state
/// after that time (or after 0) is among the next events, and the layer of
/// every enabled top-level object with an instance that counts has states.
#[verifier::spinoff_prover]
pub fn resolve_all_states(resolved: &ResolvedTimeline, only_for_time: Option<Time>) -> (r: Result<ResolvedStates, ResolvedStatesError>)
    ensures
        match r {
            Ok(s) => {
                &&& shown_ids(s.state@).subset_of(object_ids(resolved.objects@))
                &&& forall|k: int|
                    0 <= k < s.next_events@.len() ==> object_ids(resolved.objects@).contains(
                        (#[trigger] s.next_events@[k]).object_id@,
                    )
                &&& next_events_sorted(s.next_events@)
                &&& only_for_time matches Some(t) ==> forall|k: int| 0 <= k < s.next_events@.len() ==> (#[trigger] s.next_events@[k]).time > t
                &&& states_sorted(s.state@)
                &&& states_on_own_layers(s.state@)
                &&& changes_announced(s.state@, s.next_events@, after_time(only_for_time))
                &&& distinct_object_ids(resolved.objects@) && distinct_instance_ids_each(resolved.objects@) ==> forall|
                    i: int,
                    n: int,
                |
                    0 <= i < resolved.objects@.len() && #[trigger] candidate_instance(resolved.objects@[i], n, only_for_time)
                        ==> state_lookup(s.state@, resolved.objects@[i].info.layer@) is Some
                &&& distinct_object_ids(resolved.objects@) ==> forall|i: int|
                    0 <= i < resolved.objects@.len() && keyframe_with_instances(#[trigger] resolved.objects@[i])
                        ==> has_object_id(s.objects@, resolved.objects@[i].info.id@)
            },
            Err(_) => false,
        },
{
    let order = object_order(&resolved.objects);
    // Step 1: collect the points in time of interest, and the instances
    let mut arena: Vec<ResolvedTimelineObjectInstance> = Vec::new();
    let mut points: Vec<(Time, Vec<PointInTime>)> = Vec::new();
    let mut k: usize = 0;
    while k < order.len()
        invariant
            forall|x: int| 0 <= x < order@.len() ==> #[trigger] order@[x] < resolved.objects@.len(),
            forall|x: int, m: int| 0 <= x < points@.len() && 0 <= m < points@[x].1@.len() ==> #[trigger] points@[x].1@[m].obj < arena@.len(),
            forall|x: int| 0 <= x < arena@.len() ==> object_ids(resolved.objects@).contains((#[trigger] arena@[x]).info.id@),
            forall|x: int| 0 <= x < arena@.len() ==> !(#[trigger] arena@[x]).info.disabled,
            forall|x: int| 0 <= x < arena@.len() ==> arena_from(resolved.objects@, #[trigger] arena@[x]),
            forall|x: int| 0 <= x < arena@.len() ==> arena_exact(resolved.objects@, #[trigger] arena@[x]),
            k <= order@.len(),
            pointed_upto(resolved.objects@, order@, arena@, points@, k as int, only_for_time),
        decreases order@.len() - k,
    {
        let obj = &resolved.objects[order[k]];
        assert(object_ids(resolved.objects@).contains(obj.info.id@)) by {
            assert(resolved.objects@[order@[k as int] as int].info.id@ == obj.info.id@);
        }
        let ghost a_k = arena@;
        let ghost p_k = points@;
        if !obj.info.disabled && !obj.info.layer.as_str().is_empty() && !obj.info.is_keyframe {
            let parent_times = get_times_from_parent(resolved, obj);
            let mut n: usize = 0;
            while n < obj.resolved.instances.len()
                invariant
                    forall|x: int, m: int| 0 <= x < points@.len() && 0 <= m < points@[x].1@.len() ==> #[trigger] points@[x].1@[m].obj < arena@.len(),
                    forall|x: int| 0 <= x < arena@.len() ==> object_ids(resolved.objects@).contains((#[trigger] arena@[x]).info.id@),
                    object_ids(resolved.objects@).contains(obj.info.id@),
                    forall|x: int| 0 <= x < arena@.len() ==> !(#[trigger] arena@[x]).info.disabled,
                    !obj.info.disabled,
                    forall|x: int| 0 <= x < arena@.len() ==> arena_from(resolved.objects@, #[trigger] arena@[x]),
            forall|x: int| 0 <= x < arena@.len() ==> arena_exact(resolved.objects@, #[trigger] arena@[x]),
                    0 <= order@[k as int] < resolved.objects@.len(),
                    resolved.objects@[order@[k as int] as int] == *obj,
                    k < order@.len(),
                    n <= obj.resolved.instances@.len(),
                    pointed_upto(resolved.objects@, order@, arena@, points@, k as int, only_for_time),
                    pointed_instances_upto(resolved.objects@, arena@, points@, order@[k as int] as int, n as int, only_for_time),
                decreases obj.resolved.instances@.len() - n,
            {
                let ghost a_b = arena@;
                let ghost p_b = points@;
                let instance = &obj.resolved.instances[n];
                let instance_end = match instance.end {
                    Some(e) => e,
                    None => Time::MAX,
                };
                let use_instance = match only_for_time {
                    Some(t) => instance.start <= t && instance_end > t,
                    None => true,
                };
                if use_instance {
                    let idx = arena.len();
                    arena.push(make_resolved_obj(obj, instance));
                    assert(arena_from(resolved.objects@, arena@[idx as int])) by {
                        assert(resolved.objects@[order@[k as int] as int] == *obj);
                    }
                    assert(arena_is(resolved.objects@, arena@[idx as int], order@[k as int] as int, n as int));
                    assert(forall|x: int| 0 <= x < arena@.len() ==> arena_exact(resolved.objects@, #[trigger] arena@[x])) by {
                        assert forall|x: int| 0 <= x < arena@.len() implies arena_exact(resolved.objects@, #[trigger] arena@[x]) by {
                            if x == idx {
                                assert(arena_is(resolved.objects@, arena@[x], order@[k as int] as int, n as int));
                            }
                        }
                    }
                    add_point_checked(&mut points, instance.start, true, idx, arena.len());
                    let ghost a_s = arena@;
                    let ghost p_s = points@;
                    assert(start_pointed(resolved.objects@, a_s, p_s, order@[k as int] as int, n as int)) by {
                        assert(arena_is(resolved.objects@, a_s[idx as int], order@[k as int] as int, n as int));
                    }
                    if let Some(end) = instance.end {
                        add_point_checked(&mut points, end, false, idx, arena.len());
                    }
                    let ghost p_e = points@;
                    // Also the times of the parents, as they could affect the state of this instance
                    let mut m: usize = 0;
                    while m < parent_times.len()
                        invariant
                            forall|t: Time, e: bool, x: usize| has_point(p_e, t, e, x) ==> has_point(points@, t, e, x),
                            idx < arena@.len(),
                            forall|x: int| 0 <= x < arena@.len() ==> object_ids(resolved.objects@).contains((#[trigger] arena@[x]).info.id@),
                            forall|x: int, y: int| 0 <= x < points@.len() && 0 <= y < points@[x].1@.len() ==> #[trigger] points@[x].1@[y].obj < arena@.len(),
                            forall|x: int| 0 <= x < arena@.len() ==> !(#[trigger] arena@[x]).info.disabled,
                            forall|x: int| 0 <= x < arena@.len() ==> arena_from(resolved.objects@, #[trigger] arena@[x]),
            forall|x: int| 0 <= x < arena@.len() ==> arena_exact(resolved.objects@, #[trigger] arena@[x]),
                        decreases parent_times@.len() - m,
                    {
                        let pt = &parent_times[m];
                        if pt.time > instance.start && pt.time < instance_end {
                            add_point_checked(&mut points, pt.time, pt.enable, idx, arena.len());
                        }
                        m = m + 1;
                    }
                    proof {
                        lemma_start_pointed_grow(resolved.objects@, a_s, p_s, arena@, points@, order@[k as int] as int, n as int);
                    }
                }
                proof {
                    let i = order@[k as int] as int;
                    lemma_pointed_grow(resolved.objects@, order@, a_b, p_b, arena@, points@, k as int, i, n as int, only_for_time);
                    assert forall|n2: int| 0 <= n2 < n + 1 && #[trigger] candidate_instance(resolved.objects@[i], n2, only_for_time) implies start_pointed(
                        resolved.objects@,
                        arena@,
                        points@,
                        i,
                        n2,
                    ) by {
                        if n2 == n {
                            assert(use_instance);
                        }
                    }
                }
                n = n + 1;
            }
            proof {
                let i = order@[k as int] as int;
                assert forall|k2: int, n2: int|
                    0 <= k2 < k + 1 && #[trigger] candidate_instance(resolved.objects@[order@[k2] as int], n2, only_for_time) implies start_pointed(
                    resolved.objects@,
                    arena@,
                    points@,
                    order@[k2] as int,
                    n2,
                ) by {
                    if k2 == k {
                        assert(candidate_instance(resolved.objects@[i], n2, only_for_time));
                    }
                }
            }
        } else {
            proof {
                let i = order@[k as int] as int;
                assert forall|k2: int, n2: int|
                    0 <= k2 < k + 1 && #[trigger] candidate_instance(resolved.objects@[order@[k2] as int], n2, only_for_time) implies start_pointed(
                    resolved.objects@,
                    arena@,
                    points@,
                    order@[k2] as int,
                    n2,
                ) by {
                    if k2 == k {
                        assert(resolved.objects@[i] == *obj);
                    }
                }
            }
        }
        k = k + 1;
    }
    // Also the keyframes
    let mut k: usize = 0;
    while k < order.len()
        invariant
            forall|x: int| 0 <= x < order@.len() ==> #[trigger] order@[x] < resolved.objects@.len(),
            forall|x: int, m: int| 0 <= x < points@.len() && 0 <= m < points@[x].1@.len() ==> #[trigger] points@[x].1@[m].obj < arena@.len(),
            forall|x: int| 0 <= x < arena@.len() ==> object_ids(resolved.objects@).contains((#[trigger] arena@[x]).info.id@),
            forall|x: int| 0 <= x < arena@.len() ==> !(#[trigger] arena@[x]).info.disabled,
            forall|x: int| 0 <= x < arena@.len() ==> arena_from(resolved.objects@, #[trigger] arena@[x]),
            forall|x: int| 0 <= x < arena@.len() ==> arena_exact(resolved.objects@, #[trigger] arena@[x]),
            k <= order@.len(),
            pointed_upto(resolved.objects@, order@, arena@, points@, order@.len() as int, only_for_time),
            forall|k2: int|
                0 <= k2 < k && keyframe_with_instances(resolved.objects@[#[trigger] order@[k2] as int]) ==> kf_pointed(
                    arena@,
                    points@,
                    resolved.objects@[order@[k2] as int].info.id@,
                ),
        decreases order@.len() - k,
    {
        let obj = &resolved.objects[order[k]];
        assert(object_ids(resolved.objects@).contains(obj.info.id@)) by {
            assert(resolved.objects@[order@[k as int] as int].info.id@ == obj.info.id@);
        }
        if !obj.info.disabled && obj.info.is_keyframe && obj.info.parent_id.is_some() {
            let mut n: usize = 0;
            while n < obj.resolved.instances.len()
                invariant
                    forall|x: int, m: int| 0 <= x < points@.len() && 0 <= m < points@[x].1@.len() ==> #[trigger] points@[x].1@[m].obj < arena@.len(),
                    forall|x: int| 0 <= x < arena@.len() ==> object_ids(resolved.objects@).contains((#[trigger] arena@[x]).info.id@),
                    object_ids(resolved.objects@).contains(obj.info.id@),
                    forall|x: int| 0 <= x < arena@.len() ==> !(#[trigger] arena@[x]).info.disabled,
                    !obj.info.disabled,
                    forall|x: int| 0 <= x < arena@.len() ==> arena_from(resolved.objects@, #[trigger] arena@[x]),
            forall|x: int| 0 <= x < arena@.len() ==> arena_exact(resolved.objects@, #[trigger] arena@[x]),
                    0 <= order@[k as int] < resolved.objects@.len(),
                    resolved.objects@[order@[k as int] as int] == *obj,
                    obj.info.is_keyframe,
                    k < order@.len(),
                    pointed_upto(resolved.objects@, order@, arena@, points@, order@.len() as int, only_for_time),
                    forall|k2: int|
                        0 <= k2 < k && keyframe_with_instances(resolved.objects@[#[trigger] order@[k2] as int]) ==> kf_pointed(
                            arena@,
                            points@,
                            resolved.objects@[order@[k2] as int].info.id@,
                        ),
                    n > 0 ==> kf_pointed(arena@, points@, obj.info.id@),
                decreases obj.resolved.instances@.len() - n,
            {
                let instance = &obj.resolved.instances[n];
                let idx = arena.len();
                let ghost a_before = arena@;
                let ghost p_before = points@;
                arena.push(make_resolved_obj(obj, instance));
                assert(arena_from(resolved.objects@, arena@[idx as int])) by {
                    assert(resolved.objects@[order@[k as int] as int] == *obj);
                }
                assert(forall|x: int| 0 <= x < arena@.len() ==> arena_exact(resolved.objects@, #[trigger] arena@[x])) by {
                    assert forall|x: int| 0 <= x < arena@.len() implies arena_exact(resolved.objects@, #[trigger] arena@[x]) by {
                        if x == idx {
                            assert(arena_is(resolved.objects@, arena@[x], order@[k as int] as int, n as int));
                        }
                    }
                }
                add_point_checked(&mut points, instance.start, true, idx, arena.len());
                assert(arena@[idx as int].instance.start == instance.start);
                assert(kf_pointed(arena@, points@, obj.info.id@));
                let ghost p_mid = points@;
                if let Some(end) = instance.end {
                    add_point_checked(&mut points, end, false, idx, arena.len());
                }
                proof {
                    lemma_pointed_grow(resolved.objects@, order@, a_before, p_before, arena@, points@, order@.len() as int, 0, 0, only_for_time);
                    lemma_kf_pointed_grow(arena@, p_mid, arena@, points@, obj.info.id@);
                    assert forall|k2: int|
                        0 <= k2 < k && keyframe_with_instances(resolved.objects@[#[trigger] order@[k2] as int]) implies kf_pointed(
                        arena@,
                        points@,
                        resolved.objects@[order@[k2] as int].info.id@,
                    ) by {
                        lemma_kf_pointed_grow(a_before, p_before, arena@, points@, resolved.objects@[order@[k2] as int].info.id@);
                    }
                }
                n = n + 1;
            }
        }
        proof {
            let kk = k as int;
            assert forall|k2: int|
                0 <= k2 < kk + 1 && keyframe_with_instances(resolved.objects@[#[trigger] order@[k2] as int]) implies kf_pointed(
                arena@,
                points@,
                resolved.objects@[order@[k2] as int].info.id@,
            ) by {
                if k2 == kk {
                    assert(resolved.objects@[order@[kk] as int] == *obj);
                }
            }
        }
        k = k + 1;
    }
    proof {
        assert forall|i: int|
            0 <= i < resolved.objects@.len() && keyframe_with_instances(#[trigger] resolved.objects@[i]) implies kf_pointed(
            arena@,
            points@,
            resolved.objects@[i].info.id@,
        ) by {
            assert(order@.contains(i as usize));
            let k2 = choose|k2: int| 0 <= k2 < order@.len() && order@[k2] == i as usize;
        }
        assert forall|i: int, n: int|
            0 <= i < resolved.objects@.len() && #[trigger] candidate_instance(resolved.objects@[i], n, only_for_time) implies start_pointed(
            resolved.objects@,
            arena@,
            points@,
            i,
            n,
        ) by {
            assert(order@.contains(i as usize));
            let k2 = choose|k2: int| 0 <= k2 < order@.len() && order@[k2] == i as usize;
            assert(candidate_instance(resolved.objects@[order@[k2] as int], n, only_for_time));
        }
    }
    // Step 2: sweep the points in time
    let mut sweep = Sweep {
        arena,
        aspiring: Vec::new(),
        current: Vec::new(),
        active: Vec::new(),
        shown: Vec::new(),
        active_keyframes: Vec::new(),
        checked_keyframes: Vec::new(),
        event_object_times: Vec::new(),
        keyframe_events: Vec::new(),
        states: ResolvedStates {
            state: Vec::new(),
            next_events: Vec::new(),
            objects: Vec::new(),
            classes: Vec::new(),
            layers: Vec::new(),
        },
        ids: Ghost(object_ids(resolved.objects@)),
    };
    proof {
        assert(shown_ids(sweep.states.state@) =~= Set::<Seq<char>>::empty());
    }
    let ghost arena0 = sweep.arena;
    let ghost points0 = points@;
    let mut pi: usize = 0;
    while pi < points.len()
        invariant
            sweep.wf(),
            changes_announced(sweep.states.state@, sweep.states.next_events@, after_time(only_for_time)),
            sweep.arena == arena0,
            sweep.ids@ == object_ids(resolved.objects@),
            forall|x: int, m: int| 0 <= x < points@.len() && 0 <= m < points@[x].1@.len() ==> #[trigger] points@[x].1@[m].obj < arena0@.len(),
            points@ == points0,
            pi <= points@.len(),
            forall|x: int| 0 <= x < arena0@.len() ==> arena_from(resolved.objects@, #[trigger] arena0@[x]),
            forall|x: int| 0 <= x < arena0@.len() ==> arena_exact(resolved.objects@, #[trigger] arena0@[x]),
            distinct_object_ids(resolved.objects@) ==> forall|jj: int, mm: int|
                0 <= jj < pi && 0 <= mm < points@[jj].1@.len() && arena0@[(#[trigger] points@[jj].1@[mm]).obj as int].info.is_keyframe
                    ==> has_object_id(sweep.states.objects@, arena0@[points@[jj].1@[mm].obj as int].info.id@),
            distinct_object_ids(resolved.objects@) && distinct_instance_ids_each(resolved.objects@) ==> forall|jj: int, mm: int|
                0 <= jj < pi && 0 <= mm < points@[jj].1@.len() && (#[trigger] points@[jj].1@[mm]).enable && wanted_at(
                    arena0@[points@[jj].1@[mm].obj as int],
                    points@[jj].0,
                ) ==> state_lookup(sweep.states.state@, arena0@[points@[jj].1@[mm].obj as int].info.layer@) is Some,
        decreases points@.len() - pi,
    {
        let time = points[pi].0;
        let list = &points[pi].1;
        proof {
            assert forall|m: int| 0 <= m < list@.len() implies #[trigger] list@[m].obj < sweep.arena@.len() by {
                assert(points@[pi as int].1@[m].obj < arena0@.len());
            }
        }
        // The order to check them in
        let mut checks: Vec<usize> = Vec::new();
        let mut j: usize = 0;
        while j < list.len()
            invariant
                j <= list@.len(),
                forall|m: int| 0 <= m < list@.len() ==> #[trigger] list@[m].obj < sweep.arena@.len(),
                forall|x: int| 0 <= x < checks@.len() ==> #[trigger] checks@[x] < list@.len(),
                forall|i: usize| i < j ==> #[trigger] checks@.contains(i),
            decreases list@.len() - j,
        {
            let mut p = checks.len();
            while p > 0 && point_after(&list[checks[p - 1]], &list[j], &sweep.arena)
                invariant
                    p <= checks@.len(),
                    j < list@.len(),
                    forall|m: int| 0 <= m < list@.len() ==> #[trigger] list@[m].obj < sweep.arena@.len(),
                    forall|x: int| 0 <= x < checks@.len() ==> #[trigger] checks@[x] < list@.len(),
                    forall|i: usize| i < j ==> #[trigger] checks@.contains(i),
                decreases p,
            {
                p = p - 1;
            }
            let ghost cb = checks@;
            checks.insert(p, j);
            proof {
                assert(checks@[p as int] == j);
                assert forall|i: usize| i < j + 1 implies #[trigger] checks@.contains(i) by {
                    if i < j {
                        assert(cb.contains(i));
                        let q = choose|q: int| 0 <= q < cb.len() && cb[q] == i;
                        if q < p {
                            assert(checks@[q] == cb[q]);
                        } else {
                            assert(checks@[q + 1] == cb[q]);
                        }
                    }
                }
            }
            j = j + 1;
        }
        let mut checked: Vec<(String, String, bool)> = Vec::new();
        let mut c: usize = 0;
        while c < checks.len()
            invariant
                sweep.wf(),
                changes_announced(sweep.states.state@, sweep.states.next_events@, after_time(only_for_time)),
                sweep.arena == arena0,
                sweep.ids@ == object_ids(resolved.objects@),
                forall|m: int| 0 <= m < list@.len() ==> #[trigger] list@[m].obj < arena0@.len(),
                forall|x: int| 0 <= x < checks@.len() ==> #[trigger] checks@[x] < list@.len(),
                c <= checks@.len(),
                list@ == points0[pi as int].1@,
                pi < points0.len(),
                forall|x: int| 0 <= x < arena0@.len() ==> arena_from(resolved.objects@, #[trigger] arena0@[x]),
            forall|x: int| 0 <= x < arena0@.len() ==> arena_exact(resolved.objects@, #[trigger] arena0@[x]),
                forall|q: int|
                    0 <= q < checked@.len() ==> exists|y: int|
                        0 <= y < arena0@.len() && arena0@[y].info.id@ == (#[trigger] checked@[q]).0@ && (
                        arena0@[y].info.is_keyframe ==> has_object_id(sweep.states.objects@, checked@[q].0@)),
                distinct_object_ids(resolved.objects@) ==> forall|c2: int|
                    0 <= c2 < c && arena0@[list@[#[trigger] checks@[c2] as int].obj as int].info.is_keyframe ==> has_object_id(
                        sweep.states.objects@,
                        arena0@[list@[checks@[c2] as int].obj as int].info.id@,
                    ),
                distinct_object_ids(resolved.objects@) ==> forall|jj: int, mm: int|
                    0 <= jj < pi && 0 <= mm < points0[jj].1@.len() && arena0@[(#[trigger] points0[jj].1@[mm]).obj as int].info.is_keyframe
                        ==> has_object_id(sweep.states.objects@, arena0@[points0[jj].1@[mm].obj as int].info.id@),
                time == points0[pi as int].0,
                distinct_object_ids(resolved.objects@) && distinct_instance_ids_each(resolved.objects@) ==> forall|q: int|
                    0 <= q < checked@.len() ==> exists|y: int|
                        0 <= y < arena0@.len() && arena0@[y].info.id@ == (#[trigger] checked@[q]).0@ && arena0@[y].instance.id@
                            == checked@[q].1@ && (checked@[q].2 && wanted_at(arena0@[y], time) ==> state_lookup(
                            sweep.states.state@,
                            arena0@[y].info.layer@,
                        ) is Some),
                distinct_object_ids(resolved.objects@) && distinct_instance_ids_each(resolved.objects@) ==> forall|c2: int|
                    0 <= c2 < c && list@[#[trigger] checks@[c2] as int].enable && wanted_at(arena0@[list@[checks@[c2] as int].obj as int], time)
                        ==> state_lookup(sweep.states.state@, arena0@[list@[checks@[c2] as int].obj as int].info.layer@) is Some,
                distinct_object_ids(resolved.objects@) && distinct_instance_ids_each(resolved.objects@) ==> forall|jj: int, mm: int|
                    0 <= jj < pi && 0 <= mm < points0[jj].1@.len() && (#[trigger] points0[jj].1@[mm]).enable && wanted_at(
                        arena0@[points0[jj].1@[mm].obj as int],
                        points0[jj].0,
                    ) ==> state_lookup(sweep.states.state@, arena0@[points0[jj].1@[mm].obj as int].info.layer@) is Some,
            decreases checks@.len() - c,
        {
            let o = &list[checks[c]];
            let obj_id = sweep.arena[o.obj].info.id.clone();
            let inst_id = sweep.arena[o.obj].instance.id.clone();
            let mut seen = false;
            let mut m: usize = 0;
            while m < checked.len()
                invariant
                    m <= checked@.len(),
                    seen ==> exists|q: int|
                        0 <= q < m && (#[trigger] checked@[q]).0@ == obj_id@ && checked@[q].1@ == inst_id@ && checked@[q].2
                            == o.enable,
                decreases checked@.len() - m,
            {
                if checked[m].0 == obj_id && checked[m].1 == inst_id && checked[m].2 == o.enable {
                    seen = true;
                }
                m = m + 1;
            }
            let ghost objs_before = sweep.states.objects@;
            let ghost checked_before = checked@;
            let ghost x = o.obj as int;
            let ghost st0 = sweep.states.state@;
            if !seen {
                // Only check each object and event type once for every point in time
                checked.push((obj_id, inst_id, o.enable));
                let ghost sweep_before = sweep;
                sweep.check_point(resolved, time, o, only_for_time);
                proof {
                    assert forall|id: Seq<char>| has_object_id(objs_before, id) implies has_object_id(sweep.states.objects@, id) by {
                        lemma_keeps_object_ids(objs_before, sweep.states.objects@, id);
                    }
                    if arena0@[x].info.is_keyframe {
                        let i = choose|i: int|
                            0 <= i < sweep.states.objects@.len() && sweep.states.objects@[i].info.id@ == arena0@[x].info.id@
                                && sweep.states.objects@[i].instances@.len() == 1 && same_instance(
                                sweep.states.objects@[i].instances@[0],
                                arena0@[x].instance,
                            );
                        assert(has_object_id(sweep.states.objects@, arena0@[x].info.id@));
                    }
                    assert forall|q: int| 0 <= q < checked@.len() implies exists|y: int|
                        0 <= y < arena0@.len() && arena0@[y].info.id@ == (#[trigger] checked@[q]).0@ && (
                        arena0@[y].info.is_keyframe ==> has_object_id(sweep.states.objects@, checked@[q].0@)) by {
                        if q < checked_before.len() {
                            assert(checked@[q] == checked_before[q]);
                        } else {
                            assert(arena0@[x].info.id@ == checked@[q].0@);
                        }
                    }
                    if distinct_object_ids(resolved.objects@) && distinct_instance_ids_each(resolved.objects@) {
                        if wanted_at(arena0@[x], time) {
                            assert(wants_layer(sweep_before, *resolved, x, time));
                            let (t, y) = choose|t: int, y: int|
                                0 <= t < arena0@.len() && 0 <= y < arena0@.len() && arena0@[t].info.layer@ == arena0@[x].info.layer@
                                    && arena0@[y].info.id@ == arena0@[t].info.id@ && state_lookup(
                                    sweep.states.state@,
                                    arena0@[y].info.layer@,
                                ) is Some;
                            lemma_same_id_same_layer(resolved.objects@, arena0@[y], arena0@[t]);
                            assert(state_lookup(sweep.states.state@, arena0@[x].info.layer@) is Some);
                        }
                        assert forall|q: int| 0 <= q < checked@.len() implies exists|y: int|
                            0 <= y < arena0@.len() && arena0@[y].info.id@ == (#[trigger] checked@[q]).0@ && arena0@[y].instance.id@
                                == checked@[q].1@ && (checked@[q].2 && wanted_at(arena0@[y], time) ==> state_lookup(
                                sweep.states.state@,
                                arena0@[y].info.layer@,
                            ) is Some) by {
                            if q < checked_before.len() {
                                assert(checked@[q] == checked_before[q]);
                                let y = choose|y: int|
                                    0 <= y < arena0@.len() && arena0@[y].info.id@ == checked_before[q].0@ && arena0@[y].instance.id@
                                        == checked_before[q].1@ && (checked_before[q].2 && wanted_at(arena0@[y], time) ==> state_lookup(
                                        st0,
                                        arena0@[y].info.layer@,
                                    ) is Some);
                                if checked_before[q].2 && wanted_at(arena0@[y], time) {
                                    assert(state_lookup(st0, arena0@[y].info.layer@) is Some);
                                }
                            } else {
                                assert(checked@[q] == (obj_id, inst_id, o.enable));
                                assert(arena0@[x].info.id@ == checked@[q].0@ && arena0@[x].instance.id@ == checked@[q].1@);
                            }
                        }
                    }
                }
            } else {
                proof {
                    if distinct_object_ids(resolved.objects@) && arena0@[x].info.is_keyframe {
                        let q = choose|q: int| 0 <= q < checked@.len() && (#[trigger] checked@[q]).0@ == obj_id@;
                        let y = choose|y: int|
                            0 <= y < arena0@.len() && arena0@[y].info.id@ == checked@[q].0@ && (arena0@[y].info.is_keyframe
                                ==> has_object_id(sweep.states.objects@, checked@[q].0@));
                        lemma_same_id_same_kind(resolved.objects@, arena0@[x], arena0@[y]);
                    }
                    if distinct_object_ids(resolved.objects@) && distinct_instance_ids_each(resolved.objects@) && o.enable && wanted_at(arena0@[x], time) {
                        let q = choose|q: int|
                            0 <= q < checked@.len() && (#[trigger] checked@[q]).0@ == obj_id@ && checked@[q].1@ == inst_id@
                                && checked@[q].2 == o.enable;
                        let y = choose|y: int|
                            0 <= y < arena0@.len() && arena0@[y].info.id@ == checked@[q].0@ && arena0@[y].instance.id@
                                == checked@[q].1@ && (checked@[q].2 && wanted_at(arena0@[y], time) ==> state_lookup(
                                sweep.states.state@,
                                arena0@[y].info.layer@,
                            ) is Some);
                        lemma_same_ids_same_instance(resolved.objects@, arena0@[x], arena0@[y]);
                        assert(wanted_at(arena0@[y], time));
                    }
                }
            }
            proof {
                let cc = c as int;
                if distinct_object_ids(resolved.objects@) {
                    assert forall|c2: int|
                        0 <= c2 < cc + 1 && arena0@[list@[#[trigger] checks@[c2] as int].obj as int].info.is_keyframe implies has_object_id(
                        sweep.states.objects@,
                        arena0@[list@[checks@[c2] as int].obj as int].info.id@,
                    ) by {
                        if c2 < cc {
                            assert(has_object_id(objs_before, arena0@[list@[checks@[c2] as int].obj as int].info.id@));
                            if seen {
                            } else {
                                lemma_keeps_object_ids(objs_before, sweep.states.objects@, arena0@[list@[checks@[c2] as int].obj as int].info.id@);
                            }
                        }
                    }
                    assert forall|jj: int, mm: int|
                        0 <= jj < pi && 0 <= mm < points0[jj].1@.len() && arena0@[(#[trigger] points0[jj].1@[mm]).obj as int].info.is_keyframe
                            implies has_object_id(sweep.states.objects@, arena0@[points0[jj].1@[mm].obj as int].info.id@) by {
                        if !seen {
                            lemma_keeps_object_ids(objs_before, sweep.states.objects@, arena0@[points0[jj].1@[mm].obj as int].info.id@);
                        }
                    }
                }
            }
            c = c + 1;
        }
        proof {
            if distinct_object_ids(resolved.objects@) {
                assert forall|mm: int|
                    0 <= mm < list@.len() && arena0@[(#[trigger] list@[mm]).obj as int].info.is_keyframe implies has_object_id(
                    sweep.states.objects@,
                    arena0@[list@[mm].obj as int].info.id@,
                ) by {
                    assert(checks@.contains(mm as usize));
                    let c2 = choose|c2: int| 0 <= c2 < checks@.len() && checks@[c2] == mm as usize;
                }
            }
            if distinct_object_ids(resolved.objects@) && distinct_instance_ids_each(resolved.objects@) {
                assert forall|mm: int|
                    0 <= mm < list@.len() && (#[trigger] list@[mm]).enable && wanted_at(arena0@[list@[mm].obj as int], time) implies state_lookup(
                    sweep.states.state@,
                    arena0@[list@[mm].obj as int].info.layer@,
                ) is Some by {
                    assert(checks@.contains(mm as usize));
                    let c2 = choose|c2: int| 0 <= c2 < checks@.len() && checks@[c2] == mm as usize;
                }
            }
        }
        let ghost st_kb = sweep.states.state@;
        sweep.check_keyframes(time);
        proof {
            let st_ka = sweep.states.state@;
            let ev = sweep.states.next_events@;
            lemma_events_kept_refl(ev);
            assert forall|l: int, k: int| 0 <= l < st_ka.len() && 0 <= k < st_ka[l].1@.len() implies entry_in(
                st_kb,
                #[trigger] st_ka[l].1@[k],
            ) || entry_announced(st_ka[l].1@[k], ev, after_time(only_for_time)) by {}
            lemma_announced_step(st_kb, st_ka, ev, ev, after_time(only_for_time));
        }
        proof {
            if distinct_object_ids(resolved.objects@) {
                assert forall|jj: int, mm: int|
                    0 <= jj < pi + 1 && 0 <= mm < points@[jj].1@.len() && arena0@[(#[trigger] points@[jj].1@[mm]).obj as int].info.is_keyframe
                        implies has_object_id(sweep.states.objects@, arena0@[points@[jj].1@[mm].obj as int].info.id@) by {
                    if jj == pi {
                        assert(points@[jj].1@[mm] == list@[mm]);
                    }
                }
            }
            if distinct_object_ids(resolved.objects@) && distinct_instance_ids_each(resolved.objects@) {
                assert forall|jj: int, mm: int|
                    0 <= jj < pi + 1 && 0 <= mm < points@[jj].1@.len() && (#[trigger] points@[jj].1@[mm]).enable && wanted_at(
                        arena0@[points@[jj].1@[mm].obj as int],
                        points@[jj].0,
                    ) implies state_lookup(sweep.states.state@, arena0@[points@[jj].1@[mm].obj as int].info.layer@) is Some by {
                    if jj == pi {
                        assert(points@[jj].1@[mm] == list@[mm]);
                    }
                }
            }
        }
        pi = pi + 1;
    }
    let ghost objs_final = sweep.states.objects@;
    let ghost st_final = sweep.states.state@;
    proof {
        if distinct_object_ids(resolved.objects@) && distinct_instance_ids_each(resolved.objects@) {
            assert forall|i: int, n: int|
                0 <= i < resolved.objects@.len() && #[trigger] candidate_instance(resolved.objects@[i], n, only_for_time) implies state_lookup(
                st_final,
                resolved.objects@[i].info.layer@,
            ) is Some by {
            assert(start_pointed(resolved.objects@, arena0@, points0, i, n));
            let x = choose|x: int|
                0 <= x < arena0@.len() && arena_is(resolved.objects@, arena0@[x], i, n) && has_point(
                    points0,
                    arena0@[x].instance.start,
                    true,
                    x as usize,
                );
            let (jj, mm) = choose|jj: int, mm: int|
                0 <= jj < points0.len() && points0[jj].0 == arena0@[x].instance.start && 0 <= mm < points0[jj].1@.len()
                    && #[trigger] points0[jj].1@[mm] == PointInTime { enable: true, obj: x as usize };
            assert(wanted_at(arena0@[points0[jj].1@[mm].obj as int], points0[jj].0));
            assert(state_lookup(st_final, resolved.objects@[i].info.layer@) is Some);
            }
        }
    }
    proof {
        if distinct_object_ids(resolved.objects@) {
            assert forall|i: int|
                0 <= i < resolved.objects@.len() && keyframe_with_instances(#[trigger] resolved.objects@[i]) implies has_object_id(
                objs_final,
                resolved.objects@[i].info.id@,
            ) by {
                assert(kf_pointed(arena0@, points0, resolved.objects@[i].info.id@));
                let x = choose|x: int|
                    0 <= x < arena0@.len() && arena0@[x].info.id@ == resolved.objects@[i].info.id@ && arena0@[x].info.is_keyframe
                        && has_point(points0, arena0@[x].instance.start, true, x as usize);
                let (jj, mm) = choose|jj: int, mm: int|
                    0 <= jj < points0.len() && points0[jj].0 == arena0@[x].instance.start && 0 <= mm < points0[jj].1@.len()
                        && #[trigger] points0[jj].1@[mm] == PointInTime { enable: true, obj: x as usize };
                assert(arena0@[(points0[jj].1@[mm]).obj as int] == arena0@[x]);
            }
        }
    }
    // The keyframe events, where no other event is at their time
    assert(states_sorted(sweep.states.state@));
    assert(states_on_own_layers(sweep.states.state@));
    let mut states = sweep.states;
    assert(states_sorted(states.state@));
    let mut event_object_times = sweep.event_object_times;
    let keyframe_events = sweep.keyframe_events;
    let mut j: usize = 0;
    while j < keyframe_events.len()
        invariant
            states.objects@ == objs_final,
            states.state@ == st_final,
            changes_announced(states.state@, states.next_events@, after_time(only_for_time)),
            states_sorted(states.state@),
            states_on_own_layers(states.state@),
            shown_ids(states.state@).subset_of(object_ids(resolved.objects@)),
            forall|x: int|
                0 <= x < states.next_events@.len() ==> object_ids(resolved.objects@).contains(
                    (#[trigger] states.next_events@[x]).object_id@,
                ),
            forall|x: int|
                0 <= x < keyframe_events@.len() ==> object_ids(resolved.objects@).contains(
                    (#[trigger] keyframe_events@[x]).object_id@,
                ),
        decreases keyframe_events@.len() - j,
    {
        let event = &keyframe_events[j];
        if !contains_time(&event_object_times, event.time) {
            event_object_times.push(event.time);
            let ghost ev_b = states.next_events@;
            states.next_events.push(event.copy());
            proof {
                let x = states.next_events@[ev_b.len() as int];
                assert(states.next_events@ == ev_b.push(x));
                lemma_events_kept_push(ev_b, x);
                lemma_announced_events(states.state@, ev_b, states.next_events@, after_time(only_for_time));
            }
        }
        j = j + 1;
    }
    if let Some(t) = only_for_time {
        let mut kept: Vec<NextEvent> = Vec::new();
        let ghost ev_all = states.next_events@;
        let mut rest = states.next_events;
        proof {
            assert forall|k: int| 0 <= k < ev_all.len() && (#[trigger] ev_all[k]).time > t implies kept@.contains(ev_all[k])
                || rest@.contains(ev_all[k]) by {
                assert(rest@[k] == ev_all[k]);
            }
        }
        while rest.len() > 0
            invariant
                forall|k: int| 0 <= k < ev_all.len() && (#[trigger] ev_all[k]).time > t ==> kept@.contains(ev_all[k])
                    || rest@.contains(ev_all[k]),
                changes_announced(states.state@, ev_all, t),
                states.state@ == st_final,
                forall|k: int| 0 <= k < kept@.len() ==> (#[trigger] kept@[k]).time > t,
                states.objects@ == objs_final,
                states_sorted(states.state@),
                states_on_own_layers(states.state@),
                shown_ids(states.state@).subset_of(object_ids(resolved.objects@)),
                forall|x: int|
                    0 <= x < kept@.len() ==> object_ids(resolved.objects@).contains((#[trigger] kept@[x]).object_id@),
                forall|x: int|
                    0 <= x < rest@.len() ==> object_ids(resolved.objects@).contains((#[trigger] rest@[x]).object_id@),
            decreases rest@.len(),
        {
            let ghost rest_b = rest@;
            let ghost kept_b = kept@;
            let e = rest.remove(0);
            if e.time > t {
                kept.push(e);
            }
            proof {
                assert forall|k: int| 0 <= k < ev_all.len() && (#[trigger] ev_all[k]).time > t implies kept@.contains(ev_all[k])
                    || rest@.contains(ev_all[k]) by {
                    let x = ev_all[k];
                    if kept_b.contains(x) {
                        let j = choose|j: int| 0 <= j < kept_b.len() && kept_b[j] == x;
                        assert(kept@[j] == x);
                    } else {
                        assert(rest_b.contains(x));
                        let j = choose|j: int| 0 <= j < rest_b.len() && rest_b[j] == x;
                        if j == 0 {
                            assert(kept@[kept_b.len() as int] == x);
                        } else {
                            assert(rest@[j - 1] == x);
                        }
                    }
                }
            }
        }
        proof {
            assert forall|k: int| 0 <= k < ev_all.len() && (#[trigger] ev_all[k]).time > t implies kept@.contains(ev_all[k]) by {
                assert(rest@.len() == 0);
            }
            lemma_announced_events(states.state@, ev_all, kept@, t);
        }
        states.next_events = kept;
    }
    let ghost before_sort = states.next_events@;
    assert(only_for_time matches Some(t) ==> forall|k: int| 0 <= k < before_sort.len() ==> (#[trigger] before_sort[k]).time > t);
    sort_next_events(&mut states.next_events);
    proof {
        lemma_announced_events(states.state@, before_sort, states.next_events@, after_time(only_for_time));
        if let Some(t) = only_for_time {
            assert forall|k: int| 0 <= k < states.next_events@.len() implies (#[trigger] states.next_events@[k]).time > t by {
                let x = states.next_events@[k];
                assert(before_sort.contains(x));
                let j = choose|j: int| 0 <= j < before_sort.len() && before_sort[j] == x;
                assert(before_sort[j].time > t);
            }
        }
        assert forall|k: int| 0 <= k < states.next_events@.len() implies object_ids(resolved.objects@).contains(
            (#[trigger] states.next_events@[k]).object_id@,
        ) by {
            let x = states.next_events@[k];
            assert(before_sort.contains(x));
            let j = choose|j: int| 0 <= j < before_sort.len() && before_sort[j] == x;
            assert(object_ids(resolved.objects@).contains(before_sort[j].object_id@));
        }
    }
    Ok(states)
}

/// The points hold, at time `t`, the candidate `x` turning on (`e`) or off.
pub open spec fn has_point(points: Seq<(Time, Vec<PointInTime>)>, t: Time, e: bool, x: usize) -> bool {
    exists|j: int, m: int|
        0 <= j < points.len() && points[j].0 == t && 0 <= m < points[j].1@.len() && #[trigger] points[j].1@[m]
            == PointInTime { enable: e, obj: x }
}

/// Adds the candidate `obj` turning on or off at `time` to the points,
/// which stay in time order.
fn add_point_checked(points: &mut Vec<(Time, Vec<PointInTime>)>, time: Time, enable: bool, obj: usize, bound: usize)
    requires
        obj < bound,
        forall|x: int, m: int| 0 <= x < old(points)@.len() && 0 <= m < old(points)@[x].1@.len() ==> #[trigger] old(points)@[x].1@[m].obj < bound,
    ensures
        forall|x: int, m: int| 0 <= x < final(points)@.len() && 0 <= m < final(points)@[x].1@.len() ==> #[trigger] final(points)@[x].1@[m].obj < bound,
        exists|p: int|
            #![trigger final(points)@[p]]
            0 <= p <= old(points)@.len() && (forall|j: int| 0 <= j < p ==> (#[trigger] old(points)@[j]).0 < time) && (p
                < old(points)@.len() ==> old(points)@[p].0 >= time) && if p < old(points)@.len() && old(points)@[p].0
                == time {
                &&& final(points)@.len() == old(points)@.len()
                &&& final(points)@[p].0 == time
                &&& final(points)@[p].1@ == old(points)@[p].1@.push(PointInTime { enable, obj })
                &&& forall|j: int| 0 <= j < old(points)@.len() && j != p ==> #[trigger] final(points)@[j] == old(points)@[j]
            } else {
                &&& final(points)@.len() == old(points)@.len() + 1
                &&& final(points)@[p].0 == time
                &&& final(points)@[p].1@ == seq![PointInTime { enable, obj }]
                &&& forall|j: int| 0 <= j < p ==> #[trigger] final(points)@[j] == old(points)@[j]
                &&& forall|j: int| p <= j < old(points)@.len() ==> #[trigger] final(points)@[j + 1] == old(points)@[j]
            },
        has_point(final(points)@, time, enable, obj),
        forall|t: Time, e: bool, x: usize| has_point(old(points)@, t, e, x) ==> has_point(final(points)@, t, e, x),
{
    let mut p: usize = 0;
    while p < points.len() && points[p].0 < time
        invariant
            p <= points@.len(),
            forall|j: int| 0 <= j < p ==> (#[trigger] points@[j]).0 < time,
        decreases points@.len() - p,
    {
        p = p + 1;
    }
    let ghost before = points@;
    if p < points.len() && points[p].0 == time {
        let (t, mut list) = points.remove(p);
        let ghost l0 = list@;
        assert(forall|m: int| 0 <= m < l0.len() ==> #[trigger] l0[m].obj < bound) by {
            assert forall|m: int| 0 <= m < l0.len() implies #[trigger] l0[m].obj < bound by {
                assert(before[p as int].1@[m].obj < bound);
            }
        }
        list.push(PointInTime { enable, obj });
        let ghost mid = points@;
        points.insert(p, (t, list));
        proof {
            assert forall|x: int, m: int| 0 <= x < points@.len() && 0 <= m < points@[x].1@.len() implies #[trigger] points@[x].1@[m].obj < bound by {
                if x < p {
                    assert(points@[x] == before[x]);
                } else if x > p {
                    assert(points@[x] == before[x]);
                } else {
                    if m < l0.len() {
                        assert(points@[x].1@[m] == l0[m]);
                    }
                }
            }
            let pp = p as int;
            assert(before[pp].1@ == l0);
            assert(points@[pp].1@ =~= l0.push(PointInTime { enable, obj }));
            assert(forall|j: int| 0 <= j < before.len() && j != pp ==> #[trigger] points@[j] == before[j]);
            assert(points@[pp] == points@[pp]);
            assert(points@[pp].1@[l0.len() as int] == PointInTime { enable, obj });
            assert forall|tt: Time, e: bool, x: usize| has_point(before, tt, e, x) implies has_point(points@, tt, e, x) by {
                let (j, m) = choose|j: int, m: int|
                    0 <= j < before.len() && before[j].0 == tt && 0 <= m < before[j].1@.len() && #[trigger] before[j].1@[m]
                        == PointInTime { enable: e, obj: x };
                if j == pp {
                    assert(points@[pp].1@[m] == before[j].1@[m]);
                } else {
                    assert(points@[j] == before[j]);
                }
            }
        }
    } else {
        let mut list: Vec<PointInTime> = Vec::new();
        list.push(PointInTime { enable, obj });
        points.insert(p, (time, list));
        proof {
            assert forall|x: int, m: int| 0 <= x < points@.len() && 0 <= m < points@[x].1@.len() implies #[trigger] points@[x].1@[m].obj < bound by {
                if x < p {
                    assert(points@[x] == before[x]);
                } else if x > p {
                    assert(points@[x] == before[x - 1]);
                }
            }
            let pp = p as int;
            assert(points@[pp].1@ =~= seq![PointInTime { enable, obj }]);
            assert(forall|j: int| 0 <= j < pp ==> #[trigger] points@[j] == before[j]);
            assert(forall|j: int| pp <= j < before.len() ==> #[trigger] points@[j + 1] == before[j]);
            assert(points@[pp] == points@[pp]);
            assert(points@[pp].1@[0] == PointInTime { enable, obj });
            assert forall|tt: Time, e: bool, x: usize| has_point(before, tt, e, x) implies has_point(points@, tt, e, x) by {
                let (j, m) = choose|j: int, m: int|
                    0 <= j < before.len() && before[j].0 == tt && 0 <= m < before[j].1@.len() && #[trigger] before[j].1@[m]
                        == PointInTime { enable: e, obj: x };
                if j < pp {
                    assert(points@[j] == before[j]);
                } else {
                    assert(points@[j + 1] == before[j]);
                }
            }
        }
    }
}

/// A keyframe of a layer's state, by its id.
#[derive(Debug)]
pub struct TimelineLayerState2Keyframe {
    pub keyframe_id: String,
    pub keyframe_end_time: Option<Time>,
}

/// A layer's state in the form it is handed out: the object, its instance,
/// and the keyframes by id.
#[derive(Debug)]
pub struct TimelineLayerState2 {
    pub object_id: String,
    pub instance_id: Option<String>,
    pub instance: Option<TimelineObjectInstance>,
    pub keyframes: Vec<TimelineLayerState2Keyframe>,
}

/// `x` is the state `s` in the form it is handed out.
pub open spec fn transformed(x: TimelineLayerState2, s: TimelineLayerState) -> bool {
    &&& x.object_id@ == s.object_id@
    &&& (match x.instance_id {
        Some(i) => i@ == s.instance.id@,
        None => false,
    })
    &&& (match x.instance {
        Some(inst) => same_instance(inst, s.instance),
        None => false,
    })
    &&& x.keyframes@.len() == s.keyframes@.len()
    &&& forall|k: int|
        0 <= k < s.keyframes@.len() ==> (#[trigger] x.keyframes@[k]).keyframe_id@ == s.keyframes@[k].info.id@
            && x.keyframes@[k].keyframe_end_time == s.keyframes@[k].keyframe_end_time
}

/// The form of a layer's state that is handed out.
pub fn transform_state(st: Option<&TimelineLayerState>) -> (r: Option<TimelineLayerState2>)
    ensures
        match st {
            None => r is None,
            Some(s) => match r {
                Some(x) => transformed(x, *s),
                None => false,
            },
        },
{
    match st {
        None => None,
        Some(s) => {
            let mut keyframes: Vec<TimelineLayerState2Keyframe> = Vec::new();
            let mut k: usize = 0;
            while k < s.keyframes.len()
                invariant
                    k <= s.keyframes@.len(),
                    keyframes@.len() == k,
                    forall|j: int|
                        0 <= j < k ==> (#[trigger] keyframes@[j]).keyframe_id@ == s.keyframes@[j].info.id@
                            && keyframes@[j].keyframe_end_time == s.keyframes@[j].keyframe_end_time,
                decreases s.keyframes@.len() - k,
            {
                keyframes.push(
                    TimelineLayerState2Keyframe {
                        keyframe_id: s.keyframes[k].info.id.clone(),
                        keyframe_end_time: s.keyframes[k].keyframe_end_time,
                    },
                );
                k = k + 1;
            }
            Some(
                TimelineLayerState2 {
                    object_id: s.object_id.clone(),
                    instance_id: Some(s.instance.id.clone()),
                    instance: Some(s.instance.copy()),
                    keyframes,
                },
            )
        },
    }
}

/// The events of a state all come after its time, and there are no more
/// of them than the limit.
pub proof fn lemma_state_events_after(v: Seq<NextEvent>, t: Time, limit: nat)
    ensures
        at_most(events_after(v, t), limit).len() <= limit,
        forall|k: int|
            0 <= k < at_most(events_after(v, t), limit).len() ==> (#[trigger] at_most(events_after(v, t), limit)[k]).1 > t,
{
    lemma_events_after_later(v, t);
}

proof fn lemma_events_after_later(v: Seq<NextEvent>, t: Time)
    ensures
        forall|k: int| 0 <= k < events_after(v, t).len() ==> (#[trigger] events_after(v, t)[k]).1 > t,
        events_after(v, t).len() <= v.len(),
    decreases v.len(),
{
    if v.len() > 0 {
        lemma_events_after_later(v.drop_last(), t);
    }
}

/// Events in order come in time order.
pub proof fn lemma_next_events_time_ordered(v: Seq<NextEvent>, i: int, j: int)
    requires
        next_events_sorted(v),
        0 <= i < j < v.len(),
    ensures
        v[i].time <= v[j].time,
    decreases j - i,
{
    assert(!next_event_after(v[i], v[i + 1]));
    if j > i + 1 {
        lemma_next_events_time_ordered(v, i + 1, j);
    }
}

/// The events of a state keep the time order of the resolved states'.
pub proof fn lemma_state_events_time_ordered(v: Seq<NextEvent>, t: Time, limit: nat)
    requires
        next_events_sorted(v),
    ensures
        forall|i: int, j: int|
            0 <= i < j < at_most(events_after(v, t), limit).len() ==> (#[trigger] at_most(events_after(v, t), limit)[i]).1
                <= (#[trigger] at_most(events_after(v, t), limit)[j]).1,
{
    assert forall|i: int, j: int| 0 <= i < j < v.len() implies (#[trigger] v[i]).time <= (#[trigger] v[j]).time by {
        lemma_next_events_time_ordered(v, i, j);
    }
    lemma_events_after_time_ordered(v, t);
}

proof fn lemma_events_after_time_ordered(v: Seq<NextEvent>, t: Time)
    requires
        forall|i: int, j: int| 0 <= i < j < v.len() ==> (#[trigger] v[i]).time <= (#[trigger] v[j]).time,
    ensures
        forall|i: int, j: int|
            0 <= i < j < events_after(v, t).len() ==> (#[trigger] events_after(v, t)[i]).1 <= (
            #[trigger] events_after(v, t)[j]).1,
        forall|k: int|
            0 <= k < events_after(v, t).len() ==> exists|m: int| 0 <= m < v.len() && (#[trigger] events_after(v, t)[k]).1 == v[m].time,
    decreases v.len(),
{
    if v.len() > 0 {
        let w = v.drop_last();
        assert forall|i: int, j: int| 0 <= i < j < w.len() implies (#[trigger] w[i]).time <= (#[trigger] w[j]).time by {
            assert(w[i] == v[i] && w[j] == v[j]);
        }
        lemma_events_after_time_ordered(w, t);
        let rest = events_after(w, t);
        assert forall|k: int| 0 <= k < rest.len() implies exists|m: int| 0 <= m < v.len() && (#[trigger] rest[k]).1 == v[m].time by {
            let m = choose|m: int| 0 <= m < w.len() && rest[k].1 == w[m].time;
            assert(w[m] == v[m]);
        }
        assert forall|k: int| 0 <= k < rest.len() implies (#[trigger] rest[k]).1 <= v.last().time by {
            let m = choose|m: int| 0 <= m < v.len() && rest[k].1 == v[m].time;
            if m < v.len() - 1 {
                assert(v[m].time <= v[v.len() - 1].time);
            }
        }
    }
}

} // verus!
