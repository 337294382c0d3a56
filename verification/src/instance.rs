//! The objects of a timeline and the instances they resolve to.

use vstd::prelude::*;
use crate::expression::{copy_expression, Expression};
use crate::caps::distinct_cap_ids;

verus! {

/// A point in time.
pub type Time = u64;

/// The id of a parent instance and its span, that a child instance is kept
/// inside of.
#[derive(Debug)]
pub struct Cap {
    pub id: String,
    pub start: Time,
    pub end: Option<Time>,
}

/// The value of a [`Cap`].
pub struct CapValue {
    pub id: Seq<char>,
    pub start: Time,
    pub end: Option<Time>,
}

impl View for Cap {
    type V = CapValue;

    open spec fn view(&self) -> CapValue {
        CapValue { id: self.id@, start: self.start, end: self.end }
    }
}

impl Cap {
    pub fn copy(&self) -> (c: Cap)
        ensures
            c@ == self@,
    {
        Cap { id: self.id.clone(), start: self.start, end: self.end }
    }
}

/// The set of strings that a list of strings holds.
pub open spec fn string_set(v: Seq<String>) -> Set<Seq<char>> {
    Set::new(|x: Seq<char>| exists|i: int| 0 <= i < v.len() && v[i]@ == x)
}

/// No two strings of the list are the same.
pub open spec fn distinct_strings(v: Seq<String>) -> bool {
    forall|i: int, j: int| 0 <= i < j < v.len() ==> v[i]@ != v[j]@
}

/// A copy of a list of strings.
pub fn copy_strings(v: &Vec<String>) -> (c: Vec<String>)
    ensures
        c@.len() == v@.len(),
        forall|i: int| 0 <= i < v@.len() ==> #[trigger] c@[i]@ == v@[i]@,
        string_set(c@) == string_set(v@),
        distinct_strings(v@) ==> distinct_strings(c@),
{
    let mut c: Vec<String> = Vec::new();
    let mut i: usize = 0;
    while i < v.len()
        invariant
            i <= v@.len(),
            c@.len() == i,
            forall|k: int| 0 <= k < i ==> #[trigger] c@[k]@ == v@[k]@,
        decreases v@.len() - i,
    {
        c.push(v[i].clone());
        i = i + 1;
    }
    assert(string_set(c@) =~= string_set(v@)) by {
        assert forall|x: Seq<char>| string_set(v@).contains(x) implies string_set(c@).contains(x) by {
            let k = choose|k: int| 0 <= k < v@.len() && v@[k]@ == x;
            assert(c@[k]@ == x);
        }
        assert forall|x: Seq<char>| string_set(c@).contains(x) implies string_set(v@).contains(x) by {
            let k = choose|k: int| 0 <= k < c@.len() && c@[k]@ == x;
            assert(v@[k]@ == x);
        }
    }
    c
}

/// A copy of a list of caps.
pub fn copy_caps(v: &Vec<Cap>) -> (c: Vec<Cap>)
    ensures
        c@.len() == v@.len(),
        forall|i: int| 0 <= i < v@.len() ==> #[trigger] c@[i]@ == v@[i]@,
        distinct_cap_ids(v@) ==> distinct_cap_ids(c@),
{
    let mut c: Vec<Cap> = Vec::new();
    let mut i: usize = 0;
    while i < v.len()
        invariant
            i <= v@.len(),
            c@.len() == i,
            forall|k: int| 0 <= k < i ==> #[trigger] c@[k]@ == v@[k]@,
        decreases v@.len() - i,
    {
        c.push(v[i].copy());
        i = i + 1;
    }
    assert(distinct_cap_ids(v@) ==> distinct_cap_ids(c@)) by {
        if distinct_cap_ids(v@) {
            assert forall|a: int, b: int| 0 <= a < b < c@.len() implies c@[a].id@ != c@[b].id@ by {
                assert(c@[a]@ == v@[a]@ && c@[b]@ == v@[b]@);
            }
        }
    }
    c
}

/// The characters of an optional string.
pub open spec fn opt_chars(s: Option<String>) -> Option<Seq<char>> {
    match s {
        Some(x) => Some(x@),
        None => None,
    }
}

pub fn copy_opt_string(s: &Option<String>) -> (c: Option<String>)
    ensures
        c is Some <==> s is Some,
        c matches Some(x) ==> x@ == s->0@,
{
    match s {
        Some(x) => Some(x.clone()),
        None => None,
    }
}

/// An instance of an object on the timeline: a span of time in which the
/// object is enabled.
#[derive(Debug)]
pub struct TimelineObjectInstance {
    /// id of the instance (unique)
    pub id: String,
    /// if true, the instance starts from the beginning of time
    pub is_first: bool,
    /// The start time of the instance
    pub start: Time,
    /// The end time of the instance (`None` = infinite)
    pub end: Option<Time>,
    /// The start time before the instance was split or capped, if it was
    pub original_start: Option<Time>,
    /// The end time before the instance was split or capped, if it was
    pub original_end: Option<Time>,
    /// The ids of the referenced objects and instances (no duplicates)
    pub references: Vec<String>,
    /// The caps of the parents; the instance is kept inside them
    pub caps: Vec<Cap>,
    /// If the instance was generated from another instance, that one's id
    pub from_instance_id: Option<String>,
}

impl Default for TimelineObjectInstance {
    fn default() -> (r: Self)
        ensures
            r.id@ == Seq::<char>::empty(),
            !r.is_first,
            r.start == 0,
            r.end is None,
            r.original_start is None,
            r.original_end is None,
            r.references@.len() == 0,
            r.caps@.len() == 0,
            r.from_instance_id is None,
    {
        TimelineObjectInstance {
            id: String::new(),
            is_first: false,
            start: 0,
            end: None,
            original_start: None,
            original_end: None,
            references: Vec::new(),
            caps: Vec::new(),
            from_instance_id: None,
        }
    }
}

/// The references of an instance hold no string twice: they stand for a
/// set.
pub open spec fn instance_wf(i: TimelineObjectInstance) -> bool {
    distinct_strings(i.references@)
}

/// The end of an instance, infinite ends counting as `Time::MAX`.
pub open spec fn end_or_max(end: Option<Time>) -> Time {
    match end {
        Some(e) => e,
        None => u64::MAX,
    }
}

/// Two instances agree on everything but their identity.
pub open spec fn same_instance(a: TimelineObjectInstance, b: TimelineObjectInstance) -> bool {
    &&& a.id@ == b.id@
    &&& a.is_first == b.is_first
    &&& a.start == b.start
    &&& a.end == b.end
    &&& a.original_start == b.original_start
    &&& a.original_end == b.original_end
    &&& a.references@.len() == b.references@.len()
    &&& forall|i: int| 0 <= i < a.references@.len() ==> #[trigger] a.references@[i]@ == b.references@[i]@
    &&& a.caps@.len() == b.caps@.len()
    &&& forall|i: int| 0 <= i < a.caps@.len() ==> #[trigger] a.caps@[i]@ == b.caps@[i]@
    &&& (a.from_instance_id is Some <==> b.from_instance_id is Some)
    &&& (a.from_instance_id is Some ==> a.from_instance_id->0@ == b.from_instance_id->0@)
}

impl TimelineObjectInstance {
    pub fn copy(&self) -> (c: TimelineObjectInstance)
        ensures
            same_instance(c, *self),
            string_set(c.references@) == string_set(self.references@),
            distinct_strings(self.references@) ==> distinct_strings(c.references@),
            instance_wf(*self) ==> instance_wf(c),
    {
        TimelineObjectInstance {
            id: self.id.clone(),
            is_first: self.is_first,
            start: self.start,
            end: self.end,
            original_start: self.original_start,
            original_end: self.original_end,
            references: copy_strings(&self.references),
            caps: copy_caps(&self.caps),
            from_instance_id: copy_opt_string(&self.from_instance_id),
        }
    }
}

/// A copy of a list of instances.
pub fn copy_instances(v: &Vec<TimelineObjectInstance>) -> (c: Vec<TimelineObjectInstance>)
    ensures
        c@.len() == v@.len(),
        forall|i: int| 0 <= i < v@.len() ==> same_instance(#[trigger] c@[i], v@[i]),
        forall|i: int| 0 <= i < v@.len() ==> instance_wf(v@[i]) ==> instance_wf(#[trigger] c@[i]),
{
    let mut c: Vec<TimelineObjectInstance> = Vec::new();
    let mut i: usize = 0;
    while i < v.len()
        invariant
            i <= v@.len(),
            c@.len() == i,
            forall|k: int| 0 <= k < i ==> same_instance(#[trigger] c@[k], v@[k]),
            forall|k: int| 0 <= k < i ==> instance_wf(v@[k]) ==> instance_wf(#[trigger] c@[k]),
        decreases v@.len() - i,
    {
        c.push(v[i].copy());
        i = i + 1;
    }
    c
}

/// When an object is enabled.
#[derive(Debug, PartialEq)]
pub struct TimelineEnable {
    /// The start time of the object (cannot be combined with `enable_while`)
    pub enable_start: Option<Expression>,
    /// The end time of the object (cannot be combined with `enable_while` or
    /// `duration`)
    pub enable_end: Option<Expression>,
    /// Enables the object while the expression is true
    pub enable_while: Option<Expression>,
    /// The duration of the object
    pub duration: Option<Expression>,
    /// Makes the object repeat with the given interval
    pub repeating: Option<Expression>,
}

impl Default for TimelineEnable {
    fn default() -> (r: Self)
        ensures
            r.enable_start is None,
            r.enable_end is None,
            r.enable_while is None,
            r.duration is None,
            r.repeating is None,
    {
        TimelineEnable {
            enable_start: None,
            enable_end: None,
            enable_while: None,
            duration: None,
            repeating: None,
        }
    }
}

fn copy_opt_expression(e: &Option<Expression>) -> (c: Option<Expression>)
    ensures
        c is Some <==> e is Some,
        c matches Some(x) ==> x@ == e->0@,
{
    match e {
        Some(x) => Some(copy_expression(x)),
        None => None,
    }
}

/// Two enables denote the same expressions.
pub open spec fn same_enable(a: TimelineEnable, b: TimelineEnable) -> bool {
    &&& (a.enable_start is Some <==> b.enable_start is Some)
    &&& (a.enable_start is Some ==> a.enable_start->0@ == b.enable_start->0@)
    &&& (a.enable_end is Some <==> b.enable_end is Some)
    &&& (a.enable_end is Some ==> a.enable_end->0@ == b.enable_end->0@)
    &&& (a.enable_while is Some <==> b.enable_while is Some)
    &&& (a.enable_while is Some ==> a.enable_while->0@ == b.enable_while->0@)
    &&& (a.duration is Some <==> b.duration is Some)
    &&& (a.duration is Some ==> a.duration->0@ == b.duration->0@)
    &&& (a.repeating is Some <==> b.repeating is Some)
    &&& (a.repeating is Some ==> a.repeating->0@ == b.repeating->0@)
}

impl TimelineEnable {
    pub fn copy(&self) -> (c: TimelineEnable)
        ensures
            same_enable(c, *self),
    {
        TimelineEnable {
            enable_start: copy_opt_expression(&self.enable_start),
            enable_end: copy_opt_expression(&self.enable_end),
            enable_while: copy_opt_expression(&self.enable_while),
            duration: copy_opt_expression(&self.duration),
            repeating: copy_opt_expression(&self.repeating),
        }
    }
}

/// A copy of a list of enables.
pub fn copy_enables(v: &Vec<TimelineEnable>) -> (c: Vec<TimelineEnable>)
    ensures
        c@.len() == v@.len(),
        forall|i: int| 0 <= i < v@.len() ==> same_enable(#[trigger] c@[i], v@[i]),
{
    let mut c: Vec<TimelineEnable> = Vec::new();
    let mut i: usize = 0;
    while i < v.len()
        invariant
            i <= v@.len(),
            c@.len() == i,
            forall|k: int| 0 <= k < i ==> same_enable(#[trigger] c@[k], v@[k]),
        decreases v@.len() - i,
    {
        c.push(v[i].copy());
        i = i + 1;
    }
    c
}

/// What the resolver knows of an object besides its instances.
#[derive(Debug)]
pub struct TimelineObjectInfo {
    pub id: String,
    pub enable: Vec<TimelineEnable>,
    pub priority: i64,
    pub disabled: bool,
    pub layer: String,
    /// Increases the more levels inside of a group the object is
    pub depth: usize,
    /// Id of the parent object
    pub parent_id: Option<String>,
    /// True if the object is a keyframe
    pub is_keyframe: bool,
}

impl TimelineObjectInfo {
    pub fn copy(&self) -> (c: TimelineObjectInfo)
        ensures
            c.id@ == self.id@,
            c.enable@.len() == self.enable@.len(),
            forall|i: int| 0 <= i < self.enable@.len() ==> same_enable(#[trigger] c.enable@[i], self.enable@[i]),
            c.priority == self.priority,
            c.disabled == self.disabled,
            c.layer@ == self.layer@,
            c.depth == self.depth,
            c.parent_id is Some <==> self.parent_id is Some,
            c.parent_id matches Some(p) ==> p@ == self.parent_id->0@,
            c.is_keyframe == self.is_keyframe,
    {
        TimelineObjectInfo {
            id: self.id.clone(),
            enable: copy_enables(&self.enable),
            priority: self.priority,
            disabled: self.disabled,
            layer: self.layer.clone(),
            depth: self.depth,
            parent_id: copy_opt_string(&self.parent_id),
            is_keyframe: self.is_keyframe,
        }
    }
}

/// While an object is being resolved.
#[derive(Debug)]
pub struct TimelineObjectResolvedWip {
    /// True if the object refers to itself (directly, not via another object)
    pub is_self_referencing: bool,
}

/// A resolved object.
#[derive(Debug)]
pub struct TimelineObjectResolved {
    /// True if the object refers to itself (directly, not via another object)
    pub is_self_referencing: bool,
    /// The instances of the object on the timeline
    pub instances: Vec<TimelineObjectInstance>,
    /// The references of the object, as written in its expressions (no
    /// duplicates)
    pub direct_references: Vec<String>,
}

} // verus!
