//! Start and end events of instances, their order, and the instances that a
//! list of them makes.

use vstd::prelude::*;
use crate::instance::{Cap, Time, TimelineObjectInstance, copy_caps, distinct_strings, end_or_max, instance_wf};
use crate::references::ReferencesBuilder;
use crate::resolver::{ResolverContext, same_but_ids};
use crate::text::concat;
use crate::util::add_caps_to_resuming;

verus! {

/// A point in time where something starts or ends.
pub trait IsEvent {
    spec fn event_time(&self) -> Time;

    spec fn event_is_start(&self) -> bool;

    spec fn event_id(&self) -> Seq<char>;

    fn time(&self) -> (t: Time)
        ensures
            t == self.event_time(),
    ;

    fn is_start(&self) -> (b: bool)
        ensures
            b == self.event_is_start(),
    ;

    fn id(&self) -> (s: &String)
        ensures
            s@ == self.event_id(),
    ;
}

/// `a` goes after `b`: it is later; or, at the same time, for the same id
/// the end goes before the start, and for different ids the ends go first.
pub open spec fn event_after<T: IsEvent>(a: T, b: T) -> bool {
    if a.event_time() != b.event_time() {
        a.event_time() > b.event_time()
    } else if a.event_id() == b.event_id() {
        !a.event_is_start() && b.event_is_start()
    } else {
        a.event_is_start() && !b.event_is_start()
    }
}

/// The events are in time order, and no event goes after the next one.
pub open spec fn events_sorted<T: IsEvent>(s: Seq<T>) -> bool {
    &&& forall|i: int, j: int| 0 <= i < j < s.len() ==> s[i].event_time() <= s[j].event_time()
    &&& forall|i: int| 0 <= i < s.len() - 1 ==> !event_after(#[trigger] s[i], s[i + 1])
}

fn event_after_exec<T: IsEvent>(a: &T, b: &T) -> (r: bool)
    ensures
        r == event_after(*a, *b),
{
    let a_time = a.time();
    let b_time = b.time();
    if a_time != b_time {
        a_time > b_time
    } else if *a.id() == *b.id() {
        !a.is_start() && b.is_start()
    } else {
        a.is_start() && !b.is_start()
    }
}

/// Sorting a list of events.
pub trait VecIsEventExt {
    fn sort(&mut self);
}

/// Puts an event into a sorted list, after every event it does not go
/// before.
fn insert_event<T: IsEvent>(r: &mut Vec<T>, e: T)
    requires
        events_sorted(old(r)@),
    ensures
        events_sorted(final(r)@),
        final(r)@.to_multiset() == old(r)@.to_multiset().insert(e),
{
    let mut p = r.len();
    while p > 0 && event_after_exec(&r[p - 1], &e)
        invariant
            p <= r@.len(),
            forall|k: int| p <= k < r@.len() ==> event_after(#[trigger] r@[k], e),
        decreases p,
    {
        p = p - 1;
    }
    let ghost rb = r@;
    r.insert(p, e);
    proof {
        vstd::seq_lib::to_multiset_insert(rb, p as int, e);
        lemma_insert_sorted(rb, p as int, e);
    }
}

#[verifier::spinoff_prover]
#[verifier::rlimit(40)]
proof fn lemma_insert_sorted<T: IsEvent>(rb: Seq<T>, p: int, e: T)
    requires
        events_sorted(rb),
        0 <= p <= rb.len(),
        p > 0 ==> !event_after(rb[p - 1], e),
        forall|k: int| p <= k < rb.len() ==> event_after(#[trigger] rb[k], e),
    ensures
        events_sorted(rb.insert(p, e)),
{
    let r = rb.insert(p, e);
    assert forall|i: int, j: int| 0 <= i < j < r.len() implies r[i].event_time() <= r[j].event_time() by {
        if j < p {
            assert(r[i] == rb[i] && r[j] == rb[j]);
        } else if j == p {
            assert(r[i] == rb[i] && r[j] == e);
            assert(rb[i].event_time() <= rb[p - 1].event_time() || i == p - 1);
        } else if i < p {
            assert(r[i] == rb[i] && r[j] == rb[j - 1]);
        } else if i == p {
            assert(r[i] == e && r[j] == rb[j - 1]);
            assert(event_after(rb[p], e));
            assert(rb[p].event_time() <= rb[j - 1].event_time() || j - 1 == p);
        } else {
            assert(r[i] == rb[i - 1] && r[j] == rb[j - 1]);
        }
    }
    assert forall|i: int| 0 <= i < r.len() - 1 implies !event_after(#[trigger] r[i], r[i + 1]) by {
        if i < p - 1 {
            assert(r[i] == rb[i] && r[i + 1] == rb[i + 1]);
        } else if i == p - 1 {
            assert(r[i] == rb[i] && r[i + 1] == e);
        } else if i == p {
            assert(r[i] == e && r[i + 1] == rb[p]);
            assert(event_after(rb[p], e));
        } else {
            assert(r[i] == rb[i - 1] && r[i + 1] == rb[i]);
        }
    }
}

impl<T: IsEvent> VecIsEventExt for Vec<T> {
    /// Sorts the events (stably) into the order of [`event_after`].
    fn sort(&mut self)
        ensures
            final(self)@.to_multiset() == old(self)@.to_multiset(),
            events_sorted(final(self)@),
    {
        let ghost orig = self@;
        let mut r: Vec<T> = Vec::new();
        proof {
            vstd::seq_lib::to_multiset_len(r@);
            assert(r@.to_multiset().add(self@.to_multiset()) =~= orig.to_multiset()) by {
                broadcast use vstd::multiset::group_multiset_axioms;

                vstd::multiset::lemma_multiset_empty_len(r@.to_multiset());
            }
        }
        while self.len() > 0
            invariant
                r@.to_multiset().add(self@.to_multiset()) == orig.to_multiset(),
                events_sorted(r@),
            decreases self@.len(),
        {
            let ghost before = self@;
            let ghost rb = r@;
            let e = self.remove(0);
            proof {
                vstd::seq_lib::to_multiset_remove(before, 0);
                assert(before.contains(e)) by {
                    assert(before[0] == e);
                }
                vstd::seq_lib::to_multiset_contains(before, e);
            }
            insert_event(&mut r, e);
            proof {
                assert(r@.to_multiset().add(self@.to_multiset()) =~= orig.to_multiset()) by {
                    broadcast use vstd::multiset::group_multiset_axioms;

                }
            }
        }
        proof {
            assert(self@ =~= Seq::<T>::empty());
            assert(r@.to_multiset() =~= orig.to_multiset()) by {
                broadcast use vstd::multiset::group_multiset_axioms;

                vstd::seq_lib::to_multiset_len(self@);
                vstd::multiset::lemma_multiset_empty_len(self@.to_multiset());
            }
        }
        *self = r;
    }
}

/// An instance starting or ending.
#[derive(Debug)]
pub struct EventForInstance {
    pub time: Time,
    pub is_start: bool,
    /// The references (no duplicates)
    pub references: Vec<String>,
    pub caps: Vec<Cap>,
    pub id: String,
}

impl IsEvent for EventForInstance {
    open spec fn event_time(&self) -> Time {
        self.time
    }

    open spec fn event_is_start(&self) -> bool {
        self.is_start
    }

    open spec fn event_id(&self) -> Seq<char> {
        self.id@
    }

    fn time(&self) -> (t: Time) {
        self.time
    }

    fn is_start(&self) -> (b: bool) {
        self.is_start
    }

    fn id(&self) -> (s: &String) {
        &self.id
    }
}

/// The references of an event stand for a set.
pub open spec fn event_wf(e: EventForInstance) -> bool {
    distinct_strings(e.references@)
}

/// Instances that are in time order and do not overlap: each ends (where it
/// ends) no earlier than it starts, and each but the last ends no later than
/// the next starts.
pub open spec fn instances_ordered(s: Seq<TimelineObjectInstance>) -> bool {
    &&& forall|k: int| 0 <= k < s.len() ==> starts_before_end(#[trigger] s[k])
    &&& forall|k: int| 0 <= k < s.len() - 1 ==> ends_by(#[trigger] s[k], s[k + 1].start)
}

/// No instance ends just where the next one starts.
pub open spec fn no_touching(s: Seq<TimelineObjectInstance>) -> bool {
    forall|k: int| 0 <= k < s.len() - 1 ==> (#[trigger] s[k]).end != Some(s[k + 1].start)
}

/// The instance does not end before it starts.
pub open spec fn starts_before_end(i: TimelineObjectInstance) -> bool {
    match i.end {
        Some(e) => i.start <= e,
        None => true,
    }
}

/// The instance ends, at `t` or earlier.
pub open spec fn ends_by(i: TimelineObjectInstance, t: Time) -> bool {
    match i.end {
        Some(e) => e <= t,
        None => false,
    }
}

/// The instance does not end after `t`.
pub open spec fn ends_no_later(i: TimelineObjectInstance, t: Time) -> bool {
    match i.end {
        Some(e) => e <= t,
        None => true,
    }
}

/// Some event is at time `t`.
pub open spec fn has_event_at(events: Seq<EventForInstance>, t: Time) -> bool {
    exists|j: int| 0 <= j < events.len() && events[j].time == t
}

/// The instance starts, and ends where it ends, at the time of an event.
pub open spec fn at_event_times(events: Seq<EventForInstance>, i: TimelineObjectInstance) -> bool {
    &&& has_event_at(events, i.start)
    &&& match i.end {
        Some(e) => has_event_at(events, e),
        None => true,
    }
}

/// The instance is on at time `t`.
pub open spec fn in_span(i: TimelineObjectInstance, t: Time) -> bool {
    i.start <= t && match i.end {
        Some(e) => t < e,
        None => true,
    }
}

/// Some instance of the list is on at time `t`.
pub open spec fn covers(s: Seq<TimelineObjectInstance>, t: Time) -> bool {
    exists|k: int| 0 <= k < s.len() && in_span(#[trigger] s[k], t)
}

/// The ids that are on after the first `n` events: a start turns its id
/// on, an end turns it off.
pub open spec fn active_after(s: Seq<EventForInstance>, n: int) -> Set<Seq<char>>
    decreases n,
{
    if n <= 0 {
        Set::empty()
    } else {
        let a = active_after(s, n - 1);
        if s[n - 1].is_start {
            a.insert(s[n - 1].id@)
        } else {
            a.remove(s[n - 1].id@)
        }
    }
}

/// The first `n` events are those at time `t` or earlier.
pub open spec fn time_boundary(s: Seq<EventForInstance>, n: int, t: Time) -> bool {
    &&& 0 <= n <= s.len()
    &&& forall|j: int| 0 <= j < n ==> s[j].time <= t
    &&& forall|j: int| n <= j < s.len() ==> s[j].time > t
}

/// After the events up to time `t`, some id is on.
pub open spec fn active_at(s: Seq<EventForInstance>, t: Time) -> bool {
    exists|n: int, d: Seq<char>| time_boundary(s, n, t) && #[trigger] active_after(s, n).contains(d)
}

/// `b` has the span of `a` before time `t`.
pub open spec fn agrees_before(a: TimelineObjectInstance, b: TimelineObjectInstance, t: Time) -> bool {
    a.start == b.start && (a.end == b.end || (end_or_max(a.end) >= t && end_or_max(b.end) >= t))
}

/// `b` is `a` with spans changed or added only from time `t` on.
pub open spec fn grows_from(a: Seq<TimelineObjectInstance>, b: Seq<TimelineObjectInstance>, t: Time) -> bool {
    &&& a.len() <= b.len()
    &&& forall|k: int| 0 <= k < a.len() ==> agrees_before(a[k], #[trigger] b[k], t)
    &&& forall|k: int| a.len() <= k < b.len() ==> (#[trigger] b[k]).start >= t
}

pub(crate) proof fn lemma_covers_before(a: Seq<TimelineObjectInstance>, b: Seq<TimelineObjectInstance>, t: Time, x: Time)
    requires
        grows_from(a, b, t),
        x < t,
    ensures
        covers(a, x) <==> covers(b, x),
{
    if covers(a, x) {
        let k = choose|k: int| 0 <= k < a.len() && in_span(#[trigger] a[k], x);
        assert(agrees_before(a[k], b[k], t));
        assert(in_span(b[k], x));
    }
    if covers(b, x) {
        let k = choose|k: int| 0 <= k < b.len() && in_span(#[trigger] b[k], x);
        if k < a.len() {
            assert(agrees_before(a[k], b[k], t));
            assert(in_span(a[k], x));
        } else {
            assert(b[k].start >= t);
        }
    }
}

/// From a time on which no instance starts or ends, the instances cover
/// a time just when the last of them goes on for ever.
pub(crate) proof fn lemma_covers_from(r: Seq<TimelineObjectInstance>, c: Time, x: Time)
    requires
        instances_ordered(r),
        forall|k: int| 0 <= k < r.len() ==> (#[trigger] r[k]).start <= c && ends_no_later(r[k], c),
        c <= x,
    ensures
        covers(r, x) <==> (r.len() > 0 && r.last().end is None),
{
    if covers(r, x) {
        let k = choose|k: int| 0 <= k < r.len() && in_span(#[trigger] r[k], x);
        assert(r[k].start <= c && ends_no_later(r[k], c));
        assert(r[k].end is None);
        if k < r.len() - 1 {
            assert(ends_by(r[k], r[k + 1].start));
        }
    }
    if r.len() > 0 && r.last().end is None {
        assert(r[r.len() - 1].start <= c);
        assert(in_span(r[r.len() - 1], x));
    }
}

proof fn lemma_boundary_unique(s: Seq<EventForInstance>, n: int, m: int, t: Time)
    requires
        time_boundary(s, n, t),
        time_boundary(s, m, t),
    ensures
        n == m,
{
    if n < m {
        assert(s[n].time <= t);
    } else if m < n {
        assert(s[m].time <= t);
    }
}

/// Where the first `n` events are those up to `t`, some id is on at `t`
/// just when one is on after them.
proof fn lemma_active_at(s: Seq<EventForInstance>, n: int, t: Time)
    requires
        time_boundary(s, n, t),
    ensures
        active_at(s, t) <==> exists|d: Seq<char>| #[trigger] active_after(s, n).contains(d),
{
    if active_at(s, t) {
        let (m, d) = choose|m: int, d: Seq<char>| time_boundary(s, m, t) && #[trigger] active_after(s, m).contains(d);
        lemma_boundary_unique(s, n, m, t);
        assert(active_after(s, n).contains(d));
    }
    if exists|d: Seq<char>| #[trigger] active_after(s, n).contains(d) {
        let d = choose|d: Seq<char>| #[trigger] active_after(s, n).contains(d);
        assert(time_boundary(s, n, t) && active_after(s, n).contains(d));
    }
}

/// In sorted events, the events after the `i`-th one's predecessor and
/// before it are those up to any time between them.
proof fn lemma_boundary_at(s: Seq<EventForInstance>, i: int, t: Time)
    requires
        events_sorted(s),
        0 <= i <= s.len(),
        i > 0 ==> s[i - 1].time <= t,
        i < s.len() ==> t < s[i].time,
    ensures
        time_boundary(s, i, t),
{
    assert forall|j: int| 0 <= j < i implies s[j].time <= t by {
        if j < i - 1 {
            assert(s[j].time <= s[i - 1].time);
        }
    }
    assert forall|j: int| i <= j < s.len() implies s[j].time > t by {
        if j > i {
            assert(s[i].time <= s[j].time);
        }
    }
}

/// The ids of the active events.
spec fn active_ids(v: Seq<(String, usize)>) -> Set<Seq<char>> {
    Set::new(|d: Seq<char>| exists|k: int| 0 <= k < v.len() && v[k].0@ == d)
}

/// No id is active twice.
spec fn distinct_active(v: Seq<(String, usize)>) -> bool {
    forall|a: int, b: int| 0 <= a < v.len() && 0 <= b < v.len() && a != b ==> v[a].0@ != v[b].0@
}

/// Turning a list of events into instances.
pub trait EventForInstanceExt: Sized {
    /// The events' references stand for sets.
    spec fn events_wf(&self) -> bool;

    /// The events.
    spec fn events(&self) -> Seq<EventForInstance>;

    /// Sweeps the events in time order and makes the instances in which at
    /// least one of the events' instances is active. Without `allow_merge`,
    /// a new instance starts where another event's instance takes over;
    /// with it, touching instances are joined unless `allow_zero_gaps`.
    fn into_instances(
        self,
        ctx: &mut ResolverContext,
        allow_merge: bool,
        allow_zero_gaps: bool,
    ) -> (r: Vec<TimelineObjectInstance>)
        requires
            self.events_wf(),
        ensures
            same_but_ids(*old(ctx), *final(ctx)),
            instances_ordered(r@),
            forall|k: int| 0 <= k < r@.len() ==> instance_wf(#[trigger] r@[k]),
            forall|k: int| 0 <= k < r@.len() ==> at_event_times(self.events(), #[trigger] r@[k]),
            allow_merge && !allow_zero_gaps ==> no_touching(r@),
            exists|s: Seq<EventForInstance>|
                s.to_multiset() == self.events().to_multiset() && events_sorted(s) && forall|x: Time|
                    covers(r@, x) <==> active_at(s, x),
    ;
}

fn find_active(active: &Vec<(String, usize)>, id: &String) -> (r: Option<usize>)
    ensures
        match r {
            Some(i) => i < active@.len() && active@[i as int].0@ == id@,
            None => forall|j: int| 0 <= j < active@.len() ==> active@[j].0@ != id@,
        },
{
    let mut i: usize = 0;
    while i < active.len()
        invariant
            i <= active@.len(),
            forall|j: int| 0 <= j < i ==> active@[j].0@ != id@,
        decreases active@.len() - i,
    {
        if active[i].0 == *id {
            return Some(i);
        }
        i = i + 1;
    }
    None
}

fn same_id(a: &Option<String>, b: &String) -> (r: bool)
    ensures
        r == (a matches Some(x) && x@ == b@),
{
    match a {
        Some(x) => *x == *b,
        None => false,
    }
}

fn new_instance(id: String, start: Time, references: Vec<String>, caps: Vec<Cap>) -> (i: TimelineObjectInstance)
    ensures
        i.id == id,
        i.start == start,
        i.end is None,
        i.references == references,
        i.caps == caps,
        !i.is_first,
        i.original_start is None,
        i.original_end is None,
        i.from_instance_id is None,
{
    TimelineObjectInstance {
        id,
        is_first: false,
        start,
        end: None,
        original_start: None,
        original_end: None,
        references,
        caps,
        from_instance_id: None,
    }
}

proof fn lemma_on_after_starts(s: Seq<EventForInstance>, n: int, d: Seq<char>)
    requires
        0 <= n <= s.len(),
        exists|j: int| 0 <= j < n && (#[trigger] s[j]).id@ == d && s[j].is_start,
        forall|j: int| 0 <= j < n && (#[trigger] s[j]).id@ == d ==> s[j].is_start,
    ensures
        active_after(s, n).contains(d),
    decreases n,
{
    let j = choose|j: int| 0 <= j < n && (#[trigger] s[j]).id@ == d && s[j].is_start;
    if s[n - 1].id@ != d {
        assert(j < n - 1);
        lemma_on_after_starts(s, n - 1, d);
    }
}

proof fn lemma_off_after_end(s: Seq<EventForInstance>, n: int, d: Seq<char>)
    requires
        0 <= n <= s.len(),
        exists|j: int| 0 <= j < n && (#[trigger] s[j]).id@ == d && !s[j].is_start,
        forall|a: int, b: int|
            0 <= a < n && 0 <= b < n && (#[trigger] s[a]).id@ == d && s[a].is_start && (#[trigger] s[b]).id@ == d
                && !s[b].is_start ==> a < b,
    ensures
        !active_after(s, n).contains(d),
    decreases n,
{
    let j = choose|j: int| 0 <= j < n && (#[trigger] s[j]).id@ == d && !s[j].is_start;
    if s[n - 1].id@ == d {
        if s[n - 1].is_start {
            assert(s[j].id@ == d && !s[j].is_start);
            assert(n - 1 < j);
        }
    } else {
        assert(j < n - 1);
        lemma_off_after_end(s, n - 1, d);
    }
}

proof fn lemma_off_never(s: Seq<EventForInstance>, n: int, d: Seq<char>)
    requires
        0 <= n <= s.len(),
        forall|j: int| 0 <= j < n ==> (#[trigger] s[j]).id@ != d,
    ensures
        !active_after(s, n).contains(d),
    decreases n,
{
    if n > 0 {
        lemma_off_never(s, n - 1, d);
    }
}

proof fn lemma_boundary_exists(s: Seq<EventForInstance>, t: Time)
    requires
        forall|i: int, j: int| 0 <= i < j < s.len() ==> s[i].time <= s[j].time,
    ensures
        exists|n: int| time_boundary(s, n, t),
    decreases s.len(),
{
    if s.len() == 0 {
        assert(time_boundary(s, 0, t));
    } else {
        let p = s.drop_last();
        lemma_boundary_exists(p, t);
        let m = choose|m: int| time_boundary(p, m, t);
        if s.last().time <= t {
            assert forall|j: int| 0 <= j < s.len() implies s[j].time <= t by {
                if j < s.len() - 1 {
                    assert(s[j].time <= s[s.len() - 1].time);
                }
            }
            assert(time_boundary(s, s.len() as int, t));
        } else {
            assert forall|j: int| m <= j < s.len() implies s[j].time > t by {
                if j < s.len() - 1 {
                    assert(p[j] == s[j]);
                }
            }
            assert forall|j: int| 0 <= j < m implies s[j].time <= t by {
                assert(p[j] == s[j]);
            }
            assert(time_boundary(s, m, t));
        }
    }
}

/// `e` is the start or the end event of instance `i`.
pub open spec fn event_of_instance(e: EventForInstance, i: TimelineObjectInstance) -> bool {
    &&& e.id@ == i.id@
    &&& e.is_start ==> e.time == i.start
    &&& !e.is_start ==> i.end == Some(e.time)
}

/// Event `j` is the start or the end of one of the instances.
pub open spec fn has_owner(s: Seq<EventForInstance>, v: Seq<TimelineObjectInstance>, j: int) -> bool {
    exists|k: int| 0 <= k < v.len() && event_of_instance(s[j], v[k])
}

/// The start of instance `k` is among the events.
pub open spec fn has_start(s: Seq<EventForInstance>, v: Seq<TimelineObjectInstance>, k: int) -> bool {
    exists|j: int| 0 <= j < s.len() && s[j].is_start && event_of_instance(s[j], v[k])
}

/// The end of instance `k` is among the events.
pub open spec fn has_end(s: Seq<EventForInstance>, v: Seq<TimelineObjectInstance>, k: int) -> bool {
    exists|j: int| 0 <= j < s.len() && !s[j].is_start && event_of_instance(s[j], v[k])
}

/// Each event is the start or the end of one of the instances.
pub open spec fn each_event_of(s: Seq<EventForInstance>, v: Seq<TimelineObjectInstance>) -> bool {
    forall|j: int| 0 <= j < s.len() ==> #[trigger] has_owner(s, v, j)
}

/// Each instance has its start among the events.
pub open spec fn each_start_in(s: Seq<EventForInstance>, v: Seq<TimelineObjectInstance>) -> bool {
    forall|k: int| 0 <= k < v.len() ==> #[trigger] has_start(s, v, k)
}

/// Each instance that ends has its end among the events.
pub open spec fn each_end_in(s: Seq<EventForInstance>, v: Seq<TimelineObjectInstance>) -> bool {
    forall|k: int| 0 <= k < v.len() && v[k].end is Some ==> #[trigger] has_end(s, v, k)
}

/// The events are just those of the instances: each is the start or the
/// end of one, and each instance has its start and, where it ends, its end
/// among them.
#[verifier::opaque]
pub open spec fn events_of_instances(s: Seq<EventForInstance>, v: Seq<TimelineObjectInstance>) -> bool {
    each_event_of(s, v) && each_start_in(s, v) && each_end_in(s, v)
}

proof fn lemma_owner(s: Seq<EventForInstance>, v: Seq<TimelineObjectInstance>, j: int) -> (k: int)
    requires
        events_of_instances(s, v),
        0 <= j < s.len(),
    ensures
        0 <= k < v.len(),
        event_of_instance(s[j], v[k]),
{
    reveal(events_of_instances);
    assert(has_owner(s, v, j));
    choose|k: int| 0 <= k < v.len() && event_of_instance(s[j], v[k])
}

proof fn lemma_start_event(s: Seq<EventForInstance>, v: Seq<TimelineObjectInstance>, k: int) -> (j: int)
    requires
        events_of_instances(s, v),
        0 <= k < v.len(),
    ensures
        0 <= j < s.len(),
        s[j].is_start,
        event_of_instance(s[j], v[k]),
{
    reveal(events_of_instances);
    assert(has_start(s, v, k));
    choose|j: int| 0 <= j < s.len() && s[j].is_start && event_of_instance(s[j], v[k])
}

proof fn lemma_end_event(s: Seq<EventForInstance>, v: Seq<TimelineObjectInstance>, k: int) -> (j: int)
    requires
        events_of_instances(s, v),
        0 <= k < v.len(),
        v[k].end is Some,
    ensures
        0 <= j < s.len(),
        !s[j].is_start,
        event_of_instance(s[j], v[k]),
{
    reveal(events_of_instances);
    assert(has_end(s, v, k));
    choose|j: int| 0 <= j < s.len() && !s[j].is_start && event_of_instance(s[j], v[k])
}

/// No two instances have the same id.
pub open spec fn distinct_instance_ids(v: Seq<TimelineObjectInstance>) -> bool {
    forall|a: int, b: int| 0 <= a < v.len() && 0 <= b < v.len() && a != b ==> v[a].id@ != v[b].id@
}

/// Each instance ends (where it ends) after it starts.
pub open spec fn all_positive(v: Seq<TimelineObjectInstance>) -> bool {
    forall|k: int| 0 <= k < v.len() ==> end_or_max((#[trigger] v[k]).end) > v[k].start
}

proof fn lemma_cover_then_active(s: Seq<EventForInstance>, v: Seq<TimelineObjectInstance>, t: Time, n: int, k: int)
    requires
        time_boundary(s, n, t),
        events_of_instances(s, v),
        distinct_instance_ids(v),
        0 <= k < v.len(),
        in_span(v[k], t),
    ensures
        active_after(s, n).contains(v[k].id@),
{
    let d = v[k].id@;
    let js = lemma_start_event(s, v, k);
    assert(js < n) by {
        if js >= n {
            assert(s[js].time > t);
        }
    }
    assert forall|j: int| 0 <= j < n && (#[trigger] s[j]).id@ == d implies s[j].is_start by {
        let k2 = lemma_owner(s, v, j);
        assert(k2 == k);
        if !s[j].is_start {
            assert(s[j].time <= t);
        }
    }
    assert(s[js].id@ == d && s[js].is_start);
    lemma_on_after_starts(s, n, d);
}

proof fn lemma_starts_before_ends(s: Seq<EventForInstance>, v: Seq<TimelineObjectInstance>, k: int, a: int, b: int)
    requires
        forall|i: int, j: int| 0 <= i < j < s.len() ==> s[i].time <= s[j].time,
        events_of_instances(s, v),
        distinct_instance_ids(v),
        all_positive(v),
        0 <= k < v.len(),
        0 <= a < s.len(),
        0 <= b < s.len(),
        s[a].id@ == v[k].id@,
        s[b].id@ == v[k].id@,
        s[a].is_start,
        !s[b].is_start,
    ensures
        a < b,
{
    let ka = lemma_owner(s, v, a);
    let kb = lemma_owner(s, v, b);
    assert(ka == k && kb == k);
    assert(end_or_max(v[k].end) > v[k].start);
    if b < a {
        assert(s[b].time <= s[a].time);
    }
}

proof fn lemma_active_then_cover(s: Seq<EventForInstance>, v: Seq<TimelineObjectInstance>, t: Time, n: int, d: Seq<char>)
    requires
        forall|i: int, j: int| 0 <= i < j < s.len() ==> s[i].time <= s[j].time,
        time_boundary(s, n, t),
        events_of_instances(s, v),
        distinct_instance_ids(v),
        all_positive(v),
        active_after(s, n).contains(d),
    ensures
        covers(v, t),
{
    if forall|j: int| 0 <= j < n ==> (#[trigger] s[j]).id@ != d {
        lemma_off_never(s, n, d);
    }
    let j = choose|j: int| 0 <= j < n && (#[trigger] s[j]).id@ == d;
    let k = lemma_owner(s, v, j);
    assert(s[j].time <= t);
    assert(v[k].start <= t) by {
        if !s[j].is_start {
            assert(end_or_max(v[k].end) > v[k].start);
        }
    }
    if let Some(e) = v[k].end {
        if e <= t {
            let je = lemma_end_event(s, v, k);
            assert(je < n) by {
                if je >= n {
                    assert(s[je].time > t);
                }
            }
            assert forall|a: int, b: int|
                0 <= a < n && 0 <= b < n && (#[trigger] s[a]).id@ == d && s[a].is_start && (#[trigger] s[b]).id@
                    == d && !s[b].is_start implies a < b by {
                lemma_starts_before_ends(s, v, k, a, b);
            }
            assert(s[je].id@ == d && !s[je].is_start);
            lemma_off_after_end(s, n, d);
        }
    }
    assert(in_span(v[k], t));
}

/// The start and end events of instances with distinct ids, each ending
/// after it starts, in time order, have some id on at a time just when
/// one of the instances is on then.
pub proof fn lemma_events_cover_instances(s: Seq<EventForInstance>, v: Seq<TimelineObjectInstance>, t: Time)
    requires
        forall|i: int, j: int| 0 <= i < j < s.len() ==> s[i].time <= s[j].time,
        events_of_instances(s, v),
        distinct_instance_ids(v),
        all_positive(v),
    ensures
        active_at(s, t) <==> covers(v, t),
{
    lemma_boundary_exists(s, t);
    let n = choose|n: int| time_boundary(s, n, t);
    lemma_active_at(s, n, t);
    if covers(v, t) {
        let k = choose|k: int| 0 <= k < v.len() && in_span(#[trigger] v[k], t);
        lemma_cover_then_active(s, v, t, n, k);
    }
    if active_at(s, t) {
        let d = choose|d: Seq<char>| #[trigger] active_after(s, n).contains(d);
        lemma_active_then_cover(s, v, t, n, d);
    }
}

proof fn lemma_kept_in(e: Seq<EventForInstance>, s: Seq<EventForInstance>, x: EventForInstance)
    requires
        e.to_multiset() == s.to_multiset(),
        e.contains(x),
    ensures
        s.contains(x),
{
    vstd::seq_lib::to_multiset_contains(e, x);
    vstd::seq_lib::to_multiset_contains(s, x);
}

/// Reordering the events keeps them those of the instances.
pub proof fn lemma_events_of_reordered(e: Seq<EventForInstance>, s: Seq<EventForInstance>, v: Seq<TimelineObjectInstance>)
    requires
        e.to_multiset() == s.to_multiset(),
        events_of_instances(e, v),
    ensures
        events_of_instances(s, v),
{
    assert forall|j: int| 0 <= j < s.len() implies #[trigger] has_owner(s, v, j) by {
        let x = s[j];
        assert(s.contains(x));
        lemma_kept_in(s, e, x);
        let j2 = choose|j2: int| 0 <= j2 < e.len() && e[j2] == x;
        let k = lemma_owner(e, v, j2);
        assert(event_of_instance(s[j], v[k]));
    }
    assert forall|k: int| 0 <= k < v.len() implies #[trigger] has_start(s, v, k) by {
        let j2 = lemma_start_event(e, v, k);
        let x = e[j2];
        assert(e.contains(x));
        lemma_kept_in(e, s, x);
        let j = choose|j: int| 0 <= j < s.len() && s[j] == x;
        assert(s[j].is_start && event_of_instance(s[j], v[k]));
    }
    assert forall|k: int| 0 <= k < v.len() && v[k].end is Some implies #[trigger] has_end(s, v, k) by {
        let j2 = lemma_end_event(e, v, k);
        let x = e[j2];
        assert(e.contains(x));
        lemma_kept_in(e, s, x);
        let j = choose|j: int| 0 <= j < s.len() && s[j] == x;
        assert(!s[j].is_start && event_of_instance(s[j], v[k]));
    }
    assert(events_of_instances(s, v)) by {
        reveal(events_of_instances);
    }
}

/// `e1` is `e0` with the events of instance `x` added.
pub open spec fn events_pushed(e0: Seq<EventForInstance>, e1: Seq<EventForInstance>, x: TimelineObjectInstance) -> bool {
    &&& e1.len() == e0.len() + (if x.end is Some { 2int } else { 1int })
    &&& forall|j: int| 0 <= j < e0.len() ==> e1[j] == e0[j]
    &&& e1[e0.len() as int].is_start && event_of_instance(e1[e0.len() as int], x)
    &&& x.end is Some ==> !e1[e0.len() as int + 1].is_start && event_of_instance(e1[e0.len() as int + 1], x)
}

/// Adding the events of one more instance keeps the events those of the
/// instances.
pub(crate) proof fn lemma_events_of_push(
    e0: Seq<EventForInstance>,
    e1: Seq<EventForInstance>,
    v0: Seq<TimelineObjectInstance>,
    x: TimelineObjectInstance,
)
    requires
        events_of_instances(e0, v0),
        events_pushed(e0, e1, x),
    ensures
        events_of_instances(e1, v0.push(x)),
{
    let v1 = v0.push(x);
    assert forall|j: int| 0 <= j < e1.len() implies #[trigger] has_owner(e1, v1, j) by {
        if j < e0.len() {
            let k = lemma_owner(e0, v0, j);
            assert(v1[k] == v0[k]);
            assert(e1[j] == e0[j]);
            assert(event_of_instance(e1[j], v1[k]));
        } else {
            assert(event_of_instance(e1[j], v1[v0.len() as int]));
        }
    }
    assert forall|k: int| 0 <= k < v1.len() implies #[trigger] has_start(e1, v1, k) by {
        if k < v0.len() {
            assert(v1[k] == v0[k]);
            let j = lemma_start_event(e0, v0, k);
            assert(e1[j] == e0[j]);
            assert(e1[j].is_start && event_of_instance(e1[j], v1[k]));
        } else {
            assert(e1[e0.len() as int].is_start && event_of_instance(e1[e0.len() as int], v1[k]));
        }
    }
    assert forall|k: int| 0 <= k < v1.len() && v1[k].end is Some implies #[trigger] has_end(e1, v1, k) by {
        if k < v0.len() {
            assert(v1[k] == v0[k]);
            let j = lemma_end_event(e0, v0, k);
            assert(e1[j] == e0[j]);
            assert(!e1[j].is_start && event_of_instance(e1[j], v1[k]));
        } else {
            let l: int = e0.len() as int + 1;
            assert(!e1[l].is_start && event_of_instance(e1[l], v1[k]));
        }
    }
    assert(events_of_instances(e1, v0.push(x))) by {
        reveal(events_of_instances);
    }
}

/// One start event, once sorted, has its id on from its time on.
pub proof fn lemma_one_start(e: Seq<EventForInstance>, s: Seq<EventForInstance>, x: Time)
    requires
        e.len() == 1,
        e[0].is_start,
        s.to_multiset() == e.to_multiset(),
    ensures
        active_at(s, x) <==> e[0].time <= x,
{
    vstd::seq_lib::to_multiset_len(s);
    vstd::seq_lib::to_multiset_len(e);
    assert(s.len() == 1);
    assert(e.contains(e[0]));
    lemma_kept_in(e, s, e[0]);
    assert(s[0] == e[0]);
    assert(active_after(s, 0) == Set::<Seq<char>>::empty());
    if e[0].time <= x {
        assert(time_boundary(s, 1, x));
        lemma_active_at(s, 1, x);
        assert(active_after(s, 1).contains(e[0].id@));
    } else {
        assert(time_boundary(s, 0, x));
        lemma_active_at(s, 0, x);
    }
}

/// A start and a later end of the same id, once sorted, have the id on
/// from the start until the end.
pub proof fn lemma_start_then_end(e: Seq<EventForInstance>, s: Seq<EventForInstance>, x: Time)
    requires
        e.len() == 2,
        e[0].is_start,
        !e[1].is_start,
        e[0].id@ == e[1].id@,
        e[0].time < e[1].time,
        s.to_multiset() == e.to_multiset(),
        events_sorted(s),
    ensures
        active_at(s, x) <==> e[0].time <= x < e[1].time,
{
    vstd::seq_lib::to_multiset_len(s);
    vstd::seq_lib::to_multiset_len(e);
    assert(s.len() == 2);
    assert(e.contains(e[0]));
    assert(e.contains(e[1]));
    lemma_kept_in(e, s, e[0]);
    lemma_kept_in(e, s, e[1]);
    assert(s[0] == e[0] && s[1] == e[1]) by {
        let j0 = choose|j: int| 0 <= j < s.len() && s[j] == e[0];
        let j1 = choose|j: int| 0 <= j < s.len() && s[j] == e[1];
        assert(j0 != j1);
        if j1 < j0 {
            assert(s[j1].event_time() <= s[j0].event_time());
        }
    }
    let d = e[0].id@;
    assert(active_after(s, 0) == Set::<Seq<char>>::empty());
    assert(active_after(s, 1) == Set::<Seq<char>>::empty().insert(d));
    assert(active_after(s, 2) =~= Set::<Seq<char>>::empty().insert(d).remove(d));
    if x < e[0].time {
        assert(time_boundary(s, 0, x));
        lemma_active_at(s, 0, x);
    } else if x < e[1].time {
        assert(time_boundary(s, 1, x));
        lemma_active_at(s, 1, x);
        assert(active_after(s, 1).contains(d));
    } else {
        assert(time_boundary(s, 2, x));
        lemma_active_at(s, 2, x);
    }
}

/// Some id is active just when the list of active ids is not empty.
proof fn lemma_active_nonempty(v: Seq<(String, usize)>, a: Set<Seq<char>>)
    requires
        active_ids(v) == a,
    ensures
        v.len() > 0 <==> exists|d: Seq<char>| #[trigger] a.contains(d),
{
    if v.len() > 0 {
        assert(active_ids(v).contains(v[0].0@));
    }
    if exists|d: Seq<char>| #[trigger] a.contains(d) {
        let d = choose|d: Seq<char>| #[trigger] a.contains(d);
        assert(active_ids(v).contains(d));
    }
}

/// Turns the id of an event on or off in the list of active ids.
fn track_event(active: &mut Vec<(String, usize)>, id: &String, is_start: bool, i: usize, bound: usize)
    requires
        i < bound,
        distinct_active(old(active)@),
        forall|k: int| 0 <= k < old(active)@.len() ==> (#[trigger] old(active)@[k]).1 < bound,
    ensures
        distinct_active(final(active)@),
        forall|k: int| 0 <= k < final(active)@.len() ==> (#[trigger] final(active)@[k]).1 < bound,
        active_ids(final(active)@) == if is_start {
            active_ids(old(active)@).insert(id@)
        } else {
            active_ids(old(active)@).remove(id@)
        },
{
    let ghost v0 = active@;
    if is_start {
        match find_active(active, id) {
            Some(k) => {
                active.set(k, (id.clone(), i));
                assert(active_ids(active@) =~= active_ids(v0).insert(id@)) by {
                    assert forall|d: Seq<char>| active_ids(v0).contains(d) implies active_ids(active@).contains(d) by {
                        let j = choose|j: int| 0 <= j < v0.len() && v0[j].0@ == d;
                        assert(active@[j].0@ == d);
                    }
                    assert(active@[k as int].0@ == id@);
                }
            },
            None => {
                active.push((id.clone(), i));
                assert(active_ids(active@) =~= active_ids(v0).insert(id@)) by {
                    assert forall|d: Seq<char>| active_ids(v0).contains(d) implies active_ids(active@).contains(d) by {
                        let j = choose|j: int| 0 <= j < v0.len() && v0[j].0@ == d;
                        assert(active@[j] == v0[j]);
                    }
                    assert(active@[v0.len() as int].0@ == id@);
                    assert forall|d: Seq<char>| active_ids(active@).contains(d) implies active_ids(v0).insert(id@).contains(d) by {
                        let j = choose|j: int| 0 <= j < active@.len() && active@[j].0@ == d;
                        if j < v0.len() {
                            assert(active@[j] == v0[j]);
                        }
                    }
                }
            },
        }
    } else {
        match find_active(active, id) {
            Some(k) => {
                active.remove(k);
                assert(active_ids(active@) =~= active_ids(v0).remove(id@)) by {
                    assert forall|d: Seq<char>| active_ids(v0).remove(id@).contains(d) implies active_ids(active@).contains(d) by {
                        let j = choose|j: int| 0 <= j < v0.len() && v0[j].0@ == d;
                        assert(j != k);
                        if j < k {
                            assert(active@[j] == v0[j]);
                        } else {
                            assert(active@[j - 1] == v0[j]);
                        }
                    }
                    assert forall|d: Seq<char>| active_ids(active@).contains(d) implies active_ids(v0).remove(id@).contains(d) by {
                        let j = choose|j: int| 0 <= j < active@.len() && active@[j].0@ == d;
                        if j < k {
                            assert(active@[j] == v0[j]);
                        } else {
                            assert(active@[j] == v0[j + 1]);
                        }
                    }
                }
            },
            None => {
                assert(active_ids(active@) =~= active_ids(v0).remove(id@));
            },
        }
    }
}

/// One step of the sweep keeps the instances covering just the times at
/// which some id is on, up to the time of the event taken.
proof fn lemma_step_covers(
    events: Seq<EventForInstance>,
    i: int,
    r0: Seq<TimelineObjectInstance>,
    r1: Seq<TimelineObjectInstance>,
    was_active: bool,
)
    requires
        events_sorted(events),
        0 <= i < events.len(),
        grows_from(r0, r1, events[i].time),
        instances_ordered(r0),
        was_active <==> exists|d: Seq<char>| #[trigger] active_after(events, i).contains(d),
        was_active <==> (r0.len() > 0 && r0.last().end is None),
        i == 0 ==> r0.len() == 0,
        i > 0 ==> forall|k: int| 0 <= k < r0.len() ==> (#[trigger] r0[k]).start <= events[i - 1].time
            && ends_no_later(r0[k], events[i - 1].time),
        forall|x: Time| i > 0 && x < events[i - 1].time ==> (covers(r0, x) <==> active_at(events, x)),
    ensures
        forall|x: Time| x < events[i].time ==> (covers(r1, x) <==> active_at(events, x)),
{
    let time = events[i].time;
    assert forall|x: Time| x < time implies (covers(r1, x) <==> active_at(events, x)) by {
        lemma_covers_before(r0, r1, time, x);
        if i == 0 || x >= events[i - 1].time {
            lemma_boundary_at(events, i, x);
            lemma_active_at(events, i, x);
            if i > 0 {
                lemma_covers_from(r0, events[i - 1].time, x);
            }
        }
    }
}

/// Makes the instances follow one event of the sweep: closes, resumes or
/// starts them at its time, as the ids that are on now ask.
fn update_instances(
    ctx: &mut ResolverContext,
    instances: &mut Vec<TimelineObjectInstance>,
    active: &Vec<(String, usize)>,
    active_instance_id: &mut Option<String>,
    previous_active: bool,
    events: &Vec<EventForInstance>,
    i: usize,
    allow_merge: bool,
    allow_zero_gaps: bool,
)
    requires
        i < events@.len(),
        forall|j: int| 0 <= j < events@.len() ==> event_wf(#[trigger] events@[j]),
        forall|k: int| 0 <= k < active@.len() ==> (#[trigger] active@[k]).1 < events@.len(),
        previous_active <==> (old(instances)@.len() > 0 && old(instances)@.last().end is None),
        !events@[i as int].is_start && active@.len() > 0 ==> previous_active,
        instances_ordered(old(instances)@),
        forall|k: int| 0 <= k < old(instances)@.len() ==> instance_wf(#[trigger] old(instances)@[k]),
        forall|k: int| 0 <= k < old(instances)@.len() ==> (#[trigger] old(instances)@[k]).start <= events@[i as int].time
            && ends_no_later(old(instances)@[k], events@[i as int].time),
        forall|k: int| 0 <= k < old(instances)@.len() ==> at_event_times(events@, #[trigger] old(instances)@[k]),
    ensures
        same_but_ids(*old(ctx), *final(ctx)),
        grows_from(old(instances)@, final(instances)@, events@[i as int].time),
        active@.len() > 0 <==> (final(instances)@.len() > 0 && final(instances)@.last().end is None),
        instances_ordered(final(instances)@),
        forall|k: int| 0 <= k < final(instances)@.len() ==> instance_wf(#[trigger] final(instances)@[k]),
        forall|k: int| 0 <= k < final(instances)@.len() ==> (#[trigger] final(instances)@[k]).start <= events@[i as int].time
            && ends_no_later(final(instances)@[k], events@[i as int].time),
        forall|k: int| 0 <= k < final(instances)@.len() ==> at_event_times(events@, #[trigger] final(instances)@[k]),
        allow_merge && !allow_zero_gaps && no_touching(old(instances)@) ==> no_touching(final(instances)@),
{
    let event = &events[i];
    let time = event.time;
    assert(has_event_at(events@, time));
    let event_id = event.id.clone();
    let ghost r0 = instances@;
    proof {
        assert(event_wf(events@[i as int]));
    }
        let n = instances.len();
        if active.len() == 0 {
            // No instances are active
            if previous_active && n > 0 {
                let mut last = instances.pop().unwrap();
                last.end = Some(time);
                instances.push(last);
            }
        } else {
            // There is an active instance
            if n > 0 {
                let mut last = instances.pop().unwrap();
                if !allow_merge && event.is_start && last.end.is_none() && !same_id(
                    active_instance_id,
                    &event_id,
                ) {
                    // Start a new instance:
                    last.end = Some(time);
                    instances.push(last);
                    let id = ctx.generate_id();
                    let refs = crate::instance::copy_strings(&event.references);
                    instances.push(new_instance(id, time, refs, Vec::new()));
                    *active_instance_id = Some(event_id);
                } else if !allow_merge && !event.is_start && same_id(active_instance_id, &event_id) {
                    // The active instance stopped playing, but another is still playing
                    let mut latest: usize = 0;
                    let mut k: usize = 1;
                    while k < active.len()
                        invariant
                            0 < active@.len(),
                            1 <= k <= active@.len(),
                            latest < active@.len(),
                            forall|j: int| 0 <= j < active@.len() ==> (#[trigger] active@[j]).1 < events@.len(),
                        decreases active@.len() - k,
                    {
                        if events[active[latest].1].time < events[active[k].1].time {
                            latest = k;
                        }
                        k = k + 1;
                    }
                    // Restart that instance now:
                    last.end = Some(time);
                    instances.push(last);
                    let generated = ctx.generate_id();
                    let suffix = concat("_", generated.as_str());
                    let id = concat(event_id.as_str(), suffix.as_str());
                    let latest_event = &events[active[latest].1];
                    proof {
                        assert(event_wf(events@[active@[latest as int].1 as int]));
                    }
                    let refs = crate::instance::copy_strings(&latest_event.references);
                    instances.push(new_instance(id, time, refs, Vec::new()));
                    *active_instance_id = Some(active[latest].0.clone());
                } else if allow_merge && !allow_zero_gaps && match last.end {
                    Some(e) => e == time,
                    None => false,
                } {
                    // The previously running ended just now: resume it
                    last.end = None;
                    add_caps_to_resuming(&mut last, event.caps.as_slice());
                    last.references = ReferencesBuilder::new().add(&last.references).add(
                        &event.references,
                    ).done();
                    instances.push(last);
                } else if last.end.is_some() {
                    // There is no running instance: start a new one
                    instances.push(last);
                    let refs = crate::instance::copy_strings(&event.references);
                    let caps = copy_caps(&event.caps);
                    instances.push(new_instance(event_id.clone(), time, refs, caps));
                    *active_instance_id = Some(event_id);
                } else {
                    // There is already a running instance
                    last.references = ReferencesBuilder::new().add(&last.references).add(
                        &event.references,
                    ).done();
                    add_caps_to_resuming(&mut last, event.caps.as_slice());
                    instances.push(last);
                }
            } else {
                // There is no running instance: start a new one
                let refs = crate::instance::copy_strings(&event.references);
                let caps = copy_caps(&event.caps);
                instances.push(new_instance(event_id.clone(), time, refs, caps));
                *active_instance_id = Some(event_id);
            }
        }
    proof {
        assert forall|k: int| 0 <= k < r0.len() implies agrees_before(r0[k], #[trigger] instances@[k], time) by {
            if k < r0.len() - 1 {
                assert(instances@[k] == r0[k]);
            }
        }
        if allow_merge && !allow_zero_gaps && no_touching(r0) {
            let r1 = instances@;
            assert forall|k: int| 0 <= k < r1.len() - 1 implies (#[trigger] r1[k]).end != Some(r1[k + 1].start) by {
                if k + 1 < r0.len() - 1 {
                    assert(r1[k] == r0[k] && r1[k + 1] == r0[k + 1]);
                } else if k + 1 == r0.len() - 1 {
                    assert(r1[k] == r0[k]);
                    assert(r1[k + 1].start == r0[k + 1].start);
                }
            }
        }
    }
}

impl EventForInstanceExt for Vec<EventForInstance> {
    open spec fn events_wf(&self) -> bool {
        forall|j: int| 0 <= j < self@.len() ==> event_wf(#[trigger] self@[j])
    }

    open spec fn events(&self) -> Seq<EventForInstance> {
        self@
    }

    #[verifier::rlimit(40)]
    fn into_instances(
        self,
        ctx: &mut ResolverContext,
        allow_merge: bool,
        allow_zero_gaps: bool,
    ) -> (r: Vec<TimelineObjectInstance>)
    {
        let mut events = self;
        let ghost unsorted = events@;
        VecIsEventExt::sort(&mut events);
        proof {
            assert forall|j: int| 0 <= j < events@.len() implies event_wf(#[trigger] events@[j]) by {
                let x = events@[j];
                assert(events@.contains(x));
                vstd::seq_lib::to_multiset_contains(events@, x);
                vstd::seq_lib::to_multiset_contains(unsorted, x);
                assert(unsorted.contains(x));
                let k = choose|k: int| 0 <= k < unsorted.len() && unsorted[k] == x;
                assert(event_wf(unsorted[k]));
            }
        }
        let mut return_instances: Vec<TimelineObjectInstance> = Vec::new();
        let mut active_instances: Vec<(String, usize)> = Vec::new();
        let mut active_instance_id: Option<String> = None;
        let mut previous_active = false;
        let ghost start_ctx = *ctx;
        let mut i: usize = 0;
        proof {
            assert(active_ids(active_instances@) =~= active_after(events@, 0));
        }
        while i < events.len()
            invariant
                i <= events@.len(),
                events_sorted(events@),
                forall|j: int| 0 <= j < events@.len() ==> event_wf(#[trigger] events@[j]),
                same_but_ids(start_ctx, *ctx),
                start_ctx == *old(ctx),
                forall|k: int| 0 <= k < active_instances@.len() ==> (#[trigger] active_instances@[k]).1 < events@.len(),
                active_ids(active_instances@) == active_after(events@, i as int),
                distinct_active(active_instances@),
                previous_active <==> active_instances@.len() > 0,
                active_instances@.len() > 0 <==> (return_instances@.len() > 0 && return_instances@.last().end is None),
                i == 0 ==> return_instances@.len() == 0,
                i > 0 ==> forall|k: int| 0 <= k < return_instances@.len() ==> (#[trigger] return_instances@[k]).start <= events@[i - 1].time
                    && ends_no_later(return_instances@[k], events@[i - 1].time),
                forall|x: Time| i > 0 && x < events@[i - 1].time ==> (covers(return_instances@, x) <==> active_at(events@, x)),
                instances_ordered(return_instances@),
                forall|k: int| 0 <= k < return_instances@.len() ==> instance_wf(#[trigger] return_instances@[k]),
                i < events@.len() ==> forall|k: int| 0 <= k < return_instances@.len() ==> (#[trigger] return_instances@[k]).start <= events@[i as int].time
                    && ends_no_later(return_instances@[k], events@[i as int].time),
                forall|k: int| 0 <= k < return_instances@.len() ==> at_event_times(events@, #[trigger] return_instances@[k]),
                allow_merge && !allow_zero_gaps ==> no_touching(return_instances@),
            decreases events@.len() - i,
        {
            let event = &events[i];
            let time = event.time;
            assert(has_event_at(events@, time));
            let event_id = event.id.clone();
            let ghost r0 = return_instances@;
            let ghost was_active = active_instances@.len() > 0;
            let ghost a0 = active_instances@;
            proof {
                lemma_active_nonempty(a0, active_after(events@, i as int));
            }
            proof {
                assert(event_wf(events@[i as int]));
            }
            // Track the event's change
            track_event(&mut active_instances, &event_id, event.is_start, i, events.len());
            let now_active = active_instances.len() > 0;
            proof {
                if !events@[i as int].is_start && now_active {
                    assert(active_ids(active_instances@).contains(active_instances@[0].0@));
                    let j = choose|j: int| 0 <= j < a0.len() && a0[j].0@ == active_instances@[0].0@;
                }
            }
            update_instances(
                ctx,
                &mut return_instances,
                &active_instances,
                &mut active_instance_id,
                previous_active,
                &events,
                i,
                allow_merge,
                allow_zero_gaps,
            );
            previous_active = now_active;
            proof {
                assert(grows_from(r0, return_instances@, time));
                lemma_step_covers(events@, i as int, r0, return_instances@, was_active);
            }
            i = i + 1;
            proof {
                if i < events@.len() {
                    assert(events@[i - 1].time <= events@[i as int].time);
                }
            }
        }
        proof {
            assert forall|x: Time| covers(return_instances@, x) <==> active_at(events@, x) by {
                if events@.len() == 0 {
                    lemma_boundary_at(events@, 0, x);
                    lemma_active_at(events@, 0, x);
                } else if x >= events@[events@.len() - 1].time {
                    lemma_active_nonempty(active_instances@, active_after(events@, events@.len() as int));
                    lemma_boundary_at(events@, events@.len() as int, x);
                    lemma_active_at(events@, events@.len() as int, x);
                    lemma_covers_from(return_instances@, events@[events@.len() - 1].time, x);
                }
            }
            assert forall|k: int| 0 <= k < return_instances@.len() implies at_event_times(
                unsorted,
                #[trigger] return_instances@[k],
            ) by {
                let inst = return_instances@[k];
                assert(at_event_times(events@, inst));
                lemma_event_time_kept(events@, unsorted, inst.start);
                if let Some(e) = inst.end {
                    lemma_event_time_kept(events@, unsorted, e);
                }
            }
        }
        return_instances
    }
}

proof fn lemma_event_time_kept(a: Seq<EventForInstance>, b: Seq<EventForInstance>, t: Time)
    requires
        a.to_multiset() == b.to_multiset(),
        has_event_at(a, t),
    ensures
        has_event_at(b, t),
{
    let j = choose|j: int| 0 <= j < a.len() && a[j].time == t;
    let x = a[j];
    assert(a.contains(x));
    vstd::seq_lib::to_multiset_contains(a, x);
    vstd::seq_lib::to_multiset_contains(b, x);
    assert(b.contains(x));
    let k = choose|k: int| 0 <= k < b.len() && b[k] == x;
    assert(b[k].time == t);
}

/// Instances in order do not overlap: each ends no later than any later
/// one starts, and they start in time order.
pub proof fn lemma_ordered_instances_disjoint(s: Seq<TimelineObjectInstance>, i: int, j: int)
    requires
        instances_ordered(s),
        0 <= i < j < s.len(),
    ensures
        ends_by(s[i], s[j].start),
        s[i].start <= s[j].start,
    decreases j - i,
{
    assert(ends_by(s[i], s[i + 1].start));
    assert(starts_before_end(s[i]));
    if j > i + 1 {
        lemma_ordered_instances_disjoint(s, i + 1, j);
        assert(starts_before_end(s[i + 1]));
    }
}

} // verus!
