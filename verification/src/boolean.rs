//! The instances in which a boolean expression of two lookups holds.

use vstd::prelude::*;
use crate::caps::{CapsBuilder, caps_view};
use crate::names::strings_view;
use crate::events::{IsEvent, VecIsEventExt};
use crate::expression::ExpressionOperator;
use crate::instance::{Cap, Time, TimelineObjectInstance, copy_caps, copy_strings, distinct_strings, instance_wf};
use crate::lookup_expression::{LookupExpressionResult, LookupExpressionResultType, instance_count, lookup_wf};
use crate::references::ReferencesBuilder;
use crate::resolver::{ResolverContext, same_but_ids};
use crate::util::all_wf;
use crate::events::{
    covers, distinct_instance_ids, event_after, events_sorted, in_span, instances_ordered,
    lemma_ordered_instances_disjoint, starts_before_end, ends_by, ends_no_later, grows_from,
    lemma_covers_before, lemma_covers_from, agrees_before,
};

verus! {

/// An instance of one side of a boolean expression starting or ending.
#[derive(Debug)]
pub struct SideEvent {
    pub time: Time,
    pub is_left: bool,
    pub is_start: bool,
    /// The id of the instance
    pub id: String,
    /// Where the instance is in its side's list
    pub instance: usize,
}

impl IsEvent for SideEvent {
    open spec fn event_time(&self) -> Time {
        self.time
    }

    open spec fn event_is_start(&self) -> bool {
        self.is_start
    }

    open spec fn event_id(&self) -> Seq<char> {
        self.id@
    }

    fn time(&self) -> (t: Time) {
        self.time
    }

    fn is_start(&self) -> (b: bool) {
        self.is_start
    }

    fn id(&self) -> (s: &String) {
        &self.id
    }
}

/// The instances of a lookup (none where it gives a time or nothing).
pub open spec fn side_list(r: LookupExpressionResultType) -> Seq<TimelineObjectInstance> {
    match r {
        LookupExpressionResultType::Instances(v) => v@,
        _ => Seq::empty(),
    }
}

/// Whether one side of a boolean expression holds at time `x`: one of its
/// instances is on then, or it is a time other than zero.
pub open spec fn side_holds(r: LookupExpressionResultType, x: Time) -> bool {
    match r {
        LookupExpressionResultType::Instances(v) => covers(v@, x),
        LookupExpressionResultType::TimeRef(t) => t.value != 0,
        LookupExpressionResultType::Null => false,
    }
}

/// Whether a side holds before any of its instances starts.
pub open spec fn side_initial(r: LookupExpressionResultType) -> bool {
    match r {
        LookupExpressionResultType::TimeRef(t) => t.value != 0,
        _ => false,
    }
}

/// What a boolean operator gives; the others give false.
pub open spec fn bool_spec(o: ExpressionOperator, a: bool, b: bool) -> bool {
    match o {
        ExpressionOperator::And => a && b,
        ExpressionOperator::Or => a || b,
        _ => false,
    }
}

/// The instance ends where it starts.
pub open spec fn zero_length(i: TimelineObjectInstance) -> bool {
    i.end == Some(i.start)
}

/// `e` is the start or the end event of an instance of `v`, on the given
/// side, that does not end where it starts.
pub open spec fn side_event_of(e: SideEvent, v: Seq<TimelineObjectInstance>, is_left: bool) -> bool {
    &&& e.is_left == is_left
    &&& e.instance < v.len()
    &&& e.id@ == v[e.instance as int].id@
    &&& !zero_length(v[e.instance as int])
    &&& e.is_start ==> e.time == v[e.instance as int].start
    &&& !e.is_start ==> v[e.instance as int].end == Some(e.time)
}

/// The start event of instance `k` of a side is among the events.
pub open spec fn has_side_start(s: Seq<SideEvent>, is_left: bool, k: int) -> bool {
    exists|j: int| 0 <= j < s.len() && s[j].is_left == is_left && s[j].is_start && s[j].instance == k
}

/// The end event of instance `k` of a side is among the events.
pub open spec fn has_side_end(s: Seq<SideEvent>, is_left: bool, k: int) -> bool {
    exists|j: int| 0 <= j < s.len() && s[j].is_left == is_left && !s[j].is_start && s[j].instance == k
}

/// The events are just those of the instances of one side: each is the
/// start or the end of one, and each that does not end where it starts has
/// its start and, where it ends, its end among them.
pub open spec fn one_side_events(s: Seq<SideEvent>, v: Seq<TimelineObjectInstance>, is_left: bool) -> bool {
    &&& forall|j: int| 0 <= j < s.len() ==> side_event_of(#[trigger] s[j], v, is_left)
    &&& forall|k: int| 0 <= k < v.len() && !zero_length(v[k]) ==> #[trigger] has_side_start(s, is_left, k)
    &&& forall|k: int|
        0 <= k < v.len() && !zero_length(v[k]) && v[k].end is Some ==> #[trigger] has_side_end(s, is_left, k)
}

/// The start and end events of the instances of one side; an instance that
/// ends where it starts has none.
pub fn get_side_events(res: &LookupExpressionResult, is_left: bool) -> (events: Vec<SideEvent>)
    ensures
        one_side_events(events@, side_list(res.result), is_left),
        forall|k: int|
            0 <= k < events@.len() ==> (#[trigger] events@[k]).instance < instance_count(res.result)
                && events@[k].is_left == is_left,
{
    let mut events: Vec<SideEvent> = Vec::new();
    match &res.result {
        LookupExpressionResultType::Instances(instances) => {
            let ghost v = instances@;
            let mut k: usize = 0;
            while k < instances.len()
                invariant
                    k <= instances@.len(),
                    v == instances@,
                    v == side_list(res.result),
                    instance_count(res.result) == instances@.len(),
                    forall|j: int| 0 <= j < events@.len() ==> side_event_of(#[trigger] events@[j], v, is_left),
                    forall|j: int| 0 <= j < events@.len() ==> (#[trigger] events@[j]).instance < k,
                    forall|m: int| 0 <= m < k && !zero_length(v[m]) ==> #[trigger] has_side_start(events@, is_left, m),
                    forall|m: int|
                        0 <= m < k && !zero_length(v[m]) && v[m].end is Some ==> #[trigger] has_side_end(
                            events@,
                            is_left,
                            m,
                        ),
                decreases instances@.len() - k,
            {
                let instance = &instances[k];
                let ghost e0 = events@;
                let mut skip = false;
                if let Some(end) = instance.end {
                    if end == instance.start {
                        skip = true;
                    } else {
                        events.push(
                            SideEvent { time: end, is_left, is_start: false, id: instance.id.clone(), instance: k },
                        );
                        assert(events@[e0.len() as int].instance == k);
                    }
                }
                let ghost e1 = events@;
                if !skip {
                    events.push(
                        SideEvent {
                            time: instance.start,
                            is_left,
                            is_start: true,
                            id: instance.id.clone(),
                            instance: k,
                        },
                    );
                    assert(events@[e1.len() as int].instance == k);
                }
                proof {
                    assert forall|m: int| 0 <= m < k + 1 && !zero_length(v[m]) implies #[trigger] has_side_start(
                        events@,
                        is_left,
                        m,
                    ) by {
                        if m < k {
                            assert(has_side_start(e0, is_left, m));
                            let j = choose|j: int|
                                0 <= j < e0.len() && e0[j].is_left == is_left && e0[j].is_start && e0[j].instance == m;
                            assert(events@[j] == e0[j]);
                        } else {
                            assert(events@[e1.len() as int].is_start);
                        }
                    }
                    assert forall|m: int|
                        0 <= m < k + 1 && !zero_length(v[m]) && v[m].end is Some implies #[trigger] has_side_end(
                        events@,
                        is_left,
                        m,
                    ) by {
                        if m < k {
                            assert(has_side_end(e0, is_left, m));
                            let j = choose|j: int|
                                0 <= j < e0.len() && e0[j].is_left == is_left && !e0[j].is_start && e0[j].instance == m;
                            assert(events@[j] == e0[j]);
                        } else {
                            assert(!events@[e0.len() as int].is_start);
                        }
                    }
                }
                k = k + 1;
            }
        },
        _ => {},
    }
    events
}

/// `e` is an event of an instance of its side.
pub open spec fn side_event_ok(e: SideEvent, l: Seq<TimelineObjectInstance>, r: Seq<TimelineObjectInstance>) -> bool {
    if e.is_left {
        side_event_of(e, l, true)
    } else {
        side_event_of(e, r, false)
    }
}

/// The events are just those of the instances of both sides.
pub open spec fn both_side_events(s: Seq<SideEvent>, l: Seq<TimelineObjectInstance>, r: Seq<TimelineObjectInstance>) -> bool {
    &&& forall|j: int| 0 <= j < s.len() ==> side_event_ok(#[trigger] s[j], l, r)
    &&& forall|k: int| 0 <= k < l.len() && !zero_length(l[k]) ==> #[trigger] has_side_start(s, true, k)
    &&& forall|k: int|
        0 <= k < l.len() && !zero_length(l[k]) && l[k].end is Some ==> #[trigger] has_side_end(s, true, k)
    &&& forall|k: int| 0 <= k < r.len() && !zero_length(r[k]) ==> #[trigger] has_side_start(s, false, k)
    &&& forall|k: int|
        0 <= k < r.len() && !zero_length(r[k]) && r[k].end is Some ==> #[trigger] has_side_end(s, false, k)
}

proof fn lemma_both_sides(a: Seq<SideEvent>, b: Seq<SideEvent>, l: Seq<TimelineObjectInstance>, r: Seq<TimelineObjectInstance>)
    requires
        one_side_events(a, l, true),
        one_side_events(b, r, false),
    ensures
        both_side_events(a + b, l, r),
{
    let s = a + b;
    assert forall|j: int| 0 <= j < s.len() implies side_event_ok(#[trigger] s[j], l, r) by {
        if j < a.len() {
            assert(s[j] == a[j]);
            assert(side_event_of(a[j], l, true));
        } else {
            assert(s[j] == b[j - a.len()]);
            assert(side_event_of(b[j - a.len()], r, false));
        }
    }
    assert forall|k: int| 0 <= k < l.len() && !zero_length(l[k]) implies #[trigger] has_side_start(s, true, k) by {
        assert(has_side_start(a, true, k));
        let j = choose|j: int| 0 <= j < a.len() && a[j].is_left == true && a[j].is_start && a[j].instance == k;
        assert(s[j] == a[j]);
    }
    assert forall|k: int| 0 <= k < l.len() && !zero_length(l[k]) && l[k].end is Some implies #[trigger] has_side_end(
        s,
        true,
        k,
    ) by {
        assert(has_side_end(a, true, k));
        let j = choose|j: int| 0 <= j < a.len() && a[j].is_left == true && !a[j].is_start && a[j].instance == k;
        assert(s[j] == a[j]);
    }
    assert forall|k: int| 0 <= k < r.len() && !zero_length(r[k]) implies #[trigger] has_side_start(s, false, k) by {
        assert(has_side_start(b, false, k));
        let j = choose|j: int| 0 <= j < b.len() && b[j].is_left == false && b[j].is_start && b[j].instance == k;
        assert(s[j + a.len()] == b[j]);
    }
    assert forall|k: int| 0 <= k < r.len() && !zero_length(r[k]) && r[k].end is Some implies #[trigger] has_side_end(
        s,
        false,
        k,
    ) by {
        assert(has_side_end(b, false, k));
        let j = choose|j: int| 0 <= j < b.len() && b[j].is_left == false && !b[j].is_start && b[j].instance == k;
        assert(s[j + a.len()] == b[j]);
    }
}

proof fn lemma_moved(e: Seq<SideEvent>, s: Seq<SideEvent>, x: SideEvent)
    requires
        e.to_multiset() == s.to_multiset(),
        e.contains(x),
    ensures
        s.contains(x),
{
    vstd::seq_lib::to_multiset_contains(e, x);
    vstd::seq_lib::to_multiset_contains(s, x);
}

proof fn lemma_both_reordered(e: Seq<SideEvent>, s: Seq<SideEvent>, l: Seq<TimelineObjectInstance>, r: Seq<TimelineObjectInstance>)
    requires
        e.to_multiset() == s.to_multiset(),
        both_side_events(e, l, r),
    ensures
        both_side_events(s, l, r),
{
    assert forall|j: int| 0 <= j < s.len() implies side_event_ok(#[trigger] s[j], l, r) by {
        assert(s.contains(s[j]));
        lemma_moved(s, e, s[j]);
        let j2 = choose|j2: int| 0 <= j2 < e.len() && e[j2] == s[j];
        assert(side_event_ok(e[j2], l, r));
    }
    assert forall|side: bool, k: int| #[trigger] has_side_start(e, side, k) implies has_side_start(s, side, k) by {
        let j = choose|j: int| 0 <= j < e.len() && e[j].is_left == side && e[j].is_start && e[j].instance == k;
        assert(e.contains(e[j]));
        lemma_moved(e, s, e[j]);
        let j2 = choose|j2: int| 0 <= j2 < s.len() && s[j2] == e[j];
        assert(s[j2].is_left == side && s[j2].is_start && s[j2].instance == k);
    }
    assert forall|side: bool, k: int| #[trigger] has_side_end(e, side, k) implies has_side_end(s, side, k) by {
        let j = choose|j: int| 0 <= j < e.len() && e[j].is_left == side && !e[j].is_start && e[j].instance == k;
        assert(e.contains(e[j]));
        lemma_moved(e, s, e[j]);
        let j2 = choose|j2: int| 0 <= j2 < s.len() && s[j2] == e[j];
        assert(s[j2].is_left == side && !s[j2].is_start && s[j2].instance == k);
    }
    assert forall|k: int| 0 <= k < l.len() && !zero_length(l[k]) implies #[trigger] has_side_start(s, true, k) by {
        assert(has_side_start(e, true, k));
    }
    assert forall|k: int| 0 <= k < l.len() && !zero_length(l[k]) && l[k].end is Some implies #[trigger] has_side_end(
        s,
        true,
        k,
    ) by {
        assert(has_side_end(e, true, k));
    }
    assert forall|k: int| 0 <= k < r.len() && !zero_length(r[k]) implies #[trigger] has_side_start(s, false, k) by {
        assert(has_side_start(e, false, k));
    }
    assert forall|k: int| 0 <= k < r.len() && !zero_length(r[k]) && r[k].end is Some implies #[trigger] has_side_end(
        s,
        false,
        k,
    ) by {
        assert(has_side_end(e, false, k));
    }
}

/// The first `n` events are those at time `t` or earlier.
pub open spec fn side_boundary(s: Seq<SideEvent>, n: int, t: Time) -> bool {
    &&& 0 <= n <= s.len()
    &&& forall|j: int| 0 <= j < n ==> s[j].time <= t
    &&& forall|j: int| n <= j < s.len() ==> s[j].time > t
}

/// Whether a side holds after the first `n` events: as the last of its
/// events says, or as it did at first.
pub open spec fn side_value(s: Seq<SideEvent>, n: int, is_left: bool, init: bool) -> bool
    decreases n,
{
    if n <= 0 {
        init
    } else if s[n - 1].is_left == is_left {
        s[n - 1].is_start
    } else {
        side_value(s, n - 1, is_left, init)
    }
}

/// Whether a side holds at time `t`, after the events up to then.
pub open spec fn side_value_at(s: Seq<SideEvent>, t: Time, is_left: bool, init: bool) -> bool {
    side_value(s, choose|n: int| side_boundary(s, n, t), is_left, init)
}

proof fn lemma_side_boundary_unique(s: Seq<SideEvent>, n: int, m: int, t: Time)
    requires
        side_boundary(s, n, t),
        side_boundary(s, m, t),
    ensures
        n == m,
{
    if n < m {
        assert(s[n].time <= t);
    } else if m < n {
        assert(s[m].time <= t);
    }
}

proof fn lemma_side_boundary_at(s: Seq<SideEvent>, n: int, t: Time, is_left: bool, init: bool)
    requires
        side_boundary(s, n, t),
    ensures
        side_value_at(s, t, is_left, init) == side_value(s, n, is_left, init),
{
    let m = choose|m: int| side_boundary(s, m, t);
    lemma_side_boundary_unique(s, n, m, t);
}

proof fn lemma_side_boundary_between(s: Seq<SideEvent>, i: int, t: Time)
    requires
        events_sorted(s),
        0 <= i <= s.len(),
        i > 0 ==> s[i - 1].time <= t,
        i < s.len() ==> t < s[i].time,
    ensures
        side_boundary(s, i, t),
{
    assert forall|j: int| 0 <= j < i implies s[j].time <= t by {
        if j < i - 1 {
            assert(s[j].event_time() <= s[i - 1].event_time());
        }
    }
    assert forall|j: int| i <= j < s.len() implies s[j].time > t by {
        if j > i {
            assert(s[i].event_time() <= s[j].event_time());
        }
    }
}

proof fn lemma_side_boundary_exists(s: Seq<SideEvent>, t: Time)
    requires
        events_sorted(s),
    ensures
        exists|n: int| side_boundary(s, n, t),
    decreases s.len(),
{
    if s.len() == 0 {
        assert(side_boundary(s, 0, t));
    } else {
        let p = s.drop_last();
        assert(events_sorted(p)) by {
            assert forall|i: int, j: int| 0 <= i < j < p.len() implies p[i].event_time() <= p[j].event_time() by {
                assert(p[i] == s[i] && p[j] == s[j]);
            }
            assert forall|i: int| 0 <= i < p.len() - 1 implies !event_after(#[trigger] p[i], p[i + 1]) by {
                assert(p[i] == s[i] && p[i + 1] == s[i + 1]);
            }
        }
        lemma_side_boundary_exists(p, t);
        let m = choose|m: int| side_boundary(p, m, t);
        if s.last().time <= t {
            lemma_side_boundary_between(s, s.len() as int, t);
        } else {
            assert forall|j: int| m <= j < s.len() implies s[j].time > t by {
                if j < s.len() - 1 {
                    assert(p[j] == s[j]);
                }
            }
            assert forall|j: int| 0 <= j < m implies s[j].time <= t by {
                assert(p[j] == s[j]);
            }
            assert(side_boundary(s, m, t));
        }
    }
}

proof fn lemma_side_value_none(s: Seq<SideEvent>, n: int, is_left: bool, init: bool)
    requires
        0 <= n <= s.len(),
        forall|j: int| 0 <= j < n ==> (#[trigger] s[j]).is_left != is_left,
    ensures
        side_value(s, n, is_left, init) == init,
    decreases n,
{
    if n > 0 {
        lemma_side_value_none(s, n - 1, is_left, init);
    }
}

/// The last event of a side among the first `n`.
proof fn lemma_side_value_last(s: Seq<SideEvent>, n: int, is_left: bool, init: bool, j0: int) -> (q: int)
    requires
        0 <= j0 < n <= s.len(),
        s[j0].is_left == is_left,
    ensures
        j0 <= q < n,
        s[q].is_left == is_left,
        side_value(s, n, is_left, init) == s[q].is_start,
        forall|j: int| q < j < n ==> (#[trigger] s[j]).is_left != is_left,
    decreases n,
{
    if s[n - 1].is_left == is_left {
        n - 1
    } else {
        lemma_side_value_last(s, n - 1, is_left, init, j0)
    }
}

/// In sorted events, a start before an end at the same time means some
/// start right before an end, at that time, of the same id.
proof fn lemma_group_order(s: Seq<SideEvent>, a: int, b: int) -> (m: int)
    requires
        events_sorted(s),
        0 <= a < b < s.len(),
        s[a].time == s[b].time,
        s[a].is_start,
        !s[b].is_start,
    ensures
        a <= m < b,
        s[m].is_start,
        !s[m + 1].is_start,
        s[m].id@ == s[m + 1].id@,
        s[m].time == s[m + 1].time,
    decreases b - a,
{
    assert(s[a].event_time() <= s[a + 1].event_time());
    if a + 1 < b {
        assert(s[a + 1].event_time() <= s[b].event_time());
    }
    assert(!event_after(s[a], s[a + 1]));
    if !s[a + 1].is_start {
        a
    } else {
        lemma_group_order(s, a + 1, b)
    }
}

/// The place of an instance of a side among the instances of both.
pub open spec fn owner_index(e: SideEvent, l: Seq<TimelineObjectInstance>) -> int {
    if e.is_left {
        e.instance as int
    } else {
        l.len() + e.instance
    }
}

proof fn lemma_same_owner(s: Seq<SideEvent>, l: Seq<TimelineObjectInstance>, r: Seq<TimelineObjectInstance>, a: int, b: int)
    requires
        both_side_events(s, l, r),
        distinct_instance_ids(l + r),
        0 <= a < s.len(),
        0 <= b < s.len(),
        s[a].id@ == s[b].id@,
    ensures
        s[a].is_left == s[b].is_left,
        s[a].instance == s[b].instance,
{
    let lr = l + r;
    assert(side_event_ok(s[a], l, r));
    assert(side_event_ok(s[b], l, r));
    let ia = owner_index(s[a], l);
    let ib = owner_index(s[b], l);
    assert(lr[ia].id@ == s[a].id@);
    assert(lr[ib].id@ == s[b].id@);
}

/// A side with ordered instances, whose ids are apart from all others,
/// holds after the events up to time `t` just when one of its instances is
/// on at `t`.
proof fn lemma_side_holds(
    s: Seq<SideEvent>,
    l: Seq<TimelineObjectInstance>,
    r: Seq<TimelineObjectInstance>,
    is_left: bool,
    n: int,
    t: Time,
)
    requires
        events_sorted(s),
        both_side_events(s, l, r),
        distinct_instance_ids(l + r),
        instances_ordered(if is_left { l } else { r }),
        side_boundary(s, n, t),
    ensures
        side_value(s, n, is_left, false) == covers(if is_left { l } else { r }, t),
{
    let v = if is_left { l } else { r };
    assert forall|j: int| 0 <= j < s.len() && (#[trigger] s[j]).is_left == is_left implies side_event_of(s[j], v, is_left) by {
        assert(side_event_ok(s[j], l, r));
    }
    assert(distinct_instance_ids(v)) by {
        assert forall|a: int, b: int| 0 <= a < v.len() && 0 <= b < v.len() && a != b implies v[a].id@ != v[b].id@ by {
            let lr = l + r;
            if is_left {
                assert(lr[a] == l[a] && lr[b] == l[b]);
            } else {
                assert(lr[l.len() + a] == r[a] && lr[l.len() + b] == r[b]);
            }
        }
    }
    if covers(v, t) {
        let k = choose|k: int| 0 <= k < v.len() && in_span(#[trigger] v[k], t);
        assert(!zero_length(v[k]));
        assert(has_side_start(s, is_left, k));
        let p = choose|j: int| 0 <= j < s.len() && s[j].is_left == is_left && s[j].is_start && s[j].instance == k;
        assert(side_event_of(s[p], v, is_left));
        assert(p < n) by {
            if p >= n {
                assert(s[p].time > t);
            }
        }
        let q = lemma_side_value_last(s, n, is_left, false, p);
        if !s[q].is_start {
            assert(side_event_of(s[q], v, is_left));
            let m = s[q].instance as int;
            assert(s[q].time <= t);
            if m == k {
            } else if m < k {
                lemma_ordered_instances_disjoint(v, m, k);
                assert(s[p].event_time() <= s[q].event_time());
                let g = lemma_group_order(s, p, q);
                lemma_same_owner(s, l, r, g, g + 1);
                assert(side_event_of(s[g], v, is_left));
                assert(side_event_of(s[g + 1], v, is_left));
            } else {
                lemma_ordered_instances_disjoint(v, k, m);
                assert(starts_before_end(v[m]));
            }
        }
    }
    if side_value(s, n, is_left, false) {
        if forall|j: int| 0 <= j < n ==> (#[trigger] s[j]).is_left != is_left {
            lemma_side_value_none(s, n, is_left, false);
        }
        let j0 = choose|j: int| 0 <= j < n && (#[trigger] s[j]).is_left == is_left;
        let q = lemma_side_value_last(s, n, is_left, false, j0);
        assert(side_event_of(s[q], v, is_left));
        let k = s[q].instance as int;
        assert(s[q].time <= t);
        assert(starts_before_end(v[k]));
        if let Some(e) = v[k].end {
            if e <= t {
                assert(has_side_end(s, is_left, k));
                let p = choose|j: int| 0 <= j < s.len() && s[j].is_left == is_left && !s[j].is_start && s[j].instance == k;
                assert(side_event_of(s[p], v, is_left));
                assert(p < n) by {
                    if p >= n {
                        assert(s[p].time > t);
                    }
                }
                assert(p < q);
                assert(s[p].event_time() <= s[q].event_time());
            }
        }
        assert(in_span(v[k], t));
    }
}

fn bool_op(o: ExpressionOperator, a: bool, b: bool) -> (r: bool)
    ensures
        r == match o {
            ExpressionOperator::And => a && b,
            ExpressionOperator::Or => a || b,
            _ => false,
        },
{
    match o {
        ExpressionOperator::And => a && b,
        ExpressionOperator::Or => a || b,
        _ => false,
    }
}

fn push_instance(
    ctx: &mut ResolverContext,
    instances: &mut Vec<TimelineObjectInstance>,
    time: Time,
    value: bool,
    references: Vec<String>,
    caps: Vec<Cap>,
)
    requires
        distinct_strings(references@),
        all_wf(old(instances)@),
    ensures
        same_but_ids(*old(ctx), *final(ctx)),
        all_wf(final(instances)@),
        value ==> final(instances)@.len() == old(instances)@.len() + 1 && final(instances)@.drop_last()
            == old(instances)@ && final(instances)@.last().start == time && final(instances)@.last().end is None,
        !value && old(instances)@.len() > 0 ==> final(instances)@ == old(instances)@.drop_last().push(
            TimelineObjectInstance { end: Some(time), ..old(instances)@.last() },
        ),
        !value && old(instances)@.len() == 0 ==> final(instances)@ == old(instances)@,
{
    if value {
        let id = ctx.generate_id();
        let ghost before = instances@;
        instances.push(
            TimelineObjectInstance {
                id,
                is_first: false,
                start: time,
                end: None,
                original_start: None,
                original_end: None,
                references,
                caps,
                from_instance_id: None,
            },
        );
        assert(instances@.drop_last() =~= before);
    } else if instances.len() > 0 {
        let mut last = instances.pop().unwrap();
        last.end = Some(time);
        instances.push(last);
    }
}

fn side_references(res: &LookupExpressionResult, index: Option<usize>) -> (r: (Option<Vec<String>>, Option<Vec<Cap>>))
    requires
        lookup_wf(*res),
    ensures
        r.0 matches Some(v) ==> distinct_strings(v@),
        match (index, res.result) {
            (Some(k), LookupExpressionResultType::Instances(v)) => if k < v@.len() {
                &&& r.0 matches Some(refs) && strings_view(refs@) == strings_view(v@[k as int].references@)
                &&& r.1 matches Some(caps) && caps_view(caps@) == caps_view(v@[k as int].caps@)
            } else {
                r.0 is None && r.1 is None
            },
            _ => r.0 is None && r.1 is None,
        },
{
    match (index, &res.result) {
        (Some(k), LookupExpressionResultType::Instances(v)) => {
            if k < v.len() {
                proof {
                    assert(instance_wf(v@[k as int]));
                }
                let refs = copy_strings(&v[k].references);
                let caps = copy_caps(&v[k].caps);
                assert(strings_view(refs@) =~= strings_view(v@[k as int].references@));
                assert(caps_view(caps@) =~= caps_view(v@[k as int].caps@));
                (Some(refs), Some(caps))
            } else {
                (None, None)
            }
        },
        _ => (None, None),
    }
}

/// Turning the result on or off at a time keeps the result's instances in
/// order, changed only from that time on.
proof fn lemma_result_step(
    r0: Seq<TimelineObjectInstance>,
    r1: Seq<TimelineObjectInstance>,
    time: Time,
    value: bool,
    c: Time,
)
    requires
        instances_ordered(r0),
        forall|k: int| 0 <= k < r0.len() ==> (#[trigger] r0[k]).start <= c && ends_no_later(r0[k], c),
        c <= time,
        value <==> !(r0.len() > 0 && r0.last().end is None),
        value ==> r1.len() == r0.len() + 1 && r1.drop_last() == r0 && r1.last().start == time && r1.last().end is None,
        !value && r0.len() > 0 ==> r1 == r0.drop_last().push(TimelineObjectInstance { end: Some(time), ..r0.last() }),
        !value && r0.len() == 0 ==> r1 == r0,
    ensures
        instances_ordered(r1),
        grows_from(r0, r1, time),
        forall|k: int| 0 <= k < r1.len() ==> (#[trigger] r1[k]).start <= time && ends_no_later(r1[k], time),
        value <==> (r1.len() > 0 && r1.last().end is None),
{
    if value {
        assert forall|k: int| 0 <= k < r0.len() implies r1[k] == r0[k] by {
            assert(r1.drop_last()[k] == r1[k]);
        }
        if r0.len() > 0 {
            assert(ends_by(r0[r0.len() - 1], time));
        }
    } else if r0.len() > 0 {
        assert forall|k: int| 0 <= k < r0.len() - 1 implies r1[k] == r0[k] by {}
    }
}

/// At the end of the events at one time, the result covers, up to the next
/// time with events, just the times at which the expression holds.
proof fn lemma_group_end(
    sv: Seq<SideEvent>,
    i: int,
    g: int,
    r0: Seq<TimelineObjectInstance>,
    r1: Seq<TimelineObjectInstance>,
    o: ExpressionOperator,
    init_l: bool,
    init_r: bool,
    value: bool,
)
    requires
        events_sorted(sv),
        0 <= g <= i < sv.len(),
        forall|j: int| g <= j < i ==> (#[trigger] sv[j]).time == sv[i].time,
        i + 1 < sv.len() ==> sv[i].time != sv[i + 1].time,
        forall|x: Time|
            (g == sv.len() || x < sv[g].time) ==> (covers(r0, x) <==> bool_spec(
                o,
                side_value_at(sv, x, true, init_l),
                side_value_at(sv, x, false, init_r),
            )),
        grows_from(r0, r1, sv[i].time),
        instances_ordered(r1),
        forall|k: int| 0 <= k < r1.len() ==> (#[trigger] r1[k]).start <= sv[i].time && ends_no_later(r1[k], sv[i].time),
        value <==> (r1.len() > 0 && r1.last().end is None),
        value == bool_spec(o, side_value(sv, i + 1, true, init_l), side_value(sv, i + 1, false, init_r)),
    ensures
        forall|x: Time|
            (i + 1 == sv.len() || x < sv[i + 1].time) ==> (covers(r1, x) <==> bool_spec(
                o,
                side_value_at(sv, x, true, init_l),
                side_value_at(sv, x, false, init_r),
            )),
{
    let t = sv[i].time;
    if i + 1 < sv.len() {
        assert(sv[i].event_time() <= sv[i + 1].event_time());
    }
    assert forall|x: Time| (i + 1 == sv.len() || x < sv[i + 1].time) implies (covers(r1, x) <==> bool_spec(
        o,
        side_value_at(sv, x, true, init_l),
        side_value_at(sv, x, false, init_r),
    )) by {
        if x < t {
            assert(g == sv.len() || x < sv[g].time) by {
                if g < i {
                    assert(sv[g].time == t);
                }
            }
            lemma_covers_before(r0, r1, t, x);
        } else {
            lemma_covers_from(r1, t, x);
            lemma_side_boundary_between(sv, i + 1, x);
            lemma_side_boundary_at(sv, i + 1, x, true, init_l);
            lemma_side_boundary_at(sv, i + 1, x, false, init_r);
        }
    }
}

/// Sweeps the instances of both sides of a boolean expression in time order
/// and makes the instances in which the expression holds. A side that is a
/// time holds where that time is not zero. Where each side's instances are
/// in order and no two instances of the sides share an id, the result is on
/// (before the end of time) just when the expression holds.
#[verifier::spinoff_prover]
#[verifier::rlimit(60)]
pub fn boolean_instances(
    ctx: &mut ResolverContext,
    l: &LookupExpressionResult,
    r: &LookupExpressionResult,
    o: ExpressionOperator,
) -> (instances: Vec<TimelineObjectInstance>)
    requires
        lookup_wf(*l),
        lookup_wf(*r),
    ensures
        same_but_ids(*old(ctx), *final(ctx)),
        all_wf(instances@),
        instances_ordered(side_list(l.result)) && instances_ordered(side_list(r.result)) && distinct_instance_ids(
            side_list(l.result) + side_list(r.result),
        ) ==> forall|x: Time|
            x < Time::MAX ==> (covers(instances@, x) <==> bool_spec(
                o,
                side_holds(l.result, x),
                side_holds(r.result, x),
            )),
{
    let ghost lv = side_list(l.result);
    let ghost rv = side_list(r.result);
    let mut events = get_side_events(l, true);
    let mut right_events = get_side_events(r, false);
    let ghost le = events@;
    let ghost re = right_events@;
    events.append(&mut right_events);
    proof {
        lemma_both_sides(le, re, lv, rv);
    }
    let ghost unsorted = events@;
    VecIsEventExt::sort(&mut events);
    let ghost sv = events@;
    proof {
        lemma_both_reordered(unsorted, sv, lv, rv);
    }
    let mut left_value = match &l.result {
        LookupExpressionResultType::TimeRef(t) => t.value != 0,
        _ => false,
    };
    let mut right_value = match &r.result {
        LookupExpressionResultType::TimeRef(t) => t.value != 0,
        _ => false,
    };
    let ghost init_l = left_value;
    let ghost init_r = right_value;
    let mut result_value = bool_op(o, left_value, right_value);
    let result_references = ReferencesBuilder::new().add(&l.all_references).add(&r.all_references).done();
    let mut left_instance: Option<usize> = None;
    let mut right_instance: Option<usize> = None;
    let mut instances: Vec<TimelineObjectInstance> = Vec::new();
    let ghost ctx0 = *ctx;
    push_instance(ctx, &mut instances, 0, result_value, result_references, Vec::new());
    let ghost mut g: int = 0;
    proof {
        assert forall|x: Time| (g == sv.len() || x < sv[g].time) implies (covers(instances@, x) <==> bool_spec(
            o,
            side_value_at(sv, x, true, init_l),
            side_value_at(sv, x, false, init_r),
        )) by {
            lemma_side_boundary_between(sv, 0, x);
            lemma_side_boundary_at(sv, 0, x, true, init_l);
            lemma_side_boundary_at(sv, 0, x, false, init_r);
            if result_value {
                assert(in_span(instances@[0], x));
            }
        }
    }
    let mut i: usize = 0;
    while i < events.len()
        invariant
            i <= events@.len(),
            sv == events@,
            events_sorted(sv),
            same_but_ids(ctx0, *ctx),
            all_wf(instances@),
            lookup_wf(*l),
            lookup_wf(*r),
            left_value == side_value(sv, i as int, true, init_l),
            right_value == side_value(sv, i as int, false, init_r),
            0 <= g <= i,
            g == 0 || g == sv.len() || sv[g - 1].time < sv[g].time,
            forall|j: int| g <= j < i ==> (#[trigger] sv[j]).time == if i < sv.len() {
                sv[i as int].time
            } else {
                Time::MAX
            },
            result_value == bool_spec(o, side_value(sv, g, true, init_l), side_value(sv, g, false, init_r)),
            instances_ordered(instances@),
            result_value <==> (instances@.len() > 0 && instances@.last().end is None),
            forall|k: int| 0 <= k < instances@.len() ==> (#[trigger] instances@[k]).start <= (if g > 0 {
                sv[g - 1].time
            } else {
                0
            }) && ends_no_later(instances@[k], if g > 0 {
                sv[g - 1].time
            } else {
                0
            }),
            forall|x: Time|
                (g == sv.len() || x < sv[g].time) ==> (covers(instances@, x) <==> bool_spec(
                    o,
                    side_value_at(sv, x, true, init_l),
                    side_value_at(sv, x, false, init_r),
                )),
        decreases events@.len() - i,
    {
        let event = &events[i];
        let next_time = if i + 1 < events.len() {
            events[i + 1].time
        } else {
            Time::MAX
        };
        if event.is_left {
            left_value = event.is_start;
            left_instance = Some(event.instance);
        } else {
            right_value = event.is_start;
            right_instance = Some(event.instance);
        }
        proof {
            if i + 1 < sv.len() {
                assert(sv[i as int].event_time() <= sv[i + 1].event_time());
            }
        }
        if next_time != event.time {
            let ghost r0 = instances@;
            let ghost c: Time = if g > 0 {
                sv[g - 1].time
            } else {
                0
            };
            proof {
                if g > 0 && g < i {
                    assert(sv[g].time == sv[i as int].time);
                    assert(sv[g - 1].event_time() <= sv[i as int].event_time()) by {
                        assert(events_sorted(sv));
                    }
                }
                if g > 0 && g == i {
                    assert(sv[g - 1].event_time() <= sv[i as int].event_time());
                }
            }
            let new_result_value = bool_op(o, left_value, right_value);
            if new_result_value != result_value {
                let (left_refs, left_caps) = side_references(l, left_instance);
                let (right_refs, right_caps) = side_references(r, right_instance);
                let references = ReferencesBuilder::new().add_some(left_refs.as_ref()).add_some(
                    right_refs.as_ref(),
                ).done();
                let caps = CapsBuilder::new().add_some(left_caps).add_some(right_caps).done();
                push_instance(ctx, &mut instances, event.time, new_result_value, references, caps);
                result_value = new_result_value;
                proof {
                    lemma_result_step(r0, instances@, sv[i as int].time, new_result_value, c);
                }
            } else {
                proof {
                    assert(grows_from(r0, instances@, sv[i as int].time)) by {
                        assert forall|k: int| 0 <= k < r0.len() implies agrees_before(
                            r0[k],
                            #[trigger] instances@[k],
                            sv[i as int].time,
                        ) by {}
                    }
                }
            }
            proof {
                lemma_group_end(sv, i as int, g, r0, instances@, o, init_l, init_r, result_value);
                g = i + 1;
            }
        }
        i = i + 1;
    }
    proof {
        if instances_ordered(lv) && instances_ordered(rv) && distinct_instance_ids(lv + rv) {
            assert forall|x: Time| x < Time::MAX implies (covers(instances@, x) <==> bool_spec(
                o,
                side_holds(l.result, x),
                side_holds(r.result, x),
            )) by {
                if g < sv.len() {
                    assert(sv[g].time == Time::MAX);
                }
                lemma_side_boundary_exists(sv, x);
                let n = choose|n: int| side_boundary(sv, n, x);
                lemma_side_boundary_at(sv, n, x, true, init_l);
                lemma_side_boundary_at(sv, n, x, false, init_r);
                lemma_side_matches(sv, lv, rv, l.result, true, n, x, init_l);
                lemma_side_matches(sv, lv, rv, r.result, false, n, x, init_r);
            }
        }
    }
    instances
}

/// What the sweep takes a side to be at a time is whether it holds then.
proof fn lemma_side_matches(
    s: Seq<SideEvent>,
    l: Seq<TimelineObjectInstance>,
    r: Seq<TimelineObjectInstance>,
    res: LookupExpressionResultType,
    is_left: bool,
    n: int,
    t: Time,
    init: bool,
)
    requires
        events_sorted(s),
        both_side_events(s, l, r),
        distinct_instance_ids(l + r),
        instances_ordered(l),
        instances_ordered(r),
        side_list(res) == if is_left { l } else { r },
        init == side_initial(res),
        side_boundary(s, n, t),
    ensures
        side_value(s, n, is_left, init) == side_holds(res, t),
{
    match res {
        LookupExpressionResultType::Instances(v) => {
            lemma_side_holds(s, l, r, is_left, n, t);
        },
        _ => {
            assert forall|j: int| 0 <= j < n implies (#[trigger] s[j]).is_left != is_left by {
                assert(side_event_ok(s[j], l, r));
            }
            lemma_side_value_none(s, n, is_left, init);
        },
    }
}

} // verus!
