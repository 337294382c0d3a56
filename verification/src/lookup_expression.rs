//! Looking up what an expression refers to: the instances of other objects,
//! or a point in time.

use vstd::prelude::*;
use crate::caps::CapsBuilder;
use crate::events::{IsEvent, VecIsEventExt};
use crate::expression::{ExprValue, Expression, ExpressionObj, ExpressionOperator, expr_size};
use crate::instance::{
    Cap, Time, TimelineObjectInstance, copy_caps, copy_instances, copy_strings, distinct_strings,
    end_or_max, instance_wf, same_instance, string_set,
};
use crate::names::{names_lookup, strings_view};
use crate::patterns::{regex_captures, regex_captures_result};
use crate::references::ReferencesBuilder;
use crate::resolver::{
    ObjectRefType, ResolveError, ResolverContext, TimeWithReference, TimelineObjectResolvingStatus,
    ctx_step, ctx_wf, lemma_ctx_step_trans, lemma_same_but_ids_step, pending_count, resolve_object,
    resolved_wf, same_but_ids, set_status, error_witnessed, others_complete, lemma_others_complete_step,
};
use crate::instance::{TimelineObjectResolved, TimelineObjectResolvedWip};
use crate::resolver::start_source;
use crate::expression::simplify_spec;
use crate::text::concat;
use crate::util::{all_wf, clean_instances, invert_instances, operate_on_arrays, paired_count, pairs_cover, pairs_positive};
use crate::boolean::{boolean_instances, bool_spec, side_holds, side_list};
use crate::events::{all_positive, covers, distinct_instance_ids, in_span, instances_ordered};

verus! {

/// What looking up an expression gives.
#[derive(Debug)]
pub enum LookupExpressionResultType {
    Instances(Vec<TimelineObjectInstance>),
    TimeRef(TimeWithReference),
    Null,
}

/// What looking up an expression gives, with every reference the
/// expression makes.
#[derive(Debug)]
pub struct LookupExpressionResult {
    pub result: LookupExpressionResultType,
    /// The references (no duplicates)
    pub all_references: Vec<String>,
}

/// The references of the result stand for sets.
pub open spec fn lookup_type_wf(r: LookupExpressionResultType) -> bool {
    match r {
        LookupExpressionResultType::Instances(v) => forall|k: int|
            0 <= k < v@.len() ==> instance_wf(#[trigger] v@[k]),
        LookupExpressionResultType::TimeRef(t) => distinct_strings(t.references@),
        LookupExpressionResultType::Null => true,
    }
}

pub open spec fn lookup_wf(r: LookupExpressionResult) -> bool {
    lookup_type_wf(r.result) && distinct_strings(r.all_references@)
}

impl LookupExpressionResult {
    /// Nothing, referring to nothing.
    pub fn null() -> (r: LookupExpressionResult)
        ensures
            r.result is Null,
            r.all_references@.len() == 0,
            lookup_wf(r),
    {
        LookupExpressionResult { result: LookupExpressionResultType::Null, all_references: Vec::new() }
    }
}

/// The regular expression of a reference to an object by id.
pub const MATCH_ID_PATTERN: &'static str = "^\\W*#([^.]+)(.*)";

/// The regular expression of a reference to the objects of a class.
pub const MATCH_CLASS_PATTERN: &'static str = "^\\W*\\.([^.]+)(.*)";

/// The regular expression of a reference to the objects of a layer.
pub const MATCH_LAYER_PATTERN: &'static str = "^\\W*\\$([^.]+)(.*)";

/// What a reference in an expression string names.
pub struct MatchExpressionReferences {
    /// What follows the name, such as `.start`
    pub remaining_expression: String,
    /// The ids of the objects it refers to
    pub object_ids_to_reference: Vec<String>,
    /// The reference itself (no duplicates)
    pub all_references: Vec<String>,
}

/// The reference that the matches of the three patterns make: the text
/// after the name, the ids referred to and the reference itself.
pub open spec fn references_spec(
    classes: Seq<(String, Vec<String>)>,
    layers: Seq<(String, Vec<String>)>,
    id_match: Option<(Seq<char>, Seq<char>)>,
    class_match: Option<(Seq<char>, Seq<char>)>,
    layer_match: Option<(Seq<char>, Seq<char>)>,
) -> Option<(Seq<char>, Seq<Seq<char>>, Seq<char>)> {
    match id_match {
        Some((id, rest)) => Some((rest, seq![id], seq!['#'] + id)),
        None => match class_match {
            Some((class, rest)) => Some(
                (
                    rest,
                    match names_lookup(classes, class) {
                        Some(ids) => ids,
                        None => Seq::empty(),
                    },
                    seq!['.'] + class,
                ),
            ),
            None => match layer_match {
                Some((layer, rest)) => Some(
                    (
                        rest,
                        match names_lookup(layers, layer) {
                            Some(ids) => ids,
                            None => Seq::empty(),
                        },
                        seq!['$'] + layer,
                    ),
                ),
                None => None,
            },
        },
    }
}

/// The view of a match of references.
pub open spec fn match_view(m: MatchExpressionReferences) -> (Seq<char>, Seq<Seq<char>>, Seq<char>) {
    (m.remaining_expression@, strings_view(m.object_ids_to_reference@), m.all_references@[0]@)
}

fn ids_or_empty(v: Option<&Vec<String>>) -> (r: Vec<String>)
    ensures
        match v {
            Some(x) => strings_view(r@) == strings_view(x@),
            None => r@.len() == 0,
        },
{
    match v {
        Some(x) => {
            let c = copy_strings(x);
            assert(strings_view(c@) =~= strings_view(x@));
            c
        },
        None => Vec::new(),
    }
}

fn single(s: String) -> (v: Vec<String>)
    ensures
        v@.len() == 1,
        v@[0] == s,
        distinct_strings(v@),
{
    let mut v: Vec<String> = Vec::new();
    v.push(s);
    v
}

/// What the matches of the three patterns refer to: an id; else a class,
/// by the ids of its objects; else a layer, by the ids of its objects.
pub fn expression_references(
    ctx: &ResolverContext,
    id_match: Option<(String, String)>,
    class_match: Option<(String, String)>,
    layer_match: Option<(String, String)>,
) -> (r: Option<MatchExpressionReferences>)
    ensures
        match r {
            Some(m) => m.all_references@.len() == 1 && distinct_strings(m.all_references@)
                && references_spec(
                ctx.classes@,
                ctx.layers@,
                match id_match {
                    Some(g) => Some((g.0@, g.1@)),
                    None => None,
                },
                match class_match {
                    Some(g) => Some((g.0@, g.1@)),
                    None => None,
                },
                match layer_match {
                    Some(g) => Some((g.0@, g.1@)),
                    None => None,
                },
            ) == Some(match_view(m)),
            None => id_match is None && class_match is None && layer_match is None,
        },
{
    proof {
        reveal_strlit("#");
        reveal_strlit(".");
        reveal_strlit("$");
    }
    match id_match {
        Some((id, rest)) => {
            let reference = concat("#", id.as_str());
            let ids = single(id);
            assert(strings_view(ids@) =~= seq![ids@[0]@]);
            Some(
                MatchExpressionReferences {
                    remaining_expression: rest,
                    object_ids_to_reference: ids,
                    all_references: single(reference),
                },
            )
        },
        None => match class_match {
            Some((class, rest)) => {
                let ids = ids_or_empty(ctx.get_object_ids_for_class(&class));
                let reference = concat(".", class.as_str());
                Some(
                    MatchExpressionReferences {
                        remaining_expression: rest,
                        object_ids_to_reference: ids,
                        all_references: single(reference),
                    },
                )
            },
            None => match layer_match {
                Some((layer, rest)) => {
                    let ids = ids_or_empty(ctx.get_object_ids_for_layer(&layer));
                    let reference = concat("$", layer.as_str());
                    Some(
                        MatchExpressionReferences {
                            remaining_expression: rest,
                            object_ids_to_reference: ids,
                            all_references: single(reference),
                        },
                    )
                },
                None => None,
            },
        },
    }
}

/// Finds the reference an expression string makes to an object, a class or
/// a layer.
pub fn match_expression_references(ctx: &ResolverContext, expr_str: &str) -> (r: Option<MatchExpressionReferences>)
    ensures
        match r {
            Some(m) => m.all_references@.len() == 1 && distinct_strings(m.all_references@)
                && references_spec(
                ctx.classes@,
                ctx.layers@,
                regex_captures_result(MATCH_ID_PATTERN@, expr_str@),
                regex_captures_result(MATCH_CLASS_PATTERN@, expr_str@),
                regex_captures_result(MATCH_LAYER_PATTERN@, expr_str@),
            ) == Some(match_view(m)),
            None => regex_captures_result(MATCH_ID_PATTERN@, expr_str@) is None
                && regex_captures_result(MATCH_CLASS_PATTERN@, expr_str@) is None
                && regex_captures_result(MATCH_LAYER_PATTERN@, expr_str@) is None,
        },
{
    let id_match = regex_captures(MATCH_ID_PATTERN, expr_str);
    let class_match = regex_captures(MATCH_CLASS_PATTERN, expr_str);
    let layer_match = regex_captures(MATCH_LAYER_PATTERN, expr_str);
    expression_references(ctx, id_match, class_match, layer_match)
}

fn is_text(s: &String, t: &str) -> (b: bool)
    ensures
        b == (s@ == t@),
{
    *s == t.to_owned()
}

/// The number of instances that a lookup gives.
pub open spec fn instance_count(r: LookupExpressionResultType) -> nat {
    match r {
        LookupExpressionResultType::Instances(v) => v@.len(),
        _ => 0,
    }
}

/// The time from a lookup by duration: the shortest first-instance
/// duration among the referred objects.
fn shortest(durations: Vec<TimeWithReference>) -> (r: Option<TimeWithReference>)
    requires
        forall|k: int| 0 <= k < durations@.len() ==> distinct_strings(#[trigger] durations@[k].references@),
    ensures
        r is None <==> durations@.len() == 0,
        r matches Some(t) ==> distinct_strings(t.references@) && forall|k: int|
            0 <= k < durations@.len() ==> t.value <= #[trigger] durations@[k].value,
        r matches Some(t) ==> durations@.contains(t),
{
    let mut result: Option<TimeWithReference> = None;
    let mut rest = durations;
    let ghost all = rest@;
    let total = rest.len();
    let mut n: usize = 0;
    while rest.len() > 0
        invariant
            n + rest@.len() == all.len(),
            all.len() == total,
            rest@ == all.skip(n as int),
            forall|k: int| 0 <= k < all.len() ==> distinct_strings(#[trigger] all[k].references@),
            result is None <==> n == 0,
            result matches Some(t) ==> distinct_strings(t.references@) && forall|k: int|
                0 <= k < n ==> t.value <= #[trigger] all[k].value,
            result matches Some(t) ==> all.contains(t),
        decreases rest@.len(),
    {
        let d = rest.remove(0);
        assert(d == all[n as int]);
        let replace = match &result {
            Some(first) => d.value < first.value,
            None => true,
        };
        if replace {
            result = Some(d);
        }
        n = n + 1;
        assert(rest@ =~= all.skip(n as int));
    }
    result
}

/// Which point of the referred objects the text after a reference means:
/// `.start`, `.end` or `.duration`, and otherwise the default.
pub open spec fn ref_type_of(rest: Seq<char>, default_ref_type: ObjectRefType) -> ObjectRefType {
    if rest == ".start"@ {
        ObjectRefType::Start
    } else if rest == ".end"@ {
        ObjectRefType::End
    } else if rest == ".duration"@ {
        ObjectRefType::Duration
    } else {
        default_ref_type
    }
}

/// What looking up one resolved object gives, by the text after the
/// reference: its instances (from each start); by `.end`, the times from its
/// first start on that none of its instances covers (for instances with
/// distinct ids); by `.duration`, the length of its first instance. Nothing
/// where it has no instances.
pub open spec fn object_lookup(
    res: TimelineObjectResolved,
    rest: Seq<char>,
    default_ref_type: ObjectRefType,
    result: LookupExpressionResultType,
) -> bool {
    lookup_by_type(res, ref_type_of(rest, default_ref_type), result)
}

/// What looking up one resolved object gives for the point `ref_type` of it.
pub open spec fn lookup_by_type(res: TimelineObjectResolved, ref_type: ObjectRefType, result: LookupExpressionResultType) -> bool {
    let v = res.instances@;
    if ref_type == ObjectRefType::Duration {
        if v.len() > 0 && v[0].end is Some {
            time_ref_value(result) == Some((v[0].end->0 - v[0].start) as Time)
        } else {
            result is Null
        }
    } else if v.len() == 0 {
        result is Null
    } else if ref_type == ObjectRefType::End {
        result matches LookupExpressionResultType::Instances(w) && (distinct_instance_ids(v) ==> (forall|x: Time|
            covers(w@, x) ==> !covers(v, x)) && (forall|x: Time, k: int|
            0 <= k < v.len() && #[trigger] v[k].start <= x && !covers(v, x) ==> #[trigger] covers(w@, x)))
    } else {
        result matches LookupExpressionResultType::Instances(w) && (distinct_instance_ids(v) ==> forall|x: Time|
            covers(w@, x) <==> covers(v, x))
    }
}

/// The id that an expression string refers to with `#`.
pub open spec fn referred_id(s: Seq<char>) -> Seq<char> {
    match regex_captures_result(MATCH_ID_PATTERN@, s) {
        Some((id, _)) => id,
        None => Seq::empty(),
    }
}

/// The id at which the first enable of a top-level object `i` starts,
/// written as `#id` (not its own id), where that enable repeats nothing.
pub open spec fn first_start_ref(c: ResolverContext, i: int) -> Option<Seq<char>> {
    let info = c.objects@[i].info;
    if info.parent_id is None && info.enable@.len() > 0 && info.enable@[0].repeating is None {
        match simplify_spec(start_source(info.enable@[0])) {
            Ok(ExprValue::Text(s)) => if regex_captures_result(MATCH_ID_PATTERN@, s) is Some && referred_id(s)
                != info.id@ {
                Some(referred_id(s))
            } else {
                None
            },
            _ => None,
        }
    } else {
        None
    }
}

/// Object `j` waits to be resolved, and the object at which its first
/// enable starts is object `i` or is being resolved.
pub open spec fn start_waits_on(c: ResolverContext, j: int, i: int) -> bool {
    &&& c.objects@[j].resolved is Pending
    &&& first_start_ref(c, j) matches Some(id) && exists|m: int|
        #[trigger] first_with_id(c, id, m) && (m == i || c.objects@[m].resolved is InProgress)
}

/// Object `j` waits to be resolved, and the object at which its first
/// enable starts is being resolved.
pub open spec fn start_blocked(c: ResolverContext, j: int) -> bool {
    &&& c.objects@[j].resolved is Pending
    &&& first_start_ref(c, j) matches Some(id) && exists|m: int|
        #[trigger] first_with_id(c, id, m) && c.objects@[m].resolved is InProgress
}

/// The text after the id that an expression string refers to with `#`.
pub open spec fn text_after_reference(s: Seq<char>) -> Seq<char> {
    match regex_captures_result(MATCH_ID_PATTERN@, s) {
        Some((_, rest)) => rest,
        None => Seq::empty(),
    }
}

/// Each object that the expression string refers to (but the object `obj`
/// itself) is resolved: the first object with each referred id.
pub open spec fn refers_resolved(c: ResolverContext, obj: int, s: Seq<char>) -> bool {
    match references_spec(
        c.classes@,
        c.layers@,
        regex_captures_result(MATCH_ID_PATTERN@, s),
        regex_captures_result(MATCH_CLASS_PATTERN@, s),
        regex_captures_result(MATCH_LAYER_PATTERN@, s),
    ) {
        None => true,
        Some((_, ids, _)) => forall|k: int, j: int|
            0 <= k < ids.len() && ids[k] != c.objects@[obj].info.id@ && #[trigger] first_with_id(c, ids[k], j)
                ==> c.objects@[j].resolved is Complete,
    }
}

/// Each object that a string of the expression refers to (but `obj`
/// itself) is resolved.
pub open spec fn expr_refers_resolved(c: ResolverContext, obj: int, e: ExprValue) -> bool
    decreases e,
{
    match e {
        ExprValue::Text(s) => refers_resolved(c, obj, s),
        ExprValue::Op(l, _, r) => expr_refers_resolved(c, obj, *l) && expr_refers_resolved(c, obj, *r),
        ExprValue::Invert(x) => expr_refers_resolved(c, obj, *x),
        _ => true,
    }
}

/// A step of resolving keeps referred objects resolved.
pub proof fn lemma_refers_resolved_step(a: ResolverContext, b: ResolverContext, obj: int, e: ExprValue)
    requires
        ctx_step(a, b),
        0 <= obj < a.objects@.len(),
        expr_refers_resolved(a, obj, e),
    ensures
        expr_refers_resolved(b, obj, e),
    decreases e,
{
    match e {
        ExprValue::Text(s) => {
            match references_spec(
                a.classes@,
                a.layers@,
                regex_captures_result(MATCH_ID_PATTERN@, s),
                regex_captures_result(MATCH_CLASS_PATTERN@, s),
                regex_captures_result(MATCH_LAYER_PATTERN@, s),
            ) {
                None => {},
                Some((_, ids, _)) => {
                    assert forall|k: int, j: int|
                        0 <= k < ids.len() && ids[k] != b.objects@[obj].info.id@ && #[trigger] first_with_id(b, ids[k], j)
                            implies b.objects@[j].resolved is Complete by {
                        assert(b.objects@[j].info == a.objects@[j].info);
                        assert(b.objects@[obj].info == a.objects@[obj].info);
                        assert forall|m: int| 0 <= m < j implies a.objects@[m].info.id@ != ids[k] by {
                            assert(b.objects@[m].info == a.objects@[m].info);
                        }
                        assert(first_with_id(a, ids[k], j));
                    }
                },
            }
        },
        ExprValue::Op(l, _, r) => {
            lemma_refers_resolved_step(a, b, obj, *l);
            lemma_refers_resolved_step(a, b, obj, *r);
        },
        ExprValue::Invert(x) => {
            lemma_refers_resolved_step(a, b, obj, *x);
        },
        _ => {},
    }
}

/// `j` is the first object with the id `id`.
pub open spec fn first_with_id(c: ResolverContext, id: Seq<char>, j: int) -> bool {
    &&& 0 <= j < c.objects@.len()
    &&& c.objects@[j].info.id@ == id
    &&& forall|m: int| 0 <= m < j ==> c.objects@[m].info.id@ != id
}

/// The references of an instance and the id of the object it belongs to.
fn duration_of(first: &TimelineObjectInstance, end: Time, ref_id: &String) -> (t: TimeWithReference)
    requires
        instance_wf(*first),
        end > first.start,
    ensures
        t.value == end - first.start,
        distinct_strings(t.references@),
{
    TimeWithReference {
        value: end - first.start,
        references: ReferencesBuilder::new().add(&first.references).add_id(ref_id).done(),
    }
}

/// The reference an expression string makes: to an object by `#` and its
/// id, else to a class by `.` and its name, else to a layer by `$` and its
/// name.
pub open spec fn text_reference(s: Seq<char>) -> Option<Seq<char>> {
    match regex_captures_result(MATCH_ID_PATTERN@, s) {
        Some(g) => Some(seq!['#'] + g.0),
        None => match regex_captures_result(MATCH_CLASS_PATTERN@, s) {
            Some(g) => Some(seq!['.'] + g.0),
            None => match regex_captures_result(MATCH_LAYER_PATTERN@, s) {
                Some(g) => Some(seq!['$'] + g.0),
                None => None,
            },
        },
    }
}

/// The references of a reference string: the one it makes, if any.
pub open spec fn text_references(s: Seq<char>) -> Set<Seq<char>> {
    match text_reference(s) {
        Some(r) => set![r],
        None => Set::empty(),
    }
}

/// The references an expression makes: those of its strings, leaving out
/// binary expressions with a null side.
pub open spec fn expression_references_spec(e: ExprValue) -> Set<Seq<char>>
    decreases e,
{
    match e {
        ExprValue::Text(s) => text_references(s),
        ExprValue::Op(l, _, r) => if *l is Null || *r is Null {
            Set::empty()
        } else {
            expression_references_spec(*l).union(expression_references_spec(*r))
        },
        ExprValue::Invert(x) => expression_references_spec(*x),
        _ => Set::empty(),
    }
}

/// The time that a lookup gives, if it gives a time.
pub open spec fn time_ref_value(r: LookupExpressionResultType) -> Option<Time> {
    match r {
        LookupExpressionResultType::TimeRef(t) => Some(t.value),
        _ => None,
    }
}

/// A null, a number or a boolean, whose lookup needs no object.
pub open spec fn is_constant_value(e: ExprValue) -> bool {
    e is Null || e is Number || e is Bool
}

/// What looking up a constant gives: nothing for null; a time for a number
/// (negative numbers counting as zero) and for `true`; no instances for
/// `false`.
pub open spec fn constant_lookup(e: ExprValue, r: LookupExpressionResultType) -> bool {
    match e {
        ExprValue::Null => r is Null,
        ExprValue::Number(n) => time_ref_value(r) == Some(if n < 0 {
            0
        } else {
            n as Time
        }),
        ExprValue::Bool(b) => if b {
            time_ref_value(r) == Some(0u64)
        } else {
            instance_count(r) == 0 && r is Instances
        },
        _ => true,
    }
}

proof fn lemma_string_set_empty(v: Seq<String>)
    requires
        v.len() == 0,
    ensures
        string_set(v) == Set::<Seq<char>>::empty(),
{
    assert(string_set(v) =~= Set::<Seq<char>>::empty());
}

/// Looks up what an expression refers to, for the object `obj`.
pub fn lookup_expression(
    ctx: &mut ResolverContext,
    obj: usize,
    expr: &Expression,
    default_ref_type: &ObjectRefType,
) -> (r: Result<LookupExpressionResult, ResolveError>)
    requires
        obj < old(ctx).objects@.len(),
        ctx_wf(*old(ctx)),
    ensures
        ctx_step(*old(ctx), *final(ctx)),
        ctx_wf(*final(ctx)),
        r matches Ok(x) ==> lookup_wf(x),
        r matches Ok(x) ==> string_set(x.all_references@) == expression_references_spec(expr@),
        r matches Ok(x) ==> constant_lookup(expr@, x.result),
        (expr@ is Null || expr@ is Number || expr@ is Bool) ==> r is Ok && *final(ctx) == *old(ctx),
        r matches Err(e) ==> !(e is UnresolvedObjects),
        r matches Err(e) ==> error_witnessed(*final(ctx), e),
        expr@ is Number ==> (r matches Ok(x) && (x.result matches LookupExpressionResultType::TimeRef(t)
            && t.references@.len() == 0)),
        expr@ matches ExprValue::Invert(inner) && (*inner == ExprValue::Null || *inner == ExprValue::Bool(false)) ==> (
        r matches Ok(x) && (x.result matches LookupExpressionResultType::Instances(v) && (forall|t: Time| covers(v@, t))
            && v@.len() == 1 && v@[0].start == 0 && v@[0].end is None && v@[0].is_first && v@[0].references@.len() == 0
            && v@[0].caps@.len() == 0)),
        expr@ matches ExprValue::Invert(inner) ==> (((*inner) is Number || *inner == ExprValue::Bool(true)) ==> (r is Ok
            && constant_lookup(*inner, r->Ok_0.result))),
        others_complete(*old(ctx), obj as int) ==> r is Ok,
        expr_refers_resolved(*old(ctx), obj as int, expr@) ==> r is Ok && forall|j: int|
            0 <= j < old(ctx).objects@.len() && j != obj ==> #[trigger] final(ctx).objects@[j] == old(ctx).objects@[j],
        expr@ matches ExprValue::Text(s) ==> (!old(ctx).objects@[obj as int].resolved.self_referencing()
            && regex_captures_result(MATCH_ID_PATTERN@, s) is Some && referred_id(s) != old(ctx).objects@[obj as int].info.id@
            ==> forall|j: int|
            #[trigger] first_with_id(*old(ctx), referred_id(s), j) ==> (old(ctx).objects@[j].resolved is InProgress ==> (
            r matches Err(ResolveError::CircularDependency(id)) && id@ == referred_id(s))) && (start_blocked(*old(ctx), j)
                ==> (r matches Err(ResolveError::CircularDependency(id)) && id@ == first_start_ref(*old(ctx), j)->0))),
        expr@ matches ExprValue::Text(s) ==> (others_complete(*old(ctx), obj as int)
            && !old(ctx).objects@[obj as int].resolved.self_referencing() && regex_captures_result(MATCH_ID_PATTERN@, s) is Some
            && referred_id(s) != old(ctx).objects@[obj as int].info.id@ ==> forall|j: int|
            #[trigger] first_with_id(*old(ctx), referred_id(s), j) ==> (r matches Ok(x) && object_lookup(
                old(ctx).objects@[j].resolved->Complete_0,
                text_after_reference(s),
                *default_ref_type,
                x.result,
            ))),
    decreases pending_count(old(ctx).objects@), 1nat, expr_size(*expr),
{
    proof {
        lemma_string_set_empty(Seq::<String>::empty());
    }
    match expr {
        Expression::Null => Ok(LookupExpressionResult::null()),
        Expression::Number(time) => {
            let value: Time = if *time < 0 {
                0
            } else {
                *time as Time
            };
            Ok(
                LookupExpressionResult {
                    result: LookupExpressionResultType::TimeRef(
                        TimeWithReference { value, references: Vec::new() },
                    ),
                    all_references: Vec::new(),
                },
            )
        },
        Expression::Bool(val) => {
            if *val {
                Ok(
                    LookupExpressionResult {
                        result: LookupExpressionResultType::TimeRef(
                            TimeWithReference { value: 0, references: Vec::new() },
                        ),
                        all_references: Vec::new(),
                    },
                )
            } else {
                Ok(
                    LookupExpressionResult {
                        result: LookupExpressionResultType::Instances(Vec::new()),
                        all_references: Vec::new(),
                    },
                )
            }
        },
        Expression::String(s) => lookup_expression_str(ctx, obj, s.as_str(), default_ref_type),
        Expression::Expression(expr_obj) => lookup_expression_obj(ctx, obj, expr_obj, default_ref_type),
        Expression::Invert(inner_expr) => {
            let inner_res = lookup_expression(ctx, obj, inner_expr, default_ref_type)?;
            let ghost mid = *ctx;
            let inner_res2 = match inner_res.result {
                LookupExpressionResultType::Null => {
                    let empty: Vec<TimelineObjectInstance> = Vec::new();
                    let inv = invert_instances(ctx, empty.as_slice());
                    proof {
                        assert forall|t: Time| covers(inv@, t) by {
                            assert(in_span(inv@[0], t));
                        }
                    }
                    LookupExpressionResultType::Instances(inv)
                },
                LookupExpressionResultType::TimeRef(time_ref) => LookupExpressionResultType::TimeRef(
                    time_ref,
                ),
                LookupExpressionResultType::Instances(instances) => {
                    let inv = invert_instances(ctx, instances.as_slice());
                    proof {
                        if instances@.len() == 0 {
                            assert forall|t: Time| covers(inv@, t) by {
                                assert(in_span(inv@[0], t));
                            }
                        }
                    }
                    LookupExpressionResultType::Instances(inv)
                },
            };
            proof {
                lemma_same_but_ids_step(mid, *ctx);
                lemma_ctx_step_trans(*old(ctx), mid, *ctx);
            }
            Ok(LookupExpressionResult { result: inner_res2, all_references: inner_res.all_references })
        },
    }
}

/// Lists of the same instances cover the same times, and have distinct ids
/// and positive spans alike.
proof fn lemma_same_instances(a: Seq<TimelineObjectInstance>, b: Seq<TimelineObjectInstance>)
    requires
        a.len() == b.len(),
        forall|k: int| 0 <= k < a.len() ==> same_instance(#[trigger] a[k], b[k]),
    ensures
        forall|x: Time| covers(a, x) <==> covers(b, x),
        distinct_instance_ids(a) <==> distinct_instance_ids(b),
        all_positive(a) <==> all_positive(b),
{
    assert forall|x: Time| covers(a, x) <==> covers(b, x) by {
        if covers(a, x) {
            let k = choose|k: int| 0 <= k < a.len() && in_span(#[trigger] a[k], x);
            assert(same_instance(a[k], b[k]));
            assert(in_span(b[k], x));
        }
        if covers(b, x) {
            let k = choose|k: int| 0 <= k < b.len() && in_span(#[trigger] b[k], x);
            assert(same_instance(a[k], b[k]));
            assert(in_span(a[k], x));
        }
    }
    if distinct_instance_ids(a) {
        assert forall|i: int, j: int| 0 <= i < b.len() && 0 <= j < b.len() && i != j implies b[i].id@ != b[j].id@ by {
            assert(same_instance(a[i], b[i]) && same_instance(a[j], b[j]));
        }
    }
    if distinct_instance_ids(b) {
        assert forall|i: int, j: int| 0 <= i < a.len() && 0 <= j < a.len() && i != j implies a[i].id@ != a[j].id@ by {
            assert(same_instance(a[i], b[i]) && same_instance(a[j], b[j]));
        }
    }
    if all_positive(a) {
        assert forall|k: int| 0 <= k < b.len() implies end_or_max((#[trigger] b[k]).end) > b[k].start by {
            assert(same_instance(a[k], b[k]));
        }
    }
    if all_positive(b) {
        assert forall|k: int| 0 <= k < a.len() implies end_or_max((#[trigger] a[k]).end) > a[k].start by {
            assert(same_instance(a[k], b[k]));
        }
    }
}

/// Looks up the referred objects `referenced_objs` (resolving them first):
/// their instances by `Start`, the gaps after their first start by `End`,
/// and the shortest first duration by `Duration`.
fn lookup_referenced(
    ctx: &mut ResolverContext,
    obj: usize,
    referenced_objs: Vec<usize>,
    ref_type: ObjectRefType,
    all_references: Vec<String>,
) -> (r: Result<LookupExpressionResult, ResolveError>)
    requires
        obj < old(ctx).objects@.len(),
        ctx_wf(*old(ctx)),
        distinct_strings(all_references@),
        forall|x: int| 0 <= x < referenced_objs@.len() ==> #[trigger] referenced_objs@[x] < old(ctx).objects@.len(),
        forall|x: int| 0 <= x < referenced_objs@.len() ==> #[trigger] referenced_objs@[x] != obj,
    ensures
        ctx_step(*old(ctx), *final(ctx)),
        ctx_wf(*final(ctx)),
        r matches Ok(x) ==> lookup_wf(x) && x.all_references == all_references,
        r matches Err(e) ==> !(e is UnresolvedObjects),
        r matches Err(e) ==> error_witnessed(*final(ctx), e),
        others_complete(*old(ctx), obj as int) ==> r is Ok,
        (forall|x: int| 0 <= x < referenced_objs@.len() ==> (#[trigger] old(ctx).objects@[referenced_objs@[x] as int]).resolved is Complete)
            ==> r is Ok && final(ctx).objects == old(ctx).objects,
        others_complete(*old(ctx), obj as int) && !old(ctx).objects@[obj as int].resolved.self_referencing()
            && referenced_objs@.len() == 1 ==> (r matches Ok(x) && lookup_by_type(
            old(ctx).objects@[referenced_objs@[0] as int].resolved->Complete_0,
            ref_type,
            x.result,
        )),
        referenced_objs@.len() > 0 && old(ctx).objects@[referenced_objs@[0] as int].resolved is InProgress ==> (r matches Err(
            ResolveError::CircularDependency(id),
        ) && id@ == old(ctx).objects@[referenced_objs@[0] as int].info.id@),
        referenced_objs@.len() > 0 && start_blocked(*old(ctx), referenced_objs@[0] as int) ==> (r matches Err(
            ResolveError::CircularDependency(id),
        ) && id@ == first_start_ref(*old(ctx), referenced_objs@[0] as int)->0),
    decreases pending_count(old(ctx).objects@), 0nat, 1nat,
{
    let ghost ctx0 = *ctx;
    let ghost rc = forall|x: int| 0 <= x < referenced_objs@.len() ==> (#[trigger] ctx0.objects@[referenced_objs@[x] as int]).resolved is Complete;
    let ghost sp = others_complete(ctx0, obj as int) && !ctx0.objects@[obj as int].resolved.self_referencing()
        && referenced_objs@.len() == 1;
    let ghost res0 = ctx0.objects@[referenced_objs@[0] as int].resolved->Complete_0;
    let ghost v0 = res0.instances@;
    proof {
        if sp {
            assert(ctx0.objects@[referenced_objs@[0] as int].resolved is Complete);
            assert(resolved_wf(ctx0.objects@[referenced_objs@[0] as int].resolved));
        }
    }
    if referenced_objs.len() == 0 {
        return Ok(
            LookupExpressionResult {
                result: LookupExpressionResultType::Null,
                all_references: all_references,
            },
        );
    }
    let ghost ctx1 = *ctx;
    assert(ctx1 == ctx0);
    let ghost ip = ctx0.objects@[referenced_objs@[0] as int].resolved is InProgress || start_blocked(
        ctx0,
        referenced_objs@[0] as int,
    );
    if ref_type == ObjectRefType::Duration {
        let mut instance_durations: Vec<TimeWithReference> = Vec::new();
        let mut j: usize = 0;
        while j < referenced_objs.len()
            invariant
                obj < ctx.objects@.len(),
                ctx_step(ctx1, *ctx),
                ctx_step(ctx0, ctx1),
                ctx0 == *old(ctx),
                ctx_wf(*ctx),
                forall|x: int| 0 <= x < referenced_objs@.len() ==> #[trigger] referenced_objs@[x] < ctx.objects@.len(),
                forall|x: int| 0 <= x < referenced_objs@.len() ==> #[trigger] referenced_objs@[x] != obj,
                others_complete(ctx0, obj as int) ==> others_complete(*ctx, obj as int),
                rc ==> forall|x: int| 0 <= x < referenced_objs@.len() ==> (#[trigger] ctx.objects@[referenced_objs@[x] as int]).resolved is Complete,
                rc == forall|x: int| 0 <= x < referenced_objs@.len() ==> (#[trigger] ctx0.objects@[referenced_objs@[x] as int]).resolved is Complete,
                rc ==> ctx.objects == ctx0.objects,
                forall|x: int| 0 <= x < instance_durations@.len() ==> distinct_strings(#[trigger] instance_durations@[x].references@),
                sp ==> referenced_objs@.len() == 1 && others_complete(ctx0, obj as int)
                    && !ctx0.objects@[obj as int].resolved.self_referencing()
                    && ctx0.objects@[referenced_objs@[0] as int].resolved == TimelineObjectResolvingStatus::Complete(res0),
                v0 == res0.instances@,
                sp ==> *ctx == ctx0,
                sp ==> j <= 1,
                sp && j == 0 ==> instance_durations@.len() == 0,
                sp && j == 1 ==> if v0.len() > 0 && v0[0].end is Some {
                    instance_durations@.len() == 1 && instance_durations@[0].value == v0[0].end->0 - v0[0].start
                } else {
                    instance_durations@.len() == 0
                },
                j == 0 ==> *ctx == ctx0,
                ip == (ctx0.objects@[referenced_objs@[0] as int].resolved is InProgress || start_blocked(
                    ctx0,
                    referenced_objs@[0] as int,
                )),
                ip ==> j == 0,
            decreases referenced_objs@.len() - j,
        {
            let ref_obj = referenced_objs[j];
            let ghost before = *ctx;
            let res = resolve_object(ctx, ref_obj);
            proof {
                lemma_ctx_step_trans(ctx1, before, *ctx);
                if rc {
                    assert(before.objects@[referenced_objs@[j as int] as int].resolved is Complete);
                    assert forall|x: int| 0 <= x < referenced_objs@.len() implies (#[trigger] ctx.objects@[referenced_objs@[x] as int]).resolved is Complete by {
                        assert(before.objects@[referenced_objs@[x] as int].resolved is Complete);
                    }
                }
                if others_complete(ctx0, obj as int) {
                    assert(before.objects@[ref_obj as int].resolved is Complete);
                    lemma_others_complete_step(before, *ctx, obj as int);
                }
            }
            match res {
                Ok(_) => {},
                Err(e) => {
                    proof {
                        lemma_ctx_step_trans(ctx0, ctx1, *ctx);
                    }
                    return Err(e);
                },
            }
            let obj_is_self_referencing = ctx.objects[obj].is_self_referencing();
            match &ctx.objects[ref_obj].resolved {
                TimelineObjectResolvingStatus::Complete(res) => {
                    if !(obj_is_self_referencing && res.is_self_referencing) {
                        if res.instances.len() > 0 {
                            let first_instance = &res.instances[0];
                            proof {
                                assert(resolved_wf(ctx.objects@[ref_obj as int].resolved));
                                assert(instance_wf(res.instances@[0]));
                                assert(end_or_max(res.instances@[0].end) > res.instances@[0].start);
                            }
                            if let Some(end) = first_instance.end {
                                instance_durations.push(
                                    duration_of(first_instance, end, &ctx.objects[ref_obj].info.id),
                                );
                            }
                        }
                    }
                },
                _ => {},
            }
            j = j + 1;
        }
        proof {
            lemma_ctx_step_trans(ctx0, ctx1, *ctx);
        }
        let result = shortest(instance_durations);
        Ok(
            LookupExpressionResult {
                result: match result {
                    Some(time_ref) => LookupExpressionResultType::TimeRef(time_ref),
                    None => LookupExpressionResultType::Null,
                },
                all_references: all_references,
            },
        )
    } else {
        let mut return_instances: Vec<TimelineObjectInstance> = Vec::new();
        let invert_and_ignore_first_if_zero = ref_type == ObjectRefType::End;
        let mut j: usize = 0;
        while j < referenced_objs.len()
            invariant
                obj < ctx.objects@.len(),
                ctx_step(ctx1, *ctx),
                ctx_step(ctx0, ctx1),
                ctx0 == *old(ctx),
                ctx_wf(*ctx),
                forall|x: int| 0 <= x < referenced_objs@.len() ==> #[trigger] referenced_objs@[x] < ctx.objects@.len(),
                forall|x: int| 0 <= x < referenced_objs@.len() ==> #[trigger] referenced_objs@[x] != obj,
                others_complete(ctx0, obj as int) ==> others_complete(*ctx, obj as int),
                rc ==> forall|x: int| 0 <= x < referenced_objs@.len() ==> (#[trigger] ctx.objects@[referenced_objs@[x] as int]).resolved is Complete,
                rc == forall|x: int| 0 <= x < referenced_objs@.len() ==> (#[trigger] ctx0.objects@[referenced_objs@[x] as int]).resolved is Complete,
                rc ==> ctx.objects == ctx0.objects,
                all_wf(return_instances@),
                sp ==> referenced_objs@.len() == 1 && others_complete(ctx0, obj as int)
                    && !ctx0.objects@[obj as int].resolved.self_referencing()
                    && ctx0.objects@[referenced_objs@[0] as int].resolved == TimelineObjectResolvingStatus::Complete(res0),
                v0 == res0.instances@,
                sp ==> *ctx == ctx0,
                sp ==> j <= 1,
                sp && j == 0 ==> return_instances@.len() == 0,
                sp && j == 1 ==> return_instances@.len() == v0.len() && forall|k: int|
                    0 <= k < v0.len() ==> same_instance(#[trigger] return_instances@[k], v0[k]),
                j == 0 ==> *ctx == ctx0,
                ip == (ctx0.objects@[referenced_objs@[0] as int].resolved is InProgress || start_blocked(
                    ctx0,
                    referenced_objs@[0] as int,
                )),
                ip ==> j == 0,
            decreases referenced_objs@.len() - j,
        {
            let ref_obj = referenced_objs[j];
            let ghost before = *ctx;
            let res = resolve_object(ctx, ref_obj);
            proof {
                lemma_ctx_step_trans(ctx1, before, *ctx);
                if rc {
                    assert(before.objects@[referenced_objs@[j as int] as int].resolved is Complete);
                    assert forall|x: int| 0 <= x < referenced_objs@.len() implies (#[trigger] ctx.objects@[referenced_objs@[x] as int]).resolved is Complete by {
                        assert(before.objects@[referenced_objs@[x] as int].resolved is Complete);
                    }
                }
                if others_complete(ctx0, obj as int) {
                    assert(before.objects@[ref_obj as int].resolved is Complete);
                    lemma_others_complete_step(before, *ctx, obj as int);
                }
            }
            match res {
                Ok(_) => {},
                Err(e) => {
                    proof {
                        lemma_ctx_step_trans(ctx0, ctx1, *ctx);
                    }
                    return Err(e);
                },
            }
            let obj_is_self_referencing = ctx.objects[obj].is_self_referencing();
            match &ctx.objects[ref_obj].resolved {
                TimelineObjectResolvingStatus::Complete(res) => {
                    if !(obj_is_self_referencing && res.is_self_referencing) {
                        proof {
                            assert(resolved_wf(ctx.objects@[ref_obj as int].resolved));
                        }
                        let mut copies = copy_instances(&res.instances);
                        let ghost before_ret = return_instances@;
                        return_instances.append(&mut copies);
                        proof {
                            assert forall|x: int| 0 <= x < return_instances@.len() implies instance_wf(
                                #[trigger] return_instances@[x],
                            ) by {
                                if x >= before_ret.len() {
                                    assert(instance_wf(res.instances@[x - before_ret.len()]));
                                }
                            }
                        }
                    }
                },
                _ => {},
            }
            j = j + 1;
        }
        let ghost ctx2 = *ctx;
        proof {
            lemma_ctx_step_trans(ctx0, ctx1, ctx2);
        }
        if return_instances.len() > 0 {
            proof {
                if sp {
                    lemma_same_instances(return_instances@, v0);
                }
            }
            let result = if invert_and_ignore_first_if_zero {
                let mut inverted = invert_instances(ctx, return_instances.as_slice());
                let ghost inv = inverted@;
                if inverted.len() > 0 && inverted[0].start == 0 {
                    inverted.remove(0);
                }
                proof {
                    if sp && distinct_instance_ids(v0) {
                        assert(all_positive(v0));
                        assert forall|x: Time| covers(inverted@, x) implies !covers(v0, x) by {
                            let m = choose|m: int| 0 <= m < inverted@.len() && in_span(#[trigger] inverted@[m], x);
                            if inverted@.len() < inv.len() {
                                assert(inverted@[m] == inv[m + 1]);
                                assert(in_span(inv[m + 1], x));
                            } else {
                                assert(in_span(inv[m], x));
                            }
                        }
                        assert forall|x: Time, k: int|
                            0 <= k < v0.len() && #[trigger] v0[k].start <= x && !covers(v0, x) implies #[trigger] covers(inverted@, x) by {
                            assert(covers(inv, x));
                            let m = choose|m: int| 0 <= m < inv.len() && in_span(#[trigger] inv[m], x);
                            if inverted@.len() < inv.len() && m == 0 {
                                assert(in_span(inv[0], v0[k].start));
                                assert(covers(inv, v0[k].start));
                                assert(in_span(v0[k], v0[k].start));
                                assert(covers(v0, v0[k].start));
                            } else if inverted@.len() < inv.len() {
                                assert(inverted@[m - 1] == inv[m]);
                            } else {
                                assert(inverted@[m] == inv[m]);
                            }
                        }
                    }
                }
                inverted
            } else {
                clean_instances(ctx, return_instances.as_slice(), true, true)
            };
            proof {
                lemma_same_but_ids_step(ctx2, *ctx);
                lemma_ctx_step_trans(ctx0, ctx2, *ctx);
            }
            Ok(
                LookupExpressionResult {
                    result: LookupExpressionResultType::Instances(result),
                    all_references: all_references,
                },
            )
        } else {
            Ok(
                LookupExpressionResult {
                    result: LookupExpressionResultType::Null,
                    all_references: all_references,
                },
            )
        }
    }}

/// Looks up the objects that an expression string refers to, resolving
/// them first, and gives their instances (or, by `.end`, the gaps between
/// them; or, by `.duration`, the shortest duration).
pub fn lookup_expression_str(
    ctx: &mut ResolverContext,
    obj: usize,
    expr_str: &str,
    default_ref_type: &ObjectRefType,
) -> (r: Result<LookupExpressionResult, ResolveError>)
    requires
        obj < old(ctx).objects@.len(),
        ctx_wf(*old(ctx)),
    ensures
        ctx_step(*old(ctx), *final(ctx)),
        ctx_wf(*final(ctx)),
        r matches Ok(x) ==> lookup_wf(x),
        r matches Ok(x) ==> string_set(x.all_references@) == text_references(expr_str@),
        r matches Err(e) ==> !(e is UnresolvedObjects),
        r matches Err(e) ==> error_witnessed(*final(ctx), e),
        regex_captures_result(MATCH_ID_PATTERN@, expr_str@) is None && regex_captures_result(
            MATCH_CLASS_PATTERN@,
            expr_str@,
        ) is None && regex_captures_result(MATCH_LAYER_PATTERN@, expr_str@) is None ==> (r matches Ok(x)
            && x.result is Null && *final(ctx) == *old(ctx)),
        others_complete(*old(ctx), obj as int) ==> r is Ok,
        refers_resolved(*old(ctx), obj as int, expr_str@) ==> r is Ok && forall|j: int|
            0 <= j < old(ctx).objects@.len() && j != obj ==> #[trigger] final(ctx).objects@[j] == old(ctx).objects@[j],
        others_complete(*old(ctx), obj as int) && !old(ctx).objects@[obj as int].resolved.self_referencing()
            && regex_captures_result(MATCH_ID_PATTERN@, expr_str@) is Some && referred_id(expr_str@) != old(ctx).objects@[obj as int].info.id@ ==> forall|j: int|
            #[trigger] first_with_id(*old(ctx), referred_id(expr_str@), j) ==> (r matches Ok(x) && object_lookup(
                old(ctx).objects@[j].resolved->Complete_0,
                text_after_reference(expr_str@),
                *default_ref_type,
                x.result,
            )),
        !old(ctx).objects@[obj as int].resolved.self_referencing() && regex_captures_result(MATCH_ID_PATTERN@, expr_str@) is Some
            && referred_id(expr_str@) != old(ctx).objects@[obj as int].info.id@ ==> forall|j: int|
            #[trigger] first_with_id(*old(ctx), referred_id(expr_str@), j) && old(ctx).objects@[j].resolved is InProgress
                ==> (r matches Err(ResolveError::CircularDependency(id)) && id@ == referred_id(expr_str@)),
        !old(ctx).objects@[obj as int].resolved.self_referencing() && regex_captures_result(MATCH_ID_PATTERN@, expr_str@) is Some
            && referred_id(expr_str@) != old(ctx).objects@[obj as int].info.id@ ==> forall|j: int|
            #[trigger] first_with_id(*old(ctx), referred_id(expr_str@), j) && start_blocked(*old(ctx), j)
                ==> (r matches Err(ResolveError::CircularDependency(id)) && id@ == first_start_ref(*old(ctx), j)->0),
    decreases pending_count(old(ctx).objects@), 1nat, 0nat,
{
    proof {
        lemma_string_set_empty(Seq::<String>::empty());
    }
    let expression_references = match match_expression_references(ctx, expr_str) {
        Some(m) => m,
        None => {
            return Ok(LookupExpressionResult::null());
        },
    };
    proof {
        let v = expression_references.all_references@;
        assert(string_set(v) =~= text_references(expr_str@)) by {
            assert(v.len() == 1);
            assert(string_set(v).contains(v[0]@));
        }
    }
    let ghost ctx0 = *ctx;
    let ghost rid = referred_id(expr_str@);
    let ghost special = others_complete(ctx0, obj as int) && !ctx0.objects@[obj as int].resolved.self_referencing()
        && regex_captures_result(MATCH_ID_PATTERN@, expr_str@) is Some && rid != ctx0.objects@[obj as int].info.id@
        && exists|j: int| first_with_id(ctx0, rid, j);
    let ghost single = !ctx0.objects@[obj as int].resolved.self_referencing() && regex_captures_result(
        MATCH_ID_PATTERN@,
        expr_str@,
    ) is Some && rid != ctx0.objects@[obj as int].info.id@ && exists|j: int| first_with_id(ctx0, rid, j);
    let ghost jj = choose|j: int| first_with_id(ctx0, rid, j);
    let ghost ids = strings_view(expression_references.object_ids_to_reference@);
    let ghost rr = refers_resolved(ctx0, obj as int, expr_str@);
    proof {
        assert(ids.len() == expression_references.object_ids_to_reference@.len());
        if rr {
            assert(match_view(expression_references).1 == ids);
        }
    }
    proof {
        if single {
            let ids = expression_references.object_ids_to_reference@;
            assert(strings_view(ids) == seq![rid]);
            assert(ids.len() == strings_view(ids).len());
            assert(strings_view(ids)[0] == ids[0]@);
            assert(expression_references.remaining_expression@ == text_after_reference(expr_str@));
        }
    }
    let mut referenced_objs: Vec<usize> = Vec::new();
    let obj_id = ctx.objects[obj].info.id.clone();
    let mut k: usize = 0;
    while k < expression_references.object_ids_to_reference.len()
        invariant
            obj < ctx.objects@.len(),
            ctx_step(ctx0, *ctx),
            ctx0 == *old(ctx),
            ctx_wf(*ctx),
            forall|j: int| 0 <= j < referenced_objs@.len() ==> #[trigger] referenced_objs@[j] < ctx.objects@.len(),
            forall|j: int| 0 <= j < referenced_objs@.len() ==> #[trigger] referenced_objs@[j] != obj,
            obj_id@ == ctx.objects@[obj as int].info.id@,
            single ==> *ctx == ctx0 && first_with_id(ctx0, rid, jj) && rid != ctx0.objects@[obj as int].info.id@
                && expression_references.object_ids_to_reference@.len() == 1
                && expression_references.object_ids_to_reference@[0]@ == rid,
            single && k == 0 ==> referenced_objs@.len() == 0,
            ids == strings_view(expression_references.object_ids_to_reference@),
            ids.len() == expression_references.object_ids_to_reference@.len(),
            rr ==> forall|kk: int, j: int|
                0 <= kk < ids.len() && ids[kk] != ctx0.objects@[obj as int].info.id@ && #[trigger] first_with_id(ctx0, ids[kk], j)
                    ==> ctx0.objects@[j].resolved is Complete,
            rr ==> forall|x: int| 0 <= x < referenced_objs@.len() ==> (#[trigger] ctx.objects@[referenced_objs@[x] as int]).resolved is Complete,
            single && k >= 1 ==> referenced_objs@.len() == 1 && referenced_objs@[0] as int == jj,
            forall|j: int| 0 <= j < ctx0.objects@.len() && j != obj ==> #[trigger] ctx.objects@[j] == ctx0.objects@[j],
        decreases expression_references.object_ids_to_reference@.len() - k,
    {
        let ref_obj_id = &expression_references.object_ids_to_reference[k];
        if *ref_obj_id == obj_id {
            let is_in_progress = match &ctx.objects[obj].resolved {
                TimelineObjectResolvingStatus::InProgress(_) => true,
                _ => false,
            };
            if is_in_progress {
                let ghost before = *ctx;
                set_status(
                    ctx,
                    obj,
                    TimelineObjectResolvingStatus::InProgress(
                        TimelineObjectResolvedWip { is_self_referencing: true },
                    ),
                );
                proof {
                    assert(ctx_step(before, *ctx));
                    lemma_ctx_step_trans(ctx0, before, *ctx);
                }
            }
        } else {
            match ctx.find_object(ref_obj_id) {
                Some(ref_obj) => {
                    proof {
                        if single {
                            assert(ref_obj as int == jj) by {
                                if (ref_obj as int) < jj {
                                    assert(ctx0.objects@[ref_obj as int].info.id@ == rid);
                                } else if (ref_obj as int) > jj {
                                    assert(ctx0.objects@[jj].info.id@ == rid);
                                }
                            }
                        }
                    }
                    proof {
                        if rr {
                            assert(ids[k as int] == ref_obj_id@);
                            assert(ctx0.objects@[ref_obj as int].info == ctx.objects@[ref_obj as int].info);
                            assert forall|m: int| 0 <= m < ref_obj implies ctx0.objects@[m].info.id@ != ids[k as int] by {
                                assert(ctx0.objects@[m].info == ctx.objects@[m].info);
                            }
                            assert(first_with_id(ctx0, ids[k as int], ref_obj as int));
                            assert(ctx0.objects@[ref_obj as int].resolved is Complete);
                        }
                    }
                    referenced_objs.push(ref_obj);
                },
                None => {
                    proof {
                        if single {
                            assert(ctx0.objects@[jj].info.id@ == rid);
                        }
                    }
                },
            }
        }
        k = k + 1;
    }
    if ctx.objects[obj].is_self_referencing() {
        // Exclude any self-referencing objects
        let mut kept: Vec<usize> = Vec::new();
        let mut j: usize = 0;
        while j < referenced_objs.len()
            invariant
                forall|x: int| 0 <= x < referenced_objs@.len() ==> #[trigger] referenced_objs@[x] < ctx.objects@.len(),
                forall|x: int| 0 <= x < kept@.len() ==> #[trigger] kept@[x] < ctx.objects@.len(),
                forall|x: int| 0 <= x < referenced_objs@.len() ==> #[trigger] referenced_objs@[x] != obj,
                forall|x: int| 0 <= x < kept@.len() ==> #[trigger] kept@[x] != obj,
                rr ==> forall|x: int| 0 <= x < referenced_objs@.len() ==> (#[trigger] ctx.objects@[referenced_objs@[x] as int]).resolved is Complete,
                rr ==> forall|x: int| 0 <= x < kept@.len() ==> (#[trigger] ctx.objects@[kept@[x] as int]).resolved is Complete,
            decreases referenced_objs@.len() - j,
        {
            if !ctx.objects[referenced_objs[j]].is_self_referencing() {
                kept.push(referenced_objs[j]);
            }
            j = j + 1;
        }
        referenced_objs = kept;
    }
    let ref_type = if is_text(&expression_references.remaining_expression, ".start") {
        ObjectRefType::Start
    } else if is_text(&expression_references.remaining_expression, ".end") {
        ObjectRefType::End
    } else if is_text(&expression_references.remaining_expression, ".duration") {
        ObjectRefType::Duration
    } else {
        *default_ref_type
    };
    let ghost refs = referenced_objs@;
    let ghost ctx_call = *ctx;
    proof {
        if single {
            assert(ctx_call == ctx0);
            assert(refs.len() == 1);
            assert(refs[0] as int == jj);
        }
        if special {
            assert(ctx_call == ctx0);
            assert(refs.len() == 1);
            assert(refs[0] as int == jj);
            assert(!ctx_call.objects@[obj as int].resolved.self_referencing());
            assert(others_complete(ctx_call, obj as int));
        }
    }
    let r = lookup_referenced(ctx, obj, referenced_objs, ref_type, expression_references.all_references);
    proof {
        if single {
            assert forall|j: int| #[trigger] first_with_id(ctx0, rid, j) implies j == jj by {
                if j < jj {
                    assert(ctx0.objects@[j].info.id@ == rid);
                } else if j > jj {
                    assert(ctx0.objects@[jj].info.id@ == rid);
                }
            }
        }
        if special {
            assert(r matches Ok(x) && lookup_by_type(ctx0.objects@[jj].resolved->Complete_0, ref_type, x.result));
            assert(ref_type == ref_type_of(text_after_reference(expr_str@), *default_ref_type));
            assert forall|j: int| #[trigger] first_with_id(ctx0, rid, j) implies j == jj by {
                if j < jj {
                    assert(ctx0.objects@[j].info.id@ == rid);
                } else if j > jj {
                    assert(ctx0.objects@[jj].info.id@ == rid);
                }
            }
        }
    }
    r
}

/// What combining the two sides `lr` and `rr` by `o` gives: for `&` and
/// `|`, instances on just where the combination of the sides holds (for
/// sides in order, with distinct ids, before the end of time); for the
/// arithmetic operators, nothing just where a side is nothing.
pub open spec fn combined(o: ExpressionOperator, lr: LookupExpressionResultType, rr: LookupExpressionResultType, res: LookupExpressionResultType) -> bool {
    if o == ExpressionOperator::And || o == ExpressionOperator::Or {
        res matches LookupExpressionResultType::Instances(v) && (instances_ordered(side_list(lr)) && instances_ordered(
            side_list(rr),
        ) && distinct_instance_ids(side_list(lr) + side_list(rr)) ==> forall|x: Time|
            x < Time::MAX ==> (covers(v@, x) <==> bool_spec(o, side_holds(lr, x), side_holds(rr, x))))
    } else {
        (res is Null <==> (lr is Null || rr is Null)) && !(res is TimeRef)
    }
}

/// Looks up a binary expression: both sides, then their combination.
pub fn lookup_expression_obj(
    ctx: &mut ResolverContext,
    obj: usize,
    expr: &ExpressionObj,
    default_ref_type: &ObjectRefType,
) -> (r: Result<LookupExpressionResult, ResolveError>)
    requires
        obj < old(ctx).objects@.len(),
        ctx_wf(*old(ctx)),
    ensures
        ctx_step(*old(ctx), *final(ctx)),
        ctx_wf(*final(ctx)),
        r matches Ok(x) ==> lookup_wf(x),
        r matches Ok(x) ==> string_set(x.all_references@) == if expr.l@ is Null || expr.r@ is Null {
            Set::empty()
        } else {
            expression_references_spec(expr.l@).union(expression_references_spec(expr.r@))
        },
        r matches Err(e) ==> !(e is UnresolvedObjects),
        r matches Err(e) ==> error_witnessed(*final(ctx), e),
        r matches Ok(x) ==> !(expr.l@ is Null || expr.r@ is Null) ==> exists|
            lr: LookupExpressionResultType,
            rr: LookupExpressionResultType,
        |
            #![trigger combined(expr.o, lr, rr, x.result)]
            constant_lookup(expr.l@, lr) && constant_lookup(expr.r@, rr) && combined(expr.o, lr, rr, x.result) && (
            is_constant_value(expr.l@) && is_constant_value(expr.r@) && !(expr.o == ExpressionOperator::And
                || expr.o == ExpressionOperator::Or) && pairs_positive(lr, rr, expr.o) && old(ctx).next_id
                + paired_count(lr, rr) <= usize::MAX ==> (x.result matches LookupExpressionResultType::Instances(v)
                && forall|t: Time| covers(v@, t) <==> pairs_cover(lr, rr, expr.o, t))),
        (expr.l@ is Null || expr.r@ is Null) ==> (r matches Ok(x) && x.result is Null),
        others_complete(*old(ctx), obj as int) ==> r is Ok,
        expr_refers_resolved(*old(ctx), obj as int, expr.l@) && expr_refers_resolved(*old(ctx), obj as int, expr.r@)
            ==> r is Ok && forall|j: int|
            0 <= j < old(ctx).objects@.len() && j != obj ==> #[trigger] final(ctx).objects@[j] == old(ctx).objects@[j],
    decreases pending_count(old(ctx).objects@), 1nat, expr_size(expr.l) + expr_size(expr.r),
{
    let l_null = match &expr.l {
        Expression::Null => true,
        _ => false,
    };
    let r_null = match &expr.r {
        Expression::Null => true,
        _ => false,
    };
    if l_null || r_null {
        proof {
            lemma_string_set_empty(Seq::<String>::empty());
        }
        return Ok(LookupExpressionResult::null());
    }
    let ghost ctx0 = *ctx;
    let l = lookup_expression(ctx, obj, &expr.l, default_ref_type)?;
    let ghost ctx1 = *ctx;
    proof {
        if others_complete(ctx0, obj as int) {
            lemma_others_complete_step(ctx0, ctx1, obj as int);
        }
        if expr_refers_resolved(ctx0, obj as int, expr.r@) {
            lemma_refers_resolved_step(ctx0, ctx1, obj as int, expr.r@);
        }
    }
    let r = match lookup_expression(ctx, obj, &expr.r, default_ref_type) {
        Ok(x) => x,
        Err(e) => {
            proof {
                lemma_ctx_step_trans(ctx0, ctx1, *ctx);
            }
            return Err(e);
        },
    };
    let ghost ctx2 = *ctx;
    proof {
        lemma_ctx_step_trans(ctx0, ctx1, ctx2);
    }
    let all_references = ReferencesBuilder::new().add(&l.all_references).add(&r.all_references).done();
    let result = if expr.o == ExpressionOperator::And || expr.o == ExpressionOperator::Or {
        LookupExpressionResultType::Instances(boolean_instances(ctx, &l, &r, expr.o))
    } else {
        operate_on_arrays(ctx, &l.result, &r.result, expr.o)
    };
    proof {
        lemma_same_but_ids_step(ctx2, *ctx);
        lemma_ctx_step_trans(ctx0, ctx2, *ctx);
    }
    proof {
        assert(combined(expr.o, l.result, r.result, result));
    }
    Ok(LookupExpressionResult { result, all_references })
}

} // verus!
