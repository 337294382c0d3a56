//! The entry point of the resolver: a timeline of objects in, the resolved
//! instances of every object out.

use vstd::prelude::*;
use crate::instance::{
    Time, TimelineEnable, TimelineObjectInfo, TimelineObjectResolved, copy_enables, end_or_max, same_enable,
};
use crate::names::{add_id_for_name, listed_under, names_lookup};
use crate::resolver::{
    ResolveError, ResolverContext, ResolvingTimelineObject, TimelineObjectResolvingStatus, ctx_step,
    ctx_wf, lemma_ctx_step_trans, pending_count, resolve_object, resolved_wf, resolved_as_declared,
    constant_object_span, constant_enable_span, lemma_same_enable_span, error_witnessed, bad_part, multi_part,
    enable_clean, others_complete, lemma_same_enable_errors, enable_refers_resolved, start_source,
    constant_enables, enables_cover,
};
use crate::expression::{ExprValue, interpret_expression_spec, simplify_spec};
use crate::lookup_expression::{
    MATCH_ID_PATTERN, MATCH_CLASS_PATTERN, MATCH_LAYER_PATTERN, refers_resolved, expr_refers_resolved,
    first_start_ref, start_waits_on, referred_id,
};
use crate::patterns::regex_captures_result;
use crate::instance::TimelineObjectResolvedWip;
use crate::events::covers;
use crate::util::span_covers;
use crate::util::all_wf;

verus! {

/// How many times a repeating object repeats when no limit is given.
pub const DEFAULT_LIMIT_COUNT: usize = 2;

/// Options for resolving a timeline.
#[derive(Debug, Clone, Copy)]
pub struct ResolveOptions {
    /// The base time to resolve from; usually the current time.
    pub time: Time,
    /// Limits the number of repetitions of a repeating object (by default
    /// two: the current one and the next).
    pub limit_count: Option<usize>,
    /// Limits repeating objects to start before this time.
    pub limit_time: Option<Time>,
}

/// An object of a timeline, with its children (when it is a group) and
/// keyframes.
#[derive(Debug)]
pub struct TimelineObject {
    pub id: String,
    pub enable: Vec<TimelineEnable>,
    pub layer: String,
    pub keyframes: Vec<TimelineKeyframe>,
    pub classes: Vec<String>,
    pub disabled: bool,
    pub children: Option<Vec<TimelineObject>>,
    pub priority: i64,
}

/// A keyframe of a timeline object.
#[derive(Debug)]
pub struct TimelineKeyframe {
    pub id: String,
    pub enable: Vec<TimelineEnable>,
    pub classes: Vec<String>,
    pub disabled: bool,
}

impl Default for TimelineObject {
    fn default() -> (r: Self)
        ensures
            r.id@.len() == 0,
            r.enable@.len() == 0,
            r.layer@.len() == 0,
            r.keyframes@.len() == 0,
            r.classes@.len() == 0,
            !r.disabled,
            r.children is None,
            r.priority == 0,
    {
        TimelineObject {
            id: String::new(),
            enable: Vec::new(),
            layer: String::new(),
            keyframes: Vec::new(),
            classes: Vec::new(),
            disabled: false,
            children: None,
            priority: 0,
        }
    }
}

impl Default for TimelineKeyframe {
    fn default() -> (r: Self)
        ensures
            r.id@.len() == 0,
            r.enable@.len() == 0,
            r.classes@.len() == 0,
            !r.disabled,
    {
        TimelineKeyframe { id: String::new(), enable: Vec::new(), classes: Vec::new(), disabled: false }
    }
}

/// A resolved object: what is known of it and its instances.
#[derive(Debug)]
pub struct ResolvedTimelineObject {
    pub resolved: TimelineObjectResolved,
    pub info: TimelineObjectInfo,
}

/// A resolved timeline.
#[derive(Debug)]
pub struct ResolvedTimeline {
    pub options: ResolveOptions,
    /// All objects of the timeline
    pub objects: Vec<ResolvedTimelineObject>,
    /// The ids of the objects of each class
    pub classes: Vec<(String, Vec<String>)>,
    /// The ids of the objects of each layer
    pub layers: Vec<(String, Vec<String>)>,
}

impl ResolvedTimeline {
    /// The resolved object with the given id.
    pub fn get_object(&self, id: &str) -> (r: Option<&ResolvedTimelineObject>)
        ensures
            match r {
                Some(o) => o.info.id@ == id@ && exists|i: int| 0 <= i < self.objects@.len() && self.objects@[i] == *o,
                None => forall|i: int| 0 <= i < self.objects@.len() ==> self.objects@[i].info.id@ != id@,
            },
    {
        let key = id.to_owned();
        let mut i: usize = 0;
        while i < self.objects.len()
            invariant
                i <= self.objects@.len(),
                key@ == id@,
                forall|j: int| 0 <= j < i ==> self.objects@[j].info.id@ != id@,
            decreases self.objects@.len() - i,
        {
            if self.objects[i].info.id == key {
                return Some(&self.objects[i]);
            }
            i = i + 1;
        }
        None
    }
}

/// The ids of the objects of a list.
pub open spec fn object_ids(objs: Seq<ResolvingTimelineObject>) -> Set<Seq<char>> {
    Set::new(|id: Seq<char>| exists|i: int| 0 <= i < objs.len() && objs[i].info.id@ == id)
}

/// The ids of an object, of its keyframes and of its children down to
/// `depth` levels (and of their keyframes).
pub open spec fn ids_within(o: TimelineObject, depth: nat) -> Set<Seq<char>>
    decreases depth, 0nat,
{
    let kids = if depth == 0 {
        Set::empty()
    } else {
        match o.children {
            Some(c) => forest_ids(c@, (depth - 1) as nat),
            None => Set::empty(),
        }
    };
    kids.union(keyframe_ids(o)).insert(o.id@)
}

/// The ids within `depth` levels of each object of a list.
pub open spec fn forest_ids(s: Seq<TimelineObject>, depth: nat) -> Set<Seq<char>>
    decreases depth, s.len(),
{
    if s.len() == 0 {
        Set::empty()
    } else {
        forest_ids(s.drop_last(), depth).union(ids_within(s.last(), depth))
    }
}

proof fn lemma_forest_ids(s: Seq<TimelineObject>, depth: nat, x: Seq<char>)
    ensures
        forest_ids(s, depth).contains(x) <==> exists|k: int| 0 <= k < s.len() && #[trigger] ids_within(s[k], depth).contains(x),
    decreases s.len(),
{
    if s.len() > 0 {
        lemma_forest_ids(s.drop_last(), depth, x);
        if forest_ids(s, depth).contains(x) {
            if forest_ids(s.drop_last(), depth).contains(x) {
                let k = choose|k: int| 0 <= k < s.drop_last().len() && #[trigger] ids_within(s.drop_last()[k], depth).contains(x);
                assert(s[k] == s.drop_last()[k]);
            } else {
                assert(ids_within(s[s.len() - 1], depth).contains(x));
            }
        }
        if exists|k: int| 0 <= k < s.len() && #[trigger] ids_within(s[k], depth).contains(x) {
            let k = choose|k: int| 0 <= k < s.len() && #[trigger] ids_within(s[k], depth).contains(x);
            if k < s.len() - 1 {
                assert(s.drop_last()[k] == s[k]);
            }
        }
    }
}

/// The ids of an object, its children (and theirs) and its keyframes.
pub open spec fn tree_ids(o: TimelineObject) -> Set<Seq<char>> {
    Set::new(|id: Seq<char>| exists|d: nat| #[trigger] ids_within(o, d).contains(id))
}

/// The ids of the keyframes of an object.
pub open spec fn keyframe_ids(o: TimelineObject) -> Set<Seq<char>> {
    Set::new(|id: Seq<char>| exists|k: int| 0 <= k < o.keyframes@.len() && o.keyframes@[k].id@ == id)
}

/// The ids of the children of an object and of everything inside them.
pub open spec fn children_ids(o: TimelineObject) -> Set<Seq<char>> {
    match o.children {
        Some(c) => Set::new(
            |id: Seq<char>| exists|k: int| 0 <= k < c@.len() && #[trigger] tree_ids(c@[k]).contains(id),
        ),
        None => Set::empty(),
    }
}

/// The ids of an object's tree are its own, its keyframes' and those of
/// its children's trees.
pub proof fn lemma_tree_ids(o: TimelineObject)
    ensures
        tree_ids(o) == children_ids(o).union(keyframe_ids(o)).insert(o.id@),
{
    let rhs = children_ids(o).union(keyframe_ids(o)).insert(o.id@);
    assert forall|x: Seq<char>| tree_ids(o).contains(x) implies rhs.contains(x) by {
        let d = choose|d: nat| #[trigger] ids_within(o, d).contains(x);
        if x != o.id@ && !keyframe_ids(o).contains(x) {
            assert(d > 0);
            match o.children {
                Some(c) => {
                    lemma_forest_ids(c@, (d - 1) as nat, x);
                    let k = choose|k: int|
                        0 <= k < c@.len() && #[trigger] ids_within(c@[k], (d - 1) as nat).contains(x);
                    assert(tree_ids(c@[k]).contains(x));
                },
                None => {},
            }
        }
    }
    assert forall|x: Seq<char>| rhs.contains(x) implies tree_ids(o).contains(x) by {
        if x == o.id@ || keyframe_ids(o).contains(x) {
            assert(ids_within(o, 0).contains(x));
        } else {
            let c = o.children->0;
            let k = choose|k: int| 0 <= k < c@.len() && #[trigger] tree_ids(c@[k]).contains(x);
            let d = choose|d: nat| #[trigger] ids_within(c@[k], d).contains(x);
            lemma_forest_ids(c@, d, x);
            assert(ids_within(o, d + 1).contains(x));
        }
    }
    assert(tree_ids(o) =~= rhs);
}

/// No object of the list has started resolving.
pub open spec fn all_pending(objs: Seq<ResolvingTimelineObject>) -> bool {
    forall|i: int| 0 <= i < objs.len() ==> (#[trigger] objs[i]).resolved is Pending
}

/// Puts an object among the objects, in place of one with the same id.
fn insert_object(objs: &mut Vec<ResolvingTimelineObject>, obj: ResolvingTimelineObject)
    requires
        all_pending(old(objs)@),
        obj.resolved is Pending,
    ensures
        all_pending(final(objs)@),
        object_ids(final(objs)@) == object_ids(old(objs)@).insert(obj.info.id@),
        forall|i: int| 0 <= i < final(objs)@.len() ==> #[trigger] final(objs)@[i] == obj || old(objs)@.contains(final(objs)@[i]),
        final(objs)@.len() <= old(objs)@.len() + 1,
        !object_ids(old(objs)@).contains(obj.info.id@) ==> final(objs)@ == old(objs)@.push(obj),
{
    let ghost before = objs@;
    let ghost id = obj.info.id@;
    let mut i: usize = 0;
    while i < objs.len()
        invariant
            i <= objs@.len(),
            objs@ == before,
            before == old(objs)@,
            all_pending(before),
            obj.resolved is Pending,
            id == obj.info.id@,
            forall|j: int| 0 <= j < i ==> objs@[j].info.id@ != obj.info.id@,
        decreases objs@.len() - i,
    {
        if objs[i].info.id == obj.info.id {
            let ghost o = obj;
            objs.set(i, obj);
            proof {
                assert forall|j: int| 0 <= j < objs@.len() implies #[trigger] objs@[j] == o || before.contains(objs@[j]) by {
                    if j != i {
                        assert(objs@[j] == before[j]);
                    }
                }
                assert(object_ids(objs@) =~= object_ids(before).insert(id)) by {
                    assert(before[i as int].info.id@ == id);
                    assert forall|x: Seq<char>| object_ids(before).insert(id).contains(x) implies object_ids(
                        objs@,
                    ).contains(x) by {
                        if x != id {
                            let j = choose|j: int| 0 <= j < before.len() && before[j].info.id@ == x;
                            assert(objs@[j] == before[j]);
                        } else {
                            assert(objs@[i as int].info.id@ == x);
                        }
                    }
                    assert forall|x: Seq<char>| object_ids(objs@).contains(x) implies object_ids(
                        before,
                    ).insert(id).contains(x) by {
                        let j = choose|j: int| 0 <= j < objs@.len() && objs@[j].info.id@ == x;
                        if j != i {
                            assert(objs@[j] == before[j]);
                        }
                    }
                }
            }
            return;
        }
        i = i + 1;
    }
    let ghost o = obj;
    objs.push(obj);
    proof {
        assert forall|j: int| 0 <= j < objs@.len() implies #[trigger] objs@[j] == o || before.contains(objs@[j]) by {
            if j < before.len() {
                assert(objs@[j] == before[j]);
            }
        }
        assert(object_ids(objs@) =~= object_ids(before).insert(id)) by {
            assert forall|x: Seq<char>| object_ids(before).insert(id).contains(x) implies object_ids(
                objs@,
            ).contains(x) by {
                if x != id {
                    let j = choose|j: int| 0 <= j < before.len() && before[j].info.id@ == x;
                    assert(objs@[j] == before[j]);
                } else {
                    assert(objs@[before.len() as int].info.id@ == x);
                }
            }
            assert forall|x: Seq<char>| object_ids(objs@).contains(x) implies object_ids(before).insert(
                id,
            ).contains(x) by {
                let j = choose|j: int| 0 <= j < objs@.len() && objs@[j].info.id@ == x;
                if j < before.len() {
                    assert(objs@[j] == before[j]);
                }
            }
        }
    }
}

/// Adds an object to the objects being resolved and, where it comes from
/// the timeline itself (not a keyframe), lists it under its classes and its
/// layer.
pub fn add_object_to_resolved_timeline(
    timeline: &mut ResolvedTimeline,
    resolving_objects: &mut Vec<ResolvingTimelineObject>,
    obj: ResolvingTimelineObject,
    raw_obj: Option<&TimelineObject>,
)
    requires
        all_pending(old(resolving_objects)@),
        obj.resolved is Pending,
    ensures
        all_pending(final(resolving_objects)@),
        object_ids(final(resolving_objects)@) == object_ids(old(resolving_objects)@).insert(obj.info.id@),
        forall|i: int|
            0 <= i < final(resolving_objects)@.len() ==> #[trigger] final(resolving_objects)@[i] == obj || old(
                resolving_objects,
            )@.contains(final(resolving_objects)@[i]),
        final(resolving_objects)@.len() <= old(resolving_objects)@.len() + 1,
        !object_ids(old(resolving_objects)@).contains(obj.info.id@) ==> final(resolving_objects)@
            == old(resolving_objects)@.push(obj),
        final(timeline).options == old(timeline).options,
        final(timeline).objects == old(timeline).objects,
        match raw_obj {
            Some(raw) => {
                &&& forall|k: int|
                    0 <= k < raw.classes@.len() ==> listed_under(
                        final(timeline).classes@,
                        #[trigger] raw.classes@[k]@,
                        obj.info.id@,
                    )
                &&& forall|c: Seq<char>|
                    (forall|k: int| 0 <= k < raw.classes@.len() ==> raw.classes@[k]@ != c) ==> names_lookup(
                        #[trigger] final(timeline).classes@,
                        c,
                    ) == names_lookup(old(timeline).classes@, c)
                &&& forall|l: Seq<char>|
                    #![trigger names_lookup(final(timeline).layers@, l)]
                    names_lookup(final(timeline).layers@, l) == if raw.layer@.len() > 0 && l == raw.layer@ {
                        Some(
                            match names_lookup(old(timeline).layers@, l) {
                                Some(x) => x,
                                None => Seq::empty(),
                            }.push(obj.info.id@),
                        )
                    } else {
                        names_lookup(old(timeline).layers@, l)
                    }
            },
            None => final(timeline).classes == old(timeline).classes && final(timeline).layers
                == old(timeline).layers,
        },
{
    let obj_id = obj.info.id.clone();
    if let Some(raw) = raw_obj {
        let ghost classes0 = timeline.classes@;
        let mut k: usize = 0;
        while k < raw.classes.len()
            invariant
                k <= raw.classes@.len(),
                obj_id@ == obj.info.id@,
                forall|j: int|
                    0 <= j < k ==> listed_under(timeline.classes@, #[trigger] raw.classes@[j]@, obj_id@),
                forall|c: Seq<char>|
                    (forall|j: int| 0 <= j < k ==> raw.classes@[j]@ != c) ==> names_lookup(
                        #[trigger] timeline.classes@,
                        c,
                    ) == names_lookup(classes0, c),
                timeline.options == old(timeline).options,
                timeline.objects == old(timeline).objects,
                timeline.layers == old(timeline).layers,
                classes0 == old(timeline).classes@,
            decreases raw.classes@.len() - k,
        {
            let ghost before = timeline.classes@;
            add_id_for_name(&mut timeline.classes, &raw.classes[k], obj_id.clone());
            proof {
                assert forall|j: int|
                    0 <= j <= k implies listed_under(timeline.classes@, #[trigger] raw.classes@[j]@, obj_id@) by {
                    let c = raw.classes@[j]@;
                    if c == raw.classes@[k as int]@ {
                        let ids = match names_lookup(before, c) {
                            Some(x) => x,
                            None => Seq::empty(),
                        }.push(obj_id@);
                        assert(names_lookup(timeline.classes@, c) == Some(ids));
                        assert(ids[ids.len() - 1] == obj_id@);
                    } else {
                        assert(names_lookup(timeline.classes@, c) == names_lookup(before, c));
                    }
                }
                assert forall|c: Seq<char>|
                    (forall|j: int| 0 <= j < k + 1 ==> raw.classes@[j]@ != c) implies names_lookup(
                    #[trigger] timeline.classes@,
                    c,
                ) == names_lookup(classes0, c) by {
                    assert(raw.classes@[k as int]@ != c);
                    assert(names_lookup(timeline.classes@, c) == names_lookup(before, c));
                }
            }
            k = k + 1;
        }
        if !raw.layer.as_str().is_empty() {
            add_id_for_name(&mut timeline.layers, &raw.layer, obj_id.clone());
        } else {
            proof {
                assert forall|l: Seq<char>| #[trigger] names_lookup(timeline.layers@, l) == names_lookup(
                    old(timeline).layers@,
                    l,
                ) by {}
            }
        }
    }
    let ghost o = obj;
    insert_object(resolving_objects, obj);
    assert(forall|i: int|
        0 <= i < resolving_objects@.len() ==> #[trigger] resolving_objects@[i] == o || old(resolving_objects)@.contains(
            resolving_objects@[i],
        ));
}

/// What the resolver knows of the object `o` of the timeline itself (not a
/// child): its id, enables, layer, priority and whether it is disabled,
/// and that it has no parent.
pub open spec fn top_level_copy(info: TimelineObjectInfo, o: TimelineObject) -> bool {
    &&& info.parent_id is None
    &&& info.id@ == o.id@
    &&& info.enable@.len() == o.enable@.len()
    &&& forall|j: int| 0 <= j < o.enable@.len() ==> same_enable(#[trigger] info.enable@[j], o.enable@[j])
    &&& info.layer@ == o.layer@
    &&& info.priority == o.priority
    &&& info.disabled == o.disabled
}

/// The object has no children and no keyframes.
pub open spec fn stands_alone(o: TimelineObject) -> bool {
    &&& match o.children {
        Some(c) => c@.len() == 0,
        None => true,
    }
    &&& o.keyframes@.len() == 0
}

/// What the resolver knows of a keyframe of the object `parent_id`.
fn keyframe_info(keyframe: &TimelineKeyframe, depth: usize, parent_id: &String) -> (info: TimelineObjectInfo)
    ensures
        info.id@ == keyframe.id@,
        info.is_keyframe,
        info.parent_id matches Some(p) && p@ == parent_id@,
        info.layer@.len() == 0,
{
    TimelineObjectInfo {
        id: keyframe.id.clone(),
        enable: copy_enables(&keyframe.enable),
        priority: 0,
        disabled: keyframe.disabled,
        layer: String::new(),
        depth,
        parent_id: Some(parent_id.clone()),
        is_keyframe: true,
    }
}

/// Adds an object of the timeline to the objects being resolved, with its
/// children (one level deeper, with the object as their parent) and its
/// keyframes.
#[verifier::spinoff_prover]
pub fn add_object_to_timeline(
    timeline: &mut ResolvedTimeline,
    resolving_objects: &mut Vec<ResolvingTimelineObject>,
    obj: &TimelineObject,
    depth: usize,
    parent_id: Option<&String>,
)
    requires
        all_pending(old(resolving_objects)@),
    ensures
        all_pending(final(resolving_objects)@),
        object_ids(final(resolving_objects)@) == object_ids(old(resolving_objects)@).union(tree_ids(*obj)),
        forall|i: int|
            0 <= i < final(resolving_objects)@.len() && (#[trigger] final(resolving_objects)@[i]).info.parent_id is None
                ==> old(resolving_objects)@.contains(final(resolving_objects)@[i]) || (parent_id is None && top_level_copy(
                final(resolving_objects)@[i].info,
                *obj,
            )),
        stands_alone(*obj) && parent_id is None ==> forall|i: int|
            0 <= i < final(resolving_objects)@.len() ==> old(resolving_objects)@.contains(
                #[trigger] final(resolving_objects)@[i],
            ) || top_level_copy(final(resolving_objects)@[i].info, *obj),
        stands_alone(*obj) ==> final(resolving_objects)@.len() <= old(resolving_objects)@.len() + 1,
        stands_alone(*obj) && parent_id is None && !object_ids(old(resolving_objects)@).contains(obj.id@) ==> (
            final(resolving_objects)@.len() == old(resolving_objects)@.len() + 1 && (forall|i: int|
            0 <= i < old(resolving_objects)@.len() ==> #[trigger] final(resolving_objects)@[i] == old(resolving_objects)@[i])
            && top_level_copy(final(resolving_objects)@[old(resolving_objects)@.len() as int].info, *obj)),
        final(timeline).options == old(timeline).options,
        final(timeline).objects == old(timeline).objects,
    decreases obj,
{
    let info = TimelineObjectInfo {
        id: obj.id.clone(),
        enable: copy_enables(&obj.enable),
        priority: obj.priority,
        disabled: obj.disabled,
        layer: obj.layer.clone(),
        depth,
        parent_id: match parent_id {
            Some(p) => Some(p.clone()),
            None => None,
        },
        is_keyframe: false,
    };
    let ghost start = object_ids(resolving_objects@);
    let child_depth = depth.saturating_add(1);
    let ghost child_ids = children_ids(*obj);
    // track child objects
    if let Some(children) = &obj.children {
        let mut k: usize = 0;
        while k < children.len()
            invariant
                k <= children@.len(),
                obj.children == Some(*children),
                all_pending(resolving_objects@),
                object_ids(resolving_objects@) == start.union(
                    Set::new(
                        |id: Seq<char>|
                            exists|j: int| 0 <= j < k && #[trigger] tree_ids(children@[j]).contains(id),
                    ),
                ),
                timeline.options == old(timeline).options,
                timeline.objects == old(timeline).objects,
                forall|i: int|
                    0 <= i < resolving_objects@.len() && (#[trigger] resolving_objects@[i]).info.parent_id is None
                        ==> old(resolving_objects)@.contains(resolving_objects@[i]),
                children@.len() == 0 ==> resolving_objects@ == old(resolving_objects)@,
            decreases children@.len() - k,
        {
            let ghost before = object_ids(resolving_objects@);
            let ghost before_objs = resolving_objects@;
            proof {
                assert(decreases_to!(*obj => obj.children));
                assert(decreases_to!(obj.children => obj.children->0));
                assert(decreases_to!(obj.children->0 => obj.children->0@));
                assert(decreases_to!(obj.children->0@ => obj.children->0@[k as int]));
                assert(decreases_to!(*obj => children@[k as int]));
            }
            add_object_to_timeline(timeline, resolving_objects, &children[k], child_depth, Some(&obj.id));
            proof {
                assert forall|i: int|
                    0 <= i < resolving_objects@.len() && (#[trigger] resolving_objects@[i]).info.parent_id is None
                        implies old(resolving_objects)@.contains(resolving_objects@[i]) by {
                    assert(before_objs.contains(resolving_objects@[i]));
                    let j = choose|j: int| 0 <= j < before_objs.len() && before_objs[j] == resolving_objects@[i];
                    assert(before_objs[j].info.parent_id is None);
                }
                assert(object_ids(resolving_objects@) =~= start.union(
                    Set::new(
                        |id: Seq<char>|
                            exists|j: int| 0 <= j < k + 1 && #[trigger] tree_ids(children@[j]).contains(id),
                    ),
                ));
            }
            k = k + 1;
        }
        proof {
            assert(obj.children == Some(*children));
            assert(child_ids =~= Set::new(
                |id: Seq<char>|
                    exists|j: int| 0 <= j < children@.len() && #[trigger] tree_ids(children@[j]).contains(id),
            ));
            assert(object_ids(resolving_objects@) =~= start.union(child_ids));
        }
    } else {
        assert(object_ids(resolving_objects@) =~= start.union(child_ids));
    }
    let ghost after_children = object_ids(resolving_objects@);
    let ghost after_children_objs = resolving_objects@;
    assert(stands_alone(*obj) ==> after_children_objs == old(resolving_objects)@);
    // track keyframes
    let mut k: usize = 0;
    while k < obj.keyframes.len()
        invariant
            k <= obj.keyframes@.len(),
            all_pending(resolving_objects@),
            object_ids(resolving_objects@) == after_children.union(
                Set::new(|id: Seq<char>| exists|j: int| 0 <= j < k && obj.keyframes@[j].id@ == id),
            ),
            timeline.options == old(timeline).options,
            timeline.objects == old(timeline).objects,
            forall|i: int|
                0 <= i < resolving_objects@.len() && (#[trigger] resolving_objects@[i]).info.parent_id is None
                    ==> old(resolving_objects)@.contains(resolving_objects@[i]),
            obj.keyframes@.len() == 0 ==> resolving_objects@ == after_children_objs,
        decreases obj.keyframes@.len() - k,
    {
        let ghost before_objs = resolving_objects@;
        let keyframe_obj = ResolvingTimelineObject {
            resolved: TimelineObjectResolvingStatus::Pending,
            info: keyframe_info(&obj.keyframes[k], child_depth, &obj.id),
        };
        let ghost kf = keyframe_obj;
        add_object_to_resolved_timeline(timeline, resolving_objects, keyframe_obj, None);
        proof {
            assert forall|i: int|
                0 <= i < resolving_objects@.len() && (#[trigger] resolving_objects@[i]).info.parent_id is None
                    implies old(resolving_objects)@.contains(resolving_objects@[i]) by {
                assert(resolving_objects@[i] != kf);
                let j = choose|j: int| 0 <= j < before_objs.len() && before_objs[j] == resolving_objects@[i];
                assert(before_objs[j].info.parent_id is None);
            }
            assert(object_ids(resolving_objects@) =~= after_children.union(
                Set::new(|id: Seq<char>| exists|j: int| 0 <= j < k + 1 && obj.keyframes@[j].id@ == id),
            ));
        }
        k = k + 1;
    }
    let resolved_obj = ResolvingTimelineObject { resolved: TimelineObjectResolvingStatus::Pending, info };
    let ghost last_objs = resolving_objects@;
    let ghost ro = resolved_obj;
    add_object_to_resolved_timeline(timeline, resolving_objects, resolved_obj, Some(obj));
    proof {
        if stands_alone(*obj) && parent_id is None {
            assert(last_objs == old(resolving_objects)@);
            assert(top_level_copy(ro.info, *obj));
        }
        assert forall|i: int|
            0 <= i < resolving_objects@.len() && (#[trigger] resolving_objects@[i]).info.parent_id is None
                implies old(resolving_objects)@.contains(resolving_objects@[i]) || (parent_id is None && top_level_copy(
            resolving_objects@[i].info,
            *obj,
        )) by {
            if resolving_objects@[i] != ro {
                let j = choose|j: int| 0 <= j < last_objs.len() && last_objs[j] == resolving_objects@[i];
                assert(last_objs[j].info.parent_id is None);
            }
        }
        lemma_tree_ids(*obj);
        assert(object_ids(resolving_objects@) =~= object_ids(old(resolving_objects)@).union(tree_ids(*obj)));
    }
}

/// The ids of the objects of a timeline, their children and keyframes.
pub open spec fn timeline_ids(timeline: Seq<TimelineObject>) -> Set<Seq<char>> {
    Set::new(|id: Seq<char>| exists|k: int| 0 <= k < timeline.len() && #[trigger] tree_ids(timeline[k]).contains(id))
}

/// The ids of the resolved objects.
pub open spec fn resolved_ids(objs: Seq<ResolvedTimelineObject>) -> Set<Seq<char>> {
    Set::new(|id: Seq<char>| exists|i: int| 0 <= i < objs.len() && objs[i].info.id@ == id)
}

/// Every instance of a resolved object stands for sets and ends after it
/// starts.
pub open spec fn resolved_object_wf(o: ResolvedTimelineObject) -> bool {
    &&& all_wf(o.resolved.instances@)
    &&& forall|k: int|
        0 <= k < o.resolved.instances@.len() ==> end_or_max(#[trigger] o.resolved.instances@[k].end)
            > o.resolved.instances@[k].start
}

/// A resolved object that has no parent and one enable of a constant span
/// is on just during that span.
pub open spec fn on_during_constant_span(o: ResolvedTimelineObject) -> bool {
    match constant_object_span(o.info) {
        Some(span) => forall|x: Time| covers(o.resolved.instances@, x) <==> span_covers(span, x),
        None => true,
    }
}

/// The object that an error of resolving names.
pub open spec fn error_object_id(e: ResolveError) -> Option<Seq<char>> {
    match e {
        ResolveError::CircularDependency(id) => Some(id@),
        ResolveError::BadExpression((id, _, _)) => Some(id@),
        ResolveError::InstancesArrayNotSupported((id, _)) => Some(id@),
        _ => None,
    }
}

/// An error that a context shows the cause of names one of its objects.
proof fn lemma_error_id_listed(c0: ResolverContext, c: ResolverContext, e: ResolveError)
    requires
        ctx_step(c0, c),
        error_witnessed(c, e),
    ensures
        error_object_id(e) matches Some(id) && object_ids(c0.objects@).contains(id),
{
    match e {
        ResolveError::CircularDependency(id) => {
            let i = choose|i: int|
                0 <= i < c.objects@.len() && c.objects@[i].info.id@ == id@ && #[trigger] c.objects@[i].resolved
                    == TimelineObjectResolvingStatus::InProgress(TimelineObjectResolvedWip { is_self_referencing: true });
            assert(c0.objects@[i].info == c.objects@[i].info);
        },
        ResolveError::BadExpression((id, part, err)) => {
            let (i, k) = choose|i: int, k: int|
                0 <= i < c.objects@.len() && c.objects@[i].info.id@ == id@ && 0 <= k < c.objects@[i].info.enable@.len()
                    && bad_part(#[trigger] c.objects@[i].info.enable@[k], part@, err);
            assert(c0.objects@[i].info == c.objects@[i].info);
        },
        ResolveError::InstancesArrayNotSupported((id, part)) => {
            let (i, k) = choose|i: int, k: int|
                0 <= i < c.objects@.len() && c.objects@[i].info.id@ == id@ && 0 <= k < c.objects@[i].info.enable@.len()
                    && multi_part(#[trigger] c.objects@[i].info.enable@[k], part@);
            assert(c0.objects@[i].info == c.objects@[i].info);
        },
        _ => {},
    }
}

/// Every object of the timeline stands alone and has one enable, of a
/// constant span.
pub open spec fn all_constant(timeline: Seq<TimelineObject>) -> bool {
    forall|k: int|
        0 <= k < timeline.len() ==> stands_alone(#[trigger] timeline[k]) && timeline[k].enable@.len() == 1
            && constant_enable_span(timeline[k].enable@[0]) is Some
}

/// Every object of the timeline stands alone.
pub open spec fn all_stand_alone(timeline: Seq<TimelineObject>) -> bool {
    forall|k: int| 0 <= k < timeline.len() ==> stands_alone(#[trigger] timeline[k])
}

/// Every object of the timeline stands alone, and each of its enables has a
/// constant span.
pub open spec fn all_constant_enables(timeline: Seq<TimelineObject>) -> bool {
    &&& all_stand_alone(timeline)
    &&& forall|k: int, m: int|
        0 <= k < timeline.len() && 0 <= m < timeline[k].enable@.len() ==> (#[trigger] constant_enable_span(
            timeline[k].enable@[m],
        )) is Some
}

/// A resolved object whose enables all have constant spans is on just
/// where one of those spans is.
pub open spec fn on_during_constant_enables(o: ResolvedTimelineObject) -> bool {
    constant_enables(o.info) ==> forall|x: Time|
        covers(o.resolved.instances@, x) <==> enables_cover(o.info, o.info.enable@.len() as int, x)
}

/// The object is resolved and on just where one of the constant spans of
/// the enables of `info` is.
pub open spec fn complete_on_enables(o: ResolvingTimelineObject, info: TimelineObjectInfo) -> bool {
    o.resolved matches TimelineObjectResolvingStatus::Complete(res) && forall|x: Time|
        covers(res.instances@, x) <==> enables_cover(info, info.enable@.len() as int, x)
}

/// The timeline is one object, with no children and no keyframes, whose
/// enables all parse and look up to single times where they must.
pub open spec fn lone_clean(timeline: Seq<TimelineObject>) -> bool {
    &&& timeline.len() == 1
    &&& stands_alone(timeline[0])
    &&& forall|m: int| 0 <= m < timeline[0].enable@.len() ==> enable_clean(#[trigger] timeline[0].enable@[m])
}

/// The string refers, by `#id`, to the object `own` or to one whose id is
/// in `earlier`; it refers to no class and no layer.
pub open spec fn text_refers_within(s: Seq<char>, own: Seq<char>, earlier: Set<Seq<char>>) -> bool {
    match regex_captures_result(MATCH_ID_PATTERN@, s) {
        Some((id, _)) => id == own || earlier.contains(id),
        None => regex_captures_result(MATCH_CLASS_PATTERN@, s) is None && regex_captures_result(
            MATCH_LAYER_PATTERN@,
            s,
        ) is None,
    }
}

/// Each string of the expression refers only as `text_refers_within` lets it.
pub open spec fn expr_refers_within(e: ExprValue, own: Seq<char>, earlier: Set<Seq<char>>) -> bool
    decreases e,
{
    match e {
        ExprValue::Text(s) => text_refers_within(s, own, earlier),
        ExprValue::Op(l, _, r) => expr_refers_within(*l, own, earlier) && expr_refers_within(*r, own, earlier),
        ExprValue::Invert(x) => expr_refers_within(*x, own, earlier),
        _ => true,
    }
}

/// Each expression of the enable refers only as `text_refers_within` lets
/// it.
pub open spec fn enable_refers_within(en: TimelineEnable, own: Seq<char>, earlier: Set<Seq<char>>) -> bool {
    &&& (en.repeating matches Some(x) ==> (interpret_expression_spec(x@) matches Ok(v) ==> expr_refers_within(
        v,
        own,
        earlier,
    )))
    &&& (simplify_spec(start_source(en)) matches Ok(v) ==> expr_refers_within(v, own, earlier))
    &&& (en.enable_end matches Some(x) ==> (interpret_expression_spec(x@) matches Ok(v) ==> expr_refers_within(
        v,
        own,
        earlier,
    )))
    &&& (en.duration matches Some(x) ==> (interpret_expression_spec(x@) matches Ok(v) ==> expr_refers_within(
        v,
        own,
        earlier,
    )))
}

/// The ids of the objects before position `k` of the timeline.
pub open spec fn ids_before(timeline: Seq<TimelineObject>, k: int) -> Set<Seq<char>> {
    Set::new(|id: Seq<char>| exists|j: int| 0 <= j < k && #[trigger] timeline[j].id@ == id)
}

/// Every object stands alone and has an id of its own.
pub open spec fn flat_distinct(timeline: Seq<TimelineObject>) -> bool {
    &&& forall|k: int| 0 <= k < timeline.len() ==> stands_alone(#[trigger] timeline[k])
    &&& forall|j: int, k: int| 0 <= j < k < timeline.len() ==> #[trigger] timeline[j].id@ != #[trigger] timeline[k].id@
}

/// Every object stands alone and has an id of its own; its enables parse,
/// look up to single times where they must, and refer by id only to itself
/// and to objects before it.
pub open spec fn refers_earlier(timeline: Seq<TimelineObject>) -> bool {
    &&& flat_distinct(timeline)
    &&& forall|k: int, m: int|
        0 <= k < timeline.len() && 0 <= m < timeline[k].enable@.len() ==> enable_clean(
            #[trigger] timeline[k].enable@[m],
        ) && enable_refers_within(timeline[k].enable@[m], timeline[k].id@, ids_before(timeline, k))
}

/// The id at which the first enable of an object starts, written as `#id`
/// (not its own id), where that enable repeats nothing.
pub open spec fn start_ref_of(o: TimelineObject) -> Option<Seq<char>> {
    if o.enable@.len() > 0 && o.enable@[0].repeating is None {
        match simplify_spec(start_source(o.enable@[0])) {
            Ok(ExprValue::Text(s)) => if regex_captures_result(MATCH_ID_PATTERN@, s) is Some && referred_id(s) != o.id@ {
                Some(referred_id(s))
            } else {
                None
            },
            _ => None,
        }
    } else {
        None
    }
}

/// The first object of the timeline starts at object `k`, and object `k`
/// starts at the first object.
pub open spec fn start_at_each_other(timeline: Seq<TimelineObject>, k: int) -> bool {
    &&& 0 < k < timeline.len()
    &&& start_ref_of(timeline[0]) == Some(timeline[k].id@)
    &&& start_ref_of(timeline[k]) == Some(timeline[0].id@)
}

/// What a top-level copy of an object starts at is what the object starts
/// at.
proof fn lemma_copy_start_ref(c: ResolverContext, i: int, o: TimelineObject)
    requires
        0 <= i < c.objects@.len(),
        top_level_copy(c.objects@[i].info, o),
    ensures
        first_start_ref(c, i) == start_ref_of(o),
{
    if o.enable@.len() > 0 {
        lemma_same_enable_errors(c.objects@[i].info.enable@[0], o.enable@[0]);
    }
}

/// Where the first object and object `k` start at each other, resolving
/// the first object runs into object `k` waiting on it.
proof fn lemma_mutual_start(c: ResolverContext, timeline: Seq<TimelineObject>)
    requires
        flat_distinct(timeline),
        exists|k: int| start_at_each_other(timeline, k),
        c.objects@.len() == timeline.len(),
        forall|j: int| 0 <= j < c.objects@.len() ==> top_level_copy(#[trigger] c.objects@[j].info, timeline[j]),
        all_pending(c.objects@),
    ensures
        c.objects@[0].resolved is Pending,
        first_start_ref(c, 0) is Some,
        exists|k: int|
            #[trigger] crate::lookup_expression::first_with_id(c, first_start_ref(c, 0)->0, k) && start_waits_on(c, k, 0)
                && first_start_ref(c, k)->0 == timeline[0].id@,
{
    let k = choose|k: int| start_at_each_other(timeline, k);
    let t0 = timeline[0];
    let tk = timeline[k];
    lemma_copy_start_ref(c, 0, t0);
    lemma_copy_start_ref(c, k, tk);
    assert(top_level_copy(c.objects@[k].info, tk));
    assert forall|m: int| 0 <= m < k implies c.objects@[m].info.id@ != tk.id@ by {
        assert(top_level_copy(c.objects@[m].info, timeline[m]));
        assert(timeline[m].id@ != tk.id@);
    }
    assert(crate::lookup_expression::first_with_id(c, tk.id@, k));
    assert(top_level_copy(c.objects@[0].info, t0));
    assert(crate::lookup_expression::first_with_id(c, first_start_ref(c, k)->0, 0));
    assert(c.objects@[0].resolved is Pending);
    assert(c.objects@[k].resolved is Pending);
    assert(start_waits_on(c, k, 0));
    assert(crate::lookup_expression::first_with_id(c, first_start_ref(c, 0)->0, k));
}

/// An expression that refers only to resolved objects before `i` (or to
/// object `i` itself) has its referred objects resolved.
proof fn lemma_within_resolved(c: ResolverContext, i: int, e: ExprValue, earlier: Set<Seq<char>>)
    requires
        0 <= i < c.objects@.len(),
        expr_refers_within(e, c.objects@[i].info.id@, earlier),
        forall|id: Seq<char>|
            #[trigger] earlier.contains(id) ==> exists|m: int| 0 <= m < i && c.objects@[m].info.id@ == id,
        forall|m: int| 0 <= m < i ==> (#[trigger] c.objects@[m]).resolved is Complete,
    ensures
        expr_refers_resolved(c, i, e),
    decreases e,
{
    match e {
        ExprValue::Text(s) => {
            if let Some((id, rest)) = regex_captures_result(MATCH_ID_PATTERN@, s) {
                let ids = seq![id];
                assert forall|k: int, j: int|
                    0 <= k < ids.len() && ids[k] != c.objects@[i].info.id@
                        && #[trigger] crate::lookup_expression::first_with_id(c, ids[k], j)
                        implies c.objects@[j].resolved is Complete by {
                    assert(ids[k] == id);
                    assert(earlier.contains(id));
                    let m = choose|m: int| 0 <= m < i && c.objects@[m].info.id@ == id;
                    if j > m {
                        assert(c.objects@[m].info.id@ != id);
                    }
                }
                assert(refers_resolved(c, i, s));
            }
        },
        ExprValue::Op(l, _, r) => {
            lemma_within_resolved(c, i, *l, earlier);
            lemma_within_resolved(c, i, *r, earlier);
        },
        ExprValue::Invert(x) => {
            lemma_within_resolved(c, i, *x, earlier);
        },
        _ => {},
    }
}

/// An enable of a top-level object `i` that refers only to resolved objects
/// before it has its referred objects resolved.
proof fn lemma_enable_within_resolved(c: ResolverContext, i: int, en: TimelineEnable, earlier: Set<Seq<char>>)
    requires
        0 <= i < c.objects@.len(),
        c.objects@[i].info.parent_id is None,
        enable_refers_within(en, c.objects@[i].info.id@, earlier),
        forall|id: Seq<char>|
            #[trigger] earlier.contains(id) ==> exists|m: int| 0 <= m < i && c.objects@[m].info.id@ == id,
        forall|m: int| 0 <= m < i ==> (#[trigger] c.objects@[m]).resolved is Complete,
    ensures
        enable_refers_resolved(c, i, en),
{
    if let Some(x) = en.repeating {
        if let Ok(v) = interpret_expression_spec(x@) {
            lemma_within_resolved(c, i, v, earlier);
        }
    }
    if let Ok(v) = simplify_spec(start_source(en)) {
        lemma_within_resolved(c, i, v, earlier);
    }
    if let Some(x) = en.enable_end {
        if let Ok(v) = interpret_expression_spec(x@) {
            lemma_within_resolved(c, i, v, earlier);
        }
    }
    if let Some(x) = en.duration {
        if let Ok(v) = interpret_expression_spec(x@) {
            lemma_within_resolved(c, i, v, earlier);
        }
    }
}

/// Resolves a timeline: every object, child and keyframe gets the instances
/// in which it is enabled. The classes and layers list their objects' ids.
#[verifier::spinoff_prover]
#[verifier::rlimit(80)]
pub fn resolve_timeline(timeline: &[TimelineObject], options: ResolveOptions) -> (r: Result<Box<ResolvedTimeline>, ResolveError>)
    ensures
        match r {
            Ok(t) => {
                &&& t.options == options
                &&& resolved_ids(t.objects@) == timeline_ids(timeline@)
                &&& forall|i: int| 0 <= i < t.objects@.len() ==> resolved_object_wf(#[trigger] t.objects@[i])
                &&& forall|i: int| 0 <= i < t.objects@.len() ==> on_during_constant_span(#[trigger] t.objects@[i])
                &&& forall|i: int|
                    0 <= i < t.objects@.len() && (#[trigger] t.objects@[i]).info.parent_id is None ==> exists|k: int|
                        0 <= k < timeline@.len() && top_level_copy(t.objects@[i].info, timeline@[k])
                &&& forall|i: int, k: int|
                    0 <= i < t.objects@.len() && 0 <= k < timeline@.len() && top_level_copy(
                        #[trigger] t.objects@[i].info,
                        #[trigger] timeline@[k],
                    ) && timeline@[k].enable@.len() == 1 && constant_enable_span(timeline@[k].enable@[0]) is Some
                        ==> forall|x: Time|
                        covers(t.objects@[i].resolved.instances@, x) <==> span_covers(
                            constant_enable_span(timeline@[k].enable@[0])->0,
                            x,
                        )
            },
            Err(e) => !(e is UnresolvedObjects) && (error_object_id(e) matches Some(id) && timeline_ids(timeline@).contains(
                id,
            )),
        },
        all_constant(timeline@) ==> r is Ok,
        all_constant_enables(timeline@) ==> (r matches Ok(t) && forall|i: int|
            0 <= i < t.objects@.len() ==> on_during_constant_enables(#[trigger] t.objects@[i])),
        lone_clean(timeline@) ==> r is Ok,
        refers_earlier(timeline@) ==> r is Ok,
        flat_distinct(timeline@) && (exists|k: int| start_at_each_other(timeline@, k)) ==> (r matches Err(
            ResolveError::CircularDependency(id),
        ) && id@ == timeline@[0].id@),
{
    let mut resolved_timeline = ResolvedTimeline {
        options,
        objects: Vec::new(),
        classes: Vec::new(),
        layers: Vec::new(),
    };
    // Step 1: pre-populate the timeline with the objects
    let mut resolving_objects: Vec<ResolvingTimelineObject> = Vec::new();
    let mut k: usize = 0;
    while k < timeline.len()
        invariant
            k <= timeline@.len(),
            all_pending(resolving_objects@),
            object_ids(resolving_objects@) == Set::new(
                |id: Seq<char>| exists|j: int| 0 <= j < k && #[trigger] tree_ids(timeline@[j]).contains(id),
            ),
            resolved_timeline.options == options,
            resolved_timeline.objects@.len() == 0,
            forall|i: int|
                0 <= i < resolving_objects@.len() && (#[trigger] resolving_objects@[i]).info.parent_id is None
                    ==> exists|j: int| 0 <= j < k && top_level_copy(resolving_objects@[i].info, timeline@[j]),
            all_stand_alone(timeline@) ==> forall|i: int|
                0 <= i < resolving_objects@.len() ==> exists|j: int|
                    0 <= j < k && top_level_copy(#[trigger] resolving_objects@[i].info, timeline@[j]),
            all_constant(timeline@) ==> all_stand_alone(timeline@),
            lone_clean(timeline@) ==> resolving_objects@.len() <= k && forall|i: int|
                0 <= i < resolving_objects@.len() ==> top_level_copy(#[trigger] resolving_objects@[i].info, timeline@[0]),
            flat_distinct(timeline@) ==> resolving_objects@.len() == k && forall|j: int|
                0 <= j < k ==> top_level_copy(#[trigger] resolving_objects@[j].info, timeline@[j]),
        decreases timeline@.len() - k,
    {
        let ghost before_objs = resolving_objects@;
        proof {
            if flat_distinct(timeline@) {
                let o = timeline@[k as int];
                assert(stands_alone(o));
                if object_ids(before_objs).contains(o.id@) {
                    let j = choose|j: int| 0 <= j < k && #[trigger] tree_ids(timeline@[j]).contains(o.id@);
                    let p = timeline@[j];
                    assert(stands_alone(p));
                    lemma_tree_ids(p);
                    assert(!children_ids(p).contains(o.id@));
                    assert(!keyframe_ids(p).contains(o.id@));
                    assert(p.id@ != o.id@);
                    assert(false);
                }
            }
        }
        add_object_to_timeline(&mut resolved_timeline, &mut resolving_objects, &timeline[k], 0, None);
        assert forall|i: int|
            0 <= i < resolving_objects@.len() && (#[trigger] resolving_objects@[i]).info.parent_id is None implies exists|j: int|
            0 <= j < k + 1 && top_level_copy(resolving_objects@[i].info, timeline@[j]) by {
            if before_objs.contains(resolving_objects@[i]) {
                let m = choose|m: int| 0 <= m < before_objs.len() && before_objs[m] == resolving_objects@[i];
                assert(before_objs[m].info.parent_id is None);
            } else {
                assert(top_level_copy(resolving_objects@[i].info, timeline@[k as int]));
            }
        }
        proof {
            if flat_distinct(timeline@) {
                assert forall|j: int| 0 <= j < k + 1 implies top_level_copy(
                    #[trigger] resolving_objects@[j].info,
                    timeline@[j],
                ) by {
                    if j < k {
                        assert(resolving_objects@[j] == before_objs[j]);
                    }
                }
            }
            if lone_clean(timeline@) {
                assert(k == 0);
                assert forall|i: int| 0 <= i < resolving_objects@.len() implies top_level_copy(
                    #[trigger] resolving_objects@[i].info,
                    timeline@[0],
                ) by {
                    assert(!before_objs.contains(resolving_objects@[i]));
                }
            }
            if all_stand_alone(timeline@) {
                assert(stands_alone(timeline@[k as int]));
                assert forall|i: int| 0 <= i < resolving_objects@.len() implies exists|j: int|
                    0 <= j < k + 1 && top_level_copy(#[trigger] resolving_objects@[i].info, timeline@[j]) by {
                    if before_objs.contains(resolving_objects@[i]) {
                        let m = choose|m: int| 0 <= m < before_objs.len() && before_objs[m] == resolving_objects@[i];
                        assert(exists|j: int| 0 <= j < k && top_level_copy(before_objs[m].info, timeline@[j]));
                    } else {
                        assert(top_level_copy(resolving_objects@[i].info, timeline@[k as int]));
                    }
                }
            }
        }
        assert(object_ids(resolving_objects@) =~= Set::new(
            |id: Seq<char>| exists|j: int| 0 <= j < k + 1 && #[trigger] tree_ids(timeline@[j]).contains(id),
        ));
        k = k + 1;
    }
    assert(object_ids(resolving_objects@) =~= timeline_ids(timeline@));
    let ghost all_ids = object_ids(resolving_objects@);
    let mut ctx = ResolverContext::create(&resolved_timeline, resolving_objects);
    assert(ctx_wf(ctx)) by {
        assert forall|i: int| 0 <= i < ctx.objects@.len() implies resolved_wf(#[trigger] ctx.objects@[i].resolved) by {
            assert(ctx.objects@[i].resolved is Pending);
        }
    }
    // Step 2: resolve the objects
    let ghost ctx0 = ctx;
    assert(all_constant(timeline@) ==> forall|j: int|
        0 <= j < ctx0.objects@.len() ==> constant_object_span(#[trigger] ctx0.objects@[j].info) is Some) by {
        if all_constant(timeline@) {
            assert forall|j: int| 0 <= j < ctx0.objects@.len() implies constant_object_span(
                #[trigger] ctx0.objects@[j].info,
            ) is Some by {
                let m = choose|m: int| 0 <= m < timeline@.len() && top_level_copy(ctx0.objects@[j].info, timeline@[m]);
                assert(stands_alone(timeline@[m]));
                lemma_same_enable_span(ctx0.objects@[j].info.enable@[0], timeline@[m].enable@[0]);
            }
        }
    }
    let ghost allce = all_constant_enables(timeline@);
    assert(allce ==> forall|j: int| 0 <= j < ctx0.objects@.len() ==> constant_enables(#[trigger] ctx0.objects@[j].info))
        by {
        if allce {
            assert forall|j: int| 0 <= j < ctx0.objects@.len() implies constant_enables(#[trigger] ctx0.objects@[j].info) by {
                let m = choose|m: int| 0 <= m < timeline@.len() && top_level_copy(ctx0.objects@[j].info, timeline@[m]);
                assert forall|e: int| 0 <= e < ctx0.objects@[j].info.enable@.len() implies (#[trigger] constant_enable_span(
                    ctx0.objects@[j].info.enable@[e],
                )) is Some by {
                    lemma_same_enable_span(ctx0.objects@[j].info.enable@[e], timeline@[m].enable@[e]);
                    assert(constant_enable_span(timeline@[m].enable@[e]) is Some);
                }
            }
        }
    }
    let mut i: usize = 0;
    while i < ctx.objects.len()
        invariant
            allce == all_constant_enables(timeline@),
            allce ==> forall|j: int| 0 <= j < ctx0.objects@.len() ==> constant_enables(#[trigger] ctx0.objects@[j].info),
            allce ==> forall|j: int| i <= j < ctx.objects@.len() ==> #[trigger] ctx.objects@[j] == ctx0.objects@[j],
            allce ==> forall|j: int| 0 <= j < i ==> complete_on_enables(#[trigger] ctx.objects@[j], ctx0.objects@[j].info),
            i <= ctx.objects@.len(),
            ctx_step(ctx0, ctx),
            ctx_wf(ctx),
            ctx.options == options,
            object_ids(ctx0.objects@) == all_ids,
            all_ids == timeline_ids(timeline@),
            forall|j: int| 0 <= j < i ==> (#[trigger] ctx.objects@[j]).resolved is Complete,
            all_constant(timeline@) ==> forall|j: int|
                0 <= j < ctx0.objects@.len() ==> constant_object_span(#[trigger] ctx0.objects@[j].info) is Some,
            all_constant(timeline@) ==> forall|j: int| i <= j < ctx.objects@.len() ==> #[trigger] ctx.objects@[j] == ctx0.objects@[j],
            all_pending(ctx0.objects@),
            lone_clean(timeline@) ==> ctx0.objects@.len() <= 1 && (i == 0 ==> ctx == ctx0) && forall|j: int|
                0 <= j < ctx0.objects@.len() ==> top_level_copy(#[trigger] ctx0.objects@[j].info, timeline@[0]),
            flat_distinct(timeline@) ==> ctx0.objects@.len() == timeline@.len() && (forall|j: int|
                0 <= j < ctx0.objects@.len() ==> top_level_copy(#[trigger] ctx0.objects@[j].info, timeline@[j])),
            refers_earlier(timeline@) ==> forall|j: int| i <= j < ctx.objects@.len() ==> #[trigger] ctx.objects@[j] == ctx0.objects@[j],
            i == 0 ==> ctx == ctx0,
            flat_distinct(timeline@) && (exists|k: int| start_at_each_other(timeline@, k)) ==> i == 0,
        decreases ctx.objects@.len() - i,
    {
        let ghost before = ctx;
        proof {
            if flat_distinct(timeline@) && (exists|k: int| start_at_each_other(timeline@, k)) {
                lemma_mutual_start(ctx0, timeline@);
                let k = choose|k: int| #[trigger] crate::lookup_expression::first_with_id(
                    ctx0,
                    first_start_ref(ctx0, 0)->0,
                    k,
                ) && start_waits_on(ctx0, k, 0) && first_start_ref(ctx0, k)->0 == timeline@[0].id@;
                assert(crate::lookup_expression::first_with_id(ctx, first_start_ref(ctx, 0)->0, k));
            }
            if refers_earlier(timeline@) {
                let ii = i as int;
                let earlier = ids_before(timeline@, ii);
                assert(ctx.objects@[ii] == ctx0.objects@[ii]);
                assert(ctx.objects@[ii].resolved is Pending);
                assert forall|id: Seq<char>| #[trigger] earlier.contains(id) implies exists|m: int|
                    0 <= m < ii && ctx.objects@[m].info.id@ == id by {
                    let m = choose|m: int| 0 <= m < ii && #[trigger] timeline@[m].id@ == id;
                    assert(top_level_copy(ctx0.objects@[m].info, timeline@[m]));
                    assert(ctx.objects@[m].info == ctx0.objects@[m].info);
                }
                assert forall|m: int| 0 <= m < ctx.objects@[ii].info.enable@.len() implies enable_refers_resolved(
                    ctx,
                    ii,
                    #[trigger] ctx.objects@[ii].info.enable@[m],
                ) && enable_clean(ctx.objects@[ii].info.enable@[m]) by {
                    let en = ctx.objects@[ii].info.enable@[m];
                    let te = timeline@[ii].enable@[m];
                    assert(top_level_copy(ctx0.objects@[ii].info, timeline@[ii]));
                    assert(same_enable(en, te));
                    lemma_same_enable_errors(en, te);
                    assert(enable_clean(te));
                    assert(enable_refers_within(te, timeline@[ii].id@, earlier));
                    assert(enable_refers_within(en, ctx.objects@[ii].info.id@, earlier));
                    lemma_enable_within_resolved(ctx, ii, en, earlier);
                }
            }
            if lone_clean(timeline@) {
                assert(i == 0);
                assert(top_level_copy(ctx.objects@[0].info, timeline@[0]));
                assert(ctx.objects@[0].resolved is Pending);
                assert(others_complete(ctx, 0));
                assert forall|m: int| 0 <= m < ctx.objects@[0].info.enable@.len() implies enable_clean(
                    #[trigger] ctx.objects@[0].info.enable@[m],
                ) by {
                    assert(same_enable(ctx.objects@[0].info.enable@[m], timeline@[0].enable@[m]));
                    lemma_same_enable_errors(ctx.objects@[0].info.enable@[m], timeline@[0].enable@[m]);
                    assert(enable_clean(timeline@[0].enable@[m]));
                }
            }
        }
        proof {
            if allce {
                assert(ctx.objects@[i as int] == ctx0.objects@[i as int]);
                assert(ctx.objects@[i as int].resolved is Pending);
                assert(constant_enables(ctx.objects@[i as int].info));
            }
        }
        match resolve_object(&mut ctx, i) {
            Ok(()) => {},
            Err(e) => {
                proof {
                    lemma_ctx_step_trans(ctx0, before, ctx);
                    lemma_error_id_listed(ctx0, ctx, e);
                }
                return Err(e);
            },
        }
        proof {
            lemma_ctx_step_trans(ctx0, before, ctx);
            assert forall|j: int| 0 <= j < i + 1 implies (#[trigger] ctx.objects@[j]).resolved is Complete by {
                if j < i {
                    assert(before.objects@[j].resolved is Complete);
                }
            }
            if refers_earlier(timeline@) {
                assert forall|j: int| i + 1 <= j < ctx.objects@.len() implies #[trigger] ctx.objects@[j]
                    == ctx0.objects@[j] by {
                    assert(before.objects@[j] == ctx0.objects@[j]);
                }
            }
            if allce {
                assert forall|j: int| i + 1 <= j < ctx.objects@.len() implies #[trigger] ctx.objects@[j]
                    == ctx0.objects@[j] by {
                    assert(before.objects@[j] == ctx0.objects@[j]);
                }
                assert forall|j: int| 0 <= j < i + 1 implies complete_on_enables(
                    #[trigger] ctx.objects@[j],
                    ctx0.objects@[j].info,
                ) by {
                    if j < i {
                        assert(ctx.objects@[j] == before.objects@[j]);
                    }
                }
            }
        }
        i = i + 1;
    }
    proof {
        assert(object_ids(ctx.objects@) =~= all_ids) by {
            assert forall|x: Seq<char>| all_ids.contains(x) implies object_ids(ctx.objects@).contains(x) by {
                let j = choose|j: int| 0 <= j < ctx0.objects@.len() && ctx0.objects@[j].info.id@ == x;
                assert(ctx.objects@[j].info == ctx0.objects@[j].info);
            }
            assert forall|x: Seq<char>| object_ids(ctx.objects@).contains(x) implies all_ids.contains(x) by {
                let j = choose|j: int| 0 <= j < ctx.objects@.len() && ctx.objects@[j].info.id@ == x;
                assert(ctx.objects@[j].info == ctx0.objects@[j].info);
            }
        }
    }
    assert forall|j: int|
        0 <= j < ctx.objects@.len() && (#[trigger] ctx.objects@[j]).info.parent_id is None implies exists|m: int|
        0 <= m < timeline@.len() && top_level_copy(ctx.objects@[j].info, timeline@[m]) by {
        assert(ctx.objects@[j].info == ctx0.objects@[j].info);
    }
    // Convert the objects, checking that every one was resolved
    let mut unresolved_ids: Vec<String> = Vec::new();
    let mut objects: Vec<ResolvedTimelineObject> = Vec::new();
    assert(allce ==> forall|j: int|
        0 <= j < ctx.objects@.len() ==> complete_on_enables(#[trigger] ctx.objects@[j], ctx.objects@[j].info)) by {
        if allce {
            assert forall|j: int| 0 <= j < ctx.objects@.len() implies complete_on_enables(
                #[trigger] ctx.objects@[j],
                ctx.objects@[j].info,
            ) by {
                assert(complete_on_enables(ctx.objects@[j], ctx0.objects@[j].info));
                assert(ctx.objects@[j].info == ctx0.objects@[j].info);
            }
        }
    }
    let mut remaining = ctx.objects;
    let ghost all = remaining@;
    let total = remaining.len();
    let mut n: usize = 0;
    while remaining.len() > 0
        invariant
            n + remaining@.len() == all.len(),
            all.len() == total,
            remaining@ == all.skip(n as int),
            forall|j: int| 0 <= j < all.len() ==> (#[trigger] all[j]).resolved is Complete,
            forall|j: int| 0 <= j < all.len() ==> resolved_wf(#[trigger] all[j].resolved),
            forall|j: int| 0 <= j < all.len() ==> resolved_as_declared(#[trigger] all[j]),
            objects@.len() == n,
            forall|j: int| 0 <= j < n ==> on_during_constant_span(#[trigger] objects@[j]),
            forall|j: int|
                0 <= j < all.len() && (#[trigger] all[j]).info.parent_id is None ==> exists|m: int|
                    0 <= m < timeline@.len() && top_level_copy(all[j].info, timeline@[m]),
            forall|j: int| 0 <= j < n ==> (#[trigger] objects@[j]).info == all[j].info,
            forall|j: int| 0 <= j < n ==> resolved_object_wf(#[trigger] objects@[j]),
            unresolved_ids@.len() == 0,
            allce == all_constant_enables(timeline@),
            allce ==> forall|j: int| 0 <= j < all.len() ==> complete_on_enables(#[trigger] all[j], all[j].info),
            allce ==> forall|j: int| 0 <= j < n ==> on_during_constant_enables(#[trigger] objects@[j]),
        decreases remaining@.len(),
    {
        let o = remaining.remove(0);
        assert(o == all[n as int]);
        match o.resolved {
            TimelineObjectResolvingStatus::Complete(res) => {
                objects.push(ResolvedTimelineObject { info: o.info, resolved: res });
            },
            _ => {
                unresolved_ids.push(o.info.id);
            },
        }
        n = n + 1;
        assert(remaining@ =~= all.skip(n as int));
    }
    if unresolved_ids.len() > 0 {
        return Err(ResolveError::UnresolvedObjects(unresolved_ids));
    }
    resolved_timeline.objects = objects;
    proof {
        assert(resolved_ids(resolved_timeline.objects@) =~= timeline_ids(timeline@)) by {
            assert forall|x: Seq<char>| timeline_ids(timeline@).contains(x) implies resolved_ids(
                resolved_timeline.objects@,
            ).contains(x) by {
                assert(object_ids(all).contains(x));
                let j = choose|j: int| 0 <= j < all.len() && all[j].info.id@ == x;
                assert(resolved_timeline.objects@[j].info == all[j].info);
            }
            assert forall|x: Seq<char>| resolved_ids(resolved_timeline.objects@).contains(x) implies timeline_ids(
                timeline@,
            ).contains(x) by {
                let j = choose|j: int| 0 <= j < resolved_timeline.objects@.len() && resolved_timeline.objects@[j].info.id@ == x;
                assert(resolved_timeline.objects@[j].info == all[j].info);
                assert(object_ids(all).contains(x));
            }
        }
    }
    proof {
        let objs = resolved_timeline.objects@;
        assert forall|i: int, k: int|
            0 <= i < objs.len() && 0 <= k < timeline@.len() && top_level_copy(
                #[trigger] objs[i].info,
                #[trigger] timeline@[k],
            ) && timeline@[k].enable@.len() == 1 && constant_enable_span(timeline@[k].enable@[0]) is Some implies forall|
            x: Time,
        | covers(objs[i].resolved.instances@, x) <==> span_covers(constant_enable_span(timeline@[k].enable@[0])->0, x) by {
            lemma_same_enable_span(objs[i].info.enable@[0], timeline@[k].enable@[0]);
            assert(on_during_constant_span(objs[i]));
        }
    }
    Ok(Box::new(resolved_timeline))
}

} // verus!
