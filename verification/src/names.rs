//! Lists of object ids kept by name (a class or a layer), in the order the
//! names were first seen.

use vstd::prelude::*;

verus! {

/// The characters of each string of a list.
pub open spec fn strings_view(v: Seq<String>) -> Seq<Seq<char>> {
    v.map_values(|s: String| s@)
}

/// The ids listed under `k`: those of the first entry named `k`.
pub open spec fn names_lookup(m: Seq<(String, Vec<String>)>, k: Seq<char>) -> Option<Seq<Seq<char>>>
    decreases m.len(),
{
    if m.len() == 0 {
        None
    } else if m[0].0@ == k {
        Some(strings_view(m[0].1@))
    } else {
        names_lookup(m.drop_first(), k)
    }
}

/// `id` is listed under `name`.
pub open spec fn listed_under(m: Seq<(String, Vec<String>)>, name: Seq<char>, id: Seq<char>) -> bool {
    match names_lookup(m, name) {
        Some(ids) => ids.contains(id),
        None => false,
    }
}

proof fn lemma_names_lookup_skip(m: Seq<(String, Vec<String>)>, i: int, k: Seq<char>)
    requires
        0 <= i < m.len(),
        m[i].0@ != k,
    ensures
        names_lookup(m.skip(i), k) == names_lookup(m.skip(i + 1), k),
{
    assert(m.skip(i).drop_first() =~= m.skip(i + 1));
}

/// The ids listed under `name`, if any are.
pub fn ids_for_name<'a>(map: &'a Vec<(String, Vec<String>)>, name: &String) -> (r: Option<&'a Vec<String>>)
    ensures
        match r {
            Some(v) => names_lookup(map@, name@) == Some(strings_view(v@)),
            None => names_lookup(map@, name@) is None,
        },
{
    let mut i: usize = 0;
    assert(map@.skip(0) =~= map@);
    while i < map.len()
        invariant
            i <= map@.len(),
            names_lookup(map@, name@) == names_lookup(map@.skip(i as int), name@),
        decreases map@.len() - i,
    {
        if map[i].0 == *name {
            assert(map@.skip(i as int)[0] == map@[i as int]);
            return Some(&map[i].1);
        }
        proof {
            lemma_names_lookup_skip(map@, i as int, name@);
        }
        i = i + 1;
    }
    None
}

proof fn lemma_names_lookup_push(m: Seq<(String, Vec<String>)>, e: (String, Vec<String>), k: Seq<char>)
    ensures
        names_lookup(m.push(e), k) == match names_lookup(m, k) {
            Some(x) => Some(x),
            None => if e.0@ == k {
                Some(strings_view(e.1@))
            } else {
                None
            },
        },
    decreases m.len(),
{
    if m.len() > 0 {
        assert(m.push(e)[0] == m[0]);
        assert(m.push(e).drop_first() =~= m.drop_first().push(e));
        lemma_names_lookup_push(m.drop_first(), e, k);
    } else {
        assert(m.push(e)[0] == e);
        assert(m.push(e).drop_first() =~= Seq::<(String, Vec<String>)>::empty());
        assert(names_lookup(m, k) is None);
        assert(names_lookup(Seq::<(String, Vec<String>)>::empty(), k) is None);
        if e.0@ == k {
            assert(names_lookup(m.push(e), k) == Some(strings_view(e.1@)));
        } else {
            assert(names_lookup(m.push(e), k) == names_lookup(m.push(e).drop_first(), k));
        }
    }
}

proof fn lemma_names_lookup_update(m: Seq<(String, Vec<String>)>, i: int, e: (String, Vec<String>), k: Seq<char>)
    requires
        0 <= i < m.len(),
        e.0@ == m[i].0@,
        forall|j: int| 0 <= j < i ==> m[j].0@ != m[i].0@,
    ensures
        names_lookup(m.update(i, e), k) == if k == m[i].0@ {
            Some(strings_view(e.1@))
        } else {
            names_lookup(m, k)
        },
    decreases i,
{
    if i > 0 {
        assert(m.update(i, e)[0] == m[0]);
        assert(m.update(i, e).drop_first() =~= m.drop_first().update(i - 1, e));
        lemma_names_lookup_update(m.drop_first(), i - 1, e, k);
    } else {
        assert(m.update(i, e)[0] == e);
        assert(m.update(i, e).drop_first() =~= m.drop_first());
    }
}

/// Lists `id` under `name`, after the ids listed there already.
pub fn add_id_for_name(map: &mut Vec<(String, Vec<String>)>, name: &String, id: String)
    ensures
        forall|k: Seq<char>|
            #![trigger names_lookup(final(map)@, k)]
            names_lookup(final(map)@, k) == if k == name@ {
                Some(
                    match names_lookup(old(map)@, k) {
                        Some(x) => x,
                        None => Seq::empty(),
                    }.push(id@),
                )
            } else {
                names_lookup(old(map)@, k)
            },
{
    let ghost before = map@;
    let mut i: usize = 0;
    assert(map@.skip(0) =~= map@);
    while i < map.len()
        invariant
            map@ == before,
            before == old(map)@,
            i <= map@.len(),
            forall|j: int| 0 <= j < i ==> map@[j].0@ != name@,
        decreases map@.len() - i,
    {
        if map[i].0 == *name {
            let mut e = map.remove(i);
            let ghost old_ids = e.1@;
            e.1.push(id);
            map.insert(i, e);
            proof {
                assert(map@ =~= before.update(i as int, e));
                assert forall|k: Seq<char>| #[trigger] names_lookup(map@, k) == if k == name@ {
                    Some(
                        match names_lookup(before, k) {
                            Some(x) => x,
                            None => Seq::empty(),
                        }.push(id@),
                    )
                } else {
                    names_lookup(before, k)
                } by {
                    lemma_names_lookup_update(before, i as int, e, k);
                    lemma_names_lookup_update(before, i as int, before[i as int], k);
                    assert(before.update(i as int, before[i as int]) =~= before);
                    assert(strings_view(e.1@) =~= strings_view(old_ids).push(id@));
                }
            }
            return;
        }
        i = i + 1;
    }
    proof {
        assert(names_lookup(before, name@) is None) by {
            lemma_names_absent(before, name@);
        }
    }
    let mut ids: Vec<String> = Vec::new();
    ids.push(id);
    let e = (name.clone(), ids);
    map.push(e);
    proof {
        assert forall|k: Seq<char>| #[trigger] names_lookup(map@, k) == if k == name@ {
            Some(
                match names_lookup(before, k) {
                    Some(x) => x,
                    None => Seq::empty(),
                }.push(id@),
            )
        } else {
            names_lookup(before, k)
        } by {
            lemma_names_lookup_push(before, e, k);
            assert(strings_view(e.1@) =~= Seq::<Seq<char>>::empty().push(id@));
        }
    }
}

proof fn lemma_names_absent(m: Seq<(String, Vec<String>)>, k: Seq<char>)
    requires
        forall|j: int| 0 <= j < m.len() ==> m[j].0@ != k,
    ensures
        names_lookup(m, k) is None,
    decreases m.len(),
{
    if m.len() > 0 {
        assert(m[0].0@ != k);
        lemma_names_absent(m.drop_first(), k);
    }
}

proof fn lemma_names_lookup_same(a: Seq<(String, Vec<String>)>, b: Seq<(String, Vec<String>)>, k: Seq<char>)
    requires
        a.len() == b.len(),
        forall|i: int| 0 <= i < a.len() ==> (#[trigger] a[i]).0@ == b[i].0@ && strings_view(a[i].1@) == strings_view(b[i].1@),
    ensures
        names_lookup(a, k) == names_lookup(b, k),
    decreases a.len(),
{
    if a.len() > 0 {
        assert(a[0].0@ == b[0].0@);
        lemma_names_lookup_same(a.drop_first(), b.drop_first(), k);
    }
}

/// A copy of a list of ids by name.
pub fn copy_names(m: &Vec<(String, Vec<String>)>) -> (c: Vec<(String, Vec<String>)>)
    ensures
        forall|k: Seq<char>| #[trigger] names_lookup(c@, k) == names_lookup(m@, k),
{
    let mut c: Vec<(String, Vec<String>)> = Vec::new();
    let mut i: usize = 0;
    while i < m.len()
        invariant
            i <= m@.len(),
            c@.len() == i,
            forall|j: int| 0 <= j < i ==> (#[trigger] c@[j]).0@ == m@[j].0@ && strings_view(c@[j].1@) == strings_view(m@[j].1@),
        decreases m@.len() - i,
    {
        let ids = crate::instance::copy_strings(&m[i].1);
        assert(strings_view(ids@) =~= strings_view(m@[i as int].1@));
        c.push((m[i].0.clone(), ids));
        i = i + 1;
    }
    assert forall|k: Seq<char>| #[trigger] names_lookup(c@, k) == names_lookup(m@, k) by {
        lemma_names_lookup_same(c@, m@, k);
    }
    c
}

} // verus!
