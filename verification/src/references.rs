//! Sets of references, kept as lists of strings without duplicates.

use vstd::prelude::*;
use crate::instance::{distinct_strings, string_set};

verus! {

/// Whether the list holds a string with the characters of `s`.
pub fn contains_string(v: &Vec<String>, s: &String) -> (b: bool)
    ensures
        b == string_set(v@).contains(s@),
{
    let mut i: usize = 0;
    while i < v.len()
        invariant
            i <= v@.len(),
            forall|k: int| 0 <= k < i ==> v@[k]@ != s@,
        decreases v@.len() - i,
    {
        if v[i] == *s {
            assert(string_set(v@).contains(s@));
            return true;
        }
        i = i + 1;
    }
    false
}

/// Adds a string to a set of strings.
pub fn insert_string(v: &mut Vec<String>, s: String)
    requires
        distinct_strings(old(v)@),
    ensures
        distinct_strings(final(v)@),
        string_set(final(v)@) == string_set(old(v)@).insert(s@),
{
    let ghost s_view = s@;
    if !contains_string(v, &s) {
        let ghost before = v@;
        v.push(s);
        assert(string_set(v@) =~= string_set(before).insert(s_view)) by {
            assert forall|x: Seq<char>| string_set(v@).contains(x) implies string_set(
                before,
            ).insert(s_view).contains(x) by {
                let k = choose|k: int| 0 <= k < v@.len() && v@[k]@ == x;
                if k < before.len() {
                    assert(v@[k] == before[k]);
                }
            }
            assert forall|x: Seq<char>| string_set(before).insert(s_view).contains(x) implies string_set(
                v@,
            ).contains(x) by {
                if x == s_view {
                    assert(v@[before.len() as int]@ == x);
                } else {
                    let k = choose|k: int| 0 <= k < before.len() && before[k]@ == x;
                    assert(v@[k] == before[k]);
                }
            }
        }
    } else {
        assert(string_set(v@) =~= string_set(v@).insert(s_view));
    }
}

/// Pushing a string adds its text to the set of texts.
pub proof fn lemma_string_set_push(v: Seq<String>, s: String)
    ensures
        string_set(v.push(s)) == string_set(v).insert(s@),
{
    assert(string_set(v.push(s)) =~= string_set(v).insert(s@)) by {
        assert forall|x: Seq<char>| string_set(v.push(s)).contains(x) implies string_set(v).insert(
            s@,
        ).contains(x) by {
            let k = choose|k: int| 0 <= k < v.push(s).len() && v.push(s)[k]@ == x;
            if k < v.len() {
                assert(v.push(s)[k] == v[k]);
            }
        }
        assert forall|x: Seq<char>| string_set(v).insert(s@).contains(x) implies string_set(
            v.push(s),
        ).contains(x) by {
            if x == s@ {
                assert(v.push(s)[v.len() as int]@ == x);
            } else {
                let k = choose|k: int| 0 <= k < v.len() && v[k]@ == x;
                assert(v.push(s)[k] == v[k]);
            }
        }
    }
}

/// Adds the strings of `other` to a set of strings.
pub fn insert_strings(v: &mut Vec<String>, other: &Vec<String>)
    requires
        distinct_strings(old(v)@),
    ensures
        distinct_strings(final(v)@),
        string_set(final(v)@) == string_set(old(v)@).union(string_set(other@)),
{
    let ghost start = string_set(v@);
    let mut i: usize = 0;
    while i < other.len()
        invariant
            i <= other@.len(),
            distinct_strings(v@),
            string_set(v@) == start.union(string_set(other@.take(i as int))),
        decreases other@.len() - i,
    {
        proof {
            assert(other@.take(i + 1) =~= other@.take(i as int).push(other@[i as int]));
            lemma_string_set_push(other@.take(i as int), other@[i as int]);
        }
        insert_string(v, other[i].clone());
        i = i + 1;
        assert(string_set(v@) =~= start.union(string_set(other@.take(i as int))));
    }
    assert(other@.take(other@.len() as int) =~= other@);
}

/// Builds a set of references.
pub struct ReferencesBuilder {
    value: Vec<String>,
}

impl ReferencesBuilder {
    /// The references gathered so far.
    pub closed spec fn references(&self) -> Set<Seq<char>> {
        string_set(self.value@)
    }

    pub closed spec fn wf(&self) -> bool {
        distinct_strings(self.value@)
    }

    pub fn new() -> (b: ReferencesBuilder)
        ensures
            b.wf(),
            b.references() == Set::<Seq<char>>::empty(),
    {
        let b = ReferencesBuilder { value: Vec::new() };
        assert(b.references() =~= Set::<Seq<char>>::empty());
        b
    }

    pub fn add(self, other: &Vec<String>) -> (b: ReferencesBuilder)
        requires
            self.wf(),
        ensures
            b.wf(),
            b.references() == self.references().union(string_set(other@)),
    {
        let mut s = self;
        insert_strings(&mut s.value, other);
        s
    }

    pub fn add2(self, other: Vec<String>) -> (b: ReferencesBuilder)
        requires
            self.wf(),
        ensures
            b.wf(),
            b.references() == self.references().union(string_set(other@)),
    {
        self.add(&other)
    }

    pub fn add_some(self, other: Option<&Vec<String>>) -> (b: ReferencesBuilder)
        requires
            self.wf(),
        ensures
            b.wf(),
            b.references() == match other {
                Some(o) => self.references().union(string_set(o@)),
                None => self.references(),
            },
    {
        match other {
            Some(o) => self.add(o),
            None => self,
        }
    }

    pub fn add_id(self, id: &String) -> (b: ReferencesBuilder)
        requires
            self.wf(),
        ensures
            b.wf(),
            b.references() == self.references().insert(id@),
    {
        let mut s = self;
        insert_string(&mut s.value, id.clone());
        s
    }

    pub fn done(self) -> (v: Vec<String>)
        requires
            self.wf(),
        ensures
            distinct_strings(v@),
            string_set(v@) == self.references(),
    {
        self.value
    }
}

/// The union of two sets of strings.
pub fn join_hashset(a: &Vec<String>, b: &Vec<String>) -> (r: Vec<String>)
    ensures
        distinct_strings(r@),
        string_set(r@) == string_set(a@).union(string_set(b@)),
{
    ReferencesBuilder::new().add(a).add(b).done()
}

/// The union of two sets of strings that may be absent.
pub fn join_maybe_hashset(a: Option<&Vec<String>>, b: Option<&Vec<String>>) -> (r: Vec<String>)
    ensures
        distinct_strings(r@),
        string_set(r@) == (match a {
            Some(x) => string_set(x@),
            None => Set::empty(),
        }).union(
            match b {
                Some(y) => string_set(y@),
                None => Set::empty(),
            },
        ),
{
    let r = ReferencesBuilder::new().add_some(a).add_some(b).done();
    assert(string_set(r@) =~= (match a {
        Some(x) => string_set(x@),
        None => Set::empty(),
    }).union(
        match b {
            Some(y) => string_set(y@),
            None => Set::empty(),
        },
    ));
    r
}

/// A set of strings with one more.
pub fn clone_hashset_with_value(a: &Vec<String>, c: &String) -> (r: Vec<String>)
    ensures
        distinct_strings(r@),
        string_set(r@) == string_set(a@).insert(c@),
{
    ReferencesBuilder::new().add(a).add_id(c).done()
}

} // verus!
