//! Sets of caps, kept by the id of the parent they belong to.

use vstd::prelude::*;
use crate::instance::{Cap, CapValue};

verus! {

/// No two caps of the list have the same id.
pub open spec fn distinct_cap_ids(v: Seq<Cap>) -> bool {
    forall|i: int, j: int| 0 <= i < j < v.len() ==> v[i].id@ != v[j].id@
}

/// The caps of a list, by id.
pub open spec fn cap_map(v: Seq<Cap>) -> Map<Seq<char>, CapValue> {
    Map::new(
        |k: Seq<char>| exists|i: int| 0 <= i < v.len() && v[i].id@ == k,
        |k: Seq<char>| v[choose|i: int| 0 <= i < v.len() && v[i].id@ == k]@,
    )
}

proof fn lemma_cap_map_at(v: Seq<Cap>, i: int)
    requires
        distinct_cap_ids(v),
        0 <= i < v.len(),
    ensures
        cap_map(v).contains_key(v[i].id@),
        cap_map(v)[v[i].id@] == v[i]@,
{
    let k = v[i].id@;
    assert(cap_map(v).contains_key(k));
    let j = choose|j: int| 0 <= j < v.len() && v[j].id@ == k;
    if j != i {
        if j < i {
            assert(v[j].id@ != v[i].id@);
        } else {
            assert(v[i].id@ != v[j].id@);
        }
    }
}

/// Puts a cap into a set of caps, in place of any cap with the same id.
pub fn insert_cap(v: &mut Vec<Cap>, c: Cap)
    requires
        distinct_cap_ids(old(v)@),
    ensures
        distinct_cap_ids(final(v)@),
        cap_map(final(v)@) == cap_map(old(v)@).insert(c.id@, c@),
{
    let ghost before = v@;
    let ghost cv = c@;
    let mut i: usize = 0;
    while i < v.len()
        invariant
            v@ == before,
            before == old(v)@,
            cv == c@,
            distinct_cap_ids(before),
            i <= v@.len(),
            forall|k: int| 0 <= k < i ==> v@[k].id@ != cv.id,
        decreases v@.len() - i,
    {
        if v[i].id == c.id {
            v.set(i, c);
            proof {
                assert forall|a: int, b: int| 0 <= a < b < v@.len() implies v@[a].id@ != v@[b].id@ by {
                    if a != i && b != i {
                        assert(v@[a] == before[a] && v@[b] == before[b]);
                    } else if a == i {
                        assert(v@[b] == before[b]);
                        assert(before[a].id@ != before[b].id@);
                    } else {
                        assert(v@[a] == before[a]);
                        assert(before[a].id@ != before[b].id@);
                    }
                }
                assert(cap_map(v@) =~= cap_map(before).insert(cv.id, cv)) by {
                    assert forall|k: Seq<char>| #[trigger] cap_map(v@).contains_key(k) implies cap_map(
                        before,
                    ).insert(cv.id, cv).contains_key(k) by {
                        let j = choose|j: int| 0 <= j < v@.len() && v@[j].id@ == k;
                        if j != i {
                            assert(v@[j] == before[j]);
                        }
                    }
                    assert forall|k: Seq<char>| #[trigger] cap_map(before).insert(
                        cv.id,
                        cv,
                    ).contains_key(k) implies cap_map(v@).contains_key(k) by {
                        if k == cv.id {
                            assert(v@[i as int].id@ == k);
                        } else {
                            let j = choose|j: int| 0 <= j < before.len() && before[j].id@ == k;
                            assert(v@[j] == before[j]);
                        }
                    }
                    assert forall|k: Seq<char>| #[trigger] cap_map(v@).contains_key(k) implies cap_map(
                        v@,
                    )[k] == cap_map(before).insert(cv.id, cv)[k] by {
                        let j = choose|j: int| 0 <= j < v@.len() && v@[j].id@ == k;
                        lemma_cap_map_at(v@, j);
                        if j != i {
                            assert(v@[j] == before[j]);
                            lemma_cap_map_at(before, j);
                            if j < i {
                                assert(v@[j].id@ != v@[i as int].id@);
                            } else {
                                assert(v@[i as int].id@ != v@[j].id@);
                            }
                        }
                    }
                }
            }
            return;
        }
        i = i + 1;
    }
    v.push(c);
    proof {
        assert forall|a: int, b: int| 0 <= a < b < v@.len() implies v@[a].id@ != v@[b].id@ by {
            assert(v@[a] == before[a]);
            if b < before.len() {
                assert(v@[b] == before[b]);
            }
        }
        assert(cap_map(v@) =~= cap_map(before).insert(cv.id, cv)) by {
            assert forall|k: Seq<char>| #[trigger] cap_map(v@).contains_key(k) implies cap_map(
                before,
            ).insert(cv.id, cv).contains_key(k) by {
                let j = choose|j: int| 0 <= j < v@.len() && v@[j].id@ == k;
                if j < before.len() {
                    assert(v@[j] == before[j]);
                }
            }
            assert forall|k: Seq<char>| #[trigger] cap_map(before).insert(cv.id, cv).contains_key(
                k,
            ) implies cap_map(v@).contains_key(k) by {
                if k == cv.id {
                    assert(v@[before.len() as int].id@ == k);
                } else {
                    let j = choose|j: int| 0 <= j < before.len() && before[j].id@ == k;
                    assert(v@[j] == before[j]);
                }
            }
            assert forall|k: Seq<char>| #[trigger] cap_map(v@).contains_key(k) implies cap_map(v@)[k]
                == cap_map(before).insert(cv.id, cv)[k] by {
                let j = choose|j: int| 0 <= j < v@.len() && v@[j].id@ == k;
                lemma_cap_map_at(v@, j);
                if j < before.len() {
                    assert(v@[j] == before[j]);
                    lemma_cap_map_at(before, j);
                }
            }
        }
    }
}

/// The values of a list of caps.
pub open spec fn caps_view(v: Seq<Cap>) -> Seq<CapValue> {
    v.map_values(|c: Cap| c@)
}

/// The caps of `v`, later ones taking the place of earlier ones with the
/// same id.
pub open spec fn cap_fold(m: Map<Seq<char>, CapValue>, v: Seq<CapValue>) -> Map<Seq<char>, CapValue>
    decreases v.len(),
{
    if v.len() == 0 {
        m
    } else {
        cap_fold(m, v.drop_last()).insert(v.last().id, v.last())
    }
}

/// Builds a set of caps, by the id of the parent each belongs to.
pub struct CapsBuilder {
    value: Vec<Cap>,
}

impl CapsBuilder {
    /// The caps gathered so far, by id.
    pub closed spec fn caps(&self) -> Map<Seq<char>, CapValue> {
        cap_map(self.value@)
    }

    pub closed spec fn wf(&self) -> bool {
        distinct_cap_ids(self.value@)
    }

    pub fn new() -> (b: CapsBuilder)
        ensures
            b.wf(),
            b.caps() == Map::<Seq<char>, CapValue>::empty(),
    {
        let b = CapsBuilder { value: Vec::new() };
        assert(b.caps() =~= Map::<Seq<char>, CapValue>::empty());
        b
    }

    /// Adds caps, each in place of any earlier one with the same id.
    pub fn add(self, other: Vec<Cap>) -> (b: CapsBuilder)
        requires
            self.wf(),
        ensures
            b.wf(),
            b.caps() == cap_fold(self.caps(), caps_view(other@)),
    {
        let ghost start = self.caps();
        let mut s = self;
        let mut rest = other;
        let ghost all = rest@;
        let total = rest.len();
        let mut n: usize = 0;
        while rest.len() > 0
            invariant
                s.wf(),
                n + rest@.len() == all.len(),
                all.len() == total,
                rest@ == all.skip(n as int),
                s.caps() == cap_fold(start, caps_view(all.take(n as int))),
            decreases rest@.len(),
        {
            let c = rest.remove(0);
            proof {
                assert(c == all[n as int]);
                assert(caps_view(all.take(n + 1)).drop_last() =~= caps_view(all.take(n as int)));
                assert(caps_view(all.take(n + 1)).last() == c@);
            }
            insert_cap(&mut s.value, c);
            n = n + 1;
            assert(rest@ =~= all.skip(n as int));
        }
        assert(all.take(n as int) =~= all);
        s
    }

    pub fn add_some(self, other: Option<Vec<Cap>>) -> (b: CapsBuilder)
        requires
            self.wf(),
        ensures
            b.wf(),
            b.caps() == match other {
                Some(o) => cap_fold(self.caps(), caps_view(o@)),
                None => self.caps(),
            },
    {
        match other {
            Some(o) => self.add(o),
            None => self,
        }
    }

    pub fn done(self) -> (v: Vec<Cap>)
        requires
            self.wf(),
        ensures
            distinct_cap_ids(v@),
            cap_map(v@) == self.caps(),
    {
        self.value
    }
}

/// The caps of `a` and `b` together, those of `b` taking the place of any of
/// `a` with the same id.
pub fn join_caps(a: &Vec<Cap>, b: &Vec<Cap>) -> (r: Vec<Cap>)
    ensures
        distinct_cap_ids(r@),
        cap_map(r@) == cap_fold(cap_fold(Map::empty(), caps_view(a@)), caps_view(b@)),
{
    let a2 = crate::instance::copy_caps(a);
    let b2 = crate::instance::copy_caps(b);
    assert(caps_view(a2@) =~= caps_view(a@));
    assert(caps_view(b2@) =~= caps_view(b@));
    CapsBuilder::new().add(a2).add(b2).done()
}

/// Folding caps, the last cap of each id wins.
pub proof fn lemma_cap_fold_last_wins(m: Map<Seq<char>, CapValue>, v: Seq<CapValue>, k: int)
    requires
        0 <= k < v.len(),
        forall|j: int| k < j < v.len() ==> (#[trigger] v[j]).id != v[k].id,
    ensures
        cap_fold(m, v).contains_key(v[k].id),
        cap_fold(m, v)[v[k].id] == v[k],
    decreases v.len(),
{
    if k < v.len() - 1 {
        lemma_cap_fold_last_wins(m, v.drop_last(), k);
    }
}

/// Folding caps none of which has the id keeps what the map has for it.
pub proof fn lemma_cap_fold_untouched(m: Map<Seq<char>, CapValue>, v: Seq<CapValue>, id: Seq<char>)
    requires
        forall|j: int| 0 <= j < v.len() ==> (#[trigger] v[j]).id != id,
    ensures
        cap_fold(m, v).contains_key(id) == m.contains_key(id),
        m.contains_key(id) ==> cap_fold(m, v)[id] == m[id],
    decreases v.len(),
{
    if v.len() > 0 {
        lemma_cap_fold_untouched(m, v.drop_last(), id);
    }
}

} // verus!
