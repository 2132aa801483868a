//! The tag index: which entities currently carry which tag.
//!
//! A tag's membership is an ordered sequence of entities without
//! duplicates; insertion order is preserved for deterministic iteration
//! but carries no further meaning. A tag that was never touched and a tag
//! whose last member was removed both answer with the empty sequence.

use vstd::prelude::*;
use std::collections::HashMap;
use crate::allocator::distinct_seq;
use crate::EntityID;
use crate::TagID;

verus! {

broadcast use vstd::std_specs::hash::group_hash_axioms;

/// Adding an entity to a membership sequence: appended at the end unless
/// already present (idempotent).
pub open spec fn tag_result(s: Seq<EntityID>, e: EntityID) -> Seq<EntityID> {
    if s.contains(e) {
        s
    } else {
        s.push(e)
    }
}

/// Removing the first occurrence of an entity from a membership sequence
/// (the only occurrence, since memberships hold no duplicates).
pub open spec fn untag_result(s: Seq<EntityID>, e: EntityID) -> Seq<EntityID>
    decreases s.len(),
{
    if s.len() == 0 {
        s
    } else if s[0] == e {
        s.drop_first()
    } else {
        seq![s[0]] + untag_result(s.drop_first(), e)
    }
}

/// Maps each tag to the ordered set of entities currently carrying it.
pub struct TagIndex {
    sets: HashMap<TagID, Vec<EntityID>>,
}

impl TagIndex {
    /// The memberships of every tag that has ever been touched.
    pub closed spec fn sets_map(self) -> Map<TagID, Seq<EntityID>> {
        Map::new(
            |t: TagID| self.sets@.contains_key(t),
            |t: TagID| self.sets@[t]@,
        )
    }

    /// The entities carrying tag `t`, in insertion order; empty both for a
    /// tag that lost all members and for one never seen.
    pub open spec fn members(self, t: TagID) -> Seq<EntityID> {
        if self.sets_map().contains_key(t) {
            self.sets_map()[t]
        } else {
            Seq::empty()
        }
    }

    /// No tag's membership holds an entity twice.
    pub open spec fn inv(self) -> bool {
        forall|t: TagID| distinct_seq(#[trigger] self.members(t))
    }

    /// An index with no memberships at all.
    pub fn new() -> (x: TagIndex)
        ensures
            x.inv(),
            x.sets_map() == Map::<TagID, Seq<EntityID>>::empty(),
            forall|t: TagID| #[trigger] x.members(t) == Seq::<EntityID>::empty(),
    {
        let x = TagIndex { sets: HashMap::new() };
        proof {
            assert(x.sets_map() =~= Map::<TagID, Seq<EntityID>>::empty());
            assert forall|t: TagID| #[trigger] x.members(t) == Seq::<EntityID>::empty() by {
                assert(!x.sets@.contains_key(t));
            }
        }
        x
    }

    /// Adds `e` to the members of `t`; no effect when already present.
    pub fn tag(&mut self, e: EntityID, t: TagID)
        requires
            old(self).inv(),
        ensures
            final(self).inv(),
            final(self).members(t) == tag_result(old(self).members(t), e),
            forall|t2: TagID| t2 != t ==>
                #[trigger] final(self).members(t2) == old(self).members(t2),
    {
        let existing = self.sets.remove(&t);
        match existing {
            None => {
                let mut v: Vec<EntityID> = Vec::new();
                v.push(e);
                self.sets.insert(t, v);
                proof {
                    assert(!old(self).sets_map().contains_key(t));
                    assert(self.sets@ == old(self).sets@.insert(t, self.sets@[t]));
                    assert(self.members(t) =~= old(self).members(t).push(e));
                    assert(!old(self).members(t).contains(e));
                    lemma_members_framed(*old(self), *self, t);
                }
            },
            Some(v) => {
                let mut v = v;
                let present = contains_entity(&v, e);
                if !present {
                    v.push(e);
                }
                self.sets.insert(t, v);
                proof {
                    assert(old(self).sets_map().contains_key(t));
                    assert(old(self).members(t) == old(self).sets@[t]@);
                    if present {
                        assert(self.members(t) =~= old(self).members(t));
                    } else {
                        assert(self.members(t) =~= old(self).members(t).push(e));
                        lemma_distinct_push(old(self).members(t), e);
                    }
                    lemma_members_framed(*old(self), *self, t);
                }
            },
        }
    }

    /// Removes `e` from the members of `t`; no effect when absent.
    pub fn untag(&mut self, e: EntityID, t: TagID)
        requires
            old(self).inv(),
        ensures
            final(self).inv(),
            final(self).members(t) == untag_result(old(self).members(t), e),
            forall|t2: TagID| t2 != t ==>
                #[trigger] final(self).members(t2) == old(self).members(t2),
    {
        let existing = self.sets.remove(&t);
        match existing {
            None => {
                proof {
                    assert(self.sets@ == old(self).sets@.remove(t));
                    assert(old(self).members(t) == Seq::<EntityID>::empty());
                    assert(self.members(t) =~= old(self).members(t));
                    assert(untag_result(Seq::<EntityID>::empty(), e)
                        == Seq::<EntityID>::empty());
                    lemma_members_framed(*old(self), *self, t);
                }
            },
            Some(v) => {
                let mut v = v;
                let ghost pre = v@;
                proof {
                    assert(old(self).members(t) == pre);
                    assert(distinct_seq(pre));
                }
                let mut i: usize = 0;
                let mut found: bool = false;
                while i < v.len() && !found
                    invariant
                        0 <= i <= v@.len(),
                        v@ == pre,
                        found ==> i < v@.len() && pre[i as int] == e,
                        forall|j: int| 0 <= j < i ==> pre[j] != e,
                    decreases v@.len() - i + (if found { 0int } else { 1int }),
                {
                    if v[i] == e {
                        found = true;
                    } else {
                        i = i + 1;
                    }
                }
                if found {
                    v.remove(i);
                    proof {
                        lemma_remove_at_first_index(pre, e, i as int);
                        lemma_distinct_remove(pre, i as int);
                    }
                } else {
                    proof {
                        assert(!pre.contains(e));
                        lemma_untag_absent(pre, e);
                    }
                }
                self.sets.insert(t, v);
                proof {
                    assert(old(self).members(t) == pre);
                    assert(self.members(t) =~= v@);
                    lemma_members_framed(*old(self), *self, t);
                }
            },
        }
    }

    /// The current members of `t`, as a fresh vector.
    pub fn entities_with(&self, t: TagID) -> (r: Vec<EntityID>)
        ensures
            r@ == self.members(t),
    {
        let found = self.sets.get(&t);
        match found {
            None => {
                let r: Vec<EntityID> = Vec::new();
                proof {
                    assert(!self.sets_map().contains_key(t));
                }
                r
            },
            Some(v) => {
                let mut r: Vec<EntityID> = Vec::new();
                let mut i: usize = 0;
                while i < v.len()
                    invariant
                        0 <= i <= v@.len(),
                        r@ == v@.take(i as int),
                    decreases v@.len() - i,
                {
                    r.push(v[i]);
                    proof {
                        assert(r@ =~= v@.take(i + 1));
                    }
                    i = i + 1;
                }
                proof {
                    assert(r@ =~= v@);
                }
                r
            },
        }
    }
}

/// Memberships of all tags other than `t` agree when the underlying maps
/// agree outside `t`.
proof fn lemma_members_framed(a: TagIndex, b: TagIndex, t: TagID)
    requires
        forall|t2: TagID| t2 != t ==> (a.sets_map().contains_key(t2)
            <==> b.sets_map().contains_key(t2)),
        forall|t2: TagID| t2 != t && a.sets_map().contains_key(t2)
            ==> a.sets_map()[t2] == b.sets_map()[t2],
    ensures
        forall|t2: TagID| t2 != t ==> #[trigger] b.members(t2) == a.members(t2),
{
}

/// Appending a fresh element keeps a sequence duplicate-free.
proof fn lemma_distinct_push(s: Seq<EntityID>, e: EntityID)
    requires
        distinct_seq(s),
        !s.contains(e),
    ensures
        distinct_seq(s.push(e)),
{
    assert forall|i: int, j: int| 0 <= i < j < s.push(e).len() implies
        s.push(e)[i] != s.push(e)[j] by {
        if j == s.len() {
            assert(s.push(e)[i] == s[i]);
        }
    }
}

/// Removing an element keeps a sequence duplicate-free.
proof fn lemma_distinct_remove(s: Seq<EntityID>, i: int)
    requires
        distinct_seq(s),
        0 <= i < s.len(),
    ensures
        distinct_seq(s.remove(i)),
{
    assert forall|p: int, q: int| 0 <= p < q < s.remove(i).len() implies
        s.remove(i)[p] != s.remove(i)[q] by {
        let p0 = if p < i { p } else { p + 1 };
        let q0 = if q < i { q } else { q + 1 };
        assert(s.remove(i)[p] == s[p0]);
        assert(s.remove(i)[q] == s[q0]);
    }
}

/// Removing a sequence's first occurrence of `e` by index equals the
/// specification-level removal.
proof fn lemma_remove_at_first_index(s: Seq<EntityID>, e: EntityID, i: int)
    requires
        0 <= i < s.len(),
        s[i] == e,
        forall|j: int| 0 <= j < i ==> s[j] != e,
    ensures
        s.remove(i) == untag_result(s, e),
    decreases i,
{
    if i == 0 {
        assert(s.remove(0) =~= s.drop_first());
    } else {
        lemma_remove_at_first_index(s.drop_first(), e, i - 1);
        assert(s.drop_first().remove(i - 1) == untag_result(s.drop_first(), e));
        assert(untag_result(s, e) == seq![s[0]] + untag_result(s.drop_first(), e));
        assert(s.remove(i) =~= seq![s[0]] + s.drop_first().remove(i - 1));
    }
}

/// Removing an absent entity changes nothing.
pub proof fn lemma_untag_absent(s: Seq<EntityID>, e: EntityID)
    requires
        !s.contains(e),
    ensures
        untag_result(s, e) == s,
    decreases s.len(),
{
    if s.len() > 0 {
        assert(s[0] != e);
        assert(forall|j: int| 0 <= j < s.drop_first().len()
            ==> s.drop_first()[j] == s[j + 1]);
        assert(!s.drop_first().contains(e)) by {
            if s.drop_first().contains(e) {
                let j = choose|j: int|
                    0 <= j < s.drop_first().len() && s.drop_first()[j] == e;
                assert(s[j + 1] == e);
            }
        }
        lemma_untag_absent(s.drop_first(), e);
        assert(untag_result(s, e) =~= s);
    }
}

/// Tagging an entity and then untagging it restores the membership of that
/// tag exactly, provided the entity was not already a member. (When it
/// already was, tagging is a no-op but untagging still removes it, so the
/// round trip does not hold there.)
pub proof fn lemma_tag_untag_round_trip(s: Seq<EntityID>, e: EntityID)
    requires
        !s.contains(e),
    ensures
        untag_result(tag_result(s, e), e) == s,
    decreases s.len(),
{
    assert(tag_result(s, e) == s.push(e));
    lemma_untag_of_push(s, e);
}

/// Untagging the entity just appended removes exactly that appendage.
proof fn lemma_untag_of_push(s: Seq<EntityID>, e: EntityID)
    requires
        !s.contains(e),
    ensures
        untag_result(s.push(e), e) == s,
    decreases s.len(),
{
    let p = s.push(e);
    if s.len() == 0 {
        assert(p[0] == e);
        assert(untag_result(p, e) =~= s);
    } else {
        assert(s[0] != e);
        assert(p[0] == s[0]);
        assert(p.drop_first() =~= s.drop_first().push(e));
        assert(!s.drop_first().contains(e)) by {
            if s.drop_first().contains(e) {
                let j = choose|j: int|
                    0 <= j < s.drop_first().len() && s.drop_first()[j] == e;
                assert(s[j + 1] == e);
            }
        }
        lemma_untag_of_push(s.drop_first(), e);
        assert(untag_result(p, e) =~= seq![p[0]] + untag_result(p.drop_first(), e));
        assert(untag_result(p, e) =~= s);
    }
}

/// How often an entity occurs in a membership sequence.
pub open spec fn occurrences(s: Seq<EntityID>, e: EntityID) -> nat
    decreases s.len(),
{
    if s.len() == 0 {
        0
    } else {
        occurrences(s.drop_last(), e) + (if s.last() == e { 1nat } else { 0nat })
    }
}

/// In a duplicate-free sequence every element occurs exactly once and
/// every non-element zero times.
pub proof fn lemma_occurrences_distinct(s: Seq<EntityID>, e: EntityID)
    requires
        distinct_seq(s),
    ensures
        s.contains(e) ==> occurrences(s, e) == 1,
        !s.contains(e) ==> occurrences(s, e) == 0,
    decreases s.len(),
{
    if s.len() > 0 {
        let d = s.drop_last();
        assert(forall|j: int| 0 <= j < d.len() ==> d[j] == s[j]);
        lemma_occurrences_distinct(d, e);
        if s.last() == e {
            assert(!d.contains(e)) by {
                if d.contains(e) {
                    let j = choose|j: int| 0 <= j < d.len() && d[j] == e;
                    assert(s[j] == s[s.len() - 1]);
                }
            }
            assert(s.contains(e));
        } else {
            if s.contains(e) {
                let j = choose|j: int| 0 <= j < s.len() && s[j] == e;
                assert(j < s.len() - 1);
                assert(d[j] == e);
                assert(d.contains(e));
            }
            if d.contains(e) {
                let j = choose|j: int| 0 <= j < d.len() && d[j] == e;
                assert(s[j] == e);
            }
        }
    }
}

/// Tagging the same entity twice with the same tag leaves its membership
/// with exactly one occurrence of that entity: tagging is idempotent.
pub proof fn lemma_tag_idempotent(s: Seq<EntityID>, e: EntityID)
    requires
        distinct_seq(s),
    ensures
        tag_result(tag_result(s, e), e) == tag_result(s, e),
        occurrences(tag_result(s, e), e) == 1,
{
    let s1 = tag_result(s, e);
    if s.contains(e) {
        lemma_occurrences_distinct(s, e);
    } else {
        lemma_distinct_push(s, e);
        assert(s1.last() == e);
        assert(s1.contains(e));
        lemma_occurrences_distinct(s1, e);
    }
    assert(s1.contains(e)) by {
        if !s.contains(e) {
            assert(s1.last() == e);
        }
    }
}

/// True when `v` holds `e`.
fn contains_entity(v: &Vec<EntityID>, e: EntityID) -> (r: bool)
    ensures
        r == v@.contains(e),
{
    let mut i: usize = 0;
    while i < v.len()
        invariant
            0 <= i <= v@.len(),
            forall|j: int| 0 <= j < i ==> v@[j] != e,
        decreases v@.len() - i,
    {
        if v[i] == e {
            return true;
        }
        i = i + 1;
    }
    false
}

} // verus!
