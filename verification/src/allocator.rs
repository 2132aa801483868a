//! Entity identifier allocation with reuse.
//!
//! [`IDTracker`] issues the smallest never-issued identifier unless a
//! previously freed one is available, in which case it hands a freed one
//! back (last freed first). Freeing the most recently issued live
//! identifier compacts the high-water mark instead of growing the free
//! pool, so a create/destroy-in-reverse-order workload never grows the
//! pool.

use vstd::prelude::*;

verus! {

/// True when `s` holds no element twice.
pub open spec fn distinct_seq(s: Seq<u32>) -> bool {
    forall|i: int, j: int| 0 <= i < j < s.len() ==> s[i] != s[j]
}

/// Issues and recycles entity identifiers.
pub struct IDTracker {
    next_id: u32,
    free_ids: Vec<u32>,
}

impl IDTracker {
    /// The high-water mark: identifiers at or above it were never issued.
    pub closed spec fn next(self) -> u32 {
        self.next_id
    }

    /// The pool of freed identifiers, oldest first.
    pub closed spec fn free(self) -> Seq<u32> {
        self.free_ids@
    }

    /// Every pooled identifier was issued before, and none is pooled twice.
    pub open spec fn wf(self) -> bool {
        &&& distinct_seq(self.free())
        &&& forall|i: int| 0 <= i < self.free().len() ==> self.free()[i] < self.next()
    }

    /// An identifier is live when it was issued and not freed since.
    pub open spec fn live(self, id: u32) -> bool {
        id < self.next() && !self.free().contains(id)
    }

    /// Allocation cannot exhaust the identifier space.
    pub open spec fn can_allocate(self) -> bool {
        self.free().len() > 0 || self.next() < u32::MAX
    }

    /// How one allocation changes the tracker: the last pooled identifier
    /// leaves the pool, or, with an empty pool, the high-water mark is
    /// issued and incremented.
    pub open spec fn alloc_transition(pre: IDTracker, post: IDTracker, id: u32) -> bool {
        if pre.free().len() > 0 {
            &&& id == pre.free().last()
            &&& post.free() == pre.free().drop_last()
            &&& post.next() == pre.next()
        } else {
            &&& id == pre.next()
            &&& post.next() == pre.next() + 1
            &&& post.free() == pre.free()
        }
    }

    /// How freeing `id` changes the tracker: the most recently issued live
    /// identifier compacts the high-water mark, any other one joins the
    /// pool.
    pub open spec fn free_transition(pre: IDTracker, post: IDTracker, id: u32) -> bool {
        if id == pre.next() - 1 {
            &&& post.next() == id
            &&& post.free() == pre.free()
        } else {
            &&& post.next() == pre.next()
            &&& post.free() == pre.free().push(id)
        }
    }

    /// A tracker that has issued nothing.
    pub fn new() -> (t: IDTracker)
        ensures
            t.wf(),
            t.next() == 0,
            t.free() == Seq::<u32>::empty(),
    {
        IDTracker { next_id: 0, free_ids: Vec::new() }
    }

    /// Returns an identifier that is not live, preferring the pool.
    /// Exhaustion of the identifier space is fatal and excluded up front.
    pub fn next_id(&mut self) -> (id: u32)
        requires
            old(self).wf(),
            old(self).can_allocate(),
        ensures
            final(self).wf(),
            IDTracker::alloc_transition(*old(self), *final(self), id),
            !old(self).live(id),
            final(self).live(id),
            forall|x: u32| x != id ==> (final(self).live(x) <==> old(self).live(x)),
    {
        if self.free_ids.len() == 0 {
            let id = self.next_id;
            self.next_id = self.next_id + 1;
            id
        } else {
            let id = self.free_ids.pop().unwrap();
            proof {
                assert(old(self).free().drop_last().push(id) == old(self).free());
                assert forall|x: u32| x != id implies
                    (self.live(x) <==> old(self).live(x)) by {
                    assert(self.free().contains(x) ==> old(self).free().contains(x));
                    if old(self).free().contains(x) {
                        let i = choose|i: int|
                            0 <= i < old(self).free().len() && old(self).free()[i] == x;
                        assert(i < old(self).free().len() - 1);
                        assert(self.free()[i] == x);
                    }
                }
                assert(!self.free().contains(id)) by {
                    if self.free().contains(id) {
                        let i = choose|i: int|
                            0 <= i < self.free().len() && self.free()[i] == id;
                        assert(old(self).free()[i] == old(self).free().last());
                    }
                }
            }
            id
        }
    }

    /// Returns a live identifier to the allocator. Freeing one that is not
    /// live is a caller error and excluded up front.
    pub fn free_id(&mut self, id: u32)
        requires
            old(self).wf(),
            old(self).live(id),
        ensures
            final(self).wf(),
            IDTracker::free_transition(*old(self), *final(self), id),
            !final(self).live(id),
            forall|x: u32| x != id ==> (final(self).live(x) <==> old(self).live(x)),
    {
        if id == self.next_id - 1 {
            self.next_id = self.next_id - 1;
        } else {
            self.free_ids.push(id);
            proof {
                assert(self.free() == old(self).free().push(id));
                assert(self.free().last() == id);
                assert(self.free().contains(id));
                assert forall|x: u32| x != id implies
                    (self.live(x) <==> old(self).live(x)) by {
                    if old(self).free().contains(x) {
                        let i = choose|i: int|
                            0 <= i < old(self).free().len() && old(self).free()[i] == x;
                        assert(self.free()[i] == x);
                    }
                    if self.free().contains(x) {
                        let i = choose|i: int|
                            0 <= i < self.free().len() && self.free()[i] == x;
                        assert(i < self.free().len() - 1);
                        assert(old(self).free()[i] == x);
                    }
                }
            }
        }
    }
}

/// An allocation never hands out an identifier that is already live, and
/// makes it live: hence, over any sequence of allocations and frees that
/// respects the preconditions, no two simultaneously live entities share an
/// identifier.
pub proof fn lemma_alloc_returns_fresh(pre: IDTracker, post: IDTracker, id: u32)
    requires
        pre.wf(),
        IDTracker::alloc_transition(pre, post, id),
    ensures
        !pre.live(id),
        post.live(id),
{
    if pre.free().len() > 0 {
        assert(pre.free().contains(id));
        assert(!post.free().contains(id)) by {
            if post.free().contains(id) {
                let i = choose|i: int|
                    0 <= i < post.free().len() && post.free()[i] == id;
                assert(pre.free()[i] == pre.free().last());
            }
        }
    } else {
        assert(post.free() == pre.free());
    }
}

/// Two consecutive allocations return distinct identifiers: the first is
/// live while the second is drawn, and allocation never returns a live one.
pub proof fn lemma_consecutive_allocations_distinct(
    t0: IDTracker,
    t1: IDTracker,
    t2: IDTracker,
    a: u32,
    b: u32,
)
    requires
        t0.wf(),
        IDTracker::alloc_transition(t0, t1, a),
        IDTracker::alloc_transition(t1, t2, b),
    ensures
        a != b,
{
    lemma_alloc_returns_fresh(t0, t1, a);
    lemma_allocation_preserves_wf(t0, t1, a);
    lemma_alloc_returns_fresh(t1, t2, b);
}

/// The allocation transition preserves well-formedness.
pub proof fn lemma_allocation_preserves_wf(pre: IDTracker, post: IDTracker, id: u32)
    requires
        pre.wf(),
        IDTracker::alloc_transition(pre, post, id),
    ensures
        post.wf(),
{
    if pre.free().len() > 0 {
        assert forall|i: int| 0 <= i < post.free().len() implies
            post.free()[i] < post.next() by {
            assert(post.free()[i] == pre.free()[i]);
        }
    }
}

/// Freeing the most recently issued identifier with an empty pool, then
/// allocating, returns that same identifier: the compaction path undoes
/// itself. (With a non-empty pool the next allocation draws from the pool
/// instead, so the pool must be empty here.)
pub proof fn lemma_free_top_then_alloc_returns_same(
    t0: IDTracker,
    t1: IDTracker,
    t2: IDTracker,
    id: u32,
    id2: u32,
)
    requires
        t0.wf(),
        t0.live(id),
        id == t0.next() - 1,
        t0.free().len() == 0,
        IDTracker::free_transition(t0, t1, id),
        IDTracker::alloc_transition(t1, t2, id2),
    ensures
        id2 == id,
{
}

/// Freeing an identifier below the high-water mark, then allocating,
/// returns exactly that previously freed identifier — never a fresh one —
/// and every other pooled identifier stays in the pool.
pub proof fn lemma_free_nontop_then_alloc_returns_freed(
    t0: IDTracker,
    t1: IDTracker,
    t2: IDTracker,
    id: u32,
    id2: u32,
)
    requires
        t0.wf(),
        t0.live(id),
        id != t0.next() - 1,
        IDTracker::free_transition(t0, t1, id),
        IDTracker::alloc_transition(t1, t2, id2),
    ensures
        t1.free().contains(id2),
        id2 == id,
        t2.free() == t0.free(),
{
    assert(t1.free() == t0.free().push(id));
    assert(t1.free().last() == id);
    assert(t1.free().contains(id2));
    assert(t2.free() == t1.free().drop_last());
    assert(t2.free() =~= t0.free());
}

} // verus!
