//! The world: the aggregate owning the entity allocator, the registry of
//! per-component-type storages, and the tag index.
//!
//! The world is the single source of truth. Component slots are read
//! through [`ReadAccess`] and written through [`WriteAccess`] views, which
//! are move-only values handed out by the world and given back to it;
//! while a view is out, the slot's borrow state records it, and a
//! conflicting acquisition fails with [`EcsError::Conflict`].
//!
//! Its model is three pieces: the allocator state, the registry — a map
//! from registered component key to that storage's snapshot — and the tag
//! memberships.

use vstd::prelude::*;
use std::collections::HashMap;
use crate::allocator::IDTracker;
use crate::storage::AnyStorage;
use crate::storage::BorrowState;
use crate::storage::ComponentStorage;
use crate::storage::StorageKind;
use crate::storage::get_mut_post;
use crate::storage::get_post;
use crate::storage::peek_result;
use crate::storage::put_post;
use crate::storage::release_exclusive_post;
use crate::storage::release_shared_post;
use crate::storage::remove_post;
use crate::storage::snap_borrow;
use crate::storage::snap_value;
use crate::tags::TagIndex;
use crate::tags::tag_result;
use crate::tags::untag_result;
use crate::CompID;
use crate::Component;
use crate::EcsError;
use crate::EntityID;
use crate::TagID;

verus! {

broadcast use vstd::std_specs::hash::group_hash_axioms;

/// A shared (read) view of one component slot: a snapshot of the value,
/// held until given back with [`World::release_read`].
pub struct ReadAccess<C: Component> {
    comp: CompID,
    id: EntityID,
    value: C,
}

impl<C: Component> ReadAccess<C> {
    /// The component type this view reads.
    pub closed spec fn comp_key(self) -> CompID {
        self.comp
    }

    /// The entity whose slot this view reads.
    pub closed spec fn entity(self) -> EntityID {
        self.id
    }

    /// The value seen.
    pub closed spec fn val(self) -> C {
        self.value
    }

    /// The component type this view reads.
    pub fn component_id(&self) -> (k: CompID)
        ensures
            k == self.comp_key(),
    {
        self.comp
    }

    /// The entity whose slot this view reads.
    pub fn entity_id(&self) -> (e: EntityID)
        ensures
            e == self.entity(),
    {
        self.id
    }

    /// The value seen.
    pub fn value(&self) -> (v: C)
        ensures
            v == self.val(),
    {
        self.value
    }

    /// The shared view of slot `(comp, id)` seeing `value`, at
    /// specification level.
    pub closed spec fn of(comp: CompID, id: EntityID, value: C) -> ReadAccess<C> {
        ReadAccess { comp, id, value }
    }
}

/// The projections of a specification-built shared view.
pub proof fn lemma_read_view_of<C: Component>(comp: CompID, id: EntityID, value: C)
    ensures
        (ReadAccess::of(comp, id, value)).comp_key() == comp,
        (ReadAccess::of(comp, id, value)).entity() == id,
        (ReadAccess::of(comp, id, value)).val() == value,
{
}

/// A shared view is nothing but its component key, entity, and value.
pub proof fn lemma_read_view_determined<C: Component>(g: ReadAccess<C>)
    ensures
        g == ReadAccess::of(g.comp_key(), g.entity(), g.val()),
{
}

/// An exclusive (write) view of one component slot: the working value,
/// written back into the slot when given back with
/// [`World::release_write`].
pub struct WriteAccess<C: Component> {
    comp: CompID,
    id: EntityID,
    value: C,
}

impl<C: Component> WriteAccess<C> {
    /// The component type this view writes.
    pub closed spec fn comp_key(self) -> CompID {
        self.comp
    }

    /// The entity whose slot this view writes.
    pub closed spec fn entity(self) -> EntityID {
        self.id
    }

    /// The working value.
    pub closed spec fn val(self) -> C {
        self.value
    }

    /// The component type this view writes.
    pub fn component_id(&self) -> (k: CompID)
        ensures
            k == self.comp_key(),
    {
        self.comp
    }

    /// The entity whose slot this view writes.
    pub fn entity_id(&self) -> (e: EntityID)
        ensures
            e == self.entity(),
    {
        self.id
    }

    /// The working value.
    pub fn value(&self) -> (v: C)
        ensures
            v == self.val(),
    {
        self.value
    }

    /// Replaces the working value; what the slot will hold once the view
    /// is given back.
    pub fn set_value(&mut self, v: C)
        ensures
            final(self).comp_key() == old(self).comp_key(),
            final(self).entity() == old(self).entity(),
            final(self).val() == v,
    {
        self.value = v;
    }

    /// The exclusive view of slot `(comp, id)` working on `value`, at
    /// specification level.
    pub closed spec fn of(comp: CompID, id: EntityID, value: C) -> WriteAccess<C> {
        WriteAccess { comp, id, value }
    }
}

/// The projections of a specification-built exclusive view.
pub proof fn lemma_write_view_of<C: Component>(comp: CompID, id: EntityID, value: C)
    ensures
        (WriteAccess::of(comp, id, value)).comp_key() == comp,
        (WriteAccess::of(comp, id, value)).entity() == id,
        (WriteAccess::of(comp, id, value)).val() == value,
{
}

/// An exclusive view is nothing but its component key, entity, and value.
pub proof fn lemma_write_view_determined<C: Component>(g: WriteAccess<C>)
    ensures
        g == WriteAccess::of(g.comp_key(), g.entity(), g.val()),
{
}

/// The aggregate owning all entities, component storages, and tag
/// memberships.
pub struct World<C: Component> {
    ids: IDTracker,
    storages: HashMap<CompID, AnyStorage<C>>,
    tags: TagIndex,
}

impl<C: Component> World<C> {
    /// The registry: each registered component key's storage snapshot.
    pub closed spec fn registry(self) -> Map<CompID, Map<EntityID, (C, BorrowState)>> {
        Map::new(
            |k: CompID| self.storages@.contains_key(k),
            |k: CompID| self.storages@[k].snap(),
        )
    }

    /// The tag memberships, per touched tag.
    pub closed spec fn tags_map(self) -> Map<TagID, Seq<EntityID>> {
        self.tags.sets_map()
    }

    /// The entity allocator's state.
    pub closed spec fn id_state(self) -> IDTracker {
        self.ids
    }

    /// The entities carrying tag `t`, in insertion order.
    pub open spec fn tag_members(self, t: TagID) -> Seq<EntityID> {
        if self.tags_map().contains_key(t) {
            self.tags_map()[t]
        } else {
            Seq::empty()
        }
    }

    /// The allocator is well-formed and no tag membership holds
    /// duplicates.
    pub closed spec fn wf(self) -> bool {
        &&& self.ids.wf()
        &&& self.tags.inv()
    }

    /// Whether a storage exists for component key `comp`.
    pub open spec fn registered(self, comp: CompID) -> bool {
        self.registry().contains_key(comp)
    }

    /// The value stored for entity `id` under component key `comp`.
    pub open spec fn comp_value(self, comp: CompID, id: EntityID) -> Option<C> {
        if self.registered(comp) {
            snap_value(self.registry()[comp], id)
        } else {
            None
        }
    }

    /// The borrow state of the slot `(comp, id)`.
    pub open spec fn comp_borrow(self, comp: CompID, id: EntityID) -> BorrowState {
        if self.registered(comp) {
            snap_borrow(self.registry()[comp], id)
        } else {
            BorrowState::Free
        }
    }

    /// No view of any component slot is out.
    pub open spec fn quiescent(self) -> bool {
        forall|comp: CompID, id: EntityID|
            #[trigger] self.comp_borrow(comp, id) == BorrowState::Free
    }

    /// What a momentary fetch of `(comp, id)` answers.
    pub open spec fn fetch_result(self, comp: CompID, id: EntityID) -> Result<C, EcsError> {
        if !self.registered(comp) {
            Err(EcsError::Unregistered)
        } else {
            peek_result(self.registry()[comp], id)
        }
    }

    /// The allocator state and tag memberships agree.
    pub open spec fn frame_all(pre: World<C>, post: World<C>) -> bool {
        &&& post.tags_map() == pre.tags_map()
        &&& post.id_state() == pre.id_state()
    }

    /// The registries agree except possibly at `comp`, which stays
    /// registered.
    pub open spec fn storage_frame(pre: World<C>, post: World<C>, comp: CompID) -> bool {
        &&& pre.registered(comp)
        &&& post.registry() == pre.registry().insert(comp, post.registry()[comp])
    }

    /// After taking `comp`'s storage out and putting a (possibly changed)
    /// one back, the registry changed at `comp` alone.
    proof fn lemma_registry_after_reinsert(pre: World<C>, post: World<C>, comp: CompID)
        requires
            pre.storages@.contains_key(comp),
            post.storages@ == pre.storages@.remove(comp).insert(
                comp,
                post.storages@[comp],
            ),
        ensures
            post.registry() == pre.registry().insert(comp, post.storages@[comp].snap()),
            post.registry()[comp] == post.storages@[comp].snap(),
            World::storage_frame(pre, post, comp),
    {
        assert(post.registry() =~= pre.registry().insert(
            comp,
            post.storages@[comp].snap(),
        ));
        assert(pre.registry().insert(comp, post.registry()[comp])
            =~= post.registry());
    }

    /// A world with nothing registered, nothing tagged, nothing issued.
    pub fn new() -> (w: World<C>)
        ensures
            w.wf(),
            w.quiescent(),
            w.registry() == Map::<CompID, Map<EntityID, (C, BorrowState)>>::empty(),
            w.tags_map() == Map::<TagID, Seq<EntityID>>::empty(),
            w.id_state().next() == 0,
            w.id_state().free() == Seq::<u32>::empty(),
    {
        let w = World {
            ids: IDTracker::new(),
            storages: HashMap::new(),
            tags: TagIndex::new(),
        };
        proof {
            assert(w.registry() =~= Map::<CompID, Map<EntityID, (C, BorrowState)>>::empty());
            assert(w.tags_map() =~= Map::<TagID, Seq<EntityID>>::empty());
            assert forall|comp: CompID, id: EntityID|
                #[trigger] w.comp_borrow(comp, id) == BorrowState::Free by {
                assert(!w.registry().contains_key(comp));
            }
        }
        w
    }

    /// Registers component key `comp` with a storage of the chosen
    /// backing. Registering a key twice is refused.
    pub fn add_storage(&mut self, comp: CompID, kind: StorageKind) -> (r: Result<
        (),
        EcsError,
    >)
        requires
            old(self).wf(),
        ensures
            final(self).wf(),
            World::frame_all(*old(self), *final(self)),
            old(self).registered(comp) ==> r == Err::<(), EcsError>(
                EcsError::AlreadyRegistered,
            ) && final(self).registry() == old(self).registry(),
            !old(self).registered(comp) ==> r == Ok::<(), EcsError>(())
                && final(self).registry() == old(self).registry().insert(
                comp,
                Map::<EntityID, (C, BorrowState)>::empty(),
            ),
    {
        if self.storages.contains_key(&comp) {
            Err(EcsError::AlreadyRegistered)
        } else {
            let st = AnyStorage::new(kind);
            let ghost snap_new = st.snap();
            self.storages.insert(comp, st);
            proof {
                assert(self.registry() =~= old(self).registry().insert(comp, snap_new));
            }
            Ok(())
        }
    }

    /// Registers component key `comp` with the default (sparse, keyed)
    /// backing. Must be called once per component key before any entity
    /// uses it.
    pub fn register_component(&mut self, comp: CompID) -> (r: Result<(), EcsError>)
        requires
            old(self).wf(),
        ensures
            final(self).wf(),
            World::frame_all(*old(self), *final(self)),
            old(self).registered(comp) ==> r == Err::<(), EcsError>(
                EcsError::AlreadyRegistered,
            ) && final(self).registry() == old(self).registry(),
            !old(self).registered(comp) ==> r == Ok::<(), EcsError>(())
                && final(self).registry() == old(self).registry().insert(
                comp,
                Map::<EntityID, (C, BorrowState)>::empty(),
            ),
    {
        self.add_storage(comp, StorageKind::Keyed)
    }

    /// Stores `value` for entity `id` under component key `comp`,
    /// overwriting any present value; refused while a view of that slot is
    /// out, or when `comp` was never registered.
    pub fn insert_comp(&mut self, comp: CompID, id: EntityID, value: C) -> (r: Result<
        (),
        EcsError,
    >)
        requires
            old(self).wf(),
        ensures
            final(self).wf(),
            World::frame_all(*old(self), *final(self)),
            !old(self).registered(comp) ==> r == Err::<(), EcsError>(EcsError::Unregistered)
                && final(self).registry() == old(self).registry(),
            old(self).registered(comp) ==> World::storage_frame(*old(self), *final(self), comp)
                && put_post(
                old(self).registry()[comp],
                final(self).registry()[comp],
                id,
                value,
                r,
            ),
    {
        let taken = self.storages.remove(&comp);
        match taken {
            None => {
                proof {
                    assert(self.registry() =~= old(self).registry());
                }
                Err(EcsError::Unregistered)
            },
            Some(mut st) => {
                let ghost st0 = st;
                let r = st.put(id, value);
                self.storages.insert(comp, st);
                proof {
                    assert(old(self).registry()[comp] == st0.snap());
                    World::lemma_registry_after_reinsert(*old(self), *self, comp);
                }
                r
            },
        }
    }

    /// Reads the current value of slot `(comp, id)` without taking a view;
    /// answers alongside shared views, but not while an exclusive view is
    /// out.
    pub fn get_comp(&self, comp: CompID, id: EntityID) -> (r: Result<C, EcsError>)
        ensures
            r == self.fetch_result(comp, id),
    {
        let found = self.storages.get(&comp);
        match found {
            None => Err(EcsError::Unregistered),
            Some(st) => {
                proof {
                    assert(st.snap() == self.registry()[comp]);
                }
                st.peek(id)
            },
        }
    }

    /// Acquires a shared view of slot `(comp, id)`; fails with a lookup
    /// miss when the entity has no such component, and with a conflict
    /// while an exclusive view of the slot is out.
    pub fn get_component(&mut self, comp: CompID, id: EntityID) -> (r: Result<
        ReadAccess<C>,
        EcsError,
    >)
        requires
            old(self).wf(),
        ensures
            final(self).wf(),
            World::frame_all(*old(self), *final(self)),
            !old(self).registered(comp) ==> r == Err::<ReadAccess<C>, EcsError>(
                EcsError::Unregistered,
            ) && final(self).registry() == old(self).registry(),
            old(self).registered(comp) ==> World::storage_frame(*old(self), *final(self), comp)
                && (match r {
                Ok(g) => g.comp_key() == comp && g.entity() == id && get_post(
                    old(self).registry()[comp],
                    final(self).registry()[comp],
                    id,
                    Ok(g.val()),
                ),
                Err(e) => get_post(
                    old(self).registry()[comp],
                    final(self).registry()[comp],
                    id,
                    Err(e),
                ),
            }),
    {
        let taken = self.storages.remove(&comp);
        match taken {
            None => {
                proof {
                    assert(self.registry() =~= old(self).registry());
                }
                Err(EcsError::Unregistered)
            },
            Some(mut st) => {
                let ghost st0 = st;
                let r = st.get(id);
                self.storages.insert(comp, st);
                proof {
                    assert(old(self).registry()[comp] == st0.snap());
                    World::lemma_registry_after_reinsert(*old(self), *self, comp);
                }
                match r {
                    Ok(v) => Ok(ReadAccess { comp, id, value: v }),
                    Err(e) => Err(e),
                }
            },
        }
    }

    /// Acquires an exclusive view of slot `(comp, id)`; fails with a
    /// lookup miss when the entity has no such component, and with a
    /// conflict while any view of the slot is out.
    pub fn get_comp_mut(&mut self, comp: CompID, id: EntityID) -> (r: Result<
        WriteAccess<C>,
        EcsError,
    >)
        requires
            old(self).wf(),
        ensures
            final(self).wf(),
            World::frame_all(*old(self), *final(self)),
            !old(self).registered(comp) ==> r == Err::<WriteAccess<C>, EcsError>(
                EcsError::Unregistered,
            ) && final(self).registry() == old(self).registry(),
            old(self).registered(comp) ==> World::storage_frame(*old(self), *final(self), comp)
                && (match r {
                Ok(g) => g.comp_key() == comp && g.entity() == id && get_mut_post(
                    old(self).registry()[comp],
                    final(self).registry()[comp],
                    id,
                    Ok(g.val()),
                ),
                Err(e) => get_mut_post(
                    old(self).registry()[comp],
                    final(self).registry()[comp],
                    id,
                    Err(e),
                ),
            }),
    {
        let taken = self.storages.remove(&comp);
        match taken {
            None => {
                proof {
                    assert(self.registry() =~= old(self).registry());
                }
                Err(EcsError::Unregistered)
            },
            Some(mut st) => {
                let ghost st0 = st;
                let r = st.get_mut(id);
                self.storages.insert(comp, st);
                proof {
                    assert(old(self).registry()[comp] == st0.snap());
                    World::lemma_registry_after_reinsert(*old(self), *self, comp);
                }
                match r {
                    Ok(v) => Ok(WriteAccess { comp, id, value: v }),
                    Err(e) => Err(e),
                }
            },
        }
    }

    /// Gives a shared view back; the slot's reader count drops by one.
    pub fn release_read(&mut self, g: ReadAccess<C>) -> (r: Result<(), EcsError>)
        requires
            old(self).wf(),
        ensures
            final(self).wf(),
            World::frame_all(*old(self), *final(self)),
            !old(self).registered(g.comp_key()) ==> r == Err::<(), EcsError>(
                EcsError::Unregistered,
            ) && final(self).registry() == old(self).registry(),
            old(self).registered(g.comp_key()) ==> World::storage_frame(
                *old(self),
                *final(self),
                g.comp_key(),
            ) && release_shared_post(
                old(self).registry()[g.comp_key()],
                final(self).registry()[g.comp_key()],
                g.entity(),
                r,
            ),
    {
        let comp = g.comp;
        let taken = self.storages.remove(&comp);
        match taken {
            None => {
                proof {
                    assert(self.registry() =~= old(self).registry());
                }
                Err(EcsError::Unregistered)
            },
            Some(mut st) => {
                let ghost st0 = st;
                let r = st.release_shared(g.id);
                self.storages.insert(comp, st);
                proof {
                    assert(old(self).registry()[comp] == st0.snap());
                    World::lemma_registry_after_reinsert(*old(self), *self, comp);
                }
                r
            },
        }
    }

    /// Gives an exclusive view back; its working value is written into the
    /// slot, which becomes free again.
    pub fn release_write(&mut self, g: WriteAccess<C>) -> (r: Result<(), EcsError>)
        requires
            old(self).wf(),
        ensures
            final(self).wf(),
            World::frame_all(*old(self), *final(self)),
            !old(self).registered(g.comp_key()) ==> r == Err::<(), EcsError>(
                EcsError::Unregistered,
            ) && final(self).registry() == old(self).registry(),
            old(self).registered(g.comp_key()) ==> World::storage_frame(
                *old(self),
                *final(self),
                g.comp_key(),
            ) && release_exclusive_post(
                old(self).registry()[g.comp_key()],
                final(self).registry()[g.comp_key()],
                g.entity(),
                g.val(),
                r,
            ),
    {
        let comp = g.comp;
        let taken = self.storages.remove(&comp);
        match taken {
            None => {
                proof {
                    assert(self.registry() =~= old(self).registry());
                }
                Err(EcsError::Unregistered)
            },
            Some(mut st) => {
                let ghost st0 = st;
                let r = st.release_exclusive(g.id, g.value);
                self.storages.insert(comp, st);
                proof {
                    assert(old(self).registry()[comp] == st0.snap());
                    World::lemma_registry_after_reinsert(*old(self), *self, comp);
                }
                r
            },
        }
    }

    /// Removes and returns the value of slot `(comp, id)`: the one
    /// operation that transfers ownership out. Refused while a view of the
    /// slot is out.
    pub fn remove_comp(&mut self, comp: CompID, id: EntityID) -> (r: Result<C, EcsError>)
        requires
            old(self).wf(),
        ensures
            final(self).wf(),
            World::frame_all(*old(self), *final(self)),
            !old(self).registered(comp) ==> r == Err::<C, EcsError>(EcsError::Unregistered)
                && final(self).registry() == old(self).registry(),
            old(self).registered(comp) ==> World::storage_frame(*old(self), *final(self), comp)
                && remove_post(
                old(self).registry()[comp],
                final(self).registry()[comp],
                id,
                r,
            ),
    {
        let taken = self.storages.remove(&comp);
        match taken {
            None => {
                proof {
                    assert(self.registry() =~= old(self).registry());
                }
                Err(EcsError::Unregistered)
            },
            Some(mut st) => {
                let ghost st0 = st;
                let r = st.remove(id);
                self.storages.insert(comp, st);
                proof {
                    assert(old(self).registry()[comp] == st0.snap());
                    World::lemma_registry_after_reinsert(*old(self), *self, comp);
                }
                r
            },
        }
    }

    /// The entities currently carrying tag `t`, as a fresh vector: empty
    /// both for an unknown tag and for one whose members all left.
    pub fn entities_with_tag(&self, t: TagID) -> (r: Vec<EntityID>)
        ensures
            r@ == self.tag_members(t),
    {
        self.tags.entities_with(t)
    }

    /// Issues an entity identifier directly, without a builder.
    pub fn next_id(&mut self) -> (id: EntityID)
        requires
            old(self).wf(),
            old(self).id_state().can_allocate(),
        ensures
            final(self).wf(),
            final(self).registry() == old(self).registry(),
            final(self).tags_map() == old(self).tags_map(),
            IDTracker::alloc_transition(old(self).id_state(), final(self).id_state(), id),
    {
        self.ids.next_id()
    }

    /// Opens a builder on a fresh entity; the builder holds the world
    /// exclusively until [`EntityBuilder::done`] gives it back.
    pub fn new_entity(self) -> (b: EntityBuilder<C>)
        requires
            self.wf(),
            self.id_state().can_allocate(),
        ensures
            b.world_state().wf(),
            b.world_state().registry() == self.registry(),
            b.world_state().tags_map() == self.tags_map(),
            IDTracker::alloc_transition(
                self.id_state(),
                b.world_state().id_state(),
                b.entity(),
            ),
    {
        EntityBuilder::new(self)
    }
}

/// A world where a slot holds a value that is not exclusively held
/// answers a momentary fetch with exactly that value; a registered
/// component key with no value for the entity answers with a lookup miss,
/// never a default. Together: storing and then fetching returns the stored
/// value.
pub proof fn lemma_fetch_after_store<C: Component>(
    w: World<C>,
    comp: CompID,
    id: EntityID,
    value: C,
)
    requires
        w.registered(comp),
        w.comp_value(comp, id) == Some(value),
        w.comp_borrow(comp, id) != BorrowState::Exclusive,
    ensures
        w.fetch_result(comp, id) == Ok::<C, EcsError>(value),
{
}

/// A well-formed world embeds a well-formed allocator: its pool holds no
/// identifier twice and only issued ones.
pub proof fn lemma_wf_allocator<C: Component>(w: World<C>)
    requires
        w.wf(),
    ensures
        w.id_state().wf(),
{
}

/// In a well-formed world no tag's membership holds an entity twice.
pub proof fn lemma_wf_tags_distinct<C: Component>(w: World<C>, t: TagID)
    requires
        w.wf(),
    ensures
        crate::allocator::distinct_seq(w.tag_members(t)),
{
    assert(crate::allocator::distinct_seq(w.tags.members(t)));
}

/// Fetching a component never attached to the entity is a lookup miss.
pub proof fn lemma_fetch_miss<C: Component>(w: World<C>, comp: CompID, id: EntityID)
    requires
        w.registered(comp),
        w.comp_value(comp, id) is None,
    ensures
        w.fetch_result(comp, id) == Err::<C, EcsError>(EcsError::Missing),
{
}

/// A transient handle bound to one entity and holding the world
/// exclusively, used to attach components and tags during construction;
/// [`EntityBuilder::done`] releases the world.
pub struct EntityBuilder<C: Component> {
    id: EntityID,
    world: World<C>,
}

impl<C: Component> EntityBuilder<C> {
    /// The entity under construction.
    pub closed spec fn entity(self) -> EntityID {
        self.id
    }

    /// The held world.
    pub closed spec fn world_state(self) -> World<C> {
        self.world
    }

    /// Opens a builder on a freshly allocated entity, so its identifier is
    /// stable before any component is attached.
    pub fn new(world: World<C>) -> (b: EntityBuilder<C>)
        requires
            world.wf(),
            world.id_state().can_allocate(),
        ensures
            b.world_state().wf(),
            b.world_state().registry() == world.registry(),
            b.world_state().tags_map() == world.tags_map(),
            IDTracker::alloc_transition(
                world.id_state(),
                b.world_state().id_state(),
                b.entity(),
            ),
    {
        let mut w = world;
        let id = w.next_id();
        EntityBuilder { id, world: w }
    }

    /// Opens a builder on an existing entity, to modify it.
    pub fn from_id(world: World<C>, id: EntityID) -> (b: EntityBuilder<C>)
        ensures
            b.world_state() == world,
            b.entity() == id,
    {
        EntityBuilder { id, world }
    }

    /// Attaches a component value to the entity. Attaching one of an
    /// unregistered component key is a caller error and excluded up
    /// front, as is attaching while a view of the slot is out.
    pub fn add_component(&mut self, comp: CompID, value: C)
        requires
            old(self).world_state().wf(),
            old(self).world_state().registered(comp),
            old(self).world_state().comp_borrow(comp, old(self).entity())
                == BorrowState::Free,
        ensures
            final(self).entity() == old(self).entity(),
            final(self).world_state().wf(),
            World::frame_all(old(self).world_state(), final(self).world_state()),
            World::storage_frame(old(self).world_state(), final(self).world_state(), comp),
            final(self).world_state().registry()[comp]
                == old(self).world_state().registry()[comp].insert(
                old(self).entity(),
                (value, BorrowState::Free),
            ),
    {
        let r = self.world.insert_comp(comp, self.id, value);
        match r {
            Ok(()) => (),
            Err(_) => {
                proof {
                    assert(false);
                }
            },
        }
    }

    /// Attaches a component value, fluently.
    pub fn add(self, comp: CompID, value: C) -> (b: EntityBuilder<C>)
        requires
            self.world_state().wf(),
            self.world_state().registered(comp),
            self.world_state().comp_borrow(comp, self.entity()) == BorrowState::Free,
        ensures
            b.entity() == self.entity(),
            b.world_state().wf(),
            World::frame_all(self.world_state(), b.world_state()),
            World::storage_frame(self.world_state(), b.world_state(), comp),
            b.world_state().registry()[comp]
                == self.world_state().registry()[comp].insert(
                self.entity(),
                (value, BorrowState::Free),
            ),
    {
        let mut b = self;
        b.add_component(comp, value);
        b
    }

    /// Adds the entity to a tag's members; adding it twice has no further
    /// effect.
    pub fn add_tag(&mut self, t: TagID)
        requires
            old(self).world_state().wf(),
        ensures
            final(self).entity() == old(self).entity(),
            final(self).world_state().wf(),
            final(self).world_state().registry() == old(self).world_state().registry(),
            final(self).world_state().id_state() == old(self).world_state().id_state(),
            final(self).world_state().tag_members(t) == tag_result(
                old(self).world_state().tag_members(t),
                old(self).entity(),
            ),
            forall|t2: TagID| t2 != t ==> #[trigger] final(self).world_state().tag_members(t2)
                == old(self).world_state().tag_members(t2),
    {
        self.world.tags.tag(self.id, t);
        proof {
            assert forall|t2: TagID| t2 != t implies
                #[trigger] self.world_state().tag_members(t2)
                    == old(self).world_state().tag_members(t2) by {
                assert(self.world.tags.members(t2) == old(self).world.tags.members(t2));
            }
        }
    }

    /// Adds the entity to a tag's members, fluently.
    pub fn tag(self, t: TagID) -> (b: EntityBuilder<C>)
        requires
            self.world_state().wf(),
        ensures
            b.entity() == self.entity(),
            b.world_state().wf(),
            b.world_state().registry() == self.world_state().registry(),
            b.world_state().id_state() == self.world_state().id_state(),
            b.world_state().tag_members(t) == tag_result(
                self.world_state().tag_members(t),
                self.entity(),
            ),
            forall|t2: TagID| t2 != t ==> #[trigger] b.world_state().tag_members(t2)
                == self.world_state().tag_members(t2),
    {
        let mut b = self;
        b.add_tag(t);
        b
    }

    /// Removes the entity from a tag's members; no effect when absent.
    pub fn remove_tag(&mut self, t: TagID)
        requires
            old(self).world_state().wf(),
        ensures
            final(self).entity() == old(self).entity(),
            final(self).world_state().wf(),
            final(self).world_state().registry() == old(self).world_state().registry(),
            final(self).world_state().id_state() == old(self).world_state().id_state(),
            final(self).world_state().tag_members(t) == untag_result(
                old(self).world_state().tag_members(t),
                old(self).entity(),
            ),
            forall|t2: TagID| t2 != t ==> #[trigger] final(self).world_state().tag_members(t2)
                == old(self).world_state().tag_members(t2),
    {
        self.world.tags.untag(self.id, t);
        proof {
            assert forall|t2: TagID| t2 != t implies
                #[trigger] self.world_state().tag_members(t2)
                    == old(self).world_state().tag_members(t2) by {
                assert(self.world.tags.members(t2) == old(self).world.tags.members(t2));
            }
        }
    }

    /// Finalizes the construction and releases the world.
    pub fn done(self) -> (w: World<C>)
        ensures
            w == self.world_state(),
    {
        self.world
    }
}

} // verus!
