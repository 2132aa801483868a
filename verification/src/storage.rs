//! Per-component-type storage with a dynamic borrow discipline.
//!
//! Every storage maps entity identifiers to a component value together
//! with the slot's borrow state. At most one exclusive view, or any number
//! of shared views, may be out for a slot at a time; each acquisition is
//! checked dynamically and a conflicting one fails with
//! [`EcsError::Conflict`] instead of aliasing.
//!
//! Two backings stand behind the same interface: [`KeyedStorage`] keeps a
//! sparse map from entity to slot, [`DenseStorage`] indexes a vector
//! directly by entity identifier with explicit absent slots. To callers
//! the choice is invisible: both present the same snapshot model.

use vstd::prelude::*;
use std::collections::HashMap;
use crate::Component;
use crate::EcsError;
use crate::EntityID;

verus! {

broadcast use vstd::std_specs::hash::group_hash_axioms;

/// How many views of a component slot are currently out.
#[derive(Clone, Copy, Debug, PartialEq, Eq, Structural)]
pub enum BorrowState {
    /// No outstanding view.
    Free,
    /// This many outstanding shared (read) views.
    Shared(u32),
    /// One outstanding exclusive (write) view.
    Exclusive,
}

/// The borrow state of `id` in a snapshot; a slot that holds no value has
/// no outstanding views.
pub open spec fn snap_borrow<C>(m: Map<EntityID, (C, BorrowState)>, id: EntityID) -> BorrowState {
    if m.contains_key(id) {
        m[id].1
    } else {
        BorrowState::Free
    }
}

/// The component value of `id` in a snapshot, if any.
pub open spec fn snap_value<C>(m: Map<EntityID, (C, BorrowState)>, id: EntityID) -> Option<C> {
    if m.contains_key(id) {
        Some(m[id].0)
    } else {
        None
    }
}

/// What storing a value does: overwrite the slot (present or not) unless a
/// view of it is out.
pub open spec fn put_post<C>(
    pre: Map<EntityID, (C, BorrowState)>,
    post: Map<EntityID, (C, BorrowState)>,
    id: EntityID,
    value: C,
    r: Result<(), EcsError>,
) -> bool {
    match snap_borrow(pre, id) {
        BorrowState::Free => {
            &&& r == Ok::<(), EcsError>(())
            &&& post == pre.insert(id, (value, BorrowState::Free))
        },
        _ => {
            &&& r == Err::<(), EcsError>(EcsError::Conflict)
            &&& post == pre
        },
    }
}

/// What acquiring a shared view does: one more reader unless the slot is
/// absent, exclusively held, or the reader count is exhausted.
pub open spec fn get_post<C>(
    pre: Map<EntityID, (C, BorrowState)>,
    post: Map<EntityID, (C, BorrowState)>,
    id: EntityID,
    r: Result<C, EcsError>,
) -> bool {
    match snap_borrow(pre, id) {
        BorrowState::Free => {
            if pre.contains_key(id) {
                &&& r == Ok::<C, EcsError>(pre[id].0)
                &&& post == pre.insert(id, (pre[id].0, BorrowState::Shared(1)))
            } else {
                &&& r == Err::<C, EcsError>(EcsError::Missing)
                &&& post == pre
            }
        },
        BorrowState::Shared(n) => {
            if n < u32::MAX {
                &&& r == Ok::<C, EcsError>(pre[id].0)
                &&& post == pre.insert(id, (pre[id].0, BorrowState::Shared((n + 1) as u32)))
            } else {
                &&& r == Err::<C, EcsError>(EcsError::Conflict)
                &&& post == pre
            }
        },
        BorrowState::Exclusive => {
            &&& r == Err::<C, EcsError>(EcsError::Conflict)
            &&& post == pre
        },
    }
}

/// What acquiring an exclusive view does: the slot becomes exclusively
/// held unless it is absent or any view of it is out.
pub open spec fn get_mut_post<C>(
    pre: Map<EntityID, (C, BorrowState)>,
    post: Map<EntityID, (C, BorrowState)>,
    id: EntityID,
    r: Result<C, EcsError>,
) -> bool {
    match snap_borrow(pre, id) {
        BorrowState::Free => {
            if pre.contains_key(id) {
                &&& r == Ok::<C, EcsError>(pre[id].0)
                &&& post == pre.insert(id, (pre[id].0, BorrowState::Exclusive))
            } else {
                &&& r == Err::<C, EcsError>(EcsError::Missing)
                &&& post == pre
            }
        },
        _ => {
            &&& r == Err::<C, EcsError>(EcsError::Conflict)
            &&& post == pre
        },
    }
}

/// What removal does: the slot's value is handed out and the slot leaves,
/// unless it is absent or a view of it is out.
pub open spec fn remove_post<C>(
    pre: Map<EntityID, (C, BorrowState)>,
    post: Map<EntityID, (C, BorrowState)>,
    id: EntityID,
    r: Result<C, EcsError>,
) -> bool {
    match snap_borrow(pre, id) {
        BorrowState::Free => {
            if pre.contains_key(id) {
                &&& r == Ok::<C, EcsError>(pre[id].0)
                &&& post == pre.remove(id)
            } else {
                &&& r == Err::<C, EcsError>(EcsError::Missing)
                &&& post == pre
            }
        },
        _ => {
            &&& r == Err::<C, EcsError>(EcsError::Conflict)
            &&& post == pre
        },
    }
}

/// What returning a shared view does: one reader fewer; an error when no
/// shared view is out.
pub open spec fn release_shared_post<C>(
    pre: Map<EntityID, (C, BorrowState)>,
    post: Map<EntityID, (C, BorrowState)>,
    id: EntityID,
    r: Result<(), EcsError>,
) -> bool {
    match snap_borrow(pre, id) {
        BorrowState::Shared(n) => {
            &&& r == Ok::<(), EcsError>(())
            &&& post == pre.insert(
                id,
                (pre[id].0, if n <= 1 { BorrowState::Free } else {
                    BorrowState::Shared((n - 1) as u32)
                }),
            )
        },
        _ => {
            &&& r == Err::<(), EcsError>(EcsError::Conflict)
            &&& post == pre
        },
    }
}

/// What returning an exclusive view does: the given value is written back
/// and the slot is free again; an error when no exclusive view is out.
pub open spec fn release_exclusive_post<C>(
    pre: Map<EntityID, (C, BorrowState)>,
    post: Map<EntityID, (C, BorrowState)>,
    id: EntityID,
    value: C,
    r: Result<(), EcsError>,
) -> bool {
    match snap_borrow(pre, id) {
        BorrowState::Exclusive => {
            &&& r == Ok::<(), EcsError>(())
            &&& post == pre.insert(id, (value, BorrowState::Free))
        },
        _ => {
            &&& r == Err::<(), EcsError>(EcsError::Conflict)
            &&& post == pre
        },
    }
}

/// What a momentary read returns: the value, readable alongside shared
/// views but not while an exclusive view is out.
pub open spec fn peek_result<C>(
    m: Map<EntityID, (C, BorrowState)>,
    id: EntityID,
) -> Result<C, EcsError> {
    match snap_borrow(m, id) {
        BorrowState::Exclusive => Err(EcsError::Conflict),
        _ => if m.contains_key(id) {
            Ok(m[id].0)
        } else {
            Err(EcsError::Missing)
        },
    }
}

/// The capability interface of one component type's storage: put, get a
/// shared or exclusive view, give a view back, read momentarily, remove.
/// Its model is the snapshot: a map from entity to value and borrow state.
pub trait ComponentStorage<C: Component>: Sized {
    /// The stored slots: value and borrow state per entity.
    spec fn snap(&self) -> Map<EntityID, (C, BorrowState)>;

    /// Stores `value` for `id`, overwriting any present value.
    fn put(&mut self, id: EntityID, value: C) -> (r: Result<(), EcsError>)
        ensures
            put_post(old(self).snap(), final(self).snap(), id, value, r),
    ;

    /// Acquires a shared view: the current value, to be returned with
    /// [`ComponentStorage::release_shared`].
    fn get(&mut self, id: EntityID) -> (r: Result<C, EcsError>)
        ensures
            get_post(old(self).snap(), final(self).snap(), id, r),
    ;

    /// Acquires an exclusive view: the current value, to be written back
    /// with [`ComponentStorage::release_exclusive`].
    fn get_mut(&mut self, id: EntityID) -> (r: Result<C, EcsError>)
        ensures
            get_mut_post(old(self).snap(), final(self).snap(), id, r),
    ;

    /// Removes and returns the value stored for `id`.
    fn remove(&mut self, id: EntityID) -> (r: Result<C, EcsError>)
        ensures
            remove_post(old(self).snap(), final(self).snap(), id, r),
    ;

    /// Gives one shared view back.
    fn release_shared(&mut self, id: EntityID) -> (r: Result<(), EcsError>)
        ensures
            release_shared_post(old(self).snap(), final(self).snap(), id, r),
    ;

    /// Gives the exclusive view back, writing `value` into the slot.
    fn release_exclusive(&mut self, id: EntityID, value: C) -> (r: Result<(), EcsError>)
        ensures
            release_exclusive_post(old(self).snap(), final(self).snap(), id, value, r),
    ;

    /// Reads the current value without taking a view.
    fn peek(&self, id: EntityID) -> (r: Result<C, EcsError>)
        ensures
            r == peek_result(self.snap(), id),
    ;
}

/// Sparse storage: a map from entity identifier to slot. Suited to
/// component types carried by few entities of a wide identifier range.
pub struct KeyedStorage<C: Component> {
    slots: HashMap<EntityID, (C, BorrowState)>,
}

impl<C: Component> KeyedStorage<C> {
    /// An empty sparse storage.
    pub fn new() -> (s: KeyedStorage<C>)
        ensures
            s.snap() == Map::<EntityID, (C, BorrowState)>::empty(),
    {
        KeyedStorage { slots: HashMap::new() }
    }
}

impl<C: Component> ComponentStorage<C> for KeyedStorage<C> {
    closed spec fn snap(&self) -> Map<EntityID, (C, BorrowState)> {
        self.slots@
    }

    fn put(&mut self, id: EntityID, value: C) -> (r: Result<(), EcsError>) {
        let cur = self.slots.get(&id);
        match cur {
            None => {
                self.slots.insert(id, (value, BorrowState::Free));
                Ok(())
            },
            Some(p) => {
                let st = p.1;
                match st {
                    BorrowState::Free => {
                        self.slots.insert(id, (value, BorrowState::Free));
                        Ok(())
                    },
                    _ => Err(EcsError::Conflict),
                }
            },
        }
    }

    fn get(&mut self, id: EntityID) -> (r: Result<C, EcsError>) {
        let cur = self.slots.get(&id);
        match cur {
            None => Err(EcsError::Missing),
            Some(p) => {
                let v = p.0;
                let st = p.1;
                match st {
                    BorrowState::Free => {
                        self.slots.insert(id, (v, BorrowState::Shared(1)));
                        Ok(v)
                    },
                    BorrowState::Shared(n) => {
                        if n < u32::MAX {
                            self.slots.insert(id, (v, BorrowState::Shared(n + 1)));
                            Ok(v)
                        } else {
                            Err(EcsError::Conflict)
                        }
                    },
                    BorrowState::Exclusive => Err(EcsError::Conflict),
                }
            },
        }
    }

    fn get_mut(&mut self, id: EntityID) -> (r: Result<C, EcsError>) {
        let cur = self.slots.get(&id);
        match cur {
            None => Err(EcsError::Missing),
            Some(p) => {
                let v = p.0;
                let st = p.1;
                match st {
                    BorrowState::Free => {
                        self.slots.insert(id, (v, BorrowState::Exclusive));
                        Ok(v)
                    },
                    _ => Err(EcsError::Conflict),
                }
            },
        }
    }

    fn remove(&mut self, id: EntityID) -> (r: Result<C, EcsError>) {
        let cur = self.slots.get(&id);
        match cur {
            None => Err(EcsError::Missing),
            Some(p) => {
                let st = p.1;
                match st {
                    BorrowState::Free => {
                        let taken = self.slots.remove(&id);
                        match taken {
                            Some(pair) => Ok(pair.0),
                            None => Err(EcsError::Missing),
                        }
                    },
                    _ => Err(EcsError::Conflict),
                }
            },
        }
    }

    fn release_shared(&mut self, id: EntityID) -> (r: Result<(), EcsError>) {
        let cur = self.slots.get(&id);
        match cur {
            None => Err(EcsError::Conflict),
            Some(p) => {
                let v = p.0;
                let st = p.1;
                match st {
                    BorrowState::Shared(n) => {
                        if n <= 1 {
                            self.slots.insert(id, (v, BorrowState::Free));
                        } else {
                            self.slots.insert(id, (v, BorrowState::Shared(n - 1)));
                        }
                        Ok(())
                    },
                    _ => Err(EcsError::Conflict),
                }
            },
        }
    }

    fn release_exclusive(&mut self, id: EntityID, value: C) -> (r: Result<(), EcsError>) {
        let cur = self.slots.get(&id);
        match cur {
            None => Err(EcsError::Conflict),
            Some(p) => {
                let st = p.1;
                match st {
                    BorrowState::Exclusive => {
                        self.slots.insert(id, (value, BorrowState::Free));
                        Ok(())
                    },
                    _ => Err(EcsError::Conflict),
                }
            },
        }
    }

    fn peek(&self, id: EntityID) -> (r: Result<C, EcsError>) {
        let cur = self.slots.get(&id);
        match cur {
            None => Err(EcsError::Missing),
            Some(p) => {
                let v = p.0;
                let st = p.1;
                match st {
                    BorrowState::Exclusive => Err(EcsError::Conflict),
                    _ => Ok(v),
                }
            },
        }
    }
}

/// Dense storage: a vector indexed directly by entity identifier, with an
/// explicit absent slot for identifiers that carry no value. Suited to
/// component types carried by most entities of a compact identifier range.
pub struct DenseStorage<C: Component> {
    slots: Vec<Option<(C, BorrowState)>>,
}

impl<C: Component> DenseStorage<C> {
    /// An empty dense storage.
    pub fn new() -> (s: DenseStorage<C>)
        ensures
            s.snap() == Map::<EntityID, (C, BorrowState)>::empty(),
    {
        let s = DenseStorage { slots: Vec::new() };
        proof {
            assert(s.snap() =~= Map::<EntityID, (C, BorrowState)>::empty());
        }
        s
    }

    /// Reads the slot of `id`, absent when out of range.
    fn slot_at(&self, id: EntityID) -> (r: Option<(C, BorrowState)>)
        ensures
            r == if self.snap().contains_key(id) {
                Some((self.snap()[id].0, self.snap()[id].1))
            } else {
                None::<(C, BorrowState)>
            },
    {
        let i = id as usize;
        if i < self.slots.len() {
            match &self.slots[i] {
                None => None,
                Some(p) => Some(*p),
            }
        } else {
            None
        }
    }

    /// Writes the slot of `id`, growing the vector with absent slots as
    /// needed.
    fn set_slot(&mut self, id: EntityID, slot: (C, BorrowState))
        ensures
            final(self).snap() == old(self).snap().insert(id, slot),
    {
        let i = id as usize;
        let ghost pre = self.snap();
        while self.slots.len() <= i
            invariant
                self.snap() == pre,
                i == id as usize,
            decreases i + 1 - self.slots.len(),
        {
            self.slots.push(None);
            proof {
                assert(self.snap() =~= pre);
            }
        }
        self.slots[i] = Some(slot);
        proof {
            assert(self.snap() =~= pre.insert(id, slot));
        }
    }
}

impl<C: Component> ComponentStorage<C> for DenseStorage<C> {
    closed spec fn snap(&self) -> Map<EntityID, (C, BorrowState)> {
        Map::new(
            |id: EntityID| id < self.slots@.len() && self.slots@[id as int] is Some,
            |id: EntityID| self.slots@[id as int]->0,
        )
    }

    fn put(&mut self, id: EntityID, value: C) -> (r: Result<(), EcsError>) {
        let cur = self.slot_at(id);
        match cur {
            None => {
                self.set_slot(id, (value, BorrowState::Free));
                Ok(())
            },
            Some(p) => {
                match p.1 {
                    BorrowState::Free => {
                        self.set_slot(id, (value, BorrowState::Free));
                        Ok(())
                    },
                    _ => Err(EcsError::Conflict),
                }
            },
        }
    }

    fn get(&mut self, id: EntityID) -> (r: Result<C, EcsError>) {
        let cur = self.slot_at(id);
        match cur {
            None => Err(EcsError::Missing),
            Some(p) => {
                match p.1 {
                    BorrowState::Free => {
                        self.set_slot(id, (p.0, BorrowState::Shared(1)));
                        Ok(p.0)
                    },
                    BorrowState::Shared(n) => {
                        if n < u32::MAX {
                            self.set_slot(id, (p.0, BorrowState::Shared(n + 1)));
                            Ok(p.0)
                        } else {
                            Err(EcsError::Conflict)
                        }
                    },
                    BorrowState::Exclusive => Err(EcsError::Conflict),
                }
            },
        }
    }

    fn get_mut(&mut self, id: EntityID) -> (r: Result<C, EcsError>) {
        let cur = self.slot_at(id);
        match cur {
            None => Err(EcsError::Missing),
            Some(p) => {
                match p.1 {
                    BorrowState::Free => {
                        self.set_slot(id, (p.0, BorrowState::Exclusive));
                        Ok(p.0)
                    },
                    _ => Err(EcsError::Conflict),
                }
            },
        }
    }

    fn remove(&mut self, id: EntityID) -> (r: Result<C, EcsError>) {
        let cur = self.slot_at(id);
        match cur {
            None => Err(EcsError::Missing),
            Some(p) => {
                match p.1 {
                    BorrowState::Free => {
                        let i = id as usize;
                        self.slots[i] = None;
                        proof {
                            assert(self.snap() =~= old(self).snap().remove(id));
                        }
                        Ok(p.0)
                    },
                    _ => Err(EcsError::Conflict),
                }
            },
        }
    }

    fn release_shared(&mut self, id: EntityID) -> (r: Result<(), EcsError>) {
        let cur = self.slot_at(id);
        match cur {
            None => Err(EcsError::Conflict),
            Some(p) => {
                match p.1 {
                    BorrowState::Shared(n) => {
                        if n <= 1 {
                            self.set_slot(id, (p.0, BorrowState::Free));
                        } else {
                            self.set_slot(id, (p.0, BorrowState::Shared(n - 1)));
                        }
                        Ok(())
                    },
                    _ => Err(EcsError::Conflict),
                }
            },
        }
    }

    fn release_exclusive(&mut self, id: EntityID, value: C) -> (r: Result<(), EcsError>) {
        let cur = self.slot_at(id);
        match cur {
            None => Err(EcsError::Conflict),
            Some(p) => {
                match p.1 {
                    BorrowState::Exclusive => {
                        self.set_slot(id, (value, BorrowState::Free));
                        Ok(())
                    },
                    _ => Err(EcsError::Conflict),
                }
            },
        }
    }

    fn peek(&self, id: EntityID) -> (r: Result<C, EcsError>) {
        let cur = self.slot_at(id);
        match cur {
            None => Err(EcsError::Missing),
            Some(p) => {
                match p.1 {
                    BorrowState::Exclusive => Err(EcsError::Conflict),
                    _ => Ok(p.0),
                }
            },
        }
    }
}

/// Which backing a component type's storage uses; invisible to callers
/// once registered.
#[derive(Clone, Copy, Debug, PartialEq, Eq, Structural)]
pub enum StorageKind {
    /// Sparse map from entity to slot.
    Keyed,
    /// Vector indexed by entity identifier with explicit absent slots.
    Dense,
}

/// One component type's storage, of either backing, behind the common
/// interface.
pub enum AnyStorage<C: Component> {
    /// Sparse backing.
    Keyed(KeyedStorage<C>),
    /// Dense backing.
    Dense(DenseStorage<C>),
}

impl<C: Component> AnyStorage<C> {
    /// An empty storage of the chosen backing.
    pub fn new(kind: StorageKind) -> (s: AnyStorage<C>)
        ensures
            s.snap() == Map::<EntityID, (C, BorrowState)>::empty(),
    {
        match kind {
            StorageKind::Keyed => AnyStorage::Keyed(KeyedStorage::new()),
            StorageKind::Dense => AnyStorage::Dense(DenseStorage::new()),
        }
    }
}

impl<C: Component> ComponentStorage<C> for AnyStorage<C> {
    closed spec fn snap(&self) -> Map<EntityID, (C, BorrowState)> {
        match self {
            AnyStorage::Keyed(s) => s.snap(),
            AnyStorage::Dense(s) => s.snap(),
        }
    }

    fn put(&mut self, id: EntityID, value: C) -> (r: Result<(), EcsError>) {
        match self {
            AnyStorage::Keyed(s) => s.put(id, value),
            AnyStorage::Dense(s) => s.put(id, value),
        }
    }

    fn get(&mut self, id: EntityID) -> (r: Result<C, EcsError>) {
        match self {
            AnyStorage::Keyed(s) => s.get(id),
            AnyStorage::Dense(s) => s.get(id),
        }
    }

    fn get_mut(&mut self, id: EntityID) -> (r: Result<C, EcsError>) {
        match self {
            AnyStorage::Keyed(s) => s.get_mut(id),
            AnyStorage::Dense(s) => s.get_mut(id),
        }
    }

    fn remove(&mut self, id: EntityID) -> (r: Result<C, EcsError>) {
        match self {
            AnyStorage::Keyed(s) => s.remove(id),
            AnyStorage::Dense(s) => s.remove(id),
        }
    }

    fn release_shared(&mut self, id: EntityID) -> (r: Result<(), EcsError>) {
        match self {
            AnyStorage::Keyed(s) => s.release_shared(id),
            AnyStorage::Dense(s) => s.release_shared(id),
        }
    }

    fn release_exclusive(&mut self, id: EntityID, value: C) -> (r: Result<(), EcsError>) {
        match self {
            AnyStorage::Keyed(s) => s.release_exclusive(id, value),
            AnyStorage::Dense(s) => s.release_exclusive(id, value),
        }
    }

    fn peek(&self, id: EntityID) -> (r: Result<C, EcsError>) {
        match self {
            AnyStorage::Keyed(s) => s.peek(id),
            AnyStorage::Dense(s) => s.peek(id),
        }
    }
}

} // verus!
