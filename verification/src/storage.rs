//! Component and resource storage, and the world that holds both.
//!
//! Components of one type live in a `ComponentVec`, a slot per entity index.
//! The component storage keeps one such vector per component type key, and
//! the resource storage one value per resource type key. Both tables are hash
//! maps keyed by the type key.
use vstd::prelude::*;
use std::collections::HashMap;
use std::collections::hash_map::Entry;
use crate::access::{AccessType, DataAccess, SystemAccess};

verus! {

broadcast use vstd::std_specs::hash::group_hash_axioms;

// ---------------------------------------------------------------------------
// ComponentVec
// ---------------------------------------------------------------------------

/// The components of one type, one slot per entity index.
#[derive(Debug)]
pub struct ComponentVec<T> {
    data: Vec<Option<T>>,
}

impl<T> ComponentVec<T> {
    /// The slots.
    pub closed spec fn spec_slots(&self) -> Seq<Option<T>> {
        self.data@
    }

    /// The component of `entity`, if it has one.
    pub open spec fn lookup(&self, entity: u32) -> Option<T> {
        if (entity as int) < self.spec_slots().len() {
            self.spec_slots()[entity as int]
        } else {
            None
        }
    }

    /// An empty vector.
    pub fn new() -> (v: Self)
        ensures
            v.spec_slots() == Seq::<Option<T>>::empty(),
            forall|e: u32| #[trigger] v.lookup(e) is None,
    {
        ComponentVec { data: Vec::new() }
    }

    /// Stores `component` for `entity`, growing the slots as needed.
    pub fn insert(&mut self, entity: u32, component: T)
        ensures
            final(self).lookup(entity) == Some(component),
            forall|e: u32| e != entity ==> #[trigger] final(self).lookup(e) == old(self).lookup(e),
            final(self).spec_slots().len() == if (entity as int) < old(self).spec_slots().len() {
                old(self).spec_slots().len() as int
            } else {
                entity as int + 1
            },
    {
        let entity_idx = entity as usize;
        if entity_idx >= self.data.len() {
            while self.data.len() <= entity_idx
                invariant
                    self.data@.len() <= entity_idx + 1,
                    old(self).spec_slots().len() <= self.data@.len(),
                    forall|i: int| 0 <= i < old(self).spec_slots().len() ==> #[trigger] self.data@[i] == old(self).spec_slots()[i],
                    forall|i: int| old(self).spec_slots().len() <= i < self.data@.len() ==> #[trigger] self.data@[i] is None,
                decreases entity_idx + 1 - self.data@.len(),
            {
                self.data.push(None);
            }
        }
        self.data.set(entity_idx, Some(component));
    }

    /// The component of `entity`, if it has one.
    pub fn get(&self, entity: u32) -> (r: Option<&T>)
        ensures
            r == match self.lookup(entity) {
                Some(c) => Some(&c),
                None => None::<&T>,
            },
    {
        let entity_idx = entity as usize;
        if entity_idx < self.data.len() {
            self.data[entity_idx].as_ref()
        } else {
            None
        }
    }

    /// Mutable access to the component of `entity`, if it has one.
    pub fn get_mut(&mut self, entity: u32) -> (r: Option<&mut T>)
        ensures
            old(self).lookup(entity) is Some <==> r is Some,
            r matches Some(c) ==> old(self).lookup(entity) == Some(*c) && final(self).spec_slots()
                == old(self).spec_slots().update(entity as int, Some(*final(c))),
            r is None ==> final(self).spec_slots() == old(self).spec_slots(),
    {
        let entity_idx = entity as usize;
        if entity_idx < self.data.len() {
            match &mut self.data[entity_idx] {
                Some(c) => Some(c),
                None => None,
            }
        } else {
            None
        }
    }

    /// Removes and returns the component of `entity`, if it has one.
    pub fn remove(&mut self, entity: u32) -> (r: Option<T>)
        ensures
            r == old(self).lookup(entity),
            final(self).lookup(entity) is None,
            forall|e: u32| e != entity ==> #[trigger] final(self).lookup(e) == old(self).lookup(e),
            final(self).spec_slots().len() == old(self).spec_slots().len(),
    {
        let entity_idx = entity as usize;
        if entity_idx < self.data.len() {
            let mut slot: Option<T> = None;
            std::mem::swap(&mut slot, &mut self.data[entity_idx]);
            slot
        } else {
            None
        }
    }

    /// The entities that have a component, in increasing order, each with its
    /// component.
    pub fn iter(&self) -> (r: Vec<(u32, &T)>)
        requires
            self.spec_slots().len() <= u32::MAX as int + 1,
        ensures
            forall|k: int| 0 <= k < r@.len() ==> self.lookup(#[trigger] r@[k].0) == Some(*r@[k].1),
            forall|a: int, b: int| 0 <= a < b < r@.len() ==> #[trigger] r@[a].0 < #[trigger] r@[b].0,
            forall|e: u32| self.lookup(e) is Some ==> exists|k: int| 0 <= k < r@.len() && #[trigger] r@[k].0 == e,
    {
        let mut out: Vec<(u32, &T)> = Vec::new();
        let mut i: usize = 0;
        while i < self.data.len()
            invariant
                i <= self.data@.len(),
                self.data@.len() <= u32::MAX as int + 1,
                forall|k: int| 0 <= k < out@.len() ==> self.lookup(#[trigger] out@[k].0) == Some(*out@[k].1),
                forall|k: int| 0 <= k < out@.len() ==> (#[trigger] out@[k].0) < i,
                forall|a: int, b: int| 0 <= a < b < out@.len() ==> #[trigger] out@[a].0 < #[trigger] out@[b].0,
                forall|e: u32| (e as int) < i && self.lookup(e) is Some ==> exists|k: int| 0 <= k < out@.len() && #[trigger] out@[k].0 == e,
            decreases self.data@.len() - i,
        {
            match &self.data[i] {
                Some(c) => {
                    let ghost o0 = out@;
                    out.push((i as u32, c));
                    proof {
                        assert forall|e: u32| (e as int) < i + 1 && self.lookup(e) is Some implies exists|k: int| 0 <= k < out@.len() && #[trigger] out@[k].0 == e by {
                            if (e as int) < i {
                                let k = choose|k: int| 0 <= k < o0.len() && #[trigger] o0[k].0 == e;
                                assert(out@[k].0 == e);
                            } else {
                                assert(out@[o0.len() as int].0 == e);
                            }
                        }
                    }
                },
                None => {
                    proof {
                        assert forall|e: u32| (e as int) < i + 1 && self.lookup(e) is Some implies exists|k: int| 0 <= k < out@.len() && #[trigger] out@[k].0 == e by {
                            if (e as int) == i {
                                assert(self.lookup(e) is None);
                            }
                        }
                    }
                },
            }
            i = i + 1;
        }
        out
    }
}

// ---------------------------------------------------------------------------
// Keyed tables
// ---------------------------------------------------------------------------

/// A table from type keys to values.
pub struct KeyedTable<V> {
    map: HashMap<u64, V>,
}

impl<V> View for KeyedTable<V> {
    type V = Map<u64, V>;

    closed spec fn view(&self) -> Map<u64, V> {
        self.map@
    }
}

impl<V> KeyedTable<V> {
    /// An empty table.
    pub fn new() -> (t: Self)
        ensures
            t@ == Map::<u64, V>::empty(),
    {
        KeyedTable { map: HashMap::new() }
    }

    /// Whether the table has an entry for `key`.
    pub fn contains_key(&self, key: u64) -> (r: bool)
        ensures
            r == self@.dom().contains(key),
    {
        self.map.contains_key(&key)
    }

    /// The value for `key`, if any.
    pub fn get(&self, key: u64) -> (r: Option<&V>)
        ensures
            r == if self@.dom().contains(key) { Some(&self@[key]) } else { None::<&V> },
    {
        self.map.get(&key)
    }

    /// Mutable access to the value for `key`, if any.
    pub fn get_mut(&mut self, key: u64) -> (r: Option<&mut V>)
        ensures
            old(self)@.dom().contains(key) <==> r is Some,
            r matches Some(v) ==> *v == old(self)@[key] && final(self)@ == old(self)@.insert(key, *final(v)),
            r is None ==> final(self)@ == old(self)@,
    {
        match self.map.entry(key) {
            Entry::Occupied(o) => Some(o.into_mut()),
            Entry::Vacant(_) => None,
        }
    }

    /// Stores `value` for `key`, replacing any earlier value.
    pub fn insert(&mut self, key: u64, value: V)
        ensures
            final(self)@ == old(self)@.insert(key, value),
    {
        self.map.insert(key, value);
    }

    /// The value for `key`, stored first as `default` when there is none.
    pub fn get_or_insert(&mut self, key: u64, default: V) -> (r: &mut V)
        ensures
            *r == if old(self)@.dom().contains(key) { old(self)@[key] } else { default },
            final(self)@ == (if old(self)@.dom().contains(key) { old(self)@ } else { old(self)@.insert(key, default) }).insert(key, *final(r)),
    {
        self.map.entry(key).or_insert(default)
    }

    /// Removes and returns the value for `key`, if any.
    pub fn remove(&mut self, key: u64) -> (r: Option<V>)
        ensures
            final(self)@ == old(self)@.remove(key),
            r == if old(self)@.dom().contains(key) { Some(old(self)@[key]) } else { None::<V> },
    {
        self.map.remove(&key)
    }
}

/// Global resources, one value per resource type key.
pub struct ResourceStorage<R> {
    resources: KeyedTable<R>,
}

impl<R> View for ResourceStorage<R> {
    type V = Map<u64, R>;

    closed spec fn view(&self) -> Map<u64, R> {
        self.resources@
    }
}

impl<R> ResourceStorage<R> {
    /// An empty storage.
    pub fn new() -> (s: Self)
        ensures
            s@ == Map::<u64, R>::empty(),
    {
        ResourceStorage { resources: KeyedTable::new() }
    }

    /// Stores `resource` under `type_key`, replacing any earlier one.
    pub fn insert(&mut self, type_key: u64, resource: R)
        ensures
            final(self)@ == old(self)@.insert(type_key, resource),
    {
        self.resources.insert(type_key, resource);
    }

    /// Read access to the resource under `type_key`, if any.
    pub fn get_read_guard(&self, type_key: u64) -> (r: Option<&R>)
        ensures
            r == if self@.dom().contains(type_key) { Some(&self@[type_key]) } else { None::<&R> },
    {
        self.resources.get(type_key)
    }

    /// Write access to the resource under `type_key`, if any.
    pub fn get_write_guard(&mut self, type_key: u64) -> (r: Option<&mut R>)
        ensures
            old(self)@.dom().contains(type_key) <==> r is Some,
            r matches Some(v) ==> *v == old(self)@[type_key] && final(self)@ == old(self)@.insert(type_key, *final(v)),
            r is None ==> final(self)@ == old(self)@,
    {
        self.resources.get_mut(type_key)
    }

    /// Read access to the resource under `type_key`, if any.
    pub fn get_direct(&self, type_key: u64) -> (r: Option<&R>)
        ensures
            r == if self@.dom().contains(type_key) { Some(&self@[type_key]) } else { None::<&R> },
    {
        self.resources.get(type_key)
    }

    /// Write access to the resource under `type_key`, if any.
    pub fn get_mut_direct(&mut self, type_key: u64) -> (r: Option<&mut R>)
        ensures
            old(self)@.dom().contains(type_key) <==> r is Some,
            r matches Some(v) ==> *v == old(self)@[type_key] && final(self)@ == old(self)@.insert(type_key, *final(v)),
            r is None ==> final(self)@ == old(self)@,
    {
        self.resources.get_mut(type_key)
    }

    /// Removes and returns the resource under `type_key`, if any.
    pub fn remove(&mut self, type_key: u64) -> (r: Option<R>)
        ensures
            final(self)@ == old(self)@.remove(type_key),
            r == if old(self)@.dom().contains(type_key) { Some(old(self)@[type_key]) } else { None::<R> },
    {
        self.resources.remove(type_key)
    }

    /// Whether a resource is stored under `type_key`.
    pub fn contains(&self, type_key: u64) -> (r: bool)
        ensures
            r == self@.dom().contains(type_key),
    {
        self.resources.contains_key(type_key)
    }
}

/// One call that changes a resource storage.
pub enum ResourceOp<R> {
    Insert(u64, R),
    Remove(u64),
}

/// After the calls `ops`, made on a new storage, a resource is stored under
/// `key` exactly when some call inserted under `key` and no removal of `key`
/// followed the last such insertion.
pub open spec fn stored_after<R>(ops: Seq<ResourceOp<R>>, key: u64) -> bool
    decreases ops.len(),
{
    if ops.len() == 0 {
        false
    } else {
        match ops.last() {
            ResourceOp::Insert(k, _) => k == key || stored_after(ops.drop_last(), key),
            ResourceOp::Remove(k) => k != key && stored_after(ops.drop_last(), key),
        }
    }
}

/// What one call does to the stored resources, as `insert` and `remove`
/// state it.
pub open spec fn apply_op<R>(before: Map<u64, R>, op: ResourceOp<R>) -> Map<u64, R> {
    match op {
        ResourceOp::Insert(k, r) => before.insert(k, r),
        ResourceOp::Remove(k) => before.remove(k),
    }
}

/// `contains` follows the history of `insert` and `remove`: for storages
/// `states[0]` (new) to `states[n]`, each reached from the one before by
/// the call `ops[i]`, `contains(key)` on the last holds exactly when some
/// call inserted under `key` and no removal of `key` came after the last
/// such insertion.
pub proof fn lemma_contains_follows_history<R>(states: Seq<ResourceStorage<R>>, ops: Seq<ResourceOp<R>>, key: u64)
    requires
        states.len() == ops.len() + 1,
        states[0]@ == Map::<u64, R>::empty(),
        forall|i: int| 0 <= i < ops.len() ==> #[trigger] states[i + 1]@ == apply_op(states[i]@, ops[i]),
    ensures
        states.last()@.dom().contains(key) == stored_after(ops, key),
    decreases ops.len(),
{
    if ops.len() > 0 {
        let s2 = states.drop_last();
        let o2 = ops.drop_last();
        assert forall|i: int| 0 <= i < o2.len() implies #[trigger] s2[i + 1]@ == apply_op(s2[i]@, o2[i]) by {
            assert(states[i + 1]@ == apply_op(states[i]@, ops[i]));
        }
        lemma_contains_follows_history(s2, o2, key);
        let n = ops.len() - 1;
        assert(states[n + 1]@ == apply_op(states[n]@, ops[n]));
        assert(s2.last() == states[n]);
    }
}

// ---------------------------------------------------------------------------
// Component storage
// ---------------------------------------------------------------------------

/// All components: one `ComponentVec` per component type key, and a counter
/// of the entity indices handed out.
pub struct ComponentStorage<C> {
    storages: KeyedTable<ComponentVec<C>>,
    entity_counter: u32,
}

impl<C> ComponentStorage<C> {
    /// The per-type vectors.
    pub closed spec fn spec_storages(&self) -> Map<u64, ComponentVec<C>> {
        self.storages@
    }

    /// The number of entity indices handed out.
    pub closed spec fn spec_entity_counter(&self) -> u32 {
        self.entity_counter
    }

    /// The component of type `type_key` of `entity`, if any.
    pub open spec fn component(&self, type_key: u64, entity: u32) -> Option<C> {
        if self.spec_storages().dom().contains(type_key) {
            self.spec_storages()[type_key].lookup(entity)
        } else {
            None
        }
    }

    /// An empty storage.
    pub fn new() -> (s: Self)
        ensures
            s.spec_storages() == Map::<u64, ComponentVec<C>>::empty(),
            s.spec_entity_counter() == 0,
    {
        ComponentStorage { storages: KeyedTable::new(), entity_counter: 0 }
    }

    /// Hands out the next entity index.
    pub fn create_entity(&mut self) -> (e: u32)
        requires
            old(self).spec_entity_counter() < u32::MAX,
        ensures
            e == old(self).spec_entity_counter(),
            final(self).spec_entity_counter() == old(self).spec_entity_counter() + 1,
            final(self).spec_storages() == old(self).spec_storages(),
    {
        let entity = self.entity_counter;
        self.entity_counter = self.entity_counter + 1;
        entity
    }

    /// Stores `component` as the component of type `type_key` of `entity`.
    pub fn add_component(&mut self, type_key: u64, entity: u32, component: C)
        ensures
            final(self).spec_entity_counter() == old(self).spec_entity_counter(),
            final(self).spec_storages().dom() == old(self).spec_storages().dom().insert(type_key),
            final(self).component(type_key, entity) == Some(component),
            forall|k: u64, e: u32| (k != type_key || e != entity) ==> #[trigger] final(self).component(k, e) == old(self).component(k, e),
    {
        let ghost m0 = self.storages@;
        let empty = ComponentVec::new();
        let ghost empty_g = empty;
        let storage = self.storages.get_or_insert(type_key, empty);
        storage.insert(entity, component);
        proof {
            assert forall|k: u64, e: u32| (k != type_key || e != entity) implies #[trigger] self.component(k, e) == old(self).component(k, e) by {
                if k == type_key && !m0.dom().contains(k) {
                    assert(empty_g.lookup(e) is None);
                }
            }
            assert(self.storages@.dom() =~= m0.dom().insert(type_key));
        }
    }

    /// The component of type `type_key` of `entity`, if any.
    pub fn get_direct(&self, type_key: u64, entity: u32) -> (r: Option<&C>)
        ensures
            r == match self.component(type_key, entity) {
                Some(c) => Some(&c),
                None => None::<&C>,
            },
    {
        match self.storages.get(type_key) {
            Some(storage) => storage.get(entity),
            None => None,
        }
    }

    /// Mutable access to the component of type `type_key` of `entity`, if
    /// any. An empty vector is set up for `type_key` when there was none.
    pub fn get_mut_direct(&mut self, type_key: u64, entity: u32) -> (r: Option<&mut C>)
        ensures
            final(self).spec_entity_counter() == old(self).spec_entity_counter(),
            final(self).spec_storages().dom() == old(self).spec_storages().dom().insert(type_key),
            old(self).component(type_key, entity) is Some <==> r is Some,
            r matches Some(c) ==> old(self).component(type_key, entity) == Some(*c)
                && final(self).component(type_key, entity) == Some(*final(c)),
            forall|k: u64, e: u32| (k != type_key || e != entity) ==> #[trigger] final(self).component(k, e) == old(self).component(k, e),
            r is None ==> final(self).component(type_key, entity) is None,
    {
        let ghost m0 = self.storages@;
        let empty = ComponentVec::new();
        let ghost empty_g = empty;
        let storage = self.storages.get_or_insert(type_key, empty);
        let r = storage.get_mut(entity);
        r
    }

    /// Removes and returns the component of type `type_key` of `entity`, if
    /// any. An empty vector is set up for `type_key` when there was none.
    pub fn remove_component(&mut self, type_key: u64, entity: u32) -> (r: Option<C>)
        ensures
            final(self).spec_entity_counter() == old(self).spec_entity_counter(),
            final(self).spec_storages().dom() == old(self).spec_storages().dom().insert(type_key),
            r == old(self).component(type_key, entity),
            final(self).component(type_key, entity) is None,
            forall|k: u64, e: u32| (k != type_key || e != entity) ==> #[trigger] final(self).component(k, e) == old(self).component(k, e),
    {
        let ghost m0 = self.storages@;
        let empty = ComponentVec::new();
        let ghost empty_g = empty;
        let storage = self.storages.get_or_insert(type_key, empty);
        let r = storage.remove(entity);
        proof {
            assert(self.storages@.dom() =~= m0.dom().insert(type_key));
            assert forall|k: u64, e: u32| (k != type_key || e != entity) implies #[trigger] self.component(k, e) == old(self).component(k, e) by {
                if k == type_key && !m0.dom().contains(k) {
                    assert(empty_g.lookup(e) is None);
                }
            }
        }
        r
    }

    /// Whether `entity` has a component of type `type_key`.
    pub fn has_component(&self, type_key: u64, entity: u32) -> (r: bool)
        ensures
            r == self.component(type_key, entity) is Some,
    {
        match self.storages.get(type_key) {
            Some(storage) => storage.get(entity).is_some(),
            None => false,
        }
    }

    /// The vector of the components of type `type_key`, if one was set up.
    pub fn get_component_storage(&self, type_key: u64) -> (r: Option<&ComponentVec<C>>)
        ensures
            r == if self.spec_storages().dom().contains(type_key) { Some(&self.spec_storages()[type_key]) } else { None::<&ComponentVec<C>> },
    {
        self.storages.get(type_key)
    }

    /// Read access to the vector of the components of type `type_key`, if one
    /// was set up.
    pub fn get_component_read_guard_by_id(&self, type_key: u64) -> (r: Option<&ComponentVec<C>>)
        ensures
            r == if self.spec_storages().dom().contains(type_key) { Some(&self.spec_storages()[type_key]) } else { None::<&ComponentVec<C>> },
    {
        self.storages.get(type_key)
    }

    /// Write access to the vector of the components of type `type_key`, if one
    /// was set up.
    pub fn get_component_write_guard_by_id(&mut self, type_key: u64) -> (r: Option<&mut ComponentVec<C>>)
        ensures
            final(self).spec_entity_counter() == old(self).spec_entity_counter(),
            old(self).spec_storages().dom().contains(type_key) <==> r is Some,
            r matches Some(v) ==> *v == old(self).spec_storages()[type_key]
                && final(self).spec_storages() == old(self).spec_storages().insert(type_key, *final(v)),
            r is None ==> final(self).spec_storages() == old(self).spec_storages(),
    {
        self.storages.get_mut(type_key)
    }

    /// Whether `entity` has a component of type `type_key`.
    pub fn entity_has_component_by_id(&self, entity: u32, type_key: u64) -> (r: bool)
        ensures
            r == self.component(type_key, entity) is Some,
    {
        self.has_component(type_key, entity)
    }

    /// Whether `entity` has a component of every given type.
    pub fn has_all_components(&self, entity: u32, component_types: Vec<u64>) -> (r: bool)
        ensures
            r == self.has_all(component_types@, entity),
    {
        self.has_all_of(component_types.as_slice(), entity)
    }

    /// `entity` has a component of every type in `types`.
    pub open spec fn has_all(&self, types: Seq<u64>, entity: u32) -> bool {
        forall|i: int| 0 <= i < types.len() ==> self.component(#[trigger] types[i], entity) is Some
    }

    /// The entities `e < n` that have a component of every type in `types`,
    /// in increasing order.
    pub open spec fn entities_having(&self, types: Seq<u64>, n: nat) -> Seq<u32>
        decreases n,
    {
        if n == 0 {
            Seq::empty()
        } else {
            let before = self.entities_having(types, (n - 1) as nat);
            if self.has_all(types, (n - 1) as u32) {
                before.push((n - 1) as u32)
            } else {
                before
            }
        }
    }

    fn has_all_of(&self, component_types: &[u64], entity: u32) -> (r: bool)
        ensures
            r == self.has_all(component_types@, entity),
    {
        let mut i: usize = 0;
        while i < component_types.len()
            invariant
                i <= component_types@.len(),
                forall|j: int| 0 <= j < i ==> self.component(#[trigger] component_types@[j], entity) is Some,
            decreases component_types@.len() - i,
        {
            if !self.has_component(component_types[i], entity) {
                return false;
            }
            i = i + 1;
        }
        true
    }

    /// The entities handed out so far that have a component of every given
    /// type, in increasing order; none when no type is given.
    pub fn find_entities_with_components(&self, component_types: &[u64]) -> (r: Vec<u32>)
        ensures
            r@ == if component_types@.len() == 0 {
                Seq::<u32>::empty()
            } else {
                self.entities_having(component_types@, self.spec_entity_counter() as nat)
            },
    {
        let mut out: Vec<u32> = Vec::new();
        if component_types.len() == 0 {
            return out;
        }
        let mut entity: u32 = 0;
        while entity < self.entity_counter
            invariant
                entity <= self.spec_entity_counter(),
                out@ == self.entities_having(component_types@, entity as nat),
            decreases self.spec_entity_counter() - entity,
        {
            if self.has_all_of(component_types, entity) {
                out.push(entity);
            }
            entity = entity + 1;
        }
        out
    }
}

// ---------------------------------------------------------------------------
// World
// ---------------------------------------------------------------------------

/// The world: all components and all resources.
pub struct World<C, R> {
    /// The components, by type key and entity.
    pub components: ComponentStorage<C>,
    /// The resources, by type key.
    pub resources: ResourceStorage<R>,
}

impl<C, R> World<C, R> {
    /// An empty world.
    pub fn new() -> (w: Self)
        ensures
            w.components.spec_storages() == Map::<u64, ComponentVec<C>>::empty(),
            w.components.spec_entity_counter() == 0,
            w.resources@ == Map::<u64, R>::empty(),
    {
        World { components: ComponentStorage::new(), resources: ResourceStorage::new() }
    }

    /// Hands out the next entity index.
    pub fn create_entity(&mut self) -> (e: u32)
        requires
            old(self).components.spec_entity_counter() < u32::MAX,
        ensures
            e == old(self).components.spec_entity_counter(),
            final(self).components.spec_entity_counter() == old(self).components.spec_entity_counter() + 1,
            final(self).components.spec_storages() == old(self).components.spec_storages(),
            final(self).resources@ == old(self).resources@,
    {
        self.components.create_entity()
    }

    /// Stores `component` as the component of type `type_key` of `entity`.
    pub fn add_component(&mut self, type_key: u64, entity: u32, component: C)
        ensures
            final(self).components.spec_entity_counter() == old(self).components.spec_entity_counter(),
            final(self).components.component(type_key, entity) == Some(component),
            forall|k: u64, e: u32| (k != type_key || e != entity) ==> #[trigger] final(self).components.component(k, e) == old(self).components.component(k, e),
            final(self).components.spec_storages().dom() == old(self).components.spec_storages().dom().insert(type_key),
            final(self).resources@ == old(self).resources@,
    {
        self.components.add_component(type_key, entity, component);
    }

    /// The component of type `type_key` of `entity`, if any.
    pub fn get_component(&self, type_key: u64, entity: u32) -> (r: Option<&C>)
        ensures
            r == match self.components.component(type_key, entity) {
                Some(c) => Some(&c),
                None => None::<&C>,
            },
    {
        self.components.get_direct(type_key, entity)
    }

    /// Mutable access to the component of type `type_key` of `entity`, if any.
    pub fn get_component_mut(&mut self, type_key: u64, entity: u32) -> (r: Option<&mut C>)
        ensures
            final(self).components.spec_entity_counter() == old(self).components.spec_entity_counter(),
            final(self).components.spec_storages().dom() == old(self).components.spec_storages().dom().insert(type_key),
            old(self).components.component(type_key, entity) is Some <==> r is Some,
            r matches Some(c) ==> old(self).components.component(type_key, entity) == Some(*c)
                && final(self).components.component(type_key, entity) == Some(*final(c)),
            r is None ==> final(self).components.component(type_key, entity) is None,
            forall|k: u64, e: u32| (k != type_key || e != entity) ==> #[trigger] final(self).components.component(k, e) == old(self).components.component(k, e),
            final(self).resources@ == old(self).resources@,
    {
        self.components.get_mut_direct(type_key, entity)
    }

    /// Removes and returns the component of type `type_key` of `entity`.
    pub fn remove_component(&mut self, type_key: u64, entity: u32) -> (r: Option<C>)
        ensures
            r == old(self).components.component(type_key, entity),
            final(self).components.component(type_key, entity) is None,
            forall|k: u64, e: u32| (k != type_key || e != entity) ==> #[trigger] final(self).components.component(k, e) == old(self).components.component(k, e),
            final(self).components.spec_entity_counter() == old(self).components.spec_entity_counter(),
            final(self).components.spec_storages().dom() == old(self).components.spec_storages().dom().insert(type_key),
            final(self).resources@ == old(self).resources@,
    {
        self.components.remove_component(type_key, entity)
    }

    /// Stores `resource` under `type_key`, replacing any earlier one.
    pub fn insert_resource(&mut self, type_key: u64, resource: R)
        ensures
            final(self).resources@ == old(self).resources@.insert(type_key, resource),
            final(self).components == old(self).components,
    {
        self.resources.insert(type_key, resource);
    }

    /// The resource under `type_key`, if any.
    pub fn get_resource(&self, type_key: u64) -> (r: Option<&R>)
        ensures
            r == if self.resources@.dom().contains(type_key) { Some(&self.resources@[type_key]) } else { None::<&R> },
    {
        self.resources.get_direct(type_key)
    }

    /// Mutable access to the resource under `type_key`, if any.
    pub fn get_resource_mut(&mut self, type_key: u64) -> (r: Option<&mut R>)
        ensures
            old(self).resources@.dom().contains(type_key) <==> r is Some,
            r matches Some(v) ==> *v == old(self).resources@[type_key] && final(self).resources@ == old(self).resources@.insert(type_key, *final(v)),
            r is None ==> final(self).resources@ == old(self).resources@,
            final(self).components == old(self).components,
    {
        self.resources.get_mut_direct(type_key)
    }

    /// Removes and returns the resource under `type_key`, if any.
    pub fn remove_resource(&mut self, type_key: u64) -> (r: Option<R>)
        ensures
            final(self).resources@ == old(self).resources@.remove(type_key),
            r == if old(self).resources@.dom().contains(type_key) { Some(old(self).resources@[type_key]) } else { None::<R> },
            final(self).components == old(self).components,
    {
        self.resources.remove(type_key)
    }

    /// Whether a resource is stored under `type_key`.
    pub fn has_resource(&self, type_key: u64) -> (r: bool)
        ensures
            r == self.resources@.dom().contains(type_key),
    {
        self.resources.contains(type_key)
    }

    /// Read access to the vector of the components of type `type_key`.
    pub fn get_component_read_guard_by_id(&self, type_key: u64) -> (r: Option<&ComponentVec<C>>)
        ensures
            r == if self.components.spec_storages().dom().contains(type_key) {
                Some(&self.components.spec_storages()[type_key])
            } else {
                None::<&ComponentVec<C>>
            },
    {
        self.components.get_component_read_guard_by_id(type_key)
    }

    /// Write access to the vector of the components of type `type_key`.
    pub fn get_component_write_guard_by_id(&mut self, type_key: u64) -> (r: Option<&mut ComponentVec<C>>)
        ensures
            final(self).components.spec_entity_counter() == old(self).components.spec_entity_counter(),
            old(self).components.spec_storages().dom().contains(type_key) <==> r is Some,
            r matches Some(v) ==> *v == old(self).components.spec_storages()[type_key]
                && final(self).components.spec_storages() == old(self).components.spec_storages().insert(type_key, *final(v)),
            r is None ==> final(self).components.spec_storages() == old(self).components.spec_storages(),
            final(self).resources@ == old(self).resources@,
    {
        self.components.get_component_write_guard_by_id(type_key)
    }

    /// The entities handed out so far that have a component of every given
    /// type (see `ComponentStorage::find_entities_with_components`).
    pub fn find_entities_with_components(&self, component_types: &[u64]) -> (r: Vec<u32>)
        ensures
            r@ == if component_types@.len() == 0 {
                Seq::<u32>::empty()
            } else {
                self.components.entities_having(component_types@, self.components.spec_entity_counter() as nat)
            },
    {
        self.components.find_entities_with_components(component_types)
    }

    /// Whether `entity` has a component of every given type.
    pub fn has_all_components(&self, entity: u32, component_types: Vec<u64>) -> (r: bool)
        ensures
            r == self.components.has_all(component_types@, entity),
    {
        self.components.has_all_components(entity, component_types)
    }

    /// The entities a query with the given access visits: the accessed
    /// component types that have a vector are locked (those read, then those
    /// written), and the entities handed out so far that have a component of
    /// every locked type are visited, in increasing order; none when no
    /// accessed type has a vector.
    pub fn matching_entities(&self, access: &SystemAccess) -> (r: Vec<u32>)
        ensures
            r@ == if exists|i: int| 0 <= i < access.component_access@.len()
                && self.components.spec_storages().dom().contains(#[trigger] access.component_access@[i].type_id) {
                self.components.entities_matching(access.component_access@, self.components.spec_entity_counter() as nat)
            } else {
                Seq::<u32>::empty()
            },
    {
        let accs = &access.component_access;
        let ghost stored = self.components.spec_storages().dom();
        let mut locked: Vec<u64> = Vec::new();
        let mut pass: usize = 0;
        while pass < 2
            invariant
                pass <= 2,
                stored == self.components.spec_storages().dom(),
                forall|j: int| 0 <= j < locked@.len() ==> stored.contains(#[trigger] locked@[j])
                    && exists|k: int| 0 <= k < accs@.len() && accs@[k].type_id == locked@[j],
                forall|k: int| 0 <= k < accs@.len() && stored.contains(#[trigger] accs@[k].type_id)
                    && (pass == 2 || (pass == 1 && accs@[k].access_type == AccessType::Read))
                    ==> locked@.contains(accs@[k].type_id),
            decreases 2 - pass,
        {
            let wanted = if pass == 0 { AccessType::Read } else { AccessType::Write };
            let mut i: usize = 0;
            while i < accs.len()
                invariant
                    pass < 2,
                    i <= accs@.len(),
                    stored == self.components.spec_storages().dom(),
                    wanted == if pass == 0 { AccessType::Read } else { AccessType::Write },
                    forall|j: int| 0 <= j < locked@.len() ==> stored.contains(#[trigger] locked@[j])
                        && exists|k: int| 0 <= k < accs@.len() && accs@[k].type_id == locked@[j],
                    forall|k: int| 0 <= k < accs@.len() && stored.contains(#[trigger] accs@[k].type_id)
                        && ((pass == 1 && accs@[k].access_type == AccessType::Read)
                            || (k < i && accs@[k].access_type == wanted))
                        ==> locked@.contains(accs@[k].type_id),
                decreases accs@.len() - i,
            {
                let a = accs[i];
                let ghost before = locked@;
                if a.access_type == wanted && self.components.get_component_storage(a.type_id).is_some() {
                    locked.push(a.type_id);
                    proof {
                        assert(locked@[before.len() as int] == a.type_id);
                        assert forall|x: u64| before.contains(x) implies locked@.contains(x) by {
                            let t = choose|t: int| 0 <= t < before.len() && before[t] == x;
                            assert(locked@[t] == x);
                        }
                        assert forall|j: int| 0 <= j < locked@.len() implies stored.contains(#[trigger] locked@[j])
                            && exists|k: int| 0 <= k < accs@.len() && accs@[k].type_id == locked@[j] by {
                            if j < before.len() {
                                assert(locked@[j] == before[j]);
                            } else {
                                assert(accs@[i as int].type_id == locked@[j]);
                            }
                        }
                    }
                }
                i = i + 1;
            }
            proof {
                assert forall|k: int| 0 <= k < accs@.len() && stored.contains(#[trigger] accs@[k].type_id)
                    && (pass + 1 == 2 || (pass + 1 == 1 && accs@[k].access_type == AccessType::Read))
                    implies locked@.contains(accs@[k].type_id) by {
                    if pass == 1 && accs@[k].access_type != AccessType::Read {
                        assert(accs@[k].access_type == AccessType::Write);
                    }
                }
            }
            pass = pass + 1;
        }
        if locked.len() == 0 {
            proof {
                assert forall|i: int| 0 <= i < accs@.len() implies !stored.contains(#[trigger] accs@[i].type_id) by {
                    if stored.contains(accs@[i].type_id) {
                        assert(locked@.contains(accs@[i].type_id));
                    }
                }
            }
            let r: Vec<u32> = Vec::new();
            assert(r@ =~= Seq::<u32>::empty());
            return r;
        }
        proof {
            let k = choose|k: int| 0 <= k < accs@.len() && accs@[k].type_id == locked@[0];
            assert(stored.contains(accs@[k].type_id));
            assert forall|e: u32| #[trigger] self.components.has_all(locked@, e) == self.components.query_match(accs@, e) by {
                if self.components.has_all(locked@, e) {
                    assert forall|i: int| 0 <= i < accs@.len() && stored.contains(#[trigger] accs@[i].type_id)
                        implies self.components.component(accs@[i].type_id, e) is Some by {
                        assert(locked@.contains(accs@[i].type_id));
                        let t = choose|t: int| 0 <= t < locked@.len() && locked@[t] == accs@[i].type_id;
                        assert(self.components.component(locked@[t], e) is Some);
                    }
                }
                if self.components.query_match(accs@, e) {
                    assert forall|j: int| 0 <= j < locked@.len() implies self.components.component(#[trigger] locked@[j], e) is Some by {
                        let k2 = choose|k2: int| 0 <= k2 < accs@.len() && accs@[k2].type_id == locked@[j];
                        assert(stored.contains(accs@[k2].type_id));
                    }
                }
            }
            self.components.lemma_same_entities(locked@, accs@, self.components.spec_entity_counter() as nat);
        }
        self.components.find_entities_with_components(locked.as_slice())
    }
}

impl<C> ComponentStorage<C> {
    /// `entity` has a component of every accessed type that has a vector.
    pub open spec fn query_match(&self, accs: Seq<DataAccess>, entity: u32) -> bool {
        forall|i: int| 0 <= i < accs.len() && self.spec_storages().dom().contains(#[trigger] accs[i].type_id)
            ==> self.component(accs[i].type_id, entity) is Some
    }

    /// The entities `e < n` that `query_match` accepts, in increasing order.
    pub open spec fn entities_matching(&self, accs: Seq<DataAccess>, n: nat) -> Seq<u32>
        decreases n,
    {
        if n == 0 {
            Seq::empty()
        } else {
            let before = self.entities_matching(accs, (n - 1) as nat);
            if self.query_match(accs, (n - 1) as u32) {
                before.push((n - 1) as u32)
            } else {
                before
            }
        }
    }

    proof fn lemma_same_entities(&self, types: Seq<u64>, accs: Seq<DataAccess>, n: nat)
        requires
            forall|e: u32| #[trigger] self.has_all(types, e) == self.query_match(accs, e),
        ensures
            self.entities_having(types, n) == self.entities_matching(accs, n),
        decreases n,
    {
        if n > 0 {
            self.lemma_same_entities(types, accs, (n - 1) as nat);
            assert(self.has_all(types, (n - 1) as u32) == self.query_match(accs, (n - 1) as u32));
        }
    }
}

} // verus!
