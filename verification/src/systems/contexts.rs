//! Scoped dependency and storage access handed to systems at each callback.
//! Bindings never own runtime instances.

use crate::ids::{EntityId, WorldId};
use crate::systems::{found, SystemBox, SystemInitError, SystemInstance, System};
use crate::ids::SystemId;
use crate::world::{
    Command, ComponentStorage, ComponentValue, EntityMetadata, EntityRecord, EntityRef,
    WorldEntityState, WorldMutationState, WorldSimulationState, assoc,
};
use crate::ids::ErrorReason;
use std::marker::PhantomData;
use vstd::prelude::*;

verus! {

/// Copy of a vector of plain values.
pub fn copy_vec<T: Copy>(v: &Vec<T>) -> (r: Vec<T>)
    ensures
        r@ == v@,
{
    let mut out: Vec<T> = Vec::new();
    let mut i: usize = 0;
    while i < v.len()
        invariant
            i <= v@.len(),
            out@ == v@.subrange(0, i as int),
        decreases v@.len() - i,
    {
        out.push(v[i]);
        i = i + 1;
        assert(out@ =~= v@.subrange(0, i as int));
    }
    assert(out@ =~= v@);
    out
}

/// A typed slot resolved by a factory, usable only by that dependent in its World.
#[derive(Debug)]
pub struct SystemDependencyBinding<T> {
    pub world: usize,
    pub dependent: usize,
    pub slot: usize,
    pub marker: PhantomData<T>,
}

impl<T> SystemDependencyBinding<T> {
    /// Copy of this binding's resolution metadata.
    pub fn copy(&self) -> (r: Self)
        ensures
            r.world == self.world,
            r.dependent == self.dependent,
            r.slot == self.slot,
    {
        SystemDependencyBinding {
            world: self.world,
            dependent: self.dependent,
            slot: self.slot,
            marker: PhantomData,
        }
    }
}

/// Owned effective values observed at one callback boundary.
#[derive(Debug)]
pub struct SystemEffectiveEntitySnapshot {
    pub id: EntityId,
    pub metadata: EntityMetadata,
    pub components: Vec<ComponentValue>,
}

/// `values` holds exactly the components stored for a slot, one per type,
/// ascending by type identity.
pub open spec fn effective_at(storage: ComponentStorage, index: usize, values: Seq<ComponentValue>) -> bool {
    &&& forall|i: int|
        0 <= i < values.len() ==> storage.occupied(#[trigger] values[i].type_id, index)
            && values[i].fields@ == storage.value(values[i].type_id, index).fields@
    &&& forall|c: u16|
        storage.occupied(c, index) ==> exists|i: int|
            0 <= i < values.len() && #[trigger] values[i].type_id == c
    &&& forall|i: int, j: int| 0 <= i < j < values.len() ==> values[i].type_id < values[j].type_id
}

/// What an effective inspection of one entity observes.
pub open spec fn snapshot_of(
    world: WorldSimulationState,
    authored: WorldEntityState,
    entity: EntityId,
    snapshot: SystemEffectiveEntitySnapshot,
) -> bool {
    &&& authored.allocator.live(entity)
    &&& authored.record(entity) is Some
    &&& snapshot.id == entity
    &&& snapshot.metadata == authored.record(entity).unwrap().metadata
    &&& effective_at(world.components, entity.spec_index() as usize, snapshot.components@)
}

/// Identities of live records, in record order.
pub open spec fn live_ids(records: Seq<EntityRecord>, authored: WorldEntityState) -> Seq<EntityId>
    decreases records.len(),
{
    if records.len() == 0 {
        Seq::empty()
    } else {
        let rest = live_ids(records.drop_last(), authored);
        if authored.allocator.live(records.last().id) {
            rest.push(records.last().id)
        } else {
            rest
        }
    }
}

/// Live identities come from the records, and ascend strictly when the
/// records do.
pub proof fn lemma_live_ids_ascending(records: Seq<EntityRecord>, authored: WorldEntityState)
    requires
        crate::world::records_sorted(records),
    ensures
        forall|k: int| #![trigger live_ids(records, authored)[k]] 0 <= k < live_ids(records, authored).len() ==> exists|i: int|
            0 <= i < records.len() && records[i].id == live_ids(records, authored)[k],
        forall|a: int, b: int| 0 <= a < b < live_ids(records, authored).len() ==> (#[trigger] live_ids(records, authored)[a]).bits
            < (#[trigger] live_ids(records, authored)[b]).bits,
    decreases records.len(),
{
    if records.len() > 0 {
        let rest = records.drop_last();
        assert(crate::world::records_sorted(rest)) by {
            assert forall|i: int, j: int| 0 <= i < j < rest.len() implies rest[i].id.bits < rest[j].id.bits by {
                assert(records[i].id.bits < records[j].id.bits);
            }
        }
        lemma_live_ids_ascending(rest, authored);
        let lr = live_ids(rest, authored);
        let l = live_ids(records, authored);
        let n = records.len() - 1;
        assert forall|k: int| 0 <= k < lr.len() implies #[trigger] lr[k].bits < records[n].id.bits by {
            let i = choose|i: int| 0 <= i < rest.len() && rest[i].id == lr[k];
            assert(records[i].id.bits < records[n].id.bits);
        }
        assert forall|k: int| #![trigger l[k]] 0 <= k < l.len() implies exists|i: int| 0 <= i < records.len() && records[i].id == l[k] by {
            if k < lr.len() {
                assert(l[k] == lr[k]);
                let i = choose|i: int| 0 <= i < rest.len() && rest[i].id == lr[k];
                assert(records[i] == rest[i]);
            } else {
                assert(records[n].id == l[k]);
            }
        }
        assert forall|a: int, b: int| 0 <= a < b < l.len() implies (#[trigger] l[a]).bits < (#[trigger] l[b]).bits by {
            assert(l[a] == lr[a]);
            if b < lr.len() {
                assert(l[b] == lr[b]);
            } else {
                assert(lr[a].bits < records[n].id.bits);
            }
        }
    }
}

/// Two snapshots observe the same thing: identity, metadata, and the same
/// components with the same fields, in the same order.
pub open spec fn same_observation(a: SystemEffectiveEntitySnapshot, b: SystemEffectiveEntitySnapshot) -> bool {
    &&& a.id == b.id
    &&& a.metadata == b.metadata
    &&& a.components@.len() == b.components@.len()
    &&& forall|i: int| 0 <= i < a.components@.len() ==> (#[trigger] a.components@[i]).type_id == b.components@[i].type_id
        && a.components@[i].fields@ == b.components@[i].fields@
}

/// Some component of a list has a type.
spec fn has_type(s: Seq<ComponentValue>, t: u16) -> bool {
    exists|q: int| 0 <= q < s.len() && #[trigger] s[q].type_id == t
}

proof fn lemma_same_types(a: Seq<ComponentValue>, b: Seq<ComponentValue>, storage: ComponentStorage, index: usize)
    requires
        effective_at(storage, index, a),
        effective_at(storage, index, b),
    ensures
        a.len() == b.len(),
        forall|i: int| 0 <= i < a.len() ==> (#[trigger] a[i]).type_id == b[i].type_id,
    decreases a.len() + b.len(),
{
    if a.len() > 0 && b.len() > 0 {
        assert(storage.occupied(a[0].type_id, index));
        assert(storage.occupied(b[0].type_id, index));
        let j = choose|j: int| 0 <= j < b.len() && #[trigger] b[j].type_id == a[0].type_id;
        let k = choose|k: int| 0 <= k < a.len() && #[trigger] a[k].type_id == b[0].type_id;
        if j > 0 {
            assert(b[0].type_id < b[j].type_id);
        }
        if k > 0 {
            assert(a[0].type_id < a[k].type_id);
        }
        assert(a[0].type_id == b[0].type_id);
        let t = a[0].type_id;
        let storage1 = storage;
        let (a1, b1) = (a.drop_first(), b.drop_first());
        // The rest of each holds the occupied types other than the first.
        assert forall|i: int| 0 <= i < a1.len() implies has_type(b1, (#[trigger] a1[i]).type_id) by {
            assert(a[0].type_id < a[i + 1].type_id);
            assert(storage.occupied(a[i + 1].type_id, index));
            let q = choose|q: int| 0 <= q < b.len() && #[trigger] b[q].type_id == a[i + 1].type_id;
            assert(q != 0);
            assert(b1[q - 1].type_id == a1[i].type_id);
        }
        assert forall|i: int| 0 <= i < b1.len() implies has_type(a1, (#[trigger] b1[i]).type_id) by {
            assert(b[0].type_id < b[i + 1].type_id);
            assert(storage.occupied(b[i + 1].type_id, index));
            let q = choose|q: int| 0 <= q < a.len() && #[trigger] a[q].type_id == b[i + 1].type_id;
            assert(q != 0);
            assert(a1[q - 1].type_id == b1[i].type_id);
        }
        lemma_same_types_rest(a1, b1);
        assert forall|i: int| 0 <= i < a.len() implies (#[trigger] a[i]).type_id == b[i].type_id by {
            if i > 0 {
                assert(a1[i - 1].type_id == b1[i - 1].type_id);
            }
        }
    } else if a.len() > 0 {
        assert(storage.occupied(a[0].type_id, index));
    } else if b.len() > 0 {
        assert(storage.occupied(b[0].type_id, index));
    }
}

/// Strictly ascending type lists with the same members are equal.
proof fn lemma_same_types_rest(a: Seq<ComponentValue>, b: Seq<ComponentValue>)
    requires
        forall|i: int, j: int| 0 <= i < j < a.len() ==> a[i].type_id < a[j].type_id,
        forall|i: int, j: int| 0 <= i < j < b.len() ==> b[i].type_id < b[j].type_id,
        forall|i: int| 0 <= i < a.len() ==> has_type(b, (#[trigger] a[i]).type_id),
        forall|i: int| 0 <= i < b.len() ==> has_type(a, (#[trigger] b[i]).type_id),
    ensures
        a.len() == b.len(),
        forall|i: int| 0 <= i < a.len() ==> (#[trigger] a[i]).type_id == b[i].type_id,
    decreases a.len() + b.len(),
{
    if a.len() > 0 && b.len() > 0 {
        let j = choose|j: int| 0 <= j < b.len() && #[trigger] b[j].type_id == a[0].type_id;
        let k = choose|k: int| 0 <= k < a.len() && #[trigger] a[k].type_id == b[0].type_id;
        if j > 0 {
            assert(b[0].type_id < b[j].type_id);
        }
        if k > 0 {
            assert(a[0].type_id < a[k].type_id);
        }
        let (a1, b1) = (a.drop_first(), b.drop_first());
        assert forall|i: int| 0 <= i < a1.len() implies has_type(b1, (#[trigger] a1[i]).type_id) by {
            assert(a[0].type_id < a[i + 1].type_id);
            let q = choose|q: int| 0 <= q < b.len() && #[trigger] b[q].type_id == a[i + 1].type_id;
            assert(q != 0);
            assert(b1[q - 1].type_id == a1[i].type_id);
        }
        assert forall|i: int| 0 <= i < b1.len() implies has_type(a1, (#[trigger] b1[i]).type_id) by {
            assert(b[0].type_id < b[i + 1].type_id);
            let q = choose|q: int| 0 <= q < a.len() && #[trigger] a[q].type_id == b[i + 1].type_id;
            assert(q != 0);
            assert(a1[q - 1].type_id == b1[i].type_id);
        }
        lemma_same_types_rest(a1, b1);
        assert forall|i: int| 0 <= i < a.len() implies (#[trigger] a[i]).type_id == b[i].type_id by {
            if i > 0 {
                assert(a1[i - 1].type_id == b1[i - 1].type_id);
            }
        }
    } else if a.len() > 0 {
        let q = choose|q: int| 0 <= q < b.len() && #[trigger] b[q].type_id == a[0].type_id;
    } else if b.len() > 0 {
        let q = choose|q: int| 0 <= q < a.len() && #[trigger] a[q].type_id == b[0].type_id;
    }
}

/// An inspection observes one thing: two snapshots that are both what
/// inspecting an entity observes agree. So every entity `entities_effective`
/// lists is what `inspect_effective` of its identity returns.
pub proof fn lemma_inspection_unique(
    world: WorldSimulationState,
    authored: WorldEntityState,
    entity: EntityId,
    a: SystemEffectiveEntitySnapshot,
    b: SystemEffectiveEntitySnapshot,
)
    requires
        snapshot_of(world, authored, entity, a),
        snapshot_of(world, authored, entity, b),
    ensures
        same_observation(a, b),
{
    lemma_same_types(a.components@, b.components@, world.components, entity.spec_index() as usize);
    assert forall|i: int| 0 <= i < a.components@.len() implies (#[trigger] a.components@[i]).type_id
        == b.components@[i].type_id && a.components@[i].fields@ == b.components@[i].fields@ by {
        assert(a.components@[i].type_id == b.components@[i].type_id);
    }
}

/// Read-only ECS observation during construction and lifecycle callbacks.
pub struct SystemWorldView<'a> {
    pub world: &'a WorldSimulationState,
    pub authored: &'a WorldEntityState,
}

impl<'a> SystemWorldView<'a> {
    pub open spec fn wf(&self) -> bool {
        self.world.wf() && self.authored.wf()
    }

    /// Frame receiving the next ordered mutation.
    pub fn next_tick(&self) -> (r: u64)
        ensures
            r == if self.world.tick == u64::MAX { u64::MAX as int } else { self.world.tick + 1 },
    {
        self.world.tick.saturating_add(1)
    }

    /// Identity within the owning Host.
    pub fn id(&self) -> (r: WorldId)
        ensures
            r == self.world.id,
    {
        self.world.id
    }

    /// Observe current effective components of a live authored entity.
    pub fn inspect_effective(&self, entity: EntityId) -> (r: Option<SystemEffectiveEntitySnapshot>)
        requires
            self.wf(),
        ensures
            r is Some <==> self.authored.allocator.live(entity) && self.authored.record(entity) is Some,
            r matches Some(s) ==> snapshot_of(*self.world, *self.authored, entity, s),
    {
        if !self.authored.allocator.contains(entity) {
            return None;
        }
        let record = match self.authored.get(entity) {
            Some(record) => record,
            None => return None,
        };
        let mut components: Vec<ComponentValue> = Vec::new();
        self.world.components.inspect(entity.index() as usize, &mut components);
        Some(SystemEffectiveEntitySnapshot { id: entity, metadata: record.metadata, components })
    }

    /// Read occupied effective storage of a live entity.
    pub fn effective_component(&self, entity: EntityId, component: u16) -> (r: Option<ComponentValue>)
        requires
            self.wf(),
        ensures
            r is Some <==> self.authored.allocator.live(entity)
                && self.world.components.occupied(component, entity.spec_index() as usize),
            r matches Some(v) ==> v.type_id == component && v.fields@ == self.world.components.value(
                component,
                entity.spec_index() as usize,
            ).fields@,
    {
        if !self.authored.allocator.contains(entity) {
            return None;
        }
        let r = self.world.components.get(component, entity.index() as usize);
        proof {
            if r is Some {
                let k = choose|i: int|
                    0 <= i < self.world.components.slots@.len()
                        && self.world.components.slots@[i].index == entity.spec_index() as usize
                        && self.world.components.slots@[i].value.type_id == component;
            }
        }
        r
    }

    /// Live entities in stable order, with owned observations.
    pub fn entities_effective(&self) -> (r: Vec<SystemEffectiveEntitySnapshot>)
        requires
            self.wf(),
        ensures
            r@.len() == live_ids(self.authored.entities@, *self.authored).len(),
            forall|i: int|
                #![trigger r@[i]]
                0 <= i < r@.len() ==> r@[i].id == live_ids(self.authored.entities@, *self.authored)[i]
                    && snapshot_of(*self.world, *self.authored, r@[i].id, r@[i]),
            forall|a: int, b: int| 0 <= a < b < r@.len() ==> (#[trigger] r@[a]).id.bits < (#[trigger] r@[b]).id.bits,
    {
        proof {
            lemma_live_ids_ascending(self.authored.entities@, *self.authored);
        }
        let mut out: Vec<SystemEffectiveEntitySnapshot> = Vec::new();
        let mut i: usize = 0;
        while i < self.authored.entities.len()
            invariant
                self.wf(),
                i <= self.authored.entities@.len(),
                out@.len() == live_ids(self.authored.entities@.subrange(0, i as int), *self.authored).len(),
                forall|k: int|
                    #![trigger out@[k]]
                    0 <= k < out@.len() ==> out@[k].id == live_ids(
                        self.authored.entities@.subrange(0, i as int),
                        *self.authored,
                    )[k] && snapshot_of(*self.world, *self.authored, out@[k].id, out@[k]),
            decreases self.authored.entities@.len() - i,
        {
            let id = self.authored.entities[i].id;
            proof {
                let pre = self.authored.entities@.subrange(0, i as int);
                let next = self.authored.entities@.subrange(0, i + 1);
                assert(next.drop_last() =~= pre);
                assert(self.authored.record(id) is Some) by {
                    assert(self.authored.entities@[i as int].id == id);
                    crate::world::lemma_find_record(self.authored.entities@, id);
                }
            }
            match self.inspect_effective(id) {
                Some(snapshot) => {
                    out.push(snapshot);
                },
                None => {},
            }
            i = i + 1;
        }
        assert(self.authored.entities@.subrange(0, i as int) =~= self.authored.entities@);
        out
    }
}

/// The first declared predecessor whose identity matches.
pub open spec fn first_declared(declared: Seq<usize>, instances: Seq<SystemInstance>, id: SystemId) -> Option<usize>
    decreases declared.len(),
{
    if declared.len() == 0 {
        None
    } else if declared[0] < instances.len() && instances[declared[0] as int].id.same(id) {
        Some(declared[0])
    } else {
        first_declared(declared.drop_first(), instances, id)
    }
}

/// Factory access to already initialized, declared predecessors.
pub struct SystemInitContext<'a> {
    pub identity: usize,
    pub dependent: usize,
    pub declared_dependencies: &'a [usize],
    pub instances: &'a [SystemInstance],
    pub world: SystemWorldView<'a>,
}

impl<'a> SystemInitContext<'a> {
    /// Whether an identity names a declared predecessor of the requested type.
    pub open spec fn dependency_resolves<T: System>(&self, id: SystemId) -> bool {
        match first_declared(self.declared_dependencies@, self.instances@, id) {
            None => false,
            Some(slot) => self.instances@[slot as int].system.spec_kind() == T::spec_kind(),
        }
    }

    /// Resolve an explicitly declared predecessor and validate its concrete type.
    pub fn dependency<T: System>(&self, id: SystemId) -> (r: Result<SystemDependencyBinding<T>, SystemInitError>)
        ensures
            match first_declared(self.declared_dependencies@, self.instances@, id) {
                None => r matches Err(SystemInitError::UnavailableDependency(e)) && e == id,
                Some(slot) => if self.instances@[slot as int].system.spec_kind() == T::spec_kind() {
                    r matches Ok(b) && b.world == self.identity && b.dependent == self.dependent
                        && b.slot == slot
                } else {
                    r matches Err(SystemInitError::DependencyType(e)) && e == id
                },
            },
    {
        let mut i: usize = 0;
        assert(self.declared_dependencies@.subrange(0, self.declared_dependencies@.len() as int)
            =~= self.declared_dependencies@);
        while i < self.declared_dependencies.len()
            invariant
                i <= self.declared_dependencies@.len(),
                first_declared(self.declared_dependencies@, self.instances@, id) == first_declared(
                    self.declared_dependencies@.subrange(i as int, self.declared_dependencies@.len() as int),
                    self.instances@,
                    id,
                ),
            decreases self.declared_dependencies@.len() - i,
        {
            let ghost s = self.declared_dependencies@.subrange(
                i as int,
                self.declared_dependencies@.len() as int,
            );
            let index = self.declared_dependencies[i];
            assert(s[0] == index);
            if index < self.instances.len() && self.instances[index].id.equals(&id) {
                if T::downcast(&self.instances[index].system).is_none() {
                    return Err(SystemInitError::DependencyType(id));
                }
                return Ok(SystemDependencyBinding {
                    world: self.identity,
                    dependent: self.dependent,
                    slot: index,
                    marker: PhantomData,
                });
            }
            assert(s.drop_first() =~= self.declared_dependencies@.subrange(
                i + 1,
                self.declared_dependencies@.len() as int,
            ));
            i = i + 1;
        }
        Err(SystemInitError::UnavailableDependency(id))
    }

    /// Inspect the initialized predecessor while constructing dependent state.
    pub fn get<T: System>(&self, binding: &SystemDependencyBinding<T>) -> (r: Option<&T>)
        ensures
            r is Some <==> binding.world == self.identity && binding.dependent == self.dependent
                && binding.slot < self.instances@.len()
                && self.instances@[binding.slot as int].system.spec_kind() == T::spec_kind(),
            binding.world == self.identity && binding.dependent == self.dependent ==> found(
                r,
                slot_instance::<T>(self.instances@, binding.slot),
            ),
    {
        if binding.world != self.identity || binding.dependent != self.dependent {
            return None;
        }
        slot_of(self.instances, binding.slot)
    }
}

/// Synchronous invalidation with old storage retained until every handler finishes.
pub struct SystemCommitContext<'a> {
    pub world_data: &'a WorldSimulationState,
    pub staged: &'a WorldMutationState,
    pub evaluated: bool,
    pub cleanup: &'a mut Vec<(EntityId, ComponentValue)>,
}

/// Whether a touched component preserves its exact effective incarnation.
pub open spec fn retains(staged: WorldMutationState, entity: EntityId, component: u16) -> bool {
    let after = staged.entities_state.spec_input(entity, component);
    let before = match assoc(staged.changed@, (entity, component)) {
        Some(b) => b,
        None => after,
    };
    before is Some && before == after
}

impl<'a> SystemCommitContext<'a> {
    /// Evaluated writes preserve driver baselines and publish no authored changes.
    pub fn is_evaluated(&self) -> (r: bool)
        ensures
            r == self.evaluated,
    {
        self.evaluated
    }

    /// Updated authored metadata and still-live effective storage.
    pub fn world(&self) -> (r: SystemWorldView<'_>)
        ensures
            *r.world == *self.world_data,
            *r.authored == self.staged.entities_state,
    {
        SystemWorldView { world: &*self.world_data, authored: &self.staged.entities_state }
    }

    /// Every component touched by the operation, in record order.
    pub fn changed_components(&self) -> (r: Vec<(EntityId, u16)>)
        ensures
            r@.len() == self.staged.changed@.len(),
            forall|i: int| 0 <= i < r@.len() ==> r@[i] == self.staged.changed@[i].0,
    {
        let mut out: Vec<(EntityId, u16)> = Vec::new();
        let mut i: usize = 0;
        while i < self.staged.changed.len()
            invariant
                i <= self.staged.changed@.len(),
                out@.len() == i,
                forall|k: int| 0 <= k < i ==> out@[k] == self.staged.changed@[k].0,
            decreases self.staged.changed@.len() - i,
        {
            out.push(self.staged.changed[i].0);
            i = i + 1;
        }
        out
    }

    /// Whether an affected component preserves its exact effective incarnation.
    pub fn retains_component(&self, entity: EntityId, component: u16) -> (r: bool)
        requires
            self.staged.entities_state.wf(),
        ensures
            r == retains(*self.staged, entity, component),
    {
        let after = self.staged.entities_state.input(entity, component);
        let before = match self.staged.changed_before(entity, component) {
            Some(b) => b,
            None => after,
        };
        before.is_some() && before == after
    }

    /// Queue restoration without dropping occupied storage during invalidation.
    pub fn restore_evaluated_component(&mut self, entity: EntityId, value: ComponentValue)
        ensures
            final(self).cleanup@ == old(self).cleanup@.push((entity, value)),
            final(self).evaluated == old(self).evaluated,
            *final(self).world_data == *old(self).world_data,
            *final(self).staged == *old(self).staged,
    {
        self.cleanup.push((entity, value));
    }
}

/// Batched notification before compiled numeric writes.
pub struct SystemNumericContext<'a> {
    pub world_data: &'a WorldSimulationState,
    pub changed: &'a [(EntityId, u16)],
}

impl<'a> SystemNumericContext<'a> {
    /// Numeric destinations which may be written by the following evaluation.
    pub fn changed_components(&self) -> (r: &[(EntityId, u16)])
        ensures
            r@ == self.changed@,
    {
        self.changed
    }

    /// Observe old values before the numeric write phase begins.
    pub fn world(&self) -> (r: SystemWorldView<'_>)
        ensures
            *r.world == *self.world_data,
            *r.authored == self.world_data.state,
    {
        SystemWorldView { world: self.world_data, authored: &self.world_data.state }
    }
}

/// The instance of type `T` held at a slot of a sequence, if any.
pub open spec fn slot_instance<T: System>(instances: Seq<SystemInstance>, slot: usize) -> Option<T> {
    if slot < instances.len() {
        T::spec_downcast(instances[slot as int].system)
    } else {
        None
    }
}

/// Typed slot lookup shared by every context that resolves bindings.
fn slot_of<'b, T: System>(instances: &'b [SystemInstance], slot: usize) -> (r: Option<&'b T>)
    ensures
        r is Some <==> slot < instances@.len() && instances@[slot as int].system.spec_kind()
            == T::spec_kind(),
        found(r, slot_instance::<T>(instances@, slot)),
{
    if slot >= instances.len() {
        return None;
    }
    T::downcast(&instances[slot].system)
}

/// Reverse-order teardown, including cleanup after partial initialization.
pub struct SystemTeardownContext<'a> {
    pub world: SystemWorldView<'a>,
    pub identity: usize,
    pub dependent: usize,
    pub instances: &'a [SystemInstance],
}

impl<'a> SystemTeardownContext<'a> {
    /// Earlier dependencies remain live until their dependents have shut down.
    pub fn dependency<T: System>(&self, binding: &SystemDependencyBinding<T>) -> (r: Option<&T>)
        ensures
            r is Some <==> binding.world == self.identity && binding.dependent == self.dependent
                && binding.slot < self.instances@.len()
                && self.instances@[binding.slot as int].system.spec_kind() == T::spec_kind(),
            binding.world == self.identity && binding.dependent == self.dependent ==> found(
                r,
                slot_instance::<T>(self.instances@, binding.slot),
            ),
    {
        if binding.world != self.identity || binding.dependent != self.dependent {
            return None;
        }
        slot_of(self.instances, binding.slot)
    }
}

/// A resolved slot lies among the instances.
proof fn lemma_first_declared_in_range(declared: Seq<usize>, instances: Seq<SystemInstance>, id: SystemId)
    ensures
        first_declared(declared, instances, id) matches Some(slot) ==> slot < instances.len(),
    decreases declared.len(),
{
    if declared.len() > 0 {
        lemma_first_declared_in_range(declared.drop_first(), instances, id);
    }
}

/// Teardown sees what initialization bound: a binding that initialization
/// resolved for a dependent reaches, while that dependent is torn down in the
/// same World with its predecessors still in place, the same predecessor,
/// and it is present.
pub proof fn lemma_teardown_sees_initialized_dependency<T: System>(
    init: SystemInitContext,
    teardown: SystemTeardownContext,
    id: SystemId,
    binding: SystemDependencyBinding<T>,
)
    requires
        first_declared(init.declared_dependencies@, init.instances@, id) == Some(binding.slot),
        init.instances@[binding.slot as int].system.spec_kind() == T::spec_kind(),
        binding.world == init.identity,
        binding.dependent == init.dependent,
        teardown.identity == init.identity,
        teardown.dependent == init.dependent,
        init.instances@.len() <= teardown.instances@.len(),
        teardown.instances@.take(init.instances@.len() as int) == init.instances@,
    ensures
        binding.slot < teardown.instances@.len(),
        teardown.instances@[binding.slot as int].system.spec_kind() == T::spec_kind(),
        slot_instance::<T>(teardown.instances@, binding.slot) == slot_instance::<T>(init.instances@, binding.slot),
{
    lemma_first_declared_in_range(init.declared_dependencies@, init.instances@, id);
    assert(teardown.instances@.take(init.instances@.len() as int)[binding.slot as int] == teardown.instances@[binding.slot as int]);
}

/// Phase-scoped generic storage borrows, separate from the receiving system's state.
pub struct SystemRuntimeAccess<'a> {
    pub world: &'a mut WorldSimulationState,
    pub before: &'a [SystemInstance],
}

impl<'a> SystemRuntimeAccess<'a> {
    /// Borrow a declared predecessor during command, lifecycle or restoration work.
    pub fn dependency<T: System>(&self, binding: &SystemDependencyBinding<T>) -> (r: Option<&T>)
        ensures
            r is Some <==> binding.world == old(self.world).identity && binding.dependent
                == self.before@.len() && binding.slot < self.before@.len()
                && self.before@[binding.slot as int].system.spec_kind() == T::spec_kind(),
            binding.world == old(self.world).identity && binding.dependent == self.before@.len() ==> found(
                r,
                slot_instance::<T>(self.before@, binding.slot),
            ),
    {
        if binding.world != self.world.identity || binding.dependent != self.before.len() {
            return None;
        }
        slot_of(self.before, binding.slot)
    }

    /// Identity of the World supplying component storage.
    pub fn id(&self) -> (r: WorldId)
        ensures
            r == old(self.world).id,
    {
        self.world.id
    }

    /// Owned effective observation against the committed records.
    pub fn inspect_effective(&self, entity: EntityId) -> (r: Option<SystemEffectiveEntitySnapshot>)
        requires
            self.world.wf(),
        ensures
            r is Some <==> old(self.world).state.allocator.live(entity) && old(self.world).state.record(entity) is Some,
            r matches Some(s) ==> snapshot_of(*old(self.world), old(self.world).state, entity, s),
    {
        let view = SystemWorldView { world: &*self.world, authored: &self.world.state };
        view.inspect_effective(entity)
    }
}

/// Scoped access while a resource transition is delivered.
pub struct SystemAssetContext<'a> {
    pub world: SystemRuntimeAccess<'a>,
    pub tick: u64,
}

impl<'a> SystemAssetContext<'a> {
    /// Observation boundary selected by the Host.
    pub fn tick(&self) -> (r: u64)
        ensures
            r == self.tick,
    {
        self.tick
    }

    /// Queue a restoration until every World finishes its invalidation handlers.
    pub fn restore_evaluated_component(&mut self, entity: EntityId, value: ComponentValue)
        ensures
            final(self).world.world.lifecycle_cleanup@ == old(self).world.world.lifecycle_cleanup@.push(
                (entity, value),
            ),
            final(self).tick == old(self).tick,
            final(self).world.before@ == old(self).world.before@,
            final(self).world.world.id == old(self).world.world.id,
            final(self).world.world.identity == old(self).world.world.identity,
            final(self).world.world.tick == old(self).world.world.tick,
            final(self).world.world.components == old(self).world.world.components,
            final(self).world.world.state == old(self).world.world.state,
            final(self).world.world.restoring == old(self).world.world.restoring,
            final(self).world.world.forced_cleanup == old(self).world.world.forced_cleanup,
    {
        self.world.world.lifecycle_cleanup.push((entity, value));
    }
}

/// Generic command-time access; interpretation belongs to the receiving system.
pub struct SystemCommandContext<'a> {
    pub world: SystemRuntimeAccess<'a>,
}

/// Applied lifecycle observation.
pub struct SystemLifecycleContext<'a> {
    pub world: SystemWorldView<'a>,
}

/// Borrowed predecessor view with bindings validated once during construction.
/// `trailing` holds the receiving instance and the instances after it.
pub struct SystemDependencies<'a> {
    pub identity: usize,
    pub dependent: usize,
    pub instances: &'a [SystemInstance],
    pub trailing: Option<(&'a SystemBox, &'a [SystemInstance])>,
}

/// Instance addressed by a slot across the preceding, current and trailing instances.
pub open spec fn dependency_slot_kind(deps: SystemDependencies, slot: usize) -> Option<crate::systems::SystemKind> {
    if slot < deps.instances@.len() {
        Some(deps.instances@[slot as int].system.spec_kind())
    } else {
        match deps.trailing {
            None => None,
            Some((current, after)) => if slot == deps.instances@.len() {
                Some(current.spec_kind())
            } else if slot - deps.instances@.len() - 1 < after@.len() {
                Some(after@[slot - deps.instances@.len() - 1].system.spec_kind())
            } else {
                None
            },
        }
    }
}

/// The instance of type `T` a slot addresses across the preceding, current
/// and trailing instances, if any.
pub open spec fn dependency_slot_instance<T: System>(deps: SystemDependencies, slot: usize) -> Option<T> {
    if slot < deps.instances@.len() {
        T::spec_downcast(deps.instances@[slot as int].system)
    } else {
        match deps.trailing {
            None => None,
            Some((current, after)) => if slot == deps.instances@.len() {
                T::spec_downcast(*current)
            } else {
                slot_instance::<T>(after@, (slot - deps.instances@.len() - 1) as usize)
            },
        }
    }
}

impl<'a> SystemDependencies<'a> {
    /// Resolve a World-scoped typed handle without rebuilding a lookup.
    pub fn get<T: System>(&self, binding: &SystemDependencyBinding<T>) -> (r: Option<&'a T>)
        ensures
            r is Some <==> binding.world == self.identity && binding.dependent == self.dependent
                && dependency_slot_kind(*self, binding.slot) == Some(T::spec_kind()),
            binding.world == self.identity && binding.dependent == self.dependent ==> found(
                r,
                dependency_slot_instance::<T>(*self, binding.slot),
            ),
    {
        if binding.world != self.identity || binding.dependent != self.dependent {
            return None;
        }
        if binding.slot < self.instances.len() {
            return T::downcast(&self.instances[binding.slot].system);
        }
        match self.trailing {
            None => None,
            Some((current, after)) => {
                if binding.slot == self.instances.len() {
                    T::downcast(current)
                } else {
                    slot_of(after, binding.slot - self.instances.len() - 1)
                }
            },
        }
    }
}

/// Ordered operation access; subsystem state remains in the receiving system.
pub struct SystemOperationContext<'a> {
    pub world_data: &'a WorldSimulationState,
    pub staged: &'a WorldMutationState,
    pub command: &'a Command,
    pub aliases: &'a Vec<(u32, EntityId)>,
    pub dependencies: SystemDependencies<'a>,
}

impl<'a> SystemOperationContext<'a> {
    /// Private restoration defers derived indexes until persistent-state loading.
    pub fn is_restoring(&self) -> (r: bool)
        ensures
            r == self.world_data.restoring,
    {
        self.world_data.restoring
    }

    /// Components touched by this operation.
    pub fn changed_components(&self) -> (r: Vec<(EntityId, u16)>)
        ensures
            r@ == self.staged.operation_components@,
    {
        copy_vec(&self.staged.operation_components)
    }

    /// Entities created by this operation.
    pub fn created_entities(&self) -> (r: Vec<EntityId>)
        ensures
            r@ == self.staged.operation_created@,
    {
        copy_vec(&self.staged.operation_created)
    }

    /// Departing identities, whose storage is still protected by invalidation.
    pub fn deleted_entities(&self) -> (r: Vec<EntityId>)
        ensures
            r@ == self.staged.operation_deleted@,
    {
        copy_vec(&self.staged.operation_deleted)
    }

    /// Mandatory owner departure may deactivate invalid survivors without rollback.
    pub fn is_forced_cleanup(&self) -> (r: bool)
        ensures
            r == self.world_data.forced_cleanup,
    {
        self.world_data.forced_cleanup
    }

    /// The ordered operation currently being interpreted.
    pub fn command(&self) -> (r: &Command)
        ensures
            *r == *self.command,
    {
        self.command
    }

    /// Resolve a handle or this batch's provisional alias against staged identities.
    pub fn resolve_entity(&self, reference: EntityRef) -> (r: Result<EntityId, ErrorReason>)
        ensures
            match reference {
                EntityRef::Handle(id) => r == if self.staged.entities_state.allocator.live(id) {
                    Ok::<EntityId, ErrorReason>(id)
                } else {
                    Err(ErrorReason::InvalidEntity)
                },
                EntityRef::Alias(a) => r == match assoc(self.aliases@, a) {
                    Some(id) => Ok::<EntityId, ErrorReason>(id),
                    None => Err(ErrorReason::InvalidEntity),
                },
            },
    {
        self.staged.resolve(reference, self.aliases)
    }

    /// Borrow a declared predecessor until this operation read ends.
    pub fn dependency<T: System>(&self, binding: &SystemDependencyBinding<T>) -> (r: Option<&T>)
        ensures
            r is Some <==> binding.world == self.dependencies.identity && binding.dependent
                == self.dependencies.dependent && dependency_slot_kind(self.dependencies, binding.slot)
                == Some(T::spec_kind()),
            binding.world == self.dependencies.identity && binding.dependent == self.dependencies.dependent
                ==> found(r, dependency_slot_instance::<T>(self.dependencies, binding.slot)),
    {
        self.dependencies.get(binding)
    }

    /// Current staged authoring identities with old occupied storage still live.
    pub fn world(&self) -> (r: SystemWorldView<'_>)
        ensures
            *r.world == *self.world_data,
            *r.authored == self.staged.entities_state,
    {
        SystemWorldView { world: &*self.world_data, authored: &self.staged.entities_state }
    }
}

} // verus!
