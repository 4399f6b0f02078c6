//! Scalar constraint declarations and strict incarnation bindings. A target
//! entity's LinearDriver names a source entity; the binding records the exact
//! Scalar input incarnations of both, and is valid only while they persist.

use crate::ids::{EntityId, ErrorReason, SystemId};
use crate::systems::SystemDependency;
use crate::keyed::{KeyedMap, lookup};
use crate::world::{
    FieldValue, LINEAR_DRIVER, SCALAR, WorldEntityState, WorldMutationState, field_of,
    input_value_of,
};
use vstd::prelude::*;

verus! {

/// Field offset of the LinearDriver source entity.
pub const LINEAR_DRIVER_SOURCE_OFFSET: u32 = 0;

/// Declared driver: its input incarnation and the named source.
#[derive(Clone, Copy, Debug, PartialEq, Eq, Structural)]
pub struct ConstraintDriverIdentity {
    pub incarnation: u64,
    pub source: EntityId,
}

/// Exact source and target Scalar incarnations a constraint was bound against.
#[derive(Clone, Copy, Debug, PartialEq, Eq, Structural)]
pub struct ScalarConstraintBinding {
    pub source: EntityId,
    pub source_incarnation: u64,
    pub target_incarnation: u64,
}

/// Declarations and bindings keyed by target identity bits.
pub struct ConstraintSystemState {
    pub declarations: KeyedMap<ConstraintDriverIdentity>,
    pub bindings: KeyedMap<ScalarConstraintBinding>,
    pub restores_active: bool,
    pub numeric_dirty: bool,
}

/// Scalar constraint system owned by one World.
pub struct ConstraintSystem {
    pub state: ConstraintSystemState,
}

/// The declaration authored on a target, if it has a LinearDriver input naming a source.
pub open spec fn declared(state: WorldEntityState, target: EntityId) -> Option<ConstraintDriverIdentity> {
    match state.spec_input(target, LINEAR_DRIVER) {
        Some(incarnation) => match field_of(
            input_value_of(state.record(target), LINEAR_DRIVER),
            LINEAR_DRIVER_SOURCE_OFFSET,
        ) {
            Some(FieldValue::Entity(source)) => Some(ConstraintDriverIdentity { incarnation, source }),
            _ => None,
        },
        None => None,
    }
}

/// The binding a target and source would receive now.
pub open spec fn bound(state: WorldEntityState, target: EntityId, source: EntityId) -> Result<ScalarConstraintBinding, ErrorReason> {
    match state.spec_input(target, SCALAR) {
        None => Err(ErrorReason::MissingComponent),
        Some(target_incarnation) => if !state.has(source) {
            Err(ErrorReason::InvalidEntity)
        } else {
            match state.spec_input(source, SCALAR) {
                None => Err(ErrorReason::MissingComponent),
                Some(source_incarnation) => Ok(
                    ScalarConstraintBinding { source, source_incarnation, target_incarnation },
                ),
            }
        },
    }
}

/// A binding is valid while both Scalar incarnations persist and the target keeps a driver.
pub open spec fn binding_valid(state: WorldEntityState, target: EntityId, binding: ScalarConstraintBinding) -> bool {
    &&& state.spec_input(binding.source, SCALAR) == Some(binding.source_incarnation)
    &&& state.spec_input(target, SCALAR) == Some(binding.target_incarnation)
    &&& state.spec_input(target, LINEAR_DRIVER) is Some
}

/// Read the declaration authored on a target.
pub fn declaration(state: &WorldEntityState, target: EntityId) -> (r: Option<ConstraintDriverIdentity>)
    ensures
        r == declared(*state, target),
{
    let record = match state.get(target) {
        Some(record) => record,
        None => return None,
    };
    let incarnation = match record.input(LINEAR_DRIVER) {
        Some(incarnation) => incarnation,
        None => return None,
    };
    match record.input_value(LINEAR_DRIVER) {
        Some(value) => match value.field(LINEAR_DRIVER_SOURCE_OFFSET) {
            Some(FieldValue::Entity(source)) => Some(ConstraintDriverIdentity { incarnation, source }),
            _ => None,
        },
        None => None,
    }
}

/// Bind a target to a source at their current Scalar incarnations.
pub fn binding(state: &WorldEntityState, target: EntityId, source: EntityId) -> (r: Result<ScalarConstraintBinding, ErrorReason>)
    ensures
        r == bound(*state, target, source),
{
    let target_incarnation = match state.input(target, SCALAR) {
        Some(incarnation) => incarnation,
        None => return Err(ErrorReason::MissingComponent),
    };
    let record = match state.get(source) {
        Some(record) => record,
        None => return Err(ErrorReason::InvalidEntity),
    };
    match record.input(SCALAR) {
        Some(source_incarnation) => Ok(ScalarConstraintBinding { source, source_incarnation, target_incarnation }),
        None => Err(ErrorReason::MissingComponent),
    }
}

/// Whether a binding still matches the current incarnations.
pub fn valid(state: &WorldEntityState, target: EntityId, binding: ScalarConstraintBinding) -> (r: bool)
    ensures
        r == binding_valid(*state, target, binding),
{
    state.input(binding.source, SCALAR) == Some(binding.source_incarnation)
        && state.input(target, SCALAR) == Some(binding.target_incarnation)
        && state.input(target, LINEAR_DRIVER).is_some()
}

/// Whether an operation named the source field of a target's driver explicitly.
pub open spec fn explicit_source(staged: WorldMutationState, target: u64) -> bool {
    exists|i: int|
        0 <= i < staged.explicit_fields@.len() && #[trigger] staged.explicit_fields@[i] == (
            EntityId { bits: target },
            LINEAR_DRIVER,
            LINEAR_DRIVER_SOURCE_OFFSET,
        )
}

/// Targets whose driver the operation may have changed.
pub open spec fn touched(staged: WorldMutationState, target: u64) -> bool {
    ||| exists|i: int| 0 <= i < staged.dirty@.len() && #[trigger] staged.dirty@[i] == (EntityId { bits: target }, LINEAR_DRIVER)
    ||| exists|i: int|
        0 <= i < staged.operation_components@.len() && #[trigger] staged.operation_components@[i] == (
            EntityId { bits: target },
            LINEAR_DRIVER,
        )
    ||| explicit_source(staged, target)
}

/// Whether reconciliation re-binds a touched target whose previous declaration was `before`.
pub open spec fn rebinds_from(staged: WorldMutationState, before: Option<ConstraintDriverIdentity>, target: u64) -> bool {
    declared(staged.entities_state, EntityId { bits: target }) != before || explicit_source(staged, target)
}

/// Whether reconciliation re-binds a touched target, given the previous declarations.
pub open spec fn rebinds(staged: WorldMutationState, previous: Map<u64, ConstraintDriverIdentity>, target: u64) -> bool {
    rebinds_from(staged, lookup(previous, target), target)
}

fn explicit_source_exec(staged: &WorldMutationState, target: u64) -> (r: bool)
    ensures
        r == explicit_source(*staged, target),
{
    let mut i: usize = 0;
    while i < staged.explicit_fields.len()
        invariant
            i <= staged.explicit_fields@.len(),
            forall|j: int| 0 <= j < i ==> staged.explicit_fields@[j] != (
                EntityId { bits: target },
                LINEAR_DRIVER,
                LINEAR_DRIVER_SOURCE_OFFSET,
            ),
        decreases staged.explicit_fields@.len() - i,
    {
        let (e, c, o) = staged.explicit_fields[i];
        if e.bits == target && c == LINEAR_DRIVER && o == LINEAR_DRIVER_SOURCE_OFFSET {
            assert(staged.explicit_fields@[i as int] == (EntityId { bits: target }, LINEAR_DRIVER, LINEAR_DRIVER_SOURCE_OFFSET));
            return true;
        }
        i = i + 1;
    }
    false
}

/// Collect touched targets, ascending and without repetition.
fn touched_targets(staged: &WorldMutationState) -> (r: Vec<u64>)
    ensures
        forall|i: int, j: int| 0 <= i < j < r@.len() ==> r@[i] < r@[j],
        forall|t: u64| touched(*staged, t) <==> r@.contains(t),
{
    let mut set: KeyedMap<bool> = KeyedMap::new();
    let mut i: usize = 0;
    while i < staged.dirty.len()
        invariant
            set.wf(),
            i <= staged.dirty@.len(),
            forall|t: u64| set.view().contains_key(t) <==> exists|j: int|
                0 <= j < i && #[trigger] staged.dirty@[j] == (EntityId { bits: t }, LINEAR_DRIVER),
        decreases staged.dirty@.len() - i,
    {
        let (e, c) = staged.dirty[i];
        if c == LINEAR_DRIVER {
            set.insert(e.bits, true);
        }
        proof {
            assert forall|t: u64| set.view().contains_key(t) <==> exists|j: int|
                0 <= j < i + 1 && #[trigger] staged.dirty@[j] == (EntityId { bits: t }, LINEAR_DRIVER) by {
                if set.view().contains_key(t) && !(exists|j: int| 0 <= j < i && #[trigger] staged.dirty@[j] == (EntityId { bits: t }, LINEAR_DRIVER)) {
                    assert(staged.dirty@[i as int] == (EntityId { bits: t }, LINEAR_DRIVER));
                }
            }
        }
        i = i + 1;
    }
    let mut k: usize = 0;
    while k < staged.operation_components.len()
        invariant
            set.wf(),
            k <= staged.operation_components@.len(),
            forall|t: u64| set.view().contains_key(t) <==> (exists|j: int|
                0 <= j < staged.dirty@.len() && #[trigger] staged.dirty@[j] == (EntityId { bits: t }, LINEAR_DRIVER))
                || exists|j: int|
                0 <= j < k && #[trigger] staged.operation_components@[j] == (EntityId { bits: t }, LINEAR_DRIVER),
        decreases staged.operation_components@.len() - k,
    {
        let (e, c) = staged.operation_components[k];
        if c == LINEAR_DRIVER {
            set.insert(e.bits, true);
        }
        proof {
            assert forall|t: u64| set.view().contains_key(t) <==> (exists|j: int|
                0 <= j < staged.dirty@.len() && #[trigger] staged.dirty@[j] == (EntityId { bits: t }, LINEAR_DRIVER))
                || exists|j: int|
                0 <= j < k + 1 && #[trigger] staged.operation_components@[j] == (EntityId { bits: t }, LINEAR_DRIVER) by {
                if set.view().contains_key(t) && !(exists|j: int|
                    0 <= j < staged.dirty@.len() && #[trigger] staged.dirty@[j] == (EntityId { bits: t }, LINEAR_DRIVER))
                    && !(exists|j: int| 0 <= j < k && #[trigger] staged.operation_components@[j] == (EntityId { bits: t }, LINEAR_DRIVER)) {
                    assert(staged.operation_components@[k as int] == (EntityId { bits: t }, LINEAR_DRIVER));
                }
            }
        }
        k = k + 1;
    }
    let mut m: usize = 0;
    while m < staged.explicit_fields.len()
        invariant
            set.wf(),
            m <= staged.explicit_fields@.len(),
            forall|t: u64| set.view().contains_key(t) <==> (exists|j: int|
                0 <= j < staged.dirty@.len() && #[trigger] staged.dirty@[j] == (EntityId { bits: t }, LINEAR_DRIVER))
                || (exists|j: int|
                0 <= j < staged.operation_components@.len() && #[trigger] staged.operation_components@[j] == (EntityId { bits: t }, LINEAR_DRIVER))
                || exists|j: int|
                0 <= j < m && #[trigger] staged.explicit_fields@[j] == (
                    EntityId { bits: t },
                    LINEAR_DRIVER,
                    LINEAR_DRIVER_SOURCE_OFFSET,
                ),
        decreases staged.explicit_fields@.len() - m,
    {
        let (e, c, o) = staged.explicit_fields[m];
        if c == LINEAR_DRIVER && o == LINEAR_DRIVER_SOURCE_OFFSET {
            set.insert(e.bits, true);
        }
        proof {
            assert forall|t: u64| set.view().contains_key(t) <==> (exists|j: int|
                0 <= j < staged.dirty@.len() && #[trigger] staged.dirty@[j] == (EntityId { bits: t }, LINEAR_DRIVER))
                || (exists|j: int|
                0 <= j < staged.operation_components@.len() && #[trigger] staged.operation_components@[j] == (EntityId { bits: t }, LINEAR_DRIVER))
                || exists|j: int|
                0 <= j < m + 1 && #[trigger] staged.explicit_fields@[j] == (
                    EntityId { bits: t },
                    LINEAR_DRIVER,
                    LINEAR_DRIVER_SOURCE_OFFSET,
                ) by {
                if set.view().contains_key(t) && !(exists|j: int|
                    0 <= j < staged.dirty@.len() && #[trigger] staged.dirty@[j] == (EntityId { bits: t }, LINEAR_DRIVER))
                    && !(exists|j: int|
                    0 <= j < staged.operation_components@.len() && #[trigger] staged.operation_components@[j] == (EntityId { bits: t }, LINEAR_DRIVER))
                    && !(exists|j: int| 0 <= j < m && #[trigger] staged.explicit_fields@[j] == (
                    EntityId { bits: t },
                    LINEAR_DRIVER,
                    LINEAR_DRIVER_SOURCE_OFFSET,
                )) {
                    assert(staged.explicit_fields@[m as int] == (EntityId { bits: t }, LINEAR_DRIVER, LINEAR_DRIVER_SOURCE_OFFSET));
                }
            }
        }
        m = m + 1;
    }
    let r = set.keys();
    proof {
        assert forall|t: u64| touched(*staged, t) <==> r@.contains(t) by {
            assert(set.view().contains_key(t) <==> r@.contains(t));
        }
    }
    r
}

/// Outcome of re-binding one touched target.
pub open spec fn rebound(staged: WorldMutationState, target: u64) -> Option<Result<ScalarConstraintBinding, ErrorReason>> {
    match declared(staged.entities_state, EntityId { bits: target }) {
        Some(d) => Some(bound(staged.entities_state, EntityId { bits: target }, d.source)),
        None => None,
    }
}

/// The binding a re-bound target ends with.
pub open spec fn rebound_binding(staged: WorldMutationState, target: u64) -> Option<ScalarConstraintBinding> {
    match rebound(staged, target) {
        Some(Ok(b)) => Some(b),
        _ => None,
    }
}

/// The error a re-bound target reports.
pub open spec fn rebound_error(staged: WorldMutationState, target: u64) -> Option<ErrorReason> {
    match rebound(staged, target) {
        Some(Err(e)) => Some(e),
        _ => None,
    }
}

/// A previous binding survives while it stays valid.
pub open spec fn retained(state: WorldEntityState, previous: Map<u64, ScalarConstraintBinding>, target: u64) -> Option<ScalarConstraintBinding> {
    match lookup(previous, target) {
        Some(b) => if binding_valid(state, EntityId { bits: target }, b) {
            Some(b)
        } else {
            None
        },
        None => None,
    }
}

/// Binding held for a target after reconciliation.
pub open spec fn reconciled_binding(
    staged: WorldMutationState,
    declarations: Map<u64, ConstraintDriverIdentity>,
    bindings: Map<u64, ScalarConstraintBinding>,
    target: u64,
) -> Option<ScalarConstraintBinding> {
    if touched(staged, target) && rebinds(staged, declarations, target) {
        rebound_binding(staged, target)
    } else {
        retained(staged.entities_state, bindings, target)
    }
}

/// Declaration held for a target after reconciliation.
pub open spec fn reconciled_declaration(
    staged: WorldMutationState,
    declarations: Map<u64, ConstraintDriverIdentity>,
    target: u64,
) -> Option<ConstraintDriverIdentity> {
    if touched(staged, target) && rebinds(staged, declarations, target) {
        declared(staged.entities_state, EntityId { bits: target })
    } else if staged.entities_state.has(EntityId { bits: target }) {
        lookup(declarations, target)
    } else {
        None
    }
}

impl ConstraintSystem {
    pub open spec fn wf(&self) -> bool {
        self.state.declarations.wf() && self.state.bindings.wf()
    }

    /// Fresh system with no declarations, no bindings, no active
    /// restoration and no pending numeric preparation.
    pub fn new() -> (r: Self)
        ensures
            r.wf(),
            r.state.declarations.view() == Map::<u64, ConstraintDriverIdentity>::empty(),
            r.state.bindings.view() == Map::<u64, ScalarConstraintBinding>::empty(),
            !r.state.restores_active,
            !r.state.numeric_dirty,
    {
        ConstraintSystem {
            state: ConstraintSystemState {
                declarations: KeyedMap::new(),
                bindings: KeyedMap::new(),
                restores_active: false,
                numeric_dirty: false,
            },
        }
    }

    /// Drop bindings whose incarnations no longer match.
    fn retain_valid_bindings(&mut self, state: &WorldEntityState)
        requires
            old(self).wf(),
        ensures
            final(self).state.numeric_dirty == old(self).state.numeric_dirty,
            final(self).state.restores_active == old(self).state.restores_active,
            final(self).wf(),
            final(self).state.declarations == old(self).state.declarations,
            forall|t: u64| #[trigger] final(self).state.bindings.view().contains_key(t) == (old(self).state.bindings.view().contains_key(t)
                && binding_valid(*state, EntityId { bits: t }, old(self).state.bindings.view()[t])),
            forall|t: u64| #[trigger] final(self).state.bindings.view().contains_key(t) ==> final(self).state.bindings.view()[t]
                == old(self).state.bindings.view()[t],
    {
        let keys = self.state.bindings.keys();
        let ghost b0 = self.state.bindings.view();
        let mut i: usize = 0;
        while i < keys.len()
            invariant
                self.state.numeric_dirty == old(self).state.numeric_dirty,
                self.state.restores_active == old(self).state.restores_active,
                self.wf(),
                self.state.declarations == old(self).state.declarations,
                b0 == old(self).state.bindings.view(),
                forall|t: u64| b0.contains_key(t) <==> keys@.contains(t),
                forall|a: int, b: int| 0 <= a < b < keys@.len() ==> keys@[a] != keys@[b],
                i <= keys@.len(),
                forall|t: u64| #[trigger] self.state.bindings.view().contains_key(t) ==> b0.contains_key(t)
                    && self.state.bindings.view()[t] == b0[t],
                forall|j: int| 0 <= j < i ==> (#[trigger] self.state.bindings.view().contains_key(keys@[j])
                    <==> binding_valid(*state, EntityId { bits: keys@[j] }, b0[keys@[j]])),
                forall|j: int| i <= j < keys@.len() ==> #[trigger] self.state.bindings.view().contains_key(keys@[j]),
            decreases keys@.len() - i,
        {
            let t = keys[i];
            let b = match self.state.bindings.get(t) {
                Some(b) => b,
                None => {
                    assert(false);
                    i = i + 1;
                    continue;
                },
            };
            if !valid(state, EntityId { bits: t }, b) {
                self.state.bindings.remove(t);
            }
            proof {
                assert forall|j: int| 0 <= j < i + 1 implies (#[trigger] self.state.bindings.view().contains_key(keys@[j])
                    <==> binding_valid(*state, EntityId { bits: keys@[j] }, b0[keys@[j]])) by {
                    if j < i {
                        assert(keys@[j] != t);
                    }
                }
                assert forall|j: int| i + 1 <= j < keys@.len() implies #[trigger] self.state.bindings.view().contains_key(keys@[j]) by {
                    assert(keys@[j] != t);
                }
            }
            i = i + 1;
        }
        proof {
            assert forall|t: u64| #[trigger] self.state.bindings.view().contains_key(t) == (b0.contains_key(t)
                && binding_valid(*state, EntityId { bits: t }, b0[t])) by {
                if b0.contains_key(t) {
                    let j = choose|j: int| 0 <= j < keys@.len() && keys@[j] == t;
                }
            }
        }
    }

    /// Drop declarations of entities that no longer exist.
    fn retain_present_declarations(&mut self, state: &WorldEntityState)
        requires
            old(self).wf(),
        ensures
            final(self).state.numeric_dirty == old(self).state.numeric_dirty,
            final(self).state.restores_active == old(self).state.restores_active,
            final(self).wf(),
            final(self).state.bindings == old(self).state.bindings,
            forall|t: u64| #[trigger] final(self).state.declarations.view().contains_key(t) == (
                old(self).state.declarations.view().contains_key(t) && state.has(EntityId { bits: t })),
            forall|t: u64| #[trigger] final(self).state.declarations.view().contains_key(t) ==> final(self).state.declarations.view()[t]
                == old(self).state.declarations.view()[t],
    {
        let keys = self.state.declarations.keys();
        let ghost d0 = self.state.declarations.view();
        let mut i: usize = 0;
        while i < keys.len()
            invariant
                self.state.numeric_dirty == old(self).state.numeric_dirty,
                self.state.restores_active == old(self).state.restores_active,
                self.wf(),
                self.state.bindings == old(self).state.bindings,
                d0 == old(self).state.declarations.view(),
                forall|t: u64| d0.contains_key(t) <==> keys@.contains(t),
                forall|a: int, b: int| 0 <= a < b < keys@.len() ==> keys@[a] != keys@[b],
                i <= keys@.len(),
                forall|t: u64| #[trigger] self.state.declarations.view().contains_key(t) ==> d0.contains_key(t)
                    && self.state.declarations.view()[t] == d0[t],
                forall|j: int| 0 <= j < i ==> (#[trigger] self.state.declarations.view().contains_key(keys@[j])
                    <==> state.has(EntityId { bits: keys@[j] })),
                forall|j: int| i <= j < keys@.len() ==> #[trigger] self.state.declarations.view().contains_key(keys@[j]),
            decreases keys@.len() - i,
        {
            let t = keys[i];
            if !state.contains_key(EntityId { bits: t }) {
                self.state.declarations.remove(t);
            }
            proof {
                assert forall|j: int| 0 <= j < i + 1 implies (#[trigger] self.state.declarations.view().contains_key(keys@[j])
                    <==> state.has(EntityId { bits: keys@[j] })) by {
                    if j < i {
                        assert(keys@[j] != t);
                    }
                }
                assert forall|j: int| i + 1 <= j < keys@.len() implies #[trigger] self.state.declarations.view().contains_key(keys@[j]) by {
                    assert(keys@[j] != t);
                }
            }
            i = i + 1;
        }
        proof {
            assert forall|t: u64| #[trigger] self.state.declarations.view().contains_key(t) == (d0.contains_key(t)
                && state.has(EntityId { bits: t })) by {
                if d0.contains_key(t) {
                    let j = choose|j: int| 0 <= j < keys@.len() && keys@[j] == t;
                }
            }
        }
    }

    /// Re-bind one touched target when its declaration changed or its source
    /// field was written explicitly; report the binding failure, if any.
    fn reconcile_target(&mut self, staged: &WorldMutationState, target: u64) -> (r: Option<ErrorReason>)
        requires
            old(self).wf(),
        ensures
            final(self).state.numeric_dirty == old(self).state.numeric_dirty,
            final(self).state.restores_active == old(self).state.restores_active,
            final(self).wf(),
            final(self).state.bindings.view().remove(target) == old(self).state.bindings.view().remove(target),
            final(self).state.declarations.view().remove(target) == old(self).state.declarations.view().remove(target),
            ({
                let before = lookup(old(self).state.declarations.view(), target);
                if rebinds_from(*staged, before, target) {
                    &&& lookup(final(self).state.bindings.view(), target) == rebound_binding(*staged, target)
                    &&& lookup(final(self).state.declarations.view(), target) == declared(
                        staged.entities_state,
                        EntityId { bits: target },
                    )
                    &&& r == rebound_error(*staged, target)
                } else {
                    &&& lookup(final(self).state.bindings.view(), target) == lookup(old(self).state.bindings.view(), target)
                    &&& lookup(final(self).state.declarations.view(), target) == before
                    &&& r is None
                }
            }),
    {
        let entity = EntityId { bits: target };
        let current = declaration(&staged.entities_state, entity);
        let previous = self.state.declarations.get(target);
        let explicit = explicit_source_exec(staged, target);
        if current == previous && !explicit {
            proof {
                assert(self.state.bindings.view().remove(target) =~= old(self).state.bindings.view().remove(target));
                assert(self.state.declarations.view().remove(target) =~= old(self).state.declarations.view().remove(target));
            }
            return None;
        }
        self.state.bindings.remove(target);
        let mut failure: Option<ErrorReason> = None;
        match current {
            Some(cur) => {
                self.state.declarations.insert(target, cur);
                match binding(&staged.entities_state, entity, cur.source) {
                    Ok(b) => {
                        self.state.bindings.insert(target, b);
                    },
                    Err(reason) => {
                        failure = Some(reason);
                    },
                }
            },
            None => {
                self.state.declarations.remove(target);
            },
        }
        proof {
            assert(self.state.bindings.view().remove(target) =~= old(self).state.bindings.view().remove(target));
            assert(self.state.declarations.view().remove(target) =~= old(self).state.declarations.view().remove(target));
        }
        failure
    }

    /// Re-derive declarations and bindings after an authored operation. Stale
    /// bindings are dropped; each touched target whose declaration changed, or
    /// whose source field was written explicitly, is re-bound. The first
    /// binding failure, in ascending target order, is reported after every
    /// target has been processed.
    pub fn reconcile(&mut self, staged: &WorldMutationState) -> (r: Result<(), ErrorReason>)
        requires
            old(self).wf(),
        ensures
            final(self).state.numeric_dirty == old(self).state.numeric_dirty,
            final(self).state.restores_active == old(self).state.restores_active,
            final(self).wf(),
            forall|t: u64| #[trigger] lookup(final(self).state.bindings.view(), t) == reconciled_binding(
                *staged,
                old(self).state.declarations.view(),
                old(self).state.bindings.view(),
                t,
            ),
            forall|t: u64| #[trigger] lookup(final(self).state.declarations.view(), t) == reconciled_declaration(
                *staged,
                old(self).state.declarations.view(),
                t,
            ),
            r is Ok <==> forall|t: u64|
                touched(*staged, t) && rebinds(*staged, old(self).state.declarations.view(), t)
                    ==> #[trigger] rebound_error(*staged, t) is None,
            r matches Err(e) ==> exists|t: u64|
                touched(*staged, t) && rebinds(*staged, old(self).state.declarations.view(), t)
                    && #[trigger] rebound_error(*staged, t) == Some(e)
                    && forall|u: u64|
                        u < t && touched(*staged, u) && rebinds(*staged, old(self).state.declarations.view(), u)
                            ==> #[trigger] rebound_error(*staged, u) is None,
    {
        let ghost d0 = self.state.declarations.view();
        let ghost b0 = self.state.bindings.view();
        self.retain_valid_bindings(&staged.entities_state);
        let ghost b1 = self.state.bindings.view();
        proof {
            assert forall|t: u64| #[trigger] lookup(b1, t) == retained(staged.entities_state, b0, t) by {
                if b1.contains_key(t) {
                }
            }
        }
        let targets = touched_targets(staged);
        let mut result: Result<(), ErrorReason> = Ok(());
        let mut i: usize = 0;
        while i < targets.len()
            invariant
                self.state.numeric_dirty == old(self).state.numeric_dirty,
                self.state.restores_active == old(self).state.restores_active,
                self.wf(),
                i <= targets@.len(),
                forall|a: int, b: int| 0 <= a < b < targets@.len() ==> targets@[a] < targets@[b],
                forall|t: u64| touched(*staged, t) <==> targets@.contains(t),
                forall|t: u64| #[trigger] lookup(b1, t) == retained(staged.entities_state, b0, t),
                forall|t: u64| #[trigger] lookup(self.state.bindings.view(), t) == if targets@.take(i as int).contains(t)
                    && rebinds(*staged, d0, t) {
                    rebound_binding(*staged, t)
                } else {
                    lookup(b1, t)
                },
                forall|t: u64| #[trigger] lookup(self.state.declarations.view(), t) == if targets@.take(i as int).contains(t)
                    && rebinds(*staged, d0, t) {
                    declared(staged.entities_state, EntityId { bits: t })
                } else {
                    lookup(d0, t)
                },
                result is Ok <==> forall|j: int|
                    0 <= j < i && rebinds(*staged, d0, targets@[j]) ==> #[trigger] rebound_error(*staged, targets@[j]) is None,
                result matches Err(e) ==> exists|j: int|
                    0 <= j < i && rebinds(*staged, d0, targets@[j]) && #[trigger] rebound_error(*staged, targets@[j]) == Some(e)
                        && forall|k: int| 0 <= k < j && rebinds(*staged, d0, targets@[k])
                            ==> #[trigger] rebound_error(*staged, targets@[k]) is None,
            decreases targets@.len() - i,
        {
            let target = targets[i];
            let ghost before_b = self.state.bindings.view();
            let ghost before_d = self.state.declarations.view();
            let ghost before_result = result;
            proof {
                assert(!targets@.take(i as int).contains(target)) by {
                    if targets@.take(i as int).contains(target) {
                        let j = choose|j: int| 0 <= j < i && targets@.take(i as int)[j] == target;
                        assert(targets@[j] < targets@[i as int]);
                    }
                }
                assert(lookup(before_d, target) == lookup(d0, target));
            }
            let failure = self.reconcile_target(staged, target);
            if failure.is_some() && result.is_ok() {
                result = Err(failure.unwrap());
            }
            proof {
                let next = targets@.take(i + 1);
                assert forall|t: u64| next.contains(t) <==> (targets@.take(i as int).contains(t) || t == target) by {
                    if next.contains(t) {
                        let j = choose|j: int| 0 <= j < i + 1 && next[j] == t;
                        if j < i {
                            assert(targets@.take(i as int)[j] == t);
                        }
                    }
                    if targets@.take(i as int).contains(t) {
                        let j = choose|j: int| 0 <= j < i && targets@.take(i as int)[j] == t;
                        assert(next[j] == t);
                    }
                    if t == target {
                        assert(next[i as int] == t);
                    }
                }
                assert forall|t: u64| #[trigger] lookup(self.state.bindings.view(), t) == if next.contains(t)
                    && rebinds(*staged, d0, t) {
                    rebound_binding(*staged, t)
                } else {
                    lookup(b1, t)
                } by {
                    if t != target {
                        assert(before_b.remove(target).contains_key(t) == before_b.contains_key(t));
                        assert(self.state.bindings.view().remove(target).contains_key(t) == self.state.bindings.view().contains_key(t));
                        assert(lookup(before_b, t) == lookup(self.state.bindings.view(), t)) by {
                            if before_b.contains_key(t) {
                                assert(before_b.remove(target)[t] == before_b[t]);
                                assert(self.state.bindings.view().remove(target)[t] == self.state.bindings.view()[t]);
                            }
                        }
                    } else {
                        assert(lookup(before_b, t) == lookup(b1, t));
                    }
                }
                assert forall|t: u64| #[trigger] lookup(self.state.declarations.view(), t) == if next.contains(t)
                    && rebinds(*staged, d0, t) {
                    declared(staged.entities_state, EntityId { bits: t })
                } else {
                    lookup(d0, t)
                } by {
                    if t != target {
                        assert(before_d.remove(target).contains_key(t) == before_d.contains_key(t));
                        assert(self.state.declarations.view().remove(target).contains_key(t) == self.state.declarations.view().contains_key(t));
                        assert(lookup(before_d, t) == lookup(self.state.declarations.view(), t)) by {
                            if before_d.contains_key(t) {
                                assert(before_d.remove(target)[t] == before_d[t]);
                                assert(self.state.declarations.view().remove(target)[t] == self.state.declarations.view()[t]);
                            }
                        }
                    }
                }
                assert(targets@[i as int] == target);
                if result is Err && before_result is Ok {
                    assert(rebinds(*staged, d0, targets@[i as int]) && rebound_error(*staged, targets@[i as int]) == Some(result->Err_0));
                }
                if result is Ok {
                    assert forall|j: int|
                        0 <= j < i + 1 && rebinds(*staged, d0, targets@[j]) implies #[trigger] rebound_error(*staged, targets@[j]) is None by {
                    }
                }
            }
            i = i + 1;
        }
        let ghost b2 = self.state.bindings.view();
        let ghost d2 = self.state.declarations.view();
        self.retain_present_declarations(&staged.entities_state);
        proof {
            assert(targets@.take(targets@.len() as int) == targets@);
            assert forall|t: u64| #[trigger] lookup(self.state.bindings.view(), t) == reconciled_binding(*staged, d0, b0, t) by {
                assert(lookup(b2, t) == lookup(self.state.bindings.view(), t));
            }
            assert forall|t: u64| #[trigger] lookup(self.state.declarations.view(), t) == reconciled_declaration(*staged, d0, t) by {
                assert(lookup(d2, t) == lookup(d2, t));
                if self.state.declarations.view().contains_key(t) {
                }
                if declared(staged.entities_state, EntityId { bits: t }) is Some {
                    assert(staged.entities_state.has(EntityId { bits: t }));
                }
            }
            if result is Ok {
                assert forall|t: u64| touched(*staged, t) && rebinds(*staged, d0, t) implies #[trigger] rebound_error(*staged, t) is None by {
                    let j = choose|j: int| 0 <= j < targets@.len() && targets@[j] == t;
                    assert(rebound_error(*staged, targets@[j]) is None);
                }
            } else {
                let j = choose|j: int|
                    0 <= j < targets@.len() && rebinds(*staged, d0, targets@[j]) && #[trigger] rebound_error(*staged, targets@[j]) == Some(result->Err_0)
                        && forall|k: int| 0 <= k < j && rebinds(*staged, d0, targets@[k])
                            ==> #[trigger] rebound_error(*staged, targets@[k]) is None;
                let t = targets@[j];
                assert(touched(*staged, t));
                assert forall|u: u64| u < t && touched(*staged, u) && rebinds(*staged, d0, u) implies #[trigger] rebound_error(*staged, u) is None by {
                    let k = choose|k: int| 0 <= k < targets@.len() && targets@[k] == u;
                    if k >= j {
                        if k > j {
                            assert(targets@[j] < targets@[k]);
                        }
                    }
                    assert(k < j);
                }
            }
        }
        result
    }

    /// Before commit: a changed Scalar or LinearDriver invalidates the prepared
    /// numeric bindings; reconciliation then runs with its failure ignored.
    pub fn before_commit(&mut self, changed: &[(EntityId, u16)], staged: &WorldMutationState)
        requires
            old(self).wf(),
        ensures
            final(self).wf(),
            final(self).state.numeric_dirty == (old(self).state.numeric_dirty || exists|i: int|
                0 <= i < changed@.len() && ((#[trigger] changed@[i]).1 == SCALAR || changed@[i].1 == LINEAR_DRIVER)),
            final(self).state.restores_active == old(self).state.restores_active,
            forall|t: u64| #[trigger] lookup(final(self).state.bindings.view(), t) == reconciled_binding(
                *staged,
                old(self).state.declarations.view(),
                old(self).state.bindings.view(),
                t,
            ),
            forall|t: u64| #[trigger] lookup(final(self).state.declarations.view(), t) == reconciled_declaration(
                *staged,
                old(self).state.declarations.view(),
                t,
            ),
    {
        let mut i: usize = 0;
        let mut any = false;
        while i < changed.len()
            invariant
                i <= changed@.len(),
                any == exists|j: int| 0 <= j < i && ((#[trigger] changed@[j]).1 == SCALAR || changed@[j].1 == LINEAR_DRIVER),
            decreases changed@.len() - i,
        {
            let (_, component) = changed[i];
            if component == SCALAR || component == LINEAR_DRIVER {
                any = true;
            }
            proof {
                assert(changed@[i as int].1 == component);
            }
            i = i + 1;
        }
        if any {
            self.state.numeric_dirty = true;
        }
        let _ = self.reconcile(staged);
    }

    /// Teardown forgets every declaration and binding.
    pub fn teardown(&mut self)
        ensures
            final(self).wf(),
            final(self).state.declarations.view() == Map::<u64, ConstraintDriverIdentity>::empty(),
            final(self).state.bindings.view() == Map::<u64, ScalarConstraintBinding>::empty(),
            final(self).state.numeric_dirty == old(self).state.numeric_dirty,
            final(self).state.restores_active == old(self).state.restores_active,
    {
        self.state.bindings.clear();
        self.state.declarations.clear();
    }

    /// Whether an entity's authored driver currently has a valid incarnation
    /// binding; `None` when the entity or its driver does not exist.
    pub fn driver_bound(&self, state: &WorldEntityState, entity: EntityId) -> (r: Option<bool>)
        requires
            self.wf(),
        ensures
            r is Some <==> state.spec_input(entity, LINEAR_DRIVER) is Some,
            r matches Some(b) ==> b == (match lookup(self.state.bindings.view(), entity.bits) {
                Some(binding) => binding_valid(*state, entity, binding),
                None => false,
            }),
    {
        if state.input(entity, LINEAR_DRIVER).is_none() {
            return None;
        }
        match self.state.bindings.get(entity.bits) {
            Some(binding) => Some(valid(state, entity, binding)),
            None => Some(false),
        }
    }
}

/// Reusable factory of constraint systems; it retains no world state.
pub struct ConstraintSystemFactory;

impl ConstraintSystemFactory {
    /// Stable factory and instance identity.
    pub fn id(&self) -> (r: SystemId)
        ensures
            r.same(SystemId("ipp.constraints")),
    {
        SystemId("ipp.constraints")
    }

    /// Runs after animation and state overlays when they exist.
    pub fn dependencies(&self) -> (r: Vec<SystemDependency>)
        ensures
            r@.len() == 2,
            r@[0] matches SystemDependency::After(a) && a.same(SystemId("ipp.animation")),
            r@[1] matches SystemDependency::After(b) && b.same(SystemId("ipp.state-overlay")),
    {
        vec![
            SystemDependency::After(SystemId("ipp.animation")),
            SystemDependency::After(SystemId("ipp.state-overlay")),
        ]
    }

    /// Fresh per-world state.
    pub fn create(&self) -> (r: ConstraintSystem)
        ensures
            r.wf(),
            r.state.declarations.view() == Map::<u64, ConstraintDriverIdentity>::empty(),
            r.state.bindings.view() == Map::<u64, ScalarConstraintBinding>::empty(),
            !r.state.restores_active,
            !r.state.numeric_dirty,
    {
        ConstraintSystem::new()
    }
}


/// A binding stays valid only while both Scalars keep the incarnations they
/// had when it was made: if it is valid in a later state, that state holds
/// the target's and the source's Scalar at the incarnations of the state it
/// was bound in. A removed and re-added Scalar leaves it invalid.
pub proof fn lemma_valid_binding_keeps_incarnations(
    bound_in: WorldEntityState,
    later: WorldEntityState,
    target: EntityId,
    source: EntityId,
    b: ScalarConstraintBinding,
)
    requires
        bound(bound_in, target, source) == Ok::<ScalarConstraintBinding, ErrorReason>(b),
        binding_valid(later, target, b),
    ensures
        later.spec_input(target, SCALAR) == bound_in.spec_input(target, SCALAR),
        later.spec_input(source, SCALAR) == bound_in.spec_input(source, SCALAR),
        later.spec_input(target, SCALAR) is Some,
{
}

/// A changed target Scalar incarnation invalidates every binding made
/// before the change.
pub proof fn lemma_changed_target_invalidates(
    bound_in: WorldEntityState,
    later: WorldEntityState,
    target: EntityId,
    source: EntityId,
    b: ScalarConstraintBinding,
)
    requires
        bound(bound_in, target, source) == Ok::<ScalarConstraintBinding, ErrorReason>(b),
        later.spec_input(target, SCALAR) != bound_in.spec_input(target, SCALAR),
    ensures
        !binding_valid(later, target, b),
{
}

} // verus!