//! Restoring persistent animation state into a World: every durable entity
//! target is rewritten to the live entity that its persistent identity maps to.

use crate::ids::EntityId;
use crate::systems::animation::codec::{
    driver_models, frozen_models, ControllerModel, DriverModel, FrozenModel, SourceModel, StateModel,
    TransitionModel,
};
use crate::systems::animation::validation::{
    has_sidecar, same_key, startable, transitioning, valid_controller, valid_driver, valid_frozen, valid_state,
    valid_transition,
};
use crate::systems::animation::{
    AnimationDriverDescription, AnimationFrozenTransitionValue, AnimationPersistentState,
    AnimationPersistentTransitionSource,
};
use std::collections::BTreeMap;
use vstd::prelude::*;

verus! {

broadcast use vstd::std_specs::btree::group_btree_axioms, vstd::laws_cmp::group_laws_cmp;

/// Every driver's target has a live entity.
pub open spec fn drivers_mapped(ds: Seq<DriverModel>, ids: Map<u64, EntityId>) -> bool {
    forall|i: int| 0 <= i < ds.len() ==> ids.contains_key((#[trigger] ds[i]).target.bits)
}

/// Every frozen value's target has a live entity.
pub open spec fn frozen_mapped(vs: Seq<FrozenModel>, ids: Map<u64, EntityId>) -> bool {
    forall|i: int| 0 <= i < vs.len() ==> ids.contains_key((#[trigger] vs[i]).target.bits)
}

/// Every controller driver's target has a live entity.
pub open spec fn controller_targets_mapped(m: StateModel, ids: Map<u64, EntityId>) -> bool {
    forall|i: int| 0 <= i < m.controllers.len() ==> drivers_mapped((#[trigger] m.controllers[i]).drivers, ids)
}

/// Every target a transition source holds has a live entity.
pub open spec fn source_mapped(s: SourceModel, ids: Map<u64, EntityId>) -> bool {
    match s {
        SourceModel::Live(c) => drivers_mapped(c.drivers, ids),
        SourceModel::Frozen { values, bindings, .. } => drivers_mapped(bindings.drivers, ids) && frozen_mapped(
            values,
            ids,
        ),
    }
}

/// Every target of every transition source has a live entity.
pub open spec fn transition_targets_mapped(m: StateModel, ids: Map<u64, EntityId>) -> bool {
    forall|k: int| 0 <= k < m.transitions.len() ==> source_mapped((#[trigger] m.transitions[k]).source, ids)
}

/// A driver retargeted to the live entity of its persistent identity.
pub open spec fn remap_driver(d: DriverModel, ids: Map<u64, EntityId>) -> DriverModel {
    DriverModel {
        source: d.source,
        variant: d.variant,
        track: d.track,
        target: ids[d.target.bits],
        property: d.property,
        weight: d.weight,
        additive: d.additive,
        reference_time: d.reference_time,
        repeat: d.repeat,
    }
}

pub open spec fn remap_drivers(ds: Seq<DriverModel>, ids: Map<u64, EntityId>) -> Seq<DriverModel> {
    ds.map_values(|d: DriverModel| remap_driver(d, ids))
}

/// A controller whose drivers are retargeted; nothing else changes.
pub open spec fn remap_controller(c: ControllerModel, ids: Map<u64, EntityId>) -> ControllerModel {
    ControllerModel {
        id: c.id,
        drivers: remap_drivers(c.drivers, ids),
        speed: c.speed,
        looping: c.looping,
        state: c.state,
        time: c.time,
        transition: c.transition,
    }
}

/// A frozen value retargeted to the live entity of its persistent identity.
pub open spec fn remap_frozen(v: FrozenModel, ids: Map<u64, EntityId>) -> FrozenModel {
    FrozenModel { target: ids[v.target.bits], property: v.property, value: v.value, baseline: v.baseline }
}

pub open spec fn remap_source(s: SourceModel, ids: Map<u64, EntityId>) -> SourceModel {
    match s {
        SourceModel::Live(c) => SourceModel::Live(remap_controller(c, ids)),
        SourceModel::Frozen { values, bindings, reference_time, reference_duration } => SourceModel::Frozen {
            values: values.map_values(|v: FrozenModel| remap_frozen(v, ids)),
            bindings: remap_controller(bindings, ids),
            reference_time,
            reference_duration,
        },
    }
}

pub open spec fn remap_transition(t: TransitionModel, ids: Map<u64, EntityId>) -> TransitionModel {
    TransitionModel { id: t.id, source: remap_source(t.source, ids), start_time: t.start_time }
}

/// The state with every durable target retargeted; identities, clocks,
/// transitions and pending directional starts are kept.
pub open spec fn remap_state(m: StateModel, ids: Map<u64, EntityId>) -> StateModel {
    StateModel {
        next_id: m.next_id,
        controllers: m.controllers.map_values(|c: ControllerModel| remap_controller(c, ids)),
        transitions: m.transitions.map_values(|t: TransitionModel| remap_transition(t, ids)),
        directional_starts: m.directional_starts,
    }
}

fn drivers_resolve(drivers: &Vec<AnimationDriverDescription>, ids: &BTreeMap<u64, EntityId>) -> (r: bool)
    ensures
        r == drivers_mapped(driver_models(drivers@), ids@),
{
    let ghost dm = driver_models(drivers@);
    let mut i: usize = 0;
    while i < drivers.len()
        invariant
            dm == driver_models(drivers@),
            i <= drivers@.len(),
            forall|k: int| 0 <= k < i ==> ids@.contains_key((#[trigger] dm[k]).target.bits),
        decreases drivers@.len() - i,
    {
        assert(dm[i as int] == drivers@[i as int]@);
        if !ids.contains_key(&drivers[i].target.bits) {
            return false;
        }
        i = i + 1;
    }
    true
}

fn frozen_resolve(values: &Vec<AnimationFrozenTransitionValue>, ids: &BTreeMap<u64, EntityId>) -> (r: bool)
    ensures
        r == frozen_mapped(frozen_models(values@), ids@),
{
    let ghost fm = frozen_models(values@);
    let mut i: usize = 0;
    while i < values.len()
        invariant
            fm == frozen_models(values@),
            i <= values@.len(),
            forall|k: int| 0 <= k < i ==> ids@.contains_key((#[trigger] fm[k]).target.bits),
        decreases values@.len() - i,
    {
        assert(fm[i as int] == values@[i as int]@);
        if !ids.contains_key(&values[i].target.bits) {
            return false;
        }
        i = i + 1;
    }
    true
}

fn retarget_drivers(drivers: &mut Vec<AnimationDriverDescription>, ids: &BTreeMap<u64, EntityId>)
    requires
        drivers_mapped(driver_models(old(drivers)@), ids@),
    ensures
        driver_models(final(drivers)@) == remap_drivers(driver_models(old(drivers)@), ids@),
{
    let ghost before = driver_models(drivers@);
    let mut i: usize = 0;
    while i < drivers.len()
        invariant
            before == driver_models(old(drivers)@),
            drivers@.len() == before.len(),
            drivers_mapped(before, ids@),
            i <= drivers@.len(),
            forall|k: int| 0 <= k < i ==> (#[trigger] drivers@[k])@ == remap_driver(before[k], ids@),
            forall|k: int| i <= k < drivers@.len() ==> (#[trigger] drivers@[k])@ == before[k],
        decreases drivers@.len() - i,
    {
        assert(drivers@[i as int]@ == before[i as int]);
        assert(ids@.contains_key(before[i as int].target.bits));
        let target = match ids.get(&drivers[i].target.bits) {
            Some(t) => *t,
            None => {
                proof {
                    assert(false);
                }
                drivers[i].target
            },
        };
        let d = &mut drivers[i];
        d.target = target;
        i = i + 1;
    }
    assert(driver_models(drivers@) =~= remap_drivers(before, ids@));
}

fn retarget_frozen(values: &mut Vec<AnimationFrozenTransitionValue>, ids: &BTreeMap<u64, EntityId>)
    requires
        frozen_mapped(frozen_models(old(values)@), ids@),
    ensures
        frozen_models(final(values)@) == frozen_models(old(values)@).map_values(
            |v: FrozenModel| remap_frozen(v, ids@),
        ),
{
    let ghost before = frozen_models(values@);
    let mut i: usize = 0;
    while i < values.len()
        invariant
            before == frozen_models(old(values)@),
            values@.len() == before.len(),
            frozen_mapped(before, ids@),
            i <= values@.len(),
            forall|k: int| 0 <= k < i ==> (#[trigger] values@[k])@ == remap_frozen(before[k], ids@),
            forall|k: int| i <= k < values@.len() ==> (#[trigger] values@[k])@ == before[k],
        decreases values@.len() - i,
    {
        assert(values@[i as int]@ == before[i as int]);
        assert(ids@.contains_key(before[i as int].target.bits));
        let target = match ids.get(&values[i].target.bits) {
            Some(t) => *t,
            None => {
                proof {
                    assert(false);
                }
                values[i].target
            },
        };
        let v = &mut values[i];
        v.target = target;
        i = i + 1;
    }
    assert(frozen_models(values@) =~= before.map_values(|v: FrozenModel| remap_frozen(v, ids@)));
}

impl AnimationPersistentState {
    /// Rewrite every durable target to the live entity of its persistent
    /// identity. Refused, unchanged in meaning, when a controller target (first)
    /// or a transition target has no live entity.
    pub fn remap_entities(self, ids: &BTreeMap<u64, EntityId>) -> (r: Result<Self, String>)
        ensures
            r is Ok <==> controller_targets_mapped(self@, ids@) && transition_targets_mapped(self@, ids@),
            r matches Ok(s) ==> s@ == remap_state(self@, ids@),
            r matches Err(e) ==> e@ == if !controller_targets_mapped(self@, ids@) {
                "Missing persistent animation target"@
            } else {
                "Missing persistent animation transition target"@
            },
    {
        let ghost m = self@;
        let mut i: usize = 0;
        while i < self.controllers.len()
            invariant
                m == self@,
                i <= m.controllers.len(),
                forall|k: int| 0 <= k < i ==> drivers_mapped((#[trigger] m.controllers[k]).drivers, ids@),
            decreases m.controllers.len() - i,
        {
            assert(m.controllers[i as int] == self.controllers@[i as int]@);
            if !drivers_resolve(&self.controllers[i].description.drivers, ids) {
                return Err("Missing persistent animation target".to_owned());
            }
            i = i + 1;
        }
        let mut k: usize = 0;
        while k < self.transitions.len()
            invariant
                m == self@,
                controller_targets_mapped(m, ids@),
                k <= m.transitions.len(),
                forall|l: int| 0 <= l < k ==> source_mapped((#[trigger] m.transitions[l]).source, ids@),
            decreases m.transitions.len() - k,
        {
            assert(m.transitions[k as int] == self.transitions@[k as int]@);
            let ok = match &self.transitions[k].source {
                AnimationPersistentTransitionSource::Live(source) => drivers_resolve(&source.description.drivers, ids),
                AnimationPersistentTransitionSource::Frozen { values, bindings, .. } => drivers_resolve(
                    &bindings.description.drivers,
                    ids,
                ) && frozen_resolve(values, ids),
            };
            if !ok {
                return Err("Missing persistent animation transition target".to_owned());
            }
            k = k + 1;
        }
        let mut state = self;
        let mut i: usize = 0;
        while i < state.controllers.len()
            invariant
                controller_targets_mapped(m, ids@),
                state.controllers@.len() == m.controllers.len(),
                i <= m.controllers.len(),
                forall|k: int| 0 <= k < i ==> (#[trigger] state.controllers@[k])@ == remap_controller(m.controllers[k], ids@),
                forall|k: int| i <= k < m.controllers.len() ==> (#[trigger] state.controllers@[k])@ == m.controllers[k],
                state.next_id == m.next_id,
                state.directional_starts@ == m.directional_starts,
                transition_models_of(state) == m.transitions,
            decreases m.controllers.len() - i,
        {
            assert(state.controllers@[i as int]@ == m.controllers[i as int]);
            let c = &mut state.controllers[i];
            retarget_drivers(&mut c.description.drivers, ids);
            i = i + 1;
        }
        let mut k: usize = 0;
        while k < state.transitions.len()
            invariant
                transition_targets_mapped(m, ids@),
                state.transitions@.len() == m.transitions.len(),
                k <= m.transitions.len(),
                forall|l: int| 0 <= l < k ==> (#[trigger] state.transitions@[l])@ == remap_transition(m.transitions[l], ids@),
                forall|l: int| k <= l < m.transitions.len() ==> (#[trigger] state.transitions@[l])@ == m.transitions[l],
                state.next_id == m.next_id,
                state.directional_starts@ == m.directional_starts,
                state.controllers@.len() == m.controllers.len(),
                forall|l: int| 0 <= l < m.controllers.len() ==> (#[trigger] state.controllers@[l])@ == remap_controller(m.controllers[l], ids@),
            decreases m.transitions.len() - k,
        {
            assert(state.transitions@[k as int]@ == m.transitions[k as int]);
            let t = &mut state.transitions[k];
            match &mut t.source {
                AnimationPersistentTransitionSource::Live(source) => {
                    retarget_drivers(&mut source.description.drivers, ids);
                },
                AnimationPersistentTransitionSource::Frozen { values, bindings, .. } => {
                    retarget_frozen(values, ids);
                    retarget_drivers(&mut bindings.description.drivers, ids);
                },
            }
            k = k + 1;
        }
        assert(state@.controllers =~= remap_state(m, ids@).controllers);
        assert(state@.transitions =~= remap_state(m, ids@).transitions);
        Ok(state)
    }
}

spec fn transition_models_of(s: AnimationPersistentState) -> Seq<TransitionModel> {
    s@.transitions
}

/// An identity mapping that sends no two persistent identities to one entity.
pub open spec fn one_to_one(ids: Map<u64, EntityId>) -> bool {
    forall|a: u64, b: u64| ids.contains_key(a) && ids.contains_key(b) && #[trigger] ids[a] == #[trigger] ids[b] ==> a == b
}

proof fn lemma_remap_controller_valid(c: ControllerModel, ids: Map<u64, EntityId>, allow: bool, id: u64)
    requires
        valid_controller(c, allow, id),
    ensures
        valid_controller(remap_controller(c, ids), allow, id),
{
    let r = remap_controller(c, ids);
    assert forall|i: int| 0 <= i < r.drivers.len() implies valid_driver(#[trigger] r.drivers[i]) by {
        assert(valid_driver(c.drivers[i]));
    }
}

/// Restoring a valid state under a one-to-one identity mapping of all its
/// targets yields a valid state.
pub proof fn lemma_remap_preserves_validity(m: StateModel, ids: Map<u64, EntityId>)
    requires
        valid_state(m),
        controller_targets_mapped(m, ids),
        transition_targets_mapped(m, ids),
        one_to_one(ids),
    ensures
        valid_state(remap_state(m, ids)),
{
    let r = remap_state(m, ids);
    let cs = r.controllers;
    let ts = r.transitions;
    assert forall|i: int| 0 <= i < cs.len() implies 0 < (#[trigger] cs[i]).id.bits < r.next_id && valid_controller(
        cs[i],
        true,
        cs[i].id.bits,
    ) by {
        lemma_remap_controller_valid(m.controllers[i], ids, true, m.controllers[i].id.bits);
    }
    assert forall|i: int, j: int| 0 <= i < j < cs.len() implies (#[trigger] cs[i]).id.bits < (#[trigger] cs[j]).id.bits by {
        assert(m.controllers[i].id.bits < m.controllers[j].id.bits);
    }
    assert forall|id: u64| startable(m.controllers, id) implies startable(cs, id) by {
        if startable(m.controllers, id) {
            let i = choose|i: int|
                0 <= i < m.controllers.len() && (#[trigger] m.controllers[i]).id.bits == id && (m.controllers[i].state is Playing
                    || m.controllers[i].state is Paused);
            assert(cs[i].id.bits == id);
        }
    }
    assert forall|id: u64| transitioning(m.controllers, id) implies transitioning(cs, id) by {
        if transitioning(m.controllers, id) {
            let i = choose|i: int|
                0 <= i < m.controllers.len() && (#[trigger] m.controllers[i]).id.bits == id && m.controllers[i].transition is Some;
            assert(cs[i].id.bits == id);
        }
    }
    assert forall|id: u64| has_sidecar(m.transitions, id) implies has_sidecar(ts, id) by {
        if has_sidecar(m.transitions, id) {
            let k = choose|k: int| 0 <= k < m.transitions.len() && (#[trigger] m.transitions[k]).id.bits == id;
            assert(ts[k].id.bits == id);
        }
    }
    assert forall|k: int| 0 <= k < r.directional_starts.len() implies startable(cs, (#[trigger] r.directional_starts[k]).bits) by {
        assert(startable(m.controllers, m.directional_starts[k].bits));
    }
    assert forall|k: int| 0 <= k < ts.len() implies valid_transition(#[trigger] ts[k]) && transitioning(cs, ts[k].id.bits) by {
        let t = m.transitions[k];
        assert(valid_transition(t) && transitioning(m.controllers, t.id.bits));
        assert(source_mapped(t.source, ids));
        match t.source {
            SourceModel::Live(c) => {
                lemma_remap_controller_valid(c, ids, false, t.id.bits);
            },
            SourceModel::Frozen { values, bindings, .. } => {
                lemma_remap_controller_valid(bindings, ids, false, t.id.bits);
                let rv = values.map_values(|v: FrozenModel| remap_frozen(v, ids));
                assert forall|i: int| 0 <= i < rv.len() implies valid_frozen(#[trigger] rv[i]) by {
                    assert(valid_frozen(values[i]));
                }
                assert forall|i: int, j: int| 0 <= i < j < rv.len() implies !same_key(#[trigger] rv[i], #[trigger] rv[j]) by {
                    assert(!same_key(values[i], values[j]));
                    assert(ids.contains_key(values[i].target.bits) && ids.contains_key(values[j].target.bits));
                    if rv[i].target == rv[j].target {
                        assert(ids[values[i].target.bits] == ids[values[j].target.bits]);
                        assert(values[i].target.bits == values[j].target.bits);
                    }
                }
            },
        }
    }
    assert forall|k: int, l: int| 0 <= k < l < ts.len() implies (#[trigger] ts[k]).id != (#[trigger] ts[l]).id by {
        assert(m.transitions[k].id != m.transitions[l].id);
    }
    assert forall|i: int| 0 <= i < cs.len() && (#[trigger] cs[i]).transition is Some implies has_sidecar(ts, cs[i].id.bits) by {
        assert(has_sidecar(m.transitions, m.controllers[i].id.bits));
    }
}

/// `back` returns every entity `ids` assigns to the persistent identity it came from.
pub open spec fn inverts(ids: Map<u64, EntityId>, back: Map<u64, EntityId>) -> bool {
    forall|t: u64| #[trigger] ids.contains_key(t) ==> back.contains_key(ids[t].bits) && back[ids[t].bits].bits == t
}

proof fn lemma_remap_controller_back(c: ControllerModel, ids: Map<u64, EntityId>, back: Map<u64, EntityId>)
    requires
        drivers_mapped(c.drivers, ids),
        inverts(ids, back),
    ensures
        drivers_mapped(remap_controller(c, ids).drivers, back),
        remap_controller(remap_controller(c, ids), back) == c,
{
    let once = remap_controller(c, ids);
    assert forall|i: int| 0 <= i < once.drivers.len() implies back.contains_key((#[trigger] once.drivers[i]).target.bits) by {
        assert(ids.contains_key(c.drivers[i].target.bits));
    }
    let twice = remap_controller(once, back);
    assert forall|i: int| 0 <= i < c.drivers.len() implies #[trigger] twice.drivers[i] == c.drivers[i] by {
        assert(ids.contains_key(c.drivers[i].target.bits));
        assert(twice.drivers[i].target.bits == c.drivers[i].target.bits);
    }
    assert(twice.drivers =~= c.drivers);
}

/// Remapping with a mapping that leads every assigned entity back to its
/// persistent identity restores the state exactly.
pub proof fn lemma_remap_round_trip(m: StateModel, ids: Map<u64, EntityId>, back: Map<u64, EntityId>)
    requires
        controller_targets_mapped(m, ids),
        transition_targets_mapped(m, ids),
        inverts(ids, back),
    ensures
        controller_targets_mapped(remap_state(m, ids), back),
        transition_targets_mapped(remap_state(m, ids), back),
        remap_state(remap_state(m, ids), back) == m,
{
    let once = remap_state(m, ids);
    let twice = remap_state(once, back);
    assert forall|i: int| 0 <= i < m.controllers.len() implies #[trigger] twice.controllers[i] == m.controllers[i]
        && drivers_mapped(once.controllers[i].drivers, back) by {
        lemma_remap_controller_back(m.controllers[i], ids, back);
    }
    assert forall|k: int| 0 <= k < m.transitions.len() implies #[trigger] twice.transitions[k] == m.transitions[k]
        && source_mapped(once.transitions[k].source, back) by {
        let t = m.transitions[k];
        assert(source_mapped(t.source, ids));
        match t.source {
            SourceModel::Live(c) => {
                lemma_remap_controller_back(c, ids, back);
            },
            SourceModel::Frozen { values, bindings, .. } => {
                lemma_remap_controller_back(bindings, ids, back);
                let v1 = values.map_values(|v: FrozenModel| remap_frozen(v, ids));
                let v2 = v1.map_values(|v: FrozenModel| remap_frozen(v, back));
                assert forall|i: int| 0 <= i < v1.len() implies back.contains_key((#[trigger] v1[i]).target.bits) by {
                    assert(ids.contains_key(values[i].target.bits));
                }
                assert forall|i: int| 0 <= i < values.len() implies #[trigger] v2[i] == values[i] by {
                    assert(ids.contains_key(values[i].target.bits));
                    assert(v2[i].target.bits == values[i].target.bits);
                }
                assert(v2 =~= values);
            },
        }
    }
    assert(twice.controllers =~= m.controllers);
    assert(twice.transitions =~= m.transitions);
}

} // verus!
