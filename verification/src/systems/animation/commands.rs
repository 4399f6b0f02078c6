//! Commands on installed controllers: an interruptible crossfade to a
//! replacement description.

use crate::ids::ErrorReason;
use crate::systems::animation::demand::{add_description_demand, description_demands, source_description};
use crate::systems::animation::restore::{entry_targets, has_entry, AnimationControllerRegistry};
use crate::systems::animation::save::SavedController;
use crate::systems::animation::target_index::{controller_targets, indexed, unindexed};
use crate::systems::animation::validation::{finite_nonneg64, is_finite_nonneg64};
use crate::systems::animation::{
    AnimationControllerDescription, AnimationControllerSnapshot, AnimationControllerTransition,
    AnimationControllerTransitionState, AnimationFrozenTransitionValue, AnimationPersistentTransitionSource,
    AnimationPlaybackStatus, AnimationTransitionStartTime, AnimationControllerId,
};
use crate::systems::asset_dependencies::{views, AssetDemandSelection, SelectionView};
use vstd::prelude::*;

verus! {

/// Why a crossfade is refused, in the order the checks run: a duration or a
/// seek time that is not finite and non-negative; the World's refusal of the
/// replacement declaration (`description`); an unknown controller; the
/// World's refusal to hold the outgoing side (`hold`).
pub open spec fn transition_refusal(
    reg: AnimationControllerRegistry,
    id: AnimationControllerId,
    t: AnimationControllerTransition,
    description: Result<(), ErrorReason>,
    hold: Result<(), ErrorReason>,
) -> Option<ErrorReason> {
    if !finite_nonneg64(t.duration) || (t.start_time matches AnimationTransitionStartTime::Seek(x) && !finite_nonneg64(x)) {
        Some(ErrorReason::InvalidValue)
    } else if description is Err {
        Some(description->Err_0)
    } else if !has_entry(reg.controllers@, id) {
        Some(ErrorReason::InvalidValue)
    } else if hold is Err {
        Some(hold->Err_0)
    } else {
        None
    }
}

/// The destination clock a start policy selects from the outgoing time.
pub open spec fn destination_time(start: AnimationTransitionStartTime, outgoing: u64) -> u64 {
    match start {
        AnimationTransitionStartTime::Seek(x) => x,
        AnimationTransitionStartTime::Preserve => outgoing,
        AnimationTransitionStartTime::Restart | AnimationTransitionStartTime::MatchPhase => 0,
    }
}

/// The outgoing controller kept only for its identity and clock settings: no
/// drivers, stopped at zero, not crossfading.
pub open spec fn stripped(b: AnimationControllerSnapshot, s: AnimationControllerSnapshot) -> bool {
    &&& b.id == s.id
    &&& b.description.drivers@.len() == 0
    &&& b.description.speed == s.description.speed
    &&& b.description.looping == s.description.looping
    &&& b.state is Stopped
    &&& b.time == 0
    &&& b.transition is None
}

/// The outgoing side of a new crossfade: the controller itself when it was
/// not crossfading; the values a prepared crossfade holds (`frozen`) over the
/// stripped controller; otherwise the previous source, a frozen one measured
/// again from the controller's clock.
pub open spec fn outgoing_source(
    before: SavedController,
    s: AnimationPersistentTransitionSource,
    frozen: Vec<AnimationFrozenTransitionValue>,
    source_duration: u64,
) -> bool {
    match before.1 {
        None => s matches AnimationPersistentTransitionSource::Live(c) && c.id == before.0.id && c.description
            == before.0.description && c.state == before.0.state && c.time == before.0.time && c.transition is None,
        Some((previous, _, prepared)) => if prepared {
            s matches AnimationPersistentTransitionSource::Frozen { values, bindings, reference_time, reference_duration }
                && values == frozen && stripped(bindings, before.0) && reference_time == before.0.time
                && reference_duration == source_duration
        } else {
            match previous {
                AnimationPersistentTransitionSource::Live(c) => s == AnimationPersistentTransitionSource::Live(c),
                AnimationPersistentTransitionSource::Frozen { values, bindings, .. } => s matches
                    AnimationPersistentTransitionSource::Frozen {
                    values: v,
                    bindings: b,
                    reference_time,
                    reference_duration,
                } && v == values && b == bindings && reference_time == before.0.time && reference_duration
                    == source_duration,
            }
        },
    }
}

/// The entry of a controller after it starts crossfading to `t`.
pub open spec fn transitioned(
    before: SavedController,
    after: SavedController,
    t: AnimationControllerTransition,
    frozen: Vec<AnimationFrozenTransitionValue>,
    source_duration: u64,
) -> bool {
    &&& after.0.id == before.0.id
    &&& after.0.description == t.description
    &&& after.0.state == if before.0.state is Paused {
        AnimationPlaybackStatus::Paused
    } else {
        AnimationPlaybackStatus::Playing
    }
    &&& after.0.time == destination_time(t.start_time, before.0.time)
    &&& after.0.transition == Some(
        AnimationControllerTransitionState { duration: t.duration, elapsed: 0, easing: t.easing, pending: true },
    )
    &&& after.1 matches Some((s, start, prepared)) && start == t.start_time && !prepared && outgoing_source(
        before,
        s,
        frozen,
        source_duration,
    )
    &&& !after.2
}

/// Clip demand after a crossfade: every controller's own clips and those of
/// a live outgoing side.
pub open spec fn crossfade_demand(es: Seq<SavedController>, source: AnimationPersistentTransitionSource, x: SelectionView) -> bool {
    ||| exists|j: int| 0 <= j < es.len() && description_demands((#[trigger] es[j]).0.description, x)
    ||| (source is Live && description_demands(source_description(source), x))
}

/// Every controller's own clips.
pub(crate) fn own_demand(es: &Vec<SavedController>) -> (r: Vec<AssetDemandSelection>)
    ensures
        views(r@).no_duplicates(),
        forall|x: SelectionView| #[trigger] views(r@).contains(x) <==> exists|j: int|
            0 <= j < es@.len() && description_demands((#[trigger] es@[j]).0.description, x),
{
    let mut demand: Vec<AssetDemandSelection> = Vec::new();
    let mut j: usize = 0;
    while j < es.len()
        invariant
            j <= es@.len(),
            views(demand@).no_duplicates(),
            forall|x: SelectionView| #[trigger] views(demand@).contains(x) <==> exists|q: int|
                0 <= q < j && description_demands((#[trigger] es@[q]).0.description, x),
        decreases es@.len() - j,
    {
        let ghost before = views(demand@);
        add_description_demand(&es[j].0.description, &mut demand);
        proof {
            assert forall|x: SelectionView| #[trigger] views(demand@).contains(x) <==> exists|q: int|
                0 <= q < j + 1 && description_demands((#[trigger] es@[q]).0.description, x) by {
                if description_demands(es@[j as int].0.description, x) {
                    assert(0 <= j < j + 1);
                }
                if exists|q: int| 0 <= q < j + 1 && description_demands((#[trigger] es@[q]).0.description, x) {
                    let q = choose|q: int| 0 <= q < j + 1 && description_demands((#[trigger] es@[q]).0.description, x);
                    if q < j {
                        assert(before.contains(x));
                    }
                }
            }
        }
        j = j + 1;
    }
    demand
}

/// The outgoing side a crossfade keeps.
fn take_outgoing(
    snapshot: AnimationControllerSnapshot,
    side: Option<(AnimationPersistentTransitionSource, AnimationTransitionStartTime, bool)>,
    frozen: Vec<AnimationFrozenTransitionValue>,
    source_duration: u64,
) -> (r: AnimationPersistentTransitionSource)
    ensures
        outgoing_source((snapshot, side, false), r, frozen, source_duration),
{
    let mut source = snapshot;
    let reference_time = source.time;
    source.transition = None;
    match side {
        None => AnimationPersistentTransitionSource::Live(source),
        Some((previous, _, prepared)) => {
            if prepared {
                let bindings = AnimationControllerSnapshot {
                    id: source.id,
                    description: AnimationControllerDescription {
                        drivers: Vec::new(),
                        speed: source.description.speed,
                        looping: source.description.looping,
                    },
                    state: AnimationPlaybackStatus::Stopped,
                    time: 0,
                    transition: None,
                };
                AnimationPersistentTransitionSource::Frozen {
                    values: frozen,
                    bindings,
                    reference_time,
                    reference_duration: source_duration,
                }
            } else {
                match previous {
                    AnimationPersistentTransitionSource::Live(c) => AnimationPersistentTransitionSource::Live(c),
                    AnimationPersistentTransitionSource::Frozen { values, bindings, .. } => {
                        AnimationPersistentTransitionSource::Frozen {
                            values,
                            bindings,
                            reference_time,
                            reference_duration: source_duration,
                        }
                    },
                }
            }
        },
    }
}

impl AnimationControllerRegistry {
    /// Begin an interruptible crossfade of controller `id` to a replacement
    /// description. `description` is the World's validation of the
    /// replacement declaration and its targets; `hold` its validation of the
    /// outgoing controller's targets and of holding the outgoing side;
    /// `frozen` the values a prepared crossfade holds now, and
    /// `source_duration` the outgoing clips' duration. The destination waits
    /// for its clips, paused if the controller was paused and playing
    /// otherwise. On any refusal nothing changes.
    pub fn transition_animation_controller(
        &mut self,
        id: AnimationControllerId,
        transition: AnimationControllerTransition,
        description: Result<(), ErrorReason>,
        hold: Result<(), ErrorReason>,
        frozen: Vec<AnimationFrozenTransitionValue>,
        source_duration: u64,
    ) -> (r: Result<(), ErrorReason>)
        requires
            old(self).wf(),
        ensures
            r is Ok <==> transition_refusal(*old(self), id, transition, description, hold) is None,
            r matches Err(e) ==> transition_refusal(*old(self), id, transition, description, hold) == Some(e)
                && *final(self) == *old(self),
            r is Ok ==> {
                let before = old(self).controllers@;
                let after = final(self).controllers@;
                &&& final(self).wf()
                &&& after.len() == before.len()
                &&& forall|j: int| 0 <= j < after.len() && before[j].0.id != id ==> #[trigger] after[j] == before[j]
                &&& forall|j: int|
                    0 <= j < after.len() && before[j].0.id == id ==> transitioned(
                        before[j],
                        #[trigger] after[j],
                        transition,
                        frozen,
                        source_duration,
                    )
                &&& final(self).next_id == old(self).next_id
                &&& final(self).demand_revision == (old(self).demand_revision + 1) % 0x1_0000_0000_0000_0000
                &&& exists|j: int|
                    0 <= j < after.len() && (#[trigger] after[j]).0.id == id && indexed(
                        old(self).index,
                        id.bits,
                        entry_targets(after[j]),
                        final(self).index,
                    ) && forall|x: SelectionView| #[trigger] views(final(self).animation_sources@).contains(x)
                        <==> crossfade_demand(after, after[j].1->Some_0.0, x)
            },
    {
        if !is_finite_nonneg64(transition.duration) {
            return Err(ErrorReason::InvalidValue);
        }
        match transition.start_time {
            AnimationTransitionStartTime::Seek(x) => {
                if !is_finite_nonneg64(x) {
                    return Err(ErrorReason::InvalidValue);
                }
            },
            _ => {},
        }
        match description {
            Err(e) => {
                return Err(e);
            },
            Ok(()) => {},
        }
        let i = match crate::systems::animation::restore::find_entry(&self.controllers, id.bits) {
            Ok(i) => i,
            Err(_) => {
                proof {
                    if has_entry(self.controllers@, id) {
                        let j = choose|j: int| 0 <= j < self.controllers@.len() && (#[trigger] self.controllers@[j]).0.id == id;
                        assert(self.controllers@[j].0.id.bits == id.bits);
                    }
                }
                return Err(ErrorReason::InvalidValue);
            },
        };
        proof {
            assert(self.controllers@[i as int].0.id == id);
        }
        match hold {
            Err(e) => {
                return Err(e);
            },
            Ok(()) => {},
        }
        let ghost before = self.controllers@;
        let ghost old_index = self.index;
        let (snapshot, side, directional) = self.controllers.remove(i);
        let ghost previous: SavedController = (snapshot, side, directional);
        proof {
            assert(previous == before[i as int]);
        }
        let state = if matches!(snapshot.state, AnimationPlaybackStatus::Paused) {
            AnimationPlaybackStatus::Paused
        } else {
            AnimationPlaybackStatus::Playing
        };
        let time = match transition.start_time {
            AnimationTransitionStartTime::Seek(x) => x,
            AnimationTransitionStartTime::Preserve => snapshot.time,
            AnimationTransitionStartTime::Restart | AnimationTransitionStartTime::MatchPhase => 0,
        };
        let source = take_outgoing(snapshot, side, frozen, source_duration);
        let AnimationControllerTransition { description: replacement, duration, easing, start_time } = transition;
        let destination = AnimationControllerSnapshot {
            id,
            description: replacement,
            state,
            time,
            transition: Some(AnimationControllerTransitionState { duration, elapsed: 0, easing, pending: true }),
        };
        let targets = controller_targets(&destination, Some(&source));
        let entry: SavedController = (destination, Some((source, start_time, false)), false);
        self.controllers.insert(i, entry);
        proof {
            assert(self.controllers@ =~= before.update(i as int, entry));
            assert forall|a: int, b: int| 0 <= a < b < self.controllers@.len() implies (#[trigger] self.controllers@[a]).0.id.bits
                < (#[trigger] self.controllers@[b]).0.id.bits by {
                assert(before[a].0.id.bits < before[b].0.id.bits);
            }
            assert(targets@ == entry_targets(entry));
        }
        let _shared = self.index.index_controller(id.bits, &targets);
        let mut demand = own_demand(&self.controllers);
        let ghost own = views(demand@);
        match &self.controllers[i].1 {
            Some((AnimationPersistentTransitionSource::Live(c), _, _)) => add_description_demand(&c.description, &mut demand),
            _ => {},
        }
        self.demand_revision = self.demand_revision.wrapping_add(1);
        self.animation_sources = demand;
        proof {
            assert forall|j: int| 0 <= j < self.controllers@.len() && before[j].0.id != id implies #[trigger] self.controllers@[j]
                == before[j] by {
                assert(j != i);
            }
            assert forall|j: int|
                0 <= j < self.controllers@.len() && before[j].0.id == id implies transitioned(
                before[j],
                #[trigger] self.controllers@[j],
                transition,
                frozen,
                source_duration,
            ) by {
                if j != i {
                    if j < i {
                        assert(before[j].0.id.bits < before[i as int].0.id.bits);
                    } else {
                        assert(before[i as int].0.id.bits < before[j].0.id.bits);
                    }
                }
            }
            assert(self.controllers@[i as int].0.id == id);
        }
        Ok(())
    }
}


impl AnimationControllerRegistry {
    /// Remove a controller: it leaves the registry and the target index, and
    /// the retained clip demand becomes the remaining controllers' own clips.
    /// An unknown identity is refused and nothing changes.
    pub fn remove_animation_controller(&mut self, id: AnimationControllerId) -> (r: Result<(), ErrorReason>)
        requires
            old(self).wf(),
        ensures
            r is Ok <==> has_entry(old(self).controllers@, id),
            r is Err ==> r == Err::<(), ErrorReason>(ErrorReason::InvalidValue) && *final(self) == *old(self),
            r is Ok ==> {
                &&& final(self).wf()
                &&& exists|i: int|
                    0 <= i < old(self).controllers@.len() && (#[trigger] old(self).controllers@[i]).0.id == id
                        && final(self).controllers@ == old(self).controllers@.remove(i)
                &&& unindexed(old(self).index, id.bits, final(self).index)
                &&& final(self).index.target_keys@ == old(self).index.target_keys@.remove(id.bits)
                &&& final(self).next_id == old(self).next_id
                &&& final(self).demand_revision == (old(self).demand_revision + 1) % 0x1_0000_0000_0000_0000
                &&& forall|x: SelectionView| #[trigger] views(final(self).animation_sources@).contains(x) <==> exists|j: int|
                    0 <= j < final(self).controllers@.len() && description_demands(
                        (#[trigger] final(self).controllers@[j]).0.description,
                        x,
                    )
            },
    {
        let i = match crate::systems::animation::restore::find_entry(&self.controllers, id.bits) {
            Ok(i) => i,
            Err(_) => {
                proof {
                    if has_entry(self.controllers@, id) {
                        let j = choose|j: int| 0 <= j < self.controllers@.len() && (#[trigger] self.controllers@[j]).0.id == id;
                        assert(self.controllers@[j].0.id.bits == id.bits);
                    }
                }
                return Err(ErrorReason::InvalidValue);
            },
        };
        proof {
            assert(self.controllers@[i as int].0.id == id);
        }
        let ghost before = self.controllers@;
        let _removed = self.controllers.remove(i);
        proof {
            assert forall|a: int, b: int| 0 <= a < b < self.controllers@.len() implies (#[trigger] self.controllers@[a]).0.id.bits
                < (#[trigger] self.controllers@[b]).0.id.bits by {
                if a < i && b < i {
                    assert(before[a].0.id.bits < before[b].0.id.bits);
                } else if a < i {
                    assert(before[a].0.id.bits < before[b + 1].0.id.bits);
                } else {
                    assert(before[a + 1].0.id.bits < before[b + 1].0.id.bits);
                }
            }
        }
        let _shared = self.index.unindex_controller(id.bits);
        self.demand_revision = self.demand_revision.wrapping_add(1);
        self.animation_sources = own_demand(&self.controllers);
        Ok(())
    }
}

} // verus!
