//! The controller registry of one World and the restoration of its
//! controllers from persistent state: every saved controller is checked, its
//! crossfade sidecar reattached, and the target index and clip demand rebuilt,
//! or nothing changes.

use crate::ids::ErrorReason;
use crate::systems::animation::codec::{driver_models, source_model, ControllerModel, SourceModel, StateModel, TransitionModel};
use crate::systems::animation::demand::{add_description_demand, description_demands};
use crate::systems::animation::persistence::target_component;
use crate::systems::animation::save::{saved_starts, saved_state, saved_transition, saved_transitions, SavedController};
use crate::systems::animation::target_index::{
    controller_targets, driver_targets, entry_ids, source_targets, AnimationTargetIndex,
};
use crate::systems::animation::validation::{finite32, finite_nonneg64, is_finite32, is_finite_nonneg64};
use crate::systems::animation::{
    AnimationControllerSnapshot, AnimationControllerTransitionState, AnimationPersistentState,
    AnimationPersistentTransition, AnimationPlaybackStatus, AnimationControllerId, MAX_CONTROLLERS,
};
use crate::systems::asset_dependencies::{views, AssetDemandSelection, SelectionView};
use crate::world::WorldEntityState;
use vstd::prelude::*;

verus! {

/// Some identity occurs twice.
pub open spec fn has_duplicate(ids: Seq<AnimationControllerId>) -> bool {
    exists|a: int, b: int| 0 <= a < b < ids.len() && #[trigger] ids[a] == #[trigger] ids[b]
}

/// Why a saved declaration cannot be bound: a declaration without drivers
/// must be stopped with a finite speed; one with drivers answers to the
/// World's validation of it (`outcome`).
pub open spec fn declaration_error(c: ControllerModel, outcome: Result<(), ErrorReason>) -> Option<ErrorReason> {
    if c.drivers.len() == 0 {
        if !(c.state is Stopped) || !finite32(c.speed) {
            Some(ErrorReason::InvalidValue)
        } else {
            None
        }
    } else {
        match outcome {
            Err(e) => Some(e),
            Ok(_) => None,
        }
    }
}

/// Why the `k`-th saved controller is refused: an identity that is zero, not
/// below the counter or repeated; a clock that is not finite and non-negative;
/// or its declaration.
pub open spec fn controller_error(m: StateModel, ds: Seq<Result<(), ErrorReason>>, k: int) -> Option<ErrorReason> {
    let c = m.controllers[k];
    if c.id.bits == 0 || c.id.bits >= m.next_id || (exists|j: int| 0 <= j < k && #[trigger] m.controllers[j].id == c.id)
        || !finite_nonneg64(c.time) {
        Some(ErrorReason::InvalidValue)
    } else {
        declaration_error(c, ds[k])
    }
}

/// The first refusal among the first `n` saved controllers.
pub open spec fn first_controller_error(m: StateModel, ds: Seq<Result<(), ErrorReason>>, n: int) -> Option<ErrorReason>
    decreases n,
{
    if n <= 0 {
        None
    } else {
        match first_controller_error(m, ds, n - 1) {
            Some(e) => Some(e),
            None => controller_error(m, ds, n - 1),
        }
    }
}

/// Some saved controller has this identity.
pub open spec fn has_controller(m: StateModel, id: AnimationControllerId) -> bool {
    exists|i: int| 0 <= i < m.controllers.len() && (#[trigger] m.controllers[i]).id == id
}

/// The saved controller with this identity.
pub open spec fn controller_of(m: StateModel, id: AnimationControllerId) -> ControllerModel {
    m.controllers[choose|i: int| 0 <= i < m.controllers.len() && (#[trigger] m.controllers[i]).id == id]
}

/// Why the `k`-th sidecar is refused: no crossfading controller of its
/// identity; a source declaration that cannot be bound (`outcome` is the
/// World's validation of it); or a frozen value whose component is missing.
pub open spec fn transition_error(
    m: StateModel,
    ss: Seq<Result<(), ErrorReason>>,
    world: WorldEntityState,
    k: int,
) -> Option<ErrorReason> {
    let t = m.transitions[k];
    if !has_controller(m, t.id) || controller_of(m, t.id).transition is None {
        Some(ErrorReason::InvalidValue)
    } else {
        match t.source {
            SourceModel::Live(c) => declaration_error(c, ss[k]),
            SourceModel::Frozen { values, bindings, .. } => match declaration_error(bindings, ss[k]) {
                Some(e) => Some(e),
                None => if exists|v: int|
                    0 <= v < values.len() && world.spec_input(
                        (#[trigger] values[v]).target,
                        target_component(values[v].property),
                    ) is None {
                    Some(ErrorReason::MissingComponent)
                } else {
                    None
                },
            },
        }
    }
}

/// The first refusal among the first `n` sidecars.
pub open spec fn first_transition_error(
    m: StateModel,
    ss: Seq<Result<(), ErrorReason>>,
    world: WorldEntityState,
    n: int,
) -> Option<ErrorReason>
    decreases n,
{
    if n <= 0 {
        None
    } else {
        match first_transition_error(m, ss, world, n - 1) {
            Some(e) => Some(e),
            None => transition_error(m, ss, world, n - 1),
        }
    }
}

/// Why a saved state cannot be restored, in the order the checks run; `None`
/// when it can.
pub open spec fn restore_error(
    m: StateModel,
    ds: Seq<Result<(), ErrorReason>>,
    ss: Seq<Result<(), ErrorReason>>,
    world: WorldEntityState,
    demand: Result<(), ErrorReason>,
) -> Option<ErrorReason> {
    if m.next_id == 0 || has_duplicate(m.directional_starts) {
        Some(ErrorReason::InvalidValue)
    } else {
        match first_controller_error(m, ds, m.controllers.len() as int) {
            Some(e) => Some(e),
            None => if m.controllers.len() > MAX_CONTROLLERS {
                Some(ErrorReason::Capacity)
            } else if exists|k: int|
                0 <= k < m.directional_starts.len() && !(has_controller(m, #[trigger] m.directional_starts[k])
                    && (controller_of(m, m.directional_starts[k]).state is Playing || controller_of(
                    m,
                    m.directional_starts[k],
                ).state is Paused)) {
                Some(ErrorReason::InvalidValue)
            } else {
                match first_transition_error(m, ss, world, m.transitions.len() as int) {
                    Some(e) => Some(e),
                    None => match demand {
                        Err(e) => Some(e),
                        Ok(_) => None,
                    },
                }
            },
        }
    }
}

/// The last sidecar of an identity.
pub open spec fn last_transition(ts: Seq<TransitionModel>, id: AnimationControllerId) -> Option<TransitionModel>
    decreases ts.len(),
{
    if ts.len() == 0 {
        None
    } else if ts.last().id == id {
        Some(ts.last())
    } else {
        last_transition(ts.drop_last(), id)
    }
}

/// A restored crossfading controller waits for its source: its summary is
/// pending.
pub open spec fn restored_snapshot(c: ControllerModel, ts: Seq<TransitionModel>) -> ControllerModel {
    match (last_transition(ts, c.id), c.transition) {
        (Some(_), Some(t)) => ControllerModel {
            id: c.id,
            drivers: c.drivers,
            speed: c.speed,
            looping: c.looping,
            state: c.state,
            time: c.time,
            transition: Some(
                AnimationControllerTransitionState {
                    duration: t.duration,
                    elapsed: t.elapsed,
                    easing: t.easing,
                    pending: true,
                },
            ),
        },
        _ => c,
    }
}

/// The targets a registry entry addresses.
pub open spec fn entry_targets(e: SavedController) -> Seq<(u64, u16)> {
    driver_targets(driver_models(e.0.description.drivers@)) + match e.1 {
        Some((s, _, _)) => source_targets(s),
        None => Seq::empty(),
    }
}

/// Controller identities strictly ascending.
pub open spec fn entries_ascending(es: Seq<SavedController>) -> bool {
    forall|a: int, b: int| 0 <= a < b < es.len() ==> (#[trigger] es[a]).0.id.bits < (#[trigger] es[b]).0.id.bits
}

/// Controllers of one World, in identity order, with their target index and
/// retained clip demand.
pub struct AnimationControllerRegistry {
    pub controllers: Vec<SavedController>,
    pub index: AnimationTargetIndex,
    pub next_id: u64,
    pub demand_revision: u64,
    pub animation_sources: Vec<AssetDemandSelection>,
}

impl AnimationControllerRegistry {
    /// Identities ascend; the index and the clip demand are well formed.
    pub open spec fn wf(&self) -> bool {
        &&& entries_ascending(self.controllers@)
        &&& self.controllers@.len() <= MAX_CONTROLLERS
        &&& self.index.wf()
        &&& views(self.animation_sources@).no_duplicates()
    }

    /// A World with no controllers; the next identity is one.
    pub fn new() -> (r: Self)
        ensures
            r.wf(),
            r.controllers@.len() == 0,
            r.index.target_keys@ == Map::<u64, Vec<(u64, u16)>>::empty(),
            r.next_id == 1,
            r.demand_revision == 0,
            r.animation_sources@.len() == 0,
    {
        AnimationControllerRegistry {
            controllers: Vec::new(),
            index: AnimationTargetIndex::new(),
            next_id: 1,
            demand_revision: 0,
            animation_sources: Vec::new(),
        }
    }
}

/// Position of an identity in an ascending entry list, if present.
pub(crate) fn find_entry(es: &Vec<SavedController>, id: u64) -> (r: Result<usize, usize>)
    requires
        entries_ascending(es@),
    ensures
        r matches Ok(i) ==> i < es@.len() && es@[i as int].0.id.bits == id,
        r matches Err(i) ==> i <= es@.len() && (forall|k: int| 0 <= k < i ==> (#[trigger] es@[k]).0.id.bits < id) && (
        forall|k: int| i <= k < es@.len() ==> id < (#[trigger] es@[k]).0.id.bits),
{
    let mut lo: usize = 0;
    let mut hi: usize = es.len();
    while lo < hi
        invariant
            entries_ascending(es@),
            lo <= hi <= es@.len(),
            forall|k: int| 0 <= k < lo ==> (#[trigger] es@[k]).0.id.bits < id,
            forall|k: int| hi <= k < es@.len() ==> id < (#[trigger] es@[k]).0.id.bits,
        decreases hi - lo,
    {
        let mid = lo + (hi - lo) / 2;
        let m = es[mid].0.id.bits;
        if m == id {
            return Ok(mid);
        } else if m < id {
            proof {
                assert forall|k: int| 0 <= k < mid + 1 implies (#[trigger] es@[k]).0.id.bits < id by {
                    if k < mid {
                        assert(es@[k].0.id.bits < es@[mid as int].0.id.bits);
                    }
                }
            }
            lo = mid + 1;
        } else {
            proof {
                assert forall|k: int| mid <= k < es@.len() implies id < (#[trigger] es@[k]).0.id.bits by {
                    if k > mid {
                        assert(es@[mid as int].0.id.bits < es@[k].0.id.bits);
                    }
                }
            }
            hi = mid;
        }
    }
    Err(lo)
}

proof fn lemma_first_controller_none(m: StateModel, ds: Seq<Result<(), ErrorReason>>, n: int)
    requires
        first_controller_error(m, ds, n) is None,
    ensures
        forall|k: int| 0 <= k < n ==> (#[trigger] controller_error(m, ds, k)) is None,
    decreases n,
{
    if n > 0 {
        lemma_first_controller_none(m, ds, n - 1);
    }
}

proof fn lemma_first_transition_none(m: StateModel, ss: Seq<Result<(), ErrorReason>>, world: WorldEntityState, n: int)
    requires
        first_transition_error(m, ss, world, n) is None,
    ensures
        forall|k: int| 0 <= k < n ==> (#[trigger] transition_error(m, ss, world, k)) is None,
    decreases n,
{
    if n > 0 {
        lemma_first_transition_none(m, ss, world, n - 1);
    }
}

proof fn lemma_first_controller_at(m: StateModel, ds: Seq<Result<(), ErrorReason>>, k: int, n: int)
    requires
        0 <= k < n,
        first_controller_error(m, ds, k) is None,
        controller_error(m, ds, k) is Some,
    ensures
        first_controller_error(m, ds, n) == controller_error(m, ds, k),
    decreases n,
{
    if n > k + 1 {
        lemma_first_controller_at(m, ds, k, n - 1);
    }
}

proof fn lemma_first_transition_at(m: StateModel, ss: Seq<Result<(), ErrorReason>>, world: WorldEntityState, k: int, n: int)
    requires
        0 <= k < n,
        first_transition_error(m, ss, world, k) is None,
        transition_error(m, ss, world, k) is Some,
    ensures
        first_transition_error(m, ss, world, n) == transition_error(m, ss, world, k),
    decreases n,
{
    if n > k + 1 {
        lemma_first_transition_at(m, ss, world, k, n - 1);
    }
}

/// With distinct identities, the controller of an identity is the one found.
proof fn lemma_controller_of(m: StateModel, i: int)
    requires
        0 <= i < m.controllers.len(),
        forall|a: int, b: int| 0 <= a < b < m.controllers.len() ==> (#[trigger] m.controllers[a]).id != (#[trigger] m.controllers[b]).id,
    ensures
        has_controller(m, m.controllers[i].id),
        controller_of(m, m.controllers[i].id) == m.controllers[i],
{
    let j = choose|j: int| 0 <= j < m.controllers.len() && (#[trigger] m.controllers[j]).id == m.controllers[i].id;
    if j < i {
        assert(m.controllers[j].id != m.controllers[i].id);
    } else if j > i {
        assert(m.controllers[i].id != m.controllers[j].id);
    }
}

/// Checks of one saved declaration that need no World.
fn check_declaration(c: &AnimationControllerSnapshot, outcome: Result<(), ErrorReason>) -> (r: Result<(), ErrorReason>)
    ensures
        r is Ok <==> declaration_error(c@, outcome) is None,
        r matches Err(e) ==> declaration_error(c@, outcome) == Some(e),
{
    if c.description.drivers.len() == 0 {
        if !matches!(c.state, AnimationPlaybackStatus::Stopped) || !is_finite32(c.description.speed) {
            return Err(ErrorReason::InvalidValue);
        }
        Ok(())
    } else {
        outcome
    }
}

/// Every frozen value's component is present on its target entity.
fn frozen_components_present(values: &Vec<crate::systems::animation::AnimationFrozenTransitionValue>, world: &WorldEntityState) -> (r: bool)
    ensures
        r == !exists|v: int|
            0 <= v < values@.len() && world.spec_input(
                (#[trigger] crate::systems::animation::codec::frozen_models(values@)[v]).target,
                target_component(crate::systems::animation::codec::frozen_models(values@)[v].property),
            ) is None,
{
    let ghost fm = crate::systems::animation::codec::frozen_models(values@);
    let mut v: usize = 0;
    while v < values.len()
        invariant
            fm == crate::systems::animation::codec::frozen_models(values@),
            v <= values@.len(),
            forall|q: int| 0 <= q < v ==> world.spec_input((#[trigger] fm[q]).target, target_component(fm[q].property)) is Some,
        decreases values@.len() - v,
    {
        proof {
            assert(fm[v as int] == values@[v as int]@);
        }
        if world.input(values[v].target, values[v].property.component()).is_none() {
            return false;
        }
        v = v + 1;
    }
    true
}

/// Run every restoration check, in order, without changing anything.
fn check_restore(
    persistent: &AnimationPersistentState,
    descriptions: &Vec<Result<(), ErrorReason>>,
    sources: &Vec<Result<(), ErrorReason>>,
    world: &WorldEntityState,
    demand_accepted: Result<(), ErrorReason>,
) -> (r: Result<(), ErrorReason>)
    requires
        descriptions@.len() == persistent.controllers@.len(),
        sources@.len() == persistent.transitions@.len(),
    ensures
        r is Ok <==> restore_error(persistent@, descriptions@, sources@, *world, demand_accepted) is None,
        r matches Err(e) ==> restore_error(persistent@, descriptions@, sources@, *world, demand_accepted) == Some(e),
{
    let ghost m = persistent@;
    let pc = &persistent.controllers;
    let starts = &persistent.directional_starts;
    if persistent.next_id == 0 {
        return Err(ErrorReason::InvalidValue);
    }
    // Distinct directional starts.
    let mut a: usize = 0;
    while a < starts.len()
        invariant
            m == persistent@,
            m.next_id != 0,
            starts@ == m.directional_starts,
            a <= starts@.len(),
            forall|x: int, y: int| 0 <= x < y < starts@.len() && x < a ==> starts@[x] != starts@[y],
        decreases starts@.len() - a,
    {
        let mut b: usize = a + 1;
        while b < starts.len()
            invariant
                m == persistent@,
                m.next_id != 0,
                starts@ == m.directional_starts,
                a < b <= starts@.len() || (a < starts@.len() && b == a + 1),
                a < starts@.len(),
                forall|x: int, y: int| 0 <= x < y < starts@.len() && x < a ==> starts@[x] != starts@[y],
                forall|y: int| a < y < b ==> starts@[a as int] != starts@[y],
            decreases starts@.len() - b,
        {
            if starts[a].bits == starts[b].bits {
                proof {
                    assert(m.directional_starts[a as int] == m.directional_starts[b as int]);
                    assert(has_duplicate(m.directional_starts));
                }
                return Err(ErrorReason::InvalidValue);
            }
            b = b + 1;
        }
        a = a + 1;
    }
    proof {
        assert(!has_duplicate(m.directional_starts)) by {
            if has_duplicate(m.directional_starts) {
                let (x, y) = choose|x: int, y: int|
                    0 <= x < y < m.directional_starts.len() && #[trigger] m.directional_starts[x] == #[trigger] m.directional_starts[y];
                assert(starts@[x] != starts@[y]);
            }
        }
    }
    // Saved controllers.
    let mut k: usize = 0;
    while k < pc.len()
        invariant
            m == persistent@,
            pc@ == persistent.controllers@,
            m.controllers.len() == pc@.len(),
            forall|i: int| 0 <= i < pc@.len() ==> #[trigger] m.controllers[i] == pc@[i]@,
            descriptions@.len() == pc@.len(),
            m.next_id != 0,
            !has_duplicate(m.directional_starts),
            k <= pc@.len(),
            first_controller_error(m, descriptions@, k as int) is None,
        decreases pc@.len() - k,
    {
        let c = &pc[k];
        let id = c.id.bits;
        let mut repeated = false;
        let mut j: usize = 0;
        while j < k
            invariant
                k < pc@.len(),
                j <= k,
                !repeated ==> forall|i: int| 0 <= i < j ==> pc@[i].id != pc@[k as int].id,
                repeated ==> exists|i: int| 0 <= i < k && pc@[i].id == pc@[k as int].id,
                id == pc@[k as int].id.bits,
            decreases k - j,
        {
            if pc[j].id.bits == id {
                repeated = true;
            }
            j = j + 1;
        }
        proof {
            assert(m.controllers[k as int] == c@);
            if repeated {
                let i = choose|i: int| 0 <= i < k && pc@[i].id == pc@[k as int].id;
                assert(m.controllers[i].id == m.controllers[k as int].id);
            } else {
                assert forall|i: int| 0 <= i < k implies !(#[trigger] m.controllers[i].id == m.controllers[k as int].id) by {
                    assert(m.controllers[i] == pc@[i]@);
                }
            }
        }
        if id == 0 || id >= persistent.next_id || repeated || !is_finite_nonneg64(c.time) {
            proof {
                lemma_first_controller_at(m, descriptions@, k as int, m.controllers.len() as int);
            }
            return Err(ErrorReason::InvalidValue);
        }
        match check_declaration(c, descriptions[k]) {
            Ok(()) => {},
            Err(e) => {
                proof {
                    lemma_first_controller_at(m, descriptions@, k as int, m.controllers.len() as int);
                }
                return Err(e);
            },
        }
        proof {
            assert(first_controller_error(m, descriptions@, k + 1) is None);
        }
        k = k + 1;
    }
    proof {
        lemma_first_controller_none(m, descriptions@, m.controllers.len() as int);
        assert forall|x: int, y: int| 0 <= x < y < m.controllers.len() implies (#[trigger] m.controllers[x]).id != (
        #[trigger] m.controllers[y]).id by {
            assert(controller_error(m, descriptions@, y) is None);
        }
    }
    if pc.len() > MAX_CONTROLLERS {
        return Err(ErrorReason::Capacity);
    }
    // Directional starts name playing or paused controllers.
    let mut a: usize = 0;
    while a < starts.len()
        invariant
            m == persistent@,
            pc@ == persistent.controllers@,
            starts@ == m.directional_starts,
            forall|i: int| 0 <= i < pc@.len() ==> #[trigger] m.controllers[i] == pc@[i]@,
            m.controllers.len() == pc@.len(),
            forall|x: int, y: int| 0 <= x < y < m.controllers.len() ==> (#[trigger] m.controllers[x]).id != (
            #[trigger] m.controllers[y]).id,
            m.next_id != 0,
            !has_duplicate(m.directional_starts),
            first_controller_error(m, descriptions@, m.controllers.len() as int) is None,
            m.controllers.len() <= MAX_CONTROLLERS,
            a <= starts@.len(),
            forall|q: int| 0 <= q < a ==> has_controller(m, #[trigger] m.directional_starts[q]) && (controller_of(
                m,
                m.directional_starts[q],
            ).state is Playing || controller_of(m, m.directional_starts[q]).state is Paused),
        decreases starts@.len() - a,
    {
        let want = starts[a].bits;
        let mut found: Option<usize> = None;
        let mut i: usize = 0;
        while i < pc.len()
            invariant
                i <= pc@.len(),
                want == starts@[a as int].bits,
                a < starts@.len(),
                found matches Some(f) ==> f < pc@.len() && pc@[f as int].id.bits == want,
                found is None ==> forall|q: int| 0 <= q < i ==> pc@[q].id.bits != want,
            decreases pc@.len() - i,
        {
            if found.is_none() && pc[i].id.bits == want {
                found = Some(i);
            }
            i = i + 1;
        }
        match found {
            None => {
                proof {
                    if has_controller(m, m.directional_starts[a as int]) {
                        let q = choose|q: int| 0 <= q < m.controllers.len() && (#[trigger] m.controllers[q]).id == m.directional_starts[a as int];
                        assert(m.controllers[q] == pc@[q]@);
                    }
                }
                return Err(ErrorReason::InvalidValue);
            },
            Some(f) => {
                proof {
                    assert(m.controllers[f as int] == pc@[f as int]@);
                    lemma_controller_of(m, f as int);
                }
                if !matches!(pc[f].state, AnimationPlaybackStatus::Playing | AnimationPlaybackStatus::Paused) {
                    return Err(ErrorReason::InvalidValue);
                }
            },
        }
        a = a + 1;
    }
    // Sidecars.
    let ts = &persistent.transitions;
    let mut k: usize = 0;
    while k < ts.len()
        invariant
            m == persistent@,
            pc@ == persistent.controllers@,
            ts@ == persistent.transitions@,
            m.transitions.len() == ts@.len(),
            forall|q: int| 0 <= q < ts@.len() ==> #[trigger] m.transitions[q] == ts@[q]@,
            forall|i: int| 0 <= i < pc@.len() ==> #[trigger] m.controllers[i] == pc@[i]@,
            m.controllers.len() == pc@.len(),
            forall|x: int, y: int| 0 <= x < y < m.controllers.len() ==> (#[trigger] m.controllers[x]).id != (
            #[trigger] m.controllers[y]).id,
            sources@.len() == ts@.len(),
            m.next_id != 0,
            !has_duplicate(m.directional_starts),
            first_controller_error(m, descriptions@, m.controllers.len() as int) is None,
            m.controllers.len() <= MAX_CONTROLLERS,
            forall|q: int| 0 <= q < m.directional_starts.len() ==> has_controller(m, #[trigger] m.directional_starts[q]) && (
            controller_of(m, m.directional_starts[q]).state is Playing || controller_of(m, m.directional_starts[q]).state is Paused),
            k <= ts@.len(),
            first_transition_error(m, sources@, *world, k as int) is None,
        decreases ts@.len() - k,
    {
        let t = &ts[k];
        proof {
            assert(m.transitions[k as int] == t@);
        }
        let want = t.id.bits;
        let mut found: Option<usize> = None;
        let mut i: usize = 0;
        while i < pc.len()
            invariant
                i <= pc@.len(),
                want == t.id.bits,
                found matches Some(f) ==> f < pc@.len() && pc@[f as int].id.bits == want,
                found is None ==> forall|q: int| 0 <= q < i ==> pc@[q].id.bits != want,
            decreases pc@.len() - i,
        {
            if found.is_none() && pc[i].id.bits == want {
                found = Some(i);
            }
            i = i + 1;
        }
        match found {
            None => {
                proof {
                    if has_controller(m, t.id) {
                        let q = choose|q: int| 0 <= q < m.controllers.len() && (#[trigger] m.controllers[q]).id == t.id;
                        assert(m.controllers[q] == pc@[q]@);
                    }
                    lemma_first_transition_at(m, sources@, *world, k as int, m.transitions.len() as int);
                }
                return Err(ErrorReason::InvalidValue);
            },
            Some(f) => {
                proof {
                    assert(m.controllers[f as int] == pc@[f as int]@);
                    lemma_controller_of(m, f as int);
                }
                if pc[f].transition.is_none() {
                    proof {
                        lemma_first_transition_at(m, sources@, *world, k as int, m.transitions.len() as int);
                    }
                    return Err(ErrorReason::InvalidValue);
                }
            },
        }
        match &t.source {
            crate::systems::animation::AnimationPersistentTransitionSource::Live(c) => {
                match check_declaration(c, sources[k]) {
                    Ok(()) => {},
                    Err(e) => {
                        proof {
                            lemma_first_transition_at(m, sources@, *world, k as int, m.transitions.len() as int);
                        }
                        return Err(e);
                    },
                }
            },
            crate::systems::animation::AnimationPersistentTransitionSource::Frozen { values, bindings, .. } => {
                match check_declaration(bindings, sources[k]) {
                    Ok(()) => {},
                    Err(e) => {
                        proof {
                            lemma_first_transition_at(m, sources@, *world, k as int, m.transitions.len() as int);
                        }
                        return Err(e);
                    },
                }
                if !frozen_components_present(values, world) {
                    proof {
                        lemma_first_transition_at(m, sources@, *world, k as int, m.transitions.len() as int);
                    }
                    return Err(ErrorReason::MissingComponent);
                }
            },
        }
        proof {
            assert(first_transition_error(m, sources@, *world, k + 1) is None);
        }
        k = k + 1;
    }
    demand_accepted
}

/// Position of the saved snapshot with an identity.
pub open spec fn position(cs: Seq<AnimationControllerSnapshot>, id: AnimationControllerId) -> int {
    choose|i: int| 0 <= i < cs.len() && (#[trigger] cs[i]).id == id
}

/// Saved snapshot identities are distinct.
pub open spec fn distinct_ids(cs: Seq<AnimationControllerSnapshot>) -> bool {
    forall|a: int, b: int| 0 <= a < b < cs.len() ==> (#[trigger] cs[a]).id != (#[trigger] cs[b]).id
}

proof fn lemma_position(cs: Seq<AnimationControllerSnapshot>, i: int)
    requires
        distinct_ids(cs),
        0 <= i < cs.len(),
    ensures
        position(cs, cs[i].id) == i,
{
    let j = position(cs, cs[i].id);
    assert(0 <= j < cs.len() && cs[j].id == cs[i].id);
    if j < i {
        assert(cs[j].id != cs[i].id);
    } else if j > i {
        assert(cs[i].id != cs[j].id);
    }
}

/// State of an entry while sidecars `ts` have been attached.
pub open spec fn entry_state(
    e: SavedController,
    c: AnimationControllerSnapshot,
    ts: Seq<TransitionModel>,
    starts: Seq<AnimationControllerId>,
) -> bool {
    &&& e.0.id == c.id
    &&& e.0.description == c.description
    &&& e.0@ == restored_snapshot(c@, ts)
    &&& match last_transition(ts, c.id) {
        Some(t) => e.1 matches Some((s, st, prepared)) && source_model(&s) == t.source && st == t.start_time && !prepared,
        None => e.1 is None,
    }
    &&& e.2 == starts.contains(c.id)
}

fn contains_start(starts: &Vec<AnimationControllerId>, id: AnimationControllerId) -> (r: bool)
    ensures
        r == starts@.contains(id),
{
    let mut i: usize = 0;
    while i < starts.len()
        invariant
            i <= starts@.len(),
            forall|k: int| 0 <= k < i ==> starts@[k] != id,
        decreases starts@.len() - i,
    {
        if starts[i].bits == id.bits {
            proof {
                assert(starts@[i as int] == id);
            }
            return true;
        }
        i = i + 1;
    }
    false
}

/// Insert an entry whose identity lies strictly between its neighbours.
fn insert_entry(es: &mut Vec<SavedController>, pos: usize, e: SavedController)
    requires
        entries_ascending(old(es)@),
        pos <= old(es)@.len(),
        forall|k: int| 0 <= k < pos ==> (#[trigger] old(es)@[k]).0.id.bits < e.0.id.bits,
        forall|k: int| pos <= k < old(es)@.len() ==> e.0.id.bits < (#[trigger] old(es)@[k]).0.id.bits,
    ensures
        entries_ascending(final(es)@),
        final(es)@ == old(es)@.insert(pos as int, e),
{
    let ghost before = es@;
    es.insert(pos, e);
    proof {
        assert forall|a: int, b: int| 0 <= a < b < es@.len() implies (#[trigger] es@[a]).0.id.bits < (
        #[trigger] es@[b]).0.id.bits by {
            if b < pos {
                assert(es@[a] == before[a] && es@[b] == before[b]);
            } else if b == pos {
                assert(es@[a] == before[a]);
            } else if a < pos {
                assert(es@[a] == before[a] && es@[b] == before[b - 1]);
            } else if a == pos {
                assert(es@[b] == before[b - 1]);
            } else {
                assert(es@[a] == before[a - 1] && es@[b] == before[b - 1]);
            }
        }
    }
}


/// Some entry has this identity.
pub open spec fn has_entry(es: Seq<SavedController>, id: AnimationControllerId) -> bool {
    exists|j: int| 0 <= j < es.len() && (#[trigger] es[j]).0.id == id
}

/// The entry for a saved snapshot, before any sidecar is attached, sits at the
/// snapshot's own position.
pub open spec fn placed(e: SavedController, cs: Seq<AnimationControllerSnapshot>, ts: Seq<TransitionModel>, starts: Seq<AnimationControllerId>) -> bool {
    let p = position(cs, e.0.id);
    0 <= p < cs.len() && entry_state(e, cs[p], ts, starts)
}

/// Registry entries for saved snapshots, in identity order, none yet with a
/// sidecar.
fn collect_entries(controllers: Vec<AnimationControllerSnapshot>, starts: &Vec<AnimationControllerId>) -> (es: Vec<SavedController>)
    requires
        distinct_ids(controllers@),
    ensures
        entries_ascending(es@),
        es@.len() == controllers@.len(),
        forall|j: int| 0 <= j < es@.len() ==> placed(#[trigger] es@[j], controllers@, Seq::empty(), starts@),
        forall|i: int| 0 <= i < controllers@.len() ==> has_entry(es@, (#[trigger] controllers@[i]).id),
{
    let ghost cs = controllers@;
    let mut rest = controllers;
    let mut es: Vec<SavedController> = Vec::new();
    while rest.len() > 0
        invariant
            distinct_ids(cs),
            rest@.len() <= cs.len(),
            rest@ == cs.take(rest@.len() as int),
            entries_ascending(es@),
            es@.len() + rest@.len() == cs.len(),
            forall|j: int| 0 <= j < es@.len() ==> placed(#[trigger] es@[j], cs, Seq::empty(), starts@) && rest@.len() <= position(cs, es@[j].0.id),
            forall|i: int| rest@.len() <= i < cs.len() ==> has_entry(es@, (#[trigger] cs[i]).id),
        decreases rest@.len(),
    {
        let ghost n = (rest@.len() - 1) as int;
        let ghost before = es@;
        let c = rest.pop().unwrap();
        proof {
            assert(c == cs[n]);
            lemma_position(cs, n);
        }
        let flag = contains_start(starts, c.id);
        match find_entry(&es, c.id.bits) {
            Ok(i) => {
                proof {
                    let p = position(cs, es@[i as int].0.id);
                    assert(placed(es@[i as int], cs, Seq::empty(), starts@));
                    assert(cs[p].id == c.id);
                    assert(p != n);
                    if p < n {
                        assert(cs[p].id != cs[n].id);
                    } else {
                        assert(cs[n].id != cs[p].id);
                    }
                }
            },
            Err(pos) => {
                let e: SavedController = (c, None, flag);
                proof {
                    assert(last_transition(Seq::<TransitionModel>::empty(), cs[n].id) is None);
                    assert(entry_state(e, cs[n], Seq::empty(), starts@));
                }
                insert_entry(&mut es, pos, e);
                proof {
                    assert forall|j: int| 0 <= j < es@.len() implies placed(#[trigger] es@[j], cs, Seq::empty(), starts@)
                        && rest@.len() <= position(cs, es@[j].0.id) by {
                        if j < pos {
                            assert(es@[j] == before[j]);
                        } else if j > pos {
                            assert(es@[j] == before[j - 1]);
                        }
                    }
                    assert forall|i: int| rest@.len() <= i < cs.len() implies has_entry(es@, (#[trigger] cs[i]).id) by {
                        if i == n {
                            assert(es@[pos as int].0.id == cs[i].id);
                        } else {
                            let j = choose|j: int| 0 <= j < before.len() && (#[trigger] before[j]).0.id == cs[i].id;
                            if j < pos {
                                assert(es@[j] == before[j]);
                            } else {
                                assert(es@[j + 1] == before[j]);
                            }
                        }
                    }
                }
            },
        }
    }
    es
}


/// The last sidecar of an identity among one more sidecar.
proof fn lemma_last_transition_step(ts: Seq<TransitionModel>, k: int, id: AnimationControllerId)
    requires
        0 <= k < ts.len(),
    ensures
        last_transition(ts.take(k + 1), id) == if ts[k].id == id {
            Some(ts[k])
        } else {
            last_transition(ts.take(k), id)
        },
{
    assert(ts.take(k + 1).drop_last() =~= ts.take(k));
    assert(ts.take(k + 1).last() == ts[k]);
}

/// Attach each saved sidecar, in order, to the entry of its identity: the
/// last one of an identity stays, and the entry's summary waits for it.
fn attach_transitions(
    es: &mut Vec<SavedController>,
    transitions: Vec<AnimationPersistentTransition>,
    Ghost(cs): Ghost<Seq<AnimationControllerSnapshot>>,
    Ghost(starts): Ghost<Seq<AnimationControllerId>>,
)
    requires
        distinct_ids(cs),
        entries_ascending(old(es)@),
        forall|j: int| 0 <= j < old(es)@.len() ==> placed(#[trigger] old(es)@[j], cs, Seq::empty(), starts),
        forall|k: int| 0 <= k < transitions@.len() ==> exists|i: int|
            0 <= i < cs.len() && (#[trigger] cs[i]).id == (#[trigger] transitions@[k]).id && cs[i].transition is Some
                && has_entry(old(es)@, cs[i].id),
    ensures
        entries_ascending(final(es)@),
        final(es)@.len() == old(es)@.len(),
        forall|j: int| 0 <= j < final(es)@.len() ==> (#[trigger] final(es)@[j]).0.id == old(es)@[j].0.id,
        forall|j: int| 0 <= j < final(es)@.len() ==> placed(
            #[trigger] final(es)@[j],
            cs,
            crate::systems::animation::codec::transition_models(transitions@),
            starts,
        ),
{
    let ghost ts0 = transitions@;
    let ghost tm = crate::systems::animation::codec::transition_models(ts0);
    let ghost es0 = es@;
    let mut rest = transitions;
    let ghost mut k: int = 0;
    while rest.len() > 0
        invariant
            distinct_ids(cs),
            0 <= k <= ts0.len(),
            k + rest@.len() == ts0.len(),
            rest@ == ts0.skip(k as int),
            tm == crate::systems::animation::codec::transition_models(ts0),
            forall|q: int| 0 <= q < ts0.len() ==> exists|i: int|
                0 <= i < cs.len() && (#[trigger] cs[i]).id == (#[trigger] ts0[q]).id && cs[i].transition is Some
                    && has_entry(es0, cs[i].id),
            entries_ascending(es@),
            es@.len() == es0.len(),
            forall|j: int| 0 <= j < es@.len() ==> (#[trigger] es@[j]).0.id == es0[j].0.id,
            forall|j: int| 0 <= j < es@.len() ==> placed(#[trigger] es@[j], cs, tm.take(k as int), starts),
        decreases rest@.len(),
    {
        let ghost before = es@;
        let t = rest.remove(0);
        proof {
            assert(t == ts0[k]);
            assert(tm[k] == t@);
            assert(rest@ =~= ts0.skip(k + 1));
        }
        let ghost ci = choose|i: int|
            0 <= i < cs.len() && (#[trigger] cs[i]).id == (#[trigger] ts0[k]).id && cs[i].transition is Some
                && has_entry(es0, cs[i].id);
        proof {
            lemma_position(cs, ci);
        }
        match find_entry(es, t.id.bits) {
            Err(_) => {
                proof {
                    let j = choose|j: int| 0 <= j < es0.len() && (#[trigger] es0[j]).0.id == cs[ci].id;
                    assert(es@[j].0.id == t.id);
                }
            },
            Ok(i) => {
                let (mut snap, _previous, flag) = es.remove(i);
                snap.transition = match snap.transition {
                    Some(tr) => Some(
                        AnimationControllerTransitionState {
                            duration: tr.duration,
                            elapsed: tr.elapsed,
                            easing: tr.easing,
                            pending: true,
                        },
                    ),
                    None => None,
                };
                let e: SavedController = (snap, Some((t.source, t.start_time, false)), flag);
                es.insert(i, e);
                proof {
                    assert(es@ =~= before.update(i as int, e));
                    assert(before[i as int].0.id == t.id);
                    assert(position(cs, t.id) == ci);
                    lemma_last_transition_step(tm, k, t.id);
                    assert forall|a: int, b: int| 0 <= a < b < es@.len() implies (#[trigger] es@[a]).0.id.bits < (
                    #[trigger] es@[b]).0.id.bits by {
                        assert(before[a].0.id.bits < before[b].0.id.bits);
                    }
                    assert forall|j: int| 0 <= j < es@.len() implies placed(#[trigger] es@[j], cs, tm.take(k + 1), starts) by {
                        lemma_last_transition_step(tm, k, es@[j].0.id);
                        if j != i {
                            assert(es@[j] == before[j]);
                            if before[j].0.id == t.id {
                                assert(before[i as int].0.id.bits == before[j].0.id.bits);
                                if j < i {
                                    assert(before[j].0.id.bits < before[i as int].0.id.bits);
                                } else {
                                    assert(before[i as int].0.id.bits < before[j].0.id.bits);
                                }
                            }
                        }
                    }
                }
            },
        }
        proof {
            k = k + 1;
        }
    }
    proof {
        assert(tm.take(k as int) =~= tm);
    }
}


/// Each entry's identity with the targets it addresses.
fn entry_target_lists(es: &Vec<SavedController>) -> (r: Vec<(u64, Vec<(u64, u16)>)>)
    ensures
        r@.len() == es@.len(),
        forall|j: int| 0 <= j < r@.len() ==> (#[trigger] r@[j]).0 == es@[j].0.id.bits && r@[j].1@ == entry_targets(es@[j]),
{
    let mut r: Vec<(u64, Vec<(u64, u16)>)> = Vec::new();
    let mut i: usize = 0;
    while i < es.len()
        invariant
            i <= es@.len(),
            r@.len() == i,
            forall|j: int| 0 <= j < i ==> (#[trigger] r@[j]).0 == es@[j].0.id.bits && r@[j].1@ == entry_targets(es@[j]),
        decreases es@.len() - i,
    {
        let e = &es[i];
        let targets = match &e.1 {
            Some((s, _, _)) => controller_targets(&e.0, Some(s)),
            None => controller_targets(&e.0, None),
        };
        r.push((e.0.id.bits, targets));
        i = i + 1;
    }
    r
}

/// What a successful restoration leaves: the saved controllers, each with
/// its last sidecar, in identity order; the saved counter; a target index and
/// clip demand built from them; and a demand revision one further on.
pub open spec fn restored(
    after: AnimationControllerRegistry,
    before: AnimationControllerRegistry,
    persistent: AnimationPersistentState,
) -> bool {
    let es = after.controllers@;
    let cs = persistent.controllers@;
    &&& after.wf()
    &&& after.next_id == persistent.next_id
    &&& after.demand_revision == (before.demand_revision + 1) % 0x1_0000_0000_0000_0000
    &&& es.len() == cs.len()
    &&& forall|j: int| 0 <= j < es.len() ==> placed(#[trigger] es[j], cs, persistent@.transitions, persistent.directional_starts@)
    &&& forall|i: int| 0 <= i < cs.len() ==> has_entry(es, (#[trigger] cs[i]).id)
    &&& forall|x: u64| #[trigger] after.index.target_keys@.contains_key(x) <==> exists|j: int|
        0 <= j < es.len() && (#[trigger] es[j]).0.id.bits == x
    &&& forall|key: (u64, u16), x: u64| #[trigger] after.index.drives(key, x) <==> exists|j: int|
        0 <= j < es.len() && (#[trigger] es[j]).0.id.bits == x && entry_targets(es[j]).contains(key)
    &&& forall|x: SelectionView| #[trigger] views(after.animation_sources@).contains(x) <==> exists|j: int|
        0 <= j < es.len() && description_demands((#[trigger] es[j]).0.description, x)
}

impl AnimationControllerRegistry {
    /// Install saved controllers in place of the present ones. `descriptions`
    /// and `sources` are the World's validation of each saved declaration and
    /// of each sidecar's source declaration, `demand_accepted` its acceptance
    /// of the clip demand the saved controllers make. On any refusal nothing
    /// changes.
    pub fn restore_animation_controllers(
        &mut self,
        persistent: AnimationPersistentState,
        descriptions: &Vec<Result<(), ErrorReason>>,
        sources: &Vec<Result<(), ErrorReason>>,
        world: &WorldEntityState,
        demand_accepted: Result<(), ErrorReason>,
    ) -> (r: Result<(), ErrorReason>)
        requires
            old(self).wf(),
            descriptions@.len() == persistent.controllers@.len(),
            sources@.len() == persistent.transitions@.len(),
        ensures
            r is Ok <==> restore_error(persistent@, descriptions@, sources@, *world, demand_accepted) is None,
            r matches Err(e) ==> restore_error(persistent@, descriptions@, sources@, *world, demand_accepted) == Some(e)
                && *final(self) == *old(self),
            r is Ok ==> restored(*final(self), *old(self), persistent),
    {
        match check_restore(&persistent, descriptions, sources, world, demand_accepted) {
            Err(e) => {
                return Err(e);
            },
            Ok(()) => {},
        }
        let ghost m = persistent@;
        let ghost cs = persistent.controllers@;
        let ghost tsv = persistent.transitions@;
        let ghost starts = persistent.directional_starts@;
        let ghost p0 = persistent;
        proof {
            lemma_first_controller_none(m, descriptions@, m.controllers.len() as int);
            assert forall|a: int, b: int| 0 <= a < b < cs.len() implies (#[trigger] cs[a]).id != (#[trigger] cs[b]).id by {
                assert(controller_error(m, descriptions@, b) is None);
                assert(m.controllers[a] == cs[a]@);
                assert(m.controllers[b] == cs[b]@);
            }
            assert forall|a: int, b: int| 0 <= a < b < m.controllers.len() implies (#[trigger] m.controllers[a]).id != (
            #[trigger] m.controllers[b]).id by {
                assert(m.controllers[a] == cs[a]@);
                assert(m.controllers[b] == cs[b]@);
            }
            lemma_first_transition_none(m, sources@, *world, m.transitions.len() as int);
        }
        let AnimationPersistentState { next_id, controllers, transitions, directional_starts } = persistent;
        let mut es = collect_entries(controllers, &directional_starts);
        proof {
            assert forall|k: int| 0 <= k < tsv.len() implies exists|i: int|
                0 <= i < cs.len() && (#[trigger] cs[i]).id == (#[trigger] tsv[k]).id && cs[i].transition is Some
                    && has_entry(es@, cs[i].id) by {
                assert(transition_error(m, sources@, *world, k) is None);
                assert(m.transitions[k] == tsv[k]@);
                let i = choose|i: int| 0 <= i < m.controllers.len() && (#[trigger] m.controllers[i]).id == m.transitions[k].id;
                lemma_controller_of(m, i);
                assert(m.controllers[i] == cs[i]@);
                assert(has_entry(es@, cs[i].id));
            }
        }
        let ghost collected = es@;
        attach_transitions(&mut es, transitions, Ghost(cs), Ghost(starts));
        let lists = entry_target_lists(&es);
        proof {
            assert forall|a: int, b: int| 0 <= a < b < entry_ids(lists@).len() implies #[trigger] entry_ids(lists@)[a]
                < #[trigger] entry_ids(lists@)[b] by {
                assert(lists@[a].0 == es@[a].0.id.bits);
                assert(lists@[b].0 == es@[b].0.id.bits);
            }
        }
        let _shared = self.index.rebuild_target_index(&lists);
        let mut demand: Vec<AssetDemandSelection> = Vec::new();
        let mut j: usize = 0;
        while j < es.len()
            invariant
                j <= es@.len(),
                views(demand@).no_duplicates(),
                forall|x: SelectionView| #[trigger] views(demand@).contains(x) <==> exists|q: int|
                    0 <= q < j && description_demands((#[trigger] es@[q]).0.description, x),
            decreases es@.len() - j,
        {
            proof {
                assert(views(demand@) =~= views(demand@));
            }
            let ghost before = views(demand@);
            add_description_demand(&es[j].0.description, &mut demand);
            proof {
                assert forall|x: SelectionView| #[trigger] views(demand@).contains(x) <==> exists|q: int|
                    0 <= q < j + 1 && description_demands((#[trigger] es@[q]).0.description, x) by {
                    if description_demands(es@[j as int].0.description, x) {
                        assert(0 <= j < j + 1);
                    }
                    if exists|q: int| 0 <= q < j + 1 && description_demands((#[trigger] es@[q]).0.description, x) {
                        let q = choose|q: int| 0 <= q < j + 1 && description_demands((#[trigger] es@[q]).0.description, x);
                        if q < j {
                            assert(before.contains(x));
                        }
                    }
                }
            }
            j = j + 1;
        }
        proof {
            assert forall|x: u64| #[trigger] self.index.target_keys@.contains_key(x) <==> exists|q: int|
                0 <= q < es@.len() && (#[trigger] es@[q]).0.id.bits == x by {
                if exists|q: int| 0 <= q < lists@.len() && lists@[q].0 == x {
                    let q = choose|q: int| 0 <= q < lists@.len() && lists@[q].0 == x;
                    assert(es@[q].0.id.bits == x);
                }
                if exists|q: int| 0 <= q < es@.len() && (#[trigger] es@[q]).0.id.bits == x {
                    let q = choose|q: int| 0 <= q < es@.len() && (#[trigger] es@[q]).0.id.bits == x;
                    assert(lists@[q].0 == x);
                }
            }
            assert forall|key: (u64, u16), x: u64| #[trigger] self.index.drives(key, x) <==> exists|q: int|
                0 <= q < es@.len() && (#[trigger] es@[q]).0.id.bits == x && entry_targets(es@[q]).contains(key) by {
                if exists|q: int| 0 <= q < lists@.len() && lists@[q].0 == x && lists@[q].1@.contains(key) {
                    let q = choose|q: int| 0 <= q < lists@.len() && lists@[q].0 == x && lists@[q].1@.contains(key);
                    assert(es@[q].0.id.bits == x);
                }
                if exists|q: int| 0 <= q < es@.len() && (#[trigger] es@[q]).0.id.bits == x && entry_targets(es@[q]).contains(key) {
                    let q = choose|q: int|
                        0 <= q < es@.len() && (#[trigger] es@[q]).0.id.bits == x && entry_targets(es@[q]).contains(key);
                    assert(lists@[q].0 == x && lists@[q].1@.contains(key));
                }
            }
            assert forall|i: int| 0 <= i < cs.len() implies has_entry(es@, (#[trigger] cs[i]).id) by {
                assert(has_entry(collected, cs[i].id));
                let q = choose|q: int| 0 <= q < collected.len() && (#[trigger] collected[q]).0.id == cs[i].id;
                assert(es@[q].0.id == cs[i].id);
            }
        }
        self.controllers = es;
        self.next_id = next_id;
        self.demand_revision = self.demand_revision.wrapping_add(1);
        self.animation_sources = demand;
        Ok(())
    }
}


/// Two strictly ascending identity lists with the same members are equal.
proof fn lemma_same_ascending(a: Seq<u64>, b: Seq<u64>)
    requires
        a.len() == b.len(),
        forall|x: int, y: int| 0 <= x < y < a.len() ==> #[trigger] a[x] < #[trigger] a[y],
        forall|x: int, y: int| 0 <= x < y < b.len() ==> #[trigger] b[x] < #[trigger] b[y],
        forall|x: int| 0 <= x < a.len() ==> b.contains(#[trigger] a[x]),
        forall|y: int| 0 <= y < b.len() ==> a.contains(#[trigger] b[y]),
    ensures
        a == b,
    decreases a.len(),
{
    if a.len() > 0 {
        assert(b.contains(a[0]));
        assert(a.contains(b[0]));
        let k = choose|k: int| 0 <= k < b.len() && b[k] == a[0];
        let m = choose|m: int| 0 <= m < a.len() && a[m] == b[0];
        if k > 0 {
            assert(b[0] < b[k]);
        }
        if m > 0 {
            assert(a[0] < a[m]);
        }
        assert(a[0] == b[0]);
        let (a1, b1) = (a.drop_first(), b.drop_first());
        assert forall|x: int| 0 <= x < a1.len() implies b1.contains(#[trigger] a1[x]) by {
            assert(b.contains(a[x + 1]));
            let q = choose|q: int| 0 <= q < b.len() && b[q] == a[x + 1];
            assert(a[0] < a[x + 1]);
            assert(q != 0);
            assert(b1[q - 1] == a1[x]);
        }
        assert forall|y: int| 0 <= y < b1.len() implies a1.contains(#[trigger] b1[y]) by {
            assert(a.contains(b[y + 1]));
            let q = choose|q: int| 0 <= q < a.len() && a[q] == b[y + 1];
            assert(b[0] < b[y + 1]);
            assert(q != 0);
            assert(a1[q - 1] == b1[y]);
        }
        lemma_same_ascending(a1, b1);
        assert(a =~= b1.insert(0, b[0]));
        assert(b =~= b1.insert(0, b[0]));
    }
}

/// Among saved entries with distinct identities, the last sidecar of an
/// entry's identity is the one it saved.
proof fn lemma_saved_last_transition(es: Seq<SavedController>, id: AnimationControllerId)
    requires
        entries_ascending(es),
    ensures
        (forall|j: int| 0 <= j < es.len() ==> (#[trigger] es[j]).0.id != id) ==> last_transition(saved_transitions(es), id) is None,
        forall|j: int| 0 <= j < es.len() && (#[trigger] es[j]).0.id == id ==> last_transition(saved_transitions(es), id)
            == saved_transition(es[j]),
    decreases es.len(),
{
    if es.len() > 0 {
        let rest = es.drop_last();
        assert(entries_ascending(rest)) by {
            assert forall|a: int, b: int| 0 <= a < b < rest.len() implies (#[trigger] rest[a]).0.id.bits < (
            #[trigger] rest[b]).0.id.bits by {
                assert(es[a].0.id.bits < es[b].0.id.bits);
            }
        }
        lemma_saved_last_transition(rest, id);
        let n = es.len() - 1;
        if es[n].0.id == id {
            assert forall|j: int| 0 <= j < rest.len() implies (#[trigger] rest[j]).0.id != id by {
                assert(es[j].0.id.bits < es[n].0.id.bits);
            }
            match saved_transition(es.last()) {
                Some(t) => {
                    assert(saved_transitions(es) == saved_transitions(rest).push(t));
                    assert(saved_transitions(es).drop_last() =~= saved_transitions(rest));
                },
                None => {},
            }
            assert forall|j: int| 0 <= j < es.len() && (#[trigger] es[j]).0.id == id implies last_transition(
                saved_transitions(es),
                id,
            ) == saved_transition(es[j]) by {
                if j < n {
                    assert(es[j].0.id.bits < es[n].0.id.bits);
                }
            }
        } else {
            match saved_transition(es.last()) {
                Some(t) => {
                    assert(saved_transitions(es) == saved_transitions(rest).push(t));
                    assert(saved_transitions(es).drop_last() =~= saved_transitions(rest));
                    assert(t.id == es[n].0.id);
                },
                None => {},
            }
            assert forall|j: int| 0 <= j < es.len() && (#[trigger] es[j]).0.id == id implies last_transition(
                saved_transitions(es),
                id,
            ) == saved_transition(es[j]) by {
                assert(j != n);
                assert(rest[j] == es[j]);
            }
            if forall|j: int| 0 <= j < es.len() ==> (#[trigger] es[j]).0.id != id {
                assert forall|j: int| 0 <= j < rest.len() implies (#[trigger] rest[j]).0.id != id by {
                    assert(rest[j] == es[j]);
                }
            }
        }
    }
}

/// Among saved entries with distinct identities, an identity awaits a
/// directional start exactly when its entry did.
proof fn lemma_saved_starts(es: Seq<SavedController>, j: int)
    requires
        entries_ascending(es),
        0 <= j < es.len(),
    ensures
        saved_starts(es).contains(es[j].0.id) == es[j].2,
    decreases es.len(),
{
    let rest = es.drop_last();
    let n = es.len() - 1;
    assert(entries_ascending(rest)) by {
        assert forall|a: int, b: int| 0 <= a < b < rest.len() implies (#[trigger] rest[a]).0.id.bits < (
        #[trigger] rest[b]).0.id.bits by {
            assert(es[a].0.id.bits < es[b].0.id.bits);
        }
    }
    lemma_starts_from(rest, es[j].0.id);
    if j < n {
        lemma_saved_starts(rest, j);
        assert(rest[j] == es[j]);
        assert(es[j].0.id.bits < es[n].0.id.bits);
        if es[n].2 {
            assert(saved_starts(es) == saved_starts(rest).push(es[n].0.id));
            assert(saved_starts(es).contains(es[j].0.id) == saved_starts(rest).contains(es[j].0.id)) by {
                if saved_starts(es).contains(es[j].0.id) {
                    let q = choose|q: int| 0 <= q < saved_starts(es).len() && saved_starts(es)[q] == es[j].0.id;
                    if q < saved_starts(rest).len() {
                        assert(saved_starts(rest)[q] == es[j].0.id);
                    }
                }
                if saved_starts(rest).contains(es[j].0.id) {
                    let q = choose|q: int| 0 <= q < saved_starts(rest).len() && saved_starts(rest)[q] == es[j].0.id;
                    assert(saved_starts(es)[q] == es[j].0.id);
                }
            }
        }
    } else {
        assert forall|q: int| 0 <= q < rest.len() implies (#[trigger] rest[q]).0.id != es[j].0.id by {
            assert(es[q].0.id.bits < es[n].0.id.bits);
        }
        if es[n].2 {
            assert(saved_starts(es) == saved_starts(rest).push(es[n].0.id));
            assert(saved_starts(es)[saved_starts(rest).len() as int] == es[n].0.id);
        }
    }
}

/// Every identity awaiting a directional start is some saved entry's.
proof fn lemma_starts_from(es: Seq<SavedController>, id: AnimationControllerId)
    ensures
        saved_starts(es).contains(id) ==> exists|q: int| 0 <= q < es.len() && (#[trigger] es[q]).0.id == id,
    decreases es.len(),
{
    if es.len() > 0 {
        let rest = es.drop_last();
        lemma_starts_from(rest, id);
        if saved_starts(es).contains(id) {
            if es.last().2 {
                assert(saved_starts(es) == saved_starts(rest).push(es.last().0.id));
                let q = choose|q: int| 0 <= q < saved_starts(es).len() && saved_starts(es)[q] == id;
                if q < saved_starts(rest).len() {
                    assert(saved_starts(rest)[q] == id);
                    let r = choose|r: int| 0 <= r < rest.len() && (#[trigger] rest[r]).0.id == id;
                    assert(es[r] == rest[r]);
                } else {
                    assert(es[es.len() - 1].0.id == id);
                }
            } else {
                let r = choose|r: int| 0 <= r < rest.len() && (#[trigger] rest[r]).0.id == id;
                assert(es[r] == rest[r]);
            }
        }
    }
}

/// Save then restore: restoring the persistent state of a registry's
/// controllers, targets not rewritten, gives back each controller in
/// identity order with its declaration and clock, its crossfade source and
/// start (a prepared crossfade resuming from its own clock), now waiting for
/// that source, and its directional start.
pub proof fn lemma_restore_of_saved(
    es: Seq<SavedController>,
    next_id: u64,
    persistent: AnimationPersistentState,
    after: AnimationControllerRegistry,
    before: AnimationControllerRegistry,
)
    requires
        entries_ascending(es),
        persistent@ == saved_state(es, next_id),
        restored(after, before, persistent),
    ensures
        after.next_id == next_id,
        after.controllers@.len() == es.len(),
        forall|j: int| 0 <= j < es.len() ==> (#[trigger] after.controllers@[j]).0.id == es[j].0.id,
        forall|j: int| 0 <= j < es.len() ==> last_transition(saved_transitions(es), es[j].0.id) == saved_transition(es[j]),
        forall|j: int| 0 <= j < es.len() ==> (#[trigger] after.controllers@[j]).0@ == restored_snapshot(es[j].0@, saved_transitions(es)),
        forall|j: int| 0 <= j < es.len() ==> match saved_transition(es[j]) {
            Some(t) => (#[trigger] after.controllers@[j]).1 matches Some((s, start, prepared)) && source_model(&s) == t.source
                && start == t.start_time && !prepared,
            None => after.controllers@[j].1 is None,
        },
        forall|j: int| 0 <= j < es.len() ==> (#[trigger] after.controllers@[j]).2 == es[j].2,
{
    let cs = persistent.controllers@;
    let out = after.controllers@;
    assert(crate::systems::animation::codec::controller_models(cs) == es.map_values(|e: SavedController| e.0@));
    assert forall|i: int| 0 <= i < cs.len() implies (#[trigger] cs[i]).id == es[i].0.id by {
        assert(crate::systems::animation::codec::controller_models(cs)[i] == cs[i]@);
        assert(es.map_values(|e: SavedController| e.0@)[i] == es[i].0@);
    }
    assert(distinct_ids(cs)) by {
        assert forall|a: int, b: int| 0 <= a < b < cs.len() implies (#[trigger] cs[a]).id != (#[trigger] cs[b]).id by {
            assert(es[a].0.id.bits < es[b].0.id.bits);
        }
    }
    let a = out.map_values(|e: SavedController| e.0.id.bits);
    let b = es.map_values(|e: SavedController| e.0.id.bits);
    assert forall|x: int| 0 <= x < a.len() implies b.contains(#[trigger] a[x]) by {
        assert(placed(out[x], cs, persistent@.transitions, persistent.directional_starts@));
        let p = position(cs, out[x].0.id);
        assert(b[p] == a[x]);
    }
    assert forall|y: int| 0 <= y < b.len() implies a.contains(#[trigger] b[y]) by {
        assert(has_entry(out, cs[y].id));
        let q = choose|q: int| 0 <= q < out.len() && (#[trigger] out[q]).0.id == cs[y].id;
        assert(a[q] == b[y]);
    }
    assert forall|x: int, y: int| 0 <= x < y < a.len() implies #[trigger] a[x] < #[trigger] a[y] by {
        assert(out[x].0.id.bits < out[y].0.id.bits);
    }
    assert forall|x: int, y: int| 0 <= x < y < b.len() implies #[trigger] b[x] < #[trigger] b[y] by {
        assert(es[x].0.id.bits < es[y].0.id.bits);
    }
    lemma_same_ascending(a, b);
    assert forall|j: int| 0 <= j < es.len() implies (#[trigger] out[j]).0.id == es[j].0.id by {
        assert(a[j] == b[j]);
    }
    assert forall|j: int| 0 <= j < es.len() implies last_transition(saved_transitions(es), es[j].0.id) == saved_transition(
        es[j],
    ) by {
        lemma_saved_last_transition(es, es[j].0.id);
    }
    assert forall|j: int| 0 <= j < es.len() implies {
        &&& (#[trigger] out[j]).0@ == restored_snapshot(es[j].0@, saved_transitions(es))
        &&& match saved_transition(es[j]) {
            Some(t) => out[j].1 matches Some((s, start, prepared)) && source_model(&s) == t.source && start == t.start_time
                && !prepared,
            None => out[j].1 is None,
        }
        &&& out[j].2 == es[j].2
    } by {
        assert(a[j] == b[j]);
        lemma_position(cs, j);
        assert(placed(out[j], cs, persistent@.transitions, persistent.directional_starts@));
        assert(crate::systems::animation::codec::controller_models(cs)[j] == cs[j]@);
        assert(es.map_values(|e: SavedController| e.0@)[j] == es[j].0@);
        lemma_saved_last_transition(es, es[j].0.id);
        lemma_saved_starts(es, j);
    }
}

} // verus!
