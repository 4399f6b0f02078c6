//! Saving controller state for a World snapshot: the declarations and clocks
//! of every controller, charged against the snapshot's byte budget, with every
//! durable target rewritten to its entity's persistent identity.

use crate::ids::EntityId;
use crate::systems::animation::codec::{
    controller_models, driver_models, frozen_models, source_model, transition_models, ControllerModel, DriverModel, FrozenModel, SourceModel, StateModel,
    TargetModel, TransitionModel,
};
use crate::systems::animation::remap::{
    controller_targets_mapped, drivers_mapped, frozen_mapped, remap_state, remap_transition, source_mapped, transition_targets_mapped,
};
use crate::systems::animation::{
    AnimationControllerId, AnimationControllerSnapshot, AnimationDriverDescription, AnimationFrozenTransitionValue,
    AnimationPersistentState, AnimationPersistentTransition, AnimationPersistentTransitionSource,
    AnimationTrackTarget, AnimationTransitionStartTime,
};
use std::collections::BTreeMap;
use vstd::prelude::*;
use vstd::std_specs::iter::IteratorSpec;
use vstd::string::StringSliceAdditionalSpecFns;
use vstd::utf8::encode_utf8;

verus! {

broadcast use vstd::std_specs::btree::group_btree_axioms, vstd::laws_cmp::group_laws_cmp;

/// One controller as the system holds it: its snapshot; its crossfade source
/// with the start time it was given and whether its transition program is
/// prepared; and whether a negative-speed start awaits clip readiness.
pub type SavedController = (
    AnimationControllerSnapshot,
    Option<(AnimationPersistentTransitionSource, AnimationTransitionStartTime, bool)>,
    bool,
);

/// Sum of a sequence of integers.
pub open spec fn total(s: Seq<int>) -> int
    decreases s.len(),
{
    if s.len() == 0 {
        0
    } else {
        total(s.drop_last()) + s.last()
    }
}

proof fn lemma_total_step(s: Seq<int>, i: int)
    requires
        0 <= i < s.len(),
    ensures
        total(s.take(i + 1)) == total(s.take(i)) + s[i],
{
    assert(s.take(i + 1).drop_last() =~= s.take(i));
}

proof fn lemma_total_prefix(s: Seq<int>, i: int)
    requires
        0 <= i <= s.len(),
        forall|k: int| 0 <= k < s.len() ==> #[trigger] s[k] >= 0,
    ensures
        total(s.take(i)) <= total(s),
    decreases s.len() - i,
{
    if i < s.len() {
        lemma_total_step(s, i);
        lemma_total_prefix(s, i + 1);
    } else {
        assert(s.take(i) =~= s);
    }
}

proof fn lemma_total_nonneg(s: Seq<int>)
    requires
        forall|k: int| 0 <= k < s.len() ==> #[trigger] s[k] >= 0,
    ensures
        total(s) >= 0,
    decreases s.len(),
{
    if s.len() > 0 {
        lemma_total_nonneg(s.drop_last());
    }
}

/// Bytes a target owns by its length: a property name, or four per offset.
pub open spec fn owned_len(t: TargetModel) -> int {
    match t {
        TargetModel::Dynamic(_, name) => encode_utf8(name).len() as int,
        TargetModel::Property(_, offsets) => 4 * offsets.len() as int,
    }
}

/// Charge of one driver declaration.
pub open spec fn driver_cost(d: DriverModel) -> int {
    128 + encode_utf8(d.source).len() + owned_len(d.property)
}

pub open spec fn driver_costs(ds: Seq<DriverModel>) -> Seq<int> {
    ds.map_values(|d: DriverModel| driver_cost(d))
}

/// Least charge of one frozen value.
pub open spec fn frozen_cost(v: FrozenModel) -> int {
    160 + owned_len(v.property)
}

pub open spec fn frozen_costs(vs: Seq<FrozenModel>) -> Seq<int> {
    vs.map_values(|v: FrozenModel| frozen_cost(v))
}

/// Least charge of a transition source: its frozen values and its drivers.
pub open spec fn source_cost(s: SourceModel) -> int {
    match s {
        SourceModel::Live(c) => total(driver_costs(c.drivers)),
        SourceModel::Frozen { values, bindings, .. } => total(frozen_costs(values)) + total(driver_costs(bindings.drivers)),
    }
}

/// Charge of one controller's own declaration.
pub open spec fn controller_cost(e: SavedController) -> int {
    128 + total(driver_costs(e.0@.drivers))
}

/// Least charge of one controller's crossfade source.
pub open spec fn transition_cost(e: SavedController) -> int {
    match e.1 {
        Some((s, _, _)) => source_cost(source_model(&s)),
        None => 0,
    }
}

/// Number of controllers awaiting a directional start.
pub open spec fn pending_count(cs: Seq<SavedController>) -> nat
    decreases cs.len(),
{
    if cs.len() == 0 {
        0
    } else {
        pending_count(cs.drop_last()) + if cs.last().2 {
            1nat
        } else {
            0nat
        }
    }
}

/// Charge of the directional starts, saturated at the machine limit.
pub open spec fn directional_cost(n: nat) -> int {
    if 8 * n > usize::MAX {
        usize::MAX as int
    } else {
        8 * n as int
    }
}

/// Least charge of a whole snapshot. Declarations of controllers and the
/// directional starts are charged exactly; a crossfade source is charged at
/// least this, and exactly this only if its storage holds no spare capacity.
pub open spec fn least_cost(cs: Seq<SavedController>) -> int {
    total(cs.map_values(|e: SavedController| controller_cost(e))) + directional_cost(pending_count(cs)) + total(
        cs.map_values(|e: SavedController| transition_cost(e)),
    )
}

/// Why saving stops at a step: the running size leaves the machine word, it
/// exceeds the budget, or the step's target has no persistent identity.
pub enum SaveFailure {
    Overflow,
    Budget,
    Missing,
}

/// Run charging steps in order: each adds its cost to the running size and
/// then checks its target. Gives the first failure, if any, and the size
/// then (unchanged by a step that would leave the machine word).
pub open spec fn run_steps(steps: Seq<(int, bool)>, b: int, max: int) -> (Option<SaveFailure>, int)
    decreases steps.len(),
{
    if steps.len() == 0 {
        (None, b)
    } else if b + steps[0].0 > usize::MAX {
        (Some(SaveFailure::Overflow), b)
    } else if b + steps[0].0 > max {
        (Some(SaveFailure::Budget), b + steps[0].0)
    } else if !steps[0].1 {
        (Some(SaveFailure::Missing), b + steps[0].0)
    } else {
        run_steps(steps.drop_first(), b + steps[0].0, max)
    }
}

/// One charging step per driver: its cost, and whether its target has a
/// persistent identity.
pub open spec fn driver_steps(ds: Seq<DriverModel>, ents: Map<u64, EntityId>) -> Seq<(int, bool)> {
    ds.map_values(|d: DriverModel| (driver_cost(d), ents.contains_key(d.target.bits)))
}

/// The steps of one controller's declaration: its own charge, then each driver.
pub open spec fn controller_steps(e: SavedController, ents: Map<u64, EntityId>) -> Seq<(int, bool)> {
    seq![(128int, true)] + driver_steps(e.0@.drivers, ents)
}

/// The steps of every controller's declaration, in order.
pub open spec fn declaration_steps(cs: Seq<SavedController>, ents: Map<u64, EntityId>) -> Seq<(int, bool)>
    decreases cs.len(),
{
    if cs.len() == 0 {
        Seq::empty()
    } else {
        declaration_steps(cs.drop_last(), ents) + controller_steps(cs.last(), ents)
    }
}

/// The steps charged before any crossfade source: every declaration, then
/// the directional starts.
pub open spec fn declaration_phase(cs: Seq<SavedController>, ents: Map<u64, EntityId>) -> Seq<(int, bool)> {
    declaration_steps(cs, ents).push((directional_cost(pending_count(cs)), true))
}

/// The message of a failure in the declaration phase.
pub open spec fn failure_message(f: SaveFailure, missing: Seq<char>) -> Seq<char> {
    match f {
        SaveFailure::Overflow => "Snapshot size overflow"@,
        SaveFailure::Budget => "Snapshot byte budget exhausted"@,
        SaveFailure::Missing => missing,
    }
}

/// Running steps one after another.
pub proof fn lemma_run_concat(a: Seq<(int, bool)>, c: Seq<(int, bool)>, b: int, max: int)
    ensures
        run_steps(a + c, b, max) == match run_steps(a, b, max) {
            (Some(f), x) => (Some(f), x),
            (None, x) => run_steps(c, x, max),
        },
    decreases a.len(),
{
    if a.len() > 0 {
        assert((a + c).drop_first() =~= a.drop_first() + c);
        assert((a + c)[0] == a[0]);
        lemma_run_concat(a.drop_first(), c, b + a[0].0, max);
    } else {
        assert(a + c =~= c);
    }
}

/// One more step after a prefix that did not fail.
pub proof fn lemma_run_step(steps: Seq<(int, bool)>, j: int, b: int, max: int)
    requires
        0 <= j < steps.len(),
        run_steps(steps.take(j), b, max).0 is None,
    ensures
        run_steps(steps.take(j + 1), b, max) == run_steps(seq![steps[j]], run_steps(steps.take(j), b, max).1, max),
{
    assert(steps.take(j + 1) =~= steps.take(j) + seq![steps[j]]);
    lemma_run_concat(steps.take(j), seq![steps[j]], b, max);
}

/// A failure within a prefix is the failure of the whole run.
pub proof fn lemma_run_fails_early(steps: Seq<(int, bool)>, k: int, b: int, max: int)
    requires
        0 <= k <= steps.len(),
        run_steps(steps.take(k), b, max).0 is Some,
    ensures
        run_steps(steps, b, max) == run_steps(steps.take(k), b, max),
{
    assert(steps =~= steps.take(k) + steps.skip(k));
    lemma_run_concat(steps.take(k), steps.skip(k), b, max);
}

/// The declarations of a prefix of the controllers open the declaration phase.
proof fn lemma_declaration_prefix(cs: Seq<SavedController>, ents: Map<u64, EntityId>, k: int)
    requires
        0 <= k <= cs.len(),
    ensures
        declaration_steps(cs.take(k), ents).len() <= declaration_steps(cs, ents).len(),
        declaration_phase(cs, ents).take(declaration_steps(cs.take(k), ents).len() as int) == declaration_steps(cs.take(k), ents),
    decreases cs.len(),
{
    let whole = declaration_steps(cs, ents);
    if k == cs.len() {
        assert(cs.take(k) =~= cs);
        assert(declaration_phase(cs, ents).take(whole.len() as int) =~= whole);
    } else {
        let rest = cs.drop_last();
        assert(rest.take(k) =~= cs.take(k));
        lemma_declaration_prefix(rest, ents, k);
        let part = declaration_steps(cs.take(k), ents);
        let front = declaration_steps(rest, ents);
        assert(whole == front + controller_steps(cs.last(), ents));
        assert(declaration_phase(rest, ents).take(part.len() as int) == part);
        assert(declaration_phase(cs, ents).take(part.len() as int) =~= part) by {
            assert forall|q: int| 0 <= q < part.len() implies declaration_phase(cs, ents)[q] == part[q] by {
                assert(declaration_phase(rest, ents)[q] == front[q]);
                assert(declaration_phase(rest, ents).take(part.len() as int)[q] == part[q]);
            }
        }
    }
}

/// Some controller is crossfading.
pub open spec fn has_transitions(cs: Seq<SavedController>) -> bool {
    exists|i: int| 0 <= i < cs.len() && (#[trigger] cs[i]).1 is Some
}

/// The persistent sidecar of a crossfading controller: a prepared transition
/// resumes from the controller's current time.
pub open spec fn saved_transition(e: SavedController) -> Option<TransitionModel> {
    match e.1 {
        Some((s, start, prepared)) => Some(
            TransitionModel {
                id: e.0.id,
                source: source_model(&s),
                start_time: if prepared {
                    AnimationTransitionStartTime::Seek(e.0.time)
                } else {
                    start
                },
            },
        ),
        None => None,
    }
}

pub open spec fn saved_transitions(cs: Seq<SavedController>) -> Seq<TransitionModel>
    decreases cs.len(),
{
    if cs.len() == 0 {
        Seq::empty()
    } else {
        match saved_transition(cs.last()) {
            Some(t) => saved_transitions(cs.drop_last()).push(t),
            None => saved_transitions(cs.drop_last()),
        }
    }
}

pub open spec fn saved_starts(cs: Seq<SavedController>) -> Seq<AnimationControllerId>
    decreases cs.len(),
{
    if cs.len() == 0 {
        Seq::empty()
    } else if cs.last().2 {
        saved_starts(cs.drop_last()).push(cs.last().0.id)
    } else {
        saved_starts(cs.drop_last())
    }
}

/// The persistent state of the controllers before targets are rewritten.
pub open spec fn saved_state(cs: Seq<SavedController>, next_id: u64) -> StateModel {
    StateModel {
        next_id,
        controllers: cs.map_values(|e: SavedController| e.0@),
        transitions: saved_transitions(cs),
        directional_starts: saved_starts(cs),
    }
}

/// Entity identity bits mapped to persistent identities, as entities.
pub open spec fn as_entities(ids: Map<u64, u64>) -> Map<u64, EntityId> {
    Map::new(|k: u64| ids.contains_key(k), |k: u64| EntityId { bits: ids[k] })
}

/// Capacity of a string's storage, in bytes.
///
/// Calls `String::capacity`. Trusted: the capacity is never less than the
/// length. What it is beyond that depends on the allocator and is not stated.
#[verifier::external_body]
fn string_capacity(s: &String) -> (r: usize)
    ensures
        r >= encode_utf8(s@).len(),
{
    s.capacity()
}

/// Capacity of an offset list's storage, in elements.
///
/// Calls `Vec::capacity`. Trusted: the capacity is never less than the length.
/// What it is beyond that depends on the allocator and is not stated.
#[verifier::external_body]
fn offsets_capacity(v: &Vec<u32>) -> (r: usize)
    ensures
        r >= v@.len(),
{
    v.capacity()
}

/// Bytes a target's storage owns: its name's capacity, or four per offset slot.
fn owned_bytes(t: &AnimationTrackTarget) -> (r: u128)
    ensures
        r >= owned_len(t@),
        r <= 4 * 0x1_0000_0000_0000_0000,
{
    match t {
        AnimationTrackTarget::DynamicProperty { name, .. } => string_capacity(name) as u128,
        AnimationTrackTarget::AnimationProperty(p) => 4 * (offsets_capacity(&p.offsets) as u128),
    }
}

/// Bytes a target owns by its length.
fn owned_length(t: &AnimationTrackTarget) -> (r: u128)
    ensures
        r == owned_len(t@),
        r <= 4 * 0x1_0000_0000_0000_0000,
{
    match t {
        AnimationTrackTarget::DynamicProperty { name, .. } => text_bytes(name),
        AnimationTrackTarget::AnimationProperty(p) => 4 * (p.offsets.len() as u128),
    }
}

/// Length of a string's UTF-8 encoding.
fn text_bytes(s: &String) -> (r: u128)
    ensures
        r == encode_utf8(s@).len(),
        r <= usize::MAX,
{
    let t = s.as_str();
    let b = t.as_bytes();
    proof {
        assert(t@ == s@);
    }
    b.len() as u128
}

/// A size failure tells the truth about the running size: the budget is
/// reported exhausted only once the size is past it, and an overflow leaves
/// the size within it (or where it started), unchanged by the charge that
/// did not fit.
pub open spec fn size_failure_honest(e: Seq<char>, start: usize, size: usize, max_bytes: usize) -> bool {
    &&& e == "Snapshot byte budget exhausted"@ ==> size > max_bytes
    &&& e == "Snapshot size overflow"@ ==> size <= max_bytes || size == start
}

/// The four refusals are different texts.
proof fn lemma_messages_distinct()
    ensures
        "Snapshot byte budget exhausted"@ != "Snapshot size overflow"@,
        "Animation references excluded or missing entity"@ != "Snapshot size overflow"@,
        "Animation references excluded or missing entity"@ != "Snapshot byte budget exhausted"@,
        "Animation transition references excluded or missing entity"@ != "Snapshot size overflow"@,
        "Animation transition references excluded or missing entity"@ != "Snapshot byte budget exhausted"@,
{
    reveal_strlit("Snapshot byte budget exhausted");
    reveal_strlit("Snapshot size overflow");
    reveal_strlit("Animation references excluded or missing entity");
    reveal_strlit("Animation transition references excluded or missing entity");
    assert("Snapshot byte budget exhausted"@[9] != "Snapshot size overflow"@[9]);
    assert("Animation references excluded or missing entity"@[0] != "Snapshot size overflow"@[0]);
    assert("Animation references excluded or missing entity"@[0] != "Snapshot byte budget exhausted"@[0]);
    assert("Animation transition references excluded or missing entity"@[0] != "Snapshot size overflow"@[0]);
    assert("Animation transition references excluded or missing entity"@[0] != "Snapshot byte budget exhausted"@[0]);
}

/// Add a charge to the running snapshot size: refused when the sum does not
/// fit a machine word (size unchanged) or exceeds the budget (size advanced).
fn charge(bytes: &mut usize, cost: u128, max_bytes: usize) -> (r: Result<(), String>)
    ensures
        r is Ok <==> *old(bytes) + cost <= max_bytes,
        r is Ok ==> *final(bytes) == *old(bytes) + cost,
        r matches Err(e) ==> if *old(bytes) + cost > usize::MAX {
            e@ == "Snapshot size overflow"@ && *final(bytes) == *old(bytes)
        } else {
            e@ == "Snapshot byte budget exhausted"@ && *final(bytes) == *old(bytes) + cost
        },
        r matches Err(e) ==> size_failure_honest(e@, *old(bytes), *final(bytes), max_bytes),
{
    proof {
        lemma_messages_distinct();
    }
    if cost > (usize::MAX - *bytes) as u128 {
        return Err("Snapshot size overflow".to_owned());
    }
    *bytes = *bytes + cost as usize;
    if *bytes > max_bytes {
        return Err("Snapshot byte budget exhausted".to_owned());
    }
    Ok(())
}

/// The persistent identities of entities, as entity handles.
fn persistent_entities(ids: &BTreeMap<u64, u64>) -> (r: BTreeMap<u64, EntityId>)
    ensures
        r@ == as_entities(ids@),
{
    let mut out: BTreeMap<u64, EntityId> = BTreeMap::new();
    let ghost elems = vstd::std_specs::btree::spec_btree_map_iter(ids).remaining();
    let ghost mut n: int = 0;
    for kv in it: ids.iter()
        invariant
            it.seq() == elems,
            elems.len() == ids@.dom().len(),
            forall|i: int| 0 <= i < elems.len() ==> ids@.contains_key(*elems[i].0) && ids@[*elems[i].0] == *elems[i].1,
            forall|k: u64| #[trigger] ids@.contains_key(k) ==> elems.contains((&k, &ids@[k])),
            n == it.index(),
            forall|k: u64| #[trigger] out@.contains_key(k) ==> ids@.contains_key(k) && out@[k] == (EntityId { bits: ids@[k] }),
            forall|i: int| 0 <= i < n ==> out@.contains_key(*(#[trigger] elems[i]).0),
    {
        let (k, v) = kv;
        proof {
            assert(elems[n] == (k, v));
        }
        out.insert(*k, EntityId::from_bits(*v));
        proof {
            n = n + 1;
        }
    }
    proof {
        assert forall|k: u64| #[trigger] ids@.contains_key(k) implies out@.contains_key(k) by {
            assert(elems.contains((&k, &ids@[k])));
            let i = choose|i: int| 0 <= i < elems.len() && elems[i] == (&k, &ids@[k]);
            assert(out@.contains_key(*elems[i].0));
        }
        assert(out@ =~= as_entities(ids@));
    }
    out
}

/// Charge each driver declaration and check that its target has a persistent
/// identity. Declarations are charged by length, or by storage capacity.
fn charge_drivers(
    drivers: &Vec<AnimationDriverDescription>,
    ids: &BTreeMap<u64, u64>,
    bytes: &mut usize,
    max_bytes: usize,
    by_capacity: bool,
    missing: &str,
) -> (r: Result<(), String>)
    requires
        *old(bytes) <= max_bytes,
        missing@ != "Snapshot size overflow"@,
        missing@ != "Snapshot byte budget exhausted"@,
    ensures
        r is Ok ==> drivers_mapped(driver_models(drivers@), as_entities(ids@)) && *old(bytes) + total(
            driver_costs(driver_models(drivers@)),
        ) <= *final(bytes) <= max_bytes,
        r is Ok && !by_capacity ==> *final(bytes) == *old(bytes) + total(driver_costs(driver_models(drivers@))),
        !by_capacity && drivers_mapped(driver_models(drivers@), as_entities(ids@)) && *old(bytes) + total(
            driver_costs(driver_models(drivers@)),
        ) <= max_bytes ==> r is Ok,
        r matches Err(e) ==> e@ == "Snapshot size overflow"@ || e@ == "Snapshot byte budget exhausted"@ || (e@
            == missing@ && !drivers_mapped(driver_models(drivers@), as_entities(ids@))),
        r matches Err(e) ==> size_failure_honest(e@, *old(bytes), *final(bytes), max_bytes),
        !by_capacity ==> *final(bytes) == run_steps(
            driver_steps(driver_models(drivers@), as_entities(ids@)),
            *old(bytes) as int,
            max_bytes as int,
        ).1,
        !by_capacity ==> match run_steps(driver_steps(driver_models(drivers@), as_entities(ids@)), *old(bytes) as int, max_bytes as int).0 {
            None => r is Ok,
            Some(f) => r matches Err(e) && e@ == failure_message(f, missing@),
        },
{
    let ghost dm = driver_models(drivers@);
    let ghost steps = driver_steps(dm, as_entities(ids@));
    let ghost dc = driver_costs(dm);
    let ghost b0 = *bytes;
    let ghost mut extra: int = 0;
    proof {
        assert forall|k: int| 0 <= k < dc.len() implies #[trigger] dc[k] >= 0 by {}
        lemma_total_nonneg(dc);
    }
    let mut j: usize = 0;
    while j < drivers.len()
        invariant
            dm == driver_models(drivers@),
            dc == driver_costs(dm),
            b0 == *old(bytes),
            forall|k: int| 0 <= k < dc.len() ==> #[trigger] dc[k] >= 0,
            j <= drivers@.len(),
            *bytes <= max_bytes,
            extra >= 0,
            !by_capacity ==> extra == 0,
            *bytes == b0 + total(dc.take(j as int)) + extra,
            forall|k: int| 0 <= k < j ==> as_entities(ids@).contains_key((#[trigger] dm[k]).target.bits),
            steps == driver_steps(dm, as_entities(ids@)),
            missing@ != "Snapshot size overflow"@,
            missing@ != "Snapshot byte budget exhausted"@,
            !by_capacity ==> run_steps(steps.take(j as int), b0 as int, max_bytes as int) == (None::<SaveFailure>, *bytes as int),
        decreases drivers@.len() - j,
    {
        let d = &drivers[j];
        proof {
            assert(dm[j as int] == d@);
            lemma_total_step(dc, j as int);
            if !by_capacity {
                lemma_run_step(steps, j as int, b0 as int, max_bytes as int);
                reveal_with_fuel(run_steps, 2);
            }
        }
        let owned = if by_capacity {
            owned_bytes(&d.property)
        } else {
            owned_length(&d.property)
        };
        let cost: u128 = 128 + text_bytes(&d.source) + owned;
        let ghost before = *bytes;
        match charge(bytes, cost, max_bytes) {
            Ok(()) => {},
            Err(e) => {
                proof {
                    if !by_capacity {
                        assert(cost == dc[j as int]);
                        assert(steps[j as int] == (dc[j as int], as_entities(ids@).contains_key(dm[j as int].target.bits)));
                        lemma_run_fails_early(steps, j + 1, b0 as int, max_bytes as int);
                        lemma_total_prefix(dc, j + 1);
                        assert(before + cost == b0 + total(dc.take(j + 1)));
                        assert(before + cost > max_bytes);
                        assert(total(dc.take(j + 1)) <= total(dc));
                        assert(dc == driver_costs(driver_models(drivers@)));
                    }
                }
                return Err(e);
            },
        }
        proof {
            assert(cost >= dc[j as int]);
            assert(!by_capacity ==> cost == dc[j as int]);
            extra = extra + (cost - dc[j as int]);
        }
        if !ids.contains_key(&d.target.bits) {
            proof {
                if !by_capacity {
                    assert(steps[j as int] == (dc[j as int], as_entities(ids@).contains_key(dm[j as int].target.bits)));
                    lemma_run_fails_early(steps, j + 1, b0 as int, max_bytes as int);
                }
            }
            proof {
                lemma_messages_distinct();
            }
            return Err(missing.to_owned());
        }
        proof {
            if !by_capacity {
                assert(steps[j as int] == (dc[j as int], as_entities(ids@).contains_key(dm[j as int].target.bits)));
            }
        }
        j = j + 1;
    }
    proof {
        assert(dc.take(j as int) =~= dc);
        assert(steps.take(j as int) =~= steps);
    }
    Ok(())
}

/// Charge each frozen value by its storage and check that its target has a
/// persistent identity.
fn charge_frozen(
    values: &Vec<AnimationFrozenTransitionValue>,
    ids: &BTreeMap<u64, u64>,
    bytes: &mut usize,
    max_bytes: usize,
) -> (r: Result<(), String>)
    requires
        *old(bytes) <= max_bytes,
    ensures
        r is Ok ==> frozen_mapped(frozen_models(values@), as_entities(ids@)) && *old(bytes) + total(
            frozen_costs(frozen_models(values@)),
        ) <= *final(bytes) <= max_bytes,
        r matches Err(e) ==> e@ == "Snapshot size overflow"@ || e@ == "Snapshot byte budget exhausted"@ || (e@
            == "Animation transition references excluded or missing entity"@ && !frozen_mapped(
            frozen_models(values@),
            as_entities(ids@),
        )),
        r matches Err(e) ==> size_failure_honest(e@, *old(bytes), *final(bytes), max_bytes),
{
    proof {
        lemma_messages_distinct();
    }
    let ghost fm = frozen_models(values@);
    let ghost fc = frozen_costs(fm);
    let ghost b0 = *bytes;
    let mut j: usize = 0;
    while j < values.len()
        invariant
            fm == frozen_models(values@),
            fc == frozen_costs(fm),
            b0 == *old(bytes),
            j <= values@.len(),
            *bytes <= max_bytes,
            *bytes >= b0 + total(fc.take(j as int)),
            forall|k: int| 0 <= k < j ==> as_entities(ids@).contains_key((#[trigger] fm[k]).target.bits),
        decreases values@.len() - j,
    {
        let v = &values[j];
        proof {
            assert(fm[j as int] == v@);
            lemma_total_step(fc, j as int);
        }
        let cost: u128 = 160 + owned_bytes(&v.property);
        charge(bytes, cost, max_bytes)?;
        if !ids.contains_key(&v.target.bits) {
            proof {
                lemma_messages_distinct();
            }
            return Err("Animation transition references excluded or missing entity".to_owned());
        }
        j = j + 1;
    }
    proof {
        assert(fc.take(j as int) =~= fc);
    }
    Ok(())
}

proof fn lemma_total_zero(s: Seq<int>)
    requires
        forall|k: int| 0 <= k < s.len() ==> #[trigger] s[k] == 0,
    ensures
        total(s) == 0,
    decreases s.len(),
{
    if s.len() > 0 {
        lemma_total_zero(s.drop_last());
    }
}

/// Each sidecar comes from a crossfading controller, and each crossfading
/// controller gives one.
proof fn lemma_saved_transitions(cs: Seq<SavedController>)
    ensures
        forall|k: int| #![trigger saved_transitions(cs)[k]] 0 <= k < saved_transitions(cs).len() ==> exists|i: int|
            0 <= i < cs.len() && (#[trigger] cs[i]).1 is Some && saved_transitions(cs)[k] == saved_transition(cs[i])->0,
        forall|i: int| 0 <= i < cs.len() && (#[trigger] cs[i]).1 is Some ==> saved_transitions(cs).contains(
            saved_transition(cs[i])->0,
        ),
        !has_transitions(cs) ==> saved_transitions(cs).len() == 0,
    decreases cs.len(),
{
    if cs.len() > 0 {
        let rest = cs.drop_last();
        lemma_saved_transitions(rest);
        let st = saved_transitions(cs);
        let sr = saved_transitions(rest);
        assert forall|k: int| #![trigger st[k]] 0 <= k < st.len() implies exists|i: int|
            0 <= i < cs.len() && (#[trigger] cs[i]).1 is Some && st[k] == saved_transition(cs[i])->0 by {
            if k < sr.len() {
                assert(st[k] == sr[k]);
                let i = choose|i: int| 0 <= i < rest.len() && (#[trigger] rest[i]).1 is Some && sr[k] == saved_transition(rest[i])->0;
                assert(cs[i] == rest[i]);
            } else {
                assert(cs[cs.len() - 1] == cs.last());
            }
        }
        assert forall|i: int| 0 <= i < cs.len() && (#[trigger] cs[i]).1 is Some implies st.contains(saved_transition(cs[i])->0) by {
            if i < cs.len() - 1 {
                assert(cs[i] == rest[i]);
                assert(sr.contains(saved_transition(rest[i])->0));
                let k = choose|k: int| 0 <= k < sr.len() && sr[k] == saved_transition(rest[i])->0;
                assert(st[k] == sr[k]);
            } else {
                assert(cs[i] == cs.last());
                assert(st[st.len() - 1] == saved_transition(cs[i])->0);
            }
        }
        if !has_transitions(cs) {
            assert(cs.last().1 is None) by {
                assert(cs[cs.len() - 1] == cs.last());
            }
            assert forall|i: int| 0 <= i < rest.len() implies (#[trigger] rest[i]).1 is None by {
                assert(rest[i] == cs[i]);
            }
        }
    }
}

/// Charge one controller's crossfade source and check its targets.
fn charge_source(
    source: &AnimationPersistentTransitionSource,
    ids: &BTreeMap<u64, u64>,
    bytes: &mut usize,
    max_bytes: usize,
) -> (r: Result<(), String>)
    requires
        *old(bytes) <= max_bytes,
    ensures
        r is Ok ==> source_mapped(source_model(source), as_entities(ids@)) && *old(bytes) + source_cost(
            source_model(source),
        ) <= *final(bytes) <= max_bytes,
        r matches Err(e) ==> e@ == "Snapshot size overflow"@ || e@ == "Snapshot byte budget exhausted"@ || (e@
            == "Animation transition references excluded or missing entity"@ && !source_mapped(
            source_model(source),
            as_entities(ids@),
        )),
        r matches Err(e) ==> size_failure_honest(e@, *old(bytes), *final(bytes), max_bytes),
{
    proof {
        lemma_messages_distinct();
    }
    match source {
        AnimationPersistentTransitionSource::Live(c) => {
            charge_drivers(&c.description.drivers, ids, bytes, max_bytes, true, "Animation transition references excluded or missing entity")
        },
        AnimationPersistentTransitionSource::Frozen { values, bindings, .. } => {
            charge_frozen(values, ids, bytes, max_bytes)?;
            charge_drivers(
                &bindings.description.drivers,
                ids,
                bytes,
                max_bytes,
                true,
                "Animation transition references excluded or missing entity",
            )
        },
    }
}

/// Save every controller's declarations and clocks against a byte budget.
///
/// Each controller is charged 128 bytes plus, for each driver, 128 bytes, its
/// source and its target's name or offsets (four bytes each); the directional
/// starts eight bytes each; and each crossfade source 160 bytes per frozen
/// value and 128 per driver, plus their sources and the storage their targets
/// own. A controller driver whose target has no persistent identity is
/// refused first, then a transition target. On success every durable target
/// is rewritten to its persistent identity.
pub fn save_persistent_state(
    controllers: Vec<SavedController>,
    next_id: u64,
    ids: &BTreeMap<u64, u64>,
    bytes: &mut usize,
    max_bytes: usize,
) -> (r: Result<AnimationPersistentState, String>)
    ensures
        r matches Ok(s) ==> controller_targets_mapped(saved_state(controllers@, next_id), as_entities(ids@))
            && transition_targets_mapped(saved_state(controllers@, next_id), as_entities(ids@)) && s@ == remap_state(
            saved_state(controllers@, next_id),
            as_entities(ids@),
        ) && *old(bytes) + least_cost(controllers@) <= *final(bytes) <= max_bytes,
        r is Ok && !has_transitions(controllers@) ==> *final(bytes) == *old(bytes) + least_cost(controllers@),
        controller_targets_mapped(saved_state(controllers@, next_id), as_entities(ids@)) && !has_transitions(controllers@)
            && *old(bytes) + least_cost(controllers@) <= max_bytes ==> r is Ok,
        match run_steps(declaration_phase(controllers@, as_entities(ids@)), *old(bytes) as int, max_bytes as int) {
            (Some(f), size) => r matches Err(e) && e@ == failure_message(f, "Animation references excluded or missing entity"@)
                && *final(bytes) == size,
            (None, _) => !has_transitions(controllers@) ==> r is Ok,
        },
        r matches Err(e) ==> e@ == "Snapshot size overflow"@ || e@ == "Snapshot byte budget exhausted"@ || (e@
            == "Animation references excluded or missing entity"@ && !controller_targets_mapped(
            saved_state(controllers@, next_id),
            as_entities(ids@),
        )) || (e@ == "Animation transition references excluded or missing entity"@ && !transition_targets_mapped(
            saved_state(controllers@, next_id),
            as_entities(ids@),
        )),
        r matches Err(e) ==> size_failure_honest(e@, *old(bytes), *final(bytes), max_bytes),
{
    proof {
        lemma_messages_distinct();
    }
    let ghost cs = controllers@;
    let ghost m = saved_state(cs, next_id);
    let ghost ents = as_entities(ids@);
    let ghost cc = cs.map_values(|e: SavedController| controller_cost(e));
    let ghost tc = cs.map_values(|e: SavedController| transition_cost(e));
    let ghost b0 = *bytes;
    let ghost fits = controller_targets_mapped(m, ents) && !has_transitions(cs) && b0 + least_cost(cs) <= max_bytes;
    proof {
        assert forall|k: int| 0 <= k < cc.len() implies #[trigger] cc[k] >= 0 by {
            lemma_total_nonneg(driver_costs(cs[k].0@.drivers));
        }
        lemma_total_nonneg(cc);
        if !has_transitions(cs) {
            assert forall|k: int| 0 <= k < tc.len() implies #[trigger] tc[k] == 0 by {
                assert(cs[k].1 is None);
            }
            lemma_total_zero(tc);
        }
    }
    // Controller declarations.
    let mut i: usize = 0;
    while i < controllers.len()
        invariant
            cs == controllers@,
            m == saved_state(cs, next_id),
            ents == as_entities(ids@),
            cc == cs.map_values(|e: SavedController| controller_cost(e)),
            tc == cs.map_values(|e: SavedController| transition_cost(e)),
            forall|k: int| 0 <= k < cc.len() ==> #[trigger] cc[k] >= 0,
            !has_transitions(cs) ==> total(tc) == 0,
            b0 == *old(bytes),
            fits == (controller_targets_mapped(m, ents) && !has_transitions(cs) && b0 + least_cost(cs) <= max_bytes),
            i <= cs.len(),
            i > 0 ==> *bytes <= max_bytes,
            *bytes == b0 + total(cc.take(i as int)),
            forall|k: int| 0 <= k < i ==> drivers_mapped((#[trigger] cs[k]).0@.drivers, ents),
            run_steps(declaration_steps(cs.take(i as int), ents), b0 as int, max_bytes as int) == (None::<SaveFailure>, *bytes as int),
        decreases cs.len() - i,
    {
        let c = &controllers[i].0;
        let ghost bi = *bytes;
        let ghost ds = driver_steps(cs[i as int].0@.drivers, ents);
        proof {
            lemma_total_step(cc, i as int);
            lemma_total_prefix(cc, i + 1);
            lemma_total_nonneg(driver_costs(cs[i as int].0@.drivers));
            if fits {
                assert(m.controllers[i as int] == cs[i as int].0@);
            }
            assert(cs.take(i + 1).drop_last() =~= cs.take(i as int));
            assert(cs.take(i + 1).last() == cs[i as int]);
            lemma_run_concat(declaration_steps(cs.take(i as int), ents), controller_steps(cs[i as int], ents), b0 as int, max_bytes as int);
            lemma_run_concat(seq![(128int, true)], ds, bi as int, max_bytes as int);
            reveal_with_fuel(run_steps, 2);
            lemma_declaration_prefix(cs, ents, i + 1);
        }
        match charge(bytes, 128, max_bytes) {
            Ok(()) => {},
            Err(e) => {
                proof {
                    lemma_run_fails_early(
                        declaration_phase(cs, ents),
                        declaration_steps(cs.take(i + 1), ents).len() as int,
                        b0 as int,
                        max_bytes as int,
                    );
                }
                return Err(e);
            },
        }
        proof {
            lemma_messages_distinct();
        }
        let r = charge_drivers(&c.description.drivers, ids, bytes, max_bytes, false, "Animation references excluded or missing entity");
        match r {
            Ok(()) => {},
            Err(e) => {
                proof {
                    assert(m.controllers[i as int] == cs[i as int].0@);
                    lemma_run_fails_early(
                        declaration_phase(cs, ents),
                        declaration_steps(cs.take(i + 1), ents).len() as int,
                        b0 as int,
                        max_bytes as int,
                    );
                }
                return Err(e);
            },
        }
        i = i + 1;
    }
    proof {
        assert(cc.take(i as int) =~= cc);
        assert(cs.take(i as int) =~= cs);
        assert forall|k: int| 0 <= k < m.controllers.len() implies drivers_mapped((#[trigger] m.controllers[k]).drivers, ents) by {
            assert(m.controllers[k] == cs[k].0@);
        }
    }
    // Directional starts.
    let mut count: usize = 0;
    let mut i: usize = 0;
    while i < controllers.len()
        invariant
            cs == controllers@,
            i <= cs.len(),
            count <= i,
            count == pending_count(cs.take(i as int)),
        decreases cs.len() - i,
    {
        proof {
            assert(cs.take(i + 1).drop_last() =~= cs.take(i as int));
        }
        if controllers[i].2 {
            count = count + 1;
        }
        i = i + 1;
    }
    proof {
        assert(cs.take(i as int) =~= cs);
    }
    let cost: u128 = if count > usize::MAX / 8 {
        usize::MAX as u128
    } else {
        (count * 8) as u128
    };
    proof {
        lemma_run_concat(declaration_steps(cs, ents), seq![(directional_cost(pending_count(cs)), true)], b0 as int, max_bytes as int);
        assert(declaration_phase(cs, ents) =~= declaration_steps(cs, ents) + seq![(directional_cost(pending_count(cs)), true)]);
        reveal_with_fuel(run_steps, 2);
    }
    charge(bytes, cost, max_bytes)?;
    // Crossfade sources.
    let ghost base = *bytes;
    let mut i: usize = 0;
    while i < controllers.len()
        invariant
            cs == controllers@,
            m == saved_state(cs, next_id),
            ents == as_entities(ids@),
            tc == cs.map_values(|e: SavedController| transition_cost(e)),
            i <= cs.len(),
            b0 == *old(bytes),
            run_steps(declaration_phase(cs, ents), b0 as int, max_bytes as int).0 is None,
            *bytes <= max_bytes,
            *bytes >= base + total(tc.take(i as int)),
            !has_transitions(cs) ==> *bytes == base,
            forall|k: int| 0 <= k < i ==> match (#[trigger] cs[k]).1 {
                Some((s, _, _)) => source_mapped(source_model(&s), ents),
                None => true,
            },
        decreases cs.len() - i,
    {
        proof {
            lemma_total_step(tc, i as int);
        }
        match &controllers[i].1 {
            None => {},
            Some((source, _, _)) => {
                let r = charge_source(source, ids, bytes, max_bytes);
                match r {
                    Ok(()) => {},
                    Err(e) => {
                        proof {
                            lemma_saved_transitions(cs);
                            assert(cs[i as int].1 is Some);
                            let t = saved_transition(cs[i as int])->0;
                            assert(m.transitions.contains(t));
                            let k = choose|k: int| 0 <= k < m.transitions.len() && m.transitions[k] == t;
                            assert(t.source == source_model(source));
                        }
                        return Err(e);
                    },
                }
                proof {
                    assert(!has_transitions(cs) ==> false) by {
                        assert(cs[i as int].1 is Some);
                    }
                }
            },
        }
        i = i + 1;
    }
    proof {
        assert(tc.take(i as int) =~= tc);
        lemma_saved_transitions(cs);
        assert forall|k: int| 0 <= k < m.transitions.len() implies source_mapped((#[trigger] m.transitions[k]).source, ents) by {
            let j = choose|j: int|
                0 <= j < cs.len() && (#[trigger] cs[j]).1 is Some && saved_transitions(cs)[k] == saved_transition(cs[j])->0;
        }
    }
    // Build the state in controller order.
    let mut rest = controllers;
    let mut snaps: Vec<AnimationControllerSnapshot> = Vec::new();
    let mut trans: Vec<AnimationPersistentTransition> = Vec::new();
    let mut starts: Vec<AnimationControllerId> = Vec::new();
    let mut done: usize = 0;
    while rest.len() > 0
        invariant
            done <= cs.len(),
            cs.len() <= usize::MAX,
            rest@ == cs.subrange(done as int, cs.len() as int),
            snaps@ == cs.take(done as int).map_values(|e: SavedController| e.0),
            transition_models(trans@) == saved_transitions(cs.take(done as int)),
            starts@ == saved_starts(cs.take(done as int)),
        decreases rest@.len(),
    {
        let (snapshot, transition, pending) = rest.remove(0);
        proof {
            assert(cs[done as int] == (snapshot, transition, pending));
            assert(cs.take(done + 1).drop_last() =~= cs.take(done as int));
            assert(cs.take(done + 1).last() == cs[done as int]);
        }
        let id = snapshot.id;
        let time = snapshot.time;
        if pending {
            starts.push(id);
        }
        match transition {
            Some((source, start, prepared)) => {
                let start_time = if prepared {
                    AnimationTransitionStartTime::Seek(time)
                } else {
                    start
                };
                let ghost before = trans@;
                trans.push(AnimationPersistentTransition { id, source, start_time });
                proof {
                    assert(transition_models(trans@) =~= transition_models(before).push(trans@.last()@));
                }
            },
            None => {},
        }
        snaps.push(snapshot);
        done = done + 1;
        proof {
            assert(rest@ =~= cs.subrange(done as int, cs.len() as int));
            assert(snaps@ =~= cs.take(done as int).map_values(|e: SavedController| e.0));
        }
    }
    proof {
        assert(cs.take(done as int) =~= cs);
    }
    let state = AnimationPersistentState { next_id, controllers: snaps, transitions: trans, directional_starts: starts };
    proof {
        assert(controller_models(state.controllers@) =~= m.controllers);
        assert(state@.transitions == m.transitions);
        assert(state@.directional_starts == m.directional_starts);
        assert(state@ == m);
    }
    let entities = persistent_entities(ids);
    match state.remap_entities(&entities) {
        Ok(saved) => Ok(saved),
        Err(e) => {
            proof {
                assert(false);
            }
            Err(e)
        },
    }
}


/// A running crossfade resumes where it was: for every saved controller
/// whose crossfade is prepared, the saved state holds a sidecar of its
/// identity that starts the destination at the controller's current time;
/// an unprepared crossfade keeps the start it was given.
pub proof fn lemma_prepared_crossfade_resumes(
    cs: Seq<SavedController>,
    next_id: u64,
    ents: Map<u64, EntityId>,
    saved: StateModel,
    i: int,
)
    requires
        saved == remap_state(saved_state(cs, next_id), ents),
        0 <= i < cs.len(),
        cs[i].1 is Some,
    ensures
        match cs[i].1 {
            Some((_, start, prepared)) => exists|k: int|
                0 <= k < saved.transitions.len() && (#[trigger] saved.transitions[k]).id == cs[i].0.id
                    && saved.transitions[k].start_time == if prepared {
                    AnimationTransitionStartTime::Seek(cs[i].0.time)
                } else {
                    start
                },
            None => true,
        },
{
    lemma_saved_transitions(cs);
    let t = saved_transition(cs[i])->0;
    let ts = saved_state(cs, next_id).transitions;
    assert(ts.contains(t));
    let k = choose|k: int| 0 <= k < ts.len() && ts[k] == t;
    assert(saved.transitions[k] == remap_transition(ts[k], ents));
}

} // verus!