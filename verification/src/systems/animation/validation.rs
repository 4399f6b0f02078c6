//! Semantic rules for persistent animation state: which decoded or captured
//! states may be encoded and restored. Floating-point quantities are IEEE-754
//! bit patterns; the comparisons below are the IEEE comparisons written on
//! those bits.

use crate::systems::animation::codec::{controller_models, transition_models, frozen_models, ControllerModel, DriverModel, FrozenModel, SourceModel, StateModel, TargetModel, TransitionModel};
use crate::systems::animation::{
    AnimationControllerSnapshot, AnimationControllerTransitionState, AnimationDriverDescription,
    AnimationFrozenTransitionValue, AnimationPersistentState, AnimationPersistentTransition,
    AnimationPersistentTransitionSource, AnimationPlaybackStatus, AnimationTrackTarget, AnimationTransitionStartTime,
    AnimationValue, DynamicValue, MAX_CONTROLLERS,
};
use crate::world::{ComponentValue, FieldValue, SCALAR, TRANSFORM};
use vstd::utf8::encode_utf8;
use vstd::prelude::*;

verus! {

/// Largest number of drivers in one persisted controller.
pub const MAX_PERSISTED_DRIVERS: usize = 256;

/// Largest byte length of a persisted driver source.
pub const MAX_SOURCE_BYTES: usize = 2048;

/// Largest track index of a persisted driver (exclusive).
pub const MAX_TRACK: u32 = 256;

/// Largest number of offsets in a persisted target.
pub const MAX_TARGET_INDICES: usize = 4096;

/// Largest number of frozen values in one persisted transition source.
pub const MAX_FROZEN_VALUES: usize = 65536;

/// Bits of the single-precision 1.0.
pub const ONE_F32: u32 = 0x3f80_0000;

/// Byte offsets of the xyzw rotation lanes of a transform.
pub const ROTATION_OFFSETS: [u32; 4] = [12, 16, 20, 24];

// ---- IEEE-754 double precision on bits ----
pub open spec fn exp64(b: u64) -> u64 {
    (b >> 52u64) & 0x7ffu64
}

pub open spec fn mag64(b: u64) -> u64 {
    b & 0x7fff_ffff_ffff_ffffu64
}

pub open spec fn sign64(b: u64) -> bool {
    (b >> 63u64) == 1u64
}

/// The double is not NaN and not infinite.
pub open spec fn finite64(b: u64) -> bool {
    exp64(b) != 0x7ffu64
}

pub open spec fn nan64(b: u64) -> bool {
    exp64(b) == 0x7ffu64 && (b & 0xf_ffff_ffff_ffffu64) != 0
}

/// IEEE `a < b` on doubles.
pub open spec fn lt64(a: u64, b: u64) -> bool {
    &&& !nan64(a)
    &&& !nan64(b)
    &&& !(mag64(a) == 0 && mag64(b) == 0)
    &&& if sign64(a) {
        !sign64(b) || mag64(a) > mag64(b)
    } else {
        !sign64(b) && mag64(a) < mag64(b)
    }
}

/// A finite double that is not below zero.
pub open spec fn finite_nonneg64(b: u64) -> bool {
    finite64(b) && !lt64(b, 0)
}

// ---- IEEE-754 single precision on bits ----
pub open spec fn exp32(b: u32) -> u32 {
    (b >> 23u32) & 0xffu32
}

pub open spec fn mag32(b: u32) -> u32 {
    b & 0x7fff_ffffu32
}

pub open spec fn sign32(b: u32) -> bool {
    (b >> 31u32) == 1u32
}

/// The single is not NaN and not infinite.
pub open spec fn finite32(b: u32) -> bool {
    exp32(b) != 0xffu32
}

pub open spec fn nan32(b: u32) -> bool {
    exp32(b) == 0xffu32 && (b & 0x7f_ffffu32) != 0
}

/// IEEE `a < b` on singles.
pub open spec fn lt32(a: u32, b: u32) -> bool {
    &&& !nan32(a)
    &&& !nan32(b)
    &&& !(mag32(a) == 0 && mag32(b) == 0)
    &&& if sign32(a) {
        !sign32(b) || mag32(a) > mag32(b)
    } else {
        !sign32(b) && mag32(a) < mag32(b)
    }
}

/// IEEE `a <= b` on singles.
pub open spec fn le32(a: u32, b: u32) -> bool {
    !nan32(a) && !nan32(b) && !lt32(b, a)
}

fn is_finite64(b: u64) -> (r: bool)
    ensures
        r == finite64(b),
{
    (b >> 52u64) & 0x7ffu64 != 0x7ffu64
}

fn is_less64(a: u64, b: u64) -> (r: bool)
    ensures
        r == lt64(a, b),
{
    let nan_a = (a >> 52u64) & 0x7ffu64 == 0x7ffu64 && (a & 0xf_ffff_ffff_ffffu64) != 0;
    let nan_b = (b >> 52u64) & 0x7ffu64 == 0x7ffu64 && (b & 0xf_ffff_ffff_ffffu64) != 0;
    let ma = a & 0x7fff_ffff_ffff_ffffu64;
    let mb = b & 0x7fff_ffff_ffff_ffffu64;
    let sa = (a >> 63u64) == 1u64;
    let sb = (b >> 63u64) == 1u64;
    if nan_a || nan_b || (ma == 0 && mb == 0) {
        false
    } else if sa {
        !sb || ma > mb
    } else {
        !sb && ma < mb
    }
}

pub(crate) fn is_finite32(b: u32) -> (r: bool)
    ensures
        r == finite32(b),
{
    (b >> 23u32) & 0xffu32 != 0xffu32
}

fn is_less32(a: u32, b: u32) -> (r: bool)
    ensures
        r == lt32(a, b),
{
    let nan_a = (a >> 23u32) & 0xffu32 == 0xffu32 && (a & 0x7f_ffffu32) != 0;
    let nan_b = (b >> 23u32) & 0xffu32 == 0xffu32 && (b & 0x7f_ffffu32) != 0;
    let ma = a & 0x7fff_ffffu32;
    let mb = b & 0x7fff_ffffu32;
    let sa = (a >> 31u32) == 1u32;
    let sb = (b >> 31u32) == 1u32;
    if nan_a || nan_b || (ma == 0 && mb == 0) {
        false
    } else if sa {
        !sb || ma > mb
    } else {
        !sb && ma < mb
    }
}

fn is_nan32(b: u32) -> (r: bool)
    ensures
        r == nan32(b),
{
    (b >> 23u32) & 0xffu32 == 0xffu32 && (b & 0x7f_ffffu32) != 0
}

pub(crate) fn is_finite_nonneg64(b: u64) -> (r: bool)
    ensures
        r == finite_nonneg64(b),
{
    is_finite64(b) && !is_less64(b, 0)
}

// ---- Targets, drivers and controllers ----
/// A persisted target: a named property of a dynamic-property component, or
/// between one and `MAX_TARGET_INDICES` field offsets.
pub open spec fn valid_target(t: TargetModel) -> bool {
    match t {
        TargetModel::Dynamic(component, _) => ComponentValue::spec_supports_dynamic_properties(component),
        TargetModel::Property(_, offsets) => 0 < offsets.len() <= MAX_TARGET_INDICES,
    }
}

/// A persisted driver: a valid target, a non-empty bounded source, a bounded
/// track, a finite weight in [0, 1] and a finite non-negative reference time.
pub open spec fn valid_driver(d: DriverModel) -> bool {
    &&& valid_target(d.property)
    &&& 0 < encode_utf8(d.source).len() <= MAX_SOURCE_BYTES
    &&& d.track < MAX_TRACK
    &&& finite32(d.weight)
    &&& le32(0, d.weight)
    &&& le32(d.weight, ONE_F32)
    &&& finite32(d.reference_time)
    &&& !lt32(d.reference_time, 0)
}

/// A crossfade summary: finite non-negative duration and elapsed time, and
/// elapsed time not past the duration.
pub open spec fn valid_summary(t: AnimationControllerTransitionState) -> bool {
    finite_nonneg64(t.duration) && finite_nonneg64(t.elapsed) && !lt64(t.duration, t.elapsed)
}

/// A persisted controller snapshot with the expected identity; a transition
/// summary only where one is allowed.
pub open spec fn valid_controller(c: ControllerModel, allow_transition: bool, expected_id: u64) -> bool {
    &&& c.id.bits == expected_id
    &&& finite_nonneg64(c.time)
    &&& finite32(c.speed)
    &&& c.drivers.len() <= MAX_PERSISTED_DRIVERS
    &&& (!allow_transition ==> c.transition is None)
    &&& (c.transition matches Some(t) ==> valid_summary(t))
    &&& forall|i: int| 0 <= i < c.drivers.len() ==> valid_driver(#[trigger] c.drivers[i])
}

fn validate_target(t: &AnimationTrackTarget) -> (r: Result<(), String>)
    ensures
        r is Ok <==> valid_target(t@),
{
    match t {
        AnimationTrackTarget::DynamicProperty { component, .. } => {
            if !ComponentValue::supports_dynamic_properties(*component) {
                return Err("Invalid saved dynamic component".to_owned());
            }
            Ok(())
        },
        AnimationTrackTarget::AnimationProperty(p) => {
            if p.offsets.len() > MAX_TARGET_INDICES || p.offsets.len() == 0 {
                return Err("Invalid saved animation target".to_owned());
            }
            Ok(())
        },
    }
}

fn validate_driver(d: &AnimationDriverDescription) -> (r: Result<(), String>)
    ensures
        r is Ok <==> valid_driver(d@),
{
    validate_target(&d.property)?;
    proof {
        assert(exp32(0u32) == 0u32) by (bit_vector);
        assert(exp32(0x3f80_0000u32) == 0x7fu32) by (bit_vector);
    }
    let n = d.source.as_str().as_bytes().len();
    if n == 0 || n > MAX_SOURCE_BYTES || d.track >= MAX_TRACK || !is_finite32(d.weight) || is_nan32(d.weight) || is_less32(
        d.weight,
        0,
    ) || is_less32(ONE_F32, d.weight) || !is_finite32(d.reference_time) || is_less32(d.reference_time, 0) {
        return Err("Invalid saved animation driver".to_owned());
    }
    Ok(())
}

fn validate_controller(c: &AnimationControllerSnapshot, allow_transition: bool, expected_id: u64) -> (r: Result<(), String>)
    ensures
        r is Ok <==> valid_controller(c@, allow_transition, expected_id),
{
    if c.id.bits != expected_id || !is_finite_nonneg64(c.time) || !is_finite32(c.description.speed)
        || c.description.drivers.len() > MAX_PERSISTED_DRIVERS || (!allow_transition && c.transition.is_some()) {
        return Err("Invalid saved animation controller".to_owned());
    }
    if let Some(t) = c.transition {
        if !is_finite_nonneg64(t.duration) || !is_finite_nonneg64(t.elapsed) || is_less64(t.duration, t.elapsed) {
            return Err("Invalid saved transition summary".to_owned());
        }
    }
    let mut i: usize = 0;
    while i < c.description.drivers.len()
        invariant
            i <= c.description.drivers@.len(),
            forall|k: int| 0 <= k < i ==> valid_driver(#[trigger] c@.drivers[k]),
        decreases c.description.drivers@.len() - i,
    {
        assert(c@.drivers[i as int] == c.description.drivers@[i as int]@);
        validate_driver(&c.description.drivers[i])?;
        i = i + 1;
    }
    Ok(())
}

// ---- Frozen transition values ----
/// Single-precision fields whose frozen value a transition can restore: the
/// scalar value, and the translation and scale lanes of a transform.
pub open spec fn frozen_f32_field_supported(component: u16, offset: u32) -> bool {
    ||| component == SCALAR && offset == 0
    ||| component == TRANSFORM && (offset == 0 || offset == 4 || offset == 8 || offset == 28 || offset == 32 || offset == 36)
}

/// Whether a frozen value of this kind can be restored into this target.
pub open spec fn frozen_target_supported(t: TargetModel, v: AnimationValue) -> bool {
    match v {
        AnimationValue::Field(FieldValue::F32(_)) => t matches TargetModel::Property(c, offsets) && offsets.len() == 1
            && frozen_f32_field_supported(c, offsets[0]),
        AnimationValue::Rotation(_) => t matches TargetModel::Property(c, offsets) && c == TRANSFORM && offsets
            == ROTATION_OFFSETS@,
        AnimationValue::Dynamic(d) => t is Dynamic && !(d is Bool) && !(d is Asset),
        _ => false,
    }
}

/// Offset targets hold single floats or rotations; named targets hold dynamic values.
pub open spec fn value_matches_target(t: TargetModel, v: AnimationValue) -> bool {
    match t {
        TargetModel::Property(..) => v matches AnimationValue::Field(FieldValue::F32(_)) || v is Rotation,
        TargetModel::Dynamic(..) => v is Dynamic,
    }
}

pub open spec fn lanes_finite(s: Seq<u32>) -> bool {
    forall|i: int| 0 <= i < s.len() ==> finite32(#[trigger] s[i])
}

/// Every float lane of a dynamic value is finite; booleans and assets have no
/// continuous value.
pub open spec fn dynamic_finite(d: DynamicValue) -> bool {
    match d {
        DynamicValue::F32(x) => finite32(x),
        DynamicValue::I32(_) => true,
        DynamicValue::U32(_) => true,
        DynamicValue::Bool(_) => false,
        DynamicValue::Asset(_) => false,
        DynamicValue::Vec2(a) => lanes_finite(a@),
        DynamicValue::Vec3(a) => lanes_finite(a@),
        DynamicValue::Vec4(a) => lanes_finite(a@),
        DynamicValue::Mat2(a) => lanes_finite(a@),
        DynamicValue::Mat3(a) => lanes_finite(a@),
        DynamicValue::Mat4(a) => lanes_finite(a@),
    }
}

/// Variant of a dynamic value.
pub open spec fn dynamic_kind(d: DynamicValue) -> u8 {
    match d {
        DynamicValue::F32(_) => 0,
        DynamicValue::I32(_) => 1,
        DynamicValue::U32(_) => 2,
        DynamicValue::Bool(_) => 3,
        DynamicValue::Asset(_) => 4,
        DynamicValue::Vec2(_) => 5,
        DynamicValue::Vec3(_) => 6,
        DynamicValue::Vec4(_) => 7,
        DynamicValue::Mat2(_) => 8,
        DynamicValue::Mat3(_) => 9,
        DynamicValue::Mat4(_) => 10,
    }
}

/// Frozen value and baseline agree in kind, fit the target, and are finite.
pub open spec fn valid_frozen(f: FrozenModel) -> bool {
    &&& valid_target(f.property)
    &&& frozen_target_supported(f.property, f.value)
    &&& value_matches_target(f.property, f.value)
    &&& value_matches_target(f.property, f.baseline)
    &&& match (f.value, f.baseline) {
        (AnimationValue::Field(FieldValue::F32(a)), AnimationValue::Field(FieldValue::F32(b))) => finite32(a) && finite32(b),
        (AnimationValue::Rotation(a), AnimationValue::Rotation(b)) => lanes_finite(a@) && lanes_finite(b@),
        (AnimationValue::Dynamic(a), AnimationValue::Dynamic(b)) => dynamic_kind(a) == dynamic_kind(b) && dynamic_finite(a)
            && dynamic_finite(b),
        _ => false,
    }
}

/// Two frozen values address the same entity property.
pub open spec fn same_key(a: FrozenModel, b: FrozenModel) -> bool {
    a.target == b.target && a.property == b.property
}

fn all_finite(s: &[u32]) -> (r: bool)
    ensures
        r == lanes_finite(s@),
{
    let mut i: usize = 0;
    while i < s.len()
        invariant
            i <= s@.len(),
            forall|k: int| 0 <= k < i ==> finite32(#[trigger] s@[k]),
        decreases s@.len() - i,
    {
        if !is_finite32(s[i]) {
            return false;
        }
        i = i + 1;
    }
    true
}

fn is_dynamic_finite(d: &DynamicValue) -> (r: bool)
    ensures
        r == dynamic_finite(*d),
{
    match d {
        DynamicValue::F32(x) => is_finite32(*x),
        DynamicValue::I32(_) => true,
        DynamicValue::U32(_) => true,
        DynamicValue::Bool(_) => false,
        DynamicValue::Asset(_) => false,
        DynamicValue::Vec2(a) => all_finite(a),
        DynamicValue::Vec3(a) => all_finite(a),
        DynamicValue::Vec4(a) => all_finite(a),
        DynamicValue::Mat2(a) => all_finite(a),
        DynamicValue::Mat3(a) => all_finite(a),
        DynamicValue::Mat4(a) => all_finite(a),
    }
}

fn kind_of(d: &DynamicValue) -> (r: u8)
    ensures
        r == dynamic_kind(*d),
{
    match d {
        DynamicValue::F32(_) => 0,
        DynamicValue::I32(_) => 1,
        DynamicValue::U32(_) => 2,
        DynamicValue::Bool(_) => 3,
        DynamicValue::Asset(_) => 4,
        DynamicValue::Vec2(_) => 5,
        DynamicValue::Vec3(_) => 6,
        DynamicValue::Vec4(_) => 7,
        DynamicValue::Mat2(_) => 8,
        DynamicValue::Mat3(_) => 9,
        DynamicValue::Mat4(_) => 10,
    }
}

fn is_frozen_f32_field(component: u16, offset: u32) -> (r: bool)
    ensures
        r == frozen_f32_field_supported(component, offset),
{
    (component == SCALAR && offset == 0) || (component == TRANSFORM && (offset == 0 || offset == 4 || offset == 8 || offset
        == 28 || offset == 32 || offset == 36))
}

fn is_frozen_target_supported(t: &AnimationTrackTarget, v: &AnimationValue) -> (r: bool)
    ensures
        r == frozen_target_supported(t@, *v),
{
    match v {
        AnimationValue::Field(FieldValue::F32(_)) => match t {
            AnimationTrackTarget::AnimationProperty(p) => p.offsets.len() == 1 && is_frozen_f32_field(p.component, p.offsets[0]),
            _ => false,
        },
        AnimationValue::Rotation(_) => match t {
            AnimationTrackTarget::AnimationProperty(p) => {
                let ok = p.component == TRANSFORM && p.offsets.len() == 4 && p.offsets[0] == 12 && p.offsets[1] == 16
                    && p.offsets[2] == 20 && p.offsets[3] == 24;
                proof {
                    if ok {
                        assert(p.offsets@ =~= ROTATION_OFFSETS@);
                    }
                }
                ok
            },
            _ => false,
        },
        AnimationValue::Dynamic(d) => match t {
            AnimationTrackTarget::DynamicProperty { .. } => !matches!(d, DynamicValue::Bool(_)) && !matches!(d, DynamicValue::Asset(_)),
            _ => false,
        },
        _ => false,
    }
}

fn matches_target(t: &AnimationTrackTarget, v: &AnimationValue) -> (r: bool)
    ensures
        r == value_matches_target(t@, *v),
{
    match t {
        AnimationTrackTarget::AnimationProperty(_) => matches!(v, AnimationValue::Field(FieldValue::F32(_))) || matches!(v, AnimationValue::Rotation(_)),
        AnimationTrackTarget::DynamicProperty { .. } => matches!(v, AnimationValue::Dynamic(_)),
    }
}

fn validate_frozen_value(f: &AnimationFrozenTransitionValue) -> (r: Result<(), String>)
    ensures
        r is Ok <==> valid_frozen(f@),
{
    validate_target(&f.property)?;
    let finite = match (&f.value, &f.baseline) {
        (AnimationValue::Field(FieldValue::F32(a)), AnimationValue::Field(FieldValue::F32(b))) => is_finite32(*a) && is_finite32(*b),
        (AnimationValue::Rotation(a), AnimationValue::Rotation(b)) => all_finite(a) && all_finite(b),
        (AnimationValue::Dynamic(a), AnimationValue::Dynamic(b)) => kind_of(a) == kind_of(b) && is_dynamic_finite(a)
            && is_dynamic_finite(b),
        _ => false,
    };
    if is_frozen_target_supported(&f.property, &f.value) && matches_target(&f.property, &f.value) && matches_target(
        &f.property,
        &f.baseline,
    ) && finite {
        Ok(())
    } else {
        Err("Invalid saved frozen transition value".to_owned())
    }
}

fn same_offsets(a: &[u32], b: &[u32]) -> (r: bool)
    ensures
        r == (a@ == b@),
{
    if a.len() != b.len() {
        return false;
    }
    let mut i: usize = 0;
    while i < a.len()
        invariant
            a@.len() == b@.len(),
            i <= a@.len(),
            forall|k: int| 0 <= k < i ==> a@[k] == b@[k],
        decreases a@.len() - i,
    {
        if a[i] != b[i] {
            return false;
        }
        i = i + 1;
    }
    assert(a@ =~= b@);
    true
}

fn same_frozen_key(a: &AnimationFrozenTransitionValue, b: &AnimationFrozenTransitionValue) -> (r: bool)
    ensures
        r == same_key(a@, b@),
{
    if a.target.bits != b.target.bits {
        return false;
    }
    match (&a.property, &b.property) {
        (
            AnimationTrackTarget::DynamicProperty { component: ca, name: na },
            AnimationTrackTarget::DynamicProperty { component: cb, name: nb },
        ) => *ca == *cb && *na == *nb,
        (AnimationTrackTarget::AnimationProperty(pa), AnimationTrackTarget::AnimationProperty(pb)) => pa.component
            == pb.component && same_offsets(pa.offsets.as_slice(), pb.offsets.as_slice()),
        _ => false,
    }
}

// ---- Transitions and whole states ----
/// The outgoing side of a crossfade: a live controller or frozen values with
/// their binding declarations, neither transitioning itself; frozen values
/// are finite, fit their targets, address distinct properties, and their
/// reference time lies within a finite non-negative duration.
pub open spec fn valid_source(s: SourceModel, id: u64) -> bool {
    match s {
        SourceModel::Live(c) => valid_controller(c, false, id),
        SourceModel::Frozen { values, bindings, reference_time, reference_duration } => {
            &&& valid_controller(bindings, false, id)
            &&& values.len() <= MAX_FROZEN_VALUES
            &&& finite_nonneg64(reference_duration)
            &&& finite_nonneg64(reference_time)
            &&& !lt64(reference_duration, reference_time)
            &&& forall|i: int| 0 <= i < values.len() ==> valid_frozen(#[trigger] values[i])
            &&& forall|i: int, j: int| 0 <= i < j < values.len() ==> !same_key(#[trigger] values[i], #[trigger] values[j])
        },
    }
}

/// A transition sidecar: a finite non-negative seek time, and a valid source
/// for its controller.
pub open spec fn valid_transition(t: TransitionModel) -> bool {
    &&& (t.start_time matches AnimationTransitionStartTime::Seek(x) ==> finite_nonneg64(x))
    &&& valid_source(t.source, t.id.bits)
}

/// Some controller with this identity is playing or paused.
pub open spec fn startable(cs: Seq<ControllerModel>, id: u64) -> bool {
    exists|i: int| 0 <= i < cs.len() && (#[trigger] cs[i]).id.bits == id && (cs[i].state is Playing || cs[i].state is Paused)
}

/// Some controller with this identity carries a transition summary.
pub open spec fn transitioning(cs: Seq<ControllerModel>, id: u64) -> bool {
    exists|i: int| 0 <= i < cs.len() && (#[trigger] cs[i]).id.bits == id && cs[i].transition is Some
}

/// Some transition sidecar belongs to this identity.
pub open spec fn has_sidecar(ts: Seq<TransitionModel>, id: u64) -> bool {
    exists|k: int| 0 <= k < ts.len() && (#[trigger] ts[k]).id.bits == id
}

/// A restorable state: a nonzero identity counter above every controller,
/// bounded counts, controllers in strictly increasing identity order, each
/// valid; distinct directional starts of playing or paused controllers; and
/// exactly one valid transition sidecar per transitioning controller.
pub open spec fn valid_state(m: StateModel) -> bool {
    let cs = m.controllers;
    let ts = m.transitions;
    let ds = m.directional_starts;
    &&& m.next_id != 0
    &&& cs.len() <= MAX_CONTROLLERS
    &&& ts.len() <= MAX_CONTROLLERS
    &&& forall|i: int| 0 <= i < cs.len() ==> 0 < (#[trigger] cs[i]).id.bits < m.next_id && valid_controller(
        cs[i],
        true,
        cs[i].id.bits,
    )
    &&& forall|i: int, j: int| 0 <= i < j < cs.len() ==> (#[trigger] cs[i]).id.bits < (#[trigger] cs[j]).id.bits
    &&& forall|k: int| 0 <= k < ds.len() ==> startable(cs, (#[trigger] ds[k]).bits)
    &&& forall|k: int, l: int| 0 <= k < l < ds.len() ==> (#[trigger] ds[k]) != (#[trigger] ds[l])
    &&& forall|k: int| 0 <= k < ts.len() ==> valid_transition(#[trigger] ts[k]) && transitioning(cs, ts[k].id.bits)
    &&& forall|k: int, l: int| 0 <= k < l < ts.len() ==> (#[trigger] ts[k]).id != (#[trigger] ts[l]).id
    &&& forall|i: int| 0 <= i < cs.len() && (#[trigger] cs[i]).transition is Some ==> has_sidecar(ts, cs[i].id.bits)
}

fn validate_frozen_values(vs: &Vec<AnimationFrozenTransitionValue>) -> (r: Result<(), String>)
    ensures
        r is Ok <==> (forall|i: int| 0 <= i < vs@.len() ==> valid_frozen(#[trigger] frozen_models(vs@)[i])) && (forall|
            i: int,
            j: int,
        | 0 <= i < j < vs@.len() ==> !same_key(#[trigger] frozen_models(vs@)[i], #[trigger] frozen_models(vs@)[j])),
{
    let ghost fm = frozen_models(vs@);
    let mut i: usize = 0;
    while i < vs.len()
        invariant
            fm == frozen_models(vs@),
            i <= vs@.len(),
            forall|k: int| 0 <= k < i ==> valid_frozen(#[trigger] fm[k]),
            forall|k: int, l: int| 0 <= k < l < i ==> !same_key(#[trigger] fm[k], #[trigger] fm[l]),
        decreases vs@.len() - i,
    {
        assert(fm[i as int] == vs@[i as int]@);
        validate_frozen_value(&vs[i])?;
        let mut j: usize = 0;
        while j < i
            invariant
                fm == frozen_models(vs@),
                i < vs@.len(),
                j <= i,
                forall|k: int| 0 <= k < j ==> !same_key(#[trigger] fm[k], fm[i as int]),
            decreases i - j,
        {
            assert(fm[j as int] == vs@[j as int]@);
            assert(fm[i as int] == vs@[i as int]@);
            if same_frozen_key(&vs[j], &vs[i]) {
                return Err("Duplicate saved frozen transition value".to_owned());
            }
            j = j + 1;
        }
        i = i + 1;
    }
    Ok(())
}

fn validate_transition(t: &AnimationPersistentTransition) -> (r: Result<(), String>)
    ensures
        r is Ok <==> valid_transition(t@),
{
    if let AnimationTransitionStartTime::Seek(time) = t.start_time {
        if !is_finite_nonneg64(time) {
            return Err("Invalid saved transition start time".to_owned());
        }
    }
    let id = t.id.bits;
    match &t.source {
        AnimationPersistentTransitionSource::Live(source) => validate_controller(source, false, id),
        AnimationPersistentTransitionSource::Frozen { values, bindings, reference_time, reference_duration } => {
            validate_controller(bindings, false, id)?;
            if values.len() > MAX_FROZEN_VALUES || !is_finite_nonneg64(*reference_duration) || !is_finite_nonneg64(
                *reference_time,
            ) || is_less64(*reference_duration, *reference_time) {
                return Err("Invalid saved frozen transition metadata".to_owned());
            }
            validate_frozen_values(values)
        },
    }
}

/// Controllers in strictly increasing identity order.
pub open spec fn ids_increasing(cs: Seq<ControllerModel>) -> bool {
    forall|i: int, j: int| 0 <= i < j < cs.len() ==> (#[trigger] cs[i]).id.bits < (#[trigger] cs[j]).id.bits
}

/// Position of a controller identity in a list sorted by identity.
fn find_controller(cs: &Vec<AnimationControllerSnapshot>, id: u64) -> (r: Option<usize>)
    requires
        ids_increasing(controller_models(cs@)),
    ensures
        r matches Some(i) ==> i < cs@.len() && controller_models(cs@)[i as int].id.bits == id,
        r is None ==> forall|i: int| 0 <= i < cs@.len() ==> (#[trigger] controller_models(cs@)[i]).id.bits != id,
{
    let ghost m = controller_models(cs@);
    let mut lo: usize = 0;
    let mut hi: usize = cs.len();
    while lo < hi
        invariant
            m == controller_models(cs@),
            ids_increasing(m),
            lo <= hi <= cs@.len(),
            forall|i: int| 0 <= i < lo ==> (#[trigger] m[i]).id.bits < id,
            forall|i: int| hi <= i < cs@.len() ==> (#[trigger] m[i]).id.bits > id,
        decreases hi - lo,
    {
        let mid = lo + (hi - lo) / 2;
        assert(m[mid as int] == cs@[mid as int]@);
        let b = cs[mid].id.bits;
        if b == id {
            return Some(mid);
        } else if b < id {
            proof {
                assert forall|i: int| 0 <= i < mid + 1 implies (#[trigger] m[i]).id.bits < id by {
                    if i < mid {
                        assert(m[i].id.bits < m[mid as int].id.bits);
                    }
                }
            }
            lo = mid + 1;
        } else {
            proof {
                assert forall|i: int| mid <= i < cs@.len() implies (#[trigger] m[i]).id.bits > id by {
                    if i > mid {
                        assert(m[mid as int].id.bits < m[i].id.bits);
                    }
                }
            }
            hi = mid;
        }
    }
    None
}

fn validate_controller_order(state: &AnimationPersistentState) -> (r: Result<(), String>)
    requires
        state.controllers@.len() <= MAX_CONTROLLERS,
    ensures
        r is Ok <==> (forall|i: int| 0 <= i < state@.controllers.len() ==> 0 < (#[trigger] state@.controllers[i]).id.bits
            < state@.next_id && valid_controller(state@.controllers[i], true, state@.controllers[i].id.bits)) && ids_increasing(
            state@.controllers,
        ),
{
    let ghost cs = state@.controllers;
    let mut previous: u64 = 0;
    let mut i: usize = 0;
    while i < state.controllers.len()
        invariant
            cs == state@.controllers,
            i <= cs.len(),
            forall|k: int| 0 <= k < i ==> 0 < (#[trigger] cs[k]).id.bits < state.next_id && valid_controller(
                cs[k],
                true,
                cs[k].id.bits,
            ),
            forall|k: int, l: int| 0 <= k < l < i ==> (#[trigger] cs[k]).id.bits < (#[trigger] cs[l]).id.bits,
            i == 0 ==> previous == 0,
            i > 0 ==> previous == cs[i - 1].id.bits,
        decreases cs.len() - i,
    {
        assert(cs[i as int] == state.controllers@[i as int]@);
        let id = state.controllers[i].id.bits;
        if id <= previous || id >= state.next_id {
            proof {
                if i > 0 && id <= previous {
                    assert(cs[i - 1].id.bits >= cs[i as int].id.bits);
                }
            }
            return Err("Invalid saved animation controller".to_owned());
        }
        validate_controller(&state.controllers[i], true, id)?;
        proof {
            assert forall|k: int, l: int| 0 <= k < l < i + 1 implies (#[trigger] cs[k]).id.bits < (#[trigger] cs[l]).id.bits by {
                if l == i && k < i - 1 {
                    assert(cs[k].id.bits < cs[i - 1].id.bits);
                }
            }
        }
        previous = id;
        i = i + 1;
    }
    Ok(())
}

fn unset_flags(n: usize) -> (r: Vec<bool>)
    ensures
        r@.len() == n,
        forall|i: int| 0 <= i < n ==> !(#[trigger] r@[i]),
{
    let mut r: Vec<bool> = Vec::new();
    let mut i: usize = 0;
    while i < n
        invariant
            i <= n,
            r@.len() == i,
            forall|k: int| 0 <= k < i ==> !(#[trigger] r@[k]),
        decreases n - i,
    {
        r.push(false);
        i = i + 1;
    }
    r
}

/// Identities are unique in a list in increasing order.
proof fn lemma_unique_id(cs: Seq<ControllerModel>, i: int, j: int)
    requires
        ids_increasing(cs),
        0 <= i < cs.len(),
        0 <= j < cs.len(),
        cs[i].id.bits == cs[j].id.bits,
    ensures
        i == j,
{
    if i < j {
        assert(cs[i].id.bits < cs[j].id.bits);
    } else if j < i {
        assert(cs[j].id.bits < cs[i].id.bits);
    }
}

#[verifier::rlimit(30)]
fn validate_directional_starts(cs: &Vec<AnimationControllerSnapshot>, ds: &Vec<crate::systems::animation::AnimationControllerId>) -> (r: Result<(), String>)
    requires
        ids_increasing(controller_models(cs@)),
    ensures
        r is Ok <==> (forall|k: int| 0 <= k < ds@.len() ==> startable(controller_models(cs@), (#[trigger] ds@[k]).bits)) && (
        forall|k: int, l: int| 0 <= k < l < ds@.len() ==> (#[trigger] ds@[k]) != (#[trigger] ds@[l])),
{
    let ghost m = controller_models(cs@);
    let mut started = unset_flags(cs.len());
    let mut k: usize = 0;
    while k < ds.len()
        invariant
            m == controller_models(cs@),
            ids_increasing(m),
            k <= ds@.len(),
            started@.len() == cs@.len(),
            forall|i: int| 0 <= i < cs@.len() ==> (#[trigger] started@[i] <==> exists|l: int| 0 <= l < k && ds@[l].bits == m[i].id.bits),
            forall|l: int| 0 <= l < k ==> startable(m, (#[trigger] ds@[l]).bits),
            forall|l: int, l2: int| 0 <= l < l2 < k ==> (#[trigger] ds@[l]) != (#[trigger] ds@[l2]),
        decreases ds@.len() - k,
    {
        let bits = ds[k].bits;
        match find_controller(cs, bits) {
            None => {
                proof {
                    if startable(m, bits) {
                        let i = choose|i: int| 0 <= i < m.len() && (#[trigger] m[i]).id.bits == bits && (m[i].state is Playing
                            || m[i].state is Paused);
                        assert(m[i].id.bits != bits);
                    }
                }
                return Err("Saved directional start references a missing controller".to_owned());
            },
            Some(idx) => {
                assert(m[idx as int] == cs@[idx as int]@);
                let st = cs[idx].state;
                let playing_or_paused = match st {
                    AnimationPlaybackStatus::Playing => true,
                    AnimationPlaybackStatus::Paused => true,
                    _ => false,
                };
                if started[idx] || !playing_or_paused {
                    proof {
                        if started@[idx as int] {
                            let l = choose|l: int| 0 <= l < k && ds@[l].bits == m[idx as int].id.bits;
                            assert(ds@[l] == ds@[k as int]);
                        } else if startable(m, bits) {
                            let i = choose|i: int| 0 <= i < m.len() && (#[trigger] m[i]).id.bits == bits && (m[i].state
                                is Playing || m[i].state is Paused);
                            lemma_unique_id(m, i, idx as int);
                        }
                    }
                    return Err("Invalid saved directional start".to_owned());
                }
                started.set(idx, true);
                proof {
                    assert(startable(m, bits));
                    assert forall|i: int| 0 <= i < cs@.len() implies (#[trigger] started@[i] <==> exists|l: int|
                        0 <= l < k + 1 && ds@[l].bits == m[i].id.bits) by {
                        if i == idx {
                            assert(ds@[k as int].bits == m[i].id.bits);
                        } else if exists|l: int| 0 <= l < k + 1 && ds@[l].bits == m[i].id.bits {
                            let l = choose|l: int| 0 <= l < k + 1 && ds@[l].bits == m[i].id.bits;
                            if l == k {
                                lemma_unique_id(m, i, idx as int);
                            }
                        }
                    }
                    assert forall|l: int, l2: int| 0 <= l < l2 < k + 1 implies (#[trigger] ds@[l]) != (#[trigger] ds@[l2]) by {
                        if l2 == k && ds@[l] == ds@[l2] {
                            assert(started@[idx as int]);
                        }
                    }
                }
            },
        }
        k = k + 1;
    }
    Ok(())
}

#[verifier::rlimit(40)]
fn validate_transitions(cs: &Vec<AnimationControllerSnapshot>, ts: &Vec<AnimationPersistentTransition>) -> (r: Result<
    Vec<bool>,
    String,
>)
    requires
        ids_increasing(controller_models(cs@)),
    ensures
        r is Ok <==> (forall|k: int| 0 <= k < ts@.len() ==> valid_transition(#[trigger] transition_models(ts@)[k])
            && transitioning(controller_models(cs@), transition_models(ts@)[k].id.bits)) && (forall|k: int, l: int|
            0 <= k < l < ts@.len() ==> (#[trigger] transition_models(ts@)[k]).id != (#[trigger] transition_models(ts@)[l]).id),
        r matches Ok(seen) ==> seen@.len() == cs@.len() && forall|i: int| 0 <= i < cs@.len() ==> (#[trigger] seen@[i]
            <==> has_sidecar(transition_models(ts@), controller_models(cs@)[i].id.bits)),
{
    let ghost m = controller_models(cs@);
    let ghost tm = transition_models(ts@);
    let mut seen = unset_flags(cs.len());
    let mut k: usize = 0;
    while k < ts.len()
        invariant
            m == controller_models(cs@),
            tm == transition_models(ts@),
            ids_increasing(m),
            k <= ts@.len(),
            seen@.len() == cs@.len(),
            forall|i: int| 0 <= i < cs@.len() ==> (#[trigger] seen@[i] <==> exists|l: int| 0 <= l < k && tm[l].id.bits == m[i].id.bits),
            forall|l: int| 0 <= l < k ==> valid_transition(#[trigger] tm[l]) && transitioning(m, tm[l].id.bits),
            forall|l: int, l2: int| 0 <= l < l2 < k ==> (#[trigger] tm[l]).id != (#[trigger] tm[l2]).id,
        decreases ts@.len() - k,
    {
        assert(tm[k as int] == ts@[k as int]@);
        let bits = ts[k].id.bits;
        match find_controller(cs, bits) {
            None => {
                proof {
                    if transitioning(m, bits) {
                        let i = choose|i: int| 0 <= i < m.len() && (#[trigger] m[i]).id.bits == bits && m[i].transition is Some;
                        assert(m[i].id.bits != bits);
                    }
                }
                return Err("Saved transition references a missing controller".to_owned());
            },
            Some(idx) => {
                assert(m[idx as int] == cs@[idx as int]@);
                if cs[idx].transition.is_none() || seen[idx] {
                    proof {
                        if seen@[idx as int] {
                            let l = choose|l: int| 0 <= l < k && tm[l].id.bits == m[idx as int].id.bits;
                            assert(tm[l].id == tm[k as int].id);
                        } else if transitioning(m, bits) {
                            let i = choose|i: int| 0 <= i < m.len() && (#[trigger] m[i]).id.bits == bits && m[i].transition
                                is Some;
                            lemma_unique_id(m, i, idx as int);
                        }
                    }
                    return Err("Invalid or duplicate saved transition sidecar".to_owned());
                }
                validate_transition(&ts[k])?;
                seen.set(idx, true);
                proof {
                    assert(transitioning(m, bits));
                    assert forall|i: int| 0 <= i < cs@.len() implies (#[trigger] seen@[i] <==> exists|l: int|
                        0 <= l < k + 1 && tm[l].id.bits == m[i].id.bits) by {
                        if i == idx {
                            assert(tm[k as int].id.bits == m[i].id.bits);
                        } else if exists|l: int| 0 <= l < k + 1 && tm[l].id.bits == m[i].id.bits {
                            let l = choose|l: int| 0 <= l < k + 1 && tm[l].id.bits == m[i].id.bits;
                            if l == k {
                                lemma_unique_id(m, i, idx as int);
                            }
                        }
                    }
                }
            },
        }
        k = k + 1;
    }
    proof {
        assert forall|i: int| 0 <= i < cs@.len() implies (#[trigger] seen@[i] <==> has_sidecar(tm, m[i].id.bits)) by {
            if has_sidecar(tm, m[i].id.bits) {
                let l = choose|l: int| 0 <= l < tm.len() && (#[trigger] tm[l]).id.bits == m[i].id.bits;
                assert(0 <= l < k && tm[l].id.bits == m[i].id.bits);
            }
        }
    }
    Ok(seen)
}

/// Check the semantic rules of a persistent state before it is encoded or
/// after it is decoded.
#[verifier::rlimit(40)]
pub fn validate_values(state: &AnimationPersistentState) -> (r: Result<(), String>)
    ensures
        r is Ok <==> valid_state(state@),
{
    let ghost m = state@;
    if state.next_id == 0 || state.controllers.len() > MAX_CONTROLLERS || state.transitions.len() > MAX_CONTROLLERS {
        return Err("Invalid saved animation identity counter or count".to_owned());
    }
    validate_controller_order(state)?;
    let starts = validate_directional_starts(&state.controllers, &state.directional_starts);
    if starts.is_err() {
        proof {
            if valid_state(m) {
                let ds = m.directional_starts;
                assert forall|k: int| 0 <= k < ds.len() implies startable(m.controllers, (#[trigger] ds[k]).bits) by {}
                assert forall|k: int, l: int| 0 <= k < l < ds.len() implies (#[trigger] ds[k]) != (#[trigger] ds[l]) by {}
            }
        }
        return starts;
    }
    let seen = validate_transitions(&state.controllers, &state.transitions)?;
    let mut i: usize = 0;
    while i < state.controllers.len()
        invariant
            m == state@,
            i <= m.controllers.len(),
            seen@.len() == m.controllers.len(),
            ids_increasing(m.controllers),
            forall|k: int| 0 <= k < m.transitions.len() ==> transitioning(m.controllers, (#[trigger] m.transitions[k]).id.bits),
            forall|j: int| 0 <= j < m.controllers.len() ==> (#[trigger] seen@[j] <==> has_sidecar(m.transitions, m.controllers[j].id.bits)),
            forall|k: int| 0 <= k < i && (#[trigger] m.controllers[k]).transition is Some ==> has_sidecar(
                m.transitions,
                m.controllers[k].id.bits,
            ),
        decreases m.controllers.len() - i,
    {
        assert(m.controllers[i as int] == state.controllers@[i as int]@);
        if state.controllers[i].transition.is_some() != seen[i] {
            proof {
                if seen@[i as int] {
                    let k = choose|k: int| 0 <= k < m.transitions.len() && (#[trigger] m.transitions[k]).id.bits
                        == m.controllers[i as int].id.bits;
                    assert(transitioning(m.controllers, m.transitions[k].id.bits));
                    let i2 = choose|i2: int| 0 <= i2 < m.controllers.len() && (#[trigger] m.controllers[i2]).id.bits
                        == m.transitions[k].id.bits && m.controllers[i2].transition is Some;
                    lemma_unique_id(m.controllers, i2, i as int);
                }
            }
            return Err("Saved transition summary and sidecar mismatch".to_owned());
        }
        i = i + 1;
    }
    Ok(())
}


/// Accepted weights lie in [0, 1]: every driver of a state that validates
/// has a weight that is neither a negative non-zero single nor greater in
/// magnitude than one.
pub proof fn lemma_valid_weights_in_unit_range(m: StateModel, i: int, j: int)
    requires
        valid_state(m),
        0 <= i < m.controllers.len(),
        0 <= j < m.controllers[i].drivers.len(),
    ensures
        !((m.controllers[i].drivers[j].weight >> 31u32) == 1u32 && (m.controllers[i].drivers[j].weight & 0x7fff_ffffu32)
            != 0u32),
        (m.controllers[i].drivers[j].weight & 0x7fff_ffffu32) <= 0x3f80_0000u32,
{
    let w = m.controllers[i].drivers[j].weight;
    assert(valid_controller(m.controllers[i], true, m.controllers[i].id.bits));
    assert(valid_driver(m.controllers[i].drivers[j]));
    assert((0u32 >> 31u32) == 0u32 && (0u32 & 0x7fff_ffffu32) == 0u32 && (0u32 >> 23u32) & 0xffu32 == 0u32) by (bit_vector);
    assert((0x3f80_0000u32 >> 31u32) == 0u32 && (0x3f80_0000u32 & 0x7fff_ffffu32) == 0x3f80_0000u32
        && (0x3f80_0000u32 >> 23u32) & 0xffu32 == 0x7fu32) by (bit_vector);
    assert(le32(0, w));
    assert(le32(w, ONE_F32));
}

} // verus!