//! Versioned binary form of persistent animation state: value models, the
//! byte encoding of each model, and the encoder.

use crate::ids::EntityId;
use crate::systems::animation::binary::{
    WorldBinaryReader, WorldBinaryWriter, enc_bool, enc_count, enc_string, enc_u16, enc_u32, enc_u64, enc_u8,
    lemma_enc_lens,
};
use crate::systems::animation::{
    AnimationControllerDescription, AnimationControllerId, AnimationControllerSnapshot,
    AnimationControllerTransitionState, AnimationDriverDescription, AnimationFrozenTransitionValue,
    AnimationPersistentState, AnimationPersistentTransition, AnimationPersistentTransitionSource,
    AnimationPlaybackStatus, AnimationProperty, AnimationTrackTarget, AnimationTransitionEasing,
    AnimationTransitionStartTime, AnimationValue, DynamicValue,
};
use crate::world::FieldValue;
use vstd::prelude::*;
use vstd::utf8::encode_utf8;

verus! {

/// Value of a track target.
pub enum TargetModel {
    Dynamic(u16, Seq<char>),
    Property(u16, Seq<u32>),
}

/// Value of a driver description.
pub struct DriverModel {
    pub source: Seq<char>,
    pub variant: u32,
    pub track: u32,
    pub target: EntityId,
    pub property: TargetModel,
    pub weight: u32,
    pub additive: bool,
    pub reference_time: u32,
    pub repeat: bool,
}

/// Value of a controller snapshot.
pub struct ControllerModel {
    pub id: AnimationControllerId,
    pub drivers: Seq<DriverModel>,
    pub speed: u32,
    pub looping: bool,
    pub state: AnimationPlaybackStatus,
    pub time: u64,
    pub transition: Option<AnimationControllerTransitionState>,
}

/// Value of a frozen transition value.
pub struct FrozenModel {
    pub target: EntityId,
    pub property: TargetModel,
    pub value: AnimationValue,
    pub baseline: AnimationValue,
}

/// Value of a transition source.
pub enum SourceModel {
    Live(ControllerModel),
    Frozen { values: Seq<FrozenModel>, bindings: ControllerModel, reference_time: u64, reference_duration: u64 },
}

/// Value of a persistent transition.
pub struct TransitionModel {
    pub id: AnimationControllerId,
    pub source: SourceModel,
    pub start_time: AnimationTransitionStartTime,
}

/// Value of the whole persistent state.
pub struct StateModel {
    pub next_id: u64,
    pub controllers: Seq<ControllerModel>,
    pub transitions: Seq<TransitionModel>,
    pub directional_starts: Seq<AnimationControllerId>,
}

impl View for AnimationTrackTarget {
    type V = TargetModel;

    open spec fn view(&self) -> TargetModel {
        match self {
            AnimationTrackTarget::DynamicProperty { component, name } => TargetModel::Dynamic(*component, name@),
            AnimationTrackTarget::AnimationProperty(p) => TargetModel::Property(p.component, p.offsets@),
        }
    }
}

impl View for AnimationDriverDescription {
    type V = DriverModel;

    open spec fn view(&self) -> DriverModel {
        DriverModel {
            source: self.source@,
            variant: self.variant,
            track: self.track,
            target: self.target,
            property: self.property@,
            weight: self.weight,
            additive: self.additive,
            reference_time: self.reference_time,
            repeat: self.repeat,
        }
    }
}

/// Values of a sequence of drivers.
pub open spec fn driver_models(v: Seq<AnimationDriverDescription>) -> Seq<DriverModel> {
    v.map_values(|d: AnimationDriverDescription| d@)
}

impl View for AnimationControllerSnapshot {
    type V = ControllerModel;

    open spec fn view(&self) -> ControllerModel {
        ControllerModel {
            id: self.id,
            drivers: driver_models(self.description.drivers@),
            speed: self.description.speed,
            looping: self.description.looping,
            state: self.state,
            time: self.time,
            transition: self.transition,
        }
    }
}

impl View for AnimationFrozenTransitionValue {
    type V = FrozenModel;

    open spec fn view(&self) -> FrozenModel {
        FrozenModel { target: self.target, property: self.property@, value: self.value, baseline: self.baseline }
    }
}

/// Values of a sequence of frozen values.
pub open spec fn frozen_models(v: Seq<AnimationFrozenTransitionValue>) -> Seq<FrozenModel> {
    v.map_values(|f: AnimationFrozenTransitionValue| f@)
}

/// Values of a sequence of controllers.
pub open spec fn controller_models(v: Seq<AnimationControllerSnapshot>) -> Seq<ControllerModel> {
    v.map_values(|c: AnimationControllerSnapshot| c@)
}

/// Value of a transition source.
pub open spec fn source_model(s: &AnimationPersistentTransitionSource) -> SourceModel {
    match s {
        AnimationPersistentTransitionSource::Live(c) => SourceModel::Live(c@),
        AnimationPersistentTransitionSource::Frozen { values, bindings, reference_time, reference_duration } =>
            SourceModel::Frozen {
            values: frozen_models(values@),
            bindings: bindings@,
            reference_time: *reference_time,
            reference_duration: *reference_duration,
        },
    }
}

impl View for AnimationPersistentTransition {
    type V = TransitionModel;

    open spec fn view(&self) -> TransitionModel {
        TransitionModel { id: self.id, source: source_model(&self.source), start_time: self.start_time }
    }
}

/// Values of a sequence of transitions.
pub open spec fn transition_models(v: Seq<AnimationPersistentTransition>) -> Seq<TransitionModel> {
    v.map_values(|t: AnimationPersistentTransition| t@)
}

impl View for AnimationPersistentState {
    type V = StateModel;

    open spec fn view(&self) -> StateModel {
        StateModel {
            next_id: self.next_id,
            controllers: controller_models(self.controllers@),
            transitions: transition_models(self.transitions@),
            directional_starts: self.directional_starts@,
        }
    }
}

/// Items encoded one after another.
pub open spec fn enc_seq<T>(s: Seq<T>, f: spec_fn(T) -> Seq<u8>) -> Seq<u8>
    decreases s.len(),
{
    if s.len() == 0 {
        Seq::empty()
    } else {
        enc_seq(s.drop_last(), f) + f(s.last())
    }
}

pub proof fn lemma_enc_seq_push<T>(s: Seq<T>, x: T, f: spec_fn(T) -> Seq<u8>)
    ensures
        enc_seq(s.push(x), f) == enc_seq(s, f) + f(x),
{
    assert(s.push(x).drop_last() =~= s);
}

pub proof fn lemma_enc_seq_front<T>(s: Seq<T>, f: spec_fn(T) -> Seq<u8>)
    requires
        s.len() > 0,
    ensures
        enc_seq(s, f) == f(s[0]) + enc_seq(s.drop_first(), f),
    decreases s.len(),
{
    if s.len() == 1 {
        assert(s.drop_last() =~= Seq::<T>::empty());
        assert(s.drop_first() =~= Seq::<T>::empty());
        assert(enc_seq(s.drop_last(), f) =~= Seq::<u8>::empty());
        assert(enc_seq(s.drop_first(), f) =~= Seq::<u8>::empty());
        assert(s.last() == s[0]);
        assert(enc_seq(s, f) =~= f(s[0]));
    } else {
        lemma_enc_seq_front(s.drop_last(), f);
        assert(s.drop_last().drop_first() =~= s.drop_first().drop_last());
        assert(s.drop_first().last() == s.last());
        assert(enc_seq(s, f) =~= f(s[0]) + enc_seq(s.drop_first(), f));
    }
}

pub proof fn lemma_enc_seq_prefix<T>(s: Seq<T>, i: int, f: spec_fn(T) -> Seq<u8>)
    requires
        0 <= i <= s.len(),
    ensures
        enc_seq(s.take(i), f).len() <= enc_seq(s, f).len(),
    decreases s.len(),
{
    if i < s.len() {
        lemma_enc_seq_prefix(s.drop_last(), i, f);
        assert(s.drop_last().take(i) =~= s.take(i));
    } else {
        assert(s.take(i) =~= s);
    }
}

/// Every item of a sequence encodes to at least `m` bytes, so the whole sequence takes at least `len * m`.
pub proof fn lemma_enc_seq_min<T>(s: Seq<T>, f: spec_fn(T) -> Seq<u8>, m: nat)
    requires
        forall|i: int| 0 <= i < s.len() ==> f(#[trigger] s[i]).len() >= m,
    ensures
        enc_seq(s, f).len() >= s.len() * m,
    decreases s.len(),
{
    if s.len() > 0 {
        lemma_enc_seq_min(s.drop_last(), f, m);
        assert(f(s[s.len() - 1]).len() >= m);
        assert(s.len() * m == (s.len() - 1) * m + m) by (nonlinear_arith);
    }
}

pub open spec fn u32_enc() -> spec_fn(u32) -> Seq<u8> {
    |x: u32| enc_u32(x)
}

pub open spec fn driver_enc(version: u32) -> spec_fn(DriverModel) -> Seq<u8> {
    |d: DriverModel| enc_driver(d, version)
}

pub open spec fn controller_enc(version: u32) -> spec_fn(ControllerModel) -> Seq<u8> {
    |c: ControllerModel| enc_controller(c, version)
}

pub open spec fn frozen_enc() -> spec_fn(FrozenModel) -> Seq<u8> {
    |f: FrozenModel| enc_frozen(f)
}

pub open spec fn transition_enc() -> spec_fn(TransitionModel) -> Seq<u8> {
    |t: TransitionModel| enc_transition(t)
}

pub open spec fn id_enc() -> spec_fn(AnimationControllerId) -> Seq<u8> {
    |i: AnimationControllerId| enc_u64(i.bits)
}

pub open spec fn enc_u32s(s: Seq<u32>) -> Seq<u8> {
    enc_seq(s, u32_enc())
}

pub open spec fn enc_target(t: TargetModel) -> Seq<u8> {
    match t {
        TargetModel::Property(component, offsets) => enc_u8(0) + enc_u16(component) + enc_count(offsets.len())
            + enc_u32s(offsets),
        TargetModel::Dynamic(component, name) => enc_u8(2) + enc_u16(component) + enc_count(0) + enc_string(name),
    }
}

/// Clip reference of a driver: variant, track and target entity.
pub open spec fn enc_driver_ref(d: DriverModel) -> Seq<u8> {
    enc_u32(d.variant) + enc_u32(d.track) + enc_u64(d.target.bits)
}

/// Blend settings of a driver; the repeat flag exists from version three.
pub open spec fn enc_driver_blend(d: DriverModel, version: u32) -> Seq<u8> {
    enc_u32(d.weight) + enc_bool(d.additive) + enc_u32(d.reference_time) + if version >= 3 {
        enc_bool(d.repeat)
    } else {
        Seq::empty()
    }
}

pub open spec fn enc_driver(d: DriverModel, version: u32) -> Seq<u8> {
    enc_string(d.source) + enc_driver_ref(d) + enc_target(d.property) + enc_driver_blend(d, version)
}

pub open spec fn status_tag(s: AnimationPlaybackStatus) -> u8 {
    match s {
        AnimationPlaybackStatus::Stopped => 0,
        AnimationPlaybackStatus::Playing => 1,
        AnimationPlaybackStatus::Paused => 2,
        AnimationPlaybackStatus::Completed => 3,
    }
}

pub open spec fn easing_tag(e: AnimationTransitionEasing) -> u8 {
    match e {
        AnimationTransitionEasing::Linear => 0,
        AnimationTransitionEasing::Smoothstep => 1,
    }
}

/// Duration, elapsed time, easing and pending flag of a crossfade.
pub open spec fn enc_crossfade(t: AnimationControllerTransitionState) -> Seq<u8> {
    enc_u64(t.duration) + enc_u64(t.elapsed) + enc_u8(easing_tag(t.easing)) + enc_bool(t.pending)
}

pub open spec fn enc_summary(t: Option<AnimationControllerTransitionState>) -> Seq<u8> {
    match t {
        Some(t) => enc_bool(true) + enc_crossfade(t),
        None => enc_bool(false),
    }
}

pub open spec fn enc_clock(c: ControllerModel) -> Seq<u8> {
    enc_u64(c.id.bits) + enc_u8(status_tag(c.state)) + enc_u64(c.time) + enc_u32(c.speed) + enc_bool(c.looping)
}

pub open spec fn enc_versioned_summary(t: Option<AnimationControllerTransitionState>, version: u32) -> Seq<u8> {
    if version >= 4 {
        enc_summary(t)
    } else {
        Seq::empty()
    }
}

pub open spec fn enc_controller(c: ControllerModel, version: u32) -> Seq<u8> {
    enc_clock(c) + enc_versioned_summary(c.transition, version) + enc_count(c.drivers.len()) + enc_seq(
        c.drivers,
        driver_enc(version),
    )
}

pub open spec fn enc_lanes(s: Seq<u32>) -> Seq<u8> {
    enc_u32s(s)
}

pub open spec fn enc_dynamic(v: DynamicValue) -> Seq<u8> {
    match v {
        DynamicValue::F32(x) => enc_u8(0) + enc_u32(x),
        DynamicValue::I32(x) => enc_u8(1) + enc_u32(x as u32),
        DynamicValue::U32(x) => enc_u8(2) + enc_u32(x),
        DynamicValue::Vec2(a) => enc_u8(3) + enc_lanes(a@),
        DynamicValue::Vec3(a) => enc_u8(4) + enc_lanes(a@),
        DynamicValue::Vec4(a) => enc_u8(5) + enc_lanes(a@),
        DynamicValue::Mat2(a) => enc_u8(6) + enc_lanes(a@),
        DynamicValue::Mat3(a) => enc_u8(7) + enc_lanes(a@),
        DynamicValue::Mat4(a) => enc_u8(8) + enc_lanes(a@),
        _ => Seq::empty(),
    }
}

/// Values with a persistent form: single floats, rotations and continuous dynamic values.
pub open spec fn encodable_value(v: AnimationValue) -> bool {
    match v {
        AnimationValue::Field(FieldValue::F32(_)) => true,
        AnimationValue::Rotation(_) => true,
        AnimationValue::Dynamic(d) => !(d is Bool) && !(d is Asset),
        _ => false,
    }
}

pub open spec fn enc_value(v: AnimationValue) -> Seq<u8> {
    match v {
        AnimationValue::Field(FieldValue::F32(x)) => enc_u8(0) + enc_u32(x),
        AnimationValue::Rotation(q) => enc_u8(1) + enc_lanes(q@),
        AnimationValue::Dynamic(d) => enc_u8(3) + enc_dynamic(d),
        _ => Seq::empty(),
    }
}

pub open spec fn enc_frozen(f: FrozenModel) -> Seq<u8> {
    enc_u64(f.target.bits) + enc_target(f.property) + enc_value(f.value) + enc_value(f.baseline)
}

pub open spec fn enc_start(s: AnimationTransitionStartTime) -> Seq<u8> {
    match s {
        AnimationTransitionStartTime::Restart => enc_u8(0),
        AnimationTransitionStartTime::Preserve => enc_u8(1),
        AnimationTransitionStartTime::MatchPhase => enc_u8(2),
        AnimationTransitionStartTime::Seek(t) => enc_u8(3) + enc_u64(t),
    }
}

/// Frozen source body: reference time and duration, binding declarations, then the frozen values.
pub open spec fn enc_frozen_source(values: Seq<FrozenModel>, bindings: ControllerModel, reference_time: u64, reference_duration: u64) -> Seq<u8> {
    enc_u64(reference_time) + enc_u64(reference_duration) + enc_controller(bindings, 4) + (enc_count(values.len())
        + enc_seq(values, frozen_enc()))
}

pub open spec fn enc_source(s: SourceModel) -> Seq<u8> {
    match s {
        SourceModel::Live(c) => enc_u8(0) + enc_controller(c, 4),
        SourceModel::Frozen { values, bindings, reference_time, reference_duration } => enc_u8(1) + enc_frozen_source(
            values,
            bindings,
            reference_time,
            reference_duration,
        ),
    }
}

pub open spec fn enc_transition(t: TransitionModel) -> Seq<u8> {
    enc_u64(t.id.bits) + enc_start(t.start_time) + enc_source(t.source)
}

/// Transitions of a state; they exist from version four.
pub open spec fn enc_transitions_section(m: StateModel, version: u32) -> Seq<u8> {
    if version >= 4 {
        enc_count(m.transitions.len()) + enc_seq(m.transitions, transition_enc())
    } else {
        Seq::empty()
    }
}

/// Directional starts of a state; they exist from version five.
pub open spec fn enc_directional_section(m: StateModel, version: u32) -> Seq<u8> {
    if version >= 5 {
        enc_count(m.directional_starts.len()) + enc_seq(m.directional_starts, id_enc())
    } else {
        Seq::empty()
    }
}

/// The encoding of a state in a format version: controllers, then (from
/// version four) transitions, then (from version five) directional starts.
pub open spec fn enc_state(m: StateModel, version: u32) -> Seq<u8> {
    enc_u64(m.next_id) + enc_count(m.controllers.len()) + enc_seq(m.controllers, controller_enc(version))
        + enc_transitions_section(m, version) + enc_directional_section(m, version)
}

/// Lengths and values with a persistent form.
pub open spec fn encodable_target(t: TargetModel) -> bool {
    match t {
        TargetModel::Property(_, offsets) => offsets.len() <= u32::MAX,
        TargetModel::Dynamic(_, name) => encode_utf8(name).len() <= u32::MAX,
    }
}

pub open spec fn encodable_driver(d: DriverModel) -> bool {
    encode_utf8(d.source).len() <= u32::MAX && encodable_target(d.property)
}

pub open spec fn encodable_controller(c: ControllerModel) -> bool {
    &&& c.drivers.len() <= u32::MAX
    &&& forall|i: int| 0 <= i < c.drivers.len() ==> encodable_driver(#[trigger] c.drivers[i])
}

pub open spec fn encodable_frozen(f: FrozenModel) -> bool {
    encodable_target(f.property) && encodable_value(f.value) && encodable_value(f.baseline)
}

pub open spec fn encodable_transition(t: TransitionModel) -> bool {
    match t.source {
        SourceModel::Live(c) => encodable_controller(c),
        SourceModel::Frozen { values, bindings, .. } => encodable_controller(bindings) && values.len() <= u32::MAX
            && forall|i: int| 0 <= i < values.len() ==> encodable_frozen(#[trigger] values[i]),
    }
}

pub open spec fn encodable_state(m: StateModel) -> bool {
    &&& m.controllers.len() <= u32::MAX
    &&& m.transitions.len() <= u32::MAX
    &&& m.directional_starts.len() <= u32::MAX
    &&& forall|i: int| 0 <= i < m.controllers.len() ==> encodable_controller(#[trigger] m.controllers[i])
    &&& forall|i: int| 0 <= i < m.transitions.len() ==> encodable_transition(#[trigger] m.transitions[i])
}

pub proof fn lemma_enc_u32s_len(s: Seq<u32>)
    ensures
        enc_u32s(s).len() == 4 * s.len(),
    decreases s.len(),
{
    lemma_enc_lens();
    if s.len() > 0 {
        lemma_enc_u32s_len(s.drop_last());
    }
}

/// Shorthand for the writer postcondition of an encoder of `e`.
pub open spec fn wrote(before: Seq<u8>, after: Seq<u8>, max: usize, ok: bool, encodable: bool, e: Seq<u8>) -> bool {
    &&& ok <==> encodable && before.len() + e.len() <= max
    &&& ok ==> after == before + e
}

fn encode_u32s(w: &mut WorldBinaryWriter, s: &[u32]) -> (r: Result<(), String>)
    requires
        old(w).wf(),
    ensures
        final(w).wf(),
        final(w).max_bytes == old(w).max_bytes,
        wrote(old(w).bytes@, final(w).bytes@, old(w).max_bytes, r is Ok, true, enc_u32s(s@)),
{
    let ghost b0 = w.bytes@;
    let mut i: usize = 0;
    proof {
        lemma_enc_u32s_len(s@);
        assert(s@.take(0) =~= Seq::<u32>::empty());
    }
    while i < s.len()
        invariant
            i <= s@.len(),
            w.wf(),
            w.max_bytes == old(w).max_bytes,
            b0 == old(w).bytes@,
            w.bytes@ == b0 + enc_u32s(s@.take(i as int)),
            b0.len() + enc_u32s(s@).len() == b0.len() + 4 * s@.len(),
        decreases s@.len() - i,
    {
        proof {
            assert(s@.take(i + 1) =~= s@.take(i as int).push(s@[i as int]));
            lemma_enc_seq_push(s@.take(i as int), s@[i as int], u32_enc());
            lemma_enc_u32s_len(s@.take(i + 1));
            lemma_enc_lens();
        }
        match w.u32(s[i]) {
            Ok(()) => {},
            Err(e) => {
                return Err(e);
            },
        }
        i = i + 1;
        proof {
            assert(w.bytes@ =~= b0 + enc_u32s(s@.take(i as int)));
        }
    }
    proof {
        assert(s@.take(i as int) =~= s@);
    }
    Ok(())
}

fn encode_target(w: &mut WorldBinaryWriter, t: &AnimationTrackTarget) -> (r: Result<(), String>)
    requires
        old(w).wf(),
    ensures
        final(w).wf(),
        final(w).max_bytes == old(w).max_bytes,
        wrote(old(w).bytes@, final(w).bytes@, old(w).max_bytes, r is Ok, encodable_target(t@), enc_target(t@)),
{
    proof {
        lemma_enc_lens();
    }
    let ghost b0 = w.bytes@;
    match t {
        AnimationTrackTarget::AnimationProperty(p) => {
            proof {
                lemma_enc_u32s_len(p.offsets@);
            }
            w.u8(0)?;
            w.u16(p.component)?;
            w.count(p.offsets.len())?;
            encode_u32s(w, p.offsets.as_slice())?;
            proof {
                assert(w.bytes@ =~= b0 + enc_target(t@));
            }
        },
        AnimationTrackTarget::DynamicProperty { component, name } => {
            w.u8(2)?;
            w.u16(*component)?;
            w.count(0)?;
            w.string(name.as_str())?;
            proof {
                assert(w.bytes@ =~= b0 + enc_target(t@));
            }
        },
    }
    Ok(())
}

fn encode_driver(w: &mut WorldBinaryWriter, d: &AnimationDriverDescription, version: u32) -> (r: Result<(), String>)
    requires
        old(w).wf(),
    ensures
        final(w).wf(),
        final(w).max_bytes == old(w).max_bytes,
        wrote(old(w).bytes@, final(w).bytes@, old(w).max_bytes, r is Ok, encodable_driver(d@), enc_driver(d@, version)),
{
    proof {
        lemma_enc_lens();
    }
    let ghost b0 = w.bytes@;
    w.string(d.source.as_str())?;
    encode_driver_ref(w, d)?;
    encode_target(w, &d.property)?;
    encode_driver_blend(w, d, version)?;
    proof {
        assert(w.bytes@ =~= b0 + enc_driver(d@, version));
    }
    Ok(())
}

fn encode_driver_ref(w: &mut WorldBinaryWriter, d: &AnimationDriverDescription) -> (r: Result<(), String>)
    requires
        old(w).wf(),
    ensures
        final(w).wf(),
        final(w).max_bytes == old(w).max_bytes,
        wrote(old(w).bytes@, final(w).bytes@, old(w).max_bytes, r is Ok, true, enc_driver_ref(d@)),
{
    proof {
        lemma_enc_lens();
    }
    let ghost b0 = w.bytes@;
    w.u32(d.variant)?;
    w.u32(d.track)?;
    w.u64(d.target.bits)?;
    proof {
        assert(w.bytes@ =~= b0 + enc_driver_ref(d@));
    }
    Ok(())
}

fn encode_driver_blend(w: &mut WorldBinaryWriter, d: &AnimationDriverDescription, version: u32) -> (r: Result<(), String>)
    requires
        old(w).wf(),
    ensures
        final(w).wf(),
        final(w).max_bytes == old(w).max_bytes,
        wrote(old(w).bytes@, final(w).bytes@, old(w).max_bytes, r is Ok, true, enc_driver_blend(d@, version)),
{
    proof {
        lemma_enc_lens();
    }
    let ghost b0 = w.bytes@;
    w.u32(d.weight)?;
    w.boolean(d.additive)?;
    w.u32(d.reference_time)?;
    if version >= 3 {
        w.boolean(d.repeat)?;
    }
    proof {
        assert(w.bytes@ =~= b0 + enc_driver_blend(d@, version));
    }
    Ok(())
}

fn encode_drivers(w: &mut WorldBinaryWriter, ds: &Vec<AnimationDriverDescription>, version: u32) -> (r: Result<(), String>)
    requires
        old(w).wf(),
    ensures
        final(w).wf(),
        final(w).max_bytes == old(w).max_bytes,
        wrote(
            old(w).bytes@,
            final(w).bytes@,
            old(w).max_bytes,
            r is Ok,
            forall|i: int| 0 <= i < ds@.len() ==> encodable_driver(#[trigger] driver_models(ds@)[i]),
            enc_seq(driver_models(ds@), driver_enc(version)),
        ),
{
    let ghost b0 = w.bytes@;
    let ghost ms = driver_models(ds@);
    let mut i: usize = 0;
    proof {
        assert(ms.take(0) =~= Seq::<DriverModel>::empty());
    }
    while i < ds.len()
        invariant
            i <= ds@.len(),
            ms == driver_models(ds@),
            w.wf(),
            w.max_bytes == old(w).max_bytes,
            b0 == old(w).bytes@,
            w.bytes@ == b0 + enc_seq(ms.take(i as int), driver_enc(version)),
            forall|k: int| 0 <= k < i ==> encodable_driver(#[trigger] ms[k]),
        decreases ds@.len() - i,
    {
        proof {
            assert(ms.take(i + 1) =~= ms.take(i as int).push(ms[i as int]));
            lemma_enc_seq_push(ms.take(i as int), ms[i as int], driver_enc(version));
            lemma_enc_seq_prefix(ms, i + 1, driver_enc(version));
        }
        match encode_driver(w, &ds[i], version) {
            Ok(()) => {},
            Err(e) => {
                return Err(e);
            },
        }
        i = i + 1;
    }
    proof {
        assert(ms.take(i as int) =~= ms);
    }
    Ok(())
}

fn encode_clock(w: &mut WorldBinaryWriter, c: &AnimationControllerSnapshot) -> (r: Result<(), String>)
    requires
        old(w).wf(),
    ensures
        final(w).wf(),
        final(w).max_bytes == old(w).max_bytes,
        wrote(old(w).bytes@, final(w).bytes@, old(w).max_bytes, r is Ok, true, enc_clock(c@)),
{
    proof {
        lemma_enc_lens();
    }
    let ghost b0 = w.bytes@;
    w.u64(c.id.bits)?;
    let tag: u8 = match c.state {
        AnimationPlaybackStatus::Stopped => 0,
        AnimationPlaybackStatus::Playing => 1,
        AnimationPlaybackStatus::Paused => 2,
        AnimationPlaybackStatus::Completed => 3,
    };
    w.u8(tag)?;
    w.u64(c.time)?;
    w.u32(c.description.speed)?;
    w.boolean(c.description.looping)?;
    proof {
        assert(w.bytes@ =~= b0 + enc_clock(c@));
    }
    Ok(())
}

fn encode_summary(w: &mut WorldBinaryWriter, t: Option<AnimationControllerTransitionState>, version: u32) -> (r: Result<(), String>)
    requires
        old(w).wf(),
    ensures
        final(w).wf(),
        final(w).max_bytes == old(w).max_bytes,
        wrote(old(w).bytes@, final(w).bytes@, old(w).max_bytes, r is Ok, true, enc_versioned_summary(t, version)),
{
    proof {
        lemma_enc_lens();
    }
    let ghost b0 = w.bytes@;
    if version >= 4 {
        match t {
            Some(t) => {
                w.boolean(true)?;
                w.u64(t.duration)?;
                w.u64(t.elapsed)?;
                let easing: u8 = match t.easing {
                    AnimationTransitionEasing::Linear => 0,
                    AnimationTransitionEasing::Smoothstep => 1,
                };
                w.u8(easing)?;
                w.boolean(t.pending)?;
            },
            None => {
                w.boolean(false)?;
            },
        }
    }
    proof {
        assert(w.bytes@ =~= b0 + enc_versioned_summary(t, version));
    }
    Ok(())
}

fn encode_controller(w: &mut WorldBinaryWriter, c: &AnimationControllerSnapshot, version: u32) -> (r: Result<(), String>)
    requires
        old(w).wf(),
    ensures
        final(w).wf(),
        final(w).max_bytes == old(w).max_bytes,
        wrote(
            old(w).bytes@,
            final(w).bytes@,
            old(w).max_bytes,
            r is Ok,
            encodable_controller(c@),
            enc_controller(c@, version),
        ),
{
    proof {
        lemma_enc_lens();
    }
    let ghost b0 = w.bytes@;
    encode_clock(w, c)?;
    encode_summary(w, c.transition, version)?;
    w.count(c.description.drivers.len())?;
    encode_drivers(w, &c.description.drivers, version)?;
    proof {
        assert(w.bytes@ =~= b0 + enc_controller(c@, version));
    }
    Ok(())
}

fn encode_dynamic(w: &mut WorldBinaryWriter, v: &DynamicValue) -> (r: Result<(), String>)
    requires
        old(w).wf(),
    ensures
        final(w).wf(),
        final(w).max_bytes == old(w).max_bytes,
        wrote(
            old(w).bytes@,
            final(w).bytes@,
            old(w).max_bytes,
            r is Ok,
            !(*v is Bool) && !(*v is Asset),
            enc_dynamic(*v),
        ),
{
    proof {
        lemma_enc_lens();
    }
    let ghost b0 = w.bytes@;
    match v {
        DynamicValue::F32(x) => {
            w.u8(0)?;
            w.u32(*x)?;
        },
        DynamicValue::I32(x) => {
            w.u8(1)?;
            w.u32(*x as u32)?;
        },
        DynamicValue::U32(x) => {
            w.u8(2)?;
            w.u32(*x)?;
        },
        DynamicValue::Vec2(a) => {
            w.u8(3)?;
            encode_u32s(w, a.as_slice())?;
        },
        DynamicValue::Vec3(a) => {
            w.u8(4)?;
            encode_u32s(w, a.as_slice())?;
        },
        DynamicValue::Vec4(a) => {
            w.u8(5)?;
            encode_u32s(w, a.as_slice())?;
        },
        DynamicValue::Mat2(a) => {
            w.u8(6)?;
            encode_u32s(w, a.as_slice())?;
        },
        DynamicValue::Mat3(a) => {
            w.u8(7)?;
            encode_u32s(w, a.as_slice())?;
        },
        DynamicValue::Mat4(a) => {
            w.u8(8)?;
            encode_u32s(w, a.as_slice())?;
        },
        _ => {
            return Err("Discrete frozen transition value".to_owned());
        },
    }
    proof {
        assert(w.bytes@ =~= b0 + enc_dynamic(*v));
    }
    Ok(())
}

fn encode_value(w: &mut WorldBinaryWriter, v: &AnimationValue) -> (r: Result<(), String>)
    requires
        old(w).wf(),
    ensures
        final(w).wf(),
        final(w).max_bytes == old(w).max_bytes,
        wrote(old(w).bytes@, final(w).bytes@, old(w).max_bytes, r is Ok, encodable_value(*v), enc_value(*v)),
{
    proof {
        lemma_enc_lens();
    }
    let ghost b0 = w.bytes@;
    match v {
        AnimationValue::Field(FieldValue::F32(x)) => {
            w.u8(0)?;
            w.u32(*x)?;
        },
        AnimationValue::Rotation(q) => {
            w.u8(1)?;
            encode_u32s(w, q.as_slice())?;
        },
        AnimationValue::Dynamic(d) => {
            w.u8(3)?;
            encode_dynamic(w, d)?;
        },
        _ => {
            return Err("Unsupported frozen transition value".to_owned());
        },
    }
    proof {
        assert(w.bytes@ =~= b0 + enc_value(*v));
    }
    Ok(())
}

fn encode_frozen(w: &mut WorldBinaryWriter, f: &AnimationFrozenTransitionValue) -> (r: Result<(), String>)
    requires
        old(w).wf(),
    ensures
        final(w).wf(),
        final(w).max_bytes == old(w).max_bytes,
        wrote(old(w).bytes@, final(w).bytes@, old(w).max_bytes, r is Ok, encodable_frozen(f@), enc_frozen(f@)),
{
    proof {
        lemma_enc_lens();
    }
    let ghost b0 = w.bytes@;
    w.u64(f.target.bits)?;
    encode_target(w, &f.property)?;
    encode_value(w, &f.value)?;
    encode_value(w, &f.baseline)?;
    proof {
        assert(w.bytes@ =~= b0 + enc_frozen(f@));
    }
    Ok(())
}

fn encode_frozens(w: &mut WorldBinaryWriter, vs: &Vec<AnimationFrozenTransitionValue>) -> (r: Result<(), String>)
    requires
        old(w).wf(),
    ensures
        final(w).wf(),
        final(w).max_bytes == old(w).max_bytes,
        wrote(
            old(w).bytes@,
            final(w).bytes@,
            old(w).max_bytes,
            r is Ok,
            forall|i: int| 0 <= i < vs@.len() ==> encodable_frozen(#[trigger] frozen_models(vs@)[i]),
            enc_seq(frozen_models(vs@), frozen_enc()),
        ),
{
    let ghost b0 = w.bytes@;
    let ghost ms = frozen_models(vs@);
    let mut i: usize = 0;
    proof {
        assert(ms.take(0) =~= Seq::<FrozenModel>::empty());
    }
    while i < vs.len()
        invariant
            i <= vs@.len(),
            ms == frozen_models(vs@),
            w.wf(),
            w.max_bytes == old(w).max_bytes,
            b0 == old(w).bytes@,
            w.bytes@ == b0 + enc_seq(ms.take(i as int), frozen_enc()),
            forall|k: int| 0 <= k < i ==> encodable_frozen(#[trigger] ms[k]),
        decreases vs@.len() - i,
    {
        proof {
            assert(ms.take(i + 1) =~= ms.take(i as int).push(ms[i as int]));
            lemma_enc_seq_push(ms.take(i as int), ms[i as int], frozen_enc());
            lemma_enc_seq_prefix(ms, i + 1, frozen_enc());
        }
        match encode_frozen(w, &vs[i]) {
            Ok(()) => {},
            Err(e) => {
                return Err(e);
            },
        }
        i = i + 1;
    }
    proof {
        assert(ms.take(i as int) =~= ms);
    }
    Ok(())
}

fn encode_start(w: &mut WorldBinaryWriter, start: AnimationTransitionStartTime) -> (r: Result<(), String>)
    requires
        old(w).wf(),
    ensures
        final(w).wf(),
        final(w).max_bytes == old(w).max_bytes,
        wrote(old(w).bytes@, final(w).bytes@, old(w).max_bytes, r is Ok, true, enc_start(start)),
{
    proof {
        lemma_enc_lens();
    }
    let ghost b0 = w.bytes@;
    match start {
        AnimationTransitionStartTime::Restart => {
            w.u8(0)?;
        },
        AnimationTransitionStartTime::Preserve => {
            w.u8(1)?;
        },
        AnimationTransitionStartTime::MatchPhase => {
            w.u8(2)?;
        },
        AnimationTransitionStartTime::Seek(time) => {
            w.u8(3)?;
            w.u64(time)?;
        },
    }
    proof {
        assert(w.bytes@ =~= b0 + enc_start(start));
    }
    Ok(())
}

fn encode_source(w: &mut WorldBinaryWriter, t: &AnimationPersistentTransition) -> (r: Result<(), String>)
    requires
        old(w).wf(),
    ensures
        final(w).wf(),
        final(w).max_bytes == old(w).max_bytes,
        wrote(
            old(w).bytes@,
            final(w).bytes@,
            old(w).max_bytes,
            r is Ok,
            encodable_transition(t@),
            enc_source(t@.source),
        ),
{
    proof {
        lemma_enc_lens();
    }
    let ghost b0 = w.bytes@;
    match &t.source {
        AnimationPersistentTransitionSource::Live(source) => {
            w.u8(0)?;
            encode_controller(w, source, 4)?;
        },
        AnimationPersistentTransitionSource::Frozen { values, bindings, reference_time, reference_duration } => {
            w.u8(1)?;
            w.u64(*reference_time)?;
            w.u64(*reference_duration)?;
            encode_controller(w, bindings, 4)?;
            w.count(values.len())?;
            encode_frozens(w, values)?;
        },
    }
    proof {
        assert(w.bytes@ =~= b0 + enc_source(t@.source));
    }
    Ok(())
}

fn encode_transition(w: &mut WorldBinaryWriter, t: &AnimationPersistentTransition) -> (r: Result<(), String>)
    requires
        old(w).wf(),
    ensures
        final(w).wf(),
        final(w).max_bytes == old(w).max_bytes,
        wrote(
            old(w).bytes@,
            final(w).bytes@,
            old(w).max_bytes,
            r is Ok,
            encodable_transition(t@),
            enc_transition(t@),
        ),
{
    proof {
        lemma_enc_lens();
    }
    let ghost b0 = w.bytes@;
    w.u64(t.id.bits)?;
    encode_start(w, t.start_time)?;
    encode_source(w, t)?;
    proof {
        assert(w.bytes@ =~= b0 + enc_transition(t@));
    }
    Ok(())
}

fn encode_controllers(w: &mut WorldBinaryWriter, cs: &Vec<AnimationControllerSnapshot>) -> (r: Result<(), String>)
    requires
        old(w).wf(),
    ensures
        final(w).wf(),
        final(w).max_bytes == old(w).max_bytes,
        wrote(
            old(w).bytes@,
            final(w).bytes@,
            old(w).max_bytes,
            r is Ok,
            forall|i: int| 0 <= i < cs@.len() ==> encodable_controller(#[trigger] controller_models(cs@)[i]),
            enc_seq(controller_models(cs@), controller_enc(5)),
        ),
{
    let ghost b0 = w.bytes@;
    let ghost ms = controller_models(cs@);
    let mut i: usize = 0;
    proof {
        assert(ms.take(0) =~= Seq::<ControllerModel>::empty());
    }
    while i < cs.len()
        invariant
            i <= cs@.len(),
            ms == controller_models(cs@),
            w.wf(),
            w.max_bytes == old(w).max_bytes,
            b0 == old(w).bytes@,
            w.bytes@ == b0 + enc_seq(ms.take(i as int), controller_enc(5)),
            forall|k: int| 0 <= k < i ==> encodable_controller(#[trigger] ms[k]),
        decreases cs@.len() - i,
    {
        proof {
            assert(ms.take(i + 1) =~= ms.take(i as int).push(ms[i as int]));
            lemma_enc_seq_push(ms.take(i as int), ms[i as int], controller_enc(5));
            lemma_enc_seq_prefix(ms, i + 1, controller_enc(5));
        }
        match encode_controller(w, &cs[i], 5) {
            Ok(()) => {},
            Err(e) => {
                return Err(e);
            },
        }
        i = i + 1;
    }
    proof {
        assert(ms.take(i as int) =~= ms);
    }
    Ok(())
}

fn encode_transitions(w: &mut WorldBinaryWriter, ts: &Vec<AnimationPersistentTransition>) -> (r: Result<(), String>)
    requires
        old(w).wf(),
    ensures
        final(w).wf(),
        final(w).max_bytes == old(w).max_bytes,
        wrote(
            old(w).bytes@,
            final(w).bytes@,
            old(w).max_bytes,
            r is Ok,
            forall|i: int| 0 <= i < ts@.len() ==> encodable_transition(#[trigger] transition_models(ts@)[i]),
            enc_seq(transition_models(ts@), transition_enc()),
        ),
{
    let ghost b0 = w.bytes@;
    let ghost ms = transition_models(ts@);
    let mut i: usize = 0;
    proof {
        assert(ms.take(0) =~= Seq::<TransitionModel>::empty());
    }
    while i < ts.len()
        invariant
            i <= ts@.len(),
            ms == transition_models(ts@),
            w.wf(),
            w.max_bytes == old(w).max_bytes,
            b0 == old(w).bytes@,
            w.bytes@ == b0 + enc_seq(ms.take(i as int), transition_enc()),
            forall|k: int| 0 <= k < i ==> encodable_transition(#[trigger] ms[k]),
        decreases ts@.len() - i,
    {
        proof {
            assert(ms.take(i + 1) =~= ms.take(i as int).push(ms[i as int]));
            lemma_enc_seq_push(ms.take(i as int), ms[i as int], transition_enc());
            lemma_enc_seq_prefix(ms, i + 1, transition_enc());
        }
        match encode_transition(w, &ts[i]) {
            Ok(()) => {},
            Err(e) => {
                return Err(e);
            },
        }
        i = i + 1;
    }
    proof {
        assert(ms.take(i as int) =~= ms);
    }
    Ok(())
}

fn encode_ids(w: &mut WorldBinaryWriter, ids: &Vec<AnimationControllerId>) -> (r: Result<(), String>)
    requires
        old(w).wf(),
    ensures
        final(w).wf(),
        final(w).max_bytes == old(w).max_bytes,
        wrote(old(w).bytes@, final(w).bytes@, old(w).max_bytes, r is Ok, true, enc_seq(ids@, id_enc())),
{
    let ghost b0 = w.bytes@;
    let mut i: usize = 0;
    proof {
        assert(ids@.take(0) =~= Seq::<AnimationControllerId>::empty());
        lemma_enc_lens();
    }
    while i < ids.len()
        invariant
            i <= ids@.len(),
            w.wf(),
            w.max_bytes == old(w).max_bytes,
            b0 == old(w).bytes@,
            w.bytes@ == b0 + enc_seq(ids@.take(i as int), id_enc()),
        decreases ids@.len() - i,
    {
        proof {
            assert(ids@.take(i + 1) =~= ids@.take(i as int).push(ids@[i as int]));
            lemma_enc_seq_push(ids@.take(i as int), ids@[i as int], id_enc());
            lemma_enc_seq_prefix(ids@, i + 1, id_enc());
            lemma_enc_lens();
        }
        match w.u64(ids[i].bits) {
            Ok(()) => {},
            Err(e) => {
                return Err(e);
            },
        }
        i = i + 1;
    }
    proof {
        assert(ids@.take(i as int) =~= ids@);
    }
    Ok(())
}

/// Append the version five encoding of a state.
pub fn encode_state(w: &mut WorldBinaryWriter, state: &AnimationPersistentState) -> (r: Result<(), String>)
    requires
        old(w).wf(),
    ensures
        final(w).wf(),
        final(w).max_bytes == old(w).max_bytes,
        wrote(
            old(w).bytes@,
            final(w).bytes@,
            old(w).max_bytes,
            r is Ok,
            encodable_state(state@),
            enc_state(state@, 5),
        ),
{
    proof {
        lemma_enc_lens();
    }
    let ghost b0 = w.bytes@;
    w.u64(state.next_id)?;
    w.count(state.controllers.len())?;
    encode_controllers(w, &state.controllers)?;
    w.count(state.transitions.len())?;
    encode_transitions(w, &state.transitions)?;
    w.count(state.directional_starts.len())?;
    encode_ids(w, &state.directional_starts)?;
    proof {
        assert(w.bytes@ =~= b0 + enc_state(state@, 5));
    }
    Ok(())
}

} // verus!
