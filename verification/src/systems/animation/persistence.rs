//! Persistent animation state as bytes: a format version, then the state in
//! that version's encoding. Encoding writes the current version; decoding
//! reads every version and keeps only states that satisfy the semantic rules.

use crate::systems::animation::{
    AnimationDriverDescription, AnimationFrozenTransitionValue, AnimationPersistentState,
    AnimationPersistentTransitionSource,
};
use crate::world::ComponentValue;
use crate::systems::animation::binary::{WorldBinaryReader, WorldBinaryWriter, enc_u32, lemma_enc_lens, lemma_u32_inj, splits};
use crate::systems::animation::codec::{
    driver_models, enc_state, encodable_controller, encodable_driver, encodable_frozen, encodable_state,
    encodable_transition, encode_state, frozen_models, ControllerModel, DriverModel, FrozenModel, SourceModel, StateModel,
    TargetModel,
};
use crate::systems::animation::decoder::{
    lemma_state_inj, claim_state, dec_controller, dec_driver, dec_frozen, dec_state, dec_transition, decode_state, frozen_read, source_read,
    state_read,
};
use crate::systems::animation::validation::{
    validate_values, valid_controller, valid_driver, valid_frozen, valid_state, valid_transition,
};
use vstd::prelude::*;

verus! {

/// Format version written by `encode`.
pub const CURRENT_VERSION: u32 = 5;

/// `bytes` is what `encode` writes for the state `m` within `max_bytes`.
pub open spec fn encodes_to(m: StateModel, max_bytes: usize, bytes: Seq<u8>) -> bool {
    &&& valid_state(m)
    &&& encodable_state(m)
    &&& bytes == enc_u32(CURRENT_VERSION) + enc_state(m, CURRENT_VERSION)
    &&& bytes.len() <= max_bytes
}

/// `bytes` is the encoding of the valid state `m` in a supported version
/// that the decoder can rebuild within the budget `max_bytes`.
pub open spec fn decodes_to(bytes: Seq<u8>, max_bytes: usize, m: StateModel) -> bool {
    &&& bytes.len() <= max_bytes
    &&& valid_state(m)
    &&& exists|v: u32| 1 <= v <= CURRENT_VERSION && bytes == enc_u32(v) + enc_state(m, v) && #[trigger] dec_state(m, v)
        && claim_state(m, v) <= max_bytes
}

impl AnimationPersistentState {
    /// Encode this subsystem's versioned controller descriptions and clocks.
    /// Succeeds exactly for valid states whose encoding fits `max_bytes`.
    pub fn encode(&self, max_bytes: usize) -> (r: Result<Vec<u8>, String>)
        ensures
            r is Ok <==> valid_state(self@) && encodable_state(self@) && 4 + enc_state(self@, CURRENT_VERSION).len()
                <= max_bytes,
            r matches Ok(b) ==> encodes_to(self@, max_bytes, b@),
    {
        validate_values(self)?;
        let mut w = WorldBinaryWriter::new(max_bytes);
        w.u32(CURRENT_VERSION)?;
        proof {
            lemma_enc_lens();
        }
        encode_state(&mut w, self)?;
        proof {
            assert(w.bytes@ =~= enc_u32(CURRENT_VERSION) + enc_state(self@, CURRENT_VERSION));
        }
        Ok(w.bytes)
    }

    /// Decode bounded controller state in any supported version. Succeeds
    /// only on the encoding of a valid state within the byte limit and the
    /// allocation budget, and on every such encoding the decoder can rebuild,
    /// with exactly that state.
    #[verifier::spinoff_prover]
    #[verifier::rlimit(40)]
    pub fn decode(bytes: &[u8], max_bytes: usize) -> (r: Result<Self, String>)
        ensures
            bytes@.len() > max_bytes ==> r is Err,
            forall|v: u32, tail: Seq<u8>| #[trigger] splits(bytes@, enc_u32(v), tail) && !(1 <= v <= CURRENT_VERSION)
                ==> r is Err,
            r matches Ok(s) ==> decodes_to(bytes@, max_bytes, s@),
            forall|m: StateModel| #[trigger] decodes_to(bytes@, max_bytes, m) ==> (r matches Ok(s) && s@ == m),
    {
        if bytes.len() > max_bytes {
            return Err("Animation state byte budget exhausted".to_owned());
        }
        let mut rd = WorldBinaryReader::new(bytes, max_bytes);
        let read = rd.u32();
        proof {
            assert forall|m: StateModel| #[trigger] decodes_to(bytes@, max_bytes, m) implies read == Ok::<u32, String>(
                version_of(bytes@, max_bytes, m),
            ) && splits(rd.rest(), enc_state(m, version_of(bytes@, max_bytes, m)), Seq::empty()) by {
                lemma_decodes_to_parts(bytes@, max_bytes, m);
            }
        }
        let version = match read {
            Ok(v) => v,
            Err(e) => {
                return Err(e);
            },
        };
        if version < 1 || version > CURRENT_VERSION {
            return Err("Unsupported animation state version".to_owned());
        }
        let ghost r1 = rd.rest();
        let decoded = decode_state(&mut rd, version);
        let state = match decoded {
            Ok(s) => s,
            Err(e) => {
                proof {
                    assert forall|m: StateModel| #[trigger] decodes_to(bytes@, max_bytes, m) implies false by {
                        lemma_decodes_to_parts(bytes@, max_bytes, m);
                    }
                }
                return Err(e);
            },
        };
        let e = rd.end();
        if e.is_err() {
            proof {
                assert forall|m: StateModel| #[trigger] decodes_to(bytes@, max_bytes, m) implies false by {
                    lemma_decodes_to_parts(bytes@, max_bytes, m);
                }
            }
            return Err("Trailing world state bytes".to_owned());
        }
        validate_values(&state)?;
        proof {
            assert(bytes@ =~= enc_u32(version) + enc_state(state@, version));
            lemma_read_valid_decodable(state@, version);
            assert(decodes_to(bytes@, max_bytes, state@));
            assert forall|m: StateModel| #[trigger] decodes_to(bytes@, max_bytes, m) implies state@ == m by {
                lemma_decodes_to_parts(bytes@, max_bytes, m);
            }
        }
        Ok(state)
    }
}

/// The version in which `decodes_to` reads a state.
pub open spec fn version_of(bytes: Seq<u8>, max_bytes: usize, m: StateModel) -> u32 {
    choose|v: u32| 1 <= v <= CURRENT_VERSION && bytes == enc_u32(v) + enc_state(m, v) && #[trigger] dec_state(m, v)
        && claim_state(m, v) <= max_bytes
}

proof fn lemma_decodes_to_parts(bytes: Seq<u8>, max_bytes: usize, m: StateModel)
    requires
        decodes_to(bytes, max_bytes, m),
    ensures
        1 <= version_of(bytes, max_bytes, m) <= CURRENT_VERSION,
        splits(bytes, enc_u32(version_of(bytes, max_bytes, m)), enc_state(m, version_of(bytes, max_bytes, m))),
        splits(enc_state(m, version_of(bytes, max_bytes, m)), enc_state(m, version_of(bytes, max_bytes, m)), Seq::empty()),
        dec_state(m, version_of(bytes, max_bytes, m)),
        claim_state(m, version_of(bytes, max_bytes, m)) <= max_bytes,
        valid_state(m),
        bytes.len() <= max_bytes,
{
    let v = version_of(bytes, max_bytes, m);
    assert(enc_state(m, v) =~= enc_state(m, v) + Seq::<u8>::empty());
}

/// A state the decoder read that satisfies the semantic rules is one it
/// rebuilds: frozen values of valid states name at least one offset.
pub proof fn lemma_read_valid_decodable(m: StateModel, version: u32)
    requires
        state_read(m, version),
        valid_state(m),
    ensures
        dec_state(m, version),
{
    assert forall|k: int| 0 <= k < m.transitions.len() implies dec_transition(#[trigger] m.transitions[k]) by {
        let t = m.transitions[k];
        assert(source_read(t.source));
        assert(valid_transition(t));
        match t.source {
            SourceModel::Live(c) => {},
            SourceModel::Frozen { values, bindings, .. } => {
                assert forall|i: int| 0 <= i < values.len() implies dec_frozen(#[trigger] values[i]) by {
                    assert(frozen_read(values[i]));
                    assert(valid_frozen(values[i]));
                }
            },
        }
    }
}

/// A valid controller with a persistent form can be rebuilt by the decoder
/// in a version that holds transition summaries.
proof fn lemma_valid_controller_decodable(c: ControllerModel, allow_transition: bool, id: u64, version: u32)
    requires
        valid_controller(c, allow_transition, id),
        encodable_controller(c),
        version >= 4,
    ensures
        dec_controller(c, version),
{
    assert forall|j: int| 0 <= j < c.drivers.len() implies dec_driver(#[trigger] c.drivers[j], version) by {
        assert(valid_driver(c.drivers[j]));
        assert(encodable_driver(c.drivers[j]));
    }
}

/// A valid state with a persistent form can be rebuilt by the decoder in the
/// current version.
pub proof fn lemma_valid_state_decodable(m: StateModel)
    requires
        valid_state(m),
        encodable_state(m),
    ensures
        dec_state(m, CURRENT_VERSION),
{
    assert forall|i: int| 0 <= i < m.controllers.len() implies dec_controller(#[trigger] m.controllers[i], CURRENT_VERSION) by {
        assert(valid_controller(m.controllers[i], true, m.controllers[i].id.bits));
        assert(encodable_controller(m.controllers[i]));
        lemma_valid_controller_decodable(m.controllers[i], true, m.controllers[i].id.bits, CURRENT_VERSION);
    }
    assert forall|k: int| 0 <= k < m.transitions.len() implies dec_transition(#[trigger] m.transitions[k]) by {
        let t = m.transitions[k];
        assert(valid_transition(t));
        assert(encodable_transition(t));
        match t.source {
            SourceModel::Live(c) => {
                lemma_valid_controller_decodable(c, false, t.id.bits, 4);
            },
            SourceModel::Frozen { values, bindings, .. } => {
                lemma_valid_controller_decodable(bindings, false, t.id.bits, 4);
                assert forall|i: int| 0 <= i < values.len() implies dec_frozen(#[trigger] values[i]) by {
                    assert(valid_frozen(values[i]));
                    assert(encodable_frozen(values[i]));
                }
            },
        }
    }
}

/// Round trip: the bytes `encode` writes for a state decode back to that
/// state, whenever the decoder's allocation claim for it fits the budget.
pub proof fn lemma_encode_decode_round_trip(m: StateModel, max_bytes: usize, bytes: Seq<u8>)
    requires
        encodes_to(m, max_bytes, bytes),
        claim_state(m, CURRENT_VERSION) <= max_bytes,
    ensures
        decodes_to(bytes, max_bytes, m),
{
    lemma_valid_state_decodable(m);
    assert(dec_state(m, CURRENT_VERSION));
}

/// Unambiguous format: one byte string decodes to at most one state.
pub proof fn lemma_decoding_unambiguous(bytes: Seq<u8>, max_bytes: usize, a: StateModel, b: StateModel)
    requires
        decodes_to(bytes, max_bytes, a),
        decodes_to(bytes, max_bytes, b),
    ensures
        a == b,
{
    lemma_decodes_to_parts(bytes, max_bytes, a);
    lemma_decodes_to_parts(bytes, max_bytes, b);
    let va = version_of(bytes, max_bytes, a);
    let vb = version_of(bytes, max_bytes, b);
    lemma_u32_inj(va, enc_state(a, va), vb, enc_state(b, vb));
    assert(enc_state(a, va) + Seq::<u8>::empty() =~= enc_state(b, va) + Seq::<u8>::empty());
    lemma_state_inj(a, Seq::empty(), b, Seq::empty(), va);
}

/// A current-version decoding of a state with a persistent form re-encodes
/// to the same bytes.
pub proof fn lemma_decode_encode_round_trip(m: StateModel, max_bytes: usize, bytes: Seq<u8>)
    requires
        decodes_to(bytes, max_bytes, m),
        bytes.subrange(0, 4) == enc_u32(CURRENT_VERSION),
        encodable_state(m),
    ensures
        encodes_to(m, max_bytes, bytes),
{
    lemma_enc_lens();
    let v = choose|v: u32| 1 <= v <= CURRENT_VERSION && bytes == enc_u32(v) + enc_state(m, v) && #[trigger] dec_state(m, v)
        && claim_state(m, v) <= max_bytes;
    assert(bytes.subrange(0, 4) =~= enc_u32(v));
    lemma_u32_inj(v, Seq::empty(), CURRENT_VERSION, Seq::empty());
}

// ---- Durable targets against a captured entity set ----
/// One captured authored entity: its durable identity and its components.
pub struct WorldSerializedEntity {
    pub persistent_id: u64,
    pub components: Vec<ComponentValue>,
}

/// Position of the capture that answers for a durable identity: the last
/// one carrying it, as later captures replace earlier ones.
pub open spec fn captured_at(es: Seq<WorldSerializedEntity>, id: u64) -> Option<int>
    decreases es.len(),
{
    if es.len() == 0 {
        None
    } else if es.last().persistent_id == id {
        Some(es.len() - 1)
    } else {
        captured_at(es.drop_last(), id)
    }
}

/// The capture answering for `id` holds a component of type `component`.
pub open spec fn captured_with(es: Seq<WorldSerializedEntity>, id: u64, component: u16) -> bool {
    &&& captured_at(es, id) is Some
    &&& has_component(es[captured_at(es, id)->0].components@, component)
}

/// Some component of a list has a type.
pub open spec fn has_component(cs: Seq<ComponentValue>, component: u16) -> bool {
    exists|j: int| 0 <= j < cs.len() && (#[trigger] cs[j]).type_id == component
}

/// Component type a target addresses.
pub open spec fn target_component(t: TargetModel) -> u16 {
    match t {
        TargetModel::Dynamic(c, _) => c,
        TargetModel::Property(c, _) => c,
    }
}

/// Every driver's target entity is captured with the driven component.
pub open spec fn drivers_captured(es: Seq<WorldSerializedEntity>, ds: Seq<DriverModel>) -> bool {
    forall|i: int| 0 <= i < ds.len() ==> captured_with(es, (#[trigger] ds[i]).target.bits, target_component(ds[i].property))
}

/// Every durable target of a state is captured with its component: the
/// drivers of each controller, of each live source and of each frozen
/// binding declaration, and each frozen value.
pub open spec fn entities_captured(m: StateModel, es: Seq<WorldSerializedEntity>) -> bool {
    &&& forall|i: int| 0 <= i < m.controllers.len() ==> drivers_captured(es, (#[trigger] m.controllers[i]).drivers)
    &&& forall|k: int| 0 <= k < m.transitions.len() ==> match (#[trigger] m.transitions[k]).source {
        SourceModel::Live(c) => drivers_captured(es, c.drivers),
        SourceModel::Frozen { values, bindings, .. } => drivers_captured(es, bindings.drivers) && forall|v: int|
            0 <= v < values.len() ==> captured_with(es, (#[trigger] values[v]).target.bits, target_component(values[v].property)),
    }
}

/// Some target of a driver list has no captured entity.
pub open spec fn driver_entity_missing(es: Seq<WorldSerializedEntity>, ds: Seq<DriverModel>) -> bool {
    exists|i: int| 0 <= i < ds.len() && captured_at(es, (#[trigger] ds[i]).target.bits) is None
}

/// Some target of a driver list is captured without the driven component.
pub open spec fn driver_component_missing(es: Seq<WorldSerializedEntity>, ds: Seq<DriverModel>) -> bool {
    exists|i: int|
        0 <= i < ds.len() && captured_at(es, (#[trigger] ds[i]).target.bits) is Some && !captured_with(
            es,
            ds[i].target.bits,
            target_component(ds[i].property),
        )
}

/// Some frozen value's target has no captured entity.
pub open spec fn frozen_entity_missing(es: Seq<WorldSerializedEntity>, vs: Seq<FrozenModel>) -> bool {
    exists|i: int| 0 <= i < vs.len() && captured_at(es, (#[trigger] vs[i]).target.bits) is None
}

/// Some frozen value's target is captured without the addressed component.
pub open spec fn frozen_component_missing(es: Seq<WorldSerializedEntity>, vs: Seq<FrozenModel>) -> bool {
    exists|i: int|
        0 <= i < vs.len() && captured_at(es, (#[trigger] vs[i]).target.bits) is Some && !captured_with(
            es,
            vs[i].target.bits,
            target_component(vs[i].property),
        )
}

/// Outcome of looking up one durable target.
pub enum Capture {
    Captured,
    MissingEntity,
    MissingComponent,
}

fn capture(es: &[WorldSerializedEntity], id: u64, component: u16) -> (r: Capture)
    ensures
        r is Captured <==> captured_with(es@, id, component),
        r is MissingEntity <==> captured_at(es@, id) is None,
{
    let mut i: usize = es.len();
    assert(es@.subrange(0, i as int) =~= es@);
    while i > 0
        invariant
            i <= es@.len(),
            captured_at(es@, id) == captured_at(es@.subrange(0, i as int), id),
        decreases i,
    {
        let ghost prefix = es@.subrange(0, i as int);
        i = i - 1;
        assert(prefix.last() == es@[i as int]);
        if es[i].persistent_id == id {
            assert(captured_at(prefix, id) == Some(i as int));
            let cs = &es[i].components;
            let mut j: usize = 0;
            while j < cs.len()
                invariant
                    i < es@.len(),
                    cs@ == es@[i as int].components@,
                    captured_at(es@, id) == Some(i as int),
                    j <= cs@.len(),
                    forall|k: int| 0 <= k < j ==> (#[trigger] cs@[k]).type_id != component,
                decreases cs@.len() - j,
            {
                if cs[j].type_id == component {
                    assert(cs@[j as int].type_id == component);
                    return Capture::Captured;
                }
                j = j + 1;
            }
            return Capture::MissingComponent;
        }
        assert(prefix.drop_last() =~= es@.subrange(0, i as int));
    }
    assert(es@.subrange(0, 0) =~= Seq::<WorldSerializedEntity>::empty());
    Capture::MissingEntity
}

fn validate_drivers(es: &[WorldSerializedEntity], ds: &Vec<AnimationDriverDescription>) -> (r: Result<(), String>)
    ensures
        r is Ok <==> drivers_captured(es@, driver_models(ds@)),
        r matches Err(e) ==> (e@ == "Animation driver references an excluded or missing entity"@
            && driver_entity_missing(es@, driver_models(ds@))) || (e@
            == "Animation driver references an excluded or missing component"@ && driver_component_missing(
            es@,
            driver_models(ds@),
        )),
{
    let ghost dm = driver_models(ds@);
    let mut i: usize = 0;
    while i < ds.len()
        invariant
            dm == driver_models(ds@),
            i <= ds@.len(),
            forall|k: int| 0 <= k < i ==> captured_with(es@, (#[trigger] dm[k]).target.bits, target_component(dm[k].property)),
        decreases ds@.len() - i,
    {
        assert(dm[i as int] == ds@[i as int]@);
        match capture(es, ds[i].target.bits, ds[i].property.component()) {
            Capture::Captured => {},
            Capture::MissingEntity => {
                assert(captured_at(es@, dm[i as int].target.bits) is None);
                return Err("Animation driver references an excluded or missing entity".to_owned());
            },
            Capture::MissingComponent => {
                assert(captured_at(es@, dm[i as int].target.bits) is Some);
                return Err("Animation driver references an excluded or missing component".to_owned());
            },
        }
        i = i + 1;
    }
    Ok(())
}

fn validate_frozen_targets(es: &[WorldSerializedEntity], vs: &Vec<AnimationFrozenTransitionValue>) -> (r: Result<(), String>)
    ensures
        r is Ok <==> forall|v: int| 0 <= v < vs@.len() ==> captured_with(
            es@,
            (#[trigger] frozen_models(vs@)[v]).target.bits,
            target_component(frozen_models(vs@)[v].property),
        ),
        r matches Err(e) ==> (e@ == "Animation transition references an excluded or missing entity"@
            && frozen_entity_missing(es@, frozen_models(vs@))) || (e@
            == "Animation transition references an excluded or missing component"@ && frozen_component_missing(
            es@,
            frozen_models(vs@),
        )),
{
    let ghost fm = frozen_models(vs@);
    let mut i: usize = 0;
    while i < vs.len()
        invariant
            fm == frozen_models(vs@),
            i <= vs@.len(),
            forall|k: int| 0 <= k < i ==> captured_with(es@, (#[trigger] fm[k]).target.bits, target_component(fm[k].property)),
        decreases vs@.len() - i,
    {
        assert(fm[i as int] == vs@[i as int]@);
        match capture(es, vs[i].target.bits, vs[i].property.component()) {
            Capture::Captured => {},
            Capture::MissingEntity => {
                assert(captured_at(es@, fm[i as int].target.bits) is None);
                return Err("Animation transition references an excluded or missing entity".to_owned());
            },
            Capture::MissingComponent => {
                assert(captured_at(es@, fm[i as int].target.bits) is Some);
                return Err("Animation transition references an excluded or missing component".to_owned());
            },
        }
        i = i + 1;
    }
    Ok(())
}

/// Which refusal a state's targets justify: a driver of a controller, of a
/// live source or of a frozen binding declaration without its entity or
/// component, or a frozen value without its entity or component.
pub open spec fn refusal_justified(m: StateModel, es: Seq<WorldSerializedEntity>, e: Seq<char>) -> bool {
    let drivers_fail = |entity: bool, ds: Seq<DriverModel>|
        if entity {
            driver_entity_missing(es, ds)
        } else {
            driver_component_missing(es, ds)
        };
    let some_driver_fails = |entity: bool|
        (exists|i: int| 0 <= i < m.controllers.len() && drivers_fail(entity, (#[trigger] m.controllers[i]).drivers))
            || (exists|k: int|
            0 <= k < m.transitions.len() && match (#[trigger] m.transitions[k]).source {
                SourceModel::Live(c) => drivers_fail(entity, c.drivers),
                SourceModel::Frozen { bindings, .. } => drivers_fail(entity, bindings.drivers),
            });
    let some_value_fails = |entity: bool|
        exists|k: int|
            0 <= k < m.transitions.len() && match (#[trigger] m.transitions[k]).source {
                SourceModel::Frozen { values, .. } => if entity {
                    frozen_entity_missing(es, values)
                } else {
                    frozen_component_missing(es, values)
                },
                _ => false,
            };
    ||| e == "Animation driver references an excluded or missing entity"@ && some_driver_fails(true)
    ||| e == "Animation driver references an excluded or missing component"@ && some_driver_fails(false)
    ||| e == "Animation transition references an excluded or missing entity"@ && some_value_fails(true)
    ||| e == "Animation transition references an excluded or missing component"@ && some_value_fails(false)
}

impl AnimationPersistentState {
    /// Validate durable targets against the captured authored entity and
    /// component set.
    pub fn validate_entities(&self, entities: &[WorldSerializedEntity]) -> (r: Result<(), String>)
        ensures
            r is Ok <==> entities_captured(self@, entities@),
            r matches Err(e) ==> refusal_justified(self@, entities@, e@),
    {
        let ghost m = self@;
        let mut i: usize = 0;
        while i < self.controllers.len()
            invariant
                m == self@,
                i <= m.controllers.len(),
                forall|k: int| 0 <= k < i ==> drivers_captured(entities@, (#[trigger] m.controllers[k]).drivers),
            decreases m.controllers.len() - i,
        {
            assert(m.controllers[i as int] == self.controllers@[i as int]@);
            validate_drivers(entities, &self.controllers[i].description.drivers)?;
            i = i + 1;
        }
        let mut k: usize = 0;
        while k < self.transitions.len()
            invariant
                m == self@,
                k <= m.transitions.len(),
                forall|i: int| 0 <= i < m.controllers.len() ==> drivers_captured(entities@, (#[trigger] m.controllers[i]).drivers),
                forall|l: int| 0 <= l < k ==> match (#[trigger] m.transitions[l]).source {
                    SourceModel::Live(c) => drivers_captured(entities@, c.drivers),
                    SourceModel::Frozen { values, bindings, .. } => drivers_captured(entities@, bindings.drivers) && forall|v: int|
                        0 <= v < values.len() ==> captured_with(
                            entities@,
                            (#[trigger] values[v]).target.bits,
                            target_component(values[v].property),
                        ),
                },
            decreases m.transitions.len() - k,
        {
            assert(m.transitions[k as int] == self.transitions@[k as int]@);
            match &self.transitions[k].source {
                AnimationPersistentTransitionSource::Live(source) => {
                    validate_drivers(entities, &source.description.drivers)?;
                },
                AnimationPersistentTransitionSource::Frozen { values, bindings, .. } => {
                    validate_drivers(entities, &bindings.description.drivers)?;
                    let r = validate_frozen_targets(entities, values);
                    if r.is_err() {
                        proof {
                            let fm = frozen_models(values@);
                            assert(m.transitions[k as int].source matches SourceModel::Frozen { values: vm, .. } && vm == fm);
                            let v = choose|v: int| 0 <= v < values@.len() && !captured_with(
                                entities@,
                                (#[trigger] fm[v]).target.bits,
                                target_component(fm[v].property),
                            );
                            assert(!captured_with(entities@, fm[v].target.bits, target_component(fm[v].property)));
                        }
                        return r;
                    }
                },
            }
            k = k + 1;
        }
        Ok(())
    }
}

} // verus!
