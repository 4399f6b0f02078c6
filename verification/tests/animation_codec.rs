use lib::systems::animation::save::save_persistent_state;
use lib::ids::EntityId;
use lib::systems::animation::binary::{WorldBinaryReader, WorldBinaryWriter};
use lib::systems::animation::codec::encode_state;
use lib::systems::animation::decoder::decode_state;
use lib::systems::animation::persistence::WorldSerializedEntity;
use lib::systems::animation::validation::validate_values;
use lib::systems::animation::{
    AnimationControllerDescription, AnimationControllerId, AnimationControllerSnapshot,
    AnimationControllerTransitionState, AnimationDriverDescription, AnimationFrozenTransitionValue,
    AnimationPersistentState, AnimationPersistentTransition, AnimationPersistentTransitionSource,
    AnimationPlaybackStatus, AnimationProperty, AnimationTrackTarget, AnimationTransitionEasing,
    AnimationTransitionStartTime, AnimationValue, DynamicValue,
};
use lib::world::{ComponentValue, FieldValue, CUSTOM_MATERIAL, SCALAR, TRANSFORM};

fn summary() -> AnimationControllerTransitionState {
    AnimationControllerTransitionState {
        duration: 2.0f64.to_bits(),
        elapsed: 0.5f64.to_bits(),
        easing: AnimationTransitionEasing::Smoothstep,
        pending: false,
    }
}

fn property(offset: u32) -> AnimationTrackTarget {
    AnimationTrackTarget::AnimationProperty(AnimationProperty {
        component: SCALAR,
        offsets: vec![offset],
    })
}

fn controller(id: u64, transition: bool) -> AnimationControllerSnapshot {
    AnimationControllerSnapshot {
        id: AnimationControllerId::from_bits(id),
        description: AnimationControllerDescription {
            drivers: vec![AnimationDriverDescription {
                source: "asset://7/11".to_string(),
                variant: 2,
                track: 3,
                target: EntityId { bits: 9 },
                property: property(0),
                weight: 0.75f32.to_bits(),
                additive: false,
                reference_time: 0.25f32.to_bits(),
                repeat: true,
            }],
            speed: (-1.5f32).to_bits(),
            looping: true,
        },
        state: AnimationPlaybackStatus::Playing,
        time: 1.25f64.to_bits(),
        transition: if transition { Some(summary()) } else { None },
    }
}

fn live_and_frozen_state() -> AnimationPersistentState {
    let live = controller(1, true);
    let frozen = controller(2, true);
    let mut live_source = live.clone();
    live_source.transition = None;
    live_source.time = 0.75f64.to_bits();
    let mut bindings = frozen.clone();
    bindings.transition = None;
    AnimationPersistentState {
        next_id: 3,
        controllers: vec![live, frozen],
        transitions: vec![
            AnimationPersistentTransition {
                id: AnimationControllerId::from_bits(1),
                source: AnimationPersistentTransitionSource::Live(live_source),
                start_time: AnimationTransitionStartTime::MatchPhase,
            },
            AnimationPersistentTransition {
                id: AnimationControllerId::from_bits(2),
                source: AnimationPersistentTransitionSource::Frozen {
                    values: vec![
                        AnimationFrozenTransitionValue {
                            target: EntityId { bits: 9 },
                            property: property(0),
                            value: AnimationValue::Field(FieldValue::F32(3.0f32.to_bits())),
                            baseline: AnimationValue::Field(FieldValue::F32(4.0f32.to_bits())),
                        },
                        AnimationFrozenTransitionValue {
                            target: EntityId { bits: 9 },
                            property: AnimationTrackTarget::AnimationProperty(AnimationProperty {
                                component: TRANSFORM,
                                offsets: vec![12, 16, 20, 24],
                            }),
                            value: AnimationValue::Rotation(rotation([0.0, 0.0, 0.0, 1.0])),
                            baseline: AnimationValue::Rotation(rotation([0.0, 0.0, 1.0, 0.0])),
                        },
                    ],
                    bindings,
                    reference_time: 0.75f64.to_bits(),
                    reference_duration: 2.0f64.to_bits(),
                },
                start_time: AnimationTransitionStartTime::Seek(0.25f64.to_bits()),
            },
        ],
        directional_starts: vec![AnimationControllerId::from_bits(1)],
    }
}

fn rotation(q: [f32; 4]) -> [u32; 4] {
    [q[0].to_bits(), q[1].to_bits(), q[2].to_bits(), q[3].to_bits()]
}

fn unchecked_bytes(state: &AnimationPersistentState) -> Vec<u8> {
    let mut writer = WorldBinaryWriter::new(1 << 20);
    writer.u32(4).unwrap();
    encode_state(&mut writer, state).unwrap();
    writer.bytes
}

fn frozen_values_mut(state: &mut AnimationPersistentState) -> &mut Vec<AnimationFrozenTransitionValue> {
    let AnimationPersistentTransitionSource::Frozen { values, .. } = &mut state.transitions[1].source else {
        unreachable!();
    };
    values
}

#[test]
fn version_five_round_trips_transitions_and_directional_starts() {
    let state = live_and_frozen_state();
    let bytes = state.encode(1 << 20).unwrap();
    assert_eq!(AnimationPersistentState::decode(&bytes, 1 << 20).unwrap(), state);
}

#[test]
fn direct_snapshot_encoding_rejects_nested_transition_sources() {
    let mut state = live_and_frozen_state();
    let AnimationPersistentTransitionSource::Live(source) = &mut state.transitions[0].source else {
        unreachable!();
    };
    source.transition = Some(summary());
    let bytes = unchecked_bytes(&state);
    assert!(AnimationPersistentState::decode(&bytes, 1 << 20).is_err());
}

#[test]
fn one_reader_budget_applies_to_direct_source_snapshots_and_frozen_values() {
    let bytes = unchecked_bytes(&live_and_frozen_state());
    let mut reader = WorldBinaryReader::new(&bytes[4..], 1);
    assert!(decode_state(&mut reader, 4).is_err());
}

#[test]
fn malformed_transition_metadata_and_duplicate_sidecars_are_rejected() {
    let mut nonfinite = live_and_frozen_state();
    nonfinite.controllers[0].transition.as_mut().unwrap().elapsed = f64::NAN.to_bits();
    let bytes = unchecked_bytes(&nonfinite);
    assert!(AnimationPersistentState::decode(&bytes, 1 << 20).is_err());

    let mut nonfinite = live_and_frozen_state();
    let AnimationPersistentTransitionSource::Frozen { reference_time, .. } = &mut nonfinite.transitions[1].source else {
        unreachable!();
    };
    *reference_time = f64::NAN.to_bits();
    let bytes = unchecked_bytes(&nonfinite);
    assert!(AnimationPersistentState::decode(&bytes, 1 << 20).is_err());

    let mut duplicate = live_and_frozen_state();
    duplicate.transitions.push(duplicate.transitions[0].clone());
    let bytes = unchecked_bytes(&duplicate);
    assert!(AnimationPersistentState::decode(&bytes, 1 << 20).is_err());
}

#[test]
fn frozen_values_require_unique_keys_matching_finite_types_and_shapes() {
    let mut duplicate = live_and_frozen_state();
    let repeated = frozen_values_mut(&mut duplicate)[0].clone();
    frozen_values_mut(&mut duplicate).push(repeated);
    assert!(duplicate.encode(1 << 20).is_err());

    frozen_values_mut(&mut duplicate).pop();
    frozen_values_mut(&mut duplicate)[0].baseline = AnimationValue::Rotation(rotation([0.0, 0.0, 0.0, 1.0]));
    assert!(duplicate.encode(1 << 20).is_err());

    frozen_values_mut(&mut duplicate)[0].baseline = AnimationValue::Field(FieldValue::F32(f32::INFINITY.to_bits()));
    assert!(duplicate.encode(1 << 20).is_err());

    let mut malformed = live_and_frozen_state();
    let value = &mut frozen_values_mut(&mut malformed)[0];
    value.property = AnimationTrackTarget::AnimationProperty(AnimationProperty {
        component: SCALAR,
        offsets: vec![u32::MAX],
    });
    assert!(malformed.encode(1 << 20).is_err());
}

// ---- further cases ----

fn version_five_bytes(state: &AnimationPersistentState) -> Vec<u8> {
    let mut writer = WorldBinaryWriter::new(1 << 20);
    writer.u32(5).unwrap();
    encode_state(&mut writer, state).unwrap();
    writer.bytes
}

#[test]
fn encode_writes_version_five_then_the_identity_counter() {
    let state = live_and_frozen_state();
    let bytes = state.encode(1 << 20).unwrap();
    assert_eq!(&bytes[0..4], &[5, 0, 0, 0]);
    assert_eq!(&bytes[4..12], &[3, 0, 0, 0, 0, 0, 0, 0]);
    assert_eq!(&bytes[12..16], &[2, 0, 0, 0]);
    assert_eq!(bytes, version_five_bytes(&state));
}

#[test]
fn empty_state_encodes_to_header_counter_and_three_counts() {
    let state = AnimationPersistentState::default();
    let bytes = state.encode(1 << 20).unwrap();
    assert_eq!(bytes, vec![5, 0, 0, 0, 1, 0, 0, 0, 0, 0, 0, 0, 0, 0, 0, 0, 0, 0, 0, 0, 0, 0, 0, 0]);
    assert_eq!(AnimationPersistentState::decode(&bytes, 1 << 20).unwrap(), state);
}

#[test]
fn encode_fails_when_the_bytes_do_not_fit() {
    let state = AnimationPersistentState::default();
    assert!(state.encode(24).is_ok());
    assert!(state.encode(23).is_err());
}

#[test]
fn decode_rejects_oversized_input_unsupported_versions_and_trailing_bytes() {
    let state = AnimationPersistentState::default();
    let bytes = state.encode(1 << 20).unwrap();
    assert!(AnimationPersistentState::decode(&bytes, bytes.len() - 1).is_err());

    let mut zero = bytes.clone();
    zero[0] = 0;
    assert!(AnimationPersistentState::decode(&zero, 1 << 20).is_err());
    let mut six = bytes.clone();
    six[0] = 6;
    assert!(AnimationPersistentState::decode(&six, 1 << 20).is_err());

    let mut trailing = bytes.clone();
    trailing.push(0);
    assert!(AnimationPersistentState::decode(&trailing, 1 << 20).is_err());
}

#[test]
fn version_one_reads_only_counter_and_controllers() {
    let mut writer = WorldBinaryWriter::new(64);
    writer.u32(1).unwrap();
    writer.u64(7).unwrap();
    writer.count(0).unwrap();
    let state = AnimationPersistentState::decode(&writer.bytes, 64).unwrap();
    assert_eq!(state.next_id, 7);
    assert!(state.controllers.is_empty());
    assert!(state.transitions.is_empty());
    assert!(state.directional_starts.is_empty());
}

#[test]
fn zero_identity_counter_is_rejected() {
    let mut state = AnimationPersistentState::default();
    state.next_id = 0;
    assert!(validate_values(&state).is_err());
    assert!(state.encode(1 << 20).is_err());
}

#[test]
fn controllers_must_increase_below_the_counter() {
    let mut state = live_and_frozen_state();
    state.next_id = 2;
    assert!(validate_values(&state).is_err());

    let mut state = live_and_frozen_state();
    state.controllers.swap(0, 1);
    assert!(validate_values(&state).is_err());
    assert!(validate_values(&live_and_frozen_state()).is_ok());
}

#[test]
fn directional_starts_need_a_distinct_playing_or_paused_controller() {
    let mut state = live_and_frozen_state();
    state.directional_starts.push(AnimationControllerId::from_bits(1));
    assert!(validate_values(&state).is_err());

    let mut state = live_and_frozen_state();
    state.directional_starts = vec![AnimationControllerId::from_bits(5)];
    assert!(validate_values(&state).is_err());

    let mut state = live_and_frozen_state();
    state.controllers[0].state = AnimationPlaybackStatus::Stopped;
    assert!(validate_values(&state).is_err());
    state.controllers[0].state = AnimationPlaybackStatus::Paused;
    assert!(validate_values(&state).is_ok());
}

#[test]
fn transition_summary_and_sidecar_must_pair() {
    let mut state = live_and_frozen_state();
    state.transitions.pop();
    assert!(validate_values(&state).is_err());

    let mut state = live_and_frozen_state();
    state.controllers[1].transition = None;
    assert!(validate_values(&state).is_err());
}

#[test]
fn driver_weight_source_and_track_are_bounded() {
    let mut state = live_and_frozen_state();
    state.controllers[0].description.drivers[0].weight = 1.5f32.to_bits();
    assert!(validate_values(&state).is_err());

    let mut state = live_and_frozen_state();
    state.controllers[0].description.drivers[0].weight = 1.0f32.to_bits();
    assert!(validate_values(&state).is_ok());
    state.controllers[0].description.drivers[0].weight = (-0.0f32).to_bits();
    assert!(validate_values(&state).is_ok());

    let mut state = live_and_frozen_state();
    state.controllers[0].description.drivers[0].source = String::new();
    assert!(validate_values(&state).is_err());

    let mut state = live_and_frozen_state();
    state.controllers[0].description.drivers[0].track = 256;
    assert!(validate_values(&state).is_err());
}

#[test]
fn negative_seek_and_reference_past_duration_are_rejected() {
    let mut state = live_and_frozen_state();
    state.transitions[1].start_time = AnimationTransitionStartTime::Seek((-1.0f64).to_bits());
    assert!(validate_values(&state).is_err());

    let mut state = live_and_frozen_state();
    let AnimationPersistentTransitionSource::Frozen { reference_time, .. } = &mut state.transitions[1].source else {
        unreachable!();
    };
    *reference_time = 3.0f64.to_bits();
    assert!(validate_values(&state).is_err());
}

#[test]
fn dynamic_frozen_values_need_a_dynamic_component_and_matching_kinds() {
    let mut state = live_and_frozen_state();
    frozen_values_mut(&mut state).push(AnimationFrozenTransitionValue {
        target: EntityId { bits: 9 },
        property: AnimationTrackTarget::DynamicProperty { component: CUSTOM_MATERIAL, name: "tint".to_string() },
        value: AnimationValue::Dynamic(DynamicValue::Vec2([1.0f32.to_bits(), 2.0f32.to_bits()])),
        baseline: AnimationValue::Dynamic(DynamicValue::Vec2([0.0f32.to_bits(), 0.0f32.to_bits()])),
    });
    assert!(validate_values(&state).is_ok());
    let bytes = state.encode(1 << 20).unwrap();
    assert_eq!(AnimationPersistentState::decode(&bytes, 1 << 20).unwrap(), state);

    frozen_values_mut(&mut state)[2].baseline = AnimationValue::Dynamic(DynamicValue::F32(0));
    assert!(validate_values(&state).is_err());
    frozen_values_mut(&mut state)[2].baseline = AnimationValue::Dynamic(DynamicValue::Vec2([0, 0]));
    frozen_values_mut(&mut state)[2].value = AnimationValue::Dynamic(DynamicValue::Bool(true));
    assert!(validate_values(&state).is_err());
    frozen_values_mut(&mut state)[2].value = AnimationValue::Dynamic(DynamicValue::Vec2([0, 0]));
    frozen_values_mut(&mut state)[2].property =
        AnimationTrackTarget::DynamicProperty { component: SCALAR, name: "tint".to_string() };
    assert!(validate_values(&state).is_err());
}

#[test]
fn decode_rejects_states_over_the_allocation_budget() {
    let state = live_and_frozen_state();
    let bytes = state.encode(1 << 20).unwrap();
    assert!(AnimationPersistentState::decode(&bytes, bytes.len()).is_err());
    assert!(AnimationPersistentState::decode(&bytes, 1 << 12).is_ok());
}

fn captured(persistent_id: u64, types: &[u16]) -> WorldSerializedEntity {
    WorldSerializedEntity {
        persistent_id,
        components: types.iter().map(|&type_id| ComponentValue { type_id, fields: Vec::new() }).collect(),
    }
}

#[test]
fn durable_targets_must_be_captured_with_their_components() {
    let state = live_and_frozen_state();
    let complete = vec![captured(9, &[SCALAR, TRANSFORM])];
    assert!(state.validate_entities(&complete).is_ok());

    // The frozen rotation addresses the transform.
    assert_eq!(
        state.validate_entities(&[captured(9, &[SCALAR])]).unwrap_err(),
        "Animation transition references an excluded or missing component"
    );
    assert_eq!(
        state.validate_entities(&[captured(8, &[SCALAR, TRANSFORM])]).unwrap_err(),
        "Animation driver references an excluded or missing entity"
    );
    assert_eq!(
        state.validate_entities(&[captured(9, &[TRANSFORM])]).unwrap_err(),
        "Animation driver references an excluded or missing component"
    );
    // A later capture of the same identity replaces an earlier one.
    assert!(state.validate_entities(&[captured(9, &[SCALAR, TRANSFORM]), captured(9, &[SCALAR])]).is_err());
    assert!(state.validate_entities(&[captured(9, &[SCALAR]), captured(9, &[TRANSFORM, SCALAR])]).is_ok());
    assert!(AnimationPersistentState::default().validate_entities(&[]).is_ok());
}

fn all_targets(state: &AnimationPersistentState) -> Vec<u64> {
    let mut targets = Vec::new();
    for controller in &state.controllers {
        targets.extend(controller.description.drivers.iter().map(|d| d.target.bits));
    }
    for transition in &state.transitions {
        match &transition.source {
            AnimationPersistentTransitionSource::Live(source) => {
                targets.extend(source.description.drivers.iter().map(|d| d.target.bits));
            }
            AnimationPersistentTransitionSource::Frozen { values, bindings, .. } => {
                targets.extend(bindings.description.drivers.iter().map(|d| d.target.bits));
                targets.extend(values.iter().map(|v| v.target.bits));
            }
        }
    }
    targets
}

#[test]
fn remap_rewrites_every_durable_target_and_keeps_the_rest() {
    let state = live_and_frozen_state();
    let mut ids = std::collections::BTreeMap::new();
    ids.insert(9u64, EntityId::from_bits(5 << 32 | 3));
    ids.insert(10u64, EntityId::from_bits(1));
    let remapped = state.clone().remap_entities(&ids).unwrap();
    assert_eq!(all_targets(&remapped), vec![5 << 32 | 3; 6]);
    let mut restored = remapped.clone();
    let mut back = std::collections::BTreeMap::new();
    back.insert(5u64 << 32 | 3, EntityId::from_bits(9));
    restored = restored.remap_entities(&back).unwrap();
    assert_eq!(restored, state);
    assert_eq!(remapped.next_id, state.next_id);
    assert_eq!(remapped.directional_starts, state.directional_starts);
}

#[test]
fn remap_reports_controller_targets_before_transition_targets() {
    let ids: std::collections::BTreeMap<u64, EntityId> = std::collections::BTreeMap::new();
    assert_eq!(
        live_and_frozen_state().remap_entities(&ids).unwrap_err(),
        "Missing persistent animation target"
    );
    let mut state = live_and_frozen_state();
    frozen_values_mut(&mut state)[1].target = EntityId { bits: 77 };
    let mut ids = std::collections::BTreeMap::new();
    ids.insert(9u64, EntityId::from_bits(4));
    assert_eq!(
        state.remap_entities(&ids).unwrap_err(),
        "Missing persistent animation transition target"
    );
    assert!(AnimationPersistentState::default().remap_entities(&ids).is_ok());
}

#[test]
fn remapping_a_valid_state_one_to_one_keeps_it_valid() {
    let state = live_and_frozen_state();
    assert!(validate_values(&state).is_ok());
    let mut ids = std::collections::BTreeMap::new();
    ids.insert(9u64, EntityId::from_bits(3 << 32 | 12));
    let remapped = state.remap_entities(&ids).unwrap();
    assert!(validate_values(&remapped).is_ok());
    let bytes = remapped.encode(1 << 20).unwrap();
    assert_eq!(AnimationPersistentState::decode(&bytes, 1 << 20).unwrap(), remapped);
}

fn saved_entries(
    state: &AnimationPersistentState,
) -> Vec<(
    AnimationControllerSnapshot,
    Option<(AnimationPersistentTransitionSource, AnimationTransitionStartTime, bool)>,
    bool,
)> {
    state
        .controllers
        .iter()
        .map(|c| {
            let transition = state
                .transitions
                .iter()
                .find(|t| t.id == c.id)
                .map(|t| (t.source.clone(), t.start_time, false));
            (c.clone(), transition, state.directional_starts.contains(&c.id))
        })
        .collect()
}

#[test]
fn save_rewrites_targets_to_persistent_identities() {
    let state = live_and_frozen_state();
    let mut ids = std::collections::BTreeMap::new();
    ids.insert(9u64, 42u64);
    let mut bytes = 0usize;
    let saved = save_persistent_state(saved_entries(&state), state.next_id, &ids, &mut bytes, 1 << 20).unwrap();
    let mut back = std::collections::BTreeMap::new();
    back.insert(42u64, EntityId::from_bits(9));
    assert_eq!(saved.clone().remap_entities(&back).unwrap(), state);
    assert!(bytes > 0 && bytes <= 1 << 20);
    assert_eq!(saved.next_id, state.next_id);
}

#[test]
fn save_charges_declarations_exactly_without_crossfades() {
    let mut ids = std::collections::BTreeMap::new();
    ids.insert(9u64, 42u64);
    let entries = vec![(controller(1, false), None, true)];
    let mut bytes = 10usize;
    let saved = save_persistent_state(entries.clone(), 3, &ids, &mut bytes, 290).unwrap();
    // 128 per controller, 128 + 12 source bytes + 4 offset bytes per driver, 8 per start.
    assert_eq!(bytes, 290);
    assert_eq!(saved.directional_starts, vec![AnimationControllerId::from_bits(1)]);
    assert_eq!(saved.controllers[0].description.drivers[0].target.bits, 42);

    let mut bytes = 10usize;
    assert_eq!(
        save_persistent_state(entries.clone(), 3, &ids, &mut bytes, 289).unwrap_err(),
        "Snapshot byte budget exhausted"
    );
    let mut bytes = usize::MAX - 5;
    assert_eq!(
        save_persistent_state(entries.clone(), 3, &ids, &mut bytes, usize::MAX).unwrap_err(),
        "Snapshot size overflow"
    );
    let mut bytes = 0usize;
    assert_eq!(
        save_persistent_state(entries, 3, &std::collections::BTreeMap::new(), &mut bytes, 1 << 20).unwrap_err(),
        "Animation references excluded or missing entity"
    );
}

#[test]
fn save_reports_missing_transition_targets_after_controller_targets() {
    let mut state = live_and_frozen_state();
    frozen_values_mut(&mut state)[0].target = EntityId { bits: 77 };
    let mut ids = std::collections::BTreeMap::new();
    ids.insert(9u64, 42u64);
    let mut bytes = 0usize;
    assert_eq!(
        save_persistent_state(saved_entries(&state), state.next_id, &ids, &mut bytes, 1 << 20).unwrap_err(),
        "Animation transition references excluded or missing entity"
    );
}

#[test]
fn save_reports_a_missing_target_once_its_charge_fits() {
    let entries = vec![(controller(1, false), None, false)];
    let none = std::collections::BTreeMap::new();
    let mut bytes = 0usize;
    assert_eq!(
        save_persistent_state(entries.clone(), 3, &none, &mut bytes, 1 << 20).unwrap_err(),
        "Animation references excluded or missing entity"
    );
    assert_eq!(bytes, 128 + 144);
    let mut bytes = 0usize;
    assert_eq!(
        save_persistent_state(entries, 3, &none, &mut bytes, 271).unwrap_err(),
        "Snapshot byte budget exhausted"
    );
    assert_eq!(bytes, 272);
}
