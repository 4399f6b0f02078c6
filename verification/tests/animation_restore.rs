use lib::ids::{EntityId, ErrorReason};
use lib::systems::animation::restore::AnimationControllerRegistry;
use lib::systems::animation::{
    AnimationControllerDescription, AnimationControllerId, AnimationControllerSnapshot,
    AnimationControllerState, AnimationControllerTransition, AnimationControllerTransitionState, AnimationDriverDescription, AnimationFrozenTransitionValue,
    AnimationPersistentState, AnimationPersistentTransition, AnimationPersistentTransitionSource,
    AnimationPlaybackEvent, AnimationPlaybackEventKind, AnimationPlaybackStatus, AnimationProperty, AnimationTrackTarget, AnimationTransitionEasing,
    AnimationTransitionStartTime, AnimationValue,
};
use lib::world::{
    ComponentInput, ComponentLayer, ComponentValue, EntityAllocator, EntityMetadata, EntityRecord, FieldValue,
    WorldEntityState, SCALAR, TRANSFORM,
};

fn summary() -> AnimationControllerTransitionState {
    AnimationControllerTransitionState {
        duration: 2.0f64.to_bits(),
        elapsed: 0.5f64.to_bits(),
        easing: AnimationTransitionEasing::Smoothstep,
        pending: false,
    }
}

fn property(offset: u32) -> AnimationTrackTarget {
    AnimationTrackTarget::AnimationProperty(AnimationProperty { component: SCALAR, offsets: vec![offset] })
}

fn controller(id: u64, target: u64, source: &str, transition: bool) -> AnimationControllerSnapshot {
    AnimationControllerSnapshot {
        id: AnimationControllerId::from_bits(id),
        description: AnimationControllerDescription {
            drivers: vec![AnimationDriverDescription {
                source: source.to_string(),
                variant: 2,
                track: 3,
                target: EntityId { bits: target },
                property: property(0),
                weight: 0.75f32.to_bits(),
                additive: false,
                reference_time: 0.25f32.to_bits(),
                repeat: true,
            }],
            speed: 1.5f32.to_bits(),
            looping: true,
        },
        state: AnimationPlaybackStatus::Playing,
        time: 1.25f64.to_bits(),
        transition: if transition { Some(summary()) } else { None },
    }
}

fn live_source(target: u64) -> AnimationPersistentTransitionSource {
    let mut source = controller(7, target, "asset://7/12", false);
    source.time = 0.75f64.to_bits();
    AnimationPersistentTransitionSource::Live(source)
}

/// Controller 5 crossfades from a live source; controller 2 does not; the
/// saved order is not identity order.
fn saved_state() -> AnimationPersistentState {
    AnimationPersistentState {
        next_id: 6,
        controllers: vec![controller(5, 9, "asset://7/11", true), controller(2, 10, "asset://7/11", false)],
        transitions: vec![AnimationPersistentTransition {
            id: AnimationControllerId::from_bits(5),
            source: live_source(11),
            start_time: AnimationTransitionStartTime::MatchPhase,
        }],
        directional_starts: vec![AnimationControllerId::from_bits(2)],
    }
}

fn frozen_state() -> AnimationPersistentState {
    let mut bindings = controller(7, 9, "asset://7/12", false);
    bindings.time = 0.5f64.to_bits();
    AnimationPersistentState {
        next_id: 2,
        controllers: vec![controller(1, 9, "asset://7/11", true)],
        transitions: vec![AnimationPersistentTransition {
            id: AnimationControllerId::from_bits(1),
            source: AnimationPersistentTransitionSource::Frozen {
                values: vec![AnimationFrozenTransitionValue {
                    target: EntityId { bits: 9 },
                    property: AnimationTrackTarget::AnimationProperty(AnimationProperty {
                        component: TRANSFORM,
                        offsets: vec![0],
                    }),
                    value: AnimationValue::Field(FieldValue::F32(3.0f32.to_bits())),
                    baseline: AnimationValue::Field(FieldValue::F32(4.0f32.to_bits())),
                }],
                bindings,
                reference_time: 0.75f64.to_bits(),
                reference_duration: 2.0f64.to_bits(),
            },
            start_time: AnimationTransitionStartTime::Seek(0.25f64.to_bits()),
        }],
        directional_starts: Vec::new(),
    }
}

fn world(components: &[u16]) -> WorldEntityState {
    let layers = components
        .iter()
        .map(|&c| ComponentLayer {
            component: c,
            input: Some(ComponentInput { incarnation: 4, value: ComponentValue { type_id: c, fields: Vec::new() } }),
        })
        .collect();
    WorldEntityState {
        allocator: EntityAllocator { generations: Vec::new() },
        entities: vec![EntityRecord {
            id: EntityId { bits: 9 },
            metadata: EntityMetadata { active: true, layer: 0 },
            layers,
        }],
    }
}

fn accepted(n: usize) -> Vec<Result<(), ErrorReason>> {
    vec![Ok(()); n]
}

fn restore(
    registry: &mut AnimationControllerRegistry,
    state: AnimationPersistentState,
    world: &WorldEntityState,
) -> Result<(), ErrorReason> {
    let descriptions = accepted(state.controllers.len());
    let sources = accepted(state.transitions.len());
    registry.restore_animation_controllers(state, &descriptions, &sources, world, Ok(()))
}

fn assert_untouched(registry: &AnimationControllerRegistry) {
    assert!(registry.controllers.is_empty());
    assert_eq!(registry.next_id, 1);
    assert_eq!(registry.demand_revision, 0);
    assert!(registry.animation_sources.is_empty());
    assert!(registry.index.target_keys.is_empty());
}

#[test]
fn restore_installs_controllers_in_identity_order_with_pending_crossfades() {
    let mut registry = AnimationControllerRegistry::new();
    assert_eq!(restore(&mut registry, saved_state(), &world(&[])), Ok(()));
    assert_eq!(registry.next_id, 6);
    assert_eq!(registry.demand_revision, 1);
    let ids: Vec<u64> = registry.controllers.iter().map(|e| e.0.id.bits).collect();
    assert_eq!(ids, vec![2, 5]);

    let (plain, plain_source, plain_directional) = &registry.controllers[0];
    assert_eq!(*plain, controller(2, 10, "asset://7/11", false));
    assert!(plain_source.is_none());
    assert!(*plain_directional);

    let (fading, source, directional) = &registry.controllers[1];
    let mut expected = summary();
    expected.pending = true;
    assert_eq!(fading.transition, Some(expected));
    assert_eq!(fading.description, controller(5, 9, "asset://7/11", true).description);
    assert!(!*directional);
    let (source, start, prepared) = source.as_ref().unwrap();
    assert_eq!(*source, live_source(11));
    assert_eq!(*start, AnimationTransitionStartTime::MatchPhase);
    assert!(!*prepared);

    // Both own clips demanded once; the source's clip is not retained.
    assert_eq!(registry.animation_sources.len(), 1);
    assert_eq!(registry.animation_sources[0].source, "asset://7/11");
    assert_eq!(registry.animation_sources[0].variant, 2);
    // The crossfading controller is indexed under its own and its source's targets.
    assert_eq!(registry.index.target_keys[&5], vec![(9, SCALAR), (11, SCALAR)]);
    assert_eq!(registry.index.target_keys[&2], vec![(10, SCALAR)]);
}

#[test]
fn restore_keeps_the_last_sidecar_of_an_identity() {
    let mut state = saved_state();
    state.transitions.push(AnimationPersistentTransition {
        id: AnimationControllerId::from_bits(5),
        source: live_source(12),
        start_time: AnimationTransitionStartTime::Seek(0.5f64.to_bits()),
    });
    let mut registry = AnimationControllerRegistry::new();
    assert_eq!(restore(&mut registry, state, &world(&[])), Ok(()));
    let (source, start, _) = registry.controllers[1].1.as_ref().unwrap();
    assert_eq!(*source, live_source(12));
    assert_eq!(*start, AnimationTransitionStartTime::Seek(0.5f64.to_bits()));
}

#[test]
fn restore_refuses_bad_identities_and_starts_without_changes() {
    let mut registry = AnimationControllerRegistry::new();
    let mut state = saved_state();
    state.next_id = 0;
    assert_eq!(restore(&mut registry, state, &world(&[])), Err(ErrorReason::InvalidValue));
    let mut state = saved_state();
    state.next_id = 5;
    assert_eq!(restore(&mut registry, state, &world(&[])), Err(ErrorReason::InvalidValue));
    let mut state = saved_state();
    state.controllers[1].id = AnimationControllerId::from_bits(5);
    assert_eq!(restore(&mut registry, state, &world(&[])), Err(ErrorReason::InvalidValue));
    let mut state = saved_state();
    state.directional_starts.push(AnimationControllerId::from_bits(2));
    assert_eq!(restore(&mut registry, state, &world(&[])), Err(ErrorReason::InvalidValue));
    let mut state = saved_state();
    state.controllers[1].state = AnimationPlaybackStatus::Stopped;
    assert_eq!(restore(&mut registry, state, &world(&[])), Err(ErrorReason::InvalidValue));
    let mut state = saved_state();
    state.controllers[0].time = f64::NAN.to_bits();
    assert_eq!(restore(&mut registry, state, &world(&[])), Err(ErrorReason::InvalidValue));
    let mut state = saved_state();
    state.controllers[0].transition = None;
    assert_eq!(restore(&mut registry, state, &world(&[])), Err(ErrorReason::InvalidValue));
    assert_untouched(&registry);
}

#[test]
fn restore_reports_the_worlds_refusals_in_order() {
    let mut registry = AnimationControllerRegistry::new();
    let state = saved_state();
    let refused = vec![Ok(()), Err(ErrorReason::InvalidAsset)];
    assert_eq!(
        registry.restore_animation_controllers(state, &refused, &accepted(1), &world(&[]), Err(ErrorReason::Capacity)),
        Err(ErrorReason::InvalidAsset)
    );
    let state = saved_state();
    assert_eq!(
        registry.restore_animation_controllers(
            state,
            &accepted(2),
            &vec![Err(ErrorReason::InvalidValue)],
            &world(&[]),
            Err(ErrorReason::Capacity)
        ),
        Err(ErrorReason::InvalidValue)
    );
    let state = saved_state();
    assert_eq!(
        registry.restore_animation_controllers(state, &accepted(2), &accepted(1), &world(&[]), Err(ErrorReason::Capacity)),
        Err(ErrorReason::Capacity)
    );
    assert_untouched(&registry);
}

#[test]
fn restore_needs_the_components_of_frozen_values() {
    let mut registry = AnimationControllerRegistry::new();
    assert_eq!(restore(&mut registry, frozen_state(), &world(&[SCALAR])), Err(ErrorReason::MissingComponent));
    assert_untouched(&registry);
    assert_eq!(restore(&mut registry, frozen_state(), &world(&[SCALAR, TRANSFORM])), Ok(()));
    assert_eq!(registry.index.target_keys[&1], vec![(9, TRANSFORM), (9, SCALAR)]);
    assert!(registry.controllers[0].0.transition.unwrap().pending);
}

fn crossfade(target: u64, duration: f64, start_time: AnimationTransitionStartTime) -> AnimationControllerTransition {
    AnimationControllerTransition {
        description: controller(0, target, "asset://8/1", false).description,
        duration: duration.to_bits(),
        easing: AnimationTransitionEasing::Smoothstep,
        start_time,
    }
}

fn restored_registry() -> AnimationControllerRegistry {
    let mut registry = AnimationControllerRegistry::new();
    assert_eq!(restore(&mut registry, saved_state(), &world(&[])), Ok(()));
    registry
}

#[test]
fn crossfade_starts_from_the_controller_itself() {
    let mut registry = restored_registry();
    let id = AnimationControllerId::from_bits(2);
    let seek = AnimationTransitionStartTime::Seek(0.5f64.to_bits());
    assert_eq!(
        registry.transition_animation_controller(id, crossfade(20, 1.0, seek), Ok(()), Ok(()), Vec::new(), 0),
        Ok(())
    );
    let (destination, side, directional) = &registry.controllers[0];
    assert_eq!(destination.id, id);
    assert_eq!(destination.description, controller(0, 20, "asset://8/1", false).description);
    assert_eq!(destination.state, AnimationPlaybackStatus::Playing);
    assert_eq!(destination.time, 0.5f64.to_bits());
    assert_eq!(
        destination.transition,
        Some(AnimationControllerTransitionState {
            duration: 1.0f64.to_bits(),
            elapsed: 0,
            easing: AnimationTransitionEasing::Smoothstep,
            pending: true,
        })
    );
    assert!(!*directional);
    let (source, start, prepared) = side.as_ref().unwrap();
    assert_eq!(*source, AnimationPersistentTransitionSource::Live(controller(2, 10, "asset://7/11", false)));
    assert_eq!(*start, seek);
    assert!(!*prepared);
    assert_eq!(registry.next_id, 6);
    assert_eq!(registry.demand_revision, 2);
    assert_eq!(registry.index.target_keys[&2], vec![(10, SCALAR), (20, SCALAR)]);
    let mut sources: Vec<&str> = registry.animation_sources.iter().map(|s| s.source.as_str()).collect();
    sources.sort();
    assert_eq!(sources, vec!["asset://7/11", "asset://8/1"]);
}

#[test]
fn crossfade_interrupting_a_crossfade_keeps_its_source() {
    let mut registry = restored_registry();
    let id = AnimationControllerId::from_bits(5);
    let preserve = AnimationTransitionStartTime::Preserve;
    assert_eq!(
        registry.transition_animation_controller(id, crossfade(20, 0.0, preserve), Ok(()), Ok(()), Vec::new(), 0),
        Ok(())
    );
    let (destination, side, _) = &registry.controllers[1];
    assert_eq!(destination.time, 1.25f64.to_bits());
    assert_eq!(side.as_ref().unwrap().0, live_source(11));
}

#[test]
fn crossfade_freezes_a_prepared_crossfade() {
    let mut registry = restored_registry();
    registry.controllers[1].1.as_mut().unwrap().2 = true;
    registry.controllers[1].0.state = AnimationPlaybackStatus::Paused;
    let held = vec![AnimationFrozenTransitionValue {
        target: EntityId { bits: 9 },
        property: property(0),
        value: AnimationValue::Field(FieldValue::F32(3.0f32.to_bits())),
        baseline: AnimationValue::Field(FieldValue::F32(4.0f32.to_bits())),
    }];
    let id = AnimationControllerId::from_bits(5);
    let restart = AnimationTransitionStartTime::Restart;
    assert_eq!(
        registry.transition_animation_controller(id, crossfade(20, 1.0, restart), Ok(()), Ok(()), held.clone(), 7),
        Ok(())
    );
    let (destination, side, _) = &registry.controllers[1];
    assert_eq!(destination.state, AnimationPlaybackStatus::Paused);
    assert_eq!(destination.time, 0);
    let AnimationPersistentTransitionSource::Frozen { values, bindings, reference_time, reference_duration } =
        &side.as_ref().unwrap().0
    else {
        panic!("a prepared crossfade is frozen");
    };
    assert_eq!(*values, held);
    assert!(bindings.description.drivers.is_empty());
    assert_eq!(bindings.state, AnimationPlaybackStatus::Stopped);
    assert_eq!(bindings.time, 0);
    assert_eq!(*reference_time, 1.25f64.to_bits());
    assert_eq!(*reference_duration, 7);
}

#[test]
fn crossfade_refusals_change_nothing() {
    let mut registry = restored_registry();
    let before = registry.controllers.clone();
    let id = AnimationControllerId::from_bits(2);
    let restart = AnimationTransitionStartTime::Restart;
    let refused = |registry: &mut AnimationControllerRegistry, id, t, d, h| {
        registry.transition_animation_controller(id, t, d, h, Vec::new(), 0)
    };
    assert_eq!(refused(&mut registry, id, crossfade(20, f64::NAN, restart), Ok(()), Ok(())), Err(ErrorReason::InvalidValue));
    assert_eq!(refused(&mut registry, id, crossfade(20, -1.0, restart), Ok(()), Ok(())), Err(ErrorReason::InvalidValue));
    let back = AnimationTransitionStartTime::Seek((-0.5f64).to_bits());
    assert_eq!(refused(&mut registry, id, crossfade(20, 1.0, back), Ok(()), Ok(())), Err(ErrorReason::InvalidValue));
    assert_eq!(
        refused(&mut registry, AnimationControllerId::from_bits(3), crossfade(20, 1.0, restart), Err(ErrorReason::InvalidAsset), Ok(())),
        Err(ErrorReason::InvalidAsset)
    );
    assert_eq!(
        refused(&mut registry, AnimationControllerId::from_bits(3), crossfade(20, 1.0, restart), Ok(()), Err(ErrorReason::MissingComponent)),
        Err(ErrorReason::InvalidValue)
    );
    assert_eq!(
        refused(&mut registry, id, crossfade(20, 1.0, restart), Ok(()), Err(ErrorReason::MissingComponent)),
        Err(ErrorReason::MissingComponent)
    );
    assert_eq!(registry.controllers, before);
    assert_eq!(registry.demand_revision, 1);
}

fn invalidated(id: u64, state: AnimationPlaybackStatus, time: f64) -> AnimationPlaybackEvent {
    AnimationPlaybackEvent {
        controller: AnimationControllerState { id: AnimationControllerId::from_bits(id), state, time: time.to_bits() },
        kind: AnimationPlaybackEventKind::Invalidated,
        reason: Some(ErrorReason::MissingComponent),
    }
}

#[test]
fn invalidation_drops_ended_drivers_and_stops_emptied_controllers() {
    let mut registry = restored_registry();
    let mut second = controller(5, 9, "asset://7/11", true).description.drivers[0].clone();
    second.target = EntityId { bits: 30 };
    registry.controllers[0].0.description.drivers.push(second.clone());
    registry.index.description_demand_clean = true;
    let ended = vec![
        (AnimationControllerId::from_bits(2), vec![true, false]),
        (AnimationControllerId::from_bits(5), vec![true]),
        (AnimationControllerId::from_bits(4), vec![true]),
    ];
    let events = registry.invalidate_changes(&ended, &Vec::new());
    assert_eq!(
        events,
        vec![
            invalidated(2, AnimationPlaybackStatus::Playing, 1.25),
            invalidated(5, AnimationPlaybackStatus::Stopped, 1.25),
        ]
    );
    assert_eq!(registry.controllers[0].0.description.drivers, vec![second]);
    assert_eq!(registry.controllers[0].0.state, AnimationPlaybackStatus::Playing);
    assert!(registry.controllers[1].0.description.drivers.is_empty());
    assert_eq!(registry.controllers[1].0.state, AnimationPlaybackStatus::Stopped);
    // The crossfade survives the first phase.
    assert!(registry.controllers[1].1.is_some());
    assert!(!registry.index.description_demand_clean);
    assert_eq!(registry.demand_revision, 1);
}

#[test]
fn invalidation_stops_invalid_controllers_and_drops_their_crossfade() {
    let mut registry = restored_registry();
    registry.index.description_demand_clean = true;
    let before = registry.controllers[0].clone();
    let ended = vec![(AnimationControllerId::from_bits(2), vec![false])];
    let invalid = vec![AnimationControllerId::from_bits(5), AnimationControllerId::from_bits(9)];
    let events = registry.invalidate_changes(&ended, &invalid);
    assert_eq!(events, vec![invalidated(5, AnimationPlaybackStatus::Stopped, 1.25)]);
    assert_eq!(registry.controllers[0], before);
    let (stopped, side, _) = &registry.controllers[1];
    assert_eq!(stopped.state, AnimationPlaybackStatus::Stopped);
    assert!(stopped.transition.is_none());
    assert!(side.is_none());
    assert_eq!(stopped.description, controller(5, 9, "asset://7/11", true).description);
    assert!(registry.index.description_demand_clean);
}

#[test]
fn restore_of_a_saved_registry_gives_back_its_controllers() {
    let registry = restored_registry();
    let mut ids = std::collections::BTreeMap::new();
    for entity in [9u64, 10, 11] {
        ids.insert(entity, entity);
    }
    let mut bytes = 0usize;
    let saved = lib::systems::animation::save::save_persistent_state(
        registry.controllers.clone(),
        registry.next_id,
        &ids,
        &mut bytes,
        1 << 20,
    )
    .unwrap();
    let mut again = AnimationControllerRegistry::new();
    assert_eq!(restore(&mut again, saved, &world(&[])), Ok(()));
    assert_eq!(again.controllers, registry.controllers);
    assert_eq!(again.next_id, registry.next_id);
    assert_eq!(again.index.target_keys, registry.index.target_keys);
}

#[test]
fn removal_forgets_the_controller_and_its_demand() {
    let mut registry = restored_registry();
    let id = AnimationControllerId::from_bits(2);
    registry
        .transition_animation_controller(
            id,
            crossfade(20, 1.0, AnimationTransitionStartTime::Restart),
            Ok(()),
            Ok(()),
            Vec::new(),
            0,
        )
        .unwrap();
    assert_eq!(registry.demand_revision, 2);
    assert_eq!(registry.remove_animation_controller(id), Ok(()));
    let ids: Vec<u64> = registry.controllers.iter().map(|e| e.0.id.bits).collect();
    assert_eq!(ids, vec![5]);
    assert!(!registry.index.target_keys.contains_key(&2));
    assert_eq!(registry.demand_revision, 3);
    let sources: Vec<&str> = registry.animation_sources.iter().map(|s| s.source.as_str()).collect();
    assert_eq!(sources, vec!["asset://7/11"]);
    let before = registry.controllers.clone();
    assert_eq!(registry.remove_animation_controller(id), Err(ErrorReason::InvalidValue));
    assert_eq!(registry.controllers, before);
    assert_eq!(registry.demand_revision, 3);
}
