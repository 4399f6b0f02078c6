use lib::ids::EntityId;
use lib::systems::animation::target_index::{controller_targets, sorted_targets, AnimationTargetIndex};
use lib::systems::animation::{
    AnimationControllerDescription, AnimationControllerId, AnimationControllerSnapshot,
    AnimationDriverDescription, AnimationFrozenTransitionValue, AnimationPersistentTransitionSource,
    AnimationPlaybackStatus, AnimationProperty, AnimationTrackTarget, AnimationValue,
};
use lib::world::{
    EntityAllocator, FieldValue, WorldEntityState, WorldMutationState, SCALAR, TRANSFORM,
};

fn drives(index: &AnimationTargetIndex, key: (u64, u16), id: u64) -> bool {
    index
        .target_controllers
        .get(&key)
        .is_some_and(|set| set.contains(&id))
}

fn sorted(mut v: Vec<u64>) -> Vec<u64> {
    v.sort();
    v.dedup();
    v
}

#[test]
fn sorted_targets_orders_and_dedups() {
    let keys = vec![(9, 3), (2, 1), (9, 1), (2, 1), (9, 3)];
    assert_eq!(sorted_targets(&keys), vec![(2, 1), (9, 1), (9, 3)]);
    assert!(sorted_targets(&Vec::new()).is_empty());
}

#[test]
fn indexing_records_both_directions_and_reports_sharers() {
    let mut index = AnimationTargetIndex::new();
    assert!(index.index_controller(1, &vec![(10, 1), (11, 1)]).is_empty());
    assert_eq!(index.target_keys[&1], vec![(10, 1), (11, 1)]);
    let shared = index.index_controller(2, &vec![(11, 1), (12, 3), (11, 1)]);
    assert_eq!(sorted(shared), vec![1]);
    assert_eq!(index.target_keys[&2], vec![(11, 1), (12, 3)]);
    assert!(drives(&index, (11, 1), 1) && drives(&index, (11, 1), 2));
    assert!(!drives(&index, (10, 1), 2));
    assert!(!index.description_demand_clean);
}

#[test]
fn reindexing_replaces_targets_and_reports_old_and_new_sharers() {
    let mut index = AnimationTargetIndex::new();
    index.index_controller(1, &vec![(10, 1)]);
    index.index_controller(2, &vec![(20, 1)]);
    index.index_controller(3, &vec![(30, 1)]);
    let shared = index.index_controller(1, &vec![(20, 1)]);
    assert_eq!(sorted(shared), vec![2]);
    assert!(!index.target_controllers.contains_key(&(10, 1)));
    assert!(drives(&index, (20, 1), 1));
    let shared = index.index_controller(1, &vec![(30, 1)]);
    assert_eq!(sorted(shared), vec![2, 3]);
}

#[test]
fn unindexing_forgets_the_controller_and_drops_empty_targets() {
    let mut index = AnimationTargetIndex::new();
    index.index_controller(1, &vec![(10, 1), (11, 1)]);
    index.index_controller(2, &vec![(11, 1)]);
    index.description_demand_clean = true;
    let shared = index.unindex_controller(1);
    assert_eq!(sorted(shared), vec![2]);
    assert!(!index.description_demand_clean);
    assert!(!index.target_keys.contains_key(&1));
    assert!(!index.target_controllers.contains_key(&(10, 1)));
    assert!(drives(&index, (11, 1), 2) && !drives(&index, (11, 1), 1));
    assert!(index.unindex_controller(7).is_empty());
}

#[test]
fn rebuild_indexes_every_controller_and_reports_earlier_sharers() {
    let mut index = AnimationTargetIndex::new();
    index.index_controller(9, &vec![(1, 1)]);
    let controllers = vec![
        (1u64, vec![(10, 1)]),
        (2u64, vec![(10, 1), (20, 1)]),
        (3u64, vec![(20, 1)]),
        (4u64, vec![(40, 1)]),
    ];
    let shared = index.rebuild_target_index(&controllers);
    assert_eq!(sorted(shared), vec![1, 2]);
    assert!(!index.target_keys.contains_key(&9));
    assert_eq!(index.target_keys.len(), 4);
    assert!(drives(&index, (20, 1), 2) && drives(&index, (20, 1), 3));
}

fn driver(target: u64, component: u16) -> AnimationDriverDescription {
    AnimationDriverDescription {
        source: "asset://7/11".to_string(),
        variant: 0,
        track: 0,
        target: EntityId::from_bits(target),
        property: AnimationTrackTarget::AnimationProperty(AnimationProperty {
            component,
            offsets: vec![0],
        }),
        weight: 1.0f32.to_bits(),
        additive: false,
        reference_time: 0,
        repeat: false,
    }
}

fn snapshot(id: u64, drivers: Vec<AnimationDriverDescription>) -> AnimationControllerSnapshot {
    AnimationControllerSnapshot {
        id: AnimationControllerId::from_bits(id),
        description: AnimationControllerDescription {
            drivers,
            speed: 1.0f32.to_bits(),
            looping: false,
        },
        state: AnimationPlaybackStatus::Playing,
        time: 0,
        transition: None,
    }
}

#[test]
fn controller_targets_cover_description_and_transition_source() {
    let own = snapshot(1, vec![driver(5, SCALAR), driver(6, TRANSFORM)]);
    assert_eq!(controller_targets(&own, None), vec![(5, SCALAR), (6, TRANSFORM)]);
    let live = AnimationPersistentTransitionSource::Live(snapshot(1, vec![driver(7, SCALAR)]));
    assert_eq!(
        controller_targets(&own, Some(&live)),
        vec![(5, SCALAR), (6, TRANSFORM), (7, SCALAR)]
    );
    let frozen = AnimationPersistentTransitionSource::Frozen {
        values: vec![AnimationFrozenTransitionValue {
            target: EntityId::from_bits(8),
            property: AnimationTrackTarget::DynamicProperty {
                component: TRANSFORM,
                name: "x".to_string(),
            },
            value: AnimationValue::Field(FieldValue::F32(0)),
            baseline: AnimationValue::Field(FieldValue::F32(0)),
        }],
        bindings: snapshot(1, vec![driver(9, SCALAR)]),
        reference_time: 0,
        reference_duration: 0,
    };
    assert_eq!(
        controller_targets(&own, Some(&frozen)),
        vec![(5, SCALAR), (6, TRANSFORM), (8, TRANSFORM), (9, SCALAR)]
    );
}

#[test]
fn affected_controllers_follow_changed_components() {
    let mut index = AnimationTargetIndex::new();
    index.index_controller(3, &vec![(10, SCALAR)]);
    index.index_controller(1, &vec![(10, SCALAR), (11, SCALAR)]);
    index.index_controller(2, &vec![(12, SCALAR)]);
    let staged = WorldMutationState {
        entities_state: WorldEntityState {
            allocator: EntityAllocator { generations: Vec::new() },
            entities: Vec::new(),
        },
        changed: vec![
            ((EntityId::from_bits(11), SCALAR), None),
            ((EntityId::from_bits(10), SCALAR), Some(4)),
            ((EntityId::from_bits(10), TRANSFORM), None),
        ],
        operation_components: Vec::new(),
        operation_created: Vec::new(),
        operation_deleted: Vec::new(),
        dirty: Vec::new(),
        explicit_fields: Vec::new(),
    };
    assert_eq!(index.affected_by(&staged), vec![1, 3]);
}
