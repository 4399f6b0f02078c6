use lib::ids::{EntityId, ErrorReason};
use lib::systems::animation::demand::{
    add_description_demand, controller_demand, sync_description_demand, ANIMATION_TYPE,
};
use lib::systems::animation::{
    AnimationControllerDescription, AnimationControllerId, AnimationControllerSnapshot,
    AnimationDriverDescription, AnimationPersistentTransitionSource, AnimationPlaybackStatus,
    AnimationProperty, AnimationTrackTarget, MAX_CONTROLLERS,
};
use lib::systems::asset_dependencies::{AssetDemandSelection, AssetTypeId};
use lib::world::SCALAR;

fn driver(source: &str, variant: u32) -> AnimationDriverDescription {
    AnimationDriverDescription {
        source: source.to_string(),
        variant,
        track: 0,
        target: EntityId::from_bits(1),
        property: AnimationTrackTarget::AnimationProperty(AnimationProperty {
            component: SCALAR,
            offsets: vec![0],
        }),
        weight: 1.0f32.to_bits(),
        additive: false,
        reference_time: 0,
        repeat: false,
    }
}

fn description(drivers: Vec<AnimationDriverDescription>) -> AnimationControllerDescription {
    AnimationControllerDescription {
        drivers,
        speed: 1.0f32.to_bits(),
        looping: false,
    }
}

fn snapshot(id: u64, drivers: Vec<AnimationDriverDescription>) -> AnimationControllerSnapshot {
    AnimationControllerSnapshot {
        id: AnimationControllerId::from_bits(id),
        description: description(drivers),
        state: AnimationPlaybackStatus::Stopped,
        time: 0,
        transition: None,
    }
}

fn names(demand: &[AssetDemandSelection]) -> Vec<(u32, String, u32)> {
    let mut v: Vec<_> = demand
        .iter()
        .map(|s| (s.kind.0, s.source.clone(), s.variant))
        .collect();
    v.sort();
    v
}

#[test]
fn description_demand_names_each_clip_source_once() {
    let mut demand = Vec::new();
    add_description_demand(
        &description(vec![driver("asset://1", 0), driver("asset://1", 0), driver("asset://1", 2)]),
        &mut demand,
    );
    assert_eq!(
        names(&demand),
        vec![
            (ANIMATION_TYPE, "asset://1".to_string(), 0),
            (ANIMATION_TYPE, "asset://1".to_string(), 2)
        ]
    );
}

#[test]
fn controller_demand_skips_removed_and_replaced_controllers() {
    let controllers = vec![
        snapshot(1, vec![driver("asset://a", 0)]),
        snapshot(2, vec![driver("asset://b", 0)]),
        snapshot(3, vec![driver("asset://c", 0)]),
    ];
    let replacement = description(vec![driver("asset://d", 1)]);
    let demand = controller_demand(
        &controllers,
        Some((AnimationControllerId::from_bits(2), &replacement)),
        Some(AnimationControllerId::from_bits(3)),
    )
    .unwrap();
    assert_eq!(
        names(&demand),
        vec![
            (ANIMATION_TYPE, "asset://a".to_string(), 0),
            (ANIMATION_TYPE, "asset://d".to_string(), 1)
        ]
    );
    assert_eq!(names(&controller_demand(&controllers, None, None).unwrap()).len(), 3);
}

#[test]
fn controller_demand_refuses_more_controllers_than_capacity() {
    let controllers: Vec<_> = (1..=MAX_CONTROLLERS as u64).map(|id| snapshot(id, Vec::new())).collect();
    assert!(controller_demand(&controllers, None, None).is_ok());
    let extra = description(Vec::new());
    assert_eq!(
        controller_demand(
            &controllers,
            Some((AnimationControllerId::from_bits(0), &extra)),
            None
        )
        .unwrap_err(),
        ErrorReason::Capacity
    );
    assert!(controller_demand(
        &controllers,
        Some((AnimationControllerId::from_bits(5), &extra)),
        None
    )
    .is_ok());
    assert!(controller_demand(
        &controllers,
        Some((AnimationControllerId::from_bits(0), &extra)),
        Some(AnimationControllerId::from_bits(7))
    )
    .is_ok());
}

#[test]
fn sync_keeps_only_described_clip_sources_and_advances_revision() {
    let mut sources = vec![
        AssetDemandSelection::new(AssetTypeId(ANIMATION_TYPE), "asset://gone", 0),
        AssetDemandSelection::new(AssetTypeId(ANIMATION_TYPE), "asset://a", 0),
        AssetDemandSelection::new(AssetTypeId(3), "asset://a", 0),
    ];
    let mut revision = u64::MAX;
    let controllers = vec![
        (snapshot(1, vec![driver("asset://a", 0)]), None),
        (
            snapshot(2, vec![driver("asset://b", 1)]),
            Some(AnimationPersistentTransitionSource::Live(snapshot(2, vec![driver("asset://c", 0)]))),
        ),
    ];
    sync_description_demand(&mut sources, &mut revision, &controllers);
    assert_eq!(revision, 0);
    assert_eq!(sources[0].source, "asset://a");
    assert_eq!(
        names(&sources),
        vec![
            (ANIMATION_TYPE, "asset://a".to_string(), 0),
            (ANIMATION_TYPE, "asset://b".to_string(), 1),
            (ANIMATION_TYPE, "asset://c".to_string(), 0)
        ]
    );
}
