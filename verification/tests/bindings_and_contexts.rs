use lib::ids::{EntityId, SystemId, WorldId};
use lib::systems::bindings::{compact_dependencies, validate_parameter_services, SystemEcsAccess};
use lib::systems::camera::CameraSystem;
use lib::systems::contexts::{copy_vec, SystemDependencies, SystemInitContext, SystemWorldView};
use lib::systems::{GeometrySystem, SystemBox, SystemDependency, SystemInitError, SystemInstance};
use lib::world::{
    ComponentStorage, ComponentValue, EntityAllocator, EntityMetadata, EntityRecord, FieldValue, StoredComponent,
    WorldEntityState, WorldSimulationState, CAMERA, SCALAR, TRANSFORM,
};

fn component(type_id: u16) -> ComponentValue {
    ComponentValue { type_id, fields: vec![(0, FieldValue::U32(type_id as u32))] }
}

fn record(id: EntityId) -> EntityRecord {
    EntityRecord { id, metadata: EntityMetadata { active: true, layer: 2 }, layers: Vec::new() }
}

/// Slots 1 and 2 are live and authored; slot 3 is authored but freed.
fn world() -> WorldSimulationState {
    WorldSimulationState {
        id: WorldId(5),
        identity: 0,
        tick: u64::MAX,
        components: ComponentStorage {
            slots: vec![
                StoredComponent { index: 1, value: component(TRANSFORM) },
                StoredComponent { index: 1, value: component(CAMERA) },
                StoredComponent { index: 2, value: component(SCALAR) },
            ],
        },
        state: WorldEntityState {
            allocator: EntityAllocator { generations: vec![None, Some(0), Some(0), None] },
            entities: vec![record(EntityId::new(1, 0)), record(EntityId::new(2, 0)), record(EntityId::new(3, 0))],
        },
        restoring: false,
        forced_cleanup: false,
        lifecycle_cleanup: Vec::new(),
    }
}

#[test]
fn compaction_keeps_present_dependencies_first_in_order() {
    let values = [
        None,
        Some(SystemDependency::Required(SystemId("a"))),
        None,
        Some(SystemDependency::After(SystemId("b"))),
    ];
    let (compacted, len) = compact_dependencies(&values);
    assert_eq!(len, 2);
    assert_eq!(compacted.len(), 4);
    assert!(matches!(compacted[0], SystemDependency::Required(SystemId("a"))));
    assert!(matches!(compacted[1], SystemDependency::After(SystemId("b"))));
    assert!(matches!(compacted[2], SystemDependency::After(SystemId(""))));
    assert!(matches!(compacted[3], SystemDependency::After(SystemId(""))));
    let (empty, none) = compact_dependencies(&[]);
    assert!(empty.is_empty() && none == 0);
}

#[test]
fn duplicate_service_slots_are_rejected() {
    assert!(validate_parameter_services(&[Some("assets"), None, Some("time")]).is_ok());
    assert!(validate_parameter_services(&[None, None]).is_ok());
    match validate_parameter_services(&[Some("time"), Some("assets"), Some("assets"), Some("time")]) {
        Err(SystemInitError::Message(message)) => assert_eq!(message, "duplicate update service parameter assets"),
        other => panic!("expected a duplicate refusal, got {other:?}"),
    }
}

#[test]
fn world_views_observe_live_authored_entities_in_order() {
    let world = world();
    let view = SystemWorldView { world: &world, authored: &world.state };
    assert_eq!(view.id(), WorldId(5));
    assert_eq!(view.next_tick(), u64::MAX);
    let snapshot = view.inspect_effective(EntityId::new(1, 0)).unwrap();
    assert_eq!(snapshot.metadata.layer, 2);
    let types: Vec<u16> = snapshot.components.iter().map(|c| c.type_id).collect();
    assert_eq!(types, vec![TRANSFORM, CAMERA]);
    assert!(view.inspect_effective(EntityId::new(3, 0)).is_none());
    assert!(view.inspect_effective(EntityId::new(1, 1)).is_none());
    assert_eq!(view.effective_component(EntityId::new(2, 0), SCALAR).unwrap().fields, vec![(0, FieldValue::U32(SCALAR as u32))]);
    assert!(view.effective_component(EntityId::new(2, 0), CAMERA).is_none());
    let all: Vec<EntityId> = view.entities_effective().iter().map(|s| s.id).collect();
    assert_eq!(all, vec![EntityId::new(1, 0), EntityId::new(2, 0)]);

    let ecs = SystemEcsAccess { world: &world };
    assert_eq!(ecs.id(), WorldId(5));
    assert!(ecs.inspect_effective(EntityId::new(2, 0)).is_some());
}

#[test]
fn dependencies_resolve_only_declared_predecessors_of_the_requested_type() {
    let world = world();
    let instances = vec![
        SystemInstance { id: SystemId("ipp.geometry"), system: SystemBox::Geometry(GeometrySystem) },
        SystemInstance { id: SystemId("ipp.camera"), system: SystemBox::Camera(CameraSystem::new()) },
    ];
    let declared = [1usize, 0];
    let context = SystemInitContext {
        identity: 9,
        dependent: 2,
        declared_dependencies: &declared,
        instances: &instances,
        world: SystemWorldView { world: &world, authored: &world.state },
    };
    let geometry = context.dependency::<GeometrySystem>(SystemId("ipp.geometry")).unwrap();
    assert_eq!((geometry.world, geometry.dependent, geometry.slot), (9, 2, 0));
    assert!(context.get(&geometry).is_some());
    assert!(matches!(
        context.dependency::<CameraSystem>(SystemId("ipp.geometry")),
        Err(SystemInitError::DependencyType(SystemId("ipp.geometry")))
    ));
    assert!(matches!(
        context.dependency::<GeometrySystem>(SystemId("ipp.render")),
        Err(SystemInitError::UnavailableDependency(SystemId("ipp.render")))
    ));

    // A binding made for another dependent does not resolve.
    let mut foreign = geometry.copy();
    foreign.dependent = 3;
    assert!(context.get(&foreign).is_none());

    let deps = SystemDependencies { identity: 9, dependent: 2, instances: &instances, trailing: None };
    assert!(deps.get(&geometry).is_some());
    assert!(deps.get(&foreign).is_none());
}

#[test]
fn copies_are_equal() {
    let v = vec![1u8, 2, 3];
    assert_eq!(copy_vec(&v), v);
}
