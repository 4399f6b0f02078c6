use lib::context::WorldContext;
use lib::ids::{EntityId, ErrorReason, SystemId, WorldId};
use lib::systems::asset_dependencies::{
    AssetDependencySystem, AssetKey, AssetTypeId, AssetUpload, AssetUploadIdentity, UploadStatus,
};
use lib::systems::camera::{CameraCommand, CameraStatePatch, CameraSystem, CameraSystemFactory};
use lib::systems::composition::{
    builtin_system_table, compiled_system_factories, validate_authoring_factories, validate_authoring_instances,
};
use lib::systems::contexts::{SystemInitContext, SystemWorldView};
use lib::systems::constraints::ConstraintSystem;
use lib::systems::{
    GeometrySystem, OpaqueKind, OpaqueSystem, SystemBox, SystemDependency, SystemInitError, SystemInstance,
    SystemKind, SystemScheduleError,
};
use lib::world::{
    ComponentStorage, ComponentValue, EntityAllocator, FieldValue, StoredComponent, WorldEntityState,
    WorldSimulationState, CAMERA, TRANSFORM,
};

fn component(type_id: u16) -> ComponentValue {
    ComponentValue { type_id, fields: vec![(0, FieldValue::F32(1.0f32.to_bits()))] }
}

/// Slot 0 holds a camera with a transform; slot 1 only a camera; slot 2 is free.
fn world() -> WorldSimulationState {
    WorldSimulationState {
        id: WorldId(1),
        identity: 0,
        tick: 7,
        components: ComponentStorage {
            slots: vec![
                StoredComponent { index: 0, value: component(CAMERA) },
                StoredComponent { index: 0, value: component(TRANSFORM) },
                StoredComponent { index: 1, value: component(CAMERA) },
            ],
        },
        state: WorldEntityState {
            allocator: EntityAllocator { generations: vec![Some(0), Some(3), None] },
            entities: Vec::new(),
        },
        restoring: false,
        forced_cleanup: false,
        lifecycle_cleanup: Vec::new(),
    }
}

#[test]
fn activation_selects_live_cameras_and_reports_changes_once() {
    let world = world();
    let mut camera = CameraSystem::new();
    let entity = EntityId::new(0, 0);
    assert_eq!(camera.activate(&world, entity, Ok(())), Ok(()));
    assert_eq!(camera.state.active_camera, Some(entity));
    // Re-selecting the active camera reports nothing new.
    assert_eq!(camera.activate(&world, entity, Ok(())), Ok(()));
    let changes = camera.finish_update(8);
    assert_eq!(changes.len(), 1);
    assert_eq!(changes[0].tick, 8);
    assert_eq!(changes[0].changes, CameraStatePatch { active_camera: Some(entity) });
    assert!(camera.finish_update(9).is_empty());
}

#[test]
fn activation_errors_leave_the_selection_unchanged() {
    let world = world();
    let mut camera = CameraSystem::new();
    assert_eq!(camera.activate(&world, EntityId::new(2, 0), Ok(())), Err(ErrorReason::InvalidEntity));
    assert_eq!(camera.activate(&world, EntityId::new(1, 2), Ok(())), Err(ErrorReason::InvalidEntity));
    assert_eq!(camera.activate(&world, EntityId::new(1, 3), Ok(())), Err(ErrorReason::MissingComponent));
    assert_eq!(
        camera.activate(&world, EntityId::new(0, 0), Err(ErrorReason::InvalidValue)),
        Err(ErrorReason::InvalidValue)
    );
    assert_eq!(camera.state.active_camera, None);
    assert!(camera.finish_update(1).is_empty());
}

#[test]
fn commands_teardown_and_viewport() {
    let world = world();
    let mut camera = CameraSystem::new();
    let entity = EntityId::new(0, 0);
    assert_eq!(camera.command(&world, CameraCommand::Activate(entity), Ok(())), Ok(()));
    camera.set_render_viewport(Some((640, 480)));
    {
        let read = camera.read(&world);
        assert_eq!(read.active_camera(), Some(entity));
        assert_eq!(read.render_viewport(), Some((640, 480)));
        let value = read.active_camera_component().unwrap();
        assert_eq!(value.type_id, CAMERA);
    }
    camera.teardown();
    assert_eq!(camera.state.active_camera, None);
    assert_eq!(camera.state.render_viewport, Some((640, 480)));
    assert!(camera.read(&world).active_camera_component().is_none());
}

#[test]
fn camera_factory_requires_geometry() {
    let factory = CameraSystemFactory;
    assert_eq!(factory.id().0, "ipp.camera");
    let deps = factory.dependencies();
    assert_eq!(deps.len(), 1);
    assert!(matches!(deps[0], SystemDependency::Required(SystemId("ipp.geometry"))));

    let world = world();
    let authored = WorldEntityState { allocator: EntityAllocator { generations: Vec::new() }, entities: Vec::new() };
    let instances = vec![SystemInstance { id: SystemId("ipp.geometry"), system: SystemBox::Geometry(GeometrySystem) }];
    let declared = [0usize];
    let context = SystemInitContext {
        identity: 1,
        dependent: 1,
        declared_dependencies: &declared,
        instances: &instances,
        world: SystemWorldView { world: &world, authored: &authored },
    };
    let created = factory.create(&context).unwrap();
    assert_eq!(created.state.active_camera, None);

    let undeclared = SystemInitContext {
        identity: 1,
        dependent: 1,
        declared_dependencies: &[],
        instances: &instances,
        world: SystemWorldView { world: &world, authored: &authored },
    };
    assert!(matches!(
        factory.create(&undeclared),
        Err(SystemInitError::UnavailableDependency(SystemId("ipp.geometry")))
    ));
}

fn context_with_systems() -> WorldContext {
    WorldContext {
        world: world(),
        systems: vec![
            SystemInstance { id: SystemId("ipp.camera"), system: SystemBox::Camera(CameraSystem::new()) },
            SystemInstance {
                id: SystemId("ipp.asset-dependencies"),
                system: SystemBox::AssetDependencies(AssetDependencySystem::new()),
            },
            SystemInstance { id: SystemId("ipp.constraints"), system: SystemBox::Constraints(ConstraintSystem::new()) },
        ],
        commands: Vec::new(),
    }
}

fn upload(id: u64, asset: u64) -> AssetUpload {
    AssetUpload {
        id,
        key: AssetUploadIdentity { kind: AssetTypeId(3), asset, variant: 0 },
        bytes: vec![1, 2, 3],
    }
}

#[test]
fn world_context_routes_camera_queries_and_commands() {
    let mut context = context_with_systems();
    assert_eq!(context.active_camera(), None);
    assert_eq!(context.enqueue_camera_activate(EntityId::new(0, 0)), Ok(()));
    assert_eq!(context.commands.len(), 1);
    assert_eq!(context.render_viewport(), None);
    context.set_render_viewport(Some((800, 600)));
    assert_eq!(context.render_viewport(), Some((800, 600)));
    assert!(context.active_camera_component().is_none());
    assert_eq!(context.driver_bound(EntityId::new(0, 0)), None);
}

#[test]
fn world_context_queues_uploads_and_rejects_reserved_assets() {
    let mut context = context_with_systems();
    assert_eq!(context.pending_asset_uploads(), 0);
    assert_eq!(context.enqueue_asset(upload(1, 5)), Ok(()));
    assert_eq!(context.enqueue_asset(upload(2, 1 << 63)), Err(ErrorReason::InvalidAsset));
    assert_eq!(context.pending_asset_uploads(), 1);
    let outcomes = context.take_asset_outcomes::<u64>(Vec::new());
    assert!(outcomes.is_empty());
}

#[test]
fn world_context_settles_recorded_uploads_at_the_world_tick() {
    let mut context = context_with_systems();
    let SystemBox::AssetDependencies(assets) = &mut context.systems[1].system else {
        unreachable!();
    };
    assets.state.enqueue_asset(upload(4, 5)).unwrap();
    assets.state.enqueue_asset(upload(6, 6)).unwrap();
    assets.state.accept_asset_uploads(vec![Ok(AssetKey(9)), Ok(AssetKey(10))]);
    let outcomes = context.take_asset_outcomes(vec![UploadStatus::Loaded(42u64), UploadStatus::Loading]);
    assert_eq!(outcomes.len(), 1);
    assert_eq!(outcomes[0].id, 4);
    assert_eq!(outcomes[0].tick, 7);
    assert_eq!(outcomes[0].result, Ok(42));
    assert_eq!(context.pending_asset_uploads(), 1);
}

#[test]
fn authoring_requires_every_builtin_system() {
    let ids: Vec<SystemId> = compiled_system_factories().iter().map(|f| f.id).collect();
    assert_eq!(ids.len(), 11);
    assert!(validate_authoring_factories(&ids).is_ok());

    let without_camera: Vec<SystemId> = ids.iter().copied().filter(|id| id.0 != "ipp.camera").collect();
    match validate_authoring_factories(&without_camera) {
        Err(SystemScheduleError::MissingRequired { system, required }) => {
            assert_eq!(system.0, "ipp.world");
            assert_eq!(required.0, "ipp.camera");
        }
        Ok(()) => panic!("camera is required"),
    }

    // The first missing system in registration order is reported.
    let without_two: Vec<SystemId> =
        ids.iter().copied().filter(|id| id.0 != "ipp.render" && id.0 != "ipp.animation").collect();
    match validate_authoring_factories(&without_two) {
        Err(SystemScheduleError::MissingRequired { required, .. }) => assert_eq!(required.0, "ipp.animation"),
        Ok(()) => panic!("animation is required"),
    }
    assert_eq!(builtin_system_table().len(), 11);
}

#[test]
fn authoring_identities_must_hold_their_own_types() {
    let good = vec![
        SystemInstance { id: SystemId("ipp.camera"), system: SystemBox::Camera(CameraSystem::new()) },
        SystemInstance {
            id: SystemId("custom.system"),
            system: SystemBox::Opaque(OpaqueSystem { kind: OpaqueKind::Custom(4) }),
        },
    ];
    assert!(validate_authoring_instances(&good).is_ok());

    let bad = vec![
        SystemInstance { id: SystemId("ipp.camera"), system: SystemBox::Camera(CameraSystem::new()) },
        SystemInstance { id: SystemId("ipp.render"), system: SystemBox::Geometry(GeometrySystem) },
        SystemInstance { id: SystemId("custom.other"), system: SystemBox::Geometry(GeometrySystem) },
    ];
    assert!(matches!(
        validate_authoring_instances(&bad),
        Err(SystemInitError::AuthoringSystemType(SystemId("ipp.render")))
    ));
    assert_eq!(SystemBox::Geometry(GeometrySystem).kind(), SystemKind::Geometry);
}

#[test]
fn world_context_releases_unretained_uploads_and_resolves_keys() {
    let mut context = context_with_systems();
    let key = AssetUploadIdentity { kind: AssetTypeId(3), asset: 5, variant: 0 };
    assert!(context.release_asset_upload(key));
    assert_eq!(context.resolve_asset_key(key, None, Some(AssetKey(4))), Some(AssetKey(4)));
    assert_eq!(context.resolve_asset_key(AssetUploadIdentity { asset: 1 << 63, ..key }, None, Some(AssetKey(4))), None);
}

#[test]
fn selection_follows_the_last_accepted_activation() {
    let world = world();
    let mut camera = CameraSystem::new();
    let good = EntityId::new(0, 0);
    let commands = [
        (CameraCommand::Activate(good), Ok(())),
        (CameraCommand::Activate(EntityId::new(1, 3)), Ok(())),
        (CameraCommand::Activate(EntityId::new(2, 0)), Ok(())),
        (CameraCommand::Activate(good), Err(ErrorReason::InvalidValue)),
    ];
    let mut last_accepted = None;
    for (command, prepared) in commands {
        let CameraCommand::Activate(entity) = command;
        if camera.command(&world, command, prepared).is_ok() {
            last_accepted = Some(entity);
        }
        assert_eq!(camera.state.active_camera, last_accepted);
    }
    assert_eq!(last_accepted, Some(good));
}

#[test]
fn queued_activation_leaves_the_selection_until_applied() {
    let mut context = context_with_systems();
    let before = context.active_camera();
    assert_eq!(context.enqueue_camera_activate(EntityId::new(0, 0)), Ok(()));
    assert_eq!(context.active_camera(), before);
    context.set_render_viewport(Some((640, 480)));
    assert_eq!(context.render_viewport(), Some((640, 480)));
    assert_eq!(context.active_camera(), before);
}

#[test]
fn applied_queued_activations_select_in_order() {
    let mut context = context_with_systems();
    assert_eq!(context.apply_next_command(Ok(())), None);
    let good = EntityId::new(0, 0);
    context.enqueue_camera_activate(good).unwrap();
    context.enqueue_camera_activate(EntityId::new(1, 3)).unwrap();
    assert_eq!(context.active_camera(), None);
    assert_eq!(context.apply_next_command(Ok(())), Some(Ok(())));
    assert_eq!(context.active_camera(), Some(good));
    assert_eq!(context.apply_next_command(Ok(())), Some(Err(ErrorReason::MissingComponent)));
    assert_eq!(context.active_camera(), Some(good));
    assert!(context.commands.is_empty());
}
