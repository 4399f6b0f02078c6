use lib::ids::{str_equal, EntityId, ErrorReason, SystemId, WorldId, INDEX_SPACE};
use lib::keyed::KeyedMap;
use lib::systems::constraints::{
    binding, declaration, valid, ConstraintDriverIdentity, ConstraintSystem, ConstraintSystemFactory,
    ScalarConstraintBinding,
};
use lib::systems::SystemDependency;
use lib::world::{
    ComponentInput, ComponentLayer, ComponentValue, EntityAllocator, EntityMetadata, EntityRecord, EntityRef,
    FieldValue, FieldWrite, WorldEntityState, WorldMutationState, CAMERA, LINEAR_DRIVER, SCALAR,
};

fn source() -> EntityId {
    EntityId::new(1, 0)
}

fn target() -> EntityId {
    EntityId::new(2, 0)
}

fn layer(component: u16, incarnation: u64, fields: Vec<(u32, FieldValue)>) -> ComponentLayer {
    ComponentLayer { component, input: Some(ComponentInput { incarnation, value: ComponentValue { type_id: component, fields } }) }
}

fn record(id: EntityId, layers: Vec<ComponentLayer>) -> EntityRecord {
    EntityRecord { id, metadata: EntityMetadata { active: true, layer: 0 }, layers }
}

/// The target's driver names the source; both carry Scalar inputs.
fn authored(source_scalar: bool) -> WorldEntityState {
    let mut source_layers = Vec::new();
    if source_scalar {
        source_layers.push(layer(SCALAR, 5, vec![(0, FieldValue::F32(0))]));
    }
    WorldEntityState {
        allocator: EntityAllocator { generations: vec![None, Some(0), Some(0)] },
        entities: vec![
            record(source(), source_layers),
            record(
                target(),
                vec![
                    layer(SCALAR, 6, vec![(0, FieldValue::F32(0))]),
                    layer(LINEAR_DRIVER, 7, vec![(0, FieldValue::Entity(source()))]),
                ],
            ),
        ],
    }
}

fn staged(entities_state: WorldEntityState, touched: bool) -> WorldMutationState {
    WorldMutationState {
        entities_state,
        changed: Vec::new(),
        operation_components: if touched { vec![(target(), LINEAR_DRIVER)] } else { Vec::new() },
        operation_created: Vec::new(),
        operation_deleted: Vec::new(),
        dirty: Vec::new(),
        explicit_fields: Vec::new(),
    }
}

#[test]
fn declarations_and_bindings_read_authored_incarnations() {
    let state = authored(true);
    assert_eq!(declaration(&state, target()), Some(ConstraintDriverIdentity { incarnation: 7, source: source() }));
    assert_eq!(declaration(&state, source()), None);
    let b = binding(&state, target(), source()).unwrap();
    assert_eq!(b, ScalarConstraintBinding { source: source(), source_incarnation: 5, target_incarnation: 6 });
    assert!(valid(&state, target(), b));
    assert_eq!(
        binding(&state, source(), target()),
        Ok(ScalarConstraintBinding { source: target(), source_incarnation: 6, target_incarnation: 5 })
    );
    assert_eq!(binding(&state, target(), EntityId::new(9, 0)), Err(ErrorReason::InvalidEntity));
    assert_eq!(binding(&authored(false), target(), source()), Err(ErrorReason::MissingComponent));
    assert!(!valid(&authored(false), target(), b));
}

#[test]
fn reconcile_binds_touched_targets_and_reports_failures() {
    let mut system = ConstraintSystem::new();
    assert_eq!(system.reconcile(&staged(authored(true), true)), Ok(()));
    assert_eq!(system.state.declarations.get(target().bits), Some(ConstraintDriverIdentity { incarnation: 7, source: source() }));
    assert_eq!(
        system.state.bindings.get(target().bits),
        Some(ScalarConstraintBinding { source: source(), source_incarnation: 5, target_incarnation: 6 })
    );
    assert_eq!(system.driver_bound(&authored(true), target()), Some(true));
    assert_eq!(system.driver_bound(&authored(true), source()), None);

    // The source lost its Scalar: the stale binding is dropped; the unchanged
    // declaration is not re-bound.
    assert_eq!(system.reconcile(&staged(authored(false), true)), Ok(()));
    assert_eq!(system.state.bindings.get(target().bits), None);
    assert_eq!(system.driver_bound(&authored(false), target()), Some(false));

    // An explicit write of the source field re-binds, and that fails.
    let mut explicit = staged(authored(false), false);
    explicit.explicit_fields.push((target(), LINEAR_DRIVER, 0));
    assert_eq!(system.reconcile(&explicit), Err(ErrorReason::MissingComponent));
    assert_eq!(system.state.bindings.get(target().bits), None);
    assert!(system.state.declarations.get(target().bits).is_some());
}

#[test]
fn untouched_unchanged_declarations_keep_their_bindings() {
    let mut system = ConstraintSystem::new();
    assert_eq!(system.reconcile(&staged(authored(true), true)), Ok(()));
    assert_eq!(system.reconcile(&staged(authored(true), false)), Ok(()));
    assert!(system.state.bindings.get(target().bits).is_some());
}

#[test]
fn before_commit_marks_numeric_changes_and_teardown_forgets() {
    let mut system = ConstraintSystem::new();
    system.before_commit(&[(target(), CAMERA)], &staged(authored(true), true));
    assert!(!system.state.numeric_dirty);
    assert!(system.state.bindings.get(target().bits).is_some());
    system.before_commit(&[(target(), SCALAR)], &staged(authored(true), false));
    assert!(system.state.numeric_dirty);
    system.teardown();
    assert_eq!(system.state.bindings.len(), 0);
    assert_eq!(system.state.declarations.len(), 0);
}

#[test]
fn constraint_factory_orders_after_animation_and_overlay() {
    let factory = ConstraintSystemFactory;
    assert_eq!(factory.id().0, "ipp.constraints");
    let deps = factory.dependencies();
    assert_eq!(deps.len(), 2);
    assert!(matches!(deps[0], SystemDependency::After(SystemId("ipp.animation"))));
    assert!(matches!(deps[1], SystemDependency::After(SystemId("ipp.state-overlay"))));
    assert_eq!(factory.create().state.bindings.len(), 0);
}

#[test]
fn keyed_map_reads_back_writes_in_key_order() {
    let mut map: KeyedMap<u32> = KeyedMap::new();
    map.insert(5, 50);
    map.insert(1, 10);
    map.insert(3, 30);
    map.insert(5, 55);
    assert_eq!(map.get(5), Some(55));
    assert_eq!(map.get(2), None);
    assert!(map.contains_key(1));
    assert_eq!(map.keys(), vec![1, 3, 5]);
    assert_eq!(map.len(), 3);
    assert_eq!(map.remove(3), Some(30));
    assert_eq!(map.remove(3), None);
    assert_eq!(map.get(3), None);
    map.clear();
    assert_eq!(map.len(), 0);
}

#[test]
fn entity_ids_split_into_index_and_generation() {
    let id = EntityId::new(7, 3);
    assert_eq!(id.to_bits(), 3 * INDEX_SPACE + 7);
    assert_eq!(id.index(), 7);
    assert_eq!(id.generation(), 3);
    assert_eq!(EntityId::from_bits(u64::MAX).index(), u32::MAX);
    assert_eq!(EntityId::from_bits(u64::MAX).generation(), u32::MAX);
    assert!(SystemId("ipp.camera").equals(&SystemId("ipp.camera")));
    assert!(!SystemId("ipp.camera").equals(&SystemId("ipp.camera2")));
    assert!(str_equal("", ""));
    assert!(!str_equal("a", "b"));
    assert_eq!(WorldId(3), WorldId(3));
}

#[test]
fn component_fields_read_back_writes() {
    let mut value = ComponentValue { type_id: SCALAR, fields: vec![(0, FieldValue::U32(1)), (4, FieldValue::Bool(true))] };
    assert_eq!(value.field(4), Some(FieldValue::Bool(true)));
    value.set_field(4, FieldValue::Bool(false));
    value.set_field(8, FieldValue::U64(9));
    assert_eq!(value.field(4), Some(FieldValue::Bool(false)));
    assert_eq!(value.field(8), Some(FieldValue::U64(9)));
    assert_eq!(value.field(0), Some(FieldValue::U32(1)));
    assert_eq!(value.field(12), None);
    let copy = value.duplicate();
    assert_eq!(copy.fields, value.fields);
    assert!(ComponentValue::supports_dynamic_properties(lib::world::CUSTOM_MATERIAL));
    assert!(!ComponentValue::supports_dynamic_properties(SCALAR));
}

#[test]
fn authored_records_are_found_and_written_by_identity() {
    let mut state = authored(true);
    assert_eq!(state.position(target()), Some(1));
    assert_eq!(state.position(EntityId::new(2, 1)), None);
    assert!(state.contains_key(source()));
    assert_eq!(state.input(target(), LINEAR_DRIVER), Some(7));
    assert_eq!(state.input(source(), LINEAR_DRIVER), None);
    assert!(state.write_input_field(target(), SCALAR, FieldWrite { offset: 0, value: FieldValue::F32(1) }));
    assert!(!state.write_input_field(source(), CAMERA, FieldWrite { offset: 0, value: FieldValue::F32(1) }));
    assert_eq!(state.keys(), vec![source(), target()]);

    let mutation = staged(authored(true), false);
    assert_eq!(mutation.resolve(EntityRef::Handle(target()), &vec![]), Ok(target()));
    assert_eq!(mutation.resolve(EntityRef::Handle(EntityId::new(0, 0)), &vec![]), Err(ErrorReason::InvalidEntity));
    assert_eq!(mutation.resolve(EntityRef::Alias(4), &vec![(4, source())]), Ok(source()));
    assert_eq!(mutation.resolve(EntityRef::Alias(5), &vec![(4, source())]), Err(ErrorReason::InvalidEntity));
    assert_eq!(mutation.changed_before(target(), SCALAR), None);
}

#[test]
fn system_identities_compare_by_name() {
    let name = String::from("animation");
    let leaked: &'static str = Box::leak(name.into_boxed_str());
    assert_eq!(SystemId("animation"), SystemId(leaked));
    assert_ne!(SystemId("animation"), SystemId("camera"));
}
