use lib::ids::EntityId;
use lib::systems::entity_references::{contains_u64, ProducerReferenceIndex};
use lib::world::{
    ComponentInput, ComponentLayer, ComponentValue, EntityAllocator, EntityMetadata, EntityRecord, FieldValue,
    WorldEntityState, WorldMutationState, LINEAR_DRIVER,
};

fn id(index: u32) -> EntityId {
    EntityId::new(index, 0)
}

fn referencing(entity: EntityId, target: EntityId) -> EntityRecord {
    EntityRecord {
        id: entity,
        metadata: EntityMetadata { active: true, layer: 0 },
        layers: vec![ComponentLayer {
            component: LINEAR_DRIVER,
            input: Some(ComponentInput {
                incarnation: 1,
                value: ComponentValue { type_id: LINEAR_DRIVER, fields: vec![(0, FieldValue::Entity(target))] },
            }),
        }],
    }
}

fn plain(entity: EntityId) -> EntityRecord {
    EntityRecord { id: entity, metadata: EntityMetadata { active: true, layer: 0 }, layers: Vec::new() }
}

/// Entities 2 and 3 reference entity 1; entity 4 holds a null reference.
fn authored() -> WorldEntityState {
    WorldEntityState {
        allocator: EntityAllocator { generations: vec![None, Some(0), Some(0), Some(0), Some(0)] },
        entities: vec![
            plain(id(1)),
            referencing(id(2), id(1)),
            referencing(id(3), id(1)),
            referencing(id(4), EntityId::from_bits(0)),
        ],
    }
}

fn reference_of(state: &WorldEntityState, entity: EntityId) -> Option<FieldValue> {
    state.get(entity)?.input_value(LINEAR_DRIVER)?.field(0)
}

#[test]
fn set_records_and_clears_one_reference() {
    let mut index = ProducerReferenceIndex::new();
    index.set(id(2), Some(id(1)));
    index.set(id(3), Some(id(1)));
    assert_eq!(index.targets.get(&id(2).bits), Some(&id(1).bits));
    assert_eq!(index.users.get(&id(1).bits).map(|u| u.len()), Some(2));
    index.set(id(2), None);
    index.set(id(3), Some(id(4)));
    assert_eq!(index.targets.get(&id(2).bits), None);
    assert!(index.users.get(&id(1).bits).is_none());
    assert_eq!(index.users.get(&id(4).bits).map(|u| u.len()), Some(1));
}

#[test]
fn read_and_rebuild_index_authored_references() {
    let state = authored();
    let mut index = ProducerReferenceIndex::new();
    index.read(&state, id(2), LINEAR_DRIVER, 0);
    index.read(&state, id(4), LINEAR_DRIVER, 0);
    assert_eq!(index.targets.get(&id(2).bits), Some(&id(1).bits));
    assert_eq!(index.targets.get(&id(4).bits), None);

    let mut rebuilt = ProducerReferenceIndex::new();
    rebuilt.set(id(9), Some(id(8)));
    rebuilt.rebuild(&state, LINEAR_DRIVER, 0);
    assert_eq!(rebuilt.targets.len(), 2);
    assert_eq!(rebuilt.targets.get(&id(3).bits), Some(&id(1).bits));
    assert_eq!(rebuilt.targets.get(&id(9).bits), None);
}

#[test]
fn deleting_a_target_clears_every_surviving_reference() {
    let mut index = ProducerReferenceIndex::new();
    index.rebuild(&authored(), LINEAR_DRIVER, 0);
    let mut staged = WorldMutationState {
        entities_state: authored(),
        changed: Vec::new(),
        operation_components: Vec::new(),
        operation_created: Vec::new(),
        operation_deleted: vec![id(1), id(3)],
        dirty: Vec::new(),
        explicit_fields: Vec::new(),
    };
    index.reconcile(&mut staged, LINEAR_DRIVER, 0);
    assert_eq!(reference_of(&staged.entities_state, id(2)), Some(FieldValue::Entity(EntityId::from_bits(0))));
    assert!(index.targets.get(&id(3).bits).is_none());
    // The surviving user's entry is refreshed only when its component is touched.
    assert_eq!(index.targets.get(&id(2).bits), Some(&id(1).bits));
}

#[test]
fn membership_of_identity_bits() {
    assert!(contains_u64(&vec![3, 5, 7], 5));
    assert!(!contains_u64(&vec![3, 5, 7], 4));
    assert!(!contains_u64(&Vec::new(), 0));
}
