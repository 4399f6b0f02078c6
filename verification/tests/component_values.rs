use lib::ids::{EntityId, ErrorReason};
use lib::systems::animation::component_values::AnimationComponentValues;
use lib::systems::animation::AnimationSystemFactory;
use lib::world::{
    ComponentStorage, ComponentValue, FieldValue, StoredComponent, CUSTOM_MATERIAL, TRANSFORM,
};

const NUMBER: u32 = 64;
const ALPHA_CUTOFF: u32 = 4;

fn f32v(x: f32) -> FieldValue {
    FieldValue::F32(x.to_bits())
}

fn material_storage() -> ComponentStorage {
    ComponentStorage {
        slots: vec![StoredComponent {
            index: 0,
            value: ComponentValue {
                type_id: CUSTOM_MATERIAL,
                fields: vec![(ALPHA_CUTOFF, f32v(0.5)), (NUMBER, f32v(1.0))],
            },
        }],
    }
}

#[test]
fn mixed_numeric_and_whole_value_updates_preserve_declaration_order() {
    let entity = EntityId::from_bits(1 << 32);
    let key = (entity, CUSTOM_MATERIAL);
    let storage = material_storage();
    let mut values = AnimationComponentValues::new(Vec::new(), Vec::new());
    values.set_numeric(key, NUMBER, f32v(2.0)).unwrap();
    let value = values
        .get_or_insert(key, || Ok(storage.get(key.1, 0).unwrap()))
        .unwrap();
    assert_eq!(value.type_id, CUSTOM_MATERIAL);
    assert_eq!(value.field(NUMBER), Some(f32v(2.0)));
    value.set_field(ALPHA_CUTOFF, f32v(0.25));
    values.set_numeric(key, NUMBER, f32v(3.0)).unwrap();
    assert_eq!(
        values.numeric_current(key, NUMBER, &storage, true),
        Some(f32v(3.0))
    );
    let (_, updates) = values.drain();
    let mut updates = updates.into_iter();
    let (_, Some(value)) = updates.next().unwrap() else {
        unreachable!();
    };
    assert_eq!(value.field(ALPHA_CUTOFF), Some(f32v(0.25)));
    assert_eq!(value.field(NUMBER), Some(f32v(3.0)));
    assert!(updates.next().is_none());
    let (components, properties) = values.into_scratch();
    assert!(components.is_empty() && properties.is_empty());
    assert!(components.capacity() > 0 && properties.capacity() > 0);
}

#[test]
fn non_finite_single_is_refused_and_changes_nothing() {
    let key = (EntityId::from_bits(1 << 32), CUSTOM_MATERIAL);
    let storage = material_storage();
    let mut values = AnimationComponentValues::new(Vec::new(), Vec::new());
    assert_eq!(
        values.set_numeric(key, NUMBER, f32v(f32::NAN)),
        Err(ErrorReason::InvalidValue)
    );
    assert_eq!(
        values.set_numeric(key, NUMBER, f32v(f32::INFINITY)),
        Err(ErrorReason::InvalidValue)
    );
    assert!(values.values.is_empty() && values.properties.is_empty());
    assert_eq!(
        values.numeric_current(key, NUMBER, &storage, true),
        Some(f32v(1.0))
    );
}

#[test]
fn reads_see_pending_writes_before_stored_values() {
    let key = (EntityId::from_bits(1 << 32), CUSTOM_MATERIAL);
    let storage = material_storage();
    let mut values = AnimationComponentValues::new(Vec::new(), Vec::new());
    assert_eq!(
        values.numeric_current(key, ALPHA_CUTOFF, &storage, true),
        Some(f32v(0.5))
    );
    values.set_numeric(key, ALPHA_CUTOFF, f32v(0.75)).unwrap();
    values.set_numeric(key, ALPHA_CUTOFF, f32v(0.125)).unwrap();
    assert_eq!(values.properties.len(), 1);
    assert_eq!(
        values.numeric_current(key, ALPHA_CUTOFF, &storage, true),
        Some(f32v(0.125))
    );
    assert_eq!(values.numeric_current(key, ALPHA_CUTOFF, &storage, false), None);
    assert_eq!(values.numeric_current(key, 128, &storage, true), None);
}

#[test]
fn entity_references_are_never_numeric_reads() {
    let key = (EntityId::from_bits(1 << 32), TRANSFORM);
    let storage = ComponentStorage { slots: Vec::new() };
    let mut values = AnimationComponentValues::new(Vec::new(), Vec::new());
    values
        .set_numeric(key, 8, FieldValue::Entity(EntityId::from_bits(7)))
        .unwrap();
    assert_eq!(values.numeric_current(key, 8, &storage, true), None);
    values.set_numeric(key, 12, FieldValue::U32(9)).unwrap();
    assert_eq!(
        values.numeric_current(key, 12, &storage, true),
        Some(FieldValue::U32(9))
    );
}

#[test]
fn staged_components_drain_in_key_order() {
    let first = (EntityId::from_bits(1 << 32), TRANSFORM);
    let second = (EntityId::from_bits(1 << 32), CUSTOM_MATERIAL);
    let third = (EntityId::from_bits(2 << 32), TRANSFORM);
    let mut values = AnimationComponentValues::new(Vec::new(), Vec::new());
    for key in [third, second, first] {
        values
            .get_or_insert(key, || {
                Ok(ComponentValue {
                    type_id: key.1,
                    fields: Vec::new(),
                })
            })
            .unwrap();
    }
    let failed = values.get_or_insert((EntityId::from_bits(3 << 32), TRANSFORM), || {
        Err(ErrorReason::InvalidField)
    });
    assert!(matches!(failed, Err(ErrorReason::InvalidField)));
    let (_, drained) = values.drain();
    let keys: Vec<(EntityId, u16)> = drained.iter().map(|(key, _)| *key).collect();
    assert_eq!(keys, vec![first, second, third]);
}

#[test]
fn values_mut_edits_staged_components_in_place() {
    let first = (EntityId::from_bits(1 << 32), TRANSFORM);
    let pending = (EntityId::from_bits(2 << 32), TRANSFORM);
    let mut values = AnimationComponentValues::new(Vec::new(), Vec::new());
    values
        .get_or_insert(first, || {
            Ok(ComponentValue {
                type_id: TRANSFORM,
                fields: vec![(0, FieldValue::U32(1))],
            })
        })
        .unwrap();
    values.set_numeric(pending, 0, FieldValue::U32(5)).unwrap();
    assert_eq!(values.values.len(), 2);
    values.values_mut(0).unwrap().set_field(0, FieldValue::U32(2));
    assert!(values.values_mut(1).is_none());
    assert!(values.values_mut(2).is_none());
    assert_eq!(
        values.numeric_current(first, 0, &ComponentStorage { slots: Vec::new() }, true),
        Some(FieldValue::U32(2))
    );
}

#[test]
fn animation_factory_identity() {
    let factory = AnimationSystemFactory;
    assert_eq!(factory.id().0, "ipp.animation");
    assert!(factory.dependencies().is_empty());
    assert_eq!(factory.capacity_hints(), vec![("controllers", 128)]);
}

#[test]
fn staging_the_stored_component_changes_no_read() {
    let key = (EntityId::from_bits(1 << 32), CUSTOM_MATERIAL);
    let storage = material_storage();
    let mut values = AnimationComponentValues::new(Vec::new(), Vec::new());
    values.set_numeric(key, NUMBER, f32v(7.0)).unwrap();
    let before = (
        values.numeric_current(key, NUMBER, &storage, true),
        values.numeric_current(key, ALPHA_CUTOFF, &storage, true),
    );
    values
        .get_or_insert(key, || Ok(storage.get(key.1, 0).unwrap()))
        .unwrap();
    let after = (
        values.numeric_current(key, NUMBER, &storage, true),
        values.numeric_current(key, ALPHA_CUTOFF, &storage, true),
    );
    assert_eq!(before, (Some(f32v(7.0)), Some(f32v(0.5))));
    assert_eq!(after, before);
}

#[test]
fn indexed_access_yields_what_drain_yields() {
    let mut values = AnimationComponentValues::new(Vec::new(), Vec::new());
    for (bits, component) in [(2u64 << 32, TRANSFORM), (1 << 32, CUSTOM_MATERIAL)] {
        values
            .get_or_insert((EntityId::from_bits(bits), component), || {
                Ok(ComponentValue { type_id: component, fields: vec![(0, FieldValue::U32(bits as u32 + 1))] })
            })
            .unwrap();
    }
    values.set_numeric((EntityId::from_bits(3 << 32), TRANSFORM), 0, FieldValue::U32(5)).unwrap();
    let mut accessed = Vec::new();
    for i in 0..values.values.len() + 1 {
        if let Some(value) = values.values_mut(i) {
            accessed.push((value.type_id, value.fields.clone()));
        }
    }
    let (_, drained) = values.drain();
    let drained: Vec<(u16, Vec<(u32, FieldValue)>)> =
        drained.into_iter().filter_map(|(_, value)| value).map(|v| (v.type_id, v.fields)).collect();
    assert_eq!(accessed.len(), 2);
    assert_eq!(accessed, drained);
}
