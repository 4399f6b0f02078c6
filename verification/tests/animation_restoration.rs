use lib::ids::EntityId;
use lib::systems::animation::restoration::{restore_plan, RestorationController, RestorationDriver, RestoreStep};
use lib::systems::animation::AnimationValue;
use lib::world::{FieldValue, SCALAR, TRANSFORM};

fn driver(target: u64, discrete: bool, retain_discrete: bool, compiled: bool, alive: bool) -> RestorationDriver {
    RestorationDriver {
        key: (EntityId::from_bits(target), SCALAR),
        offsets: vec![4],
        original: AnimationValue::Field(FieldValue::U32(7)),
        discrete,
        retain_discrete,
        compiled,
        alive,
    }
}

fn controller() -> RestorationController {
    let mut rotation = driver(5, true, false, false, true);
    rotation.key = (EntityId::from_bits(5), TRANSFORM);
    rotation.offsets = vec![12, 16, 20, 24];
    rotation.original = AnimationValue::Rotation([0, 0, 0, 1f32.to_bits()]);
    RestorationController {
        ready: true,
        failed: false,
        retain_numeric: false,
        drivers: vec![
            driver(1, false, false, true, true),
            driver(2, true, true, false, true),
            driver(3, true, false, false, true),
            rotation,
            driver(6, false, false, false, true),
            driver(7, false, false, false, false),
        ],
    }
}

#[test]
fn restoration_plans_each_driver_by_kind() {
    let plan = restore_plan(&controller(), false, false).unwrap();
    assert_eq!(
        plan,
        vec![
            RestoreStep::Compiled(0),
            RestoreStep::ResetDiscrete(1),
            RestoreStep::SetNumeric { key: (EntityId::from_bits(2), SCALAR), offset: 4, value: FieldValue::U32(7) },
            RestoreStep::ResetDiscrete(2),
            RestoreStep::SetNumeric { key: (EntityId::from_bits(3), SCALAR), offset: 4, value: FieldValue::U32(7) },
            RestoreStep::ResetDiscrete(3),
            RestoreStep::Restore(3),
            RestoreStep::Restore(4),
        ]
    );
}

#[test]
fn retained_outputs_keep_discrete_values_or_skip_restoration() {
    let plan = restore_plan(&controller(), true, false).unwrap();
    assert!(!plan.contains(&RestoreStep::ResetDiscrete(1)));
    assert!(plan.contains(&RestoreStep::ResetDiscrete(2)));
    let mut retaining = controller();
    retaining.retain_numeric = true;
    assert!(restore_plan(&retaining, true, false).is_none());
    assert!(restore_plan(&retaining, false, false).is_some());
    retaining.failed = true;
    assert!(restore_plan(&retaining, true, false).is_some());
}

#[test]
fn a_restored_crossfade_union_leaves_no_driver_steps() {
    assert_eq!(restore_plan(&controller(), false, true), Some(Vec::new()));
}
