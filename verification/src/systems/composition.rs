//! Compiled factory registration and authoring capability validation.

use crate::ids::SystemId;
use crate::systems::{SystemDependency, SystemInitError, SystemInstance, SystemKind, SystemScheduleError};
use vstd::prelude::*;

verus! {

/// Identity of the World itself as the owner of required authoring systems.
pub open spec fn world_system_id() -> SystemId {
    SystemId("ipp.world")
}

/// Every authoring system this build requires, with its concrete kind, in
/// registration order.
pub open spec fn builtin_systems() -> Seq<(SystemId, SystemKind)> {
    seq![
        (SystemId("ipp.lifecycle-publisher"), SystemKind::LifecyclePublisher),
        (SystemId("ipp.animation"), SystemKind::Animation),
        (SystemId("ipp.asset-dependencies"), SystemKind::AssetDependencies),
        (SystemId("ipp.camera"), SystemKind::Camera),
        (SystemId("ipp.constraints"), SystemKind::Constraints),
        (SystemId("ipp.geometry"), SystemKind::Geometry),
        (SystemId("ipp.hierarchy"), SystemKind::Hierarchy),
        (SystemId("ipp.look-at"), SystemKind::LookAt),
        (SystemId("ipp.final-propagation"), SystemKind::FinalPropagation),
        (SystemId("ipp.render"), SystemKind::Render),
        (SystemId("ipp.state-overlay"), SystemKind::StateOverlay),
    ]
}

/// The table of authoring systems.
pub fn builtin_system_table() -> (r: Vec<(SystemId, SystemKind)>)
    ensures
        r@ == builtin_systems(),
{
    let r = vec![
        (SystemId("ipp.lifecycle-publisher"), SystemKind::LifecyclePublisher),
        (SystemId("ipp.animation"), SystemKind::Animation),
        (SystemId("ipp.asset-dependencies"), SystemKind::AssetDependencies),
        (SystemId("ipp.camera"), SystemKind::Camera),
        (SystemId("ipp.constraints"), SystemKind::Constraints),
        (SystemId("ipp.geometry"), SystemKind::Geometry),
        (SystemId("ipp.hierarchy"), SystemKind::Hierarchy),
        (SystemId("ipp.look-at"), SystemKind::LookAt),
        (SystemId("ipp.final-propagation"), SystemKind::FinalPropagation),
        (SystemId("ipp.render"), SystemKind::Render),
        (SystemId("ipp.state-overlay"), SystemKind::StateOverlay),
    ];
    assert(r@ =~= builtin_systems());
    r
}

/// Whether some registered factory has a given identity.
pub open spec fn registered(ids: Seq<SystemId>, id: SystemId) -> bool {
    exists|i: int| 0 <= i < ids.len() && #[trigger] ids[i].same(id)
}

fn is_registered(ids: &[SystemId], id: &SystemId) -> (r: bool)
    ensures
        r == registered(ids@, *id),
{
    let mut i: usize = 0;
    while i < ids.len()
        invariant
            i <= ids@.len(),
            forall|j: int| 0 <= j < i ==> !ids@[j].same(*id),
        decreases ids@.len() - i,
    {
        if ids[i].equals(id) {
            return true;
        }
        i = i + 1;
    }
    false
}

/// Require every authoring system; the first missing one in registration
/// order is reported.
pub fn validate_authoring_factories(ids: &[SystemId]) -> (r: Result<(), SystemScheduleError>)
    ensures
        r is Ok <==> forall|k: int| 0 <= k < builtin_systems().len() ==> registered(ids@, #[trigger] builtin_systems()[k].0),
        r matches Err(SystemScheduleError::MissingRequired { system, required }) ==> system
            == world_system_id() && exists|k: int|
            0 <= k < builtin_systems().len() && #[trigger] builtin_systems()[k].0 == required
                && !registered(ids@, required) && forall|j: int|
                0 <= j < k ==> registered(ids@, builtin_systems()[j].0),
{
    let table = builtin_system_table();
    let mut k: usize = 0;
    while k < table.len()
        invariant
            table@ == builtin_systems(),
            k <= table@.len(),
            forall|j: int| 0 <= j < k ==> registered(ids@, #[trigger] builtin_systems()[j].0),
        decreases table@.len() - k,
    {
        let required = table[k].0;
        if !is_registered(ids, &required) {
            return Err(SystemScheduleError::MissingRequired { system: SystemId("ipp.world"), required });
        }
        k = k + 1;
    }
    Ok(())
}

/// Concrete kind expected for an identity, when it names an authoring system.
pub open spec fn expected_kind(id: SystemId) -> Option<SystemKind> {
    expected_kind_in(builtin_systems(), id)
}

pub open spec fn expected_kind_in(table: Seq<(SystemId, SystemKind)>, id: SystemId) -> Option<SystemKind>
    decreases table.len(),
{
    if table.len() == 0 {
        None
    } else if table[0].0.same(id) {
        Some(table[0].1)
    } else {
        expected_kind_in(table.drop_first(), id)
    }
}

/// An authoring identity must hold its own concrete type; any other identity
/// must not hold an authoring type.
pub open spec fn instance_valid(instance: SystemInstance) -> bool {
    match expected_kind(instance.id) {
        Some(kind) => instance.system.spec_kind() == kind,
        None => instance.system.spec_kind() is Custom,
    }
}

fn lookup_kind(table: &Vec<(SystemId, SystemKind)>, id: &SystemId) -> (r: Option<SystemKind>)
    ensures
        r == expected_kind_in(table@, *id),
{
    let mut i: usize = 0;
    assert(table@.subrange(0, table@.len() as int) =~= table@);
    while i < table.len()
        invariant
            i <= table@.len(),
            expected_kind_in(table@, *id) == expected_kind_in(table@.subrange(i as int, table@.len() as int), *id),
        decreases table@.len() - i,
    {
        let ghost s = table@.subrange(i as int, table@.len() as int);
        assert(s[0] == table@[i as int]);
        if table[i].0.equals(id) {
            return Some(table[i].1);
        }
        assert(s.drop_first() =~= table@.subrange(i + 1, table@.len() as int));
        i = i + 1;
    }
    None
}

/// Reject an instance whose concrete type does not match its identity.
pub fn validate_authoring_instances(instances: &[SystemInstance]) -> (r: Result<(), SystemInitError>)
    ensures
        r is Ok <==> forall|i: int| 0 <= i < instances@.len() ==> instance_valid(#[trigger] instances@[i]),
        r matches Err(e) ==> exists|i: int|
            0 <= i < instances@.len() && !instance_valid(#[trigger] instances@[i]) && (forall|j: int|
                0 <= j < i ==> instance_valid(instances@[j])) && (e matches SystemInitError::AuthoringSystemType(
                id,
            ) && id == instances@[i].id),
{
    let table = builtin_system_table();
    let mut i: usize = 0;
    while i < instances.len()
        invariant
            table@ == builtin_systems(),
            i <= instances@.len(),
            forall|j: int| 0 <= j < i ==> instance_valid(#[trigger] instances@[j]),
        decreases instances@.len() - i,
    {
        let kind = instances[i].system.kind();
        let valid = match lookup_kind(&table, &instances[i].id) {
            Some(expected) => kind == expected,
            None => match kind {
                SystemKind::Custom(_) => true,
                _ => false,
            },
        };
        if !valid {
            let r: Result<(), SystemInitError> = Err(SystemInitError::AuthoringSystemType(instances[i].id));
            assert(!instance_valid(instances@[i as int]));
            return r;
        }
        i = i + 1;
    }
    Ok(())
}

/// A registered factory: its identity and schedule edges.
pub struct SystemFactoryDescriptor {
    pub id: SystemId,
    pub dependencies: Vec<SystemDependency>,
}

/// Factories for every authoring capability of this build, in schedule order.
pub fn compiled_system_factories() -> (r: Vec<SystemFactoryDescriptor>)
    ensures
        r@.len() == 11,
        forall|k: int| 0 <= k < builtin_systems().len() ==> registered(
            r@.map_values(|f: SystemFactoryDescriptor| f.id),
            #[trigger] builtin_systems()[k].0,
        ),
        forall|i: int, j: int| 0 <= i < j < r@.len() ==> (#[trigger] r@[i]).id.0@ != (#[trigger] r@[j]).id.0@,
{
    let mut r: Vec<SystemFactoryDescriptor> = Vec::new();
    r.push(SystemFactoryDescriptor { id: SystemId("ipp.lifecycle-publisher"), dependencies: Vec::new() });
    r.push(SystemFactoryDescriptor { id: SystemId("ipp.state-overlay"), dependencies: Vec::new() });
    r.push(SystemFactoryDescriptor { id: SystemId("ipp.animation"), dependencies: Vec::new() });
    r.push(SystemFactoryDescriptor {
        id: SystemId("ipp.constraints"),
        dependencies: vec![
            SystemDependency::After(SystemId("ipp.animation")),
            SystemDependency::After(SystemId("ipp.state-overlay")),
        ],
    });
    r.push(SystemFactoryDescriptor {
        id: SystemId("ipp.asset-dependencies"),
        dependencies: vec![SystemDependency::After(SystemId("ipp.constraints"))],
    });
    r.push(SystemFactoryDescriptor { id: SystemId("ipp.hierarchy"), dependencies: Vec::new() });
    r.push(SystemFactoryDescriptor { id: SystemId("ipp.look-at"), dependencies: Vec::new() });
    r.push(SystemFactoryDescriptor { id: SystemId("ipp.final-propagation"), dependencies: Vec::new() });
    r.push(SystemFactoryDescriptor { id: SystemId("ipp.geometry"), dependencies: Vec::new() });
    r.push(SystemFactoryDescriptor {
        id: SystemId("ipp.camera"),
        dependencies: vec![SystemDependency::Required(SystemId("ipp.geometry"))],
    });
    r.push(SystemFactoryDescriptor { id: SystemId("ipp.render"), dependencies: Vec::new() });
    proof {
        reveal_strlit("ipp.lifecycle-publisher");
        reveal_strlit("ipp.state-overlay");
        reveal_strlit("ipp.animation");
        reveal_strlit("ipp.constraints");
        reveal_strlit("ipp.asset-dependencies");
        reveal_strlit("ipp.hierarchy");
        reveal_strlit("ipp.look-at");
        reveal_strlit("ipp.final-propagation");
        reveal_strlit("ipp.geometry");
        reveal_strlit("ipp.camera");
        reveal_strlit("ipp.render");
        assert forall|i: int, j: int| 0 <= i < j < r@.len() implies (#[trigger] r@[i]).id.0@ != (#[trigger] r@[j]).id.0@ by {
            if i == 0 && j == 1 { assert(r@[0].id.0@.len() != r@[1].id.0@.len()); }
            if i == 0 && j == 2 { assert(r@[0].id.0@.len() != r@[2].id.0@.len()); }
            if i == 0 && j == 3 { assert(r@[0].id.0@.len() != r@[3].id.0@.len()); }
            if i == 0 && j == 4 { assert(r@[0].id.0@.len() != r@[4].id.0@.len()); }
            if i == 0 && j == 5 { assert(r@[0].id.0@.len() != r@[5].id.0@.len()); }
            if i == 0 && j == 6 { assert(r@[0].id.0@.len() != r@[6].id.0@.len()); }
            if i == 0 && j == 7 { assert(r@[0].id.0@.len() != r@[7].id.0@.len()); }
            if i == 0 && j == 8 { assert(r@[0].id.0@.len() != r@[8].id.0@.len()); }
            if i == 0 && j == 9 { assert(r@[0].id.0@.len() != r@[9].id.0@.len()); }
            if i == 0 && j == 10 { assert(r@[0].id.0@.len() != r@[10].id.0@.len()); }
            if i == 1 && j == 2 { assert(r@[1].id.0@.len() != r@[2].id.0@.len()); }
            if i == 1 && j == 3 { assert(r@[1].id.0@.len() != r@[3].id.0@.len()); }
            if i == 1 && j == 4 { assert(r@[1].id.0@.len() != r@[4].id.0@.len()); }
            if i == 1 && j == 5 { assert(r@[1].id.0@.len() != r@[5].id.0@.len()); }
            if i == 1 && j == 6 { assert(r@[1].id.0@.len() != r@[6].id.0@.len()); }
            if i == 1 && j == 7 { assert(r@[1].id.0@.len() != r@[7].id.0@.len()); }
            if i == 1 && j == 8 { assert(r@[1].id.0@.len() != r@[8].id.0@.len()); }
            if i == 1 && j == 9 { assert(r@[1].id.0@.len() != r@[9].id.0@.len()); }
            if i == 1 && j == 10 { assert(r@[1].id.0@.len() != r@[10].id.0@.len()); }
            if i == 2 && j == 3 { assert(r@[2].id.0@.len() != r@[3].id.0@.len()); }
            if i == 2 && j == 4 { assert(r@[2].id.0@.len() != r@[4].id.0@.len()); }
            if i == 2 && j == 5 { assert(r@[2].id.0@[4] != r@[5].id.0@[4]); }
            if i == 2 && j == 6 { assert(r@[2].id.0@.len() != r@[6].id.0@.len()); }
            if i == 2 && j == 7 { assert(r@[2].id.0@.len() != r@[7].id.0@.len()); }
            if i == 2 && j == 8 { assert(r@[2].id.0@.len() != r@[8].id.0@.len()); }
            if i == 2 && j == 9 { assert(r@[2].id.0@.len() != r@[9].id.0@.len()); }
            if i == 2 && j == 10 { assert(r@[2].id.0@.len() != r@[10].id.0@.len()); }
            if i == 3 && j == 4 { assert(r@[3].id.0@.len() != r@[4].id.0@.len()); }
            if i == 3 && j == 5 { assert(r@[3].id.0@.len() != r@[5].id.0@.len()); }
            if i == 3 && j == 6 { assert(r@[3].id.0@.len() != r@[6].id.0@.len()); }
            if i == 3 && j == 7 { assert(r@[3].id.0@.len() != r@[7].id.0@.len()); }
            if i == 3 && j == 8 { assert(r@[3].id.0@.len() != r@[8].id.0@.len()); }
            if i == 3 && j == 9 { assert(r@[3].id.0@.len() != r@[9].id.0@.len()); }
            if i == 3 && j == 10 { assert(r@[3].id.0@.len() != r@[10].id.0@.len()); }
            if i == 4 && j == 5 { assert(r@[4].id.0@.len() != r@[5].id.0@.len()); }
            if i == 4 && j == 6 { assert(r@[4].id.0@.len() != r@[6].id.0@.len()); }
            if i == 4 && j == 7 { assert(r@[4].id.0@.len() != r@[7].id.0@.len()); }
            if i == 4 && j == 8 { assert(r@[4].id.0@.len() != r@[8].id.0@.len()); }
            if i == 4 && j == 9 { assert(r@[4].id.0@.len() != r@[9].id.0@.len()); }
            if i == 4 && j == 10 { assert(r@[4].id.0@.len() != r@[10].id.0@.len()); }
            if i == 5 && j == 6 { assert(r@[5].id.0@.len() != r@[6].id.0@.len()); }
            if i == 5 && j == 7 { assert(r@[5].id.0@.len() != r@[7].id.0@.len()); }
            if i == 5 && j == 8 { assert(r@[5].id.0@.len() != r@[8].id.0@.len()); }
            if i == 5 && j == 9 { assert(r@[5].id.0@.len() != r@[9].id.0@.len()); }
            if i == 5 && j == 10 { assert(r@[5].id.0@.len() != r@[10].id.0@.len()); }
            if i == 6 && j == 7 { assert(r@[6].id.0@.len() != r@[7].id.0@.len()); }
            if i == 6 && j == 8 { assert(r@[6].id.0@.len() != r@[8].id.0@.len()); }
            if i == 6 && j == 9 { assert(r@[6].id.0@.len() != r@[9].id.0@.len()); }
            if i == 6 && j == 10 { assert(r@[6].id.0@.len() != r@[10].id.0@.len()); }
            if i == 7 && j == 8 { assert(r@[7].id.0@.len() != r@[8].id.0@.len()); }
            if i == 7 && j == 9 { assert(r@[7].id.0@.len() != r@[9].id.0@.len()); }
            if i == 7 && j == 10 { assert(r@[7].id.0@.len() != r@[10].id.0@.len()); }
            if i == 8 && j == 9 { assert(r@[8].id.0@.len() != r@[9].id.0@.len()); }
            if i == 8 && j == 10 { assert(r@[8].id.0@.len() != r@[10].id.0@.len()); }
            if i == 9 && j == 10 { assert(r@[9].id.0@[4] != r@[10].id.0@[4]); }
        }
        let ids = r@.map_values(|f: SystemFactoryDescriptor| f.id);
        assert forall|k: int| 0 <= k < builtin_systems().len() implies registered(ids, #[trigger] builtin_systems()[k].0) by {
            let table = builtin_systems();
            if k == 0 { assert(ids[0].same(table[k].0)); }
            else if k == 1 { assert(ids[2].same(table[k].0)); }
            else if k == 2 { assert(ids[4].same(table[k].0)); }
            else if k == 3 { assert(ids[9].same(table[k].0)); }
            else if k == 4 { assert(ids[3].same(table[k].0)); }
            else if k == 5 { assert(ids[8].same(table[k].0)); }
            else if k == 6 { assert(ids[5].same(table[k].0)); }
            else if k == 7 { assert(ids[6].same(table[k].0)); }
            else if k == 8 { assert(ids[7].same(table[k].0)); }
            else if k == 9 { assert(ids[10].same(table[k].0)); }
            else { assert(ids[1].same(table[k].0)); }
        }
    }
    r
}

} // verus!
