//! World systems, their identities, and the typed instance slots through which
//! dependents reach declared predecessors.

pub mod animation;
pub mod asset_dependencies;
pub mod bindings;
pub mod camera;
pub mod composition;
pub mod constraints;
pub mod contexts;
pub mod entity_references;

use crate::ids::SystemId;
use crate::systems::asset_dependencies::AssetDependencySystem;
use crate::systems::camera::CameraSystem;
use crate::systems::constraints::ConstraintSystem;
use vstd::prelude::*;

verus! {

/// Schedule edge declared by a system factory.
#[derive(Clone, Copy, Debug)]
pub enum SystemDependency {
    /// The predecessor must exist and runs first.
    Required(SystemId),
    /// Ordering only, when the predecessor exists.
    After(SystemId),
}

/// Construction failure of a system instance.
#[derive(Debug)]
pub enum SystemInitError {
    UnavailableDependency(SystemId),
    DependencyType(SystemId),
    AuthoringSystemType(SystemId),
    Message(String),
}

/// Schedule validation failure.
#[derive(Clone, Copy, Debug)]
pub enum SystemScheduleError {
    MissingRequired { system: SystemId, required: SystemId },
}

/// Concrete type of a system instance.
#[derive(Clone, Copy, Debug, PartialEq, Eq, Structural)]
pub enum SystemKind {
    LifecyclePublisher,
    StateOverlay,
    Animation,
    Constraints,
    AssetDependencies,
    Hierarchy,
    LookAt,
    FinalPropagation,
    Geometry,
    Camera,
    Render,
    Custom(u64),
}

/// Kinds of systems whose state this library does not model.
#[derive(Clone, Copy, Debug, PartialEq, Eq, Structural)]
pub enum OpaqueKind {
    LifecyclePublisher,
    StateOverlay,
    Animation,
    Hierarchy,
    LookAt,
    FinalPropagation,
    Render,
    Custom(u64),
}

/// A system whose state is not modeled; only its concrete kind is known.
pub struct OpaqueSystem {
    pub kind: OpaqueKind,
}

/// Geometry system; its state is not modeled here.
pub struct GeometrySystem;

impl OpaqueKind {
    pub open spec fn system_kind(self) -> SystemKind {
        match self {
            OpaqueKind::LifecyclePublisher => SystemKind::LifecyclePublisher,
            OpaqueKind::StateOverlay => SystemKind::StateOverlay,
            OpaqueKind::Animation => SystemKind::Animation,
            OpaqueKind::Hierarchy => SystemKind::Hierarchy,
            OpaqueKind::LookAt => SystemKind::LookAt,
            OpaqueKind::FinalPropagation => SystemKind::FinalPropagation,
            OpaqueKind::Render => SystemKind::Render,
            OpaqueKind::Custom(n) => SystemKind::Custom(n),
        }
    }

    pub fn to_system_kind(self) -> (r: SystemKind)
        ensures
            r == self.system_kind(),
    {
        match self {
            OpaqueKind::LifecyclePublisher => SystemKind::LifecyclePublisher,
            OpaqueKind::StateOverlay => SystemKind::StateOverlay,
            OpaqueKind::Animation => SystemKind::Animation,
            OpaqueKind::Hierarchy => SystemKind::Hierarchy,
            OpaqueKind::LookAt => SystemKind::LookAt,
            OpaqueKind::FinalPropagation => SystemKind::FinalPropagation,
            OpaqueKind::Render => SystemKind::Render,
            OpaqueKind::Custom(n) => SystemKind::Custom(n),
        }
    }
}

/// Owned system instance of one concrete type.
pub enum SystemBox {
    Camera(CameraSystem),
    Constraints(ConstraintSystem),
    AssetDependencies(AssetDependencySystem),
    Geometry(GeometrySystem),
    Opaque(OpaqueSystem),
}

impl SystemBox {
    pub open spec fn spec_kind(&self) -> SystemKind {
        match self {
            SystemBox::Camera(_) => SystemKind::Camera,
            SystemBox::Constraints(_) => SystemKind::Constraints,
            SystemBox::AssetDependencies(_) => SystemKind::AssetDependencies,
            SystemBox::Geometry(_) => SystemKind::Geometry,
            SystemBox::Opaque(o) => o.kind.system_kind(),
        }
    }

    /// Concrete type of this instance.
    pub fn kind(&self) -> (r: SystemKind)
        ensures
            r == self.spec_kind(),
    {
        match self {
            SystemBox::Camera(_) => SystemKind::Camera,
            SystemBox::Constraints(_) => SystemKind::Constraints,
            SystemBox::AssetDependencies(_) => SystemKind::AssetDependencies,
            SystemBox::Geometry(_) => SystemKind::Geometry,
            SystemBox::Opaque(o) => o.kind.to_system_kind(),
        }
    }
}

/// A concrete system type that can be recovered from an instance slot.
pub trait System: Sized {
    spec fn spec_kind() -> SystemKind;

    /// The instance a slot holds, when it has this concrete type.
    spec fn spec_downcast(system: SystemBox) -> Option<Self>;

    /// Borrow the instance when it has this concrete type.
    fn downcast(system: &SystemBox) -> (r: Option<&Self>)
        ensures
            r is Some <==> system.spec_kind() == Self::spec_kind(),
            found(r, Self::spec_downcast(*system)),
    ;
}

/// A borrowed lookup result is exactly the expected instance, or absent
/// exactly when none is expected.
pub open spec fn found<T>(r: Option<&T>, expected: Option<T>) -> bool {
    match r {
        Some(x) => expected == Some(*x),
        None => expected is None,
    }
}

impl System for CameraSystem {
    open spec fn spec_kind() -> SystemKind {
        SystemKind::Camera
    }

    open spec fn spec_downcast(system: SystemBox) -> Option<CameraSystem> {
        match system {
            SystemBox::Camera(s) => Some(s),
            _ => None,
        }
    }

    fn downcast(system: &SystemBox) -> (r: Option<&CameraSystem>) {
        match system {
            SystemBox::Camera(s) => Some(s),
            _ => None,
        }
    }
}

impl System for ConstraintSystem {
    open spec fn spec_kind() -> SystemKind {
        SystemKind::Constraints
    }

    open spec fn spec_downcast(system: SystemBox) -> Option<ConstraintSystem> {
        match system {
            SystemBox::Constraints(s) => Some(s),
            _ => None,
        }
    }

    fn downcast(system: &SystemBox) -> (r: Option<&ConstraintSystem>) {
        match system {
            SystemBox::Constraints(s) => Some(s),
            _ => None,
        }
    }
}

impl System for AssetDependencySystem {
    open spec fn spec_kind() -> SystemKind {
        SystemKind::AssetDependencies
    }

    open spec fn spec_downcast(system: SystemBox) -> Option<AssetDependencySystem> {
        match system {
            SystemBox::AssetDependencies(s) => Some(s),
            _ => None,
        }
    }

    fn downcast(system: &SystemBox) -> (r: Option<&AssetDependencySystem>) {
        match system {
            SystemBox::AssetDependencies(s) => Some(s),
            _ => None,
        }
    }
}

impl System for GeometrySystem {
    open spec fn spec_kind() -> SystemKind {
        SystemKind::Geometry
    }

    open spec fn spec_downcast(system: SystemBox) -> Option<GeometrySystem> {
        match system {
            SystemBox::Geometry(s) => Some(s),
            _ => None,
        }
    }

    fn downcast(system: &SystemBox) -> (r: Option<&GeometrySystem>) {
        match system {
            SystemBox::Geometry(s) => Some(s),
            _ => None,
        }
    }
}

/// One initialized system in schedule order.
pub struct SystemInstance {
    pub id: SystemId,
    pub system: SystemBox,
}

} // verus!
