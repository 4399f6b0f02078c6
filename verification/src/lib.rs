//! World systems: scoped contexts, dependency bindings, asset demand,
//! cameras, scalar constraints and animation persistence.

pub mod ids;
pub mod world;
pub mod context;
pub mod keyed;
pub mod systems;
