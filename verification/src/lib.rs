//! Renders an entity hierarchy of a `bevy_ecs` world as a text block:
//! one line per entity, box-drawing connectors for the tree shape, each
//! entity annotated with its id, optional name, and the short names of
//! its attached components.

pub mod render;
pub mod store;
pub mod text;

pub use render::debug_entity_hierarchy;
pub use render::DebugEntityHierarchy;
pub use render::HierarchyError;
