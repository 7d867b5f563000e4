//! Procedural chains of linked bodies: how a chain between two points is laid
//! out as links and joints, and the registry that owns the live chains.

pub mod geometry;
pub mod builder;
pub mod registry;
