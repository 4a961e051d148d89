//! Assembles the visual primitives of one paint pass into an ordered,
//! spatially indexed scene, resolves pointer hover against it, and emits it
//! back as kind-homogeneous draw batches.

mod batch;
mod bounds_tree;
mod geometry;
mod primitive;
mod primitive_set;
mod scene;

pub use batch::{BatchIterator, PrimitiveBatch};
pub use bounds_tree::{BoundsSearchResult, BoundsTree};
pub use geometry::{Bounds, ContentMask, Point, Size};
pub use primitive::{
    AtlasTextureId, AtlasTextureKind, HoverGroup, Primitive, PrimitiveIndex, PrimitiveKind,
};
pub use primitive_set::{GroupHover, GroupMembership, GroupVariant, PrimitiveMetadata, PrimitiveSet};
pub use scene::Scene;
