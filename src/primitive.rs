use crate::geometry::{Bounds, ContentMask};
use vstd::prelude::*;

verus! {

/// The closed set of primitive kinds, in the order that breaks ties between
/// kinds when batches are merged.
#[derive(Clone, Copy, Debug, PartialEq, Eq, Structural, PartialOrd, Ord, Hash)]
pub enum PrimitiveKind {
    Shadow,
    Quad,
    Path,
    Underline,
    MonochromeSprite,
    PolychromeSprite,
    Surface,
}

impl PrimitiveKind {
    /// The position of the kind in the tie-break order.
    pub open spec fn rank(self) -> nat {
        match self {
            PrimitiveKind::Shadow => 0,
            PrimitiveKind::Quad => 1,
            PrimitiveKind::Path => 2,
            PrimitiveKind::Underline => 3,
            PrimitiveKind::MonochromeSprite => 4,
            PrimitiveKind::PolychromeSprite => 5,
            PrimitiveKind::Surface => 6,
        }
    }

    /// Sprite kinds split their batches where the atlas texture changes.
    pub open spec fn is_sprite(self) -> bool {
        self == PrimitiveKind::MonochromeSprite || self == PrimitiveKind::PolychromeSprite
    }

    pub fn rank_of(&self) -> (r: usize)
        ensures
            r == self.rank(),
    {
        match self {
            PrimitiveKind::Shadow => 0,
            PrimitiveKind::Quad => 1,
            PrimitiveKind::Path => 2,
            PrimitiveKind::Underline => 3,
            PrimitiveKind::MonochromeSprite => 4,
            PrimitiveKind::PolychromeSprite => 5,
            PrimitiveKind::Surface => 6,
        }
    }
}

/// Which atlas a texture lives in.
#[derive(Clone, Copy, Debug, PartialEq, Eq, Structural, Hash)]
pub enum AtlasTextureKind {
    Monochrome,
    Polychrome,
    Path,
}

/// Identifies one texture of the sprite atlas.
#[derive(Clone, Copy, Debug, PartialEq, Eq, Structural, Hash)]
pub struct AtlasTextureId {
    pub index: u32,
    pub kind: AtlasTextureKind,
}

/// A handle on a primitive: its kind and its position in that kind's store.
/// Valid only for the frame in which it was produced.
#[derive(Clone, Copy, Debug, PartialEq, Eq, Structural)]
pub struct PrimitiveIndex {
    pub kind: PrimitiveKind,
    pub index: usize,
}

/// An opaque identifier tying unrelated primitives to one hover treatment.
#[derive(Clone, Copy, Debug, PartialEq, Eq, Structural, PartialOrd, Ord, Hash)]
pub struct HoverGroup(pub usize);

/// One visual primitive. `order` is assigned by the scene on insertion; the
/// caller's value is overwritten. `texture_id` is read for the sprite kinds
/// only, and `payload` (fill, geometry, tile) is carried through untouched.
#[derive(Clone, Debug, PartialEq)]
pub struct Primitive<T> {
    pub order: u32,
    pub bounds: Bounds,
    pub content_mask: ContentMask,
    pub texture_id: AtlasTextureId,
    pub payload: T,
}

impl<T> Primitive<T> {
    /// The same primitive drawn at another depth.
    pub open spec fn at_order(self, order: u32) -> Primitive<T> {
        Primitive { order, ..self }
    }

    pub fn with_order(self, order: u32) -> (r: Primitive<T>)
        ensures
            r == self.at_order(order),
    {
        Primitive { order, ..self }
    }
}

} // verus!
