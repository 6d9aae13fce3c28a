//! Geometry primitives: sizes, positions, bounds, and the machine limits
//! the engine keeps every stored rectangle within.

use vstd::prelude::*;

verus! {

/// Upper bound on any stored coordinate-plus-extent.  Keeping every
/// rectangle under this limit lets the proportional solver do its
/// fixed-point arithmetic in `u128` without overflow.
pub const MAX_DIM: usize = 0x4000_0000;

/// Upper bound on a container's padding.
pub const MAX_PADDING: usize = 0x10000;

/// Upper bound on a child's layout weight.
pub const MAX_WEIGHT: usize = 0x4000_0000;

#[derive(Debug, Copy, Clone, PartialEq, Eq, Structural, Hash)]
pub struct AreaSize {
    pub height: usize,
    pub width: usize,
}

#[derive(Debug, Copy, Clone, PartialEq, Eq, Structural, Hash)]
pub struct Position {
    pub x: usize,
    pub y: usize,
}

#[derive(Debug, Copy, Clone, PartialEq, Eq, Structural, Hash)]
pub struct WindowBounds {
    pub content: AreaSize,
    pub position: Position,
}

/// A rectangle the engine is willing to store: its far corner stays under
/// [`MAX_DIM`] on both axes.
pub open spec fn bounds_ok(b: WindowBounds) -> bool {
    &&& b.position.x + b.content.width <= MAX_DIM
    &&& b.position.y + b.content.height <= MAX_DIM
}

impl AreaSize {
    /// The all-zero size.
    pub fn zero() -> (r: Self)
        ensures
            r.height == 0,
            r.width == 0,
    {
        AreaSize { height: 0, width: 0 }
    }
}

impl Default for AreaSize {
    fn default() -> (r: Self)
        ensures
            r.height == 0,
            r.width == 0,
    {
        AreaSize { height: 0, width: 0 }
    }
}

impl Position {
    /// The origin.
    pub fn zero() -> (r: Self)
        ensures
            r.x == 0,
            r.y == 0,
    {
        Position { x: 0, y: 0 }
    }
}

impl Default for Position {
    fn default() -> (r: Self)
        ensures
            r.x == 0,
            r.y == 0,
    {
        Position { x: 0, y: 0 }
    }
}

impl WindowBounds {
    /// The empty rectangle at the origin.
    pub fn zero() -> (r: Self)
        ensures
            r == WindowBounds::spec_zero(),
    {
        WindowBounds {
            content: AreaSize { height: 0, width: 0 },
            position: Position { x: 0, y: 0 },
        }
    }

    /// The empty rectangle at the origin.
    pub open spec fn spec_zero() -> WindowBounds {
        WindowBounds {
            content: AreaSize { height: 0, width: 0 },
            position: Position { x: 0, y: 0 },
        }
    }

    /// Whether `position` falls inside this rectangle (half-open on the
    /// far edges).
    pub open spec fn spec_contains(self, position: Position) -> bool {
        &&& self.position.x <= position.x
        &&& self.position.y <= position.y
        &&& position.x < self.position.x + self.content.width
        &&& position.y < self.position.y + self.content.height
    }

    pub fn contains(&self, position: Position) -> (r: bool)
        ensures
            r == self.spec_contains(position),
    {
        self.position.x <= position.x && self.position.y <= position.y
            && position.x - self.position.x < self.content.width
            && position.y - self.position.y < self.content.height
    }
}

impl Default for WindowBounds {
    fn default() -> (r: Self)
        ensures
            r == WindowBounds::spec_zero(),
    {
        WindowBounds {
            content: AreaSize { height: 0, width: 0 },
            position: Position { x: 0, y: 0 },
        }
    }
}

} // verus!
