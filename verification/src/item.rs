//! Identity and addressing: item indices, cursors, directions, per-item
//! payload wrappers, and the action records mutating operations return.

use vstd::prelude::*;
use crate::geom::WindowBounds;

verus! {

/// A container's layout axis.
#[derive(Debug, Copy, Clone, PartialEq, Eq, Structural)]
pub enum LayoutStrategy {
    /// Children laid out left-to-right.
    Horizontal,
    /// Children laid out top-to-bottom.
    Vertical,
}

/// Tagged index of a tree item: a window (leaf) or a container.
#[derive(Debug, Copy, Clone, PartialEq, Eq, Structural, Hash)]
pub enum ItemIdx {
    Window(usize),
    Container(usize),
}

/// An item index together with the payload that was stored at it, as
/// handed back by `destroy`.
#[derive(Debug, Clone)]
pub enum ItemAndData<W, C> {
    Window(usize, W),
    Container(usize, C),
}

/// A navigation direction on the display surface.
#[derive(Debug, Copy, Clone, PartialEq, Eq, Structural)]
pub enum Direction {
    Up,
    Down,
    Left,
    Right,
}

/// An insertion point: either split an existing item in a direction, or
/// insert into a container at an index (the index may equal the child
/// count, meaning append).
#[derive(Debug, Copy, Clone, PartialEq, Eq, Structural)]
pub enum MoveCursor {
    Split { item: ItemIdx, direction: Direction },
    Into { container: usize, index: usize },
}

impl MoveCursor {
    /// The existing item this cursor is anchored at.
    pub open spec fn spec_item(&self) -> ItemIdx {
        match *self {
            MoveCursor::Split { item, .. } => item,
            MoveCursor::Into { container, .. } => ItemIdx::Container(container),
        }
    }

    pub fn item(&self) -> (r: ItemIdx)
        ensures
            r == self.spec_item(),
    {
        match self {
            MoveCursor::Split { item, .. } => *item,
            MoveCursor::Into { container, .. } => ItemIdx::Container(*container),
        }
    }
}

/// A position within a container's child list.  `index` may equal the
/// child count when the location describes a gap rather than a child.
#[derive(Debug, Copy, Clone, PartialEq, Eq, Structural)]
pub struct ChildLocation {
    pub container: usize,
    pub index: usize,
}

/// Where an item sits in its parent: the parent container, the index in
/// its child list, and the parent's layout axis.
#[derive(Debug, Copy, Clone, PartialEq, Eq, Structural)]
pub struct SlotInContainer {
    pub c_idx: usize,
    pub index: usize,
    pub parent_strat: LayoutStrategy,
}

/// A leaf of the layout tree.
#[derive(Debug, Copy, Clone)]
pub struct Window<W> {
    pub bounds: WindowBounds,
    pub parent: Option<usize>,
    pub data: W,
}

/// An internal node of the layout tree: an ordered, weighted child list
/// along one axis.
#[derive(Debug, Clone)]
pub struct Container<C> {
    pub strategy: LayoutStrategy,
    pub children: Vec<(usize, ItemIdx)>,
    pub parent: Option<usize>,
    pub bounds: WindowBounds,
    pub inter: usize,
    pub padding: usize,
    pub data: C,
}

/// Payload of either kind of item, by value.
pub enum LayoutData<W, C> {
    Window(W),
    Container(C),
}

/// Payload of either kind of item, by shared reference.
pub enum LayoutDataRef<'a, W, C> {
    Window(&'a W),
    Container(&'a C),
}

/// Payload of either kind of item, by mutable reference.
pub enum LayoutDataMut<'a, W, C> {
    Window(&'a mut W),
    Container(&'a mut C),
}

impl<W, C> LayoutData<W, C> {
    pub fn unwrap_window(self) -> (r: W)
        requires
            self is Window,
        ensures
            self == LayoutData::<W, C>::Window(r),
    {
        match self {
            LayoutData::Window(data) => data,
            LayoutData::Container(_) => unreached(),
        }
    }

    pub fn unwrap_container(self) -> (r: C)
        requires
            self is Container,
        ensures
            self == LayoutData::<W, C>::Container(r),
    {
        match self {
            LayoutData::Container(data) => data,
            LayoutData::Window(_) => unreached(),
        }
    }
}

impl<'a, W, C> LayoutDataRef<'a, W, C> {
    pub fn unwrap_window(self) -> (r: &'a W)
        requires
            self is Window,
        ensures
            self == LayoutDataRef::<'a, W, C>::Window(r),
    {
        match self {
            LayoutDataRef::Window(data) => data,
            LayoutDataRef::Container(_) => unreached(),
        }
    }

    pub fn unwrap_container(self) -> (r: &'a C)
        requires
            self is Container,
        ensures
            self == LayoutDataRef::<'a, W, C>::Container(r),
    {
        match self {
            LayoutDataRef::Container(data) => data,
            LayoutDataRef::Window(_) => unreached(),
        }
    }
}

impl<'a, W, C> LayoutDataMut<'a, W, C> {
    pub fn unwrap_window(self) -> (r: &'a mut W)
        requires
            self is Window,
    {
        match self {
            LayoutDataMut::Window(data) => data,
            LayoutDataMut::Container(_) => unreached(),
        }
    }

    pub fn unwrap_container(self) -> (r: &'a mut C)
        requires
            self is Container,
    {
        match self {
            LayoutDataMut::Container(data) => data,
            LayoutDataMut::Window(_) => unreached(),
        }
    }
}

/// A host-supplied factory for container payloads, invoked once per new
/// container.
pub trait Constructor {
    type Item;

    fn construct(&mut self) -> Self::Item;
}

/// One side effect of a mutating operation, for the host to apply.
#[derive(Debug, Clone)]
pub enum LayoutAction<W, C> {
    /// An item has moved or been created.
    NewBounds { idx: ItemIdx, bounds: WindowBounds },
    /// An item has been destroyed; its payload is handed back.
    ItemDestroyed { item: ItemAndData<W, C> },
    /// A window still exists, but is no longer visible.
    ItemHidden { idx: ItemIdx },
}

} // verus!
