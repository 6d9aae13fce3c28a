//! A tiling window-layout engine.
//!
//! The engine maintains a tree of rectangular regions (windows and
//! containers) covering a display surface and recomputes every region's
//! geometry as items are inserted, moved, resized, or destroyed.  Client
//! code allocates window slots, asks the engine to place them, and receives
//! a stream of [`item::LayoutAction`] records describing what changed.

pub mod geom;
pub mod item;
pub mod state;
pub mod ground;
pub mod solve;
pub mod edit;
