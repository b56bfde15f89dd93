//! Shared framebuffer and per-client dirty tracking.
//!
//! The capture writes the whole screen into one shared buffer of `0x00RRGGBB`
//! words and marks the tiles it changed. Every client keeps its own copy of
//! that tile bitmap, so each one can be at a different point in the stream.

pub mod frame;
pub mod hub;
pub mod tiles;

pub use frame::{CursorImage, Frame, Rect, TILE};
pub use hub::{Caps, ClientLink, Hub, LinkState};
pub use tiles::TileMap;
