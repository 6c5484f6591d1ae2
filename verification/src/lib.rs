//! Verified core of a small 2D top-down tile game.
//!
//! The crate holds the systems logic of the game: a sparse tile graph with an
//! on-demand connectivity builder, a deterministic shortest-path search over
//! that graph, the draw-order sort that decides in which order entities are
//! painted each frame, and the small value types (tiles, resource locations,
//! screen dimensions) those systems share.  Window, input and audio backends
//! live outside this crate and talk to it through plain values.

pub mod coords;
pub mod level;
pub mod path;
pub mod render;
pub mod resource_location;
pub mod sound;
pub mod tile;
pub mod utils;
pub mod widget;
