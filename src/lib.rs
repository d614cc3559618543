//! Sprite and text drawing helpers built around a verified glyph atlas cache
//! and a verified line-layout engine.
//!
//! * `font_cache`: the row-packing glyph atlas with least-recently-used
//!   eviction of rows, tolerance-based sharing of glyph bitmaps and a
//!   from-scratch repack when a batch blocks itself.
//! * `layout`: greedy word wrapping with per-line alignment.
//! * `ledger`: the atlas invariant (rows and free bands tile the atlas) and
//!   the lemmas that keep it.
//! * `rows` and `tables`: the outside collections the cache is built on.
//! * `bitmap`: the scratch grid a glyph is rasterized into.
//! * `geometry`, `color`, `utils`, `shader`, `render_storage`, `error`: value types.

pub mod geometry;
pub mod rows;
pub mod tables;
pub mod ledger;
pub mod font_cache;
pub mod bitmap;
pub mod layout;
pub mod color;
pub mod utils;
pub mod error;
pub mod shader;
pub mod render_storage;
