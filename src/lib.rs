//! Rendering substrate of a small GUI toolkit: rich text with hyperlinks, line
//! layout and its pixel/index mapping, glyph drawing, and a content-addressed
//! tile cache with the scrollable compositor built on it.
use vstd::prelude::*;

pub mod canvas;
pub mod color;
pub mod draw;
pub mod font;
pub mod framebuffer;
pub mod geometry;
pub mod hash;
pub mod layout;
pub mod render_list;
pub mod rich_text;
pub mod stylesheet;
pub mod text_box;
pub mod tile_cache;
pub mod widgets;

verus! {

} // verus!
