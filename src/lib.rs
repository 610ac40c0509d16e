//! A text buffer with a cursor and a scrollable, word-wrapped viewport.
//!
//! The document lives in a rope; line wrapping and scrolling are computed
//! from byte offsets into it and proved against the model in [`wrap`].
pub mod buffer;
pub mod wrap;
pub mod editor;
pub mod glyphs;
pub mod laws;
pub mod ui;

pub use editor::{Line, ScrollAmount, TextEditor, WrapPolicy};
pub use glyphs::{GlyphMetrics, GlyphRasterizer};
pub use ui::{Color, GlyphMapKey, Hbox, Rectangle, TextureId, UiNodeId, Vbox};
