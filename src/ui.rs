//! Plain values shared with the user interface: colours, node and texture
//! handles, glyph cache keys and the containers of the layout tree.
use vstd::prelude::*;

verus! {

/// An RGBA colour, one byte per channel.
#[derive(Debug, Clone, Copy, PartialEq, Eq)]
pub struct Color {
    pub r: u8,
    pub g: u8,
    pub b: u8,
    pub a: u8,
}

impl Color {
    pub fn new(r: u8, g: u8, b: u8, a: u8) -> (c: Self)
        ensures
            c.r == r,
            c.g == g,
            c.b == b,
            c.a == a,
    {
        Color { r, g, b, a }
    }
}

/// A handle to a node of the layout tree.
#[derive(Debug, Clone, Copy, PartialEq, Eq)]
pub struct UiNodeId(pub usize);

/// A handle to a texture held by the glyph atlas.
#[derive(Debug, Clone, Copy, PartialEq, Eq)]
pub struct TextureId(pub usize);

/// What the glyph cache is keyed by: a character at a font size.
#[derive(Debug, Clone, Copy, PartialEq, Eq, Hash)]
pub struct GlyphMapKey {
    pub c: char,
    pub font_size: u32,
}

/// A filled rectangle.
#[derive(Debug)]
pub struct Rectangle {
    pub color: Color,
}

/// Children laid out side by side, each as wide as the others.
#[derive(Debug)]
pub struct Hbox {
    pub elements: Vec<UiNodeId>,
}

/// Children laid out one above the other, each as tall as the others.
#[derive(Debug)]
pub struct Vbox {
    pub elements: Vec<UiNodeId>,
}

} // verus!
