//! What the editor asks of a font: how far each glyph advances the pen.
use vstd::prelude::*;
use crate::wrap::Measure;

verus! {

/// How to place a glyph on the screen, in whole pixels: how far it moves
/// the pen, the size of its bitmap, and the bitmap's offset from the pen.
#[derive(Debug, Clone, Copy, PartialEq, Eq)]
pub struct GlyphMetrics {
    pub advance: (u32, u32),
    pub size: (u32, u32),
    pub pos: (i32, i32),
}

/// A source of glyph metrics, such as a font rasterizer with a cache.
///
/// Its implementations promise that the horizontal advance of a character
/// at a font size is fixed: the same on every call, however the
/// rasterizer's cache changes.
pub trait GlyphRasterizer {
    /// The horizontal advance of `c` at `font_size`.
    spec fn advance_of(&self, c: char, font_size: u32) -> u32;

    /// The metrics of `c` drawn at `font_size`.
    fn get_glyph(&mut self, c: char, font_size: u32) -> (m: GlyphMetrics)
        ensures
            m.advance.0 == old(self).advance_of(c, font_size),
            forall|d: char, f: u32| #[trigger]
                final(self).advance_of(d, f) == old(self).advance_of(d, f),
    ;
}

/// Two rasterizers give every character the same advance.
pub open spec fn same_advances<G: GlyphRasterizer>(g1: G, g2: G) -> bool {
    forall|d: char, f: u32| #[trigger] g1.advance_of(d, f) == g2.advance_of(d, f)
}

/// Wrapping by the advances of `g` at `font_size` within `width` pixels.
pub open spec fn glyph_measure<G: GlyphRasterizer>(g: G, font_size: u32, width: u32) -> Measure {
    (|c: char| g.advance_of(c, font_size) as nat, width as nat)
}

/// Rasterizers with the same advances measure lines alike.
pub proof fn lemma_same_measure<G: GlyphRasterizer>(g1: G, g2: G, font_size: u32, width: u32)
    requires
        same_advances(g1, g2),
    ensures
        glyph_measure(g1, font_size, width) == glyph_measure(g2, font_size, width),
{
    assert(glyph_measure(g1, font_size, width).0 =~= glyph_measure(g2, font_size, width).0);
}

} // verus!
