//! Visual palette for the digest output and the pen-colour mapping.

use vstd::prelude::*;

verus! {

/// Core colours of the digest theme, as `(red, green, blue)` triples.
pub struct Palette {
    /// Body text and ink.
    pub ink: (u8, u8, u8),
    /// Hairline rules.
    pub rule: (u8, u8, u8),
    /// Page background.
    pub paper: (u8, u8, u8),
}

/// The default "Newsprint" palette.
pub fn default_palette() -> (p: Palette)
    ensures
        p.ink == (26u8, 26u8, 26u8),
        p.rule == (180u8, 180u8, 180u8),
        p.paper == (250u8, 249u8, 246u8),
{
    Palette { ink: (26, 26, 26), rule: (180, 180, 180), paper: (250, 249, 246) }
}

/// A colour that a pen writes in.
#[derive(Debug, Clone, Copy, PartialEq, Eq, Structural)]
pub enum PenColor {
    Black,
    Gray,
    White,
    Yellow,
    Green,
    Pink,
    Blue,
    Red,
    GrayOverlap,
    Highlight,
    Green2,
    Cyan,
    Magenta,
    Yellow2,
    Other(u32),
}

/// The red, green and blue that stand for a pen's colour. `Highlight` is what the
/// highlighter leaves on text, and reads as the yellow of a highlighter; black and
/// what has no name of its own read as ink.
pub open spec fn rgb_of(c: PenColor) -> (u8, u8, u8) {
    match c {
        PenColor::Yellow | PenColor::Yellow2 | PenColor::Highlight => (245, 208, 66),
        PenColor::Green | PenColor::Green2 => (120, 190, 110),
        PenColor::Pink => (235, 130, 170),
        PenColor::Blue | PenColor::Cyan => (90, 150, 220),
        PenColor::Red | PenColor::Magenta => (210, 80, 80),
        PenColor::Gray | PenColor::GrayOverlap => (140, 140, 140),
        PenColor::White => (255, 255, 255),
        PenColor::Black | PenColor::Other(_) => (60, 60, 60),
    }
}

/// Maps a pen's colour to red, green and blue.
pub fn pen_rgb(c: PenColor) -> (r: (u8, u8, u8))
    ensures
        r == rgb_of(c),
{
    match c {
        PenColor::Yellow | PenColor::Yellow2 | PenColor::Highlight => (245, 208, 66),
        PenColor::Green | PenColor::Green2 => (120, 190, 110),
        PenColor::Pink => (235, 130, 170),
        PenColor::Blue | PenColor::Cyan => (90, 150, 220),
        PenColor::Red | PenColor::Magenta => (210, 80, 80),
        PenColor::Gray | PenColor::GrayOverlap => (140, 140, 140),
        PenColor::White => (255, 255, 255),
        PenColor::Black | PenColor::Other(_) => (60, 60, 60),
    }
}

} // verus!
