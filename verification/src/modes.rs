//! The modes a host picks for drawing, reflowing and zooming a page. Each is stored and passed
//! across the host boundary by its number, in declaration order.
use vstd::prelude::*;

verus! {

/// How a highlight shows.
#[derive(Clone, Copy, Debug, PartialEq, Eq, Structural)]
pub enum HighlightMode {
    /// the words' ink is recoloured
    Ink,
    /// a band is drawn behind the words
    Band,
    Both,
}

/// How tall a highlight band is.
#[derive(Clone, Copy, Debug, PartialEq, Eq, Structural)]
pub enum BandHeight {
    /// the line spacing (bands of adjacent lines meet)
    LineSpacing,
    /// the words' own ink height plus the vertical pad
    Ink,
}

/// How the gap between two words of a reflowed row is chosen.
#[derive(Clone, Copy, Debug, PartialEq, Eq, Structural)]
pub enum GapMode {
    /// The gap the print puts between those two words, and the page's median where the print
    /// never set them together.
    Printed,
    /// The page's median gap between every pair, measured between the words' letters.
    Uniform,
}

/// How the words are broken onto rows.
#[derive(Clone, Copy, Debug, PartialEq, Eq, Structural)]
pub enum Breaks {
    /// Fill each row until the next word does not fit.
    Greedy,
    /// Choose the breaks that leave the rows of a block as even as they can be.
    Even,
}

/// How a reflowed row fills the width.
#[derive(Clone, Copy, Debug, PartialEq, Eq, Structural)]
pub enum Fill {
    /// Words keep their gap and the row starts at the right margin.
    Ragged,
    /// Gaps stretch so the row spans the full width. The last row of a block stays ragged.
    Justified,
    /// Words keep their gap and the row is centred.
    Centred,
}

/// What a pinch does to the page.
#[derive(Clone, Copy, Debug, PartialEq, Eq, Structural)]
pub enum ZoomMode {
    /// The pinch lands on one of the page's own zoom steps and the page reflows onto it.
    Stepped,
    /// The pinch drives the reflow zoom itself.
    Continuous,
    /// The pinch scales the laid-out page as it stands.
    Magnify,
}

impl ZoomMode {
    /// The mode a host asked for by number; anything unknown is the stepped zoom.
    pub fn from_u32(v: u32) -> (m: ZoomMode)
        ensures
            m == (if v == 1 {
                ZoomMode::Continuous
            } else if v == 2 {
                ZoomMode::Magnify
            } else {
                ZoomMode::Stepped
            }),
    {
        match v {
            1 => ZoomMode::Continuous,
            2 => ZoomMode::Magnify,
            _ => ZoomMode::Stepped,
        }
    }
}

impl Default for ZoomMode {
    fn default() -> (m: ZoomMode)
        ensures
            m == ZoomMode::Stepped,
    {
        ZoomMode::Stepped
    }
}

/// What a sideways drag does.
#[derive(Clone, Copy, Debug, PartialEq, Eq, Structural)]
pub enum Sideways {
    /// Drag the page under the finger.
    Pan,
    /// Turn to the next page or the one before.
    TurnPage,
}

} // verus!
