//! The look of the key-cap buttons: their styles and tones.
use vstd::prelude::*;

verus! {

/// How a key cap is drawn.
#[derive(Clone, Copy, PartialEq, Eq, Debug, Structural)]
pub enum Style {
    Paren,
    Outline,
    Raised,
    Brass,
    Inverse,
    GhostStyle,
}

/// The style a key cap has unless another is chosen.
pub const DEFAULT: Style = Style::Brass;

/// How strongly a key cap stands out.
#[derive(Clone, Copy, PartialEq, Eq, Debug, Structural)]
pub enum Tone {
    Plain,
    Hot,
    Active,
}

impl Default for Tone {
    fn default() -> (t: Tone)
        ensures
            t == Tone::Plain,
    {
        Tone::Plain
    }
}

impl Style {
    /// Every style, in the order they are offered.
    pub const ALL: [Style; 6] = [
        Style::Paren,
        Style::Outline,
        Style::Raised,
        Style::Brass,
        Style::Inverse,
        Style::GhostStyle,
    ];

    /// The style's name.
    pub fn name(self) -> (s: &'static str)
        ensures
            s@ == match self {
                Style::Paren => "Paren"@,
                Style::Outline => "Outline"@,
                Style::Raised => "Raised"@,
                Style::Brass => "Brass"@,
                Style::Inverse => "Inverse"@,
                Style::GhostStyle => "Ghost"@,
            },
    {
        match self {
            Style::Paren => "Paren",
            Style::Outline => "Outline",
            Style::Raised => "Raised",
            Style::Brass => "Brass",
            Style::Inverse => "Inverse",
            Style::GhostStyle => "Ghost",
        }
    }
}

} // verus!
