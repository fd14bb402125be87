//! Coloured text for the terminal.

use vstd::prelude::*;

verus! {

/// The colours in which changes and actions are shown.
#[derive(Clone, Copy, Debug, PartialEq, Eq, Structural)]
pub enum Tint {
    Green,
    Red,
    Purple,
    Cyan,
    Yellow,
}

/// The coloured string of `colored`: a text with its colours and styling.
#[verifier::external_type_specification]
#[verifier::external_body]
pub struct ExColoredString(colored::ColoredString);

/// The coloured string that `colored` makes of `text` in the colour `tint`.
pub uninterp spec fn painted(text: Seq<char>, tint: Tint) -> colored::ColoredString;

/// Calls `colored::Colorize::color` on `text`, with the colour of the crate
/// that `tint` stands for; purple is its magenta. The call gives the text
/// with that foreground colour and no other styling. The contract names
/// that result, which is the same for the same text and tint.
#[verifier::external_body]
pub(crate) fn paint(text: &str, tint: Tint) -> (shown: colored::ColoredString)
    ensures
        shown == painted(text@, tint),
{
    let color = match tint {
        Tint::Green => colored::Color::Green,
        Tint::Red => colored::Color::Red,
        Tint::Purple => colored::Color::Magenta,
        Tint::Cyan => colored::Color::Cyan,
        Tint::Yellow => colored::Color::Yellow,
    };
    colored::Colorize::color(text, color)
}

} // verus!
