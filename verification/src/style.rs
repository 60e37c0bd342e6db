//! Emphasis for terminal output: bold text in one of six colours.

use colored::{Color, Colorize};
use vstd::prelude::*;

verus! {

/// The colours in which text is emphasised.
#[derive(Clone, Copy, Debug, PartialEq, Eq, Structural)]
pub enum Tint {
    Green,
    Cyan,
    Yellow,
    Magenta,
    Red,
    Blue,
}

/// The character that begins a terminal escape sequence.
pub open spec fn escape_char() -> char {
    '\x1b'
}

/// The number by which a terminal knows the colour.
pub open spec fn tint_code(tint: Tint) -> Seq<char> {
    match tint {
        Tint::Green => seq!['3', '2'],
        Tint::Cyan => seq!['3', '6'],
        Tint::Yellow => seq!['3', '3'],
        Tint::Magenta => seq!['3', '5'],
        Tint::Red => seq!['3', '1'],
        Tint::Blue => seq!['3', '4'],
    }
}

/// The escape sequence that switches to bold text in the colour.
pub open spec fn bold_on(tint: Tint) -> Seq<char> {
    seq![escape_char(), '[', '1', ';'] + tint_code(tint) + seq!['m']
}

/// The escape sequence that switches all emphasis off.
pub open spec fn emphasis_off() -> Seq<char> {
    seq![escape_char(), '[', '0', 'm']
}

/// `text` with `style` put in again after every reset sequence that the
/// text itself holds, so that the emphasis goes on behind it.
pub open spec fn restyled(text: Seq<char>, style: Seq<char>) -> Seq<char>
    decreases text.len(),
{
    if text.len() == 0 {
        Seq::empty()
    } else if emphasis_off().is_prefix_of(text) {
        emphasis_off() + style + restyled(text.skip(emphasis_off().len() as int), style)
    } else {
        seq![text[0]] + restyled(text.skip(1), style)
    }
}

/// Whether `out` is `text` as emphasised for some terminal: the text as it
/// is, where the terminal takes no colours, or the text between the
/// sequences that switch the emphasis on and off, with the emphasis
/// switched on again behind every reset sequence that the text holds.
pub open spec fn is_emphasis_of(out: Seq<char>, text: Seq<char>, tint: Tint) -> bool {
    ||| out == text
    ||| out == bold_on(tint) + restyled(text, bold_on(tint)) + emphasis_off()
}

/// Calls `Colorize::color` and `Colorize::bold` of the crate `colored` and
/// renders the result through its `Display`. Whether colours are written
/// depends on the environment and the terminal, so the contract allows both
/// outcomes: the text unchanged, or the text between the escape sequences
/// for bold in the colour and for reset, in which `colored` repeats the
/// first sequence behind every reset sequence of the text. This is claimed
/// of a call during which no other thread switches `colored`'s override.
#[verifier::external_body]
pub(crate) fn emphasize(text: &str, tint: Tint) -> (out: String)
    ensures
        is_emphasis_of(out@, text@, tint),
{
    let color = match tint {
        Tint::Green => Color::Green,
        Tint::Cyan => Color::Cyan,
        Tint::Yellow => Color::Yellow,
        Tint::Magenta => Color::Magenta,
        Tint::Red => Color::Red,
        Tint::Blue => Color::Blue,
    };
    text.color(color).bold().to_string()
}

} // verus!
