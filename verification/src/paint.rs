//! Text in colour for a terminal.
//!
//! Colour is given by ANSI escape sequences, which a terminal reads and
//! does not show. Whether text is coloured at all is decided outside this
//! library: by the terminal, by the environment of the process, and by a
//! switch of the `colored` crate that any thread of the process may turn
//! while a text is being written.

use colored::Colorize;
use vstd::prelude::*;

verus! {

/// The character that starts an ANSI escape sequence.
pub open spec fn escape() -> char {
    '\x1B'
}

/// The text has no escape sequence in it.
pub open spec fn is_bare(text: Seq<char>) -> bool {
    forall|i: int| 0 <= i < text.len() ==> #[trigger] text[i] != escape()
}

/// The sequence that sets the foreground colour with the code `code`.
pub open spec fn colour_on(code: char) -> Seq<char> {
    seq![escape(), '[', '3', code, 'm']
}

/// The sequence that resets all colours.
pub open spec fn colour_off() -> Seq<char> {
    seq![escape(), '[', '0', 'm']
}

/// The text between the sequence that sets the foreground colour `code`
/// and the sequence that resets it.
pub open spec fn coloured(text: Seq<char>, code: char) -> Seq<char> {
    colour_on(code) + text + colour_off()
}

/// The text is `text` as a terminal shows it: bare, in the foreground
/// colour `code`, or followed by the sequence that resets all colours. The
/// last is what is written when colour is switched off after the writing
/// has begun.
pub open spec fn shows_in(painted: Seq<char>, text: Seq<char>, code: char) -> bool {
    painted == text || painted == coloured(text, code) || painted == text + colour_off()
}

/// `colored::Colorize::green` on a string slice, and the text that the
/// `ColoredString` it gives displays. Where colour is switched off for the
/// process the crate writes the slice itself, and else the slice between
/// the sequences for green and for reset. The crate asks more than once
/// whether colour is on: if it is switched off between the questions, the
/// slice is written with the sequence for reset behind it and none in front.
/// The claim is made for a slice without escape sequences: into any other
/// the crate may write more.
#[verifier::external_body]
pub(crate) fn green(text: &str) -> (painted: String)
    requires
        is_bare(text@),
    ensures
        shows_in(painted@, text@, '2'),
{
    text.green().to_string()
}

/// `colored::Colorize::yellow` on a string slice, and the text that the
/// `ColoredString` it gives displays: for a slice without escape sequences
/// the slice itself, the slice between the sequences for yellow and for
/// reset, or, where colour is switched off while the crate writes, the
/// slice with the sequence for reset behind it.
#[verifier::external_body]
pub(crate) fn yellow(text: &str) -> (painted: String)
    requires
        is_bare(text@),
    ensures
        shows_in(painted@, text@, '3'),
{
    text.yellow().to_string()
}

/// `colored::Colorize::red` on a string slice, and the text that the
/// `ColoredString` it gives displays: for a slice without escape sequences
/// the slice itself, the slice between the sequences for red and for reset,
/// or, where colour is switched off while the crate writes, the slice with
/// the sequence for reset behind it.
#[verifier::external_body]
pub(crate) fn red(text: &str) -> (painted: String)
    requires
        is_bare(text@),
    ensures
        shows_in(painted@, text@, '1'),
{
    text.red().to_string()
}

} // verus!
