use crate::print_terminal::{esc, reset_seq};
use colored::Colorize;
use vstd::prelude::*;

verus! {

/// The SGR sequence `ESC [ code m`.
pub open spec fn sgr(code: Seq<char>) -> Seq<char> {
    seq![esc(), '['] + code + seq!['m']
}

/// `s` with `open` inserted after each reset sequence in it, so that a nested
/// reset does not end the outer style.
pub open spec fn reopened(s: Seq<char>, open: Seq<char>) -> Seq<char>
    decreases s.len(),
{
    if s.len() == 0 {
        s
    } else if s.len() >= 4 && s.take(4) == reset_seq() {
        reset_seq() + open + reopened(s.skip(4), open)
    } else {
        seq![s[0]] + reopened(s.skip(1), open)
    }
}

/// `s` styled with the SGR `code`, closed by a reset.
pub open spec fn painted(s: Seq<char>, code: Seq<char>) -> Seq<char> {
    sgr(code) + reopened(s, sgr(code)) + reset_seq()
}

/// What painting `s` may give: the styled text when colors are on, the text
/// itself when they are off (no terminal, `NO_COLOR`, ...).
pub open spec fn paint_outcome(s: Seq<char>, code: Seq<char>, r: Seq<char>) -> bool {
    r == s || r == painted(s, code)
}

/// `s` styled with `code` when `on`, else `s` itself.
pub open spec fn tinted(s: Seq<char>, code: Seq<char>, on: bool) -> Seq<char> {
    if on {
        painted(s, code)
    } else {
        s
    }
}

/// Bold blue, the style of a submatch.
pub open spec fn highlight_code() -> Seq<char> {
    seq!['1', ';', '3', '4']
}

/// Cyan, the style of an ordinal.
pub open spec fn cyan_code() -> Seq<char> {
    seq!['3', '6']
}

/// Bright magenta, the style of a line number.
pub open spec fn bright_purple_code() -> Seq<char> {
    seq!['9', '5']
}

/// Red, the style of a path marker and of a truncation notice.
pub open spec fn red_code() -> Seq<char> {
    seq!['3', '1']
}

/// Relies on colored's `blue().bold()` and its `Display`: with colors on,
/// `ESC[1;34m`, the text with the style reopened after each inner reset, then
/// `ESC[0m`; with colors off, the text unchanged.
#[verifier::external_body]
pub(crate) fn paint_highlight(s: &str) -> (r: String)
    ensures
        paint_outcome(s@, highlight_code(), r@),
{
    s.blue().bold().to_string()
}

/// Relies on colored's `cyan()` and its `Display` (code `36`), as above.
#[verifier::external_body]
pub(crate) fn paint_cyan(s: &str) -> (r: String)
    ensures
        paint_outcome(s@, cyan_code(), r@),
{
    s.cyan().to_string()
}

/// Relies on colored's `bright_purple()` and its `Display` (code `95`), as above.
#[verifier::external_body]
pub(crate) fn paint_bright_purple(s: &str) -> (r: String)
    ensures
        paint_outcome(s@, bright_purple_code(), r@),
{
    s.bright_purple().to_string()
}

/// Relies on colored's `red()` and its `Display` (code `31`), as above.
#[verifier::external_body]
pub(crate) fn paint_red(s: &str) -> (r: String)
    ensures
        paint_outcome(s@, red_code(), r@),
{
    s.red().to_string()
}

} // verus!
