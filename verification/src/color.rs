//! ANSI coloring, done by the `colorized` crate behind exact contracts.

use vstd::prelude::*;

verus! {

/// The ANSI escape character that starts every color sequence.
pub open spec fn esc_char() -> char {
    '\u{1b}'
}

/// `ESC [ 3 2 m`: switch to green foreground.
pub open spec fn green_prefix() -> Seq<char> {
    seq![esc_char(), '[', '3', '2', 'm']
}

/// `ESC [ 3 3 m`: switch to yellow foreground.
pub open spec fn yellow_prefix() -> Seq<char> {
    seq![esc_char(), '[', '3', '3', 'm']
}

/// `ESC [ 9 0 m`: switch to bright black foreground.
pub open spec fn bright_black_prefix() -> Seq<char> {
    seq![esc_char(), '[', '9', '0', 'm']
}

/// `ESC [ 0 m`: reset all attributes.
pub open spec fn reset_suffix() -> Seq<char> {
    seq![esc_char(), '[', '0', 'm']
}

/// Relies on colorized::colorize_this with Colors::GreenFg: it returns
/// "\x1b[32m", then the text unchanged, then "\x1b[0m".
#[verifier::external_body]
pub(crate) fn color_green(s: &str) -> (r: String)
    ensures
        r@ == green_prefix() + s@ + reset_suffix(),
{
    colorized::colorize_this(s, colorized::Colors::GreenFg)
}

/// Relies on colorized::colorize_this with Colors::YellowFg: it returns
/// "\x1b[33m", then the text unchanged, then "\x1b[0m".
#[verifier::external_body]
pub(crate) fn color_yellow(s: &str) -> (r: String)
    ensures
        r@ == yellow_prefix() + s@ + reset_suffix(),
{
    colorized::colorize_this(s, colorized::Colors::YellowFg)
}

/// Relies on colorized::colorize_this with Colors::BrightBlackFg: it
/// returns "\x1b[90m", then the text unchanged, then "\x1b[0m".
#[verifier::external_body]
pub(crate) fn color_bright_black(s: &str) -> (r: String)
    ensures
        r@ == bright_black_prefix() + s@ + reset_suffix(),
{
    colorized::colorize_this(s, colorized::Colors::BrightBlackFg)
}

} // verus!
