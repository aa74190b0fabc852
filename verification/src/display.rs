//! The terminal escape sequences that bracket a highlighted cluster.

use vstd::prelude::*;

verus! {

/// The character of one decimal digit.
pub open spec fn digit_char(d: nat) -> char
    recommends
        d < 10,
{
    (48 + d) as u8 as char
}

/// The decimal numeral of `n`, without leading zeros.
pub open spec fn decimal(n: nat) -> Seq<char>
    decreases n,
{
    if n < 10 {
        seq![digit_char(n)]
    } else {
        decimal(n / 10).push(digit_char(n % 10))
    }
}

/// The sequence that switches the foreground to a true colour:
/// `ESC [ 38 ; 2 ; r ; g ; b m`.
pub open spec fn fg_rgb_sequence(r: u8, g: u8, b: u8) -> Seq<char> {
    seq!['\x1b', '[', '3', '8', ';', '2', ';'] + decimal(r as nat) + seq![';'] + decimal(g as nat)
        + seq![';'] + decimal(b as nat) + seq!['m']
}

/// The sequence that switches the foreground back to the terminal's own
/// colour: `ESC [ 39 m`.
pub open spec fn fg_reset_sequence() -> Seq<char> {
    seq!['\x1b', '[', '3', '9', 'm']
}

/// Formats `termion::color::Fg` of `termion::color::Rgb`. Trusted: termion
/// writes the prefix `ESC [ 38 ; 2 ;`, the three components in decimal with
/// `;` between them, and a closing `m`.
#[verifier::external_body]
pub(crate) fn fg_rgb(r: u8, g: u8, b: u8) -> (sequence: String)
    ensures
        sequence@ == fg_rgb_sequence(r, g, b),
{
    format!("{}", termion::color::Fg(termion::color::Rgb(r, g, b)))
}

/// Formats `termion::color::Fg` of `termion::color::Reset`. Trusted: termion
/// writes the fixed sequence `ESC [ 39 m`.
#[verifier::external_body]
pub(crate) fn fg_reset() -> (sequence: String)
    ensures
        sequence@ == fg_reset_sequence(),
{
    format!("{}", termion::color::Fg(termion::color::Reset))
}

} // verus!
