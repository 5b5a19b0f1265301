//! Terminal foreground colour escapes, as `termion` writes them.
use vstd::prelude::*;

verus! {

/// The decimal digits of `n`, without leading zeros.
pub open spec fn decimal(n: nat) -> Seq<char>
    decreases n,
{
    let digits = seq!['0', '1', '2', '3', '4', '5', '6', '7', '8', '9'];
    if n < 10 {
        seq![digits[n as int]]
    } else {
        decimal(n / 10).push(digits[(n % 10) as int])
    }
}

/// The escape that sets the foreground to a true colour: CSI `38;2;r;g;b` `m`.
pub open spec fn fg_rgb_code(rgb: (u8, u8, u8)) -> Seq<char> {
    seq!['\x1b', '[', '3', '8', ';', '2', ';'] + decimal(rgb.0 as nat) + seq![';'] + decimal(
        rgb.1 as nat,
    ) + seq![';'] + decimal(rgb.2 as nat) + seq!['m']
}

/// The escape that resets the foreground colour: CSI `39m`.
pub open spec fn fg_reset_code() -> Seq<char> {
    seq!['\x1b', '[', '3', '9', 'm']
}

/// Relies on termion's `color::Rgb::fg_string`: CSI `38;2;` then the three
/// components in decimal, separated by `;`, then `m`.
#[verifier::external_body]
pub(crate) fn fg_rgb(rgb: (u8, u8, u8)) -> (r: String)
    ensures
        r@ == fg_rgb_code(rgb),
{
    termion::color::Rgb(rgb.0, rgb.1, rgb.2).fg_string()
}

/// Relies on termion's `color::Reset::fg_str`: CSI `39m`.
#[verifier::external_body]
pub(crate) fn fg_reset() -> (r: String)
    ensures
        r@ == fg_reset_code(),
{
    String::from(termion::color::Reset.fg_str())
}

} // verus!
