//! The N85 alphabet: 85 printable ASCII symbols, `'('` through `'}'` with
//! `'\\'` excluded, mapped bijectively to the base-85 digits `0..85`.

use vstd::prelude::*;

verus! {

/// A byte is one of the 85 alphabet symbols: `'('..='['` or `']'..='}'`.
pub open spec fn is_valid_char(c: u8) -> bool {
    (0x28 <= c && c <= 0x5b) || (0x5d <= c && c <= 0x7d)
}

/// The alphabet symbol for digit `d`: `'('` plus `d`, skipping over `'\\'`.
pub open spec fn char_of_digit(d: u8) -> u8
    recommends
        d < 85,
{
    if d + 0x28 >= 0x5c {
        (d + 0x29) as u8
    } else {
        (d + 0x28) as u8
    }
}

/// The digit for alphabet symbol `c`: `c` minus `'('`, closing the gap at `'\\'`.
pub open spec fn digit_of_char(c: u8) -> u8
    recommends
        is_valid_char(c),
{
    if c >= 0x5c {
        (c - 0x29) as u8
    } else {
        (c - 0x28) as u8
    }
}

/// Map a base-85 digit to its alphabet symbol.
pub fn enc(d: u8) -> (c: u8)
    requires
        d < 85,
    ensures
        c == char_of_digit(d),
        is_valid_char(c),
{
    let c = d + 0x28;
    if c >= 0x5c {
        c + 1
    } else {
        c
    }
}

/// Map an alphabet symbol back to its base-85 digit.
pub fn dec(c: u8) -> (d: u8)
    requires
        is_valid_char(c),
    ensures
        d == digit_of_char(c),
        d < 85,
{
    if c >= 0x5c {
        c - 0x29
    } else {
        c - 0x28
    }
}

/// The alphabet map is injective from digits to symbols: every digit's symbol
/// is in the alphabet, and mapping it back yields the digit again.
pub proof fn lemma_digit_round_trip(d: u8)
    requires
        d < 85,
    ensures
        is_valid_char(char_of_digit(d)),
        digit_of_char(char_of_digit(d)) == d,
{
}

/// The alphabet map is onto the 85 symbols: every valid symbol's digit is in
/// `0..85`, and mapping it forward yields the symbol again.
pub proof fn lemma_char_round_trip(c: u8)
    requires
        is_valid_char(c),
    ensures
        digit_of_char(c) < 85,
        char_of_digit(digit_of_char(c)) == c,
{
}

} // verus!
