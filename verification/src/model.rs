//! The mathematical model of the codec: block values, base-85 digit strings,
//! the `encoded` and `decoded` sequence transformations, their length
//! formulas, and the round-trip theorem.

use vstd::prelude::*;
use vstd::arithmetic::div_mod::lemma_breakdown;
use vstd::arithmetic::div_mod::lemma_div_denominator;
use vstd::arithmetic::div_mod::lemma_fundamental_div_mod;
use vstd::arithmetic::div_mod::lemma_hoist_over_denominator;
use vstd::arithmetic::div_mod::lemma_mod_multiples_vanish;
use vstd::arithmetic::div_mod::lemma_small_mod;
use crate::alphabet::char_of_digit;
use crate::alphabet::digit_of_char;
use crate::alphabet::is_valid_char;
use crate::alphabet::lemma_digit_round_trip;

verus! {

/// 85 raised to the power `e`.
pub open spec fn pow85(e: nat) -> nat
    decreases e,
{
    if e == 0 {
        1
    } else {
        85 * pow85((e - 1) as nat)
    }
}

/// 256 raised to the power `e`.
pub open spec fn pow256(e: nat) -> nat
    decreases e,
{
    if e == 0 {
        1
    } else {
        256 * pow256((e - 1) as nat)
    }
}

/// The value of a byte group read as a little-endian unsigned integer.
pub open spec fn le_value(g: Seq<u8>) -> nat
    decreases g.len(),
{
    if g.len() == 0 {
        0
    } else {
        g[0] as nat + 256 * le_value(g.drop_first())
    }
}

/// The value of an encoded group read as base-85 digits, least significant
/// digit first.
pub open spec fn digits_value(s: Seq<u8>) -> nat
    decreases s.len(),
{
    if s.len() == 0 {
        0
    } else {
        digit_of_char(s[0]) as nat + 85 * digits_value(s.drop_first())
    }
}

/// The `k` least significant base-85 digits of `v`, as alphabet symbols.
pub open spec fn digit_chars(v: nat, k: nat) -> Seq<u8> {
    Seq::new(k, |i: int| char_of_digit(((v / pow85(i as nat)) % 85) as u8))
}

/// The encoding of one group of 1 to 4 raw bytes: one more symbol than there
/// are bytes, carrying the group's little-endian value in base 85.
pub open spec fn group_encoded(g: Seq<u8>) -> Seq<u8>
    recommends
        1 <= g.len() <= 4,
{
    digit_chars(le_value(g), (g.len() + 1) as nat)
}

/// The decoding of one group of 2 to 5 symbols: one less byte than there are
/// symbols, carrying the low bytes of the group's base-85 value.
pub open spec fn group_decoded(s: Seq<u8>) -> Seq<u8>
    recommends
        1 <= s.len(),
{
    Seq::new((s.len() - 1) as nat, |i: int| ((digits_value(s) / pow256(i as nat)) % 256) as u8)
}

/// The N85 encoding of an arbitrary byte sequence: full groups of 4 bytes,
/// then one short group for any remainder.
pub open spec fn encoded(b: Seq<u8>) -> Seq<u8>
    decreases b.len(),
{
    if b.len() == 0 {
        Seq::empty()
    } else if b.len() >= 4 {
        group_encoded(b.take(4)) + encoded(b.skip(4))
    } else {
        group_encoded(b)
    }
}

/// The N85 decoding of a symbol sequence: full groups of 5 symbols, then one
/// short group for any remainder. Meaningful when the length mod 5 is not 1.
pub open spec fn decoded(s: Seq<u8>) -> Seq<u8>
    decreases s.len(),
{
    if s.len() == 0 {
        Seq::empty()
    } else if s.len() >= 5 {
        group_decoded(s.take(5)) + decoded(s.skip(5))
    } else {
        group_decoded(s)
    }
}

/// The number of symbols that encoding `n` bytes produces.
pub open spec fn encoded_len(n: nat) -> nat {
    n * 5 / 4 + if n % 4 == 0 {
        0nat
    } else {
        1nat
    }
}

/// The number of bytes that decoding `n` symbols produces.
pub open spec fn decoded_len(n: nat) -> nat {
    n * 4 / 5
}

/// Every byte of `s` is an alphabet symbol.
pub open spec fn all_valid_chars(s: Seq<u8>) -> bool {
    forall|i: int| 0 <= i < s.len() ==> is_valid_char(s[i])
}

proof fn lemma_pow85_pos(e: nat)
    ensures
        pow85(e) >= 1,
    decreases e,
{
    if e > 0 {
        lemma_pow85_pos((e - 1) as nat);
    }
}

proof fn lemma_pow256_pos(e: nat)
    ensures
        pow256(e) >= 1,
    decreases e,
{
    if e > 0 {
        lemma_pow256_pos((e - 1) as nat);
    }
}

pub(crate) proof fn lemma_pow_values()
    ensures
        pow85(0) == 1,
        pow85(1) == 85,
        pow85(2) == 7225,
        pow85(3) == 614125,
        pow85(4) == 52200625,
        pow85(5) == 4437053125,
        pow256(0) == 1,
        pow256(1) == 256,
        pow256(2) == 65536,
        pow256(3) == 16777216,
        pow256(4) == 4294967296,
{
    reveal_with_fuel(pow85, 6);
    reveal_with_fuel(pow256, 5);
}

/// A group of `n` bytes has a little-endian value below `256^n`.
proof fn lemma_le_value_bound(g: Seq<u8>)
    ensures
        le_value(g) < pow256(g.len()),
    decreases g.len(),
{
    if g.len() > 0 {
        lemma_le_value_bound(g.drop_first());
    }
}

/// A group of `n` valid symbols has a base-85 value below `85^n`.
proof fn lemma_digits_value_bound(s: Seq<u8>)
    requires
        all_valid_chars(s),
    ensures
        digits_value(s) < pow85(s.len()),
    decreases s.len(),
{
    if s.len() > 0 {
        assert(is_valid_char(s[0]));
        assert(digit_of_char(s[0]) < 85);
        assert(all_valid_chars(s.drop_first())) by {
            assert forall|i: int| 0 <= i < s.drop_first().len() implies is_valid_char(
                s.drop_first()[i],
            ) by {
                assert(s.drop_first()[i] == s[i + 1]);
            }
        }
        lemma_digits_value_bound(s.drop_first());
    }
}

/// Reading the digit string of `v` back as a base-85 value recovers `v`
/// modulo `85^k`.
proof fn lemma_digit_chars_value(v: nat, k: nat)
    ensures
        digits_value(digit_chars(v, k)) == v % pow85(k),
    decreases k,
{
    lemma_pow85_pos(k);
    if k == 0 {
        assert(digit_chars(v, 0).len() == 0);
        lemma_small_mod(0, 1);
        assert(v % 1 == 0) by {
            lemma_fundamental_div_mod(v as int, 1);
        }
    } else {
        let s = digit_chars(v, k);
        let km1 = (k - 1) as nat;
        let d0 = ((v / pow85(0)) % 85) as u8;
        assert(pow85(0) == 1);
        assert(v / 1 == v) by {
            lemma_fundamental_div_mod(v as int, 1);
        }
        assert(d0 == v % 85);
        assert(d0 < 85);
        lemma_digit_round_trip(d0);
        assert(digit_of_char(s[0]) == v % 85);

        assert(s.drop_first() =~= digit_chars(v / 85, km1)) by {
            assert forall|i: int| 0 <= i < km1 implies s.drop_first()[i] == digit_chars(
                v / 85,
                km1,
            )[i] by {
                lemma_pow85_pos(i as nat);
                lemma_div_denominator(v as int, 85, pow85(i as nat) as int);
                assert(pow85((i + 1) as nat) == 85 * pow85(i as nat));
                assert((v / 85) / pow85(i as nat) == v / pow85((i + 1) as nat));
            }
        }
        lemma_digit_chars_value(v / 85, km1);
        assert(digits_value(s) == v % 85 + 85 * ((v / 85) % pow85(km1)));
        lemma_pow85_pos(km1);
        lemma_breakdown(v as int, 85, pow85(km1) as int);
        assert(pow85(k) == 85 * pow85(km1));
        assert(v % pow85(k) == 85 * ((v / 85) % pow85(km1)) + v % 85);
    }
}

/// Byte `i` of a group's little-endian value is the group's byte `i`.
proof fn lemma_byte_extract(g: Seq<u8>, i: int)
    requires
        0 <= i < g.len(),
    ensures
        (le_value(g) / pow256(i as nat)) % 256 == g[i],
    decreases i,
{
    let rest = le_value(g.drop_first());
    assert(le_value(g) == g[0] + 256 * rest);
    if i == 0 {
        assert(pow256(0) == 1);
        assert(le_value(g) / 1 == le_value(g)) by {
            lemma_fundamental_div_mod(le_value(g) as int, 1);
        }
        lemma_mod_multiples_vanish(rest as int, g[0] as int, 256);
        lemma_small_mod(g[0] as nat, 256);
    } else {
        assert(le_value(g) / 256 == rest) by {
            lemma_hoist_over_denominator(g[0] as int, rest as int, 256);
            assert(g[0] as int / 256 == 0) by {
                lemma_fundamental_div_mod(g[0] as int, 256);
                assert(g[0] < 256);
            }
        }
        let im1 = (i - 1) as nat;
        lemma_pow256_pos(im1);
        lemma_div_denominator(le_value(g) as int, 256, pow256(im1) as int);
        assert(pow256(i as nat) == 256 * pow256(im1));
        assert(le_value(g) / pow256(i as nat) == rest / pow256(im1));
        lemma_byte_extract(g.drop_first(), i - 1);
        assert(g.drop_first()[i - 1] == g[i]);
    }
}

/// Encoding one group of 1 to 4 bytes yields one more valid symbol than there
/// are bytes, and decoding that group recovers the bytes exactly.
pub proof fn lemma_group_round_trip(g: Seq<u8>)
    requires
        1 <= g.len() <= 4,
    ensures
        group_encoded(g).len() == g.len() + 1,
        all_valid_chars(group_encoded(g)),
        group_decoded(group_encoded(g)) == g,
{
    let v = le_value(g);
    let k = (g.len() + 1) as nat;
    let s = group_encoded(g);
    lemma_pow_values();
    lemma_le_value_bound(g);
    assert(pow256(g.len()) <= pow85(k));
    assert forall|i: int| 0 <= i < s.len() implies is_valid_char(s[i]) by {
        lemma_digit_round_trip(((v / pow85(i as nat)) % 85) as u8);
    }
    lemma_digit_chars_value(v, k);
    lemma_small_mod(v, pow85(k));
    assert(digits_value(s) == v);
    assert(group_decoded(s) =~= g) by {
        assert forall|i: int| 0 <= i < g.len() implies group_decoded(s)[i] == g[i] by {
            lemma_byte_extract(g, i);
        }
    }
}

/// The length of an encoding follows the closed formula: five quarters of the
/// byte count, rounded up to cover a short final group.
pub proof fn lemma_encoded_len(b: Seq<u8>)
    ensures
        encoded(b).len() == encoded_len(b.len()),
    decreases b.len(),
{
    let n = b.len();
    if n == 0 {
    } else if n >= 4 {
        lemma_encoded_len(b.skip(4));
        let m = (n - 4) as nat;
        assert(encoded(b).len() == 5 + encoded(b.skip(4)).len());
        assert(m * 5 / 4 + 5 == (m * 5 + 5 * 4) / 4) by {
            lemma_hoist_over_denominator(m * 5 as int, 5, 4);
        }
        assert(n * 5 == m * 5 + 5 * 4);
        assert(n % 4 == m % 4) by {
            lemma_mod_multiples_vanish(1, m as int, 4);
        }
    } else {
        assert(encoded(b).len() == n + 1);
    }
}

/// The length of a decoding follows the closed formula: four fifths of the
/// symbol count, rounded down.
pub proof fn lemma_decoded_len(s: Seq<u8>)
    requires
        s.len() % 5 != 1,
    ensures
        decoded(s).len() == decoded_len(s.len()),
    decreases s.len(),
{
    let n = s.len();
    if n == 0 {
    } else if n >= 5 {
        assert((n - 5) % 5 == n % 5) by {
            lemma_mod_multiples_vanish(1, (n - 5) as int, 5);
        }
        lemma_decoded_len(s.skip(5));
        let m = (n - 5) as nat;
        assert(decoded(s).len() == 4 + decoded(s.skip(5)).len());
        assert(m * 4 / 5 + 4 == (m * 4 + 4 * 5) / 5) by {
            lemma_hoist_over_denominator(m * 4 as int, 4, 5);
        }
        assert(n * 4 == m * 4 + 4 * 5);
    } else {
        assert(decoded(s).len() == n - 1);
    }
}

/// Round trip: the encoding of any byte sequence is a structurally valid
/// input for the decoder — its symbols are all in the alphabet and its length
/// is never 1 mod 5 — and decoding it recovers the original bytes exactly.
pub proof fn lemma_round_trip(b: Seq<u8>)
    ensures
        encoded(b).len() == encoded_len(b.len()),
        encoded(b).len() % 5 != 1,
        all_valid_chars(encoded(b)),
        decoded_len(encoded(b).len()) == b.len(),
        decoded(encoded(b)) == b,
    decreases b.len(),
{
    lemma_encoded_len(b);
    let n = b.len();
    let s = encoded(b);
    if n == 0 {
        assert(decoded(s) =~= b);
    } else if n >= 4 {
        let g = b.take(4);
        let rest = b.skip(4);
        lemma_group_round_trip(g);
        lemma_round_trip(rest);
        let sg = group_encoded(g);
        let sr = encoded(rest);
        assert(s == sg + sr);
        assert(s.len() == 5 + sr.len());
        assert(s.len() % 5 == sr.len() % 5) by {
            lemma_mod_multiples_vanish(1, sr.len() as int, 5);
        }
        assert(all_valid_chars(s)) by {
            assert forall|i: int| 0 <= i < s.len() implies is_valid_char(s[i]) by {
                if i < 5 {
                    assert(s[i] == sg[i]);
                } else {
                    assert(s[i] == sr[i - 5]);
                }
            }
        }
        assert(s.take(5) =~= sg);
        assert(s.skip(5) =~= sr);
        assert(decoded(s) == group_decoded(sg) + decoded(sr));
        assert(decoded(s) =~= b) by {
            assert(group_decoded(sg) == g);
            assert(decoded(sr) == rest);
            assert(g + rest =~= b);
        }
        assert(decoded_len(s.len()) == b.len()) by {
            lemma_decoded_len(s);
            assert(decoded(s).len() == b.len());
        }
    } else {
        lemma_group_round_trip(b);
        assert(s == group_encoded(b));
        assert(s.len() == n + 1);
        assert(decoded(s) == group_decoded(s));
        assert(decoded(s) == b);
        assert(decoded_len(s.len()) == b.len()) by {
            lemma_decoded_len(s);
        }
    }
}

} // verus!
