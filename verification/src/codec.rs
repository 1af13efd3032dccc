//! The two codec entry points: `encode` and `decode`, verified against the
//! sequence model in `model`.

use vstd::prelude::*;
use vstd::arithmetic::div_mod::lemma_fundamental_div_mod;
use vstd::arithmetic::div_mod::lemma_hoist_over_denominator;
use vstd::arithmetic::div_mod::lemma_small_mod;
use crate::alphabet::digit_of_char;
use crate::alphabet::is_valid_char;
use crate::alphabet::dec;
use crate::alphabet::enc;
use crate::model::all_valid_chars;
use crate::model::decoded;
use crate::model::decoded_len;
use crate::model::digit_chars;
use crate::model::digits_value;
use crate::model::encoded;
use crate::model::encoded_len;
use crate::model::group_decoded;
use crate::model::group_encoded;
use crate::model::le_value;
use crate::model::lemma_decoded_len;
use crate::model::lemma_encoded_len;
use crate::model::lemma_pow_values;

verus! {

/// Error returned if decoding failed.
#[derive(Clone, Copy, Debug, PartialEq, Eq)]
pub enum DecodeError {
    /// An invalid character was encountered.
    InvalidChar,
    /// The length is invalid, i.e. `input.len() % 5 == 1`, which is not possible.
    InvalidLength,
    /// The output buffer is too small to store the decoded data.
    OutputTooShort,
}

/// Error returned if encoding fails.
#[derive(Clone, Copy, Debug, PartialEq, Eq)]
pub enum EncodeError {
    /// The output buffer is too small to store the encoded string.
    OutputTooShort,
}

proof fn lemma_le_value_small(g: Seq<u8>)
    requires
        g.len() <= 4,
    ensures
        g.len() == 0 ==> le_value(g) == 0,
        g.len() == 1 ==> le_value(g) == g[0],
        g.len() == 2 ==> le_value(g) == g[0] + 256 * g[1],
        g.len() == 3 ==> le_value(g) == g[0] + 256 * g[1] + 65536 * g[2],
        g.len() == 4 ==> le_value(g) == g[0] + 256 * g[1] + 65536 * g[2] + 16777216 * g[3],
{
    reveal_with_fuel(le_value, 6);
    if g.len() >= 1 {
        let g1 = g.drop_first();
        assert(g1.len() == g.len() - 1);
        if g.len() >= 2 {
            assert(g1[0] == g[1]);
            let g2 = g1.drop_first();
            if g.len() >= 3 {
                assert(g2[0] == g[2]);
                let g3 = g2.drop_first();
                if g.len() >= 4 {
                    assert(g3[0] == g[3]);
                    let g4 = g3.drop_first();
                    assert(g4.len() == 0);
                }
            }
        }
    }
}

proof fn lemma_digits_value_small(s: Seq<u8>)
    requires
        s.len() <= 5,
    ensures
        s.len() == 0 ==> digits_value(s) == 0,
        s.len() == 1 ==> digits_value(s) == digit_of_char(s[0]),
        s.len() == 2 ==> digits_value(s) == digit_of_char(s[0]) + 85 * digit_of_char(s[1]),
        s.len() == 3 ==> digits_value(s) == digit_of_char(s[0]) + 85 * digit_of_char(s[1])
            + 7225 * digit_of_char(s[2]),
        s.len() == 4 ==> digits_value(s) == digit_of_char(s[0]) + 85 * digit_of_char(s[1])
            + 7225 * digit_of_char(s[2]) + 614125 * digit_of_char(s[3]),
        s.len() == 5 ==> digits_value(s) == digit_of_char(s[0]) + 85 * digit_of_char(s[1])
            + 7225 * digit_of_char(s[2]) + 614125 * digit_of_char(s[3])
            + 52200625 * digit_of_char(s[4]),
{
    reveal_with_fuel(digits_value, 7);
    if s.len() >= 1 {
        let s1 = s.drop_first();
        if s.len() >= 2 {
            assert(s1[0] == s[1]);
            let s2 = s1.drop_first();
            if s.len() >= 3 {
                assert(s2[0] == s[2]);
                let s3 = s2.drop_first();
                if s.len() >= 4 {
                    assert(s3[0] == s[3]);
                    let s4 = s3.drop_first();
                    if s.len() >= 5 {
                        assert(s4[0] == s[4]);
                        let s5 = s4.drop_first();
                        assert(s5.len() == 0);
                    }
                }
            }
        }
    }
}

/// Encode an arbitrary byte string.
///
/// On success, the first `encoded_len(input.len())` bytes of `output` hold
/// the N85 encoding of `input` and the count of bytes written is returned;
/// the rest of `output` is untouched. If `output` is too short, nothing is
/// written and `OutputTooShort` is returned.
#[verifier::rlimit(60)]
pub fn encode(input: &[u8], output: &mut [u8]) -> (r: Result<usize, EncodeError>)
    ensures
        final(output)@.len() == old(output)@.len(),
        r is Ok <==> old(output)@.len() >= encoded_len(input@.len() as nat),
        match r {
            Ok(n) => {
                &&& n == encoded_len(input@.len() as nat)
                &&& n <= final(output)@.len()
                &&& final(output)@.subrange(0, n as int) == encoded(input@)
                &&& final(output)@.skip(n as int) == old(output)@.skip(n as int)
            },
            Err(e) => {
                &&& e == EncodeError::OutputTooShort
                &&& final(output)@ == old(output)@
            },
        },
{
    let n_in: usize = input.len();
    let extra: u128 = if n_in % 4 != 0 {
        1
    } else {
        0
    };
    let needed: u128 = (n_in as u128) * 5 / 4 + extra;
    assert(needed == encoded_len(n_in as nat));
    if (output.len() as u128) < needed {
        return Err(EncodeError::OutputTooShort);
    }
    assert(needed <= usize::MAX as u128);
    let out_len: usize = needed as usize;

    let full: usize = n_in / 4;
    let rem: usize = n_in % 4;
    proof {
        lemma_fundamental_div_mod(n_in as int, 4);
        lemma_hoist_over_denominator(5 * rem as int, 5 * full as int, 4);
        assert(n_in * 5 == 5 * rem + (5 * full) * 4);
        assert(n_in as nat * 5 / 4 == 5 * full + 5 * rem / 4);
        assert(out_len == 5 * full + if rem == 0 {
            0int
        } else {
            rem + 1
        });
    }

    let mut gi: usize = 0;
    proof {
        assert(input@.skip(0) =~= input@);
        assert(output@.subrange(0, 0) + encoded(input@) =~= encoded(input@));
    }
    while gi < full
        invariant
            n_in == input@.len(),
            full == n_in as int / 4,
            rem == n_in as int % 4,
            out_len == encoded_len(n_in as nat),
            out_len == 5 * full + if rem == 0 {
                0int
            } else {
                rem + 1
            },
            out_len <= output@.len(),
            output@.len() == old(output)@.len(),
            gi <= full,
            output@.subrange(0, 5 * gi as int) + encoded(input@.skip(4 * gi as int)) == encoded(
                input@,
            ),
            forall|k: int| out_len <= k < output@.len() ==> output@[k] == old(output)@[k],
        decreases full - gi,
    {
        proof {
            lemma_fundamental_div_mod(n_in as int, 4);
        }
        let base: usize = gi * 4;
        let ob: usize = gi * 5;
        let ghost out_pre = output@;
        let b0: u8 = input[base];
        let b1: u8 = input[base + 1];
        let b2: u8 = input[base + 2];
        let b3: u8 = input[base + 3];
        let v: u32 = b0 as u32 + (b1 as u32) * 256 + (b2 as u32) * 65536 + (b3 as u32) * 16777216;
        let ghost g = input@.subrange(base as int, base as int + 4);
        proof {
            lemma_le_value_small(g);
            assert(v == le_value(g));
        }
        output[ob] = enc((v % 85) as u8);
        output[ob + 1] = enc(((v / 85) % 85) as u8);
        output[ob + 2] = enc(((v / 7225) % 85) as u8);
        let d3: u8 = ((v / 614125) % 85) as u8;
        output[ob + 3] = enc(d3);
        let d4: u8 = (v / 52200625) as u8;
        assert(d4 < 85);
        output[ob + 4] = enc(d4);
        proof {
            lemma_pow_values();
            let s5 = output@.subrange(ob as int, ob as int + 5);
            assert(s5 =~= group_encoded(g)) by {
                assert(group_encoded(g) == digit_chars(le_value(g), 5));
                assert(v as int / 1 == v);
                lemma_small_mod((v / 52200625) as nat, 85);
            }
            assert(output@.subrange(0, 5 * gi as int) =~= out_pre.subrange(0, 5 * gi as int));
            assert(output@.subrange(0, 5 * (gi + 1) as int) =~= output@.subrange(0, 5 * gi as int)
                + s5);
            let sk = input@.skip(4 * gi as int);
            assert(sk.len() >= 4);
            assert(encoded(sk) == group_encoded(sk.take(4)) + encoded(sk.skip(4)));
            assert(sk.take(4) =~= g);
            assert(sk.skip(4) =~= input@.skip(4 * (gi + 1) as int));
            assert(output@.subrange(0, 5 * (gi + 1) as int) + encoded(
                input@.skip(4 * (gi + 1) as int),
            ) =~= (output@.subrange(0, 5 * gi as int) + s5) + encoded(sk.skip(4)));
            assert((output@.subrange(0, 5 * gi as int) + s5) + encoded(sk.skip(4)) =~= output@
                .subrange(0, 5 * gi as int) + (s5 + encoded(sk.skip(4))));
            assert(output@.subrange(0, 5 * gi as int) + encoded(sk) == encoded(input@));
        }
        gi += 1;
    }

    let base: usize = full * 4;
    let ob: usize = full * 5;
    let ghost out_pre = output@;
    let ghost g = input@.skip(4 * full as int);
    proof {
        lemma_fundamental_div_mod(n_in as int, 4);
        assert(g.len() == rem);
        lemma_le_value_small(g);
        lemma_pow_values();
    }
    if rem == 1 {
        let a0: u8 = input[base];
        output[ob] = enc(a0 % 85);
        output[ob + 1] = enc(a0 / 85);
        proof {
            assert(le_value(g) == a0);
            let s = output@.subrange(ob as int, ob as int + 2);
            assert(s =~= group_encoded(g)) by {
                assert(a0 as int / 1 == a0);
                lemma_small_mod((a0 / 85) as nat, 85);
            }
        }
    } else if rem == 2 {
        let a0: u8 = input[base];
        let a1: u8 = input[base + 1];
        let v: u32 = a0 as u32 + (a1 as u32) * 256;
        output[ob] = enc((v % 85) as u8);
        output[ob + 1] = enc(((v / 85) % 85) as u8);
        let d2: u8 = (v / 7225) as u8;
        assert(d2 < 85);
        output[ob + 2] = enc(d2);
        proof {
            assert(v == le_value(g));
            let s = output@.subrange(ob as int, ob as int + 3);
            assert(s =~= group_encoded(g)) by {
                assert(v as int / 1 == v);
                lemma_small_mod((v / 7225) as nat, 85);
            }
        }
    } else if rem == 3 {
        let a0: u8 = input[base];
        let a1: u8 = input[base + 1];
        let a2: u8 = input[base + 2];
        let v: u32 = a0 as u32 + (a1 as u32) * 256 + (a2 as u32) * 65536;
        output[ob] = enc((v % 85) as u8);
        output[ob + 1] = enc(((v / 85) % 85) as u8);
        output[ob + 2] = enc(((v / 7225) % 85) as u8);
        let d3: u8 = (v / 614125) as u8;
        assert(d3 < 85);
        output[ob + 3] = enc(d3);
        proof {
            assert(v == le_value(g));
            let s = output@.subrange(ob as int, ob as int + 4);
            assert(s =~= group_encoded(g)) by {
                assert(v as int / 1 == v);
                lemma_small_mod((v / 614125) as nat, 85);
            }
        }
    }
    proof {
        lemma_encoded_len(input@);
        assert(output@.subrange(0, 5 * full as int) =~= out_pre.subrange(0, 5 * full as int));
        if rem == 0 {
            assert(g.len() == 0);
            assert(encoded(g) =~= Seq::<u8>::empty());
            assert(output@.subrange(0, out_len as int) =~= output@.subrange(0, 5 * full as int));
        } else {
            assert(encoded(g) == group_encoded(g));
            assert(output@.subrange(0, out_len as int) =~= output@.subrange(0, 5 * full as int)
                + output@.subrange(ob as int, out_len as int));
        }
        assert(output@.subrange(0, out_len as int) == encoded(input@));
        assert(output@.skip(out_len as int) =~= old(output)@.skip(out_len as int));
    }
    Ok(out_len)
}

/// Decode an N85 string.
///
/// The whole input is validated before anything is written: a length of
/// 1 mod 5 is rejected, then the output capacity is checked, then every
/// input byte is checked against the alphabet. On success, the first
/// `decoded_len(input.len())` bytes of `output` hold the decoded data and
/// the count of bytes written is returned; the rest of `output` is
/// untouched. On any error, `output` is unmodified.
#[verifier::rlimit(60)]
pub fn decode(input: &[u8], output: &mut [u8]) -> (r: Result<usize, DecodeError>)
    ensures
        final(output)@.len() == old(output)@.len(),
        r is Ok <==> {
            &&& input@.len() % 5 != 1
            &&& old(output)@.len() >= decoded_len(input@.len() as nat)
            &&& all_valid_chars(input@)
        },
        match r {
            Ok(n) => {
                &&& n == decoded_len(input@.len() as nat)
                &&& n <= final(output)@.len()
                &&& final(output)@.subrange(0, n as int) == decoded(input@)
                &&& final(output)@.skip(n as int) == old(output)@.skip(n as int)
            },
            Err(e) => {
                &&& final(output)@ == old(output)@
                &&& match e {
                    DecodeError::InvalidLength => input@.len() % 5 == 1,
                    DecodeError::OutputTooShort => input@.len() % 5 != 1 && old(output)@.len()
                        < decoded_len(input@.len() as nat),
                    DecodeError::InvalidChar => {
                        &&& input@.len() % 5 != 1
                        &&& old(output)@.len() >= decoded_len(input@.len() as nat)
                        &&& !all_valid_chars(input@)
                    },
                }
            },
        },
{
    let n_in: usize = input.len();
    if n_in % 5 == 1 {
        return Err(DecodeError::InvalidLength);
    }
    let needed: u128 = (n_in as u128) * 4 / 5;
    assert(needed == decoded_len(n_in as nat));
    if (output.len() as u128) < needed {
        return Err(DecodeError::OutputTooShort);
    }
    assert(needed <= usize::MAX as u128);
    let out_len: usize = needed as usize;

    let mut i: usize = 0;
    while i < n_in
        invariant
            n_in == input@.len(),
            n_in as int % 5 != 1,
            out_len == decoded_len(n_in as nat),
            out_len <= output@.len(),
            output@ == old(output)@,
            i <= n_in,
            forall|k: int| 0 <= k < i ==> is_valid_char(input@[k]),
        decreases n_in - i,
    {
        let c: u8 = input[i];
        if c < 0x28 || c > 0x7d || c == 0x5c {
            assert(!is_valid_char(input@[i as int]));
            return Err(DecodeError::InvalidChar);
        }
        i += 1;
    }
    assert(all_valid_chars(input@));

    let full: usize = n_in / 5;
    let rem: usize = n_in % 5;
    proof {
        lemma_fundamental_div_mod(n_in as int, 5);
        lemma_hoist_over_denominator(4 * rem as int, 4 * full as int, 5);
        assert(n_in * 4 == 4 * rem + (4 * full) * 5);
        assert(n_in as nat * 4 / 5 == 4 * full + 4 * rem / 5);
        assert(out_len == 4 * full + if rem == 0 {
            0int
        } else {
            rem - 1
        });
        assert(rem != 1);
    }

    let mut gi: usize = 0;
    proof {
        assert(input@.skip(0) =~= input@);
        assert(output@.subrange(0, 0) + decoded(input@) =~= decoded(input@));
    }
    while gi < full
        invariant
            n_in == input@.len(),
            full == n_in as int / 5,
            rem == n_in as int % 5,
            rem != 1,
            all_valid_chars(input@),
            out_len == decoded_len(n_in as nat),
            out_len == 4 * full + if rem == 0 {
                0int
            } else {
                rem - 1
            },
            out_len <= output@.len(),
            output@.len() == old(output)@.len(),
            gi <= full,
            output@.subrange(0, 4 * gi as int) + decoded(input@.skip(5 * gi as int)) == decoded(
                input@,
            ),
            forall|k: int| out_len <= k < output@.len() ==> output@[k] == old(output)@[k],
        decreases full - gi,
    {
        proof {
            lemma_fundamental_div_mod(n_in as int, 5);
        }
        let base: usize = gi * 5;
        let ob: usize = gi * 4;
        let ghost out_pre = output@;
        let d0: u64 = dec(input[base]) as u64;
        let d1: u64 = dec(input[base + 1]) as u64;
        let d2: u64 = dec(input[base + 2]) as u64;
        let d3: u64 = dec(input[base + 3]) as u64;
        let d4: u64 = dec(input[base + 4]) as u64;
        let v: u64 = d0 + d1 * 85 + d2 * 7225 + d3 * 614125 + d4 * 52200625;
        let ghost s = input@.subrange(base as int, base as int + 5);
        proof {
            lemma_digits_value_small(s);
            assert(v == digits_value(s));
            lemma_pow_values();
        }
        output[ob] = (v % 256) as u8;
        output[ob + 1] = ((v / 256) % 256) as u8;
        output[ob + 2] = ((v / 65536) % 256) as u8;
        output[ob + 3] = ((v / 16777216) % 256) as u8;
        proof {
            let b4 = output@.subrange(ob as int, ob as int + 4);
            assert(b4 =~= group_decoded(s)) by {
                assert(v as int / 1 == v);
            }
            assert(output@.subrange(0, 4 * gi as int) =~= out_pre.subrange(0, 4 * gi as int));
            assert(output@.subrange(0, 4 * (gi + 1) as int) =~= output@.subrange(0, 4 * gi as int)
                + b4);
            let sk = input@.skip(5 * gi as int);
            assert(sk.len() >= 5);
            assert(decoded(sk) == group_decoded(sk.take(5)) + decoded(sk.skip(5)));
            assert(sk.take(5) =~= s);
            assert(sk.skip(5) =~= input@.skip(5 * (gi + 1) as int));
            assert(output@.subrange(0, 4 * (gi + 1) as int) + decoded(
                input@.skip(5 * (gi + 1) as int),
            ) =~= (output@.subrange(0, 4 * gi as int) + b4) + decoded(sk.skip(5)));
            assert((output@.subrange(0, 4 * gi as int) + b4) + decoded(sk.skip(5)) =~= output@
                .subrange(0, 4 * gi as int) + (b4 + decoded(sk.skip(5))));
            assert(output@.subrange(0, 4 * gi as int) + decoded(sk) == decoded(input@));
        }
        gi += 1;
    }

    let base: usize = full * 5;
    let ob: usize = full * 4;
    let ghost out_pre = output@;
    let ghost s = input@.skip(5 * full as int);
    proof {
        lemma_fundamental_div_mod(n_in as int, 5);
        assert(s.len() == rem);
        lemma_digits_value_small(s);
        lemma_pow_values();
    }
    if rem == 2 {
        let d0: u32 = dec(input[base]) as u32;
        let d1: u32 = dec(input[base + 1]) as u32;
        let v: u32 = d0 + d1 * 85;
        output[ob] = (v % 256) as u8;
        proof {
            assert(v == digits_value(s));
            let b = output@.subrange(ob as int, ob as int + 1);
            assert(b =~= group_decoded(s)) by {
                assert(v as int / 1 == v);
            }
        }
    } else if rem == 3 {
        let d0: u32 = dec(input[base]) as u32;
        let d1: u32 = dec(input[base + 1]) as u32;
        let d2: u32 = dec(input[base + 2]) as u32;
        let v: u32 = d0 + d1 * 85 + d2 * 7225;
        output[ob] = (v % 256) as u8;
        output[ob + 1] = ((v / 256) % 256) as u8;
        proof {
            assert(v == digits_value(s));
            let b = output@.subrange(ob as int, ob as int + 2);
            assert(b =~= group_decoded(s)) by {
                assert(v as int / 1 == v);
            }
        }
    } else if rem == 4 {
        let d0: u32 = dec(input[base]) as u32;
        let d1: u32 = dec(input[base + 1]) as u32;
        let d2: u32 = dec(input[base + 2]) as u32;
        let d3: u32 = dec(input[base + 3]) as u32;
        let v: u32 = d0 + d1 * 85 + d2 * 7225 + d3 * 614125;
        output[ob] = (v % 256) as u8;
        output[ob + 1] = ((v / 256) % 256) as u8;
        output[ob + 2] = ((v / 65536) % 256) as u8;
        proof {
            assert(v == digits_value(s));
            let b = output@.subrange(ob as int, ob as int + 3);
            assert(b =~= group_decoded(s)) by {
                assert(v as int / 1 == v);
            }
        }
    }
    proof {
        lemma_decoded_len(input@);
        assert(output@.subrange(0, 4 * full as int) =~= out_pre.subrange(0, 4 * full as int));
        if rem == 0 {
            assert(s.len() == 0);
            assert(decoded(s) =~= Seq::<u8>::empty());
            assert(output@.subrange(0, out_len as int) =~= output@.subrange(0, 4 * full as int));
        } else {
            assert(decoded(s) == group_decoded(s));
            assert(output@.subrange(0, out_len as int) =~= output@.subrange(0, 4 * full as int)
                + output@.subrange(ob as int, out_len as int));
        }
        assert(output@.subrange(0, out_len as int) == decoded(input@));
        assert(output@.skip(out_len as int) =~= old(output)@.skip(out_len as int));
    }
    Ok(out_len)
}

} // verus!
