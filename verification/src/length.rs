//! How long a document is, in one byte.
//!
//! Small documents are exact: a length under thirty two is stored as itself.
//! Everything else is a five bit mantissa and a four bit exponent, so
//! consecutive codes are six percent apart at worst.
//!
//! [`round`] rounds up, never down. A longer document is a smaller score, so a
//! length that is rounded up can only lower a score, and a ceiling worked out
//! from exact lengths still bounds a score worked out from rounded ones. A
//! document longer than any code has the top code, [`ESCAPE`], which is not a
//! length and says to read the exact one.
use vstd::arithmetic::power2::{
    lemma2_to64, lemma_pow2_pos, lemma_pow2_strictly_increases, lemma_pow2_unfold, pow2,
};
use vstd::bits::lemma_u32_shl_is_mul;
use vstd::prelude::*;

verus! {

/// The largest length that has a code of its own.
pub const LONGEST: u32 = 491520;

/// The code that means the length did not fit and the exact one is the one to
/// read.
pub const ESCAPE: u8 = 255;

/// Lengths below this are stored exactly.
pub const EXACT: u32 = 32;

/// The length a code stands for: itself below thirty two, and above that the
/// mantissa, sixteen to thirty one, times two to the exponent.
pub open spec fn length_of(code: int) -> int {
    if code >= 255 {
        u32::MAX as int
    } else if code < 32 {
        code
    } else {
        ((code - 32) % 16 + 16) * pow2(((code - 32) / 16 + 1) as nat)
    }
}

proof fn lemma_exponent(e: int)
    requires
        1 <= e <= 14,
    ensures
        2 <= pow2(e as nat) <= 16384,
        pow2(e as nat) == 2 * pow2((e - 1) as nat),
        pow2((e - 1) as nat) >= 1,
{
    lemma2_to64();
    lemma_pow2_unfold(e as nat);
    lemma_pow2_pos((e - 1) as nat);
    if e < 14 {
        lemma_pow2_strictly_increases(e as nat, 14);
    }
}

/// A larger code means a longer document.
pub proof fn law_codes_ascend(a: u8, b: u8)
    requires
        a < b,
    ensures
        length_of(a as int) < length_of(b as int),
    decreases b - a,
{
    if a + 1 < b {
        law_codes_ascend(a, (b - 1) as u8);
        lemma_next_code((b - 1) as u8);
    } else {
        lemma_next_code(a);
    }
}

proof fn lemma_next_code(code: u8)
    requires
        code < 255,
    ensures
        length_of(code as int) < length_of(code + 1),
        length_of(code as int) <= LONGEST,
{
    lemma2_to64();
    if code >= 32 {
        let above = code - 32;
        let e = above / 16 + 1;
        let m = above % 16 + 16;
        lemma_exponent(e);
        let p = pow2(e as nat) as int;
        assert(m * p <= 31 * p) by (nonlinear_arith)
            requires
                m <= 31,
                p >= 0,
        ;
        if m < 31 {
            assert((above + 1) / 16 == above / 16 && (above + 1) % 16 == above % 16 + 1);
            assert((m + 1) * p == m * p + p) by (nonlinear_arith);
        } else if code < 254 {
            assert((above + 1) / 16 == above / 16 + 1 && (above + 1) % 16 == 0);
            lemma_exponent(e + 1);
            assert(16 * (2 * p) == 32 * p) by (nonlinear_arith);
        }
        if e < 14 {
            lemma_pow2_strictly_increases(e as nat, 14);
            assert(p * 2 <= 16384) by {
                lemma_exponent(e + 1);
            }
        } else {
            assert(m <= 30);
            assert(m * p <= 30 * 16384) by (nonlinear_arith)
                requires
                    m <= 30,
                    p == 16384,
            ;
        }
    }
}

/// Codes below the escape are lengths up to the longest.
pub proof fn law_codes_are_lengths(code: u8)
    requires
        code < ESCAPE,
    ensures
        length_of(code as int) <= LONGEST,
{
    lemma_next_code(code);
}

/// The code of a length: the first that stands for at least that much.
pub open spec fn rounds_to(length: u32, code: u8) -> bool {
    &&& length_of(code as int) >= length
    &&& code > 0 ==> length_of(code - 1) < length
}

/// Rounds a length to the byte that holds it.
///
/// Never down. A length past [`LONGEST`] comes back as [`ESCAPE`], which is not
/// a length and is not to be read as one.
pub fn round(length: u32) -> (code: u8)
    ensures
        rounds_to(length, code),
        length < EXACT ==> code == length,
        code == ESCAPE <==> length > LONGEST,
{
    proof {
        lemma2_to64();
        lemma_next_code(254);
        assert(length_of(254) == 30 * pow2(14));
    }
    if length < EXACT {
        return length as u8;
    }
    if length > LONGEST {
        return ESCAPE;
    }
    // Five bits of mantissa, so the exponent is however far the top bit is above
    // the fifth one.
    let mut exponent: u32 = 0;
    let mut step: u32 = 1;
    while length / step >= EXACT
        invariant
            32 <= length <= 491520,
            exponent <= 14,
            step == pow2(exponent as nat),
            1 <= step <= 16384,
            length / step >= 16,
            exponent == 0 ==> length / step >= 32,
        decreases 14 - exponent,
    {
        proof {
            lemma2_to64();
            if exponent == 14 {
                assert(length / 16384 < 32);
            }
            lemma_exponent(exponent + 1);
            assert(length as int / (step as int * 2) == (length as int / step as int) / 2) by {
                vstd::arithmetic::div_mod::lemma_div_denominator(
                    length as int,
                    step as int,
                    2,
                );
            }
        }
        step = step * 2;
        exponent = exponent + 1;
    }
    // Rounding up, which is what keeps this a bound rather than an estimate.
    let mut mantissa: u32 = length / step + if length % step == 0 {
        0
    } else {
        1
    };
    let ghost m = mantissa as int;
    let ghost p = step as int;
    let ghost e = exponent as int;
    proof {
        vstd::arithmetic::div_mod::lemma_fundamental_div_mod(length as int, p);
        let q = length as int / p;
        assert(m * p >= length && (m - 1) * p < length) by (nonlinear_arith)
            requires
                length as int == p * q + length as int % p,
                0 <= length as int % p < p,
                m == q + (if length as int % p == 0 {
                    0int
                } else {
                    1int
                }),
                p > 0,
        ;
        lemma_exponent(e);
    }
    // A length just under a power of two rounds up into the next exponent.
    if mantissa == EXACT {
        mantissa = 16;
        exponent = exponent + 1;
    }
    proof {
        let code = 32 + (exponent - 1) * 16 + (mantissa - 16);
        if m == 32 {
            assert(e < 14) by {
                if e >= 14 {
                    assert(31 * p >= 491520);
                }
            }
            lemma_exponent(e + 1);
            assert(code == 32 + e * 16);
            assert((code - 32) / 16 == e && (code - 32) % 16 == 0);
            assert((code - 1 - 32) / 16 == e - 1 && (code - 1 - 32) % 16 == 15);
            assert(length_of(code as int) == 16 * pow2((e + 1) as nat));
            assert(length_of(code - 1) == 31 * p);
            assert(m * p == 32 * p && (m - 1) * p == 31 * p);
            assert(length_of(code as int) >= length);
            assert(length_of(code - 1) < length);
        } else {
            assert((code - 32) / 16 == e - 1 && (code - 32) % 16 == m - 16);
            assert(length_of(code as int) == m * p);
            if e == 14 {
                assert(m <= 30) by {
                    if m > 30 {
                        assert(30 * p >= 491520);
                        assert((m - 1) * p >= 30 * p) by (nonlinear_arith)
                            requires
                                m > 30,
                                p > 0,
                        ;
                    }
                }
            }
            if m > 16 {
                assert((code - 1 - 32) / 16 == e - 1 && (code - 1 - 32) % 16 == m - 17);
                assert(length_of(code - 1) == (m - 1) * p);
            } else {
                assert(m * p == 16 * p && (m - 1) * p == 15 * p);
                assert(length as int / p >= 16);
                assert(length >= 16 * p) by {
                    vstd::arithmetic::div_mod::lemma_fundamental_div_mod(length as int, p);
                    let q = length as int / p;
                    assert(p * q >= 16 * p) by (nonlinear_arith)
                        requires
                            q >= 16,
                            p > 0,
                    ;
                }
                assert(16 * p == 32 * pow2((e - 1) as nat));
                if e > 1 {
                    assert((code - 1 - 32) / 16 == e - 2 && (code - 1 - 32) % 16 == 15);
                    lemma_exponent(e - 1);
                    let h = pow2((e - 1) as nat) as int;
                    assert(length_of(code - 1) == 31 * h);
                    assert(31 * h < 16 * p);
                } else {
                    assert(code == 32);
                    assert(length_of(code - 1) == 31);
                }
            }
        }
        assert(32 <= code <= 254);
        assert(length_of(code as int) >= length);
        assert(length_of(code - 1) < length);
    }
    let code: u8 = (EXACT + (exponent - 1) * 16 + (mantissa - 16)) as u8;
    assert(code as int == 32 + (exponent - 1) * 16 + (mantissa - 16));
    code
}

/// The length a byte stands for.
///
/// [`u32::MAX`] for [`ESCAPE`], which stands for no length at all.
pub fn of(code: u8) -> (length: u32)
    ensures
        length == length_of(code as int),
{
    if code == ESCAPE {
        return u32::MAX;
    }
    let code: u32 = code as u32;
    if code < EXACT {
        return code;
    }
    let above: u32 = code - EXACT;
    let exponent: u32 = above / 16 + 1;
    let mantissa: u32 = above % 16 + 16;
    proof {
        lemma_exponent(exponent as int);
        assert(mantissa * pow2(exponent as nat) <= 31 * 16384) by (nonlinear_arith)
            requires
                mantissa <= 31,
                pow2(exponent as nat) <= 16384,
        ;
        lemma_u32_shl_is_mul(mantissa, exponent);
    }
    mantissa << exponent
}

/// Rounding a length never shortens it.
pub proof fn law_rounding_never_shortens(length: u32, code: u8)
    requires
        rounds_to(length, code),
    ensures
        length_of(code as int) >= length,
{
}

/// Rounding a length that has a code never adds more than a sixteenth and one.
pub proof fn law_rounding_adds_little(length: u32, code: u8)
    requires
        rounds_to(length, code),
        length <= LONGEST,
    ensures
        length_of(code as int) <= length + length as int / 16 + 1,
{
    lemma2_to64();
    assert(code < 255) by {
        if code == 255 {
            assert(length_of(254) == 30 * pow2(14));
        }
    }
    if code > 32 {
        let above = code - 32;
        let e = above / 16 + 1;
        let m = above % 16 + 16;
        lemma_exponent(e);
        let p = pow2(e as nat) as int;
        if m > 16 {
            assert((code - 1 - 32) / 16 == e - 1 && (code - 1 - 32) % 16 == m - 17);
            assert(m * p == (m - 1) * p + p) by (nonlinear_arith);
            assert((m - 1) * p >= 16 * p) by (nonlinear_arith)
                requires
                    m > 16,
                    p > 0,
            ;
            assert(length as int / 16 >= p);
        } else {
            assert((code - 1 - 32) / 16 == e - 2 && (code - 1 - 32) % 16 == 15);
            lemma_exponent(e - 1);
            let h = pow2((e - 1) as nat) as int;
            assert(16 * p == 32 * h);
            assert(length as int / 16 >= h) by {
                assert(length >= 31 * h);
            }
        }
    } else if code == 32 {
        assert(length_of(32) == 16 * pow2(1));
    }
}

/// Every code is the code its own length rounds to.
pub proof fn law_codes_round_to_themselves(code: u8)
    ensures
        rounds_to(length_of(code as int) as u32, code),
{
    if code > 0 {
        lemma_next_code((code - 1) as u8);
    }
    if code < 255 {
        lemma_next_code(code);
    }
    lemma_length_positive(code);
}

proof fn lemma_length_positive(code: u8)
    ensures
        0 <= length_of(code as int) <= u32::MAX,
{
    if code > 0 {
        law_codes_ascend(0, code);
    }
    if code < 255 {
        lemma_next_code(code);
    }
}

/// No two codes are right for one length.
pub proof fn law_rounding_unique(length: u32, a: u8, b: u8)
    requires
        rounds_to(length, a),
        rounds_to(length, b),
    ensures
        a == b,
{
    if a < b {
        if a + 1 < b {
            law_codes_ascend(a, (b - 1) as u8);
        }
    } else if b < a {
        if b + 1 < a {
            law_codes_ascend(b, (a - 1) as u8);
        }
    }
}

/// Codes below thirty two are the lengths themselves, and from sixteen on the length is
/// twice as much every sixteen codes.
pub proof fn law_sixteen_codes_on_is_twice_as_long(code: u8)
    ensures
        code < 32 ==> length_of(code as int) == code,
        16 <= code < 239 ==> length_of(code + 16) == 2 * length_of(code as int),
        length_of(255) == u32::MAX,
{
    lemma2_to64();
    if 32 <= code < 239 {
        let e = (code - 32) / 16 + 1;
        let m = (code - 32) % 16 + 16;
        let p = pow2(e as nat) as int;
        assert((code + 16 - 32) / 16 + 1 == e + 1 && (code + 16 - 32) % 16 + 16 == m);
        lemma_pow2_unfold((e + 1) as nat);
        assert(pow2((e + 1) as nat) == 2 * p);
        assert(length_of(code as int) == m * p);
        assert(length_of(code + 16) == m * (2 * p));
        assert(m * (2 * p) == 2 * (m * p)) by (nonlinear_arith);
    } else if 16 <= code < 32 {
        assert((code + 16 - 32) / 16 + 1 == 1 && (code + 16 - 32) % 16 + 16 == code);
        assert(length_of(code + 16) == code * pow2(1));
    }
}

} // verus!
