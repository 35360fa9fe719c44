//! Numeric literal conversion.
//!
//! A digit run (most significant digit first, `_` separators allowed) is
//! given an exact mathematical value by [`radix_val`] over the run with
//! underscores removed.  The executable conversions accumulate with checked
//! arithmetic and fail exactly when that value does not fit a 64-bit signed
//! integer.

use crate::chars::digit_val;
use crate::chars::scan_end;
use crate::chars::spec_digit_val;
use crate::chars::spec_is_bin;
use crate::chars::spec_is_dec;
use crate::chars::spec_is_hex;
use crate::chars::spec_is_oct;
use crate::chars::Class;
use crate::error::Error;
use vstd::prelude::*;

verus! {

/// `c` is a digit of the given radix.
pub open spec fn spec_is_digit(c: char, radix: u32) -> bool {
    if radix == 2 {
        spec_is_bin(c)
    } else if radix == 8 {
        spec_is_oct(c)
    } else if radix == 10 {
        spec_is_dec(c)
    } else {
        spec_is_hex(c)
    }
}

/// `s`, with every underscore separator removed.
pub open spec fn sans_underscores(s: Seq<char>) -> Seq<char>
    decreases s.len(),
{
    if s.len() == 0 {
        Seq::empty()
    } else if s.last() == '_' {
        sans_underscores(s.drop_last())
    } else {
        sans_underscores(s.drop_last()).push(s.last())
    }
}

/// The value of a run of digits read in the given radix, most significant
/// digit first.
pub open spec fn radix_val(s: Seq<char>, radix: int) -> int
    decreases s.len(),
{
    if s.len() == 0 {
        0
    } else {
        radix_val(s.drop_last(), radix) * radix + spec_digit_val(s.last())
    }
}

/// A digit-run value is never negative.
pub proof fn lemma_radix_val_nonneg(s: Seq<char>, radix: int)
    requires
        radix >= 0,
    ensures
        radix_val(s, radix) >= 0,
    decreases s.len(),
{
    if s.len() > 0 {
        lemma_radix_val_nonneg(s.drop_last(), radix);
        assert(radix_val(s.drop_last(), radix) * radix >= 0) by (nonlinear_arith)
            requires
                radix_val(s.drop_last(), radix) >= 0,
                radix >= 0,
        ;
    }
}

/// Extending a digit run at the end never shrinks its value, with the
/// underscore separators removed.
pub proof fn lemma_sans_prefix_le(s: Seq<char>, k: int, radix: int)
    requires
        0 <= k <= s.len(),
        radix >= 1,
    ensures
        radix_val(sans_underscores(s.take(k)), radix) <= radix_val(sans_underscores(s), radix),
    decreases s.len() - k,
{
    if k < s.len() {
        lemma_sans_prefix_le(s, k + 1, radix);
        assert(s.take(k + 1).drop_last() =~= s.take(k));
        assert(s.take(k + 1).last() == s[k]);
        if s[k] == '_' {
        } else {
            let pre = sans_underscores(s.take(k));
            assert(sans_underscores(s.take(k + 1)) == pre.push(s[k]));
            lemma_radix_val_push(pre, s[k], radix);
            lemma_radix_val_nonneg(pre, radix);
            assert(radix_val(pre, radix) * radix >= radix_val(pre, radix)) by (nonlinear_arith)
                requires
                    radix_val(pre, radix) >= 0,
                    radix >= 1,
            ;
        }
    } else {
        assert(s.take(k) =~= s);
    }
}

/// The value of a run grown by one digit at the end.
pub proof fn lemma_radix_val_push(s: Seq<char>, c: char, radix: int)
    ensures
        radix_val(s.push(c), radix) == radix_val(s, radix) * radix + spec_digit_val(c),
{
    assert(s.push(c).drop_last() =~= s);
    assert(s.push(c).last() == c);
}

/// Copy `v` leaving the underscore separators out.
pub fn strip_underscores(v: &[char]) -> (r: Vec<char>)
    ensures
        r@ == sans_underscores(v@),
{
    let mut r: Vec<char> = Vec::new();
    let mut i: usize = 0;
    proof {
        assert(v@.take(0) =~= Seq::<char>::empty());
    }
    while i < v.len()
        invariant
            i <= v@.len(),
            r@ == sans_underscores(v@.take(i as int)),
        decreases v@.len() - i,
    {
        proof {
            assert(v@.take(i + 1).drop_last() =~= v@.take(i as int));
            assert(v@.take(i + 1).last() == v@[i as int]);
        }
        if v[i] != '_' {
            r.push(v[i]);
        }
        i = i + 1;
    }
    proof {
        assert(v@.take(v@.len() as int) =~= v@);
    }
    r
}

/// All of `s` from position `from` on is a digit of the radix or `_`.
pub open spec fn digit_run(s: Seq<char>, from: int, radix: u32) -> bool {
    forall|i: int| from <= i < s.len() ==> spec_is_digit(#[trigger] s[i], radix) || s[i] == '_'
}

/// Accumulate the digits of `digits[from..]` into a signed 64-bit value,
/// `None` exactly when the run's value does not fit.
fn accum_radix(digits: &[char], from: usize, positive: bool, radix: u32) -> (r: Option<i64>)
    requires
        from <= digits@.len(),
        radix == 2 || radix == 8 || radix == 10 || radix == 16,
        digit_run(digits@, from as int, radix),
    ensures
        ({
            let m = radix_val(sans_underscores(digits@.skip(from as int)), radix as int);
            &&& positive ==> (if m <= i64::MAX {
                r == Some(m as i64)
            } else {
                r is None
            })
            &&& !positive ==> (if m <= i64::MAX as int + 1 {
                r == Some((-m) as i64)
            } else {
                r is None
            })
        }),
{
    let ghost t = digits@.skip(from as int);
    let ghost rad = radix as int;
    let mut cur: i64 = 0;
    let mut i: usize = from;
    proof {
        assert(t.take(0) =~= Seq::<char>::empty());
    }
    while i < digits.len()
        invariant
            from <= i <= digits@.len(),
            t == digits@.skip(from as int),
            rad == radix as int,
            radix == 2 || radix == 8 || radix == 10 || radix == 16,
            digit_run(digits@, from as int, radix),
            positive ==> cur == radix_val(sans_underscores(t.take(i - from)), rad),
            !positive ==> cur == -radix_val(sans_underscores(t.take(i - from)), rad),
        decreases digits@.len() - i,
    {
        let c = digits[i];
        proof {
            assert(t.take(i + 1 - from).drop_last() =~= t.take(i - from));
            assert(t.take(i + 1 - from).last() == digits@[i as int]);
            if digits@[i as int] != '_' {
                assert(sans_underscores(t.take(i + 1 - from)) == sans_underscores(
                    t.take(i - from),
                ).push(digits@[i as int]));
                lemma_radix_val_push(
                    sans_underscores(t.take(i - from)),
                    digits@[i as int],
                    rad,
                );
            }
        }
        if c != '_' {
            let x = digit_val(c) as i64;
            let sx = if positive {
                x
            } else {
                -x
            };
            let stepped = match cur.checked_mul(radix as i64) {
                Some(m) => m.checked_add(sx),
                None => None,
            };
            match stepped {
                Some(v) => {
                    cur = v;
                },
                None => {
                    proof {
                        let pre = sans_underscores(t.take(i - from));
                        lemma_radix_val_nonneg(pre, rad);
                        let m1 = radix_val(sans_underscores(t.take(i + 1 - from)), rad);
                        assert(m1 == radix_val(pre, rad) * rad + spec_digit_val(digits@[i as int]));
                        lemma_sans_prefix_le(t, i + 1 - from, rad);
                        assert(t.take(t.len() as int) =~= t);
                    }
                    return None;
                },
            }
        }
        i = i + 1;
    }
    proof {
        assert(t.take(t.len() as int) =~= t);
        lemma_radix_val_nonneg(sans_underscores(t), rad);
    }
    Some(cur)
}

/// Convert a run of radix digits (with `_` separators) to a 64-bit signed
/// integer, applying the sign that the literal's prefix carried.  The result
/// is exactly the run's value in the radix; a value that does not fit is an
/// overflow (or underflow, for negative literals) error.
pub fn i64_from_str_radix(digits: &[char], is_positive: bool, radix: u32) -> (r: Result<
    i64,
    Error,
>)
    requires
        radix == 2 || radix == 8 || radix == 16,
        digit_run(digits@, 0, radix),
    ensures
        ({
            let m = radix_val(sans_underscores(digits@), radix as int);
            &&& is_positive ==> (if m <= i64::MAX {
                r == Ok::<i64, Error>(m as i64)
            } else {
                r == Err::<i64, Error>(Error::HexLiteralOverflow)
            })
            &&& !is_positive ==> (if m <= i64::MAX as int + 1 {
                r == Ok::<i64, Error>((-m) as i64)
            } else {
                r == Err::<i64, Error>(Error::HexLiteralUnderflow)
            })
        }),
{
    proof {
        assert(digits@.skip(0) =~= digits@);
    }
    match accum_radix(digits, 0, is_positive, radix) {
        Some(v) => Ok(v),
        None => Err(
            if is_positive {
                Error::HexLiteralOverflow
            } else {
                Error::HexLiteralUnderflow
            },
        ),
    }
}

/// The text of a decimal integer literal: an optional sign, then a run of
/// decimal digits and separators starting with a digit.
pub open spec fn dec_int_shape(s: Seq<char>) -> bool {
    &&& s.len() >= 1
    &&& if s[0] == '-' || s[0] == '+' {
        s.len() >= 2 && spec_is_dec(s[1]) && digit_run(s, 1, 10)
    } else {
        spec_is_dec(s[0]) && digit_run(s, 0, 10)
    }
}

/// The arithmetic value of a decimal integer literal's text, underscores
/// ignored and the sign applied.
pub open spec fn dec_text_val(s: Seq<char>) -> int {
    if s.len() >= 1 && s[0] == '-' {
        -radix_val(sans_underscores(s.skip(1)), 10)
    } else if s.len() >= 1 && s[0] == '+' {
        radix_val(sans_underscores(s.skip(1)), 10)
    } else {
        radix_val(sans_underscores(s), 10)
    }
}

/// Convert the text of a decimal integer literal to a 64-bit signed integer.
/// The result is exactly the literal's arithmetic value with the underscores
/// removed; a value that does not fit the type cannot be parsed.
pub fn parse_dec_int(text: &[char]) -> (r: Result<i64, Error>)
    requires
        dec_int_shape(text@),
    ensures
        ({
            let v = dec_text_val(text@);
            if i64::MIN <= v <= i64::MAX {
                r == Ok::<i64, Error>(v as i64)
            } else {
                r == Err::<i64, Error>(Error::NonParseableInt)
            }
        }),
{
    let c0 = text[0];
    let from: usize = if c0 == '-' || c0 == '+' {
        1
    } else {
        0
    };
    let positive = c0 != '-';
    proof {
        if from == 0 {
            assert(text@.skip(0) =~= text@);
        }
        lemma_radix_val_nonneg(sans_underscores(text@.skip(from as int)), 10);
    }
    match accum_radix(text, from, positive, 10) {
        Some(v) => Ok(v),
        None => Err(Error::NonParseableInt),
    }
}

/// Ten to the `n`.
pub open spec fn pow10(n: nat) -> int
    decreases n,
{
    if n == 0 {
        1
    } else {
        10 * pow10((n - 1) as nat)
    }
}

/// Length of a float literal text's sign, if it carries one.
pub open spec fn f_sign_len(t: Seq<char>) -> int {
    if t.len() > 0 && (t[0] == '-' || t[0] == '+') {
        1
    } else {
        0
    }
}

/// Where the integer digits of a float literal text end.
pub open spec fn f_int_end(t: Seq<char>) -> int {
    scan_end(t, f_sign_len(t), Class::Dec)
}

/// Where the fraction digits end (equal to the integer end when no point
/// follows it).
pub open spec fn f_frac_end(t: Seq<char>) -> int {
    let ie = f_int_end(t);
    if ie < t.len() && t[ie] == '.' {
        scan_end(t, ie + 1, Class::Dec)
    } else {
        ie
    }
}

/// The significand digits of a float literal text: the integer digits
/// with the fraction digits appended, the point dropped.
pub open spec fn float_sig_digits(t: Seq<char>) -> Seq<char> {
    let ie = f_int_end(t);
    if ie < t.len() && t[ie] == '.' {
        t.subrange(f_sign_len(t), ie) + t.subrange(ie + 1, f_frac_end(t))
    } else {
        t.subrange(f_sign_len(t), ie)
    }
}

/// The signed significand of a float literal text.
pub open spec fn float_sig(t: Seq<char>) -> int {
    if t.len() > 0 && t[0] == '-' {
        -radix_val(float_sig_digits(t), 10)
    } else {
        radix_val(float_sig_digits(t), 10)
    }
}

/// The decimal exponent of a float literal text: the written exponent
/// lowered by the fraction length, so that the text denotes exactly
/// `float_sig` times ten to the `float_exp`.
pub open spec fn float_exp(t: Seq<char>) -> int {
    let fe = f_frac_end(t);
    let frac_len = fe - (if f_int_end(t) < t.len() && t[f_int_end(t)] == '.' {
        f_int_end(t) + 1
    } else {
        fe
    });
    let written = if fe < t.len() && (t[fe] == 'e' || t[fe] == 'E') {
        let es = if fe + 1 < t.len() && (t[fe + 1] == '-' || t[fe + 1] == '+') {
            fe + 2
        } else {
            fe + 1
        };
        let v = radix_val(t.subrange(es, scan_end(t, es, Class::Dec)), 10);
        if fe + 1 < t.len() && t[fe + 1] == '-' {
            -v
        } else {
            v
        }
    } else {
        0
    };
    written - frac_len
}

/// Two float literal texts denote the same value: their significands
/// scaled by their exponents agree as exact integers (cross-multiplied
/// by the power of ten of the exponent difference).
pub open spec fn float_text_val_eq(t1: Seq<char>, t2: Seq<char>) -> bool {
    if float_exp(t1) >= float_exp(t2) {
        float_sig(t1) * pow10((float_exp(t1) - float_exp(t2)) as nat) == float_sig(t2)
    } else {
        float_sig(t2) * pow10((float_exp(t2) - float_exp(t1)) as nat) == float_sig(t1)
    }
}

/// Fraction and exponent compose: a literal with a fraction and a
/// negative exponent denotes the same value as the plain decimal it
/// abbreviates, and one with a positive exponent denotes the same value
/// as the decimal written out in full.
pub proof fn lemma_float_composition_examples()
    ensures
        float_text_val_eq(
            seq!['1', '2', '3', '4', '.', '5', '6', 'e', '-', '2'],
            seq!['1', '2', '.', '3', '4', '5', '6'],
        ),
        float_text_val_eq(
            seq!['1', '2', '3', '4', 'e', '+', '2'],
            seq!['1', '2', '3', '4', '0', '0', '.', '0'],
        ),
{
    reveal_with_fuel(scan_end, 12);
    reveal_with_fuel(radix_val, 9);
    reveal_with_fuel(pow10, 5);
    let t1 = seq!['1', '2', '3', '4', '.', '5', '6', 'e', '-', '2'];
    let t2 = seq!['1', '2', '.', '3', '4', '5', '6'];
    assert(f_int_end(t1) == 4);
    assert(f_frac_end(t1) == 7);
    assert(float_sig_digits(t1) =~= seq!['1', '2', '3', '4', '5', '6']);
    assert(float_sig(t1) == 123456);
    assert(float_exp(t1) == -4);
    assert(f_int_end(t2) == 2);
    assert(f_frac_end(t2) == 7);
    assert(float_sig_digits(t2) =~= seq!['1', '2', '3', '4', '5', '6']);
    assert(float_sig(t2) == 123456);
    assert(float_exp(t2) == -4);
    let t3 = seq!['1', '2', '3', '4', 'e', '+', '2'];
    let t4 = seq!['1', '2', '3', '4', '0', '0', '.', '0'];
    assert(f_int_end(t3) == 4);
    assert(f_frac_end(t3) == 4);
    assert(float_sig_digits(t3) =~= seq!['1', '2', '3', '4']);
    assert(float_sig(t3) == 1234);
    assert(float_exp(t3) == 2);
    assert(f_int_end(t4) == 6);
    assert(f_frac_end(t4) == 8);
    assert(float_sig_digits(t4) =~= seq!['1', '2', '3', '4', '0', '0', '0']);
    assert(float_sig(t4) == 1234000);
    assert(float_exp(t4) == -1);
    assert(pow10(3) == 1000);
}

} // verus!
