use vstd::prelude::*;
use crate::failure::{Expected, FailureKind, ParseFailure, fail, make_fail, pos_result};
use crate::lexer::{
    char_at, digits_end, has_char_at, is_digit, kw_float, kw_float_chars, kw_int, kw_int_chars,
    lemma_digits_end, lift, match_word, scan_digits_end, word_at,
};

verus! {

/// Upper bound of the magnitude of an `i32`: 2^31.
pub const MAGNITUDE_LIMIT: u64 = 2147483648;

/// The end of an optional `+` or `-` at `i`.
pub open spec fn sign_end(s: Seq<char>, i: int) -> int {
    if char_at(s, i, '+') || char_at(s, i, '-') {
        i + 1
    } else {
        i
    }
}

/// The end of an optional exponent at `i`: `e` or `E`, an optional sign, one or
/// more digits. Without digits there is no exponent.
pub open spec fn exponent_end(s: Seq<char>, i: int) -> int {
    if char_at(s, i, 'e') || char_at(s, i, 'E') {
        if digits_end(s, sign_end(s, i + 1)) > sign_end(s, i + 1) {
            digits_end(s, sign_end(s, i + 1))
        } else {
            i
        }
    } else {
        i
    }
}

/// The end of an optional type suffix `w` at `i`.
pub open spec fn suffix_end(s: Seq<char>, i: int, w: Seq<char>) -> int {
    if word_at(s, i, w) {
        i + w.len()
    } else {
        i
    }
}

/// The value of a run of decimal digits.
pub open spec fn digits_value(t: Seq<char>) -> nat
    decreases t.len(),
{
    if t.len() == 0 {
        0
    } else {
        digits_value(t.drop_last()) * 10 + (t.last() as nat - '0' as nat) as nat
    }
}

pub open spec fn pow10(e: nat) -> nat
    decreases e,
{
    if e == 0 {
        1
    } else {
        10 * pow10((e - 1) as nat)
    }
}

// ---------------------------------------------------------------- integers

/// The span of an integer literal: optional sign, one or more digits, optional
/// exponent, optional `i32` suffix. The result is the end of the span.
pub open spec fn int_span(s: Seq<char>, pos: int) -> Result<int, ParseFailure> {
    let m = sign_end(s, pos);
    let d = digits_end(s, m);
    if d == m {
        Err(fail(m, FailureKind::Lexical, Expected::Digit))
    } else {
        Ok(suffix_end(s, exponent_end(s, d), kw_int()))
    }
}

/// The mantissa of the integer literal at `pos`.
pub open spec fn int_mantissa(s: Seq<char>, pos: int) -> nat {
    digits_value(s.subrange(sign_end(s, pos), digits_end(s, sign_end(s, pos))))
}

/// Whether the integer literal at `pos` has an exponent.
pub open spec fn int_has_exponent(s: Seq<char>, pos: int) -> bool {
    exponent_end(s, digits_end(s, sign_end(s, pos))) != digits_end(s, sign_end(s, pos))
}

/// Whether the exponent of the integer literal at `pos` is negative.
pub open spec fn int_exponent_negative(s: Seq<char>, pos: int) -> bool {
    int_has_exponent(s, pos) && char_at(s, digits_end(s, sign_end(s, pos)) + 1, '-')
}

/// The magnitude of the exponent of the integer literal at `pos` (0 without one).
pub open spec fn int_exponent(s: Seq<char>, pos: int) -> nat {
    let d = digits_end(s, sign_end(s, pos));
    if int_has_exponent(s, pos) {
        digits_value(s.subrange(sign_end(s, d + 1), exponent_end(s, d)))
    } else {
        0
    }
}

/// The magnitude of the value of the integer literal at `pos`: the mantissa times
/// ten to the exponent, or divided by ten to the negated exponent where that
/// division is exact. An inexact division denotes no integer.
pub open spec fn int_magnitude(s: Seq<char>, pos: int) -> Option<nat> {
    let p = pow10(int_exponent(s, pos));
    if !int_exponent_negative(s, pos) {
        Some(int_mantissa(s, pos) * p)
    } else if int_mantissa(s, pos) % p == 0 {
        Some(int_mantissa(s, pos) / p)
    } else {
        None
    }
}

/// The value that the integer literal at `pos` denotes, by decimal arithmetic
/// with its sign and exponent, where that value is an integer.
pub open spec fn int_value(s: Seq<char>, pos: int) -> Option<int> {
    match int_magnitude(s, pos) {
        Some(magnitude) => if char_at(s, pos, '-') {
            Some(-magnitude)
        } else {
            Some(magnitude as int)
        },
        None => None,
    }
}

/// An integer literal converted to `i32`: a lexical failure where no digit
/// stands, a numeric-conversion failure where the value is no `i32`.
pub open spec fn spec_int(s: Seq<char>, pos: int) -> Result<(i32, int), ParseFailure> {
    match int_span(s, pos) {
        Err(e) => Err(e),
        Ok(end) => match int_value(s, pos) {
            Some(v) => if i32::MIN <= v <= i32::MAX {
                Ok((v as i32, end))
            } else {
                Err(fail(pos, FailureKind::NumericConversion, Expected::I32))
            },
            None => Err(fail(pos, FailureKind::NumericConversion, Expected::I32)),
        },
    }
}

pub fn scan_sign_end(s: &Vec<char>, i: usize) -> (r: usize)
    requires
        i <= s.len(),
    ensures
        r == sign_end(s@, i as int),
        i <= r <= s.len(),
{
    if has_char_at(s, i, '+') || has_char_at(s, i, '-') {
        i + 1
    } else {
        i
    }
}

pub fn scan_exponent_end(s: &Vec<char>, i: usize) -> (r: usize)
    requires
        i <= s.len(),
    ensures
        r == exponent_end(s@, i as int),
        i <= r <= s.len(),
{
    if has_char_at(s, i, 'e') || has_char_at(s, i, 'E') {
        let m = scan_sign_end(s, i + 1);
        let d = scan_digits_end(s, m);
        proof {
            lemma_digits_end(s@, m as int);
        }
        if d > m {
            d
        } else {
            i
        }
    } else {
        i
    }
}

pub fn scan_suffix_end(s: &Vec<char>, i: usize, w: &Vec<char>) -> (r: usize)
    requires
        i <= s.len(),
    ensures
        r == suffix_end(s@, i as int, w@),
        i <= r <= s.len(),
{
    if match_word(s, i, w) {
        i + w.len()
    } else {
        i
    }
}

pub fn scan_int_span(s: &Vec<char>, pos: usize) -> (r: Result<usize, ParseFailure>)
    requires
        pos <= s.len(),
    ensures
        pos_result(r) == int_span(s@, pos as int),
        r is Ok ==> pos < r->Ok_0 <= s.len(),
{
    let m = scan_sign_end(s, pos);
    let d = scan_digits_end(s, m);
    proof {
        lemma_digits_end(s@, m as int);
    }
    if d == m {
        Err(make_fail(m, FailureKind::Lexical, Expected::Digit))
    } else {
        let x = scan_exponent_end(s, d);
        Ok(scan_suffix_end(s, x, &kw_int_chars()))
    }
}

proof fn lemma_digits_value_push(s: Seq<char>, from: int, i: int)
    requires
        0 <= from <= i < s.len(),
    ensures
        digits_value(s.subrange(from, i + 1)) == digits_value(s.subrange(from, i)) * 10 + (
        s[i] as nat - '0' as nat) as nat,
{
    assert(s.subrange(from, i + 1).drop_last() =~= s.subrange(from, i));
}

/// The value of the digits in `from..to`, exact while it is at most `cap` and
/// above `cap` otherwise.
fn capped_digits_value(s: &Vec<char>, from: usize, to: usize, cap: u128) -> (v: u128)
    requires
        from <= to <= s.len(),
        forall|k: int| from <= k < to ==> is_digit(#[trigger] s@[k]),
        cap <= u64::MAX,
    ensures
        digits_value(s@.subrange(from as int, to as int)) <= cap ==> v == digits_value(
            s@.subrange(from as int, to as int),
        ),
        digits_value(s@.subrange(from as int, to as int)) > cap ==> v > cap,
        v <= cap * 10 + 9,
{
    let mut v: u128 = 0;
    let mut i = from;
    assert(s@.subrange(from as int, from as int) =~= Seq::<char>::empty());
    while i < to
        invariant
            from <= i <= to <= s.len(),
            forall|k: int| from <= k < to ==> is_digit(#[trigger] s@[k]),
            cap <= u64::MAX,
            digits_value(s@.subrange(from as int, i as int)) <= cap ==> v == digits_value(
                s@.subrange(from as int, i as int),
            ),
            digits_value(s@.subrange(from as int, i as int)) > cap ==> v > cap,
            v <= cap * 10 + 9,
        decreases to - i,
    {
        proof {
            lemma_digits_value_push(s@, from as int, i as int);
            assert(is_digit(s@[i as int]));
        }
        if v <= cap {
            let d = (s[i] as u32 - '0' as u32) as u128;
            v = v * 10 + d;
        }
        i = i + 1;
    }
    v
}

proof fn lemma_pow10_grows(e: nat)
    requires
        e >= 10,
    ensures
        pow10(e) >= 10000000000,
    decreases e,
{
    if e == 10 {
        reveal_with_fuel(pow10, 11);
    } else {
        lemma_pow10_grows((e - 1) as nat);
    }
}

proof fn lemma_digits_split(t: Seq<char>, j: int)
    requires
        0 <= j <= t.len(),
    ensures
        digits_value(t) == digits_value(t.subrange(0, j)) * pow10((t.len() - j) as nat)
            + digits_value(t.subrange(j, t.len() as int)),
    decreases t.len(),
{
    if j == t.len() {
        assert(t.subrange(0, j) =~= t);
        assert(t.subrange(j, t.len() as int).len() == 0);
        assert(digits_value(t) * pow10(0) == digits_value(t)) by (nonlinear_arith)
            requires
                pow10(0) == 1,
        ;
    } else {
        let u = t.drop_last();
        lemma_digits_split(u, j);
        assert(u.subrange(0, j) =~= t.subrange(0, j));
        assert(t.subrange(j, t.len() as int).drop_last() =~= u.subrange(j, u.len() as int));
        assert(t.subrange(j, t.len() as int).last() == t.last());
        let h = digits_value(t.subrange(0, j));
        let p = pow10((u.len() - j) as nat);
        let lo = digits_value(u.subrange(j, u.len() as int));
        assert(pow10((t.len() - j) as nat) == 10 * p);
        assert((h * p + lo) * 10 == h * (10 * p) + lo * 10) by (nonlinear_arith);
    }
}

proof fn lemma_digits_below_pow(t: Seq<char>)
    requires
        forall|k: int| 0 <= k < t.len() ==> is_digit(#[trigger] t[k]),
    ensures
        digits_value(t) < pow10(t.len()),
    decreases t.len(),
{
    if t.len() > 0 {
        let u = t.drop_last();
        assert forall|k: int| 0 <= k < u.len() implies is_digit(#[trigger] u[k]) by {
            assert(u[k] == t[k]);
        }
        lemma_digits_below_pow(u);
        assert(is_digit(t[t.len() - 1]));
        assert(pow10(t.len()) == 10 * pow10(u.len()));
    }
}

proof fn lemma_digits_zero(t: Seq<char>)
    requires
        forall|k: int| 0 <= k < t.len() ==> is_digit(#[trigger] t[k]),
    ensures
        (forall|k: int| 0 <= k < t.len() ==> #[trigger] t[k] == '0') <==> digits_value(t) == 0,
    decreases t.len(),
{
    if t.len() > 0 {
        let u = t.drop_last();
        assert forall|k: int| 0 <= k < u.len() implies is_digit(#[trigger] u[k]) by {
            assert(u[k] == t[k]);
        }
        lemma_digits_zero(u);
        assert(is_digit(t[t.len() - 1]));
        if forall|k: int| 0 <= k < t.len() ==> #[trigger] t[k] == '0' {
            assert forall|k: int| 0 <= k < u.len() implies #[trigger] u[k] == '0' by {
                assert(u[k] == t[k]);
            }
            assert(t.last() == t[t.len() - 1]);
        }
        if digits_value(t) == 0 {
            assert(digits_value(u) == 0);
            assert forall|k: int| 0 <= k < t.len() implies #[trigger] t[k] == '0' by {
                if k < u.len() {
                    assert(u[k] == t[k]);
                }
            }
        }
    }
}

proof fn lemma_pow10_mono(a: nat, b: nat)
    requires
        a <= b,
    ensures
        1 <= pow10(a) <= pow10(b),
    decreases b,
{
    if a < b {
        lemma_pow10_mono(a, (b - 1) as nat);
    } else if b > 0 {
        lemma_pow10_mono(0, (b - 1) as nat);
    }
}

/// The `Result` for a magnitude `big`, known through `v` (exact while at most the
/// limit, above it otherwise), with the literal's sign.
fn signed_i32(v: u128, Ghost(big): Ghost<nat>, negative: bool, pos: usize, end: usize) -> (r: Result<
    (i32, usize),
    ParseFailure,
>)
    requires
        big <= MAGNITUDE_LIMIT ==> v == big,
        big > MAGNITUDE_LIMIT ==> v > MAGNITUDE_LIMIT,
    ensures
        ({
            let value = if negative {
                -big
            } else {
                big as int
            };
            if i32::MIN <= value <= i32::MAX {
                r == Ok::<(i32, usize), ParseFailure>((value as i32, end))
            } else {
                r == Err::<(i32, usize), ParseFailure>(
                    fail(pos as int, FailureKind::NumericConversion, Expected::I32),
                )
            }
        }),
{
    let overflow = make_fail(pos, FailureKind::NumericConversion, Expected::I32);
    if negative {
        if v > MAGNITUDE_LIMIT as u128 {
            Err(overflow)
        } else if v == MAGNITUDE_LIMIT as u128 {
            Ok((i32::MIN, end))
        } else {
            Ok((-(v as i32), end))
        }
    } else {
        if v >= MAGNITUDE_LIMIT as u128 {
            Err(overflow)
        } else {
            Ok((v as i32, end))
        }
    }
}

/// Converts an integer literal with a negative exponent: `m..d` are the mantissa's
/// digits and `es..x` the exponent's.
fn negative_exponent_value(
    s: &Vec<char>,
    pos: usize,
    m: usize,
    d: usize,
    es: usize,
    x: usize,
    end: usize,
) -> (r: Result<(i32, usize), ParseFailure>)
    requires
        pos <= m <= d <= es <= x <= s.len(),
        forall|k: int| m <= k < d ==> is_digit(#[trigger] s@[k]),
        forall|k: int| es <= k < x ==> is_digit(#[trigger] s@[k]),
    ensures
        ({
            let big_m = digits_value(s@.subrange(m as int, d as int));
            let p = pow10(digits_value(s@.subrange(es as int, x as int)));
            let negative = char_at(s@, pos as int, '-');
            if big_m % p == 0 {
                let value = if negative {
                    -(big_m / p)
                } else {
                    (big_m / p) as int
                };
                if i32::MIN <= value <= i32::MAX {
                    r == Ok::<(i32, usize), ParseFailure>((value as i32, end))
                } else {
                    r == Err::<(i32, usize), ParseFailure>(
                        fail(pos as int, FailureKind::NumericConversion, Expected::I32),
                    )
                }
            } else {
                r == Err::<(i32, usize), ParseFailure>(
                    fail(pos as int, FailureKind::NumericConversion, Expected::I32),
                )
            }
        }),
{
    let ghost t = s@.subrange(m as int, d as int);
    let ghost big_m = digits_value(t);
    let ghost big_k = digits_value(s@.subrange(es as int, x as int));
    let ghost p = pow10(big_k);
    let negative = has_char_at(s, pos, '-');
    let len = d - m;
    proof {
        lemma_pow10_mono(0, big_k);
        assert forall|k: int| 0 <= k < t.len() implies is_digit(#[trigger] t[k]) by {
            assert(t[k] == s@[m + k]);
        }
        lemma_digits_below_pow(t);
    }
    let k = capped_digits_value(s, es, x, len as u128);
    if k > len as u128 {
        // more digits are divided off than the mantissa has
        let mant = capped_digits_value(s, m, d, MAGNITUDE_LIMIT as u128);
        proof {
            assert(big_k > t.len());
            lemma_pow10_mono(t.len(), big_k);
            assert(big_m < p);
            assert(big_m == 0 * p + big_m);
            vstd::arithmetic::div_mod::lemma_fundamental_div_mod_converse(
                big_m as int,
                p as int,
                0,
                big_m as int,
            );
        }
        if mant == 0 {
            return Ok((0, end));
        }
        assert(big_m != 0);
        assert(big_m % p != 0);
        return Err(make_fail(pos, FailureKind::NumericConversion, Expected::I32));
    }
    let kk = k as usize;
    let cut = d - kk;
    let ghost hi = digits_value(s@.subrange(m as int, cut as int));
    let ghost tail = s@.subrange(cut as int, d as int);
    let ghost lo = digits_value(tail);
    proof {
        lemma_digits_split(t, cut - m);
        assert(t.subrange(0, cut - m) =~= s@.subrange(m as int, cut as int));
        assert(t.subrange(cut - m, t.len() as int) =~= tail);
        assert forall|i: int| 0 <= i < tail.len() implies is_digit(#[trigger] tail[i]) by {
            assert(tail[i] == s@[cut + i]);
        }
        lemma_digits_below_pow(tail);
        lemma_digits_zero(tail);
        assert(tail.len() == big_k);
        vstd::arithmetic::div_mod::lemma_fundamental_div_mod_converse(
            big_m as int,
            p as int,
            hi as int,
            lo as int,
        );
    }
    let mut j = cut;
    while j < d
        invariant
            cut <= j <= d <= s.len(),
            tail == s@.subrange(cut as int, d as int),
            forall|i: int| cut <= i < j ==> s@[i] == '0',
            big_m == digits_value(s@.subrange(m as int, d as int)),
            p == pow10(digits_value(s@.subrange(es as int, x as int))),
            lo == digits_value(tail),
            big_m % p == lo,
            (forall|i: int| 0 <= i < tail.len() ==> #[trigger] tail[i] == '0') <==> lo == 0,
        decreases d - j,
    {
        if s[j] != '0' {
            proof {
                assert(tail[j - cut] == s@[j as int]);
                assert(lo != 0);
            }
            return Err(make_fail(pos, FailureKind::NumericConversion, Expected::I32));
        }
        j = j + 1;
    }
    proof {
        assert forall|i: int| 0 <= i < tail.len() implies #[trigger] tail[i] == '0' by {
            assert(tail[i] == s@[cut + i]);
        }
    }
    let v = capped_digits_value(s, m, cut, MAGNITUDE_LIMIT as u128);
    signed_i32(v, Ghost(hi), negative, pos, end)
}

/// Scans and converts the integer literal at `pos`.
pub fn scan_int(s: &Vec<char>, pos: usize) -> (r: Result<(i32, usize), ParseFailure>)
    requires
        pos <= s.len(),
    ensures
        lift(r) == spec_int(s@, pos as int),
        r is Ok ==> pos < r->Ok_0.1 <= s.len(),
{
    let end = match scan_int_span(s, pos) {
        Err(e) => return Err(e),
        Ok(end) => end,
    };
    let m = scan_sign_end(s, pos);
    let d = scan_digits_end(s, m);
    let x = scan_exponent_end(s, d);
    let overflow = make_fail(pos, FailureKind::NumericConversion, Expected::I32);
    proof {
        lemma_digits_end(s@, m as int);
    }
    let ghost big_m = int_mantissa(s@, pos as int);
    let mut exp: u128 = 0;
    if x != d {
        let es = scan_sign_end(s, d + 1);
        proof {
            lemma_digits_end(s@, es as int);
        }
        if has_char_at(s, d + 1, '-') {
            return negative_exponent_value(s, pos, m, d, es, x, end);
        }
        exp = capped_digits_value(s, es, x, 9);
    }
    let mant = capped_digits_value(s, m, d, MAGNITUDE_LIMIT as u128);
    let ghost big_e = int_exponent(s@, pos as int);
    assert(big_e <= 9 ==> exp == big_e);
    assert(big_e > 9 ==> exp > 9);
    let negative = has_char_at(s, pos, '-');
    if mant == 0 {
        assert(big_m == 0);
        assert(big_m * pow10(big_e) == 0) by (nonlinear_arith)
            requires
                big_m == 0,
        ;
        return Ok((0, end));
    }
    if exp > 9 {
        proof {
            lemma_pow10_grows(big_e);
            assert(big_m * pow10(big_e) >= pow10(big_e)) by (nonlinear_arith)
                requires
                    big_m >= 1,
            ;
        }
        return Err(overflow);
    }
    let mut v: u128 = mant;
    let mut k: u128 = 0;
    assert(pow10(0) == 1);
    assert(big_m * pow10(0) == big_m);
    while k < exp
        invariant
            k <= exp <= 9,
            exp == big_e,
            big_m * pow10(k as nat) <= MAGNITUDE_LIMIT ==> v == big_m * pow10(k as nat),
            big_m * pow10(k as nat) > MAGNITUDE_LIMIT ==> v > MAGNITUDE_LIMIT,
            v <= MAGNITUDE_LIMIT * 10 + 9,
        decreases exp - k,
    {
        proof {
            assert(pow10((k + 1) as nat) == 10 * pow10(k as nat));
            assert(big_m * pow10((k + 1) as nat) == big_m * pow10(k as nat) * 10)
                by (nonlinear_arith)
                requires
                    pow10((k + 1) as nat) == 10 * pow10(k as nat),
            ;
            assert(big_m * pow10(k as nat) <= big_m * pow10((k + 1) as nat)) by (nonlinear_arith)
                requires
                    big_m * pow10((k + 1) as nat) == big_m * pow10(k as nat) * 10,
            ;
        }
        if v <= MAGNITUDE_LIMIT as u128 {
            v = v * 10;
        }
        k = k + 1;
    }
    signed_i32(v, Ghost((big_m * pow10(big_e)) as nat), negative, pos, end)
}

// ---------------------------------------------------------------- floats

/// The span of a float literal: optional sign, digits with a decimal point and
/// digits on at least one side of it, optional exponent, optional float type suffix.
pub open spec fn float_span(s: Seq<char>, pos: int) -> Result<int, ParseFailure> {
    let m = sign_end(s, pos);
    let a = digits_end(s, m);
    if !char_at(s, a, '.') {
        Err(fail(a, FailureKind::Lexical, Expected::DecimalPoint))
    } else if a == m && digits_end(s, a + 1) == a + 1 {
        Err(fail(a + 1, FailureKind::Lexical, Expected::Digit))
    } else {
        Ok(suffix_end(s, exponent_end(s, digits_end(s, a + 1)), kw_float()))
    }
}

pub fn scan_float_span(s: &Vec<char>, pos: usize) -> (r: Result<usize, ParseFailure>)
    requires
        pos <= s.len(),
    ensures
        pos_result(r) == float_span(s@, pos as int),
        r is Ok ==> pos < r->Ok_0 <= s.len(),
{
    let m = scan_sign_end(s, pos);
    let a = scan_digits_end(s, m);
    proof {
        lemma_digits_end(s@, m as int);
    }
    if !has_char_at(s, a, '.') {
        return Err(make_fail(a, FailureKind::Lexical, Expected::DecimalPoint));
    }
    let b = scan_digits_end(s, a + 1);
    proof {
        lemma_digits_end(s@, a + 1);
    }
    if a == m && b == a + 1 {
        Err(make_fail(a + 1, FailureKind::Lexical, Expected::Digit))
    } else {
        let x = scan_exponent_end(s, b);
        Ok(scan_suffix_end(s, x, &kw_float_chars()))
    }
}

/// A float literal always holds a decimal point: the span that the float scanner
/// accepts has one, after the sign and the digits before it.
pub proof fn lemma_float_has_point(s: Seq<char>, pos: int)
    requires
        0 <= pos <= s.len(),
        float_span(s, pos) is Ok,
    ensures
        pos <= digits_end(s, sign_end(s, pos)) < float_span(s, pos)->Ok_0,
        s[digits_end(s, sign_end(s, pos))] == '.',
{
    let m = sign_end(s, pos);
    lemma_digits_end(s, m);
    let a = digits_end(s, m);
    lemma_digits_end(s, a + 1);
    let b = digits_end(s, a + 1);
    if char_at(s, b, 'e') || char_at(s, b, 'E') {
        lemma_digits_end(s, sign_end(s, b + 1));
    }
}

/// A bare run of digits, with no decimal point, is never a float literal.
pub proof fn lemma_digits_not_float(s: Seq<char>, pos: int)
    requires
        0 <= pos <= s.len(),
        forall|k: int| pos <= k < s.len() ==> is_digit(#[trigger] s[k]),
    ensures
        float_span(s, pos) is Err,
{
    lemma_digits_end(s, pos);
    if float_span(s, pos) is Ok {
        lemma_float_has_point(s, pos);
    }
}

proof fn lemma_exponent_end(s: Seq<char>, i: int)
    requires
        0 <= i <= s.len(),
    ensures
        i <= exponent_end(s, i) <= s.len(),
{
    if char_at(s, i, 'e') || char_at(s, i, 'E') {
        lemma_digits_end(s, sign_end(s, i + 1));
    }
}

pub proof fn lemma_int_span_bounds(s: Seq<char>, pos: int)
    requires
        0 <= pos <= s.len(),
    ensures
        int_span(s, pos) is Ok ==> pos < int_span(s, pos)->Ok_0 <= s.len(),
{
    let m = sign_end(s, pos);
    lemma_digits_end(s, m);
    let d = digits_end(s, m);
    lemma_exponent_end(s, d);
}

pub proof fn lemma_float_span_bounds(s: Seq<char>, pos: int)
    requires
        0 <= pos <= s.len(),
    ensures
        float_span(s, pos) is Ok ==> pos < float_span(s, pos)->Ok_0 <= s.len(),
{
    let m = sign_end(s, pos);
    lemma_digits_end(s, m);
    let a = digits_end(s, m);
    if char_at(s, a, '.') {
        lemma_digits_end(s, a + 1);
        lemma_exponent_end(s, digits_end(s, a + 1));
    }
}

} // verus!
