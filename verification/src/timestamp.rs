//! Lyric timestamps: `minutes:seconds`, read as whole milliseconds.
//!
//! Each of the two fields is a non-negative number in decimal or scientific
//! writing: digits with at most one point among them, an optional sign in
//! front and an optional exponent of ten behind (`12`, `1.5`, `.5`, `+7`,
//! `2e3`, `25E-1`). A minus sign is taken only in front of zero. `inf` and
//! `infinity`, in any case of letters, stand for a time beyond every other.
//! The time is minutes times sixty plus seconds, in milliseconds, rounded to
//! the nearest with halves going up, and held at `MAX_MILLIS`. It is exact
//! for digits and exponents of any length.

use crate::text::{char_to_lower, find, find_in, lowered, to_chars};
use vstd::arithmetic::div_mod::{
    lemma_fundamental_div_mod, lemma_fundamental_div_mod_converse, lemma_mod_bound,
};
use vstd::prelude::*;

verus! {

/// The largest timestamp, in milliseconds. Larger ones are held at this value.
pub const MAX_MILLIS: u64 = 0x7FFF_FFFF_FFFF_FFFF;

/// The size up to which an exponent is counted out, 2^70. Beyond it a number
/// is zero, or beyond every time, or too small to count; which of them is
/// proved where the exponent is read.
const EXPONENT_LIMIT: u128 = 0x40_0000_0000_0000_0000;

/// A fractional part that begins with at least this many zeros, 2^69, adds
/// nothing to a time.
const DEEP: u128 = 0x20_0000_0000_0000_0000;

/// Whether `c` is one of `0` to `9`.
pub open spec fn is_digit(c: char) -> bool {
    0x30 <= c as u32 <= 0x39
}

/// The number that the digit `c` stands for.
pub open spec fn digit_value(c: char) -> nat {
    (c as u32 - 0x30) as nat
}

/// Whether `s` holds digits only. The empty sequence does.
pub open spec fn all_digits(s: Seq<char>) -> bool {
    forall|i: int| 0 <= i < s.len() ==> is_digit(#[trigger] s[i])
}

/// Whether `s` holds the digit `0` only.
pub open spec fn is_zero(s: Seq<char>) -> bool {
    forall|i: int| 0 <= i < s.len() ==> #[trigger] s[i] == '0'
}

/// The number that the digits of `s` write in base ten; 0 for the empty sequence.
pub open spec fn digits_value(s: Seq<char>) -> nat
    decreases s.len(),
{
    if s.len() == 0 {
        0
    } else {
        digits_value(s.drop_last()) * 10 + digit_value(s.last())
    }
}

/// `n`, held at `cap`.
pub open spec fn capped(n: nat, cap: nat) -> nat {
    if n > cap {
        cap
    } else {
        n
    }
}

/// `n`, held at `MAX_MILLIS`.
pub open spec fn saturated(n: nat) -> nat {
    capped(n, MAX_MILLIS as nat)
}

/// A whole number: one or more digits.
pub open spec fn is_whole_number(s: Seq<char>) -> bool {
    s.len() > 0 && all_digits(s)
}

/// The digits of `s` before its first point.
pub open spec fn whole_part(s: Seq<char>) -> Seq<char> {
    s.take(find(s, '.') as int)
}

/// The digits of `s` after its first point; empty where it has no point.
pub open spec fn fraction_part(s: Seq<char>) -> Seq<char> {
    if find(s, '.') < s.len() {
        s.skip(find(s, '.') + 1 as int)
    } else {
        Seq::empty()
    }
}

/// A decimal number: digits with at most one point among them, and at least one digit.
pub open spec fn is_decimal(s: Seq<char>) -> bool {
    &&& all_digits(whole_part(s))
    &&& all_digits(fraction_part(s))
    &&& whole_part(s).len() + fraction_part(s).len() > 0
}

/// Whether `s` begins with a sign.
pub open spec fn has_sign(s: Seq<char>) -> bool {
    s.len() > 0 && (s[0] == '+' || s[0] == '-')
}

/// Whether `s` begins with a minus sign.
pub open spec fn is_negative(s: Seq<char>) -> bool {
    s.len() > 0 && s[0] == '-'
}

/// `s` without the sign in front of it, if it has one.
pub open spec fn unsigned(s: Seq<char>) -> Seq<char> {
    if has_sign(s) {
        s.skip(1)
    } else {
        s
    }
}

/// Where the exponent of `body` is marked: at its first `e` or `E`; the
/// length of `body` where it has neither.
pub open spec fn exponent_mark(body: Seq<char>) -> nat {
    if find(body, 'e') <= find(body, 'E') {
        find(body, 'e')
    } else {
        find(body, 'E')
    }
}

/// Whether `body` has an exponent.
pub open spec fn has_exponent(body: Seq<char>) -> bool {
    exponent_mark(body) < body.len()
}

/// What stands in front of the exponent mark: the decimal number that the
/// power of ten multiplies.
pub open spec fn mantissa(body: Seq<char>) -> Seq<char> {
    body.take(exponent_mark(body) as int)
}

/// What stands behind the exponent mark.
pub open spec fn exponent_text(body: Seq<char>) -> Seq<char> {
    body.skip(exponent_mark(body) + 1 as int)
}

/// The whole number, with or without a sign, that `text` writes.
pub open spec fn signed_value(text: Seq<char>) -> int {
    if is_negative(text) {
        -(digits_value(unsigned(text)) as int)
    } else {
        digits_value(unsigned(text)) as int
    }
}

/// The exponent of `body`; 0 where it has none.
pub open spec fn exponent_value(body: Seq<char>) -> int {
    if has_exponent(body) {
        signed_value(exponent_text(body))
    } else {
        0
    }
}

/// A number in decimal or scientific writing, without a sign: a decimal
/// number, and behind it, if anything, an exponent mark and a whole number
/// with or without a sign.
pub open spec fn is_scientific(body: Seq<char>) -> bool {
    &&& is_decimal(mantissa(body))
    &&& has_exponent(body) ==> is_whole_number(unsigned(exponent_text(body)))
}

/// One of the words for infinity, in any case of letters.
pub open spec fn is_infinity(body: Seq<char>) -> bool {
    lowered(body) == "inf"@ || lowered(body) == "infinity"@
}

/// The digits of a number, those before the point and those after it.
pub open spec fn digits_of(body: Seq<char>) -> Seq<char> {
    whole_part(mantissa(body)) + fraction_part(mantissa(body))
}

/// How many of the digits of a number stand before the point once the
/// exponent has moved it; negative or beyond their count where zeros have
/// to be filled in.
pub open spec fn point_of(body: Seq<char>) -> int {
    whole_part(mantissa(body)).len() + exponent_value(body)
}

/// `n` zeros.
pub open spec fn zeros(n: nat) -> Seq<char> {
    Seq::new(n, |i: int| '0')
}

/// How many of `len` digits are left of a point at `point`.
pub open spec fn kept_digits(len: nat, point: int) -> nat {
    if point <= 0 {
        0
    } else if point >= len {
        len
    } else {
        point as nat
    }
}

/// The digits before the point, once it stands `point` digits into `digits`.
pub open spec fn shifted_whole(digits: Seq<char>, point: int) -> Seq<char> {
    digits.take(kept_digits(digits.len(), point) as int) + zeros(
        if point > digits.len() {
            (point - digits.len()) as nat
        } else {
            0
        },
    )
}

/// The digits after the point, once it stands `point` digits into `digits`.
pub open spec fn shifted_fraction(digits: Seq<char>, point: int) -> Seq<char> {
    zeros(
        if point < 0 {
            (-point) as nat
        } else {
            0
        },
    ) + digits.skip(kept_digits(digits.len(), point) as int)
}

/// Whether `field` is a non-negative number: a number in decimal or
/// scientific writing with no sign, a plus sign, or a minus sign in front of
/// zero; or infinity without a minus sign.
pub open spec fn is_number(field: Seq<char>) -> bool {
    let body = unsigned(field);
    if is_infinity(body) {
        !is_negative(field)
    } else {
        is_scientific(body) && (is_negative(field) ==> is_zero(digits_of(body)))
    }
}

/// The digits of the number `field` before its point, the exponent applied.
pub open spec fn whole_of(field: Seq<char>) -> Seq<char> {
    shifted_whole(digits_of(unsigned(field)), point_of(unsigned(field)))
}

/// The digits of the number `field` after its point, the exponent applied.
pub open spec fn fraction_of(field: Seq<char>) -> Seq<char> {
    shifted_fraction(digits_of(unsigned(field)), point_of(unsigned(field)))
}

/// The digit at place `i` of a fractional part, 0 beyond its end.
pub open spec fn fraction_digit(frac: Seq<char>, i: int) -> nat {
    if 0 <= i < frac.len() {
        digit_value(frac[i])
    } else {
        0
    }
}

/// The number that the first `n` digits of a fractional part write.
pub open spec fn leading(frac: Seq<char>, n: nat) -> nat
    decreases n,
{
    if n == 0 {
        0
    } else {
        leading(frac, (n - 1) as nat) * 10 + fraction_digit(frac, n - 1)
    }
}

/// What the digits `k` places below the millisecond add to it, in tenths of
/// that place: six times the digit of the minutes and once that of the seconds.
pub open spec fn coefficient(minutes: Seq<char>, seconds: Seq<char>, k: nat) -> nat {
    6 * fraction_digit(minutes, 4 + k as int) + fraction_digit(seconds, 3 + k as int)
}

/// How many places below the millisecond the fractional parts reach.
pub open spec fn span(minutes: Seq<char>, seconds: Seq<char>) -> nat {
    let m = minutes.len() - 4;
    let s = seconds.len() - 3;
    if m >= s && m >= 0 {
        m as nat
    } else if s >= 0 {
        s as nat
    } else {
        0
    }
}

/// Whether the digits from place `k` below the millisecond on come to
/// `theta` units of the place above `k` or more. Read from the left: each
/// place either settles the matter or hands a new threshold to the next.
pub open spec fn reaches(minutes: Seq<char>, seconds: Seq<char>, k: nat, theta: int) -> bool
    decreases span(minutes, seconds) - k,
{
    if theta <= 0 {
        true
    } else if theta >= 7 || k >= span(minutes, seconds) {
        false
    } else {
        reaches(minutes, seconds, k + 1, 10 * theta - coefficient(minutes, seconds, k))
    }
}

/// What the digits below the millisecond come to in whole milliseconds,
/// halves going up.
pub open spec fn half_up(minutes: Seq<char>, seconds: Seq<char>) -> nat {
    let first = coefficient(minutes, seconds, 0) + 5;
    first / 10 + if reaches(minutes, seconds, 1, 10 - first % 10) {
        1nat
    } else {
        0nat
    }
}

/// The time in milliseconds of minutes and seconds given by their digits
/// before and after the point: minutes times sixty plus seconds, rounded to
/// the nearest millisecond with halves going up.
pub open spec fn exact_millis(
    minutes_whole: Seq<char>,
    minutes_fraction: Seq<char>,
    seconds_whole: Seq<char>,
    seconds_fraction: Seq<char>,
) -> nat {
    60_000 * digits_value(minutes_whole) + 1000 * digits_value(seconds_whole) + 6 * leading(
        minutes_fraction,
        4,
    ) + leading(seconds_fraction, 3) + half_up(minutes_fraction, seconds_fraction)
}

/// The minutes field of a timestamp: what stands before its first colon.
pub open spec fn minutes_field(stamp: Seq<char>) -> Seq<char> {
    stamp.take(find(stamp, ':') as int)
}

/// The seconds field of a timestamp: what stands between its first colon and
/// the second, or the end where there is no second colon.
pub open spec fn seconds_field(stamp: Seq<char>) -> Seq<char> {
    let rest = stamp.skip(find(stamp, ':') + 1 as int);
    rest.take(find(rest, ':') as int)
}

/// Whether `stamp` is a timestamp: it holds a colon, with a non-negative
/// number before it and one after it. Fields after a second colon are not read.
pub open spec fn is_timestamp(stamp: Seq<char>) -> bool {
    &&& find(stamp, ':') < stamp.len()
    &&& is_number(minutes_field(stamp))
    &&& is_number(seconds_field(stamp))
}

/// The time that `stamp` gives, in milliseconds, or `None` where it is no
/// timestamp. Infinite minutes or seconds give the largest time.
pub open spec fn timestamp_millis(stamp: Seq<char>) -> Option<nat> {
    let minutes = minutes_field(stamp);
    let seconds = seconds_field(stamp);
    if !is_timestamp(stamp) {
        None
    } else if is_infinity(unsigned(minutes)) || is_infinity(unsigned(seconds)) {
        Some(MAX_MILLIS as nat)
    } else {
        Some(
            saturated(
                exact_millis(
                    whole_of(minutes),
                    fraction_of(minutes),
                    whole_of(seconds),
                    fraction_of(seconds),
                ),
            ),
        )
    }
}

/// One more digit at the end: ten times the value, and the digit.
proof fn lemma_digits_value_push(s: Seq<char>, c: char)
    ensures
        digits_value(s.push(c)) == digits_value(s) * 10 + digit_value(c),
{
    assert(s.push(c).drop_last() =~= s);
}

/// Ten to the power of `n`.
pub open spec fn pow10(n: nat) -> nat
    decreases n,
{
    if n == 0 {
        1
    } else {
        10 * pow10((n - 1) as nat)
    }
}

/// `numerator / denominator`, rounded to the nearest whole number, halves going up.
pub open spec fn rounded(numerator: nat, denominator: nat) -> nat {
    (2 * numerator + denominator) / (2 * denominator)
}

/// A quotient is the number whose multiples enclose the dividend.
proof fn lemma_quotient_is(x: int, d: int, q: int)
    requires
        d > 0,
        q * d <= x < q * d + d,
    ensures
        x / d == q,
{
    lemma_fundamental_div_mod_converse(x, d, q, x - q * d);
}

/// Digits written one after another: the first ones count for as many
/// powers of ten as digits follow them.
proof fn lemma_digits_value_concat(a: Seq<char>, b: Seq<char>)
    ensures
        digits_value(a + b) == digits_value(a) * pow10(b.len()) + digits_value(b),
    decreases b.len(),
{
    if b.len() == 0 {
        assert(a + b =~= a);
        assert(digits_value(a) * pow10(b.len()) == digits_value(a)) by (nonlinear_arith)
            requires
                pow10(b.len()) == 1,
        ;
    } else {
        let front = b.drop_last();
        assert((a + b).drop_last() =~= a + front);
        assert((a + b).last() == b.last());
        lemma_digits_value_concat(a, front);
        let x = digits_value(a) as int;
        let p = pow10(front.len()) as int;
        let y = digits_value(front) as int;
        let d = digit_value(b.last()) as int;
        assert(pow10(b.len()) == 10 * p);
        assert(digits_value(a + b) == (x * p + y) * 10 + d);
        assert(digits_value(b) == y * 10 + d);
        assert((x * p + y) * 10 + d == x * (10 * p) + (y * 10 + d)) by (nonlinear_arith);
        assert(digits_value(a) * pow10(b.len()) == x * (10 * p));
    }
}

/// Powers of ten multiply as their exponents add.
proof fn lemma_pow10_sum(m: nat, n: nat)
    ensures
        pow10(m + n) == pow10(m) * pow10(n),
    decreases m,
{
    if m > 0 {
        let below = (m - 1) as nat;
        lemma_pow10_sum(below, n);
        assert(((m + n) - 1) as nat == below + n);
        assert(pow10(m + n) == 10 * pow10(below + n));
        assert(pow10(m) == 10 * pow10(below));
        assert(10 * (pow10(below) * pow10(n)) == (10 * pow10(below)) * pow10(n))
            by (nonlinear_arith);
    } else {
        assert(pow10(m) * pow10(n) == pow10(n)) by (nonlinear_arith)
            requires
                pow10(m) == 1,
        ;
    }
}

/// Powers of ten are positive.
proof fn lemma_pow10_positive(n: nat)
    ensures
        pow10(n) > 0,
    decreases n,
{
    if n > 0 {
        lemma_pow10_positive((n - 1) as nat);
    }
}

/// Zeros write the number 0.
proof fn lemma_zeros_value(n: nat)
    ensures
        digits_value(zeros(n)) == 0,
    decreases n,
{
    if n > 0 {
        assert(zeros(n).drop_last() =~= zeros((n - 1) as nat));
        lemma_zeros_value((n - 1) as nat);
    }
}

/// Zeros behind a number multiply it by a power of ten.
proof fn lemma_digits_value_zeros(s: Seq<char>, n: nat)
    ensures
        digits_value(s + zeros(n)) == digits_value(s) * pow10(n),
{
    lemma_digits_value_concat(s, zeros(n));
    lemma_zeros_value(n);
}

/// Twenty zeros behind any number but 0 lead beyond 64 bits.
proof fn lemma_twenty_zeros(value: nat, n: nat)
    requires
        value >= 1,
        n >= 20,
    ensures
        value * pow10(n) > 0x1_0000_0000_0000_0000,
{
    lemma_pow10_sum(20, (n - 20) as nat);
    lemma_pow10_positive((n - 20) as nat);
    reveal_with_fuel(pow10, 21);
    assert(pow10(20) == 100_000_000_000_000_000_000);
    let rest = pow10((n - 20) as nat);
    assert(value * (100_000_000_000_000_000_000 * rest) >= 100_000_000_000_000_000_000)
        by (nonlinear_arith)
        requires
            value >= 1,
            rest >= 1,
    ;
}

/// Leading zeros do not change what digits write.
proof fn lemma_leading_zeros_value(n: nat, s: Seq<char>)
    ensures
        digits_value(zeros(n) + s) == digits_value(s),
{
    lemma_digits_value_concat(zeros(n), s);
    lemma_zeros_value(n);
    assert(digits_value(zeros(n)) * pow10(s.len()) == 0) by (nonlinear_arith)
        requires
            digits_value(zeros(n)) == 0,
    ;
}

/// Moving the point multiplies by a power of ten and changes no digit: the
/// digits before and after the moved point write, taken together, what
/// `digits` write, times ten for each place that the point went beyond them;
/// and as many digits stand after the point as `digits` reach beyond it.
pub proof fn lemma_shifted_value(digits: Seq<char>, point: int)
    ensures
        digits_value(shifted_whole(digits, point) + shifted_fraction(digits, point))
            == digits_value(digits) * pow10(
            if point > digits.len() {
                (point - digits.len()) as nat
            } else {
                0
            },
        ),
        shifted_fraction(digits, point).len() == if point < digits.len() {
            digits.len() - point
        } else {
            0
        },
{
    let kept = kept_digits(digits.len(), point) as int;
    let whole = shifted_whole(digits, point);
    let frac = shifted_fraction(digits, point);
    if point >= digits.len() {
        let behind = (point - digits.len()) as nat;
        assert(whole + frac =~= digits + zeros(behind));
        lemma_digits_value_zeros(digits, behind);
    } else if point <= 0 {
        let before = (-point) as nat;
        assert(whole + frac =~= zeros(before) + digits);
        lemma_leading_zeros_value(before, digits);
        assert(digits_value(digits) * pow10(0) == digits_value(digits)) by (nonlinear_arith)
            requires
                pow10(0) == 1,
        ;
    } else {
        assert(whole + frac =~= digits);
        assert(digits_value(digits) * pow10(0) == digits_value(digits)) by (nonlinear_arith)
            requires
                pow10(0) == 1,
        ;
    }
}

/// The first digits of a fractional part write what `leading` gives.
proof fn lemma_leading_take(f: Seq<char>, j: nat)
    requires
        j <= f.len(),
    ensures
        leading(f, j) == digits_value(f.take(j as int)),
    decreases j,
{
    if j > 0 {
        lemma_leading_take(f, (j - 1) as nat);
        assert(f.take(j as int).drop_last() =~= f.take(j - 1));
        assert(f.take(j as int).last() == f[j - 1]);
    }
}

/// Read beyond its end, a fractional part counts with zeros filled in.
proof fn lemma_leading_value(f: Seq<char>, n: nat)
    requires
        n >= f.len(),
    ensures
        leading(f, n) == digits_value(f) * pow10((n - f.len()) as nat),
    decreases n,
{
    if n == f.len() {
        lemma_leading_take(f, n);
        assert(f.take(n as int) =~= f);
        assert(digits_value(f) * pow10(0) == digits_value(f)) by (nonlinear_arith)
            requires
                pow10(0) == 1,
        ;
    } else {
        lemma_leading_value(f, (n - 1) as nat);
        let v = digits_value(f) as int;
        let p = pow10((n - 1 - f.len()) as nat) as int;
        assert(pow10((n - f.len()) as nat) == 10 * p);
        assert(v * (10 * p) == (v * p) * 10) by (nonlinear_arith);
    }
}

/// What the digits of `f` from place `offset + k` up to place `offset + n`
/// write.
pub open spec fn below(f: Seq<char>, offset: nat, k: nat, n: nat) -> int {
    leading(f, offset + n) - leading(f, offset + k) * pow10((n - k) as nat)
}

/// What the digits of minutes and seconds from `k` places below the
/// millisecond on add to the time, in units of the last of `n` places.
pub open spec fn below_both(minutes: Seq<char>, seconds: Seq<char>, k: nat, n: nat) -> int {
    6 * below(minutes, 4, k, n) + below(seconds, 3, k, n)
}

proof fn lemma_below_step(f: Seq<char>, offset: nat, k: nat, n: nat)
    requires
        k < n,
    ensures
        below(f, offset, k, n) == fraction_digit(f, offset + k as int) * pow10((n - k - 1) as nat) + below(
            f,
            offset,
            k + 1,
            n,
        ),
{
    let l0 = leading(f, offset + k) as int;
    let d = fraction_digit(f, offset + k as int) as int;
    let p = pow10((n - k - 1) as nat) as int;
    assert(leading(f, offset + k + 1) == l0 * 10 + d);
    assert(pow10((n - k) as nat) == 10 * p);
    assert(l0 * (10 * p) + d * p == (l0 * 10 + d) * p) by (nonlinear_arith);
}

proof fn lemma_below_end(f: Seq<char>, offset: nat, n: nat)
    ensures
        below(f, offset, n, n) == 0,
{
    assert(leading(f, offset + n) * pow10(0) == leading(f, offset + n)) by (nonlinear_arith)
        requires
            pow10(0) == 1,
    ;
}

/// `reaches` decides what its name says: whether the digits from place `k`
/// on come to `theta` units of the place above them.
proof fn lemma_reaches(minutes: Seq<char>, seconds: Seq<char>, k: nat, theta: int)
    requires
        all_digits(minutes),
        all_digits(seconds),
        k <= span(minutes, seconds),
    ensures
        0 <= below_both(minutes, seconds, k, span(minutes, seconds)) <= 7 * (pow10(
            (span(minutes, seconds) - k) as nat,
        ) - 1),
        reaches(minutes, seconds, k, theta) == (below_both(
            minutes,
            seconds,
            k,
            span(minutes, seconds),
        ) >= theta * pow10((span(minutes, seconds) - k) as nat)),
    decreases span(minutes, seconds) - k,
{
    let n = span(minutes, seconds);
    let q = pow10((n - k) as nat) as int;
    let x = below_both(minutes, seconds, k, n);
    lemma_pow10_positive((n - k) as nat);
    if k == n {
        lemma_below_end(minutes, 4, n);
        lemma_below_end(seconds, 3, n);
        assert(q == 1);
        assert(theta * q == theta) by (nonlinear_arith)
            requires
                q == 1,
        ;
    } else {
        let c = coefficient(minutes, seconds, k) as int;
        let q1 = pow10((n - k - 1) as nat) as int;
        let x1 = below_both(minutes, seconds, k + 1, n);
        lemma_reaches(minutes, seconds, k + 1, 10 * theta - c);
        lemma_below_step(minutes, 4, k, n);
        lemma_below_step(seconds, 3, k, n);
        lemma_pow10_positive((n - k - 1) as nat);
        assert(q == 10 * q1);
        assert(0 <= c <= 63) by {
            if 4 + k < minutes.len() {
                assert(is_digit(minutes[4 + k as int]));
            }
            if 3 + k < seconds.len() {
                assert(is_digit(seconds[3 + k as int]));
            }
        }
        assert(x == c * q1 + x1) by (nonlinear_arith)
            requires
                x == 6 * (fraction_digit(minutes, 4 + k as int) * q1 + below(minutes, 4, k + 1, n)) + (
                fraction_digit(seconds, 3 + k as int) * q1 + below(seconds, 3, k + 1, n)),
                x1 == 6 * below(minutes, 4, k + 1, n) + below(seconds, 3, k + 1, n),
                c == 6 * fraction_digit(minutes, 4 + k as int) + fraction_digit(seconds, 3 + k as int),
        ;
        assert(0 <= x <= 7 * (q - 1)) by (nonlinear_arith)
            requires
                x == c * q1 + x1,
                0 <= c <= 63,
                0 <= x1 <= 7 * (q1 - 1),
                q == 10 * q1,
                q1 >= 1,
        ;
        if theta <= 0 {
            assert(theta * q <= 0) by (nonlinear_arith)
                requires
                    theta <= 0,
                    q >= 1,
            ;
        } else if theta >= 7 {
            assert(theta * q >= 7 * q) by (nonlinear_arith)
                requires
                    theta >= 7,
                    q >= 1,
            ;
        } else {
            assert((x1 >= (10 * theta - c) * q1) == (x >= theta * q)) by (nonlinear_arith)
                requires
                    x == c * q1 + x1,
                    q == 10 * q1,
            ;
        }
    }
}

/// Two fractions of the same value round to the same whole number.
proof fn lemma_rounded_same(a: nat, b: nat, c: nat, d: nat)
    requires
        b > 0,
        d > 0,
        a * d == c * b,
    ensures
        rounded(a, b) == rounded(c, d),
{
    let q = rounded(c, d) as int;
    lemma_fundamental_div_mod((2 * c + d) as int, (2 * d) as int);
    lemma_mod_bound((2 * c + d) as int, (2 * d) as int);
    let r = ((2 * c + d) as int) % ((2 * d) as int);
    assert(q * (2 * b) <= 2 * a + b < q * (2 * b) + 2 * b) by (nonlinear_arith)
        requires
            2 * c + d == (2 * d) * q + r,
            0 <= r < 2 * d,
            a * d == c * b,
            b > 0,
            d > 0,
            a >= 0,
            c >= 0,
    ;
    lemma_quotient_is((2 * a + b) as int, (2 * b) as int, q);
}

/// A whole number of units adds itself to what the rest rounds to.
proof fn lemma_rounded_plus(whole: nat, rest: nat, d: nat)
    requires
        d > 0,
    ensures
        rounded(whole * d + rest, d) == whole + rounded(rest, d),
{
    let q = rounded(rest, d) as int;
    lemma_fundamental_div_mod((2 * rest + d) as int, (2 * d) as int);
    lemma_mod_bound((2 * rest + d) as int, (2 * d) as int);
    let r = ((2 * rest + d) as int) % ((2 * d) as int);
    assert((whole + q) * (2 * d) <= 2 * (whole * d + rest) + d < (whole + q) * (2 * d) + 2 * d)
        by (nonlinear_arith)
        requires
            2 * rest + d == (2 * d) * q + r,
            0 <= r < 2 * d,
    ;
    lemma_quotient_is((2 * (whole * d + rest) + d) as int, (2 * d) as int, whole + q);
}

/// What the digits below the millisecond come to is their value, rounded to
/// the nearest millisecond with halves going up.
proof fn lemma_half_up(minutes: Seq<char>, seconds: Seq<char>)
    requires
        all_digits(minutes),
        all_digits(seconds),
    ensures
        below_both(minutes, seconds, 0, span(minutes, seconds)) >= 0,
        half_up(minutes, seconds) == rounded(
            below_both(minutes, seconds, 0, span(minutes, seconds)) as nat,
            pow10(span(minutes, seconds)),
        ),
{
    let n = span(minutes, seconds);
    let x = below_both(minutes, seconds, 0, n);
    let q = pow10(n) as int;
    let c = coefficient(minutes, seconds, 0) as int;
    let first = c + 5;
    lemma_reaches(minutes, seconds, 0, 0);
    lemma_pow10_positive(n);
    if n == 0 {
        assert(c == 0);
        assert(x == 0);
        assert(!reaches(minutes, seconds, 1, 5));
        lemma_quotient_is(1, 2, 0);
    } else {
        let theta = 10 - first % 10;
        let q1 = pow10((n - 1) as nat) as int;
        let x1 = below_both(minutes, seconds, 1, n);
        lemma_reaches(minutes, seconds, 1, theta);
        lemma_below_step(minutes, 4, 0, n);
        lemma_below_step(seconds, 3, 0, n);
        lemma_pow10_positive((n - 1) as nat);
        assert(q == 10 * q1);
        assert(x == c * q1 + x1) by (nonlinear_arith)
            requires
                x == 6 * (fraction_digit(minutes, 4) * q1 + below(minutes, 4, 1, n)) + (
                fraction_digit(seconds, 3) * q1 + below(seconds, 3, 1, n)),
                x1 == 6 * below(minutes, 4, 1, n) + below(seconds, 3, 1, n),
                c == 6 * fraction_digit(minutes, 4) + fraction_digit(seconds, 3),
        ;
        let a = first / 10;
        let up: int = if reaches(minutes, seconds, 1, theta) {
            1
        } else {
            0
        };
        assert((a + up) * (2 * q) <= 2 * x + q < (a + up) * (2 * q) + 2 * q) by (nonlinear_arith)
            requires
                x == c * q1 + x1,
                q == 10 * q1,
                q1 >= 1,
                c + 5 == 10 * a + (10 - theta),
                1 <= theta <= 10,
                0 <= x1 <= 7 * (q1 - 1),
                up == 1 <==> x1 >= theta * q1,
                up == 0 || up == 1,
        ;
        lemma_quotient_is(2 * x + q, 2 * q, a + up);
    }
}

/// The time is exact: minutes times sixty plus seconds, in milliseconds,
/// rounded to the nearest with halves going up. The minutes are the number
/// that their digits before and after the point write, and so are the seconds.
pub proof fn lemma_exact_millis_is_rounded(
    minutes_whole: Seq<char>,
    minutes_fraction: Seq<char>,
    seconds_whole: Seq<char>,
    seconds_fraction: Seq<char>,
)
    requires
        all_digits(minutes_fraction),
        all_digits(seconds_fraction),
    ensures
        exact_millis(minutes_whole, minutes_fraction, seconds_whole, seconds_fraction) == rounded(
            60_000 * (digits_value(minutes_whole) * pow10(minutes_fraction.len()) + digits_value(
                minutes_fraction,
            )) * pow10(seconds_fraction.len()) + 1000 * (digits_value(seconds_whole) * pow10(
                seconds_fraction.len(),
            ) + digits_value(seconds_fraction)) * pow10(minutes_fraction.len()),
            pow10(minutes_fraction.len()) * pow10(seconds_fraction.len()),
        ),
{
    let fm = minutes_fraction;
    let fs = seconds_fraction;
    let n = span(fm, fs);
    let wm = digits_value(minutes_whole) as int;
    let ws = digits_value(seconds_whole) as int;
    let vm = digits_value(fm) as int;
    let vs = digits_value(fs) as int;
    let pm = pow10(fm.len()) as int;
    let ps = pow10(fs.len()) as int;
    let q = pow10(n) as int;
    let em = pow10((4 + n - fm.len()) as nat) as int;
    let es = pow10((3 + n - fs.len()) as nat) as int;
    let full_m = leading(fm, 4 + n) as int;
    let full_s = leading(fs, 3 + n) as int;
    let l4 = leading(fm, 4) as int;
    let l3 = leading(fs, 3) as int;
    let x = below_both(fm, fs, 0, n);
    lemma_leading_value(fm, 4 + n);
    lemma_leading_value(fs, 3 + n);
    lemma_pow10_sum(fm.len(), (4 + n - fm.len()) as nat);
    lemma_pow10_sum(fs.len(), (3 + n - fs.len()) as nat);
    lemma_pow10_sum(4, n);
    lemma_pow10_sum(3, n);
    lemma_pow10_positive(fm.len());
    lemma_pow10_positive(fs.len());
    lemma_pow10_positive(n);
    reveal_with_fuel(pow10, 5);
    assert(pow10(4) == 10_000 && pow10(3) == 1000);
    assert(pm * em == 10_000 * q);
    assert(ps * es == 1000 * q);
    assert(full_m == vm * em);
    assert(full_s == vs * es);
    lemma_half_up(fm, fs);
    assert(pow10(0) == 1);
    assert(full_m == l4 * q + below(fm, 4, 0, n));
    assert(full_s == l3 * q + below(fs, 3, 0, n));
    let whole = 60_000 * wm + 1000 * ws + 6 * l4 + l3;
    let num = 60_000 * (wm * pm + vm) * ps + 1000 * (ws * ps + vs) * pm;
    let den = pm * ps;
    assert(den > 0) by (nonlinear_arith)
        requires
            den == pm * ps,
            pm > 0,
            ps > 0,
    ;
    let a1 = wm * pm * ps;
    let a2 = vm * ps;
    let a3 = ws * ps * pm;
    let a4 = vs * pm;
    let b = 60_000 * (wm * q) + 1000 * (ws * q) + 6 * (vm * em) + vs * es;
    assert(num == 60_000 * a1 + 60_000 * a2 + 1000 * a3 + 1000 * a4) by (nonlinear_arith)
        requires
            num == 60_000 * (wm * pm + vm) * ps + 1000 * (ws * ps + vs) * pm,
            a1 == wm * pm * ps,
            a2 == vm * ps,
            a3 == ws * ps * pm,
            a4 == vs * pm,
    ;
    assert(num * q == 60_000 * (a1 * q) + 60_000 * (a2 * q) + 1000 * (a3 * q) + 1000 * (a4 * q))
        by (nonlinear_arith)
        requires
            num == 60_000 * a1 + 60_000 * a2 + 1000 * a3 + 1000 * a4,
    ;
    assert(whole * q + x == b) by (nonlinear_arith)
        requires
            whole == 60_000 * wm + 1000 * ws + 6 * l4 + l3,
            x == 6 * (vm * em - l4 * q) + (vs * es - l3 * q),
            b == 60_000 * (wm * q) + 1000 * (ws * q) + 6 * (vm * em) + vs * es,
    ;
    assert(b * den == 60_000 * ((wm * q) * den) + 1000 * ((ws * q) * den) + 6 * ((vm * em) * den)
        + (vs * es) * den) by (nonlinear_arith)
        requires
            b == 60_000 * (wm * q) + 1000 * (ws * q) + 6 * (vm * em) + vs * es,
    ;
    assert(a1 * q == (wm * q) * den) by (nonlinear_arith)
        requires
            a1 == wm * pm * ps,
            den == pm * ps,
    ;
    assert(a3 * q == (ws * q) * den) by (nonlinear_arith)
        requires
            a3 == ws * ps * pm,
            den == pm * ps,
    ;
    assert(10_000 * (a2 * q) == (vm * em) * den) by (nonlinear_arith)
        requires
            a2 == vm * ps,
            den == pm * ps,
            pm * em == 10_000 * q,
    ;
    assert(1000 * (a4 * q) == (vs * es) * den) by (nonlinear_arith)
        requires
            a4 == vs * pm,
            den == pm * ps,
            ps * es == 1000 * q,
    ;
    assert(num * q == (whole * q + x) * den);
    assert(num >= 0) by (nonlinear_arith)
        requires
            num == 60_000 * (wm * pm + vm) * ps + 1000 * (ws * ps + vs) * pm,
            wm >= 0,
            ws >= 0,
            vm >= 0,
            vs >= 0,
            pm > 0,
            ps > 0,
    ;
    assert(whole >= 0);
    assert(whole * q >= 0) by (nonlinear_arith)
        requires
            whole >= 0,
            q > 0,
    ;
    lemma_rounded_same(num as nat, den as nat, (whole * q + x) as nat, q as nat);
    lemma_rounded_plus(whole as nat, x as nat, q as nat);
}

/// The time of a timestamp with finite minutes and seconds is exact: the
/// minutes, read with their point where their exponent puts it, times sixty
/// plus the seconds read likewise, in milliseconds, rounded to the nearest
/// with halves going up, and held at `MAX_MILLIS`.
pub proof fn lemma_timestamp_millis_is_rounded(stamp: Seq<char>)
    requires
        is_timestamp(stamp),
        !is_infinity(unsigned(minutes_field(stamp))),
        !is_infinity(unsigned(seconds_field(stamp))),
    ensures
        ({
            let minutes = minutes_field(stamp);
            let seconds = seconds_field(stamp);
            let minutes_scale = pow10(fraction_of(minutes).len());
            let seconds_scale = pow10(fraction_of(seconds).len());
            timestamp_millis(stamp) == Some(
                saturated(
                    rounded(
                        60_000 * (digits_value(whole_of(minutes)) * minutes_scale + digits_value(
                            fraction_of(minutes),
                        )) * seconds_scale + 1000 * (digits_value(whole_of(seconds))
                            * seconds_scale + digits_value(fraction_of(seconds))) * minutes_scale,
                        minutes_scale * seconds_scale,
                    ),
                ),
            )
        }),
{
    let minutes = minutes_field(stamp);
    let seconds = seconds_field(stamp);
    lemma_fraction_of_digits(minutes);
    lemma_fraction_of_digits(seconds);
    lemma_exact_millis_is_rounded(
        whole_of(minutes),
        fraction_of(minutes),
        whole_of(seconds),
        fraction_of(seconds),
    );
}

/// The digits after the point of a number are digits.
proof fn lemma_fraction_of_digits(field: Seq<char>)
    requires
        is_scientific(unsigned(field)),
    ensures
        all_digits(fraction_of(field)),
{
    let body = unsigned(field);
    let digits = digits_of(body);
    let frac = fraction_of(field);
    let number = mantissa(body);
    assert forall|i: int| 0 <= i < digits.len() implies is_digit(#[trigger] digits[i]) by {
        if i < whole_part(number).len() {
            assert(digits[i] == whole_part(number)[i]);
        } else {
            assert(digits[i] == fraction_part(number)[i - whole_part(number).len()]);
        }
    }
    let before = (frac.len() - digits.skip(kept_digits(digits.len(), point_of(body)) as int).len());
    assert forall|i: int| 0 <= i < frac.len() implies is_digit(#[trigger] frac[i]) by {
        if i >= before {
            assert(frac[i] == digits[kept_digits(digits.len(), point_of(body)) + i - before]);
        }
    }
}

/// `e`, held within `EXPONENT_LIMIT`.
spec fn held(e: int) -> int {
    if e > EXPONENT_LIMIT {
        EXPONENT_LIMIT as int
    } else if e < -(EXPONENT_LIMIT as int) {
        -(EXPONENT_LIMIT as int)
    } else {
        e
    }
}

/// With twenty zeros or more behind them, digits write 0 or a number beyond
/// 64 bits, however many the zeros are.
proof fn lemma_far_whole(digits: Seq<char>, p: int, q: int)
    requires
        p >= digits.len() + 20,
        q >= digits.len() + 20,
    ensures
        capped(digits_value(shifted_whole(digits, p)), 0x1_0000_0000_0000_0000) == capped(
            digits_value(shifted_whole(digits, q)),
            0x1_0000_0000_0000_0000,
        ),
{
    let n = digits.len();
    assert(digits.take(n as int) =~= digits);
    lemma_digits_value_zeros(digits, (p - n) as nat);
    lemma_digits_value_zeros(digits, (q - n) as nat);
    if digits_value(digits) >= 1 {
        lemma_twenty_zeros(digits_value(digits), (p - n) as nat);
        lemma_twenty_zeros(digits_value(digits), (q - n) as nat);
    } else {
        assert(digits_value(digits) * pow10((p - n) as nat) == 0) by (nonlinear_arith)
            requires
                digits_value(digits) == 0,
        ;
        assert(digits_value(digits) * pow10((q - n) as nat) == 0) by (nonlinear_arith)
            requires
                digits_value(digits) == 0,
        ;
    }
}

/// Fractional parts that agree down to a place where both fields have a
/// zero are decided alike.
proof fn lemma_reaches_same(
    am: Seq<char>,
    a_s: Seq<char>,
    bm: Seq<char>,
    bs: Seq<char>,
    limit: nat,
    stop: nat,
    k: nat,
    theta: int,
)
    requires
        forall|i: int| 0 <= i < limit ==> fraction_digit(am, i) == fraction_digit(bm, i),
        forall|i: int| 0 <= i < limit ==> fraction_digit(a_s, i) == fraction_digit(bs, i),
        1 <= k <= stop,
        4 + stop < limit,
        coefficient(am, a_s, stop) == 0,
    ensures
        reaches(am, a_s, k, theta) == reaches(bm, bs, k, theta),
    decreases stop - k,
{
    let c = coefficient(am, a_s, k);
    assert(c == coefficient(bm, bs, k));
    if 1 <= theta <= 6 {
        if c == 0 {
            assert(!reaches(am, a_s, k + 1, 10 * theta));
            assert(!reaches(bm, bs, k + 1, 10 * theta));
        } else {
            assert(k < span(am, a_s));
            assert(k < span(bm, bs));
            lemma_reaches_same(am, a_s, bm, bs, limit, stop, k + 1, 10 * theta - c);
        }
    }
}

/// Fractional parts that agree down to a place where both fields have a
/// zero come to the same time.
proof fn lemma_fractions_same(
    am: Seq<char>,
    a_s: Seq<char>,
    bm: Seq<char>,
    bs: Seq<char>,
    limit: nat,
    stop: nat,
)
    requires
        forall|i: int| 0 <= i < limit ==> fraction_digit(am, i) == fraction_digit(bm, i),
        forall|i: int| 0 <= i < limit ==> fraction_digit(a_s, i) == fraction_digit(bs, i),
        1 <= stop,
        4 + stop < limit,
        coefficient(am, a_s, stop) == 0,
    ensures
        leading(am, 4) == leading(bm, 4),
        leading(a_s, 3) == leading(bs, 3),
        half_up(am, a_s) == half_up(bm, bs),
{
    reveal_with_fuel(leading, 5);
    let first = coefficient(am, a_s, 0) + 5;
    assert(first == coefficient(bm, bs, 0) + 5);
    lemma_reaches_same(am, a_s, bm, bs, limit, stop, 1, 10 - first % 10);
}

/// The value of the digit `c`, or `None` where `c` is no digit.
pub fn digit_of(c: char) -> (d: Option<u64>)
    ensures
        d is Some <==> is_digit(c),
        d matches Some(v) ==> v == digit_value(c) && v <= 9,
{
    let u: u32 = c as u32;
    if 0x30 <= u && u <= 0x39 {
        Some((u - 0x30) as u64)
    } else {
        None
    }
}

/// A number as it was read: whether it is infinite, and otherwise its digits
/// and where the point stands among them.
struct Number {
    infinite: bool,
    /// The digits before the point as a number, held at 2^64.
    whole: u128,
    /// The digits of the number, its point and exponent left out.
    digits: Vec<char>,
    /// How many of `digits` stand before the point.
    kept: usize,
    /// How many zeros stand between the point and the first of the digits behind it.
    zeros: u128,
}

impl Number {
    spec fn fraction(self) -> Seq<char> {
        zeros(self.zeros as nat) + self.digits@.skip(self.kept as int)
    }

    spec fn well_formed(self) -> bool {
        &&& self.kept <= self.digits.len()
        &&& all_digits(self.digits@)
        &&& self.zeros <= EXPONENT_LIMIT
    }

    spec fn end(self) -> nat {
        (self.zeros + (self.digits.len() - self.kept)) as nat
    }

    /// Whether the number was read from the fractional part `frac`: it holds
    /// that part, or, where the part begins with more zeros than are counted
    /// out, the same digits behind `DEEP` zeros or more.
    spec fn stands_for(self, frac: Seq<char>) -> bool {
        ||| self.fraction() == frac
        ||| {
            &&& self.kept == 0
            &&& self.zeros >= DEEP
            &&& frac.len() >= self.zeros + self.digits.len()
            &&& frac == zeros((frac.len() - self.digits.len()) as nat) + self.digits@
        }
    }

    /// The digit at place `i` behind the point, 0 beyond the last.
    fn digit(&self, i: u128) -> (d: u128)
        requires
            self.well_formed(),
        ensures
            d == fraction_digit(self.fraction(), i as int),
            d <= 9,
            i >= self.end() ==> d == 0,
    {
        if i < self.zeros {
            0
        } else {
            let t: u128 = i - self.zeros;
            if t < (self.digits.len() - self.kept) as u128 {
                let c = self.digits[self.kept + t as usize];
                assert(self.fraction()[i as int] == c);
                assert(is_digit(self.digits@[self.kept + t]));
                (c as u32 - 0x30) as u128
            } else {
                0
            }
        }
    }
}

/// Whether the range `from..to` of `chars` holds digits only.
fn all_digits_in(chars: &Vec<char>, from: usize, to: usize) -> (yes: bool)
    requires
        from <= to <= chars.len(),
    ensures
        yes == all_digits(chars@.subrange(from as int, to as int)),
{
    let ghost s = chars@.subrange(from as int, to as int);
    let mut i: usize = from;
    while i < to
        invariant
            from <= i <= to <= chars.len(),
            s == chars@.subrange(from as int, to as int),
            forall|j: int| 0 <= j < i - from ==> is_digit(#[trigger] s[j]),
        decreases to - i,
    {
        if digit_of(chars[i]).is_none() {
            assert(!is_digit(s[i - from]));
            return false;
        }
        i += 1;
    }
    true
}

/// Whether `digits` holds the digit `0` only.
fn is_zero_in(digits: &Vec<char>) -> (yes: bool)
    ensures
        yes == is_zero(digits@),
{
    let mut i: usize = 0;
    while i < digits.len()
        invariant
            i <= digits.len(),
            forall|j: int| 0 <= j < i ==> #[trigger] digits[j] == '0',
        decreases digits.len() - i,
    {
        if digits[i] != '0' {
            return false;
        }
        i += 1;
    }
    true
}

/// The number that the digits in the range `from..to` of `chars` write, held at `cap`.
fn digits_capped(chars: &Vec<char>, from: usize, to: usize, cap: u128) -> (value: u128)
    requires
        from <= to <= chars.len(),
        all_digits(chars@.subrange(from as int, to as int)),
        cap <= 0x1_0000_0000_0000_0000_0000_0000,
    ensures
        value == capped(digits_value(chars@.subrange(from as int, to as int)), cap as nat),
{
    let ghost s = chars@.subrange(from as int, to as int);
    let mut acc: u128 = 0;
    let mut i: usize = from;
    while i < to
        invariant
            from <= i <= to <= chars.len(),
            s == chars@.subrange(from as int, to as int),
            all_digits(s),
            cap <= 0x1_0000_0000_0000_0000_0000_0000,
            acc == capped(digits_value(chars@.subrange(from as int, i as int)), cap as nat),
        decreases to - i,
    {
        let ghost before = chars@.subrange(from as int, i as int);
        let c = chars[i];
        proof {
            assert(is_digit(s[i - from]));
            lemma_digits_value_push(before, c);
            assert(before.push(c) =~= chars@.subrange(from as int, i + 1));
        }
        let wide: u128 = acc * 10 + (c as u32 - 0x30) as u128;
        acc = if wide > cap {
            cap
        } else {
            wide
        };
        i += 1;
    }
    assert(chars@.subrange(from as int, i as int) =~= s);
    acc
}

/// Whether the range `from..to` of `chars` is `word`, whatever the case of its letters.
fn matches_word(chars: &Vec<char>, from: usize, to: usize, word: &str) -> (yes: bool)
    requires
        from <= to <= chars.len(),
    ensures
        yes == (lowered(chars@.subrange(from as int, to as int)) == word@),
{
    let ghost s = chars@.subrange(from as int, to as int);
    let letters = to_chars(word);
    if letters.len() != to - from {
        assert(lowered(s).len() == s.len());
        return false;
    }
    let mut i: usize = 0;
    while i < letters.len()
        invariant
            i <= letters.len() == to - from,
            from <= to <= chars.len(),
            letters@ == word@,
            s == chars@.subrange(from as int, to as int),
            forall|j: int| 0 <= j < i ==> lowered(s)[j] == letters[j],
        decreases letters.len() - i,
    {
        if char_to_lower(chars[from + i]) != letters[i] {
            assert(lowered(s)[i as int] != word@[i as int]);
            return false;
        }
        i += 1;
    }
    assert(lowered(s) =~= word@);
    true
}

/// Adds the range `from..to` of `chars` to the end of `out`.
fn append_range(out: &mut Vec<char>, chars: &Vec<char>, from: usize, to: usize)
    requires
        from <= to <= chars.len(),
    ensures
        final(out)@ == old(out)@ + chars@.subrange(from as int, to as int),
{
    let mut i: usize = from;
    while i < to
        invariant
            from <= i <= to <= chars.len(),
            out@ == old(out)@ + chars@.subrange(from as int, i as int),
        decreases to - i,
    {
        out.push(chars[i]);
        assert(out@ =~= old(out)@ + chars@.subrange(from as int, i + 1));
        i += 1;
    }
}

/// The exponent in the range `from..to` of `chars`, which stands behind an
/// exponent mark: a whole number with or without a sign, held within
/// `EXPONENT_LIMIT`; `None` where it is none.
fn exponent_in(chars: &Vec<char>, from: usize, to: usize) -> (value: Option<i128>)
    requires
        from <= to <= chars.len(),
    ensures
        value is Some <==> is_whole_number(unsigned(chars@.subrange(from as int, to as int))),
        value matches Some(e) ==> e == held(signed_value(chars@.subrange(from as int, to as int))),
{
    let ghost text = chars@.subrange(from as int, to as int);
    let signed = from < to && (chars[from] == '+' || chars[from] == '-');
    let negative = from < to && chars[from] == '-';
    let start: usize = if signed {
        from + 1
    } else {
        from
    };
    proof {
        if from < to {
            assert(text[0] == chars[from as int]);
        }
        assert(unsigned(text) =~= chars@.subrange(start as int, to as int));
    }
    if start == to || !all_digits_in(chars, start, to) {
        return None;
    }
    let size = digits_capped(chars, start, to, EXPONENT_LIMIT);
    if negative {
        Some(-(size as i128))
    } else {
        Some(size as i128)
    }
}

/// The number that the first `kept` of `digits` write with `behind` zeros
/// after them, held at 2^64.
fn whole_in(digits: &Vec<char>, kept: usize, behind: u128) -> (whole: u128)
    requires
        kept <= digits.len(),
        all_digits(digits@),
    ensures
        whole == capped(
            digits_value(digits@.take(kept as int) + zeros(behind as nat)),
            0x1_0000_0000_0000_0000,
        ),
{
    let ghost kept_part = digits@.take(kept as int);
    proof {
        assert(digits@.subrange(0, kept as int) =~= kept_part);
        assert forall|i: int| 0 <= i < kept_part.len() implies is_digit(
            #[trigger] digits@.subrange(0, kept as int)[i],
        ) by {
            assert(digits@.subrange(0, kept as int)[i] == digits@[i]);
        }
        lemma_digits_value_zeros(kept_part, behind as nat);
    }
    let front = digits_capped(digits, 0, kept, 0x1_0000_0000_0000_0000);
    if behind >= 20 {
        proof {
            if digits_value(kept_part) >= 1 {
                lemma_twenty_zeros(digits_value(kept_part), behind as nat);
            } else {
                assert(digits_value(kept_part) * pow10(behind as nat) == 0) by (nonlinear_arith)
                    requires
                        digits_value(kept_part) == 0,
                ;
            }
        }
        if front == 0 {
            0
        } else {
            0x1_0000_0000_0000_0000
        }
    } else {
        let mut acc: u128 = front;
        let mut done: u128 = 0;
        proof {
            assert(digits_value(kept_part) * pow10(0) == digits_value(kept_part))
                by (nonlinear_arith)
                requires
                    pow10(0) == 1,
            ;
        }
        while done < behind
            invariant
                done <= behind < 20,
                acc == capped(
                    digits_value(kept_part) * pow10(done as nat),
                    0x1_0000_0000_0000_0000,
                ),
            decreases behind - done,
        {
            proof {
                let v = digits_value(kept_part) as int;
                let p = pow10(done as nat) as int;
                assert(pow10((done + 1) as nat) == 10 * p);
                assert(v * (10 * p) == (v * p) * 10) by (nonlinear_arith);
            }
            let wide: u128 = acc * 10;
            acc = if wide > 0x1_0000_0000_0000_0000 {
                0x1_0000_0000_0000_0000
            } else {
                wide
            };
            done += 1;
        }
        acc
    }
}

/// Reads the range `from..to` of `chars` as a decimal number: its digits,
/// and how many of them stand before the point; `None` where it is none.
fn decimal_in(chars: &Vec<char>, from: usize, to: usize) -> (read: Option<(Vec<char>, usize)>)
    requires
        from <= to <= chars.len(),
    ensures
        read is Some <==> is_decimal(chars@.subrange(from as int, to as int)),
        read matches Some(found) ==> {
            let number = chars@.subrange(from as int, to as int);
            &&& found.0@ == whole_part(number) + fraction_part(number)
            &&& found.1 == whole_part(number).len()
            &&& all_digits(found.0@)
        },
{
    let ghost number = chars@.subrange(from as int, to as int);
    let point = find_in(chars, from, to, '.');
    let after: usize = if point < to {
        point + 1
    } else {
        to
    };
    proof {
        assert(whole_part(number) =~= chars@.subrange(from as int, point as int));
        assert(fraction_part(number) =~= chars@.subrange(after as int, to as int));
    }
    if (point - from) + (to - after) == 0 {
        return None;
    }
    if !all_digits_in(chars, from, point) || !all_digits_in(chars, after, to) {
        return None;
    }
    let mut digits: Vec<char> = Vec::new();
    append_range(&mut digits, chars, from, point);
    append_range(&mut digits, chars, after, to);
    proof {
        assert(digits@ =~= whole_part(number) + fraction_part(number));
        assert forall|i: int| 0 <= i < digits.len() implies is_digit(#[trigger] digits@[i]) by {
            if i < point - from {
                assert(digits@[i] == whole_part(number)[i]);
            } else {
                assert(digits@[i] == fraction_part(number)[i - (point - from)]);
            }
        }
    }
    Some((digits, point - from))
}

/// Puts the point where the exponent moves it.
fn shifted(digits: Vec<char>, before_point: usize, exponent: i128) -> (number: Number)
    requires
        all_digits(digits@),
        before_point <= digits.len(),
        -EXPONENT_LIMIT <= exponent <= EXPONENT_LIMIT,
    ensures
        !number.infinite,
        number.well_formed(),
        number.digits@ == digits@,
        number.whole == capped(
            digits_value(shifted_whole(digits@, before_point + exponent)),
            0x1_0000_0000_0000_0000,
        ),
        number.fraction() == shifted_fraction(digits@, before_point + exponent),
        number.kept == kept_digits(digits@.len(), before_point + exponent),
        number.zeros == if before_point + exponent < 0 {
            -(before_point + exponent)
        } else {
            0
        },
{
    let len = digits.len();
    let place: i128 = before_point as i128 + exponent;
    let kept: usize = if place <= 0 {
        0
    } else if place >= len as i128 {
        len
    } else {
        place as usize
    };
    let behind: u128 = if place > len as i128 {
        (place - len as i128) as u128
    } else {
        0
    };
    let before: u128 = if place < 0 {
        (-place) as u128
    } else {
        0
    };
    let whole = whole_in(&digits, kept, behind);
    Number { infinite: false, whole, digits, kept, zeros: before }
}

/// Reads the range `from..to` of `chars` as a number in decimal or
/// scientific writing, without a sign; `None` where it is none.
fn scientific_in(chars: &Vec<char>, from: usize, to: usize) -> (number: Option<Number>)
    requires
        from <= to <= chars.len(),
    ensures
        number is Some <==> is_scientific(chars@.subrange(from as int, to as int)),
        number matches Some(n) ==> {
            let body = chars@.subrange(from as int, to as int);
            &&& !n.infinite
            &&& n.well_formed()
            &&& n.digits@ == digits_of(body)
            &&& n.whole == capped(
                digits_value(shifted_whole(digits_of(body), point_of(body))),
                0x1_0000_0000_0000_0000,
            )
            &&& n.stands_for(shifted_fraction(digits_of(body), point_of(body)))
        },
{
    let ghost body = chars@.subrange(from as int, to as int);
    let small = find_in(chars, from, to, 'e');
    let capital = find_in(chars, from, to, 'E');
    let mark: usize = if small <= capital {
        small
    } else {
        capital
    };
    proof {
        assert(mantissa(body) =~= chars@.subrange(from as int, mark as int));
        if mark < to {
            assert(exponent_text(body) =~= chars@.subrange(mark + 1, to as int));
        }
    }
    let (digits, before_point) = match decimal_in(chars, from, mark) {
        Some(found) => found,
        None => {
            return None;
        },
    };
    let exponent: i128 = if mark < to {
        match exponent_in(chars, mark + 1, to) {
            Some(e) => e,
            None => {
                return None;
            },
        }
    } else {
        0
    };
    let ghost all = digits@;
    let number = shifted(digits, before_point, exponent);
    proof {
        let true_point = point_of(body);
        let read_point = before_point + exponent;
        assert(exponent == held(exponent_value(body)));
        if exponent_value(body) > EXPONENT_LIMIT {
            lemma_far_whole(all, true_point, read_point);
            assert(shifted_fraction(all, true_point) =~= shifted_fraction(all, read_point));
        } else if exponent_value(body) < -(EXPONENT_LIMIT as int) {
            assert(shifted_whole(all, true_point) =~= shifted_whole(all, read_point));
            let frac = shifted_fraction(all, true_point);
            assert(all.skip(0) =~= all);
            assert(frac =~= zeros((frac.len() - all.len()) as nat) + all);
        }
    }
    Some(number)
}

/// Reads the range `from..to` of `chars` as a non-negative number; `None`
/// where it is none.
fn number_in(chars: &Vec<char>, from: usize, to: usize) -> (number: Option<Number>)
    requires
        from <= to <= chars.len(),
    ensures
        number is Some <==> is_number(chars@.subrange(from as int, to as int)),
        number matches Some(n) ==> {
            let field = chars@.subrange(from as int, to as int);
            &&& n.infinite == is_infinity(unsigned(field))
            &&& !n.infinite ==> {
                &&& n.well_formed()
                &&& n.whole == capped(digits_value(whole_of(field)), 0x1_0000_0000_0000_0000)
                &&& n.stands_for(fraction_of(field))
            }
        },
{
    let ghost field = chars@.subrange(from as int, to as int);
    let signed = from < to && (chars[from] == '+' || chars[from] == '-');
    let negative = from < to && chars[from] == '-';
    let start: usize = if signed {
        from + 1
    } else {
        from
    };
    proof {
        if from < to {
            assert(field[0] == chars[from as int]);
        }
        assert(unsigned(field) =~= chars@.subrange(start as int, to as int));
    }
    if matches_word(chars, start, to, "inf") || matches_word(chars, start, to, "infinity") {
        if negative {
            return None;
        }
        return Some(Number { infinite: true, whole: 0, digits: Vec::new(), kept: 0, zeros: 0 });
    }
    match scientific_in(chars, start, to) {
        None => None,
        Some(n) => {
            if negative && !is_zero_in(&n.digits) {
                None
            } else {
                Some(n)
            }
        },
    }
}

/// What the digits below the millisecond come to in whole milliseconds.
fn half_up_in(minutes: &Number, seconds: &Number) -> (millis: u128)
    requires
        minutes.well_formed(),
        seconds.well_formed(),
    ensures
        millis == half_up(minutes.fraction(), seconds.fraction()),
        millis <= 7,
{
    let ghost fm = minutes.fraction();
    let ghost fs = seconds.fraction();
    let first: u128 = 6 * minutes.digit(4) + seconds.digit(3) + 5;
    let base: u128 = first / 10;
    let mut theta: u128 = 10 - first % 10;
    let mut k: u128 = 1;
    let ghost goal = reaches(fm, fs, 1, theta as int);
    let ghost last: nat = if minutes.end() >= seconds.end() {
        minutes.end()
    } else {
        seconds.end()
    };
    loop
        invariant
            minutes.well_formed(),
            seconds.well_formed(),
            fm == minutes.fraction(),
            fs == seconds.fraction(),
            last >= minutes.end(),
            last >= seconds.end(),
            last <= 0x80_0000_0000_0000_0000,
            1 <= k <= last + 1,
            1 <= theta <= 10,
            base <= 6,
            goal == reaches(fm, fs, k as nat, theta as int),
            base + (if goal {
                1nat
            } else {
                0nat
            }) == half_up(fm, fs),
        decreases last + 1 - k,
    {
        if theta >= 7 {
            return base;
        }
        let c: u128 = 6 * minutes.digit(4 + k) + seconds.digit(3 + k);
        proof {
            assert(c == coefficient(fm, fs, k as nat));
            if k >= span(fm, fs) {
                assert(c == 0);
            }
        }
        if 10 * theta <= c {
            proof {
                assert(k < span(fm, fs));
                assert(reaches(fm, fs, (k + 1) as nat, 10 * theta - c));
            }
            return base + 1;
        }
        let next: u128 = 10 * theta - c;
        if next >= 7 {
            proof {
                if k < span(fm, fs) {
                    assert(!reaches(fm, fs, (k + 1) as nat, next as int));
                }
            }
            return base;
        }
        proof {
            assert(c >= 4);
            assert(k < span(fm, fs));
            assert(k < last);
        }
        theta = next;
        k += 1;
    }
}

/// What was read of two fractional parts comes to the same time as the
/// parts themselves.
proof fn lemma_read_same(
    minutes: Number,
    seconds: Number,
    true_minutes: Seq<char>,
    true_seconds: Seq<char>,
)
    requires
        minutes.well_formed(),
        seconds.well_formed(),
        minutes.stands_for(true_minutes),
        seconds.stands_for(true_seconds),
    ensures
        leading(minutes.fraction(), 4) == leading(true_minutes, 4),
        leading(seconds.fraction(), 3) == leading(true_seconds, 3),
        half_up(minutes.fraction(), seconds.fraction()) == half_up(true_minutes, true_seconds),
{
    let read_minutes = minutes.fraction();
    let read_seconds = seconds.fraction();
    let minutes_deep = read_minutes != true_minutes;
    let seconds_deep = read_seconds != true_seconds;
    if minutes_deep || seconds_deep {
        if minutes_deep {
            assert(read_minutes =~= zeros(minutes.zeros as nat) + minutes.digits@);
        }
        if seconds_deep {
            assert(read_seconds =~= zeros(seconds.zeros as nat) + seconds.digits@);
        }
        let stop: nat = if minutes_deep && seconds_deep {
            1
        } else if minutes_deep {
            if seconds.zeros >= 5 || seconds.end() < 1 {
                1
            } else {
                seconds.end()
            }
        } else {
            if minutes.zeros >= 6 || minutes.end() < 1 {
                1
            } else {
                minutes.end()
            }
        };
        assert(fraction_digit(read_minutes, 4 + stop as int) == 0);
        assert(fraction_digit(read_seconds, 3 + stop as int) == 0);
        assert(coefficient(read_minutes, read_seconds, stop) == 0);
        assert forall|i: int| 0 <= i < DEEP implies fraction_digit(read_minutes, i)
            == fraction_digit(true_minutes, i) by {
            if minutes_deep {
                assert(read_minutes[i] == '0');
                assert(true_minutes[i] == '0');
            }
        }
        assert forall|i: int| 0 <= i < DEEP implies fraction_digit(read_seconds, i)
            == fraction_digit(true_seconds, i) by {
            if seconds_deep {
                assert(read_seconds[i] == '0');
                assert(true_seconds[i] == '0');
            }
        }
        lemma_fractions_same(
            read_minutes,
            read_seconds,
            true_minutes,
            true_seconds,
            DEEP as nat,
            stop,
        );
    }
}

/// What the digits after the point of minutes and seconds add to the time,
/// in milliseconds.
fn fraction_millis_in(
    minutes: &Number,
    seconds: &Number,
    Ghost(true_minutes): Ghost<Seq<char>>,
    Ghost(true_seconds): Ghost<Seq<char>>,
) -> (millis: u128)
    requires
        minutes.well_formed(),
        seconds.well_formed(),
        minutes.stands_for(true_minutes),
        seconds.stands_for(true_seconds),
    ensures
        millis == 6 * leading(true_minutes, 4) + leading(true_seconds, 3) + half_up(
            true_minutes,
            true_seconds,
        ),
        millis <= 61_000,
{
    let m0 = minutes.digit(0);
    let m1 = minutes.digit(1);
    let m2 = minutes.digit(2);
    let m3 = minutes.digit(3);
    let s0 = seconds.digit(0);
    let s1 = seconds.digit(1);
    let s2 = seconds.digit(2);
    let lead_minutes: u128 = ((m0 * 10 + m1) * 10 + m2) * 10 + m3;
    let lead_seconds: u128 = (s0 * 10 + s1) * 10 + s2;
    proof {
        reveal_with_fuel(leading, 5);
        assert(lead_minutes == leading(minutes.fraction(), 4));
        assert(lead_seconds == leading(seconds.fraction(), 3));
        lemma_read_same(*minutes, *seconds, true_minutes, true_seconds);
    }
    let half = half_up_in(minutes, seconds);
    6 * lead_minutes + lead_seconds + half
}

/// Reads the range `from..to` of `chars` as a timestamp: the time in
/// milliseconds, or `None` where it is no timestamp.
pub(crate) fn timestamp_in(chars: &Vec<char>, from: usize, to: usize) -> (value: Option<u64>)
    requires
        from <= to <= chars.len(),
    ensures
        value is Some <==> is_timestamp(chars@.subrange(from as int, to as int)),
        value matches Some(v) ==> Some(v as nat) == timestamp_millis(
            chars@.subrange(from as int, to as int),
        ),
{
    let ghost stamp = chars@.subrange(from as int, to as int);
    let colon = find_in(chars, from, to, ':');
    if colon == to {
        return None;
    }
    let second = find_in(chars, colon + 1, to, ':');
    proof {
        let rest = stamp.skip(find(stamp, ':') + 1 as int);
        assert(rest =~= chars@.subrange(colon + 1, to as int));
        assert(minutes_field(stamp) =~= chars@.subrange(from as int, colon as int));
        assert(seconds_field(stamp) =~= chars@.subrange(colon + 1, second as int));
    }
    let minutes = match number_in(chars, from, colon) {
        Some(n) => n,
        None => {
            return None;
        },
    };
    let seconds = match number_in(chars, colon + 1, second) {
        Some(n) => n,
        None => {
            return None;
        },
    };
    if minutes.infinite || seconds.infinite {
        return Some(MAX_MILLIS);
    }
    let below = fraction_millis_in(
        &minutes,
        &seconds,
        Ghost(fraction_of(minutes_field(stamp))),
        Ghost(fraction_of(seconds_field(stamp))),
    );
    let total: u128 = 60_000 * minutes.whole + 1000 * seconds.whole + below;
    if total > MAX_MILLIS as u128 {
        Some(MAX_MILLIS)
    } else {
        Some(total as u64)
    }
}

/// Reads a timestamp: the time in milliseconds, or `None` where `stamp` is no
/// timestamp.
pub fn parse_timestamp(stamp: &str) -> (value: Option<u64>)
    ensures
        value is Some <==> is_timestamp(stamp@),
        value matches Some(v) ==> Some(v as nat) == timestamp_millis(stamp@),
{
    let chars = to_chars(stamp);
    assert(chars@.subrange(0, chars.len() as int) =~= stamp@);
    timestamp_in(&chars, 0, chars.len())
}

} // verus!
