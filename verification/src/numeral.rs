//! Signed integers and decimal numerals written in characters.
//!
//! Real quantities are held in fixed point: an `i64` counts units of one
//! ten-millionth. A numeral may carry an exponent. Its value is held to the
//! unit: what lies below a unit is cut off, toward zero, and a value whose
//! magnitude reaches `LIMIT` is not held at all. A numeral without exponent
//! that fits a field of eight columns is always held, and exactly.

use vstd::prelude::*;
use vstd::arithmetic::div_mod::lemma_basic_div;
use vstd::arithmetic::div_mod::lemma_fundamental_div_mod_converse;
use vstd::slice::slice_subrange;
use crate::text::find_from;
use crate::text::lemma_find_from;

verus! {

/// A real quantity in fixed point, counted in units of `1 / ONE`.
pub type Fixed = i64;

/// The number of digits after the point that a unit resolves.
pub const FRACTION_DIGITS: usize = 7;

/// The fixed-point value of the number one.
pub const ONE: i64 = 10_000_000;

/// Every fixed-point value read from text lies strictly between `-LIMIT` and
/// `LIMIT`: ten to the fifteenth units, a hundred million.
pub const LIMIT: i64 = 1_000_000_000_000_000;

/// `LIMIT` in ones: the whole part of a numeral that is held stays below this.
pub const WHOLE_LIMIT: i64 = 100_000_000;

/// Whether `c` is one of the ten digits `0` to `9`.
pub open spec fn is_digit(c: char) -> bool {
    '0' <= c <= '9'
}

/// The number that the digit `c` writes.
pub open spec fn digit_value(c: char) -> nat {
    (c as int - '0' as int) as nat
}

/// Whether every character of `s` is a digit.
pub open spec fn all_digits(s: Seq<char>) -> bool {
    forall|i: int| 0 <= i < s.len() ==> is_digit(#[trigger] s[i])
}

/// The number that the digits of `s` write in base ten; zero for no digits.
pub open spec fn digits_value(s: Seq<char>) -> nat
    decreases s.len(),
{
    if s.len() == 0 {
        0
    } else {
        digits_value(s.drop_last()) * 10 + digit_value(s.last())
    }
}

/// Ten to the power of `n`.
pub open spec fn pow10(n: nat) -> nat
    decreases n,
{
    if n == 0 {
        1
    } else {
        10 * pow10((n - 1) as nat)
    }
}

/// Whether `s` starts with `+` or `-`.
pub open spec fn has_sign(s: Seq<char>) -> bool {
    s.len() > 0 && (s[0] == '+' || s[0] == '-')
}

/// Whether `s` starts with `-`.
pub open spec fn is_negative(s: Seq<char>) -> bool {
    s.len() > 0 && s[0] == '-'
}

/// `s` without its sign, if it has one.
pub open spec fn unsigned_part(s: Seq<char>) -> Seq<char> {
    if has_sign(s) {
        s.drop_first()
    } else {
        s
    }
}

/// `magnitude`, negated where `negative`.
pub open spec fn signed(negative: bool, magnitude: int) -> int {
    if negative {
        -magnitude
    } else {
        magnitude
    }
}

/// The integer that `s` writes: an optional `+` or `-`, then one digit or
/// more. `None` for any other text.
pub open spec fn integer_value(s: Seq<char>) -> Option<int> {
    let body = unsigned_part(s);
    if body.len() > 0 && all_digits(body) {
        Some(signed(is_negative(s), digits_value(body) as int))
    } else {
        None
    }
}

/// Whether `c` marks the exponent of a numeral.
pub open spec fn is_exponent_mark(c: char) -> bool {
    c == 'e' || c == 'E'
}

/// The least index `i >= from` at which `s` holds an exponent mark, or
/// `s.len()` when it holds none from `from` on.
pub open spec fn find_exponent_mark(s: Seq<char>, from: int) -> int
    decreases s.len() - from,
{
    if from >= s.len() {
        s.len() as int
    } else if is_exponent_mark(s[from]) {
        from
    } else {
        find_exponent_mark(s, from + 1)
    }
}

/// Whether the unsigned numeral `body` has an exponent.
pub open spec fn has_exponent(body: Seq<char>) -> bool {
    find_exponent_mark(body, 0) < body.len()
}

/// The mantissa of an unsigned numeral: what stands before its exponent mark,
/// or all of it where it has none.
pub open spec fn mantissa_part(body: Seq<char>) -> Seq<char> {
    body.subrange(0, find_exponent_mark(body, 0))
}

/// What stands after the exponent mark of an unsigned numeral; nothing where
/// it has no mark.
pub open spec fn exponent_part(body: Seq<char>) -> Seq<char> {
    let m = find_exponent_mark(body, 0);
    if 0 <= m < body.len() {
        body.subrange(m + 1, body.len() as int)
    } else {
        Seq::empty()
    }
}

/// The digits of a mantissa before its point.
pub open spec fn whole_part(mantissa: Seq<char>) -> Seq<char> {
    mantissa.subrange(0, find_from(mantissa, '.', 0))
}

/// The digits of a mantissa after its point; none without a point.
pub open spec fn fraction_part(mantissa: Seq<char>) -> Seq<char> {
    let p = find_from(mantissa, '.', 0);
    if 0 <= p < mantissa.len() {
        mantissa.subrange(p + 1, mantissa.len() as int)
    } else {
        Seq::empty()
    }
}

/// Whether `s` is a decimal numeral: an optional `+` or `-`; then a mantissa
/// of digits with at most one point among them, before them or after them,
/// and at least one digit; then, optionally, `e` or `E` and an integer, the
/// exponent. Nothing else is one: no infinity, no not-a-number.
pub open spec fn is_numeral(s: Seq<char>) -> bool {
    let body = unsigned_part(s);
    let mantissa = mantissa_part(body);
    &&& all_digits(whole_part(mantissa))
    &&& all_digits(fraction_part(mantissa))
    &&& whole_part(mantissa).len() + fraction_part(mantissa).len() > 0
    &&& has_exponent(body) ==> integer_value(exponent_part(body)) is Some
}

/// The exponent of the numeral `s`; zero where it writes none.
pub open spec fn exponent_of(s: Seq<char>) -> int {
    let body = unsigned_part(s);
    if has_exponent(body) {
        match integer_value(exponent_part(body)) {
            Some(x) => x,
            None => 0,
        }
    } else {
        0
    }
}

/// `n` times ten to the power of `shift`, cut off to a whole number.
pub open spec fn scaled(n: nat, shift: int) -> nat {
    if shift >= 0 {
        n * pow10(shift as nat)
    } else {
        n / pow10((-shift) as nat)
    }
}

/// The magnitude in units of the numeral `s`: its mantissa, read without its
/// point, times ten to the power that its point, its exponent and the unit
/// call for, cut off to a whole number of units.
pub open spec fn numeral_magnitude(s: Seq<char>) -> nat {
    let mantissa = mantissa_part(unsigned_part(s));
    let whole = whole_part(mantissa);
    let fraction = fraction_part(mantissa);
    scaled(digits_value(whole + fraction), exponent_of(s) + FRACTION_DIGITS - fraction.len())
}

/// The fixed-point value of `s`: where `s` is a numeral whose magnitude stays
/// below `LIMIT`, its value, cut off toward zero to a whole number of units;
/// `None` for a numeral of larger magnitude and for any other text.
pub open spec fn decimal_units(s: Seq<char>) -> Option<int> {
    if is_numeral(s) && numeral_magnitude(s) < LIMIT {
        Some(signed(is_negative(s), numeral_magnitude(s) as int))
    } else {
        None
    }
}

/// `find_exponent_mark` yields an index between `from` and the length;
/// nothing before it is an exponent mark, and it holds one unless it is the
/// length.
pub proof fn lemma_find_exponent_mark(s: Seq<char>, from: int)
    requires
        0 <= from <= s.len(),
    ensures
        from <= find_exponent_mark(s, from) <= s.len(),
        find_exponent_mark(s, from) < s.len() ==> is_exponent_mark(s[find_exponent_mark(s, from)]),
        forall|i: int| from <= i < find_exponent_mark(s, from) ==> !is_exponent_mark(s[i]),
    decreases s.len() - from,
{
    if from < s.len() && !is_exponent_mark(s[from]) {
        lemma_find_exponent_mark(s, from + 1);
    }
}

/// A run of digits writes a number below ten to the power of its length.
pub proof fn lemma_digits_value_bound(s: Seq<char>)
    requires
        all_digits(s),
    ensures
        digits_value(s) < pow10(s.len()),
    decreases s.len(),
{
    if s.len() > 0 {
        lemma_digits_value_bound(s.drop_last());
        assert(is_digit(s[s.len() - 1]));
    }
}

/// Digits written after digits: the first run moves up by as many places as
/// the second run has digits.
pub proof fn lemma_digits_value_concat(a: Seq<char>, b: Seq<char>)
    ensures
        digits_value(a + b) == digits_value(a) * pow10(b.len()) + digits_value(b),
    decreases b.len(),
{
    if b.len() == 0 {
        assert(a + b == a);
        assert(digits_value(a) * pow10(0) == digits_value(a)) by (nonlinear_arith)
            requires
                pow10(0) == 1,
        ;
    } else {
        let front = b.drop_last();
        lemma_digits_value_concat(a, front);
        assert((a + b).drop_last() == a + front);
        assert((a + b).last() == b.last());
        assert(pow10(b.len()) == 10 * pow10(front.len()));
        assert((digits_value(a) * pow10(front.len()) + digits_value(front)) * 10 == digits_value(a)
            * (10 * pow10(front.len())) + digits_value(front) * 10) by (nonlinear_arith);
    }
}

/// The powers of ten up to the nineteenth.
pub proof fn lemma_pow10_values()
    ensures
        pow10(0) == 1,
        pow10(1) == 10,
        pow10(2) == 100,
        pow10(3) == 1_000,
        pow10(4) == 10_000,
        pow10(5) == 100_000,
        pow10(6) == 1_000_000,
        pow10(7) == 10_000_000,
        pow10(8) == 100_000_000,
        pow10(9) == 1_000_000_000,
        pow10(10) == 10_000_000_000,
        pow10(11) == 100_000_000_000,
        pow10(12) == 1_000_000_000_000,
        pow10(13) == 10_000_000_000_000,
        pow10(14) == 100_000_000_000_000,
        pow10(15) == 1_000_000_000_000_000,
        pow10(16) == 10_000_000_000_000_000,
        pow10(17) == 100_000_000_000_000_000,
        pow10(18) == 1_000_000_000_000_000_000,
        pow10(19) == 10_000_000_000_000_000_000,
{
    reveal_with_fuel(pow10, 20);
}

/// A larger exponent gives no smaller power of ten.
pub proof fn lemma_pow10_monotonic(a: nat, b: nat)
    requires
        a <= b,
    ensures
        pow10(a) <= pow10(b),
    decreases b,
{
    if a < b {
        lemma_pow10_monotonic(a, (b - 1) as nat);
    }
}

/// Powers of ten multiply by adding their exponents, and none is zero.
pub proof fn lemma_pow10_split(a: nat, b: nat)
    ensures
        pow10(a) * pow10(b) == pow10(a + b),
        pow10(a) > 0,
    decreases a,
{
    if a > 0 {
        let c = (a - 1) as nat;
        lemma_pow10_split(c, b);
        assert(pow10(a + b) == 10 * pow10(c + b));
        assert((10 * pow10(c)) * pow10(b) == 10 * (pow10(c) * pow10(b))) by (nonlinear_arith);
    } else {
        assert(pow10(a) * pow10(b) == pow10(b)) by (nonlinear_arith)
            requires
                pow10(a) == 1,
        ;
    }
}

/// What scaling does to the number that a run of digits writes. Scaled down
/// by as many places as it has digits or more, nothing is left of it; scaled
/// down by fewer, its leading digits are left. Zero stays zero. Scaled up, a
/// number that has reached `LIMIT` stays there, and a number that is not zero
/// reaches it within sixteen places.
pub proof fn lemma_scaled_digits(digits: Seq<char>, shift: int)
    requires
        all_digits(digits),
    ensures
        shift < 0 && -shift >= digits.len() ==> scaled(digits_value(digits), shift) == 0,
        shift < 0 && -shift < digits.len() ==> scaled(digits_value(digits), shift) == digits_value(
            digits.take(digits.len() + shift),
        ),
        digits_value(digits) == 0 ==> scaled(digits_value(digits), shift) == 0,
        shift >= 0 && digits_value(digits) >= LIMIT ==> scaled(digits_value(digits), shift)
            >= LIMIT,
        shift > 15 && digits_value(digits) >= 1 ==> scaled(digits_value(digits), shift) >= LIMIT,
{
    let n = digits_value(digits);
    if shift < 0 {
        let j = (-shift) as nat;
        lemma_pow10_split(j, 0);
        if j >= digits.len() {
            lemma_digits_value_bound(digits);
            lemma_pow10_monotonic(digits.len(), j);
            lemma_basic_div(n as int, pow10(j) as int);
        } else {
            let keep = digits.len() - j;
            let head = digits.take(keep);
            let tail = digits.skip(keep);
            assert(head + tail == digits);
            assert(all_digits(tail)) by {
                assert forall|i: int| 0 <= i < tail.len() implies is_digit(#[trigger] tail[i]) by {
                    assert(tail[i] == digits[keep + i]);
                }
            }
            lemma_digits_value_concat(head, tail);
            lemma_digits_value_bound(tail);
            lemma_fundamental_div_mod_converse(
                n as int,
                pow10(j) as int,
                digits_value(head) as int,
                digits_value(tail) as int,
            );
        }
        if n == 0 {
            lemma_basic_div(0, pow10(j) as int);
        }
    } else {
        let k = shift as nat;
        lemma_pow10_split(k, 0);
        assert(n * pow10(k) >= n) by (nonlinear_arith)
            requires
                pow10(k) >= 1,
        ;
        if n == 0 {
            assert(n * pow10(k) == 0) by (nonlinear_arith)
                requires
                    n == 0,
            ;
        }
        if shift > 15 && n >= 1 {
            lemma_pow10_monotonic(16, k);
            lemma_pow10_values();
            assert(n * pow10(k) >= pow10(16)) by (nonlinear_arith)
                requires
                    n >= 1,
                    pow10(k) >= pow10(16),
            ;
        }
    }
}

/// Whatever `decimal_units` yields lies strictly between `-LIMIT` and `LIMIT`.
pub proof fn lemma_decimal_units_range(s: Seq<char>)
    ensures
        decimal_units(s) matches Some(v) ==> -LIMIT < v < LIMIT,
{
}

/// A numeral without exponent of at most eight characters is held, and
/// exactly: its value is its whole part in ones plus its fraction in the
/// places after the point.
pub proof fn lemma_plain_field_numeral(s: Seq<char>)
    requires
        s.len() <= 8,
        is_numeral(s),
        !has_exponent(unsigned_part(s)),
    ensures
        mantissa_part(unsigned_part(s)) == unsigned_part(s),
        fraction_part(mantissa_part(unsigned_part(s))).len() <= FRACTION_DIGITS,
        digits_value(whole_part(mantissa_part(unsigned_part(s)))) < WHOLE_LIMIT,
        decimal_units(s) == Some(
            signed(
                is_negative(s),
                digits_value(whole_part(mantissa_part(unsigned_part(s)))) * ONE + digits_value(
                    fraction_part(mantissa_part(unsigned_part(s))),
                ) * pow10(
                    (FRACTION_DIGITS - fraction_part(mantissa_part(unsigned_part(s))).len()) as nat,
                ),
            ),
        ),
{
    let body = unsigned_part(s);
    lemma_find_exponent_mark(body, 0);
    assert(mantissa_part(body) == body);
    let whole = whole_part(body);
    let fraction = fraction_part(body);
    lemma_find_from(body, '.', 0);
    let f = fraction.len();
    let e = (FRACTION_DIGITS - f) as nat;
    lemma_digits_value_bound(whole);
    lemma_digits_value_bound(fraction);
    lemma_pow10_monotonic(whole.len(), 8);
    lemma_pow10_values();
    lemma_digits_value_concat(whole, fraction);
    lemma_pow10_split(f, e);
    let w = digits_value(whole);
    let r = digits_value(fraction);
    assert((w * pow10(f) + r) * pow10(e) == w * (pow10(f) * pow10(e)) + r * pow10(e))
        by (nonlinear_arith);
    assert(r * pow10(e) < pow10(f) * pow10(e)) by (nonlinear_arith)
        requires
            r < pow10(f),
            pow10(e) > 0,
    ;
    assert(w * ONE <= (WHOLE_LIMIT - 1) * ONE) by (nonlinear_arith)
        requires
            w <= WHOLE_LIMIT - 1,
    ;
}

/// Whether `c` is one of the ten digits.
pub fn char_is_digit(c: char) -> (b: bool)
    ensures
        b == is_digit(c),
{
    '0' <= c && c <= '9'
}

/// Ten to the power of `n`.
pub fn power_of_ten(n: usize) -> (r: u64)
    requires
        n <= 19,
    ensures
        r == pow10(n as nat),
{
    let mut r: u64 = 1;
    let mut i: usize = 0;
    while i < n
        invariant
            i <= n <= 19,
            r == pow10(i as nat),
        decreases n - i,
    {
        proof {
            lemma_pow10_monotonic(i as nat, 18);
            lemma_pow10_values();
        }
        r = r * 10;
        i += 1;
    }
    r
}

/// Reads the run of digits that `s` holds from `from` on. The run ends at
/// `r.0`, the first place that holds no digit. `r.1` is the number the run
/// writes, or `None` when that number is `limit` or more.
pub fn read_digits(s: &[char], from: usize, limit: u128) -> (r: (usize, Option<u128>))
    requires
        from <= s@.len(),
        limit <= 10_000_000_000_000_000_000_000_000_000_000_000_000,
    ensures
        from <= r.0 <= s@.len(),
        all_digits(s@.subrange(from as int, r.0 as int)),
        r.0 < s@.len() ==> !is_digit(s@[r.0 as int]),
        match r.1 {
            Some(v) => v == digits_value(s@.subrange(from as int, r.0 as int)) && v < limit,
            None => digits_value(s@.subrange(from as int, r.0 as int)) >= limit,
        },
{
    let n = s.len();
    let mut i: usize = from;
    let mut value: u128 = 0;
    let mut exceeded = limit == 0;
    while i < n && char_is_digit(s[i])
        invariant
            from <= i <= n == s@.len(),
            limit <= 10_000_000_000_000_000_000_000_000_000_000_000_000,
            all_digits(s@.subrange(from as int, i as int)),
            !exceeded ==> value == digits_value(s@.subrange(from as int, i as int)) && value
                < limit,
            exceeded ==> digits_value(s@.subrange(from as int, i as int)) >= limit,
        decreases n - i,
    {
        let ghost run = s@.subrange(from as int, i + 1);
        assert(run.drop_last() == s@.subrange(from as int, i as int));
        assert(run.last() == s@[i as int]);
        if !exceeded {
            value = value * 10 + (s[i] as u32 - '0' as u32) as u128;
            if value >= limit {
                exceeded = true;
            }
        }
        i += 1;
    }
    if exceeded {
        (i, None)
    } else {
        (i, Some(value))
    }
}

/// Where the unsigned part of `s` starts: after the sign, if `s` has one.
fn skip_sign(s: &[char]) -> (start: usize)
    ensures
        start == if has_sign(s@) { 1int } else { 0int },
        start <= s@.len(),
        unsigned_part(s@) == s@.subrange(start as int, s@.len() as int),
{
    if s.len() > 0 && (s[0] == '+' || s[0] == '-') {
        1
    } else {
        assert(s@.subrange(0, s@.len() as int) == s@);
        0
    }
}

/// `v`, or the nearer of `-cap` and `cap` where `v` lies beyond them.
pub open spec fn clamped(v: int, cap: int) -> int {
    if v > cap {
        cap
    } else if v < -cap {
        -cap
    } else {
        v
    }
}

/// Reads `s` as an integer and holds it within `-cap..=cap`: `None` where `s`
/// writes no integer.
fn parse_clamped(s: &[char], cap: u128) -> (r: Option<i128>)
    requires
        cap < 1_000_000_000_000_000_000_000_000_000_000_000_000,
    ensures
        match integer_value(s@) {
            Some(v) => r == Some(clamped(v, cap as int) as i128),
            None => r is None,
        },
{
    let n = s.len();
    let start = skip_sign(s);
    let negative = n > 0 && s[0] == '-';
    let (end, magnitude) = read_digits(s, start, cap + 1);
    let ghost body = unsigned_part(s@);
    if end < n {
        assert(body[end - start] == s@[end as int]);
        return None;
    }
    if end == start {
        return None;
    }
    let m: i128 = match magnitude {
        None => cap as i128,
        Some(m) => m as i128,
    };
    if negative {
        Some(-m)
    } else {
        Some(m)
    }
}

/// Reads `s` as an integer of 32 bits: the integer that `s` writes where it
/// writes one that fits, `None` for any other text.
pub fn parse_i32(s: &[char]) -> (r: Option<i32>)
    ensures
        r == match integer_value(s@) {
            Some(v) => if i32::MIN <= v <= i32::MAX {
                Some(v as i32)
            } else {
                None
            },
            None => None,
        },
{
    match parse_clamped(s, 2_147_483_649) {
        None => None,
        Some(v) => {
            if -2_147_483_648 <= v && v <= 2_147_483_647 {
                Some(v as i32)
            } else {
                None
            }
        },
    }
}

/// `v` where it is below `LIMIT`.
spec fn capped(v: nat) -> Option<u128> {
    if v < LIMIT {
        Some(v as u128)
    } else {
        None
    }
}

/// Reads the digits in `from..to` of `s` on to the digits `prefix`, whose
/// number, where it is below `LIMIT`, is `acc`.
fn extend_value(
    s: &[char],
    from: usize,
    to: usize,
    acc: Option<u128>,
    Ghost(prefix): Ghost<Seq<char>>,
) -> (r: Option<u128>)
    requires
        from <= to <= s@.len(),
        all_digits(s@.subrange(from as int, to as int)),
        acc == capped(digits_value(prefix)),
    ensures
        r == capped(digits_value(prefix + s@.subrange(from as int, to as int))),
{
    let mut value = acc;
    let mut i: usize = from;
    assert(prefix + s@.subrange(from as int, from as int) == prefix);
    while i < to
        invariant
            from <= i <= to <= s@.len(),
            all_digits(s@.subrange(from as int, to as int)),
            value == capped(digits_value(prefix + s@.subrange(from as int, i as int))),
        decreases to - i,
    {
        let ghost before = prefix + s@.subrange(from as int, i as int);
        let ghost after = prefix + s@.subrange(from as int, i + 1);
        assert(after.drop_last() == before);
        assert(after.last() == s@[i as int]);
        assert(is_digit(s@.subrange(from as int, to as int)[i - from]));
        value = match value {
            Some(v) => {
                let w = v * 10 + (s[i] as u32 - '0' as u32) as u128;
                if w < 1_000_000_000_000_000 {
                    Some(w)
                } else {
                    None
                }
            },
            None => None,
        };
        i += 1;
    }
    value
}

/// Where the parts of a mantissa lie in a text and whether the mantissa is
/// sound.
struct MantissaShape {
    sound: bool,
    whole_end: usize,
    fraction_start: usize,
    end: usize,
}

/// Finds the mantissa of the unsigned numeral that `s` holds from `start` on:
/// its whole part in `start..whole_end`, its fraction in
/// `fraction_start..end`. It is sound where both are digits only and what
/// follows is the end of `s` or an exponent mark.
fn scan_mantissa(s: &[char], start: usize) -> (shape: MantissaShape)
    requires
        start <= s@.len(),
    ensures
        start <= shape.whole_end <= shape.fraction_start <= shape.end <= s@.len(),
        ({
            let body = s@.subrange(start as int, s@.len() as int);
            let mantissa = mantissa_part(body);
            if shape.sound {
                &&& find_exponent_mark(body, 0) == shape.end - start
                &&& whole_part(mantissa) == s@.subrange(start as int, shape.whole_end as int)
                &&& fraction_part(mantissa) == s@.subrange(
                    shape.fraction_start as int,
                    shape.end as int,
                )
                &&& all_digits(whole_part(mantissa))
                &&& all_digits(fraction_part(mantissa))
            } else {
                !(all_digits(whole_part(mantissa)) && all_digits(fraction_part(mantissa)))
            }
        }),
{
    let n = s.len();
    let ghost body = s@.subrange(start as int, n as int);
    let ghost mantissa = mantissa_part(body);
    let (p, _) = read_digits(s, start, 0);
    let has_point = p < n && s[p] == '.';
    let fraction_start = if has_point {
        p + 1
    } else {
        p
    };
    let (q, _) = read_digits(s, fraction_start, 0);
    proof {
        lemma_find_exponent_mark(body, 0);
        lemma_find_from(mantissa, '.', 0);
        assert forall|i: int| start <= i < q && i != p implies is_digit(s@[i]) by {
            if i < p {
                assert(s@.subrange(start as int, p as int)[i - start] == s@[i]);
            } else {
                assert(s@.subrange(fraction_start as int, q as int)[i - fraction_start] == s@[i]);
            }
        }
        assert(!has_point ==> q == p) by {
            if !has_point && q > p {
                assert(s@.subrange(fraction_start as int, q as int)[0] == s@[p as int]);
            }
        }
        assert forall|i: int| 0 <= i < q - start implies !is_exponent_mark(body[i]) by {
            assert(body[i] == s@[start + i]);
        }
    }
    if q < n && !(s[q] == 'e' || s[q] == 'E') {
        proof {
            assert(body[q - start] == s@[q as int]);
            assert(find_exponent_mark(body, 0) > q - start);
            assert forall|i: int| 0 <= i <= q - start implies mantissa[i] == s@[start + i] by {}
            if has_point {
                assert(mantissa[p - start] == '.');
                assert(find_from(mantissa, '.', 0) == p - start);
                assert(fraction_part(mantissa)[q - p - 1] == s@[q as int]);
            } else {
                assert(find_from(mantissa, '.', 0) > p - start);
                assert(whole_part(mantissa)[p - start] == s@[p as int]);
            }
        }
        return MantissaShape { sound: false, whole_end: p, fraction_start, end: q };
    }
    proof {
        assert(q == n || body[q - start] == s@[q as int]);
        assert(find_exponent_mark(body, 0) == q - start);
        assert(mantissa == s@.subrange(start as int, q as int));
        if has_point {
            assert(mantissa[p - start] == '.');
            assert(find_from(mantissa, '.', 0) == p - start);
        } else {
            assert(find_from(mantissa, '.', 0) == mantissa.len());
        }
        assert(whole_part(mantissa) == s@.subrange(start as int, p as int));
        assert(fraction_part(mantissa) == s@.subrange(fraction_start as int, q as int));
    }
    MantissaShape { sound: true, whole_end: p, fraction_start, end: q }
}

/// The number that the digits in `a..b` and in `c..d` of `s` write together,
/// scaled by `true_shift` places, where it is below `LIMIT`. `shift` is
/// `true_shift`, or stands for one beyond it: above fifteen for one that is
/// larger still, or below all the digits for one that is lower still.
fn scaled_value(
    s: &[char],
    a: usize,
    b: usize,
    c: usize,
    d: usize,
    shift: i128,
    Ghost(true_shift): Ghost<int>,
) -> (r: Option<u128>)
    requires
        a <= b <= c <= d <= s@.len(),
        all_digits(s@.subrange(a as int, b as int)),
        all_digits(s@.subrange(c as int, d as int)),
        -0x4000_0000_0000_0000_0000 < shift < 0x4000_0000_0000_0000_0000,
        true_shift == shift || (shift > 15 && true_shift >= shift) || (shift <= -((b - a) + (d
            - c)) && true_shift <= shift),
    ensures
        r == capped(
            scaled(
                digits_value(s@.subrange(a as int, b as int) + s@.subrange(c as int, d as int)),
                true_shift,
            ),
        ),
{
    let ghost whole = s@.subrange(a as int, b as int);
    let ghost fraction = s@.subrange(c as int, d as int);
    let ghost digits = whole + fraction;
    let whole_len = b - a;
    let total = whole_len + (d - c);
    proof {
        assert(all_digits(digits)) by {
            assert forall|i: int| 0 <= i < digits.len() implies is_digit(#[trigger] digits[i]) by {
                if i < whole.len() {
                    assert(digits[i] == whole[i]);
                } else {
                    assert(digits[i] == fraction[i - whole.len()]);
                }
            }
        }
        lemma_scaled_digits(digits, true_shift);
        assert(Seq::<char>::empty() + whole == whole);
    }
    if shift >= 0 {
        let upto_point = extend_value(s, a, b, Some(0), Ghost(Seq::empty()));
        let all = extend_value(s, c, d, upto_point, Ghost(whole));
        match all {
            None => None,
            Some(v) => {
                if v == 0 {
                    Some(0)
                } else if shift > 15 {
                    None
                } else {
                    let power = power_of_ten(shift as usize);
                    proof {
                        lemma_pow10_monotonic(shift as nat, 15);
                        lemma_pow10_values();
                        assert(v * power <= 1_000_000_000_000_000 * 1_000_000_000_000_000)
                            by (nonlinear_arith)
                            requires
                                v <= 1_000_000_000_000_000,
                                power <= 1_000_000_000_000_000,
                        ;
                    }
                    let m = v * power as u128;
                    if m < 1_000_000_000_000_000 {
                        Some(m)
                    } else {
                        None
                    }
                }
            },
        }
    } else {
        let drop: i128 = -shift;
        if drop >= total as i128 {
            Some(0)
        } else {
            let keep: usize = total - drop as usize;
            if keep <= whole_len {
                proof {
                    let part = s@.subrange(a as int, a + keep);
                    assert(digits.take(keep as int) == Seq::<char>::empty() + part);
                    assert forall|i: int| 0 <= i < part.len() implies is_digit(
                        #[trigger] part[i],
                    ) by {
                        assert(whole[i] == part[i]);
                    }
                }
                extend_value(s, a, a + keep, Some(0), Ghost(Seq::empty()))
            } else {
                let upto_point = extend_value(s, a, b, Some(0), Ghost(Seq::empty()));
                let rest = keep - whole_len;
                proof {
                    let part = s@.subrange(c as int, c + rest);
                    assert(digits.take(keep as int) == whole + part);
                    assert forall|i: int| 0 <= i < part.len() implies is_digit(
                        #[trigger] part[i],
                    ) by {
                        assert(fraction[i] == part[i]);
                    }
                }
                extend_value(s, c, c + rest, upto_point, Ghost(whole))
            }
        }
    }
}

/// Reads `s` as a decimal numeral in fixed point: the value of `s` where `s`
/// is a numeral of a magnitude below `LIMIT`, cut off toward zero to a whole
/// number of units; `None` for any other text.
pub fn parse_decimal(s: &[char]) -> (r: Option<Fixed>)
    ensures
        match r {
            Some(v) => decimal_units(s@) == Some(v as int),
            None => decimal_units(s@) is None,
        },
{
    let n = s.len();
    let start = skip_sign(s);
    let negative = n > 0 && s[0] == '-';
    let ghost body = unsigned_part(s@);
    let shape = scan_mantissa(s, start);
    if !shape.sound {
        return None;
    }
    let fraction_len = shape.end - shape.fraction_start;
    if (shape.whole_end - start) + fraction_len == 0 {
        return None;
    }
    let cap: u128 = n as u128 + 32;
    let exponent: i128 = if shape.end < n {
        assert(exponent_part(body) == s@.subrange(shape.end + 1, n as int));
        match parse_clamped(slice_subrange(s, shape.end + 1, n), cap) {
            Some(x) => x,
            None => {
                return None;
            },
        }
    } else {
        0
    };
    assert(is_numeral(s@));
    assert(exponent == clamped(exponent_of(s@), cap as int));
    let shift: i128 = exponent + 7 - fraction_len as i128;
    let ghost true_shift = exponent_of(s@) + FRACTION_DIGITS - fraction_len;
    let magnitude = scaled_value(
        s,
        start,
        shape.whole_end,
        shape.fraction_start,
        shape.end,
        shift,
        Ghost(true_shift),
    );
    assert(magnitude == capped(numeral_magnitude(s@)));
    match magnitude {
        None => None,
        Some(m) => {
            if negative {
                Some(-(m as i64))
            } else {
                Some(m as i64)
            }
        },
    }
}

} // verus!
