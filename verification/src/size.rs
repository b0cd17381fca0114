//! Sizes as the site writes them: a decimal number, a space and a binary unit.

use vstd::prelude::*;
use vstd::arithmetic::div_mod::{
    lemma_basic_div, lemma_div_denominator, lemma_fundamental_div_mod,
    lemma_fundamental_div_mod_converse, lemma_hoist_over_denominator, lemma_mod_bound,
};
use crate::text::{
    all_digits, chars_of, digit_value, digits_only, digits_to_u64, digits_value, first_index,
    is_digit, lemma_first_index_is, pow10, same_chars,
};

verus! {

/// The number of bytes in one unit of the given name: the binary multiples
/// from `Bytes` (1024 to the power 0) to `TiB` (1024 to the power 4).
pub open spec fn unit_factor(unit: Seq<char>) -> Option<nat> {
    if unit == "Bytes"@ {
        Some(1)
    } else if unit == "KiB"@ {
        Some(1024)
    } else if unit == "MiB"@ {
        Some(1_048_576)
    } else if unit == "GiB"@ {
        Some(1_073_741_824)
    } else if unit == "TiB"@ {
        Some(1_099_511_627_776)
    } else {
        None
    }
}

/// Whether the number `s` is written with a minus sign.
pub open spec fn is_negative(s: Seq<char>) -> bool {
    s.len() > 0 && s[0] == '-'
}

/// The number `s` without its sign, if it has one.
pub open spec fn unsigned_part(s: Seq<char>) -> Seq<char> {
    if s.len() > 0 && (s[0] == '+' || s[0] == '-') {
        s.drop_first()
    } else {
        s
    }
}

/// The place of the exponent's mark in the unsigned number `u`: that of its
/// first `e` or `E`, or the length of `u` if it has neither.
pub open spec fn exponent_mark(u: Seq<char>) -> int {
    if first_index(u, 'e') <= first_index(u, 'E') {
        first_index(u, 'e')
    } else {
        first_index(u, 'E')
    }
}

/// Whether the number `s` is written with an exponent.
pub open spec fn has_exponent(s: Seq<char>) -> bool {
    exponent_mark(unsigned_part(s)) < unsigned_part(s).len()
}

/// The number `s` without its sign and its exponent.
pub open spec fn mantissa(s: Seq<char>) -> Seq<char> {
    let u = unsigned_part(s);
    u.take(exponent_mark(u))
}

/// What follows the exponent's mark in `s`; nothing if `s` has no exponent.
pub open spec fn exponent(s: Seq<char>) -> Seq<char> {
    let u = unsigned_part(s);
    if has_exponent(s) {
        u.skip(exponent_mark(u) + 1)
    } else {
        Seq::empty()
    }
}

/// The digits of `s` before its decimal point.
pub open spec fn whole_digits(s: Seq<char>) -> Seq<char> {
    let m = mantissa(s);
    m.take(first_index(m, '.'))
}

/// The digits of `s` after its decimal point; none if it has no point.
pub open spec fn fraction_digits(s: Seq<char>) -> Seq<char> {
    let m = mantissa(s);
    let dot = first_index(m, '.');
    if dot < m.len() {
        m.skip(dot + 1)
    } else {
        Seq::empty()
    }
}

/// The digits of the exponent of `s`.
pub open spec fn exponent_digits(s: Seq<char>) -> Seq<char> {
    unsigned_part(exponent(s))
}

/// The exponent of `s`: the power of ten that its digits are to be
/// multiplied by. Without an exponent it is 0.
pub open spec fn exponent_value(s: Seq<char>) -> int {
    if is_negative(exponent(s)) {
        -(digits_value(exponent_digits(s)) as int)
    } else {
        digits_value(exponent_digits(s)) as int
    }
}

/// Whether `s` writes a decimal number: an optional sign; digits, and
/// optionally a point and more digits, with at least one digit in all; and
/// optionally an exponent, which is an `e` or `E`, an optional sign, and one
/// digit or more.
pub open spec fn is_decimal(s: Seq<char>) -> bool {
    &&& all_digits(whole_digits(s))
    &&& all_digits(fraction_digits(s))
    &&& whole_digits(s).len() + fraction_digits(s).len() > 0
    &&& has_exponent(s) ==> exponent_digits(s).len() > 0 && all_digits(exponent_digits(s))
}

/// The fraction `numerator / denominator` rounded to the nearest integer,
/// a half rounded up.
pub open spec fn round_half_up(numerator: nat, denominator: nat) -> nat {
    (2 * numerator + denominator) / (2 * denominator)
}

/// All digits of `s`, those before the point and those after it.
pub open spec fn mantissa_digits(s: Seq<char>) -> Seq<char> {
    whole_digits(s) + fraction_digits(s)
}

/// By how many places the exponent of `s` moves the decimal point past the
/// last digit of `s`: the exponent less the number of digits after the
/// point.
pub open spec fn point_shift(s: Seq<char>) -> int {
    exponent_value(s) - fraction_digits(s).len()
}

/// The number that the digits `digits` write, times ten to the power
/// `shift`, times `factor`, rounded to the nearest integer.
pub open spec fn shifted_product(digits: Seq<char>, shift: int, factor: nat) -> nat {
    if shift >= 0 {
        digits_value(digits) * pow10(shift as nat) * factor
    } else {
        round_half_up(digits_value(digits) * factor, pow10((-shift) as nat))
    }
}

/// The absolute value of the decimal number `s` times `factor`, rounded to
/// the nearest integer.
pub open spec fn rounded_product(s: Seq<char>, factor: nat) -> nat {
    shifted_product(mantissa_digits(s), point_shift(s), factor)
}

/// The number `n` brought into the range of a `u64`.
pub open spec fn saturated(n: nat) -> u64 {
    if n > u64::MAX {
        u64::MAX
    } else {
        n as u64
    }
}

/// The decimal number `s` times `factor`, rounded to the nearest integer and
/// brought into the range of a `u64`: a negative number gives 0, a product
/// beyond the range gives `u64::MAX`.
pub open spec fn scaled_size(s: Seq<char>, factor: nat) -> u64 {
    if is_negative(s) {
        0
    } else {
        saturated(rounded_product(s, factor))
    }
}

/// The number of a size text: what stands before its first space.
pub open spec fn number_token(text: Seq<char>) -> Seq<char> {
    text.take(first_index(text, ' '))
}

/// The unit of a size text: what stands between its first space and the
/// next one, or the end.
pub open spec fn unit_token(text: Seq<char>) -> Seq<char> {
    let rest = text.skip(first_index(text, ' ') + 1);
    rest.take(first_index(rest, ' '))
}

/// The byte count that the text `"<number> <unit>"` stands for. There is
/// none if the text has no space, the number is no decimal number, or the
/// unit is not one of the five of [`unit_factor`]. What follows a second
/// space is not read.
pub open spec fn size_of_text(text: Seq<char>) -> Option<u64> {
    if first_index(text, ' ') < text.len() && is_decimal(number_token(text)) && unit_factor(
        unit_token(text),
    ) is Some {
        Some(scaled_size(number_token(text), unit_factor(unit_token(text))->0))
    } else {
        None
    }
}

/// Ten to any power is positive.
pub proof fn lemma_pow10_positive(n: nat)
    ensures
        pow10(n) > 0,
    decreases n,
{
    if n > 0 {
        lemma_pow10_positive((n - 1) as nat);
    }
}

/// A number is its first digit, shifted, plus the number that the other
/// digits write.
pub proof fn lemma_digits_value_front(s: Seq<char>)
    requires
        s.len() > 0,
    ensures
        digits_value(s) == digit_value(s[0]) * pow10((s.len() - 1) as nat) + digits_value(
            s.drop_first(),
        ),
    decreases s.len(),
{
    let d = digit_value(s[0]) as int;
    let l = digit_value(s.last()) as int;
    let init = s.drop_last();
    let tail = s.drop_first();
    assert(digits_value(s) == 10 * digits_value(init) + l);
    if s.len() == 1 {
        assert(init =~= Seq::<char>::empty());
        assert(tail =~= Seq::<char>::empty());
        assert(digits_value(init) == 0);
        assert(digits_value(tail) == 0);
        assert(s.last() == s[0]);
        assert(pow10(0) == 1);
        assert(d * 1 == d);
    } else {
        lemma_digits_value_front(init);
        assert(init.drop_first() =~= tail.drop_last());
        assert(init[0] == s[0]);
        assert(tail.last() == s.last());
        let p = pow10((s.len() - 2) as nat) as int;
        let q = pow10((s.len() - 1) as nat) as int;
        let x = digits_value(init.drop_first()) as int;
        assert(q == 10 * p);
        assert(digits_value(init) == d * p + x);
        assert(digits_value(tail) == 10 * x + l);
        assert(10 * (d * p + x) + l == d * q + (10 * x + l)) by (nonlinear_arith)
            requires
                q == 10 * p,
        ;
    }
}

/// Ten to a sum is the product of ten to each part.
pub proof fn lemma_pow10_add(a: nat, b: nat)
    ensures
        pow10(a + b) == pow10(a) * pow10(b),
    decreases a,
{
    if a == 0 {
        assert(pow10(0) == 1);
        assert(1 * pow10(b) == pow10(b));
    } else {
        lemma_pow10_add((a - 1) as nat, b);
        assert(pow10(a + b) == 10 * pow10((a - 1 + b) as nat));
        assert(10 * (pow10((a - 1) as nat) * pow10(b)) == (10 * pow10((a - 1) as nat)) * pow10(b))
            by (nonlinear_arith);
    }
}

/// Ten to a greater power is not less.
pub proof fn lemma_pow10_monotone(a: nat, b: nat)
    requires
        a <= b,
    ensures
        pow10(a) <= pow10(b),
{
    lemma_pow10_add(a, (b - a) as nat);
    lemma_pow10_positive(a);
    lemma_pow10_positive((b - a) as nat);
    assert(pow10(a) * pow10((b - a) as nat) >= pow10(a)) by (nonlinear_arith)
        requires
            pow10((b - a) as nat) >= 1,
            pow10(a) >= 1,
    ;
}

/// Digits written after others shift those by one place each.
pub proof fn lemma_digits_value_concat(a: Seq<char>, b: Seq<char>)
    ensures
        digits_value(a + b) == digits_value(a) * pow10(b.len()) + digits_value(b),
    decreases b.len(),
{
    if b.len() == 0 {
        assert(a + b =~= a);
        assert(pow10(0) == 1);
        assert(digits_value(a) * 1 == digits_value(a));
    } else {
        let init = b.drop_last();
        lemma_digits_value_concat(a, init);
        assert((a + b).drop_last() =~= a + init);
        assert((a + b).last() == b.last());
        let x = digits_value(a) as int;
        let p = pow10(init.len()) as int;
        let y = digits_value(init) as int;
        let l = digit_value(b.last()) as int;
        assert(pow10(b.len()) == 10 * p);
        assert(digits_value(a + b) == 10 * (x * p + y) + l);
        assert(digits_value(b) == 10 * y + l);
        assert(10 * (x * p + y) + l == x * (10 * p) + (10 * y + l)) by (nonlinear_arith);
    }
}

/// A number of so many digits is less than ten to that many.
pub proof fn lemma_digits_value_bound(s: Seq<char>)
    requires
        all_digits(s),
    ensures
        digits_value(s) < pow10(s.len()),
    decreases s.len(),
{
    if s.len() == 0 {
        assert(pow10(0) == 1);
    } else {
        let init = s.drop_last();
        assert(all_digits(init)) by {
            assert forall|i: int| 0 <= i < init.len() implies is_digit(#[trigger] init[i]) by {
                assert(init[i] == s[i]);
            }
        }
        lemma_digits_value_bound(init);
        assert(is_digit(s.last()));
        assert(digit_value(s.last()) <= 9);
        assert(pow10(s.len()) == 10 * pow10(init.len()));
    }
}

/// Rounding a whole number leaves it as it is.
pub proof fn lemma_round_whole(n: nat)
    ensures
        round_half_up(n, 1) == n,
{
    lemma_fundamental_div_mod_converse((2 * n + 1) as int, 2, n as int, 1);
}

/// A product that is small against what it is divided by rounds to nothing.
pub proof fn lemma_round_small(value: nat, digits: nat, factor: nat, down: nat)
    requires
        value < pow10(digits),
        factor <= 1_099_511_627_776,
        down >= digits + 14,
    ensures
        round_half_up(value * factor, pow10(down)) == 0,
{
    let p = pow10(digits) as int;
    let q = pow10(14) as int;
    let d = pow10(down) as int;
    assert(q == 100_000_000_000_000) by {
        reveal_with_fuel(pow10, 15);
    }
    lemma_pow10_add(digits, 14);
    lemma_pow10_monotone(digits + 14, down);
    lemma_pow10_positive(digits);
    assert(2 * (value * factor) < p * q) by (nonlinear_arith)
        requires
            0 <= value < p,
            0 <= factor <= 1_099_511_627_776,
            q == 100_000_000_000_000,
    ;
    assert(p * q <= d);
    lemma_basic_div(2 * (value * factor) + d, 2 * d);
}

/// A number that is not zero, moved up by twenty places or more, is beyond
/// the range of a `u64`, however far it is moved.
pub proof fn lemma_far_up(value: nat, up: nat, factor: nat)
    requires
        value >= 1,
        factor >= 1,
        up >= 20,
    ensures
        value * pow10(up) * factor > u64::MAX,
{
    let q = pow10(20) as int;
    assert(q == 100_000_000_000_000_000_000) by {
        reveal_with_fuel(pow10, 21);
    }
    lemma_pow10_monotone(20, up);
    let p = pow10(up) as int;
    assert(value * p * factor >= p) by (nonlinear_arith)
        requires
            value >= 1,
            factor >= 1,
            p >= 0,
    ;
}

/// Rounding a number with a whole part rounds its fraction only.
pub proof fn lemma_round_split(whole: nat, fraction: nat, factor: nat, scale: nat)
    requires
        scale > 0,
    ensures
        round_half_up((whole * scale + fraction) * factor, scale) == whole * factor
            + round_half_up(fraction * factor, scale),
{
    let x = (2 * (fraction * factor) + scale) as int;
    let j = (whole * factor) as int;
    let d = (2 * scale) as nat;
    assert(2 * ((whole * scale + fraction) * factor) + scale == x + j * d) by (nonlinear_arith)
        requires
            x == 2 * (fraction * factor) + scale,
            j == whole * factor,
            d == 2 * scale,
    ;
    lemma_hoist_over_denominator(x, j, d);
}

/// How the floor of a scaled number follows from its first digit and the
/// floor of the scaled rest.
pub proof fn lemma_floor_front(digit: nat, rest: nat, scale: nat, factor: nat)
    requires
        scale > 0,
    ensures
        ((digit * scale + rest) * factor) / (10 * scale) == (digit * factor + (rest * factor)
            / scale) / 10,
{
    let x = ((digit * scale + rest) * factor) as int;
    let y = (rest * factor) as int;
    let j = (digit * factor) as int;
    assert(x == y + j * scale) by (nonlinear_arith)
        requires
            x == (digit * scale + rest) * factor,
            y == rest * factor,
            j == digit * factor,
    ;
    lemma_hoist_over_denominator(y, j, scale);
    lemma_div_denominator(x, scale as int, 10);
    assert(scale * 10 == 10 * scale);
}

/// How the rounding of a scaled number follows from its first digit and the
/// floor of the scaled rest.
pub proof fn lemma_round_front(digit: nat, rest: nat, scale: nat, factor: nat)
    requires
        scale > 0,
    ensures
        round_half_up((digit * scale + rest) * factor, 10 * scale) == (digit * factor + (rest
            * factor) / scale + 5) / 10,
{
    let n = ((digit * scale + rest) * factor) as int;
    let y = (rest * factor) as int;
    let j = (digit * factor + 5) as int;
    let d = (2 * scale) as nat;
    assert(2 * n + 10 * scale == 2 * y + j * d) by (nonlinear_arith)
        requires
            n == (digit * scale + rest) * factor,
            y == rest * factor,
            j == digit * factor + 5,
            d == 2 * scale,
    ;
    lemma_hoist_over_denominator(2 * y, j, d);
    lemma_div_denominator(2 * y + j * d, d as int, 10);
    assert(d * 10 == 2 * (10 * scale));
    lemma_div_denominator(2 * y, 2, scale as int);
    assert((2 * y) / 2 == y);
    assert(2 * scale == d);
}

/// Rounding picks the nearest integer: the rounded fraction lies no more
/// than a half above what it rounds, and less than a half below it.
pub proof fn lemma_round_half_up_nearest(numerator: nat, denominator: nat)
    requires
        denominator > 0,
    ensures
        2 * numerator - denominator < 2 * (round_half_up(numerator, denominator) * denominator)
            <= 2 * numerator + denominator,
{
    let x = (2 * numerator + denominator) as int;
    let d = (2 * denominator) as int;
    lemma_fundamental_div_mod(x, d);
    lemma_mod_bound(x, d);
    assert(d * (x / d) == 2 * ((x / d) * denominator)) by (nonlinear_arith)
        requires
            d == 2 * denominator,
    ;
}

/// A number, a space and a unit are read as that number times the unit's
/// bytes, rounded: the size of `"<number> <unit>"` is the rounded product
/// for each of the five units, and there is none for any other unit, nor
/// for what is no decimal number.
pub proof fn lemma_size_of_number_and_unit(number: Seq<char>, unit: Seq<char>)
    requires
        forall|i: int| 0 <= i < number.len() ==> number[i] != ' ',
        forall|i: int| 0 <= i < unit.len() ==> unit[i] != ' ',
    ensures
        size_of_text(number + seq![' '] + unit) == if is_decimal(number) && unit_factor(unit)
            is Some {
            Some(scaled_size(number, unit_factor(unit)->0))
        } else {
            None
        },
{
    let text = number + seq![' '] + unit;
    lemma_first_index_is(text, ' ', number.len() as int);
    assert(number_token(text) =~= number);
    let rest = text.skip(number.len() as int + 1);
    assert(rest =~= unit);
    lemma_first_index_is(rest, ' ', unit.len() as int);
    assert(unit_token(text) =~= unit);
}

/// The position of the first `c` among the characters of `s` from `start`
/// up to `end`, or `end` if there is none.
fn find_char(s: &Vec<char>, start: usize, end: usize, c: char) -> (r: usize)
    requires
        start <= end <= s.len(),
    ensures
        start <= r <= end,
        r - start == first_index(s@.subrange(start as int, end as int), c),
{
    let ghost part = s@.subrange(start as int, end as int);
    let mut i: usize = start;
    while i < end && s[i] != c
        invariant
            start <= i <= end <= s.len(),
            part == s@.subrange(start as int, end as int),
            forall|j: int| 0 <= j < i - start ==> part[j] != c,
        decreases end - i,
    {
        i += 1;
    }
    proof {
        lemma_first_index_is(part, c, i - start);
    }
    i
}

/// The number of bytes in one unit whose name is the characters of `s`
/// from `start` up to `end`.
fn unit_multiplier(s: &Vec<char>, start: usize, end: usize) -> (r: Option<u64>)
    requires
        start <= end <= s.len(),
    ensures
        match r {
            Some(f) => unit_factor(s@.subrange(start as int, end as int)) == Some(f as nat),
            None => unit_factor(s@.subrange(start as int, end as int)) is None,
        },
{
    let mut unit: Vec<char> = Vec::new();
    let mut i: usize = start;
    while i < end
        invariant
            start <= i <= end <= s.len(),
            unit@ == s@.subrange(start as int, i as int),
        decreases end - i,
    {
        unit.push(s[i]);
        assert(s@.subrange(start as int, i as int).push(s@[i as int]) =~= s@.subrange(
            start as int,
            i + 1,
        ));
        i += 1;
    }
    if same_chars(&unit, &chars_of("Bytes")) {
        Some(1)
    } else if same_chars(&unit, &chars_of("KiB")) {
        Some(1_024)
    } else if same_chars(&unit, &chars_of("MiB")) {
        Some(1_048_576)
    } else if same_chars(&unit, &chars_of("GiB")) {
        Some(1_073_741_824)
    } else if same_chars(&unit, &chars_of("TiB")) {
        Some(1_099_511_627_776)
    } else {
        None
    }
}

/// The fraction written by the digits of `s` from `start` up to `end`,
/// times `factor`, rounded to the nearest integer.
fn fraction_product(s: &Vec<char>, start: usize, end: usize, factor: u64) -> (r: u64)
    requires
        start <= end <= s.len(),
        all_digits(s@.subrange(start as int, end as int)),
        factor <= 1_099_511_627_776,
    ensures
        r == round_half_up(
            digits_value(s@.subrange(start as int, end as int)) * (factor as nat),
            pow10((end - start) as nat),
        ),
        r <= factor,
{
    let ghost part = s@.subrange(start as int, end as int);
    if start == end {
        assert(part =~= Seq::<char>::empty());
        assert(digits_value(part) == 0);
        assert(digits_value(part) * (factor as nat) == 0);
        assert(pow10(0) == 1);
        assert(round_half_up(0, 1) == 0) by {
            lemma_basic_div(1, 2);
        }
        return 0;
    }
    // From the last digit to the second, keep the floor of what the digits
    // read so far contribute; the first digit then decides the rounding.
    let mut floor: u64 = 0;
    let mut i: usize = end;
    proof {
        assert(part.skip(end - start) =~= Seq::<char>::empty());
        assert(digits_value(part.skip(end - start)) == 0);
        assert(pow10(0) == 1);
    }
    while i > start + 1
        invariant
            start < i <= end <= s.len(),
            part == s@.subrange(start as int, end as int),
            all_digits(part),
            factor <= 1_099_511_627_776,
            floor <= factor,
            floor == (digits_value(part.skip(i - start)) * (factor as nat)) / pow10(
                (end - i) as nat,
            ),
        decreases i,
    {
        i -= 1;
        let c = s[i];
        proof {
            let tail = part.skip(i - start);
            assert(tail[0] == c);
            assert(part[i - start] == c);
            assert(is_digit(c));
            assert(tail.drop_first() =~= part.skip(i - start + 1));
            lemma_digits_value_front(tail);
            lemma_pow10_positive((end - i - 1) as nat);
            lemma_floor_front(
                digit_value(c),
                digits_value(tail.drop_first()),
                pow10((end - i - 1) as nat),
                factor as nat,
            );
        }
        let d: u64 = (c as u32 - '0' as u32) as u64;
        assert(d * factor <= 9 * factor) by (nonlinear_arith)
            requires
                d <= 9,
        ;
        floor = (d * factor + floor) / 10;
    }
    let c = s[start];
    proof {
        assert(part.skip(0) =~= part);
        assert(part[0] == c);
        assert(is_digit(c));
        assert(part.drop_first() =~= part.skip(1));
        lemma_digits_value_front(part);
        lemma_pow10_positive((end - start - 1) as nat);
        lemma_round_front(
            digit_value(c),
            digits_value(part.drop_first()),
            pow10((end - start - 1) as nat),
            factor as nat,
        );
    }
    let d: u64 = (c as u32 - '0' as u32) as u64;
    assert(d * factor <= 9 * factor) by (nonlinear_arith)
        requires
            d <= 9,
    ;
    (d * factor + floor + 5) / 10
}

/// A number beyond the range of a `u64` has twenty digits or more.
proof fn lemma_long_number(digits: Seq<char>)
    requires
        all_digits(digits),
        digits_value(digits) > u64::MAX,
    ensures
        digits.len() >= 20,
{
    lemma_digits_value_bound(digits);
    if digits.len() <= 19 {
        lemma_pow10_monotone(digits.len(), 19);
        assert(pow10(19) == 10_000_000_000_000_000_000) by {
            reveal_with_fuel(pow10, 20);
        }
    }
}

/// Every part of a sequence of digits is a sequence of digits.
proof fn lemma_digits_part(digits: Seq<char>, from: int, to: int)
    requires
        all_digits(digits),
        0 <= from <= to <= digits.len(),
    ensures
        all_digits(digits.subrange(from, to)),
{
    let part = digits.subrange(from, to);
    assert forall|i: int| 0 <= i < part.len() implies is_digit(#[trigger] part[i]) by {
        assert(part[i] == digits[from + i]);
    }
}

/// Appends the characters of `s` from `start` up to `end` to `out`.
fn copy_range(s: &Vec<char>, start: usize, end: usize, out: &mut Vec<char>)
    requires
        start <= end <= s.len(),
    ensures
        final(out)@ == old(out)@ + s@.subrange(start as int, end as int),
{
    let ghost before = out@;
    let mut i: usize = start;
    assert(out@ =~= before + s@.subrange(start as int, start as int));
    while i < end
        invariant
            start <= i <= end <= s.len(),
            out@ == before + s@.subrange(start as int, i as int),
        decreases end - i,
    {
        out.push(s[i]);
        assert(out@ =~= before + s@.subrange(start as int, i + 1));
        i += 1;
    }
}

/// The number that `digits` write, times ten to the power `up`, times
/// `factor`, in the range of a `u64`.
fn scaled_up(digits: &Vec<char>, up: u64, factor: u64) -> (r: u64)
    requires
        all_digits(digits@),
        1 <= factor <= 1_099_511_627_776,
    ensures
        r == saturated(shifted_product(digits@, up as int, factor as nat)),
{
    let ghost value = digits_value(digits@);
    assert(digits@.subrange(0, digits@.len() as int) =~= digits@);
    match digits_to_u64(digits, 0, digits.len()) {
        None => {
            proof {
                lemma_pow10_positive(up as nat);
                let p = pow10(up as nat);
                assert(value * p * (factor as nat) >= value) by (nonlinear_arith)
                    requires
                        p >= 1,
                        factor >= 1,
                ;
            }
            u64::MAX
        },
        Some(first) => {
            let mut v: u64 = first;
            let mut k: u64 = 0;
            proof {
                assert(pow10(0) == 1);
                assert(value * 1 == value);
            }
            while k < up && v != 0 && v <= u64::MAX / 10
                invariant
                    k <= up,
                    v == value * pow10(k as nat),
                decreases up - k,
            {
                proof {
                    let p = pow10(k as nat);
                    assert(pow10((k + 1) as nat) == 10 * p);
                    assert(value * (10 * p) == 10 * (value * p)) by (nonlinear_arith);
                }
                v = v * 10;
                k += 1;
            }
            let ghost reached = pow10(k as nat);
            let ghost full = pow10(up as nat);
            proof {
                lemma_pow10_positive(k as nat);
                lemma_pow10_positive(up as nat);
            }
            if v == 0 {
                proof {
                    assert(value == 0) by (nonlinear_arith)
                        requires
                            value * reached == 0,
                            reached >= 1,
                    ;
                    assert(value * full * (factor as nat) == 0) by (nonlinear_arith)
                        requires
                            value == 0,
                    ;
                }
                0
            } else if k < up {
                proof {
                    lemma_pow10_monotone((k + 1) as nat, up as nat);
                    assert(pow10((k + 1) as nat) == 10 * reached);
                    assert(value * full * (factor as nat) >= 10 * (value * reached))
                        by (nonlinear_arith)
                        requires
                            full >= 10 * reached,
                            factor >= 1,
                    ;
                }
                u64::MAX
            } else {
                assert(v * factor <= 0xffff_ffff_ffff_ffff * 1_099_511_627_776)
                    by (nonlinear_arith)
                    requires
                        v <= 0xffff_ffff_ffff_ffff,
                        factor <= 1_099_511_627_776,
                ;
                let total: u128 = v as u128 * factor as u128;
                if total > u64::MAX as u128 {
                    u64::MAX
                } else {
                    total as u64
                }
            }
        },
    }
}

/// The number that `digits` write, with its last `down` digits after the
/// point, times `factor`, rounded, in the range of a `u64`.
fn scaled_down(digits: &Vec<char>, down: usize, factor: u64) -> (r: u64)
    requires
        all_digits(digits@),
        1 <= factor <= 1_099_511_627_776,
        down <= digits.len(),
    ensures
        r == saturated(
            round_half_up(digits_value(digits@) * (factor as nat), pow10(down as nat)),
        ),
{
    let n = digits.len();
    let split = n - down;
    let ghost whole = digits@.subrange(0, split as int);
    let ghost fraction = digits@.subrange(split as int, n as int);
    let ghost scale = pow10(down as nat);
    proof {
        assert(digits@ =~= whole + fraction);
        lemma_digits_value_concat(whole, fraction);
        lemma_digits_part(digits@, 0, split as int);
        lemma_digits_part(digits@, split as int, n as int);
        lemma_pow10_positive(down as nat);
        lemma_round_split(digits_value(whole), digits_value(fraction), factor as nat, scale);
    }
    let rounded = fraction_product(digits, split, n, factor);
    match digits_to_u64(digits, 0, split) {
        Some(w) => {
            assert(w * factor <= 0xffff_ffff_ffff_ffff * 1_099_511_627_776) by (nonlinear_arith)
                requires
                    w <= 0xffff_ffff_ffff_ffff,
                    factor <= 1_099_511_627_776,
            ;
            let total: u128 = w as u128 * factor as u128 + rounded as u128;
            if total > u64::MAX as u128 {
                u64::MAX
            } else {
                total as u64
            }
        },
        None => {
            proof {
                let w = digits_value(whole);
                assert(w * (factor as nat) >= w) by (nonlinear_arith)
                    requires
                        factor >= 1,
                ;
            }
            u64::MAX
        },
    }
}

/// The number that `digits` write, with all its digits and `zeros` zeros
/// before them after the point, times `factor`, rounded.
fn scaled_far_down(digits: &Vec<char>, zeros: usize, factor: u64) -> (r: u64)
    requires
        all_digits(digits@),
        1 <= factor <= 1_099_511_627_776,
        zeros < 14,
    ensures
        r == round_half_up(
            digits_value(digits@) * (factor as nat),
            pow10((digits@.len() + zeros) as nat),
        ),
{
    let mut padded: Vec<char> = Vec::new();
    let mut k: usize = 0;
    while k < zeros
        invariant
            k <= zeros,
            padded@.len() == k,
            all_digits(padded@),
            digits_value(padded@) == 0,
        decreases zeros - k,
    {
        let ghost before = padded@;
        padded.push('0');
        proof {
            assert(padded@.drop_last() =~= before);
            assert(padded@.last() == '0');
            assert forall|i: int| 0 <= i < padded@.len() implies is_digit(
                #[trigger] padded@[i],
            ) by {
                if i < before.len() {
                    assert(padded@[i] == before[i]);
                }
            }
        }
        k += 1;
    }
    let ghost lead = padded@;
    copy_range(digits, 0, digits.len(), &mut padded);
    proof {
        assert(digits@.subrange(0, digits@.len() as int) =~= digits@);
        lemma_digits_value_concat(lead, digits@);
        assert(0 * pow10(digits@.len()) == 0);
        assert forall|i: int| 0 <= i < padded@.len() implies is_digit(#[trigger] padded@[i]) by {
            if i < lead.len() {
                assert(padded@[i] == lead[i]);
            } else {
                assert(padded@[i] == digits@[i - lead.len()]);
            }
        }
        assert(padded@.subrange(0, padded@.len() as int) =~= padded@);
    }
    fraction_product(&padded, 0, padded.len(), factor)
}

/// The number that `digits` write, the last `fraction_len` of them after the
/// point, times ten to the power of the exponent, times `factor`, rounded,
/// in the range of a `u64`. The exponent is `power`, taken as negative if
/// `negative` says so; `magnitude` is `power` where it fits in a `u64`.
fn moved_product(
    digits: &Vec<char>,
    whole_len: usize,
    fraction_len: usize,
    negative: bool,
    magnitude: Option<u64>,
    factor: u64,
    Ghost(power): Ghost<nat>,
) -> (r: u64)
    requires
        all_digits(digits@),
        digits@.len() == whole_len + fraction_len,
        1 <= factor <= 1_099_511_627_776,
        magnitude matches Some(m) ==> m == power,
        magnitude is None ==> power >= fraction_len + 20 && power >= whole_len + 14,
    ensures
        r == saturated(
            shifted_product(
                digits@,
                if negative {
                    -(power as int) - fraction_len
                } else {
                    power - fraction_len
                },
                factor as nat,
            ),
        ),
{
    let ghost value = digits_value(digits@);
    proof {
        lemma_digits_value_bound(digits@);
    }
    if !negative {
        match magnitude {
            None => {
                proof {
                    let up = (power - fraction_len) as nat;
                    if value >= 1 {
                        lemma_far_up(value, up, factor as nat);
                        lemma_far_up(value, 20, factor as nat);
                    } else {
                        assert(value * pow10(up) * (factor as nat) == 0) by (nonlinear_arith)
                            requires
                                value == 0,
                        ;
                        assert(value * pow10(20) * (factor as nat) == 0) by (nonlinear_arith)
                            requires
                                value == 0,
                        ;
                    }
                }
                scaled_up(digits, 20, factor)
            },
            Some(m) => {
                if m >= fraction_len as u64 {
                    scaled_up(digits, m - fraction_len as u64, factor)
                } else {
                    scaled_down(digits, fraction_len - m as usize, factor)
                }
            },
        }
    } else {
        match magnitude {
            None => {
                proof {
                    lemma_round_small(
                        value,
                        digits@.len(),
                        factor as nat,
                        (power + fraction_len) as nat,
                    );
                }
                0
            },
            Some(m) => {
                if m <= whole_len as u64 {
                    proof {
                        if m == 0 && fraction_len == 0 {
                            assert(pow10(0) == 1);
                            lemma_round_whole(value * (factor as nat));
                            assert(value * 1 * (factor as nat) == value * (factor as nat));
                        }
                    }
                    assert(whole_len + fraction_len == digits.len());
                    scaled_down(digits, fraction_len + m as usize, factor)
                } else if m - whole_len as u64 >= 14 {
                    proof {
                        lemma_round_small(
                            value,
                            digits@.len(),
                            factor as nat,
                            (power + fraction_len) as nat,
                        );
                    }
                    0
                } else {
                    scaled_far_down(digits, (m - whole_len as u64) as usize, factor)
                }
            },
        }
    }
}

/// Where the parts of a number stand among the characters that write it.
struct Layout {
    /// Whether the number has a minus sign.
    negative: bool,
    /// Where the digits before the point begin.
    from: usize,
    /// Where the digits before the point end.
    dot: usize,
    /// Where the digits after the point begin.
    after: usize,
    /// Where the digits after the point end: at the exponent's mark, or at
    /// the end of the number.
    mark: usize,
    /// Whether the exponent has a minus sign.
    exponent_negative: bool,
    /// Where the digits of the exponent begin.
    exponent_from: usize,
}

/// Finds the parts of the number written by the characters of `s` from
/// `start` up to `end`.
fn layout(s: &Vec<char>, start: usize, end: usize) -> (l: Layout)
    requires
        start <= end <= s.len(),
    ensures
        start <= l.from <= l.dot <= l.after <= l.mark <= l.exponent_from <= end,
        l.mark < end ==> l.mark < l.exponent_from,
        l.negative == is_negative(s@.subrange(start as int, end as int)),
        (l.mark < end) == has_exponent(s@.subrange(start as int, end as int)),
        s@.subrange(l.from as int, l.dot as int) == whole_digits(
            s@.subrange(start as int, end as int),
        ),
        s@.subrange(l.after as int, l.mark as int) == fraction_digits(
            s@.subrange(start as int, end as int),
        ),
        s@.subrange(l.exponent_from as int, end as int) == exponent_digits(
            s@.subrange(start as int, end as int),
        ),
        l.exponent_negative == is_negative(exponent(s@.subrange(start as int, end as int))),
{
    let ghost number = s@.subrange(start as int, end as int);
    let signed = start < end && (s[start] == '+' || s[start] == '-');
    let negative = start < end && s[start] == '-';
    let from: usize = if signed {
        start + 1
    } else {
        start
    };
    let ghost body = s@.subrange(from as int, end as int);
    assert(body =~= unsigned_part(number) && negative == is_negative(number)) by {
        assert(number.len() > 0 ==> number[0] == s@[start as int]);
    }
    let small = find_char(s, from, end, 'e');
    let capital = find_char(s, from, end, 'E');
    let mark: usize = if small <= capital {
        small
    } else {
        capital
    };
    assert(mark - from == exponent_mark(body));
    let ghost m = s@.subrange(from as int, mark as int);
    assert(m =~= mantissa(number));
    let dot = find_char(s, from, mark, '.');
    let after: usize = if dot < mark {
        dot + 1
    } else {
        mark
    };
    assert(s@.subrange(from as int, dot as int) =~= m.take(first_index(m, '.')));
    assert(s@.subrange(after as int, mark as int) =~= if first_index(m, '.') < m.len() {
        m.skip(first_index(m, '.') + 1)
    } else {
        Seq::empty()
    });
    let exponent_start: usize = if mark < end {
        mark + 1
    } else {
        end
    };
    let ghost x = s@.subrange(exponent_start as int, end as int);
    assert(x =~= exponent(number));
    let exponent_signed = exponent_start < end && (s[exponent_start] == '+' || s[exponent_start]
        == '-');
    let exponent_negative = exponent_start < end && s[exponent_start] == '-';
    let exponent_from: usize = if exponent_signed {
        exponent_start + 1
    } else {
        exponent_start
    };
    assert(s@.subrange(exponent_from as int, end as int) =~= unsigned_part(x)
        && exponent_negative == is_negative(x)) by {
        assert(x.len() > 0 ==> x[0] == s@[exponent_start as int]);
    }
    Layout { negative, from, dot, after, mark, exponent_negative, exponent_from }
}

/// The decimal number written by the characters of `s` from `start` up to
/// `end`, times `factor`, as a byte count; `None` if they write no decimal
/// number.
fn decimal_product(s: &Vec<char>, start: usize, end: usize, factor: u64) -> (r: Option<u64>)
    requires
        start <= end <= s.len(),
        1 <= factor <= 1_099_511_627_776,
    ensures
        r == if is_decimal(s@.subrange(start as int, end as int)) {
            Some(scaled_size(s@.subrange(start as int, end as int), factor as nat))
        } else {
            None
        },
{
    let ghost number = s@.subrange(start as int, end as int);
    let l = layout(s, start, end);
    if !digits_only(s, l.from, l.dot) || !digits_only(s, l.after, l.mark) {
        return None;
    }
    if l.dot - l.from + (l.mark - l.after) == 0 {
        return None;
    }
    if l.mark < end && (l.exponent_from == end || !digits_only(s, l.exponent_from, end)) {
        return None;
    }
    if l.negative {
        return Some(0);
    }
    let whole_len: usize = l.dot - l.from;
    let fraction_len: usize = l.mark - l.after;
    let mut digits: Vec<char> = Vec::new();
    copy_range(s, l.from, l.dot, &mut digits);
    copy_range(s, l.after, l.mark, &mut digits);
    let ghost power = digits_value(exponent_digits(number));
    proof {
        assert(digits@ =~= mantissa_digits(number));
        assert forall|i: int| 0 <= i < digits@.len() implies is_digit(#[trigger] digits@[i]) by {
            if i < whole_len {
                assert(digits@[i] == whole_digits(number)[i]);
            } else {
                assert(digits@[i] == fraction_digits(number)[i - whole_len]);
            }
        }
        if l.mark == end {
            assert(exponent_digits(number) =~= Seq::<char>::empty());
        }
    }
    let magnitude = digits_to_u64(s, l.exponent_from, end);
    proof {
        if magnitude is None {
            lemma_long_number(exponent_digits(number));
        }
    }
    Some(
        moved_product(
            &digits,
            whole_len,
            fraction_len,
            l.exponent_negative,
            magnitude,
            factor,
            Ghost(power),
        ),
    )
}

/// Reads a size such as `1.4 GiB`: a decimal number, a space and one of the
/// units `Bytes`, `KiB`, `MiB`, `GiB`, `TiB`. The number may have a sign, a
/// point and an exponent, as in `-1.5e3`. Returns the number times the
/// unit's bytes, rounded to the nearest byte.
pub fn parse_size(text: &str) -> (r: Option<u64>)
    ensures
        r == size_of_text(text@),
{
    let chars = chars_of(text);
    let len = chars.len();
    let space = find_char(&chars, 0, len, ' ');
    assert(chars@.subrange(0, len as int) =~= text@);
    if space == len {
        return None;
    }
    let unit_end = find_char(&chars, space + 1, len, ' ');
    proof {
        let rest = text@.skip(space + 1);
        assert(chars@.subrange(space + 1, len as int) =~= rest);
        assert(chars@.subrange(space + 1, unit_end as int) =~= unit_token(text@));
        assert(chars@.subrange(0, space as int) =~= number_token(text@));
    }
    match unit_multiplier(&chars, space + 1, unit_end) {
        Some(factor) => decimal_product(&chars, 0, space, factor),
        None => None,
    }
}

} // verus!
