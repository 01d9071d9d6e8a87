//! Which decimal texts a gauge can show: the numbers that are not negative
//! and of a magnitude that a 64-bit binary floating-point number can hold.

use vstd::prelude::*;
use crate::text::{all_digits, chars_of, digit_value, is_digit, lemma_number_grows, number};

verus! {

/// A plus or a minus sign.
pub open spec fn is_sign(c: char) -> bool {
    c == '+' || c == '-'
}

/// The letter that stands before an exponent.
pub open spec fn is_exponent_mark(c: char) -> bool {
    c == 'e' || c == 'E'
}

/// The text without the sign that it may begin with.
pub open spec fn unsigned_part(text: Seq<char>) -> Seq<char> {
    if text.len() > 0 && is_sign(text[0]) {
        text.skip(1)
    } else {
        text
    }
}

/// The text begins with a minus sign.
pub open spec fn is_negative(text: Seq<char>) -> bool {
    text.len() > 0 && text[0] == '-'
}

/// How many digits stand at the front of `s`.
pub open spec fn digits_len(s: Seq<char>) -> nat
    decreases s.len(),
{
    if s.len() == 0 || !is_digit(s[0]) {
        0
    } else {
        1 + digits_len(s.drop_first())
    }
}

/// The parts of a number without its sign.
pub struct Parts {
    /// The digits before the point.
    pub whole: Seq<char>,
    /// The digits behind the point.
    pub fraction: Seq<char>,
    /// What follows the digits: nothing, or the exponent with its mark.
    pub rest: Seq<char>,
}

/// Takes a number without its sign apart: the digits at the front, then,
/// where a point follows them, the digits behind it.
pub open spec fn parts(body: Seq<char>) -> Parts {
    let w = digits_len(body) as int;
    let after = body.skip(w);
    if after.len() > 0 && after[0] == '.' {
        let f = digits_len(after.skip(1)) as int;
        Parts { whole: body.take(w), fraction: after.skip(1).take(f), rest: after.skip(1).skip(f) }
    } else {
        Parts { whole: body.take(w), fraction: Seq::empty(), rest: after }
    }
}

/// One or more digits, with or without a sign in front.
pub open spec fn exponent_ok(exponent: Seq<char>) -> bool {
    unsigned_part(exponent).len() >= 1 && all_digits(unsigned_part(exponent))
}

/// The number that an exponent spells.
pub open spec fn exponent_value(exponent: Seq<char>) -> int {
    if is_negative(exponent) {
        -(number(unsigned_part(exponent)) as int)
    } else {
        number(unsigned_part(exponent)) as int
    }
}

/// The text is a decimal number: an optional sign; digits with an optional
/// point among them, before them or behind them; and an optional exponent,
/// which is `e` or `E`, an optional sign, and digits.
pub open spec fn well_formed(text: Seq<char>) -> bool {
    let p = parts(unsigned_part(text));
    &&& p.whole.len() + p.fraction.len() >= 1
    &&& p.rest.len() == 0 || (is_exponent_mark(p.rest[0]) && exponent_ok(p.rest.skip(1)))
}

/// All digits of the number, those behind the point included.
pub open spec fn digits_of(text: Seq<char>) -> Seq<char> {
    let p = parts(unsigned_part(text));
    p.whole + p.fraction
}

/// The power of ten by which the number that `digits_of` spells is to be
/// multiplied.
pub open spec fn scale_of(text: Seq<char>) -> int {
    let p = parts(unsigned_part(text));
    if p.rest.len() > 0 {
        exponent_value(p.rest.skip(1)) - p.fraction.len()
    } else {
        -(p.fraction.len() as int)
    }
}

/// The power of ten with exponent `n`.
pub open spec fn pow10(n: nat) -> nat
    decreases n,
{
    if n == 0 {
        1
    } else {
        10 * pow10((n - 1) as nat)
    }
}

/// 2^1024 - 2^970: the least magnitude that has no finite 64-bit binary
/// floating-point number nearest to it.
pub open spec fn limit() -> nat {
    179769313486231580793728971405303415079934132710037826936173778980444968292764750946649017977587207096330286416692887910946555547851940402630657488671505820681908902000708383676273854845817711531764475730270069855571366959622842914819860834936475292719074168444365510704342711559699508093042880177904174497792nat
}

/// `value` times ten to the power `scale` is below the limit.
pub open spec fn below_limit(value: nat, scale: int) -> bool {
    if scale >= 0 {
        value * pow10(scale as nat) < limit()
    } else {
        value < limit() * pow10((-scale) as nat)
    }
}

/// The text is a decimal number that a gauge can show: not negative, and of
/// a magnitude that a 64-bit binary floating-point number can hold.
pub open spec fn is_gauge_value(text: Seq<char>) -> bool {
    &&& well_formed(text)
    &&& number(digits_of(text)) == 0 || (!is_negative(text) && below_limit(
        number(digits_of(text)),
        scale_of(text),
    ))
}

/// The groups of decimal digits of the limit: three digits, then seventeen
/// times eighteen.
pub open spec fn limit_group(i: int) -> nat {
    if i == 0 {
        179
    } else if i == 1 {
        769313486231580793
    } else if i == 2 {
        728971405303415079
    } else if i == 3 {
        934132710037826936
    } else if i == 4 {
        173778980444968292
    } else if i == 5 {
        764750946649017977
    } else if i == 6 {
        587207096330286416
    } else if i == 7 {
        692887910946555547
    } else if i == 8 {
        851940402630657488
    } else if i == 9 {
        671505820681908902
    } else if i == 10 {
        708383676273854
    } else if i == 11 {
        845817711531764475
    } else if i == 12 {
        730270069855571366
    } else if i == 13 {
        959622842914819860
    } else if i == 14 {
        834936475292719074
    } else if i == 15 {
        168444365510704342
    } else if i == 16 {
        711559699508093042
    } else {
        880177904174497792
    }
}

/// Eighteen digits make one group.
pub open spec fn group_base() -> nat {
    1_000_000_000_000_000_000
}

/// The number that the groups up to group `n` of the limit spell.
pub open spec fn limit_upto(n: int) -> nat
    decreases n,
{
    if n <= 0 {
        limit_group(0)
    } else {
        limit_upto(n - 1) * group_base() + limit_group(n)
    }
}

/// The limit is what its groups of digits spell.
proof fn lemma_limit_groups()
    ensures
        limit() == limit_upto(17),
{
    reveal_with_fuel(limit_upto, 19);
}

/// A power of ten is positive.
pub proof fn lemma_pow10_positive(n: nat)
    ensures
        pow10(n) > 0,
    decreases n,
{
    if n > 0 {
        lemma_pow10_positive((n - 1) as nat);
    }
}

/// The power of a sum is the product of the powers.
pub proof fn lemma_pow10_adds(a: nat, b: nat)
    ensures
        pow10(a + b) == pow10(a) * pow10(b),
    decreases a,
{
    if a > 0 {
        lemma_pow10_adds((a - 1) as nat, b);
        assert(10 * (pow10((a - 1) as nat) * pow10(b)) == (10 * pow10((a - 1) as nat)) * pow10(b))
            by (nonlinear_arith);
    } else {
        assert(pow10(a) * pow10(b) == pow10(b)) by (nonlinear_arith)
            requires
                pow10(a) == 1,
        ;
    }
}

/// A greater exponent gives no lesser power.
pub proof fn lemma_pow10_grows(a: nat, b: nat)
    requires
        a <= b,
    ensures
        pow10(a) <= pow10(b),
    decreases b,
{
    if a < b {
        lemma_pow10_grows(a, (b - 1) as nat);
        lemma_pow10_positive((b - 1) as nat);
    }
}

/// One group of eighteen digits counts up to ten to the power eighteen.
proof fn lemma_group_base()
    ensures
        pow10(18) == group_base(),
{
    reveal_with_fuel(pow10, 19);
}

/// The digits `a` followed by the digits `b` spell the number of `a`,
/// shifted by the length of `b`, plus the number of `b`.
pub proof fn lemma_number_concat(a: Seq<char>, b: Seq<char>)
    ensures
        number(a + b) == number(a) * pow10(b.len()) + number(b),
    decreases b.len(),
{
    if b.len() == 0 {
        assert(a + b == a);
        assert(number(a) * pow10(0) == number(a)) by (nonlinear_arith)
            requires
                pow10(0) == 1,
        ;
    } else {
        let front = b.drop_last();
        lemma_number_concat(a, front);
        assert((a + b).drop_last() == a + front);
        assert((a + b).last() == b.last());
        let x = number(a) as int;
        let p = pow10(front.len()) as int;
        let y = number(front) as int;
        let d = digit_value(b.last()) as int;
        assert(pow10(b.len()) == 10 * p);
        assert((x * p + y) * 10 + d == x * (10 * p) + (y * 10 + d)) by (nonlinear_arith);
    }
}

/// A sequence of digits spells less than the power of ten of its length,
/// and no less than the next lower power where its first digit is no zero.
pub proof fn lemma_number_bounds(s: Seq<char>)
    requires
        all_digits(s),
    ensures
        number(s) < pow10(s.len()),
        s.len() > 0 && s[0] != '0' ==> number(s) >= pow10((s.len() - 1) as nat),
    decreases s.len(),
{
    if s.len() > 0 {
        let front = s.drop_last();
        assert forall|i: int| 0 <= i < front.len() implies is_digit(#[trigger] front[i]) by {
            assert(front[i] == s[i]);
        }
        lemma_number_bounds(front);
        assert(is_digit(s[s.len() - 1]));
        if front.len() > 0 {
            assert(front[0] == s[0]);
        } else {
            assert(s.last() == s[0]);
        }
    }
}

/// The groups up to group `n` spell a number that begins with 179.
proof fn lemma_limit_upto_bounds(n: int)
    requires
        0 <= n <= 17,
    ensures
        179 * pow10((18 * n) as nat) <= limit_upto(n) < 180 * pow10((18 * n) as nat),
    decreases n,
{
    if n > 0 {
        lemma_limit_upto_bounds(n - 1);
        lemma_group_base();
        lemma_pow10_adds((18 * (n - 1)) as nat, 18);
        let u = limit_upto(n - 1) as int;
        let p = pow10((18 * (n - 1)) as nat) as int;
        let base = group_base() as int;
        let g = limit_group(n) as int;
        assert(0 <= g < base);
        assert(179 * (p * base) <= u * base + g < 180 * (p * base)) by (nonlinear_arith)
            requires
                179 * p <= u < 180 * p,
                0 <= g < base,
        ;
    }
}

/// The limit has 309 decimal digits.
pub proof fn lemma_limit_bounds()
    ensures
        pow10(308) <= limit() < pow10(309),
{
    lemma_limit_groups();
    lemma_limit_upto_bounds(17);
    lemma_pow10_adds(2, 306);
    lemma_pow10_adds(3, 306);
    reveal_with_fuel(pow10, 4);
    assert(pow10(2) == 100);
    assert(pow10(3) == 1000);
    lemma_pow10_positive(306);
}

/// A number with so few digits before its point is below the limit.
proof fn lemma_small(value: nat, digits: nat, scale: int)
    requires
        value < pow10(digits),
        digits + scale <= 308,
    ensures
        below_limit(value, scale),
{
    lemma_limit_bounds();
    if scale >= 0 {
        lemma_pow10_adds(digits, scale as nat);
        lemma_pow10_grows((digits + scale) as nat, 308);
        lemma_pow10_positive(scale as nat);
        let s = pow10(scale as nat) as int;
        let d = pow10(digits) as int;
        assert(value * s < d * s) by (nonlinear_arith)
            requires
                value < d,
                s > 0,
        ;
    } else {
        let k = (-scale) as nat;
        lemma_pow10_grows(digits, 308 + k);
        lemma_pow10_adds(308, k);
        lemma_pow10_positive(k);
        let s = pow10(k) as int;
        let l = limit() as int;
        let p = pow10(308) as int;
        assert(p * s <= l * s) by (nonlinear_arith)
            requires
                p <= l,
                s > 0,
        ;
    }
}

/// A number with so many digits before its point is not below the limit.
proof fn lemma_large(value: nat, digits: nat, scale: int)
    requires
        digits >= 1,
        value >= pow10((digits - 1) as nat),
        digits + scale >= 310,
    ensures
        !below_limit(value, scale),
{
    lemma_limit_bounds();
    if scale >= 0 {
        lemma_pow10_adds((digits - 1) as nat, scale as nat);
        lemma_pow10_grows(309, (digits - 1 + scale) as nat);
        lemma_pow10_positive(scale as nat);
        let s = pow10(scale as nat) as int;
        let d = pow10((digits - 1) as nat) as int;
        assert(value * s >= d * s) by (nonlinear_arith)
            requires
                value >= d,
                s > 0,
        ;
    } else {
        let k = (-scale) as nat;
        lemma_pow10_grows(309 + k, (digits - 1) as nat);
        lemma_pow10_adds(309, k);
        lemma_pow10_positive(k);
        let s = pow10(k) as int;
        let l = limit() as int;
        let p = pow10(309) as int;
        assert(l * s < p * s) by (nonlinear_arith)
            requires
                l < p,
                s > 0,
        ;
    }
}

/// With zeros behind them, digits spell their number times a power of ten.
proof fn lemma_number_padded(digits: Seq<char>, padded: Seq<char>)
    requires
        digits.len() <= padded.len(),
        forall|i: int| 0 <= i < digits.len() ==> padded[i] == digits[i],
        forall|i: int| digits.len() <= i < padded.len() ==> padded[i] == '0',
    ensures
        number(padded) == number(digits) * pow10((padded.len() - digits.len()) as nat),
    decreases padded.len() - digits.len(),
{
    if digits.len() == padded.len() {
        assert(padded == digits);
        assert(number(digits) * pow10(0) == number(digits)) by (nonlinear_arith)
            requires
                pow10(0) == 1,
        ;
    } else {
        let front = padded.drop_last();
        lemma_number_padded(digits, front);
        let x = number(digits) as int;
        let p = pow10((front.len() - digits.len()) as nat) as int;
        assert(padded.last() == '0');
        assert(pow10((padded.len() - digits.len()) as nat) == 10 * p);
        assert((x * p) * 10 == x * (10 * p)) by (nonlinear_arith);
    }
}

/// A number whose digits reach exactly as far as those of the limit is below
/// the limit where its first 309 digits, zeros in the places that it lacks,
/// spell less than the limit.
proof fn lemma_edge(digits: Seq<char>, scale: int, first: Seq<char>)
    requires
        all_digits(digits),
        digits.len() + scale == 309,
        first.len() == 309,
        forall|i: int| 0 <= i < 309 && i < digits.len() ==> first[i] == digits[i],
        forall|i: int| digits.len() <= i < 309 ==> first[i] == '0',
    ensures
        below_limit(number(digits), scale) == (number(first) < limit()),
{
    if scale >= 0 {
        lemma_number_padded(digits, first);
    } else {
        let k = (-scale) as nat;
        let tail = digits.skip(309);
        assert(first == digits.take(309));
        assert(digits == first + tail);
        lemma_number_concat(first, tail);
        assert forall|i: int| 0 <= i < tail.len() implies is_digit(#[trigger] tail[i]) by {
            assert(tail[i] == digits[i + 309]);
        }
        lemma_number_bounds(tail);
        let a = number(first) as int;
        let t = number(tail) as int;
        let s = pow10(k) as int;
        let l = limit() as int;
        assert((a * s + t < l * s) == (a < l)) by (nonlinear_arith)
            requires
                0 <= t < s,
        ;
    }
}

/// The digits at the front of `s` are digits, and there are no more of them
/// than `s` is long.
pub proof fn lemma_digits_front(s: Seq<char>)
    ensures
        digits_len(s) <= s.len(),
        forall|i: int| 0 <= i < digits_len(s) ==> is_digit(#[trigger] s[i]),
    decreases s.len(),
{
    if s.len() > 0 && is_digit(s[0]) {
        let rest = s.drop_first();
        lemma_digits_front(rest);
        assert forall|i: int| 0 <= i < digits_len(s) implies is_digit(#[trigger] s[i]) by {
            if i > 0 {
                assert(rest[i - 1] == s[i]);
            }
        }
    }
}

/// A character that a decimal number can hold.
pub open spec fn is_number_char(c: char) -> bool {
    is_digit(c) || is_sign(c) || c == '.' || is_exponent_mark(c)
}

/// A decimal number holds nothing but digits, signs, a point and an
/// exponent mark.
pub proof fn lemma_well_formed_chars(text: Seq<char>)
    requires
        well_formed(text),
    ensures
        forall|i: int| 0 <= i < text.len() ==> is_number_char(#[trigger] text[i]),
{
    let body = unsigned_part(text);
    let start = text.len() - body.len();
    let p = parts(body);
    lemma_digits_front(body);
    let w = digits_len(body) as int;
    let after = body.skip(w);
    let pointed = after.len() > 0 && after[0] == '.';
    if pointed {
        lemma_digits_front(after.skip(1));
    }
    let f = p.fraction.len() as int;
    let skipped: int = if pointed {
        1
    } else {
        0
    };
    let rest_at = start + w + skipped + f;
    assert(p.rest.len() == text.len() - rest_at);
    assert forall|i: int| 0 <= i < text.len() implies is_number_char(#[trigger] text[i]) by {
        if i < start {
            assert(is_sign(text[0]));
        } else if i < start + w {
            assert(text[i] == body[i - start]);
        } else if i < start + w + skipped {
            assert(text[i] == after[0]);
        } else if i < rest_at {
            assert(text[i] == after.skip(1)[i - start - w - 1]);
        } else {
            let j = i - rest_at;
            assert(text[i] == p.rest[j]);
            if j > 0 {
                let exponent = p.rest.skip(1);
                assert(p.rest[j] == exponent[j - 1]);
                let digits = unsigned_part(exponent);
                if exponent.len() > digits.len() {
                    if j - 1 > 0 {
                        assert(exponent[j - 1] == digits[j - 2]);
                    }
                } else {
                    assert(exponent[j - 1] == digits[j - 1]);
                }
            }
        }
    }
}

/// The length of the digits at the front of `s` is `k` where `k` digits
/// stand there and no digit follows them.
proof fn lemma_digits_len(s: Seq<char>, k: int)
    requires
        0 <= k <= s.len(),
        forall|i: int| 0 <= i < k ==> is_digit(#[trigger] s[i]),
        k == s.len() || !is_digit(s[k]),
    ensures
        digits_len(s) == k,
    decreases k,
{
    if k > 0 {
        let rest = s.drop_first();
        assert(is_digit(s[0]));
        assert forall|i: int| 0 <= i < k - 1 implies is_digit(#[trigger] rest[i]) by {
            assert(rest[i] == s[i + 1]);
        }
        if k < s.len() {
            assert(rest[k - 1] == s[k]);
        }
        lemma_digits_len(rest, k - 1);
    }
}

/// Finds the end of the digits that begin at `from`.
fn scan_digits(chars: &Vec<char>, from: usize) -> (to: usize)
    requires
        from <= chars.len(),
    ensures
        from <= to <= chars.len(),
        to - from == digits_len(chars@.skip(from as int)),
        forall|i: int| from <= i < to ==> is_digit(#[trigger] chars@[i]),
        to < chars.len() ==> !is_digit(chars@[to as int]),
{
    let mut i: usize = from;
    while i < chars.len() && chars[i] >= '0' && chars[i] <= '9'
        invariant
            from <= i <= chars.len(),
            forall|j: int| from <= j < i ==> is_digit(#[trigger] chars@[j]),
        decreases chars.len() - i,
    {
        i += 1;
    }
    proof {
        let s = chars@.skip(from as int);
        assert forall|j: int| 0 <= j < i - from implies is_digit(#[trigger] s[j]) by {
            assert(s[j] == chars@[j + from]);
        }
        lemma_digits_len(s, i - from);
    }
    i
}

/// More than any exponent that can make a difference.
pub const HUGE: u128 = 1_000_000_000_000_000_000_000_000_000_000;

/// Reads the digits from `from` on as a number, up to `HUGE`.
fn read_exponent(chars: &Vec<char>, from: usize) -> (value: u128)
    requires
        from <= chars.len(),
        forall|i: int| from <= i < chars.len() ==> is_digit(#[trigger] chars@[i]),
    ensures
        value <= HUGE,
        value < HUGE ==> value == number(chars@.skip(from as int)),
        value == HUGE ==> number(chars@.skip(from as int)) >= HUGE,
{
    let ghost digits = chars@.skip(from as int);
    let mut value: u128 = 0;
    let mut i: usize = from;
    while i < chars.len()
        invariant
            from <= i <= chars.len(),
            digits == chars@.skip(from as int),
            forall|j: int| from <= j < chars.len() ==> is_digit(#[trigger] chars@[j]),
            value <= HUGE,
            value < HUGE ==> value == number(digits.take(i - from)),
            value == HUGE ==> number(digits.take(i - from)) >= HUGE,
        decreases chars.len() - i,
    {
        let ghost k = i - from;
        proof {
            assert(digits.take(k + 1).drop_last() == digits.take(k));
            assert(digits.take(k + 1).last() == chars@[i as int]);
            assert(is_digit(chars@[i as int]));
        }
        if value < HUGE {
            let d: u128 = (chars[i] as u32 - '0' as u32) as u128;
            value = value * 10 + d;
            if value > HUGE {
                value = HUGE;
            }
        }
        i += 1;
    }
    proof {
        assert(digits.take(digits.len() as int) == digits);
    }
    value
}

/// The first 309 digits of a number whose digits are `digits`, with zeros in
/// the places that it lacks.
pub open spec fn first_digits(digits: Seq<char>) -> Seq<char> {
    Seq::new(
        309,
        |i: int|
            if i < digits.len() {
                digits[i]
            } else {
                '0'
            },
    )
}

/// Group `i` of the decimal digits of the limit.
fn limit_part(i: usize) -> (g: u64)
    requires
        i < 18,
    ensures
        g == limit_group(i as int),
{
    match i {
        0 => 179,
        1 => 769313486231580793,
        2 => 728971405303415079,
        3 => 934132710037826936,
        4 => 173778980444968292,
        5 => 764750946649017977,
        6 => 587207096330286416,
        7 => 692887910946555547,
        8 => 851940402630657488,
        9 => 671505820681908902,
        10 => 708383676273854,
        11 => 845817711531764475,
        12 => 730270069855571366,
        13 => 959622842914819860,
        14 => 834936475292719074,
        15 => 168444365510704342,
        16 => 711559699508093042,
        _ => 880177904174497792,
    }
}

/// The number that the places `from` to `to` of the first 309 digits spell.
fn read_group(digits: &Vec<char>, skip: usize, from: usize, to: usize) -> (value: u64)
    requires
        skip <= digits.len(),
        all_digits(digits@),
        from <= to <= 309,
        to - from <= 18,
    ensures
        value == number(first_digits(digits@.skip(skip as int)).subrange(from as int, to as int)),
        value < group_base(),
{
    let ghost window = first_digits(digits@.skip(skip as int));
    let ghost part = window.subrange(from as int, to as int);
    let mut value: u64 = 0;
    let mut i: usize = from;
    proof {
        assert forall|j: int| 0 <= j < 309 implies is_digit(#[trigger] window[j]) by {
            if j < digits@.skip(skip as int).len() {
                assert(window[j] == digits@[j + skip]);
            }
        }
        assert forall|j: int| 0 <= j < part.len() implies is_digit(#[trigger] part[j]) by {
            assert(part[j] == window[j + from]);
        }
        lemma_number_bounds(part);
        lemma_pow10_grows(part.len(), 18);
        lemma_group_base();
    }
    while i < to
        invariant
            from <= i <= to <= 309,
            to - from <= 18,
            skip <= digits.len(),
            window == first_digits(digits@.skip(skip as int)),
            part == window.subrange(from as int, to as int),
            all_digits(part),
            number(part) < group_base(),
            value == number(part.take(i - from)),
        decreases to - i,
    {
        let ghost k = i - from;
        let d: u64 = if i < digits.len() - skip {
            let c = digits[skip + i];
            assert(window[i as int] == c);
            assert(is_digit(part[k]));
            (c as u32 - '0' as u32) as u64
        } else {
            assert(window[i as int] == '0');
            0
        };
        proof {
            assert(part[k] == window[i as int]);
            assert(part.take(k + 1).drop_last() == part.take(k));
            assert(part.take(k + 1).last() == part[k]);
            assert(d == digit_value(part[k]));
            lemma_number_grows(part, k + 1);
        }
        value = value * 10 + d;
        i += 1;
    }
    proof {
        assert(part.take(part.len() as int) == part);
    }
    value
}

/// Whether the first 309 digits of the number spell less than the limit.
fn first_below_limit(digits: &Vec<char>, skip: usize) -> (b: bool)
    requires
        skip <= digits.len(),
        all_digits(digits@),
    ensures
        b == (number(first_digits(digits@.skip(skip as int))) < limit()),
{
    let ghost window = first_digits(digits@.skip(skip as int));
    let first = read_group(digits, skip, 0, 3);
    // -1, 0 or 1 as what was read is less than, equal to or more than the
    // limit's groups so far.
    let mut order: i8 = if first < limit_part(0) {
        -1
    } else if first == limit_part(0) {
        0
    } else {
        1
    };
    let mut g: usize = 1;
    assert(window.subrange(0, 3) == window.take(3));
    while g < 18
        invariant
            1 <= g <= 18,
            skip <= digits.len(),
            all_digits(digits@),
            window == first_digits(digits@.skip(skip as int)),
            -1 <= order <= 1,
            order == -1 <==> number(window.take(18 * g - 15)) < limit_upto(g - 1),
            order == 0 <==> number(window.take(18 * g - 15)) == limit_upto(g - 1),
        decreases 18 - g,
    {
        let from = 18 * g - 15;
        let value = read_group(digits, skip, from, from + 18);
        let part = limit_part(g);
        proof {
            let head = window.take(from as int);
            let tail = window.subrange(from as int, from + 18);
            assert(window.take(from + 18) == head + tail);
            lemma_number_concat(head, tail);
            lemma_group_base();
            let a = number(head) as int;
            let l = limit_upto(g - 1) as int;
            let base = group_base() as int;
            let p = value as int;
            let q = part as int;
            assert(0 <= q < base);
            assert(a < l ==> a * base + p < l * base + q) by (nonlinear_arith)
                requires
                    0 <= p < base,
                    0 <= q < base,
            ;
            assert(a > l ==> a * base + p > l * base + q) by (nonlinear_arith)
                requires
                    0 <= p < base,
                    0 <= q < base,
            ;
        }
        if order == 0 {
            if value < part {
                order = -1;
            } else if value > part {
                order = 1;
            }
        }
        g += 1;
    }
    proof {
        assert(window.take(309) == window);
        lemma_limit_groups();
    }
    order == -1
}

/// Whether the number of `digits`, times ten to the power of the exponent
/// less `shift`, is below the limit. The exponent is given by its sign and
/// its magnitude up to `HUGE`.
fn magnitude_below_limit(
    digits: &Vec<char>,
    shift: usize,
    exponent_negative: bool,
    exponent: u128,
    Ghost(exact): Ghost<int>,
) -> (b: bool)
    requires
        all_digits(digits@),
        measures(exponent_negative, exponent, exact),
    ensures
        b == below_limit(number(digits@), exact - shift),
{
    // The zeros at the front do not count.
    let mut skip: usize = 0;
    while skip < digits.len() && digits[skip] == '0'
        invariant
            skip <= digits.len(),
            forall|j: int| 0 <= j < skip ==> digits@[j] == '0',
        decreases digits.len() - skip,
    {
        skip += 1;
    }
    let ghost zeros = digits@.take(skip as int);
    let ghost rest = digits@.skip(skip as int);
    proof {
        assert(digits@ == zeros + rest);
        lemma_number_concat(zeros, rest);
        lemma_number_padded(Seq::empty(), zeros);
        assert(number(Seq::<char>::empty()) == 0);
        assert(number(zeros) == 0) by (nonlinear_arith)
            requires
                number(zeros) == 0 * pow10((zeros.len() - 0) as nat),
        ;
        assert(number(zeros) * pow10(rest.len()) == 0) by (nonlinear_arith)
            requires
                number(zeros) == 0,
        ;
        assert(number(rest) == number(digits@));
        assert forall|j: int| 0 <= j < rest.len() implies is_digit(#[trigger] rest[j]) by {
            assert(rest[j] == digits@[j + skip]);
        }
        lemma_number_bounds(rest);
        if rest.len() > 0 {
            assert(rest[0] == digits@[skip as int]);
        }
    }
    let ghost scale = exact - shift;
    if skip == digits.len() {
        proof {
            lemma_small(0, 0, if scale <= 0 {
                scale
            } else {
                0
            });
            if scale > 0 {
                assert(0 * pow10(scale as nat) == 0) by (nonlinear_arith);
            }
        }
        return true;
    }
    let count = digits.len() - skip;
    if exponent == HUGE {
        proof {
            if exponent_negative {
                lemma_small(number(rest), count as nat, scale);
            } else {
                lemma_large(number(rest), count as nat, scale);
            }
        }
        return exponent_negative;
    }
    let signed: i128 = if exponent_negative {
        -(exponent as i128)
    } else {
        exponent as i128
    };
    let reach: i128 = count as i128 + signed - shift as i128;
    assert(reach == count + scale);
    if reach <= 308 {
        proof {
            lemma_small(number(rest), count as nat, scale);
        }
        true
    } else if reach >= 310 {
        proof {
            lemma_large(number(rest), count as nat, scale);
        }
        false
    } else {
        proof {
            lemma_edge(rest, scale, first_digits(rest));
        }
        first_below_limit(digits, skip)
    }
}

/// Where the parts of a number stand in its characters.
struct Layout {
    /// Behind the sign.
    start: usize,
    whole_end: usize,
    /// Behind the point, where there is one.
    fraction_start: usize,
    fraction_end: usize,
}

/// The magnitude of `exact`, up to `HUGE`, with its sign.
spec fn measures(negative: bool, magnitude: u128, exact: int) -> bool {
    &&& magnitude <= HUGE
    &&& negative ==> exact <= 0
    &&& !negative ==> exact >= 0
    &&& magnitude < HUGE ==> magnitude == if exact < 0 {
        -exact
    } else {
        exact
    }
    &&& magnitude == HUGE ==> exact >= HUGE || -exact >= HUGE
}

/// Finds where the sign, the digits and the point of a number stand.
fn layout(chars: &Vec<char>) -> (l: Layout)
    ensures
        l.start <= l.whole_end <= l.fraction_start <= l.fraction_end <= chars.len(),
        l.start == 0 || l.start == 1,
        chars@.skip(l.start as int) == unsigned_part(chars@),
        parts(unsigned_part(chars@)).whole == chars@.subrange(
            l.start as int,
            l.whole_end as int,
        ),
        parts(unsigned_part(chars@)).fraction == chars@.subrange(
            l.fraction_start as int,
            l.fraction_end as int,
        ),
        parts(unsigned_part(chars@)).rest == chars@.skip(l.fraction_end as int),
        forall|i: int| l.start <= i < l.whole_end ==> is_digit(#[trigger] chars@[i]),
        forall|i: int| l.fraction_start <= i < l.fraction_end ==> is_digit(#[trigger] chars@[i]),
{
    let n = chars.len();
    let start: usize = if n > 0 && (chars[0] == '+' || chars[0] == '-') {
        1
    } else {
        0
    };
    let ghost body = unsigned_part(chars@);
    assert(body == chars@.skip(start as int));
    let whole_end = scan_digits(chars, start);
    let pointed = whole_end < n && chars[whole_end] == '.';
    let fraction_start: usize = if pointed {
        whole_end + 1
    } else {
        whole_end
    };
    let fraction_end: usize = if pointed {
        scan_digits(chars, fraction_start)
    } else {
        whole_end
    };
    proof {
        let p = parts(body);
        let after = body.skip(whole_end - start);
        assert(after == chars@.skip(whole_end as int));
        if after.len() > 0 {
            assert(after[0] == chars@[whole_end as int]);
        }
        if pointed {
            assert(after.skip(1) == chars@.skip(fraction_start as int));
            let f = fraction_end - fraction_start;
            assert(after.skip(1).take(f) == chars@.subrange(
                fraction_start as int,
                fraction_end as int,
            ));
            assert(after.skip(1).skip(f) == chars@.skip(fraction_end as int));
        } else {
            assert(Seq::<char>::empty() == chars@.subrange(
                fraction_start as int,
                fraction_end as int,
            ));
        }
        assert(body.take(whole_end - start) == chars@.subrange(start as int, whole_end as int));
    }
    Layout { start, whole_end, fraction_start, fraction_end }
}

/// Reads an exponent that begins at `from`: its sign and its magnitude.
fn read_signed(chars: &Vec<char>, from: usize) -> (r: Option<(bool, u128)>)
    requires
        from <= chars.len(),
    ensures
        match r {
            Some((negative, magnitude)) => exponent_ok(chars@.skip(from as int)) && measures(
                negative,
                magnitude,
                exponent_value(chars@.skip(from as int)),
            ),
            None => !exponent_ok(chars@.skip(from as int)),
        },
{
    let n = chars.len();
    let ghost tail = chars@.skip(from as int);
    let signed = from < n && (chars[from] == '+' || chars[from] == '-');
    let digits_start: usize = if signed {
        from + 1
    } else {
        from
    };
    proof {
        if from < n {
            assert(tail[0] == chars@[from as int]);
        }
        assert(unsigned_part(tail) == chars@.skip(digits_start as int));
    }
    let ghost digits = unsigned_part(tail);
    let digits_end = scan_digits(chars, digits_start);
    if digits_start == n {
        return None;
    }
    if digits_end < n {
        proof {
            assert(digits[digits_end - digits_start] == chars@[digits_end as int]);
            lemma_digits_end(digits, digits_end - digits_start);
        }
        return None;
    }
    proof {
        assert forall|i: int| 0 <= i < digits.len() implies is_digit(#[trigger] digits[i]) by {
            assert(digits[i] == chars@[i + digits_start]);
        }
    }
    let negative = signed && chars[from] == '-';
    let magnitude = read_exponent(chars, digits_start);
    Some((negative, magnitude))
}

/// The digits of the number in one row.
fn gather(chars: &Vec<char>, l: &Layout) -> (digits: Vec<char>)
    requires
        l.start <= l.whole_end <= l.fraction_start <= l.fraction_end <= chars.len(),
        forall|i: int| l.start <= i < l.whole_end ==> is_digit(#[trigger] chars@[i]),
        forall|i: int| l.fraction_start <= i < l.fraction_end ==> is_digit(#[trigger] chars@[i]),
    ensures
        digits@ == chars@.subrange(l.start as int, l.whole_end as int) + chars@.subrange(
            l.fraction_start as int,
            l.fraction_end as int,
        ),
        all_digits(digits@),
{
    let mut digits: Vec<char> = Vec::new();
    let mut i: usize = l.start;
    while i < l.whole_end
        invariant
            l.start <= i <= l.whole_end <= chars.len(),
            digits@ == chars@.subrange(l.start as int, i as int),
        decreases l.whole_end - i,
    {
        digits.push(chars[i]);
        i += 1;
    }
    let mut i: usize = l.fraction_start;
    while i < l.fraction_end
        invariant
            l.fraction_start <= i <= l.fraction_end <= chars.len(),
            digits@ == chars@.subrange(l.start as int, l.whole_end as int) + chars@.subrange(
                l.fraction_start as int,
                i as int,
            ),
        decreases l.fraction_end - i,
    {
        digits.push(chars[i]);
        i += 1;
    }
    assert forall|j: int| 0 <= j < digits.len() implies is_digit(#[trigger] digits@[j]) by {
        if j < l.whole_end - l.start {
            assert(digits@[j] == chars@[j + l.start]);
        } else {
            assert(digits@[j] == chars@[j - (l.whole_end - l.start) + l.fraction_start]);
        }
    }
    digits
}

/// Tells whether `text` is a decimal number that a gauge can show.
pub fn accepts(text: &str) -> (b: bool)
    ensures
        b == is_gauge_value(text@),
{
    let chars = chars_of(text);
    let n = chars.len();
    let l = layout(&chars);
    let ghost p = parts(unsigned_part(text@));
    if l.whole_end - l.start == 0 && l.fraction_end - l.fraction_start == 0 {
        return false;
    }
    let mut exponent_negative = false;
    let mut exponent: u128 = 0;
    let ghost mut exact: int = 0;
    if l.fraction_end < n {
        assert(p.rest[0] == chars@[l.fraction_end as int]);
        if chars[l.fraction_end] != 'e' && chars[l.fraction_end] != 'E' {
            return false;
        }
        assert(p.rest.skip(1) == chars@.skip(l.fraction_end + 1));
        match read_signed(&chars, l.fraction_end + 1) {
            Some((negative, magnitude)) => {
                exponent_negative = negative;
                exponent = magnitude;
                proof {
                    exact = exponent_value(p.rest.skip(1));
                }
            },
            None => {
                return false;
            },
        }
    }
    assert(well_formed(text@));
    assert(scale_of(text@) == exact - (l.fraction_end - l.fraction_start));
    let digits = gather(&chars, &l);
    assert(digits@ == digits_of(text@));
    if is_zero(&digits) {
        return true;
    }
    if n > 0 && chars[0] == '-' {
        return false;
    }
    magnitude_below_limit(
        &digits,
        l.fraction_end - l.fraction_start,
        exponent_negative,
        exponent,
        Ghost(exact),
    )
}

/// Where a character that is no digit stands in `s`, not all of `s` are
/// digits.
proof fn lemma_digits_end(s: Seq<char>, k: int)
    requires
        0 <= k < s.len(),
        !is_digit(s[k]),
    ensures
        !all_digits(s),
{
}

/// Whether digits spell zero.
fn is_zero(digits: &Vec<char>) -> (b: bool)
    requires
        all_digits(digits@),
    ensures
        b == (number(digits@) == 0),
{
    let mut i: usize = 0;
    while i < digits.len()
        invariant
            i <= digits.len(),
            all_digits(digits@),
            number(digits@.take(i as int)) == 0,
        decreases digits.len() - i,
    {
        proof {
            assert(digits@.take(i + 1).drop_last() == digits@.take(i as int));
            assert(digits@.take(i + 1).last() == digits@[i as int]);
            assert(is_digit(digits@[i as int]));
        }
        if digits[i] != '0' {
            proof {
                lemma_number_grows(digits@, i + 1);
            }
            return false;
        }
        i += 1;
    }
    proof {
        assert(digits@.take(digits.len() as int) == digits@);
    }
    true
}

} // verus!
