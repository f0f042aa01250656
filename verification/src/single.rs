//! Numbers in single precision, held by their bits: reading one from a text, to the nearest
//! that there is, and writing one with two decimals.

use crate::grid::min_int;
use crate::large::{
    big, doubled, lemma_pow10_grows, lemma_pow10_sum, lemma_pow2_grows, lemma_pow2_sum,
    lemma_pow_positive, lemma_tens_and_twos, pow10, pow2, side_of, times, with_zeros, Side,
};
use crate::table::lemma_char_from_at;
use crate::text::{
    all_digits, ascii_lowered, char_from, chars_of, decimal, decimal_text, digits_or_none,
    digits_until, digits_value, find_char, is_digit, is_space, lemma_char_from, lemma_decimal,
    lemma_digits_grow, same, string_range, to_ascii_lowercase, two_digit_text, two_digits,
};
use vstd::prelude::*;

verus! {

// ---- single precision ------------------------------------------------------------------------------

/// The bit of the sign.
pub const SIGN: u32 = 0x8000_0000;

/// The bits of infinity. Those of the finite numbers are less, in the order of the numbers;
/// those above, without the sign, are of no number.
pub const INFINITE: u32 = 0x7f80_0000;

/// The bits of what is no number.
pub const NO_NUMBER: u32 = 0x7fc0_0000;

/// How many bits the fraction has, as a power of two.
pub const FRACTION: u32 = 0x80_0000;

/// How many of the least number above zero the number with these bits is. Infinity stands
/// where the next number would be.
pub open spec fn units(bits: int) -> nat {
    if bits < FRACTION {
        bits as nat
    } else {
        ((FRACTION + bits % FRACTION as int) * pow2(bits / FRACTION as int - 1)) as nat
    }
}

/// Twice the middle between a number and the next.
pub open spec fn middle(bits: int) -> nat {
    units(bits) + units(bits + 1)
}

/// `a` is less than `b`, or as much where that will do.
pub open spec fn up_to(a: nat, b: nat, or_equal: bool) -> bool {
    a < b || (or_equal && a == b)
}

/// Twice the fraction `num / den` in the units of the least number above zero, times `den`.
pub open spec fn twice_scaled(num: nat) -> nat {
    num * pow2(150)
}

/// The number with these bits is the nearest to `num / den`. In the middle between two the
/// one with an even last bit is taken, and from the middle behind the greatest on infinity.
pub open spec fn nearest(num: nat, den: nat, bits: u32) -> bool {
    &&& bits <= INFINITE
    &&& bits > 0 ==> up_to(middle(bits - 1) * den, twice_scaled(num), bits % 2 == 0)
    &&& bits < INFINITE ==> up_to(twice_scaled(num), middle(bits as int) * den, bits % 2 == 0)
}

/// The bits of the number nearest to `num / den`.
pub open spec fn magnitude_of(num: nat, den: nat) -> u32 {
    choose|bits: u32| nearest(num, den, bits)
}

/// How a middle is made up: a factor and a power of two.
proof fn lemma_middle(bits: int)
    requires
        0 <= bits,
    ensures
        ({
            let e = bits / FRACTION as int;
            let f = bits % FRACTION as int;
            let odd = if e == 0 {
                2 * f + 1
            } else {
                2 * FRACTION + 2 * f + 1
            };
            middle(bits) == odd * pow2(e - 1)
        }),
        units(bits) < units(bits + 1),
{
    let e = bits / FRACTION as int;
    let f = bits % FRACTION as int;
    let p = pow2(e - 1);
    lemma_pow_positive(e - 1);
    if f + 1 < FRACTION {
        assert((bits + 1) / FRACTION as int == e && (bits + 1) % FRACTION as int == f + 1) by (
        nonlinear_arith)
            requires
                e == bits / FRACTION as int,
                f == bits % FRACTION as int,
                f + 1 < FRACTION,
                FRACTION == 0x80_0000,
        ;
        if e > 0 {
            assert((FRACTION + f) * p + (FRACTION + f + 1) * p == (2 * FRACTION + 2 * f + 1) * p)
                by (nonlinear_arith);
            assert((FRACTION + f) * p < (FRACTION + f + 1) * p) by (nonlinear_arith)
                requires
                    p > 0,
            ;
        }
    } else {
        assert((bits + 1) / FRACTION as int == e + 1 && (bits + 1) % FRACTION as int == 0) by (
        nonlinear_arith)
            requires
                e == bits / FRACTION as int,
                f == bits % FRACTION as int,
                f + 1 >= FRACTION,
                FRACTION == 0x80_0000,
        ;
        if e > 0 {
            assert(pow2(e) == 2 * p);
            assert((FRACTION + f) * p + FRACTION * (2 * p) == (2 * FRACTION + 2 * f + 1) * p) by (
            nonlinear_arith)
                requires
                    f == FRACTION - 1,
            ;
            assert((FRACTION + f) * p < FRACTION * (2 * p)) by (nonlinear_arith)
                requires
                    f == FRACTION - 1,
                    p > 0,
            ;
        }
    }
    if e == 0 {
        assert(p == 1);
    }
}

proof fn lemma_units_grow(a: int, b: int)
    requires
        0 <= a < b,
    ensures
        units(a) < units(b),
        units(a) + 1 <= units(b),
    decreases b - a,
{
    lemma_middle(b - 1);
    if a < b - 1 {
        lemma_units_grow(a, b - 1);
    }
}

/// There is one nearest number at most.
proof fn lemma_nearest_once(num: nat, den: nat, a: u32, b: u32)
    requires
        den > 0,
        nearest(num, den, a),
        nearest(num, den, b),
    ensures
        a == b,
{
    if a < b {
        lemma_nearest_order(num, den, a, b);
    } else if b < a {
        lemma_nearest_order(num, den, b, a);
    }
}

proof fn lemma_nearest_order(num: nat, den: nat, a: u32, b: u32)
    requires
        den > 0,
        a < b,
    ensures
        !(nearest(num, den, a) && nearest(num, den, b)),
{
    let x = middle(a as int);
    let y = middle(b - 1);
    if a + 1 < b {
        lemma_units_grow(a as int, b - 1);
        lemma_units_grow(a + 1, b as int);
        assert(x * den < y * den) by (nonlinear_arith)
            requires
                x < y,
                den > 0,
        ;
    }
}

spec fn fits(num: nat, den: nat, bits: u32) -> bool {
    bits == INFINITE || up_to(twice_scaled(num), middle(bits as int) * den, bits % 2 == 0)
}

proof fn lemma_first_fit(num: nat, den: nat, bits: u32)
    requires
        den > 0,
        bits <= INFINITE,
        fits(num, den, bits),
        bits > 0 ==> !fits(num, den, (bits - 1) as u32),
    ensures
        nearest(num, den, bits),
        magnitude_of(num, den) == bits,
{
    assert(nearest(num, den, bits));
    lemma_nearest_once(num, den, bits, magnitude_of(num, den));
}

/// There is a nearest number.
proof fn lemma_nearest_from(num: nat, den: nat, from: u32)
    requires
        den > 0,
        from <= INFINITE,
        from > 0 ==> !fits(num, den, (from - 1) as u32),
    ensures
        nearest(num, den, magnitude_of(num, den)),
    decreases INFINITE - from,
{
    if fits(num, den, from) {
        lemma_first_fit(num, den, from);
    } else {
        lemma_nearest_from(num, den, (from + 1) as u32);
    }
}

/// The nearest number, once it is known to be one.
proof fn lemma_is_nearest(num: nat, den: nat, bits: u32)
    requires
        den > 0,
        nearest(num, den, bits),
    ensures
        magnitude_of(num, den) == bits,
{
    lemma_nearest_once(num, den, bits, magnitude_of(num, den));
}

/// Looks for the nearest number to a fraction.
fn find_nearest(num: &Vec<u32>, den: &Vec<u32>) -> (r: u32)
    requires
        big(den@) > 0,
    ensures
        r == magnitude_of(big(num@), big(den@)),
        r <= INFINITE,
{
    let twice = doubled(num, 150);
    let ghost n = big(num@);
    let ghost d = big(den@);
    let mut lo: u32 = 0;
    let mut hi: u32 = INFINITE;
    while lo < hi
        invariant
            n == big(num@),
            d == big(den@),
            d > 0,
            big(twice@) == twice_scaled(n),
            lo <= hi <= INFINITE,
            fits(n, d, hi),
            lo > 0 ==> !fits(n, d, (lo - 1) as u32),
        decreases hi - lo,
    {
        let mid: u32 = lo + (hi - lo) / 2;
        let e: u32 = mid / FRACTION;
        let f: u32 = mid % FRACTION;
        let odd: u32 = if e == 0 {
            2 * f + 1
        } else {
            2 * FRACTION + 2 * f + 1
        };
        let shift: u32 = if e == 0 {
            0
        } else {
            e - 1
        };
        let point = doubled(&times(den, odd, 0), shift);
        proof {
            lemma_middle(mid as int);
            let p = pow2(e - 1);
            assert(pow2(shift as int) == p);
            assert((d * odd + 0) * p == (odd * p) * d) by (nonlinear_arith);
            assert(big(point@) == middle(mid as int) * d);
        }
        let fit = match side_of(&twice, &point) {
            Side::Below => true,
            Side::At => mid % 2 == 0,
            Side::Above => false,
        };
        if fit {
            hi = mid;
        } else {
            lo = mid + 1;
        }
    }
    proof {
        lemma_first_fit(n, d, lo);
    }
    lo
}

// ---- reading ---------------------------------------------------------------------------------------

/// A sign stands in front of a text.
pub open spec fn is_signed(s: Seq<char>) -> bool {
    s.len() > 0 && (s[0] == '+' || s[0] == '-')
}

/// A text without the sign in front of it.
pub open spec fn unsigned(s: Seq<char>) -> Seq<char> {
    if is_signed(s) {
        s.skip(1)
    } else {
        s
    }
}

/// A minus stands in front of a text.
pub open spec fn has_minus(s: Seq<char>) -> bool {
    s.len() > 0 && s[0] == '-'
}

/// The exponent that a text says: digits, with a sign or without.
pub open spec fn exponent_of(s: Seq<char>) -> Option<int> {
    if !all_digits(unsigned(s)) {
        None
    } else if has_minus(s) {
        Some(-(digits_value(unsigned(s)) as int))
    } else {
        Some(digits_value(unsigned(s)) as int)
    }
}

/// Where the letter in front of the exponent stands.
pub open spec fn exponent_at(s: Seq<char>) -> int {
    min_int(char_from(s, 'e', 0), char_from(s, 'E', 0))
}

/// The digits of a number in a text, and the power of ten that they are to be multiplied
/// with. There are digits, with a point among them or without, and perhaps an exponent.
pub open spec fn decimal_parts(s: Seq<char>) -> Option<(Seq<char>, int)> {
    let at = exponent_at(s);
    let power = if at < s.len() {
        exponent_of(s.skip(at + 1))
    } else {
        Some(0)
    };
    let point = char_from(s.take(at), '.', 0);
    let whole = s.take(point);
    let part = if point < at {
        s.subrange(point + 1, at)
    } else {
        Seq::empty()
    };
    match power {
        Some(p) => if digits_or_none(whole) && digits_or_none(part) && whole.len() + part.len()
            > 0 {
            Some((whole + part, p - part.len()))
        } else {
            None
        },
        None => None,
    }
}

/// The number nearest to digits times a power of ten.
pub open spec fn scaled_magnitude(digits: Seq<char>, power: int) -> u32 {
    if power >= 0 {
        magnitude_of(digits_value(digits) * pow10(power), 1)
    } else {
        magnitude_of(digits_value(digits), pow10(-power))
    }
}

/// The number that a text without a sign says.
pub open spec fn magnitude_in(s: Seq<char>) -> Option<u32> {
    let low = ascii_lowered(s);
    if low == "inf"@ || low == "infinity"@ {
        Some(INFINITE)
    } else if low == "nan"@ {
        Some(NO_NUMBER)
    } else {
        match decimal_parts(s) {
            Some((digits, power)) => Some(scaled_magnitude(digits, power)),
            None => None,
        }
    }
}

/// The number that a text says; `None` when it says none.
pub open spec fn single_in(s: Seq<char>) -> Option<u32> {
    match magnitude_in(unsigned(s)) {
        Some(bits) => Some(
            if has_minus(s) {
                (SIGN + bits) as u32
            } else {
                bits
            },
        ),
        None => None,
    }
}

proof fn lemma_digits_below(s: Seq<char>)
    requires
        digits_or_none(s),
    ensures
        digits_value(s) < pow10(s.len() as int),
    decreases s.len(),
{
    if s.len() > 0 {
        assert(is_digit(s[s.len() - 1]));
        assert forall|i: int| 0 <= i < s.drop_last().len() implies is_digit(
            #[trigger] s.drop_last()[i],
        ) by {
            assert(is_digit(s[i]));
        }
        lemma_digits_below(s.drop_last());
    }
}

proof fn lemma_zero(digits: Seq<char>, power: int)
    requires
        digits_value(digits) == 0,
    ensures
        scaled_magnitude(digits, power) == 0,
{
    let den = pow10(-power);
    lemma_pow_positive(-power);
    assert(middle(0) == 1);
    assert(0 * pow2(150) == 0) by (nonlinear_arith);
    assert(0 * pow10(power) == 0) by (nonlinear_arith);
    assert(nearest(0, den, 0));
    assert(nearest(0, 1, 0));
    lemma_is_nearest(0, den, 0);
    lemma_is_nearest(0, 1, 0);
}

/// What is this large is nearest to infinity.
proof fn lemma_large(digits: Seq<char>, power: int)
    requires
        digits_value(digits) > 0,
        power > 50,
    ensures
        scaled_magnitude(digits, power) == INFINITE,
{
    let n = digits_value(digits);
    let num = n * pow10(power);
    lemma_pow10_grows(51, power);
    lemma_tens_and_twos(51);
    assert(num >= pow10(power)) by (nonlinear_arith)
        requires
            num == n * pow10(power),
            n > 0,
    ;
    lemma_pow2_sum(153, 150);
    assert(num * pow2(150) >= pow2(153) * pow2(150)) by (nonlinear_arith)
        requires
            num >= pow2(153),
    ;
    let last = INFINITE - 1;
    lemma_units_grow(last, INFINITE as int);
    assert(pow2(23) == FRACTION) by {
        reveal_with_fuel(pow2, 24);
    }
    lemma_pow2_sum(23, 254);
    assert(INFINITE as int / FRACTION as int == 255 && INFINITE as int % FRACTION as int == 0);
    assert(units(INFINITE as int) == pow2(277));
    assert(pow2(278) == 2 * pow2(277));
    lemma_pow2_grows(278, 303);
    assert(nearest(num, 1, INFINITE));
    lemma_is_nearest(num, 1, INFINITE);
}

/// What is this small is nearest to zero.
proof fn lemma_small(digits: Seq<char>, power: int)
    requires
        digits_or_none(digits),
        power + digits.len() < -60,
    ensures
        scaled_magnitude(digits, power) == 0,
{
    let n = digits_value(digits);
    let len = digits.len() as int;
    let den = pow10(-power);
    lemma_digits_below(digits);
    lemma_pow10_sum(len, 60);
    lemma_pow10_grows(len + 60, -power);
    lemma_tens_and_twos(60);
    lemma_pow2_grows(150, 180);
    lemma_pow_positive(150);
    lemma_pow_positive(-power);
    let t = pow10(len);
    assert(n * pow2(150) < t * pow10(60)) by (nonlinear_arith)
        requires
            n < t,
            0 < pow2(150) <= pow10(60),
    ;
    assert(middle(0) == 1);
    assert(nearest(n, den, 0));
    lemma_is_nearest(n, den, 0);
}

/// A limit for exponents: beyond it all are alike.
const FAR: i128 = 0x1_0000_0000_0000_0000_0000_0000;

/// An exponent as it is read: beyond the limit it need not be exact.
spec fn reads_as(a: int, b: int) -> bool {
    a == b || (a >= FAR && b >= FAR) || (a <= -FAR && b <= -FAR)
}

fn exponent_digits(v: &Vec<char>, from: usize, to: usize) -> (r: i128)
    requires
        from <= to <= v@.len(),
        digits_or_none(v@.subrange(from as int, to as int)),
    ensures
        0 <= r <= FAR,
        reads_as(r as int, digits_value(v@.subrange(from as int, to as int)) as int),
{
    let ghost s = v@.subrange(from as int, to as int);
    let mut n: i128 = 0;
    let mut i: usize = from;
    assert(s.take(0) =~= Seq::empty());
    while i < to
        invariant
            s == v@.subrange(from as int, to as int),
            from <= i <= to <= v@.len(),
            digits_or_none(s),
            0 <= n < FAR,
            n == digits_value(s.take(i - from)),
        decreases to - i,
    {
        let c: char = v[i];
        proof {
            assert(c == s[i - from]);
            assert(is_digit(s[i - from]));
            assert(s.take(i - from + 1).drop_last() =~= s.take(i - from));
        }
        n = 10 * n + (c as u32 - '0' as u32) as i128;
        i += 1;
        if n >= FAR {
            proof {
                lemma_digits_grow(s, i - from);
            }
            return FAR;
        }
    }
    assert(s.take(i - from) =~= s);
    n
}

fn read_exponent(v: &Vec<char>, from: usize) -> (r: Option<i128>)
    requires
        from <= v@.len(),
    ensures
        match (r, exponent_of(v@.skip(from as int))) {
            (Some(a), Some(b)) => -FAR <= a <= FAR && reads_as(a as int, b),
            (None, None) => true,
            _ => false,
        },
{
    let n: usize = v.len();
    let ghost s = v@.skip(from as int);
    let signed = from < n && (v[from] == '+' || v[from] == '-');
    let minus = from < n && v[from] == '-';
    let start: usize = if signed {
        from + 1
    } else {
        from
    };
    assert(v@.subrange(start as int, n as int) =~= unsigned(s));
    if start == n || !digits_until(v, start, n) {
        return None;
    }
    let p: i128 = exponent_digits(v, start, n);
    if minus {
        Some(-p)
    } else {
        Some(p)
    }
}

/// The number that digits say.
fn large(digits: &Vec<char>) -> (r: Vec<u32>)
    requires
        digits_or_none(digits@),
    ensures
        big(r@) == digits_value(digits@),
{
    let mut r: Vec<u32> = Vec::new();
    let mut i: usize = 0;
    assert(digits@.take(0) =~= Seq::empty());
    while i < digits.len()
        invariant
            digits_or_none(digits@),
            i <= digits@.len(),
            big(r@) == digits_value(digits@.take(i as int)),
        decreases digits@.len() - i,
    {
        let c: char = digits[i];
        proof {
            assert(is_digit(digits@[i as int]));
            assert(digits@.take(i + 1).drop_last() =~= digits@.take(i as int));
        }
        r = times(&r, 10, c as u32 - '0' as u32);
        i += 1;
    }
    assert(digits@.take(i as int) =~= digits@);
    r
}

/// The number nearest to digits times a power of ten.
fn read_scaled(digits: &Vec<char>, power: i128) -> (r: u32)
    requires
        digits_or_none(digits@),
        -2 * FAR <= power <= 2 * FAR,
    ensures
        r == scaled_magnitude(digits@, power as int),
        r <= INFINITE,
{
    let n = large(digits);
    let none: Vec<u32> = Vec::new();
    if side_of(&n, &none) == Side::At {
        proof {
            lemma_zero(digits@, power as int);
        }
        return 0;
    }
    if power > 50 {
        proof {
            lemma_large(digits@, power as int);
        }
        return INFINITE;
    }
    if power + (digits.len() as i128) < -60 {
        proof {
            lemma_small(digits@, power as int);
        }
        return 0;
    }
    let one = times(&none, 1, 1);
    assert(0 * 1 + 1 == 1);
    if power >= 0 {
        find_nearest(&with_zeros(&n, power as u128), &one)
    } else {
        let den = with_zeros(&one, (-power) as u128);
        proof {
            lemma_pow_positive(-power);
            assert(1 * pow10(-power) == pow10(-power)) by (nonlinear_arith);
        }
        find_nearest(&n, &den)
    }
}

/// How far a power of ten may be from what it is read as.
proof fn lemma_far_powers(digits: Seq<char>, a: int, b: int, part: int)
    requires
        reads_as(a, b),
        digits_or_none(digits),
        0 <= part <= digits.len() < FAR - 100,
    ensures
        scaled_magnitude(digits, a - part) == scaled_magnitude(digits, b - part),
{
    if a != b {
        if digits_value(digits) == 0 {
            lemma_zero(digits, a - part);
            lemma_zero(digits, b - part);
        } else if a >= FAR {
            lemma_large(digits, a - part);
            lemma_large(digits, b - part);
        } else {
            lemma_small(digits, a - part);
            lemma_small(digits, b - part);
        }
    }
}

fn joined_digits(v: &Vec<char>, point: usize, from: usize, to: usize) -> (r: Vec<char>)
    requires
        point <= v@.len(),
        from <= to <= v@.len(),
    ensures
        r@ == v@.take(point as int) + v@.subrange(from as int, to as int),
{
    let mut r: Vec<char> = Vec::new();
    let mut i: usize = 0;
    while i < point
        invariant
            i <= point <= v@.len(),
            r@ == v@.take(i as int),
        decreases point - i,
    {
        r.push(v[i]);
        i += 1;
        assert(r@ =~= v@.take(i as int));
    }
    let ghost whole = r@;
    let mut k: usize = from;
    assert(r@ =~= whole + v@.subrange(from as int, from as int));
    while k < to
        invariant
            from <= k <= to <= v@.len(),
            r@ == whole + v@.subrange(from as int, k as int),
        decreases to - k,
    {
        r.push(v[k]);
        k += 1;
        assert(r@ =~= whole + v@.subrange(from as int, k as int));
    }
    r
}

fn read_decimal(v: &Vec<char>) -> (r: Option<u32>)
    ensures
        r == match decimal_parts(v@) {
            Some((digits, power)) => Some(scaled_magnitude(digits, power)),
            None => None,
        },
        r matches Some(bits) ==> bits <= INFINITE,
{
    let n: usize = v.len();
    proof {
        lemma_char_from(v@, 'e', 0);
        lemma_char_from(v@, 'E', 0);
    }
    let small: usize = find_char(v, 'e', 0);
    let capital: usize = find_char(v, 'E', 0);
    let at: usize = if small <= capital {
        small
    } else {
        capital
    };
    let power: i128 = if at < n {
        match read_exponent(v, at + 1) {
            Some(p) => p,
            None => {
                return None;
            },
        }
    } else {
        0
    };
    let ghost front = v@.take(at as int);
    proof {
        lemma_char_from(front, '.', 0);
        lemma_char_from(v@, '.', 0);
    }
    let dot: usize = find_char(v, '.', 0);
    let point: usize = if dot < at {
        dot
    } else {
        at
    };
    proof {
        assert forall|i: int| 0 <= i < point implies front[i] != '.' by {
            assert(front[i] == v@[i]);
        }
        lemma_char_from_at(front, '.', 0, point as int);
    }
    let from: usize = if point < at {
        point + 1
    } else {
        at
    };
    let ghost whole = v@.take(point as int);
    let ghost part = v@.subrange(from as int, at as int);
    proof {
        assert(v@.subrange(0, point as int) =~= whole);
        assert(point == at ==> part =~= Seq::empty());
    }
    if !digits_until(v, 0, point) || !digits_until(v, from, at) || (point == 0 && from == at) {
        return None;
    }
    let digits = joined_digits(v, point, from, at);
    proof {
        assert forall|i: int| 0 <= i < digits@.len() implies is_digit(#[trigger] digits@[i]) by {
            if i < whole.len() {
                assert(is_digit(whole[i]));
            } else {
                assert(is_digit(part[i - whole.len()]));
            }
        }
        let said = if at < n {
            exponent_of(v@.skip(at + 1))->Some_0
        } else {
            0
        };
        lemma_far_powers(digits@, power as int, said, part.len() as int);
    }
    Some(read_scaled(&digits, power - (at - from) as i128))
}

/// Reads a number.
pub fn parse_single(t: &str) -> (r: Option<u32>)
    ensures
        r == single_in(t@),
{
    let v = chars_of(t);
    let n: usize = v.len();
    let signed = n > 0 && (v[0] == '+' || v[0] == '-');
    let minus = n > 0 && v[0] == '-';
    let start: usize = if signed {
        1
    } else {
        0
    };
    let body = string_range(&v, start, n);
    assert(body@ =~= unsigned(t@));
    let low = to_ascii_lowercase(body.as_str());
    let bits: u32 = if same(low.as_str(), "inf") || same(low.as_str(), "infinity") {
        INFINITE
    } else if same(low.as_str(), "nan") {
        NO_NUMBER
    } else {
        match read_decimal(&chars_of(body.as_str())) {
            Some(b) => b,
            None => {
                return None;
            },
        }
    };
    if minus {
        Some(SIGN + bits)
    } else {
        Some(bits)
    }
}

// ---- writing ---------------------------------------------------------------------------------------

/// A fraction rounded to a whole number, in the middle between two to the even one.
pub open spec fn rounded(num: nat, den: nat) -> nat {
    let q = num / den;
    let left = num % den;
    if 2 * left > den || (2 * left == den && q % 2 == 1) {
        q + 1
    } else {
        q
    }
}

/// The hundredths of the finite number with these bits, rounded.
pub open spec fn hundredths(bits: int) -> nat {
    rounded(100 * units(bits), pow2(149))
}

/// A number as it is written with two decimals.
pub open spec fn single_text(bits: u32) -> Seq<char> {
    let magnitude = (bits % SIGN) as int;
    if magnitude > INFINITE {
        "NaN"@
    } else {
        (if bits >= SIGN {
            "-"@
        } else {
            Seq::empty()
        }) + if magnitude == INFINITE {
            "inf"@
        } else {
            decimal(hundredths(magnitude) / 100) + "."@ + two_digits(
                (hundredths(magnitude) % 100) as int,
            )
        }
    }
}

fn wide_text(n: u128) -> (s: String)
    ensures
        s@ == decimal(n as nat),
    decreases n,
{
    if n < 10 {
        decimal_text(n as u64)
    } else {
        let mut s = wide_text(n / 10);
        s.append(decimal_text((n % 10) as u64).as_str());
        assert(s@ =~= decimal(n as nat));
        s
    }
}

proof fn lemma_rounded_scaled(num: nat, den: nat, by: nat)
    requires
        den > 0,
        by > 0,
    ensures
        rounded(num * by, den * by) == rounded(num, den),
{
    let q = num / den;
    let left = num % den;
    vstd::arithmetic::div_mod::lemma_fundamental_div_mod(num as int, den as int);
    assert(num * by == q * (den * by) + left * by) by (nonlinear_arith)
        requires
            num == den * q + left,
    ;
    assert(0 <= left * by < den * by) by (nonlinear_arith)
        requires
            0 <= left < den,
            by > 0,
    ;
    vstd::arithmetic::div_mod::lemma_fundamental_div_mod_converse(
        (num * by) as int,
        (den * by) as int,
        q as int,
        (left * by) as int,
    );
    assert((2 * (left * by) > den * by) == (2 * left > den)) by (nonlinear_arith)
        requires
            by > 0,
    ;
    assert((2 * (left * by) == den * by) == (2 * left == den)) by (nonlinear_arith)
        requires
            by > 0,
    ;
}

/// The whole part and the hundredths of a finite number.
fn split_hundredths(bits: u32) -> (r: (u128, u64))
    requires
        bits < INFINITE,
    ensures
        r.0 == hundredths(bits as int) / 100,
        r.1 == hundredths(bits as int) % 100,
{
    let e: u32 = bits / FRACTION;
    let f: u32 = bits % FRACTION;
    let m: u32 = if e == 0 {
        f
    } else {
        FRACTION + f
    };
    let shift: u32 = if e == 0 {
        0
    } else {
        e - 1
    };
    proof {
        assert(pow2(0) == 1);
        assert(units(bits as int) == m * pow2(shift as int));
        lemma_pow_positive(149);
    }
    if shift >= 149 {
        let mut w: u128 = m as u128;
        let mut i: u32 = 149;
        assert(pow2(24) == 0x100_0000) by {
            reveal_with_fuel(pow2, 25);
        }
        assert(pow2(128) == 0x1_0000_0000_0000_0000_0000_0000_0000_0000) by {
            reveal_with_fuel(pow2, 17);
            lemma_pow2_sum(16, 16);
            assert(pow2(32) == 0x1_0000_0000);
            lemma_pow2_sum(32, 32);
            assert(pow2(64) == 0x1_0000_0000_0000_0000);
            lemma_pow2_sum(64, 64);
        }
        assert(m * pow2(0) == m) by (nonlinear_arith)
            requires
                pow2(0) == 1,
        ;
        while i < shift
            invariant
                149 <= i <= shift <= 253,
                m < 0x100_0000,
                w == m * pow2(i - 149),
                pow2(24) == 0x100_0000,
                pow2(128) == 0x1_0000_0000_0000_0000_0000_0000_0000_0000,
            decreases shift - i,
        {
            proof {
                let p = pow2(i - 149);
                assert(pow2(i - 148) == 2 * p);
                lemma_pow2_grows(i - 148, 104);
                lemma_pow2_sum(24, 104);
                lemma_pow_positive(i - 148);
                assert(2 * (m * p) == m * (2 * p)) by (nonlinear_arith);
                assert(m * (2 * p) < 0x100_0000 * pow2(104)) by (nonlinear_arith)
                    requires
                        m < 0x100_0000,
                        0 < 2 * p <= pow2(104),
                ;
            }
            w = 2 * w;
            i += 1;
        }
        proof {
            let a = pow2(shift - 149);
            let b = pow2(149);
            lemma_pow2_sum(shift - 149, 149);
            assert(100 * (m * (a * b)) == (100 * (m * a)) * b) by (nonlinear_arith);
            lemma_rounded_scaled((100 * w) as nat, 1, b);
            assert(1 * b == b);
            assert(rounded((100 * w) as nat, 1) == 100 * w);
        }
        (w, 0)
    } else {
        let k: u32 = 149 - shift;
        proof {
            let a = pow2(shift as int);
            lemma_pow2_sum(k as int, shift as int);
            lemma_pow_positive(shift as int);
            lemma_pow_positive(k as int);
            assert(100 * (m * a) == (100 * m) * a) by (nonlinear_arith);
            lemma_rounded_scaled((100 * m) as nat, pow2(k as int), a);
        }
        let h: u64 = if k >= 32 {
            proof {
                lemma_pow2_grows(32, k as int);
                assert(pow2(32) == 0x1_0000_0000) by {
                    lemma_pow2_sum(16, 16);
                    reveal_with_fuel(pow2, 17);
                }
                vstd::arithmetic::div_mod::lemma_basic_div((100 * m) as int, pow2(k as int) as int);
                vstd::arithmetic::div_mod::lemma_small_mod((100 * m) as nat, pow2(k as int));
            }
            0
        } else {
            let mut d: u64 = 1;
            let mut i: u32 = 0;
            while i < k
                invariant
                    i <= k < 32,
                    d == pow2(i as int),
                    d <= 0x1_0000_0000,
                decreases k - i,
            {
                proof {
                    lemma_pow2_grows(i + 1, 32);
                    assert(pow2(32) == 0x1_0000_0000) by {
                        lemma_pow2_sum(16, 16);
                        reveal_with_fuel(pow2, 17);
                    }
                }
                d = 2 * d;
                i += 1;
            }
            let num: u64 = 100 * m as u64;
            let q: u64 = num / d;
            let left: u64 = num % d;
            assert(q <= num) by (nonlinear_arith)
                requires
                    q == num / d,
                    d > 0,
            ;
            if 2 * left > d || (2 * left == d && q % 2 == 1) {
                q + 1
            } else {
                q
            }
        };
        ((h / 100) as u128, h % 100)
    }
}

/// Writes a number with two decimals.
pub fn write_single(bits: u32) -> (t: String)
    ensures
        t@ == single_text(bits),
{
    let magnitude: u32 = bits % SIGN;
    if magnitude > INFINITE {
        return "NaN".to_string();
    }
    let mut t = String::new();
    if bits >= SIGN {
        t.append("-");
    }
    let ghost sign = if bits >= SIGN {
        "-"@
    } else {
        Seq::empty()
    };
    assert(t@ =~= sign);
    if magnitude == INFINITE {
        t.append("inf");
    } else {
        let (whole, part) = split_hundredths(magnitude);
        t.append(wide_text(whole).as_str());
        t.append(".");
        t.append(two_digit_text(part).as_str());
    }
    assert(t@ =~= single_text(bits));
    t
}

// ---- comparing ---------------------------------------------------------------------------------------

/// How many of the least number above zero the number with these bits is, with its sign.
pub open spec fn signed_units(bits: u32) -> int {
    if bits < SIGN {
        units(bits as int) as int
    } else {
        -(units(bits - SIGN) as int)
    }
}

/// A whole number that numbers are ordered by.
pub open spec fn rank_of(bits: u32) -> u32 {
    if bits < SIGN {
        (SIGN + bits) as u32
    } else {
        (SIGN - (bits - SIGN)) as u32
    }
}

pub fn rank(bits: u32) -> (r: u32)
    ensures
        r == rank_of(bits),
{
    if bits < SIGN {
        SIGN + bits
    } else {
        SIGN - (bits - SIGN)
    }
}

// ---- laws ------------------------------------------------------------------------------------------

/// How far a rounded fraction is from the fraction.
proof fn lemma_rounded_near(num: nat, den: nat)
    requires
        den > 0,
    ensures
        ({
            let h = rounded(num, den);
            let gap = 2 * num - 2 * (h * den);
            &&& -den <= gap <= den
            &&& (gap == den || gap == -den) ==> h % 2 == 0
        }),
{
    let q = num / den;
    let left = num % den;
    vstd::arithmetic::div_mod::lemma_fundamental_div_mod(num as int, den as int);
    assert(q * den + left == num) by (nonlinear_arith)
        requires
            num == den * q + left,
    ;
    assert((q + 1) * den == q * den + den) by (nonlinear_arith);
}

/// Only the rounded number is that near.
proof fn lemma_near_is_rounded(num: nat, den: nat, h: nat)
    requires
        den > 0,
        -den <= 2 * num - 2 * (h * den) <= den,
        (2 * num - 2 * (h * den) == den || 2 * num - 2 * (h * den) == -den) ==> h % 2 == 0,
    ensures
        rounded(num, den) == h,
{
    let q = num / den;
    let left = num % den;
    vstd::arithmetic::div_mod::lemma_fundamental_div_mod(num as int, den as int);
    assert(q * den + left == num) by (nonlinear_arith)
        requires
            num == den * q + left,
    ;
    if h > q + 1 {
        assert(h * den >= q * den + 2 * den) by (nonlinear_arith)
            requires
                h >= q + 2,
        ;
    } else if h < q {
        assert(h * den + den <= q * den) by (nonlinear_arith)
            requires
                h + 1 <= q,
        ;
    } else if h == q + 1 {
        assert((q + 1) * den == q * den + den) by (nonlinear_arith);
    }
}

/// The nearest number is no farther away than another.
proof fn lemma_no_nearer(num: nat, den: nat, near: u32, other: u32)
    requires
        den > 0,
        nearest(num, den, near),
        other <= INFINITE,
    ensures
        ({
            let x = num * pow2(149);
            let a = den * units(near as int) - x;
            let b = den * units(other as int) - x;
            (-b <= a <= b) || (b <= a <= -b)
        }),
{
    let x = num * pow2(149);
    assert(pow2(150) == 2 * pow2(149));
    assert(num * (2 * pow2(149)) == 2 * (num * pow2(149))) by (nonlinear_arith);
    let u = units(near as int);
    let o = units(other as int);
    if other > near {
        let n = units(near + 1);
        if near + 1 < other {
            lemma_units_grow(near + 1, other as int);
        }
        lemma_middle(near as int);
        assert((u + n) * den <= den * u + den * o) by (nonlinear_arith)
            requires
                n <= o,
        ;
        assert(den * u <= den * o) by (nonlinear_arith)
            requires
                u < n <= o,
        ;
    } else if other < near {
        let n = units(near - 1);
        if other < near - 1 {
            lemma_units_grow(other as int, near - 1);
        }
        lemma_middle(near - 1);
        assert((n + u) * den >= den * u + den * o) by (nonlinear_arith)
            requires
                n >= o,
        ;
        assert(den * o <= den * u) by (nonlinear_arith)
            requires
                o <= n < u,
        ;
    }
}

/// The number nearest to the hundredths of a number has these hundredths too.
proof fn lemma_hundredths_stay(bits: u32)
    requires
        bits < INFINITE,
    ensures
        magnitude_of(hundredths(bits as int), 100) < INFINITE,
        hundredths(magnitude_of(hundredths(bits as int), 100) as int) == hundredths(bits as int),
{
    let h = hundredths(bits as int);
    let p = pow2(149);
    let near = magnitude_of(h, 100);
    lemma_pow_positive(149);
    lemma_nearest_from(h, 100, 0);
    lemma_no_nearer(h, 100, near, bits);
    lemma_rounded_near(100 * units(bits as int), p);
    if near == INFINITE {
        let last = INFINITE - 1;
        if bits < last {
            lemma_units_grow(bits as int, last);
        }
        assert(last / FRACTION as int == 254 && last % FRACTION as int == FRACTION - 1);
        assert(INFINITE as int / FRACTION as int == 255 && INFINITE as int % FRACTION as int == 0);
        let g = pow2(253);
        assert(pow2(254) == 2 * g);
        assert(FRACTION * (2 * g) - (FRACTION + (FRACTION - 1)) * g == g) by (nonlinear_arith);
        lemma_pow2_grows(149, 253);
        assert(units(INFINITE as int) - units(last) == g);
    }
    lemma_near_is_rounded(100 * units(near as int), p, h);
}

proof fn lemma_no_char(s: Seq<char>, c: char)
    requires
        forall|i: int| 0 <= i < s.len() ==> s[i] != c,
    ensures
        char_from(s, c, 0) == s.len(),
{
    lemma_char_from_at(s, c, 0, s.len() as int);
}

proof fn lemma_digits_sum(a: Seq<char>, b: Seq<char>)
    requires
        digits_or_none(b),
    ensures
        digits_value(a + b) == digits_value(a) * pow10(b.len() as int) + digits_value(b),
    decreases b.len(),
{
    if b.len() == 0 {
        assert(a + b =~= a);
        assert(digits_value(a) * pow10(0) == digits_value(a)) by (nonlinear_arith)
            requires
                pow10(0) == 1,
        ;
    } else {
        assert(is_digit(b[b.len() - 1]));
        assert forall|i: int| 0 <= i < b.drop_last().len() implies is_digit(
            #[trigger] b.drop_last()[i],
        ) by {
            assert(is_digit(b[i]));
        }
        lemma_digits_sum(a, b.drop_last());
        assert((a + b).drop_last() =~= a + b.drop_last());
        let v = digits_value(a);
        let p = pow10(b.len() - 1);
        assert(10 * (v * p) == v * (10 * p)) by (nonlinear_arith);
    }
}

/// What stands behind the sign of a finite number is read as its hundredths.
proof fn lemma_written_is_read(h: nat)
    ensures
        ({
            let t = decimal(h / 100) + "."@ + two_digits((h % 100) as int);
            &&& !is_signed(t)
            &&& magnitude_in(t) == Some(magnitude_of(h, 100))
        }),
{
    let w = decimal(h / 100);
    let tens = decimal((h % 100) / 10);
    let ones = decimal((h % 100) % 10);
    let p = two_digits((h % 100) as int);
    let t = w + "."@ + p;
    reveal_strlit(".");
    reveal_strlit("inf");
    reveal_strlit("infinity");
    reveal_strlit("nan");
    lemma_decimal(h / 100);
    lemma_decimal((h % 100) / 10);
    lemma_decimal((h % 100) % 10);
    assert(p =~= tens + ones);
    assert(p.len() == 2);
    let n = w.len() as int;
    assert forall|i: int| 0 <= i < t.len() && i != n implies is_digit(#[trigger] t[i]) by {
        if i < n {
            assert(is_digit(w[i]));
        } else if i == n + 1 {
            assert(is_digit(tens[0]));
        } else {
            assert(is_digit(ones[0]));
        }
    }
    assert(t[n] == '.');
    assert(is_digit(t[0]));
    assert(ascii_lowered(t)[0] == t[0]);
    lemma_no_char(t, 'e');
    lemma_no_char(t, 'E');
    assert(t.take(t.len() as int) =~= t);
    lemma_char_from_at(t, '.', 0, n);
    assert(t.take(n) =~= w);
    assert(t.subrange(n + 1, t.len() as int) =~= p);
    assert(all_digits(p));
    assert(decimal_parts(t) == Some((w + p, -2int)));
    lemma_digits_sum(w, p);
    lemma_digits_sum(tens, ones);
    assert(pow10(2) == 100 && pow10(1) == 10) by {
        reveal_with_fuel(pow10, 3);
    }
    assert(digits_value(p) == 10 * ((h % 100) / 10) + (h % 100) % 10) by {
        assert(ones.len() == 1);
        assert(digits_value(tens) * pow10(1) == digits_value(tens) * 10);
    }
    assert(digits_value(w) * pow10(2) == digits_value(w) * 100);
    assert(digits_value(w + p) == h);
}

/// Every fraction has one nearest number.
pub proof fn law_one_is_nearest(num: nat, den: nat, bits: u32)
    requires
        den > 0,
    ensures
        nearest(num, den, bits) <==> bits == magnitude_of(num, den),
{
    lemma_nearest_from(num, den, 0);
    if nearest(num, den, bits) {
        lemma_is_nearest(num, den, bits);
    }
}

/// A number that was written with two decimals is written the same after it was read back.
pub proof fn law_written_numbers_stay(bits: u32)
    ensures
        single_in(single_text(bits)) matches Some(back) && single_text(back) == single_text(bits),
{
    let magnitude = bits % SIGN;
    let t = single_text(bits);
    reveal_strlit("-");
    reveal_strlit("NaN");
    reveal_strlit("inf");
    reveal_strlit("nan");
    reveal_strlit("infinity");
    if magnitude > INFINITE {
        assert(ascii_lowered("NaN"@) =~= "nan"@);
        assert("nan"@.len() == 3 && "inf"@[0] == 'i' && "nan"@[0] == 'n');
        assert(single_in(t) == Some(NO_NUMBER));
    } else {
        let body = if magnitude == INFINITE {
            "inf"@
        } else {
            decimal(hundredths(magnitude as int) / 100) + "."@ + two_digits(
                (hundredths(magnitude as int) % 100) as int,
            )
        };
        if magnitude == INFINITE {
            assert(ascii_lowered("inf"@) =~= "inf"@);
            assert(!is_signed(body));
        } else {
            lemma_written_is_read(hundredths(magnitude as int));
            lemma_hundredths_stay(magnitude);
        }
        if bits >= SIGN {
            assert(t =~= "-"@ + body);
            assert(t.skip(1) =~= body);
        } else {
            assert(t =~= body);
        }
    }
}

proof fn lemma_units_order(x: int, y: int)
    requires
        0 <= x,
        0 <= y,
    ensures
        x <= y <==> units(x) <= units(y),
        units(x) == 0 <==> x == 0,
{
    if x < y {
        lemma_units_grow(x, y);
    } else if y < x {
        lemma_units_grow(y, x);
    }
    assert(units(0) == 0);
    if 0 < x {
        lemma_units_grow(0, x);
    }
}

/// Ranks are in the order of the numbers.
pub proof fn law_ranks_order_numbers(a: u32, b: u32)
    requires
        a % SIGN <= INFINITE,
        b % SIGN <= INFINITE,
    ensures
        rank_of(a) <= rank_of(b) <==> signed_units(a) <= signed_units(b),
{
    let x = if a < SIGN {
        a as int
    } else {
        a - SIGN
    };
    let y = if b < SIGN {
        b as int
    } else {
        b - SIGN
    };
    let u = units(x);
    let v = units(y);
    lemma_units_order(x, y);
    lemma_units_order(y, x);
    assert(signed_units(a) == if a < SIGN {
        u as int
    } else {
        -(u as int)
    });
    assert(signed_units(b) == if b < SIGN {
        v as int
    } else {
        -(v as int)
    });
}

/// A number that is written has no white space in it.
pub proof fn law_numbers_have_no_spaces(bits: u32, i: int)
    requires
        0 <= i < single_text(bits).len(),
    ensures
        !is_space(single_text(bits)[i]),
{
    let magnitude = (bits % SIGN) as int;
    let s = single_text(bits);
    reveal_strlit("-");
    reveal_strlit(".");
    reveal_strlit("NaN");
    reveal_strlit("inf");
    if magnitude < INFINITE {
        let h = hundredths(magnitude);
        lemma_decimal(h / 100);
        lemma_decimal((h % 100) / 10);
        lemma_decimal((h % 100) % 10);
        let sign = if bits >= SIGN {
            "-"@
        } else {
            Seq::empty()
        };
        let a = decimal(h / 100);
        let b = two_digits((h % 100) as int);
        assert(b =~= decimal((h % 100) / 10) + decimal((h % 100) % 10));
        assert(s =~= sign + a + "."@ + b);
        let k = i - sign.len();
        if k < 0 {
        } else if k < a.len() {
            assert(is_digit(a[k]));
        } else if k == a.len() {
        } else if k == a.len() + 1 {
            assert(is_digit(decimal((h % 100) / 10)[0]));
        } else {
            assert(is_digit(decimal((h % 100) % 10)[0]));
        }
    }
}

pub proof fn lemma_nine_and_a_half()
    ensures
        hundredths(0x4118_0000) == 950,
{
    let u = units(0x4118_0000);
    assert(0x4118_0000int / FRACTION as int == 130 && 0x4118_0000int % FRACTION as int == 0x18_0000);
    lemma_pow2_sum(20, 129);
    assert(pow2(20) == 0x10_0000) by {
        reveal_with_fuel(pow2, 21);
    }
    let p = pow2(129);
    lemma_pow_positive(129);
    assert(u == 0x98_0000 * p);
    assert(100 * (0x98_0000 * p) == (100 * 0x98_0000) * p) by (nonlinear_arith);
    lemma_rounded_scaled(100 * 0x98_0000, 0x10_0000, p);
}

/// The bits of a number say it: the sign, an exponent of base two and a fraction. One is 127
/// times 2 to the 23rd, and each step of the exponent doubles.
pub proof fn law_bits_of_numbers(bits: int)
    requires
        0x80_0000 <= bits,
        bits + 0x80_0000 <= 0x7f80_0000,
    ensures
        units(bits + 0x80_0000) == 2 * units(bits),
        units(0) == 0,
        units(1) == 1,
        units(0x3f80_0000) == pow2(149),
{
    let e = bits / FRACTION as int;
    let f = bits % FRACTION as int;
    assert((bits + 0x80_0000) / FRACTION as int == e + 1 && (bits + 0x80_0000) % FRACTION as int == f)
        by (nonlinear_arith)
        requires
            e == bits / FRACTION as int,
            f == bits % FRACTION as int,
            FRACTION == 0x80_0000,
    ;
    assert(e >= 1) by (nonlinear_arith)
        requires
            e == bits / FRACTION as int,
            bits >= 0x80_0000,
            FRACTION == 0x80_0000,
    ;
    let p = pow2(e - 1);
    assert(pow2(e) == 2 * p);
    assert((FRACTION + f) * (2 * p) == 2 * ((FRACTION + f) * p)) by (nonlinear_arith);
    assert(0x3f80_0000int / FRACTION as int == 127 && 0x3f80_0000int % FRACTION as int == 0);
    lemma_pow2_sum(23, 126);
    assert(pow2(23) == FRACTION) by {
        reveal_with_fuel(pow2, 24);
    }
}

/// A number is rounded to the hundredths that are nearest to it.
pub proof fn law_hundredths_are_nearest(bits: int)
    ensures
        ({
            let h = hundredths(bits) as int;
            let one = pow2(149) as int;
            let x = 100 * units(bits);
            2 * (h * one - x) <= one && 2 * (x - h * one) <= one
        }),
{
    lemma_pow_positive(149);
    lemma_rounded_near(100 * units(bits), pow2(149));
}

/// A number is written with its sign, its whole part, a point and two digits.
pub proof fn law_written_numbers(bits: u32)
    ensures
        ({
            let m = (bits % 0x8000_0000) as int;
            let h = hundredths(m);
            let t = decimal(h / 100) + "."@ + two_digits((h % 100) as int);
            &&& bits < 0x7f80_0000 ==> single_text(bits) == t
            &&& 0x8000_0000 <= bits < 0xff80_0000 ==> single_text(bits) == "-"@ + t
            &&& bits == 0x7f80_0000 ==> single_text(bits) == "inf"@
            &&& bits == 0xff80_0000 ==> single_text(bits) == "-"@ + "inf"@
            &&& m > 0x7f80_0000 ==> single_text(bits) == "NaN"@
        }),
{
    let m = (bits % SIGN) as int;
    let h = hundredths(m);
    let t = decimal(h / 100) + "."@ + two_digits((h % 100) as int);
    assert(Seq::<char>::empty() + t =~= t);
    assert(Seq::<char>::empty() + "inf"@ =~= "inf"@);
}

/// A number is read from its digits, a point among them or none, and perhaps a power of ten:
/// where the point stands, and what the power is, says what the digits are multiplied with.
pub proof fn law_read_numbers(whole: Seq<char>, part: Seq<char>)
    requires
        digits_or_none(whole),
        digits_or_none(part),
        whole.len() + part.len() > 0,
    ensures
        single_in(whole + seq!['.'] + part) == Some(
            magnitude_of(digits_value(whole + part), pow10(part.len() as int)),
        ),
{
    let t = whole + seq!['.'] + part;
    reveal_strlit("inf");
    reveal_strlit("infinity");
    reveal_strlit("nan");
    let n = whole.len() as int;
    assert forall|i: int| 0 <= i < t.len() && i != n implies is_digit(#[trigger] t[i]) by {
        if i < n {
            assert(is_digit(whole[i]));
        } else {
            assert(is_digit(part[i - n - 1]));
        }
    }
    assert(t[n] == '.');
    assert(is_digit(t[0]) || t[0] == '.');
    assert(ascii_lowered(t)[0] == t[0]);
    assert("inf"@[0] == 'i' && "infinity"@[0] == 'i' && "nan"@[0] == 'n');
    assert(!is_signed(t));
    lemma_no_char(t, 'e');
    lemma_no_char(t, 'E');
    assert(t.take(t.len() as int) =~= t);
    assert forall|i: int| 0 <= i < n implies t[i] != '.' by {
        assert(is_digit(t[i]));
    }
    lemma_char_from_at(t, '.', 0, n);
    assert(t.take(n) =~= whole);
    assert(t.subrange(n + 1, t.len() as int) =~= part);
    assert(decimal_parts(t) == Some((whole + part, -(part.len() as int))));
    if part.len() == 0 {
        let v = digits_value(whole + part);
        assert(pow10(0) == 1);
        assert(v * 1 == v);
    }
}

} // verus!
