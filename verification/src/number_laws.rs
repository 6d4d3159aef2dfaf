//! What the text of a number says, told from the number: its digits, what becomes of
//! a float formatter's text, and which whole number stands for a coordinate. And what
//! binary64 arithmetic gives.
use vstd::arithmetic::mul::*;
use vstd::arithmetic::power::*;
use vstd::arithmetic::power2::*;
use vstd::prelude::*;

use crate::number;
use crate::reading;
use crate::reading_laws;
use crate::rounding;
use crate::scalar;
use crate::scalar::{Scalar, Value};

verus! {

/// The decimal text of a number has its digits, no zero in front of others, and reads
/// as the number.
pub proof fn law_decimal_text_is_the_number(n: nat)
    ensures
        number::decimal(n).len() > 0,
        forall|i: int|
            0 <= i < number::decimal(n).len() ==> '0' <= #[trigger] number::decimal(n)[i] <= '9',
        number::decimal(n)[0] == '0' ==> n == 0 && number::decimal(n).len() == 1,
        reading::digits_value(number::decimal(n)) == n,
{
    number::lemma_decimal_digits(n);
    reading::lemma_decimal_reads(n);
}

/// The text of `n` parts of `10^p`: of zero a `0`, and else a sign where it is
/// negative, the whole part where there is one, and the decimals up to the last that
/// is not zero. It reads as `n` parts, and has no character to spare.
pub proof fn law_parts_text_is_the_number(n: int, p: nat)
    ensures
        number::parts_text(0, p) == seq!['0'],
        n != 0 ==> number::parts_text(n, p) == number::fixed_text(n, p),
        number::fixed_text(0, p) == Seq::<char>::empty(),
        reading::next_number(reading::in_decimals(p), number::parts_text(n, p)) == Some(
            (n, Seq::<char>::empty()),
        ),
        n != 0 ==> {
            let s = number::parts_text(n, p);
            let k: int = if n < 0 {
                1
            } else {
                0
            };
            &&& s.len() > k
            &&& s[0] == '-' <==> n < 0
            &&& s[k] != '0'
            &&& s.contains('.') ==> s.last() != '0' && s.last() != '.'
        },
{
    let none = Seq::<char>::empty();
    let t = number::parts_text(n, p);
    reading::law_number_reads_back(n, p);
    assert(t + none =~= t);
    assert(reading::next_number(reading::in_decimals(p), t + none) == Some((n, none)));
    rounding::lemma_power_of_ten_positive(p);
    let scale = rounding::power_of_ten(p) as int;
    vstd::arithmetic::div_mod::lemma_div_basics(scale);
    vstd::arithmetic::div_mod::lemma_small_mod(0, scale as nat);
    assert(number::fixed_text(0, p) =~= none);
    if n != 0 {
        number::law_fixed_text_is_spare(n, p);
        number::lemma_fixed_sign(n, p);
        if n < 0 {
            assert(t.skip(1)[0] == t[1]);
        }
        if t == seq!['0'] {
            let zero = number::parts_text(0, p);
            reading::law_number_reads_back(0, p);
            assert(zero + none =~= zero);
            assert(reading::next_number(reading::in_decimals(p), zero + none) == Some(
                (0int, none),
            ));
        }
    }
}

/// Trimming takes the run of a character at the end, and no more.
pub proof fn law_trimming_takes_the_end(s: Seq<char>, c: char)
    ensures
        ({
            let t = number::trimmed(s, c);
            &&& t.len() <= s.len()
            &&& t == s.take(t.len() as int)
            &&& t.len() > 0 ==> t.last() != c
            &&& forall|i: int| t.len() <= i < s.len() ==> #[trigger] s[i] == c
        }),
{
    number::lemma_trimmed(s, c);
    assert(number::trimmed(s, c) =~= s.take(number::trimmed(s, c).len() as int));
}

/// A float formatter's text without a dot stays as it is. One with a dot loses the
/// zeros at its end and then the dots there; and of what is left, the zero before a
/// dot that leads, or follows the sign, goes too.
pub proof fn law_float_texts_are_compacted(raw: Seq<char>)
    ensures
        !raw.contains('.') ==> number::compact_text(raw) == raw,
        raw.contains('.') ==> {
            let s = number::trimmed(number::trimmed(raw, '0'), '.');
            &&& s.len() >= 2 && s[0] == '0' && s[1] == '.' ==> number::compact_text(raw) == s.skip(
                1,
            )
            &&& s.len() >= 3 && s[0] == '-' && s[1] == '0' && s[2] == '.' ==> number::compact_text(
                raw,
            ) == seq!['-'] + s.skip(2)
            &&& !(s.len() >= 2 && s[0] == '0' && s[1] == '.') && !(s.len() >= 3 && s[0] == '-'
                && s[1] == '0' && s[2] == '.') ==> number::compact_text(raw) == s
        },
{
    let s = if raw.contains('.') {
        number::trimmed(number::trimmed(raw, '0'), '.')
    } else {
        raw
    };
    let (a, b) = (seq!['0', '.'], seq!['-', '0', '.']);
    assert(a.is_prefix_of(s) <==> s.len() >= 2 && s[0] == '0' && s[1] == '.') by {
        if s.len() >= 2 && s[0] == '0' && s[1] == '.' {
            assert(s.subrange(0, 2) =~= a);
        }
        if a.is_prefix_of(s) {
            assert(a[0] == s[0] && a[1] == s[1]);
        }
    }
    assert(b.is_prefix_of(s) <==> s.len() >= 3 && s[0] == '-' && s[1] == '0' && s[2] == '.') by {
        if s.len() >= 3 && s[0] == '-' && s[1] == '0' && s[2] == '.' {
            assert(s.subrange(0, 3) =~= b);
        }
        if b.is_prefix_of(s) {
            assert(b[0] == s[0] && b[1] == s[1] && b[2] == s[2]);
        }
    }
    if !raw.contains('.') {
        if a.is_prefix_of(s) {
            assert(raw[1] == '.');
        }
        if b.is_prefix_of(s) {
            assert(raw[2] == '.');
        }
    }
}

/// Which text a number has: where a whole number of parts stands for it, that of the
/// parts; else what the float formatter writes, compacted, and `0` where it writes
/// nothing or is not asked.
pub proof fn law_number_text_by_cases(x: Value, precision: Option<u32>, text: number::Formatted)
    ensures
        number::scaled(x, precision) matches Some(n) ==> precision is Some && number::number_text(
            x,
            precision,
            text,
        ) == number::parts_text(n, precision->0 as nat),
        number::scaled(x, precision) is None ==> number::number_text(x, precision, text)
            == number::float_text(x, precision, text),
        x == Value::Finite(0) && precision is None ==> number::float_text(x, precision, text)
            == seq!['0'],
        !(x == Value::Finite(0) && precision is None) ==> number::float_text(x, precision, text)
            == match text(x, precision) {
            Some(raw) => number::compact_text(raw),
            None => seq!['0'],
        },
{
}

/// What a float formatter is taken to write is what it writes, wherever it is asked:
/// of a number that it is given, the very text that it gives, or nothing.
pub proof fn law_formatter_texts_are_its_own<F: Fn(Scalar, Option<u32>) -> Option<String>>(
    format: F,
    v: Scalar,
    p: Option<u32>,
    t: Option<String>,
)
    requires
        number::is_formatter(format),
        format.ensures((v, p), t),
        !(p is None && v.value() == Value::Finite(0)),
    ensures
        number::formatted(format)(v.value(), p) == match t {
            Some(s) => Some(s@),
            None => None,
        },
{
    assert(number::writes(format, v.value(), p, t));
    let s = choose|s: Option<String>| number::writes(format, v.value(), p, s);
    let w = choose|w: Scalar| w.value() == v.value() && #[trigger] format.ensures((w, p), s);
    assert(number::asked(v.value(), p));
    assert(number::written(s) == number::written(t));
}

/// Which whole number is nearest to a finite number of `q` units, of two as near the
/// one farther from zero; none where it is nine quadrillion or more from zero.
pub proof fn law_whole_value_is_the_nearest(q: int)
    ensures
        ({
            let unit = pow2(1074) as int;
            let limit = 9_000_000_000_000_000int;
            match scalar::whole_value(Value::Finite(q)) {
                Some(n) => {
                    &&& -limit < n < limit
                    &&& -unit <= 2 * (q - n * unit) <= unit
                    &&& q >= 0 ==> n >= 0 && 2 * (q - n * unit) < unit
                    &&& q <= 0 ==> n <= 0 && 2 * (q - n * unit) > -unit
                },
                None => 2 * q >= (2 * limit - 1) * unit || 2 * q <= -(2 * limit - 1) * unit,
            }
        }),
        scalar::whole_value(Value::NotANumber) is None,
        scalar::whole_value(Value::Infinite { negative: true }) is None,
        scalar::whole_value(Value::Infinite { negative: false }) is None,
{
    lemma_whole_is_nearest(q);
    lemma_whole_far(q);
}

/// Which text the way from one number to another has: where whole numbers of parts
/// stand for both, that of the difference of these; else that of their difference as
/// binary64 subtracts.
pub proof fn law_way_text_by_cases(
    a: Value,
    b: Value,
    precision: Option<u32>,
    text: number::Formatted,
)
    ensures
        number::scaled(a, precision) is Some && number::scaled(b, precision) is Some
            ==> number::delta_text(a, b, precision, text) == number::parts_text(
            number::scaled(a, precision)->0 - number::scaled(b, precision)->0,
            precision->0 as nat,
        ),
        number::scaled(a, precision) is None || number::scaled(b, precision) is None
            ==> number::delta_text(a, b, precision, text) == number::number_text(
            scalar::difference(a, b),
            precision,
            text,
        ),
{
}

/// Which whole number of parts stands for a number: up to fifteen decimals, and where
/// `x * 10^p` is finite in binary64, the whole number nearest to that, of two as near
/// the one farther from zero; unless it is nine quadrillion or more from zero. `x` is
/// given in units of `2^-1074`.
pub proof fn law_scaled_is_the_nearest_whole(x: int, p: u32)
    ensures
        number::scaled(Value::Finite(x), None) is None,
        number::scaled(Value::NotANumber, Some(p)) is None,
        number::scaled(Value::Infinite { negative: true }, Some(p)) is None,
        number::scaled(Value::Infinite { negative: false }, Some(p)) is None,
        p > 15 ==> number::scaled(Value::Finite(x), Some(p)) is None,
        p <= 15 ==> {
            let product = scalar::rounded(x * pow(10, p as nat));
            let unit = pow2(1074) as int;
            let limit = 9_000_000_000_000_000int;
            &&& !(product is Finite) ==> number::scaled(Value::Finite(x), Some(p)) is None
            &&& product matches Value::Finite(q) ==> match number::scaled(
                Value::Finite(x),
                Some(p),
            ) {
                Some(n) => {
                    &&& -limit < n < limit
                    &&& -unit <= 2 * (q - n * unit) <= unit
                    &&& q >= 0 ==> n >= 0 && 2 * (q - n * unit) < unit
                    &&& q <= 0 ==> n <= 0 && 2 * (q - n * unit) > -unit
                },
                None => 2 * q >= (2 * limit - 1) * unit || 2 * q <= -(2 * limit - 1) * unit,
            }
        },
{
    reading_laws::law_power_of_ten_is_a_power(p as nat);
    if p <= 15 {
        let product = scalar::rounded(x * pow(10, p as nat));
        if let Value::Finite(q) = product {
            lemma_whole_is_nearest(q);
            lemma_whole_far(q);
        }
    }
}

/// The whole number nearest to `q` units.
proof fn lemma_whole_is_nearest(q: int)
    ensures
        ({
            let unit = pow2(1074) as int;
            let n = scalar::whole(q);
            &&& -unit <= 2 * (q - n * unit) <= unit
            &&& q >= 0 ==> n >= 0 && 2 * (q - n * unit) < unit
            &&& q <= 0 ==> n <= 0 && 2 * (q - n * unit) > -unit
        }),
{
    let unit = pow2(1074) as int;
    let d = scalar::distance(q) as int;
    lemma_pow2_pos(1074);
    let m = (2 * d + unit) / (2 * unit);
    let r = (2 * d + unit) % (2 * unit);
    vstd::arithmetic::div_mod::lemma_fundamental_div_mod(2 * d + unit, 2 * unit);
    vstd::arithmetic::div_mod::lemma_mod_bound(2 * d + unit, 2 * unit);
    vstd::arithmetic::div_mod::lemma_div_pos_is_pos(2 * d + unit, 2 * unit);
    assert((2 * unit) * m == 2 * (m * unit)) by (nonlinear_arith);
    assert((-m) * unit == -(m * unit)) by (nonlinear_arith);
    assert(2 * (d - m * unit) == r - unit);
    assert(m == scalar::distance(scalar::whole(q)));
    if d == 0 {
        assert(m == 0) by (nonlinear_arith)
            requires
                (2 * unit) * m + r == unit,
                0 <= r,
                m >= 0,
                unit > 0,
        ;
    }
}

/// Where the nearest whole number lies far from zero, so does `q`.
proof fn lemma_whole_far(q: int)
    ensures
        ({
            let unit = pow2(1074) as int;
            let limit = 9_000_000_000_000_000int;
            let n = scalar::whole(q);
            &&& n >= limit ==> 2 * q >= (2 * limit - 1) * unit
            &&& n <= -limit ==> 2 * q <= -(2 * limit - 1) * unit
        }),
{
    let unit = pow2(1074) as int;
    let limit = 9_000_000_000_000_000int;
    let n = scalar::whole(q);
    lemma_pow2_pos(1074);
    lemma_whole_is_nearest(q);
    assert((2 * limit - 1) * unit == 2 * (limit * unit) - unit) by (nonlinear_arith);
    assert(-(2 * limit - 1) * unit == unit - 2 * (limit * unit)) by (nonlinear_arith);
    assert(-limit * unit == -(limit * unit)) by (nonlinear_arith);
    if n >= limit {
        assert(n * unit >= limit * unit) by (nonlinear_arith)
            requires
                n >= limit,
                unit > 0,
        ;
    }
    if n <= -limit {
        assert(n * unit <= -limit * unit) by (nonlinear_arith)
            requires
                n <= -limit,
                unit > 0,
        ;
    }
}

/// The value of a bit pattern, in units of `2^-1074`: below the sign bit lie eleven
/// bits of exponent and 52 of fraction.
pub proof fn law_bits_give_the_value(v: Scalar)
    ensures
        ({
            let rest = v.bits as int % 0x8000_0000_0000_0000;
            let exponent = rest / 0x10_0000_0000_0000;
            let fraction = rest % 0x10_0000_0000_0000;
            let negative = v.bits >= 0x8000_0000_0000_0000;
            let size = if exponent == 0 {
                fraction
            } else {
                (0x10_0000_0000_0000 + fraction) * pow2((exponent - 1) as nat)
            };
            &&& exponent == 2047 && fraction != 0 ==> v.value() == Value::NotANumber
            &&& exponent == 2047 && fraction == 0 ==> v.value() == (Value::Infinite { negative })
            &&& exponent < 2047 ==> v.value() == Value::Finite(
                if negative {
                    -size
                } else {
                    size
                },
            )
        }),
{
    rounding::lemma_pow2_values();
    lemma_mul_basics(v.fraction_field() as int);
}

/// Subtraction in binary64: of finite numbers the exact difference, rounded; what is
/// not a number stays so; and of infinite numbers as their signs say.
pub proof fn law_difference_by_cases(a: Value, b: Value, x: int, y: int, s: bool, t: bool)
    ensures
        scalar::difference(Value::Finite(x), Value::Finite(y)) == scalar::rounded(x - y),
        scalar::difference(Value::NotANumber, b) == Value::NotANumber,
        scalar::difference(a, Value::NotANumber) == Value::NotANumber,
        scalar::difference(Value::Infinite { negative: s }, Value::Finite(y)) == (Value::Infinite {
            negative: s,
        }),
        scalar::difference(Value::Finite(x), Value::Infinite { negative: t }) == (Value::Infinite {
            negative: !t,
        }),
        scalar::difference(Value::Infinite { negative: s }, Value::Infinite { negative: t }) == (
        if s == t {
            Value::NotANumber
        } else {
            Value::Infinite { negative: s }
        }),
{
}

/// Doubling, scaling, the opposite, equality and the sum in binary64.
pub proof fn law_arithmetic_by_cases(x: int, y: int, n: nat, s: bool, a: Value, b: Value)
    ensures
        scalar::multiple(Value::Finite(x), n) == scalar::rounded(x * n),
        scalar::multiple(Value::Infinite { negative: s }, n) == (Value::Infinite { negative: s }),
        scalar::multiple(Value::NotANumber, n) == Value::NotANumber,
        scalar::negated(Value::Finite(x)) == Value::Finite(-x),
        scalar::negated(Value::Infinite { negative: s }) == (Value::Infinite { negative: !s }),
        scalar::negated(Value::NotANumber) == Value::NotANumber,
        scalar::total(Value::Finite(x), Value::Finite(y)) == scalar::rounded(x + y),
        scalar::equal(a, b) <==> a == b && a != Value::NotANumber,
        scalar::exact_difference(Value::Finite(x), Value::Finite(y)) <==> scalar::rounded(x - y)
            == Value::Finite(x - y),
        a !is Finite || b !is Finite ==> !scalar::exact_difference(a, b),
        scalar::distance(x) == (if x < 0 {
            -x
        } else {
            x
        }),
{
    assert(x - (-y) == x + y);
}

/// Whether `r` is `q * 2^e` with a significand `q` of 53 binary digits, or fewer where
/// `e` is zero, and lies as near to `m` as such a number can, a tie going to an even
/// significand. `e` is no greater than 53 digits of `m` ask for.
pub open spec fn nearest_at(m: int, r: int, q: int, e: nat) -> bool {
    &&& r == q * pow2(e)
    &&& 0 <= q <= 0x20_0000_0000_0000
    &&& e > 0 ==> q >= 0x10_0000_0000_0000 && m >= 0x10_0000_0000_0000 * pow2(e)
    &&& -pow2(e) <= 2 * (m - r) <= pow2(e)
    &&& 2 * (m - r) == pow2(e) || 2 * (m - r) == -pow2(e) ==> q % 2 == 0
    &&& e == 0 ==> m == r
}

/// Binary64 rounds to the nearest number that it holds, ties to even, on both sides of
/// zero alike; what is too large for that becomes infinite.
pub proof fn law_rounding_is_to_the_nearest(x: int)
    ensures
        match scalar::rounded(x) {
            Value::Finite(r) => {
                &&& x >= 0 ==> exists|q: int, e: nat| #[trigger] nearest_at(x, r, q, e)
                &&& x <= 0 ==> exists|q: int, e: nat| #[trigger] nearest_at(-x, -r, q, e)
                &&& -pow2(2098) < r < pow2(2098)
            },
            Value::Infinite { negative } => {
                &&& negative == (x < 0)
                &&& x > 0 ==> exists|r: int, q: int, e: nat| #[trigger]
                    nearest_at(x, r, q, e) && r >= pow2(2098)
                &&& x <= 0 ==> exists|r: int, q: int, e: nat| #[trigger]
                    nearest_at(-x, r, q, e) && r >= pow2(2098)
            },
            Value::NotANumber => false,
        },
{
    let d = scalar::distance(x);
    let m = rounding::nearest_even(d);
    let (q, e) = lemma_nearest(d);
    lemma_pow2_pos(2098);
    let v = scalar::rounded(x);
    if x == 0 {
        assert(rounding::width(0) == 0);
    }
    match v {
        Value::Finite(r) => {
            if x >= 0 {
                assert(nearest_at(x, r, q, e));
            }
            if x <= 0 {
                assert(nearest_at(-x, -r, q, e));
            }
        },
        _ => {
            let r = m as int;
            if x > 0 {
                assert(nearest_at(x, r, q, e) && r >= pow2(2098));
            } else {
                assert(nearest_at(-x, r, q, e) && r >= pow2(2098));
            }
        },
    }
}

/// Significand and exponent of what a magnitude is rounded to.
proof fn lemma_nearest(n: nat) -> (r: (int, nat))
    ensures
        nearest_at(n as int, rounding::nearest_even(n) as int, r.0, r.1),
{
    rounding::lemma_pow2_values();
    let w = rounding::width(n);
    if n == 0 {
        assert(rounding::width(0) == 0);
        lemma_mul_basics(pow2(0) as int);
        (0, 0)
    } else {
        rounding::lemma_width_bounds(n);
        if w <= 53 {
            if w < 53 {
                lemma_pow2_strictly_increases(w, 53);
            }
            lemma_mul_basics(n as int);
            (n as int, 0)
        } else {
            let s = (w - 53) as nat;
            let unit = pow2(s) as int;
            lemma_pow2_pos(s);
            lemma_pow2_adds(52, s);
            lemma_pow2_adds(53, s);
            let q = n as int / unit;
            let r = n as int % unit;
            vstd::arithmetic::div_mod::lemma_fundamental_div_mod(n as int, unit);
            vstd::arithmetic::div_mod::lemma_mod_bound(n as int, unit);
            let k = rounding::quotient_even(n, s) as int;
            lemma_quotient_range(q, r, unit, n as int);
            assert(unit * q == q * unit) by (nonlinear_arith);
            assert((q + 1) * unit == q * unit + unit) by (nonlinear_arith);
            lemma_pow2_unfold(s);
            (k, s)
        }
    }
}

proof fn lemma_quotient_range(q: int, r: int, unit: int, n: int)
    requires
        unit > 0,
        n == unit * q + r,
        0 <= r < unit,
        0x10_0000_0000_0000 * unit <= n < 0x20_0000_0000_0000 * unit,
    ensures
        0x10_0000_0000_0000 <= q < 0x20_0000_0000_0000,
{
    assert(q < 0x20_0000_0000_0000) by (nonlinear_arith)
        requires
            unit > 0,
            n == unit * q + r,
            0 <= r,
            n < 0x20_0000_0000_0000 * unit,
    ;
    assert(q >= 0x10_0000_0000_0000) by (nonlinear_arith)
        requires
            unit > 0,
            n == unit * q + r,
            r < unit,
            0x10_0000_0000_0000 * unit <= n,
    ;
}

} // verus!
