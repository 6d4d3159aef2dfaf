//! Binary64 numbers held by their bit pattern, with the arithmetic that the path
//! encoder needs.
//!
//! The value of a finite number is a whole multiple of `2^-1074`, and
//! [`Scalar::value`] counts in that unit, so that contracts speak of integers only.
use vstd::arithmetic::div_mod::*;
use vstd::arithmetic::mul::*;
use vstd::arithmetic::power2::*;
use vstd::prelude::*;

use crate::rounding;

verus! {

/// A binary64 number, given by its IEEE 754 bit pattern.
#[derive(Clone, Copy, Debug)]
pub struct Scalar {
    pub bits: u64,
}

/// What a [`Scalar`] stands for. A zero has no sign here: no operation of this
/// module tells the two zeros apart.
pub enum Value {
    /// A finite number, in units of `2^-1074`.
    Finite(int),
    Infinite { negative: bool },
    NotANumber,
}

/// The value one, in units of `2^-1074`.
pub open spec fn one() -> nat {
    pow2(1074)
}

/// The distance of `x` from zero.
pub open spec fn distance(x: int) -> nat {
    if x < 0 {
        (-x) as nat
    } else {
        x as nat
    }
}

/// `x`, given exactly, as binary64 holds it: rounded to 53 binary digits, ties to
/// even, and infinite from `2^1024` on.
pub open spec fn rounded(x: int) -> Value {
    let magnitude = rounding::nearest_even(distance(x));
    if magnitude >= pow2(2098) {
        Value::Infinite { negative: x < 0 }
    } else if x < 0 {
        Value::Finite(-magnitude)
    } else {
        Value::Finite(magnitude as int)
    }
}

/// Whether `x` is finite and binary64 holds it as it is.
pub open spec fn representable(x: Value) -> bool {
    x is Finite && rounded(x->0) == x
}

/// `a - b` in binary64.
pub open spec fn difference(a: Value, b: Value) -> Value {
    match (a, b) {
        (Value::NotANumber, _) => Value::NotANumber,
        (_, Value::NotANumber) => Value::NotANumber,
        (Value::Infinite { negative: s }, Value::Infinite { negative: t }) => if s == t {
            Value::NotANumber
        } else {
            a
        },
        (Value::Infinite { .. }, _) => a,
        (_, Value::Infinite { negative }) => Value::Infinite { negative: !negative },
        (Value::Finite(x), Value::Finite(y)) => rounded(x - y),
    }
}

/// The number on the other side of zero.
pub open spec fn negated(x: Value) -> Value {
    match x {
        Value::Finite(a) => Value::Finite(-a),
        Value::Infinite { negative } => Value::Infinite { negative: !negative },
        Value::NotANumber => x,
    }
}

/// `a + b` in binary64.
pub open spec fn total(a: Value, b: Value) -> Value {
    difference(a, negated(b))
}

/// Whether binary64 subtracts `b` from `a` without rounding.
pub open spec fn exact_difference(a: Value, b: Value) -> bool {
    match (a, b) {
        (Value::Finite(x), Value::Finite(y)) => difference(a, b) == Value::Finite(x - y),
        _ => false,
    }
}

/// `a * n` in binary64, for a positive whole number `n` that binary64 holds.
pub open spec fn multiple(a: Value, n: nat) -> Value {
    match a {
        Value::Finite(x) => rounded(x * n),
        _ => a,
    }
}

/// `m * 2^e`, or its negation.
pub open spec fn signed(negative: bool, m: nat, e: nat) -> int {
    if negative {
        -(m * pow2(e))
    } else {
        (m * pow2(e)) as int
    }
}

/// The whole number nearest to `x` (given in units of `2^-1074`), a tie going
/// away from zero.
pub open spec fn whole(x: int) -> int {
    let magnitude = (2 * distance(x) + one()) / (2 * one());
    if x < 0 {
        -magnitude
    } else {
        magnitude as int
    }
}

/// Whole numbers below this distance from zero are written by the integer
/// formatter.
pub const WHOLE_LIMIT: i64 = 9_000_000_000_000_000;

/// The whole number nearest to `a`, where it lies within [`WHOLE_LIMIT`].
pub open spec fn whole_value(a: Value) -> Option<int> {
    match a {
        Value::Finite(x) => if -WHOLE_LIMIT < whole(x) < WHOLE_LIMIT {
            Some(whole(x))
        } else {
            None
        },
        _ => None,
    }
}

/// `a == b` in binary64: nothing equals what is not a number.
pub open spec fn equal(a: Value, b: Value) -> bool {
    a == b && a !is NotANumber
}

const HIDDEN: u64 = 0x10_0000_0000_0000;

const SIGN: u64 = 0x8000_0000_0000_0000;

const INFINITE: u64 = 0x7ff0_0000_0000_0000;

const QUIET_NAN: u64 = 0x7ff8_0000_0000_0000;

impl Scalar {
    pub open spec fn negative(self) -> bool {
        self.bits >= 0x8000_0000_0000_0000
    }

    /// The bit pattern without the sign.
    pub open spec fn unsigned_bits(self) -> nat {
        (self.bits % 0x8000_0000_0000_0000) as nat
    }

    pub open spec fn exponent_field(self) -> nat {
        self.unsigned_bits() / 0x10_0000_0000_0000
    }

    pub open spec fn fraction_field(self) -> nat {
        self.unsigned_bits() % 0x10_0000_0000_0000
    }

    pub open spec fn significand(self) -> nat {
        if self.exponent_field() == 0 {
            self.fraction_field()
        } else {
            0x10_0000_0000_0000 + self.fraction_field()
        }
    }

    pub open spec fn exponent(self) -> nat {
        if self.exponent_field() == 0 {
            0
        } else {
            (self.exponent_field() - 1) as nat
        }
    }

    /// The distance from zero of a finite number, in units of `2^-1074`.
    pub open spec fn magnitude(self) -> nat {
        self.significand() * pow2(self.exponent())
    }

    pub open spec fn value(self) -> Value {
        if self.exponent_field() == 2047 {
            if self.fraction_field() == 0 {
                Value::Infinite { negative: self.negative() }
            } else {
                Value::NotANumber
            }
        } else if self.negative() {
            Value::Finite(-self.magnitude())
        } else {
            Value::Finite(self.magnitude() as int)
        }
    }

    /// The pattern with exponent `e` and significand `q` reads as `q * 2^e`, a
    /// significand of `2^53` carrying into the exponent.
    proof fn lemma_assembled(self, q: nat, e: nat)
        requires
            q <= 0x20_0000_0000_0000,
            q < 0x10_0000_0000_0000 ==> e == 0,
            self.unsigned_bits() == e * 0x10_0000_0000_0000 + q,
            self.unsigned_bits() < 0x7ff0_0000_0000_0000,
        ensures
            self.exponent_field() < 2047,
            self.magnitude() == q * pow2(e),
    {
        let h = 0x10_0000_0000_0000int;
        if q < h {
            rounding::lemma_pow2_values();
        } else if q < 2 * h {
            assert(self.exponent_field() == e + 1);
            assert(self.fraction_field() == q - h);
        } else {
            assert(self.exponent_field() == e + 2);
            assert(self.fraction_field() == 0);
            lemma_pow2_unfold(e + 1);
            assert(h * pow2(e + 1) == q * pow2(e)) by (nonlinear_arith)
                requires
                    pow2(e + 1) == 2 * pow2(e),
                    q == 2 * h,
            ;
        }
    }

    /// The bit patterns of finite numbers, less the sign, are ordered as the
    /// magnitudes are.
    proof fn lemma_ordered(self, other: Scalar)
        requires
            self.exponent_field() < 2047,
            other.exponent_field() < 2047,
            self.unsigned_bits() < other.unsigned_bits(),
        ensures
            self.magnitude() < other.magnitude(),
    {
        let (m, e) = (self.significand() as int, self.exponent());
        let (n, f) = (other.significand() as int, other.exponent());
        lemma_pow2_pos(e);
        lemma_pow2_pos(f);
        if e == f {
            assert(m < n);
            lemma_mul_strict_inequality(m, n, pow2(e) as int);
        } else {
            assert(e < f);
            let d = (f - e) as nat;
            lemma_pow2_adds(d, e);
            lemma_pow2_unfold(d);
            lemma_pow2_pos((d - 1) as nat);
            assert(pow2(d) >= 2);
            assert(m * pow2(e) < n * (pow2(d) * pow2(e))) by (nonlinear_arith)
                requires
                    m < 2 * n,
                    pow2(d) >= 2,
                    pow2(e) > 0,
                    n > 0,
            ;
        }
    }

    /// Sign, significand and exponent of a finite number.
    fn parts(self) -> (r: (bool, u64, u32))
        requires
            self.exponent_field() < 2047,
        ensures
            r.0 == self.negative(),
            r.1 == self.significand(),
            r.2 == self.exponent(),
            r.1 < 0x20_0000_0000_0000,
            r.1 < 0x10_0000_0000_0000 ==> r.2 == 0,
            r.2 <= 2045,
    {
        let unsigned: u64 = self.bits % SIGN;
        let field: u64 = unsigned / HIDDEN;
        let fraction: u64 = unsigned % HIDDEN;
        if field == 0 {
            (self.bits >= SIGN, fraction, 0)
        } else {
            (self.bits >= SIGN, HIDDEN + fraction, (field - 1) as u32)
        }
    }

    pub fn is_finite(self) -> (r: bool)
        ensures
            r == (self.value() is Finite),
    {
        self.bits % SIGN < INFINITE
    }

    pub fn is_nan(self) -> (r: bool)
        ensures
            r == (self.value() is NotANumber),
    {
        self.bits % SIGN > INFINITE
    }

    fn infinity(negative: bool) -> (r: Scalar)
        ensures
            r.value() == (Value::Infinite { negative }),
    {
        if negative {
            Scalar { bits: SIGN + INFINITE }
        } else {
            Scalar { bits: INFINITE }
        }
    }

    pub fn zero() -> (r: Scalar)
        ensures
            r.value() == Value::Finite(0),
    {
        let r = Scalar { bits: 0 };
        assert(r.magnitude() == 0) by {
            lemma_mul_basics(pow2(0) as int);
        }
        r
    }

    /// Significand and exponent of `m * 2^e`, where `m` has no more binary digits
    /// than a significand: nothing is rounded.
    fn scaled_up(m: u128, w: u32, e: u32) -> (r: (u64, u32))
        requires
            m > 0,
            w == rounding::width(m as nat),
            w <= 53,
            e <= 3000,
        ensures
            rounding::nearest_even((m * pow2(e as nat)) as nat) == r.0 * pow2(r.1 as nat),
            r.0 <= 0x20_0000_0000_0000,
            r.0 < 0x10_0000_0000_0000 ==> r.1 == 0,
            r.1 <= e,
    {
        let room: u32 = 53 - w;
        let k: u32 = if room < e { room } else { e };
        proof {
            rounding::lemma_width_bounds(m as nat);
            rounding::lemma_pow2_values();
            lemma_pow2_adds(w as nat, k as nat);
            lemma_pow2_adds((w - 1) as nat, k as nat);
            if w + k < 53 {
                lemma_pow2_strictly_increases((w + k) as nat, 53);
            }
            lemma_pow2_pos(k as nat);
            lemma_mul_strict_inequality(m as int, pow2(w as nat) as int, pow2(k as nat) as int);
            lemma_mul_inequality(pow2((w - 1) as nat) as int, m as int, pow2(k as nat) as int);
        }
        let q: u128 = m * two_to(k);
        let f: u32 = e - k;
        proof {
            lemma_pow2_adds(k as nat, f as nat);
            lemma_mul_is_associative(m as int, pow2(k as nat) as int, pow2(f as nat) as int);
            rounding::lemma_nearest_even_exact(q as nat, f as nat);
        }
        (q as u64, f)
    }

    /// Significand and exponent of `m * 2^e`, where `m` has more binary digits than
    /// a significand: rounded to the nearest, ties to even.
    fn scaled_down(m: u128, w: u32, e: u32) -> (r: (u64, u32))
        requires
            m < 0x8000_0000_0000_0000_0000_0000_0000_0000,
            w == rounding::width(m as nat),
            w > 53,
            e <= 3000,
        ensures
            rounding::nearest_even((m * pow2(e as nat)) as nat) == r.0 * pow2(r.1 as nat),
            0x10_0000_0000_0000 <= r.0 <= 0x20_0000_0000_0000,
            r.1 <= e + 74,
    {
        let s: u32 = w - 53;
        proof {
            rounding::lemma_width_bounds(m as nat);
            rounding::lemma_pow2_values();
            if w > 127 {
                lemma_pow2_strictly_increases(127, w as nat);
                if w > 128 {
                    lemma_pow2_strictly_increases(127, (w - 1) as nat);
                }
                lemma_two_to_127();
            }
            lemma_pow2_pos(s as nat);
        }
        let d = two_to(s);
        let quotient: u128 = m / d;
        let rest: u128 = m % d;
        proof {
            lemma_pow2_adds(53, s as nat);
            lemma_pow2_adds(52, s as nat);
            lemma_fundamental_div_mod(m as int, d as int);
            assert(quotient < 0x20_0000_0000_0000) by (nonlinear_arith)
                requires
                    m < 0x20_0000_0000_0000 * d,
                    m == d * quotient + rest,
                    rest >= 0,
                    d > 0,
            ;
            assert(quotient >= 0x10_0000_0000_0000) by (nonlinear_arith)
                requires
                    m >= 0x10_0000_0000_0000 * d,
                    m == d * quotient + rest,
                    rest < d,
                    d > 0,
            ;
            rounding::lemma_nearest_even_shift(m as nat, e as nat);
        }
        let up = rest > d - rest || (rest == d - rest && quotient % 2 == 1);
        if up {
            (quotient as u64 + 1, e + s)
        } else {
            (quotient as u64, e + s)
        }
    }

    /// `m * 2^e`, negated where `negative` says so, as binary64 holds it.
    fn assemble(negative: bool, m: u128, e: u32) -> (r: Scalar)
        requires
            m < 0x8000_0000_0000_0000_0000_0000_0000_0000,
            e <= 3000,
        ensures
            r.value() == rounded(signed(negative, m as nat, e as nat)),
    {
        if m == 0 {
            proof {
                lemma_mul_basics(pow2(e as nat) as int);
                lemma_pow2_pos(2098);
                assert(rounding::width(0) == 0);
            }
            return Scalar::zero();
        }
        proof {
            lemma_pow2_pos(e as nat);
            lemma_mul_strictly_positive(m as int, pow2(e as nat) as int);
        }
        let w = width_of(m);
        let (q, f) = if w <= 53 {
            Scalar::scaled_up(m, w, e)
        } else {
            Scalar::scaled_down(m, w, e)
        };
        let unsigned: u64 = (f as u64) * HIDDEN + q;
        proof {
            lemma_overflow(q as nat, f as nat);
        }
        if unsigned >= INFINITE {
            Scalar::infinity(negative)
        } else {
            let r = Scalar { bits: if negative { SIGN + unsigned } else { unsigned } };
            proof {
                r.lemma_assembled(q as nat, f as nat);
            }
            r
        }
    }

    /// The sum of two signed magnitudes, the first with the larger exponent.
    fn sum(negative: bool, m: u64, e: u32, negative2: bool, m2: u64, e2: u32) -> (r: Scalar)
        requires
            m < 0x20_0000_0000_0000,
            m2 < 0x20_0000_0000_0000,
            m < 0x10_0000_0000_0000 ==> e == 0,
            e2 <= e <= 2045,
        ensures
            r.value() == rounded(
                signed(negative, m as nat, e as nat) + signed(negative2, m2 as nat, e2 as nat),
            ),
    {
        let d: u32 = e - e2;
        proof {
            rounding::lemma_pow2_values();
            lemma_pow2_adds(d as nat, e2 as nat);
            lemma_mul_is_associative(m as int, pow2(d as nat) as int, pow2(e2 as nat) as int);
            lemma_pow2_pos(e2 as nat);
            lemma_pow2_pos(d as nat);
        }
        let ghost unit = pow2(e2 as nat) as int;
        let ghost shifted = (m * pow2(d as nat)) as int;
        if d <= 64 {
            proof {
                if d < 64 {
                    lemma_pow2_strictly_increases(d as nat, 64);
                }
                lemma_mul_upper_bound(
                    m as int,
                    0x20_0000_0000_0000,
                    pow2(d as nat) as int,
                    pow2(64) as int,
                );
            }
            let a: u128 = (m as u128) * two_to(d);
            let b: u128 = m2 as u128;
            proof {
                lemma_mul_is_distributive_add_other_way(unit, a as int, b as int);
                lemma_mul_is_distributive_sub_other_way(unit, a as int, b as int);
                lemma_mul_is_distributive_sub_other_way(unit, b as int, a as int);
            }
            if negative == negative2 {
                Scalar::assemble(negative, a + b, e2)
            } else if a >= b {
                proof {
                    lemma_sign_of_zero((a - b) as nat, e2 as nat);
                }
                Scalar::assemble(negative, a - b, e2)
            } else {
                Scalar::assemble(negative2, b - a, e2)
            }
        } else {
            let unsigned: u64 = (e as u64) * HIDDEN + m;
            let r = Scalar { bits: if negative { SIGN + unsigned } else { unsigned } };
            proof {
                r.lemma_assembled(m as nat, e as nat);
                let t: int = if negative == negative2 {
                    m2 as int
                } else {
                    -m2
                };
                rounding::lemma_nearest_even_absorbs(m as nat, d as nat, t);
                let x = (shifted + t) as nat;
                rounding::lemma_nearest_even_shift(x, e2 as nat);
                let s = (rounding::width(x) - 53) as nat;
                lemma_pow2_adds(s, e2 as nat);
                lemma_mul_is_associative(
                    rounding::quotient_even(x, s) as int,
                    pow2(s) as int,
                    unit,
                );
                assert(rounding::nearest_even((x * unit) as nat) == m * pow2(e as nat));
                lemma_mul_is_distributive_add_other_way(unit, shifted, t);
                lemma_mul_unary_negation(m2 as int, unit);
                lemma_mul_strictly_positive(x as int, unit);
                lemma_overflow(m as nat, e as nat);
            }
            r
        }
    }

    /// `self - other`.
    pub fn sub(self, other: Scalar) -> (r: Scalar)
        ensures
            r.value() == difference(self.value(), other.value()),
    {
        if self.is_nan() || other.is_nan() {
            return Scalar { bits: QUIET_NAN };
        }
        let negative = self.bits >= SIGN;
        let other_negative = other.bits >= SIGN;
        if !self.is_finite() {
            if !other.is_finite() && negative == other_negative {
                return Scalar { bits: QUIET_NAN };
            }
            return self;
        }
        if !other.is_finite() {
            return Scalar::infinity(!other_negative);
        }
        let (s, m, e) = self.parts();
        let (s2, m2, e2) = other.parts();
        if e >= e2 {
            Scalar::sum(s, m, e, !s2, m2, e2)
        } else {
            Scalar::sum(!s2, m2, e2, s, m, e)
        }
    }

    /// `-self`.
    pub fn opposite(self) -> (r: Scalar)
        ensures
            r.value() == negated(self.value()),
    {
        if self.bits >= SIGN {
            Scalar { bits: self.bits - SIGN }
        } else {
            Scalar { bits: self.bits + SIGN }
        }
    }

    /// Whether `self - other` is not rounded: it leads from `other` to `self`, and
    /// from `self` back to `other`.
    pub fn differs_exactly(self, other: Scalar) -> (r: bool)
        ensures
            r == exact_difference(self.value(), other.value()),
    {
        if !self.is_finite() || !other.is_finite() {
            return false;
        }
        let d = self.sub(other);
        let r = self.sub(d).same(other) && other.sub(d.opposite()).same(self);
        proof {
            self.lemma_representable();
            other.lemma_representable();
            if r {
                lemma_returning(self, other);
            }
        }
        r
    }

    /// Binary64 holds its numbers as they are.
    pub proof fn lemma_representable(self)
        requires
            self.value() is Finite,
        ensures
            representable(self.value()),
    {
        rounding::lemma_pow2_values();
        let (m, e) = (self.significand(), self.exponent());
        rounding::lemma_nearest_even_exact(m, e);
        lemma_pow2_adds(53, e);
        lemma_pow2_pos(e);
        lemma_mul_strict_inequality(m as int, pow2(53) as int, pow2(e) as int);
        if 53 + e < 2098 {
            lemma_pow2_strictly_increases(53 + e, 2098);
        }
        if self.magnitude() == 0 {
            lemma_pow2_pos(2098);
        }
    }

    /// `2 * self`.
    pub fn doubled(self) -> (r: Scalar)
        ensures
            r.value() == multiple(self.value(), 2),
    {
        if !self.is_finite() {
            return self;
        }
        let (s, m, e) = self.parts();
        proof {
            lemma_scaled_magnitude(m as int, 2, pow2(e as nat) as int);
        }
        Scalar::assemble(s, (m as u128) * 2, e)
    }

    /// `self * 10^p`.
    pub fn times_ten_to(self, p: u32) -> (r: Scalar)
        requires
            p <= 15,
        ensures
            r.value() == multiple(self.value(), rounding::power_of_ten(p as nat)),
    {
        if !self.is_finite() {
            return self;
        }
        let (s, m, e) = self.parts();
        let factor = ten_to(p);
        proof {
            rounding::lemma_power_of_ten_bound(p as nat);
            lemma_scaled_magnitude(m as int, factor as int, pow2(e as nat) as int);
            lemma_mul_upper_bound(
                m as int,
                0x20_0000_0000_0000,
                factor as int,
                1_000_000_000_000_000,
            );
        }
        Scalar::assemble(s, (m as u128) * (factor as u128), e)
    }

    /// The whole number nearest to `self`, a tie going away from zero; `None`
    /// from [`WHOLE_LIMIT`] on, and where `self` is not finite.
    pub fn nearest_whole(self) -> (r: Option<i64>)
        ensures
            match r {
                Some(n) => whole_value(self.value()) == Some(n as int),
                None => whole_value(self.value()) is None,
            },
    {
        if !self.is_finite() {
            return None;
        }
        let (s, m, e) = self.parts();
        let n: u128;
        if e >= 1076 {
            proof {
                lemma_whole_above(m as nat, e as nat);
            }
            return None;
        } else if e >= 1074 {
            proof {
                lemma_whole_above(m as nat, e as nat);
            }
            n = if e == 1074 {
                m as u128
            } else {
                (m as u128) * 2
            };
        } else {
            let k: u32 = 1074 - e;
            proof {
                lemma_whole_below(m as nat, e as nat);
            }
            if k > 60 {
                n = 0;
            } else {
                proof {
                    rounding::lemma_pow2_values();
                    lemma_pow2_strictly_increases(k as nat, 63);
                    lemma_pow2_pos(k as nat);
                }
                let p = two_to(k);
                n = (2 * (m as u128) + p) / (2 * p);
            }
        }
        assert(n == (2 * self.magnitude() + one()) / (2 * one()));
        proof {
            lemma_pow2_pos(1074);
            if self.magnitude() == 0 {
                lemma_fundamental_div_mod_converse(
                    one() as int,
                    2 * one() as int,
                    0,
                    one() as int,
                );
            }
        }
        if n < WHOLE_LIMIT as u128 {
            if s {
                Some(-(n as i64))
            } else {
                Some(n as i64)
            }
        } else {
            None
        }
    }

    /// Whether the two are the same number; the zeros are, whatever their signs.
    pub fn same(self, other: Scalar) -> (r: bool)
        ensures
            r == equal(self.value(), other.value()),
    {
        if self.is_nan() || other.is_nan() {
            return false;
        }
        let unsigned: u64 = self.bits % SIGN;
        let other_unsigned: u64 = other.bits % SIGN;
        proof {
            if self.value() is Finite && other.value() is Finite {
                if unsigned < other_unsigned {
                    self.lemma_ordered(other);
                } else if other_unsigned < unsigned {
                    other.lemma_ordered(self);
                }
                let zero = Scalar { bits: 0 };
                assert(zero.magnitude() == 0) by {
                    lemma_mul_basics(pow2(0) as int);
                }
                if unsigned > 0 {
                    zero.lemma_ordered(self);
                }
                if other_unsigned > 0 {
                    zero.lemma_ordered(other);
                }
            }
        }
        unsigned == other_unsigned && (unsigned == 0 || (self.bits >= SIGN) == (other.bits >= SIGN))
    }

    /// Whether `self` is finite and nearer to zero than `limit` is.
    pub fn nearer_zero_than(self, limit: Scalar) -> (r: bool)
        requires
            limit.value() is Finite,
        ensures
            r == (self.value() is Finite && distance(self.value()->0) < distance(limit.value()->0)),
    {
        proof {
            if self.value() is Finite {
                if self.unsigned_bits() < limit.unsigned_bits() {
                    self.lemma_ordered(limit);
                } else if limit.unsigned_bits() < self.unsigned_bits() {
                    limit.lemma_ordered(self);
                }
            }
        }
        self.bits % SIGN < limit.bits % SIGN
    }
}

/// A multiple of the last digit of `m * 2^e` that rounds to `m * 2^e` is it.
proof fn lemma_multiple_rounds(j: nat, m: nat, e: nat)
    requires
        m < pow2(53),
        rounding::nearest_even(j * pow2(e)) == m * pow2(e),
    ensures
        j * pow2(e) == m * pow2(e),
{
    if j <= pow2(53) {
        rounding::lemma_nearest_even_exact(j, e);
    } else {
        lemma_pow2_pos(e);
        lemma_pow2_adds(53, e);
        lemma_mul_strict_inequality(pow2(53) as int, j as int, pow2(e) as int);
        lemma_mul_strict_inequality(m as int, pow2(53) as int, pow2(e) as int);
        rounding::lemma_nearest_even_at_least(j * pow2(e), 53 + e);
    }
}

/// What a difference is rounded to is a multiple of what it was.
proof fn lemma_rounded_multiple(k: nat, e: nat) -> (j: nat)
    ensures
        rounding::nearest_even(k * pow2(e)) == j * pow2(e),
{
    rounding::lemma_pow2_values();
    if rounding::width(k) <= 53 {
        if k > 0 {
            rounding::lemma_width_bounds(k);
            if rounding::width(k) < 53 {
                lemma_pow2_strictly_increases(rounding::width(k), 53);
            }
        }
        rounding::lemma_nearest_even_exact(k, e);
        k
    } else {
        let s = (rounding::width(k) - 53) as nat;
        rounding::lemma_nearest_even_shift(k, e);
        lemma_pow2_adds(s, e);
        let q = rounding::quotient_even(k, s);
        lemma_mul_is_associative(q as int, pow2(s) as int, pow2(e) as int);
        (q * pow2(s)) as nat
    }
}

/// `x` as a multiple of `2^e`.
spec fn in_steps(x: int, e: nat) -> bool {
    exists|j: int| x == #[trigger] (j * pow2(e))
}

proof fn lemma_steps(m: nat, e: nat, low: nat)
    requires
        low <= e,
    ensures
        in_steps((m * pow2(e)) as int, low),
        in_steps(-(m * pow2(e)), low),
{
    let d = (e - low) as nat;
    lemma_pow2_adds(d, low);
    let j = (m * pow2(d)) as int;
    lemma_mul_is_associative(m as int, pow2(d) as int, pow2(low) as int);
    assert((m * pow2(e)) as int == j * pow2(low));
    lemma_mul_unary_negation(j, pow2(low) as int);
    assert(-(m * pow2(e)) == (-j) * pow2(low));
}

proof fn lemma_steps_sub(x: int, y: int, e: nat)
    requires
        in_steps(x, e),
        in_steps(y, e),
    ensures
        in_steps(x - y, e),
{
    let i = choose|i: int| x == #[trigger] (i * pow2(e));
    let j = choose|j: int| y == #[trigger] (j * pow2(e));
    lemma_mul_is_distributive_sub_other_way(pow2(e) as int, i, j);
    assert(x - y == (i - j) * pow2(e));
}

/// The distance from zero of what is counted in steps, in steps.
proof fn lemma_steps_distance(x: int, e: nat) -> (j: nat)
    requires
        in_steps(x, e),
    ensures
        distance(x) == j * pow2(e),
{
    let i = choose|i: int| x == #[trigger] (i * pow2(e));
    let j = distance(i);
    lemma_pow2_pos(e);
    lemma_mul_unary_negation(i, pow2(e) as int);
    if i < 0 {
        lemma_mul_strictly_positive(-i, pow2(e) as int);
    } else {
        lemma_mul_nonnegative(i, pow2(e) as int);
    }
    j
}

/// What is counted in the steps of a number, and rounds to it, is it.
proof fn lemma_steps_round(x: int, b: Scalar)
    requires
        b.value() is Finite,
        in_steps(x, b.exponent()),
        rounded(x) == b.value(),
    ensures
        x == b.value()->0,
{
    let e = b.exponent();
    rounding::lemma_pow2_values();
    let j = lemma_steps_distance(x, e);
    let y = b.value()->0;
    assert(rounding::nearest_even(distance(x)) == distance(y));
    lemma_multiple_rounds(j, b.significand(), e);
    assert(rounding::width(0) == 0);
}

/// What a difference in steps is rounded to is in these steps.
proof fn lemma_rounded_steps(x: int, e: nat)
    requires
        in_steps(x, e),
        rounded(x) is Finite,
    ensures
        in_steps(rounded(x)->0, e),
{
    let k = lemma_steps_distance(x, e);
    let j = lemma_rounded_multiple(k, e);
    lemma_mul_unary_negation(j as int, pow2(e) as int);
    if x < 0 {
        assert(rounded(x)->0 == (-(j as int)) * pow2(e));
    } else {
        assert(rounded(x)->0 == (j as int) * pow2(e));
    }
}

/// A difference that leads from one number to the other and back is exact.
proof fn lemma_returning(a: Scalar, b: Scalar)
    requires
        a.value() is Finite,
        b.value() is Finite,
        ({
            let d = difference(a.value(), b.value());
            &&& difference(a.value(), d) == b.value()
            &&& difference(b.value(), negated(d)) == a.value()
        }),
    ensures
        exact_difference(a.value(), b.value()),
{
    let (x, y) = (a.value()->Finite_0, b.value()->Finite_0);
    let d = difference(a.value(), b.value());
    assert(d is Finite);
    let z = d->Finite_0;
    if a.exponent() <= b.exponent() {
        let e = a.exponent();
        lemma_steps(a.significand(), a.exponent(), e);
        lemma_steps(b.significand(), b.exponent(), e);
        lemma_steps_sub(x, y, e);
        lemma_rounded_steps(x - y, e);
        lemma_steps_sub(z, z, e);
        lemma_steps_sub(0, z, e);
        lemma_steps_sub(y, -z, e);
        lemma_steps_round(y - (-z), a);
    } else {
        let e = b.exponent();
        lemma_steps(a.significand(), a.exponent(), e);
        lemma_steps(b.significand(), b.exponent(), e);
        lemma_steps_sub(x, y, e);
        lemma_rounded_steps(x - y, e);
        lemma_steps_sub(x, z, e);
        lemma_steps_round(x - z, b);
    }
}

/// Zero is no different when negated.
proof fn lemma_sign_of_zero(m: nat, e: nat)
    ensures
        m == 0 ==> signed(true, m, e) == signed(false, m, e),
{
    lemma_mul_basics(pow2(e) as int);
}

proof fn lemma_scaled_magnitude(m: int, n: int, p: int)
    ensures
        (m * n) * p == (m * p) * n,
        -((m * n) * p) == (-(m * p)) * n,
{
    assert((m * n) * p == (m * p) * n && -((m * n) * p) == (-(m * p)) * n) by (nonlinear_arith);
}

/// From the exponent of one on, a significand is a whole number already.
proof fn lemma_whole_above(m: nat, e: nat)
    requires
        e >= 1074,
        0x10_0000_0000_0000 <= m,
    ensures
        e == 1074 ==> (2 * (m * pow2(e)) + one()) / (2 * one()) == m,
        e == 1075 ==> (2 * (m * pow2(e)) + one()) / (2 * one()) == 2 * m,
        e >= 1076 ==> (2 * (m * pow2(e)) + one()) / (2 * one()) >= WHOLE_LIMIT,
{
    let k = (e - 1074) as nat;
    let u = one() as int;
    lemma_pow2_adds(k, 1074);
    lemma_pow2_pos(1074);
    lemma_pow2_pos(k);
    lemma_mul_is_associative(m as int, pow2(k) as int, u);
    let n = m * pow2(k);
    assert(2 * (n * u) + u == n * (2 * u) + u) by (nonlinear_arith);
    lemma_fundamental_div_mod_converse(2 * (n * u) + u, 2 * u, n as int, u);
    rounding::lemma_pow2_values();
    lemma_pow2_unfold(2);
    if k == 0 {
        lemma_mul_basics(m as int);
    } else if k == 1 {
        assert(n == m * 2);
    } else {
        if k > 2 {
            lemma_pow2_strictly_increases(2, k);
        }
        lemma_mul_upper_bound(0x10_0000_0000_0000, m as int, 4, pow2(k) as int);
    }
}

/// Below the exponent of one, the common power of two cancels.
proof fn lemma_whole_below(m: nat, e: nat)
    requires
        e < 1074,
        m < 0x20_0000_0000_0000,
    ensures
        ({
            let p = pow2((1074 - e) as nat);
            &&& (2 * (m * pow2(e)) + one()) / (2 * one()) == (2 * m + p) / (2 * p)
            &&& 1074 - e > 60 ==> (2 * m + p) / (2 * p) == 0
        }),
{
    let k = (1074 - e) as nat;
    let p = pow2(k) as int;
    let u = pow2(e) as int;
    lemma_pow2_adds(k, e);
    lemma_pow2_pos(k);
    lemma_pow2_pos(e);
    assert(2 * (m * u) + p * u == u * (2 * m + p)) by (nonlinear_arith);
    assert(2 * (p * u) == u * (2 * p)) by (nonlinear_arith);
    lemma_div_multiples_cancel(2 * m + p, 2 * p, u);
    if k > 60 {
        rounding::lemma_pow2_values();
        lemma_pow2_strictly_increases(54, k);
        lemma_fundamental_div_mod_converse(2 * m + p, 2 * p, 0, 2 * m + p);
    }
}

proof fn lemma_div_multiples_cancel(a: int, b: int, u: int)
    requires
        b > 0,
        u > 0,
    ensures
        (u * a) / (u * b) == a / b,
{
    lemma_fundamental_div_mod(a, b);
    let (q, r) = (a / b, a % b);
    assert(u * a == q * (u * b) + u * r) by (nonlinear_arith)
        requires
            a == b * q + r,
    ;
    assert(0 <= u * r < u * b) by (nonlinear_arith)
        requires
            0 <= r < b,
            u > 0,
    ;
    lemma_fundamental_div_mod_converse(u * a, u * b, q, u * r);
}

/// `q * 2^e` leaves the finite range where the assembled pattern leaves the
/// finite patterns.
proof fn lemma_overflow(q: nat, e: nat)
    requires
        q <= 0x20_0000_0000_0000,
        q < 0x10_0000_0000_0000 ==> e == 0,
    ensures
        q * pow2(e) >= pow2(2098) <==> e * 0x10_0000_0000_0000 + q >= 0x7ff0_0000_0000_0000,
{
    rounding::lemma_pow2_values();
    let (q, p) = (q as int, pow2(e) as int);
    lemma_pow2_pos(e);
    if e >= 2046 {
        lemma_pow2_adds(52, e);
        if e > 2046 {
            lemma_pow2_strictly_increases(2098, 52 + e);
        }
        lemma_mul_inequality(pow2(52) as int, q, p);
    } else if e == 2045 {
        lemma_pow2_adds(53, 2045);
        if q < 0x20_0000_0000_0000 {
            lemma_mul_strict_inequality(q, pow2(53) as int, p);
        }
    } else {
        lemma_pow2_adds(53, e);
        lemma_pow2_strictly_increases(53 + e, 2098);
        lemma_mul_inequality(q, pow2(53) as int, p);
    }
}

proof fn lemma_two_to_127()
    ensures
        pow2(127) == 0x8000_0000_0000_0000_0000_0000_0000_0000,
{
    rounding::lemma_pow2_values();
    lemma_pow2_adds(64, 63);
}

/// The number of binary digits of `m`.
fn width_of(m: u128) -> (w: u32)
    ensures
        w == rounding::width(m as nat),
        w <= 128,
{
    let mut rest: u128 = m;
    let mut w: u32 = 0;
    proof {
        if m > 0 {
            rounding::lemma_width_bounds(m as nat);
            lemma_two_to_127();
            lemma_pow2_unfold(128);
            if rounding::width(m as nat) > 129 {
                lemma_pow2_strictly_increases(128, (rounding::width(m as nat) - 1) as nat);
            }
        }
    }
    while rest > 0
        invariant
            rounding::width(m as nat) == w + rounding::width(rest as nat),
            rounding::width(m as nat) <= 128,
        decreases rest,
    {
        rest = rest / 2;
        w = w + 1;
    }
    w
}

/// `2^k`.
fn two_to(k: u32) -> (r: u128)
    requires
        k <= 126,
    ensures
        r == pow2(k as nat),
{
    let mut r: u128 = 1;
    let mut i: u32 = 0;
    proof {
        rounding::lemma_pow2_values();
    }
    while i < k
        invariant
            i <= k <= 126,
            r == pow2(i as nat),
        decreases k - i,
    {
        proof {
            lemma_pow2_unfold((i + 1) as nat);
            lemma_two_to_127();
            lemma_pow2_strictly_increases((i + 1) as nat, 127);
        }
        r = r * 2;
        i = i + 1;
    }
    r
}

/// `10^p`.
pub fn ten_to(p: u32) -> (r: u64)
    requires
        p <= 19,
    ensures
        r == rounding::power_of_ten(p as nat),
{
    let mut r: u64 = 1;
    let mut i: u32 = 0;
    while i < p
        invariant
            i <= p <= 19,
            r == rounding::power_of_ten(i as nat),
        decreases p - i,
    {
        proof {
            reveal_with_fuel(rounding::power_of_ten, 20);
        }
        r = r * 10;
        i = i + 1;
    }
    r
}

} // verus!
