//! Rounding to 53 significant binary digits, ties to even.
//!
//! Magnitudes are natural numbers, counted in the smallest positive step that a
//! binary64 number can take. In that unit every finite binary64 number is whole,
//! and so are the exact results of the operations in [`crate::scalar`].
use vstd::arithmetic::div_mod::*;
use vstd::arithmetic::mul::*;
use vstd::arithmetic::power2::*;
use vstd::prelude::*;

verus! {

/// The number of binary digits of `n`; zero has none.
pub open spec fn width(n: nat) -> nat
    decreases n,
{
    if n == 0 {
        0
    } else {
        1 + width(n / 2)
    }
}

/// `n / 2^s`, rounded to the nearest whole number, a tie going to the even one.
pub open spec fn quotient_even(n: nat, s: nat) -> nat {
    let q = n / pow2(s);
    let r = n % pow2(s);
    if 2 * r > pow2(s) || (2 * r == pow2(s) && q % 2 == 1) {
        q + 1
    } else {
        q
    }
}

/// The number nearest to `n` that has at most 53 significant binary digits, a
/// tie going to the one whose last digit is even.
pub open spec fn nearest_even(n: nat) -> nat {
    if width(n) <= 53 {
        n
    } else {
        let s = (width(n) - 53) as nat;
        quotient_even(n, s) * pow2(s)
    }
}

/// `10^p`.
pub open spec fn power_of_ten(p: nat) -> nat
    decreases p,
{
    if p == 0 {
        1
    } else {
        10 * power_of_ten((p - 1) as nat)
    }
}

pub proof fn lemma_pow2_values()
    ensures
        pow2(0) == 1,
        pow2(1) == 2,
        pow2(52) == 0x10_0000_0000_0000,
        pow2(53) == 0x20_0000_0000_0000,
        pow2(54) == 0x40_0000_0000_0000,
        pow2(63) == 0x8000_0000_0000_0000,
        pow2(64) == 0x1_0000_0000_0000_0000,
{
    lemma2_to64();
    lemma2_to64_rest();
}

/// `width(n)` is the only `k` with `2^(k-1) <= n < 2^k`.
pub proof fn lemma_width_bounds(n: nat)
    requires
        n > 0,
    ensures
        width(n) > 0,
        pow2((width(n) - 1) as nat) <= n < pow2(width(n)),
    decreases n,
{
    lemma_pow2_values();
    if n >= 2 {
        lemma_width_bounds(n / 2);
        lemma_pow2_unfold(width(n));
        lemma_pow2_unfold((width(n) - 1) as nat);
    } else {
        assert(width(0) == 0);
        assert(width(1) == 1);
    }
}

pub proof fn lemma_width_unique(n: nat, k: nat)
    requires
        k > 0,
        pow2((k - 1) as nat) <= n < pow2(k),
    ensures
        width(n) == k,
{
    lemma_pow2_pos((k - 1) as nat);
    lemma_width_bounds(n);
    let w = width(n);
    if w < k {
        if w < k - 1 {
            lemma_pow2_strictly_increases(w, (k - 1) as nat);
        }
    } else if k < w {
        if k < w - 1 {
            lemma_pow2_strictly_increases(k, (w - 1) as nat);
        }
    }
}

/// Shifting left by `e` digits adds `e` digits.
pub proof fn lemma_width_shift(n: nat, e: nat)
    requires
        n > 0,
    ensures
        width(n * pow2(e)) == width(n) + e,
{
    lemma_width_bounds(n);
    let w = width(n);
    lemma_pow2_pos(e);
    lemma_pow2_adds((w - 1) as nat, e);
    lemma_pow2_adds(w, e);
    lemma_mul_inequality(pow2((w - 1) as nat) as int, n as int, pow2(e) as int);
    lemma_mul_strict_inequality(n as int, pow2(w) as int, pow2(e) as int);
    lemma_width_unique(n * pow2(e), w + e);
}

/// What has at most 53 significant digits, at any exponent, is kept as it is.
pub proof fn lemma_nearest_even_exact(n: nat, e: nat)
    requires
        n <= pow2(53),
    ensures
        nearest_even(n * pow2(e)) == n * pow2(e),
{
    lemma_pow2_pos(e);
    if n == 0 {
        assert(n * pow2(e) == 0);
        assert(width(0) == 0);
    } else if n == pow2(53) {
        lemma_pow2_adds(53, e);
        lemma_pow2_adds(1, (52 + e) as nat);
        lemma_pow2_adds(52, e);
        lemma_pow2_values();
        let m = n * pow2(e);
        assert(m == pow2(53 + e));
        lemma_pow2_unfold((54 + e) as nat);
        lemma_pow2_pos(53 + e);
        lemma_width_unique(m, (54 + e) as nat);
        let s = (e + 1) as nat;
        lemma_pow2_adds(52, s);
        lemma_pow2_pos(s);
        assert(m == pow2(52) * pow2(s));
        lemma_fundamental_div_mod_converse(m as int, pow2(s) as int, pow2(52) as int, 0);
    } else {
        lemma_width_bounds(n);
        lemma_width_shift(n, e);
        let w = width(n);
        if w > 53 {
            if w > 54 {
                lemma_pow2_strictly_increases(53, (w - 1) as nat);
            }
            assert(false);
        }
        let m = n * pow2(e);
        if w + e > 53 {
            let s = (w + e - 53) as nat;
            let k = (e - s) as nat;
            lemma_pow2_adds(k, s);
            lemma_pow2_pos(s);
            lemma_mul_is_associative(n as int, pow2(k) as int, pow2(s) as int);
            let q = n * pow2(k);
            assert(m == q * pow2(s));
            lemma_fundamental_div_mod_converse(m as int, pow2(s) as int, q as int, 0);
        }
    }
}

/// Rounding does not go below a power of two.
pub proof fn lemma_nearest_even_at_least(n: nat, k: nat)
    requires
        n >= pow2(k),
    ensures
        nearest_even(n) >= pow2(k),
{
    lemma_pow2_pos(k);
    lemma_width_bounds(n);
    let w = width(n);
    if k >= w {
        if k > w {
            lemma_pow2_strictly_increases(w, k);
        }
        assert(false);
    }
    if w > 53 {
        let s = (w - 53) as nat;
        lemma_pow2_pos(s);
        lemma_pow2_adds(52, s);
        let q = n / pow2(s);
        lemma_fundamental_div_mod(n as int, pow2(s) as int);
        assert(q >= pow2(52)) by (nonlinear_arith)
            requires
                n >= pow2(52) * pow2(s),
                n == pow2(s) * q + n % pow2(s),
                n % pow2(s) < pow2(s),
                pow2(s) > 0,
        ;
        lemma_mul_inequality(pow2(52) as int, quotient_even(n, s) as int, pow2(s) as int);
        if k < w - 1 {
            lemma_pow2_strictly_increases(k, (w - 1) as nat);
        }
    }
}

/// Rounding commutes with a shift.
pub proof fn lemma_nearest_even_shift(n: nat, e: nat)
    requires
        width(n) > 53,
    ensures
        nearest_even(n * pow2(e)) == quotient_even(n, (width(n) - 53) as nat) * pow2(
            (width(n) - 53 + e) as nat,
        ),
{
    let s = (width(n) - 53) as nat;
    assert(width(0) == 0);
    lemma_width_shift(n, e);
    let m = n * pow2(e);
    let t = (s + e) as nat;
    lemma_pow2_adds(s, e);
    lemma_pow2_pos(s);
    lemma_pow2_pos(e);
    let a = pow2(s) as int;
    let b = pow2(e) as int;
    let q = n as int / a;
    let r = n as int % a;
    lemma_fundamental_div_mod(n as int, a);
    assert(m == q * (a * b) + r * b) by (nonlinear_arith)
        requires
            m == n * b,
            n == a * q + r,
    ;
    assert(0 <= r * b < a * b) by (nonlinear_arith)
        requires
            0 <= r < a,
            b > 0,
    ;
    lemma_fundamental_div_mod_converse(m as int, a * b, q, r * b);
    assert(2 * (r * b) > a * b <==> 2 * r > a) by (nonlinear_arith)
        requires
            b > 0,
    ;
    assert(2 * (r * b) == a * b <==> 2 * r == a) by (nonlinear_arith)
        requires
            b > 0,
    ;
}

/// A number of 53 digits shifted far left absorbs what is much smaller than its
/// last digit.
pub proof fn lemma_nearest_even_absorbs(n: nat, d: nat, t: int)
    requires
        pow2(52) <= n < pow2(53),
        d >= 56,
        -pow2(53) < t < pow2(53),
    ensures
        n * pow2(d) + t > 0,
        width((n * pow2(d) + t) as nat) > 53,
        nearest_even((n * pow2(d) + t) as nat) == n * pow2(d),
{
    lemma_pow2_values();
    lemma_pow2_adds(52, d);
    lemma_pow2_adds(53, d);
    lemma_pow2_adds(52, (d - 1) as nat);
    lemma_pow2_adds(53, (d - 1) as nat);
    lemma_pow2_unfold(d);
    lemma_pow2_unfold((d - 1) as nat);
    if d > 56 {
        lemma_pow2_strictly_increases(56, d);
    }
    lemma_pow2_unfold(56);
    lemma_pow2_unfold(55);
    let p = pow2(d) as int;
    assert(p >= 8 * pow2(53));
    let m = n * p + t;
    if t >= 0 {
        assert(n * p <= (pow2(53) - 1) * p) by (nonlinear_arith)
            requires
                n <= pow2(53) - 1,
                p > 0,
        ;
        assert((pow2(53) - 1) * p == pow2(53) * p - p) by (nonlinear_arith);
        assert(pow2(52) * p <= n * p) by (nonlinear_arith)
            requires
                pow2(52) <= n,
                p > 0,
        ;
        lemma_width_unique(m as nat, (53 + d) as nat);
        lemma_fundamental_div_mod_converse(m, p, n as int, t);
    } else if n > pow2(52) {
        assert((pow2(52) + 1) * p <= n * p) by (nonlinear_arith)
            requires
                pow2(52) + 1 <= n,
                p > 0,
        ;
        assert((pow2(52) + 1) * p == pow2(52) * p + p) by (nonlinear_arith);
        assert(n * p < pow2(53) * p) by (nonlinear_arith)
            requires
                n < pow2(53),
                p > 0,
        ;
        lemma_width_unique(m as nat, (53 + d) as nat);
        assert((n - 1) * p == n * p - p) by (nonlinear_arith);
        lemma_fundamental_div_mod_converse(m, p, n - 1, p + t);
    } else {
        let h = pow2((d - 1) as nat) as int;
        assert(n * p == pow2(53) * h) by (nonlinear_arith)
            requires
                n == pow2(52),
                pow2(53) == 2 * pow2(52),
                p == 2 * h,
        ;
        assert((pow2(53) - 1) * h == pow2(53) * h - h) by (nonlinear_arith);
        lemma_width_unique(m as nat, (52 + d) as nat);
        lemma_fundamental_div_mod_converse(m, h, pow2(53) - 1, h + t);
    }
}

pub proof fn lemma_power_of_ten_positive(p: nat)
    ensures
        power_of_ten(p) > 0,
    decreases p,
{
    if p > 0 {
        lemma_power_of_ten_positive((p - 1) as nat);
    }
}

/// `10^p` for the exponents in which coordinates are written.
pub proof fn lemma_power_of_ten_bound(p: nat)
    requires
        p <= 15,
    ensures
        0 < power_of_ten(p) <= 1_000_000_000_000_000,
    decreases p,
{
    reveal_with_fuel(power_of_ten, 16);
}

} // verus!
