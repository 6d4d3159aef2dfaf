//! Coordinates on the grid of the written decimals.
//!
//! A coordinate is on the grid of `p` decimals where it is `n / 10^p`, up to the
//! rounding of binary64, for a whole number `n`. Such coordinates are written as
//! exactly `n` parts, and what leads from one to another as the difference.
use vstd::arithmetic::div_mod::*;
use vstd::arithmetic::mul::*;
use vstd::arithmetic::power2::*;
use vstd::prelude::*;

use crate::ir;
use crate::ir::{PathCmd, Point};
use crate::number;
use crate::path;
use crate::reading;
use crate::replay;
use crate::rounding;
use crate::scalar;
use crate::scalar::Value;
use crate::svg;
use crate::svg::SvgWriter;

verus! {

/// Grid coordinates reach this many parts of their last decimal from zero.
pub const GRID_LIMIT: i64 = 0x4000_0000_0000;

/// Whether `x` is `n / 10^p` up to the rounding of binary64: the relative error is
/// at most `2^-53`.
pub open spec fn grid_value(x: Value, n: int, p: nat) -> bool {
    match x {
        Value::Finite(a) => {
            &&& -GRID_LIMIT <= n <= GRID_LIMIT
            &&& scalar::distance(a * rounding::power_of_ten(p) - n * scalar::one()) * pow2(53)
                <= scalar::distance(n) * scalar::one()
        },
        _ => false,
    }
}

/// Whether `x` is on the grid of `p` decimals.
pub open spec fn on_grid(x: Value, p: nat) -> bool {
    exists|n: int| grid_value(x, n, p)
}

pub open spec fn point_on_grid(q: Point, p: nat) -> bool {
    on_grid(q.x.value(), p) && on_grid(q.y.value(), p)
}

/// Whether all points of `cmd` are on the grid.
pub open spec fn command_on_grid(cmd: PathCmd, p: nat) -> bool {
    match cmd {
        PathCmd::MoveTo(q) => point_on_grid(q, p),
        PathCmd::LineTo(q) => point_on_grid(q, p),
        PathCmd::CubicTo(c1, c2, e) => point_on_grid(c1, p) && point_on_grid(c2, p)
            && point_on_grid(e, p),
        PathCmd::Close => true,
    }
}

pub open spec fn commands_on_grid(cmds: Seq<PathCmd>, p: nat) -> bool {
    forall|i: int| 0 <= i < cmds.len() ==> command_on_grid(#[trigger] cmds[i], p)
}

/// `-b <= v <= b`.
spec fn within(v: int, b: int) -> bool {
    -b <= v <= b
}

/// Rounding is off by half of the last of 53 digits at most.
proof fn lemma_nearest_even_error(n: nat)
    ensures
        within((rounding::nearest_even(n) - n) * pow2(53), n as int),
{
    if rounding::width(n) > 53 {
        let s = (rounding::width(n) - 53) as nat;
        assert(rounding::width(0) == 0);
        rounding::lemma_width_bounds(n);
        lemma_pow2_adds(52, s);
        lemma_pow2_unfold(53);
        lemma_pow2_pos(s);
        let d = pow2(s) as int;
        let (q, r) = (n as int / d, n as int % d);
        lemma_fundamental_div_mod(n as int, d);
        let m = rounding::quotient_even(n, s) as int;
        lemma_mul_is_commutative(d, q);
        let off = m * d - n;
        if m == q {
            assert(off == -r);
        } else {
            assert((q + 1) * d == q * d + d) by (nonlinear_arith);
            assert(off == d - r);
        }
        assert(-d <= 2 * off <= d);
        let h = pow2(52) as int;
        lemma_pow2_pos(52);
        assert(off * (2 * h) == (2 * off) * h) by (nonlinear_arith);
        assert(-(h * d) <= (2 * off) * h <= h * d) by (nonlinear_arith)
            requires
                -d <= 2 * off <= d,
                h > 0,
        ;
    } else {
        lemma_mul_basics(pow2(53) as int);
    }
}

/// Binary64 is off by a relative error of `2^-53` at most, well below its end.
proof fn lemma_rounded_error(x: int)
    requires
        scalar::distance(x) < pow2(2096),
    ensures
        scalar::rounded(x) is Finite,
        within((scalar::rounded(x)->0 - x) * pow2(53), scalar::distance(x) as int),
{
    let n = scalar::distance(x);
    lemma_nearest_even_error(n);
    let m = rounding::nearest_even(n) as int;
    rounding::lemma_pow2_values();
    let e = pow2(53) as int;
    assert(m <= 2 * n) by (nonlinear_arith)
        requires
            (m - n) * e <= n,
            e >= 1,
            n >= 0,
    ;
    lemma_pow2_unfold(2097);
    lemma_pow2_strictly_increases(2097, 2098);
    if x < 0 {
        assert((-m - x) * e == -((m - n) * e)) by (nonlinear_arith)
            requires
                n == -x,
        ;
    }
}

/// What is near `n` times one is whole `n`.
proof fn lemma_whole_near(y: int, n: int)
    requires
        within(2 * (y - n * scalar::one()), scalar::one() - 1),
    ensures
        scalar::whole(y) == n,
{
    let u = scalar::one() as int;
    lemma_pow2_pos(1074);
    assert(n >= 1 ==> n * u >= u) by (nonlinear_arith)
        requires
            u > 0,
    ;
    assert(n <= -1 ==> n * u <= -u) by (nonlinear_arith)
        requires
            u > 0,
    ;
    assert(n == 0 ==> n * u == 0) by (nonlinear_arith);
    if n == 0 {
        let a = scalar::distance(y) as int;
        lemma_fundamental_div_mod_converse(2 * a + u, 2 * u, 0, 2 * a + u);
    } else if n > 0 {
        let r = 2 * (y - n * u) + u;
        assert(2 * y + u == n * (2 * u) + r) by (nonlinear_arith)
            requires
                r == 2 * (y - n * u) + u,
        ;
        lemma_fundamental_div_mod_converse(2 * y + u, 2 * u, n, r);
    } else {
        let a = -y;
        let r = 2 * (a + n * u) + u;
        assert(2 * a + u == (-n) * (2 * u) + r) by (nonlinear_arith)
            requires
                r == 2 * (a + n * u) + u,
        ;
        lemma_fundamental_div_mod_converse(2 * a + u, 2 * u, -n, r);
    }
}

/// A factor scales an error with what it is the error of.
proof fn lemma_scale_error(err: int, e: int, bound: int, k: int)
    requires
        within(err * e, bound),
        k > 0,
    ensures
        within((err * k) * e, bound * k),
{
    assert(-(bound * k) <= (err * k) * e <= bound * k) by (nonlinear_arith)
        requires
            -bound <= err * e <= bound,
            k > 0,
    ;
}

proof fn lemma_distance_scale(x: int, k: int)
    requires
        k > 0,
    ensures
        scalar::distance(x * k) == scalar::distance(x) * k,
{
    assert(x < 0 ==> x * k < 0) by (nonlinear_arith)
        requires
            k > 0,
    ;
    assert(x >= 0 ==> x * k >= 0) by (nonlinear_arith)
        requires
            k > 0,
    ;
    assert((-x) * k == -(x * k)) by (nonlinear_arith);
}

/// What `units` parts come to, with `u` for one, is far below the end of binary64.
proof fn lemma_far_below(units: int)
    requires
        0 <= units <= 0x400_0000_0000_0000,
    ensures
        units * scalar::one() < pow2(2096),
{
    rounding::lemma_pow2_values();
    lemma2_to64_rest();
    lemma_pow2_adds(64, 1074);
    lemma_pow2_pos(1074);
    lemma_pow2_strictly_increases(1138, 2096);
    lemma_mul_strict_inequality(units, pow2(64) as int, scalar::one() as int);
}

/// `t`, with `t * 10^p` near `n` times one, is written as `n` parts.
proof fn lemma_scaled_near(t: int, n: int, p: u32, k: int, j: int)
    requires
        p <= 15,
        -scalar::WHOLE_LIMIT < n < scalar::WHOLE_LIMIT,
        within(
            (t * rounding::power_of_ten(p as nat) - n * scalar::one()) * pow2(53),
            k * scalar::one(),
        ),
        scalar::distance(t * rounding::power_of_ten(p as nat)) <= j * scalar::one(),
        0 <= k,
        0 <= j,
        k + j <= 0x8_0000_0000_0000,
    ensures
        number::scaled(Value::Finite(t), Some(p)) == Some(n),
{
    let u = scalar::one() as int;
    let e = pow2(53) as int;
    let x = t * rounding::power_of_ten(p as nat);
    rounding::lemma_pow2_values();
    lemma_pow2_pos(1074);
    lemma_far_below(j);
    lemma_rounded_error(x);
    let y = scalar::rounded(x)->0;
    assert((y - n * u) * e == (y - x) * e + (x - n * u) * e) by (nonlinear_arith);
    assert(j * u + k * u == (j + k) * u) by (nonlinear_arith);
    assert(within((y - n * u) * e, (j + k) * u));
    assert(within(2 * (y - n * u), u - 1)) by (nonlinear_arith)
        requires
            -((j + k) * u) <= (y - n * u) * e <= (j + k) * u,
            0 <= j + k <= 0x8_0000_0000_0000,
            e == 0x20_0000_0000_0000,
            u > 0,
    ;
    lemma_whole_near(y, n);
}

/// What a grid coordinate, times `10^p`, comes to.
proof fn lemma_grid_product(a: int, n: int, p: nat)
    requires
        grid_value(Value::Finite(a), n, p),
    ensures
        within(
            (a * rounding::power_of_ten(p) - n * scalar::one()) * pow2(53),
            (scalar::distance(n) * scalar::one()) as int,
        ),
        scalar::distance(a * rounding::power_of_ten(p)) <= 2 * scalar::distance(n) * scalar::one(),
{
    let u = scalar::one() as int;
    let e = pow2(53) as int;
    let x = a * rounding::power_of_ten(p);
    let off = x - n * u;
    rounding::lemma_pow2_values();
    lemma_pow2_pos(1074);
    lemma_distance_scale(off, e);
    lemma_distance_scale(n, u);
    let b = scalar::distance(n) * u;
    assert(scalar::distance(off) <= b) by (nonlinear_arith)
        requires
            scalar::distance(off) * e <= b,
            e >= 1,
            scalar::distance(off) >= 0,
    ;
    assert(2 * scalar::distance(n) * u == 2 * b) by (nonlinear_arith)
        requires
            b == scalar::distance(n) * u,
    ;
}

/// A grid coordinate is written as the parts that it stands for.
pub proof fn law_grid_coordinate_is_kept(x: Value, n: int, p: u32)
    requires
        p <= 15,
        grid_value(x, n, p as nat),
    ensures
        number::scaled(x, Some(p)) == Some(n),
{
    let a = x->Finite_0;
    lemma_grid_product(a, n, p as nat);
    let k = scalar::distance(n) as int;
    lemma_scaled_near(a, n, p, k, 2 * k);
}

/// Rounding `x`, seen times `d`.
proof fn lemma_rounded_product(x: int, d: int, j: int)
    requires
        d >= 1,
        scalar::distance(x * d) <= j * scalar::one(),
        0 <= j <= 0x400_0000_0000_0000,
    ensures
        scalar::distance(x) < pow2(2096),
        scalar::rounded(x) is Finite,
        within((scalar::rounded(x)->0 * d - x * d) * pow2(53), j * scalar::one()),
        scalar::distance(scalar::rounded(x)->0 * d) <= (2 * j) * scalar::one(),
{
    let u = scalar::one() as int;
    let e = pow2(53) as int;
    rounding::lemma_pow2_values();
    lemma_distance_scale(x, d);
    assert(scalar::distance(x) <= scalar::distance(x) * d) by (nonlinear_arith)
        requires
            d >= 1,
    ;
    lemma_far_below(j);
    lemma_rounded_error(x);
    let r = scalar::rounded(x)->0;
    lemma_scale_error(r - x, e, scalar::distance(x) as int, d);
    assert((r - x) * d == r * d - x * d) by (nonlinear_arith);
    let off = r * d - x * d;
    assert(within(off, j * u)) by (nonlinear_arith)
        requires
            -(j * u) <= off * e <= j * u,
            e >= 1,
            j * u >= 0,
    ;
    assert((2 * j) * u == j * u + j * u) by (nonlinear_arith);
}

/// The difference of two grid coordinates is written as the difference of their
/// parts.
pub proof fn law_grid_difference_is_kept(x: Value, n: int, y: Value, m: int, p: u32)
    requires
        p <= 15,
        grid_value(x, n, p as nat),
        grid_value(y, m, p as nat),
    ensures
        number::scaled(scalar::difference(x, y), Some(p)) == Some(n - m),
{
    let (a, b) = (x->Finite_0, y->Finite_0);
    let u = scalar::one() as int;
    let e = pow2(53) as int;
    let d = rounding::power_of_ten(p as nat) as int;
    rounding::lemma_power_of_ten_positive(p as nat);
    lemma_grid_product(a, n, p as nat);
    lemma_grid_product(b, m, p as nat);
    let s = (scalar::distance(n) + scalar::distance(m)) as int;
    assert(2 * scalar::distance(n) * u + 2 * scalar::distance(m) * u == (2 * s) * u)
        by (nonlinear_arith)
        requires
            s == scalar::distance(n) + scalar::distance(m),
    ;
    assert(scalar::distance(n) * u + scalar::distance(m) * u == s * u) by (nonlinear_arith)
        requires
            s == scalar::distance(n) + scalar::distance(m),
    ;
    let t = a - b;
    assert(t * d == a * d - b * d) by (nonlinear_arith)
        requires
            t == a - b,
    ;
    lemma_rounded_product(t, d, 2 * s);
    let r = scalar::rounded(t)->0;
    lemma_mul_is_distributive_sub_other_way(u, n, m);
    lemma_five_terms(r * d - t * d, a * d - n * u, 0, b * d - m * u, 0, e);
    assert(r * d - (n - m) * u == (r * d - t * d) + (a * d - n * u) - (b * d - m * u));
    assert((2 * s) * u + s * u == (3 * s) * u) by (nonlinear_arith);
    lemma_scaled_near(r, n - m, p, 3 * s, 2 * (2 * s));
}

/// How far grid coordinates reach, times `10^p`.
proof fn lemma_grid_reach(a: int, n: int, p: nat)
    requires
        grid_value(Value::Finite(a), n, p),
    ensures
        within(
            (a * rounding::power_of_ten(p) - n * scalar::one()) * pow2(53),
            GRID_LIMIT * scalar::one(),
        ),
        scalar::distance(a * rounding::power_of_ten(p)) <= 2 * (GRID_LIMIT * scalar::one()),
{
    let u = scalar::one() as int;
    lemma_grid_product(a, n, p);
    lemma_pow2_pos(1074);
    lemma_mul_inequality(scalar::distance(n) as int, GRID_LIMIT as int, u);
    assert(2 * scalar::distance(n) * u == 2 * (scalar::distance(n) * u)) by (nonlinear_arith);
}

/// A tenth of a part at five decimals is less than the tolerance allows.
proof fn lemma_tolerance(p: nat)
    requires
        p <= 5,
    ensures
        8 * (path::tolerance() * rounding::power_of_ten(p)) <= scalar::one(),
{
    reveal_with_fuel(rounding::power_of_ten, 6);
    let d = rounding::power_of_ten(p) as int;
    let h = pow2(1002) as int;
    lemma_pow2_pos(1002);
    lemma_pow2_adds(72, 1002);
    lemma_pow2_adds(64, 8);
    lemma2_to64();
    let k = 0x10_c6f7_a0b5_ed8d as int;
    assert(8 * ((k * h) * d) == (8 * k * d) * h) by (nonlinear_arith);
    assert(1 <= d <= 100_000);
    assert(8 * k * d <= pow2(72));
    lemma_mul_inequality(8 * k * d, pow2(72) as int, h);
}

/// A grid coordinate that counts as mirrored is so exactly, up to five decimals.
#[verifier::rlimit(30)]
pub proof fn law_grid_mirror_is_kept(
    cur: Value,
    n: int,
    prev: Value,
    m: int,
    c1: Value,
    k: int,
    p: u32,
)
    requires
        p <= 5,
        grid_value(cur, n, p as nat),
        grid_value(prev, m, p as nat),
        grid_value(c1, k, p as nat),
        path::near(path::mirrored(cur, prev), c1),
    ensures
        k == 2 * n - m,
{
    let (a, b, g) = (cur->Finite_0, prev->Finite_0, c1->Finite_0);
    let u = scalar::one() as int;
    let e = pow2(53) as int;
    let d = rounding::power_of_ten(p as nat) as int;
    let big = GRID_LIMIT as int;
    rounding::lemma_power_of_ten_positive(p as nat);
    rounding::lemma_pow2_values();
    lemma_pow2_pos(1074);
    lemma_grid_reach(a, n, p as nat);
    lemma_grid_reach(b, m, p as nat);
    lemma_grid_reach(g, k, p as nat);
    let unit = big * u;
    lemma_units(big, u);

    let a2 = a * 2;
    assert(a2 * d == 2 * (a * d)) by (nonlinear_arith)
        requires
            a2 == a * 2,
    ;
    lemma_rounded_product(a2, d, 4 * big);
    let r2 = scalar::rounded(a2)->0;
    let t = r2 - b;
    assert(t * d == r2 * d - b * d) by (nonlinear_arith)
        requires
            t == r2 - b,
    ;
    lemma_rounded_product(t, d, 10 * big);
    let r3 = scalar::rounded(t)->0;
    let z = r3 - g;
    assert(z * d == r3 * d - g * d) by (nonlinear_arith)
        requires
            z == r3 - g,
    ;
    lemma_rounded_product(z, d, 22 * big);
    let f = scalar::rounded(z)->0;

    let q = 2 * n - m - k;
    lemma_three_terms(n, m, k, u);
    lemma_five_terms(
        r3 * d - t * d,
        r2 * d - a2 * d,
        a * d - n * u,
        b * d - m * u,
        g * d - k * u,
        e,
    );
    assert(z * d - q * u == (r3 * d - t * d) + (r2 * d - a2 * d) + 2 * (a * d - n * u) - (b * d - m
        * u) - (g * d - k * u));
    assert(within((z * d - q * u) * e, 18 * unit));
    if q != 0 {
        assert(within(4 * (z * d - q * u), u)) by (nonlinear_arith)
            requires
                -(18 * unit) <= (z * d - q * u) * e <= 18 * unit,
                unit == 0x4000_0000_0000 * u,
                e == 0x20_0000_0000_0000,
                u > 0,
        ;
        assert(q * u >= u || q * u <= -u) by (nonlinear_arith)
            requires
                q >= 1 || q <= -1,
                u > 0,
        ;
        assert(4 * scalar::distance(z * d) >= 3 * u);
        lemma_half_at_least(z, d);
        assert(scalar::distance(f) < path::tolerance());
        lemma_tolerance(p as nat);
        lemma_distance_scale(f, d);
        lemma_mul_strict_inequality(scalar::distance(f) as int, path::tolerance() as int, d);
        assert(false);
    }
}

proof fn lemma_three_terms(n: int, m: int, k: int, u: int)
    by (nonlinear_arith)
    ensures
        (2 * n - m - k) * u == 2 * (n * u) - m * u - k * u,
{
}

proof fn lemma_five_terms(a: int, b: int, c: int, d: int, g: int, e: int)
    by (nonlinear_arith)
    ensures
        (a + b + 2 * c - d - g) * e == a * e + b * e + 2 * (c * e) - d * e - g * e,
{
}

/// Multiples of the reach of the grid.
proof fn lemma_units(big: int, u: int)
    ensures
        (4 * big) * u == 4 * (big * u),
        (2 * (4 * big)) * u == 8 * (big * u),
        (10 * big) * u == 10 * (big * u),
        (2 * (10 * big)) * u == 20 * (big * u),
        (22 * big) * u == 22 * (big * u),
{
    lemma_mul_is_associative(4, big, u);
    lemma_mul_is_associative(8, big, u);
    lemma_mul_is_associative(10, big, u);
    lemma_mul_is_associative(20, big, u);
    lemma_mul_is_associative(22, big, u);
}

/// Rounding leaves half at least.
proof fn lemma_half_at_least(z: int, d: int)
    requires
        d >= 1,
        scalar::distance(z) < pow2(2096),
    ensures
        2 * scalar::distance(scalar::rounded(z)->0 * d) >= scalar::distance(z * d),
{
    let e = pow2(53) as int;
    rounding::lemma_pow2_values();
    lemma_rounded_error(z);
    let f = scalar::rounded(z)->0;
    let n = scalar::distance(z) as int;
    assert(within(2 * (f - z), n)) by (nonlinear_arith)
        requires
            -n <= (f - z) * e <= n,
            e >= 2,
            n >= 0,
    ;
    lemma_distance_scale(f, d);
    lemma_distance_scale(z, d);
    let m = scalar::distance(f) as int;
    assert(2 * m >= n);
    assert(2 * (m * d) >= n * d) by (nonlinear_arith)
        requires
            2 * m >= n,
            d >= 1,
    ;
}

/// Zero is on every grid.
pub proof fn lemma_origin_on_grid(p: nat)
    ensures
        (scalar::Scalar { bits: 0 }).value() == Value::Finite(0),
        grid_value(Value::Finite(0), 0, p),
{
    let zero = scalar::Scalar { bits: 0 };
    lemma_mul_basics(pow2(0) as int);
    assert(zero.value() == Value::Finite(0));
    lemma_mul_basics(scalar::one() as int);
    lemma_mul_basics(rounding::power_of_ten(p) as int);
    lemma_mul_basics(pow2(53) as int);
    assert(grid_value(zero.value(), 0, p));
}

/// On the grid, a number counted from another is written as their difference in
/// binary64 is, rounded.
pub proof fn law_grid_delta_is_the_difference(
    a: Value,
    b: Value,
    p: u32,
    text: number::Formatted,
)
    requires
        p <= 15,
        on_grid(a, p as nat),
        on_grid(b, p as nat),
    ensures
        number::delta_text(a, b, Some(p), text) == number::number_text(
            scalar::difference(a, b),
            Some(p),
            text,
        ),
{
    let n = choose|n: int| grid_value(a, n, p as nat);
    let m = choose|m: int| grid_value(b, m, p as nat);
    law_grid_coordinate_is_kept(a, n, p);
    law_grid_coordinate_is_kept(b, m, p);
    law_grid_difference_is_kept(a, n, b, m, p);
}

/// On the grid of up to five decimals, a control point that mirrors another to a
/// millionth does so to the last decimal.
pub proof fn law_grid_mirrors_are_exact(cur: Value, prev: Value, c1: Value, p: u32)
    requires
        p <= 5,
        on_grid(cur, p as nat),
        on_grid(prev, p as nat),
        on_grid(c1, p as nat),
    ensures
        path::mirrors(cur, prev, c1, Some(p)) == path::near(path::mirrored(cur, prev), c1),
{
    let n = choose|n: int| grid_value(cur, n, p as nat);
    let m = choose|m: int| grid_value(prev, m, p as nat);
    let k = choose|k: int| grid_value(c1, k, p as nat);
    law_grid_coordinate_is_kept(cur, n, p);
    law_grid_coordinate_is_kept(prev, m, p);
    law_grid_coordinate_is_kept(c1, k, p);
    if path::near(path::mirrored(cur, prev), c1) {
        law_grid_mirror_is_kept(cur, n, prev, m, c1, k, p);
    }
}

/// Path data of points on the grid reads back as the points: of each coordinate the
/// reader finds the whole number of parts that it stands for.
pub proof fn law_grid_path_reads_back(
    w: SvgWriter,
    p: u32,
    shape: ir::ShapeView,
    text: number::Formatted,
)
    requires
        number::sound(text),
        w.precision == Some(p),
        p <= 15,
        commands_on_grid(shape.path.flatten(), p as nat),
    ensures
        replay::read_path(
            reading::in_decimals(p as nat),
            svg::path_data(w, shape, text),
            replay::origin(0int),
        ) == Some(
            replay::strokes(
                shape.path.flatten(),
                reading::as_written(Some(p), p as nat, text),
            ),
        ),
        forall|x: Value, n: int| #[trigger]
            grid_value(x, n, p as nat) ==> reading::as_written(Some(p), p as nat, text)(x) == n,
{
    let cmds = shape.path.flatten();
    assert forall|x: Value, n: int| #[trigger] grid_value(x, n, p as nat) implies number::scaled(
        x,
        Some(p),
    ) == Some(n) by {
        law_grid_coordinate_is_kept(x, n, p);
    }
    assert forall|i: int| 0 <= i < cmds.len() implies replay::holds_of(
        #[trigger] cmds[i],
        replay::fitting(p, text),
    ) by {
        assert(command_on_grid(cmds[i], p as nat));
    }
    replay::law_path_reads_back(w, p, shape, text);
}

} // verus!
