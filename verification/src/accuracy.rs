//! How far rounded results are from exact ones.
use crate::binary32;
use crate::binary32::{Binary32, ONE_BITS};
use crate::layout;
use crate::layout::LayoutStats;
use crate::mapping;
use crate::precision;
use crate::root;
use crate::rounding;
use vstd::arithmetic::div_mod::*;
use vstd::arithmetic::power2::*;
use vstd::prelude::*;

verus! {

/// The larger one of two numbers exceeds the other by at most `k` parts in `2^24`.
pub open spec fn near(a: nat, b: nat, k: nat) -> bool {
    &&& 0x100_0000 * a <= (0x100_0000 + k) * b
    &&& 0x100_0000 * b <= (0x100_0000 + k) * a
}

proof fn lemma_near_half(a: int, b: int, c: int, k: int, l: int)
    requires
        0x100_0000 * a <= (0x100_0000 + k) * b,
        0x100_0000 * b <= (0x100_0000 + l) * c,
        0 <= k <= 1000,
        0 <= l <= 1000,
        c >= 0,
    ensures
        0x100_0000 * a <= (0x100_0000 + (k + l + 1)) * c,
{
    let t: int = 0x100_0000;
    assert(t * (t * a) <= (t + k) * (t * b)) by (nonlinear_arith)
        requires
            t * a <= (t + k) * b,
            t == 0x100_0000,
    ;
    assert((t + k) * (t * b) <= (t + k) * ((t + l) * c)) by (nonlinear_arith)
        requires
            t * b <= (t + l) * c,
            t + k > 0,
    ;
    assert(k * l <= t) by (nonlinear_arith)
        requires
            0 <= k <= 1000,
            0 <= l <= 1000,
            t == 0x100_0000,
    ;
    assert((t + k) * ((t + l) * c) <= t * ((t + (k + l + 1)) * c)) by (nonlinear_arith)
        requires
            k * l <= t,
            c >= 0,
    ;
    assert(t * a <= (t + (k + l + 1)) * c) by (nonlinear_arith)
        requires
            t * (t * a) <= t * ((t + (k + l + 1)) * c),
            t == 0x100_0000,
    ;
}

pub(crate) proof fn lemma_near_chain(a: nat, b: nat, c: nat, k: nat, l: nat)
    requires
        near(a, b, k),
        near(b, c, l),
        k <= 1000,
        l <= 1000,
    ensures
        near(a, c, k + l + 1),
{
    lemma_near_half(a as int, b as int, c as int, k as int, l as int);
    lemma_near_half(c as int, b as int, a as int, l as int, k as int);
}

pub(crate) proof fn lemma_near_scaled(a: nat, b: nat, k: nat, m: nat)
    requires
        near(a, b, k),
    ensures
        near(a * m, b * m, k),
{
    let t = 0x100_0000 + k;
    assert(0x100_0000 * (a * m) <= t * (b * m)) by (nonlinear_arith)
        requires
            0x100_0000 * a <= t * b,
            m >= 0,
    ;
    assert(0x100_0000 * (b * m) <= t * (a * m)) by (nonlinear_arith)
        requires
            0x100_0000 * b <= t * a,
            m >= 0,
    ;
}

/// Numbers that differ by at most `k` parts in `2^24` of the one and of the other.
proof fn lemma_near_from(a: nat, b: nat, k: nat)
    requires
        0x100_0000 * a <= 0x100_0000 * b + k * b,
        0x100_0000 * b <= 0x100_0000 * a + k * a,
    ensures
        near(a, b, k),
{
    assert((0x100_0000 + k) * b == 0x100_0000 * b + k * b) by (nonlinear_arith);
    assert((0x100_0000 + k) * a == 0x100_0000 * a + k * a) by (nonlinear_arith);
}

/// What one rounding costs: at most one part in `2^24`, or half a unit where the result is
/// below the normal numbers. Whole numbers of units lose nothing there.
pub(crate) proof fn lemma_rounding_error(sign: bool, num: nat, den: nat)
    requires
        den > 0,
        Binary32::rounded(sign, num, den).is_finite(),
    ensures
        ({
            let m = Binary32::rounded(sign, num, den).magnitude();
            &&& 0x100_0000 * precision::distance(m * den, num) <= num + 0x80_0000 * den
            &&& den == 1 || num >= 0x80_0000 * den ==> near(m * den, num, 2)
        }),
{
    let x = Binary32::rounded(sign, num, den);
    let s = precision::lemma_rank_steps(num, den);
    let p = pow2(s);
    let d = den * p;
    let q = rounding::nearest_even(num, d);
    lemma2_to64();
    binary32::lemma_with_sign(sign, rounding::round_magnitude(num, den));
    binary32::lemma_parts(x);
    precision::lemma_key_magnitude(sign, s, q);
    let v = x.magnitude() * den;
    assert(v == q * d) by (nonlinear_arith)
        requires
            v == (q * p) * den,
            d == den * p,
    ;
    lemma_fundamental_div_mod(num as int, d as int);
    let (w, r) = (num / d, num % d);
    assert(q == w || q == w + 1);
    assert(w * d == d * w) by (nonlinear_arith);
    assert((w + 1) * d == d * w + d) by (nonlinear_arith);
    assert(2 * precision::distance(v, num) <= d);
    if s == 0 {
        assert(d == den) by (nonlinear_arith)
            requires
                d == den * p,
                p == 1,
        ;
    }
    let e = precision::distance(v, num);
    if den == 1 && s == 0 {
        assert(e == 0);
        lemma_near_from(v, num, 2);
    } else if s > 0 || num >= 0x80_0000 * den {
        assert(0x100_0000 * e <= num);
        lemma_near_from(v, num, 2);
    }
}

/// The grid step of a square root, and the root in such steps.
proof fn lemma_root_steps(num: nat, den: nat) -> (s: nat)
    requires
        den > 0,
        num >= 0x4000_0000_0000 * den,
    ensures
        den * pow2(2 * s) > 0,
        root::root_rank(num, den) == 0x80_0000 * s + root::nearest_root(num, den * pow2(2 * s)),
        num < 0x1_0000_0000_0000 * (den * pow2(2 * s)),
        num >= 0x4000_0000_0000 * (den * pow2(2 * s)),
    decreases num - den,
{
    lemma2_to64();
    if num < 0x1_0000_0000_0000 * den {
        assert(den * pow2(0) == den) by (nonlinear_arith)
            requires
                pow2(0) == 1,
        ;
        0
    } else {
        let s = lemma_root_steps(num, 4 * den);
        lemma_pow2_adds(2, 2 * s);
        let p = pow2(2 * s);
        assert(den * pow2(2 * (s + 1)) == (4 * den) * p) by (nonlinear_arith)
            requires
                pow2(2 * (s + 1)) == 4 * p,
        ;
        s + 1
    }
}

/// The nearest root of a value of at least `2^46` and below `2^48`.
proof fn lemma_root_error(num: nat, d: nat)
    requires
        d > 0,
        0x4000_0000_0000 * d <= num < 0x1_0000_0000_0000 * d,
    ensures
        0x80_0000 <= root::nearest_root(num, d) <= 0x100_0000,
        near(root::nearest_root(num, d) * root::nearest_root(num, d) * d, num, 3),
        ({
            let m = root::nearest_root(num, d) as int;
            ((2 * m - 1) * (2 * m - 1)) * d <= 4 * num <= ((2 * m + 1) * (2 * m + 1)) * d
        }),
{
    let w = num / d;
    let q = root::floor_root(w);
    let m = root::nearest_root(num, d);
    lemma_fundamental_div_mod(num as int, d as int);
    root::lemma_floor_root(w);
    assert(0x4000_0000_0000 <= w < 0x1_0000_0000_0000) by (nonlinear_arith)
        requires
            num == d * w + num % d,
            0 <= num % d < d,
            0x4000_0000_0000 * d <= num < 0x1_0000_0000_0000 * d,
            d > 0,
    ;
    assert(0x80_0000 <= q < 0x100_0000) by (nonlinear_arith)
        requires
            q * q <= w < (q + 1) * (q + 1),
            0x4000_0000_0000 <= w < 0x1_0000_0000_0000,
            q >= 0,
    ;
    assert((q * q) * d <= num < ((q + 1) * (q + 1)) * d) by (nonlinear_arith)
        requires
            q * q <= w,
            w + 1 <= (q + 1) * (q + 1),
            num == d * w + num % d,
            0 <= num % d < d,
    ;
    let middle = (2 * q + 1) * (2 * q + 1) * d;
    assert(m == q ==> 4 * num <= middle);
    assert(m == q + 1 ==> 4 * num >= middle);
    if m == q {
        assert(4 * num <= ((2 * m + 1) * (2 * m + 1)) * d);
        assert(4 * num >= ((2 * m - 1) * (2 * m - 1)) * d) by (nonlinear_arith)
            requires
                (m * m) * d <= num,
                m >= 1,
                d > 0,
        ;
    } else {
        assert((2 * m - 1) * (2 * m - 1) * d == middle);
        assert(4 * num <= ((2 * m + 1) * (2 * m + 1)) * d) by (nonlinear_arith)
            requires
                num < (m * m) * d,
                m >= 1,
                d > 0,
        ;
    }
    let g = m * m * d;
    let h = m * d;
    assert(0x80_0000 * h <= g) by (nonlinear_arith)
        requires
            g == m * m * d,
            h == m * d,
            m >= 0x80_0000,
            d > 0,
    ;
    assert(0x80_0000 * d <= h) by (nonlinear_arith)
        requires
            h == m * d,
            m >= 0x80_0000,
            d > 0,
    ;
    assert(((2 * m + 1) * (2 * m + 1)) * d == 4 * g + 4 * h + d) by (nonlinear_arith)
        requires
            g == m * m * d,
            h == m * d,
    ;
    assert(((2 * m - 1) * (2 * m - 1)) * d == 4 * g - 4 * h + d) by (nonlinear_arith)
        requires
            g == m * m * d,
            h == m * d,
    ;
    lemma_near_from(g, num, 3);
}

/// The square of a square root is near the number.
pub(crate) proof fn lemma_root_square(x: Binary32)
    requires
        x.is_finite(),
        !x.sign(),
        x.key() > 0,
        x.magnitude() <= 2 * pow2(149),
    ensures
        x.square_root().is_finite(),
        !x.square_root().sign(),
        near(
            x.square_root().magnitude() * x.square_root().magnitude(),
            x.magnitude() * pow2(149),
            3,
        ),
{
    reveal(Binary32::square_root_spec);
    lemma2_to64();
    lemma2_to64_rest();
    let one = pow2(149);
    let n = x.magnitude() * one;
    precision::lemma_zero(x);
    lemma_pow2_adds(46, 103);
    lemma_pow2_adds(149, 149);
    lemma_pow2_adds(1, 298);
    lemma_pow2_pos(103);
    assert(one <= n <= pow2(299)) by (nonlinear_arith)
        requires
            n == x.magnitude() * one,
            1 <= x.magnitude() <= 2 * one,
            pow2(298) == one * one,
            pow2(299) == 2 * pow2(298),
            one > 0,
    ;
    let s = lemma_root_steps(n, 1);
    let d = 1 * pow2(2 * s);
    let m = root::nearest_root(n, d);
    lemma_root_error(n, d);
    if s >= 127 {
        rounding::lemma_pow2_monotone(254, 2 * s);
        lemma_pow2_adds(46, 254);
        lemma_pow2_adds(1, 299);
    }
    let key = 0x80_0000 * s + m;
    precision::lemma_key_magnitude(false, s, m);
    lemma_pow2_adds(s, s);
    let p = pow2(s);
    assert((m * p) * (m * p) == m * m * d) by (nonlinear_arith)
        requires
            d == p * p,
    ;
    assert(x.square_root() == Binary32::with_sign(false, key));
    binary32::lemma_parts(x.square_root());
}

/// The smaller one of two numbers leaves at least a `2^25`th part of the larger one.
pub(crate) proof fn lemma_gap(x: Binary32, y: Binary32)
    requires
        x.magnitude() < y.magnitude(),
    ensures
        y.magnitude() <= 0x200_0000 * (y.magnitude() - x.magnitude()),
{
    binary32::lemma_parts(x);
    binary32::lemma_parts(y);
    binary32::lemma_magnitude_order(y, x);
    let (m, n) = (x.significand(), y.significand());
    let (s, t) = (x.step(), y.step());
    assert(s <= t);
    let p = pow2(s);
    let g = pow2((t - s) as nat);
    lemma_pow2_adds((t - s) as nat, s);
    lemma_pow2_pos(s);
    let j = n * g;
    assert(n * pow2(t) == j * p) by (nonlinear_arith)
        requires
            pow2(t) == g * p,
            j == n * g,
    ;
    assert(j > m) by (nonlinear_arith)
        requires
            m * p < j * p,
            p > 0,
    ;
    assert(j * p <= 0x200_0000 * (j * p - m * p)) by (nonlinear_arith)
        requires
            j >= m + 1,
            0 <= m < 0x100_0000,
            p > 0,
    ;
}

/// The error of a sum of two terms, from the errors of the terms and of the sum's root.
proof fn lemma_radius_error(rr: nat, w: nat, e: nat, one: nat)
    requires
        near(rr, w, 6),
        0x100_0000 * precision::distance(w, e) <= e + 0x100_0000 * one,
    ensures
        0x10_0000 * precision::distance(rr, e) <= e + 0x20_0000 * one,
{
    assert((0x100_0000 + 6nat) * w == 0x100_0000 * w + 6 * w) by (nonlinear_arith);
    assert((0x100_0000 + 6nat) * rr == 0x100_0000 * rr + 6 * rr) by (nonlinear_arith);
}

/// The distance of a stick's position from zero is what the square root of the sum of the
/// squares is: its square differs from that sum by at most a `2^20`th part and two units,
/// where a unit is the smallest positive number.
pub proof fn law_radius_is_close(x: Binary32, y: Binary32)
    requires
        mapping::in_stick_range(x),
        mapping::in_stick_range(y),
    ensures
        mapping::radius(x, y).is_finite(),
        !mapping::radius(x, y).sign(),
        ({
            let r = mapping::radius(x, y).magnitude();
            let exact = x.magnitude() * x.magnitude() + y.magnitude() * y.magnitude();
            0x10_0000 * precision::distance(r * r, exact) <= exact + 0x20_0000 * pow2(149)
        }),
{
    let one = pow2(149);
    let (mx, my) = (x.magnitude(), y.magnitude());
    let a = x.times(x);
    let b = y.times(y);
    let sum = a.plus(b);
    let r = mapping::radius(x, y);
    lemma_pow2_pos(149);
    mapping::lemma_marks();
    lemma_square_error(x);
    lemma_square_error(y);
    precision::lemma_plus_within(a, 0, 1, b, 0, 1);
    precision::lemma_sum(a, b);
    assert(2 * one == 2 * pow2(149));
    let w = (a.magnitude() + b.magnitude()) * one;
    assert(w == a.magnitude() * one + b.magnitude() * one) by (nonlinear_arith)
        requires
            w == (a.magnitude() + b.magnitude()) * one,
    ;
    precision::lemma_zero(sum);
    let total = a.magnitude() + b.magnitude();
    let rr = r.magnitude() * r.magnitude();
    reveal(Binary32::plus_spec);
    if total == 0 {
        binary32::lemma_with_sign(false, 0);
        lemma_root_of_zero(sum);
        precision::lemma_zero(r);
        assert(rr == 0) by (nonlinear_arith)
            requires
                rr == r.magnitude() * r.magnitude(),
                r.magnitude() == 0,
        ;
        assert(w == 0) by (nonlinear_arith)
            requires
                w == total * one,
                total == 0,
        ;
    } else {
        assert(sum == Binary32::rounded(false, total, 1));
        lemma_rounding_error(false, total, 1);
        assert(sum.magnitude() * 1 == sum.magnitude());
        precision::lemma_rounded_positive(false, total, 1);
        lemma_root_square(sum);
        lemma_near_scaled(sum.magnitude(), total, 2, one);
        lemma_near_chain(rr, sum.magnitude() * one, w, 3, 2);
    }
    lemma_radius_error(rr, w, mx * mx + my * my, one);
}

proof fn lemma_root_of_zero(x: Binary32)
    requires
        x.key() == 0,
        !x.sign(),
    ensures
        x.square_root() == x,
        x.square_root().is_finite(),
{
    reveal(Binary32::square_root_spec);
    binary32::lemma_parts(x);
}

/// The error of the square of a position on an axis.
proof fn lemma_square_error(x: Binary32)
    requires
        mapping::in_stick_range(x),
    ensures
        precision::within(x.times(x), 0, 1),
        !x.times(x).sign(),
        0x100_0000 * precision::distance(
            x.times(x).magnitude() * pow2(149),
            x.magnitude() * x.magnitude(),
        ) <= x.magnitude() * x.magnitude() + 0x80_0000 * pow2(149),
{
    let n = x.magnitude() * x.magnitude();
    lemma_pow2_pos(149);
    mapping::lemma_marks();
    mapping::lemma_square(x);
    reveal(Binary32::times_spec);
    binary32::lemma_parts(x);
    if x.is_infinite() {
        binary32::lemma_magnitude_order(Binary32 { bits: ONE_BITS }, x);
    }
    assert(x.times(x) == Binary32::rounded(false, n, pow2(149)));
    binary32::lemma_with_sign(false, rounding::round_magnitude(n, pow2(149)));
    lemma_rounding_error(false, n, pow2(149));
}

/// The distance of a stick's position from zero is at most 2.
proof fn lemma_radius_bound(x: Binary32, y: Binary32)
    requires
        mapping::in_stick_range(x),
        mapping::in_stick_range(y),
    ensures
        x.magnitude() <= pow2(149),
        y.magnitude() <= pow2(149),
        x.is_finite(),
        y.is_finite(),
        mapping::radius(x, y).magnitude() <= 2 * pow2(149),
{
    let one = pow2(149);
    let r = mapping::radius(x, y).magnitude();
    mapping::lemma_marks();
    law_radius_is_close(x, y);
    binary32::lemma_parts(x);
    binary32::lemma_parts(y);
    binary32::lemma_magnitude_order(Binary32 { bits: ONE_BITS }, x);
    binary32::lemma_magnitude_order(Binary32 { bits: ONE_BITS }, y);
    let (mx, my) = (x.magnitude(), y.magnitude());
    let e = mx * mx + my * my;
    let oo = one * one;
    assert(e <= 2 * oo) by (nonlinear_arith)
        requires
            e == mx * mx + my * my,
            oo == one * one,
            0 <= mx <= one,
            0 <= my <= one,
    ;
    lemma2_to64();
    rounding::lemma_pow2_monotone(10, 149);
    assert(8 * one <= oo) by (nonlinear_arith)
        requires
            oo == one * one,
            one >= 8,
    ;
    assert(r * r <= 4 * oo);
    assert(r <= 2 * one) by (nonlinear_arith)
        requires
            r * r <= 4 * oo,
            oo == one * one,
            r >= 0,
            one > 0,
    ;
}

/// The parts of the scale: what is left of the distance and of the full way, their
/// quotient, and the scale, with the error of each.
proof fn lemma_scale_error(r: Binary32, dz: Binary32)
    requires
        r.is_finite(),
        !r.sign(),
        r.magnitude() <= 2 * pow2(149),
        mapping::in_unit_range(dz),
        dz.less(Binary32 { bits: ONE_BITS }),
        dz.less(r),
    ensures
        mapping::deadzone_scale(r, dz).is_finite(),
        !mapping::deadzone_scale(r, dz).sign(),
        precision::below_power(mapping::deadzone_scale(r, dz), 30),
        dz.magnitude() < pow2(149),
        dz.magnitude() < r.magnitude(),
        near(
            mapping::deadzone_scale(r, dz).magnitude() * r.magnitude() * ((pow2(149)
                - dz.magnitude()) as nat),
            ((r.magnitude() - dz.magnitude()) as nat) * pow2(149) * pow2(149),
            11,
        ),
{
    let o = pow2(149);
    let one = Binary32 { bits: ONE_BITS };
    let zero = Binary32 { bits: 0 };
    let rm = r.magnitude();
    let d = dz.magnitude();
    lemma2_to64();
    lemma2_to64_rest();
    mapping::lemma_marks();
    precision::lemma_one();
    binary32::lemma_parts(dz);
    binary32::lemma_parts(r);
    precision::lemma_zero(dz);
    precision::lemma_zero(r);
    let a = (rm - d) as nat;
    let b = (o - d) as nat;
    binary32::lemma_magnitude_order(one, dz);
    assert(dz.is_finite());
    lemma_gap(dz, r);
    lemma_gap(dz, one);
    let left = r.minus(dz);
    let way = one.minus(dz);
    lemma_difference(r, dz);
    lemma_difference(one, dz);
    let am = left.magnitude();
    let bm = way.magnitude();
    lemma_near_bounds(am, a, 2);
    lemma_near_bounds(bm, b, 2);
    assert((1 * o) * 1 == o);
    precision::lemma_rounded_at_most(false, b, 1, 1);
    assert(bm <= o);
    lemma_pow2_adds(25, 124);
    lemma_pow2_adds(30, 149);
    lemma_pow2_pos(124);
    let p = pow2(124);
    assert(2 * bm >= p);
    // The quotient.
    let k = left.over(way);
    let km = k.magnitude();
    assert(am * o <= pow2(179) * bm) by (nonlinear_arith)
        requires
            am <= 2 * (2 * o),
            2 * bm >= p,
            o == 0x200_0000 * p,
            pow2(179) == 0x4000_0000 * o,
            p > 0,
            o >= 0,
    ;
    lemma_quotient_value(left, way);
    precision::lemma_rounded_power(false, am * o, bm, 30);
    lemma_rounding_error(false, am * o, bm);
    assert(near(km * bm, am * o, 2)) by {
        if am * o < 0x80_0000 * bm {
            assert(am < 0x80_0000) by (nonlinear_arith)
                requires
                    am * o < 0x80_0000 * bm,
                    bm <= o,
                    o > 0,
            ;
            lemma_whole_way(dz);
            precision::lemma_over_one(left);
            assert(km * bm == am * o);
            lemma_near_from(km * bm, am * o, 2);
        }
    }
    // The scale.
    let s = k.over(r);
    let sm = s.magnitude();
    lemma_near_bounds(km * bm, am * o, 2);
    assert(am <= 2 * km) by (nonlinear_arith)
        requires
            am * o <= 2 * (km * bm),
            bm <= o,
            o > 0,
            km >= 0,
    ;
    assert(rm <= 0x800_0000 * km);
    lemma_pow2_adds(50, 99);
    lemma_pow2_pos(99);
    assert(km * o >= 0x80_0000 * rm) by (nonlinear_arith)
        requires
            rm <= 0x800_0000 * km,
            o == 0x4_0000_0000_0000 * pow2(99),
            pow2(99) >= 1,
            rm >= 0,
            km >= 0,
    ;
    assert(km * o <= pow2(179) * rm) by (nonlinear_arith)
        requires
            km * bm <= 2 * (am * o),
            am <= 2 * rm,
            2 * bm >= p,
            o == 0x200_0000 * p,
            pow2(179) == 0x4000_0000 * o,
            p > 0,
            km >= 0,
            rm >= 0,
    ;
    lemma_quotient_value(k, r);
    precision::lemma_rounded_power(false, km * o, rm, 30);
    lemma_rounding_error(false, km * o, rm);
    assert(zero.less(r));
    assert(mapping::deadzone_scale(r, dz) == s);
    lemma_scale_chain(sm, rm, km, am, bm, a, b, o);
}

/// Chains the errors of the scale's parts.
proof fn lemma_scale_chain(s: nat, r: nat, k: nat, am: nat, bm: nat, a: nat, b: nat, o: nat)
    requires
        near(s * r, k * o, 2),
        near(k * bm, am * o, 2),
        near(am, a, 2),
        near(bm, b, 2),
    ensures
        near(s * r * b, a * o * o, 11),
{
    lemma_near_scaled(s * r, k * o, 2, bm);
    lemma_near_scaled(k * bm, am * o, 2, o);
    assert((k * o) * bm == (k * bm) * o) by (nonlinear_arith);
    lemma_near_chain(s * r * bm, (k * bm) * o, am * o * o, 2, 2);
    lemma_near_scaled(b, bm, 2, s * r);
    assert(b * (s * r) == s * r * b) by (nonlinear_arith);
    assert(bm * (s * r) == s * r * bm) by (nonlinear_arith);
    lemma_near_chain(s * r * b, s * r * bm, am * o * o, 2, 5);
    lemma_near_scaled(am, a, 2, o * o);
    assert(am * (o * o) == am * o * o) by (nonlinear_arith);
    assert(a * (o * o) == a * o * o) by (nonlinear_arith);
    lemma_near_chain(s * r * b, am * o * o, a * o * o, 8, 2);
}

/// Numbers that are near are less than twice each other.
pub(crate) proof fn lemma_near_bounds(a: nat, b: nat, k: nat)
    requires
        near(a, b, k),
        k <= 1000,
    ensures
        a <= 2 * b,
        b <= 2 * a,
{
    assert((0x100_0000 + k) * b <= 0x200_0000 * b) by (nonlinear_arith)
        requires
            k <= 1000,
            b >= 0,
    ;
    assert((0x100_0000 + k) * a <= 0x200_0000 * a) by (nonlinear_arith)
        requires
            k <= 1000,
            a >= 0,
    ;
}

/// The difference of two numbers from 0 to 2.
proof fn lemma_difference(x: Binary32, y: Binary32)
    requires
        x.is_finite(),
        y.is_finite(),
        !x.sign(),
        y.units() >= 0,
        y.magnitude() < x.magnitude() <= 2 * pow2(149),
    ensures
        x.minus(y).is_finite(),
        !x.minus(y).sign(),
        x.minus(y).key() > 0,
        x.minus(y) == Binary32::rounded(false, (x.magnitude() - y.magnitude()) as nat, 1),
        near(x.minus(y).magnitude(), (x.magnitude() - y.magnitude()) as nat, 2),
{
    reveal(Binary32::plus_spec);
    let n = y.negated();
    let e = (x.magnitude() - y.magnitude()) as nat;
    binary32::lemma_parts(y);
    binary32::lemma_with_sign(!y.sign(), y.key());
    binary32::lemma_magnitude_order(y, n);
    assert(n.units() == -y.units());
    assert(n.is_finite());
    precision::lemma_rounded_at_most(false, e, 1, 2);
    precision::lemma_rounded_positive(false, e, 1);
    lemma_rounding_error(false, e, 1);
    let d = x.minus(y);
    assert(d == Binary32::rounded(false, e, 1));
    assert(d.magnitude() * 1 == d.magnitude());
}

/// A quotient of positive numbers as a rounded fraction.
proof fn lemma_quotient_value(x: Binary32, y: Binary32)
    requires
        x.is_finite(),
        y.is_finite(),
        !x.sign(),
        !y.sign(),
        y.magnitude() > 0,
    ensures
        x.over(y) == Binary32::rounded(false, x.magnitude() * pow2(149), y.magnitude()),
{
    reveal(Binary32::over_spec);
    precision::lemma_zero(y);
}

/// A dead zone far below the grid's step at 1 leaves the whole way.
proof fn lemma_whole_way(dz: Binary32)
    requires
        dz.is_finite(),
        dz.units() >= 0,
        dz.magnitude() < 0x2_0000_0000_0000,
    ensures
        (Binary32 { bits: ONE_BITS }).minus(dz) == (Binary32 { bits: ONE_BITS }),
{
    let o = pow2(149);
    let one = Binary32 { bits: ONE_BITS };
    let before = Binary32 { bits: 0x3F7F_FFFF };
    let d = dz.magnitude();
    let b = (o - d) as nat;
    lemma2_to64();
    lemma2_to64_rest();
    mapping::lemma_marks();
    precision::lemma_one();
    rounding::lemma_pow2_monotone(50, 125);
    lemma_pow2_adds(24, 125);
    assert(before.significand() == 0xFF_FFFF && before.step() == 125);
    lemma_difference(one, dz);
    let way = one.minus(dz);
    precision::law_rounding_is_nearest(false, b, 1, one);
    assert((1 * o) * 1 == o);
    precision::lemma_rounded_at_most(false, b, 1, 1);
    assert(way.magnitude() * 1 == way.magnitude());
    assert(one.magnitude() * 1 == o);
    binary32::lemma_parts(way);
    binary32::lemma_parts(one);
    binary32::lemma_magnitude_order(one, way);
    binary32::lemma_magnitude_order(way, before);
    assert(one.key() == ONE_BITS);
    assert(before.key() == 0x3F7F_FFFF);
    assert(before.magnitude() == o - pow2(125));
    assert(pow2(125) >= 0x4_0000_0000_0000);
    assert(way.magnitude() + 2 * d >= o);
    assert(way.key() >= ONE_BITS);
    assert(way.key() <= ONE_BITS);
}

/// What a dead zone of width `d` leaves of a coordinate `x` of a position at the distance
/// `r` is `x * (r - d) / (r * (one - d))`, and at most `one`. Whether `v` is that, up to a
/// `2^20`th part and one unit.
pub open spec fn rescaled(v: nat, x: nat, r: nat, d: nat) -> bool {
    let one = pow2(149);
    let num = x * ((r - d) as nat) * one;
    let den = r * ((one - d) as nat);
    &&& v <= one
    &&& 0x10_0000 * (v * den) <= 0x10_0000 * num + num + 0x10_0000 * den
    &&& v < one ==> 0x10_0000 * num <= 0x10_0000 * (v * den) + num + 0x10_0000 * den
}

/// The coordinate, from the error of the scale.
proof fn lemma_coordinate_error(p: nat, x: nat, s: nat, r: nat, a: nat, b: nat, o: nat)
    requires
        0x100_0000 * precision::distance(p * o, x * s) <= x * s + 0x80_0000 * o,
        near(s * r * b, a * o * o, 11),
        o > 0,
    ensures
        0x10_0000 * precision::distance(p * (r * b), x * a * o) <= x * a * o + 0x10_0000 * (r * b),
{
    let d = r * b;
    let n = x * a * o;
    let g = x * s * d;
    let h = n * o;
    let po = p * o * d;
    lemma_near_scaled(s * r * b, a * o * o, 11, x);
    assert((s * r * b) * x == g) by (nonlinear_arith)
        requires
            g == x * s * d,
            d == r * b,
    ;
    assert((a * o * o) * x == h) by (nonlinear_arith)
        requires
            h == n * o,
            n == x * a * o,
    ;
    assert((0x100_0000 + 11nat) * g == 0x100_0000 * g + 11 * g) by (nonlinear_arith);
    assert((0x100_0000 + 11nat) * h == 0x100_0000 * h + 11 * h) by (nonlinear_arith);
    let e = precision::distance(p * o, x * s);
    assert(precision::distance(po, g) == e * d) by (nonlinear_arith)
        requires
            e == precision::distance(p * o, x * s),
            po == p * o * d,
            g == x * s * d,
            precision::distance(po, g) == (if po < g {
                g - po
            } else {
                po - g
            }),
            e == (if p * o < x * s {
                x * s - p * o
            } else {
                p * o - x * s
            }),
            d >= 0,
    ;
    let od = o * d;
    assert(0x100_0000 * (e * d) <= g + 0x80_0000 * od) by (nonlinear_arith)
        requires
            0x100_0000 * e <= x * s + 0x80_0000 * o,
            g == x * s * d,
            od == o * d,
            d >= 0,
    ;
    assert(0x100_0000 * precision::distance(po, h) <= 16 * h + 0x100_0000 * od);
    let v = p * d;
    assert(po == v * o) by (nonlinear_arith)
        requires
            po == p * o * d,
            v == p * d,
    ;
    let f = precision::distance(v, n);
    assert(precision::distance(po, h) == f * o) by (nonlinear_arith)
        requires
            po == v * o,
            h == n * o,
            precision::distance(po, h) == (if po < h {
                h - po
            } else {
                po - h
            }),
            f == (if v < n {
                n - v
            } else {
                v - n
            }),
            o > 0,
    ;
    assert(0x100_0000 * f <= 16 * n + 0x100_0000 * d) by (nonlinear_arith)
        requires
            0x100_0000 * (f * o) <= 16 * h + 0x100_0000 * od,
            h == n * o,
            od == o * d,
            o > 0,
    ;
}

proof fn lemma_coordinate(x: Binary32, r: Binary32, dz: Binary32)
    requires
        x.is_finite(),
        x.magnitude() <= pow2(149),
        r.is_finite(),
        !r.sign(),
        r.magnitude() <= 2 * pow2(149),
        mapping::in_unit_range(dz),
        dz.less(Binary32 { bits: ONE_BITS }),
        dz.less(r),
    ensures
        rescaled(
            mapping::clamp11(x.times(mapping::deadzone_scale(r, dz))).magnitude(),
            x.magnitude(),
            r.magnitude(),
            dz.magnitude(),
        ),
{
    let o = pow2(149);
    let s = mapping::deadzone_scale(r, dz);
    let v = x.times(s);
    let p = v.magnitude();
    let (xm, sm, rm, d) = (x.magnitude(), s.magnitude(), r.magnitude(), dz.magnitude());
    mapping::lemma_marks();
    lemma_scale_error(r, dz);
    precision::lemma_product(x, s);
    let n = xm * sm;
    assert(n <= pow2(179) * o) by (nonlinear_arith)
        requires
            n == xm * sm,
            xm <= o,
            sm <= pow2(179),
    ;
    reveal(Binary32::times_spec);
    assert(v == Binary32::rounded(x.sign(), n, o));
    precision::lemma_rounded_power(x.sign(), n, o, 30);
    lemma_rounding_error(x.sign(), n, o);
    lemma_coordinate_error(p, xm, sm, rm, (rm - d) as nat, (o - d) as nat, o);
    let c = mapping::clamp11(v);
    let den = rm * ((o - d) as nat);
    let one = Binary32 { bits: ONE_BITS };
    let minus_one = Binary32 { bits: mapping::MINUS_ONE_BITS };
    assert(one.magnitude() == o && minus_one.magnitude() == o);
    if p > o {
        assert(c.magnitude() == o);
        assert(o * den <= p * den) by (nonlinear_arith)
            requires
                o <= p,
                den >= 0,
        ;
    } else {
        assert(c == v);
    }
}

/// A position outside the dead zone is drawn towards the centre: each coordinate is scaled
/// by `(r - dz) / (r * (1 - dz))`, where `r` is the position's distance from zero, and cut
/// off at the full way, up to a `2^20`th part and one unit. So the edge of the dead zone
/// becomes the centre.
pub proof fn law_deadzone_rescales(x: Binary32, y: Binary32, dz: Binary32)
    requires
        mapping::in_stick_range(x),
        mapping::in_stick_range(y),
        mapping::in_unit_range(dz),
        dz.less(Binary32 { bits: ONE_BITS }),
        !mapping::radius(x, y).at_most(dz),
    ensures
        ({
            let (px, py) = mapping::apply_radial_deadzone(x, y, dz);
            let r = mapping::radius(x, y).magnitude();
            &&& rescaled(px.magnitude(), x.magnitude(), r, dz.magnitude())
            &&& rescaled(py.magnitude(), y.magnitude(), r, dz.magnitude())
        }),
{
    let r = mapping::radius(x, y);
    law_radius_is_close(x, y);
    lemma_radius_bound(x, y);
    assert(dz.less(r));
    lemma_coordinate(x, r, dz);
    lemma_coordinate(y, r, dz);
}

/// The error of a square, from that of the number.
proof fn lemma_square_gap(m: nat, n: nat, q: nat, o: nat)
    requires
        0x10_0000 * precision::distance(m, n) <= n + 0x10_0000 * q,
        n <= o * q,
        o >= 1,
    ensures
        0x10_0000 * precision::distance(m * m, n * n) <= 3 * (n * n) + 0x50_0000 * (o * (q * q)),
{
    let e = precision::distance(m, n);
    let w = m + n;
    assert(precision::distance(m * m, n * n) == e * w) by (nonlinear_arith)
        requires
            precision::distance(m * m, n * n) == (if m * m < n * n {
                n * n - m * m
            } else {
                m * m - n * n
            }),
            e == (if m < n {
                n - m
            } else {
                m - n
            }),
            w == m + n,
            m >= 0,
            n >= 0,
    ;
    assert(w <= 3 * n + q);
    let u: int = 0x10_0000;
    assert(u * (e * w) <= (n + u * q) * (3 * n + q)) by (nonlinear_arith)
        requires
            u * e <= n + u * q,
            0 <= w <= 3 * n + q,
            e >= 0,
            n + u * q >= 0,
    ;
    let (nn, nq, qq) = (n * n, n * q, q * q);
    assert((n + u * q) * (3 * n + q) == 3 * nn + 0x30_0001 * nq + 0x10_0000 * qq)
        by (nonlinear_arith)
        requires
            u == 0x10_0000,
            nn == n * n,
            nq == n * q,
            qq == q * q,
    ;
    let oqq = o * qq;
    assert(nq <= oqq) by (nonlinear_arith)
        requires
            n <= o * q,
            nq == n * q,
            oqq == o * qq,
            qq == q * q,
            q >= 0,
    ;
    assert(qq <= oqq) by (nonlinear_arith)
        requires
            oqq == o * qq,
            o >= 1,
            qq >= 0,
    ;
}

/// What is left of a coordinate within the full way, with its error on both sides.
proof fn lemma_inner_coordinate(v: nat, x: nat, r: nat, d: nat)
    requires
        rescaled(v, x, r, d),
        x <= pow2(149),
        d < r <= pow2(149),
    ensures
        ({
            let o = pow2(149);
            let n = x * ((r - d) as nat) * o;
            let q = r * ((o - d) as nat);
            0x10_0000 * precision::distance((v * q) * (v * q), n * n) <= 3 * (n * n) + 0x50_0000 * (o
                * (q * q))
        }),
{
    let o = pow2(149);
    let a = (r - d) as nat;
    let b = (o - d) as nat;
    let n = x * a * o;
    let q = r * b;
    lemma_pow2_pos(149);
    assert(a * o <= q) by (nonlinear_arith)
        requires
            a == r - d,
            b == o - d,
            q == r * b,
            0 <= d < r <= o,
    ;
    assert(n <= o * q) by (nonlinear_arith)
        requires
            n == x * a * o,
            a * o <= q,
            0 <= x <= o,
            a * o >= 0,
    ;
    lemma_square_gap(v * q, n, q, o);
}

/// The length, from the errors of the coordinates and of the radius.
proof fn lemma_length_error(c0: nat, c1: nat, x: nat, y: nat, r: nat, a: nat, b: nat, o: nat)
    requires
        ({
            let q = r * b;
            let n = x * a * o;
            let m = y * a * o;
            &&& 0x10_0000 * precision::distance((c0 * q) * (c0 * q), n * n) <= 3 * (n * n)
                + 0x50_0000 * (o * (q * q))
            &&& 0x10_0000 * precision::distance((c1 * q) * (c1 * q), m * m) <= 3 * (m * m)
                + 0x50_0000 * (o * (q * q))
        }),
        0x10_0000 * precision::distance(r * r, x * x + y * y) <= x * x + y * y + 0x20_0000 * o,
        a * o <= r * b,
        r > 0,
    ensures
        0x2_0000 * precision::distance((c0 * c0 + c1 * c1) * (b * b), (a * o) * (a * o)) <= (a * o)
            * (a * o) + 0x20_0000 * (o * (b * b)),
{
    let q = r * b;
    let t = a * o;
    let (n, m) = (x * a * o, y * a * o);
    let tt = t * t;
    let rr = r * r;
    let e = x * x + y * y;
    let z = n * n + m * m;
    let f = rr * tt;
    let qq = q * q;
    let oqq = o * qq;
    assert(z == e * tt) by (nonlinear_arith)
        requires
            z == n * n + m * m,
            n == x * a * o,
            m == y * a * o,
            e == x * x + y * y,
            tt == t * t,
            t == a * o,
    ;
    assert(tt <= qq) by (nonlinear_arith)
        requires
            tt == t * t,
            qq == q * q,
            0 <= t <= q,
    ;
    let g = precision::distance(rr, e);
    assert(precision::distance(f, z) == g * tt) by (nonlinear_arith)
        requires
            f == rr * tt,
            z == e * tt,
            precision::distance(f, z) == (if f < z {
                z - f
            } else {
                f - z
            }),
            g == (if rr < e {
                e - rr
            } else {
                rr - e
            }),
            tt >= 0,
    ;
    assert(0x10_0000 * (g * tt) <= z + 0x20_0000 * oqq) by (nonlinear_arith)
        requires
            0x10_0000 * g <= e + 0x20_0000 * o,
            z == e * tt,
            0 <= tt <= qq,
            oqq == o * qq,
            o >= 0,
            e >= 0,
    ;
    let (s0, s1) = ((c0 * q) * (c0 * q), (c1 * q) * (c1 * q));
    let sum = s0 + s1;
    assert(0x10_0000 * precision::distance(sum, z) <= 3 * z + 0xA0_0000 * oqq);
    assert(0x2_0000 * precision::distance(sum, f) <= f + 0x20_0000 * oqq);
    let bb = b * b;
    let cc = (c0 * c0 + c1 * c1) * bb;
    let obb = o * bb;
    assert(sum == cc * rr) by (nonlinear_arith)
        requires
            sum == (c0 * q) * (c0 * q) + (c1 * q) * (c1 * q),
            q == r * b,
            bb == b * b,
            rr == r * r,
            cc == (c0 * c0 + c1 * c1) * bb,
    ;
    assert(oqq == obb * rr) by (nonlinear_arith)
        requires
            oqq == o * (q * q),
            q == r * b,
            obb == o * bb,
            bb == b * b,
            rr == r * r,
    ;
    let h = precision::distance(cc, tt);
    assert(rr > 0) by (nonlinear_arith)
        requires
            rr == r * r,
            r > 0,
    ;
    assert(precision::distance(sum, f) == h * rr) by (nonlinear_arith)
        requires
            sum == cc * rr,
            f == rr * tt,
            precision::distance(sum, f) == (if sum < f {
                f - sum
            } else {
                sum - f
            }),
            h == (if cc < tt {
                tt - cc
            } else {
                cc - tt
            }),
            rr > 0,
    ;
    assert(0x2_0000 * h <= tt + 0x20_0000 * obb) by (nonlinear_arith)
        requires
            0x2_0000 * (h * rr) <= rr * tt + 0x20_0000 * (obb * rr),
            rr > 0,
    ;
}

/// A position at the distance `r` from zero, outside the dead zone and within the full way,
/// is left at the distance `(r - dz) / (1 - dz)`: the square of its distance differs from
/// the square of that by at most a `2^17`th part and sixteen units.
pub proof fn law_deadzone_length(x: Binary32, y: Binary32, dz: Binary32)
    requires
        mapping::in_stick_range(x),
        mapping::in_stick_range(y),
        mapping::in_unit_range(dz),
        dz.less(Binary32 { bits: ONE_BITS }),
        !mapping::radius(x, y).at_most(dz),
        mapping::radius(x, y).at_most(Binary32 { bits: ONE_BITS }),
    ensures
        ({
            let (px, py) = mapping::apply_radial_deadzone(x, y, dz);
            let one = pow2(149);
            let left = ((mapping::radius(x, y).magnitude() - dz.magnitude()) as nat) * one;
            let way = (one - dz.magnitude()) as nat;
            let square = px.magnitude() * px.magnitude() + py.magnitude() * py.magnitude();
            0x2_0000 * precision::distance(square * (way * way), left * left) <= left * left
                + 0x20_0000 * (one * (way * way))
        }),
{
    let (px, py) = mapping::apply_radial_deadzone(x, y, dz);
    let r = mapping::radius(x, y);
    let o = pow2(149);
    let d = dz.magnitude();
    mapping::lemma_marks();
    law_deadzone_rescales(x, y, dz);
    law_radius_is_close(x, y);
    lemma_radius_bound(x, y);
    lemma_inner_coordinate(px.magnitude(), x.magnitude(), r.magnitude(), d);
    lemma_inner_coordinate(py.magnitude(), y.magnitude(), r.magnitude(), d);
    let rm = r.magnitude();
    let a = (rm - d) as nat;
    let b = (o - d) as nat;
    assert(a * o <= rm * b) by (nonlinear_arith)
        requires
            a == rm - d,
            b == o - d,
            0 <= d < rm <= o,
    ;
    lemma_length_error(px.magnitude(), py.magnitude(), x.magnitude(), y.magnitude(), rm, a, b, o);
}

/// A square root is nearest to the exact root up to half a step of the grid: twice the root,
/// less or more by one step, encloses twice the exact root.
pub proof fn law_root_is_nearest(x: Binary32)
    requires
        x.is_finite(),
        !x.sign(),
        x.key() > 0,
    ensures
        ({
            let r = x.square_root();
            let m = r.magnitude() as int;
            let step = pow2(r.step()) as int;
            let exact = x.magnitude() * pow2(149);
            &&& r.is_finite() && !r.sign() && r.key() > 0
            &&& (2 * m - step) * (2 * m - step) <= 4 * exact <= (2 * m + step) * (2 * m + step)
            &&& 2 * m > step
        }),
{
    reveal(Binary32::square_root_spec);
    lemma2_to64();
    lemma2_to64_rest();
    let one = pow2(149);
    let n = x.magnitude() * one;
    precision::lemma_zero(x);
    binary32::lemma_parts(x);
    lemma_pow2_adds(46, 103);
    lemma_pow2_pos(103);
    lemma_pow2_pos(149);
    rounding::lemma_pow2_monotone(x.step(), 253);
    lemma_pow2_adds(24, 253);
    lemma_pow2_adds(277, 149);
    let top = pow2(277);
    assert(x.magnitude() <= top) by (nonlinear_arith)
        requires
            x.magnitude() == x.significand() * pow2(x.step()),
            x.significand() < 0x100_0000,
            pow2(x.step()) <= pow2(253),
            top == 0x100_0000 * pow2(253),
    ;
    assert(one <= n <= pow2(426)) by (nonlinear_arith)
        requires
            n == x.magnitude() * one,
            1 <= x.magnitude() <= top,
            pow2(426) == top * one,
            one > 0,
    ;
    let s = lemma_root_steps(n, 1);
    let d = 1 * pow2(2 * s);
    let m = root::nearest_root(n, d);
    lemma_root_error(n, d);
    if s >= 191 {
        rounding::lemma_pow2_monotone(382, 2 * s);
        lemma_pow2_adds(46, 382);
        rounding::lemma_pow2_monotone(427, 428);
        lemma_pow2_unfold(427);
        lemma_pow2_pos(426);
    }
    let key = 0x80_0000 * s + m;
    precision::lemma_key_magnitude(false, s, m);
    lemma_pow2_adds(s, s);
    lemma_pow2_pos(s);
    let r = x.square_root();
    assert(r == Binary32::with_sign(false, key));
    binary32::lemma_parts(r);
    let p = pow2(s) as int;
    let v = r.magnitude() as int;
    assert(v == m * p);
    assert((2 * v - p) * (2 * v - p) == ((2 * m - 1) * (2 * m - 1)) * d) by (nonlinear_arith)
        requires
            v == m * p,
            d == p * p,
    ;
    assert((2 * v + p) * (2 * v + p) == ((2 * m + 1) * (2 * m + 1)) * d) by (nonlinear_arith)
        requires
            v == m * p,
            d == p * p,
    ;
    assert(v >= 0x80_0000 * p) by (nonlinear_arith)
        requires
            v == m * p,
            m >= 0x80_0000,
            p > 0,
    ;
    let u = pow2(r.step()) as int;
    if m == 0x100_0000 {
        assert(r.step() == s + 1);
        lemma_pow2_unfold(s + 1);
        assert(u == 2 * p);
        assert((2 * v - u) * (2 * v - u) <= (2 * v - p) * (2 * v - p)) by (nonlinear_arith)
            requires
                u == 2 * p,
                p > 0,
                v >= 2 * p,
        ;
        assert((2 * v + p) * (2 * v + p) <= (2 * v + u) * (2 * v + u)) by (nonlinear_arith)
            requires
                u == 2 * p,
                p > 0,
                v >= 2 * p,
        ;
    } else {
        assert(r.step() == s);
    }
}

/// A number is at most `k` parts in `2^24` of one away from `num / den`.
pub open spec fn off_by(x: Binary32, num: int, den: int, k: int) -> bool {
    &&& x.is_finite()
    &&& 0x100_0000 * precision::error_of(x, num * pow2(149), den) <= k * (den * pow2(149))
}

/// What rounding a sum costs.
pub(crate) proof fn lemma_sum_error(x: Binary32, y: Binary32, m: int)
    requires
        x.is_finite(),
        y.is_finite(),
        0 <= m < 0x10_0000,
        -(m * pow2(149)) <= x.units() + y.units() <= m * pow2(149),
    ensures
        x.plus(y).is_finite(),
        0x100_0000 * precision::error_of(x.plus(y), x.units() + y.units(), 1) <= (m + 1) * pow2(
            149,
        ),
{
    reveal(Binary32::plus_spec);
    lemma2_to64();
    let o = pow2(149);
    let sum = x.units() + y.units();
    let r = x.plus(y);
    rounding::lemma_pow2_monotone(24, 149);
    precision::lemma_sum(x, y);
    assert((m + 1) * o == m * o + o) by (nonlinear_arith);
    let a: nat = (if sum < 0 {
        -sum
    } else {
        sum
    }) as nat;
    if sum != 0 {
        assert(a <= ((m as nat) * o) * 1);
        precision::lemma_rounded_at_most(sum < 0, a, 1, m as nat);
        lemma_rounding_error(sum < 0, a, 1);
        assert(r.magnitude() * 1 == r.magnitude());
    } else {
        binary32::lemma_parts(r);
    }
    assert(r.units() * 1 == r.units());
}

proof fn lemma_plus_off(x: Binary32, a: int, k: int, y: Binary32, b: int, l: int, den: int, m: int)
    requires
        off_by(x, a, den, k),
        off_by(y, b, den, l),
        den > 0,
        0 <= m < 0x10_0000,
        -(m * pow2(149)) <= x.units() + y.units() <= m * pow2(149),
    ensures
        off_by(x.plus(y), a + b, den, k + l + m + 1),
{
    let o = pow2(149) as int;
    let r = x.plus(y).units();
    let (u, v) = (x.units(), y.units());
    lemma_sum_error(x, y, m);
    let e = r - u - v;
    let c = den * o;
    let (ud, vd, ed, rd) = (u * den, v * den, e * den, r * den);
    assert(rd == ud + vd + ed) by (nonlinear_arith)
        requires
            rd == r * den,
            ud == u * den,
            vd == v * den,
            ed == e * den,
            e == r - u - v,
    ;
    assert(r * 1 == r);
    assert(-((m + 1) * o) <= 0x100_0000 * e <= (m + 1) * o);
    assert(-((m + 1) * c) <= 0x100_0000 * ed <= (m + 1) * c) by (nonlinear_arith)
        requires
            -((m + 1) * o) <= 0x100_0000 * e <= (m + 1) * o,
            ed == e * den,
            c == den * o,
            den > 0,
    ;
    assert((k + l + m + 1) * c == k * c + l * c + (m + 1) * c) by (nonlinear_arith);
    assert((a + b) * o == a * o + b * o) by (nonlinear_arith);
}

/// The product with a whole number from 1 to 128.
proof fn lemma_weighted_off(x: Binary32, a: int, k: int, den: int, w: int, m: int)
    requires
        off_by(x, a, den, k),
        den > 0,
        1 <= w <= 128,
        0 <= m < 0x10_0000,
        -(m * pow2(149)) <= w * x.units() <= m * pow2(149),
    ensures
        off_by(x.times(Binary32::of_int(w)), w * a, den, w * k + m + 1),
        off_by(Binary32::of_int(w).times(x), w * a, den, w * k + m + 1),
{
    reveal(Binary32::times_spec);
    lemma2_to64();
    let o = pow2(149) as int;
    let y = Binary32::of_int(w);
    let r = x.times(y);
    let xm = x.magnitude() as int;
    rounding::lemma_pow2_monotone(24, 149);
    precision::lemma_of_int(w);
    precision::lemma_product(x, y);
    let n = x.magnitude() * y.magnitude();
    assert(n == (w * xm) * o) by (nonlinear_arith)
        requires
            n == xm * (w * o),
    ;
    assert(w * (-xm) == -(w * xm)) by (nonlinear_arith);
    assert(w * xm <= m * o);
    assert(n <= ((m as nat) * pow2(149)) * pow2(149)) by (nonlinear_arith)
        requires
            n == (w * xm) * o,
            w * xm <= m * o,
            o == pow2(149),
            o > 0,
    ;
    precision::lemma_rounded_at_most(x.sign(), n, pow2(149), m as nat);
    lemma_rounding_error(x.sign(), n, pow2(149));
    assert(r == Binary32::rounded(x.sign(), n, pow2(149)));
    let rm = r.magnitude() as int;
    let f = rm - w * xm;
    assert(-((m + 1) * o) <= 0x100_0000 * f <= (m + 1) * o) by (nonlinear_arith)
        requires
            0x100_0000 * (rm * o - n) <= n + 0x80_0000 * o,
            -(n + 0x80_0000 * o) <= 0x100_0000 * (rm * o - n),
            n == (w * xm) * o,
            w * xm <= m * o,
            f == rm - w * xm,
            o >= 0x80_0000,
    ;
    let u = x.units();
    let e = r.units() - w * u;
    assert(e == f || e == -f);
    let c = den * o;
    let (ud, ed, rd) = (u * den, e * den, r.units() * den);
    assert(rd == w * ud + ed) by (nonlinear_arith)
        requires
            rd == r.units() * den,
            ud == u * den,
            ed == e * den,
            e == r.units() - w * u,
    ;
    assert(-((m + 1) * c) <= 0x100_0000 * ed <= (m + 1) * c) by (nonlinear_arith)
        requires
            -((m + 1) * o) <= 0x100_0000 * e <= (m + 1) * o,
            ed == e * den,
            c == den * o,
            den > 0,
    ;
    let g = ud - a * o;
    let wg = w * g;
    assert(wg == w * ud - (w * a) * o) by (nonlinear_arith)
        requires
            wg == w * g,
            g == ud - a * o,
    ;
    assert(-((w * k) * c) <= 0x100_0000 * wg <= (w * k) * c) by (nonlinear_arith)
        requires
            -(k * c) <= 0x100_0000 * g <= k * c,
            wg == w * g,
            w >= 1,
    ;
    assert((w * k + m + 1) * c == (w * k) * c + (m + 1) * c) by (nonlinear_arith);
}

/// The part that a count is of a total that is not too large.
proof fn lemma_share_off(count: u32, total: u32)
    requires
        count <= total,
        0 < total <= 0x40_0000,
    ensures
        off_by(
            Binary32::of_int(count as int).over(Binary32::of_int(total as int)),
            count as int,
            total as int,
            2,
        ),
{
    reveal(Binary32::over_spec);
    lemma2_to64();
    let o = pow2(149);
    let x = Binary32::of_int(count as int);
    let y = Binary32::of_int(total as int);
    rounding::lemma_pow2_monotone(24, 149);
    precision::lemma_share_within(count, total);
    precision::lemma_of_int(count as int);
    precision::lemma_of_int(total as int);
    precision::lemma_of_count(total, total);
    precision::lemma_zero(y);
    let num = x.magnitude() * o;
    let den = y.magnitude();
    let q = x.over(y);
    assert(q == Binary32::rounded(false, num, den));
    lemma_rounding_error(false, num, den);
    binary32::lemma_with_sign(false, rounding::round_magnitude(num, den));
    let m = q.magnitude() as int;
    let (c, t) = (count as int, total as int);
    let g = m * t - c * o;
    assert(m * den - num == g * o) by (nonlinear_arith)
        requires
            num == (c * o) * o,
            den == t * o,
            g == m * t - c * o,
    ;
    assert(-(c * o + 0x80_0000 * t) <= 0x100_0000 * g <= c * o + 0x80_0000 * t) by (nonlinear_arith)
        requires
            -(num + 0x80_0000 * den) <= 0x100_0000 * (g * o) <= num + 0x80_0000 * den,
            num == (c * o) * o,
            den == t * o,
            o > 0,
    ;
    assert(c * o + 0x80_0000 * t <= 2 * (t * o)) by (nonlinear_arith)
        requires
            0 <= c <= t,
            o >= 0x80_0000,
    ;
}

/// A partial rating with one weighted share more.
proof fn lemma_term_off(s: Binary32, a: int, k: int, top: int, count: u32, total: u32, w: int)
    requires
        off_by(s, a, total as int, k),
        precision::within(s, 0, top),
        0 <= top <= 100,
        count <= total,
        0 < total <= 0x40_0000,
        1 <= w <= 6,
    ensures
        ({
            let share = Binary32::of_int(count as int).over(Binary32::of_int(total as int));
            let r = s.plus(Binary32::of_int(w).times(share));
            &&& off_by(r, a + w * count, total as int, k + 2 * w + w + 1 + top + w + 1)
            &&& precision::within(r, 0, top + w)
        }),
{
    let o = pow2(149);
    let x = Binary32::of_int(count as int).over(Binary32::of_int(total as int));
    let t = Binary32::of_int(w).times(x);
    lemma_pow2_pos(149);
    lemma_share_off(count, total);
    precision::lemma_share_within(count, total);
    assert(0 <= w * x.units() <= w * o) by (nonlinear_arith)
        requires
            0 <= x.units() <= o,
            w >= 1,
    ;
    lemma_weighted_off(x, count as int, 2, total as int, w, w);
    precision::lemma_times_within(x, 0, 1, w);
    precision::lemma_plus_within(s, 0, top, t, 0, w);
    assert((top + w) * o == top * o + w * o) by (nonlinear_arith);
    assert(0 * o == 0);
    lemma_plus_off(s, a, k, t, w * count, w * 2 + w + 1, total as int, top + w);
}

/// A whole number is not off.
proof fn lemma_whole_off(n: int, den: int)
    requires
        -0x100_0000 < n < 0x100_0000,
        den > 0,
    ensures
        off_by(Binary32::of_int(n), n * den, den, 0),
{
    let o = pow2(149) as int;
    precision::lemma_of_int(n);
    assert((n * o) * den == (n * den) * o) by (nonlinear_arith);
    assert(0 * (den * o) == 0);
}

/// The score is the weighted mean that it stands for, in hundredths: six for the part of the
/// samples whose triggers fit, two for trigger activity, three each for calm and for moved
/// axes, two more for few button changes and for few buttons held, four and three less for
/// many. It is less than 1.001 away from that.
pub proof fn law_score_is_weighted_mean(stats: LayoutStats)
    requires
        0 < stats.samples <= 0x40_0000,
        stats.trig_hi_zero <= stats.samples,
        stats.trig_activity <= stats.samples,
        stats.axes_non_extreme <= stats.samples,
        stats.axes_activity <= stats.samples,
    ensures
        ({
            let n = stats.samples as int;
            let changes: int = if 4 * stats.buttons_change_count < n {
                2
            } else {
                -4
            };
            let held: int = if stats.buttons_popcount_sum < 4 * n {
                2
            } else {
                -3
            };
            let exact = 100 * (6 * stats.trig_hi_zero + 2 * stats.trig_activity + 3
                * stats.axes_non_extreme + 3 * stats.axes_activity + (changes + held) * n);
            -1001 * n <= 1000 * (stats.score_spec() * n - exact) <= 1001 * n
        }),
{
    reveal(LayoutStats::score_spec);
    let n = stats.samples as int;
    let o = pow2(149) as int;
    let total = Binary32::of_int(n);
    let zero = Binary32::of_int(0);
    lemma_pow2_pos(149);
    precision::lemma_of_int(0);
    lemma_whole_off(0, n);
    assert(0 * o == 0 && 0 * n == 0);
    lemma_term_off(zero, 0, 0, 0, stats.trig_hi_zero, stats.samples, 6);
    let s1 = zero.plus(Binary32::of_int(6).times(layout::share(stats.trig_hi_zero, total)));
    let a1 = 6 * stats.trig_hi_zero;
    lemma_term_off(s1, a1, 26, 6, stats.trig_activity, stats.samples, 2);
    let s2 = s1.plus(Binary32::of_int(2).times(layout::share(stats.trig_activity, total)));
    let a2 = a1 + 2 * stats.trig_activity;
    lemma_term_off(s2, a2, 42, 8, stats.axes_non_extreme, stats.samples, 3);
    let s3 = s2.plus(Binary32::of_int(3).times(layout::share(stats.axes_non_extreme, total)));
    let a3 = a2 + 3 * stats.axes_non_extreme;
    lemma_term_off(s3, a3, 64, 11, stats.axes_activity, stats.samples, 3);
    let s4 = s3.plus(Binary32::of_int(3).times(layout::share(stats.axes_activity, total)));
    let a4 = a3 + 3 * stats.axes_activity;
    assert(stats.controls_rating() == s4);
    precision::lemma_share_below_quarter(stats.buttons_change_count, stats.samples);
    precision::lemma_share_below_four(stats.buttons_popcount_sum, stats.samples);
    let changes: int = if 4 * stats.buttons_change_count < n {
        2
    } else {
        -4
    };
    let held: int = if stats.buttons_popcount_sum < 4 * n {
        2
    } else {
        -3
    };
    let t5 = stats.changes_rating();
    let t6 = stats.held_rating();
    assert(t5 == Binary32::of_int(changes));
    assert(t6 == Binary32::of_int(held));
    precision::lemma_of_int(changes);
    precision::lemma_of_int(held);
    lemma_whole_off(changes, n);
    lemma_whole_off(held, n);
    assert(-4 * o <= changes * o <= 2 * o && -3 * o <= held * o <= 2 * o) by (nonlinear_arith)
        requires
            -4 <= changes <= 2,
            -3 <= held <= 2,
            o > 0,
    ;
    let s5 = s4.plus(t5);
    let a5 = a4 + changes * n;
    precision::lemma_plus_within(s4, 0, 14, t5, -4, 2);
    lemma_plus_off(s4, a4, 89, t5, changes * n, 0, n, 18);
    let s6 = s5.plus(t6);
    let a6 = a5 + held * n;
    precision::lemma_plus_within(s5, -4, 16, t6, -3, 2);
    lemma_plus_off(s5, a5, 108, t6, held * n, 0, n, 19);
    let r = stats.rating();
    assert(r == s6);
    assert(-(1800 * o) <= 100 * r.units() <= 1800 * o);
    lemma_weighted_off(s6, a6, 128, n, 100, 1800);
    let h = r.times(Binary32::of_int(100));
    assert((changes + held) * n == changes * n + held * n) by (nonlinear_arith);
    let exact = 100 * a6;
    precision::law_whole_part(h);
    precision::lemma_times_within(r, -7, 18, 100);
    let score = stats.score_spec();
    assert((score + 1) * o == score * o + o && (score - 1) * o == score * o - o)
        by (nonlinear_arith);
    assert(score == h.truncated_spec());
    assert(precision::within(h, -700, 1800));
    assert(-700 * o <= h.units() <= 1800 * o);
    assert(!h.is_nan());
    lemma_hundredths(h.units(), stats.score_spec(), exact, n, o);
}

/// The whole part of a value that is off by little.
proof fn lemma_hundredths(u: int, score: int, exact: int, n: int, o: int)
    requires
        n > 0,
        o > 0,
        0x100_0000 * (u * n - exact * o) <= 14601 * (n * o),
        -(14601 * (n * o)) <= 0x100_0000 * (u * n - exact * o),
        score * o - o < u < score * o + o,
    ensures
        -1001 * n <= 1000 * (score * n - exact) <= 1001 * n,
{
    let no = n * o;
    let g = (score * n - exact) * o;
    assert(g == (score * o - u) * n + (u * n - exact * o)) by (nonlinear_arith)
        requires
            g == (score * n - exact) * o,
    ;
    assert(-no <= (score * o - u) * n <= no) by (nonlinear_arith)
        requires
            -o < score * o - u < o,
            no == n * o,
            n > 0,
    ;
    assert(-(1001 * no) <= 1000 * g <= 1001 * no);
    assert(-1001 * n <= 1000 * (score * n - exact) <= 1001 * n) by (nonlinear_arith)
        requires
            -(1001 * no) <= 1000 * g <= 1001 * no,
            g == (score * n - exact) * o,
            no == n * o,
            o > 0,
    ;
}

/// The score, step by step, for all counters: each counter's part of the samples, weighted
/// and added up in order, with what the two limits on the buttons add, in hundredths without
/// what follows the point. Without a sample it is far below every other.
pub proof fn law_score_steps(stats: LayoutStats)
    ensures
        stats.samples == 0 ==> stats.score_spec() == -0x4000_0000,
        stats.samples > 0 ==> {
            let n = Binary32::of_int(stats.samples as int);
            let fit = Binary32::of_int(stats.trig_hi_zero as int).over(n);
            let trig = Binary32::of_int(stats.trig_activity as int).over(n);
            let calm = Binary32::of_int(stats.axes_non_extreme as int).over(n);
            let axes = Binary32::of_int(stats.axes_activity as int).over(n);
            let changes = Binary32::of_int(stats.buttons_change_count as int).over(n);
            let held = Binary32::of_int(stats.buttons_popcount_sum as int).over(n);
            let quarter = Binary32 { bits: 0x3E80_0000 };
            let sum = Binary32::of_int(0).plus(Binary32::of_int(6).times(fit)).plus(
                Binary32::of_int(2).times(trig),
            ).plus(Binary32::of_int(3).times(calm)).plus(Binary32::of_int(3).times(axes));
            let with_changes = sum.plus(
                if changes.less(quarter) {
                    Binary32::of_int(2)
                } else {
                    Binary32::of_int(-4)
                },
            );
            let rating = with_changes.plus(
                if held.less(Binary32::of_int(4)) {
                    Binary32::of_int(2)
                } else {
                    Binary32::of_int(-3)
                },
            );
            stats.score_spec() == rating.times(Binary32::of_int(100)).truncated_spec()
        },
{
    reveal(LayoutStats::score_spec);
}

} // verus!
