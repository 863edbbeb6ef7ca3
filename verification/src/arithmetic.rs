//! Sums, differences and quotients of aligned significands.
use crate::binary32;
use crate::binary32::{Binary32, SIGN_BIT};
use crate::rounding;
use vstd::arithmetic::div_mod::*;
use vstd::arithmetic::power2::*;
use vstd::prelude::*;

verus! {

/// The exact sum of two aligned magnitudes.
pub(crate) open spec fn sum_units(ma: nat, sa: nat, mb: nat, sb: nat) -> nat {
    ma * pow2(sa) + mb * pow2(sb)
}

/// `ma * 2^sa + mb * 2^sb` and `ma * 2^sa - mb * 2^sb`, with `2^sb` taken out.
pub(crate) proof fn lemma_align(ma: nat, sa: nat, mb: nat, sb: nat)
    requires
        sa >= sb,
    ensures
        ma * pow2(sa) + mb * pow2(sb) == (ma * pow2((sa - sb) as nat) + mb) * pow2(sb),
        ma * pow2(sa) - mb * pow2(sb) == (ma * pow2((sa - sb) as nat) - mb) * pow2(sb),
        mb * pow2(sb) - ma * pow2(sa) == (mb - ma * pow2((sa - sb) as nat)) * pow2(sb),
        pow2(sb) > 0,
{
    let d = pow2((sa - sb) as nat);
    let p = pow2(sb);
    lemma_pow2_adds((sa - sb) as nat, sb);
    lemma_pow2_pos(sb);
    assert(ma * pow2(sa) == (ma * d) * p) by (nonlinear_arith)
        requires
            pow2(sa) == d * p,
    ;
    let g = ma * d;
    assert(g * p + mb * p == (g + mb) * p) by (nonlinear_arith);
    assert(g * p - mb * p == (g - mb) * p) by (nonlinear_arith);
    assert(mb * p - g * p == (mb - g) * p) by (nonlinear_arith);
}

/// Rounding `v * 2^s` as a dyadic and as a whole number of units is the same.
pub(crate) proof fn lemma_whole(v: nat, s: nat)
    ensures
        rounding::round_magnitude(v * rounding::up(s as int), rounding::down(s as int))
            == rounding::round_magnitude(v * pow2(s), 1),
{
}

/// A far smaller operand only decides between which neighbours the sum lies.
pub(crate) proof fn lemma_far(ma: nat, sa: nat, mb: nat, sb: nat, m: nat, v: nat)
    requires
        0x80_0000 <= ma < 0x100_0000,
        0 < mb < 0x100_0000,
        sa > sb + 64,
        (m == ma * pow2(40) && v == ma * pow2((sa - sb) as nat) + mb) || (m == ma * pow2(40) - 1
            && v == ma * pow2((sa - sb) as nat) - mb),
    ensures
        rounding::round_magnitude(v * pow2(sb), 1) == rounding::round_magnitude(
            (2 * m + 1) * rounding::up(sa - 41),
            rounding::down(sa - 41),
        ),
{
    lemma2_to64();
    lemma2_to64_rest();
    let d = (sa - sb) as nat;
    let b = pow2((d - 40) as nat);
    rounding::lemma_pow2_monotone(24, (d - 40) as nat);
    lemma_pow2_adds(40, (d - 40) as nat);
    lemma_pow2_adds((d - 40) as nat, sb);
    assert((d - 40) + sb == sa - 40);
    let w = ma * pow2(40);
    assert(ma * pow2(d) == w * b) by (nonlinear_arith)
        requires
            w == ma * pow2(40),
            pow2(d) == pow2(40) * b,
    ;
    assert((w - 1) * b == w * b - b) by (nonlinear_arith);
    assert((w + 1) * b == w * b + b) by (nonlinear_arith);
    assert(w > 0x100_0000) by (nonlinear_arith)
        requires
            w == ma * pow2(40),
            ma >= 0x80_0000,
            pow2(40) == 0x100_0000_0000,
    ;
    rounding::lemma_rank_between(v, b, m, sa - 40);
    let u = pow2((sa - 40) as nat);
    assert(v * u * 1 == (v * pow2(sb)) * (b * 1)) by (nonlinear_arith)
        requires
            u == b * pow2(sb),
    ;
    rounding::lemma_rank_same(v * u, b * 1, v * pow2(sb), 1);
}

/// Rounds `ma * 2^sa + mb * 2^sb` units.
pub(crate) fn add_magnitudes(ma: u32, sa: u32, mb: u32, sb: u32) -> (key: u32)
    requires
        ma < 0x100_0000,
        mb < 0x100_0000,
        sb <= sa <= 253,
        sa > 0 ==> ma >= 0x80_0000,
    ensures
        key == rounding::round_magnitude(sum_units(ma as nat, sa as nat, mb as nat, sb as nat), 1),
{
    proof {
        lemma2_to64();
        lemma2_to64_rest();
        lemma_align(ma as nat, sa as nat, mb as nat, sb as nat);
    }
    let d: u32 = sa - sb;
    if d <= 64 {
        let k: u128 = rounding::power(d);
        proof {
            rounding::lemma_pow2_monotone(d as nat, 64);
            assert(ma * k <= 0x100_0000 * 0x1_0000_0000_0000_0000) by (nonlinear_arith)
                requires
                    ma < 0x100_0000,
                    0 <= k <= 0x1_0000_0000_0000_0000,
            ;
            assert(ma * k >= 0) by (nonlinear_arith)
                requires
                    ma >= 0,
                    k >= 0,
            ;
        }
        let v: u128 = (ma as u128) * k + (mb as u128);
        proof {
            lemma_whole(v as nat, sb as nat);
        }
        rounding::round_dyadic(v, sb as i32)
    } else if mb == 0 {
        proof {
            assert(0 * pow2(sb as nat) == 0);
            lemma_whole(ma as nat, sa as nat);
        }
        rounding::round_dyadic(ma as u128, sa as i32)
    } else {
        let m: u128 = (ma as u128) * 0x100_0000_0000;
        proof {
            let v = ma as nat * pow2((sa - sb) as nat) + mb as nat;
            lemma_far(ma as nat, sa as nat, mb as nat, sb as nat, m as nat, v);
        }
        rounding::round_dyadic(2 * m + 1, sa as i32 - 41)
    }
}

/// Rounds the distance of `ma * 2^sa` and `mb * 2^sb` units, and says whether the
/// second is larger.
pub(crate) fn subtract_magnitudes(ma: u32, sa: u32, mb: u32, sb: u32) -> (r: (bool, u32))
    requires
        ma < 0x100_0000,
        mb < 0x100_0000,
        sb <= sa <= 253,
        sa > 0 ==> ma >= 0x80_0000,
    ensures
        ({
            let a = ma * pow2(sa as nat);
            let b = mb * pow2(sb as nat);
            &&& r.0 == (a < b)
            &&& r.1 == rounding::round_magnitude(
                (if a < b {
                    b - a
                } else {
                    a - b
                }) as nat,
                1,
            )
        }),
{
    proof {
        lemma2_to64();
        lemma2_to64_rest();
        lemma_align(ma as nat, sa as nat, mb as nat, sb as nat);
    }
    let d: u32 = sa - sb;
    if d <= 64 {
        let k: u128 = rounding::power(d);
        proof {
            rounding::lemma_pow2_monotone(d as nat, 64);
            assert(ma * k <= 0x100_0000 * 0x1_0000_0000_0000_0000) by (nonlinear_arith)
                requires
                    ma < 0x100_0000,
                    0 <= k <= 0x1_0000_0000_0000_0000,
            ;
            assert(ma * k >= 0) by (nonlinear_arith)
                requires
                    ma >= 0,
                    k >= 0,
            ;
        }
        let g: u128 = (ma as u128) * k;
        let h: u128 = mb as u128;
        let ghost p = pow2(sb as nat);
        if g < h {
            proof {
                assert((h - g) * p > 0) by (nonlinear_arith)
                    requires
                        h > g,
                        p > 0,
                ;
                lemma_whole((h - g) as nat, sb as nat);
            }
            (true, rounding::round_dyadic(h - g, sb as i32))
        } else {
            proof {
                assert((g - h) * p >= 0) by (nonlinear_arith)
                    requires
                        h <= g,
                        p > 0,
                ;
                lemma_whole((g - h) as nat, sb as nat);
            }
            (false, rounding::round_dyadic(g - h, sb as i32))
        }
    } else if mb == 0 {
        proof {
            assert(0 * pow2(sb as nat) == 0);
            assert(ma * pow2(sa as nat) >= 0) by (nonlinear_arith);
            lemma_whole(ma as nat, sa as nat);
        }
        (false, rounding::round_dyadic(ma as u128, sa as i32))
    } else {
        let m: u128 = (ma as u128) * 0x100_0000_0000 - 1;
        proof {
            let k = pow2(d as nat);
            let p = pow2(sb as nat);
            rounding::lemma_pow2_monotone(24, d as nat);
            assert(ma * k >= mb) by (nonlinear_arith)
                requires
                    ma >= 1,
                    k >= mb,
            ;
            let v = (ma as nat * k - mb) as nat;
            assert(v * p >= 0) by (nonlinear_arith);
            lemma_far(ma as nat, sa as nat, mb as nat, sb as nat, m as nat, v);
        }
        (false, rounding::round_dyadic(2 * m + 1, sa as i32 - 41))
    }
}

pub(crate) proof fn lemma_rank_zero()
    ensures
        rounding::round_magnitude(0, 1) == 0,
{
    rounding::lemma_nearest_even_from(0, 1, 0, 0);
}

/// A positive whole number of units does not round to zero.
pub(crate) proof fn lemma_rank_positive(n: nat)
    ensures
        n > 0 ==> rounding::round_magnitude(n, 1) > 0,
{
    if 0 < n < 0x100_0000 {
        rounding::lemma_nearest_even_from(n, 1, n, 0);
    }
}

/// The exact quotient as a dyadic, or as a place between two of them.
pub(crate) proof fn lemma_quotient(x: Binary32, y: Binary32, m: nat, e: int)
    requires
        x.is_finite(),
        y.is_finite(),
        y.significand() > 0,
        m == (x.significand() * 0x1_0000_0000_0000_0000) / y.significand(),
        e == x.step() - y.step() + 85,
    ensures
        m < 0x100_0000 * 0x1_0000_0000_0000_0000,
        ({
            let exact = rounding::round_magnitude(x.magnitude() * pow2(149), y.magnitude());
            if (x.significand() * 0x1_0000_0000_0000_0000) % y.significand() == 0 {
                exact == rounding::round_magnitude(m * rounding::up(e), rounding::down(e))
            } else {
                exact == rounding::round_magnitude(
                    (2 * m + 1) * rounding::up(e - 1),
                    rounding::down(e - 1),
                )
            }
        }),
{
    binary32::lemma_parts(x);
    binary32::lemma_parts(y);
    lemma2_to64();
    let mx = x.significand();
    let my = y.significand();
    let a = mx * 0x1_0000_0000_0000_0000;
    let p = pow2(x.step());
    let q = pow2(y.step());
    let one = pow2(149);
    let up = rounding::up(e);
    let down = rounding::down(e);
    lemma_fundamental_div_mod(a as int, my as int);
    let r = a % my;
    assert(m < 0x100_0000 * 0x1_0000_0000_0000_0000) by (nonlinear_arith)
        requires
            a == my * m + r,
            r >= 0,
            my >= 1,
            a < 0x100_0000 * 0x1_0000_0000_0000_0000,
    ;
    lemma_pow2_pos(y.step());
    assert(my * q > 0) by (nonlinear_arith)
        requires
            my > 0,
            q > 0,
    ;
    rounding::lemma_up_down_positive(e);
    rounding::lemma_up_down(x.step() + 149, y.step() + 64);
    lemma_pow2_adds(x.step(), 149);
    lemma_pow2_adds(y.step(), 64);
    let h = pow2(64);
    assert(((mx * p) * one) * (my * down) == (mx * my) * ((p * one) * down)) by (nonlinear_arith);
    assert(((mx * h) * up) * (my * q) == (mx * my) * (up * (q * h))) by (nonlinear_arith);
    assert(my * down > 0) by (nonlinear_arith)
        requires
            my > 0,
            down > 0,
    ;
    rounding::lemma_rank_same(x.magnitude() * one, y.magnitude(), a * up, my * down);
    if r == 0 {
        assert((a * up) * down == (m * up) * (my * down)) by (nonlinear_arith)
            requires
                a == my * m,
        ;
        rounding::lemma_rank_same(a * up, my * down, m * up, down);
    } else {
        assert(mx > 0);
        assert(m * my < a && a < (m + 1) * my) by (nonlinear_arith)
            requires
                a == my * m + r,
                0 < r < my,
        ;
        assert(m >= 0x100_0000) by (nonlinear_arith)
            requires
                a < (m + 1) * my,
                a >= 0x1_0000_0000_0000_0000,
                my < 0x100_0000,
        ;
        rounding::lemma_rank_between(a, my, m, e);
    }
}

/// The order of places is the order of values.
pub(crate) proof fn lemma_place(x: Binary32, y: Binary32)
    ensures
        ({
            let px = if x.sign() {
                -(x.key() as int)
            } else {
                x.key() as int
            };
            let py = if y.sign() {
                -(y.key() as int)
            } else {
                y.key() as int
            };
            &&& (px < py) == (x.units() < y.units())
            &&& (px <= py) == (x.units() <= y.units())
        }),
{
    binary32::lemma_magnitude_order(x, y);
    binary32::lemma_magnitude_order(y, x);
    let zero = Binary32 { bits: 0 };
    assert(zero.key() == 0);
    assert(zero.magnitude() == 0) by (nonlinear_arith)
        requires
            zero.magnitude() == zero.significand() * pow2(zero.step()),
            zero.significand() == 0,
    ;
    binary32::lemma_magnitude_order(zero, x);
    binary32::lemma_magnitude_order(zero, y);
}

pub(crate) proof fn lemma_whole_part(m: nat, t: nat)
    requires
        t < 149,
    ensures
        (m * pow2(t)) as int / pow2(149) as int == m as int / pow2((149 - t) as nat) as int,
{
    let d = pow2((149 - t) as nat);
    let p = pow2(t);
    lemma_pow2_adds(t, (149 - t) as nat);
    lemma_pow2_pos(t);
    lemma_pow2_pos((149 - t) as nat);
    lemma_fundamental_div_mod(m as int, d as int);
    let q = m / d;
    let r = m % d;
    assert(m * p == q * (p * d) + r * p) by (nonlinear_arith)
        requires
            m == d * q + r,
    ;
    assert(0 <= r * p < p * d) by (nonlinear_arith)
        requires
            0 <= r < d,
            p > 0,
    ;
    lemma_fundamental_div_mod_converse((m * p) as int, (p * d) as int, q as int, (r * p) as int);
}

pub(crate) proof fn lemma_whole_part_small(m: nat, t: nat)
    requires
        m < 0x100_0000,
        t + 24 < 149,
    ensures
        (m * pow2(t)) as int / pow2(149) as int == 0,
{
    lemma2_to64();
    lemma_whole_part(m, t);
    rounding::lemma_pow2_monotone(24, (149 - t) as nat);
    lemma_fundamental_div_mod_converse(m as int, pow2((149 - t) as nat) as int, 0, m as int);
}

pub(crate) proof fn lemma_whole_part_large(m: nat, t: nat)
    requires
        t >= 149,
    ensures
        (m * pow2(t)) as int / pow2(149) as int == m * pow2((t - 149) as nat),
        t > 160 && m >= 0x80_0000 ==> (m * pow2(t)) as int / pow2(149) as int >= 0x1_0000_0000,
{
    lemma2_to64();
    let k = pow2((t - 149) as nat);
    let p = pow2(149);
    lemma_pow2_adds((t - 149) as nat, 149);
    lemma_pow2_pos(149);
    assert(m * pow2(t) == (m * k) * p + 0) by (nonlinear_arith)
        requires
            pow2(t) == k * p,
    ;
    lemma_fundamental_div_mod_converse((m * pow2(t)) as int, p as int, (m * k) as int, 0);
    if t > 160 && m >= 0x80_0000 {
        rounding::lemma_pow2_monotone(12, (t - 149) as nat);
        assert(m * k >= 0x80_0000 * 4096) by (nonlinear_arith)
            requires
                m >= 0x80_0000,
                k >= 4096,
        ;
    }
}

/// The number with the given sign and low 31 bits.
pub(crate) fn assemble(sign: bool, key: u32) -> (r: Binary32)
    requires
        key < SIGN_BIT,
    ensures
        r == Binary32::with_sign(sign, key as nat),
{
    if sign {
        Binary32 { bits: key + SIGN_BIT }
    } else {
        Binary32 { bits: key }
    }
}

} // verus!
