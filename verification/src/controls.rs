//! What the controls of the controller do to the pad, in terms of bits and exact values.
use crate::accuracy;
use crate::binary32;
use crate::binary32::{Binary32, ONE_BITS};
use crate::mapping;
use crate::mapping::{StickCalibration, HALF_BITS, STICK_DEADZONE_BITS};
use crate::packet::ParsedInput;
use crate::precision;
use crate::rounding;
use vstd::arithmetic::power2::*;
use vstd::prelude::*;

verus! {

/// Each button of the pad is held if and only if its own bit of the button word is set,
/// whatever the other bits and everything else are: Start by bit 2, Z by bit 3, A, B, X and Y
/// by bits 4 to 7, and up, down, left and right by bits 8 to 11.
pub proof fn law_pad_buttons(p: ParsedInput, cal: StickCalibration)
    ensures
        ({
            let s = mapping::dolphin_state(p, cal);
            let w = p.buttons;
            &&& s.start <==> w / 4 % 2 == 1
            &&& s.z <==> w / 8 % 2 == 1
            &&& s.a <==> w / 16 % 2 == 1
            &&& s.b <==> w / 32 % 2 == 1
            &&& s.x <==> w / 64 % 2 == 1
            &&& s.y <==> w / 128 % 2 == 1
            &&& s.d_up <==> w / 256 % 2 == 1
            &&& s.d_down <==> w / 512 % 2 == 1
            &&& s.d_left <==> w / 1024 % 2 == 1
            &&& s.d_right <==> w / 2048 % 2 == 1
        }),
{
    let w = p.buttons;
    assert((w & 0x0004 != 0 <==> w / 4 % 2 == 1) && (w & 0x0008 != 0 <==> w / 8 % 2 == 1) && (w
        & 0x0010 != 0 <==> w / 16 % 2 == 1) && (w & 0x0020 != 0 <==> w / 32 % 2 == 1) && (w & 0x0040
        != 0 <==> w / 64 % 2 == 1) && (w & 0x0080 != 0 <==> w / 128 % 2 == 1) && (w & 0x0100 != 0
        <==> w / 256 % 2 == 1) && (w & 0x0200 != 0 <==> w / 512 % 2 == 1) && (w & 0x0400 != 0 <==> w
        / 1024 % 2 == 1) && (w & 0x0800 != 0 <==> w / 2048 % 2 == 1)) by (bit_vector);
}

/// Each analog value depends on its own controls alone: a stick on its two axes and its
/// learned centre, a trigger on itself. The number of positions learned from has no part in
/// anything.
pub proof fn law_pad_parts(
    p: ParsedInput,
    cal: StickCalibration,
    q: ParsedInput,
    other: StickCalibration,
)
    ensures
        ({
            let s = mapping::dolphin_state(p, cal);
            let t = mapping::dolphin_state(q, other);
            &&& p.lx == q.lx && p.ly == q.ly && cal.lx0 == other.lx0 && cal.ly0 == other.ly0
                ==> s.main_x == t.main_x && s.main_y == t.main_y
            &&& p.rx == q.rx && p.ry == q.ry && cal.rx0 == other.rx0 && cal.ry0 == other.ry0
                ==> s.c_x == t.c_x && s.c_y == t.c_y
            &&& p.lt10 == q.lt10 ==> s.l == t.l
            &&& p.rt10 == q.rt10 ==> s.r == t.r
        }),
        mapping::dolphin_state(p, (StickCalibration { n: other.n, ..cal }))
            == mapping::dolphin_state(p, cal),
{
}

/// The triggers of the pad are those of the controller: the left one L and the right one R.
pub proof fn law_pad_triggers(p: ParsedInput, cal: StickCalibration)
    ensures
        mapping::dolphin_state(p, cal).l == mapping::norm_trig10_to_01(p.lt10),
        mapping::dolphin_state(p, cal).r == mapping::norm_trig10_to_01(p.rt10),
{
}

/// Whether `m` is half of `1 + v / 2^149`, the place of a position from -1 to 1 on the range
/// from 0 to 1: up to a `2^21`th part, on the right side of the middle, and off the middle
/// as soon as the position is by a `2^23`th part.
pub open spec fn halfway(m: Binary32, v: int) -> bool {
    let one = pow2(149) as int;
    let twice = 2 * m.units();
    &&& m.is_finite()
    &&& 0 <= m.units() <= one
    &&& -one <= 0x20_0000 * (twice - (one + v)) <= one
    &&& v >= 0 ==> twice >= one
    &&& v <= 0 ==> twice <= one
    &&& 0x80_0000 * v >= one ==> twice > one
    &&& 0x80_0000 * v <= -one ==> twice < one
}

/// The magnitudes of one and of one half and of their neighbours.
proof fn lemma_neighbours()
    ensures
        (Binary32 { bits: 0x3F80_0001 }).magnitude() == pow2(149) + pow2(126),
        (Binary32 { bits: 0x3F7F_FFFF }).magnitude() == pow2(149) - pow2(125),
        2 * (Binary32 { bits: 0x3F00_0001 }).magnitude() == pow2(149) + pow2(126),
        2 * (Binary32 { bits: 0x3EFF_FFFF }).magnitude() == pow2(149) - pow2(125),
        2 * (Binary32 { bits: HALF_BITS }).magnitude() == pow2(149),
        pow2(149) == 0x80_0000 * pow2(126),
        pow2(126) == 2 * pow2(125),
        pow2(125) == 2 * pow2(124),
        pow2(124) > 0,
{
    lemma2_to64();
    lemma_pow2_adds(23, 126);
    lemma_pow2_unfold(126);
    lemma_pow2_unfold(125);
    lemma_pow2_pos(124);
    let a = Binary32 { bits: 0x3F80_0001 };
    let b = Binary32 { bits: 0x3F7F_FFFF };
    let c = Binary32 { bits: 0x3F00_0001 };
    let d = Binary32 { bits: 0x3EFF_FFFF };
    let h = Binary32 { bits: HALF_BITS };
    assert(a.significand() == 0x80_0001 && a.step() == 126);
    assert(b.significand() == 0xFF_FFFF && b.step() == 125);
    assert(c.significand() == 0x80_0001 && c.step() == 125);
    assert(d.significand() == 0xFF_FFFF && d.step() == 124);
    assert(h.significand() == 0x80_0000 && h.step() == 125);
}

/// Rounding keeps the side of a number of the grid.
proof fn lemma_rounded_side(sign: bool, num: nat, den: nat, mark: Binary32)
    requires
        den > 0,
        mark.is_finite(),
    ensures
        num <= mark.magnitude() * den ==> Binary32::rounded(sign, num, den).magnitude()
            <= mark.magnitude(),
        num >= mark.magnitude() * den ==> Binary32::rounded(sign, num, den).magnitude()
            >= mark.magnitude(),
{
    let x = Binary32::rounded(sign, num, den);
    binary32::lemma_with_sign(sign, rounding::round_magnitude(num, den));
    precision::lemma_exact(mark, 1);
    binary32::lemma_magnitude_order(x, mark);
    binary32::lemma_magnitude_order(mark, x);
    let m = mark.magnitude() * 1;
    if num <= mark.magnitude() * den {
        precision::law_rounding_keeps_order(num, den, m, 1);
    }
    if num >= mark.magnitude() * den {
        precision::law_rounding_keeps_order(m, 1, num, den);
    }
}

/// A position from -1 to 1 on the pipe's axis.
proof fn lemma_pipe_axis(v: Binary32)
    requires
        mapping::in_stick_range(v),
    ensures
        halfway(mapping::pipe_axis_spec(v), v.units()),
{
    let o = pow2(149) as int;
    let one = Binary32 { bits: ONE_BITS };
    let half = Binary32 { bits: HALF_BITS };
    let above = Binary32 { bits: 0x3F80_0001 };
    let below = Binary32 { bits: 0x3F7F_FFFF };
    let up = Binary32 { bits: 0x3F00_0001 };
    let down = Binary32 { bits: 0x3EFF_FFFF };
    mapping::lemma_marks();
    precision::lemma_one();
    lemma_neighbours();
    binary32::lemma_parts(v);
    binary32::lemma_magnitude_order(one, v);
    assert(v.is_finite());
    let sum = v.units() + o;
    accuracy::lemma_sum_error(v, one, 2);
    precision::lemma_sum(v, one);
    reveal(Binary32::plus_spec);
    let r = v.plus(one);
    let rm = r.magnitude();
    assert(!r.sign()) by {
        if sum == 0 {
            binary32::lemma_with_sign(false, 0);
        }
    }
    precision::lemma_zero(r);
    assert(r.units() * 1 == rm);
    if sum > 0 {
        assert(r == Binary32::rounded(false, sum as nat, 1));
        assert(one.magnitude() * 1 == o && above.magnitude() * 1 == above.magnitude()
            && below.magnitude() * 1 == below.magnitude());
        lemma_rounded_side(false, sum as nat, 1, one);
        lemma_rounded_side(false, sum as nat, 1, above);
        lemma_rounded_side(false, sum as nat, 1, below);
        assert((2 * o) * 1 == 2 * o);
        precision::lemma_rounded_at_most(false, sum as nat, 1, 2);
    }
    reveal(Binary32::times_spec);
    let m = r.times(half);
    let hm = half.magnitude() as int;
    let n = rm * half.magnitude();
    assert(n <= (1 * pow2(149)) * pow2(149)) by (nonlinear_arith)
        requires
            n == rm * hm,
            0 <= rm <= 2 * o,
            2 * hm == o,
            o == pow2(149),
    ;
    assert(m == Binary32::rounded(false, n, pow2(149)));
    precision::lemma_rounded_at_most(false, n, pow2(149), 1);
    accuracy::lemma_rounding_error(false, n, pow2(149));
    let mm = m.magnitude() as int;
    assert(-(rm + 0x100_0000) <= 0x100_0000 * (2 * mm - rm) <= rm + 0x100_0000) by (nonlinear_arith)
        requires
            -(n + 0x80_0000 * o) <= 0x100_0000 * (mm * o - n) <= n + 0x80_0000 * o,
            n == rm * hm,
            2 * hm == o,
            o > 0,
    ;
    lemma2_to64();
    rounding::lemma_pow2_monotone(26, 149);
    mapping::law_clamps(m);
    assert(mapping::pipe_axis_spec(v) == m);
    lemma_half_side(rm as int, n as int, hm, o);
    lemma_rounded_side(false, n, pow2(149), half);
    if 0x80_0000 * v.units() >= o {
        assert(sum >= above.magnitude());
        assert(n >= up.magnitude() * pow2(149)) by (nonlinear_arith)
            requires
                n == rm * hm,
                2 * hm == o,
                rm >= above.magnitude(),
                2 * up.magnitude() == above.magnitude(),
                o == pow2(149),
                o > 0,
        ;
        lemma_rounded_side(false, n, pow2(149), up);
    }
    if 0x80_0000 * v.units() <= -o {
        assert(sum <= below.magnitude());
        assert(n <= down.magnitude() * pow2(149)) by (nonlinear_arith)
            requires
                n == rm * hm,
                2 * hm == o,
                0 <= rm <= below.magnitude(),
                2 * down.magnitude() == below.magnitude(),
                o == pow2(149),
                o > 0,
        ;
        lemma_rounded_side(false, n, pow2(149), down);
    }
}

/// Half of a number is on the side of one half on which the number is of one.
proof fn lemma_half_side(rm: int, n: int, hm: int, o: int)
    requires
        n == rm * hm,
        2 * hm == o,
        rm >= 0,
        o > 0,
    ensures
        rm >= o ==> n >= hm * o,
        rm <= o ==> n <= hm * o,
{
    assert(rm >= o ==> n >= hm * o) by (nonlinear_arith)
        requires
            n == rm * hm,
            2 * hm == o,
            o > 0,
    ;
    assert(rm <= o ==> n <= hm * o) by (nonlinear_arith)
        requires
            n == rm * hm,
            2 * hm == o,
            o > 0,
    ;
}

/// The sticks of the pad: from each axis its learned centre is taken off, the dead zone is
/// taken out of the position, and what is left of it, from -1 to 1, is put on the range from
/// 0 to 1. The vertical axes are turned round, so that up, which is negative on the
/// controller, is the larger end.
pub proof fn law_pad_sticks(p: ParsedInput, cal: StickCalibration)
    ensures
        ({
            let dz = Binary32 { bits: 0x3DF5_C28F };
            let (lx, ly) = mapping::apply_radial_deadzone(
                mapping::clamp11(mapping::norm_i16_to_f1(p.lx).minus(cal.lx0)),
                mapping::clamp11(mapping::norm_i16_to_f1(p.ly).minus(cal.ly0)),
                dz,
            );
            let (rx, ry) = mapping::apply_radial_deadzone(
                mapping::clamp11(mapping::norm_i16_to_f1(p.rx).minus(cal.rx0)),
                mapping::clamp11(mapping::norm_i16_to_f1(p.ry).minus(cal.ry0)),
                dz,
            );
            let s = mapping::dolphin_state(p, cal);
            &&& halfway(s.main_x, lx.units())
            &&& halfway(s.main_y, -ly.units())
            &&& halfway(s.c_x, rx.units())
            &&& halfway(s.c_y, -ry.units())
        }),
{
    lemma_stick(
        mapping::clamp11(mapping::norm_i16_to_f1(p.lx).minus(cal.lx0)),
        mapping::clamp11(mapping::norm_i16_to_f1(p.ly).minus(cal.ly0)),
    );
    lemma_stick(
        mapping::clamp11(mapping::norm_i16_to_f1(p.rx).minus(cal.rx0)),
        mapping::clamp11(mapping::norm_i16_to_f1(p.ry).minus(cal.ry0)),
    );
}

/// What becomes of a stick's position.
proof fn lemma_stick(x: Binary32, y: Binary32)
    ensures
        ({
            let dz = Binary32 { bits: STICK_DEADZONE_BITS };
            let (px, py) = mapping::apply_radial_deadzone(x, y, dz);
            let h = mapping::pipe_axis_spec(px);
            let v = mapping::pipe_axis_spec(py.negated());
            &&& halfway(h, px.units())
            &&& halfway(v, -py.units())
            &&& x.units() >= 0 ==> 2 * h.units() >= pow2(149)
            &&& x.units() <= 0 ==> 2 * h.units() <= pow2(149)
            &&& y.units() <= 0 ==> 2 * v.units() >= pow2(149)
            &&& y.units() >= 0 ==> 2 * v.units() <= pow2(149)
        }),
{
    let dz = Binary32 { bits: STICK_DEADZONE_BITS };
    let one = Binary32 { bits: ONE_BITS };
    let (px, py) = mapping::apply_radial_deadzone(x, y, dz);
    mapping::lemma_marks();
    mapping::law_deadzone_range(x, y, dz);
    lemma_negated_range(py);
    lemma_pipe_axis(px);
    lemma_pipe_axis(py.negated());
    assert(dz.key() < one.key());
    binary32::lemma_magnitude_order(dz, one);
    mapping::law_deadzone_keeps_side(x, y, dz);
}

proof fn lemma_negated_range(v: Binary32)
    requires
        mapping::in_stick_range(v),
    ensures
        mapping::in_stick_range(v.negated()),
        v.negated().units() == -v.units(),
{
    mapping::lemma_marks();
    precision::law_signs(v);
    binary32::lemma_parts(v);
}

/// Pushing a stick up never gives less than the middle of the pipe's vertical axis and down
/// never more, and right never less than the middle of the horizontal one and left never
/// more, however its centre was learned and whatever the other axis does.
pub proof fn law_pad_directions(p: ParsedInput, cal: StickCalibration)
    ensures
        ({
            let s = mapping::dolphin_state(p, cal);
            let one = pow2(149) as int;
            let lx = mapping::clamp11(mapping::norm_i16_to_f1(p.lx).minus(cal.lx0)).units();
            let ly = mapping::clamp11(mapping::norm_i16_to_f1(p.ly).minus(cal.ly0)).units();
            let rx = mapping::clamp11(mapping::norm_i16_to_f1(p.rx).minus(cal.rx0)).units();
            let ry = mapping::clamp11(mapping::norm_i16_to_f1(p.ry).minus(cal.ry0)).units();
            &&& lx >= 0 ==> 2 * s.main_x.units() >= one
            &&& lx <= 0 ==> 2 * s.main_x.units() <= one
            &&& ly <= 0 ==> 2 * s.main_y.units() >= one
            &&& ly >= 0 ==> 2 * s.main_y.units() <= one
            &&& rx >= 0 ==> 2 * s.c_x.units() >= one
            &&& rx <= 0 ==> 2 * s.c_x.units() <= one
            &&& ry <= 0 ==> 2 * s.c_y.units() >= one
            &&& ry >= 0 ==> 2 * s.c_y.units() <= one
        }),
{
    lemma_stick(
        mapping::clamp11(mapping::norm_i16_to_f1(p.lx).minus(cal.lx0)),
        mapping::clamp11(mapping::norm_i16_to_f1(p.ly).minus(cal.ly0)),
    );
    lemma_stick(
        mapping::clamp11(mapping::norm_i16_to_f1(p.rx).minus(cal.rx0)),
        mapping::clamp11(mapping::norm_i16_to_f1(p.ry).minus(cal.ry0)),
    );
}

/// Clamping gives the end of the range on the side of a number outside it, the number itself
/// inside, and 0 where there is no number.
pub proof fn law_clamp_ends(v: Binary32)
    ensures
        v.is_nan() ==> mapping::clamp01(v).bits == 0 && mapping::clamp11(v).bits == 0,
        !v.is_nan() && v.units() > pow2(149) ==> mapping::clamp01(v).bits == 0x3F80_0000
            && mapping::clamp11(v).bits == 0x3F80_0000,
        !v.is_nan() && v.units() < 0 ==> mapping::clamp01(v).bits == 0,
        !v.is_nan() && v.units() < -pow2(149) ==> mapping::clamp11(v).bits == 0xBF80_0000,
        !v.is_nan() && 0 <= v.units() <= pow2(149) ==> mapping::clamp01(v) == v,
        !v.is_nan() && -pow2(149) <= v.units() <= pow2(149) ==> mapping::clamp11(v) == v,
{
    mapping::lemma_marks();
}

/// A position in the dead zone is the centre, with both coordinates zero.
pub proof fn law_deadzone_inside(x: Binary32, y: Binary32, dz: Binary32)
    requires
        mapping::radius(x, y).at_most(dz),
    ensures
        mapping::apply_radial_deadzone(x, y, dz).0.bits == 0,
        mapping::apply_radial_deadzone(x, y, dz).1.bits == 0,
{
}

/// A fraction with a common factor.
proof fn lemma_common_factor(x: Binary32, z: Binary32, num: int, den: int, k: int)
    requires
        precision::no_nearer(x, z, num * k, den * k),
        k > 0,
    ensures
        precision::no_nearer(x, z, num, den),
{
    let (u, w) = (x.units(), z.units());
    let a = u * den - num;
    let b = w * den - num;
    assert(u * (den * k) - num * k == a * k) by (nonlinear_arith)
        requires
            a == u * den - num,
    ;
    assert(w * (den * k) - num * k == b * k) by (nonlinear_arith)
        requires
            b == w * den - num,
    ;
    let e = precision::error_of(x, num, den);
    let f = precision::error_of(z, num, den);
    assert((a < 0) == (a * k < 0) && (b < 0) == (b * k < 0)) by (nonlinear_arith)
        requires
            k > 0,
    ;
    assert((-a) * k == -(a * k) && (-b) * k == -(b * k)) by (nonlinear_arith);
    assert(precision::error_of(x, num * k, den * k) == e * k);
    assert(precision::error_of(z, num * k, den * k) == f * k);
    assert((e * k <= f * k) == (e <= f) && (e * k == f * k) == (e == f)) by (nonlinear_arith)
        requires
            k > 0,
    ;
}

/// An axis is the number nearest to its 32767th part, whatever finite number `z` it is held
/// against.
pub proof fn law_axis_is_nearest(v: i16, z: Binary32)
    requires
        v != i16::MIN,
        z.is_finite(),
    ensures
        mapping::norm_i16_to_f1(v).is_finite(),
        precision::no_nearer(mapping::norm_i16_to_f1(v), z, v * pow2(149), 32767),
{
    let o = pow2(149) as int;
    let x = Binary32::of_int(v as int);
    let y = Binary32::of_int(32767);
    lemma_pow2_pos(149);
    mapping::law_axis_range_and_symmetry(v);
    mapping::lemma_marks();
    let r = mapping::norm_i16_to_f1(v);
    binary32::lemma_parts(r);
    binary32::lemma_magnitude_order(Binary32 { bits: ONE_BITS }, r);
    precision::lemma_of_int(v as int);
    precision::lemma_of_int(32767);
    precision::lemma_of_count(32767, 32767);
    precision::law_quotient_is_nearest(x, y, z);
    lemma_common_factor(r, z, v * o, 32767, o);
}

/// A trigger is the number nearest to its 1023rd part, or 1 from 1023 on.
pub proof fn law_trigger_is_nearest(v: u16, z: Binary32)
    requires
        z.is_finite(),
    ensures
        mapping::norm_trig10_to_01(v).is_finite(),
        v <= 1023 ==> precision::no_nearer(
            mapping::norm_trig10_to_01(v),
            z,
            v * pow2(149),
            1023,
        ),
        v >= 1023 ==> mapping::norm_trig10_to_01(v).bits == 0x3F80_0000,
{
    let o = pow2(149) as int;
    let c: u32 = if v < 1023 {
        v as u32
    } else {
        1023
    };
    let x = Binary32::of_int(c as int);
    let y = Binary32::of_int(1023);
    lemma_pow2_pos(149);
    mapping::lemma_marks();
    mapping::law_trigger_ends_and_order(v, v);
    precision::lemma_share_within(c, 1023);
    precision::lemma_of_int(c as int);
    precision::lemma_of_int(1023);
    precision::lemma_of_count(1023, 1023);
    let q = x.over(y);
    assert(0 * o == 0 && 1 * o == o);
    mapping::law_clamps(q);
    assert(mapping::in_unit_range(q));
    precision::law_quotient_is_nearest(x, y, z);
    lemma_common_factor(q, z, c * o, 1023, o);
}

/// Whether `next` is the mean of `count` values, of which `mean` is the mean of all but the
/// last and `v` the last: up to a `2^18`th part of the full way.
pub open spec fn is_mean(next: Binary32, mean: Binary32, v: Binary32, count: int) -> bool {
    let exact = (count - 1) * mean.units() + v.units();
    &&& next.is_finite()
    &&& -(count * pow2(149)) <= 0x4_0000 * (count * next.units() - exact) <= count * pow2(149)
}

/// The quotient of the learned mean, with its error.
proof fn lemma_part_error(d: Binary32, count: u32)
    requires
        d.is_finite(),
        d.magnitude() <= 3 * pow2(149),
        count > 0,
    ensures
        ({
            let q = d.over(Binary32::of_int(count as int));
            let o = pow2(149);
            &&& q.is_finite()
            &&& q.magnitude() <= 3 * o
            &&& q.sign() == d.sign()
            &&& -(28 * (count * o)) <= 0x100_0000 * (q.magnitude() * count - d.magnitude()) <= 28 * (
            count * o)
        }),
{
    reveal(Binary32::over_spec);
    lemma2_to64();
    let o = pow2(149);
    let n = Binary32::of_int(count as int);
    let c = count as nat;
    let nm = n.magnitude();
    let dm = d.magnitude();
    precision::lemma_of_count(1, count);
    precision::lemma_of_int(1);
    assert(1 * o == o);
    rounding::lemma_pow2_monotone(30, 149);
    accuracy::lemma_rounding_error(false, c * o, 1);
    assert(nm * 1 == nm);
    let q = d.over(n);
    let num = dm * o;
    assert(num <= (3 * o) * nm) by (nonlinear_arith)
        requires
            num == dm * o,
            dm <= 3 * o,
            o <= nm,
    ;
    assert(q == Binary32::rounded(d.sign(), num, nm));
    precision::lemma_rounded_at_most(d.sign(), num, nm, 3);
    accuracy::lemma_rounding_error(d.sign(), num, nm);
    let qm = q.magnitude();
    accuracy::lemma_near_bounds(nm, c * o, 2);
    lemma_part_numbers(qm as int, nm as int, dm as int, o as int, c as int);
}

proof fn lemma_part_numbers(q: int, n: int, d: int, o: int, c: int)
    requires
        0 <= q,
        0 <= d <= 3 * o,
        c >= 1,
        o >= 0x4000_0000,
        -(d * o + 0x80_0000 * n) <= 0x100_0000 * (q * n - d * o) <= d * o + 0x80_0000 * n,
        0x100_0000 * n <= (0x100_0000 + 2nat) * (c * o),
        0x100_0000 * (c * o) <= (0x100_0000 + 2nat) * n,
        n <= 2 * (c * o),
        c * o <= 2 * n,
    ensures
        -(28 * (c * o)) <= 0x100_0000 * (q * c - d) <= 28 * (c * o),
{
    let co = c * o;
    let (qn, dd) = (q * n, d * o);
    let g = n - co;
    assert((0x100_0000 + 2nat) * co == 0x100_0002 * co) by (nonlinear_arith);
    assert((0x100_0000 + 2nat) * n == 0x100_0002 * n) by (nonlinear_arith);
    assert(-(2 * n) <= 0x100_0000 * g <= 4 * n);
    let qg = q * g;
    assert(-(4 * qn) <= 0x100_0000 * qg <= 4 * qn) by (nonlinear_arith)
        requires
            -(2 * n) <= 0x100_0000 * g <= 4 * n,
            qg == q * g,
            qn == q * n,
            q >= 0,
            n >= 0,
    ;
    let qco = q * co;
    assert(qco == qn - qg) by (nonlinear_arith)
        requires
            qco == q * co,
            qn == q * n,
            qg == q * g,
            g == n - co,
    ;
    assert(-(9 * dd + 0x200_0000 * co) <= 0x100_0000 * (qco - dd) <= 9 * dd + 0x200_0000 * co);
    let e = q * c - d;
    assert(qco - dd == e * o) by (nonlinear_arith)
        requires
            qco == q * co,
            co == c * o,
            dd == d * o,
            e == q * c - d,
    ;
    assert(dd <= 3 * o * o) by (nonlinear_arith)
        requires
            dd == d * o,
            0 <= d <= 3 * o,
    ;
    assert(-(9 * d + 0x200_0000 * c) <= 0x100_0000 * e <= 9 * d + 0x200_0000 * c)
        by (nonlinear_arith)
        requires
            -(9 * dd + 0x200_0000 * co) <= 0x100_0000 * (e * o) <= 9 * dd + 0x200_0000 * co,
            dd == d * o,
            co == c * o,
            o > 0,
    ;
    assert(9 * d + 0x200_0000 * c <= 28 * co) by (nonlinear_arith)
        requires
            d <= 3 * o,
            co == c * o,
            c >= 1,
            o >= 0x4000_0000,
    ;
}

/// Taking a position into a mean gives the mean with it, as a number.
pub proof fn law_mean(mean: Binary32, v: Binary32, count: u32)
    requires
        mapping::in_stick_range(mean),
        mapping::in_stick_range(v),
        count > 0,
    ensures
        is_mean(
            mapping::mean_with(mean, v, Binary32::of_int(count as int)),
            mean,
            v,
            count as int,
        ),
{
    let o = pow2(149) as int;
    let n = Binary32::of_int(count as int);
    mapping::lemma_marks();
    lemma_stick_number(mean);
    lemma_stick_number(v);
    lemma2_to64();
    rounding::lemma_pow2_monotone(30, 149);
    let d = v.minus(mean);
    lemma_small_difference(v, mean);
    lemma_part_error(d, count);
    let q = d.over(n);
    let c = count as int;
    assert(q.units() * c == (if q.sign() {
        -(q.magnitude() * c)
    } else {
        q.magnitude() * c
    })) by (nonlinear_arith)
        requires
            q.units() == (if q.sign() {
                -(q.magnitude() as int)
            } else {
                q.magnitude() as int
            }),
    ;
    accuracy::lemma_sum_error(mean, q, 5);
    let r = mean.plus(q);
    assert(r.units() * 1 == r.units());
    let co = c * o;
    let e = r.units() - mean.units() - q.units();
    assert(-(6 * co) <= 0x100_0000 * (e * c) <= 6 * co) by (nonlinear_arith)
        requires
            -(6 * o) <= 0x100_0000 * e <= 6 * o,
            co == c * o,
            c >= 1,
    ;
    assert(c * r.units() == e * c + c * mean.units() + q.units() * c) by (nonlinear_arith)
        requires
            e == r.units() - mean.units() - q.units(),
    ;
    assert((c - 1) * mean.units() == c * mean.units() - mean.units()) by (nonlinear_arith);
    assert(o <= co) by (nonlinear_arith)
        requires
            co == c * o,
            c >= 1,
            o > 0,
    ;
}

/// Numbers from -1 to 1 are finite.
proof fn lemma_stick_number(v: Binary32)
    requires
        mapping::in_stick_range(v),
    ensures
        v.is_finite(),
        -pow2(149) <= v.units() <= pow2(149),
        v.magnitude() <= pow2(149),
{
    mapping::lemma_marks();
    precision::lemma_one();
    binary32::lemma_parts(v);
    binary32::lemma_magnitude_order(Binary32 { bits: ONE_BITS }, v);
}

/// Whether the centres are from -1 to 1, and zero as long as nothing was learned.
pub open spec fn centres_in_range(cal: StickCalibration) -> bool {
    &&& mapping::in_stick_range(cal.lx0)
    &&& mapping::in_stick_range(cal.ly0)
    &&& mapping::in_stick_range(cal.rx0)
    &&& mapping::in_stick_range(cal.ry0)
    &&& cal.n == 0 ==> cal.lx0.bits == 0 && cal.ly0.bits == 0 && cal.rx0.bits == 0 && cal.ry0.bits
        == 0
}

/// A mean of numbers from -1 to 1 is from -1 to 1.
proof fn lemma_mean_range(mean: Binary32, v: Binary32, count: u32)
    requires
        mapping::in_stick_range(mean),
        mapping::in_stick_range(v),
        count >= 2,
    ensures
        mapping::in_stick_range(mapping::mean_with(mean, v, Binary32::of_int(count as int))),
{
    let o = pow2(149) as int;
    let one = Binary32 { bits: ONE_BITS };
    let low = Binary32 { bits: mapping::MINUS_ONE_BITS };
    let zero = Binary32 { bits: 0 };
    let n = Binary32::of_int(count as int);
    mapping::lemma_marks();
    precision::lemma_one();
    lemma_stick_number(mean);
    lemma_stick_number(v);
    let d = v.minus(mean);
    lemma_small_difference(v, mean);
    lemma_part_error(d, count);
    let q = d.over(n);
    lemma_half_at_most(d, count);
    lemma_edge_distance(mean);
    lemma2_to64();
    rounding::lemma_pow2_monotone(30, 149);
    precision::lemma_zero(d);
    assert(-o <= mean.units() + q.units() <= o);
    let r = mean.plus(q);
    precision::lemma_zero(zero);
    precision::lemma_plus_order(mean, q, one, zero);
    precision::lemma_plus_order(low, zero, mean, q);
    assert(one.key() > 0 && low.key() > 0);
    precision::lemma_plus_zero(one, zero);
    assert(low.is_finite());
    precision::lemma_plus_zero(low, zero);
}

/// A number from -1 to 1 is an end of the range or at least a `2^24`th part away from it.
proof fn lemma_edge_distance(v: Binary32)
    requires
        mapping::in_stick_range(v),
    ensures
        v.magnitude() == pow2(149) || 0x100_0000 * (pow2(149) - v.magnitude()) >= pow2(149),
{
    let one = Binary32 { bits: ONE_BITS };
    let below = Binary32 { bits: 0x3F7F_FFFF };
    precision::lemma_one();
    lemma_neighbours();
    lemma_stick_number(v);
    binary32::lemma_parts(v);
    binary32::lemma_magnitude_order(v, below);
    binary32::lemma_magnitude_order(v, one);
    binary32::lemma_magnitude_order(one, v);
    assert(one.key() == ONE_BITS && below.key() == 0x3F7F_FFFF);
}

/// A quotient by at least 2 is at most half, up to rounding.
proof fn lemma_half_at_most(d: Binary32, count: u32)
    requires
        d.is_finite(),
        d.magnitude() <= 3 * pow2(149),
        count >= 2,
    ensures
        0x200_0000 * d.over(Binary32::of_int(count as int)).magnitude() <= 0x100_0001
            * d.magnitude() + 0x100_0000,
{
    reveal(Binary32::over_spec);
    let o = pow2(149);
    let n = Binary32::of_int(count as int);
    lemma_part_error(d, count);
    precision::lemma_of_count(2, count);
    precision::lemma_of_int(2);
    lemma_pow2_pos(149);
    let (dm, nm) = (d.magnitude(), n.magnitude());
    let num = dm * o;
    let q = d.over(n);
    assert(q == Binary32::rounded(d.sign(), num, nm));
    accuracy::lemma_rounding_error(d.sign(), num, nm);
    let qm = q.magnitude();
    assert(0x200_0000 * qm <= 0x100_0001 * dm + 0x100_0000) by (nonlinear_arith)
        requires
            0x100_0000 * (qm * nm - num) <= num + 0x80_0000 * nm,
            num == dm * o,
            2 * o <= nm,
            o > 0,
            dm >= 0,
    ;
}

/// The difference of two numbers from -1 to 1, with its error as a part of it.
proof fn lemma_small_difference(v: Binary32, mean: Binary32)
    requires
        mapping::in_stick_range(v),
        mapping::in_stick_range(mean),
    ensures
        ({
            let w = v.units() - mean.units();
            let d = v.minus(mean);
            &&& d.is_finite()
            &&& d.magnitude() <= 3 * pow2(149)
            &&& w > 0 ==> !d.sign() && 0x100_0000 * d.magnitude() <= 0x100_0002 * w
            &&& w < 0 ==> d.sign() && 0x100_0000 * d.magnitude() <= 0x100_0002 * -w
            &&& w == 0 ==> d.magnitude() == 0
            &&& -(3 * pow2(149)) <= 0x100_0000 * (d.units() - w) <= 3 * pow2(149)
        }),
{
    reveal(Binary32::plus_spec);
    let o = pow2(149);
    let m = mean.negated();
    mapping::lemma_marks();
    lemma_stick_number(mean);
    lemma_stick_number(v);
    precision::law_signs(mean);
    binary32::lemma_parts(m);
    binary32::lemma_parts(mean);
    accuracy::lemma_sum_error(v, m, 2);
    precision::lemma_sum(v, m);
    let d = v.minus(mean);
    let w = v.units() - mean.units();
    assert(d == v.plus(m));
    assert(d.units() * 1 == d.units());
    precision::lemma_zero(d);
    let a: nat = (if w < 0 {
        -w
    } else {
        w
    }) as nat;
    if w != 0 {
        assert(d == Binary32::rounded(w < 0, a, 1));
        accuracy::lemma_rounding_error(w < 0, a, 1);
        assert(d.magnitude() * 1 == d.magnitude());
        assert((0x100_0000 + 2nat) * a == 0x100_0002 * a) by (nonlinear_arith);
    }
}

/// A position is learned from if and only if both sticks are at most a quarter of the full
/// way from zero. Then the number of positions grows by one, up to its limit, and each centre
/// becomes the mean with that position taken in. Else nothing changes.
pub proof fn law_learning(cal: StickCalibration, p: ParsedInput)
    requires
        centres_in_range(cal),
    ensures
        ({
            let (lx, ly) = (mapping::norm_i16_to_f1(p.lx), mapping::norm_i16_to_f1(p.ly));
            let (rx, ry) = (mapping::norm_i16_to_f1(p.rx), mapping::norm_i16_to_f1(p.ry));
            let near = 4 * mapping::radius(lx, ly).units() <= pow2(149) && 4 * mapping::radius(
                rx,
                ry,
            ).units() <= pow2(149);
            let next = cal.learned(p);
            &&& near ==> next.n == (if cal.n < u32::MAX {
                cal.n + 1
            } else {
                u32::MAX as int
            })
            &&& near ==> is_mean(next.lx0, cal.lx0, lx, next.n as int) && is_mean(
                next.ly0,
                cal.ly0,
                ly,
                next.n as int,
            ) && is_mean(next.rx0, cal.rx0, rx, next.n as int) && is_mean(
                next.ry0,
                cal.ry0,
                ry,
                next.n as int,
            )
            &&& near && cal.n == 0 ==> next.lx0 == lx && next.ly0 == ly && next.rx0 == rx
                && next.ry0 == ry
            &&& !near ==> next == cal
            &&& centres_in_range(next)
        }),
{
    let (lx, ly) = (mapping::norm_i16_to_f1(p.lx), mapping::norm_i16_to_f1(p.ly));
    let (rx, ry) = (mapping::norm_i16_to_f1(p.rx), mapping::norm_i16_to_f1(p.ry));
    let quarter = Binary32 { bits: mapping::CALIBRATION_MAX_RADIUS_BITS };
    mapping::law_stick_constants();
    mapping::law_axis_range_and_symmetry(p.lx);
    mapping::law_axis_range_and_symmetry(p.ly);
    mapping::law_axis_range_and_symmetry(p.rx);
    mapping::law_axis_range_and_symmetry(p.ry);
    accuracy::law_radius_is_close(lx, ly);
    accuracy::law_radius_is_close(rx, ry);
    assert(!quarter.is_nan());
    let near = 4 * mapping::radius(lx, ly).units() <= pow2(149) && 4 * mapping::radius(
        rx,
        ry,
    ).units() <= pow2(149);
    assert(near == StickCalibration::near_center(p));
    if near {
        let next = cal.learned(p);
        let n = next.n;
        law_mean(cal.lx0, lx, n);
        law_mean(cal.ly0, ly, n);
        law_mean(cal.rx0, rx, n);
        law_mean(cal.ry0, ry, n);
        if cal.n == 0 {
            mapping::lemma_near_is_not_lowest(p);
            mapping::lemma_mean(p.lx, 1);
            mapping::lemma_mean(p.ly, 1);
            mapping::lemma_mean(p.rx, 1);
            mapping::lemma_mean(p.ry, 1);
        } else {
            lemma_mean_range(cal.lx0, lx, n);
            lemma_mean_range(cal.ly0, ly, n);
            lemma_mean_range(cal.rx0, rx, n);
            lemma_mean_range(cal.ry0, ry, n);
        }
    }
}

/// The distance from zero, step by step: squares, their sum, its root.
pub proof fn law_radius_steps(x: Binary32, y: Binary32)
    ensures
        mapping::radius(x, y) == x.times(x).plus(y.times(y)).square_root(),
{
}

/// A position outside the dead zone, step by step: what the zone leaves of the distance, as a
/// part of what it leaves of the full way, over the distance, times each coordinate.
pub proof fn law_deadzone_steps(x: Binary32, y: Binary32, dz: Binary32)
    requires
        !mapping::radius(x, y).at_most(dz),
    ensures
        ({
            let r = mapping::radius(x, y);
            let one = Binary32 { bits: 0x3F80_0000 };
            let zero = Binary32 { bits: 0 };
            let s = r.minus(dz).over(one.minus(dz)).over(r);
            let (px, py) = mapping::apply_radial_deadzone(x, y, dz);
            &&& zero.less(r) ==> px == mapping::clamp11(x.times(s)) && py == mapping::clamp11(
                y.times(s),
            )
            &&& !zero.less(r) ==> px == mapping::clamp11(x.times(zero)) && py == mapping::clamp11(
                y.times(zero),
            )
        }),
{
}

/// A learned mean, step by step: the difference of the position from the mean, over the
/// number of positions, is put on the mean.
pub proof fn law_mean_steps(mean: Binary32, v: Binary32, n: Binary32)
    ensures
        mapping::mean_with(mean, v, n) == mean.plus(v.minus(mean).over(n)),
{
}

/// What is learned from a position, step by step, whatever the centres are: with both sticks
/// at most a quarter of the full way from zero, each centre is taken on with its own axis and
/// the new number of positions; else nothing changes.
pub proof fn law_learning_steps(cal: StickCalibration, p: ParsedInput)
    ensures
        ({
            let (lx, ly) = (mapping::norm_i16_to_f1(p.lx), mapping::norm_i16_to_f1(p.ly));
            let (rx, ry) = (mapping::norm_i16_to_f1(p.rx), mapping::norm_i16_to_f1(p.ry));
            let quarter = Binary32 { bits: 0x3E80_0000 };
            let near = mapping::radius(lx, ly).at_most(quarter) && mapping::radius(rx, ry).at_most(
                quarter,
            );
            let next = cal.learned(p);
            let n = Binary32::of_int(next.n as int);
            &&& near && cal.n < u32::MAX ==> next.n == cal.n + 1
            &&& near && cal.n == u32::MAX ==> next.n == u32::MAX
            &&& near ==> next.lx0 == mapping::mean_with(cal.lx0, lx, n) && next.ly0
                == mapping::mean_with(cal.ly0, ly, n) && next.rx0 == mapping::mean_with(
                cal.rx0,
                rx,
                n,
            ) && next.ry0 == mapping::mean_with(cal.ry0, ry, n)
            &&& !near ==> next == cal
        }),
{
}

/// A stick's value on the pipe's axis, step by step: one more, halved, from 0 to 1.
pub proof fn law_pipe_axis_steps(v: Binary32)
    ensures
        mapping::pipe_axis_spec(v) == mapping::clamp01(
            v.plus(Binary32 { bits: 0x3F80_0000 }).times(Binary32 { bits: 0x3F00_0000 }),
        ),
{
}

} // verus!
