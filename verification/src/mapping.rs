//! From the controls of the controller to the controls of a GameCube pad.
use crate::binary32;
use crate::binary32::{Binary32, ONE_BITS};
use crate::packet::ParsedInput;
use crate::precision;
use crate::root;
use crate::rounding;
use vstd::arithmetic::power2::*;
use vstd::prelude::*;

verus! {

/// The bit pattern of minus one.
pub const MINUS_ONE_BITS: u32 = 0xBF80_0000;

/// The bit pattern of one half.
pub const HALF_BITS: u32 = 0x3F00_0000;

/// The radius around the centre in which a stick counts as centred: the number
/// nearest to 0.12, where the stick's full way is 1.
pub const STICK_DEADZONE_BITS: u32 = 0x3DF5_C28F;

/// How long stick centres are learned, in nanoseconds.
pub const CALIBRATION_WINDOW_NS: u128 = 750_000_000;

/// The radius around zero in which a stick's position may be its centre: a quarter of
/// the full way.
pub const CALIBRATION_MAX_RADIUS_BITS: u32 = 0x3E80_0000;

/// The state of a GameCube pad. Sticks and triggers go from 0 to 1.
#[derive(Clone, Copy, Debug, PartialEq, Eq, Structural)]
pub struct DolphinState {
    pub a: bool,
    pub b: bool,
    pub x: bool,
    pub y: bool,
    pub z: bool,
    pub start: bool,
    pub d_up: bool,
    pub d_down: bool,
    pub d_left: bool,
    pub d_right: bool,
    pub main_x: Binary32,
    pub main_y: Binary32,
    pub c_x: Binary32,
    pub c_y: Binary32,
    pub l: Binary32,
    pub r: Binary32,
}

impl DolphinState {
    /// Nothing pressed, and every analog value 0.
    pub open spec fn initial() -> DolphinState {
        let zero = Binary32 { bits: 0 };
        DolphinState {
            a: false,
            b: false,
            x: false,
            y: false,
            z: false,
            start: false,
            d_up: false,
            d_down: false,
            d_left: false,
            d_right: false,
            main_x: zero,
            main_y: zero,
            c_x: zero,
            c_y: zero,
            l: zero,
            r: zero,
        }
    }
}

impl Default for DolphinState {
    fn default() -> (r: DolphinState)
        ensures
            r == DolphinState::initial(),
    {
        let zero = Binary32 { bits: 0 };
        DolphinState {
            a: false,
            b: false,
            x: false,
            y: false,
            z: false,
            start: false,
            d_up: false,
            d_down: false,
            d_left: false,
            d_right: false,
            main_x: zero,
            main_y: zero,
            c_x: zero,
            c_y: zero,
            l: zero,
            r: zero,
        }
    }
}

/// The value of the range from 0 to 1 that is nearest to `v`; 0 where `v` is no number.
pub open spec fn clamp01_spec(v: Binary32) -> Binary32 {
    let zero = Binary32 { bits: 0 };
    let one = Binary32 { bits: ONE_BITS };
    if v.is_nan() || v.less(zero) {
        zero
    } else if one.less(v) {
        one
    } else {
        v
    }
}

/// The value of the range from 0 to 1 that is nearest to `v`; 0 where `v` is no number.
#[verifier::when_used_as_spec(clamp01_spec)]
pub fn clamp01(v: Binary32) -> (r: Binary32)
    ensures
        r == clamp01_spec(v),
{
    let zero = Binary32 { bits: 0 };
    let one = Binary32 { bits: ONE_BITS };
    if v.is_nan() {
        zero
    } else if v.less(zero) {
        zero
    } else if one.less(v) {
        one
    } else {
        v
    }
}

/// The value of the range from -1 to 1 that is nearest to `v`; 0 where `v` is no number.
pub open spec fn clamp11_spec(v: Binary32) -> Binary32 {
    let one = Binary32 { bits: ONE_BITS };
    let minus_one = Binary32 { bits: MINUS_ONE_BITS };
    if v.is_nan() {
        Binary32 { bits: 0 }
    } else if v.less(minus_one) {
        minus_one
    } else if one.less(v) {
        one
    } else {
        v
    }
}

/// The value of the range from -1 to 1 that is nearest to `v`; 0 where `v` is no number.
#[verifier::when_used_as_spec(clamp11_spec)]
pub fn clamp11(v: Binary32) -> (r: Binary32)
    ensures
        r == clamp11_spec(v),
{
    let one = Binary32 { bits: ONE_BITS };
    let minus_one = Binary32 { bits: MINUS_ONE_BITS };
    if v.is_nan() {
        Binary32 { bits: 0 }
    } else if v.less(minus_one) {
        minus_one
    } else if one.less(v) {
        one
    } else {
        v
    }
}

/// An axis on the range from -1 to 1: its 32767th part, and -1 for the lowest value.
pub open spec fn norm_i16_spec(v: i16) -> Binary32 {
    if v == i16::MIN {
        Binary32 { bits: MINUS_ONE_BITS }
    } else {
        Binary32::of_int(v as int).over(Binary32::of_int(32767))
    }
}

/// An axis on the range from -1 to 1, the same on both sides of 0.
#[verifier::when_used_as_spec(norm_i16_spec)]
pub fn norm_i16_to_f1(v: i16) -> (r: Binary32)
    ensures
        r == norm_i16_spec(v),
{
    if v == i16::MIN {
        Binary32 { bits: MINUS_ONE_BITS }
    } else {
        Binary32::from_int(v as i64).over(Binary32::from_int(32767))
    }
}

/// A trigger on the range from 0 to 1: its 1023rd part, and 1 for everything above.
pub open spec fn norm_trig10_spec(v10: u16) -> Binary32 {
    let v: int = if v10 < 1023 {
        v10 as int
    } else {
        1023
    };
    clamp01_spec(Binary32::of_int(v).over(Binary32::of_int(1023)))
}

/// A trigger on the range from 0 to 1.
#[verifier::when_used_as_spec(norm_trig10_spec)]
pub fn norm_trig10_to_01(v10: u16) -> (r: Binary32)
    ensures
        r == norm_trig10_spec(v10),
{
    let v: i64 = if v10 < 1023 {
        v10 as i64
    } else {
        1023
    };
    clamp01(Binary32::from_int(v).over(Binary32::from_int(1023)))
}

/// The distance of a stick's position from zero, each step rounded.
pub open spec fn radius_spec(x: Binary32, y: Binary32) -> Binary32 {
    x.times(x).plus(y.times(y)).square_root()
}

/// The distance of a stick's position from zero.
#[verifier::when_used_as_spec(radius_spec)]
pub fn radius(x: Binary32, y: Binary32) -> (r: Binary32)
    ensures
        r == radius_spec(x, y),
{
    x.times(x).plus(y.times(y)).square_root()
}

/// How much of a position at the distance `r` from zero a dead zone leaves.
pub open spec fn deadzone_scale(r: Binary32, dz: Binary32) -> Binary32 {
    let zero = Binary32 { bits: 0 };
    if zero.less(r) {
        r.minus(dz).over((Binary32 { bits: ONE_BITS }).minus(dz)).over(r)
    } else {
        zero
    }
}

/// The centre for a position at most `dz` away from it, else the position drawn
/// towards the centre so that the edge of the dead zone becomes the centre and the
/// distance 1 stays.
pub open spec fn radial_deadzone_spec(x: Binary32, y: Binary32, dz: Binary32) -> (
    Binary32,
    Binary32,
) {
    let zero = Binary32 { bits: 0 };
    let r = radius_spec(x, y);
    if r.at_most(dz) {
        (zero, zero)
    } else {
        let s = deadzone_scale(r, dz);
        (clamp11_spec(x.times(s)), clamp11_spec(y.times(s)))
    }
}

/// Takes the dead zone of radius `dz` out of a stick's position.
#[verifier::when_used_as_spec(radial_deadzone_spec)]
pub fn apply_radial_deadzone(x: Binary32, y: Binary32, dz: Binary32) -> (r: (Binary32, Binary32))
    ensures
        r == radial_deadzone_spec(x, y, dz),
{
    let zero = Binary32 { bits: 0 };
    let one = Binary32 { bits: ONE_BITS };
    let r = radius(x, y);
    if r.at_most(dz) {
        return (zero, zero);
    }
    let k = r.minus(dz).over(one.minus(dz));
    let s = if zero.less(r) {
        k.over(r)
    } else {
        zero
    };
    (clamp11(x.times(s)), clamp11(y.times(s)))
}

/// The centres of the sticks, as the mean of the positions learned from.
#[derive(Clone, Copy, Debug, PartialEq, Eq, Structural)]
pub struct StickCalibration {
    pub lx0: Binary32,
    pub ly0: Binary32,
    pub rx0: Binary32,
    pub ry0: Binary32,
    /// The number of positions learned from.
    pub n: u32,
}

impl Default for StickCalibration {
    fn default() -> (r: StickCalibration)
        ensures
            r == StickCalibration::initial(),
    {
        let zero = Binary32 { bits: 0 };
        StickCalibration { lx0: zero, ly0: zero, rx0: zero, ry0: zero, n: 0 }
    }
}

/// The mean `mean` of `n - 1` values, with the `n`-th value `v` taken in.
pub open spec fn mean_with(mean: Binary32, v: Binary32, n: Binary32) -> Binary32 {
    mean.plus(v.minus(mean).over(n))
}

impl StickCalibration {
    /// Both centres at zero.
    pub open spec fn initial() -> StickCalibration {
        let zero = Binary32 { bits: 0 };
        StickCalibration { lx0: zero, ly0: zero, rx0: zero, ry0: zero, n: 0 }
    }

    /// Both sticks are near zero.
    pub open spec fn near_center(p: ParsedInput) -> bool {
        let limit = Binary32 { bits: CALIBRATION_MAX_RADIUS_BITS };
        radius_spec(norm_i16_spec(p.lx), norm_i16_spec(p.ly)).at_most(limit) && radius_spec(
            norm_i16_spec(p.rx),
            norm_i16_spec(p.ry),
        ).at_most(limit)
    }

    /// The centres with one position more, if it is near zero.
    pub open spec fn learned(self, p: ParsedInput) -> StickCalibration {
        if Self::near_center(p) {
            let count: u32 = if self.n < u32::MAX {
                (self.n + 1) as u32
            } else {
                u32::MAX
            };
            let n = Binary32::of_int(count as int);
            StickCalibration {
                lx0: mean_with(self.lx0, norm_i16_spec(p.lx), n),
                ly0: mean_with(self.ly0, norm_i16_spec(p.ly), n),
                rx0: mean_with(self.rx0, norm_i16_spec(p.rx), n),
                ry0: mean_with(self.ry0, norm_i16_spec(p.ry), n),
                n: count,
            }
        } else {
            self
        }
    }

    /// Takes the sticks' positions into their centres, if both are near zero.
    pub fn learn(&mut self, p: ParsedInput)
        ensures
            *final(self) == old(self).learned(p),
    {
        let lx = norm_i16_to_f1(p.lx);
        let ly = norm_i16_to_f1(p.ly);
        let rx = norm_i16_to_f1(p.rx);
        let ry = norm_i16_to_f1(p.ry);
        let limit = Binary32 { bits: CALIBRATION_MAX_RADIUS_BITS };
        if radius(lx, ly).at_most(limit) && radius(rx, ry).at_most(limit) {
            self.n = self.n.saturating_add(1);
            let n = Binary32::from_int(self.n as i64);
            self.lx0 = self.lx0.plus(lx.minus(self.lx0).over(n));
            self.ly0 = self.ly0.plus(ly.minus(self.ly0).over(n));
            self.rx0 = self.rx0.plus(rx.minus(self.rx0).over(n));
            self.ry0 = self.ry0.plus(ry.minus(self.ry0).over(n));
        }
    }
}

/// Whether a bit of the button word is set.
pub open spec fn pressed(buttons: u16, mask: u16) -> bool {
    buttons & mask != 0
}

/// A stick's position without its centre and its dead zone.
pub open spec fn centered(x: i16, y: i16, x0: Binary32, y0: Binary32) -> (Binary32, Binary32) {
    radial_deadzone_spec(
        clamp11_spec(norm_i16_spec(x).minus(x0)),
        clamp11_spec(norm_i16_spec(y).minus(y0)),
        Binary32 { bits: STICK_DEADZONE_BITS },
    )
}

/// A position from -1 to 1 on the pipe's range from 0 to 1.
pub open spec fn pipe_axis_spec(v: Binary32) -> Binary32 {
    clamp01_spec(v.plus(Binary32 { bits: ONE_BITS }).times(Binary32 { bits: HALF_BITS }))
}

#[verifier::when_used_as_spec(pipe_axis_spec)]
fn pipe_axis(v: Binary32) -> (r: Binary32)
    ensures
        r == pipe_axis_spec(v),
{
    clamp01(v.plus(Binary32 { bits: ONE_BITS }).times(Binary32 { bits: HALF_BITS }))
}

/// The pad's state for an input. The button word holds Menu in bit 2 and View in bit 3,
/// A, B, X and Y in bits 4 to 7 and the direction pad, up, down, left and right, in bits
/// 8 to 11. Menu is the pad's Start and View its Z. Up is the larger end of the pipe's
/// vertical axes and the smaller end of the controller's.
pub open spec fn dolphin_state(p: ParsedInput, cal: StickCalibration) -> DolphinState {
    let (lx, ly) = centered(p.lx, p.ly, cal.lx0, cal.ly0);
    let (rx, ry) = centered(p.rx, p.ry, cal.rx0, cal.ry0);
    DolphinState {
        a: pressed(p.buttons, 0x0010),
        b: pressed(p.buttons, 0x0020),
        x: pressed(p.buttons, 0x0040),
        y: pressed(p.buttons, 0x0080),
        z: pressed(p.buttons, 0x0008),
        start: pressed(p.buttons, 0x0004),
        d_up: pressed(p.buttons, 0x0100),
        d_down: pressed(p.buttons, 0x0200),
        d_left: pressed(p.buttons, 0x0400),
        d_right: pressed(p.buttons, 0x0800),
        main_x: pipe_axis_spec(lx),
        main_y: pipe_axis_spec(ly.negated()),
        c_x: pipe_axis_spec(rx),
        c_y: pipe_axis_spec(ry.negated()),
        l: norm_trig10_spec(p.lt10),
        r: norm_trig10_spec(p.rt10),
    }
}

/// The pad's state for an input. Bumpers and stick clicks have no place in the pipe
/// protocol, whose L and R are the analog triggers.
pub fn parsed_to_dolphin(p: ParsedInput, cal: StickCalibration) -> (r: DolphinState)
    ensures
        r == dolphin_state(p, cal),
{
    let b: u16 = p.buttons;
    let lx = clamp11(norm_i16_to_f1(p.lx).minus(cal.lx0));
    let ly = clamp11(norm_i16_to_f1(p.ly).minus(cal.ly0));
    let rx = clamp11(norm_i16_to_f1(p.rx).minus(cal.rx0));
    let ry = clamp11(norm_i16_to_f1(p.ry).minus(cal.ry0));
    let dz = Binary32 { bits: STICK_DEADZONE_BITS };
    let (lx, ly) = apply_radial_deadzone(lx, ly, dz);
    let (rx, ry) = apply_radial_deadzone(rx, ry, dz);
    DolphinState {
        a: (b & 0x0010) != 0,
        b: (b & 0x0020) != 0,
        x: (b & 0x0040) != 0,
        y: (b & 0x0080) != 0,
        z: (b & 0x0008) != 0,
        start: (b & 0x0004) != 0,
        d_up: (b & 0x0100) != 0,
        d_down: (b & 0x0200) != 0,
        d_left: (b & 0x0400) != 0,
        d_right: (b & 0x0800) != 0,
        main_x: pipe_axis(lx),
        main_y: pipe_axis(ly.negated()),
        c_x: pipe_axis(rx),
        c_y: pipe_axis(ry.negated()),
        l: norm_trig10_to_01(p.lt10),
        r: norm_trig10_to_01(p.rt10),
    }
}

/// A number from 0 to 1.
pub open spec fn in_unit_range(v: Binary32) -> bool {
    (Binary32 { bits: 0 }).at_most(v) && v.at_most(Binary32 { bits: ONE_BITS })
}

/// A number from -1 to 1.
pub open spec fn in_stick_range(v: Binary32) -> bool {
    (Binary32 { bits: MINUS_ONE_BITS }).at_most(v) && v.at_most(Binary32 { bits: ONE_BITS })
}

/// The places of -1, 0, 1/2 and 1.
pub(crate) proof fn lemma_marks()
    ensures
        (Binary32 { bits: 0 }).units() == 0,
        !(Binary32 { bits: 0 }).is_nan(),
        (Binary32 { bits: ONE_BITS }).units() == pow2(149),
        !(Binary32 { bits: ONE_BITS }).is_nan(),
        (Binary32 { bits: MINUS_ONE_BITS }).units() == -pow2(149),
        !(Binary32 { bits: MINUS_ONE_BITS }).is_nan(),
        2 * (Binary32 { bits: HALF_BITS }).units() == pow2(149),
        (Binary32 { bits: HALF_BITS }).is_finite(),
        pow2(149) > 0,
{
    lemma2_to64();
    lemma_pow2_pos(149);
    let one = Binary32 { bits: ONE_BITS };
    let minus = Binary32 { bits: MINUS_ONE_BITS };
    let half = Binary32 { bits: HALF_BITS };
    precision::lemma_one();
    precision::lemma_zero(one);
    assert(minus.key() == one.key());
    binary32::lemma_magnitude_order(minus, one);
    assert(minus.sign());
    assert(half.significand() == 0x80_0000);
    assert(half.step() == 125);
    lemma_pow2_adds(24, 125);
}

/// Clamping gives a value of the range for every number, and for none; it leaves values
/// of the range as they are.
pub proof fn law_clamps(v: Binary32)
    ensures
        in_unit_range(clamp01(v)),
        in_unit_range(v) ==> clamp01(v) == v,
        in_stick_range(clamp11(v)),
        in_stick_range(v) ==> clamp11(v) == v,
{
    lemma_marks();
}

/// Every analog value of a pad's state is from 0 to 1.
pub proof fn law_pad_range(p: ParsedInput, cal: StickCalibration)
    ensures
        in_unit_range(dolphin_state(p, cal).main_x),
        in_unit_range(dolphin_state(p, cal).main_y),
        in_unit_range(dolphin_state(p, cal).c_x),
        in_unit_range(dolphin_state(p, cal).c_y),
        in_unit_range(dolphin_state(p, cal).l),
        in_unit_range(dolphin_state(p, cal).r),
{
    let (lx, ly) = centered(p.lx, p.ly, cal.lx0, cal.ly0);
    let (rx, ry) = centered(p.rx, p.ry, cal.rx0, cal.ry0);
    let one = Binary32 { bits: ONE_BITS };
    let half = Binary32 { bits: HALF_BITS };
    law_clamps(lx.plus(one).times(half));
    law_clamps(ly.negated().plus(one).times(half));
    law_clamps(rx.plus(one).times(half));
    law_clamps(ry.negated().plus(one).times(half));
    let top = Binary32::of_int(1023);
    let lt: int = if p.lt10 < 1023 {
        p.lt10 as int
    } else {
        1023
    };
    let rt: int = if p.rt10 < 1023 {
        p.rt10 as int
    } else {
        1023
    };
    law_clamps(Binary32::of_int(lt).over(top));
    law_clamps(Binary32::of_int(rt).over(top));
}

/// A stick without its dead zone stays in its range.
pub proof fn law_deadzone_range(x: Binary32, y: Binary32, dz: Binary32)
    ensures
        in_stick_range(apply_radial_deadzone(x, y, dz).0),
        in_stick_range(apply_radial_deadzone(x, y, dz).1),
{
    let s = deadzone_scale(radius(x, y), dz);
    law_clamps(x.times(s));
    law_clamps(y.times(s));
    lemma_marks();
}

/// A scale that is not negative leaves a coordinate on its side.
proof fn lemma_scaled_side(x: Binary32, s: Binary32)
    requires
        !s.sign(),
    ensures
        x.units() >= 0 ==> clamp11(x.times(s)).units() >= 0,
        x.units() <= 0 ==> clamp11(x.times(s)).units() <= 0,
{
    reveal(Binary32::times_spec);
    let v = x.times(s);
    let one = pow2(149);
    lemma_marks();
    binary32::lemma_parts(x);
    precision::lemma_zero(x);
    precision::lemma_zero(v);
    if !x.is_nan() && !s.is_nan() {
        if x.is_infinite() || s.is_infinite() {
            binary32::lemma_with_sign(x.sign(), rounding::INFINITY_BITS as nat);
        } else {
            let n = x.magnitude() * s.magnitude();
            binary32::lemma_with_sign(x.sign(), rounding::round_magnitude(n, one));
            if x.key() == 0 {
                assert(n == 0) by (nonlinear_arith)
                    requires
                        n == x.magnitude() * s.magnitude(),
                        x.magnitude() == 0,
                ;
                rounding::lemma_nearest_even_from(0, one, 0, 0);
            }
        }
    }
}

/// The difference of a number and a smaller one is not negative.
proof fn lemma_difference_sign(x: Binary32, y: Binary32)
    requires
        !x.sign(),
        !x.less(y),
    ensures
        !x.minus(y).sign(),
{
    reveal(Binary32::plus_spec);
    let n = y.negated();
    binary32::lemma_parts(y);
    binary32::lemma_with_sign(!y.sign(), y.key());
    binary32::lemma_magnitude_order(y, n);
    binary32::lemma_magnitude_order(x, y);
    binary32::lemma_parts(x);
    if x.is_finite() && y.is_finite() {
        let sum = x.units() + n.units();
        assert(n.units() == -y.units());
        binary32::lemma_with_sign(false, rounding::round_magnitude(sum as nat, 1));
        binary32::lemma_with_sign(false, 0);
    }
}

proof fn lemma_quotient_sign(x: Binary32, y: Binary32)
    requires
        !x.sign(),
        !y.sign(),
    ensures
        !x.over(y).sign(),
{
    reveal(Binary32::over_spec);
    let one = pow2(149);
    binary32::lemma_with_sign(false, 0);
    binary32::lemma_with_sign(false, rounding::INFINITY_BITS as nat);
    binary32::lemma_with_sign(
        false,
        rounding::round_magnitude(x.magnitude() * one, y.magnitude()),
    );
}

/// The dead zone moves no coordinate to the other side of the centre, as long as it is not
/// wider than the full way.
pub proof fn law_deadzone_keeps_side(x: Binary32, y: Binary32, dz: Binary32)
    requires
        !(Binary32 { bits: ONE_BITS }).less(dz),
    ensures
        ({
            let (px, py) = apply_radial_deadzone(x, y, dz);
            &&& x.units() >= 0 ==> px.units() >= 0
            &&& x.units() <= 0 ==> px.units() <= 0
            &&& y.units() >= 0 ==> py.units() >= 0
            &&& y.units() <= 0 ==> py.units() <= 0
        }),
{
    let zero = Binary32 { bits: 0 };
    let one = Binary32 { bits: ONE_BITS };
    let r = radius(x, y);
    let s = deadzone_scale(r, dz);
    lemma_marks();
    if !r.at_most(dz) {
        if zero.less(r) {
            lemma_difference_sign(r, dz);
            lemma_difference_sign(one, dz);
            lemma_quotient_sign(r.minus(dz), one.minus(dz));
            lemma_quotient_sign(r.minus(dz).over(one.minus(dz)), r);
        }
        lemma_scaled_side(x, s);
        lemma_scaled_side(y, s);
    }
}

/// A negated factor negates the clamped product.
proof fn lemma_negated_product(x: Binary32, s: Binary32)
    ensures
        clamp11(x.negated().times(s)).units() == -clamp11(x.times(s)).units(),
{
    reveal(Binary32::times_spec);
    let n = x.negated();
    let v = x.times(s);
    let w = n.times(s);
    let one = pow2(149);
    let p = x.sign() != s.sign();
    let key = rounding::round_magnitude(x.magnitude() * s.magnitude(), one);
    lemma_marks();
    binary32::lemma_parts(x);
    binary32::lemma_with_sign(!x.sign(), x.key());
    binary32::lemma_magnitude_order(x, n);
    binary32::lemma_with_sign(p, rounding::INFINITY_BITS as nat);
    binary32::lemma_with_sign(!p, rounding::INFINITY_BITS as nat);
    binary32::lemma_with_sign(p, key);
    binary32::lemma_with_sign(!p, key);
    binary32::lemma_magnitude_order(v, w);
}

/// A square has no sign.
proof fn lemma_square_of_negated(x: Binary32)
    ensures
        x.negated().times(x.negated()) == x.times(x),
{
    reveal(Binary32::times_spec);
    binary32::lemma_parts(x);
    binary32::lemma_with_sign(!x.sign(), x.key());
    binary32::lemma_magnitude_order(x, x.negated());
}

proof fn lemma_plus_commutes(x: Binary32, y: Binary32)
    ensures
        x.plus(y) == y.plus(x),
{
    reveal(Binary32::plus_spec);
    binary32::lemma_parts(x);
    binary32::lemma_parts(y);
}

/// The dead zone treats both axes and both directions alike: swapped coordinates give
/// swapped coordinates, and turning one round turns round what is left of it and nothing
/// else.
pub proof fn law_deadzone_symmetry(x: Binary32, y: Binary32, dz: Binary32)
    ensures
        ({
            let (px, py) = apply_radial_deadzone(x, y, dz);
            let turned_x = apply_radial_deadzone(x.negated(), y, dz);
            let turned_y = apply_radial_deadzone(x, y.negated(), dz);
            &&& apply_radial_deadzone(y, x, dz) == (py, px)
            &&& turned_x.0.units() == -px.units() && turned_x.1 == py
            &&& turned_y.0 == px && turned_y.1.units() == -py.units()
        }),
{
    let r = radius(x, y);
    let s = deadzone_scale(r, dz);
    lemma_marks();
    lemma_plus_commutes(x.times(x), y.times(y));
    lemma_square_of_negated(x);
    lemma_square_of_negated(y);
    lemma_negated_product(x, s);
    lemma_negated_product(y, s);
}

/// What a dead zone leaves of the way is more than nothing.
pub(crate) proof fn lemma_rest_of_way(dz: Binary32)
    requires
        in_unit_range(dz),
        dz.less(Binary32 { bits: ONE_BITS }),
    ensures
        (Binary32 { bits: ONE_BITS }).minus(dz).is_finite(),
        (Binary32 { bits: ONE_BITS }).minus(dz).key() > 0,
{
    reveal(Binary32::plus_spec);
    let one = Binary32 { bits: ONE_BITS };
    let n = dz.negated();
    let unit = pow2(149);
    lemma_marks();
    precision::lemma_one();
    binary32::lemma_parts(dz);
    binary32::lemma_with_sign(!dz.sign(), dz.key());
    binary32::lemma_magnitude_order(dz, n);
    binary32::lemma_magnitude_order(one, dz);
    precision::lemma_zero(dz);
    assert(dz.is_finite());
    assert(n.units() == -dz.units());
    assert((-1) * unit == -(unit as int) && 0 * unit == 0 && 1 * unit == unit) by (nonlinear_arith);
    assert(!one.sign());
    precision::lemma_plus_within(one, 0, 1, n, -1, 0);
    precision::lemma_rounded_positive(false, (one.units() + n.units()) as nat, 1);
}

/// A position at a finite distance from zero has finite coordinates.
proof fn lemma_finite_position(x: Binary32, y: Binary32)
    requires
        radius(x, y).is_finite(),
    ensures
        x.is_finite(),
        y.is_finite(),
{
    reveal(Binary32::plus_spec);
    reveal(Binary32::times_spec);
    reveal(Binary32::square_root_spec);
    let a = x.times(x);
    let b = y.times(y);
    binary32::lemma_parts(x);
    binary32::lemma_parts(y);
    assert(Binary32::infinity(false).is_infinite());
    assert(!Binary32::infinity(false).sign());
    if !x.is_finite() {
        assert(!a.is_finite());
        assert(!a.plus(b).is_finite());
    }
    if !y.is_finite() {
        assert(!b.is_finite());
        assert(!a.plus(b).is_finite());
    }
}

/// A stick at its full way keeps its position: what the dead zone takes at the centre is
/// given back towards the edge.
pub proof fn law_deadzone_keeps_full_way(x: Binary32, y: Binary32, dz: Binary32)
    requires
        in_unit_range(dz),
        dz.less(Binary32 { bits: ONE_BITS }),
        radius(x, y) == (Binary32 { bits: ONE_BITS }),
    ensures
        apply_radial_deadzone(x, y, dz) == (clamp11(x), clamp11(y)),
{
    let one = Binary32 { bits: ONE_BITS };
    lemma_marks();
    precision::lemma_one();
    lemma_rest_of_way(dz);
    lemma_finite_position(x, y);
    precision::lemma_over_self(one.minus(dz));
    precision::lemma_over_one(one);
    precision::lemma_times_one(x);
    precision::lemma_times_one(y);
}

/// Bumpers, stick clicks and the two lowest bits of the button word do nothing: only bits
/// 2 to 11 count.
pub proof fn law_other_buttons_do_nothing(p: ParsedInput, buttons: u16, cal: StickCalibration)
    requires
        buttons & 0x0FFC == p.buttons & 0x0FFC,
    ensures
        dolphin_state((ParsedInput { buttons, ..p }), cal) == dolphin_state(p, cal),
{
    let a = p.buttons;
    assert((buttons & 0x0004 == a & 0x0004) && (buttons & 0x0008 == a & 0x0008) && (buttons & 0x0010
        == a & 0x0010) && (buttons & 0x0020 == a & 0x0020) && (buttons & 0x0040 == a & 0x0040) && (
    buttons & 0x0080 == a & 0x0080) && (buttons & 0x0100 == a & 0x0100) && (buttons & 0x0200 == a
        & 0x0200) && (buttons & 0x0400 == a & 0x0400) && (buttons & 0x0800 == a & 0x0800))
        by (bit_vector)
        requires
            buttons & 0x0FFC == a & 0x0FFC,
    ;
}

proof fn lemma_axis(v: i16)
    requires
        v != i16::MIN,
    ensures
        precision::within(norm_i16_to_f1(v), -1, 1),
        v == 0 ==> norm_i16_to_f1(v) == (Binary32 { bits: 0 }),
        v != 0 ==> norm_i16_to_f1(v).key() > 0 && norm_i16_to_f1(v).sign() == (v < 0),
        norm_i16_to_f1(v).key() == rounding::round_magnitude(
            (if v < 0 {
                -v
            } else {
                v as int
            }) as nat * pow2(149) * pow2(149),
            32767 * pow2(149),
        ),
{
    reveal(Binary32::over_spec);
    let a: nat = (if v < 0 {
        -v
    } else {
        v as int
    }) as nat;
    let one = pow2(149);
    lemma_pow2_pos(149);
    lemma2_to64();
    precision::lemma_of_int(v as int);
    precision::lemma_of_int(a as int);
    precision::lemma_of_int(32767);
    let x = Binary32::of_int(v as int);
    let y = Binary32::of_int(32767);
    let r = norm_i16_to_f1(v);
    assert(-(a * one) == (-a) * one) by (nonlinear_arith);
    assert(x.magnitude() == a * one);
    precision::lemma_zero(y);
    precision::lemma_zero(x);
    let num = (a * one) * one;
    let den = 32767 * one;
    assert(num <= (1 * one) * den) by (nonlinear_arith)
        requires
            num == (a * one) * one,
            den == 32767 * one,
            a <= 32767,
            one > 0,
    ;
    precision::lemma_rounded_at_most(v < 0, num, den, 1);
    binary32::lemma_with_sign(v < 0, rounding::round_magnitude(num, den));
    assert(r == Binary32::rounded(v < 0, num, den));
    if v == 0 {
        assert(num == 0) by (nonlinear_arith)
            requires
                num == (a * one) * one,
                a == 0,
        ;
        rounding::lemma_nearest_even_from(0, den, 0, 0);
    } else {
        rounding::lemma_pow2_monotone(16, 149);
        assert(num >= den) by (nonlinear_arith)
            requires
                num == (a * one) * one,
                den == 32767 * one,
                a >= 1,
                one >= 32767,
        ;
        precision::lemma_rounded_positive(v < 0, num, den);
    }
    assert((-1) * one == -(one as int)) by (nonlinear_arith);
}

/// The magnitudes of two axes are in the order of their distances from zero.
proof fn lemma_axis_distance(v: i16, w: i16)
    requires
        v != i16::MIN,
        w != i16::MIN,
        (if v < 0 {
            -v
        } else {
            v as int
        }) <= (if w < 0 {
            -w
        } else {
            w as int
        }),
    ensures
        norm_i16_to_f1(v).magnitude() <= norm_i16_to_f1(w).magnitude(),
{
    let one = pow2(149);
    let a: nat = (if v < 0 {
        -v
    } else {
        v as int
    }) as nat;
    let b: nat = (if w < 0 {
        -w
    } else {
        w as int
    }) as nat;
    let d = 32767 * one;
    lemma_pow2_pos(149);
    lemma_axis(v);
    lemma_axis(w);
    assert((a * one * one) * d <= (b * one * one) * d) by (nonlinear_arith)
        requires
            a <= b,
    ;
    precision::law_rounding_keeps_order(a * one * one, d, b * one * one, d);
    binary32::lemma_magnitude_order(norm_i16_to_f1(v), norm_i16_to_f1(w));
}

/// A further position of an axis never gives a smaller number.
pub proof fn law_axis_order(v: i16, w: i16)
    requires
        v <= w,
    ensures
        norm_i16_to_f1(v).at_most(norm_i16_to_f1(w)),
{
    lemma_marks();
    law_axis_range_and_symmetry(v);
    law_axis_range_and_symmetry(w);
    if v != i16::MIN {
        lemma_axis(v);
        lemma_axis(w);
        if v >= 0 {
            lemma_axis_distance(v, w);
        } else if w < 0 {
            lemma_axis_distance(w, v);
        }
    }
}

/// An axis is mapped to the range from -1 to 1, 0 to 0, and opposite positions to
/// opposite numbers; the lowest position has no opposite and is -1.
pub proof fn law_axis_range_and_symmetry(v: i16)
    ensures
        in_stick_range(norm_i16_to_f1(v)),
        norm_i16_to_f1(0) == (Binary32 { bits: 0 }),
        v != i16::MIN && v != 0 ==> norm_i16_to_f1((-v) as i16) == norm_i16_to_f1(v).negated(),
        norm_i16_to_f1(i16::MIN) == (Binary32 { bits: MINUS_ONE_BITS }),
        norm_i16_to_f1(i16::MAX) == (Binary32 { bits: ONE_BITS }),
{
    lemma_marks();
    lemma_axis(0);
    precision::lemma_of_int(32767);
    precision::lemma_zero(Binary32::of_int(32767));
    precision::lemma_over_self(Binary32::of_int(32767));
    if v != i16::MIN {
        lemma_axis(v);
        lemma_axis((-v) as i16);
        let one = pow2(149);
        assert((-1) * one == -(one as int)) by (nonlinear_arith);
        binary32::lemma_parts(norm_i16_to_f1(v));
        binary32::lemma_parts(norm_i16_to_f1((-v) as i16));
    }
}

/// Only a trigger that is let go is 0, only one that is fully pressed is 1, and pressing
/// further never gives less.
pub proof fn law_trigger_ends_and_order(low: u16, high: u16)
    requires
        low <= high,
    ensures
        norm_trig10_to_01(low) == (Binary32 { bits: 0 }) <==> low == 0,
        norm_trig10_to_01(high) == (Binary32 { bits: ONE_BITS }) <==> high >= 1023,
        norm_trig10_to_01(low).at_most(norm_trig10_to_01(high)),
{
    reveal(Binary32::over_spec);
    let a: u32 = if low < 1023 {
        low as u32
    } else {
        1023
    };
    let b: u32 = if high < 1023 {
        high as u32
    } else {
        1023
    };
    let one = pow2(149);
    let top = Binary32::of_int(1023);
    lemma2_to64();
    lemma_marks();
    precision::lemma_of_int(1023);
    precision::lemma_of_int(0);
    precision::lemma_of_int(a as int);
    precision::lemma_of_int(b as int);
    precision::lemma_zero(top);
    precision::lemma_over_self(top);
    precision::lemma_share_within(a, 1023);
    precision::lemma_share_within(b, 1023);
    precision::lemma_share_within(0, 1023);
    let x = Binary32::of_int(a as int).over(top);
    let y = Binary32::of_int(b as int).over(top);
    let z = Binary32::of_int(0).over(top);
    law_clamps(x);
    law_clamps(y);
    law_clamps(z);
    binary32::lemma_parts(x);
    binary32::lemma_parts(y);
    let (na, nb, d) = ((a * one) * one, (b * one) * one, 1023 * one);
    assert(na * d <= nb * d) by (nonlinear_arith)
        requires
            na == (a * one) * one,
            nb == (b * one) * one,
            d == 1023 * one,
            0 <= a <= b,
            one > 0,
    ;
    precision::law_rounding_keeps_order(na as nat, d as nat, nb as nat, d as nat);
    binary32::lemma_with_sign(false, rounding::round_magnitude(na as nat, d as nat));
    binary32::lemma_with_sign(false, rounding::round_magnitude(nb as nat, d as nat));
    binary32::lemma_magnitude_order(x, y);
    assert(0 * one == 0);
    assert((0 * one) * one == 0);
    rounding::lemma_nearest_even_from(0, d as nat, 0, 0);
    assert(z == (Binary32 { bits: 0 }));
    if low > 0 {
        rounding::lemma_pow2_monotone(10, 149);
        assert(na >= d) by (nonlinear_arith)
            requires
                na == (a * one) * one,
                d == 1023 * one,
                a >= 1,
                one >= 1023,
        ;
        precision::lemma_rounded_positive(false, na as nat, d as nat);
    }
    if high < 1023 {
        let unit = Binary32 { bits: ONE_BITS };
        let before = Binary32 { bits: 0x3F7F_FFFF };
        let p = pow2(125);
        lemma_pow2_adds(24, 125);
        assert(before.significand() == 0xFF_FFFF && before.step() == 125);
        precision::lemma_one();
        precision::lemma_share_below(b, 1023, unit, before);
        assert((b * one) * one <= (0xFF_FFFF * p) * (1023 * one)) by (nonlinear_arith)
            requires
                one == 0x100_0000 * p,
                0 <= b <= 1022,
        ;
    }
}

/// The centre of a stick is one half on both of the pipe's axes.
proof fn lemma_centre_is_half(zero: Binary32)
    requires
        zero.key() == 0,
    ensures
        pipe_axis_spec(zero) == (Binary32 { bits: HALF_BITS }),
{
    reveal(Binary32::times_spec);
    let one = Binary32 { bits: ONE_BITS };
    let half = Binary32 { bits: HALF_BITS };
    lemma_marks();
    precision::lemma_one();
    precision::lemma_plus_zero(one, zero);
    precision::lemma_exact(half, pow2(149));
    assert(one.magnitude() * half.magnitude() == half.magnitude() * pow2(149)) by (nonlinear_arith)
        requires
            one.magnitude() == pow2(149),
    ;
    assert(one.times(half) == half);
}

/// A stick within its dead zone is exactly in the middle.
pub proof fn law_deadzone_is_centre(p: ParsedInput, cal: StickCalibration)
    ensures
        ({
            let x = clamp11(norm_i16_to_f1(p.lx).minus(cal.lx0));
            let y = clamp11(norm_i16_to_f1(p.ly).minus(cal.ly0));
            radius(x, y).at_most(Binary32 { bits: STICK_DEADZONE_BITS })
        }) ==> dolphin_state(p, cal).main_x == (Binary32 { bits: HALF_BITS }) && dolphin_state(
            p,
            cal,
        ).main_y == (Binary32 { bits: HALF_BITS }),
        ({
            let x = clamp11(norm_i16_to_f1(p.rx).minus(cal.rx0));
            let y = clamp11(norm_i16_to_f1(p.ry).minus(cal.ry0));
            radius(x, y).at_most(Binary32 { bits: STICK_DEADZONE_BITS })
        }) ==> dolphin_state(p, cal).c_x == (Binary32 { bits: HALF_BITS }) && dolphin_state(
            p,
            cal,
        ).c_y == (Binary32 { bits: HALF_BITS }),
{
    let zero = Binary32 { bits: 0 };
    lemma_centre_is_half(zero);
    assert(zero.negated().key() == 0);
    lemma_centre_is_half(zero.negated());
}

/// Learning from a first position makes it the mean, and learning from the mean keeps it.
pub(crate) proof fn lemma_mean(v: i16, n: u32)
    requires
        v != i16::MIN,
        n > 0,
    ensures
        mean_with(Binary32 { bits: 0 }, norm_i16_to_f1(v), Binary32::of_int(1)) == norm_i16_to_f1(
            v,
        ),
        mean_with(norm_i16_to_f1(v), norm_i16_to_f1(v), Binary32::of_int(n as int))
            == norm_i16_to_f1(v),
{
    reveal(Binary32::plus_spec);
    reveal(Binary32::over_spec);
    let zero = Binary32 { bits: 0 };
    let minus_zero = zero.negated();
    let x = norm_i16_to_f1(v);
    lemma_axis(v);
    lemma_marks();
    precision::lemma_one();
    precision::lemma_zero(zero);
    precision::lemma_zero(minus_zero);
    precision::lemma_over_one(x);
    precision::lemma_minus_self(x);
    precision::lemma_of_count(n, n);
    let k = Binary32::of_int(n as int);
    let z = zero.over(k);
    assert(zero.magnitude() * pow2(149) == 0) by (nonlinear_arith)
        requires
            zero.magnitude() == 0,
    ;
    rounding::lemma_nearest_even_from(0, k.magnitude(), 0, 0);
    assert(z == zero);
    assert(x.minus(zero) == x.plus(minus_zero));
    if v == 0 {
        assert(x.minus(zero) == zero);
        assert(zero.plus(zero) == zero);
    } else {
        precision::lemma_plus_zero(x, minus_zero);
        precision::lemma_plus_zero(x, zero);
    }
}

/// A stick at its learned centre is in the middle.
proof fn lemma_rest(x: i16, y: i16)
    requires
        x != i16::MIN,
        y != i16::MIN,
    ensures
        centered(x, y, norm_i16_to_f1(x), norm_i16_to_f1(y)) == (
            Binary32 { bits: 0 },
            Binary32 { bits: 0 },
        ),
{
    reveal(Binary32::plus_spec);
    reveal(Binary32::times_spec);
    reveal(Binary32::square_root_spec);
    let zero = Binary32 { bits: 0 };
    let dz = Binary32 { bits: STICK_DEADZONE_BITS };
    lemma_axis(x);
    lemma_axis(y);
    precision::lemma_minus_self(norm_i16_to_f1(x));
    precision::lemma_minus_self(norm_i16_to_f1(y));
    lemma_marks();
    law_clamps(zero);
    precision::lemma_zero(zero);
    precision::lemma_zero(dz);
    rounding::lemma_nearest_even_from(0, pow2(149), 0, 0);
    assert(zero.magnitude() * zero.magnitude() == 0) by (nonlinear_arith)
        requires
            zero.magnitude() == 0,
    ;
    assert(zero.times(zero) == zero);
    assert(zero.plus(zero) == zero);
    assert(radius(zero, zero) == zero);
}

/// A square is finite and from 0 to 1 for a position on the axis.
pub(crate) proof fn lemma_square(x: Binary32)
    requires
        in_stick_range(x),
    ensures
        precision::within(x.times(x), 0, 1),
        x.units() == -pow2(149) ==> x.times(x) == (Binary32 { bits: ONE_BITS }),
{
    reveal(Binary32::times_spec);
    let one = pow2(149);
    let m = x.magnitude();
    lemma_marks();
    binary32::lemma_parts(x);
    assert(m <= one);
    if x.is_infinite() {
        binary32::lemma_magnitude_order(Binary32 { bits: ONE_BITS }, x);
    }
    assert(m * m <= (1 * one) * one) by (nonlinear_arith)
        requires
            0 <= m <= one,
    ;
    precision::lemma_rounded_at_most(false, m * m, one, 1);
    if m == one {
        precision::lemma_one();
        precision::lemma_exact(Binary32 { bits: ONE_BITS }, one);
    }
}

/// An axis at its lowest position is not near zero, wherever the other one is.
proof fn lemma_lowest_is_far(other: i16)
    ensures
        ({
            let low = Binary32 { bits: MINUS_ONE_BITS };
            let limit = Binary32 { bits: CALIBRATION_MAX_RADIUS_BITS };
            !radius(low, norm_i16_to_f1(other)).at_most(limit) && !radius(
                norm_i16_to_f1(other),
                low,
            ).at_most(limit)
        }),
{
    let low = Binary32 { bits: MINUS_ONE_BITS };
    let one = Binary32 { bits: ONE_BITS };
    let limit = Binary32 { bits: CALIBRATION_MAX_RADIUS_BITS };
    let v = norm_i16_to_f1(other);
    lemma_marks();
    law_axis_range_and_symmetry(other);
    lemma_square(low);
    lemma_square(v);
    let a = low.times(low);
    let b = v.times(v);
    precision::lemma_plus_within(a, 0, 1, b, 0, 1);
    precision::lemma_plus_within(b, 0, 1, a, 0, 1);
    lemma_far_root(a, b);
    lemma_far_root(b, a);
}

/// The root of a sum of squares of which one is 1 is more than a quarter.
proof fn lemma_far_root(a: Binary32, b: Binary32)
    requires
        precision::within(a, 0, 1),
        precision::within(b, 0, 1),
        a == (Binary32 { bits: ONE_BITS }) || b == (Binary32 { bits: ONE_BITS }),
    ensures
        !a.plus(b).square_root().at_most(Binary32 { bits: CALIBRATION_MAX_RADIUS_BITS }),
{
    reveal(Binary32::plus_spec);
    reveal(Binary32::square_root_spec);
    let one = pow2(149);
    let limit = Binary32 { bits: CALIBRATION_MAX_RADIUS_BITS };
    let sum = a.plus(b);
    lemma_marks();
    precision::lemma_one();
    precision::lemma_plus_within(a, 0, 1, b, 0, 1);
    let exact = (a.units() + b.units()) as nat;
    precision::lemma_exact(Binary32 { bits: ONE_BITS }, 1);
    precision::law_rounding_keeps_order(one * 1, 1, exact, 1);
    binary32::lemma_with_sign(false, rounding::round_magnitude(exact, 1));
    assert(sum == Binary32::rounded(false, exact, 1));
    let unit = Binary32 { bits: ONE_BITS };
    assert(unit.key() == ONE_BITS);
    binary32::lemma_magnitude_order(unit, sum);
    assert(sum.magnitude() >= one);
    let n = sum.magnitude() * one;
    lemma2_to64();
    lemma2_to64_rest();
    lemma_pow2_adds(149, 149);
    lemma_pow2_adds(48, 250);
    assert(n >= one * one) by (nonlinear_arith)
        requires
            n == sum.magnitude() * one,
            sum.magnitude() >= one,
    ;
    assert(1 * pow2(250) == pow2(250));
    root::lemma_root_rank_low(n, 1, 125);
    let r = sum.square_root();
    let key = rounding::capped(root::root_rank(n, 1));
    binary32::lemma_with_sign(false, key);
    assert(limit.key() == CALIBRATION_MAX_RADIUS_BITS);
    binary32::lemma_magnitude_order(limit, r);
}

/// Sticks near zero have no axis at its lowest position.
pub(crate) proof fn lemma_near_is_not_lowest(p: ParsedInput)
    requires
        StickCalibration::near_center(p),
    ensures
        p.lx != i16::MIN && p.ly != i16::MIN && p.rx != i16::MIN && p.ry != i16::MIN,
{
    lemma_lowest_is_far(p.lx);
    lemma_lowest_is_far(p.ly);
    lemma_lowest_is_far(p.rx);
    lemma_lowest_is_far(p.ry);
}

/// Sticks that rest near zero are learned as they rest: from the first packet on their
/// position is the learned centre, and the pad has them exactly in the middle.
pub proof fn law_resting_sticks_are_centred(p: ParsedInput, cal: StickCalibration)
    requires
        StickCalibration::near_center(p),
        cal == StickCalibration::initial() || (cal.lx0 == norm_i16_to_f1(p.lx) && cal.ly0
            == norm_i16_to_f1(p.ly) && cal.rx0 == norm_i16_to_f1(p.rx) && cal.ry0
            == norm_i16_to_f1(p.ry)),
    ensures
        ({
            let next = cal.learned(p);
            let pad = dolphin_state(p, next);
            let half = Binary32 { bits: HALF_BITS };
            &&& next.lx0 == norm_i16_to_f1(p.lx)
            &&& next.ly0 == norm_i16_to_f1(p.ly)
            &&& next.rx0 == norm_i16_to_f1(p.rx)
            &&& next.ry0 == norm_i16_to_f1(p.ry)
            &&& pad.main_x == half && pad.main_y == half && pad.c_x == half && pad.c_y == half
        }),
{
    let next = cal.learned(p);
    lemma_near_is_not_lowest(p);
    lemma_mean(p.lx, next.n);
    lemma_mean(p.ly, next.n);
    lemma_mean(p.rx, next.n);
    lemma_mean(p.ry, next.n);
    lemma_rest(p.lx, p.ly);
    lemma_rest(p.rx, p.ry);
    let zero = Binary32 { bits: 0 };
    lemma_centre_is_half(zero);
    assert(zero.negated().key() == 0);
    lemma_centre_is_half(zero.negated());
}

/// The dead zone's radius is the number nearest to 0.12, and the largest radius of a
/// centre is a quarter.
pub proof fn law_stick_constants()
    ensures
        Binary32::rounded(false, 12 * pow2(149), 100) == (Binary32 { bits: STICK_DEADZONE_BITS }),
        4 * (Binary32 { bits: CALIBRATION_MAX_RADIUS_BITS }).units() == pow2(149),
{
    lemma2_to64();
    precision::lemma_nearest_pattern(12, 100, 122, 16106127, 36);
    let quarter = Binary32 { bits: CALIBRATION_MAX_RADIUS_BITS };
    assert(quarter.significand() == 0x80_0000);
    assert(quarter.step() == 124);
    lemma_pow2_adds(25, 124);
}

} // verus!
