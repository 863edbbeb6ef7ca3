//! IEEE 754 binary32 numbers, held as their bit patterns and computed with
//! integers: every operation rounds its exact result to the nearest number, ties
//! to the even significand.
use crate::arithmetic;
use crate::root;
use crate::rounding;
use vstd::arithmetic::power2::*;
use vstd::prelude::*;

verus! {

/// The bit that holds the sign.
pub const SIGN_BIT: u32 = 0x8000_0000;

/// The one bit pattern that operations give for a result that is not a number.
pub const NAN_BITS: u32 = 0x7FC0_0000;

/// The bit pattern of one.
pub const ONE_BITS: u32 = 0x3F80_0000;

/// A binary32 number.
#[derive(Clone, Copy, Debug, PartialEq, Eq, Structural)]
pub struct Binary32 {
    /// Sign bit, eight bits of biased exponent, 23 bits of fraction.
    pub bits: u32,
}

impl Binary32 {
    /// Whether the sign bit is set.
    pub open spec fn sign(self) -> bool {
        self.bits >= SIGN_BIT
    }

    /// The low 31 bits.
    pub open spec fn key(self) -> nat {
        (self.bits % SIGN_BIT) as nat
    }

    /// The biased exponent.
    pub open spec fn exponent(self) -> nat {
        self.key() / 0x80_0000
    }

    /// The fraction bits.
    pub open spec fn fraction(self) -> nat {
        self.key() % 0x80_0000
    }

    /// Whether this is no number.
    pub open spec fn is_nan_spec(self) -> bool {
        self.exponent() == 255 && self.fraction() != 0
    }

    /// Whether this is an infinity.
    pub open spec fn is_infinite(self) -> bool {
        self.exponent() == 255 && self.fraction() == 0
    }

    /// Whether this is a number other than the infinities.
    pub open spec fn is_finite(self) -> bool {
        self.exponent() != 255
    }

    /// The significand as a whole number.
    pub open spec fn significand(self) -> nat {
        if self.exponent() == 0 {
            self.fraction()
        } else {
            0x80_0000 + self.fraction()
        }
    }

    /// The binary logarithm, in units, of the step between neighbouring numbers.
    pub open spec fn step(self) -> nat {
        if self.exponent() == 0 {
            0
        } else {
            (self.exponent() - 1) as nat
        }
    }

    /// The absolute value in units of `2^-149`. Infinity, read by the same rule, is
    /// larger than every finite number.
    pub open spec fn magnitude(self) -> nat {
        self.significand() * pow2(self.step())
    }

    /// The value in units of `2^-149`.
    pub open spec fn units(self) -> int {
        if self.sign() {
            -(self.magnitude() as int)
        } else {
            self.magnitude() as int
        }
    }

    /// The number with the given sign and low 31 bits.
    pub open spec fn with_sign(sign: bool, key: nat) -> Binary32 {
        Binary32 {
            bits: (key + if sign {
                SIGN_BIT as nat
            } else {
                0
            }) as u32,
        }
    }

    /// The number nearest to `num / den` units, with the given sign.
    pub open spec fn rounded(sign: bool, num: nat, den: nat) -> Binary32 {
        Self::with_sign(sign, rounding::round_magnitude(num, den))
    }

    /// What operations give where the result is no number.
    pub open spec fn nan() -> Binary32 {
        Binary32 { bits: NAN_BITS }
    }

    /// The zero with the given sign.
    pub open spec fn zero(sign: bool) -> Binary32 {
        Self::with_sign(sign, 0)
    }

    /// The infinity with the given sign.
    pub open spec fn infinity(sign: bool) -> Binary32 {
        Self::with_sign(sign, rounding::INFINITY_BITS as nat)
    }

    /// The number nearest to a whole number.
    pub open spec fn of_int(n: int) -> Binary32 {
        Self::rounded(
            n < 0,
            (if n < 0 {
                -n
            } else {
                n
            }) as nat * pow2(149),
            1,
        )
    }

    /// The number with the opposite sign.
    pub open spec fn negated_spec(self) -> Binary32 {
        Self::with_sign(!self.sign(), self.key())
    }

    /// The absolute value.
    pub open spec fn absolute_spec(self) -> Binary32 {
        Self::with_sign(false, self.key())
    }

    /// The sum, rounded. Opposite numbers give the positive zero.
    #[verifier::opaque]
    pub open spec fn plus_spec(self, other: Binary32) -> Binary32 {
        if self.is_nan_spec() || other.is_nan_spec() {
            Self::nan()
        } else if self.is_infinite() {
            if other.is_infinite() && self.sign() != other.sign() {
                Self::nan()
            } else {
                self
            }
        } else if other.is_infinite() {
            other
        } else {
            let sum = self.units() + other.units();
            if sum == 0 {
                Self::zero(self.sign() && other.sign())
            } else if sum < 0 {
                Self::rounded(true, (-sum) as nat, 1)
            } else {
                Self::rounded(false, sum as nat, 1)
            }
        }
    }

    /// The difference, rounded.
    pub open spec fn minus_spec(self, other: Binary32) -> Binary32 {
        self.plus_spec(other.negated_spec())
    }

    /// The product, rounded.
    #[verifier::opaque]
    pub open spec fn times_spec(self, other: Binary32) -> Binary32 {
        let sign = self.sign() != other.sign();
        if self.is_nan_spec() || other.is_nan_spec() {
            Self::nan()
        } else if self.is_infinite() || other.is_infinite() {
            if self.key() == 0 || other.key() == 0 {
                Self::nan()
            } else {
                Self::infinity(sign)
            }
        } else {
            Self::rounded(sign, self.magnitude() * other.magnitude(), pow2(149))
        }
    }

    /// The quotient, rounded.
    #[verifier::opaque]
    pub open spec fn over_spec(self, other: Binary32) -> Binary32 {
        let sign = self.sign() != other.sign();
        if self.is_nan_spec() || other.is_nan_spec() {
            Self::nan()
        } else if self.is_infinite() {
            if other.is_infinite() {
                Self::nan()
            } else {
                Self::infinity(sign)
            }
        } else if other.is_infinite() {
            Self::zero(sign)
        } else if other.key() == 0 {
            if self.key() == 0 {
                Self::nan()
            } else {
                Self::infinity(sign)
            }
        } else {
            Self::rounded(sign, self.magnitude() * pow2(149), other.magnitude())
        }
    }

    /// The square root, rounded.
    #[verifier::opaque]
    pub open spec fn square_root_spec(self) -> Binary32 {
        if self.is_nan_spec() {
            Self::nan()
        } else if self.key() == 0 {
            self
        } else if self.sign() {
            Self::nan()
        } else if self.is_infinite() {
            self
        } else {
            Self::with_sign(
                false,
                rounding::capped(root::root_rank(self.magnitude() * pow2(149), 1)),
            )
        }
    }

    /// Whether both are numbers and this one is the smaller.
    pub open spec fn less_spec(self, other: Binary32) -> bool {
        !self.is_nan_spec() && !other.is_nan_spec() && self.units() < other.units()
    }

    /// Whether both are numbers and this one is not the larger.
    pub open spec fn at_most_spec(self, other: Binary32) -> bool {
        !self.is_nan_spec() && !other.is_nan_spec() && self.units() <= other.units()
    }

    /// The whole part of the value, towards zero, kept to the range of `i32`; 0 where
    /// there is no number.
    pub open spec fn truncated_spec(self) -> int {
        let whole = self.magnitude() as int / pow2(149) as int;
        if self.is_nan_spec() {
            0
        } else if self.sign() {
            if -whole < i32::MIN {
                i32::MIN as int
            } else {
                -whole
            }
        } else {
            if whole > i32::MAX {
                i32::MAX as int
            } else {
                whole
            }
        }
    }

    /// The number with the given bit pattern.
    pub fn from_bits(bits: u32) -> (r: Binary32)
        ensures
            r.bits == bits,
    {
        Binary32 { bits }
    }

    /// The bit pattern.
    pub fn to_bits(self) -> (bits: u32)
        ensures
            bits == self.bits,
    {
        self.bits
    }

    /// The number nearest to a whole number.
    pub fn from_int(n: i64) -> (r: Binary32)
        requires
            -0x1_0000_0000 <= n <= 0x1_0000_0000,
        ensures
            r == Binary32::of_int(n as int),
    {
        let sign: bool = n < 0;
        let m: u64 = if sign {
            (-n) as u64
        } else {
            n as u64
        };
        proof {
            arithmetic::lemma_whole(m as nat, 149);
        }
        arithmetic::assemble(sign, rounding::round_dyadic(m as u128, 149))
    }

    /// Sign, significand and step.
    pub(crate) fn parts(self) -> (r: (bool, u32, u32))
        ensures
            r.0 == self.sign(),
            r.1 == self.significand(),
            r.2 == self.step(),
    {
        let key: u32 = self.bits % SIGN_BIT;
        let exponent: u32 = key / 0x80_0000;
        let fraction: u32 = key % 0x80_0000;
        if exponent == 0 {
            (self.bits >= SIGN_BIT, fraction, 0)
        } else {
            (self.bits >= SIGN_BIT, 0x80_0000 + fraction, exponent - 1)
        }
    }

    /// Whether this is no number.
    #[verifier::when_used_as_spec(is_nan_spec)]
    pub fn is_nan(self) -> (r: bool)
        ensures
            r == self.is_nan_spec(),
    {
        self.bits % SIGN_BIT > rounding::INFINITY_BITS
    }

    fn infinite(self) -> (r: bool)
        ensures
            r == self.is_infinite(),
    {
        self.bits % SIGN_BIT == rounding::INFINITY_BITS
    }

    /// The number with the opposite sign.
    #[verifier::when_used_as_spec(negated_spec)]
    pub fn negated(self) -> (r: Binary32)
        ensures
            r == self.negated_spec(),
    {
        arithmetic::assemble(self.bits < SIGN_BIT, self.bits % SIGN_BIT)
    }

    /// The absolute value.
    #[verifier::when_used_as_spec(absolute_spec)]
    pub fn absolute(self) -> (r: Binary32)
        ensures
            r == self.absolute_spec(),
    {
        arithmetic::assemble(false, self.bits % SIGN_BIT)
    }

    /// The sum, rounded.
    #[verifier::when_used_as_spec(plus_spec)]
    pub fn plus(self, other: Binary32) -> (r: Binary32)
        ensures
            r == self.plus_spec(other),
    {
        proof {
            reveal(Binary32::plus_spec);
        }
        if self.is_nan() || other.is_nan() {
            return Binary32 { bits: NAN_BITS };
        }
        let (sx, mx, tx) = self.parts();
        let (sy, my, ty) = other.parts();
        if self.infinite() {
            if other.infinite() && sx != sy {
                return Binary32 { bits: NAN_BITS };
            }
            return self;
        }
        if other.infinite() {
            return other;
        }
        proof {
            lemma_parts(self);
            lemma_parts(other);
            arithmetic::lemma_rank_zero();
            arithmetic::lemma_rank_positive((self.units() + other.units()) as nat);
            arithmetic::lemma_rank_positive((-self.units() - other.units()) as nat);
        }
        if sx == sy {
            let key: u32 = if tx >= ty {
                arithmetic::add_magnitudes(mx, tx, my, ty)
            } else {
                arithmetic::add_magnitudes(my, ty, mx, tx)
            };
            arithmetic::assemble(sx, key)
        } else {
            let (flipped, key) = if tx >= ty {
                arithmetic::subtract_magnitudes(mx, tx, my, ty)
            } else {
                let (f, k) = arithmetic::subtract_magnitudes(my, ty, mx, tx);
                (!f, k)
            };
            if key == 0 {
                arithmetic::assemble(false, 0)
            } else {
                arithmetic::assemble(sx != flipped, key)
            }
        }
    }

    /// The difference, rounded.
    #[verifier::when_used_as_spec(minus_spec)]
    pub fn minus(self, other: Binary32) -> (r: Binary32)
        ensures
            r == self.minus_spec(other),
    {
        self.plus(other.negated())
    }

    /// The product, rounded.
    #[verifier::when_used_as_spec(times_spec)]
    pub fn times(self, other: Binary32) -> (r: Binary32)
        ensures
            r == self.times_spec(other),
    {
        proof {
            reveal(Binary32::times_spec);
        }
        if self.is_nan() || other.is_nan() {
            return Binary32 { bits: NAN_BITS };
        }
        let (sx, mx, tx) = self.parts();
        let (sy, my, ty) = other.parts();
        let sign: bool = sx != sy;
        if self.infinite() || other.infinite() {
            if self.bits % SIGN_BIT == 0 || other.bits % SIGN_BIT == 0 {
                return Binary32 { bits: NAN_BITS };
            }
            return arithmetic::assemble(sign, rounding::INFINITY_BITS);
        }
        proof {
            lemma_parts(self);
            lemma_parts(other);
            assert(mx * my < 0x100_0000 * 0x100_0000) by (nonlinear_arith)
                requires
                    0 <= mx < 0x100_0000,
                    0 <= my < 0x100_0000,
            ;
        }
        let m: u64 = (mx as u64) * (my as u64);
        let e: i32 = tx as i32 + ty as i32 - 149;
        proof {
            let p = pow2(tx as nat);
            let q = pow2(ty as nat);
            let one = pow2(149);
            let up = rounding::up(e as int);
            let down = rounding::down(e as int);
            lemma_pow2_adds(tx as nat, ty as nat);
            lemma_pow2_pos(149);
            rounding::lemma_up_down((tx + ty) as nat, 149);
            rounding::lemma_up_down_positive(e as int);
            assert((m * up) * one == ((mx * p) * (my * q)) * down) by (nonlinear_arith)
                requires
                    m == mx * my,
                    (p * q) * down == up * one,
            ;
            rounding::lemma_rank_same(
                m as nat * up,
                down,
                self.magnitude() * other.magnitude(),
                one,
            );
        }
        arithmetic::assemble(sign, rounding::round_dyadic(m as u128, e))
    }

    /// The quotient, rounded.
    #[verifier::when_used_as_spec(over_spec)]
    pub fn over(self, other: Binary32) -> (r: Binary32)
        ensures
            r == self.over_spec(other),
    {
        proof {
            reveal(Binary32::over_spec);
        }
        if self.is_nan() || other.is_nan() {
            return Binary32 { bits: NAN_BITS };
        }
        let (sx, mx, tx) = self.parts();
        let (sy, my, ty) = other.parts();
        let sign: bool = sx != sy;
        if self.infinite() {
            if other.infinite() {
                return Binary32 { bits: NAN_BITS };
            }
            return arithmetic::assemble(sign, rounding::INFINITY_BITS);
        }
        if other.infinite() {
            return arithmetic::assemble(sign, 0);
        }
        if other.bits % SIGN_BIT == 0 {
            if self.bits % SIGN_BIT == 0 {
                return Binary32 { bits: NAN_BITS };
            }
            return arithmetic::assemble(sign, rounding::INFINITY_BITS);
        }
        proof {
            lemma_parts(self);
            lemma_parts(other);
        }
        let a: u128 = (mx as u128) * 0x1_0000_0000_0000_0000;
        let b: u128 = my as u128;
        let m: u128 = a / b;
        let e: i32 = tx as i32 - ty as i32 + 85;
        proof {
            arithmetic::lemma_quotient(self, other, m as nat, e as int);
        }
        if a % b == 0 {
            arithmetic::assemble(sign, rounding::round_dyadic(m, e))
        } else {
            arithmetic::assemble(sign, rounding::round_dyadic(2 * m + 1, e - 1))
        }
    }

    /// The square root, rounded.
    #[verifier::when_used_as_spec(square_root_spec)]
    pub fn square_root(self) -> (r: Binary32)
        ensures
            r == self.square_root_spec(),
    {
        proof {
            reveal(Binary32::square_root_spec);
        }
        if self.is_nan() {
            return Binary32 { bits: NAN_BITS };
        }
        if self.bits % SIGN_BIT == 0 {
            return self;
        }
        if self.bits >= SIGN_BIT {
            return Binary32 { bits: NAN_BITS };
        }
        if self.infinite() {
            return self;
        }
        let (_, m, t) = self.parts();
        proof {
            lemma_parts(self);
            lemma2_to64();
            lemma2_to64_rest();
        }
        // The root of `m * 2^(t + 149)`, with an even power of two taken out of it.
        let odd: bool = (t + 149) % 2 == 1;
        let k: u128 = if odd {
            0x2000_0000_0000_0000
        } else {
            0x1000_0000_0000_0000
        };
        let n: u128 = (m as u128) * k;
        let r: u64 = root::whole_root(n);
        let e: i32 = if odd {
            (t as i32 + 88) / 2
        } else {
            (t as i32 + 89) / 2
        };
        assert(r * r < 0x800_0000_0000 * 0x800_0000_0000) by (nonlinear_arith)
            requires
                0 <= r < 0x800_0000_0000,
        ;
        let c: u128 = if (r as u128) * (r as u128) < n {
            1
        } else {
            0
        };
        proof {
            assert(r >= 0x100_0000) by (nonlinear_arith)
                requires
                    n < (r + 1) * (r + 1),
                    n >= 0x1000_0000_0000_0000,
            ;
            root::lemma_root_rank(n as nat, r as nat, c as nat, e as nat);
            let a: nat = if odd {
                61
            } else {
                60
            };
            let p = pow2(2 * e as nat);
            lemma_pow2_adds(a, 2 * e as nat);
            lemma_pow2_adds(t as nat, 149);
            assert(a + 2 * e == t + 149);
            assert(n * p == (m * pow2(t as nat)) * pow2(149)) by (nonlinear_arith)
                requires
                    n == m * k,
                    k * p == pow2(t as nat) * pow2(149),
            ;
        }
        arithmetic::assemble(false, rounding::round_dyadic(2 * (r as u128) + c, e - 1))
    }

    /// The place of the number among all numbers.
    fn place(self) -> (r: i64)
        ensures
            r == if self.sign() {
                -(self.key() as int)
            } else {
                self.key() as int
            },
    {
        let key: i64 = (self.bits % SIGN_BIT) as i64;
        if self.bits >= SIGN_BIT {
            -key
        } else {
            key
        }
    }

    /// Whether this is smaller than the other; false where one is no number.
    #[verifier::when_used_as_spec(less_spec)]
    pub fn less(self, other: Binary32) -> (r: bool)
        ensures
            r == self.less_spec(other),
    {
        proof {
            arithmetic::lemma_place(self, other);
        }
        !self.is_nan() && !other.is_nan() && self.place() < other.place()
    }

    /// Whether this is smaller than or equal to the other; false where one is no
    /// number.
    #[verifier::when_used_as_spec(at_most_spec)]
    pub fn at_most(self, other: Binary32) -> (r: bool)
        ensures
            r == self.at_most_spec(other),
    {
        proof {
            arithmetic::lemma_place(self, other);
        }
        !self.is_nan() && !other.is_nan() && self.place() <= other.place()
    }

    /// The whole part, towards zero, kept to the range of `i32`; 0 where this is no
    /// number.
    pub fn truncated(self) -> (r: i32)
        ensures
            r == self.truncated_spec(),
    {
        if self.is_nan() {
            return 0;
        }
        let (sign, m, t) = self.parts();
        proof {
            lemma_parts(self);
        }
        let whole: i64 = if t < 149 {
            let d: u32 = 149 - t;
            if d > 24 {
                proof {
                    arithmetic::lemma_whole_part_small(m as nat, t as nat);
                }
                0
            } else {
                let k: u128 = rounding::power(d);
                proof {
                    arithmetic::lemma_whole_part(m as nat, t as nat);
                    lemma_pow2_pos(d as nat);
                }
                ((m as u128) / k) as i64
            }
        } else if t > 160 {
            proof {
                arithmetic::lemma_whole_part_large(m as nat, t as nat);
            }
            0x1_0000_0000
        } else {
            let k: u128 = rounding::power(t - 149);
            proof {
                arithmetic::lemma_whole_part_large(m as nat, t as nat);
                lemma2_to64();
                rounding::lemma_pow2_monotone((t - 149) as nat, 11);
                assert(m * k < 0x100_0000 * 2048) by (nonlinear_arith)
                    requires
                        0 <= m < 0x100_0000,
                        0 <= k <= 2048,
                ;
            }
            ((m as u128) * k) as i64
        };
        if sign {
            if -whole < -0x8000_0000 {
                i32::MIN
            } else {
                (-whole) as i32
            }
        } else {
            if whole > 0x7FFF_FFFF {
                i32::MAX
            } else {
                whole as i32
            }
        }
    }
}

pub(crate) proof fn lemma_parts(x: Binary32)
    ensures
        x.key() < SIGN_BIT,
        x.bits == x.key() + if x.sign() {
            SIGN_BIT as nat
        } else {
            0
        },
        x.exponent() <= 255,
        x.fraction() < 0x80_0000,
        x.significand() < 0x100_0000,
        x.step() <= 254,
        x.is_finite() ==> x.step() <= 253,
        x.step() > 0 ==> x.significand() >= 0x80_0000,
        x.key() == 0x80_0000 * x.step() + x.significand(),
{
}

pub(crate) proof fn lemma_with_sign(sign: bool, key: nat)
    requires
        key < SIGN_BIT,
    ensures
        Binary32::with_sign(sign, key).sign() == sign,
        Binary32::with_sign(sign, key).key() == key,
{
}

/// Two numbers with equal low bits have the same magnitude, and magnitudes grow
/// with the low bits.
pub(crate) proof fn lemma_magnitude_order(x: Binary32, y: Binary32)
    ensures
        x.key() == y.key() ==> x.magnitude() == y.magnitude(),
        x.key() < y.key() ==> x.magnitude() < y.magnitude(),
{
    lemma_parts(x);
    lemma_parts(y);
    lemma_pow2_pos(x.step());
    lemma_pow2_pos(y.step());
    let (mx, my) = (x.significand(), y.significand());
    let (px, py) = (pow2(x.step()), pow2(y.step()));
    if x.key() < y.key() {
        if x.step() == y.step() {
            assert(mx * px < my * px) by (nonlinear_arith)
                requires
                    mx < my,
                    px > 0,
            ;
        } else {
            assert(x.step() < y.step());
            lemma_pow2_unfold(y.step());
            rounding::lemma_pow2_monotone(x.step(), (y.step() - 1) as nat);
            assert(mx * px < my * py) by (nonlinear_arith)
                requires
                    mx < 0x100_0000,
                    my >= 0x80_0000,
                    2 * px <= py,
                    px > 0,
            ;
        }
    }
}

} // verus!
