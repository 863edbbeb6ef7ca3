//! What rounding keeps: numbers of the grid, the order of values, and the nearest
//! number.
use crate::binary32;
use crate::binary32::{Binary32, ONE_BITS};
use crate::rounding;
use crate::rounding::INFINITY_BITS;
use vstd::arithmetic::div_mod::*;
use vstd::arithmetic::mul::*;
use vstd::arithmetic::power2::*;
use vstd::prelude::*;

verus! {

/// The magnitude of the number with the given low bits, from its steps.
pub(crate) proof fn lemma_key_magnitude(sign: bool, s: nat, m: nat)
    requires
        m <= 0x100_0000,
        s == 0 || m >= 0x80_0000,
        0x80_0000 * s + m <= INFINITY_BITS,
    ensures
        Binary32::with_sign(sign, 0x80_0000 * s + m).magnitude() == m * pow2(s),
        Binary32::with_sign(sign, 0x80_0000 * s + m).sign() == sign,
        Binary32::with_sign(sign, 0x80_0000 * s + m).key() == 0x80_0000 * s + m,
{
    let key = 0x80_0000 * s + m;
    let x = Binary32::with_sign(sign, key);
    binary32::lemma_with_sign(sign, key);
    lemma_pow2_unfold(s + 1);
    if m == 0x100_0000 {
        assert(x.step() == s + 1);
        assert(x.significand() == 0x80_0000);
        assert(0x80_0000 * pow2(s + 1) == 0x100_0000 * pow2(s)) by (nonlinear_arith)
            requires
                pow2(s + 1) == 2 * pow2(s),
        ;
    } else if m >= 0x80_0000 {
        assert(x.step() == s);
        assert(x.significand() == m);
    } else {
        assert(x.step() == 0);
        assert(x.significand() == m);
    }
}

/// A number of the grid is its own rounding.
pub(crate) proof fn lemma_exact(x: Binary32, den: nat)
    requires
        x.is_finite(),
        den > 0,
    ensures
        rounding::round_magnitude(x.magnitude() * den, den) == x.key(),
{
    binary32::lemma_parts(x);
    let m = x.significand();
    let s = x.step();
    let p = pow2(s);
    lemma_pow2_pos(s);
    let d = den * p;
    assert(d > 0) by (nonlinear_arith)
        requires
            d == den * p,
            den > 0,
            p > 0,
    ;
    assert((m * p) * den == m * d) by (nonlinear_arith)
        requires
            d == den * p,
    ;
    assert(m * d < 0x100_0000 * d) by (nonlinear_arith)
        requires
            m < 0x100_0000,
            d > 0,
    ;
    if s > 0 {
        assert(m * d >= 0x80_0000 * d) by (nonlinear_arith)
            requires
                m >= 0x80_0000,
        ;
    }
    rounding::lemma_rank_at(m * d, den, s);
    rounding::lemma_nearest_even_from(m * d, d, m, 0);
}

proof fn lemma_nearest_even_monotone(n1: nat, n2: nat, d: nat)
    requires
        d > 0,
        n1 <= n2,
    ensures
        rounding::nearest_even(n1, d) <= rounding::nearest_even(n2, d),
{
    lemma_fundamental_div_mod(n1 as int, d as int);
    lemma_fundamental_div_mod(n2 as int, d as int);
    let (q1, r1) = (n1 / d, n1 % d);
    let (q2, r2) = (n2 / d, n2 % d);
    assert(q1 < q2 || (q1 == q2 && r1 <= r2)) by (nonlinear_arith)
        requires
            n1 == d * q1 + r1,
            n2 == d * q2 + r2,
            n1 <= n2,
            0 <= r1 < d,
            0 <= r2 < d,
    ;
}

proof fn lemma_rank_large(n: nat, d: nat)
    requires
        d > 0,
        n >= 0x80_0000 * d,
    ensures
        rounding::rank(n, d) >= 0x80_0000,
    decreases n - d,
{
    if n >= 0x100_0000 * d {
        lemma_rank_large(n, 2 * d);
    } else {
        rounding::lemma_nearest_even_from(0x80_0000 * d, d, 0x80_0000, 0);
        lemma_nearest_even_monotone(0x80_0000 * d, n, d);
    }
}

proof fn lemma_rank_monotone(n1: nat, n2: nat, d: nat)
    requires
        d > 0,
        n1 <= n2,
    ensures
        rounding::rank(n1, d) <= rounding::rank(n2, d),
    decreases n2 - d,
{
    if n2 < 0x100_0000 * d {
        lemma_nearest_even_monotone(n1, n2, d);
    } else if n1 < 0x100_0000 * d {
        rounding::lemma_nearest_even_from(0x100_0000 * d, d, 0x100_0000, 0);
        lemma_nearest_even_monotone(n1, 0x100_0000 * d, d);
        lemma_rank_large(n2, 2 * d);
    } else {
        lemma_rank_monotone(n1, n2, 2 * d);
    }
}

/// Of two exact values the smaller one does not round to the larger number.
pub proof fn law_rounding_keeps_order(n1: nat, d1: nat, n2: nat, d2: nat)
    requires
        d1 > 0,
        d2 > 0,
        n1 * d2 <= n2 * d1,
    ensures
        rounding::round_magnitude(n1, d1) <= rounding::round_magnitude(n2, d2),
{
    let d = d1 * d2;
    assert(d > 0) by (nonlinear_arith)
        requires
            d == d1 * d2,
            d1 > 0,
            d2 > 0,
    ;
    lemma_rank_monotone(n1 * d2, n2 * d1, d);
    assert(n1 * d == (n1 * d2) * d1) by (nonlinear_arith)
        requires
            d == d1 * d2,
    ;
    assert(n2 * d == (n2 * d1) * d2) by (nonlinear_arith)
        requires
            d == d1 * d2,
    ;
    rounding::lemma_rank_same(n1, d1, n1 * d2, d);
    rounding::lemma_rank_same(n2, d2, n2 * d1, d);
}

/// The distance of two numbers.
pub open spec fn distance(a: nat, b: nat) -> int {
    if a < b {
        b - a
    } else {
        a - b
    }
}

/// No multiple of `d` is nearer to `n` than the one that `nearest_even` gives, and one
/// that is as near leaves it even.
proof fn lemma_nearest_multiple(n: nat, d: nat, k: nat)
    requires
        d > 0,
    ensures
        distance(rounding::nearest_even(n, d) * d, n) <= distance(k * d, n),
        distance(rounding::nearest_even(n, d) * d, n) == distance(k * d, n) && k
            != rounding::nearest_even(n, d) ==> rounding::nearest_even(n, d) % 2 == 0,
{
    lemma_fundamental_div_mod(n as int, d as int);
    let (q, r) = (n / d, n % d);
    let m = rounding::nearest_even(n, d);
    assert(q * d == d * q) by (nonlinear_arith);
    assert((q + 1) * d == d * q + d) by (nonlinear_arith);
    if k < q {
        assert(k * d <= d * q - d) by (nonlinear_arith)
            requires
                k + 1 <= q,
                d > 0,
        ;
    } else if k > q + 1 {
        assert(k * d >= d * q + 2 * d) by (nonlinear_arith)
            requires
                k >= q + 2,
                d > 0,
        ;
    } else if k == q {
        assert(k * d == d * q);
    } else {
        assert(k * d == d * q + d);
    }
    assert(m == q || m == q + 1);
}

/// The grid step of an exact value, and the rounding in such steps.
pub(crate) proof fn lemma_rank_steps(num: nat, den: nat) -> (s: nat)
    requires
        den > 0,
    ensures
        den * pow2(s) > 0,
        rounding::rank(num, den) == 0x80_0000 * s + rounding::nearest_even(num, den * pow2(s)),
        num < 0x100_0000 * (den * pow2(s)),
        s == 0 || num >= 0x80_0000 * (den * pow2(s)),
        rounding::nearest_even(num, den * pow2(s)) <= 0x100_0000,
        s > 0 ==> rounding::nearest_even(num, den * pow2(s)) >= 0x80_0000,
    decreases num - den,
{
    lemma2_to64();
    if num < 0x100_0000 * den {
        assert(den * pow2(0) == den) by (nonlinear_arith)
            requires
                pow2(0) == 1,
        ;
        rounding::lemma_nearest_even_from(0x100_0000 * den, den, 0x100_0000, 0);
        lemma_nearest_even_monotone(num, 0x100_0000 * den, den);
        0
    } else {
        let s = lemma_rank_steps(num, 2 * den);
        lemma_pow2_unfold(s + 1);
        let p = pow2(s);
        assert(den * pow2(s + 1) == (2 * den) * p) by (nonlinear_arith)
            requires
                pow2(s + 1) == 2 * p,
        ;
        if s == 0 {
            let d = (2 * den) * p;
            assert(d == 2 * den) by (nonlinear_arith)
                requires
                    d == (2 * den) * p,
                    p == 1,
            ;
            rounding::lemma_nearest_even_from(0x80_0000 * d, d, 0x80_0000, 0);
            lemma_nearest_even_monotone(0x80_0000 * d, num, d);
        }
        s + 1
    }
}

/// A rounded number is a nearest one: no finite number is nearer to the exact value,
/// and where another one is as near, the rounded number has the even significand.
pub proof fn law_rounding_is_nearest(sign: bool, num: nat, den: nat, y: Binary32)
    requires
        den > 0,
        Binary32::rounded(sign, num, den).is_finite(),
        y.is_finite(),
    ensures
        Binary32::rounded(sign, num, den).sign() == sign,
        ({
            let x = Binary32::rounded(sign, num, den);
            let dx = distance(x.magnitude() * den, num);
            let dy = distance(y.magnitude() * den, num);
            dx <= dy && (dx == dy && y.key() != x.key() ==> x.significand() % 2 == 0)
        }),
{
    let x = Binary32::rounded(sign, num, den);
    let s = lemma_rank_steps(num, den);
    let p = pow2(s);
    let d = den * p;
    let m = rounding::nearest_even(num, d);
    let key = rounding::round_magnitude(num, den);
    binary32::lemma_with_sign(sign, key);
    lemma_pow2_pos(s);
    lemma_key_magnitude(sign, s, m);
    assert((m * p) * den == m * d) by (nonlinear_arith)
        requires
            d == den * p,
    ;
    binary32::lemma_parts(x);
    binary32::lemma_parts(y);
    let my = y.significand();
    let py = pow2(y.step());
    lemma_pow2_pos(y.step());
    if y.step() >= s {
        let g = pow2((y.step() - s) as nat);
        lemma_pow2_adds((y.step() - s) as nat, s);
        let k = my * g;
        assert((my * py) * den == k * d) by (nonlinear_arith)
            requires
                py == g * p,
                d == den * p,
                k == my * g,
        ;
        lemma_nearest_multiple(num, d, k);
        if k == m {
            assert((my * py) == m * p) by (nonlinear_arith)
                requires
                    py == g * p,
                    m == my * g,
            ;
            binary32::lemma_magnitude_order(x, y);
            binary32::lemma_magnitude_order(y, x);
        }
    } else {
        lemma_pow2_unfold(s);
        rounding::lemma_pow2_monotone(y.step(), (s - 1) as nat);
        assert((my * py) * den < 0x80_0000 * d) by (nonlinear_arith)
            requires
                my < 0x100_0000,
                2 * py <= p,
                py > 0,
                d == den * p,
                den > 0,
        ;
        lemma_nearest_multiple(num, d, 0x80_0000);
    }
}

/// A whole number below `2^24` is a number of the grid.
pub(crate) proof fn lemma_of_int(n: int)
    requires
        -0x100_0000 < n < 0x100_0000,
    ensures
        Binary32::of_int(n).is_finite(),
        Binary32::of_int(n).sign() == (n < 0),
        Binary32::of_int(n).units() == n * pow2(149),
        n >= 0 ==> Binary32::of_int(n).magnitude() == n * pow2(149),
{
    lemma2_to64();
    let a: nat = (if n < 0 {
        -n
    } else {
        n
    }) as nat;
    let one = pow2(149);
    let num = a * one;
    let s = lemma_rank_steps(num, 1);
    lemma_pow2_pos(149);
    assert(num < 0x100_0000 * one) by (nonlinear_arith)
        requires
            num == a * one,
            a < 0x100_0000,
            one > 0,
    ;
    if s > 149 {
        lemma_pow2_unfold(150);
        rounding::lemma_pow2_monotone(150, s);
    }
    let g = pow2((149 - s) as nat);
    let p = pow2(s);
    lemma_pow2_adds((149 - s) as nat, s);
    lemma_pow2_pos(s);
    assert(num == (a * g) * p + 0) by (nonlinear_arith)
        requires
            num == a * one,
            one == g * p,
    ;
    assert(1 * p == p);
    rounding::lemma_nearest_even_from(num, p, a * g, 0);
    lemma_key_magnitude(n < 0, s, a * g);
    assert(-(a * one) == -a * one) by (nonlinear_arith);
    binary32::lemma_parts(Binary32::of_int(n));
}

/// A finite number from `lo` to `hi`.
pub open spec fn within(x: Binary32, lo: int, hi: int) -> bool {
    x.is_finite() && lo * pow2(149) <= x.units() <= hi * pow2(149)
}

/// A value of at most `hi` rounds to a number of at most `hi`.
pub(crate) proof fn lemma_rounded_at_most(sign: bool, num: nat, den: nat, hi: nat)
    requires
        den > 0,
        hi < 0x100_0000,
        num <= (hi * pow2(149)) * den,
    ensures
        Binary32::rounded(sign, num, den).is_finite(),
        Binary32::rounded(sign, num, den).sign() == sign,
        Binary32::rounded(sign, num, den).magnitude() <= hi * pow2(149),
{
    let b = hi * pow2(149);
    assert(num * 1 <= b * den);
    law_rounding_keeps_order(num, den, b, 1);
    lemma_of_int(hi as int);
    let top = Binary32::of_int(hi as int);
    let x = Binary32::rounded(sign, num, den);
    binary32::lemma_parts(top);
    binary32::lemma_with_sign(false, rounding::round_magnitude(b, 1));
    binary32::lemma_with_sign(sign, rounding::round_magnitude(num, den));
    binary32::lemma_magnitude_order(top, x);
    binary32::lemma_magnitude_order(x, top);
}

/// Of two numbers with the same sign, the one with the lower bits is nearer to zero.
proof fn lemma_units_order(x: Binary32, y: Binary32)
    requires
        x.sign() == y.sign(),
        x.key() <= y.key(),
    ensures
        x.sign() ==> y.units() <= x.units() <= 0,
        !x.sign() ==> 0 <= x.units() <= y.units(),
{
    binary32::lemma_magnitude_order(x, y);
}

/// Exact sums that are in order stay in order when they are rounded.
pub(crate) proof fn lemma_plus_order(x: Binary32, y: Binary32, v: Binary32, w: Binary32)
    requires
        x.is_finite(),
        y.is_finite(),
        v.is_finite(),
        w.is_finite(),
        x.units() + y.units() <= v.units() + w.units(),
    ensures
        x.plus(y).at_most(v.plus(w)),
{
    let low = x.units() + y.units();
    let high = v.units() + w.units();
    let a = x.plus(y);
    let b = v.plus(w);
    lemma_sum(x, y);
    lemma_sum(v, w);
    if low > 0 {
        law_rounding_keeps_order(low as nat, 1, high as nat, 1);
        lemma_units_order(a, b);
    } else if high < 0 {
        law_rounding_keeps_order((-high) as nat, 1, (-low) as nat, 1);
        lemma_units_order(b, a);
    }
}

/// A sum is a number, and its sign is that of the exact sum.
pub(crate) proof fn lemma_sum(x: Binary32, y: Binary32)
    requires
        x.is_finite(),
        y.is_finite(),
    ensures
        ({
            let sum = x.units() + y.units();
            let r = x.plus(y);
            &&& !r.is_nan()
            &&& sum > 0 ==> !r.sign() && r.units() >= 0 && r.key() == rounding::round_magnitude(
                sum as nat,
                1,
            )
            &&& sum < 0 ==> r.sign() && r.units() <= 0 && r.key() == rounding::round_magnitude(
                (-sum) as nat,
                1,
            )
            &&& sum == 0 ==> r.units() == 0 && r.key() == 0
        }),
{
    reveal(Binary32::plus_spec);
    let sum = x.units() + y.units();
    let r = x.plus(y);
    if sum > 0 {
        binary32::lemma_with_sign(false, rounding::round_magnitude(sum as nat, 1));
    } else if sum < 0 {
        binary32::lemma_with_sign(true, rounding::round_magnitude((-sum) as nat, 1));
    } else {
        binary32::lemma_with_sign(x.sign() && y.sign(), 0);
        lemma_zero(r);
    }
}

/// A product with a number that is not negative is a number, and its sign is that of the
/// other factor.
pub(crate) proof fn lemma_product(x: Binary32, c: Binary32)
    requires
        x.is_finite(),
        c.is_finite(),
        !c.sign(),
    ensures
        !x.times(c).is_nan(),
        x.times(c).sign() == x.sign(),
        x.times(c).key() == rounding::round_magnitude(x.magnitude() * c.magnitude(), pow2(149)),
        c.times(x) == x.times(c),
        x.times(c).sign() ==> x.times(c).units() <= 0,
        !x.times(c).sign() ==> x.times(c).units() >= 0,
{
    reveal(Binary32::times_spec);
    lemma_mul_is_commutative(x.magnitude() as int, c.magnitude() as int);
    binary32::lemma_with_sign(
        x.sign(),
        rounding::round_magnitude(x.magnitude() * c.magnitude(), pow2(149)),
    );
}

/// Numbers that are in order stay in order when they are multiplied by one that is not
/// negative.
pub(crate) proof fn lemma_times_order(x: Binary32, y: Binary32, c: Binary32)
    requires
        x.is_finite(),
        y.is_finite(),
        c.is_finite(),
        !c.sign(),
        x.units() <= y.units(),
    ensures
        x.times(c).at_most(y.times(c)),
        c.times(x).at_most(c.times(y)),
{
    let k = c.magnitude();
    let one = pow2(149);
    lemma_pow2_pos(149);
    lemma_product(x, c);
    lemma_product(y, c);
    let (mx, my) = (x.magnitude(), y.magnitude());
    if !x.sign() && !y.sign() {
        assert((mx * k) * one <= (my * k) * one) by (nonlinear_arith)
            requires
                mx <= my,
        ;
        law_rounding_keeps_order(mx * k, one, my * k, one);
        lemma_units_order(x.times(c), y.times(c));
    } else if x.sign() && y.sign() {
        assert((my * k) * one <= (mx * k) * one) by (nonlinear_arith)
            requires
                my <= mx,
        ;
        law_rounding_keeps_order(my * k, one, mx * k, one);
        lemma_units_order(y.times(c), x.times(c));
    } else if !x.sign() {
        assert(mx * k == 0 && my * k == 0) by (nonlinear_arith)
            requires
                mx == 0,
                my == 0,
        ;
        rounding::lemma_nearest_even_from(0, one, 0, 0);
        lemma_zero(x.times(c));
        lemma_zero(y.times(c));
    }
}

/// Numbers that are in order have whole parts that are in order.
pub(crate) proof fn lemma_truncated_order(x: Binary32, y: Binary32)
    requires
        x.at_most(y),
    ensures
        x.truncated_spec() <= y.truncated_spec(),
{
    let one = pow2(149) as int;
    lemma_pow2_pos(149);
    let (mx, my) = (x.magnitude() as int, y.magnitude() as int);
    lemma_div_pos_is_pos(mx, one);
    lemma_div_pos_is_pos(my, one);
    if mx <= my {
        lemma_div_is_ordered(mx, my, one);
    } else {
        lemma_div_is_ordered(my, mx, one);
    }
    if !x.sign() && y.sign() {
        assert(mx == 0 && my == 0);
        lemma_basic_div(0, one);
    }
}

/// A number between finite ones is finite.
proof fn lemma_between(low: Binary32, x: Binary32, high: Binary32)
    requires
        low.is_finite(),
        high.is_finite(),
        low.at_most(x),
        x.at_most(high),
    ensures
        x.is_finite(),
{
    binary32::lemma_parts(x);
    binary32::lemma_parts(low);
    binary32::lemma_parts(high);
    binary32::lemma_magnitude_order(low, x);
    binary32::lemma_magnitude_order(high, x);
}

/// A sum of whole numbers is exact.
proof fn lemma_whole_sum(a: int, b: int)
    requires
        -0x100_0000 < a < 0x100_0000,
        -0x100_0000 < b < 0x100_0000,
        -0x100_0000 < a + b < 0x100_0000,
    ensures
        Binary32::of_int(a).plus(Binary32::of_int(b)).is_finite(),
        Binary32::of_int(a).plus(Binary32::of_int(b)).units() == (a + b) * pow2(149),
{
    let one = pow2(149);
    lemma_pow2_pos(149);
    lemma_of_int(a);
    lemma_of_int(b);
    lemma_of_int(a + b);
    lemma_sum(Binary32::of_int(a), Binary32::of_int(b));
    assert((a + b) * one == a * one + b * one) by (nonlinear_arith);
    assert((-(a + b)) * one == -((a + b) * one)) by (nonlinear_arith);
    if a + b > 0 {
        assert((a + b) * one > 0) by (nonlinear_arith)
            requires
                a + b > 0,
                one > 0,
        ;
    } else if a + b < 0 {
        assert((a + b) * one < 0) by (nonlinear_arith)
            requires
                a + b < 0,
                one > 0,
        ;
    } else {
        assert((a + b) * one == 0) by (nonlinear_arith)
            requires
                a + b == 0,
        ;
    }
}

/// A product of whole numbers is exact.
proof fn lemma_whole_product(a: int, c: int)
    requires
        -0x100_0000 < a < 0x100_0000,
        0 < c < 0x100_0000,
        -0x100_0000 < a * c < 0x100_0000,
    ensures
        Binary32::of_int(a).times(Binary32::of_int(c)).is_finite(),
        Binary32::of_int(a).times(Binary32::of_int(c)).units() == (a * c) * pow2(149),
{
    let one = pow2(149);
    let m: nat = (if a < 0 {
        -a
    } else {
        a
    }) as nat;
    lemma_pow2_pos(149);
    lemma_of_int(a);
    lemma_of_int(c);
    lemma_of_int(a * c);
    let x = Binary32::of_int(a);
    let y = Binary32::of_int(c);
    let z = Binary32::of_int(a * c);
    lemma_product(x, y);
    assert(-(a * one) == (-a) * one) by (nonlinear_arith);
    assert(x.magnitude() == m * one);
    assert((-a) * c == -(a * c)) by (nonlinear_arith);
    assert((a * c < 0) == (a < 0)) by (nonlinear_arith)
        requires
            c > 0,
    ;
    let n = m * c as nat;
    assert(((m * one) * (c * one)) * 1 == (n * one) * one) by (nonlinear_arith)
        requires
            n == m * c,
    ;
    rounding::lemma_rank_same((m * one) * (c as nat * one), one, n * one, 1);
    binary32::lemma_with_sign(a * c < 0, rounding::round_magnitude(n * one, 1));
    binary32::lemma_magnitude_order(x.times(y), z);
}

/// A sum is within the sums of the bounds.
pub(crate) proof fn lemma_plus_within(x: Binary32, a: int, b: int, y: Binary32, c: int, d: int)
    requires
        within(x, a, b),
        within(y, c, d),
        -0x100_0000 < a <= b < 0x100_0000,
        -0x100_0000 < c <= d < 0x100_0000,
        -0x100_0000 < a + c,
        b + d < 0x100_0000,
    ensures
        within(x.plus(y), a + c, b + d),
{
    lemma_of_int(a);
    lemma_of_int(b);
    lemma_of_int(c);
    lemma_of_int(d);
    let low = Binary32::of_int(a).plus(Binary32::of_int(c));
    let high = Binary32::of_int(b).plus(Binary32::of_int(d));
    lemma_plus_order(Binary32::of_int(a), Binary32::of_int(c), x, y);
    lemma_plus_order(x, y, Binary32::of_int(b), Binary32::of_int(d));
    lemma_whole_sum(a, c);
    lemma_whole_sum(b, d);
    lemma_between(low, x.plus(y), high);
}

/// A product with a positive whole number is within the products of the bounds.
pub(crate) proof fn lemma_times_within(x: Binary32, a: int, b: int, c: int)
    requires
        within(x, a, b),
        -0x100_0000 < a <= b < 0x100_0000,
        0 < c < 0x100_0000,
        -0x100_0000 < a * c,
        b * c < 0x100_0000,
    ensures
        within(x.times(Binary32::of_int(c)), a * c, b * c),
        within(Binary32::of_int(c).times(x), a * c, b * c),
{
    let k = Binary32::of_int(c);
    lemma_of_int(a);
    lemma_of_int(b);
    lemma_of_int(c);
    assert(a * c <= b * c) by (nonlinear_arith)
        requires
            a <= b,
            c > 0,
    ;
    lemma_times_order(Binary32::of_int(a), x, k);
    lemma_times_order(x, Binary32::of_int(b), k);
    lemma_whole_product(a, c);
    lemma_whole_product(b, c);
    lemma_between(Binary32::of_int(a).times(k), x.times(k), Binary32::of_int(b).times(k));
    lemma_product(x, k);
}

/// A finite number of absolute value at most `2^e`.
pub open spec fn below_power(x: Binary32, e: nat) -> bool {
    x.is_finite() && x.magnitude() <= pow2(149 + e)
}

/// A value of at most `2^e` rounds to a number of at most `2^e`.
pub(crate) proof fn lemma_rounded_power(sign: bool, num: nat, den: nat, e: nat)
    requires
        den > 0,
        e <= 100,
        num <= pow2(149 + e) * den,
    ensures
        below_power(Binary32::rounded(sign, num, den), e),
        Binary32::rounded(sign, num, den).sign() == sign,
{
    lemma2_to64();
    let top = Binary32::with_sign(false, 0x80_0000 * (126 + e) + 0x80_0000);
    let x = Binary32::rounded(sign, num, den);
    lemma_key_magnitude(false, 126 + e, 0x80_0000);
    lemma_pow2_adds(23, 126 + e);
    lemma_exact(top, 1);
    law_rounding_keeps_order(num, den, top.magnitude() * 1, 1);
    binary32::lemma_with_sign(sign, rounding::round_magnitude(num, den));
    binary32::lemma_parts(x);
    binary32::lemma_magnitude_order(x, top);
}

pub(crate) proof fn lemma_plus_power(x: Binary32, y: Binary32, e: nat)
    requires
        below_power(x, e),
        below_power(y, e),
        e < 100,
    ensures
        below_power(x.plus(y), e + 1),
{
    reveal(Binary32::plus_spec);
    lemma_pow2_unfold(150 + e);
    let sum = x.units() + y.units();
    if sum > 0 {
        assert(sum as nat <= pow2(150 + e) * 1);
        lemma_rounded_power(false, sum as nat, 1, e + 1);
    } else if sum < 0 {
        assert((-sum) as nat <= pow2(150 + e) * 1);
        lemma_rounded_power(true, (-sum) as nat, 1, e + 1);
    } else {
        lemma_sum(x, y);
        lemma_zero(x.plus(y));
        binary32::lemma_parts(x.plus(y));
    }
}

/// A product with a whole number from 1 to 128.
pub(crate) proof fn lemma_times_power(x: Binary32, c: int, e: nat)
    requires
        below_power(x, e),
        1 <= c <= 128,
        e <= 93,
    ensures
        below_power(x.times(Binary32::of_int(c)), e + 7),
        below_power(Binary32::of_int(c).times(x), e + 7),
{
    reveal(Binary32::times_spec);
    lemma2_to64();
    let one = pow2(149);
    let m = x.magnitude();
    let y = Binary32::of_int(c);
    lemma_pow2_pos(149);
    lemma_of_int(c);
    lemma_product(x, y);
    lemma_pow2_adds(7, 149 + e);
    assert(m * (c as nat * one) <= pow2(156 + e) * one) by (nonlinear_arith)
        requires
            m <= pow2(149 + e),
            pow2(156 + e) == 128 * pow2(149 + e),
            1 <= c <= 128,
    ;
    lemma_rounded_power(x.sign(), m * y.magnitude(), one, e + 7);
}

/// A whole number that fits 32 bits does not round to infinity, nor a positive one to
/// zero, and rounding keeps the order.
pub(crate) proof fn lemma_of_count(n: u32, limit: u32)
    requires
        n <= limit,
        limit > 0,
    ensures
        Binary32::of_int(n as int).is_finite(),
        !Binary32::of_int(n as int).sign(),
        Binary32::of_int(n as int).magnitude() <= Binary32::of_int(limit as int).magnitude(),
        Binary32::of_int(limit as int).is_finite(),
        !Binary32::of_int(limit as int).sign(),
        Binary32::of_int(limit as int).key() > 0,
        Binary32::of_int(limit as int).magnitude() > 0,
{
    lemma2_to64();
    let one = pow2(149);
    lemma_pow2_pos(149);
    let top = Binary32 { bits: 0x4F80_0000 };
    lemma_exact(top, 1);
    assert(top.significand() == 0x80_0000);
    assert(top.step() == 158);
    lemma_pow2_adds(9, 149);
    assert(top.magnitude() == 0x1_0000_0000 * one) by (nonlinear_arith)
        requires
            top.magnitude() == 0x80_0000 * pow2(158),
            pow2(158) == 512 * one,
    ;
    let x = Binary32::of_int(n as int);
    let y = Binary32::of_int(limit as int);
    assert(n as nat * one <= limit as nat * one) by (nonlinear_arith)
        requires
            n <= limit,
    ;
    assert(limit as nat * one <= 0x1_0000_0000 * one) by (nonlinear_arith)
        requires
            limit <= 0x1_0000_0000,
    ;
    assert(1 * one <= limit as nat * one) by (nonlinear_arith)
        requires
            1 <= limit,
    ;
    law_rounding_keeps_order(n as nat * one, 1, limit as nat * one, 1);
    law_rounding_keeps_order(limit as nat * one, 1, top.magnitude() * 1, 1);
    law_rounding_keeps_order(1 * one, 1, limit as nat * one, 1);
    lemma_of_int(1);
    let unit = Binary32::of_int(1);
    let zero = Binary32 { bits: 0 };
    assert(zero.magnitude() == 0) by (nonlinear_arith)
        requires
            zero.magnitude() == zero.significand() * pow2(zero.step()),
            zero.significand() == 0,
    ;
    assert(zero.key() == 0);
    binary32::lemma_parts(unit);
    binary32::lemma_magnitude_order(unit, zero);
    binary32::lemma_magnitude_order(x, y);
    binary32::lemma_magnitude_order(zero, y);
    binary32::lemma_parts(x);
    binary32::lemma_parts(y);
}

/// The part that a count is of a total not below it is from 0 to 1.
pub(crate) proof fn lemma_share_within(count: u32, total: u32)
    requires
        count <= total,
        total > 0,
    ensures
        within(Binary32::of_int(count as int).over(Binary32::of_int(total as int)), 0, 1),
{
    reveal(Binary32::over_spec);
    lemma_of_count(count, total);
    let x = Binary32::of_int(count as int);
    let y = Binary32::of_int(total as int);
    let one = pow2(149);
    lemma_pow2_pos(149);
    assert(x.magnitude() * one <= (1 * one) * y.magnitude()) by (nonlinear_arith)
        requires
            x.magnitude() <= y.magnitude(),
    ;
    lemma_rounded_at_most(false, x.magnitude() * one, y.magnitude(), 1);
}

/// The whole part of a whole number is the number.
proof fn lemma_truncated_whole(x: Binary32, n: int)
    requires
        x.is_finite(),
        x.units() == n * pow2(149),
        -0x8000_0000 <= n <= 0x7FFF_FFFF,
    ensures
        x.truncated_spec() == n,
{
    let one = pow2(149) as int;
    lemma_pow2_pos(149);
    assert((-n) * one == -(n * one)) by (nonlinear_arith);
    if x.sign() {
        lemma_div_multiples_vanish(-n, one);
        lemma_mul_is_commutative(-n, one);
    } else {
        lemma_div_multiples_vanish(n, one);
        lemma_mul_is_commutative(n, one);
    }
}

/// The whole part of a number is within the number's bounds.
pub(crate) proof fn lemma_truncated_within(x: Binary32, lo: int, hi: int)
    requires
        within(x, lo, hi),
        -0x100_0000 < lo <= hi < 0x100_0000,
    ensures
        lo <= x.truncated_spec() <= hi,
{
    lemma_of_int(lo);
    lemma_of_int(hi);
    lemma_truncated_whole(Binary32::of_int(lo), lo);
    lemma_truncated_whole(Binary32::of_int(hi), hi);
    lemma_truncated_order(Binary32::of_int(lo), x);
    lemma_truncated_order(x, Binary32::of_int(hi));
}

/// Twice a whole number rounds to twice the number it rounds to.
pub(crate) proof fn lemma_of_double(n: u32)
    requires
        2 * n <= u32::MAX,
    ensures
        Binary32::of_int(2 * n).magnitude() == 2 * Binary32::of_int(n as int).magnitude(),
{
    lemma2_to64();
    let one = pow2(149);
    let x = Binary32::of_int(n as int);
    let y = Binary32::of_int(2 * n);
    if n == 0 {
        lemma_of_int(0);
        assert(0 * one == 0);
    } else {
        let num = n as nat * one;
        let twice = (2 * n) as nat * one;
        rounding::lemma_pow2_monotone(24, 149);
        assert(twice == 2 * num && num >= 0x100_0000) by (nonlinear_arith)
            requires
                num == n * one,
                twice == (2 * n) * one,
                n >= 1,
                one >= 0x100_0000,
        ;
        rounding::lemma_rank_scale(num, 1, 2);
        assert(rounding::rank(twice, 1) == 0x80_0000 + rounding::rank(num, 1));
        lemma_rank_large(num, 1);
        lemma_of_count(n, n);
        lemma_of_count((2 * n) as u32, (2 * n) as u32);
        binary32::lemma_with_sign(false, rounding::round_magnitude(num, 1));
        binary32::lemma_with_sign(false, rounding::round_magnitude(twice, 1));
        binary32::lemma_parts(x);
        binary32::lemma_parts(y);
        assert(y.key() == x.key() + 0x80_0000);
        lemma_pow2_unfold(x.step() + 1);
        assert(y.step() == x.step() + 1);
        assert(y.significand() == x.significand());
        let (m, p) = (x.significand(), pow2(x.step()));
        assert(m * (2 * p) == 2 * (m * p)) by (nonlinear_arith);
    }
}

/// The part that a count is of a total is never less for the higher one of two counts.
pub(crate) proof fn lemma_share_order(low: u32, high: u32, total: u32)
    requires
        low <= high,
        total > 0,
    ensures
        Binary32::of_int(low as int).over(Binary32::of_int(total as int)).at_most(
            Binary32::of_int(high as int).over(Binary32::of_int(total as int)),
        ),
{
    reveal(Binary32::over_spec);
    let x = Binary32::of_int(low as int);
    let y = Binary32::of_int(high as int);
    let z = Binary32::of_int(total as int);
    let one = pow2(149);
    if high > 0 {
        lemma_of_count(low, high);
    } else {
        lemma_of_int(0);
    }
    lemma_of_count(total, total);
    let (n1, n2, d) = (x.magnitude() * one, y.magnitude() * one, z.magnitude());
    assert(n1 * d <= n2 * d) by (nonlinear_arith)
        requires
            n1 == x.magnitude() * one,
            n2 == y.magnitude() * one,
            x.magnitude() <= y.magnitude(),
    ;
    law_rounding_keeps_order(n1, d, n2, d);
    binary32::lemma_with_sign(false, rounding::round_magnitude(n1, d));
    binary32::lemma_with_sign(false, rounding::round_magnitude(n2, d));
    lemma_units_order(x.over(z), y.over(z));
}

/// The part that a count is of a total is at most `2^32`.
pub(crate) proof fn lemma_share_power(count: u32, total: u32)
    requires
        total > 0,
    ensures
        below_power(Binary32::of_int(count as int).over(Binary32::of_int(total as int)), 32),
{
    reveal(Binary32::over_spec);
    lemma2_to64();
    let one = pow2(149);
    let x = Binary32::of_int(count as int);
    let y = Binary32::of_int(total as int);
    lemma_pow2_adds(32, 149);
    assert(count as nat * one <= pow2(181) * 1) by (nonlinear_arith)
        requires
            count <= 0x1_0000_0000,
            pow2(181) == 0x1_0000_0000 * one,
    ;
    lemma_rounded_power(false, count as nat * one, 1, 32);
    lemma_of_count(1, total);
    lemma_of_int(1);
    assert(1 * one == one);
    let (a, b) = (x.magnitude(), y.magnitude());
    assert(a * one <= pow2(181) * b) by (nonlinear_arith)
        requires
            a <= pow2(181),
            one <= b,
    ;
    lemma_rounded_power(false, a * one, b, 32);
}

/// A count is the same part of a total as twice the count is of twice the total.
pub(crate) proof fn lemma_share_double(count: u32, total: u32)
    requires
        2 * count <= u32::MAX,
        0 < total,
        2 * total <= u32::MAX,
    ensures
        Binary32::of_int(2 * count).over(Binary32::of_int(2 * total)) == Binary32::of_int(
            count as int,
        ).over(Binary32::of_int(total as int)),
{
    reveal(Binary32::over_spec);
    let x = Binary32::of_int(count as int);
    let y = Binary32::of_int(total as int);
    let v = Binary32::of_int(2 * count);
    let w = Binary32::of_int(2 * total);
    let one = pow2(149);
    lemma_of_double(count);
    lemma_of_double(total);
    lemma_of_count(total, total);
    lemma_of_count((2 * total) as u32, (2 * total) as u32);
    if count > 0 {
        lemma_of_count(count, count);
        lemma_of_count((2 * count) as u32, (2 * count) as u32);
    } else {
        lemma_of_int(0);
    }
    let (a, b) = (x.magnitude(), y.magnitude());
    assert(((2 * a) * one) * b == (a * one) * (2 * b)) by (nonlinear_arith);
    rounding::lemma_rank_same((2 * a) * one, 2 * b, a * one, b);
}

/// A quotient is below a number of the grid if its exact value is at most the number
/// before it, and is not if its exact value is at least the number.
pub(crate) proof fn lemma_share_below(count: u32, total: u32, limit: Binary32, before: Binary32)
    requires
        total > 0,
        limit.is_finite(),
        !limit.sign(),
        before.is_finite(),
        !before.sign(),
        before.key() < limit.key(),
    ensures
        ({
            let x = Binary32::of_int(count as int);
            let y = Binary32::of_int(total as int);
            &&& x.magnitude() * pow2(149) <= before.magnitude() * y.magnitude() ==> x.over(y).less(
                limit,
            )
            &&& limit.magnitude() * y.magnitude() <= x.magnitude() * pow2(149) ==> !x.over(y).less(
                limit,
            )
        }),
{
    reveal(Binary32::over_spec);
    let x = Binary32::of_int(count as int);
    let y = Binary32::of_int(total as int);
    let one = pow2(149);
    lemma_of_count(total, total);
    if count > 0 {
        lemma_of_count(count, count);
    } else {
        lemma_of_int(0);
    }
    let q = x.over(y);
    let (n, d) = (x.magnitude() * one, y.magnitude());
    binary32::lemma_with_sign(false, rounding::round_magnitude(n, d));
    lemma_exact(limit, 1);
    lemma_exact(before, 1);
    binary32::lemma_magnitude_order(before, limit);
    if n <= before.magnitude() * d {
        assert(n * 1 <= (before.magnitude() * 1) * d);
        law_rounding_keeps_order(n, d, before.magnitude() * 1, 1);
        lemma_units_order(q, before);
    }
    if limit.magnitude() * d <= n {
        assert((limit.magnitude() * 1) * d <= n * 1);
        law_rounding_keeps_order(limit.magnitude() * 1, 1, n, d);
        lemma_units_order(limit, q);
    }
}

/// A count is below a quarter of a total, in rounded arithmetic, exactly if it is.
pub(crate) proof fn lemma_share_below_quarter(count: u32, total: u32)
    requires
        0 < total < 0x100_0000,
    ensures
        Binary32::of_int(count as int).over(Binary32::of_int(total as int)).less(
            Binary32 { bits: 0x3E80_0000 },
        ) <==> 4 * count < total,
{
    lemma2_to64();
    let limit = Binary32 { bits: 0x3E80_0000 };
    let before = Binary32 { bits: 0x3E7F_FFFF };
    let x = Binary32::of_int(count as int);
    let y = Binary32::of_int(total as int);
    let one = pow2(149);
    let p = pow2(123);
    lemma_pow2_adds(26, 123);
    lemma_pow2_adds(1, 123);
    lemma_pow2_pos(123);
    assert(limit.significand() == 0x80_0000 && limit.step() == 124);
    assert(before.significand() == 0xFF_FFFF && before.step() == 123);
    lemma_share_below(count, total, limit, before);
    lemma_of_int(total as int);
    if 4 * count < total {
        lemma_of_int(count as int);
        assert((count * one) * one <= (0xFF_FFFF * p) * (total * one)) by (nonlinear_arith)
            requires
                one == 0x400_0000 * p,
                p > 0,
                0 <= 4 * count,
                4 * count + 1 <= total < 0x100_0000,
        ;
    } else {
        let quarter: u32 = ((total + 3) / 4) as u32;
        let double: u32 = (2 * quarter) as u32;
        lemma_of_count(quarter, count);
        lemma_of_double(quarter);
        lemma_of_double(double);
        lemma_of_count(total, (2 * double) as u32);
        let (a, b) = (x.magnitude(), y.magnitude());
        assert((0x100_0000 * p) * b <= a * one) by (nonlinear_arith)
            requires
                one == 0x400_0000 * p,
                b <= 4 * a,
                p > 0,
        ;
    }
}

/// A count is below four times a total, in rounded arithmetic, exactly if it is.
pub(crate) proof fn lemma_share_below_four(count: u32, total: u32)
    requires
        0 < total <= 0x40_0000,
    ensures
        Binary32::of_int(count as int).over(Binary32::of_int(total as int)).less(
            Binary32::of_int(4),
        ) <==> count < 4 * total,
{
    lemma2_to64();
    let limit = Binary32::of_int(4);
    let four = Binary32 { bits: 0x4080_0000 };
    let before = Binary32 { bits: 0x407F_FFFF };
    let x = Binary32::of_int(count as int);
    let y = Binary32::of_int(total as int);
    let one = pow2(149);
    let p = pow2(127);
    lemma_pow2_adds(22, 127);
    lemma_pow2_adds(1, 127);
    lemma_pow2_pos(127);
    assert(four.significand() == 0x80_0000 && four.step() == 128);
    assert(before.significand() == 0xFF_FFFF && before.step() == 127);
    lemma_of_int(4);
    binary32::lemma_magnitude_order(limit, four);
    binary32::lemma_magnitude_order(four, limit);
    assert(limit.key() == four.key());
    lemma_share_below(count, total, limit, before);
    lemma_of_int(total as int);
    if count < 4 * total {
        lemma_of_int(count as int);
        assert((count * one) * one <= (0xFF_FFFF * p) * (total * one)) by (nonlinear_arith)
            requires
                one == 0x40_0000 * p,
                p > 0,
                0 <= count,
                count + 1 <= 4 * total,
                total <= 0x40_0000,
        ;
    } else {
        let double: u32 = (2 * total) as u32;
        lemma_of_double(total);
        lemma_of_double(double);
        lemma_of_count((2 * double) as u32, count);
        let (a, b) = (x.magnitude(), y.magnitude());
        assert((4 * one) * b <= a * one) by (nonlinear_arith)
            requires
                4 * b <= a,
        ;
    }
}

pub(crate) proof fn lemma_zero(x: Binary32)
    ensures
        x.key() == 0 ==> x.magnitude() == 0 && x.units() == 0,
        x.key() > 0 ==> x.magnitude() > 0,
        (Binary32 { bits: 0 }).key() == 0,
        (Binary32 { bits: 0 }).units() == 0,
        !(Binary32 { bits: 0 }).sign(),
        Binary32::zero(false) == (Binary32 { bits: 0 }),
{
    let zero = Binary32 { bits: 0 };
    assert(zero.magnitude() == 0) by (nonlinear_arith)
        requires
            zero.magnitude() == zero.significand() * pow2(zero.step()),
            zero.significand() == 0,
    ;
    assert(zero.key() == 0);
    binary32::lemma_magnitude_order(zero, x);
}

/// A sum with zero is the other number.
pub(crate) proof fn lemma_plus_zero(x: Binary32, zero: Binary32)
    requires
        x.is_finite(),
        x.key() > 0,
        zero.key() == 0,
    ensures
        x.plus(zero) == x,
        zero.plus(x) == x,
{
    reveal(Binary32::plus_spec);
    lemma_zero(x);
    lemma_zero(zero);
    lemma_exact(x, 1);
    binary32::lemma_parts(x);
    assert(x.magnitude() * 1 == x.magnitude());
    assert(zero.is_finite());
}

/// A finite number less itself is zero.
pub(crate) proof fn lemma_minus_self(x: Binary32)
    requires
        x.is_finite(),
    ensures
        x.minus(x) == (Binary32 { bits: 0 }),
{
    reveal(Binary32::plus_spec);
    let y = x.negated();
    binary32::lemma_parts(x);
    binary32::lemma_with_sign(!x.sign(), x.key());
    binary32::lemma_magnitude_order(x, y);
    lemma_zero(x);
    assert(y.is_finite());
}

/// One, as a whole number and as a bit pattern.
pub(crate) proof fn lemma_one()
    ensures
        Binary32::of_int(1) == (Binary32 { bits: ONE_BITS }),
        (Binary32 { bits: ONE_BITS }).magnitude() == pow2(149),
        (Binary32 { bits: ONE_BITS }).is_finite(),
{
    let one = Binary32 { bits: ONE_BITS };
    let n = Binary32::of_int(1);
    lemma2_to64();
    lemma_pow2_adds(23, 126);
    assert(one.significand() == 0x80_0000);
    assert(one.step() == 126);
    lemma_of_int(1);
    assert(1 * pow2(149) == pow2(149));
    binary32::lemma_magnitude_order(one, n);
    binary32::lemma_magnitude_order(n, one);
    binary32::lemma_parts(n);
    binary32::lemma_parts(one);
    assert(n.magnitude() == one.magnitude());
    assert(n.key() == one.key());
    assert(!one.sign());
    assert(n.bits == one.bits);
}

/// A finite number over one is the number.
pub(crate) proof fn lemma_over_one(x: Binary32)
    requires
        x.is_finite(),
    ensures
        x.over(Binary32 { bits: ONE_BITS }) == x,
{
    reveal(Binary32::over_spec);
    lemma_one();
    lemma_pow2_pos(149);
    lemma_exact(x, pow2(149));
    binary32::lemma_parts(x);
}

/// A quotient with an exact value of at least one unit is not zero.
pub(crate) proof fn lemma_rounded_positive(sign: bool, num: nat, den: nat)
    requires
        den > 0,
        num >= den,
    ensures
        Binary32::rounded(sign, num, den).key() > 0,
{
    law_rounding_keeps_order(1, 1, num, den);
    rounding::lemma_nearest_even_from(1, 1, 1, 0);
    binary32::lemma_with_sign(sign, rounding::round_magnitude(num, den));
}

/// The bit pattern of the number nearest to `num / den`, from its parts.
pub(crate) proof fn lemma_nearest_pattern(num: nat, den: nat, s: nat, m: nat, r: nat)
    requires
        den > 0,
        s <= 149,
        0x80_0000 <= m < 0x100_0000,
        num * pow2((149 - s) as nat) == m * den + r,
        2 * r < den || (2 * r > den && r < den && m + 1 < 0x100_0000),
    ensures
        rounding::round_magnitude(num * pow2(149), den) == 0x80_0000 * s + if 2 * r < den {
            m
        } else {
            m + 1
        },
{
    let g = pow2((149 - s) as nat);
    let p = pow2(s);
    lemma_pow2_adds((149 - s) as nat, s);
    lemma_pow2_pos(s);
    let d = den * p;
    assert(d > 0) by (nonlinear_arith)
        requires
            d == den * p,
            den > 0,
            p > 0,
    ;
    let n = num * pow2(149);
    assert(n == m * d + r * p) by (nonlinear_arith)
        requires
            n == num * (g * p),
            num * g == m * den + r,
            d == den * p,
    ;
    assert(r * p < d && r * p >= 0) by (nonlinear_arith)
        requires
            d == den * p,
            r < den,
            p > 0,
            r >= 0,
    ;
    assert((2 * (r * p) < d) == (2 * r < den)) by (nonlinear_arith)
        requires
            d == den * p,
            p > 0,
    ;
    assert((2 * (r * p) > d) == (2 * r > den)) by (nonlinear_arith)
        requires
            d == den * p,
            p > 0,
    ;
    assert(m * d >= 0x80_0000 * d) by (nonlinear_arith)
        requires
            m >= 0x80_0000,
            d > 0,
    ;
    assert(m * d + d <= 0x100_0000 * d) by (nonlinear_arith)
        requires
            m + 1 <= 0x100_0000,
            d > 0,
    ;
    rounding::lemma_rank_at(n, den, s);
    rounding::lemma_nearest_even_from(n, d, m, r * p);
}

/// A finite number times one is the number.
pub(crate) proof fn lemma_times_one(x: Binary32)
    requires
        x.is_finite(),
    ensures
        x.times(Binary32 { bits: ONE_BITS }) == x,
{
    reveal(Binary32::times_spec);
    lemma_one();
    lemma_pow2_pos(149);
    lemma_exact(x, pow2(149));
    binary32::lemma_parts(x);
}

/// A finite number other than zero over itself is one.
pub(crate) proof fn lemma_over_self(x: Binary32)
    requires
        x.is_finite(),
        x.key() > 0,
    ensures
        x.over(x) == (Binary32 { bits: ONE_BITS }),
{
    reveal(Binary32::over_spec);
    let one = Binary32 { bits: ONE_BITS };
    lemma_one();
    lemma_zero(x);
    lemma_exact(one, x.magnitude());
    lemma_mul_is_commutative(x.magnitude() as int, pow2(149) as int);
    binary32::lemma_parts(one);
}

/// The distance of `x` from the exact value `num / den` of units, times `den`.
pub open spec fn error_of(x: Binary32, num: int, den: int) -> int {
    if x.units() * den < num {
        num - x.units() * den
    } else {
        x.units() * den - num
    }
}

/// Whether `x` is nearest to the exact value `num / den` of units: `y` is not nearer, and
/// where `y` is another number that is as near, `x` has the even significand.
pub open spec fn no_nearer(x: Binary32, y: Binary32, num: int, den: int) -> bool {
    &&& error_of(x, num, den) <= error_of(y, num, den)
    &&& error_of(x, num, den) == error_of(y, num, den) && x.units() != y.units()
        ==> x.significand() % 2 == 0
}

/// A rounded number of a sign is nearest to the exact value with that sign.
proof fn lemma_signed_nearest(sign: bool, num: nat, den: nat, y: Binary32)
    requires
        den > 0,
        Binary32::rounded(sign, num, den).is_finite(),
        y.is_finite(),
    ensures
        no_nearer(
            Binary32::rounded(sign, num, den),
            y,
            if sign {
                -num
            } else {
                num as int
            },
            den as int,
        ),
{
    let x = Binary32::rounded(sign, num, den);
    let zero = Binary32 { bits: 0 };
    law_rounding_is_nearest(sign, num, den, y);
    law_rounding_is_nearest(sign, num, den, zero);
    lemma_zero(zero);
    lemma_zero(y);
    lemma_zero(x);
    let (a, b) = (x.magnitude(), y.magnitude());
    assert((-(a as int)) * den == -(a * den)) by (nonlinear_arith);
    assert((-(b as int)) * den == -(b * den)) by (nonlinear_arith);
    assert(0 * den == 0);
    binary32::lemma_magnitude_order(x, y);
    binary32::lemma_magnitude_order(y, x);
    binary32::lemma_parts(x);
    assert(b > 0 ==> b * den > 0) by (nonlinear_arith)
        requires
            den > 0,
    ;
    assert(a > 0 ==> a * den > 0) by (nonlinear_arith)
        requires
            den > 0,
    ;
}

/// A value of at most the largest finite number rounds to a finite number.
proof fn lemma_rounded_finite(sign: bool, num: nat, den: nat)
    requires
        den > 0,
        num <= (Binary32 { bits: 0x7F7F_FFFF }).magnitude() * den,
    ensures
        Binary32::rounded(sign, num, den).is_finite(),
{
    let top = Binary32 { bits: 0x7F7F_FFFF };
    lemma_exact(top, 1);
    law_rounding_keeps_order(num, den, top.magnitude() * 1, 1);
    binary32::lemma_with_sign(sign, rounding::round_magnitude(num, den));
    binary32::lemma_parts(Binary32::rounded(sign, num, den));
    assert(top.key() == 0x7F7F_FFFF);
}

/// Results whose exact value is within the range of finite numbers are finite.
pub proof fn law_results_are_finite(x: Binary32, y: Binary32)
    requires
        x.is_finite(),
        y.is_finite(),
    ensures
        ({
            let top = (Binary32 { bits: 0x7F7F_FFFF }).magnitude();
            &&& -top <= x.units() + y.units() <= top ==> x.plus(y).is_finite()
            &&& x.magnitude() * y.magnitude() <= top * pow2(149) ==> x.times(y).is_finite()
            &&& y.key() > 0 && x.magnitude() * pow2(149) <= top * y.magnitude() ==> x.over(
                y,
            ).is_finite()
        }),
{
    reveal(Binary32::plus_spec);
    reveal(Binary32::times_spec);
    reveal(Binary32::over_spec);
    let top = (Binary32 { bits: 0x7F7F_FFFF }).magnitude();
    let sum = x.units() + y.units();
    let sign = x.sign() != y.sign();
    lemma_pow2_pos(149);
    lemma_zero(y);
    assert(top * 1 == top);
    if 0 < sum <= top {
        lemma_rounded_finite(false, sum as nat, 1);
    } else if -top <= sum < 0 {
        lemma_rounded_finite(true, (-sum) as nat, 1);
    } else if sum == 0 {
        lemma_sum(x, y);
        binary32::lemma_parts(x.plus(y));
    }
    if x.magnitude() * y.magnitude() <= top * pow2(149) {
        lemma_rounded_finite(sign, x.magnitude() * y.magnitude(), pow2(149));
    }
    if y.key() > 0 && x.magnitude() * pow2(149) <= top * y.magnitude() {
        lemma_rounded_finite(sign, x.magnitude() * pow2(149), y.magnitude());
    }
}

/// A sum is the number nearest to the exact sum, whatever finite number `z` it is held
/// against, and it has the sign of the exact sum. A sum of opposite numbers is the positive
/// zero.
pub proof fn law_sum_is_nearest(x: Binary32, y: Binary32, z: Binary32)
    requires
        x.is_finite(),
        y.is_finite(),
        z.is_finite(),
    ensures
        !x.plus(y).is_nan(),
        x.plus(y).is_finite() ==> no_nearer(x.plus(y), z, x.units() + y.units(), 1),
        x.units() + y.units() > 0 ==> !x.plus(y).sign(),
        x.units() + y.units() < 0 ==> x.plus(y).sign(),
        x.units() + y.units() == 0 ==> x.plus(y).key() == 0 && (x.plus(y).sign() <==> x.sign()
            && y.sign()),
        x.minus(y) == x.plus(y.negated()),
{
    reveal(Binary32::plus_spec);
    let sum = x.units() + y.units();
    lemma_sum(x, y);
    if sum > 0 && x.plus(y).is_finite() {
        lemma_signed_nearest(false, sum as nat, 1, z);
    } else if sum < 0 && x.plus(y).is_finite() {
        lemma_signed_nearest(true, (-sum) as nat, 1, z);
    } else if sum == 0 {
        binary32::lemma_with_sign(x.sign() && y.sign(), 0);
    }
}

/// A product is the number nearest to the exact product, and it is negative if and only if
/// one of the factors is.
pub proof fn law_product_is_nearest(x: Binary32, y: Binary32, z: Binary32)
    requires
        x.is_finite(),
        y.is_finite(),
        z.is_finite(),
    ensures
        !x.times(y).is_nan(),
        x.times(y).is_finite() ==> no_nearer(
            x.times(y),
            z,
            x.units() * y.units(),
            pow2(149) as int,
        ),
        x.times(y).sign() <==> x.sign() != y.sign(),
{
    reveal(Binary32::times_spec);
    let one = pow2(149);
    let (a, b) = (x.magnitude(), y.magnitude());
    let sign = x.sign() != y.sign();
    lemma_pow2_pos(149);
    binary32::lemma_with_sign(sign, rounding::round_magnitude(a * b, one));
    assert((-(a as int)) * b == -(a * b) && a * (-(b as int)) == -(a * b) && (-(a as int)) * (-(
    b as int)) == a * b) by (nonlinear_arith);
    if x.times(y).is_finite() {
        lemma_signed_nearest(sign, a * b, one, z);
    }
}

/// A quotient by a number other than zero is the number nearest to the exact quotient, and it
/// is negative if and only if one of the two numbers is.
pub proof fn law_quotient_is_nearest(x: Binary32, y: Binary32, z: Binary32)
    requires
        x.is_finite(),
        y.is_finite(),
        y.key() > 0,
        z.is_finite(),
    ensures
        !x.over(y).is_nan(),
        x.over(y).is_finite() ==> no_nearer(
            x.over(y),
            z,
            if y.sign() {
                -x.units() * pow2(149)
            } else {
                x.units() * pow2(149)
            },
            y.magnitude() as int,
        ),
        x.over(y).sign() <==> x.sign() != y.sign(),
{
    reveal(Binary32::over_spec);
    let one = pow2(149);
    let a = x.magnitude();
    let sign = x.sign() != y.sign();
    lemma_zero(y);
    binary32::lemma_with_sign(sign, rounding::round_magnitude(a * one, y.magnitude()));
    assert((-(a as int)) * one == -(a * one)) by (nonlinear_arith);
    if x.over(y).is_finite() {
        lemma_signed_nearest(sign, a * one, y.magnitude(), z);
    }
}

/// The number for a whole number is the nearest one, and the whole number itself up to
/// `2^24`.
pub proof fn law_whole_numbers(n: int, z: Binary32)
    requires
        -0x1_0000_0000 <= n <= 0x1_0000_0000,
        z.is_finite(),
    ensures
        Binary32::of_int(n).is_finite(),
        no_nearer(Binary32::of_int(n), z, n * pow2(149), 1),
        Binary32::of_int(n).sign() <==> n < 0,
        -0x100_0000 < n < 0x100_0000 ==> Binary32::of_int(n).units() == n * pow2(149),
{
    lemma2_to64();
    let one = pow2(149);
    let a: nat = (if n < 0 {
        -n
    } else {
        n
    }) as nat;
    lemma_pow2_adds(32, 149);
    assert(a * one <= pow2(181) * 1) by (nonlinear_arith)
        requires
            a <= 0x1_0000_0000,
            pow2(181) == 0x1_0000_0000 * one,
    ;
    assert((-n) * one == -(n * one)) by (nonlinear_arith);
    lemma_rounded_power(n < 0, a * one, 1, 32);
    lemma_signed_nearest(n < 0, a * one, 1, z);
    if -0x100_0000 < n < 0x100_0000 {
        lemma_of_int(n);
    }
}

/// The order of numbers is that of their values, and no order holds with what is no number.
pub proof fn law_order(x: Binary32, y: Binary32)
    ensures
        x.less(y) <==> !x.is_nan() && !y.is_nan() && x.units() < y.units(),
        x.at_most(y) <==> !x.is_nan() && !y.is_nan() && x.units() <= y.units(),
        x.is_nan() <==> x.key() > 0x7F80_0000,
        x.is_finite() <==> x.key() < 0x7F80_0000,
{
    binary32::lemma_parts(x);
}

/// Turning the sign round negates the value and changes nothing else; the absolute value has
/// no sign and the same distance from zero.
pub proof fn law_signs(x: Binary32)
    ensures
        x.negated().units() == -x.units(),
        x.negated().sign() != x.sign(),
        x.negated().key() == x.key(),
        x.negated().negated() == x,
        x.absolute().units() == x.magnitude(),
        x.absolute().key() == x.key(),
        !x.absolute().sign(),
{
    binary32::lemma_parts(x);
    binary32::lemma_with_sign(!x.sign(), x.key());
    binary32::lemma_with_sign(false, x.key());
    binary32::lemma_with_sign(x.sign(), x.key());
    binary32::lemma_magnitude_order(x, x.negated());
    binary32::lemma_magnitude_order(x, x.absolute());
}

/// The whole part of a number that fits is the number without what follows the point: it is
/// less than one away, towards zero. Beyond the range it is the end of the range, and it is
/// 0 where there is no number.
pub proof fn law_whole_part(x: Binary32)
    ensures
        ({
            let n = x.truncated_spec();
            let one = pow2(149) as int;
            &&& x.is_nan() ==> n == 0
            &&& !x.is_nan() && 0 <= x.units() < 0x8000_0000 * one ==> n * one <= x.units() < (n + 1)
                * one
            &&& !x.is_nan() && -0x8000_0000 * one <= x.units() <= 0 ==> (n - 1) * one < x.units()
                <= n * one
            &&& !x.is_nan() && x.units() >= 0x8000_0000 * one ==> n == 0x7FFF_FFFF
            &&& !x.is_nan() && x.units() <= -0x8000_0000 * one ==> n == -0x8000_0000
        }),
{
    let one = pow2(149) as int;
    let m = x.magnitude() as int;
    let w = m / one;
    lemma_pow2_pos(149);
    lemma_fundamental_div_mod(m, one);
    assert(one * w == w * one) by (nonlinear_arith);
    assert((w + 1) * one == w * one + one && (w - 1) * one == w * one - one && (-w) * one == -(w
        * one) && (-w - 1) * one == -(w * one) - one && (-w + 1) * one == -(w * one) + one)
        by (nonlinear_arith);
    assert(m < 0x8000_0000 * one ==> w < 0x8000_0000) by (nonlinear_arith)
        requires
            m == one * w + m % one,
            0 <= m % one < one,
            one > 0,
    ;
    assert(m <= 0x8000_0000 * one ==> w <= 0x8000_0000) by (nonlinear_arith)
        requires
            m == one * w + m % one,
            0 <= m % one < one,
            one > 0,
    ;
    assert(m >= 0x8000_0000 * one ==> w >= 0x8000_0000) by (nonlinear_arith)
        requires
            m == one * w + m % one,
            0 <= m % one < one,
            one > 0,
    ;
    if m == 0 {
        assert(w == 0) by (nonlinear_arith)
            requires
                m == one * w + m % one,
                0 <= m % one < one,
                m == 0,
                one > 0,
        ;
    }
}

/// What operations give where a number is missing, and with infinities and zeros.
pub proof fn law_special_values(x: Binary32, y: Binary32)
    ensures
        x.is_nan() || y.is_nan() ==> x.plus(y).is_nan() && x.minus(y).is_nan() && x.times(
            y,
        ).is_nan() && x.over(y).is_nan(),
        x.is_nan() ==> x.square_root().is_nan(),
        x.is_infinite() && y.is_finite() ==> x.plus(y) == x && y.plus(x) == x,
        x.is_infinite() && y == x ==> x.plus(y) == x,
        x.is_infinite() && y == x.negated() ==> x.plus(y).is_nan(),
        x.is_infinite() && y.key() == 0 ==> x.times(y).is_nan(),
        x.is_infinite() && y.key() > 0 && !y.is_nan() ==> x.times(y).is_infinite() && (x.times(
            y,
        ).sign() <==> x.sign() != y.sign()),
        x.is_finite() && y.is_infinite() ==> x.over(y).key() == 0 && (x.over(y).sign() <==> x.sign()
            != y.sign()),
        x.is_infinite() && y.is_finite() ==> x.over(y).is_infinite() && (x.over(y).sign()
            <==> x.sign() != y.sign()),
        x.is_infinite() && y.is_infinite() ==> x.over(y).is_nan(),
        x.key() == 0 && y.key() == 0 ==> x.over(y).is_nan(),
        x.is_finite() && x.key() > 0 && y.key() == 0 ==> x.over(y).is_infinite(),
        x.sign() && x.key() > 0 ==> x.square_root().is_nan(),
        x.key() == 0 ==> x.square_root() == x,
        x.is_infinite() && !x.sign() ==> x.square_root() == x,
{
    reveal(Binary32::plus_spec);
    reveal(Binary32::times_spec);
    reveal(Binary32::over_spec);
    reveal(Binary32::square_root_spec);
    binary32::lemma_parts(x);
    binary32::lemma_parts(y);
    binary32::lemma_with_sign(!y.sign(), y.key());
    binary32::lemma_with_sign(!x.sign(), x.key());
    let sign = x.sign() != y.sign();
    binary32::lemma_with_sign(sign, INFINITY_BITS as nat);
    binary32::lemma_with_sign(sign, 0);
    assert(Binary32::nan().is_nan());
}

/// What a bit pattern stands for: the highest bit is the sign; the next eight are the
/// exponent; with the exponent zero the low 23 bits count units, and else they and a leading
/// one count steps that double with the exponent.
pub proof fn law_pattern(x: Binary32)
    ensures
        ({
            let low = x.bits as int % 0x8000_0000;
            let exponent = low / 0x80_0000;
            let fraction = low % 0x80_0000;
            &&& x.sign() <==> x.bits >= 0x8000_0000
            &&& x.key() == low
            &&& exponent == 0 ==> x.magnitude() == fraction
            &&& exponent > 0 ==> x.magnitude() == (0x80_0000 + fraction) * pow2(
                (exponent - 1) as nat,
            )
            &&& x.units() == if x.sign() {
                -x.magnitude()
            } else {
                x.magnitude() as int
            }
            &&& x.is_infinite() <==> low == 0x7F80_0000
            &&& x.is_nan() <==> low > 0x7F80_0000
        }),
{
    lemma2_to64();
    binary32::lemma_parts(x);
    let m = x.significand();
    assert(m * 1 == m) by (nonlinear_arith);
}

} // verus!
