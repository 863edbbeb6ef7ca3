//! Rounding of exact values to the binary32 grid.
//!
//! Magnitudes are counted in units of `2^-149`, the smallest positive binary32
//! number, so that every finite binary32 number is a whole number of units and
//! an exact result is a fraction of two naturals.
use vstd::arithmetic::div_mod::*;
use vstd::arithmetic::mul::*;
use vstd::arithmetic::power2::*;
use vstd::prelude::*;

verus! {

/// The bit pattern of positive infinity.
pub const INFINITY_BITS: u32 = 0x7F80_0000;

/// The natural number nearest to `num / den`; of two equally near, the even one.
pub open spec fn nearest_even(num: nat, den: nat) -> nat
    recommends
        den > 0,
{
    let q = num / den;
    let r = num % den;
    if 2 * r < den {
        q
    } else if 2 * r > den {
        q + 1
    } else {
        q + q % 2
    }
}

/// The rank of `num / den` on the binary32 grid without an upper end: below
/// `2^24` the grid holds every natural number, and from there on each doubling
/// of the grid's step adds `2^23` ranks.
pub open spec fn rank(num: nat, den: nat) -> nat
    recommends
        den > 0,
    decreases num - den,
{
    if den == 0 || num < 0x100_0000 * den {
        nearest_even(num, den)
    } else {
        0x80_0000 + rank(num, 2 * den)
    }
}

/// A rank as the low 31 bits of a binary32 number: infinity from its rank on.
pub open spec fn capped(rank: nat) -> nat {
    if rank < INFINITY_BITS {
        rank
    } else {
        INFINITY_BITS as nat
    }
}

/// The low 31 bits of the binary32 number nearest to `num / den` units; of two
/// equally near, the one with the even significand; infinity from half a step
/// above the largest finite number on.
pub open spec fn round_magnitude(num: nat, den: nat) -> nat
    recommends
        den > 0,
{
    capped(rank(num, den))
}

/// `2^e` for `e >= 0`, else 1.
pub open spec fn up(e: int) -> nat {
    if e >= 0 {
        pow2(e as nat)
    } else {
        1
    }
}

/// `2^-e` for `e <= 0`, else 1.
pub open spec fn down(e: int) -> nat {
    if e >= 0 {
        1
    } else {
        pow2((-e) as nat)
    }
}

pub(crate) proof fn lemma_up_down_positive(e: int)
    ensures
        up(e) > 0,
        down(e) > 0,
{
    if e >= 0 {
        lemma_pow2_pos(e as nat);
    } else {
        lemma_pow2_pos((-e) as nat);
    }
}

/// `2^p / 2^q` is `2^(p - q)`.
pub(crate) proof fn lemma_up_down(p: nat, q: nat)
    ensures
        pow2(p) * down(p - q) == up(p - q) * pow2(q),
{
    if p >= q {
        lemma_pow2_adds((p - q) as nat, q);
        assert(pow2(p) * 1 == pow2(p));
    } else {
        lemma_pow2_adds(p, (q - p) as nat);
        assert(1 * pow2(q) == pow2(q));
    }
}

/// Characterises the quotient and remainder that `nearest_even` looks at.
pub(crate) proof fn lemma_nearest_even_from(num: nat, den: nat, q: nat, r: nat)
    requires
        r < den,
        num == q * den + r,
    ensures
        nearest_even(num, den) == (if 2 * r < den {
            q
        } else if 2 * r > den {
            q + 1
        } else {
            q + q % 2
        }),
{
    lemma_fundamental_div_mod_converse(num as int, den as int, q as int, r as int);
}

pub(crate) proof fn lemma_nearest_even_scale(num: nat, den: nat, k: nat)
    requires
        den > 0,
        k > 0,
    ensures
        nearest_even(k * num, k * den) == nearest_even(num, den),
{
    let q = num / den;
    let r = num % den;
    lemma_fundamental_div_mod(num as int, den as int);
    assert(k * num == q * (k * den) + k * r) by (nonlinear_arith)
        requires
            num == den * q + r,
    ;
    assert(k * r < k * den) by (nonlinear_arith)
        requires
            r < den,
            k > 0,
    ;
    assert((2 * (k * r) < k * den) == (2 * r < den)) by (nonlinear_arith)
        requires
            k > 0,
    ;
    assert((2 * (k * r) > k * den) == (2 * r > den)) by (nonlinear_arith)
        requires
            k > 0,
    ;
    lemma_nearest_even_from(k * num, k * den, q, k * r);
}

pub(crate) proof fn lemma_rank_scale(num: nat, den: nat, k: nat)
    requires
        den > 0,
        k > 0,
    ensures
        k * den > 0,
        rank(k * num, k * den) == rank(num, den),
    decreases num - den,
{
    assert(k * den > 0) by (nonlinear_arith)
        requires
            k > 0,
            den > 0,
    ;
    assert((k * num < 0x100_0000 * (k * den)) == (num < 0x100_0000 * den)) by (nonlinear_arith)
        requires
            k > 0,
    ;
    if num < 0x100_0000 * den {
        lemma_nearest_even_scale(num, den, k);
    } else {
        lemma_rank_scale(num, 2 * den, k);
        assert(k * (2 * den) == 2 * (k * den)) by (nonlinear_arith);
    }
}

/// Equal fractions have the same rank.
pub(crate) proof fn lemma_rank_same(n1: nat, d1: nat, n2: nat, d2: nat)
    requires
        d1 > 0,
        d2 > 0,
        n1 * d2 == n2 * d1,
    ensures
        rank(n1, d1) == rank(n2, d2),
{
    lemma_rank_scale(n1, d1, d2);
    lemma_rank_scale(n2, d2, d1);
    lemma_mul_is_commutative(d1 as int, d2 as int);
    lemma_mul_is_commutative(n1 as int, d2 as int);
    lemma_mul_is_commutative(n2 as int, d1 as int);
}

/// The rank of a fraction whose grid step is known to be `2^s`.
pub(crate) proof fn lemma_rank_at(num: nat, den: nat, s: nat)
    requires
        den > 0,
        num < 0x100_0000 * (den * pow2(s)),
        s == 0 || num >= 0x80_0000 * (den * pow2(s)),
    ensures
        rank(num, den) == 0x80_0000 * s + nearest_even(num, den * pow2(s)),
    decreases s,
{
    lemma2_to64();
    if s == 0 {
        assert(den * pow2(s) == den) by (nonlinear_arith)
            requires
                pow2(s) == 1,
        ;
    } else {
        lemma_pow2_unfold(s);
        lemma_pow2_pos((s - 1) as nat);
        let p = pow2((s - 1) as nat);
        assert(den * pow2(s) == (2 * den) * p) by (nonlinear_arith)
            requires
                pow2(s) == 2 * p,
        ;
        assert((2 * den) * p >= 2 * den) by (nonlinear_arith)
            requires
                p > 0,
        ;
        lemma_rank_at(num, 2 * den, (s - 1) as nat);
    }
}

/// The rank of `a / b * 2^e` units where the grid step is `2^s = 2^e * 2^t`.
pub(crate) proof fn lemma_rank_shifted(a: nat, b: nat, e: int, s: nat, t: nat)
    requires
        b > 0,
        t == s - e,
        a < 0x100_0000 * (b * pow2(t)),
        s == 0 || a >= 0x80_0000 * (b * pow2(t)),
    ensures
        b * down(e) > 0,
        rank(a * up(e), b * down(e)) == 0x80_0000 * s + nearest_even(a, b * pow2(t)),
{
    lemma_up_down_positive(e);
    lemma_pow2_pos(t);
    let k = pow2(t);
    assert(b * k > 0) by (nonlinear_arith)
        requires
            b > 0,
            k > 0,
    ;
    assert(b * down(e) > 0) by (nonlinear_arith)
        requires
            b > 0,
            down(e) > 0,
    ;
    if e >= 0 {
        let u = pow2(e as nat);
        lemma_pow2_adds(e as nat, t);
        assert(pow2(s) == u * k);
        assert((b * 1) * pow2(s) == u * (b * k)) by (nonlinear_arith)
            requires
                pow2(s) == u * k,
        ;
        assert(a * u == u * a) by (nonlinear_arith);
        assert(u * a < 0x100_0000 * (u * (b * k))) by (nonlinear_arith)
            requires
                a < 0x100_0000 * (b * k),
                u > 0,
        ;
        assert(a >= 0x80_0000 * (b * k) ==> u * a >= 0x80_0000 * (u * (b * k))) by (nonlinear_arith)
            requires
                u > 0,
        ;
        lemma_rank_at(a * u, b * 1, s);
        lemma_nearest_even_scale(a, b * k, u);
    } else {
        let d = pow2((-e) as nat);
        lemma_pow2_adds((-e) as nat, s);
        assert(k == d * pow2(s));
        assert((b * d) * pow2(s) == b * k) by (nonlinear_arith)
            requires
                k == d * pow2(s),
        ;
        assert(a * 1 == a);
        lemma_rank_at(a * 1, b * d, s);
    }
}

/// A fraction strictly between `m` and `m + 1` rounds on a grid of even step `k`
/// as the midpoint `m + 1/2` does.
proof fn lemma_nearest_even_between(a: nat, b: nat, m: nat, k: nat)
    requires
        b > 0,
        k > 0,
        k % 2 == 0,
        m * b < a,
        a < (m + 1) * b,
    ensures
        nearest_even(a, b * k) == nearest_even(2 * m + 1, 2 * k),
{
    let q = m / k;
    let r = m % k;
    let h = k / 2;
    lemma_fundamental_div_mod(m as int, k as int);
    assert(2 * m + 1 == q * (2 * k) + (2 * r + 1)) by (nonlinear_arith)
        requires
            m == k * q + r,
    ;
    lemma_nearest_even_from(2 * m + 1, 2 * k, q, 2 * r + 1);
    let w = (a - q * (b * k)) as int;
    assert(w > r * b && w < (r + 1) * b) by (nonlinear_arith)
        requires
            w == a - q * (b * k),
            m == k * q + r,
            m * b < a,
            a < (m + 1) * b,
    ;
    assert(r * b >= 0) by (nonlinear_arith);
    assert((r + 1) * b <= b * k) by (nonlinear_arith)
        requires
            r + 1 <= k,
    ;
    lemma_nearest_even_from(a, b * k, q, w as nat);
    if r < h {
        assert(2 * ((r + 1) * b) <= b * k) by (nonlinear_arith)
            requires
                2 * (r + 1) <= k,
        ;
    } else {
        assert(2 * (r * b) >= b * k) by (nonlinear_arith)
            requires
                2 * r >= k,
        ;
    }
}

/// The number of binary digits of `m`.
pub(crate) proof fn lemma_bit_length(m: nat) -> (len: nat)
    requires
        m > 0,
    ensures
        len > 0,
        pow2((len - 1) as nat) <= m < pow2(len),
    decreases m,
{
    lemma2_to64();
    if m == 1 {
        1
    } else {
        let len = lemma_bit_length(m / 2);
        lemma_pow2_unfold(len);
        lemma_pow2_unfold(len + 1);
        len + 1
    }
}

pub(crate) proof fn lemma_pow2_monotone(a: nat, b: nat)
    requires
        a <= b,
    ensures
        pow2(a) <= pow2(b),
{
    if a < b {
        lemma_pow2_strictly_increases(a, b);
    }
}

/// An exact value strictly between `m` and `m + 1` times `2^e` units has the rank
/// of the midpoint `(m + 1/2) * 2^e`, if `m` has a digit more than a significand.
pub(crate) proof fn lemma_rank_between(a: nat, b: nat, m: nat, e: int)
    requires
        b > 0,
        m >= 0x100_0000,
        m * b < a,
        a < (m + 1) * b,
    ensures
        b * down(e) > 0,
        rank(a * up(e), b * down(e)) == rank((2 * m + 1) * up(e - 1), down(e - 1)),
{
    lemma2_to64();
    let len = lemma_bit_length(m);
    if len < 25 {
        lemma_pow2_monotone(len, 24);
    }
    let s: nat = if len + e > 24 {
        (len + e - 24) as nat
    } else {
        0
    };
    let t = (s - e) as nat;
    let k = pow2(t);
    lemma_pow2_adds(24, t);
    lemma_pow2_adds(23, t);
    lemma_pow2_unfold(t + 1);
    lemma_pow2_unfold(t);
    lemma_pow2_pos(t);
    lemma_pow2_monotone(len, 24 + t);
    assert(a < 0x100_0000 * (b * k)) by (nonlinear_arith)
        requires
            a < (m + 1) * b,
            m + 1 <= 0x100_0000 * k,
    ;
    if s > 0 {
        assert(23 + t == len - 1);
        assert(a >= 0x80_0000 * (b * k)) by (nonlinear_arith)
            requires
                m * b < a,
                m >= 0x80_0000 * k,
        ;
    }
    lemma_rank_shifted(a, b, e, s, t);
    lemma_rank_shifted(2 * m + 1, 1, e - 1, s, t + 1);
    lemma_nearest_even_between(a, b, m, k);
    assert(1 * down(e - 1) == down(e - 1));
    assert(1 * pow2(t + 1) == 2 * k);
}

/// The number of binary digits of `m`.
fn bit_length(m: u128) -> (len: u32)
    ensures
        len <= 128,
        m == 0 ==> len == 0,
        m > 0 ==> len > 0 && pow2((len - 1) as nat) <= m < pow2(len as nat),
{
    proof {
        lemma2_to64();
        lemma_pow2_adds(64, 64);
    }
    let mut rest: u128 = m;
    let mut len: u32 = 0;
    while rest > 0
        invariant
            len <= 128,
            rest > 0 ==> len < 128 && m > 0,
            m == 0 ==> len == 0,
            pow2(128) == 0x1_0000_0000_0000_0000 * 0x1_0000_0000_0000_0000,
            rest * pow2(len as nat) <= m < (rest + 1) * pow2(len as nat),
            rest == 0 && m > 0 ==> len > 0 && pow2((len - 1) as nat) <= m,
        decreases rest,
    {
        proof {
            lemma_pow2_unfold((len + 1) as nat);
            lemma_pow2_pos(len as nat);
            let p = pow2(len as nat);
            let half = rest as int / 2;
            assert(half * (2 * p) <= m && m < (half + 1) * (2 * p)) by (nonlinear_arith)
                requires
                    rest * p <= m,
                    m < (rest + 1) * p,
                    2 * half <= rest <= 2 * half + 1,
            ;
            assert(p <= m) by (nonlinear_arith)
                requires
                    rest >= 1,
                    rest * p <= m,
            ;
            if half > 0 && len + 1 >= 128 {
                lemma_pow2_monotone(128, (len + 1) as nat);
                assert(half * (2 * p) >= 2 * p) by (nonlinear_arith)
                    requires
                        half >= 1,
                ;
            }
        }
        rest = rest / 2;
        len = len + 1;
    }
    proof {
        let p = pow2(len as nat);
        assert((rest + 1) * p == p) by (nonlinear_arith)
            requires
                rest == 0,
        ;
    }
    len
}

/// `2^d`.
pub(crate) fn power(d: u32) -> (p: u128)
    requires
        d <= 120,
    ensures
        p == pow2(d as nat),
{
    proof {
        lemma2_to64();
        lemma_pow2_adds(60, 60);
        lemma2_to64_rest();
    }
    let mut p: u128 = 1;
    let mut i: u32 = 0;
    while i < d
        invariant
            i <= d <= 120,
            p == pow2(i as nat),
            pow2(120) == 0x1000_0000_0000_0000 * 0x1000_0000_0000_0000,
        decreases d - i,
    {
        proof {
            lemma_pow2_unfold((i + 1) as nat);
            lemma_pow2_monotone((i + 1) as nat, 120);
        }
        p = p * 2;
        i = i + 1;
    }
    p
}

/// The bound on the integer part that `round_dyadic` takes.
pub const DYADIC_LIMIT: u128 = 0x10_0000_0000_0000_0000_0000_0000;

/// The number of grid steps in `m * 2^e` where the step is `2^s`.
spec fn dyadic_steps(m: nat, e: int, s: nat) -> nat {
    if e >= s {
        m * pow2((e - s) as nat)
    } else {
        nearest_even(m, pow2((s - e) as nat))
    }
}

proof fn lemma_dyadic(m: nat, e: int, len: nat, s: nat)
    requires
        0 < m < DYADIC_LIMIT,
        0 < len,
        pow2((len - 1) as nat) <= m < pow2(len),
        s == if len + e > 24 {
            len + e - 24
        } else {
            0
        },
    ensures
        rank(m * up(e), down(e)) == 0x80_0000 * s + dyadic_steps(m, e, s),
        dyadic_steps(m, e, s) <= 0x100_0000,
        s > 0 ==> dyadic_steps(m, e, s) >= 0x80_0000,
        e - s <= 23,
        s - e > 100 ==> dyadic_steps(m, e, s) == 0,
        pow2(100) == DYADIC_LIMIT,
{
    lemma2_to64();
    lemma2_to64_rest();
    lemma_pow2_adds(50, 50);
    if e >= s {
        let k = pow2((e - s) as nat);
        lemma_pow2_adds(s, (e - s) as nat);
        lemma_pow2_adds((len - 1) as nat, (e - s) as nat);
        lemma_pow2_adds(len, (e - s) as nat);
        lemma_pow2_pos((e - s) as nat);
        lemma_pow2_monotone((len + e - s) as nat, 24);
        assert(m * k < pow2(len) * k) by (nonlinear_arith)
            requires
                m < pow2(len),
                k > 0,
        ;
        assert(m * k >= pow2((len - 1) as nat) * k) by (nonlinear_arith)
            requires
                m >= pow2((len - 1) as nat),
        ;
        assert(m * up(e) == (m * k) * up(s as int)) by (nonlinear_arith)
            requires
                up(e) == up(s as int) * k,
        ;
        assert(1 * pow2(0) == 1);
        lemma_rank_shifted(m * k, 1, s as int, s, 0);
        assert(1 * down(s as int) == 1);
        lemma_nearest_even_from(m * k, 1, m * k, 0);
    } else {
        let t = (s - e) as nat;
        let k = pow2(t);
        lemma_pow2_pos(t);
        lemma_pow2_adds(24, t);
        lemma_pow2_adds(23, t);
        lemma_pow2_monotone(len, 24 + t);
        assert(1 * k == k);
        assert(1 * down(e) == down(e));
        lemma_rank_shifted(m, 1, e, s, t);
        lemma_fundamental_div_mod(m as int, k as int);
        let q = m / k;
        assert(q < 0x100_0000) by (nonlinear_arith)
            requires
                m < 0x100_0000 * k,
                m >= k * q,
        ;
        if s > 0 {
            assert(q >= 0x80_0000) by (nonlinear_arith)
                requires
                    m >= 0x80_0000 * k,
                    m < k * q + k,
            ;
        }
        if t > 100 {
            lemma_pow2_monotone(101, t);
            lemma_pow2_unfold(101);
            lemma_nearest_even_from(m, k, 0, m);
        }
    }
}

/// Rounds `m * 2^e` units.
pub(crate) fn round_dyadic(m: u128, e: i32) -> (bits: u32)
    requires
        m < DYADIC_LIMIT,
        -1000 <= e <= 1000,
    ensures
        bits == round_magnitude((m as nat) * up(e as int), down(e as int)),
{
    proof {
        lemma_up_down_positive(e as int);
    }
    if m == 0 {
        proof {
            assert(0 * up(e as int) == 0);
            lemma_nearest_even_from(0, down(e as int), 0, 0);
        }
        return 0;
    }
    let len: i32 = bit_length(m) as i32;
    let s: i32 = if len + e > 24 {
        len + e - 24
    } else {
        0
    };
    proof {
        lemma_dyadic(m as nat, e as int, len as nat, s as nat);
    }
    if s >= 254 {
        return INFINITY_BITS;
    }
    let steps: u32 = if e >= s {
        let k: u128 = power((e - s) as u32);
        (m * k) as u32
    } else if s - e > 100 {
        0
    } else {
        let k: u128 = power((s - e) as u32);
        proof {
            lemma_pow2_pos((s - e) as nat);
            lemma_pow2_monotone((s - e) as nat, 100);
        }
        let q: u128 = m / k;
        let r: u128 = m % k;
        if 2 * r < k {
            q as u32
        } else if 2 * r > k {
            (q + 1) as u32
        } else {
            (q + q % 2) as u32
        }
    };
    0x80_0000 * (s as u32) + steps
}

} // verus!
