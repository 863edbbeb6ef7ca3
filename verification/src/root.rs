//! Rounding of square roots to the binary32 grid.
use crate::rounding;
use vstd::arithmetic::div_mod::*;
use vstd::arithmetic::mul::*;
use vstd::arithmetic::power2::*;
use vstd::prelude::*;

verus! {

/// The largest natural number whose square is at most `n`.
pub open spec fn floor_root(n: nat) -> nat
    decreases n,
{
    if n == 0 {
        0
    } else {
        let r = floor_root((n - 1) as nat);
        if (r + 1) * (r + 1) <= n {
            r + 1
        } else {
            r
        }
    }
}

/// The natural number nearest to the square root of `num / den`; of two equally
/// near, the even one.
pub open spec fn nearest_root(num: nat, den: nat) -> nat
    recommends
        den > 0,
{
    let q = floor_root(num / den);
    let middle = (2 * q + 1) * (2 * q + 1) * den;
    if 4 * num < middle {
        q
    } else if 4 * num > middle {
        q + 1
    } else {
        q + q % 2
    }
}

/// The rank of the square root of `num / den` on the binary32 grid, counted as in
/// `rounding::rank`.
pub open spec fn root_rank(num: nat, den: nat) -> nat
    recommends
        den > 0,
    decreases num - den,
{
    if den == 0 || num < 0x1_0000_0000_0000 * den {
        nearest_root(num, den)
    } else {
        0x80_0000 + root_rank(num, 4 * den)
    }
}

pub(crate) proof fn lemma_floor_root(n: nat)
    ensures
        floor_root(n) * floor_root(n) <= n,
        n < (floor_root(n) + 1) * (floor_root(n) + 1),
    decreases n,
{
    if n > 0 {
        lemma_floor_root((n - 1) as nat);
        let r = floor_root((n - 1) as nat);
        let f = floor_root(n);
        assert(f == r || f == r + 1);
        if f == r + 1 {
            assert(n < (f + 1) * (f + 1)) by (nonlinear_arith)
                requires
                    f == r + 1,
                    n - 1 < (r + 1) * (r + 1),
            ;
        }
    } else {
        let f = floor_root(n);
        assert(f * f == 0 && (f + 1) * (f + 1) == 1) by (nonlinear_arith)
            requires
                f == 0,
        ;
    }
}

proof fn lemma_floor_root_unique(n: nat, r: nat)
    requires
        r * r <= n,
        n < (r + 1) * (r + 1),
    ensures
        floor_root(n) == r,
{
    lemma_floor_root(n);
    let f = floor_root(n);
    assert(f == r) by (nonlinear_arith)
        requires
            r * r <= n,
            n < (r + 1) * (r + 1),
            f * f <= n,
            n < (f + 1) * (f + 1),
    ;
}

proof fn lemma_root_rank_at(num: nat, den: nat, s: nat)
    requires
        den > 0,
        num < 0x1_0000_0000_0000 * (den * pow2(2 * s)),
        s == 0 || num >= 0x4000_0000_0000 * (den * pow2(2 * s)),
    ensures
        root_rank(num, den) == 0x80_0000 * s + nearest_root(num, den * pow2(2 * s)),
    decreases s,
{
    lemma2_to64();
    if s == 0 {
        assert(den * pow2(2 * s) == den) by (nonlinear_arith)
            requires
                pow2(2 * s) == 1,
        ;
    } else {
        lemma_pow2_unfold(2 * s);
        lemma_pow2_unfold((2 * s - 1) as nat);
        let p = pow2((2 * s - 2) as nat);
        assert(2 * ((s - 1) as nat) == (2 * s - 2) as nat);
        lemma_pow2_pos((2 * s - 2) as nat);
        assert(den * pow2(2 * s) == (4 * den) * p) by (nonlinear_arith)
            requires
                pow2(2 * s) == 4 * p,
        ;
        assert((4 * den) * p >= 4 * den) by (nonlinear_arith)
            requires
                p > 0,
        ;
        lemma_root_rank_at(num, 4 * den, (s - 1) as nat);
    }
}

/// Where `n` is `k` grid steps squared: the whole part of the root, and its side of
/// the middle of a step, follow from the whole root `r` of `n` alone.
proof fn lemma_nearest_root(n: nat, k: nat, r: nat, c: nat)
    requires
        k > 0,
        k % 2 == 0,
        r * r <= n,
        n < (r + 1) * (r + 1),
        c == if r * r < n {
            1nat
        } else {
            0nat
        },
    ensures
        nearest_root(n, k * k) == rounding::nearest_even(2 * r + c, 2 * k),
{
    let q = r / k;
    let r0 = r % k;
    lemma_fundamental_div_mod(r as int, k as int);
    let kk = k * k;
    let w = n / kk;
    assert(kk > 0) by (nonlinear_arith)
        requires
            kk == k * k,
            k > 0,
    ;
    lemma_fundamental_div_mod(n as int, kk as int);
    lemma_mul_is_commutative(k as int, q as int);
    assert((q + 1) * k == k * q + k) by (nonlinear_arith);
    assert((q * q) * kk <= n) by (nonlinear_arith)
        requires
            kk == k * k,
            q * k <= r,
            r * r <= n,
    ;
    assert(n < ((q + 1) * (q + 1)) * kk) by (nonlinear_arith)
        requires
            kk == k * k,
            r + 1 <= (q + 1) * k,
            n < (r + 1) * (r + 1),
    ;
    let a = q * q;
    let b = (q + 1) * (q + 1);
    assert(a <= w && w < b) by (nonlinear_arith)
        requires
            kk > 0,
            a * kk <= n,
            n < b * kk,
            n == kk * w + n % kk,
            0 <= n % kk < kk,
    ;
    lemma_floor_root_unique(w, q);
    assert(2 * r + c == q * (2 * k) + (2 * r0 + c)) by (nonlinear_arith)
        requires
            r == k * q + r0,
    ;
    rounding::lemma_nearest_even_from(2 * r + c, 2 * k, q, 2 * r0 + c);
    let middle = (2 * q + 1) * (2 * q + 1) * kk;
    let side = (2 * q + 1) * k;
    assert(middle == side * side) by (nonlinear_arith)
        requires
            middle == (2 * q + 1) * (2 * q + 1) * kk,
            side == (2 * q + 1) * k,
            kk == k * k,
    ;
    assert(side == 2 * (k * q) + k) by (nonlinear_arith)
        requires
            side == (2 * q + 1) * k,
    ;
    if 2 * r0 + c < k {
        assert(4 * n < side * side) by (nonlinear_arith)
            requires
                n < (r + 1) * (r + 1),
                2 * (r + 1) <= side,
        ;
    } else if 2 * r0 > k {
        assert(4 * n > side * side) by (nonlinear_arith)
            requires
                n >= r * r,
                2 * r > side,
        ;
    } else {
        assert(2 * r == side);
        assert(4 * (r * r) == side * side) by (nonlinear_arith)
            requires
                2 * r == side,
        ;
    }
}

/// The root of `n * 2^(2e)` has the rank of `r * 2^e`, half a step more where the
/// root is not whole, if `r` has a digit more than a significand.
pub(crate) proof fn lemma_root_rank(n: nat, r: nat, c: nat, e: nat)
    requires
        r >= 0x100_0000,
        r * r <= n,
        n < (r + 1) * (r + 1),
        c == if r * r < n {
            1nat
        } else {
            0nat
        },
    ensures
        root_rank(n * pow2(2 * e), 1) == rounding::rank(
            (2 * r + c) * rounding::up(e - 1),
            rounding::down(e - 1),
        ),
{
    lemma2_to64();
    lemma2_to64_rest();
    let len = rounding::lemma_bit_length(r);
    if len < 25 {
        rounding::lemma_pow2_monotone(len, 24);
    }
    let t = (len - 24) as nat;
    let s = t + e;
    let k = pow2(t);
    let p = pow2(2 * e);
    lemma_pow2_adds(23, t);
    lemma_pow2_adds(24, t);
    lemma_pow2_adds(t, t);
    lemma_pow2_adds(2 * t, 2 * e);
    assert(2 * s == 2 * t + 2 * e);
    assert(t + t == 2 * t);
    lemma_pow2_pos(t);
    lemma_pow2_pos(2 * e);
    lemma_pow2_unfold(t);
    lemma_pow2_unfold(t + 1);
    assert(n < 0x1_0000_0000_0000 * (k * k)) by (nonlinear_arith)
        requires
            n < (r + 1) * (r + 1),
            r + 1 <= 0x100_0000 * k,
    ;
    assert(n >= 0x4000_0000_0000 * (k * k)) by (nonlinear_arith)
        requires
            n >= r * r,
            r >= 0x80_0000 * k,
    ;
    let kk = k * k;
    assert(n * p < 0x1_0000_0000_0000 * (1 * (kk * p))) by (nonlinear_arith)
        requires
            n < 0x1_0000_0000_0000 * kk,
            p > 0,
    ;
    assert(n * p >= 0x4000_0000_0000 * (1 * (kk * p))) by (nonlinear_arith)
        requires
            n >= 0x4000_0000_0000 * kk,
            p > 0,
    ;
    lemma_root_rank_at(n * p, 1, s);
    assert(nearest_root(n * p, kk * p) == nearest_root(n, kk)) by {
        assert(kk > 0) by (nonlinear_arith)
            requires
                kk == k * k,
                k > 0,
        ;
        lemma_mul_is_commutative(n as int, p as int);
        lemma_mul_is_commutative(kk as int, p as int);
        lemma_fundamental_div_mod(n as int, kk as int);
        let w = n / kk;
        let x = n % kk;
        assert(n * p == w * (kk * p) + x * p) by (nonlinear_arith)
            requires
                n == kk * w + x,
        ;
        assert(x * p < kk * p && x * p >= 0) by (nonlinear_arith)
            requires
                0 <= x < kk,
                p > 0,
        ;
        lemma_fundamental_div_mod_converse(
            (n * p) as int,
            (kk * p) as int,
            w as int,
            (x * p) as int,
        );
        let q = floor_root(w);
        let z = (2 * q + 1) * (2 * q + 1);
        assert((4 * (n * p) < z * (kk * p)) == (4 * n < z * kk)) by (nonlinear_arith)
            requires
                p > 0,
        ;
        assert((4 * (n * p) > z * (kk * p)) == (4 * n > z * kk)) by (nonlinear_arith)
            requires
                p > 0,
        ;
    }
    lemma_nearest_root(n, k, r, c);
    rounding::lemma_rank_shifted(2 * r + c, 1, e - 1, s, t + 1);
    assert(1 * rounding::down(e - 1) == rounding::down(e - 1));
    assert(1 * pow2(t + 1) == 2 * k);
    assert(1 * (kk * p) == kk * p);
}

/// A root of at least `2^(24 + j)` has a rank of at least `j + 1` grid doublings.
pub(crate) proof fn lemma_root_rank_low(num: nat, den: nat, j: nat)
    requires
        den > 0,
        num >= 0x1_0000_0000_0000 * (den * pow2(2 * j)),
    ensures
        root_rank(num, den) >= 0x80_0000 * (j + 1),
    decreases j,
{
    lemma_pow2_pos(2 * j);
    let p = pow2(2 * j);
    assert(den * p >= den) by (nonlinear_arith)
        requires
            p >= 1,
    ;
    if j > 0 {
        lemma_pow2_unfold(2 * j);
        lemma_pow2_unfold((2 * j - 1) as nat);
        let q = pow2((2 * j - 2) as nat);
        assert(2 * ((j - 1) as nat) == (2 * j - 2) as nat);
        assert(den * p == (4 * den) * q) by (nonlinear_arith)
            requires
                p == 4 * q,
        ;
        lemma_root_rank_low(num, 4 * den, (j - 1) as nat);
    }
}

/// The whole part of the square root of `n`.
pub(crate) fn whole_root(n: u128) -> (r: u64)
    requires
        n < 0x40_0000_0000_0000_0000_0000,
    ensures
        r * r <= n,
        n < (r + 1) * (r + 1),
        r < 0x800_0000_0000,
{
    let mut lo: u64 = 0;
    let mut hi: u64 = 0x800_0000_0000;
    assert(n < hi * hi) by (nonlinear_arith)
        requires
            hi == 0x800_0000_0000,
            n < 0x40_0000_0000_0000_0000_0000,
    ;
    while hi - lo > 1
        invariant
            lo < hi <= 0x800_0000_0000,
            lo * lo <= n,
            n < hi * hi,
        decreases hi - lo,
    {
        let mid: u64 = lo + (hi - lo) / 2;
        assert(mid * mid < 0x800_0000_0000 * 0x800_0000_0000) by (nonlinear_arith)
            requires
                mid < 0x800_0000_0000,
        ;
        if (mid as u128) * (mid as u128) <= n {
            lo = mid;
        } else {
            hi = mid;
        }
    }
    assert(hi == lo + 1);
    lo
}

} // verus!
