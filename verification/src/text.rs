//! Numbers as text.
use crate::binary32;
use crate::binary32::{Binary32, ONE_BITS, SIGN_BIT};
use crate::precision;
use crate::rounding;
use vstd::arithmetic::div_mod::*;
use vstd::arithmetic::power2::*;
use vstd::prelude::*;
use vstd::string::*;

verus! {

/// The digit `d` of base ten or sixteen, letters in upper case.
pub open spec fn digit(d: nat) -> char {
    if d < 10 {
        (48 + d) as char
    } else {
        (55 + d) as char
    }
}

/// The digit `d` of base ten or sixteen, letters in lower case.
pub open spec fn lower_digit(d: nat) -> char {
    if d < 10 {
        (48 + d) as char
    } else {
        (87 + d) as char
    }
}

/// `n` in base ten without leading zeros.
pub open spec fn decimal_text(n: nat) -> Seq<char>
    decreases n,
{
    if n < 10 {
        seq![digit(n)]
    } else {
        decimal_text(n / 10).push(digit(n % 10))
    }
}

/// `b` as two digits of base sixteen.
pub open spec fn hex_byte_text(b: u8) -> Seq<char> {
    seq![digit((b / 16) as nat), digit((b % 16) as nat)]
}

/// Each byte as two digits of base sixteen in lower case.
pub open spec fn hex_text(data: Seq<u8>) -> Seq<char> {
    Seq::new(
        2 * data.len(),
        |i: int|
            lower_digit(
                if i % 2 == 0 {
                    data[i / 2] as nat / 16
                } else {
                    data[i / 2] as nat % 16
                },
            ),
    )
}

/// The ten-thousandth part of a unit that is nearest to the absolute value of `v`;
/// of two equally near, the even one.
pub open spec fn ten_thousandths(v: Binary32) -> nat {
    rounding::nearest_even(v.magnitude() * 10000, pow2(149))
}

/// `v`, of absolute value at most 1, with four digits after the point.
pub open spec fn fixed_text(v: Binary32) -> Seq<char> {
    let n = ten_thousandths(v);
    (if v.sign() {
        seq!['-']
    } else {
        seq![]
    }) + seq![
        digit(n / 10000),
        '.',
        digit(n / 1000 % 10),
        digit(n / 100 % 10),
        digit(n / 10 % 10),
        digit(n % 10),
    ]
}

/// The one-character text of a digit.
fn digit_text(d: u8) -> (r: &'static str)
    requires
        d < 16,
    ensures
        r@ == seq![digit(d as nat)],
{
    proof {
        reveal_strlit("0");
        reveal_strlit("1");
        reveal_strlit("2");
        reveal_strlit("3");
        reveal_strlit("4");
        reveal_strlit("5");
        reveal_strlit("6");
        reveal_strlit("7");
        reveal_strlit("8");
        reveal_strlit("9");
        reveal_strlit("A");
        reveal_strlit("B");
        reveal_strlit("C");
        reveal_strlit("D");
        reveal_strlit("E");
        reveal_strlit("F");
    }
    match d {
        0 => "0",
        1 => "1",
        2 => "2",
        3 => "3",
        4 => "4",
        5 => "5",
        6 => "6",
        7 => "7",
        8 => "8",
        9 => "9",
        10 => "A",
        11 => "B",
        12 => "C",
        13 => "D",
        14 => "E",
        _ => "F",
    }
}

/// Appends `n` in base ten.
pub(crate) fn push_decimal(out: &mut String, n: usize)
    ensures
        final(out)@ == old(out)@ + decimal_text(n as nat),
    decreases n,
{
    if n >= 10 {
        push_decimal(out, n / 10);
    }
    out.append(digit_text((n % 10) as u8));
}

/// Appends a byte as two digits of base sixteen.
pub(crate) fn push_hex_byte(out: &mut String, b: u8)
    ensures
        final(out)@ == old(out)@ + hex_byte_text(b),
{
    out.append(digit_text(b / 16));
    out.append(digit_text(b % 16));
}

/// `hex::encode`: each byte of `data` gives the two lower-case digits of its high and
/// of its low half, in the order of the bytes. It panics where a text of twice as many
/// bytes is too long for an allocation, which the precondition leaves out.
#[verifier::external_body]
pub(crate) fn hex_encode(data: &[u8]) -> (r: String)
    requires
        2 * data@.len() <= isize::MAX,
    ensures
        r@ == hex_text(data@),
{
    hex::encode(data)
}

/// The value in ten-thousandths of one, rounded.
fn scaled(v: Binary32) -> (n: u32)
    requires
        v.key() <= ONE_BITS,
    ensures
        n == ten_thousandths(v),
        n <= 10000,
{
    let (_, m, t) = v.parts();
    let ghost one = Binary32 { bits: ONE_BITS };
    proof {
        binary32::lemma_parts(v);
        binary32::lemma_magnitude_order(v, one);
        lemma2_to64();
        lemma2_to64_rest();
        let p = pow2(t as nat);
        let k = pow2((149 - t) as nat);
        lemma_pow2_adds(23, 126);
        lemma_pow2_adds(t as nat, (149 - t) as nat);
        lemma_pow2_pos(t as nat);
        lemma_pow2_pos((149 - t) as nat);
        assert(m * p <= p * k);
        assert(m <= k) by (nonlinear_arith)
            requires
                m * p <= p * k,
                p > 0,
        ;
        assert((m * p) * 10000 == p * (m * 10000)) by (nonlinear_arith);
        rounding::lemma_nearest_even_scale((m * 10000) as nat, k, p);
    }
    let d: u32 = 149 - t;
    let w: u64 = m as u64 * 10000;
    if d > 40 {
        proof {
            let k = pow2(d as nat);
            rounding::lemma_pow2_monotone(41, d as nat);
            rounding::lemma_nearest_even_from(w as nat, k, 0, w as nat);
        }
        return 0;
    }
    let k: u128 = rounding::power(d);
    proof {
        rounding::lemma_pow2_monotone(d as nat, 40);
        lemma_fundamental_div_mod(w as int, k as int);
    }
    let q: u128 = w as u128 / k;
    let r: u128 = w as u128 % k;
    proof {
        assert(q <= 10000 && (q == 10000 ==> r == 0)) by (nonlinear_arith)
            requires
                w == k * q + r,
                w <= 10000 * k,
                0 <= r < k,
        ;
    }
    if 2 * r < k {
        q as u32
    } else if 2 * r > k {
        (q + 1) as u32
    } else {
        (q + q % 2) as u32
    }
}

/// Appends `v` with four digits after the point.
pub(crate) fn push_fixed(out: &mut String, v: Binary32)
    requires
        v.key() <= ONE_BITS,
    ensures
        final(out)@ == old(out)@ + fixed_text(v),
{
    let n: u32 = scaled(v);
    proof {
        reveal_strlit("-");
        reveal_strlit(".");
    }
    if v.bits >= SIGN_BIT {
        out.append("-");
    }
    out.append(digit_text((n / 10000) as u8));
    out.append(".");
    out.append(digit_text((n / 1000 % 10) as u8));
    out.append(digit_text((n / 100 % 10) as u8));
    out.append(digit_text((n / 10 % 10) as u8));
    out.append(digit_text((n % 10) as u8));
    assert(out@ == old(out)@ + fixed_text(v));
}

/// The text of a value differs from the value by at most half of its last digit, and the
/// text of a value of the range from 0 to 1 is on that range.
pub proof fn law_fixed_text_is_close(v: Binary32)
    requires
        v.key() <= ONE_BITS,
    ensures
        2 * precision::distance(ten_thousandths(v) * pow2(149), v.magnitude() * 10000) <= pow2(149),
        ten_thousandths(v) <= 10000,
{
    let one = Binary32 { bits: ONE_BITS };
    let d = pow2(149);
    let n = v.magnitude() * 10000;
    lemma_pow2_pos(149);
    precision::lemma_one();
    assert(one.key() == ONE_BITS);
    binary32::lemma_magnitude_order(v, one);
    lemma_fundamental_div_mod(n as int, d as int);
    let (q, r) = (n / d, n % d);
    assert(q * d == d * q) by (nonlinear_arith);
    assert((q + 1) * d == d * q + d) by (nonlinear_arith);
    assert(q <= 10000 && (q == 10000 ==> r == 0)) by (nonlinear_arith)
        requires
            n == d * q + r,
            n <= 10000 * d,
            0 <= r < d,
    ;
}

/// The value of a digit: of base ten, or a letter of base sixteen.
pub open spec fn digit_value(c: char) -> int {
    let n = c as int;
    if 48 <= n <= 57 {
        n - 48
    } else if 65 <= n <= 70 {
        n - 55
    } else if 97 <= n <= 102 {
        n - 87
    } else {
        -1
    }
}

/// The number that a text of digits stands for.
pub open spec fn value_of(s: Seq<char>, base: int) -> int
    decreases s.len(),
{
    if s.len() == 0 {
        0
    } else {
        base * value_of(s.drop_last(), base) + digit_value(s.last())
    }
}

/// The decimal text of a number reads back as the number. It holds only the digits 0 to 9,
/// at least one of them, and starts with 0 for zero alone.
pub proof fn law_decimal_text_reads_back(n: nat)
    ensures
        value_of(decimal_text(n), 10) == n,
        decimal_text(n).len() > 0,
        decimal_text(n)[0] == '0' <==> n == 0,
        n == 0 ==> decimal_text(n).len() == 1,
        forall|i: int|
            0 <= i < decimal_text(n).len() ==> '0' <= #[trigger] decimal_text(n)[i] <= '9',
    decreases n,
{
    let t = decimal_text(n);
    if n < 10 {
        assert(t.drop_last().len() == 0);
        assert(value_of(t.drop_last(), 10) == 0);
        assert(t.last() == digit(n));
    } else {
        law_decimal_text_reads_back(n / 10);
        let rest = decimal_text(n / 10);
        assert(t.drop_last() =~= rest);
        assert(t.last() == digit(n % 10));
        assert(t[0] == rest[0]);
        assert forall|i: int| 0 <= i < t.len() implies '0' <= #[trigger] t[i] <= '9' by {
            if i < rest.len() {
                assert(t[i] == rest[i]);
            }
        }
    }
}

/// The text of a byte is two digits of base sixteen, letters in upper case, that read back
/// as the byte.
pub proof fn law_hex_byte_text_reads_back(b: u8)
    ensures
        hex_byte_text(b).len() == 2,
        16 * digit_value(hex_byte_text(b)[0]) + digit_value(hex_byte_text(b)[1]) == b,
        forall|i: int|
            0 <= i < 2 ==> ('0' <= #[trigger] hex_byte_text(b)[i] <= '9' || 'A'
                <= hex_byte_text(b)[i] <= 'F'),
{
}

/// The text of bytes has two digits of base sixteen for each byte, in the order of the
/// bytes, letters in lower case, that read back as the byte.
pub proof fn law_hex_text_reads_back(data: Seq<u8>, i: int)
    requires
        0 <= i < data.len(),
    ensures
        hex_text(data).len() == 2 * data.len(),
        16 * digit_value(hex_text(data)[2 * i]) + digit_value(hex_text(data)[2 * i + 1]) == data[i],
        '0' <= hex_text(data)[2 * i] <= '9' || 'a' <= hex_text(data)[2 * i] <= 'f',
        '0' <= hex_text(data)[2 * i + 1] <= '9' || 'a' <= hex_text(data)[2 * i + 1] <= 'f',
{
    assert((2 * i) % 2 == 0 && (2 * i) / 2 == i);
    assert((2 * i + 1) % 2 == 1 && (2 * i + 1) / 2 == i);
}

/// The text of a number of absolute value at most 1 is an optional minus, for a number with
/// its sign bit set, and one digit, a point and four digits. Read as a number of
/// ten-thousandths, it is nearest to the number: it differs by at most half of one, and
/// where it differs by half its last digit is even.
pub proof fn law_fixed_text_reads_back(v: Binary32)
    requires
        v.key() <= ONE_BITS,
    ensures
        ({
            let t = fixed_text(v);
            let d = if v.sign() {
                t.skip(1)
            } else {
                t
            };
            let n = 10000 * digit_value(d[0]) + 1000 * digit_value(d[2]) + 100 * digit_value(d[3])
                + 10 * digit_value(d[4]) + digit_value(d[5]);
            let unit = pow2(149) as int;
            let exact = 10000 * (v.magnitude() as int);
            &&& v.sign() ==> t[0] == '-'
            &&& d.len() == 6
            &&& d[1] == '.'
            &&& '0' <= d[0] <= '1' && '0' <= d[2] <= '9' && '0' <= d[3] <= '9' && '0' <= d[4]
                <= '9' && '0' <= d[5] <= '9'
            &&& 0 <= n <= 10000
            &&& -unit <= 2 * (n * unit - exact) <= unit
            &&& (2 * (n * unit - exact) == unit || 2 * (n * unit - exact) == -unit) ==> n % 2 == 0
        }),
{
    let t = fixed_text(v);
    let n = ten_thousandths(v);
    law_fixed_text_is_close(v);
    let d = if v.sign() {
        t.skip(1)
    } else {
        t
    };
    assert(d =~= five_digits(n));
    lemma_five_digits(n);
    lemma_ten_thousandths(v);
}

/// The digits of a number of ten-thousandths, with a point behind the first.
spec fn five_digits(n: nat) -> Seq<char> {
    seq![
        digit(n / 10000),
        '.',
        digit(n / 1000 % 10),
        digit(n / 100 % 10),
        digit(n / 10 % 10),
        digit(n % 10),
    ]
}

proof fn lemma_five_digits(n: nat)
    requires
        n <= 10000,
    ensures
        ({
            let d = five_digits(n);
            &&& n == 10000 * digit_value(d[0]) + 1000 * digit_value(d[2]) + 100 * digit_value(d[3])
                + 10 * digit_value(d[4]) + digit_value(d[5])
            &&& '0' <= d[0] <= '1' && '0' <= d[2] <= '9' && '0' <= d[3] <= '9' && '0' <= d[4]
                <= '9' && '0' <= d[5] <= '9'
        }),
{
    let (a, b, c, e, f) = (n / 10000, n / 1000 % 10, n / 100 % 10, n / 10 % 10, n % 10);
    lemma_tens(n, n / 10, n / 100, n / 1000, n / 10000);
    assert(n == 10000 * a + 1000 * b + 100 * c + 10 * e + f);
    lemma_digit(a);
    lemma_digit(b);
    lemma_digit(c);
    lemma_digit(e);
    lemma_digit(f);
    assert(a <= 1);
}

/// Cutting off digits one by one.
proof fn lemma_tens(n: nat, tens: nat, hundreds: nat, thousands: nat, top: nat)
    requires
        tens == n / 10,
        hundreds == n / 100,
        thousands == n / 1000,
        top == n / 10000,
    ensures
        n == 10 * tens + n % 10,
        tens == 10 * hundreds + tens % 10,
        hundreds == 10 * thousands + hundreds % 10,
        thousands == 10 * top + thousands % 10,
{
    assert(n / 10 / 10 == n / 100);
    assert(n / 100 / 10 == n / 1000);
    assert(n / 1000 / 10 == n / 10000);
}

proof fn lemma_digit(d: nat)
    requires
        d < 10,
    ensures
        digit_value(digit(d)) == d,
        '0' <= digit(d) <= '9',
        d <= 1 ==> digit(d) <= '1',
{
}

/// The number of ten-thousandths is nearest to the value.
proof fn lemma_ten_thousandths(v: Binary32)
    ensures
        ({
            let n = ten_thousandths(v) as int;
            let unit = pow2(149) as int;
            let exact = 10000 * (v.magnitude() as int);
            &&& -unit <= 2 * (n * unit - exact) <= unit
            &&& (2 * (n * unit - exact) == unit || 2 * (n * unit - exact) == -unit) ==> n % 2 == 0
        }),
{
    let unit = pow2(149);
    let exact = v.magnitude() * 10000;
    lemma_pow2_pos(149);
    lemma_fundamental_div_mod(exact as int, unit as int);
    let (q, r) = (exact / unit, exact % unit);
    assert(q * unit == unit * q) by (nonlinear_arith);
    assert((q + 1) * unit == unit * q + unit) by (nonlinear_arith);
    assert(ten_thousandths(v) == q || ten_thousandths(v) == q + 1);
}

} // verus!
