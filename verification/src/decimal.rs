//! Decimal numerals read as doubles: the double nearest to the number that
//! the numeral writes, found in integer arithmetic.

use crate::bignum::{lemma_value_bound, Big};
use crate::double::{
    bit_length, exponent, fraction, is_finite, is_negative, lemma_bit_length,
    lemma_pow2_monotone, nearest, rounded_ratio, rounded_shift, scaled,
};
use crate::text::{all_digits, decimal, is_digit, slice};
use vstd::arithmetic::div_mod::lemma_fundamental_div_mod_converse;
use vstd::arithmetic::power2::{
    lemma2_to64, lemma2_to64_rest, lemma_pow2_adds, lemma_pow2_pos, lemma_pow2_unfold, pow2,
};
use vstd::prelude::*;

verus! {

/// Whether `n / m` is at least two to the power `b - a` and below twice that.
pub open spec fn brackets(n: nat, m: nat, a: nat, b: nat) -> bool {
    m * pow2(b) <= n * pow2(a) < 2 * (m * pow2(b))
}

/// Whether `n / m` lies in the binade of two to the power `e`: it is at least
/// that power and below the next.
pub open spec fn in_binade(n: nat, m: nat, e: int) -> bool {
    if e >= 0 {
        brackets(n, m, 0, e as nat)
    } else {
        brackets(n, m, (-e) as nat, 0)
    }
}

/// The binade of `n / m`: the `e` with `2^e <= n / m < 2^(e + 1)`.
pub open spec fn binade(n: nat, m: nat) -> int {
    choose|e: int| in_binade(n, m, e)
}

/// `n / m` times two to the power `shift`, rounded to the nearest integer,
/// to the even one of two that are equally near.
pub open spec fn scaled_round(n: nat, m: nat, shift: int) -> nat {
    if shift >= 0 {
        rounded_ratio(n * pow2(shift as nat), m)
    } else {
        rounded_ratio(n, m * pow2((-shift) as nat))
    }
}

/// The bits of positive infinity.
pub open spec fn infinity() -> u64 {
    0x7ff0_0000_0000_0000
}

/// The double nearest to `n / m`, where both are positive: its significand
/// is the ratio scaled into 53 binary digits, or into as many as a subnormal
/// double has, and rounded to nearest, ties to even; what rounds to 2^1024 or
/// more is infinity.
pub open spec fn ratio_bits(n: nat, m: nat) -> u64 {
    let e = binade(n, m);
    let base = if e >= -1022 {
        e
    } else {
        -1022
    };
    let bits = (base + 1022) * 0x10_0000_0000_0000 + scaled_round(n, m, 52 - base);
    if bits >= infinity() {
        infinity()
    } else {
        bits as u64
    }
}

proof fn lemma_mul_pow2(x: int, i: nat, j: nat)
    ensures
        x * pow2(i) * pow2(j) == x * pow2(i + j),
{
    lemma_pow2_adds(i, j);
    assert(x * pow2(i) * pow2(j) == x * (pow2(i) * pow2(j))) by (nonlinear_arith);
}

proof fn lemma_scale_le(p: int, q: int, k: nat)
    ensures
        (p * pow2(k) < q * pow2(k)) <==> p < q,
        (p * pow2(k) <= q * pow2(k)) <==> p <= q,
{
    lemma_pow2_pos(k);
    let c = pow2(k) as int;
    assert(((p * c < q * c) <==> p < q) && ((p * c <= q * c) <==> p <= q)) by (nonlinear_arith)
        requires
            c > 0,
    ;
}

/// Brackets with both powers raised by the same amount are the same
/// brackets.
proof fn lemma_brackets_shift(n: nat, m: nat, a: nat, b: nat, k: nat)
    ensures
        brackets(n, m, a + k, b + k) == brackets(n, m, a, b),
{
    lemma_mul_pow2(n as int, a, k);
    lemma_mul_pow2(m as int, b, k);
    lemma_scale_le((m * pow2(b)) as int, (n * pow2(a)) as int, k);
    lemma_scale_le((n * pow2(a)) as int, (2 * (m * pow2(b))) as int, k);
    assert(2 * (m * pow2(b)) * pow2(k) == 2 * (m * pow2(b) * pow2(k))) by (nonlinear_arith);
}

/// Brackets give the binade.
proof fn lemma_brackets_binade(n: nat, m: nat, a: nat, b: nat)
    requires
        brackets(n, m, a, b),
    ensures
        in_binade(n, m, b - a),
{
    if b >= a {
        lemma_brackets_shift(n, m, 0, (b - a) as nat, a);
    } else {
        lemma_brackets_shift(n, m, (a - b) as nat, 0, b);
    }
}

/// A ratio lies in one binade only.
proof fn lemma_binade_unique(n: nat, m: nat, e1: int, e2: int)
    requires
        m > 0,
        in_binade(n, m, e1),
        in_binade(n, m, e2),
    ensures
        e1 == e2,
{
    let a1 = (if e1 >= 0 {
        0
    } else {
        -e1
    }) as nat;
    let b1 = (if e1 >= 0 {
        e1
    } else {
        0
    }) as nat;
    let a2 = (if e2 >= 0 {
        0
    } else {
        -e2
    }) as nat;
    let b2 = (if e2 >= 0 {
        e2
    } else {
        0
    }) as nat;
    lemma_brackets_shift(n, m, a1, b1, a2);
    lemma_brackets_shift(n, m, a2, b2, a1);
    let x = n * pow2(a1 + a2);
    assert(a2 + a1 == a1 + a2);
    let u = (b1 + a2) as nat;
    let v = (b2 + a1) as nat;
    assert(m * pow2(u) <= x < 2 * (m * pow2(u)));
    assert(m * pow2(v) <= x < 2 * (m * pow2(v)));
    if u < v {
        lemma_pow2_monotone(u + 1, v);
        lemma_pow2_unfold(u + 1);
        assert(2 * (m * pow2(u)) <= m * pow2(v)) by (nonlinear_arith)
            requires
                2 * pow2(u) <= pow2(v),
                m >= 0,
        ;
    }
    if v < u {
        lemma_pow2_monotone(v + 1, u);
        lemma_pow2_unfold(v + 1);
        assert(2 * (m * pow2(v)) <= m * pow2(u)) by (nonlinear_arith)
            requires
                2 * pow2(v) <= pow2(u),
                m >= 0,
        ;
    }
}

/// Brackets give the binade that `binade` names.
proof fn lemma_binade(n: nat, m: nat, a: nat, b: nat)
    requires
        m > 0,
        brackets(n, m, a, b),
    ensures
        binade(n, m) == b - a,
{
    lemma_brackets_binade(n, m, a, b);
    lemma_binade_unique(n, m, binade(n, m), b - a);
}

/// Rounding a ratio does not change when both of its parts are scaled alike.
proof fn lemma_rounded_ratio_scale(x: nat, y: nat, c: nat)
    requires
        y > 0,
        c > 0,
    ensures
        rounded_ratio(x * c, y * c) == rounded_ratio(x, y),
{
    let q = x / y;
    let r = x % y;
    assert(x == q * y + r && 0 <= r < y) by (nonlinear_arith)
        requires
            y > 0,
            q == x / y,
            r == x % y,
    ;
    assert(x * c == q * (y * c) + r * c && 0 <= r * c < y * c) by (nonlinear_arith)
        requires
            x == q * y + r,
            0 <= r < y,
            c > 0,
    ;
    lemma_fundamental_div_mod_converse((x * c) as int, (y * c) as int, q as int, (r * c) as int);
    assert(2 * (r * c) == (2 * r) * c) by (nonlinear_arith);
    assert(((2 * r) * c > y * c) == (2 * r > y) && ((2 * r) * c == y * c) == (2 * r == y))
        by (nonlinear_arith)
        requires
            c > 0,
    ;
}

/// The rounded significand in terms of a numerator and a denominator that
/// were scaled by powers of two.
proof fn lemma_scaled_round(n: nat, m: nat, a: nat, b: nat, steps: int)
    requires
        m > 0,
    ensures
        steps >= 0 ==> scaled_round(n, m, steps + a - b) == rounded_ratio(
            n * pow2(a) * pow2(steps as nat),
            m * pow2(b),
        ),
        steps < 0 ==> scaled_round(n, m, steps + a - b) == rounded_ratio(
            n * pow2(a),
            m * pow2(b) * pow2((-steps) as nat),
        ),
{
    let shift = steps + a - b;
    lemma_pow2_pos(a);
    lemma_pow2_pos(b);
    if shift < 0 {
        lemma_pow2_pos((-shift) as nat);
        assert(m * pow2((-shift) as nat) > 0) by (nonlinear_arith)
            requires
                m > 0,
                pow2((-shift) as nat) > 0,
        ;
    }
    if steps >= 0 {
        let s = steps as nat;
        lemma_mul_pow2(n as int, a, s);
        if shift >= 0 {
            // both sides scaled by 2^b
            lemma_rounded_ratio_scale(n * pow2(shift as nat), m, pow2(b));
            lemma_mul_pow2(n as int, shift as nat, b);
            assert(shift + b == a + s);
        } else {
            // both sides scaled by 2^(a + steps)
            lemma_pow2_pos(a + s);
            lemma_rounded_ratio_scale(n, m * pow2((-shift) as nat), pow2(a + s));
            lemma_mul_pow2(m as int, (-shift) as nat, a + s);
            assert(-shift + a + s == b);
        }
    } else {
        let s = (-steps) as nat;
        lemma_mul_pow2(m as int, b, s);
        if shift >= 0 {
            lemma_pow2_pos(b + s);
            lemma_rounded_ratio_scale(n * pow2(shift as nat), m, pow2(b + s));
            lemma_mul_pow2(n as int, shift as nat, b + s);
            assert(shift + b + s == a);
        } else {
            lemma_rounded_ratio_scale(n, m * pow2((-shift) as nat), pow2(a));
            lemma_mul_pow2(m as int, (-shift) as nat, a);
            assert(-shift + a == b + s);
        }
    }
}

/// A ratio below one is brought to one or more by doubling its numerator.
proof fn lemma_brackets_up(n: nat, m: nat) -> (a: nat)
    requires
        0 < n < m,
    ensures
        brackets(n, m, a, 0),
    decreases m - n,
{
    lemma2_to64();
    if 2 * n >= m {
        assert(n * pow2(1) == 2 * n && m * pow2(0) == m) by (nonlinear_arith)
            requires
                pow2(1) == 2,
                pow2(0) == 1,
        ;
        1
    } else {
        let a = lemma_brackets_up(2 * n, m);
        lemma_pow2_unfold(a + 1);
        assert((2 * n) * pow2(a) == n * pow2(a + 1)) by (nonlinear_arith)
            requires
                pow2(a + 1) == 2 * pow2(a),
        ;
        a + 1
    }
}

/// A ratio of one or more is brought below two by doubling its denominator.
proof fn lemma_brackets_down(n: nat, m: nat) -> (b: nat)
    requires
        0 < m <= n,
    ensures
        brackets(n, m, 0, b),
    decreases n - m,
{
    lemma2_to64();
    if n < 2 * m {
        assert(n * pow2(0) == n && m * pow2(0) == m) by (nonlinear_arith)
            requires
                pow2(0) == 1,
        ;
        0
    } else {
        let b = lemma_brackets_down(n, 2 * m);
        lemma_pow2_unfold(b + 1);
        assert((2 * m) * pow2(b) == m * pow2(b + 1)) by (nonlinear_arith)
            requires
                pow2(b + 1) == 2 * pow2(b),
        ;
        b + 1
    }
}

/// Every ratio of positive numbers lies in its binade.
pub proof fn lemma_binade_exists(n: nat, m: nat)
    requires
        n > 0,
        m > 0,
    ensures
        in_binade(n, m, binade(n, m)),
{
    if n < m {
        let a = lemma_brackets_up(n, m);
        lemma_brackets_binade(n, m, a, 0);
    } else {
        let b = lemma_brackets_down(n, m);
        lemma_brackets_binade(n, m, 0, b);
    }
}

/// In a binade from that of the least normal double on, the significand has
/// 53 binary digits, or is 2^53.
proof fn lemma_normal_significand(n: nat, m: nat, a: nat, b: nat)
    requires
        m > 0,
        brackets(n, m, a, b),
    ensures
        0x10_0000_0000_0000 <= scaled_round(n, m, 52 + a - b) <= 0x20_0000_0000_0000,
{
    lemma_scaled_round(n, m, a, b, 52);
    lemma2_to64_rest();
    lemma_pow2_pos(b);
    let x = (n * pow2(a) * pow2(52)) as int;
    let d = (m * pow2(b)) as int;
    assert(d > 0) by (nonlinear_arith)
        requires
            d == m * pow2(b),
            m > 0,
            pow2(b) > 0,
    ;
    assert(0x10_0000_0000_0000 * d <= x < 0x20_0000_0000_0000 * d) by (nonlinear_arith)
        requires
            d <= n * pow2(a) < 2 * d,
            x == n * pow2(a) * 0x10_0000_0000_0000,
    ;
    let q = x / d;
    let r = x % d;
    assert(x == q * d + r && 0 <= r < d) by (nonlinear_arith)
        requires
            d > 0,
            q == x / d,
            r == x % d,
    ;
    assert(0x10_0000_0000_0000 <= q < 0x20_0000_0000_0000) by (nonlinear_arith)
        requires
            0x10_0000_0000_0000 * d <= x < 0x20_0000_0000_0000 * d,
            x == q * d + r,
            0 <= r < d,
    ;
}

/// What lies two binades or more below the least subnormal double rounds to
/// zero.
proof fn lemma_tiny(n: nat, m: nat, a: nat, b: nat)
    requires
        m > 0,
        brackets(n, m, a, b),
        b - a <= -1076,
    ensures
        ratio_bits(n, m) == 0,
{
    lemma_binade(n, m, a, b);
    let steps = 1074 + b - a;
    lemma_scaled_round(n, m, a, b, steps);
    let s = (-steps) as nat;
    lemma_pow2_pos(b);
    lemma_pow2_monotone(2, s);
    lemma2_to64();
    let x = (n * pow2(a)) as int;
    let d0 = (m * pow2(b)) as int;
    let d = (d0 * pow2(s)) as int;
    assert(d >= 4 * d0 && d0 > 0) by (nonlinear_arith)
        requires
            d == d0 * pow2(s),
            pow2(s) >= 4,
            d0 == m * pow2(b),
            m > 0,
            pow2(b) > 0,
    ;
    lemma_fundamental_div_mod_converse(x, d, 0, x);
}

/// What lies in a binade above that of the greatest double is infinity.
proof fn lemma_huge(n: nat, m: nat, a: nat, b: nat)
    requires
        m > 0,
        brackets(n, m, a, b),
        b - a >= 1024,
    ensures
        ratio_bits(n, m) == infinity(),
{
    lemma_binade(n, m, a, b);
    lemma_normal_significand(n, m, a, b);
}

/// The double nearest to `n / m`.
pub fn ratio_to_bits(n: Big, m: Big) -> (r: u64)
    requires
        n@ > 0,
        m@ > 0,
    ensures
        r == ratio_bits(n@, m@),
{
    let ghost n0 = n@;
    let ghost m0 = m@;
    let mut num = n;
    let mut a: u128 = 0;
    let m_len = m.limbs.len();
    proof {
        lemma2_to64();
        assert(n0 * pow2(0) == n0) by (nonlinear_arith)
            requires
                pow2(0) == 1,
        ;
        lemma_value_bound(m.limbs@);
    }
    while !num.at_least(&m)
        invariant
            n0 > 0,
            m@ == m0,
            num@ == n0 * pow2(a as nat),
            a > 0 ==> num@ < 2 * m0,
            a <= 32 * m_len,
            m0 < pow2((32 * m_len) as nat),
        decreases
                (if num@ < m0 {
                    m0 - num@
                } else {
                    0
                }),
    {
        proof {
            lemma_pow2_unfold((a + 1) as nat);
            lemma_pow2_pos(a as nat);
            assert(n0 * (2 * pow2(a as nat)) == 2 * (n0 * pow2(a as nat))) by (nonlinear_arith);
            assert(0 < pow2(a as nat) <= n0 * pow2(a as nat)) by (nonlinear_arith)
                requires
                    n0 >= 1,
                    pow2(a as nat) > 0,
            ;
            if a >= 32 * m_len {
                lemma_pow2_monotone((32 * m_len) as nat, a as nat);
            }
            assert(a < 32 * m_len);
        }
        num = num.doubled();
        a = a + 1;
    }
    let mut den = m;
    let mut b: u128 = 0;
    let mut twice = den.doubled();
    let num_len = num.limbs.len();
    proof {
        assert(m0 * pow2(0) == m0) by (nonlinear_arith)
            requires
                pow2(0) == 1,
        ;
        lemma_value_bound(num.limbs@);
    }
    while num.at_least(&twice)
        invariant
            m0 > 0,
            num@ == n0 * pow2(a as nat),
            den@ == m0 * pow2(b as nat),
            twice@ == 2 * den@,
            den@ <= num@,
            a > 0 ==> num@ < 2 * m0,
            b > 0 ==> a == 0,
            b <= 32 * num_len,
            num@ < pow2((32 * num_len) as nat),
            a <= 32 * m_len,
        decreases num@ - den@,
    {
        proof {
            lemma_pow2_unfold((b + 1) as nat);
            assert(m0 * (2 * pow2(b as nat)) == 2 * (m0 * pow2(b as nat))) by (nonlinear_arith);
            assert(pow2((b + 1) as nat) <= m0 * pow2((b + 1) as nat)) by (nonlinear_arith)
                requires
                    m0 >= 1,
                    pow2((b + 1) as nat) >= 0,
            ;
            if b + 1 > 32 * num_len {
                lemma_pow2_monotone((32 * num_len) as nat, (b + 1) as nat);
            }
            assert(b < 32 * num_len);
            if a > 0 {
                lemma2_to64();
                assert(m0 * pow2(0) == m0) by (nonlinear_arith)
                    requires
                        pow2(0) == 1,
                ;
            }
            lemma_pow2_pos(b as nat);
            assert(den@ > 0) by (nonlinear_arith)
                requires
                    den@ == m0 * pow2(b as nat),
                    m0 > 0,
                    pow2(b as nat) > 0,
            ;
        }
        den = twice;
        b = b + 1;
        twice = den.doubled();
    }
    assert(brackets(n0, m0, a as nat, b as nat));
    let e: i128 = b as i128 - a as i128;
    if e >= 1024 {
        proof {
            lemma_huge(n0, m0, a as nat, b as nat);
        }
        return 0x7ff0_0000_0000_0000;
    }
    if e <= -1076 {
        proof {
            lemma_tiny(n0, m0, a as nat, b as nat);
        }
        return 0;
    }
    let base: i128 = if e >= -1022 {
        e
    } else {
        -1022
    };
    let steps: i128 = 52 + e - base;
    proof {
        lemma_binade(n0, m0, a as nat, b as nat);
        lemma_scaled_round(n0, m0, a as nat, b as nat, steps as int);
        lemma_pow2_pos(b as nat);
        assert(den@ > 0) by (nonlinear_arith)
            requires
                den@ == m0 * pow2(b as nat),
                m0 > 0,
                pow2(b as nat) > 0,
        ;
    }
    let sig: u64 = if steps < 0 {
        proof {
            assert(steps == -1);
            lemma2_to64();
            assert(den@ * pow2(1) == 2 * den@) by (nonlinear_arith)
                requires
                    pow2(1) == 2,
            ;
            lemma_fundamental_div_mod_converse(num@ as int, (2 * den@) as int, 0, num@ as int);
        }
        if den.at_least(&num) {
            0
        } else {
            1
        }
    } else {
        let mut q: u64 = 1;
        let mut rem = num.minus(&den);
        let mut i: u32 = 0;
        proof {
            assert(num@ * pow2(0) == 1 * den@ + rem@) by (nonlinear_arith)
                requires
                    pow2(0) == 1,
                    rem@ == num@ - den@,
            ;
            lemma2_to64();
        }
        while (i as i128) < steps
            invariant
                0 <= i <= steps <= 52,
                den@ > 0,
                num@ * pow2(i as nat) == q * den@ + rem@,
                rem@ < den@,
                pow2(i as nat) <= q < pow2((i + 1) as nat),
            decreases steps - i,
        {
            proof {
                lemma_pow2_unfold((i + 1) as nat);
                lemma_pow2_unfold((i + 2) as nat);
                lemma_pow2_monotone((i + 2) as nat, 53);
                lemma2_to64_rest();
                assert(num@ * (2 * pow2(i as nat)) == 2 * (num@ * pow2(i as nat)))
                    by (nonlinear_arith);
                assert(2 * (q * den@ + rem@) == (2 * q) * den@ + 2 * rem@) by (nonlinear_arith);
                assert((2 * q) * den@ + 2 * rem@ == (2 * q + 1) * den@ + (2 * rem@ - den@))
                    by (nonlinear_arith);
            }
            rem = rem.doubled();
            q = q * 2;
            if rem.at_least(&den) {
                rem = rem.minus(&den);
                q = q + 1;
            }
            i = i + 1;
        }
        let twice_rem = rem.doubled();
        let above = twice_rem.at_least(&den);
        let below = den.at_least(&twice_rem);
        proof {
            lemma_fundamental_div_mod_converse(
                (num@ * pow2(steps as nat)) as int,
                den@ as int,
                q as int,
                rem@ as int,
            );
            lemma_pow2_monotone((i + 1) as nat, 53);
            lemma2_to64_rest();
        }
        if (above && !below) || (above && below && q % 2 == 1) {
            q + 1
        } else {
            q
        }
    };
    proof {
        if e >= -1022 {
            lemma_normal_significand(n0, m0, a as nat, b as nat);
        }
    }
    let bits: u64 = ((base + 1022) as u64) * 0x10_0000_0000_0000 + sig;
    if bits >= 0x7ff0_0000_0000_0000 {
        0x7ff0_0000_0000_0000
    } else {
        bits
    }
}

/// Ten to the power `e`.
pub open spec fn pow10(e: nat) -> nat
    decreases e,
{
    if e == 0 {
        1
    } else {
        10 * pow10((e - 1) as nat)
    }
}

/// A power of ten is at least the power of two with three times the
/// exponent, and powers of ten grow with their exponents.
proof fn lemma_pow10(i: nat, j: nat)
    requires
        i <= j,
    ensures
        pow2(3 * i) <= pow10(i) <= pow10(j),
    decreases j,
{
    lemma2_to64();
    if i > 0 {
        lemma_pow10((i - 1) as nat, (i - 1) as nat);
        lemma_pow2_adds(3, (3 * (i - 1)) as nat);
        assert(3 * i == 3 + 3 * (i - 1));
    }
    if i < j {
        lemma_pow10(i, (j - 1) as nat);
    }
}

/// Digits write a number below the power of ten that their count gives.
proof fn lemma_decimal_bound(digits: Seq<char>)
    requires
        all_digits(digits),
    ensures
        decimal(digits) < pow10(digits.len()),
    decreases digits.len(),
{
    if digits.len() > 0 {
        let head = digits.drop_last();
        assert forall|i: int| 0 <= i < head.len() implies is_digit(#[trigger] head[i]) by {
            assert(head[i] == digits[i]);
        }
        lemma_decimal_bound(head);
        assert(is_digit(digits[digits.len() - 1]));
    }
}

/// The double that a numeral denotes: the double nearest to `mantissa` times
/// ten to the power `exp10`.
pub open spec fn numeral_bits(mantissa: nat, exp10: int) -> u64 {
    if mantissa == 0 {
        0
    } else if exp10 >= 0 {
        ratio_bits(mantissa * pow10(exp10 as nat), 1)
    } else {
        ratio_bits(mantissa, pow10((-exp10) as nat))
    }
}

/// A numeral with a power of ten above 400 denotes infinity, unless it
/// denotes zero.
proof fn lemma_numeral_huge(mantissa: nat, exp10: int)
    requires
        mantissa > 0,
        exp10 > 400,
    ensures
        numeral_bits(mantissa, exp10) == infinity(),
{
    let n = mantissa * pow10(exp10 as nat);
    lemma_pow10(401, exp10 as nat);
    assert(n >= pow10(exp10 as nat)) by (nonlinear_arith)
        requires
            n == mantissa * pow10(exp10 as nat),
            mantissa >= 1,
            pow10(exp10 as nat) >= 0,
    ;
    lemma_pow2_pos(1203);
    let b = lemma_brackets_down(n, 1);
    lemma2_to64();
    assert(n * pow2(0) == n) by (nonlinear_arith)
        requires
            pow2(0) == 1,
    ;
    assert(2 * (1 * pow2(b)) == 2 * pow2(b)) by (nonlinear_arith);
    if b < 1024 {
        lemma_pow2_unfold(b + 1);
        lemma_pow2_monotone(b + 1, 1203);
    }
    lemma_huge(n, 1, 0, b);
}

/// A numeral with a power of ten below its count of digits and 400 more
/// denotes zero.
proof fn lemma_numeral_tiny(mantissa: nat, len: nat, exp10: int)
    requires
        mantissa < pow10(len),
        exp10 < -(len + 400),
    ensures
        numeral_bits(mantissa, exp10) == 0,
{
    if mantissa > 0 {
        let m = pow10((-exp10) as nat);
        lemma_pow10(len + 401, (-exp10) as nat);
        lemma_pow10(len, len + 401);
        lemma_pow10(401, 401);
        assert(mantissa < m);
        let a = lemma_brackets_up(mantissa, m);
        lemma2_to64();
        assert(m * pow2(0) == m) by (nonlinear_arith)
            requires
                pow2(0) == 1,
        ;
        lemma_pow10_adds(len, 401);
        lemma_pow2_pos(a);
        let t = pow10(len) as int;
        let p = pow2(a) as int;
        assert(mantissa * p < t * p) by (nonlinear_arith)
            requires
                mantissa < t,
                p > 0,
        ;
        assert(pow10(401) < p) by (nonlinear_arith)
            requires
                t * pow10(401) < t * p,
                t > 0,
        ;
        if a < 1203 {
            lemma_pow2_monotone(a, 1203);
        }
        lemma_tiny(mantissa, m, a, 0);
    }
}

/// Powers of ten multiply as their exponents add.
proof fn lemma_pow10_adds(i: nat, j: nat)
    ensures
        pow10(i + j) == pow10(i) * pow10(j),
        pow10(i) > 0,
    decreases i,
{
    if i == 0 {
        assert(pow10(0) * pow10(j) == pow10(j)) by (nonlinear_arith)
            requires
                pow10(0) == 1,
        ;
    } else {
        lemma_pow10_adds((i - 1) as nat, j);
        assert(i + j - 1 == (i - 1) + j);
        assert(10 * (pow10((i - 1) as nat) * pow10(j)) == (10 * pow10((i - 1) as nat)) * pow10(j))
            by (nonlinear_arith);
    }
}

/// The number that digits write.
fn big_of_digits(digits: &Vec<char>) -> (r: Big)
    requires
        all_digits(digits@),
    ensures
        r@ == decimal(digits@),
{
    let mut r = Big::from_small(0);
    let mut i: usize = 0;
    assert(digits@.subrange(0, 0) =~= Seq::<char>::empty());
    while i < digits.len()
        invariant
            i <= digits.len(),
            all_digits(digits@),
            r@ == decimal(digits@.subrange(0, i as int)),
        decreases digits.len() - i,
    {
        let c = digits[i];
        assert(is_digit(digits@[i as int]));
        let d: u32 = c as u32 - '0' as u32;
        proof {
            let w = digits@.subrange(0, i + 1);
            assert(w.drop_last() =~= digits@.subrange(0, i as int));
            assert(w.last() == c);
        }
        r = r.times_plus(10, d);
        i += 1;
    }
    assert(digits@.subrange(0, digits.len() as int) =~= digits@);
    r
}

/// `x` times ten to the power `k`.
fn times_pow10(x: Big, k: u128) -> (r: Big)
    ensures
        r@ == x@ * pow10(k as nat),
{
    let mut r = x;
    let mut i: u128 = 0;
    assert(x@ * pow10(0) == x@) by (nonlinear_arith)
        requires
            pow10(0) == 1,
    ;
    while i < k
        invariant
            i <= k,
            r@ == x@ * pow10(i as nat),
        decreases k - i,
    {
        proof {
            assert(x@ * pow10(i as nat) * 10 == x@ * (10 * pow10(i as nat))) by (nonlinear_arith);
        }
        r = r.times_plus(10, 0);
        i = i + 1;
    }
    r
}

/// The double that digits with a power of ten denote.
pub fn numeral_to_bits(digits: &Vec<char>, exp10: i128) -> (r: u64)
    requires
        all_digits(digits@),
    ensures
        r == numeral_bits(decimal(digits@), exp10 as int),
{
    let mantissa = big_of_digits(digits);
    if mantissa.is_zero() {
        return 0;
    }
    let len = digits.len() as i128;
    proof {
        lemma_decimal_bound(digits@);
    }
    if exp10 > 400 {
        proof {
            lemma_numeral_huge(decimal(digits@), exp10 as int);
        }
        return 0x7ff0_0000_0000_0000;
    }
    if exp10 < -(len + 400) {
        proof {
            lemma_numeral_tiny(decimal(digits@), digits@.len(), exp10 as int);
        }
        return 0;
    }
    proof {
        lemma_pow10_adds(0, 0);
    }
    if exp10 >= 0 {
        let n = times_pow10(mantissa, exp10 as u128);
        proof {
            lemma_pow10_adds(exp10 as nat, 0);
            assert(n@ > 0) by (nonlinear_arith)
                requires
                    n@ == decimal(digits@) * pow10(exp10 as nat),
                    decimal(digits@) > 0,
                    pow10(exp10 as nat) > 0,
            ;
        }
        ratio_to_bits(n, Big::from_small(1))
    } else {
        let m = times_pow10(Big::from_small(1), (-exp10) as u128);
        proof {
            lemma_pow10_adds((-exp10) as nat, 0);
            assert(1 * pow10((-exp10) as nat) == pow10((-exp10) as nat)) by (nonlinear_arith);
        }
        ratio_to_bits(mantissa, m)
    }
}

/// How many digits `s` begins with.
pub open spec fn digit_run(s: Seq<char>) -> nat
    decreases s.len(),
{
    if s.len() > 0 && is_digit(s[0]) {
        1 + digit_run(s.drop_first())
    } else {
        0
    }
}

/// Whether `c` is the lower-case letter `letter` in either case.
pub open spec fn is_letter(c: char, letter: char) -> bool {
    c == letter || c as u32 + 32 == letter as u32
}

/// Whether `s` spells the lower-case word `word` in letters of either case.
pub open spec fn spells(s: Seq<char>, word: Seq<char>) -> bool {
    s.len() == word.len() && forall|i: int| 0 <= i < s.len() ==> is_letter(s[i], word[i])
}

/// The power of ten that follows a mantissa: none is zero; else an `e` of
/// either case, an optional sign, and one digit or more.
pub open spec fn exponent_of(x: Seq<char>) -> Option<int> {
    if x.len() == 0 {
        Some(0)
    } else if x[0] == 'e' || x[0] == 'E' {
        let t = x.drop_first();
        let signed = t.len() > 0 && (t[0] == '+' || t[0] == '-');
        let d = if signed {
            t.drop_first()
        } else {
            t
        };
        if d.len() > 0 && all_digits(d) {
            Some(
                if t[0] == '-' {
                    -(decimal(d) as int)
                } else {
                    decimal(d) as int
                },
            )
        } else {
            None
        }
    } else {
        None
    }
}

/// Whether a point follows the digits that `body` begins with.
pub open spec fn is_dotted(body: Seq<char>) -> bool {
    digit_run(body) < body.len() && body[digit_run(body) as int] == '.'
}

/// How many digits follow the point of `body`, where it has one.
pub open spec fn fraction_len(body: Seq<char>) -> nat {
    if is_dotted(body) {
        digit_run(body.subrange(digit_run(body) as int + 1, body.len() as int))
    } else {
        0
    }
}

/// Where the mantissa of `body` ends: behind its digits, its point and the
/// digits behind the point.
pub open spec fn mantissa_end(body: Seq<char>) -> int {
    if is_dotted(body) {
        digit_run(body) as int + 1 + fraction_len(body)
    } else {
        digit_run(body) as int
    }
}

/// The digits of the mantissa of `body`, those in front of the point and
/// those behind it.
pub open spec fn mantissa_digits(body: Seq<char>) -> Seq<char> {
    if is_dotted(body) {
        body.subrange(0, digit_run(body) as int) + body.subrange(
            digit_run(body) as int + 1,
            mantissa_end(body),
        )
    } else {
        body.subrange(0, digit_run(body) as int)
    }
}

/// The double that an unsigned numeral denotes: digits, then optionally a
/// point and digits, with at least one digit in all, then optionally a power
/// of ten.
pub open spec fn finite_of(body: Seq<char>) -> Option<u64> {
    if digit_run(body) + fraction_len(body) == 0 {
        None
    } else {
        match exponent_of(body.subrange(mantissa_end(body), body.len() as int)) {
            Some(x) => Some(numeral_bits(decimal(mantissa_digits(body)), x - fraction_len(body))),
            None => None,
        }
    }
}

/// The bits of the double that is not a number.
pub open spec fn not_a_number() -> u64 {
    0x7ff8_0000_0000_0000
}

/// The double that a text denotes, as `str::parse` reads it: an optional
/// sign, then `inf`, `infinity` or `nan` in letters of either case, or a
/// decimal numeral. A numeral denotes the double nearest to its value.
pub open spec fn double_of_text(s: Seq<char>) -> Option<u64> {
    let signed = s.len() > 0 && (s[0] == '+' || s[0] == '-');
    let body = if signed {
        s.drop_first()
    } else {
        s
    };
    let magnitude = if spells(body, seq!['i', 'n', 'f']) || spells(
        body,
        seq!['i', 'n', 'f', 'i', 'n', 'i', 't', 'y'],
    ) {
        Some(infinity())
    } else if spells(body, seq!['n', 'a', 'n']) {
        Some(not_a_number())
    } else {
        finite_of(body)
    };
    match magnitude {
        Some(bits) => Some(
            if signed && s[0] == '-' {
                (bits + 0x8000_0000_0000_0000) as u64
            } else {
                bits
            },
        ),
        None => None,
    }
}

/// Numerals with powers of ten beyond the same bound denote the same double.
proof fn lemma_numeral_saturated(mantissa: nat, len: nat, x: int, y: int)
    requires
        mantissa < pow10(len),
        (x > 400 && y > 400) || (x < -(len + 400) && y < -(len + 400)),
    ensures
        numeral_bits(mantissa, x) == numeral_bits(mantissa, y),
{
    if mantissa > 0 {
        if x > 400 {
            lemma_numeral_huge(mantissa, x);
            lemma_numeral_huge(mantissa, y);
        } else {
            lemma_numeral_tiny(mantissa, len, x);
            lemma_numeral_tiny(mantissa, len, y);
        }
    }
}

/// A double that a numeral denotes has no sign bit.
proof fn lemma_numeral_bits_bound(mantissa: nat, exp10: int)
    ensures
        numeral_bits(mantissa, exp10) <= infinity(),
{
}

fn digit(c: char) -> (r: bool)
    ensures
        r == is_digit(c),
{
    c >= '0' && c <= '9'
}

/// The place at which the digits from `from` on end.
fn end_of_digits(s: &Vec<char>, from: usize) -> (r: usize)
    requires
        from <= s.len(),
    ensures
        from <= r <= s.len(),
        r - from == digit_run(s@.subrange(from as int, s.len() as int)),
        all_digits(s@.subrange(from as int, r as int)),
        r < s.len() ==> !is_digit(s@[r as int]),
{
    let n = s.len();
    let mut i: usize = from;
    while i < n && digit(s[i])
        invariant
            from <= i <= n,
            n == s.len(),
            digit_run(s@.subrange(from as int, n as int)) == (i - from) + digit_run(
                s@.subrange(i as int, n as int),
            ),
            all_digits(s@.subrange(from as int, i as int)),
        decreases n - i,
    {
        proof {
            let w = s@.subrange(i as int, n as int);
            assert(w.drop_first() =~= s@.subrange(i + 1, n as int));
            assert(w[0] == s@[i as int]);
            let d = s@.subrange(from as int, i + 1);
            assert forall|j: int| 0 <= j < d.len() implies is_digit(#[trigger] d[j]) by {
                if j < i - from {
                    assert(d[j] == s@.subrange(from as int, i as int)[j]);
                }
            }
        }
        i += 1;
    }
    proof {
        let w = s@.subrange(i as int, n as int);
        if i < n {
            assert(w[0] == s@[i as int]);
        }
    }
    i
}

/// Whether `s[from..]` spells `word`.
fn spelled(s: &Vec<char>, from: usize, word: &Vec<char>) -> (r: bool)
    requires
        from <= s.len(),
    ensures
        r == spells(s@.subrange(from as int, s.len() as int), word@),
{
    let ghost body = s@.subrange(from as int, s.len() as int);
    if s.len() - from != word.len() {
        return false;
    }
    let mut i: usize = 0;
    while i < word.len()
        invariant
            i <= word.len(),
            from + word.len() == s.len(),
            body == s@.subrange(from as int, s.len() as int),
            forall|j: int| 0 <= j < i ==> is_letter(body[j], word@[j]),
        decreases word.len() - i,
    {
        let c = s[from + i];
        let w = word[i];
        assert(body[i as int] == c);
        let upper = w as u32 >= 32 && c as u32 == w as u32 - 32;
        if !(c == w || upper) {
            return false;
        }
        i += 1;
    }
    true
}

/// The number that digits write, or `10^30` where they write more.
fn capped(s: &Vec<char>, from: usize, to: usize) -> (r: i128)
    requires
        from <= to <= s.len(),
        all_digits(s@.subrange(from as int, to as int)),
    ensures
        0 <= r <= 1_000_000_000_000_000_000_000_000_000_000,
        r == (if decimal(s@.subrange(from as int, to as int))
            < 1_000_000_000_000_000_000_000_000_000_000 {
            decimal(s@.subrange(from as int, to as int)) as int
        } else {
            1_000_000_000_000_000_000_000_000_000_000
        }),
{
    let ghost d = s@.subrange(from as int, to as int);
    let mut acc: i128 = 0;
    let mut i: usize = from;
    assert(d.subrange(0, 0) =~= Seq::<char>::empty());
    while i < to
        invariant
            from <= i <= to <= s.len(),
            d == s@.subrange(from as int, to as int),
            all_digits(d),
            0 <= acc <= 1_000_000_000_000_000_000_000_000_000_000,
            acc == (if decimal(d.subrange(0, i - from))
                < 1_000_000_000_000_000_000_000_000_000_000 {
                decimal(d.subrange(0, i - from)) as int
            } else {
                1_000_000_000_000_000_000_000_000_000_000
            }),
        decreases to - i,
    {
        let c = s[i];
        proof {
            assert(d[i - from] == c);
            assert(is_digit(d[i - from]));
            let w = d.subrange(0, i - from + 1);
            assert(w.drop_last() =~= d.subrange(0, i - from));
            assert(w.last() == c);
        }
        let v: i128 = (c as u32 - '0' as u32) as i128;
        let next = acc * 10 + v;
        acc = if next < 1_000_000_000_000_000_000_000_000_000_000 {
            next
        } else {
            1_000_000_000_000_000_000_000_000_000_000
        };
        i += 1;
    }
    assert(d.subrange(0, to - from) =~= d);
    acc
}

/// Reads the power of ten that follows a mantissa, capped at `10^30` either
/// way.
fn read_exponent(s: &Vec<char>, from: usize) -> (r: Option<i128>)
    requires
        from <= s.len(),
    ensures
        match (r, exponent_of(s@.subrange(from as int, s.len() as int))) {
            (Some(x), Some(y)) => if -1_000_000_000_000_000_000_000_000_000_000 < y
                < 1_000_000_000_000_000_000_000_000_000_000 {
                x == y
            } else {
                (x == 1_000_000_000_000_000_000_000_000_000_000 && y >= x) || (x
                    == -1_000_000_000_000_000_000_000_000_000_000 && y <= x)
            },
            (None, None) => true,
            _ => false,
        },
{
    let n = s.len();
    let ghost x = s@.subrange(from as int, n as int);
    if from == n {
        return Some(0);
    }
    assert(x[0] == s@[from as int]);
    if !(s[from] == 'e' || s[from] == 'E') {
        return None;
    }
    let ghost t = x.drop_first();
    assert(t =~= s@.subrange(from + 1, n as int));
    let k = from + 1;
    let signed = k < n && (s[k] == '+' || s[k] == '-');
    let negative = signed && s[k] == '-';
    let first = if signed {
        k + 1
    } else {
        k
    };
    let ghost d = s@.subrange(first as int, n as int);
    proof {
        if k < n {
            assert(t[0] == s@[k as int]);
        }
        if signed {
            assert(t.drop_first() =~= d);
        }
    }
    let end = end_of_digits(s, first);
    if end == first || end != n {
        proof {
            if end != n {
                assert(d[end - first] == s@[end as int]);
            }
        }
        return None;
    }
    let magnitude = capped(s, first, n);
    Some(if negative {
        -magnitude
    } else {
        magnitude
    })
}

/// Finds the mantissa of `s[start..]`: where its leading digits end, where
/// the mantissa ends, and whether it has a point.
fn scan_mantissa(s: &Vec<char>, start: usize) -> (r: (usize, usize, bool))
    requires
        start <= s.len(),
    ensures
        start <= r.0 <= r.1 <= s.len(),
        r.0 - start == digit_run(s@.subrange(start as int, s.len() as int)),
        r.2 == is_dotted(s@.subrange(start as int, s.len() as int)),
        r.1 - start == mantissa_end(s@.subrange(start as int, s.len() as int)),
        r.2 ==> r.1 > r.0,
        all_digits(s@.subrange(start as int, r.0 as int)),
        r.2 ==> all_digits(s@.subrange(r.0 + 1, r.1 as int)),
{
    let n = s.len();
    let ghost body = s@.subrange(start as int, n as int);
    let i = end_of_digits(s, start);
    let dotted = i < n && s[i] == '.';
    proof {
        if i < n {
            assert(body[i - start] == s@[i as int]);
        }
    }
    if dotted {
        assert(body.subrange(i - start + 1, body.len() as int) =~= s@.subrange(i + 1, n as int));
        let j = end_of_digits(s, i + 1);
        (i, j, true)
    } else {
        (i, i, false)
    }
}

/// The digits of a mantissa, those in front of the point and those behind.
fn collect_digits(s: &Vec<char>, start: usize, i: usize, j: usize, dotted: bool) -> (r: Vec<char>)
    requires
        start <= i <= j <= s.len(),
        dotted ==> j > i,
        all_digits(s@.subrange(start as int, i as int)),
        dotted ==> all_digits(s@.subrange(i + 1, j as int)),
    ensures
        r@ == (if dotted {
            s@.subrange(start as int, i as int) + s@.subrange(i + 1, j as int)
        } else {
            s@.subrange(start as int, i as int)
        }),
        all_digits(r@),
{
    let mut digits = slice(s, start, i);
    if dotted {
        let mut k: usize = i + 1;
        let ghost head = digits@;
        assert(head + s@.subrange(i + 1, i + 1) =~= head);
        while k < j
            invariant
                i + 1 <= k <= j <= s.len(),
                digits@ == head + s@.subrange(i + 1, k as int),
            decreases j - k,
        {
            digits.push(s[k]);
            k += 1;
            assert(head + s@.subrange(i + 1, k as int) =~= (head + s@.subrange(i + 1, k - 1)).push(
                s@[k - 1],
            ));
        }
        assert forall|q: int| 0 <= q < digits@.len() implies is_digit(#[trigger] digits@[q]) by {
            if q < i - start {
                assert(digits@[q] == s@.subrange(start as int, i as int)[q]);
            } else {
                assert(digits@[q] == s@.subrange(i + 1, j as int)[q - (i - start)]);
            }
        }
    }
    digits
}

/// Reads an unsigned numeral.
fn read_finite(s: &Vec<char>, start: usize) -> (r: Option<u64>)
    requires
        start <= s.len(),
    ensures
        r == finite_of(s@.subrange(start as int, s.len() as int)),
        r is Some ==> r->Some_0 <= infinity(),
{
    let n = s.len();
    let ghost body = s@.subrange(start as int, n as int);
    let (i, j, dotted) = scan_mantissa(s, start);
    let f: usize = if dotted {
        j - i - 1
    } else {
        0
    };
    if (i - start) + f == 0 {
        return None;
    }
    let digits = collect_digits(s, start, i, j, dotted);
    proof {
        assert(body.subrange(0, i - start) =~= s@.subrange(start as int, i as int));
        if dotted {
            assert(body.subrange(i - start + 1, j - start) =~= s@.subrange(i + 1, j as int));
        }
        assert(body.subrange(j - start, body.len() as int) =~= s@.subrange(j as int, n as int));
        assert(digits@ == mantissa_digits(body));
        lemma_decimal_bound(digits@);
    }
    let x = match read_exponent(s, j) {
        None => {
            return None;
        },
        Some(x) => x,
    };
    let exp10: i128 = x - f as i128;
    proof {
        let y = exponent_of(s@.subrange(j as int, n as int))->Some_0;
        if exp10 != y - f {
            lemma_numeral_saturated(decimal(digits@), digits@.len(), exp10 as int, y - f);
        }
        lemma_numeral_bits_bound(decimal(digits@), y - f);
    }
    Some(numeral_to_bits(&digits, exp10))
}

/// Reads a text as a double, as `str::parse` does.
pub fn parse_double(s: &Vec<char>) -> (r: Option<u64>)
    ensures
        r == double_of_text(s@),
{
    let n = s.len();
    let signed = n > 0 && (s[0] == '+' || s[0] == '-');
    let negative = signed && s[0] == '-';
    let start: usize = if signed {
        1
    } else {
        0
    };
    let ghost body = s@.subrange(start as int, n as int);
    assert(body =~= if signed {
        s@.drop_first()
    } else {
        s@
    });
    let inf: Vec<char> = vec!['i', 'n', 'f'];
    let infinity: Vec<char> = vec!['i', 'n', 'f', 'i', 'n', 'i', 't', 'y'];
    let nan: Vec<char> = vec!['n', 'a', 'n'];
    assert(inf@ =~= seq!['i', 'n', 'f']);
    assert(infinity@ =~= seq!['i', 'n', 'f', 'i', 'n', 'i', 't', 'y']);
    assert(nan@ =~= seq!['n', 'a', 'n']);
    let magnitude: Option<u64> = if spelled(s, start, &inf) || spelled(s, start, &infinity) {
        Some(0x7ff0_0000_0000_0000)
    } else if spelled(s, start, &nan) {
        Some(0x7ff8_0000_0000_0000)
    } else {
        read_finite(s, start)
    };
    match magnitude {
        Some(bits) => Some(
            if negative {
                bits + 0x8000_0000_0000_0000
            } else {
                bits
            },
        ),
        None => None,
    }
}

/// The double nearest to an integer below 2^64 is the double nearest to the
/// ratio of the integer to one: the two ways of rounding agree.
pub proof fn lemma_nearest_is_ratio(u: nat)
    requires
        0 < u < 0x1_0000_0000_0000_0000,
    ensures
        nearest(u) == ratio_bits(u, 1),
{
    let len = bit_length(u);
    lemma_bit_length(u);
    lemma2_to64();
    lemma2_to64_rest();
    if len > 64 {
        lemma_pow2_monotone(64, (len - 1) as nat);
    }
    let e = (len - 1) as nat;
    lemma_pow2_unfold(len);
    assert(brackets(u, 1, 0, e)) by {
        assert(u * pow2(0) == u) by (nonlinear_arith)
            requires
                pow2(0) == 1,
        ;
        assert(1 * pow2(e) == pow2(e)) by (nonlinear_arith);
    }
    lemma_binade(u, 1, 0, e);
    if len <= 53 {
        let k = (53 - len) as nat;
        let n = u * pow2(k);
        assert(n / 1 == n && n % 1 == 0);
        lemma_pow2_adds((len - 1) as nat, k);
        lemma_pow2_adds(len, k);
        let a = pow2((len - 1) as nat) as int;
        let b = pow2(len) as int;
        let c = pow2(k) as int;
        lemma_pow2_pos(k);
        assert(a * c <= u * c && u * c < b * c) by (nonlinear_arith)
            requires
                a <= u < b,
                c > 0,
        ;
    } else {
        let s = (len - 53) as nat;
        let d = pow2(s);
        lemma_pow2_unfold(s);
        lemma_pow2_pos(s);
        assert(1 * d == d) by (nonlinear_arith);
        assert(rounded_ratio(u, d) == rounded_shift(u, s));
        lemma_pow2_adds(52, s);
        lemma_pow2_adds(53, s);
        let q = u as int / d as int;
        assert(0x10_0000_0000_0000 <= q < 0x20_0000_0000_0000) by (nonlinear_arith)
            requires
                0x10_0000_0000_0000 * d <= u < 0x20_0000_0000_0000 * d,
                d > 0,
                q == u as int / d as int,
        ;
    }
}

/// A rounded ratio is within half of the ratio.
proof fn lemma_rounded_ratio_close(x: nat, y: nat)
    requires
        y > 0,
    ensures
        2 * (rounded_ratio(x, y) * y - x) <= y,
        2 * (x - rounded_ratio(x, y) * y) <= y,
{
    let q = x / y;
    let r = x % y;
    let up = rounded_ratio(x, y);
    assert(x == q * y + r && 0 <= r < y) by (nonlinear_arith)
        requires
            y > 0,
            q == x / y,
            r == x % y,
    ;
    assert(up * y == q * y + (up - q) * y) by (nonlinear_arith);
    if up == q + 1 {
        assert((up - q) * y == y) by (nonlinear_arith)
            requires
                up - q == 1,
        ;
    } else {
        assert((up - q) * y == 0) by (nonlinear_arith)
            requires
                up - q == 0,
        ;
    }
}

/// The binade from which the significand of the double nearest to `n / m`
/// is taken: that of the ratio, or that of the least normal double where
/// the ratio lies below it.
pub open spec fn base_binade(n: nat, m: nat) -> int {
    if binade(n, m) >= -1022 {
        binade(n, m)
    } else {
        -1022
    }
}

/// Below the binade of the least normal double the significand is at most
/// 2^52.
proof fn lemma_subnormal_significand(n: nat, m: nat, a: nat, b: nat)
    requires
        m > 0,
        brackets(n, m, a, b),
        b - a < -1022,
    ensures
        scaled_round(n, m, 1074) <= 0x10_0000_0000_0000,
{
    // n / m < 2^(b - a + 1) <= 2^-1022, so n * 2^1074 < m * 2^52
    lemma2_to64_rest();
    let k = (a - b - 1) as nat;
    assert(k >= 1022);
    lemma_pow2_adds(b, k);
    lemma_pow2_unfold(b + 1);
    lemma_pow2_adds(b + 1, k);
    assert(a == b + 1 + k);
    // n * 2^a < 2 * m * 2^b = m * 2^(b + 1); cancel 2^(b + 1)
    lemma_mul_pow2(n as int, k, b + 1);
    assert(k + (b + 1) == a);
    assert(m * pow2(b + 1) == 2 * (m * pow2(b))) by (nonlinear_arith)
        requires
            pow2(b + 1) == 2 * pow2(b),
    ;
    lemma_scale_le((n * pow2(k)) as int, m as int, b + 1);
    assert(n * pow2(k) < m);
    lemma_pow2_monotone(1022, k);
    lemma_pow2_adds(1022, 52);
    let x = n * pow2(1074);
    assert(x < m * 0x10_0000_0000_0000) by (nonlinear_arith)
        requires
            n * pow2(k) < m,
            pow2(1022) <= pow2(k),
            x == n * (pow2(1022) * 0x10_0000_0000_0000),
            n >= 0,
    ;
    let q = x / m;
    let r = x % m;
    assert(x == q * m + r && 0 <= r < m) by (nonlinear_arith)
        requires
            m > 0,
            q == x / m,
            r == x % m,
    ;
    assert(q < 0x10_0000_0000_0000) by (nonlinear_arith)
        requires
            x < m * 0x10_0000_0000_0000,
            x == q * m + r,
            0 <= r,
            m > 0,
    ;
}

/// The double nearest to a ratio is within half a unit in its last place of
/// the ratio: the double nearest to `n / m`, where it is not infinity, is
/// finite, and its worth differs from the ratio by at most half of two to
/// the power of its base binade less 52.
pub proof fn lemma_ratio_bits_is_close(n: nat, m: nat)
    requires
        n > 0,
        m > 0,
        ratio_bits(n, m) < infinity(),
    ensures
        is_finite(ratio_bits(n, m)),
        !is_negative(ratio_bits(n, m)),
        2 * (scaled(ratio_bits(n, m)) * m - n * pow2(1075)) <= m * pow2(
            (base_binade(n, m) + 1023) as nat,
        ),
        2 * (n * pow2(1075) - scaled(ratio_bits(n, m)) * m) <= m * pow2(
            (base_binade(n, m) + 1023) as nat,
        ),
{
    lemma_binade_exists(n, m);
    let e = binade(n, m);
    let base = base_binade(n, m);
    let a = (if e >= 0 {
        0
    } else {
        -e
    }) as nat;
    let b = (if e >= 0 {
        e
    } else {
        0
    }) as nat;
    assert(brackets(n, m, a, b));
    let shift = 52 - base;
    let sig = scaled_round(n, m, shift);
    let bits = ratio_bits(n, m);
    lemma2_to64_rest();
    if e >= -1022 {
        lemma_normal_significand(n, m, a, b);
    } else {
        lemma_subnormal_significand(n, m, a, b);
    }
    assert(bits == (base + 1022) * 0x10_0000_0000_0000 + sig);
    let w = (base + 1023) as nat;
    // what the bits are worth
    assert(scaled(bits) == sig * pow2(w)) by {
        if sig < 0x10_0000_0000_0000 {
            assert(base == -1022);
            assert(exponent(bits) == 0 && fraction(bits) == sig);
        } else if sig < 0x20_0000_0000_0000 {
            assert(exponent(bits) == base + 1023 && fraction(bits) == sig - 0x10_0000_0000_0000);
        } else {
            assert(exponent(bits) == base + 1024 && fraction(bits) == 0);
            lemma_pow2_unfold(w + 1);
            assert(0x10_0000_0000_0000 * (2 * pow2(w)) == 0x20_0000_0000_0000 * pow2(w))
                by (nonlinear_arith);
        }
    }
    lemma_pow2_pos(w);
    let p = pow2(w) as int;
    if shift >= 0 {
        let x = n * pow2(shift as nat);
        lemma_rounded_ratio_close(x, m);
        lemma_mul_pow2(n as int, shift as nat, w);
        assert(shift + w == 1075);
        assert(2 * (sig * p * m - x * p) <= m * p && 2 * (x * p - sig * p * m) <= m * p)
            by (nonlinear_arith)
            requires
                2 * (sig * m - x) <= m,
                2 * (x - sig * m) <= m,
                p > 0,
        ;
    } else {
        let t = (-shift) as nat;
        let d = m * pow2(t);
        lemma_pow2_pos(t);
        assert(d > 0) by (nonlinear_arith)
            requires
                d == m * pow2(t),
                m > 0,
                pow2(t) > 0,
        ;
        lemma_rounded_ratio_close(n, d);
        lemma_pow2_adds(t, 1075);
        assert(t + 1075 == w);
        let c = pow2(1075) as int;
        lemma_pow2_pos(1075);
        assert(2 * (sig * d * c - n * c) <= d * c && 2 * (n * c - sig * d * c) <= d * c)
            by (nonlinear_arith)
            requires
                2 * (sig * d - n) <= d,
                2 * (n - sig * d) <= d,
                c > 0,
        ;
        assert(d * c == m * p && sig * d * c == sig * p * m) by (nonlinear_arith)
            requires
                d == m * pow2(t),
                p == pow2(t) * c,
        ;
    }
}

} // verus!
