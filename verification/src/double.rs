//! Doubles, held by the 64 bits of their IEEE 754 encoding and compared in
//! integer arithmetic: one sign bit, eleven bits of exponent, fifty-two of
//! fraction.

use vstd::arithmetic::power2::{
    lemma2_to64, lemma2_to64_rest, lemma_pow2_adds, lemma_pow2_pos, lemma_pow2_strictly_increases,
    lemma_pow2_unfold, pow2,
};
use vstd::prelude::*;

verus! {

/// Whether the sign bit is set.
pub open spec fn is_negative(b: u64) -> bool {
    b >= 0x8000_0000_0000_0000
}

/// The bits without the sign bit.
pub open spec fn magnitude(b: u64) -> int {
    if is_negative(b) {
        b - 0x8000_0000_0000_0000
    } else {
        b as int
    }
}

/// The exponent field.
pub open spec fn exponent(b: u64) -> int {
    magnitude(b) / 0x10_0000_0000_0000
}

/// The fraction field.
pub open spec fn fraction(b: u64) -> int {
    magnitude(b) % 0x10_0000_0000_0000
}

/// Not a number: the exponent field is full and the fraction is not zero.
pub open spec fn is_nan(b: u64) -> bool {
    magnitude(b) > 0x7ff0_0000_0000_0000
}

/// An infinity: the exponent field is full and the fraction is zero.
pub open spec fn is_infinite(b: u64) -> bool {
    magnitude(b) == 0x7ff0_0000_0000_0000
}

/// Neither an infinity nor not a number.
pub open spec fn is_finite(b: u64) -> bool {
    magnitude(b) < 0x7ff0_0000_0000_0000
}

/// Doubles that are numbers are ordered as these integers are: the magnitude,
/// counted below zero where the sign bit is set. Both zeros have the key 0.
pub open spec fn order_key(b: u64) -> int {
    if is_negative(b) {
        -magnitude(b)
    } else {
        magnitude(b)
    }
}

/// `a < b` on doubles: false where either is not a number.
pub open spec fn less(a: u64, b: u64) -> bool {
    !is_nan(a) && !is_nan(b) && order_key(a) < order_key(b)
}

/// `a <= b` on doubles: false where either is not a number.
pub open spec fn at_most(a: u64, b: u64) -> bool {
    !is_nan(a) && !is_nan(b) && order_key(a) <= order_key(b)
}

/// The significand of a finite double: the fraction, with the hidden bit in
/// front of it unless the double is subnormal.
pub open spec fn significand(b: u64) -> int {
    if exponent(b) == 0 {
        fraction(b)
    } else {
        0x10_0000_0000_0000 + fraction(b)
    }
}

/// The power of two that the significand of a finite double is scaled by,
/// counted from the smallest, which is 1.
pub open spec fn scale(b: u64) -> nat {
    if exponent(b) == 0 {
        1
    } else {
        exponent(b) as nat
    }
}

/// A finite double times 2^1075, which is an integer.
pub open spec fn scaled(b: u64) -> int {
    if is_negative(b) {
        -(significand(b) * pow2(scale(b)))
    } else {
        significand(b) * pow2(scale(b))
    }
}

/// The least distance, times 2^1075, at which the difference of two doubles
/// rounds to the machine epsilon 2^-52 or more: 2^-52 - 2^-106.
pub open spec fn tolerance() -> int {
    0x3f_ffff_ffff_ffff * (pow2(969) as int)
}

/// `(a - b).abs() < EPSILON` on doubles: both are finite and their difference,
/// rounded to the nearest double, is below 2^-52.
pub open spec fn near(a: u64, b: u64) -> bool {
    &&& is_finite(a)
    &&& is_finite(b)
    &&& -tolerance() < scaled(a) - scaled(b) < tolerance()
}

/// `(a - b).abs() >= EPSILON` on doubles: both are numbers, they are not the
/// same infinity, and they are not `near`.
pub open spec fn apart(a: u64, b: u64) -> bool {
    &&& !is_nan(a)
    &&& !is_nan(b)
    &&& !(is_infinite(a) && is_infinite(b) && is_negative(a) == is_negative(b))
    &&& !near(a, b)
}

fn magnitude_of(b: u64) -> (m: u64)
    ensures
        m == magnitude(b),
        m < 0x8000_0000_0000_0000,
{
    if b >= 0x8000_0000_0000_0000 {
        b - 0x8000_0000_0000_0000
    } else {
        b
    }
}

/// Whether the bits are not a number.
pub fn is_not_a_number(b: u64) -> (r: bool)
    ensures
        r == is_nan(b),
{
    magnitude_of(b) > 0x7ff0_0000_0000_0000
}

/// Whether `a < b` as doubles.
pub fn is_less(a: u64, b: u64) -> (r: bool)
    ensures
        r == less(a, b),
{
    if is_not_a_number(a) || is_not_a_number(b) {
        return false;
    }
    let ma = magnitude_of(a);
    let mb = magnitude_of(b);
    let na = a >= 0x8000_0000_0000_0000;
    let nb = b >= 0x8000_0000_0000_0000;
    if na && nb {
        ma > mb
    } else if na {
        ma > 0 || mb > 0
    } else if nb {
        false
    } else {
        ma < mb
    }
}

/// Whether `a <= b` as doubles.
pub fn is_at_most(a: u64, b: u64) -> (r: bool)
    ensures
        r == at_most(a, b),
{
    if is_not_a_number(a) || is_not_a_number(b) {
        return false;
    }
    let ma = magnitude_of(a);
    let mb = magnitude_of(b);
    let na = a >= 0x8000_0000_0000_0000;
    let nb = b >= 0x8000_0000_0000_0000;
    if na && nb {
        ma >= mb
    } else if na {
        true
    } else if nb {
        ma == 0 && mb == 0
    } else {
        ma <= mb
    }
}

proof fn lemma_scale_lt(p: int, q: int, k: nat)
    ensures
        (p * pow2(k) < q * pow2(k)) <==> p < q,
        (p * pow2(k) <= q * pow2(k)) <==> p <= q,
{
    lemma_pow2_pos(k);
    let c = pow2(k) as int;
    assert(((p * c < q * c) <==> p < q) && ((p * c <= q * c) <==> p <= q)) by (nonlinear_arith)
        requires
            c > 0,
    ;
}

/// Comparing two integers that are scaled by different powers of two.
proof fn lemma_compare_scaled(p: int, i: nat, q: int, j: nat)
    ensures
        i >= j ==> ((p * pow2(i) < q * pow2(j)) <==> (p * pow2((i - j) as nat) < q)),
        i >= j ==> ((p * pow2(i) >= q * pow2(j)) <==> (p * pow2((i - j) as nat) >= q)),
        i < j ==> ((p * pow2(i) < q * pow2(j)) <==> (p < q * pow2((j - i) as nat))),
{
    if i >= j {
        let d = (i - j) as nat;
        lemma_pow2_adds(d, j);
        assert(p * pow2(i) == (p * pow2(d)) * pow2(j)) by (nonlinear_arith)
            requires
                pow2(i) == pow2(d) * pow2(j),
        ;
        lemma_scale_lt(p * pow2(d), q, j);
        lemma_scale_lt(q, p * pow2(d), j);
    } else {
        let d = (j - i) as nat;
        lemma_pow2_adds(d, i);
        assert(q * pow2(j) == (q * pow2(d)) * pow2(i)) by (nonlinear_arith)
            requires
                pow2(j) == pow2(d) * pow2(i),
        ;
        lemma_scale_lt(p, q * pow2(d), i);
    }
}

pub(crate) proof fn lemma_pow2_monotone(i: nat, j: nat)
    requires
        i <= j,
    ensures
        pow2(i) <= pow2(j),
{
    if i < j {
        lemma_pow2_strictly_increases(i, j);
    }
}

/// A product of a significand and a power of two, bounded on both sides.
proof fn lemma_product_bounds(m: int, e: nat, lo: int, hi: int, f: nat, g: nat)
    requires
        0 <= lo <= m <= hi,
        f <= e <= g,
    ensures
        lo * pow2(f) <= m * pow2(e) <= hi * pow2(g),
{
    lemma_pow2_monotone(f, e);
    lemma_pow2_monotone(e, g);
    lemma_pow2_pos(f);
    let a = pow2(f) as int;
    let b = pow2(e) as int;
    let c = pow2(g) as int;
    assert(lo * a <= m * b && m * b <= hi * c) by (nonlinear_arith)
        requires
            0 <= lo <= m <= hi,
            0 < a <= b <= c,
    ;
}

/// The powers of two that the comparisons below count in.
pub(crate) proof fn lemma_powers()
    ensures
        pow2(970) == 2 * pow2(969),
        pow2(971) == 4 * pow2(969),
        pow2(969) == 0x20_0000_0000_0000 * pow2(916),
        pow2(54) == 0x40_0000_0000_0000,
        pow2(0) == 1,
        pow2(1) == 2,
        pow2(2) == 4,
        pow2(3) == 8,
        pow2(64) == 0x1_0000_0000_0000_0000,
        pow2(969) > 0,
{
    lemma2_to64();
    lemma2_to64_rest();
    lemma_pow2_unfold(970);
    lemma_pow2_unfold(971);
    lemma_pow2_adds(53, 916);
    lemma_pow2_pos(969);
}

/// Two to the power `k`.
pub(crate) fn power_of_two(k: u32) -> (r: u128)
    requires
        k <= 64,
    ensures
        r == pow2(k as nat),
        0 < r <= 0x1_0000_0000_0000_0000,
{
    let mut r: u128 = 1;
    let mut i: u32 = 0;
    proof {
        lemma_powers();
    }
    while i < k
        invariant
            i <= k <= 64,
            r == pow2(i as nat),
            0 < r <= 0x1_0000_0000_0000_0000,
        decreases k - i,
    {
        proof {
            lemma_pow2_unfold((i + 1) as nat);
            lemma_pow2_monotone((i + 1) as nat, 64);
            lemma_powers();
        }
        r = r * 2;
        i += 1;
    }
    r
}

/// The significand and the scale of a finite double.
fn parts(b: u64) -> (r: (u64, u32))
    requires
        is_finite(b),
    ensures
        r.0 == significand(b),
        r.1 == scale(b),
        r.0 < 0x20_0000_0000_0000,
        1 <= r.1 <= 2046,
        r.1 >= 2 ==> r.0 >= 0x10_0000_0000_0000,
{
    let m = magnitude_of(b);
    let e = m / 0x10_0000_0000_0000;
    let f = m % 0x10_0000_0000_0000;
    if e == 0 {
        (f, 1)
    } else {
        (0x10_0000_0000_0000 + f, e as u32)
    }
}

/// Finite doubles are ordered in magnitude as their bits are.
proof fn lemma_magnitude_order(a: u64, b: u64)
    requires
        is_finite(a),
        is_finite(b),
        magnitude(a) >= magnitude(b),
    ensures
        scale(a) >= scale(b),
        significand(a) * pow2(scale(a)) >= significand(b) * pow2(scale(b)),
        scale(a) >= 2 ==> significand(a) >= 0x10_0000_0000_0000,
{
    let ea = scale(a);
    let eb = scale(b);
    let ma = significand(a);
    let mb = significand(b);
    assert(exponent(a) >= exponent(b));
    if ea == eb {
        assert(ma >= mb);
        lemma_scale_lt(mb, ma, ea);
    } else {
        assert(ea >= eb + 1);
        lemma_product_bounds(ma, ea, 0x10_0000_0000_0000, ma, (eb + 1) as nat, ea);
        lemma_pow2_unfold((eb + 1) as nat);
        let c = pow2(eb) as int;
        lemma_pow2_pos(eb);
        assert(mb * c <= 0x10_0000_0000_0000 * (2 * c)) by (nonlinear_arith)
            requires
                0 <= mb < 0x20_0000_0000_0000,
                c > 0,
        ;
    }
}

/// Whether the difference of two products is below the tolerance.
fn difference_is_small(mx: u64, ex: u32, my: u64, ey: u32) -> (r: bool)
    requires
        mx < 0x20_0000_0000_0000,
        my < 0x20_0000_0000_0000,
        1 <= ey <= ex <= 2046,
        ex >= 2 ==> mx >= 0x10_0000_0000_0000,
        mx * pow2(ex as nat) >= my * pow2(ey as nat),
    ensures
        r == (mx * pow2(ex as nat) - my * pow2(ey as nat) < tolerance()),
{
    let ghost x = mx * pow2(ex as nat);
    let ghost y = my * pow2(ey as nat);
    let ghost u = pow2(969) as int;
    proof {
        lemma_powers();
        lemma_pow2_pos(ey as nat);
        assert(y >= 0) by (nonlinear_arith)
            requires
                y == my * pow2(ey as nat),
                my >= 0,
                pow2(ey as nat) > 0,
        ;
    }
    if ex <= 970 {
        proof {
            lemma_product_bounds(mx as int, ex as nat, 0, 0x1f_ffff_ffff_ffff, 0, 970);
            assert(0x1f_ffff_ffff_ffff * (2 * u) < 0x3f_ffff_ffff_ffff * u) by (nonlinear_arith)
                requires
                    u > 0,
            ;
        }
        return true;
    }
    if ey <= 916 {
        proof {
            lemma_product_bounds(mx as int, ex as nat, 0x10_0000_0000_0000, mx as int, 971, ex as nat);
            lemma_product_bounds(my as int, ey as nat, 0, 0x1f_ffff_ffff_ffff, 0, 916);
            let v = pow2(916) as int;
            lemma_pow2_pos(916);
            assert(0x10_0000_0000_0000 * (4 * (0x20_0000_0000_0000 * v)) - 0x1f_ffff_ffff_ffff * v
                >= 0x3f_ffff_ffff_ffff * (0x20_0000_0000_0000 * v)) by (nonlinear_arith)
                requires
                    v > 0,
            ;
        }
        return false;
    }
    let e = ex - ey;
    if ex >= 973 && e >= 2 {
        proof {
            let w = pow2((ex - 2) as nat) as int;
            lemma_pow2_unfold(ex as nat);
            lemma_pow2_unfold((ex - 1) as nat);
            lemma_product_bounds(my as int, ey as nat, 0, 0x1f_ffff_ffff_ffff, 0, (ex - 2) as nat);
            lemma_pow2_monotone(971, (ex - 2) as nat);
            assert(mx * (2 * (2 * w)) - 0x1f_ffff_ffff_ffff * w >= 0x3f_ffff_ffff_ffff * u)
                by (nonlinear_arith)
                requires
                    mx >= 0x10_0000_0000_0000,
                    w >= 4 * u,
                    u > 0,
            ;
        }
        return false;
    }
    assert(e <= 55);
    let pe = power_of_two(e);
    proof {
        lemma_compare_scaled(mx as int, ex as nat, my as int, ey as nat);
        lemma_pow2_monotone(e as nat, 55);
        lemma_pow2_adds(e as nat, ey as nat);
        lemma_pow2_adds(55, 9);
        assert(mx * pe < 0x20_0000_0000_0000 * 0x1_0000_0000_0000_0000) by (nonlinear_arith)
            requires
                0 <= mx < 0x20_0000_0000_0000,
                0 < pe <= 0x1_0000_0000_0000_0000,
        ;
    }
    let d: u128 = mx as u128 * pe - my as u128;
    proof {
        assert(x - y == d * pow2(ey as nat)) by (nonlinear_arith)
            requires
                x == mx * pow2(ex as nat),
                y == my * pow2(ey as nat),
                pow2(ex as nat) == pow2(e as nat) * pow2(ey as nat),
                d == mx * pow2(e as nat) - my,
        ;
        lemma_compare_scaled(d as int, ey as nat, 0x3f_ffff_ffff_ffff, 969);
    }
    if ey >= 969 {
        let k = ey - 969;
        assert(e <= 3);
        proof {
            lemma_pow2_monotone(e as nat, 3);
            assert(mx * pe < 0x20_0000_0000_0000 * 8) by (nonlinear_arith)
                requires
                    0 <= mx < 0x20_0000_0000_0000,
                    0 < pe <= 8,
            ;
        }
        if k >= 54 {
            proof {
                lemma_pow2_monotone(54, k as nat);
                let c = pow2(k as nat) as int;
                if d > 0 {
                    assert(d * c >= 0x40_0000_0000_0000) by (nonlinear_arith)
                        requires
                            d >= 1,
                            c >= 0x40_0000_0000_0000,
                    ;
                } else {
                    assert(d * c == 0) by (nonlinear_arith)
                        requires
                            d == 0,
                    ;
                }
            }
            return d == 0;
        }
        let pk = power_of_two(k);
        proof {
            assert(d * pk < 0x100_0000_0000_0000 * 0x1_0000_0000_0000_0000) by (nonlinear_arith)
                requires
                    0 <= d < 0x100_0000_0000_0000,
                    0 < pk <= 0x1_0000_0000_0000_0000,
            ;
        }
        d * pk < 0x3f_ffff_ffff_ffff
    } else {
        let k = 969 - ey;
        let pk = power_of_two(k);
        proof {
            assert(0x3f_ffff_ffff_ffff * pk <= 0x3f_ffff_ffff_ffff * 0x1_0000_0000_0000_0000)
                by (nonlinear_arith)
                requires
                    0 < pk <= 0x1_0000_0000_0000_0000,
            ;
        }
        d < 0x3f_ffff_ffff_ffff * pk
    }
}

/// Whether the sum of two products is below the tolerance.
fn sum_is_small(mx: u64, ex: u32, my: u64, ey: u32) -> (r: bool)
    requires
        mx < 0x20_0000_0000_0000,
        my < 0x20_0000_0000_0000,
        1 <= ey <= ex <= 2046,
        ex >= 2 ==> mx >= 0x10_0000_0000_0000,
    ensures
        r == (mx * pow2(ex as nat) + my * pow2(ey as nat) < tolerance()),
{
    let ghost x = mx * pow2(ex as nat);
    let ghost y = my * pow2(ey as nat);
    let ghost u = pow2(969) as int;
    proof {
        lemma_powers();
        lemma_pow2_pos(ey as nat);
        assert(y >= 0) by (nonlinear_arith)
            requires
                y == my * pow2(ey as nat),
                my >= 0,
                pow2(ey as nat) > 0,
        ;
    }
    if ex >= 971 {
        proof {
            lemma_product_bounds(mx as int, ex as nat, 0x10_0000_0000_0000, mx as int, 971, ex as nat);
            assert(0x10_0000_0000_0000 * (4 * u) >= 0x3f_ffff_ffff_ffff * u) by (nonlinear_arith)
                requires
                    u > 0,
            ;
        }
        return false;
    }
    if ex <= 969 {
        proof {
            lemma_product_bounds(mx as int, ex as nat, 0, 0x1f_ffff_ffff_ffff, 0, 969);
            lemma_product_bounds(my as int, ey as nat, 0, 0x1f_ffff_ffff_ffff, 0, 969);
            assert(0x1f_ffff_ffff_ffff * u + 0x1f_ffff_ffff_ffff * u < 0x3f_ffff_ffff_ffff * u)
                by (nonlinear_arith)
                requires
                    u > 0,
            ;
        }
        return true;
    }
    let room: u64 = 0x3f_ffff_ffff_ffff - 2 * mx;
    proof {
        assert(x + y < 0x3f_ffff_ffff_ffff * u <==> y < room * u) by (nonlinear_arith)
            requires
                x == mx * (2 * u),
                room == 0x3f_ffff_ffff_ffff - 2 * mx,
        ;
        lemma_compare_scaled(my as int, ey as nat, room as int, 969);
    }
    if ey >= 969 {
        let pk = power_of_two(ey - 969);
        proof {
            lemma_pow2_monotone((ey - 969) as nat, 1);
            assert(my * pk <= 0x20_0000_0000_0000 * 2) by (nonlinear_arith)
                requires
                    0 <= my < 0x20_0000_0000_0000,
                    0 < pk <= 2,
            ;
        }
        (my as u128) * pk < room as u128
    } else {
        let k = 969 - ey;
        if k >= 54 {
            proof {
                lemma_pow2_monotone(54, k as nat);
                let c = pow2(k as nat) as int;
                assert(room * c >= 0x40_0000_0000_0000) by (nonlinear_arith)
                    requires
                        room >= 1,
                        c >= 0x40_0000_0000_0000,
                ;
            }
            return true;
        }
        let pk = power_of_two(k);
        proof {
            assert(room * pk <= 0x3f_ffff_ffff_ffff * 0x1_0000_0000_0000_0000) by (nonlinear_arith)
                requires
                    0 <= room <= 0x3f_ffff_ffff_ffff,
                    0 < pk <= 0x1_0000_0000_0000_0000,
            ;
        }
        (my as u128) < (room as u128) * pk
    }
}

/// Whether `(a - b).abs() < EPSILON` as doubles.
pub fn is_near(a: u64, b: u64) -> (r: bool)
    ensures
        r == near(a, b),
{
    let ma = magnitude_of(a);
    let mb = magnitude_of(b);
    if ma >= 0x7ff0_0000_0000_0000 || mb >= 0x7ff0_0000_0000_0000 {
        return false;
    }
    let (sa, ea) = parts(a);
    let (sb, eb) = parts(b);
    let same_sign = (a >= 0x8000_0000_0000_0000) == (b >= 0x8000_0000_0000_0000);
    proof {
        if ma >= mb {
            lemma_magnitude_order(a, b);
        } else {
            lemma_magnitude_order(b, a);
        }
        lemma_pow2_pos(969);
        lemma_pow2_pos(ea as nat);
        lemma_pow2_pos(eb as nat);
        assert(sa * pow2(ea as nat) >= 0 && sb * pow2(eb as nat) >= 0) by (nonlinear_arith)
            requires
                sa >= 0,
                sb >= 0,
                pow2(ea as nat) > 0,
                pow2(eb as nat) > 0,
        ;
    }
    if ma >= mb {
        if same_sign {
            difference_is_small(sa, ea, sb, eb)
        } else {
            sum_is_small(sa, ea, sb, eb)
        }
    } else {
        if same_sign {
            difference_is_small(sb, eb, sa, ea)
        } else {
            sum_is_small(sb, eb, sa, ea)
        }
    }
}

/// Whether `(a - b).abs() >= EPSILON` as doubles.
pub fn is_apart(a: u64, b: u64) -> (r: bool)
    ensures
        r == apart(a, b),
{
    let ma = magnitude_of(a);
    let mb = magnitude_of(b);
    if ma > 0x7ff0_0000_0000_0000 || mb > 0x7ff0_0000_0000_0000 {
        return false;
    }
    if ma == 0x7ff0_0000_0000_0000 && mb == 0x7ff0_0000_0000_0000 {
        return (a >= 0x8000_0000_0000_0000) != (b >= 0x8000_0000_0000_0000);
    }
    !is_near(a, b)
}

/// The number of binary digits of `u`.
pub open spec fn bit_length(u: nat) -> nat
    decreases u,
{
    if u == 0 {
        0
    } else {
        1 + bit_length(u / 2)
    }
}

/// `u` divided by two to the power `s` and rounded to the nearest integer, to
/// the even one of two that are equally near.
pub open spec fn rounded_shift(u: nat, s: nat) -> nat {
    let q = u / pow2(s);
    let r = u % pow2(s);
    let half = pow2(s) / 2;
    if r > half || (r == half && q % 2 == 1) {
        q + 1
    } else {
        q
    }
}

/// The double nearest to the integer `u`, which is below 2^64: `u` itself
/// where it has at most 53 binary digits, and else its leading 53 digits
/// rounded to nearest, ties to even.
pub open spec fn nearest(u: nat) -> u64 {
    if u == 0 {
        0
    } else {
        let len = bit_length(u);
        if len <= 53 {
            ((1022 + len) * 0x10_0000_0000_0000 + (u * pow2((53 - len) as nat)
                - 0x10_0000_0000_0000)) as u64
        } else {
            let s = (len - 53) as nat;
            ((1075 + s) * 0x10_0000_0000_0000 + (rounded_shift(u, s) - 0x10_0000_0000_0000)) as u64
        }
    }
}

/// The double nearest to the integer `i`, which a signed 64-bit word holds.
pub open spec fn nearest_signed(i: int) -> u64 {
    if i >= 0 {
        nearest(i as nat)
    } else {
        (0x8000_0000_0000_0000 + nearest((-i) as nat)) as u64
    }
}

pub(crate) proof fn lemma_bit_length(u: nat)
    requires
        u > 0,
    ensures
        bit_length(u) >= 1,
        pow2((bit_length(u) - 1) as nat) <= u < pow2(bit_length(u)),
    decreases u,
{
    lemma_powers();
    if u == 1 {
        assert(bit_length(1) == 1 + bit_length(0));
    } else {
        lemma_bit_length(u / 2);
        let l = bit_length(u / 2);
        lemma_pow2_unfold(l);
        lemma_pow2_unfold((l + 1) as nat);
    }
}

pub(crate) fn length_of(u: u64) -> (len: u32)
    requires
        u > 0,
    ensures
        len == bit_length(u as nat),
        1 <= len <= 64,
        pow2((len - 1) as nat) <= u < pow2(len as nat),
{
    let mut len: u32 = 0;
    let mut t: u64 = u;
    proof {
        lemma_powers();
        assert(t as nat * pow2(0) == u) by (nonlinear_arith)
            requires
                t == u,
                pow2(0) == 1,
        ;
    }
    while t > 0
        invariant
            bit_length(u as nat) == len + bit_length(t as nat),
            len <= 64,
            t > 0 ==> len < 64,
            t as nat * pow2(len as nat) <= u,
        decreases t,
    {
        proof {
            lemma_pow2_unfold((len + 1) as nat);
            let c = pow2(len as nat) as int;
            assert((t / 2) * (2 * c) <= t * c) by (nonlinear_arith)
                requires
                    c >= 0,
                    t >= 0,
            ;
            if t / 2 > 0 && len + 1 >= 64 {
                lemma_pow2_monotone(64, (len + 1) as nat);
                lemma_powers();
                let d = pow2((len + 1) as nat) as int;
                assert((t / 2) * d >= 0x1_0000_0000_0000_0000) by (nonlinear_arith)
                    requires
                        t / 2 >= 1,
                        d >= 0x1_0000_0000_0000_0000,
                ;
            }
        }
        t = t / 2;
        len += 1;
    }
    proof {
        lemma_bit_length(u as nat);
    }
    len
}

/// The double nearest to `u`.
pub fn from_u64(u: u64) -> (r: u64)
    ensures
        r == nearest(u as nat),
        is_finite(r),
        !is_negative(r),
{
    if u == 0 {
        return 0;
    }
    let len = length_of(u);
    proof {
        lemma_powers();
    }
    if len <= 53 {
        let p = power_of_two(53 - len);
        proof {
            lemma_pow2_adds((len - 1) as nat, (53 - len) as nat);
            lemma_pow2_adds(len as nat, (53 - len) as nat);
            lemma2_to64_rest();
            let a = pow2((len - 1) as nat) as int;
            let b = pow2(len as nat) as int;
            assert(a * p <= u * p && u * p < b * p) by (nonlinear_arith)
                requires
                    a <= u < b,
                    p > 0,
            ;
        }
        let sig: u64 = (u as u128 * p) as u64;
        (1022 + len as u64) * 0x10_0000_0000_0000 + (sig - 0x10_0000_0000_0000)
    } else {
        let s = len - 53;
        let p = power_of_two(s) as u64;
        proof {
            lemma_pow2_adds(52, s as nat);
            lemma_pow2_adds(53, s as nat);
            lemma2_to64_rest();
            let q = u as int / p as int;
            assert(0x10_0000_0000_0000 <= q < 0x20_0000_0000_0000) by (nonlinear_arith)
                requires
                    0x10_0000_0000_0000 * p <= u < 0x20_0000_0000_0000 * p,
                    p > 0,
                    q == u as int / p as int,
            ;
        }
        let q = u / p;
        let r = u % p;
        let half = p / 2;
        let m = if r > half || (r == half && q % 2 == 1) {
            q + 1
        } else {
            q
        };
        (1075 + s as u64) * 0x10_0000_0000_0000 + (m - 0x10_0000_0000_0000)
    }
}

/// The double nearest to `i`.
pub fn from_i64(i: i64) -> (r: u64)
    ensures
        r == nearest_signed(i as int),
        is_finite(r),
{
    if i >= 0 {
        from_u64(i as u64)
    } else {
        let m: u64 = (-(i + 1)) as u64 + 1;
        0x8000_0000_0000_0000 + from_u64(m)
    }
}

/// An integer with at most 53 binary digits is its nearest double.
pub proof fn lemma_nearest_is_exact(u: nat)
    requires
        bit_length(u) <= 53,
    ensures
        is_finite(nearest(u)),
        !is_negative(nearest(u)),
        scaled(nearest(u)) == u * pow2(1075),
{
    lemma_powers();
    lemma2_to64_rest();
    if u == 0 {
        assert(0 * pow2(1) == 0);
        assert(0 * pow2(1075) == 0);
    } else {
        let len = bit_length(u);
        lemma_bit_length(u);
        let k = (53 - len) as nat;
        let sig = u * pow2(k);
        lemma_pow2_adds((len - 1) as nat, k);
        lemma_pow2_adds(len, k);
        let a = pow2((len - 1) as nat) as int;
        let b = pow2(len) as int;
        let c = pow2(k) as int;
        lemma_pow2_pos(k);
        assert(a * c <= u * c && u * c < b * c) by (nonlinear_arith)
            requires
                a <= u < b,
                c > 0,
        ;
        let bits = nearest(u);
        assert(bits == (1022 + len) * 0x10_0000_0000_0000 + (sig - 0x10_0000_0000_0000));
        assert(exponent(bits) == 1022 + len);
        assert(fraction(bits) == sig - 0x10_0000_0000_0000);
        lemma_pow2_adds(k, (1022 + len) as nat);
        assert(sig * pow2((1022 + len) as nat) == u * pow2(1075)) by (nonlinear_arith)
            requires
                sig == u * pow2(k),
                pow2(1075) == pow2(k) * pow2((1022 + len) as nat),
        ;
    }
}

/// `<` on doubles is a strict order: nothing is below itself, and what is
/// below something that is below a third is below the third.
pub proof fn lemma_less_is_strict(a: u64, b: u64, c: u64)
    ensures
        !less(a, a),
        less(a, b) ==> !less(b, a),
        less(a, b) && less(b, c) ==> less(a, c),
        at_most(a, b) <==> less(a, b) || (!is_nan(a) && !is_nan(b) && order_key(a) == order_key(b)),
{
}

/// A finite double is near itself, and two doubles are near, or apart, in
/// either order. No two doubles are both near and apart; two that are
/// numbers and not the same infinity are one or the other.
pub proof fn lemma_near_and_apart(a: u64, b: u64)
    ensures
        is_finite(a) ==> near(a, a),
        near(a, b) == near(b, a),
        apart(a, b) == apart(b, a),
        !(near(a, b) && apart(a, b)),
{
    lemma_pow2_pos(969);
    assert(tolerance() > 0) by (nonlinear_arith)
        requires
            tolerance() == 0x3f_ffff_ffff_ffff * (pow2(969) as int),
            pow2(969) > 0,
    ;
}

/// Rounding while shifting lands within half a step, and on an even number
/// where it lands exactly between two.
pub proof fn lemma_rounded_shift(u: nat, s: nat)
    requires
        s >= 1,
    ensures
        2 * (rounded_shift(u, s) * pow2(s) - u) <= pow2(s),
        2 * (u - rounded_shift(u, s) * pow2(s)) <= pow2(s),
        2 * (rounded_shift(u, s) * pow2(s) - u) == pow2(s) || 2 * (u - rounded_shift(u, s) * pow2(
            s,
        )) == pow2(s) ==> rounded_shift(u, s) % 2 == 0,
{
    let p = pow2(s) as int;
    lemma_pow2_pos(s);
    lemma_pow2_unfold(s);
    let q = u as int / p;
    let r = u as int % p;
    let m = rounded_shift(u, s) as int;
    assert(u == q * p + r && 0 <= r < p) by (nonlinear_arith)
        requires
            p > 0,
            q == u as int / p,
            r == u as int % p,
    ;
    assert(m * p == q * p + (m - q) * p) by (nonlinear_arith);
    if m == q + 1 {
        assert((m - q) * p == p) by (nonlinear_arith)
            requires
                m - q == 1,
        ;
    } else {
        assert((m - q) * p == 0) by (nonlinear_arith)
            requires
                m - q == 0,
        ;
    }
}

/// The double nearest to an integer is finite and is worth the integer,
/// rounded to 53 binary digits where it has more.
pub proof fn lemma_nearest_value(u: nat)
    requires
        0 < u < 0x1_0000_0000_0000_0000,
    ensures
        is_finite(nearest(u)),
        !is_negative(nearest(u)),
        bit_length(u) <= 53 ==> scaled(nearest(u)) == u * pow2(1075),
        bit_length(u) > 53 ==> scaled(nearest(u)) == rounded_shift(u, (bit_length(u) - 53) as nat)
            * pow2((bit_length(u) - 53) as nat) * pow2(1075),
{
    let len = bit_length(u);
    lemma_bit_length(u);
    lemma_powers();
    lemma2_to64_rest();
    if len <= 53 {
        lemma_nearest_is_exact(u);
    } else {
        if len > 64 {
            lemma_pow2_monotone(64, (len - 1) as nat);
        }
        let s = (len - 53) as nat;
        let p = pow2(s) as int;
        lemma_pow2_pos(s);
        lemma_pow2_adds(52, s);
        lemma_pow2_adds(53, s);
        let q = u as int / p;
        assert(0x10_0000_0000_0000 <= q < 0x20_0000_0000_0000) by (nonlinear_arith)
            requires
                0x10_0000_0000_0000 * p <= u < 0x20_0000_0000_0000 * p,
                p > 0,
                q == u as int / p,
        ;
        let m = rounded_shift(u, s) as int;
        let bits = nearest(u);
        assert(bits == (1075 + s) * 0x10_0000_0000_0000 + (m - 0x10_0000_0000_0000));
        let e = (if m == 0x20_0000_0000_0000 {
            1076 + s
        } else {
            1075 + s
        }) as nat;
        assert(exponent(bits) == e);
        assert(significand(bits) == (if m == 0x20_0000_0000_0000 {
            0x10_0000_0000_0000
        } else {
            m
        }));
        lemma_pow2_adds(s, 1075);
        lemma_pow2_unfold((1076 + s) as nat);
        let w = pow2((1075 + s) as nat) as int;
        assert(significand(bits) * pow2(e) == m * w) by (nonlinear_arith)
            requires
                m == 0x20_0000_0000_0000 ==> significand(bits) == 0x10_0000_0000_0000 && pow2(e)
                    == 2 * w,
                m != 0x20_0000_0000_0000 ==> significand(bits) == m && pow2(e) == w,
        ;
        assert(m * w == m * p * pow2(1075)) by (nonlinear_arith)
            requires
                w == p * pow2(1075),
        ;
    }
}

/// `n / d` rounded to the nearest integer, to the even one of two that are
/// equally near.
pub open spec fn rounded_ratio(n: nat, d: nat) -> nat {
    let q = n / d;
    let r = n % d;
    if 2 * r > d || (2 * r == d && q % 2 == 1) {
        q + 1
    } else {
        q
    }
}

/// The integer that the double nearest to `u` is worth: `u` itself where it
/// has at most 53 binary digits, and else `u` rounded to 53 binary digits.
pub open spec fn nearest_integer(u: nat) -> nat {
    if bit_length(u) <= 53 {
        u
    } else {
        rounded_shift(u, (bit_length(u) - 53) as nat) * pow2((bit_length(u) - 53) as nat)
    }
}

/// The integer that the double nearest to `u` is worth.
pub fn to_nearest_integer(u: u64) -> (r: u128)
    ensures
        r == nearest_integer(u as nat),
        r <= 0x1_0000_0000_0000_0000,
        u > 0 ==> r > 0,
{
    if u == 0 {
        assert(bit_length(0) == 0);
        return 0;
    }
    let len = length_of(u);
    if len <= 53 {
        return u as u128;
    }
    let s = len - 53;
    let p = power_of_two(s);
    proof {
        lemma_powers();
        lemma2_to64_rest();
        lemma_pow2_adds(52, s as nat);
        lemma_pow2_adds(53, s as nat);
        let q = u as int / p as int;
        assert(0x10_0000_0000_0000 <= q < 0x20_0000_0000_0000) by (nonlinear_arith)
            requires
                0x10_0000_0000_0000 * p <= u < 0x20_0000_0000_0000 * p,
                p > 0,
                q == u as int / p as int,
        ;
        lemma_rounded_shift(u as nat, s as nat);
    }
    let q = u as u128 / p;
    let r = u as u128 % p;
    let half = p / 2;
    let m = if r > half || (r == half && q % 2 == 1) {
        q + 1
    } else {
        q
    };
    proof {
        assert(m * p <= 0x20_0000_0000_0000 * p) by (nonlinear_arith)
            requires
                m <= 0x20_0000_0000_0000,
                p > 0,
        ;
        assert(m * p > 0) by (nonlinear_arith)
            requires
                m >= 0x10_0000_0000_0000,
                p > 0,
        ;
        lemma_pow2_monotone((len - 1) as nat, 63);
    }
    m * p
}

/// The worth of a finite double without its sign, times 2^1075.
pub open spec fn scaled_magnitude(b: u64) -> int {
    significand(b) * pow2(scale(b))
}

/// Of two finite doubles the one with the greater bits, the sign aside, is
/// worth more, the sign aside.
pub proof fn lemma_magnitude_order_strict(a: u64, b: u64)
    requires
        is_finite(a),
        is_finite(b),
        magnitude(a) > magnitude(b),
    ensures
        scaled_magnitude(a) > scaled_magnitude(b),
{
    let ea = scale(a);
    let eb = scale(b);
    let ma = significand(a);
    let mb = significand(b);
    assert(exponent(a) >= exponent(b));
    lemma_pow2_pos(eb);
    let c = pow2(eb) as int;
    if ea == eb {
        assert(ma > mb);
        assert(ma * c > mb * c) by (nonlinear_arith)
            requires
                ma > mb,
                c > 0,
        ;
    } else {
        assert(ea >= eb + 1);
        lemma_product_bounds(ma, ea, 0x10_0000_0000_0000, ma, (eb + 1) as nat, ea);
        lemma_pow2_unfold((eb + 1) as nat);
        assert(mb * c < 0x10_0000_0000_0000 * (2 * c)) by (nonlinear_arith)
            requires
                0 <= mb < 0x20_0000_0000_0000,
                c > 0,
        ;
    }
}

/// `<` on finite doubles is `<` on what they are worth, and `<=` is `<=`:
/// the order of the bits, with the sign taken into account, is the order of
/// the numbers.
pub proof fn lemma_less_is_value_order(a: u64, b: u64)
    requires
        is_finite(a),
        is_finite(b),
    ensures
        less(a, b) <==> scaled(a) < scaled(b),
        at_most(a, b) <==> scaled(a) <= scaled(b),
{
    lemma_pow2_pos(scale(a));
    lemma_pow2_pos(scale(b));
    let xa = scaled_magnitude(a);
    let xb = scaled_magnitude(b);
    assert(xa >= 0 && xb >= 0 && (xa == 0 <==> significand(a) == 0) && (xb == 0 <==> significand(b)
        == 0)) by (nonlinear_arith)
        requires
            xa == significand(a) * pow2(scale(a)),
            xb == significand(b) * pow2(scale(b)),
            significand(a) >= 0,
            significand(b) >= 0,
            pow2(scale(a)) > 0,
            pow2(scale(b)) > 0,
    ;
    if magnitude(a) > magnitude(b) {
        lemma_magnitude_order_strict(a, b);
    }
    if magnitude(b) > magnitude(a) {
        lemma_magnitude_order_strict(b, a);
    }
    if magnitude(a) == magnitude(b) {
        assert(significand(a) == significand(b) && scale(a) == scale(b));
    }
}

} // verus!
