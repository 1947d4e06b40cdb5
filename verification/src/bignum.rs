//! Natural numbers of any size, held in limbs of 32 bits with the least
//! significant limb first.

use vstd::arithmetic::power2::{lemma2_to64, lemma_pow2_adds, lemma_pow2_pos, pow2};
use vstd::prelude::*;

verus! {

/// The number that limbs write in base 2^32, least significant limb first.
pub open spec fn value(limbs: Seq<u32>) -> nat
    decreases limbs.len(),
{
    if limbs.len() == 0 {
        0
    } else {
        (value(limbs.drop_last()) + limbs.last() * pow2((32 * (limbs.len() - 1)) as nat)) as nat
    }
}

/// The limbs of a number are below the power of the base that their count
/// gives.
pub proof fn lemma_value_bound(limbs: Seq<u32>)
    ensures
        value(limbs) < pow2((32 * limbs.len()) as nat),
    decreases limbs.len(),
{
    lemma2_to64();
    if limbs.len() > 0 {
        let n = (limbs.len() - 1) as nat;
        lemma_value_bound(limbs.drop_last());
        lemma_pow2_adds(32, 32 * n);
        let b = pow2(32 * n) as int;
        assert(value(limbs.drop_last()) + limbs.last() * b < 0x1_0000_0000 * b) by (nonlinear_arith)
            requires
                value(limbs.drop_last()) < b,
                0 <= limbs.last() < 0x1_0000_0000,
        ;
        assert(32 * limbs.len() == 32 + 32 * n);
    }
}

/// One more limb at the top adds its worth.
pub proof fn lemma_value_push(limbs: Seq<u32>, top: u32)
    ensures
        value(limbs.push(top)) == value(limbs) + top * pow2((32 * limbs.len()) as nat),
{
    assert(limbs.push(top).drop_last() =~= limbs);
}

/// A number held in limbs.
#[derive(Debug, Clone)]
pub struct Big {
    pub limbs: Vec<u32>,
}

impl View for Big {
    type V = nat;

    open spec fn view(&self) -> nat {
        value(self.limbs@)
    }
}

impl Big {
    /// The number `x`.
    pub fn from_small(x: u32) -> (r: Big)
        ensures
            r@ == x,
    {
        let mut limbs: Vec<u32> = Vec::new();
        limbs.push(x);
        proof {
            lemma2_to64();
            assert(limbs@.drop_last() =~= Seq::<u32>::empty());
            assert(value(limbs@) == value(limbs@.drop_last()) + limbs@.last() * pow2(0));
        }
        Big { limbs }
    }

    /// This number times `m`, plus `c`.
    pub fn times_plus(&self, m: u32, c: u32) -> (r: Big)
        ensures
            r@ == self@ * m + c,
    {
        let n = self.limbs.len();
        let mut out: Vec<u32> = Vec::new();
        let mut carry: u64 = c as u64;
        let mut i: usize = 0;
        proof {
            lemma2_to64();
            assert(self.limbs@.subrange(0, 0) =~= Seq::<u32>::empty());
            assert(value(out@) + carry * pow2(0) == 0 * m + c) by (nonlinear_arith)
                requires
                    value(out@) == 0,
                    carry == c,
                    pow2(0) == 1,
            ;
        }
        while i < n
            invariant
                i <= n,
                n == self.limbs.len(),
                out@.len() == i,
                carry < 0x1_0000_0000,
                value(out@) + carry * pow2((32 * i) as nat) == value(
                    self.limbs@.subrange(0, i as int),
                ) * m + c,
            decreases n - i,
        {
            let limb = self.limbs[i];
            assert(limb * m <= 0xffff_ffff * 0xffff_ffff) by (nonlinear_arith)
                requires
                    limb <= 0xffff_ffff,
                    m <= 0xffff_ffff,
            ;
            let t: u64 = limb as u64 * m as u64 + carry;
            let low: u32 = (t % 0x1_0000_0000) as u32;
            let high: u64 = t / 0x1_0000_0000;
            proof {
                lemma2_to64();
                let before = self.limbs@.subrange(0, i as int);
                let after = self.limbs@.subrange(0, i + 1);
                assert(after.drop_last() =~= before);
                assert(after.last() == limb);
                lemma_value_push(out@, low);
                lemma_pow2_adds(32, (32 * i) as nat);
                let b = pow2((32 * i) as nat) as int;
                assert(32 * (i + 1) == 32 + 32 * i);
                assert(value(out@) + low * b + high * (0x1_0000_0000 * b) == (value(before) + limb
                    * b) * m + c) by (nonlinear_arith)
                    requires
                        value(out@) + carry * b == value(before) * m + c,
                        t == limb * m + carry,
                        t == high * 0x1_0000_0000 + low,
                ;
            }
            out.push(low);
            carry = high;
            i += 1;
        }
        proof {
            assert(self.limbs@.subrange(0, n as int) =~= self.limbs@);
            lemma_value_push(out@, carry as u32);
        }
        if carry != 0 {
            out.push(carry as u32);
        }
        Big { limbs: out }
    }

    /// Whether this number is zero.
    pub fn is_zero(&self) -> (r: bool)
        ensures
            r == (self@ == 0),
    {
        let n = self.limbs.len();
        let mut i: usize = 0;
        assert(self.limbs@.subrange(0, 0) =~= Seq::<u32>::empty());
        while i < n
            invariant
                i <= n,
                n == self.limbs.len(),
                value(self.limbs@.subrange(0, i as int)) == 0,
            decreases n - i,
        {
            proof {
                let after = self.limbs@.subrange(0, i + 1);
                assert(after.drop_last() =~= self.limbs@.subrange(0, i as int));
                assert(after.last() == self.limbs@[i as int]);
                lemma_pow2_pos((32 * i) as nat);
            }
            if self.limbs[i] != 0 {
                proof {
                    let after = self.limbs@.subrange(0, i + 1);
                    let b = pow2((32 * i) as nat) as int;
                    assert(after.last() * b > 0) by (nonlinear_arith)
                        requires
                            after.last() > 0,
                            b > 0,
                    ;
                    lemma_prefix_le(self.limbs@, i + 1);
                }
                return false;
            }
            i += 1;
        }
        assert(self.limbs@.subrange(0, n as int) =~= self.limbs@);
        true
    }
}

/// The first limbs of a number are worth at most the number.
pub proof fn lemma_prefix_le(limbs: Seq<u32>, k: int)
    requires
        0 <= k <= limbs.len(),
    ensures
        value(limbs.subrange(0, k)) <= value(limbs),
    decreases limbs.len() - k,
{
    if k == limbs.len() {
        assert(limbs.subrange(0, k) =~= limbs);
    } else {
        lemma_prefix_le(limbs, k + 1);
        let after = limbs.subrange(0, k + 1);
        assert(after.drop_last() =~= limbs.subrange(0, k));
        lemma_pow2_pos((32 * k) as nat);
        let b = pow2((32 * k) as nat) as int;
        assert(after.last() * b >= 0) by (nonlinear_arith)
            requires
                after.last() >= 0,
                b > 0,
        ;
    }
}

/// A number is its lowest limb plus the base times the rest.
pub proof fn lemma_value_front(limbs: Seq<u32>)
    requires
        limbs.len() > 0,
    ensures
        value(limbs) == limbs[0] + 0x1_0000_0000 * value(limbs.drop_first()),
    decreases limbs.len(),
{
    lemma2_to64();
    if limbs.len() == 1 {
        assert(limbs.drop_last() =~= Seq::<u32>::empty());
        assert(limbs.drop_first() =~= Seq::<u32>::empty());
        assert(value(limbs) == value(limbs.drop_last()) + limbs.last() * pow2(0));
        assert(limbs.last() * pow2(0) == limbs[0]) by (nonlinear_arith)
            requires
                limbs.last() == limbs[0],
                pow2(0) == 1,
        ;
    } else {
        let n = (limbs.len() - 1) as nat;
        let tail = limbs.drop_first();
        lemma_value_front(limbs.drop_last());
        assert(limbs.drop_last().drop_first() =~= tail.drop_last());
        assert(limbs.drop_last()[0] == limbs[0]);
        assert(tail.last() == limbs.last());
        lemma_pow2_adds(32, (32 * (n - 1)) as nat);
        assert(32 * n == 32 + 32 * (n - 1));
        let b = pow2((32 * (n - 1)) as nat) as int;
        let rest = value(tail.drop_last()) as int;
        let top = limbs.last() as int;
        assert(value(limbs) == value(limbs.drop_last()) + top * pow2((32 * n) as nat));
        assert(value(tail) == rest + top * b);
        assert(pow2((32 * n) as nat) == 0x1_0000_0000 * b);
        assert(limbs[0] + 0x1_0000_0000 * rest + top * (0x1_0000_0000 * b) == limbs[0]
            + 0x1_0000_0000 * (rest + top * b)) by (nonlinear_arith);
    }
}

/// A number is its first `k` limbs plus the rest times the power of the
/// base that `k` gives.
pub proof fn lemma_value_split(limbs: Seq<u32>, k: int)
    requires
        0 <= k <= limbs.len(),
    ensures
        value(limbs) == value(limbs.subrange(0, k)) + value(
            limbs.subrange(k, limbs.len() as int),
        ) * pow2((32 * k) as nat),
    decreases limbs.len() - k,
{
    lemma2_to64();
    let high = limbs.subrange(k, limbs.len() as int);
    if k == limbs.len() {
        assert(limbs.subrange(0, k) =~= limbs);
        assert(value(high) * pow2((32 * k) as nat) == 0) by (nonlinear_arith)
            requires
                value(high) == 0,
        ;
    } else {
        lemma_value_split(limbs, k + 1);
        let low = limbs.subrange(0, k + 1);
        assert(low.drop_last() =~= limbs.subrange(0, k));
        assert(low.last() == limbs[k]);
        lemma_value_front(high);
        assert(high.drop_first() =~= limbs.subrange(k + 1, limbs.len() as int));
        assert(high[0] == limbs[k]);
        lemma_pow2_adds(32, (32 * k) as nat);
        assert(32 * (k + 1) == 32 + 32 * k);
        let b = pow2((32 * k) as nat) as int;
        let rest = value(high.drop_first()) as int;
        let x = limbs[k] as int;
        assert(x * b + rest * (0x1_0000_0000 * b) == (x + 0x1_0000_0000 * rest) * b)
            by (nonlinear_arith);
    }
}

/// The limbs with zeros at the top up to `n` limbs.
fn padded(v: &Vec<u32>, n: usize) -> (r: Vec<u32>)
    ensures
        value(r@) == value(v@),
        r@.len() == (if v@.len() >= n {
            v@.len()
        } else {
            n as nat
        }),
        forall|i: int| 0 <= i < v@.len() ==> r@[i] == v@[i],
{
    let mut r: Vec<u32> = Vec::new();
    let mut i: usize = 0;
    while i < v.len()
        invariant
            i <= v.len(),
            r@ == v@.subrange(0, i as int),
        decreases v.len() - i,
    {
        r.push(v[i]);
        i += 1;
        assert(v@.subrange(0, i as int) =~= v@.subrange(0, i - 1).push(v@[i - 1]));
    }
    assert(v@.subrange(0, v.len() as int) =~= v@);
    while r.len() < n
        invariant
            value(r@) == value(v@),
            r@.len() >= v@.len(),
            r@.len() <= n || r@.len() == v@.len(),
            forall|i: int| 0 <= i < v@.len() ==> r@[i] == v@[i],
        decreases n - r.len(),
    {
        proof {
            lemma_value_push(r@, 0);
            assert(0 * pow2((32 * r@.len()) as nat) == 0) by (nonlinear_arith);
        }
        r.push(0);
    }
    r
}

impl Big {
    /// Whether this number is at least `other`.
    pub fn at_least(&self, other: &Big) -> (r: bool)
        ensures
            r == (self@ >= other@),
    {
        let n = if self.limbs.len() >= other.limbs.len() {
            self.limbs.len()
        } else {
            other.limbs.len()
        };
        let a = padded(&self.limbs, n);
        let b = padded(&other.limbs, n);
        let mut i: usize = n;
        assert(a@.subrange(n as int, n as int) =~= b@.subrange(n as int, n as int));
        while i > 0
            invariant
                i <= n,
                a@.len() == n,
                b@.len() == n,
                value(a@) == self@,
                value(b@) == other@,
                value(a@.subrange(i as int, n as int)) == value(b@.subrange(i as int, n as int)),
            decreases i,
        {
            let x = a[i - 1];
            let y = b[i - 1];
            proof {
                let ha = a@.subrange(i - 1, n as int);
                let hb = b@.subrange(i - 1, n as int);
                lemma_value_front(ha);
                lemma_value_front(hb);
                assert(ha.drop_first() =~= a@.subrange(i as int, n as int));
                assert(hb.drop_first() =~= b@.subrange(i as int, n as int));
                lemma_value_split(a@, i - 1);
                lemma_value_split(b@, i - 1);
                lemma_value_bound(a@.subrange(0, i - 1));
                lemma_value_bound(b@.subrange(0, i - 1));
                let p = pow2((32 * (i - 1)) as nat) as int;
                let h = value(a@.subrange(i as int, n as int)) as int;
                let la = value(a@.subrange(0, i - 1)) as int;
                let lb = value(b@.subrange(0, i - 1)) as int;
                if x > y {
                    assert(la + (x + 0x1_0000_0000 * h) * p > lb + (y + 0x1_0000_0000 * h) * p)
                        by (nonlinear_arith)
                        requires
                            x > y,
                            0 <= la,
                            0 <= lb < p,
                    ;
                }
                if x < y {
                    assert(la + (x + 0x1_0000_0000 * h) * p < lb + (y + 0x1_0000_0000 * h) * p)
                        by (nonlinear_arith)
                        requires
                            x < y,
                            0 <= lb,
                            0 <= la < p,
                    ;
                }
            }
            if x > y {
                return true;
            }
            if x < y {
                return false;
            }
            i -= 1;
        }
        assert(a@.subrange(0, n as int) =~= a@);
        assert(b@.subrange(0, n as int) =~= b@);
        true
    }

    /// This number less `other`, which is not greater.
    pub fn minus(&self, other: &Big) -> (r: Big)
        requires
            self@ >= other@,
        ensures
            r@ == self@ - other@,
    {
        let n = if self.limbs.len() >= other.limbs.len() {
            self.limbs.len()
        } else {
            other.limbs.len()
        };
        let a = padded(&self.limbs, n);
        let b = padded(&other.limbs, n);
        let mut out: Vec<u32> = Vec::new();
        let mut borrow: u32 = 0;
        let mut i: usize = 0;
        proof {
            lemma2_to64();
            assert(a@.subrange(0, 0) =~= Seq::<u32>::empty());
            assert(b@.subrange(0, 0) =~= Seq::<u32>::empty());
            assert(borrow * pow2(0) == 0) by (nonlinear_arith)
                requires
                    borrow == 0,
            ;
        }
        while i < n
            invariant
                i <= n,
                a@.len() == n,
                b@.len() == n,
                out@.len() == i,
                borrow <= 1,
                value(a@) == self@,
                value(b@) == other@,
                value(out@) + value(b@.subrange(0, i as int)) == value(a@.subrange(0, i as int))
                    + borrow * pow2((32 * i) as nat),
            decreases n - i,
        {
            let x = a[i] as u64;
            let y = b[i] as u64 + borrow as u64;
            let (digit, next): (u32, u32) = if x >= y {
                ((x - y) as u32, 0)
            } else {
                ((x + 0x1_0000_0000 - y) as u32, 1)
            };
            proof {
                lemma2_to64();
                let sa = a@.subrange(0, i + 1);
                let sb = b@.subrange(0, i + 1);
                assert(sa.drop_last() =~= a@.subrange(0, i as int));
                assert(sb.drop_last() =~= b@.subrange(0, i as int));
                assert(sa.last() == a@[i as int]);
                assert(sb.last() == b@[i as int]);
                lemma_value_push(out@, digit);
                lemma_pow2_adds(32, (32 * i) as nat);
                assert(32 * (i + 1) == 32 + 32 * i);
                let p = pow2((32 * i) as nat) as int;
                let va = value(a@.subrange(0, i as int)) as int;
                let vb = value(b@.subrange(0, i as int)) as int;
                let vo = value(out@) as int;
                assert(vo + digit * p + (vb + b@[i as int] * p) == va + a@[i as int] * p + next * (
                0x1_0000_0000 * p)) by (nonlinear_arith)
                    requires
                        vo + vb == va + borrow * p,
                        digit + b@[i as int] + borrow == a@[i as int] + next * 0x1_0000_0000,
                ;
            }
            out.push(digit);
            borrow = next;
            i += 1;
        }
        proof {
            assert(a@.subrange(0, n as int) =~= a@);
            assert(b@.subrange(0, n as int) =~= b@);
            lemma_value_bound(out@);
            let p = pow2((32 * n) as nat) as int;
            if borrow == 1 {
                assert(borrow * p == p) by (nonlinear_arith)
                    requires
                        borrow == 1,
                ;
            } else {
                assert(borrow * p == 0) by (nonlinear_arith)
                    requires
                        borrow == 0,
                ;
            }
        }
        Big { limbs: out }
    }

    /// Twice this number.
    pub fn doubled(&self) -> (r: Big)
        ensures
            r@ == 2 * self@,
    {
        self.times_plus(2, 0)
    }
}

} // verus!
