//! Natural numbers of any size, as far as exact comparisons of powers need them.

use vstd::arithmetic::power;
use vstd::prelude::*;

verus! {

/// The radix of a limb.
pub open spec fn radix() -> int {
    0x1_0000_0000_0000_0000
}

/// A power of the radix.
pub open spec fn radix_power(n: nat) -> int
    decreases n,
{
    if n == 0 {
        1
    } else {
        radix() * radix_power((n - 1) as nat)
    }
}

/// The number that some limbs stand for, the lowest first.
pub open spec fn number(limbs: Seq<u64>) -> int
    decreases limbs.len(),
{
    if limbs.len() == 0 {
        0
    } else {
        number(limbs.drop_last()) + limbs.last() * radix_power((limbs.len() - 1) as nat)
    }
}

/// A positive number of any size.
pub struct BigNat {
    pub limbs: Vec<u64>,
}

proof fn power_is_positive(n: nat)
    ensures
        radix_power(n) > 0,
    decreases n,
{
    if n > 0 {
        power_is_positive((n - 1) as nat);
    }
}

proof fn number_is_bounded(limbs: Seq<u64>)
    ensures
        0 <= number(limbs) < radix_power(limbs.len()),
    decreases limbs.len(),
{
    power_is_positive(limbs.len());
    if limbs.len() > 0 {
        let d = limbs.drop_last();
        number_is_bounded(d);
        let p = radix_power(d.len());
        let x = limbs.last() as int;
        assert(0 <= x * p && x * p + p <= radix() * p) by (nonlinear_arith)
            requires
                0 <= x < radix(),
                p > 0,
                radix() == 0x1_0000_0000_0000_0000,
        ;
    }
}

proof fn number_takes(limbs: Seq<u64>, i: int)
    requires
        0 <= i < limbs.len(),
    ensures
        number(limbs.take(i + 1)) == number(limbs.take(i)) + limbs[i] * radix_power(i as nat),
{
    assert(limbs.take(i + 1).drop_last() =~= limbs.take(i));
}

/// The lowest limbs, as many as there are of the first `i`.
pub open spec fn lowest(limbs: Seq<u64>, i: int) -> Seq<u64> {
    if i < limbs.len() {
        limbs.take(i)
    } else {
        limbs
    }
}

proof fn lowest_grows(limbs: Seq<u64>, i: int)
    requires
        0 <= i,
    ensures
        number(lowest(limbs, i + 1)) == number(lowest(limbs, i)) + (if i < limbs.len() {
            limbs[i] * radix_power(i as nat)
        } else {
            0
        }),
{
    if i < limbs.len() {
        number_takes(limbs, i);
        assert(limbs.take(limbs.len() as int) =~= limbs);
    }
}

impl BigNat {
    /// The number.
    pub open spec fn value(&self) -> int {
        number(self.limbs@)
    }

    /// No limb is wasted.
    pub open spec fn wf(&self) -> bool {
        self.limbs@.len() > 0 && self.limbs@.last() > 0
    }

    /// One.
    pub fn one() -> (r: BigNat)
        ensures
            r.wf(),
            r.value() == 1,
    {
        let r = BigNat { limbs: vec![1u64] };
        assert(r.limbs@.drop_last() =~= Seq::<u64>::empty());
        assert(number(Seq::<u64>::empty()) == 0);
        assert(radix_power(0) == 1);
        r
    }

    /// Multiply by a positive factor.
    pub fn scale(&mut self, m: u64)
        requires
            old(self).wf(),
            m > 0,
        ensures
            final(self).wf(),
            final(self).value() == old(self).value() * m,
    {
        let ghost start = self.limbs@;
        let mut carry: u64 = 0;
        let mut i: usize = 0;
        assert(self.limbs@.take(0) =~= Seq::<u64>::empty());
        assert(start.take(0) =~= Seq::<u64>::empty());
        while i < self.limbs.len()
            invariant
                m > 0,
                self.limbs@.len() == start.len(),
                start.len() > 0,
                start.last() > 0,
                i <= start.len(),
                forall|k: int| i <= k < start.len() ==> self.limbs@[k] == start[k],
                carry < m,
                number(self.limbs@.take(i as int)) + carry * radix_power(i as nat) == number(
                    start.take(i as int),
                ) * m,
                i == start.len() ==> carry > 0 || self.limbs@.last() > 0,
            decreases start.len() - i,
        {
            let ghost before = self.limbs@;
            let x: u64 = self.limbs[i];
            assert(x * m + carry <= 0xFFFF_FFFF_FFFF_FFFF * 0xFFFF_FFFF_FFFF_FFFF
                + 0xFFFF_FFFF_FFFF_FFFF) by (nonlinear_arith)
                requires
                    0 <= x <= 0xFFFF_FFFF_FFFF_FFFF,
                    0 <= m <= 0xFFFF_FFFF_FFFF_FFFF,
                    0 <= carry <= 0xFFFF_FFFF_FFFF_FFFF,
            ;
            let t: u128 = x as u128 * m as u128 + carry as u128;
            let low: u64 = (t % 0x1_0000_0000_0000_0000) as u64;
            let high: u128 = t / 0x1_0000_0000_0000_0000;
            proof {
                assert(high < m) by (nonlinear_arith)
                    requires
                        high == t / 0x1_0000_0000_0000_0000,
                        t == x * m + carry,
                        carry < m,
                        x <= 0xFFFF_FFFF_FFFF_FFFF,
                ;
                assert(x > 0 ==> t > 0) by (nonlinear_arith)
                    requires
                        t == x * m + carry,
                        m > 0,
                        carry >= 0,
                ;
            }
            self.limbs.set(i, low);
            let ghost old_carry = carry;
            carry = high as u64;
            proof {
                let now = self.limbs@;
                assert(now.take(i as int) =~= before.take(i as int));
                number_takes(now, i as int);
                number_takes(start, i as int);
                let p = radix_power(i as nat);
                let q = radix_power((i + 1) as nat);
                assert(q == radix() * p);
                assert(low * p + carry * q == (x * m + old_carry) * p) by (nonlinear_arith)
                    requires
                        q == radix() * p,
                        radix() == 0x1_0000_0000_0000_0000,
                        x * m + old_carry == carry * 0x1_0000_0000_0000_0000 + low,
                ;
                let a = number(start.take(i as int));
                assert((a + x * p) * m == a * m + (x * m) * p) by (nonlinear_arith);
                assert((x * m + old_carry) * p == (x * m) * p + old_carry * p) by (nonlinear_arith);
            }
            i += 1;
        }
        assert(self.limbs@.take(i as int) =~= self.limbs@);
        assert(start.take(i as int) =~= start);
        if carry > 0 {
            let ghost done = self.limbs@;
            self.limbs.push(carry);
            assert(self.limbs@.drop_last() =~= done);
        }
    }

    /// A copy.
    pub fn copy(&self) -> (r: BigNat)
        ensures
            r.limbs@ == self.limbs@,
    {
        let limbs = self.limbs.clone();
        assert(limbs@ =~= self.limbs@);
        BigNat { limbs }
    }

    /// The limb at a place; zero behind the last one.
    fn limb(&self, i: usize) -> (x: u64)
        ensures
            x == (if i < self.limbs@.len() {
                self.limbs@[i as int]
            } else {
                0
            }),
    {
        if i < self.limbs.len() {
            self.limbs[i]
        } else {
            0
        }
    }

    /// The sum.
    pub fn plus(&self, other: &BigNat) -> (r: BigNat)
        requires
            self.wf(),
            other.wf(),
        ensures
            r.wf(),
            r.value() == self.value() + other.value(),
    {
        let ghost a = self.limbs@;
        let ghost b = other.limbs@;
        let n: usize = if self.limbs.len() > other.limbs.len() {
            self.limbs.len()
        } else {
            other.limbs.len()
        };
        let mut out: Vec<u64> = Vec::new();
        let mut carry: u64 = 0;
        let mut i: usize = 0;
        assert(lowest(a, 0) =~= Seq::<u64>::empty());
        assert(lowest(b, 0) =~= Seq::<u64>::empty());
        while i < n
            invariant
                a == self.limbs@,
                b == other.limbs@,
                self.wf(),
                other.wf(),
                n == (if a.len() > b.len() {
                    a.len()
                } else {
                    b.len()
                }),
                i <= n,
                out@.len() == i,
                carry <= 1,
                number(out@) + carry * radix_power(i as nat) == number(lowest(a, i as int))
                    + number(lowest(b, i as int)),
                i == n ==> carry > 0 || out@.last() > 0,
            decreases n - i,
        {
            let x: u64 = self.limb(i);
            let y: u64 = other.limb(i);
            let t: u128 = x as u128 + y as u128 + carry as u128;
            let low: u64 = (t % 0x1_0000_0000_0000_0000) as u64;
            let high: u64 = (t / 0x1_0000_0000_0000_0000) as u64;
            let ghost old_carry = carry;
            let ghost before = out@;
            out.push(low);
            carry = high;
            proof {
                lowest_grows(a, i as int);
                lowest_grows(b, i as int);
                assert(out@.drop_last() =~= before);
                let p = radix_power(i as nat);
                assert(radix_power((i + 1) as nat) == radix() * p);
                assert(number(out@) == number(before) + low * p);
                assert((x == 0 ==> x * p == 0) && (y == 0 ==> y * p == 0)) by (nonlinear_arith);
                assert(number(lowest(a, i + 1)) == number(lowest(a, i as int)) + x * p);
                assert(number(lowest(b, i + 1)) == number(lowest(b, i as int)) + y * p);
                assert(low * p + carry * (radix() * p) == x * p + y * p + old_carry * p)
                    by (nonlinear_arith)
                    requires
                        radix() == 0x1_0000_0000_0000_0000,
                        x + y + old_carry == carry * 0x1_0000_0000_0000_0000 + low,
                ;
                if i + 1 == n {
                    assert(x > 0 || y > 0);
                }
            }
            i += 1;
        }
        proof {
            assert(lowest(a, n as int) =~= a);
            assert(lowest(b, n as int) =~= b);
        }
        if carry > 0 {
            let ghost done = out@;
            out.push(carry);
            assert(out@.drop_last() =~= done);
        }
        BigNat { limbs: out }
    }

    /// Multiply by a positive factor of two limbs.
    pub fn scale_wide(&mut self, m: u128)
        requires
            old(self).wf(),
            0 < m,
        ensures
            final(self).wf(),
            final(self).value() == old(self).value() * m,
    {
        let ghost v = self.value();
        let low: u64 = (m % 0x1_0000_0000_0000_0000) as u64;
        let high: u64 = (m / 0x1_0000_0000_0000_0000) as u64;
        if high == 0 {
            self.scale(low);
            return;
        }
        let once = self.copy();
        self.scale(high);
        self.scale(0x1_0000_0000);
        self.scale(0x1_0000_0000);
        assert(v * high * 0x1_0000_0000 * 0x1_0000_0000 == v * (high * 0x1_0000_0000_0000_0000))
            by (nonlinear_arith);
        if low > 0 {
            let mut rest = once;
            rest.scale(low);
            let sum = self.plus(&rest);
            *self = sum;
        }
        assert(v * (high * 0x1_0000_0000_0000_0000) + v * low == v * (high * 0x1_0000_0000_0000_0000
            + low)) by (nonlinear_arith);
        assert(low == 0 ==> v * low == 0) by (nonlinear_arith);
    }

    /// Multiply by a power of a positive factor.
    pub fn scale_power(&mut self, m: u64, n: usize)
        requires
            old(self).wf(),
            m > 0,
        ensures
            final(self).wf(),
            final(self).value() == old(self).value() * power::pow(m as int, n as nat),
    {
        let ghost start = self.value();
        let mut i: usize = 0;
        proof {
            power::lemma_pow0(m as int);
        }
        while i < n
            invariant
                self.wf(),
                m > 0,
                i <= n,
                self.value() == start * power::pow(m as int, i as nat),
            decreases n - i,
        {
            self.scale(m);
            proof {
                let p = power::pow(m as int, i as nat);
                power::lemma_pow_adds(m as int, i as nat, 1);
                power::lemma_pow1(m as int);
                assert((start * p) * m == start * (p * m)) by (nonlinear_arith);
            }
            i += 1;
        }
    }

    /// Whether the number is at least `other`.
    pub fn at_least(&self, other: &BigNat) -> (r: bool)
        requires
            self.wf(),
            other.wf(),
        ensures
            r == (self.value() >= other.value()),
    {
        let ghost a = self.limbs@;
        let ghost b = other.limbs@;
        if self.limbs.len() != other.limbs.len() {
            proof {
                if a.len() < b.len() {
                    longer_is_greater(a, b);
                } else {
                    longer_is_greater(b, a);
                }
            }
            return self.limbs.len() > other.limbs.len();
        }
        let mut i: usize = self.limbs.len();
        assert(a.take(i as int) =~= a);
        assert(b.take(i as int) =~= b);
        while i > 0
            invariant
                a == self.limbs@,
                b == other.limbs@,
                a.len() == b.len(),
                i <= a.len(),
                number(a) - number(b) == number(a.take(i as int)) - number(b.take(i as int)),
            decreases i,
        {
            i -= 1;
            proof {
                number_takes(a, i as int);
                number_takes(b, i as int);
                number_is_bounded(a.take(i as int));
                number_is_bounded(b.take(i as int));
                let p = radix_power(i as nat);
                let x = a[i as int] as int;
                let y = b[i as int] as int;
                assert(x > y ==> x * p >= y * p + p) by (nonlinear_arith)
                    requires
                        p > 0,
                ;
                assert(x < y ==> x * p + p <= y * p) by (nonlinear_arith)
                    requires
                        p > 0,
                ;
            }
            if self.limbs[i] != other.limbs[i] {
                return self.limbs[i] > other.limbs[i];
            }
        }
        true
    }
}

proof fn longer_is_greater(a: Seq<u64>, b: Seq<u64>)
    requires
        a.len() < b.len(),
        b.last() > 0,
    ensures
        number(a) < number(b),
{
    number_is_bounded(a);
    number_is_bounded(b.drop_last());
    powers_rise(a.len(), (b.len() - 1) as nat);
    let p = radix_power((b.len() - 1) as nat);
    power_is_positive((b.len() - 1) as nat);
    assert(b.last() * p >= p) by (nonlinear_arith)
        requires
            b.last() >= 1,
            p > 0,
    ;
}

proof fn powers_rise(i: nat, j: nat)
    requires
        i <= j,
    ensures
        radix_power(i) <= radix_power(j),
    decreases j,
{
    if i < j {
        powers_rise(i, (j - 1) as nat);
        power_is_positive((j - 1) as nat);
    }
}

}
