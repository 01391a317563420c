//! How distinctive bytes are by themselves: their Shannon entropy, scaled to 0..=100.
//!
//! With `n` bytes of which each value `b` occurs `c(b)` times, the entropy is
//! `log2(n) - sum(c(b) * log2(c(b))) / n` bits. A score of at least `k` is a comparison of that with a
//! fraction, and so a comparison of two products of powers, which is made exactly.

use crate::bignat::BigNat;
use vstd::arithmetic::power;
use vstd::prelude::*;

verus! {

/// How often `b` occurs.
pub open spec fn count_of(bytes: Seq<u8>, b: u8) -> nat
    decreases bytes.len(),
{
    if bytes.len() == 0 {
        0
    } else {
        count_of(bytes.drop_last(), b) + if bytes.last() == b {
            1nat
        } else {
            0nat
        }
    }
}

/// `c` to the power of `c`, `p` times over.
pub open spec fn self_power(c: nat, p: nat) -> int {
    power::pow(power::pow(c as int, c), p)
}

/// The product of the self powers of the counts of the byte values below `b`.
pub open spec fn count_powers(bytes: Seq<u8>, p: nat, b: int) -> int
    decreases b,
{
    if b <= 0 {
        1
    } else {
        count_powers(bytes, p, b - 1) * self_power(count_of(bytes, (b - 1) as u8), p)
    }
}

/// The weight of the entropy against [`damping`].
pub open spec fn gain(fixed: nat) -> nat {
    if fixed >= 6 {
        25
    } else {
        25 * fixed
    }
}

/// A short pattern cannot be as distinctive as a long one however random: below six fixed bytes the
/// score is damped in proportion.
pub open spec fn damping(fixed: nat) -> nat {
    if fixed >= 6 {
        1
    } else {
        6
    }
}

/// Whether the entropy is enough for the score `k`: 12.5 points per bit, damped, reach `k - 1/2`. With
/// `n` bytes, `p` the gain and `q` the damping that is `n^(p*n) >= 2^(q*n*(2*k-1)) * prod(c^(p*c))`.
pub open spec fn reaches(bytes: Seq<u8>, fixed: nat, k: nat) -> bool {
    self_power(bytes.len(), gain(fixed)) >= count_powers(bytes, gain(fixed), 256) * power::pow(
        power::pow(2, bytes.len()),
        (damping(fixed) * (2 * k - 1)) as nat,
    )
}

/// The greatest score from `k` to 100 that the entropy is enough for, where it is enough for `k`.
pub open spec fn greatest_from(bytes: Seq<u8>, fixed: nat, k: nat) -> nat
    decreases 100 - k,
{
    if k >= 100 || !reaches(bytes, fixed, k + 1) {
        k
    } else {
        greatest_from(bytes, fixed, k + 1)
    }
}

/// The entropy score of some fixed bytes.
pub open spec fn entropy_of(bytes: Seq<u8>, fixed: nat) -> nat {
    if bytes.len() == 0 {
        0
    } else {
        greatest_from(bytes, fixed, 0)
    }
}

/// A greater score is never easier to reach.
pub proof fn greater_scores_are_harder(bytes: Seq<u8>, fixed: nat, k: nat)
    requires
        k > 0,
        reaches(bytes, fixed, k + 1),
    ensures
        reaches(bytes, fixed, k),
{
    let two = power::pow(2, bytes.len());
    power::lemma_pow_positive(2, bytes.len());
    let a = (damping(fixed) * (2 * k - 1)) as nat;
    let b = (damping(fixed) * (2 * (k + 1) - 1)) as nat;
    let d = damping(fixed) as int;
    assert(d * (2 * k - 1) <= d * (2 * (k + 1) - 1) && d * (2 * k - 1) >= 0) by (nonlinear_arith)
        requires
            d > 0,
            k > 0,
    ;
    power::lemma_pow_increases(two as nat, a, b);
    powers_are_positive(bytes, gain(fixed), 256);
    let c = count_powers(bytes, gain(fixed), 256);
    assert(c * power::pow(two, a) <= c * power::pow(two, b)) by (nonlinear_arith)
        requires
            c > 0,
            power::pow(two, a) <= power::pow(two, b),
    ;
}

proof fn self_power_is_positive(c: nat, p: nat)
    ensures
        self_power(c, p) > 0,
{
    if c == 0 {
        power::lemma_pow0(0);
    } else {
        power::lemma_pow_positive(c as int, c);
    }
    power::lemma_pow_positive(power::pow(c as int, c), p);
}

proof fn powers_are_positive(bytes: Seq<u8>, p: nat, b: int)
    ensures
        count_powers(bytes, p, b) > 0,
    decreases b,
{
    if b > 0 {
        powers_are_positive(bytes, p, b - 1);
        let c = count_of(bytes, (b - 1) as u8);
        self_power_is_positive(c, p);
        let x = count_powers(bytes, p, b - 1);
        let y = self_power(c, p);
        assert(x * y > 0) by (nonlinear_arith)
            requires
                x > 0,
                y > 0,
        ;
    }
}

fn count_byte(bytes: &[u8], b: u8) -> (c: usize)
    ensures
        c == count_of(bytes@, b),
{
    let mut c: usize = 0;
    let mut i: usize = 0;
    assert(bytes@.take(0) =~= Seq::<u8>::empty());
    while i < bytes.len()
        invariant
            i <= bytes@.len(),
            c <= i,
            c == count_of(bytes@.take(i as int), b),
        decreases bytes@.len() - i,
    {
        assert(bytes@.take(i + 1).drop_last() =~= bytes@.take(i as int));
        if bytes[i] == b {
            c += 1;
        }
        i += 1;
    }
    assert(bytes@.take(i as int) =~= bytes@);
    c
}

fn scale_self_power(x: &mut BigNat, c: usize, p: usize)
    requires
        old(x).wf(),
        c > 0,
    ensures
        final(x).wf(),
        final(x).value() == old(x).value() * self_power(c as nat, p as nat),
{
    let ghost start = x.value();
    let ghost unit = power::pow(c as int, c as nat);
    let mut i: usize = 0;
    proof {
        power::lemma_pow0(unit);
    }
    while i < p
        invariant
            x.wf(),
            c > 0,
            i <= p,
            unit == power::pow(c as int, c as nat),
            x.value() == start * power::pow(unit, i as nat),
        decreases p - i,
    {
        x.scale_power(c as u64, c);
        proof {
            let q = power::pow(unit, i as nat);
            power::lemma_pow_adds(unit, i as nat, 1);
            power::lemma_pow1(unit);
            assert((start * q) * unit == start * (q * unit)) by (nonlinear_arith);
        }
        i += 1;
    }
}

fn scale_two_power(x: &mut BigNat, n: usize, times: usize)
    requires
        old(x).wf(),
    ensures
        final(x).wf(),
        final(x).value() == old(x).value() * power::pow(power::pow(2, n as nat), times as nat),
{
    let ghost start = x.value();
    let ghost unit = power::pow(2, n as nat);
    let mut i: usize = 0;
    proof {
        power::lemma_pow0(unit);
    }
    while i < times
        invariant
            x.wf(),
            i <= times,
            unit == power::pow(2, n as nat),
            x.value() == start * power::pow(unit, i as nat),
        decreases times - i,
    {
        x.scale_power(2, n);
        proof {
            let q = power::pow(unit, i as nat);
            power::lemma_pow_adds(unit, i as nat, 1);
            power::lemma_pow1(unit);
            assert((start * q) * unit == start * (q * unit)) by (nonlinear_arith);
        }
        i += 1;
    }
}

/// The entropy of the fixed bytes, scaled to 0..=100 and damped when there are very few.
pub fn entropy_score(bytes: &[u8], fixed_n: usize) -> (score: u32)
    ensures
        score == entropy_of(bytes@, fixed_n as nat),
        score <= 100,
{
    if bytes.len() == 0 {
        return 0;
    }
    let n: usize = bytes.len();
    let p: usize = if fixed_n >= 6 {
        25
    } else {
        25 * fixed_n
    };
    let q: usize = if fixed_n >= 6 {
        1
    } else {
        6
    };
    let mut whole = BigNat::one();
    scale_self_power(&mut whole, n, p);
    let mut parts = BigNat::one();
    let mut b: usize = 0;
    while b < 256
        invariant
            parts.wf(),
            b <= 256,
            parts.value() == count_powers(bytes@, p as nat, b as int),
        decreases 256 - b,
    {
        let c: usize = count_byte(bytes, b as u8);
        proof {
            if c == 0 {
                power::lemma_pow0(0);
                power::lemma1_pow(p as nat);
            }
            let x = count_powers(bytes@, p as nat, b as int);
            assert(x * 1 == x);
        }
        if c > 0 {
            scale_self_power(&mut parts, c, p);
        }
        b += 1;
    }
    let ghost base = parts.value();
    let ghost two = power::pow(2, n as nat);
    scale_two_power(&mut parts, n, q);
    let mut k: u32 = 0;
    assert((q * (2 * (k + 1) - 1)) as nat == q);
    while k < 100 && whole.at_least(&parts)
        invariant
            n == bytes@.len(),
            n > 0,
            p == gain(fixed_n as nat),
            q == damping(fixed_n as nat),
            1 <= q <= 6,
            whole.wf(),
            parts.wf(),
            base == count_powers(bytes@, p as nat, 256),
            two == power::pow(2, n as nat),
            whole.value() == self_power(n as nat, p as nat),
            parts.value() == base * power::pow(two, (q * (2 * (k + 1) - 1)) as nat),
            k <= 100,
            entropy_of(bytes@, fixed_n as nat) == greatest_from(bytes@, fixed_n as nat, k as nat),
        decreases 100 - k,
    {
        let ghost e = (q * (2 * (k + 1) - 1)) as nat;
        scale_two_power(&mut parts, n, 2 * q);
        k += 1;
        proof {
            let f = (q * (2 * (k + 1) - 1)) as nat;
            assert(f == e + 2 * q) by (nonlinear_arith)
                requires
                    e == q * (2 * k - 1),
                    f == q * (2 * (k + 1) - 1),
            ;
            power::lemma_pow_adds(two, e, (2 * q) as nat);
            let x = power::pow(two, e);
            let y = power::pow(two, (2 * q) as nat);
            assert((base * x) * y == base * (x * y)) by (nonlinear_arith);
        }
    }
    k
}

}
