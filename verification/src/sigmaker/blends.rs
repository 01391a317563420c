//! Weighted means of shares, over one common denominator and divided once.

use crate::bignat::BigNat;
use crate::ordered;
use crate::sigmaker::similarity;
use crate::sigmaker::similarity::{lcs_len_u32, shared_numbers, shared_texts, SIM_ONE};
use vstd::prelude::*;

verus! {

/// A share with the weight it has in a blend.
pub struct Part {
    pub weight: u64,
    pub num: u128,
    pub den: u128,
}

/// A [`Part`] by its numbers.
#[verifier::ext_equal]
pub struct PartV {
    pub weight: int,
    pub num: int,
    pub den: int,
}

impl DeepView for Part {
    type V = PartV;

    open spec fn deep_view(&self) -> PartV {
        PartV { weight: self.weight as int, num: self.num as int, den: self.den as int }
    }
}

/// A share is a fraction of a whole, with some weight.
pub open spec fn fair(p: PartV) -> bool {
    &&& 0 < p.weight <= 1000
    &&& 0 <= p.num <= p.den
    &&& 0 < p.den
}

/// All parts are shares.
pub open spec fn all_fair(parts: Seq<PartV>) -> bool {
    forall|i: int| 0 <= i < parts.len() ==> fair(#[trigger] parts[i])
}

/// The sum of the weights.
pub open spec fn weights(parts: Seq<PartV>) -> int
    decreases parts.len(),
{
    if parts.len() == 0 {
        0
    } else {
        weights(parts.drop_last()) + parts.last().weight
    }
}

/// The common denominator.
pub open spec fn denominator(parts: Seq<PartV>) -> int
    decreases parts.len(),
{
    if parts.len() == 0 {
        1
    } else {
        denominator(parts.drop_last()) * parts.last().den
    }
}

/// The weighted sum, over the common denominator.
pub open spec fn numerator(parts: Seq<PartV>) -> int
    decreases parts.len(),
{
    if parts.len() == 0 {
        0
    } else {
        numerator(parts.drop_last()) * parts.last().den + parts.last().weight * parts.last().num
            * denominator(parts.drop_last())
    }
}

/// The weighted mean of the shares in trillionths.
#[verifier::opaque]
pub open spec fn blended(parts: Seq<PartV>) -> int {
    numerator(parts) * SIM_ONE / (denominator(parts) * weights(parts))
}

proof fn blend_is_bounded(parts: Seq<PartV>)
    requires
        all_fair(parts),
    ensures
        denominator(parts) > 0,
        weights(parts) >= 0,
        parts.len() > 0 ==> weights(parts) > 0,
        weights(parts) <= 1000 * parts.len(),
        0 <= numerator(parts) <= denominator(parts) * weights(parts),
        (forall|i: int| 0 <= i < parts.len() ==> (#[trigger] parts[i]).num == parts[i].den)
            ==> numerator(parts) == denominator(parts) * weights(parts),
    decreases parts.len(),
{
    if parts.len() > 0 {
        let d = parts.drop_last();
        let p = parts.last();
        assert(all_fair(d)) by {
            assert forall|i: int| 0 <= i < d.len() implies fair(#[trigger] d[i]) by {
                assert(d[i] == parts[i]);
            }
        }
        assert(fair(parts[parts.len() - 1]));
        blend_is_bounded(d);
        let n = numerator(d);
        let e = denominator(d);
        let w = weights(d);
        assert(e * p.den > 0) by (nonlinear_arith)
            requires
                e > 0,
                p.den > 0,
        ;
        assert(0 <= n * p.den <= (e * w) * p.den) by (nonlinear_arith)
            requires
                0 <= n <= e * w,
                p.den > 0,
        ;
        assert(0 <= p.weight * p.num * e <= p.weight * p.den * e) by (nonlinear_arith)
            requires
                0 <= p.num <= p.den,
                p.weight > 0,
                e > 0,
        ;
        assert((e * w) * p.den + p.weight * p.den * e == (e * p.den) * (w + p.weight))
            by (nonlinear_arith);
        if forall|i: int| 0 <= i < parts.len() ==> (#[trigger] parts[i]).num == parts[i].den {
            assert forall|i: int| 0 <= i < d.len() implies (#[trigger] d[i]).num == d[i].den by {
                assert(d[i] == parts[i]);
            }
            assert(parts[parts.len() - 1].num == p.den);
        }
    }
}

/// The mean of shares is a share, and whole where all of them are.
pub proof fn blend_is_a_share(parts: Seq<PartV>)
    requires
        all_fair(parts),
        parts.len() > 0,
    ensures
        0 <= blended(parts) <= SIM_ONE,
        (forall|i: int| 0 <= i < parts.len() ==> (#[trigger] parts[i]).num == parts[i].den)
            ==> blended(parts) == SIM_ONE,
{
    reveal(blended);
    blend_is_bounded(parts);
    let n = numerator(parts);
    let whole = denominator(parts) * weights(parts);
    assert(whole > 0) by (nonlinear_arith)
        requires
            whole == denominator(parts) * weights(parts),
            denominator(parts) > 0,
            weights(parts) > 0,
    ;
    assert(0 <= n * SIM_ONE / whole <= SIM_ONE && (n == whole ==> n * SIM_ONE / whole == SIM_ONE))
        by (nonlinear_arith)
        requires
            0 <= n <= whole,
            whole > 0,
    ;
}

/// The mean reaches a similarity exactly where the weighted sum does: nothing is lost in the division.
pub proof fn blend_reaches(parts: Seq<PartV>, sim: int)
    requires
        all_fair(parts),
        parts.len() > 0,
        0 <= sim,
    ensures
        blended(parts) >= sim <==> numerator(parts) * SIM_ONE >= sim * (denominator(parts) * weights(
            parts,
        )),
{
    reveal(blended);
    blend_is_bounded(parts);
    let n = numerator(parts) * SIM_ONE;
    let whole = denominator(parts) * weights(parts);
    assert(whole > 0) by (nonlinear_arith)
        requires
            whole == denominator(parts) * weights(parts),
            denominator(parts) > 0,
            weights(parts) > 0,
    ;
    assert(n / whole >= sim <==> n >= sim * whole) by (nonlinear_arith)
        requires
            whole > 0,
    ;
}

fn divide(n: &BigNat, whole: &BigNat, Ghost(part): Ghost<int>) -> (r: u64)
    requires
        n.wf(),
        whole.wf(),
        n.value() == part + 1,
        whole.value() > 0,
        0 <= part <= whole.value() * SIM_ONE,
    ensures
        r == part / whole.value(),
        r <= SIM_ONE,
{
    let ghost w = whole.value();
    let mut low: u64 = 0;
    let mut high: u64 = SIM_ONE + 1;
    assert((SIM_ONE + 1) * w > part) by (nonlinear_arith)
        requires
            part <= w * SIM_ONE,
            w > 0,
    ;
    while high - low > 1
        invariant
            n.wf(),
            whole.wf(),
            w == whole.value(),
            w > 0,
            n.value() == part + 1,
            low < high <= SIM_ONE + 1,
            low * w <= part,
            high * w > part,
        decreases high - low,
    {
        let mid: u64 = low + (high - low) / 2;
        let mut t = whole.copy();
        t.scale(mid);
        assert(w * mid == mid * w) by (nonlinear_arith);
        if t.at_least(n) {
            high = mid;
        } else {
            low = mid;
        }
    }
    assert(low == part / w) by (nonlinear_arith)
        requires
            low * w <= part,
            part < (low + 1) * w,
            w > 0,
    ;
    low
}

/// The weighted sum of the shares, `None` for zero, and the common denominator.
fn add_up(parts: &Vec<Part>) -> (r: (Option<BigNat>, BigNat))
    requires
        all_fair(parts.deep_view()),
    ensures
        r.1.wf(),
        r.1.value() == denominator(parts.deep_view()),
        match r.0 {
            Some(s) => s.wf() && s.value() == numerator(parts.deep_view()),
            None => numerator(parts.deep_view()) == 0,
        },
{
    let ghost all = parts.deep_view();
    let mut prod = BigNat::one();
    let mut sum: Option<BigNat> = None;
    let mut i: usize = 0;
    assert(all.take(0) =~= Seq::<PartV>::empty());
    while i < parts.len()
        invariant
            all == parts.deep_view(),
            all_fair(all),
            i <= parts@.len(),
            prod.wf(),
            prod.value() == denominator(all.take(i as int)),
            match sum {
                Some(s) => s.wf() && s.value() == numerator(all.take(i as int)),
                None => numerator(all.take(i as int)) == 0,
            },
        decreases parts@.len() - i,
    {
        let p = &parts[i];
        let ghost d = all.take(i as int);
        assert(all.take(i + 1).drop_last() =~= d);
        assert(all.take(i + 1).last() == p.deep_view());
        assert(fair(all[i as int]));
        let mut term: Option<BigNat> = None;
        if p.num > 0 {
            let mut t = prod.copy();
            t.scale(p.weight);
            t.scale_wide(p.num);
            assert(denominator(d) * p.weight * p.num == p.weight * p.num * denominator(d))
                by (nonlinear_arith);
            term = Some(t);
        } else {
            assert(p.weight * p.num * denominator(d) == 0) by (nonlinear_arith)
                requires
                    p.num == 0,
            ;
        }
        let ghost before = numerator(d);
        sum = match sum {
            None => term,
            Some(s) => {
                let mut s: BigNat = s;
                s.scale_wide(p.den);
                match term {
                    None => Some(s),
                    Some(t) => Some(s.plus(&t)),
                }
            },
        };
        assert(before == 0 ==> before * p.den == 0) by (nonlinear_arith);
        prod.scale_wide(p.den);
        i += 1;
    }
    assert(all.take(i as int) =~= all);
    (sum, prod)
}

/// A sum in trillionths, and one more so that it is positive.
fn enlarge(sum: Option<BigNat>) -> (n: BigNat)
    requires
        sum matches Some(s) ==> s.wf(),
    ensures
        n.wf(),
        n.value() == 1 + (match sum {
            Some(s) => s.value() * SIM_ONE,
            None => 0,
        }),
{
    match sum {
        None => BigNat::one(),
        Some(s) => {
            let mut s: BigNat = s;
            s.scale(SIM_ONE);
            s.plus(&BigNat::one())
        },
    }
}

/// The weighted mean of the shares in trillionths.
pub fn blend_of(parts: &Vec<Part>) -> (r: u64)
    requires
        all_fair(parts.deep_view()),
        parts@.len() > 0,
        parts@.len() <= 1000,
    ensures
        r == blended(parts.deep_view()),
        r <= SIM_ONE,
{
    let ghost all = parts.deep_view();
    let mut weight: u64 = 0;
    let mut i: usize = 0;
    assert(all.take(0) =~= Seq::<PartV>::empty());
    while i < parts.len()
        invariant
            all == parts.deep_view(),
            all_fair(all),
            parts@.len() <= 1000,
            i <= parts@.len(),
            weight <= 1000 * i,
            weight == weights(all.take(i as int)),
        decreases parts@.len() - i,
    {
        assert(all.take(i + 1).drop_last() =~= all.take(i as int));
        assert(all.take(i + 1).last() == parts@[i as int].deep_view());
        assert(fair(all[i as int]));
        weight += parts[i].weight;
        i += 1;
    }
    assert(all.take(i as int) =~= all);
    let (sum, whole) = add_up(parts);
    let mut whole: BigNat = whole;
    proof {
        reveal(blended);
        blend_is_bounded(all);
    }
    whole.scale(weight);
    let n = enlarge(sum);
    proof {
        let part = numerator(all) * SIM_ONE;
        let total = denominator(all) * weights(all);
        assert(total > 0) by (nonlinear_arith)
            requires
                total == denominator(all) * weights(all),
                denominator(all) > 0,
                weights(all) > 0,
        ;
        assert(0 <= part <= total * SIM_ONE) by (nonlinear_arith)
            requires
                0 <= numerator(all) <= total,
                part == numerator(all) * SIM_ONE,
        ;
    }
    divide(&n, &whole, Ghost(numerator(all) * SIM_ONE))
}

/// One weighted sum as a share of another, in trillionths.
#[verifier::opaque]
pub open spec fn compared(a: Seq<PartV>, b: Seq<PartV>) -> int {
    (numerator(a) * denominator(b)) * SIM_ONE / (numerator(b) * denominator(a))
}

fn scale_by_all(n: BigNat, parts: &Vec<Part>) -> (r: BigNat)
    requires
        n.wf(),
        all_fair(parts.deep_view()),
    ensures
        r.wf(),
        r.value() == n.value() * denominator(parts.deep_view()),
{
    let ghost all = parts.deep_view();
    let ghost v = n.value();
    let mut r: BigNat = n;
    let mut i: usize = 0;
    assert(all.take(0) =~= Seq::<PartV>::empty());
    assert(v * 1 == v);
    while i < parts.len()
        invariant
            all == parts.deep_view(),
            all_fair(all),
            i <= parts@.len(),
            r.wf(),
            r.value() == v * denominator(all.take(i as int)),
        decreases parts@.len() - i,
    {
        let ghost e = denominator(all.take(i as int));
        assert(all.take(i + 1).drop_last() =~= all.take(i as int));
        assert(all.take(i + 1).last() == parts@[i as int].deep_view());
        assert(fair(all[i as int]));
        let den: u128 = parts[i].den;
        r.scale_wide(den);
        assert(v * e * den == v * (e * den)) by (nonlinear_arith);
        i += 1;
    }
    assert(all.take(i as int) =~= all);
    r
}

/// One weighted sum as a share of another that is no less.
pub fn compare(a: &Vec<Part>, b: &Vec<Part>) -> (r: u64)
    requires
        all_fair(a.deep_view()),
        all_fair(b.deep_view()),
        numerator(b.deep_view()) > 0,
        numerator(a.deep_view()) * denominator(b.deep_view()) <= numerator(b.deep_view())
            * denominator(a.deep_view()),
    ensures
        r == compared(a.deep_view(), b.deep_view()),
        r <= SIM_ONE,
{
    let ghost av = a.deep_view();
    let ghost bv = b.deep_view();
    let (sa, _) = add_up(a);
    let (sb, _) = add_up(b);
    let part: Option<BigNat> = match sa {
        Some(s) => Some(scale_by_all(s, b)),
        None => None,
    };
    let whole: BigNat = match sb {
        Some(s) => scale_by_all(s, a),
        None => BigNat::one(),
    };
    let n = enlarge(part);
    proof {
        reveal(compared);
        blend_is_bounded(av);
        blend_is_bounded(bv);
        let x = numerator(av) * denominator(bv);
        let y = numerator(bv) * denominator(av);
        assert(y > 0) by (nonlinear_arith)
            requires
                y == numerator(bv) * denominator(av),
                numerator(bv) > 0,
                denominator(av) > 0,
        ;
        assert(0 <= x) by (nonlinear_arith)
            requires
                x == numerator(av) * denominator(bv),
                numerator(av) >= 0,
                denominator(bv) > 0,
        ;
        assert(numerator(av) == 0 ==> x == 0) by (nonlinear_arith)
            requires
                x == numerator(av) * denominator(bv),
        ;
        assert(0 <= x * SIM_ONE <= y * SIM_ONE) by (nonlinear_arith)
            requires
                0 <= x <= y,
        ;
    }
    divide(&n, &whole, Ghost((numerator(av) * denominator(bv)) * SIM_ONE))
}

/// The share of two streams that their longest common subsequence covers.
pub open spec fn stream_part<T>(weight: int, a: Seq<T>, b: Seq<T>) -> PartV {
    if a.len() + b.len() == 0 {
        PartV { weight, num: 1, den: 1 }
    } else {
        PartV { weight, num: (2 * similarity::lcs(a, b)) as int, den: (a.len() + b.len()) as int }
    }
}

/// The smaller of two counts as a share of the greater.
pub open spec fn count_part(weight: int, a: int, b: int) -> PartV {
    if a <= b {
        if b == 0 {
            PartV { weight, num: 1, den: 1 }
        } else {
            PartV { weight, num: a, den: b }
        }
    } else {
        PartV { weight, num: b, den: a }
    }
}

/// The share of the evidence of both sides that they have in common; nothing where neither has any.
pub open spec fn set_part<T>(weight: int, a: Seq<T>, b: Seq<T>) -> Seq<PartV> {
    let x = ordered::distinct(a);
    let y = ordered::distinct(b);
    let inter = ordered::common(x, y) as int;
    if a.len() == 0 && b.len() == 0 {
        Seq::empty()
    } else {
        seq![PartV { weight, num: inter, den: x.len() + y.len() - inter }]
    }
}

/// The share of two streams that their longest common subsequence covers.
pub fn stream_share(weight: u64, a: &[u32], b: &[u32]) -> (p: Part)
    requires
        0 < weight <= 1000,
    ensures
        p.deep_view() == stream_part(weight as int, a@, b@),
        fair(p.deep_view()),
{
    let den: u128 = a.len() as u128 + b.len() as u128;
    if den == 0 {
        return Part { weight, num: 1, den: 1 };
    }
    proof {
        similarity::lcs_is_bounded(a@, b@);
    }
    let n: usize = lcs_len_u32(a, b);
    Part { weight, num: 2 * (n as u128), den }
}

/// The smaller of two counts as a share of the greater.
pub fn count_share(weight: u64, a: usize, b: usize) -> (p: Part)
    requires
        0 < weight <= 1000,
    ensures
        p.deep_view() == count_part(weight as int, a as int, b as int),
        fair(p.deep_view()),
{
    if a <= b {
        if b == 0 {
            Part { weight, num: 1, den: 1 }
        } else {
            Part { weight, num: a as u128, den: b as u128 }
        }
    } else {
        Part { weight, num: b as u128, den: a as u128 }
    }
}

/// Add the share that two sets of numbers have in common, where there is any.
pub fn add_numbers(parts: &mut Vec<Part>, weight: u64, a: &[u64], b: &[u64])
    requires
        0 < weight <= 1000,
        all_fair(old(parts).deep_view()),
        old(parts)@.len() < 1000,
    ensures
        final(parts).deep_view() == old(parts).deep_view() + set_part(weight as int, a@, b@),
        all_fair(final(parts).deep_view()),
        old(parts)@.len() <= final(parts)@.len() <= old(parts)@.len() + 1,
{
    let ghost before = parts.deep_view();
    if a.len() > 0 || b.len() > 0 {
        let (num, den) = shared_numbers(a, b);
        let p = Part { weight, num, den };
        let ghost v = p.deep_view();
        parts.push(p);
        assert(parts.deep_view() =~= before + seq![v]);
    } else {
        assert(parts.deep_view() =~= before + set_part(weight as int, a@, b@));
    }
}

/// Add the share that two sets of texts have in common, where there is any.
pub fn add_texts(parts: &mut Vec<Part>, weight: u64, a: &Vec<String>, b: &Vec<String>)
    requires
        0 < weight <= 1000,
        all_fair(old(parts).deep_view()),
        old(parts)@.len() < 1000,
    ensures
        final(parts).deep_view() == old(parts).deep_view() + set_part(
            weight as int,
            a.deep_view(),
            b.deep_view(),
        ),
        all_fair(final(parts).deep_view()),
        old(parts)@.len() <= final(parts)@.len() <= old(parts)@.len() + 1,
{
    let ghost before = parts.deep_view();
    if a.len() > 0 || b.len() > 0 {
        let (num, den) = shared_texts(a, b);
        let p = Part { weight, num, den };
        let ghost v = p.deep_view();
        parts.push(p);
        assert(parts.deep_view() =~= before + seq![v]);
    } else {
        assert(parts.deep_view() =~= before + set_part(weight as int, a.deep_view(), b.deep_view()));
    }
}

/// Evidence fully agrees with itself.
pub proof fn set_part_with_itself<T>(weight: int, a: Seq<T>)
    ensures
        forall|i: int|
            0 <= i < set_part(weight, a, a).len() ==> (#[trigger] set_part(weight, a, a)[i]).num
                == set_part(weight, a, a)[i].den,
{
    let x = ordered::distinct(a);
    assert forall|i: int| 0 <= i < x.len() implies x.contains(#[trigger] x[i]) by {}
    ordered::common_with_itself(x, x);
}

/// What two sets share does not depend on which is asked.
pub proof fn set_part_is_symmetric<T>(weight: int, a: Seq<T>, b: Seq<T>)
    ensures
        set_part(weight, a, b) == set_part(weight, b, a),
{
    ordered::distinct_has_no_repeats(a);
    ordered::distinct_has_no_repeats(b);
    ordered::common_is_symmetric(ordered::distinct(a), ordered::distinct(b));
}

}
