//! Similarities in whole trillionths, each a fraction divided once and rounded down. A bound that is a whole
//! number of trillionths is thus reached exactly where the fraction reaches it.

use crate::ordered;
use crate::ordered::{holds_text, holds_u64};
use vstd::prelude::*;

verus! {

/// The similarity of two identical things.
pub const SIM_ONE: u64 = 1_000_000_000_000;

/// A hundredth.
pub const SIM_PERCENT: u64 = 10_000_000_000;

/// The fraction `a / b` in trillionths, rounded down, at most one.
pub open spec fn fraction(a: int, b: int) -> int {
    if a >= b {
        SIM_ONE as int
    } else {
        a * SIM_ONE / b
    }
}

/// The fraction `a / b` in trillionths.
pub fn fraction_of(a: u128, b: u128) -> (r: u64)
    requires
        b > 0,
        a <= 0x4_0000_0000_0000_0000,
    ensures
        r == fraction(a as int, b as int),
        r <= SIM_ONE,
{
    if a >= b {
        return SIM_ONE;
    }
    assert(a * SIM_ONE / b as int <= SIM_ONE) by (nonlinear_arith)
        requires
            a < b,
            b > 0,
    ;
    assert(a * SIM_ONE / b as int >= 0) by (nonlinear_arith)
        requires
            b > 0,
            a >= 0,
    ;
    (a * (SIM_ONE as u128) / b) as u64
}

/// The similarity in whole percent, halves upwards.
pub open spec fn percent(sim: int) -> int {
    (sim + SIM_PERCENT / 2) / SIM_PERCENT as int
}

/// The similarity in whole percent, halves upwards.
pub fn percent_of(sim: u64) -> (r: u32)
    requires
        sim <= SIM_ONE,
    ensures
        r == percent(sim as int),
        r <= 100,
{
    ((sim + SIM_PERCENT / 2) / SIM_PERCENT) as u32
}

/// `n / d` to the nearest whole number, halves away from zero.
pub open spec fn nearest(n: int, d: int) -> int {
    if n >= 0 {
        (2 * n + d) / (2 * d)
    } else {
        -((d - 2 * n) / (2 * d))
    }
}

/// The similarity in whole percent, halves to the even neighbour, as it is written out.
pub open spec fn shown_percent(sim: int) -> int {
    let q = sim / SIM_PERCENT as int;
    let r = sim % SIM_PERCENT as int;
    if 2 * r > SIM_PERCENT || (2 * r == SIM_PERCENT && q % 2 == 1) {
        q + 1
    } else {
        q
    }
}

/// The similarity in whole percent, as it is written out.
pub fn shown_percent_of(sim: u64) -> (r: u64)
    ensures
        r == shown_percent(sim as int),
{
    let q: u64 = sim / SIM_PERCENT;
    let r: u64 = sim % SIM_PERCENT;
    if 2 * r > SIM_PERCENT || (2 * r == SIM_PERCENT && q % 2 == 1) {
        q + 1
    } else {
        q
    }
}

/// The smaller of two similarities.
pub open spec fn least(a: u64, b: u64) -> u64 {
    if b < a {
        b
    } else {
        a
    }
}

/// The greater of two similarities.
pub open spec fn greatest(a: u64, b: u64) -> u64 {
    if b > a {
        b
    } else {
        a
    }
}

/// Whether two addresses are at least `gap` apart.
pub open spec fn apart(a: int, b: int, gap: int) -> bool {
    a - b >= gap || b - a >= gap
}

/// Whether two addresses are at least `gap` apart.
pub fn are_apart(a: usize, b: usize, gap: usize) -> (r: bool)
    ensures
        r == apart(a as int, b as int, gap as int),
{
    if a >= b {
        a - b >= gap || gap == 0
    } else {
        b - a >= gap
    }
}

/// The length of the longest common subsequence.
pub open spec fn lcs<T>(a: Seq<T>, b: Seq<T>) -> nat
    decreases a.len(), b.len(),
{
    if a.len() == 0 || b.len() == 0 {
        0
    } else if a.last() == b.last() {
        lcs(a.drop_last(), b.drop_last()) + 1
    } else {
        let x = lcs(a.drop_last(), b);
        let y = lcs(a, b.drop_last());
        if y > x {
            y
        } else {
            x
        }
    }
}

/// A common subsequence is no longer than either stream.
pub proof fn lcs_is_bounded<T>(a: Seq<T>, b: Seq<T>)
    ensures
        lcs(a, b) <= a.len(),
        lcs(a, b) <= b.len(),
    decreases a.len(), b.len(),
{
    if a.len() > 0 && b.len() > 0 {
        if a.last() == b.last() {
            lcs_is_bounded(a.drop_last(), b.drop_last());
        } else {
            lcs_is_bounded(a.drop_last(), b);
            lcs_is_bounded(a, b.drop_last());
        }
    }
}

/// The longest common subsequence does not depend on the order of the streams.
pub proof fn lcs_is_symmetric<T>(a: Seq<T>, b: Seq<T>)
    ensures
        lcs(a, b) == lcs(b, a),
    decreases a.len(), b.len(),
{
    if a.len() > 0 && b.len() > 0 {
        if a.last() == b.last() {
            lcs_is_symmetric(a.drop_last(), b.drop_last());
        } else {
            lcs_is_symmetric(a.drop_last(), b);
            lcs_is_symmetric(a, b.drop_last());
        }
    }
}

/// A stream is its own longest common subsequence.
pub proof fn lcs_with_itself<T>(a: Seq<T>)
    ensures
        lcs(a, a) == a.len(),
    decreases a.len(),
{
    if a.len() > 0 {
        lcs_with_itself(a.drop_last());
    }
}

/// Only equal streams have all of both in common.
pub proof fn full_lcs_is_equality<T>(a: Seq<T>, b: Seq<T>)
    requires
        lcs(a, b) == a.len(),
        lcs(a, b) == b.len(),
    ensures
        a == b,
    decreases a.len(),
{
    if a.len() > 0 {
        if a.last() == b.last() {
            full_lcs_is_equality(a.drop_last(), b.drop_last());
            assert(a =~= a.drop_last().push(a.last()));
            assert(b =~= b.drop_last().push(b.last()));
        } else {
            lcs_is_bounded(a.drop_last(), b);
            lcs_is_bounded(a, b.drop_last());
        }
    } else {
        assert(a =~= b);
    }
}

/// A fraction is one only where nothing is missing.
pub proof fn whole_fraction(a: int, b: int)
    requires
        0 <= a,
        0 < b,
    ensures
        fraction(a, b) == SIM_ONE <==> a >= b,
{
    if a < b {
        assert(a * SIM_ONE / b < SIM_ONE) by (nonlinear_arith)
            requires
                0 <= a < b,
        ;
    }
}

/// The length of the longest common subsequence of two mnemonic streams. A subsequence keeps order but
/// tolerates gaps, so an instruction inserted or removed on one side only costs that one position.
pub fn lcs_len_u32(a: &[u32], b: &[u32]) -> (r: usize)
    ensures
        r == lcs(a@, b@),
{
    let n: usize = b.len();
    let mut prev: Vec<usize> = Vec::new();
    let mut z: usize = 0;
    while z < n
        invariant
            z <= n,
            prev@.len() == z,
            forall|j: int| 0 <= j < z ==> prev@[j] == 0,
        decreases n - z,
    {
        prev.push(0);
        z += 1;
    }
    prev.push(0);
    let mut i: usize = 0;
    while i < a.len()
        invariant
            i <= a@.len(),
            n == b@.len(),
            prev@.len() == n + 1,
            forall|j: int|
                0 <= j <= n ==> #[trigger] prev@[j] == lcs(a@.take(i as int), b@.take(j)),
        decreases a@.len() - i,
    {
        let mut cur: Vec<usize> = Vec::new();
        cur.push(0);
        let mut j: usize = 0;
        let ghost longer = a@.take(i + 1);
        assert(longer.drop_last() =~= a@.take(i as int));
        while j < n
            invariant
                i < a@.len(),
                j <= n,
                n == b@.len(),
                prev@.len() == n + 1,
                cur@.len() == j + 1,
                longer == a@.take(i + 1),
                longer.drop_last() == a@.take(i as int),
                forall|k: int|
                    0 <= k <= n ==> #[trigger] prev@[k] == lcs(a@.take(i as int), b@.take(k)),
                forall|k: int| 0 <= k <= j ==> #[trigger] cur@[k] == lcs(longer, b@.take(k)),
            decreases n - j,
        {
            let ghost wider = b@.take(j + 1);
            proof {
                assert(wider.drop_last() =~= b@.take(j as int));
                lcs_is_bounded(a@.take(i as int), b@.take(j as int));
                assert(prev@[j as int] == lcs(a@.take(i as int), b@.take(j as int)));
                assert(prev@[j + 1] == lcs(a@.take(i as int), wider));
                assert(cur@[j as int] == lcs(longer, b@.take(j as int)));
            }
            let next: usize = if a[i] == b[j] {
                prev[j] + 1
            } else if cur[j] > prev[j + 1] {
                cur[j]
            } else {
                prev[j + 1]
            };
            cur.push(next);
            j += 1;
        }
        prev = cur;
        i += 1;
    }
    assert(a@.take(i as int) =~= a@);
    assert(b@.take(n as int) =~= b@);
    prev[n]
}

/// The length of the longest common subsequence of two encoding streams.
pub fn lcs_len_u64(a: &[u64], b: &[u64]) -> (r: usize)
    ensures
        r == lcs(a@, b@),
{
    let n: usize = b.len();
    let mut prev: Vec<usize> = Vec::new();
    let mut z: usize = 0;
    while z < n
        invariant
            z <= n,
            prev@.len() == z,
            forall|j: int| 0 <= j < z ==> prev@[j] == 0,
        decreases n - z,
    {
        prev.push(0);
        z += 1;
    }
    prev.push(0);
    let mut i: usize = 0;
    while i < a.len()
        invariant
            i <= a@.len(),
            n == b@.len(),
            prev@.len() == n + 1,
            forall|j: int|
                0 <= j <= n ==> #[trigger] prev@[j] == lcs(a@.take(i as int), b@.take(j)),
        decreases a@.len() - i,
    {
        let mut cur: Vec<usize> = Vec::new();
        cur.push(0);
        let mut j: usize = 0;
        let ghost longer = a@.take(i + 1);
        assert(longer.drop_last() =~= a@.take(i as int));
        while j < n
            invariant
                i < a@.len(),
                j <= n,
                n == b@.len(),
                prev@.len() == n + 1,
                cur@.len() == j + 1,
                longer == a@.take(i + 1),
                longer.drop_last() == a@.take(i as int),
                forall|k: int|
                    0 <= k <= n ==> #[trigger] prev@[k] == lcs(a@.take(i as int), b@.take(k)),
                forall|k: int| 0 <= k <= j ==> #[trigger] cur@[k] == lcs(longer, b@.take(k)),
            decreases n - j,
        {
            let ghost wider = b@.take(j + 1);
            proof {
                assert(wider.drop_last() =~= b@.take(j as int));
                lcs_is_bounded(a@.take(i as int), b@.take(j as int));
                assert(prev@[j as int] == lcs(a@.take(i as int), b@.take(j as int)));
                assert(prev@[j + 1] == lcs(a@.take(i as int), wider));
                assert(cur@[j as int] == lcs(longer, b@.take(j as int)));
            }
            let next: usize = if a[i] == b[j] {
                prev[j] + 1
            } else if cur[j] > prev[j + 1] {
                cur[j]
            } else {
                prev[j + 1]
            };
            cur.push(next);
            j += 1;
        }
        prev = cur;
        i += 1;
    }
    assert(a@.take(i as int) =~= a@);
    assert(b@.take(n as int) =~= b@);
    prev[n]
}

/// The Dice ratio `2 * inter / total`; one for two empty sides.
pub open spec fn dice(inter: int, total: int) -> int {
    if total == 0 {
        SIM_ONE as int
    } else {
        fraction(2 * inter, total)
    }
}

/// Jaccard over two evidence sets; `None` when both are empty: an absence of evidence is not a match.
pub open spec fn jaccard<T>(a: Seq<T>, b: Seq<T>) -> Option<int> {
    let x = ordered::distinct(a);
    let y = ordered::distinct(b);
    let inter = ordered::common(x, y) as int;
    if a.len() == 0 && b.len() == 0 {
        None
    } else {
        Some(fraction(inter, x.len() + y.len() - inter))
    }
}

/// The similarity of two counts: the smaller over the greater.
pub open spec fn agreement(a: int, b: int) -> int {
    if a <= b {
        if b == 0 {
            SIM_ONE as int
        } else {
            fraction(a, b)
        }
    } else {
        fraction(b, a)
    }
}

/// The similarity of two counts.
pub fn count_agreement(a: usize, b: usize) -> (r: u64)
    ensures
        r == agreement(a as int, b as int),
        r <= SIM_ONE,
{
    if a <= b {
        if b == 0 {
            SIM_ONE
        } else {
            fraction_of(a as u128, b as u128)
        }
    } else {
        fraction_of(b as u128, a as u128)
    }
}

/// Order-preserving, insertion-tolerant similarity of two mnemonic streams: the Dice ratio of their
/// longest common subsequence.
pub fn mnemonic_similarity(a: &[u32], b: &[u32]) -> (r: u64)
    ensures
        r == dice(lcs(a@, b@) as int, (a@.len() + b@.len()) as int),
        r <= SIM_ONE,
{
    let total: u128 = a.len() as u128 + b.len() as u128;
    if total == 0 {
        return SIM_ONE;
    }
    let n: usize = lcs_len_u32(a, b);
    fraction_of(2 * (n as u128), total)
}

/// There are no more common items than items, and some items where a side has any.
pub proof fn shares_are_bounded<T>(a: Seq<T>, b: Seq<T>)
    ensures
        ({
            let x = ordered::distinct(a);
            let y = ordered::distinct(b);
            let inter = ordered::common(x, y);
            &&& inter <= x.len() <= a.len()
            &&& inter <= y.len() <= b.len()
            &&& a.len() + b.len() > 0 ==> x.len() + y.len() - inter > 0
        }),
{
    let x = ordered::distinct(a);
    let y = ordered::distinct(b);
    ordered::distinct_keeps_items(a);
    ordered::distinct_keeps_items(b);
    ordered::distinct_has_no_repeats(a);
    ordered::distinct_has_no_repeats(b);
    ordered::common_is_bounded(x, y);
    ordered::common_is_bounded(y, x);
    ordered::common_is_symmetric(x, y);
}

/// How many distinct numbers two lists have in common, and how many they have together.
pub fn shared_numbers(a: &[u64], b: &[u64]) -> (r: (u128, u128))
    ensures
        ({
            let x = ordered::distinct(a@);
            let y = ordered::distinct(b@);
            let inter = ordered::common(x, y);
            &&& r.0 == inter
            &&& r.1 == x.len() + y.len() - inter
            &&& r.0 <= r.1 <= 2 * usize::MAX
            &&& a@.len() + b@.len() > 0 ==> r.1 > 0
        }),
{
    let x = distinct_u64(a);
    let y = distinct_u64(b);
    proof {
        shares_are_bounded(a@, b@);
        ordered::common_is_bounded(x@, y@);
    }
    let mut inter: usize = 0;
    let mut i: usize = 0;
    while i < x.len()
        invariant
            i <= x@.len(),
            inter == ordered::common(x@.take(i as int), y@),
            inter <= i,
        decreases x@.len() - i,
    {
        assert(x@.take(i + 1).drop_last() =~= x@.take(i as int));
        if holds_u64(y.as_slice(), x[i]) {
            inter += 1;
        }
        i += 1;
    }
    assert(x@.take(i as int) =~= x@);
    (inter as u128, (x.len() - inter) as u128 + y.len() as u128)
}

/// Jaccard over two sets of numbers.
pub fn jaccard_opt(a: &[u64], b: &[u64]) -> (r: Option<u64>)
    ensures
        match r {
            Some(v) => jaccard(a@, b@) == Some(v as int) && v <= SIM_ONE,
            None => jaccard(a@, b@) is None,
        },
{
    if a.len() == 0 && b.len() == 0 {
        return None;
    }
    let (inter, union) = shared_numbers(a, b);
    Some(fraction_of(inter, union))
}

fn distinct_u64(a: &[u64]) -> (r: Vec<u64>)
    ensures
        r@ == ordered::distinct(a@),
{
    let mut r: Vec<u64> = Vec::new();
    let mut i: usize = 0;
    assert(a@.take(0) =~= Seq::<u64>::empty());
    while i < a.len()
        invariant
            i <= a@.len(),
            r@ == ordered::distinct(a@.take(i as int)),
        decreases a@.len() - i,
    {
        proof {
            assert(a@.take(i + 1).drop_last() =~= a@.take(i as int));
            ordered::distinct_keeps_items(a@.take(i as int));
        }
        if !holds_u64(r.as_slice(), a[i]) {
            r.push(a[i]);
        }
        i += 1;
    }
    assert(a@.take(i as int) =~= a@);
    r
}

/// How many distinct texts two lists have in common, and how many they have together.
pub fn shared_texts(a: &Vec<String>, b: &Vec<String>) -> (r: (u128, u128))
    ensures
        ({
            let x = ordered::distinct(a.deep_view());
            let y = ordered::distinct(b.deep_view());
            let inter = ordered::common(x, y);
            &&& r.0 == inter
            &&& r.1 == x.len() + y.len() - inter
            &&& r.0 <= r.1 <= 2 * usize::MAX
            &&& a@.len() + b@.len() > 0 ==> r.1 > 0
        }),
{
    let x = distinct_texts(a);
    let y = distinct_texts(b);
    proof {
        shares_are_bounded(a.deep_view(), b.deep_view());
        ordered::common_is_bounded(x.deep_view(), y.deep_view());
    }
    let mut inter: usize = 0;
    let mut i: usize = 0;
    assert(x.deep_view().take(0) =~= Seq::<Seq<char>>::empty());
    while i < x.len()
        invariant
            i <= x@.len(),
            inter == ordered::common(x.deep_view().take(i as int), y.deep_view()),
            inter <= i,
        decreases x@.len() - i,
    {
        assert(x.deep_view().take(i + 1).drop_last() =~= x.deep_view().take(i as int));
        assert(x.deep_view().take(i + 1).last() == x@[i as int]@);
        if holds_text(&y, x[i].as_str()) {
            inter += 1;
        }
        i += 1;
    }
    assert(x.deep_view().take(i as int) =~= x.deep_view());
    (inter as u128, (x.len() - inter) as u128 + y.len() as u128)
}

fn distinct_texts(a: &Vec<String>) -> (r: Vec<String>)
    ensures
        r.deep_view() == ordered::distinct(a.deep_view()),
{
    let mut r: Vec<String> = Vec::new();
    let mut i: usize = 0;
    assert(a.deep_view().take(0) =~= Seq::<Seq<char>>::empty());
    assert(r.deep_view() =~= Seq::<Seq<char>>::empty());
    while i < a.len()
        invariant
            i <= a@.len(),
            r.deep_view() == ordered::distinct(a.deep_view().take(i as int)),
        decreases a@.len() - i,
    {
        proof {
            assert(a.deep_view().take(i + 1).drop_last() =~= a.deep_view().take(i as int));
            ordered::distinct_keeps_items(a.deep_view().take(i as int));
        }
        if !holds_text(&r, a[i].as_str()) {
            let ghost before = r.deep_view();
            r.push(a[i].clone());
            assert(r.deep_view() =~= before.push(a@[i as int]@));
        }
        i += 1;
    }
    assert(a.deep_view().take(i as int) =~= a.deep_view());
    r
}

/// A fraction of a non-negative part is between nothing and one whole.
pub proof fn fractions_are_shares()
    ensures
        forall|a: int, b: int|
            0 <= a && 0 < b ==> 0 <= #[trigger] fraction(a, b) <= SIM_ONE,
{
    assert forall|a: int, b: int| 0 <= a && 0 < b implies 0 <= #[trigger] fraction(a, b)
        <= SIM_ONE by {
        if a < b {
            assert(0 <= a * SIM_ONE / b <= SIM_ONE) by (nonlinear_arith)
                requires
                    0 <= a < b,
            ;
        }
    }
}

/// The share of common evidence is between nothing and one whole.
pub proof fn jaccard_is_a_share<T>(a: Seq<T>, b: Seq<T>)
    ensures
        jaccard(a, b) matches Some(v) ==> 0 <= v <= SIM_ONE,
{
    let x = ordered::distinct(a);
    let y = ordered::distinct(b);
    ordered::distinct_keeps_items(a);
    ordered::distinct_keeps_items(b);
    ordered::common_is_bounded(x, y);
    fractions_are_shares();
}

/// Evidence agrees with itself, where there is any.
pub proof fn jaccard_with_itself<T>(a: Seq<T>)
    ensures
        jaccard(a, a) == (if a.len() == 0 {
            None
        } else {
            Some(SIM_ONE as int)
        }),
{
    let x = ordered::distinct(a);
    assert forall|i: int| 0 <= i < x.len() implies x.contains(#[trigger] x[i]) by {}
    ordered::common_with_itself(x, x);
}

/// What two sets share does not depend on which is asked.
pub proof fn jaccard_is_symmetric<T>(a: Seq<T>, b: Seq<T>)
    ensures
        jaccard(a, b) == jaccard(b, a),
{
    ordered::distinct_has_no_repeats(a);
    ordered::distinct_has_no_repeats(b);
    ordered::common_is_symmetric(ordered::distinct(a), ordered::distinct(b));
}

}
