//! The best of some scored addresses, and the best of those that are no part of the same match.

use crate::sigmaker::similarity;
use crate::sigmaker::similarity::are_apart;
use vstd::prelude::*;

verus! {

/// Addresses with their similarities.
pub type Scored = Seq<(usize, u64)>;

/// The place of the most similar one, the first among equals.
pub open spec fn top(s: Scored) -> Option<int>
    decreases s.len(),
{
    if s.len() == 0 {
        None
    } else {
        match top(s.drop_last()) {
            None => Some(0),
            Some(b) => if s.last().1 > s[b].1 {
                Some(s.len() - 1)
            } else {
                Some(b)
            },
        }
    }
}

/// The greatest similarity of those at least `gap` from `at`; zero where there is none.
pub open spec fn rival(s: Scored, at: usize, gap: int) -> u64
    decreases s.len(),
{
    if s.len() == 0 {
        0
    } else {
        let before = rival(s.drop_last(), at, gap);
        if similarity::apart(s.last().0 as int, at as int, gap) {
            similarity::greatest(before, s.last().1)
        } else {
            before
        }
    }
}

/// How many of those at least `gap` from `at` have the similarity.
pub open spec fn equals(s: Scored, at: usize, sim: u64, gap: int) -> nat
    decreases s.len(),
{
    if s.len() == 0 {
        0
    } else {
        equals(s.drop_last(), at, sim, gap) + if similarity::apart(s.last().0 as int, at as int, gap)
            && s.last().1 == sim {
            1nat
        } else {
            0nat
        }
    }
}

/// Nothing is more similar than the top, and nothing before it is as similar.
pub proof fn top_is_greatest(s: Scored)
    ensures
        match top(s) {
            None => s.len() == 0,
            Some(b) => 0 <= b < s.len() && (forall|k: int|
                0 <= k < s.len() ==> (#[trigger] s[k]).1 <= s[b].1) && forall|k: int|
                0 <= k < b ==> (#[trigger] s[k]).1 < s[b].1,
        },
    decreases s.len(),
{
    if s.len() > 0 {
        let d = s.drop_last();
        top_is_greatest(d);
        assert forall|k: int| 0 <= k < d.len() implies d[k] == s[k] by {}
        let b = top(s)->0;
        assert forall|k: int| 0 <= k < s.len() implies (#[trigger] s[k]).1 <= s[b].1 by {
            if k < d.len() {
                assert(d[k] == s[k]);
            }
        }
        assert forall|k: int| 0 <= k < b implies (#[trigger] s[k]).1 < s[b].1 by {
            assert(d[k] == s[k]);
        }
    }
}

/// The runner-up is the best of all that are far enough from the winner: none of them is more similar,
/// and one of them is as similar unless it is zero.
pub proof fn rival_is_greatest(s: Scored, at: usize, gap: int)
    ensures
        forall|k: int|
            0 <= k < s.len() && similarity::apart((#[trigger] s[k]).0 as int, at as int, gap) ==> s[k].1
                <= rival(s, at, gap),
        rival(s, at, gap) == 0 || exists|k: int|
            0 <= k < s.len() && similarity::apart((#[trigger] s[k]).0 as int, at as int, gap) && s[k].1
                == rival(s, at, gap),
    decreases s.len(),
{
    if s.len() > 0 {
        let d = s.drop_last();
        rival_is_greatest(d, at, gap);
        assert forall|k: int|
            0 <= k < s.len() && similarity::apart(
                (#[trigger] s[k]).0 as int,
                at as int,
                gap,
            ) implies s[k].1 <= rival(s, at, gap) by {
            if k < d.len() {
                assert(d[k] == s[k]);
            }
        }
        let r = rival(s, at, gap);
        if r != 0 {
            if r == rival(d, at, gap) {
                let k = choose|k: int|
                    0 <= k < d.len() && similarity::apart(
                        (#[trigger] d[k]).0 as int,
                        at as int,
                        gap,
                    ) && d[k].1 == r;
                assert(s[k].1 == r);
            } else {
                assert(s[s.len() - 1].1 == r);
            }
        }
    }
}

/// One that is not far from itself is not among its equals.
pub proof fn others_are_fewer(s: Scored, i: int, sim: u64, gap: int)
    requires
        0 <= i < s.len(),
        gap > 0,
    ensures
        equals(s, s[i].0, sim, gap) < s.len(),
    decreases s.len(),
{
    let d = s.drop_last();
    if i < d.len() {
        assert(d[i] == s[i]);
        others_are_fewer(d, i, sim, gap);
    } else {
        equals_are_bounded(d, s[i].0, sim, gap);
    }
}

proof fn equals_are_bounded(s: Scored, at: usize, sim: u64, gap: int)
    ensures
        equals(s, at, sim, gap) <= s.len(),
    decreases s.len(),
{
    if s.len() > 0 {
        equals_are_bounded(s.drop_last(), at, sim, gap);
    }
}

/// The place of the most similar one, the first among equals.
pub fn find_top(v: &Vec<(usize, u64)>) -> (r: Option<usize>)
    ensures
        match r {
            Some(i) => top(v@) == Some(i as int) && i < v@.len(),
            None => top(v@) is None && v@.len() == 0,
        },
{
    let mut best: Option<usize> = None;
    let mut i: usize = 0;
    assert(v@.take(0) =~= Seq::<(usize, u64)>::empty());
    while i < v.len()
        invariant
            i <= v@.len(),
            match best {
                Some(b) => top(v@.take(i as int)) == Some(b as int) && b < i,
                None => i == 0 && top(v@.take(i as int)) is None,
            },
        decreases v@.len() - i,
    {
        assert(v@.take(i + 1).drop_last() =~= v@.take(i as int));
        best = match best {
            None => Some(0),
            Some(b) => if v[i].1 > v[b].1 {
                Some(i)
            } else {
                Some(b)
            },
        };
        i += 1;
    }
    assert(v@.take(i as int) =~= v@);
    best
}

/// The greatest similarity of those far enough from `at`.
pub fn find_rival(v: &Vec<(usize, u64)>, at: usize, gap: usize) -> (r: u64)
    ensures
        r == rival(v@, at, gap as int),
{
    let mut r: u64 = 0;
    let mut i: usize = 0;
    assert(v@.take(0) =~= Seq::<(usize, u64)>::empty());
    while i < v.len()
        invariant
            i <= v@.len(),
            r == rival(v@.take(i as int), at, gap as int),
        decreases v@.len() - i,
    {
        assert(v@.take(i + 1).drop_last() =~= v@.take(i as int));
        let (rva, sim) = v[i];
        if are_apart(rva, at, gap) && sim > r {
            r = sim;
        }
        i += 1;
    }
    assert(v@.take(i as int) =~= v@);
    r
}

/// How many of those far enough from `at` have the similarity.
pub fn count_equals(v: &Vec<(usize, u64)>, at: usize, sim: u64, gap: usize) -> (n: usize)
    ensures
        n == equals(v@, at, sim, gap as int),
        n <= v@.len(),
{
    let mut n: usize = 0;
    let mut i: usize = 0;
    assert(v@.take(0) =~= Seq::<(usize, u64)>::empty());
    while i < v.len()
        invariant
            i <= v@.len(),
            n <= i,
            n == equals(v@.take(i as int), at, sim, gap as int),
        decreases v@.len() - i,
    {
        assert(v@.take(i + 1).drop_last() =~= v@.take(i as int));
        let (rva, s) = v[i];
        if are_apart(rva, at, gap) && s == sim {
            n += 1;
        }
        i += 1;
    }
    assert(v@.take(i as int) =~= v@);
    n
}

}
