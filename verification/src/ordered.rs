//! Sorted sequences without repeats, and sequences without repeats in the order of first occurrence.

use crate::text;
use crate::text::{is_before, same_text};
use vstd::prelude::*;

verus! {

/// A strict order.
pub type Before<T> = spec_fn(T, T) -> bool;

/// Numbers in ascending order.
pub open spec fn ascending() -> Before<u64> {
    |a: u64, b: u64| a < b
}

/// Addresses in ascending order.
pub open spec fn rising() -> Before<usize> {
    |a: usize, b: usize| a < b
}

/// Texts in the order of their bytes.
pub open spec fn alphabetical() -> Before<Seq<char>> {
    |a: Seq<char>, b: Seq<char>| text::text_before(a, b)
}

/// `s`, which is sorted, with `x` at its place; unchanged where `x` is already there.
pub open spec fn ins<T>(s: Seq<T>, x: T, before: Before<T>) -> Seq<T>
    decreases s.len(),
{
    if s.len() == 0 {
        seq![x]
    } else if s.last() == x {
        s
    } else if before(x, s.last()) {
        ins(s.drop_last(), x, before).push(s.last())
    } else {
        s.push(x)
    }
}

/// `s` with every item of `items` at its place.
pub open spec fn ins_all<T>(s: Seq<T>, items: Seq<T>, before: Before<T>) -> Seq<T>
    decreases items.len(),
{
    if items.len() == 0 {
        s
    } else {
        ins(ins_all(s, items.drop_last(), before), items.last(), before)
    }
}

/// The items in order, each once.
pub open spec fn sorted_set<T>(items: Seq<T>, before: Before<T>) -> Seq<T> {
    ins_all(Seq::empty(), items, before)
}

/// Each item comes before all later ones.
pub open spec fn is_sorted<T>(s: Seq<T>, before: Before<T>) -> bool {
    forall|i: int, j: int| 0 <= i < j < s.len() ==> before(#[trigger] s[i], #[trigger] s[j])
}

/// A strict total order.
pub open spec fn is_strict_order<T>(before: Before<T>) -> bool {
    &&& forall|a: T, b: T, c: T|
        #![trigger before(a, b), before(b, c)]
        before(a, b) && before(b, c) ==> before(a, c)
    &&& forall|a: T, b: T| #![trigger before(a, b)] before(a, b) || a == b || before(b, a)
    &&& forall|a: T, b: T| #![trigger before(a, b)] before(a, b) ==> a != b && !before(b, a)
}

/// Inserting keeps the order, adds the item and loses none.
pub proof fn ins_keeps_order<T>(s: Seq<T>, x: T, before: Before<T>)
    requires
        is_strict_order(before),
        is_sorted(s, before),
    ensures
        is_sorted(ins(s, x, before), before),
        forall|y: T|
            #![trigger ins(s, x, before).contains(y)]
            #![trigger s.contains(y)]
            ins(s, x, before).contains(y) <==> (s.contains(y) || y == x),
        s.len() <= ins(s, x, before).len() <= s.len() + 1,
    decreases s.len(),
{
    let r = ins(s, x, before);
    if s.len() == 0 {
        assert(r[0] == x);
    } else if s.last() == x {
        assert(s[s.len() - 1] == x);
    } else if before(x, s.last()) {
        let shorter = ins(s.drop_last(), x, before);
        ins_keeps_order(s.drop_last(), x, before);
        assert forall|i: int| 0 <= i < shorter.len() implies before(#[trigger] shorter[i], s.last())
            by {
            assert(shorter.contains(shorter[i]));
            if shorter[i] != x {
                assert(s.drop_last().contains(shorter[i]));
                let k = choose|k: int|
                    0 <= k < s.drop_last().len() && s.drop_last()[k] == shorter[i];
                assert(before(s[k], s[s.len() - 1]));
            }
        }
        assert forall|y: T| r.contains(y) <==> (s.contains(y) || y == x) by {
            if r.contains(y) {
                let k = choose|k: int| 0 <= k < r.len() && r[k] == y;
                if k < shorter.len() {
                    assert(shorter.contains(shorter[k]));
                    if y != x {
                        let m = choose|m: int|
                            0 <= m < s.drop_last().len() && s.drop_last()[m] == y;
                        assert(s[m] == y);
                    }
                } else {
                    assert(s[s.len() - 1] == y);
                }
            }
            if s.contains(y) || y == x {
                if y == s.last() {
                    assert(r[r.len() - 1] == y);
                } else {
                    if s.contains(y) {
                        let m = choose|m: int| 0 <= m < s.len() && s[m] == y;
                        assert(s.drop_last()[m] == y);
                    }
                    assert(shorter.contains(y));
                    let k = choose|k: int| 0 <= k < shorter.len() && shorter[k] == y;
                    assert(r[k] == y);
                }
            }
        }
    } else {
        assert(before(s.last(), x));
        assert forall|i: int| 0 <= i < s.len() implies before(#[trigger] s[i], x) by {
            if i < s.len() - 1 {
                assert(before(s[i], s[s.len() - 1]));
            }
        }
        assert forall|y: T| r.contains(y) <==> (s.contains(y) || y == x) by {
            if s.contains(y) {
                let k = choose|k: int| 0 <= k < s.len() && s[k] == y;
                assert(r[k] == y);
            }
            if y == x {
                assert(r[s.len() as int] == y);
            }
        }
    }
}

/// A sorted set is sorted and holds exactly its items.
pub proof fn sorted_set_is_sorted<T>(s: Seq<T>, items: Seq<T>, before: Before<T>)
    requires
        is_strict_order(before),
        is_sorted(s, before),
    ensures
        is_sorted(ins_all(s, items, before), before),
        forall|y: T|
            #![trigger ins_all(s, items, before).contains(y)]
            #![trigger s.contains(y)]
            #![trigger items.contains(y)]
            ins_all(s, items, before).contains(y) <==> (s.contains(y) || items.contains(y)),
    decreases items.len(),
{
    if items.len() > 0 {
        let shorter = items.drop_last();
        sorted_set_is_sorted(s, shorter, before);
        ins_keeps_order(ins_all(s, shorter, before), items.last(), before);
        assert forall|y: T| items.contains(y) <==> (shorter.contains(y) || y == items.last()) by {
            if items.contains(y) {
                let k = choose|k: int| 0 <= k < items.len() && items[k] == y;
                if k < shorter.len() {
                    assert(shorter[k] == y);
                }
            }
            if shorter.contains(y) {
                let k = choose|k: int| 0 <= k < shorter.len() && shorter[k] == y;
                assert(items[k] == y);
            }
            if y == items.last() {
                assert(items[items.len() - 1] == y);
            }
        }
    }
}

/// Two sorted sequences with the same items are the same.
pub proof fn sorted_is_unique<T>(a: Seq<T>, b: Seq<T>, before: Before<T>)
    requires
        is_strict_order(before),
        is_sorted(a, before),
        is_sorted(b, before),
        forall|x: T| #![trigger a.contains(x)] a.contains(x) <==> b.contains(x),
    ensures
        a == b,
    decreases a.len(),
{
    if a.len() == 0 {
        if b.len() > 0 {
            assert(b.contains(b[0]));
            assert(a.contains(b[0]));
        }
        assert(a =~= b);
    } else if b.len() == 0 {
        assert(a.contains(a[0]));
    } else {
        let x = a.last();
        let y = b.last();
        assert(a.contains(a[a.len() - 1]));
        assert(b.contains(b[b.len() - 1]));
        assert(a.contains(y) && b.contains(x));
        let i = choose|i: int| 0 <= i < a.len() && a[i] == y;
        let j = choose|j: int| 0 <= j < b.len() && b[j] == x;
        assert(x == y) by {
            if i < a.len() - 1 {
                assert(before(a[i], a[a.len() - 1]));
            }
            if j < b.len() - 1 {
                assert(before(b[j], b[b.len() - 1]));
            }
        }
        let c = a.drop_last();
        let d = b.drop_last();
        assert forall|z: T| #![trigger c.contains(z)] c.contains(z) <==> d.contains(z) by {
            if c.contains(z) {
                let k = choose|k: int| 0 <= k < c.len() && c[k] == z;
                assert(a[k] == z && before(a[k], a[a.len() - 1]));
                assert(a.contains(z));
                let m = choose|m: int| 0 <= m < b.len() && b[m] == z;
                assert(m < b.len() - 1);
                assert(d[m] == z);
            }
            if d.contains(z) {
                let k = choose|k: int| 0 <= k < d.len() && d[k] == z;
                assert(b[k] == z && before(b[k], b[b.len() - 1]));
                assert(b.contains(z));
                assert(a.contains(z));
                let m = choose|m: int| 0 <= m < a.len() && a[m] == z;
                assert(m < a.len() - 1);
                assert(c[m] == z);
            }
        }
        sorted_is_unique(c, d, before);
        assert(a =~= c.push(x));
        assert(b =~= d.push(y));
    }
}

/// Numbers are strictly ordered.
pub proof fn numbers_are_ordered()
    ensures
        is_strict_order(ascending()),
        is_strict_order(rising()),
{
}

proof fn ins_split<T>(s: Seq<T>, i: int, x: T, before: Before<T>)
    requires
        0 <= i <= s.len(),
        forall|k: int| i <= k < s.len() ==> before(x, #[trigger] s[k]) && s[k] != x,
    ensures
        ins(s, x, before) == ins(s.take(i), x, before) + s.skip(i),
    decreases s.len(),
{
    if i == s.len() {
        assert(s.take(i) =~= s);
        assert(ins(s.take(i), x, before) + s.skip(i) =~= ins(s, x, before));
    } else {
        let d = s.drop_last();
        ins_split(d, i, x, before);
        assert(d.take(i) =~= s.take(i));
        assert(ins(s, x, before) =~= ins(s.take(i), x, before) + s.skip(i));
    }
}

/// Put `x` at its place.
pub fn insert_u64(v: &mut Vec<u64>, x: u64)
    ensures
        final(v)@ == ins(old(v)@, x, ascending()),
{
    let mut i: usize = v.len();
    while i > 0 && v[i - 1] > x
        invariant
            i <= v@.len(),
            v@ == old(v)@,
            forall|k: int| i <= k < v@.len() ==> x < #[trigger] v@[k],
        decreases i,
    {
        i -= 1;
    }
    let ghost s = v@;
    proof {
        ins_split(s, i as int, x, ascending());
    }
    if i > 0 && v[i - 1] == x {
        assert(ins(s.take(i as int), x, ascending()) =~= s.take(i as int));
        assert(s.take(i as int) + s.skip(i as int) =~= s);
        return;
    }
    v.insert(i, x);
    assert(v@ =~= s.take(i as int).push(x) + s.skip(i as int));
    assert(ins(s.take(i as int), x, ascending()) =~= s.take(i as int).push(x));
}

/// Put `x` at its place.
pub fn insert_usize(v: &mut Vec<usize>, x: usize)
    ensures
        final(v)@ == ins(old(v)@, x, rising()),
{
    let mut i: usize = v.len();
    while i > 0 && v[i - 1] > x
        invariant
            i <= v@.len(),
            v@ == old(v)@,
            forall|k: int| i <= k < v@.len() ==> x < #[trigger] v@[k],
        decreases i,
    {
        i -= 1;
    }
    let ghost s = v@;
    proof {
        ins_split(s, i as int, x, rising());
    }
    if i > 0 && v[i - 1] == x {
        assert(ins(s.take(i as int), x, rising()) =~= s.take(i as int));
        assert(s.take(i as int) + s.skip(i as int) =~= s);
        return;
    }
    v.insert(i, x);
    assert(v@ =~= s.take(i as int).push(x) + s.skip(i as int));
    assert(ins(s.take(i as int), x, rising()) =~= s.take(i as int).push(x));
}

/// Put `x` at its place.
pub fn insert_text(v: &mut Vec<String>, x: String)
    ensures
        final(v).deep_view() == ins(old(v).deep_view(), x@, alphabetical()),
{
    let mut i: usize = v.len();
    let mut there: bool = false;
    while i > 0 && !there && !same_text(v[i - 1].as_str(), x.as_str()) && is_before(
        x.as_str(),
        v[i - 1].as_str(),
    )
        invariant
            i <= v@.len(),
            !there,
            v@ == old(v)@,
            forall|k: int|
                i <= k < v@.len() ==> text::text_before(x@, (#[trigger] v@[k])@) && v@[k]@ != x@,
        decreases i,
    {
        i -= 1;
    }
    let ghost s = v.deep_view();
    assert(s == old(v).deep_view());
    proof {
        ins_split(s, i as int, x@, alphabetical());
    }
    if i > 0 && same_text(v[i - 1].as_str(), x.as_str()) {
        assert(ins(s.take(i as int), x@, alphabetical()) =~= s.take(i as int));
        assert(s.take(i as int) + s.skip(i as int) =~= s);
        return;
    }
    let ghost text = x@;
    v.insert(i, x);
    assert(v.deep_view() =~= s.take(i as int).push(text) + s.skip(i as int));
    assert(ins(s.take(i as int), text, alphabetical()) =~= s.take(i as int).push(text));
}

/// The items in the order of their first occurrence, each once.
pub open spec fn distinct<T>(s: Seq<T>) -> Seq<T>
    decreases s.len(),
{
    if s.len() == 0 {
        s
    } else if s.drop_last().contains(s.last()) {
        distinct(s.drop_last())
    } else {
        distinct(s.drop_last()).push(s.last())
    }
}

/// How many items of `a` occur in `b`.
pub open spec fn common<T>(a: Seq<T>, b: Seq<T>) -> nat
    decreases a.len(),
{
    if a.len() == 0 {
        0
    } else {
        common(a.drop_last(), b) + if b.contains(a.last()) {
            1nat
        } else {
            0nat
        }
    }
}

/// Dropping repeats loses no item.
pub proof fn distinct_keeps_items<T>(s: Seq<T>)
    ensures
        distinct(s).len() <= s.len(),
        s.len() > 0 ==> distinct(s).len() > 0,
        forall|y: T|
            #![trigger distinct(s).contains(y)]
            #![trigger s.contains(y)]
            distinct(s).contains(y) <==> s.contains(y),
    decreases s.len(),
{
    if s.len() > 0 {
        let d = s.drop_last();
        distinct_keeps_items(d);
        assert forall|y: T| distinct(s).contains(y) <==> s.contains(y) by {
            if s.contains(y) {
                let k = choose|k: int| 0 <= k < s.len() && s[k] == y;
                if k < d.len() {
                    assert(d[k] == y);
                    assert(d.contains(y));
                    assert(distinct(d).contains(y));
                    let m = choose|m: int| 0 <= m < distinct(d).len() && distinct(d)[m] == y;
                    assert(distinct(s)[m] == y);
                } else if !d.contains(y) {
                    assert(distinct(s)[distinct(s).len() - 1] == y);
                } else {
                    assert(distinct(d).contains(y));
                }
            }
            if distinct(s).contains(y) {
                let k = choose|k: int| 0 <= k < distinct(s).len() && distinct(s)[k] == y;
                if k < distinct(d).len() {
                    assert(distinct(d)[k] == y);
                    assert(d.contains(y));
                    let m = choose|m: int| 0 <= m < d.len() && d[m] == y;
                    assert(s[m] == y);
                } else {
                    assert(s[s.len() - 1] == y);
                }
            }
        }
        if d.contains(s.last()) {
            assert(d.len() > 0);
        }
    }
}

/// No more items of `a` occur in `b` than there are.
pub proof fn common_is_bounded<T>(a: Seq<T>, b: Seq<T>)
    ensures
        common(a, b) <= a.len(),
        b.len() == 0 ==> common(a, b) == 0,
    decreases a.len(),
{
    if a.len() > 0 {
        common_is_bounded(a.drop_last(), b);
    }
}

/// Every item of a sequence without repeats occurs in itself.
pub proof fn common_with_itself<T>(a: Seq<T>, b: Seq<T>)
    requires
        forall|i: int| 0 <= i < a.len() ==> b.contains(#[trigger] a[i]),
    ensures
        common(a, b) == a.len(),
    decreases a.len(),
{
    if a.len() > 0 {
        assert(b.contains(a[a.len() - 1]));
        assert forall|i: int| 0 <= i < a.drop_last().len() implies b.contains(
            #[trigger] a.drop_last()[i],
        ) by {
            assert(b.contains(a[i]));
        }
        common_with_itself(a.drop_last(), b);
    }
}

pub(crate) proof fn common_is_intersection<T>(a: Seq<T>, b: Seq<T>)
    requires
        a.no_duplicates(),
    ensures
        common(a, b) == a.to_set().intersect(b.to_set()).len(),
        a.to_set().intersect(b.to_set()).finite(),
    decreases a.len(),
{
    a.unique_seq_to_set();
    if a.len() == 0 {
        assert(a.to_set().intersect(b.to_set()) =~= Set::<T>::empty());
    } else {
        let d = a.drop_last();
        let x = a.last();
        assert(d.no_duplicates());
        common_is_intersection(d, b);
        assert(!d.contains(x)) by {
            if d.contains(x) {
                let k = choose|k: int| 0 <= k < d.len() && d[k] == x;
                assert(a[k] == a[a.len() - 1]);
            }
        }
        let before = d.to_set().intersect(b.to_set());
        let all = a.to_set().intersect(b.to_set());
        assert forall|y: T| a.contains(y) <==> (d.contains(y) || y == x) by {
            if a.contains(y) {
                let k = choose|k: int| 0 <= k < a.len() && a[k] == y;
                if k < d.len() {
                    assert(d[k] == y);
                }
            }
            if d.contains(y) {
                let k = choose|k: int| 0 <= k < d.len() && d[k] == y;
                assert(a[k] == y);
            }
            if y == x {
                assert(a[a.len() - 1] == y);
            }
        }
        if b.contains(x) {
            assert(all =~= before.insert(x));
        } else {
            assert(all =~= before);
        }
    }
}

/// What two sequences without repeats have in common does not depend on which is asked.
pub proof fn common_is_symmetric<T>(a: Seq<T>, b: Seq<T>)
    requires
        a.no_duplicates(),
        b.no_duplicates(),
    ensures
        common(a, b) == common(b, a),
{
    common_is_intersection(a, b);
    common_is_intersection(b, a);
    assert(a.to_set().intersect(b.to_set()) =~= b.to_set().intersect(a.to_set()));
}

/// Dropping repeats leaves none.
pub proof fn distinct_has_no_repeats<T>(s: Seq<T>)
    ensures
        distinct(s).no_duplicates(),
    decreases s.len(),
{
    if s.len() > 0 {
        let d = s.drop_last();
        distinct_has_no_repeats(d);
        distinct_keeps_items(d);
        if !d.contains(s.last()) {
            assert(!distinct(d).contains(s.last()));
        }
    }
}

/// Every item of `a` occurs in `b` where as many do as there are.
pub proof fn full_common_is_inclusion<T>(a: Seq<T>, b: Seq<T>)
    requires
        common(a, b) == a.len(),
    ensures
        forall|y: T| a.contains(y) ==> #[trigger] b.contains(y),
    decreases a.len(),
{
    if a.len() > 0 {
        common_is_bounded(a.drop_last(), b);
        full_common_is_inclusion(a.drop_last(), b);
        assert forall|y: T| a.contains(y) implies #[trigger] b.contains(y) by {
            let k = choose|k: int| 0 <= k < a.len() && a[k] == y;
            if k < a.len() - 1 {
                assert(a.drop_last()[k] == y);
            }
        }
    }
}

/// Whether `x` occurs in `v`.
pub fn holds_u64(v: &[u64], x: u64) -> (r: bool)
    ensures
        r == v@.contains(x),
{
    let mut i: usize = 0;
    while i < v.len()
        invariant
            i <= v@.len(),
            forall|k: int| 0 <= k < i ==> v@[k] != x,
        decreases v@.len() - i,
    {
        if v[i] == x {
            assert(v@[i as int] == x);
            return true;
        }
        i += 1;
    }
    false
}

/// Whether `x` occurs in `v`.
pub fn holds_usize(v: &[usize], x: usize) -> (r: bool)
    ensures
        r == v@.contains(x),
{
    let mut i: usize = 0;
    while i < v.len()
        invariant
            i <= v@.len(),
            forall|k: int| 0 <= k < i ==> v@[k] != x,
        decreases v@.len() - i,
    {
        if v[i] == x {
            assert(v@[i as int] == x);
            return true;
        }
        i += 1;
    }
    false
}

/// Whether the text `x` occurs in `v`.
pub fn holds_text(v: &Vec<String>, x: &str) -> (r: bool)
    ensures
        r == v.deep_view().contains(x@),
{
    let mut i: usize = 0;
    while i < v.len()
        invariant
            i <= v@.len(),
            forall|k: int| 0 <= k < i ==> (#[trigger] v@[k])@ != x@,
        decreases v@.len() - i,
    {
        if same_text(v[i].as_str(), x) {
            assert(v.deep_view()[i as int] == x@);
            return true;
        }
        i += 1;
    }
    assert(!v.deep_view().contains(x@)) by {
        if v.deep_view().contains(x@) {
            let k = choose|k: int| 0 <= k < v.deep_view().len() && v.deep_view()[k] == x@;
            assert(v@[k]@ == x@);
        }
    }
    false
}

}
