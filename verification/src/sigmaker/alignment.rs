//! Alignment of two vtables by the mnemonics of their slots.

use crate::sigmaker::blends;
use crate::sigmaker::blends::{compare, Part, PartV};
use crate::sigmaker::similarity;
use crate::sigmaker::similarity::{fraction_of, SIM_ONE};
use vstd::arithmetic::mul;
use vstd::multiset::*;
use vstd::prelude::*;

verus! {

/// What two lists of mnemonics share, counting repeats.
pub open spec fn overlap(a: Seq<u16>, b: Seq<u16>) -> nat {
    a.to_multiset().intersection_with(b.to_multiset()).len()
}

/// In ascending order, repeats allowed.
pub open spec fn in_order(s: Seq<u16>) -> bool {
    forall|i: int, j: int| 0 <= i < j < s.len() ==> s[i] <= s[j]
}

/// Every list in ascending order.
pub open spec fn all_in_order(fp: Seq<Seq<u16>>) -> bool {
    forall|i: int| 0 <= i < fp.len() ==> in_order(#[trigger] fp[i])
}

/// `x` behind all that are not greater.
pub open spec fn placed(s: Seq<u16>, x: u16) -> Seq<u16>
    decreases s.len(),
{
    if s.len() == 0 || s.last() <= x {
        s.push(x)
    } else {
        placed(s.drop_last(), x).push(s.last())
    }
}

/// The list in ascending order.
pub open spec fn ascending_of(s: Seq<u16>) -> Seq<u16>
    decreases s.len(),
{
    if s.len() == 0 {
        s
    } else {
        placed(ascending_of(s.drop_last()), s.last())
    }
}

proof fn placed_keeps_order(s: Seq<u16>, x: u16)
    requires
        in_order(s),
    ensures
        in_order(placed(s, x)),
        placed(s, x).to_multiset() =~= s.to_multiset().insert(x),
        placed(s, x).len() == s.len() + 1,
        forall|i: int|
            0 <= i < placed(s, x).len() ==> (#[trigger] placed(s, x)[i]) == x || s.contains(
                placed(s, x)[i],
            ),
    decreases s.len(),
{
    s.to_multiset_ensures();
    if s.len() == 0 || s.last() <= x {
        assert forall|i: int| 0 <= i < s.len() implies s[i] <= x by {
            if i < s.len() - 1 {
                assert(s[i] <= s[s.len() - 1]);
            }
        }
    } else {
        let d = s.drop_last();
        placed_keeps_order(d, x);
        let p = placed(d, x);
        let r = placed(s, x);
        p.to_multiset_ensures();
        d.to_multiset_ensures();
        assert(d.push(s.last()) =~= s);
        assert(r.to_multiset() =~= s.to_multiset().insert(x));
        assert forall|i: int| 0 <= i < p.len() implies #[trigger] p[i] <= s.last() by {
            if p[i] != x {
                let k = choose|k: int| 0 <= k < d.len() && d[k] == p[i];
                assert(s[k] <= s[s.len() - 1]);
            }
        }
        assert forall|i: int| 0 <= i < r.len() implies (#[trigger] r[i]) == x || s.contains(r[i]) by {
            if i < p.len() {
                assert(r[i] == p[i]);
                if p[i] != x {
                    let k = choose|k: int| 0 <= k < d.len() && d[k] == p[i];
                    assert(s[k] == r[i]);
                }
            } else {
                assert(s[s.len() - 1] == r[i]);
            }
        }
    }
}

/// Sorting puts a list in ascending order and changes nothing of what it shares with others.
pub proof fn ascending_keeps_content(s: Seq<u16>)
    ensures
        in_order(ascending_of(s)),
        ascending_of(s).to_multiset() =~= s.to_multiset(),
        ascending_of(s).len() == s.len(),
    decreases s.len(),
{
    if s.len() > 0 {
        let d = s.drop_last();
        ascending_keeps_content(d);
        placed_keeps_order(ascending_of(d), s.last());
        d.to_multiset_ensures();
        assert(d.push(s.last()) =~= s);
    }
}

/// The list in ascending order.
pub fn sorted(v: &[u16]) -> (out: Vec<u16>)
    ensures
        out@ == ascending_of(v@),
        in_order(out@),
{
    let mut out: Vec<u16> = Vec::new();
    let mut n: usize = 0;
    assert(v@.take(0) =~= Seq::<u16>::empty());
    while n < v.len()
        invariant
            n <= v@.len(),
            out@ == ascending_of(v@.take(n as int)),
        decreases v@.len() - n,
    {
        assert(v@.take(n + 1).drop_last() =~= v@.take(n as int));
        let x: u16 = v[n];
        let ghost s = out@;
        let mut i: usize = out.len();
        assert(s.take(i as int) =~= s);
        assert(placed(s, x) =~= placed(s.take(i as int), x) + s.skip(i as int));
        while i > 0 && out[i - 1] > x
            invariant
                i <= out@.len(),
                out@ == s,
                placed(s, x) == placed(s.take(i as int), x) + s.skip(i as int),
            decreases i,
        {
            proof {
                let t = s.take(i as int);
                assert(t.drop_last() =~= s.take(i - 1));
                assert(placed(t, x) + s.skip(i as int) =~= placed(s.take(i - 1), x) + s.skip(i - 1));
            }
            i -= 1;
        }
        out.insert(i, x);
        assert(out@ =~= s.take(i as int).push(x) + s.skip(i as int));
        n += 1;
    }
    assert(v@.take(n as int) =~= v@);
    proof {
        ascending_keeps_content(v@);
    }
    out
}

proof fn first_counts(s: Seq<u16>, i: int)
    requires
        0 <= i < s.len(),
    ensures
        s.skip(i).to_multiset() =~= s.skip(i + 1).to_multiset().insert(s[i]),
{
    let t = s.skip(i);
    t.to_multiset_ensures();
    assert(t.remove(0) =~= s.skip(i + 1));
    assert(t.contains(t[0]));
    assert(t.to_multiset().count(s[i]) > 0);
}

proof fn smaller_is_absent(s: Seq<u16>, j: int, x: u16)
    requires
        in_order(s),
        0 <= j < s.len(),
        x < s[j],
    ensures
        s.skip(j).to_multiset().count(x) == 0,
{
    let t = s.skip(j);
    t.to_multiset_ensures();
    if t.contains(x) {
        let k = choose|k: int| 0 <= k < t.len() && t[k] == x;
        if k > 0 {
            assert(s[j] <= s[j + k]);
        }
    }
}

/// How many mnemonics two ascending lists share, counting repeats, by a linear merge.
pub fn count_overlap(a: &[u16], b: &[u16]) -> (inter: usize)
    requires
        in_order(a@),
        in_order(b@),
    ensures
        inter == overlap(a@, b@),
        inter <= a@.len(),
        inter <= b@.len(),
{
    broadcast use group_multiset_axioms;
    broadcast use vstd::multiset::lemma_intersection_count;

    let mut i: usize = 0;
    let mut j: usize = 0;
    let mut inter: usize = 0;
    assert(a@.skip(0) =~= a@);
    assert(b@.skip(0) =~= b@);
    while i < a.len() && j < b.len()
        invariant
            in_order(a@),
            in_order(b@),
            i <= a@.len(),
            j <= b@.len(),
            inter <= i,
            inter <= j,
            overlap(a@, b@) == inter + overlap(a@.skip(i as int), b@.skip(j as int)),
        decreases a@.len() - i + b@.len() - j,
    {
        let ghost ma = a@.skip(i as int).to_multiset();
        let ghost mb = b@.skip(j as int).to_multiset();
        let ghost na = a@.skip(i + 1).to_multiset();
        let ghost nb = b@.skip(j + 1).to_multiset();
        proof {
            broadcast use group_multiset_axioms;
            broadcast use vstd::multiset::lemma_intersection_count;

            first_counts(a@, i as int);
            first_counts(b@, j as int);
        }
        if a[i] < b[j] {
            proof {
                smaller_is_absent(b@, j as int, a@[i as int]);
                assert(ma.intersection_with(mb) =~= na.intersection_with(mb));
            }
            i += 1;
        } else if b[j] < a[i] {
            proof {
                smaller_is_absent(a@, i as int, b@[j as int]);
                assert(ma.intersection_with(mb) =~= ma.intersection_with(nb));
            }
            j += 1;
        } else {
            proof {
                assert(ma.intersection_with(mb) =~= na.intersection_with(nb).insert(a@[i as int]));
            }
            inter += 1;
            i += 1;
            j += 1;
        }
    }
    proof {
        broadcast use group_multiset_axioms;
        broadcast use vstd::multiset::lemma_intersection_count;

        let x = a@.skip(i as int);
        let y = b@.skip(j as int);
        x.to_multiset_ensures();
        y.to_multiset_ensures();
        if i == a@.len() {
            assert(x.to_multiset() =~= Multiset::<u16>::empty());
            assert(x.to_multiset().intersection_with(y.to_multiset()) =~= Multiset::<u16>::empty());
        } else {
            assert(y.to_multiset() =~= Multiset::<u16>::empty());
            assert(x.to_multiset().intersection_with(y.to_multiset()) =~= Multiset::<u16>::empty());
        }
    }
    inter
}

/// The Dice ratio of two lists of mnemonics; zero where either is empty.
pub open spec fn slot_dice(a: Seq<u16>, b: Seq<u16>) -> int {
    if a.len() == 0 || b.len() == 0 {
        0
    } else {
        similarity::dice(overlap(a, b) as int, (a.len() + b.len()) as int)
    }
}

/// Sorensen-Dice over two ascending lists of mnemonics, counting repeats, in trillionths.
pub fn dice_sorted(a: &[u16], b: &[u16]) -> (r: u64)
    requires
        in_order(a@),
        in_order(b@),
    ensures
        r == slot_dice(a@, b@),
        r <= SIM_ONE,
{
    if a.len() == 0 || b.len() == 0 {
        return 0;
    }
    let inter: usize = count_overlap(a, b);
    fraction_of(2 * (inter as u128), a.len() as u128 + b.len() as u128)
}

/// The score of a matched pair: 100 for an identical slot, 0 at half agreement, -100 for a disjoint
/// pair.
pub open spec fn pair_score(a: Seq<u16>, b: Seq<u16>) -> int {
    if a.len() == 0 || b.len() == 0 {
        -100
    } else {
        let total = (a.len() + b.len()) as int;
        similarity::nearest(400 * overlap(a, b) - 100 * total, total)
    }
}

fn score_pair(a: &Vec<u16>, b: &Vec<u16>) -> (r: i128)
    requires
        in_order(a@),
        in_order(b@),
    ensures
        r == pair_score(a@, b@),
        -100 <= r <= 100,
{
    if a.len() == 0 || b.len() == 0 {
        return -100;
    }
    let inter: usize = count_overlap(a.as_slice(), b.as_slice());
    let total: i128 = a.len() as i128 + b.len() as i128;
    let n: i128 = 400 * (inter as i128) - 100 * total;
    if n >= 0 {
        assert((2 * n + total) / (2 * total) <= 100) by (nonlinear_arith)
            requires
                n <= 100 * total,
                total > 0,
                n >= 0,
        ;
        assert((2 * n + total) / (2 * total) >= 0) by (nonlinear_arith)
            requires
                total > 0,
                n >= 0,
        ;
        (2 * n + total) / (2 * total)
    } else {
        assert((total - 2 * n) / (2 * total) <= 100) by (nonlinear_arith)
            requires
                n >= -100 * total,
                total > 0,
                n < 0,
        ;
        assert((total - 2 * n) / (2 * total) >= 0) by (nonlinear_arith)
            requires
                total > 0,
                n < 0,
        ;
        -((total - 2 * n) / (2 * total))
    }
}

/// Opening a gap costs just past a single fully mismatched slot, so that a pair which shares any
/// mnemonics is never gapped.
pub const GAP_OPEN: i128 = -120;

/// Extending a gap is cheap, so that a contiguous block of inserted or removed methods is one event.
pub const GAP_EXTEND: i128 = -28;

/// The score of a cell no alignment reaches.
pub const UNREACHED: i128 = -2305843009213693952;

/// One cell of the dynamic program: the best alignments of a reference prefix and a candidate prefix
/// that end by pairing their last slots, with the last reference slot over a gap, and with the last
/// candidate slot over a gap; and which of the three each of them continues (0, 1 or 2).
#[derive(Clone, Copy, PartialEq, Eq, Structural)]
pub struct Cell {
    pub paired: i128,
    pub reference_gap: i128,
    pub candidate_gap: i128,
    pub before_paired: u8,
    pub before_reference_gap: u8,
    pub before_candidate_gap: u8,
}

/// A [`Cell`] in unbounded numbers.
pub struct CellV {
    pub paired: int,
    pub reference_gap: int,
    pub candidate_gap: int,
    pub before_paired: u8,
    pub before_reference_gap: u8,
    pub before_candidate_gap: u8,
}

impl Cell {
    /// The cell by its numbers.
    pub open spec fn value(self) -> CellV {
        CellV {
            paired: self.paired as int,
            reference_gap: self.reference_gap as int,
            candidate_gap: self.candidate_gap as int,
            before_paired: self.before_paired,
            before_reference_gap: self.before_reference_gap,
            before_candidate_gap: self.before_candidate_gap,
        }
    }
}

/// A cell at the border: a prefix with no counterpart costs nothing.
pub open spec fn border(paired: int, reference_gap: int, candidate_gap: int) -> CellV {
    CellV {
        paired,
        reference_gap,
        candidate_gap,
        before_paired: 0,
        before_reference_gap: 0,
        before_candidate_gap: 0,
    }
}

/// The cell from its three neighbours and the score of its pair.
pub open spec fn cell_from(diagonal: CellV, above: CellV, left: CellV, score: int) -> CellV {
    let (bv, bp) = if diagonal.reference_gap > diagonal.paired {
        if diagonal.candidate_gap > diagonal.reference_gap {
            (diagonal.candidate_gap, 2u8)
        } else {
            (diagonal.reference_gap, 1u8)
        }
    } else if diagonal.candidate_gap > diagonal.paired {
        (diagonal.candidate_gap, 2u8)
    } else {
        (diagonal.paired, 0u8)
    };
    let open_x = above.paired + GAP_OPEN;
    let extend_x = above.reference_gap + GAP_EXTEND;
    let open_y = left.paired + GAP_OPEN;
    let extend_y = left.candidate_gap + GAP_EXTEND;
    CellV {
        paired: score + bv,
        reference_gap: if open_x >= extend_x {
            open_x
        } else {
            extend_x
        },
        candidate_gap: if open_y >= extend_y {
            open_y
        } else {
            extend_y
        },
        before_paired: bp,
        before_reference_gap: if open_x >= extend_x {
            0
        } else {
            1
        },
        before_candidate_gap: if open_y >= extend_y {
            0
        } else {
            2
        },
    }
}

/// The cell of the first `i` reference and the first `j` candidate slots.
pub open spec fn cell(r: Seq<Seq<u16>>, c: Seq<Seq<u16>>, i: int, j: int) -> CellV
    decreases i, j,
{
    if i <= 0 && j <= 0 {
        border(0, UNREACHED as int, UNREACHED as int)
    } else if j <= 0 {
        border(UNREACHED as int, 0, UNREACHED as int)
    } else if i <= 0 {
        border(UNREACHED as int, UNREACHED as int, 0)
    } else {
        cell_from(
            cell(r, c, i - 1, j - 1),
            cell(r, c, i - 1, j),
            cell(r, c, i, j - 1),
            pair_score(r[i - 1], c[j - 1]),
        )
    }
}

/// Where an alignment ends: its cell, which of the three it is, and its score.
#[derive(Clone, Copy, PartialEq, Eq, Structural)]
pub struct End {
    pub i: usize,
    pub j: usize,
    pub kind: u8,
    pub score: i128,
}

/// An [`End`] in unbounded numbers.
pub struct EndV {
    pub i: int,
    pub j: int,
    pub kind: u8,
    pub score: int,
}

impl End {
    /// The end by its numbers.
    pub open spec fn value(self) -> EndV {
        EndV { i: self.i as int, j: self.j as int, kind: self.kind, score: self.score as int }
    }
}

/// The better of an end and one kind of a cell; the earlier among equals.
pub open spec fn better(e: EndV, i: int, j: int, kind: u8, score: int) -> EndV {
    if score > e.score {
        EndV { i, j, kind, score }
    } else {
        e
    }
}

/// The best of an end and the three kinds of a cell.
pub open spec fn best_of_cell(e: EndV, i: int, j: int, v: CellV) -> EndV {
    better(
        better(better(e, i, j, 0, v.paired), i, j, 1, v.reference_gap),
        i,
        j,
        2,
        v.candidate_gap,
    )
}

/// The best end in the last row before column `n`.
pub open spec fn best_in_row(r: Seq<Seq<u16>>, c: Seq<Seq<u16>>, n: int) -> EndV
    decreases n,
{
    if n <= 0 {
        EndV { i: 0, j: 0, kind: 0, score: UNREACHED as int }
    } else {
        best_of_cell(
            best_in_row(r, c, n - 1),
            r.len() as int,
            n - 1,
            cell(r, c, r.len() as int, n - 1),
        )
    }
}

/// The best end in the last row or in the last column before row `n`: free trailing gaps let the
/// alignment end anywhere there.
pub open spec fn best_end(r: Seq<Seq<u16>>, c: Seq<Seq<u16>>, n: int) -> EndV
    decreases n,
{
    if n <= 0 {
        best_in_row(r, c, c.len() as int + 1)
    } else {
        best_of_cell(
            best_end(r, c, n - 1),
            n - 1,
            c.len() as int,
            cell(r, c, n - 1, c.len() as int),
        )
    }
}

/// The pairs of the alignment that ends in the given cell, over those already found.
pub open spec fn traced(
    r: Seq<Seq<u16>>,
    c: Seq<Seq<u16>>,
    i: int,
    j: int,
    kind: u8,
    found: Seq<Option<usize>>,
) -> Seq<Option<usize>>
    decreases i + j,
{
    if i <= 0 || j <= 0 {
        found
    } else {
        let v = cell(r, c, i, j);
        if kind == 0 {
            traced(r, c, i - 1, j - 1, v.before_paired, found.update(i - 1, Some((j - 1) as usize)))
        } else if kind == 1 {
            traced(r, c, i - 1, j, v.before_reference_gap, found)
        } else {
            traced(r, c, i, j - 1, v.before_candidate_gap, found)
        }
    }
}

/// The slot of the candidate that each slot of the reference is aligned with.
pub open spec fn aligned(r: Seq<Seq<u16>>, c: Seq<Seq<u16>>) -> Seq<Option<usize>> {
    let none = Seq::new(r.len(), |i: int| None::<usize>);
    if r.len() == 0 || c.len() == 0 {
        none
    } else {
        let e = best_end(r, c, r.len() as int + 1);
        traced(r, c, e.i, e.j, e.kind, none)
    }
}

/// The pairs from row `i` on lie from column `j` on, within the candidate, and rise.
pub open spec fn rising_from(found: Seq<Option<usize>>, i: int, j: int, width: int) -> bool {
    &&& forall|a: int| 0 <= a < i && a < found.len() ==> found[a] is None
    &&& forall|a: int|
        0 <= a < found.len() ==> (#[trigger] found[a] matches Some(x) ==> i <= a && j <= x < width)
    &&& forall|a: int, b: int|
        0 <= a < b < found.len() ==> (#[trigger] found[a] matches Some(x) ==> (
        #[trigger] found[b] matches Some(y) ==> x < y))
}

proof fn trace_rises(
    r: Seq<Seq<u16>>,
    c: Seq<Seq<u16>>,
    i: int,
    j: int,
    kind: u8,
    found: Seq<Option<usize>>,
)
    requires
        0 <= i <= found.len(),
        0 <= j <= c.len(),
        c.len() <= usize::MAX,
        rising_from(found, i, j, c.len() as int),
    ensures
        traced(r, c, i, j, kind, found).len() == found.len(),
        rising_from(traced(r, c, i, j, kind, found), 0, 0, c.len() as int),
    decreases i + j,
{
    if i > 0 && j > 0 {
        let v = cell(r, c, i, j);
        if kind == 0 {
            let next = found.update(i - 1, Some((j - 1) as usize));
            assert(rising_from(next, i - 1, j - 1, c.len() as int));
            trace_rises(r, c, i - 1, j - 1, v.before_paired, next);
        } else if kind == 1 {
            trace_rises(r, c, i - 1, j, v.before_reference_gap, found);
        } else {
            trace_rises(r, c, i, j - 1, v.before_candidate_gap, found);
        }
    }
}

proof fn end_is_inside(r: Seq<Seq<u16>>, c: Seq<Seq<u16>>, n: int)
    requires
        n <= r.len() + 1,
    ensures
        0 <= best_end(r, c, n).i <= r.len(),
        0 <= best_end(r, c, n).j <= c.len(),
    decreases n,
{
    if n <= 0 {
        row_end_is_inside(r, c, c.len() as int + 1);
    } else {
        end_is_inside(r, c, n - 1);
    }
}

proof fn row_end_is_inside(r: Seq<Seq<u16>>, c: Seq<Seq<u16>>, n: int)
    requires
        n <= c.len() + 1,
    ensures
        0 <= best_in_row(r, c, n).i <= r.len(),
        0 <= best_in_row(r, c, n).j <= c.len(),
    decreases n,
{
    if n > 0 {
        row_end_is_inside(r, c, n - 1);
    }
}

/// The alignment keeps the order of the slots: of two reference slots that have a counterpart, the
/// later one's comes later, and every counterpart is a slot of the candidate.
pub proof fn alignment_keeps_order(r: Seq<Seq<u16>>, c: Seq<Seq<u16>>)
    requires
        c.len() <= usize::MAX,
    ensures
        aligned(r, c).len() == r.len(),
        forall|a: int|
            0 <= a < r.len() ==> (#[trigger] aligned(r, c)[a] matches Some(x) ==> x < c.len()),
        forall|a: int, b: int|
            0 <= a < b < r.len() ==> (#[trigger] aligned(r, c)[a] matches Some(x) ==> (
            #[trigger] aligned(r, c)[b] matches Some(y) ==> x < y)),
{
    let none = Seq::new(r.len(), |i: int| None::<usize>);
    if !(r.len() == 0 || c.len() == 0) {
        end_is_inside(r, c, r.len() as int + 1);
        let e = best_end(r, c, r.len() as int + 1);
        assert(rising_from(none, e.i, e.j, c.len() as int));
        trace_rises(r, c, e.i, e.j, e.kind, none);
    }
}

/// The cells hold what they are bounded by.
pub open spec fn bounded(v: CellV, i: int, j: int) -> bool {
    let least = UNREACHED - 120 * (i + j);
    let most = 100 * (i + j);
    &&& least <= v.paired <= most
    &&& least <= v.reference_gap <= most
    &&& least <= v.candidate_gap <= most
}

proof fn cells_are_bounded(r: Seq<Seq<u16>>, c: Seq<Seq<u16>>, i: int, j: int)
    requires
        0 <= i <= r.len(),
        0 <= j <= c.len(),
    ensures
        bounded(cell(r, c, i, j), i, j),
    decreases i, j,
{
    if i > 0 && j > 0 {
        cells_are_bounded(r, c, i - 1, j - 1);
        cells_are_bounded(r, c, i - 1, j);
        cells_are_bounded(r, c, i, j - 1);
        score_is_bounded(r[i - 1], c[j - 1]);
    }
}

proof fn score_is_bounded(a: Seq<u16>, b: Seq<u16>)
    ensures
        -100 <= pair_score(a, b) <= 100,
{
    if a.len() > 0 && b.len() > 0 {
        overlap_is_bounded(a, b);
        let total = (a.len() + b.len()) as int;
        let n = 400 * overlap(a, b) - 100 * total;
        if n >= 0 {
            assert(0 <= (2 * n + total) / (2 * total) <= 100) by (nonlinear_arith)
                requires
                    0 <= n <= 100 * total,
                    total > 0,
            ;
        } else {
            assert(0 <= (total - 2 * n) / (2 * total) <= 100) by (nonlinear_arith)
                requires
                    -100 * total <= n < 0,
                    total > 0,
            ;
        }
    }
}

proof fn overlap_is_bounded(a: Seq<u16>, b: Seq<u16>)
    ensures
        overlap(a, b) <= a.len(),
        overlap(a, b) <= b.len(),
{
    broadcast use group_multiset_axioms;
    broadcast use vstd::multiset::lemma_intersection_count;

    let x = a.to_multiset();
    let y = b.to_multiset();
    a.to_multiset_ensures();
    b.to_multiset_ensures();
    let m = x.intersection_with(y);
    assert(m.subset_of(x));
    assert(m.subset_of(y));
    vstd::multiset::axiom_len_add(m, x.sub(m));
    assert(m.add(x.sub(m)) =~= x);
    vstd::multiset::axiom_len_add(m, y.sub(m));
    assert(m.add(y.sub(m)) =~= y);
}

proof fn views_match(fp: &Vec<Vec<u16>>, i: int)
    requires
        0 <= i < fp@.len(),
    ensures
        fp.deep_view()[i] == fp@[i]@,
{
    assert(fp.deep_view()[i] =~= fp@[i]@);
}

fn step_cell(diagonal: Cell, above: Cell, left: Cell, score: i128) -> (v: Cell)
    requires
        -0x1_0000_0000_0000_0000_0000 <= diagonal.paired <= 0x1_0000_0000_0000_0000_0000,
        -0x1_0000_0000_0000_0000_0000 <= diagonal.reference_gap <= 0x1_0000_0000_0000_0000_0000,
        -0x1_0000_0000_0000_0000_0000 <= diagonal.candidate_gap <= 0x1_0000_0000_0000_0000_0000,
        -0x1_0000_0000_0000_0000_0000 <= above.paired,
        -0x1_0000_0000_0000_0000_0000 <= above.reference_gap,
        -0x1_0000_0000_0000_0000_0000 <= left.paired,
        -0x1_0000_0000_0000_0000_0000 <= left.candidate_gap,
        -100 <= score <= 100,
    ensures
        v.value() == cell_from(diagonal.value(), above.value(), left.value(), score as int),
{
    let mut bv: i128 = diagonal.paired;
    let mut bp: u8 = 0;
    if diagonal.reference_gap > bv {
        bv = diagonal.reference_gap;
        bp = 1;
    }
    if diagonal.candidate_gap > bv {
        bv = diagonal.candidate_gap;
        bp = 2;
    }
    let open_x: i128 = above.paired + GAP_OPEN;
    let extend_x: i128 = above.reference_gap + GAP_EXTEND;
    let open_y: i128 = left.paired + GAP_OPEN;
    let extend_y: i128 = left.candidate_gap + GAP_EXTEND;
    Cell {
        paired: score + bv,
        reference_gap: if open_x >= extend_x {
            open_x
        } else {
            extend_x
        },
        candidate_gap: if open_y >= extend_y {
            open_y
        } else {
            extend_y
        },
        before_paired: bp,
        before_reference_gap: if open_x >= extend_x {
            0
        } else {
            1
        },
        before_candidate_gap: if open_y >= extend_y {
            0
        } else {
            2
        },
    }
}

/// A row of cells as far as it is filled.
pub open spec fn row_holds(
    row: Seq<Cell>,
    r: Seq<Seq<u16>>,
    c: Seq<Seq<u16>>,
    i: int,
    n: int,
) -> bool {
    row.len() == n && forall|j: int| 0 <= j < n ==> (#[trigger] row[j]).value() == cell(r, c, i, j)
}

fn border_cell(paired: i128, reference_gap: i128, candidate_gap: i128) -> (v: Cell)
    ensures
        v.value() == border(paired as int, reference_gap as int, candidate_gap as int),
{
    Cell {
        paired,
        reference_gap,
        candidate_gap,
        before_paired: 0,
        before_reference_gap: 0,
        before_candidate_gap: 0,
    }
}

fn first_row(ref_fp: &Vec<Vec<u16>>, cand_fp: &Vec<Vec<u16>>) -> (row: Vec<Cell>)
    ensures
        row_holds(row@, ref_fp.deep_view(), cand_fp.deep_view(), 0, cand_fp@.len() as int + 1),
{
    let mut row: Vec<Cell> = Vec::new();
    row.push(border_cell(0, UNREACHED, UNREACHED));
    let mut j: usize = 0;
    while j < cand_fp.len()
        invariant
            j <= cand_fp@.len(),
            row_holds(row@, ref_fp.deep_view(), cand_fp.deep_view(), 0, j + 1),
        decreases cand_fp@.len() - j,
    {
        row.push(border_cell(UNREACHED, UNREACHED, 0));
        j += 1;
    }
    row
}

fn next_row(
    ref_fp: &Vec<Vec<u16>>,
    cand_fp: &Vec<Vec<u16>>,
    above: &Vec<Cell>,
    i: usize,
) -> (row: Vec<Cell>)
    requires
        all_in_order(ref_fp.deep_view()),
        all_in_order(cand_fp.deep_view()),
        i < ref_fp@.len(),
        row_holds(above@, ref_fp.deep_view(), cand_fp.deep_view(), i as int, cand_fp@.len() as int + 1),
    ensures
        row_holds(row@, ref_fp.deep_view(), cand_fp.deep_view(), i + 1, cand_fp@.len() as int + 1),
{
    let ghost r = ref_fp.deep_view();
    let ghost c = cand_fp.deep_view();
    let mut row: Vec<Cell> = Vec::new();
    row.push(border_cell(UNREACHED, 0, UNREACHED));
    let mut j: usize = 0;
    let rows: usize = ref_fp.len();
    let width: usize = cand_fp.len();
    while j < cand_fp.len()
        invariant
            rows == ref_fp@.len(),
            width == cand_fp@.len(),
            r == ref_fp.deep_view(),
            c == cand_fp.deep_view(),
            all_in_order(r),
            all_in_order(c),
            i < ref_fp@.len(),
            j <= cand_fp@.len(),
            row_holds(above@, r, c, i as int, cand_fp@.len() as int + 1),
            row_holds(row@, r, c, i + 1, j + 1),
        decreases cand_fp@.len() - j,
    {
        proof {
            views_match(ref_fp, i as int);
            views_match(cand_fp, j as int);
            assert(in_order(r[i as int]));
            assert(in_order(c[j as int]));
            cells_are_bounded(r, c, i as int, j as int);
            cells_are_bounded(r, c, i as int, j + 1);
            cells_are_bounded(r, c, i + 1, j as int);
            assert(above@[j as int].value() == cell(r, c, i as int, j as int));
            assert(above@[j + 1].value() == cell(r, c, i as int, j + 1));
            assert(row@[j as int].value() == cell(r, c, i + 1, j as int));
        }
        let score: i128 = score_pair(&ref_fp[i], &cand_fp[j]);
        let v = step_cell(above[j], above[j + 1], row[j], score);
        row.push(v);
        j += 1;
    }
    row
}

fn better_end(e: End, i: usize, j: usize, kind: u8, score: i128) -> (r: End)
    ensures
        r.value() == better(e.value(), i as int, j as int, kind, score as int),
{
    if score > e.score {
        End { i, j, kind, score }
    } else {
        e
    }
}

fn better_of_cell(e: End, i: usize, j: usize, v: Cell) -> (r: End)
    ensures
        r.value() == best_of_cell(e.value(), i as int, j as int, v.value()),
{
    better_end(
        better_end(better_end(e, i, j, 0, v.paired), i, j, 1, v.reference_gap),
        i,
        j,
        2,
        v.candidate_gap,
    )
}

/// All rows of cells.
pub open spec fn rows_hold(
    rows: Seq<Vec<Cell>>,
    r: Seq<Seq<u16>>,
    c: Seq<Seq<u16>>,
    n: int,
) -> bool {
    rows.len() == n && forall|i: int|
        0 <= i < n ==> row_holds((#[trigger] rows[i])@, r, c, i, c.len() as int + 1)
}

fn find_end(rows: &Vec<Vec<Cell>>, ref_fp: &Vec<Vec<u16>>, cand_fp: &Vec<Vec<u16>>) -> (e: End)
    requires
        rows_hold(rows@, ref_fp.deep_view(), cand_fp.deep_view(), ref_fp@.len() as int + 1),
    ensures
        e.value() == best_end(
            ref_fp.deep_view(),
            cand_fp.deep_view(),
            ref_fp@.len() as int + 1,
        ),
{
    let ghost r = ref_fp.deep_view();
    let ghost c = cand_fp.deep_view();
    let m: usize = ref_fp.len();
    let n: usize = cand_fp.len();
    let mut e = End { i: 0, j: 0, kind: 0, score: UNREACHED };
    let mut j: usize = 0;
    let mut more: bool = true;
    while more
        invariant
            r == ref_fp.deep_view(),
            c == cand_fp.deep_view(),
            m == r.len(),
            n == c.len(),
            rows_hold(rows@, r, c, m + 1),
            j <= n,
            more ==> e.value() == best_in_row(r, c, j as int),
            !more ==> e.value() == best_in_row(r, c, n + 1),
        decreases (if more { 1int } else { 0int }), n - j,
    {
        assert(row_holds(rows@[m as int]@, r, c, m as int, n + 1));
        assert(rows@[m as int]@[j as int].value() == cell(r, c, m as int, j as int));
        e = better_of_cell(e, m, j, rows[m][j]);
        if j < n {
            j += 1;
        } else {
            more = false;
        }
    }
    let mut i: usize = 0;
    more = true;
    while more
        invariant
            r == ref_fp.deep_view(),
            c == cand_fp.deep_view(),
            m == r.len(),
            n == c.len(),
            rows_hold(rows@, r, c, m + 1),
            i <= m,
            more ==> e.value() == best_end(r, c, i as int),
            !more ==> e.value() == best_end(r, c, m + 1),
        decreases (if more { 1int } else { 0int }), m - i,
    {
        assert(row_holds(rows@[i as int]@, r, c, i as int, n + 1));
        assert(rows@[i as int]@[n as int].value() == cell(r, c, i as int, n as int));
        e = better_of_cell(e, i, n, rows[i][n]);
        if i < m {
            i += 1;
        } else {
            more = false;
        }
    }
    e
}

/// Gotoh alignment with affine gaps and free end-gaps, over two sequences of ascending slot
/// fingerprints. Free end-gaps let a block of methods prepended or appended in a newer build align at no
/// cost instead of dragging the agreement down; affine gaps coalesce a contiguous inserted or removed
/// block into one penalty. Returns the aligned candidate slot of each reference slot (`None` where a
/// method has no counterpart), which lets the target slot follow methods inserted or removed before it.
pub fn align(ref_fp: &Vec<Vec<u16>>, cand_fp: &Vec<Vec<u16>>) -> (mapping: Vec<Option<usize>>)
    requires
        all_in_order(ref_fp.deep_view()),
        all_in_order(cand_fp.deep_view()),
    ensures
        mapping@ == aligned(ref_fp.deep_view(), cand_fp.deep_view()),
        mapping@.len() == ref_fp@.len(),
        forall|a: int|
            0 <= a < mapping@.len() ==> (#[trigger] mapping@[a] matches Some(x) ==> x
                < cand_fp@.len()),
{
    let ghost r = ref_fp.deep_view();
    let ghost c = cand_fp.deep_view();
    let m: usize = ref_fp.len();
    let n: usize = cand_fp.len();
    proof {
        alignment_keeps_order(r, c);
    }
    let mut mapping: Vec<Option<usize>> = Vec::new();
    let mut k: usize = 0;
    while k < m
        invariant
            k <= m,
            mapping@ == Seq::new(k as nat, |i: int| None::<usize>),
        decreases m - k,
    {
        mapping.push(None);
        k += 1;
        assert(mapping@ =~= Seq::new(k as nat, |i: int| None::<usize>));
    }
    if m == 0 || n == 0 {
        return mapping;
    }
    let mut rows: Vec<Vec<Cell>> = Vec::new();
    rows.push(first_row(ref_fp, cand_fp));
    let mut i: usize = 0;
    while i < m
        invariant
            r == ref_fp.deep_view(),
            c == cand_fp.deep_view(),
            all_in_order(r),
            all_in_order(c),
            m == r.len(),
            n == c.len(),
            i <= m,
            rows_hold(rows@, r, c, i + 1),
        decreases m - i,
    {
        assert(row_holds(rows@[i as int]@, r, c, i as int, n + 1));
        let row = next_row(ref_fp, cand_fp, &rows[i], i);
        rows.push(row);
        i += 1;
    }
    let e = find_end(&rows, ref_fp, cand_fp);
    proof {
        end_is_inside(r, c, r.len() as int + 1);
    }
    let mut i: usize = e.i;
    let mut j: usize = e.j;
    let mut kind: u8 = e.kind;
    let ghost all = aligned(r, c);
    while i > 0 && j > 0
        invariant
            r == ref_fp.deep_view(),
            c == cand_fp.deep_view(),
            m == r.len(),
            n == c.len(),
            rows_hold(rows@, r, c, m + 1),
            i <= m,
            j <= n,
            mapping@.len() == m,
            all == traced(r, c, i as int, j as int, kind, mapping@),
        decreases i + j,
    {
        assert(row_holds(rows@[i as int]@, r, c, i as int, n + 1));
        assert(rows@[i as int]@[j as int].value() == cell(r, c, i as int, j as int));
        let v = rows[i][j];
        if kind == 0 {
            mapping.set(i - 1, Some(j - 1));
            kind = v.before_paired;
            i -= 1;
            j -= 1;
        } else if kind == 1 {
            kind = v.before_reference_gap;
            i -= 1;
        } else {
            kind = v.before_candidate_gap;
            j -= 1;
        }
    }
    mapping
}

/// How many tables share the method of slot `i`; a slot without a count is its class's own. The weight of
/// the slot is one over this: the fewer, the more telling.
pub open spec fn sharing(shares: Seq<u32>, i: int) -> int {
    if i < shares.len() && shares[i] != 0 {
        shares[i] as int
    } else {
        1
    }
}

/// What a slot adds to the agreement: its weight times the Dice ratio with its counterpart.
pub open spec fn slot_part(
    r: Seq<Seq<u16>>,
    c: Seq<Seq<u16>>,
    mapping: Seq<Option<usize>>,
    shares: Seq<u32>,
    i: int,
) -> PartV {
    match mapping[i] {
        Some(j) => if r[i].len() > 0 && c[j as int].len() > 0 {
            PartV {
                weight: 1,
                num: (2 * overlap(r[i], c[j as int])) as int,
                den: (r[i].len() + c[j as int].len()) * sharing(shares, i),
            }
        } else {
            PartV { weight: 1, num: 0, den: sharing(shares, i) }
        },
        None => PartV { weight: 1, num: 0, den: sharing(shares, i) },
    }
}

/// What the slots add to the agreement.
pub open spec fn slot_parts(
    r: Seq<Seq<u16>>,
    c: Seq<Seq<u16>>,
    mapping: Seq<Option<usize>>,
    shares: Seq<u32>,
) -> Seq<PartV> {
    Seq::new(mapping.len(), |i: int| slot_part(r, c, mapping, shares, i))
}

/// The weights of the first `n` slots.
pub open spec fn slot_weights(shares: Seq<u32>, n: nat) -> Seq<PartV> {
    Seq::new(n, |i: int| PartV { weight: 1, num: 1, den: sharing(shares, i) })
}

/// The weighted mean agreement over an alignment.
pub open spec fn weighted_mean(
    r: Seq<Seq<u16>>,
    c: Seq<Seq<u16>>,
    mapping: Seq<Option<usize>>,
    shares: Seq<u32>,
) -> int {
    if mapping.len() == 0 {
        0
    } else {
        blends::compared(slot_parts(r, c, mapping, shares), slot_weights(shares, mapping.len()))
    }
}

/// Each part is at most the weight of its slot.
pub open spec fn within(a: Seq<PartV>, b: Seq<PartV>) -> bool {
    &&& a.len() == b.len()
    &&& blends::all_fair(a)
    &&& blends::all_fair(b)
    &&& forall|i: int|
        0 <= i < a.len() ==> (#[trigger] a[i]).weight == 1 && b[i].weight == 1 && b[i].num == 1
            && a[i].num * b[i].den <= a[i].den
}

proof fn agreement_is_bounded(a: Seq<PartV>, b: Seq<PartV>)
    requires
        within(a, b),
    ensures
        0 <= blends::numerator(a),
        blends::denominator(a) > 0,
        blends::denominator(b) > 0,
        0 <= blends::numerator(b),
        a.len() > 0 ==> blends::numerator(b) > 0,
        blends::numerator(a) * blends::denominator(b) <= blends::numerator(b) * blends::denominator(
            a,
        ),
    decreases a.len(),
{
    if a.len() > 0 {
        let x = a.drop_last();
        let y = b.drop_last();
        assert forall|i: int| 0 <= i < x.len() implies blends::fair(#[trigger] x[i]) by {
            assert(x[i] == a[i]);
        }
        assert forall|i: int| 0 <= i < y.len() implies blends::fair(#[trigger] y[i]) by {
            assert(y[i] == b[i]);
        }
        assert forall|i: int| 0 <= i < x.len() implies (#[trigger] x[i]).weight == 1 && y[i].weight
            == 1 && y[i].num == 1 && x[i].num * y[i].den <= x[i].den by {
            assert(x[i] == a[i] && y[i] == b[i]);
        }
        agreement_is_bounded(x, y);
        let p = a.last();
        let q = b.last();
        assert(a[a.len() - 1] == p && b[b.len() - 1] == q);
        assert(blends::fair(a[a.len() - 1]) && blends::fair(b[b.len() - 1]));
        let na = blends::numerator(x);
        let da = blends::denominator(x);
        let nb = blends::numerator(y);
        let db = blends::denominator(y);
        cross_step(na, da, nb, db, p.num, p.den, q.den);
    }
}

proof fn regroup(a: int, b: int, c: int, d: int)
    ensures
        (a * b) * (c * d) == (a * c) * (b * d),
{
    mul::lemma_mul_is_associative(a, b, c * d);
    mul::lemma_mul_is_associative(b, c, d);
    mul::lemma_mul_is_commutative(b, c);
    mul::lemma_mul_is_associative(c, b, d);
    mul::lemma_mul_is_associative(a, c, b * d);
}

proof fn cross_step(na: int, da: int, nb: int, db: int, n: int, d: int, s: int)
    requires
        0 <= na,
        0 < da,
        0 <= nb,
        0 < db,
        0 <= n,
        0 < d,
        0 < s,
        na * db <= nb * da,
        n * s <= d,
    ensures
        0 <= na * d + 1 * n * da,
        0 < da * d,
        0 < nb * s + 1 * 1 * db,
        0 < db * s,
        (na * d + 1 * n * da) * (db * s) <= (nb * s + 1 * 1 * db) * (da * d),
{
    assert(0 <= na * d && 0 <= n * da && 0 < da * d && 0 <= nb * s && 0 < db * s) by (nonlinear_arith)
        requires
            0 <= na,
            0 < da,
            0 <= nb,
            0 < db,
            0 <= n,
            0 < d,
            0 < s,
    ;
    let t = db * s;
    let u = da * d;
    mul::lemma_mul_is_distributive_add_other_way(t, na * d, n * da);
    mul::lemma_mul_is_distributive_add_other_way(u, nb * s, db);
    regroup(na, d, db, s);
    regroup(n, da, s, db);
    regroup(nb, s, da, d);
    mul::lemma_mul_is_commutative(db, s);
    mul::lemma_mul_is_commutative(s, d);
    mul::lemma_mul_is_associative(db, da, d);
    mul::lemma_mul_is_commutative(db, da);
    mul::lemma_mul_is_commutative(da * db, d);
    assert(1 * 1 * db == db && 1 * n * da == n * da) by (nonlinear_arith);
    assert((na * d + n * da) * t == (na * db) * (d * s) + (n * s) * (da * db));
    assert((nb * s + db) * u == (nb * da) * (s * d) + d * (da * db));
    assert(d * s > 0 && da * db > 0) by (nonlinear_arith)
        requires
            d > 0,
            s > 0,
            da > 0,
            db > 0,
    ;
    let ds = d * s;
    let dd = da * db;
    let x = na * db;
    let y = nb * da;
    let z = n * s;
    assert(x * ds <= y * ds) by (nonlinear_arith)
        requires
            x <= y,
            ds > 0,
    ;
    assert(z * dd <= d * dd) by (nonlinear_arith)
        requires
            z <= d,
            dd > 0,
    ;
}

/// Distinctiveness-weighted mean agreement of a reference table with a candidate over an alignment, in
/// trillionths. A reference slot with a counterpart contributes its weight times the agreement; a gapped
/// slot contributes nothing but still counts in the denominator, so that a missing class-specific method
/// sharply lowers the score while a missing shared base method barely moves it.
pub fn weighted_agreement(
    ref_fp: &Vec<Vec<u16>>,
    cand_fp: &Vec<Vec<u16>>,
    mapping: &Vec<Option<usize>>,
    shares: &Vec<u32>,
) -> (r: u64)
    requires
        all_in_order(ref_fp.deep_view()),
        all_in_order(cand_fp.deep_view()),
        mapping@.len() <= ref_fp@.len(),
        forall|a: int|
            0 <= a < mapping@.len() ==> (#[trigger] mapping@[a] matches Some(x) ==> x
                < cand_fp@.len()),
    ensures
        r == weighted_mean(ref_fp.deep_view(), cand_fp.deep_view(), mapping@, shares@),
        r <= SIM_ONE,
{
    let ghost rv = ref_fp.deep_view();
    let ghost cv = cand_fp.deep_view();
    let ghost all = slot_parts(rv, cv, mapping@, shares@);
    let ghost weighed = slot_weights(shares@, mapping@.len());
    let mut parts: Vec<Part> = Vec::new();
    let mut weights: Vec<Part> = Vec::new();
    let mut i: usize = 0;
    while i < mapping.len()
        invariant
            rv == ref_fp.deep_view(),
            cv == cand_fp.deep_view(),
            all == slot_parts(rv, cv, mapping@, shares@),
            weighed == slot_weights(shares@, mapping@.len()),
            all_in_order(rv),
            all_in_order(cv),
            mapping@.len() <= ref_fp@.len(),
            forall|a: int|
                0 <= a < mapping@.len() ==> (#[trigger] mapping@[a] matches Some(x) ==> x
                    < cand_fp@.len()),
            i <= mapping@.len(),
            parts.deep_view() == all.take(i as int),
            weights.deep_view() == weighed.take(i as int),
            within(parts.deep_view(), weights.deep_view()),
        decreases mapping@.len() - i,
    {
        let ghost before = parts.deep_view();
        let ghost earlier = weights.deep_view();
        let s: u32 = if i < shares.len() && shares[i] != 0 {
            shares[i]
        } else {
            1
        };
        let part: Part = match mapping[i] {
            Some(j) => {
                proof {
                    assert(mapping@[i as int] is Some);
                    views_match(ref_fp, i as int);
                    views_match(cand_fp, j as int);
                    assert(in_order(rv[i as int]));
                    assert(in_order(cv[j as int]));
                }
                share_slot(ref_fp[i].as_slice(), cand_fp[j].as_slice(), s)
            },
            None => Part { weight: 1, num: 0, den: s as u128 },
        };
        let weight = Part { weight: 1, num: 1, den: s as u128 };
        let ghost pv = part.deep_view();
        let ghost wv = weight.deep_view();
        assert(pv.num * wv.den <= pv.den) by {
            if pv.num == 0 {
                assert(0 * wv.den == 0) by (nonlinear_arith);
            }
            assert(pv.num == part.num && pv.den == part.den && wv.den == s);
        }
        parts.push(part);
        weights.push(weight);
        i += 1;
        proof {
            assert(parts.deep_view() =~= before.push(pv));
            assert(weights.deep_view() =~= earlier.push(wv));
            assert(pv == all[i - 1]);
            assert(wv == weighed[i - 1]);
            assert(parts.deep_view() =~= all.take(i as int));
            assert(weights.deep_view() =~= weighed.take(i as int));
            let x = parts.deep_view();
            let y = weights.deep_view();
            assert forall|k: int| 0 <= k < x.len() implies blends::fair(#[trigger] x[k]) by {
                if k < before.len() {
                    assert(x[k] == before[k]);
                }
            }
            assert forall|k: int| 0 <= k < y.len() implies blends::fair(#[trigger] y[k]) by {
                if k < earlier.len() {
                    assert(y[k] == earlier[k]);
                }
            }
            assert forall|k: int| 0 <= k < x.len() implies (#[trigger] x[k]).weight == 1
                && y[k].weight == 1 && y[k].num == 1 && x[k].num * y[k].den <= x[k].den by {
                if k < before.len() {
                    assert(x[k] == before[k] && y[k] == earlier[k]);
                } else {
                    assert(x[k] == pv && y[k] == wv);
                }
            }
        }
    }
    assert(all.take(i as int) =~= all);
    assert(weighed.take(i as int) =~= weighed);
    if mapping.len() == 0 {
        return 0;
    }
    proof {
        agreement_is_bounded(all, weighed);
    }
    compare(&parts, &weights)
}

fn share_slot(a: &[u16], b: &[u16], s: u32) -> (p: Part)
    requires
        in_order(a@),
        in_order(b@),
        s > 0,
    ensures
        p.deep_view() == (if a@.len() > 0 && b@.len() > 0 {
            PartV {
                weight: 1,
                num: (2 * overlap(a@, b@)) as int,
                den: (a@.len() + b@.len()) * s,
            }
        } else {
            PartV { weight: 1, num: 0, den: s as int }
        }),
        blends::fair(p.deep_view()),
        p.num * s <= p.den,
{
    if a.len() == 0 || b.len() == 0 {
        return Part { weight: 1, num: 0, den: s as u128 };
    }
    let inter: usize = count_overlap(a, b);
    let total: u128 = a.len() as u128 + b.len() as u128;
    assert(total * s <= 0x2_0000_0000_0000_0000 * 0x1_0000_0000) by (nonlinear_arith)
        requires
            0 <= total <= 0x2_0000_0000_0000_0000,
            0 <= s <= 0x1_0000_0000,
    ;
    assert(2 * inter * s <= total * s && total <= total * s && 2 * inter <= total * s)
        by (nonlinear_arith)
        requires
            2 * inter <= total,
            0 <= total,
            0 <= inter,
            s >= 1,
    ;
    Part { weight: 1, num: 2 * (inter as u128), den: total * s as u128 }
}

}
