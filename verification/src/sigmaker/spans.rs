//! How far the signature of one build reaches through the builds behind it.

use crate::pattern;
use crate::sigmaker::aob;
use crate::sigmaker::aob::RunV;
use crate::sigmaker::cuts::sits_at;
use crate::sigmaker::ensemble;
use crate::sigmaker::places::{located_counts_places, located_once_is_one_place};
use crate::sigmaker::types::{AobRangeV, ImageInput, PerVersionV};
use vstd::prelude::*;

verus! {

/// Build number `i` is the first with this label.
pub open spec fn first_labelled(images: Seq<&ImageInput>, label: Seq<char>, i: int) -> bool {
    &&& 0 <= i < images.len()
    &&& images[i].label@ == label
    &&& forall|j: int| 0 <= j < i ==> (#[trigger] images[j]).label@ != label
}

proof fn labelled_is_first(images: Seq<&ImageInput>, label: Seq<char>, n: int)
    requires
        0 <= n <= images.len(),
        forall|j: int| 0 <= j < n ==> (#[trigger] images[j]).label@ != label,
    ensures
        match ensemble::labelled(images, label, n) {
            Some(i) => first_labelled(images, label, i),
            None => forall|j: int| !#[trigger] first_labelled(images, label, j),
        },
    decreases images.len() - n,
{
    if n < images.len() && images[n].label@ != label {
        labelled_is_first(images, label, n + 1);
    }
}

/// A text is a pattern whose one place in the build is this address.
pub open spec fn lands_at(img: &ImageInput, text: Seq<char>, rva: u64) -> bool {
    pattern::parsed(text) matches Some(tokens) && sits_at(img, tokens, rva)
}

proof fn only_lands(img: &ImageInput, text: Seq<char>, rva: u64)
    ensures
        aob::only_at(img, text, rva) <==> lands_at(img, text, rva),
{
    if let Some(tokens) = pattern::parsed(text) {
        located_once_is_one_place(img, tokens);
        located_counts_places(img, tokens);
    }
}

/// The build of row `n` was reached: the target has an address and a signature of its own there.
pub open spec fn row_reached(images: Seq<&ImageInput>, pvs: Seq<PerVersionV>, n: int) -> bool {
    &&& pvs[n].resolved_target_rva is Some
    &&& pvs[n].aob is Some
    &&& exists|i: int| #[trigger] first_labelled(images, pvs[n].label, i)
}

/// The signature lands on the target of row `n`.
pub open spec fn carries_to(
    images: Seq<&ImageInput>,
    pvs: Seq<PerVersionV>,
    text: Seq<char>,
    n: int,
) -> bool {
    exists|i: int| #[trigger]
        first_labelled(images, pvs[n].label, i) && lands_at(
            images[i],
            text,
            pvs[n].resolved_target_rva->0,
        )
}

/// The rows from `lo` to `hi` share a signature: that of the first of them, which lands on the target of
/// each of the others.
pub open spec fn one_signature(
    images: Seq<&ImageInput>,
    pvs: Seq<PerVersionV>,
    text: Seq<char>,
    minted_in: Seq<char>,
    labels: Seq<Seq<char>>,
    lo: int,
    hi: int,
) -> bool {
    &&& 0 <= lo < hi <= pvs.len()
    &&& pvs[lo].aob == Some(text)
    &&& minted_in == pvs[lo].label
    &&& labels.len() == hi - lo
    &&& forall|k: int| 0 <= k < labels.len() ==> #[trigger] labels[k] == pvs[lo + k].label
    &&& forall|n: int| lo <= n < hi ==> #[trigger] row_reached(images, pvs, n)
    &&& forall|n: int| lo < n < hi ==> #[trigger] carries_to(images, pvs, text, n)
}

/// Range `g` is that of the rows from `lo` to `hi`, and goes no further: the next row was not reached, or
/// the signature does not land on its target.
pub open spec fn range_is(
    images: Seq<&ImageInput>,
    pvs: Seq<PerVersionV>,
    g: AobRangeV,
    lo: int,
    hi: int,
) -> bool {
    &&& one_signature(images, pvs, g.aob, g.minted_in, g.labels, lo, hi)
    &&& g.first_label == pvs[lo].label
    &&& g.last_label == pvs[hi - 1].label
    &&& hi < pvs.len() ==> !row_reached(images, pvs, hi) || !carries_to(images, pvs, g.aob, hi)
}

spec fn run_is(images: Seq<&ImageInput>, pvs: Seq<PerVersionV>, r: RunV, lo: int, n: int) -> bool {
    one_signature(images, pvs, r.aob, r.minted_in, r.labels, lo, n)
}

spec fn ranges_are(
    images: Seq<&ImageInput>,
    pvs: Seq<PerVersionV>,
    ranges: Seq<AobRangeV>,
    at: Seq<(int, int)>,
    n: int,
) -> bool {
    &&& at.len() == ranges.len()
    &&& forall|k: int|
        0 <= k < at.len() ==> range_is(
            images,
            pvs,
            #[trigger] ranges[k],
            at[k].0,
            at[k].1,
        )
    &&& forall|k: int| 0 <= k < at.len() ==> (#[trigger] at[k]).1 <= n
    &&& forall|j: int, k: int| 0 <= j < k < at.len() ==> (#[trigger] at[j]).1 <= (#[trigger] at[k]).0
}

proof fn range_closes(
    images: Seq<&ImageInput>,
    pvs: Seq<PerVersionV>,
    ranges: Seq<AobRangeV>,
    run: Option<RunV>,
    at: Seq<(int, int)>,
    lo: int,
    n: int,
) -> (more: Seq<(int, int)>)
    requires
        ranges_are(images, pvs, ranges, at, n),
        run matches Some(r) ==> run_is(images, pvs, r, lo, n),
        run is Some ==> forall|k: int| 0 <= k < at.len() ==> (#[trigger] at[k]).1 <= lo,
        run matches Some(r) ==> (n < pvs.len() ==> !row_reached(images, pvs, n) || !carries_to(
            images,
            pvs,
            r.aob,
            n,
        )),
    ensures
        ranges_are(images, pvs, aob::closed(ranges, run), more, n),
{
    match run {
        None => at,
        Some(r) => {
            let more = at.push((lo, n));
            let all = aob::closed(ranges, run);
            assert forall|k: int| 0 <= k < more.len() implies range_is(
                images,
                pvs,
                #[trigger] all[k],
                more[k].0,
                more[k].1,
            ) by {
                if k < at.len() {
                    assert(all[k] == ranges[k]);
                } else {
                    assert(r.labels[0] == pvs[lo + 0].label);
                    assert(r.labels[r.labels.len() - 1] == pvs[lo + (r.labels.len() - 1)].label);
                }
            }
            more
        },
    }
}

proof fn runs_are(images: Seq<&ImageInput>, pvs: Seq<PerVersionV>, n: int) -> (r: (
    Seq<(int, int)>,
    int,
))
    requires
        0 <= n <= pvs.len(),
    ensures
        ({
            let (ranges, run) = aob::runs(images, pvs, n);
            &&& ranges_are(images, pvs, ranges, r.0, n)
            &&& run matches Some(x) ==> run_is(images, pvs, x, r.1, n)
            &&& run is Some ==> forall|k: int| 0 <= k < r.0.len() ==> (#[trigger] r.0[k]).1 <= r.1
        }),
    decreases n,
{
    if n <= 0 {
        (Seq::empty(), 0)
    } else {
        let (at, lo) = runs_are(images, pvs, n - 1);
        let (ranges, run) = aob::runs(images, pvs, n - 1);
        let (now, open) = aob::runs(images, pvs, n);
        let pv = pvs[n - 1];
        labelled_is_first(images, pv.label, 0);
        match (pv.resolved_target_rva, pv.aob, ensemble::labelled(images, pv.label, 0)) {
            (Some(rva), Some(text), Some(i)) => {
                assert(first_labelled(images, pv.label, i));
                assert(row_reached(images, pvs, n - 1));
                assert forall|j: int| #[trigger] first_labelled(images, pv.label, j) implies j == i by {
                    if j < i {
                        assert(images[j].label@ != pv.label);
                    }
                    if i < j {
                        assert(images[i].label@ != pv.label);
                    }
                }
                match run {
                    Some(x) => {
                        only_lands(images[i], x.aob, rva);
                        if aob::only_at(images[i], x.aob, rva) {
                            let grown = open->0;
                            assert(carries_to(images, pvs, x.aob, n - 1));
                            assert forall|k: int| 0 <= k < grown.labels.len() implies
                                #[trigger] grown.labels[k] == pvs[lo + k].label by {
                                if k < x.labels.len() {
                                    assert(grown.labels[k] == x.labels[k]);
                                }
                            }
                            assert(run_is(images, pvs, grown, lo, n));
                            (at, lo)
                        } else {
                            assert(!carries_to(images, pvs, x.aob, n - 1));
                            let more = range_closes(images, pvs, ranges, run, at, lo, n - 1);
                            assert(run_is(images, pvs, open->0, n - 1, n));
                            (more, n - 1)
                        }
                    },
                    None => {
                        assert(run_is(images, pvs, open->0, n - 1, n));
                        (at, n - 1)
                    },
                }
            },
            _ => {
                assert(!row_reached(images, pvs, n - 1));
                let more = range_closes(images, pvs, ranges, run, at, lo, n - 1);
                (more, 0)
            },
        }
    }
}

/// Each range is a run of consecutive builds that were reached: its signature was made in the first of
/// them and has its one place in each of the others at the target there; and it goes on as far as that
/// holds. The ranges follow one another.
pub proof fn ranges_go_as_far_as_they_land(images: Seq<&ImageInput>, pvs: Seq<PerVersionV>) -> (at: Seq<
    (int, int),
>)
    ensures
        ({
            let ranges = aob::ranges_of(images, pvs);
            &&& at.len() == ranges.len()
            &&& forall|k: int|
                0 <= k < at.len() ==> range_is(
                    images,
                    pvs,
                    #[trigger] ranges[k],
                    at[k].0,
                    at[k].1,
                )
            &&& forall|j: int, k: int|
                0 <= j < k < at.len() ==> (#[trigger] at[j]).1 <= (#[trigger] at[k]).0
        }),
{
    let n = pvs.len() as int;
    let (at, lo) = runs_are(images, pvs, n);
    let (ranges, run) = aob::runs(images, pvs, n);
    range_closes(images, pvs, ranges, run, at, lo, n)
}

}
