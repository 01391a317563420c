//! Version ranges of per-build signatures: once a relocation has minted a signature at the function's
//! address in each build, collapse those into the contiguous runs each signature covers, verifying that
//! every extension matches uniquely at the relocated address so that a coincidental hit elsewhere cannot
//! bridge a run.

use crate::pattern;
use crate::pattern::try_signature_from_aob;
use crate::scanner::CompiledPattern;
use crate::sigmaker::cache;
use crate::sigmaker::cache::CodeCache;
use crate::sigmaker::ensemble;
use crate::sigmaker::ensemble::find_label;
use crate::sigmaker::scoring::say;
use crate::sigmaker::types::{AobRange, AobRangeV, ImageInput, PerVersion, PerVersionV};
use vstd::prelude::*;

verus! {

/// Whether the signature occurs once in the image, at `rva`.
pub open spec fn only_at(img: &ImageInput, aob: Seq<char>, rva: u64) -> bool {
    match pattern::parsed(aob) {
        None => false,
        Some(tokens) => cache::located(img, pattern::bytes_of(tokens), pattern::mask_of(tokens)) == (
            1usize,
            Some(rva),
        ),
    }
}

/// Whether `aob` matches build `img` exactly once and that one match is at `rva`. A pattern that happens
/// to be unique elsewhere is a different function that coincidentally shares the bytes.
pub fn aob_unique_at(img: &ImageInput, aob: &str, rva: u64) -> (r: bool)
    requires
        img.wf(),
    ensures
        r == only_at(img, aob@, rva),
{
    let sig = match try_signature_from_aob(aob) {
        Ok(sig) => sig,
        Err(_) => {
            return false;
        },
    };
    let pat = match CompiledPattern::new(&sig) {
        Some(pat) => pat,
        None => {
            return false;
        },
    };
    let code = CodeCache::build(img);
    let (count, first) = code.locate(&pat);
    count == 1 && first.is_some() && first.unwrap() == rva
}

/// A run that is still open: its signature, the build it was minted in, and the builds it covers.
#[verifier::ext_equal]
pub struct RunV {
    pub aob: Seq<char>,
    pub minted_in: Seq<char>,
    pub labels: Seq<Seq<char>>,
}

/// The ranges with the open run closed.
pub open spec fn closed(ranges: Seq<AobRangeV>, run: Option<RunV>) -> Seq<AobRangeV> {
    match run {
        None => ranges,
        Some(r) => ranges.push(
            AobRangeV {
                aob: r.aob,
                minted_in: r.minted_in,
                first_label: r.labels[0],
                last_label: r.labels.last(),
                labels: r.labels,
            },
        ),
    }
}

/// The closed ranges and the open run after the first `n` builds: the run's signature is carried forward
/// as long as it still matches the next build at that build's relocated address.
pub open spec fn runs(images: Seq<&ImageInput>, pvs: Seq<PerVersionV>, n: int) -> (
    Seq<AobRangeV>,
    Option<RunV>,
)
    decreases n,
{
    if n <= 0 {
        (Seq::empty(), None)
    } else {
        let (ranges, run) = runs(images, pvs, n - 1);
        let pv = pvs[n - 1];
        match (pv.resolved_target_rva, pv.aob, ensemble::labelled(images, pv.label, 0)) {
            (Some(rva), Some(aob), Some(i)) => match run {
                Some(r) => if only_at(images[i], r.aob, rva) {
                    (ranges, Some(RunV { labels: r.labels.push(pv.label), ..r }))
                } else {
                    (
                        closed(ranges, run),
                        Some(RunV { aob, minted_in: pv.label, labels: seq![pv.label] }),
                    )
                },
                None => (
                    ranges,
                    Some(RunV { aob, minted_in: pv.label, labels: seq![pv.label] }),
                ),
            },
            _ => (closed(ranges, run), None),
        }
    }
}

/// The version ranges of per-build signatures.
pub open spec fn ranges_of(images: Seq<&ImageInput>, pvs: Seq<PerVersionV>) -> Seq<AobRangeV> {
    let (ranges, run) = runs(images, pvs, pvs.len() as int);
    closed(ranges, run)
}

struct Run {
    aob: String,
    minted_in: String,
    labels: Vec<String>,
}

impl DeepView for Run {
    type V = RunV;

    closed spec fn deep_view(&self) -> RunV {
        RunV { aob: self.aob@, minted_in: self.minted_in@, labels: self.labels.deep_view() }
    }
}

fn close(ranges: &mut Vec<AobRange>, run: Option<Run>)
    requires
        run matches Some(r) ==> r.labels@.len() > 0,
    ensures
        final(ranges).deep_view() == closed(old(ranges).deep_view(), run.deep_view()),
{
    if let Some(r) = run {
        let ghost before = ranges.deep_view();
        let ghost rv = r.deep_view();
        let first = r.labels[0].clone();
        let last = r.labels[r.labels.len() - 1].clone();
        let range = AobRange {
            aob: r.aob,
            minted_in: r.minted_in,
            first_label: first,
            last_label: last,
            labels: r.labels,
        };
        let ghost view = range.deep_view();
        ranges.push(range);
        proof {
            assert(rv.labels[0] == first@);
            assert(rv.labels.last() == last@);
            assert(ranges.deep_view() =~= before.push(view));
        }
    }
}

fn open_run(aob: &String, label: &String) -> (r: Run)
    ensures
        r.deep_view() == (RunV { aob: aob@, minted_in: label@, labels: seq![label@] }),
        r.labels@.len() == 1,
{
    let mut labels: Vec<String> = Vec::new();
    assert(labels.deep_view() =~= Seq::<Seq<char>>::empty());
    say(&mut labels, label.clone());
    assert(labels.deep_view() =~= seq![label@]);
    assert(labels.deep_view().len() == labels@.len());
    Run { aob: aob.clone(), minted_in: label.clone(), labels }
}

/// Collapse a relocation's per-build signatures into contiguous version ranges. Walking builds in order,
/// the current range's signature is carried forward as long as it still matches the next build at that
/// build's relocated address; when it stops (a recompile moved the bytes) or a build was not reached, the
/// run closes and the next reached build's freshly minted signature starts a new run.
pub fn collapse_aob_ranges(images: &[&ImageInput], per_version: &Vec<PerVersion>) -> (ranges: Vec<
    AobRange,
>)
    requires
        forall|i: int| 0 <= i < images@.len() ==> (#[trigger] images@[i]).wf(),
    ensures
        ranges.deep_view() == ranges_of(images@, per_version.deep_view()),
{
    let ghost pvs = per_version.deep_view();
    let mut ranges: Vec<AobRange> = Vec::new();
    let mut run: Option<Run> = None;
    let mut n: usize = 0;
    assert(ranges.deep_view() =~= Seq::<AobRangeV>::empty());
    while n < per_version.len()
        invariant
            forall|i: int| 0 <= i < images@.len() ==> (#[trigger] images@[i]).wf(),
            pvs == per_version.deep_view(),
            n <= per_version@.len(),
            run matches Some(r) ==> r.labels@.len() > 0,
            (ranges.deep_view(), run.deep_view()) == runs(images@, pvs, n as int),
        decreases per_version@.len() - n,
    {
        let pv = &per_version[n];
        assert(pvs[n as int] == pv.deep_view());
        let ghost before = (ranges.deep_view(), run.deep_view());
        let mut next: Option<Run> = None;
        match (&pv.resolved_target_rva, &pv.aob, find_label(images, pv.label.as_str())) {
            (Some(rva), Some(aob), Some(i)) => {
                assert(images@[i as int].wf());
                match run {
                    Some(r) => {
                        if aob_unique_at(images[i], r.aob.as_str(), *rva) {
                            let Run { aob: kept, minted_in, labels } = r;
                            let mut labels = labels;
                            say(&mut labels, pv.label.clone());
                            assert(labels.deep_view().len() == labels@.len());
                            let longer = Run { aob: kept, minted_in, labels };
                            assert(longer.deep_view() =~= (RunV {
                                labels: before.1->0.labels.push(pv.label@),
                                ..before.1->0
                            }));
                            next = Some(longer);
                        } else {
                            close(&mut ranges, Some(r));
                            next = Some(open_run(aob, &pv.label));
                        }
                    },
                    None => {
                        next = Some(open_run(aob, &pv.label));
                    },
                }
            },
            _ => {
                close(&mut ranges, run);
            },
        }
        run = next;
        n += 1;
    }
    close(&mut ranges, run);
    ranges
}

/// The builds that the ranges cover, one range after the other.
pub open spec fn covered(ranges: Seq<AobRangeV>) -> Seq<Seq<char>>
    decreases ranges.len(),
{
    if ranges.len() == 0 {
        Seq::empty()
    } else {
        covered(ranges.drop_last()) + ranges.last().labels
    }
}

/// The builds among the first `n` that were reached with a signature of their own.
pub open spec fn reached(images: Seq<&ImageInput>, pvs: Seq<PerVersionV>, n: int) -> Seq<Seq<char>>
    decreases n,
{
    if n <= 0 {
        Seq::empty()
    } else {
        let before = reached(images, pvs, n - 1);
        let pv = pvs[n - 1];
        if pv.resolved_target_rva is Some && pv.aob is Some && ensemble::labelled(
            images,
            pv.label,
            0,
        ) is Some {
            before.push(pv.label)
        } else {
            before
        }
    }
}

/// The ranges cover every reached build, once and in order.
pub proof fn ranges_cover_each_reached_build(images: Seq<&ImageInput>, pvs: Seq<PerVersionV>, n: int)
    ensures
        ({
            let (ranges, run) = runs(images, pvs, n);
            covered(closed(ranges, run)) == reached(images, pvs, n)
        }),
    decreases n,
{
    if n > 0 {
        ranges_cover_each_reached_build(images, pvs, n - 1);
        let (ranges, run) = runs(images, pvs, n - 1);
        let (now, open) = runs(images, pvs, n);
        let label = pvs[n - 1].label;
        let earlier = closed(ranges, run);
        if run is Some {
            assert(earlier.drop_last() =~= ranges);
        }
        if open is Some {
            assert(closed(now, open).drop_last() =~= now);
            assert(covered(closed(now, open)) =~= reached(images, pvs, n));
        }
    } else {
        assert(covered(Seq::<AobRangeV>::empty()) =~= Seq::<Seq<char>>::empty());
    }
}

}
