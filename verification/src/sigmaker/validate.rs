//! Validation of a minted signature: that it is not only unique among the supplied builds but trustworthy
//! as an identity. The negative corpus catches a pattern that collides inside an unrelated module, and
//! leave-one-out hold-out catches a signature overfit to the builds it was trained on.

use crate::pattern;
use crate::pattern::try_signature_from_aob;
use crate::scanner::CompiledPattern;
use crate::sigmaker::cache;
use crate::sigmaker::cache::CodeCache;
use crate::sigmaker::generate;
use crate::sigmaker::generate::{generate_on, SigStage};
use crate::sigmaker::types::{HoldoutResult, HoldoutResultV, ImageInput, NegativeHit, NegativeHitV};
use crate::sigmaker::types::{SigOptions, TargetSpec, TargetSpecV};
use vstd::prelude::*;
use vstd::string::*;

verus! {

/// How often the text's pattern occurs in the code of an image; never where the text is no pattern.
pub open spec fn occurrences(img: &ImageInput, aob: Seq<char>) -> usize {
    match pattern::parsed(aob) {
        Some(tokens) => cache::located(
            img,
            pattern::bytes_of(tokens),
            pattern::mask_of(tokens),
        ).0,
        None => 0,
    }
}

fn compile(aob: &str) -> (r: Option<CompiledPattern>)
    ensures
        match r {
            Some(p) => p.wf() && pattern::parsed(aob@) is Some && p.bytes@ == pattern::bytes_of(
                pattern::parsed(aob@)->0,
            ) && p.mask@ == pattern::mask_of(pattern::parsed(aob@)->0),
            None => pattern::parsed(aob@) is None,
        },
{
    match try_signature_from_aob(aob) {
        Ok(sig) => CompiledPattern::new(&sig),
        Err(_) => None,
    }
}

fn count_in(img: &ImageInput, pat: &CompiledPattern) -> (n: usize)
    requires
        img.wf(),
        pat.wf(),
    ensures
        n == cache::located(img, pat.bytes@, pat.mask@).0,
{
    let code = CodeCache::build(img);
    let (count, _) = code.locate(pat);
    count
}

/// The modules among the first `n` that hold the pattern.
pub open spec fn hits_in(negatives: Seq<ImageInput>, aob: Seq<char>, n: int) -> Seq<NegativeHitV>
    decreases n,
{
    if n <= 0 {
        Seq::empty()
    } else {
        let before = hits_in(negatives, aob, n - 1);
        let img = &negatives[n - 1];
        if occurrences(img, aob) > 0 {
            before.push(NegativeHitV { label: img.label@, count: occurrences(img, aob) })
        } else {
            before
        }
    }
}

/// A text that is no pattern is found in no module.
proof fn no_pattern_no_hits(negatives: Seq<ImageInput>, aob: Seq<char>, n: int)
    requires
        pattern::parsed(aob) is None,
    ensures
        hits_in(negatives, aob, n) == Seq::<NegativeHitV>::empty(),
    decreases n,
{
    if n > 0 {
        no_pattern_no_hits(negatives, aob, n - 1);
    }
}

/// Scan a corpus of unrelated modules for `aob` and report any that contain it, with the match count.
/// Generation only proves a signature unique among the supplied builds, so a short or low-entropy pattern
/// can still collide inside some other module; a hit here means that the signature is not specific enough
/// to trust as an identity.
pub fn negative_corpus_hits(aob: &str, negatives: &[ImageInput]) -> (hits: Vec<NegativeHit>)
    requires
        forall|i: int| 0 <= i < negatives@.len() ==> (#[trigger] negatives@[i]).wf(),
    ensures
        hits.deep_view() == hits_in(negatives@, aob@, negatives@.len() as int),
{
    let mut hits: Vec<NegativeHit> = Vec::new();
    assert(hits.deep_view() =~= Seq::<NegativeHitV>::empty());
    let pat = match compile(aob) {
        Some(pat) => pat,
        None => {
            proof {
                no_pattern_no_hits(negatives@, aob@, negatives@.len() as int);
            }
            return hits;
        },
    };
    let mut n: usize = 0;
    while n < negatives.len()
        invariant
            forall|i: int| 0 <= i < negatives@.len() ==> (#[trigger] negatives@[i]).wf(),
            pat.wf(),
            pattern::parsed(aob@) is Some,
            pat.bytes@ == pattern::bytes_of(pattern::parsed(aob@)->0),
            pat.mask@ == pattern::mask_of(pattern::parsed(aob@)->0),
            n <= negatives@.len(),
            hits.deep_view() == hits_in(negatives@, aob@, n as int),
        decreases negatives@.len() - n,
    {
        let img = &negatives[n];
        assert(negatives@[n as int].wf());
        let count: usize = count_in(img, &pat);
        if count > 0 {
            let ghost before = hits.deep_view();
            let hit = NegativeHit { label: img.label.clone(), count };
            let ghost hv = hit.deep_view();
            hits.push(hit);
            assert(hits.deep_view() =~= before.push(hv));
        }
        n += 1;
    }
    hits
}

/// The builds but one.
pub open spec fn training<'a, 'b>(images: Seq<&'b ImageInput<'a>>, held_out: int) -> Seq<
    &'b ImageInput<'a>,
> {
    images.remove(held_out)
}

/// The target as it is called among the builds but one; `None` where the build held out defines it.
pub open spec fn adjusted(target: TargetSpecV, held_out: int) -> Option<TargetSpecV> {
    match target {
        TargetSpecV::Aob(aob) => Some(target),
        TargetSpecV::Ref { image, rva } => if held_out == image {
            None
        } else if held_out < image {
            Some(TargetSpecV::Ref { image: (image - 1) as usize, rva })
        } else {
            Some(target)
        },
    }
}

/// What holding out a build shows.
pub open spec fn held_out_result(
    images: Seq<&ImageInput>,
    target: TargetSpecV,
    opts: SigOptions,
    held_out: int,
) -> HoldoutResultV {
    let chosen = generate::report_of(training(images, held_out), target, opts).chosen;
    HoldoutResultV {
        held_out: images[held_out].label@,
        generated: chosen is Some,
        matched_holdout: match chosen {
            Some(c) => occurrences(images[held_out], c.aob) == 1,
            None => false,
        },
    }
}

/// What holding out each of the first `n` builds in turn shows.
pub open spec fn holdouts(
    images: Seq<&ImageInput>,
    target: TargetSpecV,
    opts: SigOptions,
    n: int,
) -> Seq<HoldoutResultV>
    decreases n,
{
    if n <= 0 {
        Seq::empty()
    } else {
        let before = holdouts(images, target, opts, n - 1);
        match adjusted(target, n - 1) {
            Some(t) => before.push(held_out_result(images, t, opts, n - 1)),
            None => before,
        }
    }
}

fn adjust(target: &TargetSpec, held_out: usize) -> (r: Option<TargetSpec>)
    ensures
        r.deep_view() == adjusted(target.deep_view(), held_out as int),
{
    match target {
        TargetSpec::Aob(text) => Some(TargetSpec::Aob(text.clone())),
        TargetSpec::Ref { image, rva } => {
            if held_out == *image {
                None
            } else if held_out < *image {
                Some(TargetSpec::Ref { image: *image - 1, rva: *rva })
            } else {
                Some(TargetSpec::Ref { image: *image, rva: *rva })
            }
        },
    }
}

proof fn training_stays_sound(images: Seq<&ImageInput>, target: TargetSpecV, held_out: int)
    requires
        generate::sound(images),
        generate::aimable(images, target),
        0 <= held_out < images.len(),
        adjusted(target, held_out) is Some,
    ensures
        generate::sound(training(images, held_out)),
        generate::aimable(training(images, held_out), adjusted(target, held_out)->0),
{
    let train = training(images, held_out);
    assert forall|i: int| 0 <= i < train.len() implies (#[trigger] train[i]).wf() by {
        if i < held_out {
            assert(train[i] == images[i]);
        } else {
            assert(train[i] == images[i + 1]);
        }
    }
    if let TargetSpecV::Ref { image, rva } = adjusted(target, held_out)->0 {
        if image < train.len() {
            let named = if image < held_out {
                image as int
            } else {
                image + 1
            };
            assert(train[image as int] == images[named]);
            assert forall|i: int|
                0 <= i < train.len() && (#[trigger] train[i]).code_hash
                    == train[image as int].code_hash implies train[i].reaches(rva as int) by {
                let j = if i < held_out {
                    i
                } else {
                    i + 1
                };
                assert(train[i] == images[j]);
            }
        }
    }
}

fn hold_out(
    images: &[&ImageInput],
    target: &TargetSpec,
    opts: &SigOptions,
    held_out: usize,
) -> (r: HoldoutResult)
    requires
        held_out < images@.len(),
        generate::sound(images@),
        generate::sound(training(images@, held_out as int)),
        generate::aimable(training(images@, held_out as int), target.deep_view()),
    ensures
        r.deep_view() == held_out_result(images@, target.deep_view(), *opts, held_out as int),
{
    let mut train: Vec<&ImageInput> = vstd::slice::slice_to_vec(images);
    train.remove(held_out);
    assert(train@ =~= training(images@, held_out as int));
    let mut log: Vec<SigStage> = Vec::new();
    let report = generate_on(train.as_slice(), target, opts, &mut log);
    assert(images@[held_out as int].wf());
    let matched: bool = match &report.chosen {
        Some(c) => match compile(c.aob.as_str()) {
            Some(pat) => count_in(images[held_out], &pat) == 1,
            None => false,
        },
        None => false,
    };
    HoldoutResult {
        held_out: images[held_out].label.clone(),
        generated: report.chosen.is_some(),
        matched_holdout: matched,
    }
}

/// Leave-one-out validation: for each build, regenerate the signature from the others and check that it
/// still matches the held-out build exactly once. A signature that fits the builds it was trained on but
/// fails one it never saw is overfit. Needs at least three builds, two to train on and one to hold out,
/// and gives one result per eligible build: the one that defines the target cannot be held out.
pub fn holdout_validate(images: &[ImageInput], target: &TargetSpec, opts: &SigOptions) -> (out: Vec<
    HoldoutResult,
>)
    requires
        generate::sound(generate::refs(images@)),
        generate::aimable(generate::refs(images@), target.deep_view()),
    ensures
        out.deep_view() == (if images@.len() < 3 {
            Seq::empty()
        } else {
            holdouts(
                generate::refs(images@),
                target.deep_view(),
                *opts,
                images@.len() as int,
            )
        }),
{
    let mut out: Vec<HoldoutResult> = Vec::new();
    assert(out.deep_view() =~= Seq::<HoldoutResultV>::empty());
    if images.len() < 3 {
        return out;
    }
    let v = generate::refer_to(images);
    let ghost tv = target.deep_view();
    let mut i: usize = 0;
    while i < v.len()
        invariant
            tv == target.deep_view(),
            generate::sound(v@),
            generate::aimable(v@, tv),
            i <= v@.len(),
            out.deep_view() == holdouts(v@, tv, *opts, i as int),
        decreases v@.len() - i,
    {
        if let Some(t) = adjust(target, i) {
            proof {
                training_stays_sound(v@, tv, i as int);
            }
            let ghost before = out.deep_view();
            let r = hold_out(v.as_slice(), &t, opts, i);
            let ghost rv = r.deep_view();
            out.push(r);
            assert(out.deep_view() =~= before.push(rv));
        }
        i += 1;
    }
    out
}

}
