//! Where a relocated function landed, build by build.

use crate::sigmaker::bytepath;
use crate::sigmaker::bytepath::{push_diag, single_build_aob};
use crate::sigmaker::chain;
use crate::sigmaker::identity;
use crate::sigmaker::identity::{fn_identity, FnIdentity, IdentityV};
use crate::sigmaker::scoring;
use crate::sigmaker::scoring::grade_from;
use crate::sigmaker::similarity;
use crate::sigmaker::similarity::SIM_ONE;
use crate::sigmaker::types::{Diag, DiagV, Grade, ImageInput, PerVersion, PerVersionV, Ratio};
use crate::sigmaker::types::{SigCandidate, SigCandidateV, SigOptions, SubScores, Suffix, TargetKind};
use vstd::prelude::*;

verus! {

/// What is reported of a build the function was found in, with a signature of its own.
pub open spec fn found_row(
    img: &ImageInput,
    rva: u64,
    similarity: Option<u64>,
    opts: SigOptions,
) -> PerVersionV {
    PerVersionV {
        label: img.label@,
        match_rva: Some(rva),
        resolved_target_rva: Some(rva),
        target_kind: Some(TargetKind::Code),
        fingerprint_similarity: similarity,
        aob: bytepath::build_aob(img, rva as int, opts),
    }
}

/// What is reported of a build the function was not found in.
pub open spec fn missing_row(img: &ImageInput) -> PerVersionV {
    PerVersionV {
        label: img.label@,
        match_rva: None,
        resolved_target_rva: None,
        target_kind: None,
        fingerprint_similarity: None,
        aob: None,
    }
}

/// Report a build the function was found in.
pub fn report_found(img: &ImageInput, rva: u64, similarity: Option<u64>, opts: &SigOptions) -> (r:
    PerVersion)
    requires
        img.wf(),
        rva <= usize::MAX,
    ensures
        r.deep_view() == found_row(img, rva, similarity, *opts),
{
    PerVersion {
        label: img.label.clone(),
        match_rva: Some(rva),
        resolved_target_rva: Some(rva),
        target_kind: Some(TargetKind::Code),
        fingerprint_similarity: similarity,
        aob: single_build_aob(img, rva as usize, opts),
    }
}

/// Report a build the function was not found in.
pub fn report_missing(img: &ImageInput) -> (r: PerVersion)
    ensures
        r.deep_view() == missing_row(img),
{
    PerVersion {
        label: img.label.clone(),
        match_rva: None,
        resolved_target_rva: None,
        target_kind: None,
        fingerprint_similarity: None,
        aob: None,
    }
}

/// What is reported where the function was found in every required build.
pub open spec fn full_rows(
    images: Seq<&ImageInput>,
    required: Seq<usize>,
    at: Seq<u64>,
    sims: Seq<Option<u64>>,
    opts: SigOptions,
) -> Seq<PerVersionV> {
    Seq::new(
        required.len(),
        |k: int| found_row(images[required[k] as int], at[k], sims[k], opts),
    )
}

/// The similarity of each identity but the first to the first.
pub open spec fn sims_to_first(ids: Seq<IdentityV>) -> Seq<Option<u64>> {
    Seq::new(
        ids.len(),
        |k: int|
            if k == 0 {
                None
            } else {
                Some(identity::likeness(ids[0], ids[k]) as u64)
            },
    )
}

/// The places can be read at.
pub open spec fn all_reach(images: Seq<&ImageInput>, required: Seq<usize>, at: Seq<u64>) -> bool {
    at.len() <= required.len() && forall|k: int|
        0 <= k < at.len() ==> images[required[k] as int].reaches((#[trigger] at[k]) as int)
}

/// Report every required build.
pub fn report_all(
    images: &[&ImageInput],
    required: &[usize],
    at: &Vec<u64>,
    sims: &Vec<Option<u64>>,
    opts: &SigOptions,
) -> (rows: Vec<PerVersion>)
    requires
        chain::usable(images@, required@),
        at@.len() == required@.len(),
        sims@.len() == required@.len(),
        all_reach(images@, required@, at@),
    ensures
        rows.deep_view() == full_rows(images@, required@, at@, sims@, *opts),
{
    let ghost all = full_rows(images@, required@, at@, sims@, *opts);
    let mut rows: Vec<PerVersion> = Vec::new();
    let mut k: usize = 0;
    assert(rows.deep_view() =~= all.take(0));
    while k < required.len()
        invariant
            chain::usable(images@, required@),
            at@.len() == required@.len(),
            sims@.len() == required@.len(),
            all_reach(images@, required@, at@),
            all == full_rows(images@, required@, at@, sims@, *opts),
            k <= required@.len(),
            rows.deep_view() == all.take(k as int),
        decreases required@.len() - k,
    {
        let ghost before = rows.deep_view();
        proof {
            assert(required@[k as int] < images@.len());
            assert(images@[required@[k as int] as int].wf());
            assert(images@[required@[k as int] as int].reaches(at@[k as int] as int));
        }
        let r = report_found(images[required[k]], at[k], sims[k], opts);
        let ghost rv = r.deep_view();
        rows.push(r);
        k += 1;
        proof {
            assert(rows.deep_view() =~= before.push(rv));
            assert(rows.deep_view() =~= all.take(k as int));
        }
    }
    assert(all.take(k as int) =~= all);
    rows
}

/// The similarity of each identity but the first to the first.
pub fn compare_to_first(ids: &Vec<FnIdentity>) -> (sims: Vec<Option<u64>>)
    ensures
        sims@ == sims_to_first(ids.deep_view()),
        sims@.len() == ids@.len(),
{
    let ghost iv = ids.deep_view();
    let ghost all = sims_to_first(iv);
    let mut sims: Vec<Option<u64>> = Vec::new();
    let mut k: usize = 0;
    while k < ids.len()
        invariant
            iv == ids.deep_view(),
            all == sims_to_first(iv),
            k <= ids@.len(),
            sims@ == all.take(k as int),
        decreases ids@.len() - k,
    {
        assert(iv[0] == ids@[0].deep_view());
        assert(iv[k as int] == ids@[k as int].deep_view());
        if k == 0 {
            sims.push(None);
        } else {
            sims.push(Some(ids[0].similarity(&ids[k])));
        }
        k += 1;
        assert(sims@ =~= all.take(k as int));
    }
    assert(sims@ =~= all);
    sims
}

/// The identities of the functions found in the required builds.
pub open spec fn identities(images: Seq<&ImageInput>, required: Seq<usize>, at: Seq<u64>) -> Seq<
    IdentityV,
> {
    Seq::new(at.len(), |k: int| identity::identity_at(images[required[k] as int], at[k] as int))
}

/// The identities of the functions found in the required builds.
pub fn identify_all(images: &[&ImageInput], required: &[usize], at: &Vec<u64>) -> (ids: Vec<
    FnIdentity,
>)
    requires
        chain::usable(images@, required@),
        all_reach(images@, required@, at@),
    ensures
        ids.deep_view() == identities(images@, required@, at@),
        ids@.len() == at@.len(),
{
    let ghost all = identities(images@, required@, at@);
    let mut ids: Vec<FnIdentity> = Vec::new();
    let mut k: usize = 0;
    assert(ids.deep_view() =~= all.take(0));
    while k < at.len()
        invariant
            chain::usable(images@, required@),
            all_reach(images@, required@, at@),
            all == identities(images@, required@, at@),
            k <= at@.len(),
            ids@.len() == k,
            ids.deep_view() == all.take(k as int),
        decreases at@.len() - k,
    {
        let ghost before = ids.deep_view();
        proof {
            assert(required@[k as int] < images@.len());
            assert(images@[required@[k as int] as int].wf());
            assert(images@[required@[k as int] as int].reaches(at@[k as int] as int));
        }
        let id = fn_identity(images[required[k]], at[k] as usize);
        let ghost iv = id.deep_view();
        ids.push(id);
        k += 1;
        proof {
            assert(ids.deep_view() =~= before.push(iv));
            assert(ids.deep_view() =~= all.take(k as int));
        }
    }
    assert(all.take(k as int) =~= all);
    ids
}

/// The places that were reached can be read at.
pub open spec fn some_reach(
    images: Seq<&ImageInput>,
    required: Seq<usize>,
    at: Seq<Option<u64>>,
) -> bool {
    at.len() == required.len() && forall|k: int|
        0 <= k < at.len() ==> (#[trigger] at[k] matches Some(rva) ==> images[required[k] as int].reaches(
            rva as int,
        ))
}

/// The identities of the functions in those of the first `n` builds that were reached.
pub open spec fn reached_identities(
    images: Seq<&ImageInput>,
    required: Seq<usize>,
    at: Seq<Option<u64>>,
    n: int,
) -> Seq<IdentityV>
    decreases n,
{
    if n <= 0 {
        Seq::empty()
    } else {
        let before = reached_identities(images, required, at, n - 1);
        match at[n - 1] {
            Some(rva) => before.push(
                identity::identity_at(images[required[n - 1] as int], rva as int),
            ),
            None => before,
        }
    }
}

/// The diagnostics of those of the first `n` builds that were not reached.
pub open spec fn missing_diags(
    images: Seq<&ImageInput>,
    required: Seq<usize>,
    at: Seq<Option<u64>>,
    n: int,
) -> Seq<DiagV>
    decreases n,
{
    if n <= 0 {
        Seq::empty()
    } else {
        let before = missing_diags(images, required, at, n - 1);
        match at[n - 1] {
            Some(_) => before,
            None => before.push(
                DiagV::MissingInImage { label: images[required[n - 1] as int].label@ },
            ),
        }
    }
}

/// The first place of `idx` among the required builds, from `k` on.
pub open spec fn place_of(required: Seq<usize>, idx: usize, k: int) -> Option<int>
    decreases required.len() - k,
{
    if !(0 <= k < required.len()) {
        None
    } else if required[k] == idx {
        Some(k)
    } else {
        place_of(required, idx, k + 1)
    }
}

/// The identity of the function in the reference build, where it was reached there.
pub open spec fn reference_identity(
    images: Seq<&ImageInput>,
    required: Seq<usize>,
    at: Seq<Option<u64>>,
    ref_idx: usize,
) -> Option<IdentityV> {
    match place_of(required, ref_idx, 0) {
        None => None,
        Some(p) => match at[p] {
            None => None,
            Some(rva) => Some(identity::identity_at(images[ref_idx as int], rva as int)),
        },
    }
}

/// What is reported where the function was reached in some builds.
pub open spec fn partial_rows(
    images: Seq<&ImageInput>,
    required: Seq<usize>,
    at: Seq<Option<u64>>,
    reference: Option<IdentityV>,
    opts: SigOptions,
) -> Seq<PerVersionV> {
    Seq::new(
        required.len(),
        |k: int|
            {
                let img = images[required[k] as int];
                match at[k] {
                    Some(rva) => found_row(
                        img,
                        rva,
                        match reference {
                            Some(r) => Some(
                                identity::likeness(r, identity::identity_at(img, rva as int)) as u64,
                            ),
                            None => None,
                        },
                        opts,
                    ),
                    None => missing_row(img),
                }
            },
    )
}

/// How many builds were reached.
pub open spec fn reached_count(at: Seq<Option<u64>>) -> nat
    decreases at.len(),
{
    if at.len() == 0 {
        0
    } else {
        reached_count(at.drop_last()) + if at.last() is Some {
            1nat
        } else {
            0nat
        }
    }
}

/// What a relocation found, where it was reached in some builds.
pub struct Partial {
    pub reached: usize,
    pub rows: Vec<PerVersion>,
    pub diags: Vec<Diag>,
    pub idents: Vec<FnIdentity>,
    pub reference: Option<FnIdentity>,
}

/// Report every required build, reached or not.
pub fn report_partial(
    images: &[&ImageInput],
    required: &[usize],
    at: &Vec<Option<u64>>,
    ref_idx: usize,
    opts: &SigOptions,
) -> (p: Partial)
    requires
        chain::usable(images@, required@),
        some_reach(images@, required@, at@),
        ref_idx < images@.len(),
    ensures
        p.reached == reached_count(at@),
        p.reached <= required@.len(),
        p.reference.deep_view() == reference_identity(images@, required@, at@, ref_idx),
        p.rows.deep_view() == partial_rows(
            images@,
            required@,
            at@,
            p.reference.deep_view(),
            *opts,
        ),
        p.diags.deep_view() == missing_diags(images@, required@, at@, required@.len() as int),
        p.idents.deep_view() == reached_identities(
            images@,
            required@,
            at@,
            required@.len() as int,
        ),
        p.idents@.len() == p.reached,
{
    let reference = identify_reference(images, required, at, ref_idx);
    let ghost rv = reference.deep_view();
    let ghost all = partial_rows(images@, required@, at@, rv, *opts);
    let mut reached: usize = 0;
    let mut rows: Vec<PerVersion> = Vec::new();
    let mut diags: Vec<Diag> = Vec::new();
    let mut idents: Vec<FnIdentity> = Vec::new();
    let mut n: usize = 0;
    proof {
        assert(rows.deep_view() =~= all.take(0));
        assert(diags.deep_view() =~= Seq::<DiagV>::empty());
        assert(idents.deep_view() =~= Seq::<IdentityV>::empty());
        assert(at@.take(0) =~= Seq::<Option<u64>>::empty());
    }
    while n < required.len()
        invariant
            chain::usable(images@, required@),
            some_reach(images@, required@, at@),
            rv == reference.deep_view(),
            all == partial_rows(images@, required@, at@, rv, *opts),
            n <= required@.len(),
            reached == reached_count(at@.take(n as int)),
            reached <= n,
            rows.deep_view() == all.take(n as int),
            diags.deep_view() == missing_diags(images@, required@, at@, n as int),
            idents.deep_view() == reached_identities(images@, required@, at@, n as int),
            idents@.len() == reached,
        decreases required@.len() - n,
    {
        let img = images[required[n]];
        let ghost before = rows.deep_view();
        let ghost earlier = idents.deep_view();
        proof {
            assert(required@[n as int] < images@.len());
            assert(img.wf());
            assert(at@.take(n + 1).drop_last() =~= at@.take(n as int));
        }
        match at[n] {
            Some(rva) => {
                assert(at@[n as int] is Some);
                let id = fn_identity(img, rva as usize);
                let sim: Option<u64> = match &reference {
                    Some(r) => Some(r.similarity(&id)),
                    None => None,
                };
                let row = report_found(img, rva, sim, opts);
                let ghost view = row.deep_view();
                let ghost iv = id.deep_view();
                rows.push(row);
                idents.push(id);
                reached += 1;
                proof {
                    assert(rows.deep_view() =~= before.push(view));
                    assert(idents.deep_view() =~= earlier.push(iv));
                }
            },
            None => {
                push_diag(&mut diags, Diag::MissingInImage { label: img.label.clone() });
                let row = report_missing(img);
                let ghost view = row.deep_view();
                rows.push(row);
                assert(rows.deep_view() =~= before.push(view));
            },
        }
        n += 1;
        assert(rows.deep_view() =~= all.take(n as int));
    }
    proof {
        assert(all.take(n as int) =~= all);
        assert(at@.take(n as int) =~= at@);
    }
    Partial { reached, rows, diags, idents, reference }
}

fn identify_reference(
    images: &[&ImageInput],
    required: &[usize],
    at: &Vec<Option<u64>>,
    ref_idx: usize,
) -> (r: Option<FnIdentity>)
    requires
        chain::usable(images@, required@),
        some_reach(images@, required@, at@),
        ref_idx < images@.len(),
    ensures
        r.deep_view() == reference_identity(images@, required@, at@, ref_idx),
{
    let mut k: usize = 0;
    while k < required.len()
        invariant
            chain::usable(images@, required@),
            some_reach(images@, required@, at@),
            ref_idx < images@.len(),
            k <= required@.len(),
            place_of(required@, ref_idx, 0) == place_of(required@, ref_idx, k as int),
        decreases required@.len() - k,
    {
        if required[k] == ref_idx {
            return match at[k] {
                Some(rva) => {
                    assert(at@[k as int] is Some);
                    assert(images@[ref_idx as int].wf());
                    Some(fn_identity(images[ref_idx], rva as usize))
                },
                None => None,
            };
        }
        k += 1;
    }
    None
}

/// The least agreement of the functions reached; full where there is nothing to compare.
pub open spec fn mutual_of(ids: Seq<IdentityV>) -> u64 {
    match scoring::agreement_of(ids) {
        Some(s) => s,
        None => SIM_ONE,
    }
}

/// Whether an input looks packed.
pub open spec fn any_packed(images: Seq<&ImageInput>) -> bool {
    exists|i: int| 0 <= i < images.len() && (#[trigger] images[i]).packed
}

/// Whether an input looks packed.
pub fn find_packed(images: &[&ImageInput]) -> (r: bool)
    ensures
        r == any_packed(images@),
{
    let mut n: usize = 0;
    while n < images.len()
        invariant
            n <= images@.len(),
            forall|i: int| 0 <= i < n ==> !(#[trigger] images@[i]).packed,
        decreases images@.len() - n,
    {
        if images[n].packed {
            assert(images@[n as int].packed);
            return true;
        }
        n += 1;
    }
    false
}

/// The candidate that a relocation without a byte or string of its own gives: capped at B however high
/// it scores, and at D where an input looks packed.
pub open spec fn relocated(
    packed: bool,
    aob: Seq<char>,
    scores: SubScores,
    reasons: Seq<Seq<char>>,
    rows: Seq<PerVersionV>,
    diags: Seq<DiagV>,
) -> SigCandidateV {
    SigCandidateV {
        aob,
        suffix: Suffix::Direct,
        grade: scoring::graded(scores.final_score as int, false, packed).capped(Grade::B),
        score: scores.final_score,
        bytes_len: 0,
        fixed: 0,
        wildcards: 0,
        fixed_ratio: Ratio { num: 0, den: 1 },
        reloc_safe: true,
        gated: false,
        packed,
        scores,
        reasons,
        per_version: rows,
        diags,
        relocation: None,
    }
}

/// The candidate that a relocation gives.
pub fn relocation(
    packed: bool,
    aob: String,
    scores: SubScores,
    reasons: Vec<String>,
    rows: Vec<PerVersion>,
    diags: Vec<Diag>,
) -> (c: SigCandidate)
    ensures
        c.deep_view() == relocated(
            packed,
            aob@,
            scores,
            reasons.deep_view(),
            rows.deep_view(),
            diags.deep_view(),
        ),
{
    SigCandidate {
        aob,
        suffix: Suffix::Direct,
        grade: grade_from(scores.final_score, false, packed).max_rank(Grade::B),
        score: scores.final_score,
        bytes_len: 0,
        fixed: 0,
        wildcards: 0,
        fixed_ratio: Ratio { num: 0, den: 1 },
        reloc_safe: true,
        gated: false,
        packed,
        scores,
        reasons,
        per_version: rows,
        diags,
        relocation: None,
    }
}

}
