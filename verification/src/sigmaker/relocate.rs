//! The cross-version relocation anchors that need every required build: each relocates a target function
//! by a different recompile-stable handle (a referenced string, a rare constant, an encoding or mnemonic
//! fingerprint), and declines the whole relocation where one build is ambiguous. All but the string anchor
//! are capped below the byte path since none proves the target by its own bytes.

use crate::domain::{StringAnchor, StringAnchorV};
use crate::pattern::Arch;
use crate::sigmaker::chain;
use crate::sigmaker::constants;
use crate::sigmaker::constants::{make_constant_anchor, resolve_constant_anchor};
use crate::sigmaker::encoding;
use crate::sigmaker::encoding::{best_encoding_match, encoding_similarity, encoding_stream};
use crate::sigmaker::encoding::hash_values;
use crate::sigmaker::identity;
use crate::sigmaker::identity::{
    best_fingerprint_match,
    fingerprint_topk,
    fn_identity,
    FnIdentity,
    IdentityV,
    FNV_OFFSET,
};
use crate::sigmaker::bytepath;
use crate::sigmaker::bytepath::single_build_aob;
use crate::sigmaker::landing;
use crate::sigmaker::landing::{compare_to_first, find_packed, identify_all, relocation, report_all};
use crate::sigmaker::scoring;
use crate::sigmaker::scoring::{
    callee_similarity,
    grade_from,
    say,
    score_fingerprint,
    score_string_anchor,
    FingerprintEvidence,
    FingerprintEvidenceV,
    StringEvidence,
    StringEvidenceV,
};
use crate::sigmaker::similarity;
use crate::sigmaker::similarity::{shown_percent_of, SIM_ONE, SIM_PERCENT};
use crate::sigmaker::strings;
use crate::sigmaker::strings::{
    enclosing_function,
    make_string_anchor,
    resolve_string_anchor,
    xrefs_capped,
};
use crate::sigmaker::types::{starting, Diag, DiagV, Grade, ImageInput, Ratio, Shortlist, ShortlistV};
use crate::sigmaker::types::{ShortlistEntry, ShortlistEntryV, SigCandidate, SigCandidateV};
use crate::sigmaker::types::{SigOptions, Suffix};
use crate::text;
use crate::text::{push_hex_fixed, push_hex_upper};
use vstd::prelude::*;
use vstd::string::*;
use vstd::utf8::*;

verus! {

/// The builds are usable and the target can be read in the reference build.
pub open spec fn ready(
    images: Seq<&ImageInput>,
    required: Seq<usize>,
    ref_idx: usize,
    ref_rva: u64,
) -> bool {
    &&& chain::usable(images, required)
    &&& ref_idx < images.len()
    &&& images[ref_idx as int].reaches(ref_rva as int)
}

/// The entry of the target function in the reference build.
pub open spec fn entry_of(images: Seq<&ImageInput>, ref_idx: usize, ref_rva: u64) -> int {
    strings::enclosing(images[ref_idx as int], ref_rva as int)
}

/// The first identity.
pub open spec fn first_of(ids: Seq<IdentityV>) -> Option<IdentityV> {
    if ids.len() > 0 {
        Some(ids[0])
    } else {
        None
    }
}

/// Copy the first identity.
pub fn copy_first(ids: &Vec<FnIdentity>) -> (r: Option<FnIdentity>)
    ensures
        r.deep_view() == first_of(ids.deep_view()),
{
    if ids.len() > 0 {
        assert(ids.deep_view()[0] == ids@[0].deep_view());
        Some(ids[0].copy())
    } else {
        None
    }
}

/// Compare the identities of the builds.
pub fn compare_all(ids: &Vec<FnIdentity>) -> (r: Option<u64>)
    ensures
        r == scoring::agreement_of(ids.deep_view()),
        r matches Some(s) ==> s <= SIM_ONE,
{
    let s = ids.as_slice();
    assert(s.deep_view() =~= ids.deep_view());
    callee_similarity(s)
}

/// Below this the worst landing of a lone string may be a different function, in percent.
pub const MAJOR_GAP_SIM: u64 = 30;

/// Whether a string relocation is corroborated: by a second string, by the likeness of the worst
/// landing, or by there being nothing to compare.
pub open spec fn confirmed(paired: bool, least: Option<u64>) -> bool {
    paired || match least {
        None => true,
        Some(s) => s >= MAJOR_GAP_SIM * SIM_PERCENT,
    }
}

/// Whether a string-anchored cross-version relocation is corroborated enough to be reported as a
/// confident match. Across a major recompile a lone string can resolve to a migrated string in a
/// different function, and the structural identity is the tell. Confidence requires either a second
/// corroborating string or that the worst build's landing stays structurally close to the reference. A
/// single build carries no cross-build evidence and is governed by its own cap.
pub fn string_relocation_confirmed(paired: bool, min_landing_similarity: Option<u64>) -> (r: bool)
    ensures
        r == confirmed(paired, min_landing_similarity),
{
    paired || match min_landing_similarity {
        None => true,
        Some(s) => s >= MAJOR_GAP_SIM * SIM_PERCENT,
    }
}

/// Where the string anchor leads in the first `n` required builds, or `None` where it leads nowhere in
/// one of them.
pub open spec fn string_places(
    images: Seq<&ImageInput>,
    required: Seq<usize>,
    a: StringAnchorV,
    n: int,
) -> Option<Seq<u64>>
    decreases n,
{
    if n <= 0 {
        Some(Seq::empty())
    } else {
        match (
            string_places(images, required, a, n - 1),
            strings::anchored(images[required[n - 1] as int], a),
        ) {
            (Some(at), Some(f)) => Some(at.push(f as u64)),
            _ => None,
        }
    }
}

proof fn string_places_stay_lost(
    images: Seq<&ImageInput>,
    required: Seq<usize>,
    a: StringAnchorV,
    m: int,
    n: int,
)
    requires
        0 < m <= n,
        string_places(images, required, a, m) is None,
    ensures
        string_places(images, required, a, n) is None,
    decreases n - m,
{
    if m < n {
        string_places_stay_lost(images, required, a, m, n - 1);
    }
}

/// The written form of a string anchor.
pub open spec fn string_aob(a: StringAnchorV) -> Seq<char> {
    match a.also {
        Some(also) => "@string="@ + a.text + " @also="@ + also,
        None => "@string="@ + a.text,
    }
}

/// What was measured about a string anchor.
pub open spec fn string_evidence(
    images: Seq<&ImageInput>,
    required: Seq<usize>,
    ref_idx: usize,
    entry: int,
    a: StringAnchorV,
    ids: Seq<IdentityV>,
) -> StringEvidenceV {
    let img = images[ref_idx as int];
    let at = match strings::anchored(img, a) {
        Some(f) => f as int,
        None => entry,
    };
    let refs = strings::references_to(img, img.base + at, img.code_regions@.len() as int);
    StringEvidenceV {
        builds: required.len() as usize,
        text_len: a.text.len() as usize,
        paired: a.also is Some,
        xrefs: if refs <= usize::MAX {
            refs as usize
        } else {
            usize::MAX
        },
        callee_similarity: scoring::agreement_of(ids),
        ref_ident: first_of(ids),
    }
}

/// The explanation of a lone string that landed far from the reference.
pub open spec fn migrated_reason(least: Option<u64>) -> Seq<char> {
    scoring::counted(
        "single-string relocation across a major recompile: the worst build's landing is only "@,
        similarity::shown_percent(
            match least {
                Some(s) => s as int,
                None => 0,
            },
        ),
        "% structurally similar to the reference and no second signal corroborates it, so it is a candidate, not a confirmed relocation"@,
    )
}

/// The grade and the reasons of a string anchor under its caps: below A on a single build, below B where a
/// lone string is not confirmed, and at D or below where an input looks packed.
pub open spec fn string_verdict(ev: StringEvidenceV, packed: bool) -> (Grade, Seq<Seq<char>>) {
    let g = scoring::graded(scoring::string_scores(ev).final_score as int, false, packed);
    let single = ev.builds < 2 && g == Grade::A;
    let h = if single {
        Grade::B
    } else {
        g
    };
    let lost = !confirmed(ev.paired, ev.callee_similarity) && h.capped(Grade::C) != h;
    (
        if lost {
            h.capped(Grade::C)
        } else {
            h
        },
        scoring::string_reasons(ev) + scoring::said(
            single,
            "string anchor validated against only one build; capped below A"@,
        ) + scoring::said(lost, migrated_reason(ev.callee_similarity)),
    )
}

/// The candidate that a string anchor gives.
pub open spec fn string_candidate(
    images: Seq<&ImageInput>,
    required: Seq<usize>,
    ref_idx: usize,
    ref_rva: u64,
    opts: SigOptions,
) -> Option<SigCandidateV> {
    let entry = entry_of(images, ref_idx, ref_rva);
    match strings::string_anchor_of(images[ref_idx as int], entry) {
        None => None,
        Some(a) => match string_places(images, required, a, required.len() as int) {
            None => None,
            Some(at) => {
                let ids = landing::identities(images, required, at);
                let ev = string_evidence(images, required, ref_idx, entry, a, ids);
                let scores = scoring::string_scores(ev);
                let len = encode_utf8(a.text).len() as usize;
                Some(
                    SigCandidateV {
                        aob: string_aob(a),
                        suffix: Suffix::Direct,
                        grade: string_verdict(ev, landing::any_packed(images)).0,
                        score: scores.final_score,
                        bytes_len: len,
                        fixed: len,
                        wildcards: 0,
                        fixed_ratio: Ratio { num: 1, den: 1 },
                        reloc_safe: true,
                        gated: false,
                        packed: landing::any_packed(images),
                        scores,
                        reasons: string_verdict(ev, landing::any_packed(images)).1,
                        per_version: landing::full_rows(
                            images,
                            required,
                            at,
                            landing::sims_to_first(ids),
                            opts,
                        ),
                        diags: Seq::empty(),
                        relocation: None,
                    },
                )
            },
        },
    }
}

fn find_string_places(images: &[&ImageInput], required: &[usize], a: &StringAnchor) -> (r: Option<
    Vec<u64>,
>)
    requires
        chain::usable(images@, required@),
    ensures
        match r {
            Some(at) => string_places(images@, required@, a.deep_view(), required@.len() as int)
                == Some(at@) && at@.len() == required@.len() && landing::all_reach(
                images@,
                required@,
                at@,
            ),
            None => string_places(images@, required@, a.deep_view(), required@.len() as int) is None,
        },
{
    let ghost av = a.deep_view();
    let mut at: Vec<u64> = Vec::new();
    let mut n: usize = 0;
    while n < required.len()
        invariant
            chain::usable(images@, required@),
            av == a.deep_view(),
            n <= required@.len(),
            at@.len() == n,
            landing::all_reach(images@, required@, at@),
            string_places(images@, required@, av, n as int) == Some(at@),
        decreases required@.len() - n,
    {
        assert(required@[n as int] < images@.len());
        assert(images@[required@[n as int] as int].wf());
        match resolve_string_anchor(images[required[n]], a) {
            Some(f) => {
                at.push(f as u64);
            },
            None => {
                proof {
                    string_places_stay_lost(images@, required@, av, n + 1, required@.len() as int);
                }
                return None;
            },
        }
        n += 1;
    }
    Some(at)
}

fn judge_string(
    ev: &StringEvidence,
    reasons: Vec<String>,
    final_score: u32,
    packed: bool,
) -> (r: (Grade, Vec<String>))
    requires
        reasons.deep_view() == scoring::string_reasons(ev.deep_view()),
        final_score == scoring::string_scores(ev.deep_view()).final_score,
    ensures
        r.0 == string_verdict(ev.deep_view(), packed).0,
        r.1.deep_view() == string_verdict(ev.deep_view(), packed).1,
{
    let ghost e = ev.deep_view();
    let mut reasons = reasons;
    let mut grade = grade_from(final_score, false, packed);
    if ev.builds < 2 && grade == Grade::A {
        grade = Grade::B;
        say(
            &mut reasons,
            starting("string anchor validated against only one build; capped below A"),
        );
    }
    if !string_relocation_confirmed(ev.paired, ev.callee_similarity) {
        let capped = grade.max_rank(Grade::C);
        if capped != grade {
            let shown: u64 = match ev.callee_similarity {
                Some(s) => shown_percent_of(s),
                None => 0,
            };
            say(
                &mut reasons,
                scoring::count_text(
                    "single-string relocation across a major recompile: the worst build's landing is only ",
                    shown,
                    "% structurally similar to the reference and no second signal corroborates it, so it is a candidate, not a confirmed relocation",
                ),
            );
            grade = capped;
        }
    }
    assert(reasons.deep_view() =~= string_verdict(e, packed).1);
    (grade, reasons)
}

/// Relocate the target by a string that it refers to: the string must exist and resolve to exactly one
/// function in every required build, and each resolved function's identity is evidence. The score comes
/// from that evidence, never from the string's characters taken for code bytes.
pub fn string_anchor_candidate(
    images: &[&ImageInput],
    required: &[usize],
    ref_idx: usize,
    ref_rva: u64,
    opts: &SigOptions,
) -> (r: Option<SigCandidate>)
    requires
        ready(images@, required@, ref_idx, ref_rva),
    ensures
        r.deep_view() == string_candidate(images@, required@, ref_idx, ref_rva, *opts),
{
    let img = images[ref_idx];
    assert(images@[ref_idx as int].wf());
    let entry: usize = enclosing_function(img, ref_rva as usize);
    let anchor = match make_string_anchor(img, entry) {
        Some(a) => a,
        None => {
            return None;
        },
    };
    let ghost av = anchor.deep_view();
    let at = match find_string_places(images, required, &anchor) {
        Some(at) => at,
        None => {
            return None;
        },
    };
    let ids = identify_all(images, required, &at);
    let ghost iv = ids.deep_view();
    let sims = compare_to_first(&ids);
    let rows = report_all(images, required, &at, &sims, opts);
    let mut aob = starting("@string=");
    aob.append(anchor.text.as_str());
    if let Some(also) = &anchor.also {
        aob.append(" @also=");
        aob.append(also.as_str());
    }
    let ref_entry: usize = match resolve_string_anchor(img, &anchor) {
        Some(f) => f,
        None => entry,
    };
    let ev = StringEvidence {
        builds: required.len(),
        text_len: anchor.text.as_str().unicode_len(),
        paired: anchor.also.is_some(),
        xrefs: xrefs_capped(img, ref_entry),
        callee_similarity: compare_all(&ids),
        ref_ident: copy_first(&ids),
    };
    assert(ev.deep_view() =~= string_evidence(
        images@,
        required@,
        ref_idx,
        entry as int,
        av,
        iv,
    ));
    let (scores, reasons) = score_string_anchor(&ev);
    let packed: bool = find_packed(images);
    let (grade, reasons) = judge_string(&ev, reasons, scores.final_score, packed);
    let len: usize = anchor.text.as_str().len();
    let cand = SigCandidate {
        aob,
        suffix: Suffix::Direct,
        grade,
        score: scores.final_score,
        bytes_len: len,
        fixed: len,
        wildcards: 0,
        fixed_ratio: Ratio { num: 1, den: 1 },
        reloc_safe: true,
        gated: false,
        packed,
        scores,
        reasons,
        per_version: rows,
        diags: Vec::new(),
        relocation: None,
    };
    assert(cand.deep_view().diags =~= Seq::<DiagV>::empty());
    Some(cand)
}

/// Below this similarity a constant's landing is a coincidence, in percent.
pub const CONST_MIN_CONSISTENCY: u64 = 30;

/// Where the constant leads in the first `n` required builds, or `None` where it leads nowhere in one of
/// them.
pub open spec fn constant_places(
    images: Seq<&ImageInput>,
    required: Seq<usize>,
    value: u64,
    n: int,
) -> Option<Seq<u64>>
    decreases n,
{
    if n <= 0 {
        Some(Seq::empty())
    } else {
        let img = images[required[n - 1] as int];
        match (
            constant_places(images, required, value, n - 1),
            constants::constant_anchored(img, value),
        ) {
            (Some(at), Some(f)) => Some(at.push(strings::enclosing(img, f as int) as u64)),
            _ => None,
        }
    }
}

proof fn constant_places_stay_lost(
    images: Seq<&ImageInput>,
    required: Seq<usize>,
    value: u64,
    m: int,
    n: int,
)
    requires
        0 < m <= n,
        constant_places(images, required, value, m) is None,
    ensures
        constant_places(images, required, value, n) is None,
    decreases n - m,
{
    if m < n {
        constant_places_stay_lost(images, required, value, m, n - 1);
    }
}

/// The evidence of a relocation with one similarity.
pub open spec fn even_evidence(builds: int, least: u64, reference: Option<IdentityV>) -> FingerprintEvidenceV {
    FingerprintEvidenceV {
        builds: builds as usize,
        min_similarity: least,
        mutual_similarity: least,
        ref_ident: reference,
    }
}

/// The least similarity of the identities to the first; full where there is one or none.
pub open spec fn least_of(ids: Seq<IdentityV>) -> u64 {
    landing::mutual_of(ids)
}

/// The candidate that a rare constant gives.
pub open spec fn constant_candidate(
    images: Seq<&ImageInput>,
    required: Seq<usize>,
    ref_idx: usize,
    ref_rva: u64,
    opts: SigOptions,
) -> Option<SigCandidateV> {
    let img = images[ref_idx as int];
    let entry = entry_of(images, ref_idx, ref_rva);
    match constants::lone_constant(img, constants::constants_of(img, entry), 0) {
        None => None,
        Some(value) => match constant_places(images, required, value, required.len() as int) {
            None => None,
            Some(at) => {
                let ids = landing::identities(images, required, at);
                let least = least_of(ids);
                if ids.len() >= 2 && least < CONST_MIN_CONSISTENCY * SIM_PERCENT {
                    None
                } else {
                    let ev = even_evidence(required.len() as int, least, first_of(ids));
                    Some(
                        landing::relocated(
                            landing::any_packed(images),
                            "@constant=0x"@ + text::hex_upper(value as nat),
                            scoring::fingerprint_scores(ev),
                            seq![
                                "relocated across builds by a rare constant (0x"@ + text::hex_upper(
                                    value as nat,
                                ) + ") used by exactly one function per build"@,
                            ] + scoring::fingerprint_reasons(ev),
                            landing::full_rows(
                                images,
                                required,
                                at,
                                landing::sims_to_first(ids),
                                opts,
                            ),
                            Seq::empty(),
                        ),
                    )
                }
            },
        },
    }
}

fn find_constant_places(
    images: &[&ImageInput],
    required: &[usize],
    a: &constants::ConstantAnchor,
) -> (r: Option<Vec<u64>>)
    requires
        chain::usable(images@, required@),
    ensures
        match r {
            Some(at) => constant_places(images@, required@, a.value, required@.len() as int)
                == Some(at@) && at@.len() == required@.len() && landing::all_reach(
                images@,
                required@,
                at@,
            ),
            None => constant_places(images@, required@, a.value, required@.len() as int) is None,
        },
{
    let mut at: Vec<u64> = Vec::new();
    let mut n: usize = 0;
    while n < required.len()
        invariant
            chain::usable(images@, required@),
            n <= required@.len(),
            at@.len() == n,
            landing::all_reach(images@, required@, at@),
            constant_places(images@, required@, a.value, n as int) == Some(at@),
        decreases required@.len() - n,
    {
        assert(required@[n as int] < images@.len());
        assert(images@[required@[n as int] as int].wf());
        let img = images[required[n]];
        match resolve_constant_anchor(img, a) {
            Some(f) => {
                at.push(enclosing_function(img, f) as u64);
            },
            None => {
                proof {
                    constant_places_stay_lost(
                        images@,
                        required@,
                        a.value,
                        n + 1,
                        required@.len() as int,
                    );
                }
                return None;
            },
        }
        n += 1;
    }
    Some(at)
}

/// Put a sentence in front of the others.
pub fn lead_with(first: String, rest: Vec<String>) -> (v: Vec<String>)
    ensures
        v.deep_view() == seq![first@] + rest.deep_view(),
{
    let ghost rv = rest.deep_view();
    let mut v: Vec<String> = rest;
    v.insert(0, first);
    assert(v.deep_view() =~= seq![first@] + rv);
    v
}

/// Relocate the target by a rare immediate constant it uses: a value unique to the function in the
/// reference build, looked for in each other build. Declines on any ambiguity or when the resolved
/// functions look nothing alike (a coincidental constant collision).
pub fn constant_relocate(
    images: &[&ImageInput],
    required: &[usize],
    ref_idx: usize,
    ref_rva: u64,
    opts: &SigOptions,
) -> (r: Option<SigCandidate>)
    requires
        ready(images@, required@, ref_idx, ref_rva),
    ensures
        r.deep_view() == constant_candidate(images@, required@, ref_idx, ref_rva, *opts),
{
    let img = images[ref_idx];
    assert(images@[ref_idx as int].wf());
    let entry: usize = enclosing_function(img, ref_rva as usize);
    let anchor = match make_constant_anchor(img, entry) {
        Some(a) => a,
        None => {
            return None;
        },
    };
    let at = match find_constant_places(images, required, &anchor) {
        Some(at) => at,
        None => {
            return None;
        },
    };
    let ids = identify_all(images, required, &at);
    let ghost iv = ids.deep_view();
    let least: u64 = match compare_all(&ids) {
        Some(s) => s,
        None => SIM_ONE,
    };
    if ids.len() >= 2 && least < CONST_MIN_CONSISTENCY * SIM_PERCENT {
        return None;
    }
    let sims = compare_to_first(&ids);
    let rows = report_all(images, required, &at, &sims, opts);
    let ev = FingerprintEvidence {
        builds: required.len(),
        min_similarity: least,
        mutual_similarity: least,
        ref_ident: copy_first(&ids),
    };
    assert(ev.deep_view() =~= even_evidence(required@.len() as int, least, first_of(iv)));
    let (scores, reasons) = score_fingerprint(&ev);
    let mut why = starting("relocated across builds by a rare constant (0x");
    push_hex_upper(&mut why, anchor.value);
    why.append(") used by exactly one function per build");
    let reasons = lead_with(why, reasons);
    let mut aob = starting("@constant=0x");
    push_hex_upper(&mut aob, anchor.value);
    let diags: Vec<Diag> = Vec::new();
    assert(diags.deep_view() =~= Seq::<DiagV>::empty());
    Some(relocation(find_packed(images), aob, scores, reasons, rows, diags))
}

/// The least similarity of a fingerprint match, in percent.
pub const FP_MIN_SIMILARITY: u64 = 82;

/// The least lead of a fingerprint match, in percent.
pub const FP_MIN_MARGIN: u64 = 6;

/// The least agreement of the functions a fingerprint matches, in percent.
pub const FP_MIN_MUTUAL: u64 = 82;

/// A function with fewer instructions is too thin to fingerprint.
pub const FP_MIN_INSTRS: usize = 6;

/// The best match of an identity in a build, where it is strong and clearly ahead.
pub open spec fn clear_match(img: &ImageInput, reference: IdentityV) -> Option<
    (usize, u64, IdentityV),
> {
    let b = identity::best_among(
        identity::boundary_identities(img, img.code_regions@.len() as int),
        reference,
    );
    if img.arch != Arch::X86 {
        None
    } else {
        match b.best {
            None => None,
            Some((rva, sim, id)) => if sim >= FP_MIN_SIMILARITY * SIM_PERCENT && sim - b.runner_up
                >= FP_MIN_MARGIN * SIM_PERCENT {
                Some((rva, sim, id))
            } else {
                None
            },
        }
    }
}

/// The clear matches in the first `n` required builds, or `None` where one of them has none.
pub open spec fn clear_matches(
    images: Seq<&ImageInput>,
    required: Seq<usize>,
    reference: IdentityV,
    n: int,
) -> Option<Seq<(usize, u64, IdentityV)>>
    decreases n,
{
    if n <= 0 {
        Some(Seq::empty())
    } else {
        match (
            clear_matches(images, required, reference, n - 1),
            clear_match(images[required[n - 1] as int], reference),
        ) {
            (Some(ms), Some(m)) => Some(ms.push(m)),
            _ => None,
        }
    }
}

proof fn clear_matches_stay_lost(
    images: Seq<&ImageInput>,
    required: Seq<usize>,
    reference: IdentityV,
    m: int,
    n: int,
)
    requires
        0 < m <= n,
        clear_matches(images, required, reference, m) is None,
    ensures
        clear_matches(images, required, reference, n) is None,
    decreases n - m,
{
    if m < n {
        clear_matches_stay_lost(images, required, reference, m, n - 1);
    }
}

/// Where the matches are.
pub open spec fn match_places(ms: Seq<(usize, u64, IdentityV)>) -> Seq<u64> {
    Seq::new(ms.len(), |k: int| ms[k].0 as u64)
}

/// The identities of the matches.
pub open spec fn match_identities(ms: Seq<(usize, u64, IdentityV)>) -> Seq<IdentityV> {
    Seq::new(ms.len(), |k: int| ms[k].2)
}

/// The least similarity of the first `n` matches.
pub open spec fn least_match(ms: Seq<(usize, u64, IdentityV)>, n: int) -> u64
    decreases n,
{
    if n <= 0 {
        SIM_ONE
    } else {
        similarity::least(least_match(ms, n - 1), ms[n - 1].1)
    }
}

/// The candidate that a fingerprint gives.
pub open spec fn fingerprint_candidate(
    images: Seq<&ImageInput>,
    required: Seq<usize>,
    ref_idx: usize,
    ref_rva: u64,
    opts: SigOptions,
) -> Option<SigCandidateV> {
    let img = images[ref_idx as int];
    let reference = identity::identity_at(img, entry_of(images, ref_idx, ref_rva));
    if img.arch != Arch::X86 || reference.instr_count < FP_MIN_INSTRS {
        None
    } else {
        match clear_matches(images, required, reference, required.len() as int) {
            None => None,
            Some(ms) => {
                let ids = match_identities(ms);
                let mutual = landing::mutual_of(ids);
                if mutual < FP_MIN_MUTUAL * SIM_PERCENT {
                    None
                } else {
                    let ev = FingerprintEvidenceV {
                        builds: required.len() as usize,
                        min_similarity: least_match(ms, ms.len() as int),
                        mutual_similarity: mutual,
                        ref_ident: first_of(ids),
                    };
                    Some(
                        landing::relocated(
                            landing::any_packed(images),
                            "@fingerprint="@ + identity::fingerprint_text(reference),
                            scoring::fingerprint_scores(ev),
                            scoring::fingerprint_reasons(ev),
                            landing::full_rows(
                                images,
                                required,
                                match_places(ms),
                                landing::sims_to_first(ids),
                                opts,
                            ),
                            Seq::empty(),
                        ),
                    )
                }
            },
        }
    }
}

struct Matches {
    at: Vec<u64>,
    ids: Vec<FnIdentity>,
    least: u64,
}

fn find_clear_matches(images: &[&ImageInput], required: &[usize], reference: &FnIdentity) -> (r:
    Option<Matches>)
    requires
        chain::usable(images@, required@),
    ensures
        ({
            let found = clear_matches(
                images@,
                required@,
                reference.deep_view(),
                required@.len() as int,
            );
            match r {
                Some(m) => found is Some && m.at@ == match_places(found->0) && m.ids.deep_view()
                    == match_identities(found->0) && m.least == least_match(
                    found->0,
                    found->0.len() as int,
                ) && m.at@.len() == required@.len() && m.ids@.len() == required@.len()
                    && landing::all_reach(images@, required@, m.at@),
                None => found is None,
            }
        }),
{
    let ghost rv = reference.deep_view();
    let mut at: Vec<u64> = Vec::new();
    let mut ids: Vec<FnIdentity> = Vec::new();
    let mut least: u64 = SIM_ONE;
    let ghost mut ms: Seq<(usize, u64, IdentityV)> = Seq::empty();
    let mut n: usize = 0;
    proof {
        assert(ids.deep_view() =~= match_identities(ms));
        assert(at@ =~= match_places(ms));
    }
    while n < required.len()
        invariant
            chain::usable(images@, required@),
            rv == reference.deep_view(),
            n <= required@.len(),
            ms.len() == n,
            at@.len() == n,
            ids@.len() == n,
            landing::all_reach(images@, required@, at@),
            clear_matches(images@, required@, rv, n as int) == Some(ms),
            at@ == match_places(ms),
            ids.deep_view() == match_identities(ms),
            least == least_match(ms, n as int),
        decreases required@.len() - n,
    {
        assert(required@[n as int] < images@.len());
        assert(images@[required@[n as int] as int].wf());
        let img = images[required[n]];
        match best_fingerprint_match(img, reference) {
            Some((rva, sim, runner, id)) if sim >= FP_MIN_SIMILARITY * SIM_PERCENT && sim >= runner
                && sim - runner >= FP_MIN_MARGIN * SIM_PERCENT => {
                let ghost before = ids.deep_view();
                let ghost view = id.deep_view();
                let ghost earlier = ms;
                at.push(rva as u64);
                ids.push(id);
                if sim < least {
                    least = sim;
                }
                proof {
                    ms = ms.push((rva, sim, view));
                    assert(ids.deep_view() =~= before.push(view));
                    assert(ids.deep_view() =~= match_identities(ms));
                    assert(at@ =~= match_places(ms));
                    least_is_of_front(earlier, (rva, sim, view), n as int);
                }
            },
            _ => {
                proof {
                    clear_matches_stay_lost(images@, required@, rv, n + 1, required@.len() as int);
                }
                return None;
            },
        }
        n += 1;
    }
    Some(Matches { at, ids, least })
}

proof fn least_is_of_front(
    ms: Seq<(usize, u64, IdentityV)>,
    m: (usize, u64, IdentityV),
    n: int,
)
    requires
        n <= ms.len(),
    ensures
        least_match(ms.push(m), n) == least_match(ms, n),
    decreases n,
{
    if n > 0 {
        least_is_of_front(ms, m, n - 1);
    }
}

/// Last-resort cross-version relocation by semantic fingerprint. The reference function's identity is
/// matched against every instruction-boundary code window in each build; a build contributes only if its
/// best window clears [`FP_MIN_SIMILARITY`] and leads the runner-up by [`FP_MIN_MARGIN`], and all builds'
/// windows must agree at no less than [`FP_MIN_MUTUAL`]. Declines whenever the evidence is ambiguous or
/// inconsistent. x86 only.
pub fn fingerprint_relocate(
    images: &[&ImageInput],
    required: &[usize],
    ref_idx: usize,
    ref_rva: u64,
    opts: &SigOptions,
) -> (r: Option<SigCandidate>)
    requires
        ready(images@, required@, ref_idx, ref_rva),
    ensures
        r.deep_view() == fingerprint_candidate(images@, required@, ref_idx, ref_rva, *opts),
{
    let img = images[ref_idx];
    assert(images@[ref_idx as int].wf());
    if img.arch != Arch::X86 {
        return None;
    }
    let entry: usize = enclosing_function(img, ref_rva as usize);
    let reference = fn_identity(img, entry);
    if reference.instr_count < FP_MIN_INSTRS {
        return None;
    }
    let m = match find_clear_matches(images, required, &reference) {
        Some(m) => m,
        None => {
            return None;
        },
    };
    let mutual: u64 = match compare_all(&m.ids) {
        Some(s) => s,
        None => SIM_ONE,
    };
    if mutual < FP_MIN_MUTUAL * SIM_PERCENT {
        return None;
    }
    let sims = compare_to_first(&m.ids);
    let rows = report_all(images, required, &m.at, &sims, opts);
    let ev = FingerprintEvidence {
        builds: required.len(),
        min_similarity: m.least,
        mutual_similarity: mutual,
        ref_ident: copy_first(&m.ids),
    };
    let (scores, reasons) = score_fingerprint(&ev);
    let mut aob = starting("@fingerprint=");
    let print = reference.fingerprint();
    aob.append(print.as_str());
    let diags: Vec<Diag> = Vec::new();
    assert(diags.deep_view() =~= Seq::<DiagV>::empty());
    Some(relocation(find_packed(images), aob, scores, reasons, rows, diags))
}

/// The least similarity of an encoding match, in percent.
pub const ENC_MIN_SIMILARITY: u64 = 95;

/// The least lead of an encoding match, in percent.
pub const ENC_MIN_MARGIN: u64 = 2;

/// The least agreement of the windows an encoding matches, in percent.
pub const ENC_MIN_MUTUAL: u64 = 92;

/// A shorter stream is too short to be a distinctive identity.
pub const ENC_MIN_STREAM: usize = 10;

/// The best match of an encoding stream in a build, where it is near-exact, alone and ahead.
pub open spec fn clear_encoding(img: &ImageInput, reference: Seq<u64>) -> Option<(usize, u64)> {
    let m = encoding::encoding_match(img, reference);
    if img.arch != Arch::X86 || reference.len() == 0 {
        None
    } else {
        match m.best {
            None => None,
            Some((rva, sim)) => if sim >= ENC_MIN_SIMILARITY * SIM_PERCENT && m.ties == 1 && sim
                - m.runner_up >= ENC_MIN_MARGIN * SIM_PERCENT {
                Some((rva, sim))
            } else {
                None
            },
        }
    }
}

/// The clear encoding matches in the first `n` required builds, or `None` where one of them has none.
pub open spec fn clear_encodings(
    images: Seq<&ImageInput>,
    required: Seq<usize>,
    reference: Seq<u64>,
    n: int,
) -> Option<Seq<(usize, u64)>>
    decreases n,
{
    if n <= 0 {
        Some(Seq::empty())
    } else {
        match (
            clear_encodings(images, required, reference, n - 1),
            clear_encoding(images[required[n - 1] as int], reference),
        ) {
            (Some(ms), Some(m)) => Some(ms.push(m)),
            _ => None,
        }
    }
}

proof fn clear_encodings_stay_lost(
    images: Seq<&ImageInput>,
    required: Seq<usize>,
    reference: Seq<u64>,
    m: int,
    n: int,
)
    requires
        0 < m <= n,
        clear_encodings(images, required, reference, m) is None,
    ensures
        clear_encodings(images, required, reference, n) is None,
    decreases n - m,
{
    if m < n {
        clear_encodings_stay_lost(images, required, reference, m, n - 1);
    }
}

/// Where the encodings match.
pub open spec fn encoding_places(ms: Seq<(usize, u64)>) -> Seq<u64> {
    Seq::new(ms.len(), |k: int| ms[k].0 as u64)
}

/// The streams at the places.
pub open spec fn streams_at(images: Seq<&ImageInput>, required: Seq<usize>, at: Seq<u64>) -> Seq<
    Seq<u64>,
> {
    Seq::new(at.len(), |k: int| encoding::shapes_at(images[required[k] as int], at[k] as int))
}

/// The least similarity of the first `n` encoding matches.
pub open spec fn least_encoding(ms: Seq<(usize, u64)>, n: int) -> u64
    decreases n,
{
    if n <= 0 {
        SIM_ONE
    } else {
        similarity::least(least_encoding(ms, n - 1), ms[n - 1].1)
    }
}

/// The least similarity of the first `n` streams to the first.
pub open spec fn least_stream(streams: Seq<Seq<u64>>, n: int) -> u64
    decreases n,
{
    if n <= 1 {
        SIM_ONE
    } else {
        similarity::least(
            least_stream(streams, n - 1),
            encoding::shape_similarity(streams[0], streams[n - 1]) as u64,
        )
    }
}

/// The similarity of each stream but the first to the first.
pub open spec fn stream_sims(streams: Seq<Seq<u64>>) -> Seq<Option<u64>> {
    Seq::new(
        streams.len(),
        |k: int|
            if k == 0 {
                None
            } else {
                Some(encoding::shape_similarity(streams[0], streams[k]) as u64)
            },
    )
}

/// The written form of an encoding stream: how long it is and what it hashes to.
pub open spec fn encoding_aob(stream: Seq<u64>) -> Seq<char> {
    scoring::counted("@encoding="@, stream.len() as int, ":"@) + text::hex_fixed(
        encoding::hashed(FNV_OFFSET, stream) as nat,
        16,
    )
}

/// The candidate that an encoding fingerprint gives.
pub open spec fn encoding_candidate(
    images: Seq<&ImageInput>,
    required: Seq<usize>,
    ref_idx: usize,
    ref_rva: u64,
    opts: SigOptions,
) -> Option<SigCandidateV> {
    let img = images[ref_idx as int];
    let reference = encoding::shapes_at(img, ref_rva as int);
    if reference.len() < ENC_MIN_STREAM {
        None
    } else {
        match clear_encodings(images, required, reference, required.len() as int) {
            None => None,
            Some(ms) => {
                let at = encoding_places(ms);
                let streams = streams_at(images, required, at);
                let mutual = least_stream(streams, streams.len() as int);
                let least = least_encoding(ms, ms.len() as int);
                if streams.len() >= 2 && mutual < ENC_MIN_MUTUAL * SIM_PERCENT {
                    None
                } else {
                    let ev = FingerprintEvidenceV {
                        builds: required.len() as usize,
                        min_similarity: least,
                        mutual_similarity: if streams.len() >= 2 {
                            mutual
                        } else {
                            least
                        },
                        ref_ident: Some(identity::identity_at(img, ref_rva as int)),
                    };
                    Some(
                        landing::relocated(
                            landing::any_packed(images),
                            encoding_aob(reference),
                            scoring::fingerprint_scores(ev),
                            seq![
                                "relocated across builds by instruction-encoding fingerprint (registers and operand sizes, immediate/displacement values masked)"@,
                            ] + scoring::fingerprint_reasons(ev),
                            landing::full_rows(images, required, at, stream_sims(streams), opts),
                            Seq::empty(),
                        ),
                    )
                }
            },
        }
    }
}

fn find_clear_encodings(images: &[&ImageInput], required: &[usize], reference: &Vec<u64>) -> (r:
    Option<(Vec<u64>, u64)>)
    requires
        chain::usable(images@, required@),
    ensures
        ({
            let found = clear_encodings(images@, required@, reference@, required@.len() as int);
            match r {
                Some((at, least)) => found is Some && at@ == encoding_places(found->0) && least
                    == least_encoding(found->0, found->0.len() as int) && at@.len()
                    == required@.len() && landing::all_reach(images@, required@, at@),
                None => found is None,
            }
        }),
{
    let mut at: Vec<u64> = Vec::new();
    let mut least: u64 = SIM_ONE;
    let ghost mut ms: Seq<(usize, u64)> = Seq::empty();
    let mut n: usize = 0;
    assert(at@ =~= encoding_places(ms));
    while n < required.len()
        invariant
            chain::usable(images@, required@),
            n <= required@.len(),
            ms.len() == n,
            at@.len() == n,
            landing::all_reach(images@, required@, at@),
            clear_encodings(images@, required@, reference@, n as int) == Some(ms),
            at@ == encoding_places(ms),
            least == least_encoding(ms, n as int),
        decreases required@.len() - n,
    {
        assert(required@[n as int] < images@.len());
        assert(images@[required@[n as int] as int].wf());
        let img = images[required[n]];
        match best_encoding_match(img, reference.as_slice()) {
            Some((rva, sim, runner, ties)) if sim >= ENC_MIN_SIMILARITY * SIM_PERCENT && ties == 1
                && sim >= runner && sim - runner >= ENC_MIN_MARGIN * SIM_PERCENT => {
                let ghost earlier = ms;
                at.push(rva as u64);
                if sim < least {
                    least = sim;
                }
                proof {
                    ms = ms.push((rva, sim));
                    assert(at@ =~= encoding_places(ms));
                    least_encoding_is_of_front(earlier, (rva, sim), n as int);
                }
            },
            _ => {
                proof {
                    clear_encodings_stay_lost(
                        images@,
                        required@,
                        reference@,
                        n + 1,
                        required@.len() as int,
                    );
                }
                return None;
            },
        }
        n += 1;
    }
    Some((at, least))
}

proof fn least_encoding_is_of_front(ms: Seq<(usize, u64)>, m: (usize, u64), n: int)
    requires
        n <= ms.len(),
    ensures
        least_encoding(ms.push(m), n) == least_encoding(ms, n),
    decreases n,
{
    if n > 0 {
        least_encoding_is_of_front(ms, m, n - 1);
    }
}

fn read_streams(images: &[&ImageInput], required: &[usize], at: &Vec<u64>) -> (streams: Vec<Vec<u64>>)
    requires
        chain::usable(images@, required@),
        landing::all_reach(images@, required@, at@),
    ensures
        streams.deep_view() == streams_at(images@, required@, at@),
        streams@.len() == at@.len(),
{
    let ghost all = streams_at(images@, required@, at@);
    let mut streams: Vec<Vec<u64>> = Vec::new();
    let mut k: usize = 0;
    assert(streams.deep_view() =~= all.take(0));
    while k < at.len()
        invariant
            chain::usable(images@, required@),
            landing::all_reach(images@, required@, at@),
            all == streams_at(images@, required@, at@),
            k <= at@.len(),
            streams@.len() == k,
            streams.deep_view() == all.take(k as int),
        decreases at@.len() - k,
    {
        assert(required@[k as int] < images@.len());
        assert(images@[required@[k as int] as int].reaches(at@[k as int] as int));
        let ghost before = streams.deep_view();
        let s = encoding_stream(images[required[k]], at[k] as usize);
        streams.push(s);
        k += 1;
        proof {
            assert(s.deep_view() =~= s@);
            assert(streams.deep_view() =~= before.push(s@));
            assert(streams.deep_view() =~= all.take(k as int));
        }
    }
    assert(all.take(k as int) =~= all);
    streams
}

fn compare_streams(streams: &Vec<Vec<u64>>) -> (r: (Vec<Option<u64>>, u64))
    ensures
        r.0@ == stream_sims(streams.deep_view()),
        r.0@.len() == streams@.len(),
        r.1 == least_stream(streams.deep_view(), streams@.len() as int),
{
    let ghost sv = streams.deep_view();
    let ghost all = stream_sims(sv);
    let mut sims: Vec<Option<u64>> = Vec::new();
    let mut least: u64 = SIM_ONE;
    let mut k: usize = 0;
    while k < streams.len()
        invariant
            sv == streams.deep_view(),
            all == stream_sims(sv),
            k <= streams@.len(),
            sims@ == all.take(k as int),
            least == least_stream(sv, k as int),
        decreases streams@.len() - k,
    {
        proof {
            assert(sv[0] =~= streams@[0]@);
            assert(sv[k as int] =~= streams@[k as int]@);
        }
        if k == 0 {
            sims.push(None);
        } else {
            let s: u64 = encoding_similarity(streams[0].as_slice(), streams[k].as_slice());
            sims.push(Some(s));
            if s < least {
                least = s;
            }
        }
        k += 1;
        assert(sims@ =~= all.take(k as int));
    }
    assert(sims@ =~= all);
    (sims, least)
}

/// Cross-version relocation by instruction-encoding fingerprint, for a function whose mnemonic stream
/// ties across template-instanced siblings but whose per-instance register and operand-size signature is
/// unique. The reference window is taken at the match site itself, its encoding stream is matched against
/// every build, and a candidate is emitted only when each build has a single unambiguous high match and
/// the relocated windows agree across builds.
pub fn encoding_relocate(
    images: &[&ImageInput],
    required: &[usize],
    ref_idx: usize,
    ref_rva: u64,
    opts: &SigOptions,
) -> (r: Option<SigCandidate>)
    requires
        ready(images@, required@, ref_idx, ref_rva),
    ensures
        r.deep_view() == encoding_candidate(images@, required@, ref_idx, ref_rva, *opts),
{
    let img = images[ref_idx];
    assert(images@[ref_idx as int].wf());
    let reference = encoding_stream(img, ref_rva as usize);
    if reference.len() < ENC_MIN_STREAM {
        return None;
    }
    let (at, least) = match find_clear_encodings(images, required, &reference) {
        Some(found) => found,
        None => {
            return None;
        },
    };
    let streams = read_streams(images, required, &at);
    let (sims, mutual) = compare_streams(&streams);
    if streams.len() >= 2 && mutual < ENC_MIN_MUTUAL * SIM_PERCENT {
        return None;
    }
    let rows = report_all(images, required, &at, &sims, opts);
    let ev = FingerprintEvidence {
        builds: required.len(),
        min_similarity: least,
        mutual_similarity: if streams.len() >= 2 {
            mutual
        } else {
            least
        },
        ref_ident: Some(fn_identity(img, ref_rva as usize)),
    };
    let (scores, reasons) = score_fingerprint(&ev);
    let reasons = lead_with(
        starting(
            "relocated across builds by instruction-encoding fingerprint (registers and operand sizes, immediate/displacement values masked)",
        ),
        reasons,
    );
    let mut aob = scoring::count_text("@encoding=", reference.len() as u64, ":");
    push_hex_fixed(&mut aob, hash_values(FNV_OFFSET, reference.as_slice()), 16);
    let diags: Vec<Diag> = Vec::new();
    assert(diags.deep_view() =~= Seq::<DiagV>::empty());
    Some(relocation(find_packed(images), aob, scores, reasons, rows, diags))
}

/// How similar a window must be to make the list, in percent.
pub const SHORTLIST_FLOOR: u64 = 65;

/// How many windows are listed.
pub const SHORTLIST_K: usize = 10;

/// The limits on a listed signature: long enough to reach the tail that tells a family apart.
pub open spec fn listing_options(opts: SigOptions) -> SigOptions {
    SigOptions {
        max_len: if opts.max_len < 256 {
            256
        } else {
            opts.max_len
        },
        ..opts
    }
}

/// The windows of a build that look like the target, best first.
pub open spec fn lookalikes(img: &ImageInput, reference: IdentityV) -> Seq<(usize, u64)> {
    if img.arch == Arch::X86 {
        identity::spread_from(
            identity::ranked(
                identity::boundary_identities(img, img.code_regions@.len() as int),
                reference,
                SHORTLIST_FLOOR * SIM_PERCENT,
            ),
            0,
            Seq::empty(),
            SHORTLIST_K as int,
        )
    } else {
        Seq::empty()
    }
}

/// The list of a build.
pub open spec fn listed(img: &ImageInput, top: Seq<(usize, u64)>, opts: SigOptions) -> ShortlistV {
    ShortlistV {
        label: img.label@,
        entries: Seq::new(
            top.len(),
            |k: int|
                ShortlistEntryV {
                    rva: top[k].0 as u64,
                    similarity: top[k].1,
                    aob: bytepath::build_aob(img, top[k].0 as int, opts),
                },
        ),
    }
}

/// The lists of the first `n` required builds: none for the reference build, and none where nothing
/// looks like the target.
pub open spec fn lists(
    images: Seq<&ImageInput>,
    required: Seq<usize>,
    ref_idx: usize,
    reference: IdentityV,
    opts: SigOptions,
    n: int,
) -> Seq<ShortlistV>
    decreases n,
{
    if n <= 0 {
        Seq::empty()
    } else {
        let before = lists(images, required, ref_idx, reference, opts, n - 1);
        let img = images[required[n - 1] as int];
        let top = lookalikes(img, reference);
        if required[n - 1] == ref_idx || top.len() == 0 {
            before
        } else {
            before.push(listed(img, top, opts))
        }
    }
}

/// The lists that a run without a candidate gives.
pub open spec fn shortlists(
    images: Seq<&ImageInput>,
    required: Seq<usize>,
    ref_idx: usize,
    ref_rva: u64,
    opts: SigOptions,
) -> Seq<ShortlistV> {
    let img = images[ref_idx as int];
    let reference = identity::identity_at(img, entry_of(images, ref_idx, ref_rva));
    if img.arch != Arch::X86 || reference.instr_count < FP_MIN_INSTRS {
        Seq::empty()
    } else {
        lists(
            images,
            required,
            ref_idx,
            reference,
            listing_options(opts),
            required.len() as int,
        )
    }
}

fn list_build(img: &ImageInput, top: &Vec<(usize, u64)>, opts: &SigOptions) -> (l: Shortlist)
    requires
        img.wf(),
    ensures
        l.deep_view() == listed(img, top@, *opts),
{
    let ghost all = listed(img, top@, *opts).entries;
    let mut entries: Vec<ShortlistEntry> = Vec::new();
    let mut k: usize = 0;
    assert(entries.deep_view() =~= all.take(0));
    while k < top.len()
        invariant
            img.wf(),
            all == listed(img, top@, *opts).entries,
            k <= top@.len(),
            entries.deep_view() == all.take(k as int),
        decreases top@.len() - k,
    {
        let ghost before = entries.deep_view();
        let e = ShortlistEntry {
            rva: top[k].0 as u64,
            similarity: top[k].1,
            aob: single_build_aob(img, top[k].0, opts),
        };
        let ghost ev = e.deep_view();
        entries.push(e);
        k += 1;
        proof {
            assert(entries.deep_view() =~= before.push(ev));
            assert(entries.deep_view() =~= all.take(k as int));
        }
    }
    assert(all.take(k as int) =~= all);
    Shortlist { label: img.label.clone(), entries }
}

/// When no anchor pinned the function uniquely, build a per-build shortlist of the structural
/// near-duplicates it belongs to, each with a freshly minted signature. It cannot say which window is the
/// function, but it hands back the small family to tell apart by hand or at run time. x86 only.
pub fn relocation_shortlists(
    images: &[&ImageInput],
    required: &[usize],
    ref_idx: usize,
    ref_rva: u64,
    opts: &SigOptions,
) -> (out: Vec<Shortlist>)
    requires
        ready(images@, required@, ref_idx, ref_rva),
    ensures
        out.deep_view() == shortlists(images@, required@, ref_idx, ref_rva, *opts),
{
    let mut out: Vec<Shortlist> = Vec::new();
    assert(out.deep_view() =~= Seq::<ShortlistV>::empty());
    let img = images[ref_idx];
    assert(images@[ref_idx as int].wf());
    if img.arch != Arch::X86 {
        return out;
    }
    let entry: usize = enclosing_function(img, ref_rva as usize);
    let reference = fn_identity(img, entry);
    if reference.instr_count < FP_MIN_INSTRS {
        return out;
    }
    let ghost rv = reference.deep_view();
    let max_len: usize = if opts.max_len < 256 {
        256
    } else {
        opts.max_len
    };
    let wider = SigOptions {
        max_len,
        min_fixed: opts.min_fixed,
        min_fixed_ratio: opts.min_fixed_ratio,
    };
    assert(wider == listing_options(*opts));
    let mut n: usize = 0;
    while n < required.len()
        invariant
            chain::usable(images@, required@),
            rv == reference.deep_view(),
            n <= required@.len(),
            out.deep_view() == lists(images@, required@, ref_idx, rv, wider, n as int),
        decreases required@.len() - n,
    {
        assert(required@[n as int] < images@.len());
        assert(images@[required@[n as int] as int].wf());
        let img = images[required[n]];
        if required[n] != ref_idx {
            let top = fingerprint_topk(img, &reference, SHORTLIST_K, SHORTLIST_FLOOR * SIM_PERCENT);
            if top.len() > 0 {
                let ghost before = out.deep_view();
                let l = list_build(img, &top, &wider);
                let ghost lv = l.deep_view();
                out.push(l);
                assert(out.deep_view() =~= before.push(lv));
            }
        }
        n += 1;
    }
    out
}

}
