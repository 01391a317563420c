//! What a generated signature promises.

use crate::pattern;
use crate::scanner;
use crate::sigmaker::bytepath;
use crate::sigmaker::bytepath::{Anchor, SweepV};
use crate::sigmaker::cache;
use crate::sigmaker::candidates;
use crate::sigmaker::candidates::Attempt;
use crate::sigmaker::channels;
use crate::sigmaker::channels::Channel;
use crate::sigmaker::entropy;
use crate::sigmaker::identity;
use crate::sigmaker::identity::IdentityV;
use crate::sigmaker::landing;
use crate::sigmaker::partial;
use crate::sigmaker::relocate;
use crate::sigmaker::similarity::SIM_PERCENT;
use crate::sigmaker::generate;
use crate::sigmaker::generate::AimV;
use crate::sigmaker::scoring;
use crate::sigmaker::scoring::{AnchorKind, EvidenceV, SimilarityBand, StringEvidenceV};
use crate::sigmaker::types::{DiagV, Grade, ImageInput, SigCandidateV, SigOptions, Suffix, TargetKind};
use crate::sigmaker::types::TargetSpecV;
use crate::sigmaker::window;
use crate::sigmaker::window::InstrMaskV;
use vstd::prelude::*;

verus! {

/// The two byte strings agree where the mask fixes them.
pub open spec fn alike(a: Seq<u8>, b: Seq<u8>, mask: Seq<bool>) -> bool {
    a.len() == b.len() && forall|k: int| 0 <= k < a.len() && mask[k] ==> #[trigger] a[k] == b[k]
}

proof fn hits_ignore_wildcards(hay: Seq<u8>, from: int, a: Seq<u8>, b: Seq<u8>, mask: Seq<bool>)
    requires
        alike(a, b, mask),
    ensures
        scanner::hits_from(hay, from, a, mask) == scanner::hits_from(hay, from, b, mask),
    decreases hay.len() - from,
{
    if 0 <= from < hay.len() {
        hits_ignore_wildcards(hay, from + 1, a, b, mask);
        if scanner::hit(hay, from, a, mask) {
            assert forall|k: int| 0 <= k < b.len() && mask[k] implies #[trigger] hay[from + k] == b[k] by {
                assert(a[k] == b[k]);
            }
        }
        if scanner::hit(hay, from, b, mask) {
            assert forall|k: int| 0 <= k < a.len() && mask[k] implies #[trigger] hay[from + k] == a[k] by {
                assert(a[k] == b[k]);
            }
        }
    }
}

proof fn sightings_ignore_wildcards(
    base: int,
    regions: cache::RegionsV,
    a: Seq<u8>,
    b: Seq<u8>,
    mask: Seq<bool>,
    n: int,
)
    requires
        alike(a, b, mask),
    ensures
        cache::sightings(base, regions, a, mask, n) == cache::sightings(base, regions, b, mask, n),
    decreases n,
{
    if n > 0 {
        sightings_ignore_wildcards(base, regions, a, b, mask, n - 1);
        hits_ignore_wildcards(regions[n - 1].1, 0, a, b, mask);
    }
}

/// The bytes under the wildcards of a pattern play no part in where it is found.
pub proof fn wildcards_match_anything(img: &ImageInput, a: Seq<u8>, b: Seq<u8>, mask: Seq<bool>)
    requires
        alike(a, b, mask),
    ensures
        cache::located(img, a, mask) == cache::located(img, b, mask),
{
    sightings_ignore_wildcards(
        img.base as int,
        cache::code_of(img),
        a,
        b,
        mask,
        img.code_regions@.len() as int,
    );
}

/// The text is a pattern that is found exactly once in each of the builds, where the rows say.
pub open spec fn found_once(
    images: Seq<&ImageInput>,
    required: Seq<usize>,
    c: SigCandidateV,
) -> bool {
    &&& pattern::parsed(c.aob) is Some
    &&& c.per_version.len() == required.len()
    &&& forall|k: int|
        0 <= k < required.len() ==> (#[trigger] c.per_version[k]).match_rva is Some
            && cache::located(
            images[required[k] as int],
            pattern::bytes_of(pattern::parsed(c.aob)->0),
            pattern::mask_of(pattern::parsed(c.aob)->0),
        ) == (1usize, c.per_version[k].match_rva)
}

pub(crate) proof fn one_sighting_has_a_place(img: &ImageInput, bytes: Seq<u8>, mask: Seq<bool>)
    ensures
        cache::located(img, bytes, mask).0 == 1 ==> cache::located(img, bytes, mask).1 is Some,
{
    let all = cache::sightings(
        img.base as int,
        cache::code_of(img),
        bytes,
        mask,
        img.code_regions@.len() as int,
    );
    if all.len() > 0 {
        assert(cache::least_of(all) is Some);
    }
}

proof fn sweep_is_of_matches(
    images: Seq<&ImageInput>,
    required: Seq<usize>,
    bytes: Seq<u8>,
    fixed: Seq<bool>,
    anchor: Anchor,
    n: int,
)
    requires
        0 <= n <= required.len(),
    ensures
        ({
            let s = bytepath::swept(images, required, bytes, fixed, anchor, n);
            &&& s.rows.len() == n
            &&& s.unique ==> forall|k: int|
                0 <= k < n ==> cache::located(images[required[k] as int], bytes, fixed) == (
                    1usize,
                    (#[trigger] s.rows[k]).match_rva,
                )
        }),
    decreases n,
{
    if n > 0 {
        sweep_is_of_matches(images, required, bytes, fixed, anchor, n - 1);
        let before = bytepath::swept(images, required, bytes, fixed, anchor, n - 1);
        let s = bytepath::swept(images, required, bytes, fixed, anchor, n);
        assert(s.rows.drop_last() =~= before.rows);
        assert forall|k: int| 0 <= k < n - 1 implies s.rows[k] == before.rows[k] by {
            assert(s.rows.drop_last()[k] == before.rows[k]);
        }
    }
}

proof fn survivors_keep_length(
    images: Seq<&ImageInput>,
    required: Seq<usize>,
    sites: Seq<u64>,
    ref_idx: int,
    bytes: Seq<u8>,
    fixed: Seq<bool>,
    n: int,
)
    ensures
        ({
            let left = bytepath::survived(images, required, sites, ref_idx, bytes, fixed, n);
            left.len() == fixed.len() && forall|k: int|
                0 <= k < fixed.len() && #[trigger] left[k] ==> fixed[k]
        }),
    decreases n,
{
    if n > 0 {
        survivors_keep_length(images, required, sites, ref_idx, bytes, fixed, n - 1);
    }
}

proof fn entropy_is_a_percentage(bytes: Seq<u8>, fixed: nat, k: nat)
    requires
        k <= 100,
    ensures
        entropy::greatest_from(bytes, fixed, k) <= 100,
    decreases 100 - k,
{
    if k < 100 && entropy::reaches(bytes, fixed, k + 1) {
        entropy_is_a_percentage(bytes, fixed, k + 1);
    }
}

/// A candidate scores an A only by validated content: not rejected, not packed, with every target
/// resolved, and either a branch to code in every build whose callees do not diverge, or a RIP-relative
/// reference to code of one kind throughout whose callees match.
pub proof fn grade_a_is_validated(ev: EvidenceV, gated: bool)
    requires
        ev.is_anchor == (ev.anchor != AnchorKind::Direct),
        ev.all_code ==> ev.first_kind is None || ev.first_kind == Some(TargetKind::Code),
        scoring::graded(scoring::scores_of(ev).final_score as int, gated, ev.packed) == Grade::A,
    ensures
        !gated,
        !ev.packed,
        !ev.any_unresolved,
        ev.first_kind == Some(TargetKind::Code),
        scoring::band_of(ev.callee_similarity) != Some(SimilarityBand::Low),
        (ev.anchor == AnchorKind::Branch && ev.all_code) || (ev.anchor == AnchorKind::RipPtr
            && ev.kinds_consistent && scoring::trusted(ev.callee_similarity)),
{
    entropy_is_a_percentage(ev.fixed_bytes, ev.fixed_n as nat, 0);
    let s = scoring::scores_of(ev);
    assert(s.entropy <= 100);
    assert(s.uniqueness <= 100);
    assert(s.stability <= 100);
    assert(s.cross_build <= 100);
    assert(s.semantic <= 100);
    assert(s.final_score >= 82);
}

/// What a sweep records of targets that it resolved in every build.
pub open spec fn recorded(s: SweepV, n: int) -> bool {
    &&& s.kinds.len() == n
    &&& s.rows.len() == n
    &&& forall|k: int| 0 <= k < n ==> (#[trigger] s.rows[k]).target_kind == Some(s.kinds[k])
    &&& s.all_code ==> forall|k: int| 0 <= k < n ==> #[trigger] s.kinds[k] == TargetKind::Code
    &&& (forall|k: int| 0 <= k < n ==> #[trigger] s.kinds[k] == TargetKind::Code) ==> {
        &&& s.idents.len() == n
        &&& forall|k: int|
            0 <= k < n ==> (#[trigger] s.rows[k]).fingerprint_similarity == if k == 0 {
                None
            } else {
                Some(identity::likeness(s.idents[0], s.idents[k]) as u64)
            }
    }
}

proof fn resolved_sweep_is_recorded(
    images: Seq<&ImageInput>,
    required: Seq<usize>,
    bytes: Seq<u8>,
    fixed: Seq<bool>,
    anchor: Anchor,
    n: int,
)
    requires
        anchor != Anchor::Direct,
        0 <= n <= required.len(),
    ensures
        ({
            let s = bytepath::swept(images, required, bytes, fixed, anchor, n);
            s.unique && !s.unresolved ==> recorded(s, n)
        }),
    decreases n,
{
    if n > 0 {
        resolved_sweep_is_recorded(images, required, bytes, fixed, anchor, n - 1);
        let b = bytepath::swept(images, required, bytes, fixed, anchor, n - 1);
        let s = bytepath::swept(images, required, bytes, fixed, anchor, n);
        let img = images[required[n - 1] as int];
        one_sighting_has_a_place(img, bytes, fixed);
        if s.unique && !s.unresolved {
            assert(recorded(b, n - 1));
            assert(s.rows.drop_last() =~= b.rows);
            assert(s.kinds.drop_last() =~= b.kinds);
            assert forall|k: int| 0 <= k < n implies (#[trigger] s.rows[k]).target_kind == Some(
                s.kinds[k],
            ) by {
                if k < n - 1 {
                    assert(s.rows[k] == b.rows[k]);
                    assert(s.kinds[k] == b.kinds[k]);
                }
            }
            if s.all_code {
                assert forall|k: int| 0 <= k < n implies #[trigger] s.kinds[k] == TargetKind::Code by {
                    if k < n - 1 {
                        assert(s.kinds[k] == b.kinds[k]);
                    }
                }
            }
            if forall|k: int| 0 <= k < n ==> #[trigger] s.kinds[k] == TargetKind::Code {
                assert forall|k: int| 0 <= k < n - 1 implies #[trigger] b.kinds[k]
                    == TargetKind::Code by {
                    assert(s.kinds[k] == b.kinds[k]);
                }
                assert(s.kinds[n - 1] == TargetKind::Code);
                assert(s.idents.drop_last() =~= b.idents);
                assert forall|k: int| 0 <= k < n implies (
                #[trigger] s.rows[k]).fingerprint_similarity == (if k == 0 {
                    None
                } else {
                    Some(identity::likeness(s.idents[0], s.idents[k]) as u64)
                }) by {
                    if k < n - 1 {
                        assert(s.rows[k] == b.rows[k]);
                        assert(s.idents[k] == b.idents[k]);
                    }
                }
            }
        }
    }
}

proof fn least_is_below_each(ids: Seq<IdentityV>, n: int, k: int)
    requires
        1 <= k < n <= ids.len(),
    ensures
        scoring::least_likeness(ids, n) <= identity::likeness(ids[0], ids[k]) as u64,
    decreases n,
{
    if k < n - 1 {
        least_is_below_each(ids, n - 1, k);
    }
}

/// The least similarity, in percent, that the callees behind an anchor have in a candidate graded A.
pub open spec fn least_match(anchor: Anchor) -> u64 {
    if anchor == Anchor::Branch {
        scoring::SIMILARITY_MEDIUM
    } else {
        scoring::SIMILARITY_HIGH
    }
}

/// The content of a candidate is validated: its match leads to code in every build, and the callees are
/// like the first.
pub open spec fn validated(anchor: Anchor, c: SigCandidateV) -> bool {
    &&& anchor == Anchor::Branch || anchor == (Anchor::Ptr { rip: true })
    &&& !c.packed
    &&& !c.gated
    &&& forall|k: int|
        0 <= k < c.per_version.len() ==> (#[trigger] c.per_version[k]).target_kind == Some(
            TargetKind::Code,
        ) && c.per_version[k].resolved_target_rva is Some && (
        c.per_version[k].fingerprint_similarity matches Some(s) ==> s >= least_match(anchor)
            * SIM_PERCENT)
}

proof fn finalized_a_is_validated(
    images: Seq<&ImageInput>,
    required: Seq<usize>,
    ref_idx: int,
    bytes: Seq<u8>,
    base_fixed: Seq<bool>,
    operand: Seq<bool>,
    unsupported: Option<(usize, u8)>,
    sites: Seq<u64>,
    suffix: Suffix,
    anchor: Anchor,
    packed: bool,
    opts: SigOptions,
)
    ensures
        bytepath::finalized_from(
            images,
            required,
            ref_idx,
            bytes,
            base_fixed,
            operand,
            unsupported,
            sites,
            suffix,
            anchor,
            packed,
            opts,
        ) matches Some(c) ==> (c.grade == Grade::A ==> validated(anchor, c)),
{
    if let Some(c) = bytepath::finalized_from(
        images,
        required,
        ref_idx,
        bytes,
        base_fixed,
        operand,
        unsupported,
        sites,
        suffix,
        anchor,
        packed,
        opts,
    ) {
        if c.grade == Grade::A {
            let n = required.len() as int;
            let fixed = bytepath::survived(images, required, sites, ref_idx, bytes, base_fixed, n);
            let s = bytepath::swept(images, required, bytes, fixed, anchor, n);
            let barred = bytepath::gates(fixed, operand, unsupported, opts);
            let ev = bytepath::evidence_of(
                bytes,
                base_fixed,
                fixed,
                operand,
                s,
                anchor,
                unsupported,
                packed,
                required.len() as usize,
            );
            sweep_marks_other_kinds(images, required, bytes, fixed, anchor, n);
            grade_a_is_validated(ev, barred.len() > 0);
            resolved_sweep_is_recorded(images, required, bytes, fixed, anchor, n);
            assert(recorded(s, n));
            assert forall|k: int| 0 <= k < n implies #[trigger] s.kinds[k] == TargetKind::Code by {
                if !s.all_code {
                    assert(s.kinds[k] == s.kinds[0]);
                }
            }
            rows_resolve(images, required, bytes, fixed, anchor, n);
            assert forall|k: int| 0 <= k < n implies (#[trigger] c.per_version[k]).target_kind
                == Some(TargetKind::Code) && c.per_version[k].resolved_target_rva is Some && (
            c.per_version[k].fingerprint_similarity matches Some(sim) ==> sim >= least_match(anchor)
                * SIM_PERCENT) by {
                assert(s.kinds[k] == TargetKind::Code);
                if k > 0 {
                    least_is_below_each(s.idents, n, k);
                }
            }
        }
    }
}

proof fn sweep_marks_other_kinds(
    images: Seq<&ImageInput>,
    required: Seq<usize>,
    bytes: Seq<u8>,
    fixed: Seq<bool>,
    anchor: Anchor,
    n: int,
)
    ensures
        ({
            let s = bytepath::swept(images, required, bytes, fixed, anchor, n);
            s.all_code ==> forall|k: int|
                0 <= k < s.kinds.len() ==> #[trigger] s.kinds[k] == TargetKind::Code
        }),
    decreases n,
{
    if n > 0 {
        sweep_marks_other_kinds(images, required, bytes, fixed, anchor, n - 1);
    }
}

proof fn rows_resolve(
    images: Seq<&ImageInput>,
    required: Seq<usize>,
    bytes: Seq<u8>,
    fixed: Seq<bool>,
    anchor: Anchor,
    n: int,
)
    ensures
        ({
            let s = bytepath::swept(images, required, bytes, fixed, anchor, n);
            forall|k: int|
                0 <= k < s.rows.len() && (#[trigger] s.rows[k]).target_kind is Some
                    ==> s.rows[k].resolved_target_rva is Some
        }),
    decreases n,
{
    if n > 0 {
        rows_resolve(images, required, bytes, fixed, anchor, n - 1);
    }
}

/// The pattern of a candidate, cut at a site of a build: its text, and wildcards wherever the
/// instructions there have an operand or the loader patches the image.
pub open spec fn cut_at(
    img: &ImageInput,
    a: Attempt,
    c: SigCandidateV,
    bytes: Seq<u8>,
    fixed: Seq<bool>,
) -> bool {
    let masks = window::masks_of(
        img,
        bytepath::window_at(img, a.site_rva as int, a.opts),
        a.site_rva as int,
        a.opts.max_len,
    );
    &&& bytes.len() == fixed.len()
    &&& bytes.len() > 0
    &&& bytes == bytepath::window_at(img, a.site_rva as int, a.opts).take(bytes.len() as int)
    &&& c.aob == pattern::aob_text(bytes, fixed)
    &&& forall|k: int|
        0 <= k < fixed.len() && k < window::all_fixed(masks).len() && #[trigger] fixed[k] ==> window::all_fixed(
            masks,
        )[k]
}

/// A candidate that keeps the promises: unique in every build, and cut at the site of the attempt.
pub open spec fn sound(
    images: Seq<&ImageInput>,
    required: Seq<usize>,
    a: Attempt,
    c: SigCandidateV,
) -> bool {
    &&& found_once(images, required, c)
    &&& exists|bytes: Seq<u8>, fixed: Seq<bool>| #[trigger]
        cut_at(images[a.ref_idx as int], a, c, bytes, fixed)
    &&& c.relocation is None
    &&& a.packed ==> c.grade.rank() >= Grade::D.rank()
    &&& c.gated ==> c.grade == Grade::F
    &&& c.grade == Grade::A ==> validated(a.anchor, c)
}

proof fn attempt_is_sound(
    images: Seq<&ImageInput>,
    required: Seq<usize>,
    a: Attempt,
    seed: Option<Seq<bool>>,
    b: Seq<u8>,
    masks: Seq<InstrMaskV>,
    len: int,
)
    requires
        b == bytepath::window_at(images[a.ref_idx as int], a.site_rva as int, a.opts),
        masks == window::masks_of(images[a.ref_idx as int], b, a.site_rva as int, a.opts.max_len),
    ensures
        candidates::attempted(images, required, a, seed, b, masks, len) matches Some(c) ==> sound(
            images,
            required,
            a,
            c,
        ),
{
    if let Some(c) = candidates::attempted(images, required, a, seed, b, masks, len) {
        let base_fixed = candidates::seeded(window::fixed_in(masks, len), seed);
        let bytes = b.take(len);
        let sites = candidates::sites_of(
            images,
            required,
            bytes,
            base_fixed,
            required.len() as int,
        )->0;
        let n = required.len() as int;
        let fixed = bytepath::survived(
            images,
            required,
            sites,
            a.ref_idx as int,
            bytes,
            base_fixed,
            n,
        );
        survivors_keep_length(images, required, sites, a.ref_idx as int, bytes, base_fixed, n);
        sweep_is_of_matches(images, required, bytes, fixed, a.anchor, n);
        finalized_a_is_validated(
            images,
            required,
            a.ref_idx as int,
            bytes,
            base_fixed,
            window::operand_in(masks, len),
            window::unsupported_in(masks, a.site_rva as int, len, 0),
            sites,
            a.suffix,
            a.anchor,
            a.packed,
            a.opts,
        );
        pattern::aob_round_trip(bytes, fixed);
        let tokens = pattern::tokens_of(bytes, fixed);
        assert(pattern::mask_of(tokens) =~= fixed);
        assert(alike(pattern::bytes_of(tokens), bytes, fixed));
        assert forall|k: int| 0 <= k < n implies (#[trigger] c.per_version[k]).match_rva is Some
            && cache::located(
            images[required[k] as int],
            pattern::bytes_of(tokens),
            pattern::mask_of(tokens),
        ) == (1usize, c.per_version[k].match_rva) by {
            let img = images[required[k] as int];
            wildcards_match_anything(img, pattern::bytes_of(tokens), bytes, fixed);
            one_sighting_has_a_place(img, bytes, fixed);
        }
        assert forall|k: int|
            0 <= k < fixed.len() && k < window::all_fixed(masks).len() && #[trigger] fixed[k] implies window::all_fixed(
            masks,
        )[k] by {
            assert(base_fixed[k]);
            assert(window::fixed_in(masks, len)[k]);
        }
        assert(cut_at(images[a.ref_idx as int], a, c, bytes, fixed));
    }
}

proof fn grown_is_sound(
    images: Seq<&ImageInput>,
    required: Seq<usize>,
    a: Attempt,
    seed: Option<Seq<bool>>,
    b: Seq<u8>,
    masks: Seq<InstrMaskV>,
    lens: Seq<usize>,
    i: int,
    rejected: Seq<SigCandidateV>,
)
    requires
        b == bytepath::window_at(images[a.ref_idx as int], a.site_rva as int, a.opts),
        masks == window::masks_of(images[a.ref_idx as int], b, a.site_rva as int, a.opts.max_len),
    ensures
        candidates::grown(images, required, a, seed, b, masks, lens, i, rejected).0 matches Some(c)
            ==> sound(images, required, a, c) && c.grade != Grade::F,
    decreases lens.len() - i,
{
    if 0 <= i < lens.len() {
        attempt_is_sound(images, required, a, seed, b, masks, lens[i] as int);
        match candidates::attempted(images, required, a, seed, b, masks, lens[i] as int) {
            None => {
                grown_is_sound(images, required, a, seed, b, masks, lens, i + 1, rejected);
            },
            Some(c) => {
                if c.grade == Grade::F {
                    grown_is_sound(
                        images,
                        required,
                        a,
                        seed,
                        b,
                        masks,
                        lens,
                        i + 1,
                        rejected.push(c),
                    );
                }
            },
        }
    }
}

/// A signature found at a site matches exactly once in every build, at the address that is reported; it
/// was not rejected; and it has wildcards for the operands and the relocated bytes of its instructions.
pub proof fn site_signatures_are_sound(
    images: Seq<&ImageInput>,
    required: Seq<usize>,
    a: Attempt,
    seed: Option<Seq<bool>>,
)
    ensures
        candidates::candidates_at(images, required, a, seed).0 matches Some(c) ==> sound(
            images,
            required,
            a,
            c,
        ) && c.grade != Grade::F,
{
    let img = images[a.ref_idx as int];
    let b = bytepath::window_at(img, a.site_rva as int, a.opts);
    let masks = window::masks_of(img, b, a.site_rva as int, a.opts.max_len);
    let lens = window::lengths(
        masks,
        a.opts.max_len,
        match seed {
            Some(m) => Some(m.len() as int),
            None => None,
        },
        b.len() as int,
    );
    grown_is_sound(images, required, a, seed, b, masks, lens, 0, Seq::empty());
}

/// A candidate by its own bytes.
pub open spec fn by_bytes(
    images: Seq<&ImageInput>,
    required: Seq<usize>,
    c: SigCandidateV,
) -> bool {
    &&& c.grade != Grade::F
    &&& c.relocation is None
    &&& found_once(images, required, c)
    &&& landing::any_packed(images) ==> c.grade.rank() >= Grade::D.rank()
    &&& c.grade == Grade::A ==> exists|anchor: Anchor| #[trigger] validated(anchor, c)
}

proof fn tried_are_by_bytes(
    images: Seq<&ImageInput>,
    required: Seq<usize>,
    attempts: Seq<Attempt>,
    start: (Seq<SigCandidateV>, Seq<SigCandidateV>),
    n: int,
)
    requires
        0 <= n <= attempts.len(),
        forall|i: int|
            0 <= i < attempts.len() ==> (#[trigger] attempts[i]).packed == landing::any_packed(images),
        forall|i: int| 0 <= i < start.0.len() ==> by_bytes(images, required, #[trigger] start.0[i]),
    ensures
        ({
            let pool = generate::tried(images, required, attempts, start, n).0;
            forall|i: int| 0 <= i < pool.len() ==> by_bytes(images, required, #[trigger] pool[i])
        }),
    decreases n,
{
    if n > 0 {
        tried_are_by_bytes(images, required, attempts, start, n - 1);
        site_signatures_are_sound(images, required, attempts[n - 1], None);
        assert(attempts[n - 1].packed == landing::any_packed(images));
        let before = generate::tried(images, required, attempts, start, n - 1).0;
        let pool = generate::tried(images, required, attempts, start, n).0;
        assert forall|i: int| 0 <= i < pool.len() implies by_bytes(
            images,
            required,
            #[trigger] pool[i],
        ) by {
            if i < before.len() {
                assert(pool[i] == before[i]);
            }
        }
    }
}

/// Every signature by its own bytes matches exactly once in every build that was asked for, is not
/// rejected, and is no better than D where an input looks packed.
pub proof fn byte_signatures_hold_in_every_build(
    images: Seq<&ImageInput>,
    required: Seq<usize>,
    aim: AimV,
    opts: SigOptions,
)
    ensures
        ({
            let pool = generate::byte_candidates(images, required, aim, opts).0;
            forall|i: int| 0 <= i < pool.len() ==> by_bytes(images, required, #[trigger] pool[i])
        }),
{
    let ref_idx = required[aim.place as int];
    let packed = landing::any_packed(images);
    let first = Attempt {
        ref_idx,
        site_rva: aim.rva,
        suffix: Suffix::Direct,
        anchor: Anchor::Direct,
        packed,
        opts,
    };
    let direct = candidates::candidates_at(images, required, first, aim.seed);
    site_signatures_are_sound(images, required, first, aim.seed);
    let attempts = generate::indirect_sites(
        images[ref_idx as int],
        ref_idx,
        aim.rva,
        packed,
        opts,
    );
    tried_are_by_bytes(
        images,
        required,
        attempts,
        (generate::joined_by(Seq::empty(), direct.0), direct.1),
        attempts.len() as int,
    );
}

proof fn ranked_is_of_pool(pool: Seq<SigCandidateV>, i: int)
    requires
        0 <= i < generate::ranked(pool).len(),
    ensures
        pool.contains(generate::ranked(pool)[i]),
{
    generate::ranking_puts_the_best_first(pool);
    let r = generate::ranked(pool);
    vstd::seq_lib::to_multiset_contains(r, r[i]);
    vstd::seq_lib::to_multiset_contains(pool, r[i]);
    assert(r.contains(r[i]));
}

/// The code of the build holds the bytes at the address.
pub open spec fn held_at(img: &ImageInput, region: int, rva: u64, bytes: Seq<u8>) -> bool {
    let off = img.base + rva - cache::code_of(img)[region].0;
    &&& 0 <= region < img.code_regions@.len()
    &&& 0 <= off
    &&& off + bytes.len() <= cache::code_of(img)[region].1.len()
    &&& cache::code_of(img)[region].1.subrange(off, off + bytes.len()) == bytes
}

proof fn held_bytes_are_sighted(
    img: &ImageInput,
    region: int,
    rva: u64,
    bytes: Seq<u8>,
    mask: Seq<bool>,
    n: int,
)
    requires
        held_at(img, region, rva, bytes),
        bytes.len() > 0,
        region < n <= img.code_regions@.len(),
    ensures
        cache::sightings(img.base as int, cache::code_of(img), bytes, mask, n).contains(rva),
    decreases n,
{
    let code = cache::code_of(img);
    let base = img.base as int;
    let before = cache::sightings(base, code, bytes, mask, n - 1);
    let here = cache::region_sightings(base, code[n - 1], bytes, mask);
    let all = cache::sightings(base, code, bytes, mask, n);
    if region < n - 1 {
        held_bytes_are_sighted(img, region, rva, bytes, mask, n - 1);
        let k = choose|k: int| 0 <= k < before.len() && before[k] == rva;
        assert(all[k] == rva);
    } else {
        let hay = code[region].1;
        let off = base + rva - code[region].0;
        assert(scanner::hit(hay, off, bytes, mask)) by {
            assert forall|k: int| 0 <= k < bytes.len() && mask[k] implies #[trigger] hay[off + k]
                == bytes[k] by {
                assert(hay.subrange(off, off + bytes.len())[k] == hay[off + k]);
            }
        }
        scanner::hits_are_the_matches(hay, 0, bytes, mask);
        let at = scanner::hits(hay, bytes, mask);
        let k = choose|k: int| 0 <= k < at.len() && at[k] == off;
        assert(here[k] == rva);
        assert(all[before.len() + k] == rva);
    }
}

/// In the build it was cut from, a signature is found at the site it was cut at, wherever the code that
/// is searched holds what was read there.
pub proof fn signature_finds_its_own_site(
    images: Seq<&ImageInput>,
    required: Seq<usize>,
    a: Attempt,
    seed: Option<Seq<bool>>,
    k: int,
    region: int,
)
    requires
        0 <= k < required.len(),
        required[k] == a.ref_idx,
        candidates::candidates_at(images, required, a, seed).0 matches Some(c) ==> held_at(
            images[a.ref_idx as int],
            region,
            a.site_rva,
            bytepath::window_at(images[a.ref_idx as int], a.site_rva as int, a.opts).take(
                pattern::parsed(c.aob)->0.len() as int,
            ),
        ),
    ensures
        candidates::candidates_at(images, required, a, seed).0 matches Some(c)
            ==> c.per_version[k].match_rva == Some(a.site_rva),
{
    site_signatures_are_sound(images, required, a, seed);
    if let Some(c) = candidates::candidates_at(images, required, a, seed).0 {
        let img = images[a.ref_idx as int];
        let (bytes, fixed) = choose|bytes: Seq<u8>, fixed: Seq<bool>| #[trigger]
            cut_at(img, a, c, bytes, fixed);
        pattern::aob_round_trip(bytes, fixed);
        let tokens = pattern::tokens_of(bytes, fixed);
        assert(pattern::mask_of(tokens) =~= fixed);
        assert(alike(pattern::bytes_of(tokens), bytes, fixed));
        wildcards_match_anything(img, pattern::bytes_of(tokens), bytes, fixed);
        let n = img.code_regions@.len() as int;
        held_bytes_are_sighted(img, region, a.site_rva, bytes, fixed, n);
        let all = cache::sightings(img.base as int, cache::code_of(img), bytes, fixed, n);
        let i = choose|i: int| 0 <= i < all.len() && all[i] == a.site_rva;
        assert(c.per_version[k].match_rva is Some);
        assert(cache::located(img, bytes, fixed) == (1usize, c.per_version[k].match_rva));
        assert(all.len() == 1);
        assert(all.drop_last() =~= Seq::<u64>::empty());
        assert(all.last() == a.site_rva);
        assert(cache::least_of(all.drop_last()) is None);
        assert(cache::least_of(all) == Some(a.site_rva));
    }
}

proof fn mask_lengths(img: &ImageInput, b: Seq<u8>, rva: int, pos: int, left: nat)
    ensures
        ({
            let masks = window::masks_from(img, b, rva, pos, left);
            let fixed = window::all_fixed(masks);
            &&& fixed.len() == window::all_operand(masks).len()
            &&& forall|k: int|
                0 <= k < fixed.len() && #[trigger] fixed[k] ==> !window::all_operand(masks)[k]
                    && img.patch_at((rva + pos + k) as usize) is None
        }),
    decreases left,
{
    let masks = window::masks_from(img, b, rva, pos, left);
    if left > 0 && 0 <= pos < b.len() {
        let bits = crate::sigmaker::decode::mode(img.arch);
        let rest = b.skip(pos);
        let ip = (img.base + rva + pos) as u64;
        let h = crate::x86::head_of(bits, rest, ip);
        if crate::sigmaker::decode::decodable(h, rest) {
            let m = window::mask_of(
                img,
                rva + pos,
                h.len as int,
                crate::x86::constants_of(bits, rest, ip),
            );
            let more = window::masks_from(img, b, rva, pos + h.len, (left - 1) as nat);
            mask_lengths(img, b, rva, pos + h.len, (left - 1) as nat);
            masks_chain(m, more);
            let fixed = window::all_fixed(masks);
            assert forall|k: int| 0 <= k < fixed.len() && #[trigger] fixed[k] implies !window::all_operand(
                masks,
            )[k] && img.patch_at((rva + pos + k) as usize) is None by {
                if k >= h.len {
                    assert(fixed[k] == window::all_fixed(more)[k - h.len]);
                }
            }
        }
    }
}

proof fn masks_chain(m: InstrMaskV, more: Seq<InstrMaskV>)
    ensures
        window::all_fixed(seq![m] + more) == m.fixed + window::all_fixed(more),
        window::all_operand(seq![m] + more) == m.operand + window::all_operand(more),
    decreases more.len(),
{
    let all = seq![m] + more;
    if more.len() == 0 {
        assert(all.drop_last() =~= Seq::<InstrMaskV>::empty());
        assert(all.last() == m);
        assert(window::all_fixed(all.drop_last()) =~= Seq::<bool>::empty());
        assert(window::all_operand(all.drop_last()) =~= Seq::<bool>::empty());
        assert(window::all_fixed(all) =~= m.fixed + window::all_fixed(more));
        assert(window::all_operand(all) =~= m.operand + window::all_operand(more));
    } else {
        assert(all.drop_last() =~= seq![m] + more.drop_last());
        assert(all.last() == more.last());
        masks_chain(m, more.drop_last());
        assert(window::all_fixed(all) =~= m.fixed + window::all_fixed(more));
        assert(window::all_operand(all) =~= m.operand + window::all_operand(more));
    }
}

/// Of the instructions that a signature is cut from, no operand byte and no byte that the loader patches
/// is ever fixed.
pub proof fn volatile_bytes_are_wildcards(
    img: &ImageInput,
    b: Seq<u8>,
    rva: int,
    max_len: usize,
    k: int,
)
    ensures
        ({
            let masks = window::masks_of(img, b, rva, max_len);
            0 <= k < window::all_fixed(masks).len() && window::all_fixed(masks)[k]
                ==> !window::all_operand(masks)[k] && img.patch_at((rva + k) as usize) is None
        }),
{
    mask_lengths(img, b, rva, 0, window::instruction_limit(max_len));
}

proof fn first_unique_is_unique(
    img: &ImageInput,
    b: Seq<u8>,
    masks: Seq<InstrMaskV>,
    lens: Seq<usize>,
    opts: SigOptions,
    i: int,
)
    ensures
        bytepath::first_unique(img, b, masks, lens, opts, i) matches Some(aob) ==> (
        pattern::parsed(aob) is Some && cache::located(
            img,
            pattern::bytes_of(pattern::parsed(aob)->0),
            pattern::mask_of(pattern::parsed(aob)->0),
        ).0 == 1),
    decreases lens.len() - i,
{
    if 0 <= i < lens.len() {
        let len = lens[i] as int;
        let fixed = window::fixed_in(masks, len);
        if 0 < len <= b.len() && bytepath::worthwhile(fixed, window::operand_in(masks, len), opts)
            && cache::located(img, b.take(len), fixed).0 == 1 {
            let bytes = b.take(len);
            pattern::aob_round_trip(bytes, fixed);
            let tokens = pattern::tokens_of(bytes, fixed);
            assert(pattern::mask_of(tokens) =~= fixed);
            assert(alike(pattern::bytes_of(tokens), bytes, fixed));
            wildcards_match_anything(img, pattern::bytes_of(tokens), bytes, fixed);
        } else {
            first_unique_is_unique(img, b, masks, lens, opts, i + 1);
        }
    }
}

/// The signature that a build is given for itself is found in it exactly once.
pub proof fn minted_signature_is_unique(img: &ImageInput, rva: int, opts: SigOptions)
    ensures
        bytepath::build_aob(img, rva, opts) matches Some(aob) ==> (pattern::parsed(aob) is Some
            && cache::located(
            img,
            pattern::bytes_of(pattern::parsed(aob)->0),
            pattern::mask_of(pattern::parsed(aob)->0),
        ).0 == 1),
{
    let b = bytepath::window_at(img, rva, opts);
    let masks = window::masks_of(img, b, rva, opts.max_len);
    first_unique_is_unique(
        img,
        b,
        masks,
        window::lengths(masks, opts.max_len, None, b.len() as int),
        opts,
        0,
    );
}

/// No better than D where an input looks packed.
pub open spec fn below_d_if_packed(images: Seq<&ImageInput>, c: SigCandidateV) -> bool {
    landing::any_packed(images) ==> c.grade.rank() >= Grade::D.rank()
}

proof fn constants_stay_below_a(
    images: Seq<&ImageInput>,
    required: Seq<usize>,
    ref_idx: usize,
    ref_rva: u64,
    opts: SigOptions,
)
    ensures
        relocate::constant_candidate(images, required, ref_idx, ref_rva, opts) matches Some(c)
            ==> c.grade != Grade::A && below_d_if_packed(images, c),
{
}

proof fn encodings_stay_below_a(
    images: Seq<&ImageInput>,
    required: Seq<usize>,
    ref_idx: usize,
    ref_rva: u64,
    opts: SigOptions,
)
    ensures
        relocate::encoding_candidate(images, required, ref_idx, ref_rva, opts) matches Some(c)
            ==> c.grade != Grade::A && below_d_if_packed(images, c),
{
}

proof fn fingerprints_stay_below_a(
    images: Seq<&ImageInput>,
    required: Seq<usize>,
    ref_idx: usize,
    ref_rva: u64,
    opts: SigOptions,
)
    ensures
        relocate::fingerprint_candidate(images, required, ref_idx, ref_rva, opts) matches Some(c)
            ==> c.grade != Grade::A && below_d_if_packed(images, c),
{
}

proof fn graphs_stay_below_a(
    images: Seq<&ImageInput>,
    required: Seq<usize>,
    ref_idx: usize,
    ref_rva: u64,
    opts: SigOptions,
)
    ensures
        partial::graph_candidate(images, required, ref_idx, ref_rva, opts) matches Some(c)
            ==> c.grade != Grade::A && below_d_if_packed(images, c),
{
}

proof fn strings_need_two_builds(
    images: Seq<&ImageInput>,
    required: Seq<usize>,
    ref_idx: usize,
    ref_rva: u64,
    opts: SigOptions,
)
    ensures
        relocate::string_candidate(images, required, ref_idx, ref_rva, opts) matches Some(c)
            ==> (c.grade == Grade::A ==> required.len() >= 2) && below_d_if_packed(images, c),
{
}

/// Only a string carries a relocation to grade A, and only over two or more builds; what no byte or
/// string of its own backs is at most B; and none is better than D where an input looks packed.
pub proof fn relocations_are_held_below_a(
    channel: Channel,
    images: Seq<&ImageInput>,
    required: Seq<usize>,
    ref_idx: usize,
    ref_rva: u64,
    opts: SigOptions,
)
    ensures
        channels::by_channel(channel, images, required, ref_idx, ref_rva, opts) matches Some(c)
            ==> (c.grade == Grade::A ==> channel == Channel::StringRef && required.len() >= 2)
            && below_d_if_packed(images, c),
{
    reveal(channels::by_channel);
    match channel {
        Channel::StringRef => {
            strings_need_two_builds(images, required, ref_idx, ref_rva, opts);
        },
        Channel::Constant => {
            constants_stay_below_a(images, required, ref_idx, ref_rva, opts);
        },
        Channel::Encoding => {
            encodings_stay_below_a(images, required, ref_idx, ref_rva, opts);
        },
        Channel::Fingerprint => {
            fingerprints_stay_below_a(images, required, ref_idx, ref_rva, opts);
        },
        Channel::Graph => {
            graphs_stay_below_a(images, required, ref_idx, ref_rva, opts);
        },
        Channel::Import => {},
        Channel::Caller => {},
        Channel::Vtable => {},
    }
}

/// A string stands for a relocation graded A or B only with a second string beside it, or where the
/// function found in the worst build is still like the reference.
pub proof fn lone_strings_are_confirmed(ev: StringEvidenceV, packed: bool)
    requires
        relocate::string_verdict(ev, packed).0.rank() < Grade::C.rank(),
    ensures
        relocate::confirmed(ev.paired, ev.callee_similarity),
{
}

proof fn found_stay_low(
    images: Seq<&ImageInput>,
    required: Seq<usize>,
    ref_idx: usize,
    ref_rva: u64,
    opts: SigOptions,
    n: int,
)
    requires
        0 <= n <= channels::channels().len(),
    ensures
        ({
            let found = channels::found_by(images, required, ref_idx, ref_rva, opts, n);
            forall|i: int| 0 <= i < found.len() ==> below_d_if_packed(images, (#[trigger] found[i]).1)
        }),
    decreases n,
{
    if n > 0 {
        found_stay_low(images, required, ref_idx, ref_rva, opts, n - 1);
        relocations_are_held_below_a(
            channels::channels()[n - 1],
            images,
            required,
            ref_idx,
            ref_rva,
            opts,
        );
        let before = channels::found_by(images, required, ref_idx, ref_rva, opts, n - 1);
        let found = channels::found_by(images, required, ref_idx, ref_rva, opts, n);
        assert forall|i: int| 0 <= i < found.len() implies below_d_if_packed(
            images,
            (#[trigger] found[i]).1,
        ) by {
            if i < before.len() {
                assert(found[i] == before[i]);
                assert(below_d_if_packed(images, before[i].1));
            }
        }
    }
}

proof fn ensemble_stays_low(
    images: Seq<&ImageInput>,
    required: Seq<usize>,
    ref_idx: usize,
    ref_rva: u64,
    opts: SigOptions,
)
    ensures
        channels::ensemble_candidate(images, required, ref_idx, ref_rva, opts) matches Some(c)
            ==> below_d_if_packed(images, c),
{
    let n = channels::channels().len() as int;
    found_stay_low(images, required, ref_idx, ref_rva, opts, n);
    let found = channels::found_by(images, required, ref_idx, ref_rva, opts, n);
    if found.len() > 0 {
        channels::voting_only_lowers_confidence(images, found);
        let v = channels::voted(images, found);
        let i = choose|i: int|
            #![trigger found[i]]
            0 <= i < found.len() && v.per_version == found[i].1.per_version && v.aob
                == found[i].1.aob && v.grade.rank() >= found[i].1.grade.rank();
        assert(below_d_if_packed(images, found[i].1));
    }
}

proof fn packed_inputs_are_named(images: Seq<&ImageInput>, n: int)
    requires
        0 <= n <= images.len(),
    ensures
        forall|i: int|
            0 <= i < n && (#[trigger] images[i]).packed ==> generate::packed_diags(
                images,
                n,
            ).contains(
                DiagV::PackedInput {
                    label: images[i].label@,
                    reasons: images[i].pack_reasons.deep_view(),
                },
            ),
    decreases n,
{
    if n > 0 {
        packed_inputs_are_named(images, n - 1);
        let before = generate::packed_diags(images, n - 1);
        let all = generate::packed_diags(images, n);
        assert forall|i: int| 0 <= i < n && (#[trigger] images[i]).packed implies all.contains(
            DiagV::PackedInput {
                label: images[i].label@,
                reasons: images[i].pack_reasons.deep_view(),
            },
        ) by {
            let d = DiagV::PackedInput {
                label: images[i].label@,
                reasons: images[i].pack_reasons.deep_view(),
            };
            if i < n - 1 {
                let k = choose|k: int| 0 <= k < before.len() && before[k] == d;
                assert(all[k] == d);
            } else {
                assert(all[all.len() - 1] == d);
            }
        }
    }
}

/// Whatever is reported without a relocation, chosen or as an alternate, matches exactly once in every
/// distinct build and is not rejected; what is reported is either that or one relocation; and where an
/// input looks packed, nothing reported is better than D and a diagnostic names that input.
pub proof fn reported_signatures_hold_in_every_build(
    images: Seq<&ImageInput>,
    target: TargetSpecV,
    opts: SigOptions,
)
    ensures
        ({
            let r = generate::report_of(images, target, opts);
            let required = generate::grouped(images, images.len() as int).1;
            &&& r.chosen matches Some(c) ==> c.relocation is Some || by_bytes(images, required, c)
            &&& forall|i: int|
                0 <= i < r.alternates.len() ==> by_bytes(images, required, #[trigger] r.alternates[i])
            &&& (r.chosen matches Some(c) && c.relocation is Some) ==> r.alternates.len() == 0
            &&& landing::any_packed(images) ==> (r.chosen matches Some(c) ==> c.grade == Grade::D
                || c.grade == Grade::F)
            &&& forall|i: int|
                0 <= i < images.len() && (#[trigger] images[i]).packed ==> r.diagnostics.contains(
                    DiagV::PackedInput {
                        label: images[i].label@,
                        reasons: images[i].pack_reasons.deep_view(),
                    },
                )
        }),
{
    let r = generate::report_of(images, target, opts);
    let required = generate::grouped(images, images.len() as int).1;
    packed_inputs_are_named(images, images.len() as int);
    let packed = generate::packed_diags(images, images.len() as int);
    assert forall|i: int|
        0 <= i < images.len() && (#[trigger] images[i]).packed implies r.diagnostics.contains(
        DiagV::PackedInput {
            label: images[i].label@,
            reasons: images[i].pack_reasons.deep_view(),
        },
    ) by {
        let d = DiagV::PackedInput {
            label: images[i].label@,
            reasons: images[i].pack_reasons.deep_view(),
        };
        let k = choose|k: int| 0 <= k < packed.len() && packed[k] == d;
        assert(r.diagnostics[k] == d);
    }
    if images.len() > 0 && !generate::mixed(images) {
        if let (Some(aim), diags) = generate::aim_of(images, target) {
            let pool = generate::pool_of(images, required, aim, opts);
            let order = generate::ranked(pool);
            byte_signatures_hold_in_every_build(images, required, aim, opts);
            generate::ranking_puts_the_best_first(pool);
            let by_own = generate::byte_candidates(images, required, aim, opts).0;
            if by_own.len() > 0 {
                assert forall|i: int| 0 <= i < order.len() implies by_bytes(
                    images,
                    required,
                    #[trigger] order[i],
                ) by {
                    ranked_is_of_pool(pool, i);
                    let k = choose|k: int| 0 <= k < pool.len() && pool[k] == order[i];
                    assert(by_bytes(images, required, pool[k]));
                }
                assert forall|i: int| 0 <= i < r.alternates.len() implies by_bytes(
                    images,
                    required,
                    #[trigger] r.alternates[i],
                ) by {
                    assert(r.alternates[i] == order[i + 1]);
                }
            } else if order.len() > 0 {
                ranked_is_of_pool(pool, 0);
                ensemble_stays_low(images, required, required[aim.place as int], aim.rva, opts);
            }
        }
    }
}

}
