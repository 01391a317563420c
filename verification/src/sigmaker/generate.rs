//! Signature generation: find the target, try a signature at every site that leads to it, fall back on
//! the relocation anchors where no byte pattern holds, and report the best with all that was measured.

use crate::pattern;
use crate::pattern::{try_signature_from_aob, Arch};
use crate::scanner::CompiledPattern;
use crate::sigmaker::aob;
use crate::sigmaker::aob::collapse_aob_ranges;
use crate::sigmaker::bytepath;
use crate::sigmaker::bytepath::{push_diag, Anchor};
use crate::sigmaker::cache;
use crate::sigmaker::cache::CodeCache;
use crate::sigmaker::candidates;
use crate::sigmaker::candidates::{branch_sites, candidate_at, ptr_sites, push_candidate, Attempt};
use crate::sigmaker::chain;
use crate::sigmaker::channels;
use crate::sigmaker::channels::ensemble_relocate;
use crate::sigmaker::landing;
use crate::sigmaker::relocate;
use crate::sigmaker::relocate::relocation_shortlists;
use crate::sigmaker::types::{copy_strings, starting, AobRange, AobRangeV, Diag, DiagV};
use crate::sigmaker::types::{DupGroup, DupGroupV, ImageInput, InputInfo, InputInfoV, PerVersion};
use crate::sigmaker::types::{PerVersionV, Shortlist, ShortlistV, SigCandidate, SigCandidateV};
use crate::sigmaker::types::{SigOptions, SigReport, SigReportV, Suffix, TargetSpec, TargetSpecV};
use crate::text;
use crate::text::{is_before, same_text};
use vstd::prelude::*;
use vstd::string::*;

verus! {

/// What a run is doing.
#[derive(Clone, Copy, Debug, PartialEq, Eq, Structural)]
pub enum SigStage {
    Deduplicating,
    ReadingCode { build: usize, total: usize },
    LocatingTarget,
    ScanningDirect,
    ScanningCallJmp,
    ScanningPtr,
    Scoring,
}

/// Something that is told how a run gets on.
pub trait StageSink {
    /// The stages reported so far.
    closed spec fn reported(&self) -> Seq<SigStage> {
        vstd::pervasive::arbitrary()
    }

    /// Take note of a stage.
    fn report(&mut self, stage: SigStage)
        ensures
            final(self).reported() == old(self).reported().push(stage),
    ;
}

impl StageSink for Vec<SigStage> {
    open spec fn reported(&self) -> Seq<SigStage> {
        self@
    }

    fn report(&mut self, stage: SigStage) {
        self.push(stage);
    }
}

/// The builds by reference.
pub open spec fn refs<'a>(images: Seq<ImageInput<'a>>) -> Seq<&ImageInput<'a>> {
    Seq::new(images.len(), |i: int| &images[i])
}

/// What is known of the inputs.
pub open spec fn infos(images: Seq<&ImageInput>) -> Seq<InputInfoV> {
    Seq::new(
        images.len(),
        |i: int|
            InputInfoV {
                label: images[i].label@,
                packed: images[i].packed,
                reasons: images[i].pack_reasons.deep_view(),
            },
    )
}

/// A diagnostic for each of the first `n` inputs that looks packed.
pub open spec fn packed_diags(images: Seq<&ImageInput>, n: int) -> Seq<DiagV>
    decreases n,
{
    if n <= 0 {
        Seq::empty()
    } else {
        let img = images[n - 1];
        packed_diags(images, n - 1) + bytepath::noted(
            img.packed,
            DiagV::PackedInput { label: img.label@, reasons: img.pack_reasons.deep_view() },
        )
    }
}

/// Whether the inputs are of more than one architecture.
pub open spec fn mixed(images: Seq<&ImageInput>) -> bool {
    exists|i: int| 0 <= i < images.len() && (#[trigger] images[i]).arch != images[0].arch
}

/// The first group from `i` on with the code.
pub open spec fn group_place(groups: Seq<DupGroupV>, code_hash: u64, i: int) -> Option<int>
    decreases groups.len() - i,
{
    if !(0 <= i < groups.len()) {
        None
    } else if groups[i].code_hash == code_hash {
        Some(i)
    } else {
        group_place(groups, code_hash, i + 1)
    }
}

/// The first `n` builds grouped by their code, and per group the build that stands for it, the first.
pub open spec fn grouped(images: Seq<&ImageInput>, n: int) -> (Seq<DupGroupV>, Seq<usize>)
    decreases n,
{
    if n <= 0 {
        (Seq::empty(), Seq::empty())
    } else {
        let (groups, required) = grouped(images, n - 1);
        let img = images[n - 1];
        match group_place(groups, img.code_hash, 0) {
            Some(k) => (
                groups.update(
                    k,
                    DupGroupV {
                        code_hash: groups[k].code_hash,
                        labels: groups[k].labels.push(img.label@),
                    },
                ),
                required,
            ),
            None => (
                groups.push(DupGroupV { code_hash: img.code_hash, labels: seq![img.label@] }),
                required.push((n - 1) as usize),
            ),
        }
    }
}

proof fn group_place_is_first(groups: Seq<DupGroupV>, code_hash: u64, i: int)
    requires
        0 <= i,
    ensures
        match group_place(groups, code_hash, i) {
            Some(k) => i <= k < groups.len() && groups[k].code_hash == code_hash,
            None => forall|k: int|
                i <= k < groups.len() ==> (#[trigger] groups[k]).code_hash != code_hash,
        },
    decreases groups.len() - i,
{
    if i < groups.len() && groups[i].code_hash != code_hash {
        group_place_is_first(groups, code_hash, i + 1);
    }
}

/// Every build has the code of exactly one group, and no two groups the same code.
pub proof fn every_build_is_grouped(images: Seq<&ImageInput>, n: int)
    requires
        0 <= n <= images.len() <= usize::MAX,
    ensures
        ({
            let (groups, required) = grouped(images, n);
            &&& groups.len() == required.len() <= n
            &&& n > 0 ==> groups.len() > 0
            &&& forall|k: int|
                #![trigger required[k]]
                0 <= k < required.len() ==> required[k] < n && groups[k].code_hash
                    == images[required[k] as int].code_hash
            &&& forall|i: int|
                0 <= i < n ==> group_place(groups, (#[trigger] images[i]).code_hash, 0) is Some
            &&& forall|j: int, k: int|
                0 <= j < k < groups.len() ==> (#[trigger] groups[j]).code_hash != (
                #[trigger] groups[k]).code_hash
        }),
    decreases n,
{
    if n > 0 {
        every_build_is_grouped(images, n - 1);
        let (before, reps) = grouped(images, n - 1);
        let (groups, required) = grouped(images, n);
        let hash = images[n - 1].code_hash;
        group_place_is_first(before, hash, 0);
        assert forall|i: int| 0 <= i < n implies group_place(
            groups,
            (#[trigger] images[i]).code_hash,
            0,
        ) is Some by {
            let h = images[i].code_hash;
            group_place_is_first(groups, h, 0);
            group_place_is_first(before, h, 0);
            if i < n - 1 {
                let k = group_place(before, h, 0)->0;
                assert(groups[k].code_hash == h);
            } else if group_place(before, hash, 0) is Some {
                let k = group_place(before, hash, 0)->0;
                assert(groups[k].code_hash == h);
            } else {
                assert(groups[groups.len() - 1].code_hash == h);
            }
        }
        assert forall|k: int|
            #![trigger required[k]]
            0 <= k < required.len() implies required[k] < n && groups[k].code_hash
            == images[required[k] as int].code_hash by {
            if k < reps.len() {
                assert(reps[k] < n - 1);
            }
        }
    }
}

/// Where the pattern is found once among the first `n` required builds, by the place of the build, and
/// what is said of the others.
pub open spec fn scanned(
    images: Seq<&ImageInput>,
    required: Seq<usize>,
    bytes: Seq<u8>,
    mask: Seq<bool>,
    n: int,
) -> (Seq<(usize, u64)>, Seq<DiagV>)
    decreases n,
{
    if n <= 0 {
        (Seq::empty(), Seq::empty())
    } else {
        let (found, diags) = scanned(images, required, bytes, mask, n - 1);
        let img = images[required[n - 1] as int];
        match cache::located(img, bytes, mask) {
            (1, Some(rva)) => (found.push(((n - 1) as usize, rva)), diags),
            (0, _) => (found, diags.push(DiagV::MissingInImage { label: img.label@ })),
            (count, _) => (
                found,
                diags + bytepath::noted(
                    count > 1,
                    DiagV::AmbiguousInImage { label: img.label@, count },
                ),
            ),
        }
    }
}

/// What is known of the target: the place among the required builds of the one that defines it, its
/// address there, which bytes a given pattern fixes, and in which builds that pattern was found.
#[verifier::ext_equal]
pub struct AimV {
    pub place: usize,
    pub rva: u64,
    pub seed: Option<Seq<bool>>,
    pub found: Seq<(usize, u64)>,
}

/// The target, if it can be located, and what is said about it.
pub open spec fn aim_of(images: Seq<&ImageInput>, target: TargetSpecV) -> (Option<AimV>, Seq<DiagV>) {
    let (groups, required) = grouped(images, images.len() as int);
    match target {
        TargetSpecV::Aob(aob) => match pattern::parsed(aob) {
            None => (
                None,
                seq![
                    DiagV::InvalidAob {
                        reason: if pattern::tokens_from(vstd::utf8::encode_utf8(aob), 0) is None {
                            "not a hexadecimal byte or a wildcard"@
                        } else {
                            "signature is empty"@
                        },
                    },
                ],
            ),
            Some(tokens) => {
                let (found, diags) = scanned(
                    images,
                    required,
                    pattern::bytes_of(tokens),
                    pattern::mask_of(tokens),
                    required.len() as int,
                );
                if found.len() == 0 {
                    (None, diags)
                } else {
                    (
                        Some(
                            AimV {
                                place: found[0].0,
                                rva: found[0].1,
                                seed: Some(pattern::mask_of(tokens)),
                                found,
                            },
                        ),
                        diags,
                    )
                }
            },
        },
        TargetSpecV::Ref { image, rva } => if image >= images.len() {
            (None, seq![DiagV::BuildFailed])
        } else {
            (
                Some(
                    AimV {
                        place: group_place(groups, images[image as int].code_hash, 0)->0 as usize,
                        rva,
                        seed: None,
                        found: Seq::empty(),
                    },
                ),
                Seq::empty(),
            )
        },
    }
}

/// The sites that lead to the target by way of a branch or a pointer, in the order in which they are
/// tried.
pub open spec fn indirect_sites(
    img: &ImageInput,
    ref_idx: usize,
    rva: u64,
    packed: bool,
    opts: SigOptions,
) -> Seq<Attempt> {
    let target = (img.base + rva) as usize;
    let code = cache::code_of(img);
    let calls = candidates::first_sites(
        candidates::all_branches(img.arch, img.base as int, code, target, true, 0),
    );
    let jumps = candidates::first_sites(
        candidates::all_branches(img.arch, img.base as int, code, target, false, 0),
    );
    let ptrs = candidates::first_sites(
        candidates::all_references(img.arch, img.base as int, code, target, 0),
    );
    branch_attempts(calls, ref_idx, Suffix::Call, packed, opts) + branch_attempts(
        jumps,
        ref_idx,
        Suffix::Jmp,
        packed,
        opts,
    ) + Seq::new(
        ptrs.len(),
        |k: int|
            Attempt {
                ref_idx,
                site_rva: ptrs[k].0,
                suffix: Suffix::Ptr,
                anchor: Anchor::Ptr { rip: ptrs[k].1 },
                packed,
                opts,
            },
    )
}

/// The attempts at some branches.
pub open spec fn branch_attempts(
    sites: Seq<u64>,
    ref_idx: usize,
    suffix: Suffix,
    packed: bool,
    opts: SigOptions,
) -> Seq<Attempt> {
    Seq::new(
        sites.len(),
        |k: int|
            Attempt {
                ref_idx,
                site_rva: sites[k],
                suffix,
                anchor: Anchor::Branch,
                packed,
                opts,
            },
    )
}

/// The candidate, if there is one, behind the others.
pub open spec fn joined_by(pool: Seq<SigCandidateV>, c: Option<SigCandidateV>) -> Seq<SigCandidateV> {
    match c {
        Some(c) => pool.push(c),
        None => pool,
    }
}

/// The candidates and the rejected ones that the first `n` attempts add.
pub open spec fn tried(
    images: Seq<&ImageInput>,
    required: Seq<usize>,
    attempts: Seq<Attempt>,
    start: (Seq<SigCandidateV>, Seq<SigCandidateV>),
    n: int,
) -> (Seq<SigCandidateV>, Seq<SigCandidateV>)
    decreases n,
{
    if n <= 0 {
        start
    } else {
        let (pool, rejected) = tried(images, required, attempts, start, n - 1);
        let (c, more) = candidates::candidates_at(images, required, attempts[n - 1], None);
        (joined_by(pool, c), rejected + more)
    }
}

/// All candidates by their own bytes, and the rejected ones.
pub open spec fn byte_candidates(
    images: Seq<&ImageInput>,
    required: Seq<usize>,
    aim: AimV,
    opts: SigOptions,
) -> (Seq<SigCandidateV>, Seq<SigCandidateV>) {
    let ref_idx = required[aim.place as int];
    let packed = landing::any_packed(images);
    let direct = candidates::candidates_at(
        images,
        required,
        (Attempt {
            ref_idx,
            site_rva: aim.rva,
            suffix: Suffix::Direct,
            anchor: Anchor::Direct,
            packed,
            opts,
        }),
        aim.seed,
    );
    let attempts = indirect_sites(images[ref_idx as int], ref_idx, aim.rva, packed, opts);
    tried(
        images,
        required,
        attempts,
        (joined_by(Seq::empty(), direct.0), direct.1),
        attempts.len() as int,
    )
}

/// The order of candidates: the better grade, then fewer wildcards, then shorter, then the more direct
/// kind, then the text.
pub open spec fn better(a: SigCandidateV, b: SigCandidateV) -> bool {
    if a.grade.rank() != b.grade.rank() {
        a.grade.rank() < b.grade.rank()
    } else if a.wildcards != b.wildcards {
        a.wildcards < b.wildcards
    } else if a.bytes_len != b.bytes_len {
        a.bytes_len < b.bytes_len
    } else if a.suffix.order() != b.suffix.order() {
        a.suffix.order() < b.suffix.order()
    } else {
        text::text_before(a.aob, b.aob)
    }
}

/// A candidate behind all that it is not better than.
pub open spec fn placed(s: Seq<SigCandidateV>, x: SigCandidateV) -> Seq<SigCandidateV>
    decreases s.len(),
{
    if s.len() == 0 || !better(x, s.last()) {
        s.push(x)
    } else {
        placed(s.drop_last(), x).push(s.last())
    }
}

/// The candidates in order, those that compare equal as they came.
pub open spec fn ranked(pool: Seq<SigCandidateV>) -> Seq<SigCandidateV>
    decreases pool.len(),
{
    if pool.len() == 0 {
        Seq::empty()
    } else {
        placed(ranked(pool.drop_last()), pool.last())
    }
}

proof fn better_is_an_order(a: SigCandidateV, b: SigCandidateV, c: SigCandidateV)
    ensures
        !(better(a, b) && better(b, a)),
        better(a, c) ==> better(a, b) || better(b, c),
{
    text::bytes_are_ordered(
        vstd::utf8::encode_utf8(a.aob),
        vstd::utf8::encode_utf8(b.aob),
        vstd::utf8::encode_utf8(c.aob),
    );
}

/// No candidate is better than one before it.
pub open spec fn in_order(s: Seq<SigCandidateV>) -> bool {
    forall|i: int, j: int| 0 <= i < j < s.len() ==> !better(#[trigger] s[j], #[trigger] s[i])
}

proof fn placing_keeps_order(s: Seq<SigCandidateV>, x: SigCandidateV)
    requires
        in_order(s),
    ensures
        in_order(placed(s, x)),
        placed(s, x).to_multiset() == s.to_multiset().insert(x),
        forall|y: SigCandidateV|
            #![trigger placed(s, x).contains(y)]
            placed(s, x).contains(y) ==> y == x || s.contains(y),
    decreases s.len(),
{
    broadcast use vstd::seq_lib::group_to_multiset_ensures;

    let all = placed(s, x);
    if s.len() == 0 || !better(x, s.last()) {
        assert forall|i: int, j: int| 0 <= i < j < all.len() implies !better(
            #[trigger] all[j],
            #[trigger] all[i],
        ) by {
            if j == s.len() {
                better_is_an_order(x, s.last(), s[i]);
            }
        }
        assert forall|y: SigCandidateV| #![trigger all.contains(y)] all.contains(y) implies y == x
            || s.contains(y) by {
            let k = choose|k: int| 0 <= k < all.len() && all[k] == y;
            if k < s.len() {
                assert(s[k] == y);
            }
        }
    } else {
        let d = s.drop_last();
        let front = placed(d, x);
        placing_keeps_order(d, x);
        assert(d.push(s.last()) =~= s);
        assert forall|i: int, j: int| 0 <= i < j < all.len() implies !better(
            #[trigger] all[j],
            #[trigger] all[i],
        ) by {
            if j == front.len() {
                assert(front.contains(front[i]));
                if front[i] == x {
                    better_is_an_order(s.last(), x, x);
                } else {
                    let k = choose|k: int| 0 <= k < d.len() && d[k] == front[i];
                    assert(s[k] == front[i]);
                }
            }
        }
        assert forall|y: SigCandidateV| #![trigger all.contains(y)] all.contains(y) implies y == x
            || s.contains(y) by {
            let k = choose|k: int| 0 <= k < all.len() && all[k] == y;
            if k < front.len() {
                assert(front.contains(y));
                if y != x {
                    let m = choose|m: int| 0 <= m < d.len() && d[m] == y;
                    assert(s[m] == y);
                }
            } else {
                assert(s[s.len() - 1] == y);
            }
        }
        assert(front.push(s.last()).to_multiset() =~= s.to_multiset().insert(x));
    }
}

/// Ranking loses no candidate and adds none, and none is better than one before it: the chosen one is the
/// best there is.
pub proof fn ranking_puts_the_best_first(pool: Seq<SigCandidateV>)
    ensures
        in_order(ranked(pool)),
        ranked(pool).to_multiset() == pool.to_multiset(),
        ranked(pool).len() == pool.len(),
    decreases pool.len(),
{
    broadcast use vstd::seq_lib::group_to_multiset_ensures;

    if pool.len() > 0 {
        let d = pool.drop_last();
        ranking_puts_the_best_first(d);
        placing_keeps_order(ranked(d), pool.last());
        assert(d.push(pool.last()) =~= pool);
        placed_is_one_longer(ranked(d), pool.last());
    }
}

proof fn placed_is_one_longer(s: Seq<SigCandidateV>, x: SigCandidateV)
    ensures
        placed(s, x).len() == s.len() + 1,
    decreases s.len(),
{
    if s.len() > 0 && better(x, s.last()) {
        placed_is_one_longer(s.drop_last(), x);
    }
}

/// The labels of those of the first `n` builds that the signature matches.
pub open spec fn matched_labels(rows: Seq<PerVersionV>, n: int) -> Seq<Seq<char>>
    decreases n,
{
    if n <= 0 {
        Seq::empty()
    } else if rows[n - 1].match_rva is Some {
        matched_labels(rows, n - 1).push(rows[n - 1].label)
    } else {
        matched_labels(rows, n - 1)
    }
}

/// The spans of builds that the chosen signature covers: one for a byte pattern, and one per minted
/// pattern for a relocated signature.
pub open spec fn spans(images: Seq<&ImageInput>, chosen: Option<SigCandidateV>) -> Seq<AobRangeV> {
    match chosen {
        None => Seq::empty(),
        Some(c) => if pattern::parsed(c.aob) is Some {
            let labels = matched_labels(c.per_version, c.per_version.len() as int);
            if labels.len() == 0 {
                Seq::empty()
            } else {
                seq![
                    AobRangeV {
                        aob: c.aob,
                        minted_in: labels[0],
                        first_label: labels[0],
                        last_label: labels.last(),
                        labels,
                    },
                ]
            }
        } else {
            aob::ranges_of(images, c.per_version)
        },
    }
}

/// The diagnostics of the builds where the pattern was found.
pub open spec fn found_diags(
    images: Seq<&ImageInput>,
    required: Seq<usize>,
    found: Seq<(usize, u64)>,
) -> Seq<DiagV> {
    Seq::new(
        found.len(),
        |k: int|
            DiagV::FoundInBuild {
                label: images[required[found[k].0 as int] as int].label@,
                rva: found[k].1,
            },
    )
}

/// A report without a signature.
pub open spec fn failed(
    images: Seq<&ImageInput>,
    arch: Arch,
    groups: Seq<DupGroupV>,
    diagnostics: Seq<DiagV>,
) -> SigReportV {
    SigReportV {
        arch,
        inputs: infos(images),
        unique_builds: groups.len() as usize,
        duplicate_groups: groups,
        chosen: None,
        alternates: Seq::empty(),
        rejected: Seq::empty(),
        shortlists: Seq::empty(),
        aob_ranges: Seq::empty(),
        diagnostics,
    }
}

/// The candidates for the target: those by their own bytes, or the one that the relocation anchors agree
/// on where there is none.
pub open spec fn pool_of(
    images: Seq<&ImageInput>,
    required: Seq<usize>,
    aim: AimV,
    opts: SigOptions,
) -> Seq<SigCandidateV> {
    let pool = byte_candidates(images, required, aim, opts).0;
    if pool.len() > 0 {
        pool
    } else {
        joined_by(
            pool,
            channels::ensemble_candidate(
                images,
                required,
                required[aim.place as int],
                aim.rva,
                opts,
            ),
        )
    }
}

/// The report on a target that was located.
pub open spec fn aimed_report(
    images: Seq<&ImageInput>,
    aim: AimV,
    diagnostics: Seq<DiagV>,
    opts: SigOptions,
) -> SigReportV {
    let (groups, required) = grouped(images, images.len() as int);
    let order = ranked(pool_of(images, required, aim, opts));
    let chosen = if order.len() > 0 {
        Some(order[0])
    } else {
        None
    };
    SigReportV {
        arch: images[0].arch,
        inputs: infos(images),
        unique_builds: required.len() as usize,
        duplicate_groups: groups,
        chosen,
        alternates: if order.len() > 0 {
            order.skip(1)
        } else {
            order
        },
        rejected: byte_candidates(images, required, aim, opts).1,
        shortlists: if chosen is None {
            relocate::shortlists(images, required, required[aim.place as int], aim.rva, opts)
        } else {
            Seq::empty()
        },
        aob_ranges: spans(images, chosen),
        diagnostics: if chosen is None {
            diagnostics + found_diags(images, required, aim.found) + seq![DiagV::NotUnique]
        } else {
            diagnostics
        },
    }
}

/// The report on a target.
pub open spec fn report_of(
    images: Seq<&ImageInput>,
    target: TargetSpecV,
    opts: SigOptions,
) -> SigReportV {
    let packed = packed_diags(images, images.len() as int);
    if images.len() == 0 {
        failed(images, Arch::X64, Seq::empty(), seq![DiagV::NoInputs])
    } else if mixed(images) {
        failed(images, images[0].arch, Seq::empty(), packed.push(DiagV::MixedArch))
    } else {
        let (groups, required) = grouped(images, images.len() as int);
        match aim_of(images, target) {
            (None, diags) => failed(images, images[0].arch, groups, packed + diags),
            (Some(aim), diags) => aimed_report(images, aim, packed + diags, opts),
        }
    }
}

/// The stages that a run goes through.
pub open spec fn stages_of(images: Seq<&ImageInput>, target: TargetSpecV) -> Seq<SigStage> {
    if images.len() == 0 || mixed(images) {
        Seq::empty()
    } else {
        let total = grouped(images, images.len() as int).1.len();
        seq![SigStage::Deduplicating] + readings(total as int, total as int)
            + seq![SigStage::LocatingTarget] + if aim_of(images, target).0 is Some {
            seq![
                SigStage::ScanningDirect,
                SigStage::ScanningCallJmp,
                SigStage::ScanningPtr,
                SigStage::Scoring,
            ]
        } else {
            Seq::empty()
        }
    }
}

/// The reading of the first `n` of `total` builds.
pub open spec fn readings(n: int, total: int) -> Seq<SigStage> {
    Seq::new(
        n as nat,
        |k: int| SigStage::ReadingCode { build: (k + 1) as usize, total: total as usize },
    )
}

/// A target given by its address can be read in every build with the code of the named one.
pub open spec fn aimable(images: Seq<&ImageInput>, target: TargetSpecV) -> bool {
    match target {
        TargetSpecV::Aob(_) => true,
        TargetSpecV::Ref { image, rva } => image < images.len() ==> forall|i: int|
            0 <= i < images.len() && (#[trigger] images[i]).code_hash
                == images[image as int].code_hash ==> images[i].reaches(rva as int),
    }
}

/// All builds are well formed.
pub open spec fn sound(images: Seq<&ImageInput>) -> bool {
    forall|i: int| 0 <= i < images.len() ==> (#[trigger] images[i]).wf()
}

fn list_inputs(images: &[&ImageInput]) -> (inputs: Vec<InputInfo>)
    ensures
        inputs.deep_view() == infos(images@),
{
    let ghost all = infos(images@);
    let mut inputs: Vec<InputInfo> = Vec::new();
    let mut i: usize = 0;
    assert(inputs.deep_view() =~= all.take(0));
    while i < images.len()
        invariant
            all == infos(images@),
            i <= images@.len(),
            inputs.deep_view() == all.take(i as int),
        decreases images@.len() - i,
    {
        let ghost before = inputs.deep_view();
        let info = InputInfo {
            label: images[i].label.clone(),
            packed: images[i].packed,
            reasons: copy_strings(&images[i].pack_reasons),
        };
        let ghost iv = info.deep_view();
        inputs.push(info);
        i += 1;
        proof {
            assert(inputs.deep_view() =~= before.push(iv));
            assert(inputs.deep_view() =~= all.take(i as int));
        }
    }
    assert(all.take(i as int) =~= all);
    inputs
}

fn list_packed(images: &[&ImageInput]) -> (r: (Vec<Diag>, bool))
    ensures
        r.0.deep_view() == packed_diags(images@, images@.len() as int),
        r.1 == landing::any_packed(images@),
{
    let mut diags: Vec<Diag> = Vec::new();
    let mut any: bool = false;
    let mut n: usize = 0;
    assert(diags.deep_view() =~= Seq::<DiagV>::empty());
    while n < images.len()
        invariant
            n <= images@.len(),
            diags.deep_view() == packed_diags(images@, n as int),
            any ==> landing::any_packed(images@),
            !any ==> forall|i: int| 0 <= i < n ==> !(#[trigger] images@[i]).packed,
        decreases images@.len() - n,
    {
        let ghost before = diags.deep_view();
        let img = images[n];
        if img.packed {
            assert(images@[n as int].packed);
            any = true;
            push_diag(
                &mut diags,
                Diag::PackedInput {
                    label: img.label.clone(),
                    reasons: copy_strings(&img.pack_reasons),
                },
            );
        }
        n += 1;
        assert(diags.deep_view() =~= packed_diags(images@, n as int));
    }
    (diags, any)
}

fn is_mixed(images: &[&ImageInput]) -> (r: bool)
    requires
        images@.len() > 0,
    ensures
        r == mixed(images@),
{
    let mut i: usize = 0;
    while i < images.len()
        invariant
            images@.len() > 0,
            i <= images@.len(),
            forall|k: int| 0 <= k < i ==> (#[trigger] images@[k]).arch == images@[0].arch,
        decreases images@.len() - i,
    {
        if images[i].arch != images[0].arch {
            assert(images@[i as int].arch != images@[0].arch);
            return true;
        }
        i += 1;
    }
    false
}

fn find_group(groups: &Vec<DupGroup>, code_hash: u64) -> (r: Option<usize>)
    ensures
        match r {
            Some(k) => group_place(groups.deep_view(), code_hash, 0) == Some(k as int) && k
                < groups@.len(),
            None => group_place(groups.deep_view(), code_hash, 0) is None,
        },
{
    let ghost gv = groups.deep_view();
    let mut i: usize = 0;
    while i < groups.len()
        invariant
            gv == groups.deep_view(),
            i <= groups@.len(),
            group_place(gv, code_hash, 0) == group_place(gv, code_hash, i as int),
        decreases groups@.len() - i,
    {
        assert(gv[i as int] == groups@[i as int].deep_view());
        if groups[i].code_hash == code_hash {
            return Some(i);
        }
        i += 1;
    }
    None
}

/// Group identical builds by code hash; the first occurrence stands for its group.
fn group_builds(images: &[&ImageInput]) -> (r: (Vec<DupGroup>, Vec<usize>))
    ensures
        (r.0.deep_view(), r.1@) == grouped(images@, images@.len() as int),
        images@.len() <= usize::MAX,
{
    let mut groups: Vec<DupGroup> = Vec::new();
    let mut required: Vec<usize> = Vec::new();
    let mut n: usize = 0;
    assert(groups.deep_view() =~= Seq::<DupGroupV>::empty());
    while n < images.len()
        invariant
            n <= images@.len(),
            (groups.deep_view(), required@) == grouped(images@, n as int),
        decreases images@.len() - n,
    {
        let img = images[n];
        let ghost before = groups.deep_view();
        match find_group(&groups, img.code_hash) {
            Some(k) => {
                assert(before[k as int] == groups@[k as int].deep_view());
                let mut labels = copy_strings(&groups[k].labels);
                let ghost lv = labels.deep_view();
                labels.push(img.label.clone());
                assert(labels.deep_view() =~= lv.push(img.label@));
                let g = DupGroup { code_hash: groups[k].code_hash, labels };
                let ghost view = g.deep_view();
                groups.set(k, g);
                assert(groups.deep_view() =~= before.update(k as int, view));
            },
            None => {
                let mut labels: Vec<String> = Vec::new();
                labels.push(img.label.clone());
                assert(labels.deep_view() =~= seq![img.label@]);
                let g = DupGroup { code_hash: img.code_hash, labels };
                let ghost view = g.deep_view();
                groups.push(g);
                required.push(n);
                assert(groups.deep_view() =~= before.push(view));
            },
        }
        n += 1;
    }
    (groups, required)
}

/// Read the code of the required builds.
fn read_code<P: StageSink>(images: &[&ImageInput], required: &[usize], progress: &mut P) -> (caches: Vec<
    CodeCache,
>)
    requires
        chain::usable(images@, required@),
    ensures
        bytepath::caches_hold(images@, required@, caches@),
        final(progress).reported() == old(progress).reported() + readings(
            required@.len() as int,
            required@.len() as int,
        ),
{
    let ghost start = progress.reported();
    let total: usize = required.len();
    let mut caches: Vec<CodeCache> = Vec::new();
    let mut n: usize = 0;
    assert(start + readings(0, total as int) =~= start);
    while n < total
        invariant
            chain::usable(images@, required@),
            total == required@.len(),
            n <= total,
            caches@.len() == n,
            forall|k: int|
                0 <= k < caches@.len() ==> (#[trigger] caches@[k]).wf() && caches@[k].caches(
                    images@[required@[k] as int],
                ),
            progress.reported() == start + readings(n as int, total as int),
        decreases total - n,
    {
        assert(required@[n as int] < images@.len());
        assert(images@[required@[n as int] as int].wf());
        progress.report(SigStage::ReadingCode { build: n + 1, total });
        caches.push(CodeCache::build(images[required[n]]));
        n += 1;
        assert(progress.reported() =~= start + readings(n as int, total as int));
    }
    caches
}

struct Scan {
    found: Vec<(usize, u64)>,
    diags: Vec<Diag>,
}

fn scan_builds(
    images: &[&ImageInput],
    required: &[usize],
    caches: &Vec<CodeCache>,
    pat: &CompiledPattern,
) -> (s: Scan)
    requires
        chain::usable(images@, required@),
        bytepath::caches_hold(images@, required@, caches@),
        pat.wf(),
    ensures
        (s.found@, s.diags.deep_view()) == scanned(
            images@,
            required@,
            pat.bytes@,
            pat.mask@,
            required@.len() as int,
        ),
        forall|k: int|
            #![trigger s.found@[k]]
            0 <= k < s.found@.len() ==> s.found@[k].0 < required@.len()
                && images@[required@[s.found@[k].0 as int] as int].reaches(s.found@[k].1 as int),
{
    let mut found: Vec<(usize, u64)> = Vec::new();
    let mut diags: Vec<Diag> = Vec::new();
    let mut n: usize = 0;
    assert(diags.deep_view() =~= Seq::<DiagV>::empty());
    while n < required.len()
        invariant
            chain::usable(images@, required@),
            bytepath::caches_hold(images@, required@, caches@),
            pat.wf(),
            n <= required@.len(),
            (found@, diags.deep_view()) == scanned(
                images@,
                required@,
                pat.bytes@,
                pat.mask@,
                n as int,
            ),
            forall|k: int|
                #![trigger found@[k]]
                0 <= k < found@.len() ==> found@[k].0 < required@.len()
                    && images@[required@[found@[k].0 as int] as int].reaches(found@[k].1 as int),
        decreases required@.len() - n,
    {
        let img = images[required[n]];
        proof {
            assert(required@[n as int] < images@.len());
            assert(images@[required@[n as int] as int].wf());
            assert(caches@[n as int].caches(img));
            cache::located_is_in_code(img, pat.bytes@, pat.mask@);
        }
        let ghost before = diags.deep_view();
        let (count, rva) = caches[n].locate(pat);
        assert((count, rva) == cache::located(img, pat.bytes@, pat.mask@));
        if count == 0 {
            push_diag(&mut diags, Diag::MissingInImage { label: img.label.clone() });
        } else if count == 1 && rva.is_some() {
            found.push((n, rva.unwrap()));
        } else if count > 1 {
            push_diag(&mut diags, Diag::AmbiguousInImage { label: img.label.clone(), count });
        }
        n += 1;
        assert(diags.deep_view() =~= scanned(
            images@,
            required@,
            pat.bytes@,
            pat.mask@,
            n as int,
        ).1);
    }
    Scan { found, diags }
}

struct Aim {
    place: usize,
    rva: u64,
    seed: Option<Vec<bool>>,
    found: Vec<(usize, u64)>,
}

impl DeepView for Aim {
    type V = AimV;

    closed spec fn deep_view(&self) -> AimV {
        AimV {
            place: self.place,
            rva: self.rva,
            seed: match self.seed {
                Some(m) => Some(m@),
                None => None,
            },
            found: self.found@,
        }
    }
}

/// The target lies within the required builds and can be read there.
spec fn aim_holds(images: Seq<&ImageInput>, required: Seq<usize>, aim: Aim) -> bool {
    &&& aim.place < required.len()
    &&& images[required[aim.place as int] as int].reaches(aim.rva as int)
    &&& forall|k: int| 0 <= k < aim.found@.len() ==> (#[trigger] aim.found@[k]).0 < required.len()
}

fn single(d: Diag) -> (v: Vec<Diag>)
    ensures
        v.deep_view() == seq![d.deep_view()],
{
    let mut v: Vec<Diag> = Vec::new();
    let ghost dv = d.deep_view();
    v.push(d);
    assert(v.deep_view() =~= seq![dv]);
    v
}

fn take_aim(
    images: &[&ImageInput],
    groups: &Vec<DupGroup>,
    required: &[usize],
    caches: &Vec<CodeCache>,
    target: &TargetSpec,
) -> (r: (Option<Aim>, Vec<Diag>))
    requires
        chain::usable(images@, required@),
        bytepath::caches_hold(images@, required@, caches@),
        (groups.deep_view(), required@) == grouped(images@, images@.len() as int),
        aimable(images@, target.deep_view()),
    ensures
        r.0.deep_view() == aim_of(images@, target.deep_view()).0,
        r.1.deep_view() == aim_of(images@, target.deep_view()).1,
        r.0 matches Some(aim) ==> aim_holds(images@, required@, aim),
{
    match target {
        TargetSpec::Aob(text) => {
            let sig = match try_signature_from_aob(text.as_str()) {
                Ok(sig) => sig,
                Err(reason) => {
                    return (None, single(Diag::InvalidAob { reason }));
                },
            };
            match CompiledPattern::new(&sig) {
                Some(pat) => {
                    let s = scan_builds(images, required, caches, &pat);
                    if s.found.len() == 0 {
                        return (None, s.diags);
                    }
                    let (place, rva) = s.found[0];
                    assert(s.found@[0].0 < required@.len());
                    (Some(Aim { place, rva, seed: Some(sig.mask), found: s.found }), s.diags)
                },
                None => {
                    assert(false);
                    (None, Vec::new())
                },
            }
        },
        TargetSpec::Ref { image, rva } => {
            if *image >= images.len() {
                return (None, single(Diag::BuildFailed));
            }
            let diags: Vec<Diag> = Vec::new();
            assert(diags.deep_view() =~= Seq::<DiagV>::empty());
            proof {
                every_build_is_grouped(images@, images@.len() as int);
                assert(images@[*image as int].code_hash == images@[*image as int].code_hash);
                group_place_is_first(groups.deep_view(), images@[*image as int].code_hash, 0);
            }
            match find_group(groups, images[*image].code_hash) {
                Some(place) => {
                    assert(required@[place as int] < images@.len());
                    assert(images@[required@[place as int] as int].code_hash
                        == images@[*image as int].code_hash);
                    (Some(Aim { place, rva: *rva, seed: None, found: Vec::new() }), diags)
                },
                None => (None, diags),
            }
        },
    }
}

fn list_branches(
    sites: &Vec<u64>,
    ref_idx: usize,
    suffix: Suffix,
    packed: bool,
    opts: &SigOptions,
) -> (v: Vec<Attempt>)
    ensures
        v@ == branch_attempts(sites@, ref_idx, suffix, packed, *opts),
{
    let ghost all = branch_attempts(sites@, ref_idx, suffix, packed, *opts);
    let mut v: Vec<Attempt> = Vec::new();
    let mut k: usize = 0;
    while k < sites.len()
        invariant
            all == branch_attempts(sites@, ref_idx, suffix, packed, *opts),
            k <= sites@.len(),
            v@ == all.take(k as int),
        decreases sites@.len() - k,
    {
        v.push(
            Attempt {
                ref_idx,
                site_rva: sites[k],
                suffix,
                anchor: Anchor::Branch,
                packed,
                opts: *opts,
            },
        );
        k += 1;
        assert(v@ =~= all.take(k as int));
    }
    assert(v@ =~= all);
    v
}

fn list_pointers(sites: &Vec<(u64, bool)>, ref_idx: usize, packed: bool, opts: &SigOptions) -> (v: Vec<
    Attempt,
>)
    ensures
        v@ == Seq::new(
            sites@.len(),
            |k: int|
                Attempt {
                    ref_idx,
                    site_rva: sites@[k].0,
                    suffix: Suffix::Ptr,
                    anchor: Anchor::Ptr { rip: sites@[k].1 },
                    packed,
                    opts: *opts,
                },
        ),
{
    let mut v: Vec<Attempt> = Vec::new();
    let mut k: usize = 0;
    while k < sites.len()
        invariant
            k <= sites@.len(),
            v@.len() == k,
            forall|j: int|
                0 <= j < k ==> (#[trigger] v@[j]) == (Attempt {
                    ref_idx,
                    site_rva: sites@[j].0,
                    suffix: Suffix::Ptr,
                    anchor: Anchor::Ptr { rip: sites@[j].1 },
                    packed,
                    opts: *opts,
                }),
        decreases sites@.len() - k,
    {
        v.push(
            Attempt {
                ref_idx,
                site_rva: sites[k].0,
                suffix: Suffix::Ptr,
                anchor: Anchor::Ptr { rip: sites[k].1 },
                packed,
                opts: *opts,
            },
        );
        k += 1;
    }
    v
}

fn try_sites(
    images: &[&ImageInput],
    caches: &Vec<CodeCache>,
    required: &[usize],
    attempts: &Vec<Attempt>,
    pool: &mut Vec<SigCandidate>,
    rejected: &mut Vec<SigCandidate>,
)
    requires
        chain::usable(images@, required@),
        bytepath::caches_hold(images@, required@, caches@),
        forall|k: int| 0 <= k < attempts@.len() ==> (#[trigger] attempts@[k]).ref_idx < images@.len(),
    ensures
        (final(pool).deep_view(), final(rejected).deep_view()) == tried(
            images@,
            required@,
            attempts@,
            (old(pool).deep_view(), old(rejected).deep_view()),
            attempts@.len() as int,
        ),
{
    let ghost start = (pool.deep_view(), rejected.deep_view());
    let mut n: usize = 0;
    while n < attempts.len()
        invariant
            chain::usable(images@, required@),
            bytepath::caches_hold(images@, required@, caches@),
            forall|k: int|
                0 <= k < attempts@.len() ==> (#[trigger] attempts@[k]).ref_idx < images@.len(),
            n <= attempts@.len(),
            (pool.deep_view(), rejected.deep_view()) == tried(
                images@,
                required@,
                attempts@,
                start,
                n as int,
            ),
        decreases attempts@.len() - n,
    {
        assert(attempts@[n as int].ref_idx < images@.len());
        let (c, more) = candidate_at(images, caches, required, attempts[n], None);
        if let Some(c) = c {
            push_candidate(pool, c);
        }
        let ghost before = rejected.deep_view();
        let ghost mv = more.deep_view();
        let mut more = more;
        rejected.append(&mut more);
        assert(rejected.deep_view() =~= before + mv);
        n += 1;
    }
}

proof fn tried_in_turn(
    images: Seq<&ImageInput>,
    required: Seq<usize>,
    a: Seq<Attempt>,
    b: Seq<Attempt>,
    start: (Seq<SigCandidateV>, Seq<SigCandidateV>),
    n: int,
)
    requires
        0 <= n <= b.len(),
    ensures
        tried(images, required, a + b, start, a.len() + n) == tried(
            images,
            required,
            b,
            tried(images, required, a, start, a.len() as int),
            n,
        ),
    decreases n,
{
    if n > 0 {
        tried_in_turn(images, required, a, b, start, n - 1);
        assert((a + b)[a.len() + n - 1] == b[n - 1]);
    } else {
        tried_of_front(images, required, a, b, start, a.len() as int);
    }
}

proof fn tried_of_front(
    images: Seq<&ImageInput>,
    required: Seq<usize>,
    a: Seq<Attempt>,
    b: Seq<Attempt>,
    start: (Seq<SigCandidateV>, Seq<SigCandidateV>),
    n: int,
)
    requires
        0 <= n <= a.len(),
    ensures
        tried(images, required, a + b, start, n) == tried(images, required, a, start, n),
    decreases n,
{
    if n > 0 {
        tried_of_front(images, required, a, b, start, n - 1);
        assert((a + b)[n - 1] == a[n - 1]);
    }
}

/// Try a signature at the target itself and at every site that leads to it.
fn try_bytes<P: StageSink>(
    images: &[&ImageInput],
    caches: &Vec<CodeCache>,
    required: &[usize],
    aim: &Aim,
    packed: bool,
    opts: &SigOptions,
    progress: &mut P,
) -> (r: (Vec<SigCandidate>, Vec<SigCandidate>))
    requires
        chain::usable(images@, required@),
        bytepath::caches_hold(images@, required@, caches@),
        aim_holds(images@, required@, *aim),
        packed == landing::any_packed(images@),
    ensures
        (r.0.deep_view(), r.1.deep_view()) == byte_candidates(
            images@,
            required@,
            aim.deep_view(),
            *opts,
        ),
        final(progress).reported() == old(progress).reported().push(SigStage::ScanningDirect).push(
            SigStage::ScanningCallJmp,
        ).push(SigStage::ScanningPtr),
{
    progress.report(SigStage::ScanningDirect);
    let ref_idx: usize = required[aim.place];
    assert(required@[aim.place as int] < images@.len());
    let img = images[ref_idx];
    let target_abs: usize = img.base + aim.rva as usize;
    let seed: Option<&Vec<bool>> = match &aim.seed {
        Some(m) => Some(m),
        None => None,
    };
    let direct = Attempt {
        ref_idx,
        site_rva: aim.rva,
        suffix: Suffix::Direct,
        anchor: Anchor::Direct,
        packed,
        opts: *opts,
    };
    let (first, rejected) = candidate_at(images, caches, required, direct, seed);
    let mut rejected = rejected;
    let mut pool: Vec<SigCandidate> = Vec::new();
    assert(pool.deep_view() =~= Seq::<SigCandidateV>::empty());
    if let Some(c) = first {
        push_candidate(&mut pool, c);
    }
    let ghost start = (pool.deep_view(), rejected.deep_view());
    progress.report(SigStage::ScanningCallJmp);
    let code = &caches[aim.place];
    assert(caches@[aim.place as int].caches(img));
    let calls = branch_sites(code, target_abs, img.arch, true);
    let by_call = list_branches(&calls, ref_idx, Suffix::Call, packed, opts);
    try_sites(images, caches, required, &by_call, &mut pool, &mut rejected);
    let jumps = branch_sites(code, target_abs, img.arch, false);
    let by_jump = list_branches(&jumps, ref_idx, Suffix::Jmp, packed, opts);
    try_sites(images, caches, required, &by_jump, &mut pool, &mut rejected);
    progress.report(SigStage::ScanningPtr);
    let ptrs = ptr_sites(code, target_abs, img.arch);
    let by_ptr = list_pointers(&ptrs, ref_idx, packed, opts);
    try_sites(images, caches, required, &by_ptr, &mut pool, &mut rejected);
    proof {
        let all = indirect_sites(img, ref_idx, aim.rva, packed, *opts);
        assert(all =~= by_call@ + by_jump@ + by_ptr@);
        tried_in_turn(
            images@,
            required@,
            by_call@,
            by_jump@,
            start,
            by_jump@.len() as int,
        );
        tried_in_turn(
            images@,
            required@,
            by_call@ + by_jump@,
            by_ptr@,
            start,
            by_ptr@.len() as int,
        );
    }
    (pool, rejected)
}

fn is_better(a: &SigCandidate, b: &SigCandidate) -> (r: bool)
    ensures
        r == better(a.deep_view(), b.deep_view()),
{
    if a.grade.rank() != b.grade.rank() {
        a.grade.rank() < b.grade.rank()
    } else if a.wildcards != b.wildcards {
        a.wildcards < b.wildcards
    } else if a.bytes_len != b.bytes_len {
        a.bytes_len < b.bytes_len
    } else if a.suffix.order() != b.suffix.order() {
        a.suffix.order() < b.suffix.order()
    } else {
        is_before(a.aob.as_str(), b.aob.as_str())
    }
}

proof fn placed_at(s: Seq<SigCandidateV>, x: SigCandidateV, i: int)
    requires
        0 <= i <= s.len(),
        forall|k: int| i <= k < s.len() ==> better(x, #[trigger] s[k]),
        i == 0 || !better(x, s[i - 1]),
    ensures
        placed(s, x) == s.insert(i, x),
    decreases s.len(),
{
    if i < s.len() {
        assert(better(x, s[s.len() - 1]));
        placed_at(s.drop_last(), x, i);
        assert(placed(s, x) =~= s.insert(i, x));
    } else {
        assert(placed(s, x) =~= s.insert(i, x));
    }
}

fn place(v: &mut Vec<SigCandidate>, x: SigCandidate)
    ensures
        final(v).deep_view() == placed(old(v).deep_view(), x.deep_view()),
{
    let ghost s = v.deep_view();
    let ghost xv = x.deep_view();
    let mut i: usize = v.len();
    while i > 0 && is_better(&x, &v[i - 1])
        invariant
            s == v.deep_view(),
            xv == x.deep_view(),
            i <= v@.len(),
            forall|k: int| i <= k < s.len() ==> better(xv, #[trigger] s[k]),
        decreases i,
    {
        assert(s[i - 1] == v@[i - 1].deep_view());
        i -= 1;
    }
    proof {
        if i > 0 {
            assert(s[i - 1] == v@[i - 1].deep_view());
        }
        placed_at(s, xv, i as int);
    }
    v.insert(i, x);
    assert(v.deep_view() =~= s.insert(i as int, xv));
}

fn rank_pool(pool: Vec<SigCandidate>) -> (v: Vec<SigCandidate>)
    ensures
        v.deep_view() == ranked(pool.deep_view()),
{
    let ghost all = pool.deep_view();
    let mut rest: Vec<SigCandidate> = pool;
    let mut turned: Vec<SigCandidate> = Vec::new();
    while rest.len() > 0
        invariant
            rest@.len() + turned@.len() == all.len(),
            rest.deep_view() == all.take(rest@.len() as int),
            forall|k: int|
                0 <= k < turned@.len() ==> (#[trigger] turned@[k]).deep_view() == all[all.len() - 1 - k],
        decreases rest@.len(),
    {
        let ghost before = rest.deep_view();
        let c = rest.pop().unwrap();
        assert(before[before.len() - 1] == c.deep_view());
        assert(rest.deep_view() =~= before.drop_last());
        assert(rest.deep_view() =~= all.take(rest@.len() as int));
        turned.push(c);
    }
    let mut v: Vec<SigCandidate> = Vec::new();
    let ghost mut n: int = 0;
    assert(v.deep_view() =~= Seq::<SigCandidateV>::empty());
    assert(all.take(0) =~= Seq::<SigCandidateV>::empty());
    while turned.len() > 0
        invariant
            n + turned@.len() == all.len(),
            0 <= n,
            forall|k: int|
                0 <= k < turned@.len() ==> (#[trigger] turned@[k]).deep_view() == all[all.len() - 1 - k],
            v.deep_view() == ranked(all.take(n)),
        decreases turned@.len(),
    {
        let c = turned.pop().unwrap();
        proof {
            assert(c.deep_view() == all[n]);
            assert(all.take(n + 1).drop_last() =~= all.take(n));
            assert(all.take(n + 1).last() == all[n]);
            n = n + 1;
        }
        place(&mut v, c);
    }
    assert(all.take(n) =~= all);
    v
}

fn list_labels(rows: &Vec<PerVersion>) -> (labels: Vec<String>)
    ensures
        labels.deep_view() == matched_labels(rows.deep_view(), rows@.len() as int),
{
    let ghost rv = rows.deep_view();
    let mut labels: Vec<String> = Vec::new();
    let mut n: usize = 0;
    assert(labels.deep_view() =~= Seq::<Seq<char>>::empty());
    while n < rows.len()
        invariant
            rv == rows.deep_view(),
            n <= rows@.len(),
            labels.deep_view() == matched_labels(rv, n as int),
        decreases rows@.len() - n,
    {
        assert(rv[n as int] == rows@[n as int].deep_view());
        if rows[n].match_rva.is_some() {
            let ghost before = labels.deep_view();
            let label = rows[n].label.clone();
            let ghost lv = label@;
            labels.push(label);
            assert(labels.deep_view() =~= before.push(lv));
        }
        n += 1;
    }
    labels
}

fn list_spans(images: &[&ImageInput], chosen: &Option<SigCandidate>) -> (ranges: Vec<AobRange>)
    requires
        sound(images@),
    ensures
        ranges.deep_view() == spans(images@, chosen.deep_view()),
{
    let mut ranges: Vec<AobRange> = Vec::new();
    assert(ranges.deep_view() =~= Seq::<AobRangeV>::empty());
    match chosen {
        None => ranges,
        Some(c) => match try_signature_from_aob(c.aob.as_str()) {
            Ok(_) => {
                let labels = list_labels(&c.per_version);
                let ghost lv = labels.deep_view();
                if labels.len() > 0 {
                    assert(lv[0] == labels@[0]@);
                    assert(lv[lv.len() - 1] == labels@[lv.len() - 1]@);
                    let r = AobRange {
                        aob: c.aob.clone(),
                        minted_in: labels[0].clone(),
                        first_label: labels[0].clone(),
                        last_label: labels[labels.len() - 1].clone(),
                        labels,
                    };
                    let ghost view = r.deep_view();
                    ranges.push(r);
                    assert(ranges.deep_view() =~= seq![view]);
                }
                ranges
            },
            Err(_) => collapse_aob_ranges(images, &c.per_version),
        },
    }
}

fn list_found(
    images: &[&ImageInput],
    required: &[usize],
    found: &Vec<(usize, u64)>,
    diags: &mut Vec<Diag>,
)
    requires
        chain::usable(images@, required@),
        forall|k: int| 0 <= k < found@.len() ==> (#[trigger] found@[k]).0 < required@.len(),
    ensures
        final(diags).deep_view() == old(diags).deep_view() + found_diags(
            images@,
            required@,
            found@,
        ),
{
    let ghost start = diags.deep_view();
    let ghost all = found_diags(images@, required@, found@);
    let mut k: usize = 0;
    assert(start + all.take(0) =~= start);
    while k < found.len()
        invariant
            chain::usable(images@, required@),
            forall|k: int| 0 <= k < found@.len() ==> (#[trigger] found@[k]).0 < required@.len(),
            all == found_diags(images@, required@, found@),
            k <= found@.len(),
            diags.deep_view() == start + all.take(k as int),
        decreases found@.len() - k,
    {
        assert(found@[k as int].0 < required@.len());
        let (place, rva) = found[k];
        assert(required@[place as int] < images@.len());
        push_diag(
            diags,
            Diag::FoundInBuild { label: images[required[place]].label.clone(), rva },
        );
        k += 1;
        assert(diags.deep_view() =~= start + all.take(k as int));
    }
    assert(all.take(k as int) =~= all);
}

fn fail(
    images: &[&ImageInput],
    arch: Arch,
    inputs: Vec<InputInfo>,
    groups: Vec<DupGroup>,
    diagnostics: Vec<Diag>,
) -> (r: SigReport)
    requires
        inputs.deep_view() == infos(images@),
    ensures
        r.deep_view() == failed(images@, arch, groups.deep_view(), diagnostics.deep_view()),
{
    let r = SigReport {
        arch,
        inputs,
        unique_builds: groups.len(),
        duplicate_groups: groups,
        chosen: None,
        alternates: Vec::new(),
        rejected: Vec::new(),
        shortlists: Vec::new(),
        aob_ranges: Vec::new(),
        diagnostics,
    };
    proof {
        assert(r.alternates.deep_view() =~= Seq::<SigCandidateV>::empty());
        assert(r.rejected.deep_view() =~= Seq::<SigCandidateV>::empty());
        assert(r.shortlists.deep_view() =~= Seq::<ShortlistV>::empty());
        assert(r.aob_ranges.deep_view() =~= Seq::<AobRangeV>::empty());
    }
    r
}

struct Known {
    inputs: Vec<InputInfo>,
    groups: Vec<DupGroup>,
    diagnostics: Vec<Diag>,
}

fn report_aimed<P: StageSink>(
    images: &[&ImageInput],
    known: Known,
    required: &[usize],
    caches: &Vec<CodeCache>,
    aim: Aim,
    packed: bool,
    opts: &SigOptions,
    progress: &mut P,
) -> (r: SigReport)
    requires
        images@.len() > 0,
        chain::usable(images@, required@),
        bytepath::caches_hold(images@, required@, caches@),
        aim_holds(images@, required@, aim),
        packed == landing::any_packed(images@),
        known.inputs.deep_view() == infos(images@),
        (known.groups.deep_view(), required@) == grouped(images@, images@.len() as int),
    ensures
        r.deep_view() == aimed_report(
            images@,
            aim.deep_view(),
            known.diagnostics.deep_view(),
            *opts,
        ),
        final(progress).reported() == old(progress).reported().push(SigStage::ScanningDirect).push(
            SigStage::ScanningCallJmp,
        ).push(SigStage::ScanningPtr).push(SigStage::Scoring),
{
    let ghost av = aim.deep_view();
    let ghost told = known.diagnostics.deep_view();
    let mut diagnostics = known.diagnostics;
    let (pool, rejected) = try_bytes(images, caches, required, &aim, packed, opts, progress);
    progress.report(SigStage::Scoring);
    let ref_idx: usize = required[aim.place];
    let mut pool = pool;
    assert(pool.deep_view().len() == pool@.len());
    if pool.len() == 0 {
        if let Some(c) = ensemble_relocate(images, required, ref_idx, aim.rva, opts) {
            push_candidate(&mut pool, c);
        }
    }
    let mut order = rank_pool(pool);
    let ghost ov = order.deep_view();
    assert(ov.len() == order@.len());
    let chosen: Option<SigCandidate> = if order.len() > 0 {
        assert(ov[0] == order@[0].deep_view());
        let first = order.remove(0);
        assert(order.deep_view() =~= ov.skip(1));
        Some(first)
    } else {
        None
    };
    let aob_ranges = list_spans(images, &chosen);
    let mut shortlists: Vec<Shortlist> = Vec::new();
    assert(shortlists.deep_view() =~= Seq::<ShortlistV>::empty());
    if chosen.is_none() {
        list_found(images, required, &aim.found, &mut diagnostics);
        let ghost before = diagnostics.deep_view();
        push_diag(&mut diagnostics, Diag::NotUnique);
        assert(diagnostics.deep_view() =~= before + seq![DiagV::NotUnique]);
        shortlists = relocation_shortlists(images, required, ref_idx, aim.rva, opts);
    }
    let r = SigReport {
        arch: images[0].arch,
        inputs: known.inputs,
        unique_builds: required.len(),
        duplicate_groups: known.groups,
        chosen,
        alternates: order,
        rejected,
        shortlists,
        aob_ranges,
        diagnostics,
    };
    assert(r.deep_view() =~= aimed_report(images@, av, told, *opts));
    r
}

proof fn required_exist(images: Seq<&ImageInput>)
    requires
        sound(images),
        images.len() <= usize::MAX,
    ensures
        chain::usable(images, grouped(images, images.len() as int).1),
{
    every_build_is_grouped(images, images.len() as int);
}

proof fn stages_add_up(images: Seq<&ImageInput>, target: TargetSpecV, start: Seq<SigStage>)
    requires
        images.len() > 0,
        !mixed(images),
    ensures
        ({
            let total = grouped(images, images.len() as int).1.len() as int;
            let all = start + stages_of(images, target);
            let located = (start.push(SigStage::Deduplicating) + readings(total, total)).push(
                SigStage::LocatingTarget,
            );
            if aim_of(images, target).0 is Some {
                all == located.push(SigStage::ScanningDirect).push(
                    SigStage::ScanningCallJmp,
                ).push(SigStage::ScanningPtr).push(SigStage::Scoring)
            } else {
                all == located
            }
        }),
{
    let total = grouped(images, images.len() as int).1.len() as int;
    let all = start + stages_of(images, target);
    let located = (start.push(SigStage::Deduplicating) + readings(total, total)).push(
        SigStage::LocatingTarget,
    );
    if aim_of(images, target).0 is Some {
        assert(all =~= located.push(SigStage::ScanningDirect).push(
            SigStage::ScanningCallJmp,
        ).push(SigStage::ScanningPtr).push(SigStage::Scoring));
    } else {
        assert(all =~= located);
    }
}

/// The report on builds of one architecture.
spec fn uniform_report(
    images: Seq<&ImageInput>,
    target: TargetSpecV,
    packed: Seq<DiagV>,
    opts: SigOptions,
) -> SigReportV {
    match aim_of(images, target) {
        (None, diags) => failed(
            images,
            images[0].arch,
            grouped(images, images.len() as int).0,
            packed + diags,
        ),
        (Some(aim), diags) => aimed_report(images, aim, packed + diags, opts),
    }
}

struct Prepared {
    groups: Vec<DupGroup>,
    required: Vec<usize>,
    caches: Vec<CodeCache>,
    aim: Option<Aim>,
    diags: Vec<Diag>,
}

fn prepare<P: StageSink>(images: &[&ImageInput], target: &TargetSpec, progress: &mut P) -> (p: Prepared)
    requires
        images@.len() > 0,
        sound(images@),
        aimable(images@, target.deep_view()),
    ensures
        (p.groups.deep_view(), p.required@) == grouped(images@, images@.len() as int),
        chain::usable(images@, p.required@),
        bytepath::caches_hold(images@, p.required@, p.caches@),
        p.aim.deep_view() == aim_of(images@, target.deep_view()).0,
        p.diags.deep_view() == aim_of(images@, target.deep_view()).1,
        p.aim matches Some(aim) ==> aim_holds(images@, p.required@, aim),
        final(progress).reported() == (old(progress).reported().push(SigStage::Deduplicating)
            + readings(p.required@.len() as int, p.required@.len() as int)).push(
            SigStage::LocatingTarget,
        ),
{
    progress.report(SigStage::Deduplicating);
    let (groups, required) = group_builds(images);
    proof {
        required_exist(images@);
    }
    let caches = read_code(images, required.as_slice(), progress);
    progress.report(SigStage::LocatingTarget);
    let (aim, diags) = take_aim(images, &groups, required.as_slice(), &caches, target);
    Prepared { groups, required, caches, aim, diags }
}

fn report_uniform<P: StageSink>(
    images: &[&ImageInput],
    target: &TargetSpec,
    inputs: Vec<InputInfo>,
    diagnostics: Vec<Diag>,
    packed: bool,
    opts: &SigOptions,
    progress: &mut P,
) -> (r: SigReport)
    requires
        images@.len() > 0,
        !mixed(images@),
        sound(images@),
        aimable(images@, target.deep_view()),
        packed == landing::any_packed(images@),
        inputs.deep_view() == infos(images@),
    ensures
        r.deep_view() == uniform_report(
            images@,
            target.deep_view(),
            diagnostics.deep_view(),
            *opts,
        ),
        final(progress).reported() == old(progress).reported() + stages_of(
            images@,
            target.deep_view(),
        ),
{
    proof {
        stages_add_up(images@, target.deep_view(), progress.reported());
    }
    let mut p = prepare(images, target, progress);
    let ghost packed_view = diagnostics.deep_view();
    let ghost found_view = p.diags.deep_view();
    let mut diagnostics = diagnostics;
    diagnostics.append(&mut p.diags);
    assert(diagnostics.deep_view() =~= packed_view + found_view);
    match p.aim {
        Some(aim) => {
            let known = Known { inputs, groups: p.groups, diagnostics };
            report_aimed(
                images,
                known,
                p.required.as_slice(),
                &p.caches,
                aim,
                packed,
                opts,
                progress,
            )
        },
        None => fail(images, images[0].arch, inputs, p.groups, diagnostics),
    }
}

/// Generate a signature for the target from the builds, telling `progress` about each stage.
pub fn generate_on<P: StageSink>(
    images: &[&ImageInput],
    target: &TargetSpec,
    opts: &SigOptions,
    progress: &mut P,
) -> (r: SigReport)
    requires
        sound(images@),
        aimable(images@, target.deep_view()),
    ensures
        r.deep_view() == report_of(images@, target.deep_view(), *opts),
        final(progress).reported() == old(progress).reported() + stages_of(
            images@,
            target.deep_view(),
        ),
{
    let ghost start = progress.reported();
    let inputs = list_inputs(images);
    let (mut diagnostics, packed) = list_packed(images);
    let groups: Vec<DupGroup> = Vec::new();
    assert(groups.deep_view() =~= Seq::<DupGroupV>::empty());
    assert(start + Seq::<SigStage>::empty() =~= start);
    if images.len() == 0 {
        push_diag(&mut diagnostics, Diag::NoInputs);
        assert(diagnostics.deep_view() =~= seq![DiagV::NoInputs]);
        return fail(images, Arch::X64, inputs, groups, diagnostics);
    }
    if is_mixed(images) {
        push_diag(&mut diagnostics, Diag::MixedArch);
        return fail(images, images[0].arch, inputs, groups, diagnostics);
    }
    report_uniform(images, target, inputs, diagnostics, packed, opts, progress)
}

/// References to the builds.
pub fn refer_to<'a, 'b>(images: &'b [ImageInput<'a>]) -> (v: Vec<&'b ImageInput<'a>>)
    ensures
        v@ == refs(images@),
{
    let mut v: Vec<&'b ImageInput<'a>> = Vec::new();
    let mut i: usize = 0;
    while i < images.len()
        invariant
            i <= images@.len(),
            v@ == refs(images@).take(i as int),
        decreases images@.len() - i,
    {
        v.push(&images[i]);
        i += 1;
        assert(v@ =~= refs(images@).take(i as int));
    }
    assert(v@ =~= refs(images@));
    v
}

/// Generate a signature for the target from the builds, telling `progress` about each stage.
///
/// Identical builds are grouped by their code, and the first of a group stands for it. A signature is
/// tried at the target itself and at every branch and pointer to it, and one counts only where it matches
/// exactly once in every build. Where no byte pattern holds, the target is relocated by its
/// recompile-stable anchors. Confidence comes first in choosing, then fewest wildcards, shortest, kind and
/// text, so that the same inputs always pick the same winner.
pub fn generate_with_progress<P: StageSink>(
    images: &[ImageInput],
    target: &TargetSpec,
    opts: &SigOptions,
    progress: &mut P,
) -> (r: SigReport)
    requires
        sound(refs(images@)),
        aimable(refs(images@), target.deep_view()),
    ensures
        r.deep_view() == report_of(refs(images@), target.deep_view(), *opts),
        final(progress).reported() == old(progress).reported() + stages_of(
            refs(images@),
            target.deep_view(),
        ),
{
    let v = refer_to(images);
    generate_on(v.as_slice(), target, opts, progress)
}

/// Generate a signature for the target from the builds.
pub fn generate(images: &[ImageInput], target: &TargetSpec, opts: &SigOptions) -> (r: SigReport)
    requires
        sound(refs(images@)),
        aimable(refs(images@), target.deep_view()),
    ensures
        r.deep_view() == report_of(refs(images@), target.deep_view(), *opts),
{
    let mut log: Vec<SigStage> = Vec::new();
    generate_with_progress(images, target, opts, &mut log)
}

/// A generated signature, checked to land on `expected_rva` in the reference build. A build with the code of
/// an earlier one is checked in that one.
#[derive(Clone, Debug)]
pub struct CrossReport {
    pub report: SigReport,
    pub expected_rva: u64,
    pub matched_rva: Option<u64>,
    pub agrees: bool,
}

/// The first row of a build.
pub open spec fn row_of(rows: Seq<PerVersionV>, label: Seq<char>, i: int) -> Option<PerVersionV>
    decreases rows.len() - i,
{
    if !(0 <= i < rows.len()) {
        None
    } else if rows[i].label == label {
        Some(rows[i])
    } else {
        row_of(rows, label, i + 1)
    }
}

/// The first build from `i` on with the code: the one that stands for all builds with it.
pub open spec fn first_with(images: Seq<&ImageInput>, code_hash: u64, i: int) -> Option<int>
    decreases images.len() - i,
{
    if !(0 <= i < images.len()) {
        None
    } else if images[i].code_hash == code_hash {
        Some(i)
    } else {
        first_with(images, code_hash, i + 1)
    }
}

/// The label that a build is reported under: that of the first build with its code.
pub open spec fn reported_label(images: Seq<&ImageInput>, image: usize) -> Seq<char> {
    images[first_with(images, images[image as int].code_hash, 0)->0].label@
}

proof fn first_with_is_before(images: Seq<&ImageInput>, image: int, i: int)
    requires
        0 <= i <= image < images.len(),
    ensures
        first_with(images, images[image].code_hash, i) matches Some(k) && i <= k <= image
            && images[k].code_hash == images[image].code_hash && forall|j: int|
            i <= j < k ==> (#[trigger] images[j]).code_hash != images[image].code_hash,
    decreases image - i,
{
    if images[i].code_hash != images[image].code_hash {
        first_with_is_before(images, image, i + 1);
    }
}

/// Builds with the same code are reported under one label, that of the first of them.
pub proof fn duplicates_are_reported_together(images: Seq<&ImageInput>, a: usize, b: usize)
    requires
        a <= b < images.len(),
        images[a as int].code_hash == images[b as int].code_hash,
    ensures
        reported_label(images, a) == reported_label(images, b),
        (forall|j: int|
            0 <= j < a ==> (#[trigger] images[j]).code_hash != images[a as int].code_hash)
            ==> reported_label(images, b) == images[a as int].label@,
{
    first_with_is_before(images, a as int, 0);
}

/// Where the chosen signature points in a build: the resolved target of an anchored one, or its own
/// match, in the first build with the same code.
pub open spec fn pointed_at(
    images: Seq<&ImageInput>,
    chosen: Option<SigCandidateV>,
    ref_image: usize,
) -> Option<u64> {
    match chosen {
        Some(c) => if ref_image < images.len() {
            match row_of(c.per_version, reported_label(images, ref_image), 0) {
                Some(row) => if row.resolved_target_rva is Some {
                    row.resolved_target_rva
                } else {
                    row.match_rva
                },
                None => None,
            }
        } else {
            None
        },
        None => None,
    }
}

fn find_pointed(
    images: &[ImageInput],
    chosen: &Option<SigCandidate>,
    ref_image: usize,
) -> (r: Option<u64>)
    ensures
        r == pointed_at(refs(images@), chosen.deep_view(), ref_image),
{
    let c = match chosen {
        Some(c) => c,
        None => {
            return None;
        },
    };
    if ref_image >= images.len() {
        return None;
    }
    let mut first: usize = 0;
    let ghost all = refs(images@);
    proof {
        first_with_is_before(all, ref_image as int, 0);
    }
    while images[first].code_hash != images[ref_image].code_hash
        invariant
            all == refs(images@),
            first <= ref_image < images@.len(),
            first_with(all, all[ref_image as int].code_hash, 0) == first_with(
                all,
                all[ref_image as int].code_hash,
                first as int,
            ),
        decreases ref_image - first,
    {
        first += 1;
    }
    let label = images[first].label.as_str();
    let ghost rows = c.per_version.deep_view();
    let mut i: usize = 0;
    while i < c.per_version.len()
        invariant
            rows == c.per_version.deep_view(),
            ref_image < images@.len(),
            label@ == reported_label(refs(images@), ref_image),
            i <= c.per_version@.len(),
            row_of(rows, label@, 0) == row_of(rows, label@, i as int),
            chosen.deep_view() == Some(c.deep_view()),
        decreases c.per_version@.len() - i,
    {
        let row = &c.per_version[i];
        assert(rows[i as int] == row.deep_view());
        if same_text(row.label.as_str(), label) {
            return if row.resolved_target_rva.is_some() {
                row.resolved_target_rva
            } else {
                row.match_rva
            };
        }
        i += 1;
    }
    None
}

/// Generate a signature for whatever `aob` matches and check that it lands on `expected_rva` in the build
/// `ref_image`, telling `progress` about each stage.
pub fn generate_cross_with_progress<P: StageSink>(
    images: &[ImageInput],
    aob: &str,
    ref_image: usize,
    expected_rva: u64,
    opts: &SigOptions,
    progress: &mut P,
) -> (r: CrossReport)
    requires
        sound(refs(images@)),
    ensures
        r.report.deep_view() == report_of(refs(images@), TargetSpecV::Aob(aob@), *opts),
        r.expected_rva == expected_rva,
        r.matched_rva == pointed_at(refs(images@), r.report.deep_view().chosen, ref_image),
        r.agrees == (r.matched_rva == Some(expected_rva)),
        final(progress).reported() == old(progress).reported() + stages_of(
            refs(images@),
            TargetSpecV::Aob(aob@),
        ),
{
    let target = TargetSpec::Aob(starting(aob));
    let report = generate_with_progress(images, &target, opts, progress);
    let matched_rva = find_pointed(images, &report.chosen, ref_image);
    let agrees: bool = match matched_rva {
        Some(rva) => rva == expected_rva,
        None => false,
    };
    CrossReport { report, expected_rva, matched_rva, agrees }
}

/// Generate a signature for whatever `aob` matches and check that it lands on `expected_rva` in the build
/// `ref_image`.
pub fn generate_cross(
    images: &[ImageInput],
    aob: &str,
    ref_image: usize,
    expected_rva: u64,
    opts: &SigOptions,
) -> (r: CrossReport)
    requires
        sound(refs(images@)),
    ensures
        r.report.deep_view() == report_of(refs(images@), TargetSpecV::Aob(aob@), *opts),
        r.expected_rva == expected_rva,
        r.matched_rva == pointed_at(refs(images@), r.report.deep_view().chosen, ref_image),
        r.agrees == (r.matched_rva == Some(expected_rva)),
{
    let mut log: Vec<SigStage> = Vec::new();
    generate_cross_with_progress(images, aob, ref_image, expected_rva, opts, &mut log)
}

}
