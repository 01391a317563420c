//! The byte path: minting an exact, build-unique signature from a function's own bytes. Decode a window,
//! mask the operand and relocated bytes, grow it instruction by instruction until the fixed bytes are
//! unique in every required build, then score the result.

use crate::domain::checked_rva;
use crate::pattern;
use crate::resolver;
use crate::resolver::decode_rel_target;
use crate::sigmaker::cache;
use crate::sigmaker::cache::{aob_of, CodeCache};
use crate::sigmaker::chain;
use crate::sigmaker::decode;
use crate::sigmaker::decode::{bitness, mem_target};
use crate::sigmaker::identity;
use crate::sigmaker::identity::{fn_identity, FnIdentity, IdentityV};
use crate::sigmaker::scoring;
use crate::sigmaker::scoring::{
    callee_similarity,
    grade_from,
    is_callee_divergence,
    score,
    AnchorKind,
    Evidence,
    EvidenceV,
    SimilarityBand,
};
use crate::sigmaker::types::{Diag, DiagV, ImageInput, PerVersion, PerVersionV, Ratio};
use crate::sigmaker::types::{SigCandidate, SigCandidateV, SigOptions, Suffix, TargetKind};
use crate::sigmaker::window;
use crate::sigmaker::window::{
    count_but_not,
    count_true,
    decode_masked,
    lay_out,
    list_lengths,
    InstrMaskV,
};
use crate::x86;
use vstd::prelude::*;

verus! {

/// How a signature's match leads to the target.
#[derive(Clone, Copy, PartialEq, Eq, Debug, Structural)]
pub enum Anchor {
    /// The match is the target.
    Direct,
    /// The match branches to the target.
    Branch,
    /// The match refers to the target in memory.
    Ptr { rip: bool },
}

/// The address that an anchor at `site` leads to.
pub open spec fn led_to(anchor: Anchor, img: &ImageInput, site: u64) -> Option<usize> {
    match anchor {
        Anchor::Direct => None,
        Anchor::Branch => if img.base + site + 8 > usize::MAX {
            None
        } else {
            match resolver::rel_target(img.window(site as int, 8), img.base + site) {
                Some(t) => Some(t as usize),
                None => None,
            }
        },
        Anchor::Ptr { .. } => {
            let bits = decode::mode(img.arch);
            let b = img.window(site as int, 16);
            let ip = (img.base + site) as u64;
            if img.base + site + 16 > usize::MAX || x86::head_of(bits, b, ip).invalid {
                None
            } else {
                decode::named_address(bits, b, ip, img.arch)
            }
        },
    }
}

/// The address that an anchor at `site` leads to.
pub fn resolve_anchor(anchor: Anchor, img: &ImageInput, site: u64) -> (r: Option<usize>)
    ensures
        r == led_to(anchor, img, site),
{
    match anchor {
        Anchor::Direct => None,
        Anchor::Branch => {
            if img.base as u128 + site as u128 + 8 > usize::MAX as u128 {
                return None;
            }
            let b = img.read_window(site, 8);
            decode_rel_target(b.as_slice(), img.base + site as usize)
        },
        Anchor::Ptr { .. } => {
            if img.base as u128 + site as u128 + 16 > usize::MAX as u128 {
                return None;
            }
            let bits: u32 = bitness(img.arch);
            let b = img.read_window(site, 16);
            let ip: u64 = (img.base + site as usize) as u64;
            let h = x86::head(bits, b.as_slice(), ip);
            if h.invalid {
                None
            } else {
                mem_target(bits, b.as_slice(), ip, img.arch)
            }
        },
    }
}

/// Whether a signature of `len` bytes is worth looking for: enough fixed bytes, in all and in
/// proportion, and an opcode byte among them.
pub open spec fn worthwhile(fixed: Seq<bool>, operand: Seq<bool>, opts: SigOptions) -> bool {
    &&& window::trues(fixed) >= opts.min_fixed
    &&& window::trues(window::but_not(fixed, operand)) > 0
    &&& !(Ratio { num: window::trues(fixed) as usize, den: fixed.len() as usize }).below(
        opts.min_fixed_ratio,
    )
}

/// The first signature of the lengths from `i` on that occurs once in the image.
pub open spec fn first_unique(
    img: &ImageInput,
    b: Seq<u8>,
    masks: Seq<InstrMaskV>,
    lens: Seq<usize>,
    opts: SigOptions,
    i: int,
) -> Option<Seq<char>>
    decreases lens.len() - i,
{
    if !(0 <= i < lens.len()) {
        None
    } else {
        let len = lens[i] as int;
        let fixed = window::fixed_in(masks, len);
        if 0 < len <= b.len() && worthwhile(fixed, window::operand_in(masks, len), opts)
            && cache::located(img, b.take(len), fixed).0 == 1 {
            Some(pattern::aob_text(b.take(len), fixed))
        } else {
            first_unique(img, b, masks, lens, opts, i + 1)
        }
    }
}

/// The window that a signature is cut from.
pub open spec fn window_at(img: &ImageInput, rva: int, opts: SigOptions) -> Seq<u8> {
    img.window(rva, opts.max_len + 16)
}

/// The signature that the code at `rva` gives in its own build.
pub open spec fn build_aob(img: &ImageInput, rva: int, opts: SigOptions) -> Option<Seq<char>> {
    let b = window_at(img, rva, opts);
    let masks = window::masks_of(img, b, rva, opts.max_len);
    first_unique(
        img,
        b,
        masks,
        window::lengths(masks, opts.max_len, None, b.len() as int),
        opts,
        0,
    )
}

/// Read the window that a signature is cut from.
pub fn read_code(img: &ImageInput, rva: u64, opts: &SigOptions) -> (b: Vec<u8>)
    ensures
        b@ == window_at(img, rva as int, *opts),
        b@.len() > 0 ==> img.base + rva + b@.len() <= usize::MAX,
{
    if opts.max_len > usize::MAX - 16 {
        return Vec::new();
    }
    img.read_window(rva, opts.max_len + 16)
}

/// Mint a byte signature unique within a single build at `rva`, masking operand and relocated bytes and
/// growing the window instruction by instruction until the pattern matches exactly once in that build.
/// This is how a relocation hands back a usable signature for a recompiled build. `None` if no
/// operand-masked window up to `opts.max_len` is unique, or the site cannot be read.
pub fn single_build_aob(img: &ImageInput, rva: usize, opts: &SigOptions) -> (r: Option<String>)
    requires
        img.wf(),
    ensures
        r.deep_view() == build_aob(img, rva as int, *opts),
{
    let b = read_code(img, rva as u64, opts);
    if b.len() == 0 {
        proof {
            let masks = window::masks_of(img, b@, rva as int, opts.max_len);
            assert(masks =~= Seq::<InstrMaskV>::empty());
        }
        return None;
    }
    let code = CodeCache::build(img);
    let masks = decode_masked(img, b.as_slice(), rva, opts.max_len);
    let ghost mv = masks.deep_view();
    let lens = list_lengths(&masks, opts.max_len, None, b.len());
    let mut i: usize = 0;
    while i < lens.len()
        invariant
            img.wf(),
            code.caches(img),
            code.wf(),
            mv == masks.deep_view(),
            b@ == window_at(img, rva as int, *opts),
            mv == window::masks_of(img, b@, rva as int, opts.max_len),
            window::masks_fit(mv, b@.len() as int),
            lens@ == window::lengths(mv, opts.max_len, None, b@.len() as int),
            i <= lens@.len(),
            build_aob(img, rva as int, *opts) == first_unique(img, b@, mv, lens@, *opts, i as int),
        decreases lens@.len() - i,
    {
        let len: usize = lens[i];
        if len > 0 && len <= b.len() {
            let (fixed, operand) = lay_out(&masks, len);
            let n: usize = count_true(&fixed);
            let meaningful: usize = count_but_not(&fixed, &operand);
            let ratio = Ratio { num: n, den: len };
            if n >= opts.min_fixed && meaningful > 0 && !ratio.is_below(opts.min_fixed_ratio) {
                let bytes = vstd::slice::slice_subrange(b.as_slice(), 0, len);
                assert(bytes@ =~= b@.take(len as int));
                let (count, _) = code.locate_masked(bytes, &fixed);
                if count == 1 {
                    return Some(aob_of(bytes, &fixed));
                }
            }
        }
        i += 1;
    }
    None
}

/// The bytes that stay fixed after the first `n` builds: a byte that differs or is missing at the site
/// of another build is masked.
pub open spec fn survived(
    images: Seq<&ImageInput>,
    required: Seq<usize>,
    sites: Seq<u64>,
    ref_idx: int,
    bytes: Seq<u8>,
    fixed: Seq<bool>,
    n: int,
) -> Seq<bool>
    decreases n,
{
    if n <= 0 {
        fixed
    } else {
        let before = survived(images, required, sites, ref_idx, bytes, fixed, n - 1);
        let idx = required[n - 1] as int;
        if idx == ref_idx {
            before
        } else {
            let other = images[idx].window(sites[n - 1] as int, bytes.len() as int);
            Seq::new(
                before.len(),
                |k: int| before[k] && k < other.len() && other[k] == bytes[k],
            )
        }
    }
}

/// What was found at the matches in the builds so far.
#[verifier::ext_equal]
pub struct SweepV {
    pub rows: Seq<PerVersionV>,
    pub idents: Seq<IdentityV>,
    pub kinds: Seq<TargetKind>,
    pub diags: Seq<DiagV>,
    pub all_code: bool,
    pub unresolved: bool,
    pub unique: bool,
}

/// A row of what was found in a build.
pub open spec fn row(
    label: Seq<char>,
    match_rva: Option<u64>,
    target: Option<(u64, TargetKind)>,
    similarity: Option<u64>,
) -> PerVersionV {
    PerVersionV {
        label,
        match_rva,
        resolved_target_rva: match target {
            Some((rva, _)) => Some(rva),
            None => None,
        },
        target_kind: match target {
            Some((_, kind)) => Some(kind),
            None => None,
        },
        fingerprint_similarity: similarity,
        aob: None,
    }
}

/// What was found, with one more build: how often the pattern matches there, and what its anchor leads
/// to. A target outside the image is treated as unresolvable rather than recorded.
pub open spec fn swept_on(
    s: SweepV,
    img: &ImageInput,
    bytes: Seq<u8>,
    fixed: Seq<bool>,
    anchor: Anchor,
) -> SweepV {
    let (count, at) = cache::located(img, bytes, fixed);
    let unique = s.unique && count == 1;
    if anchor == Anchor::Direct || at is None {
        SweepV { rows: s.rows.push(row(img.label@, at, None, None)), unique, ..s }
    } else {
        match led_to(anchor, img, at->0) {
            Some(t) => if img.in_image(t as int) {
                let rva = (t - img.base) as u64;
                let kind = img.kind_of(t as int);
                if kind == TargetKind::Code {
                    let id = identity::identity_at(img, rva as int);
                    SweepV {
                        rows: s.rows.push(
                            row(
                                img.label@,
                                at,
                                Some((rva, kind)),
                                if s.idents.len() > 0 {
                                    Some(identity::likeness(s.idents[0], id) as u64)
                                } else {
                                    None
                                },
                            ),
                        ),
                        idents: s.idents.push(id),
                        kinds: s.kinds.push(kind),
                        unique,
                        ..s
                    }
                } else {
                    SweepV {
                        rows: s.rows.push(row(img.label@, at, Some((rva, kind)), None)),
                        kinds: s.kinds.push(kind),
                        diags: if anchor == Anchor::Branch {
                            s.diags.push(
                                DiagV::TargetNotCode { label: img.label@, rva: rva as usize },
                            )
                        } else {
                            s.diags
                        },
                        all_code: false,
                        unique,
                        ..s
                    }
                }
            } else {
                SweepV {
                    rows: s.rows.push(row(img.label@, at, None, None)),
                    diags: s.diags.push(DiagV::UnresolvableTarget { label: img.label@ }),
                    unresolved: true,
                    unique,
                    ..s
                }
            },
            None => SweepV {
                rows: s.rows.push(row(img.label@, at, None, None)),
                diags: s.diags.push(DiagV::UnresolvableTarget { label: img.label@ }),
                unresolved: true,
                unique,
                ..s
            },
        }
    }
}

/// What was found in the first `n` required builds.
pub open spec fn swept(
    images: Seq<&ImageInput>,
    required: Seq<usize>,
    bytes: Seq<u8>,
    fixed: Seq<bool>,
    anchor: Anchor,
    n: int,
) -> SweepV
    decreases n,
{
    if n <= 0 {
        SweepV {
            rows: Seq::empty(),
            idents: Seq::empty(),
            kinds: Seq::empty(),
            diags: Seq::empty(),
            all_code: true,
            unresolved: false,
            unique: true,
        }
    } else {
        swept_on(
            swept(images, required, bytes, fixed, anchor, n - 1),
            images[required[n - 1] as int],
            bytes,
            fixed,
            anchor,
        )
    }
}

/// The caches hold the code of the required builds.
pub open spec fn caches_hold(
    images: Seq<&ImageInput>,
    required: Seq<usize>,
    caches: Seq<CodeCache>,
) -> bool {
    &&& caches.len() == required.len()
    &&& forall|k: int|
        0 <= k < caches.len() ==> (#[trigger] caches[k]).wf() && caches[k].caches(
            images[required[k] as int],
        )
}

struct Sweep {
    rows: Vec<PerVersion>,
    idents: Vec<FnIdentity>,
    kinds: Vec<TargetKind>,
    diags: Vec<Diag>,
    all_code: bool,
    unresolved: bool,
    unique: bool,
}

impl DeepView for Sweep {
    type V = SweepV;

    closed spec fn deep_view(&self) -> SweepV {
        SweepV {
            rows: self.rows.deep_view(),
            idents: self.idents.deep_view(),
            kinds: self.kinds@,
            diags: self.diags.deep_view(),
            all_code: self.all_code,
            unresolved: self.unresolved,
            unique: self.unique,
        }
    }
}

fn make_row(
    img: &ImageInput,
    match_rva: Option<u64>,
    target: Option<(u64, TargetKind)>,
    similarity: Option<u64>,
) -> (r: PerVersion)
    ensures
        r.deep_view() == row(img.label@, match_rva, target, similarity),
{
    let resolved: Option<u64> = match target {
        Some((rva, _)) => Some(rva),
        None => None,
    };
    let kind: Option<TargetKind> = match target {
        Some((_, kind)) => Some(kind),
        None => None,
    };
    PerVersion {
        label: img.label.clone(),
        match_rva,
        resolved_target_rva: resolved,
        target_kind: kind,
        fingerprint_similarity: similarity,
        aob: None,
    }
}

fn push_row(v: &mut Vec<PerVersion>, r: PerVersion)
    ensures
        final(v).deep_view() == old(v).deep_view().push(r.deep_view()),
{
    let ghost before = v.deep_view();
    v.push(r);
    assert(v.deep_view() =~= before.push(r.deep_view()));
}

/// Add a diagnostic.
pub fn push_diag(v: &mut Vec<Diag>, d: Diag)
    ensures
        final(v).deep_view() == old(v).deep_view().push(d.deep_view()),
{
    let ghost before = v.deep_view();
    v.push(d);
    assert(v.deep_view() =~= before.push(d.deep_view()));
}

fn push_ident(v: &mut Vec<FnIdentity>, id: FnIdentity)
    ensures
        final(v).deep_view() == old(v).deep_view().push(id.deep_view()),
{
    let ghost before = v.deep_view();
    v.push(id);
    assert(v.deep_view() =~= before.push(id.deep_view()));
}

fn sweep_build(
    s: Sweep,
    img: &ImageInput,
    code: &CodeCache,
    bytes: &[u8],
    fixed: &Vec<bool>,
    anchor: Anchor,
) -> (r: Sweep)
    requires
        img.wf(),
        code.wf(),
        code.caches(img),
        bytes@.len() > 0,
        bytes@.len() == fixed@.len(),
    ensures
        r.deep_view() == swept_on(s.deep_view(), img, bytes@, fixed@, anchor),
{
    let ghost before = s.deep_view();
    let mut s = s;
    let (count, at) = code.locate_masked(bytes, fixed);
    assert((count, at) == cache::located(img, bytes@, fixed@));
    if count != 1 {
        s.unique = false;
    }
    let site: u64 = match at {
        Some(site) if anchor != Anchor::Direct => site,
        _ => {
            push_row(&mut s.rows, make_row(img, at, None, None));
            assert(s.deep_view() =~= swept_on(before, img, bytes@, fixed@, anchor));
            return s;
        },
    };
    let target: Option<u64> = match resolve_anchor(anchor, img, site) {
        Some(t) => match checked_rva(t, img.base, img.size) {
            Ok(rva) => Some(rva),
            Err(_) => None,
        },
        None => None,
    };
    match target {
        None => {
            s.unresolved = true;
            push_diag(&mut s.diags, Diag::UnresolvableTarget { label: img.label.clone() });
            push_row(&mut s.rows, make_row(img, at, None, None));
        },
        Some(rva) => {
            let t: usize = img.base + rva as usize;
            let kind = img.classify(t);
            s.kinds.push(kind);
            if kind == TargetKind::Code {
                let id = fn_identity(img, rva as usize);
                let sim: Option<u64> = if s.idents.len() > 0 {
                    assert(before.idents[0] == s.idents@[0].deep_view());
                    Some(s.idents[0].similarity(&id))
                } else {
                    None
                };
                push_ident(&mut s.idents, id);
                push_row(&mut s.rows, make_row(img, at, Some((rva, kind)), sim));
            } else {
                s.all_code = false;
                if anchor == Anchor::Branch {
                    push_diag(
                        &mut s.diags,
                        Diag::TargetNotCode { label: img.label.clone(), rva: rva as usize },
                    );
                }
                push_row(&mut s.rows, make_row(img, at, Some((rva, kind)), None));
            }
        },
    }
    assert(s.deep_view() =~= swept_on(before, img, bytes@, fixed@, anchor));
    s
}

/// The bytes that are fixed.
pub open spec fn kept(bytes: Seq<u8>, fixed: Seq<bool>, n: int) -> Seq<u8>
    decreases n,
{
    if n <= 0 {
        Seq::empty()
    } else if fixed[n - 1] {
        kept(bytes, fixed, n - 1).push(bytes[n - 1])
    } else {
        kept(bytes, fixed, n - 1)
    }
}

/// All the same.
pub open spec fn uniform(kinds: Seq<TargetKind>) -> bool {
    forall|i: int| 0 <= i < kinds.len() ==> #[trigger] kinds[i] == kinds[0]
}

/// A diagnostic where it applies.
pub open spec fn noted(holds: bool, d: DiagV) -> Seq<DiagV> {
    if holds {
        seq![d]
    } else {
        Seq::empty()
    }
}

/// How the anchor counts in the score.
pub open spec fn class_of(anchor: Anchor) -> AnchorKind {
    match anchor {
        Anchor::Direct => AnchorKind::Direct,
        Anchor::Branch => AnchorKind::Branch,
        Anchor::Ptr { rip } => if rip {
            AnchorKind::RipPtr
        } else {
            AnchorKind::AbsPtr
        },
    }
}

/// What the hard gates say of a candidate. An unsupported relocation could still patch a byte that is
/// kept fixed, so it is rejected rather than shipped.
pub open spec fn gates(
    fixed: Seq<bool>,
    operand: Seq<bool>,
    unsupported: Option<(usize, u8)>,
    opts: SigOptions,
) -> Seq<DiagV> {
    let n = window::trues(fixed);
    let ratio = Ratio { num: n as usize, den: fixed.len() as usize };
    noted(n < opts.min_fixed, DiagV::TooFewFixedBytes { fixed: n as usize }) + noted(
        ratio.below(opts.min_fixed_ratio),
        DiagV::LowFixedRatio { ratio },
    ) + noted(window::trues(window::but_not(fixed, operand)) == 0, DiagV::NoOpcodeBytes) + match unsupported {
        Some((rva, reloc_type)) => seq![DiagV::UnsupportedReloc { rva, reloc_type }],
        None => Seq::empty(),
    }
}

/// Everything observed about a candidate.
pub open spec fn evidence_of(
    bytes: Seq<u8>,
    base_fixed: Seq<bool>,
    fixed: Seq<bool>,
    operand: Seq<bool>,
    s: SweepV,
    anchor: Anchor,
    unsupported: Option<(usize, u8)>,
    packed: bool,
    builds: usize,
) -> EvidenceV {
    let n = window::trues(fixed) as usize;
    let initial = window::trues(base_fixed) as usize;
    EvidenceV {
        anchor: class_of(anchor),
        is_anchor: anchor != Anchor::Direct,
        all_code: s.all_code,
        any_unresolved: s.unresolved,
        callee_similarity: scoring::agreement_of(s.idents),
        kinds_consistent: uniform(s.kinds),
        first_kind: if s.kinds.len() > 0 {
            Some(s.kinds[0])
        } else {
            None
        },
        reloc_safe: unsupported is None,
        packed,
        fixed_bytes: kept(bytes, fixed, bytes.len() as int),
        fixed_n: n,
        len: bytes.len() as usize,
        meaningful: window::trues(window::but_not(fixed, operand)) as usize,
        operand_masked: window::trues(window::but_not(operand, fixed)) as usize,
        builds,
        ref_ident: if s.idents.len() > 0 {
            Some(s.idents[0])
        } else {
            None
        },
        byte_survival: if initial == 0 {
            Ratio { num: 1, den: 1 }
        } else {
            Ratio { num: n, den: initial }
        },
    }
}

/// The callee differs across builds beyond the drift of a recompile.
pub open spec fn mismatched(s: SweepV, anchor: Anchor) -> bool {
    anchor != Anchor::Direct && !s.unresolved && (scoring::agreement_of(s.idents) matches Some(sim)
        && SimilarityBand::band(sim) == SimilarityBand::Low)
}

/// A window that was found in every required build.
pub struct Found<'a> {
    pub bytes: &'a [u8],
    pub fixed: &'a Vec<bool>,
    pub operand: &'a Vec<bool>,
    pub unsupported: Option<(usize, u8)>,
    /// Where it was found, per required build.
    pub sites: &'a Vec<u64>,
}

/// The candidate that a window gives, or `None` where masking the bytes that differ across builds made
/// it ambiguous.
pub open spec fn finalized_from(
    images: Seq<&ImageInput>,
    required: Seq<usize>,
    ref_idx: int,
    bytes: Seq<u8>,
    base_fixed: Seq<bool>,
    operand: Seq<bool>,
    unsupported: Option<(usize, u8)>,
    sites: Seq<u64>,
    suffix: Suffix,
    anchor: Anchor,
    packed: bool,
    opts: SigOptions,
) -> Option<SigCandidateV> {
    let fixed = survived(
        images,
        required,
        sites,
        ref_idx,
        bytes,
        base_fixed,
        required.len() as int,
    );
    let s = swept(images, required, bytes, fixed, anchor, required.len() as int);
    if !s.unique {
        None
    } else {
        let n = window::trues(fixed) as usize;
        let barred = gates(fixed, operand, unsupported, opts);
        let ev = evidence_of(
            bytes,
            base_fixed,
            fixed,
            operand,
            s,
            anchor,
            unsupported,
            packed,
            required.len() as usize,
        );
        let scores = scoring::scores_of(ev);
        Some(
            SigCandidateV {
                aob: pattern::aob_text(bytes, fixed),
                suffix,
                grade: scoring::graded(scores.final_score as int, barred.len() > 0, packed),
                score: scores.final_score,
                bytes_len: bytes.len() as usize,
                fixed: n,
                wildcards: (bytes.len() - n) as usize,
                fixed_ratio: Ratio { num: n, den: bytes.len() as usize },
                reloc_safe: unsupported is None,
                gated: barred.len() > 0,
                packed,
                scores,
                reasons: scoring::reasons_of(ev),
                per_version: s.rows,
                diags: s.diags + barred + noted(mismatched(s, anchor), DiagV::CalleeMismatch),
                relocation: None,
            },
        )
    }
}

/// The candidate that a window gives.
pub open spec fn finalized(
    images: Seq<&ImageInput>,
    required: Seq<usize>,
    ref_idx: int,
    f: Found,
    suffix: Suffix,
    anchor: Anchor,
    packed: bool,
    opts: SigOptions,
) -> Option<SigCandidateV> {
    finalized_from(
        images,
        required,
        ref_idx,
        f.bytes@,
        f.fixed@,
        f.operand@,
        f.unsupported,
        f.sites@,
        suffix,
        anchor,
        packed,
        opts,
    )
}

fn mask_differences(
    images: &[&ImageInput],
    required: &[usize],
    ref_idx: usize,
    f: &Found,
) -> (fixed: Vec<bool>)
    requires
        chain::usable(images@, required@),
        f.sites@.len() == required@.len(),
        f.fixed@.len() == f.bytes@.len(),
    ensures
        fixed@ == survived(
            images@,
            required@,
            f.sites@,
            ref_idx as int,
            f.bytes@,
            f.fixed@,
            required@.len() as int,
        ),
        fixed@.len() == f.bytes@.len(),
{
    let mut fixed = f.fixed.clone();
    assert(fixed@ =~= f.fixed@);
    let len: usize = f.bytes.len();
    let mut n: usize = 0;
    while n < required.len()
        invariant
            chain::usable(images@, required@),
            f.sites@.len() == required@.len(),
            len == f.bytes@.len(),
            fixed@.len() == len,
            n <= required@.len(),
            fixed@ == survived(
                images@,
                required@,
                f.sites@,
                ref_idx as int,
                f.bytes@,
                f.fixed@,
                n as int,
            ),
        decreases required@.len() - n,
    {
        let idx: usize = required[n];
        assert(required@[n as int] < images@.len());
        if idx != ref_idx {
            let other = images[idx].read_window(f.sites[n], len);
            let ghost before = fixed@;
            let ghost after = Seq::new(
                before.len(),
                |k: int| before[k] && k < other@.len() && other@[k] == f.bytes@[k],
            );
            let mut k: usize = 0;
            while k < len
                invariant
                    len == f.bytes@.len(),
                    before.len() == len,
                    after == Seq::new(
                        before.len(),
                        |k: int| before[k] && k < other@.len() && other@[k] == f.bytes@[k],
                    ),
                    k <= len,
                    fixed@ == after.take(k as int) + before.skip(k as int),
                decreases len - k,
            {
                if fixed[k] && !(k < other.len() && other[k] == f.bytes[k]) {
                    fixed.set(k, false);
                }
                k += 1;
                assert(fixed@ =~= after.take(k as int) + before.skip(k as int));
            }
            assert(fixed@ =~= after);
        }
        n += 1;
    }
    fixed
}

fn keep_fixed(bytes: &[u8], fixed: &Vec<bool>) -> (r: Vec<u8>)
    requires
        bytes@.len() == fixed@.len(),
    ensures
        r@ == kept(bytes@, fixed@, bytes@.len() as int),
{
    let mut r: Vec<u8> = Vec::new();
    let mut n: usize = 0;
    while n < bytes.len()
        invariant
            bytes@.len() == fixed@.len(),
            n <= bytes@.len(),
            r@ == kept(bytes@, fixed@, n as int),
        decreases bytes@.len() - n,
    {
        if fixed[n] {
            r.push(bytes[n]);
        }
        n += 1;
    }
    r
}

fn is_uniform(kinds: &Vec<TargetKind>) -> (r: bool)
    ensures
        r == uniform(kinds@),
{
    let mut i: usize = 0;
    while i < kinds.len()
        invariant
            i <= kinds@.len(),
            forall|k: int| 0 <= k < i ==> #[trigger] kinds@[k] == kinds@[0],
        decreases kinds@.len() - i,
    {
        if kinds[i] != kinds[0] {
            assert(kinds@[i as int] != kinds@[0]);
            return false;
        }
        i += 1;
    }
    true
}

fn sweep(
    images: &[&ImageInput],
    caches: &Vec<CodeCache>,
    required: &[usize],
    bytes: &[u8],
    fixed: &Vec<bool>,
    anchor: Anchor,
) -> (s: Sweep)
    requires
        chain::usable(images@, required@),
        caches_hold(images@, required@, caches@),
        bytes@.len() > 0,
        bytes@.len() == fixed@.len(),
    ensures
        s.deep_view() == swept(
            images@,
            required@,
            bytes@,
            fixed@,
            anchor,
            required@.len() as int,
        ),
{
    let mut s = Sweep {
        rows: Vec::new(),
        idents: Vec::new(),
        kinds: Vec::new(),
        diags: Vec::new(),
        all_code: true,
        unresolved: false,
        unique: true,
    };
    assert(s.deep_view() =~= swept(images@, required@, bytes@, fixed@, anchor, 0));
    let mut n: usize = 0;
    while n < required.len()
        invariant
            chain::usable(images@, required@),
            caches_hold(images@, required@, caches@),
            bytes@.len() > 0,
            bytes@.len() == fixed@.len(),
            n <= required@.len(),
            s.deep_view() == swept(images@, required@, bytes@, fixed@, anchor, n as int),
        decreases required@.len() - n,
    {
        let idx: usize = required[n];
        proof {
            assert(required@[n as int] < images@.len());
            assert(images@[idx as int].wf());
            assert(caches@[n as int].wf());
        }
        s = sweep_build(s, images[idx], &caches[n], bytes, fixed, anchor);
        n += 1;
    }
    s
}

fn bar(
    fixed: &Vec<bool>,
    n: usize,
    meaningful: usize,
    unsupported: Option<(usize, u8)>,
    opts: &SigOptions,
    diags: &mut Vec<Diag>,
    Ghost(operand): Ghost<Seq<bool>>,
) -> (gated: bool)
    requires
        n == window::trues(fixed@),
        meaningful == window::trues(window::but_not(fixed@, operand)),
    ensures
        gated == (gates(fixed@, operand, unsupported, *opts).len() > 0),
        final(diags).deep_view() == old(diags).deep_view() + gates(
            fixed@,
            operand,
            unsupported,
            *opts,
        ),
{
    let ghost start = diags.deep_view();
    let mut gated: bool = false;
    let ratio = Ratio { num: n, den: fixed.len() };
    if n < opts.min_fixed {
        push_diag(diags, Diag::TooFewFixedBytes { fixed: n });
        gated = true;
    }
    if ratio.is_below(opts.min_fixed_ratio) {
        push_diag(diags, Diag::LowFixedRatio { ratio });
        gated = true;
    }
    if meaningful == 0 {
        push_diag(diags, Diag::NoOpcodeBytes);
        gated = true;
    }
    if let Some((rva, reloc_type)) = unsupported {
        push_diag(diags, Diag::UnsupportedReloc { rva, reloc_type });
        gated = true;
    }
    assert(diags.deep_view() =~= start + gates(fixed@, operand, unsupported, *opts));
    gated
}

/// Score a window that was found in every required build: mask the bytes that differ across builds,
/// require that it still matches once everywhere, follow its anchor in each build, and grade what was
/// observed. The grade is derived from the sub-scores; hard gates force F and a packed input caps at D.
pub fn finalize(
    images: &[&ImageInput],
    caches: &Vec<CodeCache>,
    required: &[usize],
    ref_idx: usize,
    f: &Found,
    suffix: Suffix,
    anchor: Anchor,
    packed: bool,
    opts: &SigOptions,
) -> (r: Option<SigCandidate>)
    requires
        chain::usable(images@, required@),
        caches_hold(images@, required@, caches@),
        f.bytes@.len() > 0,
        f.fixed@.len() == f.bytes@.len(),
        f.operand@.len() == f.bytes@.len(),
        f.sites@.len() == required@.len(),
    ensures
        r.deep_view() == finalized(
            images@,
            required@,
            ref_idx as int,
            *f,
            suffix,
            anchor,
            packed,
            *opts,
        ),
{
    let len: usize = f.bytes.len();
    let fixed = mask_differences(images, required, ref_idx, f);
    let s = sweep(images, caches, required, f.bytes, &fixed, anchor);
    let ghost sv = s.deep_view();
    if !s.unique {
        return None;
    }
    let n: usize = count_true(&fixed);
    let meaningful: usize = count_but_not(&fixed, f.operand);
    let Sweep { rows, idents, kinds, diags, all_code, unresolved, unique } = s;
    let mut diags = diags;
    let gated: bool = bar(
        &fixed,
        n,
        meaningful,
        f.unsupported,
        opts,
        &mut diags,
        Ghost(f.operand@),
    );
    let ids = idents.as_slice();
    assert(ids.deep_view() =~= sv.idents);
    let agreement = callee_similarity(ids);
    let is_anchor: bool = anchor != Anchor::Direct;
    if let Some(sim) = agreement {
        if is_anchor && !unresolved && is_callee_divergence(sim) {
            push_diag(&mut diags, Diag::CalleeMismatch);
        }
    }
    let initial: usize = count_true(f.fixed);
    let first: Option<&FnIdentity> = if idents.len() > 0 {
        Some(&idents[0])
    } else {
        None
    };
    let ev = Evidence {
        anchor: match anchor {
            Anchor::Direct => AnchorKind::Direct,
            Anchor::Branch => AnchorKind::Branch,
            Anchor::Ptr { rip } => if rip {
                AnchorKind::RipPtr
            } else {
                AnchorKind::AbsPtr
            },
        },
        is_anchor,
        all_code,
        any_unresolved: unresolved,
        callee_similarity: agreement,
        kinds_consistent: is_uniform(&kinds),
        first_kind: if kinds.len() > 0 {
            Some(kinds[0])
        } else {
            None
        },
        reloc_safe: f.unsupported.is_none(),
        packed,
        fixed_bytes: keep_fixed(f.bytes, &fixed),
        fixed_n: n,
        len,
        meaningful,
        operand_masked: count_but_not(f.operand, &fixed),
        builds: required.len(),
        ref_ident: first,
        byte_survival: if initial == 0 {
            Ratio { num: 1, den: 1 }
        } else {
            Ratio { num: n, den: initial }
        },
    };
    let ghost e = evidence_of(
        f.bytes@,
        f.fixed@,
        fixed@,
        f.operand@,
        sv,
        anchor,
        f.unsupported,
        packed,
        required@.len() as usize,
    );
    proof {
        if idents@.len() > 0 {
            assert(sv.idents[0] == idents@[0].deep_view());
        }
        assert(ev.deep_view() =~= e);
    }
    let (scores, reasons) = score(&ev);
    let cand = SigCandidate {
        aob: aob_of(f.bytes, &fixed),
        suffix,
        grade: grade_from(scores.final_score, gated, packed),
        score: scores.final_score,
        bytes_len: len,
        fixed: n,
        wildcards: len - n,
        fixed_ratio: Ratio { num: n, den: len },
        reloc_safe: f.unsupported.is_none(),
        gated,
        packed,
        scores,
        reasons,
        per_version: rows,
        diags,
        relocation: None,
    };
    assert(cand.deep_view() =~= finalized(
        images@,
        required@,
        ref_idx as int,
        *f,
        suffix,
        anchor,
        packed,
        *opts,
    )->0);
    Some(cand)
}

}
