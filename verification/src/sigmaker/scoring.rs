//! Independent sub-scores for a signature candidate, and the grade derived from them.
//!
//! Each sub-score is computed from raw, measurable evidence (uniqueness in the corpus, recompile
//! stability, byte entropy, validated semantic content, resolver confidence, cross-build agreement),
//! blended into a final score, and the letter is read off the final score.

use crate::sigmaker::entropy;
use crate::sigmaker::entropy::entropy_score;
use crate::sigmaker::identity;
use crate::sigmaker::identity::{FnIdentity, IdentityV};
use crate::sigmaker::similarity;
use crate::sigmaker::similarity::{percent_of, shown_percent_of, SIM_ONE, SIM_PERCENT};
use crate::sigmaker::types::{starting, Grade, Ratio, SigCandidate, SigCandidateV, SubScores};
use crate::sigmaker::types::TargetKind;
use crate::text;
use crate::text::push_dec;
use vstd::prelude::*;
use vstd::string::*;

verus! {

/// How closely a candidate's resolved callee agrees across builds. A callee that gained or shifted an
/// instruction across a recompile lands in `High`; only a genuine divergence falls to `Low`.
#[derive(Clone, Copy, PartialEq, Eq, Debug, Structural)]
pub enum SimilarityBand {
    High,
    Medium,
    Low,
}

/// The least similarity of the high band, in percent.
pub const SIMILARITY_HIGH: u64 = 85;

/// The least similarity of the medium band, in percent.
pub const SIMILARITY_MEDIUM: u64 = 60;

impl SimilarityBand {
    /// The band of a similarity.
    pub open spec fn band(similarity: u64) -> SimilarityBand {
        if similarity >= SIMILARITY_HIGH * SIM_PERCENT {
            SimilarityBand::High
        } else if similarity >= SIMILARITY_MEDIUM * SIM_PERCENT {
            SimilarityBand::Medium
        } else {
            SimilarityBand::Low
        }
    }

    /// The band of a similarity.
    pub fn of(similarity: u64) -> (b: Self)
        ensures
            b == SimilarityBand::band(similarity),
    {
        if similarity >= SIMILARITY_HIGH * SIM_PERCENT {
            SimilarityBand::High
        } else if similarity >= SIMILARITY_MEDIUM * SIM_PERCENT {
            SimilarityBand::Medium
        } else {
            SimilarityBand::Low
        }
    }
}

/// The band of a similarity that may not be known.
pub open spec fn band_of(similarity: Option<u64>) -> Option<SimilarityBand> {
    match similarity {
        Some(s) => Some(SimilarityBand::band(s)),
        None => None,
    }
}

fn banded(similarity: Option<u64>) -> (b: Option<SimilarityBand>)
    ensures
        b == band_of(similarity),
{
    match similarity {
        Some(s) => Some(SimilarityBand::of(s)),
        None => None,
    }
}

/// Agreement good enough to trust: the high band, or nothing to disagree with yet.
pub open spec fn trusted(similarity: Option<u64>) -> bool {
    band_of(similarity) is None || band_of(similarity) == Some(SimilarityBand::High)
}

fn is_trusted(similarity: Option<u64>) -> (r: bool)
    ensures
        r == trusted(similarity),
{
    match similarity {
        Some(s) => SimilarityBand::of(s) == SimilarityBand::High,
        None => true,
    }
}

/// Whether a cross-build callee similarity is a genuine divergence, as opposed to the small drift a
/// recompile produces.
pub fn is_callee_divergence(similarity: u64) -> (r: bool)
    ensures
        r == (SimilarityBand::band(similarity) == SimilarityBand::Low),
{
    SimilarityBand::of(similarity) == SimilarityBand::Low
}

/// The least similarity of any of the identities behind the first to the first, of the first `n`.
pub open spec fn least_likeness(ids: Seq<IdentityV>, n: int) -> u64
    decreases n,
{
    if n <= 1 {
        SIM_ONE
    } else {
        similarity::least(
            least_likeness(ids, n - 1),
            identity::likeness(ids[0], ids[n - 1]) as u64,
        )
    }
}

/// The cross-build agreement of some callees.
pub open spec fn agreement_of(ids: Seq<IdentityV>) -> Option<u64> {
    if ids.len() < 2 {
        None
    } else {
        Some(least_likeness(ids, ids.len() as int))
    }
}

/// The conservative cross-build callee agreement: the least similarity of any build's callee to the
/// reference build's, so that one diverging build cannot be averaged away. `None` when there are fewer
/// than two callees to compare.
pub fn callee_similarity(idents: &[FnIdentity]) -> (r: Option<u64>)
    ensures
        r == agreement_of(idents.deep_view()),
        r matches Some(s) ==> s <= SIM_ONE,
{
    if idents.len() < 2 {
        return None;
    }
    let ghost ids = idents.deep_view();
    let mut least: u64 = SIM_ONE;
    let mut n: usize = 1;
    while n < idents.len()
        invariant
            ids == idents.deep_view(),
            1 <= n <= idents@.len(),
            least == least_likeness(ids, n as int),
            least <= SIM_ONE,
        decreases idents@.len() - n,
    {
        assert(ids[0] == idents@[0].deep_view());
        assert(ids[n as int] == idents@[n as int].deep_view());
        let s: u64 = idents[0].similarity(&idents[n]);
        if s < least {
            least = s;
        }
        n += 1;
    }
    Some(least)
}

/// The resolver class a candidate lowered to, the strongest input to confidence and semantics.
#[derive(Clone, Copy, PartialEq, Eq, Debug, Structural)]
pub enum AnchorKind {
    /// The match bytes themselves.
    Direct,
    /// A `call`/`jmp rel` to the target.
    Branch,
    /// A RIP-relative memory reference (x64) to the target.
    RipPtr,
    /// An absolute memory reference (x86); never relocation-stable.
    AbsPtr,
}

/// Everything that was observed about a candidate.
pub struct Evidence<'a> {
    pub anchor: AnchorKind,
    pub is_anchor: bool,
    pub all_code: bool,
    pub any_unresolved: bool,
    /// Least cross-build callee similarity in trillionths, or `None` when fewer than two code callees
    /// were resolved.
    pub callee_similarity: Option<u64>,
    /// Whether the resolved target kind is the same in every build.
    pub kinds_consistent: bool,
    pub first_kind: Option<TargetKind>,
    pub reloc_safe: bool,
    pub packed: bool,
    /// The fixed byte values, for entropy.
    pub fixed_bytes: Vec<u8>,
    pub fixed_n: usize,
    pub len: usize,
    /// Fixed bytes that are opcode bytes.
    pub meaningful: usize,
    /// Operand bytes that ended up wildcarded.
    pub operand_masked: usize,
    /// How many distinct builds the candidate was validated against.
    pub builds: usize,
    /// The reference build's callee identity, when the target is code.
    pub ref_ident: Option<&'a FnIdentity>,
    /// Fraction of initially fixed bytes that survived cross-build masking.
    pub byte_survival: Ratio,
}

/// An [`Evidence`] by its content.
#[verifier::ext_equal]
pub struct EvidenceV {
    pub anchor: AnchorKind,
    pub is_anchor: bool,
    pub all_code: bool,
    pub any_unresolved: bool,
    pub callee_similarity: Option<u64>,
    pub kinds_consistent: bool,
    pub first_kind: Option<TargetKind>,
    pub reloc_safe: bool,
    pub packed: bool,
    pub fixed_bytes: Seq<u8>,
    pub fixed_n: usize,
    pub len: usize,
    pub meaningful: usize,
    pub operand_masked: usize,
    pub builds: usize,
    pub ref_ident: Option<IdentityV>,
    pub byte_survival: Ratio,
}

impl<'a> DeepView for Evidence<'a> {
    type V = EvidenceV;

    open spec fn deep_view(&self) -> EvidenceV {
        EvidenceV {
            anchor: self.anchor,
            is_anchor: self.is_anchor,
            all_code: self.all_code,
            any_unresolved: self.any_unresolved,
            callee_similarity: self.callee_similarity,
            kinds_consistent: self.kinds_consistent,
            first_kind: self.first_kind,
            reloc_safe: self.reloc_safe,
            packed: self.packed,
            fixed_bytes: self.fixed_bytes@,
            fixed_n: self.fixed_n,
            len: self.len,
            meaningful: self.meaningful,
            operand_masked: self.operand_masked,
            builds: self.builds,
            ref_ident: match self.ref_ident {
                Some(id) => Some(id.deep_view()),
                None => None,
            },
            byte_survival: self.byte_survival,
        }
    }
}

/// Into 0..=100.
pub open spec fn clamped(s: int) -> u32 {
    if s < 0 {
        0
    } else if s > 100 {
        100
    } else {
        s as u32
    }
}

fn clamp(s: i128) -> (r: u32)
    ensures
        r == clamped(s as int),
        r <= 100,
{
    if s < 0 {
        0
    } else if s > 100 {
        100
    } else {
        s as u32
    }
}

/// A similarity in whole percent, at most 100.
pub open spec fn whole_percent(sim: u64) -> u32 {
    clamped(similarity::percent(sim as int))
}

fn to_percent(sim: u64) -> (r: u32)
    ensures
        r == whole_percent(sim),
        r <= 100,
{
    if sim >= SIM_ONE {
        100
    } else {
        percent_of(sim)
    }
}

/// How confidently the resolver re-resolves a candidate.
pub open spec fn confidence_of(ev: EvidenceV) -> u32 {
    match ev.anchor {
        AnchorKind::Direct => 70,
        AnchorKind::Branch => if ev.all_code && !ev.any_unresolved {
            if trusted(ev.callee_similarity) {
                100
            } else {
                65
            }
        } else {
            45
        },
        AnchorKind::RipPtr => if ev.any_unresolved || !ev.kinds_consistent {
            40
        } else {
            match ev.first_kind {
                Some(TargetKind::Code) => if trusted(ev.callee_similarity) {
                    100
                } else {
                    55
                },
                Some(TargetKind::Data) | Some(TargetKind::Import) => 75,
                _ => 45,
            }
        },
        AnchorKind::AbsPtr => 45,
    }
}

fn resolver_confidence(ev: &Evidence) -> (r: u32)
    ensures
        r == confidence_of(ev.deep_view()),
        r <= 100,
{
    match ev.anchor {
        AnchorKind::Direct => 70,
        AnchorKind::Branch => if ev.all_code && !ev.any_unresolved {
            if is_trusted(ev.callee_similarity) {
                100
            } else {
                65
            }
        } else {
            45
        },
        AnchorKind::RipPtr => if ev.any_unresolved || !ev.kinds_consistent {
            40
        } else {
            match ev.first_kind {
                Some(TargetKind::Code) => if is_trusted(ev.callee_similarity) {
                    100
                } else {
                    55
                },
                Some(TargetKind::Data) | Some(TargetKind::Import) => 75,
                _ => 45,
            }
        },
        AnchorKind::AbsPtr => 45,
    }
}

/// `a`, but at most `b`.
pub open spec fn at_most(a: int, b: int) -> int {
    if a > b {
        b
    } else {
        a
    }
}

/// What a callee's content adds to the semantic score: its length, blocks, strings and calls.
pub open spec fn richness(id: Option<IdentityV>, per_string: int) -> int {
    match id {
        None => 0,
        Some(id) => at_most(id.instr_count as int, 12) + at_most(
            if id.blocks == 0 {
                0
            } else {
                (id.blocks - 1) * 4
            },
            8,
        ) + at_most(id.strings.len() * per_string, 6) + at_most(id.calls * 2, 4),
    }
}

fn cap(a: usize, unit: usize, most: usize) -> (r: usize)
    requires
        0 < unit <= 4,
        most <= 12,
    ensures
        r == at_most(a * unit, most as int),
{
    if a >= most {
        assert(a * unit >= most) by (nonlinear_arith)
            requires
                a >= most,
                unit >= 1,
        ;
        most
    } else {
        assert(a * unit <= 48) by (nonlinear_arith)
            requires
                a < 12,
                unit <= 4,
        ;
        if a * unit > most {
            most
        } else {
            a * unit
        }
    }
}

fn rate(id: Option<&FnIdentity>, per_string: usize) -> (r: u32)
    requires
        0 < per_string <= 4,
    ensures
        r == richness(
            match id {
                Some(x) => Some(x.deep_view()),
                None => None,
            },
            per_string as int,
        ),
        r <= 30,
{
    match id {
        None => 0,
        Some(id) => {
            let blocks: usize = if id.blocks == 0 {
                0
            } else {
                id.blocks - 1
            };
            (cap(id.instr_count, 1, 12) + cap(blocks, 4, 8) + cap(id.strings.len(), per_string, 6)
                + cap(id.calls, 2, 4)) as u32
        },
    }
}

/// What a cross-build divergence takes off the semantic score.
pub open spec fn divergence_cost(similarity: Option<u64>, low: int, medium: int) -> int {
    match band_of(similarity) {
        Some(SimilarityBand::Low) => low,
        Some(SimilarityBand::Medium) => medium,
        _ => 0,
    }
}

fn divergence_penalty(similarity: Option<u64>, low: u32, medium: u32) -> (r: u32)
    ensures
        r == divergence_cost(similarity, low as int, medium as int),
        r <= low || r <= medium,
{
    match banded(similarity) {
        Some(SimilarityBand::Low) => low,
        Some(SimilarityBand::Medium) => medium,
        _ => 0,
    }
}

/// How much validated content backs a candidate: a validated code target carries real semantic content,
/// a direct match or a data reference a moderate amount, an unknown target little.
pub open spec fn semantic_of(ev: EvidenceV) -> u32 {
    if ev.is_anchor && ev.first_kind == Some(TargetKind::Code) && ev.anchor != AnchorKind::AbsPtr {
        clamped(78 + richness(ev.ref_ident, 3) - divergence_cost(ev.callee_similarity, 25, 12))
    } else if ev.is_anchor && (ev.first_kind == Some(TargetKind::Data) || ev.first_kind == Some(
        TargetKind::Import,
    )) {
        55
    } else if !ev.is_anchor {
        55
    } else {
        25
    }
}

fn semantic_score(ev: &Evidence) -> (r: u32)
    ensures
        r == semantic_of(ev.deep_view()),
        r <= 100,
{
    let code: bool = match ev.first_kind {
        Some(k) => k == TargetKind::Code,
        None => false,
    };
    let data: bool = match ev.first_kind {
        Some(k) => k == TargetKind::Data || k == TargetKind::Import,
        None => false,
    };
    if ev.is_anchor && code && ev.anchor != AnchorKind::AbsPtr {
        let rich: u32 = rate(ev.ref_ident, 3);
        let cost: u32 = divergence_penalty(ev.callee_similarity, 25, 12);
        clamp(78 + rich as i128 - cost as i128)
    } else if ev.is_anchor && data {
        55
    } else if !ev.is_anchor {
        55
    } else {
        25
    }
}

/// How recompile-stable a candidate is: relocation safety, opcode density, and masked operands.
pub open spec fn stability_of(ev: EvidenceV) -> u32 {
    let fixed = (if ev.reloc_safe {
        50int
    } else {
        0
    }) - (if ev.packed {
        30int
    } else {
        0
    });
    if ev.len == 0 {
        clamped(fixed)
    } else {
        clamped(
            similarity::nearest(
                fixed * ev.len + 30 * ev.meaningful + 20 * ev.operand_masked,
                ev.len as int,
            ),
        )
    }
}

fn stability_score(ev: &Evidence) -> (r: u32)
    ensures
        r == stability_of(ev.deep_view()),
        r <= 100,
{
    let mut fixed: i128 = 0;
    if ev.reloc_safe {
        fixed += 50;
    }
    if ev.packed {
        fixed -= 30;
    }
    if ev.len == 0 {
        return clamp(fixed);
    }
    let d: i128 = ev.len as i128;
    assert(-30 * d <= fixed * d <= 50 * d) by (nonlinear_arith)
        requires
            -30 <= fixed <= 50,
            d > 0,
    ;
    let n: i128 = fixed * d + 30 * (ev.meaningful as i128) + 20 * (ev.operand_masked as i128);
    if n >= 0 {
        clamp((2 * n + d) / (2 * d))
    } else {
        assert((d - 2 * n) / (2 * d) >= 0) by (nonlinear_arith)
            requires
                n < 0,
                d > 0,
        ;
        assert((d - 2 * n) / (2 * d) <= d - 2 * n) by (nonlinear_arith)
            requires
                n < 0,
                d > 0,
        ;
        clamp(-((d - 2 * n) / (2 * d)))
    }
}

/// The share of bytes that survived, in whole percent.
pub open spec fn survival_percent(r: Ratio) -> u32 {
    if r.den == 0 {
        0
    } else {
        clamped((200 * r.num + r.den) / (2 * r.den as int))
    }
}

/// How well the builds agree: the callee similarity of an anchor, the surviving bytes of a direct
/// match.
pub open spec fn cross_build_of(ev: EvidenceV) -> u32 {
    if ev.is_anchor {
        if !ev.kinds_consistent {
            50
        } else {
            match ev.callee_similarity {
                Some(sim) => whole_percent(sim),
                None => 65,
            }
        }
    } else {
        survival_percent(ev.byte_survival)
    }
}

fn cross_build_score(ev: &Evidence) -> (r: u32)
    ensures
        r == cross_build_of(ev.deep_view()),
        r <= 100,
{
    if ev.is_anchor {
        if !ev.kinds_consistent {
            50
        } else {
            match ev.callee_similarity {
                Some(sim) => to_percent(sim),
                None => 65,
            }
        }
    } else if ev.byte_survival.den == 0 {
        0
    } else {
        let d: i128 = ev.byte_survival.den as i128;
        let n: i128 = 200 * (ev.byte_survival.num as i128) + d;
        clamp(n / (2 * d))
    }
}

/// Reduced when there are very few fixed bytes, which makes a collision in some unrelated module
/// likelier.
pub open spec fn uniqueness_of(fixed_n: usize) -> u32 {
    if fixed_n < 6 {
        (100 - (6 - fixed_n) * 5) as u32
    } else {
        100
    }
}

fn uniqueness_score(fixed_n: usize) -> (r: u32)
    ensures
        r == uniqueness_of(fixed_n),
        r <= 100,
{
    if fixed_n < 6 {
        100 - (6 - fixed_n as u32) * 5
    } else {
        100
    }
}

/// The weighted blend of the sub-scores, halves upwards: content-validation signals dominate, byte-level
/// signals refine within a tier.
pub open spec fn blend(s: SubScores) -> u32 {
    clamped(
        (35 * s.resolver_confidence + 30 * s.semantic + 20 * s.cross_build + 8 * s.stability + 4
            * s.uniqueness + 3 * s.entropy + 50) / 100,
    )
}

/// The weighted blend of the sub-scores.
pub fn weighted_final(s: &SubScores) -> (r: u32)
    ensures
        r == blend(*s),
        r <= 100,
{
    let sum: i128 = 35 * (s.resolver_confidence as i128) + 30 * (s.semantic as i128) + 20
        * (s.cross_build as i128) + 8 * (s.stability as i128) + 4 * (s.uniqueness as i128) + 3
        * (s.entropy as i128) + 50;
    clamp(sum / 100)
}

/// The sub-scores with their blend.
pub open spec fn blended(s: SubScores) -> SubScores {
    SubScores { final_score: blend(s), ..s }
}

/// Raising the sub-scores never lowers the blend.
pub proof fn blend_is_monotone(a: SubScores, b: SubScores)
    requires
        a.uniqueness <= b.uniqueness,
        a.stability <= b.stability,
        a.entropy <= b.entropy,
        a.semantic <= b.semantic,
        a.resolver_confidence <= b.resolver_confidence,
        a.cross_build <= b.cross_build,
    ensures
        blend(a) <= blend(b),
{
}

/// The sub-scores of a candidate.
pub open spec fn scores_of(ev: EvidenceV) -> SubScores {
    blended(
        SubScores {
            uniqueness: uniqueness_of(ev.fixed_n),
            stability: stability_of(ev),
            entropy: entropy::entropy_of(ev.fixed_bytes, ev.fixed_n as nat) as u32,
            semantic: semantic_of(ev),
            resolver_confidence: confidence_of(ev),
            cross_build: cross_build_of(ev),
            final_score: 0,
        },
    )
}

/// A sentence where it applies.
pub open spec fn said(holds: bool, sentence: Seq<char>) -> Seq<Seq<char>> {
    if holds {
        seq![sentence]
    } else {
        Seq::empty()
    }
}

/// Add a sentence.
pub fn say(v: &mut Vec<String>, s: String)
    ensures
        final(v).deep_view() == old(v).deep_view().push(s@),
{
    let ghost before = v.deep_view();
    v.push(s);
    assert(v.deep_view() =~= before.push(s@));
}

/// A text with a number in it.
pub open spec fn counted(head: Seq<char>, n: int, tail: Seq<char>) -> Seq<char> {
    head + text::dec(n as nat) + tail
}

/// A text with a number in it.
pub fn count_text(head: &str, n: u64, tail: &str) -> (s: String)
    ensures
        s@ == counted(head@, n as int, tail@),
{
    let mut s = starting(head);
    push_dec(&mut s, n);
    s.append(tail);
    s
}

/// What is said of the callee of a code anchor.
pub open spec fn callee_reason(similarity: Option<u64>) -> Seq<char> {
    match (band_of(similarity), similarity) {
        (Some(SimilarityBand::Medium), Some(sim)) => counted(
            "callee differs slightly across builds (similarity "@,
            similarity::shown_percent(sim as int),
            "%); still likely the same function"@,
        ),
        (Some(SimilarityBand::Low), Some(sim)) => counted(
            "callee diverges across builds (similarity "@,
            similarity::shown_percent(sim as int),
            "%): likely not the same function"@,
        ),
        _ => "target validated as code with a consistent callee across builds"@,
    }
}

fn explain_callee(similarity: Option<u64>) -> (s: String)
    ensures
        s@ == callee_reason(similarity),
{
    match similarity {
        None => starting("target validated as code with a consistent callee across builds"),
        Some(sim) => match SimilarityBand::of(sim) {
            SimilarityBand::High => starting(
                "target validated as code with a consistent callee across builds",
            ),
            SimilarityBand::Medium => count_text(
                "callee differs slightly across builds (similarity ",
                shown_percent_of(sim),
                "%); still likely the same function",
            ),
            SimilarityBand::Low => count_text(
                "callee diverges across builds (similarity ",
                shown_percent_of(sim),
                "%): likely not the same function",
            ),
        },
    }
}

/// A branch or ip-relative reference that leads to code in every build.
pub open spec fn code_anchor(ev: EvidenceV) -> bool {
    (ev.anchor == AnchorKind::Branch || ev.anchor == AnchorKind::RipPtr) && ev.all_code
        && !ev.any_unresolved
}

/// Why a candidate scored as it did.
pub open spec fn reasons_of(ev: EvidenceV) -> Seq<Seq<char>> {
    said(code_anchor(ev), callee_reason(ev.callee_similarity)) + said(
        !code_anchor(ev) && ev.anchor == AnchorKind::AbsPtr,
        "absolute reference is not relocation-stable"@,
    ) + said(
        ev.is_anchor && ev.any_unresolved,
        "the branch/pointer target could not be resolved in some build"@,
    ) + said(!ev.reloc_safe, "an unsupported relocation overlaps a fixed byte"@) + said(
        ev.packed,
        "an input looks packed; bytes may not reflect the running image"@,
    ) + said(
        ev.fixed_n < 6,
        counted("only "@, ev.fixed_n as int, " fixed byte(s); may collide in unrelated modules"@),
    ) + seq![
        if ev.builds < 2 {
            "validated against only one build; cross-version stability unconfirmed"@
        } else {
            counted("consistent across "@, ev.builds as int, " builds"@)
        },
    ]
}

/// Compute the sub-scores and the explanation reasons for a candidate.
pub fn score(ev: &Evidence) -> (r: (SubScores, Vec<String>))
    ensures
        r.0 == scores_of(ev.deep_view()),
        r.1.deep_view() == reasons_of(ev.deep_view()),
        r.0.final_score <= 100,
{
    let ghost e = ev.deep_view();
    let mut s = SubScores {
        uniqueness: uniqueness_score(ev.fixed_n),
        stability: stability_score(ev),
        entropy: entropy_score(ev.fixed_bytes.as_slice(), ev.fixed_n),
        semantic: semantic_score(ev),
        resolver_confidence: resolver_confidence(ev),
        cross_build: cross_build_score(ev),
        final_score: 0,
    };
    s.final_score = weighted_final(&s);
    let mut reasons: Vec<String> = Vec::new();
    assert(reasons.deep_view() =~= Seq::<Seq<char>>::empty());
    let code: bool = (ev.anchor == AnchorKind::Branch || ev.anchor == AnchorKind::RipPtr)
        && ev.all_code && !ev.any_unresolved;
    if code {
        say(&mut reasons, explain_callee(ev.callee_similarity));
    } else if ev.anchor == AnchorKind::AbsPtr {
        say(&mut reasons, starting("absolute reference is not relocation-stable"));
    }
    if ev.is_anchor && ev.any_unresolved {
        say(
            &mut reasons,
            starting("the branch/pointer target could not be resolved in some build"),
        );
    }
    if !ev.reloc_safe {
        say(&mut reasons, starting("an unsupported relocation overlaps a fixed byte"));
    }
    if ev.packed {
        say(
            &mut reasons,
            starting("an input looks packed; bytes may not reflect the running image"),
        );
    }
    if ev.fixed_n < 6 {
        say(
            &mut reasons,
            count_text(
                "only ",
                ev.fixed_n as u64,
                " fixed byte(s); may collide in unrelated modules",
            ),
        );
    }
    if ev.builds < 2 {
        say(
            &mut reasons,
            starting("validated against only one build; cross-version stability unconfirmed"),
        );
    } else {
        say(&mut reasons, count_text("consistent across ", ev.builds as u64, " builds"));
    }
    assert(reasons.deep_view() =~= reasons_of(e));
    (s, reasons)
}

/// What was measured about a string-anchored target. A string anchor matches on a read-only string the
/// function refers to, not on its code bytes, so it is scored from this evidence rather than from byte
/// entropy or fixed-byte density.
pub struct StringEvidence {
    /// Distinct builds the string was found and resolved to a single function in.
    pub builds: usize,
    /// Length of the anchoring string in characters.
    pub text_len: usize,
    /// A second corroborating string was needed to pin the function.
    pub paired: bool,
    /// References to the resolved function in the reference build.
    pub xrefs: usize,
    /// Least cross-build similarity of the resolved function, or `None` for a single build.
    pub callee_similarity: Option<u64>,
    /// Identity of the resolved function in the reference build.
    pub ref_ident: Option<FnIdentity>,
}

/// A [`StringEvidence`] by its content.
#[verifier::ext_equal]
pub struct StringEvidenceV {
    pub builds: usize,
    pub text_len: usize,
    pub paired: bool,
    pub xrefs: usize,
    pub callee_similarity: Option<u64>,
    pub ref_ident: Option<IdentityV>,
}

impl DeepView for StringEvidence {
    type V = StringEvidenceV;

    open spec fn deep_view(&self) -> StringEvidenceV {
        StringEvidenceV {
            builds: self.builds,
            text_len: self.text_len,
            paired: self.paired,
            xrefs: self.xrefs,
            callee_similarity: self.callee_similarity,
            ref_ident: self.ref_ident.deep_view(),
        }
    }
}

/// How specific a string anchor is: a longer, lone string that something refers to is the strongest.
pub open spec fn string_uniqueness(ev: StringEvidenceV) -> u32 {
    clamped(
        55 + 3 * (at_most(ev.text_len as int, 24) - 4) - (if ev.paired {
            15int
        } else {
            0
        }) - (if ev.xrefs == 0 {
            10int
        } else {
            0
        }),
    )
}

/// How confidently a string anchor re-resolves.
pub open spec fn string_confidence(ev: StringEvidenceV) -> u32 {
    if ev.builds < 2 {
        70
    } else if trusted(ev.callee_similarity) {
        if ev.paired {
            85
        } else {
            92
        }
    } else if band_of(ev.callee_similarity) == Some(SimilarityBand::Medium) {
        72
    } else {
        58
    }
}

/// The sub-scores of a string anchor: no code bytes, so no entropy.
pub open spec fn string_scores(ev: StringEvidenceV) -> SubScores {
    blended(
        SubScores {
            uniqueness: string_uniqueness(ev),
            stability: if ev.builds >= 2 {
                92
            } else {
                80
            },
            entropy: 0,
            semantic: clamped(
                70 + richness(ev.ref_ident, 2) - divergence_cost(ev.callee_similarity, 30, 14),
            ),
            resolver_confidence: string_confidence(ev),
            cross_build: match ev.callee_similarity {
                Some(sim) => whole_percent(sim),
                None => 65,
            },
            final_score: 0,
        },
    )
}

/// What is said of the function a string anchor resolves to across builds.
pub open spec fn string_target_reason(ev: StringEvidenceV) -> Seq<char> {
    if ev.builds < 2 {
        "validated against only one build; cross-version stability unconfirmed"@
    } else {
        match (band_of(ev.callee_similarity), ev.callee_similarity) {
            (Some(SimilarityBand::Medium), Some(sim)) => counted(
                "resolved function differs slightly across builds (similarity "@,
                similarity::shown_percent(sim as int),
                "%)"@,
            ),
            (Some(SimilarityBand::Low), Some(sim)) => counted(
                "resolved function diverges across builds (similarity "@,
                similarity::shown_percent(sim as int),
                "%)"@,
            ),
            _ => counted(
                "resolves to a consistent function across "@,
                ev.builds as int,
                " builds"@,
            ),
        }
    }
}

fn explain_string_target(ev: &StringEvidence) -> (s: String)
    ensures
        s@ == string_target_reason(ev.deep_view()),
{
    if ev.builds < 2 {
        return starting("validated against only one build; cross-version stability unconfirmed");
    }
    if let Some(sim) = ev.callee_similarity {
        match SimilarityBand::of(sim) {
            SimilarityBand::Medium => {
                return count_text(
                    "resolved function differs slightly across builds (similarity ",
                    shown_percent_of(sim),
                    "%)",
                );
            },
            SimilarityBand::Low => {
                return count_text(
                    "resolved function diverges across builds (similarity ",
                    shown_percent_of(sim),
                    "%)",
                );
            },
            SimilarityBand::High => {},
        }
    }
    count_text("resolves to a consistent function across ", ev.builds as u64, " builds")
}

/// Why a string anchor scored as it did.
pub open spec fn string_reasons(ev: StringEvidenceV) -> Seq<Seq<char>> {
    seq![
        if ev.paired {
            "anchored on a pair of strings that together pin one function"@
        } else {
            "anchored on a string that uniquely pins one function"@
        },
        string_target_reason(ev),
    ] + said(
        ev.text_len < 6,
        counted(
            "the anchoring string is short ("@,
            ev.text_len as int,
            " chars); it may recur in other modules"@,
        ),
    ) + said(
        ev.xrefs == 0,
        "nothing references the resolved function in the reference build"@,
    )
}

/// Score a string-anchored candidate from its evidence: entropy is zero (there are no fixed code bytes
/// to measure), uniqueness is string specificity, and stability reflects the inherent
/// recompile-stability of a read-only string reference.
pub fn score_string_anchor(ev: &StringEvidence) -> (r: (SubScores, Vec<String>))
    ensures
        r.0 == string_scores(ev.deep_view()),
        r.1.deep_view() == string_reasons(ev.deep_view()),
        r.0.final_score <= 100,
{
    let ghost e = ev.deep_view();
    let len: i128 = if ev.text_len > 24 {
        24
    } else {
        ev.text_len as i128
    };
    let mut specific: i128 = 55 + 3 * (len - 4);
    if ev.paired {
        specific -= 15;
    }
    if ev.xrefs == 0 {
        specific -= 10;
    }
    let ident: Option<&FnIdentity> = match &ev.ref_ident {
        Some(id) => Some(id),
        None => None,
    };
    let rich: u32 = rate(ident, 2);
    let cost: u32 = divergence_penalty(ev.callee_similarity, 30, 14);
    let trust: bool = is_trusted(ev.callee_similarity);
    let medium: bool = match banded(ev.callee_similarity) {
        Some(b) => b == SimilarityBand::Medium,
        None => false,
    };
    let mut s = SubScores {
        uniqueness: clamp(specific),
        stability: if ev.builds >= 2 {
            92
        } else {
            80
        },
        entropy: 0,
        semantic: clamp(70 + rich as i128 - cost as i128),
        resolver_confidence: if ev.builds < 2 {
            70
        } else if trust {
            if ev.paired {
                85
            } else {
                92
            }
        } else if medium {
            72
        } else {
            58
        },
        cross_build: match ev.callee_similarity {
            Some(sim) => to_percent(sim),
            None => 65,
        },
        final_score: 0,
    };
    s.final_score = weighted_final(&s);
    let mut reasons: Vec<String> = Vec::new();
    assert(reasons.deep_view() =~= Seq::<Seq<char>>::empty());
    if ev.paired {
        say(&mut reasons, starting("anchored on a pair of strings that together pin one function"));
    } else {
        say(&mut reasons, starting("anchored on a string that uniquely pins one function"));
    }
    say(&mut reasons, explain_string_target(ev));
    if ev.text_len < 6 {
        say(
            &mut reasons,
            count_text(
                "the anchoring string is short (",
                ev.text_len as u64,
                " chars); it may recur in other modules",
            ),
        );
    }
    if ev.xrefs == 0 {
        say(
            &mut reasons,
            starting("nothing references the resolved function in the reference build"),
        );
    }
    assert(reasons.deep_view() =~= string_reasons(e));
    (s, reasons)
}

/// What was measured about a semantic cross-version relocation: the strength and consistency of the
/// match, as there is no byte or string to scan for.
pub struct FingerprintEvidence {
    /// Distinct builds the function was relocated in.
    pub builds: usize,
    /// The weakest single-build best-match similarity to the reference, in trillionths.
    pub min_similarity: u64,
    /// The least similarity among the relocated functions across builds, in trillionths.
    pub mutual_similarity: u64,
    /// Reference build's identity.
    pub ref_ident: Option<FnIdentity>,
}

/// A [`FingerprintEvidence`] by its content.
#[verifier::ext_equal]
pub struct FingerprintEvidenceV {
    pub builds: usize,
    pub min_similarity: u64,
    pub mutual_similarity: u64,
    pub ref_ident: Option<IdentityV>,
}

impl DeepView for FingerprintEvidence {
    type V = FingerprintEvidenceV;

    open spec fn deep_view(&self) -> FingerprintEvidenceV {
        FingerprintEvidenceV {
            builds: self.builds,
            min_similarity: self.min_similarity,
            mutual_similarity: self.mutual_similarity,
            ref_ident: self.ref_ident.deep_view(),
        }
    }
}

/// The mean of two similarities in whole percent, at most 100.
pub open spec fn mean_percent(a: u64, b: u64) -> u32 {
    clamped((a + b + SIM_PERCENT) / (2 * SIM_PERCENT as int))
}

/// The sub-scores of a relocation.
pub open spec fn fingerprint_scores(ev: FingerprintEvidenceV) -> SubScores {
    blended(
        SubScores {
            uniqueness: whole_percent(ev.min_similarity),
            stability: if ev.builds >= 2 {
                88
            } else {
                72
            },
            entropy: 0,
            semantic: clamped(64 + richness(ev.ref_ident, 2)),
            resolver_confidence: if ev.builds >= 2 {
                mean_percent(ev.min_similarity, ev.mutual_similarity)
            } else if whole_percent(ev.min_similarity) < 70 {
                whole_percent(ev.min_similarity)
            } else {
                70
            },
            cross_build: whole_percent(ev.mutual_similarity),
            final_score: 0,
        },
    )
}

/// Why a relocation scored as it did.
pub open spec fn fingerprint_reasons(ev: FingerprintEvidenceV) -> Seq<Seq<char>> {
    seq![
        "relocated across builds by semantic fingerprint (no byte/string anchor available)"@,
        if ev.builds >= 2 {
            counted(
                counted(
                    counted(
                        "matched a consistent function in "@,
                        ev.builds as int,
                        " builds (min similarity "@,
                    ),
                    similarity::shown_percent(ev.min_similarity as int),
                    "%, mutual "@,
                ),
                similarity::shown_percent(ev.mutual_similarity as int),
                "%)"@,
            )
        } else {
            "validated against only one build; cross-version stability unconfirmed"@
        },
        "fingerprint-only match: no byte or string evidence, capped below A/B"@,
    ]
}

/// Score a relocated candidate from its evidence. Entropy is zero (there are no fixed code bytes), and
/// the other sub-scores are reinterpreted for a semantic match: cross-build is the mutual similarity,
/// confidence and uniqueness reflect how strong and unambiguous the match was, and semantic reflects
/// the richness of the relocated function.
pub fn score_fingerprint(ev: &FingerprintEvidence) -> (r: (SubScores, Vec<String>))
    ensures
        r.0 == fingerprint_scores(ev.deep_view()),
        r.1.deep_view() == fingerprint_reasons(ev.deep_view()),
        r.0.final_score <= 100,
{
    let ghost e = ev.deep_view();
    let least: u32 = to_percent(ev.min_similarity);
    let ident: Option<&FnIdentity> = match &ev.ref_ident {
        Some(id) => Some(id),
        None => None,
    };
    let rich: u32 = rate(ident, 2);
    let mut s = SubScores {
        uniqueness: least,
        stability: if ev.builds >= 2 {
            88
        } else {
            72
        },
        entropy: 0,
        semantic: clamp(64 + rich as i128),
        resolver_confidence: if ev.builds >= 2 {
            clamp(
                (ev.min_similarity as i128 + ev.mutual_similarity as i128 + SIM_PERCENT as i128) / (2
                    * (SIM_PERCENT as i128)),
            )
        } else if least < 70 {
            least
        } else {
            70
        },
        cross_build: to_percent(ev.mutual_similarity),
        final_score: 0,
    };
    s.final_score = weighted_final(&s);
    let mut reasons: Vec<String> = Vec::new();
    assert(reasons.deep_view() =~= Seq::<Seq<char>>::empty());
    say(
        &mut reasons,
        starting(
            "relocated across builds by semantic fingerprint (no byte/string anchor available)",
        ),
    );
    if ev.builds >= 2 {
        let mut t = count_text(
            "matched a consistent function in ",
            ev.builds as u64,
            " builds (min similarity ",
        );
        push_dec(&mut t, shown_percent_of(ev.min_similarity));
        t.append("%, mutual ");
        push_dec(&mut t, shown_percent_of(ev.mutual_similarity));
        t.append("%)");
        say(&mut reasons, t);
    } else {
        say(
            &mut reasons,
            starting("validated against only one build; cross-version stability unconfirmed"),
        );
    }
    say(
        &mut reasons,
        starting("fingerprint-only match: no byte or string evidence, capped below A/B"),
    );
    assert(reasons.deep_view() =~= fingerprint_reasons(e));
    (s, reasons)
}

/// The letter of a final score under the hard caps.
pub open spec fn graded(final_score: int, gated: bool, packed: bool) -> Grade {
    if gated {
        Grade::F
    } else if packed {
        Grade::band(final_score).capped(Grade::D)
    } else {
        Grade::band(final_score)
    }
}

/// Derive the letter grade from the final score, then apply the hard caps: a gated candidate is always F
/// (rejected), and a packed input can never grade better than D.
pub fn grade_from(final_score: u32, gated: bool, packed: bool) -> (g: Grade)
    ensures
        g == graded(final_score as int, gated, packed),
{
    if gated {
        return Grade::F;
    }
    let band = Grade::from_final_score(final_score);
    if packed {
        band.max_rank(Grade::D)
    } else {
        band
    }
}

/// How a signature fared against the negative corpus of unrelated modules.
#[derive(Clone, Copy, Debug, Default, PartialEq, Eq, Structural)]
pub struct NegativeEvidence {
    /// Unrelated modules actually scanned.
    pub modules_scanned: usize,
    /// Of those, how many contained the signature at least once.
    pub modules_hit: usize,
    /// Total matches summed across every module that hit.
    pub total_hits: usize,
    /// The most matches the signature had in any single module.
    pub max_hits_per_module: usize,
}

/// The sum of the counts.
pub open spec fn total(counts: Seq<usize>) -> int
    decreases counts.len(),
{
    if counts.len() == 0 {
        0
    } else {
        total(counts.drop_last()) + counts.last()
    }
}

/// How many of the counts are not zero.
pub open spec fn nonzero(counts: Seq<usize>) -> nat
    decreases counts.len(),
{
    if counts.len() == 0 {
        0
    } else {
        nonzero(counts.drop_last()) + if counts.last() > 0 {
            1nat
        } else {
            0nat
        }
    }
}

/// The greatest of the counts.
pub open spec fn greatest(counts: Seq<usize>) -> usize
    decreases counts.len(),
{
    if counts.len() == 0 {
        0
    } else if counts.last() > greatest(counts.drop_last()) {
        counts.last()
    } else {
        greatest(counts.drop_last())
    }
}

proof fn total_grows(counts: Seq<usize>, i: int)
    requires
        0 <= i <= counts.len(),
    ensures
        0 <= total(counts.take(i)) <= total(counts),
    decreases counts.len() - i,
{
    if i == counts.len() {
        assert(counts.take(i) =~= counts);
        total_is_positive(counts);
    } else {
        total_grows(counts, i + 1);
        assert(counts.take(i + 1).drop_last() =~= counts.take(i));
        total_is_positive(counts.take(i));
    }
}

proof fn total_is_positive(counts: Seq<usize>)
    ensures
        0 <= total(counts),
    decreases counts.len(),
{
    if counts.len() > 0 {
        total_is_positive(counts.drop_last());
    }
}

impl NegativeEvidence {
    /// The summary of per-module hit counts.
    pub open spec fn summed(modules_scanned: usize, hit_counts: Seq<usize>) -> NegativeEvidence {
        NegativeEvidence {
            modules_scanned,
            modules_hit: nonzero(hit_counts) as usize,
            total_hits: total(hit_counts) as usize,
            max_hits_per_module: greatest(hit_counts),
        }
    }

    /// Summarise per-module hit counts against the number of modules scanned.
    pub fn from_hits(modules_scanned: usize, hit_counts: &[usize]) -> (r: Self)
        requires
            total(hit_counts@) <= usize::MAX,
        ensures
            r == NegativeEvidence::summed(modules_scanned, hit_counts@),
    {
        let mut r = NegativeEvidence {
            modules_scanned,
            modules_hit: 0,
            total_hits: 0,
            max_hits_per_module: 0,
        };
        let mut i: usize = 0;
        assert(hit_counts@.take(0) =~= Seq::<usize>::empty());
        while i < hit_counts.len()
            invariant
                total(hit_counts@) <= usize::MAX,
                i <= hit_counts@.len(),
                r.modules_scanned == modules_scanned,
                r.modules_hit <= i,
                r.modules_hit == nonzero(hit_counts@.take(i as int)),
                r.total_hits == total(hit_counts@.take(i as int)),
                r.max_hits_per_module == greatest(hit_counts@.take(i as int)),
            decreases hit_counts@.len() - i,
        {
            proof {
                total_grows(hit_counts@, i + 1);
                assert(hit_counts@.take(i + 1).drop_last() =~= hit_counts@.take(i as int));
            }
            let c: usize = hit_counts[i];
            if c > 0 {
                r.modules_hit += 1;
            }
            r.total_hits += c;
            if c > r.max_hits_per_module {
                r.max_hits_per_module = c;
            }
            i += 1;
        }
        assert(hit_counts@.take(i as int) =~= hit_counts@);
        r
    }
}

/// How much uniqueness a candidate loses: 35 per module up to 90, and 5 where one module matched more
/// than once.
pub open spec fn negative_penalty(neg: NegativeEvidence) -> int {
    at_most(neg.modules_hit * 35, 90) + if neg.max_hits_per_module > 1 {
        5int
    } else {
        0
    }
}

/// What is said of the modules that hold the signature.
pub open spec fn negative_reason(neg: NegativeEvidence) -> Seq<char> {
    counted(
        counted(
            counted("matches "@, neg.modules_hit as int, " unrelated module(s)"@)
                + if neg.modules_scanned > 0 {
                counted(" of "@, neg.modules_scanned as int, " scanned"@)
            } else {
                Seq::empty()
            } + " ("@,
            neg.total_hits as int,
            " total match(es), up to "@,
        ),
        neg.max_hits_per_module as int,
        " in one): too generic to trust as an identity"@,
    )
}

/// The sub-scores after the negative corpus.
pub open spec fn negative_scores(s: SubScores, neg: NegativeEvidence) -> SubScores {
    blended(
        SubScores {
            uniqueness: if s.uniqueness <= negative_penalty(neg) {
                0
            } else {
                (s.uniqueness - negative_penalty(neg)) as u32
            },
            ..s
        },
    )
}

/// A candidate after the negative corpus: one that also matches unrelated modules is not specific, so
/// its uniqueness drops, its grade is derived anew under its own caps and never rises, and it cannot grade
/// A, nor B where two modules or more hold it.
pub open spec fn after_negatives(c: SigCandidateV, neg: NegativeEvidence) -> SigCandidateV {
    if neg.modules_hit == 0 {
        c
    } else {
        let scores = negative_scores(c.scores, neg);
        SigCandidateV {
            scores,
            score: scores.final_score,
            grade: graded(scores.final_score as int, c.gated, c.packed).capped(
                if neg.modules_hit >= 2 {
                    Grade::C
                } else {
                    Grade::B
                },
            ).capped(c.grade),
            reasons: c.reasons.push(negative_reason(neg)),
            ..c
        }
    }
}

/// Matching unrelated modules never raises a score or a grade; it rules out A, and B where two modules or more
/// match; a gated candidate stays F and a packed one stays at D or below.
pub proof fn negatives_cap_the_grade(c: SigCandidateV, neg: NegativeEvidence)
    requires
        neg.modules_hit > 0,
        c.scores.final_score == blend(c.scores),
    ensures
        after_negatives(c, neg).scores.final_score <= c.scores.final_score,
        after_negatives(c, neg).grade.rank() >= c.grade.rank(),
        after_negatives(c, neg).grade != Grade::A,
        neg.modules_hit >= 2 ==> after_negatives(c, neg).grade.rank() >= Grade::C.rank(),
        c.gated ==> after_negatives(c, neg).grade == Grade::F,
        c.packed ==> after_negatives(c, neg).grade.rank() >= Grade::D.rank(),
{
    blend_is_monotone(negative_scores(c.scores, neg), c.scores);
}

fn explain_negatives(neg: NegativeEvidence) -> (t: String)
    ensures
        t@ == negative_reason(neg),
{
    let mut t = count_text("matches ", neg.modules_hit as u64, " unrelated module(s)");
    if neg.modules_scanned > 0 {
        let scope = count_text(" of ", neg.modules_scanned as u64, " scanned");
        t.append(scope.as_str());
    }
    t.append(" (");
    push_dec(&mut t, neg.total_hits as u64);
    t.append(" total match(es), up to ");
    push_dec(&mut t, neg.max_hits_per_module as u64);
    t.append(" in one): too generic to trust as an identity");
    assert(t@ =~= negative_reason(neg));
    t
}

/// Fold a negative-corpus result into an already-scored candidate: a signature that also matches
/// unrelated modules is not specific, so its uniqueness and final score drop, and the grade is derived
/// anew and can fall a band or two, never rise. The penalty scales with the number of distinct modules hit, nudged up when any one module
/// matched it many times.
pub fn apply_negative_corpus(cand: &mut SigCandidate, neg: NegativeEvidence)
    ensures
        final(cand).deep_view() == after_negatives(old(cand).deep_view(), neg),
        final(cand).grade.rank() >= old(cand).grade.rank(),
        final(cand).scores.uniqueness <= old(cand).scores.uniqueness,
{
    let ghost before = cand.deep_view();
    if neg.modules_hit == 0 {
        return;
    }
    let modules: u32 = if neg.modules_hit >= 3 {
        90
    } else {
        neg.modules_hit as u32 * 35
    };
    let volume: u32 = if neg.max_hits_per_module > 1 {
        5
    } else {
        0
    };
    let penalty: u32 = modules + volume;
    assert(penalty == negative_penalty(neg));
    let mut s = cand.scores;
    s.uniqueness = if s.uniqueness <= penalty {
        0
    } else {
        s.uniqueness - penalty
    };
    s.final_score = weighted_final(&s);
    assert(s == negative_scores(before.scores, neg));
    cand.scores = s;
    cand.score = s.final_score;
    let worst = if neg.modules_hit >= 2 {
        Grade::C
    } else {
        Grade::B
    };
    cand.grade = grade_from(s.final_score, cand.gated, cand.packed).max_rank(worst).max_rank(
        cand.grade,
    );
    let mut reasons: Vec<String> = Vec::new();
    std::mem::swap(&mut reasons, &mut cand.reasons);
    say(&mut reasons, explain_negatives(neg));
    cand.reasons = reasons;
    assert(cand.deep_view() =~= after_negatives(before, neg));
}

/// Build the negative-corpus evidence from per-module hit counts, fold it into `chosen`, and return it.
pub fn apply_negatives(
    chosen: &mut SigCandidate,
    modules_scanned: usize,
    hit_counts: &[usize],
) -> (evidence: NegativeEvidence)
    requires
        total(hit_counts@) <= usize::MAX,
    ensures
        evidence == NegativeEvidence::summed(modules_scanned, hit_counts@),
        final(chosen).deep_view() == after_negatives(
            old(chosen).deep_view(),
            NegativeEvidence::summed(modules_scanned, hit_counts@),
        ),
{
    let evidence = NegativeEvidence::from_hits(modules_scanned, hit_counts);
    apply_negative_corpus(chosen, evidence);
    evidence
}

}
