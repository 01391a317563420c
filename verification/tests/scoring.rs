use maple_core::sigmaker::entropy::entropy_score;
use maple_core::sigmaker::identity::FnIdentity;
use maple_core::sigmaker::scoring::{
    apply_negative_corpus, apply_negatives, callee_similarity, grade_from, score, score_fingerprint,
    score_string_anchor, weighted_final, AnchorKind, Evidence, FingerprintEvidence,
    NegativeEvidence, StringEvidence, SIMILARITY_HIGH, SIMILARITY_MEDIUM,
};
use maple_core::sigmaker::similarity::{SIM_ONE, SIM_PERCENT};
use maple_core::sigmaker::types::{Grade, Ratio, SigCandidate, SubScores, Suffix, TargetKind};

fn base_evidence() -> Evidence<'static> {
    Evidence {
        anchor: AnchorKind::Direct,
        is_anchor: false,
        all_code: false,
        any_unresolved: false,
        callee_similarity: None,
        kinds_consistent: true,
        first_kind: None,
        reloc_safe: true,
        packed: false,
        fixed_bytes: vec![0x48, 0x8B, 0xEC, 0xC3, 0x55, 0x56, 0x57, 0x53],
        fixed_n: 8,
        len: 8,
        meaningful: 8,
        operand_masked: 0,
        builds: 2,
        ref_ident: None,
        byte_survival: Ratio { num: 1, den: 1 },
    }
}

// A mnemonic-only identity, for driving callee_similarity in scorer tests.
fn ident_with(mnemonics: &[u32]) -> FnIdentity {
    FnIdentity {
        instr_count: mnemonics.len(),
        mnemonics: mnemonics.to_vec(),
        ..Default::default()
    }
}

#[test]
fn grade_is_derived_from_final_score() {
    assert_eq!(Grade::from_final_score(90), Grade::A);
    assert_eq!(Grade::from_final_score(70), Grade::B);
    assert_eq!(Grade::from_final_score(50), Grade::C);
    assert_eq!(Grade::from_final_score(30), Grade::D);
    assert_eq!(Grade::from_final_score(10), Grade::F);
}

#[test]
fn gates_and_packed_cap_the_grade() {
    assert_eq!(grade_from(99, true, false), Grade::F); // gated overrides a high score
    assert_eq!(grade_from(99, false, true), Grade::D); // packed caps at D
    assert_eq!(grade_from(99, false, false), Grade::A);
}

#[test]
fn final_score_is_the_weighted_blend_of_the_raw_sub_scores() {
    // The model runs one way only: raw sub-scores -> weighted final_score -> grade band. This locks
    // that final_score is exactly the documented blend of the independent sub-scores, so the grade
    // can never be chosen first and the score back-filled to match it.
    let mut ev = base_evidence();
    ev.anchor = AnchorKind::Branch;
    ev.is_anchor = true;
    ev.all_code = true;
    ev.first_kind = Some(TargetKind::Code);
    let (s, _) = score(&ev);
    let expected = (0.35 * f64::from(s.resolver_confidence)
        + 0.30 * f64::from(s.semantic)
        + 0.20 * f64::from(s.cross_build)
        + 0.08 * f64::from(s.stability)
        + 0.04 * f64::from(s.uniqueness)
        + 0.03 * f64::from(s.entropy))
    .round() as u32;
    assert_eq!(s.final_score, expected, "final_score must be the raw blend");
    assert_eq!(
        grade_from(s.final_score, false, false),
        Grade::from_final_score(s.final_score),
        "an ungated, unpacked grade is exactly the band of final_score"
    );
}

#[test]
fn high_entropy_scores_above_low_entropy() {
    let mut hi = base_evidence();
    hi.fixed_bytes = vec![0x1F, 0xA3, 0x4C, 0xD8, 0x57, 0x9E, 0x21, 0xBC];
    let mut lo = base_evidence();
    lo.fixed_bytes = vec![0x90, 0x90, 0x90, 0x90, 0x90, 0x90, 0x90, 0x90];
    assert!(entropy_score(&hi.fixed_bytes, hi.fixed_n) > entropy_score(&lo.fixed_bytes, lo.fixed_n));
    assert_eq!(entropy_score(&lo.fixed_bytes, lo.fixed_n), 0); // all identical bytes carry no entropy
}

#[test]
fn validated_code_branch_scores_into_grade_a() {
    // A single resolved code build: callee_similarity is None (nothing to disagree with), which
    // counts as validated, and the branch reaches the A band.
    let id = FnIdentity {
        instr_count: 6,
        blocks: 2,
        calls: 1,
        ..Default::default()
    };
    let mut ev = base_evidence();
    ev.anchor = AnchorKind::Branch;
    ev.is_anchor = true;
    ev.all_code = true;
    ev.first_kind = Some(TargetKind::Code);
    ev.ref_ident = Some(&id);
    ev.callee_similarity = None;
    ev.fixed_bytes = vec![0xE8];
    ev.fixed_n = 1;
    ev.len = 5;
    ev.meaningful = 1;
    ev.operand_masked = 4;
    let (s, _) = score(&ev);
    assert!(
        s.final_score >= 82,
        "validated code branch should reach A band, got {}",
        s.final_score
    );
}

#[test]
fn high_similarity_does_not_emit_a_mismatch_reason() {
    // A callee that gained one prologue instruction across a build: a High band. The old exact
    // fingerprint check would have flagged a mismatch; the numeric band must keep it validated and
    // emit the positive reason, not a hard mismatch.
    let id = ident_with(&[10, 11, 12, 13, 14, 15]);
    let mut shifted = ident_with(&[99, 10, 11, 12, 13, 14, 15]);
    shifted.instr_count = 7;
    let idents = [id.clone(), shifted];
    let sim = callee_similarity(&idents).unwrap();
    assert!(sim >= 85 * SIM_PERCENT, "expected a High band, got {sim}");
    let mut ev = base_evidence();
    ev.anchor = AnchorKind::Branch;
    ev.is_anchor = true;
    ev.all_code = true;
    ev.callee_similarity = Some(sim);
    ev.first_kind = Some(TargetKind::Code);
    ev.ref_ident = Some(&id);
    let (s, reasons) = score(&ev);
    assert!(s.final_score >= 82, "a High-band callee should stay in A");
    assert!(
        reasons.iter().any(|r| r.contains("consistent callee")),
        "expected the validated-callee reason, got {reasons:?}"
    );
    assert!(
        !reasons.iter().any(|r| r.contains("diverges")),
        "a High band must not emit a divergence reason, got {reasons:?}"
    );
}

#[test]
fn low_similarity_drops_below_a_with_a_divergence_reason() {
    // Genuinely different callees: a Low band. It must fall out of A and say the callee diverges,
    // driven by the numeric similarity rather than fingerprint inequality.
    let id = ident_with(&[1, 2, 3, 4, 5, 6]);
    let other = ident_with(&[60, 61, 62, 63, 64, 65]);
    let idents = [id.clone(), other];
    let sim = callee_similarity(&idents).unwrap();
    assert!(sim < 60 * SIM_PERCENT, "expected a Low band, got {sim}");
    let mut ev = base_evidence();
    ev.anchor = AnchorKind::Branch;
    ev.is_anchor = true;
    ev.all_code = true;
    ev.callee_similarity = Some(sim);
    ev.first_kind = Some(TargetKind::Code);
    ev.ref_ident = Some(&id);
    let (s, reasons) = score(&ev);
    assert!(s.final_score < 82, "a Low-band callee must fall out of A");
    assert!(
        reasons.iter().any(|r| r.contains("diverges")),
        "expected a divergence reason, got {reasons:?}"
    );
}

#[test]
fn medium_similarity_is_a_soft_downgrade_not_a_hard_mismatch() {
    // A Medium band: still likely the same function, downgraded but not declared a mismatch.
    let id = ident_with(&[1, 2, 3, 4, 5, 6, 7, 8, 9, 10]);
    let drifted = ident_with(&[1, 2, 3, 40, 41, 42, 43, 8, 9, 10]);
    let idents = [id.clone(), drifted];
    let sim = callee_similarity(&idents).unwrap();
    assert!(
        (SIMILARITY_MEDIUM * SIM_PERCENT..SIMILARITY_HIGH * SIM_PERCENT).contains(&sim),
        "expected a Medium band, got {sim}"
    );
    let mut ev = base_evidence();
    ev.anchor = AnchorKind::Branch;
    ev.is_anchor = true;
    ev.all_code = true;
    ev.callee_similarity = Some(sim);
    ev.first_kind = Some(TargetKind::Code);
    ev.ref_ident = Some(&id);
    let (_, reasons) = score(&ev);
    assert!(
        reasons.iter().any(|r| r.contains("differs slightly")),
        "expected a soft downgrade reason, got {reasons:?}"
    );
    assert!(
        !reasons.iter().any(|r| r.contains("not the same function")),
        "a Medium band must not be called a mismatch, got {reasons:?}"
    );
}

#[test]
fn callee_similarity_takes_the_minimum_across_builds() {
    // One agreeing build and one diverging build: the conservative minimum must reflect the
    // divergence, not average it away.
    let r = ident_with(&[1, 2, 3, 4, 5, 6]);
    let same = ident_with(&[1, 2, 3, 4, 5, 6]);
    let diff = ident_with(&[60, 61, 62, 63, 64, 65]);
    let sim = callee_similarity(&[r, same, diff]).unwrap();
    assert!(
        sim < 60 * SIM_PERCENT,
        "min similarity must catch the diverging build, got {sim}"
    );
    assert_eq!(callee_similarity(&[ident_with(&[1, 2, 3])]), None);
}

fn string_evidence() -> StringEvidence {
    StringEvidence {
        builds: 2,
        text_len: 16,
        paired: false,
        xrefs: 3,
        callee_similarity: Some(SIM_ONE),
        ref_ident: Some(ident_with(&[1, 2, 3, 4, 5, 6])),
    }
}

#[test]
fn string_anchor_score_is_not_code_byte_entropy() {
    // The string text is not scored as fixed code bytes: entropy is zero, and the score is driven
    // by the evidence sub-scores instead. A long high-entropy string and a short one differ only
    // through specificity, never through a byte-entropy term.
    let ev = string_evidence();
    let (s, _) = score_string_anchor(&ev);
    assert_eq!(s.entropy, 0, "a string anchor has no code-byte entropy");
    assert!(s.resolver_confidence > 0 && s.cross_build > 0);
}

#[test]
fn multi_build_consistent_string_anchor_can_reach_a() {
    let ev = string_evidence();
    let (s, _) = score_string_anchor(&ev);
    assert!(
        Grade::from_final_score(s.final_score) == Grade::A,
        "a consistent multi-build unique anchor should reach A, got {}",
        s.final_score
    );
}

#[test]
fn single_build_string_anchor_scores_below_a() {
    // With no cross-build evidence the raw score itself must stay out of the A band, independent of
    // the explicit single-build grade cap applied by the caller.
    let mut ev = string_evidence();
    ev.builds = 1;
    ev.callee_similarity = None;
    let (s, reasons) = score_string_anchor(&ev);
    assert!(
        Grade::from_final_score(s.final_score).rank() > Grade::A.rank(),
        "a single-build anchor must not score into A, got {}",
        s.final_score
    );
    assert!(reasons.iter().any(|r| r.contains("one build")));
}

#[test]
fn generic_short_string_anchor_is_downgraded() {
    let strong = score_string_anchor(&string_evidence()).0.final_score;
    let mut weak_ev = string_evidence();
    weak_ev.text_len = 4; // a 4-char string is far likelier to recur by accident
    weak_ev.paired = true;
    weak_ev.xrefs = 0;
    let (weak, reasons) = score_string_anchor(&weak_ev);
    assert!(
        weak.final_score < strong,
        "a short, paired, unreferenced anchor must score below a strong one ({} !< {strong})",
        weak.final_score
    );
    assert!(reasons.iter().any(|r| r.contains("short")));
}

#[test]
fn divergent_string_anchor_target_is_downgraded() {
    let strong = score_string_anchor(&string_evidence()).0.final_score;
    let mut div = string_evidence();
    div.callee_similarity = Some(40 * SIM_PERCENT); // resolves to a different function across builds
    let (weak, reasons) = score_string_anchor(&div);
    assert!(
        weak.final_score < strong,
        "an inconsistent target must downgrade ({} !< {strong})",
        weak.final_score
    );
    assert!(reasons.iter().any(|r| r.contains("diverges")));
}

fn graded_candidate() -> SigCandidate {
    SigCandidate {
        aob: "AA BB CC DD".into(),
        suffix: Suffix::Direct,
        grade: Grade::A,
        score: 90,
        bytes_len: 4,
        fixed: 4,
        wildcards: 0,
        fixed_ratio: Ratio { num: 1, den: 1 },
        reloc_safe: true,
        gated: false,
        packed: false,
        scores: SubScores {
            uniqueness: 100,
            stability: 80,
            entropy: 70,
            semantic: 80,
            resolver_confidence: 95,
            cross_build: 100,
            final_score: 90,
        },
        reasons: Vec::new(),
        per_version: Vec::new(),
        diags: Vec::new(),
        relocation: None,
    }
}

#[test]
fn negative_corpus_represerves_the_packed_cap_from_the_typed_flag() {
    // PSE-7: a packed candidate keeps its D cap after a negative-corpus re-grade even though its
    // `reasons` never contain the word "packed" (the cap is read from the typed flag, not text).
    let mut cand = graded_candidate();
    cand.packed = true;
    cand.grade = grade_from(cand.scores.final_score, false, true);
    assert_eq!(
        cand.grade,
        Grade::D,
        "packed input caps at D before the corpus"
    );
    apply_negative_corpus(
        &mut cand,
        NegativeEvidence {
            modules_scanned: 5,
            modules_hit: 1,
            total_hits: 1,
            max_hits_per_module: 1,
        },
    );
    assert_eq!(
        cand.grade,
        Grade::D,
        "the packed D cap must survive the re-grade via the typed flag, not a reason substring"
    );
}

fn fingerprint_evidence() -> FingerprintEvidence {
    FingerprintEvidence {
        builds: 2,
        min_similarity: SIM_ONE,
        mutual_similarity: SIM_ONE,
        ref_ident: Some(ident_with(&[1, 2, 3, 4, 5, 6])),
    }
}

#[test]
fn fingerprint_score_has_no_code_byte_entropy_and_tracks_similarity() {
    let strong = score_fingerprint(&fingerprint_evidence()).0;
    assert_eq!(
        strong.entropy, 0,
        "a fingerprint match has no code-byte entropy"
    );
    assert_eq!(strong.cross_build, 100);
    let mut weak_ev = fingerprint_evidence();
    weak_ev.min_similarity = 84 * SIM_PERCENT;
    weak_ev.mutual_similarity = 84 * SIM_PERCENT;
    let weak = score_fingerprint(&weak_ev).0;
    assert!(
        weak.final_score < strong.final_score,
        "a weaker match must score lower ({} !< {})",
        weak.final_score,
        strong.final_score
    );
}

#[test]
fn single_build_fingerprint_holds_confidence_down() {
    // With no second build there is no cross-version proof, so resolver confidence is held down and
    // the reasons say so.
    let mut ev = fingerprint_evidence();
    ev.builds = 1;
    let (s, reasons) = score_fingerprint(&ev);
    assert!(s.resolver_confidence <= 70);
    assert!(reasons.iter().any(|r| r.contains("one build")));
}

#[test]
fn grade_max_rank_caps_but_never_promotes() {
    assert_eq!(Grade::A.max_rank(Grade::B), Grade::B); // capped down
    assert_eq!(Grade::C.max_rank(Grade::B), Grade::C); // already weaker, left alone
    assert_eq!(Grade::B.max_rank(Grade::B), Grade::B);
}

#[test]
fn negative_evidence_summarises_per_module_counts() {
    let ev = NegativeEvidence::from_hits(5, &[0, 3, 0, 1]);
    assert_eq!(ev.modules_scanned, 5);
    assert_eq!(ev.modules_hit, 2);
    assert_eq!(ev.total_hits, 4);
    assert_eq!(ev.max_hits_per_module, 3);
}

#[test]
fn no_negative_hits_does_not_downgrade() {
    let mut cand = graded_candidate();
    apply_negative_corpus(&mut cand, NegativeEvidence::from_hits(4, &[0, 0, 0, 0]));
    assert_eq!(cand.scores.uniqueness, 100);
    assert_eq!(cand.scores.final_score, 90);
    assert_eq!(cand.grade, Grade::A);
    assert!(cand.reasons.is_empty());
}

#[test]
fn one_negative_module_downgrades() {
    let mut cand = graded_candidate();
    apply_negative_corpus(&mut cand, NegativeEvidence::from_hits(3, &[0, 1, 0]));
    assert!(cand.scores.uniqueness < 100);
    assert!(cand.scores.final_score < 90);
    let reason = cand.reasons.last().unwrap();
    assert!(reason.contains("1 unrelated module"));
    assert!(reason.contains("of 3 scanned"));
}

#[test]
fn more_negative_modules_downgrade_harder() {
    let mut one = graded_candidate();
    apply_negative_corpus(&mut one, NegativeEvidence::from_hits(4, &[1, 0, 0, 0]));
    let mut many = graded_candidate();
    apply_negative_corpus(&mut many, NegativeEvidence::from_hits(4, &[1, 2, 1, 0]));
    assert!(
        many.scores.uniqueness < one.scores.uniqueness,
        "three hit modules ({}) must penalise more than one ({})",
        many.scores.uniqueness,
        one.scores.uniqueness
    );
    assert!(many.scores.final_score < one.scores.final_score);
    assert!(many.reasons.last().unwrap().contains("3 unrelated module"));
}

#[test]
fn negative_corpus_hit_caps_grade_below_a() {
    let mut one = graded_candidate();
    assert_eq!(one.grade, Grade::A);
    apply_negative_corpus(&mut one, NegativeEvidence::from_hits(4, &[1, 0, 0, 0]));
    assert_ne!(
        one.grade,
        Grade::A,
        "matching an unrelated module cannot grade A"
    );
    assert!(one.grade.rank() >= Grade::B.rank());

    let mut many = graded_candidate();
    apply_negative_corpus(&mut many, NegativeEvidence::from_hits(4, &[1, 2, 1, 0]));
    assert_ne!(many.grade, Grade::A);
    assert!(
        many.grade.rank() >= one.grade.rank(),
        "more hit modules cap at least as hard as one"
    );
}

#[test]
fn a_better_sub_score_never_lowers_the_blend() {
    let low = SubScores {
        uniqueness: 10,
        stability: 20,
        entropy: 30,
        semantic: 40,
        resolver_confidence: 50,
        cross_build: 60,
        final_score: 0,
    };
    let mut high = low;
    high.semantic = 41;
    assert_eq!(weighted_final(&low), 44);
    assert!(weighted_final(&high) >= weighted_final(&low));
}

#[test]
fn negatives_are_folded_in_and_returned() {
    let mut cand = graded_candidate();
    let ev = apply_negatives(&mut cand, 4, &[0, 2, 0, 1]);
    assert_eq!((ev.modules_hit, ev.total_hits, ev.max_hits_per_module), (2, 3, 2));
    assert!(cand.grade.rank() >= Grade::B.rank());
    assert_eq!(cand.score, cand.scores.final_score);
}

#[test]
fn entropy_is_that_of_the_distinct_bytes() {
    // eight distinct bytes carry three bits each
    let eight = entropy_score(&[1, 2, 3, 4, 5, 6, 7, 8], 8);
    let four = entropy_score(&[1, 1, 2, 2, 3, 3, 4, 4], 8);
    assert!(eight > four && four > 0);
}

#[test]
fn a_negative_hit_never_raises_the_grade() {
    // Held at C below its band for another reason: a hit must not lift it back to B.
    let mut cand = graded_candidate();
    cand.grade = Grade::C;
    let before = cand.scores.uniqueness;
    apply_negative_corpus(
        &mut cand,
        NegativeEvidence {
            modules_scanned: 5,
            modules_hit: 1,
            total_hits: 1,
            max_hits_per_module: 1,
        },
    );
    assert_eq!(cand.grade, Grade::C);
    assert!(cand.scores.uniqueness < before);
}
