use maple_core::memory::{BufferSource, Region};
use maple_core::pattern::Arch;
use maple_core::sigmaker::types::ImageInput;
use maple_core::sigmaker::identity::{fnv_fold, FnIdentity, FNV_OFFSET};
use maple_core::sigmaker::similarity::{
    count_agreement, jaccard_opt, mnemonic_similarity, SIM_ONE,
};
use maple_core::sigmaker::strings::{make_string_anchor, resolve_string_anchor};

// A similarity as a share of one.
fn share(s: u64) -> f64 {
    s as f64 / SIM_ONE as f64
}

// A bare identity carrying only a mnemonic stream (and optional evidence sets), so the similarity
// measure can be exercised on exact streams without decoding real machine code.
fn ident(mnemonics: &[u32]) -> FnIdentity {
    FnIdentity {
        instr_count: mnemonics.len(),
        mnemonics: mnemonics.to_vec(),
        ..Default::default()
    }
}

#[test]
fn string_anchor_resolves_an_x64_rip_relative_reference() {
    // #12: the string anchor is arch-neutral. fn_identity reads referenced strings through the
    // arch-aware mem_target (which resolves x64 RIP-relative operands), and the reverse xref scan
    // has a dedicated x64 `lea reg,[rip+d]` arm, so a function that references a unique string by a
    // RIP-relative lea is anchored and re-resolved on x64 exactly as on x86, with no x86-only
    // absolute-addressing assumption. Validated synthetically because no x64 MapleStory client
    // exists to measure against.
    // A low base so the test also builds on a 32-bit target (a realistic x64 base would overflow
    // a 32-bit usize); RIP-relative resolution is base-independent, so this exercises it the same.
    const BASE: usize = 0x1000;
    let mut buf = vec![0u8; 0x200];
    // rva 0: `lea rcx, [rip+0xF9]` (-> the string at rva 0x100, since 0 + 7 + 0xF9 = 0x100) ; `ret`.
    buf[0..7].copy_from_slice(&[0x48, 0x8D, 0x0D, 0xF9, 0x00, 0x00, 0x00]);
    buf[7] = 0xC3;
    buf[0x100..0x109].copy_from_slice(b"MapleX64\0");
    let src = BufferSource::new(BASE, buf);
    let img = ImageInput {
        label: "x64".into(),
        source: &src,
        base: BASE,
        size: 0x200,
        code_regions: vec![Region {
            base: BASE,
            size: 0x80,
        }],
        regions: vec![Region {
            base: BASE,
            size: 0x200,
        }],
        import: None,
        arch: Arch::X64,
        code_hash: 0,
        packed: false,
        pack_reasons: Vec::new(),
        reloc: None,
    };
    let anchor = make_string_anchor(&img, 0).expect("an x64 string anchor");
    assert_eq!(anchor.text, "MapleX64");
    assert_eq!(
        resolve_string_anchor(&img, &anchor),
        Some(0),
        "the x64 RIP-relative string reference re-resolves to the function"
    );
}

#[test]
fn mnemonic_similarity_is_one_for_identical_streams() {
    let a = ident(&[1, 2, 3, 4, 5, 6]);
    assert!(a.similarity(&a) == SIM_ONE);
}

#[test]
fn inserted_prologue_instruction_stays_high() {
    // The same body with one extra instruction spliced in at the front: a strict leading-prefix
    // match would collapse to ~0, but the order-preserving LCS keeps it high.
    let base = ident(&[10, 11, 12, 13, 14, 15]);
    let mut with_insert = ident(&[99, 10, 11, 12, 13, 14, 15]);
    with_insert.blocks = base.blocks;
    with_insert.calls = base.calls;
    let s = share(base.similarity(&with_insert));
    assert!(
        s > 0.85,
        "one inserted instruction should stay highly similar, got {s}"
    );
}

#[test]
fn inserted_instruction_in_the_middle_stays_high() {
    let base = ident(&[20, 21, 22, 23, 24, 25, 26, 27]);
    let middle = ident(&[20, 21, 22, 23, 99, 24, 25, 26, 27]);
    let s = share(base.similarity(&middle));
    assert!(s > 0.85, "a mid-body insertion should stay high, got {s}");
}

#[test]
fn changed_core_mnemonics_score_clearly_lower() {
    let base = ident(&[1, 2, 3, 4, 5, 6]);
    let rewritten = ident(&[1, 90, 91, 92, 93, 6]);
    let inserted = ident(&[99, 1, 2, 3, 4, 5, 6]);
    let sim_changed = share(base.similarity(&rewritten));
    let sim_inserted = share(base.similarity(&inserted));
    assert!(
        sim_changed < 0.75,
        "a rewritten core must drop clearly, got {sim_changed}"
    );
    assert!(
        sim_changed < sim_inserted,
        "rewriting the core ({sim_changed}) must score below a mere insertion ({sim_inserted})"
    );
}

#[test]
fn empty_constant_and_string_sets_do_not_inflate_unrelated_functions() {
    // Two functions with different mnemonic streams and no constants or strings: the absent
    // evidence must be neutral, not counted as a perfect constant/string match that drags the
    // blend up toward 1.0.
    let a = ident(&[1, 2, 3, 4]);
    let b = ident(&[40, 41, 42, 43]);
    let blended = share(a.similarity(&b));
    let mnem_only = share(mnemonic_similarity(&a.mnemonics, &b.mnemonics));
    let structure = 1.0; // identical (zero) block/call/branch/return counts
    let expected = (0.40 * mnem_only + 0.25 * structure) / (0.40 + 0.25);
    assert!(
        (blended - expected).abs() < 1e-9,
        "empty const/string sets must drop out, got {blended} want {expected}"
    );
    assert!(
        blended < 0.7,
        "unrelated bodies must not be inflated to a high score, got {blended}"
    );
}

#[test]
fn jaccard_opt_is_none_for_two_empty_sets() {
    assert_eq!(jaccard_opt(&[], &[]), None);
    assert_eq!(jaccard_opt(&[1u64, 2], &[1, 2]), Some(SIM_ONE));
    assert_eq!(jaccard_opt(&[1u64], &[2u64]), Some(0));
}

#[test]
fn shared_constants_lift_an_otherwise_equal_pair() {
    // With identical mnemonics and structure, a shared distinctive constant should score 1.0 while
    // disjoint constants pull the blend down: proof the constant component is actually weighed when
    // present (the converse of the empty-set case).
    let mut a = ident(&[1, 2, 3]);
    let mut b = ident(&[1, 2, 3]);
    a.constants = vec![0xDEAD_BEEF];
    b.constants = vec![0xDEAD_BEEF];
    assert!(a.similarity(&b) == SIM_ONE);
    b.constants = vec![0x1234_5678];
    assert!(a.similarity(&b) < SIM_ONE);
}

#[test]
fn similarity_does_not_depend_on_whose_side_it_is_asked_from() {
    let mut a = ident(&[1, 2, 3, 4, 5, 6, 7]);
    let mut b = ident(&[1, 3, 5, 7, 9]);
    a.blocks = 3;
    b.calls = 2;
    a.constants = vec![10, 20, 30];
    b.constants = vec![20, 40];
    assert_eq!(a.similarity(&b), b.similarity(&a));
}

#[test]
fn one_changed_byte_changes_the_hash() {
    let a = [7u8, 8, 9, 10];
    for i in 0..4 {
        let mut b = a;
        b[i] ^= 0x10;
        assert_ne!(fnv_fold(FNV_OFFSET, &a), fnv_fold(FNV_OFFSET, &b));
    }
    assert_eq!(fnv_fold(FNV_OFFSET, b"a"), 0xaf63_dc4c_8601_ec8c);
}

#[test]
fn a_blend_that_is_exactly_half_is_half() {
    // Half the stream, a third of three counts and one whole count: 0.2 + 0.125 of 0.65.
    let mut a = ident(&[1, 2, 3, 4]);
    let mut b = ident(&[1, 2, 8, 9]);
    (a.blocks, a.calls, a.branches, a.returns) = (1, 1, 1, 2);
    (b.blocks, b.calls, b.branches, b.returns) = (3, 3, 3, 2);
    assert_eq!(a.similarity(&b), SIM_ONE / 2);
    // The parts are weighed over one denominator: 160/260 of nothing and 25/260 of two thirds.
    let mut c = ident(&[1]);
    let mut d = ident(&[2]);
    (c.blocks, c.calls, c.branches, c.returns) = (2, 1, 1, 1);
    (d.blocks, d.calls, d.branches, d.returns) = (3, 0, 0, 0);
    assert_eq!(c.similarity(&d), 50 * SIM_ONE / (3 * 260));
}

#[test]
fn counts_of_any_size_are_weighed() {
    let mut a = ident(&[1, 2]);
    let mut b = ident(&[1, 2]);
    (a.blocks, a.calls, a.branches, a.returns) = (usize::MAX, usize::MAX, 7, 1);
    (b.blocks, b.calls, b.branches, b.returns) = (usize::MAX, usize::MAX, 7, 1);
    assert_eq!(a.similarity(&b), SIM_ONE);
    b.blocks = usize::MAX - 1;
    assert!(a.similarity(&b) < SIM_ONE);
}

#[test]
fn counts_agree_by_the_smaller_over_the_greater() {
    assert_eq!(count_agreement(0, 0), SIM_ONE);
    assert_eq!(count_agreement(1, 4), SIM_ONE / 4);
    assert_eq!(count_agreement(4, 1), SIM_ONE / 4);
    assert_eq!(count_agreement(0, 3), 0);
}
