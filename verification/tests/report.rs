use maple_core::memory::{BufferSource, Region};
use maple_core::pattern::Arch;
use maple_core::sigmaker::aob::aob_unique_at;
use maple_core::sigmaker::channels::{ensemble_relocate, Channel};
use maple_core::sigmaker::generate::{
    generate, generate_with_progress, refer_to, SigStage, StageSink,
};
use maple_core::sigmaker::imports::make_import_anchor;
use maple_core::sigmaker::inspect::inspect_function;
use maple_core::sigmaker::partial::{
    caller_relocate, graph_relocate, import_relocate, vtable_relocate, vtable_relocate_path,
};
use maple_core::sigmaker::relocate::{constant_relocate, encoding_relocate};
use maple_core::sigmaker::similarity::SIM_ONE;
use maple_core::sigmaker::types::{
    Diag, Grade, ImageInput, SigOptions, Suffix, TargetKind, TargetSpec,
};
use maple_core::sigmaker::validate::holdout_validate;

const BASE: usize = 0x40_0000;

fn x86<'a>(label: &str, src: &'a BufferSource, hash: u64) -> ImageInput<'a> {
    ImageInput {
        label: label.to_string(),
        source: src,
        base: BASE,
        size: 0x800,
        code_regions: vec![Region { base: BASE, size: 0x600 }],
        regions: vec![Region { base: BASE, size: 0x800 }],
        import: None,
        arch: Arch::X86,
        code_hash: hash,
        packed: false,
        pack_reasons: Vec::new(),
        reloc: None,
    }
}

fn call(buf: &mut [u8], at: usize, to: usize) {
    buf[at] = 0xE8;
    let rel = to as i32 - (at as i32 + 5);
    buf[at + 1..at + 5].copy_from_slice(&rel.to_le_bytes());
}

fn push_text(buf: &mut [u8], at: usize, text_at: usize) {
    buf[at] = 0x68;
    buf[at + 1..at + 5].copy_from_slice(&((BASE + text_at) as u32).to_le_bytes());
}

// Two string-anchored callers of one function whose own bytes differ from build to build.
fn two_callers(shift: usize, body: &[u8]) -> Vec<u8> {
    let mut b = vec![0u8; 0x800];
    b[0x700..0x70C].copy_from_slice(b"FirstCaller\0");
    b[0x720..0x72D].copy_from_slice(b"SecondCaller\0");
    for (entry, text_at) in [(0x100 + shift, 0x700), (0x200 + shift, 0x720)] {
        b[entry..entry + 3].copy_from_slice(&[0x55, 0x8B, 0xEC]);
        push_text(&mut b, entry + 3, text_at);
        call(&mut b, entry + 8, 0x300 + shift);
        b[entry + 13..entry + 15].copy_from_slice(&[0x5D, 0xC3]);
    }
    let f = 0x300 + shift;
    b[f..f + 3].copy_from_slice(&[0x55, 0x8B, 0xEC]);
    b[f + 3..f + 3 + body.len()].copy_from_slice(body);
    b[f + 3 + body.len()..f + 5 + body.len()].copy_from_slice(&[0x5D, 0xC3]);
    b
}

#[test]
fn a_caller_relocates_its_distinctive_callee() {
    let a = BufferSource::new(BASE, two_callers(0, &[0x33, 0xC0, 0x40]));
    let b = BufferSource::new(BASE, two_callers(0x20, &[0x33, 0xC0, 0x40]));
    let images = [x86("a", &a, 1), x86("b", &b, 2)];
    let refs = refer_to(&images);
    let cand = caller_relocate(&refs, &[0, 1], 0, 0x300, &SigOptions::default()).unwrap();
    assert_eq!(cand.aob, "@caller=FirstCaller");
    assert_eq!(cand.per_version[0].match_rva, Some(0x300));
    assert_eq!(cand.per_version[1].match_rva, Some(0x320));
    assert_eq!(cand.per_version[1].fingerprint_similarity, Some(SIM_ONE));
    assert_eq!(
        cand.reasons[0],
        "relocated to 2 of 2 builds via a string-anchored caller (\"FirstCaller\"), matched as its distinctive callee"
    );
    assert!(cand.grade.rank() >= Grade::B.rank());
    assert!(cand.diags.is_empty());
}

#[test]
fn the_call_graph_relocates_by_position() {
    // the function itself is rewritten, its two callers keep their strings
    let a = BufferSource::new(BASE, two_callers(0, &[0x33, 0xC0, 0x40]));
    let b = BufferSource::new(BASE, two_callers(0x20, &[0xF7, 0xD1, 0x49, 0x49]));
    let images = [x86("a", &a, 1), x86("b", &b, 2)];
    let refs = refer_to(&images);
    let cand = graph_relocate(&refs, &[0, 1], 0, 0x300, &SigOptions::default()).unwrap();
    assert_eq!(cand.aob, "@graph");
    assert_eq!(cand.per_version[1].match_rva, Some(0x320));
    assert_eq!(cand.scores.cross_build, 100);
    assert_eq!(cand.scores.final_score, 80);
    assert_eq!(cand.grade, Grade::B);
    assert!(cand.reasons[0].starts_with("relocated to 2 of 2 build(s) by call-graph consensus"));
}

#[test]
fn a_build_that_is_not_reached_is_reported_missing() {
    let a = BufferSource::new(BASE, two_callers(0, &[0x33, 0xC0, 0x40]));
    let b = BufferSource::new(BASE, two_callers(0x20, &[0x33, 0xC0, 0x40]));
    let c = BufferSource::new(BASE, vec![0u8; 0x800]);
    let images = [x86("a", &a, 1), x86("b", &b, 2), x86("c", &c, 3)];
    let refs = refer_to(&images);
    let cand = caller_relocate(&refs, &[0, 1, 2], 0, 0x300, &SigOptions::default()).unwrap();
    assert_eq!(cand.per_version[2].match_rva, None);
    assert!(matches!(&cand.diags[0], Diag::MissingInImage { label } if label == "c"));
    assert_eq!(
        cand.reasons.last().unwrap(),
        "1 build(s) could not be reached and are left unpinned"
    );
    // the reference alone is no relocation
    let lone = [x86("a", &a, 1), x86("c", &c, 3)];
    let refs = refer_to(&lone);
    assert!(caller_relocate(&refs, &[0, 1], 0, 0x300, &SigOptions::default()).is_none());
}

#[test]
fn channels_that_agree_corroborate_each_other() {
    let a = BufferSource::new(BASE, two_callers(0, &[0x33, 0xC0, 0x40]));
    let b = BufferSource::new(BASE, two_callers(0x20, &[0x33, 0xC0, 0x40]));
    let images = [x86("a", &a, 1), x86("b", &b, 2)];
    let refs = refer_to(&images);
    let cand = ensemble_relocate(&refs, &[0, 1], 0, 0x300, &SigOptions::default()).unwrap();
    let ledger = cand.relocation.unwrap();
    assert_eq!(ledger.anchor, "caller");
    assert!(ledger.support >= 2);
    assert!(!ledger.conflict);
    assert!(ledger.corroborators.contains(&"graph".to_string()));
    assert!(cand
        .reasons
        .iter()
        .any(|r| r.starts_with("corroborated by ") && r.contains("graph")));
    assert_eq!(Channel::StringRef.label(), "string");
}

fn constant_build(at: usize, tail: &[u8]) -> Vec<u8> {
    let mut b = vec![0u8; 0x800];
    b[at..at + 8].copy_from_slice(&[0x55, 0x8B, 0xEC, 0xB8, 0xEF, 0xBE, 0xAD, 0xDE]);
    b[at + 8..at + 8 + tail.len()].copy_from_slice(tail);
    b[at + 8 + tail.len()..at + 10 + tail.len()].copy_from_slice(&[0x5D, 0xC3]);
    b
}

#[test]
fn a_rare_constant_relocates_its_function() {
    let a = BufferSource::new(BASE, constant_build(0x100, &[0x01, 0xC8]));
    let b = BufferSource::new(BASE, constant_build(0x180, &[0x03, 0xC1]));
    let images = [x86("a", &a, 1), x86("b", &b, 2)];
    let refs = refer_to(&images);
    let cand = constant_relocate(&refs, &[0, 1], 0, 0x100, &SigOptions::default()).unwrap();
    assert_eq!(cand.aob, "@constant=0xDEADBEEF");
    assert_eq!(
        cand.reasons[0],
        "relocated across builds by a rare constant (0xDEADBEEF) used by exactly one function per build"
    );
    assert_eq!(cand.per_version[1].match_rva, Some(0x180));
    assert!(import_relocate(&refs, &[0, 1], 0, 0x100, &SigOptions::default()).is_none());
    assert!(vtable_relocate(&refs, &[0, 1], 0, 0x100, &SigOptions::default()).is_none());
    assert_eq!(
        vtable_relocate_path(&refs, &[0, 1], 0, 0x100),
        vec![None, None]
    );
}

#[test]
fn an_encoding_relocates_its_window() {
    // ten instructions with two immediates that differ from build to build
    let code = |imm: u8| {
        vec![
            0xB3, imm, 0x83, 0xEC, imm, 0x8B, 0xFC, 0x8D, 0x75, 0xC4, 0x01, 0xC8, 0x31, 0xD2, 0x40,
            0x4A, 0x43, 0x0F, 0xAF, 0xC3, 0x5D, 0xC3,
        ]
    };
    let mut a = vec![0u8; 0x800];
    a[0x100..0x116].copy_from_slice(&code(0x11));
    let mut b = vec![0u8; 0x800];
    b[0x240..0x256].copy_from_slice(&code(0x22));
    let a = BufferSource::new(BASE, a);
    let b = BufferSource::new(BASE, b);
    let images = [x86("a", &a, 1), x86("b", &b, 2)];
    let refs = refer_to(&images);
    let cand = encoding_relocate(&refs, &[0, 1], 0, 0x100, &SigOptions::default()).unwrap();
    assert!(cand.aob.starts_with("@encoding="));
    assert_eq!(cand.per_version[0].match_rva, Some(0x100));
    assert_eq!(cand.per_version[1].match_rva, Some(0x240));
    assert_eq!(cand.per_version[1].fingerprint_similarity, Some(SIM_ONE));
}

// Ten small functions and a table of pointers to them, moved as a whole by `shift`.
fn vtable_build(shift: usize) -> Vec<u8> {
    let mut b = vec![0u8; 0x800];
    for j in 0..10usize {
        let f = 0x100 + shift + j * 0x20;
        for k in 0..(j + 2) {
            b[f + k] = 0x40 + (j as u8 % 8);
        }
        b[f + j + 2] = 0xC3;
        let at = 0x600 + shift + j * 4;
        b[at..at + 4].copy_from_slice(&((BASE + f) as u32).to_le_bytes());
    }
    b
}

#[test]
fn a_vtable_relocates_its_method() {
    let a = BufferSource::new(BASE, vtable_build(0));
    let b = BufferSource::new(BASE, vtable_build(0x40));
    let images = [x86("a", &a, 1), x86("b", &b, 2)];
    let refs = refer_to(&images);
    let located = vtable_relocate_path(&refs, &[0, 1], 0, 0x160);
    assert_eq!(located, vec![Some((0x160, SIM_ONE)), Some((0x1A0, SIM_ONE))]);
    let cand = vtable_relocate(&refs, &[0, 1], 0, 0x160, &SigOptions::default()).unwrap();
    assert!(cand.aob.starts_with("@vtable=10:3:"));
    assert_eq!(
        cand.reasons[0],
        "relocated to 2 of 2 builds by matching its C++ vtable structure (10 slots), reading slot 3"
    );
}

fn import_build(shift: usize) -> Vec<u8> {
    let mut b = vec![0u8; 0x800];
    call(&mut b, 0, 0x100 + shift);
    b[5] = 0xC3;
    let f = 0x100 + shift;
    for (k, slot) in [0x760u32, 0x764].iter().enumerate() {
        let at = f + 6 * k;
        b[at..at + 2].copy_from_slice(&[0xFF, 0x15]);
        b[at + 2..at + 6].copy_from_slice(&(BASE as u32 + slot).to_le_bytes());
    }
    b[f + 12] = 0xC3;
    b[0x700..0x706].copy_from_slice(b"w.dll\0");
    b[0x712..0x714].copy_from_slice(b"a\0");
    b[0x722..0x724].copy_from_slice(b"b\0");
    b[0x740..0x744].copy_from_slice(&0x710u32.to_le_bytes());
    b[0x744..0x748].copy_from_slice(&0x720u32.to_le_bytes());
    b[0x780..0x784].copy_from_slice(&0x740u32.to_le_bytes());
    b[0x78C..0x790].copy_from_slice(&0x700u32.to_le_bytes());
    b[0x790..0x794].copy_from_slice(&0x760u32.to_le_bytes());
    b
}

#[test]
fn an_import_set_relocates_its_function() {
    let a = BufferSource::new(BASE, import_build(0));
    let b = BufferSource::new(BASE, import_build(0x40));
    let mut images = [x86("a", &a, 1), x86("b", &b, 2)];
    for i in &mut images {
        i.import = Some((BASE + 0x780, BASE + 0x7A8));
    }
    let refs = refer_to(&images);
    let cand = import_relocate(&refs, &[0, 1], 0, 0x100, &SigOptions::default()).unwrap();
    assert_eq!(cand.aob, "@imports=w.dll!a,w.dll!b");
    assert_eq!(cand.per_version[1].match_rva, Some(0x140));
    assert_eq!(
        cand.reasons[0],
        "relocated to 2 of 2 builds by a distinctive set of 2 imported APIs"
    );

    let seen = inspect_function(&images[0], 0x100);
    assert_eq!(seen.imports, vec!["a", "b"]);
}

#[test]
fn inspection_shows_what_the_anchors_see() {
    let src = BufferSource::new(BASE, two_callers(0, &[0xB8, 0xEF, 0xBE, 0xAD, 0xDE]));
    let img = x86("a", &src, 1);
    let f = inspect_function(&img, 0x304);
    assert_eq!((f.query_rva, f.entry_rva), (0x304, 0x300));
    assert_eq!(f.callers, vec![0x100, 0x200]);
    assert!(f.callees.is_empty());
    assert_eq!(f.xref_count, 2);
    assert!(f.constants.contains(&0xDEAD_BEEF));
    assert_eq!(f.string_anchor, None);
    assert!(f.vtable.is_none());
    assert_eq!(f.instr_count, 5);
    let listing: Vec<(u64, &str, &str)> = f
        .disasm
        .iter()
        .map(|l| (l.rva, l.bytes.as_str(), l.text.as_str()))
        .collect();
    assert_eq!(
        listing,
        vec![
            (0x300, "55", "push ebp"),
            (0x301, "8B EC", "mov ebp,esp"),
            (0x303, "B8 EF BE AD DE", "mov eax,0DEADBEEFh"),
            (0x308, "5D", "pop ebp"),
            (0x309, "C3", "ret"),
        ]
    );

    let g = inspect_function(&img, 0x100);
    assert_eq!(g.callees, vec![0x300]);
    assert_eq!(g.strings, vec!["FirstCaller"]);
    assert_eq!(g.string_anchor.as_deref(), Some("@string=FirstCaller"));
}

#[test]
fn inspection_names_the_vtable() {
    let src = BufferSource::new(BASE, vtable_build(0));
    let img = x86("a", &src, 1);
    let v = inspect_function(&img, 0x160).vtable.unwrap();
    assert_eq!((v.table_rva, v.slot, v.slot_count), (0x600, 3, 10));
    assert_eq!(v.class_name, None);
}

fn tail_build(tail: u8) -> Vec<u8> {
    let mut v = vec![
        0x48, 0x8D, 0x05, 0x11, 0x22, 0x33, 0x44, 0xE8, 0x10, 0x00, 0x00, 0x00, 0x33, 0xC0, 0xC3,
    ];
    v.push(tail);
    v.extend_from_slice(&[0x90; 32]);
    v
}

fn x64<'a>(label: &str, src: &'a BufferSource, hash: u64) -> ImageInput<'a> {
    ImageInput {
        label: label.to_string(),
        source: src,
        base: 0x1000,
        size: 48,
        code_regions: vec![Region { base: 0x1000, size: 48 }],
        regions: vec![Region { base: 0x1000, size: 48 }],
        import: None,
        arch: Arch::X64,
        code_hash: hash,
        packed: false,
        pack_reasons: Vec::new(),
        reloc: None,
    }
}

#[test]
fn runs_report_their_stages_in_order() {
    let a = BufferSource::new(0x1000, tail_build(0xAA));
    let b = BufferSource::new(0x1000, tail_build(0xBB));
    let images = [x64("a", &a, 1), x64("b", &b, 2), x64("a2", &a, 1)];
    let mut log: Vec<SigStage> = Vec::new();
    generate_with_progress(
        &images,
        &TargetSpec::Ref { image: 2, rva: 0 },
        &SigOptions::default(),
        &mut log,
    );
    assert_eq!(
        log,
        vec![
            SigStage::Deduplicating,
            SigStage::ReadingCode { build: 1, total: 2 },
            SigStage::ReadingCode { build: 2, total: 2 },
            SigStage::LocatingTarget,
            SigStage::ScanningDirect,
            SigStage::ScanningCallJmp,
            SigStage::ScanningPtr,
            SigStage::Scoring,
        ]
    );
    log.report(SigStage::Scoring);
    assert_eq!(log.len(), 9);
    // nothing to do, nothing to report
    let mut none: Vec<SigStage> = Vec::new();
    let r = generate_with_progress(
        &[],
        &TargetSpec::Aob("90".into()),
        &SigOptions::default(),
        &mut none,
    );
    assert!(none.is_empty());
    assert!(matches!(r.diagnostics[0], Diag::NoInputs));
    assert_eq!(r.unique_builds, 0);
}

#[test]
fn duplicates_share_a_group_and_the_first_stands_for_it() {
    let a = BufferSource::new(0x1000, tail_build(0xAA));
    let b = BufferSource::new(0x1000, tail_build(0xBB));
    let images = [x64("a", &a, 1), x64("b", &b, 2), x64("a2", &a, 1)];
    let r = generate(
        &images,
        &TargetSpec::Ref { image: 2, rva: 0 },
        &SigOptions::default(),
    );
    assert_eq!(r.unique_builds, 2);
    assert_eq!(r.duplicate_groups[0].labels, vec!["a", "a2"]);
    assert_eq!(r.duplicate_groups[1].labels, vec!["b"]);
    let labels: Vec<String> = r.chosen.unwrap().per_version.iter().map(|p| p.label.clone()).collect();
    assert_eq!(labels, vec!["a", "b"]);
    assert_eq!(r.aob_ranges.len(), 1);
    assert_eq!(r.aob_ranges[0].labels, vec!["a", "b"]);
}

#[test]
fn a_missing_or_repeated_pattern_is_told() {
    let a = BufferSource::new(0x1000, tail_build(0xAA));
    let b = BufferSource::new(0x1000, vec![0x90; 48]);
    let images = [x64("a", &a, 1), x64("b", &b, 2)];
    let r = generate(
        &images,
        &TargetSpec::Aob("90 90".into()),
        &SigOptions::default(),
    );
    assert!(r.chosen.is_none());
    assert!(matches!(&r.diagnostics[0], Diag::AmbiguousInImage { label, count: 31 } if label == "a"));
    assert!(matches!(&r.diagnostics[1], Diag::AmbiguousInImage { label, count: 47 } if label == "b"));
    let r = generate(
        &images,
        &TargetSpec::Aob("48 8D 05".into()),
        &SigOptions::default(),
    );
    assert!(r.diagnostics.iter().any(|d| matches!(d, Diag::MissingInImage { label } if label == "b")));
    // found in one build, but nothing holds across both
    assert!(r.chosen.is_none());
    assert!(r
        .diagnostics
        .iter()
        .any(|d| matches!(d, Diag::FoundInBuild { label, rva: 0 } if label == "a")));
    assert!(matches!(r.diagnostics.last().unwrap(), Diag::NotUnique));
    let r = generate(
        &images,
        &TargetSpec::Ref { image: 9, rva: 0 },
        &SigOptions::default(),
    );
    assert!(matches!(r.diagnostics.last().unwrap(), Diag::BuildFailed));
}

#[test]
fn the_chosen_candidate_is_the_best_of_the_pool() {
    let mut data = vec![0x48, 0x89, 0xE5, 0xC3];
    data.resize(0x20, 0x90);
    data.extend_from_slice(&[0xE8, 0xDB, 0xFF, 0xFF, 0xFF, 0x0F, 0xB6, 0xC0, 0x33, 0xC9]);
    data.resize(48, 0x90);
    let src = BufferSource::new(0x1000, data);
    let r = generate(
        &[x64("a", &src, 1)],
        &TargetSpec::Ref { image: 0, rva: 0 },
        &SigOptions::default(),
    );
    let chosen = r.chosen.unwrap();
    assert_eq!(chosen.suffix, Suffix::Call);
    assert_eq!(chosen.per_version[0].target_kind, Some(TargetKind::Code));
    assert!(r.alternates.iter().all(|c| c.grade.rank() >= chosen.grade.rank()));
    assert!(aob_unique_at(
        &x64("a", &src, 1),
        &chosen.aob,
        chosen.per_version[0].match_rva.unwrap()
    ));
}

#[test]
fn the_reference_build_is_not_held_out() {
    let a = BufferSource::new(0x1000, tail_build(0xAA));
    let b = BufferSource::new(0x1000, tail_build(0xBB));
    let c = BufferSource::new(0x1000, tail_build(0xCC));
    let images = [x64("a", &a, 1), x64("b", &b, 2), x64("c", &c, 3)];
    let r = holdout_validate(
        &images,
        &TargetSpec::Ref { image: 1, rva: 0 },
        &SigOptions::default(),
    );
    let held: Vec<&str> = r.iter().map(|h| h.held_out.as_str()).collect();
    assert_eq!(held, vec!["a", "c"]);
    assert!(r.iter().all(|h| h.generated && h.matched_holdout));
}

#[test]
fn inspection_declines_its_x86_channels_on_x64() {
    // mov rbp,rsp ; ret at 0, and a call to it at 0x20.
    let mut code = vec![0x90u8; 48];
    code[0..4].copy_from_slice(&[0x48, 0x89, 0xE5, 0xC3]);
    code[0x20..0x25].copy_from_slice(&[0xE8, 0xDB, 0xFF, 0xFF, 0xFF]);
    let src = BufferSource::new(0x1000, code);
    let img = x64("a", &src, 1);
    let f = inspect_function(&img, 0);
    assert_eq!(f.query_rva, 0);
    assert!(f.callers.is_empty());
    assert!(f.callees.is_empty());
    assert!(f.imports.is_empty());
    assert!(f.vtable.is_none());
    assert_eq!(f.disasm[0].text, "mov rbp,rsp");
}

#[test]
fn inspection_names_an_import_whatever_its_library_is_called() {
    let mut code = import_build(0);
    code[0x700..0x708].copy_from_slice(b"a!b.dll\0");
    let src = BufferSource::new(BASE, code);
    let mut img = x86("a", &src, 1);
    img.import = Some((BASE + 0x780, BASE + 0x7A8));
    assert_eq!(inspect_function(&img, 0x100).imports, vec!["a", "b"]);
    let anchor = make_import_anchor(&img, 0x100).unwrap();
    assert_eq!(anchor.names, vec!["a!b.dll!a", "a!b.dll!b"]);
}

#[test]
fn an_import_by_number_is_named_by_it() {
    let mut code = import_build(0);
    code[0x740..0x744].copy_from_slice(&0x8000_0007u32.to_le_bytes());
    let src = BufferSource::new(BASE, code);
    let mut img = x86("a", &src, 1);
    img.import = Some((BASE + 0x780, BASE + 0x7A8));
    assert_eq!(inspect_function(&img, 0x100).imports, vec!["#7", "b"]);
    let anchor = make_import_anchor(&img, 0x100).unwrap();
    assert_eq!(anchor.names, vec!["w.dll!#7", "w.dll!b"]);
}
