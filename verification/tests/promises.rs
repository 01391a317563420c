use maple_core::fileimage::{RelocKind, RelocLookup};
use maple_core::memory::{BufferSource, Region};
use maple_core::pattern::{try_signature_from_aob, Arch};
use maple_core::scanner::CompiledPattern;
use maple_core::sigmaker::cache::CodeCache;
use maple_core::sigmaker::encoding::encoding_similarity;
use maple_core::sigmaker::generate::generate;
use maple_core::sigmaker::identity::{
    best_fingerprint_match, fingerprint_topk, fn_identity, identity_from_events, region_events,
};
use maple_core::sigmaker::similarity::{SIM_ONE, SIM_PERCENT};
use maple_core::sigmaker::strands::strand_similarity;
use maple_core::sigmaker::types::{Grade, ImageInput, SigOptions, TargetKind, TargetSpec};

const BASE: usize = 0x1000;

fn img<'a>(label: &str, src: &'a BufferSource, size: usize, arch: Arch, hash: u64) -> ImageInput<'a> {
    ImageInput {
        label: label.to_string(),
        source: src,
        base: BASE,
        size,
        code_regions: vec![Region { base: BASE, size }],
        regions: vec![Region { base: BASE, size }],
        import: None,
        arch,
        code_hash: hash,
        packed: false,
        pack_reasons: Vec::new(),
        reloc: None,
    }
}

/// A callee at the start, a call to it, and an immediate that tells the builds apart.
fn called(imm: u32) -> Vec<u8> {
    let mut d = vec![0x48, 0x89, 0xE5, 0xC3];
    d.resize(0x10, 0x90);
    d.push(0xB8);
    d.extend_from_slice(&imm.to_le_bytes());
    d.resize(0x20, 0x90);
    d.extend_from_slice(&[0xE8, 0xDB, 0xFF, 0xFF, 0xFF]);
    d.extend_from_slice(&[0x0F, 0xB6, 0xC0, 0x33, 0xC9]);
    d.resize(0x40, 0x90);
    d
}

#[test]
fn every_reported_signature_is_found_once_in_every_build() {
    let a = BufferSource::new(BASE, called(0x1111_1111));
    let b = BufferSource::new(BASE, called(0x2222_2222));
    let images = [
        img("a", &a, 0x40, Arch::X64, 1),
        img("b", &b, 0x40, Arch::X64, 2),
    ];
    let report = generate(
        &images,
        &TargetSpec::Ref { image: 0, rva: 0 },
        &SigOptions::default(),
    );
    let chosen = report.chosen.expect("a candidate");
    let all: Vec<_> = std::iter::once(&chosen).chain(report.alternates.iter()).collect();
    assert!(all.len() >= 1);
    for c in all {
        let sig = try_signature_from_aob(&c.aob).unwrap();
        let pat = CompiledPattern::new(&sig).unwrap();
        assert!(c.relocation.is_none());
        assert_ne!(c.grade, Grade::F);
        assert_eq!(c.per_version.len(), 2);
        for (k, image) in images.iter().enumerate() {
            assert_eq!(
                CodeCache::build(image).locate(&pat),
                (1, c.per_version[k].match_rva),
                "{} in {}",
                c.aob,
                image.label
            );
        }
    }
    // The call is the better signature: it is cut at 0x20 and leads to code in both builds.
    assert_eq!(chosen.grade, Grade::A);
    assert_eq!(chosen.per_version[0].match_rva, Some(0x20));
    assert!(chosen
        .per_version
        .iter()
        .all(|p| p.target_kind == Some(TargetKind::Code)));
    assert_eq!(chosen.per_version[1].fingerprint_similarity, Some(SIM_ONE));
}

struct Patched(usize);

impl RelocLookup for Patched {
    fn is_relocated(&self, rva: usize) -> bool {
        self.reloc_kind_at(rva).is_some()
    }
    fn reloc_kind_at(&self, rva: usize) -> Option<RelocKind> {
        if rva >= self.0 && rva < self.0 + 4 {
            Some(RelocKind::HighLow)
        } else {
            None
        }
    }
}

#[test]
fn operands_and_patched_bytes_are_wildcards() {
    let mut code = vec![
        0x48, 0x8D, 0x05, 0x11, 0x22, 0x33, 0x44, // lea rax,[rip+disp32]
        0x0F, 0xB6, 0xC0, // movzx eax, al
        0x33, 0xC9, // xor ecx, ecx
        0x48, 0x89, 0xE5, // mov rbp, rsp
        0x48, 0x83, 0xEC, 0x28, // sub rsp, 0x28
        0xC3, // ret
    ];
    code.resize(0x40, 0x90);
    let src = BufferSource::new(BASE, code);
    let patched = Patched(7);
    let mut image = img("a", &src, 0x40, Arch::X64, 1);
    image.reloc = Some(&patched);
    let report = generate(
        &[image],
        &TargetSpec::Ref { image: 0, rva: 0 },
        &SigOptions::default(),
    );
    let aob = report.chosen.expect("a candidate").aob;
    let tokens: Vec<&str> = aob.split(' ').collect();
    assert!(tokens.len() > 11, "{aob}");
    assert_eq!(
        tokens[..12],
        [
            "48", "8D", "05", "??", "??", "??", "??", "??", "??", "??", "??", "C9"
        ]
    );
}

#[test]
fn equal_sets_of_strands_and_only_those_match_fully() {
    assert_eq!(strand_similarity(&[1, 2, 3], &[3, 1, 2]), SIM_ONE);
    assert_eq!(strand_similarity(&[1, 2, 3, 4], &[1, 2]), SIM_ONE * 2 / 3);
    assert_eq!(
        strand_similarity(&[1, 2, 3, 4], &[1, 2]),
        strand_similarity(&[1, 2], &[1, 2, 3, 4])
    );
    assert_eq!(strand_similarity(&[], &[]), 0);
}

#[test]
fn equal_streams_and_only_those_match_fully() {
    assert_eq!(encoding_similarity(&[1, 2, 3], &[1, 2, 3]), SIM_ONE);
    assert_eq!(encoding_similarity(&[1, 2, 3], &[1, 3, 2]), SIM_ONE * 2 / 3);
    assert_eq!(
        encoding_similarity(&[1, 2], &[1, 2, 3]),
        encoding_similarity(&[1, 2, 3], &[1, 2])
    );
    assert_eq!(encoding_similarity(&[1, 2], &[1, 2, 3]), SIM_ONE * 4 / 5);
}

/// One function three times over.
fn repeated() -> Vec<u8> {
    let body = [
        0xB8, 0x11, 0x22, 0x33, 0x44, // mov eax, imm32
        0xBB, 0x55, 0x66, 0x77, 0x88, // mov ebx, imm32
        0x01, 0xD8, // add eax, ebx
        0x31, 0xC9, // xor ecx, ecx
        0x83, 0xC0, 0x10, // add eax, 0x10
        0xC3, // ret
    ];
    let mut v = vec![0x90u8; 0x300];
    for &at in &[0x40usize, 0x120, 0x200] {
        v[at..at + body.len()].copy_from_slice(&body);
    }
    v
}

#[test]
fn shortlists_are_ordered_and_spread_out() {
    let src = BufferSource::new(BASE, repeated());
    let image = img("a", &src, 0x300, Arch::X86, 1);
    let reference = fn_identity(&image, 0x40);
    let floor = 65 * SIM_PERCENT;
    let list = fingerprint_topk(&image, &reference, 4, floor);
    assert!(list.len() >= 3 && list.len() <= 4, "{list:?}");
    for (i, a) in list.iter().enumerate() {
        assert!(a.1 >= floor);
        for b in &list[i + 1..] {
            assert!(a.1 >= b.1);
            assert!(a.0.abs_diff(b.0) >= 8, "{list:?}");
        }
    }
    assert_eq!(list[0], (0x40, SIM_ONE));
    assert_eq!(list[1], (0x120, SIM_ONE));
    assert_eq!(list[2], (0x200, SIM_ONE));
    let (rva, sim, runner, _) = best_fingerprint_match(&image, &reference).expect("a match");
    assert_eq!((rva, sim, runner), (0x40, SIM_ONE, SIM_ONE));
}

#[test]
fn identities_read_off_a_sweep_are_those_decoded() {
    let mut code = repeated();
    // A branch over a few bytes, a call and an undecodable byte between the copies.
    code[0x80..0x88].copy_from_slice(&[0x74, 0x04, 0xE8, 0x10, 0x00, 0x00, 0x00, 0x06]);
    code[0x90] = 0x0F;
    code[0x91] = 0xFF;
    let src = BufferSource::new(BASE, code);
    let image = img("a", &src, 0x300, Arch::X86, 1);
    let events = region_events(&image, BASE, 0x300);
    let end = (BASE + 0x300) as u64;
    assert!(events.len() > 0x200);
    for e in 0..events.len() {
        let swept = identity_from_events(&image, end, &events, e);
        let decoded = fn_identity(&image, events[e].0);
        assert_eq!(swept.mnemonics, decoded.mnemonics, "at {:#x}", events[e].0);
        assert_eq!(swept.instr_count, decoded.instr_count);
        assert_eq!(swept.blocks, decoded.blocks);
        assert_eq!(swept.calls, decoded.calls);
        assert_eq!(swept.branches, decoded.branches);
        assert_eq!(swept.returns, decoded.returns);
        assert_eq!(swept.constants, decoded.constants);
        assert_eq!(swept.strings, decoded.strings);
    }
}
