use maple_core::domain::checked_rva;
use maple_core::memory::{BufferSource, MemorySource, Region};
use maple_core::pattern::{try_signature_from_aob, Arch};
use maple_core::resolver::decode_rel_target;
use maple_core::scanner::{find_all, CompiledPattern};
use maple_core::sigmaker::identity::leading_string;
use maple_core::sigmaker::types::{
    Diag, Grade, ImageInput, Ratio, SigOptions, SubScores, Suffix, TargetKind,
};
use maple_core::text::{is_before, push_quoted, read_number, spaced_hex};

#[test]
fn patterns_round_trip_through_their_text() {
    let sig = try_signature_from_aob("48 8B ?? ? c3").unwrap();
    assert_eq!(sig.bytes, vec![0x48, 0x8B, 0, 0, 0xC3]);
    assert_eq!(sig.mask, vec![true, true, false, false, true]);
    assert_eq!(sig.to_aob(), "48 8B ?? ?? C3");
    let again = try_signature_from_aob(&sig.to_aob()).unwrap();
    assert_eq!(again.bytes, sig.bytes);
    assert_eq!(again.mask, sig.mask);
}

#[test]
fn bad_patterns_say_why() {
    let why = |s: &str| try_signature_from_aob(s).unwrap_err();
    assert_eq!(why(""), "signature is empty");
    assert_eq!(why("  "), "signature is empty");
    assert_eq!(why("48 ZZ"), "not a hexadecimal byte or a wildcard");
    assert_eq!(why("123"), "not a hexadecimal byte or a wildcard");
}

#[test]
fn scanning_finds_every_match_and_only_those() {
    let sig = try_signature_from_aob("AA ?? BB").unwrap();
    let pat = CompiledPattern::new(&sig).unwrap();
    let hay = [0xAA, 1, 0xBB, 0xAA, 0xAA, 0xBB, 0xBB, 0xAA];
    assert_eq!(find_all(&hay, &pat), vec![0, 3, 4]);
    assert!(find_all(&hay[..2], &pat).is_empty());
}

#[test]
fn relative_targets_are_decoded() {
    assert_eq!(
        decode_rel_target(&[0xE8, 0x0B, 0, 0, 0], 0x1000),
        Some(0x1010)
    );
    assert_eq!(
        decode_rel_target(&[0xE9, 0xFB, 0xFF, 0xFF, 0xFF], 0x1000),
        Some(0x1000)
    );
    assert_eq!(decode_rel_target(&[0xE8, 0, 0], 0x1000), None);
}

#[test]
fn addresses_outside_the_image_have_no_rva() {
    assert_eq!(checked_rva(0x1010, 0x1000, 0x100).unwrap(), 0x10);
    assert!(checked_rva(0xFFF, 0x1000, 0x100).is_err());
    assert!(checked_rva(0x1100, 0x1000, 0x100).is_err());
}

#[test]
fn a_buffer_reads_what_it_holds() {
    let src = BufferSource::new(0x10, vec![1, 2, 3]);
    let mut buf = [0u8; 4];
    assert_eq!(src.read_into(0x11, &mut buf).unwrap(), 2);
    assert_eq!(buf[..2], [2, 3]);
    assert!(!matches!(src.read_into(0x13, &mut buf), Ok(n) if n > 0));
}

#[test]
fn strings_are_read_from_bytes() {
    assert_eq!(leading_string(b"Hello\0rest").as_deref(), Some("Hello"));
    assert_eq!(leading_string(b"ab\0"), None);
    assert_eq!(
        leading_string(b"W\0i\0d\0e\0r\0\0\0").as_deref(),
        Some("Wider")
    );
}

#[test]
fn numbers_and_texts_are_written() {
    let digits: Vec<char> = "+1aF".chars().collect();
    assert_eq!(read_number(&digits, 16, u64::MAX), Some(0x1AF));
    assert_eq!(read_number(&digits, 10, u64::MAX), None);
    assert_eq!(read_number(&digits, 16, 0x1AE), None);
    assert_eq!(read_number(&['+'], 10, 9), None);
    assert_eq!(spaced_hex(&[0x0F, 0xA0]), "0F A0");
    let mut s = String::new();
    push_quoted(&mut s, "a \"b\" \\");
    assert_eq!(s, format!("{:?}", "a \"b\" \\"));
    assert!(is_before("ab", "b") && is_before("a", "ab") && !is_before("a", "a"));
}

#[test]
fn grades_and_suffixes() {
    assert_eq!(
        [Grade::A, Grade::B, Grade::C, Grade::D, Grade::F].map(|g| g.letter()),
        ['A', 'B', 'C', 'D', 'F']
    );
    assert_eq!(
        [Suffix::Direct, Suffix::Call, Suffix::Jmp, Suffix::Ptr].map(|s| s.as_str()),
        ["", "_CALL", "_JMP", "_PTR"]
    );
    let o = SigOptions::default();
    assert_eq!((o.max_len, o.min_fixed), (80, 5));
    assert!(Ratio { num: 29, den: 100 }.is_below(o.min_fixed_ratio));
    assert!(!Ratio { num: 3, den: 10 }.is_below(o.min_fixed_ratio));
    assert_eq!(SubScores::default().final_score, 0);
}

#[test]
fn diagnostics_read_as_sentences() {
    let l = || "v95".to_string();
    let told: Vec<(Diag, &str)> = vec![
        (Diag::NoInputs, "no inputs"),
        (Diag::MixedArch, "inputs mix x86 and x64"),
        (
            Diag::PackedInput {
                label: l(),
                reasons: vec!["a".into(), "b".into()],
            },
            "packed input v95: a; b",
        ),
        (Diag::MissingInImage { label: l() }, "not found in v95"),
        (
            Diag::FoundInBuild { label: l(), rva: 0xAB },
            "found in v95 at 0xAB",
        ),
        (
            Diag::AmbiguousInImage { label: l(), count: 3 },
            "3 matches in v95",
        ),
        (
            Diag::StreamDiverges { label: l(), offset: 0x1F },
            "instruction stream diverges in v95 at +0x1F",
        ),
        (
            Diag::UnsupportedReloc { rva: 0x10, reloc_type: 7 },
            "unsupported relocation (type 7) at 0x10",
        ),
        (
            Diag::InvalidAob { reason: "x".into() },
            "invalid signature: x",
        ),
        (
            Diag::TooFewFixedBytes { fixed: 2 },
            "too few fixed bytes (2)",
        ),
        (
            Diag::LowFixedRatio { ratio: Ratio { num: 1, den: 8 } },
            "fixed ratio too low (0.12)",
        ),
        (Diag::NoOpcodeBytes, "no meaningful fixed opcode bytes"),
        (
            Diag::TargetNotCode { label: l(), rva: 0x20 },
            "branch target 0x20 is not in executable code in v95",
        ),
        (
            Diag::UnresolvableTarget { label: l() },
            "could not resolve the branch target in v95",
        ),
        (
            Diag::CalleeMismatch,
            "branch target resolves to different code across builds",
        ),
        (
            Diag::NotUnique,
            "could not make a unique signature across all builds",
        ),
        (Diag::BuildFailed, "build failed"),
    ];
    for (d, text) in told {
        assert_eq!(d.message(), text);
    }
}

#[test]
fn targets_are_classified_code_first() {
    let src = BufferSource::new(0x1000, vec![0; 0x10]);
    let img = ImageInput {
        label: "t".into(),
        source: &src,
        base: 0x1000,
        size: 0x1000,
        code_regions: vec![Region { base: 0x1000, size: 0x100 }],
        regions: vec![Region { base: 0x1000, size: 0x400 }],
        import: Some((0x10F0, 0x1120)),
        arch: Arch::X86,
        code_hash: 0,
        packed: false,
        pack_reasons: Vec::new(),
        reloc: None,
    };
    assert_eq!(img.classify(0x10F8), TargetKind::Code);
    assert_eq!(img.classify(0x1110), TargetKind::Import);
    assert_eq!(img.classify(0x1120), TargetKind::Data);
    assert_eq!(img.classify(0x1400), TargetKind::Unknown);
}
