use maple_core::memory::{BufferSource, Region};
use maple_core::pattern::Arch;
use maple_core::sigmaker::types::ImageInput;
use maple_core::sigmaker::encoding::{best_encoding_match, encoding_similarity, encoding_stream};
use maple_core::sigmaker::similarity::SIM_ONE;

fn img<'a>(src: &'a BufferSource, base: usize, size: usize) -> ImageInput<'a> {
    ImageInput {
        label: "t".into(),
        source: src,
        base,
        size,
        code_regions: vec![Region { base, size }],
        regions: vec![Region { base, size }],
        import: None,
        arch: Arch::X86,
        code_hash: 0,
        packed: false,
        pack_reasons: Vec::new(),
        reloc: None,
    }
}

#[test]
fn register_and_disp_size_separate_two_siblings() {
    // Same mnemonic stream, differing only as the real siblings do: `mov bl,imm8` vs `mov al,imm8`
    // (register) and `lea esi,[ebp+disp8]` vs `lea esi,[ebp+disp32]` (displacement size).
    let truth = vec![
        0xB3, 0xFF, // mov bl, 0xFF
        0x8D, 0x75, 0xC4, // lea esi, [ebp-0x3C]   (disp8)
        0xC3, // ret
    ];
    let sibling = vec![
        0xB0, 0xFF, // mov al, 0xFF            (different register)
        0x8D, 0xB5, 0xF0, 0xFD, 0xFF, 0xFF, // lea esi, [ebp-0x210] (disp32)
        0xC3, // ret
    ];
    let bt = BufferSource::new(0x1000, truth);
    let bs = BufferSource::new(0x1000, sibling);
    let st = encoding_stream(&img(&bt, 0x1000, 6), 0);
    let ss = encoding_stream(&img(&bs, 0x1000, 9), 0);
    assert_ne!(
        st[0], ss[0],
        "register difference must change the first token"
    );
    assert_ne!(
        st[1], ss[1],
        "displacement-size difference must change the lea token"
    );
    assert!(
        encoding_similarity(&st, &ss) < SIM_ONE,
        "two siblings must not be a perfect encoding match"
    );
}

#[test]
fn masked_values_do_not_affect_the_encoding() {
    // Identical encoding shape, different immediate and displacement VALUES: the masked values
    // must not change the stream, so these score a perfect match (the volatile bytes the AOB
    // wildcards do not pollute the comparison).
    let a = vec![0xB3, 0x01, 0x8D, 0x75, 0x10, 0xC3]; // mov bl,1 ; lea esi,[ebp+0x10] ; ret
    let b = vec![0xB3, 0x7F, 0x8D, 0x75, 0x20, 0xC3]; // mov bl,0x7f ; lea esi,[ebp+0x20] ; ret
    let ba = BufferSource::new(0x2000, a);
    let bb = BufferSource::new(0x2000, b);
    let sa = encoding_stream(&img(&ba, 0x2000, 6), 0);
    let sb = encoding_stream(&img(&bb, 0x2000, 6), 0);
    assert_eq!(
        sa, sb,
        "masked imm/disp values must not change the encoding stream"
    );
    assert!(encoding_similarity(&sa, &sb) == SIM_ONE);
}

#[test]
fn best_match_is_unique_when_only_one_window_shares_the_signature() {
    // A buffer with one copy of the reference signature and a sibling that differs in the first
    // token: the prefix prefilter excludes the sibling, so the match is unique.
    let mut data = vec![
        0xB3, 0xFF, 0x83, 0xEC, 0x10, 0x8B, 0xFC, 0x8D, 0x75, 0xC4, 0xC3, // reference
    ];
    data.resize(0x40, 0x90);
    // a sibling: mov al instead of mov bl, same rest
    data.extend_from_slice(&[
        0xB0, 0xFF, 0x83, 0xEC, 0x10, 0x8B, 0xFC, 0x8D, 0x75, 0xC4, 0xC3,
    ]);
    data.resize(0x80, 0x90);
    let src = BufferSource::new(0x1000, data);
    let image = img(&src, 0x1000, 0x80);
    let reference = encoding_stream(&image, 0);
    let (rva, sim, _runner, ties) = best_encoding_match(&image, &reference).expect("a match");
    assert_eq!(rva, 0, "the reference window itself is the best match");
    assert!(sim == SIM_ONE);
    assert_eq!(ties, 1, "only one window shares the leading signature");
}

#[test]
fn a_stream_is_fully_similar_to_itself() {
    let src = BufferSource::new(0x1000, vec![0xB3, 0xFF, 0x8D, 0x75, 0xC4, 0xC3]);
    let s = encoding_stream(&img(&src, 0x1000, 6), 0);
    assert_eq!(s.len(), 3);
    assert_eq!(encoding_similarity(&s, &s), SIM_ONE);
    assert_eq!(encoding_similarity(&s, &[]), 0);
}
