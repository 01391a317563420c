use maple_core::memory::{BufferSource, Region};
use maple_core::pattern::Arch;
use maple_core::sigmaker::types::ImageInput;
use maple_core::sigmaker::constants::{make_constant_anchor, resolve_constant_anchor, ConstantAnchor};

const BASE: usize = 0x40_0000;

// Two prologued functions (so enclosing_function can find their starts): f0 uses a rare constant, f1
// a different one.
fn image_with_constant() -> Vec<u8> {
    let mut buf = vec![0u8; 0x400];
    // f0 @ 0x100: push ebp ; mov ebp,esp ; mov eax, 0xDEADBEEF ; pop ebp ; ret
    buf[0x100..0x10A]
        .copy_from_slice(&[0x55, 0x8B, 0xEC, 0xB8, 0xEF, 0xBE, 0xAD, 0xDE, 0x5D, 0xC3]);
    // f1 @ 0x140: push ebp ; mov ebp,esp ; mov eax, 0x11223344 ; pop ebp ; ret
    buf[0x140..0x14A]
        .copy_from_slice(&[0x55, 0x8B, 0xEC, 0xB8, 0x44, 0x33, 0x22, 0x11, 0x5D, 0xC3]);
    buf
}

fn image(src: &BufferSource) -> ImageInput<'_> {
    ImageInput {
        label: "t".into(),
        source: src,
        base: BASE,
        size: 0x400,
        code_regions: vec![Region {
            base: BASE,
            size: 0x400,
        }],
        regions: vec![Region {
            base: BASE,
            size: 0x400,
        }],
        import: None,
        arch: Arch::X86,
        code_hash: 0,
        packed: false,
        pack_reasons: Vec::new(),
        reloc: None,
    }
}

#[test]
fn anchors_and_resolves_a_unique_constant() {
    let src = BufferSource::new(BASE, image_with_constant());
    let img = image(&src);
    let anchor =
        make_constant_anchor(&img, 0x100).expect("f0 has a uniquely-occurring constant");
    assert_eq!(anchor.value, 0xDEAD_BEEF);
    assert_eq!(resolve_constant_anchor(&img, &anchor), Some(0x100));
}

#[test]
fn declines_when_the_constant_is_not_unique() {
    // Both functions use the same constant, so its bytes occur twice: not anchorable, and an anchor
    // for that value resolves ambiguously.
    let mut buf = vec![0u8; 0x400];
    buf[0x100..0x10A]
        .copy_from_slice(&[0x55, 0x8B, 0xEC, 0xB8, 0xEF, 0xBE, 0xAD, 0xDE, 0x5D, 0xC3]);
    buf[0x140..0x14A]
        .copy_from_slice(&[0x55, 0x8B, 0xEC, 0xB8, 0xEF, 0xBE, 0xAD, 0xDE, 0x5D, 0xC3]);
    let src = BufferSource::new(BASE, buf);
    let img = image(&src);
    assert!(make_constant_anchor(&img, 0x100).is_none());
    assert!(resolve_constant_anchor(&img, &ConstantAnchor { value: 0xDEAD_BEEF }).is_none());
}

#[test]
fn ignores_small_immediates() {
    // push ebp ; mov ebp,esp ; mov eax, 0x40 (a small imm32, below the literal floor) ; pop ebp ; ret
    let mut buf = vec![0u8; 0x400];
    buf[0x100..0x10A]
        .copy_from_slice(&[0x55, 0x8B, 0xEC, 0xB8, 0x40, 0x00, 0x00, 0x00, 0x5D, 0xC3]);
    let src = BufferSource::new(BASE, buf);
    let img = image(&src);
    assert!(make_constant_anchor(&img, 0x100).is_none());
}
