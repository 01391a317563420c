use maple_core::memory::{BufferSource, Region};
use maple_core::pattern::Arch;
use maple_core::sigmaker::types::ImageInput;
use maple_core::sigmaker::model::AnalysisModel;

fn img<'a>(src: &'a BufferSource, base: usize, size: usize) -> ImageInput<'a> {
    ImageInput {
        label: "t".into(),
        source: src,
        base,
        size,
        code_regions: vec![Region { base, size }],
        regions: vec![Region { base, size }],
        import: None,
        arch: Arch::X86,
        code_hash: 0,
        packed: false,
        pack_reasons: Vec::new(),
        reloc: None,
    }
}

#[test]
fn recovers_a_direct_call_target_as_an_entry() {
    // call C ; ret, with C a small function later in the buffer. The call target must be recovered
    // as a function entry and the call site attributed to its enclosing function.
    const BASE: usize = 0x40_0000;
    let mut buf = vec![0x90u8; 0x200];
    // G @ 0x00: push ebp ; mov ebp, esp ; call C(@0x100) ; pop ebp ; ret
    buf[0x00..0x03].copy_from_slice(&[0x55, 0x8B, 0xEC]);
    buf[0x03] = 0xE8;
    let rel = 0x100i32 - (0x03 + 5);
    buf[0x04..0x08].copy_from_slice(&rel.to_le_bytes());
    buf[0x08..0x0A].copy_from_slice(&[0x5D, 0xC3]);
    // C @ 0x100: a tiny function.
    buf[0x100..0x107].copy_from_slice(&[0x55, 0x8B, 0xEC, 0x33, 0xC0, 0x5D, 0xC3]);

    let src = BufferSource::new(BASE, buf);
    let image = img(&src, BASE, 0x200);
    let model = AnalysisModel::build(&image);
    assert!(model.entries().contains(&0x100), "C is a call target");
    assert_eq!(
        model.callers_of(&image, 0x100),
        vec![0x00],
        "the call to C is attributed to G's entry"
    );
}

#[test]
fn an_operand_byte_e8_with_an_in_code_target_is_not_an_entry() {
    // The regression the feature exists to prevent. `mov eax, 0x000000E8` is
    // `B8 E8 00 00 00`: the 0xE8 is the immediate's low byte at offset 1, and the following byte is
    // 0x00, so a scan that decoded *starting at* that 0xE8 would read `E8 00 00 00 00` = call rel32 0,
    // a target of base+6 that IS in code, and mint a phantom entry there. The linear sweep consumes
    // the 0xE8 inside the `mov`, so it is never a call boundary and no entry is minted.
    const BASE: usize = 0x40_0000;
    let mut buf = vec![0x90u8; 0x80];
    buf[0x00..0x05].copy_from_slice(&[0xB8, 0xE8, 0x00, 0x00, 0x00]);
    buf[0x05] = 0x00;
    let src = BufferSource::new(BASE, buf);
    let image = img(&src, BASE, 0x80);
    let model = AnalysisModel::build(&image);
    assert!(
        !model.entries().contains(&0x06),
        "an operand-byte 0xE8 must not mint a phantom entry at its misaligned target"
    );
    assert!(
        model.entries().is_empty(),
        "the buffer holds no real call, so the graph is empty"
    );
}

#[test]
fn ignores_a_call_whose_target_is_outside_code() {
    // A real call (on a boundary) whose target leaves the code region is not a function entry.
    const BASE: usize = 0x40_0000;
    let mut buf = vec![0x90u8; 0x80];
    buf[0x00] = 0xE8;
    // call at offset 0 (so the next ip is +5); aim the target well past the region end at 0x80.
    let rel = 0x1000i32 - 5;
    buf[0x01..0x05].copy_from_slice(&rel.to_le_bytes());
    buf[0x05] = 0xC3;
    let src = BufferSource::new(BASE, buf);
    let image = img(&src, BASE, 0x80);
    let model = AnalysisModel::build(&image);
    assert!(
        model.entries().is_empty(),
        "a call leaving the code region is not an entry"
    );
}

#[test]
fn an_e8_in_the_last_bytes_of_a_region_does_not_decode_to_a_call() {
    // An 0xE8 with fewer than five bytes after it cannot be a complete near call; the sweep must not
    // read past the region to invent one.
    const BASE: usize = 0x40_0000;
    // push ebp ; mov ebp, esp ; ret ; then a trailing 0xE8 with only two bytes behind it.
    let buf = vec![0x55u8, 0x8B, 0xEC, 0xC3, 0xE8, 0x00, 0x00];
    let src = BufferSource::new(BASE, buf);
    let image = img(&src, BASE, 0x7);
    let model = AnalysisModel::build(&image);
    assert!(
        model.entries().is_empty(),
        "a truncated 0xE8 at the region tail is not a call"
    );
}
