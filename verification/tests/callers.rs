use maple_core::memory::{BufferSource, Region};
use maple_core::pattern::Arch;
use maple_core::sigmaker::types::ImageInput;
use maple_core::sigmaker::callers::{make_caller_anchor, resolve_caller_anchor};

#[test]
fn caller_anchor_round_trips_through_a_string_anchored_caller() {
    // A caller G (standard prologue) references a unique string and calls the target C; the target
    // has no string of its own. make_caller_anchor must pin C through G's string, and resolving the
    // anchor on the same image must read C back.
    const BASE: usize = 0x40_0000;
    let mut buf = vec![0u8; 0x400];
    // G @ 0x100: push ebp ; mov ebp, esp ; push offset 0x400300 ; call C ; pop ebp ; ret
    buf[0x100..0x103].copy_from_slice(&[0x55, 0x8B, 0xEC]);
    buf[0x103..0x108].copy_from_slice(&[0x68, 0x00, 0x03, 0x40, 0x00]);
    buf[0x108] = 0xE8;
    let rel = 0x180i32 - (0x108 + 5);
    buf[0x109..0x10D].copy_from_slice(&rel.to_le_bytes());
    buf[0x10D..0x10F].copy_from_slice(&[0x5D, 0xC3]);
    // C @ 0x180: a small distinctive function, referenced by no string.
    buf[0x180..0x187].copy_from_slice(&[0x55, 0x8B, 0xEC, 0x33, 0xC0, 0x5D, 0xC3]);
    // The unique string in data.
    let s = b"UniqueAnchorString\0";
    buf[0x300..0x300 + s.len()].copy_from_slice(s);

    let src = BufferSource::new(BASE, buf);
    let img = ImageInput {
        label: "t".into(),
        source: &src,
        base: BASE,
        size: 0x400,
        code_regions: vec![Region {
            base: BASE + 0x100,
            size: 0x100,
        }],
        regions: vec![Region {
            base: BASE,
            size: 0x400,
        }],
        import: None,
        arch: Arch::X86,
        code_hash: 0,
        packed: false,
        pack_reasons: Vec::new(),
        reloc: None,
    };

    let anchor = make_caller_anchor(&img, 0x180).expect("a caller anchor for C via G's string");
    assert_eq!(anchor.caller.text, "UniqueAnchorString");
    assert_eq!(resolve_caller_anchor(&img, &anchor), Some(0x180));
}

#[test]
fn a_function_with_no_string_anchored_caller_declines() {
    // The caller references no string, so there is no stable handle to anchor on.
    const BASE: usize = 0x40_0000;
    let mut buf = vec![0u8; 0x400];
    // G @ 0x100: push ebp ; mov ebp, esp ; call C ; pop ebp ; ret  (no string reference)
    buf[0x100..0x103].copy_from_slice(&[0x55, 0x8B, 0xEC]);
    buf[0x103] = 0xE8;
    let rel = 0x180i32 - (0x103 + 5);
    buf[0x104..0x108].copy_from_slice(&rel.to_le_bytes());
    buf[0x108..0x10A].copy_from_slice(&[0x5D, 0xC3]);
    buf[0x180..0x187].copy_from_slice(&[0x55, 0x8B, 0xEC, 0x33, 0xC0, 0x5D, 0xC3]);
    let src = BufferSource::new(BASE, buf);
    let img = ImageInput {
        label: "t".into(),
        source: &src,
        base: BASE,
        size: 0x400,
        code_regions: vec![Region {
            base: BASE + 0x100,
            size: 0x100,
        }],
        regions: vec![Region {
            base: BASE,
            size: 0x400,
        }],
        import: None,
        arch: Arch::X86,
        code_hash: 0,
        packed: false,
        pack_reasons: Vec::new(),
        reloc: None,
    };
    assert!(make_caller_anchor(&img, 0x180).is_none());
}
