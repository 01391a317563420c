use maple_core::memory::{BufferSource, Region};
use maple_core::pattern::Arch;
use maple_core::sigmaker::types::ImageInput;
use maple_core::sigmaker::alignment::{align, weighted_agreement};
use maple_core::sigmaker::similarity::SIM_PERCENT;
use maple_core::sigmaker::tables::{demangle_rtti_name, follow_thunk, membership, vtables};
use maple_core::sigmaker::vtable::{make_vtable_anchor, resolve_vtable_anchor};

const BASE: usize = 0x40_0000;

// An x86 image whose code region holds ten tiny functions and whose data tail holds a vtable of
// pointers to them. Functions use distinct one-byte instructions so per-slot fingerprints differ.
fn synthetic() -> (Vec<u8>, Vec<usize>, usize) {
    let mut buf = vec![0u8; 0x400];
    let mut fn_rvas = Vec::new();
    for j in 0..10usize {
        let rva = 0x100 + j * 0x20;
        fn_rvas.push(rva);
        let opcode = 0x40 + (j as u8 % 8); // inc/dec eax..edi: a distinct one-byte instruction
        for k in 0..(j + 2) {
            buf[rva + k] = opcode;
        }
        buf[rva + j + 2] = 0xC3; // ret
    }
    // The vtable: ten absolute pointers to the functions, then a zero terminator.
    let table = 0x300usize;
    for (k, &rva) in fn_rvas.iter().enumerate() {
        let abs = (BASE + rva) as u32;
        buf[table + k * 4..table + k * 4 + 4].copy_from_slice(&abs.to_le_bytes());
    }
    (buf, fn_rvas, table)
}

fn image<'a>(src: &'a BufferSource, code: Region) -> ImageInput<'a> {
    ImageInput {
        label: "t".into(),
        source: src,
        base: BASE,
        size: 0x400,
        code_regions: vec![code],
        regions: vec![Region {
            base: BASE,
            size: 0x400,
        }],
        import: None,
        arch: Arch::X86,
        code_hash: 0,
        packed: false,
        pack_reasons: Vec::new(),
        reloc: None,
    }
}

// An x64 image: ten tiny functions (distinct single-byte instructions, since 0x40..0x47 are REX
// prefixes on x64) and a data-tail vtable of 8-byte pointers into them.
fn synthetic_x64() -> (Vec<u8>, Vec<usize>, usize) {
    const OPS: [u8; 10] = [0x90, 0x99, 0x98, 0x9C, 0x9D, 0xF5, 0xF8, 0xF9, 0xFC, 0xFD];
    let mut buf = vec![0u8; 0x400];
    let mut fn_rvas = Vec::new();
    for j in 0..10usize {
        let rva = 0x100 + j * 0x20;
        fn_rvas.push(rva);
        for k in 0..(j + 2) {
            buf[rva + k] = OPS[j];
        }
        buf[rva + j + 2] = 0xC3; // ret
    }
    let table = 0x300usize;
    for (k, &rva) in fn_rvas.iter().enumerate() {
        let abs = (BASE + rva) as u64;
        buf[table + k * 8..table + k * 8 + 8].copy_from_slice(&abs.to_le_bytes());
    }
    (buf, fn_rvas, table)
}

fn image_x64<'a>(src: &'a BufferSource, code: Region) -> ImageInput<'a> {
    ImageInput {
        arch: Arch::X64,
        ..image(src, code)
    }
}

#[test]
fn vtable_round_trips_on_x64() {
    // #12: the structural per-slot matcher is arch-neutral, and vtables now reads 8-byte x64
    // pointers. A synthetic x64 image with one 10-slot table of 8-byte function pointers: vtables
    // enumerates it, and an anchor for one slot relocates back onto itself. Constructor grounding
    // stays x86-only, so x64 uses the structural match alone (installer is None). Validated
    // synthetically because no x64 MapleStory client exists to measure against.
    let (buf, fn_rvas, table) = synthetic_x64();
    let src = BufferSource::new(BASE, buf.clone());
    let img = image_x64(
        &src,
        Region {
            base: BASE + 0x100,
            size: 0x200,
        },
    );
    let found = vtables(&img, &buf);
    let vt = found
        .iter()
        .find(|(start, _)| *start == table)
        .expect("the x64 8-byte-pointer table is enumerated as a vtable");
    assert_eq!(
        vt.1, fn_rvas,
        "all ten 8-byte slots resolve to the function RVAs"
    );

    let target = fn_rvas[3];
    let anchor = make_vtable_anchor(&img, target).expect("the x64 method is a vtable slot");
    assert_eq!(anchor.slot, 3);
    assert!(
        anchor.installer.is_none(),
        "x64 grounds structurally, with no installer fallback"
    );
    let (rva, agreement, _runner) =
        resolve_vtable_anchor(&img, &anchor).expect("the x64 table relocates onto itself");
    assert_eq!(rva, target, "the slot reads back to the same method");
    assert!(agreement > 99 * SIM_PERCENT);
}

#[test]
fn vtables_enumerates_a_run_of_code_pointers() {
    let (buf, fn_rvas, table) = synthetic();
    let src = BufferSource::new(BASE, buf.clone());
    // Code region covers only the functions, so the table's bytes are data that point into it.
    let img = image(
        &src,
        Region {
            base: BASE + 0x100,
            size: 0x200,
        },
    );
    let found = vtables(&img, &buf);
    let vt = found
        .iter()
        .find(|(start, _)| *start == table)
        .expect("the function-pointer table is enumerated as a vtable");
    assert_eq!(vt.1, fn_rvas, "all ten slots resolve to the function RVAs");
}

#[test]
fn make_and_resolve_round_trip_on_one_image() {
    let (buf, fn_rvas, _) = synthetic();
    let src = BufferSource::new(BASE, buf);
    let img = image(
        &src,
        Region {
            base: BASE + 0x100,
            size: 0x200,
        },
    );
    let target = fn_rvas[3];
    let anchor = make_vtable_anchor(&img, target).expect("the method is a vtable slot");
    assert_eq!(anchor.slot, 3);
    assert!(!anchor.via_thunk);
    let (rva, agreement, _runner) =
        resolve_vtable_anchor(&img, &anchor).expect("the table relocates onto itself");
    assert_eq!(rva, target, "the slot reads back to the same method");
    assert!(agreement > 99 * SIM_PERCENT, "an image matches itself at agreement 1.0");
}

#[test]
fn follow_thunk_follows_a_plain_jump() {
    // jmp rel32 at rva 0x10 to a `ret` at rva 0x40; whole image is code.
    let mut buf = vec![0u8; 0x100];
    buf[0x40] = 0xC3;
    let rel = 0x40i32 - (0x10 + 5);
    buf[0x10] = 0xE9;
    buf[0x11..0x15].copy_from_slice(&rel.to_le_bytes());
    let src = BufferSource::new(BASE, buf);
    let img = image(
        &src,
        Region {
            base: BASE,
            size: 0x100,
        },
    );
    assert_eq!(follow_thunk(&img, 0x10), (0x40, true));
}

#[test]
fn follow_thunk_follows_an_adjustor_thunk() {
    // add ecx, 8 ; jmp rel32 -> ret at 0x40.
    let mut buf = vec![0u8; 0x100];
    buf[0x40] = 0xC3;
    buf[0x10] = 0x83; // add ecx, 8
    buf[0x11] = 0xC1;
    buf[0x12] = 0x08;
    let rel = 0x40i32 - (0x13 + 5);
    buf[0x13] = 0xE9; // jmp rel32
    buf[0x14..0x18].copy_from_slice(&rel.to_le_bytes());
    let src = BufferSource::new(BASE, buf);
    let img = image(
        &src,
        Region {
            base: BASE,
            size: 0x100,
        },
    );
    assert_eq!(follow_thunk(&img, 0x10), (0x40, true));
}

#[test]
fn follow_thunk_leaves_a_direct_function_unchanged() {
    // A real function entry (not a thunk) is returned as-is.
    let mut buf = vec![0u8; 0x100];
    buf[0x10] = 0x55; // push ebp
    buf[0x11] = 0x8B; // mov ebp, esp
    buf[0x12] = 0xEC;
    let src = BufferSource::new(BASE, buf);
    let img = image(
        &src,
        Region {
            base: BASE,
            size: 0x100,
        },
    );
    assert_eq!(follow_thunk(&img, 0x10), (0x10, false));
}

#[test]
fn align_absorbs_a_front_insertion() {
    // The candidate prepends two methods with no counterpart in the reference; free end-gaps must
    // let the shared tail still align 1:1 at full agreement (the cross-major front-block case).
    let (a, b, c, d) = (vec![1u16, 2], vec![3u16, 4], vec![5u16, 6], vec![7u16, 8]);
    let ref_fp = vec![a.clone(), b.clone(), c.clone(), d.clone()];
    let cand_fp = vec![vec![20u16, 21], vec![22u16, 23], a, b, c, d];
    let mapping = align(&ref_fp, &cand_fp);
    assert_eq!(mapping, vec![Some(2), Some(3), Some(4), Some(5)]);
    let agree = weighted_agreement(&ref_fp, &cand_fp, &mapping, &vec![1; 4]);
    assert!(agree > 99 * SIM_PERCENT, "shared tail must align fully, got {agree}");
}

#[test]
fn align_absorbs_a_middle_block_insertion() {
    // Two methods inserted between B and C; affine gaps coalesce them and the rest aligns 1:1.
    let (a, b, c, d) = (vec![1u16, 2], vec![3u16, 4], vec![5u16, 6], vec![7u16, 8]);
    let ref_fp = vec![a.clone(), b.clone(), c.clone(), d.clone()];
    let cand_fp = vec![a, b, vec![30u16, 31], vec![32u16, 33], c, d];
    let mapping = align(&ref_fp, &cand_fp);
    assert_eq!(mapping, vec![Some(0), Some(1), Some(4), Some(5)]);
}

#[test]
fn alignment_never_crosses() {
    let ref_fp: Vec<Vec<u16>> = (0..6).map(|k| vec![k, k + 1, k + 10]).collect();
    let mut cand_fp = ref_fp.clone();
    cand_fp.swap(1, 4);
    let mapping = align(&ref_fp, &cand_fp);
    let placed: Vec<usize> = mapping.iter().flatten().copied().collect();
    assert!(placed.windows(2).all(|w| w[0] < w[1]));
}

#[test]
fn membership_names_table_and_slot() {
    let (buf, fn_rvas, table) = synthetic();
    let src = BufferSource::new(BASE, buf);
    let img = image(
        &src,
        Region {
            base: BASE + 0x100,
            size: 0x200,
        },
    );
    assert_eq!(membership(&img, fn_rvas[4]), Some((table, 4, 10, None)));
    assert_eq!(membership(&img, 0x101), None);
}

#[test]
fn rtti_names_lose_their_decoration() {
    assert_eq!(demangle_rtti_name(b".?AVCUser@@").as_deref(), Some("CUser"));
    assert_eq!(demangle_rtti_name(b"plain"), None);
}
