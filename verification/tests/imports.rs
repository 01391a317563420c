use maple_core::memory::{BufferSource, Region};
use maple_core::pattern::Arch;
use maple_core::sigmaker::types::ImageInput;
use maple_core::sigmaker::imports::{import_map, import_set, make_import_anchor, resolve_import_anchor};
use std::collections::BTreeMap;

fn img_arch<'a>(src: &'a BufferSource, base: usize, size: usize, arch: Arch) -> ImageInput<'a> {
    ImageInput {
        label: "t".into(),
        source: src,
        base,
        size,
        code_regions: vec![Region { base, size }],
        regions: vec![Region { base, size }],
        import: None,
        arch,
        code_hash: 0,
        packed: false,
        pack_reasons: Vec::new(),
        reloc: None,
    }
}
fn img<'a>(src: &'a BufferSource, base: usize, size: usize) -> ImageInput<'a> {
    img_arch(src, base, size, Arch::X86)
}

#[test]
fn import_set_collects_indirect_call_targets() {
    // call [0x2000] ; call [0x2004] ; ret, with a map naming those two IAT slots.
    let code = vec![
        0xFF, 0x15, 0x00, 0x20, 0x00, 0x00, // call [0x2000]
        0xFF, 0x15, 0x04, 0x20, 0x00, 0x00, // call [0x2004]
        0xC3,
    ];
    let src = BufferSource::new(0x1000, code);
    let image = img(&src, 0x1000, 0x20);
    let mut map = BTreeMap::new();
    map.insert(0x2000usize, "ws2_32.dll!socket".to_string());
    map.insert(0x2004usize, "ws2_32.dll!closesocket".to_string());
    let set = import_set(&image, &map, 0);
    assert_eq!(set.len(), 2);
    assert!(set.contains(&"ws2_32.dll!socket".to_string()));
    assert!(set.contains(&"ws2_32.dll!closesocket".to_string()));
}

#[test]
fn a_lone_import_is_below_the_anchor_floor() {
    // One import is not distinctive: make_import_anchor must decline (MIN_IMPORTS).
    let code = vec![0xFF, 0x15, 0x00, 0x20, 0x00, 0x00, 0xC3]; // call [0x2000] ; ret
    let src = BufferSource::new(0x1000, code);
    let image = img(&src, 0x1000, 0x20);
    let map = BTreeMap::new(); // no names -> empty set
    assert!(import_set(&image, &map, 0).is_empty());
    assert!(make_import_anchor(&image, 0).is_none());
}

#[test]
fn import_set_collects_x64_rip_relative_calls() {
    // #12: x64 dereferences the IAT RIP-relatively. call [rip+0x1FFA] (6 bytes, next IP base+6 ->
    // base+0x2000) ; call [rip+0x1FFC] (next IP base+12 -> base+0x2008) ; ret.
    let code = vec![
        0xFF, 0x15, 0xFA, 0x1F, 0x00, 0x00, // call [rip+0x1FFA]
        0xFF, 0x15, 0xFC, 0x1F, 0x00, 0x00, // call [rip+0x1FFC]
        0xC3,
    ];
    let src = BufferSource::new(0x1000, code);
    let image = img_arch(&src, 0x1000, 0x20, Arch::X64);
    let mut map = BTreeMap::new();
    map.insert(0x1000 + 0x2000, "ws2_32.dll!socket".to_string());
    map.insert(0x1000 + 0x2008, "ws2_32.dll!closesocket".to_string());
    let set = import_set(&image, &map, 0);
    assert_eq!(set.len(), 2);
    assert!(set.contains(&"ws2_32.dll!socket".to_string()));
    assert!(set.contains(&"ws2_32.dll!closesocket".to_string()));
}

#[test]
fn import_map_parses_pe32plus_thunks() {
    // #12: a minimal PE32+ import directory naming one ws2_32 import via 8-byte thunks; import_map
    // must read the 8-byte INT entry, follow it to the hint/name, and key the IAT slot by it.
    const BASE: usize = 0x1000;
    let mut buf = vec![0u8; 0x200];
    buf[0x100..0x10B].copy_from_slice(b"ws2_32.dll\0"); // DLL name @ 0x100
    buf[0x122..0x129].copy_from_slice(b"socket\0"); // name @ 0x122 (after a 2-byte hint @ 0x120)
    buf[0x140..0x148].copy_from_slice(&0x120u64.to_le_bytes()); // INT thunk[0] -> hint/name @ 0x120
    buf[0x160..0x168].copy_from_slice(&0x120u64.to_le_bytes()); // IAT thunk[0] (pre-load mirror)
    // IMAGE_IMPORT_DESCRIPTOR @ 0x180: OriginalFirstThunk, _, _, Name, FirstThunk (then a null one).
    buf[0x180..0x184].copy_from_slice(&0x140u32.to_le_bytes()); // OriginalFirstThunk = INT rva
    buf[0x18C..0x190].copy_from_slice(&0x100u32.to_le_bytes()); // Name = DLL-name rva
    buf[0x190..0x194].copy_from_slice(&0x160u32.to_le_bytes()); // FirstThunk = IAT rva
    let src = BufferSource::new(BASE, buf);
    let mut image = img_arch(&src, BASE, 0x200, Arch::X64);
    image.import = Some((BASE + 0x180, BASE + 0x180 + 40));
    let map = import_map(&image);
    assert_eq!(
        map.get(&(BASE + 0x160)).map(String::as_str),
        Some("ws2_32.dll!socket")
    );
}

#[test]
fn an_import_set_pins_the_function_that_calls_it() {
    // caller @ 0: call F ; ret.  F @ 0x20: call [0x1160] ; call [0x1164] ; ret.
    const BASE: usize = 0x1000;
    let mut buf = vec![0u8; 0x200];
    buf[0..5].copy_from_slice(&[0xE8, 0x1B, 0x00, 0x00, 0x00]);
    buf[5] = 0xC3;
    buf[0x20..0x26].copy_from_slice(&[0xFF, 0x15, 0x60, 0x11, 0x00, 0x00]);
    buf[0x26..0x2C].copy_from_slice(&[0xFF, 0x15, 0x64, 0x11, 0x00, 0x00]);
    buf[0x2C] = 0xC3;
    buf[0x100..0x106].copy_from_slice(b"w.dll\0");
    buf[0x112..0x114].copy_from_slice(b"a\0");
    buf[0x122..0x124].copy_from_slice(b"b\0");
    buf[0x140..0x144].copy_from_slice(&0x110u32.to_le_bytes());
    buf[0x144..0x148].copy_from_slice(&0x120u32.to_le_bytes());
    buf[0x180..0x184].copy_from_slice(&0x140u32.to_le_bytes());
    buf[0x18C..0x190].copy_from_slice(&0x100u32.to_le_bytes());
    buf[0x190..0x194].copy_from_slice(&0x160u32.to_le_bytes());
    let src = BufferSource::new(BASE, buf);
    let mut image = img(&src, BASE, 0x80);
    image.import = Some((BASE + 0x180, BASE + 0x180 + 40));
    let anchor = make_import_anchor(&image, 0x20).expect("two imports");
    assert_eq!(anchor.names, vec!["w.dll!a", "w.dll!b"]);
    assert_eq!(resolve_import_anchor(&image, &anchor), Some(0x20));
}
