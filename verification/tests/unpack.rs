use maple_core::le::{get_u32, get_u64};
use maple_core::unpack::clean::{clean_bytes, CleanOptions};
use maple_core::unpack::flow::{
    clean_and_verify, conclude, dump_name, judge_dump, judge_native, next_wait, read_note,
    report_line, timeout_secs, verify_cleaned, Ending, Progress, Stage, WaitEvent, WaitStep,
};
use maple_core::unpack::imports::{compute_iat, list_descriptors, unbind_iat};
use maple_core::unpack::pe::{section_name, Pe};
use maple_core::unpack::sha256;
use maple_core::unpack::verify::{section_raw, verify_bytes, Percent};

fn percent(p: Percent) -> f64 {
    if p.whole == 0 {
        0.0
    } else {
        100.0 * f64::from(p.part) / f64::from(p.whole)
    }
}

fn w16(d: &mut [u8], o: usize, v: u16) {
    d[o..o + 2].copy_from_slice(&v.to_le_bytes());
}
fn w32(d: &mut [u8], o: usize, v: u32) {
    d[o..o + 4].copy_from_slice(&v.to_le_bytes());
}
fn w64(d: &mut [u8], o: usize, v: u64) {
    d[o..o + 8].copy_from_slice(&v.to_le_bytes());
}

const DD: usize = 0x108; // data directory
const COFF: usize = 0x84;
const RDATA_OFF: usize = 0xA00;
const TEXT_OFF: usize = 0x400;
const PDATA_OFF: usize = 0x1000;
const PDATA_ENTRIES: usize = 1408; // 0x4200 / 12

const OFT_REL: [usize; 6] = [0x90, 0x140, 0x1F0, 0x2A0, 0x350, 0x400];
const FT_REL: [usize; 6] = [0xE8, 0x198, 0x248, 0x2F8, 0x3A8, 0x458];
const HINT_RVA: u32 = 0x24E8;

// layout = [VirtualAddress, VirtualSize, SizeOfRawData, PointerToRawData]
fn sec(d: &mut [u8], idx: usize, name: &[u8], layout: [u32; 4], ch: u32) {
    let h = 0x188 + idx * 40;
    d[h..h + name.len()].copy_from_slice(name);
    w32(d, h + 8, layout[1]);
    w32(d, h + 12, layout[0]);
    w32(d, h + 16, layout[2]);
    w32(d, h + 20, layout[3]);
    w32(d, h + 36, ch);
}

/// A coherent PE32+ that exercises every clean op: a bogus exception/cert directory, an
/// empty IAT directory, real imports, a large strictly-ascending `.pdata`, and contiguous dead
/// `.themida`/`.boot` raw to strip. With `with_stub`, function-start 0x100 jumps into `.themida`.
fn build_image(with_stub: bool) -> Vec<u8> {
    let mut d = vec![0u8; 0x6200];
    d[0..2].copy_from_slice(b"MZ");
    w32(&mut d, 0x3C, 0x80);
    d[0x80..0x84].copy_from_slice(b"PE\0\0");

    // COFF
    w16(&mut d, COFF, 0x8664);
    w16(&mut d, COFF + 2, 6);
    w32(&mut d, COFF + 4, 0xDEAD_BEEF);
    w16(&mut d, COFF + 16, 0xF0);
    w16(&mut d, COFF + 18, 0x22);

    // optional header
    let opt = 0x98;
    w16(&mut d, opt, 0x20B);
    w32(&mut d, opt + 16, 0x1000);
    w64(&mut d, opt + 0x18, 0x1_4000_0000);
    w32(&mut d, opt + 0x38, 0xB000);
    w32(&mut d, opt + 0x3C, 0x400);
    w32(&mut d, opt + 0x6C, 16);

    // data directories: import set, exception/cert bogus (Themida copies), IAT empty
    w32(&mut d, DD + 8, 0x2000);
    w32(&mut d, DD + 12, 0x8C);
    w32(&mut d, DD + 24, 0xAAAA);
    w32(&mut d, DD + 28, 0xBBBB);
    w32(&mut d, DD + 32, 0xCCCC);
    w32(&mut d, DD + 36, 0xDDDD);

    sec(
        &mut d,
        0,
        b".text",
        [0x1000, 0x600, 0x600, 0x400],
        0x6000_0020,
    );
    sec(
        &mut d,
        1,
        b".rdata",
        [0x2000, 0x600, 0x600, 0xA00],
        0x4000_0040,
    );
    sec(
        &mut d,
        2,
        b".pdata",
        [0x3000, 0x4200, 0x4200, 0x1000],
        0x4000_0040,
    );
    sec(
        &mut d,
        3,
        b".themida",
        [0x8000, 0x1000, 0x600, 0x5200],
        0xE000_0020,
    );
    sec(
        &mut d,
        4,
        b".boot",
        [0x9000, 0x1000, 0x600, 0x5800],
        0x6000_0020,
    );
    sec(
        &mut d,
        5,
        b".SCY",
        [0xA000, 0x1000, 0x400, 0x5E00],
        0x6000_0020,
    );

    // OEP prologue + the MSVC security cookie sentinel
    let oep = [
        0x48, 0x89, 0x5c, 0x24, 0x20, 0x55, 0x48, 0x8b, 0xec, 0x48, 0x83, 0xec, 0x20, 0x48, 0x8b,
        0x05, 0x00, 0x00, 0x00, 0x00, 0x48, 0xbb, 0x32, 0xa2, 0xdf, 0x2d, 0x99, 0x2b, 0x00, 0x00,
    ];
    d[TEXT_OFF..TEXT_OFF + oep.len()].copy_from_slice(&oep);
    // a virtualization stub: jmp 0x140008000 (into .themida) at rva 0x1100, i.e. function-start 0x100
    if with_stub {
        d[TEXT_OFF + 0x100..TEXT_OFF + 0x105].copy_from_slice(&[0xE9, 0xFB, 0x6E, 0x00, 0x00]);
    }

    // imports: 6 DLLs x 10 functions
    for i in 0..6 {
        let desc = RDATA_OFF + i * 20;
        w32(&mut d, desc, 0x2000 + OFT_REL[i] as u32);
        w32(&mut d, desc + 12, 0x2000 + (0x4B0 + i * 9) as u32);
        w32(&mut d, desc + 16, 0x2000 + FT_REL[i] as u32);
        for j in 0..10 {
            w64(&mut d, RDATA_OFF + OFT_REL[i] + j * 8, HINT_RVA as u64);
            w64(
                &mut d,
                RDATA_OFF + FT_REL[i] + j * 8,
                0x7FFA_0000_0000_0000 + (i * 0x100 + j) as u64,
            );
        }
        let name = format!("DLL{i}.dll\0");
        let no = RDATA_OFF + 0x4B0 + i * 9;
        d[no..no + name.len()].copy_from_slice(name.as_bytes());
    }

    // .pdata: strictly ascending, in-range function starts; index 0x100 lands on the stub rva
    for k in 0..PDATA_ENTRIES {
        let begin = 0x1000 + k as u32;
        w32(&mut d, PDATA_OFF + k * 12, begin);
        w32(&mut d, PDATA_OFF + k * 12 + 4, begin + 0x10);
    }
    d
}

fn dir(d: &[u8], idx: usize) -> (u32, u32) {
    (
        get_u32(d, DD + idx * 8).unwrap(),
        get_u32(d, DD + idx * 8 + 4).unwrap(),
    )
}

#[test]
fn clean_rewrites_directories_and_sections() {
    let raw = build_image(false);
    let cleaned = clean_bytes(&raw, &CleanOptions::oracle()).unwrap();
    let d = &cleaned.data;

    assert_eq!(dir(d, 3), (0x3000, 0x4200), "exception dir -> .pdata");
    assert_eq!(dir(d, 4), (0, 0), "certificate dir zeroed");
    assert_eq!(dir(d, 12), (0x20E8, 0x3C8), "IAT dir computed");
    assert_eq!(cleaned.summary.iat_dir, Some((0x20E8, 0x3C8)));

    let pe = Pe::parse(d).unwrap();
    let themida = pe.section(".rsrv0").expect(".themida renamed to .rsrv0");
    let boot = pe.section(".rsrv1").expect(".boot renamed to .rsrv1");
    assert_eq!((themida.rs, themida.ro), (0, 0), "stripped raw of .rsrv0");
    assert_eq!((boot.rs, boot.ro), (0, 0), "stripped raw of .rsrv1");
    assert_eq!(
        get_u32(d, themida.hdr as usize + 36),
        Some(0x4000_0040),
        "deexec .rsrv0"
    );

    let scy = pe.section(".SCY").expect(".SCY kept");
    assert_eq!(get_u32(d, scy.hdr as usize + 36), Some(0x4000_0040), "deexec .SCY");
    assert_eq!(
        scy.ro, 0x5200,
        ".SCY file pointer shifted down by the stripped gap"
    );

    assert_eq!(cleaned.summary.stripped_bytes, 0xC00);
    assert_eq!(cleaned.summary.size_after, 0x6200 - 0xC00);
    assert_eq!(
        get_u32(d, COFF + 4),
        Some(0xDEAD_BEEF),
        "timestamp kept with oracle opts"
    );
}

#[test]
fn clean_preserves_text_bytes() {
    let raw = build_image(false);
    let cleaned = clean_bytes(&raw, &CleanOptions::default()).unwrap();
    let rp = Pe::parse(&raw).unwrap();
    let cp = Pe::parse(&cleaned.data).unwrap();
    let rt = rp.section(".text").unwrap();
    let ct = cp.section(".text").unwrap();
    assert_eq!(
        &raw[rt.ro as usize..(rt.ro + rt.rs) as usize],
        &cleaned.data[ct.ro as usize..(ct.ro + ct.rs) as usize],
        "code bytes must be byte-identical after clean"
    );
}

#[test]
fn production_opts_unbind_and_zero_timestamp() {
    let raw = build_image(false);
    let cleaned = clean_bytes(&raw, &CleanOptions::default()).unwrap();
    let d = &cleaned.data;
    assert_eq!(get_u32(d, COFF + 4), Some(0), "timestamp zeroed");
    assert!(cleaned.summary.timestamp_zeroed);
    assert!(cleaned.summary.unbound_thunks >= 60);
    // FirstThunk[0] of DLL0 now holds the OriginalFirstThunk value, not a bound address
    let ft0 = RDATA_OFF + FT_REL[0];
    assert_eq!(
        get_u64(d, ft0),
        Some(HINT_RVA as u64),
        "IAT unbound to OFT value"
    );
}

#[test]
fn verify_passes_on_good_image() {
    let raw = build_image(false);
    let cleaned = clean_bytes(&raw, &CleanOptions::default()).unwrap();
    let report = verify_bytes(&cleaned.data, Some((raw.as_slice(), "input dump"))).unwrap();
    assert!(report.gates_pass, "gates should pass: {report:?}");
    assert_eq!(report.import_dlls, 6);
    assert_eq!(report.import_functions, 60);
    assert!(report.imports_ok);
    assert_eq!(report.pdata_entries, PDATA_ENTRIES as u32);
    assert!(report.pdata_ok);
    assert!((percent(report.pdata_valid_pct) - 100.0).abs() < 1e-9);
    assert!(report.oep_is_msvc);
    assert_eq!(report.text_identity, Some(true));
    assert!(report.text_sha256.is_some());
    assert!(
        percent(report.virtualization_pct).abs() < 1e-9,
        "no stubs -> zero virtualization"
    );
    assert!(report.warnings.is_empty());
}

#[test]
fn verify_flags_virtualization() {
    let raw = build_image(true);
    let cleaned = clean_bytes(&raw, &CleanOptions::default()).unwrap();
    let report = verify_bytes(&cleaned.data, Some((raw.as_slice(), "input dump"))).unwrap();
    assert!(
        percent(report.virtualization_pct) > 0.0,
        "stub jumps must be detected"
    );
    assert!(
        report.gates_pass,
        "virtualization is advisory, not a hard gate"
    );
}

#[test]
fn verify_fails_on_gutted_imports() {
    let raw = build_image(false);
    let mut cleaned = clean_bytes(&raw, &CleanOptions::default()).unwrap().data;
    // wipe the import descriptors
    for i in 0..7 {
        for b in 0..20 {
            cleaned[RDATA_OFF + i * 20 + b] = 0;
        }
    }
    let report = verify_bytes(&cleaned, Some((raw.as_slice(), "input dump"))).unwrap();
    assert!(!report.imports_ok);
    assert!(!report.gates_pass);
}

#[test]
fn verify_fails_on_text_mismatch() {
    let raw = build_image(false);
    let cleaned = clean_bytes(&raw, &CleanOptions::default()).unwrap();
    let mut reference = raw.clone();
    reference[TEXT_OFF] ^= 0xFF; // corrupt the reference .text
    let report = verify_bytes(&cleaned.data, Some((reference.as_slice(), "packed original"))).unwrap();
    assert_eq!(report.text_identity, Some(false));
    assert!(!report.gates_pass);
}

#[test]
fn parse_rejects_non_pe() {
    assert!(Pe::parse(&[0u8; 8]).is_err());
    assert!(clean_bytes(b"not a pe at all", &CleanOptions::default()).is_err());
}

#[test]
fn compute_iat_skips_zero_firstthunk() {
    let mut raw = build_image(false);
    // a single descriptor with FirstThunk == 0 must not collapse the IAT extent to 0
    w32(&mut raw, RDATA_OFF + 5 * 20 + 16, 0);
    let cleaned = clean_bytes(&raw, &CleanOptions::oracle()).unwrap();
    assert_eq!(cleaned.summary.iat_dir, Some((0x20E8, 0x318)));
}

#[test]
fn pdata_duplicate_begin_is_not_ascending() {
    let raw = build_image(false);
    let clean_ok = clean_bytes(&raw, &CleanOptions::default()).unwrap();
    let strict = verify_bytes(&clean_ok.data, None).unwrap();
    assert!(
        (percent(strict.pdata_ascending_pct) - 100.0).abs() < 1e-9,
        "strictly ascending starts"
    );

    // a duplicate consecutive BeginAddress must count as non-ascending, not ascending
    let mut dup = build_image(false);
    let prev = get_u32(&dup, PDATA_OFF + 4 * 12).unwrap();
    w32(&mut dup, PDATA_OFF + 5 * 12, prev);
    let dup_clean = clean_bytes(&dup, &CleanOptions::default()).unwrap();
    let dup_report = verify_bytes(&dup_clean.data, None).unwrap();
    assert!(
        percent(dup_report.pdata_ascending_pct) < 100.0,
        "duplicate begin must be flagged"
    );
}

#[test]
fn pdata_gate_fails_in_isolation() {
    let mut raw = build_image(false);
    // push every function start out of the .text range: pdata invalid, imports untouched
    for k in 0..PDATA_ENTRIES {
        w32(&mut raw, PDATA_OFF + k * 12, 0x9999);
        w32(&mut raw, PDATA_OFF + k * 12 + 4, 0x99A9);
    }
    let cleaned = clean_bytes(&raw, &CleanOptions::default()).unwrap();
    let report = verify_bytes(&cleaned.data, Some((raw.as_slice(), "input dump"))).unwrap();
    assert!(report.imports_ok, "imports gate still passes");
    assert!(!report.pdata_ok, "pdata gate fails in isolation");
    assert!(!report.gates_pass);
}

#[test]
fn parse_names_what_is_wrong() {
    let why = |d: &[u8]| Pe::parse(d).unwrap_err().message;
    assert_eq!(why(&[0u8; 8]), "not a PE image (missing MZ)");
    let mut d = build_image(false);
    d[0x80] = 0;
    assert_eq!(why(&d), "missing PE signature");
    let mut d = build_image(false);
    w16(&mut d, 0x98, 0x30B);
    assert_eq!(why(&d), "unsupported optional header magic");
    let mut d = build_image(false);
    d.truncate(0x86);
    assert_eq!(why(&d), "truncated COFF header");
    let mut d = build_image(false);
    d.truncate(0x99);
    assert_eq!(why(&d), "truncated optional header");
    let mut d = build_image(false);
    d.truncate(0x98 + 0x1A);
    assert_eq!(why(&d), "truncated PE32+ header");
    let mut d = build_image(false);
    w16(&mut d, 0x98, 0x10B);
    d.truncate(0x98 + 0x1A);
    assert_eq!(why(&d), "truncated PE32 header");
    let mut d = build_image(false);
    d.truncate(0x1A0);
    assert_eq!(why(&d), "truncated section table");
}

#[test]
fn parse_reads_the_headers() {
    let d = build_image(false);
    let pe = Pe::parse(&d).unwrap();
    assert!(pe.is64);
    assert_eq!(pe.coff, COFF as u64);
    assert_eq!(pe.dd, DD as u64);
    assert_eq!(pe.image_base, 0x1_4000_0000);
    assert_eq!(pe.aep, 0x1000);
    assert_eq!(pe.sections.len(), 6);
    assert_eq!(pe.sections[2].name, ".pdata");
    assert_eq!(pe.rva2off(0x2010), Some(0xA10));
    // an address in the part of a section that the file does not hold
    assert_eq!(pe.rva2off(0x8700), None);
    assert_eq!(section_raw(&d, &pe, ".text").unwrap().len(), 0x600);
    assert!(section_raw(&d, &pe, ".nope").is_none());
}

#[test]
fn section_names_end_at_the_first_zero() {
    assert_eq!(section_name(b".text\0\0\0"), ".text");
    assert_eq!(section_name(b".longest"), ".longest");
    assert_eq!(section_name(b"\0abc"), "");
    assert_eq!(section_name(b"a\xFFb\0"), "a\u{FFFD}b");
}

#[test]
fn clean_reports_a_write_past_the_end() {
    // the directories of this header lie behind the end of the file
    let mut d = vec![0u8; 0x140];
    d[0..2].copy_from_slice(b"MZ");
    w32(&mut d, 0x3C, 0xC0);
    d[0xC0..0xC4].copy_from_slice(b"PE\0\0");
    w16(&mut d, 0xC4 + 16, 0xF0);
    w16(&mut d, 0xD8, 0x20B);
    let e = clean_bytes(&d, &CleanOptions::default()).unwrap_err();
    assert_eq!(e.message, "write past end of image");
}

#[test]
fn clean_refuses_dead_bytes_that_a_kept_section_shares() {
    let mut raw = build_image(false);
    // .SCY now starts inside .boot
    w32(&mut raw, 0x188 + 5 * 40 + 20, 0x5900);
    let e = clean_bytes(&raw, &CleanOptions::oracle()).unwrap_err();
    assert_eq!(
        e.message,
        "strip overlap: kept section .SCY intersects [0x5200,0x5e00)"
    );
    let mut raw = build_image(false);
    w32(&mut raw, 0x188 + 4 * 40 + 16, 0x9000);
    let e = clean_bytes(&raw, &CleanOptions::oracle()).unwrap_err();
    assert_eq!(e.message, "dead section raw range past end of image");
}

#[test]
fn iat_extent_that_does_not_fit_is_refused() {
    let mut raw = build_image(false);
    // the last descriptor's address table ends behind the address space
    w32(&mut raw, RDATA_OFF + 4 * 20 + 16, 1);
    w32(&mut raw, RDATA_OFF + 5 * 20 + 16, 0xFFFF_FFF0);
    let pe = Pe::parse(&raw).unwrap();
    assert_eq!(
        compute_iat(&raw, &pe).unwrap_err().message,
        "IAT extent overflows"
    );
}

#[test]
fn unbinding_copies_each_lookup_table_with_its_closing_zero() {
    let raw = build_image(false);
    let pe = Pe::parse(&raw).unwrap();
    assert_eq!(list_descriptors(&raw, &pe).len(), 6);
    let mut d = raw.clone();
    assert_eq!(unbind_iat(&mut d, &pe).unwrap(), 66);
    for i in 0..6 {
        let from = RDATA_OFF + OFT_REL[i];
        let to = RDATA_OFF + FT_REL[i];
        assert_eq!(d[from..from + 88], d[to..to + 88]);
    }
    // nothing else changed
    for k in 0..raw.len() {
        let thunk = (0..6).any(|i| {
            let to = RDATA_OFF + FT_REL[i];
            k >= to && k < to + 88
        });
        assert!(thunk || d[k] == raw[k]);
    }
}

#[test]
fn cleaning_moves_no_address() {
    let raw = build_image(false);
    let out = clean_bytes(&raw, &CleanOptions::default()).unwrap().data;
    let before = Pe::parse(&raw).unwrap();
    let after = Pe::parse(&out).unwrap();
    assert_eq!(before.aep, after.aep);
    assert_eq!(before.image_base, after.image_base);
    for (a, b) in before.sections.iter().zip(&after.sections) {
        assert_eq!((a.hdr, a.va, a.vs), (b.hdr, b.va, b.vs));
    }
}

#[test]
fn cleaning_keeps_the_bytes_of_a_moved_section() {
    let mut raw = build_image(false);
    for k in 0..0x400 {
        raw[0x5E00 + k] = (k % 251) as u8;
    }
    let out = clean_bytes(&raw, &CleanOptions::default()).unwrap().data;
    let p = Pe::parse(&raw).unwrap();
    let q = Pe::parse(&out).unwrap();
    assert_eq!(
        section_raw(&raw, &p, ".SCY").unwrap(),
        section_raw(&out, &q, ".SCY").unwrap()
    );
}

#[test]
fn summary_lists_the_edits() {
    let raw = build_image(false);
    let s = clean_bytes(&raw, &CleanOptions::default()).unwrap().summary;
    assert!(s.exception_repointed && s.cert_cleared && s.timestamp_zeroed);
    assert_eq!(s.deexec, vec![".themida", ".boot", ".SCY"]);
    assert_eq!(s.renamed, vec![".themida", ".boot"]);
    assert_eq!(s.unbound_thunks, 66);
    assert_eq!((s.size_before, s.size_after), (0x6200, 0x5600));
}

#[test]
fn sha256_of_known_messages() {
    assert_eq!(
        sha256::hex(b""),
        "e3b0c44298fc1c149afbf4c8996fb92427ae41e4649b934ca495991b7852b855"
    );
    assert_eq!(
        sha256::hex(b"abc"),
        "ba7816bf8f01cfea414140de5dae2223b00361a396177a9cb410ff61f20015ad"
    );
    assert_eq!(
        sha256::hex(b"abcdbcdecdefdefgefghfghighijhijkijkljklmklmnlmnomnopnopq"),
        "248d6a61d20638b8e5c026930c3e6039a33ce45964ff2167f6ecedd419db06c1"
    );
    assert_eq!(
        sha256::hex(&[b'a'; 1000]),
        "41edece42d63e8d9bf515a9ba6932e1c20cbc9f5a5d134645adb5db1b9737ea3"
    );
}

#[test]
fn verify_shows_the_entry_point() {
    let raw = build_image(false);
    let report = verify_bytes(&raw, None).unwrap();
    assert_eq!(report.oep_bytes, "48895c242055488b");
    assert_eq!(report.oep_disasm.len(), 6);
    assert_eq!(report.oep_disasm[0], "0x140001000: mov [rsp+20h],rbx");
    assert_eq!(report.oep_disasm[1], "0x140001005: push rbp");
    assert_eq!(report.text_identity, None);
    assert_eq!(report.text_ref, None);
}

#[test]
fn verify_warns_of_what_it_could_not_check() {
    let mut raw = build_image(false);
    raw[TEXT_OFF] = 0x90;
    let report = verify_bytes(&raw, Some((b"junk".as_slice(), "packed original"))).unwrap();
    assert_eq!(report.text_identity, None);
    assert_eq!(report.text_ref.as_deref(), Some("packed original"));
    assert_eq!(
        report.warnings,
        vec![
            "could not read .text from the packed original reference; skipped the identity check",
            "OEP prologue at rva 0x1000 is not the expected MSVC pattern",
        ]
    );
}

#[test]
fn verify_warns_of_a_virtualized_build() {
    let mut raw = build_image(false);
    // every twentieth function start jumps into .themida
    for k in (0..PDATA_ENTRIES).step_by(20) {
        let begin = 0x1000 + k as u32;
        let at = TEXT_OFF + k;
        if at + 5 <= TEXT_OFF + 0x600 {
            let rel = 0x8000i64 - (i64::from(begin) + 5);
            raw[at] = 0xE9;
            w32(&mut raw, at + 1, rel as u32);
        }
    }
    let report = verify_bytes(&raw, None).unwrap();
    assert_eq!(report.virtualization_sampled, PDATA_ENTRIES as u32);
    assert!(report.virtualization_pct.exceeds(1));
    assert!(report
        .warnings
        .last()
        .unwrap()
        .ends_with("% across 1408 function starts suggests a VM-protected build"));
}

#[test]
fn percent_compares_exactly() {
    assert!(!Percent { part: 95, whole: 100 }.exceeds(95));
    assert!(Percent { part: 951, whole: 1000 }.exceeds(95));
    assert!(!Percent { part: 0, whole: 0 }.exceeds(0));
}

#[test]
fn a_cleaned_dump_passes_against_itself() {
    let raw = build_image(false);
    let (cleaned, report) = clean_and_verify(&raw, &CleanOptions::default(), None).unwrap();
    assert_eq!(report.text_identity, Some(true));
    assert_eq!(report.text_ref.as_deref(), Some("input dump"));
    let done = conclude("in".into(), "out".into(), None, cleaned.summary, report);
    assert!(done.gates_pass);
    assert_eq!(done.output.as_deref(), Some("out"));

    let mut packed = raw.clone();
    packed[TEXT_OFF] ^= 0xFF;
    let (cleaned, report) =
        clean_and_verify(&raw, &CleanOptions::default(), Some(&packed)).unwrap();
    assert_eq!(report.text_identity, Some(false));
    let done = conclude("in".into(), "out".into(), None, cleaned.summary, report);
    assert!(!done.gates_pass);
    assert_eq!(done.output, None, "no binary may be written when a gate fails");
}

#[test]
fn native_notes_tell_stages_from_lines() {
    assert_eq!(
        read_note("[native-unpack] clean the dump"),
        Progress::Stage(Stage::Clean)
    );
    assert_eq!(
        read_note("[native-unpack]  verify"),
        Progress::Stage(Stage::Verify)
    );
    assert_eq!(
        read_note("[native-unpack] cleaning"),
        Progress::Line("cleaning")
    );
    assert_eq!(read_note("  plain line \t"), Progress::Line("plain line"));
    assert_eq!(read_note(""), Progress::Line(""));
    assert_eq!(read_note("[native-unpack] "), Progress::Line(""));
}

#[test]
fn the_report_is_the_last_object_line() {
    let out = "starting\n{\"a\":1}\r\n  {\"b\":2}\r\ndone\n";
    assert_eq!(report_line(out).as_deref(), Some("  {\"b\":2}"));
    assert_eq!(report_line("{}").as_deref(), Some("{}"));
    assert_eq!(report_line("no report\nhere"), None);
    assert_eq!(report_line(""), None);
}

#[test]
fn timeouts_are_positive_numbers() {
    assert_eq!(timeout_secs(None), 600);
    assert_eq!(timeout_secs(Some("90")), 90);
    assert_eq!(timeout_secs(Some("+90")), 90);
    assert_eq!(timeout_secs(Some("0")), 600);
    assert_eq!(timeout_secs(Some("soon")), 600);
    assert_eq!(timeout_secs(Some("18446744073709551616")), 600);
}

#[test]
fn dumper_endings_are_told() {
    let tell = |e: Ending| judge_dump(e, " bad thing \n", "unpacked_a.exe");
    assert_eq!(tell(Ending::Finished { produced: true }), None);
    assert_eq!(
        tell(Ending::Finished { produced: false }).unwrap(),
        "unlicense ran but did not produce unpacked_a.exe"
    );
    assert_eq!(
        tell(Ending::Failed { code: Some(-3) }).unwrap(),
        "unlicense failed (exit -3). bad thing"
    );
    assert_eq!(
        tell(Ending::Failed { code: None }).unwrap(),
        "unlicense failed (exit signal). bad thing"
    );
    assert_eq!(
        tell(Ending::TimedOut { secs: 600 }).unwrap(),
        "unlicense timed out after 600s and was killed; set MAPLE_UNPACK_TIMEOUT_SECS to allow longer"
    );
    assert_eq!(
        judge_native(Some(1)),
        "the native dumper failed (exit 1); no verified binary was written"
    );
    assert_eq!(dump_name("a.exe"), "unpacked_a.exe");
}

#[test]
fn unbinding_leaves_code_alone() {
    let mut raw = build_image(false);
    // The first library's address table is said to lie in the code, the second's across its end.
    w32(&mut raw, RDATA_OFF + 16, 0x1100);
    w32(&mut raw, RDATA_OFF + 20 + 16, 0x15F8);
    let cleaned = clean_bytes(&raw, &CleanOptions::default()).unwrap();
    assert_eq!(
        cleaned.data[TEXT_OFF..TEXT_OFF + 0x600],
        raw[TEXT_OFF..TEXT_OFF + 0x600]
    );
    let report = verify_bytes(&cleaned.data, Some((&raw, "input dump"))).unwrap();
    assert_eq!(report.text_identity, Some(true));
}

#[test]
fn waiting_for_a_dumper() {
    for past in [false, true] {
        assert_eq!(next_wait(WaitEvent::Line, past), WaitStep::Show);
        assert_eq!(next_wait(WaitEvent::Closed, past), WaitStep::Stop);
    }
    assert_eq!(next_wait(WaitEvent::Silence, false), WaitStep::Wait);
    assert_eq!(next_wait(WaitEvent::Silence, true), WaitStep::Kill);
}

#[test]
fn a_cleaned_dump_is_held_against_the_original_or_the_dump() {
    let raw = build_image(false);
    let cleaned = clean_bytes(&raw, &CleanOptions::default()).unwrap();
    let own = verify_cleaned(&raw, &cleaned.data, None).unwrap();
    assert_eq!(own.text_identity, Some(true));
    let mut original = raw.clone();
    original[TEXT_OFF + 0x40] ^= 1;
    let other = verify_cleaned(&raw, &cleaned.data, Some(&original)).unwrap();
    assert_eq!(other.text_identity, Some(false));
}

#[test]
fn cleaning_twice_is_cleaning_once() {
    for opts in [CleanOptions::default(), CleanOptions::oracle()] {
        let once = clean_bytes(&build_image(false), &opts).unwrap();
        let twice = clean_bytes(&once.data, &opts).unwrap();
        assert!(once.data == twice.data);
        assert_eq!(twice.summary.stripped_bytes, 0);
        assert!(twice.summary.renamed.is_empty());
    }
}

/// The section table starts among the unused directories.
fn short_optional_header() -> Vec<u8> {
    let mut raw = build_image(false);
    let table: Vec<u8> = raw[0x188..0x188 + 6 * 40].to_vec();
    raw[0x158..0x158 + 6 * 40].copy_from_slice(&table);
    w16(&mut raw, COFF + 16, 0xC0);
    raw
}

#[test]
fn clean_refuses_edits_that_land_on_other_headers() {
    // The import address directory lies in the header of .text.
    let raw = short_optional_header();
    let e = clean_bytes(&raw, &CleanOptions::oracle()).unwrap_err();
    assert_eq!(e.message, "the edits overlap the headers or the code");

    // The bytes that are removed start in the headers.
    let mut raw = build_image(false);
    for i in [0, 1, 2, 5] {
        w32(&mut raw, 0x188 + i * 40 + 16, 0);
    }
    w32(&mut raw, 0x188 + 3 * 40 + 20, 0x200);
    let e = clean_bytes(&raw, &CleanOptions::oracle()).unwrap_err();
    assert_eq!(e.message, "the edits overlap the headers or the code");
}

#[test]
fn clean_takes_an_overlap_that_no_edit_touches() {
    // Without imports no address directory is written, and nothing lands in the section table.
    let mut raw = short_optional_header();
    w32(&mut raw, DD + 8, 0);
    let before = Pe::parse(&raw).unwrap();
    let cleaned = clean_bytes(&raw, &CleanOptions::oracle()).unwrap();
    let after = Pe::parse(&cleaned.data).unwrap();
    assert_eq!(after.sections.len(), 6);
    for (a, b) in before.sections.iter().zip(&after.sections) {
        assert_eq!((a.va, a.vs), (b.va, b.vs));
    }
    assert_eq!(
        cleaned.data[TEXT_OFF..TEXT_OFF + 0x600],
        raw[TEXT_OFF..TEXT_OFF + 0x600]
    );

    // A PE header inside the DOS header, with every edit behind both.
    let mut tiny = vec![0u8; 0x400];
    tiny[0..2].copy_from_slice(b"MZ");
    tiny[4..8].copy_from_slice(b"PE\0\0");
    w16(&mut tiny, 8, 0x14C);
    w16(&mut tiny, 8 + 2, 1);
    w16(&mut tiny, 8 + 16, 0xE0);
    w16(&mut tiny, 0x1C, 0x10B);
    w32(&mut tiny, 0x3C, 4);
    tiny[0xFC..0x101].copy_from_slice(b".text");
    w32(&mut tiny, 0xFC + 8, 0x100);
    w32(&mut tiny, 0xFC + 12, 0x1000);
    w32(&mut tiny, 0xFC + 16, 0x100);
    w32(&mut tiny, 0xFC + 20, 0x200);
    w32(&mut tiny, 0x7C + 32, 0x77);
    let cleaned = clean_bytes(&tiny, &CleanOptions::default()).unwrap();
    assert_eq!(get_u32(&cleaned.data, 0x7C + 32), Some(0));
    assert_eq!(cleaned.data[0x200..0x300], tiny[0x200..0x300]);
}

