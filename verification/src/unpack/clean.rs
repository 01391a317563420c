//! The clean phase: edits of the headers and sections that never touch code bytes.

use crate::le;
use crate::sigmaker::types::starting;
use crate::text;
use crate::text::{push_hex_lower, same_text};
use crate::unpack::imports;
use crate::unpack::imports::{compute_iat, unbind_iat};
use crate::unpack::pe;
use crate::unpack::pe::{bad, section_name, write_bytes, write32, BadImage, Pe, PeV, Sec, SecV};
use vstd::prelude::*;
use vstd::slice::slice_to_vec;
use vstd::string::*;

verus! {

/// The flags of a section of initialized data that can be read.
pub const DATA_ONLY: u32 = 0x4000_0040;

/// What the clean phase does beyond the edits that every dump needs. Both make the output reproducible
/// and independent of the machine, and both are on by default.
#[derive(Clone, Copy, Debug, PartialEq, Eq, Structural)]
pub struct CleanOptions {
    /// Copy each lookup table over its address table, so that the import table no longer carries the
    /// dump host's module addresses.
    pub unbind_iat: bool,
    /// Zero the COFF timestamp, so that the output hashes the same each time.
    pub zero_timestamp: bool,
}

impl Default for CleanOptions {
    fn default() -> (o: Self)
        ensures
            o.unbind_iat,
            o.zero_timestamp,
    {
        CleanOptions { unbind_iat: true, zero_timestamp: true }
    }
}

impl CleanOptions {
    /// Only the edits that every dump needs.
    pub fn oracle() -> (o: Self)
        ensures
            !o.unbind_iat,
            !o.zero_timestamp,
    {
        CleanOptions { unbind_iat: false, zero_timestamp: false }
    }
}

/// What the clean phase did.
#[derive(Clone, Debug)]
pub struct CleanSummary {
    pub exception_repointed: bool,
    pub cert_cleared: bool,
    /// The new import address directory, address and size.
    pub iat_dir: Option<(u32, u32)>,
    pub unbound_thunks: u32,
    /// Sections that are executable no more.
    pub deexec: Vec<String>,
    /// Sections that were given a new name.
    pub renamed: Vec<String>,
    pub timestamp_zeroed: bool,
    pub stripped_bytes: u32,
    pub size_before: u64,
    pub size_after: u64,
}

/// A [`CleanSummary`] by its content.
#[verifier::ext_equal]
pub struct CleanSummaryV {
    pub exception_repointed: bool,
    pub cert_cleared: bool,
    pub iat_dir: Option<(u32, u32)>,
    pub unbound_thunks: u32,
    pub deexec: Seq<Seq<char>>,
    pub renamed: Seq<Seq<char>>,
    pub timestamp_zeroed: bool,
    pub stripped_bytes: u32,
    pub size_before: u64,
    pub size_after: u64,
}

impl DeepView for CleanSummary {
    type V = CleanSummaryV;

    open spec fn deep_view(&self) -> CleanSummaryV {
        CleanSummaryV {
            exception_repointed: self.exception_repointed,
            cert_cleared: self.cert_cleared,
            iat_dir: self.iat_dir,
            unbound_thunks: self.unbound_thunks,
            deexec: self.deexec.deep_view(),
            renamed: self.renamed.deep_view(),
            timestamp_zeroed: self.timestamp_zeroed,
            stripped_bytes: self.stripped_bytes,
            size_before: self.size_before,
            size_after: self.size_after,
        }
    }
}

/// The cleaned file and what was done to it.
#[derive(Clone, Debug)]
pub struct Cleaned {
    pub data: Vec<u8>,
    pub summary: CleanSummary,
}

/// A file after some edits, or why they failed.
pub type Edited = Result<Seq<u8>, Seq<char>>;

/// A 32-bit value written at `o`.
pub open spec fn stored(d: Edited, o: int, v: u32) -> Edited {
    match d {
        Err(m) => Err(m),
        Ok(s) => match pe::put(s, o, le::le32_bytes(v)) {
            Some(n) => Ok(n),
            None => Err("write past end of image"@),
        },
    }
}

/// A data directory set to an address and a size.
pub open spec fn pointed(d: Edited, p: PeV, entry: int, rva: u32, size: u32) -> Edited {
    stored(stored(d, p.dd + 8 * entry, rva), p.dd + 8 * entry + 4, size)
}

/// The exception directory repointed to `.pdata`, where there is one, and the certificate directory
/// cleared.
pub open spec fn directories_mended(d: Seq<u8>, p: PeV) -> Edited {
    let repointed = match p.named(".pdata"@) {
        Some(s) => pointed(Ok(d), p, 3, s.va, s.vs),
        None => Ok(d),
    };
    pointed(repointed, p, 4, 0, 0)
}

/// The import address directory set to the extent of the tables.
pub open spec fn iat_set(d: Edited, p: PeV) -> Result<(Seq<u8>, Option<(u32, u32)>), Seq<char>> {
    match d {
        Err(m) => Err(m),
        Ok(s) => match imports::iat_of(s, p) {
            Err(m) => Err(m),
            Ok((rva, size)) => if rva == 0 {
                Ok((s, None))
            } else {
                match pointed(Ok(s), p, 12, rva, size) {
                    Err(m) => Err(m),
                    Ok(n) => Ok((n, Some((rva, size)))),
                }
            },
        },
    }
}

/// The names of the sections that a packer leaves and that must not be executed.
pub open spec fn residue() -> Seq<Seq<char>> {
    seq![".themida"@, ".boot"@, ".SCY"@]
}

/// The flags of those of the first `n` residue sections that exist set to plain data.
pub open spec fn quieted(d: Seq<u8>, p: PeV, n: int) -> Edited
    decreases n,
{
    if n <= 0 {
        Ok(d)
    } else {
        let before = quieted(d, p, n - 1);
        match p.named(residue()[n - 1]) {
            Some(s) => stored(before, s.hdr + 36, DATA_ONLY),
            None => before,
        }
    }
}

/// The names of those of the first `n` residue sections that exist.
pub open spec fn quiet_names(p: PeV, n: int) -> Seq<Seq<char>>
    decreases n,
{
    if n <= 0 {
        Seq::empty()
    } else if p.named(residue()[n - 1]) is Some {
        quiet_names(p, n - 1).push(residue()[n - 1])
    } else {
        quiet_names(p, n - 1)
    }
}

/// The new name of a section that a packer leaves.
pub open spec fn new_name(name: Seq<char>) -> Option<Seq<u8>> {
    if name == ".themida"@ {
        Some(seq![0x2Eu8, 0x72, 0x73, 0x72, 0x76, 0x30, 0, 0])
    } else if name == ".boot"@ {
        Some(seq![0x2Eu8, 0x72, 0x73, 0x72, 0x76, 0x31, 0, 0])
    } else {
        None
    }
}

/// The first `n` sections renamed where they have a new name.
pub open spec fn renamed(d: Seq<u8>, p: PeV, n: int) -> Edited
    decreases n,
{
    if n <= 0 {
        Ok(d)
    } else {
        let s = p.sections[n - 1];
        match (renamed(d, p, n - 1), new_name(s.name)) {
            (Ok(e), Some(b)) => match pe::put(e, s.hdr as int, b) {
                Some(x) => Ok(x),
                None => Err("section name past end"@),
            },
            (before, _) => before,
        }
    }
}

/// The old names of those of the first `n` sections that are renamed.
pub open spec fn old_names(p: PeV, n: int) -> Seq<Seq<char>>
    decreases n,
{
    if n <= 0 {
        Seq::empty()
    } else if new_name(p.sections[n - 1].name) is Some {
        old_names(p, n - 1).push(p.sections[n - 1].name)
    } else {
        old_names(p, n - 1)
    }
}

/// The sections whose bytes are removed.
pub open spec fn dead(p: PeV) -> Seq<SecV> {
    let a = match p.named(".themida"@) {
        Some(s) => seq![s],
        None => Seq::empty(),
    };
    match p.named(".boot"@) {
        Some(s) => a.push(s),
        None => a,
    }
}

/// The least file offset of the first `n` sections.
pub open spec fn low(s: Seq<SecV>, n: int) -> int
    decreases n,
{
    if n <= 1 {
        s[0].ro as int
    } else if s[n - 1].ro < low(s, n - 1) {
        s[n - 1].ro as int
    } else {
        low(s, n - 1)
    }
}

/// The greatest file end of the first `n` sections.
pub open spec fn high(s: Seq<SecV>, n: int) -> int
    decreases n,
{
    if n <= 0 {
        0
    } else if s[n - 1].ro + s[n - 1].rs > high(s, n - 1) {
        s[n - 1].ro + s[n - 1].rs
    } else {
        high(s, n - 1)
    }
}

/// Whether a section is one of these, by the place of its header.
pub open spec fn among(s: Seq<SecV>, x: SecV) -> bool {
    exists|i: int| 0 <= i < s.len() && (#[trigger] s[i]).hdr == x.hdr
}

/// Whether a section keeps bytes of the range.
pub open spec fn overlaps(p: PeV, x: SecV, lo: int, hi: int) -> bool {
    !among(dead(p), x) && x.rs != 0 && !(x.ro + x.rs <= lo || x.ro >= hi)
}

/// The first section from `i` on that keeps bytes of the range.
pub open spec fn kept_in(p: PeV, lo: int, hi: int, i: int) -> Option<SecV>
    decreases p.sections.len() - i,
{
    if !(0 <= i < p.sections.len()) {
        None
    } else if overlaps(p, p.sections[i], lo, hi) {
        Some(p.sections[i])
    } else {
        kept_in(p, lo, hi, i + 1)
    }
}

/// What is said of a kept section that shares bytes with the dead ones.
pub open spec fn overlap_message(name: Seq<char>, lo: int, hi: int) -> Seq<char> {
    "strip overlap: kept section "@ + name + " intersects [0x"@ + text::hex_lower(lo as nat) + ",0x"@
        + text::hex_lower(hi as nat) + ")"@
}

/// The first `n` section headers mended: those of dead sections say that nothing is in the file, and
/// those of sections behind the gap move down by it.
pub open spec fn moved(d: Seq<u8>, p: PeV, hi: int, gap: int, n: int) -> Edited
    decreases n,
{
    if n <= 0 {
        Ok(d)
    } else {
        let before = moved(d, p, hi, gap, n - 1);
        let s = p.sections[n - 1];
        if among(dead(p), s) {
            stored(stored(before, s.hdr + 16, 0), s.hdr + 20, 0)
        } else if s.rs != 0 && s.ro >= hi {
            stored(before, s.hdr + 20, (s.ro - gap) as u32)
        } else {
            before
        }
    }
}

/// The file without the bytes of the dead sections, and how many there were.
pub open spec fn stripped(d: Seq<u8>, p: PeV) -> Result<(Seq<u8>, u32), Seq<char>> {
    let s = dead(p);
    let lo = low(s, s.len() as int);
    let hi = high(s, s.len() as int);
    if s.len() == 0 || lo >= hi {
        Ok((d, 0))
    } else if hi > d.len() {
        Err("dead section raw range past end of image"@)
    } else {
        match kept_in(p, lo, hi, 0) {
            Some(x) => Err(overlap_message(x.name, lo, hi)),
            None => match moved(d.take(lo) + d.skip(hi), p, hi, hi - lo, p.sections.len() as int) {
                Err(m) => Err(m),
                Ok(n) => if hi - lo > u32::MAX {
                    Err("stripped run overflows"@)
                } else {
                    Ok((n, (hi - lo) as u32))
                },
            },
        }
    }
}

/// The address tables unbound, where that is wanted.
pub open spec fn thunks_unbound(d: Seq<u8>, p: PeV, opts: CleanOptions) -> imports::Unbound {
    if opts.unbind_iat {
        imports::unbound(d, p)
    } else {
        Ok((d, 0))
    }
}

/// The flags, the timestamp and the names of the sections edited.
pub open spec fn headers_edited(d: Seq<u8>, p: PeV, opts: CleanOptions) -> Edited {
    let quiet = quieted(d, p, residue().len() as int);
    let stamped = if opts.zero_timestamp {
        stored(quiet, p.coff + 4, 0)
    } else {
        quiet
    };
    match stamped {
        Err(m) => Err(m),
        Ok(e) => renamed(e, p, p.sections.len() as int),
    }
}

/// The file size and offset of a section after the dead bytes are gone.
pub open spec fn moved_fields(p: PeV, s: SecV, hi: int, gap: int) -> (u32, u32) {
    if among(dead(p), s) {
        (0, 0)
    } else if s.rs != 0 && s.ro >= hi {
        (s.rs, (s.ro - gap) as u32)
    } else {
        (s.rs, s.ro)
    }
}

/// Where the dead bytes start.
pub open spec fn dead_start(p: PeV) -> int {
    low(dead(p), dead(p).len() as int)
}

/// Where the dead bytes end.
pub open spec fn dead_end(p: PeV) -> int {
    high(dead(p), dead(p).len() as int)
}

/// Whether there are dead bytes to remove.
pub open spec fn strips(p: PeV) -> bool {
    dead(p).len() > 0 && dead_start(p) < dead_end(p)
}

/// A section header after cleaning: its name and what is in the file may change, its addresses never.
pub open spec fn cleaned_section(p: PeV, s: SecV) -> SecV {
    let fields = if strips(p) {
        moved_fields(p, s, dead_end(p), dead_end(p) - dead_start(p))
    } else {
        (s.rs, s.ro)
    };
    SecV {
        hdr: s.hdr,
        name: match new_name(s.name) {
            Some(b) => pe::name_of(b),
            None => s.name,
        },
        vs: s.vs,
        va: s.va,
        rs: fields.0,
        ro: fields.1,
    }
}

/// The headers after cleaning.
pub open spec fn cleaned_headers(p: PeV) -> PeV {
    PeV {
        sections: Seq::new(p.sections.len(), |i: int| cleaned_section(p, p.sections[i])),
        ..p
    }
}

/// The byte at `k` of a section is where the cleaned headers say.
pub open spec fn byte_kept(raw: Seq<u8>, p: PeV, s: SecV, out: Seq<u8>, k: int) -> bool {
    let at = k - s.ro + cleaned_section(p, s).ro;
    0 <= at < out.len() && out[at] == raw[k]
}

/// Every byte that a section has in the file behind the headers is where the cleaned headers say.
pub open spec fn section_kept(raw: Seq<u8>, p: PeV, s: SecV, out: Seq<u8>) -> bool {
    forall|k: int|
        s.ro <= k < s.ro + s.rs && p.front() <= k < raw.len() ==> #[trigger] byte_kept(
            raw,
            p,
            s,
            out,
            k,
        )
}

/// The code is where the cleaned headers say.
pub open spec fn code_kept(raw: Seq<u8>, p: PeV, out: Seq<u8>) -> bool {
    p.named(".text"@) matches Some(s) ==> section_kept(raw, p, s, out)
}

/// The edits did what they were meant to and no more: the headers read as they should, and the code is the
/// same. They do not where the headers overlap each other, the code, or the bytes removed.
pub open spec fn intact(raw: Seq<u8>, p: PeV, out: Seq<u8>) -> bool {
    pe::headers(out) == Ok::<PeV, Seq<char>>(cleaned_headers(p)) && code_kept(raw, p, out)
}

/// A file with all edits made, and what was done to it.
pub open spec fn with_edits(raw: Seq<u8>, p: PeV, opts: CleanOptions) -> Result<
    (Seq<u8>, CleanSummaryV),
    Seq<char>,
> {
    match iat_set(directories_mended(raw, p), p) {
        Err(m) => Err(m),
        Ok((d, iat_dir)) => match thunks_unbound(d, p, opts) {
            Err(m) => Err(m),
            Ok((d, touched)) => match headers_edited(d, p, opts) {
                Err(m) => Err(m),
                Ok(d) => match stripped(d, p) {
                    Err(m) => Err(m),
                    Ok((d, gap)) => Ok(
                        (
                            d,
                            CleanSummaryV {
                                exception_repointed: p.named(".pdata"@) is Some,
                                cert_cleared: true,
                                iat_dir,
                                unbound_thunks: touched as u32,
                                deexec: quiet_names(p, residue().len() as int),
                                renamed: old_names(p, p.sections.len() as int),
                                timestamp_zeroed: opts.zero_timestamp,
                                stripped_bytes: gap,
                                size_before: raw.len() as u64,
                                size_after: d.len() as u64,
                            },
                        ),
                    ),
                },
            },
        },
    }
}

/// A file cleaned, and what was done to it; or why it was refused.
pub open spec fn cleaned(raw: Seq<u8>, opts: CleanOptions) -> Result<
    (Seq<u8>, CleanSummaryV),
    Seq<char>,
> {
    match pe::headers(raw) {
        Err(m) => Err(m),
        Ok(p) => match with_edits(raw, p, opts) {
            Err(m) => Err(m),
            Ok((out, summary)) => if intact(raw, p, out) {
                Ok((out, summary))
            } else {
                Err("the edits overlap the headers or the code"@)
            },
        },
    }
}

fn store(d: &mut Vec<u8>, o: u64, v: u32) -> (r: Result<(), BadImage>)
    ensures
        match r {
            Ok(_) => stored(Ok(old(d)@), o as int, v) == Ok::<Seq<u8>, Seq<char>>(final(d)@),
            Err(e) => stored(Ok(old(d)@), o as int, v) == Err::<Seq<u8>, Seq<char>>(e.message@),
        },
{
    if write32(d, o, v) {
        Ok(())
    } else {
        Err(bad("write past end of image"))
    }
}

fn point(d: &mut Vec<u8>, p: &Pe, entry: u64, rva: u32, size: u32) -> (r: Result<(), BadImage>)
    requires
        p.deep_view().wf(),
        entry < 16,
    ensures
        match r {
            Ok(_) => pointed(Ok(old(d)@), p.deep_view(), entry as int, rva, size) == Ok::<
                Seq<u8>,
                Seq<char>,
            >(final(d)@),
            Err(e) => pointed(Ok(old(d)@), p.deep_view(), entry as int, rva, size) == Err::<
                Seq<u8>,
                Seq<char>,
            >(e.message@),
        },
{
    match store(d, p.dd + 8 * entry, rva) {
        Ok(_) => {},
        Err(e) => {
            return Err(e);
        },
    }
    store(d, p.dd + 8 * entry + 4, size)
}

fn mend_directories(d: &mut Vec<u8>, p: &Pe) -> (r: Result<bool, BadImage>)
    requires
        p.deep_view().wf(),
    ensures
        match r {
            Ok(b) => directories_mended(old(d)@, p.deep_view()) == Ok::<Seq<u8>, Seq<char>>(final(d)@)
                && b == (p.deep_view().named(".pdata"@) is Some),
            Err(e) => directories_mended(old(d)@, p.deep_view()) == Err::<Seq<u8>, Seq<char>>(
                e.message@,
            ),
        },
{
    let mut repointed: bool = false;
    if let Some(s) = p.section(".pdata") {
        match point(d, p, 3, s.va, s.vs) {
            Ok(_) => {},
            Err(e) => {
                return Err(e);
            },
        }
        repointed = true;
    }
    match point(d, p, 4, 0, 0) {
        Ok(_) => Ok(repointed),
        Err(e) => Err(e),
    }
}

fn set_iat(d: &mut Vec<u8>, p: &Pe) -> (r: Result<Option<(u32, u32)>, BadImage>)
    requires
        p.deep_view().wf(),
    ensures
        match r {
            Ok(x) => iat_set(Ok(old(d)@), p.deep_view()) == Ok::<
                (Seq<u8>, Option<(u32, u32)>),
                Seq<char>,
            >((final(d)@, x)),
            Err(e) => iat_set(Ok(old(d)@), p.deep_view()) == Err::<
                (Seq<u8>, Option<(u32, u32)>),
                Seq<char>,
            >(e.message@),
        },
{
    let (rva, size) = match compute_iat(d.as_slice(), p) {
        Ok(x) => x,
        Err(e) => {
            return Err(e);
        },
    };
    if rva == 0 {
        return Ok(None);
    }
    match point(d, p, 12, rva, size) {
        Ok(_) => Ok(Some((rva, size))),
        Err(e) => Err(e),
    }
}

proof fn quieting_fails_for_good(d: Seq<u8>, p: PeV, m: int, n: int)
    requires
        0 <= m <= n,
        quieted(d, p, m) is Err,
    ensures
        quieted(d, p, n) == quieted(d, p, m),
    decreases n - m,
{
    if m < n {
        quieting_fails_for_good(d, p, m, n - 1);
    }
}

fn quiet(d: &mut Vec<u8>, p: &Pe) -> (r: Result<Vec<String>, BadImage>)
    requires
        p.deep_view().wf(),
    ensures
        match r {
            Ok(v) => quieted(old(d)@, p.deep_view(), 3) == Ok::<Seq<u8>, Seq<char>>(final(d)@)
                && v.deep_view() == quiet_names(p.deep_view(), 3),
            Err(e) => quieted(old(d)@, p.deep_view(), 3) == Err::<Seq<u8>, Seq<char>>(e.message@),
        },
{
    let ghost pv = p.deep_view();
    let ghost start = d@;
    let names: [&str; 3] = [".themida", ".boot", ".SCY"];
    let mut v: Vec<String> = Vec::new();
    let mut n: usize = 0;
    assert(v.deep_view() =~= Seq::<Seq<char>>::empty());
    while n < 3
        invariant
            pv == p.deep_view(),
            pv.wf(),
            names@.len() == 3,
            forall|i: int| 0 <= i < 3 ==> (#[trigger] names@[i])@ == residue()[i],
            n <= 3,
            quieted(start, pv, n as int) == Ok::<Seq<u8>, Seq<char>>(d@),
            v.deep_view() == quiet_names(pv, n as int),
            start == old(d)@,
        decreases 3 - n,
    {
        let name = names[n];
        assert(names@[n as int]@ == residue()[n as int]);
        if let Some(s) = p.section(name) {
            proof {
                found_is_one(pv.sections, name@, 0);
            }
            match store(d, s.hdr + 36, DATA_ONLY) {
                Ok(_) => {},
                Err(e) => {
                    proof {
                        quieting_fails_for_good(start, pv, n + 1, 3);
                    }
                    return Err(e);
                },
            }
            let ghost before = v.deep_view();
            v.push(starting(name));
            assert(v.deep_view() =~= before.push(name@));
        }
        n += 1;
    }
    Ok(v)
}

/// The first section of a name is one of the sections.
pub proof fn found_is_one(sections: Seq<SecV>, name: Seq<char>, i: int)
    requires
        0 <= i,
    ensures
        pe::named_from(sections, name, i) matches Some(s) ==> s.name == name && exists|k: int|
            i <= k < sections.len() && #[trigger] sections[k] == s,
    decreases sections.len() - i,
{
    if i < sections.len() {
        if sections[i].name == name {
            assert(sections[i] == sections[i]);
        } else {
            found_is_one(sections, name, i + 1);
            if let Some(s) = pe::named_from(sections, name, i + 1) {
                let k = choose|k: int| i + 1 <= k < sections.len() && #[trigger] sections[k] == s;
                assert(sections[k] == s);
            }
        }
    }
}

/// The new name of a section that a packer leaves.
pub fn rename_target(name: &str) -> (r: Option<Vec<u8>>)
    ensures
        match r {
            Some(b) => new_name(name@) == Some(b@),
            None => new_name(name@) is None,
        },
{
    if same_text(name, ".themida") {
        let b: Vec<u8> = vec![0x2Eu8, 0x72, 0x73, 0x72, 0x76, 0x30, 0, 0];
        assert(b@ =~= seq![0x2Eu8, 0x72, 0x73, 0x72, 0x76, 0x30, 0, 0]);
        Some(b)
    } else if same_text(name, ".boot") {
        let b: Vec<u8> = vec![0x2Eu8, 0x72, 0x73, 0x72, 0x76, 0x31, 0, 0];
        assert(b@ =~= seq![0x2Eu8, 0x72, 0x73, 0x72, 0x76, 0x31, 0, 0]);
        Some(b)
    } else {
        None
    }
}

proof fn renaming_fails_for_good(d: Seq<u8>, p: PeV, m: int, n: int)
    requires
        0 <= m <= n,
        renamed(d, p, m) is Err,
    ensures
        renamed(d, p, n) == renamed(d, p, m),
    decreases n - m,
{
    if m < n {
        renaming_fails_for_good(d, p, m, n - 1);
    }
}

fn rename(d: &mut Vec<u8>, p: &Pe) -> (r: Result<Vec<String>, BadImage>)
    ensures
        ({
            let pv = p.deep_view();
            let n = pv.sections.len() as int;
            match r {
                Ok(v) => renamed(old(d)@, pv, n) == Ok::<Seq<u8>, Seq<char>>(final(d)@)
                    && v.deep_view() == old_names(pv, n),
                Err(e) => renamed(old(d)@, pv, n) == Err::<Seq<u8>, Seq<char>>(e.message@),
            }
        }),
{
    let ghost pv = p.deep_view();
    let ghost start = d@;
    let mut v: Vec<String> = Vec::new();
    let mut n: usize = 0;
    assert(v.deep_view() =~= Seq::<Seq<char>>::empty());
    while n < p.sections.len()
        invariant
            pv == p.deep_view(),
            n <= p.sections@.len(),
            renamed(start, pv, n as int) == Ok::<Seq<u8>, Seq<char>>(d@),
            v.deep_view() == old_names(pv, n as int),
            start == old(d)@,
        decreases p.sections@.len() - n,
    {
        let s = &p.sections[n];
        assert(pv.sections[n as int] == s.deep_view());
        if let Some(b) = rename_target(s.name.as_str()) {
            if !write_bytes(d, s.hdr, b.as_slice()) {
                proof {
                    renaming_fails_for_good(start, pv, n + 1, pv.sections.len() as int);
                }
                return Err(bad("section name past end"));
            }
            let ghost before = v.deep_view();
            let name = s.name.clone();
            let ghost nv = name@;
            v.push(name);
            assert(v.deep_view() =~= before.push(nv));
        }
        n += 1;
    }
    Ok(v)
}

struct Dead {
    hdrs: Vec<u64>,
    lo: u64,
    hi: u64,
}

fn find_dead(p: &Pe) -> (r: Dead)
    requires
        p.deep_view().wf(),
    ensures
        ({
            let s = dead(p.deep_view());
            &&& r.hdrs@ == Seq::new(s.len(), |i: int| s[i].hdr)
            &&& s.len() > 0 ==> r.lo == low(s, s.len() as int) && r.hi == high(s, s.len() as int)
            &&& r.lo <= u32::MAX && r.hi <= 0x1_FFFF_FFFF
        }),
{
    let ghost s = dead(p.deep_view());
    let mut hdrs: Vec<u64> = Vec::new();
    let mut lo: u64 = 0;
    let mut hi: u64 = 0;
    if let Some(a) = p.section(".themida") {
        hdrs.push(a.hdr);
        lo = a.ro as u64;
        hi = a.ro as u64 + a.rs as u64;
        proof {
            assert(s[0] == a.deep_view());
            assert(low(s, 1) == a.ro);
            assert(high(s, 0) == 0);
            assert(high(s, 1) == a.ro + a.rs);
        }
    }
    if let Some(b) = p.section(".boot") {
        let first: bool = hdrs.len() == 0;
        hdrs.push(b.hdr);
        if first || (b.ro as u64) < lo {
            lo = b.ro as u64;
        }
        let end: u64 = b.ro as u64 + b.rs as u64;
        if first || end > hi {
            hi = end;
        }
        proof {
            assert(s.last() == b.deep_view());
            assert(high(s, 0) == 0);
        }
    }
    assert(hdrs@ =~= Seq::new(s.len(), |i: int| s[i].hdr));
    Dead { hdrs, lo, hi }
}

fn is_dead(p: &Pe, gone: &Dead, x: &Sec) -> (r: bool)
    requires
        gone.hdrs@ == Seq::new(dead(p.deep_view()).len(), |i: int| dead(p.deep_view())[i].hdr),
    ensures
        r == among(dead(p.deep_view()), x.deep_view()),
{
    let ghost s = dead(p.deep_view());
    let mut i: usize = 0;
    while i < gone.hdrs.len()
        invariant
            s == dead(p.deep_view()),
            gone.hdrs@ == Seq::new(s.len(), |i: int| s[i].hdr),
            i <= gone.hdrs@.len(),
            forall|k: int| 0 <= k < i ==> (#[trigger] s[k]).hdr != x.hdr,
        decreases gone.hdrs@.len() - i,
    {
        if gone.hdrs[i] == x.hdr {
            assert(s[i as int].hdr == x.deep_view().hdr);
            return true;
        }
        assert(s[i as int].hdr != x.hdr);
        i += 1;
    }
    false
}

fn find_kept(p: &Pe, gone: &Dead) -> (r: Option<usize>)
    requires
        gone.hdrs@ == Seq::new(dead(p.deep_view()).len(), |i: int| dead(p.deep_view())[i].hdr),
    ensures
        match r {
            Some(i) => i < p.sections@.len() && kept_in(
                p.deep_view(),
                gone.lo as int,
                gone.hi as int,
                0,
            ) == Some(p.sections@[i as int].deep_view()),
            None => kept_in(p.deep_view(), gone.lo as int, gone.hi as int, 0) is None,
        },
{
    let ghost pv = p.deep_view();
    let mut i: usize = 0;
    while i < p.sections.len()
        invariant
            pv == p.deep_view(),
            gone.hdrs@ == Seq::new(dead(pv).len(), |i: int| dead(pv)[i].hdr),
            i <= p.sections@.len(),
            kept_in(pv, gone.lo as int, gone.hi as int, 0) == kept_in(
                pv,
                gone.lo as int,
                gone.hi as int,
                i as int,
            ),
        decreases p.sections@.len() - i,
    {
        let s = &p.sections[i];
        assert(pv.sections[i as int] == s.deep_view());
        if !is_dead(p, gone, s) && s.rs != 0 && !(s.ro as u64 + s.rs as u64 <= gone.lo || s.ro as u64
            >= gone.hi) {
            return Some(i);
        }
        i += 1;
    }
    None
}

proof fn moving_fails_for_good(d: Seq<u8>, p: PeV, hi: int, gap: int, m: int, n: int)
    requires
        0 <= m <= n,
        moved(d, p, hi, gap, m) is Err,
    ensures
        moved(d, p, hi, gap, n) == moved(d, p, hi, gap, m),
    decreases n - m,
{
    if m < n {
        moving_fails_for_good(d, p, hi, gap, m, n - 1);
    }
}

fn move_headers(d: &mut Vec<u8>, p: &Pe, gone: &Dead) -> (r: Result<(), BadImage>)
    requires
        p.deep_view().wf(),
        gone.hdrs@ == Seq::new(dead(p.deep_view()).len(), |i: int| dead(p.deep_view())[i].hdr),
        gone.lo < gone.hi,
    ensures
        ({
            let all = moved(
                old(d)@,
                p.deep_view(),
                gone.hi as int,
                gone.hi - gone.lo,
                p.sections@.len() as int,
            );
            match r {
                Ok(_) => all == Ok::<Seq<u8>, Seq<char>>(final(d)@),
                Err(e) => all == Err::<Seq<u8>, Seq<char>>(e.message@),
            }
        }),
{
    let ghost pv = p.deep_view();
    let ghost start = d@;
    let gap: u64 = gone.hi - gone.lo;
    let mut n: usize = 0;
    while n < p.sections.len()
        invariant
            pv == p.deep_view(),
            pv.wf(),
            gone.hdrs@ == Seq::new(dead(pv).len(), |i: int| dead(pv)[i].hdr),
            gone.lo < gone.hi,
            gap == gone.hi - gone.lo,
            n <= p.sections@.len(),
            moved(start, pv, gone.hi as int, gap as int, n as int) == Ok::<Seq<u8>, Seq<char>>(d@),
            start == old(d)@,
        decreases p.sections@.len() - n,
    {
        let s = &p.sections[n];
        assert(pv.sections[n as int] == s.deep_view());
        if is_dead(p, gone, s) {
            match store(d, s.hdr + 16, 0) {
                Ok(_) => {},
                Err(e) => {
                    proof {
                        moving_fails_for_good(
                            start,
                            pv,
                            gone.hi as int,
                            gap as int,
                            n + 1,
                            p.sections@.len() as int,
                        );
                    }
                    return Err(e);
                },
            }
            match store(d, s.hdr + 20, 0) {
                Ok(_) => {},
                Err(e) => {
                    proof {
                        moving_fails_for_good(
                            start,
                            pv,
                            gone.hi as int,
                            gap as int,
                            n + 1,
                            p.sections@.len() as int,
                        );
                    }
                    return Err(e);
                },
            }
        } else if s.rs != 0 && s.ro as u64 >= gone.hi {
            match store(d, s.hdr + 20, (s.ro as u64 - gap) as u32) {
                Ok(_) => {},
                Err(e) => {
                    proof {
                        moving_fails_for_good(
                            start,
                            pv,
                            gone.hi as int,
                            gap as int,
                            n + 1,
                            p.sections@.len() as int,
                        );
                    }
                    return Err(e);
                },
            }
        }
        n += 1;
    }
    Ok(())
}

fn cut(d: &Vec<u8>, lo: u64, hi: u64) -> (r: Vec<u8>)
    requires
        lo <= hi <= d@.len(),
    ensures
        r@ == d@.take(lo as int) + d@.skip(hi as int),
{
    let end: usize = d.len();
    let front = vstd::slice::slice_subrange(d.as_slice(), 0, lo as usize);
    let back = vstd::slice::slice_subrange(d.as_slice(), hi as usize, end);
    let mut r = slice_to_vec(front);
    let mut rest = slice_to_vec(back);
    r.append(&mut rest);
    assert(r@ =~= d@.take(lo as int) + d@.skip(hi as int));
    r
}

/// Remove the run of bytes of the dead sections, keep their headers so that no address moves, and shift
/// the file offsets of the sections behind it down.
fn strip_dead(d: &mut Vec<u8>, p: &Pe) -> (r: Result<u32, BadImage>)
    requires
        p.deep_view().wf(),
    ensures
        match r {
            Ok(gap) => stripped(old(d)@, p.deep_view()) == Ok::<(Seq<u8>, u32), Seq<char>>(
                (final(d)@, gap),
            ),
            Err(e) => stripped(old(d)@, p.deep_view()) == Err::<(Seq<u8>, u32), Seq<char>>(
                e.message@,
            ) && final(d)@ == old(d)@,
        },
{
    let gone = find_dead(p);
    if gone.hdrs.len() == 0 || gone.lo >= gone.hi {
        return Ok(0);
    }
    if gone.hi > d.len() as u64 {
        return Err(bad("dead section raw range past end of image"));
    }
    if let Some(i) = find_kept(p, &gone) {
        let mut m = starting("strip overlap: kept section ");
        m.append(p.sections[i].name.as_str());
        m.append(" intersects [0x");
        push_hex_lower(&mut m, gone.lo);
        m.append(",0x");
        push_hex_lower(&mut m, gone.hi);
        m.append(")");
        return Err(BadImage { message: m });
    }
    let mut n = cut(d, gone.lo, gone.hi);
    match move_headers(&mut n, p, &gone) {
        Ok(_) => {},
        Err(e) => {
            return Err(e);
        },
    }
    let gap: u64 = gone.hi - gone.lo;
    if gap > u32::MAX as u64 {
        return Err(bad("stripped run overflows"));
    }
    *d = n;
    Ok(gap as u32)
}

struct Header {
    quiet: Vec<String>,
    renamed: Vec<String>,
}

fn edit_headers(d: &mut Vec<u8>, p: &Pe, opts: &CleanOptions) -> (r: Result<Header, BadImage>)
    requires
        p.deep_view().wf(),
    ensures
        ({
            let pv = p.deep_view();
            match r {
                Ok(h) => headers_edited(old(d)@, pv, *opts) == Ok::<Seq<u8>, Seq<char>>(final(d)@)
                    && h.quiet.deep_view() == quiet_names(pv, residue().len() as int)
                    && h.renamed.deep_view() == old_names(pv, pv.sections.len() as int),
                Err(e) => headers_edited(old(d)@, pv, *opts) == Err::<Seq<u8>, Seq<char>>(
                    e.message@,
                ),
            }
        }),
{
    assert(residue().len() == 3);
    let quiet = match quiet(d, p) {
        Ok(v) => v,
        Err(e) => {
            return Err(e);
        },
    };
    if opts.zero_timestamp {
        match store(d, p.coff + 4, 0) {
            Ok(_) => {},
            Err(e) => {
                return Err(e);
            },
        }
    }
    match rename(d, p) {
        Ok(renamed) => Ok(Header { quiet, renamed }),
        Err(e) => Err(e),
    }
}

fn is_as_meant(p: &Pe, gone: &Dead, s: &Sec, t: &Sec) -> (r: bool)
    requires
        gone.hdrs@ == Seq::new(dead(p.deep_view()).len(), |i: int| dead(p.deep_view())[i].hdr),
        dead(p.deep_view()).len() > 0 ==> gone.lo == dead_start(p.deep_view()) && gone.hi == dead_end(
            p.deep_view(),
        ),
        gone.lo <= u32::MAX && gone.hi <= 0x1_FFFF_FFFF,
    ensures
        r == (t.deep_view() == cleaned_section(p.deep_view(), s.deep_view())),
{
    let ghost want = cleaned_section(p.deep_view(), s.deep_view());
    let mut rs: u32 = s.rs;
    let mut ro: u32 = s.ro;
    if gone.hdrs.len() > 0 && gone.lo < gone.hi {
        if is_dead(p, gone, s) {
            rs = 0;
            ro = 0;
        } else if s.rs != 0 && s.ro as u64 >= gone.hi {
            ro = (s.ro as u64 - (gone.hi - gone.lo)) as u32;
        }
    }
    assert(rs == want.rs && ro == want.ro);
    let named: bool = match rename_target(s.name.as_str()) {
        Some(b) => {
            let name = section_name(b.as_slice());
            same_text(t.name.as_str(), name.as_str())
        },
        None => same_text(t.name.as_str(), s.name.as_str()),
    };
    assert(named == (t.name@ == want.name));
    let same: bool = named && t.hdr == s.hdr && t.vs == s.vs && t.va == s.va && t.rs == rs && t.ro
        == ro;
    assert(same ==> t.deep_view() =~= want);
    same
}

fn has_headers(p: &Pe, q: &Pe) -> (r: bool)
    requires
        p.deep_view().wf(),
    ensures
        r == (q.deep_view() == cleaned_headers(p.deep_view())),
{
    let ghost pv = p.deep_view();
    let ghost qv = q.deep_view();
    let ghost want = cleaned_headers(pv);
    if q.coff != p.coff || q.is64 != p.is64 || q.dd != p.dd || q.image_base != p.image_base || q.aep
        != p.aep || q.sections.len() != p.sections.len() {
        assert(qv.sections.len() == q.sections@.len());
        assert(want.sections.len() == p.sections@.len());
        return false;
    }
    let gone = find_dead(p);
    let mut i: usize = 0;
    while i < p.sections.len()
        invariant
            pv == p.deep_view(),
            qv == q.deep_view(),
            want == cleaned_headers(pv),
            q.sections@.len() == p.sections@.len(),
            gone.hdrs@ == Seq::new(dead(pv).len(), |i: int| dead(pv)[i].hdr),
            dead(pv).len() > 0 ==> gone.lo == dead_start(pv) && gone.hi == dead_end(pv),
            gone.lo <= u32::MAX && gone.hi <= 0x1_FFFF_FFFF,
            i <= p.sections@.len(),
            forall|k: int| 0 <= k < i ==> #[trigger] qv.sections[k] == want.sections[k],
        decreases p.sections@.len() - i,
    {
        assert(qv.sections[i as int] == q.sections@[i as int].deep_view());
        assert(pv.sections[i as int] == p.sections@[i as int].deep_view());
        assert(want.sections[i as int] == cleaned_section(pv, pv.sections[i as int]));
        if !is_as_meant(p, &gone, &p.sections[i], &q.sections[i]) {
            return false;
        }
        i += 1;
    }
    assert(qv.sections =~= want.sections);
    assert(qv =~= want);
    true
}

fn has_code(raw: &[u8], p: &Pe, q: &Pe, out: &Vec<u8>) -> (r: bool)
    requires
        p.deep_view().wf(),
        q.deep_view() == cleaned_headers(p.deep_view()),
    ensures
        r == code_kept(raw@, p.deep_view(), out@),
{
    let ghost pv = p.deep_view();
    let i: usize = match p.place_of(".text") {
        Some(i) => i,
        None => {
            return true;
        },
    };
    let s = &p.sections[i];
    assert(pv.sections[i as int] == s.deep_view());
    assert(q.deep_view().sections.len() == q.sections@.len());
    assert(cleaned_headers(pv).sections.len() == p.sections@.len());
    let to: u64 = q.sections[i].ro as u64;
    assert(to == cleaned_section(pv, s.deep_view()).ro) by {
        assert(pv.sections[i as int] == s.deep_view());
        assert(q.deep_view().sections[i as int] == q.sections@[i as int].deep_view());
        assert(q.deep_view().sections[i as int] == cleaned_headers(pv).sections[i as int]);
    }
    let front: u64 = p.headers_end();
    let end: u64 = s.ro as u64 + s.rs as u64;
    let mut k: u64 = if front > s.ro as u64 {
        front
    } else {
        s.ro as u64
    };
    while k < end && k < raw.len() as u64
        invariant
            pv == p.deep_view(),
            pv.named(".text"@) == Some(s.deep_view()),
            to == cleaned_section(pv, s.deep_view()).ro,
            front == pv.front(),
            end == s.ro + s.rs,
            s.ro <= k,
            front <= k,
            forall|j: int|
                s.ro <= j < s.ro + s.rs && front <= j < raw@.len() && j < k ==> #[trigger] byte_kept(
                    raw@,
                    pv,
                    s.deep_view(),
                    out@,
                    j,
                ),
        decreases end - k,
    {
        let at: u64 = k - s.ro as u64 + to;
        if at >= out.len() as u64 || out[at as usize] != raw[k as usize] {
            assert(!byte_kept(raw@, pv, s.deep_view(), out@, k as int));
            return false;
        }
        k += 1;
    }
    true
}

fn is_intact(raw: &[u8], p: &Pe, out: &Vec<u8>) -> (r: bool)
    requires
        p.deep_view().wf(),
    ensures
        r == intact(raw@, p.deep_view(), out@),
{
    match Pe::parse(out.as_slice()) {
        Err(_) => false,
        Ok(q) => has_headers(p, &q) && has_code(raw, p, &q, out),
    }
}

/// Clean a dump: repoint the exception directory, clear the certificate directory, rebuild the import
/// address directory, take the residue of the packer out of the executable code, rename it, and remove
/// its bytes. Code bytes are never modified and no address moves: a file is refused where an edit lands on
/// the code, or on a header that says something else.
pub fn clean_bytes(raw: &[u8], opts: &CleanOptions) -> (r: Result<Cleaned, BadImage>)
    ensures
        match r {
            Ok(c) => cleaned(raw@, *opts) == Ok::<(Seq<u8>, CleanSummaryV), Seq<char>>(
                (c.data@, c.summary.deep_view()),
            ),
            Err(e) => cleaned(raw@, *opts) == Err::<(Seq<u8>, CleanSummaryV), Seq<char>>(e.message@),
        },
{
    let mut data = slice_to_vec(raw);
    let p = match Pe::parse(raw) {
        Ok(p) => p,
        Err(e) => {
            return Err(e);
        },
    };
    let exception_repointed: bool = match mend_directories(&mut data, &p) {
        Ok(b) => b,
        Err(e) => {
            return Err(e);
        },
    };
    let iat_dir = match set_iat(&mut data, &p) {
        Ok(x) => x,
        Err(e) => {
            return Err(e);
        },
    };
    let unbound_thunks: u32 = if opts.unbind_iat {
        match unbind_iat(&mut data, &p) {
            Ok(n) => n,
            Err(e) => {
                return Err(e);
            },
        }
    } else {
        0
    };
    let header = match edit_headers(&mut data, &p, opts) {
        Ok(h) => h,
        Err(e) => {
            return Err(e);
        },
    };
    let stripped_bytes: u32 = match strip_dead(&mut data, &p) {
        Ok(n) => n,
        Err(e) => {
            return Err(e);
        },
    };
    if !is_intact(raw, &p, &data) {
        return Err(bad("the edits overlap the headers or the code"));
    }
    let summary = CleanSummary {
        exception_repointed,
        cert_cleared: true,
        iat_dir,
        unbound_thunks,
        deexec: header.quiet,
        renamed: header.renamed,
        timestamp_zeroed: opts.zero_timestamp,
        stripped_bytes,
        size_before: raw.len() as u64,
        size_after: data.len() as u64,
    };
    Ok(Cleaned { data, summary })
}

}
