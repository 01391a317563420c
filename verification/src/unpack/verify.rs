//! Completeness gates for a cleaned dump. The hard gates are the imports, `.pdata` and, where there is a
//! reference, the identity of `.text`. The shape of the entry point and the virtualization sample are
//! advisory and never block on their own.

use crate::le;
use crate::le::{matches_at, tail_of};
use crate::sigmaker::scoring;
use crate::sigmaker::scoring::say;
use crate::sigmaker::types;
use crate::sigmaker::types::{push_two_decimals, starting};
use crate::text;
use crate::text::{push_dec, push_hex_lower, run_of_hex, same_text};
use crate::unpack::imports;
use crate::unpack::imports::{count_thunks, list_descriptors, Descriptor};
use crate::unpack::pe;
use crate::unpack::pe::{BadImage, Pe, PeV, SecV};
use crate::unpack::sha256;
use crate::x86;
use crate::x86::Flow;
use vstd::prelude::*;
use vstd::slice::slice_subrange;
use vstd::string::*;

verus! {

/// How many function starts are sampled.
pub const VIRT_SAMPLE_CAP: usize = 2000;

/// A share of a whole, read in percent; nothing of nothing is zero percent.
#[derive(Clone, Copy, Debug, PartialEq, Eq, Structural)]
pub struct Percent {
    pub part: u32,
    pub whole: u32,
}

impl Percent {
    /// More than `n` percent.
    pub open spec fn above(self, n: int) -> bool {
        self.whole > 0 && 100 * self.part > n * self.whole
    }

    /// Whether the share is more than `n` percent.
    pub fn exceeds(self, n: u32) -> (r: bool)
        ensures
            r == self.above(n as int),
    {
        proof {
            assert(n * self.whole <= 0xFFFF_FFFF * 0xFFFF_FFFF) by (nonlinear_arith)
                requires
                    0 <= n <= 0xFFFF_FFFF,
                    0 <= self.whole <= 0xFFFF_FFFF,
            ;
        }
        self.whole > 0 && 100 * (self.part as u64) > n as u64 * self.whole as u64
    }
}

/// What the gates found.
#[derive(Clone, Debug)]
pub struct VerifyReport {
    pub oep_rva: u32,
    pub oep_bytes: String,
    pub oep_is_msvc: bool,
    pub oep_disasm: Vec<String>,
    pub import_dlls: u32,
    pub import_functions: u32,
    pub imports_ok: bool,
    pub pdata_entries: u32,
    pub pdata_valid_pct: Percent,
    pub pdata_ascending_pct: Percent,
    pub pdata_ok: bool,
    pub virtualization_pct: Percent,
    pub virtualization_sampled: u32,
    pub text_identity: Option<bool>,
    pub text_ref: Option<String>,
    pub text_sha256: Option<String>,
    pub output_size: u64,
    pub gates_pass: bool,
    pub warnings: Vec<String>,
}

/// A [`VerifyReport`] by its content.
#[verifier::ext_equal]
pub struct VerifyReportV {
    pub oep_rva: u32,
    pub oep_bytes: Seq<char>,
    pub oep_is_msvc: bool,
    pub oep_disasm: Seq<Seq<char>>,
    pub import_dlls: u32,
    pub import_functions: u32,
    pub imports_ok: bool,
    pub pdata_entries: u32,
    pub pdata_valid_pct: Percent,
    pub pdata_ascending_pct: Percent,
    pub pdata_ok: bool,
    pub virtualization_pct: Percent,
    pub virtualization_sampled: u32,
    pub text_identity: Option<bool>,
    pub text_ref: Option<Seq<char>>,
    pub text_sha256: Option<Seq<char>>,
    pub output_size: u64,
    pub gates_pass: bool,
    pub warnings: Seq<Seq<char>>,
}

impl DeepView for VerifyReport {
    type V = VerifyReportV;

    open spec fn deep_view(&self) -> VerifyReportV {
        VerifyReportV {
            oep_rva: self.oep_rva,
            oep_bytes: self.oep_bytes@,
            oep_is_msvc: self.oep_is_msvc,
            oep_disasm: self.oep_disasm.deep_view(),
            import_dlls: self.import_dlls,
            import_functions: self.import_functions,
            imports_ok: self.imports_ok,
            pdata_entries: self.pdata_entries,
            pdata_valid_pct: self.pdata_valid_pct,
            pdata_ascending_pct: self.pdata_ascending_pct,
            pdata_ok: self.pdata_ok,
            virtualization_pct: self.virtualization_pct,
            virtualization_sampled: self.virtualization_sampled,
            text_identity: self.text_identity,
            text_ref: self.text_ref.deep_view(),
            text_sha256: self.text_sha256.deep_view(),
            output_size: self.output_size,
            gates_pass: self.gates_pass,
            warnings: self.warnings.deep_view(),
        }
    }
}

/// The bytes of a section in the file; `None` where there is no such section or the file ends before it
/// does.
pub open spec fn raw_of(d: Seq<u8>, p: PeV, name: Seq<char>) -> Option<Seq<u8>> {
    match p.named(name) {
        None => None,
        Some(s) => if s.ro + s.rs <= d.len() {
            Some(d.subrange(s.ro as int, s.ro + s.rs))
        } else {
            None
        },
    }
}

/// The bytes of a section in the file.
pub fn section_raw<'a>(d: &'a [u8], p: &Pe, name: &str) -> (r: Option<&'a [u8]>)
    ensures
        match r {
            Some(b) => raw_of(d@, p.deep_view(), name@) == Some(b@) && b@.len() <= u32::MAX,
            None => raw_of(d@, p.deep_view(), name@) is None,
        },
{
    match p.section(name) {
        None => None,
        Some(s) => {
            let end: u64 = s.ro as u64 + s.rs as u64;
            if end > d.len() as u64 {
                return None;
            }
            Some(slice_subrange(d, s.ro as usize, end as usize))
        },
    }
}

/// The functions that the first `n` descriptors import.
pub open spec fn functions_of(d: Seq<u8>, p: PeV, xs: Seq<Descriptor>, n: int) -> int
    decreases n,
{
    if n <= 0 {
        0
    } else {
        functions_of(d, p, xs, n - 1) + imports::imported(d, p, xs[n - 1])
    }
}

/// How many libraries and how many functions are imported.
fn count_imports(d: &[u8], p: &Pe) -> (r: (u32, u32))
    requires
        p.deep_view().wf(),
    ensures
        ({
            let xs = imports::descriptors(d@, p.deep_view());
            r.0 == xs.len() && r.1 == functions_of(d@, p.deep_view(), xs, xs.len() as int)
        }),
{
    let ghost pv = p.deep_view();
    let xs = list_descriptors(d, p);
    let mut fns: u32 = 0;
    let mut n: usize = 0;
    while n < xs.len()
        invariant
            pv == p.deep_view(),
            xs@.len() <= imports::MAX_DESCRIPTORS,
            n <= xs@.len(),
            fns == functions_of(d@, pv, xs@, n as int),
            fns <= n * imports::MAX_THUNKS,
        decreases xs@.len() - n,
    {
        let more: u64 = count_thunks(d, p, xs[n]);
        fns += more as u32;
        n += 1;
    }
    (xs.len() as u32, fns)
}

/// Where function number `k` of the table starts.
pub open spec fn begin_of(raw: Seq<u8>, k: int) -> u32 {
    pe::or_zero(pe::at32(raw, 12 * k))
}

/// Where function number `k` of the table ends.
pub open spec fn end_of(raw: Seq<u8>, k: int) -> u32 {
    pe::or_zero(pe::at32(raw, 12 * k + 4))
}

/// How many of the first `n` functions start in the section and end behind their start.
pub open spec fn valid_count(raw: Seq<u8>, code: SecV, n: int) -> int
    decreases n,
{
    if n <= 0 {
        0
    } else {
        let begin = begin_of(raw, n - 1);
        valid_count(raw, code, n - 1) + if code.va <= begin < code.va + code.vs && end_of(raw, n - 1)
            > begin {
            1int
        } else {
            0int
        }
    }
}

/// How many of the first `n` functions start behind the one before.
pub open spec fn rising_count(raw: Seq<u8>, n: int) -> int
    decreases n,
{
    if n <= 1 {
        0
    } else {
        rising_count(raw, n - 1) + if begin_of(raw, n - 1) > begin_of(raw, n - 2) {
            1int
        } else {
            0int
        }
    }
}

/// What the function table shows: how many entries, how many valid, how many ascending.
pub open spec fn table_of(d: Seq<u8>, p: PeV) -> (u32, Percent, Percent) {
    let none = Percent { part: 0, whole: 0 };
    match (p.named(".text"@), raw_of(d, p, ".pdata"@)) {
        (Some(code), Some(raw)) => {
            let n = raw.len() as int / 12;
            (
                n as u32,
                Percent { part: valid_count(raw, code, n) as u32, whole: n as u32 },
                if n > 1 {
                    Percent { part: rising_count(raw, n) as u32, whole: (n - 1) as u32 }
                } else {
                    none
                },
            )
        },
        _ => (0, none, none),
    }
}

fn check_pdata(d: &[u8], p: &Pe) -> (r: (u32, Percent, Percent))
    ensures
        r == table_of(d@, p.deep_view()),
{
    let none = Percent { part: 0, whole: 0 };
    let code = match p.section(".text") {
        Some(s) => s,
        None => {
            return (0, none, none);
        },
    };
    let raw = match section_raw(d, p, ".pdata") {
        Some(b) => b,
        None => {
            return (0, none, none);
        },
    };
    let n: u64 = raw.len() as u64 / 12;
    let mut valid: u32 = 0;
    let mut rising: u32 = 0;
    let mut prev: u32 = 0;
    let mut k: u64 = 0;
    while k < n
        invariant
            n <= 0xFFFF_FFFF,
            k <= n,
            valid <= k,
            rising <= k,
            valid == valid_count(raw@, code.deep_view(), k as int),
            rising == rising_count(raw@, k as int),
            k > 0 ==> prev == begin_of(raw@, k - 1),
        decreases n - k,
    {
        let begin: u32 = pe::read32_or_zero(raw, k * 12);
        let end: u32 = pe::read32_or_zero(raw, k * 12 + 4);
        if begin >= code.va && (begin as u64) < code.va as u64 + code.vs as u64 && end > begin {
            valid += 1;
        }
        if k > 0 && begin > prev {
            rising += 1;
        }
        prev = begin;
        k += 1;
    }
    let ascending = if n > 1 {
        Percent { part: rising, whole: (n - 1) as u32 }
    } else {
        none
    };
    (n as u32, Percent { part: valid, whole: n as u32 }, ascending)
}

/// The names that the residue of a packer goes by, before and after cleaning.
pub open spec fn is_residue(name: Seq<char>) -> bool {
    name == ".themida"@ || name == ".boot"@ || name == ".SCY"@ || name == ".rsrv0"@ || name
        == ".rsrv1"@
}

/// The addresses that a section takes.
pub open spec fn span_of(s: SecV) -> (u32, u32) {
    let size = if s.vs > s.rs {
        s.vs
    } else {
        s.rs
    };
    (
        s.va,
        if s.va + size > u32::MAX {
            u32::MAX
        } else {
            (s.va + size) as u32
        },
    )
}

/// The addresses that the first `n` sections take as residue.
pub open spec fn residue_of(p: PeV, n: int) -> Seq<(u32, u32)>
    decreases n,
{
    if n <= 0 {
        Seq::empty()
    } else if is_residue(p.sections[n - 1].name) {
        residue_of(p, n - 1).push(span_of(p.sections[n - 1]))
    } else {
        residue_of(p, n - 1)
    }
}

/// Whether an address is one of the residue's.
pub open spec fn in_residue(spans: Seq<(u32, u32)>, rva: u32) -> bool {
    exists|i: int| 0 <= i < spans.len() && (#[trigger] spans[i]).0 <= rva < spans[i].1
}

/// The decoding mode of a file.
pub open spec fn mode_of(p: PeV) -> u32 {
    if p.is64 {
        64
    } else {
        32
    }
}

/// Whether one of the next `left` instructions of `b`, which sits at `ip`, calls or jumps into the
/// residue.
pub open spec fn strays(
    p: PeV,
    spans: Seq<(u32, u32)>,
    b: Seq<u8>,
    ip: u64,
    pos: int,
    left: nat,
) -> bool
    decreases left,
{
    if left == 0 || !(0 <= pos < b.len()) {
        false
    } else {
        let rest = b.skip(pos);
        let at = ip.wrapping_add(pos as u64);
        let h = x86::head_of(mode_of(p), rest, at);
        let f = x86::flow_of(mode_of(p), rest, at);
        if h.invalid {
            false
        } else if (f == Flow::Call || f == Flow::UnconditionalBranch) && h.target >= p.image_base
            && in_residue(spans, ((h.target - p.image_base) % 0x1_0000_0000) as u32) {
            true
        } else {
            strays(p, spans, b, ip, pos + h.len, (left - 1) as nat)
        }
    }
}

/// At most `len` bytes of the file at an address of the image; `None` where the file holds none there.
pub open spec fn bytes_at(d: Seq<u8>, p: PeV, rva: u32, len: int) -> Option<Seq<u8>> {
    match p.offset(rva) {
        None => None,
        Some(o) => if o <= d.len() {
            Some(
                d.subrange(
                    o,
                    if o + len < d.len() {
                        o + len
                    } else {
                        d.len() as int
                    },
                ),
            )
        } else {
            None
        },
    }
}

/// How many function starts from number `k` on are sampled, every `step`th, and how many of them lead
/// into the residue.
pub open spec fn sampled_from(
    d: Seq<u8>,
    p: PeV,
    raw: Seq<u8>,
    spans: Seq<(u32, u32)>,
    step: int,
    k: int,
) -> (int, int)
    decreases (if k < raw.len() as int / 12 { raw.len() as int / 12 - k } else { 0 }),
{
    if !(0 <= k < raw.len() as int / 12) || step <= 0 {
        (0, 0)
    } else {
        let (n, m) = sampled_from(d, p, raw, spans, step, k + step);
        let begin = begin_of(raw, k);
        match bytes_at(d, p, begin, 16) {
            Some(b) => (
                n + 1,
                if strays(p, spans, b, p.image_base.wrapping_add(begin as u64), 0, 2) {
                    m + 1
                } else {
                    m
                },
            ),
            None => (n, m),
        }
    }
}

/// How far apart the samples are.
pub open spec fn stride(n: int) -> int {
    if n <= VIRT_SAMPLE_CAP {
        1
    } else {
        (n + VIRT_SAMPLE_CAP - 1) / VIRT_SAMPLE_CAP as int
    }
}

/// The function starts sampled and those that lead into the residue.
pub open spec fn sample_of(d: Seq<u8>, p: PeV) -> (int, int) {
    let spans = residue_of(p, p.sections.len() as int);
    match raw_of(d, p, ".pdata"@) {
        Some(raw) => if spans.len() == 0 {
            (0, 0)
        } else {
            sampled_from(d, p, raw, spans, stride(raw.len() as int / 12), 0)
        },
        None => (0, 0),
    }
}

fn list_residue(p: &Pe) -> (v: Vec<(u32, u32)>)
    ensures
        v@ == residue_of(p.deep_view(), p.sections@.len() as int),
{
    let ghost pv = p.deep_view();
    let mut v: Vec<(u32, u32)> = Vec::new();
    let mut n: usize = 0;
    while n < p.sections.len()
        invariant
            pv == p.deep_view(),
            n <= p.sections@.len(),
            v@ == residue_of(pv, n as int),
        decreases p.sections@.len() - n,
    {
        let s = &p.sections[n];
        assert(pv.sections[n as int] == s.deep_view());
        let name = s.name.as_str();
        if same_text(name, ".themida") || same_text(name, ".boot") || same_text(name, ".SCY")
            || same_text(name, ".rsrv0") || same_text(name, ".rsrv1") {
            let size: u32 = if s.vs > s.rs {
                s.vs
            } else {
                s.rs
            };
            v.push((s.va, s.va.saturating_add(size)));
        }
        n += 1;
    }
    v
}

fn is_in_residue(spans: &Vec<(u32, u32)>, rva: u32) -> (r: bool)
    ensures
        r == in_residue(spans@, rva),
{
    let mut i: usize = 0;
    while i < spans.len()
        invariant
            i <= spans@.len(),
            forall|k: int| 0 <= k < i ==> !((#[trigger] spans@[k]).0 <= rva < spans@[k].1),
        decreases spans@.len() - i,
    {
        if rva >= spans[i].0 && rva < spans[i].1 {
            assert(spans@[i as int].0 <= rva < spans@[i as int].1);
            return true;
        }
        i += 1;
    }
    false
}

fn mode(p: &Pe) -> (bits: u32)
    ensures
        bits == mode_of(p.deep_view()),
        x86::is_mode(bits),
{
    if p.is64 {
        64
    } else {
        32
    }
}

fn jumps_into_dead(p: &Pe, spans: &Vec<(u32, u32)>, b: &[u8], ip: u64) -> (r: bool)
    ensures
        r == strays(p.deep_view(), spans@, b@, ip, 0, 2),
{
    let ghost pv = p.deep_view();
    let bits: u32 = mode(p);
    let mut pos: usize = 0;
    let mut left: usize = 2;
    while left > 0 && pos < b.len()
        invariant
            pv == p.deep_view(),
            bits == mode_of(pv),
            x86::is_mode(bits),
            pos <= b@.len(),
            strays(pv, spans@, b@, ip, 0, 2) == strays(
                pv,
                spans@,
                b@,
                ip,
                pos as int,
                left as nat,
            ),
        decreases left,
    {
        let rest = tail_of(b, pos);
        let at: u64 = ip.wrapping_add(pos as u64);
        let h = x86::head(bits, rest, at);
        if h.invalid {
            return false;
        }
        let f = x86::flow(bits, rest, at);
        if (f == Flow::Call || f == Flow::UnconditionalBranch) && h.target >= p.image_base {
            let rva: u32 = ((h.target - p.image_base) % 0x1_0000_0000) as u32;
            if is_in_residue(spans, rva) {
                return true;
            }
        }
        pos += h.len;
        left -= 1;
    }
    false
}

fn read_bytes<'a>(d: &'a [u8], p: &Pe, rva: u32, len: u64) -> (r: Option<&'a [u8]>)
    requires
        len <= 64,
    ensures
        match r {
            Some(b) => bytes_at(d@, p.deep_view(), rva, len as int) == Some(b@) && b@.len() <= len,
            None => bytes_at(d@, p.deep_view(), rva, len as int) is None,
        },
{
    match p.rva2off(rva) {
        None => None,
        Some(o) => {
            let all: u64 = d.len() as u64;
            if o > all {
                return None;
            }
            let end: u64 = if len < all - o {
                o + len
            } else {
                all
            };
            Some(slice_subrange(d, o as usize, end as usize))
        },
    }
}

pub(crate) proof fn sample_bounds(
    d: Seq<u8>,
    p: PeV,
    raw: Seq<u8>,
    spans: Seq<(u32, u32)>,
    step: int,
    k: int,
)
    requires
        step >= 1,
    ensures
        ({
            let (n, m) = sampled_from(d, p, raw, spans, step, k);
            0 <= m <= n && (0 <= k <= raw.len() as int / 12 ==> n <= raw.len() as int / 12 - k)
                && (k > raw.len() as int / 12 ==> n == 0)
        }),
    decreases (if k < raw.len() as int / 12 { raw.len() as int / 12 - k } else { 0 }),
{
    if 0 <= k < raw.len() as int / 12 {
        sample_bounds(d, p, raw, spans, step, k + step);
    }
}

/// Sample function starts from `.pdata` and flag any whose first two instructions jump or call directly
/// into the residue of the packer. A near-zero rate means that the bulk of the code is real; a high rate
/// means a build protected by a virtual machine.
fn virtualization_sample(d: &[u8], p: &Pe) -> (r: (u32, u32))
    ensures
        ({
            let (n, m) = sample_of(d@, p.deep_view());
            r.0 == n && r.1 == m && m <= n
        }),
{
    let ghost pv = p.deep_view();
    let raw = match section_raw(d, p, ".pdata") {
        Some(b) => b,
        None => {
            return (0, 0);
        },
    };
    let spans = list_residue(p);
    if spans.len() == 0 {
        return (0, 0);
    }
    let n: u64 = raw.len() as u64 / 12;
    let step: u64 = if n <= VIRT_SAMPLE_CAP as u64 {
        1
    } else {
        (n + VIRT_SAMPLE_CAP as u64 - 1) / VIRT_SAMPLE_CAP as u64
    };
    let ghost whole = sampled_from(d@, pv, raw@, spans@, step as int, 0);
    proof {
        sample_bounds(d@, pv, raw@, spans@, step as int, 0);
    }
    let mut sampled: u32 = 0;
    let mut flagged: u32 = 0;
    let mut k: u64 = 0;
    while k < n
        invariant
            pv == p.deep_view(),
            n == raw@.len() as int / 12,
            n <= 0xFFFF_FFFF,
            1 <= step <= 0xFFFF_FFFF,
            k <= 0x2_0000_0000,
            whole.0 <= n,
            whole.1 <= n,
            ({
                let (s, f) = sampled_from(d@, pv, raw@, spans@, step as int, k as int);
                whole == (sampled + s, flagged + f)
            }),
        decreases (if k < n { n - k } else { 0 }),
    {
        proof {
            sample_bounds(d@, pv, raw@, spans@, step as int, k as int);
            sample_bounds(d@, pv, raw@, spans@, step as int, k + step);
        }
        let begin: u32 = pe::read32_or_zero(raw, k * 12);
        if let Some(b) = read_bytes(d, p, begin, 16) {
            sampled += 1;
            if jumps_into_dead(p, &spans, b, p.image_base.wrapping_add(begin as u64)) {
                flagged += 1;
            }
        }
        k += step;
    }
    (sampled, flagged)
}

/// The text of the next `left` instructions of `b`, which sits at `ip`, up to the first that does not
/// decode.
pub open spec fn texts_from(p: PeV, b: Seq<u8>, ip: u64, pos: int, left: nat) -> Seq<Seq<char>>
    decreases left,
{
    if left == 0 || !(0 <= pos < b.len()) {
        Seq::empty()
    } else {
        let rest = b.skip(pos);
        let at = ip.wrapping_add(pos as u64);
        let h = x86::head_of(mode_of(p), rest, at);
        if h.invalid {
            Seq::empty()
        } else {
            seq!["0x"@ + text::hex_lower(at as nat) + ": "@ + x86::nasm_of(mode_of(p), rest, at)]
                + texts_from(p, b, ip, pos + h.len, (left - 1) as nat)
        }
    }
}

fn disasm(p: &Pe, b: &[u8], ip: u64, max: usize) -> (out: Vec<String>)
    ensures
        out.deep_view() == texts_from(p.deep_view(), b@, ip, 0, max as nat),
{
    let ghost pv = p.deep_view();
    let ghost all = texts_from(pv, b@, ip, 0, max as nat);
    let bits: u32 = mode(p);
    let mut out: Vec<String> = Vec::new();
    let mut pos: usize = 0;
    let mut left: usize = max;
    assert(out.deep_view() =~= Seq::<Seq<char>>::empty());
    assert(out.deep_view() + all =~= all);
    while left > 0 && pos < b.len()
        invariant
            pv == p.deep_view(),
            bits == mode_of(pv),
            x86::is_mode(bits),
            pos <= b@.len(),
            all == texts_from(pv, b@, ip, 0, max as nat),
            all == out.deep_view() + texts_from(pv, b@, ip, pos as int, left as nat),
        decreases left,
    {
        let rest = tail_of(b, pos);
        let at: u64 = ip.wrapping_add(pos as u64);
        let h = x86::head(bits, rest, at);
        if h.invalid {
            assert(out.deep_view() =~= all);
            return out;
        }
        let mut line = starting("0x");
        push_hex_lower(&mut line, at);
        line.append(": ");
        let body = x86::nasm(bits, rest, at);
        line.append(body.as_str());
        let ghost before = out.deep_view();
        let ghost lv = line@;
        let ghost more = texts_from(pv, b@, ip, pos + h.len, (left - 1) as nat);
        out.push(line);
        proof {
            assert(out.deep_view() =~= before.push(lv));
            assert(out.deep_view() + more =~= before + (seq![lv] + more));
        }
        pos += h.len;
        left -= 1;
    }
    assert(out.deep_view() =~= all);
    out
}

/// How a function that the compiler made for the entry point starts.
pub open spec fn msvc_prologue() -> Seq<u8> {
    seq![0x48u8, 0x89, 0x5C, 0x24, 0x20]
}

/// How many bytes of the entry point are looked at.
pub const OEP_BYTES: u64 = 48;

/// How many bytes of the entry point are shown.
pub const OEP_SHOWN: usize = 8;

/// How many instructions of the entry point are shown.
pub const OEP_INSTRS: usize = 6;

/// The code at the entry point; empty where the file holds none.
pub open spec fn entry_code(d: Seq<u8>, p: PeV) -> Seq<u8> {
    match bytes_at(d, p, p.aep, OEP_BYTES as int) {
        Some(b) => b,
        None => Seq::empty(),
    }
}

/// The bytes shown of the entry point.
pub open spec fn shown(b: Seq<u8>) -> Seq<u8> {
    if b.len() > OEP_SHOWN {
        b.take(OEP_SHOWN as int)
    } else {
        b
    }
}

/// Whether the code is that of the reference; `None` where there is nothing to compare.
pub open spec fn identity_with(
    d: Seq<u8>,
    p: PeV,
    reference: Option<(Seq<u8>, Seq<char>)>,
) -> Option<bool> {
    match reference {
        None => None,
        Some((b, label)) => match pe::headers(b) {
            Err(_) => None,
            Ok(q) => match (raw_of(d, p, ".text"@), raw_of(b, q, ".text"@)) {
                (Some(x), Some(y)) => Some(x == y),
                _ => None,
            },
        },
    }
}

/// What is said of the reference, the entry point and the sample.
pub open spec fn warnings_of(
    d: Seq<u8>,
    p: PeV,
    reference: Option<(Seq<u8>, Seq<char>)>,
) -> Seq<Seq<char>> {
    let (n, m) = sample_of(d, p);
    (match reference {
        Some((b, label)) => scoring::said(
            identity_with(d, p, reference) is None,
            "could not read .text from the "@ + label
                + " reference; skipped the identity check"@,
        ),
        None => Seq::empty(),
    }) + scoring::said(
        !le::occurs_at(entry_code(d, p), 0, msvc_prologue()),
        "OEP prologue at rva 0x"@ + text::hex_lower(p.aep as nat)
            + " is not the expected MSVC pattern"@,
    ) + scoring::said(
        (Percent { part: m as u32, whole: n as u32 }).above(1),
        "a virtualization sample of "@ + types::two_decimals(100 * m, n) + "% across "@ + text::dec(
            n as nat,
        ) + " function starts suggests a VM-protected build"@,
    )
}

/// The import gate.
pub open spec fn imports_pass(dlls: int, functions: int) -> bool {
    dlls >= 5 && functions >= 50
}

/// The function table gate.
pub open spec fn pdata_pass(table: (u32, Percent, Percent)) -> bool {
    table.0 > 1000 && table.1.above(95) && table.2.above(99)
}

/// What the gates find of a file; or why it was refused.
pub open spec fn verified(d: Seq<u8>, reference: Option<(Seq<u8>, Seq<char>)>) -> Result<
    VerifyReportV,
    Seq<char>,
> {
    match pe::headers(d) {
        Err(m) => Err(m),
        Ok(p) => {
            let xs = imports::descriptors(d, p);
            let functions = functions_of(d, p, xs, xs.len() as int);
            let table = table_of(d, p);
            let (n, m) = sample_of(d, p);
            let code = entry_code(d, p);
            let same = identity_with(d, p, reference);
            Ok(
                VerifyReportV {
                    oep_rva: p.aep,
                    oep_bytes: text::hex_run(shown(code)),
                    oep_is_msvc: le::occurs_at(code, 0, msvc_prologue()),
                    oep_disasm: texts_from(
                        p,
                        code,
                        p.image_base.wrapping_add(p.aep as u64),
                        0,
                        OEP_INSTRS as nat,
                    ),
                    import_dlls: xs.len() as u32,
                    import_functions: functions as u32,
                    imports_ok: imports_pass(xs.len() as int, functions),
                    pdata_entries: table.0,
                    pdata_valid_pct: table.1,
                    pdata_ascending_pct: table.2,
                    pdata_ok: pdata_pass(table),
                    virtualization_pct: Percent { part: m as u32, whole: n as u32 },
                    virtualization_sampled: n as u32,
                    text_identity: same,
                    text_ref: match reference {
                        Some((b, label)) => Some(label),
                        None => None,
                    },
                    text_sha256: match raw_of(d, p, ".text"@) {
                        Some(b) => Some(sha256::digest_text(b)),
                        None => None,
                    },
                    output_size: d.len() as u64,
                    gates_pass: imports_pass(xs.len() as int, functions) && pdata_pass(table)
                        && same != Some(false),
                    warnings: warnings_of(d, p, reference),
                },
            )
        },
    }
}

/// The reference by its content.
pub open spec fn reference_view(reference: Option<(&[u8], &str)>) -> Option<(Seq<u8>, Seq<char>)> {
    match reference {
        Some((b, label)) => Some((b@, label@)),
        None => None,
    }
}

fn same_bytes(a: &[u8], b: &[u8]) -> (r: bool)
    ensures
        r == (a@ == b@),
{
    if a.len() != b.len() {
        return false;
    }
    let r = matches_at(a, 0, b);
    assert(a@.subrange(0, b@.len() as int) =~= a@);
    r
}

fn compare_text(d: &[u8], p: &Pe, reference: Option<(&[u8], &str)>) -> (r: Option<bool>)
    ensures
        r == identity_with(d@, p.deep_view(), reference_view(reference)),
{
    let (b, _) = match reference {
        Some(x) => x,
        None => {
            return None;
        },
    };
    match Pe::parse(b) {
        Err(_) => None,
        Ok(q) => match (section_raw(d, p, ".text"), section_raw(b, &q, ".text")) {
            (Some(x), Some(y)) => Some(same_bytes(x, y)),
            _ => None,
        },
    }
}

fn list_warnings(
    d: &[u8],
    p: &Pe,
    reference: Option<(&[u8], &str)>,
    same: Option<bool>,
    msvc: bool,
    sampled: u32,
    flagged: u32,
) -> (v: Vec<String>)
    requires
        same == identity_with(d@, p.deep_view(), reference_view(reference)),
        msvc == le::occurs_at(entry_code(d@, p.deep_view()), 0, msvc_prologue()),
        sample_of(d@, p.deep_view()) == (sampled as int, flagged as int),
    ensures
        v.deep_view() == warnings_of(d@, p.deep_view(), reference_view(reference)),
{
    let mut v: Vec<String> = Vec::new();
    assert(v.deep_view() =~= Seq::<Seq<char>>::empty());
    if let Some((_, label)) = reference {
        if same.is_none() {
            let mut s = starting("could not read .text from the ");
            s.append(label);
            s.append(" reference; skipped the identity check");
            say(&mut v, s);
        }
    }
    if !msvc {
        let mut s = starting("OEP prologue at rva 0x");
        push_hex_lower(&mut s, p.aep as u64);
        s.append(" is not the expected MSVC pattern");
        say(&mut v, s);
    }
    let share = Percent { part: flagged, whole: sampled };
    if share.exceeds(1) {
        let mut s = starting("a virtualization sample of ");
        push_two_decimals(&mut s, 100 * (flagged as u64), sampled as u64);
        s.append("% across ");
        push_dec(&mut s, sampled as u64);
        s.append(" function starts suggests a VM-protected build");
        say(&mut v, s);
    }
    assert(v.deep_view() =~= warnings_of(d@, p.deep_view(), reference_view(reference)));
    v
}

fn show(b: &[u8]) -> (s: String)
    ensures
        s@ == text::hex_run(shown(b@)),
{
    if b.len() > OEP_SHOWN {
        let front = slice_subrange(b, 0, OEP_SHOWN);
        assert(front@ =~= b@.take(OEP_SHOWN as int));
        run_of_hex(front)
    } else {
        run_of_hex(b)
    }
}

/// Run every gate over a cleaned file. `reference` is the bytes and the label of the file to prove the
/// identity of `.text` against; `None` skips that gate. An unreadable reference is not a mismatch: the
/// check is skipped and a warning says so.
pub fn verify_bytes(cleaned: &[u8], reference: Option<(&[u8], &str)>) -> (r: Result<
    VerifyReport,
    BadImage,
>)
    ensures
        match r {
            Ok(v) => verified(cleaned@, reference_view(reference)) == Ok::<
                VerifyReportV,
                Seq<char>,
            >(v.deep_view()),
            Err(e) => verified(cleaned@, reference_view(reference)) == Err::<
                VerifyReportV,
                Seq<char>,
            >(e.message@),
        },
{
    let p = match Pe::parse(cleaned) {
        Ok(p) => p,
        Err(e) => {
            return Err(e);
        },
    };
    let (import_dlls, import_functions) = count_imports(cleaned, &p);
    let imports_ok: bool = import_dlls >= 5 && import_functions >= 50;
    let (pdata_entries, pdata_valid_pct, pdata_ascending_pct) = check_pdata(cleaned, &p);
    let pdata_ok: bool = pdata_entries > 1000 && pdata_valid_pct.exceeds(95)
        && pdata_ascending_pct.exceeds(99);
    let code: &[u8] = match read_bytes(cleaned, &p, p.aep, OEP_BYTES) {
        Some(b) => b,
        None => slice_subrange(cleaned, 0, 0),
    };
    assert(code@ =~= entry_code(cleaned@, p.deep_view()));
    let mark: Vec<u8> = vec![0x48u8, 0x89, 0x5C, 0x24, 0x20];
    assert(mark@ =~= msvc_prologue());
    let oep_is_msvc: bool = matches_at(code, 0, mark.as_slice());
    let oep_bytes = show(code);
    let oep_disasm = disasm(&p, code, p.image_base.wrapping_add(p.aep as u64), OEP_INSTRS);
    let (sampled, flagged) = virtualization_sample(cleaned, &p);
    let text_sha256: Option<String> = match section_raw(cleaned, &p, ".text") {
        Some(b) => Some(sha256::hex(b)),
        None => None,
    };
    let text_identity = compare_text(cleaned, &p, reference);
    let text_ref: Option<String> = match reference {
        Some((_, label)) => Some(starting(label)),
        None => None,
    };
    let warnings = list_warnings(
        cleaned,
        &p,
        reference,
        text_identity,
        oep_is_msvc,
        sampled,
        flagged,
    );
    let differs: bool = match text_identity {
        Some(same) => !same,
        None => false,
    };
    let gates_pass: bool = imports_ok && pdata_ok && !differs;
    Ok(
        VerifyReport {
            oep_rva: p.aep,
            oep_bytes,
            oep_is_msvc,
            oep_disasm,
            import_dlls,
            import_functions,
            imports_ok,
            pdata_entries,
            pdata_valid_pct,
            pdata_ascending_pct,
            pdata_ok,
            virtualization_pct: Percent { part: flagged, whole: sampled },
            virtualization_sampled: sampled,
            text_identity,
            text_ref,
            text_sha256,
            output_size: cleaned.len() as u64,
            gates_pass,
            warnings,
        },
    )
}

}
