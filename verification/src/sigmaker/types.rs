//! What the signature maker takes and what it reports.

use crate::fileimage::{RelocKind, RelocLookup};
use crate::memory;
use crate::memory::{MemorySource, Region};
use crate::pattern::Arch;
use crate::text;
use crate::text::{push_dec, push_hex_upper};
use vstd::prelude::*;
use vstd::string::*;

verus! {

/// The letter grade of a candidate, best first.
#[derive(Clone, Copy, PartialEq, Eq, Debug, Structural)]
pub enum Grade {
    A,
    B,
    C,
    D,
    F,
}

impl Grade {
    /// The letter of the grade.
    pub fn letter(self) -> (c: char)
        ensures
            c == (match self {
                Grade::A => 'A',
                Grade::B => 'B',
                Grade::C => 'C',
                Grade::D => 'D',
                Grade::F => 'F',
            }),
    {
        match self {
            Grade::A => 'A',
            Grade::B => 'B',
            Grade::C => 'C',
            Grade::D => 'D',
            Grade::F => 'F',
        }
    }

    /// The position of the grade, zero for the best.
    pub open spec fn rank_spec(self) -> u8 {
        match self {
            Grade::A => 0,
            Grade::B => 1,
            Grade::C => 2,
            Grade::D => 3,
            Grade::F => 4,
        }
    }

    /// The place of the grade, the best first.
    #[verifier::when_used_as_spec(rank_spec)]
    pub fn rank(self) -> (r: u8)
        ensures
            r == self.rank_spec(),
    {
        match self {
            Grade::A => 0,
            Grade::B => 1,
            Grade::C => 2,
            Grade::D => 3,
            Grade::F => 4,
        }
    }

    /// The letter band of a final score.
    pub open spec fn band(score: int) -> Grade {
        if score >= 82 {
            Grade::A
        } else if score >= 64 {
            Grade::B
        } else if score >= 42 {
            Grade::C
        } else if score >= 25 {
            Grade::D
        } else {
            Grade::F
        }
    }

    /// The letter band for a `final_score` in 0..=100. The presentation grade is derived from the
    /// numeric score, never the other way round.
    pub fn from_final_score(final_score: u32) -> (g: Grade)
        ensures
            g == Grade::band(final_score as int),
    {
        if final_score >= 82 {
            Grade::A
        } else if final_score >= 64 {
            Grade::B
        } else if final_score >= 42 {
            Grade::C
        } else if final_score >= 25 {
            Grade::D
        } else {
            Grade::F
        }
    }

    /// The weaker of two grades.
    pub open spec fn capped(self, cap: Grade) -> Grade {
        if self.rank() < cap.rank() {
            cap
        } else {
            self
        }
    }

    /// Cap the grade: never better than `cap`, never promoted.
    pub fn max_rank(self, cap: Grade) -> (g: Grade)
        ensures
            g == self.capped(cap),
    {
        if self.rank() < cap.rank() {
            cap
        } else {
            self
        }
    }
}

/// Capping keeps a grade at or below both the grade and the cap, and is one of the two.
pub proof fn capping_never_promotes(g: Grade, cap: Grade)
    ensures
        g.capped(cap).rank() >= g.rank(),
        g.capped(cap).rank() >= cap.rank(),
        g.capped(cap) == g || g.capped(cap) == cap,
{
}

/// Independent, measurable sub-scores for a candidate, each 0..=100. `final_score` is a weighted blend
/// of the others and is what the letter grade is derived from.
#[derive(Clone, Copy, Debug, Default, PartialEq, Eq, Structural)]
pub struct SubScores {
    /// How specific the signature is.
    pub uniqueness: u32,
    /// How recompile-stable it is.
    pub stability: u32,
    /// Byte-distinctiveness of the fixed bytes.
    pub entropy: u32,
    /// How much validated semantic content backs it.
    pub semantic: u32,
    /// How confidently the resolver will re-resolve it.
    pub resolver_confidence: u32,
    /// Cross-build agreement.
    pub cross_build: u32,
    /// The weighted blend the grade band is read from.
    pub final_score: u32,
}

/// How a signature's match is turned into the target.
#[derive(Clone, Copy, PartialEq, Eq, Debug, Structural)]
pub enum Suffix {
    /// The match itself is the target.
    Direct,
    Call,
    Jmp,
    Ptr,
}

impl Suffix {
    /// The suffix as it is written behind a name.
    pub fn as_str(self) -> (s: &'static str)
        ensures
            s@ == (match self {
                Suffix::Direct => ""@,
                Suffix::Call => "_CALL"@,
                Suffix::Jmp => "_JMP"@,
                Suffix::Ptr => "_PTR"@,
            }),
    {
        match self {
            Suffix::Direct => "",
            Suffix::Call => "_CALL",
            Suffix::Jmp => "_JMP",
            Suffix::Ptr => "_PTR",
        }
    }

    /// The place of the suffix in reports.
    pub open spec fn order_spec(self) -> u8 {
        match self {
            Suffix::Direct => 0,
            Suffix::Call => 1,
            Suffix::Jmp => 2,
            Suffix::Ptr => 3,
        }
    }

    /// The place of the suffix in reports.
    #[verifier::when_used_as_spec(order_spec)]
    pub fn order(self) -> (r: u8)
        ensures
            r == self.order_spec(),
    {
        match self {
            Suffix::Direct => 0,
            Suffix::Call => 1,
            Suffix::Jmp => 2,
            Suffix::Ptr => 3,
        }
    }
}

/// What an address points at.
#[derive(Clone, Copy, PartialEq, Eq, Debug, Structural)]
pub enum TargetKind {
    Code,
    Data,
    Import,
    Unknown,
}

/// A fraction of two counts.
#[derive(Clone, Copy, PartialEq, Eq, Debug, Structural)]
pub struct Ratio {
    pub num: usize,
    pub den: usize,
}

impl Ratio {
    /// Whether `self` is the smaller fraction.
    pub open spec fn below(self, other: Ratio) -> bool {
        self.num * other.den < other.num * self.den
    }

    /// Whether `self` is the smaller fraction.
    pub fn is_below(self, other: Ratio) -> (r: bool)
        ensures
            r == self.below(other),
    {
        assert(self.num * other.den <= 0xFFFF_FFFF_FFFF_FFFF * 0xFFFF_FFFF_FFFF_FFFF)
            by (nonlinear_arith)
            requires
                0 <= self.num <= 0xFFFF_FFFF_FFFF_FFFF,
                0 <= other.den <= 0xFFFF_FFFF_FFFF_FFFF,
        ;
        assert(other.num * self.den <= 0xFFFF_FFFF_FFFF_FFFF * 0xFFFF_FFFF_FFFF_FFFF)
            by (nonlinear_arith)
            requires
                0 <= other.num <= 0xFFFF_FFFF_FFFF_FFFF,
                0 <= self.den <= 0xFFFF_FFFF_FFFF_FFFF,
        ;
        (self.num as u128) * (other.den as u128) < (other.num as u128) * (self.den as u128)
    }

    /// The fraction with two decimals.
    pub open spec fn decimals(self) -> Seq<char> {
        two_decimals(self.num as int, self.den as int)
    }
}

/// A fraction in hundredths, halves to the even neighbour; zero for an empty fraction.
pub open spec fn hundredths(num: int, den: int) -> int {
    if den == 0 {
        0
    } else {
        rounded_even(100 * num, den)
    }
}

/// A fraction with two decimals.
pub open spec fn two_decimals(num: int, den: int) -> Seq<char> {
    let h = hundredths(num, den);
    text::dec((h / 100) as nat).push('.').push(text::digit_upper(h / 10 % 10)).push(
        text::digit_upper(h % 10),
    )
}

/// `a / b` rounded to the nearest integer, halves to the even neighbour.
pub open spec fn rounded_even(a: int, b: int) -> int {
    let q = a / b;
    let r = a % b;
    if 2 * r > b || (2 * r == b && q % 2 == 1) {
        q + 1
    } else {
        q
    }
}

/// Something to tell the user about a run or a candidate.
#[derive(Clone, Debug)]
pub enum Diag {
    NoInputs,
    MixedArch,
    PackedInput { label: String, reasons: Vec<String> },
    MissingInImage { label: String },
    FoundInBuild { label: String, rva: u64 },
    AmbiguousInImage { label: String, count: usize },
    StreamDiverges { label: String, offset: usize },
    UnsupportedReloc { rva: usize, reloc_type: u8 },
    InvalidAob { reason: String },
    TooFewFixedBytes { fixed: usize },
    LowFixedRatio { ratio: Ratio },
    NoOpcodeBytes,
    TargetNotCode { label: String, rva: usize },
    UnresolvableTarget { label: String },
    CalleeMismatch,
    NotUnique,
    BuildFailed,
}

/// A [`Diag`] by its content.
#[verifier::ext_equal]
pub enum DiagV {
    NoInputs,
    MixedArch,
    PackedInput { label: Seq<char>, reasons: Seq<Seq<char>> },
    MissingInImage { label: Seq<char> },
    FoundInBuild { label: Seq<char>, rva: u64 },
    AmbiguousInImage { label: Seq<char>, count: usize },
    StreamDiverges { label: Seq<char>, offset: usize },
    UnsupportedReloc { rva: usize, reloc_type: u8 },
    InvalidAob { reason: Seq<char> },
    TooFewFixedBytes { fixed: usize },
    LowFixedRatio { ratio: Ratio },
    NoOpcodeBytes,
    TargetNotCode { label: Seq<char>, rva: usize },
    UnresolvableTarget { label: Seq<char> },
    CalleeMismatch,
    NotUnique,
    BuildFailed,
}

impl DeepView for Diag {
    type V = DiagV;

    open spec fn deep_view(&self) -> DiagV {
        match *self {
            Diag::NoInputs => DiagV::NoInputs,
            Diag::MixedArch => DiagV::MixedArch,
            Diag::PackedInput { label, reasons } => DiagV::PackedInput {
                label: label@,
                reasons: reasons.deep_view(),
            },
            Diag::MissingInImage { label } => DiagV::MissingInImage { label: label@ },
            Diag::FoundInBuild { label, rva } => DiagV::FoundInBuild { label: label@, rva },
            Diag::AmbiguousInImage { label, count } => DiagV::AmbiguousInImage {
                label: label@,
                count,
            },
            Diag::StreamDiverges { label, offset } => DiagV::StreamDiverges {
                label: label@,
                offset,
            },
            Diag::UnsupportedReloc { rva, reloc_type } => DiagV::UnsupportedReloc {
                rva,
                reloc_type,
            },
            Diag::InvalidAob { reason } => DiagV::InvalidAob { reason: reason@ },
            Diag::TooFewFixedBytes { fixed } => DiagV::TooFewFixedBytes { fixed },
            Diag::LowFixedRatio { ratio } => DiagV::LowFixedRatio { ratio },
            Diag::NoOpcodeBytes => DiagV::NoOpcodeBytes,
            Diag::TargetNotCode { label, rva } => DiagV::TargetNotCode { label: label@, rva },
            Diag::UnresolvableTarget { label } => DiagV::UnresolvableTarget { label: label@ },
            Diag::CalleeMismatch => DiagV::CalleeMismatch,
            Diag::NotUnique => DiagV::NotUnique,
            Diag::BuildFailed => DiagV::BuildFailed,
        }
    }
}

impl DiagV {
    /// The sentence shown for it.
    pub open spec fn message(self) -> Seq<char> {
        match self {
            DiagV::NoInputs => "no inputs"@,
            DiagV::MixedArch => "inputs mix x86 and x64"@,
            DiagV::PackedInput { label, reasons } => "packed input "@ + label + ": "@
                + text::joined(reasons, "; "@),
            DiagV::MissingInImage { label } => "not found in "@ + label,
            DiagV::FoundInBuild { label, rva } => "found in "@ + label + " at 0x"@
                + text::hex_upper(rva as nat),
            DiagV::AmbiguousInImage { label, count } => text::dec(count as nat) + " matches in "@
                + label,
            DiagV::StreamDiverges { label, offset } => "instruction stream diverges in "@ + label
                + " at +0x"@ + text::hex_upper(offset as nat),
            DiagV::UnsupportedReloc { rva, reloc_type } => "unsupported relocation (type "@
                + text::dec(reloc_type as nat) + ") at 0x"@ + text::hex_upper(rva as nat),
            DiagV::InvalidAob { reason } => "invalid signature: "@ + reason,
            DiagV::TooFewFixedBytes { fixed } => "too few fixed bytes ("@ + text::dec(fixed as nat)
                + ")"@,
            DiagV::LowFixedRatio { ratio } => "fixed ratio too low ("@ + ratio.decimals() + ")"@,
            DiagV::NoOpcodeBytes => "no meaningful fixed opcode bytes"@,
            DiagV::TargetNotCode { label, rva } => "branch target 0x"@ + text::hex_upper(
                rva as nat,
            ) + " is not in executable code in "@ + label,
            DiagV::UnresolvableTarget { label } => "could not resolve the branch target in "@
                + label,
            DiagV::CalleeMismatch => "branch target resolves to different code across builds"@,
            DiagV::NotUnique => "could not make a unique signature across all builds"@,
            DiagV::BuildFailed => "build failed"@,
        }
    }
}

/// Start a text with `head`.
pub fn starting(head: &str) -> (s: String)
    ensures
        s@ == head@,
{
    head.to_string()
}

/// Add a fraction with two decimals.
pub fn push_two_decimals(s: &mut String, num: u64, den: u64)
    ensures
        final(s)@ == old(s)@ + two_decimals(num as int, den as int),
{
    let mut h: u128 = 0;
    if den > 0 {
        let a: u128 = 100 * (num as u128);
        let b: u128 = den as u128;
        let q: u128 = a / b;
        let r: u128 = a % b;
        assert(q <= a) by (nonlinear_arith)
            requires
                q == a / b,
                b >= 1,
        ;
        h = if 2 * r > b || (2 * r == b && q % 2 == 1) {
            q + 1
        } else {
            q
        };
    }
    let ghost start = s@;
    let whole: u128 = h / 100;
    push_dec_wide(s, whole);
    s.push('.');
    s.push(decimal_digit((h / 10 % 10) as u8));
    s.push(decimal_digit((h % 10) as u8));
    assert(s@ =~= start + two_decimals(num as int, den as int));
}

fn decimal_digit(d: u8) -> (c: char)
    requires
        d < 10,
    ensures
        c == text::digit_upper(d as int),
{
    (0x30 + d) as char
}

fn push_dec_wide(s: &mut String, n: u128)
    ensures
        final(s)@ == old(s)@ + text::dec(n as nat),
    decreases n,
{
    if n >= 10 {
        push_dec_wide(s, n / 10);
    }
    s.push(decimal_digit((n % 10) as u8));
    assert(s@ =~= old(s)@ + text::dec(n as nat));
}

impl Diag {
    /// The sentence shown for it.
    pub fn message(&self) -> (s: String)
        ensures
            s@ == self.deep_view().message(),
    {
        match self {
            Diag::NoInputs => starting("no inputs"),
            Diag::MixedArch => starting("inputs mix x86 and x64"),
            Diag::PackedInput { label, reasons } => {
                let mut s = starting("packed input ");
                s.append(label.as_str());
                s.append(": ");
                let r = text::join(reasons, "; ");
                s.append(r.as_str());
                s
            },
            Diag::MissingInImage { label } => {
                let mut s = starting("not found in ");
                s.append(label.as_str());
                s
            },
            Diag::FoundInBuild { label, rva } => {
                let mut s = starting("found in ");
                s.append(label.as_str());
                s.append(" at 0x");
                push_hex_upper(&mut s, *rva);
                s
            },
            Diag::AmbiguousInImage { label, count } => {
                let mut s = String::new();
                push_dec(&mut s, *count as u64);
                assert(s@ =~= text::dec(*count as nat));
                s.append(" matches in ");
                s.append(label.as_str());
                s
            },
            Diag::StreamDiverges { label, offset } => {
                let mut s = starting("instruction stream diverges in ");
                s.append(label.as_str());
                s.append(" at +0x");
                push_hex_upper(&mut s, *offset as u64);
                s
            },
            Diag::UnsupportedReloc { rva, reloc_type } => {
                let mut s = starting("unsupported relocation (type ");
                push_dec(&mut s, *reloc_type as u64);
                s.append(") at 0x");
                push_hex_upper(&mut s, *rva as u64);
                s
            },
            Diag::InvalidAob { reason } => {
                let mut s = starting("invalid signature: ");
                s.append(reason.as_str());
                s
            },
            Diag::TooFewFixedBytes { fixed } => {
                let mut s = starting("too few fixed bytes (");
                push_dec(&mut s, *fixed as u64);
                s.append(")");
                s
            },
            Diag::LowFixedRatio { ratio } => {
                let mut s = starting("fixed ratio too low (");
                push_two_decimals(&mut s, ratio.num as u64, ratio.den as u64);
                s.append(")");
                s
            },
            Diag::NoOpcodeBytes => starting("no meaningful fixed opcode bytes"),
            Diag::TargetNotCode { label, rva } => {
                let mut s = starting("branch target 0x");
                push_hex_upper(&mut s, *rva as u64);
                s.append(" is not in executable code in ");
                s.append(label.as_str());
                s
            },
            Diag::UnresolvableTarget { label } => {
                let mut s = starting("could not resolve the branch target in ");
                s.append(label.as_str());
                s
            },
            Diag::CalleeMismatch => starting(
                "branch target resolves to different code across builds",
            ),
            Diag::NotUnique => starting("could not make a unique signature across all builds"),
            Diag::BuildFailed => starting("build failed"),
        }
    }
}

/// What to make a signature for.
#[derive(Clone, Debug)]
pub enum TargetSpec {
    /// Whatever this byte pattern matches.
    Aob(String),
    /// The address `rva` of build number `image`.
    Ref { image: usize, rva: u64 },
}

/// A [`TargetSpec`] by its content.
#[verifier::ext_equal]
pub enum TargetSpecV {
    Aob(Seq<char>),
    Ref { image: usize, rva: u64 },
}

impl DeepView for TargetSpec {
    type V = TargetSpecV;

    open spec fn deep_view(&self) -> TargetSpecV {
        match self {
            TargetSpec::Aob(aob) => TargetSpecV::Aob(aob@),
            TargetSpec::Ref { image, rva } => TargetSpecV::Ref { image: *image, rva: *rva },
        }
    }
}

/// Limits on a signature.
#[derive(Clone, Copy, Debug, PartialEq, Eq, Structural)]
pub struct SigOptions {
    pub max_len: usize,
    pub min_fixed: usize,
    pub min_fixed_ratio: Ratio,
}

impl Default for SigOptions {
    fn default() -> (o: Self)
        ensures
            o.max_len == 80,
            o.min_fixed == 5,
            o.min_fixed_ratio == (Ratio { num: 30, den: 100 }),
    {
        SigOptions { max_len: 80, min_fixed: 5, min_fixed_ratio: Ratio { num: 30, den: 100 } }
    }
}

/// How far past the end of an image's regions the library may ask for bytes.
pub const READ_AHEAD: usize = 0x1000;

/// One build.
#[derive(Clone)]
pub struct ImageInput<'a> {
    pub label: String,
    pub source: &'a dyn MemorySource,
    pub base: usize,
    pub size: usize,
    pub code_regions: Vec<Region>,
    pub regions: Vec<Region>,
    /// The import directory, first address and end.
    pub import: Option<(usize, usize)>,
    pub arch: Arch,
    pub code_hash: u64,
    pub packed: bool,
    pub pack_reasons: Vec<String>,
    pub reloc: Option<&'a dyn RelocLookup>,
}

/// Whether one of the regions holds the address.
pub open spec fn within(regions: Seq<Region>, abs: int) -> bool {
    exists|i: int| 0 <= i < regions.len() && (#[trigger] regions[i]).holds(abs)
}

/// Whether one of the regions holds the address.
pub fn is_within(regions: &Vec<Region>, abs: usize) -> (r: bool)
    ensures
        r == within(regions@, abs as int),
{
    let mut i: usize = 0;
    while i < regions.len()
        invariant
            i <= regions@.len(),
            forall|k: int| 0 <= k < i ==> !(#[trigger] regions@[k]).holds(abs as int),
        decreases regions@.len() - i,
    {
        if abs >= regions[i].base && abs - regions[i].base < regions[i].size {
            assert(regions@[i as int].holds(abs as int));
            return true;
        }
        i += 1;
    }
    false
}

impl<'a> ImageInput<'a> {
    /// What reads of the image give.
    pub open spec fn reads(&self) -> memory::Reads {
        |address: usize, len: nat| self.source.delivers(address, len)
    }

    /// The readable bytes from `abs` on, at most `len` of them.
    pub open spec fn bytes(&self, abs: int, len: nat) -> Seq<u8> {
        memory::collected(self.reads(), abs, len)
    }

    /// The image and everything that may be read around it lies in the address space, and no code
    /// lies below the image base. `ahead` is how far past the end reads may go.
    pub open spec fn room(&self, ahead: int) -> bool {
        &&& self.base + self.size + ahead <= usize::MAX
        &&& forall|i: int|
            0 <= i < self.code_regions@.len() ==> {
                &&& self.base <= (#[trigger] self.code_regions@[i]).base
                &&& self.code_regions@[i].base + self.code_regions@[i].size + ahead <= usize::MAX
            }
        &&& forall|i: int|
            0 <= i < self.regions@.len() ==> (#[trigger] self.regions@[i]).base
                + self.regions@[i].size <= usize::MAX
    }

    /// The image has room for every read but those of a signature window.
    pub open spec fn wf(&self) -> bool {
        self.room(READ_AHEAD as int)
    }

    /// Reads at `rva` stay in the address space.
    pub open spec fn reaches(&self, rva: int) -> bool {
        0 <= rva && self.base + rva + READ_AHEAD <= usize::MAX
    }

    /// The bytes at `rva`, at most `len` of them; none where they would leave the address space.
    pub open spec fn window(&self, rva: int, len: int) -> Seq<u8> {
        if self.base + rva + len <= usize::MAX {
            self.bytes(self.base + rva, len as nat)
        } else {
            Seq::empty()
        }
    }

    /// The relocation that patches the byte at `rva`, if one does.
    pub open spec fn patch_at(&self, rva: usize) -> Option<RelocKind> {
        match self.reloc {
            Some(lookup) => lookup.kind_at(rva),
            None => None,
        }
    }

    /// The address lies in executable code.
    pub open spec fn in_code(&self, abs: int) -> bool {
        within(self.code_regions@, abs)
    }

    /// The address lies in the image.
    pub open spec fn in_image(&self, abs: int) -> bool {
        self.base <= abs < self.base + self.size
    }

    /// What an address points at: code before the import table before other sections.
    pub open spec fn kind_of(&self, abs: int) -> TargetKind {
        if self.in_code(abs) {
            TargetKind::Code
        } else if self.import matches Some((s, e)) && s <= abs < e {
            TargetKind::Import
        } else if within(self.regions@, abs) {
            TargetKind::Data
        } else {
            TargetKind::Unknown
        }
    }

    /// What an address points at.
    pub fn classify(&self, abs: usize) -> (k: TargetKind)
        ensures
            k == self.kind_of(abs as int),
    {
        if is_within(&self.code_regions, abs) {
            return TargetKind::Code;
        }
        if let Some((s, e)) = self.import {
            if abs >= s && abs < e {
                return TargetKind::Import;
            }
        }
        if is_within(&self.regions, abs) {
            TargetKind::Data
        } else {
            TargetKind::Unknown
        }
    }

    /// No more is read than was asked for.
    pub proof fn bytes_fit(&self, abs: int, len: nat)
        ensures
            self.bytes(abs, len).len() <= len,
        decreases len,
    {
        let got = (self.reads())(abs as usize, len);
        if !(len == 0 || got.len() == 0 || got.len() > len) {
            self.bytes_fit(abs + got.len(), (len - got.len()) as nat);
        }
    }

    /// Whether reads at `rva` stay in the address space.
    pub fn can_reach(&self, rva: usize) -> (r: bool)
        ensures
            r == self.reaches(rva as int),
    {
        rva <= usize::MAX - self.base && usize::MAX - self.base - rva >= READ_AHEAD
    }

    /// The bytes at `rva`, at most `len` of them; none where they would leave the address space.
    pub fn read_window(&self, rva: u64, len: usize) -> (out: Vec<u8>)
        ensures
            out@ == self.window(rva as int, len as int),
            out@.len() <= len,
            out@.len() > 0 ==> self.base + rva + len <= usize::MAX,
    {
        if self.base as u128 + rva as u128 + len as u128 > usize::MAX as u128 {
            return Vec::new();
        }
        self.read(self.base + rva as usize, len)
    }

    /// The relocation that patches the byte at `rva`, if one does.
    pub fn reloc_at(&self, rva: usize) -> (r: Option<RelocKind>)
        ensures
            r == self.patch_at(rva),
    {
        match self.reloc {
            Some(lookup) => lookup.reloc_kind_at(rva),
            None => None,
        }
    }

    /// The readable bytes at `abs`, at most `len` of them.
    pub fn read(&self, abs: usize, len: usize) -> (out: Vec<u8>)
        requires
            abs + len <= usize::MAX,
        ensures
            out@ == self.bytes(abs as int, len as nat),
            out@.len() <= len,
    {
        memory::read_region(self.source, abs, len)
    }
}

/// What was found in one build.
#[derive(Clone, Debug)]
pub struct PerVersion {
    pub label: String,
    pub match_rva: Option<u64>,
    pub resolved_target_rva: Option<u64>,
    pub target_kind: Option<TargetKind>,
    /// Similarity of the resolved function to the reference build's, in trillionths; `None` for the
    /// reference build itself and where there is nothing to compare.
    pub fingerprint_similarity: Option<u64>,
    /// A byte signature minted for this build alone.
    pub aob: Option<String>,
}

/// A [`PerVersion`] by its content.
#[verifier::ext_equal]
pub struct PerVersionV {
    pub label: Seq<char>,
    pub match_rva: Option<u64>,
    pub resolved_target_rva: Option<u64>,
    pub target_kind: Option<TargetKind>,
    pub fingerprint_similarity: Option<u64>,
    pub aob: Option<Seq<char>>,
}

impl DeepView for PerVersion {
    type V = PerVersionV;

    open spec fn deep_view(&self) -> PerVersionV {
        PerVersionV {
            label: self.label@,
            match_rva: self.match_rva,
            resolved_target_rva: self.resolved_target_rva,
            target_kind: self.target_kind,
            fingerprint_similarity: self.fingerprint_similarity,
            aob: self.aob.deep_view(),
        }
    }
}

/// Which anchor relocated a candidate, and how the other anchors voted.
#[derive(Clone, Debug)]
pub struct RelocationLedger {
    pub anchor: String,
    pub support: usize,
    pub corroborators: Vec<String>,
    pub conflict: bool,
}

/// A [`RelocationLedger`] by its content.
#[verifier::ext_equal]
pub struct RelocationLedgerV {
    pub anchor: Seq<char>,
    pub support: usize,
    pub corroborators: Seq<Seq<char>>,
    pub conflict: bool,
}

impl DeepView for RelocationLedger {
    type V = RelocationLedgerV;

    open spec fn deep_view(&self) -> RelocationLedgerV {
        RelocationLedgerV {
            anchor: self.anchor@,
            support: self.support,
            corroborators: self.corroborators.deep_view(),
            conflict: self.conflict,
        }
    }
}

/// A signature that was tried, with all that was measured of it.
#[derive(Clone, Debug)]
pub struct SigCandidate {
    pub aob: String,
    pub suffix: Suffix,
    pub grade: Grade,
    /// The confidence in 0..=100; equal to `scores.final_score`.
    pub score: u32,
    pub bytes_len: usize,
    pub fixed: usize,
    pub wildcards: usize,
    pub fixed_ratio: Ratio,
    pub reloc_safe: bool,
    /// A hard gate rejects the candidate whatever its score.
    pub gated: bool,
    /// An input looked packed.
    pub packed: bool,
    /// The independent sub-scores the grade was derived from.
    pub scores: SubScores,
    /// Human-readable explanations of why the candidate scored high or low.
    pub reasons: Vec<String>,
    pub per_version: Vec<PerVersion>,
    pub diags: Vec<Diag>,
    pub relocation: Option<RelocationLedger>,
}

/// A [`SigCandidate`] by its content.
#[verifier::ext_equal]
pub struct SigCandidateV {
    pub aob: Seq<char>,
    pub suffix: Suffix,
    pub grade: Grade,
    pub score: u32,
    pub bytes_len: usize,
    pub fixed: usize,
    pub wildcards: usize,
    pub fixed_ratio: Ratio,
    pub reloc_safe: bool,
    pub gated: bool,
    pub packed: bool,
    pub scores: SubScores,
    pub reasons: Seq<Seq<char>>,
    pub per_version: Seq<PerVersionV>,
    pub diags: Seq<DiagV>,
    pub relocation: Option<RelocationLedgerV>,
}

impl DeepView for SigCandidate {
    type V = SigCandidateV;

    open spec fn deep_view(&self) -> SigCandidateV {
        SigCandidateV {
            aob: self.aob@,
            suffix: self.suffix,
            grade: self.grade,
            score: self.score,
            bytes_len: self.bytes_len,
            fixed: self.fixed,
            wildcards: self.wildcards,
            fixed_ratio: self.fixed_ratio,
            reloc_safe: self.reloc_safe,
            gated: self.gated,
            packed: self.packed,
            scores: self.scores,
            reasons: self.reasons.deep_view(),
            per_version: self.per_version.deep_view(),
            diags: self.diags.deep_view(),
            relocation: self.relocation.deep_view(),
        }
    }
}

/// A run of builds that one byte signature covers.
#[derive(Clone, Debug)]
pub struct AobRange {
    pub aob: String,
    pub minted_in: String,
    pub first_label: String,
    pub last_label: String,
    pub labels: Vec<String>,
}

/// An [`AobRange`] by its content.
#[verifier::ext_equal]
pub struct AobRangeV {
    pub aob: Seq<char>,
    pub minted_in: Seq<char>,
    pub first_label: Seq<char>,
    pub last_label: Seq<char>,
    pub labels: Seq<Seq<char>>,
}

impl DeepView for AobRange {
    type V = AobRangeV;

    open spec fn deep_view(&self) -> AobRangeV {
        AobRangeV {
            aob: self.aob@,
            minted_in: self.minted_in@,
            first_label: self.first_label@,
            last_label: self.last_label@,
            labels: self.labels.deep_view(),
        }
    }
}

/// A function that looks like the target.
#[derive(Clone, Debug)]
pub struct ShortlistEntry {
    pub rva: u64,
    /// Similarity to the target, in trillionths.
    pub similarity: u64,
    pub aob: Option<String>,
}

/// A [`ShortlistEntry`] by its content.
#[verifier::ext_equal]
pub struct ShortlistEntryV {
    pub rva: u64,
    pub similarity: u64,
    pub aob: Option<Seq<char>>,
}

impl DeepView for ShortlistEntry {
    type V = ShortlistEntryV;

    open spec fn deep_view(&self) -> ShortlistEntryV {
        ShortlistEntryV { rva: self.rva, similarity: self.similarity, aob: self.aob.deep_view() }
    }
}

/// The functions of one build that look like the target.
#[derive(Clone, Debug)]
pub struct Shortlist {
    pub label: String,
    pub entries: Vec<ShortlistEntry>,
}

/// A [`Shortlist`] by its content.
#[verifier::ext_equal]
pub struct ShortlistV {
    pub label: Seq<char>,
    pub entries: Seq<ShortlistEntryV>,
}

impl DeepView for Shortlist {
    type V = ShortlistV;

    open spec fn deep_view(&self) -> ShortlistV {
        ShortlistV { label: self.label@, entries: self.entries.deep_view() }
    }
}

/// Builds with the same code.
#[derive(Clone, Debug)]
pub struct DupGroup {
    pub code_hash: u64,
    pub labels: Vec<String>,
}

/// A [`DupGroup`] by its content.
#[verifier::ext_equal]
pub struct DupGroupV {
    pub code_hash: u64,
    pub labels: Seq<Seq<char>>,
}

impl DeepView for DupGroup {
    type V = DupGroupV;

    open spec fn deep_view(&self) -> DupGroupV {
        DupGroupV { code_hash: self.code_hash, labels: self.labels.deep_view() }
    }
}

/// What is known of one input.
#[derive(Clone, Debug)]
pub struct InputInfo {
    pub label: String,
    pub packed: bool,
    pub reasons: Vec<String>,
}

/// An [`InputInfo`] by its content.
#[verifier::ext_equal]
pub struct InputInfoV {
    pub label: Seq<char>,
    pub packed: bool,
    pub reasons: Seq<Seq<char>>,
}

impl DeepView for InputInfo {
    type V = InputInfoV;

    open spec fn deep_view(&self) -> InputInfoV {
        InputInfoV {
            label: self.label@,
            packed: self.packed,
            reasons: self.reasons.deep_view(),
        }
    }
}

/// A module of the negative corpus that holds a signature.
#[derive(Clone, Debug)]
pub struct NegativeHit {
    pub label: String,
    pub count: usize,
}

/// A [`NegativeHit`] by its content.
#[verifier::ext_equal]
pub struct NegativeHitV {
    pub label: Seq<char>,
    pub count: usize,
}

impl DeepView for NegativeHit {
    type V = NegativeHitV;

    open spec fn deep_view(&self) -> NegativeHitV {
        NegativeHitV { label: self.label@, count: self.count }
    }
}

/// Whether a signature made without a build still matches that build.
#[derive(Clone, Debug)]
pub struct HoldoutResult {
    pub held_out: String,
    pub generated: bool,
    pub matched_holdout: bool,
}

/// A [`HoldoutResult`] by its content.
#[verifier::ext_equal]
pub struct HoldoutResultV {
    pub held_out: Seq<char>,
    pub generated: bool,
    pub matched_holdout: bool,
}

impl DeepView for HoldoutResult {
    type V = HoldoutResultV;

    open spec fn deep_view(&self) -> HoldoutResultV {
        HoldoutResultV {
            held_out: self.held_out@,
            generated: self.generated,
            matched_holdout: self.matched_holdout,
        }
    }
}

/// The reliably detectable identity of a client build: arch, pack state, code size, and code hash. A
/// human variant label stays operator-supplied, not derived here.
#[derive(Clone, Copy, Debug, PartialEq, Eq, Structural)]
pub struct BuildProfile {
    pub arch: Arch,
    pub packed: bool,
    pub code_bytes: usize,
    pub code_hash: u64,
}

/// The sum of the region sizes.
pub open spec fn total_size(regions: Seq<Region>) -> int
    decreases regions.len(),
{
    if regions.len() == 0 {
        0
    } else {
        total_size(regions.drop_last()) + regions.last().size
    }
}

/// The first regions are no larger than all of them.
pub proof fn total_size_grows(regions: Seq<Region>, i: int)
    requires
        0 <= i <= regions.len(),
    ensures
        total_size(regions.take(i)) <= total_size(regions),
    decreases regions.len() - i,
{
    if i == regions.len() {
        assert(regions.take(i) =~= regions);
    } else {
        total_size_grows(regions, i + 1);
        assert(regions.take(i + 1).drop_last() =~= regions.take(i));
    }
}

impl BuildProfile {
    /// The profile of a build.
    pub fn of(img: &ImageInput) -> (p: Self)
        requires
            total_size(img.code_regions@) <= usize::MAX,
        ensures
            p.arch == img.arch,
            p.packed == img.packed,
            p.code_hash == img.code_hash,
            p.code_bytes == total_size(img.code_regions@),
    {
        let mut code_bytes: usize = 0;
        let mut i: usize = 0;
        while i < img.code_regions.len()
            invariant
                i <= img.code_regions@.len(),
                total_size(img.code_regions@) <= usize::MAX,
                code_bytes == total_size(img.code_regions@.take(i as int)),
            decreases img.code_regions@.len() - i,
        {
            proof {
                total_size_grows(img.code_regions@, i + 1);
                assert(img.code_regions@.take(i + 1).drop_last() =~= img.code_regions@.take(
                    i as int,
                ));
            }
            code_bytes += img.code_regions[i].size;
            i += 1;
        }
        assert(img.code_regions@.take(i as int) =~= img.code_regions@);
        BuildProfile { arch: img.arch, packed: img.packed, code_bytes, code_hash: img.code_hash }
    }

    /// Same lane = same arch and pack state; a cross-version comparison must not cross either.
    pub fn same_variant(&self, other: &Self) -> (r: bool)
        ensures
            r == (self.arch == other.arch && self.packed == other.packed),
    {
        self.arch == other.arch && self.packed == other.packed
    }
}

/// The outcome of a run.
#[derive(Clone, Debug)]
pub struct SigReport {
    pub arch: Arch,
    pub inputs: Vec<InputInfo>,
    pub unique_builds: usize,
    pub duplicate_groups: Vec<DupGroup>,
    pub chosen: Option<SigCandidate>,
    pub alternates: Vec<SigCandidate>,
    pub rejected: Vec<SigCandidate>,
    pub shortlists: Vec<Shortlist>,
    pub aob_ranges: Vec<AobRange>,
    pub diagnostics: Vec<Diag>,
}

/// A [`SigReport`] by its content.
#[verifier::ext_equal]
pub struct SigReportV {
    pub arch: Arch,
    pub inputs: Seq<InputInfoV>,
    pub unique_builds: usize,
    pub duplicate_groups: Seq<DupGroupV>,
    pub chosen: Option<SigCandidateV>,
    pub alternates: Seq<SigCandidateV>,
    pub rejected: Seq<SigCandidateV>,
    pub shortlists: Seq<ShortlistV>,
    pub aob_ranges: Seq<AobRangeV>,
    pub diagnostics: Seq<DiagV>,
}

impl DeepView for SigReport {
    type V = SigReportV;

    open spec fn deep_view(&self) -> SigReportV {
        SigReportV {
            arch: self.arch,
            inputs: self.inputs.deep_view(),
            unique_builds: self.unique_builds,
            duplicate_groups: self.duplicate_groups.deep_view(),
            chosen: self.chosen.deep_view(),
            alternates: self.alternates.deep_view(),
            rejected: self.rejected.deep_view(),
            shortlists: self.shortlists.deep_view(),
            aob_ranges: self.aob_ranges.deep_view(),
            diagnostics: self.diagnostics.deep_view(),
        }
    }
}

/// Copy a list of strings.
pub fn copy_strings(v: &Vec<String>) -> (r: Vec<String>)
    ensures
        r.deep_view() == v.deep_view(),
{
    let r = v.clone();
    assert(r.deep_view() =~= v.deep_view());
    r
}

}
