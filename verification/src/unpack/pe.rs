//! A raw view over the headers of a PE file, and reads and writes of a file's bytes.

use crate::le;
use crate::le::{get_u16, get_u32, get_u64, u32_bytes, u64_bytes};
use crate::sigmaker::types::starting;
use crate::text::same_text;
use vstd::prelude::*;
use vstd::slice::slice_subrange;
use vstd::string::*;
use vstd::utf8::*;

verus! {

/// Why a file was refused.
#[derive(Clone, Debug, PartialEq, Eq)]
pub struct BadImage {
    pub message: String,
}

/// A refusal by its content.
pub open spec fn refused<T>(message: Seq<char>) -> Result<T, Seq<char>> {
    Err(message)
}

/// Refuse a file.
pub fn bad(message: &str) -> (e: BadImage)
    ensures
        e.message@ == message@,
{
    BadImage { message: starting(message) }
}

/// The 16-bit value at `o`, if the data reaches that far.
pub open spec fn at16(d: Seq<u8>, o: int) -> Option<u16> {
    if 0 <= o && o + 2 <= d.len() {
        Some(le::le16(d, o) as u16)
    } else {
        None
    }
}

/// The 32-bit value at `o`, if the data reaches that far.
pub open spec fn at32(d: Seq<u8>, o: int) -> Option<u32> {
    if 0 <= o && o + 4 <= d.len() {
        Some(le::le32(d, o) as u32)
    } else {
        None
    }
}

/// The 64-bit value at `o`, if the data reaches that far.
pub open spec fn at64(d: Seq<u8>, o: int) -> Option<u64> {
    if 0 <= o && o + 8 <= d.len() {
        Some(le::le64(d, o) as u64)
    } else {
        None
    }
}

/// The value at `o`, zero where the data ends before.
pub open spec fn or_zero(v: Option<u32>) -> u32 {
    match v {
        Some(v) => v,
        None => 0,
    }
}

/// The 16-bit value at `o`, if the data reaches that far.
pub fn read16(d: &[u8], o: u64) -> (v: Option<u16>)
    ensures
        v == at16(d@, o as int),
{
    if o > d.len() as u64 {
        return None;
    }
    get_u16(d, o as usize)
}

/// The 32-bit value at `o`, if the data reaches that far.
pub fn read32(d: &[u8], o: u64) -> (v: Option<u32>)
    ensures
        v == at32(d@, o as int),
{
    if o > d.len() as u64 {
        return None;
    }
    get_u32(d, o as usize)
}

/// The 64-bit value at `o`, if the data reaches that far.
pub fn read64(d: &[u8], o: u64) -> (v: Option<u64>)
    ensures
        v == at64(d@, o as int),
{
    if o > d.len() as u64 {
        return None;
    }
    get_u64(d, o as usize)
}

/// The value at `o`, zero where the data ends before.
pub fn read32_or_zero(d: &[u8], o: u64) -> (v: u32)
    ensures
        v == or_zero(at32(d@, o as int)),
{
    match read32(d, o) {
        Some(v) => v,
        None => 0,
    }
}

/// The data with `b` written at `o`, if the data reaches that far.
pub open spec fn put(d: Seq<u8>, o: int, b: Seq<u8>) -> Option<Seq<u8>> {
    if 0 <= o && o + b.len() <= d.len() {
        Some(le::patched(d, o, b))
    } else {
        None
    }
}

/// Write `b` at `o`; whether the data reaches that far.
pub fn write_bytes(d: &mut Vec<u8>, o: u64, b: &[u8]) -> (done: bool)
    ensures
        match put(old(d)@, o as int, b@) {
            Some(n) => done && final(d)@ == n,
            None => !done && final(d)@ == old(d)@,
        },
{
    let ghost before = d@;
    if o > d.len() as u64 || b.len() as u64 > d.len() as u64 - o {
        return false;
    }
    let from: usize = o as usize;
    let end: usize = d.len();
    let mut k: usize = 0;
    while k < b.len()
        invariant
            end == d@.len(),
            before.len() == end,
            from + b@.len() <= end,
            k <= b@.len(),
            forall|j: int|
                #![trigger d@[j]]
                0 <= j < end ==> d@[j] == if from <= j < from + k {
                    b@[j - from]
                } else {
                    before[j]
                },
        decreases b@.len() - k,
    {
        d.set(from + k, b[k]);
        k += 1;
    }
    assert(d@ =~= le::patched(before, o as int, b@));
    true
}

/// Write a 32-bit value at `o`; whether the data reaches that far.
pub fn write32(d: &mut Vec<u8>, o: u64, v: u32) -> (done: bool)
    ensures
        match put(old(d)@, o as int, le::le32_bytes(v)) {
            Some(n) => done && final(d)@ == n,
            None => !done && final(d)@ == old(d)@,
        },
{
    let b = u32_bytes(v);
    write_bytes(d, o, b.as_slice())
}

/// Write a 64-bit value at `o`; whether the data reaches that far.
pub fn write64(d: &mut Vec<u8>, o: u64, v: u64) -> (done: bool)
    ensures
        match put(old(d)@, o as int, le::le64_bytes(v)) {
            Some(n) => done && final(d)@ == n,
            None => !done && final(d)@ == old(d)@,
        },
{
    let b = u64_bytes(v);
    write_bytes(d, o, b.as_slice())
}

/// The text of bytes that are not UTF-8.
pub uninterp spec fn lossy(b: Seq<u8>) -> Seq<char>;

/// `String::from_utf8_lossy` of the standard library. Claimed: the text of UTF-8 bytes is what they
/// encode; the text of others depends on the bytes alone and holds a replacement character.
#[verifier::external_body]
pub(crate) fn text_lossy(b: &[u8]) -> (s: String)
    ensures
        valid_utf8(b@) ==> s@ == decode_utf8(b@),
        !valid_utf8(b@) ==> s@ == lossy(b@) && s@.contains('\u{FFFD}'),
{
    String::from_utf8_lossy(b).into_owned()
}

/// How many bytes come before the first zero.
pub open spec fn zero_at(b: Seq<u8>) -> int
    decreases b.len(),
{
    if b.len() == 0 || b[0] == 0 {
        0
    } else {
        1 + zero_at(b.skip(1))
    }
}

/// The name of a section: the text before the first zero.
pub open spec fn name_of(raw: Seq<u8>) -> Seq<char> {
    let b = raw.take(zero_at(raw));
    if valid_utf8(b) {
        decode_utf8(b)
    } else {
        lossy(b)
    }
}

/// The name of a section: the text before the first zero.
pub fn section_name(raw: &[u8]) -> (s: String)
    ensures
        s@ == name_of(raw@),
{
    let mut n: usize = 0;
    assert(raw@.skip(0) =~= raw@);
    while n < raw.len() && raw[n] != 0
        invariant
            n <= raw@.len(),
            zero_at(raw@) == n + zero_at(raw@.skip(n as int)),
        decreases raw@.len() - n,
    {
        assert(raw@.skip(n as int).skip(1) =~= raw@.skip(n + 1));
        n += 1;
    }
    let front = slice_subrange(raw, 0, n);
    assert(front@ =~= raw@.take(n as int));
    text_lossy(front)
}

/// A section header, with the file offset of the header itself, so that its fields can be rewritten in
/// place.
#[derive(Clone, Debug)]
pub struct Sec {
    pub hdr: u64,
    pub name: String,
    /// Size in memory.
    pub vs: u32,
    /// Address in memory, from the image base.
    pub va: u32,
    /// Size in the file.
    pub rs: u32,
    /// Offset in the file.
    pub ro: u32,
}

/// A [`Sec`] by its content.
#[verifier::ext_equal]
pub struct SecV {
    pub hdr: u64,
    pub name: Seq<char>,
    pub vs: u32,
    pub va: u32,
    pub rs: u32,
    pub ro: u32,
}

impl DeepView for Sec {
    type V = SecV;

    open spec fn deep_view(&self) -> SecV {
        SecV {
            hdr: self.hdr,
            name: self.name@,
            vs: self.vs,
            va: self.va,
            rs: self.rs,
            ro: self.ro,
        }
    }
}

/// A minimal raw view over PE headers.
#[derive(Clone, Debug)]
pub struct Pe {
    /// Where the COFF header is.
    pub coff: u64,
    pub is64: bool,
    /// Where the data directories are.
    pub dd: u64,
    pub image_base: u64,
    /// The entry point, from the image base.
    pub aep: u32,
    pub sections: Vec<Sec>,
}

/// A [`Pe`] by its content.
#[verifier::ext_equal]
pub struct PeV {
    pub coff: u64,
    pub is64: bool,
    pub dd: u64,
    pub image_base: u64,
    pub aep: u32,
    pub sections: Seq<SecV>,
}

impl DeepView for Pe {
    type V = PeV;

    open spec fn deep_view(&self) -> PeV {
        PeV {
            coff: self.coff,
            is64: self.is64,
            dd: self.dd,
            image_base: self.image_base,
            aep: self.aep,
            sections: self.sections.deep_view(),
        }
    }
}

/// How long a section header is.
pub const SECTION_HEADER: u64 = 40;

/// The section header at `h`.
pub open spec fn section_at(d: Seq<u8>, h: int) -> SecV {
    SecV {
        hdr: h as u64,
        name: name_of(d.subrange(h, h + 8)),
        vs: le::le32(d, h + 8) as u32,
        va: le::le32(d, h + 12) as u32,
        rs: le::le32(d, h + 16) as u32,
        ro: le::le32(d, h + 20) as u32,
    }
}

/// The first `n` section headers from `table` on.
pub open spec fn sections_at(d: Seq<u8>, table: int, n: nat) -> Seq<SecV> {
    Seq::new(n, |i: int| section_at(d, table + SECTION_HEADER * i))
}

/// The fields of the optional header at `opt`, or why it is refused.
pub open spec fn optional_at(d: Seq<u8>, opt: int) -> Result<(bool, u64, u32), Seq<char>> {
    match at16(d, opt) {
        None => Err("truncated optional header"@),
        Some(magic) => if magic != 0x20B && magic != 0x10B {
            Err("unsupported optional header magic"@)
        } else {
            let is64 = magic == 0x20B;
            let base = if is64 {
                at64(d, opt + 0x18)
            } else {
                match at32(d, opt + 0x1C) {
                    Some(b) => Some(b as u64),
                    None => None,
                }
            };
            match (base, at32(d, opt + 16)) {
                (None, _) => Err(
                    if is64 {
                        "truncated PE32+ header"@
                    } else {
                        "truncated PE32 header"@
                    },
                ),
                (_, None) => Err("truncated optional header"@),
                (Some(b), Some(aep)) => Ok((is64, b, aep)),
            }
        },
    }
}

/// The headers of a file, or why it is refused.
pub open spec fn headers(d: Seq<u8>) -> Result<PeV, Seq<char>> {
    if d.len() < 0x40 || d[0] != 0x4D || d[1] != 0x5A {
        Err("not a PE image (missing MZ)"@)
    } else {
        let e = le::le32(d, 0x3C);
        let coff = e + 4;
        let opt = coff + 20;
        if !le::occurs_at(d, e, seq![0x50u8, 0x45, 0, 0]) {
            Err("missing PE signature"@)
        } else if at16(d, coff + 2) is None || at16(d, coff + 16) is None {
            Err("truncated COFF header"@)
        } else {
            let count = at16(d, coff + 2)->0;
            let table = opt + at16(d, coff + 16)->0;
            match optional_at(d, opt) {
                Err(m) => Err(m),
                Ok((is64, image_base, aep)) => if table + SECTION_HEADER * count > d.len()
                    && count > 0 {
                    Err("truncated section table"@)
                } else {
                    Ok(
                        PeV {
                            coff: coff as u64,
                            is64,
                            dd: (opt + if is64 {
                                0x70int
                            } else {
                                0x60int
                            }) as u64,
                            image_base,
                            aep,
                            sections: sections_at(d, table, count as nat),
                        },
                    )
                },
            }
        }
    }
}

/// The first section of the name, from `i` on.
pub open spec fn named_from(sections: Seq<SecV>, name: Seq<char>, i: int) -> Option<SecV>
    decreases sections.len() - i,
{
    if !(0 <= i < sections.len()) {
        None
    } else if sections[i].name == name {
        Some(sections[i])
    } else {
        named_from(sections, name, i + 1)
    }
}

/// Where an address lies in the file, by the sections from `i` on: only the part of a section that is
/// backed by the file counts.
pub open spec fn offset_from(sections: Seq<SecV>, rva: u32, i: int) -> Option<int>
    decreases sections.len() - i,
{
    if !(0 <= i < sections.len()) {
        None
    } else {
        let s = sections[i];
        if s.rs != 0 && s.va <= rva < s.va + s.rs {
            Some(s.ro + (rva - s.va))
        } else {
            offset_from(sections, rva, i + 1)
        }
    }
}

impl PeV {
    /// The first section of the name.
    pub open spec fn named(self, name: Seq<char>) -> Option<SecV> {
        named_from(self.sections, name, 0)
    }

    /// Where an address lies in the file.
    pub open spec fn offset(self, rva: u32) -> Option<int> {
        offset_from(self.sections, rva, 0)
    }

    /// The headers lie where a 32-bit offset and the tables behind it can put them.
    pub open spec fn wf(self) -> bool {
        &&& self.coff <= 0x1_0000_0003
        &&& self.dd <= 0x1_0000_0087
        &&& forall|i: int| 0 <= i < self.sections.len() ==> (#[trigger] self.sections[i]).hdr <= 0x1_1000_0000
    }

    /// Where the section headers end.
    pub open spec fn front(self) -> int {
        if self.sections.len() == 0 {
            0
        } else {
            self.sections.last().hdr + SECTION_HEADER
        }
    }

    /// The size of a thunk.
    pub open spec fn thunk(self) -> int {
        if self.is64 {
            8
        } else {
            4
        }
    }
}

fn read_section(d: &[u8], h: u64) -> (s: Sec)
    requires
        h + SECTION_HEADER <= d@.len(),
    ensures
        s.deep_view() == section_at(d@, h as int),
{
    let end: usize = d.len();
    let head = slice_subrange(d, h as usize, end);
    let raw = slice_subrange(head, 0, 8);
    assert(raw@ =~= d@.subrange(h as int, h + 8));
    Sec {
        hdr: h,
        name: section_name(raw),
        vs: le::u32_at(head, 8),
        va: le::u32_at(head, 12),
        rs: le::u32_at(head, 16),
        ro: le::u32_at(head, 20),
    }
}

fn read_optional(d: &[u8], opt: u64) -> (r: Result<(bool, u64, u32), BadImage>)
    requires
        opt <= 0x1_0000_0100,
    ensures
        match r {
            Ok(x) => optional_at(d@, opt as int) == Ok::<(bool, u64, u32), Seq<char>>(x),
            Err(e) => optional_at(d@, opt as int) == Err::<(bool, u64, u32), Seq<char>>(e.message@),
        },
{
    let magic: u16 = match read16(d, opt) {
        Some(m) => m,
        None => {
            return Err(bad("truncated optional header"));
        },
    };
    if magic != 0x20B && magic != 0x10B {
        return Err(bad("unsupported optional header magic"));
    }
    let is64: bool = magic == 0x20B;
    let image_base: u64 = if is64 {
        match read64(d, opt + 0x18) {
            Some(b) => b,
            None => {
                return Err(bad("truncated PE32+ header"));
            },
        }
    } else {
        match read32(d, opt + 0x1C) {
            Some(b) => b as u64,
            None => {
                return Err(bad("truncated PE32 header"));
            },
        }
    };
    match read32(d, opt + 16) {
        Some(aep) => Ok((is64, image_base, aep)),
        None => Err(bad("truncated optional header")),
    }
}

impl Pe {
    /// Read the headers of a file.
    pub fn parse(data: &[u8]) -> (r: Result<Pe, BadImage>)
        ensures
            match r {
                Ok(pe) => headers(data@) == Ok::<PeV, Seq<char>>(pe.deep_view())
                    && pe.deep_view().wf(),
                Err(e) => headers(data@) == Err::<PeV, Seq<char>>(e.message@),
            },
    {
        if data.len() < 0x40 || data[0] != 0x4D || data[1] != 0x5A {
            return Err(bad("not a PE image (missing MZ)"));
        }
        let e: u64 = le::u32_at(data, 0x3C) as u64;
        let coff: u64 = e + 4;
        let mark: Vec<u8> = vec![0x50u8, 0x45, 0, 0];
        assert(mark@ =~= seq![0x50u8, 0x45, 0, 0]);
        if e > data.len() as u64 || !le::matches_at(data, e as usize, mark.as_slice()) {
            return Err(bad("missing PE signature"));
        }
        let count: u16 = match read16(data, coff + 2) {
            Some(n) => n,
            None => {
                return Err(bad("truncated COFF header"));
            },
        };
        let size_opt: u16 = match read16(data, coff + 16) {
            Some(n) => n,
            None => {
                return Err(bad("truncated COFF header"));
            },
        };
        let opt: u64 = coff + 20;
        let (is64, image_base, aep) = match read_optional(data, opt) {
            Ok(x) => x,
            Err(e) => {
                return Err(e);
            },
        };
        let dd: u64 = opt + if is64 {
            0x70
        } else {
            0x60
        };
        let table: u64 = opt + size_opt as u64;
        let ghost all = sections_at(data@, table as int, count as nat);
        let mut sections: Vec<Sec> = Vec::new();
        let mut i: u64 = 0;
        assert(sections.deep_view() =~= all.take(0));
        while i < count as u64
            invariant
                i <= count,
                e <= 0xFFFF_FFFF,
                coff == e + 4,
                opt == coff + 20,
                table == opt + size_opt,
                all == sections_at(data@, table as int, count as nat),
                sections.deep_view() == all.take(i as int),
                i > 0 ==> table + SECTION_HEADER * i <= data@.len(),
                data@.len() >= 0x40,
                data@[0] == 0x4D,
                data@[1] == 0x5A,
                e == le::le32(data@, 0x3C),
                le::occurs_at(data@, e as int, seq![0x50u8, 0x45, 0, 0]),
                at16(data@, coff + 2) == Some(count),
                at16(data@, coff + 16) == Some(size_opt),
                optional_at(data@, opt as int) is Ok,
            decreases count - i,
        {
            let h: u64 = table + i * SECTION_HEADER;
            if h + SECTION_HEADER > data.len() as u64 {
                return Err(bad("truncated section table"));
            }
            let ghost before = sections.deep_view();
            let s = read_section(data, h);
            let ghost sv = s.deep_view();
            sections.push(s);
            i += 1;
            proof {
                assert(sections.deep_view() =~= before.push(sv));
                assert(sections.deep_view() =~= all.take(i as int));
            }
        }
        proof {
            assert(all.take(i as int) =~= all);
            assert forall|k: int| 0 <= k < all.len() implies (#[trigger] all[k]).hdr <= 0x1_1000_0000 by {
                assert(all[k] == section_at(data@, table + SECTION_HEADER * k));
            }
        }
        Ok(Pe { coff, is64, dd, image_base, aep, sections })
    }

    /// The number of the first section of the name.
    pub fn place_of(&self, name: &str) -> (r: Option<usize>)
        ensures
            match r {
                Some(i) => i < self.sections@.len() && self.deep_view().named(name@) == Some(
                    self.deep_view().sections[i as int],
                ),
                None => self.deep_view().named(name@) is None,
            },
    {
        let ghost sv = self.sections.deep_view();
        let mut i: usize = 0;
        while i < self.sections.len()
            invariant
                sv == self.sections.deep_view(),
                i <= self.sections@.len(),
                named_from(sv, name@, 0) == named_from(sv, name@, i as int),
            decreases self.sections@.len() - i,
        {
            assert(sv[i as int] == self.sections@[i as int].deep_view());
            if same_text(self.sections[i].name.as_str(), name) {
                return Some(i);
            }
            i += 1;
        }
        None
    }

    /// The first section of the name.
    pub fn section(&self, name: &str) -> (r: Option<&Sec>)
        ensures
            match r {
                Some(s) => self.deep_view().named(name@) == Some(s.deep_view()),
                None => self.deep_view().named(name@) is None,
            },
    {
        match self.place_of(name) {
            Some(i) => {
                assert(self.deep_view().sections[i as int] == self.sections@[i as int].deep_view());
                Some(&self.sections[i])
            },
            None => None,
        }
    }

    /// Where the section headers end; zero where there is none.
    pub fn headers_end(&self) -> (n: u64)
        requires
            self.deep_view().wf(),
        ensures
            n == self.deep_view().front(),
    {
        let n: usize = self.sections.len();
        if n == 0 {
            0
        } else {
            let ghost sv = self.deep_view().sections;
            assert(sv[n - 1].hdr <= 0x1_1000_0000);
            assert(sv[n - 1] == self.sections@[n - 1].deep_view());
            self.sections[n - 1].hdr + SECTION_HEADER
        }
    }

    /// Where an address lies in the file.
    pub fn rva2off(&self, rva: u32) -> (r: Option<u64>)
        ensures
            match r {
                Some(o) => self.deep_view().offset(rva) == Some(o as int) && o < 0x2_0000_0000,
                None => self.deep_view().offset(rva) is None,
            },
    {
        let ghost sv = self.sections.deep_view();
        let mut i: usize = 0;
        while i < self.sections.len()
            invariant
                sv == self.sections.deep_view(),
                i <= self.sections@.len(),
                offset_from(sv, rva, 0) == offset_from(sv, rva, i as int),
            decreases self.sections@.len() - i,
        {
            let s = &self.sections[i];
            assert(sv[i as int] == s.deep_view());
            if s.rs != 0 && rva >= s.va && (rva as u64) < s.va as u64 + s.rs as u64 {
                return Some(s.ro as u64 + (rva - s.va) as u64);
            }
            i += 1;
        }
        None
    }
}

}
