//! Import-set anchored relocation: find the same function across builds by the distinctive set of
//! imported APIs it calls.
//!
//! Imported API names are recompile-stable (they are fixed by the DLLs the program links against), so a
//! function that calls a distinctive set of them is identifiable in any build by that set even when its
//! bytes, mnemonic stream and encoding have all been rewritten by a recompile. An anchor resolves only
//! where its set pins exactly one function; an ambiguous or absent set declines.

use crate::le;
use crate::le::{get_u32, get_u64, tail_of};
use crate::ordered;
use crate::ordered::insert_text;
use crate::pattern::Arch;
use crate::sigmaker::callers::{SCAN_BYTES, SCAN_INSTRS};
use crate::sigmaker::decode;
use crate::sigmaker::decode::{bitness, has_memory};
use crate::sigmaker::identity;
use crate::sigmaker::model;
use crate::sigmaker::model::AnalysisModel;
use crate::sigmaker::types::ImageInput;
use crate::text;
use crate::text::{push_dec, same_text};
use crate::x86;
use crate::x86::Flow;
use std::collections::BTreeMap;
use vstd::prelude::*;
use vstd::string::*;

verus! {

broadcast use vstd::laws_cmp::group_laws_cmp;

/// The recompile-stable identity of a function as the set of imported API names it calls directly.
pub struct ImportAnchor {
    pub names: Vec<String>,
}

impl DeepView for ImportAnchor {
    type V = Seq<Seq<char>>;

    open spec fn deep_view(&self) -> Seq<Seq<char>> {
        self.names.deep_view()
    }
}

/// Below this many distinct imports a set does not pin one function: a lone `GetLastError` recurs in
/// thousands of functions.
pub const MIN_IMPORTS: usize = 2;

/// The most descriptors, and the most thunks of one descriptor, that are read.
pub const MAX_IMPORTS: usize = 8192;

/// The longest an imported name is read.
pub const NAME_MAX: usize = 128;

/// A read of `len` bytes at the address stays in the address space, and the address is not below the
/// image.
pub open spec fn readable(img: &ImageInput, abs: int, len: int) -> bool {
    img.base <= abs && abs + len <= usize::MAX
}

/// The four-byte number at an address.
pub open spec fn word_at(img: &ImageInput, abs: int) -> Option<u64> {
    let b = img.bytes(abs, 4);
    if readable(img, abs, 4) && b.len() == 4 {
        Some(le::le32(b, 0) as u64)
    } else {
        None
    }
}

/// The eight-byte number at an address.
pub open spec fn quad_at(img: &ImageInput, abs: int) -> Option<u64> {
    let b = img.bytes(abs, 8);
    if readable(img, abs, 8) && b.len() == 8 {
        Some(le::le64(b, 0) as u64)
    } else {
        None
    }
}

/// The printable text at an address.
pub open spec fn name_at(img: &ImageInput, abs: int) -> Seq<char> {
    if readable(img, abs, NAME_MAX as int) {
        identity::ascii_run(img.bytes(abs, NAME_MAX as nat), 0, NAME_MAX as nat)
    } else {
        Seq::empty()
    }
}

/// The number at an address, zero where there is none.
pub open spec fn word_or_zero(img: &ImageInput, abs: int) -> u64 {
    match word_at(img, abs) {
        Some(v) => v,
        None => 0,
    }
}

/// The width of a thunk.
pub open spec fn thunk_width(arch: Arch) -> int {
    if arch == Arch::X64 {
        8
    } else {
        4
    }
}

/// The thunk at an address.
pub open spec fn thunk_at(img: &ImageInput, abs: int) -> Option<u64> {
    if img.arch == Arch::X64 {
        quad_at(img, abs)
    } else {
        word_at(img, abs)
    }
}

/// Whether a thunk names its import by number.
pub open spec fn by_ordinal(arch: Arch, t: u64) -> bool {
    if arch == Arch::X64 {
        t & 0x8000_0000_0000_0000 != 0
    } else {
        t & 0x8000_0000 != 0
    }
}

/// The bare name of an import: its ordinal, or the name behind the hint.
pub open spec fn api_name(img: &ImageInput, t: u64) -> Seq<char> {
    if by_ordinal(img.arch, t) {
        "#"@ + text::dec((t & 0xFFFF) as nat)
    } else {
        name_at(img, img.base + (t & 0x7FFF_FFFF) + 2)
    }
}

/// The name of an import of a library: bare, or with the library in front.
pub open spec fn import_name(img: &ImageInput, dll: Seq<char>, t: u64, bare: bool) -> Seq<char> {
    if bare {
        api_name(img, t)
    } else {
        dll + "!"@ + api_name(img, t)
    }
}

/// `m` with the imports of one library from its thunk `i` on: the lookup table starts at `int_at`, the
/// address table at `slots`.
pub open spec fn thunks_from(
    img: &ImageInput,
    m: Map<usize, Seq<char>>,
    dll: Seq<char>,
    int_at: int,
    slots: int,
    bare: bool,
    i: nat,
) -> Map<usize, Seq<char>>
    decreases MAX_IMPORTS - i,
{
    let w = thunk_width(img.arch);
    if i >= MAX_IMPORTS || slots + i * w > usize::MAX {
        m
    } else {
        match thunk_at(img, int_at + i * w) {
            None => m,
            Some(t) => if t == 0 {
                m
            } else {
                thunks_from(
                    img,
                    m.insert((slots + i * w) as usize, import_name(img, dll, t, bare)),
                    dll,
                    int_at,
                    slots,
                    bare,
                    i + 1,
                )
            },
        }
    }
}

/// `m` with the imports of the libraries from the descriptor at `desc` on, `left` of them at most.
pub open spec fn descriptors_from(
    img: &ImageInput,
    m: Map<usize, Seq<char>>,
    desc: int,
    end: int,
    bare: bool,
    left: nat,
) -> Map<usize, Seq<char>>
    decreases left,
{
    if left == 0 || desc + 20 > end {
        m
    } else {
        let lookup = word_or_zero(img, desc);
        let first = word_or_zero(img, desc + 0x10);
        if lookup == 0 && first == 0 {
            m
        } else {
            let dll = name_at(img, img.base + word_or_zero(img, desc + 0x0C));
            let table = if lookup != 0 {
                lookup
            } else {
                first
            };
            descriptors_from(
                img,
                thunks_from(img, m, dll, img.base + table, img.base + first, bare, 0),
                desc + 20,
                end,
                bare,
                (left - 1) as nat,
            )
        }
    }
}

/// The names of the image's imports by the address of their slot, bare or with their library.
pub open spec fn imports_named(img: &ImageInput, bare: bool) -> Map<usize, Seq<char>> {
    match img.import {
        None => Map::empty(),
        Some((start, end)) => descriptors_from(
            img,
            Map::empty(),
            start as int,
            end as int,
            bare,
            MAX_IMPORTS as nat,
        ),
    }
}

/// The names of the image's imports with their libraries, by the address of their slot.
pub open spec fn imports_of(img: &ImageInput) -> Map<usize, Seq<char>> {
    imports_named(img, false)
}

/// The bare names of the image's imports, by the address of their slot.
pub open spec fn api_names_of(img: &ImageInput) -> Map<usize, Seq<char>> {
    imports_named(img, true)
}

/// A map of names by their content.
pub open spec fn named(m: Map<usize, String>) -> Map<usize, Seq<char>> {
    m.map_values(|s: String| s@)
}

fn can_read(img: &ImageInput, abs: u128, len: usize) -> (r: bool)
    ensures
        r == readable(img, abs as int, len as int),
{
    img.base as u128 <= abs && abs <= (usize::MAX - len) as u128
}

fn rd32(img: &ImageInput, abs: u128) -> (r: Option<u64>)
    ensures
        r == word_at(img, abs as int),
        r matches Some(v) ==> v <= 0xFFFF_FFFF,
{
    if !can_read(img, abs, 4) {
        return None;
    }
    let b = img.read(abs as usize, 4);
    match get_u32(b.as_slice(), 0) {
        Some(v) => Some(v as u64),
        None => None,
    }
}

fn rd64(img: &ImageInput, abs: u128) -> (r: Option<u64>)
    ensures
        r == quad_at(img, abs as int),
{
    if !can_read(img, abs, 8) {
        return None;
    }
    let b = img.read(abs as usize, 8);
    get_u64(b.as_slice(), 0)
}

fn cstr(img: &ImageInput, abs: u128) -> (s: String)
    ensures
        s@ == name_at(img, abs as int),
{
    let mut s = String::new();
    if !can_read(img, abs, NAME_MAX) {
        assert(s@ =~= name_at(img, abs as int));
        return s;
    }
    let b = img.read(abs as usize, NAME_MAX);
    let ghost all = identity::ascii_run(b@, 0, NAME_MAX as nat);
    let mut n: usize = 0;
    assert(s@ + all =~= all);
    while n < NAME_MAX && n < b.len() && 0x20 <= b[n] && b[n] <= 0x7E
        invariant
            n <= NAME_MAX,
            n <= b@.len(),
            s@ + identity::ascii_run(b@, n as int, (NAME_MAX - n) as nat) == all,
        decreases NAME_MAX - n,
    {
        let ghost before = s@;
        let ghost rest = identity::ascii_run(b@, n + 1, (NAME_MAX - n - 1) as nat);
        s.push(b[n] as char);
        n += 1;
        assert(before + (seq![b@[n - 1] as char] + rest) =~= s@ + rest);
    }
    assert(s@ =~= all);
    s
}

fn name_import(img: &ImageInput, dll: &String, t: u64, bare: bool) -> (s: String)
    ensures
        s@ == import_name(img, dll@, t, bare),
{
    let ordinal: bool = if img.arch == Arch::X64 {
        t & 0x8000_0000_0000_0000 != 0
    } else {
        t & 0x8000_0000 != 0
    };
    let mut api = String::new();
    if ordinal {
        api.append("#");
        push_dec(&mut api, t & 0xFFFF);
    } else {
        let name = cstr(img, img.base as u128 + (t & 0x7FFF_FFFF) as u128 + 2);
        api.append(name.as_str());
    }
    assert(api@ =~= api_name(img, t));
    if bare {
        return api;
    }
    let mut s = dll.clone();
    s.append("!");
    s.append(api.as_str());
    s
}

fn add_thunks(
    img: &ImageInput,
    out: &mut BTreeMap<usize, String>,
    dll: &String,
    table: u64,
    first: u64,
    bare: bool,
)
    requires
        table <= 0xFFFF_FFFF,
        first <= 0xFFFF_FFFF,
    ensures
        named(final(out)@) == thunks_from(
            img,
            named(old(out)@),
            dll@,
            img.base + table,
            img.base + first,
            bare,
            0,
        ),
{
    let w: u128 = if img.arch == Arch::X64 {
        8
    } else {
        4
    };
    let int_at: u128 = img.base as u128 + table as u128;
    let slots: u128 = img.base as u128 + first as u128;
    let ghost all = thunks_from(img, named(out@), dll@, int_at as int, slots as int, bare, 0);
    let mut i: usize = 0;
    while i < MAX_IMPORTS && slots + i as u128 * w <= usize::MAX as u128
        invariant
            w == thunk_width(img.arch),
            int_at == img.base + table,
            slots == img.base + first,
            i <= MAX_IMPORTS,
            all == thunks_from(img, named(out@), dll@, int_at as int, slots as int, bare, i as nat),
            all == thunks_from(img, named(old(out)@), dll@, int_at as int, slots as int, bare, 0),
        decreases MAX_IMPORTS - i,
    {
        assert(i * w <= MAX_IMPORTS * 8) by (nonlinear_arith)
            requires
                i <= MAX_IMPORTS,
                w <= 8,
        ;
        let at: u128 = int_at + i as u128 * w;
        let t: Option<u64> = if img.arch == Arch::X64 {
            rd64(img, at)
        } else {
            rd32(img, at)
        };
        let t: u64 = match t {
            Some(t) => t,
            None => {
                return;
            },
        };
        if t == 0 {
            return;
        }
        let slot: usize = (slots + i as u128 * w) as usize;
        let name = name_import(img, dll, t, bare);
        let ghost before = out@;
        out.insert(slot, name);
        assert(named(out@) =~= named(before).insert(slot, name@));
        i += 1;
    }
}

/// Parse the PE32 or PE32+ import directory into names by the address of their slot. Every loop is bounded
/// so that a malformed directory cannot spin or read out of range. The descriptor layout is the same for
/// both; only the thunk width (4 or 8 bytes) and the import-by-ordinal flag (bit 31 or bit 63) differ.
fn read_imports(img: &ImageInput, bare: bool) -> (out: BTreeMap<usize, String>)
    ensures
        named(out@) == imports_named(img, bare),
{
    let mut out: BTreeMap<usize, String> = BTreeMap::new();
    assert(named(out@) =~= Map::<usize, Seq<char>>::empty());
    let (start, end): (usize, usize) = match img.import {
        None => {
            return out;
        },
        Some(span) => span,
    };
    let mut desc: u128 = start as u128;
    let mut left: usize = MAX_IMPORTS;
    while left > 0 && desc + 20 <= end as u128
        invariant
            desc <= 0x1_0000_0000_0000_0000,
            imports_named(img, bare) == descriptors_from(
                img,
                named(out@),
                desc as int,
                end as int,
                bare,
                left as nat,
            ),
        decreases left,
    {
        let lookup: u64 = match rd32(img, desc) {
            Some(v) => v,
            None => 0,
        };
        let name_rva: u64 = match rd32(img, desc + 0x0C) {
            Some(v) => v,
            None => 0,
        };
        let first: u64 = match rd32(img, desc + 0x10) {
            Some(v) => v,
            None => 0,
        };
        if lookup == 0 && first == 0 {
            return out;
        }
        let dll = cstr(img, img.base as u128 + name_rva as u128);
        let table: u64 = if lookup != 0 {
            lookup
        } else {
            first
        };
        add_thunks(img, &mut out, &dll, table, first, bare);
        desc += 20;
        left -= 1;
    }
    out
}

/// The imports of the image as `dll!func`, by the address of their slot.
pub fn import_map(img: &ImageInput) -> (out: BTreeMap<usize, String>)
    ensures
        named(out@) == imports_of(img),
{
    read_imports(img, false)
}

/// The imports of the image by their bare names, by the address of their slot.
pub fn api_map(img: &ImageInput) -> (out: BTreeMap<usize, String>)
    ensures
        named(out@) == api_names_of(img),
{
    read_imports(img, true)
}

/// The name with a library is the bare name with that library in front.
pub open spec fn led_by_library(full: Seq<char>, bare: Seq<char>) -> bool {
    exists|dll: Seq<char>| full == #[trigger] (dll + "!"@) + bare
}

/// The same slots, named with and without the library.
pub open spec fn named_alike(full: Map<usize, Seq<char>>, bare: Map<usize, Seq<char>>) -> bool {
    &&& full.dom() == bare.dom()
    &&& forall|slot: usize| #[trigger]
        full.contains_key(slot) ==> led_by_library(full[slot], bare[slot])
}

proof fn thunks_named_alike(
    img: &ImageInput,
    full: Map<usize, Seq<char>>,
    bare: Map<usize, Seq<char>>,
    dll: Seq<char>,
    int_at: int,
    slots: int,
    i: nat,
)
    requires
        named_alike(full, bare),
    ensures
        named_alike(
            thunks_from(img, full, dll, int_at, slots, false, i),
            thunks_from(img, bare, dll, int_at, slots, true, i),
        ),
    decreases MAX_IMPORTS - i,
{
    let w = thunk_width(img.arch);
    if i < MAX_IMPORTS && slots + i * w <= usize::MAX {
        if let Some(t) = thunk_at(img, int_at + i * w) {
            if t != 0 {
                let slot = (slots + i * w) as usize;
                let f = full.insert(slot, import_name(img, dll, t, false));
                let b = bare.insert(slot, import_name(img, dll, t, true));
                assert(f.dom() =~= b.dom());
                assert forall|x: usize| #[trigger] f.contains_key(x) implies led_by_library(
                    f[x],
                    b[x],
                ) by {
                    if x == slot {
                        assert(f[x] == (dll + "!"@) + b[x]);
                    } else {
                        assert(full.contains_key(x));
                    }
                }
                thunks_named_alike(img, f, b, dll, int_at, slots, i + 1);
            }
        }
    }
}

proof fn descriptors_named_alike(
    img: &ImageInput,
    full: Map<usize, Seq<char>>,
    bare: Map<usize, Seq<char>>,
    desc: int,
    end: int,
    left: nat,
)
    requires
        named_alike(full, bare),
    ensures
        named_alike(
            descriptors_from(img, full, desc, end, false, left),
            descriptors_from(img, bare, desc, end, true, left),
        ),
    decreases left,
{
    if left > 0 && desc + 20 <= end {
        let lookup = word_or_zero(img, desc);
        let first = word_or_zero(img, desc + 0x10);
        if lookup != 0 || first != 0 {
            let dll = name_at(img, img.base + word_or_zero(img, desc + 0x0C));
            let table = if lookup != 0 {
                lookup
            } else {
                first
            };
            thunks_named_alike(img, full, bare, dll, img.base + table, img.base + first, 0);
            descriptors_named_alike(
                img,
                thunks_from(img, full, dll, img.base + table, img.base + first, false, 0),
                thunks_from(img, bare, dll, img.base + table, img.base + first, true, 0),
                desc + 20,
                end,
                (left - 1) as nat,
            );
        }
    }
}

/// The same slots have a bare name and a name with a library, and the latter is the bare name with the
/// library in front, whatever characters the library's name holds.
pub proof fn bare_names_lack_only_the_library(img: &ImageInput)
    ensures
        named_alike(imports_of(img), api_names_of(img)),
{
    if let Some((start, end)) = img.import {
        descriptors_named_alike(
            img,
            Map::empty(),
            Map::empty(),
            start as int,
            end as int,
            MAX_IMPORTS as nat,
        );
    }
}

/// The slot an instruction calls or jumps through.
pub open spec fn slot_of(bits: u32, b: Seq<u8>, ip: u64) -> Option<usize> {
    let f = x86::flow_of(bits, b, ip);
    let m = x86::memory_of(bits, b, ip);
    if !(f == Flow::IndirectCall || f == Flow::IndirectBranch) || !decode::touches_memory(
        bits,
        b,
        ip,
        x86::head_of(bits, b, ip).operands as int,
    ) {
        None
    } else if m.ip_relative {
        Some(m.ip_address as usize)
    } else if m.no_base && m.no_index {
        Some(m.displacement as usize)
    } else {
        None
    }
}

/// `set` with the imports that the next `left` instructions of `b` call, which sits at `start`, up to
/// the first return.
pub open spec fn imports_from(
    bits: u32,
    m: Map<usize, Seq<char>>,
    set: Seq<Seq<char>>,
    b: Seq<u8>,
    start: int,
    pos: int,
    left: nat,
) -> Seq<Seq<char>>
    decreases left,
{
    if left == 0 || !(0 <= pos < b.len()) {
        set
    } else {
        let rest = b.skip(pos);
        let ip = (start + pos) as u64;
        let h = x86::head_of(bits, rest, ip);
        if !decode::decodable(h, rest) {
            set
        } else {
            let more = match slot_of(bits, rest, ip) {
                Some(slot) => if m.contains_key(slot) {
                    ordered::ins(set, m[slot], ordered::alphabetical())
                } else {
                    set
                },
                None => set,
            };
            if x86::flow_of(bits, rest, ip) == Flow::Return {
                more
            } else {
                imports_from(bits, m, more, b, start, pos + h.len, (left - 1) as nat)
            }
        }
    }
}

/// The names of the imports that the function at `rva` calls, in order.
pub open spec fn import_set_of(img: &ImageInput, m: Map<usize, Seq<char>>, rva: int) -> Seq<
    Seq<char>,
> {
    imports_from(
        decode::mode(img.arch),
        m,
        Seq::empty(),
        img.bytes(img.base + rva, SCAN_BYTES as nat),
        img.base + rva,
        0,
        SCAN_INSTRS as nat,
    )
}

/// The slot the instruction at the front of `b` calls or jumps through: `call [abs]` without base and
/// index register, or the `call [rip+disp]` form.
pub fn import_slot(bits: u32, b: &[u8], ip: u64) -> (r: Option<usize>)
    requires
        x86::is_mode(bits),
    ensures
        r == slot_of(bits, b@, ip),
{
    let f = x86::flow(bits, b, ip);
    if !(f == Flow::IndirectCall || f == Flow::IndirectBranch) {
        return None;
    }
    let h = x86::head(bits, b, ip);
    if !has_memory(bits, b, ip, h.operands) {
        return None;
    }
    let m = x86::memory(bits, b, ip);
    if m.ip_relative {
        Some(m.ip_address as usize)
    } else if m.no_base && m.no_index {
        Some(m.displacement as usize)
    } else {
        None
    }
}

/// The set of imported API names that the function at `rva` calls directly, in order, decoded to its
/// first return.
pub fn import_set(img: &ImageInput, map: &BTreeMap<usize, String>, rva: usize) -> (out: Vec<String>)
    requires
        img.reaches(rva as int),
    ensures
        out.deep_view() == import_set_of(img, named(map@), rva as int),
{
    let bits: u32 = bitness(img.arch);
    let start: usize = img.base + rva;
    let b = img.read(start, SCAN_BYTES);
    let mut out: Vec<String> = Vec::new();
    assert(out.deep_view() =~= Seq::<Seq<char>>::empty());
    let mut pos: usize = 0;
    let mut left: usize = SCAN_INSTRS;
    while left > 0 && pos < b.len()
        invariant
            bits == decode::mode(img.arch),
            x86::is_mode(bits),
            start + b@.len() <= usize::MAX,
            pos <= b@.len(),
            import_set_of(img, named(map@), rva as int) == imports_from(
                bits,
                named(map@),
                out.deep_view(),
                b@,
                start as int,
                pos as int,
                left as nat,
            ),
        decreases left,
    {
        let rest = tail_of(b.as_slice(), pos);
        let ip: u64 = (start + pos) as u64;
        let h = x86::head(bits, rest, ip);
        if h.invalid || h.len == 0 || h.len > rest.len() {
            return out;
        }
        if let Some(slot) = import_slot(bits, rest, ip) {
            if let Some(name) = map.get(&slot) {
                insert_text(&mut out, name.clone());
            }
        }
        if x86::flow(bits, rest, ip) == Flow::Return {
            return out;
        }
        pos += h.len;
        left -= 1;
    }
    out
}

/// The import anchor of the function at `rva`: the names of the imports it calls, where there are enough.
pub open spec fn import_anchor_of(img: &ImageInput, rva: int) -> Option<Seq<Seq<char>>> {
    let set = import_set_of(img, imports_of(img), rva);
    if set.len() >= MIN_IMPORTS {
        Some(set)
    } else {
        None
    }
}

/// Build an import anchor for the function at `rva`: the set of imports it calls directly, if it is
/// distinctive enough ([`MIN_IMPORTS`]). Uniqueness is validated where the anchor is resolved.
pub fn make_import_anchor(img: &ImageInput, rva: usize) -> (r: Option<ImportAnchor>)
    requires
        img.reaches(rva as int),
    ensures
        r.deep_view() == import_anchor_of(img, rva as int),
{
    let map = import_map(img);
    let set = import_set(img, &map, rva);
    if set.len() >= MIN_IMPORTS {
        Some(ImportAnchor { names: set })
    } else {
        None
    }
}

/// The functions among the first `n` entries that call exactly these imports.
pub open spec fn importers(
    img: &ImageInput,
    entries: Seq<usize>,
    want: Seq<Seq<char>>,
    n: int,
) -> Seq<usize>
    decreases n,
{
    if n <= 0 {
        Seq::empty()
    } else {
        let before = importers(img, entries, want, n - 1);
        if import_set_of(img, imports_of(img), entries[n - 1] as int) == want {
            before.push(entries[n - 1])
        } else {
            before
        }
    }
}

/// The only function whose imports are the named ones, in any order.
pub open spec fn import_anchored(img: &ImageInput, names: Seq<Seq<char>>) -> Option<usize> {
    let entries = ordered::sorted_set(model::targets(model::all_calls(img)), ordered::rising());
    let found = importers(
        img,
        entries,
        ordered::sorted_set(names, ordered::alphabetical()),
        entries.len() as int,
    );
    if found.len() == 1 {
        Some(found[0])
    } else {
        None
    }
}

fn same_texts(a: &Vec<String>, b: &Vec<String>) -> (r: bool)
    ensures
        r == (a.deep_view() == b.deep_view()),
{
    if a.len() != b.len() {
        assert(a.deep_view().len() != b.deep_view().len());
        return false;
    }
    let mut i: usize = 0;
    while i < a.len()
        invariant
            a@.len() == b@.len(),
            i <= a@.len(),
            forall|k: int| 0 <= k < i ==> a.deep_view()[k] == b.deep_view()[k],
        decreases a@.len() - i,
    {
        if !same_text(a[i].as_str(), b[i].as_str()) {
            assert(a.deep_view()[i as int] != b.deep_view()[i as int]);
            return false;
        }
        assert(a.deep_view()[i as int] == b.deep_view()[i as int]);
        i += 1;
    }
    assert(a.deep_view() =~= b.deep_view());
    true
}

/// Resolve an import anchor to the single function in `img` whose direct import set equals it. `None` if
/// no function matches or more than one does: an ambiguous anchor declines rather than guess.
pub fn resolve_import_anchor(img: &ImageInput, anchor: &ImportAnchor) -> (r: Option<usize>)
    requires
        img.wf(),
    ensures
        r == import_anchored(img, anchor.names.deep_view()),
        r matches Some(f) ==> img.reaches(f as int),
{
    let map = import_map(img);
    let mut want: Vec<String> = Vec::new();
    let ghost nv = anchor.names.deep_view();
    let mut k: usize = 0;
    assert(nv.take(0) =~= Seq::<Seq<char>>::empty());
    assert(want.deep_view() =~= Seq::<Seq<char>>::empty());
    while k < anchor.names.len()
        invariant
            nv == anchor.names.deep_view(),
            k <= anchor.names@.len(),
            want.deep_view() == ordered::sorted_set(nv.take(k as int), ordered::alphabetical()),
        decreases anchor.names@.len() - k,
    {
        assert(nv.take(k + 1).drop_last() =~= nv.take(k as int));
        assert(nv.take(k + 1).last() == anchor.names@[k as int]@);
        insert_text(&mut want, anchor.names[k].clone());
        k += 1;
    }
    assert(nv.take(k as int) =~= nv);
    let model = AnalysisModel::build(img);
    let mut found: Option<usize> = None;
    let mut i: usize = 0;
    let ghost wv = want.deep_view();
    while i < model.entries.len()
        invariant
            img.wf(),
            model.models(img),
            named(map@) == imports_of(img),
            wv == want.deep_view(),
            nv == anchor.names.deep_view(),
            wv == ordered::sorted_set(nv, ordered::alphabetical()),
            i <= model.entries@.len(),
            match found {
                Some(f) => importers(img, model.entries@, wv, i as int) == seq![f] && img.reaches(
                    f as int,
                ),
                None => importers(img, model.entries@, wv, i as int) == Seq::<usize>::empty(),
            },
        decreases model.entries@.len() - i,
    {
        let rva: usize = model.entries[i];
        assert(img.reaches(model.entries@[i as int] as int));
        let set = import_set(img, &map, rva);
        if same_texts(&set, &want) {
            if found.is_some() {
                proof {
                    importers_grow(img, model.entries@, wv, i + 1, model.entries@.len() as int);
                }
                return None;
            }
            found = Some(rva);
            assert(importers(img, model.entries@, wv, i + 1) =~= seq![rva]);
        }
        i += 1;
    }
    found
}

proof fn importers_grow(img: &ImageInput, entries: Seq<usize>, want: Seq<Seq<char>>, a: int, b: int)
    requires
        a <= b,
    ensures
        importers(img, entries, want, a).len() <= importers(img, entries, want, b).len(),
    decreases b - a,
{
    if a < b {
        importers_grow(img, entries, want, a, b - 1);
    }
}

}
