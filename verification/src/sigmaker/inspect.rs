//! Deep analysis of one function: everything the engine computes about the function around an address,
//! in one read-only bundle, built from the same parts that the relocation anchors use. It shows why a
//! relocation did or did not work.

use crate::ordered;
use crate::pattern::Arch;
use crate::sigmaker::decode;
use crate::sigmaker::decode::bitness;
use crate::le::tail_of;
use crate::sigmaker::identity;
use crate::sigmaker::identity::fn_identity;
use crate::sigmaker::imports;
use crate::sigmaker::imports::{api_map, import_set};
use crate::sigmaker::model;
use crate::sigmaker::model::{AnalysisModel, CallEdge};
use crate::sigmaker::relocate;
use crate::sigmaker::strings;
use crate::sigmaker::strings::{enclosing_function, make_string_anchor, xrefs_capped};
use crate::sigmaker::tables;
use crate::sigmaker::tables::membership;
use crate::sigmaker::types::{starting, ImageInput};
use crate::text;
use crate::text::spaced_hex;
use crate::maps::sort_unique;
use crate::x86;
use crate::x86::Flow;
use vstd::prelude::*;
use vstd::slice::slice_subrange;
use vstd::string::*;

verus! {

/// How many instructions a listing shows.
pub const DISASM_MAX_INSTRS: usize = 200;

/// How many bytes a listing looks at.
pub const DISASM_BYTES: usize = 1600;

/// One decoded instruction of a listing.
#[derive(Clone, Debug)]
pub struct DisasmLine {
    pub rva: u64,
    pub bytes: String,
    pub text: String,
}

/// A [`DisasmLine`] by its content.
#[verifier::ext_equal]
pub struct DisasmLineV {
    pub rva: u64,
    pub bytes: Seq<char>,
    pub text: Seq<char>,
}

impl DeepView for DisasmLine {
    type V = DisasmLineV;

    open spec fn deep_view(&self) -> DisasmLineV {
        DisasmLineV { rva: self.rva, bytes: self.bytes@, text: self.text@ }
    }
}

/// The vtable that a virtual method is dispatched from.
#[derive(Clone, Debug)]
pub struct VtableInsight {
    pub table_rva: u64,
    pub slot: usize,
    pub slot_count: usize,
    /// The MSVC RTTI class name when the chain is navigable.
    pub class_name: Option<String>,
}

/// A [`VtableInsight`] by its content.
#[verifier::ext_equal]
pub struct VtableInsightV {
    pub table_rva: u64,
    pub slot: usize,
    pub slot_count: usize,
    pub class_name: Option<Seq<char>>,
}

impl DeepView for VtableInsight {
    type V = VtableInsightV;

    open spec fn deep_view(&self) -> VtableInsightV {
        VtableInsightV {
            table_rva: self.table_rva,
            slot: self.slot,
            slot_count: self.slot_count,
            class_name: self.class_name.deep_view(),
        }
    }
}

/// The analysis of the function around an address.
#[derive(Clone, Debug)]
pub struct FunctionInsight {
    /// The address that was asked about.
    pub query_rva: u64,
    /// The entry of the function around it.
    pub entry_rva: u64,
    pub instr_count: usize,
    pub blocks: usize,
    pub calls: usize,
    pub branches: usize,
    pub returns: usize,
    /// Inbound references to the entry: branches by displacement, and ip-relative loads on x64.
    pub xref_count: usize,
    /// Distinctive immediate constants the function uses.
    pub constants: Vec<u64>,
    /// Strings the function refers to.
    pub strings: Vec<String>,
    /// Entries of the functions that call this one.
    pub callers: Vec<u64>,
    /// Functions this one calls directly.
    pub callees: Vec<u64>,
    /// Bare names of the imported functions this one calls directly, without their library.
    pub imports: Vec<String>,
    /// A string anchor for the function, when one isolates it.
    pub string_anchor: Option<String>,
    /// The vtable, when the function is a virtual method.
    pub vtable: Option<VtableInsight>,
    /// A listing from the entry to the first return.
    pub disasm: Vec<DisasmLine>,
}

/// A [`FunctionInsight`] by its content.
#[verifier::ext_equal]
pub struct FunctionInsightV {
    pub query_rva: u64,
    pub entry_rva: u64,
    pub instr_count: usize,
    pub blocks: usize,
    pub calls: usize,
    pub branches: usize,
    pub returns: usize,
    pub xref_count: usize,
    pub constants: Seq<u64>,
    pub strings: Seq<Seq<char>>,
    pub callers: Seq<u64>,
    pub callees: Seq<u64>,
    pub imports: Seq<Seq<char>>,
    pub string_anchor: Option<Seq<char>>,
    pub vtable: Option<VtableInsightV>,
    pub disasm: Seq<DisasmLineV>,
}

impl DeepView for FunctionInsight {
    type V = FunctionInsightV;

    open spec fn deep_view(&self) -> FunctionInsightV {
        FunctionInsightV {
            query_rva: self.query_rva,
            entry_rva: self.entry_rva,
            instr_count: self.instr_count,
            blocks: self.blocks,
            calls: self.calls,
            branches: self.branches,
            returns: self.returns,
            xref_count: self.xref_count,
            constants: self.constants@,
            strings: self.strings.deep_view(),
            callers: self.callers@,
            callees: self.callees@,
            imports: self.imports.deep_view(),
            string_anchor: self.string_anchor.deep_view(),
            vtable: self.vtable.deep_view(),
            disasm: self.disasm.deep_view(),
        }
    }
}

/// Addresses as they are reported.
pub open spec fn as_rvas(s: Seq<usize>) -> Seq<u64> {
    Seq::new(s.len(), |k: int| s[k] as u64)
}

/// The targets of the calls that the function at `entry` makes.
pub open spec fn calls_of(img: &ImageInput, edges: Seq<CallEdge>, entry: int) -> Seq<usize>
    decreases edges.len(),
{
    if edges.len() == 0 {
        Seq::empty()
    } else {
        let before = calls_of(img, edges.drop_last(), entry);
        if strings::enclosing(img, edges.last().site as int) == entry {
            before.push(edges.last().target)
        } else {
            before
        }
    }
}

/// The listing of the next `left` instructions of `b`, which is read at `entry`, from `pos` on, up to and
/// with the first return. What does not decode is passed over byte by byte.
pub open spec fn listing_from(
    img: &ImageInput,
    b: Seq<u8>,
    entry: int,
    pos: int,
    left: nat,
) -> Seq<DisasmLineV>
    decreases b.len() - pos,
{
    if left == 0 || !(0 <= pos < b.len()) {
        Seq::empty()
    } else {
        let bits = decode::mode(img.arch);
        let rest = b.skip(pos);
        let ip = (img.base + entry + pos) as u64;
        let h = x86::head_of(bits, rest, ip);
        if !decode::decodable(h, rest) {
            listing_from(img, b, entry, pos + 1, left)
        } else {
            let line = DisasmLineV {
                rva: (entry + pos) as u64,
                bytes: text::joined(text::hex_bytes(rest.take(h.len as int)), " "@),
                text: x86::nasm_of(bits, rest, ip),
            };
            if x86::flow_of(bits, rest, ip) == Flow::Return {
                seq![line]
            } else {
                seq![line] + listing_from(img, b, entry, pos + h.len, (left - 1) as nat)
            }
        }
    }
}

/// The listing of the function at `entry`.
pub open spec fn listing(img: &ImageInput, entry: int) -> Seq<DisasmLineV> {
    listing_from(
        img,
        img.bytes(img.base + entry, DISASM_BYTES as nat),
        entry,
        0,
        DISASM_MAX_INSTRS as nat,
    )
}

/// The analysis of the function around `rva`. The call graph, the imports and the vtable are looked at on
/// x86 only.
pub open spec fn insight_of(img: &ImageInput, rva: int) -> FunctionInsightV {
    let entry = strings::enclosing(img, rva);
    let id = identity::identity_at(img, entry);
    let refs = strings::references_to(img, img.base + entry, img.code_regions@.len() as int);
    FunctionInsightV {
        query_rva: rva as u64,
        entry_rva: entry as u64,
        instr_count: id.instr_count,
        blocks: id.blocks,
        calls: id.calls,
        branches: id.branches,
        returns: id.returns,
        xref_count: if refs <= usize::MAX {
            refs as usize
        } else {
            usize::MAX
        },
        constants: id.constants,
        strings: id.strings,
        callers: if img.arch == Arch::X86 {
            as_rvas(model::callers_among(img, model::all_calls(img), entry as usize))
        } else {
            Seq::empty()
        },
        callees: if img.arch == Arch::X86 {
            as_rvas(
                ordered::sorted_set(
                    calls_of(img, model::all_calls(img), entry),
                    ordered::rising(),
                ),
            )
        } else {
            Seq::empty()
        },
        imports: if img.arch == Arch::X86 {
            imports::import_set_of(img, imports::api_names_of(img), entry)
        } else {
            Seq::empty()
        },
        string_anchor: match strings::string_anchor_of(img, entry) {
            Some(a) => Some(relocate::string_aob(a)),
            None => None,
        },
        vtable: if img.arch == Arch::X86 {
            vtable_of(img, entry)
        } else {
            None
        },
        disasm: listing(img, entry),
    }
}

/// The vtable that the function at `entry` is a method of.
pub open spec fn vtable_of(img: &ImageInput, entry: int) -> Option<VtableInsightV> {
    match tables::membership_of(img, entry as usize) {
        Some((table, slot, slots, class)) => Some(
            VtableInsightV {
                table_rva: table as u64,
                slot,
                slot_count: slots,
                class_name: class,
            },
        ),
        None => None,
    }
}

fn find_vtable(img: &ImageInput, entry: usize) -> (r: Option<VtableInsight>)
    requires
        img.wf(),
        img.reaches(entry as int),
    ensures
        r.deep_view() == vtable_of(img, entry as int),
{
    match membership(img, entry) {
        Some((table, slot, slot_count, class_name)) => Some(
            VtableInsight { table_rva: table as u64, slot, slot_count, class_name },
        ),
        None => None,
    }
}

struct Links {
    callers: Vec<u64>,
    callees: Vec<u64>,
    imports: Vec<String>,
    vtable: Option<VtableInsight>,
}

fn find_links(img: &ImageInput, entry: usize) -> (l: Links)
    requires
        img.wf(),
        img.reaches(entry as int),
    ensures
        l.callers@ == as_rvas(model::callers_among(img, model::all_calls(img), entry)),
        l.callees@ == as_rvas(
            ordered::sorted_set(
                calls_of(img, model::all_calls(img), entry as int),
                ordered::rising(),
            ),
        ),
        l.imports.deep_view() == imports::import_set_of(
            img,
            imports::api_names_of(img),
            entry as int,
        ),
        l.vtable.deep_view() == vtable_of(img, entry as int),
{
    let model = AnalysisModel::build(img);
    let callers = report_rvas(&model.callers_of(img, entry));
    let callees = report_rvas(&list_callees(img, &model, entry));
    let imports = import_set(img, &api_map(img), entry);
    Links { callers, callees, imports, vtable: find_vtable(img, entry) }
}

fn report_rvas(s: &Vec<usize>) -> (v: Vec<u64>)
    ensures
        v@ == as_rvas(s@),
{
    let mut v: Vec<u64> = Vec::new();
    let mut k: usize = 0;
    while k < s.len()
        invariant
            k <= s@.len(),
            v@ == as_rvas(s@).take(k as int),
        decreases s@.len() - k,
    {
        v.push(s[k] as u64);
        k += 1;
        assert(v@ =~= as_rvas(s@).take(k as int));
    }
    assert(v@ =~= as_rvas(s@));
    v
}

fn list_callees(img: &ImageInput, model: &AnalysisModel, entry: usize) -> (v: Vec<usize>)
    requires
        model::edges_reach(img, model.edges@),
    ensures
        v@ == ordered::sorted_set(calls_of(img, model.edges@, entry as int), ordered::rising()),
{
    let mut all: Vec<usize> = Vec::new();
    let edges = model.call_sites();
    let mut i: usize = 0;
    assert(edges@.take(0) =~= Seq::<CallEdge>::empty());
    while i < edges.len()
        invariant
            model::edges_reach(img, edges@),
            i <= edges@.len(),
            all@ == calls_of(img, edges@.take(i as int), entry as int),
        decreases edges@.len() - i,
    {
        assert(edges@.take(i + 1).drop_last() =~= edges@.take(i as int));
        assert(img.reaches(edges@[i as int].site as int));
        if enclosing_function(img, edges[i].site) == entry {
            all.push(edges[i].target);
        }
        i += 1;
    }
    assert(edges@.take(i as int) =~= edges@);
    sort_unique(&all)
}

/// Decode and format the function from `entry` to its first return, passing over one byte on an invalid
/// decode so that a data island cannot derail the listing.
fn disassemble(img: &ImageInput, entry: usize) -> (out: Vec<DisasmLine>)
    requires
        img.reaches(entry as int),
    ensures
        out.deep_view() == listing(img, entry as int),
{
    let bits: u32 = bitness(img.arch);
    let start: usize = img.base + entry;
    let b = img.read(start, DISASM_BYTES);
    let mut out: Vec<DisasmLine> = Vec::new();
    let ghost all = listing(img, entry as int);
    let mut pos: usize = 0;
    let mut left: usize = DISASM_MAX_INSTRS;
    assert(out.deep_view() =~= Seq::<DisasmLineV>::empty());
    assert(out.deep_view() + all =~= all);
    while left > 0 && pos < b.len()
        invariant
            bits == decode::mode(img.arch),
            x86::is_mode(bits),
            start == img.base + entry,
            start + b@.len() <= usize::MAX,
            pos <= b@.len(),
            all == listing(img, entry as int),
            all == out.deep_view() + listing_from(img, b@, entry as int, pos as int, left as nat),
        decreases b@.len() - pos,
    {
        let rest = tail_of(b.as_slice(), pos);
        let ip: u64 = (start + pos) as u64;
        let h = x86::head(bits, rest, ip);
        if h.invalid || h.len == 0 || h.len > rest.len() {
            pos += 1;
        } else {
            let ghost before = out.deep_view();
            let ghost more = listing_from(
                img,
                b@,
                entry as int,
                pos + h.len,
                (left - 1) as nat,
            );
            let raw = slice_subrange(rest, 0, h.len);
            assert(raw@ =~= rest@.take(h.len as int));
            let line = DisasmLine {
                rva: (entry + pos) as u64,
                bytes: spaced_hex(raw),
                text: x86::nasm(bits, rest, ip),
            };
            let ghost lv = line.deep_view();
            out.push(line);
            assert(out.deep_view() =~= before.push(lv));
            if x86::flow(bits, rest, ip) == Flow::Return {
                assert(out.deep_view() =~= before + seq![lv]);
                return out;
            }
            assert(out.deep_view() + more =~= before + (seq![lv] + more));
            pos += h.len;
            left -= 1;
        }
    }
    assert(out.deep_view() =~= all);
    out
}

/// Analyse the function around `rva`. The structural fields resolve for any code address; the fields of
/// the single anchors are filled where they apply. The call graph, the imports and the vtable decline on
/// x64; the listing works at any bitness.
pub fn inspect_function(img: &ImageInput, rva: usize) -> (r: FunctionInsight)
    requires
        img.wf(),
        img.reaches(rva as int),
    ensures
        r.deep_view() == insight_of(img, rva as int),
{
    let entry: usize = enclosing_function(img, rva);
    let id = fn_identity(img, entry);
    let links: Links = if img.arch == Arch::X86 {
        find_links(img, entry)
    } else {
        let none: Vec<String> = Vec::new();
        assert(none.deep_view() =~= Seq::<Seq<char>>::empty());
        Links { callers: Vec::new(), callees: Vec::new(), imports: none, vtable: None }
    };
    let string_anchor: Option<String> = match make_string_anchor(img, entry) {
        Some(a) => {
            let mut s = starting("@string=");
            s.append(a.text.as_str());
            if let Some(also) = &a.also {
                s.append(" @also=");
                s.append(also.as_str());
            }
            Some(s)
        },
        None => None,
    };
    let xref_count: usize = xrefs_capped(img, entry);
    let disasm = disassemble(img, entry);
    let r = FunctionInsight {
        query_rva: rva as u64,
        entry_rva: entry as u64,
        instr_count: id.instr_count,
        blocks: id.blocks,
        calls: id.calls,
        branches: id.branches,
        returns: id.returns,
        xref_count,
        constants: id.constants,
        strings: id.strings,
        callers: links.callers,
        callees: links.callees,
        imports: links.imports,
        string_anchor,
        vtable: links.vtable,
        disasm,
    };
    assert(r.deep_view() =~= insight_of(img, rva as int));
    r
}

}
