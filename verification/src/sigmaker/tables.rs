//! The vtables of an image: runs of pointers into code, the thunks their slots go through, and the class
//! names that run-time type information gives them.

use crate::le;
use crate::le::{get_u32, get_u64, tail_of};
use crate::pattern::Arch;
use crate::sigmaker::decode;
use crate::sigmaker::decode::bitness;
use crate::sigmaker::strings;
use crate::sigmaker::types::{is_within, ImageInput};
use crate::text::is_utf8;
use crate::x86;
use crate::x86::{Arithmetic, Flow, Operand};
use vstd::prelude::*;
use vstd::utf8::*;

verus! {

/// A shorter run is not enumerated as a vtable.
pub const MIN_RUN: usize = 4;

/// A vtable: where its run starts and the functions its slots point at.
pub type TableV = (usize, Seq<usize>);

/// The width of a code pointer.
pub open spec fn pointer_width(arch: Arch) -> int {
    if arch == Arch::X64 {
        8
    } else {
        4
    }
}

/// The width of a code pointer.
pub fn ptr_size(arch: Arch) -> (r: usize)
    ensures
        r == pointer_width(arch),
{
    if arch == Arch::X64 {
        8
    } else {
        4
    }
}

/// The pointer at offset `i`.
pub open spec fn pointer_at(buf: Seq<u8>, i: int, width: int) -> Option<usize> {
    if !(0 <= i && i + width <= buf.len()) {
        None
    } else if width == 8 {
        Some(le::le64(buf, i) as u64 as usize)
    } else {
        Some(le::le32(buf, i) as u32 as usize)
    }
}

/// Read a pointer of `psize` bytes at `i`, or `None` if it runs past `buf`.
pub fn read_ptr(buf: &[u8], i: usize, psize: usize) -> (r: Option<usize>)
    requires
        psize == 4 || psize == 8,
    ensures
        r == pointer_at(buf@, i as int, psize as int),
{
    if psize == 8 {
        match get_u64(buf, i) {
            Some(v) => Some(v as usize),
            None => None,
        }
    } else {
        match get_u32(buf, i) {
            Some(v) => Some(v as usize),
            None => None,
        }
    }
}

/// The function that the pointer at `i` leads to, if it leads into code.
pub open spec fn slot_at(img: &ImageInput, buf: Seq<u8>, i: int, width: int) -> Option<usize> {
    match pointer_at(buf, i, width) {
        Some(v) => if img.in_code(v as int) {
            Some((v - img.base) as usize)
        } else {
            None
        },
        None => None,
    }
}

/// The functions that the pointers from `i` on lead to, up to the first that leads nowhere.
pub open spec fn run_from(img: &ImageInput, buf: Seq<u8>, i: int, width: int) -> Seq<usize>
    decreases buf.len() - i,
{
    match slot_at(img, buf, i, width) {
        Some(f) => if width > 0 {
            seq![f] + run_from(img, buf, i + width, width)
        } else {
            Seq::empty()
        },
        None => Seq::empty(),
    }
}

/// A run ends within the bytes it is read from.
pub proof fn run_fits(img: &ImageInput, buf: Seq<u8>, i: int, width: int)
    ensures
        run_from(img, buf, i, width).len() > 0 ==> i + width * run_from(img, buf, i, width).len()
            <= buf.len(),
    decreases buf.len() - i,
{
    if slot_at(img, buf, i, width) is Some && width > 0 {
        run_fits(img, buf, i + width, width);
        let n = run_from(img, buf, i + width, width).len();
        assert(run_from(img, buf, i, width).len() == n + 1);
        assert(width * (n + 1) == width * n + width) by (nonlinear_arith);
        if n == 0 {
            assert(width * n == 0) by (nonlinear_arith)
                requires
                    n == 0,
            ;
        }
    }
}

/// The vtables from offset `i` on.
pub open spec fn vtables_from(img: &ImageInput, buf: Seq<u8>, i: int) -> Seq<TableV>
    decreases buf.len() - i,
{
    let w = pointer_width(img.arch);
    if i + w > buf.len() {
        Seq::empty()
    } else {
        let run = run_from(img, buf, i, w);
        proof {
            run_fits(img, buf, i, w);
            assert(run.len() > 0 ==> w * run.len() >= w) by (nonlinear_arith)
                requires
                    w > 0,
            ;
        }
        if run.len() == 0 {
            vtables_from(img, buf, i + w)
        } else if run.len() >= MIN_RUN {
            seq![(i as usize, run)] + vtables_from(img, buf, i + w * run.len())
        } else {
            vtables_from(img, buf, i + w * run.len())
        }
    }
}

/// Every function of every table can be read at.
pub open spec fn tables_reach(img: &ImageInput, tables: Seq<TableV>) -> bool {
    forall|k: int|
        0 <= k < tables.len() ==> strings::all_within_reach(img, (#[trigger] tables[k]).1)
}

fn read_slot(img: &ImageInput, buf: &[u8], i: usize, psize: usize) -> (r: Option<usize>)
    requires
        img.wf(),
        psize == 4 || psize == 8,
    ensures
        r == slot_at(img, buf@, i as int, psize as int),
        r matches Some(f) ==> img.reaches(f as int) && i + psize <= buf@.len(),
{
    match read_ptr(buf, i, psize) {
        Some(v) => if is_within(&img.code_regions, v) {
            proof {
                let k = choose|k: int|
                    0 <= k < img.code_regions@.len() && (#[trigger] img.code_regions@[k]).holds(
                        v as int,
                    );
                assert(img.base <= img.code_regions@[k].base);
            }
            Some(v - img.base)
        } else {
            None
        },
        None => None,
    }
}

/// The functions that the pointers from `i` on lead to, up to the first that leads nowhere.
pub fn read_run(img: &ImageInput, buf: &[u8], i: usize, psize: usize) -> (run: Vec<usize>)
    requires
        img.wf(),
        psize == 4 || psize == 8,
    ensures
        run@ == run_from(img, buf@, i as int, psize as int),
        strings::all_within_reach(img, run@),
        run@.len() > 0 ==> i + run@.len() * psize <= buf@.len(),
{
    let mut run: Vec<usize> = Vec::new();
    let mut at: usize = i;
    let ghost all = run_from(img, buf@, i as int, psize as int);
    assert(run@ + all =~= all);
    let mut more: bool = true;
    let end: usize = buf.len();
    while more
        invariant
            img.wf(),
            psize == 4 || psize == 8,
            end == buf@.len(),
            at == i + run@.len() * psize,
            run@.len() > 0 ==> at <= buf@.len(),
            more ==> all == run@ + run_from(img, buf@, at as int, psize as int),
            !more ==> all == run@,
            strings::all_within_reach(img, run@),
        decreases (if more { 1int } else { 0int }), buf@.len() - at,
    {
        match read_slot(img, buf, at, psize) {
            Some(f) => {
                let ghost before = run@;
                let ghost rest = run_from(img, buf@, at + psize, psize as int);
                run.push(f);
                assert(before + (seq![f] + rest) =~= run@ + rest);
                assert(at + psize == i + run@.len() * psize) by (nonlinear_arith)
                    requires
                        at == i + before.len() * psize,
                        run@.len() == before.len() + 1,
                ;
                at += psize;
            },
            None => {
                assert(run@ + Seq::<usize>::empty() =~= run@);
                more = false;
            },
        }
    }
    run
}

/// Every vtable in the image: a run of at least [`MIN_RUN`] consecutive pointers into executable code.
/// Returns each run's start and the functions of its slots. Scanning the whole image by
/// pointer-into-code finds them wherever they live.
pub fn vtables(img: &ImageInput, buf: &[u8]) -> (out: Vec<(usize, Vec<usize>)>)
    requires
        img.wf(),
    ensures
        out.deep_view() == vtables_from(img, buf@, 0),
        tables_reach(img, out.deep_view()),
        forall|k: int| 0 <= k < out@.len() ==> (#[trigger] out.deep_view()[k]).0 < buf@.len(),
{
    let psize: usize = ptr_size(img.arch);
    let mut out: Vec<(usize, Vec<usize>)> = Vec::new();
    let mut i: usize = 0;
    let ghost all = vtables_from(img, buf@, 0);
    assert(out.deep_view() =~= Seq::<TableV>::empty());
    assert(out.deep_view() + all =~= all);
    while i <= buf.len() && buf.len() - i >= psize
        invariant
            img.wf(),
            psize == pointer_width(img.arch),
            i <= buf@.len(),
            all == out.deep_view() + vtables_from(img, buf@, i as int),
            tables_reach(img, out.deep_view()),
            forall|k: int| 0 <= k < out@.len() ==> (#[trigger] out.deep_view()[k]).0 < buf@.len(),
        decreases buf@.len() - i,
    {
        let run = read_run(img, buf, i, psize);
        if run.len() == 0 {
            i += psize;
        } else {
            let ghost before = out.deep_view();
            let ghost rv = run@;
            let next: usize = i + run.len() * psize;
            proof {
                assert(next > i) by (nonlinear_arith)
                    requires
                        next == i + run@.len() * psize,
                        run@.len() > 0,
                        psize > 0,
                ;
                assert(run@.len() * psize == psize * run@.len()) by (nonlinear_arith);
            }
            if run.len() >= MIN_RUN {
                let ghost rest = vtables_from(img, buf@, next as int);
                out.push((i, run));
                proof {
                    let now = out.deep_view();
                    assert(out@.last().deep_view() == (i, run.deep_view()));
                    assert(run.deep_view() =~= rv);
                    assert(now =~= before.push((i, rv)));
                    assert(now + rest =~= before + (seq![(i, rv)] + rest));
                    assert forall|k: int| 0 <= k < now.len() implies strings::all_within_reach(
                        img,
                        (#[trigger] now[k]).1,
                    ) by {
                        if k < before.len() {
                            assert(now[k] == before[k]);
                        }
                    }
                }
            }
            i = next;
        }
    }
    assert(out.deep_view() =~= all);
    out
}

/// The whole image.
pub open spec fn image_bytes(img: &ImageInput) -> Seq<u8> {
    img.bytes(img.base as int, img.size as nat)
}

/// Read the whole image.
pub fn whole_image(img: &ImageInput) -> (b: Vec<u8>)
    requires
        img.wf(),
    ensures
        b@ == image_bytes(img),
        b@.len() <= img.size,
{
    img.read(img.base, img.size)
}

/// The first zero among the `left` bytes from `i` on.
pub open spec fn zero_from(buf: Seq<u8>, i: int, left: nat) -> Option<int>
    decreases left,
{
    if left == 0 || !(0 <= i < buf.len()) {
        None
    } else if buf[i] == 0 {
        Some(i)
    } else {
        zero_from(buf, i + 1, (left - 1) as nat)
    }
}

/// How far a type name is read.
pub const TYPE_NAME_MAX: usize = 160;

/// The bytes before the first `@`.
pub open spec fn leaf_of(s: Seq<u8>) -> Seq<u8>
    decreases s.len(),
{
    if s.len() == 0 || s[0] == 0x40 {
        Seq::empty()
    } else {
        seq![s[0]] + leaf_of(s.skip(1))
    }
}

/// Visible ASCII characters, at least one.
pub open spec fn graphic(s: Seq<u8>) -> bool {
    s.len() > 0 && forall|i: int| 0 <= i < s.len() ==> 0x21 <= #[trigger] s[i] <= 0x7E
}

/// The class that a mangled type name `.?AVClass@@` or `.?AUStruct@@` names.
pub open spec fn class_in(raw: Seq<u8>) -> Option<Seq<char>> {
    if !(raw.len() >= 4 && raw[0] == 0x2E && raw[1] == 0x3F && raw[2] == 0x41 && (raw[3] == 0x56
        || raw[3] == 0x55)) {
        None
    } else {
        let s = raw.skip(4);
        let body = if s.len() >= 2 && s[s.len() - 1] == 0x40 && s[s.len() - 2] == 0x40 {
            s.take(s.len() - 2)
        } else {
            s
        };
        let leaf = leaf_of(body);
        if graphic(leaf) {
            Some(Seq::new(leaf.len(), |i: int| leaf[i] as char))
        } else {
            None
        }
    }
}

/// `.?AVCWvsContext@@` names `CWvsContext`; `None` when it is not the name of a class or struct.
pub fn demangle_rtti_name(raw: &[u8]) -> (r: Option<String>)
    ensures
        r.deep_view() == class_in(raw@),
{
    if !(raw.len() >= 4 && raw[0] == 0x2E && raw[1] == 0x3F && raw[2] == 0x41 && (raw[3] == 0x56
        || raw[3] == 0x55)) {
        return None;
    }
    let end: usize = if raw.len() >= 6 && raw[raw.len() - 1] == 0x40 && raw[raw.len() - 2] == 0x40 {
        raw.len() - 2
    } else {
        raw.len()
    };
    let ghost s = raw@.skip(4);
    let ghost body = if s.len() >= 2 && s[s.len() - 1] == 0x40 && s[s.len() - 2] == 0x40 {
        s.take(s.len() - 2)
    } else {
        s
    };
    assert(body =~= raw@.subrange(4, end as int));
    let ghost leaf = leaf_of(body);
    let mut name = String::new();
    let mut i: usize = 4;
    assert(body.skip(0) =~= body);
    assert(Seq::<u8>::empty() + leaf =~= leaf);
    let ghost mut done: Seq<u8> = Seq::empty();
    while i < end && raw[i] != 0x40
        invariant
            4 <= i <= end <= raw@.len(),
            body == raw@.subrange(4, end as int),
            !graphic(leaf) ==> class_in(raw@) is None,
            graphic(leaf) ==> class_in(raw@) == Some(Seq::new(leaf.len(), |k: int| leaf[k] as char)),
            leaf == done + leaf_of(body.skip(i - 4)),
            done.len() == i - 4,
            name@ == Seq::new(done.len(), |k: int| done[k] as char),
            forall|k: int| 0 <= k < done.len() ==> 0x21 <= #[trigger] done[k] <= 0x7E,
        decreases end - i,
    {
        let ghost rest = body.skip(i - 4);
        assert(rest[0] == raw@[i as int]);
        assert(rest.skip(1) =~= body.skip(i - 3));
        if raw[i] < 0x21 || raw[i] > 0x7E {
            proof {
                assert(leaf[done.len() as int] == raw@[i as int]);
                assert(!graphic(leaf));
            }
            return None;
        }
        name.push(raw[i] as char);
        proof {
            let more = leaf_of(rest.skip(1));
            assert(done + (seq![rest[0]] + more) =~= done.push(rest[0]) + more);
            done = done.push(rest[0]);
            assert(name@ =~= Seq::new(done.len(), |k: int| done[k] as char));
        }
        i += 1;
    }
    proof {
        let rest = body.skip(i - 4);
        if i < end {
            assert(rest[0] == raw@[i as int]);
        }
        assert(leaf_of(rest) =~= Seq::<u8>::empty());
        assert(leaf =~= done);
    }
    if i == 4 {
        None
    } else {
        Some(name)
    }
}

/// The class whose type information stands before a table: the table's locator leads to the type
/// descriptor, and that to the mangled name.
pub open spec fn class_of(img: &ImageInput, buf: Seq<u8>, table: int) -> Option<Seq<char>> {
    if img.arch != Arch::X86 {
        None
    } else {
        match pointer_at(buf, table - 4, 4) {
            None => None,
            Some(locator) => match pointer_at(buf, locator - img.base + 0x0C, 4) {
                None => None,
                Some(descriptor) => {
                    let at = descriptor - img.base + 8;
                    if locator < img.base || descriptor < img.base {
                        None
                    } else {
                        match zero_from(buf, at, TYPE_NAME_MAX as nat) {
                            Some(end) => if valid_utf8(buf.subrange(at, end)) {
                                class_in(buf.subrange(at, end))
                            } else {
                                None
                            },
                            None => None,
                        }
                    }
                },
            },
        }
    }
}

fn rtti_class_name(img: &ImageInput, buf: &[u8], table: usize) -> (r: Option<String>)
    ensures
        r.deep_view() == class_of(img, buf@, table as int),
{
    if img.arch != Arch::X86 || table < 4 {
        return None;
    }
    let size: usize = buf.len();
    let locator: usize = match read_ptr(buf, table - 4, 4) {
        Some(v) => v,
        None => {
            return None;
        },
    };
    if locator < img.base || locator - img.base > usize::MAX - 0x0C {
        return None;
    }
    let descriptor: usize = match read_ptr(buf, locator - img.base + 0x0C, 4) {
        Some(v) => v,
        None => {
            return None;
        },
    };
    if descriptor < img.base || descriptor - img.base > usize::MAX - 8 {
        return None;
    }
    let at: usize = descriptor - img.base + 8;
    let mut end: usize = at;
    let mut left: usize = TYPE_NAME_MAX;
    while left > 0 && end < buf.len() && buf[end] != 0
        invariant
            at <= end,
            left <= TYPE_NAME_MAX,
            zero_from(buf@, at as int, TYPE_NAME_MAX as nat) == zero_from(
                buf@,
                end as int,
                left as nat,
            ),
        decreases left,
    {
        end += 1;
        left -= 1;
    }
    if left == 0 || end >= buf.len() {
        return None;
    }
    let raw = vstd::slice::slice_subrange(buf, at, end);
    if is_utf8(raw) {
        demangle_rtti_name(raw)
    } else {
        None
    }
}

/// The place of `f` among the functions.
pub open spec fn position_of(s: Seq<usize>, f: usize, i: int) -> Option<int>
    decreases s.len() - i,
{
    if !(0 <= i < s.len()) {
        None
    } else if s[i] == f {
        Some(i)
    } else {
        position_of(s, f, i + 1)
    }
}

/// The first table from `k` on that has the function in a slot, with the slot.
pub open spec fn table_with(tables: Seq<TableV>, f: usize, k: int) -> Option<(int, int)>
    decreases tables.len() - k,
{
    if !(0 <= k < tables.len()) {
        None
    } else {
        match position_of(tables[k].1, f, 0) {
            Some(i) => Some((k, i)),
            None => table_with(tables, f, k + 1),
        }
    }
}

/// The table a function is a slot of: its RVA, the slot, the number of slots and the class.
pub open spec fn membership_of(img: &ImageInput, rva: usize) -> Option<
    (usize, usize, usize, Option<Seq<char>>),
> {
    let buf = image_bytes(img);
    let tables = vtables_from(img, buf, 0);
    match table_with(tables, rva, 0) {
        None => None,
        Some((k, i)) => Some(
            (
                tables[k].0,
                i as usize,
                tables[k].1.len() as usize,
                class_of(img, buf, tables[k].0 as int),
            ),
        ),
    }
}

/// Is the function at `rva` a virtual method, a slot in some vtable? Returns the table's RVA, the slot
/// index, the table's slot count, and the class name where the type information is there and navigable.
pub fn membership(img: &ImageInput, rva: usize) -> (r: Option<
    (usize, usize, usize, Option<String>),
>)
    requires
        img.wf(),
    ensures
        match r {
            Some((table, slot, slots, class)) => membership_of(img, rva) == Some(
                (table, slot, slots, class.deep_view()),
            ),
            None => membership_of(img, rva) is None,
        },
{
    let buf = whole_image(img);
    let tables = vtables(img, buf.as_slice());
    let ghost tv = tables.deep_view();
    let mut k: usize = 0;
    while k < tables.len()
        invariant
            buf@ == image_bytes(img),
            tv == tables.deep_view(),
            tv == vtables_from(img, buf@, 0),
            k <= tables@.len(),
            table_with(tv, rva, 0) == table_with(tv, rva, k as int),
        decreases tables@.len() - k,
    {
        let slots = &tables[k].1;
        assert(tv[k as int] == (tables@[k as int].0, slots.deep_view()));
        assert(slots.deep_view() =~= slots@);
        let mut i: usize = 0;
        while i < slots.len()
            invariant
                buf@ == image_bytes(img),
                tv == tables.deep_view(),
                tv == vtables_from(img, buf@, 0),
                k < tables@.len(),
                tv[k as int] == (tables@[k as int].0, slots@),
                i <= slots@.len(),
                table_with(tv, rva, 0) == table_with(tv, rva, k as int),
                position_of(slots@, rva, 0) == position_of(slots@, rva, i as int),
            decreases slots@.len() - i,
        {
            if slots[i] == rva {
                let class = rtti_class_name(img, buf.as_slice(), tables[k].0);
                return Some((tables[k].0, i, slots.len(), class));
            }
            i += 1;
        }
        k += 1;
    }
    None
}

/// Where a jump at the front of `b` leads, if it leads into code.
pub open spec fn jump_target(img: &ImageInput, b: Seq<u8>, ip: u64) -> Option<usize> {
    let bits = decode::mode(img.arch);
    let t = x86::head_of(bits, b, ip).target as usize;
    if x86::flow_of(bits, b, ip) == Flow::UnconditionalBranch && img.in_code(t as int) {
        Some((t - img.base) as usize)
    } else {
        None
    }
}

/// Adjusts a register by a constant, as an adjustor thunk does before its jump.
pub open spec fn adjusts(bits: u32, b: Seq<u8>, ip: u64) -> bool {
    let k = x86::operand_of(bits, b, ip, 1);
    &&& x86::arithmetic_of(bits, b, ip) != Arithmetic::Other
    &&& x86::operand_of(bits, b, ip, 0) == Operand::Register
    &&& (k == Operand::Immediate8 || k == Operand::Immediate8to16 || k == Operand::Immediate8to32
        || k == Operand::Immediate16 || k == Operand::Immediate32)
}

/// How many bytes of a thunk are read.
pub const THUNK_BYTES: usize = 16;

/// The method a slot dispatches, and whether through a thunk.
pub open spec fn thunk_end(img: &ImageInput, slot: int) -> (usize, bool) {
    let bits = decode::mode(img.arch);
    let b = img.bytes(img.base + slot, THUNK_BYTES as nat);
    let ip = (img.base + slot) as u64;
    let h = x86::head_of(bits, b, ip);
    let rest = b.skip(h.len as int);
    let next = (ip + h.len) as u64;
    if b.len() == 0 || !decode::decodable(h, b) {
        (slot as usize, false)
    } else if x86::flow_of(bits, b, ip) == Flow::UnconditionalBranch {
        match jump_target(img, b, ip) {
            Some(f) => (f, true),
            None => (slot as usize, false),
        }
    } else if adjusts(bits, b, ip) && h.len < b.len() && !x86::head_of(bits, rest, next).invalid {
        match jump_target(img, rest, next) {
            Some(f) => (f, true),
            None => (slot as usize, false),
        }
    } else {
        (slot as usize, false)
    }
}

fn is_adjustor(bits: u32, b: &[u8], ip: u64) -> (r: bool)
    requires
        x86::is_mode(bits),
    ensures
        r == adjusts(bits, b@, ip),
{
    if x86::arithmetic(bits, b, ip) == Arithmetic::Other || x86::operand(bits, b, ip, 0)
        != Operand::Register {
        return false;
    }
    let k = x86::operand(bits, b, ip, 1);
    k == Operand::Immediate8 || k == Operand::Immediate8to16 || k == Operand::Immediate8to32 || k
        == Operand::Immediate16 || k == Operand::Immediate32
}

fn read_jump(img: &ImageInput, bits: u32, b: &[u8], ip: u64) -> (r: Option<usize>)
    requires
        img.wf(),
        x86::is_mode(bits),
        bits == decode::mode(img.arch),
    ensures
        r == jump_target(img, b@, ip),
        r matches Some(f) ==> img.reaches(f as int),
{
    if x86::flow(bits, b, ip) != Flow::UnconditionalBranch {
        return None;
    }
    let h = x86::head(bits, b, ip);
    let t: usize = h.target as usize;
    if is_within(&img.code_regions, t) {
        proof {
            let k = choose|k: int|
                0 <= k < img.code_regions@.len() && (#[trigger] img.code_regions@[k]).holds(
                    t as int,
                );
            assert(img.base <= img.code_regions@[k].base);
        }
        Some(t - img.base)
    } else {
        None
    }
}

/// Resolve a slot to the real method it dispatches, following one adjustor or plain-jump thunk. A direct
/// slot is returned unchanged; a thunk (`jmp fn`, or `add ecx, imm ; jmp fn` under multiple inheritance)
/// is followed to `fn`. The boolean tells whether a thunk was traversed.
pub fn follow_thunk(img: &ImageInput, slot_rva: usize) -> (r: (usize, bool))
    requires
        img.wf(),
        img.reaches(slot_rva as int),
    ensures
        r == thunk_end(img, slot_rva as int),
        img.reaches(r.0 as int),
{
    let bits: u32 = bitness(img.arch);
    let b = img.read(img.base + slot_rva, THUNK_BYTES);
    let ip: u64 = (img.base + slot_rva) as u64;
    if b.len() == 0 {
        return (slot_rva, false);
    }
    let h = x86::head(bits, b.as_slice(), ip);
    if h.invalid || h.len == 0 || h.len > b.len() {
        return (slot_rva, false);
    }
    if x86::flow(bits, b.as_slice(), ip) == Flow::UnconditionalBranch {
        return match read_jump(img, bits, b.as_slice(), ip) {
            Some(f) => (f, true),
            None => (slot_rva, false),
        };
    }
    if is_adjustor(bits, b.as_slice(), ip) && h.len < b.len() {
        let rest = tail_of(b.as_slice(), h.len);
        let next: u64 = ip + h.len as u64;
        let second = x86::head(bits, rest, next);
        if !second.invalid {
            if let Some(f) = read_jump(img, bits, rest, next) {
                return (f, true);
            }
        }
    }
    (slot_rva, false)
}

}
