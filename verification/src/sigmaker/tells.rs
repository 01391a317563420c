//! What tells functions apart that the linker moved: the imports they call, the calls they make and the
//! shapes of their instructions.

use crate::ordered;
use crate::pattern::Arch;
use crate::sigmaker::callers::{SCAN_BYTES, SCAN_INSTRS};
use crate::sigmaker::calls::{called, calls_code};
use crate::sigmaker::decode;
use crate::sigmaker::encoding;
use crate::sigmaker::imports;
use crate::sigmaker::model;
use crate::sigmaker::model::CallEdge;
use crate::sigmaker::sites::{moves_on, sweep};
use crate::sigmaker::stream::{ends_call, head_at, starts_at, walk, walk_from, walk_grows, width};
use crate::sigmaker::types::ImageInput;
use crate::sigmaker::uses::code_in;
use crate::text;
use crate::x86;
use crate::x86::{Flow, Operand};
use vstd::prelude::*;
use vstd::utf8::{encode_utf8, encode_utf8_decode_utf8};

verus! {

/// Texts are strictly ordered by their bytes.
pub proof fn texts_are_ordered()
    ensures
        ordered::is_strict_order(ordered::alphabetical()),
{
    let before = ordered::alphabetical();
    assert forall|a: Seq<char>, b: Seq<char>, c: Seq<char>|
        #![trigger before(a, b), before(b, c)]
        before(a, b) && before(b, c) implies before(a, c) by {
        text::bytes_are_ordered(encode_utf8(a), encode_utf8(c), encode_utf8(b));
        text::bytes_are_ordered(encode_utf8(b), encode_utf8(c), encode_utf8(b));
    }
    assert forall|a: Seq<char>, b: Seq<char>| #![trigger before(a, b)] before(a, b) || a == b || before(
        b,
        a,
    ) by {
        neither_is_equal(encode_utf8(a), encode_utf8(b));
        encode_utf8_decode_utf8(a);
        encode_utf8_decode_utf8(b);
    }
    assert forall|a: Seq<char>, b: Seq<char>| #![trigger before(a, b)] before(a, b) implies a != b
        && !before(b, a) by {
        text::bytes_are_ordered(encode_utf8(a), encode_utf8(b), encode_utf8(a));
    }
}

proof fn neither_is_equal(a: Seq<u8>, b: Seq<u8>)
    ensures
        text::bytes_before(a, b) || text::bytes_before(b, a) || a == b,
    decreases a.len(),
{
    if a.len() > 0 && b.len() > 0 && a[0] == b[0] {
        neither_is_equal(a.skip(1), b.skip(1));
        if a.skip(1) == b.skip(1) {
            assert forall|k: int| 0 <= k < a.len() implies a[k] == b[k] by {
                if k > 0 {
                    assert(a.skip(1)[k - 1] == b.skip(1)[k - 1]);
                }
            }
            assert(a.len() == b.len()) by {
                assert(a.skip(1).len() == b.skip(1).len());
            }
            assert(a =~= b);
        }
    } else if a.len() == 0 && b.len() == 0 {
        assert(a =~= b);
    }
}

/// The instruction at `pos` calls or jumps through a slot in memory: one named relative to the instruction,
/// or without base and index.
pub open spec fn through_slot(arch: Arch, b: Seq<u8>, ip: int, pos: int, slot: usize) -> bool {
    let at = (ip + pos) as u64;
    let flow = x86::flow_of(width(arch), b.skip(pos), at);
    let m = x86::memory_of(width(arch), b.skip(pos), at);
    &&& flow == Flow::IndirectCall || flow == Flow::IndirectBranch
    &&& exists|k: u32|
        k < head_at(arch, b, ip, pos).operands && #[trigger] x86::operand_of(
            width(arch),
            b.skip(pos),
            at,
            k,
        ) == Operand::Memory
    &&& (m.ip_relative && slot == m.ip_address as usize) || (!m.ip_relative && m.no_base && m.no_index
        && slot == m.displacement as usize)
}

proof fn slot_is_through(arch: Arch, b: Seq<u8>, ip: int, pos: int)
    ensures
        forall|slot: usize|
            imports::slot_of(decode::mode(arch), b.skip(pos), (ip + pos) as u64) == Some(slot)
                <==> #[trigger] through_slot(arch, b, ip, pos, slot),
{
    let at = (ip + pos) as u64;
    let h = head_at(arch, b, ip, pos);
    assert(decode::touches_memory(decode::mode(arch), b.skip(pos), at, h.operands as int)
        <==> exists|k: u32|
        k < h.operands && #[trigger] x86::operand_of(width(arch), b.skip(pos), at, k)
            == Operand::Memory);
}

/// An instruction of the walk calls or jumps through the slot of the import of this name.
pub open spec fn imports_name(
    arch: Arch,
    m: Map<usize, Seq<char>>,
    b: Seq<u8>,
    ip: int,
    at: Seq<int>,
    name: Seq<char>,
) -> bool {
    exists|i: int, slot: usize|
        0 <= i < at.len() - 1 && #[trigger] through_slot(arch, b, ip, at[i], slot) && m.contains_key(
            slot,
        ) && m[slot] == name
}

spec fn in_order(s: Seq<Seq<char>>) -> bool {
    ordered::is_sorted(s, ordered::alphabetical())
}

proof fn imports_walk(
    arch: Arch,
    m: Map<usize, Seq<char>>,
    set: Seq<Seq<char>>,
    b: Seq<u8>,
    ip: int,
    pos: int,
    left: nat,
) -> (at: Seq<int>)
    requires
        0 <= pos <= b.len(),
        in_order(set),
    ensures
        walk_from(arch, b, ip, pos, at),
        at.len() <= left + 1,
        forall|i: int| 0 <= i < at.len() - 2 ==> !#[trigger] ends_call(arch, b, ip, at[i]),
        at.len() == left + 1 || !starts_at(arch, b, ip, at.last()) || (at.len() > 1 && ends_call(
            arch,
            b,
            ip,
            at[at.len() - 2],
        )),
        in_order(imports::imports_from(decode::mode(arch), m, set, b, ip, pos, left)),
        forall|name: Seq<char>| #[trigger]
            imports::imports_from(decode::mode(arch), m, set, b, ip, pos, left).contains(name) <==> (
            set.contains(name) || imports_name(arch, m, b, ip, at, name)),
    decreases left,
{
    if left == 0 || !(0 <= pos < b.len()) {
        seq![pos]
    } else {
        let bits = decode::mode(arch);
        let h = head_at(arch, b, ip, pos);
        if !decode::decodable(h, b.skip(pos)) {
            seq![pos]
        } else {
            texts_are_ordered();
            slot_is_through(arch, b, ip, pos);
            let slot = imports::slot_of(bits, b.skip(pos), (ip + pos) as u64);
            let named = slot is Some && m.contains_key(slot->0);
            let mid = if named {
                ordered::ins(set, m[slot->0], ordered::alphabetical())
            } else {
                set
            };
            if named {
                ordered::ins_keeps_order(set, m[slot->0], ordered::alphabetical());
            }
            let out = imports::imports_from(bits, m, set, b, ip, pos, left);
            assert forall|name: Seq<char>| #[trigger] mid.contains(name) <==> (set.contains(name) || (
            named && name == m[slot->0])) by {}
            if ends_call(arch, b, ip, pos) {
                let at = seq![pos, pos + h.len];
                assert(out == mid);
                assert forall|name: Seq<char>| #[trigger] out.contains(name) <==> (set.contains(name)
                    || imports_name(arch, m, b, ip, at, name)) by {
                    if named && name == m[slot->0] {
                        assert(through_slot(arch, b, ip, at[0], slot->0));
                    }
                    if imports_name(arch, m, b, ip, at, name) {
                        let (i, s) = choose|i: int, s: usize|
                            0 <= i < at.len() - 1 && #[trigger] through_slot(arch, b, ip, at[i], s)
                                && m.contains_key(s) && m[s] == name;
                        assert(i == 0);
                        assert(slot == Some(s));
                    }
                }
                at
            } else {
                let rest = imports_walk(arch, m, mid, b, ip, pos + h.len, (left - 1) as nat);
                let at = seq![pos] + rest;
                assert(out == imports::imports_from(
                    bits,
                    m,
                    mid,
                    b,
                    ip,
                    pos + h.len,
                    (left - 1) as nat,
                ));
                walk_grows(arch, b, ip, pos, rest);
                assert forall|name: Seq<char>| #[trigger] out.contains(name) <==> (set.contains(name)
                    || imports_name(arch, m, b, ip, at, name)) by {
                    assert(out.contains(name) <==> (mid.contains(name) || imports_name(
                        arch,
                        m,
                        b,
                        ip,
                        rest,
                        name,
                    )));
                    if named && name == m[slot->0] {
                        assert(through_slot(arch, b, ip, at[0], slot->0));
                    }
                    if imports_name(arch, m, b, ip, rest, name) {
                        let (i, s) = choose|i: int, s: usize|
                            0 <= i < rest.len() - 1 && #[trigger] through_slot(
                                arch,
                                b,
                                ip,
                                rest[i],
                                s,
                            ) && m.contains_key(s) && m[s] == name;
                        assert(through_slot(arch, b, ip, at[i + 1], s));
                    }
                    if imports_name(arch, m, b, ip, at, name) {
                        let (i, s) = choose|i: int, s: usize|
                            0 <= i < at.len() - 1 && #[trigger] through_slot(arch, b, ip, at[i], s)
                                && m.contains_key(s) && m[s] == name;
                        if i > 0 {
                            assert(through_slot(arch, b, ip, rest[i - 1], s));
                        } else {
                            assert(slot == Some(s));
                        }
                    }
                }
                at
            }
        }
    }
}

/// The imports of a function are exactly the names of the imports that its instructions call or jump
/// through, each once and in order, up to the first return.
pub proof fn import_sets_are_what_is_called(img: &ImageInput, m: Map<usize, Seq<char>>, rva: int) -> (
at: Seq<int>)
    ensures
        ({
            let b = img.bytes(img.base + rva, 3200);
            let ip = img.base + rva;
            let out = imports::import_set_of(img, m, rva);
            &&& walk(img.arch, b, ip, at)
            &&& at.len() <= 401
            &&& forall|i: int|
                0 <= i < at.len() - 2 ==> !#[trigger] ends_call(img.arch, b, ip, at[i])
            &&& at.len() == 401 || !starts_at(img.arch, b, ip, at.last()) || (at.len() > 1
                && ends_call(img.arch, b, ip, at[at.len() - 2]))
            &&& forall|i: int, j: int|
                0 <= i < j < out.len() ==> text::text_before(#[trigger] out[i], #[trigger] out[j])
            &&& forall|name: Seq<char>| #[trigger]
                out.contains(name) <==> imports_name(img.arch, m, b, ip, at, name)
        }),
{
    let b = img.bytes(img.base + rva, SCAN_BYTES as nat);
    let at = imports_walk(
        img.arch,
        m,
        Seq::empty(),
        b,
        img.base + rva,
        0,
        SCAN_INSTRS as nat,
    );
    let out = imports::import_set_of(img, m, rva);
    let before = ordered::alphabetical();
    assert forall|i: int, j: int| 0 <= i < j < out.len() implies text::text_before(
        #[trigger] out[i],
        #[trigger] out[j],
    ) by {
        assert(before(out[i], out[j]));
    }
    at
}

/// An import anchor is the imports of a function, and there is one only where there are two or more.
pub proof fn import_anchors_need_two_names(img: &ImageInput, rva: int)
    ensures
        match imports::import_anchor_of(img, rva) {
            Some(names) => names.len() >= 2 && names == imports::import_set_of(
                img,
                imports::imports_of(img),
                rva,
            ),
            None => imports::import_set_of(img, imports::imports_of(img), rva).len() < 2,
        },
{
}

/// Entry number `i` calls exactly these imports.
pub open spec fn same_imports(img: &ImageInput, entries: Seq<usize>, want: Seq<Seq<char>>, i: int) -> bool {
    0 <= i < entries.len() && imports::import_set_of(
        img,
        imports::imports_of(img),
        entries[i] as int,
    ) == want
}

proof fn importers_are_listed(
    img: &ImageInput,
    entries: Seq<usize>,
    want: Seq<Seq<char>>,
    n: int,
) -> (idx: Seq<int>)
    requires
        0 <= n <= entries.len(),
    ensures
        imports::importers(img, entries, want, n).len() == idx.len(),
        forall|k: int|
            0 <= k < idx.len() ==> 0 <= #[trigger] idx[k] < n && same_imports(
                img,
                entries,
                want,
                idx[k],
            ) && imports::importers(img, entries, want, n)[k] == entries[idx[k]],
        forall|i: int, j: int| 0 <= i < j < idx.len() ==> #[trigger] idx[i] < #[trigger] idx[j],
        forall|i: int|
            0 <= i < n && #[trigger] same_imports(img, entries, want, i) ==> idx.contains(i),
    decreases n,
{
    if n <= 0 {
        Seq::empty()
    } else {
        let before = importers_are_listed(img, entries, want, n - 1);
        if same_imports(img, entries, want, n - 1) {
            let idx = before.push(n - 1);
            assert forall|i: int|
                0 <= i < n && #[trigger] same_imports(img, entries, want, i) implies idx.contains(i) by {
                if i < n - 1 {
                    assert(before.contains(i));
                    let k = choose|k: int| 0 <= k < before.len() && before[k] == i;
                    assert(idx[k] == i);
                } else {
                    assert(idx[before.len() as int] == i);
                }
            }
            assert forall|k: int| 0 <= k < idx.len() implies 0 <= #[trigger] idx[k] < n && same_imports(
                img,
                entries,
                want,
                idx[k],
            ) && imports::importers(img, entries, want, n)[k] == entries[idx[k]] by {
                if k < before.len() {
                    assert(idx[k] == before[k]);
                }
            }
            idx
        } else {
            before
        }
    }
}

/// An import anchor leads to a function exactly where it is the only entry that calls those imports and no
/// others.
pub proof fn import_anchors_lead_to_the_only_one(img: &ImageInput, names: Seq<Seq<char>>)
    ensures
        ({
            let entries = ordered::sorted_set(
                model::targets(model::all_calls(img)),
                ordered::rising(),
            );
            let want = ordered::sorted_set(names, ordered::alphabetical());
            match imports::import_anchored(img, names) {
                Some(f) => exists|i: int| #[trigger]
                    same_imports(img, entries, want, i) && entries[i] == f && forall|j: int| #[trigger]
                        same_imports(img, entries, want, j) ==> j == i,
                None => (forall|i: int| !#[trigger] same_imports(img, entries, want, i)) || exists|
                    i: int,
                    j: int,
                |
                    i != j && #[trigger] same_imports(img, entries, want, i)
                        && #[trigger] same_imports(img, entries, want, j),
            }
        }),
{
    let entries = ordered::sorted_set(model::targets(model::all_calls(img)), ordered::rising());
    let want = ordered::sorted_set(names, ordered::alphabetical());
    let n = entries.len() as int;
    let idx = importers_are_listed(img, entries, want, n);
    if idx.len() == 1 {
        let i = idx[0];
        assert(same_imports(img, entries, want, i));
        assert forall|j: int| #[trigger] same_imports(img, entries, want, j) implies j == i by {
            assert(idx.contains(j));
        }
    } else if idx.len() == 0 {
        assert forall|i: int| !#[trigger] same_imports(img, entries, want, i) by {
            if same_imports(img, entries, want, i) {
                assert(idx.contains(i));
            }
        }
    } else {
        assert(idx[0] < idx[1]);
        assert(same_imports(img, entries, want, idx[0]));
        assert(same_imports(img, entries, want, idx[1]));
    }
}

/// A stop of the sweep at which code is called.
pub open spec fn call_stop(img: &ImageInput, b: Seq<u8>, base: int, pos: int) -> bool {
    !head_at(img.arch, b, base, pos).invalid && calls_code(img, b, base, pos)
}

/// The call at a stop of the sweep.
pub open spec fn edge_at(img: &ImageInput, b: Seq<u8>, base: int, pos: int) -> CallEdge {
    CallEdge {
        site: (base + pos - img.base) as usize,
        target: called(img, b, base, pos),
    }
}

proof fn calls_are_swept(img: &ImageInput, b: Seq<u8>, base: int, pos: int) -> (at: Seq<int>)
    requires
        0 <= pos,
    ensures
        sweep(img.arch, b, base, pos, at),
        forall|i: int|
            0 <= i < at.len() - 1 && call_stop(img, b, base, #[trigger] at[i])
                ==> model::calls_from(img, b, base, pos).contains(edge_at(img, b, base, at[i])),
        forall|e: CallEdge| #[trigger]
            model::calls_from(img, b, base, pos).contains(e) ==> exists|i: int|
                0 <= i < at.len() - 1 && call_stop(img, b, base, #[trigger] at[i]) && e == edge_at(
                    img,
                    b,
                    base,
                    at[i],
                ),
    decreases b.len() - pos,
{
    if pos >= b.len() {
        seq![pos]
    } else {
        let rest = b.skip(pos);
        let h = head_at(img.arch, b, base, pos);
        let next = pos + decode::step(h, rest);
        assert(moves_on(img.arch, b, base, pos, next));
        let more = calls_are_swept(img, b, base, next);
        let at = seq![pos] + more;
        let tail = model::calls_from(img, b, base, next);
        let out = model::calls_from(img, b, base, pos);
        assert(img.in_code(h.target as usize as int) <==> exists|i: int|
            0 <= i < img.code_regions@.len() && (#[trigger] img.code_regions@[i]).base <= (
            h.target as usize) && (h.target as usize) - img.code_regions@[i].base
                < img.code_regions@[i].size);
        assert(out == if call_stop(img, b, base, pos) {
            seq![edge_at(img, b, base, pos)] + tail
        } else {
            tail
        });
        assert(at.last() == more.last());
        assert forall|i: int| 0 <= i < at.len() - 1 implies 0 <= #[trigger] at[i] < b.len() && moves_on(
            img.arch,
            b,
            base,
            at[i],
            at[i + 1],
        ) by {
            if i > 0 {
                assert(at[i] == more[i - 1]);
                assert(at[i + 1] == more[i]);
            } else {
                assert(at[1] == more[0]);
            }
        }
        let off: int = out.len() - tail.len();
        assert forall|i: int| 0 <= i < at.len() - 1 && call_stop(img, b, base, #[trigger] at[i]) implies
            out.contains(edge_at(img, b, base, at[i])) by {
            if i > 0 {
                assert(at[i] == more[i - 1]);
                let e = edge_at(img, b, base, more[i - 1]);
                assert(tail.contains(e));
                let k = choose|k: int| 0 <= k < tail.len() && tail[k] == e;
                assert(out[k + off] == e);
            } else {
                assert(out[0] == edge_at(img, b, base, pos));
            }
        }
        assert forall|e: CallEdge| #[trigger] out.contains(e) implies exists|i: int|
            0 <= i < at.len() - 1 && call_stop(img, b, base, #[trigger] at[i]) && e == edge_at(
                img,
                b,
                base,
                at[i],
            ) by {
            let k = choose|k: int| 0 <= k < out.len() && out[k] == e;
            if k < off {
                assert(call_stop(img, b, base, at[0]));
            } else {
                assert(tail[k - off] == e);
                assert(tail.contains(e));
                let i = choose|i: int|
                    0 <= i < more.len() - 1 && call_stop(img, b, base, #[trigger] more[i]) && e
                        == edge_at(img, b, base, more[i]);
                assert(at[i + 1] == more[i]);
            }
        }
        at
    }
}

/// The calls of a region are exactly those at the stops of its sweep: near calls into the code.
pub proof fn region_calls_are_swept(img: &ImageInput, i: int) -> (at: Seq<int>)
    requires
        0 <= i < img.code_regions@.len(),
    ensures
        ({
            let r = img.code_regions@[i];
            let b = code_in(img, i);
            let out = model::region_calls(img, r);
            &&& sweep(img.arch, b, r.base as int, 0, at)
            &&& forall|k: int|
                0 <= k < at.len() - 1 && call_stop(img, b, r.base as int, #[trigger] at[k])
                    ==> out.contains(edge_at(img, b, r.base as int, at[k]))
            &&& forall|e: CallEdge| #[trigger]
                out.contains(e) ==> exists|k: int|
                    0 <= k < at.len() - 1 && call_stop(img, b, r.base as int, #[trigger] at[k]) && e
                        == edge_at(img, b, r.base as int, at[k])
        }),
{
    calls_are_swept(img, code_in(img, i), img.code_regions@[i].base as int, 0)
}

proof fn calls_of_regions(img: &ImageInput, n: int)
    requires
        0 <= n <= img.code_regions@.len(),
    ensures
        forall|e: CallEdge| #[trigger]
            model::calls_in(img, n).contains(e) <==> exists|i: int|
                0 <= i < n && (#[trigger] model::region_calls(img, img.code_regions@[i])).contains(e),
    decreases n,
{
    if n > 0 {
        calls_of_regions(img, n - 1);
        let before = model::calls_in(img, n - 1);
        let here = model::region_calls(img, img.code_regions@[n - 1]);
        let all = model::calls_in(img, n);
        assert forall|e: CallEdge| #[trigger] all.contains(e) <==> exists|i: int|
            0 <= i < n && (#[trigger] model::region_calls(img, img.code_regions@[i])).contains(e) by {
            assert(before.contains(e) <==> exists|i: int|
                0 <= i < n - 1 && (#[trigger] model::region_calls(img, img.code_regions@[i])).contains(
                    e,
                ));
            if all.contains(e) {
                let k = choose|k: int| 0 <= k < all.len() && all[k] == e;
                if k < before.len() {
                    assert(before[k] == e);
                    assert(before.contains(e));
                } else {
                    assert(here[k - before.len()] == e);
                    assert(here.contains(e));
                }
            }
            if before.contains(e) {
                let k = choose|k: int| 0 <= k < before.len() && before[k] == e;
                assert(all[k] == e);
            }
            if here.contains(e) {
                let k = choose|k: int| 0 <= k < here.len() && here[k] == e;
                assert(all[before.len() + k] == e);
            }
        }
    }
}

/// The calls of a build are those of all its code regions, and the entries are what they call, each once
/// and in order.
pub proof fn entries_are_what_is_called(img: &ImageInput)
    ensures
        ({
            let edges = model::all_calls(img);
            let entries = ordered::sorted_set(model::targets(edges), ordered::rising());
            &&& forall|e: CallEdge| #[trigger]
                edges.contains(e) <==> exists|i: int|
                    0 <= i < img.code_regions@.len() && (#[trigger] model::region_calls(
                        img,
                        img.code_regions@[i],
                    )).contains(e)
            &&& forall|i: int, j: int|
                0 <= i < j < entries.len() ==> #[trigger] entries[i] < #[trigger] entries[j]
            &&& forall|f: usize| #[trigger]
                entries.contains(f) <==> exists|e: CallEdge| #[trigger]
                    edges.contains(e) && e.target == f
        }),
{
    calls_of_regions(img, img.code_regions@.len() as int);
    let edges = model::all_calls(img);
    let all = model::targets(edges);
    let entries = ordered::sorted_set(all, ordered::rising());
    ordered::numbers_are_ordered();
    ordered::sorted_set_is_sorted(Seq::empty(), all, ordered::rising());
    let before = ordered::rising();
    assert forall|i: int, j: int| 0 <= i < j < entries.len() implies #[trigger] entries[i]
        < #[trigger] entries[j] by {
        assert(before(entries[i], entries[j]));
    }
    assert forall|f: usize| #[trigger] entries.contains(f) <==> exists|e: CallEdge| #[trigger]
        edges.contains(e) && e.target == f by {
        assert(entries.contains(f) <==> (Seq::<usize>::empty().contains(f) || all.contains(f)));
        if all.contains(f) {
            let k = choose|k: int| 0 <= k < all.len() && all[k] == f;
            assert(edges.contains(edges[k]));
        }
        if exists|e: CallEdge| #[trigger] edges.contains(e) && e.target == f {
            let e = choose|e: CallEdge| #[trigger] edges.contains(e) && e.target == f;
            let k = choose|k: int| 0 <= k < edges.len() && edges[k] == e;
            assert(all[k] == f);
        }
    }
}

proof fn shapes_walk(arch: Arch, b: Seq<u8>, ip: int, pos: int, left: nat) -> (at: Seq<int>)
    requires
        0 <= pos <= b.len(),
    ensures
        walk_from(arch, b, ip, pos, at),
        at.len() <= left + 1,
        forall|i: int| 0 <= i < at.len() - 2 ==> !#[trigger] ends_call(arch, b, ip, at[i]),
        at.len() == left + 1 || !starts_at(arch, b, ip, at.last()) || (at.len() > 1 && ends_call(
            arch,
            b,
            ip,
            at[at.len() - 2],
        )),
        ({
            let out = encoding::shapes_from(decode::mode(arch), b, ip, pos, left);
            out.len() == at.len() - 1 && forall|i: int|
                0 <= i < out.len() ==> #[trigger] out[i] == encoding::shape_hash(
                    width(arch),
                    b.skip(at[i]),
                    (ip + at[i]) as u64,
                )
        }),
    decreases left,
{
    if left == 0 || !(0 <= pos < b.len()) {
        seq![pos]
    } else {
        let h = head_at(arch, b, ip, pos);
        if !decode::decodable(h, b.skip(pos)) {
            seq![pos]
        } else if ends_call(arch, b, ip, pos) {
            seq![pos, pos + h.len]
        } else {
            let rest = shapes_walk(arch, b, ip, pos + h.len, (left - 1) as nat);
            let tail = encoding::shapes_from(decode::mode(arch), b, ip, pos + h.len, (left - 1) as nat);
            let out = encoding::shapes_from(decode::mode(arch), b, ip, pos, left);
            let at = seq![pos] + rest;
            walk_grows(arch, b, ip, pos, rest);
            assert forall|i: int| 0 <= i < out.len() implies #[trigger] out[i] == encoding::shape_hash(
                width(arch),
                b.skip(at[i]),
                (ip + at[i]) as u64,
            ) by {
                if i > 0 {
                    assert(out[i] == tail[i - 1]);
                    assert(at[i] == rest[i - 1]);
                }
            }
            at
        }
    }
}

/// The shapes of a function are those of its first instructions, in order: 48 of them at most, within 400
/// bytes, up to the first return.
pub proof fn shapes_are_those_of_the_code(img: &ImageInput, rva: int) -> (at: Seq<int>)
    ensures
        ({
            let b = img.bytes(img.base + rva, 400);
            let ip = img.base + rva;
            let out = encoding::shapes_at(img, rva);
            &&& walk(img.arch, b, ip, at)
            &&& at.len() <= 49
            &&& forall|i: int|
                0 <= i < at.len() - 2 ==> !#[trigger] ends_call(img.arch, b, ip, at[i])
            &&& at.len() == 49 || !starts_at(img.arch, b, ip, at.last()) || (at.len() > 1
                && ends_call(img.arch, b, ip, at[at.len() - 2]))
            &&& out.len() == at.len() - 1
            &&& forall|i: int|
                0 <= i < out.len() ==> #[trigger] out[i] == encoding::shape_hash(
                    width(img.arch),
                    b.skip(at[i]),
                    (ip + at[i]) as u64,
                )
        }),
{
    shapes_walk(
        img.arch,
        img.bytes(img.base + rva, encoding::ENC_WINDOW_BYTES as nat),
        img.base + rva,
        0,
        encoding::ENC_MAX_INSTRS as nat,
    )
}

}
