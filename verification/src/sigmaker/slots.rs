//! Which slots of a build hold imports, and under what names.

use crate::pattern::Arch;
use crate::sigmaker::imports;
use crate::sigmaker::types::ImageInput;
use vstd::prelude::*;

verus! {

/// The bytes of a slot: eight on x64, four on x86.
pub open spec fn slot_width(arch: Arch) -> int {
    match arch {
        Arch::X64 => 8,
        Arch::X86 => 4,
    }
}

/// Thunk number `k` of a table names an import, and so does every one from number `i` on before it; and
/// their slots are addresses.
pub open spec fn runs_to(img: &ImageInput, table: int, slots: int, i: int, k: int) -> bool {
    let w = slot_width(img.arch);
    &&& i <= k < 8192
    &&& forall|q: int|
        i <= q <= k ==> slots + #[trigger] (w * q) <= usize::MAX && (imports::thunk_at(
            img,
            table + w * q,
        ) matches Some(t) && t != 0)
}

/// The slot is that of a thunk from number `i` on, and this is its name.
pub open spec fn named_so(
    img: &ImageInput,
    dll: Seq<char>,
    table: int,
    slots: int,
    bare: bool,
    i: int,
    slot: usize,
    name: Seq<char>,
) -> bool {
    exists|k: int| #[trigger]
        runs_to(img, table, slots, i, k) && slot == slots + slot_width(img.arch) * k && name
            == imports::import_name(
            img,
            dll,
            imports::thunk_at(img, table + slot_width(img.arch) * k)->0,
            bare,
        )
}

/// A map with more slots named.
spec fn names_more(
    m: Map<usize, Seq<char>>,
    out: Map<usize, Seq<char>>,
    more: spec_fn(usize, Seq<char>) -> bool,
) -> bool {
    &&& forall|slot: usize| #[trigger]
        out.contains_key(slot) <==> m.contains_key(slot) || exists|name: Seq<char>| #[trigger]
            more(slot, name)
    &&& forall|slot: usize| #[trigger]
        out.contains_key(slot) ==> (m.contains_key(slot) && out[slot] == m[slot]) || more(
            slot,
            out[slot],
        )
}

proof fn thunks_name_slots(
    img: &ImageInput,
    m: Map<usize, Seq<char>>,
    dll: Seq<char>,
    table: int,
    slots: int,
    bare: bool,
    i: nat,
)
    requires
        0 <= slots,
        i <= 8192,
    ensures
        names_more(
            m,
            imports::thunks_from(img, m, dll, table, slots, bare, i),
            |slot: usize, name: Seq<char>|
                named_so(img, dll, table, slots, bare, i as int, slot, name),
        ),
    decreases 8192 - i,
{
    let w = slot_width(img.arch);
    let out = imports::thunks_from(img, m, dll, table, slots, bare, i);
    let more = |slot: usize, name: Seq<char>|
        named_so(img, dll, table, slots, bare, i as int, slot, name);
    assert(i * imports::thunk_width(img.arch) == w * i) by (nonlinear_arith)
        requires
            w == imports::thunk_width(img.arch),
    ;
    let goes = i < 8192 && slots + w * i <= usize::MAX && (imports::thunk_at(
        img,
        table + w * i,
    ) matches Some(t) && t != 0);
    if !goes {
        assert(out == m);
        assert forall|slot: usize, name: Seq<char>| !#[trigger] more(slot, name) by {
            if named_so(img, dll, table, slots, bare, i as int, slot, name) {
                let k = choose|k: int| #[trigger]
                    runs_to(img, table, slots, i as int, k) && slot == slots + slot_width(img.arch) * k
                        && name == imports::import_name(
                        img,
                        dll,
                        imports::thunk_at(img, table + slot_width(img.arch) * k)->0,
                        bare,
                    );
                assert(slots + (w * i) <= usize::MAX);
            }
        }
    } else {
        let t = imports::thunk_at(img, table + w * i)->0;
        let here = (slots + w * i) as usize;
        let name = imports::import_name(img, dll, t, bare);
        let next = m.insert(here, name);
        assert(w * i >= 0) by (nonlinear_arith)
            requires
                w > 0,
                i >= 0,
        ;
        thunks_name_slots(img, next, dll, table, slots, bare, i + 1);
        assert(out == imports::thunks_from(img, next, dll, table, slots, bare, i + 1));
        assert(runs_to(img, table, slots, i as int, i as int));
        assert(more(here, name));
        let later = |slot: usize, name: Seq<char>|
            named_so(img, dll, table, slots, bare, i as int + 1, slot, name);
        assert forall|slot: usize, n: Seq<char>| #[trigger] more(slot, n) <==> later(slot, n) || (slot
            == here && n == name) by {
            if named_so(img, dll, table, slots, bare, i as int, slot, n) {
                let k = choose|k: int| #[trigger]
                    runs_to(img, table, slots, i as int, k) && slot == slots + slot_width(img.arch) * k
                        && n == imports::import_name(
                        img,
                        dll,
                        imports::thunk_at(img, table + slot_width(img.arch) * k)->0,
                        bare,
                    );
                if k > i {
                    assert(runs_to(img, table, slots, i as int + 1, k));
                }
            }
            if named_so(img, dll, table, slots, bare, i as int + 1, slot, n) {
                let k = choose|k: int| #[trigger]
                    runs_to(img, table, slots, i as int + 1, k) && slot == slots + slot_width(img.arch) * k
                        && n == imports::import_name(
                        img,
                        dll,
                        imports::thunk_at(img, table + slot_width(img.arch) * k)->0,
                        bare,
                    );
                assert(runs_to(img, table, slots, i as int, k));
            }
        }
        assert forall|slot: usize| #[trigger] out.contains_key(slot) <==> m.contains_key(slot) || exists|
            n: Seq<char>,
        | #[trigger]
            more(slot, n) by {
            assert(out.contains_key(slot) <==> next.contains_key(slot) || exists|n: Seq<char>| #[trigger]
                later(slot, n));
            if exists|n: Seq<char>| #[trigger] later(slot, n) {
                let n = choose|n: Seq<char>| #[trigger] later(slot, n);
                assert(more(slot, n));
            }
            if exists|n: Seq<char>| #[trigger] more(slot, n) {
                let n = choose|n: Seq<char>| #[trigger] more(slot, n);
                if slot != here {
                    assert(later(slot, n));
                }
            }
        }
        assert forall|slot: usize| #[trigger] out.contains_key(slot) implies (m.contains_key(slot)
            && out[slot] == m[slot]) || more(slot, out[slot]) by {
            if later(slot, out[slot]) {
                assert(more(slot, out[slot]));
            } else {
                assert(next.contains_key(slot) && out[slot] == next[slot]);
                if slot == here {
                    assert(more(slot, out[slot]));
                }
            }
        }
    }
}

/// The descriptor at `desc` names a library: it ends within the directory, and has a table.
pub open spec fn library_at(img: &ImageInput, desc: int, end: int) -> bool {
    &&& desc + 20 <= end
    &&& imports::word_or_zero(img, desc) != 0 || imports::word_or_zero(img, desc + 16) != 0
}

/// The import of a slot by the descriptor at `desc`: its name, and how its thunks run.
pub open spec fn import_of(
    img: &ImageInput,
    desc: int,
    bare: bool,
    slot: usize,
    name: Seq<char>,
) -> bool {
    named_so(
        img,
        imports::name_at(img, img.base + imports::word_or_zero(img, desc + 12)),
        names_table(img, desc),
        img.base + imports::word_or_zero(img, desc + 16),
        bare,
        0,
        slot,
        name,
    )
}

/// Where the names of a library are: its lookup table, or where it has none its address table.
pub open spec fn names_table(img: &ImageInput, desc: int) -> int {
    if imports::word_or_zero(img, desc) != 0 {
        img.base + imports::word_or_zero(img, desc)
    } else {
        img.base + imports::word_or_zero(img, desc + 16)
    }
}

/// Libraries are named by `d` descriptors and more from `desc` on.
pub open spec fn libraries_to(img: &ImageInput, desc: int, end: int, d: int) -> bool {
    forall|q: int| 0 <= q <= d ==> #[trigger] library_at(img, desc + 20 * q, end)
}

/// The slot is that of an import of one of the descriptors from `desc` on, `left` of them at most.
spec fn imported_so(
    img: &ImageInput,
    desc: int,
    end: int,
    bare: bool,
    left: int,
    slot: usize,
    name: Seq<char>,
) -> bool {
    exists|d: int|
        0 <= d < left && #[trigger] libraries_to(img, desc, end, d) && import_of(
            img,
            desc + 20 * d,
            bare,
            slot,
            name,
        )
}

proof fn libraries_shift(img: &ImageInput, desc: int, end: int, d: int)
    requires
        d >= 1,
    ensures
        libraries_to(img, desc, end, d) <==> library_at(img, desc, end) && libraries_to(
            img,
            desc + 20,
            end,
            d - 1,
        ),
{
    if libraries_to(img, desc, end, d) {
        assert(library_at(img, desc + 20 * 0, end));
        assert forall|q: int| 0 <= q <= d - 1 implies #[trigger] library_at(
            img,
            desc + 20 + 20 * q,
            end,
        ) by {
            assert(library_at(img, desc + 20 * (q + 1), end));
            assert(desc + 20 + 20 * q == desc + 20 * (q + 1));
        }
    }
    if library_at(img, desc, end) && libraries_to(img, desc + 20, end, d - 1) {
        assert forall|q: int| 0 <= q <= d implies #[trigger] library_at(img, desc + 20 * q, end) by {
            if q > 0 {
                assert(library_at(img, desc + 20 + 20 * (q - 1), end));
                assert(desc + 20 + 20 * (q - 1) == desc + 20 * q);
            }
        }
    }
}

proof fn descriptors_name_slots(
    img: &ImageInput,
    m: Map<usize, Seq<char>>,
    desc: int,
    end: int,
    bare: bool,
    left: nat,
)
    ensures
        names_more(
            m,
            imports::descriptors_from(img, m, desc, end, bare, left),
            |slot: usize, name: Seq<char>|
                imported_so(img, desc, end, bare, left as int, slot, name),
        ),
    decreases left,
{
    let out = imports::descriptors_from(img, m, desc, end, bare, left);
    let more = |slot: usize, name: Seq<char>|
        imported_so(img, desc, end, bare, left as int, slot, name);
    if left == 0 || !library_at(img, desc, end) {
        assert(out == m);
        assert forall|slot: usize, name: Seq<char>| !#[trigger] more(slot, name) by {
            if imported_so(img, desc, end, bare, left as int, slot, name) {
                let d = choose|d: int|
                    0 <= d < left && #[trigger] libraries_to(img, desc, end, d) && import_of(
                        img,
                        desc + 20 * d,
                        bare,
                        slot,
                        name,
                    );
                assert(library_at(img, desc + 20 * 0, end));
            }
        }
    } else {
        let lookup = imports::word_or_zero(img, desc);
        let first = imports::word_or_zero(img, desc + 0x10);
        let dll = imports::name_at(img, img.base + imports::word_or_zero(img, desc + 0x0C));
        let table = img.base + if lookup != 0 {
            lookup
        } else {
            first
        };
        let slots = img.base + first;
        let next = imports::thunks_from(img, m, dll, table, slots, bare, 0);
        thunks_name_slots(img, m, dll, table, slots, bare, 0);
        descriptors_name_slots(img, next, desc + 20, end, bare, (left - 1) as nat);
        assert(out == imports::descriptors_from(img, next, desc + 20, end, bare, (left - 1) as nat));
        let own = |slot: usize, name: Seq<char>|
            named_so(img, dll, table, slots, bare, 0, slot, name);
        let later = |slot: usize, name: Seq<char>|
            imported_so(img, desc + 20, end, bare, left - 1, slot, name);
        assert forall|slot: usize, n: Seq<char>| #[trigger] more(slot, n) <==> own(slot, n) || later(
            slot,
            n,
        ) by {
            first_or_later(img, desc, end, bare, left as int, slot, n);
            own_is_import(img, desc, bare, dll, table, slots, slot, n);
        }
        names_join(m, next, out, own, later, more);
    }
}

proof fn own_is_import(
    img: &ImageInput,
    desc: int,
    bare: bool,
    dll: Seq<char>,
    table: int,
    slots: int,
    slot: usize,
    n: Seq<char>,
)
    requires
        dll == imports::name_at(img, img.base + imports::word_or_zero(img, desc + 12)),
        slots == img.base + imports::word_or_zero(img, desc + 16),
        table == img.base + if imports::word_or_zero(img, desc) != 0 {
            imports::word_or_zero(img, desc)
        } else {
            imports::word_or_zero(img, desc + 16)
        },
    ensures
        named_so(img, dll, table, slots, bare, 0, slot, n) <==> import_of(img, desc, bare, slot, n),
{
}

proof fn first_or_later(
    img: &ImageInput,
    desc: int,
    end: int,
    bare: bool,
    left: int,
    slot: usize,
    n: Seq<char>,
)
    requires
        left > 0,
        library_at(img, desc, end),
    ensures
        imported_so(img, desc, end, bare, left, slot, n) <==> import_of(img, desc, bare, slot, n)
            || imported_so(img, desc + 20, end, bare, left - 1, slot, n),
{
    assert(desc + 20 * 0 == desc);
    if import_of(img, desc, bare, slot, n) {
        assert(libraries_to(img, desc, end, 0)) by {
            assert forall|q: int| 0 <= q <= 0 implies #[trigger] library_at(img, desc + 20 * q, end) by {
                assert(desc + 20 * q == desc);
            }
        }
        assert(import_of(img, desc + 20 * 0, bare, slot, n));
    }
    if imported_so(img, desc + 20, end, bare, left - 1, slot, n) {
        let d = choose|d: int|
            0 <= d < left - 1 && #[trigger] libraries_to(img, desc + 20, end, d) && import_of(
                img,
                desc + 20 + 20 * d,
                bare,
                slot,
                n,
            );
        libraries_shift(img, desc, end, d + 1);
        assert(desc + 20 + 20 * d == desc + 20 * (d + 1));
        assert(libraries_to(img, desc, end, d + 1));
    }
    if imported_so(img, desc, end, bare, left, slot, n) {
        let d = choose|d: int|
            0 <= d < left && #[trigger] libraries_to(img, desc, end, d) && import_of(
                img,
                desc + 20 * d,
                bare,
                slot,
                n,
            );
        if d > 0 {
            libraries_shift(img, desc, end, d);
            assert(desc + 20 + 20 * (d - 1) == desc + 20 * d);
            assert(libraries_to(img, desc + 20, end, d - 1));
        }
    }
}

proof fn names_join(
    m: Map<usize, Seq<char>>,
    next: Map<usize, Seq<char>>,
    out: Map<usize, Seq<char>>,
    own: spec_fn(usize, Seq<char>) -> bool,
    later: spec_fn(usize, Seq<char>) -> bool,
    more: spec_fn(usize, Seq<char>) -> bool,
)
    requires
        names_more(m, next, own),
        names_more(next, out, later),
        forall|slot: usize, n: Seq<char>| #[trigger] more(slot, n) <==> own(slot, n) || later(slot, n),
    ensures
        names_more(m, out, more),
{
    assert forall|slot: usize| #[trigger] out.contains_key(slot) <==> m.contains_key(slot) || exists|
        n: Seq<char>,
    | #[trigger]
        more(slot, n) by {
        assert(out.contains_key(slot) <==> next.contains_key(slot) || exists|n: Seq<char>| #[trigger]
            later(slot, n));
        assert(next.contains_key(slot) <==> m.contains_key(slot) || exists|n: Seq<char>| #[trigger]
            own(slot, n));
        if exists|n: Seq<char>| #[trigger] later(slot, n) {
            let n = choose|n: Seq<char>| #[trigger] later(slot, n);
            assert(more(slot, n));
        }
        if exists|n: Seq<char>| #[trigger] own(slot, n) {
            let n = choose|n: Seq<char>| #[trigger] own(slot, n);
            assert(more(slot, n));
        }
        if exists|n: Seq<char>| #[trigger] more(slot, n) {
            let n = choose|n: Seq<char>| #[trigger] more(slot, n);
            assert(own(slot, n) || later(slot, n));
        }
    }
    assert forall|slot: usize| #[trigger] out.contains_key(slot) implies (m.contains_key(slot)
        && out[slot] == m[slot]) || more(slot, out[slot]) by {
        if later(slot, out[slot]) {
            assert(more(slot, out[slot]));
        } else {
            assert(next.contains_key(slot) && out[slot] == next[slot]);
            if own(slot, out[slot]) {
                assert(more(slot, out[slot]));
            }
        }
    }
}

/// A slot is an import of the build.
pub open spec fn is_import(img: &ImageInput, bare: bool, slot: usize, name: Seq<char>) -> bool {
    img.import matches Some((start, end)) && exists|d: int|
        0 <= d < 8192 && #[trigger] libraries_to(img, start as int, end as int, d) && import_of(
            img,
            start + 20 * d,
            bare,
            slot,
            name,
        )
}

/// The imports of a build are exactly the slots of the thunks of its libraries, each under a name that a
/// thunk of that slot has.
pub proof fn imports_are_what_the_libraries_name(img: &ImageInput, bare: bool)
    ensures
        forall|slot: usize| #[trigger]
            imports::imports_named(img, bare).contains_key(slot) <==> exists|name: Seq<char>| #[trigger]
                is_import(img, bare, slot, name),
        forall|slot: usize| #[trigger]
            imports::imports_named(img, bare).contains_key(slot) ==> is_import(
                img,
                bare,
                slot,
                imports::imports_named(img, bare)[slot],
            ),
{
    let out = imports::imports_named(img, bare);
    if let Some((start, end)) = img.import {
        descriptors_name_slots(
            img,
            Map::empty(),
            start as int,
            end as int,
            bare,
            imports::MAX_IMPORTS as nat,
        );
        let more = |slot: usize, name: Seq<char>|
            imported_so(img, start as int, end as int, bare, 8192, slot, name);
        assert forall|slot: usize, name: Seq<char>| #[trigger] more(slot, name) <==> is_import(
            img,
            bare,
            slot,
            name,
        ) by {}
        assert forall|slot: usize| #[trigger] out.contains_key(slot) <==> exists|name: Seq<char>| #[trigger]
            is_import(img, bare, slot, name) by {
            assert(out.contains_key(slot) <==> Map::<usize, Seq<char>>::empty().contains_key(slot)
                || exists|name: Seq<char>| #[trigger] more(slot, name));
            if exists|name: Seq<char>| #[trigger] is_import(img, bare, slot, name) {
                let name = choose|name: Seq<char>| #[trigger] is_import(img, bare, slot, name);
                assert(more(slot, name));
            }
            if exists|name: Seq<char>| #[trigger] more(slot, name) {
                let name = choose|name: Seq<char>| #[trigger] more(slot, name);
                assert(is_import(img, bare, slot, name));
            }
        }
        assert forall|slot: usize| #[trigger] out.contains_key(slot) implies is_import(
            img,
            bare,
            slot,
            out[slot],
        ) by {
            assert(more(slot, out[slot]));
        }
    }
}

}
