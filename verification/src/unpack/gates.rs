//! What a report that passes its gates says of the file, entry by entry.

use crate::unpack::imports;
use crate::unpack::imports::Descriptor;
use crate::unpack::pe;
use crate::unpack::pe::{PeV, SecV};
use crate::unpack::verify;
use crate::unpack::verify::{Percent, VerifyReportV};
use crate::x86;
use crate::x86::Flow;
use vstd::prelude::*;

verus! {

/// The number in four bytes, least significant first; zero where they are not all there.
pub open spec fn word(b: Seq<u8>, o: int) -> int {
    if 0 <= o && o + 4 <= b.len() {
        b[o] + 256 * b[o + 1] + 65536 * b[o + 2] + 16777216 * b[o + 3]
    } else {
        0
    }
}

/// Section number `i` is the first of its name.
pub open spec fn first_named(p: PeV, name: Seq<char>, i: int) -> bool {
    &&& 0 <= i < p.sections.len()
    &&& p.sections[i].name == name
    &&& forall|j: int| 0 <= j < i ==> (#[trigger] p.sections[j]).name != name
}

proof fn named_from_is_first(p: PeV, name: Seq<char>, n: int)
    requires
        0 <= n <= p.sections.len(),
        forall|j: int| 0 <= j < n ==> (#[trigger] p.sections[j]).name != name,
    ensures
        match pe::named_from(p.sections, name, n) {
            Some(s) => exists|i: int| #[trigger] first_named(p, name, i) && s == p.sections[i],
            None => forall|j: int| 0 <= j < p.sections.len() ==> (#[trigger] p.sections[j]).name != name,
        },
    decreases p.sections.len() - n,
{
    if n < p.sections.len() {
        if p.sections[n].name == name {
            assert(first_named(p, name, n));
        } else {
            named_from_is_first(p, name, n + 1);
        }
    }
}

/// The section of a name is the first that has it, and there is none only where none has it.
pub proof fn named_is_first(p: PeV, name: Seq<char>)
    ensures
        match p.named(name) {
            Some(s) => exists|i: int| #[trigger] first_named(p, name, i) && s == p.sections[i],
            None => forall|j: int| 0 <= j < p.sections.len() ==> (#[trigger] p.sections[j]).name != name,
        },
{
    named_from_is_first(p, name, 0);
}

/// There is one first section of a name.
pub proof fn first_is_one(p: PeV, name: Seq<char>, i: int, j: int)
    requires
        first_named(p, name, i),
        first_named(p, name, j),
    ensures
        i == j,
{
    if j < i {
        assert(p.sections[j].name != name);
    }
    if i < j {
        assert(p.sections[i].name != name);
    }
}

/// An address is among the bytes of a section in the file.
pub open spec fn backs(s: SecV, rva: u32) -> bool {
    s.rs > 0 && s.va <= rva && rva - s.va < s.rs
}

proof fn offset_from_is_first(p: PeV, rva: u32, n: int)
    requires
        0 <= n <= p.sections.len(),
        forall|j: int| 0 <= j < n ==> !backs(#[trigger] p.sections[j], rva),
    ensures
        match pe::offset_from(p.sections, rva, n) {
            Some(o) => exists|i: int|
                0 <= i < p.sections.len() && backs(#[trigger] p.sections[i], rva) && o - p.sections[i].ro
                    == rva - p.sections[i].va && forall|j: int|
                    0 <= j < i ==> !backs(#[trigger] p.sections[j], rva),
            None => forall|j: int| 0 <= j < p.sections.len() ==> !backs(#[trigger] p.sections[j], rva),
        },
    decreases p.sections.len() - n,
{
    if n < p.sections.len() {
        if !backs(p.sections[n], rva) {
            offset_from_is_first(p, rva, n + 1);
        }
    }
}

/// An address is as far behind its place in the file as the first section that holds it there is; it has
/// none only where no section holds it.
pub proof fn offset_is_in_the_first_section(p: PeV, rva: u32)
    ensures
        match p.offset(rva) {
            Some(o) => exists|i: int|
                0 <= i < p.sections.len() && backs(#[trigger] p.sections[i], rva) && o - p.sections[i].ro
                    == rva - p.sections[i].va && forall|j: int|
                    0 <= j < i ==> !backs(#[trigger] p.sections[j], rva),
            None => forall|j: int| 0 <= j < p.sections.len() ==> !backs(#[trigger] p.sections[j], rva),
        },
{
    offset_from_is_first(p, rva, 0);
}

/// `raw` is what the file holds of section number `i`.
pub open spec fn held(d: Seq<u8>, p: PeV, i: int, raw: Seq<u8>) -> bool {
    let s = p.sections[i];
    &&& s.ro + s.rs <= d.len()
    &&& raw.len() == s.rs
    &&& forall|k: int| 0 <= k < raw.len() ==> #[trigger] raw[k] == d[s.ro + k]
}

/// The file holds the whole of the section of this name.
pub open spec fn has_whole(d: Seq<u8>, p: PeV, name: Seq<char>) -> bool {
    exists|i: int| #[trigger] first_named(p, name, i) && p.sections[i].ro + p.sections[i].rs <= d.len()
}

proof fn raw_is_held(d: Seq<u8>, p: PeV, name: Seq<char>)
    ensures
        match verify::raw_of(d, p, name) {
            Some(raw) => exists|i: int| #[trigger] first_named(p, name, i) && held(d, p, i, raw),
            None => !has_whole(d, p, name),
        },
        verify::raw_of(d, p, name) is Some <==> has_whole(d, p, name),
{
    named_is_first(p, name);
    if let Some(s) = p.named(name) {
        let i = choose|i: int| #[trigger] first_named(p, name, i) && s == p.sections[i];
        assert forall|j: int| #[trigger] first_named(p, name, j) implies j == i by {
            if j < i {
                assert(p.sections[j].name != name);
            }
            if i < j {
                assert(p.sections[i].name != name);
            }
        }
        if s.ro + s.rs <= d.len() {
            let raw = d.subrange(s.ro as int, s.ro + s.rs);
            assert(held(d, p, i, raw));
        }
    }
}

/// Entry `k` of a function table starts in the section and ends behind its start.
pub open spec fn entry_valid(raw: Seq<u8>, code: SecV, k: int) -> bool {
    let begin = word(raw, 12 * k);
    code.va <= begin && begin < code.va + code.vs && word(raw, 12 * k + 4) > begin
}

/// Entry `k` of a function table starts strictly behind the one before.
pub open spec fn entry_rises(raw: Seq<u8>, k: int) -> bool {
    word(raw, 12 * k) > word(raw, 12 * (k - 1))
}

/// The valid ones among the first `n` entries.
pub open spec fn valid_entries(raw: Seq<u8>, code: SecV, n: int) -> Set<int> {
    Set::new(|k: int| 0 <= k < n && entry_valid(raw, code, k))
}

/// Those of the first `n` entries that start behind the one before.
pub open spec fn rising_entries(raw: Seq<u8>, n: int) -> Set<int> {
    Set::new(|k: int| 1 <= k < n && entry_rises(raw, k))
}

proof fn entries_are_counted(raw: Seq<u8>, code: SecV, n: int)
    requires
        0 <= n,
    ensures
        valid_entries(raw, code, n).finite(),
        rising_entries(raw, n).finite(),
        verify::valid_count(raw, code, n) == valid_entries(raw, code, n).len(),
        verify::rising_count(raw, n) == rising_entries(raw, n).len(),
        valid_entries(raw, code, n).len() <= n,
        n >= 1 ==> rising_entries(raw, n).len() <= n - 1,
    decreases n,
{
    if n == 0 {
        assert(valid_entries(raw, code, n) =~= Set::<int>::empty());
        assert(rising_entries(raw, n) =~= Set::<int>::empty());
    } else {
        entries_are_counted(raw, code, n - 1);
        let v = valid_entries(raw, code, n - 1);
        let r = rising_entries(raw, n - 1);
        if entry_valid(raw, code, n - 1) {
            assert(valid_entries(raw, code, n) =~= v.insert(n - 1));
        } else {
            assert(valid_entries(raw, code, n) =~= v);
        }
        if n >= 2 && entry_rises(raw, n - 1) {
            assert(rising_entries(raw, n) =~= r.insert(n - 1));
        } else {
            assert(rising_entries(raw, n) =~= r);
        }
        if n == 1 {
            assert(r =~= Set::<int>::empty());
        }
    }
}

/// The function table that is checked: the raw `.pdata` of a file with a `.text` section.
pub open spec fn table_is(d: Seq<u8>, p: PeV, code: int, raw: Seq<u8>) -> bool {
    &&& first_named(p, ".text"@, code)
    &&& exists|i: int| #[trigger] first_named(p, ".pdata"@, i) && held(d, p, i, raw)
}

/// The function table is good: more than a thousand entries, more than 95 in a hundred of them in the
/// code and ending behind their start, and more than 99 in a hundred of those that follow another one
/// starting strictly behind it.
pub open spec fn table_good(p: PeV, code: int, raw: Seq<u8>) -> bool {
    let n = raw.len() as int / 12;
    &&& n > 1000
    &&& 100 * valid_entries(raw, p.sections[code], n).len() > 95 * n
    &&& 100 * rising_entries(raw, n).len() > 99 * (n - 1)
}

/// What is reported of the function table.
pub open spec fn table_told(p: PeV, code: int, raw: Seq<u8>, r: VerifyReportV) -> bool {
    let n = raw.len() as int / 12;
    &&& r.pdata_entries == n
    &&& r.pdata_valid_pct.whole == n
    &&& r.pdata_valid_pct.part == valid_entries(raw, p.sections[code], n).len()
    &&& n > 1 ==> r.pdata_ascending_pct.whole == n - 1 && r.pdata_ascending_pct.part
        == rising_entries(raw, n).len()
    &&& n <= 1 ==> r.pdata_ascending_pct == (Percent { part: 0, whole: 0 })
}

/// The function table passes exactly where the file holds one and it is good: no table passes of which
/// 99 in a hundred entries or fewer start strictly behind the one before.
pub proof fn passing_tables_are_good(d: Seq<u8>, reference: Option<(Seq<u8>, Seq<char>)>)
    requires
        verify::verified(d, reference) is Ok,
    ensures
        pe::headers(d) is Ok,
        ({
            let r = verify::verified(d, reference)->Ok_0;
            let p = pe::headers(d)->Ok_0;
            &&& r.pdata_ok <==> exists|code: int, raw: Seq<u8>| #[trigger]
                table_is(d, p, code, raw) && table_good(p, code, raw)
            &&& forall|code: int, raw: Seq<u8>| #[trigger]
                table_is(d, p, code, raw) ==> table_told(p, code, raw, r) && (r.pdata_ok
                    <==> table_good(p, code, raw))
            &&& r.gates_pass ==> r.pdata_ok
        }),
{
    let r = verify::verified(d, reference)->Ok_0;
    let p = pe::headers(d)->Ok_0;
    named_is_first(p, ".text"@);
    raw_is_held(d, p, ".pdata"@);
    match (p.named(".text"@), verify::raw_of(d, p, ".pdata"@)) {
        (Some(s), Some(raw)) => {
            let code = choose|i: int| #[trigger] first_named(p, ".text"@, i) && s == p.sections[i];
            let i = choose|i: int| #[trigger] first_named(p, ".pdata"@, i) && held(d, p, i, raw);
            let n = raw.len() as int / 12;
            entries_are_counted(raw, s, n);
            assert(n <= u32::MAX);
            assert(table_is(d, p, code, raw));
            assert forall|c: int, w: Seq<u8>| #[trigger] table_is(d, p, c, w) implies c == code && w
                == raw by {
                let j = choose|j: int| #[trigger] first_named(p, ".pdata"@, j) && held(d, p, j, w);
                if j < i {
                    assert(p.sections[j].name != ".pdata"@);
                }
                if i < j {
                    assert(p.sections[i].name != ".pdata"@);
                }
                if c < code {
                    assert(p.sections[c].name != ".text"@);
                }
                if code < c {
                    assert(p.sections[code].name != ".text"@);
                }
                assert(w =~= raw);
            }
            assert(r.pdata_ok <==> table_good(p, code, raw));
        },
        _ => {
            assert(!r.pdata_ok);
            assert forall|c: int, w: Seq<u8>| #[trigger] table_is(d, p, c, w) implies false by {
                let j = choose|j: int| #[trigger] first_named(p, ".pdata"@, j) && held(d, p, j, w);
                assert(has_whole(d, p, ".pdata"@));
                assert(p.sections[c].name == ".text"@);
            }
        },
    }
}

/// The descriptor with number `idx`: its lookup table, name and address table, as the file holds them.
pub open spec fn described(d: Seq<u8>, ioff: int, idx: int, x: Descriptor) -> bool {
    let o = ioff + 20 * idx;
    &&& 0 <= o && o + 4 <= d.len()
    &&& x.oft == word(d, o)
    &&& x.name == word(d, o + 12)
    &&& x.ft == word(d, o + 16)
    &&& !(x.oft == 0 && x.name == 0 && x.ft == 0)
}

/// The descriptors end at number `idx`: the file does, or all the descriptor holds is zero.
pub open spec fn table_ends(d: Seq<u8>, ioff: int, idx: int) -> bool {
    let o = ioff + 20 * idx;
    ||| !(0 <= o && o + 4 <= d.len())
    ||| (word(d, o) == 0 && word(d, o + 12) == 0 && word(d, o + 16) == 0)
}

proof fn descriptors_are_listed(d: Seq<u8>, ioff: int, idx: int)
    requires
        0 <= idx <= 4096,
    ensures
        ({
            let xs = imports::descriptors_from(d, ioff, idx);
            &&& xs.len() <= 4096 - idx
            &&& forall|i: int|
                0 <= i < xs.len() ==> described(d, ioff, idx + i, #[trigger] xs[i])
            &&& xs.len() < 4096 - idx ==> table_ends(d, ioff, idx + xs.len())
        }),
    decreases 4096 - idx,
{
    if idx < imports::MAX_DESCRIPTORS {
        if let Some(x) = imports::descriptor_at(d, ioff + 20 * idx) {
            descriptors_are_listed(d, ioff, idx + 1);
            let rest = imports::descriptors_from(d, ioff, idx + 1);
            let xs = imports::descriptors_from(d, ioff, idx);
            assert forall|i: int| 0 <= i < xs.len() implies described(
                d,
                ioff,
                idx + i,
                #[trigger] xs[i],
            ) by {
                if i > 0 {
                    assert(xs[i] == rest[i - 1]);
                }
            }
        }
    }
}

/// The thunk with number `j` of a table at `o` is there and not zero.
pub open spec fn thunk_set(d: Seq<u8>, p: PeV, o: int, j: int) -> bool {
    let size: int = if p.is64 {
        8
    } else {
        4
    };
    let at = o + size * j;
    0 <= at && at + size <= d.len() && exists|k: int| at <= k < at + size && #[trigger] d[k] != 0
}

pub(crate) proof fn thunk_is_set(d: Seq<u8>, p: PeV, o: int, j: int)
    ensures
        thunk_set(d, p, o, j) <==> (imports::thunk_at(d, p.is64, o + j * p.thunk()) matches Some(v)
            && v != 0),
{
    let size: int = if p.is64 {
        8
    } else {
        4
    };
    let at = o + size * j;
    assert(j * p.thunk() == size * j) by (nonlinear_arith)
        requires
            p.thunk() == size,
    ;
    if 0 <= at && at + size <= d.len() {
        if imports::thunk_at(d, p.is64, at) == Some(0u64) {
            assert forall|k: int| at <= k < at + size implies #[trigger] d[k] == 0 by {
                assert(k == at || k == at + 1 || k == at + 2 || k == at + 3 || k == at + 4 || k == at + 5
                    || k == at + 6 || k == at + 7);
            }
        } else {
            if !thunk_set(d, p, o, j) {
                assert(d[at] == 0 && d[at + 1] == 0 && d[at + 2] == 0 && d[at + 3] == 0);
                if p.is64 {
                    assert(d[at + 4] == 0 && d[at + 5] == 0 && d[at + 6] == 0 && d[at + 7] == 0);
                }
            }
        }
    }
}

proof fn run_is_counted(d: Seq<u8>, p: PeV, o: int, j: int)
    requires
        0 <= j <= imports::MAX_THUNKS,
    ensures
        ({
            let n = imports::thunk_run(d, p, o, j);
            &&& 0 <= n <= imports::MAX_THUNKS - j
            &&& forall|k: int| j <= k < j + n ==> #[trigger] thunk_set(d, p, o, k)
            &&& n < imports::MAX_THUNKS - j ==> !thunk_set(d, p, o, j + n)
        }),
    decreases imports::MAX_THUNKS - j,
{
    if j < imports::MAX_THUNKS {
        thunk_is_set(d, p, o, j);
        if thunk_set(d, p, o, j) {
            run_is_counted(d, p, o, j + 1);
        }
    }
}

/// The table that names what a descriptor imports is at `o` in the file: the lookup table, or the address
/// table where there is none.
pub open spec fn names_at(p: PeV, x: Descriptor, o: int) -> bool {
    p.offset(
        if x.oft != 0 {
            x.oft
        } else {
            x.ft
        },
    ) == Some(o)
}

/// Descriptor number `i` imports a function number `j`: its table has that thunk and every one before it.
pub open spec fn imports_one(d: Seq<u8>, p: PeV, xs: Seq<Descriptor>, i: int, j: int) -> bool {
    &&& 0 <= i < xs.len()
    &&& 0 <= j < 8192
    &&& exists|o: int| #[trigger]
        names_at(p, xs[i], o) && forall|k: int| 0 <= k <= j ==> #[trigger] thunk_set(d, p, o, k)
}

/// The functions that the descriptors import, by the number of the descriptor and in its table.
pub open spec fn imported_functions(d: Seq<u8>, p: PeV, xs: Seq<Descriptor>) -> Set<(int, int)> {
    Set::new(|f: (int, int)| imports_one(d, p, xs, f.0, f.1))
}

/// Those of the first `n` descriptors, and of the next the first `m` functions.
spec fn imported_before(d: Seq<u8>, p: PeV, xs: Seq<Descriptor>, n: int, m: int) -> Set<(int, int)> {
    Set::new(
        |f: (int, int)| imports_one(d, p, xs, f.0, f.1) && (f.0 < n || (f.0 == n && f.1 < m)),
    )
}

proof fn one_is_in_the_run(d: Seq<u8>, p: PeV, xs: Seq<Descriptor>, i: int, j: int)
    requires
        0 <= i < xs.len(),
    ensures
        imports_one(d, p, xs, i, j) <==> 0 <= j < imports::imported(d, p, xs[i]),
        0 <= imports::imported(d, p, xs[i]) <= 8192,
{
    let rva = if xs[i].oft != 0 {
        xs[i].oft
    } else {
        xs[i].ft
    };
    if let Some(o) = p.offset(rva) {
        run_is_counted(d, p, o, 0);
        let n = imports::thunk_run(d, p, o, 0);
        assert(names_at(p, xs[i], o));
        if imports_one(d, p, xs, i, j) && j >= n {
            assert(thunk_set(d, p, o, n));
        }
    }
}

proof fn functions_within(d: Seq<u8>, p: PeV, xs: Seq<Descriptor>, n: int, m: int)
    requires
        0 <= n < xs.len(),
        0 <= m <= imports::imported(d, p, xs[n]),
        imported_before(d, p, xs, n, 0).finite(),
    ensures
        imported_before(d, p, xs, n, m).finite(),
        imported_before(d, p, xs, n, m).len() == imported_before(d, p, xs, n, 0).len() + m,
    decreases m,
{
    if m > 0 {
        functions_within(d, p, xs, n, m - 1);
        one_is_in_the_run(d, p, xs, n, m - 1);
        let s = imported_before(d, p, xs, n, m - 1);
        assert(imported_before(d, p, xs, n, m) =~= s.insert((n, m - 1)));
    }
}

proof fn functions_are_counted(d: Seq<u8>, p: PeV, xs: Seq<Descriptor>, n: int)
    requires
        0 <= n <= xs.len(),
    ensures
        imported_before(d, p, xs, n, 0).finite(),
        imported_before(d, p, xs, n, 0).len() == verify::functions_of(d, p, xs, n),
        0 <= verify::functions_of(d, p, xs, n) <= 8192 * n,
    decreases n,
{
    if n == 0 {
        assert(imported_before(d, p, xs, n, 0) =~= Set::<(int, int)>::empty());
    } else {
        functions_are_counted(d, p, xs, n - 1);
        let m = imports::imported(d, p, xs[n - 1]);
        one_is_in_the_run(d, p, xs, n - 1, 0);
        functions_within(d, p, xs, n - 1, m);
        assert forall|f: (int, int)|
            imported_before(d, p, xs, n - 1, m).contains(f) <==> imported_before(
                d,
                p,
                xs,
                n,
                0,
            ).contains(f) by {
            if f.0 == n - 1 {
                one_is_in_the_run(d, p, xs, n - 1, f.1);
            }
        }
        assert(imported_before(d, p, xs, n - 1, m) =~= imported_before(d, p, xs, n, 0));
    }
}

/// The import directory is at `ioff` in the file, and `xs` is what it describes.
pub open spec fn directory_is(d: Seq<u8>, p: PeV, ioff: int, xs: Seq<Descriptor>) -> bool {
    &&& p.dd + 12 <= d.len()
    &&& p.offset(word(d, p.dd + 8) as u32) == Some(ioff)
    &&& xs.len() <= 4096
    &&& forall|i: int| 0 <= i < xs.len() ==> described(d, ioff, i, #[trigger] xs[i])
    &&& xs.len() < 4096 ==> table_ends(d, ioff, xs.len() as int)
}

/// The imports pass exactly where the directory describes five libraries or more, and fifty functions or
/// more in all; both numbers are those that are reported.
pub proof fn passing_imports_are_enough(d: Seq<u8>, reference: Option<(Seq<u8>, Seq<char>)>)
    requires
        verify::verified(d, reference) is Ok,
    ensures
        pe::headers(d) is Ok,
        ({
            let r = verify::verified(d, reference)->Ok_0;
            let p = pe::headers(d)->Ok_0;
            &&& r.imports_ok <==> r.import_dlls >= 5 && r.import_functions >= 50
            &&& r.gates_pass ==> r.imports_ok
            &&& (exists|ioff: int, xs: Seq<Descriptor>| #[trigger]
                directory_is(d, p, ioff, xs) && r.import_dlls == xs.len() && imported_functions(
                    d,
                    p,
                    xs,
                ).finite() && r.import_functions == imported_functions(d, p, xs).len()) || (
            r.import_dlls == 0 && r.import_functions == 0 && !(p.dd + 12 <= d.len() && p.offset(
                word(d, p.dd + 8) as u32,
            ) is Some))
        }),
{
    let r = verify::verified(d, reference)->Ok_0;
    let p = pe::headers(d)->Ok_0;
    let xs = imports::descriptors(d, p);
    functions_are_counted(d, p, xs, xs.len() as int);
    assert(imported_before(d, p, xs, xs.len() as int, 0) =~= imported_functions(d, p, xs));
    if let Some(ioff) = imports::directory(d, p) {
        descriptors_are_listed(d, ioff, 0);
        assert(directory_is(d, p, ioff, xs)) by {
            assert forall|i: int| 0 <= i < xs.len() implies described(d, ioff, i, #[trigger] xs[i]) by {
                assert(described(d, ioff, 0 + i, xs[i]));
            }
        }
    }
}

/// The gates pass exactly where the imports and the function table do, and the code was not found to
/// differ from that of the reference. It is found so exactly where both files hold all of their code.
pub proof fn gates_are_all_three(d: Seq<u8>, reference: Option<(Seq<u8>, Seq<char>)>)
    requires
        verify::verified(d, reference) is Ok,
    ensures
        pe::headers(d) is Ok,
        ({
            let r = verify::verified(d, reference)->Ok_0;
            let p = pe::headers(d)->Ok_0;
            &&& r.gates_pass <==> r.imports_ok && r.pdata_ok && (r.text_identity is None
                || r.text_identity == Some(true))
            &&& reference is None ==> r.text_identity is None && r.text_ref is None
            &&& match reference {
                Some((b, label)) => {
                    &&& r.text_ref == Some(label)
                    &&& r.text_identity is Some <==> pe::headers(b) is Ok && has_whole(
                        d,
                        p,
                        ".text"@,
                    ) && has_whole(b, pe::headers(b)->Ok_0, ".text"@)
                    &&& r.text_identity matches Some(same) ==> forall|
                        x: Seq<u8>,
                        y: Seq<u8>,
                        i: int,
                        j: int,
                    |
                        #![trigger held(d, p, i, x), held(b, pe::headers(b)->Ok_0, j, y)]
                        first_named(p, ".text"@, i) && first_named(
                            pe::headers(b)->Ok_0,
                            ".text"@,
                            j,
                        ) && held(d, p, i, x) && held(b, pe::headers(b)->Ok_0, j, y) ==> (same
                            <==> x.len() == y.len() && forall|k: int|
                            0 <= k < x.len() ==> #[trigger] x[k] == y[k])
                },
                None => true,
            }
        }),
{
    let r = verify::verified(d, reference)->Ok_0;
    let p = pe::headers(d)->Ok_0;
    raw_is_held(d, p, ".text"@);
    if let Some((b, label)) = reference {
        if let Ok(q) = pe::headers(b) {
            raw_is_held(b, q, ".text"@);
            if let (Some(u), Some(v)) = (
                verify::raw_of(d, p, ".text"@),
                verify::raw_of(b, q, ".text"@),
            ) {
                assert forall|x: Seq<u8>, y: Seq<u8>, i: int, j: int|
                    #![trigger held(d, p, i, x), held(b, q, j, y)]
                    first_named(p, ".text"@, i) && first_named(q, ".text"@, j) && held(d, p, i, x)
                        && held(b, q, j, y) implies ((u == v) <==> x.len() == y.len() && forall|k: int|
                    0 <= k < x.len() ==> #[trigger] x[k] == y[k]) by {
                    held_is_one(d, p, ".text"@, i, x, u);
                    held_is_one(b, q, ".text"@, j, y, v);
                    if x.len() == y.len() && forall|k: int| 0 <= k < x.len() ==> #[trigger] x[k] == y[k] {
                        assert(x =~= y);
                    }
                }
            }
        }
    }
}

proof fn held_is_one(d: Seq<u8>, p: PeV, name: Seq<char>, i: int, x: Seq<u8>, u: Seq<u8>)
    requires
        first_named(p, name, i),
        held(d, p, i, x),
        verify::raw_of(d, p, name) == Some(u),
    ensures
        x == u,
{
    named_is_first(p, name);
    let j = choose|j: int| #[trigger] first_named(p, name, j) && p.named(name)->0 == p.sections[j];
    if j < i {
        assert(p.sections[j].name != name);
    }
    if i < j {
        assert(p.sections[i].name != name);
    }
    assert(x =~= u);
}

/// A section that the packer left: its name is one of five.
pub open spec fn left_over(s: SecV) -> bool {
    ||| s.name == ".themida"@
    ||| s.name == ".boot"@
    ||| s.name == ".SCY"@
    ||| s.name == ".rsrv0"@
    ||| s.name == ".rsrv1"@
}

/// The address is in a section: from its start on, for its size in memory or in the file, whichever is
/// larger, as far as addresses go.
pub open spec fn in_section(s: SecV, rva: int) -> bool {
    &&& s.va <= rva
    &&& rva < s.va + s.vs || rva < s.va + s.rs
    &&& rva < 0xFFFF_FFFF
}

/// The instruction at the front of `b` calls or jumps into a section that the packer left.
pub open spec fn leads_out(p: PeV, b: Seq<u8>, ip: u64) -> bool {
    let bits: u32 = if p.is64 {
        64
    } else {
        32
    };
    let h = x86::head_of(bits, b, ip);
    let f = x86::flow_of(bits, b, ip);
    &&& !h.invalid
    &&& f == Flow::Call || f == Flow::UnconditionalBranch
    &&& h.target >= p.image_base
    &&& exists|i: int|
        0 <= i < p.sections.len() && left_over(#[trigger] p.sections[i]) && in_section(
            p.sections[i],
            (h.target - p.image_base) % 0x1_0000_0000,
        )
}

/// The first or the second instruction of `b` calls or jumps into a section that the packer left.
pub open spec fn starts_outside(p: PeV, b: Seq<u8>, ip: u64) -> bool {
    let bits: u32 = if p.is64 {
        64
    } else {
        32
    };
    let h = x86::head_of(bits, b, ip);
    &&& b.len() > 0
    &&& leads_out(p, b, ip) || (!h.invalid && h.len < b.len() && leads_out(
        p,
        b.skip(h.len as int),
        ip.wrapping_add(h.len as u64),
    ))
}

proof fn residue_is_left_over(p: PeV, n: int, rva: u32)
    requires
        0 <= n <= p.sections.len(),
    ensures
        verify::in_residue(verify::residue_of(p, n), rva) <==> exists|i: int|
            0 <= i < n && left_over(#[trigger] p.sections[i]) && in_section(
                p.sections[i],
                rva as int,
            ),
        verify::residue_of(p, n).len() == 0 <==> forall|i: int|
            0 <= i < n ==> !left_over(#[trigger] p.sections[i]),
    decreases n,
{
    if n > 0 {
        residue_is_left_over(p, n - 1, rva);
        let before = verify::residue_of(p, n - 1);
        let all = verify::residue_of(p, n);
        let s = p.sections[n - 1];
        if left_over(s) {
            assert(all == before.push(verify::span_of(s)));
            assert(all[before.len() as int] == verify::span_of(s));
            if verify::in_residue(before, rva) {
                let k = choose|k: int|
                    0 <= k < before.len() && (#[trigger] before[k]).0 <= rva < before[k].1;
                assert(all[k] == before[k]);
            }
            if verify::in_residue(all, rva) && !in_section(s, rva as int) {
                let k = choose|k: int| 0 <= k < all.len() && (#[trigger] all[k]).0 <= rva < all[k].1;
                assert(k < before.len());
                assert(before[k] == all[k]);
            }
        }
    }
}

proof fn straying_starts_outside(p: PeV, b: Seq<u8>, ip: u64)
    ensures
        verify::strays(p, verify::residue_of(p, p.sections.len() as int), b, ip, 0, 2)
            <==> starts_outside(p, b, ip),
{
    let spans = verify::residue_of(p, p.sections.len() as int);
    let bits = verify::mode_of(p);
    reveal_with_fuel(verify::strays, 4);
    assert(b.skip(0) =~= b);
    assert(ip.wrapping_add(0) == ip);
    let h = x86::head_of(bits, b, ip);
    if h.target >= p.image_base {
        residue_is_left_over(
            p,
            p.sections.len() as int,
            ((h.target - p.image_base) % 0x1_0000_0000) as u32,
        );
    }
    let at = ip.wrapping_add(h.len as u64);
    let g = x86::head_of(bits, b.skip(h.len as int), at);
    if g.target >= p.image_base {
        residue_is_left_over(
            p,
            p.sections.len() as int,
            ((g.target - p.image_base) % 0x1_0000_0000) as u32,
        );
    }
}

/// The file holds code at an address, and `b` is the first sixteen bytes of it, or what there is.
pub open spec fn code_at(d: Seq<u8>, p: PeV, rva: int, b: Seq<u8>) -> bool {
    p.offset(rva as u32) matches Some(o) && o <= d.len() && o + b.len() <= d.len() && (b.len() == 16 || (
    b.len() < 16 && o + b.len() == d.len())) && forall|k: int| 0 <= k < b.len() ==> #[trigger] b[k] == d[o
        + k]
}

/// The function of entry `k` can be sampled.
pub open spec fn sampleable(d: Seq<u8>, p: PeV, raw: Seq<u8>, k: int) -> bool {
    exists|b: Seq<u8>| #[trigger] code_at(d, p, word(raw, 12 * k), b)
}

/// The function of entry `k` starts with a call or jump out of the code.
pub open spec fn strayed(d: Seq<u8>, p: PeV, raw: Seq<u8>, k: int) -> bool {
    exists|b: Seq<u8>| #[trigger]
        code_at(d, p, word(raw, 12 * k), b) && starts_outside(
            p,
            b,
            p.image_base.wrapping_add(word(raw, 12 * k) as u64),
        )
}

/// The sampled entries from number `t` on, when every `step`-th one is looked at.
pub open spec fn samples(d: Seq<u8>, p: PeV, raw: Seq<u8>, step: int, t: int) -> Set<int> {
    Set::new(|q: int| t <= q && q * step < raw.len() as int / 12 && sampleable(d, p, raw, q * step))
}

/// Those of them that start outside.
pub open spec fn outsiders(d: Seq<u8>, p: PeV, raw: Seq<u8>, step: int, t: int) -> Set<int> {
    Set::new(|q: int| t <= q && q * step < raw.len() as int / 12 && strayed(d, p, raw, q * step))
}

proof fn code_is_one(d: Seq<u8>, p: PeV, rva: u32)
    ensures
        match verify::bytes_at(d, p, rva, 16) {
            Some(b) => code_at(d, p, rva as int, b) && forall|x: Seq<u8>| #[trigger]
                code_at(d, p, rva as int, x) ==> x == b,
            None => forall|x: Seq<u8>| !#[trigger] code_at(d, p, rva as int, x),
        },
{
    offset_is_in_the_first_section(p, rva);
    if let Some(b) = verify::bytes_at(d, p, rva, 16) {
        assert forall|x: Seq<u8>| #[trigger] code_at(d, p, rva as int, x) implies x == b by {
            assert(x =~= b);
        }
    }
}

proof fn samples_are_counted(d: Seq<u8>, p: PeV, raw: Seq<u8>, step: int, t: int)
    requires
        step >= 1,
        t >= 0,
    ensures
        samples(d, p, raw, step, t).finite(),
        outsiders(d, p, raw, step, t).finite(),
        verify::sampled_from(
            d,
            p,
            raw,
            verify::residue_of(p, p.sections.len() as int),
            step,
            t * step,
        ) == (
            samples(d, p, raw, step, t).len() as int,
            outsiders(d, p, raw, step, t).len() as int,
        ),
    decreases (if t < raw.len() as int / 12 { raw.len() as int / 12 - t } else { 0 }),
{
    let n = raw.len() as int / 12;
    let spans = verify::residue_of(p, p.sections.len() as int);
    assert(t * step >= t) by (nonlinear_arith)
        requires
            t >= 0,
            step >= 1,
    ;
    if t * step < n {
        assert((t + 1) * step == t * step + step) by (nonlinear_arith);
        samples_are_counted(d, p, raw, step, t + 1);
        let begin = verify::begin_of(raw, t * step);
        assert(begin == word(raw, 12 * (t * step)));
        code_is_one(d, p, begin);
        let s = samples(d, p, raw, step, t + 1);
        let o = outsiders(d, p, raw, step, t + 1);
        if let Some(b) = verify::bytes_at(d, p, begin, 16) {
            assert(code_at(d, p, word(raw, 12 * (t * step)), b));
            straying_starts_outside(p, b, p.image_base.wrapping_add(begin as u64));
            assert(sampleable(d, p, raw, t * step));
            assert(strayed(d, p, raw, t * step) <==> starts_outside(
                p,
                b,
                p.image_base.wrapping_add(begin as u64),
            ));
            assert(samples(d, p, raw, step, t) =~= s.insert(t));
            if strayed(d, p, raw, t * step) {
                assert(outsiders(d, p, raw, step, t) =~= o.insert(t));
            } else {
                assert(outsiders(d, p, raw, step, t) =~= o);
            }
        } else {
            assert(!sampleable(d, p, raw, t * step));
            assert(!strayed(d, p, raw, t * step));
            assert(samples(d, p, raw, step, t) =~= s);
            assert(outsiders(d, p, raw, step, t) =~= o);
        }
    } else {
        assert forall|q: int| t <= q implies #[trigger] (q * step) >= n by {
            assert(q * step >= t * step) by (nonlinear_arith)
                requires
                    t <= q,
                    step >= 1,
            ;
        }
        assert(samples(d, p, raw, step, t) =~= Set::<int>::empty());
        assert(outsiders(d, p, raw, step, t) =~= Set::<int>::empty());
    }
}

/// The step of a sample of `n` entries: the least by which at most two thousand are looked at.
pub open spec fn least_step(n: int, step: int) -> bool {
    &&& step >= 1
    &&& step * 2000 >= n
    &&& step > 1 ==> (step - 1) * 2000 < n
}

/// The sample looks at every function table entry, or evenly at two thousand of them at most, and tells
/// how many have code in the file and how many of those start with a call or jump into what the packer
/// left. Nothing is sampled where nothing was left or there is no table.
pub proof fn samples_are_of_the_table(d: Seq<u8>, reference: Option<(Seq<u8>, Seq<char>)>)
    requires
        verify::verified(d, reference) is Ok,
    ensures
        pe::headers(d) is Ok,
        ({
            let r = verify::verified(d, reference)->Ok_0;
            let p = pe::headers(d)->Ok_0;
            let residue = exists|i: int|
                0 <= i < p.sections.len() && left_over(#[trigger] p.sections[i]);
            &&& r.virtualization_pct.whole == r.virtualization_sampled
            &&& !residue || !has_whole(d, p, ".pdata"@) ==> r.virtualization_sampled == 0
                && r.virtualization_pct.part == 0
            &&& forall|i: int, raw: Seq<u8>, step: int|
                #![trigger held(d, p, i, raw), least_step(raw.len() as int / 12, step)]
                residue && first_named(p, ".pdata"@, i) && held(d, p, i, raw) && least_step(
                    raw.len() as int / 12,
                    step,
                ) ==> r.virtualization_sampled == samples(d, p, raw, step, 0).len()
                    && r.virtualization_pct.part == outsiders(d, p, raw, step, 0).len()
        }),
{
    let r = verify::verified(d, reference)->Ok_0;
    let p = pe::headers(d)->Ok_0;
    let spans = verify::residue_of(p, p.sections.len() as int);
    raw_is_held(d, p, ".pdata"@);
    residue_is_left_over(p, p.sections.len() as int, 0);
    if let Some(all) = verify::raw_of(d, p, ".pdata"@) {
        let n = all.len() as int / 12;
        let step = verify::stride(n);
        samples_are_counted(d, p, all, step, 0);
        verify::sample_bounds(d, p, all, spans, step, 0);
        assert forall|i: int, raw: Seq<u8>, s: int|
            #![trigger held(d, p, i, raw), least_step(raw.len() as int / 12, s)]
            first_named(p, ".pdata"@, i) && held(d, p, i, raw) && least_step(
                raw.len() as int / 12,
                s,
            ) implies raw == all && s == step by {
            held_is_one(d, p, ".pdata"@, i, raw, all);
        }
    }
}

/// `b` is what the file holds at the entry point: 48 bytes, or what there is; nothing where the file does
/// not hold the entry point.
pub open spec fn entry_is(d: Seq<u8>, p: PeV, b: Seq<u8>) -> bool {
    match p.offset(p.aep) {
        Some(o) => if o <= d.len() {
            &&& o + b.len() <= d.len()
            &&& b.len() == 48 || (b.len() < 48 && o + b.len() == d.len())
            &&& forall|k: int| 0 <= k < b.len() ==> #[trigger] b[k] == d[o + k]
        } else {
            b.len() == 0
        },
        None => b.len() == 0,
    }
}

/// The code starts as the compiler lays out an entry point: `mov [rsp+20h], rbx`.
pub open spec fn usual_start(b: Seq<u8>) -> bool {
    &&& b.len() >= 5
    &&& b[0] == 0x48
    &&& b[1] == 0x89
    &&& b[2] == 0x5C
    &&& b[3] == 0x24
    &&& b[4] == 0x20
}

/// The report tells of the entry point whether it starts as usual, and warns where it does not, where more
/// than one in a hundred of the sampled functions starts outside, and where the code of a reference could
/// not be read; none of that decides whether the gates pass.
pub proof fn warnings_are_three(d: Seq<u8>, reference: Option<(Seq<u8>, Seq<char>)>, b: Seq<u8>)
    requires
        verify::verified(d, reference) is Ok,
        pe::headers(d) is Ok,
        entry_is(d, pe::headers(d)->Ok_0, b),
        d.len() <= u64::MAX,
    ensures
        ({
            let r = verify::verified(d, reference)->Ok_0;
            let p = pe::headers(d)->Ok_0;
            let odd: int = if usual_start(b) {
                0
            } else {
                1
            };
            let many: int = if r.virtualization_pct.whole > 0 && 100 * r.virtualization_pct.part
                > r.virtualization_pct.whole {
                1
            } else {
                0
            };
            let unread: int = if reference is Some && r.text_identity is None {
                1
            } else {
                0
            };
            &&& r.oep_rva == p.aep
            &&& r.output_size == d.len()
            &&& r.oep_is_msvc <==> usual_start(b)
            &&& r.warnings.len() == unread + odd + many
        }),
{
    let r = verify::verified(d, reference)->Ok_0;
    let p = pe::headers(d)->Ok_0;
    let code = verify::entry_code(d, p);
    offset_is_in_the_first_section(p, p.aep);
    assert(code =~= b);
    let mark = verify::msvc_prologue();
    if usual_start(b) {
        assert(b.subrange(0, 5) =~= mark);
    }
    if crate::le::occurs_at(b, 0, mark) {
        let part = b.subrange(0, mark.len() as int);
        assert(part[0] == b[0] && part[1] == b[1] && part[2] == b[2] && part[3] == b[3] && part[4] == b[4]);
        assert(mark[0] == 0x48 && mark[1] == 0x89 && mark[2] == 0x5C && mark[3] == 0x24 && mark[4] == 0x20);
    }
}

}
