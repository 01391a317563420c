//! What cleaning does to the sections, and what it reports.

use crate::le;
use crate::unpack::clean;
use crate::unpack::clean::CleanOptions;
use crate::unpack::gates;
use crate::unpack::gates::{first_is_one, first_named, named_is_first, thunk_set};
use crate::unpack::imports;
use crate::unpack::imports::Descriptor;
use crate::unpack::keeps;
use crate::unpack::pe;
use crate::unpack::pe::{PeV, SecV};
use vstd::prelude::*;

verus! {

/// Section number `i` is taken out of the file: it is the first `.themida` or the first `.boot`.
pub open spec fn removed(p: PeV, i: int) -> bool {
    first_named(p, ".themida"@, i) || first_named(p, ".boot"@, i)
}

/// The removed sections lie between `lo` and `hi` in the file, and reach both.
pub open spec fn bounds(p: PeV, lo: int, hi: int) -> bool {
    &&& forall|i: int| #[trigger]
        removed(p, i) ==> lo <= p.sections[i].ro && p.sections[i].ro + p.sections[i].rs <= hi
    &&& exists|i: int| #[trigger] removed(p, i) && p.sections[i].ro == lo
    &&& exists|i: int| #[trigger] removed(p, i) && p.sections[i].ro + p.sections[i].rs == hi
}

proof fn dead_is_removed(p: PeV, table: int)
    requires
        keeps::in_a_row(p, table),
    ensures
        forall|i: int|
            0 <= i < p.sections.len() ==> (#[trigger] clean::among(clean::dead(p), p.sections[i])
                <==> removed(p, i)),
        clean::dead(p).len() == 0 <==> forall|i: int| !#[trigger] removed(p, i),
        clean::dead(p).len() > 0 ==> bounds(p, clean::dead_start(p), clean::dead_end(p)),
{
    reveal_with_fuel(clean::low, 3);
    reveal_with_fuel(clean::high, 3);
    named_is_first(p, ".themida"@);
    named_is_first(p, ".boot"@);
    let d = clean::dead(p);
    let a = p.named(".themida"@);
    let b = p.named(".boot"@);
    let i = choose|i: int| #[trigger] first_named(p, ".themida"@, i) && a->0 == p.sections[i];
    let j = choose|j: int| #[trigger] first_named(p, ".boot"@, j) && b->0 == p.sections[j];
    assert(a is None ==> forall|k: int| !#[trigger] first_named(p, ".themida"@, k));
    assert(b is None ==> forall|k: int| !#[trigger] first_named(p, ".boot"@, k));
    assert(a is Some ==> first_named(p, ".themida"@, i) && d[0] == p.sections[i] && removed(p, i));
    assert(b is Some ==> first_named(p, ".boot"@, j) && d.last() == p.sections[j] && removed(p, j));
    assert forall|k: int| 0 <= k < p.sections.len() implies (#[trigger] clean::among(
        d,
        p.sections[k],
    ) <==> removed(p, k)) by {
        assert(p.sections[k].hdr == table + pe::SECTION_HEADER * k);
        if clean::among(d, p.sections[k]) {
            let q = choose|q: int| 0 <= q < d.len() && (#[trigger] d[q]).hdr == p.sections[k].hdr;
            let at = if a is Some && q == 0 {
                i
            } else {
                j
            };
            assert(d[q] == p.sections[at]);
            assert(p.sections[at].hdr == table + pe::SECTION_HEADER * at);
            assert(at == k);
        }
        if removed(p, k) {
            if first_named(p, ".themida"@, k) {
                first_is_one(p, ".themida"@, k, i);
                assert(d[0].hdr == p.sections[k].hdr);
            } else {
                first_is_one(p, ".boot"@, k, j);
                assert(d[d.len() - 1].hdr == p.sections[k].hdr);
            }
        }
    }
    assert forall|k: int| #[trigger] removed(p, k) implies (a is Some && k == i) || (b is Some && k
        == j) by {
        if first_named(p, ".themida"@, k) {
            first_is_one(p, ".themida"@, k, i);
        } else {
            first_is_one(p, ".boot"@, k, j);
        }
    }
}

/// What becomes of section number `i`: it keeps its address and its size in memory; the packer's two names
/// are replaced; what was removed has no bytes in the file, and what stood behind it moves up.
pub open spec fn section_became(p: PeV, i: int, c: SecV, cut: int) -> bool {
    let s = p.sections[i];
    &&& c.va == s.va
    &&& c.vs == s.vs
    &&& s.name == ".themida"@ ==> c.name == ".rsrv0"@
    &&& s.name == ".boot"@ ==> c.name == ".rsrv1"@
    &&& s.name != ".themida"@ && s.name != ".boot"@ ==> c.name == s.name
    &&& cut == 0 ==> c.rs == s.rs && c.ro == s.ro
    &&& cut > 0 && removed(p, i) ==> c.rs == 0 && c.ro == 0
    &&& cut > 0 && !removed(p, i) ==> {
        &&& c.rs == s.rs
        &&& s.rs == 0 ==> c.ro == s.ro
        &&& forall|lo: int, hi: int|
            s.rs > 0 && #[trigger] bounds(p, lo, hi) ==> cut == hi - lo && ((s.ro + s.rs <= lo && c.ro
                == s.ro) || (s.ro >= hi && c.ro == s.ro - cut))
    }
}

proof fn section_becomes(raw: Seq<u8>, p: PeV, i: int, cut: int)
    requires
        pe::headers(raw) == Ok::<PeV, Seq<char>>(p),
        0 <= i < p.sections.len(),
        cut == if clean::strips(p) {
            clean::dead_end(p) - clean::dead_start(p)
        } else {
            0
        },
        clean::strips(p) ==> clean::kept_in(p, clean::dead_start(p), clean::dead_end(p), 0) is None,
        clean::strips(p) ==> clean::dead_start(p) >= 0,
    ensures
        section_became(p, i, clean::cleaned_section(p, p.sections[i]), cut),
{
    keeps::headers_are(raw);
    keeps::reserved_names();
    dead_is_removed(p, keeps::table_at(raw, p));
    reveal_strlit(".themida");
    reveal_strlit(".boot");
    assert(".themida"@.len() == 8 && ".boot"@.len() == 5);
    let s = p.sections[i];
    let c = clean::cleaned_section(p, s);
    assert(clean::among(clean::dead(p), s) <==> removed(p, i));
    if clean::strips(p) {
        let lo = clean::dead_start(p);
        let hi = clean::dead_end(p);
        keeps::kept_is_apart(p, lo, hi, i, 0);
        assert forall|x: int, y: int| #[trigger] bounds(p, x, y) implies x == lo && y == hi by {
            let e = choose|e: int| #[trigger] removed(p, e) && p.sections[e].ro == lo;
            let f = choose|f: int| #[trigger]
                removed(p, f) && p.sections[f].ro + p.sections[f].rs == hi;
            let g = choose|g: int| #[trigger] removed(p, g) && p.sections[g].ro == x;
            let h = choose|h: int| #[trigger]
                removed(p, h) && p.sections[h].ro + p.sections[h].rs == y;
            assert(removed(p, e) && removed(p, f) && removed(p, g) && removed(p, h));
        }
    }
}

/// Every section of a cleaned file is what it was, but for the packer's: their names are replaced, the
/// bytes of the first `.themida` and the first `.boot` are taken out of the file, and what stood behind
/// them moves up by as much. No section that is kept shares bytes with what is taken out.
pub proof fn sections_become(raw: Seq<u8>, p: PeV, opts: CleanOptions)
    requires
        pe::headers(raw) == Ok::<PeV, Seq<char>>(p),
        raw.len() <= u64::MAX,
    ensures
        clean::cleaned(raw, opts) matches Ok((out, summary)) ==> (pe::headers(out) matches Ok(q)
            && q.sections.len() == p.sections.len() && q.aep == p.aep && q.image_base == p.image_base
            && q.is64 == p.is64 && forall|i: int|
            0 <= i < p.sections.len() ==> section_became(
                p,
                i,
                #[trigger] q.sections[i],
                summary.stripped_bytes as int,
            )),
{
    if let Ok((out, summary)) = clean::cleaned(raw, opts) {
        keeps::addresses_never_move(raw, p, opts);
        keeps::stripping_is_clear(raw, p, opts);
        let q = clean::cleaned_headers(p);
        if clean::strips(p) {
            keeps::low_is_an_offset(clean::dead(p), clean::dead(p).len() as int);
        }
        assert forall|i: int| 0 <= i < p.sections.len() implies section_became(
            p,
            i,
            #[trigger] q.sections[i],
            summary.stripped_bytes as int,
        ) by {
            section_becomes(raw, p, i, summary.stripped_bytes as int);
        }
    }
}

/// `idx` lists, in order, the sections before `n` whose name is replaced.
pub open spec fn replaced(p: PeV, n: int, idx: Seq<int>) -> bool {
    &&& forall|i: int, j: int| 0 <= i < j < idx.len() ==> #[trigger] idx[i] < #[trigger] idx[j]
    &&& forall|i: int| #[trigger]
        idx.contains(i) <==> 0 <= i < n && (p.sections[i].name == ".themida"@ || p.sections[i].name
            == ".boot"@)
}

/// The names that are reported as replaced are those of every `.themida` and `.boot` section, in order.
pub proof fn replaced_names_are_reported(p: PeV, n: int) -> (idx: Seq<int>)
    requires
        0 <= n <= p.sections.len(),
    ensures
        replaced(p, n, idx),
        clean::old_names(p, n).len() == idx.len(),
        forall|k: int|
            0 <= k < idx.len() ==> #[trigger] clean::old_names(p, n)[k] == p.sections[idx[k]].name,
    decreases n,
{
    if n <= 0 {
        Seq::empty()
    } else {
        let before = replaced_names_are_reported(p, n - 1);
        let names = clean::old_names(p, n - 1);
        let name = p.sections[n - 1].name;
        if name == ".themida"@ || name == ".boot"@ {
            let idx = before.push(n - 1);
            assert forall|i: int| #[trigger] idx.contains(i) <==> 0 <= i < n && (p.sections[i].name
                == ".themida"@ || p.sections[i].name == ".boot"@) by {
                if idx.contains(i) {
                    let k = choose|k: int| 0 <= k < idx.len() && idx[k] == i;
                    if k < before.len() {
                        assert(before[k] == i);
                        assert(before.contains(i));
                    }
                }
                if before.contains(i) {
                    let k = choose|k: int| 0 <= k < before.len() && before[k] == i;
                    assert(idx[k] == i);
                }
                if i == n - 1 {
                    assert(idx[before.len() as int] == i);
                }
            }
            assert forall|i: int, j: int| 0 <= i < j < idx.len() implies #[trigger] idx[i]
                < #[trigger] idx[j] by {
                assert(before.contains(before[i]));
            }
            assert forall|k: int| 0 <= k < idx.len() implies #[trigger] clean::old_names(p, n)[k]
                == p.sections[idx[k]].name by {
                if k < before.len() {
                    assert(clean::old_names(p, n)[k] == names[k]);
                }
            }
            idx
        } else {
            assert forall|i: int| #[trigger] before.contains(i) <==> 0 <= i < n && (p.sections[i].name
                == ".themida"@ || p.sections[i].name == ".boot"@) by {
                if 0 <= i < n && (p.sections[i].name == ".themida"@ || p.sections[i].name == ".boot"@) {
                    assert(i < n - 1);
                }
            }
            before
        }
    }
}

/// The end of the address table of a descriptor: one thunk behind those it imports.
pub open spec fn table_end(d: Seq<u8>, p: PeV, x: Descriptor) -> int {
    x.ft + (if p.is64 {
        8int
    } else {
        4
    }) * (imports::imported(d, p, x) + 1)
}

/// `lo` to `hi` is the least extent that holds the address tables of the first `n` descriptors.
pub open spec fn extent(d: Seq<u8>, p: PeV, xs: Seq<Descriptor>, n: int, lo: int, hi: int) -> bool {
    &&& forall|i: int|
        0 <= i < n && (#[trigger] xs[i]).ft != 0 ==> lo <= xs[i].ft && table_end(d, p, xs[i]) <= hi
    &&& exists|i: int| 0 <= i < n && (#[trigger] xs[i]).ft != 0 && xs[i].ft == lo
    &&& exists|i: int| 0 <= i < n && (#[trigger] xs[i]).ft != 0 && table_end(d, p, xs[i]) == hi
}

proof fn tables_have_an_extent(d: Seq<u8>, p: PeV, xs: Seq<Descriptor>, n: int)
    requires
        0 <= n <= xs.len(),
    ensures
        match imports::tables_of(d, p, xs, n) {
            Some((lo, hi)) => extent(d, p, xs, n, lo, hi),
            None => forall|i: int| 0 <= i < n ==> (#[trigger] xs[i]).ft == 0,
        },
    decreases n,
{
    if n > 0 {
        tables_have_an_extent(d, p, xs, n - 1);
        let x = xs[n - 1];
        let m = imports::imported(d, p, x) + 1;
        assert(m * p.thunk() == p.thunk() * m) by (nonlinear_arith);
        if let Some((lo, hi)) = imports::tables_of(d, p, xs, n) {
            if let Some((a, b)) = imports::tables_of(d, p, xs, n - 1) {
                let i = choose|i: int| 0 <= i < n - 1 && (#[trigger] xs[i]).ft != 0 && xs[i].ft == a;
                let j = choose|j: int|
                    0 <= j < n - 1 && (#[trigger] xs[j]).ft != 0 && table_end(d, p, xs[j]) == b;
                assert(xs[i].ft == a);
                assert(table_end(d, p, xs[j]) == b);
            }
            if x.ft != 0 {
                assert(xs[n - 1].ft == x.ft);
            }
        }
    }
}

/// The import address directory is the least extent that holds every address table, each with its end; it
/// is empty where no descriptor has one, and refused where it is too long to write down.
pub proof fn import_tables_are_spanned(d: Seq<u8>, p: PeV)
    ensures
        ({
            let xs = imports::descriptors(d, p);
            match imports::iat_of(d, p) {
                Ok((rva, size)) => (rva == 0 && size == 0 && forall|i: int|
                    0 <= i < xs.len() ==> (#[trigger] xs[i]).ft == 0) || extent(
                    d,
                    p,
                    xs,
                    xs.len() as int,
                    rva as int,
                    rva + size,
                ),
                Err(_) => exists|lo: int, hi: int| #[trigger]
                    extent(d, p, xs, xs.len() as int, lo, hi) && hi - lo > u32::MAX,
            }
        }),
{
    let xs = imports::descriptors(d, p);
    let n = xs.len() as int;
    tables_have_an_extent(d, p, xs, n);
    if let Some((lo, hi)) = imports::tables_of(d, p, xs, n) {
        let i = choose|i: int| 0 <= i < n && (#[trigger] xs[i]).ft != 0 && xs[i].ft == lo;
        assert(xs[i].ft == lo);
        assert(table_end(d, p, xs[i]) <= hi);
        if let Some(o) = p.offset(
            if xs[i].oft != 0 {
                xs[i].oft
            } else {
                xs[i].ft
            },
        ) {
            imports::run_fits(d, p, o, 0);
        }
        assert(hi >= lo);
    }
}

/// The bytes of a thunk.
pub open spec fn thunk_size(p: PeV) -> int {
    if p.is64 {
        8
    } else {
        4
    }
}

/// Thunk number `j` of a table at `o` is in the file.
pub open spec fn thunk_there(d: Seq<u8>, p: PeV, o: int, j: int) -> bool {
    0 <= o + thunk_size(p) * j && o + thunk_size(p) * j + thunk_size(p) <= d.len()
}

/// A table at `o` has `c` thunks from number `j` on, its end among them: those before the last are set, and
/// the last is not, unless it is number 8192 or the file ends behind it.
pub open spec fn table_has(d: Seq<u8>, p: PeV, o: int, j: int, c: int) -> bool {
    &&& j <= c <= 8192
    &&& forall|k: int| j <= k < c - 1 ==> #[trigger] thunk_set(d, p, o, k)
    &&& forall|k: int| j <= k < c ==> #[trigger] thunk_there(d, p, o, k)
    &&& c == 8192 || (c > j && !thunk_set(d, p, o, c - 1)) || !thunk_there(d, p, o, c)
}

/// Thunk number `k` was written: it is now what the other table has, byte by byte, unless it lies in the
/// code section, where it stays as it was.
pub open spec fn thunk_copied(
    d: Seq<u8>,
    p: PeV,
    from: int,
    to: int,
    k: int,
    n: Seq<u8>,
) -> bool {
    let w = thunk_size(p);
    forall|b: int|
        0 <= b < w && to + w * k + b < n.len() ==> #[trigger] n[to + w * k + b]
            == if imports::guarded(p, to + w * k) {
            d[to + w * k + b]
        } else {
            d[from + w * k + b]
        }
}

/// The two tables do not share bytes.
pub open spec fn tables_apart(p: PeV, from: int, to: int, c: int) -> bool {
    from + thunk_size(p) * c <= to || to + thunk_size(p) * c <= from
}

proof fn thunk_reads_the_same(d: Seq<u8>, e: Seq<u8>, p: PeV, o: int)
    requires
        d.len() == e.len(),
        forall|b: int| o <= b < o + thunk_size(p) ==> #[trigger] e[b] == d[b],
    ensures
        imports::thunk_at(e, p.is64, o) == imports::thunk_at(d, p.is64, o),
{
    if 0 <= o && o + thunk_size(p) <= d.len() {
        assert(e[o] == d[o] && e[o + 1] == d[o + 1] && e[o + 2] == d[o + 2] && e[o + 3] == d[o + 3]);
        if p.is64 {
            assert(e[o + 4] == d[o + 4] && e[o + 5] == d[o + 5] && e[o + 6] == d[o + 6] && e[o + 7] == d[o
                + 7]);
        }
    }
}

proof fn thunk_bytes_are_the_bytes(d: Seq<u8>, p: PeV, o: int)
    requires
        0 <= o,
        o + thunk_size(p) <= d.len(),
    ensures
        ({
            let v = imports::thunk_at(d, p.is64, o)->0;
            let b = imports::thunk_bytes(p.is64, v);
            &&& imports::thunk_at(d, p.is64, o) is Some
            &&& b.len() == thunk_size(p)
            &&& forall|k: int| 0 <= k < b.len() ==> #[trigger] b[k] == d[o + k]
        }),
{
    let v = imports::thunk_at(d, p.is64, o)->0;
    let b = imports::thunk_bytes(p.is64, v);
    word_bytes(d, o);
    if p.is64 {
        word_bytes(d, o + 4);
        halves(le::le32(d, o), le::le32(d, o + 4));
        let x = le::le32_bytes(le::le32(d, o) as u32);
        let y = le::le32_bytes(le::le32(d, o + 4) as u32);
        assert(b == x + y);
        assert forall|k: int| 0 <= k < b.len() implies #[trigger] b[k] == d[o + k] by {
            if k < 4 {
                assert(b[k] == x[k]);
            } else {
                assert(b[k] == y[k - 4]);
                assert(y[k - 4] == d[o + 4 + (k - 4)]);
            }
        }
    }
}

proof fn word_bytes(d: Seq<u8>, o: int)
    requires
        0 <= o,
        o + 4 <= d.len(),
    ensures
        0 <= le::le32(d, o) < 0x1_0000_0000,
        le::le32_bytes(le::le32(d, o) as u32).len() == 4,
        forall|k: int|
            0 <= k < 4 ==> #[trigger] le::le32_bytes(le::le32(d, o) as u32)[k] == d[o + k],
{
    let v = le::le32(d, o) as u32;
    let x = le::le32_bytes(v);
    le::le32_round_trip(v);
    keeps::same_digits(x[0], x[1], x[2], x[3], d[o], d[o + 1], d[o + 2], d[o + 3]);
    assert forall|k: int| 0 <= k < 4 implies #[trigger] x[k] == d[o + k] by {
        assert(k == 0 || k == 1 || k == 2 || k == 3);
    }
}

proof fn halves(a: int, b: int)
    requires
        0 <= a < 0x1_0000_0000,
        0 <= b < 0x1_0000_0000,
    ensures
        ((a + 0x1_0000_0000 * b) as u64) % 0x1_0000_0000 == a,
        ((a + 0x1_0000_0000 * b) as u64) / 0x1_0000_0000 == b,
{
}

/// What one step of copying leaves: the file `e` has thunks before `j` written, and is `d` elsewhere.
spec fn written_to(d: Seq<u8>, p: PeV, to: int, j: int, e: Seq<u8>) -> bool {
    &&& e.len() == d.len()
    &&& forall|b: int|
        0 <= b < d.len() && !(to <= b < to + thunk_size(p) * j) ==> #[trigger] e[b] == d[b]
}

#[verifier::opaque]
spec fn copying(e: Seq<u8>, p: PeV, from: int, to: int, j: int, touched: int) -> imports::Unbound {
    imports::copied_from(e, p, from, to, j, touched)
}

/// The file once thunk number `j` is dealt with, if it can be written.
#[verifier::opaque]
spec fn one_on(d: Seq<u8>, e: Seq<u8>, p: PeV, from: int, to: int, j: int) -> Option<Seq<u8>> {
    let w = thunk_size(p);
    if imports::guarded(p, to + w * j) {
        Some(e)
    } else {
        pe::put(
            e,
            to + w * j,
            imports::thunk_bytes(p.is64, imports::thunk_at(d, p.is64, from + w * j)->0),
        )
    }
}

proof fn copying_steps(d: Seq<u8>, e: Seq<u8>, p: PeV, from: int, to: int, j: int, touched: int)
    requires
        0 <= j < 8192,
        thunk_there(d, p, from, j),
        d.len() == e.len(),
        forall|b: int|
            from + thunk_size(p) * j <= b < from + thunk_size(p) * j + thunk_size(p)
                ==> #[trigger] e[b] == d[b],
    ensures
        ({
            let more = if imports::guarded(p, to + thunk_size(p) * j) {
                touched
            } else {
                touched + 1
            };
            match one_on(d, e, p, from, to, j) {
                None => copying(e, p, from, to, j, touched) is Err,
                Some(n) => copying(e, p, from, to, j, touched) == if thunk_set(d, p, from, j) {
                    copying(n, p, from, to, j + 1, more)
                } else {
                    Ok((n, more))
                },
            }
        }),
{
    reveal(copying);
    reveal(one_on);
    let w = thunk_size(p);
    assert(w * j == j * p.thunk()) by (nonlinear_arith)
        requires
            w == p.thunk(),
    ;
    gates::thunk_is_set(d, p, from, j);
    thunk_reads_the_same(d, e, p, from + w * j);
    thunk_bytes_are_the_bytes(d, p, from + w * j);
}

proof fn copying_ends(e: Seq<u8>, p: PeV, from: int, to: int, j: int, touched: int)
    requires
        0 <= j,
        j >= 8192 || !thunk_there(e, p, from, j),
    ensures
        copying(e, p, from, to, j, touched) == Ok::<(Seq<u8>, int), Seq<char>>((e, touched)),
{
    reveal(copying);
    let w = thunk_size(p);
    assert(w * j == j * p.thunk()) by (nonlinear_arith)
        requires
            w == p.thunk(),
    ;
    thunk_reads_nothing(e, p, from + w * j);
}

proof fn one_is_written(d: Seq<u8>, e: Seq<u8>, p: PeV, from: int, to: int, j: int)
    requires
        0 <= j,
        0 <= to,
        thunk_there(d, p, from, j),
        written_to(d, p, to, j, e),
    ensures
        one_on(d, e, p, from, to, j) matches Some(n) ==> {
            &&& written_to(d, p, to, j + 1, n)
            &&& thunk_copied(d, p, from, to, j, n)
            &&& forall|b: int|
                0 <= b < d.len() && !(to + thunk_size(p) * j <= b < to + thunk_size(p) * (j + 1))
                    ==> #[trigger] n[b] == e[b]
        },
{
    reveal(one_on);
    let w = thunk_size(p);
    assert(w * (j + 1) == w * j + w) by (nonlinear_arith);
    assert(w * j >= 0) by (nonlinear_arith)
        requires
            j >= 0,
            w > 0,
    ;
    thunk_bytes_are_the_bytes(d, p, from + w * j);
    if let Some(n) = one_on(d, e, p, from, to, j) {
        if !imports::guarded(p, to + w * j) {
            keeps::put_keeps(
                e,
                to + w * j,
                imports::thunk_bytes(p.is64, imports::thunk_at(d, p.is64, from + w * j)->0),
            );
        }
        thunk_was_copied(d, e, n, p, from, to, j);
    }
}

/// The thunks from number `j` on and before `c` were copied, and nothing else changed.
pub open spec fn copied_between(
    d: Seq<u8>,
    e: Seq<u8>,
    p: PeV,
    from: int,
    to: int,
    j: int,
    c: int,
    n: Seq<u8>,
) -> bool {
    &&& n.len() == d.len()
    &&& forall|b: int|
        0 <= b < d.len() && !(to + thunk_size(p) * j <= b < to + thunk_size(p) * c)
            ==> #[trigger] n[b] == e[b]
    &&& forall|k: int| j <= k < c ==> #[trigger] thunk_copied(d, p, from, to, k, n)
}

proof fn source_is_spared(d: Seq<u8>, e: Seq<u8>, p: PeV, from: int, to: int, j: int, c: int)
    requires
        0 <= j < c,
        0 <= to,
        thunk_there(d, p, from, j),
        tables_apart(p, from, to, c),
        written_to(d, p, to, j, e),
    ensures
        forall|b: int|
            from + thunk_size(p) * j <= b < from + thunk_size(p) * j + thunk_size(p)
                ==> #[trigger] e[b] == d[b],
{
    let w = thunk_size(p);
    assert(w * j + w <= w * c && w * j >= 0) by (nonlinear_arith)
        requires
            0 <= j < c,
            w > 0,
    ;
}

proof fn copying_copies(
    d: Seq<u8>,
    e: Seq<u8>,
    p: PeV,
    from: int,
    to: int,
    j: int,
    c: int,
    touched: int,
)
    requires
        0 <= j <= c,
        0 <= to,
        table_has(d, p, from, j, c),
        tables_apart(p, from, to, c),
        written_to(d, p, to, j, e),
    ensures
        copying(e, p, from, to, j, touched) matches Ok((n, t)) ==> copied_between(
            d,
            e,
            p,
            from,
            to,
            j,
            c,
            n,
        ),
    decreases c - j,
{
    let w = thunk_size(p);
    if j == c {
        copying_ends(e, p, from, to, j, touched);
    } else {
        assert(thunk_there(d, p, from, j));
        source_is_spared(d, e, p, from, to, j, c);
        copying_steps(d, e, p, from, to, j, touched);
        one_is_written(d, e, p, from, to, j);
        if let Some(n) = one_on(d, e, p, from, to, j) {
            let more = if imports::guarded(p, to + w * j) {
                touched
            } else {
                touched + 1
            };
            assert(w * (j + 1) <= w * c) by (nonlinear_arith)
                requires
                    j < c,
                    w > 0,
            ;
            if thunk_set(d, p, from, j) {
                assert(table_has(d, p, from, j + 1, c)) by {
                    if c == j + 1 {
                        assert(thunk_set(d, p, from, c - 1));
                    }
                }
                copying_copies(d, n, p, from, to, j + 1, c, more);
                if let Ok((r, t)) = copying(n, p, from, to, j + 1, more) {
                    copies_join(d, e, n, r, p, from, to, j, c);
                }
            } else {
                assert(c == j + 1) by {
                    if c > j + 1 {
                        assert(thunk_set(d, p, from, j));
                    }
                }
            }
        }
    }
}

proof fn copies_join(
    d: Seq<u8>,
    e: Seq<u8>,
    n: Seq<u8>,
    r: Seq<u8>,
    p: PeV,
    from: int,
    to: int,
    j: int,
    c: int,
)
    requires
        0 <= j < c,
        0 <= to,
        n.len() == d.len(),
        thunk_copied(d, p, from, to, j, n),
        forall|b: int|
            0 <= b < d.len() && !(to + thunk_size(p) * j <= b < to + thunk_size(p) * (j + 1))
                ==> #[trigger] n[b] == e[b],
        copied_between(d, n, p, from, to, j + 1, c, r),
    ensures
        copied_between(d, e, p, from, to, j, c, r),
{
    let w = thunk_size(p);
    assert(w * (j + 1) == w * j + w && w * j >= 0 && w * (j + 1) <= w * c) by (nonlinear_arith)
        requires
            0 <= j < c,
            w > 0,
    ;
    assert forall|b: int|
        0 <= b < d.len() && !(to + w * j <= b < to + w * c) implies #[trigger] r[b] == e[b] by {
        assert(r[b] == n[b]);
    }
    assert(thunk_copied(d, p, from, to, j, r)) by {
        assert forall|b: int| 0 <= b < w && to + w * j + b < r.len() implies #[trigger] r[to + w * j + b]
            == (if imports::guarded(p, to + w * j) {
            d[to + w * j + b]
        } else {
            d[from + w * j + b]
        }) by {
            assert(r[to + w * j + b] == n[to + w * j + b]);
        }
    }
    assert forall|k: int| j <= k < c implies #[trigger] thunk_copied(d, p, from, to, k, r) by {}
}

/// Unbinding one library writes into its address table what its lookup table holds, thunk by thunk with the
/// end of it, and nothing anywhere else; what would lie in the code section stays as it was.
pub proof fn unbinding_copies_the_lookup_table(
    d: Seq<u8>,
    p: PeV,
    from: int,
    to: int,
    c: int,
    touched: int,
)
    requires
        0 <= to,
        0 <= c,
        table_has(d, p, from, 0, c),
        tables_apart(p, from, to, c),
    ensures
        imports::copied_from(d, p, from, to, 0, touched) matches Ok((n, t)) ==> copied_between(
            d,
            d,
            p,
            from,
            to,
            0,
            c,
            n,
        ),
{
    copying_copies(d, d, p, from, to, 0, c, touched);
    reveal(copying);
}

proof fn thunk_reads_nothing(e: Seq<u8>, p: PeV, o: int)
    ensures
        !(0 <= o && o + thunk_size(p) <= e.len()) ==> imports::thunk_at(e, p.is64, o) is None,
{
}

proof fn thunk_was_copied(
    d: Seq<u8>,
    e: Seq<u8>,
    n: Seq<u8>,
    p: PeV,
    from: int,
    to: int,
    j: int,
)
    requires
        0 <= j,
        0 <= to,
        thunk_there(d, p, from, j),
        written_to(d, p, to, j, e),
        ({
            let w = thunk_size(p);
            let q = to + w * j;
            let bytes = imports::thunk_bytes(
                p.is64,
                imports::thunk_at(d, p.is64, from + w * j)->0,
            );
            if imports::guarded(p, q) {
                n == e
            } else {
                pe::put(e, q, bytes) == Some(n)
            }
        }),
    ensures
        thunk_copied(d, p, from, to, j, n),
{
    let w = thunk_size(p);
    let q = to + w * j;
    assert(w * j >= 0) by (nonlinear_arith)
        requires
            j >= 0,
            w > 0,
    ;
    thunk_bytes_are_the_bytes(d, p, from + w * j);
    let bytes = imports::thunk_bytes(p.is64, imports::thunk_at(d, p.is64, from + w * j)->0);
    keeps::put_keeps(e, q, bytes);
    assert forall|b: int| 0 <= b < w && to + w * j + b < n.len() implies #[trigger] n[to + w * j + b]
        == (if imports::guarded(p, to + w * j) {
        d[to + w * j + b]
    } else {
        d[from + w * j + b]
    }) by {
        if !imports::guarded(p, q) {
            assert(n.subrange(q, q + bytes.len())[b] == n[q + b]);
            assert(bytes[b] == d[from + w * j + b]);
        } else {
            assert(e[q + b] == d[q + b]);
        }
    }
}

}
