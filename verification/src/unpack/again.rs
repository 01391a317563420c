//! Cleaning a cleaned file changes nothing.

use crate::le;
use crate::unpack::clean;
use crate::unpack::clean::{CleanOptions, CleanSummaryV};
use crate::unpack::imports;
use crate::unpack::imports::Descriptor;
use crate::unpack::keeps;
use crate::unpack::pe;
use crate::unpack::pe::PeV;
use vstd::prelude::*;
use vstd::string::*;

verus! {

/// A run of bytes in a file, by its first byte and its end.
pub type Span = (int, int);

/// Two runs share no byte.
pub open spec fn apart(a: Span, b: Span) -> bool {
    a.1 <= b.0 || b.1 <= a.0
}

/// A run lies in the file, behind the headers and clear of the bytes that are removed.
pub open spec fn clear(raw: Seq<u8>, p: PeV, s: Span) -> bool {
    &&& keeps::headers_end(raw, p) <= s.0
    &&& s.1 <= raw.len()
    &&& clean::strips(p) ==> apart(s, (clean::dead_start(p), clean::dead_end(p)))
}

/// The descriptors at `ioff` with the zeros that close them.
pub open spec fn directory_span(d: Seq<u8>, ioff: int) -> Span {
    (ioff, ioff + 20 * (imports::descriptors_from(d, ioff, 0).len() + 1))
}

/// The table at `from` with the zero that closes it, taken to lie at `at`.
pub open spec fn table_span(d: Seq<u8>, p: PeV, from: int, at: int) -> Span {
    (at, at + (imports::thunk_run(d, p, from, 0) + 1) * p.thunk())
}

/// Where the table is that the imports of a descriptor are counted by.
pub open spec fn lookup_at(p: PeV, x: Descriptor) -> Option<int> {
    p.offset(
        if x.oft != 0 {
            x.oft
        } else {
            x.ft
        },
    )
}

/// The table at `o` ends with a zero.
pub open spec fn closed(d: Seq<u8>, p: PeV, o: int) -> bool {
    let run = imports::thunk_run(d, p, o, 0);
    run < imports::MAX_THUNKS && imports::thunk_at(d, p.is64, o + run * p.thunk()) == Some(0u64)
}

/// The lookup table of a descriptor, if it has one in the file, is closed and clear.
pub open spec fn lookup_kept(raw: Seq<u8>, p: PeV, x: Descriptor) -> bool {
    lookup_at(p, x) matches Some(o) ==> closed(raw, p, o) && clear(raw, p, table_span(raw, p, o, o))
}

/// The address table of a descriptor, if it is unbound, is clear.
pub open spec fn addresses_kept(raw: Seq<u8>, p: PeV, x: Descriptor) -> bool {
    imports::tables_at(p, x) matches Some((from, to)) ==> clear(
        raw,
        p,
        table_span(raw, p, from, to),
    )
}

/// The address table of one descriptor and the lookup table of another share no byte.
pub open spec fn address_from_lookup(d: Seq<u8>, p: PeV, x: Descriptor, y: Descriptor) -> bool {
    imports::tables_at(p, x) matches Some((from, to)) ==> (lookup_at(p, y) matches Some(o) ==> apart(
        table_span(d, p, from, to),
        table_span(d, p, o, o),
    ))
}

/// The address tables of two descriptors share no byte.
pub open spec fn address_from_address(d: Seq<u8>, p: PeV, x: Descriptor, y: Descriptor) -> bool {
    imports::tables_at(p, x) matches Some((from, to)) ==> (imports::tables_at(p, y) matches Some(
        (f, t),
    ) ==> apart(table_span(d, p, from, to), table_span(d, p, f, t)))
}

/// The address table of a descriptor and the descriptors share no byte.
pub open spec fn address_from_directory(d: Seq<u8>, p: PeV, x: Descriptor, ioff: int) -> bool {
    imports::tables_at(p, x) matches Some((from, to)) ==> apart(
        table_span(d, p, from, to),
        directory_span(d, ioff),
    )
}

/// The import directory at `ioff` and the tables of its descriptors are closed by zeros, lie behind the
/// headers and clear of the bytes that are removed, and share no byte with the address tables.
pub open spec fn imports_apart(d: Seq<u8>, p: PeV, ioff: int) -> bool {
    let xs = imports::descriptors_from(d, ioff, 0);
    &&& xs.len() < imports::MAX_DESCRIPTORS
    &&& forall|i: int| 0 <= i < xs.len() ==> address_from_directory(d, p, #[trigger] xs[i], ioff)
    &&& forall|i: int, j: int|
        0 <= i < xs.len() && 0 <= j < xs.len() ==> address_from_lookup(
            d,
            p,
            #[trigger] xs[i],
            #[trigger] xs[j],
        )
    &&& forall|i: int, j: int|
        0 <= i < xs.len() && 0 <= j < xs.len() && i != j ==> address_from_address(
            d,
            p,
            #[trigger] xs[i],
            #[trigger] xs[j],
        )
    &&& forall|i: int| 0 <= i < xs.len() ==> (lookup_at(p, #[trigger] xs[i]) matches Some(o) ==> closed(
        d,
        p,
        o,
    ))
}

/// A file whose parts do not overlap: the headers, with the data directories in the optional header; the
/// import descriptors and the tables of thunks, each closed by zeros and none of them in a section that is
/// removed; and the sections that are removed.
pub open spec fn well_laid(raw: Seq<u8>, p: PeV) -> bool {
    &&& pe::headers(raw) == Ok::<PeV, Seq<char>>(p)
    &&& keeps::tidy(raw, p)
    &&& clean::strips(p) ==> keeps::headers_end(raw, p) <= clean::dead_start(p)
    &&& imports::directory(raw, p) matches Some(ioff) ==> {
        let xs = imports::descriptors_from(raw, ioff, 0);
        &&& imports_apart(raw, p, ioff)
        &&& clear(raw, p, directory_span(raw, ioff))
        &&& forall|i: int|
            0 <= i < xs.len() ==> lookup_kept(raw, p, #[trigger] xs[i]) && addresses_kept(
                raw,
                p,
                xs[i],
            )
    }
}

/// The bytes of a run of one file stand at `t` of another.
pub open spec fn stands(a: Seq<u8>, b: Seq<u8>, s: Span, t: int) -> bool {
    &&& 0 <= s.0 <= s.1 <= a.len()
    &&& 0 <= t
    &&& t + (s.1 - s.0) <= b.len()
    &&& forall|i: int| 0 <= i < s.1 - s.0 ==> #[trigger] b[t + i] == a[s.0 + i]
}

proof fn word_stands(a: Seq<u8>, b: Seq<u8>, s: Span, t: int, i: int)
    requires
        stands(a, b, s, t),
        0 <= i,
        i + 4 <= s.1 - s.0,
    ensures
        pe::at32(b, t + i) == pe::at32(a, s.0 + i),
        pe::at32(a, s.0 + i) is Some,
{
    assert(b[t + (i + 0)] == a[s.0 + (i + 0)]);
    assert(b[t + (i + 1)] == a[s.0 + (i + 1)]);
    assert(b[t + (i + 2)] == a[s.0 + (i + 2)]);
    assert(b[t + (i + 3)] == a[s.0 + (i + 3)]);
}

proof fn thunk_stands(a: Seq<u8>, b: Seq<u8>, p: PeV, s: Span, t: int, i: int)
    requires
        stands(a, b, s, t),
        0 <= i,
        i + p.thunk() <= s.1 - s.0,
    ensures
        imports::thunk_at(b, p.is64, t + i) == imports::thunk_at(a, p.is64, s.0 + i),
        imports::thunk_at(a, p.is64, s.0 + i) is Some,
{
    word_stands(a, b, s, t, i);
    if p.is64 {
        word_stands(a, b, s, t, i + 4);
        assert(le::le64(b, t + i) == le::le64(a, s.0 + i));
    }
}

proof fn descriptors_stand(a: Seq<u8>, b: Seq<u8>, ioff: int, t: int, idx: int)
    requires
        0 <= idx <= imports::descriptors_from(a, ioff, 0).len() < imports::MAX_DESCRIPTORS,
        imports::descriptors_from(a, ioff, 0).skip(idx) == imports::descriptors_from(a, ioff, idx),
        stands(a, b, directory_span(a, ioff), t),
    ensures
        imports::descriptors_from(b, t, idx) == imports::descriptors_from(a, ioff, idx),
    decreases imports::descriptors_from(a, ioff, 0).len() - idx,
{
    let all = imports::descriptors_from(a, ioff, 0);
    let s = directory_span(a, ioff);
    word_stands(a, b, s, t, 20 * idx);
    word_stands(a, b, s, t, 20 * idx + 12);
    word_stands(a, b, s, t, 20 * idx + 16);
    assert(imports::descriptor_at(b, t + 20 * idx) == imports::descriptor_at(a, ioff + 20 * idx));
    if let Some(x) = imports::descriptor_at(a, ioff + 20 * idx) {
        let rest = imports::descriptors_from(a, ioff, idx + 1);
        assert(all.skip(idx).len() == 1 + rest.len());
        assert(all.skip(idx + 1) =~= all.skip(idx).skip(1));
        assert(all.skip(idx).skip(1) =~= rest);
        descriptors_stand(a, b, ioff, t, idx + 1);
    }
}

/// Descriptor `idx` of the directory.
proof fn descriptor_is(d: Seq<u8>, ioff: int, idx: int)
    requires
        0 <= idx <= imports::descriptors_from(d, ioff, 0).len(),
    ensures
        imports::descriptors_from(d, ioff, 0).skip(idx) == imports::descriptors_from(d, ioff, idx),
        idx < imports::descriptors_from(d, ioff, 0).len() ==> idx < imports::MAX_DESCRIPTORS
            && imports::descriptor_at(d, ioff + 20 * idx) == Some(
            imports::descriptors_from(d, ioff, 0)[idx],
        ),
        idx == imports::descriptors_from(d, ioff, 0).len() && idx < imports::MAX_DESCRIPTORS
            ==> imports::descriptor_at(d, ioff + 20 * idx) is None,
    decreases idx,
{
    let all = imports::descriptors_from(d, ioff, 0);
    if idx == 0 {
        assert(all.skip(0) =~= all);
    } else {
        descriptor_is(d, ioff, idx - 1);
        let before = imports::descriptors_from(d, ioff, idx - 1);
        let now = imports::descriptors_from(d, ioff, idx);
        assert(before.skip(1) =~= now);
        assert(all.skip(idx) =~= all.skip(idx - 1).skip(1));
    }
    let now = imports::descriptors_from(d, ioff, idx);
    if idx < all.len() {
        assert(all.skip(idx)[0] == all[idx]);
        assert(now.len() > 0);
        assert(now[0] == all[idx]);
    } else {
        assert(now.len() == 0);
    }
}

/// The thunks of a closed table before the last are not zero, and none is missing.
proof fn run_is(d: Seq<u8>, p: PeV, o: int, j: int)
    requires
        closed(d, p, o),
        0 <= j <= imports::thunk_run(d, p, o, 0),
    ensures
        imports::thunk_run(d, p, o, j) == imports::thunk_run(d, p, o, 0) - j,
        imports::thunk_at(d, p.is64, o + j * p.thunk()) matches Some(v) && (v == 0 <==> j
            == imports::thunk_run(d, p, o, 0)),
        imports::thunk_run(d, p, o, 0) >= 0,
    decreases j,
{
    imports::run_fits(d, p, o, 0);
    if j > 0 {
        run_is(d, p, o, j - 1);
    }
    let run = imports::thunk_run(d, p, o, 0);
    let left = imports::thunk_run(d, p, o, j);
    assert(left == run - j);
    let t = imports::thunk_at(d, p.is64, o + j * p.thunk());
    if j < run {
        assert(left > 0);
        assert(t matches Some(v) && v != 0);
    } else {
        assert(j * p.thunk() == run * p.thunk());
        assert(t == Some(0u64));
    }
}

proof fn place_in_table(w: int, j: int, run: int)
    requires
        0 < w,
        0 <= j <= run,
    ensures
        0 <= j * w,
        j * w + w <= (run + 1) * w,
        (j + 1) * w == j * w + w,
{
    assert((j + 1) * w == j * w + w) by (nonlinear_arith);
    assert(0 <= j * w && (j + 1) * w <= (run + 1) * w) by (nonlinear_arith)
        requires
            0 < w,
            0 <= j <= run,
    ;
}

proof fn run_stands(a: Seq<u8>, p: PeV, b: Seq<u8>, q: PeV, o: int, t: int, j: int)
    requires
        closed(a, p, o),
        q.is64 == p.is64,
        0 <= j <= imports::thunk_run(a, p, o, 0),
        stands(a, b, table_span(a, p, o, o), t),
    ensures
        imports::thunk_run(b, q, t, j) == imports::thunk_run(a, p, o, j),
        imports::thunk_at(b, q.is64, t + j * q.thunk()) == imports::thunk_at(
            a,
            p.is64,
            o + j * p.thunk(),
        ),
    decreases imports::thunk_run(a, p, o, 0) - j,
{
    let run = imports::thunk_run(a, p, o, 0);
    run_is(a, p, o, j);
    place_in_table(p.thunk(), j, run);
    thunk_stands(a, b, p, table_span(a, p, o, o), t, j * p.thunk());
    if j < run {
        run_stands(a, p, b, q, o, t, j + 1);
    }
}

proof fn table_stays_closed(a: Seq<u8>, p: PeV, b: Seq<u8>, q: PeV, o: int, t: int)
    requires
        closed(a, p, o),
        q.is64 == p.is64,
        stands(a, b, table_span(a, p, o, o), t),
    ensures
        imports::thunk_run(b, q, t, 0) == imports::thunk_run(a, p, o, 0),
        closed(b, q, t),
{
    imports::run_fits(a, p, o, 0);
    run_stands(a, p, b, q, o, t, 0);
    run_stands(a, p, b, q, o, t, imports::thunk_run(a, p, o, 0));
}

proof fn word_bytes(d: Seq<u8>, o: int)
    requires
        0 <= o,
        o + 4 <= d.len(),
    ensures
        le::le32_bytes(le::le32(d, o) as u32) == d.subrange(o, o + 4),
        0 <= le::le32(d, o) <= u32::MAX,
{
    let v = le::le32(d, o) as u32;
    let b = le::le32_bytes(v);
    le::le32_round_trip(v);
    keeps::same_digits(b[0], b[1], b[2], b[3], d[o], d[o + 1], d[o + 2], d[o + 3]);
    assert(b =~= d.subrange(o, o + 4));
}

proof fn thunk_is_its_bytes(d: Seq<u8>, p: PeV, o: int)
    requires
        0 <= o,
    ensures
        imports::thunk_at(d, p.is64, o) matches Some(v) ==> o + p.thunk() <= d.len()
            && imports::thunk_bytes(p.is64, v) == d.subrange(o, o + p.thunk()),
{
    if let Some(v) = imports::thunk_at(d, p.is64, o) {
        word_bytes(d, o);
        if p.is64 {
            word_bytes(d, o + 4);
            let low = le::le32(d, o);
            let high = le::le32(d, o + 4);
            assert(v == low + 0x1_0000_0000 * high);
            assert(v % 0x1_0000_0000 == low && v / 0x1_0000_0000 == high);
            assert(d.subrange(o, o + 4) + d.subrange(o + 4, o + 8) =~= d.subrange(o, o + 8));
        }
    }
}

/// The thunk at `to` of a file is that at `from` of another, unless it lies in the code.
pub open spec fn thunk_copied(d: Seq<u8>, u: Seq<u8>, p: PeV, from: int, to: int) -> bool {
    imports::guarded(p, to) || (0 <= to && to + p.thunk() <= u.len() && u.subrange(to, to + p.thunk())
        == d.subrange(from, from + p.thunk()))
}

/// The address table at `to` of a file is the lookup table at `from` of another, from thunk `j` on.
pub open spec fn table_copied(d: Seq<u8>, u: Seq<u8>, p: PeV, from: int, to: int, j: int) -> bool {
    forall|i: int|
        j <= i <= imports::thunk_run(d, p, from, 0) ==> #[trigger] thunk_copied(
            d,
            u,
            p,
            from + i * p.thunk(),
            to + i * p.thunk(),
        )
}

proof fn copying_copies(
    d: Seq<u8>,
    e: Seq<u8>,
    p: PeV,
    from: int,
    to: int,
    j: int,
    touched: int,
)
    requires
        closed(d, p, from),
        0 <= from,
        0 <= j <= imports::thunk_run(d, p, from, 0),
        stands(d, e, table_span(d, p, from, from), from),
        apart(table_span(d, p, from, to), table_span(d, p, from, from)),
    ensures
        imports::copied_from(e, p, from, to, j, touched) matches Ok((u, t)) ==> {
            &&& u.len() == e.len()
            &&& forall|k: int|
                #![trigger u[k]]
                0 <= k < e.len() && !(table_span(d, p, from, to).0 <= k < table_span(
                    d,
                    p,
                    from,
                    to,
                ).1) ==> u[k] == e[k]
            &&& forall|k: int|
                #![trigger u[k]]
                0 <= k < e.len() && k < to + j * p.thunk() ==> u[k] == e[k]
            &&& table_copied(d, u, p, from, to, j)
        },
    decreases imports::thunk_run(d, p, from, 0) - j,
{
    let w = p.thunk();
    let run = imports::thunk_run(d, p, from, 0);
    let o = to + j * w;
    run_is(d, p, from, j);
    run_stands(d, p, e, p, from, from, j);
    place_in_table(w, j, run);
    let v = imports::thunk_at(e, p.is64, from + j * w)->0;
    let b = imports::thunk_bytes(p.is64, v);
    thunk_is_its_bytes(d, p, from + j * w);
    let n = if imports::guarded(p, o) {
        e
    } else {
        match pe::put(e, o, b) {
            Some(n) => n,
            None => e,
        }
    };
    if imports::guarded(p, o) || pe::put(e, o, b) is Some {
        keeps::put_keeps(e, o, b);
        assert(b.len() == w);
        assert(n.len() == e.len());
        assert(forall|k: int|
            #![trigger n[k]]
            0 <= k < e.len() && !(o <= k < o + w) ==> n[k] == e[k]);
        assert(thunk_copied(d, n, p, from + j * w, o));
        if j == run {
            assert(v == 0);
            assert(table_copied(d, n, p, from, to, j)) by {
                assert forall|i: int| j <= i <= run implies #[trigger] thunk_copied(
                    d,
                    n,
                    p,
                    from + i * w,
                    to + i * w,
                ) by {
                    assert(i == j);
                }
            }
        } else {
            let s = table_span(d, p, from, from);
            assert(stands(d, n, s, from)) by {
                assert forall|i: int| 0 <= i < s.1 - s.0 implies #[trigger] n[from + i] == d[s.0 + i] by {
                    assert(e[from + i] == d[s.0 + i]);
                }
            }
            let more = if imports::guarded(p, o) {
                touched
            } else {
                touched + 1
            };
            copying_copies(d, n, p, from, to, j + 1, more);
            if let Ok((u, t)) = imports::copied_from(n, p, from, to, j + 1, more) {
                assert(table_copied(d, u, p, from, to, j)) by {
                    assert forall|i: int| j <= i <= run implies #[trigger] thunk_copied(
                        d,
                        u,
                        p,
                        from + i * w,
                        to + i * w,
                    ) by {
                        if i == j {
                            if !imports::guarded(p, o) {
                                assert(u.subrange(o, o + w) =~= n.subrange(o, o + w));
                            }
                        }
                    }
                }
                assert forall|k: int|
                    #![trigger u[k]]
                    0 <= k < e.len() && !(table_span(d, p, from, to).0 <= k < table_span(
                        d,
                        p,
                        from,
                        to,
                    ).1) implies u[k] == e[k] by {
                    assert(u[k] == n[k]);
                }
                assert forall|k: int|
                    #![trigger u[k]]
                    0 <= k < e.len() && k < to + j * w implies u[k] == e[k] by {
                    assert(u[k] == n[k]);
                }
            }
        }
    }
}

/// The directory and the lookup tables of a file stand unchanged in another of the same length.
pub open spec fn tables_hold(d: Seq<u8>, e: Seq<u8>, p: PeV, ioff: int) -> bool {
    let xs = imports::descriptors_from(d, ioff, 0);
    &&& e.len() == d.len()
    &&& stands(d, e, directory_span(d, ioff), ioff)
    &&& forall|i: int|
        0 <= i < xs.len() ==> (lookup_at(p, #[trigger] xs[i]) matches Some(o) ==> stands(
            d,
            e,
            table_span(d, p, o, o),
            o,
        ))
}

/// The byte lies in the address table of the descriptor.
pub open spec fn in_addresses(d: Seq<u8>, p: PeV, x: Descriptor, k: int) -> bool {
    imports::tables_at(p, x) matches Some((from, to)) && table_span(d, p, from, to).0 <= k < table_span(
        d,
        p,
        from,
        to,
    ).1
}

/// The address table of the descriptor is its lookup table in another file.
pub open spec fn addresses_copied(d: Seq<u8>, u: Seq<u8>, p: PeV, x: Descriptor) -> bool {
    imports::tables_at(p, x) matches Some((from, to)) ==> table_copied(d, u, p, from, to, 0)
}

proof fn span_survives(d: Seq<u8>, e: Seq<u8>, u: Seq<u8>, s: Span, f: Span)
    requires
        stands(d, e, s, s.0),
        u.len() == e.len(),
        apart(f, s),
        forall|k: int| #![trigger u[k]] 0 <= k < e.len() && !(f.0 <= k < f.1) ==> u[k] == e[k],
    ensures
        stands(d, u, s, s.0),
{
    assert forall|i: int| 0 <= i < s.1 - s.0 implies #[trigger] u[s.0 + i] == d[s.0 + i] by {
        assert(e[s.0 + i] == d[s.0 + i]);
    }
}

proof fn tables_survive(
    d: Seq<u8>,
    e: Seq<u8>,
    u: Seq<u8>,
    p: PeV,
    ioff: int,
    idx: int,
    from: int,
    to: int,
)
    requires
        imports_apart(d, p, ioff),
        tables_hold(d, e, p, ioff),
        0 <= idx < imports::descriptors_from(d, ioff, 0).len(),
        imports::tables_at(p, imports::descriptors_from(d, ioff, 0)[idx]) == Some((from, to)),
        u.len() == e.len(),
        forall|k: int|
            #![trigger u[k]]
            0 <= k < e.len() && !(table_span(d, p, from, to).0 <= k < table_span(d, p, from, to).1)
                ==> u[k] == e[k],
    ensures
        tables_hold(d, u, p, ioff),
{
    let xs = imports::descriptors_from(d, ioff, 0);
    let f = table_span(d, p, from, to);
    assert(address_from_directory(d, p, xs[idx], ioff));
    span_survives(d, e, u, directory_span(d, ioff), f);
    assert forall|i: int| 0 <= i < xs.len() implies (lookup_at(p, #[trigger] xs[i]) matches Some(o)
        ==> stands(d, u, table_span(d, p, o, o), o)) by {
        if let Some(o) = lookup_at(p, xs[i]) {
            assert(address_from_lookup(d, p, xs[idx], xs[i]));
            span_survives(d, e, u, table_span(d, p, o, o), f);
        }
    }
}

proof fn copied_survives(
    d: Seq<u8>,
    v: Seq<u8>,
    u: Seq<u8>,
    p: PeV,
    from: int,
    to: int,
)
    requires
        closed(d, p, from),
        table_copied(d, v, p, from, to, 0),
        u.len() == v.len(),
        forall|k: int|
            #![trigger u[k]]
            0 <= k < v.len() && table_span(d, p, from, to).0 <= k < table_span(d, p, from, to).1
                ==> u[k] == v[k],
    ensures
        table_copied(d, u, p, from, to, 0),
{
    let w = p.thunk();
    let run = imports::thunk_run(d, p, from, 0);
    assert forall|i: int| 0 <= i <= run implies #[trigger] thunk_copied(
        d,
        u,
        p,
        from + i * w,
        to + i * w,
    ) by {
        assert(thunk_copied(d, v, p, from + i * w, to + i * w));
        place_in_table(w, i, run);
        let o = to + i * w;
        if !imports::guarded(p, o) {
            assert(u.subrange(o, o + w) =~= v.subrange(o, o + w));
        }
    }
}

/// Unbinding, from descriptor `idx` on, changes only the address tables, and makes each the lookup table.
proof fn unbinding_copies(d: Seq<u8>, e: Seq<u8>, p: PeV, ioff: int, idx: int, touched: int)
    requires
        imports_apart(d, p, ioff),
        tables_hold(d, e, p, ioff),
        0 <= idx <= imports::descriptors_from(d, ioff, 0).len(),
    ensures
        imports::unbound_from(e, p, ioff, idx, touched) matches Ok((u, t)) ==> {
            let xs = imports::descriptors_from(d, ioff, 0);
            &&& u.len() == e.len()
            &&& forall|k: int|
                #![trigger u[k]]
                0 <= k < e.len() && (forall|i: int|
                    idx <= i < xs.len() ==> !in_addresses(d, p, #[trigger] xs[i], k)) ==> u[k] == e[k]
            &&& forall|i: int|
                idx <= i < xs.len() ==> addresses_copied(d, u, p, #[trigger] xs[i])
        },
    decreases imports::descriptors_from(d, ioff, 0).len() - idx,
{
    let xs = imports::descriptors_from(d, ioff, 0);
    let s = directory_span(d, ioff);
    descriptor_is(d, ioff, idx);
    word_stands(d, e, s, ioff, 20 * idx);
    word_stands(d, e, s, ioff, 20 * idx + 12);
    word_stands(d, e, s, ioff, 20 * idx + 16);
    assert(imports::descriptor_at(e, ioff + 20 * idx) == imports::descriptor_at(d, ioff + 20 * idx));
    if idx < xs.len() {
        let x = xs[idx];
        match imports::tables_at(p, x) {
            None => {
                unbinding_copies(d, e, p, ioff, idx + 1, touched);
                if let Ok((u, t)) = imports::unbound_from(e, p, ioff, idx, touched) {
                    assert forall|k: int|
                        #![trigger u[k]]
                        0 <= k < e.len() && (forall|i: int|
                            idx <= i < xs.len() ==> !in_addresses(d, p, #[trigger] xs[i], k)) implies u[k]
                        == e[k] by {
                        assert(forall|i: int|
                            idx + 1 <= i < xs.len() ==> !in_addresses(d, p, #[trigger] xs[i], k));
                    }
                    assert forall|i: int| idx <= i < xs.len() implies addresses_copied(
                        d,
                        u,
                        p,
                        #[trigger] xs[i],
                    ) by {}
                }
            },
            Some((from, to)) => {
                assert(lookup_at(p, x) == Some(from));
                assert(closed(d, p, from));
                assert(address_from_lookup(d, p, xs[idx], xs[idx]));
                imports::run_fits(d, p, from, 0);
                copying_copies(d, e, p, from, to, 0, touched);
                if let Ok((v, n)) = imports::copied_from(e, p, from, to, 0, touched) {
                    tables_survive(d, e, v, p, ioff, idx, from, to);
                    unbinding_copies(d, v, p, ioff, idx + 1, n);
                    if let Ok((u, t)) = imports::unbound_from(v, p, ioff, idx + 1, n) {
                        step_copies(d, e, v, u, p, ioff, idx, from, to);
                    }
                }
            },
        }
    }
}

proof fn step_copies(
    d: Seq<u8>,
    e: Seq<u8>,
    v: Seq<u8>,
    u: Seq<u8>,
    p: PeV,
    ioff: int,
    idx: int,
    from: int,
    to: int,
)
    requires
        imports_apart(d, p, ioff),
        0 <= idx < imports::descriptors_from(d, ioff, 0).len(),
        imports::tables_at(p, imports::descriptors_from(d, ioff, 0)[idx]) == Some((from, to)),
        closed(d, p, from),
        v.len() == e.len(),
        u.len() == e.len(),
        table_copied(d, v, p, from, to, 0),
        forall|k: int|
            #![trigger v[k]]
            0 <= k < e.len() && !(table_span(d, p, from, to).0 <= k < table_span(d, p, from, to).1)
                ==> v[k] == e[k],
        ({
            let xs = imports::descriptors_from(d, ioff, 0);
            &&& forall|k: int|
                #![trigger u[k]]
                0 <= k < e.len() && (forall|i: int|
                    idx + 1 <= i < xs.len() ==> !in_addresses(d, p, #[trigger] xs[i], k)) ==> u[k]
                    == v[k]
            &&& forall|i: int|
                idx + 1 <= i < xs.len() ==> addresses_copied(d, u, p, #[trigger] xs[i])
        }),
    ensures
        ({
            let xs = imports::descriptors_from(d, ioff, 0);
            &&& forall|k: int|
                #![trigger u[k]]
                0 <= k < e.len() && (forall|i: int|
                    idx <= i < xs.len() ==> !in_addresses(d, p, #[trigger] xs[i], k)) ==> u[k] == e[k]
            &&& forall|i: int|
                idx <= i < xs.len() ==> addresses_copied(d, u, p, #[trigger] xs[i])
        }),
{
    let xs = imports::descriptors_from(d, ioff, 0);
    assert forall|k: int|
        #![trigger u[k]]
        0 <= k < e.len() && (forall|i: int|
            idx <= i < xs.len() ==> !in_addresses(d, p, #[trigger] xs[i], k)) implies u[k] == e[k] by {
        assert(forall|i: int|
            idx + 1 <= i < xs.len() ==> !in_addresses(d, p, #[trigger] xs[i], k));
        assert(!in_addresses(d, p, xs[idx], k));
        assert(u[k] == v[k]);
    }
    assert forall|k: int|
        #![trigger u[k]]
        0 <= k < v.len() && table_span(d, p, from, to).0 <= k < table_span(d, p, from, to).1 implies u[k]
        == v[k] by {
        assert forall|i: int| idx + 1 <= i < xs.len() implies !in_addresses(d, p, #[trigger] xs[i], k) by {
            assert(address_from_address(d, p, xs[idx], xs[i]));
        }
    }
    copied_survives(d, v, u, p, from, to);
    assert forall|i: int| idx <= i < xs.len() implies addresses_copied(d, u, p, #[trigger] xs[i]) by {}
}

proof fn copying_again(d: Seq<u8>, p: PeV, from: int, to: int, j: int, touched: int)
    requires
        closed(d, p, from),
        0 <= from,
        0 <= j <= imports::thunk_run(d, p, from, 0),
        table_copied(d, d, p, from, to, 0),
    ensures
        imports::copied_from(d, p, from, to, j, touched) matches Ok((u, t)) && u == d,
    decreases imports::thunk_run(d, p, from, 0) - j,
{
    let w = p.thunk();
    let run = imports::thunk_run(d, p, from, 0);
    let o = to + j * w;
    run_is(d, p, from, j);
    place_in_table(w, j, run);
    thunk_is_its_bytes(d, p, from + j * w);
    assert(thunk_copied(d, d, p, from + j * w, o));
    let v = imports::thunk_at(d, p.is64, from + j * w)->0;
    let b = imports::thunk_bytes(p.is64, v);
    if !imports::guarded(p, o) {
        let n = pe::put(d, o, b)->0;
        keeps::put_keeps(d, o, b);
        assert forall|k: int| 0 <= k < d.len() implies n[k] == d[k] by {
            if o <= k < o + w {
                assert(n.subrange(o, o + w)[k - o] == d.subrange(o, o + w)[k - o]);
            }
        }
        assert(n =~= d);
    }
    if j < run {
        if imports::guarded(p, o) {
            copying_again(d, p, from, to, j + 1, touched);
        } else {
            copying_again(d, p, from, to, j + 1, touched + 1);
        }
    }
}

proof fn unbinding_again(d: Seq<u8>, p: PeV, ioff: int, idx: int, touched: int)
    requires
        0 <= idx <= imports::descriptors_from(d, ioff, 0).len() < imports::MAX_DESCRIPTORS,
        forall|i: int|
            0 <= i < imports::descriptors_from(d, ioff, 0).len() ==> (imports::tables_at(
                p,
                #[trigger] imports::descriptors_from(d, ioff, 0)[i],
            ) matches Some((from, to)) ==> 0 <= from && closed(d, p, from) && table_copied(
                d,
                d,
                p,
                from,
                to,
                0,
            )),
    ensures
        imports::unbound_from(d, p, ioff, idx, touched) matches Ok((u, t)) && u == d,
    decreases imports::descriptors_from(d, ioff, 0).len() - idx,
{
    let xs = imports::descriptors_from(d, ioff, 0);
    descriptor_is(d, ioff, idx);
    if idx < xs.len() {
        match imports::tables_at(p, xs[idx]) {
            None => {
                unbinding_again(d, p, ioff, idx + 1, touched);
            },
            Some((from, to)) => {
                imports::run_fits(d, p, from, 0);
                copying_again(d, p, from, to, 0, touched);
                let t = imports::copied_from(d, p, from, to, 0, touched)->Ok_0.1;
                unbinding_again(d, p, ioff, idx + 1, t);
            },
        }
    }
}

/// The imports that a descriptor has are counted by the same thunks in another file.
pub open spec fn lookup_stands(
    a: Seq<u8>,
    p: PeV,
    b: Seq<u8>,
    q: PeV,
    x: Descriptor,
) -> bool {
    match lookup_at(p, x) {
        None => lookup_at(q, x) is None,
        Some(o) => closed(a, p, o) && (lookup_at(q, x) matches Some(t) && stands(
            a,
            b,
            table_span(a, p, o, o),
            t,
        )),
    }
}

proof fn tables_alike(a: Seq<u8>, p: PeV, b: Seq<u8>, q: PeV, xs: Seq<Descriptor>, n: int)
    requires
        q.is64 == p.is64,
        0 <= n <= xs.len(),
        forall|i: int| 0 <= i < xs.len() ==> lookup_stands(a, p, b, q, #[trigger] xs[i]),
    ensures
        imports::tables_of(b, q, xs, n) == imports::tables_of(a, p, xs, n),
    decreases n,
{
    if n > 0 {
        tables_alike(a, p, b, q, xs, n - 1);
        let x = xs[n - 1];
        assert(lookup_stands(a, p, b, q, xs[n - 1]));
        if let Some(o) = lookup_at(p, x) {
            table_stays_closed(a, p, b, q, o, lookup_at(q, x)->0);
        }
        assert(imports::imported(b, q, x) == imports::imported(a, p, x));
    }
}

/// The address tables of two files have the same extent where one holds the imports of the other.
proof fn extent_stands(a: Seq<u8>, p: PeV, b: Seq<u8>, q: PeV, ioff: int, t: int)
    requires
        q.is64 == p.is64,
        imports::directory(a, p) == Some(ioff),
        imports::directory(b, q) == Some(t),
        imports::descriptors_from(a, ioff, 0).len() < imports::MAX_DESCRIPTORS,
        stands(a, b, directory_span(a, ioff), t),
        forall|i: int|
            0 <= i < imports::descriptors_from(a, ioff, 0).len() ==> lookup_stands(
                a,
                p,
                b,
                q,
                #[trigger] imports::descriptors_from(a, ioff, 0)[i],
            ),
    ensures
        imports::descriptors_from(b, t, 0) == imports::descriptors_from(a, ioff, 0),
        imports::iat_of(b, q) == imports::iat_of(a, p),
{
    let xs = imports::descriptors_from(a, ioff, 0);
    descriptor_is(a, ioff, 0);
    descriptors_stand(a, b, ioff, t, 0);
    tables_alike(a, p, b, q, xs, xs.len() as int);
}

/// Where a byte that is kept goes.
pub open spec fn moved_to(p: PeV, k: int) -> int {
    if clean::strips(p) && k >= clean::dead_end(p) {
        k - (clean::dead_end(p) - clean::dead_start(p))
    } else {
        k
    }
}

proof fn dead_lie_between(p: PeV, j: int)
    requires
        0 <= j < clean::dead(p).len(),
    ensures
        clean::dead_start(p) <= clean::dead(p)[j].ro,
        clean::dead(p)[j].ro + clean::dead(p)[j].rs <= clean::dead_end(p),
{
    let s = clean::dead(p);
    assert(s.len() <= 2);
    reveal_with_fuel(clean::low, 3);
    reveal_with_fuel(clean::high, 4);
}

proof fn dead_is_itself(raw: Seq<u8>, p: PeV, i: int) -> (j: int)
    requires
        pe::headers(raw) == Ok::<PeV, Seq<char>>(p),
        0 <= i < p.sections.len(),
        clean::among(clean::dead(p), p.sections[i]),
    ensures
        0 <= j < clean::dead(p).len(),
        clean::dead(p)[j] == p.sections[i],
{
    keeps::headers_are(raw);
    let s = clean::dead(p);
    let table = keeps::table_at(raw, p);
    let j = choose|j: int| 0 <= j < s.len() && (#[trigger] s[j]).hdr == p.sections[i].hdr;
    clean::found_is_one(p.sections, ".themida"@, 0);
    clean::found_is_one(p.sections, ".boot"@, 0);
    let x = choose|x: int| 0 <= x < p.sections.len() && #[trigger] p.sections[x] == s[j];
    assert(p.sections[i].hdr == table + pe::SECTION_HEADER * i);
    assert(p.sections[x].hdr == table + pe::SECTION_HEADER * x);
    j
}

proof fn offset_moves(raw: Seq<u8>, p: PeV, rva: u32, i: int)
    requires
        pe::headers(raw) == Ok::<PeV, Seq<char>>(p),
        clean::strips(p) ==> clean::kept_in(p, clean::dead_start(p), clean::dead_end(p), 0) is None,
        0 <= i,
        pe::offset_from(p.sections, rva, i) matches Some(o) ==> (clean::strips(p) ==> !(
        clean::dead_start(p) <= o < clean::dead_end(p))),
    ensures
        pe::offset_from(clean::cleaned_headers(p).sections, rva, i) == (match pe::offset_from(
            p.sections,
            rva,
            i,
        ) {
            Some(o) => Some(moved_to(p, o)),
            None => None,
        }),
        pe::offset_from(p.sections, rva, i) matches Some(o) ==> 0 <= o,
    decreases p.sections.len() - i,
{
    if i < p.sections.len() {
        let s = p.sections[i];
        let c = clean::cleaned_headers(p).sections[i];
        assert(c == clean::cleaned_section(p, s));
        if clean::strips(p) {
            keeps::low_is_an_offset(clean::dead(p), clean::dead(p).len() as int);
            if clean::among(clean::dead(p), s) {
                let j = dead_is_itself(raw, p, i);
                dead_lie_between(p, j);
            } else {
                keeps::kept_is_apart(p, clean::dead_start(p), clean::dead_end(p), i, 0);
            }
        }
        if !(s.rs != 0 && s.va <= rva < s.va + s.rs) {
            offset_moves(raw, p, rva, i + 1);
        }
    }
}

/// A thunk that is kept lies in the code after cleaning where it did before.
proof fn guard_moves(raw: Seq<u8>, p: PeV, o: int)
    requires
        pe::headers(raw) == Ok::<PeV, Seq<char>>(p),
        clean::strips(p) ==> clean::kept_in(p, clean::dead_start(p), clean::dead_end(p), 0) is None,
        clean::strips(p) ==> apart(
            (o, o + p.thunk()),
            (clean::dead_start(p), clean::dead_end(p)),
        ),
    ensures
        imports::guarded(clean::cleaned_headers(p), moved_to(p, o)) == imports::guarded(p, o),
{
    keeps::text_found_again(raw, p);
    if let Some(s) = p.named(".text"@) {
        if clean::strips(p) {
            keeps::low_is_an_offset(clean::dead(p), clean::dead(p).len() as int);
            let i = choose|i: int| 0 <= i < p.sections.len() && #[trigger] p.sections[i] == s;
            keeps::kept_is_apart(p, clean::dead_start(p), clean::dead_end(p), i, 0);
        }
    }
}

/// The two files hold the same behind the headers of the first.
spec fn same_behind(raw: Seq<u8>, p: PeV, e: Seq<u8>) -> bool {
    &&& e.len() == raw.len()
    &&& forall|k: int|
        #![trigger e[k]]
        keeps::headers_end(raw, p) <= k < raw.len() ==> e[k] == raw[k]
}

proof fn clear_span_stands(raw: Seq<u8>, p: PeV, e: Seq<u8>, s: Span)
    requires
        0 <= keeps::headers_end(raw, p),
        same_behind(raw, p, e),
        clear(raw, p, s),
        s.0 <= s.1,
    ensures
        stands(raw, e, s, s.0),
{
}

proof fn table_has_room(d: Seq<u8>, p: PeV, from: int, at: int)
    ensures
        at < table_span(d, p, from, at).1,
{
    imports::run_fits(d, p, from, 0);
    place_in_table(p.thunk(), 0, imports::thunk_run(d, p, from, 0));
}

proof fn headers_end_is_positive(raw: Seq<u8>, p: PeV)
    requires
        pe::headers(raw) == Ok::<PeV, Seq<char>>(p),
    ensures
        0 <= keeps::headers_end(raw, p),
{
    keeps::headers_are(raw);
}

/// Setting the directories leaves the imports of a well laid file as they are.
proof fn imports_hold(raw: Seq<u8>, p: PeV, e: Seq<u8>, ioff: int)
    requires
        well_laid(raw, p),
        imports::directory(raw, p) == Some(ioff),
        same_behind(raw, p, e),
    ensures
        tables_hold(raw, e, p, ioff),
        forall|i: int|
            0 <= i < imports::descriptors_from(raw, ioff, 0).len() ==> lookup_stands(
                raw,
                p,
                e,
                p,
                #[trigger] imports::descriptors_from(raw, ioff, 0)[i],
            ),
{
    headers_end_is_positive(raw, p);
    let xs = imports::descriptors_from(raw, ioff, 0);
    clear_span_stands(raw, p, e, directory_span(raw, ioff));
    assert forall|i: int| 0 <= i < xs.len() implies (lookup_at(p, #[trigger] xs[i]) matches Some(o)
        ==> closed(raw, p, o) && stands(raw, e, table_span(raw, p, o, o), o)) by {
        if let Some(o) = lookup_at(p, xs[i]) {
            assert(lookup_kept(raw, p, xs[i]));
            table_has_room(raw, p, o, o);
            clear_span_stands(raw, p, e, table_span(raw, p, o, o));
        }
    }
    assert forall|i: int| 0 <= i < xs.len() implies lookup_stands(raw, p, e, p, #[trigger] xs[i]) by {
        assert(lookup_at(p, xs[i]) matches Some(o) ==> closed(raw, p, o) && stands(
            raw,
            e,
            table_span(raw, p, o, o),
            o,
        ));
    }
}

/// Unbinding a well laid file changes nothing but the address tables.
proof fn unbinding_is_local(raw: Seq<u8>, p: PeV, opts: CleanOptions, ioff: int)
    requires
        well_laid(raw, p),
        imports::directory(raw, p) == Some(ioff),
        clean::iat_set(clean::directories_mended(raw, p), p) is Ok,
        opts.unbind_iat,
    ensures
        clean::thunks_unbound(keeps::prepared(raw, p), p, opts) matches Ok((u, t)) ==> {
            let xs = imports::descriptors_from(raw, ioff, 0);
            &&& u.len() == raw.len()
            &&& forall|k: int|
                #![trigger u[k]]
                0 <= k < raw.len() && (forall|i: int|
                    0 <= i < xs.len() ==> !in_addresses(raw, p, #[trigger] xs[i], k)) ==> u[k]
                    == keeps::prepared(raw, p)[k]
            &&& forall|i: int|
                0 <= i < xs.len() ==> addresses_copied(raw, u, p, #[trigger] xs[i])
        },
{
    keeps::prepared_keeps(raw, p);
    let d = keeps::prepared(raw, p);
    assert(imports::directory(d, p) == Some(ioff));
    imports_hold(raw, p, d, ioff);
    unbinding_copies(raw, d, p, ioff, 0, 0);
}

/// A byte of a run that no address table shares is left by unbinding.
proof fn unbinding_leaves(
    raw: Seq<u8>,
    p: PeV,
    opts: CleanOptions,
    u: Seq<u8>,
    k: int,
)
    requires
        well_laid(raw, p),
        clean::iat_set(clean::directories_mended(raw, p), p) is Ok,
        clean::thunks_unbound(keeps::prepared(raw, p), p, opts) matches Ok((n, t)) && n == u,
        0 <= k < raw.len(),
        imports::directory(raw, p) matches Some(ioff) ==> forall|i: int|
            0 <= i < imports::descriptors_from(raw, ioff, 0).len() ==> !in_addresses(
                raw,
                p,
                #[trigger] imports::descriptors_from(raw, ioff, 0)[i],
                k,
            ),
    ensures
        u[k] == keeps::prepared(raw, p)[k],
{
    keeps::prepared_keeps(raw, p);
    if opts.unbind_iat {
        if let Some(ioff) = imports::directory(raw, p) {
            unbinding_is_local(raw, p, opts, ioff);
        }
    }
}

/// A well laid file has orderly headers.
pub proof fn well_laid_is_orderly(raw: Seq<u8>, p: PeV, opts: CleanOptions)
    requires
        well_laid(raw, p),
        clean::iat_set(clean::directories_mended(raw, p), p) is Ok,
    ensures
        keeps::orderly(raw, p, opts),
{
    reveal(keeps::spared);
    assert forall|k: int| 0 <= k < keeps::headers_end(raw, p) implies #[trigger] keeps::spared(
        raw,
        p,
        opts,
        k,
    ) by {
        if let Ok((u, t)) = clean::thunks_unbound(keeps::prepared(raw, p), p, opts) {
            if let Some(ioff) = imports::directory(raw, p) {
                let xs = imports::descriptors_from(raw, ioff, 0);
                assert forall|i: int| 0 <= i < xs.len() implies !in_addresses(
                    raw,
                    p,
                    #[trigger] xs[i],
                    k,
                ) by {
                    assert(addresses_kept(raw, p, xs[i]));
                }
            }
            unbinding_leaves(raw, p, opts, u, k);
        }
    }
}

/// What the laws below speak of: a well laid file, the file once unbound, and the file with all edits.
spec fn edited_well(
    raw: Seq<u8>,
    p: PeV,
    opts: CleanOptions,
    u: Seq<u8>,
    out: Seq<u8>,
    summary: CleanSummaryV,
) -> bool {
    &&& well_laid(raw, p)
    &&& clean::with_edits(raw, p, opts) == Ok::<(Seq<u8>, CleanSummaryV), Seq<char>>((out, summary))
    &&& clean::iat_set(clean::directories_mended(raw, p), p) is Ok
    &&& clean::thunks_unbound(keeps::prepared(raw, p), p, opts) matches Ok((n, t)) && n == u
    &&& keeps::orderly(raw, p, opts)
    &&& clean::strips(p) ==> clean::kept_in(p, clean::dead_start(p), clean::dead_end(p), 0) is None
}

proof fn span_moves(
    raw: Seq<u8>,
    p: PeV,
    opts: CleanOptions,
    u: Seq<u8>,
    out: Seq<u8>,
    summary: CleanSummaryV,
    s: Span,
)
    requires
        edited_well(raw, p, opts, u, out, summary),
        clear(raw, p, s),
        s.0 < s.1,
    ensures
        0 <= s.0,
        0 <= moved_to(p, s.0),
        moved_to(p, s.0) + (s.1 - s.0) <= out.len(),
        forall|i: int|
            0 <= i < s.1 - s.0 ==> #[trigger] out[moved_to(p, s.0) + i] == u[s.0 + i],
        forall|i: int|
            0 <= i < s.1 - s.0 ==> #[trigger] moved_to(p, s.0 + i) == moved_to(p, s.0) + i,
{
    headers_end_is_positive(raw, p);
    let t = moved_to(p, s.0);
    assert forall|i: int| 0 <= i < s.1 - s.0 implies #[trigger] out[t + i] == u[s.0 + i] && 0 <= t + i
        < out.len() by {
        keeps::byte_behind_the_headers(raw, p, opts, out, s.0 + i, t + i);
    }
    assert(out[t + 0] == u[s.0 + 0] && 0 <= t + 0);
    let last = s.1 - s.0 - 1;
    assert(out[t + last] == u[s.0 + last] && t + last < out.len());
}

/// A run that no address table shares stands in the edited file where it was moved to.
proof fn kept_span_stands(
    raw: Seq<u8>,
    p: PeV,
    opts: CleanOptions,
    u: Seq<u8>,
    out: Seq<u8>,
    summary: CleanSummaryV,
    ioff: int,
    s: Span,
)
    requires
        edited_well(raw, p, opts, u, out, summary),
        imports::directory(raw, p) == Some(ioff),
        clear(raw, p, s),
        s.0 < s.1,
        forall|i: int|
            0 <= i < imports::descriptors_from(raw, ioff, 0).len() ==> (imports::tables_at(
                p,
                #[trigger] imports::descriptors_from(raw, ioff, 0)[i],
            ) matches Some((from, to)) ==> apart(table_span(raw, p, from, to), s)),
    ensures
        stands(raw, out, s, moved_to(p, s.0)),
{
    headers_end_is_positive(raw, p);
    span_moves(raw, p, opts, u, out, summary, s);
    keeps::prepared_keeps(raw, p);
    let d = keeps::prepared(raw, p);
    let xs = imports::descriptors_from(raw, ioff, 0);
    let t = moved_to(p, s.0);
    assert forall|i: int| 0 <= i < s.1 - s.0 implies #[trigger] out[t + i] == raw[s.0 + i] by {
        assert(out[t + i] == u[s.0 + i]);
        assert forall|j: int| 0 <= j < xs.len() implies !in_addresses(
            raw,
            p,
            #[trigger] xs[j],
            s.0 + i,
        ) by {}
        unbinding_leaves(raw, p, opts, u, s.0 + i);
        assert(d[s.0 + i] == raw[s.0 + i]);
    }
}

proof fn lookup_moves(
    raw: Seq<u8>,
    p: PeV,
    opts: CleanOptions,
    u: Seq<u8>,
    out: Seq<u8>,
    summary: CleanSummaryV,
    ioff: int,
    i: int,
)
    requires
        edited_well(raw, p, opts, u, out, summary),
        imports::directory(raw, p) == Some(ioff),
        0 <= i < imports::descriptors_from(raw, ioff, 0).len(),
    ensures
        lookup_stands(
            raw,
            p,
            out,
            clean::cleaned_headers(p),
            imports::descriptors_from(raw, ioff, 0)[i],
        ),
        lookup_at(p, imports::descriptors_from(raw, ioff, 0)[i]) matches Some(o) ==> lookup_at(
            clean::cleaned_headers(p),
            imports::descriptors_from(raw, ioff, 0)[i],
        ) == Some(moved_to(p, o)),
{
    let xs = imports::descriptors_from(raw, ioff, 0);
    let x = xs[i];
    let rva = if x.oft != 0 {
        x.oft
    } else {
        x.ft
    };
    assert(lookup_kept(raw, p, xs[i]));
    if let Some(o) = lookup_at(p, x) {
        table_has_room(raw, p, o, o);
        assert forall|j: int| 0 <= j < xs.len() implies (imports::tables_at(
            p,
            #[trigger] xs[j],
        ) matches Some((from, to)) ==> apart(
            table_span(raw, p, from, to),
            table_span(raw, p, o, o),
        )) by {
            assert(address_from_lookup(raw, p, xs[j], xs[i]));
        }
        kept_span_stands(raw, p, opts, u, out, summary, ioff, table_span(raw, p, o, o));
    }
    offset_moves(raw, p, rva, 0);
}

/// The address table of a descriptor is unbound in the edited file.
proof fn addresses_stay_copied(
    raw: Seq<u8>,
    p: PeV,
    opts: CleanOptions,
    u: Seq<u8>,
    out: Seq<u8>,
    summary: CleanSummaryV,
    ioff: int,
    i: int,
)
    requires
        edited_well(raw, p, opts, u, out, summary),
        imports::directory(raw, p) == Some(ioff),
        0 <= i < imports::descriptors_from(raw, ioff, 0).len(),
        opts.unbind_iat,
    ensures
        imports::tables_at(
            clean::cleaned_headers(p),
            imports::descriptors_from(raw, ioff, 0)[i],
        ) matches Some((from, to)) ==> 0 <= from && closed(out, clean::cleaned_headers(p), from)
            && table_copied(out, out, clean::cleaned_headers(p), from, to, 0),
{
    let q = clean::cleaned_headers(p);
    let x = imports::descriptors_from(raw, ioff, 0)[i];
    lookup_moves(raw, p, opts, u, out, summary, ioff, i);
    if x.oft != 0 && x.ft != 0 {
        assert(addresses_kept(raw, p, imports::descriptors_from(raw, ioff, 0)[i]));
        if let Some((f, g)) = imports::tables_at(p, x) {
            table_has_room(raw, p, f, g);
            assert(lookup_at(p, x) == Some(f));
            offset_moves(raw, p, x.oft, 0);
            offset_moves(raw, p, x.ft, 0);
            assert(imports::tables_at(q, x) == Some((moved_to(p, f), moved_to(p, g))));
            table_stays_closed(raw, p, out, q, f, moved_to(p, f));
            unbinding_is_local(raw, p, opts, ioff);
            assert(addresses_copied(raw, u, p, imports::descriptors_from(raw, ioff, 0)[i]));
            span_moves(raw, p, opts, u, out, summary, table_span(raw, p, f, g));
            let run = imports::thunk_run(raw, p, f, 0);
            assert forall|j: int| 0 <= j <= run implies #[trigger] thunk_copied(
                out,
                out,
                q,
                moved_to(p, f) + j * q.thunk(),
                moved_to(p, g) + j * q.thunk(),
            ) by {
                thunk_moves(raw, p, u, out, f, g, j);
            }
        } else if p.offset(x.oft) is None {
            offset_moves(raw, p, x.oft, 0);
        } else {
            offset_moves(raw, p, x.ft, 0);
        }
    }
}

proof fn thunk_moves(
    raw: Seq<u8>,
    p: PeV,
    u: Seq<u8>,
    out: Seq<u8>,
    f: int,
    g: int,
    j: int,
)
    requires
        pe::headers(raw) == Ok::<PeV, Seq<char>>(p),
        clean::strips(p) ==> clean::kept_in(p, clean::dead_start(p), clean::dead_end(p), 0) is None,
        closed(raw, p, f),
        0 <= f,
        0 <= j <= imports::thunk_run(raw, p, f, 0),
        table_copied(raw, u, p, f, g, 0),
        stands(raw, out, table_span(raw, p, f, f), moved_to(p, f)),
        clear(raw, p, table_span(raw, p, f, g)),
        moved_to(p, g) >= 0,
        moved_to(p, g) + (table_span(raw, p, f, g).1 - g) <= out.len(),
        forall|i: int|
            0 <= i < table_span(raw, p, f, g).1 - g ==> #[trigger] out[moved_to(p, g) + i] == u[g + i],
        forall|i: int|
            0 <= i < table_span(raw, p, f, g).1 - g ==> #[trigger] moved_to(p, g + i) == moved_to(p, g)
                + i,
    ensures
        thunk_copied(
            out,
            out,
            clean::cleaned_headers(p),
            moved_to(p, f) + j * p.thunk(),
            moved_to(p, g) + j * p.thunk(),
        ),
{
    let w = p.thunk();
    let q = clean::cleaned_headers(p);
    let run = imports::thunk_run(raw, p, f, 0);
    place_in_table(w, j, run);
    let a = f + j * w;
    let b = g + j * w;
    let c = moved_to(p, f) + j * w;
    let e = moved_to(p, g) + j * w;
    assert(thunk_copied(raw, u, p, a, b));
    guard_moves(raw, p, b);
    assert(moved_to(p, g + j * w) == e);
    if !imports::guarded(p, b) {
        let x = out.subrange(e, e + w);
        let y = out.subrange(c, c + w);
        assert forall|i: int| 0 <= i < w implies #[trigger] x[i] == y[i] by {
            assert(out[moved_to(p, g) + (j * w + i)] == u[g + (j * w + i)]);
            assert(out[moved_to(p, f) + (j * w + i)] == raw[f + (j * w + i)]);
            assert(u.subrange(b, b + w)[i] == raw.subrange(a, a + w)[i]);
        }
        assert(x =~= y);
    }
}

/// The imports of a well laid file outlast the edits.
proof fn imports_do_outlast(
    raw: Seq<u8>,
    p: PeV,
    opts: CleanOptions,
    u: Seq<u8>,
    out: Seq<u8>,
    summary: CleanSummaryV,
)
    requires
        edited_well(raw, p, opts, u, out, summary),
    ensures
        keeps::imports_outlast(out, summary, p, opts),
{
    let q = clean::cleaned_headers(p);
    keeps::import_directory_stays(raw, p, opts, out);
    keeps::prepared_keeps(raw, p);
    let d1 = clean::directories_mended(raw, p)->Ok_0;
    let named = pe::at32(raw, p.dd + 8);
    match imports::directory(raw, p) {
        None => {
            if let Some(rva) = named {
                offset_moves(raw, p, rva, 0);
            }
            assert(imports::directory(out, q) is None);
        },
        Some(ioff) => {
            let xs = imports::descriptors_from(raw, ioff, 0);
            let s = directory_span(raw, ioff);
            assert forall|j: int| 0 <= j < xs.len() implies (imports::tables_at(
                p,
                #[trigger] xs[j],
            ) matches Some((from, to)) ==> apart(table_span(raw, p, from, to), s)) by {
                assert(address_from_directory(raw, p, xs[j], ioff));
            }
            kept_span_stands(raw, p, opts, u, out, summary, ioff, s);
            offset_moves(raw, p, named->0, 0);
            let t = moved_to(p, ioff);
            assert(imports::directory(out, q) == Some(t));
            assert forall|i: int| 0 <= i < xs.len() implies lookup_stands(
                raw,
                p,
                out,
                q,
                #[trigger] xs[i],
            ) by {
                lookup_moves(raw, p, opts, u, out, summary, ioff, i);
            }
            extent_stands(raw, p, out, q, ioff, t);
            imports_hold(raw, p, d1, ioff);
            extent_stands(raw, p, d1, p, ioff, ioff);
            if opts.unbind_iat {
                assert forall|i: int| 0 <= i < xs.len() implies (imports::tables_at(
                    q,
                    #[trigger] xs[i],
                ) matches Some((from, to)) ==> 0 <= from && closed(out, q, from) && table_copied(
                    out,
                    out,
                    q,
                    from,
                    to,
                    0,
                )) by {
                    addresses_stay_copied(raw, p, opts, u, out, summary, ioff, i);
                }
                unbinding_again(out, q, t, 0, 0);
            }
        },
    }
}

/// Cleaning twice is cleaning once: where the headers, the import descriptors and the tables of thunks are
/// closed by zeros and share no bytes, and none of them lies in a section that is removed, a cleaned file
/// is cleaned to itself, with nothing removed and nothing renamed.
pub proof fn cleaning_twice_is_cleaning_once(raw: Seq<u8>, p: PeV, opts: CleanOptions)
    requires
        well_laid(raw, p),
    ensures
        clean::cleaned(raw, opts) matches Ok((out, summary)) ==> (clean::cleaned(
            out,
            opts,
        ) matches Ok((again, s)) && again == out && s.stripped_bytes == 0 && s.renamed.len() == 0),
{
    if let Ok((out, summary)) = clean::cleaned(raw, opts) {
        well_laid_is_orderly(raw, p, opts);
        keeps::import_directory_stays(raw, p, opts, out);
        let u = clean::thunks_unbound(keeps::prepared(raw, p), p, opts)->Ok_0.0;
        imports_do_outlast(raw, p, opts, u, out, summary);
        keeps::edited_file_settles(raw, p, opts, out, summary);
    }
}

}
