//! What cleaning keeps: no address moves, no byte of the code changes, no byte of another section changes
//! but what unbinding rewrites, and a cleaned file whose imports outlast it stays as it is.

use crate::le;
use crate::unpack::clean;
use crate::unpack::clean::{CleanOptions, CleanSummaryV, Edited};
use crate::unpack::gates;
use crate::unpack::imports;
use crate::unpack::pe;
use crate::unpack::pe::{PeV, SecV};
use crate::unpack::verify;
use vstd::prelude::*;
use vstd::string::*;
use vstd::utf8::*;

verus! {

/// A set of places in a file.
pub type Places = spec_fn(int) -> bool;

/// The two files differ at most at the places.
pub open spec fn same_but(a: Seq<u8>, b: Seq<u8>, w: Places) -> bool {
    &&& a.len() == b.len()
    &&& forall|k: int| #![trigger b[k]] 0 <= k < a.len() && !w(k) ==> a[k] == b[k]
}

/// The places of the data directories that cleaning sets.
pub open spec fn directory_places(p: PeV) -> Places {
    |k: int| p.dd + 24 <= k < p.dd + 104
}

/// The places of the flags of the sections.
pub open spec fn flag_places(p: PeV) -> Places {
    |k: int|
        exists|i: int|
            0 <= i < p.sections.len() && (#[trigger] p.sections[i]).hdr + 36 <= k < p.sections[i].hdr
                + 40
}

/// The places of the timestamp.
pub open spec fn stamp_places(p: PeV) -> Places {
    |k: int| p.coff + 4 <= k < p.coff + 8
}

/// The places of the names of the sections.
pub open spec fn name_places(p: PeV) -> Places {
    |k: int|
        exists|i: int|
            0 <= i < p.sections.len() && (#[trigger] p.sections[i]).hdr <= k < p.sections[i].hdr + 8
}

/// The places where the section headers say what is in the file.
pub open spec fn file_places(p: PeV) -> Places {
    |k: int|
        exists|i: int|
            0 <= i < p.sections.len() && (#[trigger] p.sections[i]).hdr + 16 <= k < p.sections[i].hdr
                + 24
}

/// Writing some bytes changes no others.
pub proof fn put_keeps(d: Seq<u8>, o: int, b: Seq<u8>)
    ensures
        pe::put(d, o, b) matches Some(n) ==> n.len() == d.len() && n.subrange(o, o + b.len()) == b
            && forall|k: int|
            #![trigger n[k]]
            0 <= k < d.len() && !(o <= k < o + b.len()) ==> d[k] == n[k],
{
    if let Some(n) = pe::put(d, o, b) {
        assert(n.subrange(o, o + b.len()) =~= b);
    }
}

proof fn stored_keeps(d: Seq<u8>, o: int, v: u32)
    ensures
        clean::stored(Ok(d), o, v) matches Ok(n) ==> n.len() == d.len() && 0 <= o && o + 4 <= d.len()
            && le::le32(n, o) == v && forall|k: int|
            #![trigger n[k]]
            0 <= k < d.len() && !(o <= k < o + 4) ==> d[k] == n[k],
{
    if let Some(n) = pe::put(d, o, le::le32_bytes(v)) {
        le::patched_reads_back(d, o, v);
        put_keeps(d, o, le::le32_bytes(v));
    }
}

proof fn pointed_keeps(d: Seq<u8>, p: PeV, entry: int, rva: u32, size: u32)
    requires
        3 <= entry <= 12,
    ensures
        clean::pointed(Ok(d), p, entry, rva, size) matches Ok(n) ==> same_but(d, n, directory_places(p)),
{
    let o = p.dd + 8 * entry;
    stored_keeps(d, o, rva);
    if let Ok(e) = clean::stored(Ok(d), o, rva) {
        stored_keeps(e, o + 4, size);
    }
}

proof fn directories_keep(d: Seq<u8>, p: PeV)
    ensures
        clean::directories_mended(d, p) matches Ok(n) ==> same_but(d, n, directory_places(p)),
{
    if let Some(s) = p.named(".pdata"@) {
        pointed_keeps(d, p, 3, s.va, s.vs);
        if let Ok(e) = clean::pointed(Ok(d), p, 3, s.va, s.vs) {
            pointed_keeps(e, p, 4, 0, 0);
        }
    } else {
        pointed_keeps(d, p, 4, 0, 0);
    }
}

proof fn iat_keeps(d: Seq<u8>, p: PeV)
    ensures
        clean::iat_set(Ok(d), p) matches Ok((n, dir)) ==> same_but(d, n, directory_places(p)),
{
    if let Ok((rva, size)) = imports::iat_of(d, p) {
        pointed_keeps(d, p, 12, rva, size);
    }
}

proof fn copying_keeps_length(d: Seq<u8>, p: PeV, from: int, to: int, j: int, touched: int)
    ensures
        imports::copied_from(d, p, from, to, j, touched) matches Ok((n, t)) ==> n.len() == d.len(),
    decreases imports::MAX_THUNKS - j,
{
    if j < imports::MAX_THUNKS {
        if let Some(v) = imports::thunk_at(d, p.is64, from + j * p.thunk()) {
            let o = to + j * p.thunk();
            let b = imports::thunk_bytes(p.is64, v);
            put_keeps(d, o, b);
            if imports::guarded(p, o) {
                if v != 0 {
                    copying_keeps_length(d, p, from, to, j + 1, touched);
                }
            } else if let Some(e) = pe::put(d, o, b) {
                if v != 0 {
                    copying_keeps_length(e, p, from, to, j + 1, touched + 1);
                }
            }
        }
    }
}

proof fn unbinding_keeps_length(d: Seq<u8>, p: PeV, ioff: int, idx: int, touched: int)
    ensures
        imports::unbound_from(d, p, ioff, idx, touched) matches Ok((n, t)) ==> n.len() == d.len(),
    decreases imports::MAX_DESCRIPTORS - idx,
{
    if idx < imports::MAX_DESCRIPTORS {
        if let Some(x) = imports::descriptor_at(d, ioff + 20 * idx) {
            match imports::tables_at(p, x) {
                None => {
                    unbinding_keeps_length(d, p, ioff, idx + 1, touched);
                },
                Some((from, to)) => {
                    copying_keeps_length(d, p, from, to, 0, touched);
                    if let Ok((e, t)) = imports::copied_from(d, p, from, to, 0, touched) {
                        unbinding_keeps_length(e, p, ioff, idx + 1, t);
                    }
                },
            }
        }
    }
}

proof fn thunks_keep_length(d: Seq<u8>, p: PeV, opts: CleanOptions)
    ensures
        clean::thunks_unbound(d, p, opts) matches Ok((n, t)) ==> n.len() == d.len(),
{
    if opts.unbind_iat {
        if let Some(ioff) = imports::directory(d, p) {
            unbinding_keeps_length(d, p, ioff, 0, 0);
        }
    }
}

proof fn quieting_keeps(d: Seq<u8>, p: PeV, n: int)
    requires
        n <= 3,
    ensures
        clean::quieted(d, p, n) matches Ok(e) ==> same_but(d, e, flag_places(p)),
    decreases n,
{
    if n > 0 {
        quieting_keeps(d, p, n - 1);
        if let Ok(e) = clean::quieted(d, p, n - 1) {
            if let Some(s) = p.named(clean::residue()[n - 1]) {
                stored_keeps(e, s.hdr + 36, clean::DATA_ONLY);
                clean::found_is_one(p.sections, clean::residue()[n - 1], 0);
                let i = choose|i: int| 0 <= i < p.sections.len() && #[trigger] p.sections[i] == s;
                assert(p.sections[i].hdr == s.hdr);
            }
        }
    }
}

proof fn stamping_keeps(d: Seq<u8>, p: PeV)
    ensures
        clean::stored(Ok(d), p.coff + 4, 0) matches Ok(e) ==> same_but(d, e, stamp_places(p)),
{
    stored_keeps(d, p.coff + 4, 0);
}

/// Where the section table of a file is.
pub open spec fn table_at(d: Seq<u8>, p: PeV) -> int {
    p.coff + 20 + pe::at16(d, p.coff + 16)->0
}

/// Where the headers of a file end.
pub open spec fn headers_end(d: Seq<u8>, p: PeV) -> int {
    table_at(d, p) + pe::SECTION_HEADER * p.sections.len()
}

/// The headers do not overlap: the PE header lies behind the DOS header, the directories before the
/// section table, and all in the file.
pub open spec fn tidy(d: Seq<u8>, p: PeV) -> bool {
    &&& p.coff >= 0x44
    &&& p.dd + 104 <= table_at(d, p)
    &&& headers_end(d, p) <= d.len()
}

/// The section headers follow one another from `table` on.
pub open spec fn in_a_row(p: PeV, table: int) -> bool {
    forall|i: int|
        0 <= i < p.sections.len() ==> (#[trigger] p.sections[i]).hdr == table + pe::SECTION_HEADER * i
}

/// The headers that are read lie one behind the other.
pub proof fn headers_are(d: Seq<u8>)
    ensures
        pe::headers(d) matches Ok(p) ==> {
            &&& in_a_row(p, table_at(d, p))
            &&& p.sections == pe::sections_at(d, table_at(d, p), p.sections.len())
            &&& p.coff == le::le32(d, 0x3C) + 4
            &&& p.dd == p.coff + 20 + if p.is64 {
                0x70int
            } else {
                0x60int
            }
            &&& pe::at16(d, p.coff + 16) is Some
            &&& pe::at16(d, p.coff + 2) == Some(p.sections.len() as u16)
            &&& p.sections.len() <= 0xFFFF
        },
{
    if let Ok(p) = pe::headers(d) {
        assert forall|i: int| 0 <= i < p.sections.len() implies (#[trigger] p.sections[i]).hdr
            == table_at(d, p) + pe::SECTION_HEADER * i by {
            assert(p.sections[i] == pe::section_at(d, table_at(d, p) + pe::SECTION_HEADER * i));
        }
        assert(p.sections =~= pe::sections_at(d, table_at(d, p), p.sections.len()));
    }
}

/// The name bytes of a section after renaming.
pub open spec fn renamed_bytes(raw: Seq<u8>, name: Seq<char>) -> Seq<u8> {
    match clean::new_name(name) {
        Some(b) => b,
        None => raw,
    }
}

proof fn renaming_keeps(d: Seq<u8>, p: PeV, table: int, n: int)
    requires
        in_a_row(p, table),
        0 <= table,
        table + pe::SECTION_HEADER * p.sections.len() <= d.len(),
        0 <= n <= p.sections.len(),
    ensures
        clean::renamed(d, p, n) matches Ok(e) ==> {
            &&& same_but(d, e, name_places(p))
            &&& forall|i: int|
                #![trigger p.sections[i]]
                0 <= i < p.sections.len() ==> e.subrange(
                    p.sections[i].hdr as int,
                    p.sections[i].hdr + 8,
                ) == (if i < n {
                    renamed_bytes(
                        d.subrange(p.sections[i].hdr as int, p.sections[i].hdr + 8),
                        p.sections[i].name,
                    )
                } else {
                    d.subrange(p.sections[i].hdr as int, p.sections[i].hdr + 8)
                })
        },
    decreases n,
{
    if n > 0 {
        renaming_keeps(d, p, table, n - 1);
        let s = p.sections[n - 1];
        if let (Ok(e), Some(b)) = (clean::renamed(d, p, n - 1), clean::new_name(s.name)) {
            assert(b.len() == 8);
            put_keeps(e, s.hdr as int, b);
            if let Some(x) = pe::put(e, s.hdr as int, b) {
                assert(same_but(e, x, name_places(p))) by {
                    assert forall|k: int|
                        #![trigger x[k]]
                        0 <= k < e.len() && !name_places(p)(k) implies e[k] == x[k] by {
                        assert(!(p.sections[n - 1].hdr <= k < p.sections[n - 1].hdr + 8));
                    }
                }
                assert forall|i: int|
                    #![trigger p.sections[i]]
                    0 <= i < p.sections.len() implies x.subrange(
                    p.sections[i].hdr as int,
                    p.sections[i].hdr + 8,
                ) == (if i < n {
                    renamed_bytes(
                        d.subrange(p.sections[i].hdr as int, p.sections[i].hdr + 8),
                        p.sections[i].name,
                    )
                } else {
                    d.subrange(p.sections[i].hdr as int, p.sections[i].hdr + 8)
                }) by {
                    if i != n - 1 {
                        let h = p.sections[i].hdr as int;
                        assert(p.sections[i].hdr == table + pe::SECTION_HEADER * i);
                        assert(s.hdr == table + pe::SECTION_HEADER * (n - 1));
                        assert(x.subrange(h, h + 8) =~= e.subrange(h, h + 8));
                    }
                }
            }
        }
    }
}

/// The section headers of a file say what is in the file.
spec fn says(d: Seq<u8>, p: PeV, i: int, fields: (u32, u32)) -> bool {
    le::le32(d, p.sections[i].hdr + 16) == fields.0 && le::le32(d, p.sections[i].hdr + 20) == fields.1
}

proof fn moving_keeps(d: Seq<u8>, p: PeV, table: int, hi: int, gap: int, n: int)
    requires
        in_a_row(p, table),
        0 <= table,
        table + pe::SECTION_HEADER * p.sections.len() <= d.len(),
        0 <= n <= p.sections.len(),
        forall|i: int|
            0 <= i < p.sections.len() ==> #[trigger] says(
                d,
                p,
                i,
                (p.sections[i].rs, p.sections[i].ro),
            ),
    ensures
        clean::moved(d, p, hi, gap, n) matches Ok(e) ==> {
            &&& same_but(d, e, file_places(p))
            &&& forall|i: int|
                #![trigger p.sections[i]]
                0 <= i < p.sections.len() ==> says(
                    e,
                    p,
                    i,
                    if i < n {
                        clean::moved_fields(p, p.sections[i], hi, gap)
                    } else {
                        (p.sections[i].rs, p.sections[i].ro)
                    },
                )
        },
    decreases n,
{
    if n == 0 {
        assert forall|i: int|
            #![trigger p.sections[i]]
            0 <= i < p.sections.len() implies says(d, p, i, (p.sections[i].rs, p.sections[i].ro)) by {
            assert(says(d, p, i, (p.sections[i].rs, p.sections[i].ro)));
        }
    } else {
        moving_keeps(d, p, table, hi, gap, n - 1);
        let s = p.sections[n - 1];
        if let (Ok(e), Ok(x)) = (
            clean::moved(d, p, hi, gap, n - 1),
            clean::moved(d, p, hi, gap, n),
        ) {
            let h = s.hdr as int;
            assert(says(e, p, n - 1, (s.rs, s.ro)));
            if clean::among(clean::dead(p), s) {
                stored_keeps(e, h + 16, 0);
                let y = clean::stored(Ok(e), h + 16, 0)->Ok_0;
                stored_keeps(y, h + 20, 0);
            } else if s.rs != 0 && s.ro >= hi {
                stored_keeps(e, h + 20, (s.ro - gap) as u32);
            }
            assert forall|k: int| #![trigger x[k]] 0 <= k < d.len() && !file_places(p)(k) implies d[k]
                == x[k] by {
                assert(!(p.sections[n - 1].hdr + 16 <= k < p.sections[n - 1].hdr + 24));
                assert(e[k] == x[k]);
            }
            assert forall|i: int|
                #![trigger p.sections[i]]
                0 <= i < p.sections.len() implies says(
                x,
                p,
                i,
                if i < n {
                    clean::moved_fields(p, p.sections[i], hi, gap)
                } else {
                    (p.sections[i].rs, p.sections[i].ro)
                },
            ) by {
                if i != n - 1 {
                    let g = p.sections[i].hdr as int;
                    assert(p.sections[i].hdr == table + pe::SECTION_HEADER * i);
                    assert(s.hdr == table + pe::SECTION_HEADER * (n - 1));
                    assert(forall|k: int| g + 16 <= k < g + 24 ==> #[trigger] e[k] == x[k]);
                }
            }
        }
    }
}

/// The places of the headers that cleaning edits.
pub open spec fn edit_places(p: PeV) -> Places {
    |k: int|
        directory_places(p)(k) || flag_places(p)(k) || stamp_places(p)(k) || name_places(p)(k)
            || file_places(p)(k)
}

proof fn same_headers_read_the_same(raw: Seq<u8>, out: Seq<u8>, p: PeV)
    requires
        pe::headers(raw) == Ok::<PeV, Seq<char>>(p),
        tidy(raw, p),
        headers_end(raw, p) <= out.len(),
        forall|k: int|
            #![trigger out[k]]
            0 <= k < headers_end(raw, p) && !edit_places(p)(k) ==> raw[k] == out[k],
    ensures
        pe::headers(out) == Ok::<PeV, Seq<char>>(
            (PeV {
                sections: pe::sections_at(out, table_at(raw, p), p.sections.len()),
                ..p
            }),
        ),
{
    headers_are(raw);
    let table = table_at(raw, p);
    let opt = p.coff + 20;
    assert forall|k: int| 0 <= k < p.dd + 24 && !(p.coff + 4 <= k < p.coff + 8) implies raw[k]
        == #[trigger] out[k] by {
        assert(!flag_places(p)(k) && !name_places(p)(k) && !file_places(p)(k)) by {
            assert forall|i: int| 0 <= i < p.sections.len() implies k < (#[trigger] p.sections[i]).hdr by {
                assert(p.sections[i].hdr == table + pe::SECTION_HEADER * i);
            }
        }
    }
    assert(opt + 0x20 <= p.dd);
    assert(le::le32(out, 0x3C) == le::le32(raw, 0x3C));
    let e = le::le32(raw, 0x3C);
    assert(out.subrange(e, e + 4) =~= raw.subrange(e, e + 4));
    assert(pe::at16(out, p.coff + 2) == pe::at16(raw, p.coff + 2));
    assert(pe::at16(out, p.coff + 16) == pe::at16(raw, p.coff + 16));
    assert(pe::at16(out, opt) == pe::at16(raw, opt));
    assert(pe::at32(out, opt + 16) == pe::at32(raw, opt + 16));
    assert(pe::at32(out, opt + 0x1C) == pe::at32(raw, opt + 0x1C));
    assert(pe::at64(out, opt + 0x18) == pe::at64(raw, opt + 0x18));
    assert(pe::optional_at(out, opt) == pe::optional_at(raw, opt));
}

/// The file after the directories are set and before the thunks are unbound.
pub open spec fn prepared(raw: Seq<u8>, p: PeV) -> Seq<u8> {
    match clean::iat_set(clean::directories_mended(raw, p), p) {
        Ok((d, dir)) => d,
        Err(_) => raw,
    }
}

/// Unbinding leaves the byte at `k` as it is.
#[verifier::opaque]
pub open spec fn spared(raw: Seq<u8>, p: PeV, opts: CleanOptions, k: int) -> bool {
    clean::thunks_unbound(prepared(raw, p), p, opts) matches Ok((n, t)) ==> n[k] == prepared(raw, p)[k]
}

/// The places that are edited before the dead bytes are removed.
spec fn early_places(raw: Seq<u8>, p: PeV, opts: CleanOptions) -> Places {
    |k: int|
        directory_places(p)(k) || flag_places(p)(k) || stamp_places(p)(k) || name_places(p)(k)
            || !spared(raw, p, opts, k)
}

/// The file before the dead bytes are removed.
#[verifier::opaque]
spec fn edited(raw: Seq<u8>, p: PeV, opts: CleanOptions) -> Edited {
    match clean::iat_set(clean::directories_mended(raw, p), p) {
        Err(m) => Err(m),
        Ok((d, dir)) => match clean::thunks_unbound(d, p, opts) {
            Err(m) => Err(m),
            Ok((d, t)) => clean::headers_edited(d, p, opts),
        },
    }
}

proof fn headers_edit_keeps(d: Seq<u8>, p: PeV, opts: CleanOptions, table: int)
    requires
        in_a_row(p, table),
        0 <= table,
        table + pe::SECTION_HEADER * p.sections.len() <= d.len(),
        p.coff + 8 <= table,
    ensures
        clean::headers_edited(d, p, opts) matches Ok(e) ==> {
            &&& same_but(
                d,
                e,
                |k: int| flag_places(p)(k) || stamp_places(p)(k) || name_places(p)(k),
            )
            &&& forall|i: int|
                #![trigger p.sections[i]]
                0 <= i < p.sections.len() ==> e.subrange(
                    p.sections[i].hdr as int,
                    p.sections[i].hdr + 8,
                ) == renamed_bytes(
                    d.subrange(p.sections[i].hdr as int, p.sections[i].hdr + 8),
                    p.sections[i].name,
                )
        },
{
    quieting_keeps(d, p, 3);
    if let Ok(e) = clean::headers_edited(d, p, opts) {
        let a = clean::quieted(d, p, 3)->Ok_0;
        stamping_keeps(a, p);
        let b = if opts.zero_timestamp {
            clean::stored(Ok(a), p.coff + 4, 0)->Ok_0
        } else {
            a
        };
        renaming_keeps(b, p, table, p.sections.len() as int);
        assert forall|i: int|
            #![trigger p.sections[i]]
            0 <= i < p.sections.len() implies e.subrange(
            p.sections[i].hdr as int,
            p.sections[i].hdr + 8,
        ) == renamed_bytes(
            d.subrange(p.sections[i].hdr as int, p.sections[i].hdr + 8),
            p.sections[i].name,
        ) by {
            let h = p.sections[i].hdr as int;
            assert(p.sections[i].hdr == table + pe::SECTION_HEADER * i);
            assert forall|k: int| h <= k < h + 8 implies d[k] == #[trigger] b[k] by {
                assert(!flag_places(p)(k)) by {
                    assert forall|j: int| 0 <= j < p.sections.len() implies !((
                    #[trigger] p.sections[j]).hdr + 36 <= k < p.sections[j].hdr + 40) by {
                        assert(p.sections[j].hdr == table + pe::SECTION_HEADER * j);
                    }
                }
                assert(d[k] == a[k]);
            }
            assert(b.subrange(h, h + 8) =~= d.subrange(h, h + 8));
        }
    }
}

/// The file before the section headers are edited.
spec fn unbound_file(raw: Seq<u8>, p: PeV, opts: CleanOptions) -> Seq<u8> {
    match clean::thunks_unbound(prepared(raw, p), p, opts) {
        Ok((d, t)) => d,
        Err(_) => raw,
    }
}

proof fn front_keeps(raw: Seq<u8>, p: PeV, opts: CleanOptions)
    requires
        edited(raw, p, opts) is Ok,
    ensures
        same_but(
            raw,
            unbound_file(raw, p, opts),
            |k: int| directory_places(p)(k) || !spared(raw, p, opts, k),
        ),
        edited(raw, p, opts) == clean::headers_edited(unbound_file(raw, p, opts), p, opts),
{
    reveal(spared);
    reveal(edited);
    directories_keep(raw, p);
    let d1 = clean::directories_mended(raw, p)->Ok_0;
    iat_keeps(d1, p);
    let d2 = prepared(raw, p);
    thunks_keep_length(d2, p, opts);
    let d3 = unbound_file(raw, p, opts);
    assert forall|k: int|
        #![trigger d3[k]]
        0 <= k < raw.len() && !(directory_places(p)(k) || !spared(raw, p, opts, k)) implies raw[k]
        == d3[k] by {
        assert(raw[k] == d1[k]);
        assert(d1[k] == d2[k]);
    }
}

proof fn edits_keep(raw: Seq<u8>, p: PeV, opts: CleanOptions)
    requires
        pe::headers(raw) == Ok::<PeV, Seq<char>>(p),
        tidy(raw, p),
        edited(raw, p, opts) is Ok,
    ensures
        same_but(raw, edited(raw, p, opts)->Ok_0, early_places(raw, p, opts)),
{
    headers_are(raw);
    front_keeps(raw, p, opts);
    let d3 = unbound_file(raw, p, opts);
    headers_edit_keeps(d3, p, opts, table_at(raw, p));
    let e = edited(raw, p, opts)->Ok_0;
    assert forall|k: int| #![trigger e[k]] 0 <= k < raw.len() && !early_places(raw, p, opts)(k) implies raw[k]
        == e[k] by {
        assert(raw[k] == d3[k]);
    }
}

proof fn inside_a_header(p: PeV, table: int, i: int, k: int)
    requires
        in_a_row(p, table),
        0 <= i < p.sections.len(),
        p.sections[i].hdr + 8 <= k < p.sections[i].hdr + 36,
    ensures
        !flag_places(p)(k),
        !name_places(p)(k),
        !(p.sections[i].hdr + 16 <= k < p.sections[i].hdr + 24) ==> !file_places(p)(k),
{
    assert(p.sections[i].hdr == table + pe::SECTION_HEADER * i);
    assert forall|j: int| 0 <= j < p.sections.len() && j != i implies !((#[trigger] p.sections[j]).hdr
        <= k < p.sections[j].hdr + 40) by {
        assert(p.sections[j].hdr == table + pe::SECTION_HEADER * j);
        if j < i {
            assert(40 * j + 40 <= 40 * i);
        } else {
            assert(40 * i + 40 <= 40 * j);
        }
    }
}

proof fn header_byte_keeps(raw: Seq<u8>, p: PeV, opts: CleanOptions, i: int, k: int)
    requires
        pe::headers(raw) == Ok::<PeV, Seq<char>>(p),
        tidy(raw, p),
        spared(raw, p, opts, k),
        edited(raw, p, opts) is Ok,
        0 <= i < p.sections.len(),
        p.sections[i].hdr + 8 <= k < p.sections[i].hdr + 36,
    ensures
        raw[k] == edited(raw, p, opts)->Ok_0[k],
{
    headers_are(raw);
    edits_keep(raw, p, opts);
    let e = edited(raw, p, opts)->Ok_0;
    let table = table_at(raw, p);
    let h = p.sections[i].hdr as int;
    inside_a_header(p, table, i, k);
    assert(p.sections[i].hdr == table + pe::SECTION_HEADER * i);
    assert(!directory_places(p)(k));
    assert(!stamp_places(p)(k));
}

proof fn section_name_edits(raw: Seq<u8>, p: PeV, opts: CleanOptions, i: int)
    requires
        pe::headers(raw) == Ok::<PeV, Seq<char>>(p),
        tidy(raw, p),
        forall|k: int| 0 <= k < headers_end(raw, p) ==> #[trigger] spared(raw, p, opts, k),
        edited(raw, p, opts) is Ok,
        0 <= i < p.sections.len(),
    ensures
        ({
            let e = edited(raw, p, opts)->Ok_0;
            let h = p.sections[i].hdr as int;
            e.subrange(h, h + 8) == renamed_bytes(raw.subrange(h, h + 8), p.sections[i].name)
        }),
{
    headers_are(raw);
    front_keeps(raw, p, opts);
    let table = table_at(raw, p);
    let d3 = unbound_file(raw, p, opts);
    headers_edit_keeps(d3, p, opts, table);
    let h = p.sections[i].hdr as int;
    assert(p.sections[i].hdr == table + pe::SECTION_HEADER * i);
    assert(h + 40 <= headers_end(raw, p));
    assert forall|k: int| h <= k < h + 8 implies raw[k] == #[trigger] d3[k] by {
        assert(spared(raw, p, opts, k));
        assert(!directory_places(p)(k));
    }
    assert(d3.subrange(h, h + 8) =~= raw.subrange(h, h + 8));
}

proof fn section_edits(raw: Seq<u8>, p: PeV, opts: CleanOptions, i: int)
    requires
        pe::headers(raw) == Ok::<PeV, Seq<char>>(p),
        tidy(raw, p),
        forall|k: int| 0 <= k < headers_end(raw, p) ==> #[trigger] spared(raw, p, opts, k),
        edited(raw, p, opts) is Ok,
        0 <= i < p.sections.len(),
    ensures
        ({
            let e = edited(raw, p, opts)->Ok_0;
            let h = p.sections[i].hdr as int;
            &&& says(e, p, i, (p.sections[i].rs, p.sections[i].ro))
            &&& le::le32(e, h + 8) == p.sections[i].vs
            &&& le::le32(e, h + 12) == p.sections[i].va
        }),
{
    headers_are(raw);
    let e = edited(raw, p, opts)->Ok_0;
    let h = p.sections[i].hdr as int;
    assert(p.sections[i].hdr == table_at(raw, p) + pe::SECTION_HEADER * i);
    assert forall|k: int| h + 8 <= k < h + 36 implies raw[k] == #[trigger] e[k] by {
        assert(spared(raw, p, opts, k));
        header_byte_keeps(raw, p, opts, i, k);
    }
    assert(p.sections[i] == pe::section_at(raw, h));
}

/// The headers of a file lie apart from each other and from what cleaning does elsewhere: they do not
/// overlap, unbinding leaves them as they are, and the dead bytes lie behind them.
pub open spec fn orderly(raw: Seq<u8>, p: PeV, opts: CleanOptions) -> bool {
    &&& pe::headers(raw) == Ok::<PeV, Seq<char>>(p)
    &&& tidy(raw, p)
    &&& forall|k: int| 0 <= k < headers_end(raw, p) ==> #[trigger] spared(raw, p, opts, k)
    &&& clean::strips(p) ==> headers_end(raw, p) <= clean::dead_start(p)
}

/// The edits succeed.
#[verifier::opaque]
spec fn succeeds(raw: Seq<u8>, p: PeV, opts: CleanOptions) -> bool {
    clean::with_edits(raw, p, opts) is Ok
}

/// The file that the edits give.
#[verifier::opaque]
spec fn output(raw: Seq<u8>, p: PeV, opts: CleanOptions) -> Seq<u8> {
    match clean::with_edits(raw, p, opts) {
        Ok((out, summary)) => out,
        Err(_) => raw,
    }
}

/// The file without the dead bytes, before the section headers say so.
spec fn cut_file(raw: Seq<u8>, p: PeV, opts: CleanOptions) -> Seq<u8> {
    let e = edited(raw, p, opts)->Ok_0;
    if clean::strips(p) {
        e.take(clean::dead_start(p)) + e.skip(clean::dead_end(p))
    } else {
        e
    }
}

/// The least offset is one.
pub proof fn low_is_an_offset(s: Seq<SecV>, n: int)
    requires
        1 <= n,
    ensures
        clean::low(s, n) >= 0,
    decreases n,
{
    if n > 1 {
        low_is_an_offset(s, n - 1);
    }
}

proof fn output_is(raw: Seq<u8>, p: PeV, opts: CleanOptions)
    requires
        orderly(raw, p, opts),
        succeeds(raw, p, opts),
    ensures
        edited(raw, p, opts) is Ok,
        edited(raw, p, opts)->Ok_0.len() == raw.len(),
        clean::strips(p) ==> clean::dead_start(p) >= 0 && clean::dead_end(p) <= raw.len(),
        clean::strips(p) ==> clean::moved(
            cut_file(raw, p, opts),
            p,
            clean::dead_end(p),
            clean::dead_end(p) - clean::dead_start(p),
            p.sections.len() as int,
        ) == Ok::<Seq<u8>, Seq<char>>(output(raw, p, opts)),
        !clean::strips(p) ==> output(raw, p, opts) == cut_file(raw, p, opts),
        clean::strips(p) ==> clean::kept_in(p, clean::dead_start(p), clean::dead_end(p), 0) is None,
        headers_end(raw, p) <= cut_file(raw, p, opts).len(),
{
    reveal(succeeds);
    reveal(output);
    reveal(edited);
    edits_keep(raw, p, opts);
    if clean::strips(p) {
        low_is_an_offset(clean::dead(p), clean::dead(p).len() as int);
    }
}

proof fn cut_file_headers(raw: Seq<u8>, p: PeV, opts: CleanOptions)
    requires
        orderly(raw, p, opts),
        succeeds(raw, p, opts),
    ensures
        ({
            let base = cut_file(raw, p, opts);
            let e = edited(raw, p, opts)->Ok_0;
            &&& forall|k: int| #![trigger base[k]] 0 <= k < headers_end(raw, p) ==> base[k] == e[k]
            &&& forall|i: int|
                0 <= i < p.sections.len() ==> #[trigger] says(
                    base,
                    p,
                    i,
                    (p.sections[i].rs, p.sections[i].ro),
                )
        }),
{
    headers_are(raw);
    output_is(raw, p, opts);
    let base = cut_file(raw, p, opts);
    let e = edited(raw, p, opts)->Ok_0;
    assert forall|k: int| #![trigger base[k]] 0 <= k < headers_end(raw, p) implies base[k] == e[k] by {}
    assert forall|i: int| 0 <= i < p.sections.len() implies #[trigger] says(
        base,
        p,
        i,
        (p.sections[i].rs, p.sections[i].ro),
    ) by {
        section_edits(raw, p, opts, i);
        let h = p.sections[i].hdr as int;
        assert(p.sections[i].hdr == table_at(raw, p) + pe::SECTION_HEADER * i);
        assert(h + 40 <= headers_end(raw, p));
    }
}

proof fn output_header_bytes(raw: Seq<u8>, p: PeV, opts: CleanOptions)
    requires
        orderly(raw, p, opts),
        succeeds(raw, p, opts),
    ensures
        ({
            let out = output(raw, p, opts);
            let e = edited(raw, p, opts)->Ok_0;
            &&& headers_end(raw, p) <= out.len()
            &&& out.len() == cut_file(raw, p, opts).len()
            &&& forall|k: int|
                #![trigger out[k]]
                0 <= k < headers_end(raw, p) && !file_places(p)(k) ==> out[k] == e[k]
            &&& forall|k: int|
                #![trigger out[k]]
                0 <= k < out.len() && !file_places(p)(k) ==> out[k] == cut_file(raw, p, opts)[k]
            &&& forall|i: int|
                #![trigger p.sections[i]]
                0 <= i < p.sections.len() ==> says(
                    out,
                    p,
                    i,
                    (
                        clean::cleaned_section(p, p.sections[i]).rs,
                        clean::cleaned_section(p, p.sections[i]).ro,
                    ),
                )
        }),
{
    headers_are(raw);
    output_is(raw, p, opts);
    cut_file_headers(raw, p, opts);
    let base = cut_file(raw, p, opts);
    let out = output(raw, p, opts);
    if clean::strips(p) {
        moving_keeps(
            base,
            p,
            table_at(raw, p),
            clean::dead_end(p),
            clean::dead_end(p) - clean::dead_start(p),
            p.sections.len() as int,
        );
    } else {
        assert forall|i: int|
            #![trigger p.sections[i]]
            0 <= i < p.sections.len() implies says(
            out,
            p,
            i,
            (clean::cleaned_section(p, p.sections[i]).rs, clean::cleaned_section(p, p.sections[i]).ro),
        ) by {
            assert(says(base, p, i, (p.sections[i].rs, p.sections[i].ro)));
        }
    }
}

proof fn output_section(raw: Seq<u8>, p: PeV, opts: CleanOptions, i: int)
    requires
        orderly(raw, p, opts),
        succeeds(raw, p, opts),
        0 <= i < p.sections.len(),
    ensures
        pe::section_at(output(raw, p, opts), p.sections[i].hdr as int) == clean::cleaned_section(
            p,
            p.sections[i],
        ),
{
    headers_are(raw);
    output_is(raw, p, opts);
    output_header_bytes(raw, p, opts);
    section_edits(raw, p, opts, i);
    section_name_edits(raw, p, opts, i);
    let table = table_at(raw, p);
    let out = output(raw, p, opts);
    let e = edited(raw, p, opts)->Ok_0;
    let s = p.sections[i];
    let h = s.hdr as int;
    assert(p.sections[i].hdr == table + pe::SECTION_HEADER * i);
    assert(h + 40 <= headers_end(raw, p));
    assert forall|k: int| h <= k < h + 16 implies out[k] == #[trigger] e[k] by {
        outside_the_fields(p, table, i, k);
        assert(out[k] == e[k]);
    }
    assert(out.subrange(h, h + 8) =~= e.subrange(h, h + 8));
    assert(s == pe::section_at(raw, h));
    assert(s.name == pe::name_of(raw.subrange(h, h + 8)));
    assert(says(out, p, i, (clean::cleaned_section(p, s).rs, clean::cleaned_section(p, s).ro)));
}

proof fn outside_the_fields(p: PeV, table: int, i: int, k: int)
    requires
        in_a_row(p, table),
        0 <= i < p.sections.len(),
        p.sections[i].hdr <= k < p.sections[i].hdr + 16,
    ensures
        !file_places(p)(k),
{
    assert(p.sections[i].hdr == table + pe::SECTION_HEADER * i);
    assert forall|j: int| 0 <= j < p.sections.len() implies !((#[trigger] p.sections[j]).hdr + 16 <= k
        < p.sections[j].hdr + 24) by {
        assert(p.sections[j].hdr == table + pe::SECTION_HEADER * j);
        if j < i {
            assert(40 * j + 40 <= 40 * i);
        } else if j > i {
            assert(40 * i + 40 <= 40 * j);
        }
    }
}

proof fn headers_after(raw: Seq<u8>, p: PeV, opts: CleanOptions)
    requires
        orderly(raw, p, opts),
        succeeds(raw, p, opts),
    ensures
        pe::headers(output(raw, p, opts)) == Ok::<PeV, Seq<char>>(clean::cleaned_headers(p)),
{
    headers_are(raw);
    output_is(raw, p, opts);
    edits_keep(raw, p, opts);
    output_header_bytes(raw, p, opts);
    let out = output(raw, p, opts);
    let e = edited(raw, p, opts)->Ok_0;
    assert forall|k: int|
        #![trigger out[k]]
        0 <= k < headers_end(raw, p) && !edit_places(p)(k) implies raw[k] == out[k] by {
        assert(spared(raw, p, opts, k));
        assert(raw[k] == e[k]);
    }
    same_headers_read_the_same(raw, out, p);
    let got = pe::sections_at(out, table_at(raw, p), p.sections.len());
    assert forall|i: int| 0 <= i < p.sections.len() implies got[i] == #[trigger] clean::cleaned_headers(
        p,
    ).sections[i] by {
        output_section(raw, p, opts, i);
        assert(p.sections[i].hdr == table_at(raw, p) + pe::SECTION_HEADER * i);
    }
    assert(got =~= clean::cleaned_headers(p).sections);
}

proof fn output_of(raw: Seq<u8>, p: PeV, opts: CleanOptions)
    ensures
        match clean::with_edits(raw, p, opts) {
            Ok((out, summary)) => succeeds(raw, p, opts) && output(raw, p, opts) == out,
            Err(_) => !succeeds(raw, p, opts),
        },
{
    reveal(succeeds);
    reveal(output);
}

/// No address moves: a cleaned file reads as the same headers, with the same entry point, the same image
/// base and every section at its address and of its size in memory. Only the names of the packer's
/// sections change, and what the headers say is in the file.
pub proof fn addresses_never_move(raw: Seq<u8>, p: PeV, opts: CleanOptions)
    requires
        pe::headers(raw) == Ok::<PeV, Seq<char>>(p),
    ensures
        clean::cleaned(raw, opts) matches Ok((out, summary)) ==> {
            &&& pe::headers(out) == Ok::<PeV, Seq<char>>(clean::cleaned_headers(p))
            &&& clean::cleaned_headers(p).aep == p.aep
            &&& clean::cleaned_headers(p).image_base == p.image_base
            &&& clean::cleaned_headers(p).sections.len() == p.sections.len()
            &&& forall|i: int|
                0 <= i < p.sections.len() ==> (#[trigger] clean::cleaned_headers(p).sections[i]).va
                    == p.sections[i].va && clean::cleaned_headers(p).sections[i].vs
                    == p.sections[i].vs
        },
{
}

/// A section that shares bytes with the dead ones would have been found.
pub proof fn kept_is_apart(p: PeV, lo: int, hi: int, i: int, j: int)
    requires
        0 <= j <= i < p.sections.len(),
        clean::kept_in(p, lo, hi, j) is None,
    ensures
        !clean::overlaps(p, p.sections[i], lo, hi),
    decreases i - j,
{
    if j < i {
        kept_is_apart(p, lo, hi, i, j + 1);
    }
}

proof fn behind_the_headers(raw: Seq<u8>, p: PeV, k: int)
    requires
        pe::headers(raw) == Ok::<PeV, Seq<char>>(p),
        tidy(raw, p),
        headers_end(raw, p) <= k,
    ensures
        !edit_places(p)(k),
        !file_places(p)(k),
{
    headers_are(raw);
    assert forall|j: int| 0 <= j < p.sections.len() implies (#[trigger] p.sections[j]).hdr + 40 <= k by {
        assert(p.sections[j].hdr == table_at(raw, p) + pe::SECTION_HEADER * j);
        assert(40 * j + 40 <= 40 * p.sections.len());
    }
}

/// Whether the bytes of a section are kept: it has some in the file behind the headers, unbinding changes
/// none of them, and they are not dead.
pub open spec fn lasting(raw: Seq<u8>, p: PeV, opts: CleanOptions, s: SecV) -> bool {
    &&& s.rs > 0
    &&& headers_end(raw, p) <= s.ro
    &&& s.ro + s.rs <= raw.len()
    &&& clean::strips(p) ==> !clean::among(clean::dead(p), s)
    &&& forall|k: int| s.ro <= k < s.ro + s.rs ==> #[trigger] spared(raw, p, opts, k)
}

proof fn kept_place(raw: Seq<u8>, p: PeV, opts: CleanOptions, i: int)
    requires
        orderly(raw, p, opts),
        0 <= i < p.sections.len(),
        lasting(raw, p, opts, p.sections[i]),
        succeeds(raw, p, opts),
    ensures
        ({
            let s = p.sections[i];
            let c = clean::cleaned_section(p, s);
            let base = cut_file(raw, p, opts);
            let gap = clean::dead_end(p) - clean::dead_start(p);
            &&& c.rs == s.rs
            &&& c.ro + c.rs <= base.len()
            &&& !clean::strips(p) ==> c.ro == s.ro
            &&& clean::strips(p) ==> (s.ro + s.rs <= clean::dead_start(p) && c.ro == s.ro) || (s.ro
                >= clean::dead_end(p) && c.ro == s.ro - gap)
        }),
{
    output_is(raw, p, opts);
    if clean::strips(p) {
        kept_is_apart(p, clean::dead_start(p), clean::dead_end(p), i, 0);
    }
}

proof fn output_byte(raw: Seq<u8>, p: PeV, opts: CleanOptions, k: int)
    requires
        orderly(raw, p, opts),
        succeeds(raw, p, opts),
        headers_end(raw, p) <= k < cut_file(raw, p, opts).len(),
    ensures
        k < output(raw, p, opts).len(),
        output(raw, p, opts)[k] == cut_file(raw, p, opts)[k],
{
    output_header_bytes(raw, p, opts);
    behind_the_headers(raw, p, k);
}

proof fn edited_byte(raw: Seq<u8>, p: PeV, opts: CleanOptions, k: int)
    requires
        orderly(raw, p, opts),
        edited(raw, p, opts) is Ok,
        headers_end(raw, p) <= k < raw.len(),
        spared(raw, p, opts, k),
    ensures
        edited(raw, p, opts)->Ok_0[k] == raw[k],
{
    edits_keep(raw, p, opts);
    behind_the_headers(raw, p, k);
    assert(!early_places(raw, p, opts)(k));
}

proof fn cut_byte(raw: Seq<u8>, p: PeV, opts: CleanOptions, k: int, at: int)
    requires
        orderly(raw, p, opts),
        succeeds(raw, p, opts),
        headers_end(raw, p) <= k < raw.len(),
        !clean::strips(p) ==> at == k,
        clean::strips(p) ==> (k < clean::dead_start(p) && at == k) || (k >= clean::dead_end(p) && at
            == k - (clean::dead_end(p) - clean::dead_start(p))),
    ensures
        headers_end(raw, p) <= at < cut_file(raw, p, opts).len(),
        cut_file(raw, p, opts)[at] == edited(raw, p, opts)->Ok_0[k],
        edited(raw, p, opts) is Ok,
{
    output_is(raw, p, opts);
}

proof fn kept_byte(raw: Seq<u8>, p: PeV, opts: CleanOptions, i: int, k: int)
    requires
        orderly(raw, p, opts),
        0 <= i < p.sections.len(),
        lasting(raw, p, opts, p.sections[i]),
        succeeds(raw, p, opts),
        p.sections[i].ro <= k < p.sections[i].ro + p.sections[i].rs,
    ensures
        ({
            let s = p.sections[i];
            let c = clean::cleaned_section(p, s);
            raw[k] == output(raw, p, opts)[k - s.ro + c.ro]
        }),
{
    let s = p.sections[i];
    let at = k - s.ro + clean::cleaned_section(p, s).ro;
    assert(spared(raw, p, opts, k));
    kept_place(raw, p, opts, i);
    cut_byte(raw, p, opts, k, at);
    edited_byte(raw, p, opts, k);
    output_byte(raw, p, opts, at);
}

proof fn output_len(raw: Seq<u8>, p: PeV, opts: CleanOptions)
    requires
        orderly(raw, p, opts),
        succeeds(raw, p, opts),
    ensures
        output(raw, p, opts).len() == cut_file(raw, p, opts).len(),
{
    output_header_bytes(raw, p, opts);
}

proof fn section_after(raw: Seq<u8>, p: PeV, opts: CleanOptions, i: int)
    requires
        orderly(raw, p, opts),
        0 <= i < p.sections.len(),
        lasting(raw, p, opts, p.sections[i]),
        succeeds(raw, p, opts),
    ensures
        ({
            let s = p.sections[i];
            let c = clean::cleaned_section(p, s);
            let out = output(raw, p, opts);
            &&& c.rs == s.rs
            &&& c.ro + c.rs <= out.len()
            &&& out.subrange(c.ro as int, c.ro + c.rs) == raw.subrange(s.ro as int, s.ro + s.rs)
        }),
{
    kept_place(raw, p, opts, i);
    output_len(raw, p, opts);
    let out = output(raw, p, opts);
    let s = p.sections[i];
    let c = clean::cleaned_section(p, s);
    let x = out.subrange(c.ro as int, c.ro + c.rs);
    let y = raw.subrange(s.ro as int, s.ro + s.rs);
    assert forall|k: int| 0 <= k < s.rs implies #[trigger] x[k] == y[k] by {
        kept_byte(raw, p, opts, i, s.ro + k);
    }
    assert(x =~= y);
}

/// What a section that lasts holds in the file is the same after cleaning, at the offset that its header
/// then gives.
pub proof fn lasting_sections_keep_their_bytes(raw: Seq<u8>, p: PeV, opts: CleanOptions, i: int)
    requires
        orderly(raw, p, opts),
        0 <= i < p.sections.len(),
        lasting(raw, p, opts, p.sections[i]),
    ensures
        clean::cleaned(raw, opts) matches Ok((out, summary)) ==> {
            let s = p.sections[i];
            let c = clean::cleaned_section(p, s);
            &&& c.rs == s.rs
            &&& c.ro + c.rs <= out.len()
            &&& out.subrange(c.ro as int, c.ro + c.rs) == raw.subrange(s.ro as int, s.ro + s.rs)
        },
{
    output_of(raw, p, opts);
    if clean::cleaned(raw, opts) is Ok {
        section_after(raw, p, opts, i);
    }
}

pub(crate) proof fn reserved_names()
    ensures
        pe::name_of(seq![0x2Eu8, 0x72, 0x73, 0x72, 0x76, 0x30, 0, 0]) == ".rsrv0"@,
        pe::name_of(seq![0x2Eu8, 0x72, 0x73, 0x72, 0x76, 0x31, 0, 0]) == ".rsrv1"@,
{
    reveal_strlit(".rsrv0");
    reveal_strlit(".rsrv1");
    let a = seq![0x2Eu8, 0x72, 0x73, 0x72, 0x76, 0x30, 0, 0];
    let b = seq![0x2Eu8, 0x72, 0x73, 0x72, 0x76, 0x31, 0, 0];
    six_before_zero(a);
    six_before_zero(b);
    is_ascii_chars_encode_utf8(".rsrv0"@);
    is_ascii_chars_encode_utf8(".rsrv1"@);
    assert(a.take(6) =~= encode_utf8(".rsrv0"@));
    assert(b.take(6) =~= encode_utf8(".rsrv1"@));
    encode_utf8_valid_utf8(".rsrv0"@);
    encode_utf8_valid_utf8(".rsrv1"@);
    encode_utf8_decode_utf8(".rsrv0"@);
    encode_utf8_decode_utf8(".rsrv1"@);
}

proof fn six_before_zero(b: Seq<u8>)
    requires
        b.len() == 8,
        b[0] != 0 && b[1] != 0 && b[2] != 0 && b[3] != 0 && b[4] != 0 && b[5] != 0,
        b[6] == 0,
    ensures
        pe::zero_at(b) == 6,
{
    reveal_with_fuel(pe::zero_at, 8);
}

/// A section that is not the packer's is found under its name before and after.
proof fn found_again(p: PeV, name: Seq<char>, i: int)
    requires
        0 <= i,
        clean::new_name(name) is None,
        name != ".rsrv0"@,
        name != ".rsrv1"@,
    ensures
        pe::named_from(clean::cleaned_headers(p).sections, name, i) == (match pe::named_from(
            p.sections,
            name,
            i,
        ) {
            Some(s) => Some(clean::cleaned_section(p, s)),
            None => None,
        }),
    decreases p.sections.len() - i,
{
    if i < p.sections.len() {
        reserved_names();
        assert(clean::cleaned_headers(p).sections[i] == clean::cleaned_section(p, p.sections[i]));
        found_again(p, name, i + 1);
    }
}

proof fn text_is_not_dead(raw: Seq<u8>, p: PeV)
    requires
        pe::headers(raw) == Ok::<PeV, Seq<char>>(p),
        p.named(".text"@) is Some,
    ensures
        !clean::among(clean::dead(p), p.named(".text"@)->0),
{
    reveal_strlit(".text");
    reveal_strlit(".themida");
    reveal_strlit(".boot");
    headers_are(raw);
    let s = p.named(".text"@)->0;
    clean::found_is_one(p.sections, ".text"@, 0);
    clean::found_is_one(p.sections, ".themida"@, 0);
    clean::found_is_one(p.sections, ".boot"@, 0);
    let gone = clean::dead(p);
    assert(".text"@.len() == 5 && ".themida"@.len() == 8);
    assert(".text"@[1] != ".boot"@[1]);
    assert forall|i: int| 0 <= i < gone.len() implies (#[trigger] gone[i]).hdr != s.hdr by {
        let x = choose|x: int| 0 <= x < p.sections.len() && #[trigger] p.sections[x] == s;
        let y = choose|y: int| 0 <= y < p.sections.len() && #[trigger] p.sections[y] == gone[i];
        assert(s.name == ".text"@);
        assert(gone[i].name == ".themida"@ || gone[i].name == ".boot"@);
        assert(x != y);
        assert(p.sections[x].hdr == table_at(raw, p) + pe::SECTION_HEADER * x);
        assert(p.sections[y].hdr == table_at(raw, p) + pe::SECTION_HEADER * y);
    }
}

proof fn code_span(raw: Seq<u8>, p: PeV, s: SecV, out: Seq<u8>)
    requires
        clean::code_kept(raw, p, out),
        p.named(".text"@) == Some(s),
        !clean::among(clean::dead(p), s),
        s.rs > 0,
        p.front() <= s.ro,
        s.ro + s.rs <= raw.len(),
    ensures
        ({
            let c = clean::cleaned_section(p, s);
            &&& c.rs == s.rs
            &&& c.ro + c.rs <= out.len()
            &&& out.subrange(c.ro as int, c.ro + c.rs) == raw.subrange(s.ro as int, s.ro + s.rs)
        }),
{
    let c = clean::cleaned_section(p, s);
    assert(clean::section_kept(raw, p, s, out));
    assert(clean::byte_kept(raw, p, s, out, s.ro + s.rs - 1));
    let x = out.subrange(c.ro as int, c.ro + c.rs);
    let y = raw.subrange(s.ro as int, s.ro + s.rs);
    assert forall|k: int| 0 <= k < s.rs implies #[trigger] x[k] == y[k] by {
        assert(clean::byte_kept(raw, p, s, out, s.ro + k));
    }
    assert(x =~= y);
}

/// The code section is found after cleaning as before, and is none of those that are removed.
pub proof fn text_found_again(raw: Seq<u8>, p: PeV)
    requires
        pe::headers(raw) == Ok::<PeV, Seq<char>>(p),
    ensures
        clean::cleaned_headers(p).named(".text"@) == (match p.named(".text"@) {
            Some(s) => Some(clean::cleaned_section(p, s)),
            None => None,
        }),
        p.named(".text"@) matches Some(s) ==> !clean::among(clean::dead(p), s) && exists|i: int|
            0 <= i < p.sections.len() && #[trigger] p.sections[i] == s,
{
    reveal_strlit(".text");
    reveal_strlit(".rsrv0");
    reveal_strlit(".rsrv1");
    reveal_strlit(".themida");
    reveal_strlit(".boot");
    assert(".text"@[1] != ".rsrv0"@[1]);
    assert(".text"@[1] != ".rsrv1"@[1]);
    assert(".text"@.len() == 5 && ".themida"@.len() == 8);
    assert(".text"@[1] != ".boot"@[1]);
    if p.named(".text"@) is Some {
        text_is_not_dead(raw, p);
        clean::found_is_one(p.sections, ".text"@, 0);
    }
    found_again(p, ".text"@, 0);
}

/// Code bytes are never modified, whatever the options: where `.text` has bytes in the file behind the
/// headers, the cleaned file has a `.text` of the same address and size with the same bytes, and passes
/// the identity gate against the dump it was made from.
pub proof fn code_bytes_never_change(raw: Seq<u8>, p: PeV, opts: CleanOptions, label: Seq<char>)
    requires
        pe::headers(raw) == Ok::<PeV, Seq<char>>(p),
        p.named(".text"@) matches Some(s) && s.rs > 0 && p.front() <= s.ro && s.ro + s.rs
            <= raw.len(),
    ensures
        clean::cleaned(raw, opts) matches Ok((out, summary)) ==> {
            let s = p.named(".text"@)->0;
            &&& pe::headers(out) matches Ok(q) && q.named(".text"@) matches Some(c) && c.va == s.va
                && c.vs == s.vs && c.rs == s.rs && c.ro + c.rs <= out.len() && out.subrange(
                c.ro as int,
                c.ro + c.rs,
            ) == raw.subrange(s.ro as int, s.ro + s.rs)
            &&& verify::verified(out, Some((raw, label))) matches Ok(r) && r.text_identity == Some(
                true,
            )
        },
{
    if let Ok((out, summary)) = clean::cleaned(raw, opts) {
        text_found_again(raw, p);
        code_span(raw, p, p.named(".text"@)->0, out);
    }
}

proof fn stored_again(d: Seq<u8>, o: int, v: u32)
    requires
        0 <= o,
        o + 4 <= d.len(),
        le::le32(d, o) == v,
    ensures
        clean::stored(Ok(d), o, v) == Ok::<Seq<u8>, Seq<char>>(d),
{
    let b = le::le32_bytes(v);
    le::le32_round_trip(v);
    assert(le::le32(b, 0) == le::le32(d, o));
    assert(b[0] == d[o] && b[1] == d[o + 1] && b[2] == d[o + 2] && b[3] == d[o + 3]) by {
        same_digits(b[0], b[1], b[2], b[3], d[o], d[o + 1], d[o + 2], d[o + 3]);
    }
    let n = pe::put(d, o, b)->0;
    put_keeps(d, o, b);
    assert forall|k: int| 0 <= k < d.len() implies n[k] == d[k] by {
        if o <= k < o + 4 {
            assert(n.subrange(o, o + 4)[k - o] == b[k - o]);
        }
    }
    assert(n =~= d);
}

proof fn same_low_digit(a: u8, b: int, w: u8, x: int)
    requires
        a + 256 * b == w + 256 * x,
    ensures
        a == w && b == x,
{
}

/// Four digits make up only one number.
pub proof fn same_digits(a: u8, b: u8, c: u8, d: u8, w: u8, x: u8, y: u8, z: u8)
    requires
        a + 256 * b + 65536 * c + 16777216 * d == w + 256 * x + 65536 * y + 16777216 * z,
    ensures
        a == w && b == x && c == y && d == z,
{
    same_low_digit(a, b + 256 * (c + 256 * d), w, x + 256 * (y + 256 * z));
    same_low_digit(b, c + 256 * d, x, y + 256 * z);
    same_low_digit(c, d as int, y, z as int);
}

/// The directories of the prepared file say what they were set to.
proof fn directories_say(raw: Seq<u8>, p: PeV)
    requires
        clean::iat_set(clean::directories_mended(raw, p), p) is Ok,
    ensures
        ({
            let d = prepared(raw, p);
            let dir = clean::iat_set(clean::directories_mended(raw, p), p)->Ok_0.1;
            &&& p.dd + 40 <= d.len()
            &&& p.named(".pdata"@) matches Some(s) ==> le::le32(d, p.dd + 24) == s.va && le::le32(
                d,
                p.dd + 28,
            ) == s.vs
            &&& le::le32(d, p.dd + 32) == 0
            &&& le::le32(d, p.dd + 36) == 0
            &&& dir matches Some((rva, size)) ==> p.dd + 104 <= d.len() && le::le32(d, p.dd + 96)
                == rva && le::le32(d, p.dd + 100) == size && rva != 0
        }),
{
    let start = match p.named(".pdata"@) {
        Some(s) => {
            stored_keeps(raw, p.dd + 24, s.va);
            let x = clean::stored(Ok(raw), p.dd + 24, s.va)->Ok_0;
            stored_keeps(x, p.dd + 28, s.vs);
            clean::stored(Ok(x), p.dd + 28, s.vs)->Ok_0
        },
        None => raw,
    };
    stored_keeps(start, p.dd + 32, 0);
    let y = clean::stored(Ok(start), p.dd + 32, 0)->Ok_0;
    stored_keeps(y, p.dd + 36, 0);
    let z = clean::stored(Ok(y), p.dd + 36, 0)->Ok_0;
    assert(clean::directories_mended(raw, p) == Ok::<Seq<u8>, Seq<char>>(z));
    if let Ok((rva, size)) = imports::iat_of(z, p) {
        if rva != 0 {
            stored_keeps(z, p.dd + 96, rva);
            let v = clean::stored(Ok(z), p.dd + 96, rva)->Ok_0;
            stored_keeps(v, p.dd + 100, size);
        }
    }
}

/// A byte before the section table is that of the prepared file, but for the timestamp.
proof fn early_byte(raw: Seq<u8>, p: PeV, opts: CleanOptions, k: int)
    requires
        orderly(raw, p, opts),
        succeeds(raw, p, opts),
        0 <= k < table_at(raw, p),
        !stamp_places(p)(k),
    ensures
        output(raw, p, opts)[k] == prepared(raw, p)[k],
        output(raw, p, opts).len() >= headers_end(raw, p),
{
    headers_are(raw);
    output_is(raw, p, opts);
    output_header_bytes(raw, p, opts);
    front_keeps(raw, p, opts);
    assert(k < headers_end(raw, p));
    assert(spared(raw, p, opts, k));
    let d2 = prepared(raw, p);
    let d3 = unbound_file(raw, p, opts);
    thunks_keep_length(d2, p, opts);
    headers_edit_keeps(d3, p, opts, table_at(raw, p));
    assert forall|i: int| 0 <= i < p.sections.len() implies k < (#[trigger] p.sections[i]).hdr by {
        assert(p.sections[i].hdr == table_at(raw, p) + pe::SECTION_HEADER * i);
    }
    assert(!flag_places(p)(k) && !name_places(p)(k) && !file_places(p)(k));
    assert(d2[k] == d3[k]) by {
        reveal(spared);
        reveal(edited);
    }
    let e = edited(raw, p, opts)->Ok_0;
    assert(d3[k] == e[k]);
    assert(output(raw, p, opts)[k] == e[k]);
}

proof fn early_word(raw: Seq<u8>, p: PeV, opts: CleanOptions, o: int)
    requires
        orderly(raw, p, opts),
        succeeds(raw, p, opts),
        p.coff + 8 <= o,
        o + 4 <= table_at(raw, p),
    ensures
        le::le32(output(raw, p, opts), o) == le::le32(prepared(raw, p), o),
        o + 4 <= output(raw, p, opts).len(),
{
    early_byte(raw, p, opts, o);
    early_byte(raw, p, opts, o + 1);
    early_byte(raw, p, opts, o + 2);
    early_byte(raw, p, opts, o + 3);
}

/// The file with quiet residue.
spec fn quiet_file(raw: Seq<u8>, p: PeV, opts: CleanOptions) -> Seq<u8> {
    clean::quieted(unbound_file(raw, p, opts), p, 3)->Ok_0
}

/// The file before the sections are renamed.
spec fn stamped_file(raw: Seq<u8>, p: PeV, opts: CleanOptions) -> Seq<u8> {
    let a = quiet_file(raw, p, opts);
    if opts.zero_timestamp {
        clean::stored(Ok(a), p.coff + 4, 0)->Ok_0
    } else {
        a
    }
}

proof fn edit_steps(d: Seq<u8>, p: PeV, opts: CleanOptions)
    requires
        clean::headers_edited(d, p, opts) is Ok,
    ensures
        ({
            let a = clean::quieted(d, p, 3)->Ok_0;
            let b = if opts.zero_timestamp {
                clean::stored(Ok(a), p.coff + 4, 0)->Ok_0
            } else {
                a
            };
            &&& clean::quieted(d, p, 3) is Ok
            &&& opts.zero_timestamp ==> clean::stored(Ok(a), p.coff + 4, 0) is Ok
            &&& clean::renamed(b, p, p.sections.len() as int) == clean::headers_edited(d, p, opts)
            &&& a.len() == d.len()
            &&& b.len() == d.len()
        }),
{
    assert(clean::residue().len() == 3);
    quieting_keeps(d, p, 3);
    let quiet = clean::quieted(d, p, 3);
    if quiet is Err {
        assert(clean::stored(quiet, p.coff + 4, 0) is Err);
    }
    stored_keeps(quiet->Ok_0, p.coff + 4, 0);
}

proof fn late_steps(raw: Seq<u8>, p: PeV, opts: CleanOptions)
    requires
        orderly(raw, p, opts),
        succeeds(raw, p, opts),
    ensures
        clean::quieted(unbound_file(raw, p, opts), p, 3) is Ok,
        opts.zero_timestamp ==> clean::stored(Ok(quiet_file(raw, p, opts)), p.coff + 4, 0) is Ok,
        clean::renamed(stamped_file(raw, p, opts), p, p.sections.len() as int) == edited(
            raw,
            p,
            opts,
        ),
        edited(raw, p, opts) is Ok,
        quiet_file(raw, p, opts).len() == raw.len(),
        stamped_file(raw, p, opts).len() == raw.len(),
{
    output_is(raw, p, opts);
    front_keeps(raw, p, opts);
    edit_steps(unbound_file(raw, p, opts), p, opts);
}

/// A byte of the headers that neither renaming nor moving touches is that of the stamped file.
proof fn late_byte(raw: Seq<u8>, p: PeV, opts: CleanOptions, k: int)
    requires
        orderly(raw, p, opts),
        succeeds(raw, p, opts),
        0 <= k < headers_end(raw, p),
        !name_places(p)(k),
        !file_places(p)(k),
    ensures
        output(raw, p, opts)[k] == stamped_file(raw, p, opts)[k],
{
    late_steps(raw, p, opts);
    headers_are(raw);
    output_header_bytes(raw, p, opts);
    renaming_keeps(
        stamped_file(raw, p, opts),
        p,
        table_at(raw, p),
        p.sections.len() as int,
    );
}

proof fn stamp_is_zero(raw: Seq<u8>, p: PeV, opts: CleanOptions)
    requires
        orderly(raw, p, opts),
        succeeds(raw, p, opts),
        opts.zero_timestamp,
    ensures
        le::le32(output(raw, p, opts), p.coff + 4) == 0,
{
    late_steps(raw, p, opts);
    headers_are(raw);
    stored_keeps(quiet_file(raw, p, opts), p.coff + 4, 0);
    let b = stamped_file(raw, p, opts);
    let out = output(raw, p, opts);
    assert forall|k: int| p.coff + 4 <= k < p.coff + 8 implies b[k] == #[trigger] out[k] by {
        assert forall|i: int| 0 <= i < p.sections.len() implies k < (#[trigger] p.sections[i]).hdr by {
            assert(p.sections[i].hdr == table_at(raw, p) + pe::SECTION_HEADER * i);
        }
        late_byte(raw, p, opts, k);
    }
}

proof fn quiet_word(d: Seq<u8>, p: PeV, s: SecV)
    requires
        clean::quieted(d, p, 3) is Ok,
        p.named(".SCY"@) == Some(s),
    ensures
        le::le32(clean::quieted(d, p, 3)->Ok_0, s.hdr + 36) == clean::DATA_ONLY,
{
    assert(clean::residue()[2] == ".SCY"@);
    let before = clean::quieted(d, p, 2);
    assert(clean::quieted(d, p, 3) == clean::stored(before, s.hdr + 36, clean::DATA_ONLY));
    stored_keeps(before->Ok_0, s.hdr + 36, clean::DATA_ONLY);
}

proof fn flags_lie_apart(p: PeV, table: int, i: int, k: int)
    requires
        in_a_row(p, table),
        0 <= i < p.sections.len(),
        p.sections[i].hdr + 36 <= k < p.sections[i].hdr + 40,
    ensures
        !name_places(p)(k),
        !file_places(p)(k),
{
    assert(p.sections[i].hdr == table + pe::SECTION_HEADER * i);
    assert forall|j: int| 0 <= j < p.sections.len() implies !((#[trigger] p.sections[j]).hdr <= k
        < p.sections[j].hdr + 24) by {
        assert(p.sections[j].hdr == table + pe::SECTION_HEADER * j);
        if j < i {
            assert(40 * j + 40 <= 40 * i);
        } else if j > i {
            assert(40 * i + 40 <= 40 * j);
        }
    }
}

proof fn flag_byte(raw: Seq<u8>, p: PeV, opts: CleanOptions, i: int, k: int)
    requires
        orderly(raw, p, opts),
        succeeds(raw, p, opts),
        0 <= i < p.sections.len(),
        p.sections[i].hdr + 36 <= k < p.sections[i].hdr + 40,
    ensures
        p.sections[i].hdr + 40 <= headers_end(raw, p),
        output(raw, p, opts)[k] == quiet_file(raw, p, opts)[k],
{
    headers_are(raw);
    let table = table_at(raw, p);
    assert(p.sections[i].hdr == table + pe::SECTION_HEADER * i);
    assert(40 * i + 40 <= 40 * p.sections.len());
    flags_lie_apart(p, table, i, k);
    late_byte(raw, p, opts, k);
    late_steps(raw, p, opts);
    stored_keeps(quiet_file(raw, p, opts), p.coff + 4, 0);
}

proof fn residue_is_quiet(raw: Seq<u8>, p: PeV, opts: CleanOptions, i: int)
    requires
        orderly(raw, p, opts),
        succeeds(raw, p, opts),
        0 <= i < p.sections.len(),
        p.named(".SCY"@) == Some(p.sections[i]),
    ensures
        p.sections[i].hdr + 40 <= headers_end(raw, p),
        le::le32(output(raw, p, opts), p.sections[i].hdr + 36) == clean::DATA_ONLY,
{
    late_steps(raw, p, opts);
    quiet_word(unbound_file(raw, p, opts), p, p.sections[i]);
    let h = p.sections[i].hdr as int;
    flag_byte(raw, p, opts, i, h + 36);
    flag_byte(raw, p, opts, i, h + 37);
    flag_byte(raw, p, opts, i, h + 38);
    flag_byte(raw, p, opts, i, h + 39);
}

/// The cleaned file holds a cleared timestamp and quiet residue.
proof fn late_words(raw: Seq<u8>, p: PeV, opts: CleanOptions)
    requires
        orderly(raw, p, opts),
        succeeds(raw, p, opts),
    ensures
        opts.zero_timestamp ==> le::le32(output(raw, p, opts), p.coff + 4) == 0,
        p.named(".SCY"@) matches Some(s) ==> s.hdr + 40 <= headers_end(raw, p) && le::le32(
            output(raw, p, opts),
            s.hdr + 36,
        ) == clean::DATA_ONLY,
{
    if opts.zero_timestamp {
        stamp_is_zero(raw, p, opts);
    }
    if let Some(s) = p.named(".SCY"@) {
        clean::found_is_one(p.sections, ".SCY"@, 0);
        let i = choose|i: int| 0 <= i < p.sections.len() && #[trigger] p.sections[i] == s;
        residue_is_quiet(raw, p, opts, i);
    }
}

/// No section of a cleaned file has a name that a packer gives.
proof fn no_packer_names(p: PeV, i: int)
    requires
        0 <= i,
    ensures
        pe::named_from(clean::cleaned_headers(p).sections, ".themida"@, i) is None,
        pe::named_from(clean::cleaned_headers(p).sections, ".boot"@, i) is None,
        forall|j: int|
            0 <= j < p.sections.len() ==> clean::new_name(
                (#[trigger] clean::cleaned_headers(p).sections[j]).name,
            ) is None,
    decreases p.sections.len() - i,
{
    reveal_strlit(".themida");
    reveal_strlit(".boot");
    reveal_strlit(".rsrv0");
    reveal_strlit(".rsrv1");
    reserved_names();
    assert(".themida"@.len() == 8 && ".boot"@.len() == 5 && ".rsrv0"@.len() == 6 && ".rsrv1"@.len()
        == 6);
    let q = clean::cleaned_headers(p).sections;
    assert forall|j: int| 0 <= j < p.sections.len() implies clean::new_name((#[trigger] q[j]).name) is None by {
        assert(q[j] == clean::cleaned_section(p, p.sections[j]));
    }
    if i < p.sections.len() {
        assert(clean::new_name(q[i].name) is None);
        no_packer_names(p, i + 1);
    }
}

proof fn nothing_to_rename(d: Seq<u8>, q: PeV, n: int)
    requires
        0 <= n <= q.sections.len(),
        forall|j: int|
            0 <= j < q.sections.len() ==> clean::new_name((#[trigger] q.sections[j]).name) is None,
    ensures
        clean::renamed(d, q, n) == Ok::<Seq<u8>, Seq<char>>(d),
    decreases n,
{
    if n > 0 {
        nothing_to_rename(d, q, n - 1);
        assert(clean::new_name(q.sections[n - 1].name) is None);
    }
}

proof fn ordinary_names()
    ensures
        clean::new_name(".pdata"@) is None,
        clean::new_name(".SCY"@) is None,
        ".pdata"@ != ".rsrv0"@,
        ".pdata"@ != ".rsrv1"@,
        ".SCY"@ != ".rsrv0"@,
        ".SCY"@ != ".rsrv1"@,
{
    reveal_strlit(".themida");
    reveal_strlit(".boot");
    reveal_strlit(".rsrv0");
    reveal_strlit(".rsrv1");
    reveal_strlit(".pdata");
    reveal_strlit(".SCY");
    assert(".pdata"@[1] != ".rsrv0"@[1]);
    assert(".pdata"@[1] != ".rsrv1"@[1]);
    assert(".pdata"@.len() == 6 && ".themida"@.len() == 8 && ".boot"@.len() == 5);
    assert(".SCY"@.len() == 4 && ".rsrv0"@.len() == 6 && ".rsrv1"@.len() == 6);
}

proof fn headers_settle(raw: Seq<u8>, p: PeV, opts: CleanOptions)
    requires
        orderly(raw, p, opts),
        succeeds(raw, p, opts),
    ensures
        clean::headers_edited(output(raw, p, opts), clean::cleaned_headers(p), opts) == Ok::<
            Seq<u8>,
            Seq<char>,
        >(output(raw, p, opts)),
        clean::stripped(output(raw, p, opts), clean::cleaned_headers(p)) == Ok::<(Seq<u8>, u32), Seq<char>>(
            (output(raw, p, opts), 0),
        ),
{
    let out = output(raw, p, opts);
    let q = clean::cleaned_headers(p);
    headers_are(raw);
    ordinary_names();
    late_words(raw, p, opts);
    output_header_bytes(raw, p, opts);
    no_packer_names(p, 0);
    found_again(p, ".SCY"@, 0);
    assert(clean::residue()[0] == ".themida"@ && clean::residue()[1] == ".boot"@
        && clean::residue()[2] == ".SCY"@);
    assert(q.named(".themida"@) is None && q.named(".boot"@) is None);
    assert(clean::quieted(out, q, 0) == Ok::<Seq<u8>, Seq<char>>(out));
    assert(clean::quieted(out, q, 1) == Ok::<Seq<u8>, Seq<char>>(out));
    assert(clean::quieted(out, q, 2) == Ok::<Seq<u8>, Seq<char>>(out));
    if let Some(s) = p.named(".SCY"@) {
        stored_again(out, s.hdr + 36, clean::DATA_ONLY);
    }
    assert(clean::quieted(out, q, 3) == Ok::<Seq<u8>, Seq<char>>(out));
    if opts.zero_timestamp {
        stored_again(out, p.coff + 4, 0);
    }
    nothing_to_rename(out, q, q.sections.len() as int);
    assert(clean::dead(q) =~= Seq::<SecV>::empty());
}

proof fn directories_settle(raw: Seq<u8>, p: PeV, opts: CleanOptions)
    requires
        orderly(raw, p, opts),
        succeeds(raw, p, opts),
    ensures
        clean::directories_mended(output(raw, p, opts), clean::cleaned_headers(p)) == Ok::<
            Seq<u8>,
            Seq<char>,
        >(output(raw, p, opts)),
        clean::iat_set(clean::directories_mended(raw, p), p) is Ok,
        clean::iat_set(clean::directories_mended(raw, p), p)->Ok_0.1 matches Some((rva, size))
            ==> clean::pointed(Ok(output(raw, p, opts)), clean::cleaned_headers(p), 12, rva, size) == Ok::<
            Seq<u8>,
            Seq<char>,
        >(output(raw, p, opts)),
{
    let out = output(raw, p, opts);
    let q = clean::cleaned_headers(p);
    headers_are(raw);
    output_is(raw, p, opts);
    assert(clean::iat_set(clean::directories_mended(raw, p), p) is Ok) by {
        reveal(edited);
    }
    directories_say(raw, p);
    ordinary_names();
    found_again(p, ".pdata"@, 0);
    early_word(raw, p, opts, p.dd + 24);
    early_word(raw, p, opts, p.dd + 28);
    early_word(raw, p, opts, p.dd + 32);
    early_word(raw, p, opts, p.dd + 36);
    early_word(raw, p, opts, p.dd + 96);
    early_word(raw, p, opts, p.dd + 100);
    if let Some(s) = p.named(".pdata"@) {
        stored_again(out, p.dd + 24, s.va);
        stored_again(out, p.dd + 28, s.vs);
    }
    stored_again(out, p.dd + 32, 0);
    stored_again(out, p.dd + 36, 0);
    if let Some((rva, size)) = clean::iat_set(clean::directories_mended(raw, p), p)->Ok_0.1 {
        stored_again(out, p.dd + 96, rva);
        stored_again(out, p.dd + 100, size);
    }
}

/// The imports of the cleaned file are those that it was made with: their tables have the extent that was
/// noted, or are gone, and where they are unbound they already were.
pub open spec fn imports_outlast(
    out: Seq<u8>,
    summary: CleanSummaryV,
    p: PeV,
    opts: CleanOptions,
) -> bool {
    &&& imports::iat_of(out, clean::cleaned_headers(p)) matches Ok((rva, size)) && (rva == 0
        || summary.iat_dir == Some((rva, size)))
    &&& clean::thunks_unbound(out, clean::cleaned_headers(p), opts) matches Ok((n, t)) && n == out
}

/// A file that was edited stays as it is when it is cleaned, where its imports outlast the edits.
pub proof fn edited_file_settles(
    raw: Seq<u8>,
    p: PeV,
    opts: CleanOptions,
    out: Seq<u8>,
    summary: CleanSummaryV,
)
    requires
        orderly(raw, p, opts),
        clean::with_edits(raw, p, opts) == Ok::<(Seq<u8>, CleanSummaryV), Seq<char>>((out, summary)),
        imports_outlast(out, summary, p, opts),
    ensures
        clean::cleaned(out, opts) matches Ok((again, s)) && again == out && s.stripped_bytes == 0
            && s.renamed.len() == 0,
{
    output_of(raw, p, opts);
    headers_after(raw, p, opts);
    directories_settle(raw, p, opts);
    headers_settle(raw, p, opts);
    let q = clean::cleaned_headers(p);
    let dir = clean::iat_set(clean::directories_mended(raw, p), p)->Ok_0.1;
    assert(summary.iat_dir == dir);
    let (rva, size) = imports::iat_of(out, q)->Ok_0;
    assert(clean::iat_set(Ok(out), q) matches Ok((n, _)) && n == out);
    edits_compose(out, q, opts);
    no_packer_names(p, 0);
    nothing_renamed(q, q.sections.len() as int);
    headers_stand(p);
    settled_is_intact(out, q);
}

proof fn edits_compose(d: Seq<u8>, p: PeV, opts: CleanOptions)
    requires
        clean::directories_mended(d, p) == Ok::<Seq<u8>, Seq<char>>(d),
        clean::iat_set(Ok(d), p) matches Ok((n, _)) && n == d,
        clean::thunks_unbound(d, p, opts) matches Ok((n, _)) && n == d,
        clean::headers_edited(d, p, opts) == Ok::<Seq<u8>, Seq<char>>(d),
        clean::stripped(d, p) == Ok::<(Seq<u8>, u32), Seq<char>>((d, 0)),
    ensures
        clean::with_edits(d, p, opts) matches Ok((again, s)) && again == d && s.stripped_bytes == 0
            && s.renamed == clean::old_names(p, p.sections.len() as int),
{
}

proof fn settled_is_intact(d: Seq<u8>, q: PeV)
    requires
        pe::headers(d) == Ok::<PeV, Seq<char>>(q),
        clean::cleaned_headers(q) == q,
        clean::dead(q).len() == 0,
    ensures
        clean::intact(d, q, d),
{
    if let Some(s) = q.named(".text"@) {
        assert forall|k: int| s.ro <= k < s.ro + s.rs && q.front() <= k < d.len() implies #[trigger]
            clean::byte_kept(d, q, s, d, k) by {
            headers_are(d);
            if q.sections.len() == 0 {
                clean::found_is_one(q.sections, ".text"@, 0);
            }
        }
    }
}

proof fn nothing_renamed(q: PeV, n: int)
    requires
        0 <= n <= q.sections.len(),
        forall|j: int|
            0 <= j < q.sections.len() ==> clean::new_name((#[trigger] q.sections[j]).name) is None,
    ensures
        clean::old_names(q, n).len() == 0,
    decreases n,
{
    if n > 0 {
        nothing_renamed(q, n - 1);
        assert(clean::new_name(q.sections[n - 1].name) is None);
    }
}

/// Cleaned headers are not changed by cleaning.
proof fn headers_stand(p: PeV)
    ensures
        clean::cleaned_headers(clean::cleaned_headers(p)) == clean::cleaned_headers(p),
        clean::dead(clean::cleaned_headers(p)).len() == 0,
{
    let q = clean::cleaned_headers(p);
    no_packer_names(p, 0);
    assert(q.named(".themida"@) is None && q.named(".boot"@) is None);
    assert(clean::dead(q) =~= Seq::<SecV>::empty());
    assert(clean::cleaned_headers(q).sections =~= q.sections) by {
        assert forall|j: int| 0 <= j < q.sections.len() implies clean::cleaned_section(
            q,
            #[trigger] q.sections[j],
        ) == q.sections[j] by {
            assert(clean::new_name(q.sections[j].name) is None);
        }
    }
}

/// Behind the headers, the edited file holds what the file held once it was unbound, at the same place or
/// moved down by what was removed.
pub proof fn byte_behind_the_headers(
    raw: Seq<u8>,
    p: PeV,
    opts: CleanOptions,
    out: Seq<u8>,
    k: int,
    at: int,
)
    requires
        orderly(raw, p, opts),
        clean::with_edits(raw, p, opts) matches Ok((o, summary)) && o == out,
        headers_end(raw, p) <= k < raw.len(),
        !clean::strips(p) ==> at == k,
        clean::strips(p) ==> (k < clean::dead_start(p) && at == k) || (k >= clean::dead_end(p) && at
            == k - (clean::dead_end(p) - clean::dead_start(p))),
    ensures
        0 <= at < out.len(),
        clean::thunks_unbound(prepared(raw, p), p, opts) matches Ok((u, t)) && out[at] == u[k],
{
    output_of(raw, p, opts);
    output_is(raw, p, opts);
    cut_byte(raw, p, opts, k, at);
    output_byte(raw, p, opts, at);
    unbound_byte(raw, p, opts, k);
    assert(0 <= headers_end(raw, p));
}

proof fn unbound_byte(raw: Seq<u8>, p: PeV, opts: CleanOptions, k: int)
    requires
        orderly(raw, p, opts),
        edited(raw, p, opts) is Ok,
        headers_end(raw, p) <= k < raw.len(),
    ensures
        edited(raw, p, opts)->Ok_0[k] == unbound_file(raw, p, opts)[k],
        clean::thunks_unbound(prepared(raw, p), p, opts) is Ok,
{
    headers_are(raw);
    front_keeps(raw, p, opts);
    behind_the_headers(raw, p, k);
    headers_edit_keeps(unbound_file(raw, p, opts), p, opts, table_at(raw, p));
    reveal(edited);
}

/// The edited file names the import directory where the file did, and nothing is removed that is kept.
pub proof fn import_directory_stays(
    raw: Seq<u8>,
    p: PeV,
    opts: CleanOptions,
    out: Seq<u8>,
)
    requires
        orderly(raw, p, opts),
        clean::with_edits(raw, p, opts) matches Ok((o, summary)) && o == out,
    ensures
        pe::at32(out, p.dd + 8) == pe::at32(raw, p.dd + 8),
        clean::strips(p) ==> clean::kept_in(p, clean::dead_start(p), clean::dead_end(p), 0) is None,
{
    output_of(raw, p, opts);
    output_is(raw, p, opts);
    headers_are(raw);
    assert(clean::iat_set(clean::directories_mended(raw, p), p) is Ok);
    prepared_keeps(raw, p);
    early_word(raw, p, opts, p.dd + 8);
    assert(pe::at32(prepared(raw, p), p.dd + 8) == pe::at32(raw, p.dd + 8));
}

/// Setting the directories changes neither where the import directory is nor what lies behind the headers.
pub proof fn prepared_keeps(raw: Seq<u8>, p: PeV)
    requires
        pe::headers(raw) == Ok::<PeV, Seq<char>>(p),
        tidy(raw, p),
        clean::iat_set(clean::directories_mended(raw, p), p) is Ok,
    ensures
        ({
            let d1 = clean::directories_mended(raw, p)->Ok_0;
            let d2 = prepared(raw, p);
            &&& clean::directories_mended(raw, p) is Ok
            &&& d1.len() == raw.len()
            &&& d2.len() == raw.len()
            &&& pe::at32(d1, p.dd + 8) == pe::at32(raw, p.dd + 8)
            &&& pe::at32(d2, p.dd + 8) == pe::at32(raw, p.dd + 8)
            &&& forall|k: int|
                #![trigger d1[k]]
                #![trigger d2[k]]
                headers_end(raw, p) <= k < raw.len() ==> d1[k] == raw[k] && d2[k] == raw[k]
        }),
{
    headers_are(raw);
    directories_keep(raw, p);
    let d1 = clean::directories_mended(raw, p)->Ok_0;
    iat_keeps(d1, p);
    let d2 = prepared(raw, p);
    assert forall|k: int|
        #![trigger d1[k]]
        #![trigger d2[k]]
        0 <= k < raw.len() && !directory_places(p)(k) implies d1[k] == raw[k] && d2[k] == raw[k] by {
        assert(raw[k] == d1[k]);
        assert(d1[k] == d2[k]);
    }
    assert(!directory_places(p)(p.dd + 8) && !directory_places(p)(p.dd + 9) && !directory_places(p)(
        p.dd + 10,
    ) && !directory_places(p)(p.dd + 11));
    assert(p.dd + 12 <= raw.len());
    assert(d1[p.dd + 8] == raw[p.dd + 8] && d1[p.dd + 9] == raw[p.dd + 9] && d1[p.dd + 10] == raw[p.dd
        + 10] && d1[p.dd + 11] == raw[p.dd + 11]);
    assert forall|k: int|
        #![trigger d1[k]]
        #![trigger d2[k]]
        headers_end(raw, p) <= k < raw.len() implies d1[k] == raw[k] && d2[k] == raw[k] by {
        behind_the_headers(raw, p, k);
    }
}

proof fn copying_spares_code(
    d: Seq<u8>,
    p: PeV,
    from: int,
    to: int,
    j: int,
    touched: int,
    k: int,
)
    requires
        0 <= k < d.len(),
        p.named(".text"@) matches Some(s) && s.ro <= k < s.ro + s.rs,
    ensures
        imports::copied_from(d, p, from, to, j, touched) matches Ok((n, t)) ==> n.len() == d.len()
            && n[k] == d[k],
    decreases imports::MAX_THUNKS - j,
{
    if j < imports::MAX_THUNKS {
        if let Some(v) = imports::thunk_at(d, p.is64, from + j * p.thunk()) {
            let o = to + j * p.thunk();
            let b = imports::thunk_bytes(p.is64, v);
            put_keeps(d, o, b);
            assert(b.len() == p.thunk());
            if imports::guarded(p, o) {
                if v != 0 {
                    copying_spares_code(d, p, from, to, j + 1, touched, k);
                }
            } else if let Some(e) = pe::put(d, o, b) {
                assert(e[k] == d[k]);
                if v != 0 {
                    copying_spares_code(e, p, from, to, j + 1, touched + 1, k);
                }
            }
        }
    }
}

proof fn unbinding_spares_code(d: Seq<u8>, p: PeV, ioff: int, idx: int, touched: int, k: int)
    requires
        0 <= k < d.len(),
        p.named(".text"@) matches Some(s) && s.ro <= k < s.ro + s.rs,
    ensures
        imports::unbound_from(d, p, ioff, idx, touched) matches Ok((n, t)) ==> n.len() == d.len()
            && n[k] == d[k],
    decreases imports::MAX_DESCRIPTORS - idx,
{
    if idx < imports::MAX_DESCRIPTORS {
        if let Some(x) = imports::descriptor_at(d, ioff + 20 * idx) {
            match imports::tables_at(p, x) {
                None => {
                    unbinding_spares_code(d, p, ioff, idx + 1, touched, k);
                },
                Some((from, to)) => {
                    copying_spares_code(d, p, from, to, 0, touched, k);
                    if let Ok((e, t)) = imports::copied_from(d, p, from, to, 0, touched) {
                        unbinding_spares_code(e, p, ioff, idx + 1, t, k);
                    }
                },
            }
        }
    }
}

proof fn code_byte_stays(raw: Seq<u8>, p: PeV, opts: CleanOptions, out: Seq<u8>, s: SecV, k: int)
    requires
        orderly(raw, p, opts),
        clean::with_edits(raw, p, opts) matches Ok((o, summary)) && o == out,
        p.named(".text"@) == Some(s),
        s.ro <= k < s.ro + s.rs,
        p.front() <= k < raw.len(),
    ensures
        clean::byte_kept(raw, p, s, out, k),
{
    headers_are(raw);
    text_found_again(raw, p);
    import_directory_stays(raw, p, opts, out);
    let i = choose|i: int| 0 <= i < p.sections.len() && #[trigger] p.sections[i] == s;
    let n = p.sections.len() as int;
    assert(p.sections[n - 1].hdr == table_at(raw, p) + pe::SECTION_HEADER * (n - 1));
    assert(headers_end(raw, p) == p.front());
    if clean::strips(p) {
        low_is_an_offset(clean::dead(p), clean::dead(p).len() as int);
        kept_is_apart(p, clean::dead_start(p), clean::dead_end(p), i, 0);
    }
    let at = k - s.ro + clean::cleaned_section(p, s).ro;
    byte_behind_the_headers(raw, p, opts, out, k, at);
    prepared_keeps(raw, p);
    let d = prepared(raw, p);
    assert(d[k] == raw[k]);
    if opts.unbind_iat {
        if let Some(ioff) = imports::directory(d, p) {
            unbinding_spares_code(d, p, ioff, 0, 0, k);
        }
    }
}

/// A file with orderly headers is never refused for what the edits would do to its headers or its code.
pub proof fn orderly_files_are_not_refused(raw: Seq<u8>, p: PeV, opts: CleanOptions)
    requires
        orderly(raw, p, opts),
    ensures
        clean::cleaned(raw, opts) == clean::with_edits(raw, p, opts),
{
    output_of(raw, p, opts);
    if let Ok((out, summary)) = clean::with_edits(raw, p, opts) {
        headers_after(raw, p, opts);
        if let Some(s) = p.named(".text"@) {
            assert forall|k: int| s.ro <= k < s.ro + s.rs && p.front() <= k < raw.len() implies #[trigger]
                clean::byte_kept(raw, p, s, out, k) by {
                code_byte_stays(raw, p, opts, out, s, k);
            }
            assert(clean::section_kept(raw, p, s, out));
        }
    }
}

/// A word of the flags, behind `n` of the packer's names.
proof fn quiet_words(d: Seq<u8>, p: PeV, table: int, n: int, k: int)
    requires
        0 <= k < n <= 3,
        in_a_row(p, table),
        clean::quieted(d, p, n) is Ok,
    ensures
        p.named(clean::residue()[k]) matches Some(s) ==> s.hdr + 40 <= clean::quieted(
            d,
            p,
            n,
        )->Ok_0.len() && le::le32(clean::quieted(d, p, n)->Ok_0, s.hdr + 36) == 0x4000_0040,
    decreases n,
{
    let before = clean::quieted(d, p, n - 1);
    if let Some(s) = p.named(clean::residue()[k]) {
        clean::found_is_one(p.sections, clean::residue()[k], 0);
        let i = choose|i: int| 0 <= i < p.sections.len() && #[trigger] p.sections[i] == s;
        assert(p.sections[i].hdr == table + pe::SECTION_HEADER * i);
        match p.named(clean::residue()[n - 1]) {
            Some(t) => {
                clean::found_is_one(p.sections, clean::residue()[n - 1], 0);
                let j = choose|j: int| 0 <= j < p.sections.len() && #[trigger] p.sections[j] == t;
                assert(p.sections[j].hdr == table + pe::SECTION_HEADER * j);
                assert(before is Ok);
                stored_keeps(before->Ok_0, t.hdr + 36, clean::DATA_ONLY);
                if k < n - 1 {
                    quiet_words(d, p, table, n - 1, k);
                    if i < j {
                        assert(40 * i + 40 <= 40 * j);
                    }
                    if j < i {
                        assert(40 * j + 40 <= 40 * i);
                    }
                }
            },
            None => {
                quiet_words(d, p, table, n - 1, k);
            },
        }
    }
}

proof fn residue_flags(raw: Seq<u8>, p: PeV, opts: CleanOptions, k: int)
    requires
        orderly(raw, p, opts),
        succeeds(raw, p, opts),
        0 <= k < 3,
    ensures
        p.named(clean::residue()[k]) matches Some(s) ==> gates::word(
            output(raw, p, opts),
            s.hdr + 36,
        ) == 0x4000_0040,
{
    headers_are(raw);
    late_steps(raw, p, opts);
    output_header_bytes(raw, p, opts);
    quiet_words(unbound_file(raw, p, opts), p, table_at(raw, p), 3, k);
    if let Some(s) = p.named(clean::residue()[k]) {
        clean::found_is_one(p.sections, clean::residue()[k], 0);
        let i = choose|i: int| 0 <= i < p.sections.len() && #[trigger] p.sections[i] == s;
        let h = s.hdr as int;
        flag_byte(raw, p, opts, i, h + 36);
        flag_byte(raw, p, opts, i, h + 37);
        flag_byte(raw, p, opts, i, h + 38);
        flag_byte(raw, p, opts, i, h + 39);
    }
}

/// A name that packers give.
pub open spec fn packer_name(name: Seq<char>) -> bool {
    name == ".themida"@ || name == ".boot"@ || name == ".SCY"@
}

/// The edits give this file and this summary.
#[verifier::opaque]
spec fn edits_give(
    raw: Seq<u8>,
    p: PeV,
    opts: CleanOptions,
    out: Seq<u8>,
    summary: CleanSummaryV,
) -> bool {
    clean::with_edits(raw, p, opts) == Ok::<(Seq<u8>, CleanSummaryV), Seq<char>>((out, summary))
}

proof fn cleaning_edits(raw: Seq<u8>, p: PeV, opts: CleanOptions)
    requires
        pe::headers(raw) == Ok::<PeV, Seq<char>>(p),
    ensures
        clean::cleaned(raw, opts) matches Ok((out, summary)) ==> edits_give(
            raw,
            p,
            opts,
            out,
            summary,
        ) && succeeds(raw, p, opts) && output(raw, p, opts) == out,
{
    reveal(edits_give);
    output_of(raw, p, opts);
}

proof fn summary_says(
    raw: Seq<u8>,
    p: PeV,
    opts: CleanOptions,
    out: Seq<u8>,
    summary: CleanSummaryV,
)
    requires
        edits_give(raw, p, opts, out, summary),
        raw.len() <= u64::MAX,
    ensures
        clean::iat_set(clean::directories_mended(raw, p), p) is Ok,
        summary.iat_dir == clean::iat_set(clean::directories_mended(raw, p), p)->Ok_0.1,
        summary.exception_repointed <==> p.named(".pdata"@) is Some,
        summary.cert_cleared,
        summary.timestamp_zeroed == opts.zero_timestamp,
        summary.size_before == raw.len(),
        summary.size_after == out.len() as u64,
        summary.stripped_bytes == if clean::strips(p) {
            clean::dead_end(p) - clean::dead_start(p)
        } else {
            0
        },
{
    reveal(edits_give);
    let d2 = prepared(raw, p);
    if let Ok((d3, t)) = clean::thunks_unbound(d2, p, opts) {
        if let Ok(d4) = clean::headers_edited(d3, p, opts) {
            strip_count(d4, p);
        }
    }
}

proof fn directory_words(raw: Seq<u8>, p: PeV, opts: CleanOptions)
    requires
        orderly(raw, p, opts),
        succeeds(raw, p, opts),
        clean::iat_set(clean::directories_mended(raw, p), p) is Ok,
    ensures
        ({
            let out = output(raw, p, opts);
            &&& forall|i: int| #[trigger]
                gates::first_named(p, ".pdata"@, i) ==> gates::word(out, p.dd + 24)
                    == p.sections[i].va && gates::word(out, p.dd + 28) == p.sections[i].vs
            &&& gates::word(out, p.dd + 32) == 0
            &&& gates::word(out, p.dd + 36) == 0
            &&& clean::iat_set(clean::directories_mended(raw, p), p)->Ok_0.1 matches Some((rva, size))
                ==> rva != 0 && gates::word(out, p.dd + 96) == rva && gates::word(out, p.dd + 100)
                == size
        }),
{
    let out = output(raw, p, opts);
    headers_are(raw);
    directories_say(raw, p);
    early_word(raw, p, opts, p.dd + 24);
    early_word(raw, p, opts, p.dd + 28);
    early_word(raw, p, opts, p.dd + 32);
    early_word(raw, p, opts, p.dd + 36);
    early_word(raw, p, opts, p.dd + 96);
    early_word(raw, p, opts, p.dd + 100);
    gates::named_is_first(p, ".pdata"@);
    assert forall|i: int| #[trigger] gates::first_named(p, ".pdata"@, i) implies gates::word(
        out,
        p.dd + 24,
    ) == p.sections[i].va && gates::word(out, p.dd + 28) == p.sections[i].vs by {
        assert(p.named(".pdata"@) is Some) by {
            if p.named(".pdata"@) is None {
                assert(p.sections[i].name != ".pdata"@);
            }
        }
        let s = p.named(".pdata"@)->0;
        let j = choose|j: int| #[trigger] gates::first_named(p, ".pdata"@, j) && s == p.sections[j];
        gates::first_is_one(p, ".pdata"@, i, j);
    }
}

proof fn flag_words(raw: Seq<u8>, p: PeV, opts: CleanOptions)
    requires
        orderly(raw, p, opts),
        succeeds(raw, p, opts),
    ensures
        forall|i: int, name: Seq<char>| #[trigger]
            gates::first_named(p, name, i) && packer_name(name) ==> gates::word(
                output(raw, p, opts),
                p.sections[i].hdr + 36,
            ) == 0x4000_0040,
{
    assert forall|i: int, name: Seq<char>| #[trigger]
        gates::first_named(p, name, i) && packer_name(name) implies gates::word(
        output(raw, p, opts),
        p.sections[i].hdr + 36,
    ) == 0x4000_0040 by {
        let k: int = if name == ".themida"@ {
            0
        } else if name == ".boot"@ {
            1
        } else {
            2
        };
        assert(clean::residue()[k] == name);
        gates::named_is_first(p, name);
        assert(p.named(name) is Some) by {
            if p.named(name) is None {
                assert(p.sections[i].name != name);
            }
        }
        let s = p.named(name)->0;
        let j = choose|j: int| #[trigger] gates::first_named(p, name, j) && s == p.sections[j];
        gates::first_is_one(p, name, i, j);
        residue_flags(raw, p, opts, k);
    }
}

proof fn stamp_word(raw: Seq<u8>, p: PeV, opts: CleanOptions)
    requires
        orderly(raw, p, opts),
        succeeds(raw, p, opts),
    ensures
        opts.zero_timestamp ==> gates::word(output(raw, p, opts), p.coff + 4) == 0,
        output(raw, p, opts).len() + clean::dead_end(p) - clean::dead_start(p) == raw.len()
            || !clean::strips(p),
        !clean::strips(p) ==> output(raw, p, opts).len() == raw.len(),
{
    if opts.zero_timestamp {
        stamp_is_zero(raw, p, opts);
    }
    output_is(raw, p, opts);
    output_len(raw, p, opts);
}

proof fn strip_count(d: Seq<u8>, p: PeV)
    ensures
        clean::stripped(d, p) matches Ok((n, gap)) ==> gap == if clean::strips(p) {
            clean::dead_end(p) - clean::dead_start(p)
        } else {
            0
        },
{
}

/// The headers of a cleaned file say this: the exception directory is the `.pdata` section, the certificate
/// directory is empty, the import address directory is as reported, the first section of each name that
/// packers give is data that can only be read, and the timestamp is zero where that was asked for. The
/// summary counts what was taken out.
pub open spec fn headers_say(
    raw: Seq<u8>,
    p: PeV,
    opts: CleanOptions,
    out: Seq<u8>,
    summary: CleanSummaryV,
) -> bool {
    &&& summary.exception_repointed <==> exists|i: int|
        0 <= i < p.sections.len() && (#[trigger] p.sections[i]).name == ".pdata"@
    &&& forall|i: int| #[trigger]
        gates::first_named(p, ".pdata"@, i) ==> gates::word(out, p.dd + 24) == p.sections[i].va
            && gates::word(out, p.dd + 28) == p.sections[i].vs
    &&& summary.cert_cleared
    &&& gates::word(out, p.dd + 32) == 0
    &&& gates::word(out, p.dd + 36) == 0
    &&& summary.iat_dir matches Some((rva, size)) ==> rva != 0 && gates::word(out, p.dd + 96) == rva
        && gates::word(out, p.dd + 100) == size
    &&& forall|i: int, name: Seq<char>| #[trigger]
        gates::first_named(p, name, i) && packer_name(name) ==> gates::word(
            out,
            p.sections[i].hdr + 36,
        ) == 0x4000_0040
    &&& summary.timestamp_zeroed <==> opts.zero_timestamp
    &&& opts.zero_timestamp ==> gates::word(out, p.coff + 4) == 0
    &&& summary.size_before == raw.len()
    &&& summary.size_after == out.len()
    &&& out.len() + summary.stripped_bytes == raw.len()
}

proof fn edits_say(
    raw: Seq<u8>,
    p: PeV,
    opts: CleanOptions,
    out: Seq<u8>,
    summary: CleanSummaryV,
)
    requires
        orderly(raw, p, opts),
        raw.len() <= u64::MAX,
        edits_give(raw, p, opts, out, summary),
        succeeds(raw, p, opts),
        output(raw, p, opts) == out,
    ensures
        headers_say(raw, p, opts, out, summary),
{
    summary_says(raw, p, opts, out, summary);
    directory_words(raw, p, opts);
    flag_words(raw, p, opts);
    stamp_word(raw, p, opts);
    gates::named_is_first(p, ".pdata"@);
    if p.named(".pdata"@) is Some {
        let s = p.named(".pdata"@)->0;
        let j = choose|j: int| #[trigger] gates::first_named(p, ".pdata"@, j) && s == p.sections[j];
        assert(p.sections[j].name == ".pdata"@);
    }
}

/// A cleaned file says in its headers what cleaning is for.
pub proof fn cleaned_headers_say(raw: Seq<u8>, p: PeV, opts: CleanOptions)
    requires
        orderly(raw, p, opts),
        raw.len() <= u64::MAX,
    ensures
        clean::cleaned(raw, opts) matches Ok((out, summary)) ==> headers_say(
            raw,
            p,
            opts,
            out,
            summary,
        ),
{
    cleaning_edits(raw, p, opts);
    if let Ok((out, summary)) = clean::cleaned(raw, opts) {
        edits_say(raw, p, opts, out, summary);
    }
}

/// What is taken out of a cleaned file is counted, and shares no bytes with a section that is kept.
pub proof fn stripping_is_clear(raw: Seq<u8>, p: PeV, opts: CleanOptions)
    requires
        pe::headers(raw) == Ok::<PeV, Seq<char>>(p),
        raw.len() <= u64::MAX,
    ensures
        clean::cleaned(raw, opts) matches Ok((out, summary)) ==> {
            &&& clean::strips(p) ==> clean::kept_in(
                p,
                clean::dead_start(p),
                clean::dead_end(p),
                0,
            ) is None
            &&& summary.stripped_bytes == if clean::strips(p) {
                clean::dead_end(p) - clean::dead_start(p)
            } else {
                0
            }
        },
{
    cleaning_edits(raw, p, opts);
    if let Ok((out, summary)) = clean::cleaned(raw, opts) {
        summary_says(raw, p, opts, out, summary);
        edits_keep_apart(raw, p, opts, out, summary);
    }
}

proof fn edits_keep_apart(
    raw: Seq<u8>,
    p: PeV,
    opts: CleanOptions,
    out: Seq<u8>,
    summary: CleanSummaryV,
)
    requires
        edits_give(raw, p, opts, out, summary),
    ensures
        clean::strips(p) ==> clean::kept_in(p, clean::dead_start(p), clean::dead_end(p), 0) is None,
{
    reveal(edits_give);
}

}
