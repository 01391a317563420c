//! The import directory of a file.

use crate::unpack::pe;
use crate::unpack::pe::{bad, read32, read32_or_zero, read64, write32, write64, BadImage, Pe, PeV};
use crate::le;
use vstd::prelude::*;
use vstd::string::*;

verus! {

/// How many import descriptors are looked at.
pub const MAX_DESCRIPTORS: u64 = 4096;

/// How many thunks of a descriptor are looked at.
pub const MAX_THUNKS: u64 = 8192;

/// An import descriptor: its lookup table, its name and its address table.
#[derive(Clone, Copy, Debug, PartialEq, Eq, Structural)]
pub struct Descriptor {
    pub oft: u32,
    pub name: u32,
    pub ft: u32,
}

/// The descriptor at `o`; `None` where the data or the directory ends.
pub open spec fn descriptor_at(d: Seq<u8>, o: int) -> Option<Descriptor> {
    match pe::at32(d, o) {
        None => None,
        Some(oft) => {
            let name = pe::or_zero(pe::at32(d, o + 12));
            let ft = pe::or_zero(pe::at32(d, o + 16));
            if oft == 0 && name == 0 && ft == 0 {
                None
            } else {
                Some(Descriptor { oft, name, ft })
            }
        },
    }
}

/// The descriptors of the directory at `ioff`, from number `idx` on.
pub open spec fn descriptors_from(d: Seq<u8>, ioff: int, idx: int) -> Seq<Descriptor>
    decreases MAX_DESCRIPTORS - idx,
{
    if idx >= MAX_DESCRIPTORS {
        Seq::empty()
    } else {
        match descriptor_at(d, ioff + 20 * idx) {
            None => Seq::empty(),
            Some(x) => seq![x] + descriptors_from(d, ioff, idx + 1),
        }
    }
}

/// Where the import directory is in the file.
pub open spec fn directory(d: Seq<u8>, pe: PeV) -> Option<int> {
    match pe::at32(d, pe.dd + 8) {
        None => None,
        Some(rva) => pe.offset(rva),
    }
}

/// The import descriptors of a file.
pub open spec fn descriptors(d: Seq<u8>, pe: PeV) -> Seq<Descriptor> {
    match directory(d, pe) {
        None => Seq::empty(),
        Some(ioff) => descriptors_from(d, ioff, 0),
    }
}

/// The thunk at `o`.
pub open spec fn thunk_at(d: Seq<u8>, is64: bool, o: int) -> Option<u64> {
    if is64 {
        pe::at64(d, o)
    } else {
        match pe::at32(d, o) {
            Some(v) => Some(v as u64),
            None => None,
        }
    }
}

/// How many thunks there are before the first zero or the end, from number `j` of the table at `o` on.
pub open spec fn thunk_run(d: Seq<u8>, pe: PeV, o: int, j: int) -> int
    decreases MAX_THUNKS - j,
{
    if j >= MAX_THUNKS {
        0
    } else {
        match thunk_at(d, pe.is64, o + j * pe.thunk()) {
            Some(v) => if v == 0 {
                0
            } else {
                1 + thunk_run(d, pe, o, j + 1)
            },
            None => 0,
        }
    }
}

/// How many functions a descriptor imports, by its lookup table or else its address table.
pub open spec fn imported(d: Seq<u8>, pe: PeV, x: Descriptor) -> int {
    match pe.offset(
        if x.oft != 0 {
            x.oft
        } else {
            x.ft
        },
    ) {
        Some(o) => thunk_run(d, pe, o, 0),
        None => 0,
    }
}

/// A run of thunks is no longer than the most that are looked at.
pub proof fn run_fits(d: Seq<u8>, pe: PeV, o: int, j: int)
    requires
        0 <= j <= MAX_THUNKS,
    ensures
        0 <= thunk_run(d, pe, o, j) <= MAX_THUNKS - j,
    decreases MAX_THUNKS - j,
{
    if j < MAX_THUNKS {
        run_fits(d, pe, o, j + 1);
    }
}

/// The directory at `o`, read at number `idx`.
pub fn read_descriptor(d: &[u8], o: u64) -> (r: Option<Descriptor>)
    requires
        o <= 0xFFFF_FFFF_FFFF,
    ensures
        r == descriptor_at(d@, o as int),
{
    let oft: u32 = match read32(d, o) {
        Some(v) => v,
        None => {
            return None;
        },
    };
    let name: u32 = read32_or_zero(d, o + 12);
    let ft: u32 = read32_or_zero(d, o + 16);
    if oft == 0 && name == 0 && ft == 0 {
        return None;
    }
    Some(Descriptor { oft, name, ft })
}

/// Where the import directory is in the file.
pub fn find_directory(d: &[u8], p: &Pe) -> (r: Option<u64>)
    requires
        p.deep_view().wf(),
    ensures
        match r {
            Some(o) => directory(d@, p.deep_view()) == Some(o as int) && o < 0x2_0000_0000,
            None => directory(d@, p.deep_view()) is None,
        },
{
    match read32(d, p.dd + 8) {
        Some(rva) => p.rva2off(rva),
        None => None,
    }
}

/// The import descriptors of a file.
pub fn list_descriptors(d: &[u8], p: &Pe) -> (v: Vec<Descriptor>)
    requires
        p.deep_view().wf(),
    ensures
        v@ == descriptors(d@, p.deep_view()),
        v@.len() <= MAX_DESCRIPTORS,
{
    let mut v: Vec<Descriptor> = Vec::new();
    let ioff: u64 = match find_directory(d, p) {
        Some(o) => o,
        None => {
            assert(v@ =~= Seq::<Descriptor>::empty());
            return v;
        },
    };
    let ghost all = descriptors_from(d@, ioff as int, 0);
    let mut idx: u64 = 0;
    assert(v@ + all =~= all);
    while idx < MAX_DESCRIPTORS
        invariant
            idx <= MAX_DESCRIPTORS,
            ioff < 0x2_0000_0000,
            v@.len() == idx,
            all == v@ + descriptors_from(d@, ioff as int, idx as int),
            all == descriptors(d@, p.deep_view()),
        decreases MAX_DESCRIPTORS - idx,
    {
        match read_descriptor(d, ioff + idx * 20) {
            Some(x) => {
                let ghost before = v@;
                let ghost more = descriptors_from(d@, ioff as int, idx + 1);
                v.push(x);
                assert(v@ + more =~= before + (seq![x] + more));
            },
            None => {
                assert(v@ =~= all);
                return v;
            },
        }
        idx += 1;
    }
    assert(v@ =~= all);
    v
}

/// The thunk at `o`.
pub fn read_thunk(d: &[u8], is64: bool, o: u64) -> (r: Option<u64>)
    ensures
        r == thunk_at(d@, is64, o as int),
        !is64 && r is Some ==> r->0 <= u32::MAX,
{
    if is64 {
        read64(d, o)
    } else {
        match read32(d, o) {
            Some(v) => Some(v as u64),
            None => None,
        }
    }
}

/// How many functions a descriptor imports.
pub fn count_thunks(d: &[u8], p: &Pe, x: Descriptor) -> (n: u64)
    ensures
        n == imported(d@, p.deep_view(), x),
        n <= MAX_THUNKS,
{
    let ghost pv = p.deep_view();
    let rva: u32 = if x.oft != 0 {
        x.oft
    } else {
        x.ft
    };
    let o: u64 = match p.rva2off(rva) {
        Some(o) => o,
        None => {
            return 0;
        },
    };
    let size: u64 = if p.is64 {
        8
    } else {
        4
    };
    let mut j: u64 = 0;
    while j < MAX_THUNKS
        invariant
            j <= MAX_THUNKS,
            o < 0x2_0000_0000,
            pv == p.deep_view(),
            size == pv.thunk(),
            size <= 8,
            thunk_run(d@, pv, o as int, 0) == j + thunk_run(d@, pv, o as int, j as int),
            imported(d@, pv, x) == thunk_run(d@, pv, o as int, 0),
        decreases MAX_THUNKS - j,
    {
        assert(j * size <= 8192 * 8) by (nonlinear_arith)
            requires
                0 <= j <= 8192,
                0 <= size <= 8,
        ;
        match read_thunk(d, p.is64, o + j * size) {
            Some(v) => {
                if v == 0 {
                    return j;
                }
            },
            None => {
                return j;
            },
        }
        j += 1;
    }
    j
}

/// The least address table and the greatest end of one among the first `n` descriptors, each with its
/// closing zero; `None` where no descriptor has an address table.
pub open spec fn tables_of(d: Seq<u8>, pe: PeV, xs: Seq<Descriptor>, n: int) -> Option<(int, int)>
    decreases n,
{
    if n <= 0 {
        None
    } else {
        let before = tables_of(d, pe, xs, n - 1);
        let x = xs[n - 1];
        let end = x.ft + (imported(d, pe, x) + 1) * pe.thunk();
        if x.ft == 0 {
            before
        } else {
            match before {
                None => Some((x.ft as int, end)),
                Some((lo, hi)) => Some(
                    (
                        if x.ft < lo {
                            x.ft as int
                        } else {
                            lo
                        },
                        if end > hi {
                            end
                        } else {
                            hi
                        },
                    ),
                ),
            }
        }
    }
}

/// The address and the size of all address tables together, zero where there is none.
pub open spec fn iat_of(d: Seq<u8>, pe: PeV) -> Result<(u32, u32), Seq<char>> {
    let xs = descriptors(d, pe);
    match tables_of(d, pe, xs, xs.len() as int) {
        None => Ok((0, 0)),
        Some((lo, hi)) => if hi - lo > u32::MAX {
            Err("IAT extent overflows"@)
        } else {
            Ok((lo as u32, (hi - lo) as u32))
        },
    }
}

/// The extent of the import address tables: the smallest to the largest end, with each table's closing
/// zero. A descriptor without an address table defines no extent.
pub fn compute_iat(d: &[u8], p: &Pe) -> (r: Result<(u32, u32), BadImage>)
    requires
        p.deep_view().wf(),
    ensures
        match r {
            Ok(x) => iat_of(d@, p.deep_view()) == Ok::<(u32, u32), Seq<char>>(x),
            Err(e) => iat_of(d@, p.deep_view()) == Err::<(u32, u32), Seq<char>>(e.message@),
        },
{
    let ghost pv = p.deep_view();
    let xs = list_descriptors(d, p);
    let size: u64 = if p.is64 {
        8
    } else {
        4
    };
    let mut found: bool = false;
    let mut lo: u64 = 0;
    let mut hi: u64 = 0;
    let mut n: usize = 0;
    while n < xs.len()
        invariant
            pv == p.deep_view(),
            size == pv.thunk(),
            size <= 8,
            n <= xs@.len(),
            tables_of(d@, pv, xs@, n as int) == (if found {
                Some((lo as int, hi as int))
            } else {
                None
            }),
            found ==> lo <= u32::MAX && lo <= hi,
        decreases xs@.len() - n,
    {
        let x = xs[n];
        if x.ft != 0 {
            let count: u64 = count_thunks(d, p, x);
            assert((count + 1) * size <= 8193 * 8) by (nonlinear_arith)
                requires
                    0 <= count <= 8192,
                    0 <= size <= 8,
            ;
            assert((count + 1) * size >= 0) by (nonlinear_arith)
                requires
                    0 <= count,
                    0 <= size,
            ;
            let end: u64 = x.ft as u64 + (count + 1) * size;
            if !found || (x.ft as u64) < lo {
                lo = x.ft as u64;
            }
            if !found || end > hi {
                hi = end;
            }
            found = true;
        }
        n += 1;
    }
    if !found {
        return Ok((0, 0));
    }
    if hi - lo > u32::MAX as u64 {
        return Err(bad("IAT extent overflows"));
    }
    Ok((lo as u32, (hi - lo) as u32))
}

/// A file with some thunks rewritten, and how many there were.
pub type Unbound = Result<(Seq<u8>, int), Seq<char>>;

/// The bytes of a thunk.
pub open spec fn thunk_bytes(is64: bool, v: u64) -> Seq<u8> {
    if is64 {
        le::le64_bytes(v)
    } else {
        le::le32_bytes(v as u32)
    }
}

/// Whether a thunk at `o` would cover a byte of the code.
pub open spec fn guarded(pe: PeV, o: int) -> bool {
    pe.named(".text"@) matches Some(s) && s.rs > 0 && o < s.ro + s.rs && s.ro < o + pe.thunk()
}

/// The lookup table at `from` copied over the address table at `to`, from thunk `j` on, up to and with
/// the closing zero. A thunk that would land in the code is left as it is.
pub open spec fn copied_from(
    d: Seq<u8>,
    pe: PeV,
    from: int,
    to: int,
    j: int,
    touched: int,
) -> Unbound
    decreases MAX_THUNKS - j,
{
    if j >= MAX_THUNKS {
        Ok((d, touched))
    } else {
        match thunk_at(d, pe.is64, from + j * pe.thunk()) {
            None => Ok((d, touched)),
            Some(v) => if guarded(pe, to + j * pe.thunk()) {
                if v == 0 {
                    Ok((d, touched))
                } else {
                    copied_from(d, pe, from, to, j + 1, touched)
                }
            } else {
                match pe::put(d, to + j * pe.thunk(), thunk_bytes(pe.is64, v)) {
                    None => Err("write past end of image"@),
                    Some(n) => if v == 0 {
                        Ok((n, touched + 1))
                    } else {
                        copied_from(n, pe, from, to, j + 1, touched + 1)
                    },
                }
            },
        }
    }
}

/// The tables of a descriptor, where both lie in the file.
pub open spec fn tables_at(pe: PeV, x: Descriptor) -> Option<(int, int)> {
    if x.oft == 0 || x.ft == 0 {
        None
    } else {
        match (pe.offset(x.oft), pe.offset(x.ft)) {
            (Some(from), Some(to)) => Some((from, to)),
            _ => None,
        }
    }
}

/// The lookup tables copied over the address tables, from descriptor `idx` on.
pub open spec fn unbound_from(d: Seq<u8>, pe: PeV, ioff: int, idx: int, touched: int) -> Unbound
    decreases MAX_DESCRIPTORS - idx,
{
    if idx >= MAX_DESCRIPTORS {
        Ok((d, touched))
    } else {
        match descriptor_at(d, ioff + 20 * idx) {
            None => Ok((d, touched)),
            Some(x) => match tables_at(pe, x) {
                None => unbound_from(d, pe, ioff, idx + 1, touched),
                Some((from, to)) => match copied_from(d, pe, from, to, 0, touched) {
                    Err(m) => Err(m),
                    Ok((n, t)) => unbound_from(n, pe, ioff, idx + 1, t),
                },
            },
        }
    }
}

/// The file with every lookup table copied over its address table.
pub open spec fn unbound(d: Seq<u8>, pe: PeV) -> Unbound {
    match directory(d, pe) {
        None => Ok((d, 0)),
        Some(ioff) => unbound_from(d, pe, ioff, 0, 0),
    }
}

/// The code of a file, which unbinding leaves alone.
struct Shield {
    code: bool,
    start: u64,
    end: u64,
}

impl Shield {
    spec fn of(self, pe: PeV) -> bool {
        match pe.named(".text"@) {
            Some(s) => self.code == (s.rs > 0) && self.start == s.ro && self.end == s.ro + s.rs,
            None => !self.code,
        }
    }

    fn guards(&self, o: u64, size: u64, Ghost(pe): Ghost<PeV>) -> (r: bool)
        requires
            self.of(pe),
            size == pe.thunk(),
            o < 0x3_0000_0000,
        ensures
            r == guarded(pe, o as int),
    {
        self.code && o < self.end && self.start < o + size
    }
}

fn raise_shield(p: &Pe) -> (s: Shield)
    ensures
        s.of(p.deep_view()),
{
    match p.section(".text") {
        Some(s) => Shield { code: s.rs > 0, start: s.ro as u64, end: s.ro as u64 + s.rs as u64 },
        None => Shield { code: false, start: 0, end: 0 },
    }
}

fn copy_table(
    d: &mut Vec<u8>,
    p: &Pe,
    shield: &Shield,
    from: u64,
    to: u64,
    touched: u32,
) -> (r: Result<u32, BadImage>)
    requires
        shield.of(p.deep_view()),
        from < 0x2_0000_0000,
        to < 0x2_0000_0000,
        touched <= 0x8000_0000,
    ensures
        match r {
            Ok(t) => copied_from(
                old(d)@,
                p.deep_view(),
                from as int,
                to as int,
                0,
                touched as int,
            ) == Ok::<(Seq<u8>, int), Seq<char>>((final(d)@, t as int)) && t <= touched + MAX_THUNKS,
            Err(e) => copied_from(
                old(d)@,
                p.deep_view(),
                from as int,
                to as int,
                0,
                touched as int,
            ) == Err::<(Seq<u8>, int), Seq<char>>(e.message@),
        },
{
    let ghost pv = p.deep_view();
    let ghost whole = copied_from(d@, pv, from as int, to as int, 0, touched as int);
    let size: u64 = if p.is64 {
        8
    } else {
        4
    };
    let mut t: u32 = touched;
    let mut j: u64 = 0;
    while j < MAX_THUNKS
        invariant
            pv == p.deep_view(),
            size == pv.thunk(),
            size <= 8,
            from < 0x2_0000_0000,
            to < 0x2_0000_0000,
            j <= MAX_THUNKS,
            touched <= 0x8000_0000,
            shield.of(pv),
            touched <= t <= touched + j,
            whole == copied_from(d@, pv, from as int, to as int, j as int, t as int),
            whole == copied_from(old(d)@, pv, from as int, to as int, 0, touched as int),
        decreases MAX_THUNKS - j,
    {
        assert(j * size <= 8192 * 8) by (nonlinear_arith)
            requires
                0 <= j <= 8192,
                0 <= size <= 8,
        ;
        let v: u64 = match read_thunk(d.as_slice(), p.is64, from + j * size) {
            Some(v) => v,
            None => {
                return Ok(t);
            },
        };
        if !shield.guards(to + j * size, size, Ghost(pv)) {
            let done: bool = if p.is64 {
                write64(d, to + j * size, v)
            } else {
                write32(d, to + j * size, v as u32)
            };
            if !done {
                return Err(bad("write past end of image"));
            }
            t += 1;
        }
        if v == 0 {
            return Ok(t);
        }
        j += 1;
    }
    Ok(t)
}

/// Drop the addresses that the loader bound, by copying each lookup table over its address table. Thunks
/// that would land in the code are left as they are. Returns how many were written.
pub fn unbind_iat(d: &mut Vec<u8>, p: &Pe) -> (r: Result<u32, BadImage>)
    requires
        p.deep_view().wf(),
    ensures
        match r {
            Ok(t) => unbound(old(d)@, p.deep_view()) == Ok::<(Seq<u8>, int), Seq<char>>(
                (final(d)@, t as int),
            ),
            Err(e) => unbound(old(d)@, p.deep_view()) == Err::<(Seq<u8>, int), Seq<char>>(
                e.message@,
            ),
        },
{
    let ghost pv = p.deep_view();
    let ioff: u64 = match find_directory(d.as_slice(), p) {
        Some(o) => o,
        None => {
            return Ok(0);
        },
    };
    let ghost whole = unbound_from(d@, pv, ioff as int, 0, 0);
    let shield = raise_shield(p);
    let mut touched: u32 = 0;
    let mut idx: u64 = 0;
    while idx < MAX_DESCRIPTORS
        invariant
            pv == p.deep_view(),
            ioff < 0x2_0000_0000,
            shield.of(pv),
            idx <= MAX_DESCRIPTORS,
            touched <= idx * MAX_THUNKS,
            whole == unbound_from(d@, pv, ioff as int, idx as int, touched as int),
            whole == unbound(old(d)@, pv),
        decreases MAX_DESCRIPTORS - idx,
    {
        let x = match read_descriptor(d.as_slice(), ioff + idx * 20) {
            Some(x) => x,
            None => {
                return Ok(touched);
            },
        };
        if x.oft != 0 && x.ft != 0 {
            if let (Some(from), Some(to)) = (p.rva2off(x.oft), p.rva2off(x.ft)) {
                match copy_table(d, p, &shield, from, to, touched) {
                    Ok(t) => {
                        touched = t;
                    },
                    Err(e) => {
                        return Err(e);
                    },
                }
            }
        }
        idx += 1;
    }
    Ok(touched)
}

}
