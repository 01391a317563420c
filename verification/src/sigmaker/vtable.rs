//! Vtable-fingerprint anchored relocation: relocate a C++ virtual method across builds by matching the
//! structure of the vtable it is dispatched from.
//!
//! A recompile rewrites individual method bodies, but the ordered set of methods a vtable dispatches is
//! fixed by the class layout and survives. So a vtable is identifiable across builds by fingerprinting
//! each slot's function with a short mnemonic window and matching the table whose slots agree best under
//! an alignment; once the table is relocated, the target's aligned slot is read back to recover the
//! method's new address. Where the class refactored past that, the table is found through a constructor
//! that installs it and that a string pins.

use crate::domain::{StringAnchor, StringAnchorV};
use crate::le;
use crate::le::{tail_of, u32_at};
use crate::ordered::holds_usize;
use crate::pattern::Arch;
use crate::sigmaker::alignment;
use crate::sigmaker::alignment::{align, dice_sorted, sorted, weighted_agreement};
use crate::sigmaker::decode;
use crate::sigmaker::decode::bitness;
use crate::sigmaker::similarity::{SIM_ONE, SIM_PERCENT};
use crate::sigmaker::strings;
use crate::sigmaker::strings::{enclosing_function, make_string_anchor, resolve_string_anchor};
use crate::sigmaker::tables;
use crate::sigmaker::tables::{follow_thunk, read_run, vtables, whole_image, MIN_RUN};
use crate::sigmaker::types::{is_within, ImageInput, READ_AHEAD};
use crate::x86;
use crate::x86::Flow;
use vstd::prelude::*;

verus! {

/// A shorter vtable carries too little structure to identify uniquely.
pub const MIN_SLOTS: usize = 8;

/// Mnemonics decoded per slot to fingerprint its function.
pub const SLOT_WINDOW: usize = 16;

/// Bytes read per slot.
pub const SLOT_BYTES: usize = 128;

/// Base of the window around the reference's slot count within which a table is scored.
pub const COUNT_TOLERANCE: usize = 8;

/// The least agreement of a structural match, in percent.
pub const VT_STRUCT_MIN_AGREEMENT: u64 = 72;

/// The least lead of a structural match, in percent.
pub const VT_STRUCT_MIN_MARGIN: u64 = 10;

/// The agreement that a match through the constructor stands for, in percent.
pub const VT_GROUNDED_SCORE: u64 = 90;

/// Bytes scanned on each side of a string-anchored function for the vtable address it installs.
pub const INSTALL_WINDOW: usize = 2048;

/// How many tables that dispatch the method are probed for a constructor.
pub const MAX_PROBES: usize = 32;

/// The least agreement of the target's own slot in an installed table, in percent.
pub const MIN_SLOT_AGREEMENT: u64 = 15;

/// The recompile-stable identity of a virtual method: the per-slot fingerprint of the vtable it is
/// dispatched from, the index of its slot, and whether that slot dispatches through an adjustor thunk.
pub struct VtableAnchor {
    pub slot: usize,
    pub via_thunk: bool,
    pub fingerprint: Vec<Vec<u16>>,
    /// Per slot how many tables share its method: the weight of a slot is one over this, so that the
    /// shared base backbone cannot let a sibling class masquerade as the target's own table.
    pub shares: Vec<u32>,
    /// A string anchor for a constructor that installs this vtable, when one exists. It grounds the
    /// table across a major refactor the per-slot matcher cannot bridge.
    pub installer: Option<StringAnchor>,
}

/// A [`VtableAnchor`] by its content.
#[verifier::ext_equal]
pub struct VtableAnchorV {
    pub slot: usize,
    pub via_thunk: bool,
    pub fingerprint: Seq<Seq<u16>>,
    pub shares: Seq<u32>,
    pub installer: Option<StringAnchorV>,
}

impl DeepView for VtableAnchor {
    type V = VtableAnchorV;

    open spec fn deep_view(&self) -> VtableAnchorV {
        VtableAnchorV {
            slot: self.slot,
            via_thunk: self.via_thunk,
            fingerprint: self.fingerprint.deep_view(),
            shares: self.shares@,
            installer: self.installer.deep_view(),
        }
    }
}

/// The mnemonics of the next `left` instructions of `b`, which sits at `start`, up to and with the first
/// return.
pub open spec fn mnemonics_from(bits: u32, b: Seq<u8>, start: int, pos: int, left: nat) -> Seq<u16>
    decreases left,
{
    if left == 0 || !(0 <= pos < b.len()) {
        Seq::empty()
    } else {
        let rest = b.skip(pos);
        let ip = (start + pos) as u64;
        let h = x86::head_of(bits, rest, ip);
        if !decode::decodable(h, rest) {
            Seq::empty()
        } else if x86::flow_of(bits, rest, ip) == Flow::Return {
            seq![h.mnemonic as u16]
        } else {
            seq![h.mnemonic as u16] + mnemonics_from(bits, b, start, pos + h.len, (left - 1) as nat)
        }
    }
}

/// The fingerprint of the function at `rva`.
pub open spec fn mnemonics_at(img: &ImageInput, rva: int) -> Seq<u16> {
    mnemonics_from(
        decode::mode(img.arch),
        img.bytes(img.base + rva, SLOT_BYTES as nat),
        img.base + rva,
        0,
        SLOT_WINDOW as nat,
    )
}

/// The first instruction mnemonics of the function at `rva`, the fingerprint of one slot.
pub fn slot_mnemonics(img: &ImageInput, rva: usize) -> (out: Vec<u16>)
    requires
        img.reaches(rva as int),
    ensures
        out@ == mnemonics_at(img, rva as int),
{
    let bits: u32 = bitness(img.arch);
    let start: usize = img.base + rva;
    let b = img.read(start, SLOT_BYTES);
    let mut out: Vec<u16> = Vec::new();
    let mut pos: usize = 0;
    let mut left: usize = SLOT_WINDOW;
    let ghost all = mnemonics_at(img, rva as int);
    assert(out@ + all =~= all);
    while left > 0 && pos < b.len()
        invariant
            bits == decode::mode(img.arch),
            x86::is_mode(bits),
            start + b@.len() <= usize::MAX,
            pos <= b@.len(),
            all == mnemonics_at(img, rva as int),
            all == out@ + mnemonics_from(bits, b@, start as int, pos as int, left as nat),
        decreases left,
    {
        let rest = tail_of(b.as_slice(), pos);
        let ip: u64 = (start + pos) as u64;
        let h = x86::head(bits, rest, ip);
        if h.invalid || h.len == 0 || h.len > rest.len() {
            assert(out@ =~= all);
            return out;
        }
        let ghost before = out@;
        let ghost more = mnemonics_from(bits, b@, start as int, pos + h.len, (left - 1) as nat);
        let m: u16 = h.mnemonic as u16;
        out.push(m);
        if x86::flow(bits, rest, ip) == Flow::Return {
            assert(out@ =~= before + seq![m]);
            return out;
        }
        assert(out@ + more =~= before + (seq![m] + more));
        pos += h.len;
        left -= 1;
    }
    assert(out@ =~= all);
    out
}

/// The fingerprints of the slots.
pub open spec fn slot_prints(img: &ImageInput, slots: Seq<usize>) -> Seq<Seq<u16>> {
    Seq::new(slots.len(), |i: int| mnemonics_at(img, slots[i] as int))
}

/// Every fingerprint in ascending order.
pub open spec fn sorted_prints(fp: Seq<Seq<u16>>) -> Seq<Seq<u16>> {
    Seq::new(fp.len(), |i: int| alignment::ascending_of(fp[i]))
}

fn fingerprint(img: &ImageInput, slots: &Vec<usize>) -> (fp: Vec<Vec<u16>>)
    requires
        strings::all_within_reach(img, slots@),
    ensures
        fp.deep_view() == slot_prints(img, slots@),
        fp@.len() == slots@.len(),
{
    let mut fp: Vec<Vec<u16>> = Vec::new();
    let ghost all = slot_prints(img, slots@);
    let mut i: usize = 0;
    assert(fp.deep_view() =~= all.take(0));
    while i < slots.len()
        invariant
            strings::all_within_reach(img, slots@),
            all == slot_prints(img, slots@),
            i <= slots@.len(),
            fp@.len() == i,
            fp.deep_view() == all.take(i as int),
        decreases slots@.len() - i,
    {
        assert(img.reaches(slots@[i as int] as int));
        let ghost before = fp.deep_view();
        let m = slot_mnemonics(img, slots[i]);
        fp.push(m);
        i += 1;
        proof {
            assert(m.deep_view() =~= m@);
            assert(fp.deep_view() =~= before.push(m@));
            assert(fp.deep_view() =~= all.take(i as int));
        }
    }
    assert(all.take(i as int) =~= all);
    fp
}

fn sort_prints(fp: &Vec<Vec<u16>>) -> (out: Vec<Vec<u16>>)
    ensures
        out.deep_view() == sorted_prints(fp.deep_view()),
        out@.len() == fp@.len(),
        alignment::all_in_order(out.deep_view()),
{
    let mut out: Vec<Vec<u16>> = Vec::new();
    let ghost all = sorted_prints(fp.deep_view());
    let mut i: usize = 0;
    assert(out.deep_view() =~= all.take(0));
    while i < fp.len()
        invariant
            all == sorted_prints(fp.deep_view()),
            i <= fp@.len(),
            out@.len() == i,
            out.deep_view() == all.take(i as int),
        decreases fp@.len() - i,
    {
        let ghost before = out.deep_view();
        assert(fp.deep_view()[i as int] =~= fp@[i as int]@);
        let m = sorted(fp[i].as_slice());
        out.push(m);
        i += 1;
        proof {
            assert(m.deep_view() =~= m@);
            assert(out.deep_view() =~= before.push(m@));
            assert(out.deep_view() =~= all.take(i as int));
        }
    }
    assert(all.take(i as int) =~= all);
    proof {
        assert forall|k: int| 0 <= k < all.len() implies alignment::in_order(#[trigger] all[k]) by {
            alignment::ascending_keeps_content(fp.deep_view()[k]);
        }
    }
    out
}

/// Whether `vt_abs` stands within reach of the function.
pub open spec fn near(buf: Seq<u8>, f: int, vt_abs: u32) -> bool {
    exists|i: int|
        f - INSTALL_WINDOW <= i <= f + INSTALL_WINDOW && 0 <= i && i + 4 <= buf.len()
            && #[trigger] le::le32(buf, i) == vt_abs
}

/// Whether the vtable address `vt_abs` appears within [`INSTALL_WINDOW`] of `f`.
pub fn window_has_vtable(buf: &[u8], f: usize, vt_abs: u32) -> (r: bool)
    requires
        f + INSTALL_WINDOW <= usize::MAX,
    ensures
        r == near(buf@, f as int, vt_abs),
{
    let mut i: usize = if f < INSTALL_WINDOW {
        0
    } else {
        f - INSTALL_WINDOW
    };
    let hi: usize = f + INSTALL_WINDOW;
    while i <= hi && i < buf.len() && buf.len() - i >= 4
        invariant
            hi == f + INSTALL_WINDOW,
            f - INSTALL_WINDOW <= i,
            forall|k: int|
                f - INSTALL_WINDOW <= k < i && 0 <= k ==> #[trigger] le::le32(buf@, k) != vt_abs,
        decreases buf@.len() - i,
    {
        if u32_at(buf, i) == vt_abs {
            assert(le::le32(buf@, i as int) == vt_abs);
            return true;
        }
        i += 1;
    }
    false
}

/// Whether the constructor's string anchor leads near an install of the vtable.
pub open spec fn grounds(img: &ImageInput, buf: Seq<u8>, ctor: int, vt_abs: u32) -> bool {
    match strings::string_anchor_of(img, ctor) {
        None => false,
        Some(sa) => match strings::anchored(img, sa) {
            None => false,
            Some(f) => near(buf, f as int, vt_abs),
        },
    }
}

/// The code at `i` holds the vtable's address.
pub open spec fn installs_at(img: &ImageInput, buf: Seq<u8>, vt_abs: u32, i: int) -> bool {
    le::le32(buf, i) == vt_abs && img.in_code(img.base + i)
}

/// The string anchor of the first function from `i` on that grounds the vtable.
pub open spec fn installer_from(img: &ImageInput, buf: Seq<u8>, vt_abs: u32, i: int) -> Option<
    StringAnchorV,
>
    decreases buf.len() - i,
{
    if !(0 <= i && i + 4 <= buf.len()) {
        None
    } else {
        let ctor = strings::enclosing(img, i);
        if installs_at(img, buf, vt_abs, i) && grounds(img, buf, ctor, vt_abs) {
            strings::string_anchor_of(img, ctor)
        } else {
            installer_from(img, buf, vt_abs, i + 1)
        }
    }
}

fn ground(img: &ImageInput, buf: &[u8], ctor: usize, vt_abs: u32) -> (r: Option<StringAnchor>)
    requires
        img.wf(),
        img.reaches(ctor as int),
    ensures
        match r {
            Some(sa) => grounds(img, buf@, ctor as int, vt_abs) && strings::string_anchor_of(
                img,
                ctor as int,
            ) == Some(sa.deep_view()),
            None => !grounds(img, buf@, ctor as int, vt_abs),
        },
{
    if let Some(sa) = make_string_anchor(img, ctor) {
        if let Some(f) = resolve_string_anchor(img, &sa) {
            if window_has_vtable(buf, f, vt_abs) {
                return Some(sa);
            }
        }
    }
    None
}

/// None of the functions grounds the vtable.
pub open spec fn none_ground(img: &ImageInput, buf: Seq<u8>, seen: Seq<usize>, vt_abs: u32) -> bool {
    forall|k: int| 0 <= k < seen.len() ==> !grounds(img, buf, #[trigger] seen[k] as int, vt_abs)
}

/// Find a string-anchorable function next to a site that installs the vtable at `vt_abs`. The function
/// that loads the class string and the instruction that writes the vtable can land in adjacent
/// prologue-split pieces, so the test is whether the string function's window contains the install.
#[verifier::spinoff_prover]
pub fn find_installer(img: &ImageInput, buf: &[u8], vt_abs: u32) -> (r: Option<StringAnchor>)
    requires
        img.wf(),
        img.base + buf@.len() + READ_AHEAD <= usize::MAX,
    ensures
        r.deep_view() == installer_from(img, buf@, vt_abs, 0),
{
    let mut seen: Vec<usize> = Vec::new();
    let mut i: usize = 0;
    while i < buf.len() && buf.len() - i >= 4
        invariant
            img.wf(),
            img.base + buf@.len() + READ_AHEAD <= usize::MAX,
            i <= buf@.len(),
            none_ground(img, buf@, seen@, vt_abs),
            installer_from(img, buf@, vt_abs, 0) == installer_from(img, buf@, vt_abs, i as int),
        decreases buf@.len() - i,
    {
        if u32_at(buf, i) == vt_abs && is_within(&img.code_regions, img.base + i) {
            let ctor: usize = enclosing_function(img, i);
            if holds_usize(seen.as_slice(), ctor) {
                assert(!grounds(img, buf@, ctor as int, vt_abs)) by {
                    let k = choose|k: int| 0 <= k < seen@.len() && seen@[k] == ctor;
                    assert(seen@[k] == ctor);
                }
            } else {
                let sa = ground(img, buf, ctor, vt_abs);
                if sa.is_some() {
                    return sa;
                }
                seen.push(ctor);
            }
        }
        i += 1;
    }
    None
}

/// A table found near a constructor, the target's slot in it, and how well it matches.
#[verifier::ext_equal]
pub struct InstalledV {
    pub slots: Seq<usize>,
    pub slot: usize,
    pub score: int,
}

/// The table that the address at `i` leads to, if the target's slot relocates into it: that some slots
/// match is not enough, a neighbour can share the backbone and lack the target method.
pub open spec fn installed_at(
    img: &ImageInput,
    buf: Seq<u8>,
    i: int,
    r: Seq<Seq<u16>>,
    shares: Seq<u32>,
    slot: int,
) -> Option<InstalledV> {
    let v = le::le32(buf, i);
    let slots = tables::run_from(img, buf, v - img.base, 4);
    let c = sorted_prints(slot_prints(img, slots));
    let mapping = alignment::aligned(r, c);
    if v > usize::MAX || v < img.base || slots.len() < MIN_RUN || slot >= mapping.len() {
        None
    } else {
        match mapping[slot] {
            None => None,
            Some(cs) => {
                let d = alignment::slot_dice(r[slot], c[cs as int]);
                if d < MIN_SLOT_AGREEMENT * SIM_PERCENT {
                    None
                } else {
                    Some(
                        InstalledV {
                            slots,
                            slot: cs,
                            score: d + alignment::weighted_mean(r, c, mapping, shares),
                        },
                    )
                }
            },
        }
    }
}

/// The best of the tables that the addresses from `lo` to before `n` lead to, the earliest among equals.
pub open spec fn installed_before(
    img: &ImageInput,
    buf: Seq<u8>,
    lo: int,
    n: int,
    r: Seq<Seq<u16>>,
    shares: Seq<u32>,
    slot: int,
) -> Option<InstalledV>
    decreases n - lo,
{
    if n <= lo {
        None
    } else {
        let before = installed_before(img, buf, lo, n - 1, r, shares, slot);
        match installed_at(img, buf, n - 1, r, shares, slot) {
            None => before,
            Some(x) => if before is None || x.score > before->0.score {
                Some(x)
            } else {
                before
            },
        }
    }
}

/// Where the window around a function starts.
pub open spec fn window_start(f: int) -> int {
    if f < INSTALL_WINDOW {
        0
    } else {
        f - INSTALL_WINDOW
    }
}

/// Where the window around a function ends.
pub open spec fn window_end(buf: Seq<u8>, f: int) -> int {
    if f + INSTALL_WINDOW < buf.len() - 4 {
        f + INSTALL_WINDOW + 1
    } else {
        buf.len() - 3
    }
}

/// The vtable that a string-anchored function installs.
pub open spec fn installed_near(
    img: &ImageInput,
    buf: Seq<u8>,
    f: int,
    r: Seq<Seq<u16>>,
    shares: Seq<u32>,
    slot: int,
) -> Option<InstalledV> {
    installed_before(img, buf, window_start(f), window_end(buf, f), r, shares, slot)
}

/// The vtable a string-anchored function installs: scan within [`INSTALL_WINDOW`] of `anchor_fn` for a
/// value that starts a run of code pointers, and return the run that best matches `ref_fp` with the
/// target's slot in it.
pub fn installed_vtable(
    img: &ImageInput,
    buf: &[u8],
    anchor_fn: usize,
    ref_fp: &Vec<Vec<u16>>,
    shares: &Vec<u32>,
    slot_idx: usize,
) -> (r: Option<(Vec<usize>, usize)>)
    requires
        img.wf(),
        anchor_fn + INSTALL_WINDOW < usize::MAX,
        alignment::all_in_order(ref_fp.deep_view()),
    ensures
        ({
            let found = installed_near(
                img,
                buf@,
                anchor_fn as int,
                ref_fp.deep_view(),
                shares@,
                slot_idx as int,
            );
            match r {
                Some((slots, slot)) => found is Some && found->0.slots == slots@ && found->0.slot
                    == slot,
                None => found is None,
            }
        }),
        r matches Some((slots, slot)) ==> slot < slots@.len() && strings::all_within_reach(
            img,
            slots@,
        ),
{
    let ghost rv = ref_fp.deep_view();
    let lo: usize = if anchor_fn < INSTALL_WINDOW {
        0
    } else {
        anchor_fn - INSTALL_WINDOW
    };
    if buf.len() < 4 {
        return None;
    }
    let end: usize = if anchor_fn + INSTALL_WINDOW < buf.len() - 4 {
        anchor_fn + INSTALL_WINDOW + 1
    } else {
        buf.len() - 3
    };
    let mut best: Option<(Vec<usize>, usize, u64)> = None;
    let mut i: usize = lo;
    while i < end
        invariant
            img.wf(),
            rv == ref_fp.deep_view(),
            alignment::all_in_order(rv),
            lo <= i,
            i <= end || end < lo && i == lo,
            end + 3 <= buf@.len(),
            match best {
                Some((slots, slot, score)) => installed_before(
                    img,
                    buf@,
                    lo as int,
                    i as int,
                    rv,
                    shares@,
                    slot_idx as int,
                ) == Some(InstalledV { slots: slots@, slot, score: score as int }) && slot
                    < slots@.len() && strings::all_within_reach(img, slots@),
                None => installed_before(
                    img,
                    buf@,
                    lo as int,
                    i as int,
                    rv,
                    shares@,
                    slot_idx as int,
                ) is None,
            },
        decreases end - i,
    {
        let v: u64 = u32_at(buf, i) as u64;
        if v <= usize::MAX as u64 && v as usize >= img.base {
            let slots = read_run(img, buf, v as usize - img.base, 4);
            if slots.len() >= MIN_RUN {
                let prints = fingerprint(img, &slots);
                let cand_fp = sort_prints(&prints);
                let mapping = align(ref_fp, &cand_fp);
                if slot_idx < mapping.len() {
                    if let Some(cs) = mapping[slot_idx] {
                        let ghost cv = cand_fp.deep_view();
                        proof {
                            assert(mapping@[slot_idx as int] is Some);
                            assert(rv[slot_idx as int] =~= ref_fp@[slot_idx as int]@);
                            assert(cv[cs as int] =~= cand_fp@[cs as int]@);
                            assert(alignment::in_order(rv[slot_idx as int]));
                            assert(alignment::in_order(cv[cs as int]));
                        }
                        let d: u64 = dice_sorted(
                            ref_fp[slot_idx].as_slice(),
                            cand_fp[cs].as_slice(),
                        );
                        if d >= MIN_SLOT_AGREEMENT * SIM_PERCENT {
                            let score: u64 = d + weighted_agreement(
                                ref_fp,
                                &cand_fp,
                                &mapping,
                                shares,
                            );
                            let wins: bool = match &best {
                                None => true,
                                Some((_, _, s)) => score > *s,
                            };
                            if wins {
                                best = Some((slots, cs, score));
                            }
                        }
                    }
                }
            }
        }
        i += 1;
    }
    match best {
        Some((slots, slot, _)) => Some((slots, slot)),
        None => None,
    }
}

/// The method that the anchor's constructor leads to.
pub open spec fn grounded_method(img: &ImageInput, a: VtableAnchorV) -> Option<usize> {
    match a.installer {
        None => None,
        Some(sa) => match strings::anchored(img, sa) {
            None => None,
            Some(f) => match installed_near(
                img,
                tables::image_bytes(img),
                f as int,
                sorted_prints(a.fingerprint),
                a.shares,
                a.slot as int,
            ) {
                None => None,
                Some(found) => Some(
                    tables::thunk_end(img, found.slots[found.slot as int] as int).0,
                ),
            },
        },
    }
}

/// Relocate the target through its constructor: resolve the installer's string to the constructor here,
/// read the vtable address it writes, then align and read the target slot.
pub fn resolve_via_installer(img: &ImageInput, anchor: &VtableAnchor) -> (r: Option<usize>)
    requires
        img.wf(),
    ensures
        r == grounded_method(img, anchor.deep_view()),
        r matches Some(f) ==> img.reaches(f as int),
{
    let f: usize = match &anchor.installer {
        None => {
            return None;
        },
        Some(sa) => match resolve_string_anchor(img, sa) {
            None => {
                return None;
            },
            Some(f) => f,
        },
    };
    let buf = whole_image(img);
    let ref_fp = sort_prints(&anchor.fingerprint);
    match installed_vtable(img, buf.as_slice(), f, &ref_fp, &anchor.shares, anchor.slot) {
        None => None,
        Some((slots, slot)) => {
            assert(img.reaches(slots@[slot as int] as int));
            let (method, _) = follow_thunk(img, slots[slot]);
            Some(method)
        },
    }
}

/// The first slot from `i` on that dispatches the method, and whether through a thunk.
pub open spec fn dispatching_slot(img: &ImageInput, slots: Seq<usize>, target: usize, i: int) -> Option<
    (usize, bool),
>
    decreases slots.len() - i,
{
    if !(0 <= i < slots.len()) {
        None
    } else {
        let (method, via) = tables::thunk_end(img, slots[i] as int);
        if method == target {
            Some((i as usize, via))
        } else {
            dispatching_slot(img, slots, target, i + 1)
        }
    }
}

/// A table that dispatches the method.
#[derive(Clone, Copy, PartialEq, Eq, Structural)]
pub struct Dispatch {
    pub slots: usize,
    pub start: usize,
    pub slot: usize,
    pub via: bool,
    pub table: usize,
}

/// The largest table first, a direct slot before a thunked one, the lowest address to break ties.
pub open spec fn dispatch_before(a: Dispatch, b: Dispatch) -> bool {
    a.slots > b.slots || (a.slots == b.slots && ((!a.via && b.via) || (a.via == b.via && a.start
        < b.start)))
}

/// `x` behind all that do not come after it.
pub open spec fn dispatch_in(s: Seq<Dispatch>, x: Dispatch) -> Seq<Dispatch>
    decreases s.len(),
{
    if s.len() == 0 || !dispatch_before(x, s.last()) {
        s.push(x)
    } else {
        dispatch_in(s.drop_last(), x).push(s.last())
    }
}

/// The tables among the first `n` that are long enough and dispatch the method, in order.
pub open spec fn dispatches(img: &ImageInput, vts: Seq<tables::TableV>, target: usize, n: int) -> Seq<
    Dispatch,
>
    decreases n,
{
    if n <= 0 {
        Seq::empty()
    } else {
        let before = dispatches(img, vts, target, n - 1);
        let (start, slots) = vts[n - 1];
        if slots.len() < MIN_SLOTS {
            before
        } else {
            match dispatching_slot(img, slots, target, 0) {
                None => before,
                Some((slot, via)) => dispatch_in(
                    before,
                    Dispatch {
                        slots: slots.len() as usize,
                        start,
                        slot,
                        via,
                        table: (n - 1) as usize,
                    },
                ),
            }
        }
    }
}

/// The string anchor of a constructor of the table; on x64 none is looked for, as its references are
/// not absolute.
pub open spec fn table_installer(img: &ImageInput, buf: Seq<u8>, start: usize) -> Option<
    StringAnchorV,
> {
    if img.arch == Arch::X86 {
        installer_from(img, buf, (img.base + start) as u32, 0)
    } else {
        None
    }
}

/// The first of the tables from `k` on, within the bound, whose constructor a string pins.
pub open spec fn grounded_from(img: &ImageInput, buf: Seq<u8>, ds: Seq<Dispatch>, k: int) -> Option<
    int,
>
    decreases MAX_PROBES - k,
{
    if !(0 <= k < ds.len() && k < MAX_PROBES) {
        None
    } else if table_installer(img, buf, ds[k].start) is Some {
        Some(k)
    } else {
        grounded_from(img, buf, ds, k + 1)
    }
}

/// How many of the first `n` tables have the function in a slot.
pub open spec fn share_count(vts: Seq<tables::TableV>, f: usize, n: int) -> nat
    decreases n,
{
    if n <= 0 {
        0
    } else {
        share_count(vts, f, n - 1) + if vts[n - 1].1.contains(f) {
            1nat
        } else {
            0nat
        }
    }
}

/// How many tables share the function, as far as it can be counted.
pub open spec fn shares_of(vts: Seq<tables::TableV>, f: usize) -> u32 {
    let n = share_count(vts, f, vts.len() as int);
    if n <= u32::MAX {
        n as u32
    } else {
        u32::MAX
    }
}

/// The anchor of the method: the first table, in order, whose constructor a string pins, or else the
/// first table.
pub open spec fn vtable_anchor_of(img: &ImageInput, target: usize) -> Option<VtableAnchorV> {
    let buf = tables::image_bytes(img);
    let vts = tables::vtables_from(img, buf, 0);
    let ds = dispatches(img, vts, target, vts.len() as int);
    if ds.len() == 0 {
        None
    } else {
        let grounded = grounded_from(img, buf, ds, 0);
        let d = match grounded {
            Some(k) => ds[k],
            None => ds[0],
        };
        let slots = vts[d.table as int].1;
        Some(
            VtableAnchorV {
                slot: d.slot,
                via_thunk: d.via,
                fingerprint: slot_prints(img, slots),
                shares: Seq::new(slots.len(), |i: int| shares_of(vts, slots[i])),
                installer: match grounded {
                    Some(k) => table_installer(img, buf, d.start),
                    None => None,
                },
            },
        )
    }
}

fn put_dispatch(v: &mut Vec<Dispatch>, x: Dispatch)
    ensures
        final(v)@ == dispatch_in(old(v)@, x),
{
    let mut i: usize = v.len();
    let ghost s = v@;
    assert(s.take(i as int) =~= s);
    assert(dispatch_in(s, x) =~= dispatch_in(s.take(i as int), x) + s.skip(i as int));
    while i > 0 && (x.slots > v[i - 1].slots || (x.slots == v[i - 1].slots && ((!x.via && v[i
        - 1].via) || (x.via == v[i - 1].via && x.start < v[i - 1].start))))
        invariant
            i <= v@.len(),
            v@ == s,
            dispatch_in(s, x) == dispatch_in(s.take(i as int), x) + s.skip(i as int),
        decreases i,
    {
        proof {
            let t = s.take(i as int);
            assert(t.drop_last() =~= s.take(i - 1));
            assert(dispatch_in(t, x) + s.skip(i as int) =~= dispatch_in(s.take(i - 1), x) + s.skip(
                i - 1,
            ));
        }
        i -= 1;
    }
    v.insert(i, x);
    assert(v@ =~= s.take(i as int).push(x) + s.skip(i as int));
}

proof fn dispatch_in_keeps(s: Seq<Dispatch>, x: Dispatch)
    ensures
        forall|k: int|
            0 <= k < dispatch_in(s, x).len() ==> (#[trigger] dispatch_in(s, x)[k]) == x
                || s.contains(dispatch_in(s, x)[k]),
        dispatch_in(s, x).len() == s.len() + 1,
    decreases s.len(),
{
    if s.len() == 0 || !dispatch_before(x, s.last()) {
        assert forall|k: int| 0 <= k < s.push(x).len() implies (#[trigger] s.push(x)[k]) == x
            || s.contains(s.push(x)[k]) by {
            if k < s.len() {
                assert(s[k] == s.push(x)[k]);
            }
        }
    } else {
        let d = s.drop_last();
        dispatch_in_keeps(d, x);
        let p = dispatch_in(d, x);
        let r = dispatch_in(s, x);
        assert forall|k: int| 0 <= k < r.len() implies (#[trigger] r[k]) == x || s.contains(r[k]) by {
            if k < p.len() {
                assert(r[k] == p[k]);
                if p[k] != x {
                    let j = choose|j: int| 0 <= j < d.len() && d[j] == p[k];
                    assert(s[j] == r[k]);
                }
            } else {
                assert(s[s.len() - 1] == r[k]);
            }
        }
    }
}

/// The tables that the dispatches name exist.
pub open spec fn tables_exist(ds: Seq<Dispatch>, vts: Seq<tables::TableV>) -> bool {
    forall|k: int|
        0 <= k < ds.len() ==> (#[trigger] ds[k]).table < vts.len() && ds[k].start
            == vts[ds[k].table as int].0
}

fn find_dispatches(img: &ImageInput, vts: &Vec<(usize, Vec<usize>)>, target: usize) -> (ds: Vec<
    Dispatch,
>)
    requires
        img.wf(),
        tables::tables_reach(img, vts.deep_view()),
    ensures
        ds@ == dispatches(img, vts.deep_view(), target, vts@.len() as int),
        tables_exist(ds@, vts.deep_view()),
{
    let ghost tv = vts.deep_view();
    let mut ds: Vec<Dispatch> = Vec::new();
    let mut n: usize = 0;
    while n < vts.len()
        invariant
            img.wf(),
            tv == vts.deep_view(),
            tables::tables_reach(img, tv),
            n <= vts@.len(),
            ds@ == dispatches(img, tv, target, n as int),
            tables_exist(ds@, tv),
        decreases vts@.len() - n,
    {
        let start: usize = vts[n].0;
        let slots = &vts[n].1;
        proof {
            assert(tv[n as int] == (vts@[n as int].0, slots.deep_view()));
            assert(slots.deep_view() =~= slots@);
            assert(strings::all_within_reach(img, tv[n as int].1));
        }
        if slots.len() >= MIN_SLOTS {
            let mut found: Option<(usize, bool)> = None;
            let mut i: usize = 0;
            while i < slots.len() && found.is_none()
                invariant
                    img.wf(),
                    strings::all_within_reach(img, slots@),
                    i <= slots@.len(),
                    found is None ==> dispatching_slot(img, slots@, target, 0) == dispatching_slot(
                        img,
                        slots@,
                        target,
                        i as int,
                    ),
                    found is Some ==> dispatching_slot(img, slots@, target, 0) == found,
                decreases slots@.len() - i + (if found is None { 1int } else { 0int }),
            {
                assert(img.reaches(slots@[i as int] as int));
                let (method, via) = follow_thunk(img, slots[i]);
                if method == target {
                    found = Some((i, via));
                } else {
                    i += 1;
                }
            }
            if let Some((slot, via)) = found {
                let x = Dispatch { slots: slots.len(), start, slot, via, table: n };
                let ghost before = ds@;
                put_dispatch(&mut ds, x);
                proof {
                    dispatch_in_keeps(before, x);
                    assert forall|k: int| 0 <= k < ds@.len() implies (#[trigger] ds@[k]).table
                        < tv.len() && ds@[k].start == tv[ds@[k].table as int].0 by {
                        if ds@[k] != x {
                            let j = choose|j: int| 0 <= j < before.len() && before[j] == ds@[k];
                            assert(before[j].table < tv.len());
                        }
                    }
                }
            }
        }
        n += 1;
    }
    ds
}

fn count_shares(vts: &Vec<(usize, Vec<usize>)>, f: usize) -> (r: u32)
    ensures
        r == shares_of(vts.deep_view(), f),
{
    let ghost tv = vts.deep_view();
    let mut r: u32 = 0;
    let mut n: usize = 0;
    while n < vts.len()
        invariant
            tv == vts.deep_view(),
            n <= vts@.len(),
            r == (if share_count(tv, f, n as int) <= u32::MAX {
                share_count(tv, f, n as int)
            } else {
                u32::MAX as nat
            }),
        decreases vts@.len() - n,
    {
        proof {
            assert(tv[n as int] == (vts@[n as int].0, vts@[n as int].1.deep_view()));
            assert(vts@[n as int].1.deep_view() =~= vts@[n as int].1@);
        }
        if holds_usize(vts[n].1.as_slice(), f) {
            r = r.saturating_add(1);
        }
        n += 1;
    }
    r
}

/// Build a vtable anchor for the method whose entry is `target_entry`: find the vtable that dispatches it
/// (directly or through a thunk) and capture that table's per-slot fingerprint and the target's slot.
/// Among several tables a table whose constructor pins itself by a string is preferred, since that
/// grounds it across a refactor the per-slot matcher cannot bridge; otherwise the largest is taken.
/// `None` if no table of at least [`MIN_SLOTS`] dispatches the method.
pub fn make_vtable_anchor(img: &ImageInput, target_entry: usize) -> (r: Option<VtableAnchor>)
    requires
        img.wf(),
    ensures
        r.deep_view() == vtable_anchor_of(img, target_entry),
{
    let buf = whole_image(img);
    let vts = vtables(img, buf.as_slice());
    let ghost tv = vts.deep_view();
    let ds = find_dispatches(img, &vts, target_entry);
    if ds.len() == 0 {
        return None;
    }
    let mut grounded: Option<usize> = None;
    let mut installer: Option<StringAnchor> = None;
    let mut k: usize = 0;
    while k < ds.len() && k < MAX_PROBES && grounded.is_none()
        invariant
            img.wf(),
            buf@ == tables::image_bytes(img),
            buf@.len() <= img.size,
            tables_exist(ds@, tv),
            forall|k: int| 0 <= k < tv.len() ==> (#[trigger] tv[k]).0 < buf@.len(),
            k <= ds@.len(),
            match grounded {
                None => grounded_from(img, buf@, ds@, 0) == grounded_from(img, buf@, ds@, k as int)
                    && installer is None,
                Some(g) => g < ds@.len() && grounded_from(img, buf@, ds@, 0) == Some(g as int)
                    && installer.deep_view() == table_installer(img, buf@, ds@[g as int].start),
            },
        decreases MAX_PROBES - k,
    {
        if img.arch == Arch::X86 {
            assert(ds@[k as int].table < tv.len());
            let vt_abs: u32 = (img.base + ds[k].start) as u32;
            let found = find_installer(img, buf.as_slice(), vt_abs);
            if found.is_some() {
                grounded = Some(k);
                installer = found;
            }
        }
        k += 1;
    }
    let d = match grounded {
        Some(g) => ds[g],
        None => ds[0],
    };
    proof {
        let g = match grounded {
            Some(g) => g as int,
            None => 0,
        };
        assert(ds@[g].table < tv.len());
        assert(tv[d.table as int] == (
            vts@[d.table as int].0,
            vts@[d.table as int].1.deep_view(),
        ));
        assert(vts@[d.table as int].1.deep_view() =~= vts@[d.table as int].1@);
        assert(strings::all_within_reach(img, tv[d.table as int].1));
    }
    let slots = &vts[d.table].1;
    let prints = fingerprint(img, slots);
    let mut shares: Vec<u32> = Vec::new();
    let mut i: usize = 0;
    let ghost all = Seq::new(slots@.len(), |i: int| shares_of(tv, slots@[i]));
    while i < slots.len()
        invariant
            tv == vts.deep_view(),
            all == Seq::new(slots@.len(), |i: int| shares_of(tv, slots@[i])),
            i <= slots@.len(),
            shares@ == all.take(i as int),
        decreases slots@.len() - i,
    {
        shares.push(count_shares(&vts, slots[i]));
        i += 1;
        assert(shares@ =~= all.take(i as int));
    }
    assert(shares@ =~= all);
    Some(
        VtableAnchor {
            slot: d.slot,
            via_thunk: d.via,
            fingerprint: prints,
            shares,
            installer,
        },
    )
}

/// Whether a table is close enough in size to be scored.
pub open spec fn comparable(slots: int, rl: int) -> bool {
    let drift = rl / 4 + COUNT_TOLERANCE;
    slots > 0 && slots + drift >= rl && slots <= rl + drift
}

/// The best matching table so far, its agreement and the next best.
#[verifier::ext_equal]
pub struct TableMatch {
    pub best: Option<int>,
    pub score: int,
    pub second: int,
}

/// How well a table matches the reference.
pub open spec fn table_score(
    img: &ImageInput,
    slots: Seq<usize>,
    r: Seq<Seq<u16>>,
    shares: Seq<u32>,
) -> int {
    let c = sorted_prints(slot_prints(img, slots));
    alignment::weighted_mean(r, c, alignment::aligned(r, c), shares)
}

/// The best match among the first `n` tables.
pub open spec fn table_match(
    img: &ImageInput,
    vts: Seq<tables::TableV>,
    r: Seq<Seq<u16>>,
    shares: Seq<u32>,
    n: int,
) -> TableMatch
    decreases n,
{
    if n <= 0 {
        TableMatch { best: None, score: 0, second: 0 }
    } else {
        let m = table_match(img, vts, r, shares, n - 1);
        let slots = vts[n - 1].1;
        let s = table_score(img, slots, r, shares);
        if !comparable(slots.len() as int, r.len() as int) {
            m
        } else if s > m.score {
            TableMatch { best: Some(n - 1), score: s, second: m.score }
        } else if s > m.second {
            TableMatch { second: s, ..m }
        } else {
            m
        }
    }
}

/// The target method's counterpart in the best matching table, its agreement and the next best.
pub open spec fn structural_match(img: &ImageInput, a: VtableAnchorV) -> Option<(usize, u64, u64)> {
    let vts = tables::vtables_from(img, tables::image_bytes(img), 0);
    let r = sorted_prints(a.fingerprint);
    let m = table_match(img, vts, r, a.shares, vts.len() as int);
    match m.best {
        None => None,
        Some(k) => {
            let slots = vts[k].1;
            let mapping = alignment::aligned(r, sorted_prints(slot_prints(img, slots)));
            if a.slot >= mapping.len() {
                None
            } else {
                match mapping[a.slot as int] {
                    None => None,
                    Some(cs) => Some(
                        (
                            tables::thunk_end(img, slots[cs as int] as int).0,
                            m.score as u64,
                            m.second as u64,
                        ),
                    ),
                }
            }
        },
    }
}

/// A structural match that is confident and ahead.
pub open spec fn confident(m: Option<(usize, u64, u64)>) -> bool {
    m matches Some((f, a, runner)) && a >= VT_STRUCT_MIN_AGREEMENT * SIM_PERCENT && a - runner
        >= VT_STRUCT_MIN_MARGIN * SIM_PERCENT
}

/// Where a vtable anchor leads: a confident structural match, or what its constructor leads to, or the
/// structural match such as it is.
pub open spec fn vtable_anchored(img: &ImageInput, a: VtableAnchorV) -> Option<(usize, u64, u64)> {
    let m = structural_match(img, a);
    if confident(m) {
        m
    } else {
        match grounded_method(img, a) {
            Some(f) => Some((f, (VT_GROUNDED_SCORE * SIM_PERCENT) as u64, 0)),
            None => m,
        }
    }
}

fn match_tables(img: &ImageInput, anchor: &VtableAnchor) -> (r: Option<(usize, u64, u64)>)
    requires
        img.wf(),
    ensures
        r == structural_match(img, anchor.deep_view()),
        r matches Some((f, a, runner)) ==> img.reaches(f as int) && runner <= a <= SIM_ONE,
{
    let buf = whole_image(img);
    let vts = vtables(img, buf.as_slice());
    let ghost tv = vts.deep_view();
    let ref_fp = sort_prints(&anchor.fingerprint);
    let ghost rv = ref_fp.deep_view();
    let rl: usize = ref_fp.len();
    let drift: u128 = rl as u128 / 4 + COUNT_TOLERANCE as u128;
    let mut score: u64 = 0;
    let mut second: u64 = 0;
    let mut best: Option<(usize, Option<usize>)> = None;
    let mut n: usize = 0;
    while n < vts.len()
        invariant
            img.wf(),
            tv == vts.deep_view(),
            tables::tables_reach(img, tv),
            rv == ref_fp.deep_view(),
            rl == rv.len(),
            alignment::all_in_order(rv),
            drift == rl / 4 + COUNT_TOLERANCE,
            second <= score <= SIM_ONE,
            n <= vts@.len(),
            table_match(img, tv, rv, anchor.shares@, n as int) == (TableMatch {
                best: match best {
                    Some((k, _)) => Some(k as int),
                    None => None,
                },
                score: score as int,
                second: second as int,
            }),
            best matches Some((k, cs)) ==> k < n && ({
                let mapping = alignment::aligned(rv, sorted_prints(slot_prints(img, tv[k as int].1)));
                &&& cs == (if anchor.slot < mapping.len() {
                    mapping[anchor.slot as int]
                } else {
                    None
                })
                &&& cs matches Some(c) ==> c < tv[k as int].1.len()
            }),
        decreases vts@.len() - n,
    {
        let slots = &vts[n].1;
        proof {
            assert(tv[n as int] == (vts@[n as int].0, slots.deep_view()));
            assert(slots.deep_view() =~= slots@);
            assert(strings::all_within_reach(img, tv[n as int].1));
        }
        let len: u128 = slots.len() as u128;
        if len > 0 && len + drift >= rl as u128 && len <= rl as u128 + drift {
            let prints = fingerprint(img, slots);
            let cand_fp = sort_prints(&prints);
            let mapping = align(&ref_fp, &cand_fp);
            let s: u64 = weighted_agreement(&ref_fp, &cand_fp, &mapping, &anchor.shares);
            assert(s == table_score(img, slots@, rv, anchor.shares@));
            if s > score {
                second = score;
                score = s;
                let cs: Option<usize> = if anchor.slot < mapping.len() {
                    mapping[anchor.slot]
                } else {
                    None
                };
                best = Some((n, cs));
            } else if s > second {
                second = s;
            }
        }
        n += 1;
    }
    match best {
        None => None,
        Some((k, cs)) => match cs {
            None => None,
            Some(c) => {
                proof {
                    assert(tv[k as int] == (vts@[k as int].0, vts@[k as int].1.deep_view()));
                    assert(vts@[k as int].1.deep_view() =~= vts@[k as int].1@);
                    assert(strings::all_within_reach(img, tv[k as int].1));
                    assert(img.reaches(vts@[k as int].1@[c as int] as int));
                }
                let (method, _) = follow_thunk(img, vts[k].1[c]);
                Some((method, score, second))
            },
        },
    }
}

/// Relocate a vtable anchor into `img`: find the table whose slot fingerprints best align to the
/// anchor's, then read the aligned target slot and follow any thunk to the method's address here. Where
/// that match is weak or ambiguous the class refactored past the per-slot matcher, and the table is
/// found through its constructor's string instead. Returns the relocated method, the table's agreement
/// and the runner-up's, so that an ambiguous match can be rejected.
pub fn resolve_vtable_anchor(img: &ImageInput, anchor: &VtableAnchor) -> (r: Option<
    (usize, u64, u64),
>)
    requires
        img.wf(),
    ensures
        r == vtable_anchored(img, anchor.deep_view()),
        r matches Some((f, a, runner)) ==> img.reaches(f as int) && runner <= a <= SIM_ONE,
{
    let structural = match_tables(img, anchor);
    if let Some((_, a, runner)) = structural {
        if a >= VT_STRUCT_MIN_AGREEMENT * SIM_PERCENT && a - runner >= VT_STRUCT_MIN_MARGIN
            * SIM_PERCENT {
            return structural;
        }
    }
    if let Some(method) = resolve_via_installer(img, anchor) {
        return Some((method, VT_GROUNDED_SCORE * SIM_PERCENT, 0));
    }
    structural
}

}
