//! Caller-relative anchoring: relocate a function that has no recompile-stable handle of its own by
//! anchoring a caller that does, then re-finding the target among that caller's callees by identity.
//!
//! A function with no referenced string and no distinctive import set can still be called by a function
//! that does refer to a stable string. That caller is locatable in any build by its string, and the
//! target is the callee of it whose identity matches the reference target's. Matching by identity, not
//! by call index, survives the call being reordered across a recompile, and a uniqueness margin rejects
//! a caller whose callees are too alike to tell apart. x86 only.

use crate::domain::{StringAnchor, StringAnchorV};
use crate::le;
use crate::le::{i32_at, tail_of};
use crate::ordered;
use crate::ordered::insert_usize;
use crate::pattern::Arch;
use crate::sigmaker::decode;
use crate::sigmaker::decode::bitness;
use crate::sigmaker::identity;
use crate::sigmaker::identity::{fn_identity, FnIdentity, IdentityV};
use crate::sigmaker::similarity::{SIM_ONE, SIM_PERCENT};
use crate::sigmaker::strings;
use crate::sigmaker::strings::{enclosing_function, make_string_anchor, resolve_string_anchor};
use crate::sigmaker::types::{is_within, ImageInput};
use crate::x86;
use crate::x86::Flow;
use vstd::prelude::*;

verus! {

/// How many instructions of a function are scanned.
pub const SCAN_INSTRS: usize = 400;

/// How many bytes of a function are scanned.
pub const SCAN_BYTES: usize = 3200;

/// The target must match one of a caller's callees this well, in percent.
pub const CALLER_MIN_SIM: u64 = 50;

/// And it must be ahead of the next callee by this much, in percent.
pub const CALLER_MIN_MARGIN: u64 = 12;

/// A string-anchorable caller of the target plus the target's own identity: enough to re-find the
/// target as that caller's matching callee in another build.
pub struct CallerAnchor {
    pub caller: StringAnchor,
    pub target: FnIdentity,
}

/// A [`CallerAnchor`] by its content.
#[verifier::ext_equal]
pub struct CallerAnchorV {
    pub caller: StringAnchorV,
    pub target: IdentityV,
}

impl DeepView for CallerAnchor {
    type V = CallerAnchorV;

    open spec fn deep_view(&self) -> CallerAnchorV {
        CallerAnchorV { caller: self.caller.deep_view(), target: self.target.deep_view() }
    }
}

/// The near calls into code among the next `left` instructions of `b`, which sits at `start`, up to
/// the first return.
pub open spec fn callees_from(img: &ImageInput, b: Seq<u8>, start: int, pos: int, left: nat) -> Seq<
    usize,
>
    decreases left,
{
    if left == 0 || !(0 <= pos < b.len()) {
        Seq::empty()
    } else {
        let bits = decode::mode(img.arch);
        let rest = b.skip(pos);
        let ip = (start + pos) as u64;
        let h = x86::head_of(bits, rest, ip);
        let f = x86::flow_of(bits, rest, ip);
        let target = h.target as usize;
        if !decode::decodable(h, rest) {
            Seq::empty()
        } else {
            let here = if decode::is_near_call(h, f) && img.in_code(target as int) {
                seq![(target - img.base) as usize]
            } else {
                Seq::empty()
            };
            if f == Flow::Return {
                here
            } else {
                here + callees_from(img, b, start, pos + h.len, (left - 1) as nat)
            }
        }
    }
}

/// The functions that the function at `rva` calls, in call order.
pub open spec fn callees_of(img: &ImageInput, rva: int) -> Seq<usize> {
    callees_from(
        img,
        img.bytes(img.base + rva, SCAN_BYTES as nat),
        img.base + rva,
        0,
        SCAN_INSTRS as nat,
    )
}

/// The functions that the function at `rva` calls, decoded to its first return.
pub fn callees(img: &ImageInput, rva: usize) -> (out: Vec<usize>)
    requires
        img.wf(),
        img.reaches(rva as int),
    ensures
        out@ == callees_of(img, rva as int),
        strings::all_within_reach(img, out@),
{
    let bits: u32 = bitness(img.arch);
    let start: usize = img.base + rva;
    let b = img.read(start, SCAN_BYTES);
    let mut out: Vec<usize> = Vec::new();
    let mut pos: usize = 0;
    let mut left: usize = SCAN_INSTRS;
    let ghost all = callees_of(img, rva as int);
    assert(out@ + all =~= all);
    while left > 0 && pos < b.len()
        invariant
            img.wf(),
            bits == decode::mode(img.arch),
            x86::is_mode(bits),
            start + b@.len() <= usize::MAX,
            pos <= b@.len(),
            all == callees_of(img, rva as int),
            all == out@ + callees_from(img, b@, start as int, pos as int, left as nat),
            strings::all_within_reach(img, out@),
        decreases left,
    {
        let rest = tail_of(b.as_slice(), pos);
        let ip: u64 = (start + pos) as u64;
        let h = x86::head(bits, rest, ip);
        if h.invalid || h.len == 0 || h.len > rest.len() {
            assert(out@ =~= all);
            return out;
        }
        let f = x86::flow(bits, rest, ip);
        let ghost before = out@;
        let ghost more = callees_from(img, b@, start as int, pos + h.len, (left - 1) as nat);
        if f == Flow::Call && h.len == 5 {
            let target: usize = h.target as usize;
            if is_within(&img.code_regions, target) {
                proof {
                    let k = choose|k: int|
                        0 <= k < img.code_regions@.len() && (#[trigger] img.code_regions@[k]).holds(
                            target as int,
                        );
                    assert(img.base <= img.code_regions@[k].base);
                }
                out.push(target - img.base);
                assert(out@ =~= before + seq![(target - img.base) as usize]);
            }
        }
        if f == Flow::Return {
            assert(out@ =~= all);
            return out;
        }
        assert(all =~= out@ + more);
        pos += h.len;
        left -= 1;
    }
    assert(out@ =~= all);
    out
}

/// Whether a relative call at offset `i` reaches `target`.
pub open spec fn calls_at(b: Seq<u8>, base: int, target: int, i: int) -> bool {
    b[i] == 0xE8 && base + i + 5 + le::signed32(le::le32(b, i + 1)) == target
}

/// The functions of `found` and those around a relative call to `target` before offset `n`.
pub open spec fn callers_before(
    img: &ImageInput,
    found: Seq<usize>,
    b: Seq<u8>,
    base: int,
    target: int,
    n: int,
) -> Seq<usize>
    decreases n,
{
    if n <= 0 {
        found
    } else {
        let before = callers_before(img, found, b, base, target, n - 1);
        if n + 4 <= b.len() && calls_at(b, base, target, n - 1) {
            ordered::ins(
                before,
                strings::enclosing(img, base + n - 1 - img.base) as usize,
                ordered::rising(),
            )
        } else {
            before
        }
    }
}

/// The functions with a relative call to `target` in the first `n` code regions, ascending.
pub open spec fn callers_in(img: &ImageInput, target: int, n: int) -> Seq<usize>
    decreases n,
{
    if n <= 0 {
        Seq::empty()
    } else {
        let r = img.code_regions@[n - 1];
        let b = img.bytes(r.base as int, r.size as nat);
        callers_before(
            img,
            callers_in(img, target, n - 1),
            b,
            r.base as int,
            target,
            b.len() as int,
        )
    }
}

/// The functions with a relative call to the function at `rva`.
pub open spec fn callers_to(img: &ImageInput, rva: int) -> Seq<usize> {
    callers_in(img, img.base + rva, img.code_regions@.len() as int)
}

/// Every function that contains an `E8 rel32` call to `target_rva`, ascending.
pub fn callers_of(img: &ImageInput, target_rva: usize) -> (out: Vec<usize>)
    requires
        img.wf(),
    ensures
        out@ == callers_to(img, target_rva as int),
        strings::all_within_reach(img, out@),
{
    let target: i128 = img.base as i128 + target_rva as i128;
    let mut out: Vec<usize> = Vec::new();
    let mut n: usize = 0;
    while n < img.code_regions.len()
        invariant
            img.wf(),
            target == img.base + target_rva,
            n <= img.code_regions@.len(),
            out@ == callers_in(img, target as int, n as int),
            strings::all_within_reach(img, out@),
        decreases img.code_regions@.len() - n,
    {
        let r = img.code_regions[n];
        let b = img.read(r.base, r.size);
        let ghost found = out@;
        let mut i: usize = 0;
        while i < b.len()
            invariant
                img.wf(),
                n < img.code_regions@.len(),
                r == img.code_regions@[n as int],
                b@.len() <= r.size,
                i <= b@.len(),
                out@ == callers_before(img, found, b@, r.base as int, target as int, i as int),
                strings::all_within_reach(img, out@),
            decreases b@.len() - i,
        {
            if b.len() - i >= 5 && b[i] == 0xE8 {
                let goes: i128 = r.base as i128 + i as i128 + 5 + i32_at(b.as_slice(), i + 1) as i128;
                if goes == target {
                    let f: usize = enclosing_function(img, r.base + i - img.base);
                    proof {
                        strings::ins_within_reach(img, out@, f);
                    }
                    insert_usize(&mut out, f);
                }
            }
            i += 1;
        }
        n += 1;
    }
    out
}

/// The best matching callee with its similarity and the next best similarity; `None` while none
/// matches at all.
#[verifier::ext_equal]
pub struct CalleeMatch {
    pub rva: usize,
    pub sim: u64,
    pub second: u64,
    pub found: bool,
}

/// The best match among some callees.
pub open spec fn best_among(img: &ImageInput, cs: Seq<usize>, target: IdentityV) -> CalleeMatch
    decreases cs.len(),
{
    if cs.len() == 0 {
        CalleeMatch { rva: 0, sim: 0, second: 0, found: false }
    } else {
        let m = best_among(img, cs.drop_last(), target);
        let c = cs.last();
        let s = identity::likeness(target, identity::identity_at(img, c as int)) as u64;
        if s > m.sim {
            CalleeMatch { rva: c, sim: s, second: m.sim, found: true }
        } else if s > m.second {
            CalleeMatch { second: s, ..m }
        } else {
            m
        }
    }
}

/// The best match among the callees of a function.
pub open spec fn best_callee_of(img: &ImageInput, caller: int, target: IdentityV) -> CalleeMatch {
    best_among(img, callees_of(img, caller), target)
}

/// The callee of `caller_rva` whose identity best matches `target`, with its similarity and the
/// runner-up's, so that a uniqueness margin can be required. `None` when no callee resembles it.
pub fn best_callee(img: &ImageInput, caller_rva: usize, target: &FnIdentity) -> (r: Option<
    (usize, u64, u64),
>)
    requires
        img.wf(),
        img.reaches(caller_rva as int),
    ensures
        r == ({
            let m = best_callee_of(img, caller_rva as int, target.deep_view());
            if m.found {
                Some((m.rva, m.sim, m.second))
            } else {
                None
            }
        }),
        r matches Some((rva, sim, second)) ==> img.reaches(rva as int) && second <= sim <= SIM_ONE,
{
    let cs = callees(img, caller_rva);
    let ghost tv = target.deep_view();
    let mut rva: usize = 0;
    let mut sim: u64 = 0;
    let mut second: u64 = 0;
    let mut found: bool = false;
    let mut i: usize = 0;
    assert(cs@.take(0) =~= Seq::<usize>::empty());
    while i < cs.len()
        invariant
            img.wf(),
            strings::all_within_reach(img, cs@),
            tv == target.deep_view(),
            i <= cs@.len(),
            second <= sim <= SIM_ONE,
            found ==> img.reaches(rva as int),
            best_among(img, cs@.take(i as int), tv) == (CalleeMatch { rva, sim, second, found }),
        decreases cs@.len() - i,
    {
        assert(cs@.take(i + 1).drop_last() =~= cs@.take(i as int));
        let c: usize = cs[i];
        assert(img.reaches(cs@[i as int] as int));
        let id = fn_identity(img, c);
        let s: u64 = target.similarity(&id);
        if s > sim {
            second = sim;
            sim = s;
            rva = c;
            found = true;
        } else if s > second {
            second = s;
        }
        i += 1;
    }
    assert(cs@.take(i as int) =~= cs@);
    if found {
        Some((rva, sim, second))
    } else {
        None
    }
}

/// Whether the caller carries an anchor for the target: its own string pins it, and the target stands
/// out among its callees.
pub open spec fn carries(img: &ImageInput, caller: usize, target_rva: int) -> bool {
    match strings::string_anchor_of(img, caller as int) {
        None => false,
        Some(sa) => {
            let m = best_callee_of(img, caller as int, identity::identity_at(img, target_rva));
            &&& strings::anchored(img, sa) == Some(caller)
            &&& m.found
            &&& m.rva == target_rva
            &&& m.sim - m.second >= CALLER_MIN_MARGIN * SIM_PERCENT
        },
    }
}

/// The first caller from `i` on that carries an anchor for the target.
pub open spec fn carrier(img: &ImageInput, callers: Seq<usize>, target_rva: int, i: int) -> Option<
    usize,
>
    decreases callers.len() - i,
{
    if !(0 <= i < callers.len()) {
        None
    } else if carries(img, callers[i], target_rva) {
        Some(callers[i])
    } else {
        carrier(img, callers, target_rva, i + 1)
    }
}

/// The caller-relative anchor of the function at `rva`.
pub open spec fn caller_anchor_of(img: &ImageInput, rva: int) -> Option<CallerAnchorV> {
    if img.arch != Arch::X86 {
        None
    } else {
        match carrier(img, callers_to(img, rva), rva, 0) {
            None => None,
            Some(c) => Some(
                CallerAnchorV {
                    caller: strings::string_anchor_of(img, c as int)->0,
                    target: identity::identity_at(img, rva),
                },
            ),
        }
    }
}

/// Build a caller-relative anchor for `target_rva`: a string-anchorable caller that calls the target as
/// its single best-matching callee, so that the target can be re-found among that caller's callees.
/// `None` if no caller has a string anchor or the target is not the caller's distinctive callee.
pub fn make_caller_anchor(img: &ImageInput, target_rva: usize) -> (r: Option<CallerAnchor>)
    requires
        img.wf(),
        img.reaches(target_rva as int),
    ensures
        r.deep_view() == caller_anchor_of(img, target_rva as int),
{
    if img.arch != Arch::X86 {
        return None;
    }
    let target = fn_identity(img, target_rva);
    let callers = callers_of(img, target_rva);
    let mut i: usize = 0;
    while i < callers.len()
        invariant
            img.wf(),
            img.arch == Arch::X86,
            strings::all_within_reach(img, callers@),
            callers@ == callers_to(img, target_rva as int),
            target.deep_view() == identity::identity_at(img, target_rva as int),
            i <= callers@.len(),
            carrier(img, callers@, target_rva as int, 0) == carrier(
                img,
                callers@,
                target_rva as int,
                i as int,
            ),
        decreases callers@.len() - i,
    {
        let caller: usize = callers[i];
        assert(img.reaches(callers@[i as int] as int));
        if let Some(sa) = make_string_anchor(img, caller) {
            let pinned = resolve_string_anchor(img, &sa);
            if pinned.is_some() && pinned.unwrap() == caller {
                if let Some((best, sim, runner)) = best_callee(img, caller, &target) {
                    if best == target_rva && sim - runner >= CALLER_MIN_MARGIN * SIM_PERCENT {
                        return Some(CallerAnchor { caller: sa, target });
                    }
                }
            }
        }
        i += 1;
    }
    None
}

/// Where a caller-relative anchor leads.
pub open spec fn caller_anchored(img: &ImageInput, a: CallerAnchorV) -> Option<usize> {
    if img.arch != Arch::X86 {
        None
    } else {
        match strings::anchored(img, a.caller) {
            None => None,
            Some(caller) => {
                let m = best_callee_of(img, caller as int, a.target);
                if m.found && m.sim >= CALLER_MIN_SIM * SIM_PERCENT && m.sim - m.second
                    >= CALLER_MIN_MARGIN * SIM_PERCENT {
                    Some(m.rva)
                } else {
                    None
                }
            },
        }
    }
}

/// Resolve a caller-relative anchor in `img`: locate the caller by its string, then pick the caller's
/// callee whose identity matches the target, requiring a confident, unambiguous match.
pub fn resolve_caller_anchor(img: &ImageInput, anchor: &CallerAnchor) -> (r: Option<usize>)
    requires
        img.wf(),
    ensures
        r == caller_anchored(img, anchor.deep_view()),
        r matches Some(f) ==> img.reaches(f as int),
{
    if img.arch != Arch::X86 {
        return None;
    }
    let caller: usize = match resolve_string_anchor(img, &anchor.caller) {
        Some(c) => c,
        None => {
            return None;
        },
    };
    match best_callee(img, caller, &anchor.target) {
        None => None,
        Some((best, sim, runner)) => if sim >= CALLER_MIN_SIM * SIM_PERCENT && sim - runner
            >= CALLER_MIN_MARGIN * SIM_PERCENT {
            Some(best)
        } else {
            None
        },
    }
}

}
