//! Static data-flow "strand" similarity: match two functions by what they compute, not how the bytes or
//! registers happen to be laid out.
//!
//! Each output value (a memory store, a call, the return value) is hashed by the data flow that produced
//! it: an instruction's value-hash folds its mnemonic with the value-hashes of the inputs feeding it,
//! recursively, so that register names and instruction order drop out and only the shape of the
//! computation remains. Two functions that compute the same outputs through different register
//! allocations or block orders share strand hashes; different computations do not.

use crate::le::tail_of;
use crate::ordered;
use crate::ordered::{holds_u64, insert_u64};
use crate::sigmaker::decode;
use crate::sigmaker::decode::bitness;
use crate::sigmaker::encoding;
use crate::sigmaker::encoding::hash_values;
use crate::sigmaker::identity;
use crate::sigmaker::identity::{DISTINCT_GAP, FNV_OFFSET, FNV_PRIME};
use crate::sigmaker::rivals;
use crate::sigmaker::rivals::{find_rival, find_top, Scored};
use crate::sigmaker::similarity;
use crate::sigmaker::similarity::{fraction_of, SIM_ONE};
use crate::sigmaker::types::ImageInput;
use crate::x86;
use crate::x86::{Access, Flow};
use std::collections::BTreeMap;
use vstd::prelude::*;

verus! {

broadcast use vstd::laws_cmp::group_laws_cmp;

/// How many instructions are looked at.
pub const STRAND_MAX_INSTRS: usize = 80;

/// How many bytes are looked at.
pub const STRAND_WINDOW: usize = 640;

/// A function with fewer observable output values is too thin to identify by its data flow: a couple of
/// generic outputs match half the image, so the strand channel declines rather than guess.
pub const STRAND_MIN_OUTPUTS: usize = 4;

/// The access takes the value in.
pub open spec fn takes(a: Access) -> bool {
    a == Access::Read || a == Access::CondRead || a == Access::ReadWrite || a
        == Access::ReadCondWrite
}

/// The access changes the value.
pub open spec fn changes(a: Access) -> bool {
    a == Access::Write || a == Access::CondWrite || a == Access::ReadWrite || a
        == Access::ReadCondWrite
}

fn reads(a: Access) -> (r: bool)
    ensures
        r == takes(a),
{
    a == Access::Read || a == Access::CondRead || a == Access::ReadWrite || a
        == Access::ReadCondWrite
}

fn writes(a: Access) -> (r: bool)
    ensures
        r == changes(a),
{
    a == Access::Write || a == Access::CondWrite || a == Access::ReadWrite || a
        == Access::ReadCondWrite
}

fn fold_one(h: u64, x: u64) -> (r: u64)
    ensures
        r == identity::fold(h, x),
{
    (h ^ x).wrapping_mul(FNV_PRIME)
}

/// `x` behind all that are not greater.
pub open spec fn placed(s: Seq<u64>, x: u64) -> Seq<u64>
    decreases s.len(),
{
    if s.len() == 0 || s.last() <= x {
        s.push(x)
    } else {
        placed(s.drop_last(), x).push(s.last())
    }
}

fn place(v: &mut Vec<u64>, x: u64)
    ensures
        final(v)@ == placed(old(v)@, x),
{
    let mut i: usize = v.len();
    let ghost s = v@;
    assert(s.take(i as int) =~= s);
    assert(placed(s, x) =~= placed(s.take(i as int), x) + s.skip(i as int));
    while i > 0 && v[i - 1] > x
        invariant
            i <= v@.len(),
            v@ == s,
            placed(s, x) == placed(s.take(i as int), x) + s.skip(i as int),
        decreases i,
    {
        proof {
            let t = s.take(i as int);
            assert(t.drop_last() =~= s.take(i - 1));
            assert(placed(t, x) + s.skip(i as int) =~= placed(s.take(i - 1), x) + s.skip(i - 1));
        }
        i -= 1;
    }
    v.insert(i, x);
    assert(v@ =~= s.take(i as int).push(x) + s.skip(i as int));
}

/// The value in a full register: what defined it, or for a function input the register itself.
pub open spec fn value_in(defs: Map<u32, u64>, full: u32) -> u64 {
    if defs.contains_key(full) {
        defs[full]
    } else {
        identity::fold(FNV_OFFSET, full as u64)
    }
}

/// The values that the first `n` registers used bring in, sorted so that a commutative reordering does
/// not matter.
pub open spec fn inputs_of(bits: u32, b: Seq<u8>, ip: u64, defs: Map<u32, u64>, n: nat) -> Seq<u64>
    decreases n,
{
    if n == 0 {
        Seq::empty()
    } else {
        let before = inputs_of(bits, b, ip, defs, (n - 1) as nat);
        let u = x86::used_register_of(bits, b, ip, (n - 1) as usize);
        if takes(u.access) {
            placed(before, value_in(defs, u.full))
        } else {
            before
        }
    }
}

/// The value an instruction computes.
pub open spec fn value_of(bits: u32, b: Seq<u8>, ip: u64, defs: Map<u32, u64>) -> u64 {
    encoding::hashed(
        identity::fold(FNV_OFFSET, x86::head_of(bits, b, ip).mnemonic as u64),
        inputs_of(bits, b, ip, defs, x86::used_counts_of(bits, b, ip).0 as nat),
    )
}

/// The definitions and the value returned after the first `n` registers used took the value `h` where
/// they are written.
pub open spec fn defined(
    bits: u32,
    b: Seq<u8>,
    ip: u64,
    defs: (Map<u32, u64>, Option<u64>),
    h: u64,
    n: nat,
) -> (Map<u32, u64>, Option<u64>)
    decreases n,
{
    if n == 0 {
        defs
    } else {
        let d = defined(bits, b, ip, defs, h, (n - 1) as nat);
        let u = x86::used_register_of(bits, b, ip, (n - 1) as usize);
        if changes(u.access) {
            (
                d.0.insert(u.full, h),
                if u.accumulator {
                    Some(h)
                } else {
                    d.1
                },
            )
        } else {
            d
        }
    }
}

/// Whether one of the first `n` memory locations used is written.
pub open spec fn stores(bits: u32, b: Seq<u8>, ip: u64, n: int) -> bool {
    exists|i: usize| i < n && changes(#[trigger] x86::used_memory_of(bits, b, ip, i))
}

/// The outputs after an instruction that computes `h` and leaves `ret` in the accumulator.
pub open spec fn outputs_after(
    bits: u32,
    b: Seq<u8>,
    ip: u64,
    outputs: Seq<u64>,
    h: u64,
    ret: Option<u64>,
) -> Seq<u64> {
    let stored = if stores(bits, b, ip, x86::used_counts_of(bits, b, ip).1 as int) {
        ordered::ins(outputs, identity::fold(h, 1), ordered::ascending())
    } else {
        outputs
    };
    let f = x86::flow_of(bits, b, ip);
    if f == Flow::Call || f == Flow::IndirectCall {
        ordered::ins(stored, identity::fold(h, 2), ordered::ascending())
    } else if f == Flow::Return && ret is Some {
        ordered::ins(stored, identity::fold(ret->0, 3), ordered::ascending())
    } else {
        stored
    }
}

/// The outputs with those of the next `left` instructions of `b`, which sits at `start`, up to the
/// first return.
pub open spec fn strands_from(
    bits: u32,
    b: Seq<u8>,
    start: int,
    pos: int,
    left: nat,
    defs: (Map<u32, u64>, Option<u64>),
    outputs: Seq<u64>,
) -> Seq<u64>
    decreases left,
{
    if left == 0 || !(0 <= pos < b.len()) {
        outputs
    } else {
        let rest = b.skip(pos);
        let ip = (start + pos) as u64;
        let h = x86::head_of(bits, rest, ip);
        if !decode::decodable(h, rest) {
            outputs
        } else {
            let v = value_of(bits, rest, ip, defs.0);
            let d = defined(bits, rest, ip, defs, v, x86::used_counts_of(bits, rest, ip).0 as nat);
            let o = outputs_after(bits, rest, ip, outputs, v, d.1);
            if x86::flow_of(bits, rest, ip) == Flow::Return {
                o
            } else {
                strands_from(bits, b, start, pos + h.len, (left - 1) as nat, d, o)
            }
        }
    }
}

/// The data-flow strand hashes of the function at `rva`, ascending.
pub open spec fn strands_at(img: &ImageInput, rva: int) -> Seq<u64> {
    strands_from(
        decode::mode(img.arch),
        img.bytes(img.base + rva, STRAND_WINDOW as nat),
        img.base + rva,
        0,
        STRAND_MAX_INSTRS as nat,
        (Map::empty(), None),
        Seq::empty(),
    )
}

fn instruction_value(bits: u32, b: &[u8], ip: u64, defs: &BTreeMap<u32, u64>) -> (h: u64)
    requires
        x86::is_mode(bits),
    ensures
        h == value_of(bits, b@, ip, defs@),
{
    let (registers, _) = x86::used_counts(bits, b, ip);
    let mut inputs: Vec<u64> = Vec::new();
    let mut i: usize = 0;
    while i < registers
        invariant
            x86::is_mode(bits),
            registers == x86::used_counts_of(bits, b@, ip).0,
            i <= registers,
            inputs@ == inputs_of(bits, b@, ip, defs@, i as nat),
        decreases registers - i,
    {
        let u = x86::used_register(bits, b, ip, i);
        if reads(u.access) {
            let v: u64 = match defs.get(&u.full) {
                Some(v) => *v,
                None => fold_one(FNV_OFFSET, u.full as u64),
            };
            place(&mut inputs, v);
        }
        i += 1;
    }
    let h = x86::head(bits, b, ip);
    hash_values(fold_one(FNV_OFFSET, h.mnemonic as u64), inputs.as_slice())
}

fn writes_memory(bits: u32, b: &[u8], ip: u64) -> (r: bool)
    requires
        x86::is_mode(bits),
    ensures
        r == stores(bits, b@, ip, x86::used_counts_of(bits, b@, ip).1 as int),
{
    let (_, locations) = x86::used_counts(bits, b, ip);
    let mut i: usize = 0;
    while i < locations
        invariant
            x86::is_mode(bits),
            locations == x86::used_counts_of(bits, b@, ip).1,
            i <= locations,
            forall|k: usize| k < i ==> !changes(#[trigger] x86::used_memory_of(bits, b@, ip, k)),
        decreases locations - i,
    {
        if writes(x86::used_memory(bits, b, ip, i)) {
            return true;
        }
        i += 1;
    }
    false
}

/// The set of data-flow strand hashes of the function at `rva`, ascending: each output value (memory
/// store, call, or return value) hashed by how it is computed. Register names and instruction order are
/// absorbed, so the hash is invariant to the register allocation and block layout a recompile rewrites.
pub fn strand_set(img: &ImageInput, rva: usize) -> (outputs: Vec<u64>)
    requires
        img.reaches(rva as int),
    ensures
        outputs@ == strands_at(img, rva as int),
{
    let bits: u32 = bitness(img.arch);
    let start: usize = img.base + rva;
    let b = img.read(start, STRAND_WINDOW);
    let mut defs: BTreeMap<u32, u64> = BTreeMap::new();
    let mut ret: Option<u64> = None;
    let mut outputs: Vec<u64> = Vec::new();
    let mut pos: usize = 0;
    let mut left: usize = STRAND_MAX_INSTRS;
    while left > 0 && pos < b.len()
        invariant
            bits == decode::mode(img.arch),
            x86::is_mode(bits),
            start + b@.len() <= usize::MAX,
            pos <= b@.len(),
            strands_at(img, rva as int) == strands_from(
                bits,
                b@,
                start as int,
                pos as int,
                left as nat,
                (defs@, ret),
                outputs@,
            ),
        decreases left,
    {
        let rest = tail_of(b.as_slice(), pos);
        let ip: u64 = (start + pos) as u64;
        let h = x86::head(bits, rest, ip);
        if h.invalid || h.len == 0 || h.len > rest.len() {
            return outputs;
        }
        let v: u64 = instruction_value(bits, rest, ip, &defs);
        let (registers, _) = x86::used_counts(bits, rest, ip);
        let ghost before = (defs@, ret);
        let mut i: usize = 0;
        while i < registers
            invariant
                x86::is_mode(bits),
                registers == x86::used_counts_of(bits, rest@, ip).0,
                i <= registers,
                (defs@, ret) == defined(bits, rest@, ip, before, v, i as nat),
            decreases registers - i,
        {
            let u = x86::used_register(bits, rest, ip, i);
            if writes(u.access) {
                defs.insert(u.full, v);
                if u.accumulator {
                    ret = Some(v);
                }
            }
            i += 1;
        }
        if writes_memory(bits, rest, ip) {
            insert_u64(&mut outputs, fold_one(v, 1));
        }
        let f = x86::flow(bits, rest, ip);
        if f == Flow::Call || f == Flow::IndirectCall {
            insert_u64(&mut outputs, fold_one(v, 2));
        } else if f == Flow::Return {
            if let Some(r) = ret {
                insert_u64(&mut outputs, fold_one(r, 3));
            }
            return outputs;
        }
        pos += h.len;
        left -= 1;
    }
    outputs
}

/// The Dice ratio of two strand sets; zero where either side has no effect.
pub open spec fn strand_likeness(a: Seq<u64>, b: Seq<u64>) -> int {
    if a.len() == 0 || b.len() == 0 {
        0
    } else {
        similarity::dice(ordered::common(a, b) as int, (a.len() + b.len()) as int)
    }
}

/// Functions that compute the same set of output values, and only those, match perfectly.
pub proof fn perfect_strands_are_equal(a: Seq<u64>, b: Seq<u64>)
    requires
        a.no_duplicates(),
        b.no_duplicates(),
        a.len() > 0,
        b.len() > 0,
    ensures
        strand_likeness(a, b) == SIM_ONE <==> a.to_set() == b.to_set(),
{
    let n = ordered::common(a, b);
    similarity::whole_fraction((2 * n) as int, (a.len() + b.len()) as int);
    ordered::common_is_symmetric(a, b);
    ordered::common_is_bounded(a, b);
    ordered::common_is_bounded(b, a);
    if strand_likeness(a, b) == SIM_ONE {
        ordered::full_common_is_inclusion(a, b);
        ordered::full_common_is_inclusion(b, a);
        assert(a.to_set() =~= b.to_set());
    }
    if a.to_set() == b.to_set() {
        assert forall|i: int| 0 <= i < a.len() implies b.contains(#[trigger] a[i]) by {
            assert(a.to_set().contains(a[i]));
            assert(b.to_set().contains(a[i]));
        }
        assert forall|i: int| 0 <= i < b.len() implies a.contains(#[trigger] b[i]) by {
            assert(b.to_set().contains(b[i]));
            assert(a.to_set().contains(b[i]));
        }
        ordered::common_with_itself(a, b);
        ordered::common_with_itself(b, a);
    }
}

/// The similarity does not depend on which function is asked.
pub proof fn strand_likeness_is_symmetric(a: Seq<u64>, b: Seq<u64>)
    requires
        a.no_duplicates(),
        b.no_duplicates(),
    ensures
        strand_likeness(a, b) == strand_likeness(b, a),
{
    ordered::common_is_symmetric(a, b);
}

/// Sorensen-Dice over two strand sets, in trillionths: one only when the two functions compute the same
/// set of output values, zero when they share none or either side is free of effects.
pub fn strand_similarity(a: &[u64], b: &[u64]) -> (r: u64)
    ensures
        r == strand_likeness(a@, b@),
        r <= SIM_ONE,
{
    if a.len() == 0 || b.len() == 0 {
        return 0;
    }
    let mut inter: usize = 0;
    let mut i: usize = 0;
    assert(a@.take(0) =~= Seq::<u64>::empty());
    while i < a.len()
        invariant
            i <= a@.len(),
            inter <= i,
            inter == ordered::common(a@.take(i as int), b@),
        decreases a@.len() - i,
    {
        assert(a@.take(i + 1).drop_last() =~= a@.take(i as int));
        if holds_u64(b, a[i]) {
            inter += 1;
        }
        i += 1;
    }
    assert(a@.take(i as int) =~= a@);
    fraction_of(2 * (inter as u128), a.len() as u128 + b.len() as u128)
}

/// The candidates with their similarity to the reference.
pub open spec fn scored(reference: Seq<u64>, rvas: Seq<usize>, strands: Seq<Seq<u64>>) -> Scored {
    Seq::new(
        strands.len(),
        |i: int| (rvas[i], strand_likeness(reference, strands[i]) as u64),
    )
}

/// The similarity of the best rival: of all candidates at least the gap from the candidate at `i`, the
/// greatest one.
pub open spec fn runner_up(
    reference: Seq<u64>,
    rvas: Seq<usize>,
    strands: Seq<Seq<u64>>,
    i: int,
) -> u64 {
    rivals::rival(scored(reference, rvas, strands), rvas[i], DISTINCT_GAP as int)
}

/// The candidate whose strand set is most similar to `reference`, the first among equals, its similarity,
/// and the best similarity of any other candidate at least [`DISTINCT_GAP`] bytes from it: one closer is
/// the same site shifted by an instruction. `None` only when there is no candidate.
pub fn best_strand_match(
    reference: &[u64],
    cand_rvas: &[usize],
    cand_strands: &Vec<Vec<u64>>,
) -> (r: Option<(usize, u64, u64)>)
    requires
        cand_strands@.len() <= cand_rvas@.len(),
    ensures
        ({
            let strands = cand_strands.deep_view();
            match r {
                Some((i, sim, runner)) => {
                    &&& rivals::top(scored(reference@, cand_rvas@, strands)) == Some(i as int)
                    &&& i < strands.len()
                    &&& sim == strand_likeness(reference@, strands[i as int])
                    &&& runner == runner_up(reference@, cand_rvas@, strands, i as int)
                    &&& sim <= SIM_ONE
                    &&& runner <= SIM_ONE
                },
                None => strands.len() == 0,
            }
        }),
{
    let ghost strands = cand_strands.deep_view();
    let ghost all = scored(reference@, cand_rvas@, strands);
    let mut seen: Vec<(usize, u64)> = Vec::new();
    let mut i: usize = 0;
    while i < cand_strands.len()
        invariant
            cand_strands@.len() <= cand_rvas@.len(),
            strands == cand_strands.deep_view(),
            all == scored(reference@, cand_rvas@, strands),
            i <= cand_strands@.len(),
            seen@ == all.take(i as int),
            forall|k: int|
                0 <= k < i ==> (#[trigger] seen@[k]).1 <= SIM_ONE && seen@[k].1 == strand_likeness(
                    reference@,
                    strands[k],
                ),
        decreases cand_strands@.len() - i,
    {
        assert(strands[i as int] =~= cand_strands@[i as int]@);
        let sim: u64 = strand_similarity(reference, cand_strands[i].as_slice());
        seen.push((cand_rvas[i], sim));
        i += 1;
        assert(seen@ =~= all.take(i as int));
    }
    assert(seen@ =~= all);
    match find_top(&seen) {
        None => None,
        Some(b) => {
            let (rva, sim) = seen[b];
            let runner: u64 = find_rival(&seen, rva, DISTINCT_GAP);
            proof {
                rivals::rival_is_greatest(seen@, rva, DISTINCT_GAP as int);
                assert(seen@[b as int].1 <= SIM_ONE);
            }
            Some((b, sim, runner))
        },
    }
}

/// The best candidate is no less like the reference than any other, and the runner-up no less than any
/// that is far enough from it.
pub proof fn best_strands_are_greatest(
    reference: Seq<u64>,
    rvas: Seq<usize>,
    strands: Seq<Seq<u64>>,
)
    ensures
        match rivals::top(scored(reference, rvas, strands)) {
            None => strands.len() == 0,
            Some(b) => {
                &&& 0 <= b < strands.len()
                &&& forall|k: int|
                    0 <= k < strands.len() ==> strand_likeness(reference, #[trigger] strands[k]) as u64
                        <= strand_likeness(reference, strands[b]) as u64
                &&& forall|k: int|
                    0 <= k < strands.len() && similarity::apart(
                        rvas[k] as int,
                        rvas[b] as int,
                        DISTINCT_GAP as int,
                    ) ==> strand_likeness(reference, #[trigger] strands[k]) as u64 <= runner_up(
                        reference,
                        rvas,
                        strands,
                        b,
                    )
            },
        },
{
    let s = scored(reference, rvas, strands);
    rivals::top_is_greatest(s);
    if let Some(b) = rivals::top(s) {
        rivals::rival_is_greatest(s, rvas[b], DISTINCT_GAP as int);
        assert forall|k: int| 0 <= k < strands.len() implies strand_likeness(
            reference,
            #[trigger] strands[k],
        ) as u64 <= strand_likeness(reference, strands[b]) as u64 by {
            assert(s[k].1 <= s[b].1);
        }
        assert forall|k: int|
            0 <= k < strands.len() && similarity::apart(
                rvas[k] as int,
                rvas[b] as int,
                DISTINCT_GAP as int,
            ) implies strand_likeness(reference, #[trigger] strands[k]) as u64 <= runner_up(
            reference,
            rvas,
            strands,
            b,
        ) by {
            assert(s[k].0 == rvas[k]);
        }
    }
}

}
