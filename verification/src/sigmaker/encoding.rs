//! Encoding-fingerprint relocation: find the same function across builds by the instruction encoding
//! shape with relocatable operand values masked.
//!
//! Per instruction the fingerprint keeps the mnemonic plus its operand registers and operand and
//! displacement sizes, and drops the immediate and displacement values, which drift even between builds
//! of one source. Two template siblings differ here on exactly the bytes a byte signature fixes; the
//! true cross-build twin does not. The signal bridges hops with the same code generation and declines
//! across a true recompile, where register allocation itself changes.

use crate::le::tail_of;
use crate::pattern::Arch;
use crate::sigmaker::decode;
use crate::sigmaker::decode::bitness;
use crate::sigmaker::identity;
use crate::sigmaker::identity::{FNV_OFFSET, FNV_PRIME};
use crate::sigmaker::rivals;
use crate::sigmaker::rivals::{count_equals, find_rival, find_top, Scored};
use crate::sigmaker::similarity;
use crate::sigmaker::similarity::{fraction_of, lcs_len_u64, SIM_ONE};
use crate::sigmaker::strings;
use crate::sigmaker::types::ImageInput;
use crate::x86;
use crate::x86::{Flow, Operand};
use vstd::prelude::*;

verus! {

/// How many instructions are fingerprinted: long enough to span a template instance's body past its
/// shared prologue, short enough not to spill into the self-similar neighbour that follows it.
pub const ENC_MAX_INSTRS: usize = 48;

/// How many bytes are fingerprinted.
pub const ENC_WINDOW_BYTES: usize = 400;

/// The width an immediate is encoded at.
pub open spec fn size_class(k: Operand) -> u64 {
    match k {
        Operand::Immediate8
        | Operand::Immediate8Second
        | Operand::Immediate8to16
        | Operand::Immediate8to32
        | Operand::Immediate8to64 => 1,
        Operand::Immediate16 => 2,
        Operand::Immediate32 | Operand::Immediate32to64 => 4,
        Operand::Immediate64 => 8,
        _ => 0,
    }
}

/// The width an immediate is encoded at, never its value.
pub fn imm_size_class(k: Operand) -> (r: u64)
    ensures
        r == size_class(k),
{
    match k {
        Operand::Immediate8
        | Operand::Immediate8Second
        | Operand::Immediate8to16
        | Operand::Immediate8to32
        | Operand::Immediate8to64 => 1,
        Operand::Immediate16 => 2,
        Operand::Immediate32 | Operand::Immediate32to64 => 4,
        Operand::Immediate64 => 8,
        _ => 0,
    }
}

/// What the shape keeps of operand `i`.
pub open spec fn operand_marks(bits: u32, b: Seq<u8>, ip: u64, i: u32) -> Seq<u64> {
    let k = x86::operand_of(bits, b, ip, i);
    let m = x86::memory_of(bits, b, ip);
    if k == Operand::Register {
        seq![1u64, x86::register_of(bits, b, ip, i) as u64]
    } else if k == Operand::Memory {
        seq![2u64, m.base as u64, m.index as u64, m.scale as u64, m.width as u64]
    } else if x86::is_immediate_kind_spec(k) {
        seq![4u64, size_class(k)]
    } else {
        seq![5u64]
    }
}

/// What the shape keeps of the instruction's first `n` operands, behind its mnemonic.
pub open spec fn shape_marks(bits: u32, b: Seq<u8>, ip: u64, n: nat) -> Seq<u64>
    decreases n,
{
    if n == 0 {
        seq![x86::head_of(bits, b, ip).mnemonic as u64]
    } else {
        shape_marks(bits, b, ip, (n - 1) as nat) + operand_marks(bits, b, ip, (n - 1) as u32)
    }
}

/// The FNV hash continued over numbers.
pub open spec fn hashed(h: u64, marks: Seq<u64>) -> u64
    decreases marks.len(),
{
    if marks.len() == 0 {
        h
    } else {
        identity::fold(hashed(h, marks.drop_last()), marks.last())
    }
}

/// The hash of an instruction's encoding shape.
pub open spec fn shape_hash(bits: u32, b: Seq<u8>, ip: u64) -> u64 {
    hashed(FNV_OFFSET, shape_marks(bits, b, ip, x86::head_of(bits, b, ip).operands as nat))
}

/// Numbers hashed one after the other.
pub fn hash_values(h: u64, marks: &[u64]) -> (r: u64)
    ensures
        r == hashed(h, marks@),
{
    let mut r: u64 = h;
    let mut i: usize = 0;
    while i < marks.len()
        invariant
            i <= marks@.len(),
            r == hashed(h, marks@.take(i as int)),
        decreases marks@.len() - i,
    {
        assert(marks@.take(i + 1).drop_last() =~= marks@.take(i as int));
        r = (r ^ marks[i]).wrapping_mul(FNV_PRIME);
        i += 1;
    }
    assert(marks@.take(i as int) =~= marks@);
    r
}

/// A hash of one instruction's encoding shape: its mnemonic, each operand's register and the memory
/// addressing form, and the operand and displacement sizes, with immediate and displacement values
/// deliberately left out.
pub fn enc_hash(bits: u32, b: &[u8], ip: u64) -> (r: u64)
    requires
        x86::is_mode(bits),
    ensures
        r == shape_hash(bits, b@, ip),
{
    let h = x86::head(bits, b, ip);
    let mut marks: Vec<u64> = vec![h.mnemonic as u64];
    assert(marks@ =~= shape_marks(bits, b@, ip, 0));
    let mut i: u32 = 0;
    while i < h.operands
        invariant
            x86::is_mode(bits),
            h.operands <= 5,
            i <= h.operands,
            marks@ == shape_marks(bits, b@, ip, i as nat),
        decreases h.operands - i,
    {
        let k = x86::operand(bits, b, ip, i);
        let ghost before = marks@;
        if k == Operand::Register {
            marks.push(1);
            marks.push(x86::register(bits, b, ip, i) as u64);
        } else if k == Operand::Memory {
            let m = x86::memory(bits, b, ip);
            marks.push(2);
            marks.push(m.base as u64);
            marks.push(m.index as u64);
            marks.push(m.scale as u64);
            marks.push(m.width as u64);
        } else if x86::is_immediate_kind(k) {
            marks.push(4);
            marks.push(imm_size_class(k));
        } else {
            marks.push(5);
        }
        assert(marks@ =~= before + operand_marks(bits, b@, ip, i));
        i += 1;
    }
    hash_values(FNV_OFFSET, marks.as_slice())
}

/// The shapes of the next `left` instructions of `b`, which sits at `start`, up to and with the first
/// return.
pub open spec fn shapes_from(bits: u32, b: Seq<u8>, start: int, pos: int, left: nat) -> Seq<u64>
    decreases left,
{
    if left == 0 || !(0 <= pos < b.len()) {
        Seq::empty()
    } else {
        let rest = b.skip(pos);
        let ip = (start + pos) as u64;
        let h = x86::head_of(bits, rest, ip);
        if !decode::decodable(h, rest) {
            Seq::empty()
        } else if x86::flow_of(bits, rest, ip) == Flow::Return {
            seq![shape_hash(bits, rest, ip)]
        } else {
            seq![shape_hash(bits, rest, ip)] + shapes_from(
                bits,
                b,
                start,
                pos + h.len,
                (left - 1) as nat,
            )
        }
    }
}

/// The encoding-shape stream at `rva`.
pub open spec fn shapes_at(img: &ImageInput, rva: int) -> Seq<u64> {
    shapes_from(
        decode::mode(img.arch),
        img.bytes(img.base + rva, ENC_WINDOW_BYTES as nat),
        img.base + rva,
        0,
        ENC_MAX_INSTRS as nat,
    )
}

/// The encoding-shape stream of up to [`ENC_MAX_INSTRS`] instructions from `rva`, stopping early at a
/// return (the function's tail) or the first undecodable byte.
pub fn encoding_stream(img: &ImageInput, rva: usize) -> (out: Vec<u64>)
    requires
        img.reaches(rva as int),
    ensures
        out@ == shapes_at(img, rva as int),
        out@.len() <= ENC_MAX_INSTRS,
{
    let bits: u32 = bitness(img.arch);
    let start: usize = img.base + rva;
    let b = img.read(start, ENC_WINDOW_BYTES);
    let mut out: Vec<u64> = Vec::new();
    let mut pos: usize = 0;
    let ghost all = shapes_at(img, rva as int);
    assert(out@ + all =~= all);
    while out.len() < ENC_MAX_INSTRS && pos < b.len()
        invariant
            bits == decode::mode(img.arch),
            x86::is_mode(bits),
            start + b@.len() <= usize::MAX,
            pos <= b@.len(),
            out@.len() <= ENC_MAX_INSTRS,
            all == shapes_at(img, rva as int),
            all == out@ + shapes_from(
                bits,
                b@,
                start as int,
                pos as int,
                (ENC_MAX_INSTRS - out@.len()) as nat,
            ),
        decreases ENC_MAX_INSTRS - out@.len(),
    {
        let rest = tail_of(b.as_slice(), pos);
        let ip: u64 = (start + pos) as u64;
        let h = x86::head(bits, rest, ip);
        if h.invalid || h.len == 0 || h.len > rest.len() {
            assert(out@ =~= all);
            return out;
        }
        let ghost before = out@;
        let ghost more = shapes_from(
            bits,
            b@,
            start as int,
            pos + h.len,
            (ENC_MAX_INSTRS - out@.len() - 1) as nat,
        );
        let x: u64 = enc_hash(bits, rest, ip);
        out.push(x);
        if x86::flow(bits, rest, ip) == Flow::Return {
            assert(out@ =~= before + seq![x]);
            return out;
        }
        assert(out@ + more =~= before + (seq![x] + more));
        pos += h.len;
    }
    assert(out@ =~= all);
    out
}

/// The similarity of two encoding streams.
pub open spec fn shape_similarity(a: Seq<u64>, b: Seq<u64>) -> int {
    if a.len() == 0 || b.len() == 0 {
        0
    } else {
        similarity::dice(similarity::lcs(a, b) as int, (a.len() + b.len()) as int)
    }
}

/// Dice similarity of two encoding streams over their longest common subsequence, in trillionths. Either
/// stream empty (an undecodable window) scores zero: an absence of evidence is not a match. A single
/// inserted or removed instruction stays high instead of collapsing.
pub fn encoding_similarity(a: &[u64], b: &[u64]) -> (r: u64)
    ensures
        r == shape_similarity(a@, b@),
        r <= SIM_ONE,
{
    if a.len() == 0 || b.len() == 0 {
        return 0;
    }
    let n: usize = lcs_len_u64(a, b);
    fraction_of(2 * (n as u128), a.len() as u128 + b.len() as u128)
}

/// A stream is a perfect match for itself.
pub proof fn shape_similarity_with_itself(a: Seq<u64>)
    requires
        a.len() > 0,
    ensures
        shape_similarity(a, a) == SIM_ONE,
{
    similarity::lcs_with_itself(a);
}

/// Only equal streams match perfectly.
pub proof fn perfect_shapes_are_equal(a: Seq<u64>, b: Seq<u64>)
    requires
        shape_similarity(a, b) == SIM_ONE,
    ensures
        a == b,
{
    similarity::whole_fraction((2 * similarity::lcs(a, b)) as int, (a.len() + b.len()) as int);
    similarity::lcs_is_bounded(a, b);
    similarity::full_lcs_is_equality(a, b);
}

/// The similarity does not depend on which stream is asked.
pub proof fn shape_similarity_is_symmetric(a: Seq<u64>, b: Seq<u64>)
    ensures
        shape_similarity(a, b) == shape_similarity(b, a),
{
    similarity::lcs_is_symmetric(a, b);
}

/// How many leading encodings of the reference a window must share before it is scored in full. The
/// first few instructions are the per-instance signature; requiring them prunes the scan to the handful
/// of windows that share it and excludes the siblings that differ in the prologue.
pub const PREFIX_GATE: usize = 4;

/// Two windows closer than this are the same match shifted.
pub const MIN_DISTINCT_GAP: usize = 16;

/// The offsets before `n` whose instruction has the shape `first`, as RVAs.
pub open spec fn hits_before(
    img: &ImageInput,
    b: Seq<u8>,
    base: int,
    first: u64,
    n: int,
) -> Seq<usize>
    decreases n,
{
    if n <= 0 {
        Seq::empty()
    } else {
        let bits = decode::mode(img.arch);
        let before = hits_before(img, b, base, first, n - 1);
        let rest = b.skip(n - 1);
        let ip = (base + n - 1) as u64;
        let h = x86::head_of(bits, rest, ip);
        if !h.invalid && h.len != 0 && shape_hash(bits, rest, ip) == first {
            before.push((base + n - 1 - img.base) as usize)
        } else {
            before
        }
    }
}

/// The code offsets of the first `n` regions whose instruction has the shape `first`.
pub open spec fn prefix_hits(img: &ImageInput, first: u64, n: int) -> Seq<usize>
    decreases n,
{
    if n <= 0 {
        Seq::empty()
    } else {
        let r = img.code_regions@[n - 1];
        let b = img.bytes(r.base as int, r.size as nat);
        prefix_hits(img, first, n - 1) + hits_before(img, b, r.base as int, first, b.len() as int)
    }
}

/// How many leading encodings must agree.
pub open spec fn gate(reference: Seq<u64>) -> int {
    if reference.len() < PREFIX_GATE {
        reference.len() as int
    } else {
        PREFIX_GATE as int
    }
}

/// Whether a stream starts as the reference does.
pub open spec fn shares_signature(reference: Seq<u64>, stream: Seq<u64>) -> bool {
    stream.len() >= gate(reference) && stream.take(gate(reference)) == reference.take(gate(reference))
}

/// The best window, the best similarity of a rival far enough from it, and how many windows tie at the
/// top.
#[verifier::ext_equal]
pub struct EncodingMatch {
    pub best: Option<(usize, u64)>,
    pub runner_up: u64,
    pub ties: nat,
}

/// Those of the windows that start as the reference does, with their similarity to it.
pub open spec fn scored(img: &ImageInput, hits: Seq<usize>, reference: Seq<u64>) -> Scored
    decreases hits.len(),
{
    if hits.len() == 0 {
        Seq::empty()
    } else {
        let before = scored(img, hits.drop_last(), reference);
        let stream = shapes_at(img, hits.last() as int);
        if shares_signature(reference, stream) {
            before.push((hits.last(), shape_similarity(reference, stream) as u64))
        } else {
            before
        }
    }
}

/// The best match among some windows, the first among equals; the greatest similarity of any window far
/// enough from it; and how many windows are as similar, the best one and those far enough from it.
pub open spec fn match_among(img: &ImageInput, hits: Seq<usize>, reference: Seq<u64>) -> EncodingMatch {
    let s = scored(img, hits, reference);
    match rivals::top(s) {
        None => EncodingMatch { best: None, runner_up: 0, ties: 0 },
        Some(b) => EncodingMatch {
            best: Some(s[b]),
            runner_up: rivals::rival(s, s[b].0, MIN_DISTINCT_GAP as int),
            ties: 1 + rivals::equals(s, s[b].0, s[b].1, MIN_DISTINCT_GAP as int),
        },
    }
}

/// The best match of the reference in the image's code.
pub open spec fn encoding_match(img: &ImageInput, reference: Seq<u64>) -> EncodingMatch {
    match_among(
        img,
        prefix_hits(img, reference[0], img.code_regions@.len() as int),
        reference,
    )
}

fn collect_hits(img: &ImageInput, first: u64) -> (hits: Vec<usize>)
    requires
        img.wf(),
    ensures
        hits@ == prefix_hits(img, first, img.code_regions@.len() as int),
        strings::all_within_reach(img, hits@),
{
    let bits: u32 = bitness(img.arch);
    let mut hits: Vec<usize> = Vec::new();
    let mut n: usize = 0;
    while n < img.code_regions.len()
        invariant
            img.wf(),
            bits == decode::mode(img.arch),
            x86::is_mode(bits),
            n <= img.code_regions@.len(),
            hits@ == prefix_hits(img, first, n as int),
            strings::all_within_reach(img, hits@),
        decreases img.code_regions@.len() - n,
    {
        let r = img.code_regions[n];
        let b = img.read(r.base, r.size);
        let ghost earlier = hits@;
        let mut off: usize = 0;
        assert(earlier + hits_before(img, b@, r.base as int, first, 0) =~= earlier);
        while off < b.len()
            invariant
                img.wf(),
                bits == decode::mode(img.arch),
                x86::is_mode(bits),
                n < img.code_regions@.len(),
                r == img.code_regions@[n as int],
                b@.len() <= r.size,
                off <= b@.len(),
                hits@ == earlier + hits_before(img, b@, r.base as int, first, off as int),
                strings::all_within_reach(img, hits@),
            decreases b@.len() - off,
        {
            let rest = tail_of(b.as_slice(), off);
            let ip: u64 = (r.base + off) as u64;
            let h = x86::head(bits, rest, ip);
            if !h.invalid && h.len != 0 && enc_hash(bits, rest, ip) == first {
                hits.push(r.base + off - img.base);
                assert(hits@ =~= earlier + hits_before(img, b@, r.base as int, first, off + 1));
            }
            off += 1;
        }
        n += 1;
    }
    hits
}

fn starts_alike(reference: &[u64], stream: &Vec<u64>) -> (r: bool)
    ensures
        r == shares_signature(reference@, stream@),
{
    let n: usize = if reference.len() < PREFIX_GATE {
        reference.len()
    } else {
        PREFIX_GATE
    };
    if stream.len() < n {
        return false;
    }
    let mut i: usize = 0;
    while i < n
        invariant
            n == gate(reference@),
            n <= reference@.len(),
            n <= stream@.len(),
            i <= n,
            forall|k: int| 0 <= k < i ==> stream@[k] == reference@[k],
        decreases n - i,
    {
        if stream[i] != reference[i] {
            assert(stream@.take(n as int)[i as int] != reference@.take(n as int)[i as int]);
            return false;
        }
        i += 1;
    }
    assert(stream@.take(n as int) =~= reference@.take(n as int));
    true
}

/// The best encoding match for `reference` among the code windows of `img`: the winning RVA, its
/// similarity, the best similarity of any other window at least [`MIN_DISTINCT_GAP`] bytes away, and how
/// many distinct windows tie at the top (more than one is ambiguous).
///
/// Every code byte offset is a candidate, not only the instruction lattice of a linear sweep: a target
/// reached through a vtable is frequently off that lattice. `None` when the image is not x86, the
/// reference is empty or no window starts as the reference does.
pub fn best_encoding_match(img: &ImageInput, reference: &[u64]) -> (r: Option<
    (usize, u64, u64, usize),
>)
    requires
        img.wf(),
    ensures
        img.arch != Arch::X86 || reference@.len() == 0 ==> r is None,
        img.arch == Arch::X86 && reference@.len() > 0 ==> ({
            let m = encoding_match(img, reference@);
            match r {
                Some((rva, sim, runner, ties)) => m.best == Some((rva, sim)) && m.runner_up == runner
                    && m.ties == ties,
                None => m.best is None,
            }
        }),
        match r {
            Some((rva, sim, runner, ties)) => img.reaches(rva as int) && sim <= SIM_ONE && runner
                <= SIM_ONE,
            None => true,
        },
{
    if img.arch != Arch::X86 || reference.len() == 0 {
        return None;
    }
    let hits = collect_hits(img, reference[0]);
    let mut seen: Vec<(usize, u64)> = Vec::new();
    let mut i: usize = 0;
    assert(hits@.take(0) =~= Seq::<usize>::empty());
    while i < hits.len()
        invariant
            img.wf(),
            reference@.len() > 0,
            strings::all_within_reach(img, hits@),
            i <= hits@.len(),
            seen@ == scored(img, hits@.take(i as int), reference@),
            seen@.len() <= i,
            forall|k: int|
                0 <= k < seen@.len() ==> img.reaches((#[trigger] seen@[k]).0 as int) && seen@[k].1
                    <= SIM_ONE,
        decreases hits@.len() - i,
    {
        assert(hits@.take(i + 1).drop_last() =~= hits@.take(i as int));
        let rva: usize = hits[i];
        assert(img.reaches(hits@[i as int] as int));
        let stream = encoding_stream(img, rva);
        if starts_alike(reference, &stream) {
            let sim: u64 = encoding_similarity(reference, stream.as_slice());
            seen.push((rva, sim));
        }
        i += 1;
    }
    assert(hits@.take(i as int) =~= hits@);
    match find_top(&seen) {
        None => None,
        Some(b) => {
            let (rva, sim) = seen[b];
            let runner: u64 = find_rival(&seen, rva, MIN_DISTINCT_GAP);
            let others: usize = count_equals(&seen, rva, sim, MIN_DISTINCT_GAP);
            proof {
                rivals::rival_is_greatest(seen@, rva, MIN_DISTINCT_GAP as int);
                assert(img.reaches(seen@[b as int].0 as int));
                rivals::others_are_fewer(seen@, b as int, sim, MIN_DISTINCT_GAP as int);
            }
            Some((rva, sim, runner, others + 1))
        },
    }
}

proof fn scored_are_hits(img: &ImageInput, hits: Seq<usize>, reference: Seq<u64>)
    ensures
        ({
            let s = scored(img, hits, reference);
            &&& forall|k: int|
                0 <= k < s.len() ==> hits.contains((#[trigger] s[k]).0) && shares_signature(
                    reference,
                    shapes_at(img, s[k].0 as int),
                ) && s[k].1 == shape_similarity(reference, shapes_at(img, s[k].0 as int)) as u64
            &&& forall|i: int|
                0 <= i < hits.len() && shares_signature(
                    reference,
                    shapes_at(img, #[trigger] hits[i] as int),
                ) ==> s.contains(
                    (
                        hits[i],
                        shape_similarity(reference, shapes_at(img, hits[i] as int)) as u64,
                    ),
                )
        }),
    decreases hits.len(),
{
    if hits.len() > 0 {
        let d = hits.drop_last();
        scored_are_hits(img, d, reference);
        let before = scored(img, d, reference);
        let s = scored(img, hits, reference);
        assert forall|k: int| 0 <= k < s.len() implies hits.contains((#[trigger] s[k]).0)
            && shares_signature(reference, shapes_at(img, s[k].0 as int)) && s[k].1
            == shape_similarity(reference, shapes_at(img, s[k].0 as int)) as u64 by {
            if k < before.len() {
                assert(s[k] == before[k]);
                let m = choose|m: int| 0 <= m < d.len() && d[m] == before[k].0;
                assert(hits[m] == s[k].0);
            } else {
                assert(hits[hits.len() - 1] == s[k].0);
            }
        }
        assert forall|i: int|
            0 <= i < hits.len() && shares_signature(
                reference,
                shapes_at(img, #[trigger] hits[i] as int),
            ) implies s.contains(
            (hits[i], shape_similarity(reference, shapes_at(img, hits[i] as int)) as u64),
        ) by {
            let x = (hits[i], shape_similarity(reference, shapes_at(img, hits[i] as int)) as u64);
            if i < d.len() {
                assert(d[i] == hits[i]);
                let m = choose|m: int| 0 <= m < before.len() && before[m] == x;
                assert(s[m] == x);
            } else {
                assert(s[s.len() - 1] == x);
            }
        }
    }
}

/// The best match starts as the reference does, and no window that does is more similar; the runner-up is
/// no less similar than any of them that is far enough from the best.
pub proof fn best_window_is_greatest(img: &ImageInput, hits: Seq<usize>, reference: Seq<u64>)
    ensures
        ({
            let m = match_among(img, hits, reference);
            &&& m.best matches Some((rva, sim)) ==> hits.contains(rva) && shares_signature(
                reference,
                shapes_at(img, rva as int),
            ) && sim == shape_similarity(reference, shapes_at(img, rva as int)) as u64 && m.ties >= 1
            &&& forall|i: int|
                0 <= i < hits.len() && shares_signature(
                    reference,
                    shapes_at(img, #[trigger] hits[i] as int),
                ) ==> (m.best matches Some((rva, sim)) && shape_similarity(
                    reference,
                    shapes_at(img, hits[i] as int),
                ) as u64 <= sim && (similarity::apart(
                    hits[i] as int,
                    rva as int,
                    MIN_DISTINCT_GAP as int,
                ) ==> shape_similarity(reference, shapes_at(img, hits[i] as int)) as u64
                    <= m.runner_up))
        }),
{
    let s = scored(img, hits, reference);
    scored_are_hits(img, hits, reference);
    rivals::top_is_greatest(s);
    if let Some(b) = rivals::top(s) {
        rivals::rival_is_greatest(s, s[b].0, MIN_DISTINCT_GAP as int);
    }
}

}
