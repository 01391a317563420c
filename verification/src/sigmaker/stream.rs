//! The instructions of a run of code, one behind the other, and what a window and a function's constants
//! say of each of them.

use crate::fileimage::RelocKind;
use crate::ordered;
use crate::pattern::Arch;
use crate::sigmaker::callers::{SCAN_BYTES, SCAN_INSTRS};
use crate::sigmaker::constants;
use crate::sigmaker::decode;
use crate::sigmaker::types::ImageInput;
use crate::sigmaker::window;
use crate::sigmaker::window::InstrMaskV;
use crate::x86;
use crate::x86::{Flow, Operand};
use vstd::prelude::*;

verus! {

/// The width of code: 64 bits on x64, 32 bits on x86.
pub open spec fn width(arch: Arch) -> u32 {
    if arch == Arch::X64 {
        64
    } else {
        32
    }
}

/// What the decoder says of the bytes at `pos` of code that sits at `ip`.
pub open spec fn head_at(arch: Arch, b: Seq<u8>, ip: int, pos: int) -> x86::Head {
    x86::head_of(width(arch), b.skip(pos), (ip + pos) as u64)
}

/// A whole instruction is at `pos`.
pub open spec fn starts_at(arch: Arch, b: Seq<u8>, ip: int, pos: int) -> bool {
    let h = head_at(arch, b, ip, pos);
    0 <= pos < b.len() && !h.invalid && 0 < h.len && pos + h.len <= b.len()
}

/// `at` holds where the instructions of the code start, from `pos` on, and where the last one ends.
pub open spec fn walk_from(arch: Arch, b: Seq<u8>, ip: int, pos: int, at: Seq<int>) -> bool {
    &&& at.len() > 0
    &&& at[0] == pos
    &&& forall|i: int|
        0 <= i < at.len() - 1 ==> #[trigger] starts_at(arch, b, ip, at[i]) && at[i + 1] == at[i]
            + head_at(arch, b, ip, at[i]).len
}

/// `at` holds where the instructions of the code start, from the front on, and where the last one ends.
pub open spec fn walk(arch: Arch, b: Seq<u8>, ip: int, at: Seq<int>) -> bool {
    walk_from(arch, b, ip, 0, at)
}

/// There is one way to walk the code: two walks agree as far as both go.
pub proof fn walks_agree(arch: Arch, b: Seq<u8>, ip: int, p: Seq<int>, q: Seq<int>, i: int)
    requires
        walk(arch, b, ip, p),
        walk(arch, b, ip, q),
        0 <= i < p.len(),
        i < q.len(),
    ensures
        p[i] == q[i],
    decreases i,
{
    if i > 0 {
        walks_agree(arch, b, ip, p, q, i - 1);
        assert(starts_at(arch, b, ip, p[i - 1]));
        assert(starts_at(arch, b, ip, q[i - 1]));
    }
}

/// Byte `k` of the instruction at `pos` is in its displacement or in one of its immediates, going by the
/// offsets and sizes that the decoder gives.
pub open spec fn in_constant(arch: Arch, b: Seq<u8>, ip: int, pos: int, k: int) -> bool {
    let c = x86::constants_of(width(arch), b.skip(pos), (ip + pos) as u64);
    ||| (c.displacement_at <= k && k < c.displacement_at + c.displacement_len)
    ||| (c.immediate_at <= k && k < c.immediate_at + c.immediate_len)
    ||| (c.second_at <= k && k < c.second_at + c.second_len)
}

/// The mask of the instruction at `pos` of code at `rva`: it is as long as the instruction, exactly the
/// bytes of the displacement and of the immediates are operand bytes, and a byte is fixed exactly where it
/// is none of those and no relocation patches it.
pub open spec fn masked(img: &ImageInput, b: Seq<u8>, rva: int, pos: int, m: InstrMaskV) -> bool {
    let ip = img.base + rva;
    &&& m.len == head_at(img.arch, b, ip, pos).len
    &&& m.fixed.len() == m.len
    &&& m.operand.len() == m.len
    &&& forall|k: int|
        0 <= k < m.len ==> (#[trigger] m.operand[k] <==> in_constant(img.arch, b, ip, pos, k))
    &&& forall|k: int|
        0 <= k < m.len ==> (#[trigger] m.fixed[k] <==> !in_constant(img.arch, b, ip, pos, k)
            && img.patch_at((rva + pos + k) as usize) is None)
    &&& match m.unsupported {
        Some((x, t)) => exists|k: int|
            0 <= k < m.len && x == (rva + pos + k) as usize && img.patch_at(x) == Some(
                RelocKind::Unsupported(t),
            ) && #[trigger] supported(img, rva + pos, k),
        None => supported(img, rva + pos, m.len as int),
    }
}

/// No relocation that is not supported is among the first `n` bytes at `rva`.
pub open spec fn supported(img: &ImageInput, rva: int, n: int) -> bool {
    forall|k: int|
        0 <= k < n ==> !(#[trigger] img.patch_at((rva + k) as usize) matches Some(
            RelocKind::Unsupported(_),
        ))
}

proof fn first_unsupported(img: &ImageInput, rva: int, len: int, k: int)
    requires
        0 <= k <= len,
        supported(img, rva, k),
    ensures
        match window::unsupported_from(img, rva, len, k) {
            Some((x, t)) => exists|j: int|
                0 <= j < len && x == (rva + j) as usize && img.patch_at(x) == Some(
                    RelocKind::Unsupported(t),
                ) && #[trigger] supported(img, rva, j),
            None => supported(img, rva, len),
        },
    decreases len - k,
{
    if k < len {
        match img.patch_at((rva + k) as usize) {
            Some(RelocKind::Unsupported(_)) => {
                assert(supported(img, rva, k));
            },
            _ => {
                assert(supported(img, rva, k + 1));
                first_unsupported(img, rva, len, k + 1);
            },
        }
    }
}

proof fn mask_is_masked(img: &ImageInput, b: Seq<u8>, rva: int, pos: int)
    ensures
        masked(
            img,
            b,
            rva,
            pos,
            window::mask_of(
                img,
                rva + pos,
                head_at(img.arch, b, img.base + rva, pos).len as int,
                x86::constants_of(
                    width(img.arch),
                    b.skip(pos),
                    (img.base + rva + pos) as u64,
                ),
            ),
        ),
{
    let len = head_at(img.arch, b, img.base + rva, pos).len as int;
    first_unsupported(img, rva + pos, len, 0);
}

proof fn masks_walk(img: &ImageInput, b: Seq<u8>, rva: int, pos: int, left: nat) -> (at: Seq<int>)
    requires
        0 <= pos <= b.len(),
    ensures
        walk_from(img.arch, b, img.base + rva, pos, at),
        at.len() == window::masks_from(img, b, rva, pos, left).len() + 1,
        at.len() <= left + 1,
        forall|i: int|
            0 <= i < at.len() - 1 ==> #[trigger] masked(
                img,
                b,
                rva,
                at[i],
                window::masks_from(img, b, rva, pos, left)[i],
            ),
        at.len() == left + 1 || !starts_at(img.arch, b, img.base + rva, at.last()),
    decreases left,
{
    if left == 0 || !(0 <= pos < b.len()) {
        seq![pos]
    } else {
        let h = head_at(img.arch, b, img.base + rva, pos);
        if !decode::decodable(h, b.skip(pos)) {
            seq![pos]
        } else {
            let more = masks_walk(img, b, rva, pos + h.len, (left - 1) as nat);
            let at = seq![pos] + more;
            mask_is_masked(img, b, rva, pos);
            let masks = window::masks_from(img, b, rva, pos, left);
            let rest = window::masks_from(img, b, rva, pos + h.len, (left - 1) as nat);
            assert forall|i: int| #![trigger at[i]] 0 <= i < at.len() - 1 implies starts_at(
                img.arch,
                b,
                img.base + rva,
                at[i],
            ) && at[i + 1] == at[i] + head_at(img.arch, b, img.base + rva, at[i]).len && masked(
                img,
                b,
                rva,
                at[i],
                masks[i],
            ) by {
                if i > 0 {
                    assert(at[i] == more[i - 1]);
                    assert(at[i + 1] == more[i]);
                    assert(starts_at(img.arch, b, img.base + rva, more[i - 1]));
                    assert(masks[i] == rest[i - 1]);
                    assert(masked(img, b, rva, more[i - 1], rest[i - 1]));
                } else {
                    assert(at[1] == more[0]);
                }
            }
            assert(at.last() == more.last());
            at
        }
    }
}

/// The masks of a window follow its instructions. They are as many as a window of `max_len` bytes is cut
/// into, half as many as it has bytes and eight, unless the code ends or is no instruction before that.
pub proof fn masks_follow_the_code(img: &ImageInput, b: Seq<u8>, rva: int, max_len: usize) -> (at: Seq<
    int,
>)
    ensures
        walk(img.arch, b, img.base + rva, at),
        at.len() == window::masks_of(img, b, rva, max_len).len() + 1,
        forall|i: int|
            0 <= i < at.len() - 1 ==> #[trigger] masked(
                img,
                b,
                rva,
                at[i],
                window::masks_of(img, b, rva, max_len)[i],
            ),
        at.len() <= max_len / 2 + 9,
        at.len() < max_len / 2 + 9 ==> !starts_at(img.arch, b, img.base + rva, at.last()),
{
    masks_walk(img, b, rva, 0, window::instruction_limit(max_len))
}

/// `part` is in `all` from `off` on.
spec fn lies(all: Seq<bool>, part: Seq<bool>, off: int) -> bool {
    &&& 0 <= off
    &&& off + part.len() <= all.len()
    &&& forall|k: int| 0 <= k < part.len() ==> #[trigger] part[k] == all[off + k]
}

/// Instruction `i` is at its place in what was laid out.
spec fn lies_at(masks: Seq<InstrMaskV>, at: Seq<int>, n: int, i: int) -> bool {
    &&& lies(window::all_fixed(masks.take(n)), masks[i].fixed, at[i])
    &&& lies(window::all_operand(masks.take(n)), masks[i].operand, at[i])
}

/// The masks have the lengths of the walk.
spec fn sized(masks: Seq<InstrMaskV>, at: Seq<int>) -> bool {
    &&& at.len() == masks.len() + 1
    &&& at[0] == 0
    &&& forall|i: int|
        #![trigger masks[i]]
        0 <= i < masks.len() ==> at[i + 1] == at[i] + masks[i].len && masks[i].fixed.len()
            == masks[i].len && masks[i].operand.len() == masks[i].len
}

proof fn laid_out(masks: Seq<InstrMaskV>, at: Seq<int>, n: int)
    requires
        0 <= n <= masks.len(),
        sized(masks, at),
    ensures
        window::all_fixed(masks.take(n)).len() == at[n],
        window::all_operand(masks.take(n)).len() == at[n],
        window::span(masks.take(n)) == at[n],
        at[n] >= 0,
        forall|i: int| 0 <= i < n ==> #[trigger] lies_at(masks, at, n, i),
    decreases n,
{
    if n > 0 {
        laid_out(masks, at, n - 1);
        let t = masks.take(n);
        assert(t.drop_last() =~= masks.take(n - 1));
        assert(t.last() == masks[n - 1]);
        assert forall|i: int| 0 <= i < n implies #[trigger] lies_at(masks, at, n, i) by {
            if i < n - 1 {
                assert(lies_at(masks, at, n - 1, i));
            }
        }
    }
}

/// Byte `k` of the instruction at `pos` is an operand byte of the window exactly where it is in a
/// constant, and fixed exactly where it is not and no relocation patches it.
pub open spec fn shown(
    img: &ImageInput,
    b: Seq<u8>,
    rva: int,
    fixed: Seq<bool>,
    operand: Seq<bool>,
    pos: int,
    k: int,
) -> bool {
    let constant = in_constant(img.arch, b, img.base + rva, pos, k);
    let patched = img.patch_at((rva + pos + k) as usize) is Some;
    &&& 0 <= pos + k < fixed.len()
    &&& operand[pos + k] <==> constant
    &&& fixed[pos + k] <==> !constant && !patched
}

/// Byte by byte, a window fixes what is neither displacement nor immediate of its instruction and what no
/// relocation patches, and nothing else of what was decoded.
pub proof fn windows_fix_no_constant(img: &ImageInput, b: Seq<u8>, rva: int, max_len: usize) -> (at: Seq<
    int,
>)
    ensures
        ({
            let masks = window::masks_of(img, b, rva, max_len);
            let fixed = window::all_fixed(masks);
            let operand = window::all_operand(masks);
            &&& walk(img.arch, b, img.base + rva, at)
            &&& at.len() == masks.len() + 1
            &&& forall|i: int|
                0 <= i < masks.len() ==> #[trigger] masked(img, b, rva, at[i], masks[i])
            &&& fixed.len() == at.last()
            &&& operand.len() == at.last()
            &&& at.len() <= max_len / 2 + 9
            &&& at.len() < max_len / 2 + 9 ==> !starts_at(
                img.arch,
                b,
                img.base + rva,
                at.last(),
            )
            &&& forall|i: int, k: int|
                0 <= i < at.len() - 1 && 0 <= k < at[i + 1] - at[i] ==> #[trigger] shown(
                    img,
                    b,
                    rva,
                    fixed,
                    operand,
                    at[i],
                    k,
                )
        }),
{
    let at = masks_follow_the_code(img, b, rva, max_len);
    let masks = window::masks_of(img, b, rva, max_len);
    let fixed = window::all_fixed(masks);
    let operand = window::all_operand(masks);
    assert(sized(masks, at)) by {
        assert forall|i: int|
            #![trigger masks[i]]
            0 <= i < masks.len() implies at[i + 1] == at[i] + masks[i].len && masks[i].fixed.len()
            == masks[i].len && masks[i].operand.len() == masks[i].len by {
            assert(starts_at(img.arch, b, img.base + rva, at[i]));
            assert(masked(img, b, rva, at[i], masks[i]));
        }
    }
    laid_out(masks, at, masks.len() as int);
    assert(masks.take(masks.len() as int) =~= masks);
    assert forall|i: int, k: int|
        0 <= i < at.len() - 1 && 0 <= k < at[i + 1] - at[i] implies #[trigger] shown(
        img,
        b,
        rva,
        fixed,
        operand,
        at[i],
        k,
    ) by {
        assert(starts_at(img.arch, b, img.base + rva, at[i]));
        assert(masked(img, b, rva, at[i], masks[i]));
        assert(lies_at(masks, at, masks.len() as int, i));
        assert(masks[i].fixed[k] == fixed[at[i] + k]);
        assert(masks[i].operand[k] == operand[at[i] + k]);
    }
    at
}

/// Operand `k` of the instruction at `pos` is an immediate of 32 or 64 bits with the value `v`.
pub open spec fn takes(arch: Arch, b: Seq<u8>, ip: int, pos: int, k: u32, v: u64) -> bool {
    let h = head_at(arch, b, ip, pos);
    let kind = x86::operand_of(width(arch), b.skip(pos), (ip + pos) as u64, k);
    &&& k < h.operands
    &&& (kind == Operand::Immediate32 && v == h.immediate32) || ((kind == Operand::Immediate32to64
        || kind == Operand::Immediate64) && v == h.immediate64)
}

/// The instruction at `pos` returns.
pub open spec fn ends_call(arch: Arch, b: Seq<u8>, ip: int, pos: int) -> bool {
    x86::flow_of(width(arch), b.skip(pos), (ip + pos) as u64) == Flow::Return
}

/// An instruction of the walk takes the value as a wide immediate.
pub open spec fn used(arch: Arch, b: Seq<u8>, ip: int, at: Seq<int>, v: u64) -> bool {
    exists|i: int, k: u32|
        0 <= i < at.len() - 1 && #[trigger] takes(arch, b, ip, at[i], k, v)
}

/// A value that tells: at least 0x100, and taken for an address it is none in the image.
pub open spec fn tells(img: &ImageInput, v: u64) -> bool {
    v >= 0x100 && !(img.base <= (v as usize) && (v as usize) < img.base + img.size)
}

spec fn ascends(s: Seq<u64>) -> bool {
    forall|i: int, j: int| 0 <= i < j < s.len() ==> s[i] < s[j]
}

proof fn ins_ascends(s: Seq<u64>, x: u64)
    requires
        ascends(s),
    ensures
        ascends(ordered::ins(s, x, ordered::ascending())),
        forall|v: u64| #[trigger]
            ordered::ins(s, x, ordered::ascending()).contains(v) <==> v == x || s.contains(v),
{
    ordered::numbers_are_ordered();
    ordered::ins_keeps_order(s, x, ordered::ascending());
}

proof fn constants_of_one(
    img: &ImageInput,
    set: Seq<u64>,
    b: Seq<u8>,
    start: int,
    pos: int,
    n: nat,
)
    requires
        img.wf(),
        ascends(set),
        n <= head_at(img.arch, b, start, pos).operands,
    ensures
        ({
            let out = constants::constants_in(img, set, b.skip(pos), (start + pos) as u64, n);
            &&& ascends(out)
            &&& forall|v: u64| #[trigger]
                out.contains(v) <==> (set.contains(v) || (tells(img, v) && exists|k: u32|
                    k < n && #[trigger] takes(img.arch, b, start, pos, k, v)))
        }),
    decreases n,
{
    if n > 0 {
        constants_of_one(img, set, b, start, pos, (n - 1) as nat);
        let bits = width(img.arch);
        let ip = (start + pos) as u64;
        let before = constants::constants_in(img, set, b.skip(pos), ip, (n - 1) as nat);
        let out = constants::constants_in(img, set, b.skip(pos), ip, n);
        let h = head_at(img.arch, b, start, pos);
        let kind = x86::operand_of(bits, b.skip(pos), ip, (n - 1) as u32);
        let wide = constants::wide_immediate(h, kind);
        if let Some(v) = wide {
            ins_ascends(before, v);
            assert(constants::telling(img, v) <==> tells(img, v));
        }
        assert forall|v: u64| #[trigger] out.contains(v) <==> (set.contains(v) || (tells(img, v)
            && exists|k: u32| k < n && #[trigger] takes(img.arch, b, start, pos, k, v))) by {
            let here = takes(img.arch, b, start, pos, (n - 1) as u32, v);
            assert(here <==> wide == Some(v));
            assert(before.contains(v) <==> (set.contains(v) || (tells(img, v) && exists|k: u32|
                k < n - 1 && #[trigger] takes(img.arch, b, start, pos, k, v))));
            if exists|k: u32| k < n && #[trigger] takes(img.arch, b, start, pos, k, v) {
                let k = choose|k: u32| k < n && #[trigger] takes(img.arch, b, start, pos, k, v);
                if k == n - 1 {
                    assert(here);
                }
            }
            if exists|k: u32| k < n - 1 && #[trigger] takes(img.arch, b, start, pos, k, v) {
                let k = choose|k: u32| k < n - 1 && #[trigger] takes(img.arch, b, start, pos, k, v);
                assert(k < n && takes(img.arch, b, start, pos, k, v));
            }
        }
    }
}

pub(crate) proof fn walk_grows(arch: Arch, b: Seq<u8>, ip: int, pos: int, rest: Seq<int>)
    requires
        starts_at(arch, b, ip, pos),
        !ends_call(arch, b, ip, pos),
        walk_from(arch, b, ip, pos + head_at(arch, b, ip, pos).len, rest),
        forall|i: int| 0 <= i < rest.len() - 2 ==> !#[trigger] ends_call(arch, b, ip, rest[i]),
    ensures
        ({
            let at = seq![pos] + rest;
            &&& walk_from(arch, b, ip, pos, at)
            &&& forall|i: int| 0 <= i < at.len() - 2 ==> !#[trigger] ends_call(arch, b, ip, at[i])
            &&& at.last() == rest.last()
            &&& rest.len() > 1 ==> at[at.len() - 2] == rest[rest.len() - 2]
        }),
{
    let at = seq![pos] + rest;
    assert forall|i: int| 0 <= i < at.len() - 1 implies #[trigger] starts_at(arch, b, ip, at[i]) && at[i
        + 1] == at[i] + head_at(arch, b, ip, at[i]).len by {
        if i > 0 {
            assert(at[i] == rest[i - 1]);
            assert(at[i + 1] == rest[i]);
            assert(starts_at(arch, b, ip, rest[i - 1]));
        } else {
            assert(at[1] == rest[0]);
        }
    }
    assert forall|i: int| 0 <= i < at.len() - 2 implies !#[trigger] ends_call(arch, b, ip, at[i]) by {
        if i > 0 {
            assert(at[i] == rest[i - 1]);
            assert(!ends_call(arch, b, ip, rest[i - 1]));
        }
    }
}

proof fn used_grows(arch: Arch, b: Seq<u8>, ip: int, pos: int, rest: Seq<int>, v: u64)
    requires
        rest.len() > 0,
    ensures
        used(arch, b, ip, seq![pos] + rest, v) <==> used(arch, b, ip, rest, v) || exists|k: u32|
            k < head_at(arch, b, ip, pos).operands && #[trigger] takes(arch, b, ip, pos, k, v),
{
    let at = seq![pos] + rest;
    if exists|k: u32|
        k < head_at(arch, b, ip, pos).operands && #[trigger] takes(arch, b, ip, pos, k, v) {
        let k = choose|k: u32|
            k < head_at(arch, b, ip, pos).operands && #[trigger] takes(arch, b, ip, pos, k, v);
        assert(takes(arch, b, ip, at[0], k, v));
    }
    if used(arch, b, ip, rest, v) {
        let (i, k) = choose|i: int, k: u32|
            0 <= i < rest.len() - 1 && #[trigger] takes(arch, b, ip, rest[i], k, v);
        assert(takes(arch, b, ip, at[i + 1], k, v));
    }
    if used(arch, b, ip, at, v) {
        let (i, k) = choose|i: int, k: u32|
            0 <= i < at.len() - 1 && #[trigger] takes(arch, b, ip, at[i], k, v);
        if i > 0 {
            assert(takes(arch, b, ip, rest[i - 1], k, v));
        } else {
            assert(takes(arch, b, ip, pos, k, v));
        }
    }
}

proof fn constants_walk(
    img: &ImageInput,
    set: Seq<u64>,
    b: Seq<u8>,
    start: int,
    pos: int,
    left: nat,
) -> (at: Seq<int>)
    requires
        img.wf(),
        0 <= pos <= b.len(),
        ascends(set),
    ensures
        walk_from(img.arch, b, start, pos, at),
        at.len() <= left + 1,
        forall|i: int| 0 <= i < at.len() - 2 ==> !#[trigger] ends_call(img.arch, b, start, at[i]),
        at.len() == left + 1 || !starts_at(img.arch, b, start, at.last()) || (at.len() > 1 && ends_call(
            img.arch,
            b,
            start,
            at[at.len() - 2],
        )),
        ascends(constants::constants_from(img, set, b, start, pos, left)),
        forall|v: u64| #[trigger]
            constants::constants_from(img, set, b, start, pos, left).contains(v) <==> (set.contains(v)
                || (tells(img, v) && used(img.arch, b, start, at, v))),
    decreases left,
{
    if left == 0 || !(0 <= pos < b.len()) {
        seq![pos]
    } else {
        let h = head_at(img.arch, b, start, pos);
        if !decode::decodable(h, b.skip(pos)) {
            seq![pos]
        } else {
            constants_of_one(img, set, b, start, pos, h.operands as nat);
            let mid = constants::constants_in(
                img,
                set,
                b.skip(pos),
                (start + pos) as u64,
                h.operands as nat,
            );
            let out = constants::constants_from(img, set, b, start, pos, left);
            if ends_call(img.arch, b, start, pos) {
                let at = seq![pos, pos + h.len];
                assert forall|v: u64| #[trigger] out.contains(v) <==> (set.contains(v) || (tells(img, v)
                    && used(img.arch, b, start, at, v))) by {
                    assert(mid.contains(v) <==> (set.contains(v) || (tells(img, v) && exists|k: u32|
                        k < h.operands && #[trigger] takes(img.arch, b, start, pos, k, v))));
                    if exists|k: u32|
                        k < h.operands && #[trigger] takes(img.arch, b, start, pos, k, v) {
                        let k = choose|k: u32|
                            k < h.operands && #[trigger] takes(img.arch, b, start, pos, k, v);
                        assert(takes(img.arch, b, start, at[0], k, v));
                    }
                }
                at
            } else {
                let more = constants_walk(img, mid, b, start, pos + h.len, (left - 1) as nat);
                let at = seq![pos] + more;
                walk_grows(img.arch, b, start, pos, more);
                assert forall|v: u64| #[trigger] out.contains(v) <==> (set.contains(v) || (tells(img, v)
                    && used(img.arch, b, start, at, v))) by {
                    assert(out.contains(v) <==> (mid.contains(v) || (tells(img, v) && used(
                        img.arch,
                        b,
                        start,
                        more,
                        v,
                    ))));
                    assert(mid.contains(v) <==> (set.contains(v) || (tells(img, v) && exists|k: u32|
                        k < h.operands && #[trigger] takes(img.arch, b, start, pos, k, v))));
                    used_grows(img.arch, b, start, pos, more, v);
                }
                at
            }
        }
    }
}

/// The constants of a function are exactly the immediates of 32 and 64 bits, 0x100 or more and outside
/// the addresses of the image, that its instructions take up to the first return, in ascending order.
pub proof fn constants_are_what_the_code_takes(img: &ImageInput, rva: int) -> (at: Seq<int>)
    requires
        img.wf(),
    ensures
        ({
            let b = img.bytes(img.base + rva, 3200);
            let ip = img.base + rva;
            let out = constants::constants_of(img, rva);
            &&& walk(img.arch, b, ip, at)
            &&& at.len() <= 401
            &&& forall|i: int|
                0 <= i < at.len() - 2 ==> !#[trigger] ends_call(img.arch, b, ip, at[i])
            &&& at.len() == 401 || !starts_at(img.arch, b, ip, at.last()) || (at.len() > 1
                && ends_call(img.arch, b, ip, at[at.len() - 2]))
            &&& forall|i: int, j: int| 0 <= i < j < out.len() ==> out[i] < out[j]
            &&& forall|v: u64| #[trigger]
                out.contains(v) <==> tells(img, v) && used(img.arch, b, ip, at, v)
            &&& forall|v: u64| #[trigger]
                out.contains(v) ==> v >= 0x100 && !(img.base <= v && v < img.base + img.size)
        }),
{
    let b = img.bytes(img.base + rva, SCAN_BYTES as nat);
    let at = constants_walk(img, Seq::empty(), b, img.base + rva, 0, SCAN_INSTRS as nat);
    let out = constants::constants_of(img, rva);
    assert forall|v: u64| #[trigger] out.contains(v) <==> tells(img, v) && used(
        img.arch,
        b,
        img.base + rva,
        at,
        v,
    ) by {
        assert(out.contains(v) <==> (Seq::<u64>::empty().contains(v) || (tells(img, v) && used(
            img.arch,
            b,
            img.base + rva,
            at,
            v,
        ))));
    }
    at
}

proof fn lone_is_first(img: &ImageInput, s: Seq<u64>, i: int)
    requires
        0 <= i <= s.len(),
    ensures
        match constants::lone_constant(img, s, i) {
            Some(v) => exists|k: int|
                i <= k < s.len() && #[trigger] s[k] == v && constants::rarity(img, v) == 1
                    && forall|j: int| i <= j < k ==> constants::rarity(img, #[trigger] s[j]) != 1,
            None => forall|j: int| i <= j < s.len() ==> constants::rarity(img, #[trigger] s[j]) != 1,
        },
    decreases s.len() - i,
{
    if i < s.len() && constants::rarity(img, s[i]) != 1 {
        lone_is_first(img, s, i + 1);
    }
}

/// A constant anchor is no address in the image, is 0x100 or more, and is the least of the function's
/// constants whose bytes are in the code once; there is none only where no constant of the function is in
/// the code once.
pub proof fn anchors_are_no_addresses(img: &ImageInput, rva: int)
    requires
        img.wf(),
    ensures
        ({
            let all = constants::constants_of(img, rva);
            match constants::lone_constant(img, all, 0) {
                Some(v) => {
                    &&& v >= 0x100
                    &&& !(img.base <= v && v < img.base + img.size)
                    &&& all.contains(v)
                    &&& constants::rarity(img, v) == 1
                    &&& forall|w: u64| #[trigger]
                        all.contains(w) && w < v ==> constants::rarity(img, w) != 1
                },
                None => forall|w: u64| #[trigger]
                    all.contains(w) ==> constants::rarity(img, w) != 1,
            }
        }),
{
    let all = constants::constants_of(img, rva);
    let at = constants_are_what_the_code_takes(img, rva);
    lone_is_first(img, all, 0);
    match constants::lone_constant(img, all, 0) {
        Some(v) => {
            let k = choose|k: int|
                0 <= k < all.len() && #[trigger] all[k] == v && constants::rarity(img, v) == 1
                    && forall|j: int| 0 <= j < k ==> constants::rarity(img, #[trigger] all[j]) != 1;
            assert(all.contains(v));
            assert forall|w: u64| #[trigger] all.contains(w) && w < v implies constants::rarity(img, w)
                != 1 by {
                let j = choose|j: int| 0 <= j < all.len() && all[j] == w;
                if j > k {
                    assert(all[k] < all[j]);
                }
            }
        },
        None => {
            assert forall|w: u64| #[trigger] all.contains(w) implies constants::rarity(img, w) != 1 by {
                let j = choose|j: int| 0 <= j < all.len() && all[j] == w;
            }
        },
    }
}

}
