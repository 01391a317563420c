//! Rare-constant anchored relocation: a function that uses a globally rare immediate (a packet opcode, a
//! damage-formula multiplier, a crypto constant) is anchorable by that constant. The value is fixed by
//! the source, so a recompile that rewrites the surrounding code preserves it, and a value that occurs
//! exactly once in the code pins its function. The rarity measure is the constant's byte-occurrence
//! count in the code, and an anchor whose value lands in more than one function declines.

use crate::le;
use crate::le::{matches_at, tail_of, u32_bytes, u64_bytes};
use crate::ordered;
use crate::ordered::insert_u64;
use crate::sigmaker::callers::{SCAN_BYTES, SCAN_INSTRS};
use crate::sigmaker::decode;
use crate::sigmaker::decode::bitness;
use crate::sigmaker::strings;
use crate::sigmaker::strings::enclosing_function;
use crate::sigmaker::types::ImageInput;
use crate::x86;
use crate::x86::{Flow, Operand};
use vstd::prelude::*;

verus! {

/// Below this an immediate is a one-byte flag or tiny offset whose bytes collide with zero padding.
/// Above it the exactly-once occurrence test, not the magnitude, enforces distinctiveness, so packet
/// opcodes and similar small but rare constants are admitted.
pub const MIN_CONSTANT: u64 = 0x100;

/// A constant that pins a function.
pub struct ConstantAnchor {
    pub value: u64,
}

/// The bytes a value is looked for by: four where it fits in 32 bits, eight otherwise.
pub open spec fn bytes_of(value: u64) -> Seq<u8> {
    if value <= 0xFFFF_FFFF {
        le::le32_bytes(value as u32)
    } else {
        le::le64_bytes(value)
    }
}

fn needle_of(value: u64) -> (b: Vec<u8>)
    ensures
        b@ == bytes_of(value),
        b@.len() == 4 || b@.len() == 8,
{
    if value <= 0xFFFF_FFFF {
        u32_bytes(value as u32)
    } else {
        u64_bytes(value)
    }
}

/// The value of a 32- or 64-bit immediate operand.
pub open spec fn wide_immediate(h: x86::Head, k: Operand) -> Option<u64> {
    match k {
        Operand::Immediate32 => Some(h.immediate32 as u64),
        Operand::Immediate32to64 | Operand::Immediate64 => Some(h.immediate64),
        _ => None,
    }
}

/// A literal large enough to tell, and no address into the image.
pub open spec fn telling(img: &ImageInput, v: u64) -> bool {
    v >= MIN_CONSTANT && !img.in_image(v as usize as int)
}

/// `set` with the telling immediates among the first `n` operands.
pub open spec fn constants_in(
    img: &ImageInput,
    set: Seq<u64>,
    b: Seq<u8>,
    ip: u64,
    n: nat,
) -> Seq<u64>
    decreases n,
{
    if n == 0 {
        set
    } else {
        let bits = decode::mode(img.arch);
        let before = constants_in(img, set, b, ip, (n - 1) as nat);
        match wide_immediate(x86::head_of(bits, b, ip), x86::operand_of(bits, b, ip, (n - 1) as u32)) {
            Some(v) => if telling(img, v) {
                ordered::ins(before, v, ordered::ascending())
            } else {
                before
            },
            None => before,
        }
    }
}

/// `set` with the telling immediates of the next `left` instructions of `b`, which sits at `start`,
/// up to the first return.
pub open spec fn constants_from(
    img: &ImageInput,
    set: Seq<u64>,
    b: Seq<u8>,
    start: int,
    pos: int,
    left: nat,
) -> Seq<u64>
    decreases left,
{
    if left == 0 || !(0 <= pos < b.len()) {
        set
    } else {
        let bits = decode::mode(img.arch);
        let rest = b.skip(pos);
        let ip = (start + pos) as u64;
        let h = x86::head_of(bits, rest, ip);
        if !decode::decodable(h, rest) {
            set
        } else {
            let more = constants_in(img, set, rest, ip, h.operands as nat);
            if x86::flow_of(bits, rest, ip) == Flow::Return {
                more
            } else {
                constants_from(img, more, b, start, pos + h.len, (left - 1) as nat)
            }
        }
    }
}

/// The telling constants of the function at `rva`, ascending.
pub open spec fn constants_of(img: &ImageInput, rva: int) -> Seq<u64> {
    constants_from(
        img,
        Seq::empty(),
        img.bytes(img.base + rva, SCAN_BYTES as nat),
        img.base + rva,
        0,
        SCAN_INSTRS as nat,
    )
}

/// The distinctive immediate constants the function at `rva` uses, ascending: 32- and 64-bit immediates
/// large enough to be real literals and not addresses into this image (an in-image value is a pointer a
/// recompile moves, not a stable constant). Decoded to the first return.
pub fn function_constants(img: &ImageInput, rva: usize) -> (out: Vec<u64>)
    requires
        img.wf(),
        img.reaches(rva as int),
    ensures
        out@ == constants_of(img, rva as int),
{
    let bits: u32 = bitness(img.arch);
    let start: usize = img.base + rva;
    let b = img.read(start, SCAN_BYTES);
    let mut out: Vec<u64> = Vec::new();
    let mut pos: usize = 0;
    let mut left: usize = SCAN_INSTRS;
    while left > 0 && pos < b.len()
        invariant
            img.wf(),
            bits == decode::mode(img.arch),
            x86::is_mode(bits),
            start + b@.len() <= usize::MAX,
            pos <= b@.len(),
            constants_of(img, rva as int) == constants_from(
                img,
                out@,
                b@,
                start as int,
                pos as int,
                left as nat,
            ),
        decreases left,
    {
        let rest = tail_of(b.as_slice(), pos);
        let ip: u64 = (start + pos) as u64;
        let h = x86::head(bits, rest, ip);
        if h.invalid || h.len == 0 || h.len > rest.len() {
            return out;
        }
        let ghost set = out@;
        let mut k: u32 = 0;
        while k < h.operands
            invariant
                img.wf(),
                bits == decode::mode(img.arch),
                x86::is_mode(bits),
                h == x86::head_of(bits, rest@, ip),
                h.operands <= 5,
                k <= h.operands,
                out@ == constants_in(img, set, rest@, ip, k as nat),
            decreases h.operands - k,
        {
            let v: Option<u64> = match x86::operand(bits, rest, ip, k) {
                Operand::Immediate32 => Some(h.immediate32 as u64),
                Operand::Immediate32to64 | Operand::Immediate64 => Some(h.immediate64),
                _ => None,
            };
            if let Some(v) = v {
                let at: usize = v as usize;
                if v >= MIN_CONSTANT && !(at >= img.base && at - img.base < img.size) {
                    insert_u64(&mut out, v);
                }
            }
            k += 1;
        }
        if x86::flow(bits, rest, ip) == Flow::Return {
            return out;
        }
        pos += h.len;
        left -= 1;
    }
    out
}

/// How many times `needle` occurs from `i` on.
pub open spec fn occurrences(b: Seq<u8>, needle: Seq<u8>, i: int) -> nat
    decreases b.len() - i,
{
    if !(0 <= i < b.len()) {
        0
    } else {
        occurrences(b, needle, i + 1) + if le::occurs_at(b, i, needle) {
            1nat
        } else {
            0nat
        }
    }
}

/// How many times `needle` occurs in the first `n` code regions.
pub open spec fn code_occurrences(img: &ImageInput, needle: Seq<u8>, n: int) -> nat
    decreases n,
{
    if n <= 0 {
        0
    } else {
        let r = img.code_regions@[n - 1];
        code_occurrences(img, needle, n - 1) + occurrences(
            img.bytes(r.base as int, r.size as nat),
            needle,
            0,
        )
    }
}

/// How many times the bytes of a value occur in the code.
pub open spec fn rarity(img: &ImageInput, value: u64) -> nat {
    code_occurrences(img, bytes_of(value), img.code_regions@.len() as int)
}

/// How many times the little-endian bytes of `value` occur across the code regions, or the greatest
/// number there is if they are more: a fast rarity proxy that needs no decode. A coincidental byte run
/// that is not an immediate only inflates the count, which makes the rarity test conservative.
pub fn code_byte_count(img: &ImageInput, value: u64) -> (count: usize)
    requires
        img.wf(),
    ensures
        count == (if rarity(img, value) <= usize::MAX {
            rarity(img, value)
        } else {
            usize::MAX as nat
        }),
{
    let needle = needle_of(value);
    let mut count: usize = 0;
    let mut n: usize = 0;
    while n < img.code_regions.len()
        invariant
            img.wf(),
            n <= img.code_regions@.len(),
            count == (if code_occurrences(img, needle@, n as int) <= usize::MAX {
                code_occurrences(img, needle@, n as int)
            } else {
                usize::MAX as nat
            }),
        decreases img.code_regions@.len() - n,
    {
        let r = img.code_regions[n];
        let b = img.read(r.base, r.size);
        let mut here: usize = 0;
        let mut i: usize = 0;
        let end: usize = b.len();
        while i < end
            invariant
                end == b@.len(),
                i <= end,
                here <= i,
                occurrences(b@, needle@, 0) == here + occurrences(b@, needle@, i as int),
            decreases end - i,
        {
            if matches_at(b.as_slice(), i, needle.as_slice()) {
                here += 1;
            }
            i += 1;
        }
        count = count.saturating_add(here);
        n += 1;
    }
    count
}

/// The first constant from `i` on whose bytes occur once in the code.
pub open spec fn lone_constant(img: &ImageInput, s: Seq<u64>, i: int) -> Option<u64>
    decreases s.len() - i,
{
    if !(0 <= i < s.len()) {
        None
    } else if rarity(img, s[i]) == 1 {
        Some(s[i])
    } else {
        lone_constant(img, s, i + 1)
    }
}

/// Build a constant anchor for the function at `rva`: the least constant it uses whose bytes occur
/// exactly once in the whole code, so that one occurrence is its immediate. `None` if the function has
/// no such constant.
pub fn make_constant_anchor(img: &ImageInput, rva: usize) -> (r: Option<ConstantAnchor>)
    requires
        img.wf(),
        img.reaches(rva as int),
    ensures
        match r {
            Some(a) => lone_constant(img, constants_of(img, rva as int), 0) == Some(a.value),
            None => lone_constant(img, constants_of(img, rva as int), 0) is None,
        },
{
    let all = function_constants(img, rva);
    let mut i: usize = 0;
    while i < all.len()
        invariant
            img.wf(),
            i <= all@.len(),
            all@ == constants_of(img, rva as int),
            lone_constant(img, all@, 0) == lone_constant(img, all@, i as int),
        decreases all@.len() - i,
    {
        if code_byte_count(img, all[i]) == 1 {
            return Some(ConstantAnchor { value: all[i] });
        }
        i += 1;
    }
    None
}

/// What a search for the one function around an occurrence has come to.
#[derive(Clone, Copy, PartialEq, Eq, Structural)]
pub enum Holder {
    Nowhere,
    In(usize),
    Ambiguous,
}

/// One more function.
pub open spec fn joined(found: Holder, f: usize) -> Holder {
    match found {
        Holder::Nowhere => Holder::In(f),
        Holder::In(p) => if p == f {
            found
        } else {
            Holder::Ambiguous
        },
        Holder::Ambiguous => found,
    }
}

/// `found` and the functions around the occurrences of `needle` before offset `n`.
pub open spec fn holder_before(
    img: &ImageInput,
    found: Holder,
    b: Seq<u8>,
    base: int,
    needle: Seq<u8>,
    n: int,
) -> Holder
    decreases n,
{
    if n <= 0 {
        found
    } else {
        let before = holder_before(img, found, b, base, needle, n - 1);
        if le::occurs_at(b, n - 1, needle) {
            joined(before, strings::enclosing(img, base + n - 1 - img.base) as usize)
        } else {
            before
        }
    }
}

/// The functions around the occurrences of `needle` in the first `n` code regions.
pub open spec fn holder_in(img: &ImageInput, needle: Seq<u8>, n: int) -> Holder
    decreases n,
{
    if n <= 0 {
        Holder::Nowhere
    } else {
        let r = img.code_regions@[n - 1];
        let b = img.bytes(r.base as int, r.size as nat);
        holder_before(
            img,
            holder_in(img, needle, n - 1),
            b,
            r.base as int,
            needle,
            b.len() as int,
        )
    }
}

/// The function a constant pins.
pub open spec fn constant_anchored(img: &ImageInput, value: u64) -> Option<usize> {
    match holder_in(img, bytes_of(value), img.code_regions@.len() as int) {
        Holder::In(f) => Some(f),
        _ => None,
    }
}

/// Resolve a constant anchor to the single function in `img` whose code contains its value's bytes.
/// `None` if the bytes occur in no function or in more than one: an ambiguous anchor declines rather
/// than guess.
pub fn resolve_constant_anchor(img: &ImageInput, anchor: &ConstantAnchor) -> (r: Option<usize>)
    requires
        img.wf(),
    ensures
        r == constant_anchored(img, anchor.value),
        r matches Some(f) ==> img.reaches(f as int),
{
    let needle = needle_of(anchor.value);
    let mut found: Holder = Holder::Nowhere;
    let mut n: usize = 0;
    while n < img.code_regions.len()
        invariant
            img.wf(),
            n <= img.code_regions@.len(),
            needle@.len() > 0,
            found == holder_in(img, needle@, n as int),
            found matches Holder::In(f) ==> img.reaches(f as int),
        decreases img.code_regions@.len() - n,
    {
        let r = img.code_regions[n];
        let b = img.read(r.base, r.size);
        let ghost earlier = found;
        let mut i: usize = 0;
        while i < b.len()
            invariant
                img.wf(),
                n < img.code_regions@.len(),
                r == img.code_regions@[n as int],
                b@.len() <= r.size,
                i <= b@.len(),
                found == holder_before(img, earlier, b@, r.base as int, needle@, i as int),
                found matches Holder::In(f) ==> img.reaches(f as int),
            decreases b@.len() - i,
        {
            if matches_at(b.as_slice(), i, needle.as_slice()) {
                let f: usize = enclosing_function(img, r.base + i - img.base);
                found = match found {
                    Holder::Nowhere => Holder::In(f),
                    Holder::In(p) => if p == f {
                        found
                    } else {
                        Holder::Ambiguous
                    },
                    Holder::Ambiguous => found,
                };
            }
            i += 1;
        }
        n += 1;
    }
    match found {
        Holder::In(f) => Some(f),
        _ => None,
    }
}

proof fn lone_constant_is_rare(img: &ImageInput, s: Seq<u64>, i: int)
    ensures
        lone_constant(img, s, i) matches Some(v) ==> rarity(img, v) == 1,
    decreases s.len() - i,
{
    if 0 <= i < s.len() && rarity(img, s[i]) != 1 {
        lone_constant_is_rare(img, s, i + 1);
    }
}

proof fn holder_by_count(
    img: &ImageInput,
    found: Holder,
    b: Seq<u8>,
    base: int,
    needle: Seq<u8>,
    n: int,
)
    requires
        0 <= n <= b.len(),
    ensures
        ({
            let seen = occurrences(b, needle, 0) - occurrences(b, needle, n);
            let h = holder_before(img, found, b, base, needle, n);
            &&& seen >= 0
            &&& seen == 0 ==> h == found
            &&& seen == 1 && found == Holder::Nowhere ==> h is In
        }),
    decreases n,
{
    if n > 0 {
        holder_by_count(img, found, b, base, needle, n - 1);
    }
}

proof fn one_occurrence_has_one_holder(img: &ImageInput, needle: Seq<u8>, n: int)
    ensures
        code_occurrences(img, needle, n) == 0 ==> holder_in(img, needle, n) == Holder::Nowhere,
        code_occurrences(img, needle, n) == 1 ==> holder_in(img, needle, n) is In,
    decreases n,
{
    if n > 0 {
        one_occurrence_has_one_holder(img, needle, n - 1);
        let r = img.code_regions@[n - 1];
        let b = img.bytes(r.base as int, r.size as nat);
        holder_by_count(
            img,
            holder_in(img, needle, n - 1),
            b,
            r.base as int,
            needle,
            b.len() as int,
        );
    }
}

/// A constant anchor pins exactly one function in the build it was made in.
pub proof fn constant_anchor_pins_one_function(img: &ImageInput, rva: int)
    ensures
        lone_constant(img, constants_of(img, rva), 0) matches Some(v) ==> holder_in(
            img,
            bytes_of(v),
            img.code_regions@.len() as int,
        ) is In,
{
    let s = constants_of(img, rva);
    lone_constant_is_rare(img, s, 0);
    if let Some(v) = lone_constant(img, s, 0) {
        one_occurrence_has_one_holder(img, bytes_of(v), img.code_regions@.len() as int);
    }
}

}
