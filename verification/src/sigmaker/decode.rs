//! What the signature maker reads off a decoded instruction.

use crate::pattern::Arch;
use crate::x86;
use crate::x86::{Flow, Head, Operand};
use vstd::prelude::*;

verus! {

/// The decoding mode of an architecture.
pub open spec fn mode(arch: Arch) -> u32 {
    match arch {
        Arch::X64 => 64,
        Arch::X86 => 32,
    }
}

/// The decoding mode of an architecture.
pub fn bitness(arch: Arch) -> (bits: u32)
    ensures
        bits == mode(arch),
        x86::is_mode(bits),
{
    match arch {
        Arch::X64 => 64,
        Arch::X86 => 32,
    }
}

/// The bytes start an instruction.
pub open spec fn decodable(h: Head, b: Seq<u8>) -> bool {
    !h.invalid && 0 < h.len <= b.len()
}

/// How far a linear sweep moves on: past what was decoded, instruction or not.
pub open spec fn step(h: Head, b: Seq<u8>) -> int {
    if 0 < h.len <= b.len() {
        h.len as int
    } else {
        b.len() as int
    }
}

/// Whether one of the first `n` operands refers to memory.
pub open spec fn touches_memory(bits: u32, b: Seq<u8>, ip: u64, n: int) -> bool {
    exists|i: u32| i < n && #[trigger] x86::operand_of(bits, b, ip, i) == Operand::Memory
}

/// Whether an operand of the instruction refers to memory.
pub fn has_memory(bits: u32, b: &[u8], ip: u64, n: u32) -> (r: bool)
    requires
        x86::is_mode(bits),
        n <= 5,
    ensures
        r == touches_memory(bits, b@, ip, n as int),
{
    let mut i: u32 = 0;
    while i < n
        invariant
            x86::is_mode(bits),
            i <= n <= 5,
            forall|k: u32| k < i ==> #[trigger] x86::operand_of(bits, b@, ip, k) != Operand::Memory,
        decreases n - i,
    {
        if x86::operand(bits, b, ip, i) == Operand::Memory {
            return true;
        }
        i += 1;
    }
    false
}

/// The address a memory operand names outright: an ip-relative one, or on x86 one without base and
/// index register.
pub open spec fn named_address(bits: u32, b: Seq<u8>, ip: u64, arch: Arch) -> Option<usize> {
    let m = x86::memory_of(bits, b, ip);
    if !touches_memory(bits, b, ip, x86::head_of(bits, b, ip).operands as int) {
        None
    } else if m.ip_relative {
        Some(m.ip_address as usize)
    } else if arch == Arch::X86 && m.no_base && m.no_index {
        Some(m.displacement as usize)
    } else {
        None
    }
}

/// The address a memory operand of the instruction names outright.
pub fn mem_target(bits: u32, b: &[u8], ip: u64, arch: Arch) -> (r: Option<usize>)
    requires
        x86::is_mode(bits),
    ensures
        r == named_address(bits, b@, ip, arch),
{
    let h = x86::head(bits, b, ip);
    if !has_memory(bits, b, ip, h.operands) {
        return None;
    }
    let m = x86::memory(bits, b, ip);
    if m.ip_relative {
        Some(m.ip_address as usize)
    } else if arch == Arch::X86 && m.no_base && m.no_index {
        Some(m.displacement as usize)
    } else {
        None
    }
}

/// The values of the immediates among the first `n` operands.
pub open spec fn immediates(bits: u32, b: Seq<u8>, ip: u64, n: nat) -> Seq<u64>
    decreases n,
{
    if n == 0 {
        Seq::empty()
    } else {
        let k = (n - 1) as u32;
        let before = immediates(bits, b, ip, (n - 1) as nat);
        if x86::is_immediate_kind_spec(x86::operand_of(bits, b, ip, k)) {
            before.push(x86::immediate_of(bits, b, ip, k))
        } else {
            before
        }
    }
}

/// The values an instruction refers to: its immediates, then the address it names.
pub open spec fn references(bits: u32, b: Seq<u8>, ip: u64, arch: Arch) -> Seq<u64> {
    let imms = immediates(bits, b, ip, x86::head_of(bits, b, ip).operands as nat);
    match named_address(bits, b, ip, arch) {
        Some(a) => imms.push(a as u64),
        None => imms,
    }
}

/// The values an instruction refers to.
pub fn referenced_values(bits: u32, b: &[u8], ip: u64, arch: Arch) -> (r: Vec<u64>)
    requires
        x86::is_mode(bits),
    ensures
        r@ == references(bits, b@, ip, arch),
{
    let h = x86::head(bits, b, ip);
    let mut r: Vec<u64> = Vec::new();
    let mut i: u32 = 0;
    while i < h.operands
        invariant
            x86::is_mode(bits),
            h.operands <= 5,
            i <= h.operands,
            r@ == immediates(bits, b@, ip, i as nat),
        decreases h.operands - i,
    {
        if x86::is_immediate_kind(x86::operand(bits, b, ip, i)) {
            r.push(x86::immediate(bits, b, ip, i));
        }
        i += 1;
    }
    if let Some(a) = mem_target(bits, b, ip, arch) {
        r.push(a as u64);
    }
    r
}

/// A direct near call: five bytes of `call`.
pub open spec fn is_near_call(h: Head, f: Flow) -> bool {
    f == Flow::Call && h.len == 5
}

}
