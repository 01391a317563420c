//! Where a relative branch goes.

use crate::le;
use crate::le::i32_at;
use vstd::prelude::*;

verus! {

/// The target of the `call` or `jmp` with a 32-bit displacement at the front of `bytes`, which sits at
/// `at`; `None` for other bytes and for a target outside the address space.
pub open spec fn rel_target(bytes: Seq<u8>, at: int) -> Option<int> {
    let target = at + 5 + le::signed32(le::le32(bytes, 1));
    if bytes.len() >= 5 && (bytes[0] == 0xE8 || bytes[0] == 0xE9) && 0 <= target <= usize::MAX {
        Some(target)
    } else {
        None
    }
}

/// Decode the target of a relative `call` or `jmp` at `at`.
pub fn decode_rel_target(bytes: &[u8], at: usize) -> (r: Option<usize>)
    ensures
        match r {
            Some(t) => rel_target(bytes@, at as int) == Some(t as int),
            None => rel_target(bytes@, at as int) is None,
        },
{
    if bytes.len() < 5 || !(bytes[0] == 0xE8 || bytes[0] == 0xE9) {
        return None;
    }
    let target: i128 = at as i128 + 5 + i32_at(bytes, 1) as i128;
    if target < 0 || target > usize::MAX as i128 {
        return None;
    }
    Some(target as usize)
}

}
