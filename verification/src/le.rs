//! Little-endian integers in byte sequences.

use vstd::prelude::*;

verus! {

/// The 16-bit little-endian value at `i`.
pub open spec fn le16(s: Seq<u8>, i: int) -> int {
    s[i] + 0x100 * s[i + 1]
}

/// The 32-bit little-endian value at `i`.
pub open spec fn le32(s: Seq<u8>, i: int) -> int {
    s[i] + 0x100 * s[i + 1] + 0x1_0000 * s[i + 2] + 0x100_0000 * s[i + 3]
}

/// The 64-bit little-endian value at `i`.
pub open spec fn le64(s: Seq<u8>, i: int) -> int {
    le32(s, i) + 0x1_0000_0000 * le32(s, i + 4)
}

/// A 32-bit value read as a two's complement number.
pub open spec fn signed32(v: int) -> int {
    if v < 0x8000_0000 {
        v
    } else {
        v - 0x1_0000_0000
    }
}

/// The four bytes of `v`, least significant first.
pub open spec fn le32_bytes(v: u32) -> Seq<u8> {
    seq![
        (v % 0x100) as u8,
        (v / 0x100 % 0x100) as u8,
        (v / 0x1_0000 % 0x100) as u8,
        (v / 0x100_0000) as u8,
    ]
}

/// The eight bytes of `v`, least significant first.
pub open spec fn le64_bytes(v: u64) -> Seq<u8> {
    le32_bytes((v % 0x1_0000_0000) as u32) + le32_bytes((v / 0x1_0000_0000) as u32)
}

/// `d` with the bytes `b` written at `o`.
pub open spec fn patched(d: Seq<u8>, o: int, b: Seq<u8>) -> Seq<u8> {
    d.take(o) + b + d.skip(o + b.len())
}

/// The 32-bit value at `i`.
pub fn u32_at(d: &[u8], i: usize) -> (v: u32)
    requires
        i + 4 <= d@.len(),
    ensures
        v == le32(d@, i as int),
{
    d[i] as u32 + 0x100 * (d[i + 1] as u32) + 0x1_0000 * (d[i + 2] as u32) + 0x100_0000 * (d[i
        + 3] as u32)
}

/// The signed 32-bit displacement at `i`.
pub fn i32_at(d: &[u8], i: usize) -> (v: i64)
    requires
        i + 4 <= d@.len(),
    ensures
        v == signed32(le32(d@, i as int)),
{
    let raw: u32 = u32_at(d, i);
    if raw < 0x8000_0000 {
        raw as i64
    } else {
        raw as i64 - 0x1_0000_0000
    }
}

/// The 16-bit value at `o`, if the data reaches that far.
pub fn get_u16(d: &[u8], o: usize) -> (v: Option<u16>)
    ensures
        v == (if o + 2 <= d@.len() {
            Some(le16(d@, o as int) as u16)
        } else {
            None
        }),
{
    if d.len() < 2 || o > d.len() - 2 {
        return None;
    }
    Some(d[o] as u16 + 0x100 * (d[o + 1] as u16))
}

/// The 32-bit value at `o`, if the data reaches that far.
pub fn get_u32(d: &[u8], o: usize) -> (v: Option<u32>)
    ensures
        v == (if o + 4 <= d@.len() {
            Some(le32(d@, o as int) as u32)
        } else {
            None
        }),
{
    if d.len() < 4 || o > d.len() - 4 {
        return None;
    }
    Some(u32_at(d, o))
}

/// The 64-bit value at `o`, if the data reaches that far.
pub fn get_u64(d: &[u8], o: usize) -> (v: Option<u64>)
    ensures
        v == (if o + 8 <= d@.len() {
            Some(le64(d@, o as int) as u64)
        } else {
            None
        }),
{
    if d.len() < 8 || o > d.len() - 8 {
        return None;
    }
    Some(u32_at(d, o) as u64 + 0x1_0000_0000 * (u32_at(d, o + 4) as u64))
}

/// The four bytes of `v`.
pub fn u32_bytes(v: u32) -> (b: Vec<u8>)
    ensures
        b@ == le32_bytes(v),
{
    let b = vec![
        (v % 0x100) as u8,
        (v / 0x100 % 0x100) as u8,
        (v / 0x1_0000 % 0x100) as u8,
        (v / 0x100_0000) as u8,
    ];
    assert(b@ =~= le32_bytes(v));
    b
}

/// The eight bytes of `v`.
pub fn u64_bytes(v: u64) -> (b: Vec<u8>)
    ensures
        b@ == le64_bytes(v),
{
    let mut b = u32_bytes((v % 0x1_0000_0000) as u32);
    let mut hi = u32_bytes((v / 0x1_0000_0000) as u32);
    b.append(&mut hi);
    b
}

/// A 32-bit value is read back as it was written.
pub proof fn le32_round_trip(v: u32)
    ensures
        le32(le32_bytes(v), 0) == v,
{
    assert(v % 0x100 + 0x100 * (v / 0x100 % 0x100) + 0x1_0000 * (v / 0x1_0000 % 0x100) + 0x100_0000
        * (v / 0x100_0000) == v) by (nonlinear_arith);
}

/// A value written at `o` is read back there, and every other byte is untouched.
pub proof fn patched_reads_back(d: Seq<u8>, o: int, v: u32)
    requires
        0 <= o,
        o + 4 <= d.len(),
    ensures
        patched(d, o, le32_bytes(v)).len() == d.len(),
        le32(patched(d, o, le32_bytes(v)), o) == v,
        forall|k: int|
            0 <= k < d.len() && !(o <= k < o + 4) ==> #[trigger] patched(d, o, le32_bytes(v))[k]
                == d[k],
{
    le32_round_trip(v);
    let p = patched(d, o, le32_bytes(v));
    assert(p[o] == le32_bytes(v)[0]);
    assert(p[o + 1] == le32_bytes(v)[1]);
    assert(p[o + 2] == le32_bytes(v)[2]);
    assert(p[o + 3] == le32_bytes(v)[3]);
}

/// Whether the bytes of `d` at `i` are `needle`.
pub open spec fn occurs_at(d: Seq<u8>, i: int, needle: Seq<u8>) -> bool {
    &&& 0 <= i
    &&& i + needle.len() <= d.len()
    &&& d.subrange(i, i + needle.len()) == needle
}

/// Whether the bytes of `d` at `i` are `needle`.
pub fn matches_at(d: &[u8], i: usize, needle: &[u8]) -> (r: bool)
    ensures
        r == occurs_at(d@, i as int, needle@),
{
    if needle.len() > d.len() || i > d.len() - needle.len() {
        return false;
    }
    let mut k: usize = 0;
    let end: usize = d.len();
    while k < needle.len()
        invariant
            end == d@.len(),
            k <= needle@.len(),
            i + needle@.len() <= d@.len(),
            forall|j: int| 0 <= j < k ==> d@[i + j] == needle@[j],
        decreases needle@.len() - k,
    {
        if d[i + k] != needle[k] {
            assert(d@.subrange(i as int, i + needle@.len())[k as int] != needle@[k as int]);
            return false;
        }
        k += 1;
    }
    assert(d@.subrange(i as int, i + needle@.len()) =~= needle@);
    true
}

/// The bytes of `d` from `i` on.
pub fn tail_of(d: &[u8], i: usize) -> (t: &[u8])
    requires
        i <= d@.len(),
    ensures
        t@ == d@.skip(i as int),
{
    vstd::slice::slice_subrange(d, i, d.len())
}

}
