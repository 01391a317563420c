//! The SHA-256 hash.

use crate::text;
use crate::text::push_hex_lower_fixed;
use vstd::prelude::*;
use vstd::slice::slice_to_vec;
use vstd::string::*;

verus! {

/// The eight working words.
#[derive(Clone, Copy, Debug, PartialEq, Eq, Structural)]
pub struct Words {
    pub a: u32,
    pub b: u32,
    pub c: u32,
    pub d: u32,
    pub e: u32,
    pub f: u32,
    pub g: u32,
    pub h: u32,
}

/// The words that hashing starts from.
pub open spec fn start() -> Words {
    Words {
        a: 0x6a09_e667,
        b: 0xbb67_ae85,
        c: 0x3c6e_f372,
        d: 0xa54f_f53a,
        e: 0x510e_527f,
        f: 0x9b05_688c,
        g: 0x1f83_d9ab,
        h: 0x5be0_cd19,
    }
}

/// The round constants.
pub open spec fn round_constants() -> Seq<u32> {
    seq![
        0x428a_2f98u32, 0x7137_4491, 0xb5c0_fbcf, 0xe9b5_dba5,
        0x3956_c25b, 0x59f1_11f1, 0x923f_82a4, 0xab1c_5ed5,
        0xd807_aa98, 0x1283_5b01, 0x2431_85be, 0x550c_7dc3,
        0x72be_5d74, 0x80de_b1fe, 0x9bdc_06a7, 0xc19b_f174,
        0xe49b_69c1, 0xefbe_4786, 0x0fc1_9dc6, 0x240c_a1cc,
        0x2de9_2c6f, 0x4a74_84aa, 0x5cb0_a9dc, 0x76f9_88da,
        0x983e_5152, 0xa831_c66d, 0xb003_27c8, 0xbf59_7fc7,
        0xc6e0_0bf3, 0xd5a7_9147, 0x06ca_6351, 0x1429_2967,
        0x27b7_0a85, 0x2e1b_2138, 0x4d2c_6dfc, 0x5338_0d13,
        0x650a_7354, 0x766a_0abb, 0x81c2_c92e, 0x9272_2c85,
        0xa2bf_e8a1, 0xa81a_664b, 0xc24b_8b70, 0xc76c_51a3,
        0xd192_e819, 0xd699_0624, 0xf40e_3585, 0x106a_a070,
        0x19a4_c116, 0x1e37_6c08, 0x2748_774c, 0x34b0_bcb5,
        0x391c_0cb3, 0x4ed8_aa4a, 0x5b9c_ca4f, 0x682e_6ff3,
        0x748f_82ee, 0x78a5_636f, 0x84c8_7814, 0x8cc7_0208,
        0x90be_fffa, 0xa450_6ceb, 0xbef9_a3f7, 0xc671_78f2,
    ]
}

/// A word with its bits turned right.
pub open spec fn turned(x: u32, n: u32) -> u32 {
    (x >> n) | (x << ((32 - n) as u32))
}

/// The first small sum of the message schedule.
pub open spec fn small0(x: u32) -> u32 {
    turned(x, 7) ^ turned(x, 18) ^ (x >> 3)
}

/// The second small sum of the message schedule.
pub open spec fn small1(x: u32) -> u32 {
    turned(x, 17) ^ turned(x, 19) ^ (x >> 10)
}

/// The first big sum of a round.
pub open spec fn big0(x: u32) -> u32 {
    turned(x, 2) ^ turned(x, 13) ^ turned(x, 22)
}

/// The second big sum of a round.
pub open spec fn big1(x: u32) -> u32 {
    turned(x, 6) ^ turned(x, 11) ^ turned(x, 25)
}

/// Where `x` has a one, `y`; elsewhere `z`.
pub open spec fn chosen(x: u32, y: u32, z: u32) -> u32 {
    (x & y) ^ (!x & z)
}

/// What most of the three have.
pub open spec fn majority(x: u32, y: u32, z: u32) -> u32 {
    (x & y) ^ (x & z) ^ (y & z)
}

/// The big-endian word at `i`.
pub open spec fn be32(s: Seq<u8>, i: int) -> u32 {
    (0x100_0000 * s[i] + 0x1_0000 * s[i + 1] + 0x100 * s[i + 2] + s[i + 3]) as u32
}

/// Word `t` of the schedule of the block at `at`.
pub open spec fn scheduled(m: Seq<u8>, at: int, t: int) -> u32
    decreases t,
{
    if t < 16 {
        be32(m, at + 4 * t)
    } else {
        small1(scheduled(m, at, t - 2)).wrapping_add(scheduled(m, at, t - 7)).wrapping_add(
            small0(scheduled(m, at, t - 15)),
        ).wrapping_add(scheduled(m, at, t - 16))
    }
}

/// One round.
pub open spec fn round(s: Words, k: u32, w: u32) -> Words {
    let t1 = s.h.wrapping_add(big1(s.e)).wrapping_add(chosen(s.e, s.f, s.g)).wrapping_add(
        k,
    ).wrapping_add(w);
    let t2 = big0(s.a).wrapping_add(majority(s.a, s.b, s.c));
    Words {
        a: t1.wrapping_add(t2),
        b: s.a,
        c: s.b,
        d: s.c,
        e: s.d.wrapping_add(t1),
        f: s.e,
        g: s.f,
        h: s.g,
    }
}

/// The first `n` rounds on the block at `at`.
pub open spec fn rounds(s: Words, m: Seq<u8>, at: int, n: int) -> Words
    decreases n,
{
    if n <= 0 {
        s
    } else {
        round(rounds(s, m, at, n - 1), round_constants()[n - 1], scheduled(m, at, n - 1))
    }
}

/// Word by word sums.
pub open spec fn summed(x: Words, y: Words) -> Words {
    Words {
        a: x.a.wrapping_add(y.a),
        b: x.b.wrapping_add(y.b),
        c: x.c.wrapping_add(y.c),
        d: x.d.wrapping_add(y.d),
        e: x.e.wrapping_add(y.e),
        f: x.f.wrapping_add(y.f),
        g: x.g.wrapping_add(y.g),
        h: x.h.wrapping_add(y.h),
    }
}

/// The words after the first `n` blocks of a padded message.
pub open spec fn absorbed(m: Seq<u8>, n: int) -> Words
    decreases n,
{
    if n <= 0 {
        start()
    } else {
        let before = absorbed(m, n - 1);
        summed(before, rounds(before, m, 64 * (n - 1), 64))
    }
}

/// How many zeros the padding holds.
pub open spec fn zeros(len: int) -> nat {
    ((119 - len % 64) % 64) as nat
}

/// The eight bytes of a number, most significant first.
pub open spec fn be64_bytes(v: u64) -> Seq<u8> {
    seq![
        (v / 0x100_0000_0000_0000) as u8,
        (v / 0x1_0000_0000_0000 % 0x100) as u8,
        (v / 0x100_0000_0000 % 0x100) as u8,
        (v / 0x1_0000_0000 % 0x100) as u8,
        (v / 0x100_0000 % 0x100) as u8,
        (v / 0x1_0000 % 0x100) as u8,
        (v / 0x100 % 0x100) as u8,
        (v % 0x100) as u8,
    ]
}

/// A message with its padding: a one bit, zeros, and the length in bits.
pub open spec fn padded(m: Seq<u8>) -> Seq<u8> {
    m.push(0x80) + Seq::new(zeros(m.len() as int), |i: int| 0u8) + be64_bytes(
        (m.len() as u64).wrapping_mul(8),
    )
}

/// The hash of a message as eight words.
pub open spec fn digest(m: Seq<u8>) -> Words {
    absorbed(padded(m), padded(m).len() as int / 64)
}

/// The hash of a message as hexadecimal digits.
pub open spec fn digest_text(m: Seq<u8>) -> Seq<char> {
    let w = digest(m);
    text::hex_lower_fixed(w.a as nat, 8) + text::hex_lower_fixed(w.b as nat, 8)
        + text::hex_lower_fixed(w.c as nat, 8) + text::hex_lower_fixed(w.d as nat, 8)
        + text::hex_lower_fixed(w.e as nat, 8) + text::hex_lower_fixed(w.f as nat, 8)
        + text::hex_lower_fixed(w.g as nat, 8) + text::hex_lower_fixed(w.h as nat, 8)
}

fn constants() -> (k: [u32; 64])
    ensures
        k@ == round_constants(),
{
    let k: [u32; 64] = [
        0x428a_2f98u32, 0x7137_4491, 0xb5c0_fbcf, 0xe9b5_dba5,
        0x3956_c25b, 0x59f1_11f1, 0x923f_82a4, 0xab1c_5ed5,
        0xd807_aa98, 0x1283_5b01, 0x2431_85be, 0x550c_7dc3,
        0x72be_5d74, 0x80de_b1fe, 0x9bdc_06a7, 0xc19b_f174,
        0xe49b_69c1, 0xefbe_4786, 0x0fc1_9dc6, 0x240c_a1cc,
        0x2de9_2c6f, 0x4a74_84aa, 0x5cb0_a9dc, 0x76f9_88da,
        0x983e_5152, 0xa831_c66d, 0xb003_27c8, 0xbf59_7fc7,
        0xc6e0_0bf3, 0xd5a7_9147, 0x06ca_6351, 0x1429_2967,
        0x27b7_0a85, 0x2e1b_2138, 0x4d2c_6dfc, 0x5338_0d13,
        0x650a_7354, 0x766a_0abb, 0x81c2_c92e, 0x9272_2c85,
        0xa2bf_e8a1, 0xa81a_664b, 0xc24b_8b70, 0xc76c_51a3,
        0xd192_e819, 0xd699_0624, 0xf40e_3585, 0x106a_a070,
        0x19a4_c116, 0x1e37_6c08, 0x2748_774c, 0x34b0_bcb5,
        0x391c_0cb3, 0x4ed8_aa4a, 0x5b9c_ca4f, 0x682e_6ff3,
        0x748f_82ee, 0x78a5_636f, 0x84c8_7814, 0x8cc7_0208,
        0x90be_fffa, 0xa450_6ceb, 0xbef9_a3f7, 0xc671_78f2,
    ];
    assert(k@ =~= round_constants());
    k
}

fn turn(x: u32, n: u32) -> (r: u32)
    requires
        0 < n < 32,
    ensures
        r == turned(x, n),
{
    (x >> n) | (x << (32 - n))
}

fn read_be32(m: &[u8], i: usize) -> (r: u32)
    requires
        i + 4 <= m@.len(),
    ensures
        r == be32(m@, i as int),
{
    0x100_0000 * (m[i] as u32) + 0x1_0000 * (m[i + 1] as u32) + 0x100 * (m[i + 2] as u32) + m[i
        + 3] as u32
}

fn schedule(m: &Vec<u8>, at: usize) -> (w: Vec<u32>)
    requires
        at + 64 <= m@.len(),
    ensures
        w@.len() == 64,
        forall|t: int| 0 <= t < 64 ==> #[trigger] w@[t] == scheduled(m@, at as int, t),
{
    let end: usize = m.len();
    let mut w: Vec<u32> = Vec::new();
    let mut t: usize = 0;
    while t < 64
        invariant
            end == m@.len(),
            at + 64 <= end,
            t <= 64,
            w@.len() == t,
            forall|k: int| 0 <= k < t ==> #[trigger] w@[k] == scheduled(m@, at as int, k),
        decreases 64 - t,
    {
        if t < 16 {
            w.push(read_be32(m.as_slice(), at + 4 * t));
        } else {
            let x: u32 = w[t - 15];
            let y: u32 = w[t - 2];
            let s0: u32 = turn(x, 7) ^ turn(x, 18) ^ (x >> 3);
            let s1: u32 = turn(y, 17) ^ turn(y, 19) ^ (y >> 10);
            w.push(s1.wrapping_add(w[t - 7]).wrapping_add(s0).wrapping_add(w[t - 16]));
        }
        t += 1;
    }
    w
}

fn turn_round(s: Words, k: u32, w: u32) -> (r: Words)
    ensures
        r == round(s, k, w),
{
    let b1: u32 = turn(s.e, 6) ^ turn(s.e, 11) ^ turn(s.e, 25);
    let ch: u32 = (s.e & s.f) ^ (!s.e & s.g);
    let t1: u32 = s.h.wrapping_add(b1).wrapping_add(ch).wrapping_add(k).wrapping_add(w);
    let b0: u32 = turn(s.a, 2) ^ turn(s.a, 13) ^ turn(s.a, 22);
    let maj: u32 = (s.a & s.b) ^ (s.a & s.c) ^ (s.b & s.c);
    let t2: u32 = b0.wrapping_add(maj);
    Words {
        a: t1.wrapping_add(t2),
        b: s.a,
        c: s.b,
        d: s.c,
        e: s.d.wrapping_add(t1),
        f: s.e,
        g: s.f,
        h: s.g,
    }
}

fn add_words(x: Words, y: Words) -> (r: Words)
    ensures
        r == summed(x, y),
{
    Words {
        a: x.a.wrapping_add(y.a),
        b: x.b.wrapping_add(y.b),
        c: x.c.wrapping_add(y.c),
        d: x.d.wrapping_add(y.d),
        e: x.e.wrapping_add(y.e),
        f: x.f.wrapping_add(y.f),
        g: x.g.wrapping_add(y.g),
        h: x.h.wrapping_add(y.h),
    }
}

fn absorb(s: Words, m: &Vec<u8>, at: usize, k: &[u32; 64]) -> (r: Words)
    requires
        at + 64 <= m@.len(),
        k@ == round_constants(),
    ensures
        r == summed(s, rounds(s, m@, at as int, 64)),
{
    let w = schedule(m, at);
    let mut x = s;
    let mut t: usize = 0;
    while t < 64
        invariant
            k@ == round_constants(),
            w@.len() == 64,
            forall|j: int| 0 <= j < 64 ==> #[trigger] w@[j] == scheduled(m@, at as int, j),
            t <= 64,
            x == rounds(s, m@, at as int, t as int),
        decreases 64 - t,
    {
        x = turn_round(x, k[t], w[t]);
        t += 1;
    }
    add_words(s, x)
}

fn pad(m: &[u8]) -> (v: Vec<u8>)
    ensures
        v@ == padded(m@),
{
    let len: usize = m.len();
    let bits: u64 = (len as u64).wrapping_mul(8);
    let mut v = slice_to_vec(m);
    v.push(0x80);
    let ghost head = v@;
    assert(head =~= m@.push(0x80));
    let z: usize = (119 - len % 64) % 64;
    let mut i: usize = 0;
    assert(head + Seq::new(0, |k: int| 0u8) =~= head);
    while i < z
        invariant
            i <= z,
            v@ == head + Seq::new(i as nat, |k: int| 0u8),
        decreases z - i,
    {
        v.push(0);
        i += 1;
        assert(v@ =~= head + Seq::new(i as nat, |k: int| 0u8));
    }
    let ghost body = v@;
    v.push((bits / 0x100_0000_0000_0000) as u8);
    v.push((bits / 0x1_0000_0000_0000 % 0x100) as u8);
    v.push((bits / 0x100_0000_0000 % 0x100) as u8);
    v.push((bits / 0x1_0000_0000 % 0x100) as u8);
    v.push((bits / 0x100_0000 % 0x100) as u8);
    v.push((bits / 0x1_0000 % 0x100) as u8);
    v.push((bits / 0x100 % 0x100) as u8);
    v.push((bits % 0x100) as u8);
    assert(v@ =~= body + be64_bytes(bits));
    v
}

/// The hash of a message as lower-case hexadecimal digits.
pub fn hex(m: &[u8]) -> (s: String)
    ensures
        s@ == digest_text(m@),
{
    let v = pad(m);
    let k = constants();
    let mut x = Words {
        a: 0x6a09_e667,
        b: 0xbb67_ae85,
        c: 0x3c6e_f372,
        d: 0xa54f_f53a,
        e: 0x510e_527f,
        f: 0x9b05_688c,
        g: 0x1f83_d9ab,
        h: 0x5be0_cd19,
    };
    let blocks: usize = v.len() / 64;
    let mut n: usize = 0;
    while n < blocks
        invariant
            v@ == padded(m@),
            blocks == v@.len() as int / 64,
            blocks * 64 <= usize::MAX,
            blocks * 64 <= v@.len(),
            k@ == round_constants(),
            n <= blocks,
            x == absorbed(v@, n as int),
        decreases blocks - n,
    {
        x = absorb(x, &v, 64 * n, &k);
        n += 1;
    }
    let mut s = String::new();
    push_hex_lower_fixed(&mut s, x.a as u64, 8);
    push_hex_lower_fixed(&mut s, x.b as u64, 8);
    push_hex_lower_fixed(&mut s, x.c as u64, 8);
    push_hex_lower_fixed(&mut s, x.d as u64, 8);
    push_hex_lower_fixed(&mut s, x.e as u64, 8);
    push_hex_lower_fixed(&mut s, x.f as u64, 8);
    push_hex_lower_fixed(&mut s, x.g as u64, 8);
    push_hex_lower_fixed(&mut s, x.h as u64, 8);
    assert(s@ =~= digest_text(m@));
    s
}

}
