//! What the identity of a function is made of, instruction by instruction, and what it means for two to be
//! alike.

use crate::ordered;
use crate::pattern::Arch;
use crate::sigmaker::decode;
use crate::sigmaker::identity;
use crate::sigmaker::identity::{FeatV, GatherV};
use crate::sigmaker::similarity;
use crate::sigmaker::stream::{ends_call, head_at, starts_at, walk, walk_from, walk_grows, width};
use crate::sigmaker::tells::texts_are_ordered;
use crate::sigmaker::types::ImageInput;
use crate::text;
use crate::x86;
use crate::x86::{Flow, Operand};
use vstd::prelude::*;

verus! {

/// The items of `a` at `p` are those of `b` at `q`, in the order of both.
pub open spec fn subsequence<T>(a: Seq<T>, b: Seq<T>, p: Seq<int>, q: Seq<int>) -> bool {
    &&& p.len() == q.len()
    &&& forall|k: int|
        #![trigger p[k]]
        #![trigger q[k]]
        0 <= k < p.len() ==> 0 <= p[k] < a.len() && 0 <= q[k] < b.len() && a[p[k]] == b[q[k]]
    &&& forall|j: int, k: int|
        0 <= j < k < p.len() ==> #[trigger] p[j] < #[trigger] p[k]
    &&& forall|j: int, k: int|
        0 <= j < k < q.len() ==> #[trigger] q[j] < #[trigger] q[k]
}

proof fn common_subsequences_are_shorter<T>(a: Seq<T>, b: Seq<T>, p: Seq<int>, q: Seq<int>)
    requires
        subsequence(a, b, p, q),
    ensures
        p.len() <= similarity::lcs(a, b),
    decreases a.len(), b.len(),
{
    let n = p.len() as int;
    if n > 0 {
        let x = a.drop_last();
        let y = b.drop_last();
        assert(0 <= p[n - 1] < a.len() && 0 <= q[n - 1] < b.len());
        if a.last() == b.last() {
            let r = p.drop_last();
            let s = q.drop_last();
            assert forall|k: int|
                #![trigger r[k]]
                #![trigger s[k]]
                0 <= k < r.len() implies 0 <= r[k] < x.len() && 0 <= s[k] < y.len() && x[r[k]] == y[s[k]] by {
                assert(p[k] < p[n - 1]);
                assert(q[k] < q[n - 1]);
                assert(a[p[k]] == b[q[k]]);
            }
            assert(subsequence(x, y, r, s));
            common_subsequences_are_shorter(x, y, r, s);
        } else if p[n - 1] < a.len() - 1 {
            assert forall|k: int|
                #![trigger p[k]]
                #![trigger q[k]]
                0 <= k < n implies 0 <= p[k] < x.len() && 0 <= q[k] < b.len() && x[p[k]] == b[q[k]] by {
                if k < n - 1 {
                    assert(p[k] < p[n - 1]);
                }
            }
            assert(subsequence(x, b, p, q));
            common_subsequences_are_shorter(x, b, p, q);
        } else {
            assert(q[n - 1] < b.len() - 1);
            assert forall|k: int|
                #![trigger p[k]]
                #![trigger q[k]]
                0 <= k < n implies 0 <= p[k] < a.len() && 0 <= q[k] < y.len() && a[p[k]] == y[q[k]] by {
                if k < n - 1 {
                    assert(q[k] < q[n - 1]);
                }
            }
            assert(subsequence(a, y, p, q));
            common_subsequences_are_shorter(a, y, p, q);
        }
    }
}

proof fn longest_is_common<T>(a: Seq<T>, b: Seq<T>) -> (r: (Seq<int>, Seq<int>))
    ensures
        subsequence(a, b, r.0, r.1),
        r.0.len() == similarity::lcs(a, b),
    decreases a.len(), b.len(),
{
    if a.len() == 0 || b.len() == 0 {
        (Seq::empty(), Seq::empty())
    } else {
        let x = a.drop_last();
        let y = b.drop_last();
        if a.last() == b.last() {
            let (p, q) = longest_is_common(x, y);
            let r = p.push(a.len() - 1);
            let s = q.push(b.len() - 1);
            assert forall|k: int|
                #![trigger r[k]]
                #![trigger s[k]]
                0 <= k < r.len() implies 0 <= r[k] < a.len() && 0 <= s[k] < b.len() && a[r[k]] == b[s[k]] by {
                if k < p.len() {
                    assert(x[p[k]] == y[q[k]]);
                }
            }
            assert forall|j: int, k: int| 0 <= j < k < r.len() implies #[trigger] r[j] < #[trigger] r[k] by {
                assert(0 <= p[j] < x.len());
            }
            assert forall|j: int, k: int| 0 <= j < k < s.len() implies #[trigger] s[j] < #[trigger] s[k] by {
                assert(0 <= q[j] < y.len());
            }
            (r, s)
        } else if similarity::lcs(a, y) > similarity::lcs(x, b) {
            let (p, q) = longest_is_common(a, y);
            assert forall|k: int|
                #![trigger p[k]]
                #![trigger q[k]]
                0 <= k < p.len() implies 0 <= p[k] < a.len() && 0 <= q[k] < b.len() && a[p[k]] == b[q[k]] by {
                assert(a[p[k]] == y[q[k]]);
            }
            (p, q)
        } else {
            let (p, q) = longest_is_common(x, b);
            assert forall|k: int|
                #![trigger p[k]]
                #![trigger q[k]]
                0 <= k < p.len() implies 0 <= p[k] < a.len() && 0 <= q[k] < b.len() && a[p[k]] == b[q[k]] by {
                assert(x[p[k]] == b[q[k]]);
            }
            (p, q)
        }
    }
}

/// What two streams have in common is measured by the longest subsequence of both: there is one of that
/// length, and none is longer.
pub proof fn common_length_is_the_longest<T>(a: Seq<T>, b: Seq<T>, p: Seq<int>, q: Seq<int>)
    ensures
        exists|r: Seq<int>, s: Seq<int>| #[trigger]
            subsequence(a, b, r, s) && r.len() == similarity::lcs(a, b),
        subsequence(a, b, p, q) ==> p.len() <= similarity::lcs(a, b),
{
    let (r, s) = longest_is_common(a, b);
    assert(subsequence(a, b, r, s) && r.len() == similarity::lcs(a, b));
    if subsequence(a, b, p, q) {
        common_subsequences_are_shorter(a, b, p, q);
    }
}

/// The instruction at `pos` refers to the value: as an immediate, or as the address that its memory operand
/// names outright.
pub open spec fn refers_to(img: &ImageInput, b: Seq<u8>, ip: int, pos: int, v: u64) -> bool {
    let bits = width(img.arch);
    let at = (ip + pos) as u64;
    let h = head_at(img.arch, b, ip, pos);
    ||| exists|k: u32|
        k < h.operands && #[trigger] is_immediate(x86::operand_of(bits, b.skip(pos), at, k)) && v
            == x86::immediate_of(bits, b.skip(pos), at, k)
    ||| decode::named_address(bits, b.skip(pos), at, img.arch) matches Some(a) && v == a as u64
}

/// An operand that is a number in the instruction.
pub open spec fn is_immediate(k: Operand) -> bool {
    k != Operand::Register && k != Operand::Memory && k != Operand::Other
}

proof fn immediates_are_listed(bits: u32, b: Seq<u8>, at: u64, n: nat)
    requires
        n <= u32::MAX,
    ensures
        forall|v: u64| #[trigger]
            decode::immediates(bits, b, at, n).contains(v) <==> exists|k: u32|
                k < n && #[trigger] is_immediate(x86::operand_of(bits, b, at, k)) && v
                    == x86::immediate_of(bits, b, at, k),
    decreases n,
{
    if n > 0 {
        immediates_are_listed(bits, b, at, (n - 1) as nat);
        let before = decode::immediates(bits, b, at, (n - 1) as nat);
        let all = decode::immediates(bits, b, at, n);
        let last = (n - 1) as u32;
        assert forall|v: u64| #[trigger] all.contains(v) <==> exists|k: u32|
            k < n && #[trigger] is_immediate(x86::operand_of(bits, b, at, k)) && v == x86::immediate_of(
                bits,
                b,
                at,
                k,
            ) by {
            assert(before.contains(v) <==> exists|k: u32|
                k < n - 1 && #[trigger] is_immediate(x86::operand_of(bits, b, at, k)) && v
                    == x86::immediate_of(bits, b, at, k));
            if is_immediate(x86::operand_of(bits, b, at, last)) {
                assert(all == before.push(x86::immediate_of(bits, b, at, last)));
                assert(all[before.len() as int] == x86::immediate_of(bits, b, at, last));
                if all.contains(v) {
                    let j = choose|j: int| 0 <= j < all.len() && all[j] == v;
                    if j < before.len() {
                        assert(before[j] == v);
                    }
                }
                if before.contains(v) {
                    let j = choose|j: int| 0 <= j < before.len() && before[j] == v;
                    assert(all[j] == v);
                }
            }
            if exists|k: u32|
                k < n && #[trigger] is_immediate(x86::operand_of(bits, b, at, k)) && v
                    == x86::immediate_of(bits, b, at, k) {
                let k = choose|k: u32|
                    k < n && #[trigger] is_immediate(x86::operand_of(bits, b, at, k)) && v
                        == x86::immediate_of(bits, b, at, k);
                if k == last {
                    assert(all.contains(v));
                }
            }
        }
    }
}

proof fn references_are_values(img: &ImageInput, b: Seq<u8>, ip: int, pos: int)
    ensures
        forall|v: u64| #[trigger]
            decode::references(width(img.arch), b.skip(pos), (ip + pos) as u64, img.arch).contains(v)
                <==> refers_to(img, b, ip, pos, v),
{
    let bits = width(img.arch);
    let at = (ip + pos) as u64;
    let h = head_at(img.arch, b, ip, pos);
    immediates_are_listed(bits, b.skip(pos), at, h.operands as nat);
    let imms = decode::immediates(bits, b.skip(pos), at, h.operands as nat);
    let all = decode::references(bits, b.skip(pos), at, img.arch);
    assert forall|v: u64| #[trigger] all.contains(v) <==> refers_to(img, b, ip, pos, v) by {
        assert(imms.contains(v) <==> exists|k: u32|
            k < h.operands && #[trigger] is_immediate(x86::operand_of(bits, b.skip(pos), at, k)) && v
                == x86::immediate_of(bits, b.skip(pos), at, k));
        if let Some(a) = decode::named_address(bits, b.skip(pos), at, img.arch) {
            assert(all == imms.push(a as u64));
            assert(all[imms.len() as int] == a as u64);
            if all.contains(v) {
                let j = choose|j: int| 0 <= j < all.len() && all[j] == v;
                if j < imms.len() {
                    assert(imms[j] == v);
                }
            }
            if imms.contains(v) {
                let j = choose|j: int| 0 <= j < imms.len() && imms[j] == v;
                assert(all[j] == v);
            }
        }
    }
}

/// A value far enough from zero, from either side, to tell: more than 0xFFFF, and not minus one.
pub open spec fn tells(v: u64) -> bool {
    v > 0xFFFF && v < 0xFFFF_FFFF_FFFF_0001
}

/// The value is a constant of the function: it tells, it is no address in the image, and no text is there.
pub open spec fn is_constant(img: &ImageInput, v: u64) -> bool {
    &&& identity::string_ref(img, v as usize as int) is None
    &&& !(img.base <= v && v < img.base + img.size)
    &&& tells(v)
}

proof fn values_are_sorted_out(img: &ImageInput, values: Seq<u64>)
    ensures
        forall|v: u64| #[trigger]
            identity::constants_among(img, values).contains(v) <==> values.contains(v) && is_constant(
                img,
                v,
            ),
        forall|s: Seq<char>| #[trigger]
            identity::strings_at(img, values).contains(s) <==> exists|v: u64| #[trigger]
                values.contains(v) && identity::string_ref(img, v as usize as int) == Some(s),
    decreases values.len(),
{
    if values.len() > 0 {
        let d = values.drop_last();
        let x = values.last();
        values_are_sorted_out(img, d);
        assert(values[values.len() - 1] == x);
        assert forall|v: u64| values.contains(v) <==> d.contains(v) || v == x by {
            if values.contains(v) {
                let k = choose|k: int| 0 <= k < values.len() && values[k] == v;
                if k < d.len() {
                    assert(d[k] == v);
                }
            }
            if d.contains(v) {
                let k = choose|k: int| 0 <= k < d.len() && d[k] == v;
                assert(values[k] == v);
            }
        }
        let cs = identity::constants_among(img, d);
        let all = identity::constants_among(img, values);
        assert(identity::distinctive(x) <==> tells(x));
        assert forall|v: u64| #[trigger] all.contains(v) <==> values.contains(v) && is_constant(img, v) by {
            assert(cs.contains(v) <==> d.contains(v) && is_constant(img, v));
            if is_constant(img, x) {
                assert(all == cs.push(x));
                pushed(cs, x, v);
            }
        }
        let ss = identity::strings_at(img, d);
        let texts = identity::strings_at(img, values);
        assert forall|s: Seq<char>| #[trigger] texts.contains(s) <==> exists|v: u64| #[trigger]
            values.contains(v) && identity::string_ref(img, v as usize as int) == Some(s) by {
            assert(ss.contains(s) <==> exists|v: u64| #[trigger]
                d.contains(v) && identity::string_ref(img, v as usize as int) == Some(s));
            if let Some(t) = identity::string_ref(img, x as usize as int) {
                assert(texts == ss.push(t));
                pushed(ss, t, s);
                if s == t {
                    assert(values.contains(x));
                }
            }
            if exists|v: u64| #[trigger]
                values.contains(v) && identity::string_ref(img, v as usize as int) == Some(s) {
                let v = choose|v: u64| #[trigger]
                    values.contains(v) && identity::string_ref(img, v as usize as int) == Some(s);
                if v != x {
                    assert(d.contains(v));
                }
            }
            if ss.contains(s) {
                let v = choose|v: u64| #[trigger]
                    d.contains(v) && identity::string_ref(img, v as usize as int) == Some(s);
                assert(values.contains(v));
            }
        }
    }
}

proof fn pushed<T>(s: Seq<T>, x: T, y: T)
    ensures
        s.push(x).contains(y) <==> s.contains(y) || y == x,
{
    let t = s.push(x);
    assert(t[s.len() as int] == x);
    if s.contains(y) {
        let k = choose|k: int| 0 <= k < s.len() && s[k] == y;
        assert(t[k] == y);
    }
    if t.contains(y) {
        let k = choose|k: int| 0 <= k < t.len() && t[k] == y;
        if k < s.len() {
            assert(s[k] == y);
        }
    }
}

/// An instruction of the walk starts at `p`.
pub open spec fn stops_at(at: Seq<int>, p: int) -> bool {
    exists|i: int| 0 <= i < at.len() - 1 && #[trigger] at[i] == p
}

/// How the instruction at `p` passes control on.
pub open spec fn flow_at(arch: Arch, b: Seq<u8>, ip: int, p: int) -> Flow {
    x86::flow_of(width(arch), b.skip(p), (ip + p) as u64)
}

/// Where the instructions of the walk are that pass control on in one of two ways.
pub open spec fn passing(
    arch: Arch,
    b: Seq<u8>,
    ip: int,
    at: Seq<int>,
    f: Flow,
    g: Flow,
) -> Set<int> {
    Set::new(
        |p: int|
            stops_at(at, p) && (flow_at(arch, b, ip, p) == f || flow_at(arch, b, ip, p) == g),
    )
}

/// A block of the function starts at address `x`, because of the instruction at `p`: where a branch within
/// the window goes, or what follows a conditional one.
pub open spec fn starts_block(arch: Arch, b: Seq<u8>, ip: int, p: int, x: u64) -> bool {
    let h = head_at(arch, b, ip, p);
    let f = flow_at(arch, b, ip, p);
    ||| (f == Flow::ConditionalBranch || f == Flow::UnconditionalBranch) && x == h.target && ip <= x && x
        < ip + b.len()
    ||| f == Flow::ConditionalBranch && x == ((ip + p) as u64 + h.len) as u64
}

/// The value is referred to by an instruction of the walk.
pub open spec fn referred(img: &ImageInput, b: Seq<u8>, ip: int, at: Seq<int>, v: u64) -> bool {
    exists|p: int| stops_at(at, p) && #[trigger] refers_to(img, b, ip, p, v)
}

/// What is gathered on a walk, beyond what there was before.
spec fn gathers(
    img: &ImageInput,
    b: Seq<u8>,
    ip: int,
    at: Seq<int>,
    g: GatherV,
    out: GatherV,
) -> bool {
    &&& out.mnemonics.len() == g.mnemonics.len() + at.len() - 1
    &&& forall|k: int| 0 <= k < g.mnemonics.len() ==> #[trigger] out.mnemonics[k] == g.mnemonics[k]
    &&& forall|i: int|
        0 <= i < at.len() - 1 ==> #[trigger] out.mnemonics[g.mnemonics.len() + i] == head_at(
            img.arch,
            b,
            ip,
            at[i],
        ).mnemonic
    &&& passing(img.arch, b, ip, at, Flow::Call, Flow::IndirectCall).finite()
    &&& out.calls == g.calls + passing(
        img.arch,
        b,
        ip,
        at,
        Flow::Call,
        Flow::IndirectCall,
    ).len()
    &&& passing(
        img.arch,
        b,
        ip,
        at,
        Flow::ConditionalBranch,
        Flow::UnconditionalBranch,
    ).finite()
    &&& out.branches == g.branches + passing(
        img.arch,
        b,
        ip,
        at,
        Flow::ConditionalBranch,
        Flow::UnconditionalBranch,
    ).len()
    &&& passing(img.arch, b, ip, at, Flow::Return, Flow::Return).finite()
    &&& out.returns == g.returns + passing(
        img.arch,
        b,
        ip,
        at,
        Flow::Return,
        Flow::Return,
    ).len()
    &&& ordered::is_sorted(out.constants, ordered::ascending())
    &&& ordered::is_sorted(out.strings, ordered::alphabetical())
    &&& ordered::is_sorted(out.blocks, ordered::ascending())
    &&& forall|v: u64| #[trigger]
        out.constants.contains(v) <==> g.constants.contains(v) || (is_constant(img, v) && referred(
            img,
            b,
            ip,
            at,
            v,
        ))
    &&& forall|s: Seq<char>| #[trigger]
        out.strings.contains(s) <==> g.strings.contains(s) || quotes(img, b, ip, at, s)
    &&& forall|x: u64| #[trigger]
        out.blocks.contains(x) <==> g.blocks.contains(x) || blocked(img.arch, b, ip, at, x)
}

/// An instruction of the walk refers to where this text is.
pub open spec fn quotes(img: &ImageInput, b: Seq<u8>, ip: int, at: Seq<int>, s: Seq<char>) -> bool {
    exists|v: u64| #[trigger]
        referred(img, b, ip, at, v) && identity::string_ref(img, v as usize as int) == Some(s)
}

/// A block starts at `x` because of an instruction of the walk.
pub open spec fn blocked(arch: Arch, b: Seq<u8>, ip: int, at: Seq<int>, x: u64) -> bool {
    exists|p: int| stops_at(at, p) && #[trigger] starts_block(arch, b, ip, p, x)
}

spec fn ready(g: GatherV) -> bool {
    &&& ordered::is_sorted(g.constants, ordered::ascending())
    &&& ordered::is_sorted(g.strings, ordered::alphabetical())
    &&& ordered::is_sorted(g.blocks, ordered::ascending())
}

proof fn blocks_are_added(arch: Arch, b: Seq<u8>, ip: int, pos: int, blocks: Seq<u64>, f: FeatV)
    requires
        ordered::is_sorted(blocks, ordered::ascending()),
        f.flow == flow_at(arch, b, ip, pos),
        f.branch_target == head_at(arch, b, ip, pos).target,
        f.next_ip == ((ip + pos) as u64 + head_at(arch, b, ip, pos).len) as u64,
    ensures
        ({
            let out = identity::blocks_after(blocks, f, ip, ip + b.len());
            &&& ordered::is_sorted(out, ordered::ascending())
            &&& forall|x: u64| #[trigger]
                out.contains(x) <==> blocks.contains(x) || starts_block(arch, b, ip, pos, x)
        }),
{
    let order = ordered::ascending();
    ordered::numbers_are_ordered();
    ordered::ins_keeps_order(blocks, f.branch_target, order);
    let jumped = if ip <= f.branch_target < ip + b.len() {
        ordered::ins(blocks, f.branch_target, order)
    } else {
        blocks
    };
    ordered::ins_keeps_order(jumped, f.next_ip, order);
}

proof fn one_is_absorbed(img: &ImageInput, b: Seq<u8>, ip0: u64, pos: int, g: GatherV)
    requires
        starts_at(img.arch, b, ip0 as int, pos),
        ready(g),
    ensures
        gathers(
            img,
            b,
            ip0 as int,
            seq![pos, pos + head_at(img.arch, b, ip0 as int, pos).len],
            g,
            identity::absorbed(
                g,
                identity::feat(img, b.skip(pos), (ip0 + pos) as u64),
                ip0 as int,
                ip0 + b.len(),
            ),
        ),
{
    let ip = ip0 as int;
    let at = seq![pos, pos + head_at(img.arch, b, ip, pos).len];
    let f = identity::feat(img, b.skip(pos), (ip0 + pos) as u64);
    let out = identity::absorbed(g, f, ip, ip0 + b.len());
    let values = decode::references(width(img.arch), b.skip(pos), (ip + pos) as u64, img.arch);
    ordered::numbers_are_ordered();
    texts_are_ordered();
    assert(f.flow == flow_at(img.arch, b, ip, pos));
    assert(f.constants == identity::constants_among(img, values));
    assert(f.strings == identity::strings_at(img, values));
    references_are_values(img, b, ip, pos);
    values_are_sorted_out(img, values);
    ordered::sorted_set_is_sorted(g.constants, f.constants, ordered::ascending());
    ordered::sorted_set_is_sorted(g.strings, f.strings, ordered::alphabetical());
    blocks_are_added(img.arch, b, ip, pos, g.blocks, f);
    assert forall|p: int| stops_at(at, p) <==> p == pos by {
        assert(at[0] == pos);
    }
    one_passes(img.arch, b, ip, pos, Flow::Call, Flow::IndirectCall);
    one_passes(img.arch, b, ip, pos, Flow::ConditionalBranch, Flow::UnconditionalBranch);
    one_passes(img.arch, b, ip, pos, Flow::Return, Flow::Return);
    assert forall|v: u64| #[trigger] out.constants.contains(v) <==> g.constants.contains(v) || (
    is_constant(img, v) && referred(img, b, ip, at, v)) by {
        assert(out.constants.contains(v) <==> g.constants.contains(v) || f.constants.contains(v));
        assert(f.constants.contains(v) <==> values.contains(v) && is_constant(img, v));
        assert(values.contains(v) <==> refers_to(img, b, ip, pos, v));
        if refers_to(img, b, ip, pos, v) {
            assert(stops_at(at, pos));
        }
    }
    assert forall|s: Seq<char>| #[trigger] out.strings.contains(s) <==> g.strings.contains(s) || quotes(
        img,
        b,
        ip,
        at,
        s,
    ) by {
        assert(out.strings.contains(s) <==> g.strings.contains(s) || f.strings.contains(s));
        if f.strings.contains(s) {
            let v = choose|v: u64| #[trigger]
                values.contains(v) && identity::string_ref(img, v as usize as int) == Some(s);
            assert(refers_to(img, b, ip, pos, v));
            assert(stops_at(at, pos));
            assert(referred(img, b, ip, at, v));
        }
        if quotes(img, b, ip, at, s) {
            let v = choose|v: u64| #[trigger]
                referred(img, b, ip, at, v) && identity::string_ref(img, v as usize as int) == Some(s);
            assert(values.contains(v));
        }
    }
    assert forall|x: u64| #[trigger] out.blocks.contains(x) <==> g.blocks.contains(x) || blocked(
        img.arch,
        b,
        ip,
        at,
        x,
    ) by {
        if starts_block(img.arch, b, ip, pos, x) {
            assert(stops_at(at, pos));
        }
    }
}

proof fn one_passes(arch: Arch, b: Seq<u8>, ip: int, pos: int, f: Flow, g: Flow)
    ensures
        ({
            let at = seq![pos, pos + head_at(arch, b, ip, pos).len];
            let s = passing(arch, b, ip, at, f, g);
            &&& s.finite()
            &&& s.len() == if flow_at(arch, b, ip, pos) == f || flow_at(arch, b, ip, pos) == g {
                1nat
            } else {
                0nat
            }
        }),
{
    let at = seq![pos, pos + head_at(arch, b, ip, pos).len];
    let s = passing(arch, b, ip, at, f, g);
    assert forall|p: int| stops_at(at, p) <==> p == pos by {
        assert(at[0] == pos);
    }
    if flow_at(arch, b, ip, pos) == f || flow_at(arch, b, ip, pos) == g {
        assert(s =~= Set::<int>::empty().insert(pos));
    } else {
        assert(s =~= Set::<int>::empty());
    }
}

proof fn later_stops(arch: Arch, b: Seq<u8>, ip: int, pos: int, at: Seq<int>, i: int)
    requires
        walk_from(arch, b, ip, pos, at),
        0 <= i < at.len(),
    ensures
        at[i] >= pos,
    decreases i,
{
    if i > 0 {
        later_stops(arch, b, ip, pos, at, i - 1);
        assert(starts_at(arch, b, ip, at[i - 1]));
    }
}

proof fn stops_join(arch: Arch, b: Seq<u8>, ip: int, pos: int, rest: Seq<int>)
    requires
        starts_at(arch, b, ip, pos),
        walk_from(arch, b, ip, pos + head_at(arch, b, ip, pos).len, rest),
    ensures
        !stops_at(rest, pos),
        forall|p: int| #[trigger] stops_at(seq![pos] + rest, p) <==> p == pos || stops_at(rest, p),
{
    let at = seq![pos] + rest;
    if stops_at(rest, pos) {
        let i = choose|i: int| 0 <= i < rest.len() - 1 && #[trigger] rest[i] == pos;
        later_stops(arch, b, ip, pos + head_at(arch, b, ip, pos).len, rest, i);
    }
    assert forall|p: int| #[trigger] stops_at(at, p) <==> p == pos || stops_at(rest, p) by {
        assert(at[0] == pos);
        if stops_at(rest, p) {
            let i = choose|i: int| 0 <= i < rest.len() - 1 && #[trigger] rest[i] == p;
            assert(at[i + 1] == p);
        }
        if stops_at(at, p) {
            let i = choose|i: int| 0 <= i < at.len() - 1 && #[trigger] at[i] == p;
            if i > 0 {
                assert(rest[i - 1] == p);
            }
        }
    }
}

proof fn passes_join(arch: Arch, b: Seq<u8>, ip: int, pos: int, rest: Seq<int>, f: Flow, g: Flow)
    requires
        starts_at(arch, b, ip, pos),
        walk_from(arch, b, ip, pos + head_at(arch, b, ip, pos).len, rest),
        passing(arch, b, ip, rest, f, g).finite(),
    ensures
        ({
            let s = passing(arch, b, ip, seq![pos] + rest, f, g);
            &&& s.finite()
            &&& s.len() == passing(arch, b, ip, rest, f, g).len() + passing(
                arch,
                b,
                ip,
                seq![pos, pos + head_at(arch, b, ip, pos).len],
                f,
                g,
            ).len()
        }),
{
    stops_join(arch, b, ip, pos, rest);
    one_passes(arch, b, ip, pos, f, g);
    let s = passing(arch, b, ip, seq![pos] + rest, f, g);
    let t = passing(arch, b, ip, rest, f, g);
    if flow_at(arch, b, ip, pos) == f || flow_at(arch, b, ip, pos) == g {
        assert(s =~= t.insert(pos));
    } else {
        assert(s =~= t);
    }
}

proof fn gathering_joins(
    img: &ImageInput,
    b: Seq<u8>,
    ip: int,
    pos: int,
    rest: Seq<int>,
    g: GatherV,
    mid: GatherV,
    out: GatherV,
)
    requires
        starts_at(img.arch, b, ip, pos),
        walk_from(img.arch, b, ip, pos + head_at(img.arch, b, ip, pos).len, rest),
        gathers(
            img,
            b,
            ip,
            seq![pos, pos + head_at(img.arch, b, ip, pos).len],
            g,
            mid,
        ),
        gathers(img, b, ip, rest, mid, out),
    ensures
        gathers(img, b, ip, seq![pos] + rest, g, out),
{
    let at = seq![pos] + rest;
    let one = seq![pos, pos + head_at(img.arch, b, ip, pos).len];
    stops_join(img.arch, b, ip, pos, rest);
    passes_join(img.arch, b, ip, pos, rest, Flow::Call, Flow::IndirectCall);
    passes_join(img.arch, b, ip, pos, rest, Flow::ConditionalBranch, Flow::UnconditionalBranch);
    passes_join(img.arch, b, ip, pos, rest, Flow::Return, Flow::Return);
    assert forall|p: int| #[trigger] stops_at(one, p) <==> p == pos by {
        assert(one[0] == pos);
    }
    let n = g.mnemonics.len() as int;
    assert forall|i: int| 0 <= i < at.len() - 1 implies #[trigger] out.mnemonics[n + i] == head_at(
        img.arch,
        b,
        ip,
        at[i],
    ).mnemonic by {
        if i > 0 {
            assert(at[i] == rest[i - 1]);
            assert(out.mnemonics[mid.mnemonics.len() + (i - 1)] == head_at(
                img.arch,
                b,
                ip,
                rest[i - 1],
            ).mnemonic);
        } else {
            assert(mid.mnemonics[n + 0] == head_at(img.arch, b, ip, one[0]).mnemonic);
            assert(out.mnemonics[n] == mid.mnemonics[n]);
        }
    }
    assert forall|k: int| 0 <= k < n implies #[trigger] out.mnemonics[k] == g.mnemonics[k] by {
        assert(out.mnemonics[k] == mid.mnemonics[k]);
    }
    assert forall|v: u64| #[trigger] referred(img, b, ip, at, v) <==> referred(img, b, ip, one, v)
        || referred(img, b, ip, rest, v) by {
        if referred(img, b, ip, at, v) {
            let p = choose|p: int| stops_at(at, p) && #[trigger] refers_to(img, b, ip, p, v);
            if p == pos {
                assert(stops_at(one, p));
            } else {
                assert(stops_at(rest, p));
            }
        }
        if referred(img, b, ip, one, v) {
            let p = choose|p: int| stops_at(one, p) && #[trigger] refers_to(img, b, ip, p, v);
            assert(stops_at(at, p));
        }
        if referred(img, b, ip, rest, v) {
            let p = choose|p: int| stops_at(rest, p) && #[trigger] refers_to(img, b, ip, p, v);
            assert(stops_at(at, p));
        }
    }
    assert forall|s: Seq<char>| #[trigger] quotes(img, b, ip, at, s) <==> quotes(img, b, ip, one, s)
        || quotes(img, b, ip, rest, s) by {
        if quotes(img, b, ip, at, s) {
            let v = choose|v: u64| #[trigger]
                referred(img, b, ip, at, v) && identity::string_ref(img, v as usize as int) == Some(s);
            assert(referred(img, b, ip, one, v) || referred(img, b, ip, rest, v));
        }
        if quotes(img, b, ip, one, s) {
            let v = choose|v: u64| #[trigger]
                referred(img, b, ip, one, v) && identity::string_ref(img, v as usize as int) == Some(s);
            assert(referred(img, b, ip, at, v));
        }
        if quotes(img, b, ip, rest, s) {
            let v = choose|v: u64| #[trigger]
                referred(img, b, ip, rest, v) && identity::string_ref(img, v as usize as int) == Some(s);
            assert(referred(img, b, ip, at, v));
        }
    }
    assert forall|x: u64| #[trigger] blocked(img.arch, b, ip, at, x) <==> blocked(
        img.arch,
        b,
        ip,
        one,
        x,
    ) || blocked(img.arch, b, ip, rest, x) by {
        if blocked(img.arch, b, ip, at, x) {
            let p = choose|p: int| stops_at(at, p) && #[trigger] starts_block(img.arch, b, ip, p, x);
            if p == pos {
                assert(stops_at(one, p));
            } else {
                assert(stops_at(rest, p));
            }
        }
        if blocked(img.arch, b, ip, one, x) {
            let p = choose|p: int| stops_at(one, p) && #[trigger] starts_block(img.arch, b, ip, p, x);
            assert(stops_at(at, p));
        }
        if blocked(img.arch, b, ip, rest, x) {
            let p = choose|p: int| stops_at(rest, p) && #[trigger] starts_block(img.arch, b, ip, p, x);
            assert(stops_at(at, p));
        }
    }
    assert forall|v: u64| #[trigger] out.constants.contains(v) <==> g.constants.contains(v) || (
    is_constant(img, v) && referred(img, b, ip, at, v)) by {
        assert(out.constants.contains(v) <==> mid.constants.contains(v) || (is_constant(img, v)
            && referred(img, b, ip, rest, v)));
        assert(mid.constants.contains(v) <==> g.constants.contains(v) || (is_constant(img, v)
            && referred(img, b, ip, one, v)));
    }
    assert forall|s: Seq<char>| #[trigger] out.strings.contains(s) <==> g.strings.contains(s) || quotes(
        img,
        b,
        ip,
        at,
        s,
    ) by {
        assert(out.strings.contains(s) <==> mid.strings.contains(s) || quotes(img, b, ip, rest, s));
        assert(mid.strings.contains(s) <==> g.strings.contains(s) || quotes(img, b, ip, one, s));
    }
    assert forall|x: u64| #[trigger] out.blocks.contains(x) <==> g.blocks.contains(x) || blocked(
        img.arch,
        b,
        ip,
        at,
        x,
    ) by {
        assert(out.blocks.contains(x) <==> mid.blocks.contains(x) || blocked(
            img.arch,
            b,
            ip,
            rest,
            x,
        ));
        assert(mid.blocks.contains(x) <==> g.blocks.contains(x) || blocked(img.arch, b, ip, one, x));
    }
}

proof fn nothing_is_gathered(img: &ImageInput, b: Seq<u8>, ip: int, pos: int, g: GatherV)
    requires
        ready(g),
    ensures
        gathers(img, b, ip, seq![pos], g, g),
{
    let at = seq![pos];
    assert forall|p: int| !stops_at(at, p) by {}
    assert(passing(img.arch, b, ip, at, Flow::Call, Flow::IndirectCall) =~= Set::<int>::empty());
    assert(passing(img.arch, b, ip, at, Flow::ConditionalBranch, Flow::UnconditionalBranch) =~= Set::<
        int,
    >::empty());
    assert(passing(img.arch, b, ip, at, Flow::Return, Flow::Return) =~= Set::<int>::empty());
}

proof fn gather_walk(img: &ImageInput, b: Seq<u8>, ip0: u64, pos: int, g: GatherV) -> (at: Seq<int>)
    requires
        0 <= pos <= b.len(),
        ready(g),
        g.mnemonics.len() <= 24,
    ensures
        walk_from(img.arch, b, ip0 as int, pos, at),
        g.mnemonics.len() + at.len() - 1 <= 24,
        forall|i: int|
            0 <= i < at.len() - 2 ==> !#[trigger] ends_call(img.arch, b, ip0 as int, at[i]),
        g.mnemonics.len() + at.len() - 1 == 24 || !starts_at(
            img.arch,
            b,
            ip0 as int,
            at.last(),
        ) || (at.len() > 1 && ends_call(img.arch, b, ip0 as int, at[at.len() - 2])),
        gathers(img, b, ip0 as int, at, g, identity::gather_from(img, b, ip0, pos, g)),
    decreases b.len() - pos,
{
    let ip = ip0 as int;
    let h = head_at(img.arch, b, ip, pos);
    if !(0 <= pos < b.len()) || g.mnemonics.len() >= identity::ID_MAX_INSTRS || !decode::decodable(
        h,
        b.skip(pos),
    ) {
        nothing_is_gathered(img, b, ip, pos, g);
        seq![pos]
    } else {
        one_is_absorbed(img, b, ip0, pos, g);
        let mid = identity::absorbed(
            g,
            identity::feat(img, b.skip(pos), (ip0 + pos) as u64),
            ip,
            ip0 + b.len(),
        );
        if ends_call(img.arch, b, ip, pos) {
            seq![pos, pos + h.len]
        } else {
            let rest = gather_walk(img, b, ip0, pos + h.len, mid);
            let out = identity::gather_from(img, b, ip0, pos, g);
            gathering_joins(img, b, ip, pos, rest, g, mid, out);
            walk_grows(img.arch, b, ip, pos, rest);
            seq![pos] + rest
        }
    }
}

/// The addresses at which the blocks of a function start.
pub open spec fn block_starts(arch: Arch, b: Seq<u8>, ip: u64, at: Seq<int>) -> Set<u64> {
    Set::new(|x: u64| x == ip || blocked(arch, b, ip as int, at, x))
}

/// The identity of a function is that of its first instructions: 24 of them at most, within 256 bytes, up
/// to the first return. It has their mnemonics in order; how many of them call, branch and return; how many
/// blocks start; every constant they refer to and every text, each once and in order.
pub proof fn identities_are_of_the_code(img: &ImageInput, rva: int) -> (at: Seq<int>)
    requires
        0 <= img.base + rva <= u64::MAX,
    ensures
        ({
            let b = img.bytes(img.base + rva, 256);
            let ip = img.base + rva;
            let id = identity::identity_at(img, rva);
            let arch = img.arch;
            &&& walk(arch, b, ip, at)
            &&& at.len() <= 25
            &&& forall|i: int| 0 <= i < at.len() - 2 ==> !#[trigger] ends_call(arch, b, ip, at[i])
            &&& at.len() == 25 || !starts_at(arch, b, ip, at.last()) || (at.len() > 1 && ends_call(
                arch,
                b,
                ip,
                at[at.len() - 2],
            ))
            &&& id.instr_count == at.len() - 1
            &&& id.mnemonics.len() == at.len() - 1
            &&& forall|i: int|
                0 <= i < at.len() - 1 ==> #[trigger] id.mnemonics[i] == head_at(
                    arch,
                    b,
                    ip,
                    at[i],
                ).mnemonic
            &&& id.calls == passing(arch, b, ip, at, Flow::Call, Flow::IndirectCall).len()
            &&& id.branches == passing(
                arch,
                b,
                ip,
                at,
                Flow::ConditionalBranch,
                Flow::UnconditionalBranch,
            ).len()
            &&& id.returns == passing(arch, b, ip, at, Flow::Return, Flow::Return).len()
            &&& block_starts(arch, b, ip as u64, at).finite()
            &&& id.blocks == block_starts(arch, b, ip as u64, at).len()
            &&& forall|i: int, j: int| 0 <= i < j < id.constants.len() ==> id.constants[i] < id.constants[j]
            &&& forall|v: u64| #[trigger]
                id.constants.contains(v) <==> is_constant(img, v) && referred(img, b, ip, at, v)
            &&& forall|i: int, j: int|
                0 <= i < j < id.strings.len() ==> text::text_before(
                    #[trigger] id.strings[i],
                    #[trigger] id.strings[j],
                )
            &&& forall|s: Seq<char>| #[trigger]
                id.strings.contains(s) <==> quotes(img, b, ip, at, s)
        }),
{
    let b = img.bytes(img.base + rva, 256);
    let ip = img.base + rva;
    let ip0 = ip as u64;
    let g = identity::gather_start(ip0);
    ordered::numbers_are_ordered();
    let at = gather_walk(img, b, ip0, 0, g);
    let out = identity::gather_from(img, b, ip0, 0, g);
    let id = identity::identity_at(img, rva);
    let rising = ordered::ascending();
    let spelled = ordered::alphabetical();
    few_pass(img.arch, b, ip, at, Flow::Call, Flow::IndirectCall);
    few_pass(img.arch, b, ip, at, Flow::ConditionalBranch, Flow::UnconditionalBranch);
    few_pass(img.arch, b, ip, at, Flow::Return, Flow::Return);
    assert forall|i: int| 0 <= i < at.len() - 1 implies #[trigger] id.mnemonics[i] == head_at(
        img.arch,
        b,
        ip,
        at[i],
    ).mnemonic by {
        assert(out.mnemonics[g.mnemonics.len() + i] == head_at(img.arch, b, ip, at[i]).mnemonic);
    }
    assert forall|i: int, j: int| 0 <= i < j < id.constants.len() implies id.constants[i] < id.constants[j] by {
        assert(rising(id.constants[i], id.constants[j]));
    }
    assert forall|i: int, j: int| 0 <= i < j < id.strings.len() implies text::text_before(
        #[trigger] id.strings[i],
        #[trigger] id.strings[j],
    ) by {
        assert(spelled(id.strings[i], id.strings[j]));
    }
    assert(out.blocks.no_duplicates()) by {
        assert forall|i: int, j: int|
            0 <= i < out.blocks.len() && 0 <= j < out.blocks.len() && i != j implies out.blocks[i]
            != out.blocks[j] by {
            if i < j {
                assert(rising(out.blocks[i], out.blocks[j]));
            } else {
                assert(rising(out.blocks[j], out.blocks[i]));
            }
        }
    }
    out.blocks.unique_seq_to_set();
    let starts = block_starts(img.arch, b, ip0, at);
    assert forall|x: u64| g.blocks.contains(x) <==> x == ip0 by {
        assert(g.blocks[0] == ip0);
    }
    assert(out.blocks.to_set() =~= starts);
    few_blocks(img.arch, b, ip0, at);
    at
}

proof fn few_pass(arch: Arch, b: Seq<u8>, ip: int, at: Seq<int>, f: Flow, g: Flow)
    requires
        at.len() > 0,
    ensures
        passing(arch, b, ip, at, f, g).finite(),
        passing(arch, b, ip, at, f, g).len() <= at.len() - 1,
    decreases at.len(),
{
    let s = passing(arch, b, ip, at, f, g);
    if at.len() == 1 {
        assert(s =~= Set::<int>::empty());
    } else {
        let d = at.drop_last();
        few_pass(arch, b, ip, d, f, g);
        let t = passing(arch, b, ip, d, f, g);
        let p = d.last();
        assert forall|x: int| stops_at(at, x) <==> stops_at(d, x) || x == p by {
            assert(at[at.len() - 2] == p);
            if stops_at(d, x) {
                let i = choose|i: int| 0 <= i < d.len() - 1 && #[trigger] d[i] == x;
                assert(at[i] == x);
            }
            if stops_at(at, x) {
                let i = choose|i: int| 0 <= i < at.len() - 1 && #[trigger] at[i] == x;
                if i < d.len() - 1 {
                    assert(d[i] == x);
                }
            }
        }
        if flow_at(arch, b, ip, p) == f || flow_at(arch, b, ip, p) == g {
            assert(s =~= t.insert(p));
        } else {
            assert(s =~= t);
        }
    }
}

proof fn few_blocks(arch: Arch, b: Seq<u8>, ip: u64, at: Seq<int>)
    requires
        at.len() > 0,
    ensures
        block_starts(arch, b, ip, at).finite(),
        block_starts(arch, b, ip, at).len() <= 2 * at.len(),
    decreases at.len(),
{
    let s = block_starts(arch, b, ip, at);
    if at.len() == 1 {
        assert(s =~= Set::<u64>::empty().insert(ip));
    } else {
        let d = at.drop_last();
        few_blocks(arch, b, ip, d);
        let t = block_starts(arch, b, ip, d);
        let p = d.last();
        let h = head_at(arch, b, ip as int, p);
        let next = ((ip + p) as u64 + h.len) as u64;
        let more = t.insert(h.target).insert(next);
        assert forall|x: int| stops_at(at, x) implies stops_at(d, x) || x == p by {
            let i = choose|i: int| 0 <= i < at.len() - 1 && #[trigger] at[i] == x;
            if i < d.len() - 1 {
                assert(d[i] == x);
            }
        }
        assert(s.subset_of(more)) by {
            assert forall|x: u64| s.contains(x) implies more.contains(x) by {
                if x != ip {
                    let q = choose|q: int|
                        stops_at(at, q) && #[trigger] starts_block(arch, b, ip as int, q, x);
                    if q != p {
                        assert(stops_at(d, q));
                        assert(blocked(arch, b, ip as int, d, x));
                    }
                }
            }
        }
        vstd::set_lib::lemma_len_subset(s, more);
    }
}

}
