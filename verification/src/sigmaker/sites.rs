//! Where the code of a build refers to a target: which instructions of a sweep do, and which of them are
//! used.

use crate::pattern::Arch;
use crate::sigmaker::cache;
use crate::sigmaker::candidates;
use crate::sigmaker::decode;
use crate::sigmaker::stream::{head_at, width};
use crate::x86;
use crate::x86::{Flow, Operand};
use vstd::prelude::*;

verus! {

/// `at` holds where a sweep of the code stops from `pos` on, up to its end: it moves past what was decoded
/// at each stop, instruction or not.
pub open spec fn sweep(arch: Arch, b: Seq<u8>, ip: int, pos: int, at: Seq<int>) -> bool {
    &&& at.len() > 0
    &&& at[0] == pos
    &&& at.last() >= b.len()
    &&& forall|i: int|
        0 <= i < at.len() - 1 ==> 0 <= #[trigger] at[i] < b.len() && moves_on(
            arch,
            b,
            ip,
            at[i],
            at[i + 1],
        )
}

/// The sweep moves from `p` to `q`: past the instruction, or to the end where there is nothing to decode.
pub open spec fn moves_on(arch: Arch, b: Seq<u8>, ip: int, p: int, q: int) -> bool {
    let len = head_at(arch, b, ip, p).len;
    p < q <= b.len() && (q == p + len || (q == b.len() && (len == 0 || p + len > b.len())))
}

/// The four bytes behind the first, as a signed distance.
pub open spec fn distance(b: Seq<u8>, pos: int) -> int {
    let v = b[pos + 1] + 256 * b[pos + 2] + 65536 * b[pos + 3] + 16777216 * b[pos + 4];
    if v >= 2147483648 {
        v - 4294967296
    } else {
        v
    }
}

/// At `pos` of code that sits at `ip` is a call, or a jump, of five bytes to the target.
pub open spec fn branch_at(
    arch: Arch,
    b: Seq<u8>,
    ip: int,
    pos: int,
    target: usize,
    call: bool,
) -> bool {
    let h = head_at(arch, b, ip, pos);
    let flow = x86::flow_of(width(arch), b.skip(pos), (ip + pos) as u64);
    &&& !h.invalid
    &&& h.len == 5
    &&& pos + 5 <= b.len()
    &&& b[pos] == 0xE8 || b[pos] == 0xE9
    &&& call ==> flow == Flow::Call
    &&& !call ==> flow == Flow::UnconditionalBranch
    &&& h.target == target
    &&& ip + pos + 5 + distance(b, pos) == target
}

/// At `pos` is an instruction with a memory operand that names the target outright: relative to the
/// instruction, or, in x86 code, without base and index.
pub open spec fn reference_at(arch: Arch, b: Seq<u8>, ip: int, pos: int, target: usize) -> bool {
    let h = head_at(arch, b, ip, pos);
    let m = x86::memory_of(width(arch), b.skip(pos), (ip + pos) as u64);
    &&& !h.invalid
    &&& exists|k: u32|
        k < h.operands && #[trigger] x86::operand_of(
            width(arch),
            b.skip(pos),
            (ip + pos) as u64,
            k,
        ) == Operand::Memory
    &&& (m.ip_relative && m.ip_address as usize == target) || (!m.ip_relative && arch == Arch::X86
        && m.no_base && m.no_index && m.displacement as usize == target)
}

/// `at` is a sweep from `pos` on, and `idx` lists, in order, those of its stops that refer to the target.
spec fn picks(
    arch: Arch,
    b: Seq<u8>,
    ip: int,
    pos: int,
    at: Seq<int>,
    idx: Seq<int>,
    is: spec_fn(int) -> bool,
) -> bool {
    &&& sweep(arch, b, ip, pos, at)
    &&& forall|j: int|
        0 <= j < idx.len() ==> pos <= #[trigger] idx[j] < b.len() && at.contains(idx[j]) && is(idx[j])
    &&& forall|i: int, j: int| 0 <= i < j < idx.len() ==> #[trigger] idx[i] < #[trigger] idx[j]
    &&& forall|i: int| 0 <= i < at.len() - 1 && is(#[trigger] at[i]) ==> idx.contains(at[i])
}

proof fn picks_grow(
    arch: Arch,
    b: Seq<u8>,
    ip: int,
    pos: int,
    next: int,
    at: Seq<int>,
    idx: Seq<int>,
    is: spec_fn(int) -> bool,
) -> (r: (Seq<int>, Seq<int>))
    requires
        0 <= pos < b.len(),
        moves_on(arch, b, ip, pos, next),
        picks(arch, b, ip, next, at, idx, is),
    ensures
        picks(arch, b, ip, pos, r.0, r.1, is),
        r.1 == if is(pos) {
            seq![pos] + idx
        } else {
            idx
        },
{
    let a = seq![pos] + at;
    let x = if is(pos) {
        seq![pos] + idx
    } else {
        idx
    };
    assert(a.last() == at.last());
    assert forall|i: int| 0 <= i < a.len() - 1 implies 0 <= #[trigger] a[i] < b.len() && moves_on(
        arch,
        b,
        ip,
        a[i],
        a[i + 1],
    ) by {
        if i > 0 {
            assert(a[i] == at[i - 1]);
            assert(a[i + 1] == at[i]);
        } else {
            assert(a[1] == at[0]);
        }
    }
    let off: int = x.len() - idx.len();
    assert forall|j: int| 0 <= j < x.len() implies pos <= #[trigger] x[j] < b.len() && a.contains(x[j])
        && is(x[j]) by {
        if j >= off {
            assert(x[j] == idx[j - off]);
            assert(at.contains(idx[j - off]));
            let k = choose|k: int| 0 <= k < at.len() && at[k] == idx[j - off];
            assert(a[k + 1] == x[j]);
        } else {
            assert(a[0] == x[j]);
        }
    }
    assert forall|i: int, j: int| 0 <= i < j < x.len() implies #[trigger] x[i] < #[trigger] x[j] by {
        assert(x[j] == idx[j - off]);
        if i >= off {
            assert(x[i] == idx[i - off]);
        }
    }
    assert forall|i: int| 0 <= i < a.len() - 1 && is(#[trigger] a[i]) implies x.contains(a[i]) by {
        if i > 0 {
            assert(a[i] == at[i - 1]);
            assert(idx.contains(at[i - 1]));
            let k = choose|k: int| 0 <= k < idx.len() && idx[k] == at[i - 1];
            assert(x[k + off] == a[i]);
        } else {
            assert(x[0] == pos);
        }
    }
    (a, x)
}

proof fn branch_is_branch(
    arch: Arch,
    region: (usize, Seq<u8>),
    target: usize,
    call: bool,
    pos: int,
)
    requires
        0 <= pos < region.1.len(),
    ensures
        candidates::branches_to(
            decode::mode(arch),
            region.1.skip(pos),
            region.0 + pos,
            target,
            call,
        ) <==> branch_at(arch, region.1, region.0 as int, pos, target, call),
{
    let rest = region.1.skip(pos);
    if rest.len() >= 5 {
        assert(rest[0] == region.1[pos]);
        assert(rest[1] == region.1[pos + 1]);
        assert(rest[2] == region.1[pos + 2]);
        assert(rest[3] == region.1[pos + 3]);
        assert(rest[4] == region.1[pos + 4]);
    }
}

/// What the addresses of the picked stops are.
spec fn addressed(image_base: int, base: usize, idx: Seq<int>) -> Seq<u64> {
    Seq::new(idx.len(), |j: int| (base + idx[j] - image_base) as u64)
}

proof fn branches_are_picked(
    arch: Arch,
    image_base: int,
    region: (usize, Seq<u8>),
    target: usize,
    call: bool,
    pos: int,
) -> (r: (Seq<int>, Seq<int>))
    requires
        0 <= pos,
    ensures
        picks(
            arch,
            region.1,
            region.0 as int,
            pos,
            r.0,
            r.1,
            |p: int| branch_at(arch, region.1, region.0 as int, p, target, call),
        ),
        candidates::branches_from(arch, image_base, region, target, call, pos) == addressed(
            image_base,
            region.0,
            r.1,
        ),
    decreases region.1.len() - pos,
{
    let is = |p: int| branch_at(arch, region.1, region.0 as int, p, target, call);
    if pos >= region.1.len() {
        assert(addressed(image_base, region.0, Seq::empty()) =~= Seq::<u64>::empty());
        (seq![pos], Seq::empty())
    } else {
        let rest = region.1.skip(pos);
        let h = head_at(arch, region.1, region.0 as int, pos);
        let next = pos + decode::step(h, rest);
        assert(moves_on(arch, region.1, region.0 as int, pos, next));
        let (at, idx) = branches_are_picked(arch, image_base, region, target, call, next);
        let r = picks_grow(arch, region.1, region.0 as int, pos, next, at, idx, is);
        branch_is_branch(arch, region, target, call, pos);
        if is(pos) {
            assert(addressed(image_base, region.0, r.1) =~= seq![
                (region.0 + pos - image_base) as u64,
            ] + addressed(image_base, region.0, idx)) by {
                let whole = addressed(image_base, region.0, r.1);
                assert forall|j: int| 0 <= j < whole.len() implies whole[j] == (seq![
                    (region.0 + pos - image_base) as u64,
                ] + addressed(image_base, region.0, idx))[j] by {
                    if j > 0 {
                        assert(r.1[j] == idx[j - 1]);
                    } else {
                        assert(r.1[0] == pos);
                    }
                }
            }
        }
        r
    }
}

/// The branches to a target in a region are exactly those stops of the sweep at which a call, or a jump,
/// of five bytes goes to it, in order.
pub proof fn branches_are_all_there(
    arch: Arch,
    image_base: int,
    region: (usize, Seq<u8>),
    target: usize,
    call: bool,
) -> (r: (Seq<int>, Seq<int>))
    ensures
        ({
            let (at, idx) = r;
            let out = candidates::branches_from(arch, image_base, region, target, call, 0);
            let ip = region.0 as int;
            &&& sweep(arch, region.1, ip, 0, at)
            &&& out.len() == idx.len()
            &&& forall|j: int|
                0 <= j < idx.len() ==> #[trigger] out[j] == (ip + idx[j] - image_base) as u64
            &&& forall|i: int, j: int| 0 <= i < j < idx.len() ==> #[trigger] idx[i] < #[trigger] idx[j]
            &&& forall|p: int| #[trigger]
                idx.contains(p) <==> at.contains(p) && p < region.1.len() && branch_at(
                    arch,
                    region.1,
                    ip,
                    p,
                    target,
                    call,
                )
        }),
{
    let r = branches_are_picked(arch, image_base, region, target, call, 0);
    let is = |p: int| branch_at(arch, region.1, region.0 as int, p, target, call);
    picked_is_exact(arch, region.1, region.0 as int, r.0, r.1, is);
    assert forall|p: int| #[trigger]
        r.1.contains(p) <==> r.0.contains(p) && p < region.1.len() && branch_at(
            arch,
            region.1,
            region.0 as int,
            p,
            target,
            call,
        ) by {
        assert(r.1.contains(p) <==> r.0.contains(p) && p < region.1.len() && is(p));
    }
    r
}

proof fn picked_is_exact(
    arch: Arch,
    b: Seq<u8>,
    ip: int,
    at: Seq<int>,
    idx: Seq<int>,
    is: spec_fn(int) -> bool,
)
    requires
        picks(arch, b, ip, 0, at, idx, is),
    ensures
        forall|p: int| #[trigger] idx.contains(p) <==> at.contains(p) && p < b.len() && is(p),
{
    assert forall|p: int| #[trigger] idx.contains(p) <==> at.contains(p) && p < b.len() && is(p) by {
        if idx.contains(p) {
            let j = choose|j: int| 0 <= j < idx.len() && idx[j] == p;
            assert(at.contains(idx[j]) && is(idx[j]));
        }
        if at.contains(p) && p < b.len() && is(p) {
            let i = choose|i: int| 0 <= i < at.len() && at[i] == p;
            assert(is(at[i]));
            assert(i < at.len() - 1);
        }
    }
}

proof fn reference_is_reference(
    arch: Arch,
    b: Seq<u8>,
    ip: int,
    pos: int,
    target: usize,
)
    ensures
        (!head_at(arch, b, ip, pos).invalid && decode::named_address(
            decode::mode(arch),
            b.skip(pos),
            (ip + pos) as u64,
            arch,
        ) == Some(target)) <==> reference_at(arch, b, ip, pos, target),
{
    let bits = decode::mode(arch);
    let at = (ip + pos) as u64;
    let h = head_at(arch, b, ip, pos);
    assert(decode::touches_memory(bits, b.skip(pos), at, h.operands as int) <==> exists|k: u32|
        k < h.operands && #[trigger] x86::operand_of(width(arch), b.skip(pos), at, k)
            == Operand::Memory);
}

spec fn told(arch: Arch, image_base: int, region: (usize, Seq<u8>), idx: Seq<int>) -> Seq<(u64, bool)> {
    Seq::new(
        idx.len(),
        |j: int|
            (
                (region.0 + idx[j] - image_base) as u64,
                x86::memory_of(
                    width(arch),
                    region.1.skip(idx[j]),
                    (region.0 + idx[j]) as u64,
                ).ip_relative,
            ),
    )
}

proof fn references_are_picked(
    arch: Arch,
    image_base: int,
    region: (usize, Seq<u8>),
    target: usize,
    pos: int,
) -> (r: (Seq<int>, Seq<int>))
    requires
        0 <= pos,
    ensures
        picks(
            arch,
            region.1,
            region.0 as int,
            pos,
            r.0,
            r.1,
            |p: int| reference_at(arch, region.1, region.0 as int, p, target),
        ),
        candidates::references_from(arch, image_base, region, target, pos) == told(
            arch,
            image_base,
            region,
            r.1,
        ),
    decreases region.1.len() - pos,
{
    let is = |p: int| reference_at(arch, region.1, region.0 as int, p, target);
    if pos >= region.1.len() {
        assert(told(arch, image_base, region, Seq::empty()) =~= Seq::<(u64, bool)>::empty());
        (seq![pos], Seq::empty())
    } else {
        let rest = region.1.skip(pos);
        let h = head_at(arch, region.1, region.0 as int, pos);
        let next = pos + decode::step(h, rest);
        assert(moves_on(arch, region.1, region.0 as int, pos, next));
        let (at, idx) = references_are_picked(arch, image_base, region, target, next);
        let r = picks_grow(arch, region.1, region.0 as int, pos, next, at, idx, is);
        reference_is_reference(arch, region.1, region.0 as int, pos, target);
        if is(pos) {
            let whole = told(arch, image_base, region, r.1);
            let more = told(arch, image_base, region, idx);
            let out = candidates::references_from(arch, image_base, region, target, pos);
            assert(out.len() == whole.len());
            assert forall|j: int| 0 <= j < whole.len() implies whole[j] == out[j] by {
                if j > 0 {
                    assert(r.1[j] == idx[j - 1]);
                    assert(whole[j] == more[j - 1]);
                    assert(out[j] == more[j - 1]);
                } else {
                    assert(r.1[0] == pos);
                }
            }
            assert(whole =~= out);
        }
        r
    }
}

/// The references to a target in a region are exactly those stops of the sweep whose memory operand names
/// it outright, in order, each with whether it is relative to the instruction.
pub proof fn references_are_all_there(
    arch: Arch,
    image_base: int,
    region: (usize, Seq<u8>),
    target: usize,
) -> (r: (Seq<int>, Seq<int>))
    ensures
        ({
            let (at, idx) = r;
            let out = candidates::references_from(arch, image_base, region, target, 0);
            let ip = region.0 as int;
            &&& sweep(arch, region.1, ip, 0, at)
            &&& out.len() == idx.len()
            &&& forall|j: int|
                0 <= j < idx.len() ==> (#[trigger] out[j]).0 == (ip + idx[j] - image_base) as u64
                    && out[j].1 == x86::memory_of(
                    width(arch),
                    region.1.skip(idx[j]),
                    (ip + idx[j]) as u64,
                ).ip_relative
            &&& forall|i: int, j: int| 0 <= i < j < idx.len() ==> #[trigger] idx[i] < #[trigger] idx[j]
            &&& forall|p: int| #[trigger]
                idx.contains(p) <==> at.contains(p) && p < region.1.len() && reference_at(
                    arch,
                    region.1,
                    ip,
                    p,
                    target,
                )
        }),
{
    let r = references_are_picked(arch, image_base, region, target, 0);
    let is = |p: int| reference_at(arch, region.1, region.0 as int, p, target);
    picked_is_exact(arch, region.1, region.0 as int, r.0, r.1, is);
    assert forall|p: int| #[trigger]
        r.1.contains(p) <==> r.0.contains(p) && p < region.1.len() && reference_at(
            arch,
            region.1,
            region.0 as int,
            p,
            target,
        ) by {
        assert(r.1.contains(p) <==> r.0.contains(p) && p < region.1.len() && is(p));
    }
    r
}

/// The branches to a target are those of every code region, and no others.
pub proof fn every_region_is_searched_for_branches(
    arch: Arch,
    image_base: int,
    regions: cache::RegionsV,
    target: usize,
    call: bool,
    n: int,
)
    requires
        0 <= n,
    ensures
        forall|i: int, j: int|
            n <= i < regions.len() && 0 <= j < candidates::branches_from(
                arch,
                image_base,
                regions[i],
                target,
                call,
                0,
            ).len() ==> candidates::all_branches(
                arch,
                image_base,
                regions,
                target,
                call,
                n,
            ).contains(
                #[trigger] candidates::branches_from(
                    arch,
                    image_base,
                    regions[i],
                    target,
                    call,
                    0,
                )[j],
            ),
        forall|x: u64| #[trigger]
            candidates::all_branches(arch, image_base, regions, target, call, n).contains(x)
                ==> exists|i: int|
                n <= i < regions.len() && (#[trigger] candidates::branches_from(
                    arch,
                    image_base,
                    regions[i],
                    target,
                    call,
                    0,
                )).contains(x),
    decreases regions.len() - n,
{
    if n < regions.len() {
        every_region_is_searched_for_branches(arch, image_base, regions, target, call, n + 1);
        let here = candidates::branches_from(arch, image_base, regions[n], target, call, 0);
        let more = candidates::all_branches(arch, image_base, regions, target, call, n + 1);
        let all = candidates::all_branches(arch, image_base, regions, target, call, n);
        assert(all == here + more);
        assert forall|i: int, j: int|
            n <= i < regions.len() && 0 <= j < candidates::branches_from(
                arch,
                image_base,
                regions[i],
                target,
                call,
                0,
            ).len() implies all.contains(
            #[trigger] candidates::branches_from(arch, image_base, regions[i], target, call, 0)[j],
        ) by {
            let x = candidates::branches_from(arch, image_base, regions[i], target, call, 0)[j];
            if i == n {
                assert(all[j] == x);
            } else {
                assert(more.contains(x));
                let k = choose|k: int| 0 <= k < more.len() && more[k] == x;
                assert(all[here.len() + k] == x);
            }
        }
        assert forall|x: u64| #[trigger] all.contains(x) implies exists|i: int|
            n <= i < regions.len() && (#[trigger] candidates::branches_from(
                arch,
                image_base,
                regions[i],
                target,
                call,
                0,
            )).contains(x) by {
            let k = choose|k: int| 0 <= k < all.len() && all[k] == x;
            if k < here.len() {
                assert(here[k] == x);
                assert(here.contains(x));
            } else {
                assert(more[k - here.len()] == x);
                assert(more.contains(x));
            }
        }
    }
}

/// The references to a target are those of every code region, and no others.
pub proof fn every_region_is_searched_for_references(
    arch: Arch,
    image_base: int,
    regions: cache::RegionsV,
    target: usize,
    n: int,
)
    requires
        0 <= n,
    ensures
        forall|i: int, j: int|
            n <= i < regions.len() && 0 <= j < candidates::references_from(
                arch,
                image_base,
                regions[i],
                target,
                0,
            ).len() ==> candidates::all_references(
                arch,
                image_base,
                regions,
                target,
                n,
            ).contains(
                #[trigger] candidates::references_from(
                    arch,
                    image_base,
                    regions[i],
                    target,
                        0,
                )[j],
            ),
        forall|x: (u64, bool)| #[trigger]
            candidates::all_references(arch, image_base, regions, target, n).contains(x)
                ==> exists|i: int|
                n <= i < regions.len() && (#[trigger] candidates::references_from(
                    arch,
                    image_base,
                    regions[i],
                    target,
                        0,
                )).contains(x),
    decreases regions.len() - n,
{
    if n < regions.len() {
        every_region_is_searched_for_references(arch, image_base, regions, target, n + 1);
        let here = candidates::references_from(arch, image_base, regions[n], target, 0);
        let more = candidates::all_references(arch, image_base, regions, target, n + 1);
        let all = candidates::all_references(arch, image_base, regions, target, n);
        assert(all == here + more);
        assert forall|i: int, j: int|
            n <= i < regions.len() && 0 <= j < candidates::references_from(
                arch,
                image_base,
                regions[i],
                target,
                0,
            ).len() implies all.contains(
            #[trigger] candidates::references_from(arch, image_base, regions[i], target, 0)[j],
        ) by {
            let x = candidates::references_from(arch, image_base, regions[i], target, 0)[j];
            if i == n {
                assert(all[j] == x);
            } else {
                assert(more.contains(x));
                let k = choose|k: int| 0 <= k < more.len() && more[k] == x;
                assert(all[here.len() + k] == x);
            }
        }
        assert forall|x: (u64, bool)| #[trigger] all.contains(x) implies exists|i: int|
            n <= i < regions.len() && (#[trigger] candidates::references_from(
                arch,
                image_base,
                regions[i],
                target,
                0,
            )).contains(x) by {
            let k = choose|k: int| 0 <= k < all.len() && all[k] == x;
            if k < here.len() {
                assert(here[k] == x);
                assert(here.contains(x));
            } else {
                assert(more[k - here.len()] == x);
                assert(more.contains(x));
            }
        }
    }
}

/// Of the sites of one kind the first two dozen are used, and all of them where there are fewer.
pub proof fn first_sites_are_the_first<T>(all: Seq<T>)
    ensures
        ({
            let some = candidates::first_sites(all);
            &&& some.len() == if all.len() < 24 {
                all.len()
            } else {
                24
            }
            &&& forall|k: int| 0 <= k < some.len() ==> some[k] == all[k]
        }),
{
}

}
