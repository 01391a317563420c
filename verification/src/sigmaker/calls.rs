//! Which functions call which, and when the calls of a function tell it apart.

use crate::ordered;
use crate::pattern::Arch;
use crate::sigmaker::callers;
use crate::sigmaker::callers::{CallerAnchorV, CalleeMatch};
use crate::sigmaker::constants;
use crate::sigmaker::decode;
use crate::sigmaker::identity;
use crate::sigmaker::identity::IdentityV;
use crate::sigmaker::stream::{ends_call, head_at, starts_at, walk, walk_from, width};
use crate::sigmaker::strings;
use crate::sigmaker::types::ImageInput;
use crate::sigmaker::uses::{code_in, four_signed, is_in_code, occurring_stands, owner, stands_at};
use crate::x86;
use crate::x86::Flow;
use vstd::prelude::*;

verus! {

/// Where the bytes are in the code: the region by its number, and the offset in it.
pub open spec fn code_places(img: &ImageInput, needle: Seq<u8>) -> Set<(int, int)> {
    Set::new(|x: (int, int)| is_in_code(img, needle, x.0, x.1))
}

/// Those in the regions before `n`, and in region `n` from offset `from` on.
spec fn places_until(img: &ImageInput, needle: Seq<u8>, n: int, from: int) -> Set<(int, int)> {
    Set::new(
        |x: (int, int)|
            is_in_code(img, needle, x.0, x.1) && (x.0 < n || (x.0 == n && x.1 >= from)),
    )
}

proof fn region_is_counted(img: &ImageInput, needle: Seq<u8>, n: int, from: int)
    requires
        0 <= n < img.code_regions@.len(),
        0 <= from <= code_in(img, n).len(),
        needle.len() > 0,
        places_until(img, needle, n, code_in(img, n).len() as int).finite(),
    ensures
        places_until(img, needle, n, from).finite(),
        places_until(img, needle, n, from).len() == places_until(
            img,
            needle,
            n,
            code_in(img, n).len() as int,
        ).len() + constants::occurrences(code_in(img, n), needle, from),
    decreases code_in(img, n).len() - from,
{
    let b = code_in(img, n);
    if from < b.len() {
        region_is_counted(img, needle, n, from + 1);
        occurring_stands(b, from, needle);
        let later = places_until(img, needle, n, from + 1);
        if stands_at(b, from, needle) {
            assert(is_in_code(img, needle, n, from));
            assert(places_until(img, needle, n, from) =~= later.insert((n, from)));
        } else {
            assert(places_until(img, needle, n, from) =~= later);
        }
    }
}

proof fn regions_are_counted(img: &ImageInput, needle: Seq<u8>, n: int)
    requires
        0 <= n <= img.code_regions@.len(),
        needle.len() > 0,
    ensures
        places_until(img, needle, n - 1, 0).finite(),
        places_until(img, needle, n - 1, 0).len() == constants::code_occurrences(img, needle, n),
    decreases n,
{
    if n == 0 {
        assert(places_until(img, needle, n - 1, 0) =~= Set::<(int, int)>::empty());
    } else {
        regions_are_counted(img, needle, n - 1);
        let m = code_in(img, n - 1).len() as int;
        assert(places_until(img, needle, n - 1, m) =~= places_until(img, needle, n - 2, 0));
        region_is_counted(img, needle, n - 1, 0);
    }
}

/// How rare a value is, is how many places its bytes have in the code.
pub proof fn rarity_counts_places(img: &ImageInput, value: u64)
    ensures
        code_places(img, constants::bytes_of(value)).finite(),
        constants::rarity(img, value) == code_places(img, constants::bytes_of(value)).len(),
{
    let b = constants::bytes_of(value);
    let n = img.code_regions@.len() as int;
    assert(b.len() > 0);
    regions_are_counted(img, b, n);
    assert(code_places(img, b) =~= places_until(img, b, n - 1, 0));
}

/// At offset `k` of code region `i` is the `call` of five bytes to an address.
pub open spec fn calls_from(img: &ImageInput, address: int, i: int, k: int) -> bool {
    let b = code_in(img, i);
    &&& 0 <= i < img.code_regions@.len()
    &&& 0 <= k && k + 5 <= b.len()
    &&& b[k] == 0xE8
    &&& img.code_regions@[i].base + k + 5 + four_signed(b, k + 1) == address
}

/// Function `f` calls the address from one of the first `m` offsets of region `n`, or from a region before.
spec fn calls_before(img: &ImageInput, address: int, n: int, m: int, f: usize) -> bool {
    exists|i: int, k: int|
        (i < n || (i == n && k < m)) && #[trigger] calls_from(img, address, i, k) && f == owner(
            img,
            i,
            k,
        )
}

spec fn rises(s: Seq<usize>) -> bool {
    forall|i: int, j: int| 0 <= i < j < s.len() ==> s[i] < s[j]
}

proof fn callers_in_region(img: &ImageInput, address: int, n: int, m: int)
    requires
        0 <= n < img.code_regions@.len(),
        0 <= m <= code_in(img, n).len(),
        rises(callers::callers_in(img, address, n)),
        forall|f: usize| #[trigger]
            callers::callers_in(img, address, n).contains(f) <==> calls_before(
                img,
                address,
                n,
                0,
                f,
            ),
    ensures
        ({
            let s = callers::callers_before(
                img,
                callers::callers_in(img, address, n),
                code_in(img, n),
                img.code_regions@[n].base as int,
                address,
                m,
            );
            &&& rises(s)
            &&& forall|f: usize| #[trigger] s.contains(f) <==> calls_before(img, address, n, m, f)
        }),
    decreases m,
{
    let b = code_in(img, n);
    let base = img.code_regions@[n].base as int;
    let found = callers::callers_in(img, address, n);
    if m > 0 {
        callers_in_region(img, address, n, m - 1);
        let before = callers::callers_before(img, found, b, base, address, m - 1);
        let s = callers::callers_before(img, found, b, base, address, m);
        ordered::numbers_are_ordered();
        let here = calls_from(img, address, n, m - 1);
        let g = owner(img, n, m - 1);
        assert(here <==> (m + 4 <= b.len() && callers::calls_at(b, base, address, m - 1)));
        if here {
            ordered::ins_keeps_order(before, g, ordered::rising());
            assert(s == ordered::ins(before, g, ordered::rising()));
        }
        assert forall|f: usize| #[trigger] s.contains(f) <==> calls_before(img, address, n, m, f) by {
            assert(before.contains(f) <==> calls_before(img, address, n, m - 1, f));
            if calls_before(img, address, n, m, f) {
                let (i, k) = choose|i: int, k: int|
                    (i < n || (i == n && k < m)) && #[trigger] calls_from(img, address, i, k) && f
                        == owner(img, i, k);
                if i < n || k < m - 1 {
                    assert(calls_before(img, address, n, m - 1, f));
                }
            }
            if calls_before(img, address, n, m - 1, f) {
                let (i, k) = choose|i: int, k: int|
                    (i < n || (i == n && k < m - 1)) && #[trigger] calls_from(img, address, i, k) && f
                        == owner(img, i, k);
                assert(calls_from(img, address, i, k));
            }
            if here && f == g {
                assert(calls_from(img, address, n, m - 1));
            }
        }
    }
}

proof fn callers_in_regions(img: &ImageInput, address: int, n: int)
    requires
        0 <= n <= img.code_regions@.len(),
    ensures
        rises(callers::callers_in(img, address, n)),
        forall|f: usize| #[trigger]
            callers::callers_in(img, address, n).contains(f) <==> calls_before(
                img,
                address,
                n,
                0,
                f,
            ),
    decreases n,
{
    if n > 0 {
        callers_in_regions(img, address, n - 1);
        let m = code_in(img, n - 1).len() as int;
        callers_in_region(img, address, n - 1, m);
        let s = callers::callers_in(img, address, n);
        assert forall|f: usize| #[trigger] s.contains(f) <==> calls_before(img, address, n, 0, f) by {
            assert(s.contains(f) <==> calls_before(img, address, n - 1, m, f));
            if calls_before(img, address, n, 0, f) {
                let (i, k) = choose|i: int, k: int|
                    (i < n || (i == n && k < 0)) && #[trigger] calls_from(img, address, i, k) && f
                        == owner(img, i, k);
                assert(i < n - 1 || (i == n - 1 && k < m));
            }
            if calls_before(img, address, n - 1, m, f) {
                let (i, k) = choose|i: int, k: int|
                    (i < n - 1 || (i == n - 1 && k < m)) && #[trigger] calls_from(
                        img,
                        address,
                        i,
                        k,
                    ) && f == owner(img, i, k);
                assert(calls_from(img, address, i, k));
            }
        }
    }
}

/// The callers of a function are exactly the functions around a `call` of it, each once and in order.
pub proof fn callers_are_all_there(img: &ImageInput, rva: int)
    ensures
        ({
            let s = callers::callers_to(img, rva);
            &&& forall|i: int, j: int| 0 <= i < j < s.len() ==> s[i] < s[j]
            &&& forall|f: usize| #[trigger]
                s.contains(f) <==> exists|i: int, k: int| #[trigger]
                    calls_from(img, img.base + rva, i, k) && f == owner(img, i, k)
        }),
{
    let n = img.code_regions@.len() as int;
    callers_in_regions(img, img.base + rva, n);
    let s = callers::callers_to(img, rva);
    assert forall|f: usize| #[trigger] s.contains(f) <==> exists|i: int, k: int| #[trigger]
        calls_from(img, img.base + rva, i, k) && f == owner(img, i, k) by {
        assert(s.contains(f) <==> calls_before(img, img.base + rva, n, 0, f));
        if exists|i: int, k: int| #[trigger]
            calls_from(img, img.base + rva, i, k) && f == owner(img, i, k) {
            let (i, k) = choose|i: int, k: int| #[trigger]
                calls_from(img, img.base + rva, i, k) && f == owner(img, i, k);
            assert(i < n);
        }
    }
}

/// The instruction at `pos` of code at `ip` is a call of five bytes into the code of the build.
pub open spec fn calls_code(img: &ImageInput, b: Seq<u8>, ip: int, pos: int) -> bool {
    let h = head_at(img.arch, b, ip, pos);
    let flow = x86::flow_of(width(img.arch), b.skip(pos), (ip + pos) as u64);
    h.len == 5 && flow == Flow::Call && exists|i: int|
        0 <= i < img.code_regions@.len() && (#[trigger] img.code_regions@[i]).base <= (h.target as usize)
            && (h.target as usize) - img.code_regions@[i].base < img.code_regions@[i].size
}

/// What a call at `pos` calls.
pub open spec fn called(img: &ImageInput, b: Seq<u8>, ip: int, pos: int) -> usize {
    ((head_at(img.arch, b, ip, pos).target as usize) - img.base) as usize
}

/// `idx` lists, in order, the calls of a walk into the code.
spec fn listed_calls(
    img: &ImageInput,
    b: Seq<u8>,
    ip: int,
    at: Seq<int>,
    idx: Seq<int>,
    out: Seq<usize>,
) -> bool {
    &&& idx.len() == out.len()
    &&& forall|j: int|
        0 <= j < idx.len() ==> 0 <= #[trigger] idx[j] < at.len() - 1 && calls_code(
            img,
            b,
            ip,
            at[idx[j]],
        ) && out[j] == called(img, b, ip, at[idx[j]])
    &&& forall|i: int, j: int| 0 <= i < j < idx.len() ==> #[trigger] idx[i] < #[trigger] idx[j]
    &&& forall|i: int|
        0 <= i < at.len() - 1 && #[trigger] calls_code(img, b, ip, at[i]) ==> idx.contains(i)
}

proof fn callees_walk(img: &ImageInput, b: Seq<u8>, ip: int, pos: int, left: nat) -> (r: (
    Seq<int>,
    Seq<int>,
))
    requires
        0 <= pos <= b.len(),
    ensures
        walk_from(img.arch, b, ip, pos, r.0),
        r.0.len() <= left + 1,
        forall|i: int|
            0 <= i < r.0.len() - 2 ==> !#[trigger] ends_call(img.arch, b, ip, r.0[i]),
        r.0.len() == left + 1 || !starts_at(img.arch, b, ip, r.0.last()) || (r.0.len() > 1
            && ends_call(img.arch, b, ip, r.0[r.0.len() - 2])),
        listed_calls(
            img,
            b,
            ip,
            r.0,
            r.1,
            callers::callees_from(img, b, ip, pos, left),
        ),
    decreases left,
{
    if left == 0 || !(0 <= pos < b.len()) {
        (seq![pos], Seq::empty())
    } else {
        let h = head_at(img.arch, b, ip, pos);
        if !decode::decodable(h, b.skip(pos)) {
            (seq![pos], Seq::empty())
        } else {
            let out = callers::callees_from(img, b, ip, pos, left);
            let here: Seq<int> = if calls_code(img, b, ip, pos) {
                seq![0int]
            } else {
                Seq::empty()
            };
            assert(img.in_code(h.target as usize as int) <==> exists|i: int|
                0 <= i < img.code_regions@.len() && (#[trigger] img.code_regions@[i]).base <= (
                h.target as usize) && (h.target as usize) - img.code_regions@[i].base
                    < img.code_regions@[i].size);
            if ends_call(img.arch, b, ip, pos) {
                let at = seq![pos, pos + h.len];
                if calls_code(img, b, ip, pos) {
                    assert(here[0] == 0);
                    assert(here.contains(0));
                }
                (at, here)
            } else {
                let (rest, more) = callees_walk(img, b, ip, pos + h.len, (left - 1) as nat);
                let tail = callers::callees_from(img, b, ip, pos + h.len, (left - 1) as nat);
                let at = seq![pos] + rest;
                let idx = here + Seq::new(more.len(), |j: int| more[j] + 1);
                assert forall|i: int| 0 <= i < at.len() - 1 implies #[trigger] starts_at(
                    img.arch,
                    b,
                    ip,
                    at[i],
                ) && at[i + 1] == at[i] + head_at(img.arch, b, ip, at[i]).len by {
                    if i > 0 {
                        assert(at[i] == rest[i - 1]);
                        assert(at[i + 1] == rest[i]);
                        assert(starts_at(img.arch, b, ip, rest[i - 1]));
                    } else {
                        assert(at[1] == rest[0]);
                    }
                }
                assert forall|i: int| 0 <= i < at.len() - 2 implies !#[trigger] ends_call(
                    img.arch,
                    b,
                    ip,
                    at[i],
                ) by {
                    if i > 0 {
                        assert(at[i] == rest[i - 1]);
                        assert(!ends_call(img.arch, b, ip, rest[i - 1]));
                    }
                }
                assert(at.last() == rest.last());
                if rest.len() > 1 {
                    assert(at[at.len() - 2] == rest[rest.len() - 2]);
                }
                let n: int = here.len() as int;
                assert(out.len() == n + tail.len());
                assert forall|j: int| 0 <= j < idx.len() implies 0 <= #[trigger] idx[j] < at.len() - 1
                    && calls_code(img, b, ip, at[idx[j]]) && out[j] == called(
                    img,
                    b,
                    ip,
                    at[idx[j]],
                ) by {
                    if j >= n {
                        assert(idx[j] == more[j - n] + 1);
                        assert(at[idx[j]] == rest[more[j - n]]);
                        assert(out[j] == tail[j - n]);
                    }
                }
                assert forall|i: int, j: int| 0 <= i < j < idx.len() implies #[trigger] idx[i]
                    < #[trigger] idx[j] by {
                    assert(idx[j] == more[j - n] + 1);
                    assert(more[j - n] >= 0);
                    if i >= n {
                        assert(idx[i] == more[i - n] + 1);
                        assert(more[i - n] < more[j - n]);
                    }
                }
                assert forall|i: int|
                    0 <= i < at.len() - 1 && #[trigger] calls_code(img, b, ip, at[i]) implies idx.contains(
                    i,
                ) by {
                    if i > 0 {
                        assert(at[i] == rest[i - 1]);
                        assert(calls_code(img, b, ip, rest[i - 1]));
                        assert(more.contains(i - 1));
                        let j = choose|j: int| 0 <= j < more.len() && more[j] == i - 1;
                        assert(idx[j + n] == i);
                    } else {
                        assert(idx[0] == 0);
                    }
                }
                (at, idx)
            }
        }
    }
}

/// The callees of a function are exactly what its instructions call in the code, in order, up to the first
/// return and for four hundred instructions at most.
pub proof fn callees_are_all_there(img: &ImageInput, rva: int) -> (r: (Seq<int>, Seq<int>))
    ensures
        ({
            let (at, idx) = r;
            let b = img.bytes(img.base + rva, 3200);
            let ip = img.base + rva;
            let out = callers::callees_of(img, rva);
            &&& walk(img.arch, b, ip, at)
            &&& at.len() <= 401
            &&& forall|i: int|
                0 <= i < at.len() - 2 ==> !#[trigger] ends_call(img.arch, b, ip, at[i])
            &&& at.len() == 401 || !starts_at(img.arch, b, ip, at.last()) || (at.len() > 1
                && ends_call(img.arch, b, ip, at[at.len() - 2]))
            &&& idx.len() == out.len()
            &&& forall|j: int|
                0 <= j < idx.len() ==> 0 <= #[trigger] idx[j] < at.len() - 1 && calls_code(
                    img,
                    b,
                    ip,
                    at[idx[j]],
                ) && out[j] == called(img, b, ip, at[idx[j]])
            &&& forall|i: int, j: int| 0 <= i < j < idx.len() ==> #[trigger] idx[i] < #[trigger] idx[j]
            &&& forall|i: int|
                0 <= i < at.len() - 1 && #[trigger] calls_code(img, b, ip, at[i]) ==> idx.contains(i)
        }),
{
    callees_walk(
        img,
        img.bytes(img.base + rva, callers::SCAN_BYTES as nat),
        img.base + rva,
        0,
        callers::SCAN_INSTRS as nat,
    )
}

/// How alike callee number `q` is to the function that is looked for.
#[verifier::opaque]
pub open spec fn alike(img: &ImageInput, cs: Seq<usize>, target: IdentityV, q: int) -> int {
    identity::likeness(target, identity::identity_at(img, cs[q] as int)) as int
}

/// Callee number `p` is the best one, and `second` is how alike the best of the others is.
pub open spec fn best_at(
    img: &ImageInput,
    cs: Seq<usize>,
    target: IdentityV,
    m: CalleeMatch,
    p: int,
) -> bool {
    &&& 0 <= p < cs.len()
    &&& m.rva == cs[p]
    &&& m.sim == alike(img, cs, target, p)
    &&& m.second <= m.sim
    &&& forall|q: int| 0 <= q < cs.len() && q != p ==> #[trigger] alike(img, cs, target, q) <= m.second
    &&& m.second > 0 ==> exists|q: int|
        0 <= q < cs.len() && q != p && #[trigger] alike(img, cs, target, q) == m.second
}

proof fn alike_is_kept(img: &ImageInput, cs: Seq<usize>, target: IdentityV)
    requires
        cs.len() > 0,
    ensures
        forall|q: int|
            0 <= q < cs.len() - 1 ==> #[trigger] alike(img, cs, target, q) == alike(
                img,
                cs.drop_last(),
                target,
                q,
            ),
        forall|q: int|
            0 <= q < cs.len() - 1 ==> #[trigger] alike(img, cs.drop_last(), target, q) == alike(
                img,
                cs,
                target,
                q,
            ),
{
    reveal(alike);
}

/// What the last callee makes of the best one so far.
#[verifier::opaque]
spec fn best_of(img: &ImageInput, cs: Seq<usize>, target: IdentityV) -> CalleeMatch {
    callers::best_among(img, cs, target)
}

proof fn best_goes_on(img: &ImageInput, cs: Seq<usize>, target: IdentityV)
    ensures
        cs.len() == 0 ==> best_of(img, cs, target) == (CalleeMatch {
            rva: 0,
            sim: 0,
            second: 0,
            found: false,
        }),
        cs.len() > 0 ==> ({
            let m = best_of(img, cs.drop_last(), target);
            let s = alike(img, cs, target, cs.len() - 1);
            &&& 0 <= s <= u64::MAX
            &&& best_of(img, cs, target) == if s > m.sim {
                CalleeMatch { rva: cs.last(), sim: s as u64, second: m.sim, found: true }
            } else if s > m.second {
                CalleeMatch { second: s as u64, ..m }
            } else {
                m
            }
        }),
{
    reveal(alike);
    reveal(best_of);
    if cs.len() > 0 {
        identity::likeness_is_a_share(
            target,
            identity::identity_at(img, cs[cs.len() - 1] as int),
        );
    }
}

proof fn best_is_most_alike(img: &ImageInput, cs: Seq<usize>, target: IdentityV)
    ensures
        ({
            let m = best_of(img, cs, target);
            &&& m.found ==> m.sim > 0 && exists|p: int| #[trigger] best_at(img, cs, target, m, p)
            &&& !m.found ==> m.sim == 0 && m.second == 0 && forall|q: int|
                0 <= q < cs.len() ==> #[trigger] alike(img, cs, target, q) == 0
        }),
    decreases cs.len(),
{
    if cs.len() > 0 {
        let d = cs.drop_last();
        best_is_most_alike(img, d, target);
        let before = best_of(img, d, target);
        let m = best_of(img, cs, target);
        let n = cs.len() - 1;
        best_goes_on(img, cs, target);
        alike_is_kept(img, cs, target);
        let s = alike(img, cs, target, n);
        if s > before.sim {
            assert forall|q: int| 0 <= q < cs.len() && q != n implies #[trigger] alike(
                img,
                cs,
                target,
                q,
            ) <= m.second by {
                assert(alike(img, cs, target, q) == alike(img, d, target, q));
                if before.found {
                    let p = choose|p: int| #[trigger] best_at(img, d, target, before, p);
                    if q == p {
                        assert(alike(img, d, target, p) == before.sim);
                    }
                }
            }
            if before.found {
                let p = choose|p: int| #[trigger] best_at(img, d, target, before, p);
                assert(alike(img, cs, target, p) == m.second);
            }
            assert(best_at(img, cs, target, m, n));
        } else if before.found {
            let p = choose|p: int| #[trigger] best_at(img, d, target, before, p);
            assert forall|q: int| 0 <= q < cs.len() && q != p implies #[trigger] alike(
                img,
                cs,
                target,
                q,
            ) <= m.second by {
                if q < n {
                    assert(alike(img, cs, target, q) == alike(img, d, target, q));
                }
            }
            if m.second > 0 {
                if s > before.second {
                    assert(alike(img, cs, target, n) == m.second);
                } else {
                    let q = choose|q: int|
                        0 <= q < d.len() && q != p && #[trigger] alike(img, d, target, q)
                            == before.second;
                    assert(alike(img, cs, target, q) == m.second);
                }
            }
            assert(alike(img, cs, target, p) == alike(img, d, target, p));
            assert(best_at(img, cs, target, m, p));
        } else {
            assert forall|q: int| 0 <= q < cs.len() implies #[trigger] alike(img, cs, target, q) == 0 by {
                if q < n {
                    assert(alike(img, cs, target, q) == alike(img, d, target, q));
                }
            }
        }
    } else {
        best_goes_on(img, cs, target);
    }
}

/// The best callee is the one that is most alike, with the next one beside it; there is none only where
/// none is alike at all.
pub proof fn best_callee_is_most_alike(img: &ImageInput, cs: Seq<usize>, target: IdentityV)
    ensures
        ({
            let m = callers::best_among(img, cs, target);
            &&& m.found ==> m.sim > 0 && exists|p: int| #[trigger] best_at(img, cs, target, m, p)
            &&& !m.found ==> m.sim == 0 && m.second == 0 && forall|q: int|
                0 <= q < cs.len() ==> #[trigger] alike(img, cs, target, q) == 0
        }),
{
    best_is_most_alike(img, cs, target);
    reveal(best_of);
}

/// A callee stands out: it is half alike or more, and every other call of the function is to something at
/// least twelve points less alike.
pub open spec fn stands_out(
    img: &ImageInput,
    cs: Seq<usize>,
    target: IdentityV,
    p: int,
    least: int,
) -> bool {
    &&& 0 <= p < cs.len()
    &&& alike(img, cs, target, p) > 0
    &&& 100 * alike(img, cs, target, p) >= least * 1_000_000_000_000
    &&& 100 * alike(img, cs, target, p) >= 12 * 1_000_000_000_000
    &&& forall|q: int|
        0 <= q < cs.len() && q != p ==> 100 * alike(img, cs, target, p) >= 100 * #[trigger] alike(
            img,
            cs,
            target,
            q,
        ) + 12 * 1_000_000_000_000
}

pub(crate) proof fn standing_out_is_best(img: &ImageInput, cs: Seq<usize>, target: IdentityV)
    ensures
        ({
            let m = callers::best_among(img, cs, target);
            forall|p: int, least: int|
                #![trigger stands_out(img, cs, target, p, least)]
                0 <= p < cs.len() && least >= 0 ==> (stands_out(img, cs, target, p, least) <==> (m.found
                    && best_at(img, cs, target, m, p) && 100 * m.sim >= least * 1_000_000_000_000 && 100
                    * m.sim >= 100 * m.second + 12 * 1_000_000_000_000))
        }),
{
    best_callee_is_most_alike(img, cs, target);
    let m = callers::best_among(img, cs, target);
    assert forall|p: int, least: int|
        #![trigger stands_out(img, cs, target, p, least)]
        0 <= p < cs.len() && least >= 0 implies (stands_out(img, cs, target, p, least) <==> (m.found
        && best_at(img, cs, target, m, p) && 100 * m.sim >= least * 1_000_000_000_000 && 100 * m.sim
        >= 100 * m.second + 12 * 1_000_000_000_000)) by {
        if stands_out(img, cs, target, p, least) {
            if !m.found {
                assert(alike(img, cs, target, p) == 0);
            } else {
                let b = choose|b: int| #[trigger] best_at(img, cs, target, m, b);
                if b != p {
                    assert(alike(img, cs, target, p) <= m.second);
                    assert(100 * alike(img, cs, target, p) >= 100 * alike(img, cs, target, b) + 12
                        * 1_000_000_000_000);
                }
                if m.second > 0 {
                    let q = choose|q: int|
                        0 <= q < cs.len() && q != b && #[trigger] alike(img, cs, target, q) == m.second;
                }
            }
        }
    }
}

/// A caller anchor leads to a function exactly where, in x86 code, its string leads to a caller and that
/// function stands out among what the caller calls.
pub proof fn caller_anchors_lead_to_what_stands_out(img: &ImageInput, a: CallerAnchorV)
    ensures
        img.arch == Arch::X64 ==> callers::caller_anchored(img, a) is None,
        img.arch == Arch::X86 ==> match strings::anchored(img, a.caller) {
            Some(caller) => match callers::caller_anchored(img, a) {
                Some(f) => exists|p: int|
                    callers::callees_of(img, caller as int)[p] == f && #[trigger] stands_out(
                        img,
                        callers::callees_of(img, caller as int),
                        a.target,
                        p,
                        50,
                    ),
                None => forall|p: int|
                    !#[trigger] stands_out(
                        img,
                        callers::callees_of(img, caller as int),
                        a.target,
                        p,
                        50,
                    ),
            },
            None => callers::caller_anchored(img, a) is None,
        },
{
    if let Some(caller) = strings::anchored(img, a.caller) {
        let cs = callers::callees_of(img, caller as int);
        best_callee_is_most_alike(img, cs, a.target);
        standing_out_is_best(img, cs, a.target);
        let m = callers::best_among(img, cs, a.target);
        if let Some(f) = callers::caller_anchored(img, a) {
            let p = choose|p: int| #[trigger] best_at(img, cs, a.target, m, p);
            assert(stands_out(img, cs, a.target, p, 50));
        }
    }
}

}
