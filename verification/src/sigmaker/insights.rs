//! What is told of a function to those who look at it: its texts, who refers to it, what it calls, and its
//! listing.

use crate::ordered;
use crate::pattern::Arch;
use crate::sigmaker::decode;
use crate::sigmaker::graph;
use crate::sigmaker::identity;
use crate::sigmaker::inspect;
use crate::sigmaker::inspect::DisasmLineV;
use crate::sigmaker::model;
use crate::sigmaker::model::CallEdge;
use crate::sigmaker::stream::{ends_call, head_at, starts_at, width};
use crate::sigmaker::strings;
use crate::sigmaker::types::ImageInput;
use crate::sigmaker::uses::{code_in, four_signed};
use crate::text;
use crate::x86;
use vstd::prelude::*;

verus! {

/// A byte that is shown as it is: from the blank to the tilde.
pub open spec fn shown(b: u8) -> bool {
    b >= 32 && b <= 126
}

/// The byte at `k` is shown, as this character.
pub open spec fn glyph(b: Seq<u8>, k: int, c: char) -> bool {
    shown(b[k]) && c == b[k] as char
}

/// `s` is the run of shown bytes at the front, 48 of them at most, one byte each.
pub open spec fn narrow(b: Seq<u8>, s: Seq<char>) -> bool {
    &&& s.len() <= 48
    &&& s.len() <= b.len()
    &&& forall|k: int| 0 <= k < s.len() ==> glyph(b, k, #[trigger] s[k])
    &&& s.len() == 48 || s.len() == b.len() || !shown(b[s.len() as int])
}

/// `s` is the run of shown bytes at the front, 48 of them at most, each followed by a zero.
pub open spec fn wide(b: Seq<u8>, s: Seq<char>) -> bool {
    &&& s.len() <= 48
    &&& 2 * s.len() <= b.len()
    &&& forall|k: int|
        0 <= k < s.len() ==> glyph(b, 2 * k, #[trigger] s[k]) && b[2 * k + 1] == 0
    &&& s.len() == 48 || 2 * s.len() + 1 >= b.len() || !shown(b[2 * s.len() as int]) || b[2
        * s.len() as int + 1] != 0
}

proof fn narrow_run_is(b: Seq<u8>, i: int, left: nat)
    requires
        0 <= i <= b.len(),
    ensures
        ({
            let s = identity::ascii_run(b, i, left);
            &&& s.len() <= left
            &&& i + s.len() <= b.len()
            &&& forall|k: int|
                0 <= k < s.len() ==> glyph(b, i + k, #[trigger] s[k])
            &&& s.len() == left || i + s.len() == b.len() || !shown(b[i + s.len()])
        }),
    decreases left,
{
    if !(left == 0 || i >= b.len() || !shown(b[i])) {
        narrow_run_is(b, i + 1, (left - 1) as nat);
        let rest = identity::ascii_run(b, i + 1, (left - 1) as nat);
        let s = identity::ascii_run(b, i, left);
        assert forall|k: int| 0 <= k < s.len() implies glyph(b, i + k, #[trigger] s[k]) by {
            if k > 0 {
                assert(s[k] == rest[k - 1]);
                assert(glyph(b, i + 1 + (k - 1), rest[k - 1]));
            }
        }
        assert(s.len() == rest.len() + 1);
        assert(i + 1 + rest.len() == i + s.len());
    } else {
        assert(identity::ascii_run(b, i, left) =~= Seq::<char>::empty());
    }
}

proof fn wide_run_is(b: Seq<u8>, i: int, left: nat)
    requires
        0 <= i <= b.len(),
    ensures
        ({
            let s = identity::wide_run(b, i, left);
            &&& s.len() <= left
            &&& i + 2 * s.len() <= b.len()
            &&& forall|k: int|
                0 <= k < s.len() ==> glyph(b, i + 2 * k, #[trigger] s[k]) && b[i + 2 * k + 1] == 0
            &&& s.len() == left || i + 2 * s.len() + 1 >= b.len() || !shown(b[i + 2 * s.len()]) || b[i
                + 2 * s.len() + 1] != 0
        }),
    decreases left,
{
    if !(left == 0 || i + 1 >= b.len() || b[i + 1] != 0 || !shown(b[i])) {
        wide_run_is(b, i + 2, (left - 1) as nat);
        let rest = identity::wide_run(b, i + 2, (left - 1) as nat);
        let s = identity::wide_run(b, i, left);
        assert forall|k: int| 0 <= k < s.len() implies glyph(b, i + 2 * k, #[trigger] s[k]) && b[i + 2 * k
            + 1] == 0 by {
            if k > 0 {
                assert(s[k] == rest[k - 1]);
                assert(glyph(b, i + 2 + 2 * (k - 1), rest[k - 1]));
                assert(i + 2 + 2 * (k - 1) == i + 2 * k);
            }
        }
        assert(s.len() == rest.len() + 1);
        assert(i + 2 + 2 * rest.len() == i + 2 * s.len());
    } else {
        assert(identity::wide_run(b, i, left) =~= Seq::<char>::empty());
    }
}

/// A text is the longest run of shown characters at the front, four at least and 48 at most: of one byte
/// each, or where that is too short of two.
pub proof fn texts_are_runs(b: Seq<u8>)
    ensures
        ({
            let four_narrow = b.len() >= 4 && forall|k: int| 0 <= k < 4 ==> shown(#[trigger] b[k]);
            let four_wide = b.len() >= 8 && forall|k: int|
                0 <= k < 4 ==> #[trigger] shown(b[2 * k]) && b[2 * k + 1] == 0;
            match identity::string_in(b) {
                Some(s) => s.len() >= 4 && (narrow(b, s) || (!four_narrow && wide(b, s))),
                None => !four_narrow && !four_wide,
            }
        }),
{
    narrow_run_is(b, 0, 48);
    wide_run_is(b, 0, 48);
    let n = identity::ascii_run(b, 0, 48);
    let w = identity::wide_run(b, 0, 48);
    assert(narrow(b, n)) by {
        assert(0 + n.len() == n.len());
        assert forall|k: int| 0 <= k < n.len() implies glyph(b, k, #[trigger] n[k]) by {
            assert(glyph(b, 0 + k, n[k]));
        }
    }
    assert(wide(b, w)) by {
        assert(0 + 2 * w.len() == 2 * w.len());
        assert forall|k: int| 0 <= k < w.len() implies glyph(b, 2 * k, #[trigger] w[k]) && b[2 * k + 1]
            == 0 by {
            assert(glyph(b, 0 + 2 * k, w[k]));
        }
    }
    if n.len() < 4 {
        if b.len() >= 4 && forall|k: int| 0 <= k < 4 ==> shown(#[trigger] b[k]) {
            assert(shown(b[n.len() as int]));
        }
        if w.len() < 4 && b.len() >= 8 && forall|k: int|
            0 <= k < 4 ==> #[trigger] shown(b[2 * k]) && b[2 * k + 1] == 0 {
            assert(shown(b[2 * (w.len() as int)]));
        }
    }
}

/// At offset `k` of code region `i` a call or a jump of five bytes goes to the address.
pub open spec fn branches_there(img: &ImageInput, target: int, i: int, k: int) -> bool {
    let b = code_in(img, i);
    &&& 0 <= i < img.code_regions@.len()
    &&& 0 <= k && k + 5 <= b.len()
    &&& b[k] == 0xE8 || b[k] == 0xE9
    &&& img.code_regions@[i].base + k + 5 + four_signed(b, k + 1) == target
}

/// At offset `k` of code region `i` a `lea` of seven bytes loads the address, relative to what follows.
pub open spec fn loads_there(img: &ImageInput, target: int, i: int, k: int) -> bool {
    let b = code_in(img, i);
    &&& 0 <= i < img.code_regions@.len()
    &&& 0 <= k && k + 7 <= b.len()
    &&& b[k] == 0x48 && b[k + 1] == 0x8D && b[k + 2] & 0xC7 == 0x05
    &&& img.code_regions@[i].base + k + 7 + four_signed(b, k + 3) == target
}

/// The calls and jumps to the address in the regions before `n`, and in region `n` from `from` on.
spec fn branches_until(img: &ImageInput, target: int, n: int, from: int) -> Set<(int, int)> {
    Set::new(
        |x: (int, int)|
            branches_there(img, target, x.0, x.1) && (x.0 < n || (x.0 == n && x.1 >= from)),
    )
}

spec fn loads_until(img: &ImageInput, target: int, n: int, from: int) -> Set<(int, int)> {
    Set::new(
        |x: (int, int)|
            loads_there(img, target, x.0, x.1) && (x.0 < n || (x.0 == n && x.1 >= from)),
    )
}

proof fn branches_in_region(img: &ImageInput, target: int, n: int, from: int)
    requires
        0 <= n < img.code_regions@.len(),
        0 <= from,
        branches_until(img, target, n - 1, 0).finite(),
    ensures
        branches_until(img, target, n, from).finite(),
        branches_until(img, target, n, from).len() == branches_until(img, target, n - 1, 0).len()
            + strings::branch_count(
            code_in(img, n),
            img.code_regions@[n].base as int,
            target,
            from,
        ),
    decreases code_in(img, n).len() - from,
{
    let b = code_in(img, n);
    if from + 5 <= b.len() {
        branches_in_region(img, target, n, from + 1);
        let later = branches_until(img, target, n, from + 1);
        if branches_there(img, target, n, from) {
            assert(branches_until(img, target, n, from) =~= later.insert((n, from)));
        } else {
            assert(branches_until(img, target, n, from) =~= later);
        }
    } else {
        assert(branches_until(img, target, n, from) =~= branches_until(img, target, n - 1, 0));
    }
}

proof fn loads_in_region(img: &ImageInput, target: int, n: int, from: int)
    requires
        0 <= n < img.code_regions@.len(),
        0 <= from,
        loads_until(img, target, n - 1, 0).finite(),
    ensures
        loads_until(img, target, n, from).finite(),
        loads_until(img, target, n, from).len() == loads_until(img, target, n - 1, 0).len()
            + strings::lea_count(
            code_in(img, n),
            img.code_regions@[n].base as int,
            target,
            from,
        ),
    decreases code_in(img, n).len() - from,
{
    let b = code_in(img, n);
    if from + 7 <= b.len() {
        loads_in_region(img, target, n, from + 1);
        let later = loads_until(img, target, n, from + 1);
        if loads_there(img, target, n, from) {
            assert(loads_until(img, target, n, from) =~= later.insert((n, from)));
        } else {
            assert(loads_until(img, target, n, from) =~= later);
        }
    } else {
        assert(loads_until(img, target, n, from) =~= loads_until(img, target, n - 1, 0));
    }
}

proof fn references_are_counted(img: &ImageInput, target: int, n: int)
    requires
        0 <= n <= img.code_regions@.len(),
    ensures
        branches_until(img, target, n - 1, 0).finite(),
        loads_until(img, target, n - 1, 0).finite(),
        strings::references_to(img, target, n) == branches_until(img, target, n - 1, 0).len() + if img.arch
            == Arch::X64 {
            loads_until(img, target, n - 1, 0).len()
        } else {
            0
        },
    decreases n,
{
    if n == 0 {
        assert(branches_until(img, target, n - 1, 0) =~= Set::<(int, int)>::empty());
        assert(loads_until(img, target, n - 1, 0) =~= Set::<(int, int)>::empty());
    } else {
        references_are_counted(img, target, n - 1);
        branches_in_region(img, target, n - 1, 0);
        loads_in_region(img, target, n - 1, 0);
    }
}

/// Where an address is called or jumped to.
pub open spec fn all_branches_there(img: &ImageInput, target: int) -> Set<(int, int)> {
    Set::new(|x: (int, int)| branches_there(img, target, x.0, x.1))
}

/// Where an address is loaded.
pub open spec fn all_loads_there(img: &ImageInput, target: int) -> Set<(int, int)> {
    Set::new(|x: (int, int)| loads_there(img, target, x.0, x.1))
}

/// How often an address is referred to counts the places of a call or jump to it, and in x64 code those of
/// a `lea` of it.
pub proof fn references_count_places(img: &ImageInput, target: int)
    ensures
        strings::references_to(img, target, img.code_regions@.len() as int) == all_branches_there(
            img,
            target,
        ).len() + if img.arch == Arch::X64 {
            all_loads_there(img, target).len()
        } else {
            0
        },
{
    let n = img.code_regions@.len() as int;
    references_are_counted(img, target, n);
    assert(all_branches_there(img, target) =~= branches_until(img, target, n - 1, 0));
    assert(all_loads_there(img, target) =~= loads_until(img, target, n - 1, 0));
}

/// Function `f` is around a call of the target.
pub open spec fn calls_target(
    img: &ImageInput,
    edges: Seq<CallEdge>,
    target: usize,
    f: usize,
) -> bool {
    exists|k: int|
        0 <= k < edges.len() && (#[trigger] edges[k]).target == target && f == strings::enclosing(
            img,
            edges[k].site as int,
        ) as usize
}

proof fn callers_are_around(img: &ImageInput, edges: Seq<CallEdge>, target: usize)
    ensures
        forall|i: int, j: int|
            0 <= i < j < model::callers_among(img, edges, target).len() ==> (
            #[trigger] model::callers_among(img, edges, target)[i]) < (
            #[trigger] model::callers_among(img, edges, target)[j]),
        forall|f: usize| #[trigger]
            model::callers_among(img, edges, target).contains(f) <==> calls_target(
                img,
                edges,
                target,
                f,
            ),
    decreases edges.len(),
{
    if edges.len() > 0 {
        let d = edges.drop_last();
        callers_are_around(img, d, target);
        let before = model::callers_among(img, d, target);
        let all = model::callers_among(img, edges, target);
        let e = edges.last();
        let x = strings::enclosing(img, e.site as int) as usize;
        ordered::numbers_are_ordered();
        if e.target == target {
            ordered::ins_keeps_order(before, x, ordered::rising());
            let rising = ordered::rising();
            assert forall|i: int, j: int| 0 <= i < j < all.len() implies (#[trigger] all[i]) < (
            #[trigger] all[j]) by {
                assert(rising(all[i], all[j]));
            }
        }
        assert forall|f: usize| #[trigger] all.contains(f) <==> calls_target(img, edges, target, f) by {
            assert(before.contains(f) <==> calls_target(img, d, target, f));
            if calls_target(img, d, target, f) {
                let k = choose|k: int|
                    0 <= k < d.len() && (#[trigger] d[k]).target == target && f == strings::enclosing(
                        img,
                        d[k].site as int,
                    ) as usize;
                assert(edges[k] == d[k]);
            }
            if e.target == target && f == x {
                assert(edges[edges.len() - 1] == e);
            }
            if calls_target(img, edges, target, f) {
                let k = choose|k: int|
                    0 <= k < edges.len() && (#[trigger] edges[k]).target == target && f
                        == strings::enclosing(img, edges[k].site as int) as usize;
                if k < d.len() {
                    assert(d[k] == edges[k]);
                }
            }
        }
    }
}

proof fn callees_are_within(img: &ImageInput, edges: Seq<CallEdge>, entry: int)
    ensures
        forall|t: usize| #[trigger]
            inspect::calls_of(img, edges, entry).contains(t) <==> exists|k: int|
                0 <= k < edges.len() && (#[trigger] edges[k]).target == t && strings::enclosing(
                    img,
                    edges[k].site as int,
                ) == entry,
    decreases edges.len(),
{
    if edges.len() > 0 {
        let d = edges.drop_last();
        callees_are_within(img, d, entry);
        let before = inspect::calls_of(img, d, entry);
        let all = inspect::calls_of(img, edges, entry);
        let e = edges.last();
        assert forall|t: usize| #[trigger] all.contains(t) <==> exists|k: int|
            0 <= k < edges.len() && (#[trigger] edges[k]).target == t && strings::enclosing(
                img,
                edges[k].site as int,
            ) == entry by {
            assert(before.contains(t) <==> exists|k: int|
                0 <= k < d.len() && (#[trigger] d[k]).target == t && strings::enclosing(
                    img,
                    d[k].site as int,
                ) == entry);
            if before.contains(t) {
                let k = choose|k: int|
                    0 <= k < d.len() && (#[trigger] d[k]).target == t && strings::enclosing(
                        img,
                        d[k].site as int,
                    ) == entry;
                assert(edges[k] == d[k]);
                let j = choose|j: int| 0 <= j < before.len() && before[j] == t;
                assert(all[j] == t);
            }
            if strings::enclosing(img, e.site as int) == entry {
                assert(all[before.len() as int] == e.target);
                assert(edges[edges.len() - 1] == e);
            }
            if all.contains(t) {
                let j = choose|j: int| 0 <= j < all.len() && all[j] == t;
                if j < before.len() {
                    assert(before[j] == t);
                }
            }
            if exists|k: int|
                0 <= k < edges.len() && (#[trigger] edges[k]).target == t && strings::enclosing(
                    img,
                    edges[k].site as int,
                ) == entry {
                let k = choose|k: int|
                    0 <= k < edges.len() && (#[trigger] edges[k]).target == t && strings::enclosing(
                        img,
                        edges[k].site as int,
                    ) == entry;
                if k < d.len() {
                    assert(d[k] == edges[k]);
                }
            }
        }
    }
}

/// What is told of a function in x86 code: its callers are the functions around the calls of it, and its
/// callees what the calls in it go to, each once and in order. In x64 code neither is told, nor imports,
/// nor tables.
pub proof fn insights_tell_of_the_calls(img: &ImageInput, rva: int)
    ensures
        ({
            let r = inspect::insight_of(img, rva);
            let entry = strings::enclosing(img, rva);
            let edges = model::all_calls(img);
            &&& r.query_rva == rva as u64
            &&& r.entry_rva == entry as u64
            &&& img.arch == Arch::X64 ==> r.callers.len() == 0 && r.callees.len() == 0
                && r.imports.len() == 0 && r.vtable is None
            &&& img.arch == Arch::X86 ==> {
                &&& forall|i: int, j: int| 0 <= i < j < r.callers.len() ==> r.callers[i] < r.callers[j]
                &&& forall|f: usize| #[trigger]
                    r.callers.contains(f as u64) <==> calls_target(img, edges, entry as usize, f)
                &&& forall|i: int, j: int| 0 <= i < j < r.callees.len() ==> r.callees[i] < r.callees[j]
                &&& forall|t: usize| #[trigger]
                    r.callees.contains(t as u64) <==> exists|k: int|
                        0 <= k < edges.len() && (#[trigger] edges[k]).target == t
                            && strings::enclosing(img, edges[k].site as int) == entry
            }
        }),
{
    let r = inspect::insight_of(img, rva);
    let entry = strings::enclosing(img, rva);
    let edges = model::all_calls(img);
    if img.arch == Arch::X86 {
        callers_are_around(img, edges, entry as usize);
        callees_are_within(img, edges, entry);
        let who = model::callers_among(img, edges, entry as usize);
        let raw = inspect::calls_of(img, edges, entry);
        let what = ordered::sorted_set(raw, ordered::rising());
        ordered::numbers_are_ordered();
        ordered::sorted_set_is_sorted(Seq::empty(), raw, ordered::rising());
        let rising = ordered::rising();
        assert forall|i: int, j: int| 0 <= i < j < r.callers.len() implies r.callers[i] < r.callers[j] by {
            assert(who[i] < who[j]);
        }
        assert forall|i: int, j: int| 0 <= i < j < r.callees.len() implies r.callees[i] < r.callees[j] by {
            assert(rising(what[i], what[j]));
        }
        assert forall|f: usize| #[trigger] r.callers.contains(f as u64) <==> calls_target(
            img,
            edges,
            entry as usize,
            f,
        ) by {
            widened_contains(who, f);
        }
        assert forall|t: usize| #[trigger] r.callees.contains(t as u64) <==> exists|k: int|
            0 <= k < edges.len() && (#[trigger] edges[k]).target == t && strings::enclosing(
                img,
                edges[k].site as int,
            ) == entry by {
            widened_contains(what, t);
            assert(what.contains(t) <==> (Seq::<usize>::empty().contains(t) || raw.contains(t)));
        }
    }
}

proof fn widened_contains(s: Seq<usize>, x: usize)
    ensures
        inspect::as_rvas(s).contains(x as u64) <==> s.contains(x),
{
    let w = inspect::as_rvas(s);
    if s.contains(x) {
        let k = choose|k: int| 0 <= k < s.len() && s[k] == x;
        assert(w[k] == x as u64);
    }
    if w.contains(x as u64) {
        let k = choose|k: int| 0 <= k < w.len() && w[k] == x as u64;
        assert(s[k] == x);
    }
}

/// The line of the instruction at `pos`: its address, its bytes and its text.
pub open spec fn line_at(img: &ImageInput, b: Seq<u8>, entry: int, pos: int, line: DisasmLineV) -> bool {
    let ip = img.base + entry;
    &&& line.rva == (entry + pos) as u64
    &&& line.bytes == text::joined(
        text::hex_bytes(b.subrange(pos, pos + head_at(img.arch, b, ip, pos).len)),
        " "@,
    )
    &&& line.text == x86::nasm_of(width(img.arch), b.skip(pos), (ip + pos) as u64)
}

/// No instruction starts from `p` on and before `q`.
pub open spec fn nothing_starts(img: &ImageInput, b: Seq<u8>, ip: int, p: int, q: int) -> bool {
    forall|k: int| p <= k < q ==> !#[trigger] starts_at(img.arch, b, ip, k)
}

/// The instruction at `p` does not return, and that at `q` is the next there is behind it.
pub open spec fn followed(img: &ImageInput, b: Seq<u8>, ip: int, p: int, q: int) -> bool {
    let end = p + head_at(img.arch, b, ip, p).len;
    end <= q && !ends_call(img.arch, b, ip, p) && nothing_starts(img, b, ip, end, q)
}

/// The listing from `pos` on: `at` holds where its lines are. Each is the next instruction there is, the
/// last is a return or there are enough lines or no instruction follows.
spec fn lists(
    img: &ImageInput,
    b: Seq<u8>,
    entry: int,
    pos: int,
    left: int,
    at: Seq<int>,
    out: Seq<DisasmLineV>,
) -> bool {
    let ip = img.base + entry;
    &&& at.len() == out.len()
    &&& at.len() <= left
    &&& forall|i: int|
        0 <= i < at.len() ==> #[trigger] starts_at(img.arch, b, ip, at[i]) && line_at(
            img,
            b,
            entry,
            at[i],
            out[i],
        )
    &&& at.len() > 0 ==> pos <= at[0] && nothing_starts(img, b, ip, pos, at[0])
    &&& forall|i: int| 0 <= i < at.len() - 1 ==> #[trigger] followed(img, b, ip, at[i], at[i + 1])
    &&& at.len() == 0 && left > 0 ==> nothing_starts(img, b, ip, pos, b.len() as int)
    &&& 0 < at.len() < left && !ends_call(img.arch, b, ip, at.last()) ==> nothing_starts(
        img,
        b,
        ip,
        at.last() + head_at(img.arch, b, ip, at.last()).len,
        b.len() as int,
    )
}

proof fn listing_goes_on(img: &ImageInput, b: Seq<u8>, entry: int, pos: int, left: nat) -> (at: Seq<int>)
    requires
        0 <= pos,
    ensures
        lists(
            img,
            b,
            entry,
            pos,
            left as int,
            at,
            inspect::listing_from(img, b, entry, pos, left),
        ),
    decreases b.len() - pos,
{
    let ip = img.base + entry;
    let out = inspect::listing_from(img, b, entry, pos, left);
    if left == 0 || pos >= b.len() {
        Seq::empty()
    } else {
        let h = head_at(img.arch, b, ip, pos);
        let rest = b.skip(pos);
        if !decode::decodable(h, rest) {
            let at = listing_goes_on(img, b, entry, pos + 1, left);
            assert(!starts_at(img.arch, b, ip, pos));
            if at.len() > 0 {
                assert(nothing_starts(img, b, ip, pos, at[0]));
            }
            at
        } else {
            assert(rest.take(h.len as int) =~= b.subrange(pos, pos + h.len));
            assert(line_at(img, b, entry, pos, out[0]));
            if ends_call(img.arch, b, ip, pos) {
                assert(out.len() == 1);
                seq![pos]
            } else {
                let more = listing_goes_on(img, b, entry, pos + h.len, (left - 1) as nat);
                let tail = inspect::listing_from(img, b, entry, pos + h.len, (left - 1) as nat);
                let at = seq![pos] + more;
                assert forall|i: int| 0 <= i < at.len() implies #[trigger] starts_at(
                    img.arch,
                    b,
                    ip,
                    at[i],
                ) && line_at(img, b, entry, at[i], out[i]) by {
                    if i > 0 {
                        assert(at[i] == more[i - 1]);
                        assert(out[i] == tail[i - 1]);
                        assert(starts_at(img.arch, b, ip, more[i - 1]));
                    }
                }
                assert forall|i: int| 0 <= i < at.len() - 1 implies #[trigger] followed(
                    img,
                    b,
                    ip,
                    at[i],
                    at[i + 1],
                ) by {
                    assert(at[i + 1] == more[i]);
                    if i > 0 {
                        assert(at[i] == more[i - 1]);
                        assert(followed(img, b, ip, more[i - 1], more[i - 1 + 1]));
                    }
                }
                if more.len() > 0 {
                    assert(at.last() == more.last());
                }
                at
            }
        }
    }
}

/// The listing of a function holds its instructions in order, with address, bytes and text: 200 of them at
/// most, within 1600 bytes, up to the first return, passing over bytes that are no instruction.
pub proof fn listings_hold_every_instruction(img: &ImageInput, entry: int) -> (at: Seq<int>)
    ensures
        ({
            let b = img.bytes(img.base + entry, 1600);
            let ip = img.base + entry;
            let out = inspect::listing(img, entry);
            &&& at.len() == out.len()
            &&& at.len() <= 200
            &&& forall|i: int|
                0 <= i < at.len() ==> #[trigger] starts_at(img.arch, b, ip, at[i]) && line_at(
                    img,
                    b,
                    entry,
                    at[i],
                    out[i],
                )
            &&& at.len() > 0 ==> nothing_starts(img, b, ip, 0, at[0])
            &&& forall|i: int|
                0 <= i < at.len() - 1 ==> #[trigger] followed(img, b, ip, at[i], at[i + 1])
            &&& at.len() == 0 ==> nothing_starts(img, b, ip, 0, b.len() as int)
            &&& 0 < at.len() < 200 && !ends_call(img.arch, b, ip, at.last()) ==> nothing_starts(
                img,
                b,
                ip,
                at.last() + head_at(img.arch, b, ip, at.last()).len,
                b.len() as int,
            )
        }),
{
    listing_goes_on(img, img.bytes(img.base + entry, 1600), entry, 0, 200)
}

/// An edge from `f` to another function.
pub open spec fn leads(edges: Seq<(usize, usize)>, f: usize, g: usize) -> bool {
    f != g && edges.contains((f, g))
}

proof fn last_or_before(edges: Seq<(usize, usize)>, e: (usize, usize))
    requires
        edges.len() > 0,
    ensures
        edges.contains(e) <==> edges.drop_last().contains(e) || e == edges.last(),
{
    let d = edges.drop_last();
    assert(edges[edges.len() - 1] == edges.last());
    if edges.contains(e) {
        let k = choose|k: int| 0 <= k < edges.len() && edges[k] == e;
        if k < d.len() {
            assert(d[k] == e);
        }
    }
    if d.contains(e) {
        let k = choose|k: int| 0 <= k < d.len() && d[k] == e;
        assert(edges[k] == e);
    }
}

/// An edge between `f` and another function, either way.
pub open spec fn touches(edges: Seq<(usize, usize)>, f: usize, g: usize) -> bool {
    leads(edges, f, g) || leads(edges, g, f)
}

/// In a call graph a function has as callees what its edges lead to, as callers what leads to it, and the
/// functions are the ends of the edges; an edge of a function to itself is none.
pub proof fn call_graphs_follow_the_edges(edges: Seq<(usize, usize)>, f: usize)
    ensures
        forall|g: usize| #[trigger] graph::callees_in(edges, f).contains(g) <==> leads(edges, f, g),
        forall|g: usize| #[trigger] graph::callers_in(edges, f).contains(g) <==> leads(edges, g, f),
        graph::ends_of(edges).contains(f) <==> exists|g: usize| #[trigger]
            touches(edges, f, g),
        ordered::is_sorted(graph::callers_in(edges, f), ordered::rising()),
    decreases edges.len(),
{
    if edges.len() > 0 {
        let d = edges.drop_last();
        let e = edges.last();
        call_graphs_follow_the_edges(d, f);
        ordered::numbers_are_ordered();
        assert forall|g: usize| #[trigger] graph::callees_in(edges, f).contains(g) <==> leads(
            edges,
            f,
            g,
        ) by {
            last_or_before(edges, (f, g));
            let before = graph::callees_in(d, f);
            assert(before.contains(g) <==> leads(d, f, g));
            pushed(before, e.1, g);
        }
        assert forall|g: usize| #[trigger] graph::callers_in(edges, f).contains(g) <==> leads(
            edges,
            g,
            f,
        ) by {
            last_or_before(edges, (g, f));
            let before = graph::callers_in(d, f);
            assert(before.contains(g) <==> leads(d, g, f));
            ordered::ins_keeps_order(before, e.0, ordered::rising());
        }
        ordered::ins_keeps_order(graph::callers_in(d, f), e.0, ordered::rising());
        let before = graph::ends_of(d);
        pushed(before, e.0, f);
        pushed(before.push(e.0), e.1, f);
        if exists|g: usize| #[trigger] touches(edges, f, g) {
            let g = choose|g: usize| #[trigger] touches(edges, f, g);
            last_or_before(edges, (f, g));
            last_or_before(edges, (g, f));
            assert(touches(d, f, g) || e == (f, g) || e == (g, f));
        }
        if before.contains(f) {
            let g = choose|g: usize| #[trigger] touches(d, f, g);
            last_or_before(edges, (f, g));
            last_or_before(edges, (g, f));
            assert(touches(edges, f, g));
        }
        if e.0 != e.1 {
            last_or_before(edges, e);
            if f == e.0 {
                assert(touches(edges, f, e.1));
            }
            if f == e.1 {
                assert(touches(edges, f, e.0));
            }
        }
    }
}

proof fn pushed(s: Seq<usize>, x: usize, y: usize)
    ensures
        s.push(x).contains(y) <==> s.contains(y) || y == x,
{
    let t = s.push(x);
    assert(t[s.len() as int] == x);
    if s.contains(y) {
        let k = choose|k: int| 0 <= k < s.len() && s[k] == y;
        assert(t[k] == y);
    }
    if t.contains(y) {
        let k = choose|k: int| 0 <= k < t.len() && t[k] == y;
        if k < s.len() {
            assert(s[k] == y);
        }
    }
}

}
