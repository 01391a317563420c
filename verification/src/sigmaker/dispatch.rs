//! Tables of functions in a build: where they are, which functions they hold, and when one is told apart.

use crate::pattern::Arch;
use crate::sigmaker::decode;
use crate::sigmaker::stream::{ends_call, head_at, starts_at, walk, walk_from};
use crate::sigmaker::tables;
use crate::sigmaker::types::ImageInput;
use crate::sigmaker::vtable;
use crate::sigmaker::vtable::TableMatch;
use vstd::prelude::*;

verus! {

/// The bytes of a pointer: eight on x64, four on x86.
pub open spec fn span_of_pointer(arch: Arch) -> int {
    match arch {
        Arch::X64 => 8,
        Arch::X86 => 4,
    }
}

/// The number in the `n` bytes at `i`, least significant first.
pub open spec fn number_at(buf: Seq<u8>, i: int, n: int) -> int
    decreases n,
{
    if n <= 0 {
        0
    } else {
        buf[i] + 256 * number_at(buf, i + 1, n - 1)
    }
}

/// The pointer at `i` is to code, `f` behind the image base.
pub open spec fn code_pointer(img: &ImageInput, buf: Seq<u8>, i: int, f: usize) -> bool {
    let w = span_of_pointer(img.arch);
    let v = number_at(buf, i, w) as u64 as usize;
    &&& 0 <= i && i + w <= buf.len()
    &&& exists|k: int|
        0 <= k < img.code_regions@.len() && (#[trigger] img.code_regions@[k]).base <= v && v
            - img.code_regions@[k].base < img.code_regions@[k].size
    &&& f == (v - img.base) as usize
}

proof fn slot_is_code(img: &ImageInput, buf: Seq<u8>, i: int)
    ensures
        match tables::slot_at(img, buf, i, tables::pointer_width(img.arch)) {
            Some(f) => code_pointer(img, buf, i, f),
            None => forall|f: usize| !#[trigger] code_pointer(img, buf, i, f),
        },
        forall|f: usize| #[trigger]
            code_pointer(img, buf, i, f) ==> tables::slot_at(
                img,
                buf,
                i,
                tables::pointer_width(img.arch),
            ) == Some(f),
{
    reveal_with_fuel(number_at, 9);
    let w = span_of_pointer(img.arch);
    if 0 <= i && i + w <= buf.len() {
        let v = tables::pointer_at(buf, i, w)->0;
        assert(v == number_at(buf, i, w) as u64 as usize);
        assert(img.in_code(v as int) <==> exists|k: int|
            0 <= k < img.code_regions@.len() && (#[trigger] img.code_regions@[k]).base <= v && v
                - img.code_regions@[k].base < img.code_regions@[k].size);
    }
}

/// A run of pointers to code at `i`: these functions, and the next pointer is none.
pub open spec fn whole_run(img: &ImageInput, buf: Seq<u8>, i: int, slots: Seq<usize>) -> bool {
    let w = span_of_pointer(img.arch);
    &&& forall|k: int|
        0 <= k < slots.len() ==> code_pointer(img, buf, i + w * k, #[trigger] slots[k])
    &&& forall|f: usize| !#[trigger] code_pointer(img, buf, i + w * slots.len(), f)
}

proof fn run_is_whole(img: &ImageInput, buf: Seq<u8>, i: int)
    ensures
        whole_run(img, buf, i, tables::run_from(img, buf, i, tables::pointer_width(img.arch))),
    decreases buf.len() - i,
{
    let w = tables::pointer_width(img.arch);
    slot_is_code(img, buf, i);
    let run = tables::run_from(img, buf, i, w);
    if let Some(f) = tables::slot_at(img, buf, i, w) {
        run_is_whole(img, buf, i + w);
        let rest = tables::run_from(img, buf, i + w, w);
        assert forall|k: int| 0 <= k < run.len() implies code_pointer(
            img,
            buf,
            i + w * k,
            #[trigger] run[k],
        ) by {
            if k > 0 {
                assert(run[k] == rest[k - 1]);
                assert(i + w + w * (k - 1) == i + w * k) by (nonlinear_arith);
            } else {
                assert(w * 0 == 0);
            }
        }
        assert(i + w + w * rest.len() == i + w * run.len()) by (nonlinear_arith)
            requires
                run.len() == rest.len() + 1,
        ;
    } else {
        assert(w * 0 == 0);
    }
}

/// `t` is a table of functions: four or more pointers to code, one behind the other, and no more follow.
pub open spec fn table_at(img: &ImageInput, buf: Seq<u8>, start: int, slots: Seq<usize>) -> bool {
    &&& start >= 0
    &&& start % span_of_pointer(img.arch) == 0
    &&& slots.len() >= 4
    &&& whole_run(img, buf, start, slots)
}

/// Offset `i` is in a table.
pub open spec fn in_table(img: &ImageInput, start: int, slots: Seq<usize>, i: int) -> bool {
    start <= i && i < start + span_of_pointer(img.arch) * slots.len()
}

/// Four pointers to code stand at `i`, one behind the other.
pub open spec fn four_pointers(img: &ImageInput, buf: Seq<u8>, i: int) -> bool {
    let w = span_of_pointer(img.arch);
    forall|k: int|
        0 <= k < 4 ==> exists|f: usize| #[trigger] code_pointer(img, buf, i + #[trigger] (w * k), f)
}

spec fn tables_hold(img: &ImageInput, buf: Seq<u8>, from: int, ts: Seq<tables::TableV>) -> bool {
    &&& forall|k: int|
        0 <= k < ts.len() ==> from <= (#[trigger] ts[k]).0 && table_at(
            img,
            buf,
            ts[k].0 as int,
            ts[k].1,
        )
    &&& forall|j: int, k: int|
        0 <= j < k < ts.len() ==> (#[trigger] ts[j]).0 + span_of_pointer(img.arch) * ts[j].1.len()
            <= (#[trigger] ts[k]).0
    &&& forall|i: int|
        from <= i && i % span_of_pointer(img.arch) == 0 && #[trigger] four_pointers(img, buf, i)
            ==> exists|k: int|
            0 <= k < ts.len() && #[trigger] in_table(img, ts[k].0 as int, ts[k].1, i)
}

proof fn aligned_steps(w: int, i: int, j: int)
    requires
        w > 0,
        i % w == 0,
        j % w == 0,
        i < j,
    ensures
        i + w <= j,
{
    assert(j >= i + w) by (nonlinear_arith)
        requires
            w > 0,
            i % w == 0,
            j % w == 0,
            i < j,
    ;
}

proof fn pointer_inside(img: &ImageInput, buf: Seq<u8>, i: int)
    requires
        four_pointers(img, buf, i),
    ensures
        exists|f: usize| #[trigger] code_pointer(img, buf, i, f),
        0 <= i,
        i + 4 * span_of_pointer(img.arch) <= buf.len(),
{
    let w = span_of_pointer(img.arch);
    assert(w * 0 == 0);
    let f = choose|f: usize| #[trigger] code_pointer(img, buf, i + w * 0, f);
    assert(code_pointer(img, buf, i, f));
    let g = choose|g: usize| #[trigger] code_pointer(img, buf, i + w * 3, g);
    assert(code_pointer(img, buf, i + w * 3, g));
}

proof fn run_covers(img: &ImageInput, buf: Seq<u8>, i: int, j: int, slots: Seq<usize>)
    requires
        i % span_of_pointer(img.arch) == 0,
        j % span_of_pointer(img.arch) == 0,
        i <= j,
        j < i + span_of_pointer(img.arch) * slots.len(),
        whole_run(img, buf, i, slots),
        four_pointers(img, buf, j),
    ensures
        slots.len() >= 4,
{
    let w = span_of_pointer(img.arch);
    let n = slots.len() as int;
    if n < 4 {
        let q = (j - i) / w;
        match img.arch {
            Arch::X64 => {
                assert(j == i + 8 * ((j - i) / 8));
            },
            Arch::X86 => {
                assert(j == i + 4 * ((j - i) / 4));
            },
        }
        assert(j == i + w * q);
        assert(0 <= q < n) by (nonlinear_arith)
            requires
                w > 0,
                j == i + w * q,
                i <= j,
                j < i + w * n,
        ;
        let k = n - q;
        assert(j + w * k == i + w * n) by (nonlinear_arith)
            requires
                j == i + w * q,
                k == n - q,
        ;
        assert(0 <= k < 4);
        let f = choose|f: usize| #[trigger] code_pointer(img, buf, j + w * k, f);
        assert(code_pointer(img, buf, i + w * slots.len(), f));
    }
}

proof fn tables_are_listed(img: &ImageInput, buf: Seq<u8>, i: int)
    requires
        0 <= i,
        i % span_of_pointer(img.arch) == 0,
        buf.len() <= usize::MAX,
    ensures
        tables_hold(img, buf, i, tables::vtables_from(img, buf, i)),
    decreases buf.len() - i,
{
    let w = tables::pointer_width(img.arch);
    let ts = tables::vtables_from(img, buf, i);
    if i + w > buf.len() {
        assert forall|j: int| i <= j && #[trigger] four_pointers(img, buf, j) implies false by {
            pointer_inside(img, buf, j);
        }
    } else {
        let run = tables::run_from(img, buf, i, w);
        tables::run_fits(img, buf, i, w);
        run_is_whole(img, buf, i);
        let n = run.len() as int;
        let next = if n == 0 {
            i + w
        } else {
            i + w * n
        };
        assert(next % w == 0 && next > i) by (nonlinear_arith)
            requires
                w > 0,
                i % w == 0,
                n >= 0,
                next == if n == 0 {
                    i + w
                } else {
                    i + w * n
                },
        ;
        tables_are_listed(img, buf, next);
        let rest = tables::vtables_from(img, buf, next);
        let front: Seq<tables::TableV> = if n >= 4 {
            seq![(i as usize, run)]
        } else {
            Seq::empty()
        };
        assert(ts =~= front + rest);
        assert forall|k: int| 0 <= k < ts.len() implies i <= (#[trigger] ts[k]).0 && table_at(
            img,
            buf,
            ts[k].0 as int,
            ts[k].1,
        ) by {
            if k >= front.len() {
                assert(ts[k] == rest[k - front.len()]);
            }
        }
        assert forall|j: int, k: int| 0 <= j < k < ts.len() implies (#[trigger] ts[j]).0
            + span_of_pointer(img.arch) * ts[j].1.len() <= (#[trigger] ts[k]).0 by {
            assert(ts[k] == rest[k - front.len()]);
            if j >= front.len() {
                assert(ts[j] == rest[j - front.len()]);
            }
        }
        assert forall|j: int|
            i <= j && j % span_of_pointer(img.arch) == 0 && #[trigger] four_pointers(
                img,
                buf,
                j,
            ) implies exists|k: int|
            0 <= k < ts.len() && #[trigger] in_table(img, ts[k].0 as int, ts[k].1, j) by {
            if j >= next {
                let k = choose|k: int|
                    0 <= k < rest.len() && #[trigger] in_table(
                        img,
                        rest[k].0 as int,
                        rest[k].1,
                        j,
                    );
                assert(ts[k + front.len()] == rest[k]);
                assert(in_table(
                    img,
                    ts[k + front.len()].0 as int,
                    ts[k + front.len()].1,
                    j,
                ));
            } else if n == 0 {
                if j > i {
                    aligned_steps(w, i, j);
                }
                assert(j == i);
                pointer_inside(img, buf, j);
                assert(w * 0 == 0);
                let f = choose|f: usize| #[trigger] code_pointer(img, buf, i, f);
                assert(!code_pointer(img, buf, i + w * run.len(), f));
            } else {
                run_covers(img, buf, i, j, run);
                assert(ts[0] == (i as usize, run));
                assert(in_table(img, ts[0].0 as int, ts[0].1, j));
            }
        }
    }
}

/// The tables of a build are its runs of four pointers to code or more, at aligned offsets, each as long
/// as it goes and one behind the other; and wherever four such pointers stand together there is a table.
pub proof fn every_table_is_found(img: &ImageInput)
    requires
        img.wf(),
    ensures
        ({
            let buf = img.bytes(img.base as int, img.size as nat);
            let ts = tables::vtables_from(img, buf, 0);
            &&& forall|k: int|
                0 <= k < ts.len() ==> table_at(
                    img,
                    buf,
                    (#[trigger] ts[k]).0 as int,
                    ts[k].1,
                )
            &&& forall|j: int, k: int|
                0 <= j < k < ts.len() ==> (#[trigger] ts[j]).0 + span_of_pointer(img.arch)
                    * ts[j].1.len() <= (#[trigger] ts[k]).0
            &&& forall|i: int|
                0 <= i && i % span_of_pointer(img.arch) == 0 && #[trigger] four_pointers(img, buf, i)
                    ==> exists|k: int|
                    0 <= k < ts.len() && #[trigger] in_table(img, ts[k].0 as int, ts[k].1, i)
        }),
{
    let buf = img.bytes(img.base as int, img.size as nat);
    img.bytes_fit(img.base as int, img.size as nat);
    tables_are_listed(img, buf, 0);
}

proof fn position_is_first(s: Seq<usize>, f: usize, i: int)
    requires
        0 <= i <= s.len(),
    ensures
        match tables::position_of(s, f, i) {
            Some(k) => i <= k < s.len() && s[k] == f && forall|j: int| i <= j < k ==> s[j] != f,
            None => forall|j: int| i <= j < s.len() ==> s[j] != f,
        },
    decreases s.len() - i,
{
    if i < s.len() && s[i] != f {
        position_is_first(s, f, i + 1);
    }
}

proof fn table_is_first(ts: Seq<tables::TableV>, f: usize, n: int)
    requires
        0 <= n <= ts.len(),
    ensures
        match tables::table_with(ts, f, n) {
            Some((k, i)) => n <= k < ts.len() && 0 <= i < ts[k].1.len() && ts[k].1[i] == f && (forall|
                j: int,
            |
                0 <= j < i ==> ts[k].1[j] != f) && forall|j: int|
                n <= j < k ==> !(#[trigger] ts[j]).1.contains(f),
            None => forall|j: int| n <= j < ts.len() ==> !(#[trigger] ts[j]).1.contains(f),
        },
    decreases ts.len() - n,
{
    if n < ts.len() {
        position_is_first(ts[n].1, f, 0);
        if tables::position_of(ts[n].1, f, 0) is None {
            table_is_first(ts, f, n + 1);
        }
    }
}

/// The table a function is reported in is the first that holds it, at its first slot there; it is in none
/// only where no table holds it.
pub proof fn membership_is_in_the_first_table(img: &ImageInput, rva: usize)
    requires
        img.wf(),
    ensures
        ({
            let buf = img.bytes(img.base as int, img.size as nat);
            let ts = tables::vtables_from(img, buf, 0);
            match tables::membership_of(img, rva) {
                Some((start, slot, count, class)) => exists|k: int|
                    0 <= k < ts.len() && (#[trigger] ts[k]).0 == start && ts[k].1.len() == count && slot
                        < count && ts[k].1[slot as int] == rva && (forall|j: int|
                        0 <= j < slot ==> ts[k].1[j] != rva) && forall|j: int|
                        0 <= j < k ==> !(#[trigger] ts[j]).1.contains(rva),
                None => forall|j: int| 0 <= j < ts.len() ==> !(#[trigger] ts[j]).1.contains(rva),
            }
        }),
{
    let buf = img.bytes(img.base as int, img.size as nat);
    let ts = tables::vtables_from(img, buf, 0);
    table_is_first(ts, rva, 0);
    if let Some((k, i)) = tables::table_with(ts, rva, 0) {
        every_table_is_found(img);
        img.bytes_fit(img.base as int, img.size as nat);
        let n = ts[k].1.len() as int;
        assert(table_at(img, buf, ts[k].0 as int, ts[k].1));
        let w = span_of_pointer(img.arch);
        assert(code_pointer(img, buf, ts[k].0 + w * (n - 1), ts[k].1[n - 1]));
        assert(n <= usize::MAX) by (nonlinear_arith)
            requires
                w >= 4,
                ts[k].0 >= 0,
                ts[k].0 + w * (n - 1) + w <= buf.len(),
                buf.len() <= usize::MAX,
        ;
    }
}

/// A match by structure is sure of itself at 72 percent and with ten points before the next table, and
/// not below.
pub proof fn sure_matches_are_far_ahead(m: Option<(usize, u64, u64)>)
    requires
        m matches Some((f, best, next)) ==> next <= best <= 1_000_000_000_000,
    ensures
        vtable::confident(m) <==> (m matches Some((f, best, next)) && best * 100 >= 72
            * 1_000_000_000_000 && (best - next) * 100 >= 10 * 1_000_000_000_000),
{
}

/// A table of `slots` functions can be compared with one of `want`: neither has a quarter of the wanted and
/// eight more than the other.
pub proof fn comparable_tables_are_of_a_size(slots: int, want: int)
    requires
        slots >= 0,
        want >= 0,
    ensures
        vtable::comparable(slots, want) <==> slots > 0 && 4 * (want - slots) <= 4 * (want / 4) + 32 && 4
            * (slots - want) <= 4 * (want / 4) + 32,
{
}

/// How well table number `k` fits.
#[verifier::opaque]
pub open spec fn fit(
    img: &ImageInput,
    vts: Seq<tables::TableV>,
    r: Seq<Seq<u16>>,
    shares: Seq<u32>,
    k: int,
) -> int {
    vtable::table_score(img, vts[k].1, r, shares)
}

#[verifier::opaque]
spec fn matched(
    img: &ImageInput,
    vts: Seq<tables::TableV>,
    r: Seq<Seq<u16>>,
    shares: Seq<u32>,
    n: int,
) -> TableMatch {
    vtable::table_match(img, vts, r, shares, n)
}

proof fn matched_goes_on(
    img: &ImageInput,
    vts: Seq<tables::TableV>,
    r: Seq<Seq<u16>>,
    shares: Seq<u32>,
    n: int,
)
    ensures
        n <= 0 ==> matched(img, vts, r, shares, n) == (TableMatch { best: None, score: 0, second: 0 }),
        n > 0 ==> ({
            let m = matched(img, vts, r, shares, n - 1);
            let s = fit(img, vts, r, shares, n - 1);
            matched(img, vts, r, shares, n) == if !vtable::comparable(
                vts[n - 1].1.len() as int,
                r.len() as int,
            ) {
                m
            } else if s > m.score {
                TableMatch { best: Some(n - 1), score: s, second: m.score }
            } else if s > m.second {
                TableMatch { second: s, ..m }
            } else {
                m
            }
        }),
{
    reveal(fit);
    reveal(matched);
}

/// Table number `k` is compared.
pub open spec fn compares(vts: Seq<tables::TableV>, r: Seq<Seq<u16>>, k: int) -> bool {
    vtable::comparable(vts[k].1.len() as int, r.len() as int)
}

/// The best of the first `n` tables, and the best of the others beside it.
pub open spec fn best_table(
    img: &ImageInput,
    vts: Seq<tables::TableV>,
    r: Seq<Seq<u16>>,
    shares: Seq<u32>,
    n: int,
    m: TableMatch,
) -> bool {
    match m.best {
        Some(b) => {
            &&& 0 <= b < n
            &&& compares(vts, r, b)
            &&& m.score == fit(img, vts, r, shares, b)
            &&& m.score > 0
            &&& 0 <= m.second <= m.score
            &&& forall|k: int|
                0 <= k < n && k != b && compares(vts, r, k) ==> #[trigger] fit(
                    img,
                    vts,
                    r,
                    shares,
                    k,
                ) <= m.second
            &&& m.second > 0 ==> exists|k: int|
                0 <= k < n && k != b && compares(vts, r, k) && #[trigger] fit(
                    img,
                    vts,
                    r,
                    shares,
                    k,
                ) == m.second
        },
        None => m.score == 0 && m.second == 0 && forall|k: int|
            0 <= k < n && compares(vts, r, k) ==> #[trigger] fit(img, vts, r, shares, k) <= 0,
    }
}

proof fn matched_is_best(
    img: &ImageInput,
    vts: Seq<tables::TableV>,
    r: Seq<Seq<u16>>,
    shares: Seq<u32>,
    n: int,
)
    requires
        0 <= n <= vts.len(),
    ensures
        best_table(img, vts, r, shares, n, matched(img, vts, r, shares, n)),
    decreases n,
{
    matched_goes_on(img, vts, r, shares, n);
    if n > 0 {
        matched_is_best(img, vts, r, shares, n - 1);
        let before = matched(img, vts, r, shares, n - 1);
        let m = matched(img, vts, r, shares, n);
        let s = fit(img, vts, r, shares, n - 1);
        if compares(vts, r, n - 1) && s > before.score {
            if let Some(b) = before.best {
                assert(fit(img, vts, r, shares, b) == m.second);
            }
        } else if compares(vts, r, n - 1) && s > before.second {
            assert(before.best is Some);
            assert(fit(img, vts, r, shares, n - 1) == m.second);
        } else if before.best is Some && before.second > 0 {
            let b = before.best->0;
            let k = choose|k: int|
                0 <= k < n - 1 && k != b && compares(vts, r, k) && #[trigger] fit(
                    img,
                    vts,
                    r,
                    shares,
                    k,
                ) == before.second;
            assert(fit(img, vts, r, shares, k) == m.second);
        }
    }
}

/// Of the tables that can be compared the one that fits best is taken, and the next best beside it; none
/// only where none fits at all.
pub proof fn best_fitting_table_is_taken(
    img: &ImageInput,
    vts: Seq<tables::TableV>,
    r: Seq<Seq<u16>>,
    shares: Seq<u32>,
)
    ensures
        best_table(
            img,
            vts,
            r,
            shares,
            vts.len() as int,
            vtable::table_match(img, vts, r, shares, vts.len() as int),
        ),
{
    matched_is_best(img, vts, r, shares, vts.len() as int);
    reveal(matched);
}

/// A table entry leads to the target, itself or through a thunk.
pub open spec fn leads_to(img: &ImageInput, slots: Seq<usize>, i: int, target: usize) -> bool {
    tables::thunk_end(img, slots[i] as int).0 == target
}

pub(crate) proof fn slot_is_first(img: &ImageInput, slots: Seq<usize>, target: usize, n: int)
    requires
        0 <= n <= slots.len() <= usize::MAX,
    ensures
        match vtable::dispatching_slot(img, slots, target, n) {
            Some((i, via)) => n <= i < slots.len() && leads_to(img, slots, i as int, target) && via
                == tables::thunk_end(img, slots[i as int] as int).1 && forall|j: int|
                n <= j < i ==> !#[trigger] leads_to(img, slots, j, target),
            None => forall|j: int|
                n <= j < slots.len() ==> !#[trigger] leads_to(img, slots, j, target),
        },
    decreases slots.len() - n,
{
    if n < slots.len() && !leads_to(img, slots, n, target) {
        slot_is_first(img, slots, target, n + 1);
    }
}

/// The slot that dispatches to a target is the first whose entry leads to it.
pub proof fn dispatching_slots_lead_to_the_target(img: &ImageInput, slots: Seq<usize>, target: usize)
    requires
        slots.len() <= usize::MAX,
    ensures
        match vtable::dispatching_slot(img, slots, target, 0) {
            Some((i, via)) => i < slots.len() && leads_to(img, slots, i as int, target) && forall|j: int|
                0 <= j < i ==> !#[trigger] leads_to(img, slots, j, target),
            None => forall|j: int|
                0 <= j < slots.len() ==> !#[trigger] leads_to(img, slots, j, target),
        },
{
    slot_is_first(img, slots, target, 0);
}

proof fn mnemonics_walk(arch: Arch, b: Seq<u8>, ip: int, pos: int, left: nat) -> (at: Seq<int>)
    requires
        0 <= pos <= b.len(),
    ensures
        walk_from(arch, b, ip, pos, at),
        at.len() <= left + 1,
        forall|i: int| 0 <= i < at.len() - 2 ==> !#[trigger] ends_call(arch, b, ip, at[i]),
        at.len() == left + 1 || !starts_at(arch, b, ip, at.last()) || (at.len() > 1 && ends_call(
            arch,
            b,
            ip,
            at[at.len() - 2],
        )),
        ({
            let out = vtable::mnemonics_from(decode::mode(arch), b, ip, pos, left);
            out.len() == at.len() - 1 && forall|i: int|
                0 <= i < out.len() ==> #[trigger] out[i] == head_at(arch, b, ip, at[i]).mnemonic as u16
        }),
    decreases left,
{
    if left == 0 || !(0 <= pos < b.len()) {
        seq![pos]
    } else {
        let h = head_at(arch, b, ip, pos);
        if !decode::decodable(h, b.skip(pos)) {
            seq![pos]
        } else if ends_call(arch, b, ip, pos) {
            seq![pos, pos + h.len]
        } else {
            let rest = mnemonics_walk(arch, b, ip, pos + h.len, (left - 1) as nat);
            let tail = vtable::mnemonics_from(decode::mode(arch), b, ip, pos + h.len, (left - 1) as nat);
            let out = vtable::mnemonics_from(decode::mode(arch), b, ip, pos, left);
            let at = seq![pos] + rest;
            assert forall|i: int| 0 <= i < at.len() - 1 implies #[trigger] starts_at(
                arch,
                b,
                ip,
                at[i],
            ) && at[i + 1] == at[i] + head_at(arch, b, ip, at[i]).len by {
                if i > 0 {
                    assert(at[i] == rest[i - 1]);
                    assert(at[i + 1] == rest[i]);
                    assert(starts_at(arch, b, ip, rest[i - 1]));
                } else {
                    assert(at[1] == rest[0]);
                }
            }
            assert forall|i: int| 0 <= i < at.len() - 2 implies !#[trigger] ends_call(
                arch,
                b,
                ip,
                at[i],
            ) by {
                if i > 0 {
                    assert(at[i] == rest[i - 1]);
                    assert(!ends_call(arch, b, ip, rest[i - 1]));
                }
            }
            assert(at.last() == rest.last());
            if rest.len() > 1 {
                assert(at[at.len() - 2] == rest[rest.len() - 2]);
            }
            assert forall|i: int| 0 <= i < out.len() implies #[trigger] out[i] == head_at(
                arch,
                b,
                ip,
                at[i],
            ).mnemonic as u16 by {
                if i > 0 {
                    assert(out[i] == tail[i - 1]);
                    assert(at[i] == rest[i - 1]);
                }
            }
            at
        }
    }
}

/// What a slot is known by is the mnemonics of its first instructions, in order: sixteen of them at most,
/// within 128 bytes, up to the first return.
pub proof fn slots_are_known_by_their_mnemonics(img: &ImageInput, rva: int) -> (at: Seq<int>)
    ensures
        ({
            let b = img.bytes(img.base + rva, 128);
            let ip = img.base + rva;
            let out = vtable::mnemonics_at(img, rva);
            &&& walk(img.arch, b, ip, at)
            &&& at.len() <= 17
            &&& forall|i: int|
                0 <= i < at.len() - 2 ==> !#[trigger] ends_call(img.arch, b, ip, at[i])
            &&& at.len() == 17 || !starts_at(img.arch, b, ip, at.last()) || (at.len() > 1
                && ends_call(img.arch, b, ip, at[at.len() - 2]))
            &&& out.len() == at.len() - 1
            &&& forall|i: int|
                0 <= i < out.len() ==> #[trigger] out[i] == head_at(img.arch, b, ip, at[i]).mnemonic as u16
        }),
{
    mnemonics_walk(
        img.arch,
        img.bytes(img.base + rva, vtable::SLOT_BYTES as nat),
        img.base + rva,
        0,
        vtable::SLOT_WINDOW as nat,
    )
}

}
