//! What a report says of the builds it was made from: how they are grouped, where the target is looked
//! for, and why the chosen signature was chosen.

use crate::pattern;
use crate::sigmaker::bytepath::Anchor;
use crate::sigmaker::cache;
use crate::sigmaker::candidates;
use crate::sigmaker::candidates::Attempt;
use crate::sigmaker::cuts::sits_at;
use crate::sigmaker::generate;
use crate::sigmaker::generate::AimV;
use crate::sigmaker::landing;
use crate::sigmaker::places::{located_counts_places, located_once_is_one_place, places};
use crate::sigmaker::types::{DiagV, DupGroupV, Grade, ImageInput, PerVersionV, SigCandidateV};
use crate::sigmaker::types::{SigOptions, Suffix};
use crate::text;
use vstd::prelude::*;

verus! {

/// `idx` lists the builds before `n` that have this code, in their order.
pub open spec fn members(images: Seq<&ImageInput>, n: int, code_hash: u64, idx: Seq<int>) -> bool {
    &&& forall|i: int, j: int| 0 <= i < j < idx.len() ==> #[trigger] idx[i] < #[trigger] idx[j]
    &&& forall|i: int| #[trigger]
        idx.contains(i) <==> 0 <= i < n && images[i].code_hash == code_hash
}

/// The group is that of the builds before `n` with its code: their labels, in order, and `first` is the
/// first of them.
pub open spec fn grouping(images: Seq<&ImageInput>, n: int, g: DupGroupV, first: usize) -> bool {
    exists|idx: Seq<int>| #[trigger]
        members(images, n, g.code_hash, idx) && idx.len() > 0 && idx[0] == first && g.labels.len()
            == idx.len() && forall|k: int|
            0 <= k < idx.len() ==> #[trigger] g.labels[k] == images[idx[k]].label@
}

proof fn group_place_is_it(groups: Seq<DupGroupV>, code_hash: u64, i: int)
    requires
        0 <= i <= groups.len(),
    ensures
        match generate::group_place(groups, code_hash, i) {
            Some(k) => i <= k < groups.len() && groups[k].code_hash == code_hash,
            None => forall|k: int|
                i <= k < groups.len() ==> (#[trigger] groups[k]).code_hash != code_hash,
        },
    decreases groups.len() - i,
{
    if i < groups.len() && groups[i].code_hash != code_hash {
        group_place_is_it(groups, code_hash, i + 1);
    }
}

proof fn members_go_on(images: Seq<&ImageInput>, n: int, code_hash: u64, idx: Seq<int>)
    requires
        0 <= n < images.len(),
        members(images, n, code_hash, idx),
    ensures
        images[n].code_hash == code_hash ==> members(images, n + 1, code_hash, idx.push(n)),
        images[n].code_hash != code_hash ==> members(images, n + 1, code_hash, idx),
{
    if images[n].code_hash == code_hash {
        let more = idx.push(n);
        assert forall|i: int| #[trigger] more.contains(i) <==> 0 <= i < n + 1 && images[i].code_hash
            == code_hash by {
            if more.contains(i) {
                let k = choose|k: int| 0 <= k < more.len() && more[k] == i;
                if k < idx.len() {
                    assert(idx[k] == i);
                    assert(idx.contains(i));
                }
            }
            if 0 <= i < n && images[i].code_hash == code_hash {
                assert(idx.contains(i));
                let k = choose|k: int| 0 <= k < idx.len() && idx[k] == i;
                assert(more[k] == i);
            }
            if i == n {
                assert(more[idx.len() as int] == i);
            }
        }
        assert forall|i: int, j: int| 0 <= i < j < more.len() implies #[trigger] more[i]
            < #[trigger] more[j] by {
            if j == idx.len() {
                assert(idx.contains(idx[i]));
            }
        }
    } else {
        assert forall|i: int| #[trigger] idx.contains(i) <==> 0 <= i < n + 1 && images[i].code_hash
            == code_hash by {
            if 0 <= i < n + 1 && images[i].code_hash == code_hash {
                assert(i < n);
            }
        }
    }
}

/// Each group holds the labels of all the builds with its code, in their order, and the build that is
/// searched for it is the first of them. The groups are in the order of those first builds.
pub proof fn groups_are_of_equal_code(images: Seq<&ImageInput>, n: int)
    requires
        0 <= n <= images.len() <= usize::MAX,
    ensures
        ({
            let (groups, required) = generate::grouped(images, n);
            &&& groups.len() == required.len()
            &&& forall|k: int|
                #![trigger groups[k]]
                0 <= k < groups.len() ==> grouping(images, n, groups[k], required[k])
            &&& forall|i: int|
                0 <= i < n ==> exists|k: int|
                    0 <= k < groups.len() && (#[trigger] groups[k]).code_hash == (
                    #[trigger] images[i]).code_hash
            &&& forall|j: int, k: int|
                0 <= j < k < required.len() ==> #[trigger] required[j] < #[trigger] required[k]
            &&& forall|k: int| 0 <= k < required.len() ==> #[trigger] required[k] < n
        }),
    decreases n,
{
    if n > 0 {
        groups_are_of_equal_code(images, n - 1);
        let (before, reps) = generate::grouped(images, n - 1);
        let (groups, required) = generate::grouped(images, n);
        let img = images[n - 1];
        group_place_is_it(before, img.code_hash, 0);
        match generate::group_place(before, img.code_hash, 0) {
            Some(place) => {
                assert forall|k: int| #![trigger groups[k]] 0 <= k < groups.len() implies grouping(
                    images,
                    n,
                    groups[k],
                    required[k],
                ) by {
                    assert(grouping(images, n - 1, before[k], reps[k]));
                    let idx = choose|idx: Seq<int>| #[trigger]
                        members(images, n - 1, before[k].code_hash, idx) && idx.len() > 0 && idx[0]
                            == reps[k] && before[k].labels.len() == idx.len() && forall|q: int|
                            0 <= q < idx.len() ==> #[trigger] before[k].labels[q] == images[idx[q]].label@;
                    members_go_on(images, n - 1, before[k].code_hash, idx);
                    if k == place {
                        let more = idx.push(n - 1);
                        assert(members(images, n, groups[k].code_hash, more));
                        assert forall|q: int| 0 <= q < more.len() implies #[trigger] groups[k].labels[q]
                            == images[more[q]].label@ by {
                            if q < idx.len() {
                                assert(groups[k].labels[q] == before[k].labels[q]);
                            }
                        }
                    } else {
                        assert(groups[k] == before[k]);
                        if img.code_hash == before[k].code_hash {
                            // Two groups of the same code would share their first build.
                            let other = choose|other: Seq<int>| #[trigger]
                                members(images, n - 1, before[place].code_hash, other)
                                    && other.len() > 0 && other[0] == reps[place];
                            assert(grouping(images, n - 1, before[place], reps[place]));
                            assert(idx.contains(idx[0]));
                            assert(other.contains(other[0]));
                            assert(other.contains(idx[0]));
                            assert(idx.contains(other[0]));
                            let p = choose|p: int| 0 <= p < other.len() && other[p] == idx[0];
                            let q = choose|q: int| 0 <= q < idx.len() && idx[q] == other[0];
                            assert(idx[0] == other[0]);
                            assert(reps[k] == reps[place]);
                            assert(false);
                        }
                        assert(members(images, n, groups[k].code_hash, idx));
                    }
                }
                assert forall|i: int| 0 <= i < n implies exists|k: int|
                    0 <= k < groups.len() && (#[trigger] groups[k]).code_hash == (
                    #[trigger] images[i]).code_hash by {
                    if i < n - 1 {
                        let k = choose|k: int|
                            0 <= k < before.len() && (#[trigger] before[k]).code_hash
                                == images[i].code_hash;
                        assert(groups[k].code_hash == before[k].code_hash);
                    } else {
                        assert(groups[place].code_hash == img.code_hash);
                    }
                }
            },
            None => {
                assert forall|k: int| #![trigger groups[k]] 0 <= k < groups.len() implies grouping(
                    images,
                    n,
                    groups[k],
                    required[k],
                ) by {
                    if k < before.len() {
                        assert(grouping(images, n - 1, before[k], reps[k]));
                        assert(groups[k] == before[k]);
                        let idx = choose|idx: Seq<int>| #[trigger]
                            members(images, n - 1, before[k].code_hash, idx) && idx.len() > 0
                                && idx[0] == reps[k] && before[k].labels.len() == idx.len() && forall|
                                q: int,
                            |
                                0 <= q < idx.len() ==> #[trigger] before[k].labels[q]
                                    == images[idx[q]].label@;
                        members_go_on(images, n - 1, before[k].code_hash, idx);
                        assert(members(images, n, groups[k].code_hash, idx));
                    } else {
                        let none = Seq::<int>::empty();
                        assert forall|i: int| 0 <= i < n - 1 implies (
                        #[trigger] images[i]).code_hash != img.code_hash by {
                            let q = choose|q: int|
                                0 <= q < before.len() && (#[trigger] before[q]).code_hash
                                    == images[i].code_hash;
                        }
                        assert(members(images, n - 1, img.code_hash, none));
                        members_go_on(images, n - 1, img.code_hash, none);
                        let one = none.push(n - 1);
                        assert(members(images, n, groups[k].code_hash, one));
                        assert(groups[k].labels[0] == images[one[0]].label@);
                    }
                }
                assert forall|i: int| 0 <= i < n implies exists|k: int|
                    0 <= k < groups.len() && (#[trigger] groups[k]).code_hash == (
                    #[trigger] images[i]).code_hash by {
                    if i < n - 1 {
                        let k = choose|k: int|
                            0 <= k < before.len() && (#[trigger] before[k]).code_hash
                                == images[i].code_hash;
                        assert(groups[k] == before[k]);
                    } else {
                        assert(groups[before.len() as int].code_hash == img.code_hash);
                    }
                }
            },
        }
    }
}

/// How the search for the target went in one build: what is noted of it, unless it has one place there.
pub open spec fn noted_of(img: &ImageInput, tokens: Seq<Option<u8>>, d: DiagV) -> bool {
    let n = places(img, tokens).len();
    ||| n == 0 && d == (DiagV::MissingInImage { label: img.label@ })
    ||| n > 1 && (d matches DiagV::AmbiguousInImage { label, count } && label == img.label@ && count
        == (if n <= usize::MAX {
            n as int
        } else {
            usize::MAX as int
        }))
}

/// The target was searched for in the first `n` required builds: `hit` lists those that hold it once and
/// `miss` the others, with what is noted of them.
pub open spec fn searched(
    images: Seq<&ImageInput>,
    required: Seq<usize>,
    tokens: Seq<Option<u8>>,
    n: int,
    found: Seq<(usize, u64)>,
    diags: Seq<DiagV>,
    miss: Seq<int>,
) -> bool {
    &&& forall|k: int|
        0 <= k < found.len() ==> (#[trigger] found[k]).0 < n && sits_at(
            images[required[found[k].0 as int] as int],
            tokens,
            found[k].1,
        )
    &&& forall|j: int, k: int|
        0 <= j < k < found.len() ==> (#[trigger] found[j]).0 < (#[trigger] found[k]).0
    &&& miss.len() == diags.len()
    &&& forall|k: int|
        0 <= k < miss.len() ==> 0 <= #[trigger] miss[k] < n && noted_of(
            images[required[miss[k]] as int],
            tokens,
            diags[k],
        )
    &&& forall|j: int, k: int| 0 <= j < k < miss.len() ==> #[trigger] miss[j] < #[trigger] miss[k]
    &&& found.len() + miss.len() == n
}

/// Searching for the target finds it in exactly the builds that hold it once, at its place there, and
/// notes of each of the others that it is missing or how often it is there.
pub proof fn search_tells_of_every_build(
    images: Seq<&ImageInput>,
    required: Seq<usize>,
    tokens: Seq<Option<u8>>,
    n: int,
) -> (miss: Seq<int>)
    requires
        0 <= n <= usize::MAX,
        tokens.len() > 0,
    ensures
        ({
            let (found, diags) = generate::scanned(
                images,
                required,
                pattern::bytes_of(tokens),
                pattern::mask_of(tokens),
                n,
            );
            searched(images, required, tokens, n, found, diags, miss)
        }),
    decreases n,
{
    if n <= 0 {
        Seq::empty()
    } else {
        let before = search_tells_of_every_build(images, required, tokens, n - 1);
        let img = images[required[n - 1] as int];
        located_counts_places(img, tokens);
        located_once_is_one_place(img, tokens);
        let at = cache::located(img, pattern::bytes_of(tokens), pattern::mask_of(tokens));
        let (found, diags) = generate::scanned(
            images,
            required,
            pattern::bytes_of(tokens),
            pattern::mask_of(tokens),
            n,
        );
        if at.0 == 1 {
            assert(sits_at(img, tokens, at.1->0));
            before
        } else {
            assert(noted_of(img, tokens, diags.last()));
            before.push(n - 1)
        }
    }
}

/// Where a pattern is aimed: at the first build that holds it once, where it is there; nowhere only where
/// no build does.
pub proof fn patterns_are_aimed_at_the_first_match(
    images: Seq<&ImageInput>,
    aob: Seq<char>,
    tokens: Seq<Option<u8>>,
)
    requires
        images.len() <= usize::MAX,
        pattern::parsed(aob) == Some(tokens),
    ensures
        ({
            let required = generate::grouped(images, images.len() as int).1;
            match generate::aim_of(images, crate::sigmaker::types::TargetSpecV::Aob(aob)).0 {
                Some(aim) => {
                    &&& aim.place < required.len()
                    &&& sits_at(images[required[aim.place as int] as int], tokens, aim.rva)
                    &&& forall|j: int, rva: u64|
                        0 <= j < aim.place ==> !#[trigger] sits_at(
                            images[required[j] as int],
                            tokens,
                            rva,
                        )
                    &&& aim.seed matches Some(m) && m.len() == tokens.len() && forall|k: int|
                        0 <= k < m.len() ==> (#[trigger] m[k] <==> tokens[k] is Some)
                },
                None => forall|j: int, rva: u64|
                    0 <= j < required.len() ==> !#[trigger] sits_at(
                        images[required[j] as int],
                        tokens,
                        rva,
                    ),
            }
        }),
{
    let n = images.len() as int;
    groups_are_of_equal_code(images, n);
    let required = generate::grouped(images, n).1;
    generate::every_build_is_grouped(images, n);
    let m = required.len() as int;
    let miss = search_tells_of_every_build(images, required, tokens, m);
    let (found, diags) = generate::scanned(
        images,
        required,
        pattern::bytes_of(tokens),
        pattern::mask_of(tokens),
        m,
    );
    let upto = if found.len() > 0 {
        found[0].0 as int
    } else {
        m
    };
    assert forall|j: int, rva: u64| 0 <= j < upto implies !#[trigger] sits_at(
        images[required[j] as int],
        tokens,
        rva,
    ) by {
        located_once_is_one_place(images[required[j] as int], tokens);
        if sits_at(images[required[j] as int], tokens, rva) {
            scanned_finds(images, required, tokens, m, j);
            let k = choose|k: int| 0 <= k < found.len() && (#[trigger] found[k]).0 == j;
            if k > 0 {
                assert(found[0].0 < found[k].0);
            }
        }
    }
}

proof fn scanned_finds(
    images: Seq<&ImageInput>,
    required: Seq<usize>,
    tokens: Seq<Option<u8>>,
    n: int,
    j: int,
)
    requires
        0 <= j < n <= usize::MAX,
        cache::located(
            images[required[j] as int],
            pattern::bytes_of(tokens),
            pattern::mask_of(tokens),
        ).0 == 1,
        cache::located(
            images[required[j] as int],
            pattern::bytes_of(tokens),
            pattern::mask_of(tokens),
        ).1 is Some,
    ensures
        ({
            let found = generate::scanned(
                images,
                required,
                pattern::bytes_of(tokens),
                pattern::mask_of(tokens),
                n,
            ).0;
            exists|k: int| 0 <= k < found.len() && (#[trigger] found[k]).0 == j
        }),
    decreases n,
{
    let found = generate::scanned(
        images,
        required,
        pattern::bytes_of(tokens),
        pattern::mask_of(tokens),
        n,
    ).0;
    let before = generate::scanned(
        images,
        required,
        pattern::bytes_of(tokens),
        pattern::mask_of(tokens),
        n - 1,
    ).0;
    if j < n - 1 {
        scanned_finds(images, required, tokens, n - 1, j);
        let k = choose|k: int| 0 <= k < before.len() && (#[trigger] before[k]).0 == j;
        assert(found[k] == before[k]);
    } else {
        assert(found[before.len() as int].0 == j);
    }
}

/// The place of a grade in the order from A to F.
pub open spec fn step_of(g: Grade) -> int {
    match g {
        Grade::A => 1,
        Grade::B => 2,
        Grade::C => 3,
        Grade::D => 4,
        Grade::F => 5,
    }
}

/// The place of a kind of site: the function itself, then calls, jumps and pointers.
pub open spec fn turn_of(s: Suffix) -> int {
    match s {
        Suffix::Direct => 1,
        Suffix::Call => 2,
        Suffix::Jmp => 3,
        Suffix::Ptr => 4,
    }
}

/// `a` is at least as good as `b`: by grade, then by the fewer wildcards, then by the fewer bytes, then by
/// the kind of site, then by the text.
pub open spec fn at_least_as_good(a: SigCandidateV, b: SigCandidateV) -> bool {
    &&& step_of(a.grade) <= step_of(b.grade)
    &&& a.grade == b.grade ==> a.wildcards <= b.wildcards
    &&& a.grade == b.grade && a.wildcards == b.wildcards ==> a.bytes_len <= b.bytes_len
    &&& a.grade == b.grade && a.wildcards == b.wildcards && a.bytes_len == b.bytes_len ==> turn_of(
        a.suffix,
    ) <= turn_of(b.suffix)
    &&& a.grade == b.grade && a.wildcards == b.wildcards && a.bytes_len == b.bytes_len && a.suffix
        == b.suffix ==> !text::text_before(b.aob, a.aob)
}

/// The chosen signature is at least as good as every alternate, and each alternate as those behind it:
/// the better grade wins, then fewer wildcards, then fewer bytes, then the kind of site, then the text.
pub proof fn chosen_is_best(images: Seq<&ImageInput>, aim: AimV, diagnostics: Seq<DiagV>, opts: SigOptions)
    ensures
        ({
            let r = generate::aimed_report(images, aim, diagnostics, opts);
            &&& r.chosen matches Some(c) ==> forall|i: int|
                0 <= i < r.alternates.len() ==> at_least_as_good(c, #[trigger] r.alternates[i])
            &&& forall|i: int, j: int|
                0 <= i < j < r.alternates.len() ==> at_least_as_good(
                    #[trigger] r.alternates[i],
                    #[trigger] r.alternates[j],
                )
            &&& r.chosen is None ==> r.alternates.len() == 0
        }),
{
    let required = generate::grouped(images, images.len() as int).1;
    let pool = generate::pool_of(images, required, aim, opts);
    let order = generate::ranked(pool);
    generate::ranking_puts_the_best_first(pool);
    assert forall|i: int, j: int| 0 <= i < j < order.len() implies at_least_as_good(
        #[trigger] order[i],
        #[trigger] order[j],
    ) by {
        assert(!generate::better(order[j], order[i]));
    }
    let r = generate::aimed_report(images, aim, diagnostics, opts);
    if order.len() > 0 {
        assert forall|i: int| 0 <= i < r.alternates.len() implies #[trigger] r.alternates[i] == order[i
            + 1] by {}
    }
}

proof fn successes_are_kept(
    images: Seq<&ImageInput>,
    required: Seq<usize>,
    attempts: Seq<Attempt>,
    start: (Seq<SigCandidateV>, Seq<SigCandidateV>),
    n: int,
)
    requires
        0 <= n <= attempts.len(),
    ensures
        ({
            let pool = generate::tried(images, required, attempts, start, n).0;
            &&& pool.len() >= start.0.len()
            &&& forall|k: int| 0 <= k < start.0.len() ==> #[trigger] pool[k] == start.0[k]
            &&& forall|i: int|
                0 <= i < n ==> (succeeded(images, required, #[trigger] attempts[i], None) matches Some(
                    c,
                ) ==> pool.contains(c))
            &&& forall|k: int|
                start.0.len() <= k < pool.len() ==> exists|i: int|
                    0 <= i < n && succeeded(images, required, #[trigger] attempts[i], None) == Some(
                        #[trigger] pool[k],
                    )
        }),
    decreases n,
{
    if n > 0 {
        successes_are_kept(images, required, attempts, start, n - 1);
        let before = generate::tried(images, required, attempts, start, n - 1).0;
        let pool = generate::tried(images, required, attempts, start, n).0;
        assert(pool == generate::joined_by(
            before,
            succeeded(images, required, attempts[n - 1], None),
        )) by {
            reveal(succeeded);
        }
        assert forall|i: int| 0 <= i < n implies (succeeded(
            images,
            required,
            #[trigger] attempts[i],
            None,
        ) matches Some(c) ==> pool.contains(c)) by {
            if let Some(c) = succeeded(images, required, attempts[i], None) {
                if i < n - 1 {
                    assert(before.contains(c));
                    let k = choose|k: int| 0 <= k < before.len() && before[k] == c;
                    assert(pool[k] == c);
                } else {
                    assert(pool[before.len() as int] == c);
                }
            }
        }
        assert forall|k: int| start.0.len() <= k < pool.len() implies exists|i: int|
            0 <= i < n && succeeded(images, required, #[trigger] attempts[i], None) == Some(
                #[trigger] pool[k],
            ) by {
            if k < before.len() {
                assert(pool[k] == before[k]);
                let i = choose|i: int|
                    0 <= i < n - 1 && succeeded(images, required, #[trigger] attempts[i], None)
                        == Some(before[k]);
                assert(succeeded(images, required, attempts[i], None) == Some(pool[k]));
            } else {
                assert(succeeded(images, required, attempts[n - 1], None) == Some(pool[k]));
            }
        }
    }
}

/// The signature found at a site, if one was.
#[verifier::opaque]
pub open spec fn succeeded(
    images: Seq<&ImageInput>,
    required: Seq<usize>,
    a: Attempt,
    seed: Option<Seq<bool>>,
) -> Option<SigCandidateV> {
    candidates::candidates_at(images, required, a, seed).0
}

/// The attempt at the target itself.
pub open spec fn own_attempt(ref_idx: usize, rva: u64, packed: bool, opts: SigOptions) -> Attempt {
    Attempt {
        ref_idx,
        site_rva: rva,
        suffix: Suffix::Direct,
        anchor: Anchor::Direct,
        packed,
        opts,
    }
}

/// The attempts at the calls, the jumps and the pointers to the target: each of the first two dozen of a
/// kind, with its kind, in the code of the build the target is in.
pub open spec fn attempts_are(
    img: &ImageInput,
    ref_idx: usize,
    rva: u64,
    packed: bool,
    opts: SigOptions,
    attempts: Seq<Attempt>,
) -> bool {
    let target = (img.base + rva) as usize;
    let code = cache::code_of(img);
    let calls = candidates::all_branches(img.arch, img.base as int, code, target, true, 0);
    let jumps = candidates::all_branches(img.arch, img.base as int, code, target, false, 0);
    let ptrs = candidates::all_references(img.arch, img.base as int, code, target, 0);
    let m = if calls.len() < 24 {
        calls.len() as int
    } else {
        24
    };
    let n = if jumps.len() < 24 {
        jumps.len() as int
    } else {
        24
    };
    let o = if ptrs.len() < 24 {
        ptrs.len() as int
    } else {
        24
    };
    &&& attempts.len() == m + n + o
    &&& forall|k: int|
        0 <= k < attempts.len() ==> (#[trigger] attempts[k]).ref_idx == ref_idx && attempts[k].packed
            == packed && attempts[k].opts == opts
    &&& forall|k: int|
        0 <= k < m ==> (#[trigger] attempts[k]).site_rva == calls[k] && attempts[k].suffix
            == Suffix::Call && attempts[k].anchor == Anchor::Branch
    &&& forall|k: int|
        m <= k < m + n ==> (#[trigger] attempts[k]).site_rva == jumps[k - m] && attempts[k].suffix
            == Suffix::Jmp && attempts[k].anchor == Anchor::Branch
    &&& forall|k: int|
        m + n <= k < m + n + o ==> (#[trigger] attempts[k]).site_rva == ptrs[k - m - n].0
            && attempts[k].suffix == Suffix::Ptr && attempts[k].anchor == (Anchor::Ptr {
            rip: ptrs[k - m - n].1,
        })
}

/// Every site that gives a signature has it in the pool, and the pool holds nothing else: the target
/// itself, then its calls, jumps and pointers. Other ways of finding the target are tried only where no
/// site gives one.
pub proof fn every_site_is_tried(
    images: Seq<&ImageInput>,
    required: Seq<usize>,
    aim: AimV,
    opts: SigOptions,
) -> (attempts: Seq<Attempt>)
    ensures
        ({
            let ref_idx = required[aim.place as int];
            let packed = exists|i: int| 0 <= i < images.len() && (#[trigger] images[i]).packed;
            let own = succeeded(
                images,
                required,
                own_attempt(ref_idx, aim.rva, packed, opts),
                aim.seed,
            );
            let pool = generate::byte_candidates(images, required, aim, opts).0;
            &&& attempts_are(
                images[ref_idx as int],
                ref_idx,
                aim.rva,
                packed,
                opts,
                attempts,
            )
            &&& own matches Some(c) ==> pool.len() > 0 && pool[0] == c
            &&& forall|i: int|
                0 <= i < attempts.len() ==> (succeeded(
                    images,
                    required,
                    #[trigger] attempts[i],
                    None,
                ) matches Some(c) ==> pool.contains(c))
            &&& forall|k: int|
                0 <= k < pool.len() ==> own == Some(#[trigger] pool[k]) || exists|i: int|
                    0 <= i < attempts.len() && succeeded(
                        images,
                        required,
                        #[trigger] attempts[i],
                        None,
                    ) == Some(pool[k])
            &&& pool.len() > 0 ==> generate::pool_of(images, required, aim, opts) == pool
        }),
{
    let ref_idx = required[aim.place as int];
    let packed = landing::any_packed(images);
    let attempts = generate::indirect_sites(
        images[ref_idx as int],
        ref_idx,
        aim.rva,
        packed,
        opts,
    );
    let direct = candidates::candidates_at(
        images,
        required,
        own_attempt(ref_idx, aim.rva, packed, opts),
        aim.seed,
    );
    assert(direct.0 == succeeded(
        images,
        required,
        own_attempt(ref_idx, aim.rva, packed, opts),
        aim.seed,
    )) by {
        reveal(succeeded);
    }
    let start = (generate::joined_by(Seq::empty(), direct.0), direct.1);
    successes_are_kept(images, required, attempts, start, attempts.len() as int);
    attempts
}

/// Build number `i` is the first with the code of build number `image`.
pub open spec fn first_of_its_code(images: Seq<&ImageInput>, image: int, i: int) -> bool {
    &&& 0 <= i <= image
    &&& images[i].code_hash == images[image].code_hash
    &&& forall|j: int| 0 <= j < i ==> (#[trigger] images[j]).code_hash != images[image].code_hash
}

proof fn first_with_is_first(images: Seq<&ImageInput>, image: int, n: int)
    requires
        0 <= n <= image < images.len(),
        forall|j: int| 0 <= j < n ==> (#[trigger] images[j]).code_hash != images[image].code_hash,
    ensures
        generate::first_with(images, images[image].code_hash, n) matches Some(i)
            && first_of_its_code(images, image, i),
    decreases image - n,
{
    if images[n].code_hash != images[image].code_hash {
        first_with_is_first(images, image, n + 1);
    }
}

/// Row number `k` is the first with this label.
pub open spec fn first_row(rows: Seq<PerVersionV>, label: Seq<char>, k: int) -> bool {
    &&& 0 <= k < rows.len()
    &&& rows[k].label == label
    &&& forall|j: int| 0 <= j < k ==> (#[trigger] rows[j]).label != label
}

proof fn row_is_first(rows: Seq<PerVersionV>, label: Seq<char>, n: int)
    requires
        0 <= n <= rows.len(),
        forall|j: int| 0 <= j < n ==> (#[trigger] rows[j]).label != label,
    ensures
        match generate::row_of(rows, label, n) {
            Some(row) => exists|k: int| #[trigger] first_row(rows, label, k) && row == rows[k],
            None => forall|k: int| 0 <= k < rows.len() ==> (#[trigger] rows[k]).label != label,
        },
    decreases rows.len() - n,
{
    if n < rows.len() {
        if rows[n].label == label {
            assert(first_row(rows, label, n));
        } else {
            row_is_first(rows, label, n + 1);
        }
    }
}

/// Where the chosen signature points in a build is what its row for the first build of the same code says:
/// the target it leads to, or where it leads to none its own place.
pub proof fn chosen_points_by_its_row(
    images: Seq<&ImageInput>,
    c: SigCandidateV,
    image: usize,
    i: int,
    k: int,
)
    requires
        image < images.len(),
        first_of_its_code(images, image as int, i),
    ensures
        first_row(c.per_version, images[i].label@, k) ==> generate::pointed_at(
            images,
            Some(c),
            image,
        ) == (match c.per_version[k].resolved_target_rva {
            Some(rva) => Some(rva),
            None => c.per_version[k].match_rva,
        }),
        (forall|j: int|
            0 <= j < c.per_version.len() ==> (#[trigger] c.per_version[j]).label != images[i].label@)
            ==> generate::pointed_at(images, Some(c), image) is None,
        generate::pointed_at(images, None, image) is None,
{
    first_with_is_first(images, image as int, 0);
    let f = generate::first_with(images, images[image as int].code_hash, 0)->0;
    assert(f == i) by {
        if f < i {
            assert(images[f].code_hash != images[image as int].code_hash);
        }
        if i < f {
            assert(images[i].code_hash != images[image as int].code_hash);
        }
    }
    let label = images[i].label@;
    assert(generate::reported_label(images, image) == label);
    row_is_first(c.per_version, label, 0);
    if first_row(c.per_version, label, k) {
        if generate::row_of(c.per_version, label, 0) is None {
            assert(c.per_version[k].label != label);
        } else {
            let row = generate::row_of(c.per_version, label, 0)->0;
            let j = choose|j: int| #[trigger]
                first_row(c.per_version, label, j) && row == c.per_version[j];
            if j < k {
                assert(c.per_version[j].label != label);
            }
            if k < j {
                assert(c.per_version[k].label != label);
            }
        }
    }
}

}
