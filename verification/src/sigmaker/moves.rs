//! When a function counts as found again in other builds: what each way of looking asks for, and how the
//! ways vote.

use crate::domain::StringAnchorV;
use crate::pattern::Arch;
use crate::sigmaker::callers;
use crate::sigmaker::channels;
use crate::sigmaker::channels::Channel;
use crate::sigmaker::constants;
use crate::sigmaker::encoding;
use crate::sigmaker::ensemble;
use crate::sigmaker::ensemble::LandingV;
use crate::sigmaker::graph;
use crate::sigmaker::identity;
use crate::sigmaker::identity::IdentityV;
use crate::sigmaker::imports;
use crate::sigmaker::judgements::agreement_is_the_least_likeness;
use crate::sigmaker::landing;
use crate::sigmaker::partial;
use crate::sigmaker::relocate;
use crate::sigmaker::scoring;
use crate::sigmaker::strings;
use crate::sigmaker::types::{Grade, ImageInput, PerVersionV, SigCandidateV, SigOptions};
use crate::sigmaker::vtable;
use crate::sigmaker::vtable::VtableAnchorV;
use vstd::prelude::*;

verus! {

/// A similarity of `n` percent or more.
pub open spec fn at_least_percent(sim: int, n: int) -> bool {
    100 * sim >= n * 1_000_000_000_000
}

/// Every one of the functions is alike to the first by `n` percent or more.
pub open spec fn all_alike(ids: Seq<IdentityV>, n: int) -> bool {
    forall|k: int|
        1 <= k < ids.len() ==> at_least_percent(
            identity::likeness(ids[0], #[trigger] ids[k]) as int,
            n,
        )
}

proof fn mutual_is_all_alike(ids: Seq<IdentityV>, n: int)
    requires
        0 <= n <= 100,
    ensures
        at_least_percent(landing::mutual_of(ids) as int, n) <==> all_alike(ids, n),
{
    agreement_is_the_least_likeness(ids);
    if let Some(m) = scoring::agreement_of(ids) {
        let k = choose|k: int| 1 <= k < ids.len() && m == identity::likeness(ids[0], #[trigger] ids[k]);
        if all_alike(ids, n) {
            assert(at_least_percent(identity::likeness(ids[0], ids[k]) as int, n));
        }
        if at_least_percent(m as int, n) {
            assert forall|j: int| 1 <= j < ids.len() implies at_least_percent(
                identity::likeness(ids[0], #[trigger] ids[j]) as int,
                n,
            ) by {}
        }
    }
}

/// A string anchor leads to a function in each of the builds: `at` lists them.
pub open spec fn strings_lead(
    images: Seq<&ImageInput>,
    required: Seq<usize>,
    a: StringAnchorV,
    at: Seq<u64>,
) -> bool {
    &&& at.len() == required.len()
    &&& forall|k: int|
        0 <= k < at.len() ==> strings::anchored(images[required[k] as int], a) == Some(
            #[trigger] at[k] as usize,
        ) && at[k] <= usize::MAX
}

proof fn string_places_are_each(images: Seq<&ImageInput>, required: Seq<usize>, a: StringAnchorV, n: int)
    requires
        0 <= n <= required.len(),
    ensures
        match relocate::string_places(images, required, a, n) {
            Some(at) => strings_lead(images, required.take(n), a, at),
            None => exists|k: int|
                0 <= k < n && strings::anchored(images[#[trigger] required[k] as int], a) is None,
        },
    decreases n,
{
    if n > 0 {
        string_places_are_each(images, required, a, n - 1);
        let img = images[required[n - 1] as int];
        match (
            relocate::string_places(images, required, a, n - 1),
            strings::anchored(img, a),
        ) {
            (Some(before), Some(f)) => {
                let at = before.push(f as u64);
                assert forall|k: int| 0 <= k < at.len() implies strings::anchored(
                    images[required.take(n)[k] as int],
                    a,
                ) == Some(#[trigger] at[k] as usize) && at[k] <= usize::MAX by {
                    if k < n - 1 {
                        assert(at[k] == before[k]);
                        assert(required.take(n)[k] == required.take(n - 1)[k]);
                    }
                }
            },
            (Some(_), None) => {
                assert(strings::anchored(images[required[n - 1] as int], a) is None);
            },
            (None, _) => {
                let k = choose|k: int|
                    0 <= k < n - 1 && strings::anchored(images[#[trigger] required[k] as int], a) is None;
                assert(strings::anchored(images[required[k] as int], a) is None);
            },
        }
    }
}

/// By strings a function is found again exactly where its strings make an anchor that leads to a function
/// in every build, and each row says to which. One build alone is not worth an A; and a single string
/// whose landings are less than 30 percent alike is worth a C at most.
pub proof fn string_relocations_lead_everywhere(
    images: Seq<&ImageInput>,
    required: Seq<usize>,
    ref_idx: usize,
    ref_rva: u64,
    opts: SigOptions,
)
    requires
        required.len() <= usize::MAX,
    ensures
        ({
            let entry = strings::enclosing(images[ref_idx as int], ref_rva as int);
            let anchor = strings::string_anchor_of(images[ref_idx as int], entry);
            match relocate::string_candidate(images, required, ref_idx, ref_rva, opts) {
                Some(c) => anchor matches Some(a) && exists|at: Seq<u64>| #[trigger]
                    strings_lead(images, required, a, at) && c.per_version.len() == at.len() && (
                    forall|k: int|
                        0 <= k < at.len() ==> (#[trigger] c.per_version[k]).resolved_target_rva == Some(
                            at[k],
                        ) && c.per_version[k].label == images[required[k] as int].label@) && (
                    required.len() < 2 ==> c.grade != Grade::A) && (a.also is None && required.len()
                        >= 2 && !all_alike(landing::identities(images, required, at), 30)
                        ==> c.grade != Grade::A && c.grade != Grade::B),
                None => anchor is None || exists|k: int|
                    0 <= k < required.len() && strings::anchored(
                        images[#[trigger] required[k] as int],
                        anchor->0,
                    ) is None,
            }
        }),
{
    let entry = strings::enclosing(images[ref_idx as int], ref_rva as int);
    if let Some(a) = strings::string_anchor_of(images[ref_idx as int], entry) {
        let n = required.len() as int;
        string_places_are_each(images, required, a, n);
        assert(required.take(n) =~= required);
        if let Some(at) = relocate::string_places(images, required, a, n) {
            let c = relocate::string_candidate(images, required, ref_idx, ref_rva, opts)->0;
            let ids = landing::identities(images, required, at);
            assert(strings_lead(images, required, a, at));
            mutual_is_all_alike(ids, 30);
            assert(ids.len() == n);
        }
    }
}

/// A constant leads to a function in each of the builds: `at` lists where those start.
pub open spec fn constants_lead(
    images: Seq<&ImageInput>,
    required: Seq<usize>,
    value: u64,
    at: Seq<u64>,
) -> bool {
    &&& at.len() == required.len()
    &&& forall|k: int|
        0 <= k < at.len() ==> constant_leads_to(images[required[k] as int], value, #[trigger] at[k])
}

/// A constant leads to the function that starts here.
pub open spec fn constant_leads_to(img: &ImageInput, value: u64, rva: u64) -> bool {
    constants::constant_anchored(img, value) matches Some(f) && rva == strings::enclosing(
        img,
        f as int,
    ) as u64
}

/// The constant leads to no one function in one of the first `n` builds.
pub open spec fn constant_misses(
    images: Seq<&ImageInput>,
    required: Seq<usize>,
    value: u64,
    n: int,
) -> bool {
    exists|k: int|
        0 <= k < n && constants::constant_anchored(images[#[trigger] required[k] as int], value) is None
}

proof fn constant_places_are_each(images: Seq<&ImageInput>, required: Seq<usize>, value: u64, n: int)
    requires
        0 <= n <= required.len(),
    ensures
        match relocate::constant_places(images, required, value, n) {
            Some(at) => constants_lead(images, required.take(n), value, at),
            None => constant_misses(images, required, value, n),
        },
    decreases n,
{
    if n > 0 {
        constant_places_are_each(images, required, value, n - 1);
        let img = images[required[n - 1] as int];
        match (
            relocate::constant_places(images, required, value, n - 1),
            constants::constant_anchored(img, value),
        ) {
            (Some(before), Some(f)) => {
                let at = before.push(strings::enclosing(img, f as int) as u64);
                assert forall|k: int| 0 <= k < at.len() implies constant_leads_to(
                    images[required.take(n)[k] as int],
                    value,
                    #[trigger] at[k],
                ) by {
                    if k < n - 1 {
                        assert(at[k] == before[k]);
                        assert(required.take(n)[k] == required.take(n - 1)[k]);
                    }
                }
                assert(relocate::constant_places(images, required, value, n) == Some(at));
                assert(constants_lead(images, required.take(n), value, at));
            },
            (Some(_), None) => {
                assert(relocate::constant_places(images, required, value, n) is None);
                assert(constants::constant_anchored(images[required[n - 1] as int], value) is None);
            },
            (None, _) => {
                let k = choose|k: int|
                    0 <= k < n - 1 && constants::constant_anchored(
                        images[#[trigger] required[k] as int],
                        value,
                    ) is None;
                assert(constants::constant_anchored(images[required[k] as int], value) is None);
                assert(relocate::constant_places(images, required, value, n) is None);
            },
        }
    }
}

/// By a constant a function is found again exactly where it uses one that is in its code once, which leads
/// to one function in every build, and those are 30 percent alike or more.
pub proof fn constant_relocations_lead_everywhere(
    images: Seq<&ImageInput>,
    required: Seq<usize>,
    ref_idx: usize,
    ref_rva: u64,
    opts: SigOptions,
)
    ensures
        ({
            let img = images[ref_idx as int];
            let entry = strings::enclosing(img, ref_rva as int);
            let lone = constants::lone_constant(img, constants::constants_of(img, entry), 0);
            match relocate::constant_candidate(images, required, ref_idx, ref_rva, opts) {
                Some(c) => lone matches Some(value) && exists|at: Seq<u64>| #[trigger]
                    constants_lead(images, required, value, at) && c.per_version.len() == at.len() && (
                    forall|k: int|
                        0 <= k < at.len() ==> (#[trigger] c.per_version[k]).resolved_target_rva == Some(
                            at[k],
                        )) && all_alike(landing::identities(images, required, at), 30),
                None => lone is None || constant_misses(
                    images,
                    required,
                    lone->0,
                    required.len() as int,
                ) || exists|at: Seq<u64>| #[trigger]
                    constants_lead(images, required, lone->0, at) && !all_alike(
                        landing::identities(images, required, at),
                        30,
                    ),
            }
        }),
{
    let img = images[ref_idx as int];
    let entry = strings::enclosing(img, ref_rva as int);
    if let Some(value) = constants::lone_constant(img, constants::constants_of(img, entry), 0) {
        let n = required.len() as int;
        constant_places_are_each(images, required, value, n);
        assert(required.take(n) =~= required);
        if let Some(at) = relocate::constant_places(images, required, value, n) {
            let ids = landing::identities(images, required, at);
            assert(constants_lead(images, required, value, at));
            mutual_is_all_alike(ids, 30);
        }
    }
}

/// By its fingerprint a function is matched in an x86 build only where the best match is 82 percent alike
/// or more and six points ahead of the runner-up.
pub proof fn clear_matches_are_far_ahead(img: &ImageInput, reference: IdentityV)
    ensures
        ({
            let b = identity::best_among(
                identity::boundary_identities(img, img.code_regions@.len() as int),
                reference,
            );
            match relocate::clear_match(img, reference) {
                Some(m) => img.arch == Arch::X86 && b.best == Some(m) && at_least_percent(
                    m.1 as int,
                    82,
                ) && at_least_percent(m.1 - b.runner_up, 6),
                None => img.arch != Arch::X86 || match b.best {
                    Some((rva, sim, id)) => !at_least_percent(sim as int, 82) || !at_least_percent(
                        sim - b.runner_up,
                        6,
                    ),
                    None => true,
                },
            }
        }),
{
}

/// Each of the builds has this clear match.
pub open spec fn matched_everywhere(
    images: Seq<&ImageInput>,
    required: Seq<usize>,
    reference: IdentityV,
    ms: Seq<(usize, u64, IdentityV)>,
) -> bool {
    &&& ms.len() == required.len()
    &&& forall|k: int|
        0 <= k < ms.len() ==> relocate::clear_match(images[required[k] as int], reference) == Some(
            #[trigger] ms[k],
        )
}

proof fn clear_matches_are_each(
    images: Seq<&ImageInput>,
    required: Seq<usize>,
    reference: IdentityV,
    n: int,
)
    requires
        0 <= n <= required.len(),
    ensures
        match relocate::clear_matches(images, required, reference, n) {
            Some(ms) => matched_everywhere(images, required.take(n), reference, ms),
            None => exists|k: int|
                0 <= k < n && relocate::clear_match(
                    images[#[trigger] required[k] as int],
                    reference,
                ) is None,
        },
    decreases n,
{
    if n > 0 {
        clear_matches_are_each(images, required, reference, n - 1);
        let img = images[required[n - 1] as int];
        match (
            relocate::clear_matches(images, required, reference, n - 1),
            relocate::clear_match(img, reference),
        ) {
            (Some(before), Some(m)) => {
                let ms = before.push(m);
                assert forall|k: int| 0 <= k < ms.len() implies relocate::clear_match(
                    images[required.take(n)[k] as int],
                    reference,
                ) == Some(#[trigger] ms[k]) by {
                    if k < n - 1 {
                        assert(ms[k] == before[k]);
                        assert(required.take(n)[k] == required.take(n - 1)[k]);
                    }
                }
            },
            (Some(_), None) => {
                assert(relocate::clear_match(images[required[n - 1] as int], reference) is None);
            },
            (None, _) => {
                let k = choose|k: int|
                    0 <= k < n - 1 && relocate::clear_match(
                        images[#[trigger] required[k] as int],
                        reference,
                    ) is None;
                assert(relocate::clear_match(images[required[k] as int], reference) is None);
            },
        }
    }
}

/// By its fingerprint a function of six instructions or more is found again exactly where every build has
/// a clear match and the matches are 82 percent alike or more.
pub proof fn fingerprint_relocations_match_everywhere(
    images: Seq<&ImageInput>,
    required: Seq<usize>,
    ref_idx: usize,
    ref_rva: u64,
    opts: SigOptions,
)
    ensures
        ({
            let img = images[ref_idx as int];
            let reference = identity::identity_at(
                img,
                strings::enclosing(img, ref_rva as int),
            );
            match relocate::fingerprint_candidate(images, required, ref_idx, ref_rva, opts) {
                Some(c) => img.arch == Arch::X86 && reference.instr_count >= 6 && exists|
                    ms: Seq<(usize, u64, IdentityV)>,
                | #[trigger]
                    matched_everywhere(images, required, reference, ms) && all_alike(
                        relocate::match_identities(ms),
                        82,
                    ) && c.per_version.len() == ms.len() && forall|k: int|
                        0 <= k < ms.len() ==> (#[trigger] c.per_version[k]).resolved_target_rva == Some(
                            ms[k].0 as u64,
                        ),
                None => img.arch != Arch::X86 || reference.instr_count < 6 || (exists|k: int|
                    0 <= k < required.len() && relocate::clear_match(
                        images[#[trigger] required[k] as int],
                        reference,
                    ) is None) || exists|ms: Seq<(usize, u64, IdentityV)>| #[trigger]
                    matched_everywhere(images, required, reference, ms) && !all_alike(
                        relocate::match_identities(ms),
                        82,
                    ),
            }
        }),
{
    let img = images[ref_idx as int];
    let reference = identity::identity_at(img, strings::enclosing(img, ref_rva as int));
    let n = required.len() as int;
    clear_matches_are_each(images, required, reference, n);
    assert(required.take(n) =~= required);
    if let Some(ms) = relocate::clear_matches(images, required, reference, n) {
        assert(matched_everywhere(images, required, reference, ms));
        mutual_is_all_alike(relocate::match_identities(ms), 82);
    }
}

/// By the shapes of its instructions a function is matched in an x86 build only where one place is the best
/// by itself: 95 percent alike or more, and two points ahead of the runner-up.
pub proof fn clear_encodings_are_far_ahead(img: &ImageInput, reference: Seq<u64>)
    ensures
        ({
            let m = encoding::encoding_match(img, reference);
            match relocate::clear_encoding(img, reference) {
                Some(x) => img.arch == Arch::X86 && reference.len() > 0 && m.best == Some(x) && m.ties
                    == 1 && at_least_percent(x.1 as int, 95) && at_least_percent(
                    x.1 - m.runner_up,
                    2,
                ),
                None => img.arch != Arch::X86 || reference.len() == 0 || m.ties != 1 || match m.best {
                    Some((rva, sim)) => !at_least_percent(sim as int, 95) || !at_least_percent(
                        sim - m.runner_up,
                        2,
                    ),
                    None => true,
                },
            }
        }),
{
}

/// By its imports a function is followed into a build only where they lead to a function that is 50 percent
/// alike or more.
pub proof fn import_steps_are_half_alike(img: &ImageInput, names: Seq<Seq<char>>, source: IdentityV)
    ensures
        match partial::import_edge(img, names, source) {
            Some((f, sim)) => f <= usize::MAX && imports::import_anchored(img, names) == Some(f as usize)
                && sim == identity::likeness(
                identity::identity_at(img, f as int),
                source,
            ) && at_least_percent(sim as int, 50),
            None => imports::import_anchored(img, names) matches Some(f) ==> !at_least_percent(
                identity::likeness(identity::identity_at(img, f as int), source) as int,
                50,
            ),
        },
{
    if let Some(f) = imports::import_anchored(img, names) {
        identity::likeness_is_a_share(identity::identity_at(img, f as int), source);
    }
}

/// By its table a function is followed into a build only where the table agrees by 72 percent or more, is
/// ten points ahead, and the function there is 30 percent alike or more.
pub proof fn table_steps_agree(img: &ImageInput, a: VtableAnchorV, source: IdentityV)
    requires
        vtable::vtable_anchored(img, a) matches Some((f, agree, next)) ==> next <= agree
            <= 1_000_000_000_000,
    ensures
        partial::vtable_edge(img, a, source) is Some <==> (vtable::vtable_anchored(
            img,
            a,
        ) matches Some((f, agree, next)) && at_least_percent(agree as int, 72) && at_least_percent(
            agree - next,
            10,
        ) && at_least_percent(
            identity::likeness(identity::identity_at(img, f as int), source) as int,
            30,
        )),
        partial::vtable_edge(img, a, source) matches Some((f, sim)) ==> (vtable::vtable_anchored(
            img,
            a,
        ) matches Some((g, agree, next)) && f == g && sim == agree),
{
}

/// The builds in which the function was reached.
pub open spec fn reached_builds(at: Seq<Option<u64>>) -> Set<int> {
    Set::new(|k: int| 0 <= k < at.len() && at[k] is Some)
}

proof fn reached_are_counted(at: Seq<Option<u64>>)
    ensures
        reached_builds(at).finite(),
        landing::reached_count(at) == reached_builds(at).len(),
    decreases at.len(),
{
    if at.len() == 0 {
        assert(reached_builds(at) =~= Set::<int>::empty());
    } else {
        let d = at.drop_last();
        reached_are_counted(d);
        if at.last() is Some {
            assert(reached_builds(at) =~= reached_builds(d).insert(at.len() - 1));
        } else {
            assert(reached_builds(at) =~= reached_builds(d));
        }
    }
}

/// A relocation that reaches some of the builds counts only where it reaches two or more and what it
/// reaches is alike enough; and each row says what was reached there, or nothing.
pub proof fn partial_relocations_reach_two(
    images: Seq<&ImageInput>,
    required: Seq<usize>,
    at: Seq<Option<u64>>,
    ref_idx: usize,
    least: Option<u64>,
    floor: u64,
    aob: Seq<char>,
    lead: Seq<char>,
    unreached: Option<Seq<char>>,
    opts: SigOptions,
)
    requires
        floor <= 100,
        at.len() == required.len(),
    ensures
        ({
            let ids = landing::reached_identities(images, required, at, required.len() as int);
            let r = partial::partial_relocation(
                images,
                required,
                at,
                ref_idx,
                least,
                floor,
                aob,
                lead,
                unreached,
                opts,
            );
            &&& r is Some <==> reached_builds(at).len() >= 2 && all_alike(ids, floor as int)
            &&& r matches Some(c) ==> c.per_version.len() == at.len() && c.aob == aob && forall|k: int|
                0 <= k < at.len() ==> (#[trigger] c.per_version[k]).resolved_target_rva == at[k]
                    && c.per_version[k].label == images[required[k] as int].label@
        }),
{
    reached_are_counted(at);
    let ids = landing::reached_identities(images, required, at, required.len() as int);
    mutual_is_all_alike(ids, floor as int);
}

/// The call graph leads to a function in another build only where two or more of the strings near the
/// target lead there.
pub proof fn graph_landings_need_two_seeds(reference: &ImageInput, img: &ImageInput, entry: int)
    ensures
        partial::graph_landing(reference, img, entry) is Some ==> graph::seeds_in(
            img,
            partial::graph_anchors(reference, entry),
        ).len() >= 2,
{
}

/// By the call graph an x86 function is found again exactly where two or more of its neighbours have
/// strings of their own and two or more of the builds are reached, its own among them.
pub proof fn graph_relocations_reach_two(
    images: Seq<&ImageInput>,
    required: Seq<usize>,
    ref_idx: usize,
    ref_rva: u64,
    opts: SigOptions,
)
    ensures
        ({
            let img = images[ref_idx as int];
            let entry = strings::enclosing(img, ref_rva as int);
            let at = partial::graph_places(images, required, ref_idx, entry);
            let r = partial::graph_candidate(images, required, ref_idx, ref_rva, opts);
            &&& r is Some <==> img.arch == Arch::X86 && partial::graph_anchors(img, entry).len() >= 2
                && reached_builds(at).len() >= 2
            &&& forall|k: int|
                0 <= k < required.len() && required[k] == ref_idx ==> #[trigger] at[k] == Some(
                    entry as u64,
                )
            &&& r matches Some(c) ==> c.per_version.len() == at.len() && forall|k: int|
                0 <= k < at.len() ==> (#[trigger] c.per_version[k]).resolved_target_rva == at[k]
        }),
{
    let img = images[ref_idx as int];
    let entry = strings::enclosing(img, ref_rva as int);
    reached_are_counted(partial::graph_places(images, required, ref_idx, entry));
}

/// Two landings agree: they share a build, and lead to the same function in every build they share.
pub open spec fn agree(a: LandingV, b: LandingV) -> bool {
    &&& exists|label: Seq<char>| #[trigger] a(label) is Some && b(label) is Some
    &&& forall|label: Seq<char>| #[trigger] a(label) is Some && b(label) is Some ==> a(label) == b(label)
}

/// Two landings contradict each other: they lead to different functions in some build.
pub open spec fn contradict(a: LandingV, b: LandingV) -> bool {
    exists|label: Seq<char>| #[trigger] a(label) is Some && b(label) is Some && a(label) != b(label)
}

proof fn verdicts_are_agreement(a: LandingV, b: LandingV)
    ensures
        ensemble::verdict(a, b) == Some(true) <==> agree(a, b),
        ensemble::verdict(a, b) == Some(false) <==> contradict(a, b),
{
    if agree(a, b) {
        let label = choose|label: Seq<char>| #[trigger] a(label) is Some && b(label) is Some;
        assert(ensemble::both_hold(a, b, label));
        assert forall|l: Seq<char>| #[trigger] ensemble::both_hold(a, b, l) implies a(l) == b(l) by {}
    }
    if contradict(a, b) {
        let label = choose|label: Seq<char>| #[trigger]
            a(label) is Some && b(label) is Some && a(label) != b(label);
        assert(ensemble::both_hold(a, b, label));
    }
    if ensemble::verdict(a, b) is Some {
        let label = choose|label: Seq<char>| #[trigger] ensemble::both_hold(a, b, label);
        assert(a(label) is Some && b(label) is Some);
        if ensemble::verdict(a, b) == Some(true) {
            assert forall|l: Seq<char>| #[trigger] a(l) is Some && b(l) is Some implies a(l) == b(l) by {
                assert(ensemble::both_hold(a, b, l));
            }
        } else {
            let l = choose|l: Seq<char>| #[trigger] ensemble::both_hold(a, b, l) && a(l) != b(l);
            assert(a(l) is Some && b(l) is Some);
        }
    }
}

/// The ways before `n` that agree with way number `i`.
pub open spec fn friends(landings: Seq<LandingV>, i: int, n: int) -> Set<int> {
    Set::new(|j: int| 0 <= j < n && j != i && agree(landings[i], landings[j]))
}

proof fn corroborators_are_friends(landings: Seq<LandingV>, i: int, n: int)
    requires
        0 <= n <= landings.len() <= usize::MAX,
    ensures
        friends(landings, i, n).finite(),
        ensemble::corroborators(landings, i, n).len() == friends(landings, i, n).len(),
        forall|k: int|
            0 <= k < ensemble::corroborators(landings, i, n).len() ==> friends(
                landings,
                i,
                n,
            ).contains(#[trigger] ensemble::corroborators(landings, i, n)[k] as int),
    decreases n,
{
    if n <= 0 {
        assert(friends(landings, i, n) =~= Set::<int>::empty());
    } else {
        corroborators_are_friends(landings, i, n - 1);
        verdicts_are_agreement(landings[i], landings[n - 1]);
        let before = friends(landings, i, n - 1);
        if n - 1 != i && agree(landings[i], landings[n - 1]) {
            assert(friends(landings, i, n) =~= before.insert(n - 1));
        } else {
            assert(friends(landings, i, n) =~= before);
        }
        let was = ensemble::corroborators(landings, i, n - 1);
        let now = ensemble::corroborators(landings, i, n);
        assert forall|k: int| 0 <= k < now.len() implies friends(landings, i, n).contains(
            #[trigger] now[k] as int,
        ) by {
            if k < was.len() {
                assert(now[k] == was[k]);
                assert(before.contains(was[k] as int));
            }
        }
    }
}

/// Another way contradicts way number `w`.
pub open spec fn contradicted(landings: Seq<LandingV>, w: int) -> bool {
    exists|j: int|
        0 <= j < landings.len() && j != w && contradict(landings[w], #[trigger] landings[j])
}

/// Way number `w` carries the vote, and this is what is made of it.
pub open spec fn carried(
    landings: Seq<LandingV>,
    found: Seq<(Channel, SigCandidateV)>,
    r: SigCandidateV,
    w: int,
) -> bool {
    let n = found.len() as int;
    let mine = friends(landings, w, n).len();
    let lonely = contradicted(landings, w) && mine == 0;
    &&& 0 <= w < n
    &&& forall|j: int| 0 <= j < n ==> (#[trigger] friends(landings, j, n)).len() <= mine
    &&& forall|j: int|
        0 <= j < n && (#[trigger] friends(landings, j, n)).len() == mine
            ==> found[w].1.grade.rank() <= found[j].1.grade.rank()
    &&& r.aob == found[w].1.aob
    &&& r.per_version == found[w].1.per_version
    &&& r.relocation matches Some(l) && l.anchor == found[w].0.name() && l.support == mine + 1
        && l.corroborators.len() == mine && (l.conflict <==> contradicted(landings, w))
    &&& lonely ==> r.grade != Grade::A && r.grade != Grade::B
    &&& !lonely ==> r.grade == found[w].1.grade
}

/// The vote takes the way that most others agree with, and of those with as many the best graded. It is
/// reported with how many stand for it and whether any contradicts it; and where one does and none agrees,
/// it is worth a C at most.
pub proof fn the_vote_takes_the_best_supported(
    images: Seq<&ImageInput>,
    found: Seq<(Channel, SigCandidateV)>,
)
    requires
        0 < found.len() <= 1000,
    ensures
        ({
            let landings = channels::landings_of(images, found);
            let r = channels::voted(images, found);
            exists|w: int| #[trigger] carried(landings, found, r, w)
        }),
{
    let landings = channels::landings_of(images, found);
    let ranks = channels::ranks_of(found);
    let n = found.len() as int;
    let w = ensemble::winner(landings, ranks, n);
    ensemble::winner_is_best(landings, ranks, n, 0);
    corroborators_are_friends(landings, w, n);
    assert forall|j: int| 0 <= j < n implies (#[trigger] friends(landings, j, n)).len() <= friends(
        landings,
        w,
        n,
    ).len() && ((friends(landings, j, n)).len() == friends(landings, w, n).len()
        ==> found[w].1.grade.rank() <= found[j].1.grade.rank()) by {
        ensemble::winner_is_best(landings, ranks, n, j);
        corroborators_are_friends(landings, j, n);
    }
    assert(ensemble::conflicted(landings, w) <==> exists|j: int|
        0 <= j < n && j != w && contradict(landings[w], #[trigger] landings[j])) by {
        if ensemble::conflicted(landings, w) {
            let j = choose|j: int|
                0 <= j < landings.len() && j != w && ensemble::verdict(
                    landings[w],
                    #[trigger] landings[j],
                ) == Some(false);
            verdicts_are_agreement(landings[w], landings[j]);
        }
        if exists|j: int| 0 <= j < n && j != w && contradict(landings[w], #[trigger] landings[j]) {
            let j = choose|j: int|
                0 <= j < n && j != w && contradict(landings[w], #[trigger] landings[j]);
            verdicts_are_agreement(landings[w], landings[j]);
            assert(ensemble::verdict(landings[w], landings[j]) == Some(false));
        }
    }
    let r = channels::voted(images, found);
    assert(contradicted(landings, w) <==> ensemble::conflicted(landings, w));
    let mine = friends(landings, w, n).len();
    assert(ensemble::support(landings, w) == mine + 1);
    assert(r.relocation is Some);
    let l = r.relocation->0;
    assert(mine <= 1000) by {
        corroborators_are_few(landings, w, n);
    }
    assert(l.support == mine + 1);
    assert(l.corroborators.len() == mine);
    assert(carried(landings, found, r, w));
}

proof fn corroborators_are_few(landings: Seq<LandingV>, i: int, n: int)
    requires
        0 <= n,
    ensures
        ensemble::corroborators(landings, i, n).len() <= n,
    decreases n,
{
    if n > 0 {
        corroborators_are_few(landings, i, n - 1);
    }
}

/// Where a row leads: the function around what was resolved, in the build of its label.
#[verifier::opaque]
pub open spec fn row_lands(images: Seq<&ImageInput>, pv: PerVersionV) -> Option<usize> {
    ensemble::landing_in(images, pv)
}

#[verifier::opaque]
spec fn lands_before(
    images: Seq<&ImageInput>,
    pvs: Seq<PerVersionV>,
    label: Seq<char>,
    n: int,
) -> Option<usize> {
    ensemble::landing_before(images, pvs, label, n)
}

proof fn landing_goes_on(
    images: Seq<&ImageInput>,
    pvs: Seq<PerVersionV>,
    label: Seq<char>,
    n: int,
)
    ensures
        lands_before(images, pvs, label, n) == if n <= 0 {
            None
        } else if pvs[n - 1].label == label && row_lands(images, pvs[n - 1]) is Some {
            row_lands(images, pvs[n - 1])
        } else {
            lands_before(images, pvs, label, n - 1)
        },
{
    reveal(row_lands);
    reveal(lands_before);
}

/// Row number `k` is the last of the first `n` with the label that leads anywhere.
pub open spec fn last_landing(
    images: Seq<&ImageInput>,
    pvs: Seq<PerVersionV>,
    label: Seq<char>,
    n: int,
    k: int,
) -> bool {
    &&& 0 <= k < n
    &&& pvs[k].label == label
    &&& row_lands(images, pvs[k]) is Some
    &&& forall|j: int|
        k < j < n && (#[trigger] pvs[j]).label == label ==> row_lands(images, pvs[j]) is None
}

proof fn landings_are_last(
    images: Seq<&ImageInput>,
    pvs: Seq<PerVersionV>,
    label: Seq<char>,
    n: int,
)
    requires
        0 <= n <= pvs.len(),
    ensures
        lands_before(images, pvs, label, n) matches Some(f) ==> exists|k: int| #[trigger]
            last_landing(images, pvs, label, n, k) && row_lands(images, pvs[k]) == Some(f),
        lands_before(images, pvs, label, n) is None ==> forall|j: int|
            0 <= j < n && (#[trigger] pvs[j]).label == label ==> row_lands(images, pvs[j]) is None,
    decreases n,
{
    landing_goes_on(images, pvs, label, n);
    if n > 0 {
        if pvs[n - 1].label == label && row_lands(images, pvs[n - 1]) is Some {
            assert(last_landing(images, pvs, label, n, n - 1));
        } else {
            landings_are_last(images, pvs, label, n - 1);
            if let Some(f) = lands_before(images, pvs, label, n - 1) {
                let k = choose|k: int| #[trigger]
                    last_landing(images, pvs, label, n - 1, k) && row_lands(images, pvs[k]) == Some(f);
                assert(last_landing(images, pvs, label, n, k));
            }
        }
    }
}

/// The landing of a way in a build is that of the last row with its label that leads anywhere.
pub proof fn landings_are_of_the_rows(
    images: Seq<&ImageInput>,
    pvs: Seq<PerVersionV>,
    label: Seq<char>,
)
    ensures
        ({
            let to = ensemble::landing_of(images, pvs)(label);
            let n = pvs.len() as int;
            &&& to matches Some(f) ==> exists|k: int| #[trigger]
                last_landing(images, pvs, label, n, k) && row_lands(images, pvs[k]) == Some(f)
            &&& to is None ==> forall|j: int|
                0 <= j < n && (#[trigger] pvs[j]).label == label ==> row_lands(images, pvs[j]) is None
        }),
{
    landings_are_last(images, pvs, label, pvs.len() as int);
    assert(lands_before(images, pvs, label, pvs.len() as int) == ensemble::landing_before(
        images,
        pvs,
        label,
        pvs.len() as int,
    )) by {
        reveal(lands_before);
    }
}

/// What the channels that reach some of the builds ask for: x86 code, an anchor of their kind for the
/// function, two builds or more, and functions there that are alike by half where imports lead to them, and
/// by 30 percent where a table or a caller does.
pub proof fn partial_channels_ask_for_likeness(
    images: Seq<&ImageInput>,
    required: Seq<usize>,
    ref_idx: usize,
    ref_rva: u64,
    opts: SigOptions,
)
    ensures
        ({
            let img = images[ref_idx as int];
            let entry = strings::enclosing(img, ref_rva as int);
            let n = required.len() as int;
            &&& partial::import_candidate(images, required, ref_idx, ref_rva, opts) is Some ==> {
                let at = partial::places(
                    partial::import_path(images, required, ref_idx, entry),
                    required,
                );
                &&& img.arch == Arch::X86
                &&& imports::import_anchor_of(img, entry) is Some
                &&& reached_builds(at).len() >= 2
                &&& all_alike(landing::reached_identities(images, required, at, n), 50)
            }
            &&& partial::vtable_candidate(images, required, ref_idx, ref_rva, opts) is Some ==> {
                let at = partial::places(
                    partial::vtable_path(images, required, ref_idx, entry),
                    required,
                );
                &&& img.arch == Arch::X86
                &&& vtable::vtable_anchor_of(img, entry as usize) is Some
                &&& reached_builds(at).len() >= 2
                &&& all_alike(landing::reached_identities(images, required, at, n), 30)
            }
            &&& partial::caller_candidate(images, required, ref_idx, ref_rva, opts) is Some ==> (
            callers::caller_anchor_of(img, entry) matches Some(a) && {
                let at = partial::caller_places(images, required, a);
                &&& img.arch == Arch::X86
                &&& reached_builds(at).len() >= 2
                &&& all_alike(landing::reached_identities(images, required, at, n), 30)
            })
        }),
{
    let img = images[ref_idx as int];
    let entry = strings::enclosing(img, ref_rva as int);
    let n = required.len() as int;
    let a = partial::places(partial::import_path(images, required, ref_idx, entry), required);
    reached_are_counted(a);
    mutual_is_all_alike(landing::reached_identities(images, required, a, n), 50);
    let b = partial::places(partial::vtable_path(images, required, ref_idx, entry), required);
    reached_are_counted(b);
    mutual_is_all_alike(landing::reached_identities(images, required, b, n), 30);
    if let Some(x) = callers::caller_anchor_of(img, entry) {
        let c = partial::caller_places(images, required, x);
        reached_are_counted(c);
        mutual_is_all_alike(landing::reached_identities(images, required, c, n), 30);
    }
}

/// Each of the builds has this clear match by the shapes of the instructions.
pub open spec fn shaped_everywhere(
    images: Seq<&ImageInput>,
    required: Seq<usize>,
    reference: Seq<u64>,
    ms: Seq<(usize, u64)>,
) -> bool {
    &&& ms.len() == required.len()
    &&& forall|k: int|
        0 <= k < ms.len() ==> relocate::clear_encoding(images[required[k] as int], reference) == Some(
            #[trigger] ms[k],
        )
}

proof fn clear_encodings_are_each(
    images: Seq<&ImageInput>,
    required: Seq<usize>,
    reference: Seq<u64>,
    n: int,
)
    requires
        0 <= n <= required.len(),
    ensures
        relocate::clear_encodings(images, required, reference, n) matches Some(ms)
            ==> shaped_everywhere(images, required.take(n), reference, ms),
    decreases n,
{
    if n > 0 {
        clear_encodings_are_each(images, required, reference, n - 1);
        let img = images[required[n - 1] as int];
        if let (Some(before), Some(m)) = (
            relocate::clear_encodings(images, required, reference, n - 1),
            relocate::clear_encoding(img, reference),
        ) {
            let ms = before.push(m);
            assert forall|k: int| 0 <= k < ms.len() implies relocate::clear_encoding(
                images[required.take(n)[k] as int],
                reference,
            ) == Some(#[trigger] ms[k]) by {
                if k < n - 1 {
                    assert(ms[k] == before[k]);
                    assert(required.take(n)[k] == required.take(n - 1)[k]);
                }
            }
        }
    }
}

proof fn least_stream_is_least(streams: Seq<Seq<u64>>, n: int, k: int)
    requires
        1 <= k < n <= streams.len(),
    ensures
        relocate::least_stream(streams, n) <= encoding::shape_similarity(
            streams[0],
            streams[k],
        ) as u64,
    decreases n,
{
    if k < n - 1 {
        least_stream_is_least(streams, n - 1, k);
    }
}

/// By the shapes of its instructions a function of ten or more is found again only where every build has a
/// clear match, and the shapes there are alike to those in the first build by 92 percent or more.
pub proof fn encoding_relocations_match_everywhere(
    images: Seq<&ImageInput>,
    required: Seq<usize>,
    ref_idx: usize,
    ref_rva: u64,
    opts: SigOptions,
)
    ensures
        relocate::encoding_candidate(images, required, ref_idx, ref_rva, opts) matches Some(c) ==> {
            let reference = encoding::shapes_at(images[ref_idx as int], ref_rva as int);
            &&& reference.len() >= 10
            &&& exists|ms: Seq<(usize, u64)>| #[trigger]
                shaped_everywhere(images, required, reference, ms) && c.per_version.len() == ms.len()
                    && (forall|k: int|
                    0 <= k < ms.len() ==> (#[trigger] c.per_version[k]).resolved_target_rva == Some(
                        ms[k].0 as u64,
                    )) && forall|k: int|
                    1 <= k < ms.len() ==> shapes_alike(images, required, ms, #[trigger] ms[k], k)
        },
{
    let reference = encoding::shapes_at(images[ref_idx as int], ref_rva as int);
    let n = required.len() as int;
    clear_encodings_are_each(images, required, reference, n);
    assert(required.take(n) =~= required);
    if let Some(c) = relocate::encoding_candidate(images, required, ref_idx, ref_rva, opts) {
        let ms = relocate::clear_encodings(images, required, reference, n)->0;
        let at = relocate::encoding_places(ms);
        let streams = relocate::streams_at(images, required, at);
        assert(shaped_everywhere(images, required, reference, ms));
        assert forall|k: int| 1 <= k < ms.len() implies shapes_alike(
            images,
            required,
            ms,
            #[trigger] ms[k],
            k,
        ) by {
            least_stream_is_least(streams, streams.len() as int, k);
        }
    }
}

/// What was matched in build number `k` has shapes like those in the first one.
pub open spec fn shapes_alike(
    images: Seq<&ImageInput>,
    required: Seq<usize>,
    ms: Seq<(usize, u64)>,
    m: (usize, u64),
    k: int,
) -> bool {
    at_least_percent(
        encoding::shape_similarity(
            encoding::shapes_at(images[required[0] as int], ms[0].0 as u64 as int),
            encoding::shapes_at(images[required[k] as int], m.0 as u64 as int),
        ) as u64 as int,
        92,
    )
}

/// What the first `n` ways of looking find.
#[verifier::opaque]
pub open spec fn looked(
    images: Seq<&ImageInput>,
    required: Seq<usize>,
    ref_idx: usize,
    ref_rva: u64,
    opts: SigOptions,
    n: int,
) -> Seq<(Channel, SigCandidateV)> {
    channels::found_by(images, required, ref_idx, ref_rva, opts, n)
}

/// What one way of looking finds.
#[verifier::opaque]
pub open spec fn way(
    images: Seq<&ImageInput>,
    required: Seq<usize>,
    ref_idx: usize,
    ref_rva: u64,
    opts: SigOptions,
    ch: Channel,
) -> Option<SigCandidateV> {
    channels::by_channel(ch, images, required, ref_idx, ref_rva, opts)
}

#[verifier::rlimit(60)]
proof fn looking_goes_on(
    images: Seq<&ImageInput>,
    required: Seq<usize>,
    ref_idx: usize,
    ref_rva: u64,
    opts: SigOptions,
    n: int,
)
    requires
        0 <= n <= 8,
    ensures
        looked(images, required, ref_idx, ref_rva, opts, n) == if n <= 0 {
            Seq::empty()
        } else {
            match way(images, required, ref_idx, ref_rva, opts, channels::channels()[n - 1]) {
                Some(c) => looked(images, required, ref_idx, ref_rva, opts, n - 1).push(
                    (channels::channels()[n - 1], c),
                ),
                None => looked(images, required, ref_idx, ref_rva, opts, n - 1),
            }
        },
{
    reveal(looked);
    reveal(way);
}

proof fn every_way_is_kept(
    images: Seq<&ImageInput>,
    required: Seq<usize>,
    ref_idx: usize,
    ref_rva: u64,
    opts: SigOptions,
    n: int,
)
    requires
        0 <= n <= 8,
    ensures
        ({
            let found = looked(images, required, ref_idx, ref_rva, opts, n);
            &&& found.len() <= n
            &&& forall|i: int|
                0 <= i < n ==> (way(
                    images,
                    required,
                    ref_idx,
                    ref_rva,
                    opts,
                    #[trigger] channels::channels()[i],
                ) matches Some(c) ==> found.contains((channels::channels()[i], c)))
            &&& forall|k: int|
                0 <= k < found.len() ==> way(
                    images,
                    required,
                    ref_idx,
                    ref_rva,
                    opts,
                    (#[trigger] found[k]).0,
                ) == Some(found[k].1)
        }),
    decreases n,
{
    looking_goes_on(images, required, ref_idx, ref_rva, opts, n);
    if n > 0 {
        every_way_is_kept(images, required, ref_idx, ref_rva, opts, n - 1);
        let before = looked(images, required, ref_idx, ref_rva, opts, n - 1);
        let found = looked(images, required, ref_idx, ref_rva, opts, n);
        assert forall|i: int| 0 <= i < n implies (way(
            images,
            required,
            ref_idx,
            ref_rva,
            opts,
            #[trigger] channels::channels()[i],
        ) matches Some(c) ==> found.contains((channels::channels()[i], c))) by {
            if let Some(c) = way(images, required, ref_idx, ref_rva, opts, channels::channels()[i]) {
                let x = (channels::channels()[i], c);
                if i < n - 1 {
                    assert(before.contains(x));
                    let k = choose|k: int| 0 <= k < before.len() && before[k] == x;
                    assert(found[k] == x);
                } else {
                    assert(found[before.len() as int] == x);
                }
            }
        }
    }
}

/// All eight ways of looking are tried, and whatever one of them finds takes part in the vote; nothing else
/// does. Nothing is found only where none of them finds anything.
pub proof fn every_way_is_tried(
    images: Seq<&ImageInput>,
    required: Seq<usize>,
    ref_idx: usize,
    ref_rva: u64,
    opts: SigOptions,
)
    ensures
        ({
            let found = looked(images, required, ref_idx, ref_rva, opts, 8);
            &&& forall|ch: Channel|
                #[trigger] way(images, required, ref_idx, ref_rva, opts, ch) matches Some(c)
                    ==> found.contains((ch, c))
            &&& forall|k: int|
                0 <= k < found.len() ==> way(
                    images,
                    required,
                    ref_idx,
                    ref_rva,
                    opts,
                    (#[trigger] found[k]).0,
                ) == Some(found[k].1)
            &&& channels::ensemble_candidate(images, required, ref_idx, ref_rva, opts) is None
                <==> found.len() == 0
        }),
{
    every_way_is_kept(images, required, ref_idx, ref_rva, opts, 8);
    let found = looked(images, required, ref_idx, ref_rva, opts, 8);
    looked_is_found(images, required, ref_idx, ref_rva, opts);
    let all = channels::channels();
    assert forall|ch: Channel|
        #[trigger] way(images, required, ref_idx, ref_rva, opts, ch) matches Some(c)
            ==> found.contains((ch, c)) by {
        let i: int = match ch {
            Channel::StringRef => 0,
            Channel::Import => 1,
            Channel::Constant => 2,
            Channel::Caller => 3,
            Channel::Graph => 4,
            Channel::Vtable => 5,
            Channel::Encoding => 6,
            Channel::Fingerprint => 7,
        };
        assert(all[i] == ch);
    }
}

#[verifier::rlimit(60)]
proof fn looked_is_found(
    images: Seq<&ImageInput>,
    required: Seq<usize>,
    ref_idx: usize,
    ref_rva: u64,
    opts: SigOptions,
)
    ensures
        looked(images, required, ref_idx, ref_rva, opts, 8) == channels::found_by(
            images,
            required,
            ref_idx,
            ref_rva,
            opts,
            channels::channels().len() as int,
        ),
        channels::ensemble_candidate(images, required, ref_idx, ref_rva, opts) is None <==> looked(
            images,
            required,
            ref_idx,
            ref_rva,
            opts,
            8,
        ).len() == 0,
{
    reveal(looked);
}

}
