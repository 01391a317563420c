//! The cross-anchor consensus vote: decide which relocation anchor's landing to commit, purely from the
//! per-build landings and grade ranks, so that a disagreement between independent methods caps the
//! result rather than shipping a guess.

use crate::sigmaker::strings;
use crate::sigmaker::strings::enclosing_function;
use crate::sigmaker::types::{ImageInput, PerVersion, PerVersionV, READ_AHEAD};
use crate::text::same_text;
use vstd::prelude::*;

verus! {

/// The function each build's resolved target maps to, by build label. No label occurs twice.
pub struct Landing {
    builds: Vec<(String, usize)>,
}

/// The function that the first entry for `label` holds.
pub open spec fn landed(builds: Seq<(Seq<char>, usize)>, label: Seq<char>) -> Option<usize>
    decreases builds.len(),
{
    if builds.len() == 0 {
        None
    } else if landed(builds.drop_last(), label) is Some {
        landed(builds.drop_last(), label)
    } else if builds.last().0 == label {
        Some(builds.last().1)
    } else {
        None
    }
}

proof fn landed_somewhere(builds: Seq<(Seq<char>, usize)>, label: Seq<char>)
    ensures
        landed(builds, label) is Some <==> exists|i: int|
            0 <= i < builds.len() && (#[trigger] builds[i]).0 == label,
    decreases builds.len(),
{
    if builds.len() > 0 {
        let d = builds.drop_last();
        landed_somewhere(d, label);
        if exists|i: int| 0 <= i < builds.len() && (#[trigger] builds[i]).0 == label {
            let i = choose|i: int| 0 <= i < builds.len() && (#[trigger] builds[i]).0 == label;
            if i < d.len() {
                assert(d[i].0 == label);
            }
        }
        if landed(d, label) is Some {
            let i = choose|i: int| 0 <= i < d.len() && (#[trigger] d[i]).0 == label;
            assert(builds[i].0 == label);
        } else if builds.last().0 == label {
            assert(builds[builds.len() - 1].0 == label);
        }
    }
}

proof fn landed_first(builds: Seq<(Seq<char>, usize)>, label: Seq<char>, i: int)
    requires
        0 <= i < builds.len(),
        builds[i].0 == label,
        forall|k: int| 0 <= k < i ==> (#[trigger] builds[k]).0 != label,
    ensures
        landed(builds, label) == Some(builds[i].1),
    decreases builds.len(),
{
    let d = builds.drop_last();
    if i < d.len() {
        assert(d[i] == builds[i]);
        landed_first(d, label, i);
    } else {
        landed_somewhere(d, label);
        if landed(d, label) is Some {
            let k = choose|k: int| 0 <= k < d.len() && (#[trigger] d[k]).0 == label;
            assert(builds[k].0 != label);
        }
    }
}

impl Landing {
    /// No label occurs twice.
    pub closed spec fn wf(&self) -> bool {
        forall|i: int, j: int|
            0 <= i < j < self.builds.deep_view().len() ==> (#[trigger] self.builds.deep_view()[i]).0 != (
            #[trigger] self.builds.deep_view()[j]).0
    }

    /// The function in the build `label`.
    pub closed spec fn of(&self, label: Seq<char>) -> Option<usize> {
        landed(self.builds.deep_view(), label)
    }

    /// A landing in no build.
    pub fn new() -> (l: Landing)
        ensures
            l.wf(),
            forall|label: Seq<char>| #[trigger] l.of(label) is None,
    {
        let l = Landing { builds: Vec::new() };
        assert(l.builds.deep_view() =~= Seq::<(Seq<char>, usize)>::empty());
        l
    }

    /// The function in the build `label`.
    pub fn get(&self, label: &str) -> (r: Option<usize>)
        ensures
            r == self.of(label@),
    {
        match self.index_of(label) {
            Some(i) => {
                proof {
                    landed_first(self.builds.deep_view(), label@, i as int);
                }
                Some(self.builds[i].1)
            },
            None => {
                proof {
                    landed_somewhere(self.builds.deep_view(), label@);
                }
                None
            },
        }
    }

    fn index_of(&self, label: &str) -> (r: Option<usize>)
        ensures
            ({
                let b = self.builds.deep_view();
                match r {
                    Some(i) => i < b.len() && b[i as int].0 == label@ && b[i as int].1
                        == self.builds@[i as int].1 && forall|k: int|
                        0 <= k < i ==> (#[trigger] b[k]).0 != label@,
                    None => forall|k: int| 0 <= k < b.len() ==> (#[trigger] b[k]).0 != label@,
                }
            }),
    {
        let mut i: usize = 0;
        while i < self.builds.len()
            invariant
                i <= self.builds@.len(),
                forall|k: int| 0 <= k < i ==> (#[trigger] self.builds.deep_view()[k]).0 != label@,
            decreases self.builds@.len() - i,
        {
            assert(self.builds.deep_view()[i as int] == (
                self.builds@[i as int].0@,
                self.builds@[i as int].1,
            ));
            if same_text(self.builds[i].0.as_str(), label) {
                return Some(i);
            }
            i += 1;
        }
        None
    }

    /// Note the function in the build `label`, in place of an earlier one.
    pub fn insert(&mut self, label: String, rva: usize)
        ensures
            old(self).wf() ==> final(self).wf(),
            final(self).of(label@) == Some(rva),
            forall|other: Seq<char>|
                other != label@ ==> #[trigger] final(self).of(other) == old(self).of(other),
    {
        let ghost before = self.builds.deep_view();
        let ghost name = label@;
        match self.index_of(label.as_str()) {
            Some(i) => {
                self.builds.set(i, (label, rva));
                let ghost after = self.builds.deep_view();
                proof {
                    assert(after =~= before.update(i as int, (name, rva)));
                    landed_first(after, name, i as int);
                    assert forall|other: Seq<char>| other != name implies #[trigger] landed(
                        after,
                        other,
                    ) == landed(before, other) by {
                        landed_elsewhere(before, i as int, (name, rva), other);
                    }
                }
            },
            None => {
                self.builds.push((label, rva));
                let ghost after = self.builds.deep_view();
                proof {
                    assert(after =~= before.push((name, rva)));
                    assert(after.drop_last() =~= before);
                    landed_somewhere(before, name);
                }
            },
        }
    }
}

proof fn landed_elsewhere(
    builds: Seq<(Seq<char>, usize)>,
    i: int,
    e: (Seq<char>, usize),
    other: Seq<char>,
)
    requires
        0 <= i < builds.len(),
        builds[i].0 == e.0,
        other != e.0,
    ensures
        landed(builds.update(i, e), other) == landed(builds, other),
    decreases builds.len(),
{
    let d = builds.drop_last();
    if i < d.len() {
        landed_elsewhere(d, i, e, other);
        assert(builds.update(i, e).drop_last() =~= d.update(i, e));
    } else {
        assert(builds.update(i, e).drop_last() =~= d);
    }
}

/// A landing by its content: the function in the build of each label.
pub type LandingV = spec_fn(Seq<char>) -> Option<usize>;

impl DeepView for Landing {
    type V = LandingV;

    open spec fn deep_view(&self) -> LandingV {
        |label: Seq<char>| self.of(label)
    }
}

/// Both landings hold the build.
pub open spec fn both_hold(a: LandingV, b: LandingV, label: Seq<char>) -> bool {
    a(label) is Some && b(label) is Some
}

/// Whether two landings agree on every build they share; `None` where they share none.
pub open spec fn verdict(a: LandingV, b: LandingV) -> Option<bool> {
    if exists|label: Seq<char>| #[trigger] both_hold(a, b, label) {
        Some(forall|label: Seq<char>| #[trigger] both_hold(a, b, label) ==> a(label) == b(label))
    } else {
        None
    }
}

/// A verdict does not depend on whose side it is asked from.
pub proof fn verdict_is_symmetric(a: LandingV, b: LandingV)
    ensures
        verdict(a, b) == verdict(b, a),
{
    assert forall|label: Seq<char>| #[trigger] both_hold(a, b, label) == both_hold(b, a, label) by {}
    if exists|label: Seq<char>| #[trigger] both_hold(a, b, label) {
        let label = choose|label: Seq<char>| #[trigger] both_hold(a, b, label);
        assert(both_hold(b, a, label));
        if verdict(b, a) == Some(true) {
            assert forall|l: Seq<char>| #[trigger] both_hold(a, b, l) implies a(l) == b(l) by {
                assert(both_hold(b, a, l));
            }
        }
        if verdict(a, b) == Some(true) {
            assert forall|l: Seq<char>| #[trigger] both_hold(b, a, l) implies b(l) == a(l) by {
                assert(both_hold(a, b, l));
            }
        }
    } else if exists|label: Seq<char>| #[trigger] both_hold(b, a, label) {
        let label = choose|label: Seq<char>| #[trigger] both_hold(b, a, label);
        assert(both_hold(a, b, label));
    }
}

fn judge(a: &Landing, b: &Landing) -> (r: Option<bool>)
    ensures
        r == verdict(a.deep_view(), b.deep_view()),
{
    let mut shared: bool = false;
    let mut conflict: bool = false;
    let mut i: usize = 0;
    let ghost av = a.builds.deep_view();
    while i < a.builds.len()
        invariant
            av == a.builds.deep_view(),
            i <= a.builds@.len(),
            shared ==> exists|label: Seq<char>| #[trigger] both_hold(a.deep_view(), b.deep_view(), label),
            conflict ==> shared && exists|label: Seq<char>| #[trigger]
                both_hold(a.deep_view(), b.deep_view(), label) && a.of(label) != b.of(label),
            !shared ==> forall|k: int| 0 <= k < i ==> b.of((#[trigger] av[k]).0) is None,
            !conflict ==> forall|k: int|
                0 <= k < i ==> (b.of((#[trigger] av[k]).0) is Some ==> a.of(av[k].0) == b.of(
                    av[k].0,
                )),
        decreases a.builds@.len() - i,
    {
        let label = a.builds[i].0.as_str();
        assert(av[i as int].0 == label@);
        proof {
            landed_somewhere(av, label@);
        }
        let fa = a.get(label);
        let fb = b.get(label);
        if fb.is_some() {
            assert(both_hold(a.deep_view(), b.deep_view(), label@));
            shared = true;
            if fa.unwrap() != fb.unwrap() {
                conflict = true;
            }
        }
        i += 1;
    }
    proof {
        assert forall|label: Seq<char>| #[trigger] both_hold(a.deep_view(), b.deep_view(), label) implies exists|k: int|
            0 <= k < av.len() && (#[trigger] av[k]).0 == label by {
            landed_somewhere(av, label);
        }
    }
    if shared {
        Some(!conflict)
    } else {
        None
    }
}

/// The channels among the first `n` that corroborate channel `i`.
pub open spec fn corroborators(landings: Seq<LandingV>, i: int, n: int) -> Seq<usize>
    decreases n,
{
    if n <= 0 {
        Seq::empty()
    } else {
        let before = corroborators(landings, i, n - 1);
        if n - 1 != i && verdict(landings[i], landings[n - 1]) == Some(true) {
            before.push((n - 1) as usize)
        } else {
            before
        }
    }
}

/// How many channels stand for the landing of channel `i`, itself included.
pub open spec fn support(landings: Seq<LandingV>, i: int) -> nat {
    1 + corroborators(landings, i, landings.len() as int).len()
}

/// Whether some channel contradicts channel `i`.
pub open spec fn conflicted(landings: Seq<LandingV>, i: int) -> bool {
    exists|j: int|
        0 <= j < landings.len() && j != i && verdict(landings[i], #[trigger] landings[j]) == Some(
            false,
        )
}

/// The winner among the first `n` channels: most support, then the better rank, then the earlier one.
pub open spec fn winner(landings: Seq<LandingV>, ranks: Seq<u8>, n: int) -> int
    decreases n,
{
    if n <= 1 {
        0
    } else {
        let w = winner(landings, ranks, n - 1);
        let i = n - 1;
        if support(landings, i) > support(landings, w) || (support(landings, i) == support(
            landings,
            w,
        ) && ranks[i] < ranks[w]) {
            i
        } else {
            w
        }
    }
}

/// No channel has more support than the winner, and none with equal support a better rank.
pub proof fn winner_is_best(landings: Seq<LandingV>, ranks: Seq<u8>, n: int, i: int)
    requires
        0 <= i < n,
    ensures
        0 <= winner(landings, ranks, n) < n,
        support(landings, winner(landings, ranks, n)) >= support(landings, i),
        support(landings, winner(landings, ranks, n)) == support(landings, i) ==> ranks[winner(
            landings,
            ranks,
            n,
        )] <= ranks[i],
    decreases n,
{
    if n > 1 {
        winner_is_best(landings, ranks, n - 1, if i < n - 1 { i } else { 0 });
    }
}

/// The outcome of the cross-anchor vote: which candidate wins, how many independent channels stand for
/// it (itself included), whether any channel conflicts with it, and its corroborators.
pub struct Consensus {
    pub winner: usize,
    pub support: usize,
    pub conflict: bool,
    pub corroborators: Vec<usize>,
}

fn tally(landings: &[Landing], i: usize) -> (r: (Vec<usize>, bool))
    requires
        i < landings@.len(),
    ensures
        r.0@ == corroborators(landings.deep_view(), i as int, landings@.len() as int),
        r.1 == conflicted(landings.deep_view(), i as int),
        r.0@.len() < landings@.len(),
{
    let mut agree: Vec<usize> = Vec::new();
    let mut conflict: bool = false;
    let mut j: usize = 0;
    while j < landings.len()
        invariant
            i < landings@.len(),
            j <= landings@.len(),
            agree@ == corroborators(landings.deep_view(), i as int, j as int),
            agree@.len() + (if i < j { 1int } else { 0int }) <= j,
            conflict ==> conflicted(landings.deep_view(), i as int),
            !conflict ==> forall|k: int|
                0 <= k < j && k != i ==> verdict(
                    landings.deep_view()[i as int],
                    #[trigger] landings.deep_view()[k],
                ) != Some(false),
        decreases landings@.len() - j,
    {
        if j != i {
            match judge(&landings[i], &landings[j]) {
                Some(true) => {
                    agree.push(j);
                },
                Some(false) => {
                    assert(verdict(landings.deep_view()[i as int], landings.deep_view()[j as int]) == Some(false));
                    conflict = true;
                },
                None => {},
            }
        }
        j += 1;
    }
    (agree, conflict)
}

/// Decide among several anchors' landings from their per-build landings and grade ranks (a lower rank is
/// a better grade). The winner is the landing with the most corroboration, ties broken toward the better
/// grade and then the earlier (stronger) channel. Two channels with no build in common neither
/// corroborate nor conflict.
pub fn ensemble_decide(landings: &[Landing], ranks: &[u8]) -> (c: Consensus)
    requires
        0 < landings@.len() <= ranks@.len(),
    ensures
        c.winner == winner(landings.deep_view(), ranks@, landings@.len() as int),
        c.winner < landings@.len(),
        c.support == support(landings.deep_view(), c.winner as int),
        c.conflict == conflicted(landings.deep_view(), c.winner as int),
        c.corroborators@ == corroborators(landings.deep_view(), c.winner as int, landings@.len() as int),
        c.support == c.corroborators@.len() + 1,
{
    let mut best: usize = 0;
    let (first, clash) = tally(landings, 0);
    let mut agree: Vec<usize> = first;
    let mut conflict: bool = clash;
    let mut i: usize = 1;
    while i < landings.len()
        invariant
            0 < landings@.len() <= ranks@.len(),
            1 <= i <= landings@.len(),
            best < i,
            best == winner(landings.deep_view(), ranks@, i as int),
            agree@ == corroborators(landings.deep_view(), best as int, landings@.len() as int),
            agree@.len() < landings@.len(),
            conflict == conflicted(landings.deep_view(), best as int),
        decreases landings@.len() - i,
    {
        let (a, c) = tally(landings, i);
        if a.len() > agree.len() || (a.len() == agree.len() && ranks[i] < ranks[best]) {
            best = i;
            agree = a;
            conflict = c;
        }
        i += 1;
    }
    Consensus { winner: best, support: agree.len() + 1, conflict, corroborators: agree }
}

/// The first image with the label.
pub open spec fn labelled(images: Seq<&ImageInput>, label: Seq<char>, i: int) -> Option<int>
    decreases images.len() - i,
{
    if !(0 <= i < images.len()) {
        None
    } else if images[i].label@ == label {
        Some(i)
    } else {
        labelled(images, label, i + 1)
    }
}

/// The function a resolved target lies in: the one around it in the build of that label.
pub open spec fn landing_in(images: Seq<&ImageInput>, pv: PerVersionV) -> Option<usize> {
    match (pv.resolved_target_rva, labelled(images, pv.label, 0)) {
        (Some(rva), Some(i)) => if images[i].reaches(rva as int) {
            Some(strings::enclosing(images[i], rva as int) as usize)
        } else {
            None
        },
        _ => None,
    }
}

/// The landing that the first `n` builds give for a label; a later build of a label counts.
pub open spec fn landing_before(
    images: Seq<&ImageInput>,
    pvs: Seq<PerVersionV>,
    label: Seq<char>,
    n: int,
) -> Option<usize>
    decreases n,
{
    if n <= 0 {
        None
    } else if pvs[n - 1].label == label && landing_in(images, pvs[n - 1]) is Some {
        landing_in(images, pvs[n - 1])
    } else {
        landing_before(images, pvs, label, n - 1)
    }
}

/// The landing that a candidate's builds give.
pub open spec fn landing_of(images: Seq<&ImageInput>, pvs: Seq<PerVersionV>) -> LandingV {
    |label: Seq<char>| landing_before(images, pvs, label, pvs.len() as int)
}

/// The first image with the label.
pub fn find_label(images: &[&ImageInput], label: &str) -> (r: Option<usize>)
    ensures
        match r {
            Some(i) => labelled(images@, label@, 0) == Some(i as int) && i < images@.len(),
            None => labelled(images@, label@, 0) is None,
        },
{
    let mut i: usize = 0;
    while i < images.len()
        invariant
            i <= images@.len(),
            labelled(images@, label@, 0) == labelled(images@, label@, i as int),
        decreases images@.len() - i,
    {
        if same_text(images[i].label.as_str(), label) {
            return Some(i);
        }
        i += 1;
    }
    None
}

/// The function (its enclosing entry) each build's resolved target maps to, by build label. Two
/// candidates are compared only on the builds they both resolve, so that a build one anchor declined is
/// not counted as a disagreement.
pub fn anchor_landing(images: &[&ImageInput], per_version: &Vec<PerVersion>) -> (l: Landing)
    ensures
        l.deep_view() == landing_of(images@, per_version.deep_view()),
{
    let mut l = Landing::new();
    let ghost pvs = per_version.deep_view();
    let mut n: usize = 0;
    while n < per_version.len()
        invariant
            pvs == per_version.deep_view(),
            n <= per_version@.len(),
            forall|label: Seq<char>| #[trigger]
                l.of(label) == landing_before(images@, pvs, label, n as int),
        decreases per_version@.len() - n,
    {
        let pv = &per_version[n];
        assert(pvs[n as int] == pv.deep_view());
        if let Some(rva) = pv.resolved_target_rva {
            if let Some(i) = find_label(images, pv.label.as_str()) {
                let img = images[i];
                if rva <= usize::MAX as u64 && img.base as u128 + rva as u128 + READ_AHEAD as u128
                    <= usize::MAX as u128 {
                    let f: usize = enclosing_function(img, rva as usize);
                    l.insert(pv.label.clone(), f);
                }
            }
        }
        n += 1;
    }
    assert(l.deep_view() =~= landing_of(images@, pvs));
    l
}

}
