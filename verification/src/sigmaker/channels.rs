//! Relocation by every applicable anchor at once, decided by their agreement.

use crate::sigmaker::ensemble;
use crate::sigmaker::ensemble::{anchor_landing, ensemble_decide, Landing, LandingV};
use crate::sigmaker::partial;
use crate::sigmaker::partial::{caller_relocate, graph_relocate, import_relocate, vtable_relocate};
use crate::sigmaker::relocate;
use crate::sigmaker::relocate::{
    constant_relocate,
    encoding_relocate,
    fingerprint_relocate,
    string_anchor_candidate,
};
use crate::sigmaker::scoring;
use crate::sigmaker::scoring::{count_text, say};
use crate::sigmaker::types::{starting, Grade, ImageInput, RelocationLedger, RelocationLedgerV};
use crate::sigmaker::types::{SigCandidate, SigCandidateV, SigOptions};
use crate::text;
use crate::text::join;
use vstd::prelude::*;
use vstd::string::*;

verus! {

/// The relocation anchor that produced a candidate.
#[derive(Clone, Copy, PartialEq, Eq, Debug, Structural)]
pub enum Channel {
    StringRef,
    Import,
    Constant,
    Caller,
    Graph,
    Vtable,
    Encoding,
    Fingerprint,
}

impl Channel {
    /// How the channel is called in a report.
    pub open spec fn name(self) -> Seq<char> {
        match self {
            Channel::StringRef => "string"@,
            Channel::Import => "import"@,
            Channel::Constant => "constant"@,
            Channel::Caller => "caller"@,
            Channel::Graph => "graph"@,
            Channel::Vtable => "vtable"@,
            Channel::Encoding => "encoding"@,
            Channel::Fingerprint => "fingerprint"@,
        }
    }

    /// How the channel is called in a report.
    pub fn label(self) -> (s: &'static str)
        ensures
            s@ == self.name(),
    {
        match self {
            Channel::StringRef => "string",
            Channel::Import => "import",
            Channel::Constant => "constant",
            Channel::Caller => "caller",
            Channel::Graph => "graph",
            Channel::Vtable => "vtable",
            Channel::Encoding => "encoding",
            Channel::Fingerprint => "fingerprint",
        }
    }
}

/// The channels in descending strength, so that a tie in support and grade breaks toward the more
/// precise anchor.
pub open spec fn channels() -> Seq<Channel> {
    seq![
        Channel::StringRef,
        Channel::Import,
        Channel::Constant,
        Channel::Caller,
        Channel::Graph,
        Channel::Vtable,
        Channel::Encoding,
        Channel::Fingerprint,
    ]
}

/// What one channel finds.
#[verifier::opaque]
pub open spec fn by_channel(
    channel: Channel,
    images: Seq<&ImageInput>,
    required: Seq<usize>,
    ref_idx: usize,
    ref_rva: u64,
    opts: SigOptions,
) -> Option<SigCandidateV> {
    match channel {
        Channel::StringRef => relocate::string_candidate(images, required, ref_idx, ref_rva, opts),
        Channel::Import => partial::import_candidate(images, required, ref_idx, ref_rva, opts),
        Channel::Constant => relocate::constant_candidate(images, required, ref_idx, ref_rva, opts),
        Channel::Caller => partial::caller_candidate(images, required, ref_idx, ref_rva, opts),
        Channel::Graph => partial::graph_candidate(images, required, ref_idx, ref_rva, opts),
        Channel::Vtable => partial::vtable_candidate(images, required, ref_idx, ref_rva, opts),
        Channel::Encoding => relocate::encoding_candidate(images, required, ref_idx, ref_rva, opts),
        Channel::Fingerprint => relocate::fingerprint_candidate(
            images,
            required,
            ref_idx,
            ref_rva,
            opts,
        ),
    }
}

/// What the first `n` channels find.
pub open spec fn found_by(
    images: Seq<&ImageInput>,
    required: Seq<usize>,
    ref_idx: usize,
    ref_rva: u64,
    opts: SigOptions,
    n: int,
) -> Seq<(Channel, SigCandidateV)>
    decreases n,
{
    if n <= 0 {
        Seq::empty()
    } else {
        let before = found_by(images, required, ref_idx, ref_rva, opts, n - 1);
        match by_channel(channels()[n - 1], images, required, ref_idx, ref_rva, opts) {
            Some(c) => before.push((channels()[n - 1], c)),
            None => before,
        }
    }
}

/// Where the candidates land.
pub open spec fn landings_of(
    images: Seq<&ImageInput>,
    found: Seq<(Channel, SigCandidateV)>,
) -> Seq<LandingV> {
    Seq::new(found.len(), |i: int| ensemble::landing_of(images, found[i].1.per_version))
}

/// The grades of the candidates, best lowest.
pub open spec fn ranks_of(found: Seq<(Channel, SigCandidateV)>) -> Seq<u8> {
    Seq::new(found.len(), |i: int| found[i].1.grade.rank())
}

/// The names of the channels at the places.
pub open spec fn names_of(found: Seq<(Channel, SigCandidateV)>, places: Seq<usize>) -> Seq<Seq<char>> {
    Seq::new(places.len(), |k: int| found[places[k] as int].0.name())
}

/// What is said of a channel that contradicts the winner.
pub open spec fn conflict_reason(support: nat) -> Seq<char> {
    if support < 2 {
        "another independent anchor resolves a different address and nothing corroborates this one, so it is reported as a candidate, not a confirmed relocation"@
    } else {
        "an independent anchor disagreed but was outvoted by the corroborating channels"@
    }
}

/// The candidate that the channels agree on: the one with the most support, held below a confirmed grade
/// where it stands alone against another.
pub open spec fn voted(
    images: Seq<&ImageInput>,
    found: Seq<(Channel, SigCandidateV)>,
) -> SigCandidateV {
    let landings = landings_of(images, found);
    let w = ensemble::winner(landings, ranks_of(found), landings.len() as int);
    let c = found[w].1;
    let support = ensemble::support(landings, w);
    let conflict = ensemble::conflicted(landings, w);
    let names = names_of(
        found,
        ensemble::corroborators(landings, w, landings.len() as int),
    );
    SigCandidateV {
        grade: if conflict && support < 2 {
            c.grade.capped(Grade::C)
        } else {
            c.grade
        },
        reasons: c.reasons + scoring::said(
            support >= 2,
            scoring::counted("corroborated by "@, support - 1, " independent anchor(s): "@)
                + text::joined(names, ", "@),
        ) + scoring::said(conflict, conflict_reason(support)),
        relocation: Some(
            RelocationLedgerV {
                anchor: found[w].0.name(),
                support: support as usize,
                corroborators: names,
                conflict,
            },
        ),
        ..c
    }
}

/// The relocation of the target by all channels.
pub open spec fn ensemble_candidate(
    images: Seq<&ImageInput>,
    required: Seq<usize>,
    ref_idx: usize,
    ref_rva: u64,
    opts: SigOptions,
) -> Option<SigCandidateV> {
    let found = found_by(images, required, ref_idx, ref_rva, opts, channels().len() as int);
    if found.len() == 0 {
        None
    } else {
        Some(voted(images, found))
    }
}

/// The votes decide among what the channels found and never invent an address: the builds reported are
/// those of one channel, the grade is never raised, and a lone landing that another channel contradicts
/// is no better than a candidate.
pub proof fn voting_only_lowers_confidence(
    images: Seq<&ImageInput>,
    found: Seq<(Channel, SigCandidateV)>,
)
    requires
        found.len() > 0,
    ensures
        exists|i: int|
            #![trigger found[i]]
            0 <= i < found.len() && voted(images, found).per_version == found[i].1.per_version
                && voted(images, found).aob == found[i].1.aob && voted(images, found).grade.rank()
                >= found[i].1.grade.rank(),
        voted(images, found).relocation matches Some(l) && (l.conflict && l.corroborators.len() == 0
            ==> voted(images, found).grade.rank() >= Grade::C.rank()),
{
    let landings = landings_of(images, found);
    let w = ensemble::winner(landings, ranks_of(found), landings.len() as int);
    ensemble::winner_is_best(landings, ranks_of(found), landings.len() as int, 0);
    let c = found[w].1;
    assert(0 <= w < found.len());
    assert(voted(images, found).per_version == c.per_version);
}

fn try_channel(
    channel: Channel,
    images: &[&ImageInput],
    required: &[usize],
    ref_idx: usize,
    ref_rva: u64,
    opts: &SigOptions,
) -> (r: Option<SigCandidate>)
    requires
        relocate::ready(images@, required@, ref_idx, ref_rva),
    ensures
        r.deep_view() == by_channel(channel, images@, required@, ref_idx, ref_rva, *opts),
{
    proof {
        reveal(by_channel);
    }
    match channel {
        Channel::StringRef => string_anchor_candidate(images, required, ref_idx, ref_rva, opts),
        Channel::Import => import_relocate(images, required, ref_idx, ref_rva, opts),
        Channel::Constant => constant_relocate(images, required, ref_idx, ref_rva, opts),
        Channel::Caller => caller_relocate(images, required, ref_idx, ref_rva, opts),
        Channel::Graph => graph_relocate(images, required, ref_idx, ref_rva, opts),
        Channel::Vtable => vtable_relocate(images, required, ref_idx, ref_rva, opts),
        Channel::Encoding => encoding_relocate(images, required, ref_idx, ref_rva, opts),
        Channel::Fingerprint => fingerprint_relocate(images, required, ref_idx, ref_rva, opts),
    }
}

/// The channels and candidates by their content.
pub open spec fn found_view(found: Seq<(Channel, SigCandidate)>) -> Seq<(Channel, SigCandidateV)> {
    Seq::new(found.len(), |i: int| (found[i].0, found[i].1.deep_view()))
}

fn try_all(
    images: &[&ImageInput],
    required: &[usize],
    ref_idx: usize,
    ref_rva: u64,
    opts: &SigOptions,
) -> (found: Vec<(Channel, SigCandidate)>)
    requires
        relocate::ready(images@, required@, ref_idx, ref_rva),
    ensures
        found_view(found@) == found_by(
            images@,
            required@,
            ref_idx,
            ref_rva,
            *opts,
            channels().len() as int,
        ),
{
    let all: [Channel; 8] = [
        Channel::StringRef,
        Channel::Import,
        Channel::Constant,
        Channel::Caller,
        Channel::Graph,
        Channel::Vtable,
        Channel::Encoding,
        Channel::Fingerprint,
    ];
    assert(all@ =~= channels());
    let mut found: Vec<(Channel, SigCandidate)> = Vec::new();
    let mut n: usize = 0;
    assert(found_view(found@) =~= Seq::<(Channel, SigCandidateV)>::empty());
    while n < 8
        invariant
            relocate::ready(images@, required@, ref_idx, ref_rva),
            all@ == channels(),
            n <= 8,
            found_view(found@) == found_by(images@, required@, ref_idx, ref_rva, *opts, n as int),
        decreases 8 - n,
    {
        if let Some(c) = try_channel(all[n], images, required, ref_idx, ref_rva, opts) {
            let ghost before = found_view(found@);
            let ghost view = c.deep_view();
            found.push((all[n], c));
            assert(found_view(found@) =~= before.push((all@[n as int], view)));
        }
        n += 1;
    }
    found
}

fn rank_all(images: &[&ImageInput], found: &Vec<(Channel, SigCandidate)>) -> (r: (
    Vec<Landing>,
    Vec<u8>,
))
    ensures
        r.0.deep_view() == landings_of(images@, found_view(found@)),
        r.1@ == ranks_of(found_view(found@)),
        r.0@.len() == found@.len(),
{
    let ghost fv = found_view(found@);
    let ghost all = landings_of(images@, fv);
    let mut landings: Vec<Landing> = Vec::new();
    let mut ranks: Vec<u8> = Vec::new();
    let mut i: usize = 0;
    assert(landings.deep_view() =~= all.take(0));
    while i < found.len()
        invariant
            fv == found_view(found@),
            all == landings_of(images@, fv),
            i <= found@.len(),
            landings@.len() == i,
            landings.deep_view() == all.take(i as int),
            ranks@ == ranks_of(fv).take(i as int),
        decreases found@.len() - i,
    {
        let ghost before = landings.deep_view();
        let l = anchor_landing(images, &found[i].1.per_version);
        let ghost lv = l.deep_view();
        landings.push(l);
        ranks.push(found[i].1.grade.rank());
        i += 1;
        proof {
            assert(landings.deep_view() =~= before.push(lv));
            assert(landings.deep_view() =~= all.take(i as int));
            assert(ranks@ =~= ranks_of(fv).take(i as int));
        }
    }
    assert(all.take(i as int) =~= all);
    assert(ranks@ =~= ranks_of(fv));
    (landings, ranks)
}

fn name_all(found: &Vec<(Channel, SigCandidate)>, places: &Vec<usize>) -> (names: Vec<String>)
    requires
        forall|k: int| 0 <= k < places@.len() ==> #[trigger] places@[k] < found@.len(),
    ensures
        names.deep_view() == names_of(found_view(found@), places@),
{
    let ghost all = names_of(found_view(found@), places@);
    let mut names: Vec<String> = Vec::new();
    let mut k: usize = 0;
    assert(names.deep_view() =~= all.take(0));
    while k < places.len()
        invariant
            forall|k: int| 0 <= k < places@.len() ==> #[trigger] places@[k] < found@.len(),
            all == names_of(found_view(found@), places@),
            k <= places@.len(),
            names.deep_view() == all.take(k as int),
        decreases places@.len() - k,
    {
        let ghost before = names.deep_view();
        assert(places@[k as int] < found@.len());
        let name = starting(found[places[k]].0.label());
        let ghost nv = name@;
        names.push(name);
        k += 1;
        proof {
            assert(names.deep_view() =~= before.push(nv));
            assert(names.deep_view() =~= all.take(k as int));
        }
    }
    assert(all.take(k as int) =~= all);
    names
}

proof fn corroborators_exist(landings: Seq<LandingV>, i: int, n: int)
    requires
        0 <= n <= landings.len() <= usize::MAX,
    ensures
        forall|k: int|
            0 <= k < ensemble::corroborators(landings, i, n).len()
                ==> #[trigger] ensemble::corroborators(landings, i, n)[k] < landings.len(),
    decreases n,
{
    if n > 0 {
        corroborators_exist(landings, i, n - 1);
        let before = ensemble::corroborators(landings, i, n - 1);
        let all = ensemble::corroborators(landings, i, n);
        assert forall|k: int| 0 <= k < all.len() implies #[trigger] all[k] < landings.len() by {
            if k < before.len() {
                assert(before[k] < landings.len());
            }
        }
    }
}

/// Relocate the target by every applicable anchor and decide by cross-anchor agreement, instead of taking
/// the first anchor that fires. Independent channels that land on the same function corroborate the
/// address; a channel that lands on a different function and is not outvoted caps the result to a
/// candidate, because a disagreement between independent methods is the strongest wrong-address signal
/// there is. The chosen landing is always one an anchor actually produced.
pub fn ensemble_relocate(
    images: &[&ImageInput],
    required: &[usize],
    ref_idx: usize,
    ref_rva: u64,
    opts: &SigOptions,
) -> (r: Option<SigCandidate>)
    requires
        relocate::ready(images@, required@, ref_idx, ref_rva),
    ensures
        r.deep_view() == ensemble_candidate(images@, required@, ref_idx, ref_rva, *opts),
{
    let mut found = try_all(images, required, ref_idx, ref_rva, opts);
    let ghost fv = found_view(found@);
    if found.len() == 0 {
        return None;
    }
    let (landings, ranks) = rank_all(images, &found);
    let ghost lv = landings.deep_view();
    let ballots = landings.as_slice();
    assert(ballots.deep_view() =~= lv);
    let v = ensemble_decide(ballots, ranks.as_slice());
    proof {
        corroborators_exist(lv, v.winner as int, lv.len() as int);
    }
    let names = name_all(&found, &v.corroborators);
    let ghost nv = names.deep_view();
    let (channel, mut cand) = found.remove(v.winner);
    let ghost c = fv[v.winner as int].1;
    assert(cand.deep_view() == c);
    let mut reasons: Vec<String> = Vec::new();
    std::mem::swap(&mut reasons, &mut cand.reasons);
    if v.support >= 2 {
        let mut why = count_text(
            "corroborated by ",
            (v.support - 1) as u64,
            " independent anchor(s): ",
        );
        let list = join(&names, ", ");
        why.append(list.as_str());
        say(&mut reasons, why);
    }
    if v.conflict {
        if v.support < 2 {
            cand.grade = cand.grade.max_rank(Grade::C);
            say(
                &mut reasons,
                starting(
                    "another independent anchor resolves a different address and nothing corroborates this one, so it is reported as a candidate, not a confirmed relocation",
                ),
            );
        } else {
            say(
                &mut reasons,
                starting(
                    "an independent anchor disagreed but was outvoted by the corroborating channels",
                ),
            );
        }
    }
    cand.reasons = reasons;
    cand.relocation = Some(
        RelocationLedger {
            anchor: starting(channel.label()),
            support: v.support,
            corroborators: names,
            conflict: v.conflict,
        },
    );
    assert(cand.deep_view().reasons =~= voted(images@, fv).reasons);
    assert(cand.deep_view() =~= voted(images@, fv));
    Some(cand)
}

}
