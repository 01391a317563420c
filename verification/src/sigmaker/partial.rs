//! The relocation anchors with partial coverage: by a set of imported functions, by C++ vtable structure,
//! by a string-anchored caller and by position in the call graph. Each pins the function in every build
//! that it reaches confidently and reports the rest as missing, instead of failing because one late build
//! diverged.

use crate::domain::{StringAnchor, StringAnchorV};
use crate::pattern::Arch;
use crate::sigmaker::callers;
use crate::sigmaker::callers::{
    make_caller_anchor,
    resolve_caller_anchor,
    CallerAnchor,
    CallerAnchorV,
};
use crate::sigmaker::chain;
use crate::sigmaker::chain::{relocate_path, Hop};
use crate::sigmaker::encoding;
use crate::sigmaker::encoding::hash_values;
use crate::sigmaker::graph;
use crate::sigmaker::graph::{align, anchor_candidates, resolve_seeds, CallGraph};
use crate::sigmaker::identity;
use crate::sigmaker::identity::{fn_identity, FnIdentity, IdentityV, FNV_OFFSET};
use crate::sigmaker::imports;
use crate::sigmaker::imports::{make_import_anchor, resolve_import_anchor, ImportAnchor};
use crate::sigmaker::landing;
use crate::sigmaker::landing::{find_packed, relocation, report_partial};
use crate::sigmaker::model;
use crate::sigmaker::model::AnalysisModel;
use crate::sigmaker::relocate;
use crate::sigmaker::relocate::{compare_all, lead_with};
use crate::sigmaker::scoring;
use crate::sigmaker::scoring::{
    count_text,
    say,
    score_fingerprint,
    FingerprintEvidence,
    FingerprintEvidenceV,
};
use crate::sigmaker::similarity;
use crate::sigmaker::similarity::{SIM_ONE, SIM_PERCENT};
use crate::sigmaker::strings::enclosing_function;
use crate::sigmaker::types::{starting, ImageInput, SigCandidate, SigCandidateV};
use crate::sigmaker::types::{SigOptions, SubScores};
use crate::sigmaker::vtable;
use crate::sigmaker::vtable::{make_vtable_anchor, resolve_vtable_anchor, VtableAnchor, VtableAnchorV};
use crate::text;
use crate::text::{join, push_dec, push_hex_fixed, push_quoted};
use vstd::prelude::*;
use vstd::string::*;

verus! {

/// Where the path leads in the required builds.
pub open spec fn places(located: chain::Located, required: Seq<usize>) -> Seq<Option<u64>> {
    Seq::new(
        required.len(),
        |k: int|
            match located[required[k] as int] {
                Some((rva, conf)) => Some(rva),
                None => None,
            },
    )
}

/// The least confidence with which those of the first `n` required builds were reached that are not the
/// reference.
pub open spec fn least_confidence(
    located: chain::Located,
    required: Seq<usize>,
    ref_idx: usize,
    n: int,
) -> u64
    decreases n,
{
    if n <= 0 {
        SIM_ONE
    } else {
        let before = least_confidence(located, required, ref_idx, n - 1);
        match located[required[n - 1] as int] {
            Some((rva, conf)) => if required[n - 1] != ref_idx {
                similarity::least(before, conf)
            } else {
                before
            },
            None => before,
        }
    }
}

/// Where the path leads in the required builds, and how sure the least sure step was.
fn read_path(located: &Vec<Option<(u64, u64)>>, required: &[usize], ref_idx: usize) -> (r: (
    Vec<Option<u64>>,
    u64,
))
    requires
        forall|k: int| 0 <= k < required@.len() ==> #[trigger] required@[k] < located@.len(),
    ensures
        r.0@ == places(located@, required@),
        r.1 == least_confidence(located@, required@, ref_idx, required@.len() as int),
{
    let ghost all = places(located@, required@);
    let mut at: Vec<Option<u64>> = Vec::new();
    let mut least: u64 = SIM_ONE;
    let mut n: usize = 0;
    while n < required.len()
        invariant
            forall|k: int| 0 <= k < required@.len() ==> #[trigger] required@[k] < located@.len(),
            all == places(located@, required@),
            n <= required@.len(),
            at@ == all.take(n as int),
            least == least_confidence(located@, required@, ref_idx, n as int),
        decreases required@.len() - n,
    {
        assert(required@[n as int] < located@.len());
        match located[required[n]] {
            Some((rva, conf)) => {
                at.push(Some(rva));
                if required[n] != ref_idx && conf < least {
                    least = conf;
                }
            },
            None => {
                at.push(None);
            },
        }
        n += 1;
        assert(at@ =~= all.take(n as int));
    }
    assert(at@ =~= all);
    (at, least)
}

proof fn places_reach(images: Seq<&ImageInput>, required: Seq<usize>, located: chain::Located)
    requires
        chain::usable(images, required),
        chain::reachable(images, located, Seq::empty()),
    ensures
        landing::some_reach(images, required, places(located, required)),
{
    let at = places(located, required);
    assert forall|k: int| 0 <= k < at.len() implies (#[trigger] at[k] matches Some(rva) ==> images[required[k] as int].reaches(
        rva as int,
    )) by {
        assert(required[k] < images.len());
        let i = required[k] as int;
        assert(located[i] matches Some((rva, conf)) ==> images[i].reaches(rva as int));
    }
}

/// How many builds were reached, in words.
pub open spec fn coverage(reached: int, builds: int, tail: Seq<char>) -> Seq<char> {
    scoring::counted("relocated to "@, reached, " of "@) + scoring::counted(""@, builds, tail)
}

fn coverage_text(reached: usize, builds: usize, tail: &str) -> (s: String)
    ensures
        s@ == coverage(reached as int, builds as int, tail@),
{
    let mut s = count_text("relocated to ", reached as u64, " of ");
    push_dec(&mut s, builds as u64);
    s.append(tail);
    proof {
        reveal_strlit("");
        assert(""@ =~= Seq::<char>::empty());
        assert(s@ =~= coverage(reached as int, builds as int, tail@));
    }
    s
}

/// The relocation that a path or a set of landings gives, where it reaches two builds and the functions
/// reached agree at `floor` percent: the evidence is the least confidence and the agreement.
pub open spec fn partial_relocation(
    images: Seq<&ImageInput>,
    required: Seq<usize>,
    at: Seq<Option<u64>>,
    ref_idx: usize,
    least: Option<u64>,
    floor: u64,
    aob: Seq<char>,
    lead: Seq<char>,
    unreached: Option<Seq<char>>,
    opts: SigOptions,
) -> Option<SigCandidateV> {
    let reached = landing::reached_count(at);
    let n = required.len() as int;
    let mutual = landing::mutual_of(landing::reached_identities(images, required, at, n));
    if reached < 2 || mutual < floor * SIM_PERCENT {
        None
    } else {
        let reference = landing::reference_identity(images, required, at, ref_idx);
        let ev = FingerprintEvidenceV {
            builds: reached as usize,
            min_similarity: match least {
                Some(s) => s,
                None => mutual,
            },
            mutual_similarity: mutual,
            ref_ident: reference,
        };
        Some(
            landing::relocated(
                landing::any_packed(images),
                aob,
                scoring::fingerprint_scores(ev),
                seq![coverage(reached as int, n, lead)] + scoring::fingerprint_reasons(ev) + match unreached {
                    Some(tail) => scoring::said(
                        reached < n,
                        scoring::counted(""@, n - reached, tail),
                    ),
                    None => Seq::empty(),
                },
                landing::partial_rows(images, required, at, reference, opts),
                landing::missing_diags(images, required, at, n),
            ),
        )
    }
}

struct Label {
    aob: String,
    lead: String,
    unreached: Option<String>,
}

fn relocate_partially(
    images: &[&ImageInput],
    required: &[usize],
    at: &Vec<Option<u64>>,
    ref_idx: usize,
    least: Option<u64>,
    floor: u64,
    label: Label,
    opts: &SigOptions,
) -> (r: Option<SigCandidate>)
    requires
        chain::usable(images@, required@),
        landing::some_reach(images@, required@, at@),
        ref_idx < images@.len(),
        floor <= 100,
    ensures
        r.deep_view() == partial_relocation(
            images@,
            required@,
            at@,
            ref_idx,
            least,
            floor,
            label.aob@,
            label.lead@,
            label.unreached.deep_view(),
            *opts,
        ),
{
    let p = report_partial(images, required, at, ref_idx, opts);
    if p.reached < 2 {
        return None;
    }
    let mutual: u64 = match compare_all(&p.idents) {
        Some(s) => s,
        None => SIM_ONE,
    };
    if mutual < floor * SIM_PERCENT {
        return None;
    }
    let ev = FingerprintEvidence {
        builds: p.reached,
        min_similarity: match least {
            Some(s) => s,
            None => mutual,
        },
        mutual_similarity: mutual,
        ref_ident: p.reference,
    };
    let (scores, reasons) = score_fingerprint(&ev);
    let ghost told = reasons.deep_view();
    let lead = coverage_text(p.reached, required.len(), label.lead.as_str());
    let mut reasons = lead_with(lead, reasons);
    if let Some(tail) = &label.unreached {
        if p.reached < required.len() {
            say(
                &mut reasons,
                count_text("", (required.len() - p.reached) as u64, tail.as_str()),
            );
        }
    }
    assert(reasons.deep_view() =~= seq![coverage(p.reached as int, required@.len() as int, label.lead@)]
        + told + match label.unreached.deep_view() {
        Some(tail) => scoring::said(
            p.reached < required@.len(),
            scoring::counted(""@, required@.len() - p.reached, tail),
        ),
        None => Seq::empty(),
    });
    Some(relocation(find_packed(images), label.aob, scores, reasons, p.rows, p.diags))
}

/// The least similarity of a function found by its imports, in percent: below it the import set collides
/// by coincidence.
pub const IMPORT_MIN_CONSISTENCY: u64 = 50;

/// A hop by import set, held to the identity of the function it started from.
pub struct ImportHop {
    pub source: FnIdentity,
}

/// Where a set of imports leads, and how alike the function there is to the source.
pub open spec fn import_edge(img: &ImageInput, names: Seq<Seq<char>>, source: IdentityV) -> Option<
    (u64, u64),
> {
    match imports::import_anchored(img, names) {
        None => None,
        Some(f) => {
            let sim = identity::likeness(identity::identity_at(img, f as int), source) as u64;
            if sim >= IMPORT_MIN_CONSISTENCY * SIM_PERCENT {
                Some((f as u64, sim))
            } else {
                None
            }
        },
    }
}

impl Hop for ImportHop {
    type Anchor = ImportAnchor;

    open spec fn minted(&self, img: &ImageInput, rva: int) -> Option<Seq<Seq<char>>> {
        imports::import_anchor_of(img, rva)
    }

    open spec fn reached(&self, img: &ImageInput, anchor: Seq<Seq<char>>) -> Option<(u64, u64)> {
        import_edge(img, anchor, self.source.deep_view())
    }

    fn make_anchor(&self, img: &ImageInput, rva: usize) -> (r: Option<ImportAnchor>) {
        make_import_anchor(img, rva)
    }

    fn edge(&self, img: &ImageInput, anchor: &ImportAnchor) -> (r: Option<(u64, u64)>) {
        match resolve_import_anchor(img, anchor) {
            None => None,
            Some(f) => {
                let id = fn_identity(img, f);
                let sim: u64 = id.similarity(&self.source);
                if sim >= IMPORT_MIN_CONSISTENCY * SIM_PERCENT {
                    Some((f as u64, sim))
                } else {
                    None
                }
            },
        }
    }
}

/// The widest path by import sets from the entry of the target.
pub open spec fn import_path(
    images: Seq<&ImageInput>,
    required: Seq<usize>,
    ref_idx: usize,
    entry: int,
) -> chain::Located {
    let source = identity::identity_at(images[ref_idx as int], entry);
    chain::path(
        |i: int, rva: int| imports::import_anchor_of(images[i], rva),
        |i: int, names: Seq<Seq<char>>| import_edge(images[i], names, source),
        images.len(),
        required,
        ref_idx as int,
        entry,
    )
}

/// The candidate that a set of imports gives.
pub open spec fn import_candidate(
    images: Seq<&ImageInput>,
    required: Seq<usize>,
    ref_idx: usize,
    ref_rva: u64,
    opts: SigOptions,
) -> Option<SigCandidateV> {
    let img = images[ref_idx as int];
    let entry = relocate::entry_of(images, ref_idx, ref_rva);
    if img.arch != Arch::X86 {
        None
    } else {
        match imports::import_anchor_of(img, entry) {
            None => None,
            Some(names) => {
                let located = import_path(images, required, ref_idx, entry);
                partial_relocation(
                    images,
                    required,
                    places(located, required),
                    ref_idx,
                    Some(least_confidence(located, required, ref_idx, required.len() as int)),
                    IMPORT_MIN_CONSISTENCY,
                    "@imports="@ + text::joined(names, ","@),
                    scoring::counted(
                        " builds by a distinctive set of "@,
                        names.len() as int,
                        " imported APIs"@,
                    ),
                    None,
                    opts,
                )
            },
        }
    }
}

fn walk_imports(
    images: &[&ImageInput],
    required: &[usize],
    ref_idx: usize,
    entry: usize,
) -> (located: Vec<Option<(u64, u64)>>)
    requires
        chain::usable(images@, required@),
        ref_idx < images@.len(),
        images@[ref_idx as int].reaches(entry as int),
    ensures
        located@ == import_path(images@, required@, ref_idx, entry as int),
        chain::reachable(images@, located@, Seq::empty()),
{
    assert(images@[ref_idx as int].wf());
    let hop = ImportHop { source: fn_identity(images[ref_idx], entry) };
    let located = relocate_path(images, required, ref_idx, entry, &hop);
    proof {
        let source = hop.source.deep_view();
        let mint = |i: int, rva: int| imports::import_anchor_of(images@[i], rva);
        let reach = |i: int, names: Seq<Seq<char>>| import_edge(images@[i], names, source);
        assert(chain::mints(&hop, images@) =~= mint);
        assert(chain::leads(&hop, images@) =~= reach);
    }
    located
}

/// Cross-version relocation by the distinctive set of imported functions that a function calls. Imported
/// names are recompile-stable, so a function calling, say, the twelve socket functions is identifiable in
/// any build even after its bytes are rewritten. Builds are reached over the widest chain, each hop held
/// to the identity of the source, and the functions reached must agree. x86 only.
pub fn import_relocate(
    images: &[&ImageInput],
    required: &[usize],
    ref_idx: usize,
    ref_rva: u64,
    opts: &SigOptions,
) -> (r: Option<SigCandidate>)
    requires
        relocate::ready(images@, required@, ref_idx, ref_rva),
    ensures
        r.deep_view() == import_candidate(images@, required@, ref_idx, ref_rva, *opts),
{
    let img = images[ref_idx];
    assert(images@[ref_idx as int].wf());
    if img.arch != Arch::X86 {
        return None;
    }
    let entry: usize = enclosing_function(img, ref_rva as usize);
    let anchor = match make_import_anchor(img, entry) {
        Some(a) => a,
        None => {
            return None;
        },
    };
    let located = walk_imports(images, required, ref_idx, entry);
    let (at, least) = read_path(&located, required, ref_idx);
    proof {
        places_reach(images@, required@, located@);
    }
    let mut aob = starting("@imports=");
    let names = join(&anchor.names, ",");
    aob.append(names.as_str());
    let lead = count_text(
        " builds by a distinctive set of ",
        anchor.names.len() as u64,
        " imported APIs",
    );
    relocate_partially(
        images,
        required,
        &at,
        ref_idx,
        Some(least),
        IMPORT_MIN_CONSISTENCY,
        Label { aob, lead, unreached: None },
        opts,
    )
}

/// The least agreement of a vtable with the reference table, in percent.
pub const VT_MIN_AGREEMENT: u64 = 72;

/// The least lead of the best table over the next, in percent: two sibling classes that tie decline.
pub const VT_MIN_MARGIN: u64 = 10;

/// The least similarity of a relocated method to the reference, in percent. The floor is low on purpose:
/// methods whose own bytes churned are to be relocated, and only a gross mismatch is rejected.
pub const VT_MIN_CONSISTENCY: u64 = 30;

/// A hop by vtable structure, held to the identity of the method it started from.
pub struct VtableHop {
    pub source: FnIdentity,
}

/// Where a vtable anchor leads, and how well its table agrees.
pub open spec fn vtable_edge(img: &ImageInput, a: VtableAnchorV, source: IdentityV) -> Option<
    (u64, u64),
> {
    match vtable::vtable_anchored(img, a) {
        None => None,
        Some((f, agree, runner)) => if agree >= VT_MIN_AGREEMENT * SIM_PERCENT && agree - runner
            >= VT_MIN_MARGIN * SIM_PERCENT && identity::likeness(
            identity::identity_at(img, f as int),
            source,
        ) >= VT_MIN_CONSISTENCY * SIM_PERCENT {
            Some((f as u64, agree))
        } else {
            None
        },
    }
}

impl Hop for VtableHop {
    type Anchor = VtableAnchor;

    open spec fn minted(&self, img: &ImageInput, rva: int) -> Option<VtableAnchorV> {
        vtable::vtable_anchor_of(img, rva as usize)
    }

    open spec fn reached(&self, img: &ImageInput, anchor: VtableAnchorV) -> Option<(u64, u64)> {
        vtable_edge(img, anchor, self.source.deep_view())
    }

    fn make_anchor(&self, img: &ImageInput, rva: usize) -> (r: Option<VtableAnchor>) {
        make_vtable_anchor(img, rva)
    }

    fn edge(&self, img: &ImageInput, anchor: &VtableAnchor) -> (r: Option<(u64, u64)>) {
        match resolve_vtable_anchor(img, anchor) {
            None => None,
            Some((f, agree, runner)) => {
                let id = fn_identity(img, f);
                if agree >= VT_MIN_AGREEMENT * SIM_PERCENT && agree - runner >= VT_MIN_MARGIN
                    * SIM_PERCENT && id.similarity(&self.source) >= VT_MIN_CONSISTENCY
                    * SIM_PERCENT {
                    Some((f as u64, agree))
                } else {
                    None
                }
            },
        }
    }
}

/// The widest path by vtable structure from the entry of the target.
pub open spec fn vtable_path(
    images: Seq<&ImageInput>,
    required: Seq<usize>,
    ref_idx: usize,
    entry: int,
) -> chain::Located {
    let source = identity::identity_at(images[ref_idx as int], entry);
    chain::path(
        |i: int, rva: int| vtable::vtable_anchor_of(images[i], rva as usize),
        |i: int, a: VtableAnchorV| vtable_edge(images[i], a, source),
        images.len(),
        required,
        ref_idx as int,
        entry,
    )
}

/// Relocate a vtable method across builds over the widest chain, gating each hop on per-slot agreement, a
/// uniqueness margin and cross-build identity, so that a coincidental match cannot extend the chain.
pub fn vtable_relocate_path(
    images: &[&ImageInput],
    required: &[usize],
    ref_idx: usize,
    ref_rva: u64,
) -> (located: Vec<Option<(u64, u64)>>)
    requires
        relocate::ready(images@, required@, ref_idx, ref_rva),
    ensures
        located@ == vtable_path(
            images@,
            required@,
            ref_idx,
            relocate::entry_of(images@, ref_idx, ref_rva),
        ),
        chain::reachable(images@, located@, Seq::empty()),
{
    let img = images[ref_idx];
    assert(images@[ref_idx as int].wf());
    let entry: usize = enclosing_function(img, ref_rva as usize);
    let hop = VtableHop { source: fn_identity(img, entry) };
    let located = relocate_path(images, required, ref_idx, entry, &hop);
    proof {
        let source = hop.source.deep_view();
        let mint = |i: int, rva: int| vtable::vtable_anchor_of(images@[i], rva as usize);
        let reach = |i: int, a: VtableAnchorV| vtable_edge(images@[i], a, source);
        assert(chain::mints(&hop, images@) =~= mint);
        assert(chain::leads(&hop, images@) =~= reach);
    }
    located
}

/// The mnemonics of a slot as words.
pub open spec fn words(slot: Seq<u16>) -> Seq<u64> {
    Seq::new(slot.len(), |k: int| slot[k] as u64)
}

/// The hash of the first `n` slots of a table.
pub open spec fn table_hash(slots: Seq<Seq<u16>>, n: int) -> u64
    decreases n,
{
    if n <= 0 {
        FNV_OFFSET
    } else {
        encoding::hashed(table_hash(slots, n - 1), words(slots[n - 1]))
    }
}

fn hash_table(slots: &Vec<Vec<u16>>) -> (h: u64)
    ensures
        h == table_hash(slots.deep_view(), slots@.len() as int),
{
    let ghost sv = slots.deep_view();
    let mut h: u64 = FNV_OFFSET;
    let mut n: usize = 0;
    while n < slots.len()
        invariant
            sv == slots.deep_view(),
            n <= slots@.len(),
            h == table_hash(sv, n as int),
        decreases slots@.len() - n,
    {
        let slot = &slots[n];
        let mut w: Vec<u64> = Vec::new();
        let mut k: usize = 0;
        while k < slot.len()
            invariant
                k <= slot@.len(),
                w@ == words(slot@).take(k as int),
            decreases slot@.len() - k,
        {
            w.push(slot[k] as u64);
            k += 1;
            assert(w@ =~= words(slot@).take(k as int));
        }
        assert(w@ =~= words(slot@));
        assert(sv[n as int] =~= slot@);
        h = hash_values(h, w.as_slice());
        n += 1;
    }
    h
}

/// The written form of a vtable anchor: slot count, target slot and a hash of the table.
pub open spec fn vtable_aob(a: VtableAnchorV) -> Seq<char> {
    scoring::counted("@vtable="@, a.fingerprint.len() as int, ":"@) + scoring::counted(
        ""@,
        a.slot as int,
        ":"@,
    ) + text::hex_fixed(table_hash(a.fingerprint, a.fingerprint.len() as int) as nat, 16)
}

/// How a vtable relocation was made, in words.
pub open spec fn vtable_lead(a: VtableAnchorV) -> Seq<char> {
    scoring::counted(
        " builds by matching its C++ vtable structure ("@,
        a.fingerprint.len() as int,
        " slots), reading slot "@,
    ) + scoring::counted(
        ""@,
        a.slot as int,
        if a.via_thunk {
            " through an adjustor thunk"@
        } else {
            ""@
        },
    )
}

/// The candidate that vtable structure gives.
pub open spec fn vtable_candidate(
    images: Seq<&ImageInput>,
    required: Seq<usize>,
    ref_idx: usize,
    ref_rva: u64,
    opts: SigOptions,
) -> Option<SigCandidateV> {
    let img = images[ref_idx as int];
    let entry = relocate::entry_of(images, ref_idx, ref_rva);
    if img.arch != Arch::X86 {
        None
    } else {
        match vtable::vtable_anchor_of(img, entry as usize) {
            None => None,
            Some(a) => {
                let located = vtable_path(images, required, ref_idx, entry);
                partial_relocation(
                    images,
                    required,
                    places(located, required),
                    ref_idx,
                    Some(least_confidence(located, required, ref_idx, required.len() as int)),
                    VT_MIN_CONSISTENCY,
                    vtable_aob(a),
                    vtable_lead(a),
                    Some(
                        " build(s) could not be reached by a confident chain and are left unpinned"@,
                    ),
                    opts,
                )
            },
        }
    }
}

fn label_vtable(a: &VtableAnchor) -> (l: Label)
    ensures
        l.aob@ == vtable_aob(a.deep_view()),
        l.lead@ == vtable_lead(a.deep_view()),
        l.unreached.deep_view() == Some(
            " build(s) could not be reached by a confident chain and are left unpinned"@,
        ),
{
    let ghost v = a.deep_view();
    let mut aob = count_text("@vtable=", a.fingerprint.len() as u64, ":");
    let target = count_text("", a.slot as u64, ":");
    aob.append(target.as_str());
    push_hex_fixed(&mut aob, hash_table(&a.fingerprint), 16);
    let mut lead = count_text(
        " builds by matching its C++ vtable structure (",
        a.fingerprint.len() as u64,
        " slots), reading slot ",
    );
    let read = count_text(
        "",
        a.slot as u64,
        if a.via_thunk {
            " through an adjustor thunk"
        } else {
            ""
        },
    );
    lead.append(read.as_str());
    Label {
        aob,
        lead,
        unreached: Some(
            starting(" build(s) could not be reached by a confident chain and are left unpinned"),
        ),
    }
}

/// Cross-version relocation by C++ vtable structure, for a virtual method with no distinctive string or
/// import set of its own. The vtable the method is dispatched from is matched across builds slot by slot,
/// weighted toward the class-specific methods, and the target slot is read with any adjustor thunk
/// followed. Emits when the reference and at least one other build are pinned and the relocated methods
/// agree. x86 only.
pub fn vtable_relocate(
    images: &[&ImageInput],
    required: &[usize],
    ref_idx: usize,
    ref_rva: u64,
    opts: &SigOptions,
) -> (r: Option<SigCandidate>)
    requires
        relocate::ready(images@, required@, ref_idx, ref_rva),
    ensures
        r.deep_view() == vtable_candidate(images@, required@, ref_idx, ref_rva, *opts),
{
    let img = images[ref_idx];
    assert(images@[ref_idx as int].wf());
    if img.arch != Arch::X86 {
        return None;
    }
    let entry: usize = enclosing_function(img, ref_rva as usize);
    let anchor = match make_vtable_anchor(img, entry) {
        Some(a) => a,
        None => {
            return None;
        },
    };
    let located = vtable_relocate_path(images, required, ref_idx, ref_rva);
    let (at, least) = read_path(&located, required, ref_idx);
    proof {
        places_reach(images@, required@, located@);
    }
    let label = label_vtable(&anchor);
    relocate_partially(
        images,
        required,
        &at,
        ref_idx,
        Some(least),
        VT_MIN_CONSISTENCY,
        label,
        opts,
    )
}

/// Where a caller anchor leads in the required builds.
pub open spec fn caller_places(
    images: Seq<&ImageInput>,
    required: Seq<usize>,
    a: CallerAnchorV,
) -> Seq<Option<u64>> {
    Seq::new(
        required.len(),
        |k: int|
            match callers::caller_anchored(images[required[k] as int], a) {
                Some(f) => Some(f as u64),
                None => None,
            },
    )
}

/// The candidate that a string-anchored caller gives.
pub open spec fn caller_candidate(
    images: Seq<&ImageInput>,
    required: Seq<usize>,
    ref_idx: usize,
    ref_rva: u64,
    opts: SigOptions,
) -> Option<SigCandidateV> {
    let img = images[ref_idx as int];
    let entry = relocate::entry_of(images, ref_idx, ref_rva);
    if img.arch != Arch::X86 {
        None
    } else {
        match callers::caller_anchor_of(img, entry) {
            None => None,
            Some(a) => partial_relocation(
                images,
                required,
                caller_places(images, required, a),
                ref_idx,
                None,
                VT_MIN_CONSISTENCY,
                "@caller="@ + a.caller.text,
                " builds via a string-anchored caller ("@ + text::quoted(a.caller.text)
                    + "), matched as its distinctive callee"@,
                Some(" build(s) could not be reached and are left unpinned"@),
                opts,
            ),
        }
    }
}

fn find_caller_places(images: &[&ImageInput], required: &[usize], a: &CallerAnchor) -> (at: Vec<
    Option<u64>,
>)
    requires
        chain::usable(images@, required@),
    ensures
        at@ == caller_places(images@, required@, a.deep_view()),
        landing::some_reach(images@, required@, at@),
{
    let ghost all = caller_places(images@, required@, a.deep_view());
    let mut at: Vec<Option<u64>> = Vec::new();
    let mut n: usize = 0;
    while n < required.len()
        invariant
            chain::usable(images@, required@),
            all == caller_places(images@, required@, a.deep_view()),
            n <= required@.len(),
            at@ == all.take(n as int),
            forall|k: int|
                0 <= k < n ==> (#[trigger] at@[k] matches Some(rva) ==> images@[required@[k] as int].reaches(
                    rva as int,
                )),
        decreases required@.len() - n,
    {
        assert(required@[n as int] < images@.len());
        assert(images@[required@[n as int] as int].wf());
        match resolve_caller_anchor(images[required[n]], a) {
            Some(f) => {
                at.push(Some(f as u64));
            },
            None => {
                at.push(None);
            },
        }
        n += 1;
        assert(at@ =~= all.take(n as int));
    }
    assert(at@ =~= all);
    at
}

/// Cross-version relocation by a string-anchored caller, for a function with no recompile-stable handle of
/// its own. A caller that references a build-stable string is located in each build, and the target is
/// re-found as the caller's callee whose identity matches. Matching by identity, not by call index,
/// survives the call being reordered. x86 only.
pub fn caller_relocate(
    images: &[&ImageInput],
    required: &[usize],
    ref_idx: usize,
    ref_rva: u64,
    opts: &SigOptions,
) -> (r: Option<SigCandidate>)
    requires
        relocate::ready(images@, required@, ref_idx, ref_rva),
    ensures
        r.deep_view() == caller_candidate(images@, required@, ref_idx, ref_rva, *opts),
{
    let img = images[ref_idx];
    assert(images@[ref_idx as int].wf());
    if img.arch != Arch::X86 {
        return None;
    }
    let entry: usize = enclosing_function(img, ref_rva as usize);
    let anchor = match make_caller_anchor(img, entry) {
        Some(a) => a,
        None => {
            return None;
        },
    };
    let at = find_caller_places(images, required, &anchor);
    let mut aob = starting("@caller=");
    aob.append(anchor.caller.text.as_str());
    let mut lead = starting(" builds via a string-anchored caller (");
    push_quoted(&mut lead, anchor.caller.text.as_str());
    lead.append("), matched as its distinctive callee");
    let unreached = Some(starting(" build(s) could not be reached and are left unpinned"));
    relocate_partially(
        images,
        required,
        &at,
        ref_idx,
        None,
        VT_MIN_CONSISTENCY,
        Label { aob, lead, unreached },
        opts,
    )
}

/// How many calls away the seeds of a graph relocation may be.
pub const GRAPH_DEPTH: usize = 2;

/// How many functions around the target are searched for seeds.
pub const GRAPH_CAP: usize = 256;

/// A graph relocation needs this many seeds: a single neighbour cannot reach consensus.
pub const GRAPH_SEEDS: usize = 2;

/// The seeds around the target in the reference build.
pub open spec fn graph_anchors(img: &ImageInput, entry: int) -> Seq<(usize, StringAnchorV)> {
    graph::anchored_among(
        img,
        graph::nearby(
            graph::image_graph(img),
            entry as usize,
            GRAPH_DEPTH as nat,
            GRAPH_CAP as int,
        ),
    )
}

/// Where the matched call graphs put the target in another build.
pub open spec fn graph_landing(
    reference: &ImageInput,
    img: &ImageInput,
    entry: int,
) -> Option<u64> {
    let seeds = graph::seeds_in(img, graph_anchors(reference, entry));
    let m = graph::settled(
        graph::image_graph(reference),
        graph::image_graph(img),
        graph::seeded(seeds),
    ).0;
    if seeds.len() < GRAPH_SEEDS {
        None
    } else if m.contains_key(entry as usize) && img.reaches(m[entry as usize] as int) {
        Some(m[entry as usize] as u64)
    } else {
        None
    }
}

/// Where the matched call graphs put the target in the required builds.
pub open spec fn graph_places(
    images: Seq<&ImageInput>,
    required: Seq<usize>,
    ref_idx: usize,
    entry: int,
) -> Seq<Option<u64>> {
    Seq::new(
        required.len(),
        |k: int|
            if required[k] == ref_idx {
                Some(entry as u64)
            } else {
                graph_landing(images[ref_idx as int], images[required[k] as int], entry)
            },
    )
}

/// The share of builds reached, in percent.
pub open spec fn share(reached: int, builds: int) -> u32 {
    ((200 * reached + builds) / (2 * builds)) as u32
}

/// The scores of a positional match: no byte of the target itself backs it, and confidence rises with the
/// share of builds reached.
pub open spec fn graph_scores(reached: int, builds: int) -> SubScores {
    SubScores {
        uniqueness: 60,
        stability: 80,
        entropy: 0,
        semantic: 55,
        resolver_confidence: 62,
        cross_build: share(reached, builds),
        final_score: (55 + (share(reached, builds) + 2) / 4) as u32,
    }
}

/// The candidate that the position in the call graph gives.
pub open spec fn graph_candidate(
    images: Seq<&ImageInput>,
    required: Seq<usize>,
    ref_idx: usize,
    ref_rva: u64,
    opts: SigOptions,
) -> Option<SigCandidateV> {
    let img = images[ref_idx as int];
    let entry = relocate::entry_of(images, ref_idx, ref_rva);
    if img.arch != Arch::X86 || graph_anchors(img, entry).len() < GRAPH_SEEDS {
        None
    } else {
        let at = graph_places(images, required, ref_idx, entry);
        let reached = landing::reached_count(at);
        let n = required.len() as int;
        if reached < 2 {
            None
        } else {
            Some(
                landing::relocated(
                    landing::any_packed(images),
                    "@graph"@,
                    graph_scores(reached as int, n),
                    seq![
                        coverage(
                            reached as int,
                            n,
                            " build(s) by call-graph consensus: at least two independent string-anchored neighbours agree on the landing and it is mutual-best, with no content anchor on the target itself"@,
                        ),
                    ],
                    landing::partial_rows(
                        images,
                        required,
                        at,
                        landing::reference_identity(images, required, at, ref_idx),
                        opts,
                    ),
                    landing::missing_diags(images, required, at, n),
                ),
            )
        }
    }
}

fn build_graph(img: &ImageInput) -> (g: CallGraph)
    requires
        img.wf(),
    ensures
        g@ == graph::image_graph(img),
{
    let model = AnalysisModel::build(img);
    CallGraph::build(img, &model)
}

fn land_by_graph(
    reference: &ImageInput,
    img: &ImageInput,
    ga: &CallGraph,
    anchors: &Vec<(usize, StringAnchor)>,
    entry: usize,
) -> (r: Option<u64>)
    requires
        img.wf(),
        ga@ == graph::image_graph(reference),
        anchors.deep_view() == graph_anchors(reference, entry as int),
    ensures
        r == graph_landing(reference, img, entry as int),
        r matches Some(rva) ==> img.reaches(rva as int),
{
    let gb = build_graph(img);
    let seeds = resolve_seeds(img, anchors);
    if seeds.len() < GRAPH_SEEDS {
        return None;
    }
    let m = align(ga, &gb, seeds.as_slice());
    match m.get(&entry) {
        Some(rva) => {
            if img.can_reach(*rva) {
                Some(*rva as u64)
            } else {
                None
            }
        },
        None => None,
    }
}

fn find_graph_places(
    images: &[&ImageInput],
    required: &[usize],
    ref_idx: usize,
    entry: usize,
    ga: &CallGraph,
    anchors: &Vec<(usize, StringAnchor)>,
) -> (at: Vec<Option<u64>>)
    requires
        chain::usable(images@, required@),
        ref_idx < images@.len(),
        images@[ref_idx as int].reaches(entry as int),
        ga@ == graph::image_graph(images@[ref_idx as int]),
        anchors.deep_view() == graph_anchors(images@[ref_idx as int], entry as int),
    ensures
        at@ == graph_places(images@, required@, ref_idx, entry as int),
        landing::some_reach(images@, required@, at@),
{
    let ghost all = graph_places(images@, required@, ref_idx, entry as int);
    let mut at: Vec<Option<u64>> = Vec::new();
    let mut n: usize = 0;
    while n < required.len()
        invariant
            chain::usable(images@, required@),
            ref_idx < images@.len(),
            images@[ref_idx as int].reaches(entry as int),
            ga@ == graph::image_graph(images@[ref_idx as int]),
            anchors.deep_view() == graph_anchors(images@[ref_idx as int], entry as int),
            all == graph_places(images@, required@, ref_idx, entry as int),
            n <= required@.len(),
            at@ == all.take(n as int),
            forall|k: int|
                0 <= k < n ==> (#[trigger] at@[k] matches Some(rva) ==> images@[required@[k] as int].reaches(
                    rva as int,
                )),
        decreases required@.len() - n,
    {
        assert(required@[n as int] < images@.len());
        assert(images@[required@[n as int] as int].wf());
        if required[n] == ref_idx {
            at.push(Some(entry as u64));
        } else {
            at.push(land_by_graph(images[ref_idx], images[required[n]], ga, anchors, entry));
        }
        n += 1;
        assert(at@ =~= all.take(n as int));
    }
    assert(at@ =~= all);
    at
}

fn score_graph(reached: usize, builds: usize) -> (s: SubScores)
    requires
        reached <= builds,
        0 < builds,
    ensures
        s == graph_scores(reached as int, builds as int),
{
    let share: u128 = (200 * reached as u128 + builds as u128) / (2 * builds as u128);
    proof {
        let b = builds as int;
        let a = 200 * reached as int + b;
        vstd::arithmetic::div_mod::lemma_div_is_ordered(a, 201 * b, 2 * b);
        assert(201 * b < 101 * (2 * b)) by (nonlinear_arith)
            requires
                b > 0,
        ;
        vstd::arithmetic::div_mod::lemma_div_by_multiple_is_strongly_ordered(
            201 * b,
            101 * (2 * b),
            101,
            2 * b,
        );
        vstd::arithmetic::div_mod::lemma_div_by_multiple(101, 2 * b);
    }
    let cross_build: u32 = share as u32;
    SubScores {
        uniqueness: 60,
        stability: 80,
        entropy: 0,
        semantic: 55,
        resolver_confidence: 62,
        cross_build,
        final_score: 55 + (cross_build + 2) / 4,
    }
}

/// Relocate a function across builds by its position in the matched call graph, for a target no content
/// anchor pins. The neighbourhood of the target is seeded with the string anchors among it, and the
/// correspondence is propagated by neighbour consensus. Capped at B: there is no byte or string proof of
/// the target itself, only of its neighbours. x86 only.
pub fn graph_relocate(
    images: &[&ImageInput],
    required: &[usize],
    ref_idx: usize,
    ref_rva: u64,
    opts: &SigOptions,
) -> (r: Option<SigCandidate>)
    requires
        relocate::ready(images@, required@, ref_idx, ref_rva),
    ensures
        r.deep_view() == graph_candidate(images@, required@, ref_idx, ref_rva, *opts),
{
    let img = images[ref_idx];
    assert(images@[ref_idx as int].wf());
    if img.arch != Arch::X86 {
        return None;
    }
    let entry: usize = enclosing_function(img, ref_rva as usize);
    let ga = build_graph(img);
    let near = ga.neighbourhood(entry, GRAPH_DEPTH, GRAPH_CAP);
    let anchors = anchor_candidates(img, near.as_slice());
    assert(anchors.deep_view().len() == anchors@.len());
    if anchors.len() < GRAPH_SEEDS {
        return None;
    }
    let at = find_graph_places(images, required, ref_idx, entry, &ga, &anchors);
    let p = report_partial(images, required, &at, ref_idx, opts);
    if p.reached < 2 {
        return None;
    }
    let scores = score_graph(p.reached, required.len());
    let mut reasons: Vec<String> = Vec::new();
    let why = coverage_text(
        p.reached,
        required.len(),
        " build(s) by call-graph consensus: at least two independent string-anchored neighbours agree on the landing and it is mutual-best, with no content anchor on the target itself",
    );
    let ghost said = why@;
    reasons.push(why);
    assert(reasons.deep_view() =~= seq![said]);
    Some(relocation(find_packed(images), starting("@graph"), scores, reasons, p.rows, p.diags))
}

}
