//! What the scores and grades of a candidate say of its evidence.

use crate::sigmaker::identity;
use crate::sigmaker::identity::IdentityV;
use crate::sigmaker::scoring;
use crate::sigmaker::scoring::{AnchorKind, EvidenceV, FingerprintEvidenceV, NegativeEvidence};
use crate::sigmaker::scoring::{SimilarityBand, StringEvidenceV};
use crate::sigmaker::similarity;
use crate::sigmaker::types::{Grade, SigCandidateV, SubScores, TargetKind};
use vstd::prelude::*;

verus! {

/// `n` is `a / b` rounded to the nearest whole number, halves upwards.
pub open spec fn rounds_to(a: int, b: int, n: int) -> bool {
    2 * b * n - b <= 2 * a && 2 * a < 2 * b * n + b
}

proof fn rounding(a: int, b: int)
    requires
        b > 0,
        a >= 0,
    ensures
        rounds_to(a, b, (2 * a + b) / (2 * b)),
        forall|n: int| rounds_to(a, b, n) ==> n == (2 * a + b) / (2 * b),
{
    let q = (2 * a + b) / (2 * b);
    assert(2 * b * q <= 2 * a + b && 2 * a + b < 2 * b * q + 2 * b) by (nonlinear_arith)
        requires
            b > 0,
            q == (2 * a + b) / (2 * b),
    ;
    assert forall|n: int| rounds_to(a, b, n) implies n == q by {
        assert(n == q) by (nonlinear_arith)
            requires
                b > 0,
                2 * b * q <= 2 * a + b,
                2 * a + b < 2 * b * q + 2 * b,
                2 * b * n - b <= 2 * a,
                2 * a < 2 * b * n + b,
        ;
    }
}

proof fn percent_rounds(x: u64)
    requires
        x <= 1_000_000_000_000,
    ensures
        rounds_to(x as int, 10_000_000_000, scoring::whole_percent(x) as int),
{
    let n = scoring::whole_percent(x) as int;
    assert(n == (x + 5_000_000_000) / 10_000_000_000);
    assert(20_000_000_000 * n - 10_000_000_000 <= 2 * x);
    assert(2 * x < 20_000_000_000 * n + 10_000_000_000);
}

/// The final score is the mean of the sub-scores, rounded: of a hundred parts the resolver's confidence
/// has 35, the semantic score 30, the score across builds 20, stability 8, uniqueness 4 and entropy 3.
pub proof fn final_score_is_a_weighted_mean(s: SubScores)
    requires
        s.uniqueness <= 100,
        s.stability <= 100,
        s.entropy <= 100,
        s.semantic <= 100,
        s.resolver_confidence <= 100,
        s.cross_build <= 100,
    ensures
        rounds_to(
            s.resolver_confidence * 35 + s.semantic * 30 + s.cross_build * 20 + s.stability * 8
                + s.uniqueness * 4 + s.entropy * 3,
            100,
            scoring::blend(s) as int,
        ),
        scoring::blend(s) <= 100,
{
    let sum = s.resolver_confidence * 35 + s.semantic * 30 + s.cross_build * 20 + s.stability * 8
        + s.uniqueness * 4 + s.entropy * 3;
    let n = scoring::blend(s) as int;
    assert(n == (sum + 50) / 100);
    assert(200 * n - 100 <= 2 * sum);
    assert(2 * sum < 200 * n + 100);
}

/// A grade is owed to its scores and to no others: A from 82 on, B from 64 on, C from 42 on, D from 25 on,
/// and F below.
pub proof fn grades_are_bands(score: int)
    ensures
        Grade::band(score) == Grade::A <==> score >= 82,
        Grade::band(score) == Grade::B <==> 64 <= score && score < 82,
        Grade::band(score) == Grade::C <==> 42 <= score && score < 64,
        Grade::band(score) == Grade::D <==> 25 <= score && score < 42,
        Grade::band(score) == Grade::F <==> score < 25,
{
}

/// The grade of a candidate: F where it is gated; else that of its score, which packed input makes D at
/// best.
pub proof fn grades_follow_the_score(score: int, gated: bool, packed: bool)
    ensures
        gated ==> scoring::graded(score, gated, packed) == Grade::F,
        !gated && score < 25 ==> scoring::graded(score, gated, packed) == Grade::F,
        !gated && packed && score >= 25 ==> scoring::graded(score, gated, packed) == Grade::D,
        !gated && !packed ==> {
            &&& score >= 82 ==> scoring::graded(score, gated, packed) == Grade::A
            &&& 64 <= score && score < 82 ==> scoring::graded(score, gated, packed) == Grade::B
            &&& 42 <= score && score < 64 ==> scoring::graded(score, gated, packed) == Grade::C
            &&& 25 <= score && score < 42 ==> scoring::graded(score, gated, packed) == Grade::D
        },
{
}

/// A similarity is high from 85 percent on, low below 60 percent, and medium between.
pub proof fn similarity_bands_are_exact(sim: u64)
    requires
        sim <= 1_000_000_000_000,
    ensures
        SimilarityBand::band(sim) == SimilarityBand::High <==> sim * 100 >= 85 * 1_000_000_000_000,
        SimilarityBand::band(sim) == SimilarityBand::Low <==> sim * 100 < 60 * 1_000_000_000_000,
{
}

proof fn least_likeness_is_least(ids: Seq<IdentityV>, n: int)
    requires
        0 <= n <= ids.len(),
    ensures
        scoring::least_likeness(ids, n) <= 1_000_000_000_000,
        forall|k: int|
            1 <= k < n ==> scoring::least_likeness(ids, n) <= identity::likeness(
                ids[0],
                #[trigger] ids[k],
            ),
        n >= 2 ==> exists|k: int|
            1 <= k < n && scoring::least_likeness(ids, n) == identity::likeness(
                ids[0],
                #[trigger] ids[k],
            ),
    decreases n,
{
    if n >= 2 {
        least_likeness_is_least(ids, n - 1);
        identity::likeness_is_a_share(ids[0], ids[n - 1]);
        let before = scoring::least_likeness(ids, n - 1);
        let last = identity::likeness(ids[0], ids[n - 1]);
        if last <= before {
            assert(scoring::least_likeness(ids, n) == identity::likeness(ids[0], ids[n - 1]));
        } else if n >= 3 {
            let k = choose|k: int|
                1 <= k < n - 1 && before == identity::likeness(ids[0], #[trigger] ids[k]);
            assert(scoring::least_likeness(ids, n) == identity::likeness(ids[0], ids[k]));
        }
    }
}

/// How far functions agree is the least likeness of any of them to the first; fewer than two have none.
pub proof fn agreement_is_the_least_likeness(ids: Seq<IdentityV>)
    ensures
        match scoring::agreement_of(ids) {
            Some(m) => {
                &&& ids.len() >= 2
                &&& forall|k: int|
                    1 <= k < ids.len() ==> m <= identity::likeness(ids[0], #[trigger] ids[k])
                &&& exists|k: int|
                    1 <= k < ids.len() && m == identity::likeness(ids[0], #[trigger] ids[k])
            },
            None => ids.len() < 2,
        },
{
    least_likeness_is_least(ids, ids.len() as int);
}

/// Nothing is known against the function that was reached: there is no similarity, or it is 85 percent
/// or more.
pub open spec fn unchallenged(sim: Option<u64>) -> bool {
    sim matches Some(s) ==> s * 100 >= 85 * 1_000_000_000_000
}

/// How sure the resolver is. The whole hundred is only for a call, jump or relative pointer that resolves
/// to code in every build, with nothing known against the function there.
pub proof fn full_confidence_is_earned(ev: EvidenceV)
    requires
        ev.callee_similarity matches Some(s) ==> s <= 1_000_000_000_000,
    ensures
        scoring::confidence_of(ev) == 100 <==> unchallenged(ev.callee_similarity)
            && !ev.any_unresolved && ((ev.anchor == AnchorKind::Branch && ev.all_code) || (ev.anchor
            == AnchorKind::RipPtr && ev.kinds_consistent && ev.first_kind == Some(TargetKind::Code))),
        ev.anchor == AnchorKind::Direct ==> scoring::confidence_of(ev) == 70,
        ev.anchor == AnchorKind::AbsPtr ==> scoring::confidence_of(ev) == 45,
        ev.anchor == AnchorKind::Branch && (!ev.all_code || ev.any_unresolved)
            ==> scoring::confidence_of(ev) == 45,
        ev.anchor == AnchorKind::Branch && ev.all_code && !ev.any_unresolved && !unchallenged(
            ev.callee_similarity,
        ) ==> scoring::confidence_of(ev) == 65,
        ev.anchor == AnchorKind::RipPtr && (ev.any_unresolved || !ev.kinds_consistent)
            ==> scoring::confidence_of(ev) == 40,
        ev.anchor == AnchorKind::RipPtr && !ev.any_unresolved && ev.kinds_consistent ==> {
            &&& ev.first_kind == Some(TargetKind::Code) && !unchallenged(ev.callee_similarity)
                ==> scoring::confidence_of(ev) == 55
            &&& ev.first_kind == Some(TargetKind::Data) || ev.first_kind == Some(TargetKind::Import)
                ==> scoring::confidence_of(ev) == 75
            &&& ev.first_kind is None || ev.first_kind == Some(TargetKind::Unknown)
                ==> scoring::confidence_of(ev) == 45
        },
{
}

/// How much a function shows of itself: up to twelve points for its instructions, eight for its blocks,
/// six for its strings and four for its calls.
pub open spec fn shows(id: Option<IdentityV>, per_string: int, points: int) -> bool {
    match id {
        None => points == 0,
        Some(id) => exists|i: int, b: int, s: int, c: int| #[trigger]
            shares(id, per_string, i, b, s, c) && points == i + b + s + c,
    }
}

/// The points of each kind: the lesser of what the function has and what the kind is worth.
pub open spec fn shares(id: IdentityV, per_string: int, i: int, b: int, s: int, c: int) -> bool {
    let blocks = if id.blocks == 0 {
        0
    } else {
        4 * (id.blocks - 1)
    };
    &&& i <= 12 && i <= id.instr_count && (i == 12 || i == id.instr_count)
    &&& b <= 8 && b <= blocks && (b == 8 || b == blocks)
    &&& s <= 6 && s <= per_string * id.strings.len() && (s == 6 || s == per_string
        * id.strings.len())
    &&& c <= 4 && c <= 2 * id.calls && (c == 4 || c == 2 * id.calls)
}

proof fn richness_is_shown(id: Option<IdentityV>, per_string: int)
    requires
        per_string >= 0,
    ensures
        shows(id, per_string, scoring::richness(id, per_string)),
        0 <= scoring::richness(id, per_string) <= 30,
{
    if let Some(x) = id {
        let i = scoring::at_most(x.instr_count as int, 12);
        let b = scoring::at_most(
            if x.blocks == 0 {
                0
            } else {
                (x.blocks - 1) * 4
            },
            8,
        );
        let s = scoring::at_most(x.strings.len() * per_string, 6);
        let c = scoring::at_most(x.calls * 2, 4);
        assert(x.strings.len() * per_string == per_string * x.strings.len()) by (nonlinear_arith);
        assert(x.strings.len() * per_string >= 0) by (nonlinear_arith)
            requires
                per_string >= 0,
                x.strings.len() >= 0,
        ;
        assert(shares(x, per_string, i, b, s, c));
    }
}

/// The points that a difference of the functions costs: none at 85 percent or without a similarity, the
/// full cost below 60 percent, and the lesser one between.
pub open spec fn costs(sim: Option<u64>, full: int, lesser: int, points: int) -> bool {
    match sim {
        None => points == 0,
        Some(s) => {
            &&& s * 100 >= 85 * 1_000_000_000_000 ==> points == 0
            &&& s * 100 < 60 * 1_000_000_000_000 ==> points == full
            &&& 60 * 1_000_000_000_000 <= s * 100 && s * 100 < 85 * 1_000_000_000_000 ==> points == lesser
        },
    }
}

/// `v` is `x`, held between 0 and 100.
pub open spec fn held_in(x: int, v: int) -> bool {
    &&& 0 <= v <= 100
    &&& x <= 0 ==> v == 0
    &&& x >= 100 ==> v == 100
    &&& 0 <= x && x <= 100 ==> v == x
}

/// What the semantic score is made of: an anchor on code is worth 78, what the function shows, and less
/// what a difference costs; data, imports and the target itself are worth 55, anything else 25.
pub proof fn semantic_scores_count_the_function(ev: EvidenceV)
    ensures
        ev.is_anchor && ev.first_kind == Some(TargetKind::Code) && ev.anchor != AnchorKind::AbsPtr
            ==> exists|shown: int, cost: int| #[trigger]
            shows(ev.ref_ident, 3, shown) && #[trigger] costs(ev.callee_similarity, 25, 12, cost)
                && held_in(78 + shown - cost, scoring::semantic_of(ev) as int),
        ev.is_anchor && ev.first_kind == Some(TargetKind::Code) && ev.anchor == AnchorKind::AbsPtr
            ==> scoring::semantic_of(ev) == 25,
        ev.is_anchor && (ev.first_kind == Some(TargetKind::Data) || ev.first_kind == Some(
            TargetKind::Import,
        )) ==> scoring::semantic_of(ev) == 55,
        ev.is_anchor && (ev.first_kind is None || ev.first_kind == Some(TargetKind::Unknown))
            ==> scoring::semantic_of(ev) == 25,
        !ev.is_anchor ==> scoring::semantic_of(ev) == 55,
{
    richness_is_shown(ev.ref_ident, 3);
    let shown = scoring::richness(ev.ref_ident, 3);
    let cost = scoring::divergence_cost(ev.callee_similarity, 25, 12);
    assert(shows(ev.ref_ident, 3, shown));
    assert(costs(ev.callee_similarity, 25, 12, cost));
}

/// What stability starts from.
pub open spec fn standing(ev: EvidenceV) -> int {
    match (ev.reloc_safe, ev.packed) {
        (true, false) => 50,
        (true, true) => 20,
        (false, false) => 0,
        (false, true) => -30,
    }
}

/// Stability is worth 50 where no odd relocation is in the way, less 30 for packed input; up to 30 for the
/// share of fixed bytes outside the operands and up to 20 for the share of operand bytes left open.
pub proof fn stability_weighs_the_bytes(ev: EvidenceV)
    ensures
        ({
            let base = standing(ev);
            let x = base * ev.len + 30 * ev.meaningful + 20 * ev.operand_masked;
            &&& ev.len == 0 ==> held_in(base, scoring::stability_of(ev) as int)
            &&& ev.len > 0 && x >= 0 ==> exists|n: int| #[trigger]
                rounds_to(x, ev.len as int, n) && held_in(n, scoring::stability_of(ev) as int)
            &&& ev.len > 0 && x < 0 ==> scoring::stability_of(ev) == 0
        }),
{
    let base = standing(ev);
    let d = ev.len as int;
    let x = base * ev.len + 30 * ev.meaningful + 20 * ev.operand_masked;
    if d > 0 {
        if x >= 0 {
            rounding(x, d);
            assert(rounds_to(x, d, (2 * x + d) / (2 * d)));
            assert(similarity::nearest(x, d) == (2 * x + d) / (2 * d));
            assert(held_in(similarity::nearest(x, d), scoring::stability_of(ev) as int));
        } else {
            assert((d - 2 * x) / (2 * d) >= 0) by (nonlinear_arith)
                requires
                    d > 0,
                    x < 0,
            ;
        }
    }
}

/// Across builds an anchor counts the similarity of what it reaches, in percent: 65 where there is none to
/// compare with and 50 where the kinds differ. The target itself counts the share of its bytes that stayed.
pub proof fn cross_build_counts_what_stays(ev: EvidenceV)
    requires
        ev.callee_similarity matches Some(s) ==> s <= 1_000_000_000_000,
    ensures
        ev.is_anchor && !ev.kinds_consistent ==> scoring::cross_build_of(ev) == 50,
        ev.is_anchor && ev.kinds_consistent ==> match ev.callee_similarity {
            Some(s) => rounds_to(s as int, 10_000_000_000, scoring::cross_build_of(ev) as int),
            None => scoring::cross_build_of(ev) == 65,
        },
        !ev.is_anchor && ev.byte_survival.den == 0 ==> scoring::cross_build_of(ev) == 0,
        !ev.is_anchor && ev.byte_survival.den > 0 && ev.byte_survival.num <= ev.byte_survival.den
            ==> rounds_to(
            100 * ev.byte_survival.num,
            ev.byte_survival.den as int,
            scoring::cross_build_of(ev) as int,
        ),
{
    let r = ev.byte_survival;
    if r.den > 0 && r.num <= r.den {
        rounding(100 * r.num, r.den as int);
        let d = r.den as int;
        let a = 100 * r.num;
        assert((2 * a + d) / (2 * d) <= 100) by (nonlinear_arith)
            requires
                d > 0,
                a <= 100 * d,
        ;
        assert((2 * a + d) / (2 * d) >= 0) by (nonlinear_arith)
            requires
                d > 0,
                a >= 0,
        ;
    }
}

/// A signature of fewer than six fixed bytes loses five points for each that is missing.
pub proof fn few_bytes_are_less_unique(n: usize)
    ensures
        n >= 6 ==> scoring::uniqueness_of(n) == 100,
        n < 6 ==> scoring::uniqueness_of(n) + 5 * (6 - n) == 100,
{
}

/// What a string anchor scores: longer strings up to 24 characters are more unique, a pair less, and one
/// whose function nothing refers to less; one build is worth less than two; and a difference costs more.
pub proof fn string_scores_follow_the_string(ev: StringEvidenceV)
    requires
        ev.callee_similarity matches Some(s) ==> s <= 1_000_000_000_000,
    ensures
        ({
            let s = scoring::string_scores(ev);
            let length: int = if ev.text_len >= 24 {
                24
            } else {
                ev.text_len as int
            };
            &&& held_in(
                43 + 3 * length - (if ev.paired {
                    15int
                } else {
                    0
                }) - (if ev.xrefs == 0 {
                    10int
                } else {
                    0
                }),
                s.uniqueness as int,
            )
            &&& s.stability == if ev.builds >= 2 {
                92
            } else {
                80u32
            }
            &&& s.entropy == 0
            &&& exists|shown: int, cost: int| #[trigger]
                shows(ev.ref_ident, 2, shown) && #[trigger] costs(ev.callee_similarity, 30, 14, cost)
                    && held_in(70 + shown - cost, s.semantic as int)
            &&& ev.builds < 2 ==> s.resolver_confidence == 70
            &&& ev.builds >= 2 && unchallenged(ev.callee_similarity) ==> s.resolver_confidence
                == if ev.paired {
                85
            } else {
                92u32
            }
            &&& ev.builds >= 2 ==> (ev.callee_similarity matches Some(x) ==> {
                &&& 60 * 1_000_000_000_000 <= x * 100 && x * 100 < 85 * 1_000_000_000_000
                    ==> s.resolver_confidence == 72
                &&& x * 100 < 60 * 1_000_000_000_000 ==> s.resolver_confidence == 58
            })
            &&& match ev.callee_similarity {
                Some(x) => rounds_to(x as int, 10_000_000_000, s.cross_build as int),
                None => s.cross_build == 65,
            }
            &&& s.final_score == scoring::blend(s)
        }),
{
    richness_is_shown(ev.ref_ident, 2);
    let shown = scoring::richness(ev.ref_ident, 2);
    let cost = scoring::divergence_cost(ev.callee_similarity, 30, 14);
    assert(shows(ev.ref_ident, 2, shown));
    assert(costs(ev.callee_similarity, 30, 14, cost));
    let s = scoring::string_scores(ev);
    assert(held_in(70 + shown - cost, s.semantic as int));
    if let Some(x) = ev.callee_similarity {
        percent_rounds(x);
        assert(s.cross_build == scoring::whole_percent(x));
    }
    assert(s.final_score == scoring::blend(s));
}

/// What a match by fingerprint scores: the least similarity for uniqueness, the mutual one across builds,
/// and for the resolver the mean of the two, which one build alone holds to 70 at most.
pub proof fn fingerprint_scores_follow_the_similarities(ev: FingerprintEvidenceV)
    requires
        ev.min_similarity <= 1_000_000_000_000,
        ev.mutual_similarity <= 1_000_000_000_000,
    ensures
        ({
            let s = scoring::fingerprint_scores(ev);
            &&& rounds_to(ev.min_similarity as int, 10_000_000_000, s.uniqueness as int)
            &&& rounds_to(ev.mutual_similarity as int, 10_000_000_000, s.cross_build as int)
            &&& s.stability == if ev.builds >= 2 {
                88
            } else {
                72u32
            }
            &&& s.entropy == 0
            &&& exists|shown: int| #[trigger]
                shows(ev.ref_ident, 2, shown) && held_in(64 + shown, s.semantic as int)
            &&& ev.builds >= 2 ==> rounds_to(
                ev.min_similarity + ev.mutual_similarity,
                20_000_000_000,
                s.resolver_confidence as int,
            )
            &&& ev.builds < 2 ==> s.resolver_confidence <= 70 && s.resolver_confidence <= s.uniqueness
                && (s.resolver_confidence == 70 || s.resolver_confidence == s.uniqueness)
            &&& s.final_score == scoring::blend(s)
        }),
{
    richness_is_shown(ev.ref_ident, 2);
    assert(shows(ev.ref_ident, 2, scoring::richness(ev.ref_ident, 2)));
}

/// The modules that were hit.
pub open spec fn hit_modules(counts: Seq<usize>) -> Set<int> {
    Set::new(|k: int| 0 <= k < counts.len() && counts[k] > 0)
}

proof fn counts_are_summed(counts: Seq<usize>)
    ensures
        hit_modules(counts).finite(),
        scoring::nonzero(counts) == hit_modules(counts).len(),
        forall|k: int| 0 <= k < counts.len() ==> #[trigger] counts[k] <= scoring::greatest(counts),
        forall|k: int| 0 <= k < counts.len() ==> #[trigger] counts[k] <= scoring::total(counts),
        scoring::greatest(counts) > 0 ==> counts.contains(scoring::greatest(counts)),
        scoring::total(counts) >= scoring::nonzero(counts),
        scoring::total(counts) == counts.fold_left(0int, |t: int, c: usize| t + c),
    decreases counts.len(),
{
    if counts.len() == 0 {
        assert(hit_modules(counts) =~= Set::<int>::empty());
    } else {
        let d = counts.drop_last();
        counts_are_summed(d);
        if counts.last() > 0 {
            assert(hit_modules(counts) =~= hit_modules(d).insert(counts.len() - 1));
        } else {
            assert(hit_modules(counts) =~= hit_modules(d));
        }
        assert forall|k: int| 0 <= k < counts.len() implies #[trigger] counts[k] <= scoring::greatest(
            counts,
        ) && counts[k] <= scoring::total(counts) by {
            if k < d.len() {
                assert(counts[k] == d[k]);
            }
        }
        if scoring::greatest(counts) == counts.last() {
            assert(counts[counts.len() - 1] == scoring::greatest(counts));
        } else {
            let k = choose|k: int| 0 <= k < d.len() && d[k] == scoring::greatest(d);
            assert(counts[k] == scoring::greatest(counts));
        }
    }
}

/// The evidence of a negative corpus counts the modules that were hit and all their hits, and keeps the
/// most of any one.
pub proof fn negative_evidence_counts_the_modules(scanned: usize, counts: Seq<usize>)
    requires
        counts.len() <= usize::MAX,
        counts.fold_left(0int, |t: int, c: usize| t + c) <= usize::MAX,
    ensures
        ({
            let n = NegativeEvidence::summed(scanned, counts);
            &&& n.modules_scanned == scanned
            &&& n.modules_hit == hit_modules(counts).len()
            &&& n.total_hits == counts.fold_left(0int, |t: int, c: usize| t + c)
            &&& forall|k: int| 0 <= k < counts.len() ==> #[trigger] counts[k] <= n.max_hits_per_module
            &&& n.max_hits_per_module > 0 ==> counts.contains(n.max_hits_per_module)
        }),
{
    counts_are_summed(counts);
}

/// What matching unrelated modules costs: 35 points of uniqueness for each, 90 at most, and five more
/// where one is matched more than once. No module, no cost: the candidate stays as it is.
pub proof fn negatives_cost_uniqueness(c: SigCandidateV, neg: NegativeEvidence)
    ensures
        ({
            let after = scoring::after_negatives(c, neg);
            let modules: int = if neg.modules_hit >= 3 {
                90
            } else {
                35 * neg.modules_hit
            };
            let cost = modules + if neg.max_hits_per_module >= 2 {
                5int
            } else {
                0
            };
            &&& neg.modules_hit == 0 ==> after == c
            &&& neg.modules_hit > 0 ==> {
                &&& cost >= c.scores.uniqueness ==> after.scores.uniqueness == 0
                &&& cost < c.scores.uniqueness ==> after.scores.uniqueness + cost
                    == c.scores.uniqueness
                &&& after.scores.stability == c.scores.stability
                &&& after.scores.entropy == c.scores.entropy
                &&& after.scores.semantic == c.scores.semantic
                &&& after.scores.resolver_confidence == c.scores.resolver_confidence
                &&& after.scores.cross_build == c.scores.cross_build
                &&& after.scores.final_score == scoring::blend(after.scores)
                &&& after.score == after.scores.final_score
                &&& after.aob == c.aob
                &&& after.per_version == c.per_version
                &&& after.gated == c.gated
                &&& after.reasons.len() == c.reasons.len() + 1
                &&& after.grade != Grade::A
                &&& neg.modules_hit >= 2 ==> after.grade != Grade::B
                &&& after.score < 25 ==> after.grade == Grade::F
                &&& c.grade == Grade::F ==> after.grade == Grade::F
            }
        }),
{
}

}
