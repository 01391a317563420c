//! Relocating a function by its position in the matched call graph.
//!
//! A recompile rewrites function bodies but largely preserves who calls whom. So if some functions are
//! pinned with certainty, their neighbours can be matched by agreement: a function called by several
//! already-matched functions in the old build is the function called by the images of those same callers
//! in the new build. Committing those matches turns them into new seeds, and the correspondence grows
//! outward through the graph to a fixpoint.
//!
//! The discipline is to decline rather than guess. A function is committed only when at least
//! [`MIN_SUPPORT`] independent matched neighbours, callers or callees, agree on the same candidate, that
//! candidate is the strict unique maximum, it is not already taken, and the match is mutual-best.

use crate::domain::StringAnchor;
use crate::maps::{sort_unique, Lists, Tally};
use crate::ordered;
use crate::ordered::{holds_usize, insert_usize};
use crate::sigmaker::model;
use crate::sigmaker::model::{AnalysisModel, CallEdge};
use crate::sigmaker::strings;
use crate::sigmaker::strings::{enclosing_function, make_string_anchor, resolve_string_anchor};
use crate::sigmaker::types::ImageInput;
use std::collections::BTreeMap;
use vstd::prelude::*;

verus! {

broadcast use vstd::laws_cmp::group_laws_cmp;

/// At least this many independent matched neighbours must agree on a candidate before it is committed.
pub const MIN_SUPPORT: usize = 2;

/// The functions that `f` calls, in call order; a call of itself tells nothing and is left out.
pub open spec fn callees_in(edges: Seq<(usize, usize)>, f: usize) -> Seq<usize>
    decreases edges.len(),
{
    if edges.len() == 0 {
        Seq::empty()
    } else {
        let before = callees_in(edges.drop_last(), f);
        let e = edges.last();
        if e.0 == f && e.0 != e.1 {
            before.push(e.1)
        } else {
            before
        }
    }
}

/// The functions that call `f`, ascending.
pub open spec fn callers_in(edges: Seq<(usize, usize)>, f: usize) -> Seq<usize>
    decreases edges.len(),
{
    if edges.len() == 0 {
        Seq::empty()
    } else {
        let before = callers_in(edges.drop_last(), f);
        let e = edges.last();
        if e.1 == f && e.0 != e.1 {
            ordered::ins(before, e.0, ordered::rising())
        } else {
            before
        }
    }
}

/// Both ends of every edge.
pub open spec fn ends_of(edges: Seq<(usize, usize)>) -> Seq<usize>
    decreases edges.len(),
{
    if edges.len() == 0 {
        Seq::empty()
    } else {
        let before = ends_of(edges.drop_last());
        let e = edges.last();
        if e.0 != e.1 {
            before.push(e.0).push(e.1)
        } else {
            before
        }
    }
}

/// The function-level direct-call graph of one image: per function, the functions it calls in call
/// order and the functions that call it.
pub struct CallGraph {
    pub callees: Lists,
    pub callers: Lists,
    pub functions: Vec<usize>,
}

/// A call graph: per function its callees in call order and its callers ascending, and every function
/// that calls or is called.
#[verifier::ext_equal]
pub struct GraphV {
    pub callees: spec_fn(usize) -> Seq<usize>,
    pub callers: spec_fn(usize) -> Seq<usize>,
    pub functions: Seq<usize>,
}

/// A call by caller entry, site and callee.
pub type Call = (usize, usize, usize);

/// The order of calls: by caller, then site, then callee.
pub open spec fn call_before(a: Call, b: Call) -> bool {
    a.0 < b.0 || (a.0 == b.0 && (a.1 < b.1 || (a.1 == b.1 && a.2 < b.2)))
}

/// A call behind all that do not come after it.
pub open spec fn call_in(s: Seq<Call>, x: Call) -> Seq<Call>
    decreases s.len(),
{
    if s.len() == 0 || !call_before(x, s.last()) {
        s.push(x)
    } else {
        call_in(s.drop_last(), x).push(s.last())
    }
}

/// The calls of a model in order.
pub open spec fn ordered_calls(img: &ImageInput, edges: Seq<CallEdge>) -> Seq<Call>
    decreases edges.len(),
{
    if edges.len() == 0 {
        Seq::empty()
    } else {
        let e = edges.last();
        call_in(
            ordered_calls(img, edges.drop_last()),
            (strings::enclosing(img, e.site + 0) as usize, e.site, e.target),
        )
    }
}

/// Caller and callee of each call.
pub open spec fn call_pairs(calls: Seq<Call>) -> Seq<(usize, usize)> {
    Seq::new(calls.len(), |i: int| (calls[i].0, calls[i].2))
}

/// What a visit to a neighbour adds: each function once, in the order met.
pub open spec fn visited(seen: (Seq<usize>, Seq<usize>), list: Seq<usize>) -> (
    Seq<usize>,
    Seq<usize>,
)
    decreases list.len(),
{
    if list.len() == 0 {
        seen
    } else {
        let (all, next) = visited(seen, list.drop_last());
        let c = list.last();
        if all.contains(c) {
            (all, next)
        } else {
            (ordered::ins(all, c, ordered::rising()), next.push(c))
        }
    }
}

/// Visit the callers and callees of every function of the frontier.
pub open spec fn expanded(g: GraphV, all: Seq<usize>, frontier: Seq<usize>) -> (
    Seq<usize>,
    Seq<usize>,
)
    decreases frontier.len(),
{
    if frontier.len() == 0 {
        (all, Seq::empty())
    } else {
        let f = frontier.last();
        visited(
            visited(expanded(g, all, frontier.drop_last()), (g.callers)(f)),
            (g.callees)(f),
        )
    }
}

/// The functions within `depth` hops, or as many hops as it takes to see `cap` functions.
pub open spec fn hops(
    g: GraphV,
    all: Seq<usize>,
    frontier: Seq<usize>,
    depth: nat,
    cap: int,
) -> Seq<usize>
    decreases depth,
{
    if depth == 0 || all.len() >= cap {
        all
    } else {
        let (more, next) = expanded(g, all, frontier);
        hops(g, more, next, (depth - 1) as nat, cap)
    }
}

/// The functions within `depth` hops of `target`, at most `cap` of them.
pub open spec fn nearby(g: GraphV, target: usize, depth: nat, cap: int) -> Seq<usize> {
    let all = hops(g, seq![target], seq![target], depth, cap);
    if all.len() > cap {
        all.take(cap)
    } else {
        all
    }
}

/// The members of `s` that are matched.
pub open spec fn matched_in(s: Seq<usize>, m: Map<usize, usize>) -> Seq<usize>
    decreases s.len(),
{
    if s.len() == 0 {
        Seq::empty()
    } else if m.contains_key(s.last()) {
        matched_in(s.drop_last(), m).push(s.last())
    } else {
        matched_in(s.drop_last(), m)
    }
}

/// How many distinct neighbours of `f` are matched.
pub open spec fn matched_count(g: GraphV, f: usize, m: Map<usize, usize>) -> nat {
    ordered::sorted_set(
        matched_in((g.callers)(f), m) + matched_in((g.callees)(f), m),
        ordered::rising(),
    ).len()
}

/// The graph of the calls.
pub open spec fn graph_of(edges: Seq<(usize, usize)>) -> GraphV {
    GraphV {
        callees: |f: usize| callees_in(edges, f),
        callers: |f: usize| callers_in(edges, f),
        functions: ordered::sorted_set(ends_of(edges), ordered::rising()),
    }
}

/// The call graph of an image.
pub open spec fn image_graph(img: &ImageInput) -> GraphV {
    graph_of(call_pairs(ordered_calls(img, model::all_calls(img))))
}

impl View for CallGraph {
    type V = GraphV;

    open spec fn view(&self) -> GraphV {
        GraphV {
            callees: |f: usize| self.callees.of(f),
            callers: |f: usize| self.callers.of(f),
            functions: self.functions@,
        }
    }
}

impl CallGraph {
    /// The graph of the given calls, as pairs of caller and callee in call order.
    pub fn from_edges(edges: &[(usize, usize)]) -> (g: CallGraph)
        ensures
            g@ == graph_of(edges@),
    {
        let mut callees = Lists::new();
        let mut callers = Lists::new();
        let mut ends: Vec<usize> = Vec::new();
        let mut i: usize = 0;
        assert(edges@.take(0) =~= Seq::<(usize, usize)>::empty());
        while i < edges.len()
            invariant
                i <= edges@.len(),
                forall|f: usize| #[trigger] callees.of(f) == callees_in(edges@.take(i + 0), f),
                forall|f: usize| #[trigger] callers.of(f) == callers_in(edges@.take(i + 0), f),
                ends@ == ends_of(edges@.take(i + 0)),
            decreases edges@.len() - i,
        {
            assert(edges@.take(i + 1).drop_last() =~= edges@.take(i + 0));
            let (caller, callee) = edges[i];
            if caller != callee {
                callees.push(caller, callee);
                callers.insert(callee, caller);
                ends.push(caller);
                ends.push(callee);
            }
            i += 1;
        }
        assert(edges@.take(i + 0) =~= edges@);
        let functions = sort_unique(&ends);
        let g = CallGraph { callees, callers, functions };
        assert(g@.callees =~= graph_of(edges@).callees);
        assert(g@.callers =~= graph_of(edges@).callers);
        g
    }

    /// The call graph of a model: every call attributed to its enclosing function.
    pub fn build(img: &ImageInput, model: &AnalysisModel) -> (g: CallGraph)
        requires
            model::edges_reach(img, model.edges@),
        ensures
            g@ == graph_of(call_pairs(ordered_calls(img, model.edges@))),
    {
        let mut calls: Vec<Call> = Vec::new();
        let mut i: usize = 0;
        assert(model.edges@.take(0) =~= Seq::<CallEdge>::empty());
        while i < model.edges.len()
            invariant
                model::edges_reach(img, model.edges@),
                i <= model.edges@.len(),
                calls@ == ordered_calls(img, model.edges@.take(i + 0)),
            decreases model.edges@.len() - i,
        {
            assert(model.edges@.take(i + 1).drop_last() =~= model.edges@.take(i + 0));
            let e = model.edges[i];
            assert(img.reaches(model.edges@[i + 0].site + 0));
            let caller: usize = enclosing_function(img, e.site);
            put_call(&mut calls, (caller, e.site, e.target));
            i += 1;
        }
        assert(model.edges@.take(i + 0) =~= model.edges@);
        let mut pairs: Vec<(usize, usize)> = Vec::new();
        let mut k: usize = 0;
        while k < calls.len()
            invariant
                k <= calls@.len(),
                pairs@ == call_pairs(calls@).take(k + 0),
            decreases calls@.len() - k,
        {
            pairs.push((calls[k].0, calls[k].2));
            k += 1;
            assert(pairs@ =~= call_pairs(calls@).take(k + 0));
        }
        assert(pairs@ =~= call_pairs(calls@));
        CallGraph::from_edges(pairs.as_slice())
    }

    /// Every function that appears in the graph, ascending.
    pub fn functions(&self) -> (f: &[usize])
        ensures
            f@ == self.functions@,
    {
        self.functions.as_slice()
    }

    /// The functions within `depth` call-graph hops of `target`, both directions, capped at `cap`: the
    /// seed search stays local to the target's neighbourhood, and the cap bounds it on a densely
    /// connected hub.
    pub fn neighbourhood(&self, target: usize, depth: usize, cap: usize) -> (out: Vec<usize>)
        ensures
            out@ == nearby(self@, target, depth as nat, cap as int),
    {
        let mut seen: Vec<usize> = vec![target];
        let mut frontier: Vec<usize> = vec![target];
        let mut left: usize = depth;
        assert(seen@ =~= seq![target]);
        assert(frontier@ =~= seq![target]);
        while left > 0 && seen.len() < cap
            invariant
                hops(self@, seq![target], seq![target], depth as nat, cap as int) == hops(
                    self@,
                    seen@,
                    frontier@,
                    left as nat,
                    cap as int,
                ),
            decreases left,
        {
            let mut next: Vec<usize> = Vec::new();
            let ghost start = seen@;
            let mut i: usize = 0;
            assert(frontier@.take(0) =~= Seq::<usize>::empty());
            while i < frontier.len()
                invariant
                    i <= frontier@.len(),
                    (seen@, next@) == expanded(self@, start, frontier@.take(i as int)),
                decreases frontier@.len() - i,
            {
                assert(frontier@.take(i + 1).drop_last() =~= frontier@.take(i as int));
                let f: usize = frontier[i];
                let callers = self.callers.get(f);
                visit(&mut seen, &mut next, &callers);
                let callees = self.callees.get(f);
                visit(&mut seen, &mut next, &callees);
                i += 1;
            }
            assert(frontier@.take(i as int) =~= frontier@);
            frontier = next;
            left -= 1;
        }
        seen.truncate(cap);
        seen
    }

    /// How many of `f`'s graph neighbours, counted once each, are already matched.
    pub fn matched_neighbours(&self, f: usize, m: &BTreeMap<usize, usize>) -> (n: usize)
        ensures
            n == matched_count(self@, f, m@),
    {
        let mut found: Vec<usize> = Vec::new();
        let callers = self.callers.get(f);
        collect_matched(&mut found, &callers, m);
        assert(found@ =~= matched_in(callers@, m@));
        let callees = self.callees.get(f);
        collect_matched(&mut found, &callees, m);
        let distinct = sort_unique(&found);
        distinct.len()
    }
}

fn collect_matched(found: &mut Vec<usize>, list: &Vec<usize>, m: &BTreeMap<usize, usize>)
    ensures
        final(found)@ == old(found)@ + matched_in(list@, m@),
{
    let ghost start = found@;
    let mut i: usize = 0;
    assert(start + matched_in(list@.take(0), m@) =~= start);
    while i < list.len()
        invariant
            i <= list@.len(),
            found@ == start + matched_in(list@.take(i as int), m@),
        decreases list@.len() - i,
    {
        assert(list@.take(i + 1).drop_last() =~= list@.take(i as int));
        if m.contains_key(&list[i]) {
            found.push(list[i]);
            assert(found@ =~= start + matched_in(list@.take(i + 1), m@));
        }
        i += 1;
    }
    assert(list@.take(i as int) =~= list@);
}

fn visit(seen: &mut Vec<usize>, next: &mut Vec<usize>, list: &Vec<usize>)
    ensures
        (final(seen)@, final(next)@) == visited((old(seen)@, old(next)@), list@),
{
    let ghost start = (seen@, next@);
    let mut i: usize = 0;
    assert(list@.take(0) =~= Seq::<usize>::empty());
    while i < list.len()
        invariant
            i <= list@.len(),
            (seen@, next@) == visited(start, list@.take(i as int)),
        decreases list@.len() - i,
    {
        assert(list@.take(i + 1).drop_last() =~= list@.take(i as int));
        if !holds_usize(seen.as_slice(), list[i]) {
            insert_usize(seen, list[i]);
            next.push(list[i]);
        }
        i += 1;
    }
    assert(list@.take(i as int) =~= list@);
}

fn put_call(v: &mut Vec<Call>, x: Call)
    ensures
        final(v)@ == call_in(old(v)@, x),
{
    let mut i: usize = v.len();
    let ghost s = v@;
    assert(s.take(i as int) =~= s);
    assert(call_in(s, x) =~= call_in(s.take(i as int), x) + s.skip(i as int));
    while i > 0 && (x.0 < v[i - 1].0 || (x.0 == v[i - 1].0 && (x.1 < v[i - 1].1 || (x.1 == v[i
        - 1].1 && x.2 < v[i - 1].2))))
        invariant
            i <= v@.len(),
            v@ == s,
            call_in(s, x) == call_in(s.take(i as int), x) + s.skip(i as int),
        decreases i,
    {
        proof {
            let t = s.take(i as int);
            assert(t.drop_last() =~= s.take(i - 1));
            assert(call_in(t, x) == call_in(t.drop_last(), x).push(t.last()));
            assert(call_in(t, x) + s.skip(i as int) =~= call_in(s.take(i - 1), x) + s.skip(i - 1));
        }
        i -= 1;
    }
    v.insert(i, x);
    assert(v@ =~= s.take(i as int).push(x) + s.skip(i as int));
}

/// The callers and callees of `f`, ascending, each once.
pub open spec fn neighbours(g: GraphV, f: usize) -> Seq<usize> {
    ordered::sorted_set((g.callers)(f) + (g.callees)(f), ordered::rising())
}

/// The candidates that the neighbour `c` of `t`, matched to `b`, points at: the callees of `b` where `c`
/// calls `t`, and the callers of `b` where `t` calls `c`; each once.
pub open spec fn pointed_at(t: usize, c: usize, b: usize, ga: GraphV, gb: GraphV) -> Seq<usize> {
    ordered::sorted_set(
        (if (ga.callers)(t).contains(c) {
            (gb.callees)(b)
        } else {
            Seq::empty()
        }) + (if (ga.callees)(t).contains(c) {
            (gb.callers)(b)
        } else {
            Seq::empty()
        }),
        ordered::rising(),
    )
}

/// The votes of the matched among `list`.
pub open spec fn votes_of(
    t: usize,
    list: Seq<usize>,
    ga: GraphV,
    gb: GraphV,
    m: Map<usize, usize>,
) -> Seq<Seq<usize>>
    decreases list.len(),
{
    if list.len() == 0 {
        Seq::empty()
    } else {
        let before = votes_of(t, list.drop_last(), ga, gb, m);
        let c = list.last();
        if m.contains_key(c) {
            before.push(pointed_at(t, c, m[c], ga, gb))
        } else {
            before
        }
    }
}

/// The votes of the matched neighbours of `t`, one each: a vote names the candidates its neighbour points
/// at.
pub open spec fn votes(t: usize, ga: GraphV, gb: GraphV, m: Map<usize, usize>) -> Seq<
    Seq<usize>,
> {
    votes_of(t, neighbours(ga, t), ga, gb, m)
}

/// How many votes name `g`.
pub open spec fn support(v: Seq<Seq<usize>>, g: usize) -> nat
    decreases v.len(),
{
    if v.len() == 0 {
        0
    } else {
        support(v.drop_last(), g) + if v.last().contains(g) {
            1nat
        } else {
            0nat
        }
    }
}

/// All candidates named, in the order of the votes.
pub open spec fn named(v: Seq<Seq<usize>>) -> Seq<usize>
    decreases v.len(),
{
    if v.len() == 0 {
        Seq::empty()
    } else {
        named(v.drop_last()) + v.last()
    }
}

/// The leading candidate: most votes, the lowest address among equals, and the votes of the second.
pub open spec fn leader(v: Seq<Seq<usize>>, candidates: Seq<usize>) -> Option<(usize, nat, nat)>
    decreases candidates.len(),
{
    if candidates.len() == 0 {
        None
    } else {
        let g = candidates.last();
        let s = support(v, g);
        match leader(v, candidates.drop_last()) {
            None => Some((g, s, 0)),
            Some((bg, bs, run)) => if s > bs {
                Some((g, s, bs))
            } else if s > run {
                Some((bg, bs, s))
            } else {
                Some((bg, bs, run))
            },
        }
    }
}

/// The consensus candidate in `gb` for function `t` of `ga`, its support and the runner-up's; `None`
/// where no matched neighbour votes.
pub open spec fn consensus_of(
    t: usize,
    ga: GraphV,
    gb: GraphV,
    m: Map<usize, usize>,
) -> Option<(usize, nat, nat)> {
    let v = votes(t, ga, gb, m);
    leader(v, ordered::sorted_set(named(v), ordered::rising()))
}

proof fn support_is_bounded(v: Seq<Seq<usize>>, g: usize)
    ensures
        support(v, g) <= v.len(),
    decreases v.len(),
{
    if v.len() > 0 {
        support_is_bounded(v.drop_last(), g);
    }
}

fn join(a: &Vec<usize>, b: &Vec<usize>) -> (r: Vec<usize>)
    ensures
        r@ == a@ + b@,
{
    let mut r: Vec<usize> = a.clone();
    assert(r@ =~= a@);
    let mut i: usize = 0;
    while i < b.len()
        invariant
            i <= b@.len(),
            r@ == a@ + b@.take(i as int),
        decreases b@.len() - i,
    {
        r.push(b[i]);
        i += 1;
        assert(r@ =~= a@ + b@.take(i as int));
    }
    assert(b@.take(i as int) =~= b@);
    r
}

fn collect_votes(
    t: usize,
    ga: &CallGraph,
    gb: &CallGraph,
    m: &BTreeMap<usize, usize>,
) -> (v: Vec<Vec<usize>>)
    ensures
        v.deep_view() == votes(t, ga@, gb@, m@),
        forall|i: int|
            0 <= i < v@.len() ==> ordered::is_sorted((#[trigger] v@[i])@, ordered::rising()),
{
    let mut v: Vec<Vec<usize>> = Vec::new();
    let callers = ga.callers.get(t);
    let callees = ga.callees.get(t);
    let near = join(&callers, &callees);
    let list = sort_unique(&near);
    let mut i: usize = 0;
    assert(list@.take(0) =~= Seq::<usize>::empty());
    assert(v.deep_view() =~= Seq::<Seq<usize>>::empty());
    proof {
        ordered::numbers_are_ordered();
    }
    while i < list.len()
        invariant
            ordered::is_strict_order(ordered::rising()),
            callers@ == (ga@.callers)(t),
            callees@ == (ga@.callees)(t),
            i <= list@.len(),
            v.deep_view() == votes_of(t, list@.take(i as int), ga@, gb@, m@),
            forall|k: int|
                0 <= k < v@.len() ==> ordered::is_sorted((#[trigger] v@[k])@, ordered::rising()),
        decreases list@.len() - i,
    {
        assert(list@.take(i + 1).drop_last() =~= list@.take(i as int));
        let c: usize = list[i];
        if let Some(b) = m.get(&c) {
            let ghost before = v.deep_view();
            let down: Vec<usize> = if holds_usize(callers.as_slice(), c) {
                gb.callees.get(*b)
            } else {
                Vec::new()
            };
            let up: Vec<usize> = if holds_usize(callees.as_slice(), c) {
                gb.callers.get(*b)
            } else {
                Vec::new()
            };
            let all = join(&down, &up);
            let set = sort_unique(&all);
            proof {
                ordered::sorted_set_is_sorted(Seq::empty(), all@, ordered::rising());
                assert(down@ =~= (if (ga@.callers)(t).contains(c) {
                    (gb@.callees)(*b)
                } else {
                    Seq::empty()
                }));
                assert(up@ =~= (if (ga@.callees)(t).contains(c) {
                    (gb@.callers)(*b)
                } else {
                    Seq::empty()
                }));
            }
            v.push(set);
            assert(v.deep_view() =~= before.push(set.deep_view()));
            assert(set.deep_view() =~= set@);
        }
        i += 1;
    }
    assert(list@.take(i as int) =~= list@);
    v
}

/// The consensus candidate for `t`: the one that the most distinct matched neighbours of `t` point at, how
/// many that are, and how many point at the runner-up.
pub fn consensus(
    t: usize,
    ga: &CallGraph,
    gb: &CallGraph,
    m: &BTreeMap<usize, usize>,
) -> (r: Option<(usize, usize, usize)>)
    ensures
        match r {
            Some((g, s, run)) => consensus_of(t, ga@, gb@, m@) == Some((g, s as nat, run as nat)),
            None => consensus_of(t, ga@, gb@, m@) is None,
        },
{
    let v = collect_votes(t, ga, gb, m);
    let ghost vv = v.deep_view();
    let mut counts = Tally::new();
    let mut all: Vec<usize> = Vec::new();
    let mut i: usize = 0;
    let whole: usize = v.len();
    assert(vv.take(0) =~= Seq::<Seq<usize>>::empty());
    while i < v.len()
        invariant
            whole == v@.len(),
            vv == v.deep_view(),
            i <= v@.len(),
            all@ == named(vv.take(i as int)),
            forall|q: int|
                0 <= q < v@.len() ==> ordered::is_sorted((#[trigger] v@[q])@, ordered::rising()),
            forall|g: usize| #[trigger] counts.of(g) == support(vv.take(i as int), g),
        decreases v@.len() - i,
    {
        let ghost done = vv.take(i as int);
        assert(vv.take(i + 1).drop_last() =~= done);
        assert(vv.take(i + 1).last() == v@[i as int].deep_view());
        assert(v@[i as int].deep_view() =~= v@[i as int]@);
        let ghost list = v@[i as int]@;
        let ghost start = all@;
        let mut k: usize = 0;
        while k < v[i].len()
            invariant
                whole == v@.len(),
                i < v@.len(),
                list == v@[i as int]@,
                k <= list.len(),
                done.len() == i,
                ordered::is_sorted(list, ordered::rising()),
                all@ == start + list.take(k as int),
                forall|g: usize| #[trigger]
                    counts.of(g) == support(done, g) + if list.take(k as int).contains(g) {
                        1nat
                    } else {
                        0nat
                    },
            decreases list.len() - k,
        {
            let g: usize = v[i][k];
            proof {
                support_is_bounded(done, g);
                if list.take(k as int).contains(g) {
                    let j = choose|j: int| 0 <= j < k && list.take(k as int)[j] == g;
                    assert((ordered::rising())(list[j], list[k as int]));
                }
            }
            let ghost earlier = list.take(k as int);
            counts.bump(g);
            all.push(g);
            k += 1;
            proof {
                let now = list.take(k as int);
                assert(now =~= earlier.push(g));
                assert forall|x: usize| now.contains(x) <==> (earlier.contains(x) || x == g) by {
                    if earlier.contains(x) {
                        let j = choose|j: int| 0 <= j < earlier.len() && earlier[j] == x;
                        assert(now[j] == x);
                    }
                    assert(now[k - 1] == g);
                    if now.contains(x) {
                        let j = choose|j: int| 0 <= j < now.len() && now[j] == x;
                        if j < k - 1 {
                            assert(earlier[j] == x);
                        }
                    }
                }
                assert(all@ =~= start + now);
            }
        }
        assert(list.take(k as int) =~= list);
        i += 1;
    }
    assert(vv.take(i as int) =~= vv);
    let candidates = sort_unique(&all);
    let mut best: Option<(usize, usize, usize)> = None;
    let mut c: usize = 0;
    assert(candidates@.take(0) =~= Seq::<usize>::empty());
    while c < candidates.len()
        invariant
            c <= candidates@.len(),
            forall|g: usize| #[trigger] counts.of(g) == support(vv, g),
            match best {
                Some((g, s, run)) => leader(vv, candidates@.take(c as int)) == Some(
                    (g, s as nat, run as nat),
                ),
                None => leader(vv, candidates@.take(c as int)) is None,
            },
        decreases candidates@.len() - c,
    {
        assert(candidates@.take(c + 1).drop_last() =~= candidates@.take(c as int));
        let g: usize = candidates[c];
        let s: usize = counts.get(g);
        best = match best {
            None => Some((g, s, 0)),
            Some((bg, bs, run)) => if s > bs {
                Some((g, s, bs))
            } else if s > run {
                Some((bg, bs, s))
            } else {
                Some((bg, bs, run))
            },
        };
        c += 1;
    }
    assert(candidates@.take(c as int) =~= candidates@);
    best
}

/// Whether the consensus for `g` back in `ga` is `t`, with enough support and a strict margin.
pub open spec fn is_mutual(
    t: usize,
    g: usize,
    ga: GraphV,
    gb: GraphV,
    m_inv: Map<usize, usize>,
) -> bool {
    match consensus_of(g, gb, ga, m_inv) {
        Some((back, sup, run)) => back == t && sup >= MIN_SUPPORT && sup > run,
        None => false,
    }
}

/// Whether `t -> g` is mutual-best. A one-directional coincidence (g is t's best, but t is not g's
/// best) fails this and is not committed.
pub fn mutual_best(
    t: usize,
    g: usize,
    ga: &CallGraph,
    gb: &CallGraph,
    m_inv: &BTreeMap<usize, usize>,
) -> (r: bool)
    ensures
        r == is_mutual(t, g, ga@, gb@, m_inv@),
{
    match consensus(g, gb, ga, m_inv) {
        Some((back, sup, run)) => back == t && sup >= MIN_SUPPORT && sup > run,
        None => false,
    }
}

/// A correspondence and its inverse.
pub type Pairing = (Map<usize, usize>, Map<usize, usize>);

/// The match proposed for `t`, if every gate is cleared.
pub open spec fn proposal(t: usize, ga: GraphV, gb: GraphV, p: Pairing) -> Option<usize> {
    if p.0.contains_key(t) || matched_count(ga, t, p.0) < MIN_SUPPORT {
        None
    } else {
        match consensus_of(t, ga, gb, p.0) {
            None => None,
            Some((g, sup, run)) => if sup >= MIN_SUPPORT && sup > run && !p.1.contains_key(g)
                && is_mutual(t, g, ga, gb, p.1) {
                Some(g)
            } else {
                None
            },
        }
    }
}

/// The matches proposed for the functions.
pub open spec fn proposals(
    functions: Seq<usize>,
    ga: GraphV,
    gb: GraphV,
    p: Pairing,
) -> Seq<(usize, usize)>
    decreases functions.len(),
{
    if functions.len() == 0 {
        Seq::empty()
    } else {
        let before = proposals(functions.drop_last(), ga, gb, p);
        match proposal(functions.last(), ga, gb, p) {
            Some(g) => before.push((functions.last(), g)),
            None => before,
        }
    }
}

/// How many proposals want `g`.
pub open spec fn claims(all: Seq<(usize, usize)>, g: usize) -> nat
    decreases all.len(),
{
    if all.len() == 0 {
        0
    } else {
        claims(all.drop_last(), g) + if all.last().1 == g {
            1nat
        } else {
            0nat
        }
    }
}

/// Commit the proposals that nobody else wants and that are still free.
pub open spec fn committed(all: Seq<(usize, usize)>, todo: Seq<(usize, usize)>, p: Pairing) -> Pairing
    decreases todo.len(),
{
    if todo.len() == 0 {
        p
    } else {
        let q = committed(all, todo.drop_last(), p);
        let (t, g) = todo.last();
        if claims(all, g) == 1 && !q.0.contains_key(t) && !q.1.contains_key(g) {
            (q.0.insert(t, g), q.1.insert(g, t))
        } else {
            q
        }
    }
}

/// How many of the functions are unmatched.
pub open spec fn unmatched(functions: Seq<usize>, m: Map<usize, usize>) -> nat
    decreases functions.len(),
{
    if functions.len() == 0 {
        0
    } else {
        unmatched(functions.drop_last(), m) + if m.contains_key(functions.last()) {
            0nat
        } else {
            1nat
        }
    }
}

/// One round: propose, then commit what is free of conflict.
pub open spec fn round(ga: GraphV, gb: GraphV, p: Pairing) -> Pairing {
    let all = proposals(ga.functions, ga, gb, p);
    committed(all, all, p)
}

/// Rounds until one commits nothing.
pub open spec fn settled(ga: GraphV, gb: GraphV, p: Pairing) -> Pairing
    decreases unmatched(ga.functions, p.0),
{
    let q = round(ga, gb, p);
    if unmatched(ga.functions, q.0) < unmatched(ga.functions, p.0) {
        settled(ga, gb, q)
    } else {
        p
    }
}

/// The correspondence that the seeds give; of two seeds for one function the later counts.
pub open spec fn seeded(seeds: Seq<(usize, usize)>) -> Pairing
    decreases seeds.len(),
{
    if seeds.len() == 0 {
        (Map::empty(), Map::empty())
    } else {
        let p = seeded(seeds.drop_last());
        let (a, b) = seeds.last();
        (p.0.insert(a, b), p.1.insert(b, a))
    }
}

proof fn unmatched_falls(functions: Seq<usize>, m: Map<usize, usize>, t: usize, g: usize)
    ensures
        unmatched(functions, m.insert(t, g)) <= unmatched(functions, m),
        functions.contains(t) && !m.contains_key(t) ==> unmatched(functions, m.insert(t, g))
            < unmatched(functions, m),
    decreases functions.len(),
{
    if functions.len() > 0 {
        let d = functions.drop_last();
        unmatched_falls(d, m, t, g);
        if functions.contains(t) && functions.last() != t {
            let k = choose|k: int| 0 <= k < functions.len() && functions[k] == t;
            assert(d[k] == t);
        }
    }
}

proof fn proposals_are_functions(functions: Seq<usize>, ga: GraphV, gb: GraphV, p: Pairing)
    ensures
        forall|i: int|
            0 <= i < proposals(functions, ga, gb, p).len() ==> functions.contains(
                (#[trigger] proposals(functions, ga, gb, p)[i]).0,
            ),
    decreases functions.len(),
{
    if functions.len() > 0 {
        let d = functions.drop_last();
        proposals_are_functions(d, ga, gb, p);
        let all = proposals(functions, ga, gb, p);
        let before = proposals(d, ga, gb, p);
        assert forall|i: int| 0 <= i < all.len() implies functions.contains((#[trigger] all[i]).0)
            by {
            if i < before.len() {
                assert(all[i] == before[i]);
                let k = choose|k: int| 0 <= k < d.len() && d[k] == before[i].0;
                assert(d.contains(before[i].0));
                assert(functions[k] == all[i].0);
            } else {
                assert(functions[functions.len() - 1] == all[i].0);
            }
        }
    }
}

/// Seed-and-propagate the correspondence `ga -> gb` from `seeds` to a fixpoint, committing only matches
/// that clear every gate. Returns the full correspondence including the seeds. A candidate claimed by
/// more than one function in a round is committed for none of them.
pub fn align(ga: &CallGraph, gb: &CallGraph, seeds: &[(usize, usize)]) -> (r: BTreeMap<usize, usize>)
    ensures
        r@ == settled(ga@, gb@, seeded(seeds@)).0,
{
    let mut m: BTreeMap<usize, usize> = BTreeMap::new();
    let mut m_inv: BTreeMap<usize, usize> = BTreeMap::new();
    let mut i: usize = 0;
    assert(seeds@.take(0) =~= Seq::<(usize, usize)>::empty());
    while i < seeds.len()
        invariant
            i <= seeds@.len(),
            (m@, m_inv@) == seeded(seeds@.take(i as int)),
        decreases seeds@.len() - i,
    {
        assert(seeds@.take(i + 1).drop_last() =~= seeds@.take(i as int));
        let (a, b) = seeds[i];
        m.insert(a, b);
        m_inv.insert(b, a);
        i += 1;
    }
    assert(seeds@.take(i as int) =~= seeds@);
    let ghost whole = settled(ga@, gb@, (m@, m_inv@));
    let mut open: bool = true;
    while open
        invariant
            open ==> whole == settled(ga@, gb@, (m@, m_inv@)),
            !open ==> whole.0 == m@,
        decreases (if open { 1int } else { 0int }), unmatched(ga.functions@, m@),
    {
        let ghost p = (m@, m_inv@);
        let all = propose(ga, gb, &m, &m_inv);
        let changed: bool = commit(&all, &mut m, &mut m_inv, ga, gb);
        if !changed {
            open = false;
        }
    }
    m
}

fn propose(
    ga: &CallGraph,
    gb: &CallGraph,
    m: &BTreeMap<usize, usize>,
    m_inv: &BTreeMap<usize, usize>,
) -> (all: Vec<(usize, usize)>)
    ensures
        all@ == proposals(ga.functions@, ga@, gb@, (m@, m_inv@)),
{
    let mut all: Vec<(usize, usize)> = Vec::new();
    let mut i: usize = 0;
    let ghost p = (m@, m_inv@);
    assert(ga.functions@.take(0) =~= Seq::<usize>::empty());
    while i < ga.functions.len()
        invariant
            p == (m@, m_inv@),
            i <= ga.functions@.len(),
            all@ == proposals(ga.functions@.take(i as int), ga@, gb@, p),
        decreases ga.functions@.len() - i,
    {
        assert(ga.functions@.take(i + 1).drop_last() =~= ga.functions@.take(i as int));
        let t: usize = ga.functions[i];
        if !m.contains_key(&t) && ga.matched_neighbours(t, m) >= MIN_SUPPORT {
            if let Some((g, sup, run)) = consensus(t, ga, gb, m) {
                if sup >= MIN_SUPPORT && sup > run && !m_inv.contains_key(&g) && mutual_best(
                    t,
                    g,
                    ga,
                    gb,
                    m_inv,
                ) {
                    all.push((t, g));
                }
            }
        }
        i += 1;
    }
    assert(ga.functions@.take(i as int) =~= ga.functions@);
    all
}

fn count_claims(all: &Vec<(usize, usize)>, g: usize) -> (n: usize)
    ensures
        n == claims(all@, g),
{
    let mut n: usize = 0;
    let mut i: usize = 0;
    assert(all@.take(0) =~= Seq::<(usize, usize)>::empty());
    while i < all.len()
        invariant
            i <= all@.len(),
            n <= i,
            n == claims(all@.take(i as int), g),
        decreases all@.len() - i,
    {
        assert(all@.take(i + 1).drop_last() =~= all@.take(i as int));
        if all[i].1 == g {
            n += 1;
        }
        i += 1;
    }
    assert(all@.take(i as int) =~= all@);
    n
}

fn commit(
    all: &Vec<(usize, usize)>,
    m: &mut BTreeMap<usize, usize>,
    m_inv: &mut BTreeMap<usize, usize>,
    ga: &CallGraph,
    gb: &CallGraph,
) -> (changed: bool)
    requires
        all@ == proposals(ga.functions@, ga@, gb@, (old(m)@, old(m_inv)@)),
    ensures
        (final(m)@, final(m_inv)@) == round(ga@, gb@, (old(m)@, old(m_inv)@)),
        changed ==> unmatched(ga.functions@, final(m)@) < unmatched(ga.functions@, old(m)@),
        !changed ==> final(m)@ == old(m)@,
{
    let ghost p = (m@, m_inv@);
    let mut changed: bool = false;
    let mut i: usize = 0;
    proof {
        proposals_are_functions(ga.functions@, ga@, gb@, p);
        assert(all@.take(0) =~= Seq::<(usize, usize)>::empty());
    }
    while i < all.len()
        invariant
            i <= all@.len(),
            p.0 == old(m)@,
            forall|k: int|
                0 <= k < all@.len() ==> ga.functions@.contains((#[trigger] all@[k]).0),
            (m@, m_inv@) == committed(all@, all@.take(i as int), p),
            changed ==> unmatched(ga.functions@, m@) < unmatched(ga.functions@, p.0),
            !changed ==> m@ == p.0,
        decreases all@.len() - i,
    {
        assert(all@.take(i + 1).drop_last() =~= all@.take(i as int));
        let (t, g) = all[i];
        if count_claims(all, g) == 1 && !m.contains_key(&t) && !m_inv.contains_key(&g) {
            proof {
                assert(ga.functions@.contains(all@[i as int].0));
                unmatched_falls(ga.functions@, m@, t, g);
            }
            m.insert(t, g);
            m_inv.insert(g, t);
            changed = true;
        }
        i += 1;
    }
    assert(all@.take(i as int) =~= all@);
    changed
}

/// Two maps that undo each other.
pub open spec fn inverse(p: Pairing) -> bool {
    &&& forall|t: usize|
        #![trigger p.0.contains_key(t)]
        p.0.contains_key(t) ==> p.1.contains_key(p.0[t]) && p.1[p.0[t]] == t
    &&& forall|g: usize|
        #![trigger p.1.contains_key(g)]
        p.1.contains_key(g) ==> p.0.contains_key(p.1[g]) && p.0[p.1[g]] == g
}

proof fn commit_keeps(all: Seq<(usize, usize)>, todo: Seq<(usize, usize)>, p: Pairing)
    ensures
        forall|t: usize|
            #![trigger p.0.contains_key(t)]
            p.0.contains_key(t) ==> committed(all, todo, p).0.contains_key(t) && committed(
                all,
                todo,
                p,
            ).0[t] == p.0[t],
        inverse(p) ==> inverse(committed(all, todo, p)),
    decreases todo.len(),
{
    if todo.len() > 0 {
        commit_keeps(all, todo.drop_last(), p);
        let q = committed(all, todo.drop_last(), p);
        let r = committed(all, todo, p);
        if inverse(p) {
            assert forall|t: usize| #![trigger r.0.contains_key(t)] r.0.contains_key(
                t,
            ) implies r.1.contains_key(r.0[t]) && r.1[r.0[t]] == t by {
                if q.0.contains_key(t) {
                    assert(q.1.contains_key(q.0[t]));
                }
            }
            assert forall|g: usize| #![trigger r.1.contains_key(g)] r.1.contains_key(
                g,
            ) implies r.0.contains_key(r.1[g]) && r.0[r.1[g]] == g by {
                if q.1.contains_key(g) {
                    assert(q.0.contains_key(q.1[g]));
                }
            }
        }
    }
}

/// The alignment keeps every seed, and where the seeds pair functions one to one, so does the whole
/// correspondence.
pub proof fn alignment_keeps_seeds_and_stays_one_to_one(ga: GraphV, gb: GraphV, p: Pairing)
    ensures
        forall|t: usize|
            #![trigger p.0.contains_key(t)]
            p.0.contains_key(t) ==> settled(ga, gb, p).0.contains_key(t) && settled(ga, gb, p).0[t]
                == p.0[t],
        inverse(p) ==> inverse(settled(ga, gb, p)),
    decreases unmatched(ga.functions, p.0),
{
    let all = proposals(ga.functions, ga, gb, p);
    let q = round(ga, gb, p);
    commit_keeps(all, all, p);
    if unmatched(ga.functions, q.0) < unmatched(ga.functions, p.0) {
        alignment_keeps_seeds_and_stays_one_to_one(ga, gb, q);
        assert forall|t: usize| #![trigger p.0.contains_key(t)] p.0.contains_key(t) implies settled(
            ga,
            gb,
            p,
        ).0.contains_key(t) && settled(ga, gb, p).0[t] == p.0[t] by {
            assert(q.0.contains_key(t));
        }
    }
}

/// The string anchors among `candidates` that pin exactly their own function in build `a`.
pub open spec fn anchored_among(a: &ImageInput, candidates: Seq<usize>) -> Seq<
    (usize, crate::domain::StringAnchorV),
>
    decreases candidates.len(),
{
    if candidates.len() == 0 {
        Seq::empty()
    } else {
        let before = anchored_among(a, candidates.drop_last());
        let f = candidates.last();
        match strings::string_anchor_of(a, f + 0) {
            Some(sa) => if a.reaches(f + 0) && strings::anchored(a, sa) == Some(f) {
                before.push((f, sa))
            } else {
                before
            },
            None => before,
        }
    }
}

/// Make the certain-seed string anchors among `candidates` (function entries in build `a`): a candidate
/// whose own string anchor pins exactly it in `a` is kept with its anchor.
pub fn anchor_candidates(a: &ImageInput, candidates: &[usize]) -> (out: Vec<(usize, StringAnchor)>)
    requires
        a.wf(),
    ensures
        out.deep_view() == anchored_among(a, candidates@),
{
    let mut out: Vec<(usize, StringAnchor)> = Vec::new();
    let mut i: usize = 0;
    assert(candidates@.take(0) =~= Seq::<usize>::empty());
    assert(out.deep_view() =~= Seq::<(usize, crate::domain::StringAnchorV)>::empty());
    while i < candidates.len()
        invariant
            a.wf(),
            i <= candidates@.len(),
            out.deep_view() == anchored_among(a, candidates@.take(i as int)),
        decreases candidates@.len() - i,
    {
        assert(candidates@.take(i + 1).drop_last() =~= candidates@.take(i as int));
        let f: usize = candidates[i];
        if a.can_reach(f) {
            if let Some(sa) = make_string_anchor(a, f) {
                let found = resolve_string_anchor(a, &sa);
                if found.is_some() && found.unwrap() == f {
                    let ghost before = out.deep_view();
                    let ghost view = sa.deep_view();
                    out.push((f, sa));
                    assert(out.deep_view() =~= before.push((f, view)));
                }
            }
        }
        i += 1;
    }
    assert(candidates@.take(i as int) =~= candidates@);
    out
}

/// The seeds that the anchors give in build `b`.
pub open spec fn seeds_in(
    b: &ImageInput,
    anchors: Seq<(usize, crate::domain::StringAnchorV)>,
) -> Seq<(usize, usize)>
    decreases anchors.len(),
{
    if anchors.len() == 0 {
        Seq::empty()
    } else {
        let before = seeds_in(b, anchors.drop_last());
        match strings::anchored(b, anchors.last().1) {
            Some(fb) => before.push((anchors.last().0, fb)),
            None => before,
        }
    }
}

/// Resolve the reference's seed anchors in build `b`. An anchor that is absent or ambiguous in `b` simply
/// drops out of the seed set for that build.
pub fn resolve_seeds(b: &ImageInput, anchors: &Vec<(usize, StringAnchor)>) -> (out: Vec<
    (usize, usize),
>)
    requires
        b.wf(),
    ensures
        out@ == seeds_in(b, anchors.deep_view()),
        forall|i: int| 0 <= i < out@.len() ==> b.reaches((#[trigger] out@[i]).1 + 0),
{
    let mut out: Vec<(usize, usize)> = Vec::new();
    let ghost av = anchors.deep_view();
    let mut i: usize = 0;
    assert(av.take(0) =~= Seq::<(usize, crate::domain::StringAnchorV)>::empty());
    while i < anchors.len()
        invariant
            b.wf(),
            av == anchors.deep_view(),
            i <= anchors@.len(),
            out@ == seeds_in(b, av.take(i as int)),
            forall|i: int| 0 <= i < out@.len() ==> b.reaches((#[trigger] out@[i]).1 + 0),
        decreases anchors@.len() - i,
    {
        assert(av.take(i + 1).drop_last() =~= av.take(i as int));
        assert(av.take(i + 1).last() == (anchors@[i as int].0, anchors@[i as int].1.deep_view()));
        if let Some(fb) = resolve_string_anchor(b, &anchors[i].1) {
            out.push((anchors[i].0, fb));
        }
        i += 1;
    }
    assert(av.take(i as int) =~= av);
    out
}

/// Every match of the one correspondence is in the other.
pub open spec fn contained(m: Map<usize, usize>, w: Map<usize, usize>) -> bool {
    forall|t: usize| #[trigger] m.contains_key(t) ==> w.contains_key(t) && w[t] == m[t]
}

proof fn pushed_support(v: Seq<Seq<usize>>, x: Seq<usize>, g: usize)
    ensures
        support(v.push(x), g) == support(v, g) + if x.contains(g) {
            1nat
        } else {
            0nat
        },
{
    assert(v.push(x).drop_last() =~= v);
}

proof fn listed_support_grows(
    t: usize,
    list: Seq<usize>,
    ga: GraphV,
    gb: GraphV,
    m: Map<usize, usize>,
    w: Map<usize, usize>,
    g: usize,
)
    requires
        contained(m, w),
    ensures
        support(votes_of(t, list, ga, gb, m), g) <= support(votes_of(t, list, ga, gb, w), g),
    decreases list.len(),
{
    if list.len() > 0 {
        let d = list.drop_last();
        listed_support_grows(t, d, ga, gb, m, w, g);
        let c = list.last();
        if w.contains_key(c) {
            let x = pointed_at(t, c, w[c], ga, gb);
            pushed_support(votes_of(t, d, ga, gb, m), x, g);
            pushed_support(votes_of(t, d, ga, gb, w), x, g);
        }
    }
}

/// More matches never take support away.
pub proof fn support_grows(
    t: usize,
    ga: GraphV,
    gb: GraphV,
    m: Map<usize, usize>,
    w: Map<usize, usize>,
    g: usize,
)
    requires
        contained(m, w),
    ensures
        support(votes(t, ga, gb, m), g) <= support(votes(t, ga, gb, w), g),
{
    listed_support_grows(t, neighbours(ga, t), ga, gb, m, w, g);
}

/// The neighbour `c` of `t` is matched to a function that stands to `g` as `c` stands to `t`.
pub open spec fn corroborates(
    c: usize,
    t: usize,
    g: usize,
    ga: GraphV,
    gb: GraphV,
    m: Map<usize, usize>,
) -> bool {
    m.contains_key(c) && (((ga.callers)(t).contains(c) && (gb.callees)(m[c]).contains(g)) || ((
    ga.callees)(t).contains(c) && (gb.callers)(m[c]).contains(g)))
}

proof fn vote_names_what_it_points_at(
    t: usize,
    c: usize,
    g: usize,
    ga: GraphV,
    gb: GraphV,
    m: Map<usize, usize>,
)
    requires
        m.contains_key(c),
    ensures
        pointed_at(t, c, m[c], ga, gb).contains(g) <==> corroborates(c, t, g, ga, gb, m),
{
    let down = if (ga.callers)(t).contains(c) {
        (gb.callees)(m[c])
    } else {
        Seq::empty()
    };
    let up = if (ga.callees)(t).contains(c) {
        (gb.callers)(m[c])
    } else {
        Seq::empty()
    };
    ordered::numbers_are_ordered();
    ordered::sorted_set_is_sorted(Seq::empty(), down + up, ordered::rising());
    assert((down + up).contains(g) <==> (down.contains(g) || up.contains(g))) by {
        if down.contains(g) {
            let k = choose|k: int| 0 <= k < down.len() && down[k] == g;
            assert((down + up)[k] == g);
        }
        if up.contains(g) {
            let k = choose|k: int| 0 <= k < up.len() && up[k] == g;
            assert((down + up)[down.len() + k] == g);
        }
    }
}

/// The members of the list that corroborate the match.
pub open spec fn corroborators(
    list: Seq<usize>,
    t: usize,
    g: usize,
    ga: GraphV,
    gb: GraphV,
    m: Map<usize, usize>,
) -> Set<usize> {
    list.to_set().filter(|c: usize| corroborates(c, t, g, ga, gb, m))
}

proof fn listed_support_is_a_count(
    t: usize,
    list: Seq<usize>,
    ga: GraphV,
    gb: GraphV,
    m: Map<usize, usize>,
    g: usize,
)
    requires
        list.no_duplicates(),
    ensures
        corroborators(list, t, g, ga, gb, m).finite(),
        support(votes_of(t, list, ga, gb, m), g) == corroborators(list, t, g, ga, gb, m).len(),
    decreases list.len(),
{
    if list.len() == 0 {
        assert(corroborators(list, t, g, ga, gb, m) =~= Set::<usize>::empty());
    } else {
        let d = list.drop_last();
        let c = list.last();
        listed_support_is_a_count(t, d, ga, gb, m, g);
        let before = corroborators(d, t, g, ga, gb, m);
        let all = corroborators(list, t, g, ga, gb, m);
        assert(!d.contains(c)) by {
            if d.contains(c) {
                let k = choose|k: int| 0 <= k < d.len() && d[k] == c;
                assert(list[k] == list[list.len() - 1]);
            }
        }
        assert forall|x: usize| list.contains(x) <==> (d.contains(x) || x == c) by {
            if list.contains(x) {
                let k = choose|k: int| 0 <= k < list.len() && list[k] == x;
                if k < d.len() {
                    assert(d[k] == x);
                }
            }
            if d.contains(x) {
                let k = choose|k: int| 0 <= k < d.len() && d[k] == x;
                assert(list[k] == x);
            }
            if x == c {
                assert(list[list.len() - 1] == x);
            }
        }
        if m.contains_key(c) {
            vote_names_what_it_points_at(t, c, g, ga, gb, m);
            pushed_support(votes_of(t, d, ga, gb, m), pointed_at(t, c, m[c], ga, gb), g);
        }
        if corroborates(c, t, g, ga, gb, m) {
            assert(all =~= before.insert(c));
        } else {
            assert(all =~= before);
        }
    }
}

/// The support of a candidate is the number of distinct matched neighbours that point at it, however often
/// they call or are called.
pub proof fn support_counts_distinct_neighbours(
    t: usize,
    ga: GraphV,
    gb: GraphV,
    m: Map<usize, usize>,
    g: usize,
)
    ensures
        ({
            let all = Set::new(|c: usize| corroborates(c, t, g, ga, gb, m));
            all.finite() && support(votes(t, ga, gb, m), g) == all.len()
        }),
{
    let list = neighbours(ga, t);
    let near = (ga.callers)(t) + (ga.callees)(t);
    ordered::numbers_are_ordered();
    ordered::sorted_set_is_sorted(Seq::empty(), near, ordered::rising());
    assert forall|i: int, j: int| 0 <= i < list.len() && 0 <= j < list.len() && i != j implies list[i]
        != list[j] by {
        if i < j {
            assert((ordered::rising())(list[i], list[j]));
        } else {
            assert((ordered::rising())(list[j], list[i]));
        }
    }
    listed_support_is_a_count(t, list, ga, gb, m, g);
    let all = Set::new(|c: usize| corroborates(c, t, g, ga, gb, m));
    assert(all =~= corroborators(list, t, g, ga, gb, m)) by {
        assert forall|c: usize| corroborates(c, t, g, ga, gb, m) implies list.contains(c) by {
            let up = (ga.callers)(t);
            let down = (ga.callees)(t);
            if up.contains(c) {
                let k = choose|k: int| 0 <= k < up.len() && up[k] == c;
                assert(near[k] == c);
            } else {
                let k = choose|k: int| 0 <= k < down.len() && down[k] == c;
                assert(near[up.len() + k] == c);
            }
            assert(near.contains(c));
        }
    }
}

/// The leader has at least as many votes as any candidate, and the runner-up at least as many as any
/// other.
pub proof fn leader_leads(v: Seq<Seq<usize>>, candidates: Seq<usize>)
    ensures
        leader(v, candidates) matches Some((g, sup, run)) ==> sup == support(v, g) && run <= sup
            && forall|i: int|
            0 <= i < candidates.len() && #[trigger] candidates[i] != g ==> support(v, candidates[i])
                <= run,
    decreases candidates.len(),
{
    if candidates.len() > 0 {
        let d = candidates.drop_last();
        leader_leads(v, d);
        if let Some((g, sup, run)) = leader(v, candidates) {
            assert forall|i: int|
                0 <= i < candidates.len() && #[trigger] candidates[i] != g implies support(
                v,
                candidates[i],
            ) <= run by {
                if i < d.len() {
                    assert(d[i] == candidates[i]);
                }
            }
        }
    }
}

proof fn proposals_are_proposed(functions: Seq<usize>, ga: GraphV, gb: GraphV, p: Pairing)
    ensures
        forall|i: int|
            0 <= i < proposals(functions, ga, gb, p).len() ==> proposal(
                (#[trigger] proposals(functions, ga, gb, p)[i]).0,
                ga,
                gb,
                p,
            ) == Some(proposals(functions, ga, gb, p)[i].1),
    decreases functions.len(),
{
    if functions.len() > 0 {
        proposals_are_proposed(functions.drop_last(), ga, gb, p);
    }
}

proof fn commits_are_listed(all: Seq<(usize, usize)>, todo: Seq<(usize, usize)>, p: Pairing)
    ensures
        forall|t: usize|
            #![trigger committed(all, todo, p).0.contains_key(t)]
            committed(all, todo, p).0.contains_key(t) && !p.0.contains_key(t) ==> todo.contains(
                (t, committed(all, todo, p).0[t]),
            ),
    decreases todo.len(),
{
    if todo.len() > 0 {
        let d = todo.drop_last();
        commits_are_listed(all, d, p);
        let q = committed(all, d, p);
        let r = committed(all, todo, p);
        assert forall|t: usize|
            #![trigger r.0.contains_key(t)]
            r.0.contains_key(t) && !p.0.contains_key(t) implies todo.contains((t, r.0[t])) by {
            if q.0.contains_key(t) {
                assert(d.contains((t, q.0[t])));
                let k = choose|k: int| 0 <= k < d.len() && d[k] == (t, q.0[t]);
                assert(todo[k] == (t, r.0[t]));
            } else {
                assert(todo[todo.len() - 1] == (t, r.0[t]));
            }
        }
    }
}

/// Every function matched beyond the seeds has at least the required number of matched neighbours that
/// agree on its match.
pub proof fn matches_are_supported(ga: GraphV, gb: GraphV, p: Pairing)
    ensures
        forall|t: usize|
            #![trigger settled(ga, gb, p).0.contains_key(t)]
            settled(ga, gb, p).0.contains_key(t) && !p.0.contains_key(t) ==> support(
                votes(t, ga, gb, settled(ga, gb, p).0),
                settled(ga, gb, p).0[t],
            ) >= MIN_SUPPORT,
    decreases unmatched(ga.functions, p.0),
{
    let all = proposals(ga.functions, ga, gb, p);
    let q = round(ga, gb, p);
    let w = settled(ga, gb, p).0;
    if unmatched(ga.functions, q.0) < unmatched(ga.functions, p.0) {
        matches_are_supported(ga, gb, q);
        alignment_keeps_seeds_and_stays_one_to_one(ga, gb, p);
        alignment_keeps_seeds_and_stays_one_to_one(ga, gb, q);
        assert(contained(p.0, w));
        proposals_are_proposed(ga.functions, ga, gb, p);
        commits_are_listed(all, all, p);
        assert forall|t: usize|
            #![trigger w.contains_key(t)]
            w.contains_key(t) && !p.0.contains_key(t) implies support(votes(t, ga, gb, w), w[t])
            >= MIN_SUPPORT by {
            if q.0.contains_key(t) {
                assert(w[t] == q.0[t]);
                let g = q.0[t];
                let k = choose|k: int| 0 <= k < all.len() && all[k] == (t, g);
                assert(proposal(all[k].0, ga, gb, p) == Some(all[k].1));
                let v = votes(t, ga, gb, p.0);
                leader_leads(v, ordered::sorted_set(named(v), ordered::rising()));
                support_grows(t, ga, gb, p.0, w, g);
            }
        }
    }
}

proof fn lists_name_ends(edges: Seq<(usize, usize)>, f: usize)
    ensures
        forall|x: usize|
            (#[trigger] callees_in(edges, f).contains(x)) ==> ends_of(edges).contains(x),
        forall|x: usize|
            (#[trigger] callers_in(edges, f).contains(x)) ==> ends_of(edges).contains(x),
        ordered::is_sorted(callers_in(edges, f), ordered::rising()),
    decreases edges.len(),
{
    ordered::numbers_are_ordered();
    if edges.len() > 0 {
        let d = edges.drop_last();
        let e = edges.last();
        lists_name_ends(d, f);
        let now = ends_of(edges);
        let before = ends_of(d);
        assert forall|x: usize| before.contains(x) implies now.contains(x) by {
            let k = choose|k: int| 0 <= k < before.len() && before[k] == x;
            assert(now[k] == x);
        }
        if e.0 != e.1 {
            assert(now[before.len() as int] == e.0);
            assert(now[(before.len() + 1) as int] == e.1);
            ordered::ins_keeps_order(callers_in(d, f), e.0, ordered::rising());
        }
        assert forall|x: usize| (#[trigger] callees_in(edges, f).contains(x)) implies now.contains(
            x,
        ) by {
            let list = callees_in(edges, f);
            let k = choose|k: int| 0 <= k < list.len() && list[k] == x;
            if k < callees_in(d, f).len() {
                assert(callees_in(d, f)[k] == x);
                assert(callees_in(d, f).contains(x));
            }
        }
        assert forall|x: usize| (#[trigger] callers_in(edges, f).contains(x)) implies now.contains(
            x,
        ) by {
            assert(callers_in(d, f).contains(x) || x == e.0);
        }
    }
}

proof fn vote_names_functions(
    t: usize,
    c: usize,
    ga: GraphV,
    edges: Seq<(usize, usize)>,
    m: Map<usize, usize>,
    x: usize,
)
    requires
        m.contains_key(c),
        pointed_at(t, c, m[c], ga, graph_of(edges)).contains(x),
    ensures
        graph_of(edges).functions.contains(x),
{
    vote_names_what_it_points_at(t, c, x, ga, graph_of(edges), m);
    lists_name_ends(edges, m[c]);
    ordered::numbers_are_ordered();
    ordered::sorted_set_is_sorted(Seq::empty(), ends_of(edges), ordered::rising());
    assert(callees_in(edges, m[c]).contains(x) || callers_in(edges, m[c]).contains(x));
    assert(ends_of(edges).contains(x));
}

proof fn candidates_are_functions(
    t: usize,
    list: Seq<usize>,
    ga: GraphV,
    edges: Seq<(usize, usize)>,
    m: Map<usize, usize>,
    x: usize,
)
    requires
        named(votes_of(t, list, ga, graph_of(edges), m)).contains(x),
    ensures
        graph_of(edges).functions.contains(x),
    decreases list.len(),
{
    let gb = graph_of(edges);
    if list.len() > 0 {
        let d = list.drop_last();
        let c = list.last();
        if m.contains_key(c) {
            let before = votes_of(t, d, ga, gb, m);
            let vote = pointed_at(t, c, m[c], ga, gb);
            assert(before.push(vote).drop_last() =~= before);
            let all = named(before) + vote;
            assert(named(votes_of(t, list, ga, gb, m)) == all);
            let k = choose|k: int| 0 <= k < all.len() && all[k] == x;
            if k < named(before).len() {
                assert(named(before)[k] == x);
                candidates_are_functions(t, d, ga, edges, m, x);
            } else {
                assert(vote[k - named(before).len()] == x);
                vote_names_functions(t, c, ga, edges, m, x);
            }
        } else {
            candidates_are_functions(t, d, ga, edges, m, x);
        }
    }
}

proof fn leader_is_a_candidate(v: Seq<Seq<usize>>, candidates: Seq<usize>)
    ensures
        leader(v, candidates) matches Some((g, _, _)) ==> candidates.contains(g),
    decreases candidates.len(),
{
    if candidates.len() > 0 {
        let d = candidates.drop_last();
        leader_is_a_candidate(v, d);
        assert(candidates[candidates.len() - 1] == candidates.last());
        if let Some((g, _, _)) = leader(v, candidates) {
            if d.contains(g) {
                let k = choose|k: int| 0 <= k < d.len() && d[k] == g;
                assert(candidates[k] == g);
            }
        }
    }
}

/// Every function matched beyond the seeds is one of the first graph, and its match one of the second.
pub proof fn matches_are_functions(
    ea: Seq<(usize, usize)>,
    eb: Seq<(usize, usize)>,
    p: Pairing,
)
    ensures
        forall|t: usize|
            #![trigger settled(graph_of(ea), graph_of(eb), p).0.contains_key(t)]
            settled(graph_of(ea), graph_of(eb), p).0.contains_key(t) && !p.0.contains_key(t)
                ==> graph_of(ea).functions.contains(t) && graph_of(eb).functions.contains(
                settled(graph_of(ea), graph_of(eb), p).0[t],
            ),
    decreases unmatched(graph_of(ea).functions, p.0),
{
    let ga = graph_of(ea);
    let gb = graph_of(eb);
    let all = proposals(ga.functions, ga, gb, p);
    let q = round(ga, gb, p);
    let w = settled(ga, gb, p).0;
    if unmatched(ga.functions, q.0) < unmatched(ga.functions, p.0) {
        matches_are_functions(ea, eb, q);
        alignment_keeps_seeds_and_stays_one_to_one(ga, gb, q);
        proposals_are_proposed(ga.functions, ga, gb, p);
        proposals_are_functions(ga.functions, ga, gb, p);
        commits_are_listed(all, all, p);
        assert forall|t: usize|
            #![trigger w.contains_key(t)]
            w.contains_key(t) && !p.0.contains_key(t) implies ga.functions.contains(t)
            && gb.functions.contains(w[t]) by {
            if q.0.contains_key(t) {
                assert(w[t] == q.0[t]);
                let g = q.0[t];
                let k = choose|k: int| 0 <= k < all.len() && all[k] == (t, g);
                assert(proposal(all[k].0, ga, gb, p) == Some(all[k].1));
                assert(ga.functions.contains(all[k].0));
                let v = votes(t, ga, gb, p.0);
                leader_is_a_candidate(v, ordered::sorted_set(named(v), ordered::rising()));
                ordered::numbers_are_ordered();
                ordered::sorted_set_is_sorted(Seq::empty(), named(v), ordered::rising());
                assert(named(v).contains(g));
                candidates_are_functions(t, neighbours(ga, t), ga, eb, p.0, g);
            }
        }
    }
}

/// The seeds pair functions one to one.
pub open spec fn one_to_one(seeds: Seq<(usize, usize)>) -> bool {
    forall|i: int, j: int|
        0 <= i < j < seeds.len() ==> (#[trigger] seeds[i]).0 != (#[trigger] seeds[j]).0 && seeds[i].1
            != seeds[j].1
}

proof fn seeds_are_held(seeds: Seq<(usize, usize)>)
    requires
        one_to_one(seeds),
    ensures
        forall|a: usize|
            #![trigger seeded(seeds).0.contains_key(a)]
            seeded(seeds).0.contains_key(a) ==> seeds.contains((a, seeded(seeds).0[a])),
        forall|b: usize|
            #![trigger seeded(seeds).1.contains_key(b)]
            seeded(seeds).1.contains_key(b) ==> seeds.contains((seeded(seeds).1[b], b)),
        forall|i: int|
            0 <= i < seeds.len() ==> seeded(seeds).0.contains_key((#[trigger] seeds[i]).0) && seeded(
                seeds,
            ).0[seeds[i].0] == seeds[i].1 && seeded(seeds).1.contains_key(seeds[i].1) && seeded(
                seeds,
            ).1[seeds[i].1] == seeds[i].0,
    decreases seeds.len(),
{
    if seeds.len() > 0 {
        let d = seeds.drop_last();
        let (x, y) = seeds.last();
        seeds_are_held(d);
        let p = seeded(d);
        let q = seeded(seeds);
        assert(seeds[seeds.len() - 1] == (x, y));
        assert forall|a: usize| #![trigger q.0.contains_key(a)] q.0.contains_key(a) implies seeds.contains(
            (a, q.0[a]),
        ) by {
            if a != x {
                assert(p.0.contains_key(a));
                let k = choose|k: int| 0 <= k < d.len() && d[k] == (a, p.0[a]);
                assert(seeds[k] == (a, q.0[a]));
            }
        }
        assert forall|b: usize| #![trigger q.1.contains_key(b)] q.1.contains_key(b) implies seeds.contains(
            (q.1[b], b),
        ) by {
            if b != y {
                assert(p.1.contains_key(b));
                let k = choose|k: int| 0 <= k < d.len() && d[k] == (p.1[b], b);
                assert(seeds[k] == (q.1[b], b));
            }
        }
        assert forall|i: int| 0 <= i < seeds.len() implies q.0.contains_key((#[trigger] seeds[i]).0)
            && q.0[seeds[i].0] == seeds[i].1 && q.1.contains_key(seeds[i].1) && q.1[seeds[i].1]
            == seeds[i].0 by {
            if i < d.len() {
                assert(d[i] == seeds[i]);
                assert(seeds[i].0 != seeds[seeds.len() - 1].0);
            }
        }
    }
}

/// From seeds that pair functions one to one, the alignment keeps every seed, stays one to one, and does
/// not depend on the order of the seeds.
pub proof fn seed_order_does_not_matter(
    ga: GraphV,
    gb: GraphV,
    seeds: Seq<(usize, usize)>,
    other: Seq<(usize, usize)>,
)
    requires
        one_to_one(seeds),
        seeds.to_multiset() == other.to_multiset(),
    ensures
        settled(ga, gb, seeded(seeds)) == settled(ga, gb, seeded(other)),
        inverse(settled(ga, gb, seeded(seeds))),
        forall|i: int|
            0 <= i < seeds.len() ==> settled(ga, gb, seeded(seeds)).0.contains_key(
                (#[trigger] seeds[i]).0,
            ) && settled(ga, gb, seeded(seeds)).0[seeds[i].0] == seeds[i].1,
{
    seeds.to_multiset_ensures();
    other.to_multiset_ensures();
    assert forall|e: (usize, usize)| seeds.contains(e) <==> other.contains(e) by {
        vstd::seq_lib::to_multiset_contains(seeds, e);
        vstd::seq_lib::to_multiset_contains(other, e);
        assert(seeds.to_multiset().count(e) == other.to_multiset().count(e));
    }
    seeds_are_held(seeds);
    assert(one_to_one(other)) by {
        assert(other.len() == seeds.len());
        assert(seeds.no_duplicates());
        seeds.lemma_multiset_has_no_duplicates();
        other.lemma_multiset_has_no_duplicates_conv();
        assert forall|i: int, j: int| 0 <= i < j < other.len() implies (#[trigger] other[i]).0 != (
        #[trigger] other[j]).0 && other[i].1 != other[j].1 by {
            assert(other.contains(other[i]) && other.contains(other[j]));
            let k = choose|k: int| 0 <= k < seeds.len() && seeds[k] == other[i];
            let m = choose|m: int| 0 <= m < seeds.len() && seeds[m] == other[j];
            assert(k != m);
        }
    }
    seeds_are_held(other);
    let p = seeded(seeds);
    let q = seeded(other);
    assert forall|a: usize| #![trigger p.0.contains_key(a)] p.0.contains_key(a) implies q.0.contains_key(
        a,
    ) && q.0[a] == p.0[a] by {
        let k = choose|k: int| 0 <= k < other.len() && other[k] == (a, p.0[a]);
        assert(other.contains((a, p.0[a])));
        assert(q.0.contains_key(other[k].0));
    }
    assert forall|a: usize| #![trigger q.0.contains_key(a)] q.0.contains_key(a) implies p.0.contains_key(
        a,
    ) by {
        assert(seeds.contains((a, q.0[a])));
        let k = choose|k: int| 0 <= k < seeds.len() && seeds[k] == (a, q.0[a]);
        assert(p.0.contains_key(seeds[k].0));
    }
    assert forall|b: usize| #![trigger p.1.contains_key(b)] p.1.contains_key(b) implies q.1.contains_key(
        b,
    ) && q.1[b] == p.1[b] by {
        assert(other.contains((p.1[b], b)));
        let k = choose|k: int| 0 <= k < other.len() && other[k] == (p.1[b], b);
        assert(q.1.contains_key(other[k].1));
    }
    assert forall|b: usize| #![trigger q.1.contains_key(b)] q.1.contains_key(b) implies p.1.contains_key(
        b,
    ) by {
        assert(seeds.contains((q.1[b], b)));
        let k = choose|k: int| 0 <= k < seeds.len() && seeds[k] == (q.1[b], b);
        assert(p.1.contains_key(seeds[k].1));
    }
    assert(p.0 =~= q.0);
    assert(p.1 =~= q.1);
    assert(inverse(p)) by {
        assert forall|t: usize| #![trigger p.0.contains_key(t)] p.0.contains_key(t) implies p.1.contains_key(
            p.0[t],
        ) && p.1[p.0[t]] == t by {
            let k = choose|k: int| 0 <= k < seeds.len() && seeds[k] == (t, p.0[t]);
            assert(p.1.contains_key(seeds[k].1));
        }
        assert forall|g: usize| #![trigger p.1.contains_key(g)] p.1.contains_key(g) implies p.0.contains_key(
            p.1[g],
        ) && p.0[p.1[g]] == g by {
            let k = choose|k: int| 0 <= k < seeds.len() && seeds[k] == (p.1[g], g);
            assert(p.0.contains_key(seeds[k].0));
        }
    }
    alignment_keeps_seeds_and_stays_one_to_one(ga, gb, p);
}

}
