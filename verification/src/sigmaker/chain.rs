//! The cross-version relocation chainer: relocate a function from a reference build to every other
//! required build over the maximum-bottleneck (widest) path through the build graph, re-anchoring at
//! each hop. Generic over the anchor, so that every pair of making and resolving an anchor gets stepwise
//! chaining from one walk.

use crate::sigmaker::similarity;
use crate::sigmaker::similarity::SIM_ONE;
use crate::sigmaker::types::ImageInput;
use vstd::prelude::*;

verus! {

/// One kind of hop between builds: an anchor minted at a function of one build, and the way it resolves
/// in another.
pub trait Hop {
    type Anchor: DeepView;

    /// The anchor of the function at `rva`.
    closed spec fn minted(&self, img: &ImageInput, rva: int) -> Option<<Self::Anchor as DeepView>::V> {
        vstd::pervasive::arbitrary()
    }

    /// Where the anchor leads and how sure the hop is.
    closed spec fn reached(&self, img: &ImageInput, anchor: <Self::Anchor as DeepView>::V) -> Option<
        (u64, u64),
    > {
        vstd::pervasive::arbitrary()
    }

    /// Mint the anchor of the function at `rva`.
    fn make_anchor(&self, img: &ImageInput, rva: usize) -> (r: Option<Self::Anchor>)
        requires
            img.wf(),
            img.reaches(rva as int),
        ensures
            r.deep_view() == self.minted(img, rva as int),
    ;

    /// Resolve an anchor: the located RVA and the confidence of the hop in trillionths, already gated, or
    /// `None` to decline the hop.
    fn edge(&self, img: &ImageInput, anchor: &Self::Anchor) -> (r: Option<(u64, u64)>)
        requires
            img.wf(),
        ensures
            r == self.reached(img, anchor.deep_view()),
            r matches Some((rva, conf)) ==> img.reaches(rva as int) && conf <= SIM_ONE,
    ;
}

/// Per build the located RVA and the confidence of the path to it.
pub type Located = Seq<Option<(u64, u64)>>;

/// Offers: the build, the RVA there and the confidence of the path.
pub type Offers = Seq<(usize, u64, u64)>;

/// The anchor minted at an RVA of a build, by the build's number.
pub type Minting<V> = spec_fn(int, int) -> Option<V>;

/// Where an anchor leads in a build, by the build's number.
pub type Reaching<V> = spec_fn(int, V) -> Option<(u64, u64)>;

/// The anchors that a kind of hop mints in the builds.
pub open spec fn mints<H: Hop>(hop: &H, images: Seq<&ImageInput>) -> Minting<
    <H::Anchor as DeepView>::V,
> {
    |i: int, rva: int| hop.minted(images[i], rva)
}

/// Where a kind of hop leads in the builds.
pub open spec fn leads<H: Hop>(hop: &H, images: Seq<&ImageInput>) -> Reaching<
    <H::Anchor as DeepView>::V,
> {
    |i: int, anchor: <H::Anchor as DeepView>::V| hop.reached(images[i], anchor)
}

/// The frontier with the edges from an anchor to those of the first `n` required builds that are open.
pub open spec fn offered<V>(
    reach: Reaching<V>,
    required: Seq<usize>,
    located: Located,
    frontier: Offers,
    anchor: V,
    conf: u64,
    n: int,
) -> Offers
    decreases n,
{
    if n <= 0 {
        frontier
    } else {
        let before = offered(reach, required, located, frontier, anchor, conf, n - 1);
        let v = required[n - 1];
        if located[v as int] is Some {
            before
        } else {
            match reach(v as int, anchor) {
                Some((rva, c)) => before.push((v, rva, similarity::least(conf, c))),
                None => before,
            }
        }
    }
}

/// The widest of the first `n` offers to an open build, the earliest among equals.
pub open spec fn widest(located: Located, frontier: Offers, n: int) -> Option<int>
    decreases n,
{
    if n <= 0 {
        None
    } else {
        let before = widest(located, frontier, n - 1);
        let e = frontier[n - 1];
        if located[e.0 as int] is None && (before is None || e.2 > frontier[before->0].2) {
            Some(n - 1)
        } else {
            before
        }
    }
}

/// How many builds are open.
pub open spec fn open_count(located: Located) -> nat
    decreases located.len(),
{
    if located.len() == 0 {
        0
    } else {
        open_count(located.drop_last()) + if located.last() is None {
            1nat
        } else {
            0nat
        }
    }
}

/// Locating a build leaves one fewer open.
pub proof fn closing_counts(located: Located, v: int, e: (u64, u64))
    requires
        0 <= v < located.len(),
        located[v] is None,
    ensures
        open_count(located.update(v, Some(e))) < open_count(located),
    decreases located.len(),
{
    if v == located.len() - 1 {
        assert(located.update(v, Some(e)).drop_last() =~= located.drop_last());
    } else {
        closing_counts(located.drop_last(), v, e);
        assert(located.update(v, Some(e)).drop_last() =~= located.drop_last().update(v, Some(e)));
    }
}

/// The widest offer leads to an open build.
pub proof fn widest_is_open(located: Located, frontier: Offers, n: int)
    ensures
        widest(located, frontier, n) matches Some(k) ==> 0 <= k < n
            && located[frontier[k].0 as int] is None,
    decreases n,
{
    if n > 0 {
        widest_is_open(located, frontier, n - 1);
    }
}

/// Offers to builds that exist.
pub open spec fn valid(frontier: Offers, builds: int) -> bool {
    forall|i: int| 0 <= i < frontier.len() ==> (#[trigger] frontier[i]).0 < builds
}

/// Take the widest offer, re-anchor there and offer on, until no offer is left.
pub open spec fn walked<V>(
    mint: Minting<V>,
    reach: Reaching<V>,
    required: Seq<usize>,
    located: Located,
    frontier: Offers,
) -> Located
    decreases open_count(located),
{
    match widest(located, frontier, frontier.len() as int) {
        None => located,
        Some(k) => {
            let (v, rva, conf) = frontier[k];
            if v >= located.len() {
                located
            } else {
                let now = located.update(v as int, Some((rva, conf)));
                let more = match mint(v as int, rva as int) {
                    Some(a) => offered(
                        reach,
                        required,
                        now,
                        frontier,
                        a,
                        conf,
                        required.len() as int,
                    ),
                    None => frontier,
                };
                proof {
                    widest_is_open(located, frontier, frontier.len() as int);
                    closing_counts(located, v as int, (rva, conf));
                }
                walked(mint, reach, required, now, more)
            }
        },
    }
}

/// Where the function at `ref_entry` of build `ref_idx` is in every build.
pub open spec fn path<V>(
    mint: Minting<V>,
    reach: Reaching<V>,
    builds: nat,
    required: Seq<usize>,
    ref_idx: int,
    ref_entry: int,
) -> Located {
    let closed = Seq::new(builds, |i: int| None::<(u64, u64)>);
    match mint(ref_idx, ref_entry) {
        None => closed,
        Some(a) => {
            let located = closed.update(ref_idx, Some((ref_entry as u64, SIM_ONE)));
            walked(
                mint,
                reach,
                required,
                located,
                offered(
                    reach,
                    required,
                    located,
                    Seq::empty(),
                    a,
                    SIM_ONE,
                    required.len() as int,
                ),
            )
        },
    }
}

/// What the located builds and the offers hold can be read at.
pub open spec fn reachable(images: Seq<&ImageInput>, located: Located, frontier: Offers) -> bool {
    &&& located.len() == images.len()
    &&& forall|i: int|
        0 <= i < located.len() ==> (#[trigger] located[i] matches Some((rva, conf)) ==> images[i].reaches(
            rva as int,
        ) && conf <= SIM_ONE)
    &&& forall|i: int|
        0 <= i < frontier.len() ==> (#[trigger] frontier[i]).0 < images.len()
            && images[frontier[i].0 as int].reaches(frontier[i].1 as int) && frontier[i].2 <= SIM_ONE
}

/// The builds are usable and the required ones exist.
pub open spec fn usable(images: Seq<&ImageInput>, required: Seq<usize>) -> bool {
    &&& forall|i: int| 0 <= i < images.len() ==> (#[trigger] images[i]).wf()
    &&& forall|i: int| 0 <= i < required.len() ==> #[trigger] required[i] < images.len()
}

fn offer<H: Hop>(
    hop: &H,
    images: &[&ImageInput],
    required: &[usize],
    located: &Vec<Option<(u64, u64)>>,
    frontier: &mut Vec<(usize, u64, u64)>,
    anchor: &H::Anchor,
    conf: u64,
)
    requires
        usable(images@, required@),
        conf <= SIM_ONE,
        reachable(images@, located@, old(frontier)@),
    ensures
        final(frontier)@ == offered(
            leads(hop, images@),
            required@,
            located@,
            old(frontier)@,
            anchor.deep_view(),
            conf,
            required@.len() as int,
        ),
        reachable(images@, located@, final(frontier)@),
{
    let ghost start = frontier@;
    let ghost av = anchor.deep_view();
    let mut n: usize = 0;
    while n < required.len()
        invariant
            usable(images@, required@),
            conf <= SIM_ONE,
            av == anchor.deep_view(),
            n <= required@.len(),
            frontier@ == offered(
                leads(hop, images@),
                required@,
                located@,
                start,
                av,
                conf,
                n as int,
            ),
            reachable(images@, located@, frontier@),
        decreases required@.len() - n,
    {
        let v: usize = required[n];
        assert(required@[n as int] < images@.len());
        assert(images@[v as int].wf());
        if located[v].is_none() {
            if let Some((rva, c)) = hop.edge(images[v], anchor) {
                let least: u64 = if c < conf {
                    c
                } else {
                    conf
                };
                frontier.push((v, rva, least));
            }
        }
        n += 1;
    }
}

fn pick_widest(located: &Vec<Option<(u64, u64)>>, frontier: &Vec<(usize, u64, u64)>) -> (r: Option<
    usize,
>)
    requires
        valid(frontier@, located@.len() as int),
    ensures
        match r {
            Some(k) => widest(located@, frontier@, frontier@.len() as int) == Some(k as int) && k
                < frontier@.len(),
            None => widest(located@, frontier@, frontier@.len() as int) is None,
        },
{
    let mut r: Option<usize> = None;
    let mut n: usize = 0;
    while n < frontier.len()
        invariant
            valid(frontier@, located@.len() as int),
            n <= frontier@.len(),
            match r {
                Some(k) => widest(located@, frontier@, n as int) == Some(k as int) && k < n,
                None => widest(located@, frontier@, n as int) is None,
            },
        decreases frontier@.len() - n,
    {
        let e = frontier[n];
        assert(frontier@[n as int].0 < located@.len());
        if located[e.0].is_none() {
            r = match r {
                None => Some(n),
                Some(k) => if e.2 > frontier[k].2 {
                    Some(n)
                } else {
                    Some(k)
                },
            };
        }
        n += 1;
    }
    r
}

/// Relocate the function at `ref_entry` from build `ref_idx` to every other required build by the
/// maximum-bottleneck path through the build graph. Starting from the reference, each newly located
/// build re-anchors and offers edges to the rest; a build is then taken by the highest-confidence path
/// that reaches it, so that a long version jump is crossed as a chain of short, high-confidence hops
/// rather than one low-confidence leap. A path's confidence is its weakest hop. Returns, per build, the
/// located RVA and the path's confidence, or `None` for a build no gated path reaches.
pub fn relocate_path<H: Hop>(
    images: &[&ImageInput],
    required: &[usize],
    ref_idx: usize,
    ref_entry: usize,
    hop: &H,
) -> (located: Vec<Option<(u64, u64)>>)
    requires
        usable(images@, required@),
        ref_idx < images@.len(),
        images@[ref_idx as int].reaches(ref_entry as int),
    ensures
        located@ == path(
            mints(hop, images@),
            leads(hop, images@),
            images@.len(),
            required@,
            ref_idx as int,
            ref_entry as int,
        ),
        reachable(images@, located@, Seq::empty()),
{
    let mut located: Vec<Option<(u64, u64)>> = Vec::new();
    let mut i: usize = 0;
    while i < images.len()
        invariant
            i <= images@.len(),
            located@ == Seq::new(i as nat, |k: int| None::<(u64, u64)>),
        decreases images@.len() - i,
    {
        located.push(None);
        i += 1;
        assert(located@ =~= Seq::new(i as nat, |k: int| None::<(u64, u64)>));
    }
    assert(images@[ref_idx as int].wf());
    let first = match hop.make_anchor(images[ref_idx], ref_entry) {
        Some(a) => a,
        None => {
            return located;
        },
    };
    let ghost closed = located@;
    located.set(ref_idx, Some((ref_entry as u64, SIM_ONE)));
    let mut frontier: Vec<(usize, u64, u64)> = Vec::new();
    let ghost whole = path(
            mints(hop, images@),
            leads(hop, images@),
            images@.len(),
            required@,
            ref_idx as int,
            ref_entry as int,
        );
    assert(frontier@ =~= Seq::empty());
    offer(hop, images, required, &located, &mut frontier, &first, SIM_ONE);
    let mut open: bool = true;
    while open
        invariant
            usable(images@, required@),
            reachable(images@, located@, frontier@),
            open ==> whole == walked(
                mints(hop, images@),
                leads(hop, images@),
                required@,
                located@,
                frontier@,
            ),
            !open ==> whole == located@,
        decreases
                (if open {
                    1int
                } else {
                    0int
                }),
                open_count(located@),
    {
        match pick_widest(&located, &frontier) {
            None => {
                open = false;
            },
            Some(k) => {
                let (v, rva, conf) = frontier[k];
                proof {
                    widest_is_open(located@, frontier@, frontier@.len() as int);
                    assert(frontier@[k as int].0 < images@.len());
                    closing_counts(located@, v as int, (rva, conf));
                    assert(images@[v as int].wf());
                }
                located.set(v, Some((rva, conf)));
                if let Some(a) = hop.make_anchor(images[v], rva as usize) {
                    offer(hop, images, required, &located, &mut frontier, &a, conf);
                }
            },
        }
    }
    located
}

/// A located build stays where it is, and no build is added or lost.
pub proof fn located_builds_stay<V>(
    mint: Minting<V>,
    reach: Reaching<V>,
    required: Seq<usize>,
    located: Located,
    frontier: Offers,
    i: int,
)
    requires
        0 <= i < located.len(),
        located[i] is Some,
    ensures
        walked(mint, reach, required, located, frontier).len() == located.len(),
        walked(mint, reach, required, located, frontier)[i] == located[i],
    decreases open_count(located),
{
    if widest(located, frontier, frontier.len() as int) is Some {
        let k = widest(located, frontier, frontier.len() as int)->0;
        let (v, rva, conf) = frontier[k];
        if v < located.len() {
            widest_is_open(located, frontier, frontier.len() as int);
            closing_counts(located, v as int, (rva, conf));
            let now = located.update(v as int, Some((rva, conf)));
            let more = match mint(v as int, rva as int) {
                Some(a) => offered(reach, required, now, frontier, a, conf, required.len() as int),
                None => frontier,
            };
            located_builds_stay(mint, reach, required, now, more, i);
        }
    }
}

/// The reference build is located at its own entry, in full confidence, wherever it has an anchor.
pub proof fn reference_is_located<V>(
    mint: Minting<V>,
    reach: Reaching<V>,
    builds: nat,
    required: Seq<usize>,
    ref_idx: int,
    ref_entry: int,
)
    requires
        0 <= ref_idx < builds,
        mint(ref_idx, ref_entry) is Some,
    ensures
        path(mint, reach, builds, required, ref_idx, ref_entry).len() == builds,
        path(mint, reach, builds, required, ref_idx, ref_entry)[ref_idx] == Some(
            (ref_entry as u64, SIM_ONE),
        ),
{
    let closed = Seq::new(builds, |i: int| None::<(u64, u64)>);
    let located = closed.update(ref_idx, Some((ref_entry as u64, SIM_ONE)));
    located_builds_stay(
        mint,
        reach,
        required,
        located,
        offered(
            reach,
            required,
            located,
            Seq::empty(),
            mint(ref_idx, ref_entry)->0,
            SIM_ONE,
            required.len() as int,
        ),
        ref_idx,
    );
}

/// The RVA of a located build.
pub open spec fn place(e: Option<(u64, u64)>) -> u64 {
    match e {
        Some((rva, _)) => rva,
        None => 0,
    }
}

/// The confidence of a located build.
pub open spec fn sureness(e: Option<(u64, u64)>) -> u64 {
    match e {
        Some((_, conf)) => conf,
        None => 0,
    }
}

/// Where the hop from an RVA of one build leads in another.
pub open spec fn hopped<V>(
    mint: Minting<V>,
    reach: Reaching<V>,
    from: int,
    rva: u64,
    to: int,
) -> Option<(u64, u64)> {
    match mint(from, rva as int) {
        Some(a) => reach(to, a),
        None => None,
    }
}

/// The entry is where a hop from a located build leads, no surer than that build and the hop.
pub open spec fn linked<V>(
    mint: Minting<V>,
    reach: Reaching<V>,
    located: Located,
    to: int,
    entry: (u64, u64),
    from: int,
) -> bool {
    &&& 0 <= from < located.len()
    &&& located[from] matches Some((at, conf)) && hopped(mint, reach, from, at, to) matches Some(
        (rva, c),
    ) && entry == (rva, similarity::least(conf, c))
}

/// Some located build has a hop that leads to the entry.
pub open spec fn grounded<V>(
    mint: Minting<V>,
    reach: Reaching<V>,
    located: Located,
    to: int,
    entry: (u64, u64),
) -> bool {
    exists|from: int| linked(mint, reach, located, to, entry, from)
}

/// An offer by its RVA and confidence.
pub open spec fn entry_in(offer: (usize, u64, u64)) -> (u64, u64) {
    (offer.1, offer.2)
}

/// A build's confidence is no less than `conf`.
pub open spec fn as_sure(located: Located, v: int, conf: u64) -> bool {
    located[v] matches Some((_, c)) && c >= conf
}

/// The frontier offers a build with no less than `conf`.
pub open spec fn offers_as_sure(frontier: Offers, v: int, conf: u64) -> bool {
    exists|j: int|
        0 <= j < frontier.len() && (#[trigger] frontier[j]).0 == v && frontier[j].2 >= conf
}

/// Each located build but the reference has a hop that led there.
pub open spec fn rooted<V>(
    mint: Minting<V>,
    reach: Reaching<V>,
    located: Located,
    ref_idx: int,
) -> bool {
    forall|v: int|
        0 <= v < located.len() && v != ref_idx && (#[trigger] located[v]) is Some ==> grounded(
            mint,
            reach,
            located,
            v,
            located[v]->0,
        )
}

/// What the walk keeps: the offers come from located builds and are no surer than any of them, and every
/// hop from a located build was taken or is on offer.
pub open spec fn widening<V>(
    mint: Minting<V>,
    reach: Reaching<V>,
    required: Seq<usize>,
    located: Located,
    frontier: Offers,
    ref_idx: int,
) -> bool {
    &&& valid(frontier, located.len() as int)
    &&& forall|n: int| 0 <= n < required.len() ==> #[trigger] required[n] < located.len()
    &&& rooted(mint, reach, located, ref_idx)
    &&& forall|j: int|
        0 <= j < frontier.len() ==> grounded(
            mint,
            reach,
            located,
            (#[trigger] frontier[j]).0 as int,
            entry_in(frontier[j]),
        )
    &&& forall|i: int, j: int|
        #![trigger located[i], frontier[j]]
        0 <= i < located.len() && located[i] is Some && 0 <= j < frontier.len()
            && located[frontier[j].0 as int] is None ==> frontier[j].2 <= sureness(located[i])
    &&& forall|i: int, n: int|
        #![trigger located[i], required[n]]
        0 <= i < located.len() && located[i] is Some && 0 <= n < required.len() ==> (hopped(
            mint,
            reach,
            i,
            place(located[i]),
            required[n] as int,
        ) matches Some((_, c)) ==> as_sure(
            located,
            required[n] as int,
            similarity::least(sureness(located[i]), c),
        ) || (located[required[n] as int] is None && offers_as_sure(
            frontier,
            required[n] as int,
            similarity::least(sureness(located[i]), c),
        )))
}

proof fn offers_are_hops<V>(
    reach: Reaching<V>,
    required: Seq<usize>,
    located: Located,
    frontier: Offers,
    anchor: V,
    conf: u64,
    n: int,
)
    requires
        0 <= n <= required.len(),
    ensures
        ({
            let more = offered(reach, required, located, frontier, anchor, conf, n);
            &&& more.len() >= frontier.len()
            &&& forall|j: int| 0 <= j < frontier.len() ==> #[trigger] more[j] == frontier[j]
            &&& forall|j: int|
                frontier.len() <= j < more.len() ==> (exists|m: int|
                    0 <= m < n && #[trigger] required[m] == (#[trigger] more[j]).0) && (reach(
                    more[j].0 as int,
                    anchor,
                ) matches Some((rva, c)) && more[j].1 == rva && more[j].2 == similarity::least(
                    conf,
                    c,
                ))
            &&& forall|m: int|
                0 <= m < n && located[#[trigger] required[m] as int] is None ==> (reach(
                    required[m] as int,
                    anchor,
                ) matches Some((_, c)) ==> offers_as_sure(
                    more,
                    required[m] as int,
                    similarity::least(conf, c),
                ))
        }),
    decreases n,
{
    if n > 0 {
        offers_are_hops(reach, required, located, frontier, anchor, conf, n - 1);
        let before = offered(reach, required, located, frontier, anchor, conf, n - 1);
        let more = offered(reach, required, located, frontier, anchor, conf, n);
        assert forall|j: int| frontier.len() <= j < more.len() implies (exists|m: int|
            0 <= m < n && #[trigger] required[m] == (#[trigger] more[j]).0) && (reach(
            more[j].0 as int,
            anchor,
        ) matches Some((rva, c)) && more[j].1 == rva && more[j].2 == similarity::least(conf, c)) by {
            if j < before.len() {
                assert(more[j] == before[j]);
                let m = choose|m: int|
                    0 <= m < n - 1 && #[trigger] required[m] == (#[trigger] before[j]).0;
                assert(required[m] == more[j].0);
            } else {
                assert(required[n - 1] == more[j].0);
            }
        }
        assert forall|m: int| 0 <= m < n && located[#[trigger] required[m] as int] is None implies (
        reach(required[m] as int, anchor) matches Some((_, c)) ==> offers_as_sure(
            more,
            required[m] as int,
            similarity::least(conf, c),
        )) by {
            if let Some((rva, c)) = reach(required[m] as int, anchor) {
                let least = similarity::least(conf, c);
                if m < n - 1 {
                    assert(offers_as_sure(before, required[m] as int, least));
                    let j = choose|j: int|
                        0 <= j < before.len() && (#[trigger] before[j]).0 == required[m]
                            && before[j].2 >= least;
                    assert(more[j] == before[j]);
                } else {
                    assert(more[before.len() as int] == (required[m], rva, least));
                }
            }
        }
    }
}

proof fn widest_is_greatest(located: Located, frontier: Offers, n: int)
    requires
        0 <= n <= frontier.len(),
    ensures
        match widest(located, frontier, n) {
            Some(k) => 0 <= k < n && located[frontier[k].0 as int] is None && forall|j: int|
                0 <= j < n && located[(#[trigger] frontier[j]).0 as int] is None ==> frontier[j].2
                    <= frontier[k].2,
            None => forall|j: int|
                0 <= j < n ==> located[(#[trigger] frontier[j]).0 as int] is Some,
        },
    decreases n,
{
    if n > 0 {
        widest_is_greatest(located, frontier, n - 1);
    }
}

proof fn links_stay<V>(
    mint: Minting<V>,
    reach: Reaching<V>,
    located: Located,
    v: int,
    e: (u64, u64),
    to: int,
    entry: (u64, u64),
    from: int,
)
    requires
        0 <= v < located.len(),
        located[v] is None,
        linked(mint, reach, located, to, entry, from),
    ensures
        linked(mint, reach, located.update(v, Some(e)), to, entry, from),
{
}

proof fn step_roots<V>(
    mint: Minting<V>,
    reach: Reaching<V>,
    required: Seq<usize>,
    located: Located,
    frontier: Offers,
    ref_idx: int,
    k: int,
)
    requires
        widening(mint, reach, required, located, frontier, ref_idx),
        0 <= k < frontier.len(),
        located[frontier[k].0 as int] is None,
    ensures
        rooted(
            mint,
            reach,
            located.update(frontier[k].0 as int, Some((frontier[k].1, frontier[k].2))),
            ref_idx,
        ),
        forall|j: int|
            0 <= j < frontier.len() ==> grounded(
                mint,
                reach,
                located.update(frontier[k].0 as int, Some((frontier[k].1, frontier[k].2))),
                (#[trigger] frontier[j]).0 as int,
                entry_in(frontier[j]),
            ),
{
    let x = frontier[k].0 as int;
    let e = (frontier[k].1, frontier[k].2);
    let now = located.update(x, Some(e));
    assert forall|j: int| 0 <= j < frontier.len() implies grounded(
        mint,
        reach,
        now,
        (#[trigger] frontier[j]).0 as int,
        entry_in(frontier[j]),
    ) by {
        let to = frontier[j].0 as int;
        let entry = entry_in(frontier[j]);
        assert(grounded(mint, reach, located, to, entry));
        let from = choose|from: int| linked(mint, reach, located, to, entry, from);
        links_stay(mint, reach, located, x, e, to, entry, from);
    }
    assert forall|v: int|
        0 <= v < now.len() && v != ref_idx && (#[trigger] now[v]) is Some implies grounded(
        mint,
        reach,
        now,
        v,
        now[v]->0,
    ) by {
        if v == x {
            assert(grounded(mint, reach, now, frontier[k].0 as int, entry_in(frontier[k])));
        } else {
            assert(located[v] is Some);
            let from = choose|from: int| linked(mint, reach, located, v, located[v]->0, from);
            links_stay(mint, reach, located, x, e, v, located[v]->0, from);
        }
    }
}

proof fn step_widens<V>(
    mint: Minting<V>,
    reach: Reaching<V>,
    required: Seq<usize>,
    located: Located,
    frontier: Offers,
    ref_idx: int,
    k: int,
)
    requires
        widening(mint, reach, required, located, frontier, ref_idx),
        widest(located, frontier, frontier.len() as int) == Some(k),
    ensures
        ({
            let (v, rva, conf) = frontier[k];
            let now = located.update(v as int, Some((rva, conf)));
            let more = match mint(v as int, rva as int) {
                Some(a) => offered(reach, required, now, frontier, a, conf, required.len() as int),
                None => frontier,
            };
            widening(mint, reach, required, now, more, ref_idx)
        }),
{
    widest_is_greatest(located, frontier, frontier.len() as int);
    step_roots(mint, reach, required, located, frontier, ref_idx, k);
    let (x, rva, conf) = frontier[k];
    let e = (rva, conf);
    let now = located.update(x as int, Some(e));
    let more = match mint(x as int, rva as int) {
        Some(a) => offered(reach, required, now, frontier, a, conf, required.len() as int),
        None => frontier,
    };
    if let Some(a) = mint(x as int, rva as int) {
        offers_are_hops(reach, required, now, frontier, a, conf, required.len() as int);
    }
    assert forall|j: int| 0 <= j < more.len() implies (#[trigger] more[j]).0 < now.len() by {
        if j < frontier.len() {
            assert(more[j] == frontier[j]);
        }
    }
    assert forall|j: int| 0 <= j < more.len() implies grounded(
        mint,
        reach,
        now,
        (#[trigger] more[j]).0 as int,
        entry_in(more[j]),
    ) by {
        if j < frontier.len() {
            assert(more[j] == frontier[j]);
        } else {
            assert(linked(mint, reach, now, more[j].0 as int, entry_in(more[j]), x as int));
        }
    }
    assert forall|i: int, j: int|
        #![trigger now[i], more[j]]
        0 <= i < now.len() && now[i] is Some && 0 <= j < more.len() && now[more[j].0 as int] is None implies more[j].2
        <= sureness(now[i]) by {
        if i != x {
            assert(located[i] is Some);
            assert(frontier[k].2 <= sureness(located[i]));
        }
        if j < frontier.len() {
            assert(more[j] == frontier[j]);
            assert(located[frontier[j].0 as int] is None);
        }
    }
    assert forall|i: int, n: int|
        #![trigger now[i], required[n]]
        0 <= i < now.len() && now[i] is Some && 0 <= n < required.len() implies (hopped(
        mint,
        reach,
        i,
        place(now[i]),
        required[n] as int,
    ) matches Some((_, c)) ==> as_sure(
        now,
        required[n] as int,
        similarity::least(sureness(now[i]), c),
    ) || (now[required[n] as int] is None && offers_as_sure(
        more,
        required[n] as int,
        similarity::least(sureness(now[i]), c),
    ))) by {
        let v = required[n] as int;
        if let Some((_, c)) = hopped(mint, reach, i, place(now[i]), v) {
            let least = similarity::least(sureness(now[i]), c);
            if i == x {
                if now[v] is Some && v != x {
                    assert(located[v] is Some);
                    assert(frontier[k].2 <= sureness(located[v]));
                }
            } else {
                assert(located[i] is Some);
                if located[v] is None {
                    assert(offers_as_sure(frontier, v, least));
                    let j = choose|j: int|
                        0 <= j < frontier.len() && (#[trigger] frontier[j]).0 == v && frontier[j].2
                            >= least;
                    assert(more[j] == frontier[j]);
                    if v == x {
                        assert(frontier[j].2 <= frontier[k].2);
                    }
                }
            }
        }
    }
}

proof fn walk_is_widest<V>(
    mint: Minting<V>,
    reach: Reaching<V>,
    required: Seq<usize>,
    located: Located,
    frontier: Offers,
    ref_idx: int,
)
    requires
        widening(mint, reach, required, located, frontier, ref_idx),
    ensures
        settled(mint, reach, required, walked(mint, reach, required, located, frontier)),
        rooted(mint, reach, walked(mint, reach, required, located, frontier), ref_idx),
    decreases open_count(located),
{
    widest_is_greatest(located, frontier, frontier.len() as int);
    match widest(located, frontier, frontier.len() as int) {
        None => {
            assert forall|i: int, n: int|
                #![trigger located[i], required[n]]
                0 <= i < located.len() && located[i] is Some && 0 <= n < required.len() implies (
            hopped(mint, reach, i, place(located[i]), required[n] as int) matches Some((_, c))
                ==> as_sure(
                located,
                required[n] as int,
                similarity::least(sureness(located[i]), c),
            )) by {}
        },
        Some(k) => {
            let (v, rva, conf) = frontier[k];
            let now = located.update(v as int, Some((rva, conf)));
            let more = match mint(v as int, rva as int) {
                Some(a) => offered(reach, required, now, frontier, a, conf, required.len() as int),
                None => frontier,
            };
            step_widens(mint, reach, required, located, frontier, ref_idx, k);
            closing_counts(located, v as int, (rva, conf));
            walk_is_widest(mint, reach, required, now, more, ref_idx);
        },
    }
}

/// No hop from a located build gives a required build more than it has.
pub open spec fn settled<V>(
    mint: Minting<V>,
    reach: Reaching<V>,
    required: Seq<usize>,
    located: Located,
) -> bool {
    forall|i: int, n: int|
        #![trigger located[i], required[n]]
        0 <= i < located.len() && located[i] is Some && 0 <= n < required.len() ==> (hopped(
            mint,
            reach,
            i,
            place(located[i]),
            required[n] as int,
        ) matches Some((_, c)) ==> as_sure(
            located,
            required[n] as int,
            similarity::least(sureness(located[i]), c),
        ))
}

/// The path to every build is as sure as its worst link and the widest there is: each located build but
/// the reference was reached by a hop from a located one, with the lesser confidence of the two, and no
/// hop from any located build would reach a required build with more confidence.
pub proof fn path_is_widest<V>(
    mint: Minting<V>,
    reach: Reaching<V>,
    builds: nat,
    required: Seq<usize>,
    ref_idx: int,
    ref_entry: int,
)
    requires
        0 <= ref_idx < builds,
        0 <= ref_entry <= u64::MAX,
        forall|n: int| 0 <= n < required.len() ==> #[trigger] required[n] < builds,
        forall|v: int, a: V| (#[trigger] reach(v, a)) matches Some((_, c)) ==> c <= SIM_ONE,
    ensures
        settled(mint, reach, required, path(mint, reach, builds, required, ref_idx, ref_entry)),
        rooted(mint, reach, path(mint, reach, builds, required, ref_idx, ref_entry), ref_idx),
{
    let closed = Seq::new(builds, |i: int| None::<(u64, u64)>);
    if let Some(a) = mint(ref_idx, ref_entry) {
        let located = closed.update(ref_idx, Some((ref_entry as u64, SIM_ONE)));
        let frontier = offered(
            reach,
            required,
            located,
            Seq::empty(),
            a,
            SIM_ONE,
            required.len() as int,
        );
        offers_are_hops(
            reach,
            required,
            located,
            Seq::empty(),
            a,
            SIM_ONE,
            required.len() as int,
        );
        assert forall|j: int| 0 <= j < frontier.len() implies grounded(
            mint,
            reach,
            located,
            (#[trigger] frontier[j]).0 as int,
            entry_in(frontier[j]),
        ) by {
            assert(linked(
                mint,
                reach,
                located,
                frontier[j].0 as int,
                entry_in(frontier[j]),
                ref_idx,
            ));
        }
        assert(widening(mint, reach, required, located, frontier, ref_idx));
        walk_is_widest(mint, reach, required, located, frontier, ref_idx);
    }
}

}
