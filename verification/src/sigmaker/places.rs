//! Where a pattern is in the code of a build, place by place, and what counting it means.

use crate::pattern;
use crate::scanner;
use crate::sigmaker::cache;
use crate::sigmaker::generate;
use crate::sigmaker::types::{HoldoutResultV, ImageInput, NegativeHitV, SigOptions, TargetSpecV};
use crate::sigmaker::validate;
use vstd::prelude::*;

verus! {

/// Every fixed byte of the pattern is in `hay` at `off`, and the pattern ends in `hay`.
pub open spec fn agrees(hay: Seq<u8>, off: int, tokens: Seq<Option<u8>>) -> bool {
    &&& 0 <= off
    &&& off + tokens.len() <= hay.len()
    &&& forall|k: int|
        0 <= k < tokens.len() ==> (#[trigger] tokens[k] matches Some(b) ==> hay[off + k] == b)
}

/// The places of a pattern in a build: the code region by its number, and the offset in it.
pub open spec fn places(img: &ImageInput, tokens: Seq<Option<u8>>) -> Set<(int, int)> {
    Set::new(
        |x: (int, int)|
            0 <= x.0 < img.code_regions@.len() && agrees(
                img.bytes(
                    img.code_regions@[x.0].base as int,
                    img.code_regions@[x.0].size as nat,
                ),
                x.1,
                tokens,
            ),
    )
}

/// The RVA of a place.
pub open spec fn rva_of(img: &ImageInput, x: (int, int)) -> int {
    img.code_regions@[x.0].base + x.1 - img.base
}

/// The places in the first `n` regions, in order.
spec fn listed(img: &ImageInput, tokens: Seq<Option<u8>>, n: int) -> Seq<(int, int)>
    decreases n,
{
    if n <= 0 {
        Seq::empty()
    } else {
        let at = scanner::hits(
            cache::code_of(img)[n - 1].1,
            pattern::bytes_of(tokens),
            pattern::mask_of(tokens),
        );
        listed(img, tokens, n - 1) + Seq::new(at.len(), |k: int| (n - 1, at[k]))
    }
}

proof fn hit_is_agreement(hay: Seq<u8>, off: int, tokens: Seq<Option<u8>>)
    ensures
        scanner::hit(hay, off, pattern::bytes_of(tokens), pattern::mask_of(tokens)) <==> agrees(
            hay,
            off,
            tokens,
        ),
{
    let b = pattern::bytes_of(tokens);
    let m = pattern::mask_of(tokens);
    if scanner::hit(hay, off, b, m) {
        assert forall|k: int| 0 <= k < tokens.len() implies (#[trigger] tokens[k] matches Some(x)
            ==> hay[off + k] == x) by {
            if tokens[k] is Some {
                assert(m[k]);
                assert(hay[off + k] == b[k]);
            }
        }
    }
    if agrees(hay, off, tokens) {
        assert forall|k: int| 0 <= k < b.len() && m[k] implies #[trigger] hay[off + k] == b[k] by {
            assert(tokens[k] is Some);
        }
    }
}

proof fn listed_is_places(img: &ImageInput, tokens: Seq<Option<u8>>, n: int)
    requires
        0 <= n <= img.code_regions@.len(),
        tokens.len() > 0,
    ensures
        listed(img, tokens, n).no_duplicates(),
        forall|x: (int, int)| #[trigger]
            listed(img, tokens, n).contains(x) <==> (places(img, tokens).contains(x) && x.0 < n),
        ({
            let s = cache::sightings(
                img.base as int,
                cache::code_of(img),
                pattern::bytes_of(tokens),
                pattern::mask_of(tokens),
                n,
            );
            &&& s.len() == listed(img, tokens, n).len()
            &&& forall|k: int|
                0 <= k < s.len() ==> #[trigger] s[k] == rva_of(img, listed(img, tokens, n)[k]) as u64
        }),
    decreases n,
{
    if n > 0 {
        listed_is_places(img, tokens, n - 1);
        let b = pattern::bytes_of(tokens);
        let m = pattern::mask_of(tokens);
        let hay = cache::code_of(img)[n - 1].1;
        let at = scanner::hits(hay, b, m);
        scanner::hits_are_the_matches(hay, 0, b, m);
        let before = listed(img, tokens, n - 1);
        let here = Seq::new(at.len(), |k: int| (n - 1, at[k]));
        let all = listed(img, tokens, n);
        assert(all == before + here);
        assert forall|x: (int, int)| #[trigger] all.contains(x) <==> (places(img, tokens).contains(x)
            && x.0 < n) by {
            hit_is_agreement(hay, x.1, tokens);
            if all.contains(x) {
                let k = choose|k: int| 0 <= k < all.len() && all[k] == x;
                if k < before.len() {
                    assert(before[k] == x);
                    assert(before.contains(x));
                } else {
                    assert(here[k - before.len()] == x);
                    assert(at[k - before.len()] == x.1);
                }
            }
            if places(img, tokens).contains(x) && x.0 < n {
                if x.0 < n - 1 {
                    assert(before.contains(x));
                    let k = choose|k: int| 0 <= k < before.len() && before[k] == x;
                    assert(all[k] == x);
                } else {
                    assert(at.contains(x.1));
                    let k = choose|k: int| 0 <= k < at.len() && at[k] == x.1;
                    assert(here[k] == x);
                    assert(all[before.len() + k] == x);
                }
            }
        }
        assert forall|i: int, j: int|
            0 <= i < all.len() && 0 <= j < all.len() && i != j implies all[i] != all[j] by {
            let lo = if i < j {
                i
            } else {
                j
            };
            let hi = if i < j {
                j
            } else {
                i
            };
            if hi < before.len() {
                assert(before[lo] != before[hi]);
            } else if lo < before.len() {
                assert(before.contains(before[lo]));
            } else {
                assert(at[lo - before.len()] < at[hi - before.len()]);
            }
        }
    }
}

proof fn least_is_least(s: Seq<u64>)
    ensures
        match cache::least_of(s) {
            None => s.len() == 0,
            Some(m) => s.contains(m) && forall|k: int| 0 <= k < s.len() ==> m <= #[trigger] s[k],
        },
    decreases s.len(),
{
    if s.len() > 0 {
        let d = s.drop_last();
        least_is_least(d);
        assert(s[s.len() - 1] == s.last());
        if let Some(m) = cache::least_of(d) {
            let k = choose|k: int| 0 <= k < d.len() && d[k] == m;
            assert(s[k] == m);
            assert forall|k: int| 0 <= k < s.len() implies cache::least_of(s)->0 <= #[trigger] s[k] by {
                if k < d.len() {
                    assert(d[k] == s[k]);
                }
            }
        }
    }
}

/// Counting a pattern in a build counts its places, and the place that is given is the lowest of them.
pub proof fn located_counts_places(img: &ImageInput, tokens: Seq<Option<u8>>)
    requires
        tokens.len() > 0,
    ensures
        ({
            let (count, rva) = cache::located(
                img,
                pattern::bytes_of(tokens),
                pattern::mask_of(tokens),
            );
            let all = places(img, tokens);
            &&& all.finite()
            &&& count as int == if all.len() <= usize::MAX {
                all.len() as int
            } else {
                usize::MAX as int
            }
            &&& rva is Some <==> all.len() > 0
            &&& rva matches Some(r) ==> exists|x: (int, int)| #[trigger]
                all.contains(x) && r == rva_of(img, x) as u64
            &&& rva matches Some(r) ==> forall|x: (int, int)| #[trigger]
                all.contains(x) ==> r <= rva_of(img, x) as u64
        }),
{
    let n = img.code_regions@.len() as int;
    listed_is_places(img, tokens, n);
    let list = listed(img, tokens, n);
    let all = places(img, tokens);
    list.unique_seq_to_set();
    assert(list.to_set() =~= all) by {
        assert forall|x: (int, int)| list.to_set().contains(x) <==> all.contains(x) by {
            assert(list.contains(x) <==> (all.contains(x) && x.0 < n));
        }
    }
    let s = cache::sightings(
        img.base as int,
        cache::code_of(img),
        pattern::bytes_of(tokens),
        pattern::mask_of(tokens),
        n,
    );
    least_is_least(s);
    if let Some(r) = cache::least_of(s) {
        let k = choose|k: int| 0 <= k < s.len() && s[k] == r;
        assert(s[k] == rva_of(img, list[k]) as u64);
        assert(list.contains(list[k]));
        assert(all.contains(list[k]));
        assert forall|x: (int, int)| #[trigger] all.contains(x) implies r <= rva_of(img, x) as u64 by {
            assert(list.contains(x));
            let j = choose|j: int| 0 <= j < list.len() && list[j] == x;
            assert(r <= s[j]);
        }
    }
}

/// Exactly one place.
pub open spec fn only_place(img: &ImageInput, tokens: Seq<Option<u8>>, x: (int, int)) -> bool {
    &&& places(img, tokens).contains(x)
    &&& forall|y: (int, int)| #[trigger] places(img, tokens).contains(y) ==> y == x
}

proof fn one_is_only(img: &ImageInput, tokens: Seq<Option<u8>>)
    requires
        places(img, tokens).finite(),
    ensures
        places(img, tokens).len() == 1 <==> exists|x: (int, int)| only_place(img, tokens, x),
{
    let all = places(img, tokens);
    if all.len() == 1 {
        let x = all.choose();
        assert(all.contains(x));
        let rest = all.remove(x);
        assert(rest.len() == 0);
        assert forall|y: (int, int)| #[trigger] all.contains(y) implies y == x by {
            if y != x {
                assert(rest.contains(y));
                assert(rest =~= Set::<(int, int)>::empty());
            }
        }
        assert(only_place(img, tokens, x));
    }
    if exists|x: (int, int)| only_place(img, tokens, x) {
        let x = choose|x: (int, int)| only_place(img, tokens, x);
        assert(all =~= Set::<(int, int)>::empty().insert(x));
    }
}

/// A pattern is counted once exactly where it has one place and no other.
pub proof fn located_once_is_one_place(img: &ImageInput, tokens: Seq<Option<u8>>)
    requires
        tokens.len() > 0,
    ensures
        ({
            let (count, rva) = cache::located(
                img,
                pattern::bytes_of(tokens),
                pattern::mask_of(tokens),
            );
            &&& count == 1 <==> exists|x: (int, int)| only_place(img, tokens, x)
            &&& count == 0 <==> forall|x: (int, int)| !places(img, tokens).contains(x)
            &&& count == 1 ==> (rva matches Some(r) && exists|x: (int, int)|
                only_place(img, tokens, x) && r == rva_of(img, x) as u64)
        }),
{
    located_counts_places(img, tokens);
    one_is_only(img, tokens);
    let all = places(img, tokens);
    let (count, rva) = cache::located(img, pattern::bytes_of(tokens), pattern::mask_of(tokens));
    if all.len() == 0 {
        assert(all =~= Set::<(int, int)>::empty());
    } else {
        let x = all.choose();
        assert(all.contains(x));
    }
    if count == 1 {
        let x = choose|x: (int, int)| only_place(img, tokens, x);
        assert(all.contains(x));
        assert(rva is Some);
        let y = choose|y: (int, int)| #[trigger] all.contains(y) && rva->0 == rva_of(img, y) as u64;
        assert(y == x);
    }
}

/// The text is a pattern with exactly one place in the build.
pub open spec fn matches_once(img: &ImageInput, aob: Seq<char>) -> bool {
    pattern::parsed(aob) matches Some(tokens) && exists|x: (int, int)| only_place(img, tokens, x)
}

/// The text is a pattern with a place in the build.
pub open spec fn matches_somewhere(img: &ImageInput, aob: Seq<char>) -> bool {
    pattern::parsed(aob) matches Some(tokens) && exists|x: (int, int)|
        places(img, tokens).contains(x)
}

/// How many places the text has in the build, as far as can be counted.
pub open spec fn matches_in(img: &ImageInput, aob: Seq<char>) -> int {
    match pattern::parsed(aob) {
        Some(tokens) => if places(img, tokens).len() <= usize::MAX {
            places(img, tokens).len() as int
        } else {
            usize::MAX as int
        },
        None => 0,
    }
}

/// Occurrences are places.
proof fn occurrences_are_places(img: &ImageInput, aob: Seq<char>)
    ensures
        validate::occurrences(img, aob) == matches_in(img, aob),
        validate::occurrences(img, aob) == 1 <==> matches_once(img, aob),
        validate::occurrences(img, aob) > 0 <==> matches_somewhere(img, aob),
{
    if let Some(tokens) = pattern::parsed(aob) {
        located_counts_places(img, tokens);
        located_once_is_one_place(img, tokens);
    }
}

/// What a hold-out says of a build that was left out: whether a signature was chosen from the others, and
/// that it matches the build only where its pattern has one place in the code there and no other.
pub open spec fn holdout_holds(
    img: &ImageInput,
    chosen: Option<Seq<char>>,
    r: HoldoutResultV,
) -> bool {
    &&& r.held_out == img.label@
    &&& r.generated <==> chosen is Some
    &&& r.matched_holdout <==> (chosen matches Some(aob) && matches_once(img, aob))
}

/// The number of the target's build once build `k` is left out.
pub open spec fn renumbered(target: TargetSpecV, k: int, t: TargetSpecV) -> bool {
    match (target, t) {
        (TargetSpecV::Aob(a), TargetSpecV::Aob(b)) => a == b,
        (TargetSpecV::Ref { image, rva }, TargetSpecV::Ref { image: i, rva: r }) => r == rva && image
            != k && i == if image > k {
            image - 1
        } else {
            image as int
        },
        _ => false,
    }
}

/// The builds without build `k`, in their order.
pub open spec fn left<'a, 'b>(
    images: Seq<&'b ImageInput<'a>>,
    k: int,
    others: Seq<&'b ImageInput<'a>>,
) -> bool {
    &&& others.len() == images.len() - 1
    &&& forall|i: int| 0 <= i < k ==> #[trigger] others[i] == images[i]
    &&& forall|i: int| k <= i < others.len() ==> #[trigger] others[i] == images[i + 1]
}

/// Result `r` is that of leaving out build `k`.
pub open spec fn result_of(
    images: Seq<&ImageInput>,
    target: TargetSpecV,
    opts: SigOptions,
    k: int,
    r: HoldoutResultV,
) -> bool {
    exists|t: TargetSpecV|
        #[trigger] renumbered(target, k, t) && left(images, k, validate::training(images, k))
            && holdout_holds(
            images[k],
            match generate::report_of(validate::training(images, k), t, opts).chosen {
                Some(c) => Some(c.aob),
                None => None,
            },
            r,
        )
}

/// The builds that can be left out: all but the one that defines the target.
pub open spec fn eligible(target: TargetSpecV, k: int) -> bool {
    match target {
        TargetSpecV::Aob(_) => true,
        TargetSpecV::Ref { image, .. } => k != image,
    }
}

proof fn holdout_is_one(images: Seq<&ImageInput>, target: TargetSpecV, opts: SigOptions, k: int)
    requires
        0 <= k < images.len(),
        eligible(target, k),
    ensures
        validate::adjusted(target, k) is Some,
        result_of(
            images,
            target,
            opts,
            k,
            validate::held_out_result(images, validate::adjusted(target, k)->0, opts, k),
        ),
{
    let t = validate::adjusted(target, k)->0;
    assert(renumbered(target, k, t));
    let train = validate::training(images, k);
    assert(left(images, k, train));
    if let Some(c) = generate::report_of(train, t, opts).chosen {
        occurrences_are_places(images[k], c.aob);
    }
}

proof fn holdouts_are_all(
    images: Seq<&ImageInput>,
    target: TargetSpecV,
    opts: SigOptions,
    n: int,
) -> (at: Seq<int>)
    requires
        0 <= n <= images.len(),
    ensures
        at.len() == validate::holdouts(images, target, opts, n).len(),
        forall|i: int| 0 <= i < at.len() ==> 0 <= #[trigger] at[i] < n && eligible(target, at[i]),
        forall|i: int, j: int| 0 <= i < j < at.len() ==> #[trigger] at[i] < #[trigger] at[j],
        forall|k: int| 0 <= k < n && #[trigger] eligible(target, k) ==> at.contains(k),
        forall|i: int|
            0 <= i < at.len() ==> result_of(
                images,
                target,
                opts,
                #[trigger] at[i],
                validate::holdouts(images, target, opts, n)[i],
            ),
    decreases n,
{
    if n <= 0 {
        Seq::empty()
    } else {
        let before = holdouts_are_all(images, target, opts, n - 1);
        let earlier = validate::holdouts(images, target, opts, n - 1);
        if eligible(target, n - 1) {
            holdout_is_one(images, target, opts, n - 1);
            let at = before.push(n - 1);
            assert forall|k: int| 0 <= k < n && #[trigger] eligible(target, k) implies at.contains(k) by {
                if k < n - 1 {
                    assert(before.contains(k));
                    let i = choose|i: int| 0 <= i < before.len() && before[i] == k;
                    assert(at[i] == k);
                } else {
                    assert(at[before.len() as int] == k);
                }
            }
            assert forall|i: int| 0 <= i < at.len() implies result_of(
                images,
                target,
                opts,
                #[trigger] at[i],
                validate::holdouts(images, target, opts, n)[i],
            ) by {
                if i < before.len() {
                    assert(at[i] == before[i]);
                    assert(validate::holdouts(images, target, opts, n)[i] == earlier[i]);
                }
            }
            at
        } else {
            assert(validate::adjusted(target, n - 1) is None);
            assert forall|k: int| 0 <= k < n && #[trigger] eligible(target, k) implies before.contains(
                k,
            ) by {
                assert(k < n - 1);
            }
            before
        }
    }
}

/// Leaving out each build in turn gives one result per build but the one that defines the target, in the
/// order of the builds. Each says whether a signature was made from the others, and it matches the build
/// only where its pattern has exactly one place in the code there: every fixed byte agrees at one offset of
/// one region, and nowhere else.
pub proof fn every_eligible_build_is_held_out(
    images: Seq<&ImageInput>,
    target: TargetSpecV,
    opts: SigOptions,
)
    ensures
        exists|at: Seq<int>|
            {
                let out = validate::holdouts(images, target, opts, images.len() as int);
                &&& #[trigger] at.len() == out.len()
                &&& forall|i: int, j: int|
                    0 <= i < j < at.len() ==> #[trigger] at[i] < #[trigger] at[j]
                &&& forall|k: int|
                    (0 <= k < images.len() && #[trigger] eligible(target, k)) <==> at.contains(k)
                &&& forall|i: int|
                    0 <= i < at.len() ==> result_of(images, target, opts, #[trigger] at[i], out[i])
            },
{
    let at = holdouts_are_all(images, target, opts, images.len() as int);
    assert forall|k: int| (0 <= k < images.len() && #[trigger] eligible(target, k)) <==> at.contains(
        k,
    ) by {
        if at.contains(k) {
            let i = choose|i: int| 0 <= i < at.len() && at[i] == k;
            assert(0 <= at[i] < images.len() && eligible(target, at[i]));
        }
    }
}

/// A hit tells the label of a module and how many places the pattern has in it.
pub open spec fn hit_of(img: &ImageInput, aob: Seq<char>, h: NegativeHitV) -> bool {
    h.label == img.label@ && h.count == matches_in(img, aob) && matches_somewhere(img, aob)
}

proof fn hits_are_all(negatives: Seq<ImageInput>, aob: Seq<char>, n: int) -> (at: Seq<int>)
    requires
        0 <= n <= negatives.len(),
    ensures
        at.len() == validate::hits_in(negatives, aob, n).len(),
        forall|i: int| 0 <= i < at.len() ==> 0 <= #[trigger] at[i] < n,
        forall|i: int, j: int| 0 <= i < j < at.len() ==> #[trigger] at[i] < #[trigger] at[j],
        forall|k: int|
            0 <= k < n && matches_somewhere(&(#[trigger] negatives[k]), aob) ==> at.contains(k),
        forall|i: int|
            0 <= i < at.len() ==> hit_of(
                &negatives[#[trigger] at[i]],
                aob,
                validate::hits_in(negatives, aob, n)[i],
            ),
    decreases n,
{
    if n <= 0 {
        Seq::empty()
    } else {
        let before = hits_are_all(negatives, aob, n - 1);
        let earlier = validate::hits_in(negatives, aob, n - 1);
        let img = &negatives[n - 1];
        occurrences_are_places(img, aob);
        if matches_somewhere(img, aob) {
            let at = before.push(n - 1);
            assert forall|k: int|
                0 <= k < n && matches_somewhere(&(#[trigger] negatives[k]), aob) implies at.contains(
                k,
            ) by {
                if k < n - 1 {
                    assert(before.contains(k));
                    let i = choose|i: int| 0 <= i < before.len() && before[i] == k;
                    assert(at[i] == k);
                } else {
                    assert(at[before.len() as int] == k);
                }
            }
            assert forall|i: int| 0 <= i < at.len() implies hit_of(
                &negatives[#[trigger] at[i]],
                aob,
                validate::hits_in(negatives, aob, n)[i],
            ) by {
                if i < before.len() {
                    assert(at[i] == before[i]);
                    assert(validate::hits_in(negatives, aob, n)[i] == earlier[i]);
                }
            }
            at
        } else {
            before
        }
    }
}

/// Every module whose code holds a place of the pattern has its hit, with its label and the number of
/// places, in the order of the modules; and there are no other hits.
pub proof fn every_collision_is_reported(negatives: Seq<ImageInput>, aob: Seq<char>)
    ensures
        exists|at: Seq<int>|
            {
                let hits = validate::hits_in(negatives, aob, negatives.len() as int);
                &&& #[trigger] at.len() == hits.len()
                &&& forall|i: int, j: int|
                    0 <= i < j < at.len() ==> #[trigger] at[i] < #[trigger] at[j]
                &&& forall|k: int|
                    0 <= k < negatives.len() ==> (matches_somewhere(&(#[trigger] negatives[k]), aob)
                        <==> at.contains(k))
                &&& forall|i: int|
                    0 <= i < at.len() ==> 0 <= #[trigger] at[i] < negatives.len() && hit_of(
                        &negatives[at[i]],
                        aob,
                        hits[i],
                    )
            },
{
    let at = hits_are_all(negatives, aob, negatives.len() as int);
    assert forall|k: int| 0 <= k < negatives.len() implies (matches_somewhere(
        &(#[trigger] negatives[k]),
        aob,
    ) <==> at.contains(k)) by {
        if at.contains(k) {
            let i = choose|i: int| 0 <= i < at.len() && at[i] == k;
            assert(hit_of(
                &negatives[at[i]],
                aob,
                validate::hits_in(negatives, aob, negatives.len() as int)[i],
            ));
        }
    }
    assert forall|i: int| 0 <= i < at.len() implies 0 <= #[trigger] at[i] < negatives.len() && hit_of(
        &negatives[at[i]],
        aob,
        validate::hits_in(negatives, aob, negatives.len() as int)[i],
    ) by {}
}

}
