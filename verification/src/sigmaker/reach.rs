//! What a signature reaches in each build, and which look-alikes are listed where nothing is found.

use crate::memory::Region;
use crate::ordered;
use crate::pattern::Arch;
use crate::sigmaker::blends;
use crate::sigmaker::blends::PartV;
use crate::sigmaker::bytepath;
use crate::sigmaker::bytepath::{Anchor, SweepV};
use crate::sigmaker::cache;
use crate::sigmaker::identity;
use crate::sigmaker::identity::IdentityV;
use crate::sigmaker::relocate;
use crate::sigmaker::similarity;
use crate::sigmaker::strings;
use crate::sigmaker::types::{ImageInput, PerVersionV, TargetKind};
use crate::sigmaker::uses::four_signed;
use vstd::prelude::*;
use vstd::utf8::encode_utf8;

verus! {

/// The address is in one of the regions.
pub open spec fn in_one(regions: Seq<Region>, a: int) -> bool {
    exists|i: int|
        0 <= i < regions.len() && (#[trigger] regions[i]).base <= a && a - regions[i].base
            < regions[i].size
}

/// An address is code where a code region holds it, else an import where the import table does, else data
/// where any region does.
pub proof fn kinds_go_by_the_regions(img: &ImageInput, a: int)
    ensures
        ({
            let code = in_one(img.code_regions@, a);
            let import = img.import matches Some((s, e)) && s <= a && a < e;
            let data = in_one(img.regions@, a);
            &&& img.kind_of(a) == TargetKind::Code <==> code
            &&& img.kind_of(a) == TargetKind::Import <==> !code && import
            &&& img.kind_of(a) == TargetKind::Data <==> !code && !import && data
            &&& img.kind_of(a) == TargetKind::Unknown <==> !code && !import && !data
        }),
{
    held_is_within(img.code_regions@, a);
    held_is_within(img.regions@, a);
}

proof fn held_is_within(regions: Seq<Region>, a: int)
    ensures
        crate::sigmaker::types::within(regions, a) <==> in_one(regions, a),
{
    if crate::sigmaker::types::within(regions, a) {
        let i = choose|i: int| 0 <= i < regions.len() && (#[trigger] regions[i]).holds(a);
        assert(regions[i].base <= a);
    }
    if in_one(regions, a) {
        let i = choose|i: int|
            0 <= i < regions.len() && (#[trigger] regions[i]).base <= a && a - regions[i].base
                < regions[i].size;
        assert(regions[i].holds(a));
    }
}

/// A branch at a site leads where its distance says: five bytes on from the site, and on from there.
pub proof fn branches_lead_by_their_distance(img: &ImageInput, site: u64)
    ensures
        bytepath::led_to(Anchor::Branch, img, site) matches Some(t) ==> {
            let b = img.window(site as int, 8);
            &&& b.len() >= 5
            &&& b[0] == 0xE8 || b[0] == 0xE9
            &&& t == img.base + site + 5 + four_signed(b, 1)
        },
        bytepath::led_to(Anchor::Direct, img, site) is None,
{
}

/// What is recorded of a build: where the pattern is, and what it leads to there, if that is in the image.
pub open spec fn row_tells(
    img: &ImageInput,
    bytes: Seq<u8>,
    fixed: Seq<bool>,
    anchor: Anchor,
    row: PerVersionV,
) -> bool {
    let at = cache::located(img, bytes, fixed).1;
    &&& row.label == img.label@
    &&& row.match_rva == at
    &&& row.resolved_target_rva is Some <==> reaches_image(img, anchor, at)
    &&& row.target_kind is Some <==> reaches_image(img, anchor, at)
    &&& reaches_image(img, anchor, at) ==> {
        let t = bytepath::led_to(anchor, img, at->0)->0;
        &&& row.resolved_target_rva == Some((t - img.base) as u64)
        &&& row.target_kind == Some(img.kind_of(t as int))
    }
}

/// The pattern is in the build and leads to an address of the image.
pub open spec fn reaches_image(img: &ImageInput, anchor: Anchor, at: Option<u64>) -> bool {
    &&& anchor != Anchor::Direct
    &&& at matches Some(site) && (bytepath::led_to(anchor, img, site) matches Some(t) && img.base <= t && t
        < img.base + img.size)
}

/// What is recorded of the first `n` builds.
pub open spec fn sweep_tells(
    images: Seq<&ImageInput>,
    required: Seq<usize>,
    bytes: Seq<u8>,
    fixed: Seq<bool>,
    anchor: Anchor,
    n: int,
    s: SweepV,
) -> bool {
    &&& s.rows.len() == n
    &&& forall|k: int|
        0 <= k < n ==> row_tells(
            images[required[k] as int],
            bytes,
            fixed,
            anchor,
            #[trigger] s.rows[k],
        )
    &&& s.unique <==> forall|k: int|
        0 <= k < n ==> (#[trigger] cache::located(images[required[k] as int], bytes, fixed)).0 == 1
    &&& s.unresolved <==> exists|k: int|
        0 <= k < n && (#[trigger] s.rows[k]).match_rva is Some && s.rows[k].resolved_target_rva is None
            && anchor != Anchor::Direct
    &&& s.all_code <==> forall|k: int|
        0 <= k < n ==> ((#[trigger] s.rows[k]).target_kind matches Some(kind) ==> kind
            == TargetKind::Code)
}

#[verifier::opaque]
spec fn sweep(
    images: Seq<&ImageInput>,
    required: Seq<usize>,
    bytes: Seq<u8>,
    fixed: Seq<bool>,
    anchor: Anchor,
    n: int,
) -> SweepV {
    bytepath::swept(images, required, bytes, fixed, anchor, n)
}

proof fn sweep_goes_on(
    images: Seq<&ImageInput>,
    required: Seq<usize>,
    bytes: Seq<u8>,
    fixed: Seq<bool>,
    anchor: Anchor,
    n: int,
)
    ensures
        n <= 0 ==> ({
            let s = sweep(images, required, bytes, fixed, anchor, n);
            s.rows.len() == 0 && s.unique && !s.unresolved && s.all_code
        }),
        n > 0 ==> ({
            let b = sweep(images, required, bytes, fixed, anchor, n - 1);
            let s = sweep(images, required, bytes, fixed, anchor, n);
            let img = images[required[n - 1] as int];
            let (count, at) = cache::located(img, bytes, fixed);
            let reached = reaches_image(img, anchor, at);
            &&& s.rows == b.rows.push(s.rows.last())
            &&& row_tells(img, bytes, fixed, anchor, s.rows.last())
            &&& s.unique <==> b.unique && count == 1
            &&& s.unresolved <==> b.unresolved || (anchor != Anchor::Direct && at is Some && !reached)
            &&& s.all_code <==> b.all_code && (reached ==> s.rows.last().target_kind == Some(
                TargetKind::Code,
            ))
        }),
{
    reveal(sweep);
    if n > 0 {
        let b = bytepath::swept(images, required, bytes, fixed, anchor, n - 1);
        let s = bytepath::swept(images, required, bytes, fixed, anchor, n);
        assert(s.rows =~= b.rows.push(s.rows.last()));
    }
}

proof fn sweep_is_told(
    images: Seq<&ImageInput>,
    required: Seq<usize>,
    bytes: Seq<u8>,
    fixed: Seq<bool>,
    anchor: Anchor,
    n: int,
)
    requires
        0 <= n,
    ensures
        sweep_tells(
            images,
            required,
            bytes,
            fixed,
            anchor,
            n,
            sweep(images, required, bytes, fixed, anchor, n),
        ),
    decreases n,
{
    sweep_goes_on(images, required, bytes, fixed, anchor, n);
    if n > 0 {
        sweep_is_told(images, required, bytes, fixed, anchor, n - 1);
        let b = sweep(images, required, bytes, fixed, anchor, n - 1);
        let s = sweep(images, required, bytes, fixed, anchor, n);
        assert(s.rows[n - 1] == s.rows.last());
        assert forall|k: int| 0 <= k < n - 1 implies #[trigger] s.rows[k] == b.rows[k] by {}
        assert(s.unique <==> forall|k: int|
            0 <= k < n ==> (#[trigger] cache::located(images[required[k] as int], bytes, fixed)).0 == 1) by {
            if forall|k: int|
                0 <= k < n ==> (#[trigger] cache::located(
                    images[required[k] as int],
                    bytes,
                    fixed,
                )).0 == 1 {
                assert(cache::located(images[required[n - 1] as int], bytes, fixed).0 == 1);
            }
        }
        assert(s.unresolved <==> exists|k: int|
            0 <= k < n && (#[trigger] s.rows[k]).match_rva is Some && s.rows[k].resolved_target_rva is None
                && anchor != Anchor::Direct) by {
            if b.unresolved {
                let k = choose|k: int|
                    0 <= k < n - 1 && (#[trigger] b.rows[k]).match_rva is Some
                        && b.rows[k].resolved_target_rva is None && anchor != Anchor::Direct;
                assert(s.rows[k] == b.rows[k]);
            }
            if exists|k: int|
                0 <= k < n && (#[trigger] s.rows[k]).match_rva is Some
                    && s.rows[k].resolved_target_rva is None && anchor != Anchor::Direct {
                let k = choose|k: int|
                    0 <= k < n && (#[trigger] s.rows[k]).match_rva is Some
                        && s.rows[k].resolved_target_rva is None && anchor != Anchor::Direct;
                if k < n - 1 {
                    assert(b.rows[k] == s.rows[k]);
                }
            }
        }
        assert(s.all_code <==> forall|k: int|
            0 <= k < n ==> ((#[trigger] s.rows[k]).target_kind matches Some(kind) ==> kind
                == TargetKind::Code)) by {
            if forall|k: int|
                0 <= k < n ==> ((#[trigger] s.rows[k]).target_kind matches Some(kind) ==> kind
                    == TargetKind::Code) {
                assert forall|k: int| 0 <= k < n - 1 implies ((#[trigger] b.rows[k]).target_kind matches Some(
                    kind,
                ) ==> kind == TargetKind::Code) by {
                    assert(s.rows[k] == b.rows[k]);
                }
            }
        }
    }
}

/// The rows of a signature say, build by build, where it is and what it leads to; it counts as unique where
/// every build has it once, as unresolved where it leads out of the image or nowhere in one of them, and as
/// leading to code where it leads to nothing else.
pub proof fn rows_tell_where_it_leads(
    images: Seq<&ImageInput>,
    required: Seq<usize>,
    bytes: Seq<u8>,
    fixed: Seq<bool>,
    anchor: Anchor,
    n: int,
)
    requires
        0 <= n,
    ensures
        sweep_tells(
            images,
            required,
            bytes,
            fixed,
            anchor,
            n,
            bytepath::swept(images, required, bytes, fixed, anchor, n),
        ),
{
    sweep_is_told(images, required, bytes, fixed, anchor, n);
    reveal(sweep);
}

/// The look-alikes of a build are at most ten places of x86 code, 65 percent alike or more, most alike
/// first, and no two within sixteen bytes of each other.
pub proof fn lookalikes_are_apart(img: &ImageInput, reference: IdentityV)
    ensures
        ({
            let out = relocate::lookalikes(img, reference);
            &&& img.arch != Arch::X86 ==> out.len() == 0
            &&& out.len() <= 10
            &&& forall|i: int|
                0 <= i < out.len() ==> 100 * (#[trigger] out[i]).1 >= 65 * 1_000_000_000_000
            &&& forall|i: int, j: int|
                0 <= i < j < out.len() ==> (#[trigger] out[i]).1 >= (#[trigger] out[j]).1
            &&& forall|i: int, j: int|
                0 <= i < j < out.len() ==> (#[trigger] out[i]).0 - (#[trigger] out[j]).0 >= 16
                    || out[j].0 - out[i].0 >= 16
        }),
{
    identity::shortlist_is_spread_out(
        identity::boundary_identities(img, img.code_regions@.len() as int),
        reference,
        650_000_000_000,
        10,
    );
}

/// The strings of a function that are tried are its longest ones, six at most, longest first.
pub proof fn longest_strings_are_tried(img: &ImageInput, rva: int)
    ensures
        ({
            let own = identity::identity_at(img, rva).strings;
            let s = strings::strings_to_try(img, rva);
            &&& s.len() == if own.len() < 6 {
                own.len()
            } else {
                6
            }
            &&& forall|i: int, j: int|
                0 <= i < j < s.len() ==> long(#[trigger] s[i]) >= long(#[trigger] s[j])
            &&& exists|rest: Seq<Seq<char>>| #[trigger]
                (s + rest).to_multiset() == own.to_multiset() && forall|i: int, j: int|
                    0 <= i < s.len() && 0 <= j < rest.len() ==> long(#[trigger] s[i]) >= long(
                        #[trigger] rest[j],
                    )
        }),
{
    let own = identity::identity_at(img, rva).strings;
    by_length_is_sorted(own);
    let all = strings::by_length(own);
    let s = strings::strings_to_try(img, rva);
    let rest = all.skip(s.len() as int);
    assert(s + rest =~= all);
    assert forall|i: int, j: int| 0 <= i < s.len() && 0 <= j < rest.len() implies long(#[trigger] s[i])
        >= long(#[trigger] rest[j]) by {
        assert(rest[j] == all[s.len() + j]);
        assert(s[i] == all[i]);
    }
}

/// How many bytes a text takes.
pub open spec fn long(s: Seq<char>) -> usize {
    encode_utf8(s).len() as usize
}

proof fn by_length_in_is_sorted(s: Seq<Seq<char>>, x: Seq<char>)
    requires
        forall|i: int, j: int| 0 <= i < j < s.len() ==> long(#[trigger] s[i]) >= long(#[trigger] s[j]),
    ensures
        ({
            let r = strings::by_length_in(s, x);
            &&& r.len() == s.len() + 1
            &&& r.to_multiset() == s.to_multiset().insert(x)
            &&& forall|i: int, j: int|
                0 <= i < j < r.len() ==> long(#[trigger] r[i]) >= long(#[trigger] r[j])
            &&& forall|k: int| 0 <= k < r.len() ==> #[trigger] r[k] == x || s.contains(r[k])
        }),
    decreases s.len(),
{
    broadcast use vstd::seq_lib::group_to_multiset_ensures;

    let r = strings::by_length_in(s, x);
    if s.len() == 0 || long(s.last()) >= long(x) {
        assert forall|k: int| 0 <= k < r.len() implies #[trigger] r[k] == x || s.contains(r[k]) by {
            if k < s.len() {
                assert(s[k] == r[k]);
            }
        }
        assert forall|i: int, j: int| 0 <= i < j < r.len() implies long(#[trigger] r[i]) >= long(
            #[trigger] r[j],
        ) by {
            if j == s.len() {
                if i < s.len() - 1 {
                    assert(long(s[i]) >= long(s[s.len() - 1]));
                }
            }
        }
    } else {
        let d = s.drop_last();
        by_length_in_is_sorted(d, x);
        let front = strings::by_length_in(d, x);
        assert(d.push(s.last()) =~= s);
        assert(front.push(s.last()).to_multiset() =~= s.to_multiset().insert(x));
        assert forall|k: int| 0 <= k < front.len() implies long(#[trigger] front[k]) >= long(s.last()) by {
            if front[k] != x {
                assert(d.contains(front[k]));
                let j = choose|j: int| 0 <= j < d.len() && d[j] == front[k];
                assert(long(s[j]) >= long(s[s.len() - 1]));
            }
        }
        assert forall|k: int| 0 <= k < r.len() implies #[trigger] r[k] == x || s.contains(r[k]) by {
            if k < front.len() {
                assert(r[k] == front[k]);
                if front[k] != x {
                    let j = choose|j: int| 0 <= j < d.len() && d[j] == front[k];
                    assert(s[j] == r[k]);
                }
            } else {
                assert(s[s.len() - 1] == r[k]);
            }
        }
        assert forall|i: int, j: int| 0 <= i < j < r.len() implies long(#[trigger] r[i]) >= long(
            #[trigger] r[j],
        ) by {
            assert(r[i] == front[i]);
            if j < front.len() {
                assert(r[j] == front[j]);
            }
        }
    }
}

proof fn by_length_is_sorted(s: Seq<Seq<char>>)
    ensures
        strings::by_length(s).len() == s.len(),
        strings::by_length(s).to_multiset() == s.to_multiset(),
        forall|i: int, j: int|
            0 <= i < j < s.len() ==> long(#[trigger] strings::by_length(s)[i]) >= long(
                #[trigger] strings::by_length(s)[j],
            ),
    decreases s.len(),
{
    broadcast use vstd::seq_lib::group_to_multiset_ensures;

    if s.len() > 0 {
        let d = s.drop_last();
        by_length_is_sorted(d);
        by_length_in_is_sorted(strings::by_length(d), s.last());
        assert(d.push(s.last()) =~= s);
    }
}

/// A part of a likeness: its weight, and the share `num / den`.
pub open spec fn part_is(p: PartV, weight: int, num: int, den: int) -> bool {
    p.weight == weight && p.num == num && p.den == den
}

/// The part of two counts: the lesser of the greater, whole where both are zero.
pub open spec fn count_share(p: PartV, a: int, b: int) -> bool {
    &&& a == 0 && b == 0 ==> part_is(p, 25, 1, 1)
    &&& a <= b && b > 0 ==> part_is(p, 25, a, b)
    &&& b <= a && a > 0 ==> part_is(p, 25, b, a)
}

/// The part of two sets: what they share of what they have.
pub open spec fn set_share<T>(p: PartV, weight: int, a: Seq<T>, b: Seq<T>) -> bool {
    part_is(
        p,
        weight,
        a.to_set().intersect(b.to_set()).len() as int,
        a.to_set().union(b.to_set()).len() as int,
    )
}

proof fn set_part_is_shared<T>(weight: int, a: Seq<T>, b: Seq<T>)
    ensures
        a.len() == 0 && b.len() == 0 ==> blends::set_part(weight, a, b).len() == 0,
        a.len() + b.len() > 0 ==> blends::set_part(weight, a, b).len() == 1 && set_share(
            blends::set_part(weight, a, b)[0],
            weight,
            a,
            b,
        ),
{
    let x = ordered::distinct(a);
    let y = ordered::distinct(b);
    ordered::distinct_has_no_repeats(a);
    ordered::distinct_has_no_repeats(b);
    ordered::distinct_keeps_items(a);
    ordered::distinct_keeps_items(b);
    ordered::common_is_intersection(x, y);
    x.unique_seq_to_set();
    y.unique_seq_to_set();
    assert forall|t: T| x.to_set().contains(t) <==> a.to_set().contains(t) by {
        assert(x.contains(t) <==> a.contains(t));
    }
    assert forall|t: T| y.to_set().contains(t) <==> b.to_set().contains(t) by {
        assert(y.contains(t) <==> b.contains(t));
    }
    assert(x.to_set() =~= a.to_set());
    assert(y.to_set() =~= b.to_set());
    vstd::set_lib::lemma_set_intersect_union_lens(a.to_set(), b.to_set());
}

/// How alike two functions are is the mean of these shares by these weights: 160 for the mnemonics, by the
/// longest common subsequence; 25 each for blocks, calls, branches and returns, by the lesser of the two;
/// 80 for the constants and 60 for the texts, by what they share, where either has any.
pub proof fn likeness_is_made_of_shares(a: IdentityV, b: IdentityV)
    ensures
        ({
            let p = identity::parts_of(a, b);
            let constants = a.constants.len() + b.constants.len() > 0;
            let texts = a.strings.len() + b.strings.len() > 0;
            let m = a.mnemonics.len() + b.mnemonics.len();
            &&& identity::likeness(a, b) == blends::blended(p)
            &&& p.len() == 5 + (if constants {
                1int
            } else {
                0
            }) + (if texts {
                1int
            } else {
                0
            })
            &&& m == 0 ==> part_is(p[0], 160, 1, 1)
            &&& m > 0 ==> part_is(
                p[0],
                160,
                2 * similarity::lcs(a.mnemonics, b.mnemonics) as int,
                m as int,
            )
            &&& count_share(p[1], a.blocks as int, b.blocks as int)
            &&& count_share(p[2], a.calls as int, b.calls as int)
            &&& count_share(p[3], a.branches as int, b.branches as int)
            &&& count_share(p[4], a.returns as int, b.returns as int)
            &&& constants ==> set_share(p[5], 80, a.constants, b.constants)
            &&& texts ==> set_share(p.last(), 60, a.strings, b.strings)
        }),
{
    set_part_is_shared(80, a.constants, b.constants);
    set_part_is_shared(60, a.strings, b.strings);
    let c = blends::set_part(80, a.constants, b.constants);
    let s = blends::set_part(60, a.strings, b.strings);
    let p = identity::parts_of(a, b);
    if c.len() > 0 {
        assert(p[5] == c[0]);
    }
    if s.len() > 0 {
        assert(p.last() == s[0]);
    }
}

}
