//! What a signature that was cut at a site holds, byte by byte, and why it is as long as it is.

use crate::fileimage::RelocKind;
use crate::pattern;
use crate::sigmaker::bytepath;
use crate::sigmaker::cache;
use crate::sigmaker::candidates;
use crate::sigmaker::candidates::Attempt;
use crate::sigmaker::places::{located_once_is_one_place, only_place, rva_of};
use crate::sigmaker::promises;
use crate::sigmaker::stream::{in_constant, masked, shown, starts_at};
use crate::sigmaker::stream::{supported, walk, windows_fix_no_constant};
use crate::sigmaker::types::{Grade, ImageInput, SigCandidateV, SigOptions};
use crate::sigmaker::window;
use crate::sigmaker::window::InstrMaskV;
use vstd::prelude::*;

verus! {

/// Byte `k` of a window at `rva` must not be fixed: it is in the displacement or an immediate of the
/// instruction it belongs to, or a relocation patches it.
pub open spec fn reserved(img: &ImageInput, b: Seq<u8>, rva: int, at: Seq<int>, k: int) -> bool {
    exists|i: int|
        #![trigger at[i]]
        0 <= i < at.len() - 1 && at[i] <= k && k < at[i + 1] && (in_constant(
            img.arch,
            b,
            img.base + rva,
            at[i],
            k - at[i],
        ) || img.patch_at((rva + k) as usize) is Some)
}

proof fn walk_rises(img: &ImageInput, b: Seq<u8>, ip: int, at: Seq<int>, i: int, j: int)
    requires
        walk(img.arch, b, ip, at),
        0 <= i <= j < at.len(),
    ensures
        0 <= at[i] <= at[j],
    decreases j,
{
    if i < j {
        walk_rises(img, b, ip, at, i, j - 1);
        assert(starts_at(img.arch, b, ip, at[j - 1]));
    } else if i > 0 {
        walk_rises(img, b, ip, at, i - 1, i - 1);
        assert(starts_at(img.arch, b, ip, at[i - 1]));
    }
}

proof fn walk_covers(img: &ImageInput, b: Seq<u8>, ip: int, at: Seq<int>, n: int, k: int) -> (i: int)
    requires
        walk(img.arch, b, ip, at),
        0 <= n < at.len(),
        0 <= k < at[n],
    ensures
        0 <= i < n,
        at[i] <= k < at[i + 1],
    decreases n,
{
    if at[n - 1] <= k {
        n - 1
    } else {
        walk_covers(img, b, ip, at, n - 1, k)
    }
}

/// What a window fixes of its first `len` bytes is all but what must not be fixed.
pub proof fn windows_fix_the_rest(img: &ImageInput, b: Seq<u8>, rva: int, max_len: usize, len: int) -> (
at: Seq<int>)
    requires
        0 <= len,
    ensures
        walk(img.arch, b, img.base + rva, at),
        at.len() <= max_len / 2 + 9,
        at.len() < max_len / 2 + 9 ==> !starts_at(img.arch, b, img.base + rva, at.last()),
        ({
            let fixed = window::fixed_in(window::masks_of(img, b, rva, max_len), len);
            &&& fixed.len() == len
            &&& forall|k: int|
                0 <= k < len ==> (#[trigger] fixed[k] <==> !reserved(img, b, rva, at, k))
        }),
{
    let at = windows_fix_no_constant(img, b, rva, max_len);
    let masks = window::masks_of(img, b, rva, max_len);
    let all = window::all_fixed(masks);
    let operand = window::all_operand(masks);
    let fixed = window::fixed_in(masks, len);
    let ip = img.base + rva;
    assert forall|k: int| 0 <= k < len implies (#[trigger] fixed[k] <==> !reserved(
        img,
        b,
        rva,
        at,
        k,
    )) by {
        if reserved(img, b, rva, at, k) {
            let i = choose|i: int|
                #![trigger at[i]]
                0 <= i < at.len() - 1 && at[i] <= k && k < at[i + 1] && (in_constant(
                    img.arch,
                    b,
                    img.base + rva,
                    at[i],
                    k - at[i],
                ) || img.patch_at((rva + k) as usize) is Some);
            walk_rises(img, b, ip, at, i + 1, at.len() - 1);
            assert(shown(img, b, rva, all, operand, at[i], k - at[i]));
        } else if k < all.len() {
            let i = walk_covers(img, b, ip, at, at.len() - 1, k);
            assert(shown(img, b, rva, all, operand, at[i], k - at[i]));
        }
    }
    at
}

/// The seed lets byte `k` be fixed.
pub open spec fn seed_allows(seed: Option<Seq<bool>>, k: int) -> bool {
    match seed {
        Some(m) => k >= m.len() || m[k],
        None => true,
    }
}

/// The pattern that a window of `len` bytes starts from: every byte of it that the seed allows and that
/// need not vary.
pub open spec fn opening(
    img: &ImageInput,
    b: Seq<u8>,
    rva: int,
    at: Seq<int>,
    seed: Option<Seq<bool>>,
    len: int,
) -> Seq<Option<u8>> {
    Seq::new(
        len as nat,
        |k: int|
            if seed_allows(seed, k) && !reserved(img, b, rva, at, k) {
                Some(b[k])
            } else {
                None
            },
    )
}

/// Build number `j` of the required ones has byte `k` of the pattern at its site too.
pub open spec fn agrees_at(
    images: Seq<&ImageInput>,
    required: Seq<usize>,
    sites: Seq<u64>,
    bytes: Seq<u8>,
    j: int,
    k: int,
) -> bool {
    let other = images[required[j] as int].window(sites[j] as int, bytes.len() as int);
    k < other.len() && other[k] == bytes[k]
}

/// Every required build but the one that the pattern is from has byte `k` of it.
pub open spec fn shared(
    images: Seq<&ImageInput>,
    required: Seq<usize>,
    sites: Seq<u64>,
    from: int,
    bytes: Seq<u8>,
    n: int,
    k: int,
) -> bool {
    forall|j: int|
        0 <= j < n && required[j] != from ==> #[trigger] agrees_at(
            images,
            required,
            sites,
            bytes,
            j,
            k,
        )
}

/// What survives the builds is exactly what was fixed and is the same in each of them.
pub proof fn survivors_are_shared(
    images: Seq<&ImageInput>,
    required: Seq<usize>,
    sites: Seq<u64>,
    from: int,
    bytes: Seq<u8>,
    fixed: Seq<bool>,
    n: int,
)
    requires
        0 <= n,
    ensures
        ({
            let left = bytepath::survived(images, required, sites, from, bytes, fixed, n);
            &&& left.len() == fixed.len()
            &&& forall|k: int|
                0 <= k < fixed.len() ==> (#[trigger] left[k] <==> fixed[k] && shared(
                    images,
                    required,
                    sites,
                    from,
                    bytes,
                    n,
                    k,
                ))
        }),
    decreases n,
{
    if n > 0 {
        survivors_are_shared(images, required, sites, from, bytes, fixed, n - 1);
        let before = bytepath::survived(images, required, sites, from, bytes, fixed, n - 1);
        let left = bytepath::survived(images, required, sites, from, bytes, fixed, n);
        assert forall|k: int| 0 <= k < fixed.len() implies (#[trigger] left[k] <==> fixed[k] && shared(
            images,
            required,
            sites,
            from,
            bytes,
            n,
            k,
        )) by {
            assert(before[k] <==> fixed[k] && shared(
                images,
                required,
                sites,
                from,
                bytes,
                n - 1,
                k,
            ));
            if required[n - 1] != from {
                assert(left[k] <==> before[k] && agrees_at(
                    images,
                    required,
                    sites,
                    bytes,
                    n - 1,
                    k,
                ));
            }
        }
    }
}

proof fn sites_are_each(
    images: Seq<&ImageInput>,
    required: Seq<usize>,
    bytes: Seq<u8>,
    fixed: Seq<bool>,
    n: int,
)
    requires
        0 <= n,
    ensures
        match candidates::sites_of(images, required, bytes, fixed, n) {
            Some(sites) => sites.len() == n && forall|j: int|
                0 <= j < n ==> cache::located(images[required[j] as int], bytes, fixed) == (
                    1usize,
                    Some(#[trigger] sites[j]),
                ),
            None => exists|j: int|
                0 <= j < n && (#[trigger] cache::located(
                    images[required[j] as int],
                    bytes,
                    fixed,
                )).0 != 1,
        },
    decreases n,
{
    if n > 0 {
        sites_are_each(images, required, bytes, fixed, n - 1);
        let img = images[required[n - 1] as int];
        let tokens = pattern::tokens_of(bytes, fixed);
        let last = cache::located(img, bytes, fixed);
        if candidates::sites_of(images, required, bytes, fixed, n - 1) is Some {
            if last.0 == 1 {
                promises::one_sighting_has_a_place(img, bytes, fixed);
            }
        }
    }
}

/// The pattern has exactly one place in the build, at this address.
pub open spec fn sits_at(img: &ImageInput, tokens: Seq<Option<u8>>, rva: u64) -> bool {
    exists|x: (int, int)| #[trigger] only_place(img, tokens, x) && rva == rva_of(img, x) as u64
}

proof fn located_sits(img: &ImageInput, bytes: Seq<u8>, fixed: Seq<bool>)
    requires
        bytes.len() == fixed.len(),
        bytes.len() > 0,
    ensures
        match cache::located(img, bytes, fixed) {
            (1, Some(rva)) => sits_at(img, pattern::tokens_of(bytes, fixed), rva),
            _ => forall|rva: u64| !sits_at(img, pattern::tokens_of(bytes, fixed), rva),
        },
        forall|p: u64, q: u64|
            sits_at(img, pattern::tokens_of(bytes, fixed), p) && sits_at(
                img,
                pattern::tokens_of(bytes, fixed),
                q,
            ) ==> p == q,
{
    let tokens = pattern::tokens_of(bytes, fixed);
    assert(pattern::mask_of(tokens) =~= fixed);
    promises::wildcards_match_anything(img, pattern::bytes_of(tokens), bytes, fixed);
    located_once_is_one_place(img, tokens);
}

/// A candidate of `len` bytes at a site holds, byte by byte, what stands there and need not vary, what the
/// seed allows and what every other build has at the one place where the opening pattern is found in it;
/// everything else is a wildcard. There is a candidate only where the opening pattern has one place in
/// each build.
pub proof fn candidates_hold_what_is_shared(
    images: Seq<&ImageInput>,
    required: Seq<usize>,
    a: Attempt,
    seed: Option<Seq<bool>>,
    len: int,
) -> (r: (Seq<int>, Seq<u64>))
    ensures
        ({
            let (at, sites) = r;
            let img = images[a.ref_idx as int];
            let rva = a.site_rva as int;
            let b = bytepath::window_at(img, rva, a.opts);
            let masks = window::masks_of(img, b, rva, a.opts.max_len);
            let start = opening(img, b, rva, at, seed, len);
            &&& walk(img.arch, b, img.base + rva, at)
            &&& at.len() <= a.opts.max_len / 2 + 9
            &&& at.len() < a.opts.max_len / 2 + 9 ==> !starts_at(
                img.arch,
                b,
                img.base + rva,
                at.last(),
            )
            &&& candidates::attempted(images, required, a, seed, b, masks, len) matches Some(c)
                ==> {
                &&& 0 < len <= b.len()
                &&& sites.len() == required.len()
                &&& forall|j: int|
                    0 <= j < sites.len() ==> sits_at(
                        images[required[j] as int],
                        start,
                        #[trigger] sites[j],
                    )
                &&& pattern::parsed(c.aob) matches Some(tokens) && tokens.len() == len && forall|k: int|

                    0 <= k < len ==> #[trigger] tokens[k] == (if start[k] is Some && shared(
                        images,
                        required,
                        sites,
                        a.ref_idx as int,
                        b.take(len),
                        required.len() as int,
                        k,
                    ) {
                        Some(b[k])
                    } else {
                        None
                    })
            }
        }),
{
    let img = images[a.ref_idx as int];
    let rva = a.site_rva as int;
    let b = bytepath::window_at(img, rva, a.opts);
    let masks = window::masks_of(img, b, rva, a.opts.max_len);
    let at = windows_fix_the_rest(
        img,
        b,
        rva,
        a.opts.max_len,
        if len >= 0 {
            len
        } else {
            0
        },
    );
    let n = required.len() as int;
    let base = candidates::seeded(window::fixed_in(masks, len), seed);
    let bytes = b.take(len);
    match (
        candidates::sites_of(images, required, bytes, base, n),
        candidates::attempted(images, required, a, seed, b, masks, len),
    ) {
        (Some(sites), Some(c)) => {
            sites_are_each(images, required, bytes, base, n);
            survivors_are_shared(images, required, sites, a.ref_idx as int, bytes, base, n);
            let fixed = bytepath::survived(
                images,
                required,
                sites,
                a.ref_idx as int,
                bytes,
                base,
                n,
            );
            let start = opening(img, b, rva, at, seed, len);
            assert forall|k: int| 0 <= k < len implies (#[trigger] base[k] <==> start[k] is Some) by {
                assert(window::fixed_in(masks, len)[k] <==> !reserved(img, b, rva, at, k));
            }
            assert(pattern::tokens_of(bytes, base) =~= start);
            assert forall|j: int| 0 <= j < sites.len() implies sits_at(
                images[required[j] as int],
                start,
                #[trigger] sites[j],
            ) by {
                located_sits(images[required[j] as int], bytes, base);
            }
            pattern::aob_round_trip(bytes, fixed);
            let tokens = pattern::tokens_of(bytes, fixed);
            assert forall|k: int| 0 <= k < len implies #[trigger] tokens[k] == (if start[k] is Some
                && shared(images, required, sites, a.ref_idx as int, b.take(len), n, k) {
                Some(b[k])
            } else {
                None
            }) by {
                assert(base[k] <==> start[k] is Some);
                assert(fixed[k] <==> base[k] && shared(
                    images,
                    required,
                    sites,
                    a.ref_idx as int,
                    bytes,
                    n,
                    k,
                ));
            }
            (at, sites)
        },
        _ => (at, Seq::empty()),
    }
}

/// Byte `k` of a window is in the displacement or an immediate of its instruction.
pub open spec fn varies(img: &ImageInput, b: Seq<u8>, rva: int, at: Seq<int>, k: int) -> bool {
    exists|i: int|
        #![trigger at[i]]
        0 <= i < at.len() - 1 && at[i] <= k && k < at[i + 1] && in_constant(
            img.arch,
            b,
            img.base + rva,
            at[i],
            k - at[i],
        )
}

/// A relocation that is not supported patches one of the first `len` bytes of the decoded window.
pub open spec fn patched_oddly(img: &ImageInput, rva: int, at: Seq<int>, len: int) -> bool {
    exists|k: int|
        0 <= k < len && k < at.last() && (#[trigger] img.patch_at((rva + k) as usize) matches Some(
            RelocKind::Unsupported(_),
        ))
}

proof fn odd_patch_is_found(
    img: &ImageInput,
    b: Seq<u8>,
    rva: int,
    at: Seq<int>,
    masks: Seq<InstrMaskV>,
    len: int,
    i: int,
)
    requires
        walk(img.arch, b, img.base + rva, at),
        at.len() == masks.len() + 1,
        forall|i: int|
            0 <= i < masks.len() ==> #[trigger] masked(img, b, rva, at[i], masks[i]),
        0 <= i <= masks.len(),
        0 <= rva,
        img.base + rva + b.len() <= usize::MAX,
    ensures
        window::unsupported_in(masks, rva, len, i) is Some <==> exists|k: int|
            at[i] <= k < len && k < at.last() && (#[trigger] img.patch_at(
                (rva + k) as usize,
            ) matches Some(RelocKind::Unsupported(_))),
    decreases masks.len() - i,
{
    if i < masks.len() {
        odd_patch_is_found(img, b, rva, at, masks, len, i + 1);
        assert(masked(img, b, rva, at[i], masks[i]));
        assert(starts_at(img.arch, b, img.base + rva, at[i]));
        walk_rises(img, b, img.base + rva, at, i + 1, at.len() - 1);
        walk_rises(img, b, img.base + rva, at, i, i + 1);
        let later = exists|k: int|
            at[i + 1] <= k < len && k < at.last() && (#[trigger] img.patch_at(
                (rva + k) as usize,
            ) matches Some(RelocKind::Unsupported(_)));
        match masks[i].unsupported {
            Some((x, t)) => {
                let q = choose|q: int|
                    0 <= q < masks[i].len && x == (rva + at[i] + q) as usize && img.patch_at(x) == Some(
                        RelocKind::Unsupported(t),
                    ) && #[trigger] supported(img, rva + at[i], q);
                let k = at[i] + q;
                assert(x == rva + k);
                assert(img.patch_at((rva + k) as usize) == Some(RelocKind::Unsupported(t)));
                if k >= len {
                    assert forall|z: int|
                        at[i] <= z < len && z < at.last() && (#[trigger] img.patch_at(
                            (rva + z) as usize,
                        ) matches Some(RelocKind::Unsupported(_))) implies z >= at[i + 1] by {
                        if z < at[i + 1] {
                            assert(rva + z == rva + at[i] + (z - at[i]));
                            assert(z - at[i] < q);
                        }
                    }
                }
            },
            None => {
                assert forall|z: int|
                    at[i] <= z < len && z < at.last() && (#[trigger] img.patch_at(
                        (rva + z) as usize,
                    ) matches Some(RelocKind::Unsupported(_))) implies z >= at[i + 1] by {
                    if z < at[i + 1] {
                        assert(rva + z == rva + at[i] + (z - at[i]));
                    }
                }
            },
        }
    }
}

proof fn operand_varies(
    img: &ImageInput,
    b: Seq<u8>,
    rva: int,
    masks: Seq<InstrMaskV>,
    at: Seq<int>,
    len: int,
    k: int,
)
    requires
        walk(img.arch, b, img.base + rva, at),
        window::all_operand(masks).len() == at.last(),
        forall|i: int, k: int|
            0 <= i < at.len() - 1 && 0 <= k < at[i + 1] - at[i] ==> #[trigger] shown(
                img,
                b,
                rva,
                window::all_fixed(masks),
                window::all_operand(masks),
                at[i],
                k,
            ),
        0 <= k < len,
    ensures
        window::operand_in(masks, len)[k] <==> varies(img, b, rva, at, k),
{
    let all = window::all_fixed(masks);
    let operand = window::all_operand(masks);
    let ip = img.base + rva;
    if varies(img, b, rva, at, k) {
        let i = choose|i: int|
            #![trigger at[i]]
            0 <= i < at.len() - 1 && at[i] <= k && k < at[i + 1] && in_constant(
                img.arch,
                b,
                img.base + rva,
                at[i],
                k - at[i],
            );
        walk_rises(img, b, ip, at, i + 1, at.len() - 1);
        assert(shown(img, b, rva, all, operand, at[i], k - at[i]));
    } else if k < operand.len() {
        let i = walk_covers(img, b, ip, at, at.len() - 1, k);
        assert(shown(img, b, rva, all, operand, at[i], k - at[i]));
    }
}

/// The positions at which a list holds `true`.
pub open spec fn set_at(s: Seq<bool>) -> Set<int> {
    Set::new(|k: int| 0 <= k < s.len() && s[k])
}

pub(crate) proof fn trues_are_counted(s: Seq<bool>)
    ensures
        set_at(s).finite(),
        window::trues(s) == set_at(s).len(),
        window::trues(s) <= s.len(),
    decreases s.len(),
{
    if s.len() == 0 {
        assert(set_at(s) =~= Set::<int>::empty());
    } else {
        let d = s.drop_last();
        trues_are_counted(d);
        if s.last() {
            assert(set_at(s) =~= set_at(d).insert(s.len() - 1));
        } else {
            assert(set_at(s) =~= set_at(d));
        }
    }
}

/// The positions of the fixed bytes of a pattern.
pub open spec fn fixed_places(tokens: Seq<Option<u8>>) -> Set<int> {
    Set::new(|k: int| 0 <= k < tokens.len() && tokens[k] is Some)
}

/// A candidate is held back exactly where it has too few fixed bytes, too small a share of them, none
/// outside the operands, or a relocation that is not supported in it, and then it is rejected; and it
/// counts its bytes as its pattern has them.
pub proof fn weak_candidates_are_rejected(
    images: Seq<&ImageInput>,
    required: Seq<usize>,
    a: Attempt,
    seed: Option<Seq<bool>>,
    len: int,
) -> (at: Seq<int>)
    ensures
        ({
            let img = images[a.ref_idx as int];
            let rva = a.site_rva as int;
            let b = bytepath::window_at(img, rva, a.opts);
            let masks = window::masks_of(img, b, rva, a.opts.max_len);
            let least = a.opts.min_fixed_ratio;
            &&& walk(img.arch, b, img.base + rva, at)
            &&& candidates::attempted(images, required, a, seed, b, masks, len) matches Some(c)
                ==> (pattern::parsed(c.aob) matches Some(tokens) && {
                let odd = patched_oddly(img, rva, at, len);
                &&& fixed_places(tokens).finite()
                &&& c.fixed == fixed_places(tokens).len()
                &&& c.bytes_len == tokens.len()
                &&& c.wildcards == tokens.len() - c.fixed
                &&& c.fixed_ratio.num == c.fixed && c.fixed_ratio.den == tokens.len()
                &&& c.reloc_safe <==> !odd
                &&& c.gated <==> (c.fixed < a.opts.min_fixed || c.fixed * least.den < least.num
                    * tokens.len() || odd || forall|k: int|
                    0 <= k < tokens.len() && #[trigger] tokens[k] is Some ==> varies(
                        img,
                        b,
                        rva,
                        at,
                        k,
                    ))
                &&& c.gated ==> c.grade == Grade::F
                &&& c.suffix == a.suffix
                &&& c.packed == a.packed
            })
        }),
{
    let img = images[a.ref_idx as int];
    let rva = a.site_rva as int;
    let b = bytepath::window_at(img, rva, a.opts);
    let masks = window::masks_of(img, b, rva, a.opts.max_len);
    let at = windows_fix_no_constant(img, b, rva, a.opts.max_len);
    let n = required.len() as int;
    let base = candidates::seeded(window::fixed_in(masks, len), seed);
    let operand = window::operand_in(masks, len);
    let bytes = b.take(len);
    if let Some(c) = candidates::attempted(images, required, a, seed, b, masks, len) {
        let sites = candidates::sites_of(images, required, bytes, base, n)->0;
        survivors_are_shared(images, required, sites, a.ref_idx as int, bytes, base, n);
        let fixed = bytepath::survived(images, required, sites, a.ref_idx as int, bytes, base, n);
        pattern::aob_round_trip(bytes, fixed);
        let tokens = pattern::tokens_of(bytes, fixed);
        trues_are_counted(fixed);
        assert(fixed_places(tokens) =~= set_at(fixed));
        let clear = window::but_not(fixed, operand);
        trues_are_counted(clear);
        img.bytes_fit(img.base + rva, (a.opts.max_len + 16) as nat);
        odd_patch_is_found(img, b, rva, at, masks, len, 0);
        assert(window::unsupported_in(masks, rva, len, 0) is Some <==> patched_oddly(
            img,
            rva,
            at,
            len,
        ));
        assert forall|k: int| 0 <= k < len implies (#[trigger] operand[k] <==> varies(
            img,
            b,
            rva,
            at,
            k,
        )) by {
            operand_varies(img, b, rva, masks, at, len, k);
        }
        if set_at(clear).len() == 0 {
            assert forall|k: int| 0 <= k < tokens.len() && #[trigger] tokens[k] is Some implies varies(
                img,
                b,
                rva,
                at,
                k,
            ) by {
                assert(operand[k] <==> varies(img, b, rva, at, k));
                assert(!set_at(clear).contains(k));
                assert(fixed[k]);
            }
        } else {
            let k = set_at(clear).choose();
            assert(set_at(clear).contains(k));
            assert(operand[k] <==> varies(img, b, rva, at, k));
            assert(tokens[k] is Some);
        }
    }
    at
}

/// An instruction of the walk behind number `i` ends after `n` bytes.
pub open spec fn ends_after(at: Seq<int>, i: int, n: int) -> bool {
    exists|j: int| i < j < at.len() && #[trigger] at[j] == n
}

proof fn ends_are_listed(
    img: &ImageInput,
    b: Seq<u8>,
    rva: int,
    masks: Seq<InstrMaskV>,
    at: Seq<int>,
    max_len: int,
    i: int,
    lens: Seq<usize>,
)
    requires
        walk(img.arch, b, img.base + rva, at),
        at.len() == masks.len() + 1,
        forall|i: int|
            0 <= i < masks.len() ==> #[trigger] masked(img, b, rva, at[i], masks[i]),
        0 <= i <= masks.len(),
        max_len <= usize::MAX,
        lens.no_duplicates(),
    ensures
        ({
            let out = window::ends_from(masks, max_len, i, at[i], lens);
            &&& out.len() >= lens.len()
            &&& forall|k: int| 0 <= k < lens.len() ==> #[trigger] out[k] == lens[k]
            &&& out.no_duplicates()
            &&& forall|v: usize| #[trigger]
                out.contains(v) <==> (lens.contains(v) || (v <= max_len && ends_after(
                    at,
                    i,
                    v as int,
                )))
            &&& forall|p: int| lens.len() <= p < out.len() ==> #[trigger] out[p] > at[i]
            &&& forall|p: int, q: int| lens.len() <= p < q < out.len() ==> out[p] < out[q]
        }),
    decreases masks.len() - i,
{
    let out = window::ends_from(masks, max_len, i, at[i], lens);
    if i < masks.len() {
        assert(masked(img, b, rva, at[i], masks[i]));
        assert(starts_at(img.arch, b, img.base + rva, at[i]));
        walk_rises(img, b, img.base + rva, at, i, i + 1);
        let end = at[i + 1];
        if end > max_len {
            assert forall|v: usize| #[trigger] out.contains(v) <==> (lens.contains(v) || (v <= max_len
                && ends_after(at, i, v as int))) by {
                if v <= max_len && ends_after(at, i, v as int) {
                    let j = choose|j: int| i < j < at.len() && #[trigger] at[j] == v;
                    walk_rises(img, b, img.base + rva, at, i + 1, j);
                }
            }
        } else {
            let more = if lens.contains(end as usize) {
                lens
            } else {
                lens.push(end as usize)
            };
            ends_are_listed(img, b, rva, masks, at, max_len, i + 1, more);
            assert forall|v: usize| #[trigger] out.contains(v) <==> (lens.contains(v) || (v <= max_len
                && ends_after(at, i, v as int))) by {
                assert(out.contains(v) <==> (more.contains(v) || (v <= max_len && ends_after(
                    at,
                    i + 1,
                    v as int,
                ))));
                if ends_after(at, i, v as int) {
                    let j = choose|j: int| i < j < at.len() && #[trigger] at[j] == v;
                    if j > i + 1 {
                        assert(ends_after(at, i + 1, v as int));
                    }
                }
                if ends_after(at, i + 1, v as int) {
                    let j = choose|j: int| i + 1 < j < at.len() && #[trigger] at[j] == v;
                    assert(ends_after(at, i, v as int));
                }
                if v == end {
                    assert(at[i + 1] == v);
                    assert(ends_after(at, i, v as int));
                    if !lens.contains(v) {
                        assert(more[lens.len() as int] == v);
                    }
                }
                if lens.contains(v) {
                    let k = choose|k: int| 0 <= k < lens.len() && lens[k] == v;
                    assert(more[k] == v);
                }
                if more.contains(v) && !lens.contains(v) {
                    let k = choose|k: int| 0 <= k < more.len() && more[k] == v;
                    if k < lens.len() {
                        assert(lens[k] == v);
                    }
                }
            }
            assert forall|k: int| 0 <= k < lens.len() implies #[trigger] out[k] == lens[k] by {
                assert(out[k] == more[k]);
            }
            if more.len() > lens.len() {
                assert(out[lens.len() as int] == more[lens.len() as int]);
            }
            assert forall|p: int| lens.len() <= p < out.len() implies #[trigger] out[p] > at[i] by {
                if p >= more.len() {
                    assert(out[p] > at[i + 1]);
                }
            }
            assert forall|p: int, q: int| lens.len() <= p < q < out.len() implies out[p] < out[q] by {
                if p < more.len() {
                    assert(out[q] > at[i + 1]);
                }
            }
        }
    } else {
        assert forall|v: usize| !ends_after(at, i, v as int) by {}
    }
}

/// The lengths that are tried are the ends of the instructions that are within the limit, in ascending
/// order and each once; where there is a seed its length, as far as the window goes, comes first.
pub proof fn lengths_are_instruction_ends(
    img: &ImageInput,
    b: Seq<u8>,
    rva: int,
    max_len: usize,
    seed: Option<int>,
) -> (at: Seq<int>)
    requires
        seed matches Some(n) ==> 0 <= n <= usize::MAX,
        b.len() <= usize::MAX,
    ensures
        ({
            let masks = window::masks_of(img, b, rva, max_len);
            let lens = window::lengths(masks, max_len, seed, b.len() as int);
            let first = if seed is Some {
                1int
            } else {
                0int
            };
            let own = if seed->0 < b.len() {
                seed->0
            } else {
                b.len() as int
            };
            &&& walk(img.arch, b, img.base + rva, at)
            &&& at.len() == masks.len() + 1
            &&& lens.no_duplicates()
            &&& seed is Some ==> lens.len() > 0 && lens[0] == own
            &&& forall|v: usize| #[trigger]
                lens.contains(v) <==> ((seed is Some && v == own) || (v <= max_len && ends_after(
                    at,
                    0,
                    v as int,
                )))
            &&& forall|p: int, q: int| first <= p < q < lens.len() ==> lens[p] < lens[q]
        }),
{
    let at = windows_fix_no_constant(img, b, rva, max_len);
    let masks = window::masks_of(img, b, rva, max_len);
    let first: Seq<usize> = match seed {
        Some(n) => seq![
            if n < b.len() {
                n as usize
            } else {
                b.len() as usize
            },
        ],
        None => Seq::empty(),
    };
    ends_are_listed(img, b, rva, masks, at, max_len as int, 0, first);
    let lens = window::lengths(masks, max_len, seed, b.len() as int);
    if seed is Some {
        assert(lens[0] == first[0]);
        assert forall|v: usize| first.contains(v) <==> v == first[0] by {
            if v == first[0] {
                assert(first[0] == v);
            }
        }
    }
    at
}

/// The attempt at this length gave nothing, or what it gave was rejected.
pub open spec fn fails(c: Option<SigCandidateV>) -> bool {
    c matches Some(c) ==> c.grade == Grade::F
}

/// The candidate of `len` bytes at the site of an attempt.
#[verifier::opaque]
pub open spec fn outcome(
    images: Seq<&ImageInput>,
    required: Seq<usize>,
    a: Attempt,
    seed: Option<Seq<bool>>,
    len: int,
) -> Option<SigCandidateV> {
    let img = images[a.ref_idx as int];
    let b = bytepath::window_at(img, a.site_rva as int, a.opts);
    candidates::attempted(
        images,
        required,
        a,
        seed,
        b,
        window::masks_of(img, b, a.site_rva as int, a.opts.max_len),
        len,
    )
}

/// The lengths that are tried at the site of an attempt.
#[verifier::opaque]
pub open spec fn lengths_at(
    images: Seq<&ImageInput>,
    a: Attempt,
    seed: Option<Seq<bool>>,
) -> Seq<usize> {
    let img = images[a.ref_idx as int];
    let b = bytepath::window_at(img, a.site_rva as int, a.opts);
    window::lengths(
        window::masks_of(img, b, a.site_rva as int, a.opts.max_len),
        a.opts.max_len,
        match seed {
            Some(m) => Some(m.len() as int),
            None => None,
        },
        b.len() as int,
    )
}

#[verifier::opaque]
spec fn growth(
    images: Seq<&ImageInput>,
    required: Seq<usize>,
    a: Attempt,
    seed: Option<Seq<bool>>,
    i: int,
    rejected: Seq<SigCandidateV>,
) -> (Option<SigCandidateV>, Seq<SigCandidateV>) {
    let img = images[a.ref_idx as int];
    let b = bytepath::window_at(img, a.site_rva as int, a.opts);
    candidates::grown(
        images,
        required,
        a,
        seed,
        b,
        window::masks_of(img, b, a.site_rva as int, a.opts.max_len),
        lengths_at(images, a, seed),
        i,
        rejected,
    )
}

proof fn growth_goes_on(
    images: Seq<&ImageInput>,
    required: Seq<usize>,
    a: Attempt,
    seed: Option<Seq<bool>>,
    i: int,
    rejected: Seq<SigCandidateV>,
)
    requires
        0 <= i,
    ensures
        ({
            let lens = lengths_at(images, a, seed);
            growth(images, required, a, seed, i, rejected) == if i >= lens.len() {
                (None, rejected)
            } else {
                match outcome(images, required, a, seed, lens[i] as int) {
                    None => growth(images, required, a, seed, i + 1, rejected),
                    Some(c) => if c.grade == Grade::F {
                        growth(images, required, a, seed, i + 1, rejected.push(c))
                    } else {
                        (Some(c), rejected)
                    },
                }
            }
        }),
{
    reveal(outcome);
    reveal(growth);
}

/// Length number `k` gave this candidate, and every one before it failed.
pub open spec fn first_success(
    images: Seq<&ImageInput>,
    required: Seq<usize>,
    a: Attempt,
    seed: Option<Seq<bool>>,
    from: int,
    k: int,
    c: SigCandidateV,
) -> bool {
    let lens = lengths_at(images, a, seed);
    &&& from <= k < lens.len()
    &&& outcome(images, required, a, seed, lens[k] as int) == Some(c)
    &&& c.grade != Grade::F
    &&& forall|j: int|
        from <= j < k ==> fails(
            outcome(images, required, a, seed, #[trigger] lens[j] as int),
        )
}

proof fn growth_stops_at_the_first(
    images: Seq<&ImageInput>,
    required: Seq<usize>,
    a: Attempt,
    seed: Option<Seq<bool>>,
    i: int,
    rejected: Seq<SigCandidateV>,
)
    requires
        0 <= i <= lengths_at(images, a, seed).len(),
        forall|k: int| 0 <= k < rejected.len() ==> (#[trigger] rejected[k]).grade == Grade::F,
    ensures
        ({
            let (best, out) = growth(images, required, a, seed, i, rejected);
            let lens = lengths_at(images, a, seed);
            &&& match best {
                Some(c) => exists|k: int| #[trigger]
                    first_success(images, required, a, seed, i, k, c),
                None => forall|j: int|
                    i <= j < lens.len() ==> fails(
                        outcome(images, required, a, seed, #[trigger] lens[j] as int),
                    ),
            }
            &&& forall|k: int| 0 <= k < out.len() ==> (#[trigger] out[k]).grade == Grade::F
        }),
    decreases lengths_at(images, a, seed).len() - i,
{
    growth_goes_on(images, required, a, seed, i, rejected);
    let lens = lengths_at(images, a, seed);
    if i < lens.len() {
        let now = outcome(images, required, a, seed, lens[i] as int);
        if fails(now) {
            let more = match now {
                Some(c) => rejected.push(c),
                None => rejected,
            };
            growth_stops_at_the_first(images, required, a, seed, i + 1, more);
            let best = growth(images, required, a, seed, i, rejected).0;
            if let Some(c) = best {
                let k = choose|k: int| #[trigger]
                    first_success(images, required, a, seed, i + 1, k, c);
                assert(first_success(images, required, a, seed, i, k, c));
            }
        } else {
            assert(first_success(images, required, a, seed, i, i, now->0));
        }
    }
}

/// The signature at a site is the first of the lengths that is not rejected, and there is none only where
/// every length fails; what is set aside was rejected.
pub proof fn site_signatures_are_shortest(
    images: Seq<&ImageInput>,
    required: Seq<usize>,
    a: Attempt,
    seed: Option<Seq<bool>>,
)
    ensures
        ({
            let (best, rejected) = candidates::candidates_at(images, required, a, seed);
            let lens = lengths_at(images, a, seed);
            &&& match best {
                Some(c) => exists|k: int| #[trigger]
                    first_success(images, required, a, seed, 0, k, c),
                None => forall|j: int|
                    0 <= j < lens.len() ==> fails(
                        outcome(images, required, a, seed, #[trigger] lens[j] as int),
                    ),
            }
            &&& forall|k: int|
                0 <= k < rejected.len() ==> (#[trigger] rejected[k]).grade == Grade::F
        }),
{
    growth_stops_at_the_first(images, required, a, seed, 0, Seq::empty());
    assert(candidates::candidates_at(images, required, a, seed) == growth(
        images,
        required,
        a,
        seed,
        0,
        Seq::empty(),
    )) by {
        reveal(growth);
        reveal(lengths_at);
    }
}

proof fn fixed_is_the_rest(
    img: &ImageInput,
    b: Seq<u8>,
    rva: int,
    masks: Seq<InstrMaskV>,
    at: Seq<int>,
    len: int,
    k: int,
)
    requires
        walk(img.arch, b, img.base + rva, at),
        window::all_fixed(masks).len() == at.last(),
        forall|i: int, k: int|
            0 <= i < at.len() - 1 && 0 <= k < at[i + 1] - at[i] ==> #[trigger] shown(
                img,
                b,
                rva,
                window::all_fixed(masks),
                window::all_operand(masks),
                at[i],
                k,
            ),
        0 <= k < len,
    ensures
        window::fixed_in(masks, len)[k] <==> !reserved(img, b, rva, at, k),
{
    let all = window::all_fixed(masks);
    let operand = window::all_operand(masks);
    let ip = img.base + rva;
    if reserved(img, b, rva, at, k) {
        let i = choose|i: int|
            #![trigger at[i]]
            0 <= i < at.len() - 1 && at[i] <= k && k < at[i + 1] && (in_constant(
                img.arch,
                b,
                img.base + rva,
                at[i],
                k - at[i],
            ) || img.patch_at((rva + k) as usize) is Some);
        walk_rises(img, b, ip, at, i + 1, at.len() - 1);
        assert(shown(img, b, rva, all, operand, at[i], k - at[i]));
    } else if k < all.len() {
        let i = walk_covers(img, b, ip, at, at.len() - 1, k);
        assert(shown(img, b, rva, all, operand, at[i], k - at[i]));
    }
}

/// A signature of `len` bytes will do in its own build: it has enough fixed bytes, a large enough share of
/// them, one outside the operands, and one place in the code.
pub open spec fn will_do(
    img: &ImageInput,
    b: Seq<u8>,
    rva: int,
    at: Seq<int>,
    opts: SigOptions,
    len: int,
) -> bool {
    let tokens = opening(img, b, rva, at, None, len);
    let n = fixed_places(tokens).len();
    &&& 0 < len <= b.len()
    &&& n >= opts.min_fixed
    &&& n * opts.min_fixed_ratio.den >= opts.min_fixed_ratio.num * len
    &&& exists|k: int|
        0 <= k < len && (#[trigger] tokens[k]) is Some && !varies(img, b, rva, at, k)
    &&& exists|x: (int, int)| #[trigger] only_place(img, tokens, x)
}

proof fn worth_is_doing(
    img: &ImageInput,
    b: Seq<u8>,
    rva: int,
    masks: Seq<InstrMaskV>,
    at: Seq<int>,
    opts: SigOptions,
    len: int,
)
    requires
        walk(img.arch, b, img.base + rva, at),
        window::all_fixed(masks).len() == at.last(),
        window::all_operand(masks).len() == at.last(),
        forall|i: int, k: int|
            0 <= i < at.len() - 1 && 0 <= k < at[i + 1] - at[i] ==> #[trigger] shown(
                img,
                b,
                rva,
                window::all_fixed(masks),
                window::all_operand(masks),
                at[i],
                k,
            ),
        0 < len <= b.len(),
        len <= usize::MAX,
    ensures
        ({
            let fixed = window::fixed_in(masks, len);
            let tokens = opening(img, b, rva, at, None, len);
            &&& pattern::tokens_of(b.take(len), fixed) == tokens
            &&& (bytepath::worthwhile(fixed, window::operand_in(masks, len), opts) && cache::located(
                img,
                b.take(len),
                fixed,
            ).0 == 1) <==> will_do(img, b, rva, at, opts, len)
        }),
{
    let fixed = window::fixed_in(masks, len);
    let operand = window::operand_in(masks, len);
    let bytes = b.take(len);
    let tokens = opening(img, b, rva, at, None, len);
    assert forall|k: int| 0 <= k < len implies (#[trigger] fixed[k] <==> tokens[k] is Some) by {
        fixed_is_the_rest(img, b, rva, masks, at, len, k);
    }
    assert forall|k: int| 0 <= k < len implies (#[trigger] operand[k] <==> varies(img, b, rva, at, k)) by {
        operand_varies(img, b, rva, masks, at, len, k);
    }
    assert(pattern::tokens_of(bytes, fixed) =~= tokens);
    trues_are_counted(fixed);
    assert(fixed_places(tokens) =~= set_at(fixed));
    let clear = window::but_not(fixed, operand);
    trues_are_counted(clear);
    let has = exists|k: int|
        0 <= k < len && (#[trigger] tokens[k]) is Some && !varies(img, b, rva, at, k);
    assert(set_at(clear).len() > 0 <==> has) by {
        if has {
            let k = choose|k: int|
                0 <= k < len && (#[trigger] tokens[k]) is Some && !varies(img, b, rva, at, k);
            assert(fixed[k] && !operand[k]);
            assert(set_at(clear).contains(k));
        }
        if set_at(clear).len() > 0 {
            let k = set_at(clear).choose();
            assert(set_at(clear).contains(k));
            assert(fixed[k] <==> tokens[k] is Some);
            assert(operand[k] <==> varies(img, b, rva, at, k));
            assert(tokens[k] is Some);
        }
    }
    assert(pattern::mask_of(tokens) =~= fixed);
    promises::wildcards_match_anything(img, pattern::bytes_of(tokens), bytes, fixed);
    located_once_is_one_place(img, tokens);
}

proof fn first_unique_is_first(
    img: &ImageInput,
    b: Seq<u8>,
    rva: int,
    masks: Seq<InstrMaskV>,
    at: Seq<int>,
    opts: SigOptions,
    lens: Seq<usize>,
    i: int,
)
    requires
        walk(img.arch, b, img.base + rva, at),
        window::all_fixed(masks).len() == at.last(),
        window::all_operand(masks).len() == at.last(),
        forall|i: int, k: int|
            0 <= i < at.len() - 1 && 0 <= k < at[i + 1] - at[i] ==> #[trigger] shown(
                img,
                b,
                rva,
                window::all_fixed(masks),
                window::all_operand(masks),
                at[i],
                k,
            ),
        0 <= i <= lens.len(),
    ensures
        bytepath::first_unique(img, b, masks, lens, opts, i) matches Some(aob) ==> exists|k: int|
            #[trigger]
            first_that_does(img, b, rva, at, opts, lens, i, k) && pattern::parsed(aob) == Some(
                opening(img, b, rva, at, None, lens[k] as int),
            ),
        bytepath::first_unique(img, b, masks, lens, opts, i) is None ==> forall|j: int|
            i <= j < lens.len() ==> !will_do(img, b, rva, at, opts, #[trigger] lens[j] as int),
    decreases lens.len() - i,
{
    if i < lens.len() {
        let len = lens[i] as int;
        if 0 < len <= b.len() {
            worth_is_doing(img, b, rva, masks, at, opts, len);
        }
        if will_do(img, b, rva, at, opts, len) {
            let fixed = window::fixed_in(masks, len);
            pattern::aob_round_trip(b.take(len), fixed);
            assert(first_that_does(img, b, rva, at, opts, lens, i, i));
        } else {
            first_unique_is_first(img, b, rva, masks, at, opts, lens, i + 1);
            if let Some(aob) = bytepath::first_unique(img, b, masks, lens, opts, i + 1) {
                let k = choose|k: int| #[trigger]
                    first_that_does(img, b, rva, at, opts, lens, i + 1, k) && pattern::parsed(aob)
                        == Some(opening(img, b, rva, at, None, lens[k] as int));
                assert(first_that_does(img, b, rva, at, opts, lens, i, k));
            }
        }
    }
}

/// Length number `k` is the first from number `i` on that will do.
pub open spec fn first_that_does(
    img: &ImageInput,
    b: Seq<u8>,
    rva: int,
    at: Seq<int>,
    opts: SigOptions,
    lens: Seq<usize>,
    i: int,
    k: int,
) -> bool {
    &&& i <= k < lens.len()
    &&& will_do(img, b, rva, at, opts, lens[k] as int)
    &&& forall|j: int| i <= j < k ==> !will_do(img, b, rva, at, opts, #[trigger] lens[j] as int)
}

/// The signature of an address in its own build is of the first length that will do, and holds every byte
/// of that length that need not vary; there is none only where no length will do.
pub proof fn own_signatures_are_shortest(img: &ImageInput, rva: int, opts: SigOptions) -> (at: Seq<int>)
    ensures
        ({
            let b = bytepath::window_at(img, rva, opts);
            let lens = window::lengths(
                window::masks_of(img, b, rva, opts.max_len),
                opts.max_len,
                None,
                b.len() as int,
            );
            &&& walk(img.arch, b, img.base + rva, at)
            &&& bytepath::build_aob(img, rva, opts) matches Some(aob) ==> exists|k: int| #[trigger]
                first_that_does(img, b, rva, at, opts, lens, 0, k) && pattern::parsed(aob) == Some(
                    opening(img, b, rva, at, None, lens[k] as int),
                )
            &&& bytepath::build_aob(img, rva, opts) is None ==> forall|j: int|
                0 <= j < lens.len() ==> !will_do(img, b, rva, at, opts, #[trigger] lens[j] as int)
        }),
{
    let b = bytepath::window_at(img, rva, opts);
    let masks = window::masks_of(img, b, rva, opts.max_len);
    let lens = window::lengths(masks, opts.max_len, None, b.len() as int);
    let at = windows_fix_no_constant(img, b, rva, opts.max_len);
    first_unique_is_first(img, b, rva, masks, at, opts, lens, 0);
    at
}

}
