//! The candidates of the byte path at one site, and the sites that lead to a target.

use crate::le::tail_of;
use crate::resolver;
use crate::resolver::decode_rel_target;
use crate::sigmaker::bytepath;
use crate::sigmaker::bytepath::{finalize, Anchor, Found};
use crate::sigmaker::cache;
use crate::sigmaker::cache::CodeCache;
use crate::sigmaker::chain;
use crate::sigmaker::decode;
use crate::sigmaker::decode::{bitness, mem_target};
use crate::sigmaker::types::{Grade, ImageInput, SigCandidate, SigCandidateV, SigOptions, Suffix};
use crate::sigmaker::window;
use crate::sigmaker::window::{decode_masked, find_unsupported, lay_out, list_lengths, InstrMask};
use crate::sigmaker::window::InstrMaskV;
use crate::pattern::Arch;
use crate::x86;
use crate::x86::Flow;
use vstd::prelude::*;

verus! {

/// How many sites of one kind are tried.
pub const SITE_CAP: usize = 24;

/// The bytes that the seed leaves fixed.
pub open spec fn seeded(fixed: Seq<bool>, seed: Option<Seq<bool>>) -> Seq<bool> {
    match seed {
        None => fixed,
        Some(m) => Seq::new(fixed.len(), |k: int| fixed[k] && !(k < m.len() && !m[k])),
    }
}

/// Where a pattern is in the first `n` required builds, or `None` where one of them does not hold it
/// exactly once.
pub open spec fn sites_of(
    images: Seq<&ImageInput>,
    required: Seq<usize>,
    bytes: Seq<u8>,
    fixed: Seq<bool>,
    n: int,
) -> Option<Seq<u64>>
    decreases n,
{
    if n <= 0 {
        Some(Seq::empty())
    } else {
        match sites_of(images, required, bytes, fixed, n - 1) {
            None => None,
            Some(sites) => match cache::located(images[required[n - 1] as int], bytes, fixed) {
                (1, Some(rva)) => Some(sites.push(rva)),
                _ => None,
            },
        }
    }
}

/// What a candidate is made for and how.
#[derive(Clone, Copy)]
pub struct Attempt {
    pub ref_idx: usize,
    pub site_rva: u64,
    pub suffix: Suffix,
    pub anchor: Anchor,
    pub packed: bool,
    pub opts: SigOptions,
}

/// The candidate of `len` bytes at the site, if the window of that length is found exactly once in
/// every required build.
pub open spec fn attempted(
    images: Seq<&ImageInput>,
    required: Seq<usize>,
    a: Attempt,
    seed: Option<Seq<bool>>,
    b: Seq<u8>,
    masks: Seq<InstrMaskV>,
    len: int,
) -> Option<SigCandidateV> {
    let fixed = seeded(window::fixed_in(masks, len), seed);
    match sites_of(images, required, b.take(len), fixed, required.len() as int) {
        None => None,
        Some(sites) => if !(0 < len <= b.len()) {
            None
        } else {
            bytepath::finalized_from(
                images,
                required,
                a.ref_idx as int,
                b.take(len),
                fixed,
                window::operand_in(masks, len),
                window::unsupported_in(masks, a.site_rva as int, len, 0),
                sites,
                a.suffix,
                a.anchor,
                a.packed,
                a.opts,
            )
        },
    }
}

/// The candidate of the first length from `i` on that is not graded F, and the rejected ones before it.
pub open spec fn grown(
    images: Seq<&ImageInput>,
    required: Seq<usize>,
    a: Attempt,
    seed: Option<Seq<bool>>,
    b: Seq<u8>,
    masks: Seq<InstrMaskV>,
    lens: Seq<usize>,
    i: int,
    rejected: Seq<SigCandidateV>,
) -> (Option<SigCandidateV>, Seq<SigCandidateV>)
    decreases lens.len() - i,
{
    if !(0 <= i < lens.len()) {
        (None, rejected)
    } else {
        match attempted(images, required, a, seed, b, masks, lens[i] as int) {
            None => grown(images, required, a, seed, b, masks, lens, i + 1, rejected),
            Some(c) => if c.grade == Grade::F {
                grown(images, required, a, seed, b, masks, lens, i + 1, rejected.push(c))
            } else {
                (Some(c), rejected)
            },
        }
    }
}

/// The candidate at a site and the rejected ones.
pub open spec fn candidates_at(
    images: Seq<&ImageInput>,
    required: Seq<usize>,
    a: Attempt,
    seed: Option<Seq<bool>>,
) -> (Option<SigCandidateV>, Seq<SigCandidateV>) {
    let img = images[a.ref_idx as int];
    let b = bytepath::window_at(img, a.site_rva as int, a.opts);
    let masks = window::masks_of(img, b, a.site_rva as int, a.opts.max_len);
    grown(
        images,
        required,
        a,
        seed,
        b,
        masks,
        window::lengths(
            masks,
            a.opts.max_len,
            match seed {
                Some(m) => Some(m.len() as int),
                None => None,
            },
            b.len() as int,
        ),
        0,
        Seq::empty(),
    )
}

/// The content of a seed.
pub open spec fn seed_view(seed: Option<&Vec<bool>>) -> Option<Seq<bool>> {
    match seed {
        Some(m) => Some(m@),
        None => None,
    }
}

fn apply_seed(fixed: Vec<bool>, seed: Option<&Vec<bool>>) -> (r: Vec<bool>)
    ensures
        r@ == seeded(fixed@, seed_view(seed)),
        r@.len() == fixed@.len(),
{
    let mut r: Vec<bool> = fixed;
    let ghost before = r@;
    let m = match seed {
        None => {
            return r;
        },
        Some(m) => m,
    };
    let ghost after = seeded(before, Some(m@));
    let mut k: usize = 0;
    while k < r.len()
        invariant
            after == seeded(before, Some(m@)),
            r@.len() == before.len(),
            k <= r@.len(),
            r@ == after.take(k as int) + before.skip(k as int),
        decreases r@.len() - k,
    {
        if k < m.len() && !m[k] {
            r.set(k, false);
        }
        k += 1;
        assert(r@ =~= after.take(k as int) + before.skip(k as int));
    }
    assert(r@ =~= after);
    r
}

fn find_sites(
    images: &[&ImageInput],
    caches: &Vec<CodeCache>,
    required: &[usize],
    bytes: &[u8],
    fixed: &Vec<bool>,
) -> (r: Option<Vec<u64>>)
    requires
        chain::usable(images@, required@),
        bytepath::caches_hold(images@, required@, caches@),
        bytes@.len() > 0,
        bytes@.len() == fixed@.len(),
    ensures
        match r {
            Some(v) => sites_of(images@, required@, bytes@, fixed@, required@.len() as int) == Some(
                v@,
            ) && v@.len() == required@.len(),
            None => sites_of(images@, required@, bytes@, fixed@, required@.len() as int) is None,
        },
{
    let mut sites: Vec<u64> = Vec::new();
    let mut n: usize = 0;
    while n < required.len()
        invariant
            chain::usable(images@, required@),
            bytepath::caches_hold(images@, required@, caches@),
            bytes@.len() > 0,
            bytes@.len() == fixed@.len(),
            n <= required@.len(),
            sites@.len() == n,
            sites_of(images@, required@, bytes@, fixed@, n as int) == Some(sites@),
        decreases required@.len() - n,
    {
        assert(required@[n as int] < images@.len());
        assert(caches@[n as int].wf());
        let (count, rva) = caches[n].locate_masked(bytes, fixed);
        assert((count, rva) == cache::located(images@[required@[n as int] as int], bytes@, fixed@));
        match rva {
            Some(r) if count == 1 => {
                sites.push(r);
            },
            _ => {
                proof {
                    sites_stay_lost(images@, required@, bytes@, fixed@, n + 1, required@.len() as int);
                }
                return None;
            },
        }
        n += 1;
    }
    Some(sites)
}

proof fn sites_stay_lost(
    images: Seq<&ImageInput>,
    required: Seq<usize>,
    bytes: Seq<u8>,
    fixed: Seq<bool>,
    a: int,
    b: int,
)
    requires
        a <= b,
        sites_of(images, required, bytes, fixed, a) is None,
    ensures
        sites_of(images, required, bytes, fixed, b) is None,
    decreases b - a,
{
    if a < b {
        sites_stay_lost(images, required, bytes, fixed, a, b - 1);
        assert(b > 0);
    }
}

/// Add a candidate.
pub fn push_candidate(v: &mut Vec<SigCandidate>, c: SigCandidate)
    ensures
        final(v).deep_view() == old(v).deep_view().push(c.deep_view()),
{
    let ghost before = v.deep_view();
    v.push(c);
    assert(v.deep_view() =~= before.push(c.deep_view()));
}

fn attempt_length(
    images: &[&ImageInput],
    caches: &Vec<CodeCache>,
    required: &[usize],
    a: Attempt,
    seed: Option<&Vec<bool>>,
    b: &Vec<u8>,
    masks: &Vec<InstrMask>,
    len: usize,
) -> (r: Option<SigCandidate>)
    requires
        chain::usable(images@, required@),
        bytepath::caches_hold(images@, required@, caches@),
        window::masks_fit(masks.deep_view(), b@.len() as int),
        a.site_rva <= usize::MAX,
        0 < len <= b@.len(),
    ensures
        r.deep_view() == attempted(
            images@,
            required@,
            a,
            seed_view(seed),
            b@,
            masks.deep_view(),
            len as int,
        ),
{
    let (fixed, operand) = lay_out(masks, len);
    let fixed = apply_seed(fixed, seed);
    let bytes = vstd::slice::slice_subrange(b.as_slice(), 0, len);
    assert(bytes@ =~= b@.take(len as int));
    match find_sites(images, caches, required, bytes, &fixed) {
        None => None,
        Some(sites) => {
            let unsupported = find_unsupported(masks, a.site_rva as usize, len);
            let f = Found { bytes, fixed: &fixed, operand: &operand, unsupported, sites: &sites };
            finalize(
                images,
                caches,
                required,
                a.ref_idx,
                &f,
                a.suffix,
                a.anchor,
                a.packed,
                &a.opts,
            )
        },
    }
}

/// The shortest window at a site that matches once in every required build and passes the gates, with
/// those that failed them. The window starts with the seed's length, where there is a seed, and then
/// grows instruction by instruction.
pub fn candidate_at(
    images: &[&ImageInput],
    caches: &Vec<CodeCache>,
    required: &[usize],
    a: Attempt,
    seed: Option<&Vec<bool>>,
) -> (r: (Option<SigCandidate>, Vec<SigCandidate>))
    requires
        chain::usable(images@, required@),
        bytepath::caches_hold(images@, required@, caches@),
        a.ref_idx < images@.len(),
    ensures
        ({
            let c = candidates_at(images@, required@, a, seed_view(seed));
            r.0.deep_view() == c.0 && r.1.deep_view() == c.1
        }),
{
    let img = images[a.ref_idx];
    let ghost sv = seed_view(seed);
    let b = bytepath::read_code(img, a.site_rva, &a.opts);
    let mut rejected: Vec<SigCandidate> = Vec::new();
    assert(rejected.deep_view() =~= Seq::<SigCandidateV>::empty());
    if b.len() == 0 {
        proof {
            let masks = window::masks_of(img, b@, a.site_rva as int, a.opts.max_len);
            assert(masks =~= Seq::<InstrMaskV>::empty());
            nothing_grows(images@, required@, a, sv, b@, masks);
        }
        return (None, rejected);
    }
    let masks = decode_masked(img, b.as_slice(), a.site_rva as usize, a.opts.max_len);
    let ghost mv = masks.deep_view();
    let seed_len: Option<usize> = match seed {
        Some(m) => Some(m.len()),
        None => None,
    };
    let lens = list_lengths(&masks, a.opts.max_len, seed_len, b.len());
    let ghost whole = candidates_at(images@, required@, a, sv);
    let mut i: usize = 0;
    while i < lens.len()
        invariant
            chain::usable(images@, required@),
            bytepath::caches_hold(images@, required@, caches@),
            window::masks_fit(mv, b@.len() as int),
            mv == masks.deep_view(),
            sv == seed_view(seed),
            a.site_rva <= usize::MAX,
            i <= lens@.len(),
            whole == candidates_at(images@, required@, a, sv),
            whole == grown(
                images@,
                required@,
                a,
                sv,
                b@,
                mv,
                lens@,
                i as int,
                rejected.deep_view(),
            ),
        decreases lens@.len() - i,
    {
        let len: usize = lens[i];
        if len > 0 && len <= b.len() {
            if let Some(c) = attempt_length(images, caches, required, a, seed, &b, &masks, len) {
                if c.grade == Grade::F {
                    push_candidate(&mut rejected, c);
                } else {
                    return (Some(c), rejected);
                }
            }
        }
        i += 1;
    }
    (None, rejected)
}

proof fn nothing_grows(
    images: Seq<&ImageInput>,
    required: Seq<usize>,
    a: Attempt,
    seed: Option<Seq<bool>>,
    b: Seq<u8>,
    masks: Seq<InstrMaskV>,
)
    requires
        b.len() == 0,
        masks.len() == 0,
    ensures
        ({
            let lens = window::lengths(
                masks,
                a.opts.max_len,
                match seed {
                    Some(m) => Some(m.len() as int),
                    None => None,
                },
                0,
            );
            grown(images, required, a, seed, b, masks, lens, 0, Seq::empty()) == (
                None::<SigCandidateV>,
                Seq::<SigCandidateV>::empty(),
            )
        }),
{
    let lens = window::lengths(
        masks,
        a.opts.max_len,
        match seed {
            Some(m) => Some(m.len() as int),
            None => None,
        },
        0,
    );
    if lens.len() > 0 {
        assert(lens.len() == 1);
        assert(attempted(images, required, a, seed, b, masks, lens[0] as int) is None);
        assert(grown(images, required, a, seed, b, masks, lens, 1, Seq::empty()) == (
            None::<SigCandidateV>,
            Seq::<SigCandidateV>::empty(),
        ));
    }
}

/// The first of some sites, as many as are tried.
pub open spec fn first_sites<T>(all: Seq<T>) -> Seq<T> {
    if all.len() > SITE_CAP {
        all.take(SITE_CAP as int)
    } else {
        all
    }
}

/// A five-byte `call`, or `jmp`, to the target at the front of `b`, which sits at `at`.
pub open spec fn branches_to(
    bits: u32,
    b: Seq<u8>,
    at: int,
    target: usize,
    want_call: bool,
) -> bool {
    let h = x86::head_of(bits, b, at as u64);
    let f = x86::flow_of(bits, b, at as u64);
    &&& !h.invalid
    &&& h.len == 5
    &&& f == (if want_call {
        Flow::Call
    } else {
        Flow::UnconditionalBranch
    })
    &&& h.target == target
    &&& resolver::rel_target(b, at) == Some(target as int)
}

/// The branches to the target that a sweep of a region meets from `pos` on, as RVAs.
pub open spec fn branches_from(
    arch: Arch,
    image_base: int,
    region: (usize, Seq<u8>),
    target: usize,
    want_call: bool,
    pos: int,
) -> Seq<u64>
    decreases region.1.len() - pos,
{
    if !(0 <= pos < region.1.len()) {
        Seq::empty()
    } else {
        let bits = decode::mode(arch);
        let rest = region.1.skip(pos);
        let at = region.0 + pos;
        let h = x86::head_of(bits, rest, at as u64);
        let more = branches_from(
            arch,
            image_base,
            region,
            target,
            want_call,
            pos + decode::step(h, rest),
        );
        if branches_to(bits, rest, at, target, want_call) {
            seq![(at - image_base) as u64] + more
        } else {
            more
        }
    }
}

/// The branches to the target in the regions from `n` on.
pub open spec fn all_branches(
    arch: Arch,
    image_base: int,
    regions: cache::RegionsV,
    target: usize,
    want_call: bool,
    n: int,
) -> Seq<u64>
    decreases regions.len() - n,
{
    if !(0 <= n < regions.len()) {
        Seq::empty()
    } else {
        branches_from(arch, image_base, regions[n], target, want_call, 0) + all_branches(
            arch,
            image_base,
            regions,
            target,
            want_call,
            n + 1,
        )
    }
}

/// The `call`s, or `jmp`s, to `target_abs` in the code, the first [`SITE_CAP`] of them. The code is
/// disassembled linearly, so that an `E8` or `E9` inside another instruction's operand is never mistaken
/// for a branch; only a five-byte branch whose displacement resolves to the target is accepted.
pub fn branch_sites(code: &CodeCache, target_abs: usize, arch: Arch, want_call: bool) -> (sites: Vec<
    u64,
>)
    requires
        code.wf(),
    ensures
        sites@ == first_sites(
            all_branches(
                arch,
                code.image_base as int,
                code.regions.deep_view(),
                target_abs,
                want_call,
                0,
            ),
        ),
{
    let bits: u32 = bitness(arch);
    let ghost rv = code.regions.deep_view();
    let ghost all = all_branches(
        arch,
        code.image_base as int,
        rv,
        target_abs,
        want_call,
        0,
    );
    let mut sites: Vec<u64> = Vec::new();
    let mut n: usize = 0;
    assert(sites@ + all =~= all);
    while n < code.regions.len()
        invariant
            code.wf(),
            bits == decode::mode(arch),
            x86::is_mode(bits),
            rv == code.regions.deep_view(),
            n <= code.regions@.len(),
            sites@.len() < SITE_CAP,
            all == all_branches(arch, code.image_base as int, rv, target_abs, want_call, 0),
            all == sites@ + all_branches(
                arch,
                code.image_base as int,
                rv,
                target_abs,
                want_call,
                n as int,
            ),
        decreases code.regions@.len() - n,
    {
        let base: usize = code.regions[n].0;
        let bytes = &code.regions[n].1;
        proof {
            assert(rv[n as int] == (code.regions@[n as int].0, bytes.deep_view()));
            assert(bytes.deep_view() =~= bytes@);
        }
        let ghost later = all_branches(
            arch,
            code.image_base as int,
            rv,
            target_abs,
            want_call,
            n + 1,
        );
        let mut pos: usize = 0;
        assert(sites@ + (branches_from(
            arch,
            code.image_base as int,
            rv[n as int],
            target_abs,
            want_call,
            0,
        ) + later) =~= sites@ + branches_from(
            arch,
            code.image_base as int,
            rv[n as int],
            target_abs,
            want_call,
            0,
        ) + later);
        while pos < bytes.len()
            invariant
                code.wf(),
                bits == decode::mode(arch),
                x86::is_mode(bits),
                rv == code.regions.deep_view(),
                n < code.regions@.len(),
                rv[n as int] == (base, bytes@),
                base == code.regions@[n as int].0,
                bytes@ == code.regions@[n as int].1@,
                pos <= bytes@.len(),
                sites@.len() < SITE_CAP,
                all == all_branches(arch, code.image_base as int, rv, target_abs, want_call, 0),
                all == sites@ + branches_from(
                    arch,
                    code.image_base as int,
                    (base, bytes@),
                    target_abs,
                    want_call,
                    pos as int,
                ) + later,
            decreases bytes@.len() - pos,
        {
            let rest = tail_of(bytes.as_slice(), pos);
            let at: usize = base + pos;
            let h = x86::head(bits, rest, at as u64);
            let ghost more = branches_from(
                arch,
                code.image_base as int,
                (base, bytes@),
                target_abs,
                want_call,
                pos + decode::step(h, rest@),
            );
            if !h.invalid && h.len == 5 && h.target == target_abs as u64 {
                let f = x86::flow(bits, rest, at as u64);
                let kind: bool = if want_call {
                    f == Flow::Call
                } else {
                    f == Flow::UnconditionalBranch
                };
                let goes = decode_rel_target(rest, at);
                if kind && goes.is_some() && goes.unwrap() == target_abs {
                    let ghost before = sites@;
                    let rva: u64 = (at - code.image_base) as u64;
                    sites.push(rva);
                    assert(before + (seq![rva] + more) + later =~= sites@ + more + later);
                    if sites.len() >= SITE_CAP {
                        assert(first_sites(all) =~= sites@);
                        return sites;
                    }
                }
            }
            pos += h.len;
        }
        assert(sites@ + Seq::<u64>::empty() + later =~= sites@ + later);
        n += 1;
    }
    assert(sites@ =~= all);
    sites
}

/// The references to the target that a sweep of a region meets from `pos` on, as RVAs, each with
/// whether it is ip-relative.
pub open spec fn references_from(
    arch: Arch,
    image_base: int,
    region: (usize, Seq<u8>),
    target: usize,
    pos: int,
) -> Seq<(u64, bool)>
    decreases region.1.len() - pos,
{
    if !(0 <= pos < region.1.len()) {
        Seq::empty()
    } else {
        let bits = decode::mode(arch);
        let rest = region.1.skip(pos);
        let at = region.0 + pos;
        let h = x86::head_of(bits, rest, at as u64);
        let more = references_from(
            arch,
            image_base,
            region,
            target,
            pos + decode::step(h, rest),
        );
        if !h.invalid && decode::named_address(bits, rest, at as u64, arch) == Some(target) {
            seq![
                ((at - image_base) as u64, x86::memory_of(bits, rest, at as u64).ip_relative),
            ] + more
        } else {
            more
        }
    }
}

/// The references to the target in the regions from `n` on.
pub open spec fn all_references(
    arch: Arch,
    image_base: int,
    regions: cache::RegionsV,
    target: usize,
    n: int,
) -> Seq<(u64, bool)>
    decreases regions.len() - n,
{
    if !(0 <= n < regions.len()) {
        Seq::empty()
    } else {
        references_from(arch, image_base, regions[n], target, 0) + all_references(
            arch,
            image_base,
            regions,
            target,
            n + 1,
        )
    }
}

/// The memory references to `target_abs` in the code, the first [`SITE_CAP`] of them, each with whether
/// it is ip-relative.
pub fn ptr_sites(code: &CodeCache, target_abs: usize, arch: Arch) -> (sites: Vec<(u64, bool)>)
    requires
        code.wf(),
    ensures
        sites@ == first_sites(
            all_references(
                arch,
                code.image_base as int,
                code.regions.deep_view(),
                target_abs,
                0,
            ),
        ),
{
    let bits: u32 = bitness(arch);
    let ghost rv = code.regions.deep_view();
    let ghost all = all_references(arch, code.image_base as int, rv, target_abs, 0);
    let mut sites: Vec<(u64, bool)> = Vec::new();
    let mut n: usize = 0;
    assert(sites@ + all =~= all);
    while n < code.regions.len()
        invariant
            code.wf(),
            bits == decode::mode(arch),
            x86::is_mode(bits),
            rv == code.regions.deep_view(),
            n <= code.regions@.len(),
            sites@.len() < SITE_CAP,
            all == all_references(arch, code.image_base as int, rv, target_abs, 0),
            all == sites@ + all_references(
                arch,
                code.image_base as int,
                rv,
                target_abs,
                n as int,
            ),
        decreases code.regions@.len() - n,
    {
        let base: usize = code.regions[n].0;
        let bytes = &code.regions[n].1;
        proof {
            assert(rv[n as int] == (code.regions@[n as int].0, bytes.deep_view()));
            assert(bytes.deep_view() =~= bytes@);
        }
        let ghost later = all_references(arch, code.image_base as int, rv, target_abs, n + 1);
        let ghost here = references_from(
            arch,
            code.image_base as int,
            rv[n as int],
            target_abs,
            0,
        );
        let mut pos: usize = 0;
        assert(sites@ + (here + later) =~= sites@ + here + later);
        while pos < bytes.len()
            invariant
                code.wf(),
                bits == decode::mode(arch),
                x86::is_mode(bits),
                rv == code.regions.deep_view(),
                n < code.regions@.len(),
                rv[n as int] == (base, bytes@),
                base == code.regions@[n as int].0,
                bytes@ == code.regions@[n as int].1@,
                pos <= bytes@.len(),
                sites@.len() < SITE_CAP,
                all == all_references(arch, code.image_base as int, rv, target_abs, 0),
                all == sites@ + references_from(
                    arch,
                    code.image_base as int,
                    (base, bytes@),
                    target_abs,
                    pos as int,
                ) + later,
            decreases bytes@.len() - pos,
        {
            let rest = tail_of(bytes.as_slice(), pos);
            let at: usize = base + pos;
            let h = x86::head(bits, rest, at as u64);
            let ghost more = references_from(
                arch,
                code.image_base as int,
                (base, bytes@),
                target_abs,
                pos + decode::step(h, rest@),
            );
            if !h.invalid {
                let named = mem_target(bits, rest, at as u64, arch);
                if named.is_some() && named.unwrap() == target_abs {
                    let ghost before = sites@;
                    let x: (u64, bool) = (
                        (at - code.image_base) as u64,
                        x86::memory(bits, rest, at as u64).ip_relative,
                    );
                    sites.push(x);
                    assert(before + (seq![x] + more) + later =~= sites@ + more + later);
                    if sites.len() >= SITE_CAP {
                        assert(first_sites(all) =~= sites@);
                        return sites;
                    }
                }
            }
            pos += h.len;
        }
        assert(sites@ + Seq::<(u64, bool)>::empty() + later =~= sites@ + later);
        n += 1;
    }
    assert(sites@ =~= all);
    sites
}

}
