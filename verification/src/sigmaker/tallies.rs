//! What the evidence of a candidate counts, and which look-alikes are listed for which build.

use crate::pattern::Arch;
use crate::sigmaker::bytepath;
use crate::sigmaker::bytepath::{Anchor, SweepV};
use crate::sigmaker::cuts::{set_at, trues_are_counted};
use crate::sigmaker::identity;
use crate::sigmaker::identity::IdentityV;
use crate::sigmaker::moves::at_least_percent;
use crate::sigmaker::relocate;
use crate::sigmaker::strings;
use crate::sigmaker::types::{ImageInput, ShortlistV, SigOptions};
use crate::sigmaker::window;
use vstd::prelude::*;

verus! {

/// `idx` lists the fixed positions before `n`, in order.
pub open spec fn positions(fixed: Seq<bool>, n: int, idx: Seq<int>) -> bool {
    &&& forall|i: int, j: int| 0 <= i < j < idx.len() ==> #[trigger] idx[i] < #[trigger] idx[j]
    &&& forall|k: int| #[trigger] idx.contains(k) <==> 0 <= k < n && fixed[k]
}

/// The fixed bytes of a pattern are those at its fixed positions, in order.
pub proof fn fixed_bytes_are_kept(bytes: Seq<u8>, fixed: Seq<bool>, n: int) -> (idx: Seq<int>)
    requires
        0 <= n <= bytes.len(),
        bytes.len() == fixed.len(),
    ensures
        positions(fixed, n, idx),
        bytepath::kept(bytes, fixed, n).len() == idx.len(),
        forall|i: int|
            0 <= i < idx.len() ==> #[trigger] bytepath::kept(bytes, fixed, n)[i] == bytes[idx[i]],
    decreases n,
{
    if n <= 0 {
        Seq::empty()
    } else {
        let before = fixed_bytes_are_kept(bytes, fixed, n - 1);
        let was = bytepath::kept(bytes, fixed, n - 1);
        let now = bytepath::kept(bytes, fixed, n);
        if fixed[n - 1] {
            let idx = before.push(n - 1);
            assert forall|k: int| #[trigger] idx.contains(k) <==> 0 <= k < n && fixed[k] by {
                if idx.contains(k) {
                    let i = choose|i: int| 0 <= i < idx.len() && idx[i] == k;
                    if i < before.len() {
                        assert(before[i] == k);
                        assert(before.contains(k));
                    }
                }
                if before.contains(k) {
                    let i = choose|i: int| 0 <= i < before.len() && before[i] == k;
                    assert(idx[i] == k);
                }
                if k == n - 1 {
                    assert(idx[before.len() as int] == k);
                }
            }
            assert forall|i: int, j: int| 0 <= i < j < idx.len() implies #[trigger] idx[i]
                < #[trigger] idx[j] by {
                assert(before.contains(before[i]));
            }
            assert forall|i: int| 0 <= i < idx.len() implies #[trigger] now[i] == bytes[idx[i]] by {
                if i < before.len() {
                    assert(now[i] == was[i]);
                }
            }
            idx
        } else {
            assert forall|k: int| #[trigger] before.contains(k) <==> 0 <= k < n && fixed[k] by {
                if 0 <= k < n && fixed[k] {
                    assert(k < n - 1);
                }
            }
            before
        }
    }
}

/// The positions that are set in the first and not in the second.
pub open spec fn only_in(a: Seq<bool>, b: Seq<bool>) -> Set<int> {
    Set::new(|k: int| 0 <= k < a.len() && a[k] && !b[k])
}

/// The evidence of a candidate counts its fixed bytes, those of them outside the operands, the operand bytes
/// that were left open, and how many of the bytes that could have stayed fixed did.
pub proof fn evidence_counts_the_bytes(
    bytes: Seq<u8>,
    base_fixed: Seq<bool>,
    fixed: Seq<bool>,
    operand: Seq<bool>,
    s: SweepV,
    anchor: Anchor,
    unsupported: Option<(usize, u8)>,
    packed: bool,
    builds: usize,
)
    requires
        bytes.len() <= usize::MAX,
        base_fixed.len() == bytes.len(),
        fixed.len() == bytes.len(),
        operand.len() == bytes.len(),
    ensures
        ({
            let ev = bytepath::evidence_of(
                bytes,
                base_fixed,
                fixed,
                operand,
                s,
                anchor,
                unsupported,
                packed,
                builds,
            );
            let first = set_at(base_fixed).len();
            &&& ev.fixed_n == set_at(fixed).len()
            &&& ev.len == bytes.len()
            &&& ev.meaningful == only_in(fixed, operand).len()
            &&& ev.operand_masked == only_in(operand, fixed).len()
            &&& first == 0 ==> ev.byte_survival.num == 1 && ev.byte_survival.den == 1
            &&& first > 0 ==> ev.byte_survival.num == set_at(fixed).len() && ev.byte_survival.den == first
            &&& ev.reloc_safe <==> unsupported is None
            &&& ev.packed == packed
            &&& ev.builds == builds
            &&& ev.is_anchor <==> anchor != Anchor::Direct
            &&& ev.any_unresolved == s.unresolved
            &&& ev.all_code == s.all_code
            &&& s.kinds.len() > 0 ==> ev.first_kind == Some(s.kinds[0])
            &&& s.kinds.len() == 0 ==> ev.first_kind is None
            &&& ev.kinds_consistent <==> forall|i: int, j: int|
                0 <= i < s.kinds.len() && 0 <= j < s.kinds.len() ==> #[trigger] s.kinds[i]
                    == #[trigger] s.kinds[j]
        }),
{
    trues_are_counted(fixed);
    trues_are_counted(base_fixed);
    let a = window::but_not(fixed, operand);
    let b = window::but_not(operand, fixed);
    trues_are_counted(a);
    trues_are_counted(b);
    assert(set_at(a) =~= only_in(fixed, operand));
    assert(set_at(b) =~= only_in(operand, fixed));
    assert(bytepath::uniform(s.kinds) <==> forall|i: int, j: int|
        0 <= i < s.kinds.len() && 0 <= j < s.kinds.len() ==> #[trigger] s.kinds[i]
            == #[trigger] s.kinds[j]) by {
        if forall|i: int, j: int|
            0 <= i < s.kinds.len() && 0 <= j < s.kinds.len() ==> #[trigger] s.kinds[i]
                == #[trigger] s.kinds[j] {
            assert forall|i: int| 0 <= i < s.kinds.len() implies #[trigger] s.kinds[i] == s.kinds[0] by {
                assert(s.kinds[i] == s.kinds[0]);
            }
        }
    }
}

/// A string that leads to functions counts as confirmed where there are two of them, where there is nothing
/// to compare, or where the functions are 30 percent alike or more.
pub proof fn lone_strings_need_likeness(paired: bool, least: Option<u64>)
    ensures
        relocate::confirmed(paired, least) <==> paired || (least matches Some(s) ==> at_least_percent(
            s as int,
            30,
        )),
{
}

/// The look-alikes of a build are listed: it is not the one that the function is from, and has some.
pub open spec fn is_listed(
    images: Seq<&ImageInput>,
    required: Seq<usize>,
    ref_idx: usize,
    reference: IdentityV,
    k: int,
) -> bool {
    required[k] != ref_idx && relocate::lookalikes(images[required[k] as int], reference).len() > 0
}

proof fn lists_are_each(
    images: Seq<&ImageInput>,
    required: Seq<usize>,
    ref_idx: usize,
    reference: IdentityV,
    opts: SigOptions,
    n: int,
) -> (idx: Seq<int>)
    requires
        0 <= n <= required.len(),
    ensures
        ({
            let out = relocate::lists(images, required, ref_idx, reference, opts, n);
            &&& idx.len() == out.len()
            &&& forall|i: int, j: int| 0 <= i < j < idx.len() ==> #[trigger] idx[i] < #[trigger] idx[j]
            &&& forall|i: int|
                0 <= i < idx.len() ==> 0 <= #[trigger] idx[i] < n && is_listed(
                    images,
                    required,
                    ref_idx,
                    reference,
                    idx[i],
                ) && list_of(images[required[idx[i]] as int], reference, opts, out[i])
            &&& forall|k: int|
                0 <= k < n && #[trigger] is_listed(images, required, ref_idx, reference, k)
                    ==> idx.contains(k)
        }),
    decreases n,
{
    if n <= 0 {
        Seq::empty()
    } else {
        let before = lists_are_each(images, required, ref_idx, reference, opts, n - 1);
        let was = relocate::lists(images, required, ref_idx, reference, opts, n - 1);
        let out = relocate::lists(images, required, ref_idx, reference, opts, n);
        if is_listed(images, required, ref_idx, reference, n - 1) {
            let idx = before.push(n - 1);
            assert forall|k: int|
                0 <= k < n && #[trigger] is_listed(images, required, ref_idx, reference, k) implies idx.contains(
                k,
            ) by {
                if k < n - 1 {
                    assert(before.contains(k));
                    let i = choose|i: int| 0 <= i < before.len() && before[i] == k;
                    assert(idx[i] == k);
                } else {
                    assert(idx[before.len() as int] == k);
                }
            }
            assert forall|i: int| 0 <= i < idx.len() implies 0 <= #[trigger] idx[i] < n && is_listed(
                images,
                required,
                ref_idx,
                reference,
                idx[i],
            ) && list_of(images[required[idx[i]] as int], reference, opts, out[i]) by {
                if i < before.len() {
                    assert(idx[i] == before[i]);
                    assert(out[i] == was[i]);
                }
            }
            idx
        } else {
            before
        }
    }
}

/// The list of a build: its label, and each look-alike with its likeness and its own signature.
pub open spec fn list_of(
    img: &ImageInput,
    reference: IdentityV,
    opts: SigOptions,
    l: ShortlistV,
) -> bool {
    let top = relocate::lookalikes(img, reference);
    &&& l.label == img.label@
    &&& l.entries.len() == top.len()
    &&& forall|k: int|
        0 <= k < top.len() ==> (#[trigger] l.entries[k]).rva == top[k].0 as u64
            && l.entries[k].similarity == top[k].1 && l.entries[k].aob == bytepath::build_aob(
            img,
            top[k].0 as int,
            opts,
        )
}

/// Where nothing is found, the look-alikes are listed of every build but the one the function is from, in
/// order, for an x86 function of six instructions or more; their signatures may be 256 bytes long or more.
pub proof fn lookalikes_are_listed(
    images: Seq<&ImageInput>,
    required: Seq<usize>,
    ref_idx: usize,
    ref_rva: u64,
    opts: SigOptions,
) -> (idx: Seq<int>)
    ensures
        ({
            let img = images[ref_idx as int];
            let reference = identity::identity_at(img, strings::enclosing(img, ref_rva as int));
            let out = relocate::shortlists(images, required, ref_idx, ref_rva, opts);
            let long = relocate::listing_options(opts);
            &&& long.max_len >= 256
            &&& long.max_len >= opts.max_len
            &&& long.max_len == 256 || long.max_len == opts.max_len
            &&& long.min_fixed == opts.min_fixed
            &&& long.min_fixed_ratio == opts.min_fixed_ratio
            &&& img.arch != Arch::X86 || reference.instr_count < 6 ==> out.len() == 0
            &&& img.arch == Arch::X86 && reference.instr_count >= 6 ==> {
                &&& idx.len() == out.len()
                &&& forall|i: int, j: int|
                    0 <= i < j < idx.len() ==> #[trigger] idx[i] < #[trigger] idx[j]
                &&& forall|i: int|
                    0 <= i < idx.len() ==> 0 <= #[trigger] idx[i] < required.len() && is_listed(
                        images,
                        required,
                        ref_idx,
                        reference,
                        idx[i],
                    ) && list_of(images[required[idx[i]] as int], reference, long, out[i])
                &&& forall|k: int|
                    0 <= k < required.len() && #[trigger] is_listed(
                        images,
                        required,
                        ref_idx,
                        reference,
                        k,
                    ) ==> idx.contains(k)
            }
        }),
{
    let img = images[ref_idx as int];
    let reference = identity::identity_at(img, strings::enclosing(img, ref_rva as int));
    lists_are_each(
        images,
        required,
        ref_idx,
        reference,
        relocate::listing_options(opts),
        required.len() as int,
    )
}

}
