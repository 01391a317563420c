//! Anchors on the strings a function refers to, and the references to a function.

use crate::domain::{StringAnchor, StringAnchorV};
use crate::le;
use crate::le::{i32_at, matches_at, u32_bytes};
use crate::memory::Region;
use crate::ordered;
use crate::ordered::{holds_usize, insert_usize};
use crate::pattern::Arch;
use crate::sigmaker::identity;
use crate::sigmaker::identity::fn_identity;
use crate::sigmaker::types::ImageInput;
use vstd::prelude::*;
use vstd::string::*;
use vstd::utf8::*;

verus! {

/// The standard frame prologue.
pub open spec fn prologue(arch: Arch) -> Seq<u8> {
    match arch {
        Arch::X86 => seq![0x55u8, 0x8B, 0xEC],
        Arch::X64 => seq![0x55u8, 0x48, 0x8B, 0xEC],
    }
}

/// The last occurrence of `needle` that starts before `end`.
pub open spec fn last_occurrence(b: Seq<u8>, needle: Seq<u8>, end: int) -> Option<int>
    decreases end,
{
    if end <= 0 {
        None
    } else if le::occurs_at(b, end - 1, needle) {
        Some(end - 1)
    } else {
        last_occurrence(b, needle, end - 1)
    }
}

/// How far back a prologue is looked for.
pub const PROLOGUE_REACH: usize = 1024;

/// The start of the function around `site`: the nearest prologue at or before it, or the site itself
/// where there is none near.
pub open spec fn enclosing(img: &ImageInput, site: int) -> int {
    let start = if site < PROLOGUE_REACH {
        0
    } else {
        site - PROLOGUE_REACH
    };
    let mark = prologue(img.arch);
    let b = img.bytes(img.base + start, (site - start + mark.len()) as nat);
    match last_occurrence(b, mark, b.len() as int) {
        Some(i) => start + i,
        None => site,
    }
}

proof fn occurrence_in_range(b: Seq<u8>, needle: Seq<u8>, end: int)
    ensures
        last_occurrence(b, needle, end) matches Some(i) ==> 0 <= i < end && i + needle.len()
            <= b.len(),
    decreases end,
{
    if end > 0 && !le::occurs_at(b, end - 1, needle) {
        occurrence_in_range(b, needle, end - 1);
    }
}

/// A site never resolves to a function that starts after it.
pub proof fn enclosing_is_at_or_before(img: &ImageInput, site: int)
    requires
        0 <= site,
    ensures
        0 <= enclosing(img, site) <= site,
{
    let start = if site < PROLOGUE_REACH {
        0
    } else {
        site - PROLOGUE_REACH
    };
    let mark = prologue(img.arch);
    let b = img.bytes(img.base + start, (site - start + mark.len()) as nat);
    occurrence_in_range(b, mark, b.len() as int);
    img.bytes_fit(img.base + start, (site - start + mark.len()) as nat);
}

/// Walk back to the nearest standard frame prologue so an anchor resolves to the function entry, not the
/// mid-body reference; this also collapses several references inside one function to a single site.
pub fn enclosing_function(img: &ImageInput, site_rva: usize) -> (r: usize)
    requires
        img.reaches(site_rva as int),
    ensures
        r == enclosing(img, site_rva as int),
        r <= site_rva,
        img.reaches(r as int),
{
    let mark: Vec<u8> = match img.arch {
        Arch::X86 => vec![0x55u8, 0x8B, 0xEC],
        Arch::X64 => vec![0x55u8, 0x48, 0x8B, 0xEC],
    };
    assert(mark@ =~= prologue(img.arch));
    let start: usize = if site_rva < PROLOGUE_REACH {
        0
    } else {
        site_rva - PROLOGUE_REACH
    };
    let b = img.read(img.base + start, site_rva - start + mark.len());
    let mut end: usize = b.len();
    while end > 0
        invariant
            mark@ == prologue(img.arch),
            start <= site_rva,
            b@.len() <= site_rva - start + mark@.len(),
            img.reaches(site_rva as int),
            end <= b@.len(),
            b@ == img.bytes(img.base + start, (site_rva - start + mark@.len()) as nat),
            start == (if site_rva < PROLOGUE_REACH {
                0
            } else {
                site_rva - PROLOGUE_REACH
            }),
            last_occurrence(b@, mark@, b@.len() as int) == last_occurrence(b@, mark@, end as int),
        decreases end,
    {
        if matches_at(b.as_slice(), end - 1, mark.as_slice()) {
            return start + (end - 1);
        }
        end -= 1;
    }
    site_rva
}

/// How many relative calls and jumps from `i` on reach `target`.
pub open spec fn branch_count(b: Seq<u8>, base: int, target: int, i: int) -> nat
    decreases b.len() - i,
{
    if !(0 <= i && i + 5 <= b.len()) {
        0
    } else {
        let here = (b[i] == 0xE8 || b[i] == 0xE9) && base + i + 5 + le::signed32(le::le32(b, i + 1))
            == target;
        branch_count(b, base, target, i + 1) + if here {
            1nat
        } else {
            0nat
        }
    }
}

/// How many ip-relative `lea` of the common form from `i` on reach `target`.
pub open spec fn lea_count(b: Seq<u8>, base: int, target: int, i: int) -> nat
    decreases b.len() - i,
{
    if !(0 <= i && i + 7 <= b.len()) {
        0
    } else {
        let here = b[i] == 0x48 && b[i + 1] == 0x8D && b[i + 2] & 0xC7 == 0x05 && base + i + 7
            + le::signed32(le::le32(b, i + 3)) == target;
        lea_count(b, base, target, i + 1) + if here {
            1nat
        } else {
            0nat
        }
    }
}

/// The references to `target` from one code region.
pub open spec fn region_references(img: &ImageInput, r: Region, target: int) -> nat {
    let b = img.bytes(r.base as int, r.size as nat);
    branch_count(b, r.base as int, target, 0) + if img.arch == Arch::X64 {
        lea_count(b, r.base as int, target, 0)
    } else {
        0
    }
}

/// The references to `target` from the first `n` code regions.
pub open spec fn references_to(img: &ImageInput, target: int, n: int) -> nat
    decreases n,
{
    if n <= 0 {
        0
    } else {
        references_to(img, target, n - 1) + region_references(img, img.code_regions@[n - 1], target)
    }
}

proof fn counts_fit(b: Seq<u8>, base: int, target: int, i: int)
    ensures
        0 <= i <= b.len() ==> branch_count(b, base, target, i) + i <= b.len(),
        0 <= i <= b.len() ==> lea_count(b, base, target, i) + i <= b.len(),
    decreases b.len() - i,
{
    if 0 <= i && i + 5 <= b.len() {
        counts_fit(b, base, target, i + 1);
    }
}

/// The number of references to `target_rva`, or the greatest number there is if they are more.
pub fn xrefs_capped(img: &ImageInput, target_rva: usize) -> (r: usize)
    requires
        img.wf(),
    ensures
        r == (if references_to(img, img.base + target_rva, img.code_regions@.len() as int)
            <= usize::MAX {
            references_to(img, img.base + target_rva, img.code_regions@.len() as int)
        } else {
            usize::MAX as nat
        }),
{
    let target: i128 = img.base as i128 + target_rva as i128;
    let mut total: usize = 0;
    let mut i: usize = 0;
    while i < img.code_regions.len()
        invariant
            img.wf(),
            target == img.base + target_rva,
            i <= img.code_regions@.len(),
            total == (if references_to(img, img.base + target_rva, i as int) <= usize::MAX {
                references_to(img, img.base + target_rva, i as int)
            } else {
                usize::MAX as nat
            }),
        decreases img.code_regions@.len() - i,
    {
        let r = img.code_regions[i];
        let b = img.read(r.base, r.size);
        let calls: usize = count_branches(b.as_slice(), r.base, target);
        let leas: usize = if img.arch == Arch::X64 {
            count_leas(b.as_slice(), r.base, target)
        } else {
            0
        };
        total = total.saturating_add(calls).saturating_add(leas);
        i += 1;
    }
    total
}

/// Approximate references to `target_rva`: rel32 call/jmp and x64 rip-relative lea landing on the
/// entry. A byte scan, so it can miscount at a boundary; kept out of the fingerprint since the
/// referencing code shifts per build, but a useful "hot function" signal on its own.
pub fn xref_count(img: &ImageInput, target_rva: usize) -> (r: usize)
    requires
        img.wf(),
        references_to(img, img.base + target_rva, img.code_regions@.len() as int) <= usize::MAX,
    ensures
        r == references_to(img, img.base + target_rva, img.code_regions@.len() as int),
{
    xrefs_capped(img, target_rva)
}

fn count_branches(b: &[u8], base: usize, target: i128) -> (n: usize)
    ensures
        n == branch_count(b@, base as int, target as int, 0),
{
    let mut n: usize = 0;
    let mut i: usize = 0;
    let end: usize = b.len();
    proof {
        counts_fit(b@, base as int, target as int, 0);
    }
    while i < end && end - i >= 5
        invariant
            end == b@.len(),
            i <= end,
            n <= i,
            branch_count(b@, base as int, target as int, 0) == n + branch_count(
                b@,
                base as int,
                target as int,
                i as int,
            ),
        decreases end - i,
    {
        if b[i] == 0xE8 || b[i] == 0xE9 {
            let goes: i128 = base as i128 + i as i128 + 5 + i32_at(b, i + 1) as i128;
            if goes == target {
                n += 1;
            }
        }
        i += 1;
    }
    n
}

fn count_leas(b: &[u8], base: usize, target: i128) -> (n: usize)
    ensures
        n == lea_count(b@, base as int, target as int, 0),
{
    let mut n: usize = 0;
    let mut i: usize = 0;
    let end: usize = b.len();
    while i < end && end - i >= 7
        invariant
            end == b@.len(),
            i <= end,
            n <= i,
            lea_count(b@, base as int, target as int, 0) == n + lea_count(
                b@,
                base as int,
                target as int,
                i as int,
            ),
        decreases end - i,
    {
        if b[i] == 0x48 && b[i + 1] == 0x8D && b[i + 2] & 0xC7 == 0x05 {
            let goes: i128 = base as i128 + i as i128 + 7 + i32_at(b, i + 3) as i128;
            if goes == target {
                n += 1;
            }
        }
        i += 1;
    }
    n
}

/// The first occurrence of `needle` from `i` on.
pub open spec fn first_occurrence(b: Seq<u8>, needle: Seq<u8>, i: int) -> Option<int>
    decreases b.len() - i,
{
    if !(0 <= i < b.len()) {
        None
    } else if le::occurs_at(b, i, needle) {
        Some(i)
    } else {
        first_occurrence(b, needle, i + 1)
    }
}

/// Each byte followed by a zero.
pub open spec fn widened(b: Seq<u8>) -> Seq<u8> {
    Seq::new(
        2 * b.len(),
        |i: int|
            if i % 2 == 0 {
                b[i / 2]
            } else {
                0u8
            },
    )
}

/// The address of the string's first copy in the regions from `n` on: in one byte per character, or
/// failing that in two.
pub open spec fn string_address(img: &ImageInput, needle: Seq<u8>, n: int) -> Option<int>
    decreases img.regions@.len() - n,
{
    if !(0 <= n < img.regions@.len()) {
        None
    } else {
        let r = img.regions@[n];
        let b = img.bytes(r.base as int, r.size as nat);
        match first_occurrence(b, needle, 0) {
            Some(i) => Some(r.base + i),
            None => match first_occurrence(b, widened(needle), 0) {
                Some(i) => Some(r.base + i),
                None => string_address(img, needle, n + 1),
            },
        }
    }
}

fn find_bytes(b: &[u8], needle: &[u8]) -> (r: Option<usize>)
    ensures
        match r {
            Some(i) => first_occurrence(b@, needle@, 0) == Some(i as int) && i < b@.len(),
            None => first_occurrence(b@, needle@, 0) is None,
        },
{
    let mut i: usize = 0;
    while i < b.len()
        invariant
            i <= b@.len(),
            first_occurrence(b@, needle@, 0) == first_occurrence(b@, needle@, i as int),
        decreases b@.len() - i,
    {
        if matches_at(b, i, needle) {
            return Some(i);
        }
        i += 1;
    }
    None
}

/// The address of the string's first copy in the image's regions.
pub fn find_string_in_data(img: &ImageInput, text: &str) -> (r: Option<usize>)
    requires
        img.wf(),
    ensures
        match r {
            Some(a) => string_address(img, encode_utf8(text@), 0) == Some(a as int),
            None => string_address(img, encode_utf8(text@), 0) is None,
        },
{
    let ascii = text.as_bytes();
    let mut wide: Vec<u8> = Vec::new();
    let mut k: usize = 0;
    while k < ascii.len()
        invariant
            k <= ascii@.len(),
            wide@.len() == 2 * k,
            forall|j: int| 0 <= j < 2 * k ==> #[trigger] wide@[j] == widened(ascii@)[j],
        decreases ascii@.len() - k,
    {
        wide.push(ascii[k]);
        wide.push(0);
        k += 1;
    }
    assert(wide@ =~= widened(ascii@));
    let mut n: usize = 0;
    while n < img.regions.len()
        invariant
            img.wf(),
            n <= img.regions@.len(),
            ascii@ == encode_utf8(text@),
            wide@ == widened(ascii@),
            string_address(img, ascii@, 0) == string_address(img, ascii@, n as int),
        decreases img.regions@.len() - n,
    {
        let r = img.regions[n];
        let b = img.read(r.base, r.size);
        if let Some(i) = find_bytes(b.as_slice(), ascii) {
            return Some(r.base + i);
        }
        if let Some(i) = find_bytes(b.as_slice(), wide.as_slice()) {
            return Some(r.base + i);
        }
        n += 1;
    }
    None
}

/// Whether the code at `i` refers to the address: by its four bytes on x86, by an ip-relative `lea` on
/// x64.
pub open spec fn refers_at(b: Seq<u8>, base: int, data_abs: int, arch: Arch, i: int) -> bool {
    match arch {
        Arch::X86 => i + 4 <= b.len() && b.subrange(i, i + 4) == le::le32_bytes(data_abs as u32),
        Arch::X64 => i + 7 <= b.len() && b[i] & 0xFB == 0x48 && b[i + 1] == 0x8D && b[i + 2] & 0xC7
            == 0x05 && base + i + 7 + le::signed32(le::le32(b, i + 3)) == data_abs,
    }
}

/// The addresses from offset `i` on at which the code refers to the address.
pub open spec fn ref_sites_from(
    b: Seq<u8>,
    base: int,
    data_abs: int,
    arch: Arch,
    i: int,
) -> Seq<usize>
    decreases b.len() - i,
{
    if !(0 <= i < b.len()) {
        Seq::empty()
    } else {
        let rest = ref_sites_from(b, base, data_abs, arch, i + 1);
        if refers_at(b, base, data_abs, arch, i) {
            seq![(base + i) as usize] + rest
        } else {
            rest
        }
    }
}

/// The addresses in a region's bytes at which the code refers to `data_abs`.
pub fn string_ref_sites(b: &[u8], base: usize, data_abs: usize, arch: Arch) -> (out: Vec<usize>)
    requires
        base + b@.len() <= usize::MAX,
    ensures
        out@ == ref_sites_from(b@, base as int, data_abs as int, arch, 0),
        forall|k: int|
            0 <= k < out@.len() ==> base <= #[trigger] out@[k] && out@[k] < base + b@.len(),
{
    let key = u32_bytes(data_abs as u32);
    let mut out: Vec<usize> = Vec::new();
    let mut i: usize = 0;
    let ghost all = ref_sites_from(b@, base as int, data_abs as int, arch, 0);
    assert(out@ + all =~= all);
    while i < b.len()
        invariant
            base + b@.len() <= usize::MAX,
            key@ == le::le32_bytes(data_abs as u32),
            i <= b@.len(),
            all == out@ + ref_sites_from(b@, base as int, data_abs as int, arch, i as int),
            forall|k: int|
                0 <= k < out@.len() ==> base <= #[trigger] out@[k] && out@[k] < base + b@.len(),
        decreases b@.len() - i,
    {
        let here: bool = match arch {
            Arch::X86 => {
                assert(key@.len() == 4);
                matches_at(b, i, key.as_slice())
            },
            Arch::X64 => {
                b.len() - i >= 7 && b[i] & 0xFB == 0x48 && b[i + 1] == 0x8D && b[i + 2] & 0xC7
                    == 0x05 && base as i128 + i as i128 + 7 + i32_at(b, i + 3) as i128
                    == data_abs as i128
            },
        };
        let ghost rest = ref_sites_from(b@, base as int, data_abs as int, arch, i + 1);
        if here {
            let ghost before = out@;
            out.push(base + i);
            assert(out@ + rest =~= before + (seq![(base + i) as usize] + rest));
        }
        i += 1;
    }
    assert(out@ =~= all);
    out
}

/// The entries of the functions that refer to `data_abs` from one code region, in the order of the
/// references.
pub open spec fn referrers_in(img: &ImageInput, r: Region, data_abs: int) -> Seq<usize> {
    let sites = ref_sites_from(
        img.bytes(r.base as int, r.size as nat),
        r.base as int,
        data_abs,
        img.arch,
        0,
    );
    Seq::new(sites.len(), |k: int| enclosing(img, sites[k] - img.base) as usize)
}

/// The entries of the functions that refer to `data_abs` from the first `n` code regions, in order.
pub open spec fn referrers(img: &ImageInput, data_abs: int, n: int) -> Seq<usize>
    decreases n,
{
    if n <= 0 {
        Seq::empty()
    } else {
        ordered::ins_all(
            referrers(img, data_abs, n - 1),
            referrers_in(img, img.code_regions@[n - 1], data_abs),
            ordered::rising(),
        )
    }
}

/// The entries of the functions that refer to a string of the image, ascending; `None` where the
/// string is not there or nothing refers to it.
pub open spec fn users_of(img: &ImageInput, needle: Seq<u8>) -> Option<Seq<usize>> {
    match string_address(img, needle, 0) {
        None => None,
        Some(a) => {
            let set = referrers(img, a, img.code_regions@.len() as int);
            if set.len() == 0 {
                None
            } else {
                Some(set)
            }
        },
    }
}

/// All entries can be read at.
pub open spec fn all_within_reach(img: &ImageInput, v: Seq<usize>) -> bool {
    forall|k: int| 0 <= k < v.len() ==> img.reaches(#[trigger] v[k] as int)
}

/// Inserting an address that can be read at keeps all of them so.
pub proof fn ins_within_reach(img: &ImageInput, v: Seq<usize>, x: usize)
    requires
        all_within_reach(img, v),
        img.reaches(x as int),
    ensures
        all_within_reach(img, ordered::ins(v, x, ordered::rising())),
    decreases v.len(),
{
    if v.len() > 0 && v.last() != x && x < v.last() {
        ins_within_reach(img, v.drop_last(), x);
        assert(img.reaches(v[v.len() - 1] as int));
    }
}

/// The functions that refer to a string.
pub fn functions_referencing(img: &ImageInput, text: &str) -> (r: Option<Vec<usize>>)
    requires
        img.wf(),
    ensures
        match r {
            Some(v) => users_of(img, encode_utf8(text@)) == Some(v@) && all_within_reach(img, v@),
            None => users_of(img, encode_utf8(text@)) is None,
        },
{
    let data_abs: usize = match find_string_in_data(img, text) {
        Some(a) => a,
        None => {
            return None;
        },
    };
    let mut set: Vec<usize> = Vec::new();
    let mut n: usize = 0;
    while n < img.code_regions.len()
        invariant
            img.wf(),
            n <= img.code_regions@.len(),
            set@ == referrers(img, data_abs as int, n as int),
            all_within_reach(img, set@),
        decreases img.code_regions@.len() - n,
    {
        let r = img.code_regions[n];
        let b = img.read(r.base, r.size);
        let sites = string_ref_sites(b.as_slice(), r.base, data_abs, img.arch);
        let ghost here = referrers_in(img, r, data_abs as int);
        let ghost before = set@;
        let mut k: usize = 0;
        assert(here.take(0) =~= Seq::<usize>::empty());
        while k < sites.len()
            invariant
                img.wf(),
                n < img.code_regions@.len(),
                r == img.code_regions@[n as int],
                b@.len() <= r.size,
                k <= sites@.len(),
                here == Seq::new(
                    sites@.len(),
                    |k: int| enclosing(img, sites@[k] - img.base) as usize,
                ),
                forall|k: int|
                    0 <= k < sites@.len() ==> r.base <= #[trigger] sites@[k] && sites@[k] < r.base
                        + b@.len(),
                set@ == ordered::ins_all(before, here.take(k as int), ordered::rising()),
                all_within_reach(img, set@),
            decreases sites@.len() - k,
        {
            assert(here.take(k + 1).drop_last() =~= here.take(k as int));
            let entry: usize = enclosing_function(img, sites[k] - img.base);
            proof {
                ins_within_reach(img, set@, entry);
            }
            insert_usize(&mut set, entry);
            k += 1;
        }
        assert(here.take(k as int) =~= here);
        n += 1;
    }
    if set.len() == 0 {
        None
    } else {
        Some(set)
    }
}

/// The members of both sets, in the order of the first.
pub open spec fn shared(a: Seq<usize>, b: Seq<usize>) -> Seq<usize>
    decreases a.len(),
{
    if a.len() == 0 {
        Seq::empty()
    } else if b.contains(a.last()) {
        shared(a.drop_last(), b).push(a.last())
    } else {
        shared(a.drop_last(), b)
    }
}

/// The only member of a set.
pub open spec fn only(s: Seq<usize>) -> Option<usize> {
    if s.len() == 1 {
        Some(s[0])
    } else {
        None
    }
}

/// The function a string anchor pins: the only one that refers to its string, or to both its strings.
pub open spec fn anchored(img: &ImageInput, a: StringAnchorV) -> Option<usize> {
    match users_of(img, encode_utf8(a.text)) {
        None => None,
        Some(primary) => match a.also {
            None => only(primary),
            Some(second) => match users_of(img, encode_utf8(second)) {
                None => None,
                Some(secondary) => only(shared(primary, secondary)),
            },
        },
    }
}

fn intersect(a: &Vec<usize>, b: &Vec<usize>) -> (r: Vec<usize>)
    ensures
        r@ == shared(a@, b@),
        forall|k: int|
            0 <= k < r@.len() ==> exists|j: int| 0 <= j < a@.len() && a@[j] == #[trigger] r@[k],
{
    let mut r: Vec<usize> = Vec::new();
    let mut i: usize = 0;
    assert(a@.take(0) =~= Seq::<usize>::empty());
    while i < a.len()
        invariant
            i <= a@.len(),
            r@ == shared(a@.take(i as int), b@),
            forall|k: int|
                0 <= k < r@.len() ==> exists|j: int| 0 <= j < a@.len() && a@[j] == #[trigger] r@[k],
        decreases a@.len() - i,
    {
        assert(a@.take(i + 1).drop_last() =~= a@.take(i as int));
        if holds_usize(b.as_slice(), a[i]) {
            let ghost before = r@;
            r.push(a[i]);
            assert forall|k: int| 0 <= k < r@.len() implies exists|j: int|
                0 <= j < a@.len() && a@[j] == #[trigger] r@[k] by {
                if k < before.len() {
                    assert(r@[k] == before[k]);
                } else {
                    assert(a@[i as int] == r@[k]);
                }
            }
        }
        i += 1;
    }
    assert(a@.take(i as int) =~= a@);
    r
}

/// The function a string anchor pins.
pub fn resolve_string_anchor(img: &ImageInput, anchor: &StringAnchor) -> (r: Option<usize>)
    requires
        img.wf(),
    ensures
        r == anchored(img, anchor.deep_view()),
        r matches Some(f) ==> img.reaches(f as int),
{
    let primary = match functions_referencing(img, anchor.text.as_str()) {
        Some(v) => v,
        None => {
            return None;
        },
    };
    match &anchor.also {
        None => if primary.len() == 1 {
            assert(img.reaches(primary@[0] as int));
            Some(primary[0])
        } else {
            None
        },
        Some(second) => {
            let secondary = match functions_referencing(img, second.as_str()) {
                Some(v) => v,
                None => {
                    return None;
                },
            };
            let both = intersect(&primary, &secondary);
            if both.len() == 1 {
                proof {
                    let j = choose|j: int| 0 <= j < primary@.len() && primary@[j] == both@[0];
                    assert(both@[0] == both@[0]);
                    assert(img.reaches(primary@[j] as int));
                }
                Some(both[0])
            } else {
                None
            }
        },
    }
}

/// A text behind all that are at least as long.
pub open spec fn by_length_in(s: Seq<Seq<char>>, x: Seq<char>) -> Seq<Seq<char>>
    decreases s.len(),
{
    if s.len() == 0 || encode_utf8(s.last()).len() as usize >= encode_utf8(x).len() as usize {
        s.push(x)
    } else {
        by_length_in(s.drop_last(), x).push(s.last())
    }
}

/// The texts, longest first, equally long ones in their order.
pub open spec fn by_length(s: Seq<Seq<char>>) -> Seq<Seq<char>>
    decreases s.len(),
{
    if s.len() == 0 {
        s
    } else {
        by_length_in(by_length(s.drop_last()), s.last())
    }
}

/// How many strings of a function are tried.
pub const MAX_STRINGS: usize = 6;

/// The strings of the function that may anchor it: the longest ones.
pub open spec fn strings_to_try(img: &ImageInput, rva: int) -> Seq<Seq<char>> {
    let s = by_length(identity::identity_at(img, rva).strings);
    if s.len() > MAX_STRINGS {
        s.take(MAX_STRINGS as int)
    } else {
        s
    }
}

/// The first string from `i` on that only one function refers to.
pub open spec fn lone_string(img: &ImageInput, s: Seq<Seq<char>>, i: int) -> Option<Seq<char>>
    decreases s.len() - i,
{
    if !(0 <= i < s.len()) {
        None
    } else if users_of(img, encode_utf8(s[i])) matches Some(set) && set.len() == 1 {
        Some(s[i])
    } else {
        lone_string(img, s, i + 1)
    }
}

/// Whether the function at `at`, and no other, refers to both strings.
pub open spec fn pair_pins(img: &ImageInput, at: usize, a: Seq<char>, b: Seq<char>) -> bool {
    match (users_of(img, encode_utf8(a)), users_of(img, encode_utf8(b))) {
        (Some(x), Some(y)) => shared(x, y) == seq![at],
        _ => false,
    }
}

/// The first pair, by its first and then its second string, that pins the function at `at`.
pub open spec fn first_pair(
    img: &ImageInput,
    at: usize,
    s: Seq<Seq<char>>,
    i: int,
    j: int,
) -> Option<(Seq<char>, Seq<char>)>
    decreases s.len() - i, s.len() - j,
{
    if !(0 <= i < s.len()) {
        None
    } else if !(0 <= j < s.len()) {
        first_pair(img, at, s, i + 1, i + 2)
    } else if pair_pins(img, at, s[i], s[j]) {
        Some((s[i], s[j]))
    } else {
        first_pair(img, at, s, i, j + 1)
    }
}

/// The string anchor of the function at `rva`: a lone string that pins one function, longest first;
/// failing that, the first pair that pins the function around `rva` itself.
pub open spec fn string_anchor_of(img: &ImageInput, rva: int) -> Option<StringAnchorV> {
    let s = strings_to_try(img, rva);
    let at = enclosing(img, rva) as usize;
    match lone_string(img, s, 0) {
        Some(text) => Some(StringAnchorV { text, also: None }),
        None => match first_pair(img, at, s, 0, 1) {
            Some((a, b)) => Some(StringAnchorV { text: a, also: Some(b) }),
            None => None,
        },
    }
}

fn length_first(strings: &Vec<String>) -> (r: Vec<String>)
    ensures
        r.deep_view() == by_length(strings.deep_view()),
{
    let ghost all = strings.deep_view();
    let mut r: Vec<String> = Vec::new();
    let mut n: usize = 0;
    assert(all.take(0) =~= Seq::<Seq<char>>::empty());
    assert(r.deep_view() =~= Seq::<Seq<char>>::empty());
    while n < strings.len()
        invariant
            all == strings.deep_view(),
            n <= strings@.len(),
            r.deep_view() == by_length(all.take(n as int)),
        decreases strings@.len() - n,
    {
        assert(all.take(n + 1).drop_last() =~= all.take(n as int));
        let x = strings[n].clone();
        assert(all.take(n + 1).last() == x@);
        let len: usize = x.as_str().len();
        let ghost s = r.deep_view();
        let mut i: usize = r.len();
        assert(s.take(i as int) =~= s);
        assert(by_length_in(s, x@) =~= by_length_in(s.take(i as int), x@) + s.skip(i as int));
        while i > 0 && r[i - 1].as_str().len() < len
            invariant
                i <= r@.len(),
                s == r.deep_view(),
                len == encode_utf8(x@).len() as usize,
                by_length_in(s, x@) == by_length_in(s.take(i as int), x@) + s.skip(i as int),
            decreases i,
        {
            proof {
                let t = s.take(i as int);
                assert(t.drop_last() =~= s.take(i - 1));
                assert(t.last() == r@[i - 1]@);
                assert(by_length_in(t, x@) == by_length_in(t.drop_last(), x@).push(t.last()));
                assert(by_length_in(t, x@) + s.skip(i as int) =~= by_length_in(s.take(i - 1), x@)
                    + s.skip(i - 1));
            }
            i -= 1;
        }
        let ghost text = x@;
        proof {
            if i > 0 {
                assert(s.take(i as int).last() == r@[i - 1]@);
            }
        }
        r.insert(i, x);
        assert(r.deep_view() =~= s.take(i as int).push(text) + s.skip(i as int));
        n += 1;
    }
    assert(all.take(n as int) =~= all);
    r
}

/// Build a string anchor for the function at `target_rva`. Prefers a single string that already pins
/// down one enclosing function (longest first); failing that, a pair whose referencing sets intersect
/// to exactly that function. Returns `None` if its strings cannot isolate it.
pub fn make_string_anchor(img: &ImageInput, target_rva: usize) -> (r: Option<StringAnchor>)
    requires
        img.wf(),
        img.reaches(target_rva as int),
    ensures
        r.deep_view() == string_anchor_of(img, target_rva as int),
{
    let id = fn_identity(img, target_rva);
    let mut strings = length_first(&id.strings);
    let ghost sorted = strings.deep_view();
    strings.truncate(MAX_STRINGS);
    let ghost s = strings.deep_view();
    assert(s =~= strings_to_try(img, target_rva as int));
    let mut sets: Vec<Option<Vec<usize>>> = Vec::new();
    let mut i: usize = 0;
    let mut lone: Option<usize> = None;
    while i < strings.len()
        invariant
            img.wf(),
            s == strings.deep_view(),
            i <= strings@.len(),
            sets@.len() == i,
            forall|k: int|
                0 <= k < i ==> (match #[trigger] sets@[k] {
                    Some(v) => users_of(img, encode_utf8(s[k])) == Some(v@),
                    None => users_of(img, encode_utf8(s[k])) is None,
                }),
            lone_string(img, s, 0) == (match lone {
                Some(k) => Some(s[k as int]),
                None => lone_string(img, s, i as int),
            }),
            lone matches Some(k) ==> k < s.len(),
        decreases strings@.len() - i,
    {
        let set = functions_referencing(img, strings[i].as_str());
        assert(s[i as int] == strings@[i as int]@);
        if lone.is_none() {
            if let Some(v) = &set {
                if v.len() == 1 {
                    lone = Some(i);
                }
            }
        }
        sets.push(set);
        i += 1;
    }
    if let Some(k) = lone {
        let text = strings[k].clone();
        let a = StringAnchor { text, also: None };
        assert(a.deep_view() =~= (StringAnchorV { text: s[k as int], also: None }));
        return Some(a);
    }
    let at: usize = enclosing_function(img, target_rva);
    let mut x: usize = 0;
    while x < strings.len()
        invariant
            s == strings.deep_view(),
            at == enclosing(img, target_rva as int),
            s == strings_to_try(img, target_rva as int),
            x <= strings@.len(),
            sets@.len() == strings@.len(),
            lone_string(img, s, 0) is None,
            forall|k: int|
                0 <= k < sets@.len() ==> (match #[trigger] sets@[k] {
                    Some(v) => users_of(img, encode_utf8(s[k])) == Some(v@),
                    None => users_of(img, encode_utf8(s[k])) is None,
                }),
            first_pair(img, at, s, 0, 1) == first_pair(img, at, s, x as int, x + 1),
        decreases strings@.len() - x,
    {
        let mut y: usize = x + 1;
        while y < strings.len()
            invariant
                s == strings.deep_view(),
                at == enclosing(img, target_rva as int),
                s == strings_to_try(img, target_rva as int),
                x < strings@.len(),
                x < y <= strings@.len(),
                sets@.len() == strings@.len(),
                lone_string(img, s, 0) is None,
                forall|k: int|
                    0 <= k < sets@.len() ==> (match #[trigger] sets@[k] {
                        Some(v) => users_of(img, encode_utf8(s[k])) == Some(v@),
                        None => users_of(img, encode_utf8(s[k])) is None,
                    }),
                first_pair(img, at, s, 0, 1) == first_pair(img, at, s, x as int, y as int),
            decreases strings@.len() - y,
        {
            let pins: bool = match (&sets[x], &sets[y]) {
                (Some(a), Some(b)) => {
                    let both = intersect(a, b);
                    assert(both@.len() == 1 && both@[0] == at ==> both@ =~= seq![at]);
                    both.len() == 1 && both[0] == at
                },
                _ => false,
            };
            assert(pins == pair_pins(img, at, s[x as int], s[y as int])) by {
                let a = sets@[x as int];
                let b = sets@[y as int];
            }
            if pins {
                let text = strings[x].clone();
                let also = strings[y].clone();
                let a = StringAnchor { text, also: Some(also) };
                assert(a.deep_view() =~= (StringAnchorV {
                    text: s[x as int],
                    also: Some(s[y as int]),
                }));
                return Some(a);
            }
            y += 1;
        }
        x += 1;
    }
    None
}

proof fn by_length_in_keeps(s: Seq<Seq<char>>, x: Seq<char>, y: Seq<char>)
    ensures
        by_length_in(s, x).contains(y) ==> s.contains(y) || y == x,
    decreases s.len(),
{
    let all = by_length_in(s, x);
    if all.contains(y) {
        let k = choose|k: int| 0 <= k < all.len() && all[k] == y;
        if s.len() == 0 || encode_utf8(s.last()).len() as usize >= encode_utf8(x).len() as usize {
            if k < s.len() {
                assert(s[k] == y);
            }
        } else {
            let d = s.drop_last();
            let front = by_length_in(d, x);
            by_length_in_keeps(d, x, y);
            if k < front.len() {
                assert(front[k] == y);
                if d.contains(y) {
                    let m = choose|m: int| 0 <= m < d.len() && d[m] == y;
                    assert(s[m] == y);
                }
            } else {
                assert(s[s.len() - 1] == y);
            }
        }
    }
}

proof fn by_length_keeps(s: Seq<Seq<char>>, y: Seq<char>)
    ensures
        by_length(s).contains(y) ==> s.contains(y),
    decreases s.len(),
{
    if s.len() > 0 {
        let d = s.drop_last();
        by_length_keeps(d, y);
        by_length_in_keeps(by_length(d), s.last(), y);
        if d.contains(y) {
            let m = choose|m: int| 0 <= m < d.len() && d[m] == y;
            assert(s[m] == y);
        }
        assert(s[s.len() - 1] == s.last());
    }
}

proof fn tried_are_own_strings(img: &ImageInput, rva: int, y: Seq<char>)
    ensures
        strings_to_try(img, rva).contains(y) ==> identity::identity_at(img, rva).strings.contains(y),
{
    let own = identity::identity_at(img, rva).strings;
    let s = by_length(own);
    let t = strings_to_try(img, rva);
    if t.contains(y) {
        let k = choose|k: int| 0 <= k < t.len() && t[k] == y;
        assert(s[k] == y);
        by_length_keeps(own, y);
    }
}

proof fn lone_string_pins(img: &ImageInput, s: Seq<Seq<char>>, i: int)
    ensures
        lone_string(img, s, i) matches Some(text) ==> s.contains(text) && (users_of(
            img,
            encode_utf8(text),
        ) matches Some(set) && set.len() == 1),
    decreases s.len() - i,
{
    if 0 <= i < s.len() && !(users_of(img, encode_utf8(s[i])) matches Some(set) && set.len() == 1) {
        lone_string_pins(img, s, i + 1);
    }
}

proof fn first_pair_pins(img: &ImageInput, at: usize, s: Seq<Seq<char>>, i: int, j: int)
    ensures
        first_pair(img, at, s, i, j) matches Some((a, b)) ==> s.contains(a) && s.contains(b)
            && pair_pins(img, at, a, b),
    decreases s.len() - i, s.len() - j,
{
    if 0 <= i < s.len() {
        if !(0 <= j < s.len()) {
            first_pair_pins(img, at, s, i + 1, i + 2);
        } else if !pair_pins(img, at, s[i], s[j]) {
            first_pair_pins(img, at, s, i, j + 1);
        }
    }
}

/// A string anchor is made of strings that the function refers to. It pins exactly one function in the
/// build it was made in, and a pair of strings the very function it was made for. A pair is taken only
/// where no single string pins a function.
pub proof fn string_anchor_pins_one_function(img: &ImageInput, rva: int)
    ensures
        string_anchor_of(img, rva) matches Some(a) ==> identity::identity_at(
            img,
            rva,
        ).strings.contains(a.text) && (a.also matches Some(b) ==> identity::identity_at(
            img,
            rva,
        ).strings.contains(b)) && anchored(img, a) is Some && (a.also is Some
            ==> anchored(img, a) == Some(enclosing(img, rva) as usize) && lone_string(
            img,
            strings_to_try(img, rva),
            0,
        ) is None),
{
    let at = enclosing(img, rva) as usize;
    let s = strings_to_try(img, rva);
    lone_string_pins(img, s, 0);
    first_pair_pins(img, at, s, 0, 1);
    if let Some(a) = string_anchor_of(img, rva) {
        tried_are_own_strings(img, rva, a.text);
        if let Some(b) = a.also {
            tried_are_own_strings(img, rva, b);
        }
    }
}

}
