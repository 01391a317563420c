//! Which functions of a build use a string, a constant or a call, and when that pins one of them.

use crate::domain::StringAnchorV;
use crate::le;
use crate::ordered;
use crate::pattern::Arch;
use crate::sigmaker::constants;
use crate::sigmaker::constants::Holder;
use crate::sigmaker::strings;
use crate::sigmaker::types::ImageInput;
use vstd::prelude::*;
use vstd::utf8::encode_utf8;

verus! {

/// The bytes are in `hay` at `off`.
pub open spec fn stands_at(hay: Seq<u8>, off: int, needle: Seq<u8>) -> bool {
    &&& 0 <= off
    &&& off + needle.len() <= hay.len()
    &&& forall|k: int| 0 <= k < needle.len() ==> #[trigger] needle[k] == hay[off + k]
}

pub(crate) proof fn occurring_stands(hay: Seq<u8>, off: int, needle: Seq<u8>)
    ensures
        le::occurs_at(hay, off, needle) <==> stands_at(hay, off, needle),
{
    if stands_at(hay, off, needle) {
        assert(hay.subrange(off, off + needle.len()) =~= needle);
    }
    if le::occurs_at(hay, off, needle) {
        let part = hay.subrange(off, off + needle.len());
        assert forall|k: int| 0 <= k < needle.len() implies #[trigger] needle[k] == hay[off + k] by {
            assert(part[k] == hay[off + k]);
        }
    }
}

/// The bytes of a code region.
pub open spec fn code_in(img: &ImageInput, i: int) -> Seq<u8> {
    img.bytes(img.code_regions@[i].base as int, img.code_regions@[i].size as nat)
}

/// The start of a frame: `push ebp; mov ebp, esp`, or its 64-bit form.
pub open spec fn frame_at(arch: Arch, b: Seq<u8>, i: int) -> bool {
    if arch == Arch::X64 {
        0 <= i && i + 4 <= b.len() && b[i] == 0x55 && b[i + 1] == 0x48 && b[i + 2] == 0x8B && b[i
            + 3] == 0xEC
    } else {
        0 <= i && i + 3 <= b.len() && b[i] == 0x55 && b[i + 1] == 0x8B && b[i + 2] == 0xEC
    }
}

proof fn frame_is_prologue(arch: Arch, b: Seq<u8>, i: int)
    ensures
        le::occurs_at(b, i, strings::prologue(arch)) <==> frame_at(arch, b, i),
{
    let mark = strings::prologue(arch);
    occurring_stands(b, i, mark);
    if stands_at(b, i, mark) {
        assert(mark[0] == b[i + 0]);
        assert(mark[1] == b[i + 1]);
        assert(mark[2] == b[i + 2]);
        if arch == Arch::X64 {
            assert(mark[3] == b[i + 3]);
        }
    }
    if frame_at(arch, b, i) {
        assert forall|k: int| 0 <= k < mark.len() implies #[trigger] mark[k] == b[i + k] by {
            assert(k == 0 || k == 1 || k == 2 || k == 3);
        }
    }
}

proof fn last_is_last(arch: Arch, b: Seq<u8>, end: int)
    requires
        0 <= end,
    ensures
        match strings::last_occurrence(b, strings::prologue(arch), end) {
            Some(i) => 0 <= i < end && frame_at(arch, b, i) && forall|j: int|
                i < j < end ==> !#[trigger] frame_at(arch, b, j),
            None => forall|j: int| 0 <= j < end ==> !#[trigger] frame_at(arch, b, j),
        },
    decreases end,
{
    if end > 0 {
        frame_is_prologue(arch, b, end - 1);
        if !frame_at(arch, b, end - 1) {
            last_is_last(arch, b, end - 1);
        }
    }
}

/// How far back a frame is looked for: 1024 bytes, or to the start of the image.
pub open spec fn reach_of(site: int) -> int {
    if site >= 1024 {
        site - 1024
    } else {
        0
    }
}

/// The bytes in reach of a site, up to the end of a frame that starts at it.
pub open spec fn nearby(img: &ImageInput, site: int) -> Seq<u8> {
    img.bytes(
        img.base + reach_of(site),
        (site - reach_of(site) + if img.arch == Arch::X64 {
            4int
        } else {
            3
        }) as nat,
    )
}

/// A site is in the function whose frame is the nearest one that starts at it or at most 1024 bytes before
/// it; where there is none, the site stands for itself.
pub proof fn sites_are_in_the_nearest_frame(img: &ImageInput, site: int)
    requires
        0 <= site,
    ensures
        reach_of(site) <= strings::enclosing(img, site) <= site,
        strings::enclosing(img, site) < site ==> frame_at(
            img.arch,
            nearby(img, site),
            strings::enclosing(img, site) - reach_of(site),
        ),
        forall|j: int|
            strings::enclosing(img, site) < reach_of(site) + j && reach_of(site) + j <= site
                ==> !#[trigger] frame_at(img.arch, nearby(img, site), j),
        (exists|j: int|
            0 <= j && reach_of(site) + j <= site && #[trigger] frame_at(
                img.arch,
                nearby(img, site),
                j,
            )) ==> frame_at(
            img.arch,
            nearby(img, site),
            strings::enclosing(img, site) - reach_of(site),
        ),
{
    let from = reach_of(site);
    let mark = strings::prologue(img.arch);
    let b = img.bytes(img.base + from, (site - from + mark.len()) as nat);
    img.bytes_fit(img.base + from, (site - from + mark.len()) as nat);
    last_is_last(img.arch, b, b.len() as int);
    match strings::last_occurrence(b, mark, b.len() as int) {
        Some(i) => {
            assert forall|j: int| i < j implies !#[trigger] frame_at(img.arch, b, j) by {}
        },
        None => {
            assert forall|j: int| !#[trigger] frame_at(img.arch, b, j) by {}
        },
    }
}

proof fn first_is_first(b: Seq<u8>, needle: Seq<u8>, i: int)
    requires
        0 <= i,
        needle.len() > 0,
    ensures
        match strings::first_occurrence(b, needle, i) {
            Some(k) => i <= k && stands_at(b, k, needle) && forall|j: int|
                i <= j < k ==> !#[trigger] stands_at(b, j, needle),
            None => forall|j: int| i <= j ==> !#[trigger] stands_at(b, j, needle),
        },
    decreases b.len() - i,
{
    occurring_stands(b, i, needle);
    if i < b.len() && !stands_at(b, i, needle) {
        first_is_first(b, needle, i + 1);
    }
}

/// The text with a zero behind each byte.
pub open spec fn wide(b: Seq<u8>, w: Seq<u8>) -> bool {
    &&& w.len() == 2 * b.len()
    &&& forall|k: int| 0 <= k < b.len() ==> w[2 * k] == #[trigger] b[k] && w[2 * k + 1] == 0
}

/// Region number `i` holds the text, as it is or with wide characters.
pub open spec fn holds_text(img: &ImageInput, needle: Seq<u8>, i: int) -> bool {
    exists|k: int| #[trigger] text_at(img, needle, i, k)
}

/// The bytes of a region, code or not.
pub open spec fn data_in(img: &ImageInput, i: int) -> Seq<u8> {
    img.bytes(img.regions@[i].base as int, img.regions@[i].size as nat)
}

/// The text is at offset `k` of region `i`, as it is or with wide characters.
pub open spec fn text_at(img: &ImageInput, needle: Seq<u8>, i: int, k: int) -> bool {
    ||| stands_at(data_in(img, i), k, needle)
    ||| stands_at(data_in(img, i), k, strings::widened(needle))
}

/// `a` is where the text is taken from: in the first region from number `n` on that holds it, its first
/// place as it is, or where there is none its first place in wide characters.
pub open spec fn taken_at(img: &ImageInput, needle: Seq<u8>, n: int, i: int, a: int) -> bool {
    let k = a - img.regions@[i].base;
    let b = data_in(img, i);
    let w = strings::widened(needle);
    &&& n <= i < img.regions@.len()
    &&& forall|j: int| n <= j < i ==> !#[trigger] holds_text(img, needle, j)
    &&& (stands_at(b, k, needle) && forall|j: int| 0 <= j < k ==> !#[trigger] stands_at(b, j, needle))
        || (stands_at(b, k, w) && (forall|j: int| 0 <= j < k ==> !#[trigger] stands_at(b, j, w))
        && forall|j: int| !#[trigger] stands_at(b, j, needle))
}

/// `a` is where the text is taken from, looking from region number `n` on.
pub open spec fn found_text(img: &ImageInput, needle: Seq<u8>, n: int, a: int) -> bool {
    exists|i: int| #[trigger] taken_at(img, needle, n, i, a)
}

/// No region from number `n` on holds the text.
pub open spec fn no_text(img: &ImageInput, needle: Seq<u8>, n: int) -> bool {
    forall|j: int| n <= j < img.regions@.len() ==> !#[trigger] holds_text(img, needle, j)
}

proof fn string_is_in_the_first_region(img: &ImageInput, needle: Seq<u8>, n: int)
    requires
        0 <= n <= img.regions@.len(),
        needle.len() > 0,
    ensures
        strings::string_address(img, needle, n) matches Some(a) ==> found_text(img, needle, n, a),
        strings::string_address(img, needle, n) is None ==> no_text(img, needle, n),
    decreases img.regions@.len() - n,
{
    if n < img.regions@.len() {
        let b = data_in(img, n);
        let here = strings::string_address(img, needle, n);
        first_is_first(b, needle, 0);
        first_is_first(b, strings::widened(needle), 0);
        match strings::first_occurrence(b, needle, 0) {
            Some(i) => {
                assert(taken_at(img, needle, n, n, img.regions@[n].base + i));
                assert(here == Some(img.regions@[n].base + i));
            },
            None => {
                match strings::first_occurrence(b, strings::widened(needle), 0) {
                    Some(i) => {
                        assert forall|j: int| !#[trigger] stands_at(b, j, needle) by {}
                        assert(taken_at(img, needle, n, n, img.regions@[n].base + i));
                        assert(here == Some(img.regions@[n].base + i));
                    },
                    None => {
                        string_is_in_the_first_region(img, needle, n + 1);
                        assert forall|k: int| !#[trigger] text_at(img, needle, n, k) by {
                            if k < 0 {
                            } else {
                                assert(!stands_at(b, k, needle));
                                assert(!stands_at(b, k, strings::widened(needle)));
                            }
                        }
                        assert(!holds_text(img, needle, n));
                        if let Some(a) = strings::string_address(img, needle, n + 1) {
                            let i = choose|i: int| #[trigger] taken_at(img, needle, n + 1, i, a);
                            assert(taken_at(img, needle, n, i, a));
                        }
                        assert(here == strings::string_address(img, needle, n + 1));
                    },
                }
            },
        }
    }
}

/// A text is taken where it is in the first region that holds it, as it is or in wide characters; it has
/// no address only where no region holds it.
pub proof fn texts_are_found_in_the_first_region(img: &ImageInput, needle: Seq<u8>)
    requires
        needle.len() > 0,
    ensures
        wide(needle, strings::widened(needle)),
        strings::string_address(img, needle, 0) matches Some(a) ==> found_text(img, needle, 0, a),
        strings::string_address(img, needle, 0) is None ==> no_text(img, needle, 0),
{
    string_is_in_the_first_region(img, needle, 0);
    let w = strings::widened(needle);
    assert forall|k: int| 0 <= k < needle.len() implies w[2 * k] == #[trigger] needle[k] && w[2 * k + 1]
        == 0 by {
        assert((2 * k) % 2 == 0 && (2 * k) / 2 == k);
        assert((2 * k + 1) % 2 == 1);
    }
}

/// The four bytes at `i`, as a number.
pub open spec fn four(b: Seq<u8>, i: int) -> int {
    b[i] + 256 * b[i + 1] + 65536 * b[i + 2] + 16777216 * b[i + 3]
}

/// The four bytes at `i`, as a signed number.
pub open spec fn four_signed(b: Seq<u8>, i: int) -> int {
    if four(b, i) >= 2147483648 {
        four(b, i) - 4294967296
    } else {
        four(b, i)
    }
}

/// At offset `i` of code at `base` an address is mentioned: in x86 code its four bytes; in x64 code a
/// `lea` relative to the next instruction.
pub open spec fn mentions(b: Seq<u8>, base: int, address: int, arch: Arch, i: int) -> bool {
    if arch == Arch::X64 {
        0 <= i && i + 7 <= b.len() && (b[i] == 0x48 || b[i] == 0x4C) && b[i + 1] == 0x8D && b[i + 2] & 0xC7
            == 0x05 && base + i + 7 + four_signed(b, i + 3) == address
    } else {
        0 <= i && i + 4 <= b.len() && four(b, i) == address as u32
    }
}

proof fn mentioning_refers(b: Seq<u8>, base: int, address: int, arch: Arch, i: int)
    requires
        0 <= i,
    ensures
        strings::refers_at(b, base, address, arch, i) <==> mentions(b, base, address, arch, i),
{
    if arch == Arch::X64 {
        if i + 7 <= b.len() {
            let x = b[i];
            assert(x & 0xFB == 0x48 <==> (x == 0x48 || x == 0x4C)) by (bit_vector);
        }
    } else if i + 4 <= b.len() {
        let part = b.subrange(i, i + 4);
        let v = address as u32;
        le::le32_round_trip(v);
        if part == le::le32_bytes(v) {
            assert(part[0] == b[i] && part[1] == b[i + 1] && part[2] == b[i + 2] && part[3] == b[i + 3]);
        }
        if four(b, i) == v {
            digits_are_one(part, le::le32_bytes(v));
            assert(part =~= le::le32_bytes(v));
        }
    }
}

proof fn digits_are_one(x: Seq<u8>, y: Seq<u8>)
    requires
        x.len() == 4,
        y.len() == 4,
        le::le32(x, 0) == le::le32(y, 0),
    ensures
        x[0] == y[0] && x[1] == y[1] && x[2] == y[2] && x[3] == y[3],
{
}

/// Function `f` mentions the address in code region `i`.
pub open spec fn mentioned_in(img: &ImageInput, address: int, i: int, f: usize) -> bool {
    exists|k: int| #[trigger]
        mentions(code_in(img, i), img.code_regions@[i].base as int, address, img.arch, k) && f
            == strings::enclosing(
            img,
            img.code_regions@[i].base + k - img.base,
        ) as usize
}

proof fn sites_are_mentions(b: Seq<u8>, base: int, address: int, arch: Arch, i: int)
    requires
        0 <= i,
        0 <= base,
        base + b.len() <= usize::MAX,
    ensures
        forall|x: usize| #[trigger]
            strings::ref_sites_from(b, base, address, arch, i).contains(x) <==> (x - base >= i
                && mentions(b, base, address, arch, x - base)),
    decreases b.len() - i,
{
    let all = strings::ref_sites_from(b, base, address, arch, i);
    if i < b.len() {
        sites_are_mentions(b, base, address, arch, i + 1);
        mentioning_refers(b, base, address, arch, i);
        let rest = strings::ref_sites_from(b, base, address, arch, i + 1);
        assert forall|x: usize| #[trigger] all.contains(x) <==> (x - base >= i && mentions(
            b,
            base,
            address,
            arch,
            x - base,
        )) by {
            assert(rest.contains(x) <==> (x - base >= i + 1 && mentions(
                b,
                base,
                address,
                arch,
                x - base,
            )));
            if mentions(b, base, address, arch, i) {
                assert(all == seq![(base + i) as usize] + rest);
                if all.contains(x) {
                    let k = choose|k: int| 0 <= k < all.len() && all[k] == x;
                    if k > 0 {
                        assert(rest[k - 1] == x);
                        assert(rest.contains(x));
                    }
                }
                if rest.contains(x) {
                    let k = choose|k: int| 0 <= k < rest.len() && rest[k] == x;
                    assert(all[k + 1] == x);
                }
                if x == base + i {
                    assert(all[0] == x);
                }
            }
        }
    }
}

proof fn referrers_mention(img: &ImageInput, address: int, n: int)
    requires
        img.wf(),
        0 <= n <= img.code_regions@.len(),
    ensures
        forall|f: usize| #[trigger]
            strings::referrers(img, address, n).contains(f) <==> exists|i: int|
                0 <= i < n && #[trigger] mentioned_in(img, address, i, f),
        forall|i: int, j: int|
            0 <= i < j < strings::referrers(img, address, n).len() ==> (
            #[trigger] strings::referrers(img, address, n)[i]) < (#[trigger] strings::referrers(
                img,
                address,
                n,
            )[j]),
    decreases n,
{
    if n > 0 {
        referrers_mention(img, address, n - 1);
        let r = img.code_regions@[n - 1];
        let b = code_in(img, n - 1);
        img.bytes_fit(r.base as int, r.size as nat);
        sites_are_mentions(b, r.base as int, address, img.arch, 0);
        let before = strings::referrers(img, address, n - 1);
        let here = strings::referrers_in(img, r, address);
        let all = strings::referrers(img, address, n);
        let sites = strings::ref_sites_from(b, r.base as int, address, img.arch, 0);
        ordered::numbers_are_ordered();
        ordered::sorted_set_is_sorted(before, here, ordered::rising());
        assert forall|f: usize| here.contains(f) <==> mentioned_in(img, address, n - 1, f) by {
            if here.contains(f) {
                let k = choose|k: int| 0 <= k < here.len() && here[k] == f;
                assert(sites.contains(sites[k]));
                assert(mentions(b, r.base as int, address, img.arch, sites[k] - r.base));
                assert(r.base + (sites[k] - r.base) - img.base == sites[k] - img.base);
            }
            if mentioned_in(img, address, n - 1, f) {
                let k = choose|k: int| #[trigger]
                    mentions(b, r.base as int, address, img.arch, k) && f == strings::enclosing(
                        img,
                        r.base + k - img.base,
                    ) as usize;
                let x = (r.base + k) as usize;
                assert(x - r.base == k);
                assert(sites.contains(x));
                let j = choose|j: int| 0 <= j < sites.len() && sites[j] == x;
                assert(here[j] == f);
            }
        }
        assert forall|f: usize| #[trigger] all.contains(f) <==> exists|i: int|
            0 <= i < n && #[trigger] mentioned_in(img, address, i, f) by {
            assert(all.contains(f) <==> (before.contains(f) || here.contains(f)));
            if exists|i: int| 0 <= i < n && #[trigger] mentioned_in(img, address, i, f) {
                let i = choose|i: int| 0 <= i < n && #[trigger] mentioned_in(img, address, i, f);
                if i < n - 1 {
                    assert(before.contains(f));
                }
            }
        }
    }
}

/// Function `f` uses the text: its code mentions where the text is.
pub open spec fn uses_text(img: &ImageInput, text: Seq<char>, f: usize) -> bool {
    strings::string_address(img, encode_utf8(text), 0) matches Some(a) && exists|i: int|
        0 <= i < img.code_regions@.len() && #[trigger] mentioned_in(img, a, i, f)
}

/// The users of a text are exactly the functions whose code mentions it, each once and in order.
pub proof fn users_mention_the_text(img: &ImageInput, text: Seq<char>)
    requires
        img.wf(),
    ensures
        match strings::users_of(img, encode_utf8(text)) {
            Some(set) => {
                &&& set.len() > 0
                &&& forall|f: usize| #[trigger] set.contains(f) <==> uses_text(img, text, f)
                &&& forall|i: int, j: int|
                    0 <= i < j < set.len() ==> #[trigger] set[i] < #[trigger] set[j]
            },
            None => forall|f: usize| !#[trigger] uses_text(img, text, f),
        },
{
    if let Some(a) = strings::string_address(img, encode_utf8(text), 0) {
        let n = img.code_regions@.len() as int;
        referrers_mention(img, a, n);
        let set = strings::referrers(img, a, n);
        assert forall|f: usize| set.contains(f) <==> #[trigger] uses_text(img, text, f) by {}
    }
}

proof fn shared_is_both(a: Seq<usize>, b: Seq<usize>)
    ensures
        forall|f: usize| #[trigger]
            strings::shared(a, b).contains(f) <==> a.contains(f) && b.contains(f),
        a.no_duplicates() ==> strings::shared(a, b).no_duplicates(),
        strings::shared(a, b).len() <= a.len(),
    decreases a.len(),
{
    if a.len() > 0 {
        let d = a.drop_last();
        shared_is_both(d, b);
        let before = strings::shared(d, b);
        let all = strings::shared(a, b);
        assert forall|f: usize| #[trigger] all.contains(f) <==> a.contains(f) && b.contains(f) by {
            assert(before.contains(f) <==> d.contains(f) && b.contains(f));
            if a.contains(f) {
                let k = choose|k: int| 0 <= k < a.len() && a[k] == f;
                if k < d.len() {
                    assert(d[k] == f);
                }
            }
            if d.contains(f) {
                let k = choose|k: int| 0 <= k < d.len() && d[k] == f;
                assert(a[k] == f);
            }
            assert(a[a.len() - 1] == a.last());
            if b.contains(a.last()) {
                assert(all == before.push(a.last()));
                if before.contains(f) {
                    let k = choose|k: int| 0 <= k < before.len() && before[k] == f;
                    assert(all[k] == f);
                }
                if f == a.last() {
                    assert(all[before.len() as int] == f);
                }
                if all.contains(f) {
                    let k = choose|k: int| 0 <= k < all.len() && all[k] == f;
                    if k < before.len() {
                        assert(before[k] == f);
                    }
                }
            }
        }
        if a.no_duplicates() {
            assert forall|i: int, j: int| 0 <= i < d.len() && 0 <= j < d.len() && i != j implies d[i]
                != d[j] by {
                assert(a[i] != a[j]);
            }
            if b.contains(a.last()) {
                assert(!before.contains(a.last())) by {
                    if before.contains(a.last()) {
                        assert(d.contains(a.last()));
                        let k = choose|k: int| 0 <= k < d.len() && d[k] == a.last();
                        assert(a[k] == a[a.len() - 1]);
                    }
                }
                assert forall|i: int, j: int|
                    0 <= i < all.len() && 0 <= j < all.len() && i != j implies all[i] != all[j] by {
                    if i < before.len() && j < before.len() {
                    } else if i < before.len() {
                        assert(before.contains(before[i]));
                    } else {
                        assert(before.contains(before[j]));
                    }
                }
            }
        }
    }
}

/// Function `f` uses all that the anchor names: its text, and the second one where there is one.
pub open spec fn uses_anchor(img: &ImageInput, a: StringAnchorV, f: usize) -> bool {
    uses_text(img, a.text, f) && (a.also matches Some(second) ==> uses_text(img, second, f))
}

/// A string anchor leads to a function exactly where that function and no other uses its text, or both of
/// its texts.
pub proof fn string_anchors_lead_to_the_only_user(img: &ImageInput, a: StringAnchorV)
    requires
        img.wf(),
    ensures
        match strings::anchored(img, a) {
            Some(f) => uses_anchor(img, a, f) && forall|g: usize| #[trigger]
                uses_anchor(img, a, g) ==> g == f,
            None => (forall|f: usize| !#[trigger] uses_anchor(img, a, f)) || exists|f: usize, g: usize|
                f != g && #[trigger] uses_anchor(img, a, f) && #[trigger] uses_anchor(img, a, g),
        },
{
    users_mention_the_text(img, a.text);
    if let Some(second) = a.also {
        users_mention_the_text(img, second);
    }
    if let Some(primary) = strings::users_of(img, encode_utf8(a.text)) {
        assert(primary.no_duplicates()) by {
            assert forall|i: int, j: int|
                0 <= i < primary.len() && 0 <= j < primary.len() && i != j implies primary[i]
                != primary[j] by {
                if i < j {
                    assert(primary[i] < primary[j]);
                } else {
                    assert(primary[j] < primary[i]);
                }
            }
        }
        match a.also {
            None => {
                only_is_one(primary);
                assert forall|f: usize| #[trigger] uses_anchor(img, a, f) <==> primary.contains(f) by {}
                if strings::only(primary) is None && primary.len() > 1 {
                    assert(primary[0] < primary[1]);
                    assert(primary.contains(primary[0]));
                    assert(primary.contains(primary[1]));
                    assert(uses_anchor(img, a, primary[0]) && uses_anchor(img, a, primary[1]));
                }
                if let Some(f) = strings::only(primary) {
                    assert(primary.contains(f));
                }
            },
            Some(second) => {
                if let Some(secondary) = strings::users_of(img, encode_utf8(second)) {
                    let both = strings::shared(primary, secondary);
                    shared_is_both(primary, secondary);
                    only_is_one(both);
                    assert forall|f: usize| #[trigger] uses_anchor(img, a, f) <==> both.contains(f) by {
                        assert(primary.contains(f) <==> uses_text(img, a.text, f));
                        assert(secondary.contains(f) <==> uses_text(img, second, f));
                        assert(both.contains(f) <==> primary.contains(f) && secondary.contains(f));
                    }
                    if strings::only(both) is None && both.len() > 1 {
                        assert(both[0] != both[1]);
                        assert(both.contains(both[0]));
                        assert(both.contains(both[1]));
                        assert(uses_anchor(img, a, both[0]) && uses_anchor(img, a, both[1]));
                    }
                    if let Some(f) = strings::only(both) {
                        assert(both.contains(f));
                    }
                    if both.len() == 0 {
                        assert forall|f: usize| !#[trigger] uses_anchor(img, a, f) by {
                            assert(!both.contains(f));
                        }
                    }
                }
            },
        }
    }
}

proof fn only_is_one(s: Seq<usize>)
    ensures
        strings::only(s) matches Some(f) ==> s.contains(f) && forall|g: usize| #[trigger]
            s.contains(g) ==> g == f,
        strings::only(s) is None ==> s.len() == 0 || s.len() >= 2,
{
    if s.len() == 1 {
        assert(s[0] == strings::only(s)->0);
    }
}

/// The bytes are at offset `k` of code region `i`.
pub open spec fn is_in_code(img: &ImageInput, needle: Seq<u8>, i: int, k: int) -> bool {
    0 <= i < img.code_regions@.len() && stands_at(code_in(img, i), k, needle)
}

/// The function around offset `k` of code region `i`.
pub open spec fn owner(img: &ImageInput, i: int, k: int) -> usize {
    strings::enclosing(img, img.code_regions@[i].base + k - img.base) as usize
}

/// What is known of the functions around the bytes, from all regions before `n` and the first `m` offsets
/// of region `n`.
spec fn owned(img: &ImageInput, needle: Seq<u8>, n: int, m: int, h: Holder) -> bool {
    match h {
        Holder::Nowhere => forall|i: int, k: int|
            (i < n || (i == n && k < m)) ==> !#[trigger] is_in_code(img, needle, i, k),
        Holder::In(f) => (exists|i: int, k: int|
            (i < n || (i == n && k < m)) && #[trigger] is_in_code(img, needle, i, k)) && forall|
            i: int,
            k: int,
        |
            (i < n || (i == n && k < m)) && #[trigger] is_in_code(img, needle, i, k) ==> owner(
                img,
                i,
                k,
            ) == f,
        Holder::Ambiguous => exists|i: int, k: int, j: int, q: int|
            (i < n || (i == n && k < m)) && (j < n || (j == n && q < m)) && #[trigger] is_in_code(
                img,
                needle,
                i,
                k,
            ) && #[trigger] is_in_code(img, needle, j, q) && owner(img, i, k) != owner(img, j, q),
    }
}

proof fn owned_goes_on(img: &ImageInput, needle: Seq<u8>, n: int, m: int, h: Holder)
    requires
        0 <= n < img.code_regions@.len(),
        0 <= m,
        owned(img, needle, n, m, h),
    ensures
        owned(
            img,
            needle,
            n,
            m + 1,
            if is_in_code(img, needle, n, m) {
                constants::joined(h, owner(img, n, m))
            } else {
                h
            },
        ),
{
    if is_in_code(img, needle, n, m) {
        match h {
            Holder::Nowhere => {},
            Holder::In(p) => {
                let (i, k) = choose|i: int, k: int|
                    (i < n || (i == n && k < m)) && #[trigger] is_in_code(img, needle, i, k);
                assert(is_in_code(img, needle, i, k));
                if p != owner(img, n, m) {
                    assert(owner(img, i, k) != owner(img, n, m));
                }
            },
            Holder::Ambiguous => {
                let (i, k, j, q) = choose|i: int, k: int, j: int, q: int|
                    (i < n || (i == n && k < m)) && (j < n || (j == n && q < m))
                        && #[trigger] is_in_code(img, needle, i, k) && #[trigger] is_in_code(
                        img,
                        needle,
                        j,
                        q,
                    ) && owner(img, i, k) != owner(img, j, q);
                assert(is_in_code(img, needle, i, k) && is_in_code(img, needle, j, q));
            },
        }
    } else {
        assert forall|i: int, k: int|
            (i < n || (i == n && k < m + 1)) && #[trigger] is_in_code(img, needle, i, k) implies (i < n
            || (i == n && k < m)) by {}
        if h is Ambiguous {
            let (i, k, j, q) = choose|i: int, k: int, j: int, q: int|
                (i < n || (i == n && k < m)) && (j < n || (j == n && q < m)) && #[trigger] is_in_code(
                    img,
                    needle,
                    i,
                    k,
                ) && #[trigger] is_in_code(img, needle, j, q) && owner(img, i, k) != owner(img, j, q);
            assert(is_in_code(img, needle, i, k) && is_in_code(img, needle, j, q));
        }
        if h is In {
            let (i, k) = choose|i: int, k: int|
                (i < n || (i == n && k < m)) && #[trigger] is_in_code(img, needle, i, k);
            assert(is_in_code(img, needle, i, k));
        }
    }
}

proof fn holder_in_region(img: &ImageInput, needle: Seq<u8>, n: int, m: int)
    requires
        0 <= n < img.code_regions@.len(),
        0 <= m <= code_in(img, n).len(),
        owned(img, needle, n, 0, constants::holder_in(img, needle, n)),
    ensures
        owned(
            img,
            needle,
            n,
            m,
            constants::holder_before(
                img,
                constants::holder_in(img, needle, n),
                code_in(img, n),
                img.code_regions@[n].base as int,
                needle,
                m,
            ),
        ),
    decreases m,
{
    if m > 0 {
        holder_in_region(img, needle, n, m - 1);
        occurring_stands(code_in(img, n), m - 1, needle);
        let h = constants::holder_before(
            img,
            constants::holder_in(img, needle, n),
            code_in(img, n),
            img.code_regions@[n].base as int,
            needle,
            m - 1,
        );
        owned_goes_on(img, needle, n, m - 1, h);
    }
}

proof fn holder_is_owner(img: &ImageInput, needle: Seq<u8>, n: int)
    requires
        0 <= n <= img.code_regions@.len(),
        needle.len() > 0,
    ensures
        owned(img, needle, n, 0, constants::holder_in(img, needle, n)),
    decreases n,
{
    if n > 0 {
        holder_is_owner(img, needle, n - 1);
        let b = code_in(img, n - 1);
        let m = b.len() as int;
        holder_in_region(img, needle, n - 1, m);
        let h = constants::holder_in(img, needle, n);
        assert forall|i: int, k: int|
            (i < n || (i == n && k < 0)) && #[trigger] is_in_code(img, needle, i, k) implies (i < n - 1
            || (i == n - 1 && k < m)) by {}
        if h is Ambiguous {
            let (i, k, j, q) = choose|i: int, k: int, j: int, q: int|
                (i < n - 1 || (i == n - 1 && k < m)) && (j < n - 1 || (j == n - 1 && q < m))
                    && #[trigger] is_in_code(img, needle, i, k) && #[trigger] is_in_code(
                    img,
                    needle,
                    j,
                    q,
                ) && owner(img, i, k) != owner(img, j, q);
            assert(is_in_code(img, needle, i, k) && is_in_code(img, needle, j, q));
        }
        if h is In {
            let (i, k) = choose|i: int, k: int|
                (i < n - 1 || (i == n - 1 && k < m)) && #[trigger] is_in_code(img, needle, i, k);
            assert(is_in_code(img, needle, i, k));
        }
    }
}

/// The bytes a value is looked for by: least significant first, four of them where they hold it and eight
/// otherwise.
pub open spec fn spelled(value: u64, b: Seq<u8>) -> bool {
    &&& value < 0x1_0000_0000 ==> b.len() == 4 && four(b, 0) == value
    &&& value >= 0x1_0000_0000 ==> b.len() == 8 && four(b, 0) + 0x1_0000_0000 * four(b, 4) == value
}

/// A constant leads to a function exactly where its bytes are in the code and every place of them is in
/// that function.
pub proof fn constants_lead_to_their_only_function(img: &ImageInput, value: u64)
    ensures
        ({
            let b = constants::bytes_of(value);
            &&& spelled(value, b)
            &&& match constants::constant_anchored(img, value) {
                Some(f) => (exists|i: int, k: int| #[trigger] is_in_code(img, b, i, k)) && forall|
                    i: int,
                    k: int,
                | #[trigger]
                    is_in_code(img, b, i, k) ==> owner(img, i, k) == f,
                None => (forall|i: int, k: int| !#[trigger] is_in_code(img, b, i, k)) || exists|
                    i: int,
                    k: int,
                    j: int,
                    q: int,
                | #[trigger]
                    is_in_code(img, b, i, k) && #[trigger] is_in_code(img, b, j, q) && owner(
                        img,
                        i,
                        k,
                    ) != owner(img, j, q),
            }
        }),
{
    let b = constants::bytes_of(value);
    let n = img.code_regions@.len() as int;
    if value < 0x1_0000_0000 {
        le::le32_round_trip(value as u32);
    } else {
        let lo = (value % 0x1_0000_0000) as u32;
        let hi = (value / 0x1_0000_0000) as u32;
        le::le32_round_trip(lo);
        le::le32_round_trip(hi);
        let x = le::le32_bytes(lo);
        let y = le::le32_bytes(hi);
        assert(b == x + y);
        assert(b[0] == x[0] && b[1] == x[1] && b[2] == x[2] && b[3] == x[3]);
        assert(b[4] == y[0] && b[5] == y[1] && b[6] == y[2] && b[7] == y[3]);
    }
    holder_is_owner(img, b, n);
    match constants::holder_in(img, b, n) {
        Holder::Nowhere => {
            assert forall|i: int, k: int| !#[trigger] is_in_code(img, b, i, k) by {}
        },
        Holder::In(f) => {
            assert forall|i: int, k: int| #[trigger] is_in_code(img, b, i, k) implies owner(img, i, k)
                == f by {
                assert(i < n);
            }
        },
        Holder::Ambiguous => {},
    }
}

}
