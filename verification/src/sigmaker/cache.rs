//! The code of a build, read once, and where a pattern occurs in it.

use crate::pattern::Signature;
use crate::scanner;
use crate::scanner::{find_all, CompiledPattern};
use crate::sigmaker::types::ImageInput;
use vstd::prelude::*;

verus! {

/// Code regions by their base address and bytes.
pub type RegionsV = Seq<(usize, Seq<u8>)>;

/// The code of an image.
pub open spec fn code_of(img: &ImageInput) -> RegionsV {
    Seq::new(
        img.code_regions@.len(),
        |i: int|
            (
                img.code_regions@[i].base,
                img.bytes(img.code_regions@[i].base as int, img.code_regions@[i].size as nat),
            ),
    )
}

/// The occurrences of a pattern in one region, as RVAs.
pub open spec fn region_sightings(
    image_base: int,
    region: (usize, Seq<u8>),
    bytes: Seq<u8>,
    mask: Seq<bool>,
) -> Seq<u64> {
    let at = scanner::hits(region.1, bytes, mask);
    Seq::new(at.len(), |k: int| (region.0 + at[k] - image_base) as u64)
}

/// The occurrences of a pattern in the first `n` regions, as RVAs, in order.
pub open spec fn sightings(
    image_base: int,
    regions: RegionsV,
    bytes: Seq<u8>,
    mask: Seq<bool>,
    n: int,
) -> Seq<u64>
    decreases n,
{
    if n <= 0 {
        Seq::empty()
    } else {
        sightings(image_base, regions, bytes, mask, n - 1) + region_sightings(
            image_base,
            regions[n - 1],
            bytes,
            mask,
        )
    }
}

/// The least of some numbers.
pub open spec fn least_of(s: Seq<u64>) -> Option<u64>
    decreases s.len(),
{
    if s.len() == 0 {
        None
    } else {
        match least_of(s.drop_last()) {
            None => Some(s.last()),
            Some(m) => if s.last() < m {
                Some(s.last())
            } else {
                Some(m)
            },
        }
    }
}

/// A number as far as it can be counted.
pub open spec fn counted(n: nat) -> usize {
    if n <= usize::MAX {
        n as usize
    } else {
        usize::MAX
    }
}

/// How often a pattern occurs in the code of an image, and the least RVA at which it does.
pub open spec fn located(img: &ImageInput, bytes: Seq<u8>, mask: Seq<bool>) -> (usize, Option<u64>) {
    let all = sightings(
        img.base as int,
        code_of(img),
        bytes,
        mask,
        img.code_regions@.len() as int,
    );
    (counted(all.len()), least_of(all))
}

/// A pattern is found only in code.
pub proof fn located_is_in_code(img: &ImageInput, bytes: Seq<u8>, mask: Seq<bool>)
    requires
        img.wf(),
        bytes.len() > 0,
    ensures
        located(img, bytes, mask).1 matches Some(rva) ==> img.in_code(img.base + rva)
            && img.reaches(rva as int),
{
    let n = img.code_regions@.len() as int;
    let all = sightings(img.base as int, code_of(img), bytes, mask, n);
    sightings_are_in_code(img, bytes, mask, n);
    least_is_one(all);
}

proof fn least_is_one(s: Seq<u64>)
    ensures
        least_of(s) matches Some(m) ==> s.contains(m),
    decreases s.len(),
{
    if s.len() > 0 {
        least_is_one(s.drop_last());
        assert(s[s.len() - 1] == s.last());
        if least_of(s.drop_last()) is Some {
            let m = least_of(s.drop_last())->0;
            let k = choose|k: int| 0 <= k < s.drop_last().len() && s.drop_last()[k] == m;
            assert(s[k] == m);
        }
    }
}

proof fn sightings_are_in_code(img: &ImageInput, bytes: Seq<u8>, mask: Seq<bool>, n: int)
    requires
        img.wf(),
        bytes.len() > 0,
        n <= img.code_regions@.len(),
    ensures
        forall|x: u64| #[trigger]
            sightings(img.base as int, code_of(img), bytes, mask, n).contains(x) ==> img.in_code(
                img.base + x,
            ) && img.reaches(x as int),
    decreases n,
{
    let all = sightings(img.base as int, code_of(img), bytes, mask, n);
    if n > 0 {
        sightings_are_in_code(img, bytes, mask, n - 1);
        let before = sightings(img.base as int, code_of(img), bytes, mask, n - 1);
        let r = img.code_regions@[n - 1];
        let b = img.bytes(r.base as int, r.size as nat);
        let here = region_sightings(img.base as int, (r.base, b), bytes, mask);
        scanner::hits_are_the_matches(b, 0, bytes, mask);
        img.bytes_fit(r.base as int, r.size as nat);
        assert forall|x: u64| #[trigger] all.contains(x) implies img.in_code(img.base + x)
            && img.reaches(x as int) by {
            let k = choose|k: int| 0 <= k < all.len() && all[k] == x;
            if k < before.len() {
                assert(before[k] == x);
                assert(before.contains(x));
            } else {
                let off = scanner::hits(b, bytes, mask)[k - before.len()];
                assert(x == here[k - before.len()]);
                assert(r.holds(img.base + x));
            }
        }
    }
}

/// The code of a build, read once.
pub struct CodeCache {
    pub image_base: usize,
    pub regions: Vec<(usize, Vec<u8>)>,
}

impl CodeCache {
    /// The cache holds the code of the image.
    pub open spec fn caches(&self, img: &ImageInput) -> bool {
        &&& self.image_base == img.base
        &&& self.regions.deep_view() == code_of(img)
        &&& self.regions@.len() == img.code_regions@.len()
    }

    /// No region starts below the image or leaves the address space.
    pub open spec fn wf(&self) -> bool {
        forall|i: int|
            0 <= i < self.regions@.len() ==> self.image_base <= (#[trigger] self.regions@[i]).0
                && self.regions@[i].0 + self.regions@[i].1@.len() <= usize::MAX
    }

    /// Read the code of an image.
    pub fn build(img: &ImageInput) -> (c: Self)
        requires
            img.wf(),
        ensures
            c.caches(img),
            c.wf(),
    {
        let mut regions: Vec<(usize, Vec<u8>)> = Vec::new();
        let ghost all = code_of(img);
        let mut i: usize = 0;
        assert(regions.deep_view() =~= all.take(0));
        while i < img.code_regions.len()
            invariant
                img.wf(),
                all == code_of(img),
                i <= img.code_regions@.len(),
                regions.deep_view() == all.take(i as int),
                forall|k: int|
                    0 <= k < regions@.len() ==> img.base <= (#[trigger] regions@[k]).0
                        && regions@[k].0 + regions@[k].1@.len() <= usize::MAX,
            decreases img.code_regions@.len() - i,
        {
            let r = img.code_regions[i];
            let b = img.read(r.base, r.size);
            let ghost before = regions.deep_view();
            regions.push((r.base, b));
            i += 1;
            proof {
                assert(b.deep_view() =~= b@);
                assert(regions.deep_view() =~= before.push((r.base, b@)));
                assert(regions.deep_view() =~= all.take(i as int));
            }
        }
        assert(all.take(i as int) =~= all);
        CodeCache { image_base: img.base, regions }
    }

    /// How often a pattern occurs, and the least RVA at which it does.
    pub fn locate(&self, pat: &CompiledPattern) -> (r: (usize, Option<u64>))
        requires
            pat.wf(),
            self.wf(),
        ensures
            ({
                let all = sightings(
                    self.image_base as int,
                    self.regions.deep_view(),
                    pat.bytes@,
                    pat.mask@,
                    self.regions@.len() as int,
                );
                r == (counted(all.len()), least_of(all))
            }),
    {
        let ghost rv = self.regions.deep_view();
        let mut count: usize = 0;
        let mut first: Option<u64> = None;
        let mut n: usize = 0;
        while n < self.regions.len()
            invariant
                pat.wf(),
                self.wf(),
                rv == self.regions.deep_view(),
                n <= self.regions@.len(),
                ({
                    let all = sightings(
                        self.image_base as int,
                        rv,
                        pat.bytes@,
                        pat.mask@,
                        n as int,
                    );
                    (count, first) == (counted(all.len()), least_of(all))
                }),
            decreases self.regions@.len() - n,
        {
            let ghost before = sightings(
                self.image_base as int,
                rv,
                pat.bytes@,
                pat.mask@,
                n as int,
            );
            let ghost here = region_sightings(
                self.image_base as int,
                rv[n as int],
                pat.bytes@,
                pat.mask@,
            );
            let base: usize = self.regions[n].0;
            let bytes = &self.regions[n].1;
            proof {
                assert(rv[n as int] == (self.regions@[n as int].0, bytes.deep_view()));
                assert(bytes.deep_view() =~= bytes@);
                scanner::hits_are_the_matches(bytes@, 0, pat.bytes@, pat.mask@);
            }
            let at = find_all(bytes.as_slice(), pat);
            let ghost hits = scanner::hits(bytes@, pat.bytes@, pat.mask@);
            let mut k: usize = 0;
            assert(before + here.take(0) =~= before);
            while k < at.len()
                invariant
                    pat.wf(),
                    self.wf(),
                    n < self.regions@.len(),
                    base == self.regions@[n as int].0,
                    bytes@ == self.regions@[n as int].1@,
                    at@.map_values(|o: usize| o as int) == hits,
                    forall|i: int| 0 <= i < hits.len() ==> 0 <= #[trigger] hits[i] < bytes@.len(),
                    here == Seq::new(
                        hits.len(),
                        |k: int| (base + hits[k] - self.image_base) as u64,
                    ),
                    k <= at@.len(),
                    (count, first) == (
                        counted((before + here.take(k as int)).len()),
                        least_of(before + here.take(k as int)),
                    ),
                decreases at@.len() - k,
            {
                proof {
                    assert(hits[k as int] == at@.map_values(|o: usize| o as int)[k as int]);
                    let next = before + here.take(k + 1);
                    assert(next.drop_last() =~= before + here.take(k as int));
                }
                let rva: u64 = (base + at[k] - self.image_base) as u64;
                count = count.saturating_add(1);
                first = match first {
                    None => Some(rva),
                    Some(m) => if rva < m {
                        Some(rva)
                    } else {
                        Some(m)
                    },
                };
                k += 1;
            }
            assert(here.take(k as int) =~= here);
            n += 1;
        }
        (count, first)
    }

    /// How often the bytes fixed by `mask` occur, and the least RVA at which they do.
    pub fn locate_masked(&self, bytes: &[u8], mask: &Vec<bool>) -> (r: (usize, Option<u64>))
        requires
            bytes@.len() > 0,
            bytes@.len() == mask@.len(),
            self.wf(),
        ensures
            ({
                let all = sightings(
                    self.image_base as int,
                    self.regions.deep_view(),
                    bytes@,
                    mask@,
                    self.regions@.len() as int,
                );
                r == (counted(all.len()), least_of(all))
            }),
    {
        let sig = signature_of(bytes, mask);
        match CompiledPattern::new(&sig) {
            Some(pat) => self.locate(&pat),
            None => (0, None),
        }
    }
}

/// The signature of some bytes.
pub fn signature_of(bytes: &[u8], mask: &Vec<bool>) -> (sig: Signature)
    requires
        bytes@.len() == mask@.len(),
    ensures
        sig.wf(),
        sig.bytes@ == bytes@,
        sig.mask@ == mask@,
{
    let m = mask.clone();
    assert(m@ =~= mask@);
    Signature { bytes: vstd::slice::slice_to_vec(bytes), mask: m }
}

/// The written form of some bytes.
pub fn aob_of(bytes: &[u8], mask: &Vec<bool>) -> (s: String)
    requires
        bytes@.len() == mask@.len(),
    ensures
        s@ == crate::pattern::aob_text(bytes@, mask@),
{
    signature_of(bytes, mask).to_aob()
}

}
