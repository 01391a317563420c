//! The stamp of a build: a hash of its code, how much code there is, and the timestamp of its header. A
//! dump carries it in a header line, from which it is read back.

use crate::le;
use crate::le::{get_u32, u32_at};
use crate::memory;
use crate::memory::{MemorySource, Region};
use crate::sigmaker::identity;
use crate::sigmaker::identity::{fnv_fold, FNV_OFFSET};
use crate::sigmaker::types;
use crate::sigmaker::types::starting;
use crate::text;
use crate::text::{chars_of, push_dec, push_hex_fixed, read_number, skip_white, starts_with, text_of};
use crate::text::{white, word_end};
use vstd::prelude::*;
use vstd::slice::slice_subrange;
use vstd::string::*;

verus! {

/// What tells one build from another.
#[derive(Debug, Clone, PartialEq, Eq)]
pub struct BuildStamp {
    pub hash: u64,
    pub bytes: u64,
    pub timestamp: u32,
    pub version: Option<String>,
}

/// A [`BuildStamp`] by its content.
#[verifier::ext_equal]
pub struct BuildStampV {
    pub hash: u64,
    pub bytes: u64,
    pub timestamp: u32,
    pub version: Option<Seq<char>>,
}

impl DeepView for BuildStamp {
    type V = BuildStampV;

    open spec fn deep_view(&self) -> BuildStampV {
        BuildStampV {
            hash: self.hash,
            bytes: self.bytes,
            timestamp: self.timestamp,
            version: self.version.deep_view(),
        }
    }
}

/// How many bytes one read asks for at most.
pub const CHUNK: usize = 0x10_0000;

/// What reads of at most [`CHUNK`] bytes collect from `address` on, until `len` bytes are there or a read
/// delivers nothing.
pub open spec fn streamed(reads: memory::Reads, address: int, len: nat) -> Seq<u8>
    decreases len,
{
    let want = if len < CHUNK {
        len
    } else {
        CHUNK as nat
    };
    let got = reads(address as usize, want);
    if len == 0 || got.len() == 0 || got.len() > want {
        Seq::empty()
    } else {
        got + streamed(reads, address + got.len(), (len - got.len()) as nat)
    }
}

/// A region behind all that do not start after it.
pub open spec fn region_in(s: Seq<Region>, x: Region) -> Seq<Region>
    decreases s.len(),
{
    if s.len() == 0 || s.last().base <= x.base {
        s.push(x)
    } else {
        region_in(s.drop_last(), x).push(s.last())
    }
}

/// The regions by their start, those that start alike as they came.
pub open spec fn by_base(regions: Seq<Region>) -> Seq<Region>
    decreases regions.len(),
{
    if regions.len() == 0 {
        Seq::empty()
    } else {
        region_in(by_base(regions.drop_last()), regions.last())
    }
}

/// What is read of the first `n` regions.
pub open spec fn code_read(reads: memory::Reads, regions: Seq<Region>, n: int) -> Seq<u8>
    decreases n,
{
    if n <= 0 {
        Seq::empty()
    } else {
        code_read(reads, regions, n - 1) + streamed(
            reads,
            regions[n - 1].base as int,
            regions[n - 1].size as nat,
        )
    }
}

/// The code of a build: what is read of its regions from the lowest up.
pub open spec fn code_of(reads: memory::Reads, regions: Seq<Region>) -> Seq<u8> {
    code_read(reads, by_base(regions), regions.len() as int)
}

/// The regions lie in the address space.
pub open spec fn regions_fit(regions: Seq<Region>) -> bool {
    forall|i: int|
        0 <= i < regions.len() ==> (#[trigger] regions[i]).base + regions[i].size <= usize::MAX
}

proof fn region_in_keeps(s: Seq<Region>, x: Region)
    requires
        regions_fit(s),
        x.base + x.size <= usize::MAX,
    ensures
        regions_fit(region_in(s, x)),
        region_in(s, x).len() == s.len() + 1,
        types::total_size(region_in(s, x)) == types::total_size(s) + x.size,
    decreases s.len(),
{
    if s.len() == 0 || s.last().base <= x.base {
        assert(s.push(x).drop_last() =~= s);
    } else {
        assert(s[s.len() - 1].base + s[s.len() - 1].size <= usize::MAX);
        region_in_keeps(s.drop_last(), x);
        let front = region_in(s.drop_last(), x);
        assert(front.push(s.last()).drop_last() =~= front);
    }
}

proof fn by_base_keeps(regions: Seq<Region>)
    requires
        regions_fit(regions),
    ensures
        regions_fit(by_base(regions)),
        by_base(regions).len() == regions.len(),
        types::total_size(by_base(regions)) == types::total_size(regions),
    decreases regions.len(),
{
    if regions.len() > 0 {
        by_base_keeps(regions.drop_last());
        assert(regions[regions.len() - 1].base + regions[regions.len() - 1].size <= usize::MAX);
        region_in_keeps(by_base(regions.drop_last()), regions.last());
    }
}

/// Each region starts before the later ones.
pub open spec fn rising(s: Seq<Region>) -> bool {
    forall|i: int, j: int| 0 <= i < j < s.len() ==> (#[trigger] s[i]).base < (#[trigger] s[j]).base
}

/// No two regions start alike.
pub open spec fn distinct_bases(s: Seq<Region>) -> bool {
    forall|i: int, j: int| 0 <= i < j < s.len() ==> (#[trigger] s[i]).base != (#[trigger] s[j]).base
}

proof fn region_in_rises(s: Seq<Region>, x: Region)
    requires
        rising(s),
        forall|i: int| 0 <= i < s.len() ==> (#[trigger] s[i]).base != x.base,
    ensures
        rising(region_in(s, x)),
        forall|y: Region| (#[trigger] region_in(s, x).contains(y)) <==> (s.contains(y) || y == x),
        forall|i: int|
            0 <= i < region_in(s, x).len() ==> (#[trigger] region_in(s, x)[i]) == x || s.contains(
                region_in(s, x)[i],
            ),
    decreases s.len(),
{
    let all = region_in(s, x);
    if s.len() == 0 || s.last().base <= x.base {
        assert forall|i: int, j: int| 0 <= i < j < all.len() implies (#[trigger] all[i]).base < (
        #[trigger] all[j]).base by {
            if j == s.len() {
                assert(s[i].base != x.base);
                assert(s[i].base <= s[s.len() - 1].base);
            }
        }
        assert forall|y: Region| (#[trigger] all.contains(y)) <==> (s.contains(y) || y == x) by {
            if s.contains(y) {
                let k = choose|k: int| 0 <= k < s.len() && s[k] == y;
                assert(all[k] == y);
            }
            assert(all[s.len() as int] == x);
        }
    } else {
        let d = s.drop_last();
        assert forall|i: int| 0 <= i < d.len() implies (#[trigger] d[i]).base != x.base by {
            assert(s[i].base != x.base);
        }
        region_in_rises(d, x);
        let front = region_in(d, x);
        assert forall|i: int| 0 <= i < front.len() implies (#[trigger] front[i]).base < s.last().base by {
            if front[i] != x {
                let k = choose|k: int| 0 <= k < d.len() && d[k] == front[i];
                assert(s[k].base < s[s.len() - 1].base);
            }
        }
        assert forall|i: int, j: int| 0 <= i < j < all.len() implies (#[trigger] all[i]).base < (
        #[trigger] all[j]).base by {
            if j == front.len() {
                assert(front[i].base < s.last().base);
            }
        }
        assert forall|y: Region| (#[trigger] all.contains(y)) <==> (s.contains(y) || y == x) by {
            if all.contains(y) {
                let k = choose|k: int| 0 <= k < all.len() && all[k] == y;
                if k < front.len() {
                    assert(front.contains(front[k]));
                    if y != x {
                        let m = choose|m: int| 0 <= m < d.len() && d[m] == y;
                        assert(s[m] == y);
                    }
                } else {
                    assert(s[s.len() - 1] == y);
                }
            }
            if s.contains(y) {
                let k = choose|k: int| 0 <= k < s.len() && s[k] == y;
                if k < d.len() {
                    assert(d[k] == y);
                    assert(front.contains(y));
                    let m = choose|m: int| 0 <= m < front.len() && front[m] == y;
                    assert(all[m] == y);
                } else {
                    assert(all[front.len() as int] == y);
                }
            }
            if y == x {
                assert(front.contains(x));
                let m = choose|m: int| 0 <= m < front.len() && front[m] == x;
                assert(all[m] == x);
            }
        }
        assert forall|i: int| 0 <= i < all.len() implies (#[trigger] all[i]) == x || s.contains(
            all[i],
        ) by {
            assert(all.contains(all[i]));
        }
    }
}

proof fn by_base_rises(regions: Seq<Region>)
    requires
        distinct_bases(regions),
    ensures
        rising(by_base(regions)),
        forall|y: Region| (#[trigger] by_base(regions).contains(y)) <==> regions.contains(y),
    decreases regions.len(),
{
    if regions.len() > 0 {
        let d = regions.drop_last();
        by_base_rises(d);
        let x = regions.last();
        let s = by_base(d);
        assert forall|i: int| 0 <= i < s.len() implies (#[trigger] s[i]).base != x.base by {
            assert(s.contains(s[i]));
            let k = choose|k: int| 0 <= k < d.len() && d[k] == s[i];
            assert(regions[k].base != regions[regions.len() - 1].base);
        }
        region_in_rises(s, x);
        assert forall|y: Region| (#[trigger] by_base(regions).contains(y)) <==> regions.contains(y) by {
            if regions.contains(y) {
                let k = choose|k: int| 0 <= k < regions.len() && regions[k] == y;
                if k < d.len() {
                    assert(d[k] == y);
                    assert(d.contains(y));
                }
            }
            if d.contains(y) {
                let k = choose|k: int| 0 <= k < d.len() && d[k] == y;
                assert(regions[k] == y);
            }
            assert(regions[regions.len() - 1] == x);
        }
    }
}

proof fn rising_is_unique(a: Seq<Region>, b: Seq<Region>)
    requires
        rising(a),
        rising(b),
        forall|y: Region| (#[trigger] a.contains(y)) <==> b.contains(y),
    ensures
        a == b,
    decreases a.len(),
{
    if a.len() == 0 {
        if b.len() > 0 {
            assert(b.contains(b[0]));
            assert(a.contains(b[0]));
        }
        assert(a =~= b);
    } else {
        let x = a.last();
        assert(a[a.len() - 1] == x);
        assert(a.contains(x));
        let k = choose|k: int| 0 <= k < b.len() && b[k] == x;
        let y = b.last();
        assert(b[b.len() - 1] == y);
        assert(b.contains(y));
        assert(a.contains(y));
        let m = choose|m: int| 0 <= m < a.len() && a[m] == y;
        assert(x == y);
        let c = a.drop_last();
        let d = b.drop_last();
        assert forall|z: Region| (#[trigger] c.contains(z)) <==> d.contains(z) by {
            if c.contains(z) {
                let i = choose|i: int| 0 <= i < c.len() && c[i] == z;
                assert(a[i] == z && a[i].base < x.base);
                assert(a.contains(z));
                let j = choose|j: int| 0 <= j < b.len() && b[j] == z;
                assert(d[j] == z);
            }
            if d.contains(z) {
                let i = choose|i: int| 0 <= i < d.len() && d[i] == z;
                assert(b[i] == z && b[i].base < y.base);
                assert(b.contains(z));
                assert(a.contains(z));
                let j = choose|j: int| 0 <= j < a.len() && a[j] == z;
                assert(c[j] == z);
            }
        }
        rising_is_unique(c, d);
        assert(a =~= c.push(x));
        assert(b =~= d.push(y));
    }
}

/// The order in which the regions are given does not matter: any arrangement of regions that start apart
/// holds the same code, and so has the same fingerprint.
pub proof fn region_order_does_not_matter(
    reads: memory::Reads,
    regions: Seq<Region>,
    other: Seq<Region>,
)
    requires
        distinct_bases(regions),
        regions.to_multiset() == other.to_multiset(),
    ensures
        code_of(reads, regions) == code_of(reads, other),
{
    regions.to_multiset_ensures();
    other.to_multiset_ensures();
    assert forall|y: Region| (#[trigger] regions.contains(y)) <==> other.contains(y) by {
        vstd::seq_lib::to_multiset_contains(regions, y);
        vstd::seq_lib::to_multiset_contains(other, y);
        assert(regions.to_multiset().count(y) == other.to_multiset().count(y));
    }
    assert(regions.no_duplicates());
    regions.lemma_multiset_has_no_duplicates();
    other.lemma_multiset_has_no_duplicates_conv();
    assert(distinct_bases(other)) by {
        assert forall|i: int, j: int| 0 <= i < j < other.len() implies (#[trigger] other[i]).base != (
        #[trigger] other[j]).base by {
            assert(other.contains(other[i]) && other.contains(other[j]));
            assert(regions.contains(other[i]) && regions.contains(other[j]));
            let k = choose|k: int| 0 <= k < regions.len() && regions[k] == other[i];
            let m = choose|m: int| 0 <= m < regions.len() && regions[m] == other[j];
            assert(k != m);
            if k < m {
                assert(regions[k].base != regions[m].base);
            } else {
                assert(regions[m].base != regions[k].base);
            }
        }
    }
    by_base_rises(regions);
    by_base_rises(other);
    assert forall|y: Region| (#[trigger] by_base(regions).contains(y)) <==> by_base(other).contains(y) by {
        assert(regions.contains(y) <==> other.contains(y));
    }
    rising_is_unique(by_base(regions), by_base(other));
}

proof fn region_in_at(s: Seq<Region>, x: Region, i: int)
    requires
        0 <= i <= s.len(),
        forall|k: int| i <= k < s.len() ==> (#[trigger] s[k]).base > x.base,
        i == 0 || s[i - 1].base <= x.base,
    ensures
        region_in(s, x) == s.insert(i, x),
    decreases s.len(),
{
    if i < s.len() {
        assert(s[s.len() - 1].base > x.base);
        region_in_at(s.drop_last(), x, i);
    }
    assert(region_in(s, x) =~= s.insert(i, x));
}

fn sort_regions(regions: &[Region]) -> (v: Vec<Region>)
    ensures
        v@ == by_base(regions@),
{
    let mut v: Vec<Region> = Vec::new();
    let mut n: usize = 0;
    assert(regions@.take(0) =~= Seq::<Region>::empty());
    while n < regions.len()
        invariant
            n <= regions@.len(),
            v@ == by_base(regions@.take(n as int)),
        decreases regions@.len() - n,
    {
        assert(regions@.take(n + 1).drop_last() =~= regions@.take(n as int));
        let x = regions[n];
        let ghost s = v@;
        let mut i: usize = v.len();
        while i > 0 && v[i - 1].base > x.base
            invariant
                s == v@,
                i <= v@.len(),
                forall|k: int| i <= k < s.len() ==> (#[trigger] s[k]).base > x.base,
            decreases i,
        {
            i -= 1;
        }
        proof {
            region_in_at(s, x, i as int);
        }
        v.insert(i, x);
        n += 1;
    }
    assert(regions@.take(n as int) =~= regions@);
    v
}

proof fn folds_join(h: u64, a: Seq<u8>, b: Seq<u8>)
    ensures
        identity::folded(identity::folded(h, a), b) == identity::folded(h, a + b),
    decreases b.len(),
{
    if b.len() == 0 {
        assert(a + b =~= a);
    } else {
        folds_join(h, a, b.drop_last());
        assert((a + b).drop_last() =~= a + b.drop_last());
    }
}

/// The bytes at the front of `buf`, hashed.
fn hash_front(h: u64, buf: &Vec<u8>, n: usize) -> (r: u64)
    requires
        n <= buf@.len(),
    ensures
        r == identity::folded(h, buf@.take(n as int)),
{
    let front = slice_subrange(buf.as_slice(), 0, n);
    assert(front@ =~= buf@.take(n as int));
    fnv_fold(h, front)
}

fn hash_region<S: MemorySource>(source: &S, region: Region, h: u64, buf: &mut Vec<u8>) -> (r: (u64, u64))
    requires
        region.base + region.size <= usize::MAX,
        old(buf)@.len() == CHUNK,
    ensures
        final(buf)@.len() == CHUNK,
        ({
            let read = streamed(
                memory::reads(source),
                region.base as int,
                region.size as nat,
            );
            &&& r.0 == identity::folded(h, read)
            &&& r.1 == read.len()
            &&& read.len() <= region.size
        }),
{
    let ghost all = streamed(memory::reads(source), region.base as int, region.size as nat);
    let ghost mut read: Seq<u8> = Seq::empty();
    let mut hash: u64 = h;
    let mut off: usize = 0;
    assert(read + all =~= all);
    while off < region.size
        invariant
            region.base + region.size <= usize::MAX,
            buf@.len() == CHUNK,
            off <= region.size,
            off == read.len(),
            all == streamed(memory::reads(source), region.base as int, region.size as nat),
            all == read + streamed(
                memory::reads(source),
                region.base + off,
                (region.size - off) as nat,
            ),
            hash == identity::folded(h, read),
        decreases region.size - off,
    {
        let left: usize = region.size - off;
        let want: usize = if left < CHUNK {
            left
        } else {
            CHUNK
        };
        let got: usize = read_chunk(source, region.base + off, buf, want);
        let ghost chunk = source.delivers((region.base + off) as usize, want as nat);
        if got == 0 {
            assert(all =~= read);
            return (hash, off as u64);
        }
        proof {
            let more = streamed(
                memory::reads(source),
                region.base + off + got,
                (left - got) as nat,
            );
            folds_join(h, read, chunk);
            assert(read + (chunk + more) =~= (read + chunk) + more);
            read = read + chunk;
        }
        hash = hash_front(hash, buf, got);
        off += got;
    }
    assert(all =~= read);
    (hash, off as u64)
}

/// One read of `want` bytes; what it delivers stands at the front of `buf`.
fn read_chunk<S: MemorySource>(source: &S, address: usize, buf: &mut Vec<u8>, want: usize) -> (n: usize)
    requires
        want <= old(buf)@.len(),
    ensures
        final(buf)@.len() == old(buf)@.len(),
        n <= want,
        final(buf)@.take(n as int) == source.delivers(address, want as nat),
        n == source.delivers(address, want as nat).len(),
{
    let ghost before = buf@;
    let (front, _) = buf.as_mut_slice().split_at_mut(want);
    let n: usize = match source.read_into(address, front) {
        Ok(n) => n,
        Err(_) => 0,
    };
    let ghost delivered = source.delivers(address, want as nat);
    assert(buf@.take(n as int) =~= delivered);
    n
}

/// A stable hash of the code, and how many bytes of it could be read. The regions are read from the
/// lowest up, so that the order of regions that start apart does not matter.
pub fn fingerprint<S: MemorySource>(source: &S, regions: &[Region]) -> (r: (u64, u64))
    requires
        regions_fit(regions@),
        types::total_size(regions@) <= u64::MAX,
    ensures
        r.0 == identity::folded(FNV_OFFSET, code_of(memory::reads(source), regions@)),
        r.1 == code_of(memory::reads(source), regions@).len(),
{
    let sorted = sort_regions(regions);
    proof {
        by_base_keeps(regions@);
        assert(sorted@.take(0) =~= Seq::<Region>::empty());
    }
    let mut hash: u64 = FNV_OFFSET;
    let mut total: u64 = 0;
    let mut buf: Vec<u8> = vec![0u8; CHUNK];
    let mut n: usize = 0;
    let ghost rd = memory::reads(source);
    while n < sorted.len()
        invariant
            regions_fit(sorted@),
            types::total_size(sorted@) <= u64::MAX,
            rd == memory::reads(source),
            buf@.len() == CHUNK,
            n <= sorted@.len(),
            hash == identity::folded(FNV_OFFSET, code_read(rd, sorted@, n as int)),
            total == code_read(rd, sorted@, n as int).len(),
            total <= types::total_size(sorted@.take(n as int)),
        decreases sorted@.len() - n,
    {
        let region = sorted[n];
        assert(sorted@[n as int].base + sorted@[n as int].size <= usize::MAX);
        let (h, got) = hash_region(source, region, hash, &mut buf);
        proof {
            let before = code_read(rd, sorted@, n as int);
            let more = streamed(rd, region.base as int, region.size as nat);
            folds_join(FNV_OFFSET, before, more);
            assert(sorted@.take(n + 1).drop_last() =~= sorted@.take(n as int));
            types::total_size_grows(sorted@, n + 1);
        }
        hash = h;
        total += got;
        n += 1;
    }
    (hash, total)
}

/// The 24 bytes of the PE header of the module at `module_base`; `None` where it cannot be read or is no
/// PE.
pub open spec fn pe_header(reads: memory::Reads, module_base: usize) -> Option<Seq<u8>> {
    let dos = reads(module_base, 0x40);
    if dos.len() < 0x40 || dos[0] != 0x4D || dos[1] != 0x5A {
        None
    } else {
        let at = module_base + le::le32(dos, 0x3C);
        let pe = reads(at as usize, 0x18);
        if at > usize::MAX || pe.len() < 0x18 || pe.take(4) != seq![0x50u8, 0x45, 0, 0] {
            None
        } else {
            Some(pe)
        }
    }
}

fn read_header<S: MemorySource>(source: &S, module_base: usize) -> (r: Option<Vec<u8>>)
    ensures
        match r {
            Some(pe) => pe_header(memory::reads(source), module_base) is Some && pe@.len() == 0x18
                && pe@ == pe_header(memory::reads(source), module_base)->0,
            None => pe_header(memory::reads(source), module_base) is None,
        },
{
    let mut dos: Vec<u8> = vec![0u8; 0x40];
    let got: usize = read_chunk(source, module_base, &mut dos, 0x40);
    if got < 0x40 {
        return None;
    }
    assert(dos@.take(0x40) =~= dos@);
    if dos[0] != 0x4D || dos[1] != 0x5A {
        return None;
    }
    let e_lfanew: u32 = u32_at(dos.as_slice(), 0x3C);
    if e_lfanew as u64 > (usize::MAX - module_base) as u64 {
        return None;
    }
    let mut pe: Vec<u8> = vec![0u8; 0x18];
    let got: usize = read_chunk(source, module_base + e_lfanew as usize, &mut pe, 0x18);
    if got < 0x18 {
        return None;
    }
    assert(pe@.take(0x18) =~= pe@);
    if pe[0] != 0x50 || pe[1] != 0x45 || pe[2] != 0 || pe[3] != 0 {
        proof {
            if pe@.take(4) == seq![0x50u8, 0x45, 0, 0] {
                assert(pe@.take(4)[0] == pe@[0]);
                assert(pe@.take(4)[1] == pe@[1]);
                assert(pe@.take(4)[2] == pe@[2]);
                assert(pe@.take(4)[3] == pe@[3]);
            }
        }
        return None;
    }
    assert(pe@.take(4) =~= seq![0x50u8, 0x45, 0, 0]);
    Some(pe)
}

/// The COFF `Machine` field of the module mapped at `module_base`, for architecture checks (`0x8664` is
/// amd64, `0x014C` is i386); `None` if the header cannot be read or is not a PE.
pub fn pe_machine<S: MemorySource>(source: &S, module_base: usize) -> (r: Option<u16>)
    ensures
        r == (match pe_header(memory::reads(source), module_base) {
            Some(pe) => Some(le::le16(pe, 4) as u16),
            None => None,
        }),
{
    match read_header(source, module_base) {
        Some(pe) => le::get_u16(pe.as_slice(), 4),
        None => None,
    }
}

/// The COFF timestamp of the module mapped at `module_base`; `None` if the header cannot be read or is
/// not a PE.
pub fn pe_timestamp<S: MemorySource>(source: &S, module_base: usize) -> (r: Option<u32>)
    ensures
        r == (match pe_header(memory::reads(source), module_base) {
            Some(pe) => Some(le::le32(pe, 8) as u32),
            None => None,
        }),
{
    match read_header(source, module_base) {
        Some(pe) => get_u32(pe.as_slice(), 8),
        None => None,
    }
}

/// The header line of a stamp.
pub open spec fn line_of(s: BuildStampV) -> Seq<char> {
    let head = "# build: hash="@ + text::hex_fixed(s.hash as nat, 16) + " bytes="@ + text::dec(
        s.bytes as nat,
    ) + " timestamp="@ + text::hex_fixed(s.timestamp as nat, 8);
    match s.version {
        Some(v) => head + " version="@ + v,
        None => head,
    }
}

impl BuildStamp {
    /// Stamp the module at `module_base` whose code lies in the regions.
    pub fn capture<S: MemorySource>(source: &S, module_base: usize, regions: &[Region]) -> (s: Self)
        requires
            regions_fit(regions@),
            types::total_size(regions@) <= u64::MAX,
        ensures
            s.hash == identity::folded(FNV_OFFSET, code_of(memory::reads(source), regions@)),
            s.bytes == code_of(memory::reads(source), regions@).len(),
            s.timestamp == (match pe_header(memory::reads(source), module_base) {
                Some(pe) => le::le32(pe, 8) as u32,
                None => 0,
            }),
            s.version is None,
    {
        let (hash, bytes) = fingerprint(source, regions);
        let timestamp: u32 = match pe_timestamp(source, module_base) {
            Some(t) => t,
            None => 0,
        };
        BuildStamp { hash, bytes, timestamp, version: None }
    }

    /// The hash as sixteen hexadecimal digits.
    pub fn short(&self) -> (s: String)
        ensures
            s@ == text::hex_fixed(self.hash as nat, 16),
    {
        let mut s = String::new();
        push_hex_fixed(&mut s, self.hash, 16);
        assert(s@ =~= text::hex_fixed(self.hash as nat, 16));
        s
    }

    /// The line that a dump carries the stamp in.
    pub fn header_line(&self) -> (s: String)
        ensures
            s@ == line_of(self.deep_view()),
    {
        let mut line = starting("# build: hash=");
        push_hex_fixed(&mut line, self.hash, 16);
        line.append(" bytes=");
        push_dec(&mut line, self.bytes);
        line.append(" timestamp=");
        push_hex_fixed(&mut line, self.timestamp as u64, 8);
        if let Some(version) = &self.version {
            line.append(" version=");
            line.append(version.as_str());
        }
        line
    }
}

/// Where the first line of a text ends.
pub open spec fn line_len(s: Seq<char>) -> int
    decreases s.len(),
{
    if s.len() == 0 || s[0] == '\n' {
        0
    } else {
        1 + line_len(s.skip(1))
    }
}

/// A line is no longer than its text.
pub proof fn line_fits(s: Seq<char>)
    ensures
        0 <= line_len(s) <= s.len(),
    decreases s.len(),
{
    if s.len() > 0 && s[0] != '\n' {
        line_fits(s.skip(1));
    }
}

/// Whether a line is a stamp's.
pub open spec fn is_stamp(line: Seq<char>) -> bool {
    text::starts(text::unindented(line), "# build:"@)
}

/// The first line of a stamp.
pub open spec fn stamp_line(s: Seq<char>) -> Option<Seq<char>>
    decreases s.len(),
    via lines_shrink
{
    let line = s.take(line_len(s));
    if is_stamp(line) {
        Some(line)
    } else if line_len(s) < s.len() {
        stamp_line(s.skip(line_len(s) + 1))
    } else {
        None
    }
}

#[via_fn]
proof fn lines_shrink(s: Seq<char>) {
    line_fits(s);
}

/// A number, or zero where the text holds none.
pub open spec fn number_or_zero(s: Seq<char>, radix: int, max: int) -> int {
    match text::number(s, radix, max) {
        Some(n) => n,
        None => 0,
    }
}

/// A stamp with the field that a word gives.
pub open spec fn with_word(s: BuildStampV, word: Seq<char>) -> BuildStampV {
    if text::starts(word, "hash="@) {
        BuildStampV { hash: number_or_zero(word.skip(5), 16, u64::MAX as int) as u64, ..s }
    } else if text::starts(word, "bytes="@) {
        BuildStampV { bytes: number_or_zero(word.skip(6), 10, u64::MAX as int) as u64, ..s }
    } else if text::starts(word, "timestamp="@) {
        BuildStampV { timestamp: number_or_zero(word.skip(10), 16, u32::MAX as int) as u32, ..s }
    } else if text::starts(word, "version="@) {
        BuildStampV { version: Some(word.skip(8)), ..s }
    } else {
        s
    }
}

/// A stamp with the fields that the words give, the last one of a kind counting.
pub open spec fn with_words(s: BuildStampV, words: Seq<Seq<char>>) -> BuildStampV
    decreases words.len(),
{
    if words.len() == 0 {
        s
    } else {
        with_words(with_word(s, words[0]), words.skip(1))
    }
}

/// A stamp without a field filled.
pub open spec fn blank() -> BuildStampV {
    BuildStampV { hash: 0, bytes: 0, timestamp: 0, version: None }
}

/// The stamp that a text holds.
pub open spec fn stamp_in(s: Seq<char>) -> Option<BuildStampV> {
    match stamp_line(s) {
        Some(line) => Some(with_words(blank(), text::words(line))),
        None => None,
    }
}

fn find_line_end(v: &[char]) -> (n: usize)
    ensures
        n == line_len(v@),
        n <= v@.len(),
{
    let mut n: usize = 0;
    assert(v@.skip(0) =~= v@);
    while n < v.len() && v[n] != '\n'
        invariant
            n <= v@.len(),
            line_len(v@) == n + line_len(v@.skip(n as int)),
        decreases v@.len() - n,
    {
        assert(v@.skip(n as int).skip(1) =~= v@.skip(n + 1));
        n += 1;
    }
    n
}

fn find_stamp_line(v: &[char]) -> (r: Option<(usize, usize)>)
    ensures
        match r {
            Some((a, b)) => a <= b <= v@.len() && stamp_line(v@) == Some(
                v@.subrange(a as int, b as int),
            ),
            None => stamp_line(v@) is None,
        },
{
    let mut at: usize = 0;
    let end: usize = v.len();
    assert(v@.skip(0) =~= v@);
    loop
        invariant
            end == v@.len(),
            at <= v@.len(),
            stamp_line(v@) == stamp_line(v@.skip(at as int)),
        decreases v@.len() - at,
    {
        let rest = slice_subrange(v, at, end);
        assert(rest@ =~= v@.skip(at as int));
        let n: usize = find_line_end(rest);
        let line = slice_subrange(rest, 0, n);
        assert(line@ =~= rest@.take(n as int));
        let lead: usize = skip_white(line);
        let text = slice_subrange(line, lead, n);
        assert(text@ =~= line@.skip(lead as int));
        if starts_with(text, "# build:") {
            assert(line@ =~= v@.subrange(at as int, at + n));
            return Some((at, at + n));
        }
        if n == rest.len() {
            return None;
        }
        assert(rest@.skip(n + 1) =~= v@.skip(at + n + 1));
        at = at + n + 1;
    }
}

fn tail_number(word: &[char], from: usize, radix: u64, max: u64) -> (n: u64)
    requires
        from <= word@.len(),
        1 <= radix <= 16,
    ensures
        n == number_or_zero(word@.skip(from as int), radix as int, max as int),
        n <= max,
{
    let tail = slice_subrange(word, from, word.len());
    assert(tail@ =~= word@.skip(from as int));
    match read_number(tail, radix, max) {
        Some(n) => {
            assert(n <= max);
            n
        },
        None => 0,
    }
}

fn take_word(s: BuildStamp, word: &[char]) -> (r: BuildStamp)
    ensures
        r.deep_view() == with_word(s.deep_view(), word@),
{
    proof {
        reveal_strlit("hash=");
        reveal_strlit("bytes=");
        reveal_strlit("timestamp=");
        reveal_strlit("version=");
    }
    let mut r = s;
    if starts_with(word, "hash=") {
        r.hash = tail_number(word, 5, 16, u64::MAX);
    } else if starts_with(word, "bytes=") {
        r.bytes = tail_number(word, 6, 10, u64::MAX);
    } else if starts_with(word, "timestamp=") {
        r.timestamp = tail_number(word, 10, 16, u32::MAX as u64) as u32;
    } else if starts_with(word, "version=") {
        let tail = slice_subrange(word, 8, word.len());
        assert(tail@ =~= word@.skip(8));
        r.version = Some(text_of(tail));
    }
    r
}

/// Read the stamp out of a dump: from the first line that starts with `# build:`, or `None` where there is
/// none. A field that is missing or does not parse is zero.
pub fn parse_stamp(text: &str) -> (r: Option<BuildStamp>)
    ensures
        r.deep_view() == stamp_in(text@),
{
    let v = chars_of(text);
    let (a, b) = match find_stamp_line(v.as_slice()) {
        Some(range) => range,
        None => {
            return None;
        },
    };
    let line = slice_subrange(v.as_slice(), a, b);
    let mut stamp = BuildStamp { hash: 0, bytes: 0, timestamp: 0, version: None };
    let ghost whole = with_words(blank(), text::words(line@));
    let mut i: usize = 0;
    let end: usize = line.len();
    assert(line@.skip(0) =~= line@);
    while i < end
        invariant
            end == line@.len(),
            i <= end,
            whole == with_words(stamp.deep_view(), text::words(line@.skip(i as int))),
        decreases end - i,
    {
        let rest = slice_subrange(line, i, end);
        assert(rest@ =~= line@.skip(i as int));
        if white(rest[0]) {
            assert(rest@.skip(1) =~= line@.skip(i + 1));
            i += 1;
        } else {
            proof {
                text::word_fits(rest@);
            }
            let n: usize = word_end(rest);
            let word = slice_subrange(rest, 0, n);
            proof {
                assert(word@ =~= rest@.take(n as int));
                assert(rest@.skip(n as int) =~= line@.skip(i + n));
                let all = text::words(rest@);
                assert(all.skip(1) =~= text::words(rest@.skip(n as int)));
                assert(all[0] == word@);
            }
            stamp = take_word(stamp, word);
            i += n;
        }
    }
    Some(stamp)
}

/// The words with one blank between neighbours.
spec fn blanked(words: Seq<Seq<char>>) -> Seq<char>
    decreases words.len(),
{
    if words.len() == 0 {
        Seq::empty()
    } else if words.len() == 1 {
        words[0]
    } else {
        words[0] + (seq![' '] + blanked(words.skip(1)))
    }
}

/// A word can stand between blanks.
spec fn is_word(w: Seq<char>) -> bool {
    w.len() > 0 && forall|k: int| 0 <= k < w.len() ==> !text::is_white(#[trigger] w[k])
}

proof fn words_between_blanks(words: Seq<Seq<char>>)
    requires
        forall|i: int| 0 <= i < words.len() ==> is_word(#[trigger] words[i]),
    ensures
        text::words(blanked(words)) == words,
    decreases words.len(),
{
    if words.len() == 1 {
        let w = words[0];
        assert(is_word(w));
        text::first_word(w, Seq::empty());
        assert(w + Seq::<char>::empty() =~= w);
        assert(text::words(Seq::<char>::empty()) =~= Seq::<Seq<char>>::empty());
        assert(seq![w] + Seq::<Seq<char>>::empty() =~= words);
    } else if words.len() > 1 {
        let w = words[0];
        assert(is_word(w));
        let more = words.skip(1);
        assert forall|i: int| 0 <= i < more.len() implies is_word(#[trigger] more[i]) by {
            assert(more[i] == words[i + 1]);
        }
        words_between_blanks(more);
        let rest = seq![' '] + blanked(more);
        assert(rest[0] == ' ');
        text::first_word(w, rest);
        assert(rest.skip(1) =~= blanked(more));
        assert(seq![w] + more =~= words);
    }
}

proof fn written_numbers(s: BuildStampV)
    ensures
        text::number(text::hex_fixed(s.hash as nat, 16), 16, u64::MAX as int) == Some(s.hash as int),
        text::number(text::dec(s.bytes as nat), 10, u64::MAX as int) == Some(s.bytes as int),
        text::number(text::hex_fixed(s.timestamp as nat, 8), 16, u32::MAX as int) == Some(
            s.timestamp as int,
        ),
        is_word(text::hex_fixed(s.hash as nat, 16)),
        is_word(text::dec(s.bytes as nat)),
        is_word(text::hex_fixed(s.timestamp as nat, 8)),
{
    reveal(vstd::arithmetic::power::pow);
    reveal_with_fuel(vstd::arithmetic::power::pow, 17);
    assert(vstd::arithmetic::power::pow(16, 16) == 0x1_0000_0000_0000_0000);
    assert(vstd::arithmetic::power::pow(16, 8) == 0x1_0000_0000);
    text::hex_fixed_reads_back(s.hash as nat, 16);
    text::hex_fixed_reads_back(s.timestamp as nat, 8);
    text::dec_reads_back(s.bytes as nat);
}

/// The words of a header line.
spec fn line_words(s: BuildStampV) -> Seq<Seq<char>> {
    let head = seq![
        seq!['#'],
        seq!['b', 'u', 'i', 'l', 'd', ':'],
        "hash="@ + text::hex_fixed(s.hash as nat, 16),
        "bytes="@ + text::dec(s.bytes as nat),
        "timestamp="@ + text::hex_fixed(s.timestamp as nat, 8),
    ];
    match s.version {
        Some(v) => head.push("version="@ + v),
        None => head,
    }
}

proof fn rejoined(
    p: Seq<char>,
    hash: Seq<char>,
    bytes: Seq<char>,
    time: Seq<char>,
    tail: Seq<char>,
    blank: Seq<char>,
)
    ensures
        p + hash + (blank + bytes) + (blank + time) + tail == p + (hash + (blank + (bytes + (blank
            + (time + tail))))),
{
    let x = blank + (time + tail);
    assert(p + hash + (blank + bytes) + (blank + time) + tail =~= p + hash + (blank + bytes) + x);
    assert(p + hash + (blank + bytes) + x =~= p + hash + (blank + (bytes + x)));
    let y = blank + (bytes + x);
    assert(p + hash + y =~= p + (hash + y));
}

/// The literals of a header line, taken apart at their blanks.
proof fn literals_part(h: Seq<char>, b: Seq<char>, t: Seq<char>, v: Seq<char>)
    ensures
        "# build: hash="@ + h == seq!['#', ' ', 'b', 'u', 'i', 'l', 'd', ':', ' '] + ("hash="@ + h),
        " bytes="@ + b == seq![' '] + ("bytes="@ + b),
        " timestamp="@ + t == seq![' '] + ("timestamp="@ + t),
        " version="@ + v == seq![' '] + ("version="@ + v),
{
    reveal_strlit("# build: hash=");
    reveal_strlit(" bytes=");
    reveal_strlit(" timestamp=");
    reveal_strlit(" version=");
    reveal_strlit("hash=");
    reveal_strlit("bytes=");
    reveal_strlit("timestamp=");
    reveal_strlit("version=");
    assert("# build: hash="@ + h =~= seq!['#', ' ', 'b', 'u', 'i', 'l', 'd', ':', ' '] + ("hash="@
        + h));
    assert(" bytes="@ + b =~= seq![' '] + ("bytes="@ + b));
    assert(" timestamp="@ + t =~= seq![' '] + ("timestamp="@ + t));
    assert(" version="@ + v =~= seq![' '] + ("version="@ + v));
}

proof fn words_are_words(s: BuildStampV)
    requires
        s.version matches Some(v) ==> forall|k: int| 0 <= k < v.len() ==> !text::is_white(#[trigger] v[k]),
    ensures
        forall|i: int| 0 <= i < line_words(s).len() ==> is_word(#[trigger] line_words(s)[i]),
{
    reveal_strlit("hash=");
    reveal_strlit("bytes=");
    reveal_strlit("timestamp=");
    reveal_strlit("version=");
    written_numbers(s);
    let w = line_words(s);
    assert forall|i: int| 0 <= i < w.len() implies is_word(#[trigger] w[i]) by {
        let x = w[i];
        if i == 2 {
            assert(x == "hash="@ + text::hex_fixed(s.hash as nat, 16));
        } else if i == 3 {
            assert(x == "bytes="@ + text::dec(s.bytes as nat));
        } else if i == 4 {
            assert(x == "timestamp="@ + text::hex_fixed(s.timestamp as nat, 8));
        } else if i == 5 {
            assert(x == "version="@ + s.version->0);
        }
    }
}

proof fn line_is_blanked(s: BuildStampV)
    ensures
        line_of(s) == blanked(line_words(s)),
{
    let h = text::hex_fixed(s.hash as nat, 16);
    let b = text::dec(s.bytes as nat);
    let t = text::hex_fixed(s.timestamp as nat, 8);
    let v = match s.version {
        Some(v) => v,
        None => Seq::empty(),
    };
    literals_part(h, b, t, v);
    let hash = "hash="@ + h;
    let bytes = "bytes="@ + b;
    let time = "timestamp="@ + t;
    let tail = match s.version {
        Some(v) => seq![' '] + ("version="@ + v),
        None => Seq::<char>::empty(),
    };
    let sp = seq![' '];
    let p = seq!['#', ' ', 'b', 'u', 'i', 'l', 'd', ':', ' '];
    rejoined(p, hash, bytes, time, tail, sp);
    let w = line_words(s);
    let w1 = w.skip(1);
    let w2 = w1.skip(1);
    let w3 = w2.skip(1);
    let w4 = w3.skip(1);
    assert(w1[0] == w[1] && w2[0] == w[2] && w3[0] == w[3] && w4[0] == w[4]);
    if s.version is Some {
        let w5 = w4.skip(1);
        assert(w5.len() == 1 && w5[0] == w[5]);
        assert(blanked(w5) == w[5]);
        assert(blanked(w4) == time + tail);
    } else {
        assert(w4.len() == 1);
        assert(blanked(w4) == time);
        assert(time + tail =~= time);
    }
    let x3 = blanked(w3);
    assert(x3 == bytes + (sp + (time + tail)));
    let x2 = blanked(w2);
    assert(x2 == hash + (sp + x3));
    let build = seq!['b', 'u', 'i', 'l', 'd', ':'];
    let x1 = blanked(w1);
    assert(x1 == build + (sp + x2));
    assert(w.len() > 1 && w[0] == seq!['#']);
    assert(blanked(w) == seq!['#'] + (sp + x1));
    assert(seq!['#'] + (sp + (build + (sp + x2))) =~= p + x2);
    let front = "# build: hash="@ + h;
    let line = front + " bytes="@ + b + " timestamp="@ + t;
    assert(front + " bytes="@ + b =~= front + (" bytes="@ + b));
    assert(front + (" bytes="@ + b) + " timestamp="@ + t =~= front + (" bytes="@ + b) + (
    " timestamp="@ + t));
    if s.version is Some {
        assert(line + " version="@ + v =~= line + (" version="@ + v));
    } else {
        assert(line + tail =~= line);
    }
}

proof fn line_has_words(s: BuildStampV)
    requires
        s.version matches Some(v) ==> forall|k: int| 0 <= k < v.len() ==> !text::is_white(#[trigger] v[k]),
    ensures
        line_of(s) == blanked(line_words(s)),
        forall|i: int| 0 <= i < line_words(s).len() ==> is_word(#[trigger] line_words(s)[i]),
{
    line_is_blanked(s);
    words_are_words(s);
}

proof fn one_line(s: Seq<char>)
    requires
        forall|k: int| 0 <= k < s.len() ==> #[trigger] s[k] != '\n',
    ensures
        line_len(s) == s.len(),
    decreases s.len(),
{
    if s.len() > 0 {
        assert forall|k: int| 0 <= k < s.skip(1).len() implies #[trigger] s.skip(1)[k] != '\n' by {
            assert(s.skip(1)[k] == s[k + 1]);
        }
        one_line(s.skip(1));
    }
}

proof fn blanked_is_one_line(words: Seq<Seq<char>>)
    requires
        forall|i: int| 0 <= i < words.len() ==> is_word(#[trigger] words[i]),
    ensures
        forall|k: int| 0 <= k < blanked(words).len() ==> #[trigger] blanked(words)[k] != '\n',
    decreases words.len(),
{
    if words.len() == 1 {
        assert(is_word(words[0]));
    } else if words.len() > 1 {
        let w = words[0];
        let more = words.skip(1);
        assert(is_word(w));
        assert forall|i: int| 0 <= i < more.len() implies is_word(#[trigger] more[i]) by {
            assert(more[i] == words[i + 1]);
        }
        blanked_is_one_line(more);
        let all = blanked(words);
        assert forall|k: int| 0 <= k < all.len() implies #[trigger] all[k] != '\n' by {
            if k < w.len() {
                assert(all[k] == w[k]);
            } else if k > w.len() {
                assert(all[k] == blanked(more)[k - w.len() - 1]);
            }
        }
    }
}

proof fn word_fields(s: BuildStampV, x: BuildStampV)
    ensures
        ({
            let w = line_words(s);
            &&& with_word(x, w[0]) == x
            &&& with_word(x, w[1]) == x
            &&& with_word(x, w[2]) == (BuildStampV { hash: s.hash, ..x })
            &&& with_word(x, w[3]) == (BuildStampV { bytes: s.bytes, ..x })
            &&& with_word(x, w[4]) == (BuildStampV { timestamp: s.timestamp, ..x })
            &&& s.version is Some ==> with_word(x, w[5]) == (BuildStampV { version: s.version, ..x })
        }),
{
    reveal_strlit("hash=");
    reveal_strlit("bytes=");
    reveal_strlit("timestamp=");
    reveal_strlit("version=");
    written_numbers(s);
    let build = seq!['b', 'u', 'i', 'l', 'd', ':'];
    let hash = "hash="@ + text::hex_fixed(s.hash as nat, 16);
    let bytes = "bytes="@ + text::dec(s.bytes as nat);
    let time = "timestamp="@ + text::hex_fixed(s.timestamp as nat, 8);
    let v = match s.version {
        Some(v) => v,
        None => Seq::empty(),
    };
    let version = "version="@ + v;
    assert(build.take(5)[0] != "hash="@[0]);
    assert(build.take(6)[1] != "bytes="@[1]);
    assert(hash.take(5) =~= "hash="@);
    assert(hash.skip(5) =~= text::hex_fixed(s.hash as nat, 16));
    assert(bytes.take(5)[0] != "hash="@[0]);
    assert(bytes.take(6) =~= "bytes="@);
    assert(bytes.skip(6) =~= text::dec(s.bytes as nat));
    assert(time.take(5)[0] != "hash="@[0]);
    assert(time.take(6)[0] != "bytes="@[0]);
    assert(time.take(10) =~= "timestamp="@);
    assert(time.skip(10) =~= text::hex_fixed(s.timestamp as nat, 8));
    assert(version.take(5)[0] != "hash="@[0]);
    assert(version.take(6)[0] != "bytes="@[0]);
    if version.len() >= 10 {
        assert(version.take(10)[0] != "timestamp="@[0]);
    }
    assert(version.take(8) =~= "version="@);
    assert(version.skip(8) =~= v);
}

/// A stamp is read back from its header line, unless its version holds white space.
pub proof fn header_line_reads_back(s: BuildStampV)
    requires
        s.version matches Some(v) ==> forall|k: int| 0 <= k < v.len() ==> !text::is_white(#[trigger] v[k]),
    ensures
        stamp_in(line_of(s)) == Some(s),
{
    let line = line_of(s);
    let w = line_words(s);
    line_has_words(s);
    words_between_blanks(w);
    blanked_is_one_line(w);
    one_line(line);
    assert(line.take(line_len(line)) =~= line);
    assert(is_stamp(line)) by {
        reveal_strlit("# build:");
        reveal_strlit("# build: hash=");
        assert(text::unindented(line) == line);
        assert(line.take(8) =~= "# build:"@);
    }
    let after_hash = BuildStampV { hash: s.hash, ..blank() };
    let after_bytes = BuildStampV { bytes: s.bytes, ..after_hash };
    let after_time = BuildStampV { timestamp: s.timestamp, ..after_bytes };
    word_fields(s, blank());
    word_fields(s, after_hash);
    word_fields(s, after_bytes);
    word_fields(s, after_time);
    reveal_with_fuel(with_words, 8);
    let w1 = w.skip(1);
    let w2 = w1.skip(1);
    let w3 = w2.skip(1);
    let w4 = w3.skip(1);
    let w5 = w4.skip(1);
    assert(w1[0] == w[1] && w2[0] == w[2] && w3[0] == w[3] && w4[0] == w[4]);
    if s.version is Some {
        assert(w5[0] == w[5]);
        let w6 = w5.skip(1);
        assert(w6.len() == 0);
    } else {
        assert(w5.len() == 0);
    }
    assert(with_words(blank(), w) =~= s);
}

/// The line has no end of line in it.
pub open spec fn single(line: Seq<char>) -> bool {
    forall|k: int| 0 <= k < line.len() ==> #[trigger] line[k] != '\n'
}

pub(crate) proof fn line_ends(line: Seq<char>, rest: Seq<char>)
    requires
        single(line),
    ensures
        line_len(line + seq!['\n'] + rest) == line.len(),
        line_len(line) == line.len(),
    decreases line.len(),
{
    let s = line + seq!['\n'] + rest;
    if line.len() > 0 {
        line_ends(line.skip(1), rest);
        assert(s.skip(1) =~= line.skip(1) + seq!['\n'] + rest);
        assert(s[0] == line[0]);
    } else {
        assert(s[0] == '\n');
    }
}

/// The stamp of a text is that of its first stamp line: lines before it that are none play no part, and
/// neither does anything behind it.
pub proof fn first_stamp_line_counts(line: Seq<char>, rest: Seq<char>)
    requires
        single(line),
    ensures
        !is_stamp(line) ==> stamp_in(line + seq!['\n'] + rest) == stamp_in(rest),
        is_stamp(line) ==> stamp_in(line + seq!['\n'] + rest) == stamp_in(line) && stamp_in(
            line,
        ) is Some,
        !is_stamp(line) ==> stamp_in(line) is None,
{
    let s = line + seq!['\n'] + rest;
    line_ends(line, rest);
    assert(s.take(line.len() as int) =~= line);
    assert(s.skip(line.len() as int + 1) =~= rest);
    assert(line.take(line.len() as int) =~= line);
}

/// The last word that gives a field decides it, and a word that gives none changes nothing.
pub proof fn last_words_decide(s: BuildStampV, words: Seq<Seq<char>>, word: Seq<char>)
    ensures
        with_words(s, words.push(word)) == with_word(with_words(s, words), word),
        !text::starts(word, "hash="@) && !text::starts(word, "bytes="@) && !text::starts(
            word,
            "timestamp="@,
        ) && !text::starts(word, "version="@) ==> with_words(s, words.push(word)) == with_words(
            s,
            words,
        ),
    decreases words.len(),
{
    let all = words.push(word);
    if words.len() > 0 {
        assert(all.skip(1) =~= words.skip(1).push(word));
        last_words_decide(with_word(s, words[0]), words.skip(1), word);
    } else {
        assert(all.skip(1) =~= Seq::<Seq<char>>::empty());
        assert(with_words(with_word(s, word), Seq::<Seq<char>>::empty()) == with_word(s, word));
    }
}

proof fn region_joins(s: Seq<Region>, x: Region)
    requires
        forall|i: int, j: int|
            0 <= i < j < s.len() ==> (#[trigger] s[i]).base <= (#[trigger] s[j]).base,
    ensures
        ({
            let r = region_in(s, x);
            &&& forall|i: int, j: int|
                0 <= i < j < r.len() ==> (#[trigger] r[i]).base <= (#[trigger] r[j]).base
            &&& r.to_multiset() == s.to_multiset().insert(x)
            &&& r.len() == s.len() + 1
            &&& forall|k: int| 0 <= k < r.len() ==> #[trigger] r[k] == x || s.contains(r[k])
        }),
    decreases s.len(),
{
    broadcast use vstd::seq_lib::group_to_multiset_ensures;

    let r = region_in(s, x);
    if s.len() == 0 || s.last().base <= x.base {
        assert forall|k: int| 0 <= k < r.len() implies #[trigger] r[k] == x || s.contains(r[k]) by {
            if k < s.len() {
                assert(s[k] == r[k]);
            }
        }
    } else {
        let d = s.drop_last();
        region_joins(d, x);
        let front = region_in(d, x);
        assert(d.push(s.last()) =~= s);
        assert forall|k: int| 0 <= k < front.len() implies (#[trigger] front[k]).base <= s.last().base by {
            if front[k] != x {
                assert(d.contains(front[k]));
                let j = choose|j: int| 0 <= j < d.len() && d[j] == front[k];
                assert(s[j].base <= s[s.len() - 1].base);
            }
        }
        assert forall|k: int| 0 <= k < r.len() implies #[trigger] r[k] == x || s.contains(r[k]) by {
            if k < front.len() {
                assert(r[k] == front[k]);
                if front[k] != x {
                    let j = choose|j: int| 0 <= j < d.len() && d[j] == front[k];
                    assert(s[j] == r[k]);
                }
            } else {
                assert(s[s.len() - 1] == r[k]);
            }
        }
        assert(front.push(s.last()).to_multiset() =~= s.to_multiset().insert(x));
    }
}

/// The code is read region by region in the order of their addresses, and every region once.
pub proof fn regions_are_read_by_address(regions: Seq<Region>)
    ensures
        by_base(regions).to_multiset() == regions.to_multiset(),
        by_base(regions).len() == regions.len(),
        forall|i: int, j: int|
            0 <= i < j < regions.len() ==> (#[trigger] by_base(regions)[i]).base <= (
            #[trigger] by_base(regions)[j]).base,
    decreases regions.len(),
{
    broadcast use vstd::seq_lib::group_to_multiset_ensures;

    if regions.len() > 0 {
        let d = regions.drop_last();
        regions_are_read_by_address(d);
        region_joins(by_base(d), regions.last());
        assert(d.push(regions.last()) =~= regions);
    }
}

}
