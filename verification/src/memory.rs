//! Memory that can be read at an address: the source of every byte the library looks at.

use vstd::prelude::*;

verus! {

/// The error a reader reports; carried through, never looked into.
#[verifier::external_type_specification]
#[verifier::external_body]
pub struct ExIoError(std::io::Error);

/// A contiguous address range of an image.
#[derive(Clone, Copy, PartialEq, Eq, Debug, Structural)]
pub struct Region {
    pub base: usize,
    pub size: usize,
}

impl Region {
    /// Whether the address lies in the region.
    pub open spec fn holds(self, abs: int) -> bool {
        self.base <= abs < self.base + self.size
    }
}

/// Something that can be asked for the bytes at an address. A source is a snapshot: what one read
/// gives depends on the address and the length asked for alone.
pub trait MemorySource {
    /// The bytes one read of `len` bytes at `address` delivers; empty when it fails.
    closed spec fn delivers(&self, address: usize, len: nat) -> Seq<u8> {
        vstd::pervasive::arbitrary()
    }

    /// Read at most `buf.len()` bytes at `address` into the front of `buf` and return how many
    /// were read.
    fn read_into(&self, address: usize, buf: &mut [u8]) -> (r: std::io::Result<usize>)
        ensures
            final(buf)@.len() == old(buf)@.len(),
            match r {
                Ok(n) => {
                    &&& n <= old(buf)@.len()
                    &&& final(buf)@.take(n as int) == self.delivers(address, old(buf)@.len())
                },
                Err(_) => self.delivers(address, old(buf)@.len()).len() == 0,
            },
    ;
}

/// What one read gives, by address and length.
pub type Reads = spec_fn(usize, nat) -> Seq<u8>;

/// The reads of a source.
#[verifier::inline]
pub open spec fn reads<S: MemorySource + ?Sized>(src: &S) -> Reads {
    |address: usize, len: nat| src.delivers(address, len)
}

/// What repeated reads collect from `address` on: every read continues where the last one ended,
/// until `len` bytes are there or a read delivers nothing.
pub open spec fn collected(reads: Reads, address: int, len: nat) -> Seq<u8>
    decreases len,
{
    let got = reads(address as usize, len);
    if len == 0 || got.len() == 0 || got.len() > len {
        Seq::empty()
    } else {
        got + collected(reads, address + got.len(), (len - got.len()) as nat)
    }
}

/// The bytes at `base`, at most `size` of them. Truncated to what was actually read, so an
/// unreadable tail is never handed back as zeros.
pub fn read_region<S: MemorySource + ?Sized>(src: &S, base: usize, size: usize) -> (out: Vec<u8>)
    requires
        base + size <= usize::MAX,
    ensures
        out@ == collected(reads(src), base as int, size as nat),
        out@.len() <= size,
{
    let mut buf: Vec<u8> = vec![0u8; size];
    let mut off: usize = 0;
    while off < size
        invariant
            base + size <= usize::MAX,
            off <= size,
            buf@.len() == size,
            collected(reads(src), base as int, size as nat) == buf@.take(off as int) + collected(
                reads(src),
                base + off,
                (size - off) as nat,
            ),
        ensures
            collected(reads(src), base + off, (size - off) as nat) == Seq::<u8>::empty(),
        decreases size - off,
    {
        let ghost before = buf@;
        let ghost start = off;
        let (_, tail) = buf.as_mut_slice().split_at_mut(off);
        match src.read_into(base + off, tail) {
            Ok(n) => {
                if n == 0 {
                    assert(buf@.take(off as int) =~= before.take(off as int));
                    break;
                }
                off += n;
                proof {
                    let got = src.delivers((base + start) as usize, (size - start) as nat);
                    assert(buf@.take(off as int) =~= before.take(start as int) + got);
                }
            },
            Err(_) => {
                assert(buf@.take(off as int) =~= before.take(off as int));
                break;
            },
        }
    }
    buf.truncate(off);
    assert(buf@ =~= collected(reads(src), base as int, size as nat));
    buf
}

/// The bytes at `base + rva`, at most `len` of them, truncated as in [`read_region`].
pub fn read_at<S: MemorySource + ?Sized>(src: &S, base: usize, rva: usize, len: usize) -> (out:
    Vec<u8>)
    requires
        base + rva + len <= usize::MAX,
    ensures
        out@ == collected(reads(src), base + rva, len as nat),
        out@.len() <= len,
{
    read_region(src, base + rva, len)
}

/// A source over bytes held in memory, mapped at `base`.
#[derive(Clone, Debug)]
pub struct BufferSource {
    pub base: usize,
    pub data: Vec<u8>,
}

impl BufferSource {
    /// The bytes, from `base` on.
    pub fn new(base: usize, data: Vec<u8>) -> (s: Self)
        ensures
            s.base == base,
            s.data@ == data@,
    {
        BufferSource { base, data }
    }

    /// The bytes held at `address` and after it.
    pub open spec fn held(&self, address: int) -> Seq<u8> {
        let start = address - self.base;
        if 0 <= start <= self.data@.len() {
            self.data@.skip(start)
        } else {
            Seq::empty()
        }
    }
}

impl MemorySource for BufferSource {
    open spec fn delivers(&self, address: usize, len: nat) -> Seq<u8> {
        let held = self.held(address as int);
        if held.len() <= len {
            held
        } else {
            held.take(len as int)
        }
    }

    fn read_into(&self, address: usize, buf: &mut [u8]) -> (r: std::io::Result<usize>) {
        if address < self.base || address - self.base >= self.data.len() {
            assert(buf@.take(0) =~= Seq::<u8>::empty());
            return Ok(0);
        }
        let start: usize = address - self.base;
        let left: usize = self.data.len() - start;
        let n: usize = if left <= buf.len() { left } else { buf.len() };
        let mut i: usize = 0;
        let ghost total = self.data.len();
        while i < n
            invariant
                total == self.data@.len(),
                i <= n,
                n <= buf@.len(),
                buf@.len() == old(buf)@.len(),
                start + n <= self.data@.len(),
                self.data@.len() <= usize::MAX,
                forall|k: int| 0 <= k < i ==> buf@[k] == self.data@[start + k],
            decreases n - i,
        {
            buf[i] = self.data[start + i];
            i += 1;
        }
        assert(buf@.take(n as int) =~= self.delivers(address, old(buf)@.len()));
        Ok(n)
    }
}

/// A buffer hands out all it holds: what is collected from it is the longest prefix of the held
/// bytes that fits.
pub proof fn buffer_is_collected_whole(src: &BufferSource, address: int, len: nat)
    requires
        0 <= address,
        address + len <= usize::MAX,
    ensures
        collected(reads(src), address, len) == src.delivers(address as usize, len),
    decreases len,
{
    let got = src.delivers(address as usize, len);
    if len > 0 && got.len() > 0 {
        let rest = (len - got.len()) as nat;
        buffer_is_collected_whole(src, address + got.len(), rest);
        assert(src.delivers((address + got.len()) as usize, rest) =~= Seq::<u8>::empty());
        assert(collected(reads(src), address, len) =~= got);
    } else {
        assert(got =~= Seq::<u8>::empty());
    }
}

}
