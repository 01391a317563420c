//! Finding a byte pattern.

use crate::pattern::Signature;
use vstd::prelude::*;

verus! {

/// A pattern that can be looked for: at least one byte, as many mask entries as bytes.
#[derive(Clone, Debug)]
pub struct CompiledPattern {
    pub bytes: Vec<u8>,
    pub mask: Vec<bool>,
}

/// Whether the pattern matches at `off`: every fixed byte is there.
pub open spec fn hit(hay: Seq<u8>, off: int, bytes: Seq<u8>, mask: Seq<bool>) -> bool {
    &&& 0 <= off
    &&& off + bytes.len() <= hay.len()
    &&& forall|k: int| 0 <= k < bytes.len() && mask[k] ==> #[trigger] hay[off + k] == bytes[k]
}

/// The offsets from `from` on at which the pattern matches, ascending.
pub open spec fn hits_from(hay: Seq<u8>, from: int, bytes: Seq<u8>, mask: Seq<bool>) -> Seq<int>
    decreases hay.len() - from,
{
    if from < 0 || from >= hay.len() {
        Seq::empty()
    } else if hit(hay, from, bytes, mask) {
        seq![from] + hits_from(hay, from + 1, bytes, mask)
    } else {
        hits_from(hay, from + 1, bytes, mask)
    }
}

/// Every offset at which the pattern matches, ascending.
pub open spec fn hits(hay: Seq<u8>, bytes: Seq<u8>, mask: Seq<bool>) -> Seq<int> {
    hits_from(hay, 0, bytes, mask)
}

impl CompiledPattern {
    /// A mask entry for each of at least one byte.
    pub open spec fn wf(&self) -> bool {
        self.bytes@.len() == self.mask@.len() && self.bytes@.len() > 0
    }

    /// Prepare a signature for scanning; a signature without bytes cannot be looked for.
    pub fn new(sig: &Signature) -> (r: Option<CompiledPattern>)
        requires
            sig.wf(),
        ensures
            match r {
                Some(p) => sig.bytes@.len() > 0 && p.bytes@ == sig.bytes@ && p.mask@ == sig.mask@,
                None => sig.bytes@.len() == 0,
            },
    {
        if sig.bytes.len() == 0 {
            return None;
        }
        let bytes = sig.bytes.clone();
        let mask = sig.mask.clone();
        assert(bytes@ =~= sig.bytes@);
        assert(mask@ =~= sig.mask@);
        Some(CompiledPattern { bytes, mask })
    }
}

/// Whether the pattern matches at `off`.
fn hit_at(hay: &[u8], off: usize, pat: &CompiledPattern) -> (r: bool)
    requires
        pat.wf(),
        off < hay@.len(),
    ensures
        r == hit(hay@, off as int, pat.bytes@, pat.mask@),
{
    if pat.bytes.len() > hay.len() - off {
        return false;
    }
    let end: usize = hay.len();
    let mut k: usize = 0;
    while k < pat.bytes.len()
        invariant
            end == hay@.len(),
            pat.wf(),
            k <= pat.bytes@.len(),
            off + pat.bytes@.len() <= hay@.len(),
            forall|j: int| 0 <= j < k && pat.mask@[j] ==> #[trigger] hay@[off + j] == pat.bytes@[j],
        decreases pat.bytes@.len() - k,
    {
        if pat.mask[k] && hay[off + k] != pat.bytes[k] {
            assert(hay@[off + k as int] != pat.bytes@[k as int]);
            return false;
        }
        k += 1;
    }
    true
}

/// Every offset of `hay` at which the pattern matches, ascending.
pub fn find_all(hay: &[u8], pat: &CompiledPattern) -> (out: Vec<usize>)
    requires
        pat.wf(),
    ensures
        out@.map_values(|o: usize| o as int) == hits(hay@, pat.bytes@, pat.mask@),
{
    let mut out: Vec<usize> = Vec::new();
    let mut i: usize = 0;
    let ghost all = hits(hay@, pat.bytes@, pat.mask@);
    assert(out@.map_values(|o: usize| o as int) + all =~= all);
    while i < hay.len()
        invariant
            pat.wf(),
            i <= hay@.len(),
            all == out@.map_values(|o: usize| o as int) + hits_from(
                hay@,
                i as int,
                pat.bytes@,
                pat.mask@,
            ),
        decreases hay@.len() - i,
    {
        let ghost rest = hits_from(hay@, i + 1, pat.bytes@, pat.mask@);
        if hit_at(hay, i, pat) {
            let ghost before = out@.map_values(|o: usize| o as int);
            out.push(i);
            assert(out@.map_values(|o: usize| o as int) + rest =~= before + (seq![i as int]
                + rest));
        }
        i += 1;
    }
    assert(out@.map_values(|o: usize| o as int) =~= all);
    out
}

/// What is found is exactly the set of offsets at which the pattern matches, in ascending order.
pub proof fn hits_are_the_matches(hay: Seq<u8>, from: int, bytes: Seq<u8>, mask: Seq<bool>)
    requires
        0 <= from,
        bytes.len() > 0,
    ensures
        forall|i: int|
            0 <= i < hits_from(hay, from, bytes, mask).len() ==> from <= #[trigger] hits_from(
                hay,
                from,
                bytes,
                mask,
            )[i] < hay.len() && hit(hay, hits_from(hay, from, bytes, mask)[i], bytes, mask),
        forall|i: int, j: int|
            0 <= i < j < hits_from(hay, from, bytes, mask).len() ==> #[trigger] hits_from(
                hay,
                from,
                bytes,
                mask,
            )[i] < #[trigger] hits_from(hay, from, bytes, mask)[j],
        forall|off: int|
            from <= off && #[trigger] hit(hay, off, bytes, mask) ==> hits_from(
                hay,
                from,
                bytes,
                mask,
            ).contains(off),
    decreases hay.len() - from,
{
    if from < hay.len() {
        hits_are_the_matches(hay, from + 1, bytes, mask);
        let rest = hits_from(hay, from + 1, bytes, mask);
        let all = hits_from(hay, from, bytes, mask);
        assert forall|off: int| from <= off && #[trigger] hit(
            hay,
            off,
            bytes,
            mask,
        ) implies all.contains(off) by {
            if off == from {
                assert(all[0] == off);
            } else {
                let k = choose|k: int| 0 <= k < rest.len() && rest[k] == off;
                assert(rest.contains(off));
                if hit(hay, from, bytes, mask) {
                    assert(all[k + 1] == off);
                } else {
                    assert(all[k] == off);
                }
            }
        }
    }
}

}
