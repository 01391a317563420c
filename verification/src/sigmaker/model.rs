//! The direct-call graph of one image, recovered by a linear decode of each code region. A near call is
//! recorded only where one falls on an instruction boundary of the sweep, so an `E8` inside another
//! instruction's operand is never taken for a call.

use crate::le::tail_of;
use crate::maps::sort_unique;
use crate::memory::Region;
use crate::ordered;
use crate::ordered::insert_usize;
use crate::sigmaker::decode;
use crate::sigmaker::decode::bitness;
use crate::sigmaker::strings;
use crate::sigmaker::strings::enclosing_function;
use crate::sigmaker::types::{is_within, ImageInput};
use crate::x86;
use crate::x86::Flow;
use vstd::prelude::*;

verus! {

/// One decode-verified direct call: the call site and the function entry it targets, both image RVAs.
#[derive(Clone, Copy, PartialEq, Eq, Debug, Structural)]
pub struct CallEdge {
    pub site: usize,
    pub target: usize,
}

/// The near calls into code that a sweep of `b` meets from `pos` on.
pub open spec fn calls_from(img: &ImageInput, b: Seq<u8>, region_base: int, pos: int) -> Seq<CallEdge>
    decreases b.len() - pos,
{
    if !(0 <= pos < b.len()) {
        Seq::empty()
    } else {
        let bits = decode::mode(img.arch);
        let rest = b.skip(pos);
        let ip = (region_base + pos) as u64;
        let h = x86::head_of(bits, rest, ip);
        let target = h.target as usize;
        let more = calls_from(img, b, region_base, pos + decode::step(h, rest));
        if !h.invalid && decode::is_near_call(h, x86::flow_of(bits, rest, ip)) && img.in_code(
            target as int,
        ) {
            seq![
                CallEdge {
                    site: (region_base + pos - img.base) as usize,
                    target: (target - img.base) as usize,
                },
            ] + more
        } else {
            more
        }
    }
}

/// The near calls of one region.
pub open spec fn region_calls(img: &ImageInput, r: Region) -> Seq<CallEdge> {
    calls_from(img, img.bytes(r.base as int, r.size as nat), r.base as int, 0)
}

/// The near calls of the first `n` code regions.
pub open spec fn calls_in(img: &ImageInput, n: int) -> Seq<CallEdge>
    decreases n,
{
    if n <= 0 {
        Seq::empty()
    } else {
        calls_in(img, n - 1) + region_calls(img, img.code_regions@[n - 1])
    }
}

/// All near calls of the image.
pub open spec fn all_calls(img: &ImageInput) -> Seq<CallEdge> {
    calls_in(img, img.code_regions@.len() as int)
}

/// The call targets.
pub open spec fn targets(edges: Seq<CallEdge>) -> Seq<usize> {
    Seq::new(edges.len(), |i: int| edges[i].target)
}

/// The entries of the functions with a call to `target`, ascending.
pub open spec fn callers_among(img: &ImageInput, edges: Seq<CallEdge>, target: usize) -> Seq<usize>
    decreases edges.len(),
{
    if edges.len() == 0 {
        Seq::empty()
    } else {
        let before = callers_among(img, edges.drop_last(), target);
        if edges.last().target == target {
            ordered::ins(
                before,
                strings::enclosing(img, edges.last().site as int) as usize,
                ordered::rising(),
            )
        } else {
            before
        }
    }
}

/// Both ends of every edge can be read at.
pub open spec fn edges_reach(img: &ImageInput, edges: Seq<CallEdge>) -> bool {
    forall|i: int|
        0 <= i < edges.len() ==> img.reaches((#[trigger] edges[i]).site as int) && img.reaches(
            edges[i].target as int,
        )
}

/// The decode-verified direct-call graph of one image, built once and queried by the relocation anchors.
pub struct AnalysisModel {
    pub edges: Vec<CallEdge>,
    pub entries: Vec<usize>,
}

impl AnalysisModel {
    /// The model of an image: its calls and their distinct targets, ascending.
    pub open spec fn models(&self, img: &ImageInput) -> bool {
        &&& self.edges@ == all_calls(img)
        &&& self.entries@ == ordered::sorted_set(targets(all_calls(img)), ordered::rising())
        &&& edges_reach(img, self.edges@)
        &&& forall|i: int| 0 <= i < self.entries@.len() ==> img.reaches(#[trigger] self.entries@[i] as int)
    }

    /// Recover the call graph: linearly decode each code region once and record every near call
    /// (`E8 rel32`, the only five-byte call) whose target lands in executable code.
    pub fn build(img: &ImageInput) -> (m: Self)
        requires
            img.wf(),
        ensures
            m.models(img),
    {
        let bits: u32 = bitness(img.arch);
        let mut edges: Vec<CallEdge> = Vec::new();
        let mut n: usize = 0;
        while n < img.code_regions.len()
            invariant
                img.wf(),
                bits == decode::mode(img.arch),
                x86::is_mode(bits),
                n <= img.code_regions@.len(),
                edges@ == calls_in(img, n as int),
                edges_reach(img, edges@),
            decreases img.code_regions@.len() - n,
        {
            let r = img.code_regions[n];
            let b = img.read(r.base, r.size);
            let ghost before = edges@;
            let ghost all = region_calls(img, r);
            let mut pos: usize = 0;
            while pos < b.len()
                invariant
                    img.wf(),
                    bits == decode::mode(img.arch),
                    x86::is_mode(bits),
                    n < img.code_regions@.len(),
                    r == img.code_regions@[n as int],
                    b@.len() <= r.size,
                    pos <= b@.len(),
                    before + all == edges@ + calls_from(img, b@, r.base as int, pos as int),
                    edges_reach(img, edges@),
                decreases b@.len() - pos,
            {
                let rest = tail_of(b.as_slice(), pos);
                let ip: u64 = (r.base + pos) as u64;
                let h = x86::head(bits, rest, ip);
                let ghost more = calls_from(img, b@, r.base as int, pos + h.len);
                if !h.invalid && h.len == 5 && x86::flow(bits, rest, ip) == Flow::Call {
                    let target: usize = h.target as usize;
                    if is_within(&img.code_regions, target) {
                        let ghost earlier = edges@;
                        proof {
                            let k = choose|k: int|
                                0 <= k < img.code_regions@.len()
                                    && (#[trigger] img.code_regions@[k]).holds(target as int);
                            assert(img.base <= img.code_regions@[k].base);
                        }
                        let e = CallEdge { site: r.base + pos - img.base, target: target - img.base };
                        edges.push(e);
                        assert(edges@ + more =~= earlier + (seq![e] + more));
                    }
                }
                pos += h.len;
            }
            assert(edges@ =~= before + all);
            n += 1;
        }
        let mut ends: Vec<usize> = Vec::new();
        let mut i: usize = 0;
        while i < edges.len()
            invariant
                i <= edges@.len(),
                ends@ == targets(edges@).take(i as int),
            decreases edges@.len() - i,
        {
            ends.push(edges[i].target);
            i += 1;
            assert(ends@ =~= targets(edges@).take(i as int));
        }
        assert(ends@ =~= targets(edges@));
        let entries = sort_unique(&ends);
        proof {
            ordered::numbers_are_ordered();
            ordered::sorted_set_is_sorted(Seq::empty(), ends@, ordered::rising());
            assert forall|k: int| 0 <= k < entries@.len() implies img.reaches(
                #[trigger] entries@[k] as int,
            ) by {
                assert(entries@.contains(entries@[k]));
                assert(!Seq::<usize>::empty().contains(entries@[k]));
                assert(ends@.contains(entries@[k]));
                let j = choose|j: int| 0 <= j < ends@.len() && ends@[j] == entries@[k];
                assert(img.reaches(edges@[j].target as int));
            }
        }
        AnalysisModel { edges, entries }
    }

    /// The decode-verified function-entry set: every distinct direct-call target, ascending.
    pub fn entries(&self) -> (e: &[usize])
        ensures
            e@ == self.entries@,
    {
        self.entries.as_slice()
    }

    /// Every decode-verified direct call.
    pub fn call_sites(&self) -> (e: &[CallEdge])
        ensures
            e@ == self.edges@,
    {
        self.edges.as_slice()
    }

    /// The enclosing functions of every call site that targets `target_rva`, ascending and without
    /// repeats.
    pub fn callers_of(&self, img: &ImageInput, target_rva: usize) -> (r: Vec<usize>)
        requires
            edges_reach(img, self.edges@),
        ensures
            r@ == callers_among(img, self.edges@, target_rva),
    {
        let mut r: Vec<usize> = Vec::new();
        let mut i: usize = 0;
        assert(self.edges@.take(0) =~= Seq::<CallEdge>::empty());
        while i < self.edges.len()
            invariant
                edges_reach(img, self.edges@),
                i <= self.edges@.len(),
                r@ == callers_among(img, self.edges@.take(i as int), target_rva),
            decreases self.edges@.len() - i,
        {
            assert(self.edges@.take(i + 1).drop_last() =~= self.edges@.take(i as int));
            if self.edges[i].target == target_rva {
                assert(img.reaches(self.edges@[i as int].site as int));
                let f: usize = enclosing_function(img, self.edges[i].site);
                insert_usize(&mut r, f);
            }
            i += 1;
        }
        assert(self.edges@.take(i as int) =~= self.edges@);
        r
    }
}

}
