//! How far each way of looking goes: how close rivals may be, how much two functions must share to be
//! compared, and how far from a function its neighbours are looked for.

use crate::sigmaker::callers;
use crate::sigmaker::calls::{best_at, best_callee_is_most_alike, standing_out_is_best, stands_out};
use crate::sigmaker::dispatch::{leads_to, slot_is_first};
use crate::sigmaker::encoding;
use crate::sigmaker::graph;
use crate::sigmaker::graph::{GraphV, Pairing};
use crate::sigmaker::identity;
use crate::sigmaker::identity::IdentityV;
use crate::sigmaker::partial;
use crate::sigmaker::strands;
use crate::sigmaker::strings;
use crate::sigmaker::tables;
use crate::sigmaker::types::ImageInput;
use crate::sigmaker::vtable;
use crate::sigmaker::vtable::{Dispatch, VtableAnchorV};
use vstd::prelude::*;

verus! {

/// Two places are sixteen bytes apart or more.
pub open spec fn sixteen_apart(a: int, b: int) -> bool {
    a >= b + 16 || b >= a + 16
}

/// The runner-up of a match by fingerprint is the best of the windows that are sixteen bytes from it or
/// more; a closer one is the same function read from another place.
pub proof fn runners_up_are_elsewhere(windows: Seq<(usize, IdentityV)>, reference: IdentityV)
    ensures
        identity::best_among(windows, reference).best matches Some((rva, sim, id)) ==> {
            let next = identity::best_among(windows, reference).runner_up;
            &&& forall|i: int|
                0 <= i < windows.len() && sixteen_apart((#[trigger] windows[i]).0 as int, rva as int)
                    ==> identity::likeness(reference, windows[i].1) <= next
            &&& next == 0 || exists|i: int|
                0 <= i < windows.len() && sixteen_apart((#[trigger] windows[i]).0 as int, rva as int)
                    && identity::likeness(reference, windows[i].1) == next
        },
{
    identity::best_match_is_greatest(windows, reference);
}

/// Two streams are compared where they start alike: with the same four shapes, or with all that the
/// reference has where it has fewer.
pub open spec fn starts_alike(reference: Seq<u64>, stream: Seq<u64>) -> bool {
    &&& stream.len() >= 4 || stream.len() >= reference.len()
    &&& forall|k: int|
        0 <= k < 4 && k < reference.len() ==> #[trigger] stream[k] == reference[k]
}

/// Only streams that start alike are compared.
pub proof fn compared_streams_start_alike(reference: Seq<u64>, stream: Seq<u64>)
    ensures
        encoding::shares_signature(reference, stream) <==> starts_alike(reference, stream),
{
    let g = encoding::gate(reference);
    if encoding::shares_signature(reference, stream) {
        assert forall|k: int| 0 <= k < 4 && k < reference.len() implies #[trigger] stream[k]
            == reference[k] by {
            assert(stream.take(g)[k] == stream[k]);
            assert(reference.take(g)[k] == reference[k]);
        }
    }
    if starts_alike(reference, stream) {
        assert(stream.take(g) =~= reference.take(g)) by {
            assert forall|k: int| 0 <= k < g implies stream.take(g)[k] == reference.take(g)[k] by {
                assert(stream[k] == reference[k]);
            }
        }
    }
}

/// The runner-up by shapes is no less alike than any place sixteen bytes from the best or more.
pub proof fn encoding_rivals_are_elsewhere(img: &ImageInput, hits: Seq<usize>, reference: Seq<u64>, i: int)
    requires
        0 <= i < hits.len(),
        starts_alike(reference, encoding::shapes_at(img, hits[i] as int)),
    ensures
        ({
            let m = encoding::match_among(img, hits, reference);
            m.best matches Some((rva, sim)) && encoding::shape_similarity(
                reference,
                encoding::shapes_at(img, hits[i] as int),
            ) as u64 <= sim && (sixteen_apart(hits[i] as int, rva as int)
                ==> encoding::shape_similarity(
                reference,
                encoding::shapes_at(img, hits[i] as int),
            ) as u64 <= m.runner_up)
        }),
{
    compared_streams_start_alike(reference, encoding::shapes_at(img, hits[i] as int));
    encoding::best_window_is_greatest(img, hits, reference);
    assert(encoding::shares_signature(reference, encoding::shapes_at(img, hits[i] as int)));
}

/// A function is matched across call graphs only where two or more of its matched neighbours agree.
pub proof fn graph_matches_have_two_votes(ga: GraphV, gb: GraphV, p: Pairing, t: usize)
    requires
        graph::settled(ga, gb, p).0.contains_key(t),
        !p.0.contains_key(t),
    ensures
        graph::support(
            graph::votes(t, ga, gb, graph::settled(ga, gb, p).0),
            graph::settled(ga, gb, p).0[t],
        ) >= 2,
{
    graph::matches_are_supported(ga, gb, p);
}

/// The neighbours whose strings count are those within two calls of the function, 256 of them at most.
pub proof fn neighbours_are_within_two_calls(img: &ImageInput, entry: int)
    ensures
        partial::graph_anchors(img, entry) == graph::anchored_among(
            img,
            graph::nearby(graph::image_graph(img), entry as usize, 2, 256),
        ),
        graph::nearby(graph::image_graph(img), entry as usize, 2, 256).len() <= 256,
{
    let g = graph::image_graph(img);
    let all = graph::hops(g, seq![entry as usize], seq![entry as usize], 2, 256);
    assert(all.len() > 256 ==> all.take(256).len() == 256);
}

/// A caller carries a function: a string leads to the caller itself, and of what it calls the function
/// stands out by twelve points.
pub proof fn carriers_tell_the_function_apart(img: &ImageInput, caller: usize, target_rva: int)
    ensures
        callers::carries(img, caller, target_rva) ==> {
            let cs = callers::callees_of(img, caller as int);
            let id = identity::identity_at(img, target_rva);
            &&& strings::string_anchor_of(img, caller as int) matches Some(sa) && strings::anchored(
                img,
                sa,
            ) == Some(caller)
            &&& exists|p: int| #[trigger] stands_out(img, cs, id, p, 0) && cs[p] == target_rva
        },
{
    if callers::carries(img, caller, target_rva) {
        let cs = callers::callees_of(img, caller as int);
        let id = identity::identity_at(img, target_rva);
        best_callee_is_most_alike(img, cs, id);
        standing_out_is_best(img, cs, id);
        let m = callers::best_among(img, cs, id);
        let p = choose|p: int| #[trigger] best_at(img, cs, id, m, p);
        assert(stands_out(img, cs, id, p, 0));
    }
}

/// What dispatches to a function: a slot of a table of eight entries or more that leads to it.
pub open spec fn dispatches_to(
    img: &ImageInput,
    vts: Seq<tables::TableV>,
    target: usize,
    d: Dispatch,
) -> bool {
    &&& d.table < vts.len()
    &&& d.start == vts[d.table as int].0
    &&& d.slots == vts[d.table as int].1.len()
    &&& d.slots >= 8
    &&& d.slot < d.slots
    &&& leads_to(img, vts[d.table as int].1, d.slot as int, target)
}

/// Only tables of eight entries or more that lead to the function dispatch to it, and each that does is
/// among them.
pub proof fn dispatching_tables_are_large(
    img: &ImageInput,
    vts: Seq<tables::TableV>,
    target: usize,
    n: int,
)
    requires
        0 <= n <= vts.len() <= usize::MAX,
        forall|k: int| 0 <= k < vts.len() ==> (#[trigger] vts[k]).1.len() <= usize::MAX,
    ensures
        ({
            let ds = vtable::dispatches(img, vts, target, n);
            &&& forall|k: int| 0 <= k < ds.len() ==> dispatches_to(img, vts, target, #[trigger] ds[k])
            &&& forall|t: int, i: int|
                0 <= t < n && (#[trigger] vts[t]).1.len() >= 8 && 0 <= i < vts[t].1.len()
                    && #[trigger] leads_to(img, vts[t].1, i, target) ==> exists|k: int|
                    0 <= k < ds.len() && (#[trigger] ds[k]).table == t
        }),
    decreases n,
{
    if n > 0 {
        dispatching_tables_are_large(img, vts, target, n - 1);
        let before = vtable::dispatches(img, vts, target, n - 1);
        let ds = vtable::dispatches(img, vts, target, n);
        let (start, slots) = vts[n - 1];
        slot_is_first(img, slots, target, 0);
        if slots.len() >= 8 {
            if let Some((slot, via)) = vtable::dispatching_slot(img, slots, target, 0) {
                let x = Dispatch {
                    slots: slots.len() as usize,
                    start,
                    slot,
                    via,
                    table: (n - 1) as usize,
                };
                assert(dispatches_to(img, vts, target, x));
                dispatch_joins(before, x);
                assert forall|k: int| 0 <= k < ds.len() implies dispatches_to(
                    img,
                    vts,
                    target,
                    #[trigger] ds[k],
                ) by {
                    if ds[k] != x {
                        let j = choose|j: int| 0 <= j < before.len() && before[j] == ds[k];
                        assert(dispatches_to(img, vts, target, before[j]));
                    }
                }
                assert forall|t: int, i: int|
                    0 <= t < n && (#[trigger] vts[t]).1.len() >= 8 && 0 <= i < vts[t].1.len()
                        && #[trigger] leads_to(img, vts[t].1, i, target) implies exists|k: int|
                    0 <= k < ds.len() && (#[trigger] ds[k]).table == t by {
                    if t < n - 1 {
                        let j = choose|j: int|
                            0 <= j < before.len() && (#[trigger] before[j]).table == t;
                        let k = choose|k: int| 0 <= k < ds.len() && ds[k] == before[j];
                        assert(ds[k].table == t);
                    } else {
                        let k = choose|k: int| 0 <= k < ds.len() && ds[k] == x;
                        assert(ds[k].table == t);
                    }
                }
            }
        }
    }
}

proof fn dispatch_joins(s: Seq<Dispatch>, x: Dispatch)
    ensures
        ({
            let r = vtable::dispatch_in(s, x);
            &&& r.len() == s.len() + 1
            &&& exists|k: int| 0 <= k < r.len() && r[k] == x
            &&& forall|k: int|
                0 <= k < r.len() ==> #[trigger] r[k] == x || exists|j: int| 0 <= j < s.len() && s[j] == r[k]
            &&& forall|j: int|
                0 <= j < s.len() ==> exists|k: int| 0 <= k < r.len() && r[k] == #[trigger] s[j]
        }),
    decreases s.len(),
{
    let r = vtable::dispatch_in(s, x);
    if s.len() == 0 || !vtable::dispatch_before(x, s.last()) {
        assert(r[s.len() as int] == x);
        assert forall|k: int| 0 <= k < r.len() implies #[trigger] r[k] == x || exists|j: int|
            0 <= j < s.len() && s[j] == r[k] by {
            if k < s.len() {
                assert(s[k] == r[k]);
            }
        }
        assert forall|j: int| 0 <= j < s.len() implies exists|k: int|
            0 <= k < r.len() && r[k] == #[trigger] s[j] by {
            assert(r[j] == s[j]);
        }
    } else {
        let d = s.drop_last();
        dispatch_joins(d, x);
        let front = vtable::dispatch_in(d, x);
        let k0 = choose|k: int| 0 <= k < front.len() && front[k] == x;
        assert(r[k0] == x);
        assert(r[front.len() as int] == s.last());
        assert forall|k: int| 0 <= k < r.len() implies #[trigger] r[k] == x || exists|j: int|
            0 <= j < s.len() && s[j] == r[k] by {
            if k < front.len() {
                assert(r[k] == front[k]);
                if front[k] != x {
                    let j = choose|j: int| 0 <= j < d.len() && d[j] == front[k];
                    assert(s[j] == r[k]);
                }
            } else {
                assert(s[s.len() - 1] == r[k]);
            }
        }
        assert forall|j: int| 0 <= j < s.len() implies exists|k: int|
            0 <= k < r.len() && r[k] == #[trigger] s[j] by {
            if j < d.len() {
                assert(d[j] == s[j]);
                let k = choose|k: int| 0 <= k < front.len() && front[k] == d[j];
                assert(r[k] == s[j]);
            } else {
                assert(r[front.len() as int] == s[j]);
            }
        }
    }
}

/// A table is near a function where its address stands within 2048 bytes of it.
pub proof fn near_is_within_two_kilobytes(buf: Seq<u8>, f: int, vt_abs: u32)
    ensures
        vtable::near(buf, f, vt_abs) <==> exists|i: int|
            0 <= i && i + 4 <= buf.len() && i >= f - 2048 && i <= f + 2048
                && #[trigger] crate::le::le32(buf, i) == vt_abs,
{
}

/// A table that is matched by its structure is taken where that is sure; else the function that a string
/// grounds, at 90 percent; else what there is.
pub proof fn sure_tables_come_first(img: &ImageInput, a: VtableAnchorV)
    ensures
        ({
            let m = vtable::structural_match(img, a);
            let r = vtable::vtable_anchored(img, a);
            &&& vtable::confident(m) ==> r == m
            &&& !vtable::confident(m) ==> match vtable::grounded_method(img, a) {
                Some(f) => r == Some((f, 900_000_000_000u64, 0u64)),
                None => r == m,
            }
        }),
{
}

/// The strands of a function are those of its first 80 instructions within 640 bytes.
pub proof fn strands_are_of_the_first_instructions(img: &ImageInput, rva: int)
    ensures
        strands::strands_at(img, rva) == strands::strands_from(
            crate::sigmaker::stream::width(img.arch),
            img.bytes(img.base + rva, 640),
            img.base + rva,
            0,
            80,
            (Map::empty(), None),
            Seq::empty(),
        ),
{
}

}
