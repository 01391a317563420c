use maple_core::sigmaker::graph::{align, consensus, CallGraph};
use std::collections::BTreeMap;

fn graph(edges: &[(usize, usize)]) -> CallGraph {
    CallGraph::from_edges(edges)
}

#[test]
fn two_matched_callers_relocate_their_common_callee() {
    // A: callers 10, 11 both call target 12. B: their images 110, 111 both call 112. Seeds pin the
    // callers; the target is the function both matched callers point at, so it relocates to 112.
    let ga = graph(&[(10, 12), (11, 12)]);
    let gb = graph(&[(110, 112), (111, 112)]);
    let m = align(&ga, &gb, &[(10, 110), (11, 111)]);
    assert_eq!(
        m.get(&12),
        Some(&112),
        "the common callee relocates by consensus"
    );
}

#[test]
fn a_single_matched_neighbour_is_not_enough() {
    // Only one matched caller: below MIN_SUPPORT, so the target stays undecided (that is the weaker
    // single-hop case, which graph alignment deliberately does not commit on its own).
    let ga = graph(&[(10, 12), (11, 12)]);
    let gb = graph(&[(110, 112), (111, 112)]);
    let m = align(&ga, &gb, &[(10, 110)]);
    assert_eq!(
        m.get(&12),
        None,
        "one neighbour does not commit a graph match"
    );
}

#[test]
fn an_ambiguous_tie_declines() {
    // Two matched callers, but in B they share TWO common callees (112 and 113): the target ties, so
    // the strict-maximum gate refuses to guess between them.
    let ga = graph(&[(10, 12), (11, 12)]);
    let gb = graph(&[(110, 112), (110, 113), (111, 112), (111, 113)]);
    let m = align(&ga, &gb, &[(10, 110), (11, 111)]);
    assert_eq!(m.get(&12), None, "a tie between two candidates declines");
}

#[test]
fn mutual_best_rejects_a_one_directional_bind() {
    // t=12 is called by matched 10,11 whose images 110,111 both call 112, so 12->112 looks good one
    // way. But 112 in B is ALSO called by 120,121 (unmatched) and its consensus back to A is dominated
    // by a different function 12b that 10,11 also call... constructed so 112's back-consensus is not
    // 12. The bind must be refused.
    // A: 10->12, 11->12, 10->13, 11->13 (10,11 call both 12 and 13).
    let ga = graph(&[(10, 12), (11, 12), (10, 13), (11, 13)]);
    // B: 110->112, 111->112, 110->113, 111->113. Symmetric: 112 and 113 are indistinguishable.
    let gb = graph(&[(110, 112), (111, 112), (110, 113), (111, 113)]);
    let m = align(&ga, &gb, &[(10, 110), (11, 111)]);
    // Both 12 and 13 tie on support for both 112 and 113, so nothing commits (ambiguous), which also
    // means no one-directional mis-bind slips through.
    assert_eq!(m.get(&12), None);
    assert_eq!(m.get(&13), None);
}

#[test]
fn propagation_grows_outward_from_seeds() {
    // 1-hop: 12 relocates from seeds 10,11. 2-hop: 14 is called by 12 and 13; 13 also relocates from
    // the seeds, so after 12 and 13 are committed, 14 has two matched callers and relocates too.
    let ga = graph(&[(10, 12), (11, 12), (10, 13), (20, 13), (12, 14), (13, 14)]);
    let gb = graph(&[
        (110, 112),
        (111, 112),
        (110, 113),
        (120, 113),
        (112, 114),
        (113, 114),
    ]);
    let m = align(&ga, &gb, &[(10, 110), (11, 111), (20, 120)]);
    assert_eq!(m.get(&12), Some(&112), "12 relocates at the first hop");
    assert_eq!(m.get(&13), Some(&113), "13 relocates at the first hop");
    assert_eq!(
        m.get(&14),
        Some(&114),
        "14 relocates at the second hop once its callers are matched"
    );
}

#[test]
fn a_callee_direction_neighbour_also_corroborates() {
    // Direction test: t calls two matched callees; their images are called by the same g in B.
    let ga = graph(&[(12, 20), (12, 21)]);
    let gb = graph(&[(112, 120), (112, 121)]);
    let m = align(&ga, &gb, &[(20, 120), (21, 121)]);
    assert_eq!(
        m.get(&12),
        Some(&112),
        "a function relocates from two matched callees too"
    );
}

#[test]
fn seeds_stay_and_the_matching_is_one_to_one() {
    let ga = graph(&[(10, 12), (11, 12), (12, 14), (13, 14), (10, 13), (11, 13)]);
    let gb = graph(&[(110, 112), (111, 112), (112, 114), (113, 114), (110, 113)]);
    let m = align(&ga, &gb, &[(10, 110), (11, 111), (14, 114)]);
    assert_eq!((m.get(&10), m.get(&11), m.get(&14)), (Some(&110), Some(&111), Some(&114)));
    let mut images: Vec<usize> = m.values().copied().collect();
    images.sort_unstable();
    images.dedup();
    assert_eq!(images.len(), m.len());
}

#[test]
fn neighbourhoods_are_bounded_by_depth_and_cap() {
    let g = graph(&[(1, 2), (2, 3), (3, 4), (5, 1)]);
    assert_eq!(g.neighbourhood(1, 1, 256), vec![1, 2, 5]);
    assert_eq!(g.neighbourhood(1, 2, 256), vec![1, 2, 3, 5]);
    assert_eq!(g.neighbourhood(1, 3, 2), vec![1, 2]);
    assert_eq!(g.functions(), [1, 2, 3, 4, 5]);
}

#[test]
fn a_neighbour_votes_once_however_often_it_is_called() {
    // 12 calls 20 at two sites: that is one neighbour, not two.
    let ga = graph(&[(12, 20), (12, 20)]);
    let gb = graph(&[(112, 120)]);
    let m = BTreeMap::from([(20, 120)]);
    assert_eq!(consensus(12, &ga, &gb, &m), Some((112, 1, 0)));

    let ga = graph(&[(12, 20), (12, 20), (30, 12)]);
    let gb = graph(&[(112, 120), (112, 120), (130, 113)]);
    let m = align(&ga, &gb, &[(20, 120), (30, 130)]);
    assert_eq!(m.get(&12), None, "only one neighbour points at 112");
}

#[test]
fn a_neighbour_that_calls_and_is_called_votes_once() {
    // 20 calls 12 and 12 calls 20; the image 120 stands to 112 both ways.
    let ga = graph(&[(12, 20), (20, 12)]);
    let gb = graph(&[(112, 120), (120, 112)]);
    let m = BTreeMap::from([(20, 120)]);
    assert_eq!(consensus(12, &ga, &gb, &m), Some((112, 1, 0)));
}

#[test]
fn the_order_of_the_seeds_does_not_matter() {
    let ga = graph(&[(10, 12), (11, 12), (12, 13), (10, 13)]);
    let gb = graph(&[(110, 112), (111, 112), (112, 113), (110, 113)]);
    let one = align(&ga, &gb, &[(10, 110), (11, 111)]);
    let two = align(&ga, &gb, &[(11, 111), (10, 110)]);
    assert_eq!(one, two);
    assert_eq!(one.get(&12), Some(&112));
    assert_eq!(one.get(&13), Some(&113));
}
