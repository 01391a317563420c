use maple_core::memory::{BufferSource, Region};
use maple_core::pattern::Arch;
use maple_core::sigmaker::types::ImageInput;
use maple_core::sigmaker::similarity::SIM_ONE;
use maple_core::sigmaker::strands::{best_strand_match, strand_set, strand_similarity};

fn img<'a>(src: &'a BufferSource, base: usize, size: usize) -> ImageInput<'a> {
    ImageInput {
        label: "t".into(),
        source: src,
        base,
        size,
        code_regions: vec![Region { base, size }],
        regions: vec![Region { base, size }],
        import: None,
        arch: Arch::X86,
        code_hash: 0,
        packed: false,
        pack_reasons: Vec::new(),
        reloc: None,
    }
}

fn strands(bytes: Vec<u8>) -> Vec<u64> {
    let src = BufferSource::new(0x1000, bytes);
    strand_set(&img(&src, 0x1000, 0x40), 0)
}

#[test]
fn same_computation_through_different_registers_matches() {
    // Both: load [edi], add 5, move the value into eax, store to [esi], return. They differ only in
    // the intermediate register (ecx vs edx), which a recompile's register allocator routinely changes.
    // The data-flow shape is identical, so the strand sets are identical.
    // A: mov ecx,[edi]; add ecx,5; mov eax,ecx; mov [esi],eax; ret
    let a = strands(vec![
        0x8B, 0x0F, 0x83, 0xC1, 0x05, 0x89, 0xC8, 0x89, 0x06, 0xC3,
    ]);
    // B: mov edx,[edi]; add edx,5; mov eax,edx; mov [esi],eax; ret
    let b = strands(vec![
        0x8B, 0x17, 0x83, 0xC2, 0x05, 0x89, 0xD0, 0x89, 0x06, 0xC3,
    ]);
    assert!(!a.is_empty(), "the function has observable outputs");
    assert!(
        strand_similarity(&a, &b) == SIM_ONE,
        "register renaming must not change the data-flow strands (got {})",
        strand_similarity(&a, &b)
    );
}

#[test]
fn a_different_computation_does_not_match() {
    // A multiplies the loaded value (shl by 2) where the reference adds 5: a different computation, so
    // the store strand hashes differently and the sets do not fully agree.
    let a = strands(vec![
        0x8B, 0x0F, 0x83, 0xC1, 0x05, 0x89, 0xC8, 0x89, 0x06, 0xC3,
    ]);
    // C: mov eax,[edi]; shl eax,2; mov [esi],eax; ret
    let c = strands(vec![0x8B, 0x07, 0xC1, 0xE0, 0x02, 0x89, 0x06, 0xC3]);
    assert!(
        strand_similarity(&a, &c) < SIM_ONE,
        "a different computation must not be a perfect strand match"
    );
}

#[test]
fn best_strand_match_picks_the_winner_and_reports_a_distinct_runner_up() {
    let reference: Vec<u64> = vec![1, 2, 3, 4];
    // Candidate 1 (rva 0x400) is the perfect match; candidate 2 (rva 0x800, far enough to count as a
    // distinct rival) overlaps half; candidate 0 (rva 0x100) shares nothing.
    let cand_rvas = [0x100usize, 0x400, 0x800];
    let cand_strands: Vec<Vec<u64>> = vec![
        vec![7, 8, 9],
        vec![1, 2, 3, 4],
        vec![1, 2, 5, 6],
    ];
    let (idx, sim, runner) =
        best_strand_match(&reference, &cand_rvas, &cand_strands).expect("a winner");
    assert_eq!(idx, 1, "the identical strand set wins");
    assert!(sim == SIM_ONE, "the winner is a perfect match");
    assert!(
        runner == SIM_ONE / 2,
        "the runner-up is the half-overlapping rival, not the winner itself (got {runner})"
    );
}

#[test]
fn best_strand_match_ignores_a_near_duplicate_window_as_its_own_runner_up() {
    // Two entries a few bytes apart are the same site shifted by an instruction; the second must not be
    // reported as a distinct runner-up, so a lone true match keeps a zero runner-up (full margin).
    let reference: Vec<u64> = vec![1, 2, 3, 4];
    let cand_rvas = [0x400usize, 0x404];
    let cand_strands: Vec<Vec<u64>> = vec![
        vec![1, 2, 3, 4],
        vec![1, 2, 3, 4],
    ];
    let (_, _, runner) =
        best_strand_match(&reference, &cand_rvas, &cand_strands).expect("a winner");
    assert!(
        runner == 0,
        "a within-gap near-duplicate is not a distinct rival (got {runner})"
    );
}

#[test]
fn a_rival_that_was_overtaken_nearby_still_counts() {
    // The candidate at 8 is the winner's own site shifted; the one at 0 is far enough to be a rival.
    let reference: Vec<u64> = vec![1, 2, 3, 4];
    let strands: Vec<Vec<u64>> = vec![vec![1, 2, 8, 9], vec![1, 2, 3, 9], vec![1, 2, 3, 4]];
    assert_eq!(
        best_strand_match(&reference, &[0, 8, 20], &strands),
        Some((2, SIM_ONE, SIM_ONE / 2))
    );
}
