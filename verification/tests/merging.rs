use xtr_warp::score::Score;
use xtr_warp::search::combiner::{Combiner, ReduceMaxCombiner, ReduceSumMseCombiner};
use xtr_warp::search::merger::{AnnotatedStrideView, MergerConfig, ResultMerger};
use xtr_warp::search::ranking::top_positions;
use xtr_warp::utils::types::Device;

/// Single-precision scores.
#[derive(Clone, Copy, Debug, PartialEq)]
struct Single(f32);

impl Score for Single {
    fn spec_zero() -> Self {
        Single(0.0)
    }

    fn spec_larger(self, other: Self) -> Self {
        Single(self.0.max(other.0))
    }

    fn spec_plus(self, other: Self) -> Self {
        Single(self.0 + other.0)
    }

    fn spec_minus(self, other: Self) -> Self {
        Single(self.0 - other.0)
    }

    fn spec_exceeds(self, other: Self) -> bool {
        self.0 > other.0
    }

    fn zero() -> Self {
        Single(0.0)
    }

    fn larger(self, other: Self) -> Self {
        Single(self.0.max(other.0))
    }

    fn plus(self, other: Self) -> Self {
        Single(self.0 + other.0)
    }

    fn minus(self, other: Self) -> Self {
        Single(self.0 - other.0)
    }

    fn exceeds(self, other: Self) -> bool {
        self.0 > other.0
    }
}

fn merger(device: Device, max_candidates: usize) -> ResultMerger {
    ResultMerger::new(MergerConfig { max_candidates, num_threads: 1, device })
}

fn view(entries: &[(i64, i64)]) -> AnnotatedStrideView<i64> {
    AnnotatedStrideView::from_data(
        entries.iter().map(|e| e.0).collect(),
        entries.iter().map(|e| e.1).collect(),
        entries.len(),
    )
}

fn entries(view: &AnnotatedStrideView<i64>) -> Vec<(i64, i64)> {
    (0..view.size).map(|i| (view.pids[i], view.scores[i])).collect()
}

/// Two tokens, two cells each. Passage 1 is in both cells of token 0 and in
/// token 1; passage 2 only in token 0, passage 5 and 9 only in token 1.
fn sample() -> (Vec<i64>, Vec<i32>, Vec<i64>, Vec<i64>, Vec<i64>) {
    let capacities = vec![4, 4, 4, 4];
    let sizes = vec![2, 1, 0, 3];
    let pids = vec![1, 2, 1, 1, 5, 9];
    let scores = vec![10, 20, 30, 7, 50, 60];
    let mse = vec![3, 4];
    (capacities, sizes, pids, scores, mse)
}

#[test]
fn an_empty_view_has_room() {
    let v: AnnotatedStrideView<i64> = AnnotatedStrideView::with_capacity(3);
    assert_eq!(v.size, 0);
    assert_eq!(v.pids, vec![0, 0, 0]);
    assert_eq!(v.scores, vec![0, 0, 0]);
}

#[test]
fn combiners_follow_their_formulas() {
    let max = ReduceMaxCombiner;
    assert_eq!(max.combine(3i64, 5), 5);
    assert_eq!(Combiner::<i64>::lhs(&max, 3), 3);
    assert_eq!(Combiner::<i64>::rhs(&max, 4), 4);
    let sum = ReduceSumMseCombiner::new(100i64, 1000);
    assert_eq!(sum.combine(3, 5), 8);
    assert_eq!(sum.lhs(3), 1003);
    assert_eq!(sum.rhs(5), 105);
}

#[test]
fn two_lists_merge_in_passage_order() {
    let a = view(&[(1, 10), (4, 40), (6, 60)]);
    let b = view(&[(2, 20), (4, 41), (9, 90)]);
    let mut out = AnnotatedStrideView::with_capacity(0);
    ResultMerger::merge_candidate_strides_with_combiner(&a, &b, &mut out, &ReduceMaxCombiner);
    assert_eq!(entries(&out), vec![(1, 10), (2, 20), (4, 41), (6, 60), (9, 90)]);
    let sum = ReduceSumMseCombiner::new(100i64, 1000);
    ResultMerger::merge_candidate_strides_with_combiner(&a, &b, &mut out, &sum);
    assert_eq!(
        entries(&out),
        vec![(1, 1010), (2, 120), (4, 81), (6, 1060), (9, 190)]
    );
}

#[test]
fn merged_lists_grow_and_never_shrink() {
    let single = |scores: &[f32]| scores.iter().map(|s| Single(*s)).collect::<Vec<Single>>();
    let a = AnnotatedStrideView::from_data(vec![1, 3], single(&[0.5, 2.0]), 2);
    let b = AnnotatedStrideView::from_data(vec![3, 7], single(&[1.0, 4.0]), 2);
    let sum = ReduceSumMseCombiner::new(Single(0.25), Single(0.5));
    let mut out = AnnotatedStrideView::with_capacity(0);
    ResultMerger::merge_candidate_strides_with_combiner(&a, &b, &mut out, &sum);
    assert_eq!(out.size, 3);
    assert_eq!(out.pids[..3], [1, 3, 7]);
    assert_eq!(out.scores[..3], single(&[1.0, 3.0, 4.25])[..]);
    assert_eq!((out.pids.len(), out.scores.len()), (4, 4));
    let mut wide = AnnotatedStrideView::from_data(vec![8; 6], single(&[9.0; 6]), 6);
    ResultMerger::merge_candidate_strides_with_combiner(&a, &b, &mut wide, &sum);
    assert_eq!(wide.size, 3);
    assert_eq!(wide.pids, vec![1, 3, 7, 8, 8, 8]);
    assert_eq!(wide.scores, single(&[1.0, 3.0, 4.25, 9.0, 9.0, 9.0]));
}

#[test]
fn merging_with_an_empty_list_keeps_the_other() {
    let a = view(&[]);
    let b = view(&[(2, 20)]);
    let mut out = AnnotatedStrideView::with_capacity(0);
    let sum = ReduceSumMseCombiner::new(5i64, 7);
    ResultMerger::merge_candidate_strides_with_combiner(&a, &b, &mut out, &sum);
    assert_eq!(entries(&out), vec![(2, 25)]);
    ResultMerger::merge_candidate_strides_with_combiner(&b, &a, &mut out, &sum);
    assert_eq!(entries(&out), vec![(2, 27)]);
}

#[test]
fn a_copied_list_replaces_the_old_one() {
    let a = view(&[(3, 30), (8, 80)]);
    let mut out = view(&[(1, 1), (2, 2), (3, 3)]);
    ResultMerger::copy_candidate_stride(&a, &mut out);
    assert_eq!(entries(&out), vec![(3, 30), (8, 80)]);
    assert_eq!(out.pids, vec![3, 8, 3]);
    let mut short = view(&[(1, 1)]);
    ResultMerger::copy_candidate_stride(&a, &mut short);
    assert_eq!((short.pids.len(), short.scores.len()), (2, 2));
}

#[test]
fn probes_of_one_token_end_up_in_its_first_slot() {
    // Three probes take two rounds, so the result is back in `views`.
    let mut views = vec![view(&[(0, 0)]), view(&[(0, 0)]), view(&[(0, 0)])];
    views.push(view(&[(1, 5), (2, 6)]));
    views.push(view(&[(2, 9)]));
    views.push(view(&[(1, 7), (3, 1)]));
    let mut buffer: Vec<AnnotatedStrideView<i64>> =
        (0..6).map(|_| AnnotatedStrideView::with_capacity(0)).collect();
    let rounds = ResultMerger::merge_candidates_nprobe(&mut views, &mut buffer, 3, 1);
    assert_eq!(rounds, 2);
    assert_eq!(entries(&views[3]), vec![(1, 7), (2, 9), (3, 1)]);
    assert_eq!(entries(&views[0]), vec![(0, 0)]);
}

#[test]
fn slots_keep_their_room() {
    let mut views = vec![view(&[(1, 5), (2, 6)]), view(&[(2, 9)]), view(&[(1, 7), (3, 1)])];
    let mut buffer = vec![
        AnnotatedStrideView::from_data(vec![9; 5], vec![8; 5], 5),
        AnnotatedStrideView::from_data(vec![9], vec![8], 1),
        AnnotatedStrideView::with_capacity(0),
    ];
    assert_eq!(ResultMerger::merge_candidates_nprobe(&mut views, &mut buffer, 3, 0), 2);
    assert_eq!(entries(&views[0]), vec![(1, 7), (2, 9), (3, 1)]);
    // The last round gave room for both of its lists.
    assert_eq!(views[0].pids, vec![1, 2, 3, 0]);
    assert_eq!(views[0].scores, vec![7, 9, 1, 0]);
    assert_eq!(views[1].pids, vec![2]);
    // Behind the two entries of the first round the old ones stand.
    assert_eq!(entries(&buffer[0]), vec![(1, 5), (2, 9)]);
    assert_eq!(buffer[0].pids, vec![1, 2, 9, 9, 9]);
    assert_eq!(buffer[0].scores, vec![5, 9, 8, 8, 8]);
    assert_eq!((buffer[1].pids.len(), buffer[2].pids.len()), (1, 2));
}

#[test]
fn tokens_keep_the_room_of_their_slots() {
    let mut views = vec![view(&[(1, 10), (2, 20)]), view(&[(1, 1)])];
    let mut buffer = vec![
        AnnotatedStrideView::from_data(vec![9; 4], vec![8; 4], 0),
        AnnotatedStrideView::with_capacity(0),
    ];
    ResultMerger::merge_candidates_tokens(&mut views, &mut buffer, 1, &vec![100, 1000], 2);
    // One round: the buffers have changed places.
    assert_eq!(entries(&views[0]), vec![(1, 11), (2, 1020)]);
    assert_eq!(views[0].pids, vec![1, 2, 9, 9]);
    assert_eq!(buffer[0].pids, vec![1, 2]);
}

#[test]
fn scores_that_rank_nowhere_have_their_place() {
    let scores = [1.0, f32::NAN, 2.0, 0.0].map(Single).to_vec();
    assert_eq!(top_positions(scores.clone(), 4), vec![2, 0, 1, 3]);
    assert_eq!(top_positions(scores, 2), vec![2, 0]);
    let none = [f32::NAN; 3].map(Single).to_vec();
    assert_eq!(top_positions(none, 3), vec![0, 1, 2]);
}

#[test]
fn one_probe_takes_no_round() {
    let mut views = vec![view(&[(1, 5)])];
    let mut buffer: Vec<AnnotatedStrideView<i64>> = vec![AnnotatedStrideView::with_capacity(0)];
    assert_eq!(ResultMerger::merge_candidates_nprobe(&mut views, &mut buffer, 1, 0), 0);
    assert_eq!(entries(&views[0]), vec![(1, 5)]);
}

#[test]
fn missing_tokens_are_credited_their_estimates() {
    let mut views = vec![view(&[(1, 10), (2, 20)]), view(&[(1, 1)]), view(&[(3, 30)])];
    let mut buffer: Vec<AnnotatedStrideView<i64>> =
        (0..3).map(|_| AnnotatedStrideView::with_capacity(0)).collect();
    ResultMerger::merge_candidates_tokens(&mut views, &mut buffer, 1, &vec![100, 1000, 10000], 3);
    assert_eq!(entries(&views[0]), vec![(1, 10011), (2, 11020), (3, 1130)]);
}

#[test]
fn positions_rank_by_score_and_then_by_position() {
    assert_eq!(top_positions(vec![5i64, 9, 5, 7], 3), vec![1, 3, 0]);
    assert_eq!(top_positions(vec![5i64, 9], 10), vec![1, 0]);
    assert_eq!(top_positions(Vec::<i64>::new(), 4), Vec::<usize>::new());
}

#[test]
fn the_best_entries_come_from_the_whole_list() {
    let v = view(&[(1, 1), (2, 2), (3, 3), (4, 99)]);
    assert_eq!(ResultMerger::partial_sort_results(&v, 2), vec![3, 2]);
}

#[test]
fn host_merge_sums_best_scores_and_estimates() {
    let (capacities, sizes, pids, scores, mse) = sample();
    let (p, s) = merger(Device::Cpu, 256)
        .merge_candidate_scores(&capacities, &sizes, &pids, &scores, &mse, 2, 1);
    // 1: 30 + 7; 2: 20 + 4; 5: 3 + 50; 9: 3 + 60
    assert_eq!(p, vec![9, 5, 1, 2]);
    assert_eq!(s, vec![63, 53, 37, 24]);
}

#[test]
fn host_results_are_padded_to_k_and_capped() {
    let (capacities, sizes, pids, scores, mse) = sample();
    let (p, s) = merger(Device::Cpu, 256)
        .merge_candidate_scores(&capacities, &sizes, &pids, &scores, &mse, 2, 6);
    assert_eq!(p, vec![9, 5, 1, 2, 0, 0]);
    assert_eq!(s, vec![63, 53, 37, 24, 0, 0]);
    let (p, _) = merger(Device::Mps, 2)
        .merge_candidate_scores(&capacities, &sizes, &pids, &scores, &mse, 2, 1);
    assert_eq!(p, vec![9, 5]);
    let (p, _) = merger(Device::Cpu, 2)
        .merge_candidate_scores(&capacities, &sizes, &pids, &scores, &mse, 2, 3);
    assert_eq!(p, vec![9, 5, 1]);
}

#[test]
fn cuda_merge_agrees_without_padding() {
    let (capacities, sizes, pids, scores, mse) = sample();
    let (p, s) = merger(Device::Cuda(0), 256)
        .merge_candidate_scores(&capacities, &sizes, &pids, &scores, &mse, 2, 6);
    assert_eq!(p, vec![9, 5, 1, 2]);
    assert_eq!(s, vec![63, 53, 37, 24]);
}

#[test]
fn cuda_merge_of_nothing_is_empty() {
    let (p, s) = merger(Device::Cuda(1), 256).merge_candidate_scores(
        &vec![1, 1],
        &vec![0, 0],
        &Vec::new(),
        &Vec::<i64>::new(),
        &vec![1],
        2,
        5,
    );
    assert_eq!(p, Vec::<i64>::new());
    assert_eq!(s, Vec::<i64>::new());
}

#[test]
fn missing_estimates_count_as_zero() {
    let (capacities, sizes, pids, scores, _) = sample();
    for device in [Device::Cpu, Device::Cuda(0)] {
        let (p, s) = merger(device, 256)
            .merge_candidate_scores(&capacities, &sizes, &pids, &scores, &vec![3], 2, 1);
        assert_eq!(p, vec![9, 5, 1, 2]);
        assert_eq!(s, vec![63, 53, 37, 20]);
    }
}

#[test]
fn single_precision_scores_merge_alike() {
    let (capacities, sizes, pids, scores, _) = sample();
    let scores: Vec<Single> = scores.iter().map(|s| Single(*s as f32 / 2.0)).collect();
    let mse = vec![Single(1.5), Single(2.0)];
    for device in [Device::Cpu, Device::Cuda(0)] {
        let (p, s) = merger(device, 256)
            .merge_candidate_scores(&capacities, &sizes, &pids, &scores, &mse, 2, 4);
        assert_eq!(p, vec![9, 5, 1, 2]);
        assert_eq!(s, vec![Single(31.5), Single(26.5), Single(18.5), Single(12.0)]);
    }
}

/// Cells of ascending passages, drawn from a fixed sequence of numbers.
fn drawn_cells(seed: u64, num_cells: usize) -> (Vec<i64>, Vec<i32>, Vec<i64>, Vec<i64>) {
    let mut state = seed;
    let mut next = |n: u64| {
        state = state.wrapping_mul(6364136223846793005).wrapping_add(1442695040888963407);
        (state >> 33) % n
    };
    let mut sizes = Vec::new();
    let mut pids = Vec::new();
    let mut scores = Vec::new();
    for _ in 0..num_cells {
        let mut size = 0;
        for pid in 0..12 {
            if next(3) == 0 {
                pids.push(pid);
                scores.push(next(100) as i64 - 50);
                size += 1;
            }
        }
        sizes.push(size);
    }
    (vec![0; num_cells], sizes, pids, scores)
}

/// The scores of all passages by their definition.
fn expected_scores(
    sizes: &[i32],
    pids: &[i64],
    scores: &[i64],
    mse: &[i64],
    nprobe: usize,
) -> Vec<(i64, i64)> {
    let num_tokens = sizes.len() / nprobe;
    let mut all = Vec::new();
    for pid in 0..12 {
        let mut best: Vec<Option<i64>> = vec![None; num_tokens];
        let mut at = 0;
        for (cell, size) in sizes.iter().enumerate() {
            for _ in 0..*size {
                if pids[at] == pid {
                    let token = cell / nprobe;
                    best[token] = Some(best[token].map_or(scores[at], |b| b.max(scores[at])));
                }
                at += 1;
            }
        }
        if best.iter().any(|b| b.is_some()) {
            let total: i64 = (0..num_tokens)
                .map(|t| best[t].unwrap_or(mse.get(t).copied().unwrap_or(0)))
                .sum();
            all.push((pid, total));
        }
    }
    all.sort_by_key(|e| (-e.1, e.0));
    all
}

#[test]
fn both_merges_score_by_the_definition() {
    for seed in 0..60 {
        let nprobe = 1 + (seed % 5) as usize;
        let num_tokens = 1 + (seed % 7) as usize;
        let (capacities, sizes, pids, scores) = drawn_cells(seed, nprobe * num_tokens);
        let mse: Vec<i64> = (0..num_tokens as i64 - 1).map(|t| 3 * t - 5).collect();
        let expected = expected_scores(&sizes, &pids, &scores, &mse, nprobe);
        for device in [Device::Cpu, Device::Cuda(0)] {
            let m = merger(device, 256);
            if !m.can_merge(capacities.len(), &sizes, pids.len(), scores.len(), nprobe, 1) {
                assert!(pids.is_empty());
                continue;
            }
            let (p, s) =
                m.merge_candidate_scores(&capacities, &sizes, &pids, &scores, &mse, nprobe, 1);
            let merged: Vec<(i64, i64)> = p.into_iter().zip(s).collect();
            assert_eq!(merged, expected, "seed {}", seed);
        }
    }
}

#[test]
fn input_is_checked_before_it_is_merged() {
    let host = merger(Device::Cpu, 0);
    assert!(host.can_merge(2, &vec![1, 0], 1, 1, 2, 1));
    assert!(!host.can_merge(2, &vec![1, 0], 1, 1, 2, 0));
    assert!(!host.can_merge(2, &vec![1, 0], 1, 1, 0, 1));
    assert!(!host.can_merge(3, &vec![1, 0, 0], 1, 1, 2, 1));
    assert!(!host.can_merge(3, &vec![1, 0], 1, 1, 1, 1));
    assert!(!host.can_merge(2, &vec![0, 0], 0, 0, 2, 1));
    assert!(!host.can_merge(2, &vec![2, 0], 1, 2, 2, 1));
    assert!(!host.can_merge(2, &vec![2, 0], 2, 1, 2, 1));
    assert!(!host.can_merge(2, &vec![2, -1], 1, 1, 1, 1));
    assert!(host.can_merge(1, &vec![1, -1], 1, 1, 1, 1));
    let cuda = merger(Device::Cuda(0), 0);
    assert!(cuda.can_merge(9, &vec![2, 1, 0], 3, 3, 2, 0));
    assert!(!cuda.can_merge(3, &vec![2, 1, 0], 2, 3, 2, 0));
    assert!(!cuda.can_merge(3, &vec![2, 1, 0], 3, 2, 2, 0));
    assert!(cuda.can_merge(0, &vec![], 0, 0, 0, 0));
}
