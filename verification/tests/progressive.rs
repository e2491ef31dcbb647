//! Searches that go on in rounds.
use vector_index::progressive::{
    ivf_search_result_is_complete, ProgressiveBatchSearch, ProgressiveSearch,
};
use vector_index::search_params::VectorSearchParams;

fn bits(values: &[f32]) -> Vec<u32> {
    values.iter().map(|value| value.to_bits()).collect()
}

fn floats(values: &[u32]) -> Vec<f32> {
    values.iter().map(|&value| f32::from_bits(value)).collect()
}

type Found = (Vec<i64>, Vec<f32>);

/// A round: the probe range, the number of queries, the queries, and the seeds.
type Round = (usize, usize, usize, Vec<f32>, Vec<i64>, Vec<f32>);

fn run_search(mut search: ProgressiveSearch, find: &dyn Fn(usize) -> Found) -> (Vec<usize>, Found) {
    let mut observed = Vec::new();
    loop {
        observed.push(search.nprobe);
        let found = find(search.nprobe);
        if search.advance(&bits(&found.1)) {
            return (observed, found);
        }
    }
}

fn run_batch(
    mut search: ProgressiveBatchSearch,
    find: &dyn Fn(&Round) -> Found,
) -> (Vec<Round>, Found) {
    let mut observed = Vec::new();
    while let Some(round) = search.next_round() {
        let round = (
            round.probe_start,
            round.probe_end,
            round.query_count,
            floats(&round.queries),
            round.seed_ids,
            floats(&round.seed_distances),
        );
        let (ids, distances) = find(&round);
        observed.push(round);
        search.accept(&ids, &bits(&distances));
    }
    let (ids, distances) = search.into_result();
    (observed, (ids, floats(&distances)))
}

#[test]
fn automatic_filtered_search_expands_until_results_are_filled() {
    let search = ProgressiveSearch::start(VectorSearchParams::automatic(2), 16, 2, 1, 2, 10);
    let (observed, result) = run_search(search, &|nprobe| {
        if nprobe < 8 {
            (vec![7, -1], vec![1.0, f32::MAX])
        } else {
            (vec![7, 8], vec![1.0, 2.0])
        }
    });
    assert_eq!(observed, vec![2, 4, 8]);
    assert_eq!(result.0, vec![7, 8]);
}

#[test]
fn automatic_batch_search_scans_only_new_probe_ranges_and_merges_results() {
    let queries = vec![10.0, 20.0, 30.0];
    let search = ProgressiveBatchSearch::start(
        VectorSearchParams::automatic(3),
        8,
        2,
        &bits(&queries),
        3,
        3,
        10,
    );
    let (observed, result) = run_batch(search, &|round| match (round.0, round.1) {
        (0, 2) => (
            vec![100, 101, 102, 200, -1, -1, 300, 301, 302],
            vec![1.0, 2.0, 3.0, 5.0, f32::MAX, f32::MAX, 1.0, 2.0, 3.0],
        ),
        (2, 4) => (vec![201, 200, -1], vec![4.0, 5.0, f32::MAX]),
        (4, 8) => (vec![202, 201, 200], vec![3.0, 4.0, 5.0]),
        _ => unreachable!("unexpected probe range {}..{}", round.0, round.1),
    });

    assert_eq!(
        observed,
        vec![
            (0, 2, 3, vec![10.0, 20.0, 30.0], vec![], vec![]),
            (2, 4, 1, vec![20.0], vec![200, -1, -1], vec![5.0, f32::MAX, f32::MAX]),
            (4, 8, 1, vec![20.0], vec![201, 200, -1], vec![4.0, 5.0, f32::MAX]),
        ]
    );
    assert_eq!(result.0, vec![100, 101, 102, 202, 201, 200, 300, 301, 302]);
    assert_eq!(result.1, vec![1.0, 2.0, 3.0, 3.0, 4.0, 5.0, 1.0, 2.0, 3.0]);
}

#[test]
fn automatic_batch_search_chunks_queries_and_seeds_to_bound_retry_memory() {
    let queries = vec![10.0, 11.0, 20.0, 21.0, 30.0, 31.0, 40.0, 41.0];
    let search = ProgressiveBatchSearch::start_with_retry_buffer_limit(
        VectorSearchParams::automatic(2),
        4,
        2,
        &bits(&queries),
        4,
        2,
        10,
        32,
    );
    let (observed, result) = run_batch(search, &|round| {
        if round.0 == 0 {
            return (
                vec![100, 101, 200, -1, 300, -1, 400, -1],
                vec![1.0, 2.0, 1.0, f32::MAX, 1.0, f32::MAX, 1.0, f32::MAX],
            );
        }
        let query = round.3[0] as i64;
        (vec![query, query + 1], vec![1.0, 2.0])
    });

    assert_eq!(
        observed,
        vec![
            (0, 2, 4, queries, vec![], vec![]),
            (2, 4, 1, vec![20.0, 21.0], vec![200, -1], vec![1.0, f32::MAX]),
            (2, 4, 1, vec![30.0, 31.0], vec![300, -1], vec![1.0, f32::MAX]),
            (2, 4, 1, vec![40.0, 41.0], vec![400, -1], vec![1.0, f32::MAX]),
        ]
    );
    assert_eq!(result.0, vec![100, 101, 20, 21, 30, 31, 40, 41]);
}

#[test]
fn fixed_batch_search_runs_once_with_the_full_batch() {
    let queries = vec![10.0, 20.0, 30.0];
    let search = ProgressiveBatchSearch::start(
        VectorSearchParams::new(2, 4),
        8,
        4,
        &bits(&queries),
        3,
        2,
        10,
    );
    let (observed, result) = run_batch(search, &|_| {
        (vec![100, 101, 200, 201, 300, 301], vec![1.0, 2.0, 1.0, 2.0, 1.0, 2.0])
    });

    assert_eq!(observed, vec![(0, 4, 3, queries, vec![], vec![])]);
    assert_eq!(result.0, vec![100, 101, 200, 201, 300, 301]);
    assert_eq!(result.1, vec![1.0, 2.0, 1.0, 2.0, 1.0, 2.0]);
}

#[test]
fn progressive_batch_seed_preserves_negative_one_row_ids() {
    let search = ProgressiveBatchSearch::start(
        VectorSearchParams::automatic(2),
        4,
        2,
        &bits(&[1.0]),
        1,
        2,
        10,
    );
    let (_, result) = run_batch(search, &|round| {
        if round.0 == 0 {
            (vec![-1, -1], vec![0.5, f32::MAX])
        } else {
            assert_eq!((round.0, round.1), (2, 4));
            assert_eq!(round.4, &[-1, -1]);
            assert_eq!(round.5, &[0.5, f32::MAX]);
            (vec![-1, 8], vec![0.5, 2.0])
        }
    });

    assert_eq!(result.0, vec![-1, 8]);
    assert_eq!(result.1, vec![0.5, 2.0]);
}

#[test]
fn capped_automatic_filtered_search_can_expand_past_the_initial_cap() {
    let params = VectorSearchParams::automatic(2).with_max_initial_filter_expansion_factor(4);
    let initial_nprobe = params.resolve_ivf_nprobe(256, 2_560_000, Some(256_000)).unwrap();
    let search = ProgressiveSearch::start(params, 256, initial_nprobe, 1, 2, 256_000);
    let (observed, result) = run_search(search, &|nprobe| {
        if nprobe < 128 {
            (vec![7, -1], vec![1.0, f32::MAX])
        } else {
            (vec![7, 8], vec![1.0, 2.0])
        }
    });
    assert_eq!(observed, vec![64, 128]);
    assert_eq!(result.0, vec![7, 8]);
}

#[test]
fn automatic_search_treats_negative_row_ids_as_valid_results() {
    let search = ProgressiveSearch::start(VectorSearchParams::automatic(2), 16, 2, 1, 2, 10);
    let (observed, result) = run_search(search, &|_| (vec![-1, -7], vec![1.0, 2.0]));
    assert_eq!(observed, vec![2]);
    assert_eq!(result.0, vec![-1, -7]);
}

#[test]
fn searches_end_once_every_list_was_searched() {
    let search = ProgressiveSearch::start(VectorSearchParams::automatic(2), 5, 2, 1, 2, 10);
    let (observed, _) = run_search(search, &|_| (vec![-1, -1], vec![f32::MAX, f32::MAX]));
    assert_eq!(observed, vec![2, 4, 5]);

    let batch = ProgressiveBatchSearch::start(
        VectorSearchParams::automatic(1),
        5,
        2,
        &bits(&[1.0, 2.0]),
        2,
        1,
        10,
    );
    let (observed, result) = run_batch(batch, &|round| {
        (vec![-1; round.2], vec![f32::MAX; round.2])
    });
    let ranges: Vec<(usize, usize)> = observed.iter().map(|round| (round.0, round.1)).collect();
    assert_eq!(ranges, vec![(0, 2), (2, 4), (4, 5)]);
    assert_eq!(result.0, vec![-1, -1]);
}

#[test]
fn searches_without_matching_rows_end_at_once() {
    let search = ProgressiveSearch::start(VectorSearchParams::automatic(2), 16, 2, 1, 2, 0);
    let (observed, _) = run_search(search, &|_| (vec![-1, -1], vec![f32::MAX, f32::MAX]));
    assert_eq!(observed, vec![2]);
}

#[test]
fn results_are_complete_when_enough_places_have_rows() {
    let distances = bits(&[1.0, f32::MAX, 2.0]);
    assert!(ivf_search_result_is_complete(&distances, 0));
    assert!(ivf_search_result_is_complete(&distances, 2));
    assert!(!ivf_search_result_is_complete(&distances, 3));
    assert!(ivf_search_result_is_complete(&bits(&[f32::NAN]), 1));
}
