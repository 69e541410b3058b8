use sortforge_3d::algorithms::{
    Algorithm, BubbleSort, InsertionSort, QuickSort, SelectionSort, SortingAlgorithm,
};
use sortforge_3d::simulation::{ArrayState, ElementState, Metrics, SortEvent};

/// Replay an algorithm's events against a fresh `ArrayState` built from
/// `input`, then check the array is sorted, is a permutation of the input,
/// and that every element ended up flagged `Sorted`.
fn assert_events_sort(algorithm: Algorithm, input: &[u32]) {
    let events = algorithm.generate_events(input);

    let mut state = ArrayState::new(input.to_vec());
    for event in &events {
        state.apply(event);
    }

    assert!(
        state.is_sorted(),
        "{} did not sort {:?} -> {:?}",
        algorithm.name(),
        input,
        state.values()
    );

    let mut got = state.values().to_vec();
    let mut expected = input.to_vec();
    got.sort_unstable();
    expected.sort_unstable();
    assert_eq!(got, expected, "{} changed the multiset", algorithm.name());

    assert!(
        state.states().iter().all(|s| *s == ElementState::Sorted),
        "{} left elements unmarked",
        algorithm.name()
    );
}

fn test_inputs() -> Vec<Vec<u32>> {
    vec![
        vec![],
        vec![1],
        vec![2, 1],
        vec![1, 2, 3, 4, 5],
        vec![5, 4, 3, 2, 1],
        vec![3, 1, 4, 1, 5, 9, 2, 6, 5, 3, 5],
        vec![5, 1, 4, 2, 8, 3, 7, 6, 9, 0],
        vec![7, 7, 7, 7, 7],
    ]
}

#[test]
fn all_algorithms_sort_all_inputs() {
    for algorithm in Algorithm::ALL {
        for input in test_inputs() {
            assert_events_sort(algorithm, &input);
        }
    }
}

#[test]
fn handles_a_larger_random_array() {
    let mut x: u32 = 0x1234_5678;
    let input: Vec<u32> = (0..128)
        .map(|_| {
            x ^= x << 13;
            x ^= x >> 17;
            x ^= x << 5;
            x % 1000
        })
        .collect();
    for algorithm in Algorithm::ALL {
        assert_events_sort(algorithm, &input);
    }
}

#[test]
fn metrics_match_event_counts() {
    let input = vec![5, 4, 3, 2, 1];
    let events = Algorithm::Bubble.generate_events(&input);
    let mut metrics = Metrics::new();
    for e in &events {
        metrics.record(e);
    }
    assert_eq!(metrics.comparisons, 10);
    assert_eq!(metrics.swaps, 10);
    assert_eq!(metrics.writes, 20);
}

#[test]
fn every_run_ends_with_algorithm_finished() {
    for algorithm in Algorithm::ALL {
        for input in test_inputs() {
            let events = algorithm.generate_events(&input);
            assert_eq!(events.last(), Some(&SortEvent::AlgorithmFinished));
        }
    }
}

#[test]
fn algorithm_names_and_complexities() {
    assert_eq!(Algorithm::Bubble.name(), "Bubble Sort");
    assert_eq!(Algorithm::Insertion.name(), "Insertion Sort");
    assert_eq!(Algorithm::Selection.name(), "Selection Sort");
    assert_eq!(Algorithm::Quick.name(), "Quick Sort");
    assert_eq!(Algorithm::Bubble.complexity(), "O(n^2)");
    assert_eq!(Algorithm::Insertion.complexity(), "O(n^2)");
    assert_eq!(Algorithm::Selection.complexity(), "O(n^2)");
    assert_eq!(Algorithm::Quick.complexity(), "O(n log n) avg");
    assert_eq!(BubbleSort.name(), "Bubble Sort");
    assert_eq!(InsertionSort.name(), "Insertion Sort");
    assert_eq!(SelectionSort.name(), "Selection Sort");
    assert_eq!(QuickSort.name(), "Quick Sort");
}

#[test]
fn bubble_sort_exact_events_for_two_elements() {
    let events = BubbleSort.generate_events(&[2, 1]);
    assert_eq!(
        events,
        vec![
            SortEvent::Compare { i: 0, j: 1 },
            SortEvent::Swap { i: 0, j: 1 },
            SortEvent::MarkSorted { index: 1 },
            SortEvent::MarkSorted { index: 0 },
            SortEvent::AlgorithmFinished,
        ]
    );
}

#[test]
fn bubble_sort_stops_early_on_sorted_input() {
    let events = BubbleSort.generate_events(&[1, 2, 3]);
    assert_eq!(
        events,
        vec![
            SortEvent::Compare { i: 0, j: 1 },
            SortEvent::Compare { i: 1, j: 2 },
            SortEvent::MarkSorted { index: 2 },
            SortEvent::MarkSorted { index: 0 },
            SortEvent::MarkSorted { index: 1 },
            SortEvent::AlgorithmFinished,
        ]
    );
}

#[test]
fn insertion_sort_shifts_with_overwrites() {
    let events = InsertionSort.generate_events(&[2, 1]);
    assert_eq!(
        events,
        vec![
            SortEvent::Compare { i: 0, j: 1 },
            SortEvent::Overwrite { index: 1, value: 2 },
            SortEvent::Overwrite { index: 0, value: 1 },
            SortEvent::ClearHighlights,
            SortEvent::MarkSorted { index: 0 },
            SortEvent::MarkSorted { index: 1 },
            SortEvent::AlgorithmFinished,
        ]
    );
}

#[test]
fn selection_sort_tracks_the_running_minimum() {
    let events = SelectionSort.generate_events(&[2, 1]);
    assert_eq!(
        events,
        vec![
            SortEvent::SetPivot { index: 0 },
            SortEvent::Compare { i: 1, j: 0 },
            SortEvent::SetPivot { index: 1 },
            SortEvent::Swap { i: 0, j: 1 },
            SortEvent::ClearHighlights,
            SortEvent::MarkSorted { index: 0 },
            SortEvent::SetPivot { index: 1 },
            SortEvent::ClearHighlights,
            SortEvent::MarkSorted { index: 1 },
            SortEvent::AlgorithmFinished,
        ]
    );
}

#[test]
fn quick_sort_partitions_around_the_last_element() {
    let events = QuickSort.generate_events(&[3, 1, 2]);
    assert_eq!(
        events,
        vec![
            SortEvent::SetPivot { index: 2 },
            SortEvent::Compare { i: 0, j: 2 },
            SortEvent::Compare { i: 1, j: 2 },
            SortEvent::Swap { i: 0, j: 1 },
            SortEvent::Swap { i: 1, j: 2 },
            SortEvent::ClearHighlights,
            SortEvent::MarkSorted { index: 1 },
            SortEvent::MarkSorted { index: 0 },
            SortEvent::MarkSorted { index: 2 },
            SortEvent::AlgorithmFinished,
        ]
    );
}

#[test]
fn empty_and_single_inputs() {
    for algorithm in Algorithm::ALL {
        assert_eq!(algorithm.generate_events(&[]), vec![SortEvent::AlgorithmFinished]);
    }
    assert_eq!(
        QuickSort.generate_events(&[9]),
        vec![SortEvent::MarkSorted { index: 0 }, SortEvent::AlgorithmFinished]
    );
}

fn writes(e: &SortEvent, k: usize) -> bool {
    match *e {
        SortEvent::Swap { i, j } => i == k || j == k,
        SortEvent::Overwrite { index, .. } => index == k,
        _ => false,
    }
}

#[test]
fn marked_indices_are_never_written_again() {
    for algorithm in Algorithm::ALL {
        for input in test_inputs() {
            let events = algorithm.generate_events(&input);
            for (t, e) in events.iter().enumerate() {
                if let SortEvent::MarkSorted { index } = *e {
                    assert!(
                        events[t + 1..].iter().all(|later| !writes(later, index)),
                        "{} wrote to {} after marking it sorted",
                        algorithm.name(),
                        index
                    );
                }
            }
            let finished = events
                .iter()
                .filter(|e| **e == SortEvent::AlgorithmFinished)
                .count();
            assert_eq!(finished, 1);
        }
    }
}

#[test]
fn bubble_sort_only_touches_neighbors() {
    let events = BubbleSort.generate_events(&[5, 1, 4, 2, 8, 3]);
    for e in &events {
        match *e {
            SortEvent::Compare { i, j } | SortEvent::Swap { i, j } => assert_eq!(j, i + 1),
            SortEvent::MarkSorted { .. } | SortEvent::AlgorithmFinished => {}
            other => panic!("unexpected bubble sort event {:?}", other),
        }
    }
}

#[test]
fn insertion_sort_marks_everything_at_the_end() {
    let input = [4, 3, 9, 1, 1, 7];
    let events = InsertionSort.generate_events(&input);
    let n = input.len();
    let m = events.len() - 1 - n;
    assert!(events[..m]
        .iter()
        .all(|e| !matches!(e, SortEvent::MarkSorted { .. })));
    for k in 0..n {
        assert_eq!(events[m + k], SortEvent::MarkSorted { index: k });
    }
}

#[test]
fn selection_and_quick_swap_forward() {
    let input = [3, 8, 1, 9, 2, 7, 2];
    for e in &SelectionSort.generate_events(&input) {
        match *e {
            SortEvent::Swap { i, j } => assert!(i < j),
            SortEvent::Compare { i, j } => assert!(j < i),
            SortEvent::Overwrite { .. } => panic!("selection sort never overwrites"),
            _ => {}
        }
    }
    for e in &QuickSort.generate_events(&input) {
        match *e {
            SortEvent::Swap { i, j } | SortEvent::Compare { i, j } => assert!(i < j),
            SortEvent::Overwrite { .. } => panic!("quick sort never overwrites"),
            _ => {}
        }
    }
}

#[test]
fn single_element_streams() {
    for algorithm in [Algorithm::Bubble, Algorithm::Insertion, Algorithm::Quick] {
        assert_eq!(
            algorithm.generate_events(&[7]),
            vec![SortEvent::MarkSorted { index: 0 }, SortEvent::AlgorithmFinished]
        );
    }
    assert_eq!(
        Algorithm::Selection.generate_events(&[7]),
        vec![
            SortEvent::SetPivot { index: 0 },
            SortEvent::ClearHighlights,
            SortEvent::MarkSorted { index: 0 },
            SortEvent::AlgorithmFinished,
        ]
    );
}

#[test]
fn quick_sort_exact_events_for_two_elements() {
    assert_eq!(
        QuickSort.generate_events(&[2, 1]),
        vec![
            SortEvent::SetPivot { index: 1 },
            SortEvent::Compare { i: 0, j: 1 },
            SortEvent::Swap { i: 0, j: 1 },
            SortEvent::ClearHighlights,
            SortEvent::MarkSorted { index: 0 },
            SortEvent::MarkSorted { index: 1 },
            SortEvent::AlgorithmFinished,
        ]
    );
}

#[test]
fn insertion_sort_exact_events_for_two_elements() {
    assert_eq!(
        InsertionSort.generate_events(&[2, 1]),
        vec![
            SortEvent::Compare { i: 0, j: 1 },
            SortEvent::Overwrite { index: 1, value: 2 },
            SortEvent::Overwrite { index: 0, value: 1 },
            SortEvent::ClearHighlights,
            SortEvent::MarkSorted { index: 0 },
            SortEvent::MarkSorted { index: 1 },
            SortEvent::AlgorithmFinished,
        ]
    );
}

#[test]
fn every_index_gets_its_own_mark_before_the_end() {
    for algorithm in Algorithm::ALL {
        for input in test_inputs() {
            let events = algorithm.generate_events(&input);
            let body = &events[..events.len() - 1];
            for k in 0..input.len() {
                assert!(
                    body.contains(&SortEvent::MarkSorted { index: k }),
                    "{} never marked index {} of {:?}",
                    algorithm.name(),
                    k,
                    input
                );
            }
        }
    }
}

#[test]
fn insertion_sort_writes_nothing_on_sorted_input() {
    for e in InsertionSort.generate_events(&[1, 2, 2, 3, 8]) {
        assert!(!matches!(e, SortEvent::Overwrite { .. }));
    }
}

#[test]
fn bubble_sort_swaps_once_per_inversion_after_a_compare() {
    let input = [3, 1, 4, 1, 5, 9, 2, 6];
    let n = input.len();
    let mut inversions = 0;
    for p in 0..n {
        for q in p + 1..n {
            if input[p] > input[q] {
                inversions += 1;
            }
        }
    }
    let events = BubbleSort.generate_events(&input);
    let mut swaps = 0;
    let mut compares = 0;
    for (t, e) in events.iter().enumerate() {
        match *e {
            SortEvent::Swap { i, j } => {
                swaps += 1;
                assert_eq!(j, i + 1);
                assert_eq!(events[t - 1], SortEvent::Compare { i, j });
            }
            SortEvent::Compare { .. } => compares += 1,
            SortEvent::Overwrite { .. } => panic!("bubble sort never overwrites"),
            _ => {}
        }
    }
    assert_eq!(swaps, inversions);
    assert!(compares <= n * (n - 1) / 2);
}

#[test]
fn selection_sort_compares_every_pair_once() {
    let input = [5, 1, 4, 2, 8, 3];
    let n = input.len();
    let events = SelectionSort.generate_events(&input);
    let compares = events
        .iter()
        .filter(|e| matches!(e, SortEvent::Compare { .. }))
        .count();
    assert_eq!(compares, n * (n - 1) / 2);
    let marks: Vec<SortEvent> = events
        .iter()
        .filter(|e| matches!(e, SortEvent::MarkSorted { .. }))
        .copied()
        .collect();
    let expected: Vec<SortEvent> = (0..n).map(|k| SortEvent::MarkSorted { index: k }).collect();
    assert_eq!(marks, expected);
    let swaps = events
        .iter()
        .filter(|e| matches!(e, SortEvent::Swap { .. }))
        .count();
    assert!(swaps <= n - 1);
}
