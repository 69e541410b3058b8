use sortforge_3d::simulation::{ArrayState, ElementState, Metrics, SortEvent, Timeline};
use sortforge_3d::ui::UiState;
use sortforge_3d::utils::color::{rgb, state_srgb, Srgb};
use sortforge_3d::utils::palette;

#[test]
fn new_state_is_all_normal_with_cached_max() {
    let state = ArrayState::new(vec![3, 9, 2]);
    assert_eq!(state.len(), 3);
    assert!(!state.is_empty());
    assert_eq!(state.max_value(), 9);
    assert!(state.states().iter().all(|s| *s == ElementState::Normal));
    assert_eq!(ArrayState::new(vec![]).max_value(), 1);
    assert!(ArrayState::new(vec![]).is_empty());
    assert_eq!(ArrayState::new(vec![0, 0]).max_value(), 1);
}

#[test]
fn is_sorted_checks_neighbors() {
    assert!(ArrayState::new(vec![1, 2, 2, 5]).is_sorted());
    assert!(!ArrayState::new(vec![1, 3, 2]).is_sorted());
    assert!(ArrayState::new(vec![]).is_sorted());
}

#[test]
fn compare_highlights_and_clears_previous_transients() {
    let mut state = ArrayState::new(vec![4, 3, 2, 1]);
    state.apply(&SortEvent::Compare { i: 0, j: 1 });
    assert_eq!(
        state.states(),
        &[ElementState::Comparing, ElementState::Comparing, ElementState::Normal, ElementState::Normal]
    );
    state.apply(&SortEvent::Swap { i: 2, j: 3 });
    assert_eq!(state.values(), &[4, 3, 1, 2]);
    assert_eq!(
        state.states(),
        &[ElementState::Normal, ElementState::Normal, ElementState::Swapping, ElementState::Swapping]
    );
    state.apply(&SortEvent::Overwrite { index: 0, value: 7 });
    assert_eq!(state.values(), &[7, 3, 1, 2]);
    assert_eq!(state.states()[0], ElementState::Swapping);
    assert_eq!(state.states()[2], ElementState::Normal);
    assert_eq!(state.max_value(), 7);
}

#[test]
fn sorted_is_sticky() {
    let mut state = ArrayState::new(vec![1, 2, 3]);
    state.apply(&SortEvent::MarkSorted { index: 1 });
    state.apply(&SortEvent::Compare { i: 0, j: 1 });
    state.apply(&SortEvent::Swap { i: 1, j: 2 });
    state.apply(&SortEvent::SetPivot { index: 1 });
    state.apply(&SortEvent::ClearHighlights);
    assert_eq!(state.states()[1], ElementState::Sorted);
}

#[test]
fn pivot_survives_comparisons_and_only_one_pivot_exists() {
    let mut state = ArrayState::new(vec![5, 6, 7]);
    state.apply(&SortEvent::SetPivot { index: 2 });
    state.apply(&SortEvent::Compare { i: 0, j: 2 });
    assert_eq!(state.states()[2], ElementState::Pivot);
    state.apply(&SortEvent::SetPivot { index: 1 });
    assert_eq!(
        state.states(),
        &[ElementState::Comparing, ElementState::Pivot, ElementState::Normal]
    );
    state.apply(&SortEvent::ClearHighlights);
    assert!(state.states().iter().all(|s| *s == ElementState::Normal));
}

#[test]
fn algorithm_finished_marks_everything_sorted() {
    let mut state = ArrayState::new(vec![2, 1]);
    state.apply(&SortEvent::AlgorithmFinished);
    assert_eq!(state.states(), &[ElementState::Sorted, ElementState::Sorted]);
}

#[test]
fn metrics_count_each_kind_of_work() {
    let mut metrics = Metrics::new();
    metrics.record(&SortEvent::Compare { i: 0, j: 1 });
    metrics.record(&SortEvent::Swap { i: 0, j: 1 });
    metrics.record(&SortEvent::Overwrite { index: 0, value: 3 });
    metrics.record(&SortEvent::MarkSorted { index: 0 });
    assert_eq!(metrics, Metrics { comparisons: 1, swaps: 1, writes: 3 });
    metrics.reset();
    assert_eq!(metrics, Metrics::new());
}

#[test]
fn timeline_advances_and_rewinds() {
    let mut timeline = Timeline::new(vec![
        SortEvent::Compare { i: 0, j: 1 },
        SortEvent::AlgorithmFinished,
    ]);
    assert_eq!(timeline.len(), 2);
    assert!(!timeline.is_empty());
    assert_eq!(timeline.advance(), Some(SortEvent::Compare { i: 0, j: 1 }));
    assert_eq!(timeline.position(), 1);
    assert_eq!(timeline.advance(), Some(SortEvent::AlgorithmFinished));
    assert!(timeline.is_finished());
    assert_eq!(timeline.advance(), None);
    assert_eq!(timeline.position(), 2);
    timeline.rewind();
    assert_eq!(timeline.position(), 0);
    assert_eq!(timeline.events().len(), 2);
    assert!(Timeline::new(vec![]).is_finished());
}

#[test]
fn palette_colors() {
    assert_eq!(rgb(1, 2, 3), Srgb { r: 1, g: 2, b: 3 });
    assert_eq!(state_srgb(ElementState::Normal), palette::normal());
    assert_eq!(state_srgb(ElementState::Comparing), Srgb { r: 240, g: 200, b: 64 });
    assert_eq!(state_srgb(ElementState::Swapping), Srgb { r: 232, g: 96, b: 48 });
    assert_eq!(state_srgb(ElementState::Pivot), Srgb { r: 186, g: 96, b: 232 });
    assert_eq!(state_srgb(ElementState::Sorted), Srgb { r: 72, g: 200, b: 120 });
    assert_eq!(palette::background(), Srgb { r: 10, g: 12, b: 20 });
}

#[test]
fn ui_state_keeps_the_size() {
    assert_eq!(UiState::new(48).size, 48);
}

#[test]
fn overwrite_keeps_the_cached_max_current() {
    let mut state = ArrayState::new(vec![1]);
    state.apply(&SortEvent::Overwrite { index: 0, value: 5 });
    assert_eq!(state.max_value(), 5);
    state.apply(&SortEvent::Overwrite { index: 0, value: 2 });
    assert_eq!(state.max_value(), 2);
    state.apply(&SortEvent::Overwrite { index: 0, value: 0 });
    assert_eq!(state.max_value(), 1);

    let mut state = ArrayState::new(vec![3, 9, 2]);
    state.apply(&SortEvent::Swap { i: 0, j: 1 });
    assert_eq!(state.max_value(), 9);
    state.apply(&SortEvent::Overwrite { index: 0, value: 4 });
    assert_eq!(state.max_value(), 4);
}
