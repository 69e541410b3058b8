use sortforge_3d::algorithms::Algorithm;
use sortforge_3d::simulation::{ElementState, PlaybackController, MAX_STEPS_PER_UPDATE};

#[test]
fn plays_through_to_a_sorted_array() {
    let mut controller = PlaybackController::new(Algorithm::Quick, 32);
    assert!(controller.total_steps() > 0);

    while controller.step() {}

    assert!(controller.is_finished());
    assert!(controller.state().is_sorted());
    assert_eq!(controller.current_step(), controller.total_steps());
    let (done, total) = controller.progress_fraction();
    assert_eq!(done as f32 / total as f32, 1.0);
}

#[test]
fn reset_restores_the_original_array_and_metrics() {
    let mut controller = PlaybackController::new(Algorithm::Bubble, 16);
    let original: Vec<u32> = controller.state().values().to_vec();

    while controller.step() {}
    assert!(controller.metrics().comparisons > 0);

    controller.reset();
    assert_eq!(controller.current_step(), 0);
    assert_eq!(controller.state().values(), original.as_slice());
    assert_eq!(controller.metrics().comparisons, 0);
    assert_eq!(controller.metrics().swaps, 0);
    assert_eq!(controller.metrics().writes, 0);
}

#[test]
fn switching_algorithm_rebuilds_and_rewinds() {
    let mut controller = PlaybackController::new(Algorithm::Bubble, 24);
    while controller.step() {}
    assert!(controller.is_finished());

    controller.set_algorithm(Algorithm::Selection);
    assert_eq!(controller.algorithm(), Algorithm::Selection);
    assert_eq!(controller.current_step(), 0);
    assert!(!controller.is_finished());
}

#[test]
fn new_controller_holds_a_permutation_of_one_to_size() {
    let controller = PlaybackController::new(Algorithm::Insertion, 40);
    let mut values = controller.state().values().to_vec();
    values.sort_unstable();
    assert_eq!(values, (1..=40).collect::<Vec<u32>>());
    assert!(!controller.is_playing());
    assert_eq!(controller.current_step(), 0);
}

#[test]
fn new_array_is_shuffled() {
    let controller = PlaybackController::new(Algorithm::Bubble, 200);
    let ascending: Vec<u32> = (1..=200).collect();
    assert_ne!(controller.state().values(), ascending.as_slice());
}

#[test]
fn size_zero_still_gives_one_element() {
    let mut controller = PlaybackController::new(Algorithm::Quick, 0);
    assert_eq!(controller.state().values(), &[1]);
    controller.regenerate(3);
    let mut values = controller.state().values().to_vec();
    values.sort_unstable();
    assert_eq!(values, vec![1, 2, 3]);
    assert_eq!(controller.current_step(), 0);
}

#[test]
fn step_at_the_end_stops_playing() {
    let mut controller = PlaybackController::new(Algorithm::Selection, 5);
    controller.play();
    while controller.step() {}
    assert!(!controller.is_playing());
    assert!(!controller.step());
    assert_eq!(controller.current_step(), controller.total_steps());
}

#[test]
fn finished_playback_marks_everything_sorted() {
    for algorithm in Algorithm::ALL {
        let mut controller = PlaybackController::new(algorithm, 30);
        while controller.step() {}
        assert!(controller.state().is_sorted());
        assert!(controller
            .state()
            .states()
            .iter()
            .all(|s| *s == ElementState::Sorted));
    }
}

#[test]
fn play_after_the_end_replays_from_the_start() {
    let mut controller = PlaybackController::new(Algorithm::Insertion, 8);
    while controller.step() {}
    controller.play();
    assert!(controller.is_playing());
    assert_eq!(controller.current_step(), 0);
    assert_eq!(controller.metrics().comparisons, 0);
}

#[test]
fn toggle_play_and_pause() {
    let mut controller = PlaybackController::new(Algorithm::Bubble, 8);
    controller.toggle_play();
    assert!(controller.is_playing());
    controller.step();
    controller.toggle_play();
    assert!(!controller.is_playing());
    assert_eq!(controller.current_step(), 1);
    controller.play();
    controller.pause();
    assert!(!controller.is_playing());
}

#[test]
fn selecting_the_same_algorithm_keeps_the_position() {
    let mut controller = PlaybackController::new(Algorithm::Quick, 12);
    controller.step();
    controller.step();
    controller.set_algorithm(Algorithm::Quick);
    assert_eq!(controller.current_step(), 2);
}

#[test]
fn advance_steps_applies_the_requested_count() {
    let mut controller = PlaybackController::new(Algorithm::Selection, 40);
    controller.play();
    let applied = controller.advance_steps(10);
    assert_eq!(applied, 10);
    assert_eq!(controller.current_step(), 10);
    assert!(controller.is_playing());
}

#[test]
fn advance_steps_is_capped_and_stops_at_the_end() {
    let mut controller = PlaybackController::new(Algorithm::Bubble, 200);
    controller.play();
    let total = controller.total_steps();
    assert!(total > MAX_STEPS_PER_UPDATE);
    let applied = controller.advance_steps(usize::MAX);
    assert_eq!(applied, MAX_STEPS_PER_UPDATE);
    assert!(controller.is_playing());

    let mut small = PlaybackController::new(Algorithm::Quick, 4);
    small.play();
    let total = small.total_steps();
    let applied = small.advance_steps(total + 5);
    assert_eq!(applied, total);
    assert!(small.is_finished());
    assert!(!small.is_playing());
}

#[test]
fn progress_fraction_tracks_the_cursor() {
    let mut controller = PlaybackController::new(Algorithm::Bubble, 6);
    let total = controller.total_steps();
    assert_eq!(controller.progress_fraction(), (0, total));
    controller.step();
    assert_eq!(controller.progress_fraction(), (1, total));
}

#[test]
fn metrics_follow_the_applied_events() {
    let mut controller = PlaybackController::new(Algorithm::Bubble, 10);
    let events = controller.state().values().to_vec();
    let all = Algorithm::Bubble.generate_events(&events);
    let mut compares = 0u64;
    let mut swaps = 0u64;
    for e in all.iter().take(15) {
        controller.step();
        match e {
            sortforge_3d::simulation::SortEvent::Compare { .. } => compares += 1,
            sortforge_3d::simulation::SortEvent::Swap { .. } => swaps += 1,
            _ => {}
        }
    }
    assert_eq!(controller.metrics().comparisons, compares);
    assert_eq!(controller.metrics().swaps, swaps);
    assert_eq!(controller.metrics().writes, 2 * swaps);
}

#[test]
fn bars_shown_sorted_already_hold_their_final_value() {
    for algorithm in Algorithm::ALL {
        let mut controller = PlaybackController::new(algorithm, 20);
        let mut sorted_values = controller.state().values().to_vec();
        sorted_values.sort_unstable();
        loop {
            let state = controller.state();
            for (k, s) in state.states().iter().enumerate() {
                if *s == ElementState::Sorted {
                    assert_eq!(state.values()[k], sorted_values[k]);
                }
            }
            if !controller.step() {
                break;
            }
        }
    }
}
