//! Playback orchestration: the bridge between algorithms and the array state.
//!
//! [`PlaybackController`] owns the original array, the current
//! [`ArrayState`], the [`Timeline`] of recorded events plus its cursor, the
//! [`Metrics`] counters and the play/pause flag. It advances by consuming
//! events, never by re-running the algorithm: the algorithm runs once when
//! the timeline is (re)built, and play / pause / step / reset are cursor
//! movement plus `ArrayState::apply`.
//!
//! The speed and the fractional time credit of real-time playback are
//! floating-point quantities and live with the caller; it turns elapsed time
//! into a whole number of steps and hands that to [`PlaybackController::advance_steps`].

use rand::seq::SliceRandom;
use vstd::math::min;
use vstd::prelude::*;

use super::array_state::{
    lemma_replay_states_len, lemma_replay_states_push, lemma_replay_values_len,
    lemma_replay_keeps_unwritten, lemma_replay_values_push, lemma_sorted_origin, max_or_one,
    is_sorted_seq, replay_states, replay_values, uniform_states,
    ArrayState,
};
use super::metrics::{lemma_metrics_of_push, metrics_of, zero_metrics, Metrics};
use super::sort_event::{events_in_bounds, marked_sorted, unfinished, ElementState, SortEvent};
use super::timeline::Timeline;
use crate::algorithms::permutation::lemma_sorted_permutation_unique;
use crate::algorithms::{algorithm_events, faithful_run, shaped_like, Algorithm};

verus! {

/// Safety cap on how many events a single real-time update may apply, so an
/// enormous speed (or a long stall) can never lock up a frame.
pub const MAX_STEPS_PER_UPDATE: usize = 20_000;

/// The values `1, 2, ..., n`.
pub open spec fn ascending(n: nat) -> Seq<u32> {
    Seq::new(n, |k: int| (k + 1) as u32)
}

/// The number of values [`PlaybackController::new`] and
/// [`PlaybackController::regenerate`] draw for a requested `size`: at least
/// one, and `1..=size` counted as 32-bit values.
pub open spec fn drawn_count(size: usize) -> nat {
    (if size == 0 {
        1usize
    } else {
        size
    }) as u32 as nat
}

/// Shuffles `values` in place with rand's `SliceRandom::shuffle`, driven by
/// `rand::thread_rng()`. rand's shuffle only exchanges elements of the slice,
/// so the same values come back, in some order; which order depends on the
/// generator and is not stated.
#[verifier::external_body]
fn shuffle_values(values: &mut Vec<u32>)
    ensures
        final(values)@.len() == old(values)@.len(),
        final(values)@.to_multiset() == old(values)@.to_multiset(),
{
    values.shuffle(&mut rand::thread_rng());
}

/// Produce a shuffled permutation of `1..=size` (clamped to at least one
/// element). Distinct values give evenly-spaced bar heights.
fn random_values(size: usize) -> (r: Vec<u32>)
    ensures
        r@.to_multiset() == ascending(drawn_count(size)).to_multiset(),
        r@.len() == drawn_count(size),
{
    let size = if size < 1 {
        1
    } else {
        size
    };
    let n = size as u32;
    let mut values: Vec<u32> = Vec::new();
    let mut k: u32 = 0;
    while k < n
        invariant
            k <= n,
            n as nat == drawn_count(size),
            values@ == ascending(k as nat),
        decreases n - k,
    {
        values.push(k + 1);
        k += 1;
        assert(values@ =~= ascending(k as nat));
    }
    shuffle_values(&mut values);
    values
}

/// Events within bounds stay within bounds in any prefix.
proof fn lemma_in_bounds_take(events: Seq<SortEvent>, n: nat, k: int)
    requires
        events_in_bounds(events, n),
        0 <= k <= events.len(),
    ensures
        events_in_bounds(events.take(k), n),
{
    assert forall|m: int| 0 <= m < events.take(k).len() implies (#[trigger] events.take(k)[m]).in_bounds(n) by {
        assert(events.take(k)[m] == events[m]);
    }
}

/// A timeline played to its end leaves the array sorted, a permutation of the
/// original, and every element marked `Sorted`.
pub proof fn lemma_finished_playback_is_sorted(c: PlaybackController)
    requires
        c.consistent(),
        c.step_index() >= c.evs().len(),
    ensures
        is_sorted_seq(c.array().vals()),
        c.array().vals().to_multiset() == c.orig().to_multiset(),
        c.array().stats() == uniform_states(c.orig().len(), ElementState::Sorted),
{
    assert(c.evs().take(c.step_index() as int) =~= c.evs());
}

/// Starting from all-`Normal` states, an element shows `Sorted` only after an
/// event marked it sorted or the run finished.
proof fn lemma_sorted_shown_only_when_marked(n: nat, events: Seq<SortEvent>, x: usize)
    requires
        events_in_bounds(events, n),
        x < n,
        replay_states(uniform_states(n, ElementState::Normal), events)[x as int] == ElementState::Sorted,
    ensures
        marked_sorted(events, x) || !unfinished(events),
    decreases events.len(),
{
    let fresh = uniform_states(n, ElementState::Normal);
    if events.len() > 0 {
        let prefix = events.drop_last();
        let e = events.last();
        assert(e == events[events.len() - 1]);
        lemma_in_bounds_take(events, n, events.len() - 1);
        assert(prefix =~= events.take(events.len() - 1));
        lemma_replay_states_len(fresh, prefix);
        lemma_sorted_origin(replay_states(fresh, prefix), e, x);
        if replay_states(fresh, prefix)[x as int] == ElementState::Sorted {
            lemma_sorted_shown_only_when_marked(n, prefix, x);
            if marked_sorted(prefix, x) {
                let t = choose|t: int| 0 <= t < prefix.len() && #[trigger] prefix[t] == SortEvent::MarkSorted { index: x };
                assert(events[t] == prefix[t]);
            } else {
                let t = choose|t: int| 0 <= t < prefix.len() && #[trigger] prefix[t] == SortEvent::AlgorithmFinished;
                assert(events[t] == prefix[t]);
            }
        } else if e == (SortEvent::MarkSorted { index: x }) {
            assert(events[events.len() - 1] == e);
        } else {
            assert(events[events.len() - 1] == SortEvent::AlgorithmFinished);
        }
    }
}

/// A bar shown as sorted already holds its final value: no later event of the
/// run writes to it, so playing on never changes it.
pub proof fn lemma_sorted_elements_are_final(c: PlaybackController, x: usize)
    requires
        c.consistent(),
        x < c.orig().len(),
        c.array().stats()[x as int] == ElementState::Sorted,
    ensures
        c.array().vals()[x as int] == replay_values(c.orig(), c.evs())[x as int],
{
    let evs = c.evs();
    let k = c.step_index() as int;
    let n = c.orig().len();
    if k >= evs.len() {
        assert(evs.take(k) =~= evs);
    } else {
        lemma_in_bounds_take(evs, n, k);
        lemma_sorted_shown_only_when_marked(n, evs.take(k), x);
        assert(unfinished(evs.take(k))) by {
            assert forall|t: int| 0 <= t < evs.take(k).len() implies #[trigger] evs.take(k)[t]
                != SortEvent::AlgorithmFinished by {
                assert(evs.take(k)[t] == evs.drop_last()[t]);
            }
        }
        let t = choose|t: int| 0 <= t < evs.take(k).len() && #[trigger] evs.take(k)[t] == SortEvent::MarkSorted { index: x };
        assert(evs[t] == SortEvent::MarkSorted { index: x });
        assert forall|u: int| k <= u < evs.len() implies !(#[trigger] evs[u]).writes(x) by {
            assert(evs[t] is MarkSorted);
        }
        lemma_replay_keeps_unwritten(c.orig(), evs, k, x);
    }
}

/// A bar shown as sorted already holds the value that belongs at its position
/// in sorted order: it agrees with every sorted arrangement of the original
/// values.
pub proof fn lemma_sorted_elements_hold_sorted_value(c: PlaybackController, s: Seq<u32>, x: usize)
    requires
        c.consistent(),
        x < c.orig().len(),
        c.array().stats()[x as int] == ElementState::Sorted,
        is_sorted_seq(s),
        s.to_multiset() == c.orig().to_multiset(),
    ensures
        c.array().vals()[x as int] == s[x as int],
{
    lemma_sorted_elements_are_final(c, x);
    lemma_sorted_permutation_unique(replay_values(c.orig(), c.evs()), s);
}

/// Owns the simulation and drives it forward one event at a time.
pub struct PlaybackController {
    algorithm: Algorithm,
    /// The pristine array; `reset` restores `state` from this.
    original: Vec<u32>,
    state: ArrayState,
    timeline: Timeline,
    metrics: Metrics,
    playing: bool,
}

impl PlaybackController {
    /// The selected algorithm.
    pub closed spec fn alg(&self) -> Algorithm {
        self.algorithm
    }

    /// The array the run started from.
    pub closed spec fn orig(&self) -> Seq<u32> {
        self.original@
    }

    /// The array state after the events applied so far.
    pub closed spec fn array(&self) -> ArrayState {
        self.state
    }

    /// The recorded run and its cursor.
    pub closed spec fn tl(&self) -> Timeline {
        self.timeline
    }

    /// The counters of the events applied so far.
    pub closed spec fn mets(&self) -> Metrics {
        self.metrics
    }

    /// Whether playback is running.
    pub closed spec fn playing_now(&self) -> bool {
        self.playing
    }

    /// The events recorded for the current run.
    pub open spec fn evs(&self) -> Seq<SortEvent> {
        self.tl().evs()
    }

    /// The number of events applied so far.
    pub open spec fn step_index(&self) -> nat {
        self.tl().pos()
    }

    /// The controller is consistent: the timeline is exactly the event stream
    /// of the selected algorithm over the original array (a faithful run of
    /// that algorithm's shape), and the array
    /// state and the metrics are exactly what replaying the first
    /// `step_index()` events from a fresh copy of the original gives.
    pub open spec fn consistent(&self) -> bool {
        let evs = self.evs();
        let k = self.step_index() as int;
        &&& self.tl().wf()
        &&& faithful_run(self.orig(), evs)
        &&& shaped_like(self.alg(), self.orig(), evs)
        &&& evs == algorithm_events(self.alg(), self.orig())
        &&& self.array().wf()
        &&& self.array().vals() == replay_values(self.orig(), evs.take(k))
        &&& self.array().stats() == replay_states(
            uniform_states(self.orig().len(), ElementState::Normal),
            evs.take(k),
        )
        &&& self.mets() == metrics_of(evs.take(k))
    }

    /// Build a controller with a fresh random array of `size` elements.
    pub fn new(algorithm: Algorithm, size: usize) -> (r: Self)
        ensures
            r.consistent(),
            r.alg() == algorithm,
            r.orig().to_multiset() == ascending(drawn_count(size)).to_multiset(),
            r.step_index() == 0,
            !r.playing_now(),
    {
        let original = random_values(size);
        let state = ArrayState::new(Self::copy_values(&original));
        let mut controller = PlaybackController {
            algorithm,
            original,
            state,
            timeline: Timeline::new(Vec::new()),
            metrics: Metrics::new(),
            playing: false,
        };
        controller.rebuild_timeline();
        controller
    }

    /// A copy of `values`.
    fn copy_values(values: &Vec<u32>) -> (r: Vec<u32>)
        ensures
            r@ == values@,
    {
        let r = values.clone();
        assert(r@ =~= values@);
        r
    }

    /// Re-run the current algorithm over the original array and reset
    /// playback. This is the single point where an algorithm executes.
    pub fn rebuild_timeline(&mut self)
        ensures
            final(self).consistent(),
            final(self).alg() == old(self).alg(),
            final(self).orig() == old(self).orig(),
            final(self).step_index() == 0,
            !final(self).playing_now(),
    {
        let events = self.algorithm.generate_events(self.original.as_slice());
        self.timeline = Timeline::new(events);
        self.reset();
    }

    /// Generate a brand new random array of `size` and rebuild the timeline.
    pub fn regenerate(&mut self, size: usize)
        ensures
            final(self).consistent(),
            final(self).alg() == old(self).alg(),
            final(self).orig().to_multiset() == ascending(drawn_count(size)).to_multiset(),
            final(self).step_index() == 0,
            !final(self).playing_now(),
    {
        self.original = random_values(size);
        self.rebuild_timeline();
    }

    /// Switch algorithms, keeping the same array, and rebuild the timeline.
    /// Selecting the algorithm already in use changes nothing.
    pub fn set_algorithm(&mut self, algorithm: Algorithm)
        requires
            old(self).consistent(),
        ensures
            final(self).consistent(),
            final(self).alg() == algorithm,
            final(self).orig() == old(self).orig(),
            algorithm == old(self).alg() ==> *final(self) == *old(self),
            algorithm != old(self).alg() ==> final(self).step_index() == 0 && !final(self).playing_now(),
    {
        if algorithm != self.algorithm {
            self.algorithm = algorithm;
            self.rebuild_timeline();
        }
    }

    /// Restore the array to its original order, rewind the cursor, zero the
    /// metrics and stop playing.
    pub fn reset(&mut self)
        requires
            faithful_run(old(self).orig(), old(self).evs()),
            shaped_like(old(self).alg(), old(self).orig(), old(self).evs()),
            old(self).evs() == algorithm_events(old(self).alg(), old(self).orig()),
        ensures
            final(self).consistent(),
            final(self).alg() == old(self).alg(),
            final(self).orig() == old(self).orig(),
            final(self).evs() == old(self).evs(),
            final(self).step_index() == 0,
            final(self).array().vals() == old(self).orig(),
            final(self).array().stats() == uniform_states(
                old(self).orig().len(),
                ElementState::Normal,
            ),
            final(self).mets() == zero_metrics(),
            !final(self).playing_now(),
    {
        self.state = ArrayState::new(Self::copy_values(&self.original));
        self.timeline.rewind();
        self.metrics.reset();
        self.playing = false;
        assert(self.timeline.evs().take(0) =~= Seq::<SortEvent>::empty());
    }

    /// Apply exactly one event, updating array state and metrics. Returns
    /// `false` (and stops playing) if there was nothing left to apply.
    pub fn step(&mut self) -> (r: bool)
        requires
            old(self).consistent(),
        ensures
            final(self).consistent(),
            final(self).alg() == old(self).alg(),
            final(self).orig() == old(self).orig(),
            final(self).evs() == old(self).evs(),
            r == (old(self).step_index() < old(self).evs().len()),
            r ==> final(self).step_index() == old(self).step_index() + 1
                && final(self).playing_now() == old(self).playing_now(),
            !r ==> final(self).step_index() == old(self).step_index() && !final(self).playing_now()
                && final(self).array() == old(self).array() && final(self).mets() == old(self).mets(),
    {
        let ghost evs = self.timeline.evs();
        let ghost k = self.timeline.pos() as int;
        match self.timeline.advance() {
            Some(event) => {
                proof {
                    let n = self.original@.len();
                    let fresh = uniform_states(n, ElementState::Normal);
                    assert(event == evs[k]);
                    assert(evs.take(k + 1) =~= evs.take(k).push(event));
                    lemma_metrics_of_push(evs.take(k), event);
                    lemma_replay_values_push(self.original@, evs.take(k), event);
                    lemma_replay_states_push(fresh, evs.take(k), event);
                    lemma_in_bounds_take(evs, n, k);
                    lemma_replay_values_len(self.original@, evs.take(k));
                    assert(event.in_bounds(n));
                }
                self.metrics.record(&event);
                self.state.apply(&event);
                true
            },
            None => {
                self.playing = false;
                false
            },
        }
    }

    /// Apply up to `requested` events, never more than
    /// [`MAX_STEPS_PER_UPDATE`], stopping early at the end of the timeline.
    /// Returns how many events were applied.
    pub fn advance_steps(&mut self, requested: usize) -> (applied: usize)
        requires
            old(self).consistent(),
        ensures
            final(self).consistent(),
            final(self).alg() == old(self).alg(),
            final(self).orig() == old(self).orig(),
            final(self).evs() == old(self).evs(),
            applied as int == min(
                min(requested as int, MAX_STEPS_PER_UPDATE as int),
                old(self).evs().len() - old(self).step_index(),
            ),
            final(self).step_index() == old(self).step_index() + applied,
            applied < min(requested as int, MAX_STEPS_PER_UPDATE as int) ==> !final(self).playing_now(),
            applied == min(requested as int, MAX_STEPS_PER_UPDATE as int) ==> final(self).playing_now()
                == old(self).playing_now(),
    {
        let budget = if requested < MAX_STEPS_PER_UPDATE {
            requested
        } else {
            MAX_STEPS_PER_UPDATE
        };
        let mut applied: usize = 0;
        while applied < budget
            invariant_except_break
                self.playing == old(self).playing,
            invariant
                self.consistent(),
                applied <= budget,
                budget as int == min(requested as int, MAX_STEPS_PER_UPDATE as int),
                self.algorithm == old(self).algorithm,
                self.original@ == old(self).original@,
                self.timeline.evs() == old(self).timeline.evs(),
                self.timeline.pos() == old(self).timeline.pos() + applied,
            ensures
                self.consistent(),
                self.algorithm == old(self).algorithm,
                self.original@ == old(self).original@,
                self.timeline.evs() == old(self).timeline.evs(),
                self.timeline.pos() == old(self).timeline.pos() + applied,
                applied == budget ==> self.playing == old(self).playing,
                applied < budget ==> !self.playing && self.timeline.pos() == self.timeline.evs().len(),
                applied <= budget,
            decreases budget - applied,
        {
            if !self.step() {
                break;
            }
            applied += 1;
        }
        applied
    }

    /// Start playing; restarting after the end replays from the beginning.
    pub fn play(&mut self)
        requires
            old(self).consistent(),
        ensures
            final(self).consistent(),
            final(self).playing_now(),
            final(self).alg() == old(self).alg(),
            final(self).orig() == old(self).orig(),
            final(self).evs() == old(self).evs(),
            old(self).step_index() >= old(self).evs().len() ==> final(self).step_index() == 0,
            old(self).step_index() < old(self).evs().len() ==> final(self).step_index()
                == old(self).step_index() && final(self).array() == old(self).array()
                && final(self).mets() == old(self).mets(),
    {
        if self.timeline.is_finished() {
            self.reset();
        }
        self.playing = true;
    }

    pub fn pause(&mut self)
        ensures
            !final(self).playing_now(),
            final(self).alg() == old(self).alg(),
            final(self).orig() == old(self).orig(),
            final(self).tl() == old(self).tl(),
            final(self).array() == old(self).array(),
            final(self).mets() == old(self).mets(),
            old(self).consistent() ==> final(self).consistent(),
    {
        self.playing = false;
    }

    pub fn toggle_play(&mut self)
        requires
            old(self).consistent(),
        ensures
            final(self).consistent(),
            final(self).playing_now() == !old(self).playing_now(),
            final(self).alg() == old(self).alg(),
            final(self).orig() == old(self).orig(),
            final(self).evs() == old(self).evs(),
            !old(self).playing_now() && old(self).step_index() >= old(self).evs().len()
                ==> final(self).step_index() == 0,
            old(self).playing_now() || old(self).step_index() < old(self).evs().len()
                ==> final(self).step_index() == old(self).step_index() && final(self).array()
                == old(self).array() && final(self).mets() == old(self).mets(),
    {
        if self.playing {
            self.pause();
        } else {
            self.play();
        }
    }

    pub fn is_playing(&self) -> (r: bool)
        ensures
            r == self.playing_now(),
    {
        self.playing
    }

    pub fn state(&self) -> (r: &ArrayState)
        ensures
            *r == self.array(),
    {
        &self.state
    }

    pub fn metrics(&self) -> (r: &Metrics)
        ensures
            *r == self.mets(),
    {
        &self.metrics
    }

    pub fn algorithm(&self) -> (r: Algorithm)
        ensures
            r == self.alg(),
    {
        self.algorithm
    }

    /// Current step index (events applied so far).
    pub fn current_step(&self) -> (r: usize)
        ensures
            r == self.step_index(),
    {
        self.timeline.position()
    }

    /// Total number of events in the run.
    pub fn total_steps(&self) -> (r: usize)
        ensures
            r == self.evs().len(),
    {
        self.timeline.len()
    }

    pub fn is_finished(&self) -> (r: bool)
        ensures
            r == (self.step_index() >= self.evs().len()),
    {
        self.timeline.is_finished()
    }

    /// Playback progress as a fraction `(done, total)`: the step index over
    /// the number of events, or `(1, 1)` for an empty timeline.
    pub fn progress_fraction(&self) -> (r: (usize, usize))
        ensures
            self.evs().len() == 0 ==> r == (1usize, 1usize),
            self.evs().len() > 0 ==> r.0 == self.step_index() && r.1 == self.evs().len(),
    {
        if self.timeline.is_empty() {
            (1, 1)
        } else {
            (self.timeline.position(), self.timeline.len())
        }
    }
}

} // verus!
