//! Sorting algorithms expressed as event generators.
//!
//! Every algorithm implements [`SortingAlgorithm`]: given a slice of values it
//! returns the events describing the sort. Each algorithm drives a
//! [`Recorder`], whose `swap`/`overwrite` helpers mutate a working copy of the
//! array *and* push the matching event, so replaying the events from the
//! original array reproduces exactly the work the algorithm did.

use vstd::prelude::*;

use crate::simulation::array_state::{
    apply_values, is_sorted_seq, lemma_replay_states_len, lemma_replay_states_push,
    lemma_replay_values_push, replay_states, replay_values, swapped, uniform_states,
};
use crate::simulation::sort_event::{
    events_in_bounds, marked_sorted, marks_are_final, marks_every_index, unfinished, ElementState,
    SortEvent,
};

pub mod bubble_sort;
pub mod insertion_sort;
pub mod permutation;
pub mod quick_sort;
pub mod selection_sort;

pub use bubble_sort::{bubble_events, bubble_step, BubbleSort};
pub use insertion_sort::{insertion_events, insertion_step, marks_all_at_end, InsertionSort};
pub use quick_sort::{quick_events, quick_step, QuickSort};
pub use selection_sort::{selection_events, selection_step, SelectionSort};

verus! {

/// Replaying `events` from the fresh state of `input` sorts it: the events
/// name only valid indices (at most `isize::MAX` of them), end with
/// `AlgorithmFinished`, leave the values in
/// non-decreasing order and a permutation of `input`, and leave every element
/// marked `Sorted`.
pub open spec fn sorts(input: Seq<u32>, events: Seq<SortEvent>) -> bool {
    &&& events_in_bounds(events, input.len())
    &&& 0 < events.len() <= isize::MAX
    &&& events.last() == SortEvent::AlgorithmFinished
    &&& is_sorted_seq(replay_values(input, events))
    &&& replay_values(input, events).to_multiset() == input.to_multiset()
    &&& replay_states(uniform_states(input.len(), ElementState::Normal), events)
        == uniform_states(input.len(), ElementState::Sorted)
}

/// A faithful recording of a sort of `input`: it [`sorts`] the input, no
/// index is written after it has been marked sorted, every index is marked
/// sorted by its own `MarkSorted` before the run finishes, and
/// `AlgorithmFinished` occurs only as the last event.
pub open spec fn faithful_run(input: Seq<u32>, events: Seq<SortEvent>) -> bool {
    &&& sorts(input, events)
    &&& marks_are_final(events)
    &&& marks_every_index(events.drop_last(), input.len())
    &&& unfinished(events.drop_last())
}

/// Anything that can turn an array into a stream of visualization events.
pub trait SortingAlgorithm {
    /// Human-readable name shown in the UI.
    fn name(&self) -> &'static str;

    /// Run the algorithm against `values` and return the recorded events.
    fn generate_events(&self, values: &[u32]) -> (events: Vec<SortEvent>)
        ensures
            faithful_run(values@, events@),
    ;
}

/// Appends `event` with `Vec::push`. The standard library documents that
/// `push` panics when the new capacity would exceed `isize::MAX` bytes; an
/// event occupies at least one byte, so once `push` returns the vector holds
/// at most `isize::MAX` events. That bound is all this contract adds to the
/// element-wise effect of `push`.
#[verifier::external_body]
fn push_event(events: &mut Vec<SortEvent>, event: SortEvent)
    ensures
        final(events)@ == old(events)@.push(event),
        final(events)@.len() <= isize::MAX,
{
    events.push(event);
}

/// Records events while applying value mutations to a working array.
pub struct Recorder {
    events: Vec<SortEvent>,
}

impl View for Recorder {
    type V = Seq<SortEvent>;

    closed spec fn view(&self) -> Seq<SortEvent> {
        self.events@
    }
}

impl Recorder {
    fn new() -> (r: Self)
        ensures
            r@ == Seq::<SortEvent>::empty(),
    {
        Recorder { events: Vec::new() }
    }

    /// Pre-allocate roughly enough room for an O(n^2) run to avoid reallocs.
    fn with_capacity_for(n: usize) -> (r: Self)
        ensures
            r@ == Seq::<SortEvent>::empty(),
    {
        let squared: usize = match n.checked_mul(n) {
            Some(p) => p,
            None => usize::MAX,
        };
        let cap: usize = if squared < (1usize << 20) {
            squared
        } else {
            1usize << 20
        };
        Recorder { events: Vec::with_capacity(cap) }
    }

    /// Record a comparison of indices `i` and `j` (no array change).
    fn compare(&mut self, i: usize, j: usize)
        ensures
            final(self)@ == old(self)@.push(SortEvent::Compare { i, j }),
            final(self)@.len() <= isize::MAX,
    {
        push_event(&mut self.events, SortEvent::Compare { i, j });
    }

    /// Swap two elements in the working array and record the swap.
    fn swap(&mut self, array: &mut [u32], i: usize, j: usize)
        requires
            i < old(array)@.len(),
            j < old(array)@.len(),
        ensures
            final(self)@ == old(self)@.push(SortEvent::Swap { i, j }),
            final(self)@.len() <= isize::MAX,
            final(array)@ == swapped(old(array)@, i as int, j as int),
    {
        let vi = array[i];
        let vj = array[j];
        array[i] = vj;
        array[j] = vi;
        push_event(&mut self.events, SortEvent::Swap { i, j });
    }

    /// Write `value` into `index` of the working array and record the write.
    fn overwrite(&mut self, array: &mut [u32], index: usize, value: u32)
        requires
            index < old(array)@.len(),
        ensures
            final(self)@ == old(self)@.push(SortEvent::Overwrite { index, value }),
            final(self)@.len() <= isize::MAX,
            final(array)@ == old(array)@.update(index as int, value),
    {
        array[index] = value;
        push_event(&mut self.events, SortEvent::Overwrite { index, value });
    }

    /// Mark `index` as the active pivot / running minimum.
    fn set_pivot(&mut self, index: usize)
        ensures
            final(self)@ == old(self)@.push(SortEvent::SetPivot { index }),
            final(self)@.len() <= isize::MAX,
    {
        push_event(&mut self.events, SortEvent::SetPivot { index });
    }

    /// Mark `index` as finalized in its sorted position.
    fn mark_sorted(&mut self, index: usize)
        ensures
            final(self)@ == old(self)@.push(SortEvent::MarkSorted { index }),
            final(self)@.len() <= isize::MAX,
    {
        push_event(&mut self.events, SortEvent::MarkSorted { index });
    }

    /// Drop transient highlights (keeps "sorted").
    fn clear_highlights(&mut self)
        ensures
            final(self)@ == old(self)@.push(SortEvent::ClearHighlights),
            final(self)@.len() <= isize::MAX,
    {
        push_event(&mut self.events, SortEvent::ClearHighlights);
    }

    /// Finish the run: emit `AlgorithmFinished` and hand back the events.
    fn finish(self) -> (r: Vec<SortEvent>)
        ensures
            r@ == self@.push(SortEvent::AlgorithmFinished),
            r@.len() <= isize::MAX,
    {
        let mut events = self.events;
        push_event(&mut events, SortEvent::AlgorithmFinished);
        events
    }
}

/// An in-bounds event keeps a sequence of in-bounds events in bounds.
pub broadcast proof fn lemma_in_bounds_push(events: Seq<SortEvent>, e: SortEvent, n: nat)
    requires
        events_in_bounds(events, n),
        e.in_bounds(n),
    ensures
        #[trigger] events_in_bounds(events.push(e), n),
{
    assert forall|k: int| 0 <= k < events.push(e).len() implies (#[trigger] events.push(
        e,
    )[k]).in_bounds(n) by {
        if k < events.len() {
            assert(events.push(e)[k] == events[k]);
        }
    }
}

/// An index is marked sorted in a longer run exactly when it was marked
/// before or the new event marks it.
pub broadcast proof fn lemma_marked_push(events: Seq<SortEvent>, e: SortEvent, k: usize)
    ensures
        #[trigger] marked_sorted(events.push(e), k) <==> (marked_sorted(events, k) || e
            == SortEvent::MarkSorted { index: k }),
{
    let longer = events.push(e);
    if marked_sorted(events, k) {
        let t = choose|t: int| 0 <= t < events.len() && #[trigger] events[t] == SortEvent::MarkSorted { index: k };
        assert(longer[t] == events[t]);
    }
    if e == (SortEvent::MarkSorted { index: k }) {
        assert(longer[events.len() as int] == e);
    }
    if marked_sorted(longer, k) {
        let t = choose|t: int| 0 <= t < longer.len() && #[trigger] longer[t] == SortEvent::MarkSorted { index: k };
        if t < events.len() {
            assert(events[t] == longer[t]);
        }
    }
}

/// An event that writes to no index already marked sorted keeps the marks final.
pub broadcast proof fn lemma_marks_final_push(events: Seq<SortEvent>, e: SortEvent)
    requires
        marks_are_final(events),
        forall|k: usize| marked_sorted(events, k) ==> !e.writes(k),
    ensures
        #[trigger] marks_are_final(events.push(e)),
{
    let longer = events.push(e);
    assert forall|t: int, u: int|
        0 <= t < u < longer.len() && (#[trigger] longer[t]) is MarkSorted implies !(
        #[trigger] longer[u]).writes(longer[t]->MarkSorted_index) by {
        assert(longer[t] == events[t]);
        if u < events.len() {
            assert(longer[u] == events[u]);
        } else {
            let k = longer[t]->MarkSorted_index;
            assert(events[t] == SortEvent::MarkSorted { index: k });
            assert(marked_sorted(events, k));
        }
    }
}

/// An event other than `AlgorithmFinished` keeps a run unfinished.
pub broadcast proof fn lemma_unfinished_push(events: Seq<SortEvent>, e: SortEvent)
    requires
        unfinished(events),
        e != SortEvent::AlgorithmFinished,
    ensures
        #[trigger] unfinished(events.push(e)),
{
    assert forall|t: int| 0 <= t < events.push(e).len() implies #[trigger] events.push(e)[t]
        != SortEvent::AlgorithmFinished by {
        if t < events.len() {
            assert(events.push(e)[t] == events[t]);
        }
    }
}

/// Every event of `events` satisfies `p`.
pub open spec fn every(events: Seq<SortEvent>, p: spec_fn(SortEvent) -> bool) -> bool {
    forall|t: int| 0 <= t < events.len() ==> p(#[trigger] events[t])
}

/// Appending an event that satisfies `p` keeps every event satisfying `p`.
pub broadcast proof fn lemma_every_push(events: Seq<SortEvent>, e: SortEvent, p: spec_fn(SortEvent) -> bool)
    requires
        every(events, p),
        p(e),
    ensures
        #[trigger] every(events.push(e), p),
{
    assert forall|t: int| 0 <= t < events.push(e).len() implies p(#[trigger] events.push(e)[t]) by {
        if t < events.len() {
            assert(events.push(e)[t] == events[t]);
        }
    }
}

/// The facts each algorithm leans on while it records events.
pub broadcast group group_recording {
    lemma_replay_values_push,
    lemma_replay_states_push,
    lemma_in_bounds_push,
    lemma_marked_push,
    lemma_marks_final_push,
    lemma_unfinished_push,
    lemma_every_push,
}

/// A run whose recorded events replay `input` into the sorted permutation `a`
/// is a [`faithful_run`] once `AlgorithmFinished` is appended.
proof fn lemma_finished_run(input: Seq<u32>, events: Seq<SortEvent>, a: Seq<u32>)
    requires
        events_in_bounds(events, input.len()),
        marks_are_final(events),
        marks_every_index(events, input.len()),
        unfinished(events),
        replay_values(input, events) == a,
        is_sorted_seq(a),
        a.to_multiset() == input.to_multiset(),
        events.push(SortEvent::AlgorithmFinished).len() <= isize::MAX,
    ensures
        faithful_run(input, events.push(SortEvent::AlgorithmFinished)),
{
    broadcast use group_recording;

    assert(events.push(SortEvent::AlgorithmFinished).drop_last() =~= events);
    let fin = events.push(SortEvent::AlgorithmFinished);
    let fresh = uniform_states(input.len(), ElementState::Normal);
    lemma_replay_states_len(fresh, events);
    assert(replay_states(fresh, fin) =~= uniform_states(input.len(), ElementState::Sorted));
    assert(apply_values(a, SortEvent::AlgorithmFinished) == a);
}

/// The set of algorithms selectable in the UI.
#[derive(Clone, Copy, Debug, PartialEq, Eq, Structural)]
pub enum Algorithm {
    Bubble,
    Insertion,
    Selection,
    Quick,
}

/// The name shown for each algorithm.
pub open spec fn algorithm_name(a: Algorithm) -> Seq<char> {
    match a {
        Algorithm::Bubble => "Bubble Sort"@,
        Algorithm::Insertion => "Insertion Sort"@,
        Algorithm::Selection => "Selection Sort"@,
        Algorithm::Quick => "Quick Sort"@,
    }
}

/// The average-case time complexity shown for each algorithm.
pub open spec fn algorithm_complexity(a: Algorithm) -> Seq<char> {
    match a {
        Algorithm::Bubble => "O(n^2)"@,
        Algorithm::Insertion => "O(n^2)"@,
        Algorithm::Selection => "O(n^2)"@,
        Algorithm::Quick => "O(n log n) avg"@,
    }
}

/// `events` has the shape of a run of `algorithm` over `input`: it emits
/// only the kinds of events that algorithm emits, and insertion sort marks
/// elements sorted only in one final sweep.
pub open spec fn shaped_like(algorithm: Algorithm, input: Seq<u32>, events: Seq<SortEvent>) -> bool {
    match algorithm {
        Algorithm::Bubble => every(events, |e: SortEvent| bubble_step(e)),
        Algorithm::Insertion => every(events, |e: SortEvent| insertion_step(e))
            && marks_all_at_end(events, input.len()),
        Algorithm::Selection => every(events, |e: SortEvent| selection_step(e)),
        Algorithm::Quick => every(events, |e: SortEvent| quick_step(e)),
    }
}

/// The complete event stream `algorithm` records for `input`.
pub open spec fn algorithm_events(algorithm: Algorithm, input: Seq<u32>) -> Seq<SortEvent> {
    match algorithm {
        Algorithm::Bubble => bubble_events(input),
        Algorithm::Insertion => insertion_events(input),
        Algorithm::Selection => selection_events(input),
        Algorithm::Quick => quick_events(input),
    }
}

impl Algorithm {
    /// Every algorithm, in display order.
    pub const ALL: [Algorithm; 4] = [
        Algorithm::Bubble,
        Algorithm::Insertion,
        Algorithm::Selection,
        Algorithm::Quick,
    ];

    pub fn name(&self) -> (r: &'static str)
        ensures
            r@ == algorithm_name(*self),
    {
        match self {
            Algorithm::Bubble => BubbleSort.name(),
            Algorithm::Insertion => InsertionSort.name(),
            Algorithm::Selection => SelectionSort.name(),
            Algorithm::Quick => QuickSort.name(),
        }
    }

    /// Big-O of the average-case time complexity, shown in the metrics panel.
    pub fn complexity(&self) -> (r: &'static str)
        ensures
            r@ == algorithm_complexity(*self),
    {
        match self {
            Algorithm::Bubble => "O(n^2)",
            Algorithm::Insertion => "O(n^2)",
            Algorithm::Selection => "O(n^2)",
            Algorithm::Quick => "O(n log n) avg",
        }
    }

    /// Generate the event stream for this algorithm over `values`.
    pub fn generate_events(&self, values: &[u32]) -> (events: Vec<SortEvent>)
        ensures
            faithful_run(values@, events@),
            shaped_like(*self, values@, events@),
            events@ == algorithm_events(*self, values@),
    {
        match self {
            Algorithm::Bubble => BubbleSort.generate_events(values),
            Algorithm::Insertion => InsertionSort.generate_events(values),
            Algorithm::Selection => SelectionSort.generate_events(values),
            Algorithm::Quick => QuickSort.generate_events(values),
        }
    }
}

} // verus!
