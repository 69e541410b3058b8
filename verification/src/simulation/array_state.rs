//! The reconstructable array state: values plus per-element highlight states,
//! mutated exclusively by applying [`SortEvent`]s.

use vstd::prelude::*;

use super::sort_event::{events_in_bounds, ElementState, SortEvent};
use crate::algorithms::permutation::lemma_swap_multiset;

verus! {

/// `s` with the elements at `i` and `j` exchanged.
pub open spec fn swapped<T>(s: Seq<T>, i: int, j: int) -> Seq<T> {
    s.update(i, s[j]).update(j, s[i])
}

/// The values after applying `event` to `values`.
pub open spec fn apply_values(values: Seq<u32>, event: SortEvent) -> Seq<u32> {
    match event {
        SortEvent::Swap { i, j } => swapped(values, i as int, j as int),
        SortEvent::Overwrite { index, value } => values.update(index as int, value),
        _ => values,
    }
}

/// `Comparing` and `Swapping` only last until the next comparison or swap.
pub open spec fn is_transient(s: ElementState) -> bool {
    s == ElementState::Comparing || s == ElementState::Swapping
}

/// Every transient highlight reset to `Normal`.
pub open spec fn cleared_transient(states: Seq<ElementState>) -> Seq<ElementState> {
    Seq::new(
        states.len(),
        |k: int| if is_transient(states[k]) { ElementState::Normal } else { states[k] },
    )
}

/// `states` with `index` highlighted as `s`, unless it is a pivot or sorted.
pub open spec fn highlighted(states: Seq<ElementState>, index: int, s: ElementState) -> Seq<
    ElementState,
> {
    if states[index] == ElementState::Pivot || states[index] == ElementState::Sorted {
        states
    } else {
        states.update(index, s)
    }
}

/// Every previous pivot demoted to `Normal`.
pub open spec fn demoted_pivots(states: Seq<ElementState>) -> Seq<ElementState> {
    Seq::new(
        states.len(),
        |k: int| if states[k] == ElementState::Pivot { ElementState::Normal } else { states[k] },
    )
}

/// Every element that is not sorted reset to `Normal`.
pub open spec fn cleared_highlights(states: Seq<ElementState>) -> Seq<ElementState> {
    Seq::new(
        states.len(),
        |k: int| if states[k] == ElementState::Sorted { ElementState::Sorted } else { ElementState::Normal },
    )
}

/// `n` elements, all in state `s`.
pub open spec fn uniform_states(n: nat, s: ElementState) -> Seq<ElementState> {
    Seq::new(n, |k: int| s)
}

/// The highlight states after applying `event` to `states`.
pub open spec fn apply_states(states: Seq<ElementState>, event: SortEvent) -> Seq<ElementState> {
    match event {
        SortEvent::Compare { i, j } => highlighted(
            highlighted(cleared_transient(states), i as int, ElementState::Comparing),
            j as int,
            ElementState::Comparing,
        ),
        SortEvent::Swap { i, j } => highlighted(
            highlighted(cleared_transient(states), i as int, ElementState::Swapping),
            j as int,
            ElementState::Swapping,
        ),
        SortEvent::Overwrite { index, value: _ } => highlighted(
            cleared_transient(states),
            index as int,
            ElementState::Swapping,
        ),
        SortEvent::SetPivot { index } => {
            let d = demoted_pivots(states);
            if d[index as int] == ElementState::Sorted {
                d
            } else {
                d.update(index as int, ElementState::Pivot)
            }
        },
        SortEvent::MarkSorted { index } => states.update(index as int, ElementState::Sorted),
        SortEvent::ClearHighlights => cleared_highlights(states),
        SortEvent::AlgorithmFinished => uniform_states(states.len(), ElementState::Sorted),
    }
}

/// The values after applying `events`, in order, to `values`.
pub open spec fn replay_values(values: Seq<u32>, events: Seq<SortEvent>) -> Seq<u32>
    decreases events.len(),
{
    if events.len() == 0 {
        values
    } else {
        apply_values(replay_values(values, events.drop_last()), events.last())
    }
}

/// The highlight states after applying `events`, in order, to `states`.
pub open spec fn replay_states(states: Seq<ElementState>, events: Seq<SortEvent>) -> Seq<
    ElementState,
>
    decreases events.len(),
{
    if events.len() == 0 {
        states
    } else {
        apply_states(replay_states(states, events.drop_last()), events.last())
    }
}

/// The largest of `values`, and never less than 1.
pub open spec fn max_or_one(values: Seq<u32>) -> u32
    decreases values.len(),
{
    if values.len() == 0 {
        1
    } else {
        let m = max_or_one(values.drop_last());
        if values.last() > m {
            values.last()
        } else {
            m
        }
    }
}

/// Replaying one more event applies it to the replayed values.
pub broadcast proof fn lemma_replay_values_push(values: Seq<u32>, events: Seq<SortEvent>, e: SortEvent)
    ensures
        #[trigger] replay_values(values, events.push(e)) == apply_values(
            replay_values(values, events),
            e,
        ),
{
    assert(events.push(e).drop_last() =~= events);
}

/// Replaying one more event applies it to the replayed states.
pub broadcast proof fn lemma_replay_states_push(
    states: Seq<ElementState>,
    events: Seq<SortEvent>,
    e: SortEvent,
)
    ensures
        #[trigger] replay_states(states, events.push(e)) == apply_states(
            replay_states(states, events),
            e,
        ),
{
    assert(events.push(e).drop_last() =~= events);
}

/// Events within bounds keep the number of values.
pub proof fn lemma_replay_values_len(values: Seq<u32>, events: Seq<SortEvent>)
    requires
        events_in_bounds(events, values.len()),
    ensures
        replay_values(values, events).len() == values.len(),
    decreases events.len(),
{
    if events.len() > 0 {
        let prefix = events.drop_last();
        assert(events_in_bounds(prefix, values.len())) by {
            assert forall|k: int| 0 <= k < prefix.len() implies (#[trigger] prefix[k]).in_bounds(
                values.len(),
            ) by {
                assert(prefix[k] == events[k]);
            }
        }
        lemma_replay_values_len(values, prefix);
        assert(events.last() == events[events.len() - 1]);
    }
}

/// Events within bounds keep the number of states.
pub proof fn lemma_replay_states_len(states: Seq<ElementState>, events: Seq<SortEvent>)
    requires
        events_in_bounds(events, states.len()),
    ensures
        replay_states(states, events).len() == states.len(),
    decreases events.len(),
{
    if events.len() > 0 {
        let prefix = events.drop_last();
        assert(events_in_bounds(prefix, states.len())) by {
            assert forall|k: int| 0 <= k < prefix.len() implies (#[trigger] prefix[k]).in_bounds(
                states.len(),
            ) by {
                assert(prefix[k] == events[k]);
            }
        }
        lemma_replay_states_len(states, prefix);
        assert(events.last() == events[events.len() - 1]);
    }
}

/// `Sorted` is sticky: no event takes an element out of the sorted state
/// (only rebuilding the state from scratch does).
pub proof fn lemma_sorted_is_sticky(states: Seq<ElementState>, e: SortEvent, k: int)
    requires
        e.in_bounds(states.len()),
        0 <= k < states.len(),
        states[k] == ElementState::Sorted,
    ensures
        apply_states(states, e).len() == states.len(),
        apply_states(states, e)[k] == ElementState::Sorted,
{
    match e {
        SortEvent::SetPivot { index } => {
            assert(demoted_pivots(states)[k] == ElementState::Sorted);
        },
        _ => {},
    }
}

/// Comparisons, swaps and overwrites never override a pivot or a sorted
/// element: a pivot keeps its color even while it is compared against.
pub proof fn lemma_highlights_keep_pivot_and_sorted(states: Seq<ElementState>, e: SortEvent, k: int)
    requires
        e is Compare || e is Swap || e is Overwrite,
        e.in_bounds(states.len()),
        0 <= k < states.len(),
        states[k] == ElementState::Pivot || states[k] == ElementState::Sorted,
    ensures
        apply_states(states, e)[k] == states[k],
{
}

/// Only one pivot at a time: after `SetPivot { index }` the pivot, if any, is
/// `index`.
pub proof fn lemma_single_pivot(states: Seq<ElementState>, index: usize, k: int)
    requires
        index < states.len(),
        0 <= k < states.len(),
        apply_states(states, SortEvent::SetPivot { index })[k] == ElementState::Pivot,
    ensures
        k == index,
{
}

/// An element becomes `Sorted` only by being sorted already, by being marked
/// sorted, or by the run finishing.
pub proof fn lemma_sorted_origin(states: Seq<ElementState>, e: SortEvent, k: usize)
    requires
        e.in_bounds(states.len()),
        k < states.len(),
        apply_states(states, e)[k as int] == ElementState::Sorted,
    ensures
        states[k as int] == ElementState::Sorted || e == (SortEvent::MarkSorted { index: k })
            || e == SortEvent::AlgorithmFinished,
{
    match e {
        SortEvent::SetPivot { index } => {
            assert(demoted_pivots(states)[k as int] == if states[k as int] == ElementState::Pivot {
                ElementState::Normal
            } else {
                states[k as int]
            });
        },
        SortEvent::MarkSorted { index } => {
            if index != k {
                assert(states.update(index as int, ElementState::Sorted)[k as int] == states[k as int]);
            }
        },
        _ => {},
    }
}

/// An element's value is untouched by events that do not write to it.
pub proof fn lemma_replay_keeps_unwritten(values: Seq<u32>, events: Seq<SortEvent>, k: int, x: usize)
    requires
        0 <= k <= events.len(),
        events_in_bounds(events, values.len()),
        x < values.len(),
        forall|u: int| k <= u < events.len() ==> !(#[trigger] events[u]).writes(x),
    ensures
        replay_values(values, events)[x as int] == replay_values(values, events.take(k))[x as int],
    decreases events.len() - k,
{
    if k < events.len() {
        let m = events.len() - 1;
        let prefix = events.drop_last();
        assert(events_in_bounds(prefix, values.len())) by {
            assert forall|t: int| 0 <= t < prefix.len() implies (#[trigger] prefix[t]).in_bounds(
                values.len(),
            ) by {
                assert(prefix[t] == events[t]);
            }
        }
        assert forall|u: int| k <= u < prefix.len() implies !(#[trigger] prefix[u]).writes(x) by {
            assert(prefix[u] == events[u]);
        }
        lemma_replay_keeps_unwritten(values, prefix, k, x);
        assert(prefix.take(k) =~= events.take(k));
        lemma_replay_values_len(values, prefix);
        let e = events.last();
        assert(e == events[m]);
        assert(!e.writes(x));
        assert(e.in_bounds(values.len()));
    } else {
        assert(events.take(k) =~= events);
    }
}

/// A comparison lights exactly the compared pair: every other bar that was
/// highlighted as compared or swapped goes back to `Normal`, every other bar
/// keeps its state, and each of the two compared bars shows `Comparing`
/// unless it is a pivot or already sorted.
pub proof fn lemma_compare_lights_only_the_pair(states: Seq<ElementState>, i: usize, j: usize, k: int)
    requires
        i < states.len(),
        j < states.len(),
        0 <= k < states.len(),
    ensures
        apply_states(states, SortEvent::Compare { i, j }).len() == states.len(),
        k != i && k != j ==> apply_states(states, SortEvent::Compare { i, j })[k] == if states[k]
            == ElementState::Comparing || states[k] == ElementState::Swapping {
            ElementState::Normal
        } else {
            states[k]
        },
        k == i || k == j ==> apply_states(states, SortEvent::Compare { i, j })[k] == if states[k]
            == ElementState::Pivot || states[k] == ElementState::Sorted {
            states[k]
        } else {
            ElementState::Comparing
        },
{
}

/// A swap lights exactly the swapped pair: every other bar that was
/// highlighted as compared or swapped goes back to `Normal`, every other bar
/// keeps its state, and each of the two swapped bars shows `Swapping` unless
/// it is a pivot or already sorted.
pub proof fn lemma_swap_lights_only_the_pair(states: Seq<ElementState>, i: usize, j: usize, k: int)
    requires
        i < states.len(),
        j < states.len(),
        0 <= k < states.len(),
    ensures
        apply_states(states, SortEvent::Swap { i, j }).len() == states.len(),
        k != i && k != j ==> apply_states(states, SortEvent::Swap { i, j })[k] == if states[k]
            == ElementState::Comparing || states[k] == ElementState::Swapping {
            ElementState::Normal
        } else {
            states[k]
        },
        k == i || k == j ==> apply_states(states, SortEvent::Swap { i, j })[k] == if states[k]
            == ElementState::Pivot || states[k] == ElementState::Sorted {
            states[k]
        } else {
            ElementState::Swapping
        },
{
}

/// An overwrite lights only the written bar: every other bar that was
/// highlighted as compared or swapped goes back to `Normal`, every other bar
/// keeps its state, and the written bar shows `Swapping` unless it is a pivot
/// or already sorted.
pub proof fn lemma_overwrite_lights_only_the_slot(states: Seq<ElementState>, index: usize, value: u32, k: int)
    requires
        index < states.len(),
        0 <= k < states.len(),
    ensures
        apply_states(states, SortEvent::Overwrite { index, value }).len() == states.len(),
        k != index ==> apply_states(states, SortEvent::Overwrite { index, value })[k] == if states[k]
            == ElementState::Comparing || states[k] == ElementState::Swapping {
            ElementState::Normal
        } else {
            states[k]
        },
        k == index ==> apply_states(states, SortEvent::Overwrite { index, value })[k] == if states[k]
            == ElementState::Pivot || states[k] == ElementState::Sorted {
            states[k]
        } else {
            ElementState::Swapping
        },
{
}

/// Replaying two joined streams replays the second from where the first
/// left the values.
pub proof fn lemma_replay_concat(values: Seq<u32>, x: Seq<SortEvent>, y: Seq<SortEvent>)
    ensures
        replay_values(values, x + y) == replay_values(replay_values(values, x), y),
    decreases y.len(),
{
    if y.len() == 0 {
        assert(x + y =~= x);
    } else {
        lemma_replay_concat(values, x, y.drop_last());
        assert((x + y).drop_last() =~= x + y.drop_last());
        assert((x + y).last() == y.last());
    }
}

/// Events that neither swap nor overwrite leave the values alone.
pub proof fn lemma_replay_inert(values: Seq<u32>, x: Seq<SortEvent>)
    requires
        forall|t: int| 0 <= t < x.len() ==> !(#[trigger] x[t] is Swap) && !(x[t] is Overwrite),
    ensures
        replay_values(values, x) == values,
    decreases x.len(),
{
    if x.len() > 0 {
        assert forall|t: int| 0 <= t < x.drop_last().len() implies !(#[trigger] x.drop_last()[t] is Swap)
            && !(x.drop_last()[t] is Overwrite) by {
            assert(x.drop_last()[t] == x[t]);
        }
        lemma_replay_inert(values, x.drop_last());
        assert(x.last() == x[x.len() - 1]);
    }
}

/// Every `Swap { i, j }` of `events`, replayed from `values`, exchanges a
/// strictly larger value at `i` with a strictly smaller one at `j`: no swap
/// moves equal values or puts a pair out of order.
pub open spec fn swaps_are_strict_descents(values: Seq<u32>, events: Seq<SortEvent>) -> bool {
    forall|t: int|
        0 <= t < events.len() && (#[trigger] events[t]) is Swap ==> replay_values(
            values,
            events.take(t),
        )[events[t]->Swap_j as int] < replay_values(values, events.take(t))[events[t]->Swap_i as int]
}

/// Joining two streams of strict-descent swaps, the second replayed from
/// where the first left the values, gives a stream of strict-descent swaps.
pub proof fn lemma_strict_descents_concat(values: Seq<u32>, x: Seq<SortEvent>, y: Seq<SortEvent>)
    requires
        swaps_are_strict_descents(values, x),
        swaps_are_strict_descents(replay_values(values, x), y),
    ensures
        swaps_are_strict_descents(values, x + y),
{
    let z = x + y;
    assert forall|t: int| 0 <= t < z.len() && (#[trigger] z[t]) is Swap implies replay_values(
        values,
        z.take(t),
    )[z[t]->Swap_j as int] < replay_values(values, z.take(t))[z[t]->Swap_i as int] by {
        if t < x.len() {
            assert(z.take(t) =~= x.take(t));
            assert(z[t] == x[t]);
        } else {
            let u = t - x.len();
            assert(z.take(t) =~= x + y.take(u));
            assert(z[t] == y[u]);
            lemma_replay_concat(values, x, y.take(u));
        }
    }
}

/// Pinning a pivot shows it as `Pivot` (a sorted bar stays `Sorted`), turns
/// every earlier pivot back to `Normal`, and leaves every other bar alone.
pub proof fn lemma_pivot_replaces_pivot(states: Seq<ElementState>, index: usize, k: int)
    requires
        index < states.len(),
        0 <= k < states.len(),
    ensures
        apply_states(states, SortEvent::SetPivot { index }).len() == states.len(),
        k == index ==> apply_states(states, SortEvent::SetPivot { index })[k] == if states[k]
            == ElementState::Sorted {
            ElementState::Sorted
        } else {
            ElementState::Pivot
        },
        k != index ==> apply_states(states, SortEvent::SetPivot { index })[k] == if states[k]
            == ElementState::Pivot {
            ElementState::Normal
        } else {
            states[k]
        },
{
}

/// Marking a bar sorted shows it as `Sorted` and leaves every other bar
/// alone; clearing highlights keeps sorted bars and resets all others to
/// `Normal`; finishing shows every bar as `Sorted`.
pub proof fn lemma_marks_and_clears(states: Seq<ElementState>, index: usize, k: int)
    requires
        index < states.len(),
        0 <= k < states.len(),
    ensures
        apply_states(states, SortEvent::MarkSorted { index }).len() == states.len(),
        apply_states(states, SortEvent::MarkSorted { index })[k] == if k == index {
            ElementState::Sorted
        } else {
            states[k]
        },
        apply_states(states, SortEvent::ClearHighlights).len() == states.len(),
        apply_states(states, SortEvent::ClearHighlights)[k] == if states[k] == ElementState::Sorted {
            ElementState::Sorted
        } else {
            ElementState::Normal
        },
        apply_states(states, SortEvent::AlgorithmFinished).len() == states.len(),
        apply_states(states, SortEvent::AlgorithmFinished)[k] == ElementState::Sorted,
{
}

/// A swap exchanges the two values and keeps every other; an overwrite puts
/// the new value in its slot and keeps every other; no other event changes
/// a value.
pub proof fn lemma_value_effects(values: Seq<u32>, e: SortEvent, k: int)
    requires
        e.in_bounds(values.len()),
        0 <= k < values.len(),
    ensures
        apply_values(values, e).len() == values.len(),
        apply_values(values, e)[k] == match e {
            SortEvent::Swap { i, j } => if k == i {
                values[j as int]
            } else if k == j {
                values[i as int]
            } else {
                values[k]
            },
            SortEvent::Overwrite { index, value } => if k == index {
                value
            } else {
                values[k]
            },
            _ => values[k],
        },
{
}

/// Events that never overwrite a slot only rearrange the values: replaying
/// them keeps the multiset of values.
pub proof fn lemma_replay_keeps_multiset(values: Seq<u32>, events: Seq<SortEvent>)
    requires
        events_in_bounds(events, values.len()),
        forall|t: int| 0 <= t < events.len() ==> !(#[trigger] events[t] is Overwrite),
    ensures
        replay_values(values, events).to_multiset() == values.to_multiset(),
    decreases events.len(),
{
    if events.len() > 0 {
        let prefix = events.drop_last();
        assert(events_in_bounds(prefix, values.len())) by {
            assert forall|t: int| 0 <= t < prefix.len() implies (#[trigger] prefix[t]).in_bounds(
                values.len(),
            ) by {
                assert(prefix[t] == events[t]);
            }
        }
        assert forall|t: int| 0 <= t < prefix.len() implies !(#[trigger] prefix[t] is Overwrite) by {
            assert(prefix[t] == events[t]);
        }
        lemma_replay_keeps_multiset(values, prefix);
        lemma_replay_values_len(values, prefix);
        let e = events.last();
        assert(e == events[events.len() - 1]);
        assert(e.in_bounds(values.len()));
        let r = replay_values(values, prefix);
        if let SortEvent::Swap { i, j } = e {
            lemma_swap_multiset(r, i as int, j as int);
        }
    }
}

/// `max_or_one` is at least 1, bounds every value, and is either 1 or one of
/// the values.
pub proof fn lemma_max_or_one_bounds(values: Seq<u32>)
    ensures
        max_or_one(values) >= 1,
        forall|k: int| 0 <= k < values.len() ==> #[trigger] values[k] <= max_or_one(values),
        max_or_one(values) == 1 || exists|k: int| 0 <= k < values.len() && #[trigger] values[k] == max_or_one(values),
    decreases values.len(),
{
    if values.len() > 0 {
        let prefix = values.drop_last();
        lemma_max_or_one_bounds(prefix);
        assert forall|k: int| 0 <= k < values.len() implies #[trigger] values[k] <= max_or_one(values) by {
            if k < prefix.len() {
                assert(values[k] == prefix[k]);
            }
        }
        if max_or_one(values) != 1 {
            if values.last() > max_or_one(prefix) {
                assert(values[values.len() - 1] == max_or_one(values));
            } else {
                let k = choose|k: int| 0 <= k < prefix.len() && #[trigger] prefix[k] == max_or_one(prefix);
                assert(values[k] == prefix[k]);
            }
        }
    }
}

/// Exchanging two values keeps the maximum.
pub proof fn lemma_max_or_one_swapped(values: Seq<u32>, i: int, j: int)
    requires
        0 <= i < values.len(),
        0 <= j < values.len(),
    ensures
        max_or_one(swapped(values, i, j)) == max_or_one(values),
{
    let w = swapped(values, i, j);
    lemma_max_or_one_bounds(values);
    lemma_max_or_one_bounds(w);
    let m = max_or_one(values);
    let mw = max_or_one(w);
    assert forall|k: int| 0 <= k < w.len() implies #[trigger] w[k] <= m by {
        if k == j {
            assert(w[k] == values[i]);
        } else if k == i {
            assert(w[k] == values[j]);
        } else {
            assert(w[k] == values[k]);
        }
    }
    assert forall|k: int| 0 <= k < values.len() implies #[trigger] values[k] <= mw by {
        if k == j {
            assert(values[k] == w[i]);
        } else if k == i {
            assert(values[k] == w[j]);
        } else {
            assert(values[k] == w[k]);
        }
    }
    if m != 1 {
        let k = choose|k: int| 0 <= k < values.len() && #[trigger] values[k] == m;
        assert(values[k] <= mw);
    }
    if mw != 1 {
        let k = choose|k: int| 0 <= k < w.len() && #[trigger] w[k] == mw;
        assert(w[k] <= m);
    }
}

/// The largest of `values`, and never less than 1.
fn max_of(values: &Vec<u32>) -> (r: u32)
    ensures
        r == max_or_one(values@),
{
    let n = values.len();
    let mut max_value: u32 = 1;
    let mut k: usize = 0;
    while k < n
        invariant
            n == values@.len(),
            k <= n,
            max_value == max_or_one(values@.take(k as int)),
        decreases n - k,
    {
        assert(values@.take(k as int + 1).drop_last() =~= values@.take(k as int));
        if values[k] > max_value {
            max_value = values[k];
        }
        k += 1;
    }
    assert(values@.take(n as int) =~= values@);
    max_value
}

/// Current values plus per-element [`ElementState`], driven entirely by events.
#[derive(Clone, Debug)]
pub struct ArrayState {
    values: Vec<u32>,
    states: Vec<ElementState>,
    /// The maximum value present (at least 1), cached so it need not be
    /// rescanned on every read.
    max_value: u32,
}

impl ArrayState {
    /// The current values.
    pub closed spec fn vals(&self) -> Seq<u32> {
        self.values@
    }

    /// The current highlight state of each element.
    pub closed spec fn stats(&self) -> Seq<ElementState> {
        self.states@
    }

    /// The cached maximum.
    pub closed spec fn max_val(&self) -> u32 {
        self.max_value
    }

    /// One state per value, and the cached maximum is the maximum present.
    pub open spec fn wf(&self) -> bool {
        &&& self.vals().len() == self.stats().len()
        &&& self.max_val() == max_or_one(self.vals())
    }

    /// Create a fresh state from the given values, all elements `Normal`.
    pub fn new(values: Vec<u32>) -> (r: Self)
        ensures
            r.vals() == values@,
            r.stats() == uniform_states(values@.len(), ElementState::Normal),
            r.max_val() == max_or_one(values@),
            r.wf(),
    {
        let n = values.len();
        let max_value = max_of(&values);
        let mut states: Vec<ElementState> = Vec::new();
        let mut m: usize = 0;
        while m < n
            invariant
                m <= n,
                states@ == uniform_states(m as nat, ElementState::Normal),
            decreases n - m,
        {
            states.push(ElementState::Normal);
            m += 1;
            assert(states@ =~= uniform_states(m as nat, ElementState::Normal));
        }
        ArrayState { values, states, max_value }
    }

    pub fn len(&self) -> (r: usize)
        ensures
            r == self.vals().len(),
    {
        self.values.len()
    }

    pub fn is_empty(&self) -> (r: bool)
        ensures
            r == (self.vals().len() == 0),
    {
        self.values.len() == 0
    }

    pub fn values(&self) -> (r: &[u32])
        ensures
            r@ == self.vals(),
    {
        self.values.as_slice()
    }

    pub fn states(&self) -> (r: &[ElementState])
        ensures
            r@ == self.stats(),
    {
        self.states.as_slice()
    }

    /// The maximum value present, at least 1.
    pub fn max_value(&self) -> (r: u32)
        ensures
            r == self.max_val(),
            self.wf() ==> r == max_or_one(self.vals()),
    {
        self.max_value
    }

    /// `true` when the values are in non-decreasing order.
    pub fn is_sorted(&self) -> (r: bool)
        ensures
            r == is_sorted_seq(self.vals()),
    {
        let n = self.values.len();
        if n < 2 {
            return true;
        }
        let mut k: usize = 1;
        while k < n
            invariant
                1 <= k <= n,
                n == self.values@.len(),
                sorted_between(self.values@, 0, k as int),
            decreases n - k,
        {
            if self.values[k - 1] > self.values[k] {
                return false;
            }
            k += 1;
        }
        true
    }

    /// Apply one event, updating both values and highlight states.
    pub fn apply(&mut self, event: &SortEvent)
        requires
            old(self).wf(),
            event.in_bounds(old(self).vals().len()),
        ensures
            final(self).wf(),
            final(self).vals() == apply_values(old(self).vals(), *event),
            final(self).stats() == apply_states(old(self).stats(), *event),
            final(self).max_val() == max_or_one(final(self).vals()),
    {
        match *event {
            SortEvent::Compare { i, j } => {
                self.clear_transient();
                self.set_highlight(i, ElementState::Comparing);
                self.set_highlight(j, ElementState::Comparing);
            },
            SortEvent::Swap { i, j } => {
                self.clear_transient();
                let vi = self.values[i];
                let vj = self.values[j];
                self.values.set(i, vj);
                self.values.set(j, vi);
                proof {
                    lemma_max_or_one_swapped(old(self).values@, i as int, j as int);
                }
                self.set_highlight(i, ElementState::Swapping);
                self.set_highlight(j, ElementState::Swapping);
            },
            SortEvent::Overwrite { index, value } => {
                self.clear_transient();
                self.values.set(index, value);
                self.max_value = max_of(&self.values);
                self.set_highlight(index, ElementState::Swapping);
            },
            SortEvent::SetPivot { index } => {
                let n = self.states.len();
                let ghost before = self.states@;
                let mut k: usize = 0;
                while k < n
                    invariant
                        n == self.states@.len(),
                        n == before.len(),
                        k <= n,
                        self.values@ == old(self).values@,
                        self.max_value == old(self).max_value,
                        before == old(self).states@,
                        forall|m: int|
                            0 <= m < k ==> self.states@[m] == demoted_pivots(before)[m],
                        forall|m: int| k <= m < n ==> self.states@[m] == before[m],
                    decreases n - k,
                {
                    if self.states[k] == ElementState::Pivot {
                        self.states.set(k, ElementState::Normal);
                    }
                    k += 1;
                }
                assert(self.states@ =~= demoted_pivots(before));
                if self.states[index] != ElementState::Sorted {
                    self.states.set(index, ElementState::Pivot);
                }
            },
            SortEvent::MarkSorted { index } => {
                self.states.set(index, ElementState::Sorted);
            },
            SortEvent::ClearHighlights => {
                let n = self.states.len();
                let ghost before = self.states@;
                let mut k: usize = 0;
                while k < n
                    invariant
                        n == self.states@.len(),
                        n == before.len(),
                        k <= n,
                        self.values@ == old(self).values@,
                        self.max_value == old(self).max_value,
                        before == old(self).states@,
                        forall|m: int|
                            0 <= m < k ==> self.states@[m] == cleared_highlights(before)[m],
                        forall|m: int| k <= m < n ==> self.states@[m] == before[m],
                    decreases n - k,
                {
                    if self.states[k] != ElementState::Sorted {
                        self.states.set(k, ElementState::Normal);
                    }
                    k += 1;
                }
                assert(self.states@ =~= cleared_highlights(before));
            },
            SortEvent::AlgorithmFinished => {
                let n = self.states.len();
                let ghost before = self.states@;
                let mut k: usize = 0;
                while k < n
                    invariant
                        n == self.states@.len(),
                        n == before.len(),
                        k <= n,
                        self.values@ == old(self).values@,
                        self.max_value == old(self).max_value,
                        forall|m: int| 0 <= m < k ==> self.states@[m] == ElementState::Sorted,
                    decreases n - k,
                {
                    self.states.set(k, ElementState::Sorted);
                    k += 1;
                }
                assert(self.states@ =~= uniform_states(before.len(), ElementState::Sorted));
            },
        }
    }

    /// Reset `Comparing`/`Swapping` elements back to `Normal`, leaving `Pivot`
    /// and `Sorted` untouched.
    fn clear_transient(&mut self)
        ensures
            final(self).values@ == old(self).values@,
            final(self).max_value == old(self).max_value,
            final(self).states@ == cleared_transient(old(self).states@),
    {
        let n = self.states.len();
        let mut k: usize = 0;
        while k < n
            invariant
                n == self.states@.len(),
                n == old(self).states@.len(),
                k <= n,
                self.values@ == old(self).values@,
                self.max_value == old(self).max_value,
                forall|m: int|
                    0 <= m < k ==> self.states@[m] == cleared_transient(old(self).states@)[m],
                forall|m: int| k <= m < n ==> self.states@[m] == old(self).states@[m],
            decreases n - k,
        {
            let s = self.states[k];
            if s == ElementState::Comparing || s == ElementState::Swapping {
                self.states.set(k, ElementState::Normal);
            }
            k += 1;
        }
        assert(self.states@ =~= cleared_transient(old(self).states@));
    }

    /// Set a transient highlight, but never override a `Pivot` or `Sorted`
    /// element (those carry more important meaning).
    fn set_highlight(&mut self, index: usize, state: ElementState)
        requires
            index < old(self).states@.len(),
        ensures
            final(self).values@ == old(self).values@,
            final(self).max_value == old(self).max_value,
            final(self).states@ == highlighted(old(self).states@, index as int, state),
    {
        let cur = self.states[index];
        if cur == ElementState::Pivot || cur == ElementState::Sorted {
            return;
        }
        self.states.set(index, state);
    }
}

/// The values between `lo` (inclusive) and `hi` (exclusive) are in
/// non-decreasing order.
pub open spec fn sorted_between(s: Seq<u32>, lo: int, hi: int) -> bool {
    forall|p: int, q: int| lo <= p < q < hi ==> #[trigger] s[p] <= #[trigger] s[q]
}

/// The whole sequence is in non-decreasing order.
pub open spec fn is_sorted_seq(s: Seq<u32>) -> bool {
    sorted_between(s, 0, s.len() as int)
}

} // verus!
