//! The event vocabulary that connects algorithms to the array state.

use vstd::prelude::*;

verus! {

/// A single observable action taken by a sorting algorithm.
#[derive(Clone, Copy, Debug, PartialEq, Eq, Structural)]
pub enum SortEvent {
    /// The algorithm compared the elements at indices `i` and `j`.
    Compare { i: usize, j: usize },
    /// The algorithm swapped the elements at indices `i` and `j`.
    Swap { i: usize, j: usize },
    /// The algorithm wrote `value` into `index` (e.g. insertion-sort shifts).
    Overwrite { index: usize, value: u32 },
    /// `index` was chosen as the current pivot / running minimum.
    SetPivot { index: usize },
    /// `index` is now in its final sorted position and should stay highlighted.
    MarkSorted { index: usize },
    /// Drop all transient highlights (comparisons, pivots) but keep "sorted".
    ClearHighlights,
    /// The algorithm finished; every element is in its final position.
    AlgorithmFinished,
}

/// The visual state of a single array element, derived purely from events.
#[derive(Clone, Copy, Debug, Default, PartialEq, Eq, Structural)]
pub enum ElementState {
    /// Resting element.
    #[default]
    Normal,
    /// Currently being compared.
    Comparing,
    /// Currently being swapped or overwritten.
    Swapping,
    /// The active pivot or running minimum.
    Pivot,
    /// Finalized in its sorted position (sticky until reset).
    Sorted,
}

impl SortEvent {
    /// Every index the event names lies below `n`.
    pub open spec fn in_bounds(self, n: nat) -> bool {
        match self {
            SortEvent::Compare { i, j } => i < n && j < n,
            SortEvent::Swap { i, j } => i < n && j < n,
            SortEvent::Overwrite { index, value: _ } => index < n,
            SortEvent::SetPivot { index } => index < n,
            SortEvent::MarkSorted { index } => index < n,
            SortEvent::ClearHighlights => true,
            SortEvent::AlgorithmFinished => true,
        }
    }
}

impl SortEvent {
    /// The event writes a value into slot `k`.
    pub open spec fn writes(self, k: usize) -> bool {
        match self {
            SortEvent::Swap { i, j } => i == k || j == k,
            SortEvent::Overwrite { index, value: _ } => index == k,
            _ => false,
        }
    }
}

/// Some event of `events` marks index `k` sorted.
pub open spec fn marked_sorted(events: Seq<SortEvent>, k: usize) -> bool {
    exists|t: int| 0 <= t < events.len() && #[trigger] events[t] == SortEvent::MarkSorted { index: k }
}

/// The comparisons of `events`, in the order they were recorded.
pub open spec fn compares_of(events: Seq<SortEvent>) -> Seq<SortEvent> {
    events.filter(|e: SortEvent| e is Compare)
}

/// The comparisons of two joined streams are those of the first followed by
/// those of the second.
pub proof fn lemma_compares_of_concat(x: Seq<SortEvent>, y: Seq<SortEvent>)
    ensures
        compares_of(x + y) == compares_of(x) + compares_of(y),
{
    Seq::filter_distributes_over_add(x, y, |e: SortEvent| e is Compare);
}

/// A single event contributes itself if it is a comparison, else nothing.
pub proof fn lemma_compares_of_one(e: SortEvent)
    ensures
        compares_of(seq![e]) == if e is Compare {
            seq![e]
        } else {
            Seq::<SortEvent>::empty()
        },
{
    reveal_with_fuel(Seq::filter, 2);
    assert(seq![e].drop_last() =~= Seq::<SortEvent>::empty());
    assert(seq![e].last() == e);
    if e is Compare {
        assert(Seq::<SortEvent>::empty().push(e) =~= seq![e]);
    }
}

/// A stream without comparisons contributes none.
pub proof fn lemma_compares_of_none(x: Seq<SortEvent>)
    requires
        forall|t: int| 0 <= t < x.len() ==> !(#[trigger] x[t] is Compare),
    ensures
        compares_of(x) == Seq::<SortEvent>::empty(),
    decreases x.len(),
{
    reveal_with_fuel(Seq::filter, 1);
    if x.len() > 0 {
        assert forall|t: int| 0 <= t < x.drop_last().len() implies !(#[trigger] x.drop_last()[t] is Compare) by {
            assert(x.drop_last()[t] == x[t]);
        }
        lemma_compares_of_none(x.drop_last());
        assert(x.last() == x[x.len() - 1]);
    }
}

/// Every index below `n` is marked sorted by some event of `events`.
pub open spec fn marks_every_index(events: Seq<SortEvent>, n: nat) -> bool {
    forall|k: usize| k < n ==> #[trigger] marked_sorted(events, k)
}

/// The `MarkSorted` events of `events` name strictly increasing indices.
/// Together with every index below `n` being marked and every index lying
/// below `n`, the marks are exactly `0, 1, ..., n - 1`, in that order.
pub open spec fn marks_increasing(events: Seq<SortEvent>) -> bool {
    forall|t: int, u: int|
        0 <= t < u < events.len() && (#[trigger] events[t]) is MarkSorted && (
        #[trigger] events[u]) is MarkSorted ==> events[t]->MarkSorted_index
            < events[u]->MarkSorted_index
}

/// Appending an event keeps the marks increasing as long as a new mark names
/// an index above every index marked so far.
pub broadcast proof fn lemma_marks_increasing_push(events: Seq<SortEvent>, e: SortEvent)
    requires
        marks_increasing(events),
        e is MarkSorted ==> forall|k: usize| marked_sorted(events, k) ==> k < e->MarkSorted_index,
    ensures
        #[trigger] marks_increasing(events.push(e)),
{
    let longer = events.push(e);
    assert forall|t: int, u: int|
        0 <= t < u < longer.len() && (#[trigger] longer[t]) is MarkSorted && (
        #[trigger] longer[u]) is MarkSorted implies longer[t]->MarkSorted_index
        < longer[u]->MarkSorted_index by {
        assert(longer[t] == events[t]);
        if u < events.len() {
            assert(longer[u] == events[u]);
        } else {
            let k = events[t]->MarkSorted_index;
            assert(events[t] == SortEvent::MarkSorted { index: k });
            assert(marked_sorted(events, k));
        }
    }
}

/// Once an index is marked sorted, no later event writes to it: the value
/// shown as final really is final.
pub open spec fn marks_are_final(events: Seq<SortEvent>) -> bool {
    forall|t: int, u: int|
        0 <= t < u < events.len() && (#[trigger] events[t]) is MarkSorted ==> !(#[trigger] events[u]).writes(
            events[t]->MarkSorted_index,
        )
}

/// `AlgorithmFinished` occurs nowhere in `events`.
pub open spec fn unfinished(events: Seq<SortEvent>) -> bool {
    forall|t: int| 0 <= t < events.len() ==> #[trigger] events[t] != SortEvent::AlgorithmFinished
}

/// Every event of `events` names only indices below `n`.
pub open spec fn events_in_bounds(events: Seq<SortEvent>, n: nat) -> bool {
    forall|k: int| 0 <= k < events.len() ==> (#[trigger] events[k]).in_bounds(n)
}

} // verus!
