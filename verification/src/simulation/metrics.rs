//! Counters describing how much work an algorithm performed, derived from the
//! same event stream the array state consumes.

use vstd::prelude::*;

use super::sort_event::SortEvent;

verus! {

/// Work counters for the current run.
///
/// `writes` counts individual array slot writes: a [`SortEvent::Swap`] touches
/// two slots, an [`SortEvent::Overwrite`] touches one.
#[derive(Clone, Copy, Debug, Default, PartialEq, Eq, Structural)]
pub struct Metrics {
    pub comparisons: u64,
    pub swaps: u64,
    pub writes: u64,
}

/// All counters at zero.
pub open spec fn zero_metrics() -> Metrics {
    Metrics { comparisons: 0, swaps: 0, writes: 0 }
}

/// The counters after folding `event` into `m`.
pub open spec fn recorded(m: Metrics, event: SortEvent) -> Metrics {
    match event {
        SortEvent::Compare { .. } => Metrics { comparisons: (m.comparisons + 1) as u64, ..m },
        SortEvent::Swap { .. } => Metrics {
            swaps: (m.swaps + 1) as u64,
            writes: (m.writes + 2) as u64,
            ..m
        },
        SortEvent::Overwrite { .. } => Metrics { writes: (m.writes + 1) as u64, ..m },
        _ => m,
    }
}

/// Folding `event` into `m` does not overflow a counter.
pub open spec fn can_record(m: Metrics, event: SortEvent) -> bool {
    match event {
        SortEvent::Compare { .. } => m.comparisons < u64::MAX,
        SortEvent::Swap { .. } => m.swaps < u64::MAX && m.writes <= u64::MAX - 2,
        SortEvent::Overwrite { .. } => m.writes < u64::MAX,
        _ => true,
    }
}

/// The number of events of `events` that are comparisons.
pub open spec fn count_compares(events: Seq<SortEvent>) -> nat
    decreases events.len(),
{
    if events.len() == 0 {
        0
    } else {
        count_compares(events.drop_last()) + if events.last() is Compare {
            1nat
        } else {
            0nat
        }
    }
}

/// The number of events of `events` that are swaps.
pub open spec fn count_swaps(events: Seq<SortEvent>) -> nat
    decreases events.len(),
{
    if events.len() == 0 {
        0
    } else {
        count_swaps(events.drop_last()) + if events.last() is Swap {
            1nat
        } else {
            0nat
        }
    }
}

/// The number of events of `events` that are overwrites.
pub open spec fn count_overwrites(events: Seq<SortEvent>) -> nat
    decreases events.len(),
{
    if events.len() == 0 {
        0
    } else {
        count_overwrites(events.drop_last()) + if events.last() is Overwrite {
            1nat
        } else {
            0nat
        }
    }
}

/// One more event raises the comparison count by one exactly when it is a
/// comparison.
pub broadcast proof fn lemma_count_compares_push(events: Seq<SortEvent>, e: SortEvent)
    ensures
        #[trigger] count_compares(events.push(e)) == count_compares(events) + if e is Compare {
            1nat
        } else {
            0nat
        },
{
    assert(events.push(e).drop_last() =~= events);
}

/// One more event raises the swap count by one exactly when it is a swap.
pub broadcast proof fn lemma_count_swaps_push(events: Seq<SortEvent>, e: SortEvent)
    ensures
        #[trigger] count_swaps(events.push(e)) == count_swaps(events) + if e is Swap {
            1nat
        } else {
            0nat
        },
{
    assert(events.push(e).drop_last() =~= events);
}

/// The counters that recording `events` from zero yields: one comparison per
/// `Compare`, one swap and two writes per `Swap`, one write per `Overwrite`.
pub open spec fn metrics_of(events: Seq<SortEvent>) -> Metrics {
    Metrics {
        comparisons: count_compares(events) as u64,
        swaps: count_swaps(events) as u64,
        writes: (2 * count_swaps(events) + count_overwrites(events)) as u64,
    }
}

/// Each counted kind of event is counted at most once per event.
pub proof fn lemma_counts_bounded(events: Seq<SortEvent>)
    ensures
        count_compares(events) + count_swaps(events) + count_overwrites(events) <= events.len(),
    decreases events.len(),
{
    if events.len() > 0 {
        lemma_counts_bounded(events.drop_last());
    }
}

/// Recording one more event into `metrics_of(events)` gives the metrics of the
/// longer sequence, as long as the counters stay below `u64::MAX`.
pub proof fn lemma_metrics_of_push(events: Seq<SortEvent>, e: SortEvent)
    requires
        2 * (events.len() + 1) <= u64::MAX,
    ensures
        can_record(metrics_of(events), e),
        recorded(metrics_of(events), e) == metrics_of(events.push(e)),
{
    lemma_counts_bounded(events);
    assert(events.push(e).drop_last() =~= events);
}

impl Metrics {
    pub fn new() -> (r: Self)
        ensures
            r == zero_metrics(),
    {
        Metrics { comparisons: 0, swaps: 0, writes: 0 }
    }

    /// Fold a single event into the counters.
    pub fn record(&mut self, event: &SortEvent)
        requires
            can_record(*old(self), *event),
        ensures
            *final(self) == recorded(*old(self), *event),
    {
        match event {
            SortEvent::Compare { .. } => self.comparisons = self.comparisons + 1,
            SortEvent::Swap { .. } => {
                self.swaps = self.swaps + 1;
                self.writes = self.writes + 2;
            },
            SortEvent::Overwrite { .. } => self.writes = self.writes + 1,
            _ => {},
        }
    }

    pub fn reset(&mut self)
        ensures
            *final(self) == zero_metrics(),
    {
        *self = Metrics::new();
    }
}

} // verus!
