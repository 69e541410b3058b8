//! Quick sort using the Lomuto partition scheme (last element as pivot).
//!
//! Each partition pins the pivot with `SetPivot`, compares every element
//! against it and swaps smaller ones toward the front. The pivot then sits in
//! its final position and is marked sorted; singleton sub-ranges are marked
//! sorted directly. `ClearHighlights` ends each partition.
//!
//! Ranges are inclusive `[lo, hi]`; an empty left range (pivot at `lo`) is
//! skipped without a call, which records exactly the same events as recursing
//! into an empty range would.

use vstd::prelude::*;

use super::permutation::{
    drawn_from, lemma_drawn_from_refl, lemma_drawn_from_swap, lemma_drawn_from_trans,
    lemma_swap_multiset, occurs_between,
};
use super::{every, group_recording, lemma_finished_run, Recorder, SortingAlgorithm};
use crate::simulation::array_state::{replay_values, sorted_between, swapped};
use crate::simulation::sort_event::{
    compares_of, events_in_bounds, lemma_compares_of_concat, lemma_compares_of_none,
    lemma_compares_of_one, marked_sorted, marks_are_final, marks_every_index, unfinished, SortEvent,
};

verus! {

broadcast use group_recording;

pub struct QuickSort;

/// Quick sort pins pivots, compares elements against a pivot to their right,
/// swaps a smaller element toward the front, clears highlights, marks
/// elements sorted and finishes; nothing else.
pub open spec fn quick_step(e: SortEvent) -> bool {
    match e {
        SortEvent::SetPivot { .. } => true,
        SortEvent::Compare { i, j } => i < j,
        SortEvent::Swap { i, j } => i < j,
        SortEvent::ClearHighlights => true,
        SortEvent::MarkSorted { .. } => true,
        SortEvent::AlgorithmFinished => true,
        _ => false,
    }
}

/// The Lomuto scan of positions `j..hi` against `pivot`, with `[lo, i)` the
/// elements known to be smaller: each position is compared against the pivot
/// at `hi`, and a smaller element is swapped to `i` unless it is already
/// there. Gives the events, the array left behind, and the final boundary.
pub open spec fn partition_scan(a: Seq<u32>, pivot: u32, i: int, j: int, hi: int) -> (Seq<SortEvent>, Seq<u32>, int)
    decreases hi - j,
{
    if j >= hi {
        (Seq::empty(), a, i)
    } else {
        let c = SortEvent::Compare { i: j as usize, j: hi as usize };
        if a[j] < pivot {
            if i != j {
                let rest = partition_scan(swapped(a, i, j), pivot, i + 1, j + 1, hi);
                (seq![c, SortEvent::Swap { i: i as usize, j: j as usize }] + rest.0, rest.1, rest.2)
            } else {
                let rest = partition_scan(a, pivot, i + 1, j + 1, hi);
                (seq![c] + rest.0, rest.1, rest.2)
            }
        } else {
            let rest = partition_scan(a, pivot, i, j + 1, hi);
            (seq![c] + rest.0, rest.1, rest.2)
        }
    }
}

/// One partition of `[lo, hi]`: pin the pivot at `hi`, scan, move the pivot
/// to the boundary unless it is there already, and clear the highlights.
/// Gives the events, the array left behind, and the pivot's final position.
pub open spec fn partition_run(a: Seq<u32>, lo: int, hi: int) -> (Seq<SortEvent>, Seq<u32>, int) {
    let scan = partition_scan(a, a[hi], lo, lo, hi);
    let i = scan.2;
    let start = seq![SortEvent::SetPivot { index: hi as usize }] + scan.0;
    if i != hi {
        (
            start + seq![
                SortEvent::Swap { i: i as usize, j: hi as usize },
                SortEvent::ClearHighlights,
            ],
            swapped(scan.1, i, hi),
            i,
        )
    } else {
        (start + seq![SortEvent::ClearHighlights], scan.1, i)
    }
}

/// Quick sort of the inclusive range `[lo, hi]`: nothing for an empty range,
/// `MarkSorted` for a singleton, otherwise a partition, `MarkSorted` for the
/// pivot, then the left and the right sub-ranges. Gives the events and the
/// array left behind.
pub open spec fn quick_run(a: Seq<u32>, lo: int, hi: int) -> (Seq<SortEvent>, Seq<u32>)
    decreases hi + 1 - lo,
{
    if lo > hi {
        (Seq::empty(), a)
    } else if lo == hi {
        (seq![SortEvent::MarkSorted { index: lo as usize }], a)
    } else {
        let part = partition_run(a, lo, hi);
        let p = part.2;
        if lo <= p <= hi {
            let first = part.0.push(SortEvent::MarkSorted { index: p as usize });
            let left = if p > lo {
                quick_run(part.1, lo, p - 1)
            } else {
                (Seq::empty(), part.1)
            };
            let right = quick_run(left.1, p + 1, hi);
            (first + left.0 + right.0, right.1)
        } else {
            (part.0, part.1)
        }
    }
}

/// The complete event stream quick sort records for `values`.
pub open spec fn quick_events(values: Seq<u32>) -> Seq<SortEvent> {
    if values.len() == 0 {
        seq![SortEvent::AlgorithmFinished]
    } else if values.len() == 1 {
        seq![SortEvent::MarkSorted { index: 0 }, SortEvent::AlgorithmFinished]
    } else {
        quick_run(values, 0, values.len() - 1).0.push(SortEvent::AlgorithmFinished)
    }
}

/// The comparisons `Compare { k, hi }` of every position `k` from `j` up to
/// `hi` against the pivot at `hi`, in order.
pub open spec fn against_pivot(j: int, hi: int) -> Seq<SortEvent> {
    Seq::new((hi - j) as nat, |k: int| SortEvent::Compare { i: (j + k) as usize, j: hi as usize })
}

/// A comparison followed by a swap contributes just the comparison.
proof fn lemma_compare_then_swap(c: SortEvent, w: SortEvent)
    requires
        c is Compare,
        w is Swap,
    ensures
        compares_of(seq![c, w]) == seq![c],
{
    lemma_compares_of_one(c);
    lemma_compares_of_one(w);
    lemma_compares_of_concat(seq![c], seq![w]);
    assert(seq![c] + seq![w] =~= seq![c, w]);
    assert(seq![c] + Seq::<SortEvent>::empty() =~= seq![c]);
}

/// The Lomuto scan of positions `j..hi` compares each of them against the
/// pivot at `hi` exactly once, in order, whatever it swaps.
proof fn lemma_scan_compares_against_pivot(a: Seq<u32>, pivot: u32, i: int, j: int, hi: int)
    requires
        0 <= i <= j <= hi,
        hi < a.len(),
    ensures
        compares_of(partition_scan(a, pivot, i, j, hi).0) == against_pivot(j, hi),
    decreases hi - j,
{
    let c = SortEvent::Compare { i: j as usize, j: hi as usize };
    if j >= hi {
        lemma_compares_of_none(Seq::<SortEvent>::empty());
        assert(against_pivot(j, hi) =~= Seq::<SortEvent>::empty());
    } else {
        let front;
        let rest;
        if a[j] < pivot {
            if i != j {
                lemma_scan_compares_against_pivot(swapped(a, i, j), pivot, i + 1, j + 1, hi);
                rest = partition_scan(swapped(a, i, j), pivot, i + 1, j + 1, hi).0;
                front = seq![c, SortEvent::Swap { i: i as usize, j: j as usize }];
                lemma_compare_then_swap(c, SortEvent::Swap { i: i as usize, j: j as usize });
            } else {
                lemma_scan_compares_against_pivot(a, pivot, i + 1, j + 1, hi);
                rest = partition_scan(a, pivot, i + 1, j + 1, hi).0;
                front = seq![c];
                lemma_compares_of_one(c);
            }
        } else {
            lemma_scan_compares_against_pivot(a, pivot, i, j + 1, hi);
            rest = partition_scan(a, pivot, i, j + 1, hi).0;
            front = seq![c];
            lemma_compares_of_one(c);
        }
        assert(partition_scan(a, pivot, i, j, hi).0 == front + rest);
        lemma_compares_of_concat(front, rest);
        assert(compares_of(front) == seq![c]);
        assert(seq![c] + against_pivot(j + 1, hi) =~= against_pivot(j, hi));
    }
}

/// A partition of `[lo, hi]` compares every other position of the range
/// against the pivot at `hi` exactly once, left to right: its comparisons are
/// `Compare { lo, hi }, Compare { lo + 1, hi }, ..., Compare { hi - 1, hi }`,
/// `hi - lo` of them, and no others.
pub proof fn lemma_partition_compares_each_against_pivot(a: Seq<u32>, lo: int, hi: int)
    requires
        0 <= lo <= hi < a.len(),
    ensures
        compares_of(partition_run(a, lo, hi).0) == against_pivot(lo, hi),
{
    let scan = partition_scan(a, a[hi], lo, lo, hi);
    lemma_scan_compares_against_pivot(a, a[hi], lo, lo, hi);
    let pin = seq![SortEvent::SetPivot { index: hi as usize }];
    lemma_compares_of_one(SortEvent::SetPivot { index: hi as usize });
    lemma_compares_of_concat(pin, scan.0);
    let start = pin + scan.0;
    assert(compares_of(start) =~= against_pivot(lo, hi));
    let b = scan.2;
    let clear = seq![SortEvent::ClearHighlights];
    lemma_compares_of_one(SortEvent::ClearHighlights);
    if b != hi {
        let w = SortEvent::Swap { i: b as usize, j: hi as usize };
        let end = seq![w, SortEvent::ClearHighlights];
        lemma_compares_of_one(w);
        lemma_compares_of_concat(seq![w], clear);
        assert(seq![w] + clear =~= end);
        lemma_compares_of_concat(start, end);
        assert(compares_of(end) =~= Seq::<SortEvent>::empty());
        assert(compares_of(start) + compares_of(end) =~= compares_of(start));
    } else {
        lemma_compares_of_concat(start, clear);
        assert(compares_of(start) + compares_of(clear) =~= compares_of(start));
    }
}

impl SortingAlgorithm for QuickSort {
    fn name(&self) -> (r: &'static str)
        ensures
            r@ == "Quick Sort"@,
    {
        "Quick Sort"
    }

    fn generate_events(&self, values: &[u32]) -> (events: Vec<SortEvent>)
        ensures
            every(events@, |e: SortEvent| quick_step(e)),
            events@ == quick_events(values@),
    {
        let mut a = vstd::slice::slice_to_vec(values);
        let n = a.len();
        let mut rec = Recorder::with_capacity_for(n);
        let ghost input = values@;

        if n <= 1 {
            if n == 1 {
                rec.mark_sorted(0);
            }
            let ghost recorded = rec@;
            let events = rec.finish();
            proof {
                lemma_finished_run(input, recorded, a@);
                assert(events@ =~= quick_events(values@));
            }
            return events;
        }

        quicksort(&mut a, 0, n - 1, &mut rec);
        let ghost recorded = rec@;
        let events = rec.finish();
        proof {
            lemma_finished_run(input, recorded, a@);
            assert(recorded =~= quick_run(input, 0, n - 1).0);
            assert(events@ =~= quick_events(values@));
        }
        events
    }
}

/// Recursively sort the inclusive range `[lo, hi]`, recording events.
///
/// Values outside the range are untouched, the range ends up sorted and holds
/// only values it held before, the whole array keeps its multiset, and the
/// recorded events replay whatever the array was before the call into what it
/// is after.
#[verifier::rlimit(60)]
#[verifier::spinoff_prover]
fn quicksort(a: &mut [u32], lo: usize, hi: usize, rec: &mut Recorder)
    requires
        lo <= hi + 1,
        hi < old(a)@.len(),
        events_in_bounds(old(rec)@, old(a)@.len()),
        marks_are_final(old(rec)@),
        unfinished(old(rec)@),
        forall|k: usize| marked_sorted(old(rec)@, k) ==> !(lo <= k <= hi),
        every(old(rec)@, |e: SortEvent| quick_step(e)),
    ensures
        marks_are_final(final(rec)@),
        unfinished(final(rec)@),
        forall|k: usize| marked_sorted(final(rec)@, k) ==> marked_sorted(old(rec)@, k) || lo <= k <= hi,
        forall|k: usize| marked_sorted(old(rec)@, k) ==> marked_sorted(final(rec)@, k),
        forall|k: usize| lo <= k <= hi ==> marked_sorted(final(rec)@, k),
        every(final(rec)@, |e: SortEvent| quick_step(e)),
        final(a)@.len() == old(a)@.len(),
        forall|k: int| 0 <= k < final(a)@.len() && !(lo <= k <= hi) ==> #[trigger] final(a)@[k] == old(a)@[k],
        final(a)@.to_multiset() == old(a)@.to_multiset(),
        drawn_from(final(a)@, old(a)@, lo as int, hi + 1),
        sorted_between(final(a)@, lo as int, hi + 1),
        events_in_bounds(final(rec)@, old(a)@.len()),
        forall|g: Seq<u32>| replay_values(g, old(rec)@) == old(a)@ ==> #[trigger] replay_values(g, final(rec)@) == final(a)@,
        final(rec)@ == old(rec)@ + quick_run(old(a)@, lo as int, hi as int).0,
        final(a)@ == quick_run(old(a)@, lo as int, hi as int).1,
    decreases hi + 1 - lo,
{
    if lo > hi {
        proof {
            lemma_drawn_from_refl(a@, lo as int, hi + 1);
            assert(rec@ =~= rec@ + Seq::<SortEvent>::empty());
        }
        return;
    }
    if lo == hi {
        rec.mark_sorted(lo);
        proof {
            lemma_drawn_from_refl(a@, lo as int, hi + 1);
            assert(rec@ =~= old(rec)@ + quick_run(old(a)@, lo as int, hi as int).0);
        }
        return;
    }

    let n = a.len();
    let ghost a0 = a@;
    let ghost r0 = rec@;
    let pivot_pos = partition(a, lo, hi, rec);
    rec.mark_sorted(pivot_pos);
    let ghost a1 = a@;
    let ghost r1 = rec@;
    let ghost pv = a1[pivot_pos as int];

    if pivot_pos > lo {
        quicksort(a, lo, pivot_pos - 1, rec);
    }
    let ghost a2 = a@;
    let ghost r2 = rec@;
    assert(forall|k: int| lo <= k < pivot_pos ==> occurs_between(a1, lo as int, pivot_pos as int, #[trigger] a2[k]));
    assert(forall|k: int| lo <= k < pivot_pos ==> #[trigger] a2[k] < pv) by {
        assert forall|k: int| lo <= k < pivot_pos implies #[trigger] a2[k] < pv by {
            assert(occurs_between(a1, lo as int, pivot_pos as int, a2[k]));
            let m = choose|m: int| lo <= m < pivot_pos && a1[m] == a2[k];
            assert(a1[m] < pv);
        }
    }
    assert(forall|g: Seq<u32>| replay_values(g, r0) == a0 ==> #[trigger] replay_values(g, r2) == a2) by {
        assert forall|g: Seq<u32>| replay_values(g, r0) == a0 implies #[trigger] replay_values(g, r2) == a2 by {
            assert(replay_values(g, r1) == a1);
            if pivot_pos <= lo {
                assert(r2 == r1);
            }
        }
    }

    assert(pivot_pos < n);
    proof {
        let part = partition_run(a0, lo as int, hi as int);
        let left = if pivot_pos > lo {
            quick_run(part.1, lo as int, pivot_pos - 1)
        } else {
            (Seq::<SortEvent>::empty(), part.1)
        };
        assert(r2 =~= r0 + part.0.push(SortEvent::MarkSorted { index: pivot_pos }) + left.0);
        assert(a2 == left.1);
    }
    quicksort(a, pivot_pos + 1, hi, rec);
    let ghost a3 = a@;
    proof {
        let part = partition_run(a0, lo as int, hi as int);
        let left = if pivot_pos > lo {
            quick_run(part.1, lo as int, pivot_pos - 1)
        } else {
            (Seq::<SortEvent>::empty(), part.1)
        };
        let right = quick_run(left.1, pivot_pos + 1, hi as int);
        assert(rec@ =~= r0 + (part.0.push(SortEvent::MarkSorted { index: pivot_pos }) + left.0 + right.0));
    }
    assert(forall|k: int| pivot_pos < k <= hi ==> #[trigger] a3[k] >= pv) by {
        assert forall|k: int| pivot_pos < k <= hi implies #[trigger] a3[k] >= pv by {
            assert(occurs_between(a2, pivot_pos + 1, hi + 1, a3[k]));
            let m = choose|m: int| pivot_pos + 1 <= m < hi + 1 && a2[m] == a3[k];
            assert(a2[m] == a1[m]);
        }
    }
    assert(a3[pivot_pos as int] == pv);
    assert(sorted_between(a3, lo as int, hi + 1)) by {
        assert forall|p: int, q: int| lo <= p < q < hi + 1 implies #[trigger] a3[p] <= #[trigger] a3[q] by {
            if q < pivot_pos {
                assert(a3[p] == a2[p] && a3[q] == a2[q]);
            } else if p > pivot_pos {
            } else if p < pivot_pos {
                assert(a3[p] == a2[p]);
            }
        }
    }
    assert(drawn_from(a3, a1, lo as int, hi + 1)) by {
        assert forall|k: int| lo <= k < hi + 1 implies occurs_between(a1, lo as int, hi + 1, #[trigger] a3[k]) by {
            if k < pivot_pos {
                assert(a3[k] == a2[k]);
                assert(occurs_between(a1, lo as int, pivot_pos as int, a2[k]));
                let m = choose|m: int| lo <= m < pivot_pos && a1[m] == a2[k];
                assert(lo <= m < hi + 1 && a1[m] == a3[k]);
            } else if k == pivot_pos {
                assert(a1[k] == a3[k]);
            } else {
                assert(occurs_between(a2, pivot_pos + 1, hi + 1, a3[k]));
                let m = choose|m: int| pivot_pos + 1 <= m < hi + 1 && a2[m] == a3[k];
                assert(a2[m] == a1[m]);
                assert(lo <= m < hi + 1 && a1[m] == a3[k]);
            }
        }
    }
    proof {
        lemma_drawn_from_trans(a3, a1, a0, lo as int, hi + 1);
    }
}

/// Lomuto partition over `[lo, hi]`, returning the pivot's final index.
///
/// Afterwards everything left of the pivot is smaller than it and everything
/// right of it (up to `hi`) is at least as large.
fn partition(a: &mut [u32], lo: usize, hi: usize, rec: &mut Recorder) -> (p: usize)
    requires
        lo < hi < old(a)@.len(),
        events_in_bounds(old(rec)@, old(a)@.len()),
        marks_are_final(old(rec)@),
        unfinished(old(rec)@),
        forall|k: usize| marked_sorted(old(rec)@, k) ==> !(lo <= k <= hi),
        every(old(rec)@, |e: SortEvent| quick_step(e)),
    ensures
        marks_are_final(final(rec)@),
        unfinished(final(rec)@),
        forall|k: usize| marked_sorted(final(rec)@, k) <==> marked_sorted(old(rec)@, k),
        every(final(rec)@, |e: SortEvent| quick_step(e)),
        lo <= p <= hi,
        final(a)@.len() == old(a)@.len(),
        forall|k: int| lo <= k < p ==> #[trigger] final(a)@[k] < final(a)@[p as int],
        forall|k: int| p < k <= hi ==> #[trigger] final(a)@[k] >= final(a)@[p as int],
        forall|k: int| 0 <= k < final(a)@.len() && !(lo <= k <= hi) ==> #[trigger] final(a)@[k] == old(a)@[k],
        final(a)@.to_multiset() == old(a)@.to_multiset(),
        drawn_from(final(a)@, old(a)@, lo as int, hi + 1),
        events_in_bounds(final(rec)@, old(a)@.len()),
        forall|g: Seq<u32>| replay_values(g, old(rec)@) == old(a)@ ==> #[trigger] replay_values(g, final(rec)@) == final(a)@,
        final(a)@[p as int] == old(a)@[hi as int],
        final(rec)@ == old(rec)@ + partition_run(old(a)@, lo as int, hi as int).0,
        final(a)@ == partition_run(old(a)@, lo as int, hi as int).1,
        p as int == partition_run(old(a)@, lo as int, hi as int).2,
{
    let ghost a0 = a@;
    let ghost r0 = rec@;
    let n = a.len();
    let pivot_index = hi;
    rec.set_pivot(pivot_index);
    let pivot = a[pivot_index];
    let ghost r_start = rec@;
    let ghost scan = partition_scan(a0, pivot, lo as int, lo as int, hi as int);
    proof {
        lemma_drawn_from_refl(a@, lo as int, hi + 1);
        assert(rec@ + scan.0 =~= r_start + scan.0);
    }

    let mut i = lo;
    let mut j = lo;
    while j < hi
        invariant
            n == a@.len() == a0.len(),
            lo <= i <= j <= hi < n,
            pivot_index == hi,
            a@[hi as int] == pivot,
            forall|k: int| lo <= k < i ==> #[trigger] a@[k] < pivot,
            forall|k: int| i <= k < j ==> #[trigger] a@[k] >= pivot,
            forall|k: int| 0 <= k < n && !(lo <= k <= hi) ==> #[trigger] a@[k] == a0[k],
            a@.to_multiset() == a0.to_multiset(),
            drawn_from(a@, a0, lo as int, hi + 1),
            events_in_bounds(rec@, n as nat),
            marks_are_final(rec@),
            unfinished(rec@),
            forall|k: usize| marked_sorted(rec@, k) <==> marked_sorted(r0, k),
            forall|k: usize| marked_sorted(r0, k) ==> !(lo <= k <= hi),
            every(rec@, |e: SortEvent| quick_step(e)),
            forall|g: Seq<u32>| replay_values(g, r0) == a0 ==> #[trigger] replay_values(g, rec@) == a@,
            scan == partition_scan(a0, pivot, lo as int, lo as int, hi as int),
            rec@ + partition_scan(a@, pivot, i as int, j as int, hi as int).0 == r_start + scan.0,
            partition_scan(a@, pivot, i as int, j as int, hi as int).1 == scan.1,
            partition_scan(a@, pivot, i as int, j as int, hi as int).2 == scan.2,
        decreases hi - j,
    {
        let ghost r_before = rec@;
        let ghost a_before = a@;
        let ghost i_before = i as int;
        let ghost j_before = j as int;
        rec.compare(j, pivot_index);
        if a[j] < pivot {
            if i != j {
                proof {
                    lemma_swap_multiset(a@, i as int, j as int);
                    lemma_drawn_from_swap(a@, a0, lo as int, hi + 1, i as int, j as int);
                    assert forall|k: usize| marked_sorted(rec@, k) implies !(SortEvent::Swap {
                        i,
                        j,
                    }).writes(k) by {
                        assert(marked_sorted(r0, k));
                    }
                }
                rec.swap(a, i, j);
            }
            i += 1;
        }
        j += 1;
        assert(rec@ + partition_scan(a@, pivot, i as int, j as int, hi as int).0 =~= r_before
            + partition_scan(a_before, pivot, i_before, j_before, hi as int).0);
    }
    assert(rec@ =~= r_start + scan.0);

    if i != pivot_index {
        proof {
            lemma_swap_multiset(a@, i as int, pivot_index as int);
            lemma_drawn_from_swap(a@, a0, lo as int, hi + 1, i as int, pivot_index as int);
            assert forall|k: usize| marked_sorted(rec@, k) implies !(SortEvent::Swap {
                i,
                j: pivot_index,
            }).writes(k) by {
                assert(marked_sorted(r0, k));
            }
        }
        rec.swap(a, i, pivot_index);
    }
    rec.clear_highlights();
    assert(rec@ =~= old(rec)@ + partition_run(a0, lo as int, hi as int).0);
    i
}

} // verus!
