//! Selection sort: repeatedly find the minimum of the unsorted region and
//! place it at the front.
//!
//! The running minimum is highlighted with `SetPivot` and moves as a smaller
//! candidate is found; each scan step emits a `Compare` of the candidate
//! against the current minimum; the minimum is swapped into position `i`
//! (skipped when already there) and index `i` is marked sorted.

use vstd::prelude::*;

use super::bubble_sort::split_at;
use super::permutation::lemma_swap_multiset;
use super::{every, group_recording, lemma_finished_run, Recorder, SortingAlgorithm};
use crate::simulation::array_state::{
    lemma_replay_concat, lemma_replay_inert, lemma_strict_descents_concat, replay_values,
    sorted_between, swapped, swaps_are_strict_descents,
};
use crate::simulation::metrics::{count_compares, count_swaps, lemma_count_swaps_push};
use crate::simulation::sort_event::{
    events_in_bounds, lemma_marks_increasing_push, marked_sorted, marks_are_final, marks_every_index,
    marks_increasing, unfinished, SortEvent,
};

verus! {

broadcast use {group_recording, lemma_count_swaps_push, lemma_marks_increasing_push};

pub struct SelectionSort;

/// Selection sort highlights the running minimum, compares each candidate
/// against an earlier minimum, swaps the minimum forward into its slot,
/// clears highlights, marks elements sorted and finishes; nothing else.
pub open spec fn selection_step(e: SortEvent) -> bool {
    match e {
        SortEvent::SetPivot { .. } => true,
        SortEvent::Compare { i, j } => j < i,
        SortEvent::Swap { i, j } => i < j,
        SortEvent::ClearHighlights => true,
        SortEvent::MarkSorted { .. } => true,
        SortEvent::AlgorithmFinished => true,
        _ => false,
    }
}

/// The scan for the minimum of positions `j..n`, with `min` the position of
/// the current minimum: the events it records and the position it settles on.
pub open spec fn selection_scan(a: Seq<u32>, min: int, j: int, n: int) -> (Seq<SortEvent>, int)
    decreases n - j,
{
    if j >= n {
        (Seq::empty(), min)
    } else {
        let c = SortEvent::Compare { i: j as usize, j: min as usize };
        if a[j] < a[min] {
            let rest = selection_scan(a, j, j + 1, n);
            (seq![c, SortEvent::SetPivot { index: j as usize }] + rest.0, rest.1)
        } else {
            let rest = selection_scan(a, min, j + 1, n);
            (seq![c] + rest.0, rest.1)
        }
    }
}

/// The events of the rounds `i, i + 1, ..., n - 1` over an array that holds
/// `a` when round `i` starts: pin `i` as the running minimum, scan, swap the
/// minimum into `i` unless it is already there, clear the highlight, and mark
/// `i` sorted.
pub open spec fn selection_rounds(a: Seq<u32>, i: int, n: int) -> Seq<SortEvent>
    decreases n - i,
{
    if i >= n {
        Seq::empty()
    } else {
        let scan = selection_scan(a, i, i + 1, n);
        let m = scan.1;
        let head = seq![SortEvent::SetPivot { index: i as usize }] + scan.0;
        let tail = seq![SortEvent::ClearHighlights, SortEvent::MarkSorted { index: i as usize }];
        if m != i {
            head + seq![SortEvent::Swap { i: i as usize, j: m as usize }] + tail + selection_rounds(
                swapped(a, i, m),
                i + 1,
                n,
            )
        } else {
            head + tail + selection_rounds(a, i + 1, n)
        }
    }
}

/// The complete event stream selection sort records for `values`.
pub open spec fn selection_events(values: Seq<u32>) -> Seq<SortEvent> {
    selection_rounds(values, 0, values.len() as int).push(SortEvent::AlgorithmFinished)
}

/// Counting comparisons adds up over joined streams.
proof fn lemma_count_compares_concat(x: Seq<SortEvent>, y: Seq<SortEvent>)
    ensures
        count_compares(x + y) == count_compares(x) + count_compares(y),
    decreases y.len(),
{
    if y.len() == 0 {
        assert(x + y =~= x);
    } else {
        lemma_count_compares_concat(x, y.drop_last());
        assert((x + y).drop_last() =~= x + y.drop_last());
        assert((x + y).last() == y.last());
    }
}

/// The scan settles on a position between the current minimum and the end.
proof fn lemma_scan_in_range(a: Seq<u32>, min: int, j: int, n: int)
    requires
        0 <= min < j,
        min < n,
    ensures
        min <= selection_scan(a, min, j, n).1 < n,
    decreases n - j,
{
    if j < n {
        if a[j] < a[min] {
            lemma_scan_in_range(a, j, j + 1, n);
        } else {
            lemma_scan_in_range(a, min, j + 1, n);
        }
    }
}

/// The scan of positions `j..n` compares each of them once.
proof fn lemma_scan_compares(a: Seq<u32>, min: int, j: int, n: int)
    requires
        j <= n,
    ensures
        count_compares(selection_scan(a, min, j, n).0) == n - j,
    decreases n - j,
{
    reveal_with_fuel(count_compares, 3);
    if j < n {
        let c = SortEvent::Compare { i: j as usize, j: min as usize };
        if a[j] < a[min] {
            lemma_scan_compares(a, j, j + 1, n);
            let head = seq![c, SortEvent::SetPivot { index: j as usize }];
            assert(head.drop_last() =~= seq![c]);
            assert(seq![c].drop_last() =~= Seq::<SortEvent>::empty());
            lemma_count_compares_concat(head, selection_scan(a, j, j + 1, n).0);
        } else {
            lemma_scan_compares(a, min, j + 1, n);
            assert(seq![c].drop_last() =~= Seq::<SortEvent>::empty());
            lemma_count_compares_concat(seq![c], selection_scan(a, min, j + 1, n).0);
        }
    }
}

/// Rounds `i..n` compare every pair of positions from `i` on exactly once.
proof fn lemma_rounds_compares(a: Seq<u32>, i: int, n: int)
    requires
        0 <= i <= n,
        a.len() == n,
    ensures
        count_compares(selection_rounds(a, i, n)) == (n - i) * (n - i - 1) / 2,
    decreases n - i,
{
    reveal_with_fuel(count_compares, 3);
    if i < n {
        let scan = selection_scan(a, i, i + 1, n);
        let m = scan.1;
        lemma_scan_compares(a, i, i + 1, n);
        lemma_scan_in_range(a, i, i + 1, n);
        let pin = seq![SortEvent::SetPivot { index: i as usize }];
        assert(pin.drop_last() =~= Seq::<SortEvent>::empty());
        lemma_count_compares_concat(pin, scan.0);
        let head = pin + scan.0;
        let tail = seq![SortEvent::ClearHighlights, SortEvent::MarkSorted { index: i as usize }];
        assert(tail.drop_last() =~= seq![SortEvent::ClearHighlights]);
        assert(seq![SortEvent::ClearHighlights].drop_last() =~= Seq::<SortEvent>::empty());
        assert((n - i) * (n - i - 1) / 2 == (n - i - 1) + (n - (i + 1)) * (n - (i + 1) - 1) / 2)
            by (nonlinear_arith)
            requires
                i < n,
        ;
        if m != i {
            let sw = seq![SortEvent::Swap { i: i as usize, j: m as usize }];
            assert(sw.drop_last() =~= Seq::<SortEvent>::empty());
            let next = swapped(a, i, m);
            lemma_rounds_compares(next, i + 1, n);
            lemma_count_compares_concat(head, sw);
            lemma_count_compares_concat(head + sw, tail);
            lemma_count_compares_concat(head + sw + tail, selection_rounds(next, i + 1, n));
            assert(count_compares(head) == n - i - 1);
            assert(count_compares(tail) == 0);
        } else {
            lemma_rounds_compares(a, i + 1, n);
            lemma_count_compares_concat(head, tail);
            lemma_count_compares_concat(head + tail, selection_rounds(a, i + 1, n));
            assert(count_compares(head) == n - i - 1);
            assert(count_compares(tail) == 0);
        }
        assert(count_compares(selection_rounds(a, i, n)) == (n - i - 1) + (n - (i + 1)) * (n - (i + 1) - 1) / 2);
    } else {
        assert((n - i) * (n - i - 1) == 0) by (nonlinear_arith)
            requires
                i == n,
        ;
    }
}

/// Selection sort compares every pair of positions exactly once:
/// `n * (n - 1) / 2` comparisons for `n` values.
proof fn lemma_selection_compares(values: Seq<u32>)
    ensures
        count_compares(selection_events(values)) == values.len() * (values.len() - 1) / 2,
{
    let n = values.len() as int;
    let body = selection_rounds(values, 0, n);
    lemma_rounds_compares(values, 0, n);
    let fin = seq![SortEvent::AlgorithmFinished];
    reveal_with_fuel(count_compares, 2);
    assert(fin.drop_last() =~= Seq::<SortEvent>::empty());
    lemma_count_compares_concat(body, fin);
    assert(body.push(SortEvent::AlgorithmFinished) =~= body + fin);
}

/// The scan only moves the running minimum to a strictly smaller value.
proof fn lemma_scan_strictly_smaller(a: Seq<u32>, min: int, j: int, n: int)
    requires
        0 <= min < j,
        n <= a.len(),
        min < n,
    ensures
        selection_scan(a, min, j, n).1 == min || a[selection_scan(a, min, j, n).1] < a[min],
    decreases n - j,
{
    if j < n {
        if a[j] < a[min] {
            lemma_scan_strictly_smaller(a, j, j + 1, n);
        } else {
            lemma_scan_strictly_smaller(a, min, j + 1, n);
        }
    }
}

/// The scan only compares and moves the pivot highlight; it never moves a
/// value.
proof fn lemma_scan_inert(a: Seq<u32>, min: int, j: int, n: int)
    ensures
        forall|t: int|
            0 <= t < selection_scan(a, min, j, n).0.len() ==> !(#[trigger] selection_scan(
                a,
                min,
                j,
                n,
            ).0[t] is Swap) && !(selection_scan(a, min, j, n).0[t] is Overwrite),
    decreases n - j,
{
    if j < n {
        let c = SortEvent::Compare { i: j as usize, j: min as usize };
        if a[j] < a[min] {
            lemma_scan_inert(a, j, j + 1, n);
            let rest = selection_scan(a, j, j + 1, n).0;
            let whole = seq![c, SortEvent::SetPivot { index: j as usize }] + rest;
            assert forall|t: int| 0 <= t < whole.len() implies !(#[trigger] whole[t] is Swap) && !(
            whole[t] is Overwrite) by {
                if t >= 2 {
                    assert(whole[t] == rest[t - 2]);
                }
            }
        } else {
            lemma_scan_inert(a, min, j + 1, n);
            let rest = selection_scan(a, min, j + 1, n).0;
            let whole = seq![c] + rest;
            assert forall|t: int| 0 <= t < whole.len() implies !(#[trigger] whole[t] is Swap) && !(
            whole[t] is Overwrite) by {
                if t >= 1 {
                    assert(whole[t] == rest[t - 1]);
                }
            }
        }
    }
}

/// A stream that never swaps has only strict-descent swaps.
proof fn lemma_swapless_strict(values: Seq<u32>, x: Seq<SortEvent>)
    requires
        forall|t: int| 0 <= t < x.len() ==> !(#[trigger] x[t] is Swap),
    ensures
        swaps_are_strict_descents(values, x),
{
}

/// Every round from `i` on swaps only a strictly smaller minimum into place.
proof fn lemma_rounds_strict(a: Seq<u32>, i: int, n: int)
    requires
        0 <= i <= n,
        a.len() == n,
        n <= usize::MAX,
    ensures
        swaps_are_strict_descents(a, selection_rounds(a, i, n)),
    decreases n - i,
{
    if i < n {
        let scan = selection_scan(a, i, i + 1, n);
        let m = scan.1;
        lemma_scan_strictly_smaller(a, i, i + 1, n);
        lemma_scan_in_range(a, i, i + 1, n);
        lemma_scan_inert(a, i, i + 1, n);
        let head = seq![SortEvent::SetPivot { index: i as usize }] + scan.0;
        assert forall|t: int| 0 <= t < head.len() implies !(#[trigger] head[t] is Swap) && !(
        head[t] is Overwrite) by {
            if t >= 1 {
                assert(head[t] == scan.0[t - 1]);
            }
        }
        lemma_replay_inert(a, head);
        lemma_swapless_strict(a, head);
        let tail = seq![SortEvent::ClearHighlights, SortEvent::MarkSorted { index: i as usize }];
        lemma_replay_inert(a, tail);
        if m != i {
            let next = swapped(a, i, m);
            let sw = seq![SortEvent::Swap { i: i as usize, j: m as usize }];
            assert(sw.take(0) =~= Seq::<SortEvent>::empty());
            assert(i as usize as int == i && m as usize as int == m);
            assert(swaps_are_strict_descents(a, sw));
            lemma_strict_descents_concat(a, head, sw);
            lemma_replay_concat(a, head, sw);
            assert(replay_values(a, sw) == next) by {
                assert(sw.drop_last() =~= Seq::<SortEvent>::empty());
            }
            lemma_replay_inert(next, tail);
            lemma_swapless_strict(next, tail);
            lemma_strict_descents_concat(a, head + sw, tail);
            lemma_replay_concat(a, head + sw, tail);
            lemma_rounds_strict(next, i + 1, n);
            lemma_strict_descents_concat(a, head + sw + tail, selection_rounds(next, i + 1, n));
        } else {
            lemma_swapless_strict(a, tail);
            lemma_strict_descents_concat(a, head, tail);
            lemma_replay_concat(a, head, tail);
            lemma_rounds_strict(a, i + 1, n);
            lemma_strict_descents_concat(a, head + tail, selection_rounds(a, i + 1, n));
        }
    }
}

/// Selection sort moves a value only to put a strictly smaller minimum into
/// place: every swap it records, replayed from the input, exchanges a larger
/// value at the front with a strictly smaller one behind it. In particular
/// equal values are never swapped.
pub proof fn lemma_selection_swaps_strictly_smaller(values: Seq<u32>)
    requires
        values.len() <= usize::MAX,
    ensures
        swaps_are_strict_descents(values, selection_events(values)),
{
    let body = selection_rounds(values, 0, values.len() as int);
    lemma_rounds_strict(values, 0, values.len() as int);
    let fin = seq![SortEvent::AlgorithmFinished];
    lemma_swapless_strict(replay_values(values, body), fin);
    lemma_strict_descents_concat(values, body, fin);
    assert(body.push(SortEvent::AlgorithmFinished) =~= body + fin);
}

impl SortingAlgorithm for SelectionSort {
    fn name(&self) -> (r: &'static str)
        ensures
            r@ == "Selection Sort"@,
    {
        "Selection Sort"
    }

    fn generate_events(&self, values: &[u32]) -> (events: Vec<SortEvent>)
        ensures
            every(events@, |e: SortEvent| selection_step(e)),
            count_compares(events@) == values@.len() * (values@.len() - 1) / 2,
            marks_increasing(events@),
            swaps_are_strict_descents(values@, events@),
            count_swaps(events@) <= if values@.len() == 0 {
                0
            } else {
                values@.len() - 1
            },
            events@ == selection_events(values@),
    {
        let mut a = vstd::slice::slice_to_vec(values);
        let n = a.len();
        let mut rec = Recorder::with_capacity_for(n);
        let ghost input = values@;

        let ghost total = selection_rounds(input, 0, n as int);
        assert(rec@ + total =~= total);
        let mut i: usize = 0;
        while i < n
            invariant
                n == a@.len() == input.len(),
                i <= n,
                replay_values(input, rec@) == a@,
                events_in_bounds(rec@, n as nat),
                marks_are_final(rec@),
                unfinished(rec@),
                forall|k: usize| marked_sorted(rec@, k) ==> k < i,
                forall|k: usize| k < i ==> marked_sorted(rec@, k),
                count_swaps(rec@) <= i,
                marks_increasing(rec@),
                count_swaps(rec@) == 0 || count_swaps(rec@) + 1 <= n,
                every(rec@, |e: SortEvent| selection_step(e)),
                a@.to_multiset() == input.to_multiset(),
                sorted_between(a@, 0, i as int),
                split_at(a@, i as int),
                rec@ + selection_rounds(a@, i as int, n as int) == total,
            decreases n - i,
        {
            let ghost a_round = a@;
            let ghost r_round = rec@;
            let ghost scan = selection_scan(a_round, i as int, i + 1, n as int);
            let mut min = i;
            rec.set_pivot(min);
            let ghost head_start = rec@;
            assert(rec@ + selection_scan(a@, min as int, i + 1, n as int).0 =~= head_start + scan.0);

            let mut j = i + 1;
            while j < n
                invariant
                    n == a@.len() == input.len(),
                    i < n,
                    i < j <= n,
                    i <= min < n,
                    replay_values(input, rec@) == a@,
                    events_in_bounds(rec@, n as nat),
                    marks_are_final(rec@),
                    unfinished(rec@),
                    forall|k: usize| marked_sorted(rec@, k) ==> k < i,
                    forall|k: usize| k < i ==> marked_sorted(rec@, k),
                    count_swaps(rec@) <= i,
                    marks_increasing(rec@),
                    count_swaps(rec@) == 0 || count_swaps(rec@) + 1 <= n,
                    every(rec@, |e: SortEvent| selection_step(e)),
                    min < j,
                    forall|k: int| i <= k < j ==> a@[min as int] <= #[trigger] a@[k],
                    a@ == a_round,
                    scan == selection_scan(a_round, i as int, i + 1, n as int),
                    rec@ + selection_scan(a@, min as int, j as int, n as int).0 == head_start + scan.0,
                    selection_scan(a@, min as int, j as int, n as int).1 == scan.1,
                decreases n - j,
            {
                let ghost r_before = rec@;
                let ghost min_before = min as int;
                rec.compare(j, min);
                if a[j] < a[min] {
                    min = j;
                    rec.set_pivot(min);
                }
                proof {
                    let rest = selection_scan(a@, min as int, j + 1, n as int);
                    assert(rec@ + rest.0 =~= r_before + selection_scan(a@, min_before, j as int, n as int).0);
                }
                j += 1;
            }
            assert(rec@ =~= head_start + scan.0);
            assert(min == scan.1);

            let ghost before = a@;
            if min != i {
                proof {
                    lemma_swap_multiset(a@, i as int, min as int);
                }
                rec.swap(&mut a, i, min);
            }
            assert(a@ == swapped(before, i as int, min as int)) by {
                if min == i {
                    assert(swapped(before, i as int, min as int) =~= before);
                }
            }
            assert(sorted_between(a@, 0, i + 1)) by {
                assert forall|p: int, q: int| 0 <= p < q < i + 1 implies #[trigger] a@[p]
                    <= #[trigger] a@[q] by {
                    if q == i {
                        assert(before[p] <= before[min as int]);
                    }
                }
            }
            assert(split_at(a@, i + 1)) by {
                assert forall|x: int, y: int| 0 <= x < i + 1 <= y < n implies #[trigger] a@[x]
                    <= #[trigger] a@[y] by {
                    if y == min {
                        assert(a@[y] == before[i as int]);
                    } else {
                        assert(a@[y] == before[y]);
                    }
                    if x == i {
                        assert(a@[x] == before[min as int]);
                    }
                }
            }

            rec.clear_highlights();
            rec.mark_sorted(i);
            assert(rec@ + selection_rounds(a@, i + 1, n as int) =~= r_round + selection_rounds(
                a_round,
                i as int,
                n as int,
            ));
            i += 1;
        }

        let ghost recorded = rec@;
        let events = rec.finish();
        proof {
            lemma_finished_run(input, recorded, a@);
            lemma_selection_compares(input);
            lemma_selection_swaps_strictly_smaller(input);
            assert(recorded =~= total);
            assert(events@ =~= selection_events(values@));
        }
        events
    }
}

} // verus!
