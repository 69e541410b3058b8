//! Insertion sort: grow a sorted prefix by inserting each element into place.
//!
//! This is the *shift* formulation: `key = a[i]` is saved, each larger left
//! neighbor is shifted one slot right with an `Overwrite`, and `key` is
//! finally written into the hole with one more `Overwrite`. Every element is
//! marked sorted only once the whole array is ordered.

use vstd::prelude::*;

use super::permutation::lemma_swap_multiset;
use super::bubble_sort::marks_upto;
use super::{every, group_recording, lemma_finished_run, Recorder, SortingAlgorithm};
use crate::simulation::array_state::{is_sorted_seq, replay_values, sorted_between, swapped};
use crate::simulation::sort_event::{
    compares_of, events_in_bounds, lemma_compares_of_concat, lemma_compares_of_none,
    lemma_compares_of_one, marked_sorted, marks_are_final, marks_every_index, unfinished, SortEvent,
};

verus! {

broadcast use group_recording;

pub struct InsertionSort;

/// Insertion sort compares neighbors, shifts with overwrites, clears
/// highlights, marks elements sorted and finishes; nothing else.
pub open spec fn insertion_step(e: SortEvent) -> bool {
    match e {
        SortEvent::Compare { i, j } => j == i + 1,
        SortEvent::Overwrite { .. } => true,
        SortEvent::ClearHighlights => true,
        SortEvent::MarkSorted { .. } => true,
        SortEvent::AlgorithmFinished => true,
        _ => false,
    }
}

/// The `n` events before the final one mark indices `0..n` sorted, in order,
/// and no earlier event marks anything sorted.
pub open spec fn marks_all_at_end(events: Seq<SortEvent>, n: nat) -> bool {
    let m = events.len() - 1 - n;
    &&& events.len() >= n + 1
    &&& forall|t: int| 0 <= t < m ==> !((#[trigger] events[t]) is MarkSorted)
    &&& forall|k: int|
        0 <= k < n ==> #[trigger] events[m + k] == SortEvent::MarkSorted { index: k as usize }
}

/// Walking the hole at `j` left with the saved `key`: each step compares the
/// two neighbors `(j - 1, j)` and, while the left one is larger than `key`,
/// shifts it right with an `Overwrite`. Gives the events, the array left
/// behind, and where the hole stopped.
pub open spec fn insertion_shift(a: Seq<u32>, key: u32, j: int) -> (Seq<SortEvent>, Seq<u32>, int)
    decreases j,
{
    if j <= 0 {
        (Seq::empty(), a, j)
    } else {
        let c = SortEvent::Compare { i: (j - 1) as usize, j: j as usize };
        if a[j - 1] > key {
            let rest = insertion_shift(a.update(j, a[j - 1]), key, j - 1);
            (
                seq![c, SortEvent::Overwrite { index: j as usize, value: a[j - 1] }] + rest.0,
                rest.1,
                rest.2,
            )
        } else {
            (seq![c], a, j)
        }
    }
}

/// The events of inserting positions `i, i + 1, ..., n - 1` into the sorted
/// prefix of an array that holds `a` when position `i` is taken: shift, write
/// the key into the hole only if it moved, clear highlights; then mark every
/// index sorted.
pub open spec fn insertion_rounds(a: Seq<u32>, i: int, n: int) -> Seq<SortEvent>
    decreases n - i,
{
    if i >= n {
        marks_upto(n as nat)
    } else {
        let key = a[i];
        let shift = insertion_shift(a, key, i);
        let j = shift.2;
        if j != i {
            shift.0.push(SortEvent::Overwrite { index: j as usize, value: key }).push(
                SortEvent::ClearHighlights,
            ) + insertion_rounds(shift.1.update(j, key), i + 1, n)
        } else {
            shift.0.push(SortEvent::ClearHighlights) + insertion_rounds(shift.1, i + 1, n)
        }
    }
}

/// The complete event stream insertion sort records for `values`.
pub open spec fn insertion_events(values: Seq<u32>) -> Seq<SortEvent> {
    if values.len() == 0 {
        seq![SortEvent::AlgorithmFinished]
    } else if values.len() == 1 {
        seq![SortEvent::MarkSorted { index: 0 }, SortEvent::AlgorithmFinished]
    } else {
        insertion_rounds(values, 1, values.len() as int).push(SortEvent::AlgorithmFinished)
    }
}

/// No event of `events` overwrites a slot.
pub open spec fn no_overwrites(events: Seq<SortEvent>) -> bool {
    forall|t: int| 0 <= t < events.len() ==> !(#[trigger] events[t] is Overwrite)
}

/// Joining two streams without overwrites gives one without overwrites.
proof fn lemma_no_overwrites_concat(x: Seq<SortEvent>, y: Seq<SortEvent>)
    requires
        no_overwrites(x),
        no_overwrites(y),
    ensures
        no_overwrites(x + y),
{
    assert forall|t: int| 0 <= t < (x + y).len() implies !(#[trigger] (x + y)[t] is Overwrite) by {
        if t < x.len() {
            assert((x + y)[t] == x[t]);
        } else {
            assert((x + y)[t] == y[t - x.len()]);
        }
    }
}

/// On an array that is already sorted no round moves anything, so no round
/// writes.
proof fn lemma_sorted_rounds_write_nothing(a: Seq<u32>, i: int, n: int)
    requires
        is_sorted_seq(a),
        a.len() == n,
        0 <= i,
    ensures
        no_overwrites(insertion_rounds(a, i, n)),
    decreases n - i,
{
    if i < n {
        let key = a[i];
        if i > 0 {
            assert(a[i - 1] <= a[i]);
        }
        let shift = insertion_shift(a, key, i);
        assert(shift.2 == i && shift.1 == a);
        let head = shift.0.push(SortEvent::ClearHighlights);
        assert(no_overwrites(head)) by {
            if i > 0 {
                assert(head =~= seq![
                    SortEvent::Compare { i: (i - 1) as usize, j: i as usize },
                    SortEvent::ClearHighlights,
                ]);
            } else {
                assert(head =~= seq![SortEvent::ClearHighlights]);
            }
        }
        lemma_sorted_rounds_write_nothing(a, i + 1, n);
        lemma_no_overwrites_concat(head, insertion_rounds(a, i + 1, n));
    }
}

/// Insertion sort writes nothing when its input is already sorted.
proof fn lemma_sorted_input_writes_nothing(values: Seq<u32>)
    requires
        is_sorted_seq(values),
    ensures
        no_overwrites(insertion_events(values)),
{
    let fin = seq![SortEvent::AlgorithmFinished];
    if values.len() > 1 {
        let body = insertion_rounds(values, 1, values.len() as int);
        lemma_sorted_rounds_write_nothing(values, 1, values.len() as int);
        lemma_no_overwrites_concat(body, fin);
        assert(body.push(SortEvent::AlgorithmFinished) =~= body + fin);
    }
}

/// The walk from a hole at `j > 0` starts by comparing the hole's left
/// neighbor with the hole, leaves an array of the same length, and stops
/// with the hole somewhere in `0..=j`.
proof fn lemma_walk_basics(a: Seq<u32>, key: u32, j: int)
    requires
        0 <= j < a.len(),
        a.len() <= usize::MAX,
    ensures
        insertion_shift(a, key, j).1.len() == a.len(),
        0 <= insertion_shift(a, key, j).2 <= j,
        j > 0 ==> insertion_shift(a, key, j).0.len() > 0 && insertion_shift(a, key, j).0[0]
            == (SortEvent::Compare { i: (j - 1) as usize, j: j as usize }),
    decreases j,
{
    if j > 0 && a[j - 1] > key {
        lemma_walk_basics(a.update(j, a[j - 1]), key, j - 1);
    }
}

/// Rounds `i..n` compare, for every position `k` they take up (`k >= 1`),
/// the new element with its left neighbor: `Compare { k - 1, k }` occurs.
proof fn lemma_rounds_compare_each_new_element(a: Seq<u32>, i: int, n: int)
    requires
        0 <= i,
        a.len() == n,
        n <= usize::MAX,
    ensures
        forall|k: int|
            i <= k < n && 1 <= k ==> #[trigger] insertion_rounds(a, i, n).contains(
                SortEvent::Compare { i: (k - 1) as usize, j: k as usize },
            ),
    decreases n - i,
{
    if i < n {
        let key = a[i];
        let walk = insertion_shift(a, key, i);
        lemma_walk_basics(a, key, i);
        let hole = walk.2;
        let next = if hole != i {
            walk.1.update(hole, key)
        } else {
            walk.1
        };
        let head = if hole != i {
            walk.0.push(SortEvent::Overwrite { index: hole as usize, value: key }).push(
                SortEvent::ClearHighlights,
            )
        } else {
            walk.0.push(SortEvent::ClearHighlights)
        };
        assert(insertion_rounds(a, i, n) == head + insertion_rounds(next, i + 1, n));
        lemma_rounds_compare_each_new_element(next, i + 1, n);
        let whole = head + insertion_rounds(next, i + 1, n);
        assert forall|k: int| i <= k < n && 1 <= k implies #[trigger] whole.contains(
            SortEvent::Compare { i: (k - 1) as usize, j: k as usize },
        ) by {
            if k == i {
                assert(whole[0] == head[0]);
                assert(head[0] == walk.0[0]);
            } else {
                let rest = insertion_rounds(next, i + 1, n);
                assert(rest.contains(SortEvent::Compare { i: (k - 1) as usize, j: k as usize }));
                let t = choose|t: int| 0 <= t < rest.len() && rest[t] == (SortEvent::Compare { i: (k - 1) as usize, j: k as usize });
                assert(whole[head.len() + t] == rest[t]);
            }
        }
    }
}

/// The comparisons `Compare { k - 1, k }` for `k` from `i` up to `n`.
spec fn neighbor_compares(i: int, n: int) -> Seq<SortEvent> {
    Seq::new((n - i) as nat, |k: int| SortEvent::Compare { i: (i + k - 1) as usize, j: (i + k) as usize })
}

/// Putting `Compare { i - 1, i }` in front of the comparisons from `i + 1`
/// gives the comparisons from `i`.
proof fn lemma_neighbor_compares_step(i: int, n: int)
    requires
        i < n,
    ensures
        seq![SortEvent::Compare { i: (i - 1) as usize, j: i as usize }] + neighbor_compares(i + 1, n)
            == neighbor_compares(i, n),
{
    let l = seq![SortEvent::Compare { i: (i - 1) as usize, j: i as usize }] + neighbor_compares(i + 1, n);
    let r = neighbor_compares(i, n);
    assert forall|k: int| 0 <= k < r.len() implies l[k] == r[k] by {
        if k > 0 {
            assert(l[k] == neighbor_compares(i + 1, n)[k - 1]);
        }
    }
    assert(l =~= r);
}

/// On an array already in order, round `i` only compares the new element
/// with its left neighbor and clears the highlights.
proof fn lemma_sorted_round_shape(a: Seq<u32>, i: int, n: int)
    requires
        is_sorted_seq(a),
        a.len() == n,
        1 <= i < n,
    ensures
        insertion_rounds(a, i, n) == seq![
            SortEvent::Compare { i: (i - 1) as usize, j: i as usize },
            SortEvent::ClearHighlights,
        ] + insertion_rounds(a, i + 1, n),
{
    let key = a[i];
    assert(a[i - 1] <= a[i]);
    let c = SortEvent::Compare { i: (i - 1) as usize, j: i as usize };
    assert(insertion_shift(a, key, i) == (seq![c], a, i));
    assert(seq![c].push(SortEvent::ClearHighlights) =~= seq![c, SortEvent::ClearHighlights]);
}

/// The comparisons of `Compare { i - 1, i }` followed by a highlight reset.
proof fn lemma_compare_then_clear(i: int)
    ensures
        compares_of(
            seq![SortEvent::Compare { i: (i - 1) as usize, j: i as usize }, SortEvent::ClearHighlights],
        ) == seq![SortEvent::Compare { i: (i - 1) as usize, j: i as usize }],
{
    let c = SortEvent::Compare { i: (i - 1) as usize, j: i as usize };
    lemma_compares_of_one(c);
    lemma_compares_of_one(SortEvent::ClearHighlights);
    lemma_compares_of_concat(seq![c], seq![SortEvent::ClearHighlights]);
    assert(seq![c] + seq![SortEvent::ClearHighlights] =~= seq![c, SortEvent::ClearHighlights]);
    assert(seq![c] + Seq::<SortEvent>::empty() =~= seq![c]);
}

/// On an array already in order, each round from `i` on makes exactly one
/// comparison, of the new element with its left neighbor.
proof fn lemma_sorted_rounds_compare_once(a: Seq<u32>, i: int, n: int)
    requires
        is_sorted_seq(a),
        a.len() == n,
        1 <= i <= n,
    ensures
        compares_of(insertion_rounds(a, i, n)) == neighbor_compares(i, n),
    decreases n - i,
{
    if i < n {
        let pair = seq![
            SortEvent::Compare { i: (i - 1) as usize, j: i as usize },
            SortEvent::ClearHighlights,
        ];
        lemma_sorted_round_shape(a, i, n);
        lemma_compare_then_clear(i);
        lemma_sorted_rounds_compare_once(a, i + 1, n);
        lemma_compares_of_concat(pair, insertion_rounds(a, i + 1, n));
        lemma_neighbor_compares_step(i, n);
    } else {
        let marks = marks_upto(n as nat);
        assert forall|t: int| 0 <= t < marks.len() implies !(#[trigger] marks[t] is Compare) by {}
        lemma_compares_of_none(marks);
        assert(neighbor_compares(i, n) =~= Seq::<SortEvent>::empty());
    }
}

/// Insertion sort compares every element it takes up with its left neighbor
/// before deciding whether to move it: for each `1 <= k < n`,
/// `Compare { k - 1, k }` occurs. On input already in order these are its
/// only comparisons, in order: `n - 1` of them.
pub proof fn lemma_insertion_compares_each_new_element(values: Seq<u32>)
    requires
        values.len() <= usize::MAX,
    ensures
        forall|k: int|
            1 <= k < values.len() ==> #[trigger] insertion_events(values).contains(
                SortEvent::Compare { i: (k - 1) as usize, j: k as usize },
            ),
        is_sorted_seq(values) && values.len() >= 1 ==> compares_of(insertion_events(values))
            == Seq::new(
            (values.len() - 1) as nat,
            |k: int| SortEvent::Compare { i: k as usize, j: (k + 1) as usize },
        ),
{
    let n = values.len() as int;
    let fin = seq![SortEvent::AlgorithmFinished];
    if n > 1 {
        let body = insertion_rounds(values, 1, n);
        lemma_rounds_compare_each_new_element(values, 1, n);
        let events = insertion_events(values);
        assert(events == body.push(SortEvent::AlgorithmFinished));
        assert forall|k: int| 1 <= k < n implies #[trigger] events.contains(
            SortEvent::Compare { i: (k - 1) as usize, j: k as usize },
        ) by {
            assert(body.contains(SortEvent::Compare { i: (k - 1) as usize, j: k as usize }));
            let t = choose|t: int| 0 <= t < body.len() && body[t] == (SortEvent::Compare { i: (k - 1) as usize, j: k as usize });
            assert(events[t] == body[t]);
        }
        if is_sorted_seq(values) {
            lemma_sorted_rounds_compare_once(values, 1, n);
            assert(neighbor_compares(1, n) =~= Seq::new(
                (n - 1) as nat,
                |k: int| SortEvent::Compare { i: k as usize, j: (k + 1) as usize },
            ));
            lemma_compares_of_one(SortEvent::AlgorithmFinished);
            lemma_compares_of_concat(body, fin);
            assert(body.push(SortEvent::AlgorithmFinished) =~= body + fin);
            assert(compares_of(events) =~= Seq::new(
                (n - 1) as nat,
                |k: int| SortEvent::Compare { i: k as usize, j: (k + 1) as usize },
            ));
        }
    } else if n == 1 {
        let events = insertion_events(values);
        assert forall|t: int| 0 <= t < events.len() implies !(#[trigger] events[t] is Compare) by {}
        lemma_compares_of_none(events);
        assert(compares_of(events) =~= Seq::new(0, |k: int| SortEvent::Compare { i: k as usize, j: (k + 1) as usize }));
    }
}

impl SortingAlgorithm for InsertionSort {
    fn name(&self) -> (r: &'static str)
        ensures
            r@ == "Insertion Sort"@,
    {
        "Insertion Sort"
    }

    fn generate_events(&self, values: &[u32]) -> (events: Vec<SortEvent>)
        ensures
            every(events@, |e: SortEvent| insertion_step(e)),
            marks_all_at_end(events@, values@.len()),
            is_sorted_seq(values@) ==> no_overwrites(events@),
            events@ == insertion_events(values@),
    {
        let mut a = vstd::slice::slice_to_vec(values);
        let n = a.len();
        let mut rec = Recorder::with_capacity_for(n);
        let ghost input = values@;

        if n <= 1 {
            if n == 1 {
                rec.mark_sorted(0);
            }
            let ghost recorded = rec@;
            let events = rec.finish();
            proof {
                lemma_finished_run(input, recorded, a@);
                if is_sorted_seq(input) {
                    lemma_sorted_input_writes_nothing(input);
                }
                assert(events@ =~= insertion_events(values@));
            }
            return events;
        }
        let ghost total = insertion_rounds(input, 1, n as int);
        assert(rec@ + total =~= total);
        assert(every(rec@, |e: SortEvent| insertion_step(e) && !(e is MarkSorted)));

        let mut i: usize = 1;
        while i < n
            invariant
                n == a@.len() == input.len(),
                1 <= i <= n,
                replay_values(input, rec@) == a@,
                events_in_bounds(rec@, n as nat),
                marks_are_final(rec@),
                unfinished(rec@),
                forall|k: usize| !marked_sorted(rec@, k),
                every(rec@, |e: SortEvent| insertion_step(e) && !(e is MarkSorted)),
                a@.to_multiset() == input.to_multiset(),
                sorted_between(a@, 0, i as int),
                rec@ + insertion_rounds(a@, i as int, n as int) == total,
            decreases n - i,
        {
            let key = a[i];
            let ghost orig = a@;
            let ghost r_round = rec@;
            let ghost shift = insertion_shift(orig, key, i as int);
            let mut j = i;
            assert(rec@ + shift.0 =~= r_round + shift.0);
            assert(a@.update(j as int, key) =~= orig);

            while j > 0
                invariant_except_break
                    rec@ + insertion_shift(a@, key, j as int).0 == r_round + shift.0,
                    insertion_shift(a@, key, j as int).1 == shift.1,
                    insertion_shift(a@, key, j as int).2 == shift.2,
                invariant
                    n == a@.len() == orig.len(),
                    i < n,
                    j <= i,
                    key == orig[i as int],
                    sorted_between(orig, 0, i as int),
                    replay_values(input, rec@) == a@,
                    events_in_bounds(rec@, n as nat),
                    marks_are_final(rec@),
                    unfinished(rec@),
                    forall|k: usize| !marked_sorted(rec@, k),
                    every(rec@, |e: SortEvent| insertion_step(e) && !(e is MarkSorted)),
                    a@.update(j as int, key).to_multiset() == orig.to_multiset(),
                    j == i ==> a@ == orig,
                    forall|k: int| 0 <= k < j ==> #[trigger] a@[k] == orig[k],
                    forall|k: int| i < k < n ==> #[trigger] a@[k] == orig[k],
                    forall|k: int| j < k <= i ==> #[trigger] a@[k] == orig[k - 1],
                    forall|k: int| j < k <= i ==> #[trigger] a@[k] > key,
                    shift == insertion_shift(orig, key, i as int),
                ensures
                    rec@ == r_round + shift.0,
                    a@ == shift.1,
                    j as int == shift.2,
                    j == 0 || a@[j - 1] <= key,
                    n == a@.len(),
                    j <= i,
                    replay_values(input, rec@) == a@,
                    events_in_bounds(rec@, n as nat),
                    marks_are_final(rec@),
                    unfinished(rec@),
                    forall|k: usize| !marked_sorted(rec@, k),
                    every(rec@, |e: SortEvent| insertion_step(e) && !(e is MarkSorted)),
                    a@.update(j as int, key).to_multiset() == orig.to_multiset(),
                    j == i ==> a@ == orig,
                    forall|k: int| 0 <= k < j ==> #[trigger] a@[k] == orig[k],
                    forall|k: int| i < k < n ==> #[trigger] a@[k] == orig[k],
                    forall|k: int| j < k <= i ==> #[trigger] a@[k] == orig[k - 1],
                    forall|k: int| j < k <= i ==> #[trigger] a@[k] > key,
                decreases j,
            {
                let ghost r_before = rec@;
                let ghost a_before = a@;
                let ghost j_before = j as int;
                rec.compare(j - 1, j);
                if a[j - 1] > key {
                    let shifted = a[j - 1];
                    let ghost h = a@.update(j as int, key);
                    proof {
                        lemma_swap_multiset(h, j - 1, j as int);
                        assert(a@.update(j as int, shifted).update(j - 1, key) =~= swapped(
                            h,
                            j - 1,
                            j as int,
                        ));
                    }
                    rec.overwrite(&mut a, j, shifted);
                    j -= 1;
                    assert(rec@ + insertion_shift(a@, key, j as int).0 =~= r_before + insertion_shift(
                        a_before,
                        key,
                        j_before,
                    ).0);
                } else {
                    assert(rec@ =~= r_round + shift.0);
                    break;
                }
            }
            proof {
                if j == 0 {
                    assert(rec@ =~= r_round + shift.0);
                }
            }

            let ghost h = a@.update(j as int, key);
            if j != i {
                rec.overwrite(&mut a, j, key);
            } else {
                assert(h =~= a@);
            }
            assert(a@ == h);
            assert(sorted_between(a@, 0, i + 1)) by {
                assert forall|p: int, q: int| 0 <= p < q < i + 1 implies #[trigger] a@[p]
                    <= #[trigger] a@[q] by {
                    if q < j {
                    } else if q == j {
                        assert(orig[p] <= orig[j - 1]);
                    } else if p < j {
                        assert(orig[p] <= orig[j - 1]);
                    } else if p == j {
                    } else {
                        assert(orig[p - 1] <= orig[q - 1]);
                    }
                }
            }
            rec.clear_highlights();
            assert(rec@ + insertion_rounds(a@, i + 1, n as int) =~= r_round + insertion_rounds(
                orig,
                i as int,
                n as int,
            ));
            i += 1;
        }

        let ghost body = rec@;
        let mut k: usize = 0;
        while k < n
            invariant
                k <= n,
                n == a@.len(),
                replay_values(input, rec@) == a@,
                events_in_bounds(rec@, n as nat),
                marks_are_final(rec@),
                unfinished(rec@),
                every(body, |e: SortEvent| insertion_step(e) && !(e is MarkSorted)),
                rec@ == body + Seq::new(k as nat, |q: int| SortEvent::MarkSorted { index: q as usize }),
                forall|q: usize| q < k ==> marked_sorted(rec@, q),
            decreases n - k,
        {
            rec.mark_sorted(k);
            k += 1;
            assert(rec@ =~= body + Seq::new(k as nat, |q: int| SortEvent::MarkSorted { index: q as usize }));
        }

        let ghost recorded = rec@;
        let events = rec.finish();
        proof {
            lemma_finished_run(input, recorded, a@);
            if is_sorted_seq(input) {
                lemma_sorted_input_writes_nothing(input);
            }
            let marks = Seq::new(n as nat, |q: int| SortEvent::MarkSorted { index: q as usize });
            let fin = events@;
            assert(fin == body + marks + seq![SortEvent::AlgorithmFinished]);
            assert(marks =~= marks_upto(n as nat));
            assert(body + marks =~= total);
            assert(fin =~= insertion_events(values@));
            assert forall|t: int| 0 <= t < fin.len() implies insertion_step(#[trigger] fin[t]) by {
                if t < body.len() {
                    assert(fin[t] == body[t]);
                } else if t < body.len() + n {
                    assert(fin[t] == marks[t - body.len()]);
                }
            }
            assert forall|q: int| 0 <= q < n implies #[trigger] fin[body.len() + q]
                == SortEvent::MarkSorted { index: q as usize } by {
                assert(fin[body.len() + q] == marks[q]);
            }
            assert forall|t: int| 0 <= t < body.len() implies !((#[trigger] fin[t]) is MarkSorted) by {
                assert(fin[t] == body[t]);
            }
        }
        events
    }
}

} // verus!
