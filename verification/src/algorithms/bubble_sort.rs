//! Bubble sort: repeatedly walk the array swapping out-of-order neighbors.
//!
//! Each adjacent pair check emits a `Compare`, out-of-order pairs a `Swap`.
//! After each pass the largest remaining element has bubbled to the end of the
//! unsorted region and is marked sorted; a pass without swaps marks the whole
//! remaining prefix sorted and stops early.

use vstd::prelude::*;

use super::permutation::lemma_swap_multiset;
use super::{group_recording, lemma_finished_run, every, Recorder, SortingAlgorithm};
use crate::simulation::metrics::{
    count_compares, count_swaps, lemma_count_compares_push, lemma_count_swaps_push,
};
use crate::simulation::array_state::{is_sorted_seq, replay_values, sorted_between, swapped};
use crate::simulation::sort_event::{
    compares_of, events_in_bounds, lemma_compares_of_concat, lemma_compares_of_none,
    lemma_compares_of_one, marked_sorted, marks_are_final, marks_every_index, unfinished, SortEvent,
};

verus! {

broadcast use {group_recording, lemma_count_swaps_push, lemma_count_compares_push};

pub struct BubbleSort;

/// Every element before `b` is at most every element from `b` on.
pub open spec fn split_at(s: Seq<u32>, b: int) -> bool {
    forall|x: int, y: int| 0 <= x < b <= y < s.len() ==> #[trigger] s[x] <= #[trigger] s[y]
}

/// Bubble sort compares and swaps only adjacent neighbors, and otherwise only
/// marks elements sorted and finishes.
pub open spec fn bubble_step(e: SortEvent) -> bool {
    match e {
        SortEvent::Compare { i, j } => j == i + 1,
        SortEvent::Swap { i, j } => j == i + 1,
        SortEvent::MarkSorted { .. } => true,
        SortEvent::AlgorithmFinished => true,
        _ => false,
    }
}

/// One bubble pass over the neighbors `(i, i + 1)` for `i` from `i` up to
/// `last`: the events it records, the array it leaves, and whether it swapped.
pub open spec fn bubble_pass(a: Seq<u32>, i: int, last: int) -> (Seq<SortEvent>, Seq<u32>, bool)
    decreases last - i,
{
    if i >= last {
        (Seq::empty(), a, false)
    } else {
        let c = SortEvent::Compare { i: i as usize, j: (i + 1) as usize };
        if a[i] > a[i + 1] {
            let rest = bubble_pass(swapped(a, i, i + 1), i + 1, last);
            (seq![c, SortEvent::Swap { i: i as usize, j: (i + 1) as usize }] + rest.0, rest.1, true)
        } else {
            let rest = bubble_pass(a, i + 1, last);
            (seq![c] + rest.0, rest.1, rest.2)
        }
    }
}

/// `MarkSorted` for indices `0..k`, in order.
pub open spec fn marks_upto(k: nat) -> Seq<SortEvent> {
    Seq::new(k, |q: int| SortEvent::MarkSorted { index: q as usize })
}

/// The events of passes `pass, pass + 1, ...` over an array of length `n`
/// that holds `a` when pass `pass` starts: each pass marks its last position
/// sorted; a pass without swaps marks the remaining prefix sorted and stops;
/// after the last pass index 0 is marked sorted.
pub open spec fn bubble_passes(a: Seq<u32>, pass: int, n: int) -> Seq<SortEvent>
    decreases n - 1 - pass,
{
    if pass >= n - 1 {
        seq![SortEvent::MarkSorted { index: 0 }]
    } else {
        let last = n - 1 - pass;
        let p = bubble_pass(a, 0, last);
        let marked = p.0.push(SortEvent::MarkSorted { index: last as usize });
        if !p.2 {
            marked + marks_upto(last as nat)
        } else {
            marked + bubble_passes(p.1, pass + 1, n)
        }
    }
}

/// The complete event stream bubble sort records for `values`.
pub open spec fn bubble_events(values: Seq<u32>) -> Seq<SortEvent> {
    if values.len() == 0 {
        seq![SortEvent::AlgorithmFinished]
    } else if values.len() == 1 {
        seq![SortEvent::MarkSorted { index: 0 }, SortEvent::AlgorithmFinished]
    } else {
        bubble_passes(values, 0, values.len() as int).push(SortEvent::AlgorithmFinished)
    }
}

/// Every `Swap` comes right after the `Compare` of the same pair: bubble sort
/// only exchanges neighbors it has just found out of order.
pub open spec fn swaps_follow_compares(events: Seq<SortEvent>) -> bool {
    forall|t: int|
        0 <= t < events.len() && (#[trigger] events[t]) is Swap ==> t > 0 && events[t - 1]
            == SortEvent::Compare { i: events[t]->Swap_i, j: events[t]->Swap_j }
}

/// A stream without swaps trivially has every swap after its compare.
proof fn lemma_swapless_follows(x: Seq<SortEvent>)
    requires
        forall|t: int| 0 <= t < x.len() ==> !(#[trigger] x[t] is Swap),
    ensures
        swaps_follow_compares(x),
{
}

/// Joining two streams keeps every swap right after its compare.
proof fn lemma_follows_concat(x: Seq<SortEvent>, y: Seq<SortEvent>)
    requires
        swaps_follow_compares(x),
        swaps_follow_compares(y),
    ensures
        swaps_follow_compares(x + y),
{
    let z = x + y;
    assert forall|t: int| 0 <= t < z.len() && (#[trigger] z[t]) is Swap implies t > 0 && z[t - 1]
        == SortEvent::Compare { i: z[t]->Swap_i, j: z[t]->Swap_j } by {
        if t < x.len() {
            assert(z[t] == x[t]);
            assert(z[t - 1] == x[t - 1]);
        } else {
            let u = t - x.len();
            assert(z[t] == y[u]);
            assert(y[u] is Swap);
            if u > 0 {
                assert(z[t - 1] == y[u - 1]);
            }
        }
    }
}

/// Within one pass every swap comes right after its compare.
proof fn lemma_pass_follows(a: Seq<u32>, i: int, last: int)
    requires
        0 <= i,
        last < a.len(),
    ensures
        swaps_follow_compares(bubble_pass(a, i, last).0),
    decreases last - i,
{
    if i < last {
        let c = SortEvent::Compare { i: i as usize, j: (i + 1) as usize };
        if a[i] > a[i + 1] {
            let head = seq![c, SortEvent::Swap { i: i as usize, j: (i + 1) as usize }];
            lemma_pass_follows(swapped(a, i, i + 1), i + 1, last);
            assert(swaps_follow_compares(head)) by {
                assert(head[1] is Swap && head[0] == c);
            }
            lemma_follows_concat(head, bubble_pass(swapped(a, i, i + 1), i + 1, last).0);
        } else {
            lemma_pass_follows(a, i + 1, last);
            lemma_swapless_follows(seq![c]);
            lemma_follows_concat(seq![c], bubble_pass(a, i + 1, last).0);
        }
    }
}

/// Over all passes every swap comes right after its compare.
proof fn lemma_passes_follow(a: Seq<u32>, pass: int, n: int)
    requires
        0 <= pass,
        n == a.len(),
    ensures
        swaps_follow_compares(bubble_passes(a, pass, n)),
    decreases n - 1 - pass,
{
    if pass >= n - 1 {
        lemma_swapless_follows(seq![SortEvent::MarkSorted { index: 0 }]);
    } else {
        let last = n - 1 - pass;
        let p = bubble_pass(a, 0, last);
        lemma_pass_follows(a, 0, last);
        let mark = seq![SortEvent::MarkSorted { index: last as usize }];
        lemma_swapless_follows(mark);
        lemma_follows_concat(p.0, mark);
        assert(p.0.push(SortEvent::MarkSorted { index: last as usize }) =~= p.0 + mark);
        if !p.2 {
            lemma_swapless_follows(marks_upto(last as nat));
            lemma_follows_concat(p.0 + mark, marks_upto(last as nat));
        } else {
            lemma_pass_len(a, 0, last);
            lemma_passes_follow(p.1, pass + 1, n);
            lemma_follows_concat(p.0 + mark, bubble_passes(p.1, pass + 1, n));
        }
    }
}

/// A pass leaves an array of the same length.
proof fn lemma_pass_len(a: Seq<u32>, i: int, last: int)
    requires
        0 <= i,
        last < a.len(),
    ensures
        bubble_pass(a, i, last).1.len() == a.len(),
    decreases last - i,
{
    if i < last {
        if a[i] > a[i + 1] {
            lemma_pass_len(swapped(a, i, i + 1), i + 1, last);
        } else {
            lemma_pass_len(a, i + 1, last);
        }
    }
}

/// In bubble sort's stream every swap comes right after the compare that
/// found the pair out of order.
proof fn lemma_bubble_swaps_follow_compares(values: Seq<u32>)
    ensures
        swaps_follow_compares(bubble_events(values)),
{
    let fin = seq![SortEvent::AlgorithmFinished];
    lemma_swapless_follows(fin);
    if values.len() == 1 {
        lemma_swapless_follows(bubble_events(values));
    } else if values.len() > 1 {
        let body = bubble_passes(values, 0, values.len() as int);
        lemma_passes_follow(values, 0, values.len() as int);
        lemma_follows_concat(body, fin);
        assert(body.push(SortEvent::AlgorithmFinished) =~= body + fin);
    }
}

/// A new pass, which starts by comparing positions 0 and 1, comes only after
/// a pass that swapped something: between any two comparisons of positions 0
/// and 1 there is a swap. A pass without swaps is therefore the last one.
pub open spec fn new_pass_needs_swap(events: Seq<SortEvent>) -> bool {
    forall|t: int, u: int|
        0 <= t < u < events.len() && #[trigger] events[t] == SortEvent::Compare { i: 0, j: 1 }
            && #[trigger] events[u] == SortEvent::Compare { i: 0, j: 1 } ==> exists|s: int|
            t < s < u && (#[trigger] events[s]) is Swap
}

/// Within a pass starting at `i`, every comparison is of positions from `i`
/// on, and a pass that reports a swap contains one.
proof fn lemma_pass_shape(a: Seq<u32>, i: int, last: int)
    requires
        0 <= i,
        last < a.len(),
        a.len() <= usize::MAX,
    ensures
        forall|t: int|
            0 <= t < bubble_pass(a, i, last).0.len() && (#[trigger] bubble_pass(a, i, last).0[t]) is Compare
                ==> bubble_pass(a, i, last).0[t]->Compare_i >= i,
        bubble_pass(a, i, last).2 ==> exists|s: int|
            0 <= s < bubble_pass(a, i, last).0.len() && (#[trigger] bubble_pass(a, i, last).0[s]) is Swap,
    decreases last - i,
{
    if i < last {
        let c = SortEvent::Compare { i: i as usize, j: (i + 1) as usize };
        if a[i] > a[i + 1] {
            let b = swapped(a, i, i + 1);
            lemma_pass_shape(b, i + 1, last);
            let rest = bubble_pass(b, i + 1, last).0;
            let q = seq![c, SortEvent::Swap { i: i as usize, j: (i + 1) as usize }] + rest;
            assert(q[1] is Swap);
            assert forall|t: int| 0 <= t < q.len() && (#[trigger] q[t]) is Compare implies q[t]->Compare_i >= i by {
                if t >= 2 {
                    assert(q[t] == rest[t - 2]);
                }
            }
        } else {
            lemma_pass_shape(a, i + 1, last);
            let rest = bubble_pass(a, i + 1, last).0;
            let q = seq![c] + rest;
            assert forall|t: int| 0 <= t < q.len() && (#[trigger] q[t]) is Compare implies q[t]->Compare_i >= i by {
                if t >= 1 {
                    assert(q[t] == rest[t - 1]);
                }
            }
            if bubble_pass(a, i + 1, last).2 {
                let s = choose|s: int| 0 <= s < rest.len() && (#[trigger] rest[s]) is Swap;
                assert(q[s + 1] == rest[s]);
            }
        }
    }
}

/// Joining two streams keeps a swap between any two starts of a pass, when
/// every pass start of the first is followed by a swap in the first, or the
/// second starts no pass.
proof fn lemma_new_pass_concat(x: Seq<SortEvent>, y: Seq<SortEvent>)
    requires
        new_pass_needs_swap(x),
        new_pass_needs_swap(y),
        (forall|t: int|
            0 <= t < x.len() && #[trigger] x[t] == (SortEvent::Compare { i: 0, j: 1 }) ==> exists|s: int|
                t < s < x.len() && (#[trigger] x[s]) is Swap) || (forall|u: int|
            0 <= u < y.len() ==> #[trigger] y[u] != (SortEvent::Compare { i: 0, j: 1 })),
    ensures
        new_pass_needs_swap(x + y),
{
    let z = x + y;
    let c01 = SortEvent::Compare { i: 0, j: 1 };
    assert forall|t: int, u: int|
        0 <= t < u < z.len() && #[trigger] z[t] == c01 && #[trigger] z[u] == c01 implies exists|s: int|
        t < s < u && (#[trigger] z[s]) is Swap by {
        if u < x.len() {
            assert(z[t] == x[t] && z[u] == x[u]);
            let s = choose|s: int| t < s < u && (#[trigger] x[s]) is Swap;
            assert(z[s] == x[s]);
        } else if t >= x.len() {
            assert(z[t] == y[t - x.len()] && z[u] == y[u - x.len()]);
            let s = choose|s: int| t - x.len() < s < u - x.len() && (#[trigger] y[s]) is Swap;
            assert(z[s + x.len()] == y[s]);
        } else {
            assert(z[t] == x[t] && z[u] == y[u - x.len()]);
            let s = choose|s: int| t < s < x.len() && (#[trigger] x[s]) is Swap;
            assert(z[s] == x[s]);
        }
    }
}

/// A stream that never compares positions 0 and 1 starts no pass.
proof fn lemma_no_pass_start(x: Seq<SortEvent>)
    requires
        forall|t: int| 0 <= t < x.len() ==> #[trigger] x[t] != (SortEvent::Compare { i: 0, j: 1 }),
    ensures
        new_pass_needs_swap(x),
{
}

/// Over all remaining passes, a new pass starts only after a pass that
/// swapped.
proof fn lemma_passes_restart_after_swap(a: Seq<u32>, pass: int, n: int)
    requires
        0 <= pass,
        n == a.len(),
        n <= usize::MAX,
    ensures
        new_pass_needs_swap(bubble_passes(a, pass, n)),
    decreases n - 1 - pass,
{
    let c01 = SortEvent::Compare { i: 0, j: 1 };
    if pass >= n - 1 {
        lemma_no_pass_start(seq![SortEvent::MarkSorted { index: 0 }]);
    } else {
        let last = n - 1 - pass;
        let p = bubble_pass(a, 0, last);
        let q = p.0;
        let x = q.push(SortEvent::MarkSorted { index: last as usize });
        lemma_pass_shape(a, 0, last);
        assert(q[0] == c01);
        assert forall|t: int| 1 <= t < x.len() implies #[trigger] x[t] != c01 by {
            if t < q.len() {
                assert(x[t] == q[t]);
                if t == 1 && a[0] > a[1] {
                } else {
                    let b = if a[0] > a[1] { swapped(a, 0, 1) } else { a };
                    lemma_pass_shape(b, 1, last);
                    let off = if a[0] > a[1] { 2int } else { 1int };
                    assert(q[t] == bubble_pass(b, 1, last).0[t - off]);
                }
            }
        }
        assert(new_pass_needs_swap(x));
        if p.2 {
            let s = choose|s: int| 0 <= s < q.len() && (#[trigger] q[s]) is Swap;
            assert(x[s] == q[s]);
            assert forall|t: int| 0 <= t < x.len() && #[trigger] x[t] == c01 implies exists|w: int|
                t < w < x.len() && (#[trigger] x[w]) is Swap by {
                assert(t == 0);
                assert(s > 0);
            }
            lemma_pass_len(a, 0, last);
            lemma_passes_restart_after_swap(p.1, pass + 1, n);
            lemma_new_pass_concat(x, bubble_passes(p.1, pass + 1, n));
        } else {
            lemma_no_pass_start(marks_upto(last as nat));
            lemma_new_pass_concat(x, marks_upto(last as nat));
        }
    }
}

/// Bubble sort stops after the first pass that makes no swap: in its stream,
/// between any two comparisons of positions 0 and 1 (the starts of two
/// passes) there is a swap.
pub proof fn lemma_bubble_stops_after_swapless_pass(values: Seq<u32>)
    requires
        values.len() <= usize::MAX,
    ensures
        new_pass_needs_swap(bubble_events(values)),
{
    let fin = seq![SortEvent::AlgorithmFinished];
    lemma_no_pass_start(fin);
    if values.len() == 1 {
        lemma_no_pass_start(bubble_events(values));
    } else if values.len() > 1 {
        let body = bubble_passes(values, 0, values.len() as int);
        lemma_passes_restart_after_swap(values, 0, values.len() as int);
        lemma_new_pass_concat(body, fin);
        assert(body.push(SortEvent::AlgorithmFinished) =~= body + fin);
    }
}

/// The comparisons of neighbors `(k, k + 1)` for `k` from `i` up to `last`,
/// left to right.
pub open spec fn neighbor_pairs(i: int, last: int) -> Seq<SortEvent> {
    Seq::new((last - i) as nat, |k: int| SortEvent::Compare { i: (i + k) as usize, j: (i + k + 1) as usize })
}

/// A pass from `i` compares every neighbor pair up to `last`, left to right,
/// whether or not it swaps them.
proof fn lemma_pass_compares_every_pair(a: Seq<u32>, i: int, last: int)
    requires
        0 <= i <= last < a.len(),
    ensures
        compares_of(bubble_pass(a, i, last).0) == neighbor_pairs(i, last),
    decreases last - i,
{
    if i == last {
        lemma_compares_of_none(Seq::<SortEvent>::empty());
        assert(neighbor_pairs(i, last) =~= Seq::<SortEvent>::empty());
    } else {
        let c = SortEvent::Compare { i: i as usize, j: (i + 1) as usize };
        lemma_compares_of_one(c);
        let front;
        let rest;
        if a[i] > a[i + 1] {
            let w = SortEvent::Swap { i: i as usize, j: (i + 1) as usize };
            lemma_compares_of_one(w);
            lemma_compares_of_concat(seq![c], seq![w]);
            assert(seq![c] + seq![w] =~= seq![c, w]);
            assert(seq![c] + Seq::<SortEvent>::empty() =~= seq![c]);
            front = seq![c, w];
            lemma_pass_compares_every_pair(swapped(a, i, i + 1), i + 1, last);
            rest = bubble_pass(swapped(a, i, i + 1), i + 1, last).0;
        } else {
            front = seq![c];
            lemma_pass_compares_every_pair(a, i + 1, last);
            rest = bubble_pass(a, i + 1, last).0;
        }
        assert(bubble_pass(a, i, last).0 == front + rest);
        lemma_compares_of_concat(front, rest);
        assert(seq![c] + neighbor_pairs(i + 1, last) =~= neighbor_pairs(i, last));
    }
}

/// Bubble sort's first pass compares every neighbor pair of the input, left
/// to right: its first `n - 1` comparisons are `(0, 1), (1, 2), ...,
/// (n - 2, n - 1)`.
pub proof fn lemma_bubble_first_pass_compares_all(values: Seq<u32>)
    requires
        2 <= values.len(),
    ensures
        compares_of(bubble_events(values)).take(values.len() - 1) == neighbor_pairs(
            0,
            values.len() - 1,
        ),
{
    let n = values.len() as int;
    let last = n - 1;
    let p = bubble_pass(values, 0, last);
    let mark = seq![SortEvent::MarkSorted { index: last as usize }];
    let later = if !p.2 {
        marks_upto(last as nat)
    } else {
        bubble_passes(p.1, 1, n)
    };
    let fin = seq![SortEvent::AlgorithmFinished];
    let tail = mark + later + fin;
    assert(bubble_events(values) =~= p.0 + tail);
    lemma_pass_compares_every_pair(values, 0, last);
    lemma_compares_of_concat(p.0, tail);
    let front = compares_of(p.0);
    assert(front.len() == last);
    assert((front + compares_of(tail)).take(last) =~= front);
}

/// How many of the first `m` values of `s` are larger than `x`.
pub open spec fn larger_before(s: Seq<u32>, x: u32, m: int) -> nat
    decreases m,
{
    if m <= 0 {
        0
    } else {
        larger_before(s, x, m - 1) + if s[m - 1] > x {
            1nat
        } else {
            0nat
        }
    }
}

/// The number of out-of-order pairs of `s`: positions `p < q` with
/// `s[p] > s[q]`.
pub open spec fn inversions(s: Seq<u32>) -> nat
    decreases s.len(),
{
    if s.len() == 0 {
        0
    } else {
        inversions(s.drop_last()) + larger_before(s, s.last(), s.len() - 1)
    }
}

/// Counting larger values among the first `m` looks only at those `m`.
proof fn lemma_larger_before_agree(s: Seq<u32>, t: Seq<u32>, x: u32, m: int)
    requires
        forall|k: int| 0 <= k < m ==> s[k] == t[k],
    ensures
        larger_before(s, x, m) == larger_before(t, x, m),
    decreases m,
{
    if m > 0 {
        lemma_larger_before_agree(s, t, x, m - 1);
    }
}

/// Exchanging two neighbors among the first `m` values does not change how
/// many of them are larger than `x`.
proof fn lemma_larger_before_swap(s: Seq<u32>, x: u32, i: int, m: int)
    requires
        0 <= i,
        i + 1 < m <= s.len(),
    ensures
        larger_before(swapped(s, i, i + 1), x, m) == larger_before(s, x, m),
    decreases m,
{
    let t = swapped(s, i, i + 1);
    if m > i + 2 {
        lemma_larger_before_swap(s, x, i, m - 1);
        assert(t[m - 1] == s[m - 1]);
    } else {
        lemma_larger_before_agree(s, t, x, i);
        assert(t[i] == s[i + 1] && t[i + 1] == s[i]);
        assert(larger_before(t, x, i + 1) == larger_before(t, x, i) + if t[i] > x { 1nat } else { 0nat });
        assert(larger_before(s, x, i + 1) == larger_before(s, x, i) + if s[i] > x { 1nat } else { 0nat });
    }
}

/// Exchanging an out-of-order pair of neighbors removes exactly one inversion.
proof fn lemma_swap_removes_inversion(s: Seq<u32>, i: int)
    requires
        0 <= i,
        i + 1 < s.len(),
        s[i] > s[i + 1],
    ensures
        inversions(swapped(s, i, i + 1)) + 1 == inversions(s),
    decreases s.len(),
{
    let t = swapped(s, i, i + 1);
    let n = s.len() as int;
    if n - 1 > i + 1 {
        assert(t.drop_last() =~= swapped(s.drop_last(), i, i + 1));
        lemma_swap_removes_inversion(s.drop_last(), i);
        assert(t.last() == s.last());
        lemma_larger_before_swap(s, s.last(), i, n - 1);
        assert(inversions(t) == inversions(t.drop_last()) + larger_before(t, t.last(), n - 1));
        assert(inversions(s) == inversions(s.drop_last()) + larger_before(s, s.last(), n - 1));
    } else {
        let u = s.drop_last();
        let w = t.drop_last();
        assert(w.drop_last() =~= u.drop_last());
        assert(u.last() == s[i]);
        assert(w.last() == s[i + 1]);
        lemma_larger_before_agree(u, s, s[i], i);
        lemma_larger_before_agree(w, s, s[i + 1], i);
        lemma_larger_before_agree(t, s, s[i], i);
        assert(larger_before(s, s[i + 1], i + 1) == larger_before(s, s[i + 1], i) + 1);
        assert(t[i] == s[i + 1]);
        assert(larger_before(t, s[i], i + 1) == larger_before(t, s[i], i));
        assert(inversions(u) == inversions(u.drop_last()) + larger_before(u, s[i], i));
        assert(inversions(w) == inversions(w.drop_last()) + larger_before(w, s[i + 1], i));
        assert(inversions(s) == inversions(u) + larger_before(s, s[i + 1], i + 1));
        assert(inversions(t) == inversions(w) + larger_before(t, s[i], i + 1));
    }
}

/// No value among the first `m` is larger than `x`, so none is counted.
proof fn lemma_none_larger(s: Seq<u32>, x: u32, m: int)
    requires
        m <= s.len(),
        forall|k: int| 0 <= k < m ==> s[k] <= x,
    ensures
        larger_before(s, x, m) == 0,
    decreases m,
{
    if m > 0 {
        lemma_none_larger(s, x, m - 1);
    }
}

/// A sorted sequence has no inversions.
proof fn lemma_sorted_no_inversions(s: Seq<u32>)
    requires
        is_sorted_seq(s),
    ensures
        inversions(s) == 0,
    decreases s.len(),
{
    if s.len() > 0 {
        let n = s.len() as int;
        assert(is_sorted_seq(s.drop_last()));
        lemma_sorted_no_inversions(s.drop_last());
        assert forall|k: int| 0 <= k < n - 1 implies s[k] <= s.last() by {
            assert(s[k] <= s[n - 1]);
        }
        lemma_none_larger(s, s.last(), n - 1);
    }
}

impl SortingAlgorithm for BubbleSort {
    fn name(&self) -> (r: &'static str)
        ensures
            r@ == "Bubble Sort"@,
    {
        "Bubble Sort"
    }

    #[verifier::rlimit(40)]
    #[verifier::spinoff_prover]
    fn generate_events(&self, values: &[u32]) -> (events: Vec<SortEvent>)
        ensures
            every(events@, |e: SortEvent| bubble_step(e)),
            swaps_follow_compares(events@),
            count_swaps(events@) == inversions(values@),
            new_pass_needs_swap(events@),
            count_compares(events@) <= values@.len() * (values@.len() - 1) / 2,
            events@ == bubble_events(values@),
    {
        let mut a = vstd::slice::slice_to_vec(values);
        let n = a.len();
        let mut rec = Recorder::with_capacity_for(n);
        let ghost input = values@;

        if n <= 1 {
            if n == 1 {
                rec.mark_sorted(0);
            }
            let ghost recorded = rec@;
            let events = rec.finish();
            proof {
                lemma_finished_run(input, recorded, a@);
                lemma_bubble_swaps_follow_compares(input);
            lemma_bubble_stops_after_swapless_pass(input);
                lemma_sorted_no_inversions(a@);
                assert(events@ =~= bubble_events(values@));
            }
            return events;
        }

        let ghost total = bubble_passes(input, 0, n as int);
        assert(rec@ + total =~= total);
        assert((n - 1 - 0) * (n - 0) / 2 == n * (n - 1) / 2) by (nonlinear_arith);
        assert(count_compares(rec@) == 0);
        let mut finished_early = false;
        let mut pass: usize = 0;
        while pass < n - 1
            invariant_except_break
                !finished_early,
            invariant
                2 <= n == a@.len() == input.len(),
                pass <= n - 1,
                replay_values(input, rec@) == a@,
                events_in_bounds(rec@, n as nat),
                marks_are_final(rec@),
                unfinished(rec@),
                every(rec@, |e: SortEvent| bubble_step(e)),
                !finished_early ==> forall|k: usize| marked_sorted(rec@, k) ==> k >= n - pass,
                !finished_early ==> forall|k: usize| n - pass <= k < n ==> marked_sorted(rec@, k),
                !finished_early ==> count_compares(rec@) + (n - 1 - pass) * (n - pass) / 2 == n * (n - 1) / 2,
                finished_early ==> count_compares(rec@) <= n * (n - 1) / 2,
                count_swaps(rec@) + inversions(a@) == inversions(input),
                finished_early ==> marks_every_index(rec@, n as nat),
                a@.to_multiset() == input.to_multiset(),
                finished_early ==> is_sorted_seq(a@),
                !finished_early ==> sorted_between(a@, n - pass, n as int),
                !finished_early ==> split_at(a@, n - pass),
                !finished_early ==> rec@ + bubble_passes(a@, pass as int, n as int) == total,
                finished_early ==> rec@ == total,
            ensures
                finished_early ==> is_sorted_seq(a@),
                !finished_early ==> sorted_between(a@, 1, n as int) && split_at(a@, 1),
                !finished_early ==> rec@.push(SortEvent::MarkSorted { index: 0 }) == total,
                finished_early ==> rec@ == total,
                !finished_early ==> forall|k: usize| 1 <= k < n ==> marked_sorted(rec@, k),
                finished_early ==> marks_every_index(rec@, n as nat),
                !finished_early ==> pass == n - 1,
                !finished_early ==> count_compares(rec@) + (n - 1 - pass) * (n - pass) / 2 == n * (n - 1) / 2,
                finished_early ==> count_compares(rec@) <= n * (n - 1) / 2,
            decreases n - 1 - pass,
        {
            let last = n - 1 - pass;
            let mut swapped = false;
            let mut i: usize = 0;
            let ghost a_pass = a@;
            let ghost r_pass = rec@;
            let ghost c_pass = count_compares(rec@);
            let ghost whole = bubble_pass(a_pass, 0, last as int);
            assert(rec@ + whole.0 =~= r_pass + whole.0);
            while i < last
                invariant
                    2 <= n == a@.len() == input.len(),
                    last < n,
                    last == n - 1 - pass,
                    i <= last,
                    replay_values(input, rec@) == a@,
                    events_in_bounds(rec@, n as nat),
                    marks_are_final(rec@),
                    unfinished(rec@),
                    every(rec@, |e: SortEvent| bubble_step(e)),
                    forall|k: usize| marked_sorted(rec@, k) ==> k > last,
                    forall|k: usize| last < k < n ==> marked_sorted(rec@, k),
                    count_compares(rec@) == c_pass + i,
                    count_swaps(rec@) + inversions(a@) == inversions(input),
                    a@.to_multiset() == input.to_multiset(),
                    sorted_between(a@, last + 1, n as int),
                    split_at(a@, last + 1),
                    forall|k: int| 0 <= k < i ==> #[trigger] a@[k] <= a@[i as int],
                    !swapped ==> sorted_between(a@, 0, i + 1),
                    whole == bubble_pass(a_pass, 0, last as int),
                    rec@ + bubble_pass(a@, i as int, last as int).0 == r_pass + whole.0,
                    bubble_pass(a@, i as int, last as int).1 == whole.1,
                    (swapped || bubble_pass(a@, i as int, last as int).2) == whole.2,
                decreases last - i,
            {
                let ghost a_before = a@;
                let ghost r_before = rec@;
                rec.compare(i, i + 1);
                if a[i] > a[i + 1] {
                    proof {
                        lemma_swap_multiset(a@, i as int, i + 1);
                        lemma_swap_removes_inversion(a@, i as int);
                    }
                    rec.swap(&mut a, i, i + 1);
                    swapped = true;
                    proof {
                        let rest = bubble_pass(a@, i + 1, last as int);
                        assert(rec@ + rest.0 =~= r_before + bubble_pass(a_before, i as int, last as int).0);
                    }
                } else {
                    proof {
                        let rest = bubble_pass(a@, i + 1, last as int);
                        assert(rec@ + rest.0 =~= r_before + bubble_pass(a_before, i as int, last as int).0);
                    }
                }
                i += 1;
            }
            assert(rec@ =~= r_pass + whole.0);
            rec.mark_sorted(last);
            let ghost marked = whole.0.push(SortEvent::MarkSorted { index: last });
            assert(rec@ =~= r_pass + marked);

            if !swapped {
                let mut k: usize = 0;
                while k < last
                    invariant
                        k <= last < n,
                        replay_values(input, rec@) == a@,
                        events_in_bounds(rec@, n as nat),
                        marks_are_final(rec@),
                        unfinished(rec@),
                        every(rec@, |e: SortEvent| bubble_step(e)),
                        rec@ == r_pass + marked + marks_upto(k as nat),
                        forall|q: usize| (q < k || last <= q < n) ==> marked_sorted(rec@, q),
                        count_compares(rec@) == c_pass + last,
                        count_swaps(rec@) + inversions(a@) == inversions(input),
                    decreases last - k,
                {
                    rec.mark_sorted(k);
                    k += 1;
                    assert(rec@ =~= r_pass + marked + marks_upto(k as nat));
                }
                assert(rec@ =~= r_pass + bubble_passes(a_pass, pass as int, n as int));
                assert(last <= (n - 1 - pass) * (n - pass) / 2) by (nonlinear_arith)
                    requires
                        last == n - 1 - pass,
                        pass < n - 1,
                ;
                finished_early = true;
                break;
            }
            assert(rec@ + bubble_passes(a@, pass + 1, n as int) =~= r_pass + bubble_passes(
                a_pass,
                pass as int,
                n as int,
            ));
            assert((n - 1 - pass) * (n - pass) / 2 == last + (n - 1 - (pass + 1)) * (n - (pass + 1)) / 2)
                by (nonlinear_arith)
                requires
                    last == n - 1 - pass,
                    pass < n - 1,
            ;
            pass += 1;
        }

        if !finished_early {
            assert((n - 1 - pass) * (n - pass) == 0) by (nonlinear_arith)
                requires
                    pass == n - 1,
            ;
            rec.mark_sorted(0);
        }
        let ghost recorded = rec@;
        let events = rec.finish();
        proof {
            lemma_finished_run(input, recorded, a@);
            lemma_bubble_swaps_follow_compares(input);
            lemma_bubble_stops_after_swapless_pass(input);
            lemma_sorted_no_inversions(a@);
            assert(events@ =~= bubble_events(values@));
        }
        events
    }
}

} // verus!
