//! Facts about sequences of values that the sorting proofs share: swaps and
//! in-range rearrangements keep the multiset of values.

use vstd::prelude::*;

use crate::simulation::array_state::{is_sorted_seq, swapped};

verus! {

/// Writing `x` at `i` removes one `s[i]` from the multiset and adds one `x`.
pub proof fn lemma_update_multiset(s: Seq<u32>, i: int, x: u32)
    requires
        0 <= i < s.len(),
    ensures
        s.update(i, x).to_multiset() == s.to_multiset().remove(s[i]).insert(x),
{
    let t = s.update(i, x);
    assert(t.remove(i) =~= s.remove(i));
    s.to_multiset_ensures();
    t.to_multiset_ensures();
    assert(t.to_multiset().count(x) > 0) by {
        assert(t[i] == x);
    }
    assert(s.to_multiset().count(s[i]) > 0) by {
        assert(s.contains(s[i]));
    }
    assert(t.to_multiset() =~= t.remove(i).to_multiset().insert(x));
    assert(s.to_multiset() =~= s.remove(i).to_multiset().insert(s[i]));
    assert(s.to_multiset().remove(s[i]) =~= s.remove(i).to_multiset());
}

/// Exchanging two elements keeps the multiset of values.
pub proof fn lemma_swap_multiset(s: Seq<u32>, i: int, j: int)
    requires
        0 <= i < s.len(),
        0 <= j < s.len(),
    ensures
        swapped(s, i, j).to_multiset() == s.to_multiset(),
        swapped(s, i, j).len() == s.len(),
{
    if i == j {
        assert(swapped(s, i, j) =~= s);
    } else {
        let u = s.update(i, s[j]);
        lemma_update_multiset(s, i, s[j]);
        lemma_update_multiset(u, j, s[i]);
        assert(u[j] == s[j]);
        s.to_multiset_ensures();
        assert(s.to_multiset().count(s[i]) > 0) by {
            assert(s.contains(s[i]));
        }
        assert(s.to_multiset().remove(s[i]).insert(s[j]).remove(s[j]).insert(s[i])
            =~= s.to_multiset());
    }
}

/// `x` occurs in `s` somewhere between `lo` (inclusive) and `hi` (exclusive).
pub open spec fn occurs_between(s: Seq<u32>, lo: int, hi: int, x: u32) -> bool {
    exists|m: int| lo <= m < hi && s[m] == x
}

/// Every element of `t` between `lo` and `hi` is an element of `s` from the
/// same range.
pub open spec fn drawn_from(t: Seq<u32>, s: Seq<u32>, lo: int, hi: int) -> bool {
    forall|k: int| lo <= k < hi ==> occurs_between(s, lo, hi, #[trigger] t[k])
}

/// A sequence is drawn from itself.
pub proof fn lemma_drawn_from_refl(s: Seq<u32>, lo: int, hi: int)
    ensures
        drawn_from(s, s, lo, hi),
{
    assert forall|k: int| lo <= k < hi implies occurs_between(s, lo, hi, #[trigger] s[k]) by {
        assert(s[k] == s[k]);
    }
}

/// Drawing is transitive.
pub proof fn lemma_drawn_from_trans(u: Seq<u32>, t: Seq<u32>, s: Seq<u32>, lo: int, hi: int)
    requires
        drawn_from(u, t, lo, hi),
        drawn_from(t, s, lo, hi),
    ensures
        drawn_from(u, s, lo, hi),
{
    assert forall|k: int| lo <= k < hi implies occurs_between(s, lo, hi, #[trigger] u[k]) by {
        let m = choose|m: int| lo <= m < hi && t[m] == u[k];
        assert(occurs_between(s, lo, hi, t[m]));
    }
}

/// Exchanging two elements inside the range keeps the range drawn from `s`.
pub proof fn lemma_drawn_from_swap(t: Seq<u32>, s: Seq<u32>, lo: int, hi: int, i: int, j: int)
    requires
        drawn_from(t, s, lo, hi),
        0 <= lo <= i < hi,
        lo <= j < hi,
        hi <= t.len(),
    ensures
        drawn_from(swapped(t, i, j), s, lo, hi),
{
    let w = swapped(t, i, j);
    assert forall|k: int| lo <= k < hi implies occurs_between(s, lo, hi, #[trigger] w[k]) by {
        if k == j {
            assert(w[k] == t[i]);
        } else if k == i {
            assert(w[k] == t[j]);
        } else {
            assert(w[k] == t[k]);
        }
    }
}

/// The last element of a non-empty sorted sequence is its largest.
proof fn lemma_sorted_last_is_max(s: Seq<u32>, x: u32)
    requires
        is_sorted_seq(s),
        s.len() > 0,
        s.to_multiset().count(x) > 0,
    ensures
        x <= s.last(),
{
    s.to_multiset_ensures();
    assert(s.contains(x));
    let k = choose|k: int| 0 <= k < s.len() && s[k] == x;
    if k < s.len() - 1 {
        assert(s[k] <= s[s.len() - 1]);
    }
}

/// Sorting has one outcome: two sorted sequences that hold the same multiset
/// of values are equal.
pub proof fn lemma_sorted_permutation_unique(s: Seq<u32>, t: Seq<u32>)
    requires
        is_sorted_seq(s),
        is_sorted_seq(t),
        s.to_multiset() == t.to_multiset(),
    ensures
        s == t,
    decreases s.len(),
{
    s.to_multiset_ensures();
    t.to_multiset_ensures();
    assert(s.len() == t.len());
    if s.len() == 0 {
        assert(s =~= t);
    } else {
        let sl = s.last();
        let tl = t.last();
        assert(s.to_multiset().count(sl) > 0) by {
            assert(s.contains(sl)) by {
                assert(s[s.len() - 1] == sl);
            }
        }
        assert(t.to_multiset().count(tl) > 0) by {
            assert(t.contains(tl)) by {
                assert(t[t.len() - 1] == tl);
            }
        }
        lemma_sorted_last_is_max(t, sl);
        lemma_sorted_last_is_max(s, tl);
        let sp = s.drop_last();
        let tp = t.drop_last();
        assert(sp.push(sl) =~= s);
        assert(tp.push(tl) =~= t);
        sp.to_multiset_ensures();
        tp.to_multiset_ensures();
        assert(sp.to_multiset() =~= s.to_multiset().remove(sl));
        assert(tp.to_multiset() =~= t.to_multiset().remove(tl));
        lemma_sorted_permutation_unique(sp, tp);
        assert(s =~= t) by {
            assert forall|k: int| 0 <= k < s.len() implies s[k] == t[k] by {
                if k < s.len() - 1 {
                    assert(s[k] == sp[k] && t[k] == tp[k]);
                }
            }
        }
    }
}

} // verus!
