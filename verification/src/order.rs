//! Cool-lex order as a whole: which string stands at which place, and what
//! holds of the list.
//!
//! The strings of `s` unselected and `t` selected markers are listed by
//! recursion on their last marker. First come the strings that end unselected,
//! in the order of the strings of `s - 1` and `t`. Then come those that end
//! selected, in the order of the strings of `s` and `t - 1`, except that the
//! first of these is moved to the end.

use vstd::prelude::*;
use crate::binomial::{binomial, lemma_binomial_full, lemma_binomial_positive};
use crate::bits::{
    changed, count_ones, flat_at, has_successor, leading_ones, left, lemma_count_ones_bound,
    lemma_count_ones_push, lemma_double_change, lemma_minimal_change, lemma_pivot_flat,
    lemma_pivot_rise, lemma_push_pivot, lemma_push_successor, lemma_selected_contains,
    lemma_selected_from, lemma_selected_len, pivot, rises_at, selected, shifts_two, successor,
};

verus! {

/// The number of strings of `s` unselected and `t` selected markers.
pub open spec fn total(s: nat, t: nat) -> nat {
    binomial(s + t, t)
}

/// The first string: all selected markers at the head.
pub open spec fn first(s: nat, t: nat) -> Seq<bool> {
    Seq::new(s + t, |i: int| i < t)
}

/// The last string: one selected marker at the far end, the others at the
/// head.
pub open spec fn last(s: nat, t: nat) -> Seq<bool> {
    Seq::new(s + t, |i: int| i < t - 1 || i == s + t - 1)
}

/// The string at place `i` of the order, counted from 0.
pub open spec fn nth(s: nat, t: nat, i: nat) -> Seq<bool>
    decreases s + t,
{
    if s == 0 || t == 0 || i == 0 {
        first(s, t)
    } else if i < total((s - 1) as nat, t) {
        nth((s - 1) as nat, t, i).push(false)
    } else if i + 1 < total(s, t) {
        nth(s, (t - 1) as nat, (i + 1 - total((s - 1) as nat, t)) as nat).push(true)
    } else {
        last(s, t)
    }
}

/// With markers of one kind only there is one string.
pub proof fn lemma_total_one(s: nat, t: nat)
    requires
        s == 0 || t == 0,
    ensures
        total(s, t) == 1,
{
    lemma_binomial_full(t);
}

/// With markers of both kinds, the strings are those that end unselected and
/// those that end selected, and there are some of each.
pub proof fn lemma_total_split(s: nat, t: nat)
    requires
        s >= 1,
        t >= 1,
    ensures
        total(s, t) == total((s - 1) as nat, t) + total(s, (t - 1) as nat),
        total((s - 1) as nat, t) >= 1,
        total(s, (t - 1) as nat) >= 1,
        t >= 2 ==> total(s, (t - 1) as nat) >= 2,
{
    lemma_binomial_positive((s + t - 1) as nat, t);
    lemma_binomial_positive((s + t - 1) as nat, (t - 1) as nat);
    if t >= 2 {
        lemma_binomial_positive((s + t - 2) as nat, (t - 1) as nat);
        lemma_binomial_positive((s + t - 2) as nat, (t - 2) as nat);
    }
}

/// The first string has `t` selected markers.
pub proof fn lemma_first_count(s: nat, t: nat)
    ensures
        count_ones(first(s, t)) == t,
    decreases s + t,
{
    if s > 0 {
        lemma_first_count((s - 1) as nat, t);
        assert(first(s, t) =~= first((s - 1) as nat, t).push(false));
        lemma_count_ones_push(first((s - 1) as nat, t), false);
    } else if t > 0 {
        lemma_first_count(s, (t - 1) as nat);
        assert(first(s, t) =~= first(s, (t - 1) as nat).push(true));
        lemma_count_ones_push(first(s, (t - 1) as nat), true);
    }
}

/// The last string has `t` selected markers.
pub proof fn lemma_last_count(s: nat, t: nat)
    requires
        t >= 1,
    ensures
        count_ones(last(s, t)) == t,
{
    lemma_first_count(s, (t - 1) as nat);
    assert(last(s, t) =~= first(s, (t - 1) as nat).push(true));
    lemma_count_ones_push(first(s, (t - 1) as nat), true);
}

/// Every string of the order has `s + t` markers, `t` of them selected.
pub proof fn lemma_nth_shape(s: nat, t: nat, i: nat)
    ensures
        nth(s, t, i).len() == s + t,
        count_ones(nth(s, t, i)) == t,
    decreases s + t,
{
    if s == 0 || t == 0 || i == 0 {
        lemma_first_count(s, t);
    } else if i < total((s - 1) as nat, t) {
        lemma_nth_shape((s - 1) as nat, t, i);
        lemma_count_ones_push(nth((s - 1) as nat, t, i), false);
    } else if i + 1 < total(s, t) {
        let j = (i + 1 - total((s - 1) as nat, t)) as nat;
        lemma_nth_shape(s, (t - 1) as nat, j);
        lemma_count_ones_push(nth(s, (t - 1) as nat, j), true);
    } else {
        lemma_last_count(s, t);
    }
}

/// The string at the last place is the last string.
pub proof fn lemma_nth_last(s: nat, t: nat)
    requires
        t >= 1,
    ensures
        total(s, t) >= 1,
        nth(s, t, (total(s, t) - 1) as nat) == last(s, t),
{
    if s == 0 {
        lemma_total_one(s, t);
        assert(first(s, t) =~= last(s, t));
    } else {
        lemma_total_split(s, t);
    }
}

/// Every string but the first has a selected marker behind an unselected
/// one.
pub proof fn lemma_nth_rise(s: nat, t: nat, i: nat)
    requires
        t >= 1,
        1 <= i < total(s, t),
    ensures
        pivot(nth(s, t, i)) >= leading_ones(nth(s, t, i)),
    decreases s + t,
{
    if s == 0 {
        lemma_total_one(s, t);
    } else {
        let s1 = (s - 1) as nat;
        let t1 = (t - 1) as nat;
        lemma_total_split(s, t);
        if i < total(s1, t) {
            lemma_nth_rise(s1, t, i);
            lemma_nth_shape(s1, t, i);
            lemma_push_pivot(nth(s1, t, i), false);
        } else if i + 1 < total(s, t) {
            let j = (i + 1 - total(s1, t)) as nat;
            if t1 == 0 {
                lemma_total_one(s, t1);
            }
            lemma_nth_rise(s, t1, j);
            lemma_nth_shape(s, t1, j);
            lemma_push_pivot(nth(s, t1, j), true);
        } else {
            let w = last(s, t);
            assert(rises_at(w, t - 1, s + t - 1));
            lemma_pivot_rise(w, t - 1, s + t - 1);
        }
    }
}

/// Each string of the order but the last has a successor, and that is the
/// string at the next place.
pub proof fn lemma_nth_step(s: nat, t: nat, i: nat)
    requires
        t >= 1,
        i + 1 < total(s, t),
    ensures
        has_successor(nth(s, t, i)),
        successor(nth(s, t, i)) == nth(s, t, i + 1),
    decreases s + t,
{
    if s == 0 {
        lemma_total_one(s, t);
    } else {
        let s1 = (s - 1) as nat;
        let t1 = (t - 1) as nat;
        let na = total(s1, t);
        let nb = total(s, t1);
        lemma_total_split(s, t);
        if t1 == 0 {
            lemma_total_one(s, t1);
        }
        let w = nth(s, t, i);
        if i + 1 < na {
            let u = nth(s1, t, i);
            lemma_nth_step(s1, t, i);
            lemma_nth_shape(s1, t, i);
            assert(w =~= u.push(false));
            lemma_push_successor(u, false);
        } else if i + 1 == na {
            lemma_nth_last(s1, t);
            assert(w =~= last(s1, t).push(false));
            if s1 >= 1 {
                assert(rises_at(w, t - 1, s + t - 2));
                lemma_pivot_rise(w, t - 1, s + t - 2);
            } else {
                assert(flat_at(w, t as int));
                lemma_pivot_flat(w, t as int);
            }
            let v = successor(w);
            if nb >= 2 {
                lemma_nth_step(s, t1, 0);
                assert(flat_at(first(s, t1), t1 as int));
                lemma_pivot_flat(first(s, t1), t1 as int);
                assert(v =~= successor(first(s, t1)).push(true));
            } else {
                assert(v =~= last(s, t));
            }
        } else if i + 2 < total(s, t) {
            let j = (i + 1 - na) as nat;
            let u = nth(s, t1, j);
            lemma_nth_step(s, t1, j);
            lemma_nth_shape(s, t1, j);
            lemma_nth_rise(s, t1, j);
            lemma_push_successor(u, true);
        } else {
            lemma_nth_last(s, t1);
            assert(w =~= last(s, t1).push(true));
            assert(rises_at(w, t1 - 1, s + t - 2));
            lemma_pivot_rise(w, t1 - 1, s + t - 2);
            assert(successor(w) =~= last(s, t));
        }
    }
}

/// The last string of the order has no successor.
pub proof fn lemma_nth_end(s: nat, t: nat)
    requires
        t >= 1,
    ensures
        !has_successor(nth(s, t, (total(s, t) - 1) as nat)),
{
    lemma_nth_last(s, t);
    let w = last(s, t);
    if s == 0 {
        assert(flat_at(w, t as int));
        lemma_pivot_flat(w, t as int);
    } else {
        assert(rises_at(w, t - 1, s + t - 1));
        lemma_pivot_rise(w, t - 1, s + t - 1);
    }
}

/// How a string of the order is made from a string of a shorter order: by a
/// marker added at the far end.
pub proof fn lemma_nth_unfold(s: nat, t: nat, i: nat)
    requires
        s >= 1,
        t >= 1,
        i < total(s, t),
    ensures
        i < total((s - 1) as nat, t) ==> nth(s, t, i) == nth((s - 1) as nat, t, i).push(false),
        total((s - 1) as nat, t) <= i && i + 1 < total(s, t) ==> nth(s, t, i) == nth(
            s,
            (t - 1) as nat,
            (i + 1 - total((s - 1) as nat, t)) as nat,
        ).push(true),
        i + 1 == total(s, t) ==> nth(s, t, i) == nth(s, (t - 1) as nat, 0).push(true),
{
    lemma_total_split(s, t);
    assert(first(s, t) =~= first((s - 1) as nat, t).push(false));
    assert(last(s, t) =~= first(s, (t - 1) as nat).push(true));
}

/// No string stands at two places of the order.
pub proof fn lemma_nth_distinct(s: nat, t: nat, i: nat, j: nat)
    requires
        i < j < total(s, t),
    ensures
        nth(s, t, i) != nth(s, t, j),
    decreases s + t,
{
    if s == 0 || t == 0 {
        lemma_total_one(s, t);
    } else {
        let s1 = (s - 1) as nat;
        let t1 = (t - 1) as nat;
        let na = total(s1, t);
        lemma_total_split(s, t);
        lemma_nth_unfold(s, t, i);
        lemma_nth_unfold(s, t, j);
        if j < na {
            lemma_nth_distinct(s1, t, i, j);
            assert(nth(s1, t, i).push(false).drop_last() =~= nth(s1, t, i));
            assert(nth(s1, t, j).push(false).drop_last() =~= nth(s1, t, j));
        } else if i < na {
            assert(nth(s, t, i).last() != nth(s, t, j).last());
        } else {
            let a = (i + 1 - na) as nat;
            let b = if j + 1 < total(s, t) {
                (j + 1 - na) as nat
            } else {
                0
            };
            if a < b {
                lemma_nth_distinct(s, t1, a, b);
            } else {
                lemma_nth_distinct(s, t1, b, a);
            }
            assert(nth(s, t1, a).push(true).drop_last() =~= nth(s, t1, a));
            assert(nth(s, t1, b).push(true).drop_last() =~= nth(s, t1, b));
        }
    }
}

/// Every combination lists exactly `t` positions.
pub proof fn lemma_combination_size(s: nat, t: nat, i: nat)
    ensures
        selected(nth(s, t, i)).len() == t,
{
    lemma_nth_shape(s, t, i);
    lemma_selected_len(nth(s, t, i));
}

/// The positions that a combination lists lie in `0..s + t`, and no two of
/// them are equal.
pub proof fn lemma_combination_distinct(s: nat, t: nat, i: nat)
    ensures
        forall|a: int|
            0 <= a < selected(nth(s, t, i)).len() ==> 0 <= #[trigger] selected(nth(s, t, i))[a] < s
                + t,
        forall|a: int, b: int|
            0 <= a < selected(nth(s, t, i)).len() && 0 <= b < selected(nth(s, t, i)).len() && a
                != b ==> selected(nth(s, t, i))[a] != selected(nth(s, t, i))[b],
{
    lemma_nth_shape(s, t, i);
    lemma_selected_from(nth(s, t, i), 0);
    let r = selected(nth(s, t, i));
    assert forall|a: int, b: int| 0 <= a < r.len() && 0 <= b < r.len() && a != b implies r[a]
        != r[b] by {
        if a < b {
            assert(r[a] < r[b]);
        } else {
            assert(r[b] < r[a]);
        }
    }
}

/// A combination lists its positions in strictly ascending order.
pub proof fn lemma_combination_ascending(s: nat, t: nat, i: nat)
    ensures
        forall|a: int, b: int|
            0 <= a < b < selected(nth(s, t, i)).len() ==> selected(nth(s, t, i))[a] < selected(
                nth(s, t, i),
            )[b],
{
    lemma_selected_from(nth(s, t, i), 0);
}

/// The number of combinations at the places below `m` that list position `p`.
pub open spec fn hits(s: nat, t: nat, p: int, m: nat) -> nat
    decreases m,
{
    if m == 0 {
        0
    } else {
        hits(s, t, p, (m - 1) as nat) + if selected(nth(s, t, (m - 1) as nat)).contains(p) {
            1nat
        } else {
            0nat
        }
    }
}

/// Among the strings that end unselected, a position is listed as often as
/// in the order of the strings one marker shorter.
proof fn lemma_hits_front(s: nat, t: nat, p: int, m: nat)
    requires
        s >= 1,
        t >= 1,
        0 <= p < s + t,
        m <= total((s - 1) as nat, t),
    ensures
        hits(s, t, p, m) == if p < s + t - 1 {
            hits((s - 1) as nat, t, p, m)
        } else {
            0
        },
    decreases m,
{
    if m > 0 {
        let i = (m - 1) as nat;
        let s1 = (s - 1) as nat;
        lemma_hits_front(s, t, p, i);
        lemma_total_split(s, t);
        lemma_nth_unfold(s, t, i);
        lemma_nth_shape(s1, t, i);
        lemma_selected_contains(nth(s, t, i), p);
        lemma_selected_contains(nth(s1, t, i), p);
    }
}

/// Among the strings that end selected, the last one left aside, a position
/// is listed as often as in the order of the strings one marker shorter, its
/// first string left aside.
proof fn lemma_hits_back(s: nat, t: nat, p: int, m: nat)
    requires
        s >= 1,
        t >= 1,
        0 <= p < s + t,
        total((s - 1) as nat, t) <= m < total(s, t),
    ensures
        hits(s, t, p, m) + (if p < s + t - 1 {
            hits(s, (t - 1) as nat, p, 1)
        } else {
            0
        }) == hits(s, t, p, total((s - 1) as nat, t)) + if p < s + t - 1 {
            hits(s, (t - 1) as nat, p, (m + 1 - total((s - 1) as nat, t)) as nat)
        } else {
            (m - total((s - 1) as nat, t)) as nat
        },
    decreases m,
{
    let t1 = (t - 1) as nat;
    let na = total((s - 1) as nat, t);
    if m > na {
        let i = (m - 1) as nat;
        let j = (m - na) as nat;
        lemma_hits_back(s, t, p, i);
        lemma_nth_unfold(s, t, i);
        lemma_nth_shape(s, t1, j);
        lemma_selected_contains(nth(s, t, i), p);
        lemma_selected_contains(nth(s, t1, j), p);
        assert(hits(s, t1, p, j + 1) == hits(s, t1, p, j) + if selected(nth(s, t1, j)).contains(
            p,
        ) {
            1nat
        } else {
            0nat
        });
    }
}

/// Every position is listed by as many combinations as there are ways to
/// choose the other `t - 1` positions from the other `s + t - 1`.
pub proof fn lemma_coverage(s: nat, t: nat, p: int)
    requires
        t >= 1,
        0 <= p < s + t,
    ensures
        hits(s, t, p, total(s, t)) == binomial((s + t - 1) as nat, (t - 1) as nat),
    decreases s + t,
{
    if s == 0 {
        lemma_total_one(s, t);
        lemma_binomial_full((t - 1) as nat);
        lemma_selected_contains(nth(s, t, 0), p);
        assert(hits(s, t, p, 1) == hits(s, t, p, 0) + 1);
    } else {
        let s1 = (s - 1) as nat;
        let t1 = (t - 1) as nat;
        let na = total(s1, t);
        let nb = total(s, t1);
        let m = (total(s, t) - 1) as nat;
        lemma_total_split(s, t);
        lemma_hits_front(s, t, p, na);
        lemma_hits_back(s, t, p, m);
        lemma_nth_unfold(s, t, m);
        lemma_nth_shape(s, t1, 0);
        lemma_selected_contains(nth(s, t, m), p);
        lemma_selected_contains(nth(s, t1, 0), p);
        assert(hits(s, t1, p, 1) == hits(s, t1, p, 0) + if selected(nth(s, t1, 0)).contains(p) {
            1nat
        } else {
            0nat
        });
        if p < s + t - 1 {
            lemma_coverage(s1, t, p);
            if t1 >= 1 {
                lemma_coverage(s, t1, p);
            } else {
                lemma_total_one(s, t1);
            }
        }
    }
}

/// The place at which a string stands in the order of the strings of its
/// length and number of selected markers.
pub open spec fn place(w: Seq<bool>) -> nat
    decreases w.len(),
{
    let t = count_ones(w);
    let s = (w.len() - t) as nat;
    if s == 0 || t == 0 || w == first(s, t) {
        0
    } else if !w.last() {
        place(w.drop_last())
    } else {
        let r = place(w.drop_last());
        if r == 0 {
            (total(s, t) - 1) as nat
        } else {
            (total((s - 1) as nat, t) + r - 1) as nat
        }
    }
}

/// Every string stands in the order of the strings of its length and number
/// of selected markers: none is left out.
pub proof fn lemma_place(w: Seq<bool>)
    ensures
        count_ones(w) <= w.len(),
        place(w) < total((w.len() - count_ones(w)) as nat, count_ones(w)),
        nth((w.len() - count_ones(w)) as nat, count_ones(w), place(w)) == w,
    decreases w.len(),
{
    lemma_count_ones_bound(w);
    let t = count_ones(w);
    let s = (w.len() - t) as nat;
    if s == 0 || t == 0 {
        lemma_total_one(s, t);
        assert(w =~= first(s, t));
    } else {
        lemma_total_split(s, t);
        let u = w.drop_last();
        let s1 = (s - 1) as nat;
        let t1 = (t - 1) as nat;
        assert(w =~= u.push(w.last()));
        lemma_count_ones_bound(u);
        lemma_place(u);
        let r = place(u);
        if w == first(s, t) {
        } else if !w.last() {
            if r == 0 {
                assert(first(s, t) =~= first(s1, t).push(false));
            }
        } else {
            if r == 0 {
                lemma_nth_last(s, t);
                assert(last(s, t) =~= first(s, t1).push(true));
            }
        }
    }
}

/// From one combination to the next, one position leaves and one enters,
/// unless the step shifts two groups of selected markers.
pub proof fn lemma_consecutive_change(s: nat, t: nat, i: nat)
    requires
        t >= 1,
        i + 1 < total(s, t),
        !shifts_two(nth(s, t, i)),
    ensures
        changed(nth(s, t, i), nth(s, t, i + 1)).finite(),
        changed(nth(s, t, i), nth(s, t, i + 1)).len() == 2,
        left(nth(s, t, i), nth(s, t, i + 1)).len() == 1,
        left(nth(s, t, i + 1), nth(s, t, i)).len() == 1,
{
    lemma_nth_step(s, t, i);
    lemma_nth_shape(s, t, i);
    lemma_minimal_change(nth(s, t, i));
}

/// Where a step shifts two groups of selected markers, two positions leave
/// the combination and two enter.
pub proof fn lemma_consecutive_double_change(s: nat, t: nat, i: nat)
    requires
        t >= 1,
        i + 1 < total(s, t),
        shifts_two(nth(s, t, i)),
    ensures
        changed(nth(s, t, i), nth(s, t, i + 1)).finite(),
        changed(nth(s, t, i), nth(s, t, i + 1)).len() == 4,
{
    lemma_nth_step(s, t, i);
    lemma_nth_shape(s, t, i);
    lemma_double_change(nth(s, t, i));
}

} // verus!
