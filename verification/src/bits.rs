//! Strings of markers, and the rule that leads from one string to the next.
//!
//! A string is a `Seq<bool>`: `true` is a selected marker, `false` an
//! unselected one. Position 0 is the head of the chain.

use vstd::prelude::*;

verus! {

/// The length of the run of markers equal to `val` that starts at `from`.
pub open spec fn run(w: Seq<bool>, from: int, val: bool) -> nat
    decreases w.len() - from,
{
    if 0 <= from < w.len() && w[from] == val {
        1 + run(w, from + 1, val)
    } else {
        0
    }
}

/// The number of selected markers at the head of the string.
pub open spec fn leading_ones(w: Seq<bool>) -> nat {
    run(w, 0, true)
}

/// The position of the pivot: the first selected marker that follows an
/// unselected one, or, where there is none, the last of the selected markers
/// at the head.
pub open spec fn pivot(w: Seq<bool>) -> int {
    let a = leading_ones(w);
    let b = run(w, a as int, false);
    if a + b < w.len() {
        (a + b) as int
    } else {
        a - 1
    }
}

/// Whether the pivot has a marker behind it, so that another string follows.
pub open spec fn has_successor(w: Seq<bool>) -> bool {
    pivot(w) + 1 < w.len()
}

/// The next string: the marker behind the pivot moves to the head.
pub open spec fn successor(w: Seq<bool>) -> Seq<bool> {
    let p = pivot(w);
    seq![w[p + 1]] + w.take(p + 1) + w.skip(p + 2)
}

/// The number of selected markers.
pub open spec fn count_ones(w: Seq<bool>) -> nat
    decreases w.len(),
{
    if w.len() == 0 {
        0
    } else {
        count_ones(w.drop_last()) + if w.last() { 1nat } else { 0nat }
    }
}

/// The positions of the selected markers from `from` on, in ascending order.
pub open spec fn selected_from(w: Seq<bool>, from: int) -> Seq<int>
    decreases w.len() - from,
{
    if from < 0 || from >= w.len() {
        Seq::empty()
    } else if w[from] {
        seq![from] + selected_from(w, from + 1)
    } else {
        selected_from(w, from + 1)
    }
}

/// The positions of all selected markers, in ascending order.
pub open spec fn selected(w: Seq<bool>) -> Seq<int> {
    selected_from(w, 0)
}

/// The set of the positions of the selected markers.
pub open spec fn selected_set(w: Seq<bool>) -> Set<int> {
    Set::new(|p: int| 0 <= p < w.len() && w[p])
}

/// The text of a string: `1` for a selected marker, `0` for an unselected
/// one, from the head on.
pub open spec fn rendering(w: Seq<bool>) -> Seq<char> {
    Seq::new(w.len(), |i: int| if w[i] { '1' } else { '0' })
}

/// The positions that are selected in `w` and not in `v`.
pub open spec fn left(w: Seq<bool>, v: Seq<bool>) -> Set<int> {
    selected_set(w).difference(selected_set(v))
}

/// The positions that are selected in one of two strings and not in the
/// other.
pub open spec fn changed(w: Seq<bool>, v: Seq<bool>) -> Set<int> {
    left(w, v).union(left(v, w))
}

/// Whether the step from `w` moves an unselected marker from behind the pivot
/// to the head while selected markers stand at the head and unselected ones
/// before the pivot. Such a step shifts both the selected markers at the head
/// and the pivot by one place.
pub open spec fn shifts_two(w: Seq<bool>) -> bool {
    1 <= leading_ones(w) <= pivot(w) && !w[pivot(w) + 1]
}

/// `w` begins with `a` selected markers, goes on with unselected ones, and has
/// its next selected marker at `p`.
pub open spec fn rises_at(w: Seq<bool>, a: int, p: int) -> bool {
    &&& 0 <= a < p < w.len()
    &&& forall|i: int| 0 <= i < a ==> w[i]
    &&& forall|i: int| a <= i < p ==> !w[i]
    &&& w[p]
}

/// `w` is `a` selected markers and then unselected ones only.
pub open spec fn flat_at(w: Seq<bool>, a: int) -> bool {
    &&& 1 <= a <= w.len()
    &&& forall|i: int| 0 <= i < a ==> w[i]
    &&& forall|i: int| a <= i < w.len() ==> !w[i]
}

/// A run ends at the end of the string or at a marker of the other kind.
pub proof fn lemma_run_props(w: Seq<bool>, from: int, val: bool)
    requires
        0 <= from <= w.len(),
    ensures
        from + run(w, from, val) <= w.len(),
        forall|i: int| from <= i < from + run(w, from, val) ==> w[i] == val,
        from + run(w, from, val) < w.len() ==> w[from + run(w, from, val)] != val,
    decreases w.len() - from,
{
    if from < w.len() && w[from] == val {
        lemma_run_props(w, from + 1, val);
    }
}

/// A stretch of equal markers that cannot be extended is the run.
pub proof fn lemma_run_is(w: Seq<bool>, from: int, val: bool, r: nat)
    requires
        0 <= from,
        from + r <= w.len(),
        forall|i: int| from <= i < from + r ==> w[i] == val,
        from + r < w.len() ==> w[from + r] != val,
    ensures
        run(w, from, val) == r,
    decreases r,
{
    if r > 0 {
        lemma_run_is(w, from + 1, val, (r - 1) as nat);
    }
}

/// The pivot of a string that rises at `p`.
pub proof fn lemma_pivot_rise(w: Seq<bool>, a: int, p: int)
    requires
        rises_at(w, a, p),
    ensures
        leading_ones(w) == a,
        pivot(w) == p,
{
    lemma_run_is(w, 0, true, a as nat);
    lemma_run_is(w, a, false, (p - a) as nat);
}

/// The pivot of a string whose selected markers all stand at the head.
pub proof fn lemma_pivot_flat(w: Seq<bool>, a: int)
    requires
        flat_at(w, a),
    ensures
        leading_ones(w) == a,
        pivot(w) == a - 1,
{
    lemma_run_is(w, 0, true, a as nat);
    lemma_run_is(w, a, false, (w.len() - a) as nat);
}

/// A string without a selected marker counts none.
pub proof fn lemma_count_ones_none(w: Seq<bool>)
    requires
        forall|i: int| 0 <= i < w.len() ==> !w[i],
    ensures
        count_ones(w) == 0,
    decreases w.len(),
{
    if w.len() > 0 {
        lemma_count_ones_none(w.drop_last());
    }
}

/// Every string with a selected marker either rises at its pivot or is flat.
pub proof fn lemma_shape(w: Seq<bool>)
    requires
        count_ones(w) >= 1,
    ensures
        0 <= pivot(w) < w.len(),
        w[pivot(w)],
        rises_at(w, leading_ones(w) as int, pivot(w)) || flat_at(w, leading_ones(w) as int),
        flat_at(w, leading_ones(w) as int) <==> pivot(w) < leading_ones(w),
{
    let a = leading_ones(w) as int;
    lemma_run_props(w, 0, true);
    lemma_run_props(w, a, false);
    let b = run(w, a, false) as int;
    if a + b < w.len() {
        assert(rises_at(w, a, a + b));
    } else {
        if a == 0 {
            lemma_count_ones_none(w);
        }
        assert(flat_at(w, a));
    }
}

/// The selected markers of two strings add up when the strings are joined.
pub proof fn lemma_count_ones_concat(u: Seq<bool>, v: Seq<bool>)
    ensures
        count_ones(u + v) == count_ones(u) + count_ones(v),
    decreases v.len(),
{
    if v.len() == 0 {
        assert(u + v =~= u);
    } else {
        assert((u + v).drop_last() =~= u + v.drop_last());
        lemma_count_ones_concat(u, v.drop_last());
    }
}

/// A marker added at the far end is counted if it is selected.
pub proof fn lemma_count_ones_push(w: Seq<bool>, c: bool)
    ensures
        count_ones(w.push(c)) == count_ones(w) + if c { 1nat } else { 0nat },
{
    assert(w.push(c).drop_last() =~= w);
}

/// Moving a marker to the head keeps the length and the number of selected
/// markers.
pub proof fn lemma_successor_count(w: Seq<bool>)
    requires
        count_ones(w) >= 1,
        has_successor(w),
    ensures
        successor(w).len() == w.len(),
        count_ones(successor(w)) == count_ones(w),
{
    lemma_shape(w);
    let p = pivot(w);
    let y = seq![w[p + 1]];
    let front = w.take(p + 1);
    let back = w.skip(p + 2);
    assert(w =~= front + y + back);
    lemma_count_ones_concat(front, y);
    lemma_count_ones_concat(front + y, back);
    lemma_count_ones_concat(y, front);
    lemma_count_ones_concat(y + front, back);
}

/// Where the pivot stands after a step: behind the new head if that is
/// unselected and the old head was selected, otherwise on the marker it
/// stood on before, which is now one place further from the head.
pub proof fn lemma_successor_pivot(w: Seq<bool>)
    requires
        count_ones(w) >= 1,
        has_successor(w),
    ensures
        pivot(successor(w)) == if !w[pivot(w) + 1] && w[0] {
            1
        } else {
            pivot(w) + 1
        },
{
    lemma_shape(w);
    let p = pivot(w);
    let a = leading_ones(w) as int;
    let v = successor(w);
    assert(v.len() == w.len());
    assert(v[0] == w[p + 1]);
    assert(forall|i: int| 1 <= i <= p + 1 ==> v[i] == w[i - 1]);
    if flat_at(w, a) {
        assert(rises_at(v, 0, 1));
        lemma_pivot_rise(v, 0, 1);
    } else if w[p + 1] {
        assert(rises_at(v, a + 1, p + 1));
        lemma_pivot_rise(v, a + 1, p + 1);
    } else if w[0] {
        assert(rises_at(v, 0, 1));
        lemma_pivot_rise(v, 0, 1);
    } else {
        assert(a == 0);
        assert(rises_at(v, 0, p + 1));
        lemma_pivot_rise(v, 0, p + 1);
    }
}

/// A marker added at the far end leaves the pivot where it is, unless the
/// string was flat and the marker is selected.
pub proof fn lemma_push_pivot(w: Seq<bool>, c: bool)
    requires
        count_ones(w) >= 1,
        c ==> pivot(w) >= leading_ones(w),
    ensures
        pivot(w.push(c)) == pivot(w),
        leading_ones(w.push(c)) == leading_ones(w),
{
    lemma_shape(w);
    let p = pivot(w);
    let a = leading_ones(w) as int;
    let v = w.push(c);
    if flat_at(w, a) {
        assert(flat_at(v, a));
        lemma_pivot_flat(v, a);
    } else {
        assert(rises_at(v, a, p));
        lemma_pivot_rise(v, a, p);
    }
}

/// A step that does not reach the far end is not changed by a marker added
/// there.
pub proof fn lemma_push_successor(w: Seq<bool>, c: bool)
    requires
        count_ones(w) >= 1,
        has_successor(w),
        c ==> pivot(w) >= leading_ones(w),
    ensures
        has_successor(w.push(c)),
        successor(w.push(c)) == successor(w).push(c),
{
    lemma_push_pivot(w, c);
    assert(successor(w.push(c)) =~= successor(w).push(c));
}

/// What `selected_from` holds: as many positions as there are selected
/// markers from `from` on, each of them the position of a selected marker, in
/// ascending order, and none left out.
pub proof fn lemma_selected_from(w: Seq<bool>, from: int)
    requires
        0 <= from <= w.len(),
    ensures
        selected_from(w, from).len() + count_ones(w.take(from)) == count_ones(w),
        forall|j: int|
            0 <= j < selected_from(w, from).len() ==> from <= #[trigger] selected_from(w, from)[j]
                < w.len() && w[selected_from(w, from)[j]],
        forall|i: int, j: int|
            0 <= i < j < selected_from(w, from).len() ==> selected_from(w, from)[i]
                < selected_from(w, from)[j],
        forall|p: int| from <= p < w.len() && w[p] ==> selected_from(w, from).contains(p),
    decreases w.len() - from,
{
    let r = selected_from(w, from);
    if from == w.len() {
        assert(w.take(from) =~= w);
    } else {
        lemma_selected_from(w, from + 1);
        let rest = selected_from(w, from + 1);
        assert(w.take(from + 1).drop_last() =~= w.take(from));
        if w[from] {
            assert(r == seq![from] + rest);
            assert(forall|j: int| 1 <= j < r.len() ==> r[j] == rest[j - 1]);
            assert(r[0] == from);
            assert forall|p: int| from <= p < w.len() && w[p] implies r.contains(p) by {
                if p > from {
                    let j = choose|j: int| 0 <= j < rest.len() && rest[j] == p;
                    assert(r[j + 1] == p);
                }
            }
        }
    }
}

/// The positions of the selected markers are as many as the markers.
pub proof fn lemma_selected_len(w: Seq<bool>)
    ensures
        selected(w).len() == count_ones(w),
{
    lemma_selected_from(w, 0);
    assert(w.take(0) =~= Seq::<bool>::empty());
}

/// A position is listed if and only if its marker is selected.
pub proof fn lemma_selected_contains(w: Seq<bool>, p: int)
    ensures
        selected(w).contains(p) <==> selected_set(w).contains(p),
{
    lemma_selected_from(w, 0);
}

/// There are no more selected markers than markers. Where none is selected
/// all are unselected, and where as many are selected as there are, all are.
pub proof fn lemma_count_ones_bound(w: Seq<bool>)
    ensures
        count_ones(w) <= w.len(),
        count_ones(w) == 0 ==> forall|i: int| 0 <= i < w.len() ==> !w[i],
        count_ones(w) == w.len() ==> forall|i: int| 0 <= i < w.len() ==> w[i],
    decreases w.len(),
{
    if w.len() > 0 {
        lemma_count_ones_bound(w.drop_last());
        assert(forall|i: int| 0 <= i < w.len() - 1 ==> w[i] == w.drop_last()[i]);
    }
}

/// A step that does not shift two groups of selected markers exchanges one
/// selected position for another: one leaves the combination, one enters it.
pub proof fn lemma_minimal_change(w: Seq<bool>)
    requires
        count_ones(w) >= 1,
        has_successor(w),
        !shifts_two(w),
    ensures
        changed(w, successor(w)).finite(),
        changed(w, successor(w)).len() == 2,
        left(w, successor(w)).len() == 1,
        left(successor(w), w).len() == 1,
{
    lemma_shape(w);
    let p = pivot(w);
    let a = leading_ones(w) as int;
    let v = successor(w);
    assert(v.len() == w.len());
    assert(v[0] == w[p + 1]);
    assert(forall|i: int| 1 <= i <= p + 1 ==> v[i] == w[i - 1]);
    assert(forall|i: int| p + 2 <= i < w.len() ==> v[i] == w[i]);
    if flat_at(w, a) {
        assert(left(w, v) =~= set![0int]);
        assert(left(v, w) =~= set![a]);
        assert(changed(w, v) =~= set![0int, a]);
    } else if w[p + 1] {
        assert(left(w, v) =~= set![p]);
        assert(left(v, w) =~= set![a]);
        assert(changed(w, v) =~= set![a, p]);
    } else {
        assert(a == 0);
        assert(left(w, v) =~= set![p]);
        assert(left(v, w) =~= set![p + 1]);
        assert(changed(w, v) =~= set![p, p + 1]);
    }
}

/// A step that shifts two groups of selected markers exchanges two selected
/// positions for two others.
pub proof fn lemma_double_change(w: Seq<bool>)
    requires
        count_ones(w) >= 1,
        has_successor(w),
        shifts_two(w),
    ensures
        changed(w, successor(w)).finite(),
        changed(w, successor(w)).len() == 4,
{
    lemma_shape(w);
    let p = pivot(w);
    let a = leading_ones(w) as int;
    let v = successor(w);
    let d = changed(w, v);
    assert(v.len() == w.len());
    assert(v[0] == w[p + 1]);
    assert(forall|i: int| 1 <= i <= p + 1 ==> v[i] == w[i - 1]);
    assert(forall|i: int| p + 2 <= i < w.len() ==> v[i] == w[i]);
    assert(d =~= set![0int, a, p, p + 1]);
}

} // verus!
