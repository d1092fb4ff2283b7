//! The generator: a chain of markers that is relinked from one combination
//! to the next.
//!
//! The markers live in one vector and never move in it. Each holds the index
//! of the marker behind it, so a step rewrites two such indices and the
//! index of the head.

use vstd::prelude::*;
use vstd::string::StringExecFns;
use crate::binomial::{binomial, lemma_binomial_positive};
use crate::bits::{
    count_ones, flat_at, has_successor, lemma_pivot_flat, lemma_shape, lemma_successor_count,
    lemma_successor_pivot, pivot, rendering, selected, selected_from, successor,
};
use crate::order::{first, lemma_first_count, lemma_nth_end, lemma_nth_step, nth, total};

verus! {

/// An element of the chain.
struct Node {
    /// The marker behind this one, if there is one.
    next: Option<usize>,
    /// Whether this element is selected for the combination.
    val: bool,
}

impl Node {
    fn new(val: bool) -> (node: Node)
        ensures
            node.next is None,
            node.val == val,
    {
        Node { next: None, val }
    }
}

/// The marker behind the one at `at`.
fn next_of(nodes: &Vec<Node>, at: usize) -> (next: Option<usize>)
    requires
        at < nodes.len(),
    ensures
        next == nodes[at as int].next,
{
    nodes[at].next
}

/// Whether the marker at `at` is selected.
fn val_of(nodes: &Vec<Node>, at: usize) -> (val: bool)
    requires
        at < nodes.len(),
    ensures
        val == nodes[at as int].val,
{
    nodes[at].val
}

/// Links the marker at `at` to `next`.
fn set_next_of(nodes: &mut Vec<Node>, at: usize, next: Option<usize>)
    requires
        at < old(nodes).len(),
    ensures
        final(nodes)@ == old(nodes)@.update(
            at as int,
            (Node { next, val: old(nodes)[at as int].val }),
        ),
{
    nodes[at].next = next;
}

/// Adds a marker to the chain, behind the one at `curr`, which was the last.
fn new_node_next_to(nodes: &mut Vec<Node>, curr: usize, val: bool) -> (next: usize)
    requires
        curr < old(nodes).len(),
    ensures
        next == old(nodes).len(),
        final(nodes)@ == old(nodes)@.update(
            curr as int,
            (Node { next: Some(next), val: old(nodes)[curr as int].val }),
        ).push((Node { next: None, val })),
{
    let next: usize = nodes.len();
    nodes.push(Node::new(val));
    set_next_of(nodes, curr, Some(next));
    next
}

/// The state of the generator: the chain, its head and its pivot.
pub struct Algorithm {
    /// The markers, each at the index it was given when the chain was built.
    nodes: Vec<Node>,
    /// The head of the chain.
    b: usize,
    /// The pivot: the marker whose follower moves to the head next.
    x: usize,
    /// The indices of the markers in the order of the chain.
    order: Ghost<Seq<usize>>,
}

impl Algorithm {
    /// The markers in the order of the chain, from the head on.
    pub closed spec fn view(&self) -> Seq<bool> {
        Seq::new(self.nodes@.len(), |i: int| self.nodes@[self.order@[i] as int].val)
    }

    /// The chain holds every marker once, ends behind the last of them, has
    /// a selected marker, and `x` is its pivot.
    pub closed spec fn wf(&self) -> bool {
        let n = self.nodes@.len();
        let ord = self.order@;
        &&& ord.len() == n
        &&& forall|i: int| 0 <= i < n ==> #[trigger] ord[i] < n
        &&& forall|i: int, j: int| 0 <= i < n && 0 <= j < n && i != j ==> ord[i] != ord[j]
        &&& forall|i: int|
            0 <= i < n ==> (#[trigger] self.nodes@[ord[i] as int]).next == if i + 1 < n {
                Some(ord[i + 1])
            } else {
                None
            }
        &&& count_ones(self@) >= 1
        &&& 0 <= pivot(self@) < n
        &&& self.b == ord[0]
        &&& self.x == ord[pivot(self@)]
    }

    /// In a well-formed chain at least one marker is selected, and the pivot
    /// stands on a selected marker.
    pub proof fn lemma_pivot_selected(&self)
        requires
            self.wf(),
        ensures
            count_ones(self@) >= 1,
            0 <= pivot(self@) < self@.len(),
            self@[pivot(self@)],
    {
        lemma_shape(self@);
    }

    /// A chain of `t` selected markers followed by `s` unselected ones: the
    /// first combination of `t` out of `s + t`.
    ///
    /// `s` is the number of unselected markers. `t` is the number of
    /// selected markers and must not be 0.
    pub fn new(s: usize, t: usize) -> (alg: Algorithm)
        requires
            t >= 1,
            s + t <= usize::MAX,
        ensures
            alg.wf(),
            alg@ == first(s as nat, t as nat),
    {
        let mut nodes: Vec<Node> = Vec::new();
        nodes.push(Node::new(true));
        let b: usize = 0;
        let mut x: usize = b;
        for i in 1..t
            invariant
                nodes.len() == i,
                x == i - 1,
                forall|q: int|
                    0 <= q < i ==> (#[trigger] nodes[q]).val && nodes[q].next == if q + 1 < i {
                        Some((q + 1) as usize)
                    } else {
                        None
                    },
        {
            x = new_node_next_to(&mut nodes, x, true);
        }
        let mut last: usize = x;
        for j in 0..s
            invariant
                s + t <= usize::MAX,
                nodes.len() == t + j,
                x == t - 1,
                last == t + j - 1,
                forall|q: int|
                    0 <= q < t + j ==> (#[trigger] nodes[q]).val == (q < t) && nodes[q].next == if q
                        + 1 < t + j {
                        Some((q + 1) as usize)
                    } else {
                        None
                    },
        {
            last = new_node_next_to(&mut nodes, last, false);
        }
        let order = Ghost(Seq::new((s + t) as nat, |i: int| i as usize));
        let alg = Algorithm { nodes, b, x, order };
        proof {
            let w = first(s as nat, t as nat);
            assert(alg@ =~= w);
            lemma_first_count(s as nat, t as nat);
            assert(flat_at(w, t as int));
            lemma_pivot_flat(w, t as int);
        }
        alg
    }

    /// Whether another combination follows the current one.
    pub fn has_more(&self) -> (more: bool)
        requires
            self.wf(),
        ensures
            more == has_successor(self@),
    {
        next_of(&self.nodes, self.x).is_some()
    }

    /// Moves on to the next combination: the marker behind the pivot is
    /// taken out of the chain and put at its head.
    pub fn next_combination(&mut self)
        requires
            old(self).wf(),
            has_successor(old(self)@),
        ensures
            final(self).wf(),
            final(self)@ == successor(old(self)@),
            final(self)@.len() == old(self)@.len(),
            count_ones(final(self)@) == count_ones(old(self)@),
    {
        let ghost w = self@;
        let ghost ord = self.order@;
        let ghost p = pivot(w);
        let y = next_of(&self.nodes, self.x).unwrap();
        let behind = next_of(&self.nodes, y);
        set_next_of(&mut self.nodes, self.x, behind);
        set_next_of(&mut self.nodes, y, Some(self.b));
        self.b = y;
        self.order = Ghost(seq![y] + ord.take(p + 1) + ord.skip(p + 2));
        proof {
            let moved = self.order@;
            assert(moved[0] == ord[p + 1]);
            assert(forall|i: int| 1 <= i <= p + 1 ==> moved[i] == ord[i - 1]);
            assert(forall|i: int| p + 2 <= i < ord.len() ==> moved[i] == ord[i]);
            assert(self@ =~= successor(w));
            lemma_successor_count(w);
            lemma_successor_pivot(w);
            lemma_shape(self@);
        }
        let second = next_of(&self.nodes, self.b).unwrap();
        if !val_of(&self.nodes, self.b) && val_of(&self.nodes, second) {
            self.x = second;
        }
    }

    /// The current combination as text, one character for each marker from
    /// the head on.
    pub fn bit_string(&self) -> (text: String)
        requires
            self.wf(),
        ensures
            text@ == rendering(self@),
    {
        let mut text = String::new();
        let mut curr: usize = self.b;
        let ghost mut i: int = 0;
        loop
            invariant_except_break
                0 <= i < self.nodes@.len(),
                curr == self.order@[i],
                text@ == rendering(self@).take(i),
            invariant
                self.wf(),
            ensures
                text@ == rendering(self@),
            decreases self.nodes@.len() - i,
        {
            let val_to_display = if val_of(&self.nodes, curr) {
                "1"
            } else {
                "0"
            };
            proof {
                reveal_strlit("1");
                reveal_strlit("0");
            }
            text.append(val_to_display);
            proof {
                i = i + 1;
                assert(text@ =~= rendering(self@).take(i));
            }
            match next_of(&self.nodes, curr) {
                Some(next) => {
                    curr = next;
                },
                None => {
                    assert(text@ =~= rendering(self@));
                    break ;
                },
            }
        }
        text
    }
}

/// The positions of the selected markers of one combination, handed out one
/// at a time from the head of the chain on.
pub struct SelInd<'a> {
    alg: &'a Algorithm,
    /// The marker to look at next, if the chain has not ended.
    curr: Option<usize>,
    /// The position of that marker, counted from the head.
    i: usize,
}

impl<'a> SelInd<'a> {
    /// The positions that are still to come, in the order in which they
    /// come.
    pub closed spec fn view(&self) -> Seq<int> {
        selected_from(self.alg@, self.i as int)
    }

    /// The walk stands on a marker of a well-formed chain, or behind its
    /// last.
    pub closed spec fn wf(&self) -> bool {
        &&& self.alg.wf()
        &&& self.i <= self.alg.nodes@.len()
        &&& self.curr == if self.i < self.alg.nodes@.len() {
            Some(self.alg.order@[self.i as int])
        } else {
            None
        }
    }

    fn new(alg: &'a Algorithm) -> (sel: Self)
        requires
            alg.wf(),
        ensures
            sel.wf(),
            sel@ == selected(alg@),
    {
        SelInd { alg, curr: Some(alg.b), i: 0 }
    }

    /// The next selected position, or `None` when all have been handed out.
    pub fn next(&mut self) -> (item: Option<usize>)
        requires
            old(self).wf(),
        ensures
            final(self).wf(),
            old(self)@.len() == 0 ==> item is None && final(self)@ == old(self)@,
            old(self)@.len() > 0 ==> (item matches Some(i) && i == old(self)@[0]),
            old(self)@.len() > 0 ==> final(self)@ == old(self)@.skip(1),
    {
        loop
            invariant
                self.wf(),
                self.alg == old(self).alg,
                self@ == old(self)@,
            decreases self.alg.nodes@.len() - self.i,
        {
            match self.curr {
                None => {
                    return None;
                },
                Some(curr) => {
                    let at: usize = self.i;
                    assert(self.i < self.alg.nodes.len());
                    self.i += 1;
                    self.curr = next_of(&self.alg.nodes, curr);
                    if val_of(&self.alg.nodes, curr) {
                        proof {
                            assert(old(self)@.skip(1) =~= self@);
                        }
                        return Some(at);
                    }
                },
            }
        }
    }
}

/// The combinations of one run, from the first to the last.
pub struct Combinations {
    /// The generator, unless the run is empty.
    alg: Option<Algorithm>,
    /// Whether the first combination has been handed out.
    started: bool,
    /// The number of unselected markers.
    zeros: Ghost<nat>,
    /// The number of selected markers.
    ones: Ghost<nat>,
    /// The number of combinations handed out so far.
    yielded: Ghost<nat>,
}

impl Combinations {
    /// The number of unselected markers in each combination.
    pub closed spec fn zeros(&self) -> nat {
        self.zeros@
    }

    /// The number of selected markers in each combination.
    pub closed spec fn ones(&self) -> nat {
        self.ones@
    }

    /// The number of combinations handed out so far.
    pub closed spec fn yielded(&self) -> nat {
        self.yielded@
    }

    /// The number of combinations of the whole run. A run without selected
    /// markers is empty.
    pub open spec fn total(&self) -> nat {
        if self.ones() == 0 {
            0
        } else {
            total(self.zeros(), self.ones())
        }
    }

    /// The generator stands on the combination handed out last, or on the
    /// first if none has been.
    pub closed spec fn wf(&self) -> bool {
        match self.alg {
            None => self.ones@ == 0 && self.yielded@ == 0,
            Some(alg) => {
                &&& self.ones@ >= 1
                &&& alg.wf()
                &&& self.started == (self.yielded@ >= 1)
                &&& self.yielded@ <= total(self.zeros@, self.ones@)
                &&& alg@ == nth(
                    self.zeros@,
                    self.ones@,
                    if self.started {
                        (self.yielded@ - 1) as nat
                    } else {
                        0
                    },
                )
            },
        }
    }

    /// Hands out the combination on which the generator stands.
    fn iter_first_combination(&self) -> (comb: Option<SelInd<'_>>)
        requires
            self.alg is Some,
            self.alg->0.wf(),
        ensures
            comb matches Some(sel) && sel.wf() && sel@ == selected(self.alg->0@),
    {
        match &self.alg {
            Some(alg) => Some(SelInd::new(alg)),
            None => None,
        }
    }

    /// Moves the generator on, if it can move, and hands out the combination
    /// that it has reached.
    fn iter_next_combination(&mut self) -> (comb: Option<SelInd<'_>>)
        requires
            old(self).wf(),
            old(self).alg is Some,
            old(self).started,
        ensures
            final(self).wf(),
            final(self).zeros() == old(self).zeros(),
            final(self).ones() == old(self).ones(),
            final(self).yielded() <= final(self).total(),
            old(self).yielded() < old(self).total() ==> final(self).yielded() == old(
                self,
            ).yielded() + 1,
            old(self).yielded() < old(self).total() ==> (comb matches Some(sel) && sel.wf() && sel@
                == selected(nth(old(self).zeros(), old(self).ones(), old(self).yielded()))),
            old(self).yielded() >= old(self).total() ==> comb is None && *final(self) == *old(
                self,
            ),
    {
        proof {
            if self.yielded@ < total(self.zeros@, self.ones@) {
                lemma_nth_step(self.zeros@, self.ones@, (self.yielded@ - 1) as nat);
            } else {
                lemma_nth_end(self.zeros@, self.ones@);
            }
        }
        let more = match &self.alg {
            Some(alg) => alg.has_more(),
            None => false,
        };
        if more {
            match &mut self.alg {
                Some(alg) => {
                    alg.next_combination();
                },
                None => {},
            }
            self.yielded = Ghost((self.yielded@ + 1) as nat);
            self.iter_first_combination()
        } else {
            None
        }
    }

    /// Hands out the first combination, on which the generator was built,
    /// and notes that the run has begun.
    fn iter_entry(&mut self) -> (comb: Option<SelInd<'_>>)
        requires
            old(self).wf(),
            old(self).alg is Some,
            !old(self).started,
        ensures
            final(self).wf(),
            final(self).zeros() == old(self).zeros(),
            final(self).ones() == old(self).ones(),
            final(self).yielded() == 1,
            comb matches Some(sel) && sel.wf() && sel@ == selected(
                nth(old(self).zeros(), old(self).ones(), 0),
            ),
    {
        proof {
            lemma_binomial_positive(self.zeros@ + self.ones@, self.ones@);
        }
        self.started = true;
        self.yielded = Ghost(1);
        self.iter_first_combination()
    }

    /// The next combination of the run, or `None` when the run is over.
    pub fn next(&mut self) -> (comb: Option<SelInd<'_>>)
        requires
            old(self).wf(),
        ensures
            final(self).wf(),
            final(self).zeros() == old(self).zeros(),
            final(self).ones() == old(self).ones(),
            final(self).yielded() <= final(self).total(),
            old(self).yielded() < old(self).total() ==> final(self).yielded() == old(
                self,
            ).yielded() + 1,
            old(self).yielded() < old(self).total() ==> (comb matches Some(sel) && sel.wf() && sel@
                == selected(nth(old(self).zeros(), old(self).ones(), old(self).yielded()))),
            old(self).yielded() >= old(self).total() ==> comb is None && *final(self) == *old(
                self,
            ),
    {
        if self.alg.is_none() {
            None
        } else if self.started {
            self.iter_next_combination()
        } else {
            self.iter_entry()
        }
    }
}

/// Combinations in cool-lex order, generated on a linked chain of markers.
pub struct CoollexLinkedList {}

impl CoollexLinkedList {
    /// The run of all combinations of `k` out of `n` elements. A combination
    /// is handed out as the positions of its selected elements.
    ///
    /// With `k == 0` the run is empty.
    pub fn combinations(n: usize, k: usize) -> (combs: Combinations)
        requires
            n >= k,
        ensures
            combs.wf(),
            combs.zeros() == n - k,
            combs.ones() == k,
            combs.yielded() == 0,
            combs.total() == if k == 0 {
                0
            } else {
                binomial(n as nat, k as nat)
            },
    {
        if k != 0 {
            Combinations {
                alg: Some(Algorithm::new(n - k, k)),
                started: false,
                zeros: Ghost((n - k) as nat),
                ones: Ghost(k as nat),
                yielded: Ghost(0),
            }
        } else {
            Combinations {
                alg: None,
                started: false,
                zeros: Ghost((n - k) as nat),
                ones: Ghost(k as nat),
                yielded: Ghost(0),
            }
        }
    }
}

} // verus!
