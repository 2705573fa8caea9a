//! What an automaton accepts: the states reachable without input, the states
//! reachable by reading one character, and from these the set of states that
//! a text leads to.

use vstd::prelude::*;
use crate::nfa::{Automaton, Label, StateKind};
use crate::text::Scalar;

verus! {

/// Whether an edge labelled `on` reads the character `k`. An epsilon edge
/// reads nothing, and a wildcard edge is no reader of its own: it stands in
/// where a state has no edge that reads `k`.
pub open spec fn label_takes(on: Label, k: Scalar) -> bool {
    match on {
        Label::Symbol(c) => c == k.value,
        Label::AnyDigit => k.numeric,
        Label::AnyAlphanumeric => k.alphanumeric,
        Label::Epsilon => false,
        Label::AnyOtherChar => false,
    }
}

impl Label {
    /// Whether this label reads `k`.
    pub fn takes(&self, k: Scalar) -> (r: bool)
        ensures
            r == label_takes(*self, k),
    {
        match self {
            Label::Symbol(c) => *c == k.value,
            Label::AnyDigit => k.numeric,
            Label::AnyAlphanumeric => k.alphanumeric,
            Label::Epsilon => false,
            Label::AnyOtherChar => false,
        }
    }
}

impl Automaton {
    /// An epsilon edge leads from `from` to `to`.
    pub open spec fn epsilon_edge(self, from: int, to: int) -> bool {
        &&& 0 <= from < self.states.len()
        &&& exists|t: int|
            0 <= t < self.states[from].transitions.len() && (
            #[trigger] self.states[from].transitions[t]).on == Label::Epsilon
                && self.states[from].transitions[t].to == to
    }

    /// `to` is reached from `from` over exactly `steps` epsilon edges.
    pub open spec fn epsilon_reach(self, from: int, to: int, steps: nat) -> bool
        decreases steps,
    {
        if steps == 0 {
            from == to
        } else {
            exists|mid: int|
                self.epsilon_reach(from, mid, (steps - 1) as nat) && #[trigger] self.epsilon_edge(
                    mid,
                    to,
                )
        }
    }

    /// The epsilon-closure of `seed`: every state reached from a state of
    /// `seed` over any number of epsilon edges.
    pub open spec fn closure(self, seed: Set<int>) -> Set<int> {
        Set::new(
            |j: int|
                exists|i: int, steps: nat| seed.contains(i) && #[trigger] self.epsilon_reach(i, j, steps),
        )
    }

    /// Reading `k` in state `from` can lead to `to`: over an edge that reads
    /// `k`, or, where the state has no such edge, over a wildcard edge.
    pub open spec fn consumes(self, from: int, k: Scalar, to: int) -> bool {
        &&& 0 <= from < self.states.len()
        &&& {
            let ts = self.states[from].transitions;
            ||| exists|t: int|
                0 <= t < ts.len() && label_takes((#[trigger] ts[t]).on, k) && ts[t].to == to
            ||| {
                &&& forall|t: int| 0 <= t < ts.len() ==> !label_takes((#[trigger] ts[t]).on, k)
                &&& exists|t: int|
                    0 <= t < ts.len() && (#[trigger] ts[t]).on == Label::AnyOtherChar && ts[t].to
                        == to
            }
        }
    }

    /// The states entered by reading `k` in some state of `s`.
    pub open spec fn after(self, s: Set<int>, k: Scalar) -> Set<int> {
        Set::new(|to: int| exists|from: int| s.contains(from) && #[trigger] self.consumes(from, k, to))
    }

    /// The frontier that follows `s` when `k` is read.
    pub open spec fn step(self, s: Set<int>, k: Scalar) -> Set<int> {
        self.closure(self.after(s, k))
    }

    /// The frontier after reading all of `text` from the initial state.
    pub open spec fn frontier(self, text: Seq<Scalar>) -> Set<int>
        decreases text.len(),
    {
        if text.len() == 0 {
            self.closure(set![self.initial])
        } else {
            self.step(self.frontier(text.drop_last()), text.last())
        }
    }

    /// Some state of `s` is final.
    pub open spec fn accepting(self, s: Set<int>) -> bool {
        exists|q: int|
            s.contains(q) && 0 <= q < self.states.len() && (#[trigger] self.states[q]).kind
                == StateKind::Final
    }

    /// The automaton accepts `text` as a whole.
    pub open spec fn accepts(self, text: Seq<Scalar>) -> bool {
        self.accepting(self.frontier(text))
    }

    /// Some stretch of `text` is accepted.
    pub open spec fn matches_within(self, text: Seq<Scalar>) -> bool {
        exists|s: int, e: int|
            0 <= s <= e <= text.len() && #[trigger] self.accepts(text.subrange(s, e))
    }

    /// The end of the longest accepted stretch that starts at `s` and ends at
    /// or before `e`, if there is one.
    pub open spec fn longest_end(self, text: Seq<Scalar>, s: int, e: int) -> Option<int>
        decreases e - s + 1,
    {
        if e < s {
            None
        } else if self.accepts(text.subrange(s, e)) {
            Some(e)
        } else {
            self.longest_end(text, s, e - 1)
        }
    }

    /// A state of the closure of `seed` stays in it along an epsilon edge.
    pub(crate) proof fn lemma_closure_edge(self, seed: Set<int>, from: int, to: int)
        requires
            self.closure(seed).contains(from),
            self.epsilon_edge(from, to),
        ensures
            self.closure(seed).contains(to),
    {
        let (i, steps) = choose|i: int, steps: nat|
            seed.contains(i) && #[trigger] self.epsilon_reach(i, from, steps);
        assert(self.epsilon_reach(i, to, steps + 1));
    }

    /// The closure holds its seed.
    pub(crate) proof fn lemma_closure_seed(self, seed: Set<int>, i: int)
        requires
            seed.contains(i),
        ensures
            self.closure(seed).contains(i),
    {
        assert(self.epsilon_reach(i, i, 0));
    }

    /// A set that holds `seed` and is closed under epsilon edges holds all
    /// that is reached from `seed`.
    pub(crate) proof fn lemma_closed_holds_reach(self, seed: Set<int>, closed: Set<int>, i: int, j: int, steps: nat)
        requires
            seed.subset_of(closed),
            forall|a: int, b: int| closed.contains(a) && self.epsilon_edge(a, b) ==> closed.contains(b),
            seed.contains(i),
            self.epsilon_reach(i, j, steps),
        ensures
            closed.contains(j),
        decreases steps,
    {
        if steps > 0 {
            let mid = choose|mid: int|
                self.epsilon_reach(i, mid, (steps - 1) as nat) && #[trigger] self.epsilon_edge(mid, j);
            self.lemma_closed_holds_reach(seed, closed, i, mid, (steps - 1) as nat);
        }
    }

    /// The longest end, where there is one, lies between `s` and `e`, is
    /// accepted, and no later end up to `e` is.
    pub proof fn lemma_longest_end(self, text: Seq<Scalar>, s: int, e: int)
        ensures
            match self.longest_end(text, s, e) {
                Some(x) => s <= x <= e && self.accepts(text.subrange(s, x)) && forall|y: int|
                    x < y <= e ==> !#[trigger] self.accepts(text.subrange(s, y)),
                None => forall|y: int| s <= y <= e ==> !#[trigger] self.accepts(text.subrange(s, y)),
            },
        decreases e - s + 1,
    {
        if e >= s && !self.accepts(text.subrange(s, e)) {
            self.lemma_longest_end(text, s, e - 1);
        }
    }
}

} // verus!
