//! What the automata of character classes accept: the texts of one
//! character that the class holds.

use vstd::prelude::*;
use crate::accept::label_takes;
use crate::compose::{class_model, negated_class_model, wildcard};
use crate::nfa::{Automaton, Label, StateKind};
use crate::text::Scalar;

verus! {

/// Every label reads a character: none is an epsilon or a wildcard.
pub open spec fn all_read(labels: Seq<Label>) -> bool {
    forall|l: int|
        0 <= l < labels.len() ==> (#[trigger] labels[l]) != Label::Epsilon && labels[l]
            != Label::AnyOtherChar
}

/// Some label reads `k`.
pub open spec fn some_takes(labels: Seq<Label>, k: Scalar) -> bool {
    exists|l: int| 0 <= l < labels.len() && label_takes(#[trigger] labels[l], k)
}

impl Automaton {
    /// No epsilon edge leaves a state of `s`.
    pub open spec fn rests(self, s: Set<int>) -> bool {
        forall|i: int, j: int| s.contains(i) ==> !#[trigger] self.epsilon_edge(i, j)
    }

    /// A set that no epsilon edge leaves is its own closure.
    pub(crate) proof fn lemma_closure_at_rest(self, s: Set<int>)
        requires
            self.rests(s),
        ensures
            self.closure(s) == s,
    {
        assert forall|j: int| self.closure(s).contains(j) implies s.contains(j) by {
            let (i, steps) = choose|i: int, steps: nat|
                s.contains(i) && #[trigger] self.epsilon_reach(i, j, steps);
            self.lemma_reach_at_rest(s, i, j, steps);
        }
        assert forall|j: int| s.contains(j) implies self.closure(s).contains(j) by {
            self.lemma_closure_seed(s, j);
        }
        assert(self.closure(s) =~= s);
    }

    /// From a set that no epsilon edge leaves, only the set is reached.
    proof fn lemma_reach_at_rest(self, s: Set<int>, i: int, j: int, steps: nat)
        requires
            self.rests(s),
            s.contains(i),
            self.epsilon_reach(i, j, steps),
        ensures
            i == j,
        decreases steps,
    {
        if steps > 0 {
            let mid = choose|mid: int|
                self.epsilon_reach(i, mid, (steps - 1) as nat) && #[trigger] self.epsilon_edge(mid, j);
            self.lemma_reach_at_rest(s, i, mid, (steps - 1) as nat);
        }
    }
}

/// A class automaton whose labels all read has no epsilon edge.
proof fn lemma_class_rests(labels: Seq<Label>, s: Set<int>)
    requires
        all_read(labels),
    ensures
        class_model(labels).rests(s),
        negated_class_model(labels).rests(s),
{
    let m = class_model(labels);
    let n = negated_class_model(labels);
    assert forall|i: int, j: int| s.contains(i) implies !#[trigger] m.epsilon_edge(i, j) by {
        if m.epsilon_edge(i, j) {
            let t = choose|t: int|
                0 <= t < m.states[i].transitions.len() && (#[trigger] m.states[i].transitions[t]).on
                    == Label::Epsilon && m.states[i].transitions[t].to == j;
            if i == 0 && t < labels.len() {
                assert(m.states[0].transitions[t].on == labels[t]);
            }
        }
    }
    assert forall|i: int, j: int| s.contains(i) implies !#[trigger] n.epsilon_edge(i, j) by {
        if n.epsilon_edge(i, j) {
            let t = choose|t: int|
                0 <= t < n.states[i].transitions.len() && (#[trigger] n.states[i].transitions[t]).on
                    == Label::Epsilon && n.states[i].transitions[t].to == j;
            if i == 0 && t < labels.len() {
                assert(n.states[0].transitions[t].on == labels[t]);
            }
        }
    }
}

/// Reading a character in the initial state of a class automaton leads to
/// the final state where a label reads the character, and to the failed
/// state where none does.
proof fn lemma_class_first(labels: Seq<Label>, k: Scalar)
    requires
        all_read(labels),
    ensures
        class_model(labels).after(set![0int], k) == if some_takes(labels, k) {
            set![1int]
        } else {
            set![2int]
        },
        negated_class_model(labels).after(set![0int], k) == if some_takes(labels, k) {
            set![2int]
        } else {
            set![1int]
        },
{
    let m = class_model(labels);
    let n = negated_class_model(labels);
    let ts = m.states[0].transitions;
    let us = n.states[0].transitions;
    let last = labels.len() as int;
    assert(ts[last] == wildcard(2));
    assert(us[last] == wildcard(1));
    assert forall|t: int| 0 <= t < last implies (#[trigger] ts[t]).on == labels[t] && ts[t].to
        == 1 && (#[trigger] us[t]).on == labels[t] && us[t].to == 2 by {}
    let hit = some_takes(labels, k);
    if hit {
        let l = choose|l: int| 0 <= l < labels.len() && label_takes(#[trigger] labels[l], k);
        assert(label_takes(ts[l].on, k));
        assert(label_takes(us[l].on, k));
        assert(m.consumes(0, k, 1));
        assert(n.consumes(0, k, 2));
    } else {
        assert forall|t: int| 0 <= t < ts.len() implies !label_takes((#[trigger] ts[t]).on, k) by {
            if t < last {
                assert(ts[t].on == labels[t]);
            }
        }
        assert forall|t: int| 0 <= t < us.len() implies !label_takes((#[trigger] us[t]).on, k) by {
            if t < last {
                assert(us[t].on == labels[t]);
            }
        }
        assert(m.consumes(0, k, 2));
        assert(n.consumes(0, k, 1));
    }
    let m_next = if hit {
        set![1int]
    } else {
        set![2int]
    };
    let n_next = if hit {
        set![2int]
    } else {
        set![1int]
    };
    assert forall|to: int| m.after(set![0int], k).contains(to) implies m_next.contains(to) by {
        let from = choose|from: int| set![0int].contains(from) && #[trigger] m.consumes(from, k, to);
        assert(from == 0);
        if !hit {
            if exists|t: int|
                0 <= t < ts.len() && label_takes((#[trigger] ts[t]).on, k) && ts[t].to == to {
                let t = choose|t: int|
                    0 <= t < ts.len() && label_takes((#[trigger] ts[t]).on, k) && ts[t].to == to;
            }
            let t = choose|t: int|
                0 <= t < ts.len() && (#[trigger] ts[t]).on == Label::AnyOtherChar && ts[t].to == to;
            if t < last {
                assert(ts[t].on == labels[t]);
            }
        } else {
            let t = choose|t: int|
                0 <= t < ts.len() && label_takes((#[trigger] ts[t]).on, k) && ts[t].to == to;
        }
    }
    assert forall|to: int| n.after(set![0int], k).contains(to) implies n_next.contains(to) by {
        let from = choose|from: int| set![0int].contains(from) && #[trigger] n.consumes(from, k, to);
        assert(from == 0);
        if !hit {
            if exists|t: int|
                0 <= t < us.len() && label_takes((#[trigger] us[t]).on, k) && us[t].to == to {
                let t = choose|t: int|
                    0 <= t < us.len() && label_takes((#[trigger] us[t]).on, k) && us[t].to == to;
            }
            let t = choose|t: int|
                0 <= t < us.len() && (#[trigger] us[t]).on == Label::AnyOtherChar && us[t].to == to;
            if t < last {
                assert(us[t].on == labels[t]);
            }
        } else {
            let t = choose|t: int|
                0 <= t < us.len() && label_takes((#[trigger] us[t]).on, k) && us[t].to == to;
        }
    }
    assert(m.after(set![0int], k) =~= m_next);
    assert(n.after(set![0int], k) =~= n_next);
}

/// After the first character a class automaton never comes to its final
/// state again.
proof fn lemma_class_later(labels: Seq<Label>, s: Set<int>, k: Scalar)
    requires
        !s.contains(0),
    ensures
        !class_model(labels).after(s, k).contains(0),
        !class_model(labels).after(s, k).contains(1),
        !negated_class_model(labels).after(s, k).contains(0),
        !negated_class_model(labels).after(s, k).contains(1),
{
    let m = class_model(labels);
    let n = negated_class_model(labels);
    assert forall|to: int| m.after(s, k).contains(to) implies to == 2 by {
        let from = choose|from: int| s.contains(from) && #[trigger] m.consumes(from, k, to);
        let ts = m.states[from].transitions;
        if exists|t: int|
            0 <= t < ts.len() && label_takes((#[trigger] ts[t]).on, k) && ts[t].to == to {
            let t = choose|t: int|
                0 <= t < ts.len() && label_takes((#[trigger] ts[t]).on, k) && ts[t].to == to;
        } else {
            let t = choose|t: int|
                0 <= t < ts.len() && (#[trigger] ts[t]).on == Label::AnyOtherChar && ts[t].to == to;
        }
    }
    assert forall|to: int| !n.after(s, k).contains(to) by {
        if n.after(s, k).contains(to) {
            let from = choose|from: int| s.contains(from) && #[trigger] n.consumes(from, k, to);
            assert(n.states[from].transitions.len() == 0);
        }
    }
}

/// The frontiers of a class automaton: the initial state before any input,
/// the final or the failed state after one character, and never the initial
/// or the final state after more.
proof fn lemma_class_frontier(labels: Seq<Label>, text: Seq<Scalar>)
    requires
        all_read(labels),
    ensures
        text.len() == 0 ==> class_model(labels).frontier(text) == set![0int]
            && negated_class_model(labels).frontier(text) == set![0int],
        text.len() == 1 ==> class_model(labels).frontier(text) == (if some_takes(labels, text[0]) {
            set![1int]
        } else {
            set![2int]
        }) && negated_class_model(labels).frontier(text) == (if some_takes(labels, text[0]) {
            set![2int]
        } else {
            set![1int]
        }),
        text.len() >= 2 ==> !class_model(labels).frontier(text).contains(0) && !class_model(
            labels,
        ).frontier(text).contains(1) && !negated_class_model(labels).frontier(text).contains(0)
            && !negated_class_model(labels).frontier(text).contains(1),
    decreases text.len(),
{
    let m = class_model(labels);
    let n = negated_class_model(labels);
    if text.len() == 0 {
        lemma_class_rests(labels, set![0int]);
        m.lemma_closure_at_rest(set![0int]);
        n.lemma_closure_at_rest(set![0int]);
    } else {
        let front = text.drop_last();
        let k = text.last();
        lemma_class_frontier(labels, front);
        let mf = m.frontier(front);
        let nf = n.frontier(front);
        lemma_class_rests(labels, m.after(mf, k));
        lemma_class_rests(labels, n.after(nf, k));
        m.lemma_closure_at_rest(m.after(mf, k));
        n.lemma_closure_at_rest(n.after(nf, k));
        if text.len() == 1 {
            assert(k == text[0]);
            lemma_class_first(labels, k);
        } else {
            lemma_class_later(labels, mf, k);
            lemma_class_later(labels, nf, k);
        }
    }
}

/// Whether a set of states of a class automaton holds its final state
/// decides whether it is accepting.
proof fn lemma_class_accepting(labels: Seq<Label>, s: Set<int>)
    ensures
        class_model(labels).accepting(s) <==> s.contains(1),
        negated_class_model(labels).accepting(s) <==> s.contains(1),
{
    let m = class_model(labels);
    let n = negated_class_model(labels);
    assert(m.states[1].kind == StateKind::Final);
    assert(n.states[1].kind == StateKind::Final);
    if m.accepting(s) {
        let q = choose|q: int|
            s.contains(q) && 0 <= q < m.states.len() && (#[trigger] m.states[q]).kind
                == StateKind::Final;
        assert(q == 1);
    }
    if n.accepting(s) {
        let q = choose|q: int|
            s.contains(q) && 0 <= q < n.states.len() && (#[trigger] n.states[q]).kind
                == StateKind::Final;
        assert(q == 1);
    }
}

/// What the frontiers of a class automaton say of what it accepts.
proof fn lemma_class_verdict(
    labels: Seq<Label>,
    length: nat,
    taken: bool,
    of_class: Set<int>,
    of_complement: Set<int>,
)
    requires
        length == 0 ==> of_class == set![0int] && of_complement == set![0int],
        length == 1 ==> of_class == (if taken {
            set![1int]
        } else {
            set![2int]
        }) && of_complement == (if taken {
            set![2int]
        } else {
            set![1int]
        }),
        length >= 2 ==> !of_class.contains(1) && !of_complement.contains(1),
    ensures
        class_model(labels).accepting(of_class) <==> length == 1 && taken,
        negated_class_model(labels).accepting(of_complement) <==> length == 1 && !taken,
{
    lemma_class_accepting(labels, of_class);
    lemma_class_accepting(labels, of_complement);
}

/// The automaton of a class accepts the texts of one character that some
/// label of the class reads, and no others; the automaton of its complement
/// accepts the texts of one character that no label reads, and no others.
pub proof fn lemma_class_accepts(labels: Seq<Label>, text: Seq<Scalar>)
    requires
        all_read(labels),
    ensures
        class_model(labels).accepts(text) <==> text.len() == 1 && some_takes(labels, text[0]),
        negated_class_model(labels).accepts(text) <==> text.len() == 1 && !some_takes(
            labels,
            text[0],
        ),
{
    lemma_class_frontier(labels, text);
    lemma_class_verdict(
        labels,
        text.len(),
        some_takes(labels, text[0]),
        class_model(labels).frontier(text),
        negated_class_model(labels).frontier(text),
    );
}

} // verus!
