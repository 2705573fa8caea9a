//! What the union of two automata accepts: what either of them accepts.

use vstd::prelude::*;
use crate::compose::{
    epsilon, lemma_link, lemma_link_edges, lemma_union_wf, link, shift_edge, shift_indices,
    shift_states, union_model,
};
use crate::embed::{holds_at, lemma_held_after, lemma_held_closure, lifted};
use crate::nfa::{Automaton, Label, StateKind, StateModel};
use crate::text::Scalar;

verus! {

/// The union holds both automata, each with an exit to the new final state;
/// its new initial state leads to both initial states, and no edge leaves
/// its new final state, which is its only final state.
pub(crate) proof fn lemma_union_holds(a: Automaton, b: Automaton)
    requires
        a.wf(),
        b.wf(),
    ensures
        ({
            let u = union_model(a, b);
            let off = a.states.len() as int;
            let start = off + b.states.len();
            let end = start + 1;
            &&& u.wf()
            &&& u.states.len() == end + 1
            &&& u.initial == start
            &&& holds_at(u, a, 0, seq![epsilon(end)])
            &&& holds_at(u, b, off, seq![epsilon(end)])
            &&& u.states[start].transitions == seq![epsilon(a.initial), epsilon(b.initial + off)]
            &&& u.states[end].transitions.len() == 0
            &&& forall|i: int|
                0 <= i < u.states.len() ==> ((#[trigger] u.states[i]).kind == StateKind::Final <==> i
                    == end)
        }),
{
    let u = union_model(a, b);
    let off = a.states.len() as int;
    let start = off + b.states.len();
    let end = start + 1;
    let all = (a.states + shift_states(b.states, off)).push(
        StateModel {
            transitions: seq![epsilon(a.initial), epsilon(b.initial + off)],
            kind: StateKind::Initial,
        },
    ).push(StateModel { transitions: seq![], kind: StateKind::Final });
    let extra = seq![epsilon(end)];
    let bf = shift_indices(b.finals, off);
    let mid = link(all, a.finals, extra);
    lemma_union_wf(a, b);
    lemma_link(all, a.finals, extra);
    lemma_link_edges(all, a.finals, extra);
    lemma_link(mid, bf, extra);
    lemma_link_edges(mid, bf, extra);
    assert(u.finals[0] == end);
    assert forall|i: int| 0 <= i < u.states.len() implies ((#[trigger] u.states[i]).kind
        == StateKind::Final <==> i == end) by {
        if u.finals.contains(i) {
            let w = choose|w: int| 0 <= w < u.finals.len() && u.finals[w] == i;
        }
    }
    assert forall|i: int| 0 <= i < off implies !bf.contains(i) by {
        if bf.contains(i) {
            let w = choose|w: int| 0 <= w < bf.len() && bf[w] == i;
            assert(b.finals[w] == i - off);
        }
    }
    assert forall|i: int| off <= i implies !a.finals.contains(i) by {
        if a.finals.contains(i) {
            let w = choose|w: int| 0 <= w < a.finals.len() && a.finals[w] == i;
        }
    }
    assert forall|i: int| 0 <= i < b.states.len() implies (bf.contains(off + i)
        <==> b.finals.contains(i)) by {
        if bf.contains(off + i) {
            let w = choose|w: int| 0 <= w < bf.len() && bf[w] == off + i;
            assert(b.finals[w] == i);
        }
        if b.finals.contains(i) {
            let w = choose|w: int| 0 <= w < b.finals.len() && b.finals[w] == i;
            assert(bf[w] == off + i);
        }
    }
    assert(!a.finals.contains(start) && !bf.contains(start)) by {
        if bf.contains(start) {
            let w = choose|w: int| 0 <= w < bf.len() && bf[w] == start;
            assert(b.finals[w] == start - off);
        }
    }
    assert(!a.finals.contains(end) && !bf.contains(end)) by {
        if bf.contains(end) {
            let w = choose|w: int| 0 <= w < bf.len() && bf[w] == end;
            assert(b.finals[w] == end - off);
        }
    }
    assert(u.states[start] == all[start]);
    assert(u.states[end] == all[end]);
    // The first automaton stands at the front.
    assert forall|i: int| 0 <= i < off implies u.states[i] == mid[i] && all[i] == a.states[i] by {}
    assert forall|i: int, t: int|
        0 <= i < a.states.len() && 0 <= t < a.states[i].transitions.len() implies u.states[0
        + i].transitions[t] == shift_edge(#[trigger] a.states[i].transitions[t], 0) by {
        assert(mid[i].transitions[t] == all[i].transitions[t]);
    }
    assert forall|i: int, t: int|
        0 <= i < a.states.len() && a.states[i].transitions.len() <= t < u.states[0
        + i].transitions.len() implies a.finals.contains(i) && extra.contains(
        #[trigger] u.states[0 + i].transitions[t],
    ) by {
        assert(u.states[i] == mid[i]);
        let e = mid[i].transitions[t];
        if !a.finals.contains(i) {
            assert(mid[i] == all[i]);
        }
    }
    assert forall|i: int, x: int|
        0 <= i < a.states.len() && a.finals.contains(i) && 0 <= x < extra.len() implies (
    #[trigger] u.states[0 + i]).transitions.contains(#[trigger] extra[x]) by {
        assert(u.states[i] == mid[i]);
    }
    assert(holds_at(u, a, 0, extra));
    // The second automaton stands behind it.
    assert forall|i: int| 0 <= i < b.states.len() implies mid[off + i] == all[off + i] && all[off
        + i] == crate::compose::shift_state(b.states[i], off) by {}
    assert forall|i: int, t: int|
        0 <= i < b.states.len() && 0 <= t < b.states[i].transitions.len() implies u.states[off
        + i].transitions[t] == shift_edge(#[trigger] b.states[i].transitions[t], off) by {
        assert(mid[off + i].transitions[t] == shift_edge(b.states[i].transitions[t], off));
    }
    assert forall|i: int, t: int|
        0 <= i < b.states.len() && b.states[i].transitions.len() <= t < u.states[off
        + i].transitions.len() implies b.finals.contains(i) && extra.contains(
        #[trigger] u.states[off + i].transitions[t],
    ) by {
        let e = u.states[off + i].transitions[t];
        assert(mid[off + i].transitions.len() == b.states[i].transitions.len());
        if !bf.contains(off + i) {
            assert(u.states[off + i] == mid[off + i]);
        }
    }
    assert forall|i: int, x: int|
        0 <= i < b.states.len() && b.finals.contains(i) && 0 <= x < extra.len() implies (
    #[trigger] u.states[off + i]).transitions.contains(#[trigger] extra[x]) by {
        assert(bf.contains(off + i));
    }
    assert forall|i: int|
        0 <= i < b.states.len() implies b.states[i].transitions.len() <= (#[trigger] u.states[off
        + i]).transitions.len() by {
        assert(mid[off + i].transitions.len() == b.states[i].transitions.len());
    }
    assert(holds_at(u, b, off, extra));
}

/// Whether the union of `a` and `b` is in state `y` after `text`: in its
/// initial state before any input, in a state of `a` or of `b` where that
/// automaton is there, and in its final state where either accepts.
pub open spec fn union_in(a: Automaton, b: Automaton, text: Seq<Scalar>, y: int) -> bool {
    let off = a.states.len() as int;
    let start = off + b.states.len();
    ||| text.len() == 0 && y == start
    ||| a.frontier(text).contains(y)
    ||| b.frontier(text).contains(y - off)
    ||| y == start + 1 && (a.accepts(text) || b.accepts(text))
}

/// What the union reaches from states of both automata.
proof fn lemma_union_closure(a: Automaton, b: Automaton, x: Set<int>, z: Set<int>, y: int)
    requires
        a.wf(),
        b.wf(),
        a.within(x),
        b.within(z),
    ensures
        union_model(a, b).closure(x.union(lifted(z, a.states.len() as int))).contains(y) <==> ({
            ||| a.closure(x).contains(y)
            ||| b.closure(z).contains(y - a.states.len())
            ||| y == a.states.len() + b.states.len() + 1 && (a.accepting(a.closure(x))
                || b.accepting(b.closure(z)))
        }),
{
    let u = union_model(a, b);
    let off = a.states.len() as int;
    let end = off + b.states.len() + 1;
    let exits = seq![epsilon(end)];
    lemma_union_holds(a, b);
    assert(exits[0].to == end);
    assert forall|next: int| !#[trigger] u.epsilon_edge(end, next) by {}
    assert(lifted(x, 0) =~= x);
    u.lemma_closure_union(x, lifted(z, off));
    lemma_held_closure(u, a, 0, exits, end, x, y);
    lemma_held_closure(u, b, off, exits, end, z, y);
}

/// The states that the union is in after a text: see [`union_in`].
pub(crate) proof fn lemma_union_frontier(a: Automaton, b: Automaton, text: Seq<Scalar>)
    requires
        a.wf(),
        b.wf(),
    ensures
        forall|y: int| #[trigger]
            union_model(a, b).frontier(text).contains(y) <==> union_in(a, b, text, y),
    decreases text.len(),
{
    let u = union_model(a, b);
    let off = a.states.len() as int;
    let start = off + b.states.len();
    let end = start + 1;
    lemma_union_holds(a, b);
    a.lemma_frontier_within(text);
    b.lemma_frontier_within(text);
    if text.len() == 0 {
        let targets = set![a.initial].union(lifted(set![b.initial], off));
        assert forall|next: int| #[trigger] u.epsilon_edge(start, next) <==> targets.contains(
            next,
        ) by {
            let ts = u.states[start].transitions;
            assert(ts[0] == epsilon(a.initial));
            assert(ts[1] == epsilon(b.initial + off));
            if u.epsilon_edge(start, next) {
                let t = choose|t: int|
                    0 <= t < ts.len() && (#[trigger] ts[t]).on == Label::Epsilon && ts[t].to == next;
            }
        }
        assert forall|y: int| #[trigger] u.frontier(text).contains(y) <==> union_in(
            a,
            b,
            text,
            y,
        ) by {
            u.lemma_closure_of_source(start, targets, y);
            lemma_union_closure(a, b, set![a.initial], set![b.initial], y);
        }
    } else {
        let front = text.drop_last();
        let k = text.last();
        lemma_union_frontier(a, b, front);
        a.lemma_frontier_within(front);
        b.lemma_frontier_within(front);
        let fa = a.frontier(front);
        let fb = b.frontier(front);
        let ends = Set::new(|y: int| u.frontier(front).contains(y) && (y == start || y == end));
        assert(u.frontier(front) =~= fa.union(lifted(fb, off)).union(ends)) by {
            assert forall|y: int| u.frontier(front).contains(y) implies fa.union(
                lifted(fb, off),
            ).union(ends).contains(y) by {
                assert(union_in(a, b, front, y));
            }
            assert forall|y: int|
                fa.union(lifted(fb, off)).union(ends).contains(y) implies u.frontier(
                front,
            ).contains(y) by {
                if fa.contains(y) || lifted(fb, off).contains(y) {
                    assert(union_in(a, b, front, y));
                }
            }
        }
        assert forall|i: int, t: int|
            ends.contains(i) && 0 <= i < u.states.len() && 0 <= t
                < u.states[i].transitions.len() implies (#[trigger] u.states[i].transitions[t]).on
            == Label::Epsilon by {
            if i == start {
                assert(u.states[start].transitions[0] == epsilon(a.initial));
                assert(u.states[start].transitions[1] == epsilon(b.initial + off));
            }
        }
        u.lemma_reads_nothing(ends, k);
        u.lemma_after_union(fa.union(lifted(fb, off)), ends, k);
        u.lemma_after_union(fa, lifted(fb, off), k);
        assert(lifted(fa, 0) =~= fa);
        lemma_held_after(u, a, 0, seq![epsilon(end)], fa, k);
        lemma_held_after(u, b, off, seq![epsilon(end)], fb, k);
        assert(lifted(a.after(fa, k), 0) =~= a.after(fa, k));
        let read = a.after(fa, k).union(lifted(b.after(fb, k), off));
        assert(u.after(u.frontier(front), k) =~= read);
        a.lemma_after_within(fa, k);
        b.lemma_after_within(fb, k);
        assert forall|y: int| #[trigger] u.frontier(text).contains(y) <==> union_in(
            a,
            b,
            text,
            y,
        ) by {
            lemma_union_closure(a, b, a.after(fa, k), b.after(fb, k), y);
        }
    }
}

/// The union of two automata accepts a text exactly when one of them does.
pub proof fn lemma_union_accepts(a: Automaton, b: Automaton, text: Seq<Scalar>)
    requires
        a.wf(),
        b.wf(),
    ensures
        union_model(a, b).accepts(text) <==> a.accepts(text) || b.accepts(text),
{
    let u = union_model(a, b);
    let off = a.states.len() as int;
    let end = off + b.states.len() + 1;
    lemma_union_holds(a, b);
    lemma_union_frontier(a, b, text);
    a.lemma_frontier_within(text);
    b.lemma_frontier_within(text);
    let f = u.frontier(text);
    if u.accepts(text) {
        let q = choose|q: int|
            f.contains(q) && 0 <= q < u.states.len() && (#[trigger] u.states[q]).kind
                == StateKind::Final;
        assert(q == end);
        assert(union_in(a, b, text, end));
    }
    if a.accepts(text) || b.accepts(text) {
        assert(union_in(a, b, text, end));
        assert(f.contains(end));
        assert(u.states[end].kind == StateKind::Final);
    }
}

} // verus!
