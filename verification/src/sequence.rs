//! What the concatenation of two automata accepts: a text that the first
//! accepts followed by a text that the second accepts.

use vstd::prelude::*;
use crate::compose::{
    concat_model, epsilon, lemma_concat_wf, lemma_link, lemma_link_edges, shift_edge, shift_state,
    shift_states,
};
use crate::embed::{
    exit_to, holds_at, lemma_held_after, lemma_held_epsilon, lemma_held_reach, lemma_held_way,
    lifted,
};
use crate::nfa::{Automaton, Edge, StateKind};
use crate::text::Scalar;

verus! {

/// The concatenation holds the first automaton, with an exit to the initial
/// state of the second, and the second as it is; its final states are those
/// of the second.
pub(crate) proof fn lemma_concat_holds(a: Automaton, b: Automaton)
    requires
        a.wf(),
        b.wf(),
    ensures
        ({
            let c = concat_model(a, b);
            let off = a.states.len() as int;
            &&& c.wf()
            &&& c.states.len() == off + b.states.len()
            &&& c.initial == a.initial
            &&& holds_at(c, a, 0, seq![epsilon(b.initial + off)])
            &&& holds_at(c, b, off, Seq::<Edge>::empty())
            &&& forall|i: int|
                0 <= i < c.states.len() ==> ((#[trigger] c.states[i]).kind == StateKind::Final <==> off
                    <= i && b.states[i - off].kind == StateKind::Final)
        }),
{
    let c = concat_model(a, b);
    let off = a.states.len() as int;
    let merged = a.states + shift_states(b.states, off);
    let extra = seq![epsilon(b.initial + off)];
    let none = Seq::<Edge>::empty();
    lemma_concat_wf(a, b);
    lemma_link(merged, a.finals, extra);
    lemma_link_edges(merged, a.finals, extra);
    assert forall|i: int| off <= i implies !a.finals.contains(i) by {
        if a.finals.contains(i) {
            let w = choose|w: int| 0 <= w < a.finals.len() && a.finals[w] == i;
        }
    }
    assert forall|i: int| 0 <= i < c.states.len() implies ((#[trigger] c.states[i]).kind
        == StateKind::Final <==> off <= i && b.states[i - off].kind == StateKind::Final) by {
        if c.finals.contains(i) {
            let w = choose|w: int| 0 <= w < c.finals.len() && c.finals[w] == i;
            assert(b.finals[w] == i - off);
            assert(b.finals.contains(i - off));
        }
        if off <= i && b.states[i - off].kind == StateKind::Final {
            assert(b.finals.contains(i - off));
            let w = choose|w: int| 0 <= w < b.finals.len() && b.finals[w] == i - off;
            assert(c.finals[w] == i);
        }
    }
    assert forall|i: int, t: int|
        0 <= i < a.states.len() && 0 <= t < a.states[i].transitions.len() implies c.states[0
        + i].transitions[t] == shift_edge(#[trigger] a.states[i].transitions[t], 0) by {
        assert(merged[i] == a.states[i]);
        assert(c.states[i].transitions[t] == merged[i].transitions[t]);
    }
    assert forall|i: int|
        0 <= i < a.states.len() implies a.states[i].transitions.len() <= (#[trigger] c.states[0
        + i]).transitions.len() by {
        assert(merged[i] == a.states[i]);
    }
    assert forall|i: int, t: int|
        0 <= i < a.states.len() && a.states[i].transitions.len() <= t < c.states[0
        + i].transitions.len() implies a.finals.contains(i) && extra.contains(
        #[trigger] c.states[0 + i].transitions[t],
    ) by {
        assert(merged[i] == a.states[i]);
        let e = c.states[i].transitions[t];
        if !a.finals.contains(i) {
            assert(c.states[i] == merged[i]);
        }
    }
    assert forall|i: int, x: int|
        0 <= i < a.states.len() && a.finals.contains(i) && 0 <= x < extra.len() implies (
    #[trigger] c.states[0 + i]).transitions.contains(#[trigger] extra[x]) by {}
    assert(holds_at(c, a, 0, extra));
    assert forall|i: int| 0 <= i < b.states.len() implies #[trigger] c.states[off + i] == shift_state(
        b.states[i],
        off,
    ) by {
        assert(merged[off + i] == shift_state(b.states[i], off));
    }
    assert forall|i: int, t: int|
        0 <= i < b.states.len() && 0 <= t < b.states[i].transitions.len() implies c.states[off
        + i].transitions[t] == shift_edge(#[trigger] b.states[i].transitions[t], off) by {
        assert(c.states[off + i] == shift_state(b.states[i], off));
    }
    assert forall|i: int, t: int|
        0 <= i < b.states.len() && b.states[i].transitions.len() <= t < c.states[off
        + i].transitions.len() implies b.finals.contains(i) && none.contains(
        #[trigger] c.states[off + i].transitions[t],
    ) by {
        assert(c.states[off + i] == shift_state(b.states[i], off));
    }
    assert(holds_at(c, b, off, none));
}

/// What the concatenation reaches from states of the second automaton is
/// what the second automaton reaches.
proof fn lemma_concat_closure_second(a: Automaton, b: Automaton, z: Set<int>, y: int)
    requires
        a.wf(),
        b.wf(),
        b.within(z),
    ensures
        concat_model(a, b).closure(lifted(z, a.states.len() as int)).contains(y) <==> b.closure(
            z,
        ).contains(y - a.states.len()),
{
    let c = concat_model(a, b);
    let off = a.states.len() as int;
    let none = Seq::<Edge>::empty();
    lemma_concat_holds(a, b);
    if c.closure(lifted(z, off)).contains(y) {
        let (from, steps) = choose|from: int, steps: nat|
            lifted(z, off).contains(from) && #[trigger] c.epsilon_reach(from, y, steps);
        lemma_held_way(c, b, off, none, from - off, y, steps);
        assert(b.epsilon_reach(from - off, y - off, steps));
    }
    if b.closure(z).contains(y - off) {
        let (i, steps) = choose|i: int, steps: nat|
            z.contains(i) && #[trigger] b.epsilon_reach(i, y - off, steps);
        lemma_held_reach(c, b, off, none, i, y - off, steps);
        assert(lifted(z, off).contains(off + i));
    }
}

/// What the concatenation reaches from states of the first automaton: what
/// the first automaton reaches and, where that holds a final state, what
/// the second automaton reaches from its initial state.
proof fn lemma_concat_closure_first(a: Automaton, b: Automaton, x: Set<int>, y: int)
    requires
        a.wf(),
        b.wf(),
        a.within(x),
    ensures
        concat_model(a, b).closure(x).contains(y) <==> a.closure(x).contains(y) || (a.accepting(
            a.closure(x),
        ) && b.closure(set![b.initial]).contains(y - a.states.len())),
{
    let c = concat_model(a, b);
    let off = a.states.len() as int;
    let exits = seq![epsilon(b.initial + off)];
    let none = Seq::<Edge>::empty();
    lemma_concat_holds(a, b);
    a.lemma_closure_within(x);
    assert(exits[0].to == b.initial + off);
    if c.closure(x).contains(y) {
        let (from, steps) = choose|from: int, steps: nat|
            x.contains(from) && #[trigger] c.epsilon_reach(from, y, steps);
        lemma_held_way(c, a, 0, exits, from, y, steps);
        if 0 <= y - 0 < a.states.len() && a.epsilon_reach(from, y - 0, steps) {
            assert(a.closure(x).contains(y));
        } else {
            let (p, first, out) = choose|p: int, first: nat, out: int|
                first < steps && #[trigger] a.epsilon_reach(from, p, first) && exit_to(
                    a,
                    exits,
                    p,
                    out,
                ) && #[trigger] c.epsilon_reach(out, y, (steps - first - 1) as nat);
            let e = choose|e: int| 0 <= e < exits.len() && (#[trigger] exits[e]).to == out;
            assert(out == b.initial + off);
            assert(a.closure(x).contains(p));
            assert(a.states[p].kind == StateKind::Final);
            lemma_held_way(c, b, off, none, b.initial, y, (steps - first - 1) as nat);
            assert(b.epsilon_reach(b.initial, y - off, (steps - first - 1) as nat));
            assert(set![b.initial].contains(b.initial));
        }
    }
    if a.closure(x).contains(y) {
        let (i, steps) = choose|i: int, steps: nat|
            x.contains(i) && #[trigger] a.epsilon_reach(i, y, steps);
        lemma_held_reach(c, a, 0, exits, i, y, steps);
    }
    if a.accepting(a.closure(x)) && b.closure(set![b.initial]).contains(y - off) {
        let q = choose|q: int|
            a.closure(x).contains(q) && 0 <= q < a.states.len() && (#[trigger] a.states[q]).kind
                == StateKind::Final;
        let (i, steps) = choose|i: int, steps: nat|
            x.contains(i) && #[trigger] a.epsilon_reach(i, q, steps);
        lemma_held_reach(c, a, 0, exits, i, q, steps);
        assert(a.finals.contains(q));
        assert(exit_to(a, exits, q, b.initial + off));
        lemma_held_epsilon(c, a, 0, exits, q, b.initial + off);
        c.lemma_reach_on(i, q, b.initial + off, steps);
        let (j, more) = choose|j: int, more: nat|
            set![b.initial].contains(j) && #[trigger] b.epsilon_reach(j, y - off, more);
        lemma_held_reach(c, b, off, none, b.initial, y - off, more);
        c.lemma_reach_join(i, b.initial + off, y, steps + 1, more);
    }
}

/// Whether the second automaton is in state `q` after some end of `text`
/// whose beginning the first automaton accepts.
pub open spec fn second_in(a: Automaton, b: Automaton, text: Seq<Scalar>, q: int) -> bool {
    exists|i: int|
        0 <= i <= text.len() && a.accepts(text.take(i)) && #[trigger] b.frontier(
            text.skip(i),
        ).contains(q)
}

/// Whether the concatenation of `a` and `b` is in state `y` after `text`:
/// in a state of `a` where `a` is there, and in a state of `b` where `b` is
/// there after an end of the text whose beginning `a` accepts.
pub open spec fn concat_in(a: Automaton, b: Automaton, text: Seq<Scalar>, y: int) -> bool {
    a.frontier(text).contains(y) || second_in(a, b, text, y - a.states.len())
}

/// The states of the second automaton that the concatenation is in after
/// one more character: those it comes to from the states it was in, and,
/// where the first automaton accepts the whole text, those from which the
/// second automaton starts.
proof fn lemma_second_step(a: Automaton, b: Automaton, text: Seq<Scalar>, q: int)
    requires
        a.wf(),
        b.wf(),
        text.len() > 0,
    ensures
        second_in(a, b, text, q) <==> b.step(
            Set::new(|p: int| second_in(a, b, text.drop_last(), p)),
            text.last(),
        ).contains(q) || (a.accepts(text) && b.closure(set![b.initial]).contains(q)),
{
    let front = text.drop_last();
    let k = text.last();
    let n = text.len() as int;
    let was = Set::new(|p: int| second_in(a, b, front, p));
    assert(text.take(n) =~= text);
    assert(text.skip(n) =~= Seq::<Scalar>::empty());
    if second_in(a, b, text, q) {
        let i = choose|i: int|
            0 <= i <= text.len() && a.accepts(text.take(i)) && #[trigger] b.frontier(
                text.skip(i),
            ).contains(q);
        if i < n {
            assert(text.skip(i).drop_last() =~= front.skip(i));
            assert(text.skip(i).last() == k);
            assert(text.take(i) =~= front.take(i));
            let reached = b.frontier(front.skip(i));
            let (r, steps) = choose|r: int, steps: nat|
                b.after(reached, k).contains(r) && #[trigger] b.epsilon_reach(r, q, steps);
            let p = choose|p: int| reached.contains(p) && #[trigger] b.consumes(p, k, r);
            assert(second_in(a, b, front, p));
            assert(was.contains(p));
            assert(b.after(was, k).contains(r));
        }
    }
    if b.step(was, k).contains(q) {
        let (r, steps) = choose|r: int, steps: nat|
            b.after(was, k).contains(r) && #[trigger] b.epsilon_reach(r, q, steps);
        let p = choose|p: int| was.contains(p) && #[trigger] b.consumes(p, k, r);
        let i = choose|i: int|
            0 <= i <= front.len() && a.accepts(front.take(i)) && #[trigger] b.frontier(
                front.skip(i),
            ).contains(p);
        assert(text.skip(i).drop_last() =~= front.skip(i));
        assert(text.skip(i).last() == k);
        assert(text.take(i) =~= front.take(i));
        assert(b.after(b.frontier(front.skip(i)), k).contains(r));
        assert(b.frontier(text.skip(i)).contains(q));
    }
    if a.accepts(text) && b.closure(set![b.initial]).contains(q) {
        assert(b.frontier(text.skip(n)).contains(q));
    }
}

/// The states that the concatenation is in after a text: see
/// [`concat_in`].
pub(crate) proof fn lemma_concat_frontier(a: Automaton, b: Automaton, text: Seq<Scalar>)
    requires
        a.wf(),
        b.wf(),
    ensures
        forall|y: int| #[trigger]
            concat_model(a, b).frontier(text).contains(y) <==> concat_in(a, b, text, y),
    decreases text.len(),
{
    let c = concat_model(a, b);
    let off = a.states.len() as int;
    lemma_concat_holds(a, b);
    if text.len() == 0 {
        assert(text.take(0) =~= text);
        assert(text.skip(0) =~= text);
        assert forall|y: int| #[trigger] c.frontier(text).contains(y) <==> concat_in(
            a,
            b,
            text,
            y,
        ) by {
            lemma_concat_closure_first(a, b, set![a.initial], y);
            if second_in(a, b, text, y - off) {
                let i = choose|i: int|
                    0 <= i <= text.len() && a.accepts(text.take(i)) && #[trigger] b.frontier(
                        text.skip(i),
                    ).contains(y - off);
                assert(text.skip(i) =~= text);
                assert(text.take(i) =~= text);
            }
            if a.accepts(text) && b.closure(set![b.initial]).contains(y - off) {
                assert(b.frontier(text.skip(0)).contains(y - off));
            }
        }
    } else {
        let front = text.drop_last();
        let k = text.last();
        lemma_concat_frontier(a, b, front);
        a.lemma_frontier_within(front);
        let fa = a.frontier(front);
        let was = Set::new(|p: int| second_in(a, b, front, p));
        assert(b.within(was)) by {
            assert forall|p: int| was.contains(p) implies 0 <= p < b.states.len() by {
                let i = choose|i: int|
                    0 <= i <= front.len() && a.accepts(front.take(i)) && #[trigger] b.frontier(
                        front.skip(i),
                    ).contains(p);
                b.lemma_frontier_within(front.skip(i));
            }
        }
        assert(c.frontier(front) =~= fa.union(lifted(was, off))) by {
            assert forall|y: int| c.frontier(front).contains(y) <==> fa.union(
                lifted(was, off),
            ).contains(y) by {
                assert(c.frontier(front).contains(y) <==> concat_in(a, b, front, y));
            }
        }
        c.lemma_after_union(fa, lifted(was, off), k);
        assert(lifted(fa, 0) =~= fa);
        lemma_held_after(c, a, 0, seq![epsilon(b.initial + off)], fa, k);
        lemma_held_after(c, b, off, Seq::<Edge>::empty(), was, k);
        assert(lifted(a.after(fa, k), 0) =~= a.after(fa, k));
        let read_first = a.after(fa, k);
        let read_second = b.after(was, k);
        assert(c.after(c.frontier(front), k) =~= read_first.union(lifted(read_second, off)));
        a.lemma_after_within(fa, k);
        b.lemma_after_within(was, k);
        c.lemma_closure_union(read_first, lifted(read_second, off));
        assert forall|y: int| #[trigger] c.frontier(text).contains(y) <==> concat_in(
            a,
            b,
            text,
            y,
        ) by {
            lemma_concat_closure_first(a, b, read_first, y);
            lemma_concat_closure_second(a, b, read_second, y);
            lemma_second_step(a, b, text, y - off);
        }
    }
}

/// The concatenation of two automata accepts a text exactly when the text
/// can be cut in two so that the first automaton accepts what stands before
/// the cut and the second what stands after it.
pub proof fn lemma_concat_accepts(a: Automaton, b: Automaton, text: Seq<Scalar>)
    requires
        a.wf(),
        b.wf(),
    ensures
        concat_model(a, b).accepts(text) <==> exists|i: int|
            0 <= i <= text.len() && a.accepts(text.take(i)) && #[trigger] b.accepts(text.skip(i)),
{
    let c = concat_model(a, b);
    let off = a.states.len() as int;
    lemma_concat_holds(a, b);
    lemma_concat_frontier(a, b, text);
    a.lemma_frontier_within(text);
    let f = c.frontier(text);
    if c.accepts(text) {
        let q = choose|q: int|
            f.contains(q) && 0 <= q < c.states.len() && (#[trigger] c.states[q]).kind
                == StateKind::Final;
        assert(concat_in(a, b, text, q));
        assert(off <= q);
        let i = choose|i: int|
            0 <= i <= text.len() && a.accepts(text.take(i)) && #[trigger] b.frontier(
                text.skip(i),
            ).contains(q - off);
        assert(b.states[q - off].kind == StateKind::Final);
        assert(b.accepts(text.skip(i)));
    }
    if exists|i: int|
        0 <= i <= text.len() && a.accepts(text.take(i)) && #[trigger] b.accepts(text.skip(i)) {
        let i = choose|i: int|
            0 <= i <= text.len() && a.accepts(text.take(i)) && #[trigger] b.accepts(text.skip(i));
        let q = choose|q: int|
            b.frontier(text.skip(i)).contains(q) && 0 <= q < b.states.len() && (
            #[trigger] b.states[q]).kind == StateKind::Final;
        assert(second_in(a, b, text, q));
        assert(concat_in(a, b, text, q + off));
        assert(f.contains(q + off));
        assert(c.states[q + off].kind == StateKind::Final);
    }
}

} // verus!
