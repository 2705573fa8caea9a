//! What the star of an automaton accepts: the texts that are made of texts
//! that the automaton accepts, one after another, the empty text among
//! them.

use vstd::prelude::*;
use crate::compose::{
    epsilon, kleen_model, lemma_kleen_wf, lemma_link, lemma_link_edges, link, shift_edge,
};
use crate::compose::lemma_kleen_accepts_empty;
use crate::embed::{exit_to, holds_at, lemma_held_consumes, lemma_held_epsilon, lemma_held_reach};
use crate::nfa::{Automaton, Label, StateKind, StateModel};
use crate::text::Scalar;

verus! {

/// The text is made of texts that `a` accepts, one after another: it is
/// empty, or a beginning of it is made so and `a` accepts the rest, which
/// is not empty.
pub open spec fn star_of(a: Automaton, text: Seq<Scalar>) -> bool
    decreases text.len(),
{
    text.len() == 0 || exists|i: int|
        0 <= i < text.len() && star_of(a, text.take(i)) && #[trigger] a.accepts(text.skip(i))
}

/// No edge leaves state `q`, and it is not final: what comes to it stays
/// there and is not accepted.
pub open spec fn is_sink(a: Automaton, q: int) -> bool {
    0 <= q < a.states.len() && a.states[q].transitions.len() == 0 && a.states[q].kind
        != StateKind::Final
}

impl Automaton {
    /// Every edge that leaves a final state leads to a sink: once a text is
    /// accepted, nothing more of it can be read.
    pub open spec fn ends_clean(self) -> bool {
        forall|p: int, t: int|
            0 <= p < self.states.len() && self.states[p].kind == StateKind::Final && 0 <= t
                < self.states[p].transitions.len() ==> is_sink(
                self,
                (#[trigger] self.states[p].transitions[t]).to,
            )
    }
}

/// The star holds the automaton, with exits to the new final state and back
/// to the initial state; its new initial state leads to the initial state
/// and to every state that was final; no edge leaves its new final state,
/// which is its only final state.
pub(crate) proof fn lemma_kleen_holds(a: Automaton)
    requires
        a.wf(),
    ensures
        ({
            let k = kleen_model(a);
            let end = a.states.len() as int;
            let start = end + 1;
            &&& k.wf()
            &&& k.states.len() == start + 1
            &&& k.initial == start
            &&& holds_at(k, a, 0, seq![epsilon(end), epsilon(a.initial)])
            &&& k.states[start].transitions == seq![epsilon(a.initial)] + a.finals.map_values(
                |f: int| epsilon(f),
            )
            &&& k.states[end].transitions.len() == 0
            &&& forall|i: int|
                0 <= i < k.states.len() ==> ((#[trigger] k.states[i]).kind == StateKind::Final <==> i
                    == end)
        }),
{
    let k = kleen_model(a);
    let end = a.states.len() as int;
    let start = end + 1;
    let base = a.states.push(StateModel { transitions: seq![], kind: StateKind::Final });
    let extra = seq![epsilon(end), epsilon(a.initial)];
    let linked = link(base, a.finals, extra);
    lemma_kleen_wf(a);
    lemma_link(base, a.finals, extra);
    lemma_link_edges(base, a.finals, extra);
    assert(k.finals[0] == end);
    assert forall|i: int| 0 <= i < k.states.len() implies ((#[trigger] k.states[i]).kind
        == StateKind::Final <==> i == end) by {
        if k.finals.contains(i) {
            let w = choose|w: int| 0 <= w < k.finals.len() && k.finals[w] == i;
        }
    }
    assert(!a.finals.contains(end)) by {
        if a.finals.contains(end) {
            let w = choose|w: int| 0 <= w < a.finals.len() && a.finals[w] == end;
        }
    }
    assert(k.states[end] == base[end]);
    assert forall|i: int| 0 <= i < end implies k.states[i] == linked[i] && base[i]
        == a.states[i] by {}
    assert forall|i: int, t: int|
        0 <= i < a.states.len() && 0 <= t < a.states[i].transitions.len() implies k.states[0
        + i].transitions[t] == shift_edge(#[trigger] a.states[i].transitions[t], 0) by {
        assert(linked[i].transitions[t] == base[i].transitions[t]);
    }
    assert forall|i: int|
        0 <= i < a.states.len() implies a.states[i].transitions.len() <= (#[trigger] k.states[0
        + i]).transitions.len() by {
        assert(base[i] == a.states[i]);
    }
    assert forall|i: int, t: int|
        0 <= i < a.states.len() && a.states[i].transitions.len() <= t < k.states[0
        + i].transitions.len() implies a.finals.contains(i) && extra.contains(
        #[trigger] k.states[0 + i].transitions[t],
    ) by {
        assert(k.states[i] == linked[i]);
        let e = linked[i].transitions[t];
        if !a.finals.contains(i) {
            assert(linked[i] == base[i]);
        }
    }
    assert forall|i: int, x: int|
        0 <= i < a.states.len() && a.finals.contains(i) && 0 <= x < extra.len() implies (
    #[trigger] k.states[0 + i]).transitions.contains(#[trigger] extra[x]) by {
        assert(k.states[i] == linked[i]);
    }
    assert(holds_at(k, a, 0, extra));
}

/// The epsilon edges of the states of the star.
proof fn lemma_kleen_edges(a: Automaton, from: int, to: int)
    requires
        a.wf(),
    ensures
        ({
            let k = kleen_model(a);
            let end = a.states.len() as int;
            let start = end + 1;
            &&& !k.epsilon_edge(end, to)
            &&& k.epsilon_edge(start, to) <==> to == a.initial || a.finals.contains(to)
            &&& 0 <= from < end ==> (k.epsilon_edge(from, to) <==> a.epsilon_edge(from, to) || (
            a.finals.contains(from) && (to == end || to == a.initial)))
        }),
{
    let k = kleen_model(a);
    let end = a.states.len() as int;
    let start = end + 1;
    let exits = seq![epsilon(end), epsilon(a.initial)];
    lemma_kleen_holds(a);
    let ts = k.states[start].transitions;
    let back = a.finals.map_values(|f: int| epsilon(f));
    assert(ts[0] == epsilon(a.initial));
    assert forall|w: int| 0 <= w < a.finals.len() implies #[trigger] ts[1 + w] == epsilon(
        a.finals[w],
    ) by {
        assert(back[w] == epsilon(a.finals[w]));
    }
    if k.epsilon_edge(start, to) {
        let t = choose|t: int|
            0 <= t < ts.len() && (#[trigger] ts[t]).on == Label::Epsilon && ts[t].to == to;
        if t > 0 {
            assert(ts[1 + (t - 1)] == epsilon(a.finals[t - 1]));
        }
    }
    if a.finals.contains(to) {
        let w = choose|w: int| 0 <= w < a.finals.len() && a.finals[w] == to;
        assert(ts[1 + w].to == to);
    }
    if 0 <= from < end {
        lemma_held_epsilon(k, a, 0, exits, from, to);
        assert(exits[0].to == end);
        assert(exits[1].to == a.initial);
        if exit_to(a, exits, from, to) {
            let x = choose|x: int| 0 <= x < exits.len() && (#[trigger] exits[x]).to == to;
        }
    }
}

/// Where the star can start the automaton afresh after `prefix`, it is in
/// every state after `prefix` and `rest` that the automaton is in after
/// `rest`.
proof fn lemma_kleen_follows(a: Automaton, prefix: Seq<Scalar>, rest: Seq<Scalar>, q: int)
    requires
        a.wf(),
        kleen_model(a).frontier(prefix).contains(a.initial),
        a.frontier(rest).contains(q),
    ensures
        kleen_model(a).frontier(prefix + rest).contains(q),
    decreases rest.len(),
{
    let k = kleen_model(a);
    let end = a.states.len() as int;
    let exits = seq![epsilon(end), epsilon(a.initial)];
    lemma_kleen_holds(a);
    if rest.len() == 0 {
        assert(prefix + rest =~= prefix);
        let (i, steps) = choose|i: int, steps: nat|
            set![a.initial].contains(i) && #[trigger] a.epsilon_reach(i, q, steps);
        lemma_held_reach(k, a, 0, exits, a.initial, q, steps);
        k.lemma_frontier_reach(prefix, a.initial, q, steps);
    } else {
        let front = rest.drop_last();
        let c = rest.last();
        let whole = prefix + rest;
        assert(whole.drop_last() =~= prefix + front);
        assert(whole.last() == c);
        let (m, steps) = choose|m: int, steps: nat|
            a.after(a.frontier(front), c).contains(m) && #[trigger] a.epsilon_reach(m, q, steps);
        let p = choose|p: int| a.frontier(front).contains(p) && #[trigger] a.consumes(p, c, m);
        lemma_kleen_follows(a, prefix, front, p);
        a.lemma_frontier_within(front);
        lemma_held_consumes(k, a, 0, exits, p, c, m);
        k.lemma_frontier_read(whole, p, m);
        a.lemma_after_within(a.frontier(front), c);
        lemma_held_reach(k, a, 0, exits, m, q, steps);
        k.lemma_frontier_reach(whole, m, q, steps);
    }
}

/// After a text that is made of accepted texts, the star is in its final
/// state and can start the automaton afresh.
proof fn lemma_kleen_complete(a: Automaton, text: Seq<Scalar>)
    requires
        a.wf(),
        a.finals.len() > 0,
        star_of(a, text),
    ensures
        kleen_model(a).frontier(text).contains(a.initial),
        kleen_model(a).frontier(text).contains(a.states.len() as int),
    decreases text.len(),
{
    let k = kleen_model(a);
    let end = a.states.len() as int;
    let start = end + 1;
    lemma_kleen_holds(a);
    if text.len() == 0 {
        lemma_kleen_edges(a, start, a.initial);
        assert(set![start].contains(start));
        assert(k.epsilon_reach(start, start, 0));
        k.lemma_closure_seed(set![start], start);
        k.lemma_frontier_edge(text, start, a.initial);
        lemma_kleen_accepts_empty(a);
        assert(text =~= Seq::<Scalar>::empty());
        let q = choose|q: int|
            k.frontier(text).contains(q) && 0 <= q < k.states.len() && (#[trigger] k.states[q]).kind
                == StateKind::Final;
        assert(q == end);
    } else {
        let i = choose|i: int|
            0 <= i < text.len() && star_of(a, text.take(i)) && #[trigger] a.accepts(text.skip(i));
        lemma_kleen_complete(a, text.take(i));
        let p = choose|p: int|
            a.frontier(text.skip(i)).contains(p) && 0 <= p < a.states.len() && (
            #[trigger] a.states[p]).kind == StateKind::Final;
        lemma_kleen_follows(a, text.take(i), text.skip(i), p);
        assert(text.take(i) + text.skip(i) =~= text);
        assert(a.finals.contains(p));
        lemma_kleen_edges(a, p, end);
        lemma_kleen_edges(a, p, a.initial);
        k.lemma_frontier_edge(text, p, end);
        k.lemma_frontier_edge(text, p, a.initial);
    }
}

/// The automaton, started afresh after a beginning of `text` that is made
/// of accepted texts, is in state `y` at the end of `text`.
pub open spec fn fresh_in(a: Automaton, text: Seq<Scalar>, y: int) -> bool {
    exists|j: int|
        0 <= j <= text.len() && star_of(a, text.take(j)) && #[trigger] a.frontier(
            text.skip(j),
        ).contains(y)
}

/// What the states that the star is in after `text` can be: its initial
/// state before any input; its final state where the text is made of
/// accepted texts; a state that the automaton, started afresh, is in; a
/// state that was final, before any input; or a sink.
pub open spec fn kleen_in(a: Automaton, text: Seq<Scalar>, y: int) -> bool {
    let end = a.states.len() as int;
    ||| y == end + 1 && text.len() == 0
    ||| y == end && star_of(a, text)
    ||| 0 <= y < end && (fresh_in(a, text, y) || (text.len() == 0 && a.finals.contains(y))
        || is_sink(a, y))
}

/// Where the automaton, started afresh, is in a final state, the text is
/// made of accepted texts, and the automaton can be started afresh again.
proof fn lemma_fresh_final(a: Automaton, text: Seq<Scalar>, y: int)
    requires
        a.wf(),
        0 <= y < a.states.len(),
        a.finals.contains(y),
        fresh_in(a, text, y) || text.len() == 0,
    ensures
        star_of(a, text),
        fresh_in(a, text, a.initial),
{
    let n = text.len() as int;
    if text.len() > 0 {
        let j = choose|j: int|
            0 <= j <= text.len() && star_of(a, text.take(j)) && #[trigger] a.frontier(
                text.skip(j),
            ).contains(y);
        assert(a.states[y].kind == StateKind::Final);
        assert(a.accepts(text.skip(j)));
        if j == n {
            assert(text.take(j) =~= text);
        }
    }
    assert(text.take(n) =~= text);
    assert(text.skip(n) =~= Seq::<Scalar>::empty());
    assert(set![a.initial].contains(a.initial));
    a.lemma_closure_seed(set![a.initial], a.initial);
    assert(a.frontier(text.skip(n)).contains(a.initial));
}

/// The states that the star can be in are closed under its epsilon edges.
proof fn lemma_kleen_closed(a: Automaton, text: Seq<Scalar>, y: int, z: int)
    requires
        a.wf(),
        a.ends_clean(),
        kleen_in(a, text, y),
        kleen_model(a).epsilon_edge(y, z),
    ensures
        kleen_in(a, text, z),
{
    let k = kleen_model(a);
    let end = a.states.len() as int;
    let start = end + 1;
    lemma_kleen_edges(a, y, z);
    if y == start {
        if a.finals.contains(z) {
            let w = choose|w: int| 0 <= w < a.finals.len() && a.finals[w] == z;
        } else {
            assert(text.take(0) =~= text);
            assert(text.skip(0) =~= text);
            assert(set![a.initial].contains(a.initial));
            a.lemma_closure_seed(set![a.initial], a.initial);
            assert(a.frontier(text.skip(0)).contains(a.initial));
        }
    } else if 0 <= y < end {
        if a.epsilon_edge(y, z) {
            let t = choose|t: int|
                0 <= t < a.states[y].transitions.len() && (#[trigger] a.states[y].transitions[t]).on
                    == Label::Epsilon && a.states[y].transitions[t].to == z;
            if fresh_in(a, text, y) {
                let j = choose|j: int|
                    0 <= j <= text.len() && star_of(a, text.take(j)) && #[trigger] a.frontier(
                        text.skip(j),
                    ).contains(y);
                a.lemma_frontier_edge(text.skip(j), y, z);
            } else if text.len() == 0 && a.finals.contains(y) {
                assert(a.states[y].kind == StateKind::Final);
                assert(is_sink(a, a.states[y].transitions[t].to));
            }
        } else {
            assert(a.states[y].kind == StateKind::Final);
            lemma_fresh_final(a, text, y);
        }
    }
}

/// Reading a character leads the star from the states that it can be in to
/// states that it can be in.
proof fn lemma_kleen_read(a: Automaton, text: Seq<Scalar>, y: int, m: int)
    requires
        a.wf(),
        a.ends_clean(),
        text.len() > 0,
        kleen_in(a, text.drop_last(), y),
        kleen_model(a).consumes(y, text.last(), m),
    ensures
        kleen_in(a, text, m),
{
    let k = kleen_model(a);
    let end = a.states.len() as int;
    let start = end + 1;
    let exits = seq![epsilon(end), epsilon(a.initial)];
    let front = text.drop_last();
    let c = text.last();
    lemma_kleen_holds(a);
    let ts = k.states[y].transitions;
    if y == start {
        let back = a.finals.map_values(|f: int| epsilon(f));
        assert forall|t: int| 0 <= t < ts.len() implies (#[trigger] ts[t]).on == Label::Epsilon by {
            if t > 0 {
                assert(ts[t] == back[t - 1]);
            }
        }
    } else if 0 <= y < end {
        lemma_held_consumes(k, a, 0, exits, y, c, m);
        let us = a.states[y].transitions;
        let t = if exists|t: int|
            0 <= t < us.len() && crate::accept::label_takes((#[trigger] us[t]).on, c) && us[t].to
                == m {
            choose|t: int|
                0 <= t < us.len() && crate::accept::label_takes((#[trigger] us[t]).on, c) && us[t].to
                    == m
        } else {
            choose|t: int|
                0 <= t < us.len() && (#[trigger] us[t]).on == Label::AnyOtherChar && us[t].to == m
        };
        assert(a.states[y].transitions[t].to == m);
        if fresh_in(a, front, y) {
            let j = choose|j: int|
                0 <= j <= front.len() && star_of(a, front.take(j)) && #[trigger] a.frontier(
                    front.skip(j),
                ).contains(y);
            assert(text.skip(j).drop_last() =~= front.skip(j));
            assert(text.skip(j).last() == c);
            assert(text.take(j) =~= front.take(j));
            a.lemma_frontier_read(text.skip(j), y, m);
        } else if front.len() == 0 && a.finals.contains(y) {
            assert(a.states[y].kind == StateKind::Final);
            assert(is_sink(a, a.states[y].transitions[t].to));
        }
    }
}

/// The states that the star is in after a text are states that it can be
/// in: see [`kleen_in`].
proof fn lemma_kleen_sound(a: Automaton, text: Seq<Scalar>)
    requires
        a.wf(),
        a.ends_clean(),
    ensures
        forall|y: int| #[trigger] kleen_model(a).frontier(text).contains(y) ==> kleen_in(a, text, y),
    decreases text.len(),
{
    let k = kleen_model(a);
    let end = a.states.len() as int;
    let start = end + 1;
    let good = Set::new(|y: int| kleen_in(a, text, y));
    lemma_kleen_holds(a);
    assert forall|y: int, z: int| good.contains(y) && k.epsilon_edge(y, z) implies good.contains(
        z,
    ) by {
        lemma_kleen_closed(a, text, y, z);
    }
    let seed = if text.len() == 0 {
        set![start]
    } else {
        k.after(k.frontier(text.drop_last()), text.last())
    };
    if text.len() > 0 {
        lemma_kleen_sound(a, text.drop_last());
        assert forall|m: int| seed.contains(m) implies good.contains(m) by {
            let y = choose|y: int|
                k.frontier(text.drop_last()).contains(y) && #[trigger] k.consumes(
                    y,
                    text.last(),
                    m,
                );
            lemma_kleen_read(a, text, y, m);
        }
    }
    assert(seed.subset_of(good));
    assert forall|y: int| #[trigger] k.frontier(text).contains(y) implies kleen_in(a, text, y) by {
        let (i, steps) = choose|i: int, steps: nat|
            seed.contains(i) && #[trigger] k.epsilon_reach(i, y, steps);
        k.lemma_closed_holds_reach(seed, good, i, y, steps);
    }
}

/// The star of an automaton accepts a text exactly when the text is made of
/// texts that the automaton accepts, one after another.
pub proof fn lemma_kleen_accepts(a: Automaton, text: Seq<Scalar>)
    requires
        a.wf(),
        a.ends_clean(),
        a.finals.len() > 0,
    ensures
        kleen_model(a).accepts(text) <==> star_of(a, text),
{
    let k = kleen_model(a);
    let end = a.states.len() as int;
    lemma_kleen_holds(a);
    if k.accepts(text) {
        let q = choose|q: int|
            k.frontier(text).contains(q) && 0 <= q < k.states.len() && (#[trigger] k.states[q]).kind
                == StateKind::Final;
        lemma_kleen_sound(a, text);
        assert(kleen_in(a, text, q));
    }
    if star_of(a, text) {
        lemma_kleen_complete(a, text);
        assert(k.states[end].kind == StateKind::Final);
    }
}

} // verus!
