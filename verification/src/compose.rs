//! The models of Thompson's construction: what each combinator makes of the
//! automata it is given, as functions on models, and the proofs that they
//! keep an automaton well formed.

use vstd::prelude::*;
use crate::nfa::{Automaton, Edge, Label, StateKind, StateModel};
use crate::text::{first_lowercase, first_uppercase, Scalar};

verus! {

/// An epsilon edge to `to`.
pub open spec fn epsilon(to: int) -> Edge {
    Edge { on: Label::Epsilon, to }
}

/// A wildcard edge to `to`.
pub open spec fn wildcard(to: int) -> Edge {
    Edge { on: Label::AnyOtherChar, to }
}

/// One edge to `to` for each label, in order.
pub open spec fn edges_to(labels: Seq<Label>, to: int) -> Seq<Edge> {
    labels.map_values(|on: Label| Edge { on, to })
}

/// The labels that stand for `c`: the character itself, or, where case is
/// ignored, the first scalars of its upper-case and lower-case mappings, in
/// the order that `upper_first` gives.
pub open spec fn cased(c: char, ignore_case: bool, upper_first: bool) -> Seq<Label> {
    if !ignore_case {
        seq![Label::Symbol(c)]
    } else if upper_first {
        seq![Label::Symbol(first_uppercase(c)), Label::Symbol(first_lowercase(c))]
    } else {
        seq![Label::Symbol(first_lowercase(c)), Label::Symbol(first_uppercase(c))]
    }
}

/// The labels that stand for each character of `chars`, in order.
pub open spec fn cased_all(chars: Seq<char>, ignore_case: bool, upper_first: bool) -> Seq<Label>
    decreases chars.len(),
{
    if chars.len() == 0 {
        seq![]
    } else {
        cased_all(chars.drop_last(), ignore_case, upper_first) + cased(
            chars.last(),
            ignore_case,
            upper_first,
        )
    }
}

/// Three states: from the initial state each label leads to the final state
/// and a wildcard edge to the failed state; from the final state a wildcard
/// edge leads to the failed state.
pub open spec fn class_model(labels: Seq<Label>) -> Automaton {
    Automaton {
        states: seq![
            StateModel { transitions: edges_to(labels, 1).push(wildcard(2)), kind: StateKind::Initial },
            StateModel { transitions: seq![wildcard(2)], kind: StateKind::Final },
            StateModel { transitions: seq![], kind: StateKind::Failed },
        ],
        initial: 0,
        finals: seq![1],
    }
}

/// Three states: from the initial state each label leads to the failed state
/// and a wildcard edge to the final state.
pub open spec fn negated_class_model(labels: Seq<Label>) -> Automaton {
    Automaton {
        states: seq![
            StateModel { transitions: edges_to(labels, 2).push(wildcard(1)), kind: StateKind::Initial },
            StateModel { transitions: seq![], kind: StateKind::Final },
            StateModel { transitions: seq![], kind: StateKind::Failed },
        ],
        initial: 0,
        finals: seq![1],
    }
}

/// The edge with its target moved up by `by`.
pub open spec fn shift_edge(e: Edge, by: int) -> Edge {
    Edge { on: e.on, to: e.to + by }
}

/// The edges with their targets moved up by `by`.
pub open spec fn shift_edges(es: Seq<Edge>, by: int) -> Seq<Edge> {
    es.map_values(|e: Edge| shift_edge(e, by))
}

/// The state with the targets of its edges moved up by `by`.
pub open spec fn shift_state(s: StateModel, by: int) -> StateModel {
    StateModel { transitions: shift_edges(s.transitions, by), kind: s.kind }
}

/// The states with the targets of their edges moved up by `by`.
pub open spec fn shift_states(states: Seq<StateModel>, by: int) -> Seq<StateModel> {
    states.map_values(|s: StateModel| shift_state(s, by))
}

/// The indices moved up by `by`.
pub open spec fn shift_indices(v: Seq<int>, by: int) -> Seq<int> {
    v.map_values(|i: int| i + by)
}

/// Each state that `finals` names, taken in order, gets `extra` after the
/// edges it has and becomes `Normal`.
pub open spec fn link(states: Seq<StateModel>, finals: Seq<int>, extra: Seq<Edge>) -> Seq<StateModel>
    decreases finals.len(),
{
    if finals.len() == 0 {
        states
    } else {
        let prev = link(states, finals.drop_last(), extra);
        let f = finals.last();
        prev.update(
            f,
            StateModel { transitions: prev[f].transitions + extra, kind: StateKind::Normal },
        )
    }
}

/// `b` after `a`: the states of `b` follow those of `a`, and every final
/// state of `a` leads on to the initial state of `b`.
pub open spec fn concat_model(a: Automaton, b: Automaton) -> Automaton {
    let off = a.states.len() as int;
    Automaton {
        states: link(
            a.states + shift_states(b.states, off),
            a.finals,
            seq![epsilon(b.initial + off)],
        ),
        initial: a.initial,
        finals: shift_indices(b.finals, off),
    }
}

/// `a` or `b`: a new initial state leads to both initial states, and every
/// final state of either leads to one new final state.
pub open spec fn union_model(a: Automaton, b: Automaton) -> Automaton {
    let off = a.states.len() as int;
    let start = off + b.states.len();
    let end = start + 1;
    let all = (a.states + shift_states(b.states, off)).push(
        StateModel {
            transitions: seq![epsilon(a.initial), epsilon(b.initial + off)],
            kind: StateKind::Initial,
        },
    ).push(StateModel { transitions: seq![], kind: StateKind::Final });
    Automaton {
        states: link(
            link(all, a.finals, seq![epsilon(end)]),
            shift_indices(b.finals, off),
            seq![epsilon(end)],
        ),
        initial: start,
        finals: seq![end],
    }
}

/// Any number of `a`: every final state of `a` leads to a new final state and
/// back to the initial state of `a`; a new initial state leads to the initial
/// state of `a` and to each state that was final.
pub open spec fn kleen_model(a: Automaton) -> Automaton {
    let end = a.states.len() as int;
    let start = end + 1;
    Automaton {
        states: link(
            a.states.push(StateModel { transitions: seq![], kind: StateKind::Final }),
            a.finals,
            seq![epsilon(end), epsilon(a.initial)],
        ).push(
            StateModel {
                transitions: seq![epsilon(a.initial)] + a.finals.map_values(|f: int| epsilon(f)),
                kind: StateKind::Initial,
            },
        ),
        initial: start,
        finals: seq![end],
    }
}

/// The automaton for one numeric character.
pub open spec fn digit_model() -> Automaton {
    class_model(seq![Label::AnyDigit])
}

/// The automaton for one or more numeric characters.
pub open spec fn digits_model() -> Automaton {
    concat_model(digit_model(), kleen_model(digit_model()))
}

/// The automaton for one alphabetic or numeric character.
pub open spec fn alphanumeric_model() -> Automaton {
    class_model(seq![Label::AnyAlphanumeric])
}

/// The automaton for the one character `c`.
pub open spec fn symbol_model(c: char, ignore_case: bool) -> Automaton {
    class_model(cased(c, ignore_case, true))
}

/// What linking does to each state: a state that `finals` names becomes
/// `Normal` and its edges are the old ones followed by edges of `extra`;
/// every other state stays as it was.
pub(crate) proof fn lemma_link(states: Seq<StateModel>, finals: Seq<int>, extra: Seq<Edge>)
    requires
        forall|f: int| 0 <= f < finals.len() ==> 0 <= #[trigger] finals[f] < states.len(),
    ensures
        link(states, finals, extra).len() == states.len(),
        forall|i: int|
            0 <= i < states.len() && !finals.contains(i) ==> #[trigger] link(states, finals, extra)[i]
                == states[i],
        forall|i: int|
            0 <= i < states.len() && finals.contains(i) ==> (#[trigger] link(
                states,
                finals,
                extra,
            )[i]).kind == StateKind::Normal,
        forall|i: int, t: int|
            0 <= i < states.len() && 0 <= t < link(states, finals, extra)[i].transitions.len() ==> {
                let e = #[trigger] link(states, finals, extra)[i].transitions[t];
                ||| t < states[i].transitions.len() && e == states[i].transitions[t]
                ||| extra.contains(e)
            },
    decreases finals.len(),
{
    if finals.len() > 0 {
        let front = finals.drop_last();
        let f = finals.last();
        lemma_link(states, front, extra);
        let prev = link(states, front, extra);
        let now = link(states, finals, extra);
        assert forall|i: int| 0 <= i < states.len() && !finals.contains(i) implies #[trigger] now[i]
            == states[i] by {
            assert(i != f);
            if front.contains(i) {
                let w = choose|w: int| 0 <= w < front.len() && front[w] == i;
                assert(finals[w] == i);
            }
        }
        assert forall|i: int| 0 <= i < states.len() && finals.contains(i) implies (#[trigger] now[i]).kind
            == StateKind::Normal by {
            if i != f {
                let w = choose|w: int| 0 <= w < finals.len() && finals[w] == i;
                assert(front[w] == i);
            }
        }
        assert forall|i: int, t: int|
            0 <= i < states.len() && 0 <= t < now[i].transitions.len() implies {
            let e = #[trigger] now[i].transitions[t];
            ||| t < states[i].transitions.len() && e == states[i].transitions[t]
            ||| extra.contains(e)
        } by {
            if i == f {
                let old_len = prev[f].transitions.len();
                if t < old_len {
                    assert(now[i].transitions[t] == prev[i].transitions[t]);
                } else {
                    assert(now[i].transitions[t] == extra[t - old_len]);
                }
            } else {
                assert(now[i].transitions[t] == prev[i].transitions[t]);
            }
        }
    }
}

/// A class automaton is well formed.
pub(crate) proof fn lemma_class_wf(labels: Seq<Label>)
    ensures
        class_model(labels).wf(),
        negated_class_model(labels).wf(),
{
    let m = class_model(labels);
    assert(m.finals[0] == 1);
    assert forall|i: int| 0 <= i < m.states.len() implies ((#[trigger] m.states[i]).kind
        == StateKind::Final <==> m.finals.contains(i)) by {
        if m.finals.contains(i) {
            let w = choose|w: int| 0 <= w < m.finals.len() && m.finals[w] == i;
        }
    }
    let n = negated_class_model(labels);
    assert(n.finals[0] == 1);
    assert forall|i: int| 0 <= i < n.states.len() implies ((#[trigger] n.states[i]).kind
        == StateKind::Final <==> n.finals.contains(i)) by {
        if n.finals.contains(i) {
            let w = choose|w: int| 0 <= w < n.finals.len() && n.finals[w] == i;
        }
    }
}

/// Concatenation keeps automata well formed.
pub(crate) proof fn lemma_concat_wf(a: Automaton, b: Automaton)
    requires
        a.wf(),
        b.wf(),
    ensures
        concat_model(a, b).wf(),
{
    let off = a.states.len() as int;
    let merged = a.states + shift_states(b.states, off);
    let extra = seq![epsilon(b.initial + off)];
    let r = concat_model(a, b);
    lemma_link(merged, a.finals, extra);
    assert forall|i: int, t: int|
        0 <= i < r.states.len() && 0 <= t < r.states[i].transitions.len() implies 0 <= (
    #[trigger] r.states[i].transitions[t]).to < r.states.len() by {
        let e = r.states[i].transitions[t];
        if extra.contains(e) {
            let w = choose|w: int| 0 <= w < extra.len() && extra[w] == e;
        } else {
            assert(e == merged[i].transitions[t]);
            if i < off {
                assert(e == a.states[i].transitions[t]);
            } else {
                assert(e == shift_edge(b.states[i - off].transitions[t], off));
            }
        }
    }
    assert forall|i: int| 0 <= i < r.states.len() implies ((#[trigger] r.states[i]).kind
        == StateKind::Final <==> r.finals.contains(i)) by {
        if r.finals.contains(i) {
            let w = choose|w: int| 0 <= w < r.finals.len() && r.finals[w] == i;
            assert(b.finals[w] == i - off);
            assert(b.finals.contains(i - off));
            assert(b.states[i - off].kind == StateKind::Final);
            assert(!a.finals.contains(i));
        } else if i >= off {
            assert(!a.finals.contains(i));
            if b.finals.contains(i - off) {
                let w = choose|w: int| 0 <= w < b.finals.len() && b.finals[w] == i - off;
                assert(r.finals[w] == i);
            }
            assert(r.states[i] == shift_state(b.states[i - off], off));
        } else {
            if !a.finals.contains(i) {
                assert(r.states[i] == a.states[i]);
            }
        }
    }
}

/// Union keeps automata well formed.
pub(crate) proof fn lemma_union_wf(a: Automaton, b: Automaton)
    requires
        a.wf(),
        b.wf(),
    ensures
        union_model(a, b).wf(),
{
    let off = a.states.len() as int;
    let start = off + b.states.len();
    let end = start + 1;
    let merged = a.states + shift_states(b.states, off);
    let all = merged.push(
        StateModel {
            transitions: seq![epsilon(a.initial), epsilon(b.initial + off)],
            kind: StateKind::Initial,
        },
    ).push(StateModel { transitions: seq![], kind: StateKind::Final });
    let extra = seq![epsilon(end)];
    let bf = shift_indices(b.finals, off);
    let mid = link(all, a.finals, extra);
    let r = union_model(a, b);
    lemma_link(all, a.finals, extra);
    lemma_link(mid, bf, extra);
    assert(r.finals[0] == end);
    assert forall|i: int, t: int|
        0 <= i < r.states.len() && 0 <= t < r.states[i].transitions.len() implies 0 <= (
    #[trigger] r.states[i].transitions[t]).to < r.states.len() by {
        let e = r.states[i].transitions[t];
        if extra.contains(e) {
            let w = choose|w: int| 0 <= w < extra.len() && extra[w] == e;
        } else {
            assert(e == mid[i].transitions[t]);
            assert(e == all[i].transitions[t]);
            if i < off {
                assert(e == a.states[i].transitions[t]);
            } else if i < start {
                assert(e == shift_edge(b.states[i - off].transitions[t], off));
            }
        }
    }
    assert forall|i: int| 0 <= i < r.states.len() implies ((#[trigger] r.states[i]).kind
        == StateKind::Final <==> r.finals.contains(i)) by {
        if r.finals.contains(i) {
            let w = choose|w: int| 0 <= w < r.finals.len() && r.finals[w] == i;
            assert(i == end);
            assert(!a.finals.contains(i));
            if bf.contains(i) {
                let w = choose|w: int| 0 <= w < bf.len() && bf[w] == i;
                assert(b.finals[w] == i - off);
            }
        } else if !bf.contains(i) {
            assert(r.states[i] == mid[i]);
            if !a.finals.contains(i) {
                assert(mid[i] == all[i]);
                if i >= off && i < start {
                    if b.finals.contains(i - off) {
                        let w = choose|w: int| 0 <= w < b.finals.len() && b.finals[w] == i - off;
                        assert(bf[w] == i);
                    }
                    assert(all[i] == shift_state(b.states[i - off], off));
                } else if i < off {
                    assert(all[i] == a.states[i]);
                }
            }
        }
    }
}

/// The star keeps an automaton well formed.
pub(crate) proof fn lemma_kleen_wf(a: Automaton)
    requires
        a.wf(),
    ensures
        kleen_model(a).wf(),
{
    let end = a.states.len() as int;
    let base = a.states.push(StateModel { transitions: seq![], kind: StateKind::Final });
    let extra = seq![epsilon(end), epsilon(a.initial)];
    let linked = link(base, a.finals, extra);
    let r = kleen_model(a);
    lemma_link(base, a.finals, extra);
    assert(r.finals[0] == end);
    assert forall|i: int, t: int|
        0 <= i < r.states.len() && 0 <= t < r.states[i].transitions.len() implies 0 <= (
    #[trigger] r.states[i].transitions[t]).to < r.states.len() by {
        let e = r.states[i].transitions[t];
        if i == end + 1 {
            if t > 0 {
                assert(e == epsilon(a.finals[t - 1]));
            }
        } else {
            assert(e == linked[i].transitions[t]);
            if extra.contains(e) {
                let w = choose|w: int| 0 <= w < extra.len() && extra[w] == e;
            } else {
                assert(e == base[i].transitions[t]);
                if i < end {
                    assert(e == a.states[i].transitions[t]);
                }
            }
        }
    }
    assert forall|i: int| 0 <= i < r.states.len() implies ((#[trigger] r.states[i]).kind
        == StateKind::Final <==> r.finals.contains(i)) by {
        if r.finals.contains(i) {
            let w = choose|w: int| 0 <= w < r.finals.len() && r.finals[w] == i;
            assert(i == end);
            assert(!a.finals.contains(i));
            assert(linked[i] == base[i]);
        } else if i < end {
            if !a.finals.contains(i) {
                assert(linked[i] == base[i]);
                assert(base[i] == a.states[i]);
            }
        }
    }
}

/// Linking keeps the edges that a state has and puts the new ones after
/// them: a state that `finals` names has every edge of `extra`.
pub(crate) proof fn lemma_link_edges(states: Seq<StateModel>, finals: Seq<int>, extra: Seq<Edge>)
    requires
        forall|f: int| 0 <= f < finals.len() ==> 0 <= #[trigger] finals[f] < states.len(),
    ensures
        link(states, finals, extra).len() == states.len(),
        forall|i: int|
            0 <= i < states.len() ==> states[i].transitions.len() <= (#[trigger] link(
                states,
                finals,
                extra,
            )[i]).transitions.len(),
        forall|i: int, t: int|
            0 <= i < states.len() && 0 <= t < states[i].transitions.len() ==> link(
                states,
                finals,
                extra,
            )[i].transitions[t] == #[trigger] states[i].transitions[t],
        forall|i: int, x: int|
            0 <= i < states.len() && finals.contains(i) && 0 <= x < extra.len() ==> (#[trigger] link(
                states,
                finals,
                extra,
            )[i]).transitions.contains(#[trigger] extra[x]),
    decreases finals.len(),
{
    if finals.len() > 0 {
        let front = finals.drop_last();
        let f = finals.last();
        lemma_link_edges(states, front, extra);
        let prev = link(states, front, extra);
        let now = link(states, finals, extra);
        assert forall|i: int| 0 <= i < states.len() implies states[i].transitions.len() <= (
        #[trigger] now[i]).transitions.len() by {
            assert(states[i].transitions.len() <= prev[i].transitions.len());
        }
        assert forall|i: int, t: int|
            0 <= i < states.len() && 0 <= t < states[i].transitions.len() implies now[i].transitions[t]
            == #[trigger] states[i].transitions[t] by {
            assert(states[i].transitions.len() <= prev[i].transitions.len());
            assert(prev[i].transitions[t] == states[i].transitions[t]);
        }
        assert forall|i: int, x: int|
            0 <= i < states.len() && finals.contains(i) && 0 <= x < extra.len() implies (
        #[trigger] now[i]).transitions.contains(#[trigger] extra[x]) by {
            if i == f {
                assert(now[i].transitions[prev[f].transitions.len() + x] == extra[x]);
            } else {
                let w = choose|w: int| 0 <= w < finals.len() && finals[w] == i;
                assert(front[w] == i);
                assert(prev[i].transitions.contains(extra[x]));
                let at = choose|at: int|
                    0 <= at < prev[i].transitions.len() && prev[i].transitions[at] == extra[x];
                assert(now[i].transitions[at] == extra[x]);
            }
        }
    }
}

/// The star of an automaton that has a final state accepts the empty text:
/// no repetition at all.
pub proof fn lemma_kleen_accepts_empty(a: Automaton)
    requires
        a.wf(),
        a.finals.len() > 0,
    ensures
        kleen_model(a).accepts(Seq::<Scalar>::empty()),
{
    let k = kleen_model(a);
    let end = a.states.len() as int;
    let start = end + 1;
    let was_final = a.finals[0];
    let base = a.states.push(StateModel { transitions: seq![], kind: StateKind::Final });
    let extra = seq![epsilon(end), epsilon(a.initial)];
    lemma_link_edges(base, a.finals, extra);
    lemma_link(base, a.finals, extra);
    let linked = link(base, a.finals, extra);
    assert(k.states[start].transitions[1] == epsilon(was_final)) by {
        assert(a.finals.map_values(|f: int| epsilon(f))[0] == epsilon(was_final));
    }
    assert(k.epsilon_edge(start, was_final));
    assert(a.finals.contains(was_final));
    assert(extra[0] == epsilon(end));
    assert(linked[was_final].transitions.contains(extra[0]));
    let t = choose|t: int|
        0 <= t < linked[was_final].transitions.len() && linked[was_final].transitions[t]
            == extra[0];
    assert(k.states[was_final].transitions[t] == epsilon(end));
    assert(k.epsilon_edge(was_final, end));
    assert(k.epsilon_reach(start, start, 0));
    assert(k.epsilon_reach(start, was_final, 1));
    assert(k.epsilon_reach(start, end, 2));
    let frontier = k.frontier(Seq::<Scalar>::empty());
    assert(set![start].contains(start));
    assert(frontier.contains(end));
    assert(!a.finals.contains(end));
    assert(linked[end] == base[end]);
    assert(k.states[end].kind == StateKind::Final);
}

} // verus!
