//! The automaton: states held in one arena and named by their index, the
//! mathematical model that contracts speak of, and the combinators of
//! Thompson's construction, which build automata from automata.

use vstd::prelude::*;
use crate::compose::{
    alphanumeric_model, cased, cased_all, class_model, concat_model, digit_model, digits_model,
    edges_to, epsilon, kleen_model, lemma_class_wf, lemma_concat_wf, lemma_kleen_wf, lemma_union_wf,
    link, negated_class_model, shift_edges, shift_indices, shift_states, symbol_model, union_model,
};
use crate::text::{char_at, naive_lowercase, naive_uppercase};

verus! {

/// What an edge asks of the input.
#[derive(Clone, Copy, Debug, PartialEq, Eq)]
pub enum Label {
    /// The one character named.
    Symbol(char),
    /// Nothing: the edge is taken without reading input.
    Epsilon,
    /// Any numeric character.
    AnyDigit,
    /// Any alphabetic or numeric character.
    AnyAlphanumeric,
    /// Any character, but only where no other edge of the state takes it.
    AnyOtherChar,
}

/// An edge to the state with index `to`.
#[derive(Clone, Copy, Debug, PartialEq, Eq)]
pub struct Transition {
    pub on: Label,
    pub to: usize,
}

/// The role a state plays. Only `Final` bears on what is accepted.
#[derive(Clone, Copy, Debug, PartialEq, Eq)]
pub enum StateKind {
    Normal,
    Failed,
    Initial,
    Final,
}

/// A state: its outgoing edges in the order they were added, and its kind.
#[derive(Debug)]
pub struct State {
    pub transitions: Vec<Transition>,
    pub kind: StateKind,
}

/// Options that govern construction.
#[derive(Clone, Copy, Debug)]
pub struct NfaOptions {
    pub ignore_case: bool,
}

/// An automaton. A state is named by its index in `states`.
#[derive(Debug)]
pub struct NFA {
    pub states: Vec<State>,
    pub initial_state: usize,
    pub final_states: Vec<usize>,
}

/// The model of a transition.
pub struct Edge {
    pub on: Label,
    pub to: int,
}

/// The model of a state.
pub struct StateModel {
    pub transitions: Seq<Edge>,
    pub kind: StateKind,
}

/// The model of an automaton.
pub struct Automaton {
    pub states: Seq<StateModel>,
    pub initial: int,
    pub finals: Seq<int>,
}

impl View for Transition {
    type V = Edge;

    open spec fn view(&self) -> Edge {
        Edge { on: self.on, to: self.to as int }
    }
}

/// The models of a sequence of transitions.
pub open spec fn edges(ts: Seq<Transition>) -> Seq<Edge> {
    ts.map_values(|t: Transition| t@)
}

impl View for State {
    type V = StateModel;

    open spec fn view(&self) -> StateModel {
        StateModel { transitions: edges(self.transitions@), kind: self.kind }
    }
}

/// The models of a sequence of states.
pub open spec fn state_models(states: Seq<State>) -> Seq<StateModel> {
    states.map_values(|s: State| s@)
}

/// State indices as mathematical integers.
pub open spec fn indices(v: Seq<usize>) -> Seq<int> {
    v.map_values(|i: usize| i as int)
}

impl View for NFA {
    type V = Automaton;

    open spec fn view(&self) -> Automaton {
        Automaton {
            states: state_models(self.states@),
            initial: self.initial_state as int,
            finals: indices(self.final_states@),
        }
    }
}

impl Automaton {
    /// Every index names a state of the automaton, and a state is of kind
    /// `Final` exactly when the list of final states names it.
    pub open spec fn wf(self) -> bool {
        &&& 0 <= self.initial < self.states.len()
        &&& forall|i: int, t: int|
            0 <= i < self.states.len() && 0 <= t < self.states[i].transitions.len() ==> 0 <= (
            #[trigger] self.states[i].transitions[t]).to < self.states.len()
        &&& forall|f: int| 0 <= f < self.finals.len() ==> 0 <= #[trigger] self.finals[f] < self.states.len()
        &&& forall|i: int|
            0 <= i < self.states.len() ==> ((#[trigger] self.states[i]).kind == StateKind::Final
                <==> self.finals.contains(i))
    }
}

impl Default for NfaOptions {
    /// Case is not ignored.
    fn default() -> (r: Self)
        ensures
            !r.ignore_case,
    {
        NfaOptions { ignore_case: false }
    }
}

impl Transition {
    /// An edge labelled `on` to the state with index `to`.
    pub fn new(on: Label, to: usize) -> (t: Self)
        ensures
            t == (Transition { on, to }),
    {
        Transition { on, to }
    }
}

impl State {
    /// A state of kind `kind` with the edges `transitions`.
    pub fn new(transitions: Vec<Transition>, kind: StateKind) -> (s: Self)
        ensures
            s@ == (StateModel { transitions: edges(transitions@), kind }),
    {
        State { transitions, kind }
    }

    /// Adds an edge after those the state has.
    pub fn add_transition(&mut self, on: Label, to: usize)
        ensures
            final(self)@ == (StateModel {
                transitions: old(self)@.transitions.push(Edge { on, to: to as int }),
                kind: old(self)@.kind,
            }),
    {
        self.transitions.push(Transition::new(on, to));
        assert(edges(self.transitions@) =~= edges(old(self).transitions@).push(
            Edge { on, to: to as int },
        ));
    }
}

impl Clone for State {
    /// A state with the same edges and of the same kind.
    fn clone(&self) -> (copy: Self)
        ensures
            copy@ == self@,
    {
        let mut transitions: Vec<Transition> = Vec::new();
        let mut t: usize = 0;
        while t < self.transitions.len()
            invariant
                t <= self.transitions@.len(),
                transitions@ == self.transitions@.take(t as int),
            decreases self.transitions@.len() - t,
        {
            transitions.push(self.transitions[t]);
            assert(transitions@ =~= self.transitions@.take(t + 1));
            t += 1;
        }
        assert(self.transitions@.take(self.transitions@.len() as int) =~= self.transitions@);
        State { transitions, kind: self.kind }
    }
}

impl Clone for NFA {
    /// An automaton with the same states, for a worker of its own.
    fn clone(&self) -> (copy: Self)
        ensures
            copy@ == self@,
    {
        let mut states: Vec<State> = Vec::new();
        let mut i: usize = 0;
        while i < self.states.len()
            invariant
                i <= self.states@.len(),
                state_models(states@) == state_models(self.states@).take(i as int),
            decreases self.states@.len() - i,
        {
            let ghost before = states@;
            let copy = self.states[i].clone();
            states.push(copy);
            proof {
                let all = state_models(self.states@);
                assert(state_models(states@) =~= state_models(before).push(copy@));
                assert(all.take(i + 1) =~= all.take(i as int).push(all[i as int]));
            }
            i += 1;
        }
        let mut final_states: Vec<usize> = Vec::new();
        let mut f: usize = 0;
        while f < self.final_states.len()
            invariant
                f <= self.final_states@.len(),
                final_states@ == self.final_states@.take(f as int),
            decreases self.final_states@.len() - f,
        {
            final_states.push(self.final_states[f]);
            assert(final_states@ =~= self.final_states@.take(f + 1));
            f += 1;
        }
        assert(state_models(self.states@).take(self.states@.len() as int) =~= state_models(
            self.states@,
        ));
        assert(self.final_states@.take(self.final_states@.len() as int) =~= self.final_states@);
        NFA { states, initial_state: self.initial_state, final_states }
    }
}

impl NFA {
    /// The automaton is well formed: see [`Automaton::wf`].
    pub open spec fn wf(&self) -> bool {
        self@.wf()
    }

    /// An automaton of the states `states`. Nothing is asked of the parts:
    /// whether they make a well-formed automaton is for
    /// [`NFA::is_well_formed`] to say.
    pub fn new(states: Vec<State>, initial_state: usize, final_states: Vec<usize>) -> (nfa: Self)
        ensures
            nfa.states == states,
            nfa.initial_state == initial_state,
            nfa.final_states == final_states,
    {
        NFA { states, initial_state, final_states }
    }

    /// Whether the automaton is well formed. The combinators and the
    /// compiler make nothing else; an automaton put together by hand is to
    /// be tested before it is run.
    pub fn is_well_formed(&self) -> (r: bool)
        ensures
            r == self.wf(),
    {
        let ghost m = self@;
        let n = self.states.len();
        if self.initial_state >= n {
            return false;
        }
        let mut f: usize = 0;
        while f < self.final_states.len()
            invariant
                m == self@,
                n == self.states@.len(),
                f <= self.final_states@.len(),
                forall|k: int| 0 <= k < f ==> 0 <= #[trigger] m.finals[k] < n,
            decreases self.final_states@.len() - f,
        {
            if self.final_states[f] >= n {
                assert(m.finals[f as int] == self.final_states@[f as int] as int);
                return false;
            }
            assert(m.finals[f as int] == self.final_states@[f as int] as int);
            f += 1;
        }
        let mut i: usize = 0;
        while i < n
            invariant
                m == self@,
                n == self.states@.len(),
                i <= n,
                forall|s: int, t: int|
                    0 <= s < i && 0 <= t < m.states[s].transitions.len() ==> 0 <= (
                    #[trigger] m.states[s].transitions[t]).to < n,
                forall|s: int|
                    0 <= s < i ==> ((#[trigger] m.states[s]).kind == StateKind::Final
                        <==> m.finals.contains(s)),
            decreases n - i,
        {
            let state = &self.states[i];
            assert(m.states[i as int] == state@);
            let mut t: usize = 0;
            while t < state.transitions.len()
                invariant
                    m == self@,
                    n == self.states@.len(),
                    i < n,
                    *state == self.states@[i as int],
                    m.states[i as int] == state@,
                    t <= state.transitions@.len(),
                    forall|u: int| 0 <= u < t ==> 0 <= (#[trigger] m.states[i as int].transitions[u]).to < n,
                decreases state.transitions@.len() - t,
            {
                assert(m.states[i as int].transitions[t as int] == state.transitions@[t as int]@);
                if state.transitions[t].to >= n {
                    return false;
                }
                t += 1;
            }
            let listed = lists(&self.final_states, i);
            let is_final = match state.kind {
                StateKind::Final => true,
                _ => false,
            };
            if listed != is_final {
                return false;
            }
            i += 1;
        }
        true
    }
}

/// The labels that stand for each character of `chars`: see [`cased_all`].
fn case_labels(chars: &Vec<char>, options: &NfaOptions, upper_first: bool) -> (labels: Vec<Label>)
    ensures
        labels@ == cased_all(chars@, options.ignore_case, upper_first),
{
    let mut labels: Vec<Label> = Vec::new();
    let mut i: usize = 0;
    while i < chars.len()
        invariant
            i <= chars@.len(),
            labels@ == cased_all(chars@.take(i as int), options.ignore_case, upper_first),
        decreases chars@.len() - i,
    {
        let c = char_at(chars, i);
        let ghost before = labels@;
        if options.ignore_case {
            let upper = naive_uppercase(c);
            let lower = naive_lowercase(c);
            if upper_first {
                labels.push(Label::Symbol(upper));
                labels.push(Label::Symbol(lower));
                assert(labels@ =~= before + seq![Label::Symbol(upper), Label::Symbol(lower)]);
            } else {
                labels.push(Label::Symbol(lower));
                labels.push(Label::Symbol(upper));
                assert(labels@ =~= before + seq![Label::Symbol(lower), Label::Symbol(upper)]);
            }
        } else {
            labels.push(Label::Symbol(c));
            assert(labels@ =~= before + seq![Label::Symbol(c)]);
        }
        proof {
            let upto = chars@.take(i + 1);
            assert(upto.drop_last() =~= chars@.take(i as int));
            assert(upto.last() == c);
            assert(labels@ == before + cased(c, options.ignore_case, upper_first));
        }
        i += 1;
    }
    proof {
        assert(chars@.take(chars@.len() as int) =~= chars@);
    }
    labels
}

/// One transition to `to` for each label, in order.
fn transitions_to(labels: &Vec<Label>, to: usize) -> (ts: Vec<Transition>)
    ensures
        edges(ts@) == edges_to(labels@, to as int),
{
    let mut ts: Vec<Transition> = Vec::new();
    let mut i: usize = 0;
    while i < labels.len()
        invariant
            i <= labels@.len(),
            edges(ts@) == edges_to(labels@.take(i as int), to as int),
        decreases labels@.len() - i,
    {
        ts.push(Transition::new(labels[i], to));
        proof {
            broadcast use vstd::seq::Seq::lemma_push_map_commute, vstd::seq::Seq::lemma_map_take_succ;

            assert(edges(ts@) =~= edges_to(labels@.take(i + 1), to as int));
        }
        i += 1;
    }
    proof {
        assert(labels@.take(labels@.len() as int) =~= labels@);
    }
    ts
}

/// The automaton of a class of characters: from its initial state every
/// label leads to its final state, and any other character to its failed
/// state. Where every label reads a character, it accepts the texts of one
/// character that a label reads, and no others.
pub fn class_of(labels: &Vec<Label>) -> (nfa: NFA)
    ensures
        nfa.wf(),
        nfa@ == class_model(labels@),
{
    let mut first = State::new(transitions_to(labels, 1), StateKind::Initial);
    first.add_transition(Label::AnyOtherChar, 2);
    let mut second = State::new(Vec::new(), StateKind::Final);
    second.add_transition(Label::AnyOtherChar, 2);
    let third = State::new(Vec::new(), StateKind::Failed);
    let mut states: Vec<State> = Vec::new();
    states.push(first);
    states.push(second);
    states.push(third);
    let mut final_states: Vec<usize> = Vec::new();
    final_states.push(1);
    let nfa = NFA::new(states, 0, final_states);
    proof {
        let m = class_model(labels@);
        assert(nfa@.states[0].transitions =~= m.states[0].transitions);
        assert(nfa@.states[1].transitions =~= m.states[1].transitions);
        assert(nfa@.states[2].transitions =~= m.states[2].transitions);
        assert(nfa@.states =~= m.states);
        assert(nfa@.finals =~= m.finals);
        lemma_class_wf(labels@);
    }
    nfa
}

/// The automaton of the complement of a class: from its initial state every
/// label leads to its failed state, and any other character to its final
/// state. Where every label reads a character, it accepts the texts of one
/// character that no label reads, and no others.
pub fn negated_class_of(labels: &Vec<Label>) -> (nfa: NFA)
    ensures
        nfa.wf(),
        nfa@ == negated_class_model(labels@),
{
    let mut first = State::new(transitions_to(labels, 2), StateKind::Initial);
    first.add_transition(Label::AnyOtherChar, 1);
    let second = State::new(Vec::new(), StateKind::Final);
    let third = State::new(Vec::new(), StateKind::Failed);
    let mut states: Vec<State> = Vec::new();
    states.push(first);
    states.push(second);
    states.push(third);
    let mut final_states: Vec<usize> = Vec::new();
    final_states.push(1);
    let nfa = NFA::new(states, 0, final_states);
    proof {
        let m = negated_class_model(labels@);
        assert(nfa@.states[0].transitions =~= m.states[0].transitions);
        assert(nfa@.states[1].transitions =~= m.states[1].transitions);
        assert(nfa@.states[2].transitions =~= m.states[2].transitions);
        assert(nfa@.states =~= m.states);
        assert(nfa@.finals =~= m.finals);
        lemma_class_wf(labels@);
    }
    nfa
}

/// The automaton of the characters that are not among `chars`, in either
/// case where the options ignore case.
pub fn negative_set_of_chars(chars: &Vec<char>, options: &NfaOptions) -> (nfa: NFA)
    ensures
        nfa.wf(),
        nfa@ == negated_class_model(cased_all(chars@, options.ignore_case, false)),
{
    let labels = case_labels(chars, options, false);
    negated_class_of(&labels)
}

/// The automaton of the characters that are among `chars`, in either case
/// where the options ignore case.
pub fn set_of_chars(chars: &Vec<char>, options: &NfaOptions) -> (nfa: NFA)
    ensures
        nfa.wf(),
        nfa@ == class_model(cased_all(chars@, options.ignore_case, true)),
{
    let labels = case_labels(chars, options, true);
    class_of(&labels)
}

/// One numeric character, followed by any number of numeric characters.
pub fn digits() -> (nfa: NFA)
    ensures
        nfa.wf(),
        nfa@ == digits_model(),
{
    concat(digit(), kleen(digit()))
}

/// The automaton of the alphabetic and numeric characters. The class knows
/// no case, so the options do not bear on it.
pub fn alphanumeric(options: &NfaOptions) -> (nfa: NFA)
    ensures
        nfa.wf(),
        nfa@ == alphanumeric_model(),
{
    let mut labels: Vec<Label> = Vec::new();
    labels.push(Label::AnyAlphanumeric);
    assert(labels@ =~= seq![Label::AnyAlphanumeric]);
    class_of(&labels)
}

/// The automaton of the numeric characters.
pub fn digit() -> (nfa: NFA)
    ensures
        nfa.wf(),
        nfa@ == digit_model(),
{
    let mut labels: Vec<Label> = Vec::new();
    labels.push(Label::AnyDigit);
    assert(labels@ =~= seq![Label::AnyDigit]);
    class_of(&labels)
}

/// The automaton of the one character `c`, in either case where the
/// options ignore case.
pub fn symbol(c: char, options: &NfaOptions) -> (nfa: NFA)
    ensures
        nfa.wf(),
        nfa@ == symbol_model(c, options.ignore_case),
{
    let mut chars: Vec<char> = Vec::new();
    chars.push(c);
    proof {
        let none = Seq::<char>::empty();
        assert(chars@.drop_last() =~= none);
        assert(cased_all(none, options.ignore_case, true) =~= Seq::<Label>::empty());
        assert(cased_all(chars@, options.ignore_case, true) =~= cased(
            c,
            options.ignore_case,
            true,
        ));
    }
    set_of_chars(&chars, options)
}

/// Appends the states of `src` to `dst`, the targets of their edges moved up
/// by the number of states that `dst` had.
fn append_shifted(dst: &mut Vec<State>, src: &Vec<State>)
    requires
        forall|i: int, t: int|
            0 <= i < src@.len() && 0 <= t < src@[i].transitions@.len() ==> (
            #[trigger] src@[i].transitions@[t]).to < src@.len(),
    ensures
        state_models(final(dst)@) == state_models(old(dst)@) + shift_states(
            state_models(src@),
            old(dst)@.len() as int,
        ),
        final(dst)@.len() == old(dst)@.len() + src@.len(),
{
    let off = dst.len();
    let ghost before = state_models(dst@);
    // Room is made first, with states that have no edges yet: once all of
    // them are in place, every index moved up is the index of a state.
    let mut i: usize = 0;
    while i < src.len()
        invariant
            i <= src@.len(),
            dst@.len() == off + i,
            state_models(dst@).take(off as int) == before,
            before.len() == off,
        decreases src@.len() - i,
    {
        let blank: Vec<Transition> = Vec::new();
        dst.push(State::new(blank, src[i].kind));
        proof {
            assert(state_models(dst@).take(off as int) =~= before);
        }
        i += 1;
    }
    let total = dst.len();
    i = 0;
    while i < src.len()
        invariant
            i <= src@.len(),
            total == off + src@.len(),
            dst@.len() == off + src@.len(),
            before.len() == off,
            state_models(dst@).take(off + i) == before + shift_states(state_models(src@), off as int).take(
                i as int,
            ),
            forall|i: int, t: int|
                0 <= i < src@.len() && 0 <= t < src@[i].transitions@.len() ==> (
                #[trigger] src@[i].transitions@[t]).to < src@.len(),
        decreases src@.len() - i,
    {
        let state = &src[i];
        let mut ts: Vec<Transition> = Vec::new();
        let mut t: usize = 0;
        while t < state.transitions.len()
            invariant
                t <= state.transitions@.len(),
                off + src@.len() <= usize::MAX,
                forall|u: int|
                    0 <= u < state.transitions@.len() ==> (#[trigger] state.transitions@[u]).to
                        < src@.len(),
                edges(ts@) == shift_edges(edges(state.transitions@), off as int).take(t as int),
            decreases state.transitions@.len() - t,
        {
            let tr = state.transitions[t];
            ts.push(Transition::new(tr.on, tr.to + off));
            proof {
                broadcast use
                    vstd::seq::Seq::lemma_push_map_commute,
                    vstd::seq::Seq::lemma_map_take_succ,
                ;

                assert(edges(ts@) =~= shift_edges(edges(state.transitions@), off as int).take(t + 1));
            }
            t += 1;
        }
        let ghost prior = state_models(dst@);
        dst.set(off + i, State::new(ts, state.kind));
        proof {
            let shifted = shift_states(state_models(src@), off as int);
            assert(shift_edges(edges(state.transitions@), off as int).take(
                state.transitions@.len() as int,
            ) =~= shift_edges(edges(state.transitions@), off as int));
            assert(dst@[off + i]@ == shifted[i as int]);
            assert(state_models(dst@) =~= prior.update(off + i, shifted[i as int]));
            let upto = before + shifted.take(i as int);
            assert forall|j: int| 0 <= j < off + i implies state_models(dst@)[j] == upto[j] by {
                assert(prior.take(off + i)[j] == prior[j]);
            }
            let now = state_models(dst@).take(off + i + 1);
            let goal = before + shifted.take(i + 1);
            assert(now.len() == goal.len());
            assert forall|j: int| 0 <= j < now.len() implies now[j] == goal[j] by {
                if j < off + i {
                    assert(now[j] == upto[j]);
                    if j >= off {
                        assert(upto[j] == shifted.take(i as int)[j - off]);
                        assert(goal[j] == shifted.take(i + 1)[j - off]);
                    }
                } else {
                    assert(now[j] == shifted[i as int]);
                    assert(goal[j] == shifted.take(i + 1)[j - off]);
                }
            }
            assert(now =~= goal);
        }
        i += 1;
    }
    proof {
        let shifted = shift_states(state_models(src@), off as int);
        assert(shifted.take(src@.len() as int) =~= shifted);
        assert(state_models(dst@).take(off + src@.len()) =~= state_models(dst@));
    }
}

/// Gives each state that `finals` names the edges `extra` and makes it
/// `Normal`: see [`link`].
fn link_finals(states: &mut Vec<State>, finals: &Vec<usize>, extra: &Vec<Transition>)
    requires
        forall|f: int| 0 <= f < finals@.len() ==> (#[trigger] finals@[f]) < old(states)@.len(),
    ensures
        final(states)@.len() == old(states)@.len(),
        state_models(final(states)@) == link(
            state_models(old(states)@),
            indices(finals@),
            edges(extra@),
        ),
{
    let ghost start = state_models(states@);
    let ghost names = indices(finals@);
    let ghost added = edges(extra@);
    let mut i: usize = 0;
    while i < finals.len()
        invariant
            i <= finals@.len(),
            states@.len() == start.len(),
            names == indices(finals@),
            added == edges(extra@),
            forall|f: int| 0 <= f < finals@.len() ==> (#[trigger] finals@[f]) < states@.len(),
            state_models(states@) == link(start, names.take(i as int), added),
        decreases finals@.len() - i,
    {
        let f = finals[i];
        let ghost prev = state_models(states@);
        let mut e: usize = 0;
        while e < extra.len()
            invariant
                e <= extra@.len(),
                f < states@.len(),
                states@.len() == prev.len(),
                added == edges(extra@),
                state_models(states@) == prev.update(
                    f as int,
                    StateModel {
                        transitions: prev[f as int].transitions + added.take(e as int),
                        kind: prev[f as int].kind,
                    },
                ),
            decreases extra@.len() - e,
        {
            let tr = extra[e];
            let ghost mid = state_models(states@);
            states[f].add_transition(tr.on, tr.to);
            proof {
                assert(mid[f as int].transitions == prev[f as int].transitions + added.take(
                    e as int,
                ));
                assert(added.take(e + 1) =~= added.take(e as int).push(tr@));
                assert(state_models(states@) =~= mid.update(f as int, states@[f as int]@));
                assert(states@[f as int]@.transitions =~= prev[f as int].transitions + added.take(
                    e + 1,
                ));
                assert(state_models(states@) =~= prev.update(
                    f as int,
                    StateModel {
                        transitions: prev[f as int].transitions + added.take(e + 1),
                        kind: prev[f as int].kind,
                    },
                ));
            }
            e += 1;
        }
        let ghost mid = state_models(states@);
        states[f].kind = StateKind::Normal;
        proof {
            assert(mid[f as int].transitions == prev[f as int].transitions + added.take(
                extra@.len() as int,
            ));
            assert(added.take(extra@.len() as int) =~= added);
            assert(names.take(i + 1).drop_last() =~= names.take(i as int));
            assert(names.take(i + 1).last() == f as int);
            assert(state_models(states@) =~= mid.update(f as int, states@[f as int]@));
            assert(state_models(states@) =~= link(start, names.take(i + 1), added));
        }
        i += 1;
    }
    proof {
        assert(names.take(finals@.len() as int) =~= names);
    }
}

/// Whether `v` holds `x`.
fn lists(v: &Vec<usize>, x: usize) -> (r: bool)
    ensures
        r == indices(v@).contains(x as int),
{
    let mut i: usize = 0;
    while i < v.len()
        invariant
            i <= v@.len(),
            forall|k: int| 0 <= k < i ==> indices(v@)[k] != x as int,
        decreases v@.len() - i,
    {
        if v[i] == x {
            assert(indices(v@)[i as int] == x as int);
            return true;
        }
        i += 1;
    }
    false
}

/// The indices of `v`, each moved up by `by`.
fn shifted_indices(v: &Vec<usize>, by: usize) -> (r: Vec<usize>)
    requires
        forall|i: int| 0 <= i < v@.len() ==> (#[trigger] v@[i]) + by <= usize::MAX,
    ensures
        indices(r@) == shift_indices(indices(v@), by as int),
{
    let mut r: Vec<usize> = Vec::new();
    let mut i: usize = 0;
    while i < v.len()
        invariant
            i <= v@.len(),
            forall|i: int| 0 <= i < v@.len() ==> (#[trigger] v@[i]) + by <= usize::MAX,
            indices(r@) == shift_indices(indices(v@), by as int).take(i as int),
        decreases v@.len() - i,
    {
        r.push(v[i] + by);
        proof {
            broadcast use vstd::seq::Seq::lemma_push_map_commute, vstd::seq::Seq::lemma_map_take_succ;

            assert(indices(r@) =~= shift_indices(indices(v@), by as int).take(i + 1));
        }
        i += 1;
    }
    proof {
        let all = shift_indices(indices(v@), by as int);
        assert(all.take(v@.len() as int) =~= all);
    }
    r
}

impl NFA {
    /// What well-formedness says of the states and indices that the
    /// automaton holds.
    proof fn lemma_wf_exec(&self)
        requires
            self.wf(),
        ensures
            self.initial_state < self.states@.len(),
            self@.states.len() == self.states@.len(),
            self@.finals.len() == self.final_states@.len(),
            forall|f: int|
                0 <= f < self.final_states@.len() ==> (#[trigger] self.final_states@[f])
                    < self.states@.len(),
            forall|i: int, t: int|
                0 <= i < self.states@.len() && 0 <= t < self.states@[i].transitions@.len() ==> (
                #[trigger] self.states@[i].transitions@[t]).to < self.states@.len(),
    {
        let m = self@;
        assert forall|f: int| 0 <= f < self.final_states@.len() implies (
        #[trigger] self.final_states@[f]) < self.states@.len() by {
            assert(m.finals[f] == self.final_states@[f] as int);
        }
        assert forall|i: int, t: int|
            0 <= i < self.states@.len() && 0 <= t < self.states@[i].transitions@.len() implies (
        #[trigger] self.states@[i].transitions@[t]).to < self.states@.len() by {
            assert(m.states[i].transitions[t] == self.states@[i].transitions@[t]@);
        }
    }
}

/// `a` or `b`. The states of `b` follow those of `a`; a new initial state
/// leads to both initial states without input, and every state that was
/// final leads, without input, to one new final state. The union accepts a
/// text exactly when `a` or `b` accepts it.
pub fn union(a: NFA, b: NFA) -> (r: NFA)
    requires
        a.wf(),
        b.wf(),
    ensures
        r.wf(),
        r@ == union_model(a@, b@),
{
    let ghost am = a@;
    let ghost bm = b@;
    proof {
        a.lemma_wf_exec();
        b.lemma_wf_exec();
    }
    let NFA { states: mut states, initial_state: a_initial, final_states: a_finals } = a;
    let off = states.len();
    append_shifted(&mut states, &b.states);
    let total = states.len();
    assert(total == off + b.states@.len());
    let mut start = State::new(Vec::new(), StateKind::Initial);
    start.add_transition(Label::Epsilon, a_initial);
    start.add_transition(Label::Epsilon, b.initial_state + off);
    states.push(start);
    states.push(State::new(Vec::new(), StateKind::Final));
    let end = states.len() - 1;
    let ghost all = state_models(states@);
    let mut extra: Vec<Transition> = Vec::new();
    extra.push(Transition::new(Label::Epsilon, end));
    let b_finals = shifted_indices(&b.final_states, off);
    proof {
        assert(indices(b_finals@).len() == indices(b.final_states@).len());
        assert forall|f: int| 0 <= f < b_finals@.len() implies (#[trigger] b_finals@[f])
            < states@.len() by {
            assert(indices(b_finals@)[f] == indices(b.final_states@)[f] + off);
        }
    }
    link_finals(&mut states, &a_finals, &extra);
    link_finals(&mut states, &b_finals, &extra);
    let mut final_states: Vec<usize> = Vec::new();
    final_states.push(end);
    let r = NFA::new(states, end - 1, final_states);
    proof {
        let m = union_model(am, bm);
        assert(edges(extra@) =~= seq![epsilon(end as int)]);
        assert(all =~= (am.states + shift_states(bm.states, off as int)).push(
            StateModel {
                transitions: seq![epsilon(am.initial), epsilon(bm.initial + off)],
                kind: StateKind::Initial,
            },
        ).push(StateModel { transitions: seq![], kind: StateKind::Final })) by {
            assert(all[off + bm.states.len()].transitions =~= seq![
                epsilon(am.initial),
                epsilon(bm.initial + off),
            ]);
            assert(all[off + bm.states.len() + 1].transitions =~= Seq::<Edge>::empty());
        }
        assert(r@.finals =~= m.finals);
        assert(r@ == m);
        lemma_union_wf(am, bm);
    }
    r
}

/// `a`, any number of times. Every state that was final leads, without
/// input, to a new final state and back to the initial state of `a`; a new
/// initial state leads to the initial state of `a` and to every state that
/// was final, so that no repetition at all is accepted too. Where `a` has a
/// final state and reads nothing after a text that it accepts, the star
/// accepts exactly the texts made of texts that `a` accepts.
pub fn kleen(a: NFA) -> (r: NFA)
    requires
        a.wf(),
    ensures
        r.wf(),
        r@ == kleen_model(a@),
{
    let ghost am = a@;
    proof {
        a.lemma_wf_exec();
    }
    let NFA { states: mut states, initial_state: a_initial, final_states: a_finals } = a;
    states.push(State::new(Vec::new(), StateKind::Final));
    let end = states.len() - 1;
    let ghost base = state_models(states@);
    let mut extra: Vec<Transition> = Vec::new();
    extra.push(Transition::new(Label::Epsilon, end));
    extra.push(Transition::new(Label::Epsilon, a_initial));
    link_finals(&mut states, &a_finals, &extra);
    let mut start = State::new(Vec::new(), StateKind::Initial);
    start.add_transition(Label::Epsilon, a_initial);
    let mut i: usize = 0;
    while i < a_finals.len()
        invariant
            i <= a_finals@.len(),
            start@.kind == StateKind::Initial,
            start@.transitions == seq![epsilon(a_initial as int)] + indices(a_finals@).map_values(
                |f: int| epsilon(f),
            ).take(i as int),
        decreases a_finals@.len() - i,
    {
        start.add_transition(Label::Epsilon, a_finals[i]);
        proof {
            let back = indices(a_finals@).map_values(|f: int| epsilon(f));
            assert(start@.transitions =~= seq![epsilon(a_initial as int)] + back.take(i + 1));
        }
        i += 1;
    }
    states.push(start);
    let mut final_states: Vec<usize> = Vec::new();
    final_states.push(end);
    let r = NFA::new(states, end + 1, final_states);
    proof {
        let m = kleen_model(am);
        let back = indices(a_finals@).map_values(|f: int| epsilon(f));
        assert(back.take(a_finals@.len() as int) =~= back);
        assert(edges(extra@) =~= seq![epsilon(end as int), epsilon(am.initial)]);
        assert(base =~= am.states.push(StateModel { transitions: seq![], kind: StateKind::Final })) by {
            assert(base[end as int].transitions =~= Seq::<Edge>::empty());
        }
        assert(r@.states =~= m.states);
        assert(r@.finals =~= m.finals);
        assert(r@ == m);
        lemma_kleen_wf(am);
    }
    r
}

/// `a`, then `b`. The states of `b` follow those of `a`; every final state
/// of `a` leads, without input, to the initial state of `b`, and the final
/// states are those of `b`. The concatenation accepts a text exactly when
/// `a` accepts a beginning of it and `b` the rest.
pub fn concat(a: NFA, b: NFA) -> (r: NFA)
    requires
        a.wf(),
        b.wf(),
    ensures
        r.wf(),
        r@ == concat_model(a@, b@),
{
    let ghost am = a@;
    let ghost bm = b@;
    proof {
        a.lemma_wf_exec();
        b.lemma_wf_exec();
    }
    let NFA { states: mut states, initial_state: a_initial, final_states: a_finals } = a;
    let off = states.len();
    append_shifted(&mut states, &b.states);
    let total = states.len();
    assert(total == off + b.states@.len());
    let mut extra: Vec<Transition> = Vec::new();
    extra.push(Transition::new(Label::Epsilon, b.initial_state + off));
    link_finals(&mut states, &a_finals, &extra);
    let final_states = shifted_indices(&b.final_states, off);
    let r = NFA::new(states, a_initial, final_states);
    proof {
        let m = concat_model(am, bm);
        assert(edges(extra@) =~= seq![epsilon(bm.initial + off)]);
        assert(r@ == m);
        lemma_concat_wf(am, bm);
    }
    r
}

} // verus!
