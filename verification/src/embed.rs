//! An automaton inside a larger one: its states stand at an offset, with the
//! edges they have, and its final states may have epsilon edges that lead
//! out of it. What the larger automaton does inside the smaller one is what
//! the smaller one does.

use vstd::prelude::*;
use crate::accept::label_takes;
use crate::compose::shift_edge;
use crate::nfa::{Automaton, Edge, Label};
use crate::text::Scalar;

verus! {

/// The set `s` with every state moved up by `by`.
pub open spec fn lifted(s: Set<int>, by: int) -> Set<int> {
    Set::new(|q: int| s.contains(q - by))
}

/// The states of `s` from `by` on, moved down by `by`.
pub open spec fn lowered(s: Set<int>, by: int, size: int) -> Set<int> {
    Set::new(|q: int| 0 <= q < size && s.contains(q + by))
}

/// All of `exits` are epsilon edges.
pub open spec fn all_epsilon(exits: Seq<Edge>) -> bool {
    forall|x: int| 0 <= x < exits.len() ==> (#[trigger] exits[x]).on == Label::Epsilon
}

/// `whole` holds `part` at the offset `by`: every state of `part` stands
/// there with the edges it has; a state that is final in `part` has every
/// edge of `exits` besides, and no state has any other edge.
pub open spec fn holds_at(whole: Automaton, part: Automaton, by: int, exits: Seq<Edge>) -> bool {
    &&& 0 <= by
    &&& by + part.states.len() <= whole.states.len()
    &&& all_epsilon(exits)
    &&& forall|i: int|
        0 <= i < part.states.len() ==> part.states[i].transitions.len() <= (
        #[trigger] whole.states[by + i]).transitions.len()
    &&& forall|i: int, t: int|
        0 <= i < part.states.len() && 0 <= t < part.states[i].transitions.len()
            ==> whole.states[by + i].transitions[t] == shift_edge(
            #[trigger] part.states[i].transitions[t],
            by,
        )
    &&& forall|i: int, t: int|
        0 <= i < part.states.len() && part.states[i].transitions.len() <= t
            < whole.states[by + i].transitions.len() ==> part.finals.contains(i) && exits.contains(
            #[trigger] whole.states[by + i].transitions[t],
        )
    &&& forall|i: int, x: int|
        0 <= i < part.states.len() && part.finals.contains(i) && 0 <= x < exits.len() ==> (
        #[trigger] whole.states[by + i]).transitions.contains(#[trigger] exits[x])
}

/// An exit leads from the final state `i` of the part to `to`.
pub open spec fn exit_to(part: Automaton, exits: Seq<Edge>, i: int, to: int) -> bool {
    part.finals.contains(i) && exists|x: int| 0 <= x < exits.len() && (#[trigger] exits[x]).to == to
}

/// Inside the part, the whole reads a character as the part does.
pub(crate) proof fn lemma_held_consumes(
    whole: Automaton,
    part: Automaton,
    by: int,
    exits: Seq<Edge>,
    i: int,
    k: Scalar,
    to: int,
)
    requires
        holds_at(whole, part, by, exits),
        0 <= i < part.states.len(),
    ensures
        whole.consumes(by + i, k, to) <==> part.consumes(i, k, to - by),
{
    let ws = whole.states[by + i].transitions;
    let ps = part.states[i].transitions;
    assert forall|t: int| 0 <= t < ws.len() implies (label_takes((#[trigger] ws[t]).on, k) ==> t
        < ps.len()) && (ws[t].on == Label::AnyOtherChar ==> t < ps.len()) by {
        if t >= ps.len() {
            assert(exits.contains(whole.states[by + i].transitions[t]));
            let x = choose|x: int| 0 <= x < exits.len() && exits[x] == ws[t];
            assert(exits[x].on == Label::Epsilon);
        }
    }
    assert forall|t: int| 0 <= t < ps.len() implies ws[t] == shift_edge(#[trigger] ps[t], by) by {}
    if whole.consumes(by + i, k, to) {
        if exists|t: int| 0 <= t < ws.len() && label_takes((#[trigger] ws[t]).on, k) && ws[t].to == to {
            let t = choose|t: int|
                0 <= t < ws.len() && label_takes((#[trigger] ws[t]).on, k) && ws[t].to == to;
            assert(label_takes(ps[t].on, k) && ps[t].to == to - by);
        } else {
            let t = choose|t: int|
                0 <= t < ws.len() && (#[trigger] ws[t]).on == Label::AnyOtherChar && ws[t].to == to;
            assert(ps[t].on == Label::AnyOtherChar && ps[t].to == to - by);
            assert forall|u: int| 0 <= u < ps.len() implies !label_takes((#[trigger] ps[u]).on, k) by {
                assert(!label_takes(ws[u].on, k));
            }
        }
    }
    if part.consumes(i, k, to - by) {
        if exists|t: int|
            0 <= t < ps.len() && label_takes((#[trigger] ps[t]).on, k) && ps[t].to == to - by {
            let t = choose|t: int|
                0 <= t < ps.len() && label_takes((#[trigger] ps[t]).on, k) && ps[t].to == to - by;
            assert(label_takes(ws[t].on, k) && ws[t].to == to);
        } else {
            let t = choose|t: int|
                0 <= t < ps.len() && (#[trigger] ps[t]).on == Label::AnyOtherChar && ps[t].to == to
                    - by;
            assert(ws[t].on == Label::AnyOtherChar && ws[t].to == to);
            assert forall|u: int| 0 <= u < ws.len() implies !label_takes((#[trigger] ws[u]).on, k) by {
                if u < ps.len() {
                    assert(!label_takes(ps[u].on, k));
                }
            }
        }
    }
}

/// Inside the part, the epsilon edges of the whole are those of the part
/// and, from a final state of the part, the exits.
pub(crate) proof fn lemma_held_epsilon(
    whole: Automaton,
    part: Automaton,
    by: int,
    exits: Seq<Edge>,
    i: int,
    to: int,
)
    requires
        holds_at(whole, part, by, exits),
        0 <= i < part.states.len(),
    ensures
        whole.epsilon_edge(by + i, to) <==> part.epsilon_edge(i, to - by) || exit_to(
            part,
            exits,
            i,
            to,
        ),
{
    let ws = whole.states[by + i].transitions;
    let ps = part.states[i].transitions;
    assert forall|t: int| 0 <= t < ps.len() implies ws[t] == shift_edge(#[trigger] ps[t], by) by {}
    if whole.epsilon_edge(by + i, to) {
        let t = choose|t: int|
            0 <= t < ws.len() && (#[trigger] ws[t]).on == Label::Epsilon && ws[t].to == to;
        if t < ps.len() {
            assert(ps[t].on == Label::Epsilon && ps[t].to == to - by);
        } else {
            assert(exits.contains(whole.states[by + i].transitions[t]));
            let x = choose|x: int| 0 <= x < exits.len() && exits[x] == ws[t];
            assert(exits[x].to == to);
        }
    }
    if part.epsilon_edge(i, to - by) {
        let t = choose|t: int|
            0 <= t < ps.len() && (#[trigger] ps[t]).on == Label::Epsilon && ps[t].to == to - by;
        assert(ws[t].on == Label::Epsilon && ws[t].to == to);
    }
    if exit_to(part, exits, i, to) {
        let x = choose|x: int| 0 <= x < exits.len() && (#[trigger] exits[x]).to == to;
        assert(whole.states[by + i].transitions.contains(exits[x]));
        let t = choose|t: int| 0 <= t < ws.len() && ws[t] == exits[x];
        assert(ws[t].on == Label::Epsilon);
    }
}

impl Automaton {
    /// Every state that `s` holds is a state of the automaton.
    pub open spec fn within(self, s: Set<int>) -> bool {
        forall|q: int| s.contains(q) ==> 0 <= q < self.states.len()
    }

    /// One more epsilon edge lengthens a way.
    pub(crate) proof fn lemma_reach_on(self, from: int, mid: int, to: int, steps: nat)
        requires
            self.epsilon_reach(from, mid, steps),
            self.epsilon_edge(mid, to),
        ensures
            self.epsilon_reach(from, to, steps + 1),
    {
    }

    /// Two ways, one after the other, are a way.
    pub(crate) proof fn lemma_reach_join(self, from: int, mid: int, to: int, first: nat, second: nat)
        requires
            self.epsilon_reach(from, mid, first),
            self.epsilon_reach(mid, to, second),
        ensures
            self.epsilon_reach(from, to, first + second),
        decreases second,
    {
        if second > 0 {
            let last = choose|last: int|
                self.epsilon_reach(mid, last, (second - 1) as nat) && #[trigger] self.epsilon_edge(
                    last,
                    to,
                );
            self.lemma_reach_join(from, mid, last, first, (second - 1) as nat);
            self.lemma_reach_on(from, last, to, (first + second - 1) as nat);
        }
    }

    /// In a well-formed automaton, what is reached from a state is a state.
    pub(crate) proof fn lemma_reach_within(self, from: int, to: int, steps: nat)
        requires
            self.wf(),
            0 <= from < self.states.len(),
            self.epsilon_reach(from, to, steps),
        ensures
            0 <= to < self.states.len(),
    {
        if steps > 0 {
            let last = choose|last: int|
                self.epsilon_reach(from, last, (steps - 1) as nat) && #[trigger] self.epsilon_edge(
                    last,
                    to,
                );
            let t = choose|t: int|
                0 <= t < self.states[last].transitions.len() && (
                #[trigger] self.states[last].transitions[t]).on == Label::Epsilon
                    && self.states[last].transitions[t].to == to;
        }
    }

    /// In a well-formed automaton, the closure of a set of states is a set
    /// of states.
    pub(crate) proof fn lemma_closure_within(self, s: Set<int>)
        requires
            self.wf(),
            self.within(s),
        ensures
            self.within(self.closure(s)),
    {
        assert forall|q: int| self.closure(s).contains(q) implies 0 <= q < self.states.len() by {
            let (i, steps) = choose|i: int, steps: nat|
                s.contains(i) && #[trigger] self.epsilon_reach(i, q, steps);
            self.lemma_reach_within(i, q, steps);
        }
    }

    /// In a well-formed automaton, reading a character leads to states.
    pub(crate) proof fn lemma_after_within(self, s: Set<int>, k: Scalar)
        requires
            self.wf(),
        ensures
            self.within(self.after(s, k)),
    {
        assert forall|q: int| self.after(s, k).contains(q) implies 0 <= q < self.states.len() by {
            let from = choose|from: int| s.contains(from) && #[trigger] self.consumes(from, k, q);
            let ts = self.states[from].transitions;
            if exists|t: int| 0 <= t < ts.len() && label_takes((#[trigger] ts[t]).on, k) && ts[t].to == q {
                let t = choose|t: int|
                    0 <= t < ts.len() && label_takes((#[trigger] ts[t]).on, k) && ts[t].to == q;
                assert(self.states[from].transitions[t].to == q);
            } else {
                let t = choose|t: int|
                    0 <= t < ts.len() && (#[trigger] ts[t]).on == Label::AnyOtherChar && ts[t].to == q;
                assert(self.states[from].transitions[t].to == q);
            }
        }
    }

    /// In a well-formed automaton, every frontier is a set of states.
    pub(crate) proof fn lemma_frontier_within(self, text: Seq<Scalar>)
        requires
            self.wf(),
        ensures
            self.within(self.frontier(text)),
        decreases text.len(),
    {
        if text.len() == 0 {
            self.lemma_closure_within(set![self.initial]);
        } else {
            self.lemma_after_within(self.frontier(text.drop_last()), text.last());
            self.lemma_closure_within(self.after(self.frontier(text.drop_last()), text.last()));
        }
    }

    /// The closure of two sets together is their closures together.
    pub(crate) proof fn lemma_closure_union(self, s: Set<int>, t: Set<int>)
        ensures
            self.closure(s.union(t)) == self.closure(s).union(self.closure(t)),
    {
        let both = self.closure(s.union(t));
        let each = self.closure(s).union(self.closure(t));
        assert forall|q: int| both.contains(q) implies each.contains(q) by {
            let (i, steps) = choose|i: int, steps: nat|
                s.union(t).contains(i) && #[trigger] self.epsilon_reach(i, q, steps);
            if s.contains(i) {
                assert(self.closure(s).contains(q));
            } else {
                assert(self.closure(t).contains(q));
            }
        }
        assert forall|q: int| each.contains(q) implies both.contains(q) by {
            if self.closure(s).contains(q) {
                let (i, steps) = choose|i: int, steps: nat|
                    s.contains(i) && #[trigger] self.epsilon_reach(i, q, steps);
                assert(s.union(t).contains(i));
            } else {
                let (i, steps) = choose|i: int, steps: nat|
                    t.contains(i) && #[trigger] self.epsilon_reach(i, q, steps);
                assert(s.union(t).contains(i));
            }
        }
        assert(both =~= each);
    }

    /// Reading a character in two sets together leads to what it leads to in
    /// each.
    pub(crate) proof fn lemma_after_union(self, s: Set<int>, t: Set<int>, k: Scalar)
        ensures
            self.after(s.union(t), k) == self.after(s, k).union(self.after(t, k)),
    {
        let both = self.after(s.union(t), k);
        let each = self.after(s, k).union(self.after(t, k));
        assert forall|q: int| both.contains(q) implies each.contains(q) by {
            let from = choose|from: int|
                s.union(t).contains(from) && #[trigger] self.consumes(from, k, q);
            if s.contains(from) {
                assert(self.after(s, k).contains(q));
            } else {
                assert(self.after(t, k).contains(q));
            }
        }
        assert forall|q: int| each.contains(q) implies both.contains(q) by {
            if self.after(s, k).contains(q) {
                let from = choose|from: int| s.contains(from) && #[trigger] self.consumes(from, k, q);
                assert(s.union(t).contains(from));
            } else {
                let from = choose|from: int| t.contains(from) && #[trigger] self.consumes(from, k, q);
                assert(s.union(t).contains(from));
            }
        }
        assert(both =~= each);
    }
}

/// A way inside the part is a way in the whole.
pub(crate) proof fn lemma_held_reach(
    whole: Automaton,
    part: Automaton,
    by: int,
    exits: Seq<Edge>,
    i: int,
    j: int,
    steps: nat,
)
    requires
        holds_at(whole, part, by, exits),
        0 <= i < part.states.len(),
        part.epsilon_reach(i, j, steps),
    ensures
        whole.epsilon_reach(by + i, by + j, steps),
    decreases steps,
{
    if steps > 0 {
        let last = choose|last: int|
            part.epsilon_reach(i, last, (steps - 1) as nat) && #[trigger] part.epsilon_edge(last, j);
        lemma_held_reach(whole, part, by, exits, i, last, (steps - 1) as nat);
        lemma_held_epsilon(whole, part, by, exits, last, by + j);
        whole.lemma_reach_on(by + i, by + last, by + j, (steps - 1) as nat);
    }
}

/// A way in the whole that starts inside the part stays in the part and is
/// a way of the part, or leaves it through an exit from a final state that
/// the part reaches on the first steps of the way.
pub open spec fn stays_or_leaves(
    whole: Automaton,
    part: Automaton,
    by: int,
    exits: Seq<Edge>,
    i: int,
    to: int,
    steps: nat,
) -> bool {
    ||| 0 <= to - by < part.states.len() && part.epsilon_reach(i, to - by, steps)
    ||| exists|p: int, first: nat, out: int|
        first < steps && #[trigger] part.epsilon_reach(i, p, first) && exit_to(part, exits, p, out)
            && #[trigger] whole.epsilon_reach(out, to, (steps - first - 1) as nat)
}

/// See [`stays_or_leaves`].
pub(crate) proof fn lemma_held_way(
    whole: Automaton,
    part: Automaton,
    by: int,
    exits: Seq<Edge>,
    i: int,
    to: int,
    steps: nat,
)
    requires
        holds_at(whole, part, by, exits),
        part.wf(),
        0 <= i < part.states.len(),
        whole.epsilon_reach(by + i, to, steps),
    ensures
        stays_or_leaves(whole, part, by, exits, i, to, steps),
    decreases steps,
{
    if steps > 0 {
        let last = choose|last: int|
            whole.epsilon_reach(by + i, last, (steps - 1) as nat) && #[trigger] whole.epsilon_edge(
                last,
                to,
            );
        lemma_held_way(whole, part, by, exits, i, last, (steps - 1) as nat);
        if 0 <= last - by < part.states.len() && part.epsilon_reach(i, last - by, (steps - 1) as nat) {
            lemma_held_epsilon(whole, part, by, exits, last - by, to);
            if part.epsilon_edge(last - by, to - by) {
                part.lemma_reach_on(i, last - by, to - by, (steps - 1) as nat);
                part.lemma_reach_within(i, to - by, steps);
            } else {
                assert(exit_to(part, exits, last - by, to));
                assert(whole.epsilon_reach(to, to, 0));
                assert(part.epsilon_reach(i, last - by, (steps - 1) as nat) && exit_to(
                    part,
                    exits,
                    last - by,
                    to,
                ) && whole.epsilon_reach(to, to, (steps - (steps - 1) - 1) as nat));
            }
        } else {
            let (p, first, out) = choose|p: int, first: nat, out: int|
                first < steps - 1 && #[trigger] part.epsilon_reach(i, p, first) && exit_to(
                    part,
                    exits,
                    p,
                    out,
                ) && #[trigger] whole.epsilon_reach(out, last, (steps - 1 - first - 1) as nat);
            whole.lemma_reach_on(out, last, to, (steps - 1 - first - 1) as nat);
            assert(part.epsilon_reach(i, p, first) && exit_to(part, exits, p, out)
                && whole.epsilon_reach(out, to, (steps - first - 1) as nat));
        }
    }
}

impl Automaton {
    /// A way of at least one step begins with an edge.
    pub(crate) proof fn lemma_reach_first(self, from: int, to: int, steps: nat)
        requires
            steps > 0,
            self.epsilon_reach(from, to, steps),
        ensures
            exists|next: int| #[trigger]
                self.epsilon_edge(from, next) && self.epsilon_reach(next, to, (steps - 1) as nat),
        decreases steps,
    {
        let last = choose|last: int|
            self.epsilon_reach(from, last, (steps - 1) as nat) && #[trigger] self.epsilon_edge(
                last,
                to,
            );
        if steps == 1 {
            assert(self.epsilon_edge(from, to) && self.epsilon_reach(to, to, 0));
        } else {
            self.lemma_reach_first(from, last, (steps - 1) as nat);
            let next = choose|next: int| #[trigger]
                self.epsilon_edge(from, next) && self.epsilon_reach(next, last, (steps - 2) as nat);
            self.lemma_reach_on(next, last, to, (steps - 2) as nat);
            assert(self.epsilon_edge(from, next) && self.epsilon_reach(
                next,
                to,
                (steps - 1) as nat,
            ));
        }
    }

    /// From a state that no epsilon edge leaves, only the state is reached.
    pub(crate) proof fn lemma_reach_from_end(self, from: int, to: int, steps: nat)
        requires
            forall|next: int| !#[trigger] self.epsilon_edge(from, next),
            self.epsilon_reach(from, to, steps),
        ensures
            to == from,
            steps == 0,
    {
        if steps > 0 {
            self.lemma_reach_first(from, to, steps);
        }
    }
}

/// What the whole reaches from states of the part, where every exit leads
/// to `end`, a state that no epsilon edge leaves: what the part reaches,
/// and `end` where the part reaches a final state.
pub(crate) proof fn lemma_held_closure(
    whole: Automaton,
    part: Automaton,
    by: int,
    exits: Seq<Edge>,
    end: int,
    seed: Set<int>,
    y: int,
)
    requires
        holds_at(whole, part, by, exits),
        part.wf(),
        part.within(seed),
        exits.len() > 0,
        forall|x: int| 0 <= x < exits.len() ==> (#[trigger] exits[x]).to == end,
        forall|next: int| !#[trigger] whole.epsilon_edge(end, next),
        end < by || end >= by + part.states.len(),
    ensures
        whole.closure(lifted(seed, by)).contains(y) <==> part.closure(seed).contains(y - by) || (y
            == end && part.accepting(part.closure(seed))),
{
    part.lemma_closure_within(seed);
    if whole.closure(lifted(seed, by)).contains(y) {
        let (from, steps) = choose|from: int, steps: nat|
            lifted(seed, by).contains(from) && #[trigger] whole.epsilon_reach(from, y, steps);
        let i = from - by;
        lemma_held_way(whole, part, by, exits, i, y, steps);
        if 0 <= y - by < part.states.len() && part.epsilon_reach(i, y - by, steps) {
            assert(part.closure(seed).contains(y - by));
        } else {
            let (p, first, out) = choose|p: int, first: nat, out: int|
                first < steps && #[trigger] part.epsilon_reach(i, p, first) && exit_to(
                    part,
                    exits,
                    p,
                    out,
                ) && #[trigger] whole.epsilon_reach(out, y, (steps - first - 1) as nat);
            whole.lemma_reach_from_end(out, y, (steps - first - 1) as nat);
            assert(part.closure(seed).contains(p));
            assert(part.states[p].kind == crate::nfa::StateKind::Final);
        }
    }
    if part.closure(seed).contains(y - by) {
        let (i, steps) = choose|i: int, steps: nat|
            seed.contains(i) && #[trigger] part.epsilon_reach(i, y - by, steps);
        lemma_held_reach(whole, part, by, exits, i, y - by, steps);
        assert(lifted(seed, by).contains(by + i));
    }
    if y == end && part.accepting(part.closure(seed)) {
        let q = choose|q: int|
            part.closure(seed).contains(q) && 0 <= q < part.states.len() && (
            #[trigger] part.states[q]).kind == crate::nfa::StateKind::Final;
        let (i, steps) = choose|i: int, steps: nat|
            seed.contains(i) && #[trigger] part.epsilon_reach(i, q, steps);
        lemma_held_reach(whole, part, by, exits, i, q, steps);
        assert(part.finals.contains(q));
        assert(exits[0].to == end);
        assert(exit_to(part, exits, q, end));
        lemma_held_epsilon(whole, part, by, exits, q, end);
        whole.lemma_reach_on(by + i, by + q, end, steps);
        assert(lifted(seed, by).contains(by + i));
    }
}

/// What the whole reads in states of the part is what the part reads.
pub(crate) proof fn lemma_held_after(
    whole: Automaton,
    part: Automaton,
    by: int,
    exits: Seq<Edge>,
    s: Set<int>,
    k: Scalar,
)
    requires
        holds_at(whole, part, by, exits),
        part.within(s),
    ensures
        whole.after(lifted(s, by), k) == lifted(part.after(s, k), by),
{
    let up = whole.after(lifted(s, by), k);
    let down = lifted(part.after(s, k), by);
    assert forall|q: int| up.contains(q) implies down.contains(q) by {
        let from = choose|from: int|
            lifted(s, by).contains(from) && #[trigger] whole.consumes(from, k, q);
        lemma_held_consumes(whole, part, by, exits, from - by, k, q);
        assert(part.consumes(from - by, k, q - by));
    }
    assert forall|q: int| down.contains(q) implies up.contains(q) by {
        let from = choose|from: int| s.contains(from) && #[trigger] part.consumes(from, k, q - by);
        lemma_held_consumes(whole, part, by, exits, from, k, q);
        assert(lifted(s, by).contains(by + from));
        assert(whole.consumes(by + from, k, q));
    }
    assert(up =~= down);
}

impl Automaton {
    /// What is reached from a state is the state and what is reached from
    /// the states that its epsilon edges lead to.
    pub(crate) proof fn lemma_closure_of_source(self, from: int, targets: Set<int>, y: int)
        requires
            forall|next: int| #[trigger] self.epsilon_edge(from, next) <==> targets.contains(next),
        ensures
            self.closure(set![from]).contains(y) <==> y == from || self.closure(targets).contains(
                y,
            ),
    {
        if self.closure(set![from]).contains(y) {
            let (i, steps) = choose|i: int, steps: nat|
                set![from].contains(i) && #[trigger] self.epsilon_reach(i, y, steps);
            if steps > 0 {
                self.lemma_reach_first(from, y, steps);
                let next = choose|next: int| #[trigger]
                    self.epsilon_edge(from, next) && self.epsilon_reach(
                        next,
                        y,
                        (steps - 1) as nat,
                    );
                assert(targets.contains(next));
            }
        }
        if y == from {
            assert(self.epsilon_reach(from, from, 0));
            assert(set![from].contains(from));
        }
        if self.closure(targets).contains(y) {
            let (next, steps) = choose|next: int, steps: nat|
                targets.contains(next) && #[trigger] self.epsilon_reach(next, y, steps);
            assert(self.epsilon_edge(from, next));
            assert(self.epsilon_reach(from, from, 0));
            self.lemma_reach_on(from, from, next, 0);
            self.lemma_reach_join(from, next, y, 1, steps);
            assert(set![from].contains(from));
        }
    }

    /// A state whose edges are all epsilon edges reads nothing.
    pub(crate) proof fn lemma_reads_nothing(self, s: Set<int>, k: Scalar)
        requires
            forall|i: int, t: int|
                s.contains(i) && 0 <= i < self.states.len() && 0 <= t
                    < self.states[i].transitions.len() ==> (#[trigger] self.states[i].transitions[t]).on
                    == Label::Epsilon,
        ensures
            self.after(s, k) == Set::<int>::empty(),
    {
        assert forall|q: int| !self.after(s, k).contains(q) by {
            if self.after(s, k).contains(q) {
                let from = choose|from: int| s.contains(from) && #[trigger] self.consumes(from, k, q);
                let ts = self.states[from].transitions;
                if exists|t: int|
                    0 <= t < ts.len() && label_takes((#[trigger] ts[t]).on, k) && ts[t].to == q {
                    let t = choose|t: int|
                        0 <= t < ts.len() && label_takes((#[trigger] ts[t]).on, k) && ts[t].to == q;
                    assert(self.states[from].transitions[t].on == Label::Epsilon);
                } else {
                    let t = choose|t: int|
                        0 <= t < ts.len() && (#[trigger] ts[t]).on == Label::AnyOtherChar && ts[t].to
                            == q;
                    assert(self.states[from].transitions[t].on == Label::Epsilon);
                }
            }
        }
        assert(self.after(s, k) =~= Set::<int>::empty());
    }
}

impl Automaton {
    /// What a state of a closure reaches is in the closure.
    pub(crate) proof fn lemma_closure_reach(self, seed: Set<int>, from: int, to: int, steps: nat)
        requires
            self.closure(seed).contains(from),
            self.epsilon_reach(from, to, steps),
        ensures
            self.closure(seed).contains(to),
    {
        let (i, first) = choose|i: int, first: nat|
            seed.contains(i) && #[trigger] self.epsilon_reach(i, from, first);
        self.lemma_reach_join(i, from, to, first, steps);
    }

    /// What a state of a frontier reaches is in the frontier.
    pub(crate) proof fn lemma_frontier_reach(self, text: Seq<Scalar>, from: int, to: int, steps: nat)
        requires
            self.frontier(text).contains(from),
            self.epsilon_reach(from, to, steps),
        ensures
            self.frontier(text).contains(to),
    {
        if text.len() == 0 {
            self.lemma_closure_reach(set![self.initial], from, to, steps);
        } else {
            self.lemma_closure_reach(
                self.after(self.frontier(text.drop_last()), text.last()),
                from,
                to,
                steps,
            );
        }
    }

    /// A frontier holds the state that an epsilon edge leads to from a
    /// state that it holds.
    pub(crate) proof fn lemma_frontier_edge(self, text: Seq<Scalar>, from: int, to: int)
        requires
            self.frontier(text).contains(from),
            self.epsilon_edge(from, to),
        ensures
            self.frontier(text).contains(to),
    {
        assert(self.epsilon_reach(from, from, 0));
        self.lemma_reach_on(from, from, to, 0);
        self.lemma_frontier_reach(text, from, to, 1);
    }

    /// The frontier after one more character holds what that character
    /// leads to from the frontier before it.
    pub(crate) proof fn lemma_frontier_read(self, text: Seq<Scalar>, from: int, to: int)
        requires
            text.len() > 0,
            self.frontier(text.drop_last()).contains(from),
            self.consumes(from, text.last(), to),
        ensures
            self.frontier(text).contains(to),
    {
        let read = self.after(self.frontier(text.drop_last()), text.last());
        assert(read.contains(to));
        self.lemma_closure_seed(read, to);
    }
}

} // verus!
