//! Running an automaton over text: frontiers held as sets of states without
//! repetition, the search for an accepted stretch, and the list of matches
//! of a text, line by line.

use vstd::prelude::*;
use crate::accept::label_takes;
use crate::nfa::{edges, Automaton, Label, StateKind, NFA};
use crate::text::{
    char_len_utf8, chars_of, classify_text, lemma_offsets_grow, lemma_utf8_len_prefix,
    lemma_utf8_len_push, lemma_utf8_len_subrange, scalars_of, utf8_len, Scalar,
};

verus! {

/// Number of `false` entries.
spec fn count_false(s: Seq<bool>) -> nat
    decreases s.len(),
{
    if s.len() == 0 {
        0
    } else {
        count_false(s.drop_last()) + if s.last() {
            0nat
        } else {
            1nat
        }
    }
}

/// Setting an entry that was `false` leaves one `false` entry fewer.
proof fn lemma_count_false_set(s: Seq<bool>, j: int)
    requires
        0 <= j < s.len(),
        !s[j],
    ensures
        count_false(s.update(j, true)) + 1 == count_false(s),
    decreases s.len(),
{
    if j == s.len() - 1 {
        assert(s.update(j, true).drop_last() =~= s.drop_last());
    } else {
        assert(s.update(j, true).drop_last() =~= s.drop_last().update(j, true));
        lemma_count_false_set(s.drop_last(), j);
    }
}

/// A set of states of an automaton with `present.len()` states: `members`
/// lists each state of the set once, and `present` answers membership.
struct StateSet {
    members: Vec<usize>,
    present: Vec<bool>,
}

impl View for StateSet {
    type V = Set<int>;

    closed spec fn view(&self) -> Set<int> {
        Set::new(|j: int| 0 <= j < self.present@.len() && self.present@[j])
    }
}

impl StateSet {
    /// `members` lists states of the automaton that `present` marks, and
    /// every state that `present` marks.
    spec fn wf(&self) -> bool {
        &&& forall|i: int|
            0 <= i < self.members@.len() ==> (#[trigger] self.members@[i]) < self.present@.len()
                && self.present@[self.members@[i] as int]
        &&& forall|j: int|
            0 <= j < self.present@.len() && #[trigger] self.present@[j] ==> self.lists(j)
    }

    /// `members` names state `j`.
    spec fn lists(&self, j: int) -> bool {
        exists|i: int| 0 <= i < self.members@.len() && (#[trigger] self.members@[i]) as int == j
    }

    /// The empty set over `n` states.
    fn new(n: usize) -> (s: Self)
        ensures
            s.wf(),
            s.present@.len() == n,
            s@ == Set::<int>::empty(),
            s.members@.len() == 0,
    {
        let mut present: Vec<bool> = Vec::new();
        let mut i: usize = 0;
        while i < n
            invariant
                i <= n,
                present@.len() == i,
                forall|j: int| 0 <= j < i ==> !present@[j],
            decreases n - i,
        {
            present.push(false);
            i += 1;
        }
        let s = StateSet { members: Vec::new(), present };
        assert(s@ =~= Set::<int>::empty());
        s
    }

    /// Adds state `j`, at the end of `members` if it is new.
    fn insert(&mut self, j: usize)
        requires
            old(self).wf(),
            j < old(self).present@.len(),
        ensures
            final(self).wf(),
            final(self).present@.len() == old(self).present@.len(),
            final(self)@ == old(self)@.insert(j as int),
            old(self)@.contains(j as int) ==> final(self).members@ == old(self).members@
                && final(self).present@ == old(self).present@,
            !old(self)@.contains(j as int) ==> final(self).members@ == old(self).members@.push(j)
                && count_false(final(self).present@) + 1 == count_false(old(self).present@),
    {
        if !self.present[j] {
            proof {
                lemma_count_false_set(self.present@, j as int);
            }
            self.present.set(j, true);
            self.members.push(j);
            proof {
                let old_m = old(self).members@;
                assert forall|x: int|
                    0 <= x < self.present@.len() && #[trigger] self.present@[x] implies self.lists(
                    x,
                ) by {
                    if x == j {
                        assert(self.members@[old_m.len() as int] == j);
                    } else {
                        assert(old(self).present@[x]);
                        assert(old(self).lists(x));
                        let w = choose|w: int| 0 <= w < old_m.len() && (#[trigger] old_m[w]) as int == x;
                        assert(self.members@[w] as int == x);
                    }
                }
            }
        }
        assert(self@ =~= old(self)@.insert(j as int));
    }
}

/// A match: `from` and `to` are byte offsets within line `line`, the first
/// byte of the match and the first byte after it. Lines count from zero.
#[derive(Clone, Copy, Debug, PartialEq, Eq)]
pub struct Match {
    pub from: usize,
    pub to: usize,
    pub line: usize,
}

/// The model of a match.
pub struct Span {
    pub from: int,
    pub to: int,
    pub line: int,
}

impl View for Match {
    type V = Span;

    open spec fn view(&self) -> Span {
        Span { from: self.from as int, to: self.to as int, line: self.line as int }
    }
}

/// The models of a sequence of matches.
pub open spec fn spans(v: Seq<Match>) -> Seq<Span> {
    v.map_values(|m: Match| m@)
}

/// The byte offset, within a line, of the character with index `i`: the
/// length of the UTF-8 encoding of the characters before it.
pub open spec fn byte_offset(line: Seq<Scalar>, i: int) -> int {
    utf8_len(chars_of(line).take(i)) as int
}

/// The index of the first line feed in `text`, or the length of `text` where
/// it holds none.
pub open spec fn line_end(text: Seq<Scalar>) -> int
    decreases text.len(),
{
    if text.len() == 0 {
        0
    } else if text[0].value == '\n' {
        0
    } else {
        1 + line_end(text.drop_first())
    }
}

impl Automaton {
    /// The match that starts at character `s` of `line`: it ends where the
    /// longest accepted stretch from `s` ends.
    pub open spec fn match_at(self, line: Seq<Scalar>, line_no: int, s: int) -> Option<Span> {
        match self.longest_end(line, s, line.len() as int) {
            Some(e) => Some(
                Span { from: byte_offset(line, s), to: byte_offset(line, e), line: line_no },
            ),
            None => None,
        }
    }

    /// The matches that start before character `upto` of `line`, in the
    /// order of their starts.
    pub open spec fn line_matches(self, line: Seq<Scalar>, line_no: int, upto: int) -> Seq<Span>
        decreases upto,
    {
        if upto <= 0 {
            seq![]
        } else {
            let front = self.line_matches(line, line_no, upto - 1);
            match self.match_at(line, line_no, upto - 1) {
                Some(m) => front.push(m),
                None => front,
            }
        }
    }

    /// The matches of `text`, whose first line has the number `line_no`:
    /// those of its first line, then those of the lines after it. Lines end
    /// at a line feed.
    pub open spec fn text_matches(self, text: Seq<Scalar>, line_no: int) -> Seq<Span>
        decreases text.len(),
    {
        let n = line_end(text);
        let here = self.line_matches(text.take(n), line_no, n);
        if 0 <= n < text.len() {
            here + self.text_matches(text.skip(n + 1), line_no + 1)
        } else {
            here
        }
    }
}

/// Where a stretch holds no line feed and ends at one or at the end of the
/// text, it is the first line of what starts with it.
proof fn lemma_line_end(text: Seq<Scalar>, from: int, to: int)
    requires
        0 <= from <= to <= text.len(),
        forall|j: int| from <= j < to ==> (#[trigger] text[j]).value != '\n',
        to == text.len() || text[to].value == '\n',
    ensures
        line_end(text.skip(from)) == to - from,
    decreases to - from,
{
    let rest = text.skip(from);
    if from < to {
        assert(rest[0] == text[from]);
        assert(rest.drop_first() =~= text.skip(from + 1));
        lemma_line_end(text, from + 1, to);
    } else if to < text.len() {
        assert(rest[0] == text[to]);
    }
}

impl NFA {
    /// The model of the state with index `s` is the model of what `states`
    /// holds there.
    proof fn lemma_view_state(&self, s: int)
        requires
            0 <= s < self.states@.len(),
        ensures
            self@.states.len() == self.states@.len(),
            self@.states[s] == self.states@[s]@,
            self@.states[s].transitions == edges(self.states@[s].transitions@),
            self@.states[s].transitions.len() == self.states@[s].transitions@.len(),
            forall|t: int|
                0 <= t < self.states@[s].transitions@.len() ==> (
                #[trigger] self@.states[s].transitions[t]) == self.states@[s].transitions@[t]@,
            self@.states[s].kind == self.states@[s].kind,
    {
    }

    /// Grows `set` to its epsilon-closure.
    fn close(&self, set: &mut StateSet)
        requires
            self.wf(),
            old(set).wf(),
            old(set).present@.len() == self.states@.len(),
        ensures
            final(set).wf(),
            final(set).present@.len() == self.states@.len(),
            final(set)@ == self@.closure(old(set)@),
    {
        let ghost m = self@;
        let ghost seed = set@;
        proof {
            assert forall|j: int| seed.contains(j) implies m.closure(seed).contains(j) by {
                m.lemma_closure_seed(seed, j);
            }
        }
        let mut i: usize = 0;
        while i < set.members.len()
            invariant
                self.wf(),
                m == self@,
                set.wf(),
                set.present@.len() == self.states@.len(),
                i <= set.members@.len(),
                forall|j: int| seed.contains(j) ==> set@.contains(j),
                forall|j: int| set@.contains(j) ==> m.closure(seed).contains(j),
                forall|idx: int, t: int|
                    0 <= idx < i && 0 <= t < m.states[set.members@[idx] as int].transitions.len() && (
                    #[trigger] m.states[set.members@[idx] as int].transitions[t]).on
                        == Label::Epsilon ==> set@.contains(
                        m.states[set.members@[idx] as int].transitions[t].to,
                    ),
            decreases count_false(set.present@), set.members@.len() - i,
        {
            let s = set.members[i];
            let ghost c0 = count_false(set.present@);
            let ghost members0 = set.members@;
            proof {
                self.lemma_view_state(s as int);
                assert(set@.contains(s as int));
            }
            let state = &self.states[s];
            let mut t: usize = 0;
            while t < state.transitions.len()
                invariant
                    self.wf(),
                    m == self@,
                    set.wf(),
                    set.present@.len() == self.states@.len(),
                    i < members0.len(),
                    members0.len() <= set.members@.len(),
                    set.members@.take(members0.len() as int) == members0,
                    s == members0[i as int],
                    s < self.states@.len(),
                    *state == self.states@[s as int],
                    m.states[s as int].transitions == edges(state.transitions@),
                    t <= state.transitions@.len(),
                    forall|j: int| seed.contains(j) ==> set@.contains(j),
                    forall|j: int| set@.contains(j) ==> m.closure(seed).contains(j),
                    forall|idx: int, t: int|
                        0 <= idx < i && 0 <= t < m.states[members0[idx] as int].transitions.len() && (
                        #[trigger] m.states[members0[idx] as int].transitions[t]).on
                            == Label::Epsilon ==> set@.contains(
                            m.states[members0[idx] as int].transitions[t].to,
                        ),
                    forall|u: int|
                        0 <= u < t && (#[trigger] state.transitions@[u]).on == Label::Epsilon
                            ==> set@.contains(state.transitions@[u].to as int),
                    count_false(set.present@) <= c0,
                    count_false(set.present@) == c0 ==> set.members@ == members0,
                decreases state.transitions@.len() - t,
            {
                let tr = state.transitions[t];
                match tr.on {
                    Label::Epsilon => {
                        proof {
                            assert(m.states[s as int].transitions[t as int] == tr@);
                            assert(m.epsilon_edge(s as int, tr.to as int));
                            m.lemma_closure_edge(seed, s as int, tr.to as int);
                        }
                        let ghost before = set.members@;
                        set.insert(tr.to);
                        proof {
                            assert(set.members@.take(members0.len() as int) =~= before.take(
                                members0.len() as int,
                            ));
                        }
                    },
                    _ => {},
                }
                t += 1;
            }
            proof {
                assert forall|idx: int, t: int|
                    0 <= idx < i + 1 && 0 <= t < m.states[set.members@[idx] as int].transitions.len()
                        && (#[trigger] m.states[set.members@[idx] as int].transitions[t]).on
                        == Label::Epsilon implies set@.contains(
                    m.states[set.members@[idx] as int].transitions[t].to,
                ) by {
                    assert(set.members@[idx] == set.members@.take(members0.len() as int)[idx]);
                    if idx == i {
                        assert(m.states[s as int].transitions[t] == state.transitions@[t]@);
                        assert(state.transitions@[t].on == Label::Epsilon);
                    }
                }
            }
            i += 1;
        }
        proof {
            let closed = set@;
            assert forall|a: int, b: int| closed.contains(a) && m.epsilon_edge(a, b) implies closed.contains(
                b,
            ) by {
                assert(set.present@[a]);
                assert(set.lists(a));
                let idx = choose|idx: int|
                    0 <= idx < set.members@.len() && (#[trigger] set.members@[idx]) as int == a;
                let t = choose|t: int|
                    0 <= t < m.states[a].transitions.len() && (#[trigger] m.states[a].transitions[t]).on
                        == Label::Epsilon && m.states[a].transitions[t].to == b;
                assert(m.states[set.members@[idx] as int].transitions[t].on == Label::Epsilon);
            }
            assert forall|j: int| m.closure(seed).contains(j) implies closed.contains(j) by {
                let (i0, steps) = choose|i0: int, steps: nat|
                    seed.contains(i0) && #[trigger] m.epsilon_reach(i0, j, steps);
                m.lemma_closed_holds_reach(seed, closed, i0, j, steps);
            }
            assert(closed =~= m.closure(seed));
        }
    }
}

impl NFA {
    /// The frontier that follows `cur` when `k` is read.
    fn advance(&self, cur: &StateSet, k: Scalar) -> (next: StateSet)
        requires
            self.wf(),
            cur.wf(),
            cur.present@.len() == self.states@.len(),
        ensures
            next.wf(),
            next.present@.len() == self.states@.len(),
            next@ == self@.step(cur@, k),
    {
        let ghost m = self@;
        let mut next = StateSet::new(self.states.len());
        let mut i: usize = 0;
        while i < cur.members.len()
            invariant
                self.wf(),
                m == self@,
                cur.wf(),
                cur.present@.len() == self.states@.len(),
                next.wf(),
                next.present@.len() == self.states@.len(),
                i <= cur.members@.len(),
                forall|to: int| next@.contains(to) ==> m.after(cur@, k).contains(to),
                forall|idx: int, to: int|
                    0 <= idx < i && #[trigger] m.consumes(cur.members@[idx] as int, k, to)
                        ==> next@.contains(to),
            decreases cur.members@.len() - i,
        {
            let s = cur.members[i];
            proof {
                self.lemma_view_state(s as int);
                assert(cur@.contains(s as int));
            }
            let state = &self.states[s];
            let ghost ts = edges(state.transitions@);
            let mut taken = false;
            let mut t: usize = 0;
            while t < state.transitions.len()
                invariant
                    self.wf(),
                    m == self@,
                    next.wf(),
                    next.present@.len() == self.states@.len(),
                    s < self.states@.len(),
                    cur@.contains(s as int),
                    ts == edges(state.transitions@),
                    m.states[s as int].transitions == ts,
                    t <= ts.len(),
                    taken <==> exists|u: int| 0 <= u < t && label_takes((#[trigger] ts[u]).on, k),
                    forall|u: int|
                        0 <= u < t && label_takes((#[trigger] ts[u]).on, k) ==> next@.contains(
                            ts[u].to,
                        ),
                    forall|to: int| next@.contains(to) ==> m.after(cur@, k).contains(to),
                    forall|idx: int, to: int|
                        0 <= idx < i && #[trigger] m.consumes(cur.members@[idx] as int, k, to)
                            ==> next@.contains(to),
                decreases ts.len() - t,
            {
                let tr = state.transitions[t];
                if tr.on.takes(k) {
                    proof {
                        assert(ts[t as int] == tr@);
                        assert(label_takes(ts[t as int].on, k));
                        assert(m.consumes(s as int, k, tr.to as int));
                    }
                    next.insert(tr.to);
                    taken = true;
                }
                t += 1;
            }
            if !taken {
                t = 0;
                while t < state.transitions.len()
                    invariant
                        self.wf(),
                        m == self@,
                        next.wf(),
                        next.present@.len() == self.states@.len(),
                        s < self.states@.len(),
                        cur@.contains(s as int),
                        ts == edges(state.transitions@),
                        m.states[s as int].transitions == ts,
                        t <= ts.len(),
                        forall|u: int| 0 <= u < ts.len() ==> !label_takes((#[trigger] ts[u]).on, k),
                        forall|u: int|
                            0 <= u < t && (#[trigger] ts[u]).on == Label::AnyOtherChar
                                ==> next@.contains(ts[u].to),
                        forall|to: int| next@.contains(to) ==> m.after(cur@, k).contains(to),
                        forall|idx: int, to: int|
                            0 <= idx < i && #[trigger] m.consumes(cur.members@[idx] as int, k, to)
                                ==> next@.contains(to),
                    decreases ts.len() - t,
                {
                    let tr = state.transitions[t];
                    match tr.on {
                        Label::AnyOtherChar => {
                            proof {
                                assert(ts[t as int] == tr@);
                                assert(ts[t as int].on == Label::AnyOtherChar);
                                assert(m.consumes(s as int, k, tr.to as int));
                            }
                            next.insert(tr.to);
                        },
                        _ => {},
                    }
                    t += 1;
                }
            }
            i += 1;
        }
        proof {
            assert forall|to: int| m.after(cur@, k).contains(to) implies next@.contains(to) by {
                let from = choose|from: int| cur@.contains(from) && #[trigger] m.consumes(from, k, to);
                assert(cur.present@[from]);
                assert(cur.lists(from));
                let idx = choose|idx: int|
                    0 <= idx < cur.members@.len() && (#[trigger] cur.members@[idx]) as int == from;
                assert(m.consumes(cur.members@[idx] as int, k, to));
            }
            assert(next@ =~= m.after(cur@, k));
        }
        self.close(&mut next);
        next
    }

    /// Whether `set` holds a final state.
    fn is_accepting(&self, set: &StateSet) -> (r: bool)
        requires
            self.wf(),
            set.wf(),
            set.present@.len() == self.states@.len(),
        ensures
            r == self@.accepting(set@),
    {
        let ghost m = self@;
        let mut i: usize = 0;
        while i < set.members.len()
            invariant
                self.wf(),
                m == self@,
                set.wf(),
                set.present@.len() == self.states@.len(),
                i <= set.members@.len(),
                forall|idx: int|
                    0 <= idx < i ==> (#[trigger] m.states[set.members@[idx] as int]).kind
                        != StateKind::Final,
            decreases set.members@.len() - i,
        {
            let s = set.members[i];
            proof {
                self.lemma_view_state(s as int);
            }
            match self.states[s].kind {
                StateKind::Final => {
                    proof {
                        assert(set@.contains(s as int));
                        assert(m.states[s as int].kind == StateKind::Final);
                    }
                    return true;
                },
                _ => {},
            }
            i += 1;
        }
        proof {
            if m.accepting(set@) {
                let q = choose|q: int|
                    set@.contains(q) && 0 <= q < m.states.len() && (#[trigger] m.states[q]).kind
                        == StateKind::Final;
                assert(set.present@[q]);
                assert(set.lists(q));
                let idx = choose|idx: int|
                    0 <= idx < set.members@.len() && (#[trigger] set.members@[idx]) as int == q;
                assert(m.states[set.members@[idx] as int].kind != StateKind::Final);
            }
        }
        false
    }

    /// The frontier before any input is read.
    fn start(&self) -> (cur: StateSet)
        requires
            self.wf(),
        ensures
            cur.wf(),
            cur.present@.len() == self.states@.len(),
            cur@ == self@.frontier(Seq::<Scalar>::empty()),
    {
        let mut cur = StateSet::new(self.states.len());
        cur.insert(self.initial_state);
        proof {
            assert(cur@ =~= set![self.initial_state as int]);
        }
        self.close(&mut cur);
        cur
    }

    /// Whether some stretch of `text` that starts at `start` is accepted.
    pub fn find_match_inner(&self, text: &Vec<Scalar>, start: usize) -> (found: bool)
        requires
            self.wf(),
            start <= text@.len(),
        ensures
            found == exists|e: int|
                start <= e <= text@.len() && #[trigger] self@.accepts(text@.subrange(start as int, e)),
    {
        let ghost m = self@;
        let mut cur = self.start();
        let mut k: usize = start;
        proof {
            assert(text@.subrange(start as int, start as int) =~= Seq::<Scalar>::empty());
        }
        while k < text.len()
            invariant
                self.wf(),
                m == self@,
                start <= k <= text@.len(),
                cur.wf(),
                cur.present@.len() == self.states@.len(),
                cur@ == m.frontier(text@.subrange(start as int, k as int)),
                forall|e: int| start <= e < k ==> !#[trigger] m.accepts(text@.subrange(start as int, e)),
            decreases text@.len() - k,
        {
            if self.is_accepting(&cur) {
                proof {
                    assert(m.accepts(text@.subrange(start as int, k as int)));
                }
                return true;
            }
            cur = self.advance(&cur, text[k]);
            proof {
                let longer = text@.subrange(start as int, k + 1);
                assert(longer.drop_last() =~= text@.subrange(start as int, k as int));
                assert(longer.last() == text@[k as int]);
            }
            k += 1;
        }
        let found = self.is_accepting(&cur);
        proof {
            if found {
                assert(m.accepts(text@.subrange(start as int, k as int)));
            }
        }
        found
    }

    /// Whether some stretch of `text` is accepted, for a text whose
    /// characters have been classified.
    pub fn find_match_classified(&self, text: &Vec<Scalar>) -> (found: bool)
        requires
            self.wf(),
        ensures
            found == self@.matches_within(text@),
    {
        let ghost m = self@;
        if text.len() == 0 {
            let found = self.find_match_inner(text, 0);
            proof {
                if m.matches_within(text@) {
                    let (s, e) = choose|s: int, e: int|
                        0 <= s <= e <= text@.len() && #[trigger] m.accepts(text@.subrange(s, e));
                    assert(m.accepts(text@.subrange(0, e)));
                }
                if found {
                    let e = choose|e: int|
                        0 <= e <= text@.len() && #[trigger] m.accepts(text@.subrange(0, e));
                    assert(0 <= 0 <= e <= text@.len() && m.accepts(text@.subrange(0, e)));
                }
            }
            return found;
        }
        let mut s: usize = 0;
        while s < text.len()
            invariant
                self.wf(),
                m == self@,
                s <= text@.len(),
                forall|a: int, e: int|
                    0 <= a < s && a <= e <= text@.len() ==> !#[trigger] m.accepts(text@.subrange(a, e)),
            decreases text@.len() - s,
        {
            if self.find_match_inner(text, s) {
                proof {
                    let e = choose|e: int|
                        s <= e <= text@.len() && #[trigger] m.accepts(text@.subrange(s as int, e));
                    assert(0 <= s <= e <= text@.len() && m.accepts(text@.subrange(s as int, e)));
                }
                return true;
            }
            s += 1;
        }
        proof {
            if m.matches_within(text@) {
                let (a, e) = choose|a: int, e: int|
                    0 <= a <= e <= text@.len() && #[trigger] m.accepts(text@.subrange(a, e));
                if a == text@.len() {
                    assert(text@.subrange(a, e) =~= text@.subrange(0, 0));
                    assert(m.accepts(text@.subrange(0, 0)));
                }
            }
        }
        false
    }

    /// Whether some stretch of `text` is accepted: the characters from one
    /// index up to another, of which there may be none. An automaton that
    /// accepts the empty text so finds a match in every text.
    pub fn find_match(&self, text: &str) -> (found: bool)
        requires
            self.wf(),
        ensures
            found == self@.matches_within(scalars_of(text@)),
    {
        let scalars = classify_text(text);
        self.find_match_classified(&scalars)
    }
}

impl NFA {
    /// The match that starts at character `start` of `line`, whose byte
    /// offset is `start_offset`.
    pub fn find_matches_inner(
        &self,
        line: &Vec<Scalar>,
        start: usize,
        start_offset: usize,
        line_number: usize,
    ) -> (found: Option<Match>)
        requires
            self.wf(),
            start <= line@.len(),
            start_offset == byte_offset(line@, start as int),
            utf8_len(chars_of(line@)) <= usize::MAX,
        ensures
            match found {
                Some(m) => self@.match_at(line@, line_number as int, start as int) == Some(m@),
                None => self@.match_at(line@, line_number as int, start as int).is_none(),
            },
    {
        let ghost m = self@;
        let mut cur = self.start();
        let mut k: usize = start;
        let mut offset: usize = start_offset;
        let mut final_index: Option<usize> = None;
        proof {
            assert(line@.subrange(start as int, start as int) =~= Seq::<Scalar>::empty());
        }
        while k < line.len()
            invariant
                self.wf(),
                m == self@,
                start <= k <= line@.len(),
                utf8_len(chars_of(line@)) <= usize::MAX,
                cur.wf(),
                cur.present@.len() == self.states@.len(),
                cur@ == m.frontier(line@.subrange(start as int, k as int)),
                offset == byte_offset(line@, k as int),
                match m.longest_end(line@, start as int, k - 1) {
                    Some(e) => final_index == Some(byte_offset(line@, e) as usize) && byte_offset(
                        line@,
                        e,
                    ) <= usize::MAX,
                    None => final_index.is_none(),
                },
            decreases line@.len() - k,
        {
            if self.is_accepting(&cur) {
                final_index = Some(offset);
            }
            cur = self.advance(&cur, line[k]);
            proof {
                let longer = line@.subrange(start as int, k + 1);
                assert(longer.drop_last() =~= line@.subrange(start as int, k as int));
                assert(longer.last() == line@[k as int]);
                let chars = chars_of(line@);
                assert(chars.take(k + 1) =~= chars.take(k as int).push(line@[k as int].value));
                lemma_utf8_len_push(chars.take(k as int), line@[k as int].value);
                lemma_utf8_len_prefix(chars, k + 1, chars.len() as int);
                assert(chars.take(chars.len() as int) =~= chars);
            }
            offset += char_len_utf8(line[k].value);
            k += 1;
        }
        if self.is_accepting(&cur) {
            final_index = Some(offset);
        }
        match final_index {
            Some(to) => Some(Match { from: start_offset, to, line: line_number }),
            None => None,
        }
    }

    /// The matches of one line, in the order of their starts.
    fn find_matches_in_line(&self, line: &Vec<Scalar>, line_number: usize, out: &mut Vec<Match>)
        requires
            self.wf(),
            utf8_len(chars_of(line@)) <= usize::MAX,
        ensures
            spans(final(out)@) == spans(old(out)@) + self@.line_matches(
                line@,
                line_number as int,
                line@.len() as int,
            ),
    {
        let ghost m = self@;
        let ghost before = spans(out@);
        let mut s: usize = 0;
        let mut offset: usize = 0;
        proof {
            assert(chars_of(line@).take(0) =~= Seq::<char>::empty());
            assert(vstd::utf8::encode_utf8(Seq::<char>::empty()) =~= seq![]);
            assert(spans(out@) =~= before + m.line_matches(line@, line_number as int, 0));
        }
        while s < line.len()
            invariant
                self.wf(),
                m == self@,
                s <= line@.len(),
                utf8_len(chars_of(line@)) <= usize::MAX,
                offset == byte_offset(line@, s as int),
                spans(out@) == before + m.line_matches(line@, line_number as int, s as int),
            decreases line@.len() - s,
        {
            let ghost so_far = spans(out@);
            match self.find_matches_inner(line, s, offset, line_number) {
                Some(found) => {
                    out.push(found);
                    proof {
                        assert(spans(out@) =~= so_far.push(found@));
                    }
                },
                None => {},
            }
            proof {
                assert(spans(out@) =~= before + m.line_matches(line@, line_number as int, s + 1));
                let chars = chars_of(line@);
                assert(chars.take(s + 1) =~= chars.take(s as int).push(line@[s as int].value));
                lemma_utf8_len_push(chars.take(s as int), line@[s as int].value);
                lemma_utf8_len_prefix(chars, s + 1, chars.len() as int);
                assert(chars.take(chars.len() as int) =~= chars);
            }
            offset += char_len_utf8(line[s].value);
            s += 1;
        }
    }

    /// The matches of `text`, for a text whose characters have been
    /// classified: see [`NFA::find_matches`].
    pub fn find_matches_classified(&self, text: &Vec<Scalar>) -> (matches: Vec<Match>)
        requires
            self.wf(),
            utf8_len(chars_of(text@)) <= usize::MAX,
        ensures
            spans(matches@) == self@.text_matches(text@, 0),
            text@.len() == 0 ==> matches@.len() == 0,
    {
        let ghost m = self@;
        let mut out: Vec<Match> = Vec::new();
        let mut pos: usize = 0;
        let mut line_number: usize = 0;
        proof {
            assert(text@.skip(0) =~= text@);
            assert(spans(out@) =~= Seq::<Span>::empty());
        }
        loop
            invariant_except_break
                spans(out@) + m.text_matches(text@.skip(pos as int), line_number as int)
                    == m.text_matches(text@, 0),
            invariant
                self.wf(),
                m == self@,
                line_number <= pos <= text@.len(),
                utf8_len(chars_of(text@)) <= usize::MAX,
                text@.len() == 0 ==> out@.len() == 0,
            ensures
                spans(out@) == m.text_matches(text@, 0),
                text@.len() == 0 ==> out@.len() == 0,
            decreases text@.len() - pos,
        {
            let mut line: Vec<Scalar> = Vec::new();
            let mut end: usize = pos;
            while end < text.len() && text[end].value != '\n'
                invariant
                    pos <= end <= text@.len(),
                    line@ == text@.subrange(pos as int, end as int),
                    forall|j: int| pos <= j < end ==> (#[trigger] text@[j]).value != '\n',
                decreases text@.len() - end,
            {
                line.push(text[end]);
                proof {
                    assert(line@ =~= text@.subrange(pos as int, end + 1));
                }
                end += 1;
            }
            let ghost rest = text@.skip(pos as int);
            let ghost so_far = spans(out@);
            proof {
                lemma_line_end(text@, pos as int, end as int);
                assert(rest.take(end - pos) =~= line@);
                assert(chars_of(line@) =~= chars_of(text@).subrange(pos as int, end as int));
                lemma_utf8_len_subrange(chars_of(text@), pos as int, end as int);
            }
            self.find_matches_in_line(&line, line_number, &mut out);
            if end >= text.len() {
                proof {
                    assert(m.text_matches(rest, line_number as int) == m.line_matches(
                        line@,
                        line_number as int,
                        line@.len() as int,
                    ));
                    if text@.len() == 0 {
                        assert(m.line_matches(line@, line_number as int, 0) =~= Seq::<Span>::empty());
                    }
                }
                break ;
            }
            proof {
                assert(rest.skip(end - pos + 1) =~= text@.skip(end + 1));
                let here = m.line_matches(line@, line_number as int, line@.len() as int);
                let after = m.text_matches(text@.skip(end + 1), line_number + 1);
                assert(m.text_matches(rest, line_number as int) == here + after);
                assert(spans(out@) + after =~= so_far + (here + after));
            }
            pos = end + 1;
            line_number += 1;
        }
        out
    }

    /// The matches of `text`, line by line. For every line and every
    /// character of it at which an accepted stretch starts there is one
    /// match, which ends where the longest such stretch ends. They come in
    /// the order of their lines and, within a line, of their starts.
    pub fn find_matches(&self, text: &str) -> (matches: Vec<Match>)
        requires
            self.wf(),
        ensures
            spans(matches@) == self@.text_matches(scalars_of(text@), 0),
            text@.len() == 0 ==> matches@.len() == 0,
    {
        // The text lies in memory, so the number of its bytes fits the machine.
        let _size = text.as_bytes().len();
        let scalars = classify_text(text);
        proof {
            assert(chars_of(scalars@) =~= text@);
        }
        self.find_matches_classified(&scalars)
    }
}

/// `a` comes before `b`: on an earlier line, or on the same line and
/// starting earlier.
pub open spec fn comes_before(a: Span, b: Span) -> bool {
    a.line < b.line || (a.line == b.line && a.from < b.from)
}

impl Automaton {
    /// The matches of a line are on that line, start before the character
    /// `upto`, and each starts before the next.
    proof fn lemma_line_in_order(self, line: Seq<Scalar>, line_no: int, upto: int)
        requires
            0 <= upto <= line.len(),
        ensures
            forall|k: int|
                0 <= k < self.line_matches(line, line_no, upto).len() ==> {
                    let m = #[trigger] self.line_matches(line, line_no, upto)[k];
                    m.line == line_no && (upto > 0 ==> m.from <= byte_offset(line, upto - 1))
                },
            forall|i: int, j: int|
                0 <= i < j < self.line_matches(line, line_no, upto).len() ==> comes_before(
                    #[trigger] self.line_matches(line, line_no, upto)[i],
                    #[trigger] self.line_matches(line, line_no, upto)[j],
                ),
            upto == 0 ==> self.line_matches(line, line_no, upto).len() == 0,
        decreases upto,
    {
        if upto > 0 {
            self.lemma_line_in_order(line, line_no, upto - 1);
            let front = self.line_matches(line, line_no, upto - 1);
            let now = self.line_matches(line, line_no, upto);
            if upto > 1 {
                lemma_offsets_grow(chars_of(line), upto - 2, upto - 1);
            }
            assert forall|k: int| 0 <= k < now.len() implies {
                let m = #[trigger] now[k];
                m.line == line_no && m.from <= byte_offset(line, upto - 1)
            } by {
                if k < front.len() {
                    assert(now[k] == front[k]);
                }
            }
            assert forall|i: int, j: int| 0 <= i < j < now.len() implies comes_before(
                #[trigger] now[i],
                #[trigger] now[j],
            ) by {
                assert(now[i] == front[i]);
                if j < front.len() {
                    assert(now[j] == front[j]);
                }
            }
        }
    }

    /// The matches of a text are on lines from `line_no` on, and each comes
    /// before the next: they are in the order of their lines and, within a
    /// line, of their starts.
    pub proof fn lemma_matches_in_order(self, text: Seq<Scalar>, line_no: int)
        ensures
            forall|k: int|
                0 <= k < self.text_matches(text, line_no).len() ==> (#[trigger] self.text_matches(
                    text,
                    line_no,
                )[k]).line >= line_no,
            forall|i: int, j: int|
                0 <= i < j < self.text_matches(text, line_no).len() ==> comes_before(
                    #[trigger] self.text_matches(text, line_no)[i],
                    #[trigger] self.text_matches(text, line_no)[j],
                ),
        decreases text.len(),
    {
        let n = line_end(text);
        lemma_line_end_bounds(text);
        let line = text.take(n);
        let here = self.line_matches(line, line_no, n);
        self.lemma_line_in_order(line, line_no, n);
        if 0 <= n < text.len() {
            let rest = self.text_matches(text.skip(n + 1), line_no + 1);
            self.lemma_matches_in_order(text.skip(n + 1), line_no + 1);
            let all = self.text_matches(text, line_no);
            assert(all == here + rest);
            assert forall|k: int| 0 <= k < all.len() implies (#[trigger] all[k]).line >= line_no by {
                if k < here.len() {
                    assert(all[k] == here[k]);
                } else {
                    assert(all[k] == rest[k - here.len()]);
                }
            }
            assert forall|i: int, j: int| 0 <= i < j < all.len() implies comes_before(
                #[trigger] all[i],
                #[trigger] all[j],
            ) by {
                if j < here.len() {
                    assert(all[i] == here[i] && all[j] == here[j]);
                } else if i < here.len() {
                    assert(all[i] == here[i]);
                    assert(all[j] == rest[j - here.len()]);
                } else {
                    assert(all[i] == rest[i - here.len()]);
                    assert(all[j] == rest[j - here.len()]);
                }
            }
        }
    }
}

/// The first line of a text ends within the text.
proof fn lemma_line_end_bounds(text: Seq<Scalar>)
    ensures
        0 <= line_end(text) <= text.len(),
    decreases text.len(),
{
    if text.len() > 0 && text[0].value != '\n' {
        lemma_line_end_bounds(text.drop_first());
    }
}

} // verus!
