//! What a pattern means, and the proof that the automaton of a pattern
//! accepts the texts that the pattern means, and no others.

use vstd::prelude::*;
use crate::accept::label_takes;
use crate::alternation::{lemma_union_accepts, lemma_union_holds};
use crate::atoms::{all_read, lemma_class_accepts, some_takes};
use crate::compose::{
    cased, cased_all, class_model, concat_model, kleen_model, lemma_class_wf, negated_class_model,
    union_model,
};
use crate::expr::Expr;
use crate::nfa::{Automaton, Edge, Label, StateKind};
use crate::re::automaton_of;
use crate::repetition::{is_sink, lemma_kleen_accepts, lemma_kleen_holds, star_of};
use crate::sequence::{lemma_concat_accepts, lemma_concat_holds};
use crate::text::Scalar;
use crate::tree::{lemma_tree_compiles, tree_of};
use crate::written::lemma_compile_written;

verus! {

impl Expr {
    /// The pattern stands for `text`.
    ///
    /// A character stands for itself, and with `ignore_case` for both of
    /// its cases; a class for each of its members, and its complement for
    /// every other character; a concatenation for what its first part
    /// stands for followed by what its second part stands for; a union for
    /// what either part stands for; and a star for any number of texts that
    /// its part stands for, one after another.
    pub open spec fn denotes(self, text: Seq<Scalar>, ignore_case: bool) -> bool
        decreases self, text.len(),
    {
        match self {
            Expr::Symbol(c) => text.len() == 1 && some_takes(cased(c, ignore_case, true), text[0]),
            Expr::Class { negated, members } => text.len() == 1 && if negated {
                !some_takes(cased_all(members, ignore_case, false), text[0])
            } else {
                some_takes(cased_all(members, ignore_case, true), text[0])
            },
            Expr::Digit => text.len() == 1 && text[0].numeric,
            Expr::Word => text.len() == 1 && text[0].alphanumeric,
            Expr::Concat(a, b) => exists|i: int|
                0 <= i <= text.len() && a.denotes(#[trigger] text.take(i), ignore_case) && b.denotes(
                    text.skip(i),
                    ignore_case,
                ),
            Expr::Union(a, b) => a.denotes(text, ignore_case) || b.denotes(text, ignore_case),
            Expr::Star(a) => text.len() == 0 || exists|i: int|
                0 <= i < text.len() && self.denotes(#[trigger] text.take(i), ignore_case)
                    && a.denotes(text.skip(i), ignore_case),
        }
    }
}

impl Automaton {
    /// The automaton is well formed, has a final state, and reads nothing
    /// after a text that it accepts.
    pub open spec fn sound(self) -> bool {
        self.wf() && self.finals.len() > 0 && self.ends_clean()
    }
}

/// The labels that stand for a character read a character.
proof fn lemma_cased_one(c: char, ignore_case: bool, upper_first: bool)
    ensures
        all_read(cased(c, ignore_case, upper_first)),
{
    let labels = cased(c, ignore_case, upper_first);
    assert forall|l: int| 0 <= l < labels.len() implies (#[trigger] labels[l]) != Label::Epsilon
        && labels[l] != Label::AnyOtherChar by {
        if ignore_case {
            assert(labels[0] is Symbol && labels[1] is Symbol);
        } else {
            assert(labels[0] is Symbol);
        }
    }
}

/// The labels that stand for characters all read a character.
proof fn lemma_cased_read(chars: Seq<char>, ignore_case: bool, upper_first: bool)
    ensures
        all_read(cased_all(chars, ignore_case, upper_first)),
    decreases chars.len(),
{
    if chars.len() > 0 {
        lemma_cased_read(chars.drop_last(), ignore_case, upper_first);
        let front = cased_all(chars.drop_last(), ignore_case, upper_first);
        let last = cased(chars.last(), ignore_case, upper_first);
        let all = cased_all(chars, ignore_case, upper_first);
        assert forall|l: int| 0 <= l < all.len() implies (#[trigger] all[l]) != Label::Epsilon
            && all[l] != Label::AnyOtherChar by {
            if l < front.len() {
                assert(all[l] == front[l]);
            } else {
                lemma_cased_one(chars.last(), ignore_case, upper_first);
                assert(all[l] == last[l - front.len()]);
            }
        }
    }
}

/// The automata of classes are sound.
proof fn lemma_class_sound(labels: Seq<Label>)
    ensures
        class_model(labels).sound(),
        negated_class_model(labels).sound(),
{
    lemma_class_wf(labels);
    let m = class_model(labels);
    assert forall|p: int, t: int|
        0 <= p < m.states.len() && m.states[p].kind == StateKind::Final && 0 <= t
            < m.states[p].transitions.len() implies is_sink(
        m,
        (#[trigger] m.states[p].transitions[t]).to,
    ) by {
        assert(p == 1);
        assert(m.states[2].transitions.len() == 0);
    }
}

/// The union of two sound automata is sound.
proof fn lemma_union_sound(a: Automaton, b: Automaton)
    requires
        a.wf(),
        b.wf(),
    ensures
        union_model(a, b).sound(),
{
    lemma_union_holds(a, b);
}

/// The star of a sound automaton is sound.
proof fn lemma_kleen_is_sound(a: Automaton)
    requires
        a.wf(),
    ensures
        kleen_model(a).sound(),
{
    lemma_kleen_holds(a);
}

/// The concatenation of two sound automata is sound.
proof fn lemma_concat_sound(a: Automaton, b: Automaton)
    requires
        a.wf(),
        b.sound(),
    ensures
        concat_model(a, b).sound(),
{
    let c = concat_model(a, b);
    let off = a.states.len() as int;
    let none = Seq::<Edge>::empty();
    lemma_concat_holds(a, b);
    assert forall|i: int| 0 <= i < b.states.len() implies (#[trigger] c.states[off
        + i]).transitions.len() == b.states[i].transitions.len() by {
        if c.states[off + i].transitions.len() > b.states[i].transitions.len() {
            assert(none.contains(c.states[off + i].transitions[b.states[i].transitions.len() as int]));
        }
    }
    assert forall|p: int, t: int|
        0 <= p < c.states.len() && c.states[p].kind == StateKind::Final && 0 <= t
            < c.states[p].transitions.len() implies is_sink(
        c,
        (#[trigger] c.states[p].transitions[t]).to,
    ) by {
        let i = p - off;
        assert(c.states[off + i].transitions.len() == b.states[i].transitions.len());
        let e = b.states[i].transitions[t];
        assert(c.states[off + i].transitions[t] == crate::compose::shift_edge(e, off));
        assert(is_sink(b, e.to));
        assert(c.states[off + e.to].transitions.len() == b.states[e.to].transitions.len());
    }
}

/// The automaton that the combinators make of a tree is sound.
pub(crate) proof fn lemma_compose_sound(e: Expr, ignore_case: bool)
    ensures
        e.compose(ignore_case).sound(),
    decreases e,
{
    match e {
        Expr::Symbol(c) => {
            lemma_class_sound(cased(c, ignore_case, true));
        },
        Expr::Class { negated, members } => {
            lemma_class_sound(cased_all(members, ignore_case, true));
            lemma_class_sound(cased_all(members, ignore_case, false));
        },
        Expr::Digit => {
            lemma_class_sound(seq![Label::AnyDigit]);
        },
        Expr::Word => {
            lemma_class_sound(seq![Label::AnyAlphanumeric]);
        },
        Expr::Concat(a, b) => {
            lemma_compose_sound(*a, ignore_case);
            lemma_compose_sound(*b, ignore_case);
            lemma_concat_sound(a.compose(ignore_case), b.compose(ignore_case));
        },
        Expr::Union(a, b) => {
            lemma_compose_sound(*a, ignore_case);
            lemma_compose_sound(*b, ignore_case);
            lemma_union_sound(a.compose(ignore_case), b.compose(ignore_case));
        },
        Expr::Star(a) => {
            lemma_compose_sound(*a, ignore_case);
            lemma_kleen_is_sound(a.compose(ignore_case));
        },
    }
}

/// Where an automaton accepts what a pattern stands for, its star accepts
/// what the star of the pattern stands for.
proof fn lemma_star_denotes(x: Expr, text: Seq<Scalar>, ignore_case: bool)
    requires
        forall|t: Seq<Scalar>| #[trigger]
            x.compose(ignore_case).accepts(t) <==> x.denotes(t, ignore_case),
    ensures
        star_of(x.compose(ignore_case), text) <==> (Expr::Star(Box::new(x))).denotes(
            text,
            ignore_case,
        ),
    decreases text.len(),
{
    let a = x.compose(ignore_case);
    let star = Expr::Star(Box::new(x));
    if text.len() > 0 {
        if star_of(a, text) {
            let i = choose|i: int|
                0 <= i < text.len() && star_of(a, text.take(i)) && #[trigger] a.accepts(
                    text.skip(i),
                );
            lemma_star_denotes(x, text.take(i), ignore_case);
            assert(star.denotes(text.take(i), ignore_case) && x.denotes(text.skip(i), ignore_case));
        }
        if star.denotes(text, ignore_case) {
            let i = choose|i: int|
                0 <= i < text.len() && star.denotes(#[trigger] text.take(i), ignore_case)
                    && x.denotes(text.skip(i), ignore_case);
            lemma_star_denotes(x, text.take(i), ignore_case);
            assert(star_of(a, text.take(i)) && a.accepts(text.skip(i)));
        }
    }
}

/// The automaton that the combinators make of a tree accepts a text exactly
/// when the tree stands for it.
pub proof fn lemma_compose_accepts(e: Expr, text: Seq<Scalar>, ignore_case: bool)
    ensures
        e.compose(ignore_case).accepts(text) <==> e.denotes(text, ignore_case),
    decreases e,
{
    match e {
        Expr::Symbol(c) => {
            let labels = cased(c, ignore_case, true);
            lemma_cased_one(c, ignore_case, true);
            lemma_class_accepts(labels, text);
        },
        Expr::Class { negated, members } => {
            lemma_cased_read(members, ignore_case, true);
            lemma_cased_read(members, ignore_case, false);
            lemma_class_accepts(cased_all(members, ignore_case, true), text);
            lemma_class_accepts(cased_all(members, ignore_case, false), text);
        },
        Expr::Digit => {
            let labels = seq![Label::AnyDigit];
            lemma_class_accepts(labels, text);
            if text.len() == 1 {
                if some_takes(labels, text[0]) {
                    let l = choose|l: int|
                        0 <= l < labels.len() && label_takes(#[trigger] labels[l], text[0]);
                }
                if text[0].numeric {
                    assert(label_takes(labels[0], text[0]));
                }
            }
        },
        Expr::Word => {
            let labels = seq![Label::AnyAlphanumeric];
            lemma_class_accepts(labels, text);
            if text.len() == 1 {
                if some_takes(labels, text[0]) {
                    let l = choose|l: int|
                        0 <= l < labels.len() && label_takes(#[trigger] labels[l], text[0]);
                }
                if text[0].alphanumeric {
                    assert(label_takes(labels[0], text[0]));
                }
            }
        },
        Expr::Concat(x, y) => {
            let a = x.compose(ignore_case);
            let b = y.compose(ignore_case);
            lemma_compose_sound(*x, ignore_case);
            lemma_compose_sound(*y, ignore_case);
            lemma_concat_accepts(a, b, text);
            if concat_model(a, b).accepts(text) {
                let i = choose|i: int|
                    0 <= i <= text.len() && a.accepts(text.take(i)) && #[trigger] b.accepts(
                        text.skip(i),
                    );
                lemma_compose_accepts(*x, text.take(i), ignore_case);
                lemma_compose_accepts(*y, text.skip(i), ignore_case);
                assert(x.denotes(text.take(i), ignore_case) && y.denotes(
                    text.skip(i),
                    ignore_case,
                ));
            }
            if e.denotes(text, ignore_case) {
                let i = choose|i: int|
                    0 <= i <= text.len() && x.denotes(#[trigger] text.take(i), ignore_case)
                        && y.denotes(text.skip(i), ignore_case);
                lemma_compose_accepts(*x, text.take(i), ignore_case);
                lemma_compose_accepts(*y, text.skip(i), ignore_case);
                assert(a.accepts(text.take(i)) && b.accepts(text.skip(i)));
            }
        },
        Expr::Union(x, y) => {
            lemma_compose_sound(*x, ignore_case);
            lemma_compose_sound(*y, ignore_case);
            lemma_union_accepts(x.compose(ignore_case), y.compose(ignore_case), text);
            lemma_compose_accepts(*x, text, ignore_case);
            lemma_compose_accepts(*y, text, ignore_case);
        },
        Expr::Star(x) => {
            let a = x.compose(ignore_case);
            lemma_compose_sound(*x, ignore_case);
            lemma_kleen_accepts(a, text);
            assert forall|t: Seq<Scalar>| #[trigger] a.accepts(t) <==> x.denotes(t, ignore_case) by {
                lemma_compose_accepts(*x, t, ignore_case);
            }
            lemma_star_denotes(*x, text, ignore_case);
            assert(Expr::Star(Box::new(*x)) == e);
        },
    }
}

/// The automaton that a written pattern compiles to accepts a text exactly
/// when the pattern stands for it.
pub proof fn lemma_compiled_accepts(e: Expr, text: Seq<Scalar>, ignore_case: bool)
    requires
        e.writable(),
        e.unmarked(),
    ensures
        automaton_of(e.written(), ignore_case) is Ok,
        automaton_of(e.written(), ignore_case)->Ok_0.accepts(text) <==> e.denotes(
            text,
            ignore_case,
        ),
{
    lemma_compile_written(e, ignore_case);
    lemma_compose_accepts(e, text, ignore_case);
}

/// A search with the automaton that a written pattern compiles to finds a
/// match in a text exactly when the pattern stands for some stretch of the
/// text.
pub proof fn lemma_compiled_finds(e: Expr, text: Seq<Scalar>, ignore_case: bool)
    requires
        e.writable(),
        e.unmarked(),
    ensures
        automaton_of(e.written(), ignore_case) is Ok,
        automaton_of(e.written(), ignore_case)->Ok_0.matches_within(text) <==> exists|
            s: int,
            t: int,
        |
            0 <= s <= t <= text.len() && e.denotes(#[trigger] text.subrange(s, t), ignore_case),
{
    lemma_compile_written(e, ignore_case);
    let m = e.compose(ignore_case);
    if m.matches_within(text) {
        let (s, t) = choose|s: int, t: int|
            0 <= s <= t <= text.len() && #[trigger] m.accepts(text.subrange(s, t));
        lemma_compose_accepts(e, text.subrange(s, t), ignore_case);
    }
    if exists|s: int, t: int|
        0 <= s <= t <= text.len() && e.denotes(#[trigger] text.subrange(s, t), ignore_case) {
        let (s, t) = choose|s: int, t: int|
            0 <= s <= t <= text.len() && e.denotes(#[trigger] text.subrange(s, t), ignore_case);
        lemma_compose_accepts(e, text.subrange(s, t), ignore_case);
        assert(m.accepts(text.subrange(s, t)));
    }
}

/// The automaton of a pattern, however it is written, accepts a text
/// exactly when the tree that the pattern is read as stands for the text.
pub proof fn lemma_pattern_accepts(pattern: Seq<char>, text: Seq<Scalar>, ignore_case: bool)
    requires
        automaton_of(pattern, ignore_case) is Ok,
    ensures
        tree_of(pattern) is Ok,
        automaton_of(pattern, ignore_case)->Ok_0.accepts(text) <==> tree_of(pattern)->Ok_0.denotes(
            text,
            ignore_case,
        ),
{
    lemma_tree_compiles(pattern, ignore_case);
    lemma_compose_accepts(tree_of(pattern)->Ok_0, text, ignore_case);
}

} // verus!
