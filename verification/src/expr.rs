//! Patterns as trees: what a tree looks like in postfix order, and the
//! automaton that the combinators make of it.

use vstd::prelude::*;
use crate::compose::{
    alphanumeric_model, concat_model, digit_model, kleen_model, symbol_model, union_model,
};
use crate::nfa::Automaton;
use crate::re::{
    class_automaton, CHAR_SET_END, CHAR_SET_START, CONCAT, GROUP_END, GROUP_START, KLEEN, NEGATION,
    SLASH, UNION,
};

verus! {

/// A pattern as a tree.
pub enum Expr {
    /// One character that stands for itself.
    Symbol(char),
    /// One character of a class, or one that is not of it.
    Class { negated: bool, members: Seq<char> },
    /// One numeric character.
    Digit,
    /// One alphabetic or numeric character.
    Word,
    /// The first, then the second.
    Concat(Box<Expr>, Box<Expr>),
    /// The first or the second.
    Union(Box<Expr>, Box<Expr>),
    /// Any number of repetitions.
    Star(Box<Expr>),
}

/// Whether `c` stands for itself outside a class.
pub open spec fn is_plain(c: char) -> bool {
    c != CONCAT && c != UNION && c != KLEEN && c != GROUP_START && c != GROUP_END && c
        != CHAR_SET_START && c != CHAR_SET_END && c != SLASH
}

impl Expr {
    /// The tree can be written as a pattern: its literal characters stand
    /// for themselves, no class holds the closing bracket, and a class that
    /// is not negated does not begin with the sign of negation.
    pub open spec fn writable(self) -> bool
        decreases self,
    {
        match self {
            Expr::Symbol(c) => is_plain(c),
            Expr::Class { negated, members } => !members.contains(CHAR_SET_END) && (negated
                || members.len() == 0 || members[0] != NEGATION),
            Expr::Digit => true,
            Expr::Word => true,
            Expr::Concat(a, b) => a.writable() && b.writable(),
            Expr::Union(a, b) => a.writable() && b.writable(),
            Expr::Star(a) => a.writable(),
        }
    }

    /// The tree in postfix order.
    pub open spec fn postfix(self) -> Seq<char>
        decreases self,
    {
        match self {
            Expr::Symbol(c) => seq![c],
            Expr::Class { negated, members } => if negated {
                seq![CHAR_SET_START, NEGATION] + members + seq![CHAR_SET_END]
            } else {
                seq![CHAR_SET_START] + members + seq![CHAR_SET_END]
            },
            Expr::Digit => seq![SLASH, 'd'],
            Expr::Word => seq![SLASH, 'w'],
            Expr::Concat(a, b) => a.postfix() + b.postfix() + seq![CONCAT],
            Expr::Union(a, b) => a.postfix() + b.postfix() + seq![UNION],
            Expr::Star(a) => a.postfix() + seq![KLEEN],
        }
    }

    /// The automaton that the combinators make of the tree.
    pub open spec fn compose(self, ignore_case: bool) -> Automaton
        decreases self,
    {
        match self {
            Expr::Symbol(c) => symbol_model(c, ignore_case),
            Expr::Class { negated, members } => class_automaton(negated, members, ignore_case),
            Expr::Digit => digit_model(),
            Expr::Word => alphanumeric_model(),
            Expr::Concat(a, b) => concat_model(a.compose(ignore_case), b.compose(ignore_case)),
            Expr::Union(a, b) => union_model(a.compose(ignore_case), b.compose(ignore_case)),
            Expr::Star(a) => kleen_model(a.compose(ignore_case)),
        }
    }
}

/// Where a window of `tokens` holds `lead` followed by `rest`, its first
/// part holds `lead` and its second part `rest`.
pub(crate) proof fn lemma_window(tokens: Seq<char>, i: int, lead: Seq<char>, rest: Seq<char>)
    requires
        0 <= i,
        i + lead.len() + rest.len() <= tokens.len(),
        tokens.subrange(i, i + lead.len() + rest.len()) == lead + rest,
    ensures
        tokens.subrange(i, i + lead.len()) == lead,
        tokens.subrange(i + lead.len(), i + lead.len() + rest.len()) == rest,
{
    let whole = tokens.subrange(i, i + lead.len() + rest.len());
    assert forall|k: int| 0 <= k < lead.len() implies tokens[i + k] == lead[k] by {
        assert(whole[k] == tokens[i + k]);
        assert((lead + rest)[k] == lead[k]);
    }
    assert forall|k: int| 0 <= k < rest.len() implies tokens[i + lead.len() + k] == rest[k] by {
        assert(whole[lead.len() + k] == tokens[i + lead.len() + k]);
        assert((lead + rest)[lead.len() + k] == rest[k]);
    }
    assert(tokens.subrange(i, i + lead.len()) =~= lead);
    assert(tokens.subrange(i + lead.len(), i + lead.len() + rest.len()) =~= rest);
}

} // verus!
