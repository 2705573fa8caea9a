//! A small line-oriented regular-expression engine and a shell-style glob
//! matcher.
//!
//! Patterns are compiled to an epsilon-NFA by Thompson's construction and
//! simulated over sets of states; glob patterns are matched against whole
//! path names.
//!
//! The automaton and its combinators are in [`nfa`], their models in
//! [`compose`], what an automaton accepts in [`accept`], and the search of
//! a text in [`search`]. The compiler is in [`re`]. What the combinators
//! accept is proved in [`atoms`], [`alternation`], [`sequence`] and
//! [`repetition`], over [`embed`]; what the compiler makes of a pattern in
//! [`marking`], [`tokens`], [`expr`], [`tree`] and [`written`]; and
//! [`language`] puts the two together: the automaton of a pattern accepts
//! the texts that the pattern stands for. Globs are in [`glob`], path names in [`lexical`],
//! and what a report of matches needs in [`report`].

pub mod text;
pub mod nfa;
pub mod compose;
pub mod accept;
pub mod atoms;
pub mod embed;
pub mod alternation;
pub mod sequence;
pub mod repetition;
pub mod search;
pub mod re;
pub mod marking;
pub mod tokens;
pub mod expr;
pub mod tree;
pub mod written;
pub mod language;
pub mod lexical;
pub mod glob;
pub mod report;
