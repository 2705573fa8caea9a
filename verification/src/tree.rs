//! The tree that a pattern is read as, and the proof that the automaton of
//! a pattern is the one that the combinators make of that tree.

use vstd::prelude::*;
use crate::expr::{lemma_window, Expr};
use crate::nfa::Automaton;
use crate::re::{
    assembly_run, assembly_start, assembly_step, automaton_of, automaton_of_postfix, postfix,
    Assembly, InvalidPattern, CHAR_SET_END, CHAR_SET_START, CONCAT, KLEEN, NEGATION, SLASH, UNION,
};

verus! {

/// The state of the reading of a tree from a postfix stream: the trees read
/// so far (the last is the top of the stack) and, while a character class
/// is read, whether it is negated and its members so far.
pub struct Growth {
    pub stack: Seq<Expr>,
    pub in_class: bool,
    pub negated: bool,
    pub members: Seq<char>,
}

/// The state before any token is read.
pub open spec fn growth_start() -> Growth {
    Growth { stack: seq![], in_class: false, negated: false, members: seq![] }
}

/// `g` with `e` on top of its stack.
pub open spec fn grown(g: Growth, e: Expr) -> Growth {
    Growth { stack: g.stack.push(e), in_class: g.in_class, negated: g.negated, members: g.members }
}

/// Reads the token at index `i`, and with a backslash the token after it,
/// as the assembly of an automaton does, but puts trees on the stack.
pub open spec fn growth_step(g: Growth, tokens: Seq<char>, i: int) -> Result<
    (Growth, int),
    InvalidPattern,
> {
    let c = tokens[i];
    let n = g.stack.len() as int;
    if c == CHAR_SET_END {
        Ok(
            (
                Growth {
                    stack: g.stack.push(Expr::Class { negated: g.negated, members: g.members }),
                    in_class: false,
                    negated: false,
                    members: seq![],
                },
                i + 1,
            ),
        )
    } else if g.in_class {
        if c == NEGATION && g.members.len() == 0 && !g.negated {
            Ok((Growth { stack: g.stack, in_class: true, negated: true, members: g.members }, i + 1))
        } else {
            Ok(
                (
                    Growth {
                        stack: g.stack,
                        in_class: true,
                        negated: g.negated,
                        members: g.members.push(c),
                    },
                    i + 1,
                ),
            )
        }
    } else if c == CHAR_SET_START {
        Ok((Growth { stack: g.stack, in_class: true, negated: false, members: seq![] }, i + 1))
    } else if c == SLASH {
        if i + 1 >= tokens.len() {
            Err(InvalidPattern::DanglingEscape)
        } else if tokens[i + 1] == 'd' {
            Ok((grown(g, Expr::Digit), i + 2))
        } else if tokens[i + 1] == 'w' {
            Ok((grown(g, Expr::Word), i + 2))
        } else {
            Ok((g, i + 1))
        }
    } else if c == KLEEN {
        if n < 1 {
            Err(InvalidPattern::MissingOperand)
        } else {
            Ok(
                (
                    Growth {
                        stack: g.stack.take(n - 1).push(Expr::Star(Box::new(g.stack[n - 1]))),
                        in_class: g.in_class,
                        negated: g.negated,
                        members: g.members,
                    },
                    i + 1,
                ),
            )
        }
    } else if c == CONCAT {
        if n < 2 {
            Err(InvalidPattern::MissingOperand)
        } else {
            Ok(
                (
                    Growth {
                        stack: g.stack.take(n - 2).push(
                            Expr::Concat(Box::new(g.stack[n - 2]), Box::new(g.stack[n - 1])),
                        ),
                        in_class: g.in_class,
                        negated: g.negated,
                        members: g.members,
                    },
                    i + 1,
                ),
            )
        }
    } else if c == UNION {
        if n < 2 {
            Err(InvalidPattern::MissingOperand)
        } else {
            Ok(
                (
                    Growth {
                        stack: g.stack.take(n - 2).push(
                            Expr::Union(Box::new(g.stack[n - 2]), Box::new(g.stack[n - 1])),
                        ),
                        in_class: g.in_class,
                        negated: g.negated,
                        members: g.members,
                    },
                    i + 1,
                ),
            )
        }
    } else {
        Ok((grown(g, Expr::Symbol(c)), i + 1))
    }
}

/// Reads the tokens from index `i` on.
pub open spec fn growth_run(g: Growth, tokens: Seq<char>, i: int) -> Result<Growth, InvalidPattern>
    decreases tokens.len() - i,
{
    if i < 0 || i >= tokens.len() {
        Ok(g)
    } else {
        match growth_step(g, tokens, i) {
            Err(e) => Err(e),
            Ok((h, j)) => growth_run(h, tokens, j),
        }
    }
}

/// The tree that a postfix stream describes, or the reason why it describes
/// none.
pub open spec fn tree_of_postfix(tokens: Seq<char>) -> Result<Expr, InvalidPattern> {
    match growth_run(growth_start(), tokens, 0) {
        Err(e) => Err(e),
        Ok(g) => if g.in_class {
            Err(InvalidPattern::UnclosedClass)
        } else if g.stack.len() != 1 {
            Err(InvalidPattern::NotOneExpression)
        } else {
            Ok(g.stack[0])
        },
    }
}

/// The tree that `pattern` is read as, or the reason why it is refused.
pub open spec fn tree_of(pattern: Seq<char>) -> Result<Expr, InvalidPattern> {
    match postfix(pattern) {
        Err(e) => Err(e),
        Ok(tokens) => tree_of_postfix(tokens),
    }
}

/// The automata that the combinators make of the trees of a stack.
pub open spec fn composed(stack: Seq<Expr>, ignore_case: bool) -> Seq<Automaton> {
    stack.map_values(|e: Expr| e.compose(ignore_case))
}

/// The state of the assembly that goes with a state of the reading.
pub open spec fn assembled(g: Growth, ignore_case: bool) -> Assembly {
    Assembly {
        stack: composed(g.stack, ignore_case),
        in_class: g.in_class,
        negated: g.negated,
        members: g.members,
    }
}

/// The automaton of a tree that is put on a stack of trees is put on the
/// stack of their automata.
proof fn lemma_composed_push(stack: Seq<Expr>, e: Expr, ignore_case: bool)
    ensures
        composed(stack.push(e), ignore_case) == composed(stack, ignore_case).push(
            e.compose(ignore_case),
        ),
{
    assert(composed(stack.push(e), ignore_case) =~= composed(stack, ignore_case).push(
        e.compose(ignore_case),
    ));
}

/// A step of the assembly puts on its stack the automaton of the tree that
/// the same step of the reading puts on its stack.
proof fn lemma_growth_step(g: Growth, tokens: Seq<char>, i: int, ignore_case: bool)
    requires
        0 <= i < tokens.len(),
    ensures
        match growth_step(g, tokens, i) {
            Ok((h, j)) => assembly_step(assembled(g, ignore_case), tokens, i, ignore_case) == Ok::<
                (Assembly, int),
                InvalidPattern,
            >((assembled(h, ignore_case), j)) && i < j,
            Err(r) => assembly_step(assembled(g, ignore_case), tokens, i, ignore_case) == Err::<
                (Assembly, int),
                InvalidPattern,
            >(r),
        },
{
    lemma_growth_step_at(g, tokens, i, tokens[i], ignore_case);
}

/// See [`lemma_growth_step`]; `c` is the token at index `i`.
proof fn lemma_growth_step_at(g: Growth, tokens: Seq<char>, i: int, c: char, ignore_case: bool)
    requires
        0 <= i < tokens.len(),
        c == tokens[i],
    ensures
        match growth_step(g, tokens, i) {
            Ok((h, j)) => assembly_step(assembled(g, ignore_case), tokens, i, ignore_case) == Ok::<
                (Assembly, int),
                InvalidPattern,
            >((assembled(h, ignore_case), j)) && i < j,
            Err(r) => assembly_step(assembled(g, ignore_case), tokens, i, ignore_case) == Err::<
                (Assembly, int),
                InvalidPattern,
            >(r),
        },
{
    let a = assembled(g, ignore_case);
    let n = g.stack.len() as int;
    let below = composed(g.stack, ignore_case);
    if c == CHAR_SET_END {
        let e = Expr::Class { negated: g.negated, members: g.members };
        assert(composed(g.stack.push(e), ignore_case) =~= below.push(e.compose(ignore_case)));
    } else if g.in_class {
    } else if c == CHAR_SET_START {
    } else if c == SLASH {
        if i + 1 < tokens.len() {
            if tokens[i + 1] == 'd' {
                assert(composed(g.stack.push(Expr::Digit), ignore_case) =~= below.push(
                    Expr::Digit.compose(ignore_case),
                ));
            } else if tokens[i + 1] == 'w' {
                assert(composed(g.stack.push(Expr::Word), ignore_case) =~= below.push(
                    Expr::Word.compose(ignore_case),
                ));
            }
        }
    } else if c == KLEEN {
        if n >= 1 {
            let e = Expr::Star(Box::new(g.stack[n - 1]));
            assert(composed(g.stack.take(n - 1).push(e), ignore_case) =~= below.take(n - 1).push(
                e.compose(ignore_case),
            ));
        }
    } else if c == CONCAT {
        if n >= 2 {
            let e = Expr::Concat(Box::new(g.stack[n - 2]), Box::new(g.stack[n - 1]));
            assert(composed(g.stack.take(n - 2).push(e), ignore_case) =~= below.take(n - 2).push(
                e.compose(ignore_case),
            ));
        }
    } else if c == UNION {
        if n >= 2 {
            let e = Expr::Union(Box::new(g.stack[n - 2]), Box::new(g.stack[n - 1]));
            assert(composed(g.stack.take(n - 2).push(e), ignore_case) =~= below.take(n - 2).push(
                e.compose(ignore_case),
            ));
        }
    } else {
        lemma_composed_push(g.stack, Expr::Symbol(c), ignore_case);
    }
}

/// The assembly ends with the automata of the trees that the reading ends
/// with, and fails where the reading fails, for the same reason.
proof fn lemma_growth_run(g: Growth, tokens: Seq<char>, i: int, ignore_case: bool)
    requires
        0 <= i,
    ensures
        match growth_run(g, tokens, i) {
            Ok(h) => assembly_run(assembled(g, ignore_case), tokens, i, ignore_case) == Ok::<
                Assembly,
                InvalidPattern,
            >(assembled(h, ignore_case)),
            Err(r) => assembly_run(assembled(g, ignore_case), tokens, i, ignore_case) == Err::<
                Assembly,
                InvalidPattern,
            >(r),
        },
    decreases tokens.len() - i,
{
    if i < tokens.len() {
        lemma_growth_step(g, tokens, i, ignore_case);
        match growth_step(g, tokens, i) {
            Ok((h, j)) => {
                lemma_growth_run(h, tokens, j, ignore_case);
            },
            Err(r) => {},
        }
    }
}

/// Compiling a pattern gives the automaton that the combinators make of the
/// tree that the pattern is read as; a pattern that is read as no tree is
/// refused, for the same reason.
pub proof fn lemma_tree_compiles(pattern: Seq<char>, ignore_case: bool)
    ensures
        match tree_of(pattern) {
            Ok(e) => automaton_of(pattern, ignore_case) == Ok::<Automaton, InvalidPattern>(
                e.compose(ignore_case),
            ),
            Err(r) => automaton_of(pattern, ignore_case) == Err::<Automaton, InvalidPattern>(r),
        },
{
    match postfix(pattern) {
        Ok(tokens) => {
            lemma_growth_run(growth_start(), tokens, 0, ignore_case);
            assert(assembled(growth_start(), ignore_case).stack =~= assembly_start().stack);
        },
        Err(r) => {},
    }
}

/// Between two classes the reading holds neither members nor a negation.
pub open spec fn at_rest(g: Growth) -> bool {
    !g.in_class && !g.negated && g.members.len() == 0
}

/// Reading the members of a class, from index `i` on, up to the closing
/// bracket at index `end`, adds them to those read before.
proof fn lemma_members(g: Growth, tokens: Seq<char>, i: int, end: int)
    requires
        g.in_class,
        0 <= i <= end < tokens.len(),
        forall|j: int| i <= j < end ==> tokens[j] != CHAR_SET_END,
        g.negated || g.members.len() > 0 || i == end || tokens[i] != NEGATION,
    ensures
        growth_run(g, tokens, i) == growth_run(
            Growth {
                stack: g.stack,
                in_class: true,
                negated: g.negated,
                members: g.members + tokens.subrange(i, end),
            },
            tokens,
            end,
        ),
    decreases end - i,
{
    if i == end {
        assert(g.members + tokens.subrange(i, end) =~= g.members);
    } else {
        let h = Growth {
            stack: g.stack,
            in_class: true,
            negated: g.negated,
            members: g.members.push(tokens[i]),
        };
        assert(growth_step(g, tokens, i) == Ok::<(Growth, int), InvalidPattern>((h, i + 1)));
        lemma_members(h, tokens, i + 1, end);
        assert(h.members + tokens.subrange(i + 1, end) =~= g.members + tokens.subrange(i, end));
    }
}

/// Reading a class, from its opening bracket at index `i` to its closing
/// bracket, puts it on the stack.
proof fn lemma_reading_of_class(
    negated: bool,
    members: Seq<char>,
    g: Growth,
    tokens: Seq<char>,
    i: int,
)
    requires
        (Expr::Class { negated, members }).writable(),
        at_rest(g),
        0 <= i,
        i + (Expr::Class { negated, members }).postfix().len() <= tokens.len(),
        tokens.subrange(i, i + (Expr::Class { negated, members }).postfix().len()) == (Expr::Class {
            negated,
            members,
        }).postfix(),
    ensures
        growth_run(g, tokens, i) == growth_run(
            grown(g, Expr::Class { negated, members }),
            tokens,
            i + (Expr::Class { negated, members }).postfix().len(),
        ),
{
    let e = Expr::Class { negated, members };
    let head = if negated {
        seq![CHAR_SET_START, NEGATION]
    } else {
        seq![CHAR_SET_START]
    };
    let n = e.postfix().len() as int;
    let first = i + head.len();
    let end = i + n - 1;
    assert(e.postfix() =~= (head + members) + seq![CHAR_SET_END]);
    lemma_window(tokens, i, head + members, seq![CHAR_SET_END]);
    lemma_window(tokens, i, head, members);
    assert(tokens.subrange(i, first)[0] == tokens[i]);
    assert(tokens.subrange(end, end + 1)[0] == tokens[end]);
    let opened = Growth { stack: g.stack, in_class: true, negated: false, members: seq![] };
    assert(growth_step(g, tokens, i) == Ok::<(Growth, int), InvalidPattern>((opened, i + 1)));
    assert(growth_run(g, tokens, i) == growth_run(opened, tokens, i + 1));
    let begun = Growth { stack: g.stack, in_class: true, negated, members: seq![] };
    if negated {
        assert(tokens.subrange(i, first)[1] == tokens[i + 1]);
        assert(growth_step(opened, tokens, i + 1) == Ok::<(Growth, int), InvalidPattern>(
            (begun, i + 2),
        ));
        assert(growth_run(opened, tokens, i + 1) == growth_run(begun, tokens, i + 2));
    }
    assert(growth_run(g, tokens, i) == growth_run(begun, tokens, first));
    assert forall|j: int| first <= j < end implies tokens[j] != CHAR_SET_END by {
        assert(tokens.subrange(first, end)[j - first] == tokens[j]);
        assert(members.contains(members[j - first]));
    }
    if first < end {
        assert(tokens.subrange(first, end)[0] == tokens[first]);
    }
    lemma_members(begun, tokens, first, end);
    assert(begun.members + members =~= members);
    let full = Growth { stack: g.stack, in_class: true, negated, members };
    assert(g.members =~= Seq::<char>::empty());
    assert(growth_step(full, tokens, end) == Ok::<(Growth, int), InvalidPattern>(
        (grown(g, e), end + 1),
    ));
}

/// Reading an operator takes its operands from the top of the stack and
/// puts the tree that it makes of them there.
proof fn lemma_reading_of_operator(g: Growth, x: Expr, y: Expr, tokens: Seq<char>, at: int)
    requires
        at_rest(g),
        0 <= at < tokens.len(),
        tokens[at] == CONCAT || tokens[at] == UNION || tokens[at] == KLEEN,
    ensures
        tokens[at] == CONCAT ==> growth_run(grown(grown(g, x), y), tokens, at) == growth_run(
            grown(g, Expr::Concat(Box::new(x), Box::new(y))),
            tokens,
            at + 1,
        ),
        tokens[at] == UNION ==> growth_run(grown(grown(g, x), y), tokens, at) == growth_run(
            grown(g, Expr::Union(Box::new(x), Box::new(y))),
            tokens,
            at + 1,
        ),
        tokens[at] == KLEEN ==> growth_run(grown(g, x), tokens, at) == growth_run(
            grown(g, Expr::Star(Box::new(x))),
            tokens,
            at + 1,
        ),
{
    let two = grown(grown(g, x), y);
    let one = grown(g, x);
    assert(two.stack.take(two.stack.len() - 2) =~= g.stack);
    assert(one.stack.take(one.stack.len() - 1) =~= g.stack);
    if tokens[at] == CONCAT {
        assert(growth_step(two, tokens, at) == Ok::<(Growth, int), InvalidPattern>(
            (grown(g, Expr::Concat(Box::new(x), Box::new(y))), at + 1),
        ));
    } else if tokens[at] == UNION {
        assert(growth_step(two, tokens, at) == Ok::<(Growth, int), InvalidPattern>(
            (grown(g, Expr::Union(Box::new(x), Box::new(y))), at + 1),
        ));
    } else {
        assert(growth_step(one, tokens, at) == Ok::<(Growth, int), InvalidPattern>(
            (grown(g, Expr::Star(Box::new(x))), at + 1),
        ));
    }
}

/// Reading the postfix form of a tree puts the tree on the stack and
/// changes nothing else.
pub(crate) proof fn lemma_reading_of(e: Expr, g: Growth, tokens: Seq<char>, i: int)
    requires
        e.writable(),
        at_rest(g),
        0 <= i,
        i + e.postfix().len() <= tokens.len(),
        tokens.subrange(i, i + e.postfix().len()) == e.postfix(),
    ensures
        growth_run(g, tokens, i) == growth_run(grown(g, e), tokens, i + e.postfix().len()),
    decreases e,
{
    let n = e.postfix().len() as int;
    let part = tokens.subrange(i, i + n);
    match e {
        Expr::Symbol(c) => {
            assert(tokens[i] == part[0]);
        },
        Expr::Digit => {
            assert(tokens[i] == part[0]);
            assert(tokens[i + 1] == part[1]);
        },
        Expr::Word => {
            assert(tokens[i] == part[0]);
            assert(tokens[i + 1] == part[1]);
        },
        Expr::Class { negated, members } => {
            lemma_reading_of_class(negated, members, g, tokens, i);
        },
        Expr::Concat(x, y) => {
            let nx = x.postfix().len() as int;
            let ny = y.postfix().len() as int;
            lemma_window(tokens, i, x.postfix() + y.postfix(), seq![CONCAT]);
            lemma_window(tokens, i, x.postfix(), y.postfix());
            lemma_reading_of(*x, g, tokens, i);
            lemma_reading_of(*y, grown(g, *x), tokens, i + nx);
            assert(tokens[i + nx + ny] == tokens.subrange(i + nx + ny, i + n)[0]);
            lemma_reading_of_operator(g, *x, *y, tokens, i + nx + ny);
            assert(Expr::Concat(Box::new(*x), Box::new(*y)) == e);
        },
        Expr::Union(x, y) => {
            let nx = x.postfix().len() as int;
            let ny = y.postfix().len() as int;
            lemma_window(tokens, i, x.postfix() + y.postfix(), seq![UNION]);
            lemma_window(tokens, i, x.postfix(), y.postfix());
            lemma_reading_of(*x, g, tokens, i);
            lemma_reading_of(*y, grown(g, *x), tokens, i + nx);
            assert(tokens[i + nx + ny] == tokens.subrange(i + nx + ny, i + n)[0]);
            lemma_reading_of_operator(g, *x, *y, tokens, i + nx + ny);
            assert(Expr::Union(Box::new(*x), Box::new(*y)) == e);
        },
        Expr::Star(x) => {
            let nx = x.postfix().len() as int;
            lemma_window(tokens, i, x.postfix(), seq![KLEEN]);
            lemma_reading_of(*x, g, tokens, i);
            assert(tokens[i + nx] == tokens.subrange(i + nx, i + n)[0]);
            lemma_reading_of_operator(g, *x, *x, tokens, i + nx);
            assert(Expr::Star(Box::new(*x)) == e);
        },
    }
}

/// The postfix form of a tree is read as the tree.
pub proof fn lemma_postfix_reads(e: Expr)
    requires
        e.writable(),
    ensures
        tree_of_postfix(e.postfix()) == Ok::<Expr, InvalidPattern>(e),
{
    let tokens = e.postfix();
    assert(tokens.subrange(0, tokens.len() as int) =~= tokens);
    lemma_reading_of(e, growth_start(), tokens, 0);
    let done = grown(growth_start(), e);
    assert(growth_run(done, tokens, tokens.len() as int) == Ok::<Growth, InvalidPattern>(done));
}

/// The automaton assembled from the postfix form of a tree is the automaton
/// that the combinators make of the tree.
pub proof fn lemma_compiled_as_composed(e: Expr, ignore_case: bool)
    requires
        e.writable(),
    ensures
        automaton_of_postfix(e.postfix(), ignore_case) == Ok::<Automaton, InvalidPattern>(
            e.compose(ignore_case),
        ),
{
    let tokens = e.postfix();
    lemma_postfix_reads(e);
    lemma_growth_run(growth_start(), tokens, 0, ignore_case);
    assert(assembled(growth_start(), ignore_case).stack =~= assembly_start().stack);
}

} // verus!
