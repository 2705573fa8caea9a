//! From the surface syntax of a pattern to an automaton: concatenation is
//! made explicit, the pattern is brought into postfix order, and the postfix
//! stream is assembled into an automaton.

use vstd::prelude::*;
use vstd::string::StringExecFns;
use crate::compose::{
    alphanumeric_model, cased_all, class_model, concat_model, digit_model, kleen_model,
    negated_class_model, symbol_model, union_model,
};
use crate::nfa::{
    alphanumeric, concat, digit, kleen, negative_set_of_chars, set_of_chars, symbol, union,
    Automaton, NfaOptions, NFA,
};
use crate::expr::Expr;
use crate::text::{char_at, chars_of_str, string_from_chars};
use crate::tree::{lemma_tree_compiles, tree_of};

verus! {

/// Marks a concatenation in a pattern whose concatenations are explicit.
/// Patterns as written may not hold it.
pub const CONCAT: char = '?';

/// Separates alternatives.
pub const UNION: char = '+';

/// Repeats what stands before it any number of times.
pub const KLEEN: char = '*';

/// Introduces `\d` and `\w`.
pub const SLASH: char = '\\';

/// Opens a character class.
pub const CHAR_SET_START: char = '[';

/// Closes a character class.
pub const CHAR_SET_END: char = ']';

/// Opens a group.
pub const GROUP_START: char = '(';

/// Closes a group.
pub const GROUP_END: char = ')';

/// Negates a character class when it is the first character in it.
pub const NEGATION: char = '^';

/// Why a pattern is refused.
#[derive(Clone, Copy, Debug, PartialEq, Eq)]
pub enum InvalidPattern {
    /// The pattern holds the concatenation marker.
    ReservedSymbol,
    /// A group is closed that was not opened.
    UnmatchedGroupEnd,
    /// A group is opened and not closed.
    UnmatchedGroupStart,
    /// A character class is opened and not closed.
    UnclosedClass,
    /// Nothing follows a backslash.
    DanglingEscape,
    /// An operator lacks an operand.
    MissingOperand,
    /// The pattern is empty, or holds expressions that nothing joins.
    NotOneExpression,
}

/// What is wrong with a pattern that is refused for `reason`, in words.
pub open spec fn message_of(reason: InvalidPattern) -> Seq<char> {
    match reason {
        InvalidPattern::ReservedSymbol => "the pattern holds the reserved character '?'"@,
        InvalidPattern::UnmatchedGroupEnd => "')' closes no group"@,
        InvalidPattern::UnmatchedGroupStart => "'(' is not closed"@,
        InvalidPattern::UnclosedClass => "'[' is not closed"@,
        InvalidPattern::DanglingEscape => "nothing follows '\\'"@,
        InvalidPattern::MissingOperand => "an operator lacks an operand"@,
        InvalidPattern::NotOneExpression => "the pattern is not one expression"@,
    }
}

impl InvalidPattern {
    /// What is wrong with the pattern, in words.
    pub fn message(&self) -> (text: String)
        ensures
            text@ == message_of(*self),
    {
        match self {
            InvalidPattern::ReservedSymbol => String::from_str(
                "the pattern holds the reserved character '?'",
            ),
            InvalidPattern::UnmatchedGroupEnd => String::from_str("')' closes no group"),
            InvalidPattern::UnmatchedGroupStart => String::from_str("'(' is not closed"),
            InvalidPattern::UnclosedClass => String::from_str("'[' is not closed"),
            InvalidPattern::DanglingEscape => String::from_str("nothing follows '\\'"),
            InvalidPattern::MissingOperand => String::from_str("an operator lacks an operand"),
            InvalidPattern::NotOneExpression => String::from_str(
                "the pattern is not one expression",
            ),
        }
    }
}

/// Whether a concatenation marker may stand before `c`.
pub open spec fn can_follow(c: char) -> bool {
    c != CONCAT && c != UNION && c != KLEEN && c != GROUP_END && c != CHAR_SET_END
}

/// Whether a concatenation marker may stand after `p`.
pub open spec fn can_precede(p: char) -> bool {
    p != GROUP_START && p != UNION && p != CHAR_SET_START && p != SLASH
}

/// Whether a character class is open after the character at index `i`: an
/// opening bracket opens one, a closing bracket closes it, and every other
/// character leaves things as they were.
pub open spec fn class_open(pattern: Seq<char>, i: int) -> bool
    decreases i + 1,
{
    if i < 0 || i >= pattern.len() {
        false
    } else if pattern[i] == CHAR_SET_START {
        true
    } else if pattern[i] == CHAR_SET_END {
        false
    } else {
        class_open(pattern, i - 1)
    }
}

/// Whether the character at index `i` stands inside a character class:
/// after the bracket that opens the class and before the bracket that closes
/// it. Neither bracket stands inside.
pub open spec fn in_class(pattern: Seq<char>, i: int) -> bool {
    class_open(pattern, i - 1) && pattern[i] != CHAR_SET_END
}

/// Whether a concatenation marker belongs before the character at index `i`.
pub open spec fn needs_concat(pattern: Seq<char>, i: int) -> bool {
    &&& 0 < i < pattern.len()
    &&& !in_class(pattern, i)
    &&& can_follow(pattern[i])
    &&& can_precede(pattern[i - 1])
}

/// The first `n` characters of `pattern`, each with a concatenation marker
/// before it where one belongs.
pub open spec fn with_concat_upto(pattern: Seq<char>, n: int) -> Seq<char>
    decreases n,
{
    if n <= 0 {
        seq![]
    } else if needs_concat(pattern, n - 1) {
        with_concat_upto(pattern, n - 1).push(CONCAT).push(pattern[n - 1])
    } else {
        with_concat_upto(pattern, n - 1).push(pattern[n - 1])
    }
}

/// `pattern` with its concatenations made explicit.
pub open spec fn with_concat(pattern: Seq<char>) -> Seq<char> {
    with_concat_upto(pattern, pattern.len() as int)
}

/// Whether a concatenation marker may stand before `c`.
fn follows(c: char) -> (r: bool)
    ensures
        r == can_follow(c),
{
    c != CONCAT && c != UNION && c != KLEEN && c != GROUP_END && c != CHAR_SET_END
}

/// Whether a concatenation marker may stand after `p`.
fn precedes(p: char) -> (r: bool)
    ensures
        r == can_precede(p),
{
    p != GROUP_START && p != UNION && p != CHAR_SET_START && p != SLASH
}

/// Makes the concatenations of `pattern` explicit.
pub fn insert_concat(pattern: &Vec<char>) -> (marked: Vec<char>)
    ensures
        marked@ == with_concat(pattern@),
{
    let mut output: Vec<char> = Vec::new();
    let mut is_in_char_set = false;
    let mut i: usize = 0;
    while i < pattern.len()
        invariant
            i <= pattern@.len(),
            output@ == with_concat_upto(pattern@, i as int),
            is_in_char_set == class_open(pattern@, i - 1),
        decreases pattern@.len() - i,
    {
        let c = char_at(pattern, i);
        let inside = is_in_char_set && c != CHAR_SET_END;
        let can_concat = !inside && follows(c) && i > 0 && precedes(char_at(pattern, i - 1));
        if can_concat {
            output.push(CONCAT);
        }
        output.push(c);
        if c == CHAR_SET_START {
            is_in_char_set = true;
        }
        if c == CHAR_SET_END {
            is_in_char_set = false;
        }
        i += 1;
    }
    output
}

/// Makes the concatenations of `regex` explicit: a marker is placed before
/// every character outside a class that can begin an operand and follows a
/// character that can end one. A class is one operand: a marker may stand
/// before the bracket that opens it, and none stands inside it.
pub fn insert_concat_symbol(regex: &str) -> (marked: String)
    ensures
        marked@ == with_concat(regex@),
{
    let pattern = chars_of_str(regex);
    let output = insert_concat(&pattern);
    string_from_chars(&output)
}

/// How tightly an operator binds. A grouping parenthesis binds least, so
/// that no operator moves past one.
pub open spec fn precedence(c: char) -> int {
    if c == KLEEN {
        4
    } else if c == CONCAT {
        3
    } else if c == UNION {
        2
    } else {
        0
    }
}

/// Whether `c` is one of the three operators.
pub open spec fn is_operator(c: char) -> bool {
    c == KLEEN || c == UNION || c == CONCAT
}

/// The state of the conversion to postfix order: what has been emitted, the
/// operators that wait (the last is the top of the stack), and whether a
/// character class is open.
pub struct Yard {
    pub output: Seq<char>,
    pub operators: Seq<char>,
    pub in_class: bool,
}

/// The state before any character is read.
pub open spec fn yard_start() -> Yard {
    Yard { output: seq![], operators: seq![], in_class: false }
}

/// Emits, from the top, the waiting operators that bind at least as tightly
/// as `c`.
pub open spec fn yield_to(y: Yard, c: char) -> Yard
    decreases y.operators.len(),
{
    if y.operators.len() > 0 && precedence(y.operators.last()) >= precedence(c) {
        yield_to(
            Yard {
                output: y.output.push(y.operators.last()),
                operators: y.operators.drop_last(),
                in_class: y.in_class,
            },
            c,
        )
    } else {
        y
    }
}

/// Emits, from the top, the waiting operators down to the nearest opening
/// parenthesis and drops that parenthesis; there is no result where none
/// waits.
pub open spec fn close_group(y: Yard) -> Option<Yard>
    decreases y.operators.len(),
{
    if y.operators.len() == 0 {
        None
    } else if y.operators.last() == GROUP_START {
        Some(Yard { output: y.output, operators: y.operators.drop_last(), in_class: y.in_class })
    } else {
        close_group(
            Yard {
                output: y.output.push(y.operators.last()),
                operators: y.operators.drop_last(),
                in_class: y.in_class,
            },
        )
    }
}

/// Reads one character.
pub open spec fn yard_step(y: Yard, c: char) -> Result<Yard, InvalidPattern> {
    if c == CHAR_SET_END {
        Ok(Yard { output: y.output.push(c), operators: y.operators, in_class: false })
    } else if y.in_class {
        Ok(Yard { output: y.output.push(c), operators: y.operators, in_class: true })
    } else if is_operator(c) {
        let z = yield_to(y, c);
        Ok(Yard { output: z.output, operators: z.operators.push(c), in_class: false })
    } else if c == CHAR_SET_START {
        Ok(Yard { output: y.output.push(c), operators: y.operators, in_class: true })
    } else if c == GROUP_START {
        Ok(Yard { output: y.output, operators: y.operators.push(c), in_class: false })
    } else if c == GROUP_END {
        match close_group(y) {
            Some(z) => Ok(z),
            None => Err(InvalidPattern::UnmatchedGroupEnd),
        }
    } else {
        Ok(Yard { output: y.output.push(c), operators: y.operators, in_class: false })
    }
}

/// Reads the first `n` characters of `input`.
pub open spec fn yard_run(input: Seq<char>, n: int) -> Result<Yard, InvalidPattern>
    decreases n,
{
    if n <= 0 {
        Ok(yard_start())
    } else {
        match yard_run(input, n - 1) {
            Ok(y) => yard_step(y, input[n - 1]),
            Err(e) => Err(e),
        }
    }
}

/// Emits all waiting operators from the top. An opening parenthesis among
/// them was never closed.
pub open spec fn flush(y: Yard) -> Result<Seq<char>, InvalidPattern>
    decreases y.operators.len(),
{
    if y.operators.len() == 0 {
        Ok(y.output)
    } else if y.operators.last() == GROUP_START {
        Err(InvalidPattern::UnmatchedGroupStart)
    } else {
        flush(
            Yard {
                output: y.output.push(y.operators.last()),
                operators: y.operators.drop_last(),
                in_class: y.in_class,
            },
        )
    }
}

/// The postfix form of a pattern whose concatenations are explicit.
pub open spec fn postfix_of_marked(marked: Seq<char>) -> Result<Seq<char>, InvalidPattern> {
    match yard_run(marked, marked.len() as int) {
        Err(e) => Err(e),
        Ok(y) => if y.in_class {
            Err(InvalidPattern::UnclosedClass)
        } else {
            flush(y)
        },
    }
}

/// The postfix form of `pattern`, or the reason why it has none.
pub open spec fn postfix(pattern: Seq<char>) -> Result<Seq<char>, InvalidPattern> {
    if pattern.contains(CONCAT) {
        Err(InvalidPattern::ReservedSymbol)
    } else {
        postfix_of_marked(with_concat(pattern))
    }
}

/// See [`precedence`].
fn binding(c: char) -> (p: u8)
    ensures
        p == precedence(c),
{
    if c == KLEEN {
        4
    } else if c == CONCAT {
        3
    } else if c == UNION {
        2
    } else {
        0
    }
}

/// Whether `pattern` holds the character `c`.
fn holds(pattern: &Vec<char>, c: char) -> (r: bool)
    ensures
        r == pattern@.contains(c),
{
    let mut i: usize = 0;
    while i < pattern.len()
        invariant
            i <= pattern@.len(),
            forall|j: int| 0 <= j < i ==> pattern@[j] != c,
        decreases pattern@.len() - i,
    {
        if char_at(pattern, i) == c {
            return true;
        }
        i += 1;
    }
    false
}

/// Brings a pattern whose concatenations are explicit into postfix order.
pub fn postfix_order(marked: &Vec<char>) -> (r: Result<Vec<char>, InvalidPattern>)
    ensures
        match r {
            Ok(tokens) => postfix_of_marked(marked@) == Ok::<Seq<char>, InvalidPattern>(tokens@),
            Err(e) => postfix_of_marked(marked@) == Err::<Seq<char>, InvalidPattern>(e),
        },
{
    let mut operators: Vec<char> = Vec::new();
    let mut output: Vec<char> = Vec::new();
    let mut is_in_char_set = false;
    let mut i: usize = 0;
    while i < marked.len()
        invariant
            i <= marked@.len(),
            yard_run(marked@, i as int) == Ok::<Yard, InvalidPattern>(
                Yard { output: output@, operators: operators@, in_class: is_in_char_set },
            ),
        decreases marked@.len() - i,
    {
        let c = char_at(marked, i);
        let ghost before = Yard { output: output@, operators: operators@, in_class: is_in_char_set };
        if c == CHAR_SET_END {
            is_in_char_set = false;
            output.push(c);
        } else if is_in_char_set {
            output.push(c);
        } else if c == KLEEN || c == UNION || c == CONCAT {
            loop
                invariant
                    !is_in_char_set,
                    yield_to(before, c) == yield_to(
                        Yard { output: output@, operators: operators@, in_class: false },
                        c,
                    ),
                ensures
                    yield_to(before, c) == (Yard {
                        output: output@,
                        operators: operators@,
                        in_class: false,
                    }),
                decreases operators@.len(),
            {
                if operators.len() == 0 {
                    break ;
                }
                let top = operators[operators.len() - 1];
                if binding(top) >= binding(c) {
                    operators.pop();
                    output.push(top);
                } else {
                    break ;
                }
            }
            operators.push(c);
        } else if c == CHAR_SET_START {
            is_in_char_set = true;
            output.push(c);
        } else if c == GROUP_START {
            operators.push(c);
        } else if c == GROUP_END {
            loop
                invariant_except_break
                    close_group(before) == close_group(
                        Yard { output: output@, operators: operators@, in_class: false },
                    ),
                invariant
                    !is_in_char_set,
                    yard_run(marked@, i as int) == Ok::<Yard, InvalidPattern>(before),
                    i < marked@.len(),
                    c == marked@[i as int],
                    c == GROUP_END,
                    !before.in_class,
                ensures
                    close_group(before) == Some(
                        Yard { output: output@, operators: operators@, in_class: false },
                    ),
                decreases operators@.len(),
            {
                let ghost now = Yard { output: output@, operators: operators@, in_class: false };
                match operators.pop() {
                    None => {
                        proof {
                            assert(close_group(now).is_none());
                            assert(yard_step(before, c) == Err::<Yard, InvalidPattern>(
                                InvalidPattern::UnmatchedGroupEnd,
                            ));
                            assert(yard_run(marked@, i + 1) == Err::<Yard, InvalidPattern>(
                                InvalidPattern::UnmatchedGroupEnd,
                            ));
                            lemma_yard_error_stays(marked@, i + 1, marked@.len() as int);
                        }
                        return Err(InvalidPattern::UnmatchedGroupEnd);
                    },
                    Some(operator) => {
                        if operator == GROUP_START {
                            break ;
                        }
                        output.push(operator);
                    },
                }
            }
        } else {
            output.push(c);
        }
        i += 1;
    }
    if is_in_char_set {
        return Err(InvalidPattern::UnclosedClass);
    }
    let ghost end = Yard { output: output@, operators: operators@, in_class: false };
    loop
        invariant
            flush(end) == flush(Yard { output: output@, operators: operators@, in_class: false }),
            postfix_of_marked(marked@) == flush(end),
        decreases operators@.len(),
    {
        match operators.pop() {
            None => {
                return Ok(output);
            },
            Some(operator) => {
                if operator == GROUP_START {
                    return Err(InvalidPattern::UnmatchedGroupStart);
                }
                output.push(operator);
            },
        }
    }
}

/// Once reading has failed, it has failed for every longer prefix.
pub(crate) proof fn lemma_yard_error_stays(input: Seq<char>, n: int, m: int)
    requires
        0 <= n <= m,
        yard_run(input, n) is Err,
    ensures
        yard_run(input, m) == yard_run(input, n),
    decreases m - n,
{
    if n < m {
        lemma_yard_error_stays(input, n, m - 1);
    }
}

/// Brings `raw_regex` into postfix order: operands in the order they are
/// written, each operator after its operands, no parentheses but those
/// inside character classes, which pass unchanged.
///
/// The result is a function of the pattern alone. A pattern is refused when
/// it holds the concatenation marker, closes a group that is not open, or
/// leaves a group or a character class open.
pub fn shunting_yard(raw_regex: &str) -> (r: Result<String, InvalidPattern>)
    ensures
        match r {
            Ok(tokens) => postfix(raw_regex@) == Ok::<Seq<char>, InvalidPattern>(tokens@),
            Err(e) => postfix(raw_regex@) == Err::<Seq<char>, InvalidPattern>(e),
        },
{
    let pattern = chars_of_str(raw_regex);
    if holds(&pattern, CONCAT) {
        return Err(InvalidPattern::ReservedSymbol);
    }
    let marked = insert_concat(&pattern);
    match postfix_order(&marked) {
        Ok(tokens) => Ok(string_from_chars(&tokens)),
        Err(e) => Err(e),
    }
}

/// The state of the assembly of an automaton from a postfix stream: the
/// automata built so far (the last is the top of the stack) and, while a
/// character class is read, whether it is negated and its members so far.
pub struct Assembly {
    pub stack: Seq<Automaton>,
    pub in_class: bool,
    pub negated: bool,
    pub members: Seq<char>,
}

/// The state before any token is read.
pub open spec fn assembly_start() -> Assembly {
    Assembly { stack: seq![], in_class: false, negated: false, members: seq![] }
}

/// The automaton of a character class.
pub open spec fn class_automaton(negated: bool, members: Seq<char>, ignore_case: bool) -> Automaton {
    if negated {
        negated_class_model(cased_all(members, ignore_case, false))
    } else {
        class_model(cased_all(members, ignore_case, true))
    }
}

/// `a` with `m` on top of its stack.
pub open spec fn pushed(a: Assembly, m: Automaton) -> Assembly {
    Assembly { stack: a.stack.push(m), in_class: a.in_class, negated: a.negated, members: a.members }
}

/// Reads the token at index `i`, and with a backslash the token after it:
/// the state that results and the index of the next token to read.
///
/// A closing bracket puts the class read so far on the stack. Inside a class
/// a leading `^` negates it and every other character is a member. Outside,
/// `\d` and `\w` put their classes on the stack, a backslash before another
/// character is dropped, an operator takes its operands from the stack and
/// puts the result there, and every other character stands for itself.
pub open spec fn assembly_step(a: Assembly, tokens: Seq<char>, i: int, ignore_case: bool) -> Result<
    (Assembly, int),
    InvalidPattern,
> {
    let c = tokens[i];
    let n = a.stack.len() as int;
    if c == CHAR_SET_END {
        Ok(
            (
                Assembly {
                    stack: a.stack.push(class_automaton(a.negated, a.members, ignore_case)),
                    in_class: false,
                    negated: false,
                    members: seq![],
                },
                i + 1,
            ),
        )
    } else if a.in_class {
        if c == NEGATION && a.members.len() == 0 && !a.negated {
            Ok((Assembly { stack: a.stack, in_class: true, negated: true, members: a.members }, i + 1))
        } else {
            Ok(
                (
                    Assembly {
                        stack: a.stack,
                        in_class: true,
                        negated: a.negated,
                        members: a.members.push(c),
                    },
                    i + 1,
                ),
            )
        }
    } else if c == CHAR_SET_START {
        Ok((Assembly { stack: a.stack, in_class: true, negated: false, members: seq![] }, i + 1))
    } else if c == SLASH {
        if i + 1 >= tokens.len() {
            Err(InvalidPattern::DanglingEscape)
        } else if tokens[i + 1] == 'd' {
            Ok((pushed(a, digit_model()), i + 2))
        } else if tokens[i + 1] == 'w' {
            Ok((pushed(a, alphanumeric_model()), i + 2))
        } else {
            Ok((a, i + 1))
        }
    } else if c == KLEEN {
        if n < 1 {
            Err(InvalidPattern::MissingOperand)
        } else {
            Ok(
                (
                    Assembly {
                        stack: a.stack.take(n - 1).push(kleen_model(a.stack[n - 1])),
                        in_class: a.in_class,
                        negated: a.negated,
                        members: a.members,
                    },
                    i + 1,
                ),
            )
        }
    } else if c == CONCAT {
        if n < 2 {
            Err(InvalidPattern::MissingOperand)
        } else {
            Ok(
                (
                    Assembly {
                        stack: a.stack.take(n - 2).push(concat_model(a.stack[n - 2], a.stack[n - 1])),
                        in_class: a.in_class,
                        negated: a.negated,
                        members: a.members,
                    },
                    i + 1,
                ),
            )
        }
    } else if c == UNION {
        if n < 2 {
            Err(InvalidPattern::MissingOperand)
        } else {
            Ok(
                (
                    Assembly {
                        stack: a.stack.take(n - 2).push(union_model(a.stack[n - 2], a.stack[n - 1])),
                        in_class: a.in_class,
                        negated: a.negated,
                        members: a.members,
                    },
                    i + 1,
                ),
            )
        }
    } else {
        Ok((pushed(a, symbol_model(c, ignore_case)), i + 1))
    }
}

/// Reads the tokens from index `i` on.
pub open spec fn assembly_run(a: Assembly, tokens: Seq<char>, i: int, ignore_case: bool) -> Result<
    Assembly,
    InvalidPattern,
>
    decreases tokens.len() - i,
{
    if i < 0 || i >= tokens.len() {
        Ok(a)
    } else {
        match assembly_step(a, tokens, i, ignore_case) {
            Err(e) => Err(e),
            Ok((b, j)) => assembly_run(b, tokens, j, ignore_case),
        }
    }
}

/// The automaton that a postfix stream describes, or the reason why it
/// describes none: at the end exactly one automaton may be left.
pub open spec fn automaton_of_postfix(tokens: Seq<char>, ignore_case: bool) -> Result<
    Automaton,
    InvalidPattern,
> {
    match assembly_run(assembly_start(), tokens, 0, ignore_case) {
        Err(e) => Err(e),
        Ok(a) => if a.in_class {
            Err(InvalidPattern::UnclosedClass)
        } else if a.stack.len() != 1 {
            Err(InvalidPattern::NotOneExpression)
        } else {
            Ok(a.stack[0])
        },
    }
}

/// The automaton of `pattern`, or the reason why it has none.
pub open spec fn automaton_of(pattern: Seq<char>, ignore_case: bool) -> Result<
    Automaton,
    InvalidPattern,
> {
    match postfix(pattern) {
        Err(e) => Err(e),
        Ok(tokens) => automaton_of_postfix(tokens, ignore_case),
    }
}

/// The models of a sequence of automata.
pub open spec fn models(stack: Seq<NFA>) -> Seq<Automaton> {
    stack.map_values(|n: NFA| n@)
}

/// Assembles the automaton that a postfix stream describes.
pub fn nfa_of_postfix(tokens: &Vec<char>, options: &NfaOptions) -> (r: Result<NFA, InvalidPattern>)
    ensures
        match r {
            Ok(nfa) => nfa.wf() && automaton_of_postfix(tokens@, options.ignore_case) == Ok::<
                Automaton,
                InvalidPattern,
            >(nfa@),
            Err(e) => automaton_of_postfix(tokens@, options.ignore_case) == Err::<
                Automaton,
                InvalidPattern,
            >(e),
        },
{
    let ghost ic = options.ignore_case;
    let ghost whole = assembly_run(assembly_start(), tokens@, 0, ic);
    let mut stack: Vec<NFA> = Vec::new();
    let mut is_in_char_group = false;
    let mut negation = false;
    let mut character_set: Vec<char> = Vec::new();
    let mut i: usize = 0;
    proof {
        assert(models(stack@) =~= Seq::<Automaton>::empty());
    }
    while i < tokens.len()
        invariant
            i <= tokens@.len(),
            ic == options.ignore_case,
            forall|k: int| 0 <= k < stack@.len() ==> (#[trigger] stack@[k]).wf(),
            whole == assembly_run(assembly_start(), tokens@, 0, ic),
            whole == assembly_run(
                Assembly {
                    stack: models(stack@),
                    in_class: is_in_char_group,
                    negated: negation,
                    members: character_set@,
                },
                tokens@,
                i as int,
                ic,
            ),
        decreases tokens@.len() - i,
    {
        let c = char_at(tokens, i);
        let ghost before = Assembly {
            stack: models(stack@),
            in_class: is_in_char_group,
            negated: negation,
            members: character_set@,
        };
        let ghost old_stack = stack@;
        if c == CHAR_SET_END {
            let nfa = if !negation {
                set_of_chars(&character_set, options)
            } else {
                negative_set_of_chars(&character_set, options)
            };
            stack.push(nfa);
            character_set = Vec::new();
            is_in_char_group = false;
            negation = false;
            proof {
                assert(models(stack@) =~= before.stack.push(
                    class_automaton(before.negated, before.members, ic),
                ));
            }
            i += 1;
        } else if is_in_char_group {
            if c == NEGATION && character_set.len() == 0 && !negation {
                negation = true;
            } else {
                character_set.push(c);
            }
            i += 1;
        } else if c == CHAR_SET_START {
            is_in_char_group = true;
            negation = false;
            character_set = Vec::new();
            i += 1;
        } else if c == SLASH {
            if i + 1 >= tokens.len() {
                return Err(InvalidPattern::DanglingEscape);
            }
            let next_symbol = char_at(tokens, i + 1);
            if next_symbol == 'd' {
                stack.push(digit());
                proof {
                    assert(models(stack@) =~= before.stack.push(digit_model()));
                }
                i += 2;
            } else if next_symbol == 'w' {
                stack.push(alphanumeric(options));
                proof {
                    assert(models(stack@) =~= before.stack.push(alphanumeric_model()));
                }
                i += 2;
            } else {
                i += 1;
            }
        } else if c == KLEEN {
            let a = match stack.pop() {
                Some(a) => a,
                None => {
                    return Err(InvalidPattern::MissingOperand);
                },
            };
            proof {
                assert(a == old_stack[old_stack.len() - 1]);
            }
            stack.push(kleen(a));
            proof {
                let n = old_stack.len() as int;
                assert(models(stack@) =~= before.stack.take(n - 1).push(
                    kleen_model(before.stack[n - 1]),
                ));
            }
            i += 1;
        } else if c == CONCAT || c == UNION {
            if stack.len() < 2 {
                return Err(InvalidPattern::MissingOperand);
            }
            let b = match stack.pop() {
                Some(b) => b,
                None => {
                    return Err(InvalidPattern::MissingOperand);
                },
            };
            let a = match stack.pop() {
                Some(a) => a,
                None => {
                    return Err(InvalidPattern::MissingOperand);
                },
            };
            proof {
                assert(b == old_stack[old_stack.len() - 1]);
                assert(a == old_stack[old_stack.len() - 2]);
            }
            if c == CONCAT {
                stack.push(concat(a, b));
            } else {
                stack.push(union(a, b));
            }
            proof {
                let n = old_stack.len() as int;
                if c == CONCAT {
                    assert(models(stack@) =~= before.stack.take(n - 2).push(
                        concat_model(before.stack[n - 2], before.stack[n - 1]),
                    ));
                } else {
                    assert(models(stack@) =~= before.stack.take(n - 2).push(
                        union_model(before.stack[n - 2], before.stack[n - 1]),
                    ));
                }
            }
            i += 1;
        } else {
            stack.push(symbol(c, options));
            proof {
                assert(models(stack@) =~= before.stack.push(symbol_model(c, ic)));
            }
            i += 1;
        }
    }
    if is_in_char_group {
        return Err(InvalidPattern::UnclosedClass);
    }
    if stack.len() != 1 {
        return Err(InvalidPattern::NotOneExpression);
    }
    match stack.pop() {
        Some(nfa) => Ok(nfa),
        None => Err(InvalidPattern::NotOneExpression),
    }
}

/// Compiles `regex` to an automaton.
///
/// The surface syntax: `+` between alternatives, `*` after what is repeated,
/// parentheses for grouping, `[...]` for a class of characters and `[^...]`
/// for its complement, `\d` for one numeric character, `\w` for one
/// alphabetic or numeric character. Every other character stands for
/// itself. With `ignore_case`, a literal character and the members of a class
/// stand for both of their cases.
///
/// What stands side by side is concatenated, a class like any other
/// operand. The automaton is the one that the combinators make of the tree
/// that the pattern is read as, so that it accepts the texts that the tree
/// stands for; a pattern with parentheses around every concatenation,
/// union and star is read as it is written.
///
/// A pattern is refused, with the reason, where it holds `?`, which is
/// reserved, where its parentheses or brackets do not match, where a
/// backslash or an operator lacks what it applies to, and where it is not
/// one expression, as the empty pattern is not.
pub fn regex_to_nfa(regex: &str, options: &NfaOptions) -> (r: Result<NFA, InvalidPattern>)
    ensures
        match r {
            Ok(nfa) => {
                &&& nfa.wf()
                &&& automaton_of(regex@, options.ignore_case) == Ok::<Automaton, InvalidPattern>(
                    nfa@,
                )
                &&& tree_of(regex@) is Ok
                &&& nfa@ == tree_of(regex@)->Ok_0.compose(options.ignore_case)
            },
            Err(e) => automaton_of(regex@, options.ignore_case) == Err::<Automaton, InvalidPattern>(e)
                && tree_of(regex@) == Err::<Expr, InvalidPattern>(e),
        },
{
    proof {
        lemma_tree_compiles(regex@, options.ignore_case);
    }
    let pattern = chars_of_str(regex);
    if holds(&pattern, CONCAT) {
        return Err(InvalidPattern::ReservedSymbol);
    }
    let marked = insert_concat(&pattern);
    match postfix_order(&marked) {
        Ok(tokens) => nfa_of_postfix(&tokens, options),
        Err(e) => Err(e),
    }
}

} // verus!
