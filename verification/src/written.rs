//! Trees written out as patterns, with parentheses around every node that
//! has parts, and the proof that the compiler reads such a pattern as the
//! tree it writes.

use vstd::prelude::*;
use crate::expr::{lemma_window, Expr};
use crate::tree::{lemma_compiled_as_composed, lemma_postfix_reads, tree_of};
use crate::marking::{lead, lemma_pieces, lemma_pieces_join, lemma_pieces_one, piece, pieces};
use crate::nfa::Automaton;
use crate::re::{
    automaton_of, can_follow, can_precede, close_group, flush, class_open, needs_concat, postfix,
    with_concat, with_concat_upto, yard_run, yard_start, yard_step, yield_to, InvalidPattern, Yard,
    CHAR_SET_END, CHAR_SET_START, CONCAT, GROUP_END, GROUP_START, KLEEN, NEGATION, SLASH, UNION,
};

verus! {

impl Expr {
    /// No class of the tree holds the concatenation marker.
    pub open spec fn unmarked(self) -> bool
        decreases self,
    {
        match self {
            Expr::Class { negated, members } => !members.contains(CONCAT),
            Expr::Concat(a, b) => a.unmarked() && b.unmarked(),
            Expr::Union(a, b) => a.unmarked() && b.unmarked(),
            Expr::Star(a) => a.unmarked(),
            _ => true,
        }
    }

    /// What a leaf is written as: a character as itself, a class between
    /// brackets, and the two escapes after a backslash.
    pub open spec fn leaf(self) -> Seq<char> {
        match self {
            Expr::Symbol(c) => seq![c],
            Expr::Class { negated, members } => if negated {
                seq![CHAR_SET_START, NEGATION] + members + seq![CHAR_SET_END]
            } else {
                seq![CHAR_SET_START] + members + seq![CHAR_SET_END]
            },
            Expr::Digit => seq![SLASH, 'd'],
            Expr::Word => seq![SLASH, 'w'],
            _ => seq![],
        }
    }

    /// The tree as a pattern: a leaf as it is, and every node that has
    /// parts in parentheses, the parts of a concatenation side by side.
    pub open spec fn written(self) -> Seq<char>
        decreases self,
    {
        match self {
            Expr::Concat(a, b) => node(a.written(), b.written()),
            Expr::Union(a, b) => node(a.written(), seq![UNION] + b.written()),
            Expr::Star(a) => node(a.written(), seq![KLEEN]),
            _ => self.leaf(),
        }
    }

    /// The tree as a pattern whose concatenations are explicit.
    pub open spec fn marked(self) -> Seq<char>
        decreases self,
    {
        match self {
            Expr::Concat(a, b) => node(a.marked(), seq![CONCAT] + b.marked()),
            Expr::Union(a, b) => node(a.marked(), seq![UNION] + b.marked()),
            Expr::Star(a) => node(a.marked(), seq![KLEEN]),
            _ => self.leaf(),
        }
    }

    /// Whether the tree is a leaf.
    pub open spec fn is_leaf(self) -> bool {
        self is Symbol || self is Class || self is Digit || self is Word
    }
}

/// A node in parentheses: `first`, then `rest`.
pub open spec fn node(first: Seq<char>, rest: Seq<char>) -> Seq<char> {
    seq![GROUP_START] + first + rest + seq![GROUP_END]
}

/// Where a window of `text` holds a node, its parts stand where the node
/// puts them.
proof fn lemma_node(text: Seq<char>, i: int, first: Seq<char>, rest: Seq<char>)
    requires
        0 <= i,
        i + node(first, rest).len() <= text.len(),
        text.subrange(i, i + node(first, rest).len()) == node(first, rest),
    ensures
        node(first, rest).len() == first.len() + rest.len() + 2,
        text[i] == GROUP_START,
        text[i + first.len() + rest.len() + 1] == GROUP_END,
        text.subrange(i + 1, i + 1 + first.len()) == first,
        text.subrange(i + 1 + first.len(), i + 1 + first.len() + rest.len()) == rest,
{
    let whole = node(first, rest);
    let n = whole.len() as int;
    assert(whole =~= (seq![GROUP_START] + (first + rest)) + seq![GROUP_END]);
    lemma_window(text, i, seq![GROUP_START] + (first + rest), seq![GROUP_END]);
    lemma_window(text, i, seq![GROUP_START], first + rest);
    lemma_window(text, i + 1, first, rest);
    assert(text[i] == text.subrange(i, i + 1)[0]);
    assert(text[i + n - 1] == text.subrange(i + n - 1, i + n)[0]);
}

/// A written tree begins with a character before which a marker may stand
/// and ends with one after which a marker may stand: it is an operand.
pub(crate) proof fn lemma_written_shape(e: Expr)
    requires
        e.writable(),
    ensures
        e.written().len() >= 1,
        can_follow(e.written()[0]),
        can_precede(e.written().last()),
    decreases e,
{
    match e {
        Expr::Concat(a, b) => {
            lemma_written_shape(*a);
            lemma_written_shape(*b);
        },
        Expr::Union(a, b) => {
            lemma_written_shape(*a);
            lemma_written_shape(*b);
        },
        Expr::Star(a) => {
            lemma_written_shape(*a);
        },
        _ => {},
    }
}

/// A character that is no bracket leaves a class neither open nor closed.
proof fn lemma_class_keeps(pattern: Seq<char>, k: int)
    requires
        0 <= k < pattern.len(),
        pattern[k] != CHAR_SET_START,
        pattern[k] != CHAR_SET_END,
    ensures
        class_open(pattern, k) == class_open(pattern, k - 1),
{
}

/// Inside a class nothing is inserted, and the class stays open up to its
/// closing bracket.
proof fn lemma_class_interior(pattern: Seq<char>, from: int, to: int)
    requires
        0 <= from <= to <= pattern.len(),
        class_open(pattern, from - 1),
        forall|j: int| from <= j < to ==> pattern[j] != CHAR_SET_END,
    ensures
        pieces(pattern, from, to) == pattern.subrange(from, to),
        class_open(pattern, to - 1),
    decreases to - from,
{
    if to > from {
        lemma_class_interior(pattern, from, to - 1);
        assert(class_open(pattern, to - 1));
        assert(pattern.subrange(from, to) =~= pattern.subrange(from, to - 1) + seq![
            pattern[to - 1],
        ]);
    } else {
        assert(pattern.subrange(from, to) =~= Seq::<char>::empty());
    }
}

/// A written leaf becomes itself, after a marker where one belongs:
/// nothing is inserted inside it.
proof fn lemma_marking_leaf(e: Expr, pattern: Seq<char>, s: int)
    requires
        e.is_leaf(),
        e.writable(),
        0 <= s,
        s + e.leaf().len() <= pattern.len(),
        pattern.subrange(s, s + e.leaf().len()) == e.leaf(),
        !class_open(pattern, s - 1),
    ensures
        pieces(pattern, s, s + e.leaf().len()) == lead(pattern, s) + e.leaf(),
        !class_open(pattern, s + e.leaf().len() - 1),
{
    let body = e.leaf();
    let n = body.len() as int;
    let part = pattern.subrange(s, s + n);
    match e {
        Expr::Symbol(c) => {
            assert(pattern[s] == part[0]);
            lemma_class_keeps(pattern, s);
            lemma_pieces_one(pattern, s);
            assert(piece(pattern, s) =~= lead(pattern, s) + body);
        },
        Expr::Class { negated, members } => {
            let end = s + n - 1;
            assert(pattern[s] == part[0]);
            assert(pattern[end] == part[n - 1]);
            assert(class_open(pattern, s));
            lemma_pieces_one(pattern, s);
            assert forall|j: int| s + 1 <= j < end implies pattern[j] != CHAR_SET_END by {
                assert(pattern[j] == part[j - s]);
                if negated {
                    if j > s + 1 {
                        assert(part[j - s] == members[j - s - 2]);
                        assert(members.contains(members[j - s - 2]));
                    }
                } else {
                    assert(part[j - s] == members[j - s - 1]);
                    assert(members.contains(members[j - s - 1]));
                }
            }
            lemma_class_interior(pattern, s + 1, end);
            lemma_pieces_one(pattern, end);
            assert(!class_open(pattern, end));
            lemma_pieces_join(pattern, s, s + 1, end);
            lemma_pieces_join(pattern, s, end, end + 1);
            assert(piece(pattern, s) =~= lead(pattern, s) + seq![CHAR_SET_START]);
            assert(piece(pattern, end) =~= seq![CHAR_SET_END]);
            assert(pieces(pattern, s, end + 1) =~= lead(pattern, s) + part);
        },
        _ => {
            assert(pattern[s] == part[0]);
            assert(pattern[s + 1] == part[1]);
            lemma_class_keeps(pattern, s);
            lemma_class_keeps(pattern, s + 1);
            lemma_pieces_one(pattern, s);
            lemma_pieces_one(pattern, s + 1);
            lemma_pieces_join(pattern, s, s + 1, s + 2);
            assert(piece(pattern, s) =~= lead(pattern, s) + seq![SLASH]);
            assert(piece(pattern, s + 1) =~= seq![pattern[s + 1]]);
            assert(pieces(pattern, s, s + 2) =~= lead(pattern, s) + body);
        },
    }
}

/// The parenthesis that opens a written node becomes itself, after a marker
/// where one belongs.
proof fn lemma_marking_open(pattern: Seq<char>, i: int)
    requires
        0 <= i < pattern.len(),
        pattern[i] == GROUP_START,
        !class_open(pattern, i - 1),
    ensures
        pieces(pattern, i, i + 1) == lead(pattern, i) + seq![GROUP_START],
        !class_open(pattern, i),
{
    lemma_class_keeps(pattern, i);
    lemma_pieces_one(pattern, i);
    assert(piece(pattern, i) =~= lead(pattern, i) + seq![GROUP_START]);
}

/// A character before which no marker may stand becomes itself.
proof fn lemma_marking_bare(pattern: Seq<char>, k: int)
    requires
        0 <= k < pattern.len(),
        !can_follow(pattern[k]) || (k > 0 && !can_precede(pattern[k - 1])),
        pattern[k] != CHAR_SET_START,
        pattern[k] != CHAR_SET_END,
    ensures
        pieces(pattern, k, k + 1) == seq![pattern[k]],
        class_open(pattern, k) == class_open(pattern, k - 1),
{
    lemma_class_keeps(pattern, k);
    lemma_pieces_one(pattern, k);
}

/// What a node in parentheses becomes, given what its parts become: the
/// operand `first` from index `i + 1`, then the stretch `rest`, then the
/// parenthesis that closes the node.
proof fn lemma_marking_node(
    pattern: Seq<char>,
    i: int,
    k: int,
    end: int,
    first: Seq<char>,
    rest: Seq<char>,
)
    requires
        0 <= i,
        i + 1 <= k <= end < pattern.len(),
        pattern[i] == GROUP_START,
        pattern[end] == GROUP_END,
        !class_open(pattern, i - 1),
        pieces(pattern, i + 1, k) == first,
        pieces(pattern, k, end) == rest,
        !class_open(pattern, end - 1),
    ensures
        pieces(pattern, i, end + 1) == lead(pattern, i) + node(first, rest),
        !class_open(pattern, end),
{
    lemma_marking_open(pattern, i);
    lemma_marking_bare(pattern, end);
    lemma_pieces_join(pattern, i, i + 1, k);
    lemma_pieces_join(pattern, i, k, end);
    lemma_pieces_join(pattern, i, end, end + 1);
    assert(pieces(pattern, i, end + 1) =~= lead(pattern, i) + node(first, rest));
}

/// An operand that follows an opening parenthesis or an alternation sign
/// becomes itself.
proof fn lemma_marking_first(pattern: Seq<char>, k: int, end: int, operand: Seq<char>)
    requires
        1 <= k < end <= pattern.len(),
        pattern[k - 1] == GROUP_START || pattern[k - 1] == UNION,
        pieces(pattern, k, end) == lead(pattern, k) + operand,
    ensures
        pieces(pattern, k, end) == operand,
{
    assert(lead(pattern, k) =~= Seq::<char>::empty());
    assert(lead(pattern, k) + operand =~= operand);
}

/// An operand that follows another operand becomes itself after a marker.
proof fn lemma_marking_second(pattern: Seq<char>, k: int, end: int, operand: Seq<char>)
    requires
        1 <= k < end <= pattern.len(),
        can_precede(pattern[k - 1]),
        can_follow(pattern[k]),
        !class_open(pattern, k - 1),
        pieces(pattern, k, end) == lead(pattern, k) + operand,
    ensures
        pieces(pattern, k, end) == seq![CONCAT] + operand,
{
    assert(needs_concat(pattern, k));
}

/// An operator and the operand after it become themselves.
proof fn lemma_marking_after(pattern: Seq<char>, at: int, end: int, operand: Seq<char>)
    requires
        1 <= at,
        at + 1 <= end <= pattern.len(),
        pattern[at] == UNION || pattern[at] == KLEEN,
        !class_open(pattern, at - 1),
        pieces(pattern, at + 1, end) == operand,
    ensures
        pieces(pattern, at, end) == seq![pattern[at]] + operand,
        !class_open(pattern, at),
{
    lemma_marking_bare(pattern, at);
    lemma_pieces_join(pattern, at, at + 1, end);
}

/// Making the concatenations of a written tree explicit puts a marker
/// between the two parts of every concatenation and nowhere else.
proof fn lemma_marking(e: Expr, pattern: Seq<char>, i: int)
    requires
        e.writable(),
        0 <= i,
        i + e.written().len() <= pattern.len(),
        pattern.subrange(i, i + e.written().len()) == e.written(),
        !class_open(pattern, i - 1),
    ensures
        pieces(pattern, i, i + e.written().len()) == lead(pattern, i) + e.marked(),
        !class_open(pattern, i + e.written().len() - 1),
    decreases e,
{
    match e {
        Expr::Concat(a, b) => {
            let na = a.written().len() as int;
            let nb = b.written().len() as int;
            let k = i + 1 + na;
            lemma_node(pattern, i, a.written(), b.written());
            lemma_written_shape(*a);
            lemma_written_shape(*b);
            assert(pattern[k - 1] == pattern.subrange(i + 1, k)[na - 1]);
            assert(pattern[k] == pattern.subrange(k, k + nb)[0]);
            assert(pattern[k - 1] == a.written().last());
            assert(pattern[k] == b.written()[0]);
            lemma_marking_open(pattern, i);
            lemma_marking(*a, pattern, i + 1);
            lemma_marking_first(pattern, i + 1, k, a.marked());
            lemma_marking(*b, pattern, k);
            lemma_marking_second(pattern, k, k + nb, b.marked());
            lemma_marking_node(pattern, i, k, k + nb, a.marked(), seq![CONCAT] + b.marked());
        },
        Expr::Union(a, b) => {
            let na = a.written().len() as int;
            let nb = b.written().len() as int;
            let at = i + 1 + na;
            lemma_written_shape(*a);
            lemma_written_shape(*b);
            lemma_node(pattern, i, a.written(), seq![UNION] + b.written());
            lemma_window(pattern, at, seq![UNION], b.written());
            assert(pattern[at] == pattern.subrange(at, at + 1)[0]);
            lemma_marking_open(pattern, i);
            lemma_marking(*a, pattern, i + 1);
            lemma_marking_first(pattern, i + 1, at, a.marked());
            lemma_class_keeps(pattern, at);
            lemma_marking(*b, pattern, at + 1);
            lemma_marking_first(pattern, at + 1, at + 1 + nb, b.marked());
            lemma_marking_after(pattern, at, at + 1 + nb, b.marked());
            lemma_marking_node(pattern, i, at, at + 1 + nb, a.marked(), seq![UNION] + b.marked());
        },
        Expr::Star(a) => {
            let na = a.written().len() as int;
            let at = i + 1 + na;
            lemma_written_shape(*a);
            lemma_node(pattern, i, a.written(), seq![KLEEN]);
            assert(pattern[at] == pattern.subrange(at, at + 1)[0]);
            lemma_marking_open(pattern, i);
            lemma_marking(*a, pattern, i + 1);
            lemma_marking_first(pattern, i + 1, at, a.marked());
            assert(pieces(pattern, at + 1, at + 1) =~= Seq::<char>::empty());
            lemma_marking_after(pattern, at, at + 1, Seq::<char>::empty());
            assert(seq![KLEEN] + Seq::<char>::empty() =~= seq![KLEEN]);
            lemma_marking_node(pattern, i, at, at + 1, a.marked(), seq![KLEEN]);
        },
        _ => {
            lemma_marking_leaf(e, pattern, i);
        },
    }
}

/// Making the concatenations of a written tree explicit gives the tree as a
/// pattern whose concatenations are explicit.
pub proof fn lemma_written_marked(e: Expr)
    requires
        e.writable(),
    ensures
        with_concat(e.written()) == e.marked(),
{
    let w = e.written();
    assert(w.subrange(0, w.len() as int) =~= w);
    lemma_marking(e, w, 0);
    lemma_pieces(w, 0, w.len() as int);
    assert(with_concat_upto(w, 0) + (lead(w, 0) + e.marked()) =~= e.marked());
}

/// The state of the conversion with `more` emitted after what was emitted.
pub open spec fn emitted(y: Yard, more: Seq<char>) -> Yard {
    Yard { output: y.output + more, operators: y.operators, in_class: y.in_class }
}

/// The state of the conversion with `c` on top of its stack.
pub open spec fn stacked(y: Yard, c: char) -> Yard {
    Yard { output: y.output, operators: y.operators.push(c), in_class: y.in_class }
}

/// Reading one more character is one step.
proof fn lemma_yard_next(input: Seq<char>, k: int, y: Yard)
    requires
        0 <= k < input.len(),
        yard_run(input, k) == Ok::<Yard, InvalidPattern>(y),
    ensures
        yard_run(input, k + 1) == yard_step(y, input[k]),
{
}

/// While a class is open, what is read is emitted.
proof fn lemma_ordering_interior(input: Seq<char>, from: int, to: int, y: Yard)
    requires
        0 <= from <= to <= input.len(),
        yard_run(input, from) == Ok::<Yard, InvalidPattern>(y),
        y.in_class,
        forall|j: int| from <= j < to ==> input[j] != CHAR_SET_END,
    ensures
        yard_run(input, to) == Ok::<Yard, InvalidPattern>(emitted(y, input.subrange(from, to))),
    decreases to - from,
{
    if to > from {
        lemma_ordering_interior(input, from, to - 1, y);
        let before = emitted(y, input.subrange(from, to - 1));
        lemma_yard_next(input, to - 1, before);
        assert(before.output.push(input[to - 1]) =~= y.output + input.subrange(from, to));
    } else {
        assert(y.output + input.subrange(from, to) =~= y.output);
    }
}

/// What stands between the parentheses of a leaf is emitted as it is.
proof fn lemma_ordering_leaf(e: Expr, input: Seq<char>, s: int, y: Yard)
    requires
        e.is_leaf(),
        e.writable(),
        0 <= s,
        s + e.leaf().len() <= input.len(),
        input.subrange(s, s + e.leaf().len()) == e.leaf(),
        yard_run(input, s) == Ok::<Yard, InvalidPattern>(y),
        !y.in_class,
    ensures
        yard_run(input, s + e.leaf().len()) == Ok::<Yard, InvalidPattern>(emitted(y, e.leaf())),
        e.leaf() == e.postfix(),
{
    let body = e.leaf();
    let n = body.len() as int;
    let part = input.subrange(s, s + n);
    match e {
        Expr::Symbol(c) => {
            assert(input[s] == part[0]);
            lemma_yard_next(input, s, y);
            assert(y.output.push(c) =~= y.output + body);
        },
        Expr::Class { negated, members } => {
            let end = s + n - 1;
            assert(input[s] == part[0]);
            assert(input[end] == part[n - 1]);
            lemma_yard_next(input, s, y);
            let opened = Yard {
                output: y.output.push(CHAR_SET_START),
                operators: y.operators,
                in_class: true,
            };
            assert forall|j: int| s + 1 <= j < end implies input[j] != CHAR_SET_END by {
                assert(input[j] == part[j - s]);
                if negated {
                    if j > s + 1 {
                        assert(part[j - s] == members[j - s - 2]);
                        assert(members.contains(members[j - s - 2]));
                    }
                } else {
                    assert(part[j - s] == members[j - s - 1]);
                    assert(members.contains(members[j - s - 1]));
                }
            }
            lemma_ordering_interior(input, s + 1, end, opened);
            let filled = emitted(opened, input.subrange(s + 1, end));
            lemma_yard_next(input, end, filled);
            assert(filled.output.push(CHAR_SET_END) =~= y.output + part);
        },
        _ => {
            assert(input[s] == part[0]);
            assert(input[s + 1] == part[1]);
            lemma_yard_next(input, s, y);
            let first = Yard { output: y.output.push(SLASH), operators: y.operators, in_class: false };
            lemma_yard_next(input, s + 1, first);
            assert(first.output.push(input[s + 1]) =~= y.output + body);
        },
    }
}

/// The parenthesis that closes a node takes the operator of the node, if it
/// has one, from the stack and emits it.
proof fn lemma_ordering_close(input: Seq<char>, k: int, y: Yard, operator: Seq<char>)
    requires
        0 <= k < input.len(),
        input[k] == GROUP_END,
        !y.in_class,
        operator.len() <= 1,
        operator.len() == 1 ==> operator[0] != GROUP_START,
        yard_run(input, k) == Ok::<Yard, InvalidPattern>(
            Yard {
                output: y.output,
                operators: y.operators.push(GROUP_START) + operator,
                in_class: false,
            },
        ),
    ensures
        yard_run(input, k + 1) == Ok::<Yard, InvalidPattern>(emitted(y, operator)),
{
    let before = Yard {
        output: y.output,
        operators: y.operators.push(GROUP_START) + operator,
        in_class: false,
    };
    lemma_yard_next(input, k, before);
    let opened = y.operators.push(GROUP_START);
    if operator.len() == 1 {
        assert(before.operators.last() == operator[0]);
        assert(before.operators.drop_last() =~= opened);
        let moved = Yard {
            output: y.output.push(operator[0]),
            operators: opened,
            in_class: false,
        };
        assert(close_group(before) == close_group(moved));
        assert(opened.drop_last() =~= y.operators);
        assert(y.output.push(operator[0]) =~= y.output + operator);
    } else {
        assert(before.operators =~= opened);
        assert(opened.drop_last() =~= y.operators);
        assert(y.output + operator =~= y.output);
    }
}

/// An operator that is read right after the parenthesis of its node, or
/// after the first operand, waits on top of that parenthesis.
proof fn lemma_ordering_operator(input: Seq<char>, k: int, y: Yard)
    requires
        0 <= k < input.len(),
        input[k] == CONCAT || input[k] == UNION || input[k] == KLEEN,
        !y.in_class,
        yard_run(input, k) == Ok::<Yard, InvalidPattern>(stacked(y, GROUP_START)),
    ensures
        yard_run(input, k + 1) == Ok::<Yard, InvalidPattern>(
            Yard {
                output: y.output,
                operators: y.operators.push(GROUP_START) + seq![input[k]],
                in_class: false,
            },
        ),
{
    let before = stacked(y, GROUP_START);
    lemma_yard_next(input, k, before);
    assert(before.operators.last() == GROUP_START);
    assert(yield_to(before, input[k]) == before);
    assert(before.operators.push(input[k]) =~= y.operators.push(GROUP_START) + seq![input[k]]);
}

/// Reading a tree as a pattern whose concatenations are explicit emits the
/// tree in postfix order and leaves the stack as it was.
proof fn lemma_ordering(e: Expr, input: Seq<char>, i: int, y: Yard)
    requires
        e.writable(),
        0 <= i,
        i + e.marked().len() <= input.len(),
        input.subrange(i, i + e.marked().len()) == e.marked(),
        yard_run(input, i) == Ok::<Yard, InvalidPattern>(y),
        !y.in_class,
    ensures
        yard_run(input, i + e.marked().len()) == Ok::<Yard, InvalidPattern>(
            emitted(y, e.postfix()),
        ),
    decreases e,
{
    let opened = stacked(y, GROUP_START);
    match e {
        Expr::Concat(a, b) => {
            let na = a.marked().len() as int;
            let nb = b.marked().len() as int;
            let at = i + 1 + na;
            lemma_node(input, i, a.marked(), seq![CONCAT] + b.marked());
            lemma_window(input, at, seq![CONCAT], b.marked());
            assert(input[at] == input.subrange(at, at + 1)[0]);
            lemma_yard_next(input, i, y);
            lemma_ordering(*a, input, i + 1, opened);
            let first = emitted(y, a.postfix());
            assert(emitted(opened, a.postfix()) == stacked(first, GROUP_START));
            lemma_ordering_operator(input, at, first);
            let waiting = Yard {
                output: first.output,
                operators: y.operators.push(GROUP_START) + seq![CONCAT],
                in_class: false,
            };
            lemma_ordering(*b, input, at + 1, waiting);
            let second = emitted(first, b.postfix());
            assert(emitted(waiting, b.postfix()) == (Yard {
                output: second.output,
                operators: y.operators.push(GROUP_START) + seq![CONCAT],
                in_class: false,
            }));
            lemma_ordering_close(input, at + 1 + nb, second, seq![CONCAT]);
            assert(second.output + seq![CONCAT] =~= y.output + e.postfix());
        },
        Expr::Union(a, b) => {
            let na = a.marked().len() as int;
            let nb = b.marked().len() as int;
            let at = i + 1 + na;
            lemma_node(input, i, a.marked(), seq![UNION] + b.marked());
            lemma_window(input, at, seq![UNION], b.marked());
            assert(input[at] == input.subrange(at, at + 1)[0]);
            lemma_yard_next(input, i, y);
            lemma_ordering(*a, input, i + 1, opened);
            let first = emitted(y, a.postfix());
            assert(emitted(opened, a.postfix()) == stacked(first, GROUP_START));
            lemma_ordering_operator(input, at, first);
            let waiting = Yard {
                output: first.output,
                operators: y.operators.push(GROUP_START) + seq![UNION],
                in_class: false,
            };
            lemma_ordering(*b, input, at + 1, waiting);
            let second = emitted(first, b.postfix());
            assert(emitted(waiting, b.postfix()) == (Yard {
                output: second.output,
                operators: y.operators.push(GROUP_START) + seq![UNION],
                in_class: false,
            }));
            lemma_ordering_close(input, at + 1 + nb, second, seq![UNION]);
            assert(second.output + seq![UNION] =~= y.output + e.postfix());
        },
        Expr::Star(a) => {
            let na = a.marked().len() as int;
            let at = i + 1 + na;
            lemma_node(input, i, a.marked(), seq![KLEEN]);
            assert(input[at] == input.subrange(at, at + 1)[0]);
            lemma_yard_next(input, i, y);
            lemma_ordering(*a, input, i + 1, opened);
            let first = emitted(y, a.postfix());
            assert(emitted(opened, a.postfix()) == stacked(first, GROUP_START));
            lemma_ordering_operator(input, at, first);
            lemma_ordering_close(input, at + 1, first, seq![KLEEN]);
            assert(first.output + seq![KLEEN] =~= y.output + e.postfix());
        },
        _ => {
            lemma_ordering_leaf(e, input, i, y);
        },
    }
}

/// A written tree holds the concatenation marker nowhere.
proof fn lemma_written_unmarked(e: Expr, c: char)
    requires
        e.writable(),
        e.unmarked(),
        e.written().contains(c),
    ensures
        c != CONCAT,
    decreases e,
{
    let w = e.written();
    let k = choose|k: int| 0 <= k < w.len() && w[k] == c;
    match e {
        Expr::Concat(a, b) => {
            let na = a.written().len() as int;
            let nb = b.written().len() as int;
            if 1 <= k < 1 + na {
                assert(a.written()[k - 1] == c);
                lemma_written_unmarked(*a, c);
            } else if 1 + na <= k < 1 + na + nb {
                assert(b.written()[k - 1 - na] == c);
                lemma_written_unmarked(*b, c);
            }
        },
        Expr::Union(a, b) => {
            let na = a.written().len() as int;
            let nb = b.written().len() as int;
            if 1 <= k < 1 + na {
                assert(a.written()[k - 1] == c);
                lemma_written_unmarked(*a, c);
            } else if 2 + na <= k < 2 + na + nb {
                assert(b.written()[k - 2 - na] == c);
                lemma_written_unmarked(*b, c);
            }
        },
        Expr::Star(a) => {
            let na = a.written().len() as int;
            if 1 <= k < 1 + na {
                assert(a.written()[k - 1] == c);
                lemma_written_unmarked(*a, c);
            }
        },
        Expr::Class { negated, members } => {
            if negated {
                if 2 <= k < 2 + members.len() {
                    assert(members[k - 2] == c);
                    assert(members.contains(members[k - 2]));
                }
            } else {
                if 1 <= k < 1 + members.len() {
                    assert(members[k - 1] == c);
                    assert(members.contains(members[k - 1]));
                }
            }
        },
        _ => {},
    }
}

/// A tree that is written as a pattern is read as itself, and compiling
/// the pattern gives the automaton that the combinators make of the tree:
/// for every text, the compiled automaton accepts it exactly when the
/// automaton put together by hand does, since the two are one automaton.
pub proof fn lemma_compile_written(e: Expr, ignore_case: bool)
    requires
        e.writable(),
        e.unmarked(),
    ensures
        postfix(e.written()) == Ok::<Seq<char>, InvalidPattern>(e.postfix()),
        tree_of(e.written()) == Ok::<Expr, InvalidPattern>(e),
        automaton_of(e.written(), ignore_case) == Ok::<Automaton, InvalidPattern>(
            e.compose(ignore_case),
        ),
{
    let w = e.written();
    if w.contains(CONCAT) {
        lemma_written_unmarked(e, CONCAT);
    }
    lemma_written_marked(e);
    let m = e.marked();
    assert(m.subrange(0, m.len() as int) =~= m);
    lemma_ordering(e, m, 0, yard_start());
    let done = emitted(yard_start(), e.postfix());
    assert(done.output =~= e.postfix());
    assert(flush(done) == Ok::<Seq<char>, InvalidPattern>(e.postfix()));
    lemma_postfix_reads(e);
    lemma_compiled_as_composed(e, ignore_case);
}

} // verus!
