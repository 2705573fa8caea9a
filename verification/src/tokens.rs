//! What the conversion to postfix order does to the tokens of a pattern: it
//! adds concatenation markers, drops the parentheses that group, and keeps
//! everything else, each token as often as the pattern holds it.

use vstd::multiset::Multiset;
use vstd::prelude::*;
use crate::re::{
    class_open, close_group, flush, in_class, is_operator, postfix, precedence, with_concat,
    with_concat_upto, yard_run, yard_step, yield_to, Yard, CHAR_SET_START, CONCAT, GROUP_END,
    GROUP_START,
};

verus! {

/// The character at index `i` is a parenthesis that groups: one outside a
/// character class.
pub open spec fn is_grouping(marked: Seq<char>, i: int) -> bool {
    (marked[i] == GROUP_START || marked[i] == GROUP_END) && !in_class(marked, i)
}

/// The first `n` characters of `marked` without the parentheses that group,
/// each as often as it occurs.
pub open spec fn kept_tokens(marked: Seq<char>, n: int) -> Multiset<char>
    decreases n,
{
    if n <= 0 {
        Multiset::empty()
    } else if is_grouping(marked, n - 1) {
        kept_tokens(marked, n - 1)
    } else {
        kept_tokens(marked, n - 1).insert(marked[n - 1])
    }
}

/// The operators that wait on the stack: all that it holds but the opening
/// parentheses.
pub open spec fn waiting_operators(operators: Seq<char>) -> Multiset<char>
    decreases operators.len(),
{
    if operators.len() == 0 {
        Multiset::empty()
    } else if operators.last() == GROUP_START {
        waiting_operators(operators.drop_last())
    } else {
        waiting_operators(operators.drop_last()).insert(operators.last())
    }
}

/// The tokens that a state of the conversion holds, emitted or waiting.
pub open spec fn yard_tokens(y: Yard) -> Multiset<char> {
    y.output.to_multiset().add(waiting_operators(y.operators))
}

/// `s` without its concatenation markers.
pub open spec fn unmarked(s: Seq<char>) -> Seq<char>
    decreases s.len(),
{
    if s.len() == 0 {
        seq![]
    } else if s.last() == CONCAT {
        unmarked(s.drop_last())
    } else {
        unmarked(s.drop_last()).push(s.last())
    }
}

/// Moving the top of the stack to the output keeps the tokens.
proof fn lemma_move_top(y: Yard)
    requires
        y.operators.len() > 0,
        y.operators.last() != GROUP_START,
    ensures
        yard_tokens(
            Yard {
                output: y.output.push(y.operators.last()),
                operators: y.operators.drop_last(),
                in_class: y.in_class,
            },
        ) == yard_tokens(y),
{
    broadcast use vstd::seq_lib::to_multiset_build, vstd::multiset::group_multiset_axioms;

    let top = y.operators.last();
    let rest = waiting_operators(y.operators.drop_last());
    assert(y.output.push(top).to_multiset().add(rest) =~= y.output.to_multiset().add(
        rest.insert(top),
    ));
}

/// Yielding to an operator keeps the tokens.
proof fn lemma_yield_keeps(y: Yard, c: char)
    requires
        is_operator(c),
    ensures
        yard_tokens(yield_to(y, c)) == yard_tokens(y),
        yield_to(y, c).in_class == y.in_class,
    decreases y.operators.len(),
{
    if y.operators.len() > 0 && precedence(y.operators.last()) >= precedence(c) {
        lemma_move_top(y);
        lemma_yield_keeps(
            Yard {
                output: y.output.push(y.operators.last()),
                operators: y.operators.drop_last(),
                in_class: y.in_class,
            },
            c,
        );
    }
}

/// Closing a group keeps the tokens.
proof fn lemma_close_keeps(y: Yard)
    ensures
        match close_group(y) {
            Some(z) => yard_tokens(z) == yard_tokens(y) && z.in_class == y.in_class,
            None => true,
        },
    decreases y.operators.len(),
{
    if y.operators.len() > 0 && y.operators.last() != GROUP_START {
        lemma_move_top(y);
        lemma_close_keeps(
            Yard {
                output: y.output.push(y.operators.last()),
                operators: y.operators.drop_last(),
                in_class: y.in_class,
            },
        );
    }
}

/// Emitting what waits keeps the tokens.
proof fn lemma_flush_keeps(y: Yard)
    ensures
        match flush(y) {
            Ok(out) => out.to_multiset() == yard_tokens(y),
            Err(_) => true,
        },
    decreases y.operators.len(),
{
    broadcast use vstd::multiset::group_multiset_axioms;

    if y.operators.len() == 0 {
        assert(y.output.to_multiset().add(Multiset::empty()) =~= y.output.to_multiset());
    } else if y.operators.last() != GROUP_START {
        lemma_move_top(y);
        lemma_flush_keeps(
            Yard {
                output: y.output.push(y.operators.last()),
                operators: y.operators.drop_last(),
                in_class: y.in_class,
            },
        );
    }
}

/// After `n` characters the conversion holds the tokens read so far, but for
/// the parentheses that group, and knows whether a class is open.
proof fn lemma_run_tokens(marked: Seq<char>, n: int)
    requires
        0 <= n <= marked.len(),
    ensures
        match yard_run(marked, n) {
            Ok(y) => yard_tokens(y) == kept_tokens(marked, n) && y.in_class == class_open(
                marked,
                n - 1,
            ),
            Err(_) => true,
        },
    decreases n,
{
    broadcast use vstd::seq_lib::to_multiset_build, vstd::multiset::group_multiset_axioms;

    if n <= 0 {
        broadcast use vstd::seq_lib::to_multiset_len, vstd::multiset::lemma_multiset_empty_len;

        let y = yard_run(marked, n)->Ok_0;
        assert(y.output.to_multiset().len() == 0);
        assert(y.output.to_multiset() =~= Multiset::empty());
        assert(yard_tokens(y) =~= Multiset::empty());
    } else {
        lemma_run_tokens(marked, n - 1);
        match yard_run(marked, n - 1) {
            Err(_) => {},
            Ok(y) => {
                let c = marked[n - 1];
                let w = waiting_operators(y.operators);
                match yard_step(y, c) {
                    Err(_) => {},
                    Ok(z) => {
                        if c == crate::re::CHAR_SET_END || y.in_class {
                            assert(z.output.to_multiset().add(w) =~= y.output.to_multiset().add(
                                w,
                            ).insert(c));
                        } else if is_operator(c) {
                            lemma_yield_keeps(y, c);
                            let x = yield_to(y, c);
                            assert(z.operators.drop_last() =~= x.operators);
                            assert(x.output.to_multiset().add(
                                waiting_operators(x.operators).insert(c),
                            ) =~= yard_tokens(x).insert(c));
                        } else if c == CHAR_SET_START {
                            assert(z.output.to_multiset().add(w) =~= y.output.to_multiset().add(
                                w,
                            ).insert(c));
                        } else if c == GROUP_START {
                            assert(z.operators.drop_last() =~= y.operators);
                        } else if c == GROUP_END {
                            lemma_close_keeps(y);
                        } else {
                            assert(z.output.to_multiset().add(w) =~= y.output.to_multiset().add(
                                w,
                            ).insert(c));
                        }
                    },
                }
            },
        }
    }
}

/// Every character among the first ones of a marked pattern is the marker
/// or a character of the pattern.
proof fn lemma_marked_chars(pattern: Seq<char>, n: int, c: char)
    requires
        0 <= n <= pattern.len(),
        with_concat_upto(pattern, n).contains(c),
    ensures
        c == CONCAT || pattern.contains(c),
    decreases n,
{
    if n > 0 {
        let front = with_concat_upto(pattern, n - 1);
        let now = with_concat_upto(pattern, n);
        let w = choose|w: int| 0 <= w < now.len() && now[w] == c;
        if w < front.len() {
            assert(front[w] == c);
            lemma_marked_chars(pattern, n - 1, c);
        }
    }
}

/// In a pattern without an opening bracket no class is ever open.
proof fn lemma_never_open(marked: Seq<char>, i: int)
    requires
        !marked.contains(CHAR_SET_START),
    ensures
        !class_open(marked, i),
    decreases i + 1,
{
    if 0 <= i < marked.len() {
        assert(marked.contains(marked[i]));
        lemma_never_open(marked, i - 1);
    }
}

/// Without an opening bracket no parenthesis is kept.
proof fn lemma_kept_without_groups(marked: Seq<char>, n: int)
    requires
        0 <= n <= marked.len(),
        !marked.contains(CHAR_SET_START),
    ensures
        kept_tokens(marked, n).count(GROUP_START) == 0,
        kept_tokens(marked, n).count(GROUP_END) == 0,
    decreases n,
{
    broadcast use vstd::multiset::group_multiset_axioms;

    if n > 0 {
        lemma_kept_without_groups(marked, n - 1);
        lemma_never_open(marked, n - 1);
    }
}

/// Removing the markers from the first characters of a marked pattern gives
/// the first characters of the pattern back.
proof fn lemma_unmarked_upto(pattern: Seq<char>, n: int)
    requires
        0 <= n <= pattern.len(),
        !pattern.contains(CONCAT),
    ensures
        unmarked(with_concat_upto(pattern, n)) == pattern.take(n),
    decreases n,
{
    if n <= 0 {
        assert(pattern.take(n) =~= Seq::<char>::empty());
    } else {
        lemma_unmarked_upto(pattern, n - 1);
        let front = with_concat_upto(pattern, n - 1);
        let c = pattern[n - 1];
        assert(pattern.contains(c));
        assert(pattern.take(n) =~= pattern.take(n - 1).push(c));
        assert(front.push(c).drop_last() =~= front);
        assert(front.push(CONCAT).drop_last() =~= front);
        assert(front.push(CONCAT).push(c).drop_last() =~= front.push(CONCAT));
        assert(unmarked(front.push(c)) == unmarked(front).push(c));
        assert(unmarked(front.push(CONCAT)) == unmarked(front));
        assert(unmarked(front.push(CONCAT).push(c)) == unmarked(front.push(CONCAT)).push(c));
    }
}

/// Making concatenations explicit adds markers to a pattern and nothing
/// else: without them the pattern is as it was.
pub proof fn lemma_markers_only(pattern: Seq<char>)
    requires
        !pattern.contains(CONCAT),
    ensures
        unmarked(with_concat(pattern)) == pattern,
{
    lemma_unmarked_upto(pattern, pattern.len() as int);
    assert(pattern.take(pattern.len() as int) =~= pattern);
}

/// The postfix form of a pattern holds the tokens of the pattern with its
/// concatenations made explicit, each as often as it occurs there, but for
/// the parentheses that group. Where the pattern has no character class,
/// the postfix form holds no parenthesis at all.
pub proof fn lemma_postfix_tokens(pattern: Seq<char>)
    requires
        postfix(pattern) is Ok,
    ensures
        postfix(pattern)->Ok_0.to_multiset() == kept_tokens(
            with_concat(pattern),
            with_concat(pattern).len() as int,
        ),
        !pattern.contains(CHAR_SET_START) ==> !postfix(pattern)->Ok_0.contains(GROUP_START)
            && !postfix(pattern)->Ok_0.contains(GROUP_END),
{
    broadcast use vstd::seq_lib::group_to_multiset_ensures;

    let marked = with_concat(pattern);
    let n = marked.len() as int;
    let out = postfix(pattern)->Ok_0;
    lemma_run_tokens(marked, n);
    let y = yard_run(marked, n)->Ok_0;
    lemma_flush_keeps(y);
    if !pattern.contains(CHAR_SET_START) {
        if marked.contains(CHAR_SET_START) {
            lemma_marked_chars(pattern, pattern.len() as int, CHAR_SET_START);
        }
        lemma_kept_without_groups(marked, n);
    }
}

/// The postfix form is a function of the pattern: equal patterns have equal
/// postfix forms, and are refused for the same reason.
pub proof fn lemma_postfix_deterministic(first: Seq<char>, second: Seq<char>)
    requires
        first == second,
    ensures
        postfix(first) == postfix(second),
{
}

} // verus!
