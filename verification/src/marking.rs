//! What making concatenations explicit does, character by character, and
//! when doing it again changes nothing.

use vstd::prelude::*;
use crate::re::{
    can_precede, class_open, in_class, needs_concat, with_concat, with_concat_upto, CHAR_SET_START,
    CONCAT,
};

verus! {

/// What the character at index `k` becomes when concatenations are made
/// explicit: itself, after a marker where one belongs.
pub open spec fn piece(pattern: Seq<char>, k: int) -> Seq<char> {
    if needs_concat(pattern, k) {
        seq![CONCAT, pattern[k]]
    } else {
        seq![pattern[k]]
    }
}

/// What the characters from index `i` up to index `j` become.
pub open spec fn pieces(pattern: Seq<char>, i: int, j: int) -> Seq<char>
    decreases j - i,
{
    if j <= i {
        seq![]
    } else {
        pieces(pattern, i, j - 1) + piece(pattern, j - 1)
    }
}

/// The marker that goes before the character at index `i`, if one does.
pub open spec fn lead(pattern: Seq<char>, i: int) -> Seq<char> {
    if needs_concat(pattern, i) {
        seq![CONCAT]
    } else {
        seq![]
    }
}

/// The marked pattern up to index `j` is the marked pattern up to index `i`
/// followed by what the characters between them become.
pub(crate) proof fn lemma_pieces(pattern: Seq<char>, i: int, j: int)
    requires
        0 <= i <= j <= pattern.len(),
    ensures
        with_concat_upto(pattern, j) == with_concat_upto(pattern, i) + pieces(pattern, i, j),
    decreases j - i,
{
    if j > i {
        lemma_pieces(pattern, i, j - 1);
        let front = with_concat_upto(pattern, i);
        let mid = pieces(pattern, i, j - 1);
        if needs_concat(pattern, j - 1) {
            assert((front + mid).push(CONCAT).push(pattern[j - 1]) =~= front + (mid + piece(
                pattern,
                j - 1,
            )));
        } else {
            assert((front + mid).push(pattern[j - 1]) =~= front + (mid + piece(pattern, j - 1)));
        }
    } else {
        assert(with_concat_upto(pattern, i) + pieces(pattern, i, j) =~= with_concat_upto(
            pattern,
            i,
        ));
    }
}

/// What stretches that follow one another become follows one another.
pub(crate) proof fn lemma_pieces_join(pattern: Seq<char>, i: int, j: int, k: int)
    requires
        i <= j <= k,
    ensures
        pieces(pattern, i, k) == pieces(pattern, i, j) + pieces(pattern, j, k),
    decreases k - j,
{
    if k > j {
        lemma_pieces_join(pattern, i, j, k - 1);
        assert(pieces(pattern, i, j) + (pieces(pattern, j, k - 1) + piece(pattern, k - 1)) =~= (
        pieces(pattern, i, j) + pieces(pattern, j, k - 1)) + piece(pattern, k - 1));
    } else {
        assert(pieces(pattern, i, j) + pieces(pattern, j, k) =~= pieces(pattern, i, j));
    }
}

/// One character becomes its piece.
pub(crate) proof fn lemma_pieces_one(pattern: Seq<char>, k: int)
    ensures
        pieces(pattern, k, k + 1) == piece(pattern, k),
{
    assert(pieces(pattern, k, k) =~= Seq::<char>::empty());
    assert(pieces(pattern, k, k + 1) =~= piece(pattern, k));
}

/// No position of `pattern` calls for a concatenation marker.
pub open spec fn concat_complete(pattern: Seq<char>) -> bool {
    forall|i: int| 0 <= i < pattern.len() ==> !#[trigger] needs_concat(pattern, i)
}

/// Where no position among the first `n` calls for a marker, the first `n`
/// characters come out as they are.
proof fn lemma_no_insertion(pattern: Seq<char>, n: int)
    requires
        concat_complete(pattern),
        0 <= n <= pattern.len(),
    ensures
        with_concat_upto(pattern, n) == pattern.take(n),
    decreases n,
{
    if n > 0 {
        lemma_no_insertion(pattern, n - 1);
        assert(!needs_concat(pattern, n - 1));
        assert(pattern.take(n) =~= pattern.take(n - 1).push(pattern[n - 1]));
    } else {
        assert(pattern.take(0) =~= Seq::<char>::empty());
    }
}

/// Inserting markers into a pattern in which no position calls for one
/// leaves it as it is, however often it is done.
pub proof fn lemma_insertion_settled(pattern: Seq<char>)
    requires
        concat_complete(pattern),
    ensures
        with_concat(pattern) == pattern,
        with_concat(with_concat(pattern)) == with_concat(pattern),
{
    lemma_no_insertion(pattern, pattern.len() as int);
    assert(pattern.take(pattern.len() as int) =~= pattern);
}

/// Whether a class is open at an index depends on what stands up to that
/// index alone.
proof fn lemma_class_of_prefix(a: Seq<char>, b: Seq<char>, k: int)
    requires
        a.len() <= b.len(),
        forall|j: int| 0 <= j < a.len() ==> a[j] == b[j],
        k < a.len(),
    ensures
        class_open(a, k) == class_open(b, k),
    decreases k + 1,
{
    if k >= 0 {
        lemma_class_of_prefix(a, b, k - 1);
    }
}

/// The marked pattern is at least as long as the pattern, and longer where
/// a position calls for a marker.
proof fn lemma_marked_length(pattern: Seq<char>, n: int)
    requires
        0 <= n <= pattern.len(),
    ensures
        with_concat_upto(pattern, n).len() >= n,
        (exists|k: int| 0 <= k < n && needs_concat(pattern, k)) ==> with_concat_upto(
            pattern,
            n,
        ).len() > n,
    decreases n,
{
    if n > 0 {
        lemma_marked_length(pattern, n - 1);
        if exists|k: int| 0 <= k < n && needs_concat(pattern, k) {
            let k = choose|k: int| 0 <= k < n && needs_concat(pattern, k);
            if k < n - 1 {
                assert(0 <= k < n - 1 && needs_concat(pattern, k));
            }
        }
    }
}

/// At the end of the first `n` characters, marked, a class is open exactly
/// when it is open at the end of the first `n` characters themselves.
proof fn lemma_class_after_marking(pattern: Seq<char>, n: int)
    requires
        0 <= n <= pattern.len(),
    ensures
        class_open(with_concat_upto(pattern, n), with_concat_upto(pattern, n).len() - 1) == class_open(
            pattern,
            n - 1,
        ),
    decreases n,
{
    if n > 0 {
        lemma_class_after_marking(pattern, n - 1);
        let front = with_concat_upto(pattern, n - 1);
        let now = with_concat_upto(pattern, n);
        let last = now.len() - 1;
        let c = pattern[n - 1];
        assert(now[last] == c);
        if c != crate::re::CHAR_SET_START && c != crate::re::CHAR_SET_END {
            assert(class_open(now, last) == class_open(now, last - 1));
            if needs_concat(pattern, n - 1) {
                assert(now[last - 1] == CONCAT);
                assert(class_open(now, last - 1) == class_open(now, last - 2));
            }
            lemma_class_of_prefix(front, now, front.len() - 1);
        }
    }
}

/// Inserting markers into a pattern in which some position calls for one
/// gives a pattern in which a position calls for one again: doing it once
/// more makes the pattern longer still.
pub proof fn lemma_insertion_grows(pattern: Seq<char>)
    requires
        !concat_complete(pattern),
    ensures
        !concat_complete(with_concat(pattern)),
        with_concat(with_concat(pattern)) != with_concat(pattern),
{
    let i = choose|i: int| 0 <= i < pattern.len() && #[trigger] needs_concat(pattern, i);
    let n = pattern.len() as int;
    let marked = with_concat(pattern);
    let front = with_concat_upto(pattern, i);
    let upto = with_concat_upto(pattern, i + 1);
    let j = front.len() as int;
    lemma_pieces(pattern, i + 1, n);
    assert(upto[j] == CONCAT);
    assert(upto[j + 1] == pattern[i]);
    assert(marked[j] == CONCAT);
    assert(marked[j + 1] == pattern[i]);
    lemma_class_after_marking(pattern, i);
    lemma_pieces(pattern, i, n);
    lemma_class_of_prefix(front, marked, j - 1);
    assert(!class_open(pattern, i - 1));
    assert(class_open(marked, j) == class_open(marked, j - 1));
    assert(needs_concat(marked, j + 1));
    lemma_marked_length(marked, marked.len() as int);
}

/// A class is one operand: a marker belongs before the bracket that opens
/// it where the character before the bracket can end an operand, and no
/// marker belongs before a character that stands inside it.
pub proof fn lemma_class_is_operand(pattern: Seq<char>, i: int)
    requires
        0 < i < pattern.len(),
    ensures
        pattern[i] == CHAR_SET_START && !class_open(pattern, i - 1) ==> (needs_concat(pattern, i)
            <==> can_precede(pattern[i - 1])),
        in_class(pattern, i) ==> !needs_concat(pattern, i),
{
}

} // verus!
