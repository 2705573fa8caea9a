//! Characters as the engine sees them: a scalar value together with the two
//! Unicode classes that transition labels can test, and byte widths in UTF-8.

use vstd::prelude::*;

verus! {

/// Whether `char::is_numeric` holds of `c`.
pub uninterp spec fn unicode_numeric(c: char) -> bool;

/// Whether `char::is_alphanumeric` holds of `c`.
pub uninterp spec fn unicode_alphanumeric(c: char) -> bool;

/// The first scalar of the upper-case mapping of `c` (`char::to_uppercase`).
pub uninterp spec fn first_uppercase(c: char) -> char;

/// The first scalar of the lower-case mapping of `c` (`char::to_lowercase`).
pub uninterp spec fn first_lowercase(c: char) -> char;

/// Calls `char::is_numeric`, which tests the Unicode general categories for
/// numbers. Nothing is claimed of the answer but that it is the named
/// function of `c`.
#[verifier::external_body]
pub(crate) fn is_numeric(c: char) -> (r: bool)
    ensures
        r == unicode_numeric(c),
{
    c.is_numeric()
}

/// Calls `char::is_alphanumeric`, which tests the Unicode alphabetic property
/// and the categories for numbers. Nothing is claimed of the answer but that
/// it is the named function of `c`.
#[verifier::external_body]
pub(crate) fn is_alphanumeric(c: char) -> (r: bool)
    ensures
        r == unicode_alphanumeric(c),
{
    c.is_alphanumeric()
}

/// Calls `char::to_uppercase` and keeps the first scalar that it yields; the
/// mapping of any character holds at least one.
#[verifier::external_body]
pub(crate) fn naive_uppercase(c: char) -> (r: char)
    ensures
        r == first_uppercase(c),
{
    c.to_uppercase().next().unwrap_or(c)
}

/// Calls `char::to_lowercase` and keeps the first scalar that it yields; the
/// mapping of any character holds at least one.
#[verifier::external_body]
pub(crate) fn naive_lowercase(c: char) -> (r: char)
    ensures
        r == first_lowercase(c),
{
    c.to_lowercase().next().unwrap_or(c)
}

/// Collects characters into a `String` (`String::from_iter`): the string
/// holds exactly the characters of `chars`, in order.
#[verifier::external_body]
pub(crate) fn string_from_chars(chars: &Vec<char>) -> (s: String)
    ensures
        s@ == chars@,
{
    chars.iter().collect()
}

/// One character of input, with the answers to the two class tests that a
/// transition label may ask of it.
#[derive(Clone, Copy, Debug, PartialEq, Eq)]
pub struct Scalar {
    pub value: char,
    pub numeric: bool,
    pub alphanumeric: bool,
}

/// The scalar that stands for `c`.
pub open spec fn scalar_of(c: char) -> Scalar {
    Scalar { value: c, numeric: unicode_numeric(c), alphanumeric: unicode_alphanumeric(c) }
}

/// The scalars that stand for the characters of `s`.
pub open spec fn scalars_of(s: Seq<char>) -> Seq<Scalar> {
    s.map_values(|c: char| scalar_of(c))
}

/// The characters that a sequence of scalars carries.
pub open spec fn chars_of(s: Seq<Scalar>) -> Seq<char> {
    s.map_values(|k: Scalar| k.value)
}

/// Classifies one character.
pub fn classify(c: char) -> (k: Scalar)
    ensures
        k == scalar_of(c),
{
    Scalar { value: c, numeric: is_numeric(c), alphanumeric: is_alphanumeric(c) }
}

/// Classifies every character of `text`, in order.
pub fn classify_text(text: &str) -> (v: Vec<Scalar>)
    ensures
        v@ == scalars_of(text@),
{
    let mut v: Vec<Scalar> = Vec::new();
    for c in it: text.chars()
        invariant
            it.seq() == text@,
            v@ == scalars_of(text@.take(it.index() as int)),
    {
        proof {
            let i = it.index() as int;
            assert(text@.take(i + 1) =~= text@.take(i).push(c));
            assert(scalars_of(text@.take(i + 1)) =~= scalars_of(text@.take(i)).push(scalar_of(c)));
        }
        v.push(classify(c));
    }
    proof {
        assert(text@.take(text@.len() as int) =~= text@);
    }
    v
}

/// The characters of `text`, in order.
pub fn chars_of_str(text: &str) -> (v: Vec<char>)
    ensures
        v@ == text@,
{
    let mut v: Vec<char> = Vec::new();
    for c in it: text.chars()
        invariant
            it.seq() == text@,
            v@ == text@.take(it.index() as int),
    {
        proof {
            let i = it.index() as int;
            assert(text@.take(i + 1) =~= text@.take(i).push(c));
        }
        v.push(c);
    }
    proof {
        assert(text@.take(text@.len() as int) =~= text@);
    }
    v
}

/// The character at index `i`.
pub fn char_at(chars: &Vec<char>, i: usize) -> (c: char)
    requires
        i < chars@.len(),
    ensures
        c == chars@[i as int],
{
    chars[i]
}

/// Number of bytes that the UTF-8 encoding of `c` takes.
pub open spec fn char_width(c: char) -> nat {
    vstd::utf8::encode_scalar(c as u32).len()
}

/// Number of bytes that the UTF-8 encoding of `s` takes.
pub open spec fn utf8_len(s: Seq<char>) -> nat {
    vstd::utf8::encode_utf8(s).len()
}

/// Computes the UTF-8 width of one character.
pub fn char_len_utf8(c: char) -> (w: usize)
    ensures
        w == char_width(c),
        1 <= w <= 4,
{
    let v: u32 = c as u32;
    if v < 0x80 {
        1
    } else if v < 0x800 {
        2
    } else if v < 0x10000 {
        3
    } else {
        4
    }
}

/// Appending one character lengthens the encoding by that character's width.
pub(crate) proof fn lemma_utf8_len_push(s: Seq<char>, c: char)
    ensures
        utf8_len(s.push(c)) == utf8_len(s) + char_width(c),
    decreases s.len(),
{
    if s.len() == 0 {
        assert(s.push(c).drop_first() =~= s);
        assert(vstd::utf8::encode_utf8(s) =~= seq![]);
    } else {
        assert(s.push(c).drop_first() =~= s.drop_first().push(c));
        lemma_utf8_len_push(s.drop_first(), c);
    }
}

/// A prefix never encodes to more bytes than the whole.
pub(crate) proof fn lemma_utf8_len_prefix(s: Seq<char>, i: int, j: int)
    requires
        0 <= i <= j <= s.len(),
    ensures
        utf8_len(s.take(i)) <= utf8_len(s.take(j)),
    decreases j - i,
{
    if i < j {
        lemma_utf8_len_prefix(s, i, j - 1);
        assert(s.take(j) =~= s.take(j - 1).push(s[j - 1]));
        lemma_utf8_len_push(s.take(j - 1), s[j - 1]);
    }
}

/// The encoding of two sequences, one after the other, is as long as both
/// encodings together.
pub(crate) proof fn lemma_utf8_len_concat(a: Seq<char>, b: Seq<char>)
    ensures
        utf8_len(a + b) == utf8_len(a) + utf8_len(b),
    decreases b.len(),
{
    if b.len() == 0 {
        assert(a + b =~= a);
        assert(vstd::utf8::encode_utf8(b) =~= seq![]);
    } else {
        lemma_utf8_len_concat(a, b.drop_last());
        assert(a + b =~= (a + b.drop_last()).push(b.last()));
        lemma_utf8_len_push(a + b.drop_last(), b.last());
        assert(b =~= b.drop_last().push(b.last()));
        lemma_utf8_len_push(b.drop_last(), b.last());
    }
}

/// A stretch never encodes to more bytes than the whole.
pub(crate) proof fn lemma_utf8_len_subrange(s: Seq<char>, i: int, j: int)
    requires
        0 <= i <= j <= s.len(),
    ensures
        utf8_len(s.subrange(i, j)) <= utf8_len(s),
{
    assert(s =~= s.take(i) + s.subrange(i, j) + s.skip(j));
    lemma_utf8_len_concat(s.take(i) + s.subrange(i, j), s.skip(j));
    lemma_utf8_len_concat(s.take(i), s.subrange(i, j));
}

/// The byte offsets of the characters of a line grow from one to the next.
pub(crate) proof fn lemma_offsets_grow(line: Seq<char>, i: int, j: int)
    requires
        0 <= i < j <= line.len(),
    ensures
        utf8_len(line.take(i)) < utf8_len(line.take(j)),
    decreases j - i,
{
    assert(line.take(i + 1) =~= line.take(i).push(line[i]));
    lemma_utf8_len_push(line.take(i), line[i]);
    assert(vstd::utf8::encode_scalar(line[i] as u32).len() >= 1);
    if i + 1 < j {
        lemma_offsets_grow(line, i + 1, j);
    }
}

} // verus!
