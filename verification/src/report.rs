//! What a report of matches needs besides the matches: the width of the
//! column of line numbers, the parts of a line around a match, which files
//! are searched at all, and how many files each worker takes.

use vstd::prelude::*;
use crate::search::Match;
use crate::text::{
    char_at, char_len_utf8, chars_of_str, lemma_offsets_grow, lemma_utf8_len_prefix,
    lemma_utf8_len_push, string_from_chars, utf8_len,
};

verus! {

/// The matches found in one file.
#[derive(Debug)]
pub struct FileMatch {
    pub file_path: Option<String>,
    pub matches: Vec<Match>,
}

/// A line cut around a match.
#[derive(Debug)]
pub struct Excerpt {
    pub before: String,
    pub matched: String,
    pub after: String,
}

/// The number of decimal digits of `n`.
pub open spec fn decimal_width(n: nat) -> nat
    decreases n,
{
    if n < 10 {
        1
    } else {
        1 + decimal_width(n / 10)
    }
}

/// The largest line index among `matches`, or zero where there are none.
pub open spec fn largest_line(matches: Seq<Match>) -> nat
    decreases matches.len(),
{
    if matches.len() == 0 {
        0
    } else {
        let front = largest_line(matches.drop_last());
        if matches.last().line > front {
            matches.last().line as nat
        } else {
            front
        }
    }
}

/// The number of decimal digits of `n`.
fn digits_of(n: u128) -> (w: usize)
    ensures
        w == decimal_width(n as nat),
        1 <= w <= 39,
{
    let mut w: usize = 1;
    let mut rest: u128 = n;
    proof {
        assert(pow10(39) == 1000000000000000000000000000000000000000nat) by {
            reveal_with_fuel(pow10, 40);
        }
        lemma_width_bound(n as nat, pow10(39), 39);
    }
    while rest >= 10
        invariant
            1 <= w,
            decimal_width(n as nat) == (w - 1) + decimal_width(rest as nat),
            w + decimal_width(rest as nat) <= 40,
        decreases rest,
    {
        rest = rest / 10;
        w += 1;
    }
    w
}

/// No number below `bound` has more than `digits` decimal digits, where
/// `bound` is at most the `digits`-th power of ten.
proof fn lemma_width_bound(n: nat, bound: nat, digits: nat)
    requires
        n < bound,
        digits >= 1,
        bound <= pow10(digits),
    ensures
        decimal_width(n) <= digits,
    decreases digits,
{
    reveal_with_fuel(pow10, 2);
    if n >= 10 {
        assert(digits >= 2) by {
            if digits == 1 {
                assert(pow10(1) == 10);
            }
        }
        assert(pow10(digits) == 10 * pow10((digits - 1) as nat));
        lemma_width_bound(n / 10, pow10((digits - 1) as nat), (digits - 1) as nat);
    }
}

/// The power of ten with exponent `e`.
pub open spec fn pow10(e: nat) -> nat
    decreases e,
{
    if e == 0 {
        1
    } else {
        10 * pow10((e - 1) as nat)
    }
}

impl FileMatch {
    /// The width of the column of line numbers: the number of decimal
    /// digits of the largest line number, where lines are numbered from one.
    pub fn line_number_width(&self) -> (w: usize)
        ensures
            w == decimal_width(largest_line(self.matches@) + 1),
    {
        let mut largest: usize = 0;
        let mut i: usize = 0;
        while i < self.matches.len()
            invariant
                i <= self.matches@.len(),
                largest == largest_line(self.matches@.take(i as int)),
            decreases self.matches@.len() - i,
        {
            proof {
                assert(self.matches@.take(i + 1).drop_last() =~= self.matches@.take(i as int));
            }
            if self.matches[i].line > largest {
                largest = self.matches[i].line;
            }
            i += 1;
        }
        proof {
            assert(self.matches@.take(self.matches@.len() as int) =~= self.matches@);
        }
        let number: u128 = largest as u128 + 1;
        digits_of(number)
    }

    /// The number of matches.
    pub fn count(&self) -> (n: usize)
        ensures
            n == self.matches@.len(),
    {
        self.matches.len()
    }
}

/// Whether `line` can be cut at the byte offsets `from` and `to`: there are
/// characters `i` and `j` of it, or its end, that start at these offsets.
pub open spec fn cut_points(line: Seq<char>, from: int, to: int, i: int, j: int) -> bool {
    &&& 0 <= i <= j <= line.len()
    &&& utf8_len(line.take(i)) == from
    &&& utf8_len(line.take(j)) == to
}

/// The index of the character of `chars` that starts at byte offset
/// `offset`, if there is one; the length of `chars` for the offset of its
/// end.
fn index_at_offset(chars: &Vec<char>, offset: usize) -> (r: Option<usize>)
    requires
        utf8_len(chars@) <= usize::MAX,
    ensures
        match r {
            Some(i) => i <= chars@.len() && utf8_len(chars@.take(i as int)) == offset,
            None => forall|i: int| 0 <= i <= chars@.len() ==> utf8_len(chars@.take(i)) != offset,
        },
{
    let mut i: usize = 0;
    let mut at: usize = 0;
    proof {
        assert(chars@.take(0) =~= Seq::<char>::empty());
        assert(vstd::utf8::encode_utf8(Seq::<char>::empty()) =~= seq![]);
    }
    while i < chars.len() && at < offset
        invariant
            i <= chars@.len(),
            utf8_len(chars@) <= usize::MAX,
            at == utf8_len(chars@.take(i as int)),
            forall|k: int| 0 <= k < i ==> utf8_len(chars@.take(k)) < offset,
        decreases chars@.len() - i,
    {
        proof {
            assert(chars@.take(i + 1) =~= chars@.take(i as int).push(chars@[i as int]));
            lemma_utf8_len_push(chars@.take(i as int), chars@[i as int]);
            lemma_utf8_len_prefix(chars@, i + 1, chars@.len() as int);
            assert(chars@.take(chars@.len() as int) =~= chars@);
        }
        at += char_len_utf8(char_at(chars, i));
        i += 1;
    }
    if at == offset {
        Some(i)
    } else {
        proof {
            assert forall|k: int| 0 <= k <= chars@.len() implies utf8_len(chars@.take(k))
                != offset by {
                if k > i {
                    lemma_offsets_grow(chars@, i as int, k);
                }
            }
        }
        None
    }
}

/// The characters of `chars` from index `from` up to index `to`.
fn text_between(chars: &Vec<char>, from: usize, to: usize) -> (s: String)
    requires
        from <= to <= chars@.len(),
    ensures
        s@ == chars@.subrange(from as int, to as int),
{
    let mut part: Vec<char> = Vec::new();
    let mut i: usize = from;
    while i < to
        invariant
            from <= i <= to <= chars@.len(),
            part@ == chars@.subrange(from as int, i as int),
        decreases to - i,
    {
        part.push(char_at(chars, i));
        proof {
            assert(part@ =~= chars@.subrange(from as int, i + 1));
        }
        i += 1;
    }
    string_from_chars(&part)
}

/// Cuts `line` around the match `m`: what stands before it, the match, and
/// what stands after it. There is no excerpt where the offsets of the match
/// are not in order or are not the offsets of characters of the line.
pub fn excerpt(line: &str, m: &Match) -> (r: Option<Excerpt>)
    ensures
        match r {
            Some(e) => exists|i: int, j: int| #[trigger]
                cut_points(line@, m.from as int, m.to as int, i, j) && e.before@ == line@.take(i)
                    && e.matched@ == line@.subrange(i, j) && e.after@ == line@.skip(j),
            None => forall|i: int, j: int|
                !#[trigger] cut_points(line@, m.from as int, m.to as int, i, j),
        },
{
    // The line lies in memory, so the number of its bytes fits the machine.
    let _size = line.as_bytes().len();
    let chars = chars_of_str(line);
    if m.from > m.to {
        proof {
            assert forall|i: int, j: int|
                !#[trigger] cut_points(line@, m.from as int, m.to as int, i, j) by {
                if 0 <= i <= j <= line@.len() {
                    lemma_utf8_len_prefix(line@, i, j);
                }
            }
        }
        return None;
    }
    let i = match index_at_offset(&chars, m.from) {
        Some(i) => i,
        None => {
            return None;
        },
    };
    let j = match index_at_offset(&chars, m.to) {
        Some(j) => j,
        None => {
            return None;
        },
    };
    proof {
        if j < i {
            lemma_offsets_grow(line@, j as int, i as int);
        }
    }
    let e = Excerpt {
        before: text_between(&chars, 0, i),
        matched: text_between(&chars, i, j),
        after: text_between(&chars, j, chars.len()),
    };
    proof {
        assert(cut_points(line@, m.from as int, m.to as int, i as int, j as int));
        assert(line@.take(i as int) =~= line@.subrange(0, i as int));
        assert(line@.skip(j as int) =~= line@.subrange(j as int, line@.len() as int));
    }
    Some(e)
}

/// Whether two texts are the same.
fn same_text(a: &str, b: &str) -> (r: bool)
    ensures
        r == (a@ == b@),
{
    let x = chars_of_str(a);
    let y = chars_of_str(b);
    if x.len() != y.len() {
        return false;
    }
    let mut i: usize = 0;
    while i < x.len()
        invariant
            i <= x@.len(),
            x@ == a@,
            y@ == b@,
            x@.len() == y@.len(),
            forall|k: int| 0 <= k < i ==> x@[k] == y@[k],
        decreases x@.len() - i,
    {
        if char_at(&x, i) != char_at(&y, i) {
            return false;
        }
        i += 1;
    }
    proof {
        assert(x@ =~= y@);
    }
    true
}

/// The extensions of the files that are taken for text.
pub open spec fn allowed_extension(extension: Seq<char>) -> bool {
    ||| extension == "txt"@
    ||| extension == "rs"@
    ||| extension == "cpp"@
    ||| extension == "hpp"@
    ||| extension == "h"@
    ||| extension == "json"@
    ||| extension == "xml"@
    ||| extension == "java"@
    ||| extension == "py"@
}

/// Whether a file with this extension is taken for text.
pub fn is_allowed_extension(extension: &str) -> (r: bool)
    ensures
        r == allowed_extension(extension@),
{
    same_text(extension, "txt") || same_text(extension, "rs") || same_text(extension, "cpp")
        || same_text(extension, "hpp") || same_text(extension, "h") || same_text(
        extension,
        "json",
    ) || same_text(extension, "xml") || same_text(extension, "java") || same_text(
        extension,
        "py",
    )
}

/// The number of files that each worker takes at a time: all of them where
/// there are fewer files than workers, their share otherwise.
pub fn chunk_size(files: usize, workers: usize) -> (size: usize)
    ensures
        size == if workers == 0 || files < workers {
            files
        } else {
            files / workers
        },
{
    if workers == 0 || files < workers {
        files
    } else {
        files / workers
    }
}

} // verus!
