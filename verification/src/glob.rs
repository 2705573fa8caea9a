//! Shell-style wildcard patterns over whole path names, and the order in
//! which a tree of directories is searched for the files that match one.

use std::collections::VecDeque;
use vstd::prelude::*;
use vstd::string::StringExecFns;
use crate::text::{char_at, chars_of_str};

verus! {

/// Matches any run of characters, the empty one too.
pub const ANY_RUN: char = '*';

/// Matches any one character.
pub const ANY_ONE: char = '?';

/// Opens a class of characters, of which one is matched.
pub const CLASS_START: char = '[';

/// Closes a class of characters.
pub const CLASS_END: char = ']';

/// Why a glob could not be made or used.
#[derive(Debug)]
pub struct GlobError {
    pub msg: String,
}

/// What a path names.
#[derive(Clone, Copy, Debug, PartialEq, Eq)]
pub enum PathKind {
    /// Nothing.
    Missing,
    /// A regular file.
    File,
    /// A directory.
    Directory,
    /// Something else.
    Other,
}

/// An entry that waits to be visited, with its path.
#[derive(Debug)]
pub enum PathEntry {
    /// A regular file, to be tested against the pattern.
    File(String),
    /// A directory, to be read.
    Dir(String),
}

/// The model of an entry.
pub enum Entry {
    File(Seq<char>),
    Dir(Seq<char>),
}

impl View for PathEntry {
    type V = Entry;

    open spec fn view(&self) -> Entry {
        match self {
            PathEntry::File(path) => Entry::File(path@),
            PathEntry::Dir(path) => Entry::Dir(path@),
        }
    }
}

/// The models of a sequence of entries.
pub open spec fn entries(queue: Seq<PathEntry>) -> Seq<Entry> {
    queue.map_values(|e: PathEntry| e@)
}

/// The index of the first closing bracket at or after `from`.
pub open spec fn class_end(pattern: Seq<char>, from: int) -> Option<int>
    decreases pattern.len() - from,
{
    if from < 0 || from >= pattern.len() {
        None
    } else if pattern[from] == CLASS_END {
        Some(from)
    } else {
        class_end(pattern, from + 1)
    }
}

/// Every class that is opened at or after `from` is closed.
pub open spec fn classes_closed(pattern: Seq<char>, from: int) -> bool
    decreases pattern.len() - from,
{
    if from < 0 || from >= pattern.len() {
        true
    } else if pattern[from] == CLASS_START {
        match class_end(pattern, from + 1) {
            Some(end) => {
                proof {
                    lemma_class_end(pattern, from + 1);
                }
                classes_closed(pattern, end + 1)
            },
            None => false,
        }
    } else {
        classes_closed(pattern, from + 1)
    }
}

/// The pattern is well formed: every class that it opens it closes.
pub open spec fn well_formed(pattern: Seq<char>) -> bool {
    classes_closed(pattern, 0)
}

/// The pattern holds a wildcard.
pub open spec fn has_wildcard(pattern: Seq<char>) -> bool {
    pattern.contains(ANY_RUN) || pattern.contains(ANY_ONE) || pattern.contains(CLASS_START)
}

/// The pattern from index `p` on matches the text from index `t` on, all of
/// it.
///
/// `*` matches any run of characters, `?` any one character, `[...]` one
/// character that stands between the brackets, and every other character
/// itself.
pub open spec fn matches_from(pattern: Seq<char>, p: int, text: Seq<char>, t: int) -> bool
    decreases pattern.len() - p, text.len() - t,
{
    if p < 0 || t < 0 {
        false
    } else if p >= pattern.len() {
        t >= text.len()
    } else if pattern[p] == ANY_RUN {
        matches_from(pattern, p + 1, text, t) || (t < text.len() && matches_from(
            pattern,
            p,
            text,
            t + 1,
        ))
    } else if t >= text.len() {
        false
    } else if pattern[p] == ANY_ONE {
        matches_from(pattern, p + 1, text, t + 1)
    } else if pattern[p] == CLASS_START {
        match class_end(pattern, p + 1) {
            Some(end) => {
                proof {
                    lemma_class_end(pattern, p + 1);
                }
                pattern.subrange(p + 1, end).contains(text[t]) && matches_from(
                    pattern,
                    end + 1,
                    text,
                    t + 1,
                )
            },
            None => false,
        }
    } else {
        pattern[p] == text[t] && matches_from(pattern, p + 1, text, t + 1)
    }
}

/// The pattern matches the whole of `text`.
pub open spec fn glob_matches(pattern: Seq<char>, text: Seq<char>) -> bool {
    matches_from(pattern, 0, text, 0)
}

/// Where `class_end` finds a bracket, it lies at or after `from`, and no
/// closing bracket stands before it.
pub proof fn lemma_class_end(pattern: Seq<char>, from: int)
    requires
        0 <= from,
    ensures
        match class_end(pattern, from) {
            Some(end) => from <= end < pattern.len() && pattern[end] == CLASS_END && forall|j: int|
                from <= j < end ==> pattern[j] != CLASS_END,
            None => forall|j: int| from <= j < pattern.len() ==> pattern[j] != CLASS_END,
        },
    decreases pattern.len() - from,
{
    if from < pattern.len() && pattern[from] != CLASS_END {
        lemma_class_end(pattern, from + 1);
    }
}

/// The index of the first closing bracket at or after `from`.
fn find_class_end(pattern: &Vec<char>, from: usize) -> (r: Option<usize>)
    ensures
        match r {
            Some(end) => class_end(pattern@, from as int) == Some(end as int) && from <= end
                < pattern@.len(),
            None => class_end(pattern@, from as int).is_none(),
        },
{
    let mut i: usize = from;
    while i < pattern.len()
        invariant
            from <= i,
            class_end(pattern@, from as int) == class_end(pattern@, i as int),
        decreases pattern@.len() - i,
    {
        if char_at(pattern, i) == CLASS_END {
            return Some(i);
        }
        i += 1;
    }
    None
}

/// Whether every class that `pattern` opens it closes.
pub fn is_well_formed(pattern: &Vec<char>) -> (r: bool)
    ensures
        r == well_formed(pattern@),
{
    let mut i: usize = 0;
    while i < pattern.len()
        invariant
            classes_closed(pattern@, 0) == classes_closed(pattern@, i as int),
        decreases pattern@.len() - i,
    {
        if char_at(pattern, i) == CLASS_START {
            match find_class_end(pattern, i + 1) {
                Some(end) => {
                    i = end + 1;
                },
                None => {
                    return false;
                },
            }
        } else {
            i += 1;
        }
    }
    true
}

/// Whether `pattern` holds a wildcard.
fn holds_wildcard(pattern: &Vec<char>) -> (r: bool)
    ensures
        r == has_wildcard(pattern@),
{
    let mut i: usize = 0;
    while i < pattern.len()
        invariant
            i <= pattern@.len(),
            forall|j: int|
                0 <= j < i ==> pattern@[j] != ANY_RUN && pattern@[j] != ANY_ONE && pattern@[j]
                    != CLASS_START,
        decreases pattern@.len() - i,
    {
        let c = char_at(pattern, i);
        if c == ANY_RUN || c == ANY_ONE || c == CLASS_START {
            return true;
        }
        i += 1;
    }
    false
}

/// A compiled glob and the entries that wait to be visited, first come
/// first served.
#[derive(Debug)]
pub struct Paths {
    pattern_chars: Vec<char>,
    is_wildcard: bool,
    entries_to_process: VecDeque<PathEntry>,
}

/// What the search of a tree does next.
#[derive(Debug)]
pub enum Step {
    /// The file with this path matches.
    Yield(String),
    /// The directory with this path is to be read, and what it holds handed
    /// to [`Paths::supply`].
    Read(String),
    /// The pattern is not well formed, so no file can be tested.
    Failed(GlobError),
    /// Nothing waits any more.
    Done,
}

/// What testing the file `path` against `pattern` gives: nothing where the
/// pattern is not well formed.
pub open spec fn test_of(pattern: Seq<char>, path: Seq<char>) -> Option<bool> {
    if well_formed(pattern) {
        Some(glob_matches(pattern, path))
    } else {
        None
    }
}

/// The number of entries at the front of `queue` that are passed over:
/// files that the pattern does not match.
pub open spec fn passed_over(pattern: Seq<char>, queue: Seq<Entry>) -> int
    decreases queue.len(),
{
    if queue.len() == 0 {
        0
    } else {
        match queue[0] {
            Entry::File(path) => if test_of(pattern, path) == Some(false) {
                1 + passed_over(pattern, queue.drop_first())
            } else {
                0
            },
            Entry::Dir(_) => 0,
        }
    }
}

/// The text of the error for a pattern that is not well formed.
pub open spec fn unclosed_message() -> Seq<char> {
    "Invalid pattern, '[' needs a matching brace"@
}

/// The error for a pattern that is not well formed.
fn unclosed_class() -> (e: GlobError)
    ensures
        e.msg@ == unclosed_message(),
{
    GlobError { msg: String::from_str("Invalid pattern, '[' needs a matching brace") }
}

/// The text of the error for a path that names nothing.
pub open spec fn missing_message(path: Seq<char>) -> Seq<char> {
    "Path: '"@ + path + "' does not exist!"@
}

/// What one step of the search makes of the entries that wait: the step,
/// and the entries that wait after it. Files that the pattern does not match
/// are passed over; the first entry after them decides.
pub open spec fn step_of(pattern: Seq<char>, queue: Seq<Entry>) -> (StepModel, Seq<Entry>) {
    let k = passed_over(pattern, queue);
    if k >= queue.len() {
        (StepModel::Done, Seq::<Entry>::empty())
    } else {
        (
            match queue[k] {
                Entry::Dir(path) => StepModel::Read(path),
                Entry::File(path) => if well_formed(pattern) {
                    StepModel::Yield(path)
                } else {
                    StepModel::Failed(unclosed_message())
                },
            },
            queue.skip(k + 1),
        )
    }
}

/// The model of a step.
pub enum StepModel {
    Yield(Seq<char>),
    Read(Seq<char>),
    Failed(Seq<char>),
    Done,
}

impl View for Step {
    type V = StepModel;

    open spec fn view(&self) -> StepModel {
        match self {
            Step::Yield(path) => StepModel::Yield(path@),
            Step::Read(path) => StepModel::Read(path@),
            Step::Failed(e) => StepModel::Failed(e.msg@),
            Step::Done => StepModel::Done,
        }
    }
}

impl Paths {
    /// The pattern.
    pub closed spec fn pattern(&self) -> Seq<char> {
        self.pattern_chars@
    }

    /// The entries that wait, the next one first.
    pub closed spec fn waiting(&self) -> Seq<Entry> {
        entries(self.entries_to_process@)
    }

    /// Whether the pattern holds a wildcard.
    pub closed spec fn wildcard(&self) -> bool {
        self.is_wildcard
    }

    /// Whether the pattern holds a wildcard.
    pub fn is_wildcard(&self) -> (r: bool)
        ensures
            r == self.wildcard(),
    {
        self.is_wildcard
    }

    /// Whether the pattern from index `pattern_idx` on matches `text` from
    /// index `text_idx` on. At `*` the rest of the pattern is tried against
    /// what is left of the text, and where that fails the `*` takes one more
    /// character.
    pub fn matches_ex(&self, pattern_idx: usize, text_idx: usize, text: &Vec<char>) -> (r: bool)
        ensures
            r == matches_from(self.pattern(), pattern_idx as int, text@, text_idx as int),
        decreases self.pattern().len() - pattern_idx,
    {
        let ghost pattern = self.pattern_chars@;
        let mut p: usize = pattern_idx;
        let mut t: usize = text_idx;
        loop
            invariant
                pattern == self.pattern_chars@,
                pattern_idx <= p,
                matches_from(pattern, p as int, text@, t as int) == matches_from(
                    pattern,
                    pattern_idx as int,
                    text@,
                    text_idx as int,
                ),
            decreases pattern.len() - p, text@.len() - t,
        {
            if p >= self.pattern_chars.len() {
                return t >= text.len();
            }
            let c = char_at(&self.pattern_chars, p);
            if c == ANY_RUN {
                if self.matches_ex(p + 1, t, text) {
                    return true;
                }
                if t >= text.len() {
                    return false;
                }
                t += 1;
            } else if t >= text.len() {
                return false;
            } else if c == ANY_ONE {
                p += 1;
                t += 1;
            } else if c == CLASS_START {
                match find_class_end(&self.pattern_chars, p + 1) {
                    None => {
                        return false;
                    },
                    Some(end) => {
                        let wanted = char_at(text, t);
                        let mut matched = false;
                        let mut m: usize = p + 1;
                        while m < end
                            invariant
                                p + 1 <= m <= end < pattern.len(),
                                pattern == self.pattern_chars@,
                                matched == pattern.subrange(p + 1, m as int).contains(wanted),
                            decreases end - m,
                        {
                            if char_at(&self.pattern_chars, m) == wanted {
                                matched = true;
                            }
                            proof {
                                let longer = pattern.subrange(p + 1, m + 1);
                                let shorter = pattern.subrange(p + 1, m as int);
                                assert(longer =~= shorter.push(pattern[m as int]));
                                if shorter.contains(wanted) {
                                    let w = choose|w: int| 0 <= w < shorter.len() && shorter[w] == wanted;
                                    assert(longer[w] == wanted);
                                }
                                if pattern[m as int] == wanted {
                                    assert(longer[m - p - 1] == wanted);
                                }
                            }
                            m += 1;
                        }
                        if !matched {
                            return false;
                        }
                        p = end + 1;
                        t += 1;
                    },
                }
            } else {
                if c != char_at(text, t) {
                    return false;
                }
                p += 1;
                t += 1;
            }
        }
    }

    /// Whether the pattern matches the whole of `path`. The path is matched
    /// as it is written: hand in the canonical form. An error is returned
    /// where the pattern is not well formed.
    pub fn matches(&self, path: &str) -> (r: Result<bool, GlobError>)
        ensures
            match r {
                Ok(b) => test_of(self.pattern(), path@) == Some(b),
                Err(e) => test_of(self.pattern(), path@).is_none() && e.msg@ == unclosed_message(),
            },
    {
        if !is_well_formed(&self.pattern_chars) {
            return Err(unclosed_class());
        }
        let path_chars = chars_of_str(path);
        Ok(self.matches_ex(0, 0, &path_chars))
    }

    /// A glob for `pattern` that starts at `path`: a file waits to be
    /// tested, a directory to be read, and anything else is left out.
    pub fn new(pattern: &str, path: &str, kind: PathKind) -> (paths: Self)
        ensures
            paths.pattern() == pattern@,
            paths.wildcard() == has_wildcard(pattern@),
            paths.waiting() == match kind {
                PathKind::File => seq![Entry::File(path@)],
                PathKind::Directory => seq![Entry::Dir(path@)],
                _ => seq![],
            },
    {
        let pattern_chars = chars_of_str(pattern);
        let is_wildcard = holds_wildcard(&pattern_chars);
        let mut queue: VecDeque<PathEntry> = VecDeque::new();
        match kind {
            PathKind::File => {
                queue.push_back(PathEntry::File(String::from_str(path)));
            },
            PathKind::Directory => {
                queue.push_back(PathEntry::Dir(String::from_str(path)));
            },
            _ => {},
        }
        let paths = Paths { pattern_chars, is_wildcard, entries_to_process: queue };
        proof {
            assert(paths.waiting() =~= match kind {
                PathKind::File => seq![Entry::File(path@)],
                PathKind::Directory => seq![Entry::Dir(path@)],
                _ => seq![],
            });
        }
        paths
    }

    /// Takes what a directory holds, in the order it is listed: the entries
    /// wait behind those that wait already.
    pub fn supply(&mut self, listing: Vec<PathEntry>)
        ensures
            final(self).pattern() == old(self).pattern(),
            final(self).wildcard() == old(self).wildcard(),
            final(self).waiting() == old(self).waiting() + entries(listing@),
    {
        let ghost start = self.waiting();
        for entry in it: listing
            invariant
                self.pattern() == old(self).pattern(),
                self.wildcard() == old(self).wildcard(),
                start == old(self).waiting(),
                self.waiting() == start + entries(it.seq().take(it.index() as int)),
        {
            let ghost before = self.entries_to_process@;
            proof {
                let i = it.index() as int;
                assert(it.seq().take(i + 1) =~= it.seq().take(i).push(entry));
                assert(entries(it.seq().take(i + 1)) =~= entries(it.seq().take(i)).push(entry@));
            }
            self.entries_to_process.push_back(entry);
            proof {
                assert(entries(self.entries_to_process@) =~= entries(before).push(entry@));
            }
        }
    }
}

impl Paths {
    /// Takes the entries that wait, in turn, until one decides what is done
    /// next: a file that matches is yielded, a directory is to be read.
    pub fn next_step(&mut self) -> (step: Step)
        ensures
            final(self).pattern() == old(self).pattern(),
            final(self).wildcard() == old(self).wildcard(),
            (step@, final(self).waiting()) == step_of(old(self).pattern(), old(self).waiting()),
    {
        let ghost pattern = self.pattern();
        let ghost queue = self.waiting();
        let ghost mut gone: int = 0;
        proof {
            assert(queue.skip(0) =~= queue);
        }
        loop
            invariant
                self.pattern() == pattern,
                pattern == old(self).pattern(),
                queue == old(self).waiting(),
                self.wildcard() == old(self).wildcard(),
                0 <= gone <= queue.len(),
                self.waiting() == queue.skip(gone),
                passed_over(pattern, queue) == gone + passed_over(pattern, queue.skip(gone)),
            decreases queue.len() - gone,
        {
            let ghost now = self.waiting();
            match self.entries_to_process.pop_front() {
                None => {
                    proof {
                        assert(self.waiting() =~= Seq::<Entry>::empty());
                    }
                    return Step::Done;
                },
                Some(entry) => {
                    proof {
                        assert(now[0] == entry@);
                        assert(now[0] == queue[gone]);
                        assert(self.waiting() =~= now.drop_first());
                        assert(now.drop_first() =~= queue.skip(gone + 1));
                    }
                    match entry {
                        PathEntry::Dir(path) => {
                            return Step::Read(path);
                        },
                        PathEntry::File(path) => {
                            match self.matches(path.as_str()) {
                                Ok(true) => {
                                    return Step::Yield(path);
                                },
                                Ok(false) => {
                                    proof {
                                        gone = gone + 1;
                                    }
                                },
                                Err(e) => {
                                    return Step::Failed(e);
                                },
                            }
                        },
                    }
                },
            }
        }
    }
}

/// A glob for `pattern` that starts at `path`, which names a thing of kind
/// `kind`. The path must name something, and every class that the pattern
/// opens must be closed.
pub fn glob(pattern: &str, path: &str, kind: PathKind) -> (r: Result<Paths, GlobError>)
    ensures
        match r {
            Ok(paths) => {
                &&& kind != PathKind::Missing
                &&& well_formed(pattern@)
                &&& paths.pattern() == pattern@
                &&& paths.wildcard() == has_wildcard(pattern@)
                &&& paths.waiting() == match kind {
                    PathKind::File => seq![Entry::File(path@)],
                    PathKind::Directory => seq![Entry::Dir(path@)],
                    _ => seq![],
                }
            },
            Err(e) => if kind == PathKind::Missing {
                e.msg@ == missing_message(path@)
            } else {
                !well_formed(pattern@) && e.msg@ == unclosed_message()
            },
        },
{
    match kind {
        PathKind::Missing => {
            let msg = String::from_str("Path: '").concat(path).concat("' does not exist!");
            return Err(GlobError { msg });
        },
        _ => {},
    }
    let pattern_chars = chars_of_str(pattern);
    if !is_well_formed(&pattern_chars) {
        return Err(unclosed_class());
    }
    Ok(Paths::new(pattern, path, kind))
}

/// A pattern that holds no wildcard matches, from any index on, exactly the
/// text that is equal to it from that index on.
proof fn lemma_literal_from(pattern: Seq<char>, text: Seq<char>, i: int)
    requires
        !has_wildcard(pattern),
        0 <= i <= pattern.len(),
        i <= text.len(),
    ensures
        matches_from(pattern, i, text, i) <==> pattern.skip(i) == text.skip(i),
    decreases pattern.len() - i,
{
    if i == pattern.len() {
        if i >= text.len() {
            assert(pattern.skip(i) =~= text.skip(i));
        } else {
            assert(text.skip(i).len() > 0);
        }
    } else {
        assert(pattern.contains(pattern[i]));
        if i >= text.len() {
            assert(pattern.skip(i).len() > 0);
        } else {
            lemma_literal_from(pattern, text, i + 1);
            assert(pattern.skip(i)[0] == pattern[i]);
            assert(text.skip(i)[0] == text[i]);
            assert(pattern.skip(i).skip(1) =~= pattern.skip(i + 1));
            assert(text.skip(i).skip(1) =~= text.skip(i + 1));
            if pattern[i] == text[i] && pattern.skip(i + 1) == text.skip(i + 1) {
                assert(pattern.skip(i) =~= seq![pattern[i]] + pattern.skip(i + 1));
                assert(text.skip(i) =~= seq![text[i]] + text.skip(i + 1));
            }
        }
    }
}

/// A pattern that holds no wildcard matches the path that is equal to it and
/// no other.
pub proof fn lemma_literal_pattern(pattern: Seq<char>, path: Seq<char>)
    requires
        !has_wildcard(pattern),
    ensures
        glob_matches(pattern, path) <==> pattern == path,
{
    lemma_literal_from(pattern, path, 0);
    assert(pattern.skip(0) =~= pattern);
    assert(path.skip(0) =~= path);
}

/// The pattern `*` matches what is left of any text.
proof fn lemma_star_from(text: Seq<char>, t: int)
    requires
        0 <= t <= text.len(),
    ensures
        matches_from(seq![ANY_RUN], 0, text, t),
    decreases text.len() - t,
{
    let pattern = seq![ANY_RUN];
    if t < text.len() {
        lemma_star_from(text, t + 1);
    } else {
        assert(matches_from(pattern, 1, text, t));
    }
}

/// The pattern `*` matches every path, so that a search with it yields every
/// file that it comes to.
pub proof fn lemma_star_matches_all(path: Seq<char>)
    ensures
        glob_matches(seq![ANY_RUN], path),
        test_of(seq![ANY_RUN], path) == Some(true),
{
    lemma_star_from(path, 0);
    let pattern = seq![ANY_RUN];
    assert(classes_closed(pattern, 1));
    assert(classes_closed(pattern, 0));
}

/// A search with the pattern `*` passes no file over: a file that waits
/// first is yielded.
pub proof fn lemma_star_yields(queue: Seq<Entry>)
    requires
        queue.len() > 0,
        queue[0] is File,
    ensures
        step_of(seq![ANY_RUN], queue) == (StepModel::Yield(queue[0]->File_0), queue.skip(1)),
{
    lemma_star_matches_all(queue[0]->File_0);
}

} // verus!
