use perg::lexical::{to_lexical_absolute, Component};
use perg::nfa::{symbol, Label, NfaOptions, State, StateKind, Transition, NFA};
use perg::re::{regex_to_nfa, InvalidPattern};
use perg::report::{chunk_size, excerpt, is_allowed_extension, FileMatch};
use perg::search::Match;
use perg::text::{char_at, char_len_utf8, chars_of_str, classify_text, Scalar};

fn at(line: usize) -> Match {
    Match { from: 0, to: 1, line }
}

fn width(lines: Vec<usize>) -> usize {
    let found = FileMatch { file_path: None, matches: lines.into_iter().map(at).collect() };
    found.line_number_width()
}

#[test]
fn line_number_width_counts_from_one() {
    assert_eq!(width(vec![]), 1);
    assert_eq!(width(vec![0]), 1);
    assert_eq!(width(vec![8]), 1);
    assert_eq!(width(vec![9]), 2);
    assert_eq!(width(vec![3, 98, 17]), 2);
    assert_eq!(width(vec![99, 5]), 3);
    assert_eq!(width(vec![999_999]), 7);
    assert_eq!(width(vec![usize::MAX]), (usize::MAX as u128 + 1).to_string().len());
}

#[test]
fn count_is_the_number_of_matches() {
    let found = FileMatch {
        file_path: Some(String::from("a.txt")),
        matches: vec![at(0), at(0), at(4)],
    };
    assert_eq!(found.count(), 3);
    let none = FileMatch { file_path: None, matches: vec![] };
    assert_eq!(none.count(), 0);
}

#[test]
fn excerpt_cuts_at_the_match() {
    let parts = excerpt("abc01abc", &Match { from: 3, to: 8, line: 1 }).unwrap();
    assert_eq!(parts.before, "abc");
    assert_eq!(parts.matched, "01abc");
    assert_eq!(parts.after, "");
    let parts = excerpt("śb€x", &Match { from: 2, to: 6, line: 0 }).unwrap();
    assert_eq!(parts.before, "ś");
    assert_eq!(parts.matched, "b€");
    assert_eq!(parts.after, "x");
    let parts = excerpt("ab", &Match { from: 1, to: 1, line: 0 }).unwrap();
    assert_eq!(parts.before, "a");
    assert_eq!(parts.matched, "");
    assert_eq!(parts.after, "b");
    let parts = excerpt("", &Match { from: 0, to: 0, line: 0 }).unwrap();
    assert_eq!(parts.before, "");
    assert_eq!(parts.matched, "");
    assert_eq!(parts.after, "");
}

#[test]
fn excerpt_needs_offsets_of_characters_in_order() {
    assert!(excerpt("śb", &Match { from: 1, to: 2, line: 0 }).is_none());
    assert!(excerpt("śb", &Match { from: 0, to: 1, line: 0 }).is_none());
    assert!(excerpt("ab", &Match { from: 0, to: 3, line: 0 }).is_none());
    assert!(excerpt("ab", &Match { from: 2, to: 1, line: 0 }).is_none());
    assert!(excerpt("ab", &Match { from: 3, to: 3, line: 0 }).is_none());
}

#[test]
fn excerpt_of_every_match_found() {
    let nfa = regex_to_nfa("b*", &NfaOptions::default()).unwrap();
    let line = "śbb€b";
    for m in nfa.find_matches(line) {
        let parts = excerpt(line, &m).unwrap();
        assert_eq!(format!("{}{}{}", parts.before, parts.matched, parts.after), line);
        assert_eq!(parts.before.len(), m.from);
        assert_eq!(parts.matched.len(), m.to - m.from);
        assert!(parts.matched.chars().all(|c| c == 'b'));
    }
}

#[test]
fn allowed_extensions() {
    for extension in ["txt", "rs", "cpp", "hpp", "h", "json", "xml", "java", "py"] {
        assert!(is_allowed_extension(extension));
    }
    for extension in ["", "tx", "txt ", "TXT", "exe", "c", "hp", "jsonl"] {
        assert!(!is_allowed_extension(extension));
    }
}

#[test]
fn chunk_size_shares_the_files() {
    assert_eq!(chunk_size(0, 8), 0);
    assert_eq!(chunk_size(3, 8), 3);
    assert_eq!(chunk_size(8, 8), 1);
    assert_eq!(chunk_size(17, 8), 2);
    assert_eq!(chunk_size(100, 1), 100);
    assert_eq!(chunk_size(5, 0), 5);
}

fn name(text: &str) -> Component {
    Component::Normal(String::from(text))
}

fn root() -> Component {
    Component::Anchor(String::from("/"))
}

#[test]
fn lexical_absolute_of_a_relative_path() {
    let current = vec![root(), name("home"), name("me")];
    let path = vec![Component::CurDir, name("a"), Component::ParentDir, name("b"), name("c")];
    assert_eq!(
        to_lexical_absolute(path, false, current),
        vec![root(), name("home"), name("me"), name("b"), name("c")]
    );
}

#[test]
fn lexical_absolute_of_an_absolute_path() {
    let current = vec![root(), name("home")];
    let path = vec![root(), name("a"), Component::ParentDir, Component::ParentDir, name("b")];
    assert_eq!(to_lexical_absolute(path, true, current), vec![root(), name("b")]);
}

#[test]
fn lexical_absolute_climbs_out_of_the_current_directory() {
    let current = vec![root(), name("home"), name("me")];
    let path = vec![Component::ParentDir, Component::ParentDir, Component::ParentDir, name("x")];
    assert_eq!(to_lexical_absolute(path, false, current), vec![root(), name("x")]);
    assert_eq!(to_lexical_absolute(vec![], false, vec![root()]), vec![root()]);
    assert_eq!(to_lexical_absolute(vec![Component::ParentDir], true, vec![root()]), vec![]);
}

#[test]
fn well_formed_automata() {
    let opt = NfaOptions::default();
    assert!(symbol('a', &opt).is_well_formed());
    assert!(regex_to_nfa("(ab+a)*[^c]", &opt).unwrap().is_well_formed());
    let state = |to: usize, kind: StateKind| {
        State::new(vec![Transition::new(Label::Epsilon, to)], kind)
    };
    let good = NFA::new(vec![state(1, StateKind::Initial), state(0, StateKind::Final)], 0, vec![1]);
    assert!(good.is_well_formed());
    let edge_out = NFA::new(vec![state(2, StateKind::Initial)], 0, vec![]);
    assert!(!edge_out.is_well_formed());
    let start_out = NFA::new(vec![state(0, StateKind::Initial)], 1, vec![]);
    assert!(!start_out.is_well_formed());
    let final_out = NFA::new(vec![state(0, StateKind::Initial)], 0, vec![3]);
    assert!(!final_out.is_well_formed());
    let unlisted = NFA::new(vec![state(0, StateKind::Final)], 0, vec![]);
    assert!(!unlisted.is_well_formed());
    let mislabelled = NFA::new(vec![state(0, StateKind::Normal)], 0, vec![0]);
    assert!(!mislabelled.is_well_formed());
    let empty = NFA::new(vec![], 0, vec![]);
    assert!(!empty.is_well_formed());
}

#[test]
fn characters_and_their_widths() {
    let chars = chars_of_str("aś€😀");
    assert_eq!(chars, vec!['a', 'ś', '€', '😀']);
    assert_eq!(char_at(&chars, 2), '€');
    let widths: Vec<usize> = chars.iter().map(|c| char_len_utf8(*c)).collect();
    assert_eq!(widths, vec![1, 2, 3, 4]);
    for c in ['\u{7f}', '\u{80}', '\u{7ff}', '\u{800}', '\u{ffff}', '\u{10000}', '\u{10ffff}'] {
        assert_eq!(char_len_utf8(c), c.len_utf8());
    }
    assert_eq!(
        classify_text("a1"),
        vec![
            Scalar { value: 'a', numeric: false, alphanumeric: true },
            Scalar { value: '1', numeric: true, alphanumeric: true },
        ]
    );
}

#[test]
fn both_cases_of_a_capital() {
    let opt = NfaOptions { ignore_case: true };
    let nfa = symbol('Q', &opt);
    let edges = &nfa.states[0].transitions;
    assert_eq!(edges[0], Transition { on: Label::Symbol('Q'), to: 1 });
    assert_eq!(edges[1], Transition { on: Label::Symbol('q'), to: 1 });
    assert!(nfa.find_match("q"));
}

#[test]
fn digit_escape_takes_one_character() {
    let nfa = regex_to_nfa("\\d", &NfaOptions::default()).unwrap();
    assert_eq!(nfa.states.len(), 3);
    let found: Vec<(usize, usize)> =
        nfa.find_matches("a12").iter().map(|m| (m.from, m.to)).collect();
    assert_eq!(found, vec![(1, 2), (2, 3)]);
}

#[test]
fn copy_of_an_automaton() {
    let nfa = regex_to_nfa("(ab+a)*", &NfaOptions::default()).unwrap();
    let copy = nfa.clone();
    assert_eq!(copy.initial_state, nfa.initial_state);
    assert_eq!(copy.final_states, nfa.final_states);
    assert_eq!(copy.states.len(), nfa.states.len());
    for (x, y) in copy.states.iter().zip(nfa.states.iter()) {
        assert_eq!(x.transitions, y.transitions);
        assert_eq!(x.kind, y.kind);
    }
    assert_eq!(copy.find_matches("abab"), nfa.find_matches("abab"));
}

#[test]
fn reasons_in_words() {
    assert_eq!(InvalidPattern::UnclosedClass.message(), "'[' is not closed");
    assert_eq!(InvalidPattern::UnmatchedGroupStart.message(), "'(' is not closed");
    assert_eq!(InvalidPattern::UnmatchedGroupEnd.message(), "')' closes no group");
    assert_eq!(
        InvalidPattern::ReservedSymbol.message(),
        "the pattern holds the reserved character '?'"
    );
    assert_eq!(InvalidPattern::DanglingEscape.message(), "nothing follows '\\'");
    assert_eq!(InvalidPattern::MissingOperand.message(), "an operator lacks an operand");
    assert_eq!(
        InvalidPattern::NotOneExpression.message(),
        "the pattern is not one expression"
    );
}
