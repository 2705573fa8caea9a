use perg::nfa::{
    alphanumeric, class_of, digit, digits, kleen, negated_class_of, negative_set_of_chars,
    symbol, union, Label, NfaOptions, State, StateKind, Transition, NFA,
};
use perg::re::regex_to_nfa;
use perg::search::Match;
use perg::text::{classify, Scalar};

#[test]
fn find_match_negative_characters_set() {
    let opt = NfaOptions::default();
    let nfa = negative_set_of_chars(&vec!['a', 'b'], &opt);

    let tests = vec![
        ("apple", true),
        ("banana", true),
        ("ccc", true),
        ("bbb", false),
        ("aaa", false),
    ];

    for (text, expected) in tests {
        println!("{text} {expected}");
        let result = nfa.find_match(text);
        assert_eq!(result, expected);
    }
}

#[test]
fn find_match_alphanumeric() {
    let opt = NfaOptions::default();
    let nfa = alphanumeric(&opt);

    let tests = vec![
        ("", false),
        ("0", true),
        ("1", true),
        ("11231231321312", true),
        ("123", true),
        ("999", true),
        ("9", true),
        ("a", true),
        ("aa", true),
        ("aaa", true),
        ("śćźż", true),
    ];

    for (text, expected) in tests {
        println!("{text} {expected}");
        let result = nfa.find_match(text);
        assert_eq!(result, expected);
    }
}

#[test]
fn find_match_digits() {
    let nfa = digits();

    let tests = vec![
        ("", false),
        ("0", true),
        ("1", true),
        ("11231231321312", true),
        ("123", true),
        ("999", true),
        ("9", true),
        ("a", false),
        ("aa", false),
        ("", false),
        ("aaa", false),
        ("aaaa", false),
        ("aaaaa", false),
        ("ba", false),
        ("bba", false),
        ("bbaa", false),
    ];

    for (text, expected) in tests {
        println!("{text} {expected}");
        let result = nfa.find_match(text);
        assert_eq!(result, expected);
    }
}

#[test]
fn ala_test() {
    let opt = NfaOptions::default();
    let nfa = symbol('b', &opt);
    nfa.find_match("ali baba ali baba");
}

#[test]
fn ala_test_2() {
    let opt = NfaOptions::default();
    let nfa = perg::nfa::concat(symbol('a', &opt), symbol('b', &opt));
    nfa.find_match("Co za baba");
}

#[test]
fn find_match_complex_3() {
    let opt = NfaOptions::default();
    let nfa = regex_to_nfa("\\d\\dabc", &opt).unwrap();

    let tests = vec![
        ("01abc", true),
        ("abc01abc", true),
        ("12313", false),
        ("abc", false),
        ("awjdnakjd", false),
        ("", false),
    ];

    for (text, expected) in tests {
        println!("{text} {expected}");
        let result = nfa.find_match(text);
        assert_eq!(result, expected);
    }
}

#[test]
fn find_match_digit() {
    let nfa = digit();

    let tests = vec![
        ("0", true),
        ("1", true),
        ("9", true),
        ("a", false),
        ("aa", false),
        ("", false),
        ("aaa", false),
        ("aaaa", false),
        ("aaaaa", false),
        ("ba", false),
        ("bba", false),
        ("bbaa", false),
    ];

    for (text, expected) in tests {
        println!("{text} {expected}");
        let result = nfa.find_match(text);
        assert_eq!(result, expected);
    }
}

#[test]
fn find_match_character_sets() {
    let opt = NfaOptions::default();
    let nfa = regex_to_nfa("[abc]", &opt).unwrap();

    let tests = vec![
        ("a", true),
        ("b", true),
        ("c", true),
        ("cc", true),
        ("bb", true),
        ("aa", true),
        ("", false),
        ("x", false),
        ("xa", true),
        ("xb", true),
        ("xc", true),
    ];

    for (text, expected) in tests {
        let result = nfa.find_match(text);
        println!("'{}' expected '{}'", text, expected);
        assert_eq!(result, expected);
    }
}

#[test]
fn find_match_first_symbol() {
    let opt = NfaOptions::default();
    let nfa = symbol('d', &opt);

    let tests = vec![
        ("", false),
        (" ", false),
        ("dog", true),
        ("dom", true),
        ("aa", false),
        ("", false),
        ("aaa", false),
        ("aaaa", false),
        ("aaaaa", false),
    ];

    for (text, expected) in tests {
        let result = nfa.find_match(text);
        println!("'{}' expected '{}'", text, expected);
        assert_eq!(result, expected);
    }
}

#[test]
fn find_match_single_symbol_ignore_case() {
    let opt = NfaOptions { ignore_case: true };
    let nfa = symbol('a', &opt);

    let tests = vec![
        ("", false),
        (" ", false),
        ("a", true),
        ("A", true),
        ("AA", true),
        ("aa", true),
        ("", false),
        ("aaa", true),
        ("aaaa", true),
        ("aaaaa", true),
        ("ba", true),
        ("bba", true),
        ("bbaa", true),
    ];

    for (text, expected) in tests {
        let result = nfa.find_match(text);
        println!("'{}' expected '{}'", text, expected);
        assert_eq!(result, expected);
    }
}

#[test]
fn find_match_single_symbol() {
    let opt = NfaOptions::default();
    let nfa = symbol('a', &opt);

    let tests = vec![
        ("", false),
        (" ", false),
        ("a", true),
        ("aa", true),
        ("", false),
        ("aaa", true),
        ("aaaa", true),
        ("aaaaa", true),
        ("ba", true),
        ("bba", true),
        ("bbaa", true),
    ];

    for (text, expected) in tests {
        let result = nfa.find_match(text);
        println!("'{}' expected '{}'", text, expected);
        assert_eq!(result, expected);
    }
}

#[test]
fn find_match_two_symbols() {
    let opt = NfaOptions::default();
    let nfa = perg::nfa::concat(symbol('a', &opt), symbol('b', &opt));

    let tests = vec![
        ("", false),
        (" ", false),
        ("ab", true),
        ("abb", true),
        ("a", false),
        ("b", false),
        ("", false),
        ("ba", false),
        ("bc", false),
    ];

    for (text, expected) in tests {
        let result = nfa.find_match(text);
        assert_eq!(result, expected);
    }
}

#[test]
fn find_match_four_symbols() {
    let opt = NfaOptions::default();
    let nfa = perg::nfa::concat(
        perg::nfa::concat(symbol('a', &opt), symbol('b', &opt)),
        symbol('c', &opt),
    );

    let tests = vec![
        ("abc", true),
        ("abcc", true),
        ("c", false),
        ("cc", false),
        ("abb", false),
        ("a", false),
        ("b", false),
        ("", false),
        ("ba", false),
        ("bc", false),
    ];

    for (text, expected) in tests {
        let result = nfa.find_match(text);
        assert_eq!(result, expected);
    }
}

#[test]
fn find_match_concat_concat() {
    let opt = NfaOptions::default();
    let nfa = perg::nfa::concat(
        perg::nfa::concat(symbol('a', &opt), symbol('b', &opt)),
        perg::nfa::concat(symbol('c', &opt), symbol('c', &opt)),
    );

    let tests = vec![
        ("abcc", true),
        ("abc", false),
        ("c", false),
        ("cc", false),
        ("abb", false),
        ("a", false),
        ("b", false),
        ("", false),
        ("ba", false),
        ("bc", false),
    ];

    for (text, expected) in tests {
        let result = nfa.find_match(text);
        assert_eq!(result, expected);
    }
}

#[test]
fn construction_kleen_test() {
    let opt = NfaOptions::default();
    let nfa = kleen(symbol('a', &opt));

    // A star accepts the empty stretch, which every text holds.
    let tests = vec![
        ("c", true),
        ("", true),
        ("a", true),
        ("aa", true),
        ("aaa", true),
        ("ab", true),
        ("b", true),
        ("bbbbb", true),
    ];

    for (text, expected) in tests {
        let result = nfa.find_match(text);
        println!(
            "Input: '{}' expected: '{}', result: '{}'",
            text, expected, result
        );
        assert_eq!(result, expected);
    }
}

#[test]
fn construction_union_test() {
    let opt = NfaOptions::default();
    let nfa = union(symbol('a', &opt), symbol('b', &opt));

    let tests = vec![
        ("a", true),
        ("b", true),
        ("c", false),
        ("ab", true),
        ("aa", true),
        ("bb", true),
        ("", false),
        ("aab", true),
        ("baa", true),
    ];

    for (text, expected) in tests {
        let result = nfa.find_match(text);
        println!("'{}' expected '{}'", text, expected);
        assert_eq!(result, expected);
    }
}

fn spans(matches: &Vec<Match>) -> Vec<(usize, usize, usize)> {
    matches.iter().map(|m| (m.from, m.to, m.line)).collect()
}

#[test]
fn find_matches_two_digits_then_abc() {
    let opt = NfaOptions::default();
    let nfa = regex_to_nfa("\\d\\dabc", &opt).unwrap();
    let matches = nfa.find_matches("01abc\nabc01abc\n12313\nabc");
    assert_eq!(spans(&matches), vec![(0, 5, 0), (3, 8, 1)]);
}

#[test]
fn find_matches_class_ignoring_case() {
    let opt = NfaOptions { ignore_case: true };
    let nfa = regex_to_nfa("[abc]", &opt).unwrap();
    let matches = nfa.find_matches("Apple BANANA");
    assert_eq!(
        spans(&matches),
        vec![(0, 1, 0), (6, 7, 0), (7, 8, 0), (9, 10, 0), (11, 12, 0)]
    );
}

#[test]
fn find_matches_on_empty_text_is_empty() {
    let opt = NfaOptions::default();
    for pattern in ["a", "a*", "(ab+a)*", "[^a]", "\\d", "\\w"] {
        let nfa = regex_to_nfa(pattern, &opt).unwrap();
        assert!(nfa.find_matches("").is_empty());
    }
}

#[test]
fn find_matches_keeps_the_longest_from_each_start() {
    let opt = NfaOptions::default();
    let nfa = regex_to_nfa("a*", &opt).unwrap();
    assert_eq!(
        spans(&nfa.find_matches("aab")),
        vec![(0, 2, 0), (1, 2, 0), (2, 2, 0)]
    );
    let nfa = regex_to_nfa("ab+abab", &opt).unwrap();
    assert_eq!(spans(&nfa.find_matches("abab")), vec![(0, 4, 0), (2, 4, 0)]);
}

#[test]
fn find_matches_counts_bytes_and_lines() {
    let opt = NfaOptions::default();
    let nfa = regex_to_nfa("b", &opt).unwrap();
    let matches = nfa.find_matches("śb\n\nźćb€b\n");
    assert_eq!(spans(&matches), vec![(2, 3, 0), (4, 5, 2), (8, 9, 2)]);
}

#[test]
fn find_matches_are_in_order() {
    let opt = NfaOptions::default();
    let nfa = regex_to_nfa("a", &opt).unwrap();
    let matches = nfa.find_matches("aa\nba\na");
    assert_eq!(
        spans(&matches),
        vec![(0, 1, 0), (1, 2, 0), (1, 2, 1), (0, 1, 2)]
    );
}

#[test]
fn literal_edge_wins_over_wildcard() {
    let opt = NfaOptions::default();
    let negated = negative_set_of_chars(&vec!['x'], &opt);
    assert!(!negated.find_match("x"));
    assert!(negated.find_match("y"));
}

#[test]
fn classified_text_decides() {
    let nfa = digit();
    let as_digit = vec![Scalar { value: 'q', numeric: true, alphanumeric: true }];
    let as_letter = vec![Scalar { value: '7', numeric: false, alphanumeric: true }];
    assert!(nfa.find_match_classified(&as_digit));
    assert!(!nfa.find_match_classified(&as_letter));
    assert!(nfa.find_match_inner(&as_digit, 0));
    assert!(!nfa.find_match_inner(&as_digit, 1));
    let found = nfa.find_matches_classified(&as_digit);
    assert_eq!(spans(&found), vec![(0, 1, 0)]);
    assert_eq!(nfa.find_matches_inner(&as_letter, 0, 0, 4), None);
    assert_eq!(
        nfa.find_matches_inner(&as_digit, 0, 0, 4),
        Some(Match { from: 0, to: 1, line: 4 })
    );
}

#[test]
fn classify_asks_unicode() {
    assert_eq!(classify('7'), Scalar { value: '7', numeric: true, alphanumeric: true });
    assert_eq!(classify('ś'), Scalar { value: 'ś', numeric: false, alphanumeric: true });
    assert_eq!(classify(' '), Scalar { value: ' ', numeric: false, alphanumeric: false });
    assert_eq!(classify('½'), Scalar { value: '½', numeric: true, alphanumeric: true });
}

#[test]
fn case_mapping_keeps_the_first_scalar() {
    let opt = NfaOptions { ignore_case: true };
    let nfa = symbol('ß', &opt);
    let edges = &nfa.states[0].transitions;
    assert_eq!(edges[0], Transition { on: Label::Symbol('S'), to: 1 });
    assert_eq!(edges[1], Transition { on: Label::Symbol('ß'), to: 1 });
    let nfa = symbol('a', &opt);
    let edges = &nfa.states[0].transitions;
    assert_eq!(edges[0], Transition { on: Label::Symbol('A'), to: 1 });
    assert_eq!(edges[1], Transition { on: Label::Symbol('a'), to: 1 });
    let nfa = negative_set_of_chars(&vec!['a'], &opt);
    let edges = &nfa.states[0].transitions;
    assert_eq!(edges[0], Transition { on: Label::Symbol('a'), to: 2 });
    assert_eq!(edges[1], Transition { on: Label::Symbol('A'), to: 2 });
}

#[test]
fn class_automata_have_three_states() {
    let nfa = class_of(&vec![Label::Symbol('a'), Label::AnyDigit]);
    assert_eq!(nfa.states.len(), 3);
    assert_eq!(nfa.initial_state, 0);
    assert_eq!(nfa.final_states, vec![1]);
    assert_eq!(nfa.states[0].kind, StateKind::Initial);
    assert_eq!(nfa.states[1].kind, StateKind::Final);
    assert_eq!(nfa.states[2].kind, StateKind::Failed);
    assert_eq!(
        nfa.states[0].transitions,
        vec![
            Transition { on: Label::Symbol('a'), to: 1 },
            Transition { on: Label::AnyDigit, to: 1 },
            Transition { on: Label::AnyOtherChar, to: 2 },
        ]
    );
    assert_eq!(nfa.states[1].transitions, vec![Transition { on: Label::AnyOtherChar, to: 2 }]);
    let negated = negated_class_of(&vec![Label::Symbol('a')]);
    assert_eq!(
        negated.states[0].transitions,
        vec![
            Transition { on: Label::Symbol('a'), to: 2 },
            Transition { on: Label::AnyOtherChar, to: 1 },
        ]
    );
    assert!(negated.states[1].transitions.is_empty());
}

#[test]
fn concat_links_finals_to_the_second_start() {
    let opt = NfaOptions::default();
    let nfa = perg::nfa::concat(symbol('a', &opt), symbol('b', &opt));
    assert_eq!(nfa.states.len(), 6);
    assert_eq!(nfa.initial_state, 0);
    assert_eq!(nfa.final_states, vec![4]);
    assert_eq!(nfa.states[1].kind, StateKind::Normal);
    assert_eq!(
        nfa.states[1].transitions,
        vec![
            Transition { on: Label::AnyOtherChar, to: 2 },
            Transition { on: Label::Epsilon, to: 3 },
        ]
    );
    assert_eq!(
        nfa.states[3].transitions,
        vec![
            Transition { on: Label::Symbol('b'), to: 4 },
            Transition { on: Label::AnyOtherChar, to: 5 },
        ]
    );
}

#[test]
fn union_adds_a_start_and_an_end() {
    let opt = NfaOptions::default();
    let nfa = union(symbol('a', &opt), symbol('b', &opt));
    assert_eq!(nfa.states.len(), 8);
    assert_eq!(nfa.initial_state, 6);
    assert_eq!(nfa.final_states, vec![7]);
    assert_eq!(
        nfa.states[6].transitions,
        vec![
            Transition { on: Label::Epsilon, to: 0 },
            Transition { on: Label::Epsilon, to: 3 },
        ]
    );
    assert_eq!(nfa.states[1].kind, StateKind::Normal);
    assert_eq!(nfa.states[4].kind, StateKind::Normal);
    assert_eq!(nfa.states[7].kind, StateKind::Final);
    assert_eq!(nfa.states[4].transitions[1], Transition { on: Label::Epsilon, to: 7 });
}

#[test]
fn star_loops_back() {
    let opt = NfaOptions::default();
    let nfa = kleen(symbol('a', &opt));
    assert_eq!(nfa.states.len(), 5);
    assert_eq!(nfa.initial_state, 4);
    assert_eq!(nfa.final_states, vec![3]);
    assert_eq!(
        nfa.states[1].transitions,
        vec![
            Transition { on: Label::AnyOtherChar, to: 2 },
            Transition { on: Label::Epsilon, to: 3 },
            Transition { on: Label::Epsilon, to: 0 },
        ]
    );
    assert_eq!(
        nfa.states[4].transitions,
        vec![
            Transition { on: Label::Epsilon, to: 0 },
            Transition { on: Label::Epsilon, to: 1 },
        ]
    );
}

#[test]
fn star_of_star_ends() {
    let opt = NfaOptions::default();
    let nfa = kleen(kleen(symbol('a', &opt)));
    assert!(nfa.find_match("aaa"));
    assert_eq!(spans(&nfa.find_matches("aab")), vec![(0, 2, 0), (1, 2, 0), (2, 2, 0)]);
}

#[test]
fn automaton_put_together_by_hand() {
    let mut first = State::new(vec![], StateKind::Initial);
    first.add_transition(Label::Symbol('x'), 1);
    let second = State::new(vec![Transition::new(Label::Epsilon, 0)], StateKind::Final);
    let nfa = NFA::new(vec![first, second], 0, vec![1]);
    assert!(nfa.find_match("x"));
    assert!(!nfa.find_match("y"));
    assert_eq!(spans(&nfa.find_matches("xxy")), vec![(0, 2, 0), (1, 2, 0)]);
}
