use perg::nfa::{
    alphanumeric, digit, digits, kleen, negative_set_of_chars, set_of_chars, symbol, union,
    NfaOptions,
};
use perg::re::{insert_concat_symbol, regex_to_nfa, shunting_yard, InvalidPattern};

#[test]
fn insert_concat_underscore() {
    assert_eq!("a?_?b", insert_concat_symbol("a_b"));
}

#[test]
fn insert_concat_no_insert_needed() {
    assert_eq!("a", insert_concat_symbol("a"));
}

#[test]
fn insert_concat_two_symbols() {
    assert_eq!("a?b", insert_concat_symbol("ab"));
}

#[test]
fn insert_concat_ignore_char_sets() {
    assert_eq!("[abc]", insert_concat_symbol("[abc]"));
}

#[test]
fn insert_concat_ignore_char_sets_and_nothing_else_1() {
    assert_eq!("[abc]?a", insert_concat_symbol("[abc]a"));
}

#[test]
fn insert_concat_ignore_char_sets_and_nothing_else() {
    assert_eq!("[abc]?a+b", insert_concat_symbol("[abc]a+b"));
}

#[test]
fn insert_concat_decimal() {
    assert_eq!("\\d", insert_concat_symbol("\\d"));
}

#[test]
fn insert_concat_word() {
    assert_eq!("\\w", insert_concat_symbol("\\w"));
}

#[test]
fn insert_concat_complex() {
    assert_eq!("a?(a+b)*?b", insert_concat_symbol("a(a+b)*b"));
}

#[test]
fn shunting_yard_empty_input() {
    let output = shunting_yard("").unwrap();
    assert_eq!(output, String::from(""));
}

#[test]
fn shunting_yard_ignore_negative_character_groups() {
    let output = shunting_yard("[^abc]").unwrap();
    assert_eq!(output, String::from("[^abc]"));
}

#[test]
fn shunting_yard_ignore_negative_character_groups_and_nothing_else_1() {
    let output = shunting_yard("[^abc]a").unwrap();
    assert_eq!(output, String::from("[^abc]a?"));
}

#[test]
fn shunting_yard_ignore_character_groups() {
    let output = shunting_yard("[abc]").unwrap();
    assert_eq!(output, String::from("[abc]"));
}

#[test]
fn shunting_yard_ignore_character_groups_and_nothing_else_1() {
    let output = shunting_yard("[abc]a").unwrap();
    assert_eq!(output, String::from("[abc]a?"));
}

#[test]
fn shunting_yard_concat_of_groups() {
    let output = shunting_yard("(ab)(ab)").unwrap();
    assert_eq!(output, String::from("ab?ab??"));
}

#[test]
fn shunting_yard_complex_example() {
    let output = shunting_yard("a(a+b)*b").unwrap();
    assert_eq!(output, String::from("aab+*?b?"));
}

#[test]
fn shunting_yard_concat_with_char_set() {
    let output = shunting_yard("[ab]c").unwrap();
    assert_eq!(output, String::from("[ab]c?"));
}

#[test]
fn shunting_yard_underscore() {
    let output = shunting_yard("a_b").unwrap();
    assert_eq!(output, String::from("a_?b?"));
}

#[test]
fn shunting_yard_long_concat() {
    let output = shunting_yard("abcdefghijk").unwrap();
    assert_eq!(output, String::from("ab?c?d?e?f?g?h?i?j?k?"));
}

#[test]
fn shunting_yard_concat() {
    let output = shunting_yard("ab").unwrap();
    assert_eq!(output, String::from("ab?"));
}

#[test]
fn shunting_yard_decimal() {
    let output = shunting_yard("\\d").unwrap();
    assert_eq!(output, String::from("\\d"));
}

#[test]
fn shunting_yard_word() {
    let output = shunting_yard("\\w").unwrap();
    assert_eq!(output, String::from("\\w"));
}

#[test]
fn shunting_yard_union() {
    let output = shunting_yard("a+b").unwrap();
    assert_eq!(output, String::from("ab+"));
}

#[test]
fn regex_to_nfa_negative_character_set() {
    let opt = NfaOptions::default();
    let nfa = negative_set_of_chars(&vec!['a', 'b'], &opt);
    let outcome = regex_to_nfa("[^ab]", &opt).unwrap();

    let tests = vec!["a", "b", "c", "ab", "ac", "abc", "", "xyz"];
    for example in tests {
        println!("{}", example);
        assert_eq!(nfa.find_match(example), outcome.find_match(example));
    }
}

#[test]
fn regex_to_nfa_character_set() {
    let opt = NfaOptions::default();
    let nfa = set_of_chars(&vec!['a', 'b', 'c'], &opt);
    let outcome = regex_to_nfa("[abc]", &opt).unwrap();

    let tests = vec!["a", "b", "c", "ab", "ac", "abc", "", "xyz"];
    for example in tests {
        println!("{}", example);
        assert_eq!(nfa.find_match(example), outcome.find_match(example));
    }
}

#[test]
fn regex_to_nfa_alphanumeric() {
    let opt = NfaOptions::default();
    let nfa = alphanumeric(&opt);
    let outcome = regex_to_nfa("\\w", &opt).unwrap();

    let tests = vec!["0", "123", "aa", "", "a", "bb", "abababa"];
    for example in tests {
        assert_eq!(nfa.find_match(example), outcome.find_match(example));
    }
}

#[test]
fn regex_to_nfa_digits() {
    let opt = NfaOptions::default();
    let nfa = digits();
    let outcome = regex_to_nfa("\\d", &opt).unwrap();

    let tests = vec!["0", "123", "aa", "", "a", "bb", "abababa"];
    for example in tests {
        assert_eq!(nfa.find_match(example), outcome.find_match(example));
    }
}

#[test]
fn regex_to_nfa_single_char_ignore_case() {
    let opt = NfaOptions { ignore_case: true };
    let nfa = symbol('a', &opt);
    let outcome = regex_to_nfa("a", &opt).unwrap();

    let tests = vec!["aa", "", "a", "bb", "abababa", "A"];
    for example in tests {
        assert_eq!(nfa.find_match(example), outcome.find_match(example));
    }
}

#[test]
fn regex_to_nfa_single_char() {
    let opt = NfaOptions::default();
    let nfa = symbol('a', &opt);
    let outcome = regex_to_nfa("a", &opt).unwrap();

    let tests = vec!["aa", "", "a", "bb", "abababa"];
    for example in tests {
        assert_eq!(nfa.find_match(example), outcome.find_match(example));
    }
}

#[test]
fn regex_to_nfa_ignore_case() {
    let opt = NfaOptions { ignore_case: true };
    let nfa = kleen(symbol('a', &opt));
    let outcome = regex_to_nfa("a*", &opt).unwrap();

    let tests = vec!["a", "aa", "A", "aaa", "ab", "bbb"];
    for example in tests {
        assert_eq!(nfa.find_match(example), outcome.find_match(example));
    }
}

#[test]
fn regex_to_nfa_kleen() {
    let opt = NfaOptions::default();
    let nfa = kleen(symbol('a', &opt));
    let outcome = regex_to_nfa("a*", &opt).unwrap();

    let tests = vec!["a", "aa", "aaa", "ab", "bbb"];
    for example in tests {
        assert_eq!(nfa.find_match(example), outcome.find_match(example));
    }
}

#[test]
fn regex_to_nfa_complex_2() {
    let opt = NfaOptions::default();
    let outcome = regex_to_nfa("(0+11+10(00+1)*01)*", &opt).unwrap();
    let nfa = kleen(union(
        symbol('0', &opt),
        union(
            perg::nfa::concat(symbol('1', &opt), symbol('1', &opt)),
            perg::nfa::concat(
                perg::nfa::concat(symbol('1', &opt), symbol('0', &opt)),
                perg::nfa::concat(
                    kleen(union(
                        perg::nfa::concat(symbol('0', &opt), symbol('0', &opt)),
                        symbol('1', &opt),
                    )),
                    perg::nfa::concat(symbol('0', &opt), symbol('1', &opt)),
                ),
            ),
        ),
    ));
    let tests = vec!["11", "100", "101", "110", "1", "100001"];
    for example in tests {
        let x = nfa.find_match(example);
        let y = outcome.find_match(example);
        assert_eq!(x, y);
    }
}

#[test]
fn regex_to_nfa_complex() {
    let opt = NfaOptions::default();
    let nfa = kleen(union(
        perg::nfa::concat(symbol('a', &opt), symbol('b', &opt)),
        symbol('a', &opt),
    ));
    let outcome = regex_to_nfa("(ab+a)*", &opt).unwrap();

    let tests = vec!["ab", "", "aa", "ababab", "bbbaaa"];
    for example in tests {
        let x = nfa.find_match(example);
        let y = outcome.find_match(example);
        assert_eq!(x, y);
    }
}

#[test]
fn star_of_alternatives_accepts_with_no_repetition() {
    let opt = NfaOptions::default();
    let nfa = regex_to_nfa("(ab+a)*", &opt).unwrap();
    assert!(nfa.find_match("ababab"));
    assert!(nfa.find_match("bbbaaa"));
    assert!(nfa.find_match(""));
}

#[test]
fn compiled_pattern_is_built_as_by_hand() {
    let opt = NfaOptions::default();
    let by_hand = kleen(union(
        perg::nfa::concat(symbol('a', &opt), symbol('b', &opt)),
        symbol('a', &opt),
    ));
    let compiled = regex_to_nfa("(ab+a)*", &opt).unwrap();
    assert_eq!(by_hand.states.len(), compiled.states.len());
    assert_eq!(by_hand.initial_state, compiled.initial_state);
    assert_eq!(by_hand.final_states, compiled.final_states);
    for (x, y) in by_hand.states.iter().zip(compiled.states.iter()) {
        assert_eq!(x.transitions, y.transitions);
        assert_eq!(x.kind, y.kind);
    }
}

#[test]
fn pattern_with_unbalanced_group_is_refused() {
    let opt = NfaOptions::default();
    assert_eq!(
        regex_to_nfa("(ab", &opt).err(),
        Some(InvalidPattern::UnmatchedGroupStart)
    );
    assert_eq!(
        regex_to_nfa("ab)", &opt).err(),
        Some(InvalidPattern::UnmatchedGroupEnd)
    );
    assert_eq!(shunting_yard("a)").err(), Some(InvalidPattern::UnmatchedGroupEnd));
    assert_eq!(shunting_yard("((a)").err(), Some(InvalidPattern::UnmatchedGroupStart));
}

#[test]
fn pattern_with_open_class_is_refused() {
    let opt = NfaOptions::default();
    assert_eq!(regex_to_nfa("[ab", &opt).err(), Some(InvalidPattern::UnclosedClass));
    assert_eq!(shunting_yard("a[b").err(), Some(InvalidPattern::UnclosedClass));
}

#[test]
fn pattern_with_the_marker_is_refused() {
    let opt = NfaOptions::default();
    assert_eq!(regex_to_nfa("a?b", &opt).err(), Some(InvalidPattern::ReservedSymbol));
    assert_eq!(shunting_yard("?").err(), Some(InvalidPattern::ReservedSymbol));
}

#[test]
fn empty_pattern_is_refused() {
    let opt = NfaOptions::default();
    assert_eq!(regex_to_nfa("", &opt).err(), Some(InvalidPattern::NotOneExpression));
}

#[test]
fn operator_without_operand_is_refused() {
    let opt = NfaOptions::default();
    assert_eq!(regex_to_nfa("*", &opt).err(), Some(InvalidPattern::MissingOperand));
    assert_eq!(regex_to_nfa("a+", &opt).err(), Some(InvalidPattern::MissingOperand));
    assert_eq!(regex_to_nfa("+a", &opt).err(), Some(InvalidPattern::MissingOperand));
}

#[test]
fn backslash_at_the_end_is_refused() {
    let opt = NfaOptions::default();
    assert_eq!(regex_to_nfa("\\", &opt).err(), Some(InvalidPattern::DanglingEscape));
    assert_eq!(regex_to_nfa("(a)\\", &opt).err(), Some(InvalidPattern::MissingOperand));
}

#[test]
fn class_after_an_operand_is_concatenated() {
    let opt = NfaOptions::default();
    assert_eq!(insert_concat_symbol("a[bc]"), "a?[bc]");
    assert_eq!(insert_concat_symbol("[ab][cd]"), "[ab]?[cd]");
    assert_eq!(insert_concat_symbol("(ab+a)*[^c]"), "(a?b+a)*?[^c]");
    assert_eq!(insert_concat_symbol("a*[b]"), "a*?[b]");
    assert_eq!(insert_concat_symbol("\\d[b]\\w"), "\\d?[b]?\\w");
    assert_eq!(insert_concat_symbol("(a)[b](c)"), "(a)?[b]?(c)");
    assert_eq!(insert_concat_symbol("a+[b]"), "a+[b]");
    assert_eq!(insert_concat_symbol("([b])"), "([b])");
    assert_eq!(shunting_yard("a[bc]").unwrap(), "a[bc]?");
    assert_eq!(shunting_yard("[ab][cd]").unwrap(), "[ab][cd]?");
    let by_hand = perg::nfa::concat(symbol('a', &opt), set_of_chars(&vec!['b', 'c'], &opt));
    let compiled = regex_to_nfa("a[bc]", &opt).unwrap();
    assert_eq!(by_hand.states.len(), compiled.states.len());
    assert_eq!(by_hand.initial_state, compiled.initial_state);
    assert_eq!(by_hand.final_states, compiled.final_states);
    for (x, y) in by_hand.states.iter().zip(compiled.states.iter()) {
        assert_eq!(x.transitions, y.transitions);
        assert_eq!(x.kind, y.kind);
    }
    assert!(compiled.find_match("ab"));
    assert!(compiled.find_match("xac"));
    assert!(!compiled.find_match("ad"));
    assert!(!compiled.find_match("b"));
    let two = regex_to_nfa("[ab][cd]", &opt).unwrap();
    assert!(two.find_match("bc"));
    assert!(!two.find_match("ab"));
    let after_star = regex_to_nfa("(ab+a)*[^c]", &opt).unwrap();
    assert!(after_star.find_match("abx"));
    assert!(!after_star.find_match("c"));
}

#[test]
fn nothing_is_inserted_inside_a_class() {
    assert_eq!(insert_concat_symbol("[a[b]c"), "[a[b]?c");
    assert_eq!(insert_concat_symbol("[ab(c)]"), "[ab(c)]");
    assert_eq!(insert_concat_symbol("x[]y"), "x?[]?y");
    assert_eq!(insert_concat_symbol("a]b"), "a]?b");
}

#[test]
fn insertion_leaves_a_pattern_without_gaps_unchanged() {
    for pattern in ["a", "a+b", "(a)", "a*", "\\d", "[abc]", "(a+b)*", "a+[bc]"] {
        let once = insert_concat_symbol(pattern);
        assert_eq!(once, pattern);
        assert_eq!(insert_concat_symbol(&once), once);
    }
}

#[test]
fn insertion_is_not_idempotent_where_it_inserts() {
    let once = insert_concat_symbol("ab");
    assert_eq!(once, "a?b");
    assert_eq!(insert_concat_symbol(&once), "a??b");
}

#[test]
fn postfix_is_the_same_for_the_same_pattern() {
    let first = shunting_yard("a(a+b)*b[()]").unwrap();
    let second = shunting_yard("a(a+b)*b[()]").unwrap();
    assert_eq!(first, second);
    assert_eq!(first, "aab+*?b?[()]?");
}

#[test]
fn postfix_holds_the_tokens_of_the_pattern_and_markers() {
    let pattern = "(a+b)*c(de)";
    let postfix = shunting_yard(pattern).unwrap();
    assert_eq!(postfix, "ab+*c?de??");
    assert!(!postfix.contains('('));
    assert!(!postfix.contains(')'));
    let mut expected: Vec<char> = insert_concat_symbol(pattern)
        .chars()
        .filter(|c| *c != '(' && *c != ')')
        .collect();
    let mut got: Vec<char> = postfix.chars().collect();
    expected.sort();
    got.sort();
    assert_eq!(expected, got);
}

#[test]
fn leading_caret_negates_and_later_caret_is_a_member() {
    let opt = NfaOptions::default();
    let negated = regex_to_nfa("[^a]", &opt).unwrap();
    assert!(!negated.find_match("a"));
    assert!(negated.find_match("b"));
    let member = regex_to_nfa("[a^]", &opt).unwrap();
    assert!(member.find_match("^"));
    assert!(member.find_match("a"));
    assert!(!member.find_match("b"));
}

#[test]
fn negation_ends_with_its_class() {
    let opt = NfaOptions::default();
    let nfa = regex_to_nfa("[^a][b]", &opt).unwrap();
    assert!(nfa.find_match("cb"));
    assert!(!nfa.find_match("cc"));
    assert!(!nfa.find_match("ab"));
}

#[test]
fn ignore_case_duplicates_class_members() {
    let opt = NfaOptions { ignore_case: true };
    let nfa = regex_to_nfa("[abc]", &opt).unwrap();
    assert!(nfa.find_match("B"));
    assert!(nfa.find_match("b"));
    assert!(!nfa.find_match("D"));
    let literal = symbol('q', &opt);
    assert_eq!(literal.states[0].transitions.len(), 3);
    let plain = symbol('q', &NfaOptions::default());
    assert_eq!(plain.states[0].transitions.len(), 2);
}

#[test]
fn written_tree_compiles_to_its_composition() {
    let opt = NfaOptions { ignore_case: true };
    let by_hand = kleen(union(
        perg::nfa::concat(symbol('a', &opt), digit()),
        negative_set_of_chars(&vec!['c', 'd'], &opt),
    ));
    let compiled = regex_to_nfa("(((a\\d)+[^cd])*)", &opt).unwrap();
    assert_eq!(insert_concat_symbol("(((a\\d)+[^cd])*)"), "(((a?\\d)+[^cd])*)");
    assert_eq!(shunting_yard("(((a\\d)+[^cd])*)").unwrap(), "a\\d?[^cd]+*");
    assert_eq!(shunting_yard("((((a)(\\d))+([^cd]))*)").unwrap(), "a\\d?[^cd]+*");
    assert_eq!(shunting_yard("(a\\d+[^cd])*").unwrap(), "a\\d?[^cd]+*");
    assert_eq!(by_hand.states.len(), compiled.states.len());
    assert_eq!(by_hand.initial_state, compiled.initial_state);
    assert_eq!(by_hand.final_states, compiled.final_states);
    for (x, y) in by_hand.states.iter().zip(compiled.states.iter()) {
        assert_eq!(x.transitions, y.transitions);
        assert_eq!(x.kind, y.kind);
    }
    for text in ["", "a1", "A7x", "c", "ca", "a", "zzz"] {
        assert_eq!(by_hand.find_match(text), compiled.find_match(text));
        assert_eq!(by_hand.find_matches(text), compiled.find_matches(text));
    }
}

#[test]
fn class_automaton_accepts_one_character_of_the_class() {
    let opt = NfaOptions::default();
    let class = set_of_chars(&vec!['a', 'b'], &opt);
    let complement = negative_set_of_chars(&vec!['a', 'b'], &opt);
    let whole = |nfa: &perg::nfa::NFA, text: &str| {
        nfa.find_matches(text).iter().any(|m| m.from == 0 && m.to == text.len())
    };
    assert!(whole(&class, "a"));
    assert!(whole(&class, "b"));
    assert!(!whole(&class, "c"));
    assert!(!whole(&class, "ab"));
    assert!(!whole(&class, "aa"));
    assert!(!whole(&complement, "a"));
    assert!(whole(&complement, "c"));
    assert!(!whole(&complement, "cc"));
}

/// Whether the automaton of `pattern` accepts the whole of `text`, which is
/// not empty.
fn accepts(pattern: &str, text: &str) -> bool {
    let nfa = regex_to_nfa(pattern, &NfaOptions::default()).unwrap();
    nfa.find_matches(text).iter().any(|m| m.line == 0 && m.from == 0 && m.to == text.len())
}

#[test]
fn compiled_pattern_accepts_what_it_stands_for() {
    assert!(accepts("(ab)", "ab"));
    assert!(!accepts("(ab)", "a"));
    assert!(!accepts("(ab)", "abb"));
    assert!(accepts("(a[bc])", "ac"));
    assert!(!accepts("(a[bc])", "ad"));
    assert!(accepts("([ab][^ab])", "bz"));
    assert!(!accepts("([ab][^ab])", "ba"));
    assert!(accepts("((a)+(b))", "a"));
    assert!(accepts("((a)+(b))", "b"));
    assert!(!accepts("((a)+(b))", "ab"));
    assert!(accepts("((a)*)", "aaa"));
    assert!(!accepts("((a)*)", "aab"));
    assert!(accepts("((((a)(b))+(a))*)", "abaab"));
    assert!(!accepts("((((a)(b))+(a))*)", "abb"));
    assert!(accepts("(((\\d)*)(\\w))", "123x"));
    assert!(!accepts("(((\\d)*)(\\w))", "123-"));
    assert!(accepts("(0+11+10(00+1)*01)*", "1001"));
    assert!(accepts("(0+11+10(00+1)*01)*", "110"));
    assert!(!accepts("(0+11+10(00+1)*01)*", "10"));
}
