use perg::nfa::{
    alphanumeric, digit, digits, kleen, negative_set_of_chars, symbol, union, NfaOptions,
};
use perg::re::regex_to_nfa;

#[test]
fn nfa_find_match_negative_characters_set() {
    let opt = NfaOptions::default();
    let nfa = negative_set_of_chars(&vec!['a', 'b'], &opt);

    let tests = vec![
        ("apple", true),
        ("banana", true),
        ("ccc", true),
        ("bbb", false),
        ("aaa", false),
    ];

    for (text, expected) in tests {
        println!("{text} {expected}");
        let result = nfa.find_match(text);
        assert_eq!(result, expected);
    }
}

#[test]
fn nfa_find_match_alphanumeric() {
    let opt = NfaOptions::default();
    let nfa = alphanumeric(&opt);

    let tests = vec![
        ("", false),
        ("0", true),
        ("1", true),
        ("11231231321312", true),
        ("123", true),
        ("999", true),
        ("9", true),
        ("a", true),
        ("aa", true),
        ("aaa", true),
        ("śćźż", true),
    ];

    for (text, expected) in tests {
        println!("{text} {expected}");
        let result = nfa.find_match(text);
        assert_eq!(result, expected);
    }
}

#[test]
fn nfa_find_match_digits() {
    let nfa = digits();

    let tests = vec![
        ("", false),
        ("0", true),
        ("1", true),
        ("11231231321312", true),
        ("123", true),
        ("999", true),
        ("9", true),
        ("a", false),
        ("aa", false),
        ("", false),
        ("aaa", false),
        ("aaaa", false),
        ("aaaaa", false),
        ("ba", false),
        ("bba", false),
        ("bbaa", false),
    ];

    for (text, expected) in tests {
        println!("{text} {expected}");
        let result = nfa.find_match(text);
        assert_eq!(result, expected);
    }
}

#[test]
fn nfa_ala_test() {
    let opt = NfaOptions::default();
    let nfa = symbol('b', &opt);
    nfa.find_match("ali baba ali baba");
}

#[test]
fn nfa_ala_test_2() {
    let opt = NfaOptions::default();
    let nfa = perg::nfa::concat(symbol('a', &opt), symbol('b', &opt));
    nfa.find_match("Co za baba");
}

#[test]
fn nfa_find_match_digit() {
    let nfa = digit();

    let tests = vec![
        ("0", true),
        ("1", true),
        ("9", true),
        ("a", false),
        ("aa", false),
        ("", false),
        ("aaa", false),
        ("aaaa", false),
        ("aaaaa", false),
        ("ba", false),
        ("bba", false),
        ("bbaa", false),
    ];

    for (text, expected) in tests {
        println!("{text} {expected}");
        let result = nfa.find_match(text);
        assert_eq!(result, expected);
    }
}

#[test]
fn nfa_find_match_character_sets() {
    let opt = NfaOptions::default();
    let nfa = regex_to_nfa("[abc]", &opt).unwrap();

    let tests = vec![
        ("a", true),
        ("b", true),
        ("c", true),
        ("cc", true),
        ("bb", true),
        ("aa", true),
        ("", false),
        ("x", false),
        ("xa", true),
        ("xb", true),
        ("xc", true),
    ];

    for (text, expected) in tests {
        let result = nfa.find_match(text);
        println!("'{}' expected '{}'", text, expected);
        assert_eq!(result, expected);
    }
}

#[test]
fn nfa_find_match_first_symbol() {
    let opt = NfaOptions::default();
    let nfa = symbol('d', &opt);

    let tests = vec![
        ("", false),
        (" ", false),
        ("dog", true),
        ("dom", true),
        ("aa", false),
        ("", false),
        ("aaa", false),
        ("aaaa", false),
        ("aaaaa", false),
    ];

    for (text, expected) in tests {
        let result = nfa.find_match(text);
        println!("'{}' expected '{}'", text, expected);
        assert_eq!(result, expected);
    }
}

#[test]
fn nfa_find_match_single_symbol() {
    let opt = NfaOptions::default();
    let nfa = symbol('a', &opt);

    let tests = vec![
        ("", false),
        (" ", false),
        ("a", true),
        ("aa", true),
        ("", false),
        ("aaa", true),
        ("aaaa", true),
        ("aaaaa", true),
        ("ba", true),
        ("bba", true),
        ("bbaa", true),
    ];

    for (text, expected) in tests {
        let result = nfa.find_match(text);
        println!("'{}' expected '{}'", text, expected);
        assert_eq!(result, expected);
    }
}

#[test]
fn nfa_find_match_two_symbols() {
    let opt = NfaOptions::default();
    let nfa = perg::nfa::concat(symbol('a', &opt), symbol('b', &opt));

    let tests = vec![
        ("", false),
        (" ", false),
        ("ab", true),
        ("abb", true),
        ("a", false),
        ("b", false),
        ("", false),
        ("ba", false),
        ("bc", false),
    ];

    for (text, expected) in tests {
        let result = nfa.find_match(text);
        assert_eq!(result, expected);
    }
}

#[test]
fn nfa_find_match_four_symbols() {
    let opt = NfaOptions::default();
    let nfa = perg::nfa::concat(
        perg::nfa::concat(symbol('a', &opt), symbol('b', &opt)),
        symbol('c', &opt),
    );

    let tests = vec![
        ("abc", true),
        ("abcc", true),
        ("c", false),
        ("cc", false),
        ("abb", false),
        ("a", false),
        ("b", false),
        ("", false),
        ("ba", false),
        ("bc", false),
    ];

    for (text, expected) in tests {
        let result = nfa.find_match(text);
        assert_eq!(result, expected);
    }
}

#[test]
fn nfa_find_match_concat_concat() {
    let opt = NfaOptions::default();
    let nfa = perg::nfa::concat(
        perg::nfa::concat(symbol('a', &opt), symbol('b', &opt)),
        perg::nfa::concat(symbol('c', &opt), symbol('c', &opt)),
    );

    let tests = vec![
        ("abcc", true),
        ("abc", false),
        ("c", false),
        ("cc", false),
        ("abb", false),
        ("a", false),
        ("b", false),
        ("", false),
        ("ba", false),
        ("bc", false),
    ];

    for (text, expected) in tests {
        let result = nfa.find_match(text);
        assert_eq!(result, expected);
    }
}

#[test]
fn nfa_construction_kleen_test() {
    let opt = NfaOptions::default();
    let nfa = kleen(symbol('a', &opt));

    // A star accepts the empty stretch, which every text holds.
    let tests = vec![
        ("c", true),
        ("", true),
        ("a", true),
        ("aa", true),
        ("aaa", true),
        ("ab", true),
        ("b", true),
        ("bbbbb", true),
    ];

    for (text, expected) in tests {
        let result = nfa.find_match(text);
        println!(
            "Input: '{}' expected: '{}', result: '{}'",
            text, expected, result
        );
        assert_eq!(result, expected);
    }
}

#[test]
fn nfa_construction_union_test() {
    let opt = NfaOptions::default();
    let nfa = union(symbol('a', &opt), symbol('b', &opt));

    let tests = vec![
        ("a", true),
        ("b", true),
        ("c", false),
        ("ab", true),
        ("aa", true),
        ("bb", true),
        ("", false),
        ("aab", true),
        ("baa", true),
    ];

    for (text, expected) in tests {
        let result = nfa.find_match(text);
        println!("'{}' expected '{}'", text, expected);
        assert_eq!(result, expected);
    }
}
