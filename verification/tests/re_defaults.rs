use perg::nfa::{
    alphanumeric, digits, kleen, negative_set_of_chars, set_of_chars, symbol, union,
    NfaOptions,
};
use perg::re::{insert_concat_symbol, regex_to_nfa, shunting_yard};

#[test]
fn re_insert_concat_underscore() {
    assert_eq!("a?_?b", insert_concat_symbol("a_b"));
}

#[test]
fn re_insert_concat_no_insert_needed() {
    assert_eq!("a", insert_concat_symbol("a"));
}

#[test]
fn re_insert_concat_two_symbols() {
    assert_eq!("a?b", insert_concat_symbol("ab"));
}

#[test]
fn re_insert_concat_ignore_char_sets() {
    assert_eq!("[abc]", insert_concat_symbol("[abc]"));
}

#[test]
fn re_insert_concat_ignore_char_sets_and_nothing_else_1() {
    assert_eq!("[abc]?a", insert_concat_symbol("[abc]a"));
}

#[test]
fn re_insert_concat_ignore_char_sets_and_nothing_else() {
    assert_eq!("[abc]?a+b", insert_concat_symbol("[abc]a+b"));
}

#[test]
fn re_insert_concat_decimal() {
    assert_eq!("\\d", insert_concat_symbol("\\d"));
}

#[test]
fn re_insert_concat_word() {
    assert_eq!("\\w", insert_concat_symbol("\\w"));
}

#[test]
fn re_insert_concat_complex() {
    assert_eq!("a?(a+b)*?b", insert_concat_symbol("a(a+b)*b"));
}

#[test]
fn re_shunting_yard_empty_input() {
    let output = shunting_yard("").unwrap();
    assert_eq!(output, String::from(""));
}

#[test]
fn re_shunting_yard_ignore_negative_character_groups() {
    let output = shunting_yard("[^abc]").unwrap();
    assert_eq!(output, String::from("[^abc]"));
}

#[test]
fn re_shunting_yard_ignore_negative_character_groups_and_nothing_else_1() {
    let output = shunting_yard("[^abc]a").unwrap();
    assert_eq!(output, String::from("[^abc]a?"));
}

#[test]
fn re_shunting_yard_ignore_character_groups() {
    let output = shunting_yard("[abc]").unwrap();
    assert_eq!(output, String::from("[abc]"));
}

#[test]
fn re_shunting_yard_ignore_character_groups_and_nothing_else_1() {
    let output = shunting_yard("[abc]a").unwrap();
    assert_eq!(output, String::from("[abc]a?"));
}

#[test]
fn re_shunting_yard_concat_of_groups() {
    let output = shunting_yard("(ab)(ab)").unwrap();
    assert_eq!(output, String::from("ab?ab??"));
}

#[test]
fn re_shunting_yard_complex_example() {
    let output = shunting_yard("a(a+b)*b").unwrap();
    assert_eq!(output, String::from("aab+*?b?"));
}

#[test]
fn re_shunting_yard_concat_with_char_set() {
    let output = shunting_yard("[ab]c").unwrap();
    assert_eq!(output, String::from("[ab]c?"));
}

#[test]
fn re_shunting_yard_underscore() {
    let output = shunting_yard("a_b").unwrap();
    assert_eq!(output, String::from("a_?b?"));
}

#[test]
fn re_shunting_yard_long_concat() {
    let output = shunting_yard("abcdefghijk").unwrap();
    assert_eq!(output, String::from("ab?c?d?e?f?g?h?i?j?k?"));
}

#[test]
fn re_shunting_yard_concat() {
    let output = shunting_yard("ab").unwrap();
    assert_eq!(output, String::from("ab?"));
}

#[test]
fn re_shunting_yard_decimal() {
    let output = shunting_yard("\\d").unwrap();
    assert_eq!(output, String::from("\\d"));
}

#[test]
fn re_shunting_yard_word() {
    let output = shunting_yard("\\w").unwrap();
    assert_eq!(output, String::from("\\w"));
}

#[test]
fn re_shunting_yard_union() {
    let output = shunting_yard("a+b").unwrap();
    assert_eq!(output, String::from("ab+"));
}

#[test]
fn re_regex_to_nfa_negative_character_set() {
    let opt = NfaOptions::default();
    let nfa = negative_set_of_chars(&vec!['a', 'b'], &opt);
    let outcome = regex_to_nfa("[^ab]", &opt).unwrap();

    let tests = vec!["a", "b", "c", "ab", "ac", "abc", "", "xyz"];
    for example in tests {
        println!("{}", example);
        assert_eq!(nfa.find_match(example), outcome.find_match(example));
    }
}

#[test]
fn re_regex_to_nfa_character_set() {
    let opt = NfaOptions::default();
    let nfa = set_of_chars(&vec!['a', 'b', 'c'], &opt);
    let outcome = regex_to_nfa("[abc]", &opt).unwrap();

    let tests = vec!["a", "b", "c", "ab", "ac", "abc", "", "xyz"];
    for example in tests {
        println!("{}", example);
        assert_eq!(nfa.find_match(example), outcome.find_match(example));
    }
}

#[test]
fn re_regex_to_nfa_alphanumeric() {
    let opt = NfaOptions::default();
    let nfa = alphanumeric(&opt);
    let outcome = regex_to_nfa("\\w", &opt).unwrap();

    let tests = vec!["0", "123", "aa", "", "a", "bb", "abababa"];
    for example in tests {
        assert_eq!(nfa.find_match(example), outcome.find_match(example));
    }
}

#[test]
fn re_regex_to_nfa_digits() {
    let opt = NfaOptions::default();
    let nfa = digits();
    let outcome = regex_to_nfa("\\d", &opt).unwrap();

    let tests = vec!["0", "123", "aa", "", "a", "bb", "abababa"];
    for example in tests {
        assert_eq!(nfa.find_match(example), outcome.find_match(example));
    }
}

#[test]
fn re_regex_to_nfa_single_char() {
    let opt = NfaOptions::default();
    let nfa = symbol('a', &opt);
    let outcome = regex_to_nfa("a", &opt).unwrap();

    let tests = vec!["aa", "", "a", "bb", "abababa"];
    for example in tests {
        assert_eq!(nfa.find_match(example), outcome.find_match(example));
    }
}

#[test]
fn re_regex_to_nfa_kleen() {
    let opt = NfaOptions::default();
    let nfa = kleen(symbol('a', &opt));
    let outcome = regex_to_nfa("a*", &opt).unwrap();

    let tests = vec!["a", "aa", "aaa", "ab", "bbb"];
    for example in tests {
        assert_eq!(nfa.find_match(example), outcome.find_match(example));
    }
}

#[test]
fn re_regex_to_nfa_complex_2() {
    let opt = NfaOptions::default();
    let outcome = regex_to_nfa("(0+11+10(00+1)*01)*", &opt).unwrap();
    let nfa = kleen(union(
        symbol('0', &opt),
        union(
            perg::nfa::concat(symbol('1', &opt), symbol('1', &opt)),
            perg::nfa::concat(
                perg::nfa::concat(symbol('1', &opt), symbol('0', &opt)),
                perg::nfa::concat(
                    kleen(union(
                        perg::nfa::concat(symbol('0', &opt), symbol('0', &opt)),
                        symbol('1', &opt),
                    )),
                    perg::nfa::concat(symbol('0', &opt), symbol('1', &opt)),
                ),
            ),
        ),
    ));
    let tests = vec!["11", "100", "101", "110", "1", "100001"];
    for example in tests {
        let x = nfa.find_match(example);
        let y = outcome.find_match(example);
        assert_eq!(x, y);
    }
}

#[test]
fn re_regex_to_nfa_complex() {
    let opt = NfaOptions::default();
    let nfa = kleen(union(
        perg::nfa::concat(symbol('a', &opt), symbol('b', &opt)),
        symbol('a', &opt),
    ));
    let outcome = regex_to_nfa("(ab+a)*", &opt).unwrap();

    let tests = vec!["ab", "", "aa", "ababab", "bbbaaa"];
    for example in tests {
        let x = nfa.find_match(example);
        let y = outcome.find_match(example);
        assert_eq!(x, y);
    }
}
