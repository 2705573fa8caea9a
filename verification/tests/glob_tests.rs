use perg::glob::{glob, is_well_formed, PathEntry, PathKind, Paths, Step};

const ROOT: &str = "..\\..\\test_files";

fn file(path: &str) -> PathEntry {
    PathEntry::File(String::from(path))
}

fn dir(path: &str) -> PathEntry {
    PathEntry::Dir(String::from(path))
}

/// What each directory of the tree holds, in the order it is listed.
fn listing(path: &str) -> Vec<PathEntry> {
    if path == ROOT {
        vec![
            file("..\\..\\test_files\\a.txt"),
            file("..\\..\\test_files\\abba"),
            file("..\\..\\test_files\\acca"),
            dir("..\\..\\test_files\\ext"),
            dir("..\\..\\test_files\\nested"),
        ]
    } else if path == "..\\..\\test_files\\ext" {
        vec![
            file("..\\..\\test_files\\ext\\file.a"),
            file("..\\..\\test_files\\ext\\file.b"),
            file("..\\..\\test_files\\ext\\file.c"),
            file("..\\..\\test_files\\ext\\file.d"),
        ]
    } else if path == "..\\..\\test_files\\nested" {
        vec![file("..\\..\\test_files\\nested\\f.h")]
    } else if path == "." {
        vec![file("a.txt"), file("abba"), file("acca"), dir("nested")]
    } else if path == "nested" {
        vec![file("f.h")]
    } else {
        vec![]
    }
}

fn walk(mut paths: Paths) -> Vec<String> {
    let mut found = vec![];
    loop {
        match paths.next_step() {
            Step::Yield(path) => found.push(path),
            Step::Read(path) => paths.supply(listing(&path)),
            Step::Failed(e) => panic!("{}", e.msg),
            Step::Done => return found,
        }
    }
}

#[test]
fn glob_returns_error_on_invalid_pattern() {
    let result = glob("*.[abc", ROOT, PathKind::Directory);

    assert!(result.is_err());
}

#[test]
fn glob_matches_given_extentions() {
    let result = walk(glob("*.[abc]", ROOT, PathKind::Directory).unwrap());

    assert_eq!(
        result,
        vec![
            "..\\..\\test_files\\ext\\file.a",
            "..\\..\\test_files\\ext\\file.b",
            "..\\..\\test_files\\ext\\file.c"
        ]
    );
}

#[test]
fn glob_exact_match() {
    // A pattern without wildcards matches the one path that is equal to it.
    let result = walk(glob("f.h", ".", PathKind::Directory).unwrap());

    assert_eq!(result, vec!["f.h"]);
}

#[test]
fn glob_question_mark_skipes_two_chars() {
    let result = walk(glob("a??a", ".", PathKind::Directory).unwrap());

    assert_eq!(result, vec!["abba", "acca"]);
}

#[test]
fn glob_question_mark_skipes_one_chars() {
    let result = walk(glob("a????", ".", PathKind::Directory).unwrap());

    assert_eq!(result, vec!["a.txt"]);
}

#[test]
fn glob_print_only_h_files() {
    let result = walk(glob("*.h", ROOT, PathKind::Directory).unwrap());

    assert_eq!(result, vec!["..\\..\\test_files\\nested\\f.h"]);
}

#[test]
fn glob_star_takes_every_file() {
    let result = walk(glob("*", ROOT, PathKind::Directory).unwrap());
    assert_eq!(
        result,
        vec![
            "..\\..\\test_files\\a.txt",
            "..\\..\\test_files\\abba",
            "..\\..\\test_files\\acca",
            "..\\..\\test_files\\ext\\file.a",
            "..\\..\\test_files\\ext\\file.b",
            "..\\..\\test_files\\ext\\file.c",
            "..\\..\\test_files\\ext\\file.d",
            "..\\..\\test_files\\nested\\f.h",
        ]
    );
}

#[test]
fn glob_without_wildcard_matches_the_equal_path_only() {
    let paths = Paths::new("/srv/f.h", "/srv", PathKind::Directory);
    assert_eq!(paths.matches("/srv/f.h").unwrap(), true);
    assert_eq!(paths.matches("/srv/f.hh").unwrap(), false);
    assert_eq!(paths.matches("/srv/f").unwrap(), false);
    assert_eq!(paths.matches("srv/f.h").unwrap(), false);
    assert_eq!(paths.matches("").unwrap(), false);
}

#[test]
fn glob_missing_path_is_an_error() {
    let error = glob("*", "/no/such", PathKind::Missing).unwrap_err();
    assert_eq!(error.msg, "Path: '/no/such' does not exist!");
    let error = glob("[", "/no/such", PathKind::Missing).unwrap_err();
    assert_eq!(error.msg, "Path: '/no/such' does not exist!");
}

#[test]
fn glob_unclosed_class_is_an_error() {
    let error = glob("*.[abc", "/", PathKind::File).unwrap_err();
    assert_eq!(error.msg, "Invalid pattern, '[' needs a matching brace");
    assert!(glob("[a][", "/", PathKind::Directory).is_err());
    assert!(glob("[[]", "/", PathKind::Directory).is_ok());
    assert!(glob("a]", "/", PathKind::Directory).is_ok());
}

#[test]
fn glob_knows_its_wildcards() {
    assert!(Paths::new("*.rs", ".", PathKind::Other).is_wildcard());
    assert!(Paths::new("a?", ".", PathKind::Other).is_wildcard());
    assert!(Paths::new("[ab]", ".", PathKind::Other).is_wildcard());
    assert!(!Paths::new("a.rs", ".", PathKind::Other).is_wildcard());
    assert!(!Paths::new("a]", ".", PathKind::Other).is_wildcard());
}

#[test]
fn glob_well_formed_patterns() {
    let chars = |s: &str| s.chars().collect::<Vec<char>>();
    assert!(is_well_formed(&chars("")));
    assert!(is_well_formed(&chars("[]")));
    assert!(is_well_formed(&chars("a[bc]d[e]")));
    assert!(!is_well_formed(&chars("a[bc]d[e")));
    assert!(!is_well_formed(&chars("[")));
}

#[test]
fn glob_file_root_is_tested_itself() {
    assert_eq!(walk(glob("*.rs", "main.rs", PathKind::File).unwrap()), vec!["main.rs"]);
    assert!(walk(glob("*.rs", "main.c", PathKind::File).unwrap()).is_empty());
    assert!(walk(glob("*", "socket", PathKind::Other).unwrap()).is_empty());
}

#[test]
fn glob_search_is_breadth_first() {
    let mut paths = glob("*", "top", PathKind::Directory).unwrap();
    match paths.next_step() {
        Step::Read(path) => assert_eq!(path, "top"),
        _ => panic!("the root is read first"),
    }
    paths.supply(vec![dir("top/d"), file("top/x")]);
    match paths.next_step() {
        Step::Read(path) => assert_eq!(path, "top/d"),
        _ => panic!("the directory comes first"),
    }
    paths.supply(vec![file("top/d/y")]);
    match paths.next_step() {
        Step::Yield(path) => assert_eq!(path, "top/x"),
        _ => panic!("the file of the upper level is next"),
    }
    match paths.next_step() {
        Step::Yield(path) => assert_eq!(path, "top/d/y"),
        _ => panic!("the file of the lower level is last"),
    }
    assert!(matches!(paths.next_step(), Step::Done));
    assert!(matches!(paths.next_step(), Step::Done));
}

#[test]
fn glob_search_with_unclosed_class_fails_at_the_first_file() {
    let mut paths = Paths::new("[", "top", PathKind::Directory);
    assert!(matches!(paths.next_step(), Step::Read(_)));
    paths.supply(vec![file("top/x"), file("top/y")]);
    match paths.next_step() {
        Step::Failed(e) => assert_eq!(e.msg, "Invalid pattern, '[' needs a matching brace"),
        _ => panic!("the pattern cannot be used"),
    }
    assert!(paths.matches("x").is_err());
}

#[test]
fn glob_matcher_cases() {
    let cases = vec![
        ("", "", true),
        ("", "a", false),
        ("*", "", true),
        ("*", "a/b/c", true),
        ("**", "abc", true),
        ("a*", "a", true),
        ("a*", "ab", true),
        ("a*", "ba", false),
        ("*a", "ba", true),
        ("*a", "ab", false),
        ("a*b*c", "aXXbYYc", true),
        ("a*b*c", "aXXbYY", false),
        ("?", "", false),
        ("?", "a", true),
        ("?", "ab", false),
        ("a??a", "abba", true),
        ("a??a", "a.txt", false),
        ("a????", "a.txt", true),
        ("a????", "abba", false),
        ("[abc]", "a", true),
        ("[abc]", "d", false),
        ("[abc]", "ab", false),
        ("[]", "a", false),
        ("[a]b", "ab", true),
        ("*.[abc]", "ext/file.a", true),
        ("*.[abc]", "ext/file.d", false),
        ("a]", "a]", true),
        ("[*]", "*", true),
        ("[*]", "x", false),
        ("*[ab]*", "xxbxx", true),
        ("ś?", "ść", true),
    ];
    for (pattern, text, expected) in cases {
        let paths = Paths::new(pattern, ".", PathKind::Other);
        println!("'{}' on '{}'", pattern, text);
        assert_eq!(paths.matches(text).unwrap(), expected);
        let chars: Vec<char> = text.chars().collect();
        assert_eq!(paths.matches_ex(0, 0, &chars), expected);
    }
}

#[test]
fn glob_matcher_from_the_middle() {
    let paths = Paths::new("ab*c", ".", PathKind::Other);
    let text: Vec<char> = "xxbYc".chars().collect();
    assert!(paths.matches_ex(1, 2, &text));
    assert!(!paths.matches_ex(0, 2, &text));
    assert!(paths.matches_ex(4, 5, &text));
    assert!(!paths.matches_ex(4, 4, &text));
}
