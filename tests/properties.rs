use regexpr::error::ErrorKind;
use regexpr::{Regex, RegexConf};

fn spans(pattern: &str, input: &str) -> Vec<(usize, usize)> {
    let regex = Regex::compile(pattern).ok().unwrap();
    let mut matcher = regex.find_matches(input);
    let mut out = Vec::new();
    while let Some(m) = matcher.next() {
        out.push(m.span());
    }
    out
}

fn slices(pattern: &str, input: &str) -> Vec<String> {
    let regex = Regex::compile(pattern).ok().unwrap();
    let mut matcher = regex.find_matches(input);
    let mut out = Vec::new();
    while let Some(m) = matcher.next() {
        out.push(m.slice().to_string());
    }
    out
}

fn kind_of(pattern: &str) -> ErrorKind {
    match Regex::compile(pattern) {
        Ok(_) => panic!("compiled: {pattern}"),
        Err(err) => err.kind(),
    }
}

#[test]
fn test_agrees_with_first_match() {
    for (p, s) in [("abc", "xxabc"), ("abc", "ab"), ("^a", "ba"), ("", ""), ("x*", "yyy"), ("[0-9]+", "ab")] {
        let regex = Regex::compile(p).ok().unwrap();
        assert_eq!(regex.test(s), regex.find_matches(s).next().is_some());
    }
}

#[test]
fn compiling_twice_accepts_the_same() {
    let a = Regex::compile("^(ab|c)+d?$").ok().unwrap();
    let b = Regex::compile("^(ab|c)+d?$").ok().unwrap();
    for s in ["ab", "abc", "abcd", "d", "", "cab", "abab d"] {
        assert_eq!(a.test(s), b.test(s));
    }
}

#[test]
fn scanning_twice_gives_the_same() {
    let regex = Regex::compile("a.?b").ok().unwrap();
    let run = || {
        let mut m = regex.find_matches("abcdacbaab");
        let mut out = Vec::new();
        while let Some(x) = m.next() {
            out.push((x.span(), x.slice().to_string()));
        }
        out
    };
    assert_eq!(run(), run());
}

#[test]
fn matches_do_not_overlap() {
    let found = spans("a*", "baab");
    assert_eq!(found, vec![(0, 0), (1, 3), (3, 3), (4, 4)]);
    for w in found.windows(2) {
        assert!(w[1].0 >= w[0].1);
    }
}

#[test]
fn empty_pattern_matches_everywhere() {
    assert_eq!(spans("", "abc"), vec![(0, 0), (1, 1), (2, 2), (3, 3)]);
    assert_eq!(spans("", ""), vec![(0, 0)]);
}

#[test]
fn greedy_and_lazy_diverge() {
    assert_eq!(spans(".*b", "aaaaaabaaaaab"), vec![(0, 13)]);
    assert_eq!(slices(".*?b", "aaaaaabaaaaab"), vec!["aaaaaab".to_string(), "aaaaab".to_string()]);
}

#[test]
fn negated_class_rejects_members() {
    let regex = Regex::compile("^[^a-z01]+$").ok().unwrap();
    assert!(regex.test("99882"));
    for s in ["9a9", "0", "1", "23z", "q"] {
        assert!(!regex.test(s));
    }
}

#[test]
fn bounded_repetition_stops_at_max() {
    assert_eq!(spans("a{2,3}", "aaaa"), vec![(0, 3)]);
    assert_eq!(spans("^a{2,}$", "aaaaa"), vec![(0, 5)]);
    assert!(Regex::compile("a{2}").is_err());
}

#[test]
fn case_insensitive_folds_both_sides() {
    let regex = Regex::compile("ABC").ok().unwrap();
    assert!(regex.test_with_conf("xabc", RegexConf { case_sensitive: false }));
    assert!(!regex.test_with_conf("xabc", RegexConf { case_sensitive: true }));
    let regex = Regex::compile("Ä").ok().unwrap();
    assert!(regex.test_with_conf("ä", RegexConf { case_sensitive: false }));
    assert!(!regex.test("ä"));
}

#[test]
fn backreference_ignores_case_when_asked() {
    let regex = Regex::compile("^(ab)\\1$").ok().unwrap();
    assert!(regex.test_with_conf("abAB", RegexConf { case_sensitive: false }));
    assert!(!regex.test("abAB"));
}

#[test]
fn groups_after_the_scan() {
    let regex = Regex::compile("^(a+)(b)$").ok().unwrap();
    let mut m = regex.find_matches("aab");
    assert!(m.next().is_some());
    assert!(m.next().is_none());
    assert_eq!(m.get_groups(), vec!["aa", "b"]);
}

#[test]
fn spans_count_characters() {
    assert_eq!(spans("é", "aéb"), vec![(1, 2)]);
    assert_eq!(slices("é.", "aéb"), vec!["éb".to_string()]);
}

#[test]
fn alternation_at_top_level() {
    assert!(Regex::compile("ab|cd").ok().unwrap().test("xcd"));
    assert!(Regex::compile("a|").ok().unwrap().test("xyz"));
    assert!(Regex::compile("a)b").ok().unwrap().test("ab"));
}

#[test]
fn error_kinds() {
    assert_eq!(kind_of("a\\"), ErrorKind::MissingChar('\\'));
    assert_eq!(kind_of("{2,3}"), ErrorKind::NothingBefore('{'));
    assert_eq!(kind_of("(+)"), ErrorKind::NothingBefore('+'));
    assert_eq!(kind_of("a{2"), ErrorKind::MissingBrace);
    assert_eq!(kind_of("a{2}"), ErrorKind::MissingComma);
    assert_eq!(kind_of("a{x,2}"), ErrorKind::BadNumber);
    assert_eq!(kind_of("a{1,99999999999999999999999}"), ErrorKind::BadNumber);
    assert_eq!(kind_of("[abc"), ErrorKind::UnclosedClass);
    assert_eq!(kind_of("[a-]"), ErrorKind::OpenRange);
    assert_eq!(kind_of("(a)\\k<1"), ErrorKind::MissingAngle);
    assert_eq!(kind_of("\\1"), ErrorKind::UnknownGroup);
    assert_eq!(kind_of("(a)\\2"), ErrorKind::UnknownGroup);
    assert_eq!(kind_of("(ab"), ErrorKind::UnclosedGroup);
}

#[test]
fn error_messages() {
    match Regex::compile("a\\") {
        Ok(_) => panic!(),
        Err(err) => {
            assert_eq!(err.to_string(), "Expected character after \\");
            assert_eq!(err.inner(), "Expected character after \\");
        },
    }
    match Regex::compile("(ab") {
        Ok(_) => panic!(),
        Err(err) => assert_eq!(err.to_string(), "Missing closing ')'"),
    }
}

#[test]
fn counting_matches() {
    let regex = Regex::compile("[0-9]").ok().unwrap();
    assert_eq!(regex.find_matches("a1b22c333").count(), 6);
    assert_eq!(regex.find_matches("abc").count(), 0);
}

#[test]
fn replace_keeps_the_tail() {
    assert_eq!(regexpr::replace_regex("xaby", "ab", "-").ok().unwrap(), "x-y");
    assert_eq!(regexpr::replace_regex("aaa", "a", "bb").ok().unwrap(), "bbbbbb");
    assert!(regexpr::replace_regex("aaa", "(", "b").is_err());
    assert!(regexpr::matches_regex("xyz", "y"));
    assert!(!regexpr::matches_regex("xyz", "("));
}
