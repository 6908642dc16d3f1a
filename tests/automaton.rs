use regex_automaton::{compile, compile_from, CompileError, StateMachine};

fn machine(pattern: &str) -> StateMachine {
    compile(pattern).expect("pattern compiles")
}

#[test]
fn literal_pattern_accepts_itself_only() {
    let m = machine("abc");
    assert!(m.matches("abc"));
    assert!(!m.matches(""));
    assert!(!m.matches("a"));
    assert!(!m.matches("ab"));
    assert!(!m.matches("abd"));
    assert!(!m.matches("abcd"));
    assert!(!m.matches("cba"));
    assert!(!m.matches("xabc"));
}

#[test]
fn single_character_pattern() {
    let m = machine("x");
    assert!(m.matches("x"));
    assert!(!m.matches("xx"));
    assert!(!m.matches("y"));
    assert!(!m.matches(""));
}

#[test]
fn non_ascii_literals() {
    let m = machine("é日");
    assert!(m.matches("é日"));
    assert!(!m.matches("e日"));
    assert!(!m.matches("é"));
}

#[test]
fn empty_pattern_matches_only_empty_input() {
    let m = machine("");
    assert!(m.matches(""));
    assert!(!m.matches("a"));
    assert!(!m.matches(" "));
    assert!(!m.matches("ab"));
}

#[test]
fn one_or_more_then_literal() {
    let m = machine("a+b");
    assert!(m.matches("ab"));
    assert!(m.matches("aab"));
    assert!(m.matches("aaab"));
    assert!(!m.matches(""));
    assert!(!m.matches("b"));
    assert!(!m.matches("a"));
    assert!(!m.matches("ac"));
    assert!(!m.matches("abc"));
    assert!(!m.matches("aab c"));
}

#[test]
fn zero_or_more_then_literal() {
    let m = machine("a*b");
    assert!(m.matches("b"));
    assert!(m.matches("ab"));
    assert!(m.matches("aab"));
    assert!(!m.matches(""));
    assert!(!m.matches("a"));
    assert!(!m.matches("ba"));
    assert!(!m.matches("abb"));
}

#[test]
fn trailing_quantifiers() {
    let plus = machine("ab+");
    assert!(plus.matches("ab"));
    assert!(plus.matches("abbb"));
    assert!(!plus.matches("a"));
    let star = machine("ab*");
    assert!(star.matches("a"));
    assert!(star.matches("abb"));
    assert!(!star.matches("ba"));
}

#[test]
fn adjacent_quantified_units() {
    let m = machine("a*b*c+");
    assert!(m.matches("c"));
    assert!(m.matches("abc"));
    assert!(m.matches("aabbbccc"));
    assert!(m.matches("bc"));
    assert!(m.matches("ac"));
    assert!(!m.matches("ab"));
    assert!(!m.matches("ba"));
    assert!(!m.matches("cb"));
    assert!(!m.matches(""));
}

#[test]
fn same_character_quantified_twice() {
    let m = machine("a*a");
    assert!(m.matches("a"));
    assert!(m.matches("aaaa"));
    assert!(!m.matches(""));
    let n = machine("a+a+");
    assert!(n.matches("aa"));
    assert!(n.matches("aaa"));
    assert!(!n.matches("a"));
}

#[test]
fn leading_quantifier_is_unbound() {
    assert_eq!(compile("+ab").unwrap_err(), CompileError::UnboundRepeat);
    assert_eq!(compile("*").unwrap_err(), CompileError::UnboundRepeat);
    assert_eq!(compile("*a").unwrap_err(), CompileError::UnboundRepeat);
    assert!(compile("").is_ok());
}

#[test]
fn doubled_quantifier_is_unbound() {
    assert_eq!(compile("a++").unwrap_err(), CompileError::UnboundRepeat);
    assert_eq!(compile("a*+b").unwrap_err(), CompileError::UnboundRepeat);
    assert_eq!(compile("ab**").unwrap_err(), CompileError::UnboundRepeat);
}

#[test]
fn compiling_twice_gives_the_same_language() {
    let first = machine("a+b*c");
    let second = machine("a+b*c");
    for input in ["", "ac", "abc", "aabbc", "c", "ab", "abcc", "bc"] {
        assert_eq!(first.matches(input), second.matches(input));
    }
}

#[test]
fn matching_is_repeatable() {
    let m = machine("a*b");
    for input in ["b", "ab", "ba", ""] {
        let once = m.matches(input);
        assert_eq!(once, m.matches(input));
        assert_eq!(once, m.matches(input));
    }
}

#[test]
fn compile_from_and_matches_from_take_characters() {
    let pattern: Vec<char> = "a+b".chars().collect();
    let m = compile_from(&pattern).unwrap();
    let input: Vec<char> = "aaab".chars().collect();
    assert!(m.matches_from(&input));
    assert!(!m.matches_from(&['b']));
    assert_eq!(compile_from(&['*']).unwrap_err(), CompileError::UnboundRepeat);
}
