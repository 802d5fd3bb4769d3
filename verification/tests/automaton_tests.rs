use regex_engines::automaton::Regex;
use regex_engines::deterministic_finite_automaton::Automaton as Dfa;
use regex_engines::nondeterministic_finite_automaton::Automaton as Nfa;
use regex_engines::parser::Node;

fn nfa(start: usize, accepts: Vec<usize>) -> Nfa {
    Nfa::new(start, accepts)
}

#[test]
fn test_from_node() {
    let mut expected = nfa(0, vec![1]);
    expected.add_epsilon_transition(0, 1);
    assert_eq!(Nfa::from(Node::Empty), expected);

    let mut expected = nfa(0, vec![1]);
    expected.add_transition(0, 1, 'a');
    assert_eq!(Nfa::from(Node::Char('a')), expected);

    let mut expected = nfa(0, vec![3]);
    expected.add_transition(0, 1, 'a');
    expected.add_epsilon_transition(1, 2);
    expected.add_transition(2, 3, 'b');
    assert_eq!(
        Nfa::from(Node::Concat(
            Box::new(Node::Char('a')),
            Box::new(Node::Char('b')),
        )),
        expected,
    );

    let mut expected = nfa(4, vec![5]);
    expected.add_epsilon_transition(4, 0);
    expected.add_epsilon_transition(4, 2);
    expected.add_transition(0, 1, 'a');
    expected.add_transition(2, 3, 'b');
    expected.add_epsilon_transition(1, 5);
    expected.add_epsilon_transition(3, 5);
    assert_eq!(
        Nfa::from(Node::Union(
            Box::new(Node::Char('a')),
            Box::new(Node::Char('b')),
        )),
        expected,
    );

    let mut expected = nfa(2, vec![1, 3]);
    expected.add_epsilon_transition(2, 0);
    expected.add_epsilon_transition(2, 3);
    expected.add_transition(0, 1, 'a');
    expected.add_epsilon_transition(1, 0);
    assert_eq!(Nfa::from(Node::Star(Box::new(Node::Char('a')))), expected);
}

#[test]
fn test_remove_epsilon_transition() {
    let mut automaton = nfa(0, vec![2]);
    automaton.add_transition(0, 0, 'a');
    automaton.add_epsilon_transition(0, 1);
    automaton.add_transition(1, 1, 'b');
    automaton.add_epsilon_transition(1, 2);
    automaton.add_transition(2, 2, 'c');
    automaton.remove_epsilon_transitions();

    let mut expected = nfa(0, vec![0, 2]);
    expected.add_transition(0, 0, 'a');
    expected.add_transition(0, 1, 'a');
    expected.add_transition(0, 2, 'a');
    expected.add_transition(0, 1, 'b');
    expected.add_transition(0, 2, 'b');
    expected.add_transition(0, 2, 'c');
    expected.add_transition(1, 1, 'b');
    expected.add_transition(1, 2, 'b');
    expected.add_transition(1, 2, 'c');
    expected.add_transition(2, 2, 'c');
    assert_eq!(automaton, expected);

    let mut automaton = nfa(0, vec![3, 4]);
    automaton.add_transition(0, 1, 'a');
    automaton.add_epsilon_transition(1, 2);
    automaton.add_transition(1, 1, 'b');
    automaton.add_transition(1, 3, 'b');
    automaton.add_transition(2, 4, 'a');
    automaton.remove_epsilon_transitions();

    let mut expected = nfa(0, vec![3, 4]);
    expected.add_transition(0, 1, 'a');
    expected.add_transition(0, 2, 'a');
    expected.add_transition(1, 4, 'a');
    expected.add_transition(1, 1, 'b');
    expected.add_transition(1, 2, 'b');
    expected.add_transition(1, 3, 'b');
    expected.add_transition(2, 4, 'a');
    assert_eq!(automaton, expected);
}

#[test]
fn test_from_nfa() {
    let mut source = nfa(0, vec![2]);
    source.add_transition(0, 0, 'a');
    source.add_transition(0, 2, 'a');
    source.add_transition(0, 1, 'b');
    source.add_transition(1, 2, 'a');
    source.add_transition(1, 1, 'b');
    source.add_transition(1, 2, 'b');
    let dfa = Dfa::from(source);

    assert_eq!(dfa.start, 0);
    assert_eq!(dfa.accepts, vec![1, 3, 4]);
    assert_eq!(dfa.transitions.len(), 8);
    assert_eq!(dfa.transition(0, 'a'), Some(1));
    assert_eq!(dfa.transition(0, 'b'), Some(2));
    assert_eq!(dfa.transition(1, 'a'), Some(1));
    assert_eq!(dfa.transition(1, 'b'), Some(2));
    assert_eq!(dfa.transition(2, 'a'), Some(3));
    assert_eq!(dfa.transition(2, 'b'), Some(4));
    assert_eq!(dfa.transition(4, 'a'), Some(3));
    assert_eq!(dfa.transition(4, 'b'), Some(4));
    assert_eq!(dfa.transition(3, 'a'), None);
}

#[test]
fn test_matches() {
    let regex = Regex::new("(a|b)*a(a|b)(a|b)").unwrap();

    assert!(regex.matches("aaa"));
    assert!(regex.matches("ababa"));
    assert!(regex.matches("abababa"));

    assert!(!regex.matches("aa"));
    assert!(!regex.matches("babab"));
    assert!(!regex.matches("abbabba"));
}

#[test]
fn test_subset_construction_deterministic() {
    let first = Regex::new("(a|b)*a(a|b)(a|b)").unwrap();
    let second = Regex::new("(a|b)*a(a|b)(a|b)").unwrap();
    assert_eq!(first, second);
    assert_eq!(first.automaton.start, second.automaton.start);
    assert_eq!(first.automaton.accepts, second.automaton.accepts);
    assert_eq!(first.automaton.transitions, second.automaton.transitions);
}

#[test]
fn test_minimize_is_deferred() {
    let regex = Regex::new("a|b").unwrap();
    let mut minimized = regex.automaton.clone();
    minimized.minimize();
    assert_eq!(minimized, regex.automaton);
}

#[test]
fn test_empty_pattern_and_empty_text() {
    let empty = Regex::new("").unwrap();
    assert!(empty.matches(""));
    assert!(!empty.matches("a"));

    let star = Regex::new("a*").unwrap();
    assert!(star.matches(""));
    assert!(star.matches("aaaa"));
    assert!(!star.matches("ab"));
}

#[test]
fn test_syntax_error_rejects_pattern() {
    assert!(Regex::new("a(").is_err());
    assert!(Regex::new("a)").is_err());
    assert!(Regex::new("ab\\").is_err());
}

#[test]
fn test_full_string_anchoring() {
    let regex = Regex::new("(a|b)*a(a|b)(a|b)").unwrap();
    assert!(regex.matches("aaa"));
    assert!(!regex.matches("aa"));

    let pair = Regex::new("ab").unwrap();
    assert!(pair.matches("ab"));
    assert!(!pair.matches("a"));
    assert!(!pair.matches("abab"));
}

#[test]
fn test_unicode_code_points() {
    let regex = Regex::new("é|ß").unwrap();
    assert!(regex.matches("ß"));
    assert!(regex.matches("é"));
    assert!(!regex.matches("e"));
    assert!(!regex.matches("éß"));
}
