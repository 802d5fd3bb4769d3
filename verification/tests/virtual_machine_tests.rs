use regex_engines::automaton::Regex as AutomatonRegex;
use regex_engines::compiler::Instruction;
use regex_engines::parser::Node;
use regex_engines::virtual_machine::{Regex, VirtualMachine};

#[test]
fn test_compile() {
    assert_eq!(Node::Empty.compile(), vec![Instruction::M]);

    assert_eq!(
        Node::Char('a').compile(),
        vec![Instruction::C('a'), Instruction::M],
    );

    assert_eq!(
        Node::Concat(Box::new(Node::Char('a')), Box::new(Node::Char('b'))).compile(),
        vec![Instruction::C('a'), Instruction::C('b'), Instruction::M],
    );

    assert_eq!(
        Node::Union(
            Box::new(Node::Concat(
                Box::new(Node::Char('a')),
                Box::new(Node::Char('b')),
            )),
            Box::new(Node::Concat(
                Box::new(Node::Char('c')),
                Box::new(Node::Char('d')),
            )),
        )
        .compile(),
        vec![
            Instruction::S(1, 4),
            Instruction::C('a'),
            Instruction::C('b'),
            Instruction::J(6),
            Instruction::C('c'),
            Instruction::C('d'),
            Instruction::M,
        ],
    );

    assert_eq!(
        Node::Star(Box::new(Node::Concat(
            Box::new(Node::Char('a')),
            Box::new(Node::Char('b')),
        )))
        .compile(),
        vec![
            Instruction::S(1, 4),
            Instruction::C('a'),
            Instruction::C('b'),
            Instruction::J(0),
            Instruction::M,
        ],
    );

    assert_eq!(
        Node::Star(Box::new(Node::Star(Box::new(Node::Concat(
            Box::new(Node::Char('a')),
            Box::new(Node::Char('b')),
        )))))
        .compile(),
        vec![
            Instruction::S(1, 4),
            Instruction::C('a'),
            Instruction::C('b'),
            Instruction::J(0),
            Instruction::M,
        ],
    );
}

#[test]
fn lib_test_matches() {
    let regex = Regex::new("(a|b)*a(a|b)(a|b)").unwrap();

    assert!(regex.clone().matches("aaa"));
    assert!(regex.clone().matches("ababa"));
    assert!(regex.clone().matches("abababa"));

    assert!(!regex.clone().matches("aa"));
    assert!(!regex.clone().matches("babab"));
    assert!(!regex.clone().matches("abbabba"));
}

#[test]
fn test_compile_idempotent() {
    let first = Regex::new("(a|b)*a(a|b)(a|b)").unwrap();
    let second = Regex::new("(a|b)*a(a|b)(a|b)").unwrap();
    assert_eq!(first, second);
    assert_eq!(first.instructions, second.instructions);
}

#[test]
fn test_greedy_star_reports_longest_offset() {
    let regex = Regex::new("a*").unwrap();
    let mut machine = VirtualMachine::new(regex.instructions.clone());
    // the "repeat the body" branch has priority, so the first `M` hit has
    // consumed every `a`
    assert_eq!(machine.run(vec!['a', 'a', 'a']), Some(3));

    let regex = Regex::new("a|").unwrap();
    let mut machine = VirtualMachine::new(regex.instructions.clone());
    // the left alternative wins: one `a` is consumed, not zero
    assert_eq!(machine.run(vec!['a']), Some(1));
}

#[test]
fn test_run_reports_partial_offset_and_matches_rejects_it() {
    let regex = Regex::new("a").unwrap();
    let mut machine = VirtualMachine::new(regex.instructions.clone());
    assert_eq!(machine.run(vec!['a', 'a']), Some(1));
    assert!(!regex.matches("aa"));
}

#[test]
fn test_vm_empty_pattern_and_errors() {
    let empty = Regex::new("").unwrap();
    assert!(empty.matches(""));
    assert!(!empty.matches("a"));

    assert!(Regex::new("a(").is_err());
    assert!(Regex::new("a)").is_err());
    assert!(Regex::new("ab\\").is_err());
}

#[test]
fn test_vm_pathological_star_terminates() {
    // a star whose body can match the empty string: the machine prunes
    // revisited positions instead of looping
    let regex = Regex::new("(a|)*").unwrap();
    assert!(regex.matches(""));
    assert!(regex.matches("aaa"));
    assert!(!regex.matches("b"));
}

#[test]
fn test_cross_engine_agreement() {
    let patterns = ["(a|b)*a(a|b)(a|b)", "a*", "", "a|", "(ab)*c", "a(b|c)*d"];
    let texts = ["", "a", "aa", "aaa", "ab", "abc", "ababc", "b", "abababa", "abd", "ad"];
    for pattern in patterns {
        let dfa = AutomatonRegex::new(pattern).unwrap();
        let vm = Regex::new(pattern).unwrap();
        for text in texts {
            assert_eq!(
                dfa.matches(text),
                vm.clone().matches(text),
                "engines disagree on pattern {pattern:?} and text {text:?}",
            );
        }
    }
}

#[test]
fn test_vm_unicode_code_points() {
    let regex = Regex::new("é*").unwrap();
    assert!(regex.matches(""));
    assert!(regex.matches("ééé"));
    assert!(!regex.matches("é é"));
}
