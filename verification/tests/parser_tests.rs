use regex_engines::parser::{parse, Node};

#[test]
fn test_success() {
    assert_eq!(
        parse(r"\a|(bc)*").unwrap(),
        Node::Union(
            Box::new(Node::Char('a')),
            Box::new(Node::Star(Box::new(Node::Concat(
                Box::new(Node::Char('b')),
                Box::new(Node::Char('c'))
            ))))
        ),
    );

    assert_eq!(
        parse(r"a|").unwrap(),
        Node::Union(Box::new(Node::Char('a')), Box::new(Node::Empty)),
    );
}

#[test]
fn test_failure() {
    assert!(parse(r"a(").is_err());
    assert!(parse(r"a)").is_err());
}

#[test]
fn test_empty_forms() {
    assert_eq!(parse("").unwrap(), Node::Empty);
    assert_eq!(parse("()").unwrap(), Node::Empty);
}

#[test]
fn test_escapes_make_reserved_literal() {
    assert_eq!(parse(r"\*").unwrap(), Node::Char('*'));
    assert_eq!(parse(r"\\").unwrap(), Node::Char('\\'));
    assert_eq!(parse(r"\(").unwrap(), Node::Char('('));
}

#[test]
fn test_trailing_escape_fails() {
    assert!(parse("ab\\").is_err());
}

#[test]
fn test_unbalanced_parens_fail() {
    assert!(parse("(").is_err());
    assert!(parse(")").is_err());
    assert!(parse("(a))").is_err());
}

#[test]
fn test_is_star() {
    assert!(parse("a*").unwrap().is_star());
    assert!(!parse("a").unwrap().is_star());
}

#[test]
fn test_alternation_is_right_associative() {
    assert_eq!(
        parse("a|b|c").unwrap(),
        Node::Union(
            Box::new(Node::Char('a')),
            Box::new(Node::Union(
                Box::new(Node::Char('b')),
                Box::new(Node::Char('c'))
            ))
        ),
    );
}
