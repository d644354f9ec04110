use tiny_regex::parse::{parse, Node, ParseError};

fn ch(c: char) -> Node {
    Node::Char(c)
}

fn star(n: Node) -> Node {
    Node::Star(Box::new(n))
}

fn or(l: Node, r: Node) -> Node {
    Node::Or((Box::new(l), Box::new(r)))
}

#[test]
fn test_parse_char() {
    assert_eq!(parse("a"), Ok(Node::Char('a')));
}

#[test]
fn test_parse_seq() {
    assert_eq!(parse("ab"), Ok(Node::Concat(vec![ch('a'), ch('b')])));
    assert_eq!(parse("abc"), Ok(Node::Concat(vec![ch('a'), ch('b'), ch('c')])));
}

#[test]
fn test_parse_star() {
    assert_eq!(parse("a*"), Ok(star(ch('a'))));
    assert_eq!(
        parse("abc*"),
        Ok(Node::Concat(vec![ch('a'), ch('b'), star(ch('c'))]))
    );
}

#[test]
fn test_parse_or() {
    assert_eq!(parse("a|b"), Ok(or(ch('a'), ch('b'))));
    assert_eq!(parse("a|b|c"), Ok(or(ch('a'), or(ch('b'), ch('c')))));
}

#[test]
fn test_parse_composite() {
    assert_eq!(parse("(a)"), Ok(ch('a')));
    assert_eq!(parse("(ab)"), Ok(Node::Concat(vec![ch('a'), ch('b')])));
    assert_eq!(parse("(abc)"), Ok(Node::Concat(vec![ch('a'), ch('b'), ch('c')])));
    assert_eq!(parse("(ab)*"), Ok(star(Node::Concat(vec![ch('a'), ch('b')]))));
    assert_eq!(
        parse("ab(c|de)"),
        Ok(Node::Concat(vec![
            ch('a'),
            ch('b'),
            or(ch('c'), Node::Concat(vec![ch('d'), ch('e')])),
        ]))
    );
    assert_eq!(
        parse("a(bc)*d"),
        Ok(Node::Concat(vec![
            ch('a'),
            star(Node::Concat(vec![ch('b'), ch('c')])),
            ch('d'),
        ]))
    );
    assert_eq!(
        parse("a|bc*"),
        Ok(or(ch('a'), Node::Concat(vec![ch('b'), star(ch('c'))])))
    );
    assert_eq!(
        parse("abc|def"),
        Ok(or(
            Node::Concat(vec![ch('a'), ch('b'), ch('c')]),
            Node::Concat(vec![ch('d'), ch('e'), ch('f')])
        ))
    );
}

#[test]
fn grouping_differs_from_plain_star() {
    let grouped = parse("(ab)*");
    let plain = parse("ab*");
    assert_eq!(plain, Ok(Node::Concat(vec![ch('a'), star(ch('b'))])));
    assert_ne!(grouped, plain);
}

#[test]
fn unclosed_group_is_refused() {
    assert_eq!(parse("(a"), Err(ParseError::UnbalancedGroup));
    assert_eq!(parse("a(b|c"), Err(ParseError::UnbalancedGroup));
    assert_eq!(parse("("), Err(ParseError::UnbalancedGroup));
}

#[test]
fn stray_close_is_refused() {
    assert_eq!(parse(")"), Err(ParseError::UnbalancedGroup));
    assert_eq!(parse("a)"), Err(ParseError::UnbalancedGroup));
    assert_eq!(parse("(a))b"), Err(ParseError::UnbalancedGroup));
}

#[test]
fn empty_pattern_is_refused() {
    assert_eq!(parse(""), Err(ParseError::EmptyPattern));
}

#[test]
fn empty_group_and_empty_branches() {
    assert_eq!(parse("()"), Ok(Node::Concat(vec![])));
    assert_eq!(parse("a|"), Ok(or(ch('a'), Node::Concat(vec![]))));
}

#[test]
fn non_ascii_characters_are_literals() {
    assert_eq!(parse("é*"), Ok(star(ch('é'))));
}
