use tiny_regex::codegen::{compile, Generator, Inst, Op};
use tiny_regex::evaluator::eval;
use tiny_regex::parse::parse;

fn test(regex: &str, test_str: &str, match_: bool) {
    let n = parse(regex).unwrap();
    let insts = Generator::new().gen(&n);
    assert_eq!(eval(insts, test_str), match_, "{} on {:?}", regex, test_str);
}

fn match_(regex: &str, test_str: &str) {
    test(regex, test_str, true);
}

fn not_match(regex: &str, test_str: &str) {
    test(regex, test_str, false);
}

#[test]
fn test_eval_char() {
    match_("a", "a");
    not_match("a", "b");
}

#[test]
fn test_eval_seq() {
    match_("abc", "abc");
    match_("abc", "abcd");

    not_match("abc", "a");
    not_match("abc", "abd");
    not_match("abc", "abdc");
}

#[test]
fn test_eval_or() {
    match_("a|b", "a");
    match_("a|b", "b");

    not_match("a|b", "c");
}

#[test]
fn test_eval_star() {
    match_("a*", "a");
    match_("a*", "aaaa");
}

#[test]
fn test_eval_composite() {
    match_("a(bc|de)", "abc");
    match_("a(bc|de)", "ade");

    match_("abc|def", "abc");
    match_("abc|def", "def");

    match_("a(bc)*d", "ad");
    match_("a(bc)*d", "abcd");
    match_("a(bc)*d", "abcbcbcd");
}

#[test]
fn single_characters() {
    for c in ['a', 'z', '0', ' ', '*', 'é'] {
        let s = c.to_string();
        match_(&s, &s);
        match_(&s, &format!("{}tail", c));
        not_match(&s, "");
        not_match(&s, if c == 'q' { "r" } else { "q" });
    }
}

#[test]
fn star_accepts_the_empty_prefix() {
    match_("a*", "");
    match_("a*", "b");
    match_("a*b", "b");
    match_("a*b", "aaab");
    not_match("a*b", "aaac");
}

#[test]
fn composite_rejections() {
    not_match("a(bc|de)", "abe");
    not_match("a(bc)*d", "abcbd");
    not_match("abc|def", "abf");
    match_("a(bc)*d", "adx");
}

#[test]
fn star_over_an_empty_loop_ends() {
    match_("(a*)*", "b");
    match_("(a*)*b", "b");
    match_("(a*)*b", "aaab");
    not_match("(a*)*c", "aab");
    match_("(a|b*)*c", "abbac");
    not_match("(a|b*)*c", "abbad");
}

#[test]
fn empty_text() {
    not_match("a", "");
    match_("(a|b)*", "");
    not_match("a|b", "");
}

#[test]
fn programs_out_of_the_compiler() {
    assert!(!eval(vec![], "a"));
    assert!(eval(vec![Inst { op: Op::Match, line: 0 }], ""));
    // A jump past the end is a failed path, not a fault.
    assert!(!eval(vec![Inst { op: Op::Jmp(9), line: 0 }], "a"));
    assert!(eval(
        vec![
            Inst { op: Op::Split(5, 1), line: 0 },
            Inst { op: Op::Match, line: 1 },
        ],
        "a"
    ));
}

#[test]
fn compiled_pattern_matches_through_compile() {
    let prog = compile(&parse("a(bc)*d").unwrap());
    assert!(eval(prog.clone(), "abcbcd"));
    assert!(!eval(prog, "abcb"));
}
