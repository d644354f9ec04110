use tiny_regex::codegen::{compile, Generator, Inst, Op};
use tiny_regex::parse::{parse, Node};

fn test(input: Node, out: Vec<Inst>) {
    let mut g = Generator::new();
    assert_eq!(g.gen(&input), out);
}

fn inst(op: Op, line: usize) -> Inst {
    Inst { op, line }
}

#[test]
fn test_codegen_char() {
    test(
        Node::Char('a'),
        vec![inst(Op::Char('a'), 0), inst(Op::Match, 1)],
    )
}

#[test]
fn test_codegen_seq() {
    test(
        Node::Concat(vec![Node::Char('a'), Node::Char('b'), Node::Char('c')]),
        vec![
            inst(Op::Char('a'), 0),
            inst(Op::Char('b'), 1),
            inst(Op::Char('c'), 2),
            inst(Op::Match, 3),
        ],
    )
}

#[test]
fn test_codegen_or() {
    test(
        Node::Or((Box::new(Node::Char('a')), Box::new(Node::Char('b')))),
        vec![
            inst(Op::Split(1, 3), 0),
            inst(Op::Char('a'), 1),
            inst(Op::Jmp(4), 2),
            inst(Op::Char('b'), 3),
            inst(Op::Match, 4),
        ],
    );

    test(
        Node::Or((
            Box::new(Node::Char('a')),
            Box::new(Node::Or((
                Box::new(Node::Char('b')),
                Box::new(Node::Char('c')),
            ))),
        )),
        vec![
            inst(Op::Split(1, 3), 0),
            inst(Op::Char('a'), 1),
            inst(Op::Jmp(7), 2),
            inst(Op::Split(4, 6), 3),
            inst(Op::Char('b'), 4),
            inst(Op::Jmp(7), 5),
            inst(Op::Char('c'), 6),
            inst(Op::Match, 7),
        ],
    );
}

#[test]
fn test_codegen_star() {
    test(
        Node::Star(Box::new(Node::Char('a'))),
        vec![
            inst(Op::Split(1, 3), 0),
            inst(Op::Char('a'), 1),
            inst(Op::Jmp(0), 2),
            inst(Op::Match, 3),
        ],
    );
}

#[test]
fn star_of_group_in_sequence() {
    // a(bc)*d
    let n = parse("a(bc)*d").unwrap();
    assert_eq!(
        compile(&n),
        vec![
            inst(Op::Char('a'), 0),
            inst(Op::Split(2, 5), 1),
            inst(Op::Char('b'), 2),
            inst(Op::Char('c'), 3),
            inst(Op::Jmp(1), 4),
            inst(Op::Char('d'), 5),
            inst(Op::Match, 6),
        ]
    );
}

#[test]
fn generator_continues_from_its_address() {
    let mut g = Generator::new();
    let first = g.gen(&Node::Char('a'));
    assert_eq!(first, vec![inst(Op::Char('a'), 0), inst(Op::Match, 1)]);
    let second = g.gen(&Node::Star(Box::new(Node::Char('b'))));
    assert_eq!(
        second,
        vec![
            inst(Op::Split(2, 4), 1),
            inst(Op::Char('b'), 2),
            inst(Op::Jmp(1), 3),
            inst(Op::Match, 4),
        ]
    );
}

#[test]
fn compiling_twice_gives_the_same_program() {
    let n = parse("a(bc|de)*f|g").unwrap();
    assert_eq!(compile(&n), compile(&n));
    let mut g1 = Generator::new();
    let mut g2 = Generator::new();
    assert_eq!(g1.gen(&n), g2.gen(&n));
}

#[test]
fn jump_targets_stay_in_the_program() {
    for pattern in ["a", "abc", "a|b|c", "(ab)*", "a(bc|de)", "a(bc)*d", "(a*)*", "((a|b)*c|d*)*e"] {
        let prog = compile(&parse(pattern).unwrap());
        let len = prog.len();
        assert_eq!(prog[len - 1].op, Op::Match);
        for (i, ins) in prog.iter().enumerate() {
            assert_eq!(ins.line, i);
            match ins.op {
                Op::Jmp(x) => assert!(x < len),
                Op::Split(x, y) => assert!(x < len && y < len),
                Op::Match => assert_eq!(i, len - 1),
                Op::Char(_) => {}
            }
        }
    }
}
