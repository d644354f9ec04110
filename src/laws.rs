use crate::codegen::{
    code, code_len, items_code, items_len, lemma_code_len, lemma_items_code_len, numbered_from,
    ops_of, program, Inst, Instr, Op,
};
use crate::evaluator::{accepting, accepts, is_run, reachable, step};
use crate::parse::{
    concat_spec, group_spec, items_spec, or_spec, parse_spec, star_spec, Re,
};
use vstd::prelude::*;

verus! {

/// Every `Jmp` and `Split` of `p` names an address of `p`.
pub open spec fn targets_within(p: Seq<Instr>) -> bool {
    forall|i: int|
        0 <= i < p.len() ==> match #[trigger] p[i] {
            Instr::Jmp(x) => 0 <= x < p.len(),
            Instr::Split(x, y) => 0 <= x < p.len() && 0 <= y < p.len(),
            _ => true,
        }
}

/// Every `Jmp` and `Split` of `c` names an address in `[lo, hi]`, and `c` holds no `Match`.
pub open spec fn targets_between(c: Seq<Instr>, lo: int, hi: int) -> bool {
    forall|i: int|
        0 <= i < c.len() ==> match #[trigger] c[i] {
            Instr::Jmp(x) => lo <= x <= hi,
            Instr::Split(x, y) => lo <= x <= hi && lo <= y <= hi,
            Instr::Match => false,
            Instr::Char(_) => true,
        }
}

pub proof fn lemma_code_targets(n: Re, l: int)
    ensures
        targets_between(code(n, l), l, l + code_len(n)),
    decreases n,
{
    lemma_code_len(n, l);
    match n {
        Re::Char(_) => {},
        Re::Concat(s) => lemma_items_targets(s, l),
        Re::Star(b) => {
            lemma_code_targets(*b, l + 1);
            lemma_code_len(*b, l + 1);
            let c = code(n, l);
            let body = code(*b, l + 1);
            assert forall|i: int| 0 <= i < c.len() implies match #[trigger] c[i] {
                Instr::Jmp(x) => l <= x <= l + code_len(n),
                Instr::Split(x, y) => l <= x <= l + code_len(n) && l <= y <= l + code_len(n),
                Instr::Match => false,
                Instr::Char(_) => true,
            } by {
                if 1 <= i < 1 + body.len() {
                    assert(c[i] == body[i - 1]);
                }
            }
        },
        Re::Alt(a, b) => {
            lemma_code_targets(*a, l + 1);
            lemma_code_len(*a, l + 1);
            lemma_code_targets(*b, l + code_len(*a) + 2);
            lemma_code_len(*b, l + code_len(*a) + 2);
            let c = code(n, l);
            let ca = code(*a, l + 1);
            let cb = code(*b, l + code_len(*a) + 2);
            assert forall|i: int| 0 <= i < c.len() implies match #[trigger] c[i] {
                Instr::Jmp(x) => l <= x <= l + code_len(n),
                Instr::Split(x, y) => l <= x <= l + code_len(n) && l <= y <= l + code_len(n),
                Instr::Match => false,
                Instr::Char(_) => true,
            } by {
                if 1 <= i < 1 + ca.len() {
                    assert(c[i] == ca[i - 1]);
                } else if 2 + ca.len() <= i {
                    assert(c[i] == cb[i - 2 - ca.len()]);
                }
            }
        },
    }
}

pub proof fn lemma_items_targets(s: Seq<Re>, l: int)
    ensures
        targets_between(items_code(s, l), l, l + items_len(s)),
    decreases s,
{
    lemma_items_code_len(s, l);
    if s.len() > 0 {
        let init = s.subrange(0, s.len() - 1);
        let last = s[s.len() - 1];
        lemma_items_targets(init, l);
        lemma_items_code_len(init, l);
        lemma_code_targets(last, l + items_len(init));
        let c = items_code(s, l);
        let ci = items_code(init, l);
        let cl = code(last, l + items_len(init));
        assert forall|i: int| 0 <= i < c.len() implies match #[trigger] c[i] {
            Instr::Jmp(x) => l <= x <= l + items_len(s),
            Instr::Split(x, y) => l <= x <= l + items_len(s) && l <= y <= l + items_len(s),
            Instr::Match => false,
            Instr::Char(_) => true,
        } by {
            if i < ci.len() {
                assert(c[i] == ci[i]);
            } else {
                assert(c[i] == cl[i - ci.len()]);
            }
        }
    }
}

/// A compiled program keeps control on its own addresses: every `Jmp` and
/// `Split` names an address of the program, the one `Match` is the last
/// instruction, and every state that a run reaches, on any text, stands at an
/// address of the program. A run therefore stops only at `Match` or at a
/// `Char` that does not fit the text; it never runs off the end.
pub proof fn compiled_addresses_in_range(n: Re, t: Seq<char>)
    ensures
        targets_within(program(n)),
        program(n).last() == Instr::Match,
        forall|i: int| 0 <= i < program(n).len() - 1 ==> !(#[trigger] program(n)[i] is Match),
        forall|s: (int, int)| #[trigger] reachable(program(n), t, s) ==> 0 <= s.0 < program(n).len(),
{
    let p = program(n);
    let c = code(n, 0);
    lemma_code_targets(n, 0);
    lemma_code_len(n, 0);
    assert forall|i: int| 0 <= i < p.len() - 1 implies !(#[trigger] p[i] is Match) by {
        assert(p[i] == c[i]);
    }
    assert forall|i: int| 0 <= i < p.len() implies match #[trigger] p[i] {
        Instr::Jmp(x) => 0 <= x < p.len(),
        Instr::Split(x, y) => 0 <= x < p.len() && 0 <= y < p.len(),
        _ => true,
    } by {
        if i < c.len() {
            assert(p[i] == c[i]);
        }
    }
    assert forall|s: (int, int)| #[trigger] reachable(p, t, s) implies 0 <= s.0 < p.len() by {
        let run = choose|run: Seq<(int, int)>| #[trigger] is_run(p, t, run) && run.last() == s;
        if run.len() > 1 {
            let a = run[run.len() - 2];
            assert(step(p, t, a, run[run.len() - 1]));
            if p[a.0] is Char {
                assert(a.0 < p.len() - 1);
            }
        }
    }
}

/// Two programs that both meet the compiler's contract for one tree are
/// equal: compiling a tree twice yields the same instructions.
pub proof fn compile_is_deterministic(n: Re, a: Seq<Inst>, b: Seq<Inst>)
    requires
        ops_of(a) == program(n),
        numbered_from(a, 0),
        ops_of(b) == program(n),
        numbered_from(b, 0),
    ensures
        a == b,
{
    assert(a.len() == ops_of(a).len());
    assert(b.len() == ops_of(b).len());
    assert forall|i: int| 0 <= i < a.len() implies a[i] == b[i] by {
        assert(ops_of(a)[i] == a[i].op@);
        assert(ops_of(b)[i] == b[i].op@);
        lemma_op_view_injective(a[i].op, b[i].op);
        assert(a[i].line == 0 + i);
        assert(b[i].line == 0 + i);
    }
    assert(a =~= b);
}

proof fn lemma_op_view_injective(x: Op, y: Op)
    requires
        x@ == y@,
    ensures
        x == y,
{
}

/// A pattern of one character that is not `(`, `)` or `|` parses to that
/// character, and its program accepts exactly the texts that begin with it.
pub proof fn single_character_pattern(c: char, t: Seq<char>)
    requires
        c != '(',
        c != ')',
        c != '|',
    ensures
        parse_spec(seq![c]) == Ok::<Re, crate::parse::ParseError>(Re::Char(c)),
        accepts(program(Re::Char(c)), t) <==> (t.len() > 0 && t[0] == c),
{
    let s = seq![c];
    assert(group_spec(s, 0) == Some((Re::Char(c), 1int)));
    assert(star_spec(s, 0) == Some((Re::Char(c), 1int)));
    assert(items_spec(s, 1) == Some((Seq::<Re>::empty(), 1int)));
    assert(seq![Re::Char(c)] + Seq::<Re>::empty() =~= seq![Re::Char(c)]);
    assert(items_spec(s, 0) == Some((seq![Re::Char(c)], 1int)));
    assert(concat_spec(s, 0) == Some((Re::Char(c), 1int)));
    assert(or_spec(s, 0) == Some((Re::Char(c), 1int)));
    let p = program(Re::Char(c));
    assert(p =~= seq![Instr::Char(c), Instr::Match]);
    if t.len() > 0 && t[0] == c {
        let run = seq![(0int, 0int), (1int, 1int)];
        assert(step(p, t, run[0], run[1]));
        assert(is_run(p, t, run));
        assert(reachable(p, t, (1, 1)) && accepting(p, (1, 1)));
    } else {
        assert forall|s2: (int, int)| #[trigger] reachable(p, t, s2) implies !accepting(p, s2) by {
            let run = choose|run: Seq<(int, int)>| #[trigger] is_run(p, t, run) && run.last() == s2;
            lemma_stays_at_start(p, t, c, run);
        }
    }
}

proof fn lemma_stays_at_start(p: Seq<Instr>, t: Seq<char>, c: char, run: Seq<(int, int)>)
    requires
        p == seq![Instr::Char(c), Instr::Match],
        !(t.len() > 0 && t[0] == c),
        is_run(p, t, run),
    ensures
        run.last() == (0int, 0int),
    decreases run.len(),
{
    if run.len() > 1 {
        let pre = run.drop_last();
        assert forall|i: int| 0 <= i < pre.len() - 1 implies step(p, t, #[trigger] pre[i], pre[i + 1]) by {
            assert(step(p, t, run[i], run[i + 1]));
        }
        lemma_stays_at_start(p, t, c, pre);
        assert(step(p, t, run[run.len() - 2], run[run.len() - 1]));
    }
}

} // verus!
