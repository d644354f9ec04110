use crate::parse::{lemma_view_nodes_len, view_nodes, Node, Re};
use vstd::prelude::*;

verus! {

/// An operation of the bytecode.
#[derive(Debug, Clone, Copy, PartialEq, Eq, Structural)]
pub enum Op {
    /// Consume one character of the text if it equals this one; else this path fails.
    Char(char),
    /// Go on at the given address.
    Jmp(usize),
    /// Try the first address; if that path fails, try the second from the same place in the text.
    Split(usize, usize),
    /// Accept.
    Match,
}

/// An instruction: an operation and the address it stands at.
#[derive(Debug, Clone, Copy, PartialEq, Eq, Structural)]
pub struct Inst {
    pub op: Op,
    pub line: usize,
}

/// The mathematical value of an [`Op`], with addresses as integers.
pub enum Instr {
    Char(char),
    Jmp(int),
    Split(int, int),
    Match,
}

impl View for Op {
    type V = Instr;

    open spec fn view(&self) -> Instr {
        match self {
            Op::Char(c) => Instr::Char(*c),
            Op::Jmp(a) => Instr::Jmp(*a as int),
            Op::Split(a, b) => Instr::Split(*a as int, *b as int),
            Op::Match => Instr::Match,
        }
    }
}

/// The operations of a list of instructions.
pub open spec fn ops_of(insts: Seq<Inst>) -> Seq<Instr> {
    insts.map_values(|i: Inst| i.op@)
}

/// Each instruction holds its own address, counted from `base`.
pub open spec fn numbered_from(insts: Seq<Inst>, base: int) -> bool {
    forall|i: int| 0 <= i < insts.len() ==> #[trigger] insts[i].line == base + i
}

/// The number of instructions that a tree compiles to.
pub open spec fn code_len(n: Re) -> nat
    decreases n,
{
    match n {
        Re::Char(_) => 1,
        Re::Concat(s) => items_len(s),
        Re::Star(b) => code_len(*b) + 2,
        Re::Alt(a, b) => code_len(*a) + code_len(*b) + 2,
    }
}

/// The number of instructions that a list of trees compiles to, back to back.
pub open spec fn items_len(s: Seq<Re>) -> nat
    decreases s,
{
    if s.len() == 0 {
        0
    } else {
        items_len(s.subrange(0, s.len() - 1)) + code_len(s[s.len() - 1])
    }
}

/// The code of a tree whose first instruction stands at address `l`.
///
/// A star is a split that enters the body or skips past it, the body, and a
/// jump back to the split. An alternation is a split between the two
/// branches, the left branch, a jump past the right branch, and the right
/// branch.
pub open spec fn code(n: Re, l: int) -> Seq<Instr>
    decreases n,
{
    match n {
        Re::Char(c) => seq![Instr::Char(c)],
        Re::Concat(s) => items_code(s, l),
        Re::Star(b) => seq![Instr::Split(l + 1, l + code_len(*b) + 2)] + code(*b, l + 1) + seq![
            Instr::Jmp(l),
        ],
        Re::Alt(a, b) => seq![Instr::Split(l + 1, l + code_len(*a) + 2)] + code(*a, l + 1) + seq![
            Instr::Jmp(l + code_len(*a) + code_len(*b) + 2),
        ] + code(*b, l + code_len(*a) + 2),
    }
}

/// The code of a list of trees, back to back, from address `l`.
pub open spec fn items_code(s: Seq<Re>, l: int) -> Seq<Instr>
    decreases s,
{
    if s.len() == 0 {
        Seq::empty()
    } else {
        items_code(s.subrange(0, s.len() - 1), l) + code(
            s[s.len() - 1],
            l + items_len(s.subrange(0, s.len() - 1)),
        )
    }
}

/// The program of a tree: its code from address 0, then `Match`.
pub open spec fn program(n: Re) -> Seq<Instr> {
    code(n, 0).push(Instr::Match)
}

pub proof fn lemma_code_len(n: Re, l: int)
    ensures
        code(n, l).len() == code_len(n),
    decreases n,
{
    match n {
        Re::Char(_) => {},
        Re::Concat(s) => lemma_items_code_len(s, l),
        Re::Star(b) => lemma_code_len(*b, l + 1),
        Re::Alt(a, b) => {
            lemma_code_len(*a, l + 1);
            lemma_code_len(*b, l + code_len(*a) + 2);
        },
    }
}

pub proof fn lemma_items_code_len(s: Seq<Re>, l: int)
    ensures
        items_code(s, l).len() == items_len(s),
    decreases s,
{
    if s.len() > 0 {
        let init = s.subrange(0, s.len() - 1);
        lemma_items_code_len(init, l);
        lemma_code_len(s[s.len() - 1], l + items_len(init));
    }
}

pub proof fn lemma_items_len_prefix(s: Seq<Re>, j: int)
    requires
        0 <= j <= s.len(),
    ensures
        items_len(s.subrange(0, j)) <= items_len(s),
    decreases s.len() - j,
{
    if j < s.len() {
        let init = s.subrange(0, s.len() - 1);
        assert(init.subrange(0, j) =~= s.subrange(0, j));
        lemma_items_len_prefix(init, j);
    } else {
        assert(s.subrange(0, j) =~= s);
    }
}

/// Compiles syntax trees, keeping the address that the next instruction will take.
pub struct Generator {
    line: usize,
}

impl Generator {
    /// The address that the next instruction will take.
    pub closed spec fn next_address(&self) -> int {
        self.line as int
    }

    /// A generator that starts at address 0.
    pub fn new() -> (g: Self)
        ensures
            g.next_address() == 0,
    {
        Generator { line: 0 }
    }

    /// Compiles a tree from the current address and appends `Match`.
    ///
    /// Every `Jmp` and `Split` address lands on the first instruction of the
    /// intended part of the code.
    pub fn gen(&mut self, n: &Node) -> (r: Vec<Inst>)
        requires
            old(self).next_address() + code_len(n@) <= usize::MAX,
        ensures
            ops_of(r@) == code(n@, old(self).next_address()).push(Instr::Match),
            numbered_from(r@, old(self).next_address()),
            r@.len() == code_len(n@) + 1,
            final(self).next_address() == old(self).next_address() + code_len(n@),
    {
        let mut insts = self.gen_expr(n);
        let ghost before = insts@;
        insts.push(Inst { op: Op::Match, line: self.line });
        assert(ops_of(insts@) =~= ops_of(before).push(Instr::Match));
        insts
    }

    fn gen_expr(&mut self, n: &Node) -> (r: Vec<Inst>)
        requires
            old(self).line + code_len(n@) <= usize::MAX,
        ensures
            ops_of(r@) == code(n@, old(self).line as int),
            numbered_from(r@, old(self).line as int),
            r@.len() == code_len(n@),
            final(self).line == old(self).line + code_len(n@),
        decreases n,
    {
        proof {
            lemma_code_len(n@, self.line as int);
        }
        match n {
            Node::Char(c) => {
                let l = self.line;
                self.line += 1;
                proof {
                    crate::parse::lemma_char_view(*c);
                }
                let r = vec![Inst { op: Op::Char(*c), line: l }];
                assert(ops_of(r@) =~= seq![Instr::Char(*c)]);
                r
            },
            Node::Concat(seq) => {
                let ghost l0 = self.line as int;
                let ghost items = view_nodes(seq@);
                let mut insts: Vec<Inst> = vec![];
                let mut k: usize = 0;
                proof {
                    assert(items.subrange(0, 0) =~= Seq::<Re>::empty());
                    assert(ops_of(insts@) =~= Seq::<Instr>::empty());
                    lemma_view_nodes_len(seq@);
                }
                while k < seq.len()
                    invariant
                        *n == Node::Concat(*seq),
                        n@ == Re::Concat(items),
                        items == view_nodes(seq@),
                        items.len() == seq@.len(),
                        0 <= k <= seq@.len(),
                        l0 + items_len(items) <= usize::MAX,
                        ops_of(insts@) == items_code(items.subrange(0, k as int), l0),
                        numbered_from(insts@, l0),
                        insts@.len() == items_len(items.subrange(0, k as int)),
                        self.line == l0 + items_len(items.subrange(0, k as int)),
                    decreases seq@.len() - k,
                {
                    let e = &seq[k];
                    proof {
                        lemma_view_nodes_len(seq@);
                        let pre = items.subrange(0, k as int);
                        let next = items.subrange(0, k + 1);
                        assert(next.subrange(0, k as int) =~= pre);
                        assert(next[k as int] == e@);
                        lemma_items_len_prefix(items, k + 1);
                    }
                    proof {
                        assert(decreases_to!(*seq => seq@[k as int]));
                        assert(decreases_to!(*n => *seq));
                        assert(decreases_to!(*n => seq@[k as int]));
                    }
                    let mut sub = self.gen_expr(e);
                    let ghost old_insts = insts@;
                    let ghost sv = sub@;
                    insts.append(&mut sub);
                    proof {
                        assert(ops_of(insts@) =~= ops_of(old_insts) + ops_of(sv));
                        assert(forall|i: int|
                            old_insts.len() <= i < insts@.len() ==> insts@[i] == sv[i
                                - old_insts.len()]);
                    }
                    k += 1;
                }
                proof {
                    assert(items.subrange(0, k as int) =~= items);
                }
                insts
            },
            Node::Or((lhs, rhs)) => {
                let l = self.line;
                self.line += 1;
                let mut lhs = self.gen_expr(lhs);
                let lhs_len = lhs.len();
                let mut insts = vec![];
                insts.push(Inst { op: Op::Split(l + 1, l + lhs_len + 2), line: l });
                let ghost a = insts@;
                let ghost lv = lhs@;
                insts.append(&mut lhs);
                let l2 = self.line;
                self.line += 1;
                let mut rhs = self.gen_expr(rhs);
                let rhs_len = rhs.len();
                insts.push(Inst { op: Op::Jmp(l2 + rhs_len + 1), line: l2 });
                let ghost b = insts@;
                let ghost rv = rhs@;
                insts.append(&mut rhs);
                proof {
                    assert(ops_of(insts@) =~= ops_of(a) + ops_of(lv) + ops_of(seq![b.last()])
                        + ops_of(rv));
                    assert(forall|i: int|
                        a.len() <= i < b.len() - 1 ==> insts@[i] == lv[i - a.len()]);
                    assert(forall|i: int| b.len() <= i < insts@.len() ==> insts@[i] == rv[i - b.len()]);
                }
                insts
            },
            Node::Star(body) => {
                let l = self.line;
                self.line += 1;
                let mut lhs = self.gen_expr(body);
                let lhs_len = lhs.len();
                let mut insts = vec![];
                insts.push(Inst { op: Op::Split(l + 1, l + lhs_len + 2), line: l });
                let ghost a = insts@;
                let ghost lv = lhs@;
                insts.append(&mut lhs);
                insts.push(Inst { op: Op::Jmp(l), line: self.line });
                self.line += 1;
                proof {
                    assert(ops_of(insts@) =~= ops_of(a) + ops_of(lv) + seq![Instr::Jmp(l as int)]);
                    assert(forall|i: int|
                        a.len() <= i < insts@.len() - 1 ==> insts@[i] == lv[i - a.len()]);
                }
                insts
            },
        }
    }
}

/// Compiles a tree into a program that starts at address 0.
pub fn compile(n: &Node) -> (r: Vec<Inst>)
    requires
        code_len(n@) <= usize::MAX,
    ensures
        ops_of(r@) == program(n@),
        numbered_from(r@, 0),
{
    let mut g = Generator::new();
    g.gen(n)
}

} // verus!
