use crate::codegen::{ops_of, Inst, Instr, Op};
use crate::parse::chars_of;
use vstd::prelude::*;

verus! {

/// One move of the machine from state `a` to state `b`; a state is a pair of
/// the program counter and the number of characters of the text consumed.
pub open spec fn step(p: Seq<Instr>, t: Seq<char>, a: (int, int), b: (int, int)) -> bool {
    &&& 0 <= a.0 < p.len()
    &&& match p[a.0] {
        Instr::Char(c) => 0 <= a.1 < t.len() && t[a.1] == c && b == (a.0 + 1, a.1 + 1),
        Instr::Jmp(x) => b == (x, a.1),
        Instr::Split(x, y) => b == (x, a.1) || b == (y, a.1),
        Instr::Match => false,
    }
}

/// A run of the machine: it starts at `(0, 0)` and each state moves to the next.
pub open spec fn is_run(p: Seq<Instr>, t: Seq<char>, run: Seq<(int, int)>) -> bool {
    &&& run.len() > 0
    &&& run[0] == (0int, 0int)
    &&& forall|i: int| 0 <= i < run.len() - 1 ==> step(p, t, #[trigger] run[i], run[i + 1])
}

/// Some run of the machine ends in `s`.
pub open spec fn reachable(p: Seq<Instr>, t: Seq<char>, s: (int, int)) -> bool {
    exists|run: Seq<(int, int)>| #[trigger] is_run(p, t, run) && run.last() == s
}

/// The instruction at the state's program counter is `Match`.
pub open spec fn accepting(p: Seq<Instr>, s: (int, int)) -> bool {
    0 <= s.0 < p.len() && p[s.0] is Match
}

/// Some path of the machine reaches `Match`. For a compiled program this holds
/// exactly when a prefix of `t` is in the tree's language (see `language`).
pub open spec fn accepts(p: Seq<Instr>, t: Seq<char>) -> bool {
    exists|s: (int, int)| #[trigger] reachable(p, t, s) && accepting(p, s)
}

/// Runs a program on a text; true when some path reaches `Match`.
///
/// Characters left after the accepting path do not matter: this is a match
/// of a prefix of the text. The answer is the one that a backtracking search
/// of the choice points gives wherever that search ends; this search also ends
/// where a loop of the program consumes nothing.
pub fn eval(insts: Vec<Inst>, target: &str) -> (r: bool)
    ensures
        r == accepts(ops_of(insts@), target@),
{
    let rm = Machine { insts, target_str: chars_of(target) };
    rm.run()
}

struct Machine {
    insts: Vec<Inst>,
    target_str: Vec<char>,
}

/// Every move out of `pc` that stays without consuming leads to a seen address,
/// and `pc` does not accept.
pub open spec fn settled(p: Seq<Instr>, seen: Seq<bool>, pc: int) -> bool {
    match p[pc] {
        Instr::Match => false,
        Instr::Char(_) => true,
        Instr::Jmp(x) => 0 <= x < p.len() ==> seen[x],
        Instr::Split(x, y) => (0 <= x < p.len() ==> seen[x]) && (0 <= y < p.len() ==> seen[y]),
    }
}

/// Every state at text position `sp` that the machine reaches is seen.
pub open spec fn complete_at(p: Seq<Instr>, t: Seq<char>, sp: int, seen: Seq<bool>) -> bool {
    forall|run: Seq<(int, int)>|
        #[trigger] is_run(p, t, run) && run.last().1 == sp && 0 <= run.last().0 < p.len()
            ==> seen[run.last().0]
}

/// The states through which the machine enters text position `sp` are seen.
pub open spec fn entered(p: Seq<Instr>, t: Seq<char>, sp: int, prev: Seq<bool>, seen: Seq<bool>) -> bool {
    &&& sp == 0 ==> p.len() > 0 && seen[0]
    &&& sp > 0 ==> forall|pc: int|
        0 <= pc && pc + 1 < p.len() && #[trigger] prev[pc] && p[pc] == Instr::Char(t[sp - 1])
            ==> seen[pc + 1]
}

/// What the search knows at text position `sp`: `seen` holds reachable
/// addresses, those not on `stack` are settled, and nothing before `sp` accepts.
pub open spec fn level_ok(
    p: Seq<Instr>,
    t: Seq<char>,
    sp: int,
    prev: Seq<bool>,
    seen: Seq<bool>,
    stack: Seq<usize>,
) -> bool {
    &&& 0 <= sp <= t.len()
    &&& seen.len() == p.len()
    &&& prev.len() == p.len()
    &&& forall|pc: int| 0 <= pc < p.len() && #[trigger] seen[pc] ==> reachable(p, t, (pc, sp))
    &&& forall|i: int| 0 <= i < stack.len() ==> #[trigger] stack[i] < p.len() && seen[stack[i] as int]
    &&& forall|x: usize|
        x < p.len() && #[trigger] seen[x as int] && !stack.contains(x) ==> settled(p, seen, x as int)
    &&& entered(p, t, sp, prev, seen)
    &&& sp > 0 ==> complete_at(p, t, sp - 1, prev)
    &&& forall|s: (int, int)| #[trigger] reachable(p, t, s) && 0 <= s.1 < sp ==> !accepting(p, s)
}

/// The number of addresses not yet seen.
pub open spec fn count_unseen(s: Seq<bool>) -> nat
    decreases s.len(),
{
    if s.len() == 0 {
        0
    } else {
        count_unseen(s.drop_last()) + if s.last() {
            0nat
        } else {
            1nat
        }
    }
}

proof fn lemma_count_mark(s: Seq<bool>, i: int)
    requires
        0 <= i < s.len(),
        !s[i],
    ensures
        count_unseen(s.update(i, true)) < count_unseen(s),
    decreases s.len(),
{
    let u = s.update(i, true);
    if i == s.len() - 1 {
        assert(u.drop_last() =~= s.drop_last());
    } else {
        assert(u.drop_last() =~= s.drop_last().update(i, true));
        lemma_count_mark(s.drop_last(), i);
    }
}

proof fn lemma_reach_step(p: Seq<Instr>, t: Seq<char>, a: (int, int), b: (int, int))
    requires
        reachable(p, t, a),
        step(p, t, a, b),
    ensures
        reachable(p, t, b),
{
    let run = choose|run: Seq<(int, int)>| #[trigger] is_run(p, t, run) && run.last() == a;
    let longer = run.push(b);
    assert forall|i: int| 0 <= i < longer.len() - 1 implies step(p, t, #[trigger] longer[i], longer[i + 1]) by {
        if i < run.len() - 1 {
            assert(step(p, t, run[i], run[i + 1]));
        }
    }
    assert(is_run(p, t, longer));
}

/// The prefix of a run without its last state is a run, which ends in a state that moves to it.
proof fn lemma_run_prefix(p: Seq<Instr>, t: Seq<char>, run: Seq<(int, int)>)
    requires
        is_run(p, t, run),
        run.len() > 1,
    ensures
        is_run(p, t, run.drop_last()),
        step(p, t, run.drop_last().last(), run.last()),
{
    let pre = run.drop_last();
    assert forall|i: int| 0 <= i < pre.len() - 1 implies step(p, t, #[trigger] pre[i], pre[i + 1]) by {
        assert(step(p, t, run[i], run[i + 1]));
    }
    assert(step(p, t, run[run.len() - 2], run[run.len() - 1]));
}

proof fn lemma_reach_bounds(p: Seq<Instr>, t: Seq<char>, run: Seq<(int, int)>)
    requires
        is_run(p, t, run),
    ensures
        0 <= run.last().1 <= t.len(),
    decreases run.len(),
{
    if run.len() > 1 {
        lemma_run_prefix(p, t, run);
        lemma_reach_bounds(p, t, run.drop_last());
    }
}

/// Once the moves that stay at position `sp` are all followed, every state at
/// `sp` that the machine reaches is seen.
proof fn lemma_level_complete(
    p: Seq<Instr>,
    t: Seq<char>,
    sp: int,
    prev: Seq<bool>,
    seen: Seq<bool>,
    run: Seq<(int, int)>,
)
    requires
        seen.len() == p.len(),
        forall|pc: int| 0 <= pc < p.len() && #[trigger] seen[pc] ==> settled(p, seen, pc),
        entered(p, t, sp, prev, seen),
        sp > 0 ==> complete_at(p, t, sp - 1, prev),
        is_run(p, t, run),
        run.last().1 == sp,
        0 <= run.last().0 < p.len(),
    ensures
        seen[run.last().0],
    decreases run.len(),
{
    if run.len() > 1 {
        lemma_run_prefix(p, t, run);
        let pre = run.drop_last();
        let r = pre.last();
        match p[r.0] {
            Instr::Char(c) => {
                assert(sp > 0);
                assert(complete_at(p, t, sp - 1, prev));
                assert(prev[r.0]);
                assert(entered(p, t, sp, prev, seen));
                assert(seen[r.0 + 1]);
            },
            _ => {
                lemma_level_complete(p, t, sp, prev, seen, pre);
                assert(settled(p, seen, r.0));
            },
        }
    }
}

/// Seeing `x`, which a seen address moves to without consuming, and putting it
/// on the stack keeps what the search knows.
proof fn lemma_mark(
    p: Seq<Instr>,
    t: Seq<char>,
    sp: int,
    prev: Seq<bool>,
    seen: Seq<bool>,
    st: Seq<usize>,
    st2: Seq<usize>,
    from: int,
    x: usize,
)
    requires
        level_ok(p, t, sp, prev, seen, st),
        0 <= from < p.len(),
        seen[from],
        x < p.len(),
        step(p, t, (from, sp), (x as int, sp)),
        forall|y: usize| #[trigger] st2.contains(y) <==> (st.contains(y) || y == x),
    ensures
        level_ok(p, t, sp, prev, seen.update(x as int, true), st2),
{
    let seen2 = seen.update(x as int, true);
    lemma_reach_step(p, t, (from, sp), (x as int, sp));
    assert forall|i: int| 0 <= i < st2.len() implies #[trigger] st2[i] < p.len() && seen2[st2[i] as int] by {
        assert(st2.contains(st2[i]));
        if st2[i] != x {
            let j = choose|j: int| 0 <= j < st.len() && st[j] == st2[i];
            assert(st[j] < p.len());
        }
    }
    assert forall|y: usize|
        y < p.len() && #[trigger] seen2[y as int] && !st2.contains(y) implies settled(p, seen2, y as int) by {
        assert(seen[y as int]);
        assert(settled(p, seen, y as int));
    }
}

proof fn lemma_push_contains(s: Seq<usize>, a: usize)
    ensures
        forall|y: usize| #[trigger] s.push(a).contains(y) <==> (s.contains(y) || y == a),
{
    assert forall|y: usize| #[trigger] s.push(a).contains(y) <==> (s.contains(y) || y == a) by {
        if s.contains(y) {
            let j = choose|j: int| 0 <= j < s.len() && s[j] == y;
            assert(s.push(a)[j] == y);
        }
        if y == a {
            assert(s.push(a)[s.len() as int] == y);
        }
        if s.push(a).contains(y) && y != a {
            let j = choose|j: int| 0 <= j < s.len() + 1 && s.push(a)[j] == y;
            assert(s[j] == y);
        }
    }
}

proof fn lemma_push_under(s: Seq<usize>, x: usize, pc: usize)
    ensures
        forall|y: usize| #[trigger] s.push(x).push(pc).contains(y) <==> (s.push(pc).contains(y) || y == x),
{
    lemma_push_contains(s, x);
    lemma_push_contains(s, pc);
    lemma_push_contains(s.push(x), pc);
}

/// Taking `pc` off the stack once it is settled keeps what the search knows.
proof fn lemma_settle(
    p: Seq<Instr>,
    t: Seq<char>,
    sp: int,
    prev: Seq<bool>,
    seen: Seq<bool>,
    st: Seq<usize>,
    pc: usize,
)
    requires
        level_ok(p, t, sp, prev, seen, st.push(pc)),
        settled(p, seen, pc as int),
    ensures
        level_ok(p, t, sp, prev, seen, st),
{
    let st1 = st.push(pc);
    assert forall|i: int| 0 <= i < st.len() implies #[trigger] st[i] < p.len() && seen[st[i] as int] by {
        assert(st1[i] == st[i]);
    }
    assert forall|y: usize|
        y < p.len() && #[trigger] seen[y as int] && !st.contains(y) implies settled(p, seen, y as int) by {
        if y != pc {
            if st1.contains(y) {
                let j = choose|j: int| 0 <= j < st1.len() && st1[j] == y;
                assert(st[j] == y);
            }
        }
    }
}

/// A vector of `n` times `false`.
fn unseen(n: usize) -> (r: Vec<bool>)
    ensures
        r@ == Seq::new(n as nat, |i: int| false),
{
    let mut v: Vec<bool> = Vec::new();
    while v.len() < n
        invariant
            v@.len() <= n,
            forall|i: int| 0 <= i < v@.len() ==> !#[trigger] v@[i],
        decreases n - v@.len(),
    {
        v.push(false);
    }
    assert(v@ =~= Seq::new(n as nat, |i: int| false));
    v
}

impl Machine {
    /// Searches the states of the machine, one text position at a time: first
    /// every address reachable at that position without consuming, then the
    /// addresses that consume its character. An address seen once at a
    /// position is not searched again there, so the search ends on every
    /// program, also where a loop consumes nothing.
    fn run(&self) -> (r: bool)
        ensures
            r == accepts(ops_of(self.insts@), self.target_str@),
    {
        let n = self.insts.len();
        let m = self.target_str.len();
        let ghost p = ops_of(self.insts@);
        let ghost t = self.target_str@;
        if n == 0 {
            return false;
        }
        let mut cur = unseen(n);
        cur.set(0, true);
        let mut stack: Vec<usize> = vec![0];
        let mut sp: usize = 0;
        let ghost mut prev: Seq<bool> = Seq::new(n as nat, |i: int| false);
        proof {
            assert(is_run(p, t, seq![(0int, 0int)]));
            assert forall|x: usize|
                x < p.len() && #[trigger] cur@[x as int] && !stack@.contains(x) implies settled(
                p,
                cur@,
                x as int,
            ) by {
                assert(stack@[0] == 0);
            }
        }
        loop
            invariant
                n == p.len(),
                m == t.len(),
                p == ops_of(self.insts@),
                t == self.target_str@,
                level_ok(p, t, sp as int, prev, cur@, stack@),
            decreases m - sp,
        {
            while stack.len() > 0
                invariant
                    n == p.len(),
                    m == t.len(),
                    p == ops_of(self.insts@),
                    t == self.target_str@,
                    level_ok(p, t, sp as int, prev, cur@, stack@),
                decreases count_unseen(cur@), stack.len(),
            {
                let ghost st0 = stack@;
                let pc = stack.pop().unwrap();
                proof {
                    assert(st0 =~= stack@.push(pc));
                    assert(st0.contains(pc));
                    assert(st0[st0.len() - 1] == pc);
                }
                let op = self.insts[pc].op;
                assert(p[pc as int] == op@);
                if let Op::Match = op {
                    proof {
                        assert(reachable(p, t, (pc as int, sp as int)));
                        assert(accepting(p, (pc as int, sp as int)));
                    }
                    return true;
                }
                if let Op::Jmp(x) = op {
                    if x < n && !cur[x] {
                        proof {
                            lemma_count_mark(cur@, x as int);
                            lemma_push_under(stack@, x, pc);
                            lemma_mark(p, t, sp as int, prev, cur@, stack@.push(pc), stack@.push(x).push(pc), pc as int, x);
                        }
                        cur.set(x, true);
                        stack.push(x);
                    }
                }
                if let Op::Split(x, y) = op {
                    if x < n && !cur[x] {
                        proof {
                            lemma_count_mark(cur@, x as int);
                            lemma_push_under(stack@, x, pc);
                            lemma_mark(p, t, sp as int, prev, cur@, stack@.push(pc), stack@.push(x).push(pc), pc as int, x);
                        }
                        cur.set(x, true);
                        stack.push(x);
                    }
                    if y < n && !cur[y] {
                        proof {
                            lemma_count_mark(cur@, y as int);
                            lemma_push_under(stack@, y, pc);
                            lemma_mark(p, t, sp as int, prev, cur@, stack@.push(pc), stack@.push(y).push(pc), pc as int, y);
                        }
                        cur.set(y, true);
                        stack.push(y);
                    }
                }
                proof {
                    lemma_settle(p, t, sp as int, prev, cur@, stack@, pc);
                }
            }
            proof {
                assert(stack@ =~= Seq::<usize>::empty());
                assert forall|pc: int| 0 <= pc < p.len() && #[trigger] cur@[pc] implies settled(p, cur@, pc) by {
                    let x = pc as usize;
                    assert(x as int == pc);
                    assert(!stack@.contains(x));
                }
                assert forall|run: Seq<(int, int)>|
                    #[trigger] is_run(p, t, run) && run.last().1 == sp && 0 <= run.last().0 < p.len()
                        implies cur@[run.last().0] by {
                    lemma_level_complete(p, t, sp as int, prev, cur@, run);
                }
                assert forall|s: (int, int)| #[trigger]
                    reachable(p, t, s) && 0 <= s.1 < sp + 1 implies !accepting(p, s) by {
                    if s.1 == sp && accepting(p, s) {
                        let run = choose|run: Seq<(int, int)>| #[trigger] is_run(p, t, run) && run.last() == s;
                        assert(cur@[s.0]);
                        assert(!stack@.contains(s.0 as usize));
                    }
                }
            }
            if sp == m {
                proof {
                    assert forall|s: (int, int)| #[trigger]
                        reachable(p, t, s) implies !accepting(p, s) by {
                        let run = choose|run: Seq<(int, int)>| #[trigger] is_run(p, t, run) && run.last() == s;
                        lemma_reach_bounds(p, t, run);
                    }
                }
                return false;
            }
            let c = self.target_str[sp];
            let mut next = unseen(n);
            let mut pc: usize = 0;
            while pc < n
                invariant
                    n == p.len(),
                    m == t.len(),
                    p == ops_of(self.insts@),
                    t == self.target_str@,
                    sp < m,
                    c == t[sp as int],
                    pc <= n,
                    next@.len() == n,
                    level_ok(p, t, sp as int, prev, cur@, Seq::empty()),
                    complete_at(p, t, sp as int, cur@),
                    forall|s: (int, int)| #[trigger]
                        reachable(p, t, s) && 0 <= s.1 < sp + 1 ==> !accepting(p, s),
                    forall|q: int|
                        0 <= q < n && #[trigger] next@[q] ==> reachable(p, t, (q, sp + 1)),
                    forall|i: int| 0 <= i < stack.len() ==> #[trigger] stack@[i] < n && next@[stack@[i] as int],
                    forall|x: usize| x < n && #[trigger] next@[x as int] ==> stack@.contains(x),
                    forall|q: int|
                        0 <= q < pc && q + 1 < n && #[trigger] cur@[q] && p[q] == Instr::Char(c) ==> next@[q + 1],
                decreases n - pc,
            {
                if cur[pc] {
                    if let Op::Char(d) = self.insts[pc].op {
                        if d == c && pc + 1 < n && !next[pc + 1] {
                            proof {
                                assert(p[pc as int] == Instr::Char(c));
                                lemma_reach_step(p, t, (pc as int, sp as int), (pc + 1, sp + 1));
                                lemma_push_contains(stack@, (pc + 1) as usize);
                            }
                            next.set(pc + 1, true);
                            stack.push(pc + 1);
                        }
                    }
                }
                pc += 1;
            }
            proof {
                prev = cur@;
            }
            cur = next;
            sp += 1;
        }
    }
}

} // verus!
