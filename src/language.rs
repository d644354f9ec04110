use crate::codegen::{
    code, code_len, items_code, items_len, lemma_code_len, lemma_items_code_len, program, Instr,
};
use crate::evaluator::{accepting, accepts, is_run, reachable, step};
use crate::laws::{
    compiled_addresses_in_range, lemma_code_targets, lemma_items_targets, targets_between,
};
use crate::parse::Re;
use vstd::prelude::*;

verus! {

/// The word `w` is in the language of `n`.
pub open spec fn lang(n: Re, w: Seq<char>) -> bool
    decreases n, w.len(), 1int, 0int,
{
    match n {
        Re::Char(c) => w == seq![c],
        Re::Concat(s) => cat_lang(s, w),
        Re::Star(_) => w.len() == 0 || star_split(n, w, w.len() as int),
        Re::Alt(a, b) => lang(*a, w) || lang(*b, w),
    }
}

/// `w` is the concatenation of words of the languages of `s`, in order.
pub open spec fn cat_lang(s: Seq<Re>, w: Seq<char>) -> bool
    decreases s, w.len(), 1int, 0int,
{
    if s.len() == 0 {
        w.len() == 0
    } else {
        cat_split(s, w, w.len() as int)
    }
}

/// For some `j <= k`, the first `j` characters of `w` are in the language of
/// all but the last of `s`, and the rest in the language of the last.
pub open spec fn cat_split(s: Seq<Re>, w: Seq<char>, k: int) -> bool
    decreases s, w.len(), 0int, k,
{
    if 0 < s.len() && 0 <= k <= w.len() {
        (cat_lang(s.subrange(0, s.len() - 1), w.subrange(0, k)) && lang(
            s[s.len() - 1],
            w.subrange(k, w.len() as int),
        )) || (k > 0 && cat_split(s, w, k - 1))
    } else {
        false
    }
}

/// `n` is a star `b*`, and for some `j` with `1 <= j <= k` the first `j`
/// characters of `w` are in the language of `b` and the rest in that of `n`.
pub open spec fn star_split(n: Re, w: Seq<char>, k: int) -> bool
    decreases n, w.len(), 0int, k,
{
    match n {
        Re::Star(b) => if 1 <= k <= w.len() {
            (lang(*b, w.subrange(0, k)) && lang(n, w.subrange(k, w.len() as int))) || star_split(
                n,
                w,
                k - 1,
            )
        } else {
            false
        },
        _ => false,
    }
}

/// A path of the machine: each state moves to the next.
pub open spec fn is_path(p: Seq<Instr>, t: Seq<char>, path: Seq<(int, int)>) -> bool {
    &&& path.len() > 0
    &&& forall|i: int| 0 <= i < path.len() - 1 ==> step(p, t, #[trigger] path[i], path[i + 1])
}

/// Some path of the machine leads from `a` to `b`.
pub open spec fn connects(p: Seq<Instr>, t: Seq<char>, a: (int, int), b: (int, int)) -> bool {
    exists|path: Seq<(int, int)>| #[trigger] is_path(p, t, path) && path[0] == a && path.last() == b
}

/// `c` stands in `p` from address `l` on.
pub open spec fn embeds(p: Seq<Instr>, c: Seq<Instr>, l: int) -> bool {
    &&& 0 <= l
    &&& l + c.len() <= p.len()
    &&& forall|j: int| 0 <= j < c.len() ==> p[l + j] == #[trigger] c[j]
}

proof fn lemma_connects_refl(p: Seq<Instr>, t: Seq<char>, a: (int, int))
    ensures
        connects(p, t, a, a),
{
    assert(is_path(p, t, seq![a]));
}

proof fn lemma_connects_step(p: Seq<Instr>, t: Seq<char>, a: (int, int), b: (int, int))
    requires
        step(p, t, a, b),
    ensures
        connects(p, t, a, b),
{
    let path = seq![a, b];
    assert(step(p, t, path[0], path[1]));
    assert(is_path(p, t, path));
}

proof fn lemma_connects_trans(
    p: Seq<Instr>,
    t: Seq<char>,
    a: (int, int),
    b: (int, int),
    c: (int, int),
)
    requires
        connects(p, t, a, b),
        connects(p, t, b, c),
    ensures
        connects(p, t, a, c),
{
    let first = choose|path: Seq<(int, int)>| #[trigger] is_path(p, t, path) && path[0] == a && path.last() == b;
    let second = choose|path: Seq<(int, int)>| #[trigger] is_path(p, t, path) && path[0] == b && path.last() == c;
    let joined = first + second.drop_first();
    assert forall|i: int| 0 <= i < joined.len() - 1 implies step(p, t, #[trigger] joined[i], joined[i + 1]) by {
        if i < first.len() - 1 {
            assert(step(p, t, first[i], first[i + 1]));
        } else {
            let k = i - (first.len() - 1);
            assert(joined[i] == second[k]);
            assert(joined[i + 1] == second[k + 1]);
            assert(step(p, t, second[k], second[k + 1]));
        }
    }
    assert(is_path(p, t, joined));
}

proof fn cat_split_witness(s: Seq<Re>, w: Seq<char>, k: int) -> (j: int)
    requires
        cat_split(s, w, k),
    ensures
        0 < s.len(),
        0 <= j <= w.len(),
        cat_lang(s.subrange(0, s.len() - 1), w.subrange(0, j)),
        lang(s[s.len() - 1], w.subrange(j, w.len() as int)),
    decreases k,
{
    if cat_lang(s.subrange(0, s.len() - 1), w.subrange(0, k)) && lang(
        s[s.len() - 1],
        w.subrange(k, w.len() as int),
    ) {
        k
    } else {
        cat_split_witness(s, w, k - 1)
    }
}

proof fn star_split_witness(n: Re, b: Re, w: Seq<char>, k: int) -> (j: int)
    requires
        n == Re::Star(Box::new(b)),
        star_split(n, w, k),
    ensures
        1 <= j <= w.len(),
        lang(b, w.subrange(0, j)),
        lang(n, w.subrange(j, w.len() as int)),
    decreases k,
{
    if lang(b, w.subrange(0, k)) && lang(n, w.subrange(k, w.len() as int)) {
        k
    } else {
        star_split_witness(n, b, w, k - 1)
    }
}

/// Where the code of `n` stands in `p` at `l` and the text holds a word of
/// the language of `n` at `i`, a path leads from the code's start, at `i`, to
/// the address after the code, past the word.
proof fn lemma_code_complete(p: Seq<Instr>, t: Seq<char>, n: Re, l: int, i: int, w: Seq<char>)
    requires
        embeds(p, code(n, l), l),
        0 <= i,
        i + w.len() <= t.len(),
        t.subrange(i, i + w.len()) == w,
        lang(n, w),
    ensures
        connects(p, t, (l, i), (l + code_len(n), i + w.len())),
    decreases n, w.len(), 1int, 0int,
{
    lemma_code_len(n, l);
    let c = code(n, l);
    match n {
        Re::Char(ch) => {
            assert(p[l + 0] == c[0]);
            assert(t[i + 0] == w[0]);
            lemma_connects_step(p, t, (l, i), (l + 1, i + 1));
        },
        Re::Concat(s) => {
            lemma_items_complete(p, t, s, l, i, w);
        },
        Re::Alt(a, b) => {
            let la = code_len(*a) as int;
            let lb = code_len(*b) as int;
            let ca = code(*a, l + 1);
            let cb = code(*b, l + la + 2);
            lemma_code_len(*a, l + 1);
            lemma_code_len(*b, l + la + 2);
            assert(p[l + 0] == c[0]);
            assert(p[l + (la + 1)] == c[la + 1]);
            if lang(*a, w) {
                assert forall|j: int| 0 <= j < ca.len() implies p[(l + 1) + j] == #[trigger] ca[j] by {
                    assert(p[l + (1 + j)] == c[1 + j]);
                }
                lemma_connects_step(p, t, (l, i), (l + 1, i));
                lemma_code_complete(p, t, *a, l + 1, i, w);
                lemma_connects_trans(p, t, (l, i), (l + 1, i), (l + 1 + la, i + w.len()));
                assert(step(p, t, (l + 1 + la, i + w.len()), (l + la + lb + 2, i + w.len())));
                lemma_connects_step(p, t, (l + 1 + la, i + w.len()), (l + la + lb + 2, i + w.len()));
                lemma_connects_trans(p, t, (l, i), (l + 1 + la, i + w.len()), (l + la + lb + 2, i + w.len()));
            } else {
                assert forall|j: int| 0 <= j < cb.len() implies p[(l + la + 2) + j] == #[trigger] cb[j] by {
                    assert(p[l + (la + 2 + j)] == c[la + 2 + j]);
                }
                lemma_connects_step(p, t, (l, i), (l + la + 2, i));
                lemma_code_complete(p, t, *b, l + la + 2, i, w);
                lemma_connects_trans(p, t, (l, i), (l + la + 2, i), (l + la + 2 + lb, i + w.len()));
            }
        },
        Re::Star(b) => {
            let lb = code_len(*b) as int;
            let cb = code(*b, l + 1);
            lemma_code_len(*b, l + 1);
            assert(p[l + 0] == c[0]);
            if w.len() == 0 {
                lemma_connects_step(p, t, (l, i), (l + lb + 2, i));
            } else {
                let j = star_split_witness(n, *b, w, w.len() as int);
                let w1 = w.subrange(0, j);
                let w2 = w.subrange(j, w.len() as int);
                assert(t.subrange(i, i + w1.len()) =~= w1);
                assert(t.subrange(i + j, i + j + w2.len()) =~= w2);
                assert forall|q: int| 0 <= q < cb.len() implies p[(l + 1) + q] == #[trigger] cb[q] by {
                    assert(p[l + (1 + q)] == c[1 + q]);
                }
                assert(p[l + (lb + 1)] == c[lb + 1]);
                lemma_connects_step(p, t, (l, i), (l + 1, i));
                lemma_code_complete(p, t, *b, l + 1, i, w1);
                lemma_connects_trans(p, t, (l, i), (l + 1, i), (l + 1 + lb, i + j));
                lemma_connects_step(p, t, (l + 1 + lb, i + j), (l, i + j));
                lemma_connects_trans(p, t, (l, i), (l + 1 + lb, i + j), (l, i + j));
                lemma_code_complete(p, t, n, l, i + j, w2);
                lemma_connects_trans(p, t, (l, i), (l, i + j), (l + lb + 2, i + w.len()));
            }
        },
    }
}

proof fn lemma_items_complete(p: Seq<Instr>, t: Seq<char>, s: Seq<Re>, l: int, i: int, w: Seq<char>)
    requires
        embeds(p, items_code(s, l), l),
        0 <= i,
        i + w.len() <= t.len(),
        t.subrange(i, i + w.len()) == w,
        cat_lang(s, w),
    ensures
        connects(p, t, (l, i), (l + items_len(s), i + w.len())),
    decreases s, w.len(), 1int, 0int,
{
    lemma_items_code_len(s, l);
    if s.len() == 0 {
        lemma_connects_refl(p, t, (l, i));
    } else {
        let init = s.subrange(0, s.len() - 1);
        let last = s[s.len() - 1];
        let j = cat_split_witness(s, w, w.len() as int);
        let w1 = w.subrange(0, j);
        let w2 = w.subrange(j, w.len() as int);
        let c = items_code(s, l);
        let ci = items_code(init, l);
        let li = items_len(init) as int;
        let cl = code(last, l + li);
        lemma_items_code_len(init, l);
        lemma_code_len(last, l + li);
        assert(t.subrange(i, i + w1.len()) =~= w1);
        assert(t.subrange(i + j, i + j + w2.len()) =~= w2);
        assert forall|q: int| 0 <= q < ci.len() implies p[l + q] == #[trigger] ci[q] by {
            assert(c[q] == ci[q]);
        }
        assert forall|q: int| 0 <= q < cl.len() implies p[(l + li) + q] == #[trigger] cl[q] by {
            assert(p[l + (li + q)] == c[li + q]);
        }
        assert(decreases_to!(s => s[s.len() - 1]));
        lemma_items_complete(p, t, init, l, i, w1);
        lemma_code_complete(p, t, last, l + li, i + j, w2);
        lemma_connects_trans(p, t, (l, i), (l + li, i + j), (l + li + code_len(last), i + w.len()));
    }
}

/// If a prefix of `t` is in the language of `n`, the program of `n` accepts `t`.
pub proof fn prefix_in_language_is_accepted(n: Re, t: Seq<char>, j: int)
    requires
        0 <= j <= t.len(),
        lang(n, t.subrange(0, j)),
    ensures
        accepts(program(n), t),
{
    let p = program(n);
    let c = code(n, 0);
    lemma_code_len(n, 0);
    assert forall|q: int| 0 <= q < c.len() implies p[0 + q] == #[trigger] c[q] by {}
    assert(t.subrange(0, 0 + t.subrange(0, j).len() as int) =~= t.subrange(0, j));
    lemma_code_complete(p, t, n, 0, 0, t.subrange(0, j));
    let path = choose|path: Seq<(int, int)>|
        #[trigger] is_path(p, t, path) && path[0] == (0int, 0int) && path.last() == (code_len(n) as int, j);
    assert(is_run(p, t, path));
    assert(reachable(p, t, (code_len(n) as int, j)));
    assert(accepting(p, (code_len(n) as int, j)));
}

proof fn lemma_subpath(p: Seq<Instr>, t: Seq<char>, path: Seq<(int, int)>, a: int, b: int)
    requires
        is_path(p, t, path),
        0 <= a <= b < path.len(),
    ensures
        is_path(p, t, path.subrange(a, b + 1)),
{
    let sub = path.subrange(a, b + 1);
    assert forall|i: int| 0 <= i < sub.len() - 1 implies step(p, t, #[trigger] sub[i], sub[i + 1]) by {
        assert(step(p, t, path[a + i], path[a + i + 1]));
    }
}

/// Along a path the text position never goes back, and stays within the text.
proof fn lemma_path_positions(p: Seq<Instr>, t: Seq<char>, path: Seq<(int, int)>)
    requires
        is_path(p, t, path),
        0 <= path[0].1 <= t.len(),
    ensures
        path[0].1 <= path.last().1 <= t.len(),
    decreases path.len(),
{
    if path.len() > 1 {
        let rest = path.drop_first();
        assert(step(p, t, path[0], path[1]));
        lemma_subpath(p, t, path, 1, path.len() - 1);
        assert(rest =~= path.subrange(1, path.len() as int));
        lemma_path_positions(p, t, rest);
    }
}

/// A path that starts in the code `c` at `lo` (or right after it) and ends
/// outside it first leaves it at the address right after it.
proof fn lemma_first_exit(p: Seq<Instr>, t: Seq<char>, c: Seq<Instr>, lo: int, path: Seq<(int, int)>) -> (m: int)
    requires
        embeds(p, c, lo),
        targets_between(c, lo, lo + c.len()),
        is_path(p, t, path),
        lo <= path[0].0 <= lo + c.len(),
        !(lo <= path.last().0 < lo + c.len()),
    ensures
        0 <= m < path.len(),
        path[m].0 == lo + c.len(),
        forall|k: int| 0 <= k < m ==> lo <= #[trigger] path[k].0 < lo + c.len(),
    decreases path.len(),
{
    if path[0].0 == lo + c.len() {
        0
    } else {
        let pc = path[0].0;
        assert(path.len() > 1);
        assert(step(p, t, path[0], path[1]));
        assert(p[lo + (pc - lo)] == c[pc - lo]);
        let rest = path.drop_first();
        lemma_subpath(p, t, path, 1, path.len() - 1);
        assert(rest =~= path.subrange(1, path.len() as int));
        let m1 = lemma_first_exit(p, t, c, lo, rest);
        assert forall|k: int| 0 <= k < m1 + 1 implies lo <= #[trigger] path[k].0 < lo + c.len() by {
            if k > 0 {
                assert(path[k] == rest[k - 1]);
            }
        }
        m1 + 1
    }
}

proof fn lemma_cat_split_from(s: Seq<Re>, w: Seq<char>, k: int, top: int)
    requires
        0 < s.len(),
        0 <= k <= top <= w.len(),
        cat_lang(s.subrange(0, s.len() - 1), w.subrange(0, k)),
        lang(s[s.len() - 1], w.subrange(k, w.len() as int)),
    ensures
        cat_split(s, w, top),
    decreases top - k,
{
    if k < top {
        lemma_cat_split_from(s, w, k, top - 1);
    }
}

proof fn lemma_star_split_from(n: Re, b: Re, w: Seq<char>, k: int, top: int)
    requires
        n == Re::Star(Box::new(b)),
        1 <= k <= top <= w.len(),
        lang(b, w.subrange(0, k)),
        lang(n, w.subrange(k, w.len() as int)),
    ensures
        star_split(n, w, top),
    decreases top - k,
{
    if k < top {
        lemma_star_split_from(n, b, w, k, top - 1);
    }
}

/// A path that starts at the code of `n`, stays in it, and ends right after
/// it has read a word of the language of `n`.
proof fn lemma_code_sound(p: Seq<Instr>, t: Seq<char>, n: Re, l: int, path: Seq<(int, int)>)
    requires
        embeds(p, code(n, l), l),
        is_path(p, t, path),
        path[0].0 == l,
        0 <= path[0].1 <= t.len(),
        path.last().0 == l + code_len(n),
        forall|k: int| 0 <= k < path.len() - 1 ==> l <= #[trigger] path[k].0 < l + code_len(n),
    ensures
        path[0].1 <= path.last().1 <= t.len(),
        lang(n, t.subrange(path[0].1, path.last().1)),
    decreases n, path.len(), 1int,
{
    lemma_code_len(n, l);
    lemma_path_positions(p, t, path);
    let c = code(n, l);
    let i = path[0].1;
    match n {
        Re::Concat(s) => {
            lemma_items_sound(p, t, s, l, path);
        },
        Re::Char(ch) => {
            assert(p[l + 0] == c[0]);
            assert(step(p, t, path[0], path[1]));
            assert(path.len() == 2);
            assert(t.subrange(i, i + 1) =~= seq![ch]);
        },
        Re::Alt(a, b) => {
            lemma_alt_sound(p, t, n, *a, *b, l, path);
        },
        Re::Star(b) => {
            lemma_star_sound(p, t, n, *b, l, path);
        },
    }
}

proof fn lemma_alt_sound(p: Seq<Instr>, t: Seq<char>, n: Re, a: Re, b: Re, l: int, path: Seq<(int, int)>)
    requires
        n == Re::Alt(Box::new(a), Box::new(b)),
        embeds(p, code(n, l), l),
        is_path(p, t, path),
        path[0].0 == l,
        0 <= path[0].1 <= t.len(),
        path.last().0 == l + code_len(n),
        forall|k: int| 0 <= k < path.len() - 1 ==> l <= #[trigger] path[k].0 < l + code_len(n),
    ensures
        path[0].1 <= path.last().1 <= t.len(),
        lang(n, t.subrange(path[0].1, path.last().1)),
    decreases n, path.len(), 0int,
{
    lemma_code_len(n, l);
    lemma_path_positions(p, t, path);
    let c = code(n, l);
    let i = path[0].1;
    let end = l + code_len(n);
    assert(decreases_to!(n => a));
    assert(decreases_to!(n => b));
    let la = code_len(a) as int;
    let lb = code_len(b) as int;
    let ca = code(a, l + 1);
    let cb = code(b, l + la + 2);
    lemma_code_len(a, l + 1);
    lemma_code_len(b, l + la + 2);
    lemma_code_targets(a, l + 1);
    lemma_code_targets(b, l + la + 2);
    assert(p[l + 0] == c[0]);
    assert(p[l + (la + 1)] == c[la + 1]);
    assert(step(p, t, path[0], path[1]));
    let sub = path.drop_first();
    lemma_subpath(p, t, path, 1, path.len() - 1);
    assert(sub =~= path.subrange(1, path.len() as int));
    assert(forall|k: int| 0 <= k < sub.len() - 1 ==> l <= #[trigger] sub[k].0 < end ==> path[k + 1].0 < end);
    if path[1].0 == l + 1 {
        assert forall|q: int| 0 <= q < ca.len() implies p[(l + 1) + q] == #[trigger] ca[q] by {
            assert(p[l + (1 + q)] == c[1 + q]);
        }
        let m = lemma_first_exit(p, t, ca, l + 1, sub);
        assert(m < sub.len() - 1);
        let sa = sub.subrange(0, m + 1);
        lemma_subpath(p, t, sub, 0, m);
        lemma_code_sound(p, t, a, l + 1, sa);
        assert(step(p, t, sub[m], sub[m + 1]));
        assert(m + 1 == sub.len() - 1);
    } else {
        assert forall|q: int| 0 <= q < cb.len() implies p[(l + la + 2) + q] == #[trigger] cb[q] by {
            assert(p[l + (la + 2 + q)] == c[la + 2 + q]);
        }
        let m = lemma_first_exit(p, t, cb, l + la + 2, sub);
        assert(m == sub.len() - 1);
        lemma_code_sound(p, t, b, l + la + 2, sub);
    }
}

proof fn lemma_star_sound(p: Seq<Instr>, t: Seq<char>, n: Re, b: Re, l: int, path: Seq<(int, int)>)
    requires
        n == Re::Star(Box::new(b)),
        embeds(p, code(n, l), l),
        is_path(p, t, path),
        path[0].0 == l,
        0 <= path[0].1 <= t.len(),
        path.last().0 == l + code_len(n),
        forall|k: int| 0 <= k < path.len() - 1 ==> l <= #[trigger] path[k].0 < l + code_len(n),
    ensures
        path[0].1 <= path.last().1 <= t.len(),
        lang(n, t.subrange(path[0].1, path.last().1)),
    decreases n, path.len(), 0int,
{
    lemma_code_len(n, l);
    lemma_path_positions(p, t, path);
    let c = code(n, l);
    let i = path[0].1;
    let end = l + code_len(n);
    assert(decreases_to!(n => b));
    let lb = code_len(b) as int;
    let cb = code(b, l + 1);
    lemma_code_len(b, l + 1);
    lemma_code_targets(b, l + 1);
    assert(p[l + 0] == c[0]);
    assert(p[l + (lb + 1)] == c[lb + 1]);
    assert(step(p, t, path[0], path[1]));
    if path[1].0 == end {
        assert(path.len() == 2);
    } else {
        let sub = path.drop_first();
        lemma_subpath(p, t, path, 1, path.len() - 1);
        assert(sub =~= path.subrange(1, path.len() as int));
        assert forall|q: int| 0 <= q < cb.len() implies p[(l + 1) + q] == #[trigger] cb[q] by {
            assert(p[l + (1 + q)] == c[1 + q]);
        }
        let m = lemma_first_exit(p, t, cb, l + 1, sub);
        assert(m < sub.len() - 1);
        let sb = sub.subrange(0, m + 1);
        lemma_subpath(p, t, sub, 0, m);
        lemma_code_sound(p, t, b, l + 1, sb);
        assert(step(p, t, sub[m], sub[m + 1]));
        let rest = sub.subrange(m + 1, sub.len() as int);
        lemma_subpath(p, t, sub, m + 1, sub.len() - 1);
        let j1 = sub[m].1;
        let j = path.last().1;
        assert(rest[0] == (l, j1));
        assert(rest.last() == path.last());
        assert forall|k: int| 0 <= k < rest.len() - 1 implies l <= #[trigger] rest[k].0 < l + code_len(n) by {
            assert(rest[k] == path[k + m + 2]);
        }
        lemma_code_sound(p, t, n, l, rest);
        lemma_star_combine(n, b, t, i, j1, j);
    }
}

/// A word of the language of `b` followed by a word of that of `b*` is a word of `b*`.
proof fn lemma_star_combine(n: Re, b: Re, t: Seq<char>, i: int, j1: int, j: int)
    requires
        n == Re::Star(Box::new(b)),
        0 <= i <= j1 <= j <= t.len(),
        lang(b, t.subrange(i, j1)),
        lang(n, t.subrange(j1, j)),
    ensures
        lang(n, t.subrange(i, j)),
{
    let w = t.subrange(i, j);
    if j1 == i {
        assert(t.subrange(j1, j) == w);
    } else {
        assert(w.subrange(0, j1 - i) =~= t.subrange(i, j1));
        assert(w.subrange(j1 - i, w.len() as int) =~= t.subrange(j1, j));
        lemma_star_split_from(n, b, w, j1 - i, w.len() as int);
    }
}

proof fn lemma_items_sound(p: Seq<Instr>, t: Seq<char>, s: Seq<Re>, l: int, path: Seq<(int, int)>)
    requires
        embeds(p, items_code(s, l), l),
        is_path(p, t, path),
        path[0].0 == l,
        0 <= path[0].1 <= t.len(),
        path.last().0 == l + items_len(s),
        forall|k: int| 0 <= k < path.len() - 1 ==> l <= #[trigger] path[k].0 < l + items_len(s),
    ensures
        path[0].1 <= path.last().1 <= t.len(),
        cat_lang(s, t.subrange(path[0].1, path.last().1)),
    decreases s, path.len(), 1int,
{
    lemma_items_code_len(s, l);
    lemma_path_positions(p, t, path);
    let i = path[0].1;
    let j = path.last().1;
    if s.len() == 0 {
        if path.len() > 1 {
            assert(l <= path[0].0 < l + 0);
        }
    } else {
        let init = s.subrange(0, s.len() - 1);
        let last = s[s.len() - 1];
        let c = items_code(s, l);
        let ci = items_code(init, l);
        let li = items_len(init) as int;
        let cl = code(last, l + li);
        lemma_items_code_len(init, l);
        lemma_code_len(last, l + li);
        lemma_items_targets(init, l);
        lemma_code_targets(last, l + li);
        assert forall|q: int| 0 <= q < ci.len() implies p[l + q] == #[trigger] ci[q] by {
            assert(c[q] == ci[q]);
        }
        assert forall|q: int| 0 <= q < cl.len() implies p[(l + li) + q] == #[trigger] cl[q] by {
            assert(p[l + (li + q)] == c[li + q]);
        }
        let m = lemma_first_exit(p, t, ci, l, path);
        let pi = path.subrange(0, m + 1);
        lemma_subpath(p, t, path, 0, m);
        lemma_items_sound(p, t, init, l, pi);
        let rest = path.subrange(m, path.len() as int);
        lemma_subpath(p, t, path, m, path.len() - 1);
        let m2 = lemma_first_exit(p, t, cl, l + li, rest);
        assert(rest[m2] == path[m + m2]);
        assert(m + m2 == path.len() - 1);
        assert(forall|k: int| 0 <= k < rest.len() - 1 ==> #[trigger] rest[k] == path[k + m]);
        assert(decreases_to!(s => s[s.len() - 1]));
        lemma_code_sound(p, t, last, l + li, rest);
        let j1 = path[m].1;
        let w = t.subrange(i, j);
        assert(w.subrange(0, j1 - i) =~= t.subrange(i, j1));
        assert(w.subrange(j1 - i, w.len() as int) =~= t.subrange(j1, j));
        lemma_cat_split_from(s, w, j1 - i, w.len() as int);
    }
}

/// The program of `n` accepts `t` exactly when some prefix of `t` is in the
/// language of `n`: the matcher decides prefix matching of the tree.
pub proof fn accepts_iff_prefix_in_language(n: Re, t: Seq<char>)
    ensures
        accepts(program(n), t) <==> exists|j: int|
            0 <= j <= t.len() && #[trigger] lang(n, t.subrange(0, j)),
{
    let p = program(n);
    if exists|j: int| 0 <= j <= t.len() && #[trigger] lang(n, t.subrange(0, j)) {
        let j = choose|j: int| 0 <= j <= t.len() && #[trigger] lang(n, t.subrange(0, j));
        prefix_in_language_is_accepted(n, t, j);
    }
    if accepts(p, t) {
        let s = choose|s: (int, int)| #[trigger] reachable(p, t, s) && accepting(p, s);
        let run = choose|run: Seq<(int, int)>| #[trigger] is_run(p, t, run) && run.last() == s;
        compiled_addresses_in_range(n, t);
        lemma_code_len(n, 0);
        let c = code(n, 0);
        let end = code_len(n) as int;
        assert(s.0 == end);
        assert forall|q: int| 0 <= q < c.len() implies p[0 + q] == #[trigger] c[q] by {}
        assert forall|k: int| 0 <= k < run.len() - 1 implies 0 <= #[trigger] run[k].0 < 0 + end by {
            let pre = run.subrange(0, k + 1);
            assert forall|i: int| 0 <= i < pre.len() - 1 implies step(p, t, #[trigger] pre[i], pre[i + 1]) by {
                assert(step(p, t, run[i], run[i + 1]));
            }
            assert(is_run(p, t, pre));
            assert(reachable(p, t, run[k]));
            assert(step(p, t, run[k], run[k + 1]));
        }
        assert(is_path(p, t, run));
        lemma_code_sound(p, t, n, 0, run);
        assert(lang(n, t.subrange(0, s.1)));
    }
}

} // verus!
