use crate::codegen::{code_len, items_len};
use vstd::prelude::*;
use vstd::std_specs::iter::IteratorSpec;

verus! {

/// Syntax tree of a pattern, as built by [`parse`].
#[derive(Debug, PartialEq)]
pub enum Node {
    Char(char),
    Concat(Vec<Node>),
    Star(Box<Node>),
    Or((Box<Node>, Box<Node>)),
}

/// The mathematical value of a [`Node`]: the same tree with sequences in place of vectors.
pub enum Re {
    Char(char),
    Concat(Seq<Re>),
    Star(Box<Re>),
    Alt(Box<Re>, Box<Re>),
}

/// The mathematical values of a list of nodes, element by element.
pub open spec fn view_nodes(s: Seq<Node>) -> Seq<Re>
    decreases s,
{
    if s.len() == 0 {
        Seq::empty()
    } else {
        view_nodes(s.subrange(0, s.len() - 1)).push(re_of(s[s.len() - 1]))
    }
}

/// The mathematical value of a node.
pub open spec fn re_of(n: Node) -> Re
    decreases n,
{
    match n {
        Node::Char(c) => Re::Char(c),
        Node::Concat(v) => Re::Concat(view_nodes(v@)),
        Node::Star(b) => Re::Star(Box::new(re_of(*b))),
        Node::Or((l, r)) => Re::Alt(Box::new(re_of(*l)), Box::new(re_of(*r))),
    }
}

impl View for Node {
    type V = Re;

    open spec fn view(&self) -> Re {
        re_of(*self)
    }
}

/// The tree keeps the parser's shape: no concatenation has exactly one term.
pub open spec fn well_formed(n: Re) -> bool
    decreases n,
{
    match n {
        Re::Char(_) => true,
        Re::Concat(s) => s.len() != 1 && all_well_formed(s),
        Re::Star(b) => well_formed(*b),
        Re::Alt(a, b) => well_formed(*a) && well_formed(*b),
    }
}

/// Every tree of the list keeps the parser's shape.
pub open spec fn all_well_formed(s: Seq<Re>) -> bool
    decreases s,
{
    s.len() == 0 || (all_well_formed(s.subrange(0, s.len() - 1)) && well_formed(s[s.len() - 1]))
}

pub proof fn lemma_char_view(c: char)
    ensures
        re_of(Node::Char(c)) == Re::Char(c),
        well_formed(Re::Char(c)),
        code_len(Re::Char(c)) == 1,
{
}

pub proof fn lemma_view_nodes_len(s: Seq<Node>)
    ensures
        view_nodes(s).len() == s.len(),
        forall|i: int| 0 <= i < s.len() ==> #[trigger] view_nodes(s)[i] == s[i]@,
    decreases s.len(),
{
    if s.len() > 0 {
        lemma_view_nodes_len(s.subrange(0, s.len() - 1));
    }
}


/// Why a pattern could not be parsed.
#[derive(Debug, Clone, Copy, PartialEq, Eq, Structural)]
pub enum ParseError {
    /// A `(` that no later `)` closes, or a `)` that closes no `(`.
    UnbalancedGroup,
    /// The pattern holds no character.
    EmptyPattern,
}

// The grammar, from the tightest binding to the loosest:
//   group  = '(' or ')' | any other character
//   star   = group '*'?
//   concat = star*            (up to ')', '|' or the end)
//   or     = concat ('|' or)?
// Each function below reads the production that starts at position `i` of `s`
// and yields the tree with the position after it, or `None` where a `(` is
// left unclosed.

/// `group` at `i`.
pub open spec fn group_spec(s: Seq<char>, i: int) -> Option<(Re, int)>
    decreases s.len() - i, 0int,
{
    if 0 <= i < s.len() {
        if s[i] == '(' {
            match or_spec(s, i + 1) {
                Some((n, j)) => if 0 <= j < s.len() && s[j] == ')' {
                    Some((n, j + 1))
                } else {
                    None
                },
                None => None,
            }
        } else {
            Some((Re::Char(s[i]), i + 1))
        }
    } else {
        None
    }
}

/// `star` at `i`.
pub open spec fn star_spec(s: Seq<char>, i: int) -> Option<(Re, int)>
    decreases s.len() - i, 1int,
{
    match group_spec(s, i) {
        Some((n, j)) => if 0 <= j < s.len() && s[j] == '*' {
            Some((Re::Star(Box::new(n)), j + 1))
        } else {
            Some((n, j))
        },
        None => None,
    }
}

/// Whether a concatenation goes on at `i`.
pub open spec fn continues_concat(s: Seq<char>, i: int) -> bool {
    0 <= i < s.len() && s[i] != ')' && s[i] != '|'
}

/// The terms of `concat` at `i`, in order.
pub open spec fn items_spec(s: Seq<char>, i: int) -> Option<(Seq<Re>, int)>
    decreases s.len() - i, 2int,
{
    if continues_concat(s, i) {
        match star_spec(s, i) {
            Some((n, j)) => if i < j <= s.len() {
                prepend(seq![n], items_spec(s, j))
            } else {
                None
            },
            None => None,
        }
    } else {
        Some((Seq::empty(), i))
    }
}

/// Puts `pre` in front of the terms of an outcome.
pub open spec fn prepend(pre: Seq<Re>, o: Option<(Seq<Re>, int)>) -> Option<(Seq<Re>, int)> {
    match o {
        Some((rest, k)) => Some((pre + rest, k)),
        None => None,
    }
}

/// `concat` at `i`: a single term stands alone, any other number of terms
/// makes a concatenation.
pub open spec fn concat_spec(s: Seq<char>, i: int) -> Option<(Re, int)>
    decreases s.len() - i, 3int,
{
    match items_spec(s, i) {
        Some((items, j)) => if items.len() == 1 {
            Some((items[0], j))
        } else {
            Some((Re::Concat(items), j))
        },
        None => None,
    }
}

/// `or` at `i`; a chain of `|` nests to the right.
pub open spec fn or_spec(s: Seq<char>, i: int) -> Option<(Re, int)>
    decreases s.len() - i, 4int,
{
    match concat_spec(s, i) {
        Some((l, j)) => if i <= j < s.len() && s[j] == '|' {
            match or_spec(s, j + 1) {
                Some((r, k)) => Some((Re::Alt(Box::new(l), Box::new(r)), k)),
                None => None,
            }
        } else {
            Some((l, j))
        },
        None => None,
    }
}

/// The tree of a whole pattern: an `or` that reads every character.
pub open spec fn parse_spec(s: Seq<char>) -> Result<Re, ParseError> {
    if s.len() == 0 {
        Err(ParseError::EmptyPattern)
    } else {
        match or_spec(s, 0) {
            Some((n, j)) => if j == s.len() {
                Ok(n)
            } else {
                Err(ParseError::UnbalancedGroup)
            },
            None => Err(ParseError::UnbalancedGroup),
        }
    }
}

/// An executable step's outcome agrees with the grammar's.
pub open spec fn agrees(r: Option<(Node, usize)>, o: Option<(Re, int)>) -> bool {
    match r {
        Some((n, j)) => o == Some((n@, j as int)),
        None => o is None,
    }
}

/// The view of a parse result.
pub open spec fn parsed_view(r: Result<Node, ParseError>) -> Result<Re, ParseError> {
    match r {
        Ok(n) => Ok(n@),
        Err(e) => Err(e),
    }
}

/// Parses a pattern into its syntax tree.
///
/// Fails with `EmptyPattern` on an empty pattern, and with `UnbalancedGroup`
/// where a `(` is never closed or a `)` closes nothing.
pub fn parse(input: &str) -> (r: Result<Node, ParseError>)
    ensures
        parsed_view(r) == parse_spec(input@),
        r matches Ok(n) ==> well_formed(n@),
        r matches Ok(n) ==> code_len(n@) <= 2 * input@.len(),
        r == Err::<Node, ParseError>(ParseError::EmptyPattern) <==> input@.len() == 0,
{
    let chars = chars_of(input);
    if chars.len() == 0 {
        return Err(ParseError::EmptyPattern);
    }
    match parse_or(&chars, 0) {
        Some((n, j)) => if j == chars.len() {
            Ok(n)
        } else {
            Err(ParseError::UnbalancedGroup)
        },
        None => Err(ParseError::UnbalancedGroup),
    }
}

/// The characters of a string, in order.
pub(crate) fn chars_of(s: &str) -> (r: Vec<char>)
    ensures
        r@ == s@,
{
    let mut it = s.chars();
    let mut v: Vec<char> = Vec::new();
    loop
        invariant
            it.obeys_prophetic_iter_laws(),
            v@ + it.remaining() == s@,
        decreases s@.len() - v@.len(),
    {
        match it.next() {
            Some(c) => {
                proof {
                    assert(v@.push(c) + it.remaining() =~= s@);
                }
                v.push(c);
            },
            None => {
                assert(v@ =~= s@);
                return v;
            },
        }
    }
}

fn parse_or(s: &Vec<char>, i: usize) -> (r: Option<(Node, usize)>)
    requires
        s@.len() <= usize::MAX,
        i <= s@.len(),
    ensures
        agrees(r, or_spec(s@, i as int)),
        r matches Some((_, j)) ==> i <= j <= s@.len(),
        r matches Some((n, _)) ==> well_formed(n@),
        r matches Some((n, j)) ==> code_len(n@) <= 2 * (j - i),
    decreases s@.len() - i, 4int,
{
    match parse_concat(s, i) {
        Some((n, j)) => {
            if j < s.len() && s[j] == '|' {
                match parse_or(s, j + 1) {
                    Some((rhs, k)) => Some((Node::Or((Box::new(n), Box::new(rhs))), k)),
                    None => None,
                }
            } else {
                Some((n, j))
            }
        },
        None => None,
    }
}

fn parse_concat(s: &Vec<char>, i: usize) -> (r: Option<(Node, usize)>)
    requires
        s@.len() <= usize::MAX,
        i <= s@.len(),
    ensures
        agrees(r, concat_spec(s@, i as int)),
        r matches Some((_, j)) ==> i <= j <= s@.len(),
        r matches Some((n, _)) ==> well_formed(n@),
        r matches Some((n, j)) ==> code_len(n@) <= 2 * (j - i),
    decreases s@.len() - i, 3int,
{
    let mut seq: Vec<Node> = Vec::new();
    let mut pos = i;
    assert(view_nodes(seq@) =~= Seq::<Re>::empty());
    assert(prepend(Seq::empty(), items_spec(s@, i as int)) =~= items_spec(s@, i as int));
    while pos < s.len() && s[pos] != ')' && s[pos] != '|'
        invariant
            i <= pos <= s@.len(),
            items_spec(s@, i as int) == prepend(view_nodes(seq@), items_spec(s@, pos as int)),
            all_well_formed(view_nodes(seq@)),
            items_len(view_nodes(seq@)) <= 2 * (pos - i),
        decreases s@.len() - pos,
    {
        match parse_star(s, pos) {
            Some((n, j)) => {
                proof {
                    let pre = view_nodes(seq@);
                    let next = seq@.push(n);
                    assert(next.subrange(0, next.len() - 1) =~= seq@);
                    assert(view_nodes(next) == pre.push(n@));
                    assert(pre.push(n@).subrange(0, pre.len() as int) =~= pre);
                    assert(pre.push(n@) =~= pre + seq![n@]);
                    match items_spec(s@, j as int) {
                        Some((rest, k)) => {
                            assert(pre + (seq![n@] + rest) =~= pre.push(n@) + rest);
                        },
                        None => {},
                    }
                }
                seq.push(n);
                pos = j;
            },
            None => {
                return None;
            },
        }
    }
    proof {
        assert(view_nodes(seq@) + Seq::<Re>::empty() =~= view_nodes(seq@));
        lemma_view_nodes_len(seq@);
    }
    if seq.len() == 1 {
        proof {
            assert(view_nodes(seq@).subrange(0, 0) =~= Seq::<Re>::empty());
            assert(items_len(Seq::<Re>::empty()) == 0);
        }
        let n = seq.pop().unwrap();
        Some((n, pos))
    } else {
        Some((Node::Concat(seq), pos))
    }
}

fn parse_star(s: &Vec<char>, i: usize) -> (r: Option<(Node, usize)>)
    requires
        s@.len() <= usize::MAX,
        i < s@.len(),
    ensures
        agrees(r, star_spec(s@, i as int)),
        r matches Some((_, j)) ==> i < j <= s@.len(),
        r matches Some((n, _)) ==> well_formed(n@),
        r matches Some((n, j)) ==> code_len(n@) <= 2 * (j - i),
    decreases s@.len() - i, 1int,
{
    match parse_group(s, i) {
        Some((n, j)) => {
            if j < s.len() && s[j] == '*' {
                Some((Node::Star(Box::new(n)), j + 1))
            } else {
                Some((n, j))
            }
        },
        None => None,
    }
}

fn parse_group(s: &Vec<char>, i: usize) -> (r: Option<(Node, usize)>)
    requires
        s@.len() <= usize::MAX,
        i < s@.len(),
    ensures
        agrees(r, group_spec(s@, i as int)),
        r matches Some((_, j)) ==> i < j <= s@.len(),
        r matches Some((n, _)) ==> well_formed(n@),
        r matches Some((n, j)) ==> code_len(n@) <= 2 * (j - i),
    decreases s@.len() - i, 0int,
{
    let c = s[i];
    if c == '(' {
        match parse_or(s, i + 1) {
            Some((n, j)) => {
                if j < s.len() && s[j] == ')' {
                    Some((n, j + 1))
                } else {
                    None
                }
            },
            None => None,
        }
    } else {
        let n = Node::Char(c);
        proof {
            lemma_char_view(c);
        }
        Some((n, i + 1))
    }
}

} // verus!
