//! The recursive-descent parser: one function per grammar rule, each proved
//! to yield what the rule of `grammar` yields and to record its failures.
use vstd::prelude::*;
use crate::grammar::{
    Expected, Fail, Parsed, Repeated, Rule, Tree, arg_list, arg_rest, binary_rest, binary, call_args, expression, fail_at,
    group_merge, is_name, is_tok, type_tree, leaf, level_op_rule, level_rule, literal_rule, merge, no_fail,
    op_level, operand, primary, type_ref, unary, var_decl, return_stmt, expr_stmt, statement,
    statements, block, param, param_rest, params, return_type, function_decl, declaration,
    declarations,
};
use crate::lexer::{Token, TokenKind, tokens_sorted};
use crate::tree::{
    Node, fits, lemma_leaf_fits, lemma_node_fits, lemma_seq_concat, lemma_seq_empty, lemma_seq_one,
    lemma_seq_widen, lemma_widen, make_leaf, make_node, seq_fits, trees,
};

verus! {

broadcast use group_merge;

/// The furthest failure met so far, kept while parsing.
pub struct Failure {
    pub at: usize,
    pub expected: Vec<Expected>,
}

impl View for Failure {
    type V = Fail;

    open spec fn view(&self) -> Fail {
        Fail { at: self.at as nat, expected: self.expected@.to_set() }
    }
}

impl Failure {
    pub fn new() -> (f: Failure)
        ensures
            f@ == no_fail(),
    {
        let f = Failure { at: 0, expected: Vec::new() };
        assert(f@.expected =~= Set::<Expected>::empty());
        f
    }

    /// Records that `e` was expected at token index `i`.
    pub fn note(&mut self, i: usize, e: Expected)
        ensures
            final(self)@ == merge(old(self)@, fail_at(i as int, e)),
    {
        proof {
            reveal(merge);
        }
        if i > self.at {
            self.at = i;
            self.expected = Vec::new();
            self.expected.push(e);
            assert(self.expected@ =~= seq![e]);
            assert(seq![e].to_set() =~= set![e]) by {
                assert(seq![e] =~= Seq::<Expected>::empty().push(e));
                Seq::<Expected>::empty().lemma_push_to_set_commute(e);
            }
        } else if i == self.at {
            let mut k: usize = 0;
            let mut found = false;
            while k < self.expected.len()
                invariant
                    0 <= k <= self.expected@.len(),
                    found <==> exists|m: int| 0 <= m < k && self.expected@[m] == e,
                decreases self.expected@.len() - k,
            {
                if self.expected[k] == e {
                    found = true;
                }
                k = k + 1;
            }
            let ghost before = self.expected@;
            if !found {
                self.expected.push(e);
                proof {
                    before.lemma_push_to_set_commute(e);
                }
                assert(self.expected@.to_set() =~= before.to_set().union(set![e]));
            } else {
                assert(before.to_set() =~= before.to_set().union(set![e]));
            }
        }
    }
}

/// What a parse function returned agrees with what the rule yields: the same
/// tree and end index, a tree that fits the tokens it spans, and the
/// failures of the rule added to those recorded before.
pub open spec fn yields(
    t: Seq<Token>,
    i: int,
    r: Option<(Node, usize)>,
    p: Parsed,
    before: Fail,
    after: Fail,
) -> bool {
    &&& after == merge(before, p.1)
    &&& match r {
        Some((n, j)) => p.0 == Some((n@, j as int)) && fits(n@, t, i, j as int),
        None => p.0 is None,
    }
}

/// As `yields`, for a rule that yields a sequence of trees or nothing.
pub open spec fn yields_list(
    t: Seq<Token>,
    i: int,
    r: Option<(Vec<Node>, usize)>,
    p: (Option<(Seq<Tree>, int)>, Fail),
    before: Fail,
    after: Fail,
) -> bool {
    &&& after == merge(before, p.1)
    &&& match r {
        Some((v, j)) => p.0 == Some((trees(v@), j as int)) && i < j && seq_fits(
            trees(v@),
            t,
            i,
            j as int,
        ),
        None => p.0 is None,
    }
}

/// As `yields`, for a repetition, which always succeeds.
pub open spec fn yields_many(
    t: Seq<Token>,
    i: int,
    r: (Vec<Node>, usize),
    p: Repeated,
    before: Fail,
    after: Fail,
) -> bool {
    &&& after == merge(before, p.2)
    &&& trees(r.0@) == p.0
    &&& r.1 as int == p.1
    &&& seq_fits(p.0, t, i, p.1)
}

/// `x` spans exactly the tokens `i .. j`: from the start of the first to the
/// end of the last.
pub open spec fn spans_tokens(x: Tree, t: Seq<Token>, i: int, j: int) -> bool {
    x.start == t[i].start && x.end == t[j - 1].end
}

/// The trees `xs` span the tokens `i .. j` one after another, each exactly a
/// run of them, with none left between.
pub open spec fn tiles(xs: Seq<Tree>, t: Seq<Token>, i: int, j: int) -> bool {
    &&& xs.len() == 0 ==> i == j
    &&& xs.len() > 0 ==> xs[0].start == t[i].start && xs.last().end == t[j - 1].end
    &&& forall|k: int|
        0 <= k < xs.len() - 1 ==> exists|m: int|
            i < m < j && #[trigger] xs[k].end == t[m - 1].end && xs[k + 1].start == t[m].start
}

fn tok_is(t: &Vec<Token>, i: usize, k: TokenKind) -> (r: bool)
    ensures
        r == is_tok(t@, i as int, k),
        t@.len() <= usize::MAX,
{
    i < t.len() && t[i].kind == k
}

fn name_at(t: &Vec<Token>, i: usize) -> (r: bool)
    ensures
        r == is_name(t@, i as int),
        t@.len() <= usize::MAX,
{
    i < t.len() && (t[i].kind == TokenKind::Ident || t[i].kind == TokenKind::Primitive)
}

proof fn lemma_type_fits(t: Seq<Token>, i: int)
    requires
        tokens_sorted(t),
        0 <= i < t.len(),
    ensures
        fits(type_tree(t, i), t, i, i + 1),
{
    lemma_leaf_fits(Rule::TypeName, t, i);
    lemma_leaf_fits(Rule::Identifier, t, i);
    lemma_seq_one(leaf(Rule::Identifier, t, i), t, i, i + 1);
    lemma_node_fits(Rule::TypeName, t, i, i + 1, seq![leaf(Rule::Identifier, t, i)]);
}

/// The node of the type name at `i`.
fn make_type(t: &Vec<Token>, i: usize) -> (n: Node)
    requires
        i < t@.len() <= usize::MAX,
    ensures
        n@ == type_tree(t@, i as int),
{
    if t[i].kind == TokenKind::Primitive {
        make_leaf(Rule::TypeName, t, i)
    } else {
        let name = make_leaf(Rule::Identifier, t, i);
        let cs = one(name);
        make_node(Rule::TypeName, t, i, i + 1, cs)
    }
}

fn literal_rule_of(k: TokenKind) -> (r: Option<Rule>)
    ensures
        r == literal_rule(k),
{
    match k {
        TokenKind::Integer => Some(Rule::Integer),
        TokenKind::Float => Some(Rule::Float),
        TokenKind::True => Some(Rule::Boolean),
        TokenKind::False => Some(Rule::Boolean),
        TokenKind::Str => Some(Rule::StringLit),
        _ => None,
    }
}

/// The precedence level of a binary operator token (see `op_level`), or 6
/// for other tokens.
fn op_level_of(k: TokenKind) -> (r: usize)
    ensures
        r <= 6,
        r < 6 ==> r as int == op_level(k),
        r == 6 ==> op_level(k) == -1,
{
    match k {
        TokenKind::OrOr => 0,
        TokenKind::AndAnd => 1,
        TokenKind::EqEq => 2,
        TokenKind::NotEq => 2,
        TokenKind::Lt => 3,
        TokenKind::Gt => 3,
        TokenKind::Le => 3,
        TokenKind::Ge => 3,
        TokenKind::Plus => 4,
        TokenKind::Minus => 4,
        TokenKind::Star => 5,
        TokenKind::Slash => 5,
        TokenKind::Percent => 5,
        _ => 6,
    }
}

fn level_rule_of(l: usize) -> (r: Rule)
    ensures
        r == level_rule(l as int),
{
    if l == 0 {
        Rule::LogicalOr
    } else if l == 1 {
        Rule::LogicalAnd
    } else if l == 2 {
        Rule::Equality
    } else if l == 3 {
        Rule::Comparison
    } else if l == 4 {
        Rule::Additive
    } else {
        Rule::Multiplicative
    }
}

fn level_op_rule_of(l: usize) -> (r: Rule)
    ensures
        r == level_op_rule(l as int),
{
    if l == 0 {
        Rule::OrOp
    } else if l == 1 {
        Rule::AndOp
    } else if l == 2 {
        Rule::EqualityOp
    } else if l == 3 {
        Rule::ComparisonOp
    } else if l == 4 {
        Rule::AdditiveOp
    } else {
        Rule::MultiplicativeOp
    }
}

/// A vector of one node.
fn one(n: Node) -> (v: Vec<Node>)
    ensures
        trees(v@) == seq![n@],
{
    let mut v = Vec::new();
    v.push(n);
    assert(trees(v@) =~= seq![n@]);
    v
}

/// Appends the nodes of `b` to `a`.
fn concat(a: Vec<Node>, b: Vec<Node>) -> (v: Vec<Node>)
    ensures
        trees(v@) == trees(a@) + trees(b@),
{
    let mut a = a;
    let mut b = b;
    let ghost a0 = a@;
    let ghost b0 = b@;
    a.append(&mut b);
    assert(trees(a@) =~= trees(a0) + trees(b0));
    a
}

pub fn match_type_ref(t: &Vec<Token>, i: usize, fail: &mut Failure) -> (r: Option<(Node, usize)>)
    requires
        tokens_sorted(t@),
        i <= t@.len(),
    ensures
        yields(t@, i as int, r, type_ref(t@, i as int), old(fail)@, final(fail)@),
{
    if name_at(t, i) {
        proof {
            lemma_type_fits(t@, i as int);
        }
        Some((make_type(t, i), i + 1))
    } else {
        fail.note(i, Expected::Rule(Rule::TypeName));
        None
    }
}

pub fn match_expression(t: &Vec<Token>, i: usize, fail: &mut Failure) -> (r: Option<(Node, usize)>)
    requires
        tokens_sorted(t@),
        i <= t@.len(),
    ensures
        yields(t@, i as int, r, expression(t@, i as int), old(fail)@, final(fail)@),
    decreases t@.len() - i, 10int, 0int,
{
    match match_binary(t, 0, i, fail) {
        Some((x, j)) => {
            let cs = one(x);
            proof {
                lemma_seq_one(x@, t@, i as int, j as int);
                lemma_node_fits(Rule::Expression, t@, i as int, j as int, trees(cs@));
            }
            Some((make_node(Rule::Expression, t, i, j, cs), j))
        },
        None => None,
    }
}

fn match_operand(t: &Vec<Token>, l: usize, i: usize, fail: &mut Failure) -> (r: Option<(Node, usize)>)
    requires
        tokens_sorted(t@),
        i <= t@.len(),
        l <= 5,
    ensures
        yields(t@, i as int, r, operand(t@, l as int, i as int), old(fail)@, final(fail)@),
    decreases t@.len() - i, 9 - l, 1int,
{
    if l == 5 {
        match_unary(t, i, fail)
    } else {
        match_binary(t, l + 1, i, fail)
    }
}

fn match_binary(t: &Vec<Token>, l: usize, i: usize, fail: &mut Failure) -> (r: Option<(Node, usize)>)
    requires
        tokens_sorted(t@),
        i <= t@.len(),
        l <= 5,
    ensures
        yields(t@, i as int, r, binary(t@, l as int, i as int), old(fail)@, final(fail)@),
    decreases t@.len() - i, 9 - l, 2int,
{
    let ghost f0 = fail@;
    let (lhs, j0) = match match_operand(t, l, i, fail) {
        Some(found) => found,
        None => {
            return None;
        },
    };
    let ghost whole = binary_rest(t@, l as int, i as int, lhs@, j0 as int);
    let ghost f1 = fail@;
    let ghost o1 = operand(t@, l as int, i as int).1;
    proof {
        crate::grammar::lemma_merge_assoc(f0, o1, whole.1);
        assert(binary(t@, l as int, i as int) == (whole.0, merge(o1, whole.1)));
    }
    let mut acc = lhs;
    let mut cur = j0;
    loop
        invariant
            tokens_sorted(t@),
            l <= 5,
            i < cur <= t@.len(),
            fits(acc@, t@, i as int, cur as int),
            whole.0 == binary_rest(t@, l as int, i as int, acc@, cur as int).0,
            merge(f1, whole.1) == merge(fail@, binary_rest(t@, l as int, i as int, acc@, cur as int).1),
            merge(f1, whole.1) == merge(f0, merge(o1, whole.1)),
            f0 == old(fail)@,
            binary(t@, l as int, i as int) == (whole.0, merge(o1, whole.1)),
        decreases t@.len() - cur,
    {
        if cur < t.len() && op_level_of(t[cur].kind) == l {
            let ghost f2 = fail@;
            match match_operand(t, l, cur + 1, fail) {
                Some((rhs, j)) => {
                    let op = make_leaf(level_op_rule_of(l), t, cur);
                    let cs = concat(concat(one(acc), one(op)), one(rhs));
                    proof {
                        lemma_leaf_fits(level_op_rule(l as int), t@, cur as int);
                        lemma_seq_one(acc@, t@, i as int, cur as int);
                        lemma_seq_one(op@, t@, cur as int, cur + 1);
                        lemma_seq_one(rhs@, t@, cur + 1, j as int);
                        lemma_seq_concat(seq![acc@], seq![op@], t@, i as int, cur as int, cur + 1);
                        lemma_seq_concat(seq![acc@] + seq![op@], seq![rhs@], t@, i as int, cur + 1, j as int);
                        assert(seq![acc@] + seq![op@] + seq![rhs@] =~= seq![acc@, op@, rhs@]);
                        lemma_node_fits(level_rule(l as int), t@, i as int, j as int, trees(cs@));
                    }
                    acc = make_node(level_rule_of(l), t, i, j, cs);
                    cur = j;
                },
                None => {
                    return Some((acc, cur));
                },
            }
        } else {
            let ghost fb = fail@;
            fail.note(cur, Expected::Rule(level_op_rule_of(l)));
            proof {
                let rest = binary_rest(t@, l as int, i as int, acc@, cur as int);
                assert(rest == (Some((acc@, cur as int)), fail_at(cur as int, Expected::Rule(level_op_rule(l as int)))));
                assert(fail@ == merge(fb, rest.1));
                assert(whole.0 == Some((acc@, cur as int)));
                assert(fail@ == merge(f1, whole.1));
                assert(fail@ == merge(f0, merge(o1, whole.1)));
            }
            return Some((acc, cur));
        }
    }
}

fn match_unary(t: &Vec<Token>, i: usize, fail: &mut Failure) -> (r: Option<(Node, usize)>)
    requires
        tokens_sorted(t@),
        i <= t@.len(),
    ensures
        yields(t@, i as int, r, unary(t@, i as int), old(fail)@, final(fail)@),
    decreases t@.len() - i, 3int, 0int,
{
    if tok_is(t, i, TokenKind::Minus) || tok_is(t, i, TokenKind::Bang) {
        match match_primary(t, i + 1, fail) {
            Some((x, j)) => {
                let op = make_leaf(Rule::UnaryOp, t, i);
                let cs = concat(one(op), one(x));
                proof {
                    lemma_leaf_fits(Rule::UnaryOp, t@, i as int);
                    lemma_seq_one(op@, t@, i as int, i + 1);
                    lemma_seq_one(x@, t@, i + 1, j as int);
                    lemma_seq_concat(seq![op@], seq![x@], t@, i as int, i + 1, j as int);
                    assert(seq![op@] + seq![x@] =~= seq![op@, x@]);
                    lemma_node_fits(Rule::Unary, t@, i as int, j as int, trees(cs@));
                }
                Some((make_node(Rule::Unary, t, i, j, cs), j))
            },
            None => None,
        }
    } else {
        fail.note(i, Expected::Rule(Rule::UnaryOp));
        match_primary(t, i, fail)
    }
}

fn match_primary(t: &Vec<Token>, i: usize, fail: &mut Failure) -> (r: Option<(Node, usize)>)
    requires
        tokens_sorted(t@),
        i <= t@.len(),
    ensures
        yields(t@, i as int, r, primary(t@, i as int), old(fail)@, final(fail)@),
    decreases t@.len() - i, 2int, 0int,
{
    if i < t.len() {
        if let Some(rule) = literal_rule_of(t[i].kind) {
            proof {
                lemma_leaf_fits(rule, t@, i as int);
            }
            return Some((make_leaf(rule, t, i), i + 1));
        }
    }
    fail.note(i, Expected::Rule(Rule::Literal));
    if name_at(t, i) {
        let name = make_leaf(Rule::Identifier, t, i);
        proof {
            lemma_leaf_fits(Rule::Identifier, t@, i as int);
        }
        match match_call_args(t, i + 1, fail) {
            Some((args, j)) => {
                let cs = concat(one(name), args);
                proof {
                    lemma_seq_one(name@, t@, i as int, i + 1);
                    lemma_seq_concat(seq![name@], trees(args@), t@, i as int, i + 1, j as int);
                    lemma_node_fits(Rule::FunctionCall, t@, i as int, j as int, trees(cs@));
                }
                Some((make_node(Rule::FunctionCall, t, i, j, cs), j))
            },
            None => Some((name, i + 1)),
        }
    } else {
        fail.note(i, Expected::Token(TokenKind::Ident));
        if tok_is(t, i, TokenKind::LParen) {
            match match_expression(t, i + 1, fail) {
                Some((x, j)) => {
                    if tok_is(t, j, TokenKind::RParen) {
                        proof {
                            lemma_widen(x@, t@, i as int, j + 1, i + 1, j as int);
                        }
                        Some((x, j + 1))
                    } else {
                        fail.note(j, Expected::Token(TokenKind::RParen));
                        None
                    }
                },
                None => None,
            }
        } else {
            fail.note(i, Expected::Token(TokenKind::LParen));
            None
        }
    }
}

fn match_call_args(t: &Vec<Token>, i: usize, fail: &mut Failure) -> (r: Option<(Vec<Node>, usize)>)
    requires
        tokens_sorted(t@),
        i <= t@.len(),
    ensures
        yields_list(t@, i as int, r, call_args(t@, i as int), old(fail)@, final(fail)@),
    decreases t@.len() - i, 0int, 0int,
{
    if !tok_is(t, i, TokenKind::LParen) {
        fail.note(i, Expected::Token(TokenKind::LParen));
        return None;
    }
    match match_arg_list(t, i + 1, fail) {
        Some((args, j)) => {
            if tok_is(t, j, TokenKind::RParen) {
                proof {
                    assert(t@[i as int].start < t@[i as int].end);
                    assert(t@[i as int].end <= t@[i + 1].start);
                    assert(t@[j - 1].end <= t@[j as int].start);
                    assert(t@[j as int].start < t@[j as int].end);
                }
                Some((args, j + 1))
            } else {
                fail.note(j, Expected::Token(TokenKind::RParen));
                None
            }
        },
        None => {
            if tok_is(t, i + 1, TokenKind::RParen) {
                let v: Vec<Node> = Vec::new();
                assert(trees(v@) =~= Seq::<Tree>::empty());
                Some((v, i + 2))
            } else {
                fail.note(i + 1, Expected::Token(TokenKind::RParen));
                None
            }
        },
    }
}

#[verifier::rlimit(100)]
fn match_arg_list(t: &Vec<Token>, i: usize, fail: &mut Failure) -> (r: Option<(Vec<Node>, usize)>)
    requires
        tokens_sorted(t@),
        i <= t@.len(),
    ensures
        yields_list(t@, i as int, r, arg_list(t@, i as int), old(fail)@, final(fail)@),
    decreases t@.len() - i, 11int, 0int,
{
    let ghost f0 = fail@;
    let (first, j0) = match match_expression(t, i, fail) {
        Some(found) => found,
        None => {
            return None;
        },
    };
    let ghost whole = arg_rest(t@, j0 as int);
    let ghost f1 = fail@;
    let ghost e1 = expression(t@, i as int).1;
    proof {
        crate::grammar::lemma_merge_assoc(f0, e1, whole.2);
        assert(arg_list(t@, i as int) == (Some((seq![first@] + whole.0, whole.1)), merge(e1, whole.2)));
    }
    let mut acc = one(first);
    let ghost tail: Seq<Tree> = Seq::empty();
    proof {
        lemma_seq_one(first@, t@, i as int, j0 as int);
        assert(trees(acc@) =~= seq![first@] + tail);
        assert(whole.0 =~= tail + whole.0);
    }
    let mut cur = j0;
    loop
        invariant
            tokens_sorted(t@),
            i < j0 <= cur <= t@.len(),
            seq_fits(trees(acc@), t@, i as int, cur as int),
            trees(acc@) == seq![first@] + tail,
            whole.0 == tail + arg_rest(t@, cur as int).0,
            whole.1 == arg_rest(t@, cur as int).1,
            merge(f1, whole.2) == merge(fail@, arg_rest(t@, cur as int).2),
            merge(f1, whole.2) == merge(f0, merge(e1, whole.2)),
            f0 == old(fail)@,
            arg_list(t@, i as int) == (Some((seq![first@] + whole.0, whole.1)), merge(e1, whole.2)),
        decreases t@.len() - cur,
    {
        if !tok_is(t, cur, TokenKind::Comma) {
            fail.note(cur, Expected::Token(TokenKind::Comma));
            proof {
                assert(tail + Seq::<Tree>::empty() =~= tail);
            }
            return Some((acc, cur));
        }
        match match_expression(t, cur + 1, fail) {
            Some((x, j)) => {
                let ghost before = trees(acc@);
                proof {
                    lemma_seq_one(x@, t@, cur + 1, j as int);
                    lemma_widen(x@, t@, cur as int, j as int, cur + 1, j as int);
                    lemma_seq_one(x@, t@, cur as int, j as int);
                    lemma_seq_concat(before, seq![x@], t@, i as int, cur as int, j as int);
                }
                acc = concat(acc, one(x));
                proof {
                    let rest = arg_rest(t@, j as int);
                    assert(tail + (seq![x@] + rest.0) =~= tail.push(x@) + rest.0);
                    assert(before + seq![x@] =~= seq![first@] + tail.push(x@));
                    tail = tail.push(x@);
                }
                cur = j;
            },
            None => {
                proof {
                    assert(tail + Seq::<Tree>::empty() =~= tail);
                }
                return Some((acc, cur));
            },
        }
    }
}

/// A vector of two nodes.
fn two(a: Node, b: Node) -> (v: Vec<Node>)
    ensures
        trees(v@) == seq![a@, b@],
{
    let mut v = Vec::new();
    v.push(a);
    v.push(b);
    assert(trees(v@) =~= seq![a@, b@]);
    v
}

/// Adds `n` at the end of `v`.
fn push_node(v: &mut Vec<Node>, n: Node)
    ensures
        trees(final(v)@) == trees(old(v)@).push(n@),
{
    v.push(n);
    assert(trees(v@) =~= trees(old(v)@).push(n@));
}

/// The identifier at `i + 1` and the type name at `i + 3` of a declaration
/// `var name: type` or a parameter `name: type` starting at `i`.
proof fn lemma_name_and_type(t: Seq<Token>, i: int, a: int, b: int, k: int)
    requires
        tokens_sorted(t),
        0 <= i <= a,
        a < b < k <= t.len(),
    ensures
        seq_fits(seq![leaf(Rule::Identifier, t, a), type_tree(t, b)], t, i, k),
{
    lemma_leaf_fits(Rule::Identifier, t, a);
    lemma_type_fits(t, b);
    lemma_widen(leaf(Rule::Identifier, t, a), t, i, b, a, a + 1);
    lemma_seq_one(leaf(Rule::Identifier, t, a), t, i, b);
    lemma_seq_one(type_tree(t, b), t, b, b + 1);
    lemma_seq_concat(seq![leaf(Rule::Identifier, t, a)], seq![type_tree(t, b)], t, i, b, b + 1);
    assert(seq![leaf(Rule::Identifier, t, a)] + seq![type_tree(t, b)] =~= seq![
        leaf(Rule::Identifier, t, a),
        type_tree(t, b),
    ]);
    lemma_seq_widen(seq![leaf(Rule::Identifier, t, a), type_tree(t, b)], t, i, k, i, b + 1);
}

pub fn match_var_decl(t: &Vec<Token>, i: usize, fail: &mut Failure) -> (r: Option<(Node, usize)>)
    requires
        tokens_sorted(t@),
        i <= t@.len(),
    ensures
        yields(t@, i as int, r, var_decl(t@, i as int), old(fail)@, final(fail)@),
        r matches Some((n, j)) ==> spans_tokens(n@, t@, i as int, j as int),
{
    proof {
        reveal(var_decl);
    }
    if !tok_is(t, i, TokenKind::Var) {
        fail.note(i, Expected::Token(TokenKind::Var));
        return None;
    }
    if !name_at(t, i + 1) {
        fail.note(i + 1, Expected::Token(TokenKind::Ident));
        return None;
    }
    if !tok_is(t, i + 2, TokenKind::Colon) {
        fail.note(i + 2, Expected::Token(TokenKind::Colon));
        return None;
    }
    if !name_at(t, i + 3) {
        fail.note(i + 3, Expected::Rule(Rule::TypeName));
        return None;
    }
    let ghost f0 = fail@;
    let ghost head = seq![leaf(Rule::Identifier, t@, i + 1), type_tree(t@, i + 3)];
    let mut cs = two(make_leaf(Rule::Identifier, t, i + 1), make_type(t, i + 3));
    if tok_is(t, i + 4, TokenKind::Assign) {
        match match_expression(t, i + 5, fail) {
            Some((x, j)) => {
                if tok_is(t, j, TokenKind::Semi) {
                    proof {
                        lemma_name_and_type(t@, i as int, i + 1, i + 3, i + 5);
                        lemma_widen(x@, t@, i + 5, j + 1, i + 5, j as int);
                        lemma_seq_one(x@, t@, i + 5, j + 1);
                        lemma_seq_concat(head, seq![x@], t@, i as int, i + 5, j + 1);
                        assert(head + seq![x@] =~= head.push(x@));
                    }
                    push_node(&mut cs, x);
                    proof {
                        lemma_node_fits(Rule::VarDecl, t@, i as int, j + 1, trees(cs@));
                    }
                    Some((make_node(Rule::VarDecl, t, i, j + 1, cs), j + 1))
                } else {
                    fail.note(j, Expected::Token(TokenKind::Semi));
                    None
                }
            },
            None => {
                fail.note(i + 4, Expected::Token(TokenKind::Semi));
                None
            },
        }
    } else {
        fail.note(i + 4, Expected::Token(TokenKind::Assign));
        if tok_is(t, i + 4, TokenKind::Semi) {
            proof {
                lemma_name_and_type(t@, i as int, i + 1, i + 3, i + 5);
                lemma_node_fits(Rule::VarDecl, t@, i as int, i + 5, trees(cs@));
            }
            Some((make_node(Rule::VarDecl, t, i, i + 5, cs), i + 5))
        } else {
            fail.note(i + 4, Expected::Token(TokenKind::Semi));
            None
        }
    }
}

pub fn match_return_stmt(t: &Vec<Token>, i: usize, fail: &mut Failure) -> (r: Option<(Node, usize)>)
    requires
        tokens_sorted(t@),
        i <= t@.len(),
    ensures
        yields(t@, i as int, r, return_stmt(t@, i as int), old(fail)@, final(fail)@),
{
    proof {
        reveal(return_stmt);
    }
    if !tok_is(t, i, TokenKind::Return) {
        fail.note(i, Expected::Token(TokenKind::Return));
        return None;
    }
    match match_expression(t, i + 1, fail) {
        Some((x, j)) => {
            if tok_is(t, j, TokenKind::Semi) {
                let cs = one(x);
                proof {
                    lemma_widen(x@, t@, i as int, j + 1, i + 1, j as int);
                    lemma_seq_one(x@, t@, i as int, j + 1);
                    lemma_node_fits(Rule::ReturnStmt, t@, i as int, j + 1, trees(cs@));
                }
                Some((make_node(Rule::ReturnStmt, t, i, j + 1, cs), j + 1))
            } else {
                fail.note(j, Expected::Token(TokenKind::Semi));
                None
            }
        },
        None => {
            if tok_is(t, i + 1, TokenKind::Semi) {
                let cs: Vec<Node> = Vec::new();
                proof {
                    assert(trees(cs@) =~= Seq::<Tree>::empty());
                    lemma_node_fits(Rule::ReturnStmt, t@, i as int, i + 2, trees(cs@));
                }
                Some((make_node(Rule::ReturnStmt, t, i, i + 2, cs), i + 2))
            } else {
                fail.note(i + 1, Expected::Token(TokenKind::Semi));
                None
            }
        },
    }
}

pub fn match_expr_stmt(t: &Vec<Token>, i: usize, fail: &mut Failure) -> (r: Option<(Node, usize)>)
    requires
        tokens_sorted(t@),
        i <= t@.len(),
    ensures
        yields(t@, i as int, r, expr_stmt(t@, i as int), old(fail)@, final(fail)@),
{
    proof {
        reveal(expr_stmt);
    }
    match match_expression(t, i, fail) {
        Some((x, j)) => {
            if tok_is(t, j, TokenKind::Semi) {
                let cs = one(x);
                proof {
                    lemma_widen(x@, t@, i as int, j + 1, i as int, j as int);
                    lemma_seq_one(x@, t@, i as int, j + 1);
                    lemma_node_fits(Rule::ExprStmt, t@, i as int, j + 1, trees(cs@));
                }
                Some((make_node(Rule::ExprStmt, t, i, j + 1, cs), j + 1))
            } else {
                fail.note(j, Expected::Token(TokenKind::Semi));
                None
            }
        },
        None => None,
    }
}

pub fn match_statement(t: &Vec<Token>, i: usize, fail: &mut Failure) -> (r: Option<(Node, usize)>)
    requires
        tokens_sorted(t@),
        i <= t@.len(),
    ensures
        yields(t@, i as int, r, statement(t@, i as int), old(fail)@, final(fail)@),
{
    proof {
        reveal(statement);
    }
    let ghost f0 = fail@;
    if let Some(found) = match_var_decl(t, i, fail) {
        return Some(found);
    }
    let ghost f1 = fail@;
    if let Some(found) = match_return_stmt(t, i, fail) {
        proof {
            crate::grammar::lemma_merge_assoc(f0, var_decl(t@, i as int).1, return_stmt(t@, i as int).1);
        }
        return Some(found);
    }
    let ghost f2 = fail@;
    let r = match_expr_stmt(t, i, fail);
    proof {
        let v1 = var_decl(t@, i as int).1;
        let r1 = return_stmt(t@, i as int).1;
        let e1 = expr_stmt(t@, i as int).1;
        crate::grammar::lemma_merge_assoc(f0, v1, r1);
        crate::grammar::lemma_merge_assoc(f0, merge(v1, r1), e1);
    }
    r
}

#[verifier::rlimit(100)]
pub fn match_statements(t: &Vec<Token>, i: usize, fail: &mut Failure) -> (r: (Vec<Node>, usize))
    requires
        tokens_sorted(t@),
        i <= t@.len(),
    ensures
        yields_many(t@, i as int, r, statements(t@, i as int), old(fail)@, final(fail)@),
{
    let ghost f0 = fail@;
    let ghost whole = statements(t@, i as int);
    let mut acc: Vec<Node> = Vec::new();
    let ghost done: Seq<Tree> = Seq::empty();
    let mut cur = i;
    proof {
        lemma_seq_empty(t@, i as int);
        assert(trees(acc@) =~= done);
        assert(whole.0 =~= done + whole.0);
    }
    loop
        invariant
            tokens_sorted(t@),
            i <= cur <= t@.len(),
            seq_fits(done, t@, i as int, cur as int),
            trees(acc@) == done,
            whole == statements(t@, i as int),
            whole.0 == done + statements(t@, cur as int).0,
            whole.1 == statements(t@, cur as int).1,
            merge(f0, whole.2) == merge(fail@, statements(t@, cur as int).2),
            f0 == old(fail)@,
        decreases t@.len() - cur,
    {
        let ghost fb = fail@;
        match match_statement(t, cur, fail) {
            Some((x, j)) => {
                proof {
                    let rest = statements(t@, j as int);
                    lemma_seq_one(x@, t@, cur as int, j as int);
                    lemma_seq_concat(done, seq![x@], t@, i as int, cur as int, j as int);
                    crate::grammar::lemma_merge_assoc(fb, statement(t@, cur as int).1, rest.2);
                    assert(done + (seq![x@] + rest.0) =~= done.push(x@) + rest.0);
                    assert(done + seq![x@] =~= done.push(x@));
                }
                push_node(&mut acc, x);
                proof {
                    done = done.push(x@);
                }
                cur = j;
            },
            None => {
                proof {
                    assert(done + Seq::<Tree>::empty() =~= done);
                }
                return (acc, cur);
            },
        }
    }
}

pub fn match_block(t: &Vec<Token>, i: usize, fail: &mut Failure) -> (r: Option<(Node, usize)>)
    requires
        tokens_sorted(t@),
        i <= t@.len(),
    ensures
        yields(t@, i as int, r, block(t@, i as int), old(fail)@, final(fail)@),
{
    proof {
        reveal(block);
    }
    if !tok_is(t, i, TokenKind::LBrace) {
        fail.note(i, Expected::Token(TokenKind::LBrace));
        return None;
    }
    let (stmts, k) = match_statements(t, i + 1, fail);
    if tok_is(t, k, TokenKind::RBrace) {
        proof {
            lemma_seq_widen(trees(stmts@), t@, i as int, k + 1, i + 1, k as int);
            lemma_node_fits(Rule::Block, t@, i as int, k + 1, trees(stmts@));
        }
        Some((make_node(Rule::Block, t, i, k + 1, stmts), k + 1))
    } else {
        fail.note(k, Expected::Token(TokenKind::RBrace));
        None
    }
}

pub fn match_param(t: &Vec<Token>, i: usize, fail: &mut Failure) -> (r: Option<(Node, usize)>)
    requires
        tokens_sorted(t@),
        i <= t@.len(),
    ensures
        yields(t@, i as int, r, param(t@, i as int), old(fail)@, final(fail)@),
{
    proof {
        reveal(param);
    }
    if !name_at(t, i) {
        fail.note(i, Expected::Token(TokenKind::Ident));
        return None;
    }
    if !tok_is(t, i + 1, TokenKind::Colon) {
        fail.note(i + 1, Expected::Token(TokenKind::Colon));
        return None;
    }
    if !name_at(t, i + 2) {
        fail.note(i + 2, Expected::Rule(Rule::TypeName));
        return None;
    }
    let cs = two(make_leaf(Rule::Identifier, t, i), make_type(t, i + 2));
    proof {
        lemma_name_and_type(t@, i as int, i as int, i + 2, i + 3);
        lemma_node_fits(Rule::Param, t@, i as int, i + 3, trees(cs@));
    }
    Some((make_node(Rule::Param, t, i, i + 3, cs), i + 3))
}

pub fn match_param_rest(t: &Vec<Token>, i: usize, fail: &mut Failure) -> (r: (Vec<Node>, usize))
    requires
        tokens_sorted(t@),
        i <= t@.len(),
    ensures
        yields_many(t@, i as int, r, param_rest(t@, i as int), old(fail)@, final(fail)@),
{
    let ghost f0 = fail@;
    let ghost whole = param_rest(t@, i as int);
    let mut acc: Vec<Node> = Vec::new();
    let ghost done: Seq<Tree> = Seq::empty();
    let mut cur = i;
    proof {
        lemma_seq_empty(t@, i as int);
        assert(trees(acc@) =~= done);
        assert(whole.0 =~= done + whole.0);
    }
    loop
        invariant
            tokens_sorted(t@),
            i <= cur <= t@.len(),
            seq_fits(done, t@, i as int, cur as int),
            trees(acc@) == done,
            whole == param_rest(t@, i as int),
            whole.0 == done + param_rest(t@, cur as int).0,
            whole.1 == param_rest(t@, cur as int).1,
            merge(f0, whole.2) == merge(fail@, param_rest(t@, cur as int).2),
            f0 == old(fail)@,
        decreases t@.len() - cur,
    {
        if !tok_is(t, cur, TokenKind::Comma) {
            fail.note(cur, Expected::Token(TokenKind::Comma));
            proof {
                assert(done + Seq::<Tree>::empty() =~= done);
            }
            return (acc, cur);
        }
        let ghost fb = fail@;
        match match_param(t, cur + 1, fail) {
            Some((x, j)) => {
                proof {
                    let rest = param_rest(t@, j as int);
                    lemma_widen(x@, t@, cur as int, j as int, cur + 1, j as int);
                    lemma_seq_one(x@, t@, cur as int, j as int);
                    lemma_seq_concat(done, seq![x@], t@, i as int, cur as int, j as int);
                    crate::grammar::lemma_merge_assoc(fb, param(t@, cur + 1).1, rest.2);
                    assert(done + (seq![x@] + rest.0) =~= done.push(x@) + rest.0);
                    assert(done + seq![x@] =~= done.push(x@));
                }
                push_node(&mut acc, x);
                proof {
                    done = done.push(x@);
                }
                cur = j;
            },
            None => {
                proof {
                    assert(done + Seq::<Tree>::empty() =~= done);
                }
                return (acc, cur);
            },
        }
    }
}

pub fn match_params(t: &Vec<Token>, i: usize, fail: &mut Failure) -> (r: (Vec<Node>, usize))
    requires
        tokens_sorted(t@),
        i <= t@.len(),
    ensures
        yields_many(t@, i as int, r, params(t@, i as int), old(fail)@, final(fail)@),
{
    proof {
        reveal(params);
    }
    let ghost f0 = fail@;
    match match_param(t, i, fail) {
        Some((x, j)) => {
            let (rest, k) = match_param_rest(t, j, fail);
            let v = concat(one(x), rest);
            proof {
                lemma_seq_one(x@, t@, i as int, j as int);
                lemma_seq_concat(seq![x@], trees(rest@), t@, i as int, j as int, k as int);
                crate::grammar::lemma_merge_assoc(f0, param(t@, i as int).1, param_rest(t@, j as int).2);
            }
            (v, k)
        },
        None => {
            let v: Vec<Node> = Vec::new();
            proof {
                assert(trees(v@) =~= Seq::<Tree>::empty());
                lemma_seq_empty(t@, i as int);
            }
            (v, i)
        },
    }
}

pub fn match_return_type(t: &Vec<Token>, i: usize, fail: &mut Failure) -> (r: (Vec<Node>, usize))
    requires
        tokens_sorted(t@),
        i <= t@.len(),
    ensures
        yields_many(t@, i as int, r, return_type(t@, i as int), old(fail)@, final(fail)@),
{
    proof {
        reveal(return_type);
    }
    if tok_is(t, i, TokenKind::Arrow) {
        if name_at(t, i + 1) {
            let v = one(make_type(t, i + 1));
            proof {
                lemma_type_fits(t@, i + 1);
                lemma_widen(type_tree(t@, i + 1), t@, i as int, i + 2, i + 1, i + 2);
                lemma_seq_one(type_tree(t@, i + 1), t@, i as int, i + 2);
            }
            return (v, i + 2);
        }
        fail.note(i + 1, Expected::Rule(Rule::TypeName));
    } else {
        fail.note(i, Expected::Token(TokenKind::Arrow));
    }
    let v: Vec<Node> = Vec::new();
    proof {
        assert(trees(v@) =~= Seq::<Tree>::empty());
        lemma_seq_empty(t@, i as int);
    }
    (v, i)
}

pub fn match_function_decl(t: &Vec<Token>, i: usize, fail: &mut Failure) -> (r: Option<(Node, usize)>)
    requires
        tokens_sorted(t@),
        i <= t@.len(),
    ensures
        yields(t@, i as int, r, function_decl(t@, i as int), old(fail)@, final(fail)@),
        r matches Some((n, j)) ==> spans_tokens(n@, t@, i as int, j as int),
{
    proof {
        reveal(function_decl);
    }
    if !tok_is(t, i, TokenKind::Fn) {
        fail.note(i, Expected::Token(TokenKind::Fn));
        return None;
    }
    if !name_at(t, i + 1) {
        fail.note(i + 1, Expected::Token(TokenKind::Ident));
        return None;
    }
    if !tok_is(t, i + 2, TokenKind::LParen) {
        fail.note(i + 2, Expected::Token(TokenKind::LParen));
        return None;
    }
    let ghost f0 = fail@;
    let (ps, k) = match_params(t, i + 3, fail);
    let ghost p2 = params(t@, i + 3).2;
    if !tok_is(t, k, TokenKind::RParen) {
        fail.note(k, Expected::Token(TokenKind::RParen));
        proof {
            crate::grammar::lemma_merge_assoc(f0, p2, fail_at(k as int, Expected::Token(TokenKind::RParen)));
        }
        return None;
    }
    let (rt, m) = match_return_type(t, k + 1, fail);
    let ghost r2 = return_type(t@, k + 1).2;
    let ghost b1 = block(t@, m as int).1;
    proof {
        crate::grammar::lemma_merge_assoc(f0, p2, r2);
        crate::grammar::lemma_merge_assoc(merge(f0, p2), r2, b1);
        crate::grammar::lemma_merge_assoc(f0, merge(p2, r2), b1);
        crate::grammar::lemma_merge_assoc(f0, p2, merge(r2, b1));
    }
    match match_block(t, m, fail) {
        Some((body, j)) => {
            let name = make_leaf(Rule::Identifier, t, i + 1);
            proof {
                lemma_leaf_fits(Rule::Identifier, t@, i + 1);
                lemma_widen(name@, t@, i as int, i + 3, i + 1, i + 2);
                lemma_seq_one(name@, t@, i as int, i + 3);
                lemma_seq_concat(seq![name@], trees(ps@), t@, i as int, i + 3, k as int);
                lemma_seq_widen(trees(rt@), t@, k as int, m as int, k + 1, m as int);
                lemma_seq_concat(seq![name@] + trees(ps@), trees(rt@), t@, i as int, k as int, m as int);
                lemma_seq_one(body@, t@, m as int, j as int);
                lemma_seq_concat(seq![name@] + trees(ps@) + trees(rt@), seq![body@], t@, i as int, m as int, j as int);
            }
            let cs = concat(concat(concat(one(name), ps), rt), one(body));
            proof {
                lemma_node_fits(Rule::FunctionDecl, t@, i as int, j as int, trees(cs@));
            }
            Some((make_node(Rule::FunctionDecl, t, i, j, cs), j))
        },
        None => None,
    }
}

pub fn match_declaration(t: &Vec<Token>, i: usize, fail: &mut Failure) -> (r: Option<(Node, usize)>)
    requires
        tokens_sorted(t@),
        i <= t@.len(),
    ensures
        yields(t@, i as int, r, declaration(t@, i as int), old(fail)@, final(fail)@),
        r matches Some((n, j)) ==> spans_tokens(n@, t@, i as int, j as int),
{
    proof {
        reveal(declaration);
    }
    let ghost f0 = fail@;
    if let Some(found) = match_function_decl(t, i, fail) {
        return Some(found);
    }
    let r = match_var_decl(t, i, fail);
    proof {
        crate::grammar::lemma_merge_assoc(f0, function_decl(t@, i as int).1, var_decl(t@, i as int).1);
    }
    r
}

#[verifier::rlimit(100)]
pub fn match_declarations(t: &Vec<Token>, i: usize, fail: &mut Failure) -> (r: (Vec<Node>, usize))
    requires
        tokens_sorted(t@),
        i <= t@.len(),
    ensures
        yields_many(t@, i as int, r, declarations(t@, i as int), old(fail)@, final(fail)@),
        tiles(trees(r.0@), t@, i as int, r.1 as int),
{
    let ghost f0 = fail@;
    let ghost whole = declarations(t@, i as int);
    let mut acc: Vec<Node> = Vec::new();
    let ghost done: Seq<Tree> = Seq::empty();
    let mut cur = i;
    proof {
        lemma_seq_empty(t@, i as int);
        assert(trees(acc@) =~= done);
        assert(whole.0 =~= done + whole.0);
    }
    loop
        invariant
            tokens_sorted(t@),
            i <= cur <= t@.len(),
            seq_fits(done, t@, i as int, cur as int),
            trees(acc@) == done,
            whole == declarations(t@, i as int),
            whole.0 == done + declarations(t@, cur as int).0,
            whole.1 == declarations(t@, cur as int).1,
            merge(f0, whole.2) == merge(fail@, declarations(t@, cur as int).2),
            f0 == old(fail)@,
            tiles(done, t@, i as int, cur as int),
        decreases t@.len() - cur,
    {
        let ghost fb = fail@;
        match match_declaration(t, cur, fail) {
            Some((x, j)) => {
                proof {
                    let nd = done.push(x@);
                    assert forall|k: int| 0 <= k < nd.len() - 1 implies exists|m: int|
                        i < m < j && #[trigger] nd[k].end == t@[m - 1].end && nd[k + 1].start
                            == t@[m].start by {
                        if k == done.len() - 1 {
                            assert(nd[k] == done.last());
                            assert(i < cur < j && nd[k].end == t@[cur - 1].end && nd[k + 1].start == t@[cur as int].start);
                        } else {
                            assert(nd[k] == done[k] && nd[k + 1] == done[k + 1]);
                            let m = choose|m: int| i < m < cur && #[trigger] done[k].end == t@[m - 1].end && done[k + 1].start == t@[m].start;
                            assert(i < m < j && nd[k].end == t@[m - 1].end && nd[k + 1].start == t@[m].start);
                        }
                    }
                    assert(tiles(nd, t@, i as int, j as int));
                    let rest = declarations(t@, j as int);
                    lemma_seq_one(x@, t@, cur as int, j as int);
                    lemma_seq_concat(done, seq![x@], t@, i as int, cur as int, j as int);
                    crate::grammar::lemma_merge_assoc(fb, declaration(t@, cur as int).1, rest.2);
                    assert(done + (seq![x@] + rest.0) =~= done.push(x@) + rest.0);
                    assert(done + seq![x@] =~= done.push(x@));
                }
                push_node(&mut acc, x);
                proof {
                    done = done.push(x@);
                }
                cur = j;
            },
            None => {
                proof {
                    assert(done + Seq::<Tree>::empty() =~= done);
                }
                return (acc, cur);
            },
        }
    }
}

} // verus!
