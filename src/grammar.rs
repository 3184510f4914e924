//! The grammar as ordered-choice (PEG) rules over tokens, with furthest-failure
//! bookkeeping: what each rule yields at a token index, and which failed token
//! tests lie furthest to the right.
use vstd::prelude::*;
use crate::lexer::{Token, TokenKind};

verus! {

/// The rule that a node of the parse tree stands for.
#[derive(Clone, Copy, Debug, PartialEq, Eq, Structural)]
pub enum Rule {
    /// A whole program; its trees are those of its declarations.
    Program,
    FunctionDecl,
    Param,
    Block,
    VarDecl,
    ReturnStmt,
    ExprStmt,
    TypeName,
    Expression,
    LogicalOr,
    LogicalAnd,
    Equality,
    Comparison,
    Additive,
    Multiplicative,
    Unary,
    FunctionCall,
    Identifier,
    Integer,
    Float,
    Boolean,
    StringLit,
    Literal,
    OrOp,
    AndOp,
    EqualityOp,
    ComparisonOp,
    AdditiveOp,
    MultiplicativeOp,
    UnaryOp,
}

/// One thing that would have been accepted where a parse failed.
#[derive(Clone, Copy, Debug, PartialEq, Eq, Structural)]
pub enum Expected {
    /// A token of this kind.
    Token(TokenKind),
    /// Text matching this rule.
    Rule(Rule),
    /// The end of the input.
    End,
}

/// A parse tree over byte offsets of the source.
pub struct Tree {
    pub rule: Rule,
    pub start: int,
    pub end: int,
    pub children: Seq<Tree>,
}

/// The furthest token index at which a token test failed, with everything
/// that was expected there (`at` 0 and nothing expected: no failure yet).
pub struct Fail {
    pub at: nat,
    pub expected: Set<Expected>,
}

pub open spec fn no_fail() -> Fail {
    Fail { at: 0, expected: Set::empty() }
}

pub open spec fn fail_at(i: int, e: Expected) -> Fail {
    Fail { at: i as nat, expected: set![e] }
}

/// Combines two failure records: the further one wins, and at equal
/// positions the expectations are pooled.
#[verifier::opaque]
pub open spec fn merge(a: Fail, b: Fail) -> Fail {
    if a.at > b.at {
        a
    } else if b.at > a.at {
        b
    } else {
        Fail { at: a.at, expected: a.expected.union(b.expected) }
    }
}

pub broadcast proof fn lemma_merge_assoc(a: Fail, b: Fail, c: Fail)
    ensures
        #[trigger] merge(merge(a, b), c) == merge(a, merge(b, c)),
{
    reveal(merge);
    assert(merge(merge(a, b), c).expected =~= merge(a, merge(b, c)).expected);
}

pub broadcast proof fn lemma_merge_none(a: Fail)
    ensures
        #[trigger] merge(a, no_fail()) == a,
{
    reveal(merge);
    assert(merge(a, no_fail()).expected =~= a.expected);
}

pub broadcast proof fn lemma_none_merge(a: Fail)
    ensures
        #[trigger] merge(no_fail(), a) == a,
{
    reveal(merge);
    assert(merge(no_fail(), a).expected =~= a.expected);
}

pub broadcast group group_merge {
    lemma_merge_assoc,
    lemma_merge_none,
    lemma_none_merge,
}

/// What a rule yields at a token index: the tree and the index after it, if
/// it matches, and the failures met on the way.
pub type Parsed = (Option<(Tree, int)>, Fail);

/// What a repetition yields: the trees, the index after them, and the
/// failures met on the way (the last of which ended it).
pub type Repeated = (Seq<Tree>, int, Fail);

pub open spec fn is_tok(t: Seq<Token>, i: int, k: TokenKind) -> bool {
    0 <= i < t.len() && t[i].kind == k
}

/// An identifier at `i`: an identifier token or a primitive type name.
pub open spec fn is_name(t: Seq<Token>, i: int) -> bool {
    is_tok(t, i, TokenKind::Ident) || is_tok(t, i, TokenKind::Primitive)
}

/// The tree of the type name at `i`: a primitive type is a leaf; any other
/// name is a type name over one identifier.
pub open spec fn type_tree(t: Seq<Token>, i: int) -> Tree {
    if t[i].kind == TokenKind::Primitive {
        leaf(Rule::TypeName, t, i)
    } else {
        node(Rule::TypeName, t, i, i + 1, seq![leaf(Rule::Identifier, t, i)])
    }
}

/// A tree without children for the token at `i`.
pub open spec fn leaf(rule: Rule, t: Seq<Token>, i: int) -> Tree {
    Tree { rule, start: t[i].start as int, end: t[i].end as int, children: seq![] }
}

/// A tree spanning the tokens `i .. j`.
pub open spec fn node(rule: Rule, t: Seq<Token>, i: int, j: int, children: Seq<Tree>) -> Tree {
    Tree { rule, start: t[i].start as int, end: t[j - 1].end as int, children }
}

pub open spec fn literal_rule(k: TokenKind) -> Option<Rule> {
    match k {
        TokenKind::Integer => Some(Rule::Integer),
        TokenKind::Float => Some(Rule::Float),
        TokenKind::True => Some(Rule::Boolean),
        TokenKind::False => Some(Rule::Boolean),
        TokenKind::Str => Some(Rule::StringLit),
        _ => None,
    }
}

/// The precedence level of a binary operator, from 0 (`||`, loosest) to 5
/// (`*`, `/`, `%`, tightest); -1 for other tokens.
pub open spec fn op_level(k: TokenKind) -> int {
    match k {
        TokenKind::OrOr => 0,
        TokenKind::AndAnd => 1,
        TokenKind::EqEq => 2,
        TokenKind::NotEq => 2,
        TokenKind::Lt => 3,
        TokenKind::Gt => 3,
        TokenKind::Le => 3,
        TokenKind::Ge => 3,
        TokenKind::Plus => 4,
        TokenKind::Minus => 4,
        TokenKind::Star => 5,
        TokenKind::Slash => 5,
        TokenKind::Percent => 5,
        _ => -1,
    }
}

/// The rule of the trees that level `l` builds.
pub open spec fn level_rule(l: int) -> Rule {
    if l == 0 {
        Rule::LogicalOr
    } else if l == 1 {
        Rule::LogicalAnd
    } else if l == 2 {
        Rule::Equality
    } else if l == 3 {
        Rule::Comparison
    } else if l == 4 {
        Rule::Additive
    } else {
        Rule::Multiplicative
    }
}

/// The rule of the operators of level `l`.
pub open spec fn level_op_rule(l: int) -> Rule {
    if l == 0 {
        Rule::OrOp
    } else if l == 1 {
        Rule::AndOp
    } else if l == 2 {
        Rule::EqualityOp
    } else if l == 3 {
        Rule::ComparisonOp
    } else if l == 4 {
        Rule::AdditiveOp
    } else {
        Rule::MultiplicativeOp
    }
}

/// `type_name := "i32" | "i64" | "f32" | "f64" | "bool" | "String" | identifier`:
/// a primitive type token or an identifier token (see `type_tree`).
pub open spec fn type_ref(t: Seq<Token>, i: int) -> Parsed {
    if is_name(t, i) {
        (Some((type_tree(t, i), i + 1)), no_fail())
    } else {
        (None, fail_at(i, Expected::Rule(Rule::TypeName)))
    }
}

/// `expression := logical_or`
pub open spec fn expression(t: Seq<Token>, i: int) -> Parsed
    decreases t.len() - i, 10int, 0int,
{
    let b = binary(t, 0, i);
    match b.0 {
        Some((x, j)) => {
            if i < j {
                (Some((node(Rule::Expression, t, i, j, seq![x]), j)), b.1)
            } else {
                (None, b.1)
            }
        },
        None => (None, b.1),
    }
}

/// The operand of level `l`: the next tighter level, or a unary expression.
pub open spec fn operand(t: Seq<Token>, l: int, i: int) -> Parsed
    decreases t.len() - i, 9 - l, 1int,
{
    if !(0 <= l <= 5) {
        (None, no_fail())
    } else if l == 5 {
        unary(t, i)
    } else {
        binary(t, l + 1, i)
    }
}

/// Level `l` of the binary operators: `operand (op operand)*`, grouped to the left.
pub open spec fn binary(t: Seq<Token>, l: int, i: int) -> Parsed
    decreases t.len() - i, 9 - l, 2int,
{
    if !(0 <= l <= 5) {
        (None, no_fail())
    } else {
        let o = operand(t, l, i);
        match o.0 {
            Some((lhs, j)) => {
                if i < j <= t.len() {
                    let r = binary_rest(t, l, i, lhs, j);
                    (r.0, merge(o.1, r.1))
                } else {
                    (None, o.1)
                }
            },
            None => (None, o.1),
        }
    }
}

/// The `(op operand)*` tail of level `l` at `i`, after `lhs`, which began at `i0`.
pub open spec fn binary_rest(t: Seq<Token>, l: int, i0: int, lhs: Tree, i: int) -> Parsed
    decreases t.len() - i, 0int, 0int,
{
    if 0 <= i < t.len() && op_level(t[i].kind) == l && 0 <= l <= 5 {
        let r = operand(t, l, i + 1);
        match r.0 {
            Some((rhs, j)) => {
                if i + 1 < j <= t.len() {
                    let acc = node(
                        level_rule(l),
                        t,
                        i0,
                        j,
                        seq![lhs, leaf(level_op_rule(l), t, i), rhs],
                    );
                    let rest = binary_rest(t, l, i0, acc, j);
                    (rest.0, merge(r.1, rest.1))
                } else {
                    (Some((lhs, i)), r.1)
                }
            },
            None => (Some((lhs, i)), r.1),
        }
    } else {
        (Some((lhs, i)), fail_at(i, Expected::Rule(level_op_rule(l))))
    }
}

/// `unary := ("-" | "!")? primary`
pub open spec fn unary(t: Seq<Token>, i: int) -> Parsed
    decreases t.len() - i, 3int, 0int,
{
    if is_tok(t, i, TokenKind::Minus) || is_tok(t, i, TokenKind::Bang) {
        let p = primary(t, i + 1);
        match p.0 {
            Some((x, j)) => (
                Some((node(Rule::Unary, t, i, j, seq![leaf(Rule::UnaryOp, t, i), x]), j)),
                p.1,
            ),
            None => (None, p.1),
        }
    } else {
        let p = primary(t, i);
        (p.0, merge(fail_at(i, Expected::Rule(Rule::UnaryOp)), p.1))
    }
}

/// `primary := literal | function_call | identifier | "(" expression ")"`
pub open spec fn primary(t: Seq<Token>, i: int) -> Parsed
    decreases t.len() - i, 2int, 0int,
{
    if 0 <= i < t.len() && literal_rule(t[i].kind) is Some {
        (Some((leaf(literal_rule(t[i].kind).unwrap(), t, i), i + 1)), no_fail())
    } else {
        let f0 = fail_at(i, Expected::Rule(Rule::Literal));
        if is_name(t, i) {
            let c = call_args(t, i + 1);
            match c.0 {
                Some((args, j)) => (
                    Some(
                        (
                            node(
                                Rule::FunctionCall,
                                t,
                                i,
                                j,
                                seq![leaf(Rule::Identifier, t, i)] + args,
                            ),
                            j,
                        ),
                    ),
                    merge(f0, c.1),
                ),
                None => (Some((leaf(Rule::Identifier, t, i), i + 1)), merge(f0, c.1)),
            }
        } else {
            let f1 = merge(f0, fail_at(i, Expected::Token(TokenKind::Ident)));
            if is_tok(t, i, TokenKind::LParen) {
                let e = expression(t, i + 1);
                match e.0 {
                    Some((x, j)) => {
                        if is_tok(t, j, TokenKind::RParen) {
                            (Some((x, j + 1)), merge(f1, e.1))
                        } else {
                            (None, merge(merge(f1, e.1), fail_at(j, Expected::Token(TokenKind::RParen))))
                        }
                    },
                    None => (None, merge(f1, e.1)),
                }
            } else {
                (None, merge(f1, fail_at(i, Expected::Token(TokenKind::LParen))))
            }
        }
    }
}

/// The `"(" arg_list? ")"` of a call, with `(` at `i`.
pub open spec fn call_args(t: Seq<Token>, i: int) -> (Option<(Seq<Tree>, int)>, Fail)
    decreases t.len() - i, 0int, 0int,
{
    if !is_tok(t, i, TokenKind::LParen) {
        (None, fail_at(i, Expected::Token(TokenKind::LParen)))
    } else {
        let a = arg_list(t, i + 1);
        match a.0 {
            Some((args, j)) => {
                if is_tok(t, j, TokenKind::RParen) {
                    (Some((args, j + 1)), a.1)
                } else {
                    (None, merge(a.1, fail_at(j, Expected::Token(TokenKind::RParen))))
                }
            },
            None => {
                if is_tok(t, i + 1, TokenKind::RParen) {
                    (Some((seq![], i + 2)), a.1)
                } else {
                    (None, merge(a.1, fail_at(i + 1, Expected::Token(TokenKind::RParen))))
                }
            },
        }
    }
}

/// `arg_list := expression ("," expression)*`
pub open spec fn arg_list(t: Seq<Token>, i: int) -> (Option<(Seq<Tree>, int)>, Fail)
    decreases t.len() - i, 11int, 0int,
{
    let e = expression(t, i);
    match e.0 {
        Some((x, j)) => {
            if i < j <= t.len() {
                let r = arg_rest(t, j);
                (Some((seq![x] + r.0, r.1)), merge(e.1, r.2))
            } else {
                (None, e.1)
            }
        },
        None => (None, e.1),
    }
}

/// The `("," expression)*` tail of an argument list.
pub open spec fn arg_rest(t: Seq<Token>, i: int) -> Repeated
    decreases t.len() - i, 0int, 0int,
{
    if is_tok(t, i, TokenKind::Comma) {
        let e = expression(t, i + 1);
        match e.0 {
            Some((x, j)) => {
                if i + 1 < j <= t.len() {
                    let r = arg_rest(t, j);
                    (seq![x] + r.0, r.1, merge(e.1, r.2))
                } else {
                    (seq![], i, e.1)
                }
            },
            None => (seq![], i, e.1),
        }
    } else {
        (seq![], i, fail_at(i, Expected::Token(TokenKind::Comma)))
    }
}

/// `var_decl := "var" identifier ":" type_name ("=" expression)? ";"`
#[verifier::opaque]
pub open spec fn var_decl(t: Seq<Token>, i: int) -> Parsed {
    if !is_tok(t, i, TokenKind::Var) {
        (None, fail_at(i, Expected::Token(TokenKind::Var)))
    } else if !is_name(t, i + 1) {
        (None, fail_at(i + 1, Expected::Token(TokenKind::Ident)))
    } else if !is_tok(t, i + 2, TokenKind::Colon) {
        (None, fail_at(i + 2, Expected::Token(TokenKind::Colon)))
    } else if !is_name(t, i + 3) {
        (None, fail_at(i + 3, Expected::Rule(Rule::TypeName)))
    } else {
        let head = seq![leaf(Rule::Identifier, t, i + 1), type_tree(t, i + 3)];
        let no_init = fail_at(i + 4, Expected::Token(TokenKind::Semi));
        if is_tok(t, i + 4, TokenKind::Assign) {
            let e = expression(t, i + 5);
            match e.0 {
                Some((x, j)) => {
                    if is_tok(t, j, TokenKind::Semi) {
                        (Some((node(Rule::VarDecl, t, i, j + 1, head.push(x)), j + 1)), e.1)
                    } else {
                        (None, merge(e.1, fail_at(j, Expected::Token(TokenKind::Semi))))
                    }
                },
                None => (None, merge(e.1, no_init)),
            }
        } else {
            let f = fail_at(i + 4, Expected::Token(TokenKind::Assign));
            if is_tok(t, i + 4, TokenKind::Semi) {
                (Some((node(Rule::VarDecl, t, i, i + 5, head), i + 5)), f)
            } else {
                (None, merge(f, no_init))
            }
        }
    }
}

/// `return_stmt := "return" expression? ";"`
#[verifier::opaque]
pub open spec fn return_stmt(t: Seq<Token>, i: int) -> Parsed {
    if !is_tok(t, i, TokenKind::Return) {
        (None, fail_at(i, Expected::Token(TokenKind::Return)))
    } else {
        let e = expression(t, i + 1);
        match e.0 {
            Some((x, j)) => {
                if is_tok(t, j, TokenKind::Semi) {
                    (Some((node(Rule::ReturnStmt, t, i, j + 1, seq![x]), j + 1)), e.1)
                } else {
                    (None, merge(e.1, fail_at(j, Expected::Token(TokenKind::Semi))))
                }
            },
            None => {
                if is_tok(t, i + 1, TokenKind::Semi) {
                    (Some((node(Rule::ReturnStmt, t, i, i + 2, seq![]), i + 2)), e.1)
                } else {
                    (None, merge(e.1, fail_at(i + 1, Expected::Token(TokenKind::Semi))))
                }
            },
        }
    }
}

/// `expr_stmt := expression ";"`
#[verifier::opaque]
pub open spec fn expr_stmt(t: Seq<Token>, i: int) -> Parsed {
    let e = expression(t, i);
    match e.0 {
        Some((x, j)) => {
            if is_tok(t, j, TokenKind::Semi) {
                (Some((node(Rule::ExprStmt, t, i, j + 1, seq![x]), j + 1)), e.1)
            } else {
                (None, merge(e.1, fail_at(j, Expected::Token(TokenKind::Semi))))
            }
        },
        None => (None, e.1),
    }
}

/// `statement := var_decl | return_stmt | expr_stmt`
#[verifier::opaque]
pub open spec fn statement(t: Seq<Token>, i: int) -> Parsed {
    let v = var_decl(t, i);
    if v.0 is Some {
        v
    } else {
        let r = return_stmt(t, i);
        if r.0 is Some {
            (r.0, merge(v.1, r.1))
        } else {
            let e = expr_stmt(t, i);
            (e.0, merge(merge(v.1, r.1), e.1))
        }
    }
}

/// `statement*`
pub open spec fn statements(t: Seq<Token>, i: int) -> Repeated
    decreases t.len() - i,
{
    let s = statement(t, i);
    match s.0 {
        Some((x, j)) => {
            if i < j <= t.len() {
                let r = statements(t, j);
                (seq![x] + r.0, r.1, merge(s.1, r.2))
            } else {
                (seq![], i, s.1)
            }
        },
        None => (seq![], i, s.1),
    }
}

/// `block := "{" statement* "}"`
#[verifier::opaque]
pub open spec fn block(t: Seq<Token>, i: int) -> Parsed {
    if !is_tok(t, i, TokenKind::LBrace) {
        (None, fail_at(i, Expected::Token(TokenKind::LBrace)))
    } else {
        let r = statements(t, i + 1);
        if is_tok(t, r.1, TokenKind::RBrace) {
            (Some((node(Rule::Block, t, i, r.1 + 1, r.0), r.1 + 1)), r.2)
        } else {
            (None, merge(r.2, fail_at(r.1, Expected::Token(TokenKind::RBrace))))
        }
    }
}

/// `param := identifier ":" type_name`
#[verifier::opaque]
pub open spec fn param(t: Seq<Token>, i: int) -> Parsed {
    if !is_name(t, i) {
        (None, fail_at(i, Expected::Token(TokenKind::Ident)))
    } else if !is_tok(t, i + 1, TokenKind::Colon) {
        (None, fail_at(i + 1, Expected::Token(TokenKind::Colon)))
    } else if !is_name(t, i + 2) {
        (None, fail_at(i + 2, Expected::Rule(Rule::TypeName)))
    } else {
        (
            Some(
                (
                    node(
                        Rule::Param,
                        t,
                        i,
                        i + 3,
                        seq![leaf(Rule::Identifier, t, i), type_tree(t, i + 2)],
                    ),
                    i + 3,
                ),
            ),
            no_fail(),
        )
    }
}

/// The `("," param)*` tail of a parameter list.
pub open spec fn param_rest(t: Seq<Token>, i: int) -> Repeated
    decreases t.len() - i,
{
    if is_tok(t, i, TokenKind::Comma) {
        let p = param(t, i + 1);
        match p.0 {
            Some((x, j)) => {
                if i + 1 < j <= t.len() {
                    let r = param_rest(t, j);
                    (seq![x] + r.0, r.1, merge(p.1, r.2))
                } else {
                    (seq![], i, p.1)
                }
            },
            None => (seq![], i, p.1),
        }
    } else {
        (seq![], i, fail_at(i, Expected::Token(TokenKind::Comma)))
    }
}

/// `param_list?`: the parameters, possibly none.
#[verifier::opaque]
pub open spec fn params(t: Seq<Token>, i: int) -> Repeated {
    let p = param(t, i);
    match p.0 {
        Some((x, j)) => {
            if i < j <= t.len() {
                let r = param_rest(t, j);
                (seq![x] + r.0, r.1, merge(p.1, r.2))
            } else {
                (seq![], i, p.1)
            }
        },
        None => (seq![], i, p.1),
    }
}

/// The optional `"->" type_name` at `i`: its trees (none or one), the index
/// after it, and the failures met.
#[verifier::opaque]
pub open spec fn return_type(t: Seq<Token>, i: int) -> Repeated {
    if is_tok(t, i, TokenKind::Arrow) {
        if is_name(t, i + 1) {
            (seq![type_tree(t, i + 1)], i + 2, no_fail())
        } else {
            (seq![], i, fail_at(i + 1, Expected::Rule(Rule::TypeName)))
        }
    } else {
        (seq![], i, fail_at(i, Expected::Token(TokenKind::Arrow)))
    }
}

/// `function_decl := "fn" identifier "(" param_list? ")" ("->" type_name)? block`
#[verifier::opaque]
pub open spec fn function_decl(t: Seq<Token>, i: int) -> Parsed {
    if !is_tok(t, i, TokenKind::Fn) {
        (None, fail_at(i, Expected::Token(TokenKind::Fn)))
    } else if !is_name(t, i + 1) {
        (None, fail_at(i + 1, Expected::Token(TokenKind::Ident)))
    } else if !is_tok(t, i + 2, TokenKind::LParen) {
        (None, fail_at(i + 2, Expected::Token(TokenKind::LParen)))
    } else {
        let p = params(t, i + 3);
        if !is_tok(t, p.1, TokenKind::RParen) {
            (None, merge(p.2, fail_at(p.1, Expected::Token(TokenKind::RParen))))
        } else {
            let r = return_type(t, p.1 + 1);
            let b = block(t, r.1);
            match b.0 {
                Some((body, j)) => (
                    Some(
                        (
                            node(
                                Rule::FunctionDecl,
                                t,
                                i,
                                j,
                                seq![leaf(Rule::Identifier, t, i + 1)] + p.0 + r.0 + seq![body],
                            ),
                            j,
                        ),
                    ),
                    merge(merge(p.2, r.2), b.1),
                ),
                None => (None, merge(merge(p.2, r.2), b.1)),
            }
        }
    }
}

/// `function_decl | var_decl`
#[verifier::opaque]
pub open spec fn declaration(t: Seq<Token>, i: int) -> Parsed {
    let f = function_decl(t, i);
    if f.0 is Some {
        f
    } else {
        let v = var_decl(t, i);
        (v.0, merge(f.1, v.1))
    }
}

/// `(function_decl | var_decl)*`
pub open spec fn declarations(t: Seq<Token>, i: int) -> Repeated
    decreases t.len() - i,
{
    let d = declaration(t, i);
    match d.0 {
        Some((x, j)) => {
            if i < j <= t.len() {
                let r = declarations(t, j);
                (seq![x] + r.0, r.1, merge(d.1, r.2))
            } else {
                (seq![], i, d.1)
            }
        },
        None => (seq![], i, d.1),
    }
}

/// A rule's outcome on a whole token sequence: its tree when it matched every
/// token, else the furthest failure, where an unmatched rest counts as a
/// failure to find the end.
pub open spec fn whole(t: Seq<Token>, p: Parsed) -> Result<Tree, Fail> {
    match p.0 {
        Some((x, j)) => {
            if j == t.len() {
                Ok(x)
            } else {
                Err(merge(p.1, fail_at(j, Expected::End)))
            }
        },
        None => Err(p.1),
    }
}

/// `program := (function_decl | var_decl)* EOF` on a whole token sequence.
pub open spec fn program(t: Seq<Token>) -> Result<Seq<Tree>, Fail> {
    let d = declarations(t, 0);
    if d.1 == t.len() {
        Ok(d.0)
    } else {
        Err(merge(d.2, fail_at(d.1, Expected::End)))
    }
}

} // verus!
