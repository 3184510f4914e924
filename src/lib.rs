//! A parser for a small statically typed imperative language: function and
//! variable declarations, expressions with operator precedence, and type names.
//!
//! Each entry point takes the whole source text and either returns a parse
//! tree whose nodes hold byte spans of that text, or a positioned error. What
//! each returns is stated against the grammar of the `grammar` module, over the
//! tokens that the `lexer` module finds.
use vstd::prelude::*;

pub mod grammar;
pub mod laws;
pub mod lexer;
pub mod message;
pub mod parser;
pub mod tree;

pub use grammar::{Expected, Rule};
pub use lexer::{Token, TokenKind};
pub use tree::Node;

use grammar::{Fail, Parsed, Tree, declarations, fail_at, merge, expression, function_decl, program, type_ref, var_decl, whole};
use lexer::{gap_start, lex, lex_bytes, lex_prefix, skip_trivia, tokens_cover, tokens_ordered};
use parser::{
    Failure, match_declarations, match_expression, match_function_decl, match_type_ref,
    match_var_decl,
};
use tree::{on_token_bounds, trees, well_formed};
use vstd::string::StringSliceAdditionalSpecFns;

verus! {

broadcast use grammar::group_merge;

/// A place in the source: its byte offset, and its 1-based line and column
/// (a column counts characters, not bytes).
#[derive(Clone, Copy, Debug, PartialEq, Eq, Structural)]
pub struct Position {
    pub offset: usize,
    pub line: usize,
    pub column: usize,
}

/// The result of a parse.
pub type ParseResult<T> = Result<T, ParseError>;

/// Why a parse failed.
#[derive(Debug)]
pub enum ParseError {
    /// Text that starts no token: a stray character, a string or a block
    /// comment that is never closed. `expected` is what the rule would have
    /// accepted there, after the tokens before it.
    InvalidToken { at: Position, expected: Vec<Expected> },
    /// The tokens do not match the rule. `at` is the furthest point that any
    /// alternative reached, `found_end` the end of the token found there (the
    /// end of the input when none is), and `expected` what would have been
    /// accepted there.
    SyntaxError { at: Position, found_end: usize, expected: Vec<Expected> },
}

/// Whether byte `b` continues a multi-byte UTF-8 character.
pub open spec fn is_continuation(b: u8) -> bool {
    128 <= b < 192
}

/// The 1-based line of byte offset `off`.
pub open spec fn line_of(s: Seq<u8>, off: int) -> int
    decreases off,
{
    if off <= 0 {
        1
    } else if s[off - 1] == 10 {
        line_of(s, off - 1) + 1
    } else {
        line_of(s, off - 1)
    }
}

/// The 1-based column, in characters, of byte offset `off`.
pub open spec fn column_of(s: Seq<u8>, off: int) -> int
    decreases off,
{
    if off <= 0 {
        1
    } else if s[off - 1] == 10 {
        1
    } else if is_continuation(s[off - 1]) {
        column_of(s, off - 1)
    } else {
        column_of(s, off - 1) + 1
    }
}

/// `p` is byte offset `off` of `s`, with its line and column.
pub open spec fn locates(p: Position, s: Seq<u8>, off: int) -> bool {
    &&& p.offset == off
    &&& p.line == line_of(s, off)
    &&& p.column == column_of(s, off)
}

/// Where token index `k` starts in the source: the token's start, or the end
/// of the input past the last token.
pub open spec fn token_offset(s: Seq<u8>, t: Seq<Token>, k: int) -> int {
    if 0 <= k < t.len() {
        t[k].start as int
    } else {
        s.len() as int
    }
}

/// Where the token at index `k` ends, or the end of the input past the last token.
pub open spec fn token_end(s: Seq<u8>, t: Seq<Token>, k: int) -> int {
    if 0 <= k < t.len() {
        t[k].end as int
    } else {
        s.len() as int
    }
}

/// `e` reports the failure `f` met on the tokens `t` of `s`.
pub open spec fn reports(e: ParseError, s: Seq<u8>, t: Seq<Token>, f: Fail) -> bool {
    match e {
        ParseError::SyntaxError { at, found_end, expected } => {
            &&& locates(at, s, token_offset(s, t, f.at as int))
            &&& found_end == token_end(s, t, f.at as int)
            &&& expected@.to_set() == f.expected
        },
        ParseError::InvalidToken { .. } => false,
    }
}

/// `r` reports text at offset `o` of `s` that starts no token, where `ex`
/// would have been accepted.
pub open spec fn invalid_at<T>(r: Result<T, ParseError>, s: Seq<u8>, o: int, ex: Set<Expected>) -> bool {
    r matches Err(ParseError::InvalidToken { at, expected }) && locates(at, s, o)
        && expected@.to_set() == ex
}

/// The failures of a rule that yielded `p` on the tokens `t`, with the end of
/// the input expected after what it matched.
pub open spec fn final_fail(t: Seq<Token>, p: Parsed) -> Fail {
    match p.0 {
        Some((_, j)) => merge(p.1, fail_at(j, Expected::End)),
        None => p.1,
    }
}

/// The failures of a program on the tokens `t`, with the end of the input
/// expected after its declarations.
pub open spec fn program_fail(t: Seq<Token>) -> Fail {
    let d = declarations(t, 0);
    merge(d.2, fail_at(d.1, Expected::End))
}

/// What a parse of `s` returns when lexing fails at `o`, where `f` is how the
/// rule fares on the tokens `p` before that point: the rule's failure if it
/// lies before the last of those tokens is passed, else the bad text, with
/// what the rule expected in its place.
pub open spec fn lex_failed<T>(r: Result<T, ParseError>, s: Seq<u8>, o: int, p: Seq<Token>, f: Fail) -> bool {
    if f.at < p.len() {
        r matches Err(e) && reports(e, s, p, f)
    } else {
        invalid_at(r, s, o, if f.at == p.len() { f.expected } else { Set::empty() })
    }
}

/// What a single-rule entry point returns on source `s`, where `rule` is what
/// the rule yields at token index 0 of a token sequence.
pub open spec fn outcome(
    r: Result<Node, ParseError>,
    s: Seq<u8>,
    rule: spec_fn(Seq<Token>) -> Parsed,
) -> bool {
    match lex(s) {
        Err(o) => {
            let p = lex_prefix(s, 0);
            lex_failed(r, s, o, p, final_fail(p, rule(p)))
        },
        Ok(t) => match whole(t, rule(t)) {
            Ok(x) => r matches Ok(n) && n@ == x && well_formed(n@) && on_token_bounds(x, t)
                && tokens_cover(s, t),
            Err(f) => r matches Err(e) && reports(e, s, t, f),
        },
    }
}

/// Before, between and after the trees `xs` the source holds only whitespace
/// and comments.
pub open spec fn only_trivia_around(s: Seq<u8>, xs: Seq<Tree>) -> bool {
    &&& xs.len() == 0 ==> skip_trivia(s, 0) == Ok::<int, int>(s.len() as int)
    &&& xs.len() > 0 ==> skip_trivia(s, 0) == Ok::<int, int>(xs[0].start) && skip_trivia(
        s,
        xs.last().end,
    ) == Ok::<int, int>(s.len() as int)
    &&& forall|k: int|
        0 <= k < xs.len() - 1 ==> skip_trivia(s, #[trigger] xs[k].end) == Ok::<int, int>(
            xs[k + 1].start,
        )
}

/// What `parse_carbon` returns on source `s`: the declarations of the
/// program, or the error that stops it.
pub open spec fn program_outcome(r: Result<Vec<Node>, ParseError>, s: Seq<u8>) -> bool {
    &&& match lex(s) {
        Err(o) => {
            let p = lex_prefix(s, 0);
            lex_failed(r, s, o, p, program_fail(p))
        },
        Ok(t) => match program(t) {
            Ok(xs) => r matches Ok(v) && trees(v@) == xs && tokens_cover(s, t) && forall|k: int|
                0 <= k < xs.len() ==> on_token_bounds(#[trigger] xs[k], t),
            Err(f) => r matches Err(e) && reports(e, s, t, f),
        },
    }
    &&& r matches Ok(v) ==> forall|k: int| 0 <= k < v@.len() ==> well_formed(#[trigger] v@[k]@)
    &&& r matches Ok(v) ==> only_trivia_around(s, trees(v@))
}

/// `outcome` for an entry point that returns its one tree in a vector.
pub open spec fn single_outcome(
    r: Result<Vec<Node>, ParseError>,
    s: Seq<u8>,
    rule: spec_fn(Seq<Token>) -> Parsed,
) -> bool {
    match lex(s) {
        Err(o) => {
            let p = lex_prefix(s, 0);
            lex_failed(r, s, o, p, final_fail(p, rule(p)))
        },
        Ok(t) => match whole(t, rule(t)) {
            Ok(x) => r matches Ok(v) && v@.len() == 1 && v@[0]@ == x && well_formed(x)
                && on_token_bounds(x, t) && tokens_cover(s, t),
            Err(f) => r matches Err(e) && reports(e, s, t, f),
        },
    }
}

/// The rules that can be matched against a whole source text.
pub open spec fn is_entry_rule(rule: Rule) -> bool {
    ||| rule == Rule::Program
    ||| rule == Rule::FunctionDecl
    ||| rule == Rule::VarDecl
    ||| rule == Rule::Expression
    ||| rule == Rule::TypeName
}

/// The parser of the language, for one rule at a time.
pub struct CarbonParser;

impl CarbonParser {
    /// Matches `rule` against the whole of `input`: for `Program` the
    /// declarations, for the other rules their one tree.
    pub fn parse(rule: Rule, input: &str) -> (r: Result<Vec<Node>, ParseError>)
        requires
            is_entry_rule(rule),
            input.spec_bytes().len() < usize::MAX,
        ensures
            rule == Rule::Program ==> program_outcome(r, input.spec_bytes()),
            rule == Rule::FunctionDecl ==> single_outcome(
                r,
                input.spec_bytes(),
                |t: Seq<Token>| function_decl(t, 0),
            ),
            rule == Rule::VarDecl ==> single_outcome(
                r,
                input.spec_bytes(),
                |t: Seq<Token>| var_decl(t, 0),
            ),
            rule == Rule::Expression ==> single_outcome(
                r,
                input.spec_bytes(),
                |t: Seq<Token>| expression(t, 0),
            ),
            rule == Rule::TypeName ==> single_outcome(
                r,
                input.spec_bytes(),
                |t: Seq<Token>| type_ref(t, 0),
            ),
    {
        let single = match rule {
            Rule::Program => {
                return parse_carbon(input);
            },
            Rule::FunctionDecl => parse_function_decl(input),
            Rule::VarDecl => parse_var_decl(input),
            Rule::Expression => parse_expression(input),
            _ => parse_type_name(input),
        };
        match single {
            Ok(n) => {
                let mut v = Vec::new();
                v.push(n);
                Ok(v)
            },
            Err(e) => Err(e),
        }
    }
}

/// The position of byte offset `off`.
fn locate(s: &[u8], off: usize) -> (p: Position)
    requires
        off <= s@.len() < usize::MAX,
    ensures
        locates(p, s@, off as int),
{
    let mut line: usize = 1;
    let mut column: usize = 1;
    let mut k: usize = 0;
    while k < off
        invariant
            k <= off <= s@.len() < usize::MAX,
            line == line_of(s@, k as int),
            column == column_of(s@, k as int),
            1 <= line <= k + 1,
            1 <= column <= k + 1,
        decreases off - k,
    {
        if s[k] == 10 {
            line = line + 1;
            column = 1;
        } else if !(128 <= s[k] && s[k] < 192) {
            column = column + 1;
        }
        k = k + 1;
    }
    Position { offset: off, line, column }
}

/// The error for the failure `fail` met on the tokens `t` of `s`.
fn syntax_error(s: &[u8], t: &Vec<Token>, fail: Failure) -> (e: ParseError)
    requires
        tokens_ordered(t@, s@.len() as int),
        s@.len() < usize::MAX,
    ensures
        reports(e, s@, t@, fail@),
{
    let (off, end) = if fail.at < t.len() {
        (t[fail.at].start, t[fail.at].end)
    } else {
        (s.len(), s.len())
    };
    ParseError::SyntaxError { at: locate(s, off), found_end: end, expected: fail.expected }
}

/// The error for text at offset `o` that starts no token, after `n` tokens on
/// which the rule met the failures `fail`.
fn invalid_token(s: &[u8], o: usize, n: usize, fail: Failure) -> (e: ParseError)
    requires
        o < s@.len() < usize::MAX,
    ensures
        invalid_at(
            Err::<(), ParseError>(e),
            s@,
            o as int,
            if fail@.at == n { fail@.expected } else { Set::empty() },
        ),
{
    let expected = if fail.at == n {
        fail.expected
    } else {
        let v: Vec<Expected> = Vec::new();
        assert(v@.to_set() =~= Set::<Expected>::empty());
        v
    };
    ParseError::InvalidToken { at: locate(s, o), expected }
}

/// Ends a single-rule parse on the tokens `t` of `s`, which stop early at
/// offset `bad` when lexing failed there: the tree if the rule matched every
/// token, else the furthest failure (an unmatched rest counts as a failure to
/// find the end), unless lexing failed and the rule got past its last token.
fn conclude(
    s: &[u8],
    t: &Vec<Token>,
    bad: Option<usize>,
    r: Option<(Node, usize)>,
    fail: Failure,
    Ghost(p): Ghost<Parsed>,
    Ghost(f0): Ghost<Fail>,
) -> (res: Result<Node, ParseError>)
    requires
        tokens_ordered(t@, s@.len() as int),
        s@.len() < usize::MAX,
        bad matches Some(o) ==> o < s@.len(),
        parser::yields(t@, 0, r, p, f0, fail@),
        f0 == grammar::no_fail(),
    ensures
        match bad {
            None => match whole(t@, p) {
                Ok(x) => res matches Ok(n) && n@ == x && well_formed(n@) && on_token_bounds(x, t@),
                Err(f) => res matches Err(e) && reports(e, s@, t@, f),
            },
            Some(o) => lex_failed(res, s@, o as int, t@, final_fail(t@, p)),
        },
{
    let mut fail = fail;
    if let Some((n, j)) = r {
        if j == t.len() {
            if let None = bad {
                return Ok(n);
            }
        }
        fail.note(j, Expected::End);
    }
    if let Some(o) = bad {
        if fail.at >= t.len() {
            return Err(invalid_token(s, o, t.len(), fail));
        }
    }
    Err(syntax_error(s, t, fail))
}

/// The tokens of `input`, or the position where it holds text that starts no
/// token.
pub fn tokenize(input: &str) -> (r: Result<Vec<Token>, Position>)
    requires
        input.spec_bytes().len() < usize::MAX,
    ensures
        match lex(input.spec_bytes()) {
            Ok(t) => r matches Ok(v) && v@ == t,
            Err(o) => r matches Err(p) && locates(p, input.spec_bytes(), o),
        },
        r matches Ok(v) ==> tokens_ordered(v@, input.spec_bytes().len() as int) && tokens_cover(
            input.spec_bytes(),
            v@,
        ),
{
    let b = input.as_bytes();
    match lex_bytes(b) {
        Ok(t) => Ok(t),
        Err((_, o)) => Err(locate(b, o)),
    }
}

/// Parses a whole program: the function and variable declarations it holds,
/// in source order.
pub fn parse_carbon(input: &str) -> (r: Result<Vec<Node>, ParseError>)
    requires
        input.spec_bytes().len() < usize::MAX,
    ensures
        program_outcome(r, input.spec_bytes()),
{
    let b = input.as_bytes();
    let (t, bad) = match lex_bytes(b) {
        Ok(t) => (t, None),
        Err((t, o)) => (t, Some(o)),
    };
    let mut fail = Failure::new();
    let (decls, k) = match_declarations(&t, 0, &mut fail);
    proof {
        assert(fail@ == grammar::declarations(t@, 0).2);
        assert forall|m: int| 0 <= m < decls@.len() implies well_formed(#[trigger] decls@[m]@) by {
            assert(trees(decls@)[m] == decls@[m]@);
        }
    }
    if k == t.len() {
        proof {
            if bad is None {
                let xs = trees(decls@);
                let s = b@;
                assert(gap_start(t@, 0) == 0);
                assert(gap_start(t@, t@.len() as int) == if t@.len() == 0 { 0 } else { t@.last().end as int });
                assert forall|q: int| 0 <= q < xs.len() - 1 implies skip_trivia(s, #[trigger] xs[q].end)
                    == Ok::<int, int>(xs[q + 1].start) by {
                    let m = choose|m: int| 0 < m < k && #[trigger] xs[q].end == t@[m - 1].end && xs[q + 1].start == t@[m].start;
                    assert(gap_start(t@, m) == t@[m - 1].end);
                    assert(skip_trivia(s, gap_start(t@, m)) == Ok::<int, int>(t@[m].start as int));
                }
            }
        }
        if let None = bad {
            return Ok(decls);
        }
    }
    fail.note(k, Expected::End);
    if let Some(o) = bad {
        if fail.at >= t.len() {
            return Err(invalid_token(b, o, t.len(), fail));
        }
    }
    Err(syntax_error(b, &t, fail))
}

/// Parses one function declaration: `fn name(params) -> type { statements }`.
pub fn parse_function_decl(input: &str) -> (r: Result<Node, ParseError>)
    requires
        input.spec_bytes().len() < usize::MAX,
    ensures
        outcome(r, input.spec_bytes(), |t: Seq<Token>| function_decl(t, 0)),
{
    let b = input.as_bytes();
    let (t, bad) = match lex_bytes(b) {
        Ok(t) => (t, None),
        Err((t, o)) => (t, Some(o)),
    };
    let mut fail = Failure::new();
    let r = match_function_decl(&t, 0, &mut fail);
    conclude(b, &t, bad, r, fail, Ghost(function_decl(t@, 0)), Ghost(grammar::no_fail()))
}

/// Parses one variable declaration: `var name: type = expression;`, the
/// initializer being optional.
pub fn parse_var_decl(input: &str) -> (r: Result<Node, ParseError>)
    requires
        input.spec_bytes().len() < usize::MAX,
    ensures
        outcome(r, input.spec_bytes(), |t: Seq<Token>| var_decl(t, 0)),
{
    let b = input.as_bytes();
    let (t, bad) = match lex_bytes(b) {
        Ok(t) => (t, None),
        Err((t, o)) => (t, Some(o)),
    };
    let mut fail = Failure::new();
    let r = match_var_decl(&t, 0, &mut fail);
    conclude(b, &t, bad, r, fail, Ghost(var_decl(t@, 0)), Ghost(grammar::no_fail()))
}

/// Parses one expression.
pub fn parse_expression(input: &str) -> (r: Result<Node, ParseError>)
    requires
        input.spec_bytes().len() < usize::MAX,
    ensures
        outcome(r, input.spec_bytes(), |t: Seq<Token>| expression(t, 0)),
{
    let b = input.as_bytes();
    let (t, bad) = match lex_bytes(b) {
        Ok(t) => (t, None),
        Err((t, o)) => (t, Some(o)),
    };
    let mut fail = Failure::new();
    let r = match_expression(&t, 0, &mut fail);
    conclude(b, &t, bad, r, fail, Ghost(expression(t@, 0)), Ghost(grammar::no_fail()))
}

/// Parses one type name: a primitive type or any other identifier.
pub fn parse_type_name(input: &str) -> (r: Result<Node, ParseError>)
    requires
        input.spec_bytes().len() < usize::MAX,
    ensures
        outcome(r, input.spec_bytes(), |t: Seq<Token>| type_ref(t, 0)),
{
    let b = input.as_bytes();
    let (t, bad) = match lex_bytes(b) {
        Ok(t) => (t, None),
        Err((t, o)) => (t, Some(o)),
    };
    let mut fail = Failure::new();
    let r = match_type_ref(&t, 0, &mut fail);
    conclude(b, &t, bad, r, fail, Ghost(type_ref(t@, 0)), Ghost(grammar::no_fail()))
}

} // verus!
