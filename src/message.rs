//! Human-readable rendering of parse errors.
use vstd::prelude::*;
use vstd::string::{StringExecFns, StringSliceAdditionalSpecFns};
use vstd::utf8::{encode_utf8, is_char_boundary};
use crate::grammar::{Expected, Rule};
use crate::lexer::TokenKind;
use crate::ParseError;

verus! {

/// How a token kind is named in messages.
pub open spec fn token_name(k: TokenKind) -> Seq<char> {
    match k {
        TokenKind::Ident => "identifier"@,
        TokenKind::Primitive => "primitive type"@,
        TokenKind::Integer => "integer"@,
        TokenKind::Float => "float"@,
        TokenKind::Str => "string"@,
        TokenKind::True => "`true`"@,
        TokenKind::False => "`false`"@,
        TokenKind::Fn => "`fn`"@,
        TokenKind::Var => "`var`"@,
        TokenKind::Return => "`return`"@,
        TokenKind::LParen => "`(`"@,
        TokenKind::RParen => "`)`"@,
        TokenKind::LBrace => "`{`"@,
        TokenKind::RBrace => "`}`"@,
        TokenKind::Colon => "`:`"@,
        TokenKind::Semi => "`;`"@,
        TokenKind::Comma => "`,`"@,
        TokenKind::Arrow => "`->`"@,
        TokenKind::Assign => "`=`"@,
        TokenKind::OrOr => "`||`"@,
        TokenKind::AndAnd => "`&&`"@,
        TokenKind::EqEq => "`==`"@,
        TokenKind::NotEq => "`!=`"@,
        TokenKind::Lt => "`<`"@,
        TokenKind::Gt => "`>`"@,
        TokenKind::Le => "`<=`"@,
        TokenKind::Ge => "`>=`"@,
        TokenKind::Plus => "`+`"@,
        TokenKind::Minus => "`-`"@,
        TokenKind::Star => "`*`"@,
        TokenKind::Slash => "`/`"@,
        TokenKind::Percent => "`%`"@,
        TokenKind::Bang => "`!`"@,
    }
}

/// How a rule is named in messages.
pub open spec fn rule_name(r: Rule) -> Seq<char> {
    match r {
        Rule::Program => "program"@,
        Rule::FunctionDecl => "function declaration"@,
        Rule::Param => "parameter"@,
        Rule::Block => "block"@,
        Rule::VarDecl => "variable declaration"@,
        Rule::ReturnStmt => "return statement"@,
        Rule::ExprStmt => "expression statement"@,
        Rule::TypeName => "type name"@,
        Rule::Expression => "expression"@,
        Rule::LogicalOr => "`||` expression"@,
        Rule::LogicalAnd => "`&&` expression"@,
        Rule::Equality => "equality"@,
        Rule::Comparison => "comparison"@,
        Rule::Additive => "sum"@,
        Rule::Multiplicative => "product"@,
        Rule::Unary => "unary expression"@,
        Rule::FunctionCall => "function call"@,
        Rule::Identifier => "identifier"@,
        Rule::Integer => "integer"@,
        Rule::Float => "float"@,
        Rule::Boolean => "boolean"@,
        Rule::StringLit => "string"@,
        Rule::Literal => "literal"@,
        Rule::OrOp => "`||`"@,
        Rule::AndOp => "`&&`"@,
        Rule::EqualityOp => "`==` or `!=`"@,
        Rule::ComparisonOp => "comparison operator"@,
        Rule::AdditiveOp => "`+` or `-`"@,
        Rule::MultiplicativeOp => "`*`, `/` or `%`"@,
        Rule::UnaryOp => "`-` or `!`"@,
    }
}

/// How an expectation is named in messages.
pub open spec fn expected_name(e: Expected) -> Seq<char> {
    match e {
        Expected::Token(k) => token_name(k),
        Expected::Rule(r) => rule_name(r),
        Expected::End => "end of input"@,
    }
}

/// The names of `es`, separated by commas.
pub open spec fn expected_list(es: Seq<Expected>) -> Seq<char>
    decreases es.len(),
{
    if es.len() == 0 {
        Seq::empty()
    } else if es.len() == 1 {
        expected_name(es[0])
    } else {
        expected_list(es.drop_last()) + ", "@ + expected_name(es.last())
    }
}

/// The decimal digit `d`.
pub open spec fn digit(d: nat) -> char {
    if d == 0 {
        '0'
    } else if d == 1 {
        '1'
    } else if d == 2 {
        '2'
    } else if d == 3 {
        '3'
    } else if d == 4 {
        '4'
    } else if d == 5 {
        '5'
    } else if d == 6 {
        '6'
    } else if d == 7 {
        '7'
    } else if d == 8 {
        '8'
    } else {
        '9'
    }
}

/// `n` in decimal.
pub open spec fn decimal(n: nat) -> Seq<char>
    decreases n,
{
    if n < 10 {
        seq![digit(n)]
    } else {
        decimal(n / 10).push(digit(n % 10))
    }
}

/// The offset of the first line feed at or after `i`, or the end of `s`.
pub open spec fn line_end(s: Seq<u8>, i: int) -> int
    decreases s.len() - i,
{
    if i < 0 || i >= s.len() || s[i] == 10 {
        i
    } else {
        line_end(s, i + 1)
    }
}

/// The text of a message about `e` up to the quoted excerpt.
pub open spec fn heading(e: ParseError) -> Seq<char> {
    match e {
        ParseError::InvalidToken { at, expected } => "line "@ + decimal(at.line as nat)
            + ", column "@ + decimal(at.column as nat) + ": expected "@ + expected_list(expected@)
            + ", found invalid token `"@,
        ParseError::SyntaxError { at, expected, .. } => "line "@ + decimal(at.line as nat)
            + ", column "@ + decimal(at.column as nat) + ": expected "@ + expected_list(expected@)
            + ", found `"@,
    }
}

/// The byte range of the source that a message about `e` quotes: the token
/// found, or for a text that starts no token, the rest of its line.
pub open spec fn excerpt_range(e: ParseError, s: Seq<u8>) -> (int, int) {
    match e {
        ParseError::InvalidToken { at, .. } => (at.offset as int, line_end(s, at.offset as int)),
        ParseError::SyntaxError { at, found_end, .. } => (at.offset as int, found_end as int),
    }
}

/// `a .. b` is a range of whole characters of `s`.
pub open spec fn whole_chars(s: Seq<u8>, a: int, b: int) -> bool {
    0 <= a <= b <= s.len() && is_char_boundary(s, a) && is_char_boundary(s, b)
}

/// Relies on `String::push`: appends one character.
#[verifier::external_body]
fn push_char(s: &mut String, c: char)
    ensures
        final(s)@ == old(s)@.push(c),
{
    s.push(c)
}

/// Relies on `str::get` with a byte range: the text between two offsets,
/// `None` unless both are inside `s`, in order, and on character boundaries.
#[verifier::external_body]
fn text_between(s: &str, a: usize, b: usize) -> (r: Option<&str>)
    ensures
        r is Some <==> whole_chars(s.spec_bytes(), a as int, b as int),
        r matches Some(x) ==> x.spec_bytes() == s.spec_bytes().subrange(a as int, b as int),
{
    s.get(a..b)
}

fn token_text(k: TokenKind) -> (r: &'static str)
    ensures
        r@ == token_name(k),
{
    match k {
        TokenKind::Ident => "identifier",
        TokenKind::Primitive => "primitive type",
        TokenKind::Integer => "integer",
        TokenKind::Float => "float",
        TokenKind::Str => "string",
        TokenKind::True => "`true`",
        TokenKind::False => "`false`",
        TokenKind::Fn => "`fn`",
        TokenKind::Var => "`var`",
        TokenKind::Return => "`return`",
        TokenKind::LParen => "`(`",
        TokenKind::RParen => "`)`",
        TokenKind::LBrace => "`{`",
        TokenKind::RBrace => "`}`",
        TokenKind::Colon => "`:`",
        TokenKind::Semi => "`;`",
        TokenKind::Comma => "`,`",
        TokenKind::Arrow => "`->`",
        TokenKind::Assign => "`=`",
        TokenKind::OrOr => "`||`",
        TokenKind::AndAnd => "`&&`",
        TokenKind::EqEq => "`==`",
        TokenKind::NotEq => "`!=`",
        TokenKind::Lt => "`<`",
        TokenKind::Gt => "`>`",
        TokenKind::Le => "`<=`",
        TokenKind::Ge => "`>=`",
        TokenKind::Plus => "`+`",
        TokenKind::Minus => "`-`",
        TokenKind::Star => "`*`",
        TokenKind::Slash => "`/`",
        TokenKind::Percent => "`%`",
        TokenKind::Bang => "`!`",
    }
}

fn rule_text(k: Rule) -> (r: &'static str)
    ensures
        r@ == rule_name(k),
{
    match k {
        Rule::Program => "program",
        Rule::FunctionDecl => "function declaration",
        Rule::Param => "parameter",
        Rule::Block => "block",
        Rule::VarDecl => "variable declaration",
        Rule::ReturnStmt => "return statement",
        Rule::ExprStmt => "expression statement",
        Rule::TypeName => "type name",
        Rule::Expression => "expression",
        Rule::LogicalOr => "`||` expression",
        Rule::LogicalAnd => "`&&` expression",
        Rule::Equality => "equality",
        Rule::Comparison => "comparison",
        Rule::Additive => "sum",
        Rule::Multiplicative => "product",
        Rule::Unary => "unary expression",
        Rule::FunctionCall => "function call",
        Rule::Identifier => "identifier",
        Rule::Integer => "integer",
        Rule::Float => "float",
        Rule::Boolean => "boolean",
        Rule::StringLit => "string",
        Rule::Literal => "literal",
        Rule::OrOp => "`||`",
        Rule::AndOp => "`&&`",
        Rule::EqualityOp => "`==` or `!=`",
        Rule::ComparisonOp => "comparison operator",
        Rule::AdditiveOp => "`+` or `-`",
        Rule::MultiplicativeOp => "`*`, `/` or `%`",
        Rule::UnaryOp => "`-` or `!`",
    }
}

fn expected_text(e: Expected) -> (r: &'static str)
    ensures
        r@ == expected_name(e),
{
    match e {
        Expected::Token(k) => token_text(k),
        Expected::Rule(r) => rule_text(r),
        Expected::End => "end of input",
    }
}

fn digit_char(d: usize) -> (c: char)
    requires
        d < 10,
    ensures
        c == digit(d as nat),
{
    if d == 0 {
        '0'
    } else if d == 1 {
        '1'
    } else if d == 2 {
        '2'
    } else if d == 3 {
        '3'
    } else if d == 4 {
        '4'
    } else if d == 5 {
        '5'
    } else if d == 6 {
        '6'
    } else if d == 7 {
        '7'
    } else if d == 8 {
        '8'
    } else {
        '9'
    }
}

fn push_decimal(s: &mut String, n: usize)
    ensures
        final(s)@ == old(s)@ + decimal(n as nat),
    decreases n,
{
    if n >= 10 {
        push_decimal(s, n / 10);
    }
    push_char(s, digit_char(n % 10));
    assert(s@ =~= old(s)@ + decimal(n as nat));
}

fn push_expected(s: &mut String, es: &Vec<Expected>)
    ensures
        final(s)@ == old(s)@ + expected_list(es@),
{
    let mut k: usize = 0;
    while k < es.len()
        invariant
            k <= es@.len(),
            s@ == old(s)@ + expected_list(es@.subrange(0, k as int)),
        decreases es@.len() - k,
    {
        if k > 0 {
            s.append(", ");
        }
        s.append(expected_text(es[k]));
        proof {
            let p = es@.subrange(0, k + 1);
            assert(p.drop_last() =~= es@.subrange(0, k as int));
            assert(p.last() == es@[k as int]);
            if k == 0 {
                assert(p.len() == 1);
            }
            assert(s@ =~= old(s)@ + expected_list(p));
        }
        k = k + 1;
    }
    assert(es@.subrange(0, es@.len() as int) =~= es@);
}

fn line_end_at(s: &[u8], i: usize) -> (e: usize)
    requires
        i <= s@.len(),
    ensures
        e as int == line_end(s@, i as int),
{
    let mut k = i;
    while k < s.len() && s[k] != 10
        invariant
            i <= k <= s@.len(),
            line_end(s@, i as int) == line_end(s@, k as int),
        decreases s@.len() - k,
    {
        k = k + 1;
    }
    k
}

impl ParseError {
    /// The message for this error on the source `input`: line, column, what
    /// was expected, and the offending text in backquotes (left empty when its
    /// range does not fall on whole characters of `input`).
    pub fn message(&self, input: &str) -> (r: String)
        ensures
            ({
                let h = heading(*self);
                let (a, b) = excerpt_range(*self, input.spec_bytes());
                let quoted = r@.subrange(h.len() as int, r@.len() - 1);
                &&& r@.len() == h.len() + quoted.len() + 1
                &&& r@.subrange(0, h.len() as int) == h
                &&& r@.last() == '`'
                &&& if whole_chars(input.spec_bytes(), a, b) {
                    encode_utf8(quoted) == input.spec_bytes().subrange(a, b)
                } else {
                    quoted.len() == 0
                }
            }),
    {
        let mut s = String::new();
        let (offset, end) = match self {
            ParseError::InvalidToken { at, expected } => {
                s.append("line ");
                push_decimal(&mut s, at.line);
                s.append(", column ");
                push_decimal(&mut s, at.column);
                s.append(": expected ");
                push_expected(&mut s, expected);
                s.append(", found invalid token `");
                let b = input.as_bytes();
                if at.offset <= b.len() {
                    (at.offset, line_end_at(b, at.offset))
                } else {
                    (at.offset, at.offset)
                }
            },
            ParseError::SyntaxError { at, found_end, expected } => {
                s.append("line ");
                push_decimal(&mut s, at.line);
                s.append(", column ");
                push_decimal(&mut s, at.column);
                s.append(": expected ");
                push_expected(&mut s, expected);
                s.append(", found `");
                (at.offset, *found_end)
            },
        };
        let ghost h = s@;
        proof {
            assert(h =~= heading(*self));
        }
        let ghost range = excerpt_range(*self, input.spec_bytes());
        assert(range == (offset as int, end as int));
        let ghost quoted: Seq<char> = Seq::empty();
        match text_between(input, offset, end) {
            Some(x) => {
                s.append(x);
                proof {
                    quoted = x@;
                    assert(x.spec_bytes() == encode_utf8(x@));
                }
            },
            None => {},
        }
        assert(s@ == h + quoted);
        push_char(&mut s, '`');
        proof {
            assert(s@.subrange(0, h.len() as int) =~= h);
            assert(s@.subrange(h.len() as int, s@.len() - 1) =~= quoted);
        }
        s
    }
}

} // verus!
