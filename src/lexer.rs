//! The lexical layer: splits source bytes into tokens and skips the
//! whitespace and comments between them.
use vstd::prelude::*;

verus! {

/// The kinds of token of the language.
#[derive(Clone, Copy, Debug, PartialEq, Eq, Structural)]
pub enum TokenKind {
    Ident,
    /// One of the primitive type names `i32`, `i64`, `f32`, `f64`, `bool`,
    /// `String`; an identifier too, wherever one may stand.
    Primitive,
    Integer,
    Float,
    Str,
    True,
    False,
    Fn,
    Var,
    Return,
    LParen,
    RParen,
    LBrace,
    RBrace,
    Colon,
    Semi,
    Comma,
    Arrow,
    Assign,
    OrOr,
    AndAnd,
    EqEq,
    NotEq,
    Lt,
    Gt,
    Le,
    Ge,
    Plus,
    Minus,
    Star,
    Slash,
    Percent,
    Bang,
}

/// A token: its kind and the byte span `[start, end)` it occupies in the source.
#[derive(Clone, Copy, Debug, PartialEq, Eq, Structural)]
pub struct Token {
    pub kind: TokenKind,
    pub start: usize,
    pub end: usize,
}

pub open spec fn is_space(b: u8) -> bool {
    b == 32 || b == 9 || b == 10 || b == 13
}

pub open spec fn is_digit(b: u8) -> bool {
    48 <= b <= 57
}

pub open spec fn is_ident_start(b: u8) -> bool {
    (65 <= b <= 90) || (97 <= b <= 122) || b == 95
}

pub open spec fn is_ident_char(b: u8) -> bool {
    is_ident_start(b) || is_digit(b)
}

/// Skips whitespace and comments from `i`: `Ok` holds the offset of the next
/// byte that is neither, `Err` the offset of a block comment that is never closed.
pub open spec fn skip_trivia(s: Seq<u8>, i: int) -> Result<int, int>
    decreases s.len() - i, 0int,
{
    if i < 0 || i >= s.len() {
        Ok(i)
    } else if is_space(s[i]) {
        skip_trivia(s, i + 1)
    } else if i + 1 < s.len() && s[i] == 47 && s[i + 1] == 47 {
        skip_line_comment(s, i + 2)
    } else if i + 1 < s.len() && s[i] == 47 && s[i + 1] == 42 {
        skip_block_comment(s, i, i + 2)
    } else {
        Ok(i)
    }
}

/// Inside a `//` comment at `i`: it ends at the next line feed.
pub open spec fn skip_line_comment(s: Seq<u8>, i: int) -> Result<int, int>
    decreases s.len() - i, 1int,
{
    if i < 0 || i >= s.len() {
        Ok(i)
    } else if s[i] == 10 {
        skip_trivia(s, i + 1)
    } else {
        skip_line_comment(s, i + 1)
    }
}

/// Inside a block comment opened at `open`, at `i`: it ends after the next `*/`.
pub open spec fn skip_block_comment(s: Seq<u8>, open: int, i: int) -> Result<int, int>
    decreases s.len() - i, 1int,
{
    if i < 0 || i + 1 >= s.len() {
        Err(open)
    } else if s[i] == 42 && s[i + 1] == 47 {
        skip_trivia(s, i + 2)
    } else {
        skip_block_comment(s, open, i + 1)
    }
}

/// The end of the run of identifier characters that starts at `i`.
pub open spec fn ident_end(s: Seq<u8>, i: int) -> int
    decreases s.len() - i,
{
    if 0 <= i < s.len() && is_ident_char(s[i]) {
        ident_end(s, i + 1)
    } else {
        i
    }
}

/// The end of the run of decimal digits that starts at `i`.
pub open spec fn digits_end(s: Seq<u8>, i: int) -> int
    decreases s.len() - i,
{
    if 0 <= i < s.len() && is_digit(s[i]) {
        digits_end(s, i + 1)
    } else {
        i
    }
}

/// The offset of the first unescaped double quote at or after `i`, if there
/// is one; a backslash escapes the byte after it.
pub open spec fn quote_at_or_after(s: Seq<u8>, i: int) -> Option<int>
    decreases s.len() - i,
{
    if i < 0 || i >= s.len() {
        None
    } else if s[i] == 92 {
        if i + 1 >= s.len() {
            None
        } else {
            quote_at_or_after(s, i + 2)
        }
    } else if s[i] == 34 {
        Some(i)
    } else {
        quote_at_or_after(s, i + 1)
    }
}

/// The kind of a word made of identifier characters: a keyword or an identifier.
#[verifier::opaque]
pub open spec fn word_kind(w: Seq<u8>) -> TokenKind {
    if w == seq![102u8, 110u8] {
        TokenKind::Fn
    } else if w == seq![118u8, 97u8, 114u8] {
        TokenKind::Var
    } else if w == seq![114u8, 101u8, 116u8, 117u8, 114u8, 110u8] {
        TokenKind::Return
    } else if w == seq![116u8, 114u8, 117u8, 101u8] {
        TokenKind::True
    } else if w == seq![102u8, 97u8, 108u8, 115u8, 101u8] {
        TokenKind::False
    } else if is_primitive_word(w) {
        TokenKind::Primitive
    } else {
        TokenKind::Ident
    }
}

/// `i32`, `i64`, `f32`, `f64`, `bool` or `String`.
pub open spec fn is_primitive_word(w: Seq<u8>) -> bool {
    ||| w == seq![105u8, 51u8, 50u8]
    ||| w == seq![105u8, 54u8, 52u8]
    ||| w == seq![102u8, 51u8, 50u8]
    ||| w == seq![102u8, 54u8, 52u8]
    ||| w == seq![98u8, 111u8, 111u8, 108u8]
    ||| w == seq![83u8, 116u8, 114u8, 105u8, 110u8, 103u8]
}

/// The operator or punctuation token of two bytes `a b`, if any.
pub open spec fn pair_kind(a: u8, b: u8) -> Option<TokenKind> {
    if a == 124 && b == 124 {
        Some(TokenKind::OrOr)
    } else if a == 38 && b == 38 {
        Some(TokenKind::AndAnd)
    } else if a == 61 && b == 61 {
        Some(TokenKind::EqEq)
    } else if a == 33 && b == 61 {
        Some(TokenKind::NotEq)
    } else if a == 60 && b == 61 {
        Some(TokenKind::Le)
    } else if a == 62 && b == 61 {
        Some(TokenKind::Ge)
    } else if a == 45 && b == 62 {
        Some(TokenKind::Arrow)
    } else {
        None
    }
}

/// The operator or punctuation token of the single byte `a`, if any.
pub open spec fn single_kind(a: u8) -> Option<TokenKind> {
    if a == 40 {
        Some(TokenKind::LParen)
    } else if a == 41 {
        Some(TokenKind::RParen)
    } else if a == 123 {
        Some(TokenKind::LBrace)
    } else if a == 125 {
        Some(TokenKind::RBrace)
    } else if a == 58 {
        Some(TokenKind::Colon)
    } else if a == 59 {
        Some(TokenKind::Semi)
    } else if a == 44 {
        Some(TokenKind::Comma)
    } else if a == 61 {
        Some(TokenKind::Assign)
    } else if a == 60 {
        Some(TokenKind::Lt)
    } else if a == 62 {
        Some(TokenKind::Gt)
    } else if a == 43 {
        Some(TokenKind::Plus)
    } else if a == 45 {
        Some(TokenKind::Minus)
    } else if a == 42 {
        Some(TokenKind::Star)
    } else if a == 47 {
        Some(TokenKind::Slash)
    } else if a == 37 {
        Some(TokenKind::Percent)
    } else if a == 33 {
        Some(TokenKind::Bang)
    } else {
        None
    }
}

/// The longest token that starts at `i`, as its kind and end offset.
pub open spec fn scan_token(s: Seq<u8>, i: int) -> Option<(TokenKind, int)> {
    if i < 0 || i >= s.len() {
        None
    } else if is_ident_start(s[i]) {
        let e = ident_end(s, i + 1);
        Some((word_kind(s.subrange(i, e)), e))
    } else if is_digit(s[i]) {
        let e = digits_end(s, i + 1);
        if e + 1 < s.len() && s[e] == 46 && is_digit(s[e + 1]) {
            Some((TokenKind::Float, digits_end(s, e + 2)))
        } else {
            Some((TokenKind::Integer, e))
        }
    } else if s[i] == 34 {
        match quote_at_or_after(s, i + 1) {
            Some(q) => Some((TokenKind::Str, q + 1)),
            None => None,
        }
    } else if i + 1 < s.len() && pair_kind(s[i], s[i + 1]) is Some {
        Some((pair_kind(s[i], s[i + 1]).unwrap(), i + 2))
    } else {
        match single_kind(s[i]) {
            Some(k) => Some((k, i + 1)),
            None => None,
        }
    }
}

/// The tokens of `s` from offset `i` on, or the offset where lexing fails:
/// a block comment that is never closed, or a byte that starts no token.
pub open spec fn lex_from(s: Seq<u8>, i: int) -> Result<Seq<Token>, int>
    decreases s.len() - i,
{
    match skip_trivia(s, i) {
        Err(o) => Err(o),
        Ok(k) => {
            if k < i || k >= s.len() {
                Ok(Seq::empty())
            } else {
                match scan_token(s, k) {
                    None => Err(k),
                    Some((kind, e)) => {
                        if k < e <= s.len() {
                            match lex_from(s, e) {
                                Ok(rest) => Ok(
                                    seq![Token { kind, start: k as usize, end: e as usize }] + rest,
                                ),
                                Err(o) => Err(o),
                            }
                        } else {
                            Err(k)
                        }
                    },
                }
            }
        },
    }
}

/// The tokens that `lex_from` finds from offset `i` before it fails, or all
/// of them when it does not.
pub open spec fn lex_prefix(s: Seq<u8>, i: int) -> Seq<Token>
    decreases s.len() - i,
{
    match skip_trivia(s, i) {
        Err(o) => Seq::empty(),
        Ok(k) => {
            if k < i || k >= s.len() {
                Seq::empty()
            } else {
                match scan_token(s, k) {
                    None => Seq::empty(),
                    Some((kind, e)) => {
                        if k < e <= s.len() {
                            seq![Token { kind, start: k as usize, end: e as usize }] + lex_prefix(s, e)
                        } else {
                            Seq::empty()
                        }
                    },
                }
            }
        },
    }
}

/// The tokens of the whole source, or the offset where lexing fails.
pub open spec fn lex(s: Seq<u8>) -> Result<Seq<Token>, int> {
    lex_from(s, 0)
}

/// Tokens lie inside a source of `len` bytes, each non-empty, in source order
/// and without overlap.
pub open spec fn tokens_ordered(t: Seq<Token>, len: int) -> bool {
    &&& tokens_sorted(t)
    &&& forall|a: int| #![trigger t[a]] 0 <= a < t.len() ==> t[a].end <= len
}

/// Each token is non-empty, and tokens come in source order without overlap.
pub open spec fn tokens_sorted(t: Seq<Token>) -> bool {
    &&& forall|a: int| #![trigger t[a]] 0 <= a < t.len() ==> t[a].start < t[a].end
    &&& forall|a: int, b: int| 0 <= a < b < t.len() ==> #[trigger] t[a].end <= #[trigger] t[b].start
}

/// Where the trivia before token `k` begins: the end of the token before it,
/// or the start of the source.
pub open spec fn gap_start(t: Seq<Token>, k: int) -> int {
    if k <= 0 {
        0
    } else {
        t[k - 1].end as int
    }
}

/// Between consecutive tokens, and before the first and after the last, the
/// source holds only whitespace and comments; each token is the longest one
/// that starts where it does.
pub open spec fn tokens_cover(s: Seq<u8>, t: Seq<Token>) -> bool {
    &&& forall|k: int|
        0 <= k < t.len() ==> skip_trivia(s, gap_start(t, k)) == Ok::<int, int>(#[trigger] t[k].start as int)
    &&& forall|k: int|
        0 <= k < t.len() ==> scan_token(s, t[k].start as int) == Some(
            (#[trigger] t[k].kind, t[k].end as int),
        )
    &&& skip_trivia(s, gap_start(t, t.len() as int)) == Ok::<int, int>(s.len() as int)
}

/// Offsets as integers.
pub open spec fn offset_result(r: Result<usize, usize>) -> Result<int, int> {
    match r {
        Ok(k) => Ok(k as int),
        Err(o) => Err(o as int),
    }
}

fn skip_trivia_at(b: &[u8], start: usize) -> (r: Result<usize, usize>)
    requires
        start <= b@.len(),
    ensures
        offset_result(r) == skip_trivia(b@, start as int),
        r matches Ok(k) ==> start <= k <= b@.len(),
        r matches Err(o) ==> start <= o < b@.len(),
{
    let mut i: usize = start;
    loop
        invariant
            start <= i <= b@.len(),
            skip_trivia(b@, start as int) == skip_trivia(b@, i as int),
        decreases b@.len() - i,
    {
        if i < b.len() && (b[i] == 32 || b[i] == 9 || b[i] == 10 || b[i] == 13) {
            i = i + 1;
        } else if b.len() - i >= 2 && b[i] == 47 && b[i + 1] == 47 {
            let mut k: usize = i + 2;
            loop
                invariant
                    i + 2 <= k <= b@.len(),
                    skip_trivia(b@, start as int) == skip_line_comment(b@, k as int),
                ensures
                    i + 2 <= k < b@.len(),
                    b@[k as int] == 10,
                    skip_trivia(b@, start as int) == skip_line_comment(b@, k as int),
                decreases b@.len() - k,
            {
                if k >= b.len() {
                    return Ok(k);
                }
                if b[k] == 10 {
                    break;
                }
                k = k + 1;
            }
            i = k + 1;
        } else if b.len() - i >= 2 && b[i] == 47 && b[i + 1] == 42 {
            let open = i;
            let mut k: usize = i + 2;
            loop
                invariant
                    start <= open,
                    open + 2 <= k <= b@.len(),
                    open + 1 < b@.len(),
                    skip_trivia(b@, start as int) == skip_block_comment(b@, open as int, k as int),
                ensures
                    open + 2 <= k,
                    k + 1 < b@.len(),
                    b@[k as int] == 42 && b@[k + 1] == 47,
                    skip_trivia(b@, start as int) == skip_block_comment(b@, open as int, k as int),
                decreases b@.len() - k,
            {
                if b.len() - k <= 1 {
                    return Err(open);
                }
                if b[k] == 42 && b[k + 1] == 47 {
                    break;
                }
                k = k + 1;
            }
            i = k + 2;
        } else {
            return Ok(i);
        }
    }
}

fn ident_end_at(b: &[u8], start: usize) -> (e: usize)
    requires
        start <= b@.len(),
    ensures
        e as int == ident_end(b@, start as int),
        start <= e <= b@.len(),
{
    let mut i: usize = start;
    while i < b.len() && (is_ident_start_byte(b[i]) || (48 <= b[i] && b[i] <= 57))
        invariant
            start <= i <= b@.len(),
            ident_end(b@, start as int) == ident_end(b@, i as int),
        decreases b@.len() - i,
    {
        i = i + 1;
    }
    i
}

fn digits_end_at(b: &[u8], start: usize) -> (e: usize)
    requires
        start <= b@.len(),
    ensures
        e as int == digits_end(b@, start as int),
        start <= e <= b@.len(),
{
    let mut i: usize = start;
    while i < b.len() && 48 <= b[i] && b[i] <= 57
        invariant
            start <= i <= b@.len(),
            digits_end(b@, start as int) == digits_end(b@, i as int),
        decreases b@.len() - i,
    {
        i = i + 1;
    }
    i
}

fn quote_from(b: &[u8], start: usize) -> (r: Option<usize>)
    requires
        start <= b@.len(),
    ensures
        match r {
            Some(q) => quote_at_or_after(b@, start as int) == Some(q as int) && start <= q < b@.len(),
            None => quote_at_or_after(b@, start as int) is None,
        },
{
    let mut i: usize = start;
    while i < b.len()
        invariant
            start <= i,
            quote_at_or_after(b@, start as int) == quote_at_or_after(b@, i as int),
        decreases b@.len() - i,
    {
        if b[i] == 92 {
            if b.len() - i < 2 {
                return None;
            }
            i = i + 2;
        } else if b[i] == 34 {
            return Some(i);
        } else {
            i = i + 1;
        }
    }
    None
}

fn is_ident_start_byte(c: u8) -> (r: bool)
    ensures
        r == is_ident_start(c),
{
    (65 <= c && c <= 90) || (97 <= c && c <= 122) || c == 95
}

/// Whether `b[i..e]` spells the word `w`.
fn spells(b: &[u8], i: usize, e: usize, w: &[u8]) -> (r: bool)
    requires
        i <= e <= b@.len(),
    ensures
        r == (b@.subrange(i as int, e as int) == w@),
{
    if e - i != w.len() {
        assert(b@.subrange(i as int, e as int).len() != w@.len());
        return false;
    }
    let mut k: usize = 0;
    while k < w.len()
        invariant
            e - i == w@.len(),
            i <= e <= b@.len(),
            0 <= k <= w@.len(),
            forall|m: int| 0 <= m < k ==> b@[i + m] == w@[m],
        decreases w@.len() - k,
    {
        if b[i + k] != w[k] {
            assert(b@.subrange(i as int, e as int)[k as int] != w@[k as int]);
            return false;
        }
        k = k + 1;
    }
    assert(b@.subrange(i as int, e as int) =~= w@);
    true
}

fn word_kind_at(b: &[u8], i: usize, e: usize) -> (k: TokenKind)
    requires
        i <= e <= b@.len(),
    ensures
        k == word_kind(b@.subrange(i as int, e as int)),
{
    proof {
        reveal(word_kind);
    }
    let fn_word: [u8; 2] = [102, 110];
    let var_word: [u8; 3] = [118, 97, 114];
    let return_word: [u8; 6] = [114, 101, 116, 117, 114, 110];
    let true_word: [u8; 4] = [116, 114, 117, 101];
    let false_word: [u8; 5] = [102, 97, 108, 115, 101];
    assert(fn_word@ == seq![102u8, 110u8]);
    assert(var_word@ == seq![118u8, 97u8, 114u8]);
    assert(return_word@ == seq![114u8, 101u8, 116u8, 117u8, 114u8, 110u8]);
    assert(true_word@ == seq![116u8, 114u8, 117u8, 101u8]);
    assert(false_word@ == seq![102u8, 97u8, 108u8, 115u8, 101u8]);
    let i32_word: [u8; 3] = [105, 51, 50];
    let i64_word: [u8; 3] = [105, 54, 52];
    let f32_word: [u8; 3] = [102, 51, 50];
    let f64_word: [u8; 3] = [102, 54, 52];
    let bool_word: [u8; 4] = [98, 111, 111, 108];
    let string_word: [u8; 6] = [83, 116, 114, 105, 110, 103];
    assert(i32_word@ == seq![105u8, 51u8, 50u8]);
    assert(i64_word@ == seq![105u8, 54u8, 52u8]);
    assert(f32_word@ == seq![102u8, 51u8, 50u8]);
    assert(f64_word@ == seq![102u8, 54u8, 52u8]);
    assert(bool_word@ == seq![98u8, 111u8, 111u8, 108u8]);
    assert(string_word@ == seq![83u8, 116u8, 114u8, 105u8, 110u8, 103u8]);
    if spells(b, i, e, &fn_word) {
        TokenKind::Fn
    } else if spells(b, i, e, &var_word) {
        TokenKind::Var
    } else if spells(b, i, e, &return_word) {
        TokenKind::Return
    } else if spells(b, i, e, &true_word) {
        TokenKind::True
    } else if spells(b, i, e, &false_word) {
        TokenKind::False
    } else if spells(b, i, e, &i32_word) || spells(b, i, e, &i64_word) || spells(b, i, e, &f32_word)
        || spells(b, i, e, &f64_word) || spells(b, i, e, &bool_word) || spells(b, i, e, &string_word) {
        TokenKind::Primitive
    } else {
        TokenKind::Ident
    }
}

fn pair_kind_of(a: u8, b: u8) -> (r: Option<TokenKind>)
    ensures
        r == pair_kind(a, b),
{
    if a == 124 && b == 124 {
        Some(TokenKind::OrOr)
    } else if a == 38 && b == 38 {
        Some(TokenKind::AndAnd)
    } else if a == 61 && b == 61 {
        Some(TokenKind::EqEq)
    } else if a == 33 && b == 61 {
        Some(TokenKind::NotEq)
    } else if a == 60 && b == 61 {
        Some(TokenKind::Le)
    } else if a == 62 && b == 61 {
        Some(TokenKind::Ge)
    } else if a == 45 && b == 62 {
        Some(TokenKind::Arrow)
    } else {
        None
    }
}

fn single_kind_of(a: u8) -> (r: Option<TokenKind>)
    ensures
        r == single_kind(a),
{
    if a == 40 {
        Some(TokenKind::LParen)
    } else if a == 41 {
        Some(TokenKind::RParen)
    } else if a == 123 {
        Some(TokenKind::LBrace)
    } else if a == 125 {
        Some(TokenKind::RBrace)
    } else if a == 58 {
        Some(TokenKind::Colon)
    } else if a == 59 {
        Some(TokenKind::Semi)
    } else if a == 44 {
        Some(TokenKind::Comma)
    } else if a == 61 {
        Some(TokenKind::Assign)
    } else if a == 60 {
        Some(TokenKind::Lt)
    } else if a == 62 {
        Some(TokenKind::Gt)
    } else if a == 43 {
        Some(TokenKind::Plus)
    } else if a == 45 {
        Some(TokenKind::Minus)
    } else if a == 42 {
        Some(TokenKind::Star)
    } else if a == 47 {
        Some(TokenKind::Slash)
    } else if a == 37 {
        Some(TokenKind::Percent)
    } else if a == 33 {
        Some(TokenKind::Bang)
    } else {
        None
    }
}

fn scan_token_at(b: &[u8], i: usize) -> (r: Option<(TokenKind, usize)>)
    requires
        i < b@.len(),
    ensures
        match r {
            Some((k, e)) => scan_token(b@, i as int) == Some((k, e as int)) && i < e <= b@.len(),
            None => scan_token(b@, i as int) is None,
        },
{
    let c = b[i];
    if is_ident_start_byte(c) {
        let e = ident_end_at(b, i + 1);
        Some((word_kind_at(b, i, e), e))
    } else if 48 <= c && c <= 57 {
        let e = digits_end_at(b, i + 1);
        if b.len() - e >= 2 && b[e] == 46 && 48 <= b[e + 1] && b[e + 1] <= 57 {
            Some((TokenKind::Float, digits_end_at(b, e + 2)))
        } else {
            Some((TokenKind::Integer, e))
        }
    } else if c == 34 {
        match quote_from(b, i + 1) {
            Some(q) => Some((TokenKind::Str, q + 1)),
            None => None,
        }
    } else if i + 1 < b.len() && pair_kind_of(c, b[i + 1]).is_some() {
        Some((pair_kind_of(c, b[i + 1]).unwrap(), i + 2))
    } else {
        match single_kind_of(c) {
            Some(k) => Some((k, i + 1)),
            None => None,
        }
    }
}

/// Splits source bytes into tokens. `Err` holds the tokens found before
/// lexing fails and the offset where it fails: a block comment that is never
/// closed, or a byte that starts no token.
pub fn lex_bytes(b: &[u8]) -> (r: Result<Vec<Token>, (Vec<Token>, usize)>)
    ensures
        match r {
            Ok(t) => lex(b@) == Ok::<Seq<Token>, int>(t@),
            Err((p, o)) => lex(b@) == Err::<Seq<Token>, int>(o as int) && p@ == lex_prefix(b@, 0),
        },
        r matches Ok(t) ==> tokens_ordered(t@, b@.len() as int) && tokens_cover(b@, t@) && t@.len()
            <= b@.len(),
        r matches Err((p, o)) ==> o < b@.len() && tokens_ordered(p@, b@.len() as int) && p@.len()
            <= b@.len(),
{
    let mut out: Vec<Token> = Vec::new();
    let mut i: usize = 0;
    loop
        invariant
            i <= b@.len(),
            tokens_ordered(out@, i as int),
            out@.len() <= i,
            out@.len() == 0 ==> i == 0,
            out@.len() > 0 ==> out@.last().end == i,
            forall|k: int|
                0 <= k < out@.len() ==> skip_trivia(b@, gap_start(out@, k)) == Ok::<int, int>(
                    #[trigger] out@[k].start as int,
                ),
            forall|k: int|
                0 <= k < out@.len() ==> scan_token(b@, out@[k].start as int) == Some(
                    (#[trigger] out@[k].kind, out@[k].end as int),
                ),
            lex(b@) == match lex_from(b@, i as int) {
                Ok(rest) => Ok(out@ + rest),
                Err(o) => Err::<Seq<Token>, int>(o),
            },
            lex_prefix(b@, 0) == out@ + lex_prefix(b@, i as int),
        decreases b@.len() - i,
    {
        match skip_trivia_at(b, i) {
            Err(o) => {
                assert(out@ + Seq::<Token>::empty() =~= out@);
                return Err((out, o));
            },
            Ok(k) => {
                if k >= b.len() {
                    assert(out@ + Seq::<Token>::empty() =~= out@);
                    assert(gap_start(out@, out@.len() as int) == i);
                    return Ok(out);
                }
                match scan_token_at(b, k) {
                    None => {
                        assert(out@ + Seq::<Token>::empty() =~= out@);
                        return Err((out, k));
                    },
                    Some((kind, e)) => {
                        let tok = Token { kind, start: k, end: e };
                        let ghost old_out = out@;
                        proof {
                            assert(lex_from(b@, e as int) matches Ok(rest) ==> lex_from(b@, i as int)
                                == Ok::<Seq<Token>, int>(seq![tok] + rest));
                        }
                        out.push(tok);
                        proof {
                            assert(old_out + (seq![tok] + lex_prefix(b@, e as int)) =~= out@ + lex_prefix(b@, e as int));
                            assert forall|rest: Seq<Token>| old_out + (seq![tok] + rest) == out@ + rest by {
                                assert(old_out + (seq![tok] + rest) =~= out@ + rest);
                            }
                            assert(gap_start(out@, out@.len() - 1) == i);
                            assert forall|k2: int| 0 <= k2 < out@.len() - 1 implies gap_start(out@, k2) == gap_start(old_out, k2) by {}
                            assert forall|a: int, c: int| 0 <= a < c < out@.len() implies #[trigger] out@[a].end <= #[trigger] out@[c].start by {
                                if c == out@.len() - 1 {
                                    assert(tokens_ordered(old_out, i as int));
                                    assert(0 <= a < old_out.len());
                                    assert(old_out[a].start < old_out[a].end <= i);
                                    assert(out@[a] == old_out[a]);
                                } else {
                                    assert(out@[a] == old_out[a] && out@[c] == old_out[c]);
                                    assert(old_out[a].end <= old_out[c].start);
                                }
                            }
                            assert forall|a: int| #![trigger out@[a]] 0 <= a < out@.len() implies out@[a].start < out@[a].end <= e by {
                                if a < out@.len() - 1 {
                                    assert(old_out[a].start < old_out[a].end <= i);
                                }
                            }
                        }
                        i = e;
                    },
                }
            },
        }
    }
}

} // verus!
