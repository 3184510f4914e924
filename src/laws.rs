//! Properties of the parser that hold of every input.
use vstd::prelude::*;
use crate::grammar::{
    Fail, Parsed, Tree, declaration, declarations, function_decl, program, var_decl, whole,
};
use crate::lexer::{Token, lex, lex_from, skip_trivia};

verus! {

/// The empty source is a program with no declarations.
pub proof fn law_empty_program()
    ensures
        lex(Seq::<u8>::empty()) == Ok::<Seq<Token>, int>(Seq::<Token>::empty()),
        program(Seq::<Token>::empty()) == Ok::<Seq<Tree>, Fail>(Seq::<Tree>::empty()),
{
    let s = Seq::<u8>::empty();
    assert(skip_trivia(s, 0) == Ok::<int, int>(0));
    assert(lex_from(s, 0) == Ok::<Seq<Token>, int>(Seq::<Token>::empty()));
    let t = Seq::<Token>::empty();
    reveal(declaration);
    reveal(function_decl);
    reveal(var_decl);
    assert(declaration(t, 0).0 is None);
    assert(declarations(t, 0).1 == 0);
}

/// A rule succeeds on a whole token sequence only when it matched every
/// token: text left over after the rule is an error, reported as a failure to
/// find the end of the input there.
pub proof fn law_whole_input(t: Seq<Token>, p: Parsed)
    ensures
        whole(t, p) is Ok ==> (p.0 matches Some((x, j)) && j == t.len() && whole(t, p) == Ok::<
            Tree,
            Fail,
        >(x)),
        (p.0 matches Some((x, j)) && j != t.len()) ==> whole(t, p) is Err,
{
}

/// A program succeeds only when its declarations cover every token.
pub proof fn law_program_whole_input(t: Seq<Token>)
    ensures
        program(t) is Ok <==> declarations(t, 0).1 == t.len(),
        program(t) is Ok ==> program(t) == Ok::<Seq<Tree>, Fail>(declarations(t, 0).0),
{
}

} // verus!
