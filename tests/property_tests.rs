use carbon_parser::{
    parse_carbon, parse_expression, parse_function_decl, parse_type_name, parse_var_decl, tokenize,
    Expected, Node,
    ParseError, Rule, TokenKind,
};

fn text<'a>(src: &'a str, n: &Node) -> &'a str {
    &src[n.start..n.end]
}

fn spans_nest(n: &Node) -> bool {
    if n.start > n.end {
        return false;
    }
    for (k, c) in n.children.iter().enumerate() {
        if c.start < n.start || c.end > n.end || !spans_nest(c) {
            return false;
        }
        for d in &n.children[k + 1..] {
            if c.end > d.start {
                return false;
            }
        }
    }
    true
}

fn shape(src: &str, n: &Node) -> String {
    let inner: Vec<String> = n.children.iter().map(|c| shape(src, c)).collect();
    if inner.is_empty() {
        format!("{:?}({})", n.rule, text(src, n))
    } else {
        format!("{:?}[{}]", n.rule, inner.join(" "))
    }
}

#[test]
fn subtraction_groups_to_the_left() {
    let src = "10 - 3 - 2";
    let e = parse_expression(src).unwrap();
    assert_eq!(e.rule, Rule::Expression);
    let top = &e.children[0];
    assert_eq!(top.rule, Rule::Additive);
    assert_eq!(text(src, top), "10 - 3 - 2");
    assert_eq!(top.children[0].rule, Rule::Additive);
    assert_eq!(text(src, &top.children[0]), "10 - 3");
    assert_eq!(top.children[1].rule, Rule::AdditiveOp);
    assert_eq!(text(src, &top.children[2]), "2");
    assert_eq!(
        shape(src, &e),
        "Expression[Additive[Additive[Integer(10) AdditiveOp(-) Integer(3)] AdditiveOp(-) Integer(2)]]"
    );
}

#[test]
fn multiplication_binds_tighter_than_addition() {
    let src = "10 + 20 * 30 - 5";
    let e = parse_expression(src).unwrap();
    assert_eq!(
        shape(src, &e),
        "Expression[Additive[Additive[Integer(10) AdditiveOp(+) Multiplicative[Integer(20) MultiplicativeOp(*) Integer(30)]] AdditiveOp(-) Integer(5)]]"
    );
}

#[test]
fn precedence_levels_nest_in_order() {
    let src = "a || b && c == d < e + f * -g";
    let e = parse_expression(src).unwrap();
    assert_eq!(
        shape(src, &e),
        "Expression[LogicalOr[Identifier(a) OrOp(||) LogicalAnd[Identifier(b) AndOp(&&) Equality[Identifier(c) EqualityOp(==) Comparison[Identifier(d) ComparisonOp(<) Additive[Identifier(e) AdditiveOp(+) Multiplicative[Identifier(f) MultiplicativeOp(*) Unary[UnaryOp(-) Identifier(g)]]]]]]]]"
    );
}

#[test]
fn two_character_comparisons() {
    let src = "a <= b";
    let e = parse_expression(src).unwrap();
    assert_eq!(shape(src, &e), "Expression[Comparison[Identifier(a) ComparisonOp(<=) Identifier(b)]]");
    assert!(parse_expression("a >= b").is_ok());
}

#[test]
fn parentheses_group_first() {
    let src = "(a + b) * c";
    let e = parse_expression(src).unwrap();
    assert_eq!(
        shape(src, &e),
        "Expression[Multiplicative[Expression[Additive[Identifier(a) AdditiveOp(+) Identifier(b)]] MultiplicativeOp(*) Identifier(c)]]"
    );
}

#[test]
fn call_with_arguments() {
    let src = "f(1, x, 2.5)";
    let e = parse_expression(src).unwrap();
    assert_eq!(
        shape(src, &e),
        "Expression[FunctionCall[Identifier(f) Expression[Integer(1)] Expression[Identifier(x)] Expression[Float(2.5)]]]"
    );
    let src = "g()";
    let e = parse_expression(src).unwrap();
    assert_eq!(shape(src, &e), "Expression[FunctionCall[Identifier(g)]]");
}

#[test]
fn one_unary_operator_only() {
    assert!(parse_expression("!done").is_ok());
    assert!(parse_expression("--x").is_err());
}

#[test]
fn spans_nest_in_a_whole_program() {
    let src = r#"
        var counter: i32 = 0;
        // helper
        fn add(x: i32, y: i32) -> i32 {
            var s: i32 = x + y * (2 - counter);
            print("sum", s);
            return s;
        }
    "#;
    let decls = parse_carbon(src).unwrap();
    assert_eq!(decls.len(), 2);
    assert_eq!(decls[0].rule, Rule::VarDecl);
    assert_eq!(decls[1].rule, Rule::FunctionDecl);
    for d in &decls {
        assert!(spans_nest(d));
    }
    assert!(decls[0].end <= decls[1].start);
    assert_eq!(text(src, &decls[0]), "var counter: i32 = 0;");
    let f = &decls[1];
    let rules: Vec<Rule> = f.children.iter().map(|c| c.rule).collect();
    assert_eq!(
        rules,
        vec![Rule::Identifier, Rule::Param, Rule::Param, Rule::TypeName, Rule::Block]
    );
    let block = &f.children[4];
    let stmts: Vec<Rule> = block.children.iter().map(|c| c.rule).collect();
    assert_eq!(stmts, vec![Rule::VarDecl, Rule::ExprStmt, Rule::ReturnStmt]);
}

#[test]
fn tokens_and_gaps_rebuild_the_input() {
    let src = "fn f() { /* note */ return 1; } // end\n";
    let toks = tokenize(src).unwrap();
    let mut rebuilt = String::new();
    let mut prev = 0;
    for t in &toks {
        let gap = &src[prev..t.start];
        assert!(gap.trim().is_empty() || gap.contains("/*") || gap.contains("//"));
        rebuilt.push_str(gap);
        rebuilt.push_str(&src[t.start..t.end]);
        prev = t.end;
    }
    rebuilt.push_str(&src[prev..]);
    assert_eq!(rebuilt, src);
    let kinds: Vec<TokenKind> = toks.iter().map(|t| t.kind).collect();
    assert_eq!(
        kinds,
        vec![
            TokenKind::Fn,
            TokenKind::Ident,
            TokenKind::LParen,
            TokenKind::RParen,
            TokenKind::LBrace,
            TokenKind::Return,
            TokenKind::Integer,
            TokenKind::Semi,
            TokenKind::RBrace
        ]
    );
}

#[test]
fn keywords_are_not_identifiers() {
    let toks = tokenize("return_value var varx true").unwrap();
    let kinds: Vec<TokenKind> = toks.iter().map(|t| t.kind).collect();
    assert_eq!(kinds, vec![TokenKind::Ident, TokenKind::Var, TokenKind::Ident, TokenKind::True]);
    assert!(parse_var_decl("var fn: i32;").is_err());
}

#[test]
fn trailing_text_is_an_error() {
    match parse_carbon("fn main( { }") {
        Err(ParseError::SyntaxError { at, .. }) => {
            assert_eq!(at.offset, 9);
        },
        other => panic!("unexpected {:?}", other),
    }
    match parse_expression("1 2") {
        Err(ParseError::SyntaxError { at, expected, .. }) => {
            assert_eq!(at.offset, 2);
            assert!(expected.contains(&Expected::End));
        },
        other => panic!("unexpected {:?}", other),
    }
}

#[test]
fn missing_semicolon_is_reported_after_the_value() {
    match parse_var_decl("var x: i32 = 42") {
        Err(ParseError::SyntaxError { at, found_end, expected }) => {
            assert_eq!(at.offset, 15);
            assert_eq!(at.line, 1);
            assert_eq!(at.column, 16);
            assert_eq!(found_end, 15);
            assert!(expected.contains(&Expected::Token(TokenKind::Semi)));
            assert!(expected.contains(&Expected::Rule(Rule::AdditiveOp)));
        },
        other => panic!("unexpected {:?}", other),
    }
}

#[test]
fn identifier_cannot_start_with_a_digit() {
    match parse_var_decl("var 123invalid: i32 = 0;") {
        Err(ParseError::SyntaxError { at, found_end, expected }) => {
            assert_eq!(at.offset, 4);
            assert_eq!(found_end, 7);
            assert_eq!(expected, vec![Expected::Token(TokenKind::Ident)]);
        },
        other => panic!("unexpected {:?}", other),
    }
}

#[test]
fn empty_program_has_no_declarations() {
    assert_eq!(parse_carbon("").unwrap().len(), 0);
    assert_eq!(parse_carbon("  // nothing\n /* here */ ").unwrap().len(), 0);
}

#[test]
fn comments_do_not_change_the_tree() {
    let plain = "fn f(a: i32) -> i32 { return a + 1; }";
    let commented = "fn f(a: i32) /* c */ -> i32 { return /* d */ a + 1; // e\n }";
    let x = parse_function_decl(plain).unwrap();
    let y = parse_function_decl(commented).unwrap();
    assert_eq!(shape(plain, &x), shape(commented, &y));
}

#[test]
fn wrong_rule_is_a_mismatch_at_the_start() {
    match parse_var_decl("fn f() { }") {
        Err(ParseError::SyntaxError { at, expected, .. }) => {
            assert_eq!(at.offset, 0);
            assert_eq!(expected, vec![Expected::Token(TokenKind::Var)]);
        },
        other => panic!("unexpected {:?}", other),
    }
}

#[test]
fn stray_character_is_an_invalid_token() {
    match parse_expression("x @ y") {
        Err(ParseError::InvalidToken { at, .. }) => {
            assert_eq!(at.offset, 2);
            assert_eq!(at.column, 3);
        },
        other => panic!("unexpected {:?}", other),
    }
    assert!(matches!(parse_carbon("/* open"), Err(ParseError::InvalidToken { .. })));
    assert!(matches!(parse_expression("\"open"), Err(ParseError::InvalidToken { .. })));
}

#[test]
fn lines_and_columns_count_characters() {
    match parse_function_decl("fn f() {\n  return 1\n}") {
        Err(ParseError::SyntaxError { at, .. }) => {
            assert_eq!(at.offset, 20);
            assert_eq!(at.line, 3);
            assert_eq!(at.column, 1);
        },
        other => panic!("unexpected {:?}", other),
    }
    match parse_var_decl("var s: String = \"\u{e9}\" x;") {
        Err(ParseError::SyntaxError { at, .. }) => {
            assert_eq!(at.offset, 21);
            assert_eq!(at.line, 1);
            assert_eq!(at.column, 21);
        },
        other => panic!("unexpected {:?}", other),
    }
}

#[test]
fn missing_closing_brace_fails() {
    match parse_carbon("fn broken() {") {
        Err(ParseError::SyntaxError { at, expected, .. }) => {
            assert_eq!(at.offset, 13);
            assert!(expected.contains(&Expected::Token(TokenKind::RBrace)));
        },
        other => panic!("unexpected {:?}", other),
    }
}

#[test]
fn custom_type_name_has_an_identifier() {
    let t = parse_type_name("CustomType").unwrap();
    assert_eq!(t.rule, Rule::TypeName);
    assert_eq!((t.start, t.end), (0, 10));
    assert_eq!(t.children.len(), 1);
    assert_eq!(t.children[0].rule, Rule::Identifier);
    assert_eq!((t.children[0].start, t.children[0].end), (0, 10));
    let p = parse_type_name("i32").unwrap();
    assert_eq!(p.rule, Rule::TypeName);
    assert_eq!((p.start, p.end), (0, 3));
    assert!(p.children.is_empty());
}

#[test]
fn primitive_type_names_are_identifiers_too() {
    let src = "String(i32)";
    let e = parse_expression(src).unwrap();
    assert_eq!(shape(src, &e), "Expression[FunctionCall[Identifier(String) Expression[Identifier(i32)]]]");
    let src = "var p: Point = origin;";
    let v = parse_var_decl(src).unwrap();
    assert_eq!(shape(src, &v), "VarDecl[Identifier(p) TypeName[Identifier(Point)] Expression[Identifier(origin)]]");
}

#[test]
fn strings_may_hold_escaped_quotes() {
    let src = r#""a\"b""#;
    let e = parse_expression(src).unwrap();
    assert_eq!(e.children[0].rule, Rule::StringLit);
    assert_eq!(text(src, &e.children[0]), src);
    assert!(parse_expression(r#""a\""#).is_err());
}

#[test]
fn syntax_error_before_a_bad_byte_is_reported() {
    match parse_function_decl("fn (x) @") {
        Err(ParseError::SyntaxError { at, expected, .. }) => {
            assert_eq!(at.offset, 3);
            assert_eq!(expected, vec![Expected::Token(TokenKind::Ident)]);
        },
        other => panic!("unexpected {:?}", other),
    }
    match parse_carbon("var x: i32 = 1; @") {
        Err(ParseError::InvalidToken { at, .. }) => assert_eq!(at.offset, 16),
        other => panic!("unexpected {:?}", other),
    }
}

#[test]
fn messages_name_position_expectation_and_text() {
    let src = "var 123invalid: i32 = 0;";
    let e = parse_var_decl(src).unwrap_err();
    assert_eq!(e.message(src), "line 1, column 5: expected identifier, found `123`");
    let src = "var x: i32 = 42";
    let m = parse_var_decl(src).unwrap_err().message(src);
    assert!(m.starts_with("line 1, column 16: expected "));
    assert!(m.contains("`;`"));
    assert!(m.ends_with(", found ``"));
    let src = "x @ y\nz";
    let m = parse_expression(src).unwrap_err().message(src);
    assert!(m.starts_with("line 1, column 3: expected "));
    assert!(m.contains("end of input"));
    assert!(m.ends_with(", found invalid token `@ y`"));
}

fn no_bound_inside(n: &Node, lo: usize, hi: usize) -> bool {
    let inside = |p: usize| lo < p && p < hi;
    !inside(n.start) && !inside(n.end) && n.children.iter().all(|c| no_bound_inside(c, lo, hi))
}

#[test]
fn no_node_starts_or_ends_inside_a_comment() {
    let src = "fn f(a: i32) /* c */ -> i32 { return /* d */ a + 1; }";
    let f = parse_function_decl(src).unwrap();
    let c = src.find("/* c */").unwrap();
    let d = src.find("/* d */").unwrap();
    assert!(no_bound_inside(&f, c, c + 7));
    assert!(no_bound_inside(&f, d, d + 7));
    let decls = parse_carbon("  var a: i32; /* x */ var b: i32;  ").unwrap();
    assert_eq!((decls[0].start, decls[0].end), (2, 13));
    assert_eq!((decls[1].start, decls[1].end), (22, 33));
}

#[test]
fn invalid_token_names_what_was_expected() {
    match parse_var_decl("var x: i32 = @") {
        Err(ParseError::InvalidToken { at, expected }) => {
            assert_eq!(at.offset, 13);
            assert!(expected.contains(&Expected::Rule(Rule::Literal)));
            assert!(expected.contains(&Expected::Token(TokenKind::Ident)));
        },
        other => panic!("unexpected {:?}", other),
    }
    match parse_carbon("var x: i32 = 1; @") {
        Err(ParseError::InvalidToken { expected, .. }) => {
            assert!(expected.contains(&Expected::Token(TokenKind::Fn)));
            assert!(expected.contains(&Expected::Token(TokenKind::Var)));
            assert!(expected.contains(&Expected::End));
        },
        other => panic!("unexpected {:?}", other),
    }
}
