use carbon_parser::{
    parse_carbon, parse_expression, parse_function_decl, parse_type_name, parse_var_decl,
};

#[test]
fn test_simple_function() {
    let code = r#"
            fn main() -> i32 {
                return 42;
            }
        "#;
    assert!(parse_carbon(code).is_ok());
}

#[test]
fn test_function_with_params() {
    let code = "fn add(x: i32, y: i32) -> i32 { return x; }";
    assert!(parse_function_decl(code).is_ok());
}

#[test]
fn test_variable_declaration() {
    let code = "var x: i32 = 42;";
    assert!(parse_var_decl(code).is_ok());
}

#[test]
fn test_expression() {
    let code = "42 + 10 * 2";
    assert!(parse_expression(code).is_ok());
}

#[test]
fn test_type_names() {
    assert!(parse_type_name("i32").is_ok());
    assert!(parse_type_name("bool").is_ok());
    assert!(parse_type_name("String").is_ok());
}

#[test]
fn test_complex_expression() {
    let code = "(a + b) * c - d / e";
    assert!(parse_expression(code).is_ok());
}

#[test]
fn test_function_with_complex_body() {
    let code = r#"
            fn fibonacci(n: i32) -> i32 {
                var a: i32 = 0;
                var b: i32 = 1;
                var i: i32 = 0;
                return a;
            }
        "#;
    assert!(parse_function_decl(code).is_ok());
}

#[test]
fn test_multiple_functions() {
    let code = r#"
            fn first() -> i32 { return 1; }
            fn second() -> i32 { return 2; }
        "#;
    assert!(parse_carbon(code).is_ok());
}

#[test]
fn test_error_handling() {
    let invalid = "fn broken() {";
    assert!(parse_carbon(invalid).is_err());
}

#[test]
fn lib_test_empty_program() {
    let code = "";
    assert!(parse_carbon(code).is_ok());
}

#[test]
fn lib_test_program_with_comments() {
    let code = r#"
            // This is a comment
            fn main() -> i32 {
                /* Multi-line
                   comment */
                return 0;
            }
        "#;
    assert!(parse_carbon(code).is_ok());
}

#[test]
fn test_variable_without_initialization() {
    let code = "var y: bool;";
    assert!(parse_var_decl(code).is_ok());
}

#[test]
fn lib_test_function_without_return_type() {
    let code = "fn print_hello() { return 0; }";
    assert!(parse_function_decl(code).is_ok());
}

#[test]
fn lib_test_comparison_operators() {
    assert!(parse_expression("x == y").is_ok());
    assert!(parse_expression("x != y").is_ok());
    assert!(parse_expression("x < y").is_ok());
    assert!(parse_expression("x > y").is_ok());
}

#[test]
fn test_boolean_literals() {
    assert!(parse_expression("true").is_ok());
    assert!(parse_expression("false").is_ok());
}

#[test]
fn lib_test_string_literal() {
    let code = r#""Hello, World!""#;
    assert!(parse_expression(code).is_ok());
}

#[test]
fn lib_test_function_call() {
    let code = "calculate(x, y)";
    assert!(parse_expression(code).is_ok());
}

#[test]
fn lib_test_invalid_syntax() {
    let code = "fn main( { }";
    assert!(parse_carbon(code).is_err());
}

#[test]
fn lib_test_missing_semicolon() {
    let code = "var x: i32 = 42";
    assert!(parse_var_decl(code).is_err());
}

#[test]
fn lib_test_custom_type() {
    assert!(parse_type_name("CustomType").is_ok());
}

#[test]
fn lib_test_float_types() {
    assert!(parse_type_name("f32").is_ok());
    assert!(parse_type_name("f64").is_ok());
}

#[test]
fn lib_test_program_with_variables() {
    let code = r#"
            var global_x: i32 = 100;
            fn main() -> i32 {
                var local_y: i32 = 200;
                return 0;
            }
        "#;
    assert!(parse_carbon(code).is_ok());
}
