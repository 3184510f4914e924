use carbon_parser::{
    parse_carbon, parse_expression, parse_function_decl, parse_type_name, parse_var_decl,
};

#[test]
fn test_simple_function_without_params() {
    let code = r#"fn test() -> i32 { return 42; }"#;
    let result = parse_function_decl(code);
    assert!(result.is_ok(), "A simple function without parameters should parse successfully");
}

#[test]
fn test_function_with_single_param() {
    let code = r#"fn square(x: i32) -> i32 { return x; }"#;
    let result = parse_function_decl(code);
    assert!(result.is_ok(), "A function with a single parameter should parse successfully");
}

#[test]
fn test_function_with_multiple_params() {
    let code = r#"fn add(x: i32, y: i32, z: i32) -> i32 { return x; }"#;
    let result = parse_function_decl(code);
    assert!(result.is_ok(), "A function with multiple parameters should parse successfully");
}

#[test]
fn integration_tests_test_function_without_return_type() {
    let code = r#"fn print_hello() { return 0; }"#;
    let result = parse_function_decl(code);
    assert!(result.is_ok(), "A function without a return type should parse successfully");
}

#[test]
fn test_function_with_different_types() {
    let code = r#"fn process(name: String, age: i32, active: bool) -> bool { return active; }"#;
    let result = parse_function_decl(code);
    assert!(result.is_ok(), "A function with different parameter types should parse successfully");
}

#[test]
fn test_var_with_initialization() {
    let code = "var x: i32 = 42;";
    let result = parse_var_decl(code);
    assert!(result.is_ok(), "A variable with initialization should parse successfully");
}

#[test]
fn test_var_without_initialization() {
    let code = "var y: bool;";
    let result = parse_var_decl(code);
    assert!(result.is_ok(), "A variable without initialization should parse successfully");
}

#[test]
fn test_var_with_string_type() {
    let code = r#"var name: String = "John";"#;
    let result = parse_var_decl(code);
    assert!(result.is_ok(), "A variable of type String with initialization should parse successfully");
}

#[test]
fn test_var_with_float() {
    let code = "var pi: f64 = 3.14;";
    let result = parse_var_decl(code);
    assert!(result.is_ok(), "A variable with a float value should parse successfully");
}

#[test]
fn test_var_with_expression() {
    let code = "var sum: i32 = 10 + 20;";
    let result = parse_var_decl(code);
    assert!(result.is_ok(), "A variable with an expression should parse successfully");
}

#[test]
fn test_integer_literal() {
    let code = "42";
    let result = parse_expression(code);
    assert!(result.is_ok(), "An integer literal should parse successfully");
}

#[test]
fn test_float_literal() {
    let code = "3.14";
    let result = parse_expression(code);
    assert!(result.is_ok(), "A float literal should parse successfully");
}

#[test]
fn test_boolean_literal() {
    assert!(parse_expression("true").is_ok());
    assert!(parse_expression("false").is_ok());
}

#[test]
fn integration_tests_test_string_literal() {
    let code = r#""Hello, World!""#;
    let result = parse_expression(code);
    assert!(result.is_ok(), "A string literal should parse successfully");
}

#[test]
fn test_identifier() {
    let code = "variable_name";
    let result = parse_expression(code);
    assert!(result.is_ok(), "An identifier should parse successfully");
}

#[test]
fn test_binary_addition() {
    let code = "10 + 20";
    let result = parse_expression(code);
    assert!(result.is_ok(), "Binary addition should parse successfully");
}

#[test]
fn test_complex_binary_expression() {
    let code = "10 + 20 * 30 - 5";
    let result = parse_expression(code);
    assert!(result.is_ok(), "A complex binary expression should parse successfully");
}

#[test]
fn integration_tests_test_function_call() {
    let code = "calculate(x, y)";
    let result = parse_expression(code);
    assert!(result.is_ok(), "A function call should parse successfully");
}

#[test]
fn integration_tests_test_comparison_operators() {
    assert!(parse_expression("x == y").is_ok());
    assert!(parse_expression("x != y").is_ok());
    assert!(parse_expression("x < y").is_ok());
    assert!(parse_expression("x > y").is_ok());
}

#[test]
fn test_integer_types() {
    assert!(parse_type_name("i32").is_ok());
    assert!(parse_type_name("i64").is_ok());
}

#[test]
fn integration_tests_test_float_types() {
    assert!(parse_type_name("f32").is_ok());
    assert!(parse_type_name("f64").is_ok());
}

#[test]
fn test_boolean_type() {
    let result = parse_type_name("bool");
    assert!(result.is_ok(), "The type bool should parse successfully");
}

#[test]
fn test_string_type() {
    let result = parse_type_name("String");
    assert!(result.is_ok(), "The type String should parse successfully");
}

#[test]
fn integration_tests_test_custom_type() {
    let result = parse_type_name("CustomType");
    assert!(result.is_ok(), "A custom type should parse successfully");
}

#[test]
fn integration_tests_test_empty_program() {
    let code = "";
    let result = parse_carbon(code);
    assert!(result.is_ok(), "An empty program should parse successfully");
}

#[test]
fn test_single_function_program() {
    let code = r#"
            fn main() -> i32 {
                return 0;
            }
        "#;
    let result = parse_carbon(code);
    assert!(result.is_ok(), "A program with a single function should parse successfully");
}

#[test]
fn test_multiple_functions_program() {
    let code = r#"
            fn add(x: i32, y: i32) -> i32 {
                return x;
            }

            fn main() -> i32 {
                return 0;
            }
        "#;
    let result = parse_carbon(code);
    assert!(result.is_ok(), "A program with multiple functions should parse successfully");
}

#[test]
fn integration_tests_test_program_with_variables() {
    let code = r#"
            var global_x: i32 = 100;

            fn main() -> i32 {
                var local_y: i32 = 200;
                return 0;
            }
        "#;
    let result = parse_carbon(code);
    assert!(result.is_ok(), "A program with variables should parse successfully");
}

#[test]
fn integration_tests_test_program_with_comments() {
    let code = r#"
            // This is a comment
            fn main() -> i32 {
                /* Multi-line
                   comment */
                return 0;
            }
        "#;
    let result = parse_carbon(code);
    assert!(result.is_ok(), "A program with comments should parse successfully");
}

#[test]
fn test_complex_program() {
    let code = r#"
            var counter: i32 = 0;

            fn increment(x: i32) -> i32 {
                return x;
            }

            fn main() -> i32 {
                var result: i32 = 42;
                return result;
            }
        "#;
    let result = parse_carbon(code);
    assert!(result.is_ok(), "A complex program should parse successfully");
}

#[test]
fn integration_tests_test_invalid_syntax() {
    let code = "fn main( { }";
    let result = parse_carbon(code);
    assert!(result.is_err(), "Invalid syntax should produce an error");
}

#[test]
fn integration_tests_test_missing_semicolon() {
    let code = "var x: i32 = 42";
    let result = parse_var_decl(code);
    assert!(result.is_err(), "A missing semicolon should produce an error");
}

#[test]
fn test_invalid_identifier() {
    let code = "var 123invalid: i32 = 0;";
    let result = parse_var_decl(code);
    assert!(result.is_err(), "An invalid identifier should produce an error");
}
