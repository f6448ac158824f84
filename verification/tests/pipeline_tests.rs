use olisp::error::{error, report};
use olisp::interpreter::run_source;
use olisp::scanner::Scanner;
use olisp::token::TokenType;

#[test]
fn arithmetic_mix() {
    let lines = run_source("print 2 * 2.5 + 5 / 2;").unwrap();
    assert_eq!(lines, vec!["7".to_string()]);
}

#[test]
fn block_shadowing() {
    let lines =
        run_source("var a = \"global\"; { var a = \"inner\"; print a; } print a;").unwrap();
    assert_eq!(lines, vec!["inner".to_string(), "global".to_string()]);
}

#[test]
fn while_loop_counts_up() {
    let lines = run_source("var a = 5; while (a < 12) { a = a + 1; } print a;").unwrap();
    assert_eq!(lines, vec!["12".to_string()]);
}

#[test]
fn for_loop_fibonacci() {
    let lines = run_source(
        "var a=0; var b=1; for (var i=0; i<10; i=i+1) { print a; var t=a+b; a=b; b=t; }",
    )
    .unwrap();
    let expected: Vec<String> = vec!["0", "1", "1", "2", "3", "5", "8", "13", "21", "34"]
        .iter()
        .map(|s| s.to_string())
        .collect();
    assert_eq!(lines, expected);
}

#[test]
fn closure_and_return() {
    let lines = run_source("fun addOne(a) { return a + 1; } var b = addOne(4); print b;").unwrap();
    assert_eq!(lines, vec!["5".to_string()]);
}

#[test]
fn logical_short_circuit() {
    let lines = run_source("print \"hi\" or 2; print nil or \"yes\"; print 0 and 5;").unwrap();
    assert_eq!(
        lines,
        vec!["hi".to_string(), "yes".to_string(), "0".to_string()]
    );
}

#[test]
fn recursive_function_counts() {
    let lines = run_source(
        "fun count(n) { if (n > 3) { return 0; } print n; return count(n + 1); } count(1);",
    )
    .unwrap();
    assert_eq!(
        lines,
        vec!["1".to_string(), "2".to_string(), "3".to_string()]
    );
}

#[test]
fn trailing_dot_lexes_int_then_dot() {
    let mut scanner = Scanner::new("123.");
    let result = scanner.scan_tokens();
    assert!(result.is_ok());
    let tokens = result.unwrap();
    assert_eq!(tokens.len(), 3);
    assert_eq!(tokens[0].token_type, TokenType::Number);
    assert_eq!(tokens[0].lexeme, "123");
    assert_eq!(tokens[1].token_type, TokenType::Dot);
    assert_eq!(tokens[2].token_type, TokenType::Eof);
}

#[test]
fn division_by_integer_zero_fails() {
    let result = run_source("print 1 / 0;");
    assert_eq!(result, Err("Division by 0".to_string()));
}

#[test]
fn division_by_float_zero_fails() {
    let result = run_source("print 1 / 0.0;");
    assert_eq!(result, Err("Division by 0".to_string()));
}

#[test]
fn assigning_undefined_variable_fails() {
    let result = run_source("x = 1;");
    assert_eq!(result, Err("Variable does not exist x".to_string()));
}

#[test]
fn declaring_then_assigning_succeeds() {
    let lines = run_source("var x; x = 1; print x;").unwrap();
    assert_eq!(lines, vec!["1".to_string()]);
}

#[test]
fn calling_non_callable_fails() {
    let result = run_source("var f = 5; f(1);");
    assert_eq!(result, Err("Cannot use Int as callable".to_string()));
}

#[test]
fn wrong_arity_fails() {
    let result = run_source("fun f(a) { return a; } print f(1, 2);");
    assert_eq!(result, Err("Expected 1 arguments but got 2.".to_string()));
}

#[test]
fn reading_undefined_variable_fails() {
    let result = run_source("print a;");
    assert_eq!(result, Err("Undefined variable a".to_string()));
}

#[test]
fn short_circuit_skips_side_effect() {
    let lines = run_source("var x = 1; true or (x = 2); print x;").unwrap();
    assert_eq!(lines, vec!["1".to_string()]);
}

#[test]
fn falsy_left_runs_right_operand() {
    let lines = run_source("var x = 1; false or (x = 2); print x;").unwrap();
    assert_eq!(lines, vec!["2".to_string()]);
}

#[test]
fn and_short_circuit_skips_side_effect() {
    let lines = run_source("var x = 1; false and (x = 2); print x;").unwrap();
    assert_eq!(lines, vec!["1".to_string()]);
}

#[test]
fn redeclaring_overwrites() {
    let lines = run_source("var a = 1; var a = 2; print a;").unwrap();
    assert_eq!(lines, vec!["2".to_string()]);
}

#[test]
fn empty_source_runs_to_nothing() {
    let lines = run_source("").unwrap();
    assert_eq!(lines.len(), 0);
}

#[test]
fn string_concatenation_is_total() {
    let lines = run_source("print 1 + \"a\"; print \"a\" + nil; print true + \"!\";").unwrap();
    assert_eq!(
        lines,
        vec!["1a".to_string(), "anil".to_string(), "true!".to_string()]
    );
}

#[test]
fn decimal_display_strips_trailing_zeros() {
    let lines = run_source("print 0.5; print 100.0; print 2.50; print 1.25 + 1.25;").unwrap();
    assert_eq!(
        lines,
        vec![
            "0.5".to_string(),
            "100".to_string(),
            "2.5".to_string(),
            "2.5".to_string()
        ]
    );
}

#[test]
fn unterminated_string_reports_error() {
    let result = run_source("print \"abc");
    assert_eq!(result, Err("Unterminated string at line 1".to_string()));
}

#[test]
fn parse_errors_accumulate() {
    let result = run_source("var ; var 2;");
    let message = result.err().unwrap();
    assert_eq!(
        message,
        "Expect variable name\nExpect variable name".to_string()
    );
}

#[test]
fn clock_reports_nonnegative_seconds() {
    let lines = run_source("print clock();").unwrap();
    assert_eq!(lines.len(), 1);
    let seconds: i64 = lines[0].parse().unwrap();
    assert!(seconds >= 0);
}

#[test]
fn mixed_promotion_keeps_floats() {
    let lines = run_source("print 1 + 2.5; print 2.5 + 1; print 2 * 0.5; print 3.0 - 1;").unwrap();
    assert_eq!(
        lines,
        vec![
            "3.5".to_string(),
            "3.5".to_string(),
            "1".to_string(),
            "2".to_string()
        ]
    );
}

#[test]
fn var_equals_its_initializer() {
    let lines = run_source("var x = 2 * 21; print x == 2 * 21;").unwrap();
    assert_eq!(lines, vec!["true".to_string()]);
}

#[test]
fn error_line_formatting() {
    assert_eq!(error(&3, "boom"), "[line 3] Error : boom");
    assert_eq!(report(&7, "here", "bad"), "[line 7] Error here: bad");
}

#[test]
fn return_outside_function_fails() {
    let result = run_source("return 1;");
    assert_eq!(result, Err("Cannot return outside a function".to_string()));
}

#[test]
fn integer_literal_overflow_reports_parse_error() {
    let result = run_source("print 99999999999999999999;");
    assert_eq!(
        result,
        Err("Failed to parse the int at line: 1".to_string())
    );
}

#[test]
fn function_modifies_only_its_own_frame() {
    let lines = run_source(
        "var a = 1; fun bump(a) { a = a + 2; print a; } bump(a); print a;",
    )
    .unwrap();
    assert_eq!(lines, vec!["3".to_string(), "1".to_string()]);
}
