use interpreter::environment::Environment;
use interpreter::interpreter::Interpreter;
use interpreter::parser::Parser;
use interpreter::scanner::Scanner;
use interpreter::token::{Token, TokenType, Value};

#[test]
fn environment_define_get_assign() {
    let mut env = Environment::new();
    let name = Token::new(TokenType::IDENTIFIER, "x".to_string(), None, 1);
    assert!(env.get(&name).is_err());
    env.define("x".to_string(), Value::Number(7));
    match env.get(&name) {
        Ok(Value::Number(n)) => assert_eq!(n, 7),
        _ => panic!("expected the bound number"),
    }
    assert!(env.assign(&name, Value::Number(8)).is_ok());
    match env.get(&name) {
        Ok(Value::Number(n)) => assert_eq!(n, 8),
        _ => panic!("expected the assigned number"),
    }
    let other = Token::new(TokenType::IDENTIFIER, "y".to_string(), None, 1);
    assert!(env.assign(&other, Value::Number(1)).is_err());
}

#[test]
fn enclosed_scope_sees_outer_bindings() {
    let mut outer = Environment::new();
    outer.define("x".to_string(), Value::Number(1));
    let inner = Environment::enclose(outer);
    let name = Token::new(TokenType::IDENTIFIER, "x".to_string(), None, 1);
    match inner.get(&name) {
        Ok(Value::Number(n)) => assert_eq!(n, 1),
        _ => panic!("outer binding should be visible"),
    }
}

#[test]
fn scanner_produces_tokens_ending_in_eof() {
    let scanner = Scanner::new("var x = 1;".to_string());
    let (tokens, errors) = scanner.scan_tokens();
    assert!(errors.is_empty());
    // var, x, =, 1, ;, end-of-input
    assert_eq!(tokens.len(), 6);
    assert!(matches!(tokens[0].get_type(), TokenType::VAR));
    assert!(matches!(tokens[1].get_type(), TokenType::IDENTIFIER));
    assert!(matches!(tokens[2].get_type(), TokenType::EQUAL));
    assert!(matches!(tokens[3].get_type(), TokenType::NUMBER));
    assert!(matches!(tokens[4].get_type(), TokenType::SEMICOLON));
    assert!(matches!(tokens[5].get_type(), TokenType::EOF));
}

#[test]
fn token_accessors_return_what_was_given() {
    let t = Token::new(
        TokenType::NUMBER,
        "37".to_string(),
        Some(Value::Number(37)),
        4,
    );
    assert!(matches!(t.get_type(), TokenType::NUMBER));
    assert_eq!(t.get_lexeme(), "37");
    assert_eq!(t.get_line(), 4);
    match t.get_literal() {
        Some(Value::Number(n)) => assert_eq!(n, 37),
        _ => panic!("expected the numeric literal"),
    }
}

#[test]
fn stringify_renders_each_value_kind() {
    let interp = Interpreter::new();
    assert_eq!(interp.stringify(Value::Number(-42)), "-42");
    assert_eq!(interp.stringify(Value::Number(0)), "0");
    assert_eq!(interp.stringify(Value::Boolean(true)), "true");
    assert_eq!(interp.stringify(Value::Boolean(false)), "false");
    assert_eq!(interp.stringify(Value::String("hi".to_string())), "hi");
    assert_eq!(interp.stringify(Value::Nil), "nil");
}

#[test]
fn truthiness_rules() {
    let interp = Interpreter::new();
    assert!(!interp.is_truthy(&Value::Boolean(false)));
    assert!(!interp.is_truthy(&Value::Nil));
    assert!(interp.is_truthy(&Value::Boolean(true)));
    assert!(interp.is_truthy(&Value::Number(0)));
    assert!(interp.is_truthy(&Value::String(String::new())));
}

#[test]
fn values_equal_is_structural_across_kinds() {
    let interp = Interpreter::new();
    assert!(interp.values_equal(&Value::Number(1), &Value::Number(1)));
    assert!(!interp.values_equal(&Value::Number(1), &Value::Number(2)));
    assert!(interp.values_equal(
        &Value::String("a".to_string()),
        &Value::String("a".to_string())
    ));
    assert!(!interp.values_equal(&Value::Number(1), &Value::String("1".to_string())));
    assert!(interp.values_equal(&Value::Nil, &Value::Nil));
}

#[test]
fn small_step_budget_reports_exhaustion() {
    let scanner = Scanner::new("while (true) { var x = 1; }".to_string());
    let (tokens, errors) = scanner.scan_tokens();
    assert!(errors.is_empty());
    let mut parser = Parser::new(tokens);
    let statements = parser.parse();
    assert!(parser.errors().is_empty());
    let mut interp = Interpreter::new();
    let outcome = interp.interpret(&statements, 5);
    assert!(outcome.exhausted);
}

#[test]
fn parser_reports_missing_semicolon() {
    let scanner = Scanner::new("print 1".to_string());
    let (tokens, _) = scanner.scan_tokens();
    let mut parser = Parser::new(tokens);
    let statements = parser.parse();
    assert!(statements.is_empty());
    assert_eq!(parser.errors().len(), 1);
    assert_eq!(
        parser.errors()[0].message(),
        "Expect ';' after value at line 1."
    );
}
