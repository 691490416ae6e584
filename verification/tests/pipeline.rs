use interpreter::run;

#[test]
fn numeric_literal_prints_exactly() {
    let r = run("print 42;");
    assert_eq!(r.output, vec!["42".to_string()]);
    assert!(r.errors.is_empty());
    assert!(!r.exhausted);
}

#[test]
fn addition_of_numbers() {
    let r = run("print 1 + 2;");
    assert_eq!(r.output, vec!["3".to_string()]);
    assert!(r.errors.is_empty());
}

#[test]
fn concatenation_of_strings() {
    let r = run("print \"a\" + \"b\";");
    assert_eq!(r.output, vec!["ab".to_string()]);
    assert!(r.errors.is_empty());
}

#[test]
fn mixed_addition_is_type_mismatch() {
    let r = run("print 1 + \"a\";");
    assert!(r.output.is_empty());
    assert_eq!(r.errors, vec!["Operands are not valid for '+'.".to_string()]);
}

#[test]
fn division_by_zero_is_error_not_infinity() {
    let r = run("print 10 / 0;");
    assert!(r.output.is_empty());
    assert_eq!(r.errors, vec!["Division by zero.".to_string()]);
}

#[test]
fn inner_shadow_does_not_leak_out() {
    let r = run("var x = 1; { var x = 2; print x; } print x;");
    assert_eq!(r.output, vec!["2".to_string(), "1".to_string()]);
    assert!(r.errors.is_empty());
}

#[test]
fn assignment_to_undeclared_name_is_error() {
    let r = run("x = 5;");
    assert!(r.output.is_empty());
    assert_eq!(r.errors, vec!["Undefined variable 'x'.".to_string()]);
}

#[test]
fn while_loop_counts_and_terminates() {
    let r = run("var i = 0; while (i < 3) { print i; i = i + 1; }");
    assert_eq!(
        r.output,
        vec!["0".to_string(), "1".to_string(), "2".to_string()]
    );
    assert!(r.errors.is_empty());
    assert!(!r.exhausted);
}

#[test]
fn display_text_is_stable_under_reevaluation() {
    // Evaluating an expression, printing it, and feeding the printed text
    // back through the pipeline prints the same text again.
    let first = run("print 1 + 2;");
    assert_eq!(first.output, vec!["3".to_string()]);
    let again = run(&format!("print {};", first.output[0]));
    assert_eq!(again.output, first.output);

    let b = run("print 1 < 2;");
    assert_eq!(b.output, vec!["true".to_string()]);
    let b2 = run(&format!("print {};", b.output[0]));
    assert_eq!(b2.output, b.output);

    let n = run("print nil;");
    assert_eq!(n.output, vec!["nil".to_string()]);
    let n2 = run(&format!("print {};", n.output[0]));
    assert_eq!(n2.output, n.output);
}

#[test]
fn malformed_statement_reports_once_and_parsing_resumes() {
    let r = run("var ;\nprint 1;");
    assert_eq!(r.output, vec!["1".to_string()]);
    assert_eq!(r.errors, vec!["Expect variable name at line 1.".to_string()]);
}

#[test]
fn bad_character_is_reported_and_scanning_continues() {
    let r = run("print 1 + @2;");
    assert_eq!(r.errors, vec!["Unexpected character at line 1.".to_string()]);
    assert_eq!(r.output, vec!["3".to_string()]);
}

#[test]
fn unterminated_string_is_reported() {
    let r = run("print \"abc;");
    assert!(r.output.is_empty());
    assert!(r
        .errors
        .iter()
        .any(|e| e == "Unterminated string at line 1."));
}

#[test]
fn comparisons_and_equality() {
    let r = run("print 1 < 2; print 2 <= 2; print 3 > 4; print true == true; print 1 == \"1\";");
    assert_eq!(
        r.output,
        vec![
            "true".to_string(),
            "true".to_string(),
            "false".to_string(),
            "true".to_string(),
            "false".to_string()
        ]
    );
}

#[test]
fn unary_operators_and_truthiness() {
    let r = run("print -5; print !true; print !nil; print !0;");
    assert_eq!(
        r.output,
        vec![
            "-5".to_string(),
            "false".to_string(),
            "true".to_string(),
            "false".to_string()
        ]
    );
}

#[test]
fn declaration_without_initializer_is_nil() {
    let r = run("var a; print a;");
    assert_eq!(r.output, vec!["nil".to_string()]);
}

#[test]
fn grouping_overrides_precedence() {
    let r = run("print (1 + 2) * 3; print 1 + 2 * 3;");
    assert_eq!(r.output, vec!["9".to_string(), "7".to_string()]);
}

#[test]
fn if_else_branches_by_truthiness() {
    let r = run("if (1 > 2) print 1; else print 2;");
    assert_eq!(r.output, vec!["2".to_string()]);
}

#[test]
fn assignment_is_an_expression_with_a_value() {
    let r = run("var x = 1; print x = 5; print x;");
    assert_eq!(r.output, vec!["5".to_string(), "5".to_string()]);
}

#[test]
fn division_truncates_toward_zero() {
    let r = run("print 7 / 2; print -7 / 2;");
    assert_eq!(r.output, vec!["3".to_string(), "-3".to_string()]);
}

#[test]
fn arithmetic_overflow_is_a_runtime_error() {
    let r = run("print 9223372036854775807 + 1;");
    assert!(r.output.is_empty());
    assert_eq!(r.errors, vec!["Numeric overflow.".to_string()]);
}

#[test]
fn oversized_number_literal_is_a_scan_error() {
    let r = run("print 99999999999999999999;");
    assert!(r.output.is_empty());
    assert!(r
        .errors
        .iter()
        .any(|e| e == "Number literal too large at line 1."));
}

#[test]
fn invalid_assignment_target_is_a_parse_error() {
    let r = run("1 = 2;");
    assert!(r.output.is_empty());
    assert_eq!(
        r.errors,
        vec!["Invalid assignment target at line 1.".to_string()]
    );
}

#[test]
fn error_in_one_statement_does_not_stop_the_next() {
    let r = run("print 1 + \"a\"; print 2;");
    assert_eq!(r.output, vec!["2".to_string()]);
    assert_eq!(r.errors, vec!["Operands are not valid for '+'.".to_string()]);
}

#[test]
fn assignment_error_keeps_earlier_effects() {
    let r = run("var x = 1; x = 2 + nil; print x;");
    assert_eq!(r.output, vec!["1".to_string()]);
    assert_eq!(r.errors, vec!["Operands are not valid for '+'.".to_string()]);
}

#[test]
fn line_numbers_follow_newlines() {
    let r = run("print 1;\nvar ;");
    assert_eq!(r.output, vec!["1".to_string()]);
    assert_eq!(r.errors, vec!["Expect variable name at line 2.".to_string()]);
}

#[test]
fn comments_are_skipped() {
    let r = run("// nothing to see\nprint 1; // trailing\nprint 2;");
    assert_eq!(r.output, vec!["1".to_string(), "2".to_string()]);
    assert!(r.errors.is_empty());
}
