use vstd::prelude::*;
use crate::render::{digits_text, usize_text};

verus! {

/// What the scanner can reject: attributed to a source line; scanning
/// continues past it.
#[derive(Clone, Copy, Debug, PartialEq, Eq, Structural)]
pub enum ScanErrorKind {
    UnexpectedCharacter,
    UnterminatedString,
    NumberTooLarge,
}

/// A scan error with the line it occurred on.
#[derive(Clone, Copy, Debug, PartialEq, Eq, Structural)]
pub struct ScanError {
    pub line: usize,
    pub kind: ScanErrorKind,
}

/// The text of a scan error report.
pub open spec fn scan_error_text(e: ScanError) -> Seq<char> {
    let head = match e.kind {
        ScanErrorKind::UnexpectedCharacter => "Unexpected character"@,
        ScanErrorKind::UnterminatedString => "Unterminated string"@,
        ScanErrorKind::NumberTooLarge => "Number literal too large"@,
    };
    head + " at line "@ + digits_text(e.line as nat) + "."@
}

impl ScanError {
    /// Renders the error as one human-readable line.
    pub fn message(&self) -> (r: String)
        ensures
            r@ == scan_error_text(*self),
    {
        let mut s = match self.kind {
            ScanErrorKind::UnexpectedCharacter => String::from_str("Unexpected character"),
            ScanErrorKind::UnterminatedString => String::from_str("Unterminated string"),
            ScanErrorKind::NumberTooLarge => String::from_str("Number literal too large"),
        };
        s.append(" at line ");
        let line = usize_text(self.line);
        s.append(line.as_str());
        s.append(".");
        proof {
            assert(s@ =~= scan_error_text(*self));
        }
        s
    }
}

/// What the parser can reject: a missing expected token, a missing
/// expression, or an assignment whose left side is not a variable.
#[derive(Clone, Copy, Debug, PartialEq, Eq, Structural)]
pub enum ParseErrorKind {
    ExpectVariableName,
    ExpectSemicolonAfterValue,
    ExpectSemicolonAfterExpression,
    ExpectRightParenAfterExpression,
    ExpectRightBraceAfterBlock,
    ExpectLeftParenAfterIf,
    ExpectRightParenAfterCondition,
    ExpectLeftParenAfterWhile,
    ExpectExpression,
    InvalidAssignmentTarget,
}

/// A parse error with the line of the token it was detected at.
#[derive(Clone, Copy, Debug, PartialEq, Eq, Structural)]
pub struct ParseError {
    pub line: usize,
    pub kind: ParseErrorKind,
}

/// The text of a parse error report.
pub open spec fn parse_error_text(e: ParseError) -> Seq<char> {
    let head = match e.kind {
        ParseErrorKind::ExpectVariableName => "Expect variable name"@,
        ParseErrorKind::ExpectSemicolonAfterValue => "Expect ';' after value"@,
        ParseErrorKind::ExpectSemicolonAfterExpression => "Expect ';' after expression"@,
        ParseErrorKind::ExpectRightParenAfterExpression => "Expect ')' after expression"@,
        ParseErrorKind::ExpectRightBraceAfterBlock => "Expect '}' after block"@,
        ParseErrorKind::ExpectLeftParenAfterIf => "Expect '(' after 'if'"@,
        ParseErrorKind::ExpectRightParenAfterCondition => "Expect ')' after condition"@,
        ParseErrorKind::ExpectLeftParenAfterWhile => "Expect '(' after 'while'"@,
        ParseErrorKind::ExpectExpression => "Expect expression"@,
        ParseErrorKind::InvalidAssignmentTarget => "Invalid assignment target"@,
    };
    head + " at line "@ + digits_text(e.line as nat) + "."@
}

impl ParseError {
    /// Renders the error as one human-readable line.
    pub fn message(&self) -> (r: String)
        ensures
            r@ == parse_error_text(*self),
    {
        let mut s = match self.kind {
            ParseErrorKind::ExpectVariableName => String::from_str("Expect variable name"),
            ParseErrorKind::ExpectSemicolonAfterValue => String::from_str("Expect ';' after value"),
            ParseErrorKind::ExpectSemicolonAfterExpression => String::from_str(
                "Expect ';' after expression",
            ),
            ParseErrorKind::ExpectRightParenAfterExpression => String::from_str(
                "Expect ')' after expression",
            ),
            ParseErrorKind::ExpectRightBraceAfterBlock => String::from_str(
                "Expect '}' after block",
            ),
            ParseErrorKind::ExpectLeftParenAfterIf => String::from_str("Expect '(' after 'if'"),
            ParseErrorKind::ExpectRightParenAfterCondition => String::from_str(
                "Expect ')' after condition",
            ),
            ParseErrorKind::ExpectLeftParenAfterWhile => String::from_str(
                "Expect '(' after 'while'",
            ),
            ParseErrorKind::ExpectExpression => String::from_str("Expect expression"),
            ParseErrorKind::InvalidAssignmentTarget => String::from_str(
                "Invalid assignment target",
            ),
        };
        s.append(" at line ");
        let line = usize_text(self.line);
        s.append(line.as_str());
        s.append(".");
        proof {
            assert(s@ =~= parse_error_text(*self));
        }
        s
    }
}

/// Model of a runtime error.
pub ghost enum RuntimeErrorModel {
    /// A read of, or an assignment to, a name bound nowhere in the scope
    /// chain; carries the name.
    UndefinedVariable(Seq<char>),
    /// An operand kind the operator does not accept; carries the operator's
    /// lexeme.
    TypeMismatch(Seq<char>),
    /// Division by numeric zero: a language-level error, never infinity.
    DivisionByZero,
    /// Arithmetic that leaves the 64-bit signed integer range.
    Overflow,
}

/// An error raised during evaluation.
#[derive(Debug)]
pub enum RuntimeError {
    UndefinedVariable(String),
    TypeMismatch(String),
    DivisionByZero,
    Overflow,
}

impl View for RuntimeError {
    type V = RuntimeErrorModel;

    open spec fn view(&self) -> RuntimeErrorModel {
        match self {
            RuntimeError::UndefinedVariable(name) => RuntimeErrorModel::UndefinedVariable(name@),
            RuntimeError::TypeMismatch(op) => RuntimeErrorModel::TypeMismatch(op@),
            RuntimeError::DivisionByZero => RuntimeErrorModel::DivisionByZero,
            RuntimeError::Overflow => RuntimeErrorModel::Overflow,
        }
    }
}

impl Clone for RuntimeError {
    fn clone(&self) -> (r: RuntimeError)
        ensures
            r == *self,
    {
        match self {
            RuntimeError::UndefinedVariable(name) => RuntimeError::UndefinedVariable(name.clone()),
            RuntimeError::TypeMismatch(op) => RuntimeError::TypeMismatch(op.clone()),
            RuntimeError::DivisionByZero => RuntimeError::DivisionByZero,
            RuntimeError::Overflow => RuntimeError::Overflow,
        }
    }
}

/// The text of a runtime error report.
pub open spec fn runtime_error_text(e: RuntimeErrorModel) -> Seq<char> {
    match e {
        RuntimeErrorModel::UndefinedVariable(name) => "Undefined variable '"@ + name + "'."@,
        RuntimeErrorModel::TypeMismatch(op) => "Operands are not valid for '"@ + op + "'."@,
        RuntimeErrorModel::DivisionByZero => "Division by zero."@,
        RuntimeErrorModel::Overflow => "Numeric overflow."@,
    }
}

impl RuntimeError {
    /// Renders the error as one human-readable line.
    pub fn message(&self) -> (r: String)
        ensures
            r@ == runtime_error_text(self@),
    {
        match self {
            RuntimeError::UndefinedVariable(name) => {
                let mut s = String::from_str("Undefined variable '");
                s.append(name.as_str());
                s.append("'.");
                proof {
                    assert(s@ =~= runtime_error_text(self@));
                }
                s
            },
            RuntimeError::TypeMismatch(op) => {
                let mut s = String::from_str("Operands are not valid for '");
                s.append(op.as_str());
                s.append("'.");
                proof {
                    assert(s@ =~= runtime_error_text(self@));
                }
                s
            },
            RuntimeError::DivisionByZero => String::from_str("Division by zero."),
            RuntimeError::Overflow => String::from_str("Numeric overflow."),
        }
    }
}

} // verus!
