use vstd::prelude::*;

verus! {

/// Lexical category of a token, as produced by the scanner and consumed by
/// the parser.  The keyword kinds beyond those the grammar uses are reserved
/// words: the scanner recognises them, and the parser rejects them where no
/// production accepts them.
#[allow(non_camel_case_types)]
#[derive(Clone, Copy, Debug, PartialEq, Eq, Structural)]
pub enum TokenType {
    // Single-character tokens.
    LEFT_PAREN,
    RIGHT_PAREN,
    LEFT_BRACE,
    RIGHT_BRACE,
    COMMA,
    DOT,
    MINUS,
    PLUS,
    SEMICOLON,
    SLASH,
    STAR,
    // One- or two-character operators.
    BANG,
    BANG_EQUAL,
    EQUAL,
    EQUAL_EQUAL,
    GREATER,
    GREATER_EQUAL,
    LESS,
    LESS_EQUAL,
    // Literals.
    IDENTIFIER,
    STRING,
    NUMBER,
    // Keywords.
    AND,
    CLASS,
    ELSE,
    FALSE,
    FUN,
    FOR,
    IF,
    NIL,
    OR,
    PRINT,
    RETURN,
    SUPER,
    THIS,
    TRUE,
    VAR,
    WHILE,
    EOF,
}

/// Mathematical model of a runtime value: numbers are 64-bit signed integers
/// seen as unbounded integers, strings are character sequences.
pub ghost enum SpecValue {
    Num(int),
    Str(Seq<char>),
    Bool(bool),
    Nil,
}

/// A runtime value of the language: a number, a string, a boolean, or nil.
/// Numbers are 64-bit signed integers; arithmetic that leaves that range is a
/// runtime error rather than a silent wrap.
#[derive(Debug)]
pub enum Value {
    Number(i64),
    String(String),
    Boolean(bool),
    Nil,
}

impl View for Value {
    type V = SpecValue;

    open spec fn view(&self) -> SpecValue {
        match self {
            Value::Number(n) => SpecValue::Num(*n as int),
            Value::String(s) => SpecValue::Str(s@),
            Value::Boolean(b) => SpecValue::Bool(*b),
            Value::Nil => SpecValue::Nil,
        }
    }
}

impl Clone for Value {
    fn clone(&self) -> (r: Value)
        ensures
            r == *self,
    {
        match self {
            Value::Number(n) => Value::Number(*n),
            Value::String(s) => Value::String(s.clone()),
            Value::Boolean(b) => Value::Boolean(*b),
            Value::Nil => Value::Nil,
        }
    }
}

/// Model of an `Option`al literal payload.
pub open spec fn literal_view(l: Option<Value>) -> Option<SpecValue> {
    match l {
        Some(v) => Some(v@),
        None => None,
    }
}

/// Model of a token: its kind, the exact source substring it was scanned
/// from, its literal payload if it is a number or string literal, and the
/// source line it starts on.
pub ghost struct TokenModel {
    pub kind: TokenType,
    pub lexeme: Seq<char>,
    pub literal: Option<SpecValue>,
    pub line: nat,
}

/// A token of the source text.  Immutable once produced by the scanner.
#[derive(Debug)]
pub struct Token {
    t: TokenType,
    lexeme: String,
    literal: Option<Value>,
    line: usize,
}

impl View for Token {
    type V = TokenModel;

    closed spec fn view(&self) -> TokenModel {
        TokenModel {
            kind: self.t,
            lexeme: self.lexeme@,
            literal: literal_view(self.literal),
            line: self.line as nat,
        }
    }
}

impl Clone for Token {
    fn clone(&self) -> (r: Token)
        ensures
            r == *self,
    {
        Token {
            t: self.t,
            lexeme: self.lexeme.clone(),
            literal: match &self.literal {
                Some(v) => Some(v.clone()),
                None => None,
            },
            line: self.line,
        }
    }
}

impl Token {
    pub fn new(t: TokenType, lexeme: String, literal: Option<Value>, line: usize) -> (r: Token)
        ensures
            r@.kind == t,
            r@.lexeme == lexeme@,
            r@.literal == literal_view(literal),
            r@.line == line as nat,
    {
        Token { t, lexeme, literal, line }
    }

    pub fn get_type(&self) -> (r: TokenType)
        ensures
            r == self@.kind,
    {
        self.t
    }

    pub fn get_lexeme(&self) -> (r: &str)
        ensures
            r@ == self@.lexeme,
    {
        self.lexeme.as_str()
    }

    /// The owned lexeme, for error messages and variable names.
    pub fn lexeme_string(&self) -> (r: String)
        ensures
            r@ == self@.lexeme,
    {
        self.lexeme.clone()
    }

    pub fn get_literal(self) -> (r: Option<Value>)
        ensures
            literal_view(r) == self@.literal,
    {
        self.literal
    }

    pub fn get_line(&self) -> (r: usize)
        ensures
            r as nat == self@.line,
    {
        self.line
    }
}

} // verus!
