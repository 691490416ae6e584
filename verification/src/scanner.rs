use vstd::prelude::*;
use crate::error::{ScanError, ScanErrorKind};
use crate::token::{SpecValue, Token, TokenModel, TokenType, Value};

verus! {

pub open spec fn is_digit(c: char) -> bool {
    '0' <= c && c <= '9'
}

pub open spec fn is_alpha(c: char) -> bool {
    ('a' <= c && c <= 'z') || ('A' <= c && c <= 'Z') || c == '_'
}

pub open spec fn is_alnum(c: char) -> bool {
    is_alpha(c) || is_digit(c)
}

/// The numeric value of one digit character.
pub open spec fn digit_of(c: char) -> int {
    c as int - '0' as int
}

/// The first position at or after `i` that holds a newline, or the end.
pub open spec fn line_end(src: Seq<char>, i: int) -> int
    recommends
        0 <= i <= src.len(),
    decreases src.len() - i,
    when 0 <= i <= src.len()
{
    if i >= src.len() || src[i] == '\n' {
        i
    } else {
        line_end(src, i + 1)
    }
}

/// The first position at or after `i` that holds a closing quote, or the
/// end.
pub open spec fn string_end(src: Seq<char>, i: int) -> int
    recommends
        0 <= i <= src.len(),
    decreases src.len() - i,
    when 0 <= i <= src.len()
{
    if i >= src.len() || src[i] == '"' {
        i
    } else {
        string_end(src, i + 1)
    }
}

/// The first position at or after `i` that holds no digit, or the end.
pub open spec fn digits_end(src: Seq<char>, i: int) -> int
    recommends
        0 <= i <= src.len(),
    decreases src.len() - i,
    when 0 <= i <= src.len()
{
    if i >= src.len() || !is_digit(src[i]) {
        i
    } else {
        digits_end(src, i + 1)
    }
}

/// The first position at or after `i` that holds no identifier character,
/// or the end.
pub open spec fn ident_end(src: Seq<char>, i: int) -> int
    recommends
        0 <= i <= src.len(),
    decreases src.len() - i,
    when 0 <= i <= src.len()
{
    if i >= src.len() || !is_alnum(src[i]) {
        i
    } else {
        ident_end(src, i + 1)
    }
}

/// How many newline characters `src` holds in positions `i ..= j - 1`.
pub open spec fn newlines_in(src: Seq<char>, i: int, j: int) -> nat
    decreases j - i,
{
    if i >= j {
        0
    } else {
        newlines_in(src, i + 1, j) + (if 0 <= i < src.len() && src[i] == '\n' {
            1nat
        } else {
            0nat
        })
    }
}

/// The value of the digit run `src[i .. j]`, most significant digit first.
pub open spec fn digits_value(src: Seq<char>, i: int, j: int) -> int
    decreases j - i,
{
    if i >= j {
        0
    } else {
        digits_value(src, i, j - 1) * 10 + (if 0 <= j - 1 < src.len() {
            digit_of(src[j - 1])
        } else {
            0
        })
    }
}

/// The fixed keyword table; any other word is an identifier.
pub open spec fn keyword_kind(lex: Seq<char>) -> TokenType {
    if lex == "and"@ {
        TokenType::AND
    } else if lex == "class"@ {
        TokenType::CLASS
    } else if lex == "else"@ {
        TokenType::ELSE
    } else if lex == "false"@ {
        TokenType::FALSE
    } else if lex == "for"@ {
        TokenType::FOR
    } else if lex == "fun"@ {
        TokenType::FUN
    } else if lex == "if"@ {
        TokenType::IF
    } else if lex == "nil"@ {
        TokenType::NIL
    } else if lex == "or"@ {
        TokenType::OR
    } else if lex == "print"@ {
        TokenType::PRINT
    } else if lex == "return"@ {
        TokenType::RETURN
    } else if lex == "super"@ {
        TokenType::SUPER
    } else if lex == "this"@ {
        TokenType::THIS
    } else if lex == "true"@ {
        TokenType::TRUE
    } else if lex == "var"@ {
        TokenType::VAR
    } else if lex == "while"@ {
        TokenType::WHILE
    } else {
        TokenType::IDENTIFIER
    }
}

/// A token model without a literal payload.
pub open spec fn plain_token(kind: TokenType, lexeme: Seq<char>, line: nat) -> TokenModel {
    TokenModel { kind, lexeme, literal: None, line }
}

/// The single-character token kinds.
pub open spec fn single_kind(c: char) -> Option<TokenType> {
    if c == '(' {
        Some(TokenType::LEFT_PAREN)
    } else if c == ')' {
        Some(TokenType::RIGHT_PAREN)
    } else if c == '{' {
        Some(TokenType::LEFT_BRACE)
    } else if c == '}' {
        Some(TokenType::RIGHT_BRACE)
    } else if c == ',' {
        Some(TokenType::COMMA)
    } else if c == '.' {
        Some(TokenType::DOT)
    } else if c == '-' {
        Some(TokenType::MINUS)
    } else if c == '+' {
        Some(TokenType::PLUS)
    } else if c == ';' {
        Some(TokenType::SEMICOLON)
    } else if c == '*' {
        Some(TokenType::STAR)
    } else {
        None
    }
}

/// What scanning produces: the token sequence, ending in an end-of-input
/// token, and the scan errors in source order.
pub ghost struct ScanResult {
    pub tokens: Seq<TokenModel>,
    pub errors: Seq<ScanError>,
}

pub open spec fn scan_push_token(t: TokenModel, r: ScanResult) -> ScanResult {
    ScanResult { tokens: seq![t] + r.tokens, errors: r.errors }
}

pub open spec fn scan_push_error(e: ScanError, r: ScanResult) -> ScanResult {
    ScanResult { tokens: r.tokens, errors: seq![e] + r.errors }
}

/// One scan of the source from position `i` on line `line`: one pass, left
/// to right, greedy, with one-character lookahead for the two-character
/// operators; whitespace and `//` comments are skipped; newlines advance
/// the line counter; an invalid character or an unterminated string is
/// reported and scanning continues.
pub open spec fn spec_scan_rest(src: Seq<char>, i: int, line: nat) -> ScanResult
    decreases src.len() - i,
    when 0 <= i <= src.len()
    via spec_scan_rest_decreases
{
    if i >= src.len() {
        ScanResult {
            tokens: seq![plain_token(TokenType::EOF, Seq::empty(), line)],
            errors: Seq::empty(),
        }
    } else {
        let c = src[i];
        if single_kind(c) is Some {
            scan_push_token(
                plain_token(single_kind(c)->Some_0, src.subrange(i, i + 1), line),
                spec_scan_rest(src, i + 1, line),
            )
        } else if c == '!' || c == '=' || c == '<' || c == '>' {
            let double = if c == '!' {
                TokenType::BANG_EQUAL
            } else if c == '=' {
                TokenType::EQUAL_EQUAL
            } else if c == '<' {
                TokenType::LESS_EQUAL
            } else {
                TokenType::GREATER_EQUAL
            };
            let single = if c == '!' {
                TokenType::BANG
            } else if c == '=' {
                TokenType::EQUAL
            } else if c == '<' {
                TokenType::LESS
            } else {
                TokenType::GREATER
            };
            if i + 1 < src.len() && src[i + 1] == '=' {
                scan_push_token(
                    plain_token(double, src.subrange(i, i + 2), line),
                    spec_scan_rest(src, i + 2, line),
                )
            } else {
                scan_push_token(
                    plain_token(single, src.subrange(i, i + 1), line),
                    spec_scan_rest(src, i + 1, line),
                )
            }
        } else if c == '/' {
            if i + 1 < src.len() && src[i + 1] == '/' {
                spec_scan_rest(src, line_end(src, i + 2), line)
            } else {
                scan_push_token(
                    plain_token(TokenType::SLASH, src.subrange(i, i + 1), line),
                    spec_scan_rest(src, i + 1, line),
                )
            }
        } else if c == ' ' || c == '\r' || c == '\t' {
            spec_scan_rest(src, i + 1, line)
        } else if c == '\n' {
            spec_scan_rest(src, i + 1, line + 1)
        } else if c == '"' {
            let j = string_end(src, i + 1);
            let new_line = line + newlines_in(src, i + 1, j);
            if j >= src.len() {
                scan_push_error(
                    ScanError { line: new_line as usize, kind: ScanErrorKind::UnterminatedString },
                    spec_scan_rest(src, j, new_line),
                )
            } else {
                scan_push_token(
                    TokenModel {
                        kind: TokenType::STRING,
                        lexeme: src.subrange(i, j + 1),
                        literal: Some(SpecValue::Str(src.subrange(i + 1, j))),
                        line,
                    },
                    spec_scan_rest(src, j + 1, new_line),
                )
            }
        } else if is_digit(c) {
            let j = digits_end(src, i);
            let value = digits_value(src, i, j);
            if value > i64::MAX {
                scan_push_error(
                    ScanError { line: line as usize, kind: ScanErrorKind::NumberTooLarge },
                    spec_scan_rest(src, j, line),
                )
            } else {
                scan_push_token(
                    TokenModel {
                        kind: TokenType::NUMBER,
                        lexeme: src.subrange(i, j),
                        literal: Some(SpecValue::Num(value)),
                        line,
                    },
                    spec_scan_rest(src, j, line),
                )
            }
        } else if is_alpha(c) {
            let j = ident_end(src, i);
            let lex = src.subrange(i, j);
            scan_push_token(plain_token(keyword_kind(lex), lex, line), spec_scan_rest(src, j, line))
        } else {
            scan_push_error(
                ScanError { line: line as usize, kind: ScanErrorKind::UnexpectedCharacter },
                spec_scan_rest(src, i + 1, line),
            )
        }
    }
}

/// `line_end` stays within the text and never moves backward.
pub proof fn lemma_line_end_bounds(src: Seq<char>, i: int)
    requires
        0 <= i <= src.len(),
    ensures
        i <= line_end(src, i) <= src.len(),
    decreases src.len() - i,
{
    if !(i >= src.len() || src[i] == '\n') {
        lemma_line_end_bounds(src, i + 1);
    }
}

/// `string_end` stays within the text and never moves backward.
pub proof fn lemma_string_end_bounds(src: Seq<char>, i: int)
    requires
        0 <= i <= src.len(),
    ensures
        i <= string_end(src, i) <= src.len(),
    decreases src.len() - i,
{
    if !(i >= src.len() || src[i] == '"') {
        lemma_string_end_bounds(src, i + 1);
    }
}

/// `digits_end` stays within the text and never moves backward.
pub proof fn lemma_digits_end_bounds(src: Seq<char>, i: int)
    requires
        0 <= i <= src.len(),
    ensures
        i <= digits_end(src, i) <= src.len(),
    decreases src.len() - i,
{
    if !(i >= src.len() || !is_digit(src[i])) {
        lemma_digits_end_bounds(src, i + 1);
    }
}

/// `ident_end` stays within the text and never moves backward.
pub proof fn lemma_ident_end_bounds(src: Seq<char>, i: int)
    requires
        0 <= i <= src.len(),
    ensures
        i <= ident_end(src, i) <= src.len(),
    decreases src.len() - i,
{
    if !(i >= src.len() || !is_alnum(src[i])) {
        lemma_ident_end_bounds(src, i + 1);
    }
}

#[via_fn]
proof fn spec_scan_rest_decreases(src: Seq<char>, i: int, line: nat) {
    if 0 <= i < src.len() {
        if i + 2 <= src.len() {
            lemma_line_end_bounds(src, i + 2);
        }
        lemma_string_end_bounds(src, i + 1);
        if is_digit(src[i]) {
            lemma_digits_end_bounds(src, i + 1);
        }
        if is_alnum(src[i]) {
            lemma_ident_end_bounds(src, i + 1);
        }
    }
}

/// The tokens and scan errors of a whole source text.
pub open spec fn spec_scan(src: Seq<char>) -> ScanResult {
    spec_scan_rest(src, 0, 1)
}

/// The models of a token vector.
pub open spec fn tokens_model(v: Seq<Token>) -> Seq<TokenModel> {
    v.map(|i: int, t: Token| t@)
}

/// A scanned token stream is well formed: it ends with the end-of-input
/// token, which appears nowhere else.
pub proof fn lemma_scan_wf(src: Seq<char>, i: int, line: nat)
    requires
        0 <= i <= src.len(),
    ensures
        spec_scan_rest(src, i, line).tokens.len() >= 1,
        spec_scan_rest(src, i, line).tokens.last().kind == TokenType::EOF,
        forall|k: int|
            0 <= k < spec_scan_rest(src, i, line).tokens.len() - 1 ==> (#[trigger] spec_scan_rest(
                src,
                i,
                line,
            ).tokens[k]).kind != TokenType::EOF,
    decreases src.len() - i,
{
    if i >= src.len() {
    } else {
        let c = src[i];
        if single_kind(c) is Some {
            lemma_scan_wf(src, i + 1, line);
        } else if c == '!' || c == '=' || c == '<' || c == '>' {
            if i + 1 < src.len() && src[i + 1] == '=' {
                lemma_scan_wf(src, i + 2, line);
            } else {
                lemma_scan_wf(src, i + 1, line);
            }
        } else if c == '/' {
            if i + 1 < src.len() && src[i + 1] == '/' {
                lemma_line_end_bounds(src, i + 2);
                lemma_scan_wf(src, line_end(src, i + 2), line);
            } else {
                lemma_scan_wf(src, i + 1, line);
            }
        } else if c == ' ' || c == '\r' || c == '\t' {
            lemma_scan_wf(src, i + 1, line);
        } else if c == '\n' {
            lemma_scan_wf(src, i + 1, line + 1);
        } else if c == '"' {
            lemma_string_end_bounds(src, i + 1);
            let j = string_end(src, i + 1);
            let new_line = line + newlines_in(src, i + 1, j);
            if j >= src.len() {
                lemma_scan_wf(src, j, new_line);
            } else {
                lemma_scan_wf(src, j + 1, new_line);
            }
        } else if is_digit(c) {
            lemma_digits_end_bounds(src, i);
            lemma_scan_wf(src, digits_end(src, i), line);
        } else if is_alpha(c) {
            lemma_ident_end_bounds(src, i);
            let j = ident_end(src, i);
            lemma_scan_wf(src, j, line);
            assert(keyword_kind(src.subrange(i, j)) != TokenType::EOF);
        } else {
            lemma_scan_wf(src, i + 1, line);
        }
    }
}

pub open spec fn prepend_scan(ts: Seq<TokenModel>, es: Seq<ScanError>, r: ScanResult) -> ScanResult {
    ScanResult { tokens: ts + r.tokens, errors: es + r.errors }
}

proof fn lemma_prepend_scan_empty(r: ScanResult)
    ensures
        prepend_scan(Seq::empty(), Seq::empty(), r) == r,
{
    assert(Seq::<TokenModel>::empty() + r.tokens =~= r.tokens);
    assert(Seq::<ScanError>::empty() + r.errors =~= r.errors);
}

proof fn lemma_prepend_scan_token(a: Seq<TokenModel>, e: Seq<ScanError>, t: TokenModel, r: ScanResult)
    ensures
        prepend_scan(a, e, scan_push_token(t, r)) == prepend_scan(a.push(t), e, r),
{
    assert(a + (seq![t] + r.tokens) =~= a.push(t) + r.tokens);
}

proof fn lemma_prepend_scan_error(a: Seq<TokenModel>, e: Seq<ScanError>, er: ScanError, r: ScanResult)
    ensures
        prepend_scan(a, e, scan_push_error(er, r)) == prepend_scan(a, e.push(er), r),
{
    assert(e + (seq![er] + r.errors) =~= e.push(er) + r.errors);
}

/// Counting newlines extends one position at a time.
proof fn lemma_newlines_snoc(src: Seq<char>, i: int, j: int)
    requires
        i <= j,
    ensures
        newlines_in(src, i, j + 1) == newlines_in(src, i, j) + (
        if 0 <= j < src.len() && src[j] == '\n' {
            1nat
        } else {
            0nat
        }),
    decreases j - i,
{
    if i < j {
        lemma_newlines_snoc(src, i + 1, j);
    } else {
        assert(newlines_in(src, j + 1, j + 1) == 0);
        assert(newlines_in(src, j, j) == 0);
    }
}

/// Counted newlines never outnumber the positions counted.
proof fn lemma_newlines_bound(src: Seq<char>, i: int, j: int)
    requires
        i <= j,
    ensures
        newlines_in(src, i, j) <= j - i,
    decreases j - i,
{
    if i < j {
        lemma_newlines_bound(src, i + 1, j);
    }
}

/// The single-character token kind of one character.
fn single_token_kind(c: char) -> (r: Option<TokenType>)
    ensures
        r == single_kind(c),
{
    if c == '(' {
        Some(TokenType::LEFT_PAREN)
    } else if c == ')' {
        Some(TokenType::RIGHT_PAREN)
    } else if c == '{' {
        Some(TokenType::LEFT_BRACE)
    } else if c == '}' {
        Some(TokenType::RIGHT_BRACE)
    } else if c == ',' {
        Some(TokenType::COMMA)
    } else if c == '.' {
        Some(TokenType::DOT)
    } else if c == '-' {
        Some(TokenType::MINUS)
    } else if c == '+' {
        Some(TokenType::PLUS)
    } else if c == ';' {
        Some(TokenType::SEMICOLON)
    } else if c == '*' {
        Some(TokenType::STAR)
    } else {
        None
    }
}

/// The keyword table lookup for a scanned word.
fn keyword_type(lex: &String) -> (t: TokenType)
    ensures
        t == keyword_kind(lex@),
{
    if *lex == String::from_str("and") {
        TokenType::AND
    } else if *lex == String::from_str("class") {
        TokenType::CLASS
    } else if *lex == String::from_str("else") {
        TokenType::ELSE
    } else if *lex == String::from_str("false") {
        TokenType::FALSE
    } else if *lex == String::from_str("for") {
        TokenType::FOR
    } else if *lex == String::from_str("fun") {
        TokenType::FUN
    } else if *lex == String::from_str("if") {
        TokenType::IF
    } else if *lex == String::from_str("nil") {
        TokenType::NIL
    } else if *lex == String::from_str("or") {
        TokenType::OR
    } else if *lex == String::from_str("print") {
        TokenType::PRINT
    } else if *lex == String::from_str("return") {
        TokenType::RETURN
    } else if *lex == String::from_str("super") {
        TokenType::SUPER
    } else if *lex == String::from_str("this") {
        TokenType::THIS
    } else if *lex == String::from_str("true") {
        TokenType::TRUE
    } else if *lex == String::from_str("var") {
        TokenType::VAR
    } else if *lex == String::from_str("while") {
        TokenType::WHILE
    } else {
        TokenType::IDENTIFIER
    }
}

/// Whether the character at `cur` exists and is a digit.
fn digit_at(source: &String, n: usize, cur: usize) -> (r: bool)
    requires
        n as nat == source@.len(),
    ensures
        r == (cur < n && is_digit(source@[cur as int])),
{
    if cur < n {
        let c = source.as_str().get_char(cur);
        '0' <= c && c <= '9'
    } else {
        false
    }
}

/// Whether the character at `cur` exists and can continue an identifier.
fn ident_char_at(source: &String, n: usize, cur: usize) -> (r: bool)
    requires
        n as nat == source@.len(),
    ensures
        r == (cur < n && is_alnum(source@[cur as int])),
{
    if cur < n {
        let c = source.as_str().get_char(cur);
        ('a' <= c && c <= 'z') || ('A' <= c && c <= 'Z') || c == '_' || ('0' <= c && c <= '9')
    } else {
        false
    }
}

/// Scans one numeric literal starting at a digit.
#[verifier::loop_isolation(false)]
fn scan_number(source: &String, n: usize, start: usize, line: usize) -> (r: (Result<
    Token,
    ScanError,
>, usize))
    requires
        n as nat == source@.len(),
        start < n,
        is_digit(source@[start as int]),
    ensures
        ({
            let j = digits_end(source@, start as int);
            let value = digits_value(source@, start as int, j);
            &&& r.1 as int == j
            &&& r.1 <= n
            &&& match r.0 {
                Ok(tok) => value <= i64::MAX && tok@ == (TokenModel {
                    kind: TokenType::NUMBER,
                    lexeme: source@.subrange(start as int, j),
                    literal: Some(SpecValue::Num(value)),
                    line: line as nat,
                }),
                Err(e) => value > i64::MAX && e == (ScanError {
                    line,
                    kind: ScanErrorKind::NumberTooLarge,
                }),
            }
        }),
{
    let ghost src = source@;
    let mut cur: usize = start;
    while digit_at(source, n, cur)
        invariant
            start <= cur <= n,
            digits_end(src, start as int) == digits_end(src, cur as int),
            forall|k: int| start <= k < cur ==> is_digit(src[k]),
        decreases n - cur,
    {
        cur = cur + 1;
    }
    let ghost j = digits_end(src, start as int);
    proof {
        assert(j == cur as int);
    }
    let mut value: i64 = 0;
    let mut overflow: bool = false;
    let mut k: usize = start;
    while k < cur
        invariant
            start <= k <= cur,
            cur as int == j,
            !overflow ==> value >= 0 && value as int == digits_value(src, start as int, k as int),
            overflow ==> digits_value(src, start as int, k as int) > i64::MAX,
        decreases cur - k,
    {
        let c = source.as_str().get_char(k);
        proof {
            assert(is_digit(src[k as int]));
        }
        let d: i64 = ((c as u32) - ('0' as u32)) as i64;
        proof {
            assert(0 <= d <= 9);
            assert(d as int == digit_of(src[k as int]));
        }
        if !overflow {
            match value.checked_mul(10) {
                Some(v10) => match v10.checked_add(d) {
                    Some(v2) => {
                        value = v2;
                    },
                    None => {
                        overflow = true;
                    },
                },
                None => {
                    overflow = true;
                },
            }
        }
        k = k + 1;
    }
    if overflow {
        (Err(ScanError { line, kind: ScanErrorKind::NumberTooLarge }), cur)
    } else {
        let lex = String::from_str(source.as_str().substring_char(start, cur));
        let tok = Token::new(TokenType::NUMBER, lex, Some(Value::Number(value)), line);
        (Ok(tok), cur)
    }
}

/// Scans one string literal starting at its opening quote.  No escape
/// processing: the literal runs to the next quote; reaching the end of the
/// text first is an error.  Newlines inside the literal advance the line
/// counter.
#[verifier::loop_isolation(false)]
fn scan_string(source: &String, n: usize, start: usize, line: usize) -> (r: (Result<
    Token,
    ScanError,
>, usize, usize))
    requires
        n as nat == source@.len(),
        n < usize::MAX,
        start < n,
        line as nat <= 1 + start as nat,
    ensures
        ({
            let j = string_end(source@, start as int + 1);
            let nl = newlines_in(source@, start as int + 1, j);
            &&& r.1 <= n
            &&& r.2 as nat == line as nat + nl
            &&& r.2 as nat <= 1 + r.1 as nat
            &&& match r.0 {
                Ok(tok) => j < n && r.1 as int == j + 1 && tok@ == (TokenModel {
                    kind: TokenType::STRING,
                    lexeme: source@.subrange(start as int, j + 1),
                    literal: Some(SpecValue::Str(source@.subrange(start as int + 1, j))),
                    line: line as nat,
                }),
                Err(e) => j >= n && r.1 as int == j && e == (ScanError {
                    line: r.2,
                    kind: ScanErrorKind::UnterminatedString,
                }),
            }
        }),
{
    let ghost src = source@;
    let mut cur: usize = start + 1;
    let mut cur_line: usize = line;
    proof {
        assert(newlines_in(src, start as int + 1, start as int + 1) == 0);
    }
    while cur < n && source.as_str().get_char(cur) != '"'
        invariant
            start + 1 <= cur <= n,
            string_end(src, start as int + 1) == string_end(src, cur as int),
            cur_line as nat == line as nat + newlines_in(src, start as int + 1, cur as int),
            cur_line as nat <= 1 + cur as nat,
        decreases n - cur,
    {
        let c = source.as_str().get_char(cur);
        proof {
            lemma_newlines_snoc(src, start as int + 1, cur as int);
        }
        if c == '\n' {
            cur_line = cur_line + 1;
        }
        cur = cur + 1;
    }
    let ghost j = string_end(src, start as int + 1);
    proof {
        assert(j == cur as int);
    }
    if cur >= n {
        (
            Err(ScanError { line: cur_line, kind: ScanErrorKind::UnterminatedString }),
            cur,
            cur_line,
        )
    } else {
        let lex = String::from_str(source.as_str().substring_char(start, cur + 1));
        let content = String::from_str(source.as_str().substring_char(start + 1, cur));
        let tok = Token::new(TokenType::STRING, lex, Some(Value::String(content)), line);
        (Ok(tok), cur + 1, cur_line)
    }
}

/// Scans one identifier or keyword starting at a letter or underscore.
#[verifier::loop_isolation(false)]
fn scan_identifier(source: &String, n: usize, start: usize, line: usize) -> (r: (Token, usize))
    requires
        n as nat == source@.len(),
        start < n,
        is_alpha(source@[start as int]),
    ensures
        ({
            let j = ident_end(source@, start as int);
            &&& r.1 as int == j
            &&& r.1 <= n
            &&& r.0@ == plain_token(
                keyword_kind(source@.subrange(start as int, j)),
                source@.subrange(start as int, j),
                line as nat,
            )
        }),
{
    let ghost src = source@;
    let mut cur: usize = start;
    while ident_char_at(source, n, cur)
        invariant
            start <= cur <= n,
            ident_end(src, start as int) == ident_end(src, cur as int),
        decreases n - cur,
    {
        cur = cur + 1;
    }
    let lex = String::from_str(source.as_str().substring_char(start, cur));
    let kind = keyword_type(&lex);
    let tok = Token::new(kind, lex, None, line);
    (tok, cur)
}

/// Converts raw source text into a flat token sequence, one pass, left to
/// right, reporting invalid input without stopping.
pub struct Scanner {
    source: String,
}

impl Scanner {
    /// The characters of the source text held.
    pub closed spec fn src(&self) -> Seq<char> {
        self.source@
    }

    pub fn new(source: String) -> (r: Scanner)
        ensures
            r.src() == source@,
    {
        Scanner { source }
    }

    /// Scans the whole text: the resulting tokens end with an end-of-input
    /// token, and the scan errors come in source order.  One bad character
    /// does not abort the scan.
    #[verifier::loop_isolation(false)]
    pub fn scan_tokens(self) -> (r: (Vec<Token>, Vec<ScanError>))
        requires
            self.src().len() < usize::MAX,
        ensures
            tokens_model(r.0@) == spec_scan(self.src()).tokens,
            r.1@ == spec_scan(self.src()).errors,
    {
        let ghost src = self.source@;
        let n: usize = self.source.as_str().unicode_len();
        let mut tokens: Vec<Token> = Vec::new();
        let mut errors: Vec<ScanError> = Vec::new();
        let mut current: usize = 0;
        let mut line: usize = 1;
        proof {
            lemma_prepend_scan_empty(spec_scan_rest(src, 0, 1));
            assert(tokens_model(tokens@) =~= Seq::<TokenModel>::empty());
            assert(errors@ =~= Seq::<ScanError>::empty());
        }
        while current < n
            invariant
                current <= n,
                1 <= line,
                line as nat <= 1 + current as nat,
                spec_scan(src) == prepend_scan(
                    tokens_model(tokens@),
                    errors@,
                    spec_scan_rest(src, current as int, line as nat),
                ),
            decreases n - current,
        {
            let ghost tm0 = tokens_model(tokens@);
            let ghost es0 = errors@;
            let ghost line0 = line as nat;
            let ghost cur0 = current as int;
            let c = self.source.as_str().get_char(current);
            match single_token_kind(c) {
                Some(kind) => {
                    let lex = String::from_str(
                        self.source.as_str().substring_char(current, current + 1),
                    );
                    let tok = Token::new(kind, lex, None, line);
                    proof {
                        lemma_prepend_scan_token(
                            tm0,
                            es0,
                            tok@,
                            spec_scan_rest(src, cur0 + 1, line0),
                        );
                    }
                    tokens.push(tok);
                    proof {
                        assert(tokens_model(tokens@) =~= tm0.push(tok@));
                    }
                    current = current + 1;
                },
                None => {
                    if c == '!' || c == '=' || c == '<' || c == '>' {
                        let has_eq = current + 1 < n && self.source.as_str().get_char(
                            current + 1,
                        ) == '=';
                        let kind: TokenType = if c == '!' {
                            if has_eq {
                                TokenType::BANG_EQUAL
                            } else {
                                TokenType::BANG
                            }
                        } else if c == '=' {
                            if has_eq {
                                TokenType::EQUAL_EQUAL
                            } else {
                                TokenType::EQUAL
                            }
                        } else if c == '<' {
                            if has_eq {
                                TokenType::LESS_EQUAL
                            } else {
                                TokenType::LESS
                            }
                        } else {
                            if has_eq {
                                TokenType::GREATER_EQUAL
                            } else {
                                TokenType::GREATER
                            }
                        };
                        let stop: usize = if has_eq {
                            current + 2
                        } else {
                            current + 1
                        };
                        let lex = String::from_str(
                            self.source.as_str().substring_char(current, stop),
                        );
                        let tok = Token::new(kind, lex, None, line);
                        proof {
                            lemma_prepend_scan_token(
                                tm0,
                                es0,
                                tok@,
                                spec_scan_rest(src, stop as int, line0),
                            );
                        }
                        tokens.push(tok);
                        proof {
                            assert(tokens_model(tokens@) =~= tm0.push(tok@));
                        }
                        current = stop;
                    } else if c == '/' {
                        if current + 1 < n && self.source.as_str().get_char(current + 1) == '/' {
                            let mut cur: usize = current + 2;
                            while cur < n && self.source.as_str().get_char(cur) != '\n'
                                invariant
                                    current + 2 <= cur <= n,
                                    line_end(src, cur0 + 2) == line_end(src, cur as int),
                                decreases n - cur,
                            {
                                cur = cur + 1;
                            }
                            current = cur;
                        } else {
                            let lex = String::from_str(
                                self.source.as_str().substring_char(current, current + 1),
                            );
                            let tok = Token::new(TokenType::SLASH, lex, None, line);
                            proof {
                                lemma_prepend_scan_token(
                                    tm0,
                                    es0,
                                    tok@,
                                    spec_scan_rest(src, cur0 + 1, line0),
                                );
                            }
                            tokens.push(tok);
                            proof {
                                assert(tokens_model(tokens@) =~= tm0.push(tok@));
                            }
                            current = current + 1;
                        }
                    } else if c == ' ' || c == '\r' || c == '\t' {
                        current = current + 1;
                    } else if c == '\n' {
                        line = line + 1;
                        current = current + 1;
                    } else if c == '"' {
                        let (res, pos, new_line) = scan_string(&self.source, n, current, line);
                        proof {
                            lemma_string_end_bounds(src, cur0 + 1);
                            lemma_newlines_bound(
                                src,
                                cur0 + 1,
                                string_end(src, cur0 + 1),
                            );
                        }
                        match res {
                            Ok(tok) => {
                                proof {
                                    lemma_prepend_scan_token(
                                        tm0,
                                        es0,
                                        tok@,
                                        spec_scan_rest(src, pos as int, new_line as nat),
                                    );
                                }
                                tokens.push(tok);
                                proof {
                                    assert(tokens_model(tokens@) =~= tm0.push(tok@));
                                }
                            },
                            Err(e) => {
                                proof {
                                    lemma_prepend_scan_error(
                                        tm0,
                                        es0,
                                        e,
                                        spec_scan_rest(src, pos as int, new_line as nat),
                                    );
                                }
                                errors.push(e);
                                proof {
                                    assert(errors@ =~= es0.push(e));
                                }
                            },
                        }
                        current = pos;
                        line = new_line;
                    } else if '0' <= c && c <= '9' {
                        let (res, pos) = scan_number(&self.source, n, current, line);
                        proof {
                            lemma_digits_end_bounds(src, cur0 + 1);
                        }
                        match res {
                            Ok(tok) => {
                                proof {
                                    lemma_prepend_scan_token(
                                        tm0,
                                        es0,
                                        tok@,
                                        spec_scan_rest(src, pos as int, line0),
                                    );
                                }
                                tokens.push(tok);
                                proof {
                                    assert(tokens_model(tokens@) =~= tm0.push(tok@));
                                }
                            },
                            Err(e) => {
                                proof {
                                    lemma_prepend_scan_error(
                                        tm0,
                                        es0,
                                        e,
                                        spec_scan_rest(src, pos as int, line0),
                                    );
                                }
                                errors.push(e);
                                proof {
                                    assert(errors@ =~= es0.push(e));
                                }
                            },
                        }
                        current = pos;
                    } else if ('a' <= c && c <= 'z') || ('A' <= c && c <= 'Z') || c == '_' {
                        let (tok, pos) = scan_identifier(&self.source, n, current, line);
                        proof {
                            lemma_ident_end_bounds(src, cur0 + 1);
                            lemma_prepend_scan_token(
                                tm0,
                                es0,
                                tok@,
                                spec_scan_rest(src, pos as int, line0),
                            );
                        }
                        tokens.push(tok);
                        proof {
                            assert(tokens_model(tokens@) =~= tm0.push(tok@));
                        }
                        current = pos;
                    } else {
                        let e = ScanError { line, kind: ScanErrorKind::UnexpectedCharacter };
                        proof {
                            lemma_prepend_scan_error(
                                tm0,
                                es0,
                                e,
                                spec_scan_rest(src, cur0 + 1, line0),
                            );
                        }
                        errors.push(e);
                        proof {
                            assert(errors@ =~= es0.push(e));
                        }
                        current = current + 1;
                    }
                },
            }
        }
        let ghost tm0 = tokens_model(tokens@);
        let eof = Token::new(TokenType::EOF, String::new(), None, line);
        tokens.push(eof);
        proof {
            assert(tokens_model(tokens@) =~= tm0.push(eof@));
            assert(tm0 + seq![eof@] =~= tm0.push(eof@));
            assert(errors@ + Seq::<ScanError>::empty() =~= errors@);
        }
        (tokens, errors)
    }
}

} // verus!

