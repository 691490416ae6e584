use vstd::prelude::*;
use crate::error::{ParseError, ParseErrorKind};
use crate::expression::{expr_model, Expr, ExprModel};
use crate::statement::{stmt_model, stmts_model, Stmt, StmtModel};
use crate::scanner::tokens_model;
use crate::token::{SpecValue, Token, TokenModel, TokenType, Value};

verus! {

/// A well-formed token stream: it ends with the end-of-input token, which
/// appears nowhere else.  The scanner always produces such a stream.
pub open spec fn toks_wf(toks: Seq<TokenModel>) -> bool {
    &&& toks.len() >= 1
    &&& toks.last().kind == TokenType::EOF
    &&& forall|k: int| 0 <= k < toks.len() - 1 ==> (#[trigger] toks[k]).kind != TokenType::EOF
}

/// The token at a position; past the end, the final end-of-input token.
pub open spec fn tok_at(toks: Seq<TokenModel>, pos: int) -> TokenModel {
    if 0 <= pos < toks.len() {
        toks[pos]
    } else {
        toks.last()
    }
}

/// Restricts a next position to `lo ..= toks.len()`; every parsing step
/// lands there anyway (`lemma_parse_pos_bounds`), so this is only a
/// totality guard that lets each recursion visibly decrease.
pub open spec fn clamp_pos(len: int, lo: int, p: int) -> int {
    let low = if lo > len {
        len
    } else {
        lo
    };
    if p < low {
        low
    } else if p > len {
        len
    } else {
        p
    }
}

pub open spec fn pe(kind: ParseErrorKind, line: nat) -> ParseError {
    ParseError { line: line as usize, kind }
}

/// The outcome of parsing one expression: the tree or the error, and the
/// next position.
pub ghost struct PExpr {
    pub res: Result<ExprModel, ParseError>,
    pub pos: int,
}

/// The outcome of parsing one statement: the tree or the error that the
/// enclosing loop will recover from, the errors already recovered inside
/// (within nested blocks), and the next position.
pub ghost struct PStmt {
    pub res: Result<StmtModel, ParseError>,
    pub errs: Seq<ParseError>,
    pub pos: int,
}

/// The outcome of parsing a brace-delimited block body.
pub ghost struct PBlock {
    pub res: Result<Seq<StmtModel>, ParseError>,
    pub errs: Seq<ParseError>,
    pub pos: int,
}

/// The outcome of parsing a whole program: the statements that parsed, and
/// every error reported, in source order.
pub ghost struct PProgram {
    pub stmts: Seq<StmtModel>,
    pub errs: Seq<ParseError>,
    pub pos: int,
}

/// primary := NUMBER | STRING | "true" | "false" | "nil" | IDENTIFIER
///          | "(" expression ")"
#[verifier::opaque]
pub open spec fn sp_primary(toks: Seq<TokenModel>, pos: int) -> PExpr
    decreases toks.len() - pos, 0int,
    when toks_wf(toks) && 0 <= pos <= toks.len()
{
    let t = tok_at(toks, pos);
    if t.kind == TokenType::FALSE {
        PExpr { res: Ok(ExprModel::Literal(SpecValue::Bool(false))), pos: pos + 1 }
    } else if t.kind == TokenType::TRUE {
        PExpr { res: Ok(ExprModel::Literal(SpecValue::Bool(true))), pos: pos + 1 }
    } else if t.kind == TokenType::NIL {
        PExpr { res: Ok(ExprModel::Literal(SpecValue::Nil)), pos: pos + 1 }
    } else if t.kind == TokenType::NUMBER {
        match t.literal {
            Some(SpecValue::Num(n)) => PExpr {
                res: Ok(ExprModel::Literal(SpecValue::Num(n))),
                pos: pos + 1,
            },
            _ => PExpr { res: Err(pe(ParseErrorKind::ExpectExpression, t.line)), pos: pos + 1 },
        }
    } else if t.kind == TokenType::STRING {
        match t.literal {
            Some(SpecValue::Str(s)) => PExpr {
                res: Ok(ExprModel::Literal(SpecValue::Str(s))),
                pos: pos + 1,
            },
            _ => PExpr { res: Err(pe(ParseErrorKind::ExpectExpression, t.line)), pos: pos + 1 },
        }
    } else if t.kind == TokenType::LEFT_PAREN {
        let inner = sp_expression(toks, pos + 1);
        match inner.res {
            Ok(e) => {
                let after = tok_at(toks, inner.pos);
                if after.kind == TokenType::RIGHT_PAREN {
                    PExpr { res: Ok(ExprModel::Grouping(Box::new(e))), pos: inner.pos + 1 }
                } else {
                    PExpr {
                        res: Err(pe(ParseErrorKind::ExpectRightParenAfterExpression, after.line)),
                        pos: inner.pos,
                    }
                }
            },
            Err(e) => PExpr { res: Err(e), pos: inner.pos },
        }
    } else if t.kind == TokenType::IDENTIFIER {
        PExpr { res: Ok(ExprModel::Variable(t)), pos: pos + 1 }
    } else {
        PExpr { res: Err(pe(ParseErrorKind::ExpectExpression, t.line)), pos }
    }
}

/// unary := ("!" | "-") unary | primary
#[verifier::opaque]
pub open spec fn sp_unary(toks: Seq<TokenModel>, pos: int) -> PExpr
    decreases toks.len() - pos, 1int,
    when toks_wf(toks) && 0 <= pos <= toks.len()
{
    let t = tok_at(toks, pos);
    if t.kind == TokenType::BANG || t.kind == TokenType::MINUS {
        let inner = sp_unary(toks, pos + 1);
        match inner.res {
            Ok(e) => PExpr {
                res: Ok(ExprModel::Unary { operator: t, right: Box::new(e) }),
                pos: inner.pos,
            },
            Err(_) => inner,
        }
    } else {
        sp_primary(toks, pos)
    }
}

/// Folds further `*` or `/` operands onto a running left-hand tree.
#[verifier::opaque]
pub open spec fn sp_factor_tail(toks: Seq<TokenModel>, pos: int, left: ExprModel) -> PExpr
    decreases toks.len() - pos, 1int,
    when toks_wf(toks) && 0 <= pos <= toks.len()
{
    let t = tok_at(toks, pos);
    if t.kind == TokenType::SLASH || t.kind == TokenType::STAR {
        let right = sp_unary(toks, pos + 1);
        match right.res {
            Ok(e) => sp_factor_tail(
                toks,
                clamp_pos(toks.len() as int, pos + 1, right.pos),
                ExprModel::Binary { left: Box::new(left), operator: t, right: Box::new(e) },
            ),
            Err(_) => right,
        }
    } else {
        PExpr { res: Ok(left), pos }
    }
}

/// factor := unary (("*" | "/") unary)*, left-associative.
#[verifier::opaque]
pub open spec fn sp_factor(toks: Seq<TokenModel>, pos: int) -> PExpr
    decreases toks.len() - pos, 2int,
    when toks_wf(toks) && 0 <= pos <= toks.len()
{
    let first = sp_unary(toks, pos);
    match first.res {
        Ok(e) => sp_factor_tail(toks, clamp_pos(toks.len() as int, pos, first.pos), e),
        Err(_) => first,
    }
}

/// Folds further `+` or `-` operands onto a running left-hand tree.
#[verifier::opaque]
pub open spec fn sp_term_tail(toks: Seq<TokenModel>, pos: int, left: ExprModel) -> PExpr
    decreases toks.len() - pos, 3int,
    when toks_wf(toks) && 0 <= pos <= toks.len()
{
    let t = tok_at(toks, pos);
    if t.kind == TokenType::MINUS || t.kind == TokenType::PLUS {
        let right = sp_factor(toks, pos + 1);
        match right.res {
            Ok(e) => sp_term_tail(
                toks,
                clamp_pos(toks.len() as int, pos + 1, right.pos),
                ExprModel::Binary { left: Box::new(left), operator: t, right: Box::new(e) },
            ),
            Err(_) => right,
        }
    } else {
        PExpr { res: Ok(left), pos }
    }
}

/// term := factor (("+" | "-") factor)*, left-associative.
#[verifier::opaque]
pub open spec fn sp_term(toks: Seq<TokenModel>, pos: int) -> PExpr
    decreases toks.len() - pos, 4int,
    when toks_wf(toks) && 0 <= pos <= toks.len()
{
    let first = sp_factor(toks, pos);
    match first.res {
        Ok(e) => sp_term_tail(toks, clamp_pos(toks.len() as int, pos, first.pos), e),
        Err(_) => first,
    }
}

/// Folds further comparison operands onto a running left-hand tree.
#[verifier::opaque]
pub open spec fn sp_comparison_tail(toks: Seq<TokenModel>, pos: int, left: ExprModel) -> PExpr
    decreases toks.len() - pos, 5int,
    when toks_wf(toks) && 0 <= pos <= toks.len()
{
    let t = tok_at(toks, pos);
    if t.kind == TokenType::GREATER || t.kind == TokenType::GREATER_EQUAL || t.kind
        == TokenType::LESS || t.kind == TokenType::LESS_EQUAL {
        let right = sp_term(toks, pos + 1);
        match right.res {
            Ok(e) => sp_comparison_tail(
                toks,
                clamp_pos(toks.len() as int, pos + 1, right.pos),
                ExprModel::Binary { left: Box::new(left), operator: t, right: Box::new(e) },
            ),
            Err(_) => right,
        }
    } else {
        PExpr { res: Ok(left), pos }
    }
}

/// comparison := term ((">" | ">=" | "<" | "<=") term)*, left-associative.
#[verifier::opaque]
pub open spec fn sp_comparison(toks: Seq<TokenModel>, pos: int) -> PExpr
    decreases toks.len() - pos, 6int,
    when toks_wf(toks) && 0 <= pos <= toks.len()
{
    let first = sp_term(toks, pos);
    match first.res {
        Ok(e) => sp_comparison_tail(toks, clamp_pos(toks.len() as int, pos, first.pos), e),
        Err(_) => first,
    }
}

/// Folds further equality operands onto a running left-hand tree.
#[verifier::opaque]
pub open spec fn sp_equality_tail(toks: Seq<TokenModel>, pos: int, left: ExprModel) -> PExpr
    decreases toks.len() - pos, 7int,
    when toks_wf(toks) && 0 <= pos <= toks.len()
{
    let t = tok_at(toks, pos);
    if t.kind == TokenType::BANG_EQUAL || t.kind == TokenType::EQUAL_EQUAL {
        let right = sp_comparison(toks, pos + 1);
        match right.res {
            Ok(e) => sp_equality_tail(
                toks,
                clamp_pos(toks.len() as int, pos + 1, right.pos),
                ExprModel::Binary { left: Box::new(left), operator: t, right: Box::new(e) },
            ),
            Err(_) => right,
        }
    } else {
        PExpr { res: Ok(left), pos }
    }
}

/// equality := comparison (("==" | "!=") comparison)*, left-associative.
#[verifier::opaque]
pub open spec fn sp_equality(toks: Seq<TokenModel>, pos: int) -> PExpr
    decreases toks.len() - pos, 8int,
    when toks_wf(toks) && 0 <= pos <= toks.len()
{
    let first = sp_comparison(toks, pos);
    match first.res {
        Ok(e) => sp_equality_tail(toks, clamp_pos(toks.len() as int, pos, first.pos), e),
        Err(_) => first,
    }
}

/// assignment := equality ("=" assignment)?, right-associative; the parsed
/// left side must be a variable, checked after the right side parses, as a
/// syntactic condition rather than a grammar rule.
#[verifier::opaque]
pub open spec fn sp_assignment(toks: Seq<TokenModel>, pos: int) -> PExpr
    decreases toks.len() - pos, 9int,
    when toks_wf(toks) && 0 <= pos <= toks.len()
{
    let left = sp_equality(toks, pos);
    match left.res {
        Ok(e) => {
            let t = tok_at(toks, left.pos);
            if t.kind == TokenType::EQUAL && pos < toks.len() {
                let value = sp_assignment(
                    toks,
                    clamp_pos(toks.len() as int, pos + 1, left.pos + 1),
                );
                match value.res {
                    Ok(v) => match e {
                        ExprModel::Variable(name) => PExpr {
                            res: Ok(ExprModel::Assign { name, value: Box::new(v) }),
                            pos: value.pos,
                        },
                        _ => PExpr {
                            res: Err(pe(ParseErrorKind::InvalidAssignmentTarget, t.line)),
                            pos: value.pos,
                        },
                    },
                    Err(_) => value,
                }
            } else {
                left
            }
        },
        Err(_) => left,
    }
}

/// expression := assignment
#[verifier::opaque]
pub open spec fn sp_expression(toks: Seq<TokenModel>, pos: int) -> PExpr
    decreases toks.len() - pos, 10int,
    when toks_wf(toks) && 0 <= pos <= toks.len()
{
    sp_assignment(toks, pos)
}

/// A token kind that can start a new statement: a synchronization point for
/// panic-mode recovery.
pub open spec fn sync_start(k: TokenType) -> bool {
    k == TokenType::CLASS || k == TokenType::FUN || k == TokenType::VAR || k == TokenType::FOR
        || k == TokenType::IF || k == TokenType::WHILE || k == TokenType::PRINT || k
        == TokenType::RETURN
}

/// Panic-mode recovery: discards tokens until just past a semicolon or just
/// before a token that starts a new statement.
#[verifier::opaque]
pub open spec fn sp_synchronize(toks: Seq<TokenModel>, pos: int) -> int
    decreases toks.len() - pos, 0int,
    when toks_wf(toks) && 0 <= pos <= toks.len()
{
    if pos >= toks.len() {
        pos
    } else if pos > 0 && tok_at(toks, pos - 1).kind == TokenType::SEMICOLON {
        pos
    } else if tok_at(toks, pos).kind == TokenType::EOF {
        pos
    } else if sync_start(tok_at(toks, pos).kind) {
        pos
    } else {
        sp_synchronize(toks, pos + 1)
    }
}

/// "var" IDENTIFIER ("=" expression)? ";", entered with `pos` just past
/// the `var` keyword.
#[verifier::opaque]
pub open spec fn sp_var_declaration(toks: Seq<TokenModel>, pos: int) -> PStmt
    decreases toks.len() - pos, 11int,
    when toks_wf(toks) && 0 <= pos <= toks.len()
{
    let t = tok_at(toks, pos);
    if t.kind != TokenType::IDENTIFIER {
        PStmt { res: Err(pe(ParseErrorKind::ExpectVariableName, t.line)), errs: Seq::empty(), pos }
    } else {
        let name = t;
        if tok_at(toks, pos + 1).kind == TokenType::EQUAL {
            let init = sp_expression(toks, pos + 2);
            match init.res {
                Ok(e) => {
                    let after = tok_at(toks, init.pos);
                    if after.kind == TokenType::SEMICOLON {
                        PStmt {
                            res: Ok(StmtModel::Var(name, Some(e))),
                            errs: Seq::empty(),
                            pos: init.pos + 1,
                        }
                    } else {
                        PStmt {
                            res: Err(pe(ParseErrorKind::ExpectSemicolonAfterValue, after.line)),
                            errs: Seq::empty(),
                            pos: init.pos,
                        }
                    }
                },
                Err(e) => PStmt { res: Err(e), errs: Seq::empty(), pos: init.pos },
            }
        } else {
            let after = tok_at(toks, pos + 1);
            if after.kind == TokenType::SEMICOLON {
                PStmt { res: Ok(StmtModel::Var(name, None)), errs: Seq::empty(), pos: pos + 2 }
            } else {
                PStmt {
                    res: Err(pe(ParseErrorKind::ExpectSemicolonAfterValue, after.line)),
                    errs: Seq::empty(),
                    pos: pos + 1,
                }
            }
        }
    }
}

/// "print" expression ";", entered just past the `print` keyword.
#[verifier::opaque]
pub open spec fn sp_print_statement(toks: Seq<TokenModel>, pos: int) -> PStmt
    decreases toks.len() - pos, 11int,
    when toks_wf(toks) && 0 <= pos <= toks.len()
{
    let e = sp_expression(toks, pos);
    match e.res {
        Ok(value) => {
            let after = tok_at(toks, e.pos);
            if after.kind == TokenType::SEMICOLON {
                PStmt { res: Ok(StmtModel::Print(value)), errs: Seq::empty(), pos: e.pos + 1 }
            } else {
                PStmt {
                    res: Err(pe(ParseErrorKind::ExpectSemicolonAfterValue, after.line)),
                    errs: Seq::empty(),
                    pos: e.pos,
                }
            }
        },
        Err(er) => PStmt { res: Err(er), errs: Seq::empty(), pos: e.pos },
    }
}

/// expression ";"
#[verifier::opaque]
pub open spec fn sp_expr_statement(toks: Seq<TokenModel>, pos: int) -> PStmt
    decreases toks.len() - pos, 11int,
    when toks_wf(toks) && 0 <= pos <= toks.len()
{
    let e = sp_expression(toks, pos);
    match e.res {
        Ok(value) => {
            let after = tok_at(toks, e.pos);
            if after.kind == TokenType::SEMICOLON {
                PStmt { res: Ok(StmtModel::Expr(value)), errs: Seq::empty(), pos: e.pos + 1 }
            } else {
                PStmt {
                    res: Err(pe(ParseErrorKind::ExpectSemicolonAfterExpression, after.line)),
                    errs: Seq::empty(),
                    pos: e.pos,
                }
            }
        },
        Err(er) => PStmt { res: Err(er), errs: Seq::empty(), pos: e.pos },
    }
}

/// "(" expression ")" statement ("else" statement)?, entered just past the
/// `if` keyword.
#[verifier::opaque]
pub open spec fn sp_if_statement(toks: Seq<TokenModel>, pos: int) -> PStmt
    decreases toks.len() - pos, 11int,
    when toks_wf(toks) && 0 <= pos <= toks.len()
{
    let len = toks.len() as int;
    if tok_at(toks, pos).kind != TokenType::LEFT_PAREN {
        PStmt {
            res: Err(pe(ParseErrorKind::ExpectLeftParenAfterIf, tok_at(toks, pos).line)),
            errs: Seq::empty(),
            pos,
        }
    } else {
        let c = sp_expression(toks, pos + 1);
        match c.res {
            Err(e) => PStmt { res: Err(e), errs: Seq::empty(), pos: c.pos },
            Ok(cond) => {
                if tok_at(toks, c.pos).kind != TokenType::RIGHT_PAREN {
                    PStmt {
                        res: Err(
                            pe(
                                ParseErrorKind::ExpectRightParenAfterCondition,
                                tok_at(toks, c.pos).line,
                            ),
                        ),
                        errs: Seq::empty(),
                        pos: c.pos,
                    }
                } else {
                    let tb = sp_statement(toks, clamp_pos(len, pos + 2, c.pos + 1));
                    match tb.res {
                        Err(e) => PStmt { res: Err(e), errs: tb.errs, pos: tb.pos },
                        Ok(then_branch) => {
                            if tok_at(toks, tb.pos).kind == TokenType::ELSE {
                                let eb = sp_statement(toks, clamp_pos(len, pos + 3, tb.pos + 1));
                                match eb.res {
                                    Ok(else_branch) => PStmt {
                                        res: Ok(
                                            StmtModel::If {
                                                condition: cond,
                                                then_branch: Box::new(then_branch),
                                                else_branch: Some(Box::new(else_branch)),
                                            },
                                        ),
                                        errs: tb.errs + eb.errs,
                                        pos: eb.pos,
                                    },
                                    Err(e) => PStmt {
                                        res: Err(e),
                                        errs: tb.errs + eb.errs,
                                        pos: eb.pos,
                                    },
                                }
                            } else {
                                PStmt {
                                    res: Ok(
                                        StmtModel::If {
                                            condition: cond,
                                            then_branch: Box::new(then_branch),
                                            else_branch: None,
                                        },
                                    ),
                                    errs: tb.errs,
                                    pos: tb.pos,
                                }
                            }
                        },
                    }
                }
            },
        }
    }
}

/// "(" expression ")" statement, entered just past the `while` keyword.
#[verifier::opaque]
pub open spec fn sp_while_statement(toks: Seq<TokenModel>, pos: int) -> PStmt
    decreases toks.len() - pos, 11int,
    when toks_wf(toks) && 0 <= pos <= toks.len()
{
    let len = toks.len() as int;
    if tok_at(toks, pos).kind != TokenType::LEFT_PAREN {
        PStmt {
            res: Err(pe(ParseErrorKind::ExpectLeftParenAfterWhile, tok_at(toks, pos).line)),
            errs: Seq::empty(),
            pos,
        }
    } else {
        let c = sp_expression(toks, pos + 1);
        match c.res {
            Err(e) => PStmt { res: Err(e), errs: Seq::empty(), pos: c.pos },
            Ok(cond) => {
                if tok_at(toks, c.pos).kind != TokenType::RIGHT_PAREN {
                    PStmt {
                        res: Err(
                            pe(
                                ParseErrorKind::ExpectRightParenAfterCondition,
                                tok_at(toks, c.pos).line,
                            ),
                        ),
                        errs: Seq::empty(),
                        pos: c.pos,
                    }
                } else {
                    let body = sp_statement(toks, clamp_pos(len, pos + 2, c.pos + 1));
                    match body.res {
                        Ok(b) => PStmt {
                            res: Ok(StmtModel::While { condition: cond, body: Box::new(b) }),
                            errs: body.errs,
                            pos: body.pos,
                        },
                        Err(e) => PStmt { res: Err(e), errs: body.errs, pos: body.pos },
                    }
                }
            },
        }
    }
}

/// statement := "print" expression ";" | "{" declaration* "}"
///            | "if" "(" expression ")" statement ("else" statement)?
///            | "while" "(" expression ")" statement
///            | expression ";"
#[verifier::opaque]
pub open spec fn sp_statement(toks: Seq<TokenModel>, pos: int) -> PStmt
    decreases toks.len() - pos, 12int,
    when toks_wf(toks) && 0 <= pos <= toks.len()
{
    let t = tok_at(toks, pos);
    if t.kind == TokenType::PRINT {
        sp_print_statement(toks, pos + 1)
    } else if t.kind == TokenType::LEFT_BRACE {
        let b = sp_block(toks, pos + 1);
        match b.res {
            Ok(ss) => PStmt { res: Ok(StmtModel::Block(ss)), errs: b.errs, pos: b.pos },
            Err(e) => PStmt { res: Err(e), errs: b.errs, pos: b.pos },
        }
    } else if t.kind == TokenType::IF {
        sp_if_statement(toks, pos + 1)
    } else if t.kind == TokenType::WHILE {
        sp_while_statement(toks, pos + 1)
    } else {
        sp_expr_statement(toks, pos)
    }
}

/// declaration := "var" IDENTIFIER ("=" expression)? ";" | statement
#[verifier::opaque]
pub open spec fn sp_declaration(toks: Seq<TokenModel>, pos: int) -> PStmt
    decreases toks.len() - pos, 13int,
    when toks_wf(toks) && 0 <= pos <= toks.len()
{
    if tok_at(toks, pos).kind == TokenType::VAR {
        sp_var_declaration(toks, pos + 1)
    } else {
        sp_statement(toks, pos)
    }
}

/// The declarations of a block, until the closing brace; a declaration that
/// fails is reported, recovery skips to a statement boundary, and parsing
/// resumes, so one malformed statement costs only itself.  A missing `}` is
/// the block's own error.
#[verifier::opaque]
pub open spec fn sp_block(toks: Seq<TokenModel>, pos: int) -> PBlock
    decreases toks.len() - pos, 14int,
    when toks_wf(toks) && 0 <= pos <= toks.len()
{
    let len = toks.len() as int;
    let t = tok_at(toks, pos);
    if t.kind == TokenType::RIGHT_BRACE {
        PBlock { res: Ok(Seq::empty()), errs: Seq::empty(), pos: pos + 1 }
    } else if pos >= len || t.kind == TokenType::EOF {
        PBlock {
            res: Err(pe(ParseErrorKind::ExpectRightBraceAfterBlock, t.line)),
            errs: Seq::empty(),
            pos,
        }
    } else {
        let d = sp_declaration(toks, pos);
        match d.res {
            Ok(s) => {
                let rest = sp_block(toks, clamp_pos(len, pos + 1, d.pos));
                match rest.res {
                    Ok(ss) => PBlock {
                        res: Ok(seq![s] + ss),
                        errs: d.errs + rest.errs,
                        pos: rest.pos,
                    },
                    Err(e) => PBlock { res: Err(e), errs: d.errs + rest.errs, pos: rest.pos },
                }
            },
            Err(e) => {
                let sync = sp_synchronize(toks, clamp_pos(len, pos, d.pos));
                let next = if sync <= pos {
                    pos + 1
                } else {
                    sync
                };
                let rest = sp_block(toks, clamp_pos(len, pos + 1, next));
                PBlock {
                    res: rest.res,
                    errs: d.errs + seq![e] + rest.errs,
                    pos: rest.pos,
                }
            },
        }
    }
}

/// program := declaration* EOF, with panic-mode recovery after each failed
/// declaration.
#[verifier::opaque]
pub open spec fn sp_parse(toks: Seq<TokenModel>, pos: int) -> PProgram
    decreases toks.len() - pos, 15int,
    when toks_wf(toks) && 0 <= pos <= toks.len()
{
    let len = toks.len() as int;
    if pos >= len || tok_at(toks, pos).kind == TokenType::EOF {
        PProgram { stmts: Seq::empty(), errs: Seq::empty(), pos }
    } else {
        let d = sp_declaration(toks, pos);
        match d.res {
            Ok(s) => {
                let rest = sp_parse(toks, clamp_pos(len, pos + 1, d.pos));
                PProgram {
                    stmts: seq![s] + rest.stmts,
                    errs: d.errs + rest.errs,
                    pos: rest.pos,
                }
            },
            Err(e) => {
                let sync = sp_synchronize(toks, clamp_pos(len, pos, d.pos));
                let next = if sync <= pos {
                    pos + 1
                } else {
                    sync
                };
                let rest = sp_parse(toks, clamp_pos(len, pos + 1, next));
                PProgram {
                    stmts: rest.stmts,
                    errs: d.errs + seq![e] + rest.errs,
                    pos: rest.pos,
                }
            },
        }
    }
}

/// Every parsing step lands between where it started and the final
/// end-of-input token, so the totality clamps above never bite.
#[verifier::rlimit(100)]
#[verifier::spinoff_prover]
pub proof fn lemma_primary_bounds(toks: Seq<TokenModel>, pos: int)
    requires
        toks_wf(toks),
        0 <= pos < toks.len(),
    ensures
        pos <= sp_primary(toks, pos).pos < toks.len(),
    decreases toks.len() - pos, 0int,
{
    reveal_with_fuel(sp_primary, 1);
    let t = tok_at(toks, pos);
    if t.kind == TokenType::LEFT_PAREN {
        assert(pos < toks.len() - 1);
        lemma_expression_bounds(toks, pos + 1);
    } else if t.kind != TokenType::FALSE && t.kind != TokenType::TRUE && t.kind != TokenType::NIL
        && t.kind != TokenType::NUMBER && t.kind != TokenType::STRING && t.kind
        != TokenType::IDENTIFIER {
    } else {
        assert(t.kind != TokenType::EOF);
        assert(pos < toks.len() - 1);
    }
}

#[verifier::rlimit(100)]
#[verifier::spinoff_prover]
pub proof fn lemma_unary_bounds(toks: Seq<TokenModel>, pos: int)
    requires
        toks_wf(toks),
        0 <= pos < toks.len(),
    ensures
        pos <= sp_unary(toks, pos).pos < toks.len(),
    decreases toks.len() - pos, 1int,
{
    reveal_with_fuel(sp_unary, 1);
    let t = tok_at(toks, pos);
    if t.kind == TokenType::BANG || t.kind == TokenType::MINUS {
        assert(pos < toks.len() - 1);
        lemma_unary_bounds(toks, pos + 1);
    } else {
        lemma_primary_bounds(toks, pos);
    }
}

#[verifier::rlimit(100)]
#[verifier::spinoff_prover]
pub proof fn lemma_factor_tail_bounds(toks: Seq<TokenModel>, pos: int, left: ExprModel)
    requires
        toks_wf(toks),
        0 <= pos < toks.len(),
    ensures
        pos <= sp_factor_tail(toks, pos, left).pos < toks.len(),
    decreases toks.len() - pos, 1int,
{
    reveal_with_fuel(sp_factor_tail, 1);
    let t = tok_at(toks, pos);
    if t.kind == TokenType::SLASH || t.kind == TokenType::STAR {
        assert(pos < toks.len() - 1);
        lemma_unary_bounds(toks, pos + 1);
        let right = sp_unary(toks, pos + 1);
        if right.res is Ok {
            lemma_factor_tail_bounds(
                toks,
                clamp_pos(toks.len() as int, pos + 1, right.pos),
                ExprModel::Binary {
                    left: Box::new(left),
                    operator: t,
                    right: Box::new(right.res->Ok_0),
                },
            );
        }
    }
}

#[verifier::rlimit(100)]
#[verifier::spinoff_prover]
pub proof fn lemma_factor_bounds(toks: Seq<TokenModel>, pos: int)
    requires
        toks_wf(toks),
        0 <= pos < toks.len(),
    ensures
        pos <= sp_factor(toks, pos).pos < toks.len(),
    decreases toks.len() - pos, 2int,
{
    reveal_with_fuel(sp_factor, 1);
    lemma_unary_bounds(toks, pos);
    let first = sp_unary(toks, pos);
    if first.res is Ok {
        lemma_factor_tail_bounds(
            toks,
            clamp_pos(toks.len() as int, pos, first.pos),
            first.res->Ok_0,
        );
    }
}

#[verifier::rlimit(100)]
#[verifier::spinoff_prover]
pub proof fn lemma_term_tail_bounds(toks: Seq<TokenModel>, pos: int, left: ExprModel)
    requires
        toks_wf(toks),
        0 <= pos < toks.len(),
    ensures
        pos <= sp_term_tail(toks, pos, left).pos < toks.len(),
    decreases toks.len() - pos, 3int,
{
    reveal_with_fuel(sp_term_tail, 1);
    let t = tok_at(toks, pos);
    if t.kind == TokenType::MINUS || t.kind == TokenType::PLUS {
        assert(pos < toks.len() - 1);
        lemma_factor_bounds(toks, pos + 1);
        let right = sp_factor(toks, pos + 1);
        if right.res is Ok {
            lemma_term_tail_bounds(
                toks,
                clamp_pos(toks.len() as int, pos + 1, right.pos),
                ExprModel::Binary {
                    left: Box::new(left),
                    operator: t,
                    right: Box::new(right.res->Ok_0),
                },
            );
        }
    }
}

#[verifier::rlimit(100)]
#[verifier::spinoff_prover]
pub proof fn lemma_term_bounds(toks: Seq<TokenModel>, pos: int)
    requires
        toks_wf(toks),
        0 <= pos < toks.len(),
    ensures
        pos <= sp_term(toks, pos).pos < toks.len(),
    decreases toks.len() - pos, 4int,
{
    reveal_with_fuel(sp_term, 1);
    lemma_factor_bounds(toks, pos);
    let first = sp_factor(toks, pos);
    if first.res is Ok {
        lemma_term_tail_bounds(toks, clamp_pos(toks.len() as int, pos, first.pos), first.res->Ok_0);
    }
}

#[verifier::rlimit(100)]
#[verifier::spinoff_prover]
pub proof fn lemma_comparison_tail_bounds(toks: Seq<TokenModel>, pos: int, left: ExprModel)
    requires
        toks_wf(toks),
        0 <= pos < toks.len(),
    ensures
        pos <= sp_comparison_tail(toks, pos, left).pos < toks.len(),
    decreases toks.len() - pos, 5int,
{
    reveal_with_fuel(sp_comparison_tail, 1);
    let t = tok_at(toks, pos);
    if t.kind == TokenType::GREATER || t.kind == TokenType::GREATER_EQUAL || t.kind
        == TokenType::LESS || t.kind == TokenType::LESS_EQUAL {
        assert(pos < toks.len() - 1);
        lemma_term_bounds(toks, pos + 1);
        let right = sp_term(toks, pos + 1);
        if right.res is Ok {
            lemma_comparison_tail_bounds(
                toks,
                clamp_pos(toks.len() as int, pos + 1, right.pos),
                ExprModel::Binary {
                    left: Box::new(left),
                    operator: t,
                    right: Box::new(right.res->Ok_0),
                },
            );
        }
    }
}

#[verifier::rlimit(100)]
#[verifier::spinoff_prover]
pub proof fn lemma_comparison_bounds(toks: Seq<TokenModel>, pos: int)
    requires
        toks_wf(toks),
        0 <= pos < toks.len(),
    ensures
        pos <= sp_comparison(toks, pos).pos < toks.len(),
    decreases toks.len() - pos, 6int,
{
    reveal_with_fuel(sp_comparison, 1);
    lemma_term_bounds(toks, pos);
    let first = sp_term(toks, pos);
    if first.res is Ok {
        lemma_comparison_tail_bounds(
            toks,
            clamp_pos(toks.len() as int, pos, first.pos),
            first.res->Ok_0,
        );
    }
}

#[verifier::rlimit(100)]
#[verifier::spinoff_prover]
pub proof fn lemma_equality_tail_bounds(toks: Seq<TokenModel>, pos: int, left: ExprModel)
    requires
        toks_wf(toks),
        0 <= pos < toks.len(),
    ensures
        pos <= sp_equality_tail(toks, pos, left).pos < toks.len(),
    decreases toks.len() - pos, 7int,
{
    reveal_with_fuel(sp_equality_tail, 1);
    let t = tok_at(toks, pos);
    if t.kind == TokenType::BANG_EQUAL || t.kind == TokenType::EQUAL_EQUAL {
        assert(pos < toks.len() - 1);
        lemma_comparison_bounds(toks, pos + 1);
        let right = sp_comparison(toks, pos + 1);
        if right.res is Ok {
            lemma_equality_tail_bounds(
                toks,
                clamp_pos(toks.len() as int, pos + 1, right.pos),
                ExprModel::Binary {
                    left: Box::new(left),
                    operator: t,
                    right: Box::new(right.res->Ok_0),
                },
            );
        }
    }
}

#[verifier::rlimit(100)]
#[verifier::spinoff_prover]
pub proof fn lemma_equality_bounds(toks: Seq<TokenModel>, pos: int)
    requires
        toks_wf(toks),
        0 <= pos < toks.len(),
    ensures
        pos <= sp_equality(toks, pos).pos < toks.len(),
    decreases toks.len() - pos, 8int,
{
    reveal_with_fuel(sp_equality, 1);
    lemma_comparison_bounds(toks, pos);
    let first = sp_comparison(toks, pos);
    if first.res is Ok {
        lemma_equality_tail_bounds(
            toks,
            clamp_pos(toks.len() as int, pos, first.pos),
            first.res->Ok_0,
        );
    }
}

#[verifier::rlimit(100)]
#[verifier::spinoff_prover]
pub proof fn lemma_assignment_bounds(toks: Seq<TokenModel>, pos: int)
    requires
        toks_wf(toks),
        0 <= pos < toks.len(),
    ensures
        pos <= sp_assignment(toks, pos).pos < toks.len(),
    decreases toks.len() - pos, 9int,
{
    reveal_with_fuel(sp_assignment, 1);
    lemma_equality_bounds(toks, pos);
    let left = sp_equality(toks, pos);
    if left.res is Ok {
        let t = tok_at(toks, left.pos);
        if t.kind == TokenType::EQUAL && pos < toks.len() {
            assert(left.pos < toks.len() - 1);
            lemma_assignment_bounds(toks, clamp_pos(toks.len() as int, pos + 1, left.pos + 1));
        }
    }
}

#[verifier::rlimit(100)]
#[verifier::spinoff_prover]
pub proof fn lemma_expression_bounds(toks: Seq<TokenModel>, pos: int)
    requires
        toks_wf(toks),
        0 <= pos < toks.len(),
    ensures
        pos <= sp_expression(toks, pos).pos < toks.len(),
    decreases toks.len() - pos, 10int,
{
    reveal_with_fuel(sp_expression, 1);
    lemma_assignment_bounds(toks, pos);
}

#[verifier::rlimit(100)]
#[verifier::spinoff_prover]
pub proof fn lemma_synchronize_bounds(toks: Seq<TokenModel>, pos: int)
    requires
        toks_wf(toks),
        0 <= pos < toks.len(),
    ensures
        pos <= sp_synchronize(toks, pos) < toks.len(),
    decreases toks.len() - pos, 0int,
{
    reveal_with_fuel(sp_synchronize, 1);
    if !(pos > 0 && tok_at(toks, pos - 1).kind == TokenType::SEMICOLON) && tok_at(toks, pos).kind
        != TokenType::EOF && !sync_start(tok_at(toks, pos).kind) {
        assert(pos < toks.len() - 1);
        lemma_synchronize_bounds(toks, pos + 1);
    }
}

#[verifier::rlimit(100)]
#[verifier::spinoff_prover]
pub proof fn lemma_var_declaration_bounds(toks: Seq<TokenModel>, pos: int)
    requires
        toks_wf(toks),
        0 <= pos < toks.len(),
    ensures
        pos <= sp_var_declaration(toks, pos).pos < toks.len(),
    decreases toks.len() - pos, 11int,
{
    reveal_with_fuel(sp_var_declaration, 1);
    let t = tok_at(toks, pos);
    if t.kind == TokenType::IDENTIFIER {
        assert(pos < toks.len() - 1);
        if tok_at(toks, pos + 1).kind == TokenType::EQUAL {
            assert(pos + 1 < toks.len() - 1);
            lemma_expression_bounds(toks, pos + 2);
            let init = sp_expression(toks, pos + 2);
            if init.res is Ok && tok_at(toks, init.pos).kind == TokenType::SEMICOLON {
                assert(init.pos < toks.len() - 1);
            }
        } else {
            if tok_at(toks, pos + 1).kind == TokenType::SEMICOLON {
                assert(pos + 1 < toks.len() - 1);
            }
        }
    }
}

#[verifier::rlimit(100)]
#[verifier::spinoff_prover]
pub proof fn lemma_print_statement_bounds(toks: Seq<TokenModel>, pos: int)
    requires
        toks_wf(toks),
        0 <= pos < toks.len(),
    ensures
        pos <= sp_print_statement(toks, pos).pos < toks.len(),
    decreases toks.len() - pos, 11int,
{
    reveal_with_fuel(sp_print_statement, 1);
    lemma_expression_bounds(toks, pos);
    let e = sp_expression(toks, pos);
    if e.res is Ok && tok_at(toks, e.pos).kind == TokenType::SEMICOLON {
        assert(e.pos < toks.len() - 1);
    }
}

#[verifier::rlimit(100)]
#[verifier::spinoff_prover]
pub proof fn lemma_expr_statement_bounds(toks: Seq<TokenModel>, pos: int)
    requires
        toks_wf(toks),
        0 <= pos < toks.len(),
    ensures
        pos <= sp_expr_statement(toks, pos).pos < toks.len(),
    decreases toks.len() - pos, 11int,
{
    reveal_with_fuel(sp_expr_statement, 1);
    lemma_expression_bounds(toks, pos);
    let e = sp_expression(toks, pos);
    if e.res is Ok && tok_at(toks, e.pos).kind == TokenType::SEMICOLON {
        assert(e.pos < toks.len() - 1);
    }
}

#[verifier::rlimit(100)]
#[verifier::spinoff_prover]
pub proof fn lemma_if_statement_bounds(toks: Seq<TokenModel>, pos: int)
    requires
        toks_wf(toks),
        0 <= pos < toks.len(),
    ensures
        pos <= sp_if_statement(toks, pos).pos < toks.len(),
    decreases toks.len() - pos, 11int,
{
    reveal_with_fuel(sp_if_statement, 1);
    let len = toks.len() as int;
    if tok_at(toks, pos).kind == TokenType::LEFT_PAREN {
        assert(pos < len - 1);
        lemma_expression_bounds(toks, pos + 1);
        let c = sp_expression(toks, pos + 1);
        if c.res is Ok && tok_at(toks, c.pos).kind == TokenType::RIGHT_PAREN {
            assert(c.pos < len - 1);
            lemma_statement_bounds(toks, clamp_pos(len, pos + 2, c.pos + 1));
            let tb = sp_statement(toks, clamp_pos(len, pos + 2, c.pos + 1));
            if tb.res is Ok && tok_at(toks, tb.pos).kind == TokenType::ELSE {
                assert(tb.pos < len - 1);
                lemma_statement_bounds(toks, clamp_pos(len, pos + 3, tb.pos + 1));
            }
        }
    }
}

#[verifier::rlimit(100)]
#[verifier::spinoff_prover]
pub proof fn lemma_while_statement_bounds(toks: Seq<TokenModel>, pos: int)
    requires
        toks_wf(toks),
        0 <= pos < toks.len(),
    ensures
        pos <= sp_while_statement(toks, pos).pos < toks.len(),
    decreases toks.len() - pos, 11int,
{
    reveal_with_fuel(sp_while_statement, 1);
    let len = toks.len() as int;
    if tok_at(toks, pos).kind == TokenType::LEFT_PAREN {
        assert(pos < len - 1);
        lemma_expression_bounds(toks, pos + 1);
        let c = sp_expression(toks, pos + 1);
        if c.res is Ok && tok_at(toks, c.pos).kind == TokenType::RIGHT_PAREN {
            assert(c.pos < len - 1);
            lemma_statement_bounds(toks, clamp_pos(len, pos + 2, c.pos + 1));
        }
    }
}

#[verifier::rlimit(100)]
#[verifier::spinoff_prover]
pub proof fn lemma_statement_bounds(toks: Seq<TokenModel>, pos: int)
    requires
        toks_wf(toks),
        0 <= pos < toks.len(),
    ensures
        pos <= sp_statement(toks, pos).pos < toks.len(),
    decreases toks.len() - pos, 12int,
{
    reveal_with_fuel(sp_statement, 1);
    let t = tok_at(toks, pos);
    if t.kind == TokenType::PRINT {
        assert(pos < toks.len() - 1);
        lemma_print_statement_bounds(toks, pos + 1);
    } else if t.kind == TokenType::LEFT_BRACE {
        assert(pos < toks.len() - 1);
        lemma_block_bounds(toks, pos + 1);
    } else if t.kind == TokenType::IF {
        assert(pos < toks.len() - 1);
        lemma_if_statement_bounds(toks, pos + 1);
    } else if t.kind == TokenType::WHILE {
        assert(pos < toks.len() - 1);
        lemma_while_statement_bounds(toks, pos + 1);
    } else {
        lemma_expr_statement_bounds(toks, pos);
    }
}

#[verifier::rlimit(100)]
#[verifier::spinoff_prover]
pub proof fn lemma_declaration_bounds(toks: Seq<TokenModel>, pos: int)
    requires
        toks_wf(toks),
        0 <= pos < toks.len(),
    ensures
        pos <= sp_declaration(toks, pos).pos < toks.len(),
    decreases toks.len() - pos, 13int,
{
    reveal_with_fuel(sp_declaration, 1);
    if tok_at(toks, pos).kind == TokenType::VAR {
        assert(pos < toks.len() - 1);
        lemma_var_declaration_bounds(toks, pos + 1);
    } else {
        lemma_statement_bounds(toks, pos);
    }
}

#[verifier::rlimit(100)]
#[verifier::spinoff_prover]
pub proof fn lemma_block_bounds(toks: Seq<TokenModel>, pos: int)
    requires
        toks_wf(toks),
        0 <= pos < toks.len(),
    ensures
        pos <= sp_block(toks, pos).pos < toks.len(),
    decreases toks.len() - pos, 14int,
{
    reveal_with_fuel(sp_block, 2);
    let len = toks.len() as int;
    let t = tok_at(toks, pos);
    if t.kind == TokenType::RIGHT_BRACE {
        assert(pos < len - 1);
    } else if pos >= len || t.kind == TokenType::EOF {
    } else {
        lemma_declaration_bounds(toks, pos);
        let d = sp_declaration(toks, pos);
        assert(pos < len - 1);
        match d.res {
            Ok(_) => {
                lemma_block_bounds(toks, clamp_pos(len, pos + 1, d.pos));
            },
            Err(_) => {
                lemma_synchronize_bounds(toks, clamp_pos(len, pos, d.pos));
                let sync = sp_synchronize(toks, clamp_pos(len, pos, d.pos));
                let next = if sync <= pos {
                    pos + 1
                } else {
                    sync
                };
                lemma_block_bounds(toks, clamp_pos(len, pos + 1, next));
            },
        }
    }
}

/// The spec outcome an executable expression parse must match: same next
/// position, and the same tree or error.
pub open spec fn pexpr_matches(p: PExpr, r: Result<Box<Expr>, ParseError>, pos: int) -> bool {
    &&& p.pos == pos
    &&& match r {
        Ok(e) => p.res == Ok::<ExprModel, ParseError>(expr_model(*e)),
        Err(er) => p.res == Err::<ExprModel, ParseError>(er),
    }
}

/// The spec outcome an executable statement parse must match.
pub open spec fn pstmt_matches(p: PStmt, r: Result<Stmt, ParseError>, pos: int) -> bool {
    &&& p.pos == pos
    &&& match r {
        Ok(s) => p.res == Ok::<StmtModel, ParseError>(stmt_model(s)),
        Err(er) => p.res == Err::<StmtModel, ParseError>(er),
    }
}

pub open spec fn pblock_prepend(ss: Seq<StmtModel>, es: Seq<ParseError>, b: PBlock) -> PBlock {
    PBlock {
        res: match b.res {
            Ok(rest) => Ok(ss + rest),
            Err(e) => Err(e),
        },
        errs: es + b.errs,
        pos: b.pos,
    }
}

pub open spec fn pprogram_prepend(
    ss: Seq<StmtModel>,
    es: Seq<ParseError>,
    p: PProgram,
) -> PProgram {
    PProgram { stmts: ss + p.stmts, errs: es + p.errs, pos: p.pos }
}

proof fn lemma_pblock_prepend_empty(b: PBlock)
    ensures
        pblock_prepend(Seq::empty(), Seq::empty(), b) == b,
{
    match b.res {
        Ok(rest) => {
            assert(Seq::<StmtModel>::empty() + rest =~= rest);
        },
        Err(_) => {},
    }
    assert(Seq::<ParseError>::empty() + b.errs =~= b.errs);
}

proof fn lemma_pblock_prepend_concat(
    a: Seq<StmtModel>,
    e: Seq<ParseError>,
    a2: Seq<StmtModel>,
    e2: Seq<ParseError>,
    b: PBlock,
)
    ensures
        pblock_prepend(a, e, pblock_prepend(a2, e2, b)) == pblock_prepend(a + a2, e + e2, b),
{
    match b.res {
        Ok(rest) => {
            assert(a + (a2 + rest) =~= (a + a2) + rest);
        },
        Err(_) => {},
    }
    assert(e + (e2 + b.errs) =~= (e + e2) + b.errs);
}

proof fn lemma_pprogram_prepend_empty(p: PProgram)
    ensures
        pprogram_prepend(Seq::empty(), Seq::empty(), p) == p,
{
    assert(Seq::<StmtModel>::empty() + p.stmts =~= p.stmts);
    assert(Seq::<ParseError>::empty() + p.errs =~= p.errs);
}

proof fn lemma_pprogram_prepend_concat(
    a: Seq<StmtModel>,
    e: Seq<ParseError>,
    a2: Seq<StmtModel>,
    e2: Seq<ParseError>,
    p: PProgram,
)
    ensures
        pprogram_prepend(a, e, pprogram_prepend(a2, e2, p)) == pprogram_prepend(a + a2, e + e2, p),
{
    assert(a + (a2 + p.stmts) =~= (a + a2) + p.stmts);
    assert(e + (e2 + p.errs) =~= (e + e2) + p.errs);
}

#[verifier::rlimit(100)]
#[verifier::spinoff_prover]
pub proof fn lemma_parse_bounds(toks: Seq<TokenModel>, pos: int)
    requires
        toks_wf(toks),
        0 <= pos < toks.len(),
    ensures
        pos <= sp_parse(toks, pos).pos < toks.len(),
    decreases toks.len() - pos, 15int,
{
    reveal_with_fuel(sp_parse, 1);
    let len = toks.len() as int;
    if !(pos >= len || tok_at(toks, pos).kind == TokenType::EOF) {
        lemma_declaration_bounds(toks, pos);
        let d = sp_declaration(toks, pos);
        assert(pos < len - 1);
        match d.res {
            Ok(_) => {
                lemma_parse_bounds(toks, clamp_pos(len, pos + 1, d.pos));
            },
            Err(_) => {
                lemma_synchronize_bounds(toks, clamp_pos(len, pos, d.pos));
                let sync = sp_synchronize(toks, clamp_pos(len, pos, d.pos));
                let next = if sync <= pos {
                    pos + 1
                } else {
                    sync
                };
                lemma_parse_bounds(toks, clamp_pos(len, pos + 1, next));
            },
        }
    }
}

/// The recursive-descent parser: a token sequence, a cursor, and the errors
/// recovered from so far.
pub struct Parser {
    tokens: Vec<Token>,
    pos: usize,
    errors: Vec<ParseError>,
}

impl Parser {
    /// The models of the tokens held.
    pub closed spec fn toks(&self) -> Seq<TokenModel> {
        tokens_model(self.tokens@)
    }

    pub closed spec fn pos_model(&self) -> int {
        self.pos as int
    }

    pub closed spec fn errors_model(&self) -> Seq<ParseError> {
        self.errors@
    }

    pub open spec fn wf(&self) -> bool {
        &&& toks_wf(self.toks())
        &&& 0 <= self.pos_model() < self.toks().len()
    }

    pub fn new(tokens: Vec<Token>) -> (r: Parser)
        ensures
            r.toks() == tokens_model(tokens@),
            r.pos_model() == 0,
            r.errors_model() == Seq::<ParseError>::empty(),
    {
        let r = Parser { tokens, pos: 0, errors: Vec::new() };
        proof {
            assert(r.errors_model() =~= Seq::<ParseError>::empty());
        }
        r
    }

    /// The errors recovered from while parsing, in source order.
    pub fn errors(&self) -> (r: &Vec<ParseError>)
        ensures
            r@ == self.errors_model(),
    {
        &self.errors
    }

    fn peek_token(&self) -> (t: Token)
        requires
            self.toks().len() >= 1,
            0 <= self.pos_model() <= self.toks().len(),
        ensures
            t@ == tok_at(self.toks(), self.pos_model()),
    {
        proof {
            assert(self.toks().len() == self.tokens@.len());
        }
        if self.pos < self.tokens.len() {
            self.tokens[self.pos].clone()
        } else {
            self.tokens[self.tokens.len() - 1].clone()
        }
    }

    fn peek_kind(&self) -> (k: TokenType)
        requires
            self.toks().len() >= 1,
            0 <= self.pos_model() <= self.toks().len(),
        ensures
            k == tok_at(self.toks(), self.pos_model()).kind,
    {
        proof {
            assert(self.toks().len() == self.tokens@.len());
        }
        if self.pos < self.tokens.len() {
            self.tokens[self.pos].get_type()
        } else {
            self.tokens[self.tokens.len() - 1].get_type()
        }
    }

    fn check(&self, k: TokenType) -> (r: bool)
        requires
            self.toks().len() >= 1,
            0 <= self.pos_model() <= self.toks().len(),
        ensures
            r == (tok_at(self.toks(), self.pos_model()).kind == k),
    {
        self.peek_kind() == k
    }

    /// Advances past the current token.
    fn bump_pos(&mut self)
        requires
            old(self).pos_model() < old(self).toks().len(),
        ensures
            final(self).tokens@ == old(self).tokens@,
            final(self).toks() == old(self).toks(),
            final(self).errors_model() == old(self).errors_model(),
            final(self).pos_model() == old(self).pos_model() + 1,
    {
        proof {
            assert(self.toks().len() == self.tokens@.len());
        }
        let n: usize = self.tokens.len();
        proof {
            assert(self.pos < n);
        }
        self.pos = self.pos + 1;
    }

    /// primary := NUMBER | STRING | "true" | "false" | "nil" | IDENTIFIER
    ///          | "(" expression ")"
    #[verifier::rlimit(100)]
    #[verifier::spinoff_prover]
    fn primary(&mut self) -> (r: Result<Box<Expr>, ParseError>)
        requires
            old(self).wf(),
        ensures
            final(self).wf(),
            final(self).tokens@ == old(self).tokens@,
            final(self).toks() == old(self).toks(),
            final(self).errors_model() == old(self).errors_model(),
            pexpr_matches(
                sp_primary(old(self).toks(), old(self).pos_model()),
                r,
                final(self).pos_model(),
            ),
        decreases self.tokens@.len() - self.pos, 0int,
    {
        proof {
            reveal_with_fuel(sp_primary, 1);
            assert(self.pos < self.tokens.len());
            assert(self.toks().len() == self.tokens@.len());
            lemma_primary_bounds(self.toks(), self.pos_model());
        }
        let t = self.peek_token();
        match t.get_type() {
            TokenType::FALSE => {
                self.pos = self.pos + 1;
                Ok(Box::new(Expr::Literal(Value::Boolean(false))))
            },
            TokenType::TRUE => {
                self.pos = self.pos + 1;
                Ok(Box::new(Expr::Literal(Value::Boolean(true))))
            },
            TokenType::NIL => {
                self.pos = self.pos + 1;
                Ok(Box::new(Expr::Literal(Value::Nil)))
            },
            TokenType::NUMBER => {
                self.pos = self.pos + 1;
                let line = t.get_line();
                match t.get_literal() {
                    Some(Value::Number(n)) => Ok(Box::new(Expr::Literal(Value::Number(n)))),
                    _ => Err(ParseError { line, kind: ParseErrorKind::ExpectExpression }),
                }
            },
            TokenType::STRING => {
                self.pos = self.pos + 1;
                let line = t.get_line();
                match t.get_literal() {
                    Some(Value::String(sv)) => Ok(Box::new(Expr::Literal(Value::String(sv)))),
                    _ => Err(ParseError { line, kind: ParseErrorKind::ExpectExpression }),
                }
            },
            TokenType::LEFT_PAREN => {
                self.pos = self.pos + 1;
                match self.expression() {
                    Ok(e) => {
                        if self.check(TokenType::RIGHT_PAREN) {
                            self.pos = self.pos + 1;
                            Ok(Box::new(Expr::Grouping(e)))
                        } else {
                            let after = self.peek_token();
                            Err(
                                ParseError {
                                    line: after.get_line(),
                                    kind: ParseErrorKind::ExpectRightParenAfterExpression,
                                },
                            )
                        }
                    },
                    Err(er) => Err(er),
                }
            },
            TokenType::IDENTIFIER => {
                self.pos = self.pos + 1;
                Ok(Box::new(Expr::Variable(t)))
            },
            _ => Err(ParseError { line: t.get_line(), kind: ParseErrorKind::ExpectExpression }),
        }
    }

    /// unary := ("!" | "-") unary | primary
    #[verifier::rlimit(100)]
    #[verifier::spinoff_prover]
    fn unary(&mut self) -> (r: Result<Box<Expr>, ParseError>)
        requires
            old(self).wf(),
        ensures
            final(self).wf(),
            final(self).tokens@ == old(self).tokens@,
            final(self).toks() == old(self).toks(),
            final(self).errors_model() == old(self).errors_model(),
            pexpr_matches(
                sp_unary(old(self).toks(), old(self).pos_model()),
                r,
                final(self).pos_model(),
            ),
        decreases self.tokens@.len() - self.pos, 1int,
    {
        proof {
            reveal_with_fuel(sp_unary, 1);
            assert(self.pos < self.tokens.len());
            assert(self.toks().len() == self.tokens@.len());
            lemma_unary_bounds(self.toks(), self.pos_model());
        }
        let t = self.peek_token();
        let k = t.get_type();
        if k == TokenType::BANG || k == TokenType::MINUS {
            self.pos = self.pos + 1;
            match self.unary() {
                Ok(e) => Ok(Box::new(Expr::Unary { operator: t, right: e })),
                Err(er) => Err(er),
            }
        } else {
            self.primary()
        }
    }

    /// factor := unary (("*" | "/") unary)*, folding left.
    #[verifier::rlimit(100)]
    #[verifier::spinoff_prover]
    #[verifier::loop_isolation(false)]
    fn factor(&mut self) -> (r: Result<Box<Expr>, ParseError>)
        requires
            old(self).wf(),
        ensures
            final(self).wf(),
            final(self).tokens@ == old(self).tokens@,
            final(self).toks() == old(self).toks(),
            final(self).errors_model() == old(self).errors_model(),
            pexpr_matches(
                sp_factor(old(self).toks(), old(self).pos_model()),
                r,
                final(self).pos_model(),
            ),
        decreases self.tokens@.len() - self.pos, 2int,
    {
        let ghost toks0 = self.toks();
        let ghost pos0 = self.pos_model();
        proof {
            reveal_with_fuel(sp_factor, 1);
            reveal_with_fuel(sp_factor_tail, 1);
            assert(toks0.len() == self.tokens@.len());
            lemma_unary_bounds(toks0, pos0);
        }
        let mut expr: Box<Expr> = match self.unary() {
            Ok(e) => e,
            Err(er) => {
                return Err(er);
            },
        };
        while self.check(TokenType::SLASH) || self.check(TokenType::STAR)
            invariant
                self.wf(),
                self.tokens@ == old(self).tokens@,
                self.toks() == toks0,
                pos0 <= self.pos_model(),
                self.errors_model() == old(self).errors_model(),
                sp_factor_tail(toks0, self.pos_model(), expr_model(*expr)) == sp_factor(
                    toks0,
                    pos0,
                ),
            decreases self.tokens@.len() - self.pos,
        {
            let ghost cur = self.pos_model();
            proof {
                assert(self.pos < self.tokens.len());
                assert(toks0.len() == self.tokens@.len());
            }
            let op = self.peek_token();
            self.pos = self.pos + 1;
            proof {
                lemma_unary_bounds(toks0, cur + 1);
            }
            let right = match self.unary() {
                Ok(e) => e,
                Err(er) => {
                    return Err(er);
                },
            };
            expr = Box::new(Expr::Binary { left: expr, operator: op, right });
        }
        Ok(expr)
    }

    /// term := factor (("+" | "-") factor)*, folding left.
    #[verifier::rlimit(100)]
    #[verifier::spinoff_prover]
    #[verifier::loop_isolation(false)]
    fn term(&mut self) -> (r: Result<Box<Expr>, ParseError>)
        requires
            old(self).wf(),
        ensures
            final(self).wf(),
            final(self).tokens@ == old(self).tokens@,
            final(self).toks() == old(self).toks(),
            final(self).errors_model() == old(self).errors_model(),
            pexpr_matches(
                sp_term(old(self).toks(), old(self).pos_model()),
                r,
                final(self).pos_model(),
            ),
        decreases self.tokens@.len() - self.pos, 4int,
    {
        let ghost toks0 = self.toks();
        let ghost pos0 = self.pos_model();
        proof {
            reveal_with_fuel(sp_term, 1);
            reveal_with_fuel(sp_term_tail, 1);
            assert(toks0.len() == self.tokens@.len());
            lemma_factor_bounds(toks0, pos0);
        }
        let mut expr: Box<Expr> = match self.factor() {
            Ok(e) => e,
            Err(er) => {
                return Err(er);
            },
        };
        while self.check(TokenType::MINUS) || self.check(TokenType::PLUS)
            invariant
                self.wf(),
                self.tokens@ == old(self).tokens@,
                self.toks() == toks0,
                pos0 <= self.pos_model(),
                self.errors_model() == old(self).errors_model(),
                sp_term_tail(toks0, self.pos_model(), expr_model(*expr)) == sp_term(toks0, pos0),
            decreases self.tokens@.len() - self.pos,
        {
            let ghost cur = self.pos_model();
            proof {
                assert(self.pos < self.tokens.len());
                assert(toks0.len() == self.tokens@.len());
            }
            let op = self.peek_token();
            self.pos = self.pos + 1;
            proof {
                lemma_factor_bounds(toks0, cur + 1);
            }
            let right = match self.factor() {
                Ok(e) => e,
                Err(er) => {
                    return Err(er);
                },
            };
            expr = Box::new(Expr::Binary { left: expr, operator: op, right });
        }
        Ok(expr)
    }

    /// comparison := term ((">" | ">=" | "<" | "<=") term)*, folding left.
    #[verifier::rlimit(100)]
    #[verifier::spinoff_prover]
    #[verifier::loop_isolation(false)]
    fn comparison(&mut self) -> (r: Result<Box<Expr>, ParseError>)
        requires
            old(self).wf(),
        ensures
            final(self).wf(),
            final(self).tokens@ == old(self).tokens@,
            final(self).toks() == old(self).toks(),
            final(self).errors_model() == old(self).errors_model(),
            pexpr_matches(
                sp_comparison(old(self).toks(), old(self).pos_model()),
                r,
                final(self).pos_model(),
            ),
        decreases self.tokens@.len() - self.pos, 6int,
    {
        let ghost toks0 = self.toks();
        let ghost pos0 = self.pos_model();
        proof {
            reveal_with_fuel(sp_comparison, 1);
            reveal_with_fuel(sp_comparison_tail, 1);
            assert(toks0.len() == self.tokens@.len());
            lemma_term_bounds(toks0, pos0);
        }
        let mut expr: Box<Expr> = match self.term() {
            Ok(e) => e,
            Err(er) => {
                return Err(er);
            },
        };
        while self.check(TokenType::GREATER) || self.check(TokenType::GREATER_EQUAL) || self.check(
            TokenType::LESS,
        ) || self.check(TokenType::LESS_EQUAL)
            invariant
                self.wf(),
                self.tokens@ == old(self).tokens@,
                self.toks() == toks0,
                pos0 <= self.pos_model(),
                self.errors_model() == old(self).errors_model(),
                sp_comparison_tail(toks0, self.pos_model(), expr_model(*expr)) == sp_comparison(
                    toks0,
                    pos0,
                ),
            decreases self.tokens@.len() - self.pos,
        {
            let ghost cur = self.pos_model();
            proof {
                assert(self.pos < self.tokens.len());
                assert(toks0.len() == self.tokens@.len());
            }
            let op = self.peek_token();
            self.pos = self.pos + 1;
            proof {
                lemma_term_bounds(toks0, cur + 1);
            }
            let right = match self.term() {
                Ok(e) => e,
                Err(er) => {
                    return Err(er);
                },
            };
            expr = Box::new(Expr::Binary { left: expr, operator: op, right });
        }
        Ok(expr)
    }

    /// equality := comparison (("==" | "!=") comparison)*, folding left.
    #[verifier::rlimit(100)]
    #[verifier::spinoff_prover]
    #[verifier::loop_isolation(false)]
    fn equality(&mut self) -> (r: Result<Box<Expr>, ParseError>)
        requires
            old(self).wf(),
        ensures
            final(self).wf(),
            final(self).tokens@ == old(self).tokens@,
            final(self).toks() == old(self).toks(),
            final(self).errors_model() == old(self).errors_model(),
            pexpr_matches(
                sp_equality(old(self).toks(), old(self).pos_model()),
                r,
                final(self).pos_model(),
            ),
        decreases self.tokens@.len() - self.pos, 8int,
    {
        let ghost toks0 = self.toks();
        let ghost pos0 = self.pos_model();
        proof {
            reveal_with_fuel(sp_equality, 1);
            reveal_with_fuel(sp_equality_tail, 1);
            assert(toks0.len() == self.tokens@.len());
            lemma_comparison_bounds(toks0, pos0);
        }
        let mut expr: Box<Expr> = match self.comparison() {
            Ok(e) => e,
            Err(er) => {
                return Err(er);
            },
        };
        while self.check(TokenType::BANG_EQUAL) || self.check(TokenType::EQUAL_EQUAL)
            invariant
                self.wf(),
                self.tokens@ == old(self).tokens@,
                self.toks() == toks0,
                pos0 <= self.pos_model(),
                self.errors_model() == old(self).errors_model(),
                sp_equality_tail(toks0, self.pos_model(), expr_model(*expr)) == sp_equality(
                    toks0,
                    pos0,
                ),
            decreases self.tokens@.len() - self.pos,
        {
            let ghost cur = self.pos_model();
            proof {
                assert(self.pos < self.tokens.len());
                assert(toks0.len() == self.tokens@.len());
            }
            let op = self.peek_token();
            self.pos = self.pos + 1;
            proof {
                lemma_comparison_bounds(toks0, cur + 1);
            }
            let right = match self.comparison() {
                Ok(e) => e,
                Err(er) => {
                    return Err(er);
                },
            };
            expr = Box::new(Expr::Binary { left: expr, operator: op, right });
        }
        Ok(expr)
    }

    /// assignment := equality ("=" assignment)?, right-associative; the left
    /// side must have parsed to a variable.
    #[verifier::rlimit(100)]
    #[verifier::spinoff_prover]
    fn assignment(&mut self) -> (r: Result<Box<Expr>, ParseError>)
        requires
            old(self).wf(),
        ensures
            final(self).wf(),
            final(self).tokens@ == old(self).tokens@,
            final(self).toks() == old(self).toks(),
            final(self).errors_model() == old(self).errors_model(),
            pexpr_matches(
                sp_assignment(old(self).toks(), old(self).pos_model()),
                r,
                final(self).pos_model(),
            ),
        decreases self.tokens@.len() - self.pos, 9int,
    {
        let ghost toks0 = self.toks();
        let ghost pos0 = self.pos_model();
        proof {
            reveal_with_fuel(sp_assignment, 1);
            assert(toks0.len() == self.tokens@.len());
            lemma_equality_bounds(toks0, pos0);
        }
        let expr: Box<Expr> = match self.equality() {
            Ok(e) => e,
            Err(er) => {
                return Err(er);
            },
        };
        if self.check(TokenType::EQUAL) {
            let equals = self.peek_token();
            proof {
                assert(self.pos < self.tokens.len());
            }
            self.pos = self.pos + 1;
            proof {
                lemma_assignment_bounds(toks0, self.pos_model());
            }
            let value = match self.assignment() {
                Ok(v) => v,
                Err(er) => {
                    return Err(er);
                },
            };
            match *expr {
                Expr::Variable(name) => Ok(Box::new(Expr::Assign { name, value })),
                _ => Err(
                    ParseError {
                        line: equals.get_line(),
                        kind: ParseErrorKind::InvalidAssignmentTarget,
                    },
                ),
            }
        } else {
            Ok(expr)
        }
    }

    /// expression := assignment
    #[verifier::rlimit(100)]
    #[verifier::spinoff_prover]
    fn expression(&mut self) -> (r: Result<Box<Expr>, ParseError>)
        requires
            old(self).wf(),
        ensures
            final(self).wf(),
            final(self).tokens@ == old(self).tokens@,
            final(self).toks() == old(self).toks(),
            final(self).errors_model() == old(self).errors_model(),
            pexpr_matches(
                sp_expression(old(self).toks(), old(self).pos_model()),
                r,
                final(self).pos_model(),
            ),
        decreases self.tokens@.len() - self.pos, 10int,
    {
        proof {
            reveal_with_fuel(sp_expression, 1);
        }
        self.assignment()
    }

    /// Panic-mode recovery: discards tokens until a statement boundary.
    #[verifier::rlimit(100)]
    #[verifier::spinoff_prover]
    #[verifier::loop_isolation(false)]
    fn synchronize(&mut self)
        requires
            old(self).wf(),
        ensures
            final(self).wf(),
            final(self).tokens@ == old(self).tokens@,
            final(self).toks() == old(self).toks(),
            final(self).errors_model() == old(self).errors_model(),
            final(self).pos_model() == sp_synchronize(old(self).toks(), old(self).pos_model()),
        decreases self.tokens@.len() - self.pos, 0int,
    {
        let ghost toks0 = self.toks();
        let ghost pos0 = self.pos_model();
        proof {
            lemma_synchronize_bounds(toks0, pos0);
        }
        loop
            invariant
                self.wf(),
                self.tokens@ == old(self).tokens@,
                self.toks() == toks0,
                self.errors_model() == old(self).errors_model(),
                pos0 <= self.pos_model(),
                sp_synchronize(toks0, pos0) == sp_synchronize(toks0, self.pos_model()),
            decreases self.tokens@.len() - self.pos,
        {
            proof {
                reveal_with_fuel(sp_synchronize, 1);
                assert(toks0.len() == self.tokens@.len());
            }
            if self.pos > 0 {
                let prev = self.tokens[self.pos - 1].get_type();
                if prev == TokenType::SEMICOLON {
                    return ;
                }
            }
            let k = self.peek_kind();
            if k == TokenType::EOF {
                return ;
            }
            if matches!(
                k,
                TokenType::CLASS | TokenType::FUN | TokenType::VAR | TokenType::FOR | TokenType::IF
                    | TokenType::WHILE | TokenType::PRINT | TokenType::RETURN
            ) {
                return ;
            }
            proof {
                assert(tok_at(toks0, self.pos_model()).kind != TokenType::EOF);
                assert(self.pos_model() < toks0.len() - 1);
            }
            self.bump_pos();
        }
    }

    /// "var" IDENTIFIER ("=" expression)? ";", entered just past `var`.
    #[verifier::rlimit(100)]
    #[verifier::spinoff_prover]
    fn var_declaration(&mut self) -> (r: Result<Stmt, ParseError>)
        requires
            old(self).wf(),
        ensures
            final(self).wf(),
            final(self).tokens@ == old(self).tokens@,
            final(self).toks() == old(self).toks(),
            final(self).errors_model() == old(self).errors_model(),
            pstmt_matches(
                sp_var_declaration(old(self).toks(), old(self).pos_model()),
                r,
                final(self).pos_model(),
            ),
            sp_var_declaration(old(self).toks(), old(self).pos_model()).errs
                == Seq::<ParseError>::empty(),
        decreases self.tokens@.len() - self.pos, 11int,
    {
        proof {
            reveal_with_fuel(sp_var_declaration, 1);
            assert(self.toks().len() == self.tokens@.len());
            lemma_var_declaration_bounds(self.toks(), self.pos_model());
        }
        let name = self.peek_token();
        if name.get_type() != TokenType::IDENTIFIER {
            return Err(
                ParseError { line: name.get_line(), kind: ParseErrorKind::ExpectVariableName },
            );
        }
        self.bump_pos();
        if self.check(TokenType::EQUAL) {
            self.bump_pos();
            match self.expression() {
                Ok(init) => {
                    if self.check(TokenType::SEMICOLON) {
                        proof {
                            assert(self.pos < self.tokens.len());
                        }
                        self.bump_pos();
                        Ok(Stmt::Var(name, Some(*init)))
                    } else {
                        let after = self.peek_token();
                        Err(
                            ParseError {
                                line: after.get_line(),
                                kind: ParseErrorKind::ExpectSemicolonAfterValue,
                            },
                        )
                    }
                },
                Err(er) => Err(er),
            }
        } else {
            if self.check(TokenType::SEMICOLON) {
                proof {
                    assert(self.pos < self.tokens.len());
                }
                self.bump_pos();
                Ok(Stmt::Var(name, None))
            } else {
                let after = self.peek_token();
                Err(
                    ParseError {
                        line: after.get_line(),
                        kind: ParseErrorKind::ExpectSemicolonAfterValue,
                    },
                )
            }
        }
    }

    /// "print" expression ";", entered just past `print`.
    #[verifier::rlimit(100)]
    #[verifier::spinoff_prover]
    fn print_statement(&mut self) -> (r: Result<Stmt, ParseError>)
        requires
            old(self).wf(),
        ensures
            final(self).wf(),
            final(self).tokens@ == old(self).tokens@,
            final(self).toks() == old(self).toks(),
            final(self).errors_model() == old(self).errors_model(),
            pstmt_matches(
                sp_print_statement(old(self).toks(), old(self).pos_model()),
                r,
                final(self).pos_model(),
            ),
            sp_print_statement(old(self).toks(), old(self).pos_model()).errs
                == Seq::<ParseError>::empty(),
        decreases self.tokens@.len() - self.pos, 11int,
    {
        proof {
            reveal_with_fuel(sp_print_statement, 1);
            assert(self.toks().len() == self.tokens@.len());
            lemma_print_statement_bounds(self.toks(), self.pos_model());
        }
        match self.expression() {
            Ok(value) => {
                if self.check(TokenType::SEMICOLON) {
                    proof {
                        assert(self.pos < self.tokens.len());
                    }
                    self.bump_pos();
                    Ok(Stmt::Print(*value))
                } else {
                    let after = self.peek_token();
                    Err(
                        ParseError {
                            line: after.get_line(),
                            kind: ParseErrorKind::ExpectSemicolonAfterValue,
                        },
                    )
                }
            },
            Err(er) => Err(er),
        }
    }

    /// expression ";"
    #[verifier::rlimit(100)]
    #[verifier::spinoff_prover]
    fn expression_statement(&mut self) -> (r: Result<Stmt, ParseError>)
        requires
            old(self).wf(),
        ensures
            final(self).wf(),
            final(self).tokens@ == old(self).tokens@,
            final(self).toks() == old(self).toks(),
            final(self).errors_model() == old(self).errors_model(),
            pstmt_matches(
                sp_expr_statement(old(self).toks(), old(self).pos_model()),
                r,
                final(self).pos_model(),
            ),
            sp_expr_statement(old(self).toks(), old(self).pos_model()).errs
                == Seq::<ParseError>::empty(),
        decreases self.tokens@.len() - self.pos, 11int,
    {
        proof {
            reveal_with_fuel(sp_expr_statement, 1);
            assert(self.toks().len() == self.tokens@.len());
            lemma_expr_statement_bounds(self.toks(), self.pos_model());
        }
        match self.expression() {
            Ok(value) => {
                if self.check(TokenType::SEMICOLON) {
                    proof {
                        assert(self.pos < self.tokens.len());
                    }
                    self.bump_pos();
                    Ok(Stmt::Expr(*value))
                } else {
                    let after = self.peek_token();
                    Err(
                        ParseError {
                            line: after.get_line(),
                            kind: ParseErrorKind::ExpectSemicolonAfterExpression,
                        },
                    )
                }
            },
            Err(er) => Err(er),
        }
    }

    /// "(" expression ")" statement ("else" statement)?, entered just past
    /// `if`.
    #[verifier::rlimit(100)]
    #[verifier::spinoff_prover]
    fn if_statement(&mut self) -> (r: Result<Stmt, ParseError>)
        requires
            old(self).wf(),
        ensures
            final(self).wf(),
            final(self).tokens@ == old(self).tokens@,
            final(self).toks() == old(self).toks(),
            ({
                let p = sp_if_statement(old(self).toks(), old(self).pos_model());
                &&& final(self).errors_model() == old(self).errors_model() + p.errs
                &&& pstmt_matches(p, r, final(self).pos_model())
            }),
        decreases self.tokens@.len() - self.pos, 11int,
    {
        let ghost toks0 = self.toks();
        let ghost pos0 = self.pos_model();
        let ghost e0 = self.errors_model();
        proof {
            reveal_with_fuel(sp_if_statement, 1);
            assert(toks0.len() == self.tokens@.len());
            lemma_if_statement_bounds(toks0, pos0);
        }
        if !self.check(TokenType::LEFT_PAREN) {
            let t = self.peek_token();
            proof {
                assert(e0 + Seq::<ParseError>::empty() =~= e0);
            }
            return Err(
                ParseError { line: t.get_line(), kind: ParseErrorKind::ExpectLeftParenAfterIf },
            );
        }
        self.bump_pos();
        proof {
            assert(pos0 < toks0.len() - 1);
            lemma_expression_bounds(toks0, pos0 + 1);
        }
        let cond = match self.expression() {
            Ok(c) => c,
            Err(er) => {
                proof {
                    assert(e0 + Seq::<ParseError>::empty() =~= e0);
                }
                return Err(er);
            },
        };
        if !self.check(TokenType::RIGHT_PAREN) {
            let t = self.peek_token();
            proof {
                assert(e0 + Seq::<ParseError>::empty() =~= e0);
            }
            return Err(
                ParseError {
                    line: t.get_line(),
                    kind: ParseErrorKind::ExpectRightParenAfterCondition,
                },
            );
        }
        proof {
            assert(self.pos < self.tokens.len());
        }
        self.bump_pos();
        let ghost tb_pos = self.pos_model();
        proof {
            lemma_statement_bounds(toks0, tb_pos);
        }
        let then_branch = match self.statement() {
            Ok(s) => s,
            Err(er) => {
                return Err(er);
            },
        };
        let ghost tb_errs = sp_statement(
            toks0,
            clamp_pos(toks0.len() as int, pos0 + 2, sp_expression(toks0, pos0 + 1).pos + 1),
        ).errs;
        if self.check(TokenType::ELSE) {
            proof {
                assert(self.pos < self.tokens.len());
            }
            self.bump_pos();
            proof {
                lemma_statement_bounds(toks0, self.pos_model());
            }
            match self.statement() {
                Ok(else_branch) => {
                    proof {
                        assert((e0 + tb_errs) + sp_statement(
                            toks0,
                            clamp_pos(
                                toks0.len() as int,
                                pos0 + 3,
                                sp_statement(
                                    toks0,
                                    clamp_pos(
                                        toks0.len() as int,
                                        pos0 + 2,
                                        sp_expression(toks0, pos0 + 1).pos + 1,
                                    ),
                                ).pos + 1,
                            ),
                        ).errs =~= e0 + (tb_errs + sp_statement(
                            toks0,
                            clamp_pos(
                                toks0.len() as int,
                                pos0 + 3,
                                sp_statement(
                                    toks0,
                                    clamp_pos(
                                        toks0.len() as int,
                                        pos0 + 2,
                                        sp_expression(toks0, pos0 + 1).pos + 1,
                                    ),
                                ).pos + 1,
                            ),
                        ).errs));
                    }
                    Ok(
                        Stmt::If {
                            condition: *cond,
                            then_branch: Box::new(then_branch),
                            else_branch: Some(Box::new(else_branch)),
                        },
                    )
                },
                Err(er) => {
                    proof {
                        assert((e0 + tb_errs) + sp_statement(
                            toks0,
                            clamp_pos(
                                toks0.len() as int,
                                pos0 + 3,
                                sp_statement(
                                    toks0,
                                    clamp_pos(
                                        toks0.len() as int,
                                        pos0 + 2,
                                        sp_expression(toks0, pos0 + 1).pos + 1,
                                    ),
                                ).pos + 1,
                            ),
                        ).errs =~= e0 + (tb_errs + sp_statement(
                            toks0,
                            clamp_pos(
                                toks0.len() as int,
                                pos0 + 3,
                                sp_statement(
                                    toks0,
                                    clamp_pos(
                                        toks0.len() as int,
                                        pos0 + 2,
                                        sp_expression(toks0, pos0 + 1).pos + 1,
                                    ),
                                ).pos + 1,
                            ),
                        ).errs));
                    }
                    Err(er)
                },
            }
        } else {
            Ok(
                Stmt::If {
                    condition: *cond,
                    then_branch: Box::new(then_branch),
                    else_branch: None,
                },
            )
        }
    }

    /// "(" expression ")" statement, entered just past `while`.
    #[verifier::rlimit(100)]
    #[verifier::spinoff_prover]
    fn while_statement(&mut self) -> (r: Result<Stmt, ParseError>)
        requires
            old(self).wf(),
        ensures
            final(self).wf(),
            final(self).tokens@ == old(self).tokens@,
            final(self).toks() == old(self).toks(),
            ({
                let p = sp_while_statement(old(self).toks(), old(self).pos_model());
                &&& final(self).errors_model() == old(self).errors_model() + p.errs
                &&& pstmt_matches(p, r, final(self).pos_model())
            }),
        decreases self.tokens@.len() - self.pos, 11int,
    {
        let ghost toks0 = self.toks();
        let ghost pos0 = self.pos_model();
        let ghost e0 = self.errors_model();
        proof {
            reveal_with_fuel(sp_while_statement, 1);
            assert(toks0.len() == self.tokens@.len());
            lemma_while_statement_bounds(toks0, pos0);
        }
        if !self.check(TokenType::LEFT_PAREN) {
            let t = self.peek_token();
            proof {
                assert(e0 + Seq::<ParseError>::empty() =~= e0);
            }
            return Err(
                ParseError { line: t.get_line(), kind: ParseErrorKind::ExpectLeftParenAfterWhile },
            );
        }
        self.bump_pos();
        proof {
            assert(pos0 < toks0.len() - 1);
            lemma_expression_bounds(toks0, pos0 + 1);
        }
        let cond = match self.expression() {
            Ok(c) => c,
            Err(er) => {
                proof {
                    assert(e0 + Seq::<ParseError>::empty() =~= e0);
                }
                return Err(er);
            },
        };
        if !self.check(TokenType::RIGHT_PAREN) {
            let t = self.peek_token();
            proof {
                assert(e0 + Seq::<ParseError>::empty() =~= e0);
            }
            return Err(
                ParseError {
                    line: t.get_line(),
                    kind: ParseErrorKind::ExpectRightParenAfterCondition,
                },
            );
        }
        proof {
            assert(self.pos < self.tokens.len());
        }
        self.bump_pos();
        proof {
            lemma_statement_bounds(toks0, self.pos_model());
        }
        match self.statement() {
            Ok(body) => Ok(Stmt::While { condition: *cond, body: Box::new(body) }),
            Err(er) => Err(er),
        }
    }

    /// statement := "print" expression ";" | "{" declaration* "}"
    ///            | "if" "(" expression ")" statement ("else" statement)?
    ///            | "while" "(" expression ")" statement
    ///            | expression ";"
    #[verifier::rlimit(100)]
    #[verifier::spinoff_prover]
    fn statement(&mut self) -> (r: Result<Stmt, ParseError>)
        requires
            old(self).wf(),
        ensures
            final(self).wf(),
            final(self).tokens@ == old(self).tokens@,
            final(self).toks() == old(self).toks(),
            ({
                let p = sp_statement(old(self).toks(), old(self).pos_model());
                &&& final(self).errors_model() == old(self).errors_model() + p.errs
                &&& pstmt_matches(p, r, final(self).pos_model())
            }),
        decreases self.tokens@.len() - self.pos, 12int,
    {
        proof {
            reveal_with_fuel(sp_statement, 1);
            assert(self.toks().len() == self.tokens@.len());
            lemma_statement_bounds(self.toks(), self.pos_model());
        }
        let ghost e0 = self.errors_model();
        let k = self.peek_kind();
        if k == TokenType::PRINT {
            self.bump_pos();
            let r = self.print_statement();
            proof {
                assert(e0 + Seq::<ParseError>::empty() =~= e0);
            }
            r
        } else if k == TokenType::LEFT_BRACE {
            self.bump_pos();
            match self.block() {
                Ok(body) => Ok(Stmt::Block(body)),
                Err(er) => Err(er),
            }
        } else if k == TokenType::IF {
            self.bump_pos();
            self.if_statement()
        } else if k == TokenType::WHILE {
            self.bump_pos();
            self.while_statement()
        } else {
            let r = self.expression_statement();
            proof {
                assert(e0 + Seq::<ParseError>::empty() =~= e0);
            }
            r
        }
    }

    /// declaration := "var" IDENTIFIER ("=" expression)? ";" | statement
    #[verifier::rlimit(100)]
    #[verifier::spinoff_prover]
    fn declaration(&mut self) -> (r: Result<Stmt, ParseError>)
        requires
            old(self).wf(),
        ensures
            final(self).wf(),
            final(self).tokens@ == old(self).tokens@,
            final(self).toks() == old(self).toks(),
            ({
                let p = sp_declaration(old(self).toks(), old(self).pos_model());
                &&& final(self).errors_model() == old(self).errors_model() + p.errs
                &&& pstmt_matches(p, r, final(self).pos_model())
            }),
        decreases self.tokens@.len() - self.pos, 13int,
    {
        proof {
            reveal_with_fuel(sp_declaration, 1);
            assert(self.toks().len() == self.tokens@.len());
            lemma_declaration_bounds(self.toks(), self.pos_model());
        }
        let ghost e0 = self.errors_model();
        if self.check(TokenType::VAR) {
            self.bump_pos();
            let r = self.var_declaration();
            proof {
                assert(e0 + Seq::<ParseError>::empty() =~= e0);
            }
            r
        } else {
            self.statement()
        }
    }

    /// The declarations of a block up to the closing brace, with panic-mode
    /// recovery inside the block.
    #[verifier::rlimit(100)]
    #[verifier::spinoff_prover]
    #[verifier::loop_isolation(false)]
    fn block(&mut self) -> (r: Result<Vec<Stmt>, ParseError>)
        requires
            old(self).wf(),
        ensures
            final(self).wf(),
            final(self).tokens@ == old(self).tokens@,
            final(self).toks() == old(self).toks(),
            ({
                let b = sp_block(old(self).toks(), old(self).pos_model());
                &&& final(self).errors_model() == old(self).errors_model() + b.errs
                &&& final(self).pos_model() == b.pos
                &&& match r {
                    Ok(v) => b.res == Ok::<Seq<StmtModel>, ParseError>(stmts_model(v@)),
                    Err(e) => b.res == Err::<Seq<StmtModel>, ParseError>(e),
                }
            }),
        decreases self.tokens@.len() - self.pos, 14int,
    {
        let ghost toks0 = self.toks();
        let ghost pos0 = self.pos_model();
        let ghost e0 = self.errors_model();
        let mut stmts: Vec<Stmt> = Vec::new();
        let ghost mut acc_errs: Seq<ParseError> = Seq::empty();
        proof {
            lemma_block_bounds(toks0, pos0);
            lemma_pblock_prepend_empty(sp_block(toks0, pos0));
            assert(stmts_model(stmts@) =~= Seq::<StmtModel>::empty());
            crate::interpreter::lemma_stmts_model_props(stmts@);
        }
        loop
            invariant
                self.wf(),
                self.tokens@ == old(self).tokens@,
                self.toks() == toks0,
                pos0 <= self.pos_model(),
                self.errors_model() == e0 + acc_errs,
                sp_block(toks0, pos0) == pblock_prepend(
                    stmts_model(stmts@),
                    acc_errs,
                    sp_block(toks0, self.pos_model()),
                ),
            decreases self.tokens@.len() - self.pos,
        {
            proof {
                reveal_with_fuel(sp_block, 1);
                assert(toks0.len() == self.tokens@.len());
            }
            if self.check(TokenType::RIGHT_BRACE) {
                proof {
                    assert(self.pos < self.tokens.len());
                }
                self.bump_pos();
                proof {
                    assert(stmts_model(stmts@) + Seq::<StmtModel>::empty() =~= stmts_model(
                        stmts@,
                    ));
                    assert(acc_errs + Seq::<ParseError>::empty() =~= acc_errs);
                }
                return Ok(stmts);
            }
            if self.check(TokenType::EOF) {
                let t = self.peek_token();
                proof {
                    assert(acc_errs + Seq::<ParseError>::empty() =~= acc_errs);
                }
                return Err(
                    ParseError {
                        line: t.get_line(),
                        kind: ParseErrorKind::ExpectRightBraceAfterBlock,
                    },
                );
            }
            let start: usize = self.pos;
            let ghost cur = self.pos_model();
            let ghost e_before = acc_errs;
            proof {
                lemma_declaration_bounds(toks0, cur);
            }
            let ghost sm0 = stmts_model(stmts@);
            match self.declaration() {
                Ok(s) => {
                    if self.pos <= start {
                        self.pos = start;
                        self.bump_pos();
                    }
                    let ghost d = sp_declaration(toks0, cur);
                    let ghost rest = sp_block(toks0, self.pos_model());
                    proof {
                        assert(self.pos_model() == clamp_pos(toks0.len() as int, cur + 1, d.pos));
                        assert(sp_block(toks0, cur) == pblock_prepend(
                            seq![stmt_model(s)],
                            d.errs,
                            rest,
                        ));
                        lemma_pblock_prepend_concat(sm0, e_before, seq![stmt_model(s)], d.errs, rest);
                        acc_errs = acc_errs + d.errs;
                        assert(e_before + d.errs =~= acc_errs);
                    }
                    let ghost vs0 = stmts@;
                    stmts.push(s);
                    proof {
                        assert(stmts@.drop_last() =~= vs0);
                        assert(stmts@.last() == s);
                        assert(stmts_model(stmts@) == sm0.push(stmt_model(s)));
                        assert(sm0 + seq![stmt_model(s)] =~= sm0.push(stmt_model(s)));
                    }
                },
                Err(e) => {
                    let ghost d = sp_declaration(toks0, cur);
                    self.errors.push(e);
                    proof {
                        acc_errs = acc_errs + (d.errs + seq![e]);
                        assert(self.errors_model() =~= e0 + acc_errs);
                    }
                    proof {
                        lemma_synchronize_bounds(toks0, d.pos);
                        assert(clamp_pos(toks0.len() as int, cur, d.pos) == d.pos);
                    }
                    self.synchronize();
                    if self.pos <= start {
                        self.pos = start;
                        self.bump_pos();
                    }
                    let ghost rest = sp_block(toks0, self.pos_model());
                    proof {
                        assert(sp_block(toks0, cur) == pblock_prepend(
                            Seq::<StmtModel>::empty(),
                            d.errs + seq![e],
                            rest,
                        )) by {
                            match rest.res {
                                Ok(ss) => {
                                    assert(Seq::<StmtModel>::empty() + ss =~= ss);
                                },
                                Err(_) => {},
                            }
                        }
                        lemma_pblock_prepend_concat(
                            sm0,
                            e_before,
                            Seq::<StmtModel>::empty(),
                            d.errs + seq![e],
                            rest,
                        );
                        assert(sm0 + Seq::<StmtModel>::empty() =~= sm0);
                        assert(e_before + (d.errs + seq![e]) =~= acc_errs);
                    }
                },
            }
        }
    }

    /// Parses the whole program: declarations until the end of input, with
    /// panic-mode recovery after each failed declaration, so one malformed
    /// statement costs only itself.  The errors reported stand in
    /// [`Self::errors`] afterwards, in source order.
    #[verifier::rlimit(100)]
    #[verifier::spinoff_prover]
    #[verifier::loop_isolation(false)]
    pub fn parse(&mut self) -> (r: Vec<Stmt>)
        requires
            old(self).wf(),
        ensures
            final(self).wf(),
            final(self).toks() == old(self).toks(),
            ({
                let p = sp_parse(old(self).toks(), old(self).pos_model());
                &&& stmts_model(r@) == p.stmts
                &&& final(self).errors_model() == old(self).errors_model() + p.errs
                &&& final(self).pos_model() == p.pos
            }),
    {
        let ghost toks0 = self.toks();
        let ghost pos0 = self.pos_model();
        let ghost e0 = self.errors_model();
        let mut stmts: Vec<Stmt> = Vec::new();
        let ghost mut acc_errs: Seq<ParseError> = Seq::empty();
        proof {
            lemma_parse_bounds(toks0, pos0);
            lemma_pprogram_prepend_empty(sp_parse(toks0, pos0));
            assert(stmts_model(stmts@) =~= Seq::<StmtModel>::empty());
        }
        loop
            invariant
                self.wf(),
                self.tokens@ == old(self).tokens@,
                self.toks() == toks0,
                pos0 <= self.pos_model(),
                self.errors_model() == e0 + acc_errs,
                sp_parse(toks0, pos0) == pprogram_prepend(
                    stmts_model(stmts@),
                    acc_errs,
                    sp_parse(toks0, self.pos_model()),
                ),
            decreases self.tokens@.len() - self.pos,
        {
            proof {
                reveal_with_fuel(sp_parse, 1);
                assert(toks0.len() == self.tokens@.len());
            }
            if self.check(TokenType::EOF) {
                proof {
                    assert(stmts_model(stmts@) + Seq::<StmtModel>::empty() =~= stmts_model(
                        stmts@,
                    ));
                    assert(acc_errs + Seq::<ParseError>::empty() =~= acc_errs);
                }
                return stmts;
            }
            let start: usize = self.pos;
            let ghost cur = self.pos_model();
            let ghost e_before = acc_errs;
            proof {
                lemma_declaration_bounds(toks0, cur);
            }
            let ghost sm0 = stmts_model(stmts@);
            match self.declaration() {
                Ok(s) => {
                    if self.pos <= start {
                        self.pos = start;
                        self.bump_pos();
                    }
                    let ghost d = sp_declaration(toks0, cur);
                    let ghost rest = sp_parse(toks0, self.pos_model());
                    proof {
                        assert(self.pos_model() == clamp_pos(toks0.len() as int, cur + 1, d.pos));
                        assert(sp_parse(toks0, cur) == pprogram_prepend(
                            seq![stmt_model(s)],
                            d.errs,
                            rest,
                        ));
                        lemma_pprogram_prepend_concat(
                            sm0,
                            e_before,
                            seq![stmt_model(s)],
                            d.errs,
                            rest,
                        );
                        acc_errs = acc_errs + d.errs;
                        assert(e_before + d.errs =~= acc_errs);
                    }
                    let ghost vs0 = stmts@;
                    stmts.push(s);
                    proof {
                        assert(stmts@.drop_last() =~= vs0);
                        assert(stmts@.last() == s);
                        assert(stmts_model(stmts@) == sm0.push(stmt_model(s)));
                        assert(sm0 + seq![stmt_model(s)] =~= sm0.push(stmt_model(s)));
                    }
                },
                Err(e) => {
                    let ghost d = sp_declaration(toks0, cur);
                    self.errors.push(e);
                    proof {
                        acc_errs = acc_errs + (d.errs + seq![e]);
                        assert(self.errors_model() =~= e0 + acc_errs);
                    }
                    proof {
                        lemma_synchronize_bounds(toks0, d.pos);
                        assert(clamp_pos(toks0.len() as int, cur, d.pos) == d.pos);
                    }
                    self.synchronize();
                    if self.pos <= start {
                        self.pos = start;
                        self.bump_pos();
                    }
                    let ghost rest = sp_parse(toks0, self.pos_model());
                    proof {
                        assert(sp_parse(toks0, cur) == pprogram_prepend(
                            Seq::<StmtModel>::empty(),
                            d.errs + seq![e],
                            rest,
                        )) by {
                            assert(Seq::<StmtModel>::empty() + rest.stmts =~= rest.stmts);
                        }
                        lemma_pprogram_prepend_concat(
                            sm0,
                            e_before,
                            Seq::<StmtModel>::empty(),
                            d.errs + seq![e],
                            rest,
                        );
                        assert(sm0 + Seq::<StmtModel>::empty() =~= sm0);
                        assert(e_before + (d.errs + seq![e]) =~= acc_errs);
                    }
                },
            }
        }
    }
}

} // verus!
