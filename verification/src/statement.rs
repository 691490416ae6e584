use vstd::prelude::*;
use crate::expression::{expr_model, Expr, ExprModel};
use crate::token::{Token, TokenModel};

verus! {

/// Model of a statement tree.
pub ghost enum StmtModel {
    Expr(ExprModel),
    Print(ExprModel),
    Var(TokenModel, Option<ExprModel>),
    Block(Seq<StmtModel>),
    If { condition: ExprModel, then_branch: Box<StmtModel>, else_branch: Option<Box<StmtModel>> },
    While { condition: ExprModel, body: Box<StmtModel> },
}

/// A statement tree node; a program is an ordered sequence of statements.
#[derive(Debug)]
pub enum Stmt {
    Expr(Expr),
    Print(Expr),
    Var(Token, Option<Expr>),
    Block(Vec<Stmt>),
    If { condition: Expr, then_branch: Box<Stmt>, else_branch: Option<Box<Stmt>> },
    While { condition: Expr, body: Box<Stmt> },
}

pub open spec fn stmt_model(s: Stmt) -> StmtModel
    decreases s,
{
    match s {
        Stmt::Expr(e) => StmtModel::Expr(expr_model(e)),
        Stmt::Print(e) => StmtModel::Print(expr_model(e)),
        Stmt::Var(name, initializer) => StmtModel::Var(
            name@,
            match initializer {
                Some(e) => Some(expr_model(e)),
                None => None,
            },
        ),
        Stmt::Block(body) => StmtModel::Block(stmts_model(body@)),
        Stmt::If { condition, then_branch, else_branch } => StmtModel::If {
            condition: expr_model(condition),
            then_branch: Box::new(stmt_model(*then_branch)),
            else_branch: match else_branch {
                Some(b) => Some(Box::new(stmt_model(*b))),
                None => None,
            },
        },
        Stmt::While { condition, body } => StmtModel::While {
            condition: expr_model(condition),
            body: Box::new(stmt_model(*body)),
        },
    }
}

pub open spec fn stmts_model(ss: Seq<Stmt>) -> Seq<StmtModel>
    decreases ss,
{
    if ss.len() == 0 {
        Seq::empty()
    } else {
        stmts_model(ss.drop_last()).push(stmt_model(ss.last()))
    }
}

impl View for Stmt {
    type V = StmtModel;

    open spec fn view(&self) -> StmtModel {
        stmt_model(*self)
    }
}

} // verus!
