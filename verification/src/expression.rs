use vstd::prelude::*;
use crate::token::{SpecValue, Token, TokenModel, Value};

verus! {

/// Model of an expression tree.  Tokens appear as their models, literal
/// values as their mathematical values.
pub ghost enum ExprModel {
    Literal(SpecValue),
    Unary { operator: TokenModel, right: Box<ExprModel> },
    Binary { left: Box<ExprModel>, operator: TokenModel, right: Box<ExprModel> },
    Grouping(Box<ExprModel>),
    Variable(TokenModel),
    Assign { name: TokenModel, value: Box<ExprModel> },
}

/// An expression tree node.  A parent node exclusively owns its children;
/// the tree has no cycles and no shared ownership.
#[derive(Debug)]
pub enum Expr {
    Literal(Value),
    Unary { operator: Token, right: Box<Expr> },
    Binary { left: Box<Expr>, operator: Token, right: Box<Expr> },
    Grouping(Box<Expr>),
    Variable(Token),
    Assign { name: Token, value: Box<Expr> },
}

pub open spec fn expr_model(e: Expr) -> ExprModel
    decreases e,
{
    match e {
        Expr::Literal(v) => ExprModel::Literal(v@),
        Expr::Unary { operator, right } => ExprModel::Unary {
            operator: operator@,
            right: Box::new(expr_model(*right)),
        },
        Expr::Binary { left, operator, right } => ExprModel::Binary {
            left: Box::new(expr_model(*left)),
            operator: operator@,
            right: Box::new(expr_model(*right)),
        },
        Expr::Grouping(inner) => ExprModel::Grouping(Box::new(expr_model(*inner))),
        Expr::Variable(name) => ExprModel::Variable(name@),
        Expr::Assign { name, value } => ExprModel::Assign {
            name: name@,
            value: Box::new(expr_model(*value)),
        },
    }
}

impl View for Expr {
    type V = ExprModel;

    open spec fn view(&self) -> ExprModel {
        expr_model(*self)
    }
}

} // verus!
