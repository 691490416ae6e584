use vstd::prelude::*;
use crate::environment::{env_define, env_find, env_set, EnvModel, Environment};
use crate::error::{RuntimeError, RuntimeErrorModel};
use crate::expression::{expr_model, Expr, ExprModel};
use crate::render::{i64_text, int_text};
use crate::statement::{stmt_model, stmts_model, Stmt, StmtModel};
use crate::token::{SpecValue, Token, TokenModel, TokenType, Value};

verus! {

/// Truthiness: `false` and `nil` are falsy; every other value, including
/// zero and the empty string, is truthy.
pub open spec fn spec_truthy(v: SpecValue) -> bool {
    match v {
        SpecValue::Bool(b) => b,
        SpecValue::Nil => false,
        _ => true,
    }
}

/// Structural equality across any two values; values of different kinds are
/// simply unequal, never an error.
pub open spec fn spec_values_equal(l: SpecValue, r: SpecValue) -> bool {
    match (l, r) {
        (SpecValue::Num(a), SpecValue::Num(b)) => a == b,
        (SpecValue::Str(a), SpecValue::Str(b)) => a == b,
        (SpecValue::Bool(a), SpecValue::Bool(b)) => a == b,
        (SpecValue::Nil, SpecValue::Nil) => true,
        _ => false,
    }
}

/// A numeric result must stay in the 64-bit signed range.
pub open spec fn spec_num(i: int) -> Result<SpecValue, RuntimeErrorModel> {
    if i < i64::MIN || i > i64::MAX {
        Err(RuntimeErrorModel::Overflow)
    } else {
        Ok(SpecValue::Num(i))
    }
}

/// Division as 64-bit machine division rounds: toward zero.
pub open spec fn trunc_div(a: int, b: int) -> int
    recommends
        b != 0,
{
    if a == 0 {
        0
    } else if a > 0 && b > 0 {
        a / b
    } else if a < 0 && b < 0 {
        (a * -1) / (b * -1)
    } else if a < 0 {
        ((a * -1) / b) * -1
    } else {
        (a / (b * -1)) * -1
    }
}

/// The unary operators: `-` requires a number; `!` applies truthiness and
/// always succeeds.  Any other operator kind accepts no operand at all.
pub open spec fn spec_unary(op: TokenModel, v: SpecValue) -> Result<
    SpecValue,
    RuntimeErrorModel,
> {
    if op.kind == TokenType::MINUS {
        match v {
            SpecValue::Num(n) => spec_num(-n),
            _ => Err(RuntimeErrorModel::TypeMismatch(op.lexeme)),
        }
    } else if op.kind == TokenType::BANG {
        Ok(SpecValue::Bool(!spec_truthy(v)))
    } else {
        Err(RuntimeErrorModel::TypeMismatch(op.lexeme))
    }
}

/// The binary operators.  Arithmetic needs two numbers, except `+`, which
/// also concatenates two strings; comparisons need two numbers; `==` and
/// `!=` compare structurally and never fail; division by numeric zero is an
/// error, never infinity.
pub open spec fn spec_binary(op: TokenModel, l: SpecValue, r: SpecValue) -> Result<
    SpecValue,
    RuntimeErrorModel,
> {
    match op.kind {
        TokenType::PLUS => match (l, r) {
            (SpecValue::Num(a), SpecValue::Num(b)) => spec_num(a + b),
            (SpecValue::Str(a), SpecValue::Str(b)) => Ok(SpecValue::Str(a + b)),
            _ => Err(RuntimeErrorModel::TypeMismatch(op.lexeme)),
        },
        TokenType::MINUS => match (l, r) {
            (SpecValue::Num(a), SpecValue::Num(b)) => spec_num(a - b),
            _ => Err(RuntimeErrorModel::TypeMismatch(op.lexeme)),
        },
        TokenType::STAR => match (l, r) {
            (SpecValue::Num(a), SpecValue::Num(b)) => spec_num(a * b),
            _ => Err(RuntimeErrorModel::TypeMismatch(op.lexeme)),
        },
        TokenType::SLASH => match (l, r) {
            (SpecValue::Num(a), SpecValue::Num(b)) => if b == 0 {
                Err(RuntimeErrorModel::DivisionByZero)
            } else {
                spec_num(trunc_div(a, b))
            },
            _ => Err(RuntimeErrorModel::TypeMismatch(op.lexeme)),
        },
        TokenType::EQUAL_EQUAL => Ok(SpecValue::Bool(spec_values_equal(l, r))),
        TokenType::BANG_EQUAL => Ok(SpecValue::Bool(!spec_values_equal(l, r))),
        TokenType::GREATER => match (l, r) {
            (SpecValue::Num(a), SpecValue::Num(b)) => Ok(SpecValue::Bool(a > b)),
            _ => Err(RuntimeErrorModel::TypeMismatch(op.lexeme)),
        },
        TokenType::GREATER_EQUAL => match (l, r) {
            (SpecValue::Num(a), SpecValue::Num(b)) => Ok(SpecValue::Bool(a >= b)),
            _ => Err(RuntimeErrorModel::TypeMismatch(op.lexeme)),
        },
        TokenType::LESS => match (l, r) {
            (SpecValue::Num(a), SpecValue::Num(b)) => Ok(SpecValue::Bool(a < b)),
            _ => Err(RuntimeErrorModel::TypeMismatch(op.lexeme)),
        },
        TokenType::LESS_EQUAL => match (l, r) {
            (SpecValue::Num(a), SpecValue::Num(b)) => Ok(SpecValue::Bool(a <= b)),
            _ => Err(RuntimeErrorModel::TypeMismatch(op.lexeme)),
        },
        _ => Err(RuntimeErrorModel::TypeMismatch(op.lexeme)),
    }
}

/// The outcome of evaluating one expression: the value or the error, and
/// the scope chain afterwards.  An assignment made inside the expression
/// persists even when a later part of the expression fails.
pub ghost struct EvalOutcome {
    pub res: Result<SpecValue, RuntimeErrorModel>,
    pub env: EnvModel,
}

/// Expression evaluation.  The left operand of a binary operator is
/// evaluated before the right one.
pub open spec fn spec_eval(e: ExprModel, env: EnvModel) -> EvalOutcome
    decreases e,
{
    match e {
        ExprModel::Literal(v) => EvalOutcome { res: Ok(v), env },
        ExprModel::Grouping(inner) => spec_eval(*inner, env),
        ExprModel::Variable(name) => match env_find(env, name.lexeme) {
            Some(v) => EvalOutcome { res: Ok(v), env },
            None => EvalOutcome {
                res: Err(RuntimeErrorModel::UndefinedVariable(name.lexeme)),
                env,
            },
        },
        ExprModel::Assign { name, value } => {
            let inner = spec_eval(*value, env);
            match inner.res {
                Ok(v) => match env_set(inner.env, name.lexeme, v) {
                    Some(e2) => EvalOutcome { res: Ok(v), env: e2 },
                    None => EvalOutcome {
                        res: Err(RuntimeErrorModel::UndefinedVariable(name.lexeme)),
                        env: inner.env,
                    },
                },
                Err(_) => inner,
            }
        },
        ExprModel::Unary { operator, right } => {
            let inner = spec_eval(*right, env);
            match inner.res {
                Ok(v) => EvalOutcome { res: spec_unary(operator, v), env: inner.env },
                Err(_) => inner,
            }
        },
        ExprModel::Binary { left, operator, right } => {
            let lo = spec_eval(*left, env);
            match lo.res {
                Ok(lv) => {
                    let ro = spec_eval(*right, lo.env);
                    match ro.res {
                        Ok(rv) => EvalOutcome {
                            res: spec_binary(operator, lv, rv),
                            env: ro.env,
                        },
                        Err(_) => ro,
                    }
                },
                Err(_) => lo,
            }
        },
    }
}

/// The canonical display text of a value: a number as decimal text, a
/// boolean as `true` or `false`, a string as itself unquoted, nil as `nil`.
pub open spec fn stringify_text(v: SpecValue) -> Seq<char> {
    match v {
        SpecValue::Num(n) => int_text(n),
        SpecValue::Str(s) => s,
        SpecValue::Bool(b) => if b {
            "true"@
        } else {
            "false"@
        },
        SpecValue::Nil => "nil"@,
    }
}

/// Assignment keeps the number of scope frames.
pub proof fn lemma_env_set_len(env: EnvModel, name: Seq<char>, value: SpecValue)
    ensures
        env_set(env, name, value) matches Some(e) ==> e.len() == env.len(),
    decreases env.len(),
{
    if env.len() > 0 {
        lemma_env_set_len(env.drop_last(), name, value);
    }
}

/// Expression evaluation keeps the number of scope frames.
pub proof fn lemma_eval_env_len(e: ExprModel, env: EnvModel)
    ensures
        spec_eval(e, env).env.len() == env.len(),
    decreases e,
{
    match e {
        ExprModel::Literal(_) => {},
        ExprModel::Grouping(inner) => {
            lemma_eval_env_len(*inner, env);
        },
        ExprModel::Variable(_) => {},
        ExprModel::Assign { name, value } => {
            lemma_eval_env_len(*value, env);
            let inner = spec_eval(*value, env);
            if inner.res is Ok {
                lemma_env_set_len(inner.env, name.lexeme, inner.res->Ok_0);
            }
        },
        ExprModel::Unary { operator, right } => {
            lemma_eval_env_len(*right, env);
        },
        ExprModel::Binary { left, operator, right } => {
            lemma_eval_env_len(*left, env);
            let lo = spec_eval(*left, env);
            if lo.res is Ok {
                lemma_eval_env_len(*right, lo.env);
            }
        },
    }
}

/// The outcome of executing one statement to completion: the scope chain
/// afterwards, the print lines emitted, and the error that halted it, if
/// any.
pub ghost struct StmtOutcome {
    pub env: EnvModel,
    pub out: Seq<Seq<char>>,
    pub err: Option<RuntimeErrorModel>,
}

pub open spec fn err_of(r: Result<SpecValue, RuntimeErrorModel>) -> Option<RuntimeErrorModel> {
    match r {
        Ok(_) => None,
        Err(e) => Some(e),
    }
}

/// Statement execution, measured by a step budget: each `while` iteration
/// beyond the first check consumes one unit, so a loop that never ends has
/// no completed outcome at any budget, and `None` means the budget ran out.
/// Everything else is structural recursion and consumes nothing.
pub open spec fn spec_exec_stmt(s: StmtModel, env: EnvModel, fuel: nat) -> Option<StmtOutcome>
    decreases fuel, s,
{
    match s {
        StmtModel::Expr(e) => {
            let o = spec_eval(e, env);
            Some(StmtOutcome { env: o.env, out: Seq::empty(), err: err_of(o.res) })
        },
        StmtModel::Print(e) => {
            let o = spec_eval(e, env);
            match o.res {
                Ok(v) => Some(
                    StmtOutcome { env: o.env, out: seq![stringify_text(v)], err: None },
                ),
                Err(er) => Some(StmtOutcome { env: o.env, out: Seq::empty(), err: Some(er) }),
            }
        },
        StmtModel::Var(name, initializer) => match initializer {
            Some(e) => {
                let o = spec_eval(e, env);
                match o.res {
                    Ok(v) => Some(
                        StmtOutcome {
                            env: env_define(o.env, name.lexeme, v),
                            out: Seq::empty(),
                            err: None,
                        },
                    ),
                    Err(er) => Some(
                        StmtOutcome { env: o.env, out: Seq::empty(), err: Some(er) },
                    ),
                }
            },
            None => Some(
                StmtOutcome {
                    env: env_define(env, name.lexeme, SpecValue::Nil),
                    out: Seq::empty(),
                    err: None,
                },
            ),
        },
        StmtModel::Block(body) => {
            match spec_exec_block(body, env.push(Seq::empty()), fuel) {
                Some(o) => Some(StmtOutcome { env: o.env.drop_last(), out: o.out, err: o.err }),
                None => None,
            }
        },
        StmtModel::If { condition, then_branch, else_branch } => {
            let c = spec_eval(condition, env);
            match c.res {
                Ok(v) => if spec_truthy(v) {
                    spec_exec_stmt(*then_branch, c.env, fuel)
                } else {
                    match else_branch {
                        Some(b) => spec_exec_stmt(*b, c.env, fuel),
                        None => Some(StmtOutcome { env: c.env, out: Seq::empty(), err: None }),
                    }
                },
                Err(er) => Some(StmtOutcome { env: c.env, out: Seq::empty(), err: Some(er) }),
            }
        },
        StmtModel::While { condition, body } => {
            if fuel == 0 {
                None
            } else {
                let c = spec_eval(condition, env);
                match c.res {
                    Ok(v) => if !spec_truthy(v) {
                        Some(StmtOutcome { env: c.env, out: Seq::empty(), err: None })
                    } else {
                        match spec_exec_stmt(*body, c.env, fuel) {
                            None => None,
                            Some(o) => if o.err is Some {
                                Some(o)
                            } else {
                                match spec_exec_stmt(s, o.env, (fuel - 1) as nat) {
                                    None => None,
                                    Some(o2) => Some(
                                        StmtOutcome {
                                            env: o2.env,
                                            out: o.out + o2.out,
                                            err: o2.err,
                                        },
                                    ),
                                }
                            },
                        }
                    },
                    Err(er) => Some(
                        StmtOutcome { env: c.env, out: Seq::empty(), err: Some(er) },
                    ),
                }
            }
        },
    }
}

/// Execution of a block's statements in order against the current chain;
/// the first error halts the rest of the block and is passed up.
pub open spec fn spec_exec_block(ss: Seq<StmtModel>, env: EnvModel, fuel: nat) -> Option<
    StmtOutcome,
>
    decreases fuel, ss,
{
    if ss.len() == 0 {
        Some(StmtOutcome { env, out: Seq::empty(), err: None })
    } else {
        match spec_exec_stmt(ss[0], env, fuel) {
            None => None,
            Some(o) => match o.err {
                Some(_) => Some(o),
                None => match spec_exec_block(ss.subrange(1, ss.len() as int), o.env, fuel) {
                    None => None,
                    Some(o2) => Some(
                        StmtOutcome { env: o2.env, out: o.out + o2.out, err: o2.err },
                    ),
                },
            },
        }
    }
}

/// The collected outcome of a whole program: top-level statements run in
/// order, and each statement's error is reported while execution continues
/// with the next statement.
pub ghost struct ProgramOutcome {
    pub env: EnvModel,
    pub out: Seq<Seq<char>>,
    pub errs: Seq<RuntimeErrorModel>,
}

pub open spec fn spec_run_program(ss: Seq<StmtModel>, env: EnvModel, fuel: nat) -> Option<
    ProgramOutcome,
>
    decreases ss,
{
    if ss.len() == 0 {
        Some(ProgramOutcome { env, out: Seq::empty(), errs: Seq::empty() })
    } else {
        match spec_exec_stmt(ss[0], env, fuel) {
            None => None,
            Some(o) => {
                let first_errs = match o.err {
                    Some(e) => seq![e],
                    None => Seq::<RuntimeErrorModel>::empty(),
                };
                match spec_run_program(ss.subrange(1, ss.len() as int), o.env, fuel) {
                    None => None,
                    Some(p) => Some(
                        ProgramOutcome {
                            env: p.env,
                            out: o.out + p.out,
                            errs: first_errs + p.errs,
                        },
                    ),
                }
            },
        }
    }
}

/// The print lines of an executable output buffer.
pub open spec fn out_texts(v: Seq<String>) -> Seq<Seq<char>> {
    v.map(|i: int, s: String| s@)
}

/// The models of collected runtime errors.
pub open spec fn errs_model(v: Seq<RuntimeError>) -> Seq<RuntimeErrorModel> {
    v.map(|i: int, e: RuntimeError| e@)
}

pub open spec fn prepend_out(pre: Seq<Seq<char>>, r: Option<StmtOutcome>) -> Option<StmtOutcome> {
    match r {
        Some(o) => Some(StmtOutcome { env: o.env, out: pre + o.out, err: o.err }),
        None => None,
    }
}

pub open spec fn prepend_prog(
    pre_out: Seq<Seq<char>>,
    pre_errs: Seq<RuntimeErrorModel>,
    r: Option<ProgramOutcome>,
) -> Option<ProgramOutcome> {
    match r {
        Some(p) => Some(
            ProgramOutcome { env: p.env, out: pre_out + p.out, errs: pre_errs + p.errs },
        ),
        None => None,
    }
}

proof fn lemma_prepend_out_empty(r: Option<StmtOutcome>)
    ensures
        prepend_out(Seq::empty(), r) == r,
{
    match r {
        Some(o) => {
            assert(Seq::<Seq<char>>::empty() + o.out =~= o.out);
        },
        None => {},
    }
}

proof fn lemma_prepend_out_concat(a: Seq<Seq<char>>, b: Seq<Seq<char>>, r: Option<StmtOutcome>)
    ensures
        prepend_out(a, prepend_out(b, r)) == prepend_out(a + b, r),
{
    match r {
        Some(o) => {
            assert(a + (b + o.out) =~= (a + b) + o.out);
        },
        None => {},
    }
}

proof fn lemma_prepend_prog_empty(r: Option<ProgramOutcome>)
    ensures
        prepend_prog(Seq::empty(), Seq::empty(), r) == r,
{
    match r {
        Some(p) => {
            assert(Seq::<Seq<char>>::empty() + p.out =~= p.out);
            assert(Seq::<RuntimeErrorModel>::empty() + p.errs =~= p.errs);
        },
        None => {},
    }
}

proof fn lemma_prepend_prog_concat(
    ao: Seq<Seq<char>>,
    ae: Seq<RuntimeErrorModel>,
    bo: Seq<Seq<char>>,
    be: Seq<RuntimeErrorModel>,
    r: Option<ProgramOutcome>,
)
    ensures
        prepend_prog(ao, ae, prepend_prog(bo, be, r)) == prepend_prog(ao + bo, ae + be, r),
{
    match r {
        Some(p) => {
            assert(ao + (bo + p.out) =~= (ao + bo) + p.out);
            assert(ae + (be + p.errs) =~= (ae + be) + p.errs);
        },
        None => {},
    }
}

/// The model of a statement sequence indexes pointwise.
pub proof fn lemma_stmts_model_props(ss: Seq<Stmt>)
    ensures
        stmts_model(ss).len() == ss.len(),
        forall|i: int| 0 <= i < ss.len() ==> stmts_model(ss)[i] == stmt_model(ss[i]),
    decreases ss,
{
    if ss.len() > 0 {
        lemma_stmts_model_props(ss.drop_last());
    }
}

/// A completed statement keeps the number of scope frames.
pub proof fn lemma_stmt_env_len(s: StmtModel, env: EnvModel, fuel: nat)
    requires
        env.len() >= 1,
    ensures
        spec_exec_stmt(s, env, fuel) matches Some(o) ==> o.env.len() == env.len(),
    decreases fuel, s,
{
    match s {
        StmtModel::Expr(e) => {
            lemma_eval_env_len(e, env);
        },
        StmtModel::Print(e) => {
            lemma_eval_env_len(e, env);
        },
        StmtModel::Var(name, initializer) => {
            match initializer {
                Some(e) => {
                    lemma_eval_env_len(e, env);
                },
                None => {},
            }
        },
        StmtModel::Block(body) => {
            lemma_block_env_len(body, env.push(Seq::empty()), fuel);
        },
        StmtModel::If { condition, then_branch, else_branch } => {
            lemma_eval_env_len(condition, env);
            let c = spec_eval(condition, env);
            if c.res is Ok {
                lemma_stmt_env_len(*then_branch, c.env, fuel);
                match else_branch {
                    Some(b) => {
                        lemma_stmt_env_len(*b, c.env, fuel);
                    },
                    None => {},
                }
            }
        },
        StmtModel::While { condition, body } => {
            if fuel > 0 {
                lemma_eval_env_len(condition, env);
                let c = spec_eval(condition, env);
                if c.res is Ok {
                    lemma_stmt_env_len(*body, c.env, fuel);
                    match spec_exec_stmt(*body, c.env, fuel) {
                        Some(o) => {
                            if o.err is None {
                                lemma_stmt_env_len(s, o.env, (fuel - 1) as nat);
                            }
                        },
                        None => {},
                    }
                }
            }
        },
    }
}

/// A completed block keeps the number of scope frames.
pub proof fn lemma_block_env_len(ss: Seq<StmtModel>, env: EnvModel, fuel: nat)
    requires
        env.len() >= 1,
    ensures
        spec_exec_block(ss, env, fuel) matches Some(o) ==> o.env.len() == env.len(),
    decreases fuel, ss,
{
    if ss.len() > 0 {
        lemma_stmt_env_len(ss[0], env, fuel);
        match spec_exec_stmt(ss[0], env, fuel) {
            Some(o) => {
                if o.err is None {
                    lemma_block_env_len(ss.subrange(1, ss.len() as int), o.env, fuel);
                }
            },
            None => {},
        }
    }
}

/// Evaluating a numeric literal yields exactly that number, with the scope
/// chain untouched: literals never round, fail, or write.
pub proof fn lemma_literal_evaluates_to_itself(n: int, env: EnvModel)
    ensures
        spec_eval(ExprModel::Literal(SpecValue::Num(n)), env) == (EvalOutcome {
            res: Ok::<SpecValue, RuntimeErrorModel>(SpecValue::Num(n)),
            env,
        }),
{
}

/// Dividing any number by numeric zero is a division-by-zero error, never a
/// number: a language-level rule, not a numeric accident.
pub proof fn lemma_division_by_zero_is_error(op: TokenModel, a: int)
    requires
        op.kind == TokenType::SLASH,
    ensures
        spec_binary(op, SpecValue::Num(a), SpecValue::Num(0)) == Err::<
            SpecValue,
            RuntimeErrorModel,
        >(RuntimeErrorModel::DivisionByZero),
{
}

/// Assigning to a name that no scope binds is an undefined-variable error,
/// and the scope chain is left exactly as it was, provided the assigned
/// expression itself evaluated cleanly and without side effects.
pub proof fn lemma_assign_undefined_leaves_state(
    name: TokenModel,
    value: ExprModel,
    env: EnvModel,
)
    requires
        env_find(env, name.lexeme) is None,
        spec_eval(value, env).res is Ok,
        spec_eval(value, env).env == env,
    ensures
        spec_eval(ExprModel::Assign { name, value: Box::new(value) }, env) == (EvalOutcome {
            res: Err::<SpecValue, RuntimeErrorModel>(
                RuntimeErrorModel::UndefinedVariable(name.lexeme),
            ),
            env,
        }),
{
    let inner = spec_eval(value, env);
    crate::environment::lemma_env_set_find_agree(env, name.lexeme, inner.res->Ok_0);
}

/// How executing one statement ended.
pub enum ExecStatus {
    /// Ran to completion.
    Normal,
    /// Halted by a runtime error.
    Halted(RuntimeError),
    /// The step budget ran out inside a `while` loop.
    Exhausted,
}

/// The collected result of running a program: the print lines in order, the
/// runtime errors in order, and whether the step budget ran out.
pub struct ProgramOutput {
    pub output: Vec<String>,
    pub errors: Vec<RuntimeError>,
    pub exhausted: bool,
}

/// The tree-walking evaluator.  It owns the scope chain, which persists
/// across runs so that an interactive session keeps its globals.
pub struct Interpreter {
    env: Environment,
}

impl Interpreter {
    /// The scope chain the evaluator currently holds.
    pub closed spec fn env_model(&self) -> EnvModel {
        self.env@
    }

    pub open spec fn well_formed(&self) -> bool {
        self.env_model().len() >= 1
    }

    /// A fresh evaluator with one empty global scope.
    pub fn new() -> (r: Interpreter)
        ensures
            r.env_model() == seq![Seq::<(Seq<char>, SpecValue)>::empty()],
            r.well_formed(),
    {
        Interpreter { env: Environment::new() }
    }

    /// Truthiness of a value.
    pub fn is_truthy(&self, value: &Value) -> (r: bool)
        ensures
            r == spec_truthy(value@),
    {
        match value {
            Value::Boolean(b) => *b,
            Value::Nil => false,
            _ => true,
        }
    }

    /// Structural equality of two values.
    pub fn values_equal(&self, l: &Value, r: &Value) -> (b: bool)
        ensures
            b == spec_values_equal(l@, r@),
    {
        match (l, r) {
            (Value::Number(a), Value::Number(b)) => *a == *b,
            (Value::String(a), Value::String(b)) => *a == *b,
            (Value::Boolean(a), Value::Boolean(b)) => *a == *b,
            (Value::Nil, Value::Nil) => true,
            _ => false,
        }
    }

    /// The canonical display text of a value.
    pub fn stringify(&self, value: Value) -> (r: String)
        ensures
            r@ == stringify_text(value@),
    {
        match value {
            Value::Number(n) => i64_text(n),
            Value::Boolean(b) => if b {
                String::from_str("true")
            } else {
                String::from_str("false")
            },
            Value::String(s) => s,
            Value::Nil => String::from_str("nil"),
        }
    }

    /// Applies a unary operator to an evaluated operand.
    fn apply_unary(&self, operator: &Token, v: Value) -> (r: Result<Value, RuntimeError>)
        ensures
            match r {
                Ok(val) => spec_unary(operator@, v@) == Ok::<SpecValue, RuntimeErrorModel>(val@),
                Err(er) => spec_unary(operator@, v@) == Err::<SpecValue, RuntimeErrorModel>(er@),
            },
    {
        match operator.get_type() {
            TokenType::MINUS => match v {
                Value::Number(n) => if n == i64::MIN {
                    Err(RuntimeError::Overflow)
                } else {
                    Ok(Value::Number(-n))
                },
                _ => Err(RuntimeError::TypeMismatch(operator.lexeme_string())),
            },
            TokenType::BANG => Ok(Value::Boolean(!self.is_truthy(&v))),
            _ => Err(RuntimeError::TypeMismatch(operator.lexeme_string())),
        }
    }

    /// Applies a binary operator to two evaluated operands.
    fn apply_binary(&self, operator: &Token, l: Value, r: Value) -> (res: Result<
        Value,
        RuntimeError,
    >)
        ensures
            match res {
                Ok(val) => spec_binary(operator@, l@, r@) == Ok::<
                    SpecValue,
                    RuntimeErrorModel,
                >(val@),
                Err(er) => spec_binary(operator@, l@, r@) == Err::<
                    SpecValue,
                    RuntimeErrorModel,
                >(er@),
            },
    {
        match operator.get_type() {
            TokenType::PLUS => match (l, r) {
                (Value::Number(a), Value::Number(b)) => match a.checked_add(b) {
                    Some(c) => Ok(Value::Number(c)),
                    None => Err(RuntimeError::Overflow),
                },
                (Value::String(a), Value::String(b)) => Ok(Value::String(a.concat(b.as_str()))),
                _ => Err(RuntimeError::TypeMismatch(operator.lexeme_string())),
            },
            TokenType::MINUS => match (l, r) {
                (Value::Number(a), Value::Number(b)) => match a.checked_sub(b) {
                    Some(c) => Ok(Value::Number(c)),
                    None => Err(RuntimeError::Overflow),
                },
                _ => Err(RuntimeError::TypeMismatch(operator.lexeme_string())),
            },
            TokenType::STAR => match (l, r) {
                (Value::Number(a), Value::Number(b)) => match a.checked_mul(b) {
                    Some(c) => Ok(Value::Number(c)),
                    None => Err(RuntimeError::Overflow),
                },
                _ => Err(RuntimeError::TypeMismatch(operator.lexeme_string())),
            },
            TokenType::SLASH => match (l, r) {
                (Value::Number(a), Value::Number(b)) => if b == 0 {
                    Err(RuntimeError::DivisionByZero)
                } else {
                    match a.checked_div(b) {
                        Some(c) => Ok(Value::Number(c)),
                        None => Err(RuntimeError::Overflow),
                    }
                },
                _ => Err(RuntimeError::TypeMismatch(operator.lexeme_string())),
            },
            TokenType::EQUAL_EQUAL => Ok(Value::Boolean(self.values_equal(&l, &r))),
            TokenType::BANG_EQUAL => Ok(Value::Boolean(!self.values_equal(&l, &r))),
            TokenType::GREATER => match (l, r) {
                (Value::Number(a), Value::Number(b)) => Ok(Value::Boolean(a > b)),
                _ => Err(RuntimeError::TypeMismatch(operator.lexeme_string())),
            },
            TokenType::GREATER_EQUAL => match (l, r) {
                (Value::Number(a), Value::Number(b)) => Ok(Value::Boolean(a >= b)),
                _ => Err(RuntimeError::TypeMismatch(operator.lexeme_string())),
            },
            TokenType::LESS => match (l, r) {
                (Value::Number(a), Value::Number(b)) => Ok(Value::Boolean(a < b)),
                _ => Err(RuntimeError::TypeMismatch(operator.lexeme_string())),
            },
            TokenType::LESS_EQUAL => match (l, r) {
                (Value::Number(a), Value::Number(b)) => Ok(Value::Boolean(a <= b)),
                _ => Err(RuntimeError::TypeMismatch(operator.lexeme_string())),
            },
            _ => Err(RuntimeError::TypeMismatch(operator.lexeme_string())),
        }
    }

    /// Evaluates one expression against the current scope chain, mutating it
    /// through any assignments the expression makes.
    pub fn evaluate(&mut self, expr: &Expr) -> (r: Result<Value, RuntimeError>)
        requires
            old(self).well_formed(),
        ensures
            final(self).env_model() == spec_eval(expr_model(*expr), old(self).env_model()).env,
            final(self).env_model().len() == old(self).env_model().len(),
            final(self).well_formed(),
            match r {
                Ok(val) => spec_eval(expr_model(*expr), old(self).env_model()).res == Ok::<
                    SpecValue,
                    RuntimeErrorModel,
                >(val@),
                Err(er) => spec_eval(expr_model(*expr), old(self).env_model()).res == Err::<
                    SpecValue,
                    RuntimeErrorModel,
                >(er@),
            },
        decreases *expr,
    {
        proof {
            lemma_eval_env_len(expr_model(*expr), old(self).env_model());
        }
        match expr {
            Expr::Literal(v) => Ok(v.clone()),
            Expr::Grouping(inner) => self.evaluate(inner),
            Expr::Variable(name) => self.env.get(name),
            Expr::Assign { name, value } => {
                let v = self.evaluate(value)?;
                self.env.assign(name, v)
            },
            Expr::Unary { operator, right } => {
                let v = self.evaluate(right)?;
                self.apply_unary(operator, v)
            },
            Expr::Binary { left, operator, right } => {
                let lv = self.evaluate(left)?;
                let rv = self.evaluate(right)?;
                self.apply_binary(operator, lv, rv)
            },
        }
    }

    /// Executes one statement with the given step budget, pushing each print
    /// line onto `out`.  The result and the state afterwards are exactly
    /// what the specification-level execution gives at the same budget.
    #[verifier::loop_isolation(false)]
    pub fn execute(&mut self, stmt: &Stmt, fuel: u64, out: &mut Vec<String>) -> (r: ExecStatus)
        requires
            old(self).well_formed(),
        ensures
            final(self).well_formed(),
            final(self).env_model().len() == old(self).env_model().len(),
            match spec_exec_stmt(stmt_model(*stmt), old(self).env_model(), fuel as nat) {
                Some(o) => {
                    &&& final(self).env_model() == o.env
                    &&& out_texts(final(out)@) == out_texts(old(out)@) + o.out
                    &&& match o.err {
                        Some(e) => r matches ExecStatus::Halted(er) && er@ == e,
                        None => r is Normal,
                    }
                },
                None => {
                    &&& r is Exhausted
                },
            },
        decreases *stmt,
    {
        proof {
            lemma_stmt_env_len(stmt_model(*stmt), old(self).env_model(), fuel as nat);
        }
        match stmt {
            Stmt::Expr(e) => {
                let status = match self.evaluate(e) {
                    Ok(_) => ExecStatus::Normal,
                    Err(er) => ExecStatus::Halted(er),
                };
                proof {
                    assert(out_texts(out@) =~= out_texts(old(out)@) + Seq::<Seq<char>>::empty());
                }
                status
            },
            Stmt::Print(e) => {
                match self.evaluate(e) {
                    Ok(v) => {
                        let ghost vm = v@;
                        let line = self.stringify(v);
                        out.push(line);
                        proof {
                            assert(out_texts(out@) =~= out_texts(old(out)@) + seq![
                                stringify_text(vm),
                            ]);
                        }
                        ExecStatus::Normal
                    },
                    Err(er) => {
                        proof {
                            assert(out_texts(out@) =~= out_texts(old(out)@)
                                + Seq::<Seq<char>>::empty());
                        }
                        ExecStatus::Halted(er)
                    },
                }
            },
            Stmt::Var(name, initializer) => {
                let v = match initializer {
                    Some(e) => match self.evaluate(e) {
                        Ok(v) => v,
                        Err(er) => {
                            proof {
                                assert(out_texts(out@) =~= out_texts(old(out)@)
                                    + Seq::<Seq<char>>::empty());
                            }
                            return ExecStatus::Halted(er);
                        },
                    },
                    None => Value::Nil,
                };
                self.env.define(name.lexeme_string(), v);
                proof {
                    assert(out_texts(out@) =~= out_texts(old(out)@) + Seq::<Seq<char>>::empty());
                }
                ExecStatus::Normal
            },
            Stmt::Block(body) => {
                self.env.push_scope();
                let status = self.execute_block(body, fuel, out);
                self.env.pop_scope();
                status
            },
            Stmt::If { condition, then_branch, else_branch } => {
                match self.evaluate(condition) {
                    Ok(c) => {
                        if self.is_truthy(&c) {
                            self.execute(&**then_branch, fuel, out)
                        } else {
                            match else_branch {
                                Some(b) => self.execute(&**b, fuel, out),
                                None => {
                                    proof {
                                        assert(out_texts(out@) =~= out_texts(old(out)@)
                                            + Seq::<Seq<char>>::empty());
                                    }
                                    ExecStatus::Normal
                                },
                            }
                        }
                    },
                    Err(er) => {
                        proof {
                            assert(out_texts(out@) =~= out_texts(old(out)@)
                                + Seq::<Seq<char>>::empty());
                        }
                        ExecStatus::Halted(er)
                    },
                }
            },
            Stmt::While { condition, body } => {
                let ghost wm = stmt_model(*stmt);
                let ghost env0 = self.env_model();
                let ghost base = out_texts(out@);
                let ghost mut acc: Seq<Seq<char>> = Seq::empty();
                let mut remaining: u64 = fuel;
                proof {
                    lemma_prepend_out_empty(spec_exec_stmt(wm, env0, fuel as nat));
                }
                loop
                    invariant
                        self.well_formed(),
                        self.env_model().len() == env0.len(),
                        env0 == old(self).env_model(),
                        base == out_texts(old(out)@),
                        wm == stmt_model(*stmt),
                        out_texts(out@) == base + acc,
                        spec_exec_stmt(wm, env0, fuel as nat) == prepend_out(
                            acc,
                            spec_exec_stmt(wm, self.env_model(), remaining as nat),
                        ),
                    decreases remaining,
                {
                    proof {
                        lemma_stmt_env_len(wm, self.env_model(), remaining as nat);
                    }
                    if remaining == 0 {
                        return ExecStatus::Exhausted;
                    }
                    let ghost mid0 = self.env_model();
                    match self.evaluate(condition) {
                        Err(er) => {
                            proof {
                                assert(out_texts(out@) =~= base + (acc
                                    + Seq::<Seq<char>>::empty()));
                            }
                            return ExecStatus::Halted(er);
                        },
                        Ok(c) => {
                            if !self.is_truthy(&c) {
                                proof {
                                    assert(out_texts(out@) =~= base + (acc
                                        + Seq::<Seq<char>>::empty()));
                                }
                                return ExecStatus::Normal;
                            }
                            let ghost mid = self.env_model();
                            let st = self.execute(&**body, remaining, out);
                            match st {
                                ExecStatus::Normal => {
                                    proof {
                                        let o = spec_exec_stmt(
                                            stmt_model(**body),
                                            mid,
                                            remaining as nat,
                                        )->Some_0;
                                        lemma_prepend_out_concat(
                                            acc,
                                            o.out,
                                            spec_exec_stmt(
                                                wm,
                                                o.env,
                                                (remaining - 1) as nat,
                                            ),
                                        );
                                        acc = acc + o.out;
                                    }
                                    remaining = remaining - 1;
                                },
                                ExecStatus::Halted(er) => {
                                    return ExecStatus::Halted(er);
                                },
                                ExecStatus::Exhausted => {
                                    return ExecStatus::Exhausted;
                                },
                            }
                        },
                    }
                }
            },
        }
    }

    /// Executes a block's statements in order against the current chain; the
    /// first error halts the rest of the block and is passed up.
    #[verifier::loop_isolation(false)]
    fn execute_block(&mut self, body: &Vec<Stmt>, fuel: u64, out: &mut Vec<String>) -> (r:
        ExecStatus)
        requires
            old(self).well_formed(),
        ensures
            final(self).well_formed(),
            final(self).env_model().len() == old(self).env_model().len(),
            match spec_exec_block(stmts_model(body@), old(self).env_model(), fuel as nat) {
                Some(o) => {
                    &&& final(self).env_model() == o.env
                    &&& out_texts(final(out)@) == out_texts(old(out)@) + o.out
                    &&& match o.err {
                        Some(e) => r matches ExecStatus::Halted(er) && er@ == e,
                        None => r is Normal,
                    }
                },
                None => {
                    &&& r is Exhausted
                },
            },
        decreases body@,
    {
        let ghost bm = stmts_model(body@);
        let ghost env0 = self.env_model();
        let ghost base = out_texts(out@);
        let ghost mut acc: Seq<Seq<char>> = Seq::empty();
        proof {
            lemma_stmts_model_props(body@);
            lemma_prepend_out_empty(spec_exec_block(bm, env0, fuel as nat));
            assert(bm.subrange(0, bm.len() as int) =~= bm);
        }
        let mut i: usize = 0;
        while i < body.len()
            invariant
                i <= body.len(),
                self.well_formed(),
                self.env_model().len() == env0.len(),
                out_texts(out@) == base + acc,
                spec_exec_block(bm, env0, fuel as nat) == prepend_out(
                    acc,
                    spec_exec_block(
                        bm.subrange(i as int, bm.len() as int),
                        self.env_model(),
                        fuel as nat,
                    ),
                ),
            decreases body.len() - i,
        {
            let ghost rest = bm.subrange(i as int, bm.len() as int);
            let ghost mid = self.env_model();
            proof {
                assert(rest[0] == stmt_model(body@[i as int]));
            }
            let st = self.execute(&body[i], fuel, out);
            match st {
                ExecStatus::Normal => {
                    proof {
                        let o = spec_exec_stmt(rest[0], mid, fuel as nat)->Some_0;
                        assert(rest.subrange(1, rest.len() as int) =~= bm.subrange(
                            i + 1,
                            bm.len() as int,
                        ));
                        lemma_prepend_out_concat(
                            acc,
                            o.out,
                            spec_exec_block(
                                bm.subrange(i + 1, bm.len() as int),
                                o.env,
                                fuel as nat,
                            ),
                        );
                        acc = acc + o.out;
                    }
                    i = i + 1;
                },
                ExecStatus::Halted(er) => {
                    return ExecStatus::Halted(er);
                },
                ExecStatus::Exhausted => {
                    return ExecStatus::Exhausted;
                },
            }
        }
        proof {
            assert(bm.subrange(i as int, bm.len() as int) =~= Seq::<StmtModel>::empty());
            assert(acc + Seq::<Seq<char>>::empty() =~= acc);
        }
        ExecStatus::Normal
    }

    /// Runs a program: executes the statements in order with the given step
    /// budget; each statement's error is collected and execution continues
    /// with the next statement.  `exhausted` reports a budget that ran out,
    /// in which case execution stopped early.
    #[verifier::loop_isolation(false)]
    pub fn interpret(&mut self, statements: &Vec<Stmt>, fuel: u64) -> (r: ProgramOutput)
        requires
            old(self).well_formed(),
        ensures
            final(self).well_formed(),
            match spec_run_program(stmts_model(statements@), old(self).env_model(), fuel as nat) {
                Some(p) => {
                    &&& r.exhausted == false
                    &&& final(self).env_model() == p.env
                    &&& out_texts(r.output@) == p.out
                    &&& errs_model(r.errors@) == p.errs
                },
                None => {
                    &&& r.exhausted == true
                },
            },
    {
        let ghost pm = stmts_model(statements@);
        let ghost env0 = self.env_model();
        let mut output: Vec<String> = Vec::new();
        let mut errors: Vec<RuntimeError> = Vec::new();
        proof {
            lemma_stmts_model_props(statements@);
            lemma_prepend_prog_empty(spec_run_program(pm, env0, fuel as nat));
            assert(pm.subrange(0, pm.len() as int) =~= pm);
            assert(out_texts(output@) =~= Seq::<Seq<char>>::empty());
            assert(errs_model(errors@) =~= Seq::<RuntimeErrorModel>::empty());
        }
        let mut i: usize = 0;
        while i < statements.len()
            invariant
                i <= statements.len(),
                self.well_formed(),
                spec_run_program(pm, env0, fuel as nat) == prepend_prog(
                    out_texts(output@),
                    errs_model(errors@),
                    spec_run_program(
                        pm.subrange(i as int, pm.len() as int),
                        self.env_model(),
                        fuel as nat,
                    ),
                ),
            decreases statements.len() - i,
        {
            let ghost rest = pm.subrange(i as int, pm.len() as int);
            let ghost mid = self.env_model();
            let ghost out_before = out_texts(output@);
            let ghost errs_before = errs_model(errors@);
            proof {
                assert(rest[0] == stmt_model(statements@[i as int]));
            }
            let st = self.execute(&statements[i], fuel, &mut output);
            match st {
                ExecStatus::Normal => {
                    proof {
                        let o = spec_exec_stmt(rest[0], mid, fuel as nat)->Some_0;
                        assert(rest.subrange(1, rest.len() as int) =~= pm.subrange(
                            i + 1,
                            pm.len() as int,
                        ));
                        assert(errs_before + Seq::<RuntimeErrorModel>::empty() =~= errs_before);
                        lemma_prepend_prog_concat(
                            out_before,
                            errs_before,
                            o.out,
                            Seq::<RuntimeErrorModel>::empty(),
                            spec_run_program(
                                pm.subrange(i + 1, pm.len() as int),
                                o.env,
                                fuel as nat,
                            ),
                        );
                    }
                    i = i + 1;
                },
                ExecStatus::Halted(er) => {
                    let ghost erm = er@;
                    errors.push(er);
                    proof {
                        let o = spec_exec_stmt(rest[0], mid, fuel as nat)->Some_0;
                        assert(rest.subrange(1, rest.len() as int) =~= pm.subrange(
                            i + 1,
                            pm.len() as int,
                        ));
                        assert(errs_model(errors@) =~= errs_before + seq![erm]);
                        lemma_prepend_prog_concat(
                            out_before,
                            errs_before,
                            o.out,
                            seq![erm],
                            spec_run_program(
                                pm.subrange(i + 1, pm.len() as int),
                                o.env,
                                fuel as nat,
                            ),
                        );
                    }
                    i = i + 1;
                },
                ExecStatus::Exhausted => {
                    return ProgramOutput { output, errors, exhausted: true };
                },
            }
        }
        proof {
            assert(pm.subrange(i as int, pm.len() as int) =~= Seq::<StmtModel>::empty());
            assert(out_texts(output@) + Seq::<Seq<char>>::empty() =~= out_texts(output@));
            assert(errs_model(errors@) + Seq::<RuntimeErrorModel>::empty() =~= errs_model(
                errors@,
            ));
        }
        ProgramOutput { output, errors, exhausted: false }
    }
}

} // verus!
