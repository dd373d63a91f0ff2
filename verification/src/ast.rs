//! The parsed structure of Kyber programs: what was written, as opposed to
//! the values that running it produces.

use vstd::prelude::*;
use crate::value::{Type, Param, ParamV, params_view};

verus! {

broadcast use vstd::std_specs::vec::group_vec_axioms;

/// A binary operator: arithmetic ones produce numbers, comparison ones booleans.
#[derive(Debug, Clone, Copy, PartialEq, Eq, Structural)]
pub enum BinOp {
    // Arithmetic operators
    Add,
    Subtract,
    Multiply,
    Divide,
    Modulo,
    // Comparison operators
    Less,
    Greater,
    LessEqual,
    GreaterEqual,
    EqualEqual,
    NotEqual,
}

/// A prefix operator.
#[derive(Debug, Clone, Copy, PartialEq, Eq, Structural)]
pub enum UnaryOp {
    Negate,
    Not,
}

/// Anything that produces a value. A variable holds only its name: it is
/// resolved when the expression is evaluated. A float literal keeps the
/// decimal text it was written with.
#[derive(Debug, PartialEq)]
pub enum Expr {
    Call { name: String, arguments: Vec<Expr> },
    Int(i64),
    Float(String),
    Bool(bool),
    Variable(String),
    Binary(BinOp, Box<Expr>, Box<Expr>),
    Unary(UnaryOp, Box<Expr>),
}

/// A statement.
#[derive(Debug, PartialEq)]
pub enum Stmt {
    Declaration { is_mutable: bool, declared_type: Type, name: String, value: Expr },
    Assignment { name: String, value: Expr },
    If { condition: Expr, then_branch: Vec<Stmt>, else_branch: Option<Box<Stmt>> },
    While { condition: Expr, body: Vec<Stmt> },
    For {
        var: String,
        start: Expr,
        inclusive: bool,
        end: Expr,
        step: Option<Expr>,
        body: Vec<Stmt>,
    },
    FunctionDef { name: String, parameters: Vec<Param>, return_type: Type, body: Vec<Stmt> },
    Block(Vec<Stmt>),
    Print(Expr),
    Expr(Expr),
    Return(Option<Expr>),
    Break,
    Continue,
}

/// The mathematical counterpart of an [`Expr`].
pub enum ExprV {
    Call { name: Seq<char>, arguments: Seq<ExprV> },
    Int(i64),
    Float(Seq<char>),
    Bool(bool),
    Variable(Seq<char>),
    Binary(BinOp, Box<ExprV>, Box<ExprV>),
    Unary(UnaryOp, Box<ExprV>),
}

/// The mathematical counterpart of a [`Stmt`].
pub enum StmtV {
    Declaration { is_mutable: bool, declared_type: Type, name: Seq<char>, value: ExprV },
    Assignment { name: Seq<char>, value: ExprV },
    If { condition: ExprV, then_branch: Seq<StmtV>, else_branch: Option<Box<StmtV>> },
    While { condition: ExprV, body: Seq<StmtV> },
    For {
        var: Seq<char>,
        start: ExprV,
        inclusive: bool,
        end: ExprV,
        step: Option<ExprV>,
        body: Seq<StmtV>,
    },
    FunctionDef { name: Seq<char>, parameters: Seq<ParamV>, return_type: Type, body: Seq<StmtV> },
    Block(Seq<StmtV>),
    Print(ExprV),
    Expr(ExprV),
    Return(Option<ExprV>),
    Break,
    Continue,
}

pub open spec fn expr_view(e: Expr) -> ExprV
    decreases e,
{
    match e {
        Expr::Call { name, arguments } => ExprV::Call {
            name: name@,
            arguments: exprs_view(arguments@),
        },
        Expr::Int(n) => ExprV::Int(n),
        Expr::Float(t) => ExprV::Float(t@),
        Expr::Bool(b) => ExprV::Bool(b),
        Expr::Variable(n) => ExprV::Variable(n@),
        Expr::Binary(op, l, r) => ExprV::Binary(op, Box::new(expr_view(*l)), Box::new(expr_view(*r))),
        Expr::Unary(op, x) => ExprV::Unary(op, Box::new(expr_view(*x))),
    }
}

pub open spec fn exprs_view(s: Seq<Expr>) -> Seq<ExprV>
    decreases s,
{
    if s.len() == 0 {
        Seq::empty()
    } else {
        exprs_view(s.drop_last()).push(expr_view(s.last()))
    }
}

pub open spec fn opt_expr_view(e: Option<Expr>) -> Option<ExprV> {
    match e {
        Some(x) => Some(expr_view(x)),
        None => None,
    }
}

pub open spec fn stmt_view(s: Stmt) -> StmtV
    decreases s,
{
    match s {
        Stmt::Declaration { is_mutable, declared_type, name, value } => StmtV::Declaration {
            is_mutable,
            declared_type,
            name: name@,
            value: expr_view(value),
        },
        Stmt::Assignment { name, value } => StmtV::Assignment { name: name@, value: expr_view(value) },
        Stmt::If { condition, then_branch, else_branch } => StmtV::If {
            condition: expr_view(condition),
            then_branch: stmts_view(then_branch@),
            else_branch: match else_branch {
                Some(b) => Some(Box::new(stmt_view(*b))),
                None => None,
            },
        },
        Stmt::While { condition, body } => StmtV::While {
            condition: expr_view(condition),
            body: stmts_view(body@),
        },
        Stmt::For { var, start, inclusive, end, step, body } => StmtV::For {
            var: var@,
            start: expr_view(start),
            inclusive,
            end: expr_view(end),
            step: opt_expr_view(step),
            body: stmts_view(body@),
        },
        Stmt::FunctionDef { name, parameters, return_type, body } => StmtV::FunctionDef {
            name: name@,
            parameters: params_view(parameters@),
            return_type,
            body: stmts_view(body@),
        },
        Stmt::Block(b) => StmtV::Block(stmts_view(b@)),
        Stmt::Print(e) => StmtV::Print(expr_view(e)),
        Stmt::Expr(e) => StmtV::Expr(expr_view(e)),
        Stmt::Return(e) => StmtV::Return(opt_expr_view(e)),
        Stmt::Break => StmtV::Break,
        Stmt::Continue => StmtV::Continue,
    }
}

pub open spec fn stmts_view(s: Seq<Stmt>) -> Seq<StmtV>
    decreases s,
{
    if s.len() == 0 {
        Seq::empty()
    } else {
        stmts_view(s.drop_last()).push(stmt_view(s.last()))
    }
}

impl View for Expr {
    type V = ExprV;

    open spec fn view(&self) -> ExprV {
        expr_view(*self)
    }
}

impl View for Stmt {
    type V = StmtV;

    open spec fn view(&self) -> StmtV {
        stmt_view(*self)
    }
}

impl Expr {
    /// A copy of this expression.
    pub fn duplicate(&self) -> (r: Expr)
        ensures
            r@ == self@,
        decreases self,
    {
        match self {
            Expr::Call { name, arguments } => Expr::Call {
                name: name.clone(),
                arguments: duplicate_exprs(arguments),
            },
            Expr::Int(n) => Expr::Int(*n),
            Expr::Float(text) => Expr::Float(text.clone()),
            Expr::Bool(b) => Expr::Bool(*b),
            Expr::Variable(name) => Expr::Variable(name.clone()),
            Expr::Binary(op, l, r) => {
                let l2 = (**l).duplicate();
                let r2 = (**r).duplicate();
                Expr::Binary(*op, Box::new(l2), Box::new(r2))
            },
            Expr::Unary(op, x) => {
                let x2 = (**x).duplicate();
                Expr::Unary(*op, Box::new(x2))
            },
        }
    }
}

/// Copies of expressions.
pub fn duplicate_exprs(v: &Vec<Expr>) -> (r: Vec<Expr>)
    ensures
        exprs_view(r@) == exprs_view(v@),
    decreases v,
{
    let mut out: Vec<Expr> = Vec::new();
    let mut i: usize = 0;
    while i < v.len()
        invariant
            i <= v@.len(),
            exprs_view(out@) == exprs_view(v@.take(i as int)),
        decreases v.len() - i,
    {
        let e = v[i].duplicate();
        proof {
            assert(out@.push(e).drop_last() == out@);
            assert(v@.take(i + 1).drop_last() == v@.take(i as int));
        }
        out.push(e);
        i = i + 1;
    }
    assert(v@.take(v@.len() as int) == v@);
    out
}

/// A copy of an optional expression.
pub fn duplicate_opt_expr(e: &Option<Expr>) -> (r: Option<Expr>)
    ensures
        opt_expr_view(r) == opt_expr_view(*e),
{
    match e {
        Some(x) => Some(x.duplicate()),
        None => None,
    }
}

impl Stmt {
    /// A copy of this statement.
    pub fn duplicate(&self) -> (r: Stmt)
        ensures
            r@ == self@,
        decreases self,
    {
        match self {
            Stmt::Declaration { is_mutable, declared_type, name, value } => Stmt::Declaration {
                is_mutable: *is_mutable,
                declared_type: *declared_type,
                name: name.clone(),
                value: value.duplicate(),
            },
            Stmt::Assignment { name, value } => Stmt::Assignment {
                name: name.clone(),
                value: value.duplicate(),
            },
            Stmt::If { condition, then_branch, else_branch } => {
                let e2 = match else_branch {
                    Some(b) => {
                        let b2 = (**b).duplicate();
                        Some(Box::new(b2))
                    },
                    None => None,
                };
                Stmt::If {
                    condition: condition.duplicate(),
                    then_branch: duplicate_stmts(then_branch),
                    else_branch: e2,
                }
            },
            Stmt::While { condition, body } => Stmt::While {
                condition: condition.duplicate(),
                body: duplicate_stmts(body),
            },
            Stmt::For { var, start, inclusive, end, step, body } => Stmt::For {
                var: var.clone(),
                start: start.duplicate(),
                inclusive: *inclusive,
                end: end.duplicate(),
                step: duplicate_opt_expr(step),
                body: duplicate_stmts(body),
            },
            Stmt::FunctionDef { name, parameters, return_type, body } => Stmt::FunctionDef {
                name: name.clone(),
                parameters: duplicate_params(parameters),
                return_type: *return_type,
                body: duplicate_stmts(body),
            },
            Stmt::Block(b) => Stmt::Block(duplicate_stmts(b)),
            Stmt::Print(e) => Stmt::Print(e.duplicate()),
            Stmt::Expr(e) => Stmt::Expr(e.duplicate()),
            Stmt::Return(e) => Stmt::Return(duplicate_opt_expr(e)),
            Stmt::Break => Stmt::Break,
            Stmt::Continue => Stmt::Continue,
        }
    }
}

/// Copies of statements.
pub fn duplicate_stmts(v: &Vec<Stmt>) -> (r: Vec<Stmt>)
    ensures
        stmts_view(r@) == stmts_view(v@),
    decreases v,
{
    let mut out: Vec<Stmt> = Vec::new();
    let mut i: usize = 0;
    while i < v.len()
        invariant
            i <= v@.len(),
            stmts_view(out@) == stmts_view(v@.take(i as int)),
        decreases v.len() - i,
    {
        let s = v[i].duplicate();
        proof {
            assert(out@.push(s).drop_last() == out@);
            assert(v@.take(i + 1).drop_last() == v@.take(i as int));
        }
        out.push(s);
        i = i + 1;
    }
    assert(v@.take(v@.len() as int) == v@);
    out
}

/// Copies of parameters.
pub fn duplicate_params(v: &Vec<Param>) -> (r: Vec<Param>)
    ensures
        params_view(r@) == params_view(v@),
{
    let mut out: Vec<Param> = Vec::new();
    let mut i: usize = 0;
    while i < v.len()
        invariant
            i <= v@.len(),
            out@.len() == i,
            forall|k: int| 0 <= k < i ==> #[trigger] out@[k]@ == v@[k]@,
        decreases v.len() - i,
    {
        let p = Param { name: v[i].name.clone(), param_type: v[i].param_type };
        out.push(p);
        i = i + 1;
    }
    assert(params_view(out@) =~= params_view(v@));
    out
}

} // verus!
