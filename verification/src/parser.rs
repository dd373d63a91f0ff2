//! The parser: turns the token stream into statements, by recursive descent
//! with one function per precedence level. Comparisons bind loosest, then
//! `+` and `-`, then `*`, `/` and `%`, then the prefix operators and atoms;
//! operators of one level associate to the left.

use vstd::prelude::*;
use crate::token::{Token, TokenV, tokens_view};
use crate::ast::{BinOp, UnaryOp, Expr, ExprV, Stmt, StmtV, stmts_view, opt_expr_view};
use crate::value::Type;
use crate::lexer::{ends_with_eof, lex, lemma_lex_ends_with_eof};

verus! {

broadcast use vstd::std_specs::vec::group_vec_axioms;

/// Why a token stream is not a program.
#[derive(Debug, Clone)]
pub enum ParseError {
    /// `let` or `const` not followed by `int`, `float` or `bool`.
    ExpectedType,
    /// A declaration or statement without the variable's name where it belongs.
    ExpectedVariableName,
    /// A statement that starts with a name not followed by `=`, `+=`, `-=`, `*=`, `/=` or `%=`.
    ExpectedAssignmentOperator,
    /// `for` not followed by the loop variable's name.
    ExpectedLoopVariable,
    /// A `for` loop without `..` or `..=` between its bounds.
    ExpectedRange,
    /// A parenthesised expression without its closing `)`.
    ExpectedClosingParen,
    /// A token where an operand (number, boolean, name, `(`, `-` or `!`) belongs.
    ExpectedOperand(Token),
    /// A token other than the one the grammar requires at this place.
    Expected { expected: Token, found: Token },
    /// The tokens ended before the program did (there was no `Eof` to stop at).
    OutOfTokens,
}

/// The mathematical counterpart of a [`ParseError`].
pub enum ParseErrorV {
    ExpectedType,
    ExpectedVariableName,
    ExpectedAssignmentOperator,
    ExpectedLoopVariable,
    ExpectedRange,
    ExpectedClosingParen,
    ExpectedOperand(TokenV),
    Expected { expected: TokenV, found: TokenV },
    OutOfTokens,
}

impl View for ParseError {
    type V = ParseErrorV;

    open spec fn view(&self) -> ParseErrorV {
        match self {
            ParseError::ExpectedType => ParseErrorV::ExpectedType,
            ParseError::ExpectedVariableName => ParseErrorV::ExpectedVariableName,
            ParseError::ExpectedAssignmentOperator => ParseErrorV::ExpectedAssignmentOperator,
            ParseError::ExpectedLoopVariable => ParseErrorV::ExpectedLoopVariable,
            ParseError::ExpectedRange => ParseErrorV::ExpectedRange,
            ParseError::ExpectedClosingParen => ParseErrorV::ExpectedClosingParen,
            ParseError::ExpectedOperand(t) => ParseErrorV::ExpectedOperand(t@),
            ParseError::Expected { expected, found } => ParseErrorV::Expected {
                expected: expected@,
                found: found@,
            },
            ParseError::OutOfTokens => ParseErrorV::OutOfTokens,
        }
    }
}

/// The token at position `p`, if there is one.
pub open spec fn tok(ts: Seq<TokenV>, p: int) -> Option<TokenV> {
    if 0 <= p < ts.len() {
        Some(ts[p])
    } else {
        None
    }
}

/// Consumes the token at `p`, which must be `expected`.
pub open spec fn expect_at(ts: Seq<TokenV>, p: int, expected: TokenV) -> Result<int, ParseErrorV> {
    match tok(ts, p) {
        None => Err(ParseErrorV::OutOfTokens),
        Some(t) => if t == expected {
            Ok(p + 1)
        } else {
            Err(ParseErrorV::Expected { expected, found: t })
        },
    }
}

/// A parsed expression and the position after it.
pub type ExprResult = Result<(ExprV, int), ParseErrorV>;

/// The operator of the comparison level, if `t` is one.
pub open spec fn comparison_op(t: TokenV) -> Option<BinOp> {
    match t {
        TokenV::Less => Some(BinOp::Less),
        TokenV::Greater => Some(BinOp::Greater),
        TokenV::LessEqual => Some(BinOp::LessEqual),
        TokenV::GreaterEqual => Some(BinOp::GreaterEqual),
        TokenV::EqualEqual => Some(BinOp::EqualEqual),
        TokenV::NotEqual => Some(BinOp::NotEqual),
        _ => None,
    }
}

/// The operator of the additive level, if `t` is one.
pub open spec fn additive_op(t: TokenV) -> Option<BinOp> {
    match t {
        TokenV::Plus => Some(BinOp::Add),
        TokenV::Minus => Some(BinOp::Subtract),
        _ => None,
    }
}

/// The operator of the multiplicative level, if `t` is one.
pub open spec fn multiplicative_op(t: TokenV) -> Option<BinOp> {
    match t {
        TokenV::Star => Some(BinOp::Multiply),
        TokenV::Slash => Some(BinOp::Divide),
        TokenV::Modulo => Some(BinOp::Modulo),
        _ => None,
    }
}

// The expression grammar. Each level parses one operand of the level below
// and then folds `op operand` pairs into the left operand. The checks that a
// position moved forward before a recursive call always hold (see
// `lemma_expression_progress`); they only show that the recursion ends.

/// A comparison: `expr (op expr)*`.
pub open spec fn parse_comparison_at(ts: Seq<TokenV>, p: int) -> ExprResult
    decreases ts.len() - p, 6int,
{
    match parse_expr_at(ts, p) {
        Ok((l, q)) => if p <= q <= ts.len() {
            comparison_rest(ts, q, l)
        } else {
            Err(ParseErrorV::OutOfTokens)
        },
        Err(e) => Err(e),
    }
}

pub open spec fn comparison_rest(ts: Seq<TokenV>, q: int, left: ExprV) -> ExprResult
    decreases ts.len() - q, 5int,
{
    match tok(ts, q) {
        None => Err(ParseErrorV::OutOfTokens),
        Some(t) => match comparison_op(t) {
            None => Ok((left, q)),
            Some(op) => match parse_expr_at(ts, q + 1) {
                Ok((r, q2)) => if q < q2 <= ts.len() {
                    comparison_rest(ts, q2, ExprV::Binary(op, Box::new(left), Box::new(r)))
                } else {
                    Err(ParseErrorV::OutOfTokens)
                },
                Err(e) => Err(e),
            },
        },
    }
}

/// A sum: `term (op term)*`.
pub open spec fn parse_expr_at(ts: Seq<TokenV>, p: int) -> ExprResult
    decreases ts.len() - p, 4int,
{
    match parse_term_at(ts, p) {
        Ok((l, q)) => if p <= q <= ts.len() {
            expr_rest(ts, q, l)
        } else {
            Err(ParseErrorV::OutOfTokens)
        },
        Err(e) => Err(e),
    }
}

pub open spec fn expr_rest(ts: Seq<TokenV>, q: int, left: ExprV) -> ExprResult
    decreases ts.len() - q, 3int,
{
    match tok(ts, q) {
        None => Err(ParseErrorV::OutOfTokens),
        Some(t) => match additive_op(t) {
            None => Ok((left, q)),
            Some(op) => match parse_term_at(ts, q + 1) {
                Ok((r, q2)) => if q < q2 <= ts.len() {
                    expr_rest(ts, q2, ExprV::Binary(op, Box::new(left), Box::new(r)))
                } else {
                    Err(ParseErrorV::OutOfTokens)
                },
                Err(e) => Err(e),
            },
        },
    }
}

/// A product: `factor (op factor)*`.
pub open spec fn parse_term_at(ts: Seq<TokenV>, p: int) -> ExprResult
    decreases ts.len() - p, 2int,
{
    match parse_factor_at(ts, p) {
        Ok((l, q)) => if p <= q <= ts.len() {
            term_rest(ts, q, l)
        } else {
            Err(ParseErrorV::OutOfTokens)
        },
        Err(e) => Err(e),
    }
}

pub open spec fn term_rest(ts: Seq<TokenV>, q: int, left: ExprV) -> ExprResult
    decreases ts.len() - q, 1int,
{
    match tok(ts, q) {
        None => Err(ParseErrorV::OutOfTokens),
        Some(t) => match multiplicative_op(t) {
            None => Ok((left, q)),
            Some(op) => match parse_factor_at(ts, q + 1) {
                Ok((r, q2)) => if q < q2 <= ts.len() {
                    term_rest(ts, q2, ExprV::Binary(op, Box::new(left), Box::new(r)))
                } else {
                    Err(ParseErrorV::OutOfTokens)
                },
                Err(e) => Err(e),
            },
        },
    }
}

/// An atom or a prefix operator applied to a factor. A `-` here is in operand
/// position and so a negation, binding tighter than any binary operator.
pub open spec fn parse_factor_at(ts: Seq<TokenV>, p: int) -> ExprResult
    decreases ts.len() - p, 0int,
{
    match tok(ts, p) {
        None => Err(ParseErrorV::OutOfTokens),
        Some(t) => match t {
            TokenV::Minus => match parse_factor_at(ts, p + 1) {
                Ok((x, q)) => Ok((ExprV::Unary(UnaryOp::Negate, Box::new(x)), q)),
                Err(e) => Err(e),
            },
            TokenV::Not => match parse_factor_at(ts, p + 1) {
                Ok((x, q)) => Ok((ExprV::Unary(UnaryOp::Not, Box::new(x)), q)),
                Err(e) => Err(e),
            },
            TokenV::Int(n) => Ok((ExprV::Int(n), p + 1)),
            TokenV::Float(text) => Ok((ExprV::Float(text), p + 1)),
            TokenV::True => Ok((ExprV::Bool(true), p + 1)),
            TokenV::False => Ok((ExprV::Bool(false), p + 1)),
            TokenV::LeftParen => match parse_comparison_at(ts, p + 1) {
                Ok((inner, q)) => match tok(ts, q) {
                    None => Err(ParseErrorV::OutOfTokens),
                    Some(TokenV::RightParen) => Ok((inner, q + 1)),
                    Some(_) => Err(ParseErrorV::ExpectedClosingParen),
                },
                Err(e) => Err(e),
            },
            TokenV::Identifier(name) => Ok((ExprV::Variable(name), p + 1)),
            other => Err(ParseErrorV::ExpectedOperand(other)),
        },
    }
}

/// Every expression level consumes at least one token, and never reads
/// past the end.
pub proof fn lemma_comparison_progress(ts: Seq<TokenV>, p: int)
    ensures
        parse_comparison_at(ts, p) matches Ok((_, q)) ==> p < q <= ts.len(),
    decreases ts.len() - p, 6int,
{
    lemma_expr_progress(ts, p);
    if let Ok((l, q)) = parse_expr_at(ts, p) {
        if p <= q <= ts.len() {
            lemma_comparison_rest_progress(ts, q, l);
        }
    }
}

/// A comparison fold consumes none or more tokens, and never reads past the end.
pub proof fn lemma_comparison_rest_progress(ts: Seq<TokenV>, q: int, left: ExprV)
    ensures
        comparison_rest(ts, q, left) matches Ok((_, q2)) ==> q <= q2 <= ts.len(),
    decreases ts.len() - q, 5int,
{
    if let Some(t) = tok(ts, q) {
        if let Some(op) = comparison_op(t) {
            lemma_expr_progress(ts, q + 1);
            if let Ok((r, q2)) = parse_expr_at(ts, q + 1) {
                if q < q2 <= ts.len() {
                    lemma_comparison_rest_progress(
                        ts,
                        q2,
                        ExprV::Binary(op, Box::new(left), Box::new(r)),
                    );
                }
            }
        }
    }
}

pub proof fn lemma_expr_progress(ts: Seq<TokenV>, p: int)
    ensures
        parse_expr_at(ts, p) matches Ok((_, q)) ==> p < q <= ts.len(),
    decreases ts.len() - p, 4int,
{
    lemma_term_progress(ts, p);
    if let Ok((l, q)) = parse_term_at(ts, p) {
        if p <= q <= ts.len() {
            lemma_expr_rest_progress(ts, q, l);
        }
    }
}

pub proof fn lemma_expr_rest_progress(ts: Seq<TokenV>, q: int, left: ExprV)
    ensures
        expr_rest(ts, q, left) matches Ok((_, q2)) ==> q <= q2 <= ts.len(),
    decreases ts.len() - q, 3int,
{
    if let Some(t) = tok(ts, q) {
        if let Some(op) = additive_op(t) {
            lemma_term_progress(ts, q + 1);
            if let Ok((r, q2)) = parse_term_at(ts, q + 1) {
                if q < q2 <= ts.len() {
                    lemma_expr_rest_progress(ts, q2, ExprV::Binary(op, Box::new(left), Box::new(r)));
                }
            }
        }
    }
}

pub proof fn lemma_term_progress(ts: Seq<TokenV>, p: int)
    ensures
        parse_term_at(ts, p) matches Ok((_, q)) ==> p < q <= ts.len(),
    decreases ts.len() - p, 2int,
{
    lemma_factor_progress(ts, p);
    if let Ok((l, q)) = parse_factor_at(ts, p) {
        if p <= q <= ts.len() {
            lemma_term_rest_progress(ts, q, l);
        }
    }
}

pub proof fn lemma_term_rest_progress(ts: Seq<TokenV>, q: int, left: ExprV)
    ensures
        term_rest(ts, q, left) matches Ok((_, q2)) ==> q <= q2 <= ts.len(),
    decreases ts.len() - q, 1int,
{
    if let Some(t) = tok(ts, q) {
        if let Some(op) = multiplicative_op(t) {
            lemma_factor_progress(ts, q + 1);
            if let Ok((r, q2)) = parse_factor_at(ts, q + 1) {
                if q < q2 <= ts.len() {
                    lemma_term_rest_progress(ts, q2, ExprV::Binary(op, Box::new(left), Box::new(r)));
                }
            }
        }
    }
}

pub proof fn lemma_factor_progress(ts: Seq<TokenV>, p: int)
    ensures
        parse_factor_at(ts, p) matches Ok((_, q)) ==> p < q <= ts.len(),
    decreases ts.len() - p, 0int,
{
    if let Some(t) = tok(ts, p) {
        match t {
            TokenV::Minus => lemma_factor_progress(ts, p + 1),
            TokenV::Not => lemma_factor_progress(ts, p + 1),
            TokenV::LeftParen => lemma_comparison_progress(ts, p + 1),
            _ => {},
        }
    }
}

/// A parsed statement and the position after it.
pub type StmtResult = Result<(StmtV, int), ParseErrorV>;

/// Parsed statements and the position after them.
pub type BlockResult = Result<(Seq<StmtV>, int), ParseErrorV>;

/// The declared type that a type keyword names.
pub open spec fn declared_type_of(t: TokenV) -> Option<Type> {
    match t {
        TokenV::IntType => Some(Type::Int),
        TokenV::FloatType => Some(Type::Float),
        TokenV::BoolType => Some(Type::Bool),
        _ => None,
    }
}

/// The operator of an assignment token: `Some(None)` for `=`, `Some(Some(op))`
/// for a compound assignment such as `+=`, `None` for any other token.
pub open spec fn assignment_op(t: TokenV) -> Option<Option<BinOp>> {
    match t {
        TokenV::Equals => Some(None),
        TokenV::PlusEqual => Some(Some(BinOp::Add)),
        TokenV::MinusEqual => Some(Some(BinOp::Subtract)),
        TokenV::StarEqual => Some(Some(BinOp::Multiply)),
        TokenV::SlashEqual => Some(Some(BinOp::Divide)),
        TokenV::ModuloEqual => Some(Some(BinOp::Modulo)),
        _ => None,
    }
}

/// `(comparison)`, starting at the `(` at `p`.
pub open spec fn paren_condition(ts: Seq<TokenV>, p: int) -> ExprResult {
    match expect_at(ts, p, TokenV::LeftParen) {
        Err(e) => Err(e),
        Ok(q) => match parse_comparison_at(ts, q) {
            Err(e) => Err(e),
            Ok((c, r)) => match expect_at(ts, r, TokenV::RightParen) {
                Err(e) => Err(e),
                Ok(s) => Ok((c, s)),
            },
        },
    }
}

/// An expression and the `;` after it, starting at `p`.
pub open spec fn terminated_expr(ts: Seq<TokenV>, p: int) -> ExprResult {
    match parse_comparison_at(ts, p) {
        Err(e) => Err(e),
        Ok((e, q)) => match expect_at(ts, q, TokenV::Semicolon) {
            Err(err) => Err(err),
            Ok(r) => Ok((e, r)),
        },
    }
}

/// `let T name = expr;` or `const T name = expr;`, with the keyword at `p`.
pub open spec fn parse_declaration_at(ts: Seq<TokenV>, p: int, is_mutable: bool) -> StmtResult {
    match tok(ts, p + 1) {
        None => Err(ParseErrorV::OutOfTokens),
        Some(t) => match declared_type_of(t) {
            None => Err(ParseErrorV::ExpectedType),
            Some(declared_type) => match tok(ts, p + 2) {
                None => Err(ParseErrorV::OutOfTokens),
                Some(TokenV::Identifier(name)) => match expect_at(ts, p + 3, TokenV::Equals) {
                    Err(e) => Err(e),
                    Ok(q) => match terminated_expr(ts, q) {
                        Err(e) => Err(e),
                        Ok((value, r)) => Ok(
                            (StmtV::Declaration { is_mutable, declared_type, name, value }, r),
                        ),
                    },
                },
                Some(_) => Err(ParseErrorV::ExpectedVariableName),
            },
        },
    }
}

/// `name = expr;` or `name op= expr;` (which stands for `name = name op expr;`),
/// with the name at `p`.
pub open spec fn parse_assignment_at(ts: Seq<TokenV>, p: int, name: Seq<char>) -> StmtResult {
    match tok(ts, p + 1) {
        None => Err(ParseErrorV::OutOfTokens),
        Some(t) => match assignment_op(t) {
            None => Err(ParseErrorV::ExpectedAssignmentOperator),
            Some(op) => match terminated_expr(ts, p + 2) {
                Err(e) => Err(e),
                Ok((rhs, q)) => {
                    let value = match op {
                        Some(o) => ExprV::Binary(
                            o,
                            Box::new(ExprV::Variable(name)),
                            Box::new(rhs),
                        ),
                        None => rhs,
                    };
                    Ok((StmtV::Assignment { name, value }, q))
                },
            },
        },
    }
}

/// `print(expr);`, with `print` at `p`.
pub open spec fn parse_print_at(ts: Seq<TokenV>, p: int) -> StmtResult {
    match paren_condition(ts, p + 1) {
        Err(e) => Err(e),
        Ok((e, q)) => match expect_at(ts, q, TokenV::Semicolon) {
            Err(err) => Err(err),
            Ok(r) => Ok((StmtV::Print(e), r)),
        },
    }
}

/// The header of a `for` loop: its variable, bounds, inclusiveness and step.
pub struct ForHeader {
    pub var: Seq<char>,
    pub start: ExprV,
    pub inclusive: bool,
    pub end: ExprV,
    pub step: Option<ExprV>,
}

/// `for name in start .. end` or `..=`, with an optional `by step`, with `for` at `p`.
pub open spec fn parse_for_header_at(ts: Seq<TokenV>, p: int) -> Result<(ForHeader, int), ParseErrorV> {
    match tok(ts, p + 1) {
        None => Err(ParseErrorV::OutOfTokens),
        Some(TokenV::Identifier(var)) => match expect_at(ts, p + 2, TokenV::In) {
            Err(e) => Err(e),
            Ok(q) => match parse_expr_at(ts, q) {
                Err(e) => Err(e),
                Ok((start, r)) => match tok(ts, r) {
                    None => Err(ParseErrorV::OutOfTokens),
                    Some(range) => {
                        let inclusive = range == TokenV::DotDotEqual;
                        if range != TokenV::DotDot && range != TokenV::DotDotEqual {
                            Err(ParseErrorV::ExpectedRange)
                        } else {
                            match parse_expr_at(ts, r + 1) {
                                Err(e) => Err(e),
                                Ok((end, s)) => match tok(ts, s) {
                                    None => Err(ParseErrorV::OutOfTokens),
                                    Some(TokenV::By) => match parse_expr_at(ts, s + 1) {
                                        Err(e) => Err(e),
                                        Ok((step, t)) => Ok(
                                            (ForHeader { var, start, inclusive, end, step: Some(step) }, t),
                                        ),
                                    },
                                    Some(_) => Ok(
                                        (ForHeader { var, start, inclusive, end, step: None }, s),
                                    ),
                                },
                            }
                        }
                    },
                },
            },
        },
        Some(_) => Err(ParseErrorV::ExpectedLoopVariable),
    }
}

/// The parts of statements that do not contain statements move forward.
pub proof fn lemma_header_progress(ts: Seq<TokenV>, p: int)
    ensures
        paren_condition(ts, p) matches Ok((_, q)) ==> p < q <= ts.len(),
        terminated_expr(ts, p) matches Ok((_, q)) ==> p < q <= ts.len(),
        parse_declaration_at(ts, p, true) matches Ok((_, q)) ==> p < q <= ts.len(),
        parse_declaration_at(ts, p, false) matches Ok((_, q)) ==> p < q <= ts.len(),
        parse_print_at(ts, p) matches Ok((_, q)) ==> p < q <= ts.len(),
        parse_for_header_at(ts, p) matches Ok((_, q)) ==> p < q <= ts.len(),
        forall|name: Seq<char>| #[trigger] parse_assignment_at(ts, p, name) matches Ok((_, q)) ==> p < q <= ts.len(),
{
    lemma_comparison_progress(ts, p);
    lemma_comparison_progress(ts, p + 1);
    lemma_comparison_progress(ts, p + 2);
    lemma_comparison_progress(ts, p + 4);
    if let Ok(q) = expect_at(ts, p + 1, TokenV::LeftParen) {
        if let Ok((_, r)) = parse_comparison_at(ts, q) {
            lemma_comparison_progress(ts, r + 1);
        }
    }
    if let Ok((_, q)) = parse_comparison_at(ts, p + 4) {
        lemma_comparison_progress(ts, q);
    }
    if let Ok((_, q)) = paren_condition(ts, p + 1) {
        lemma_comparison_progress(ts, q);
    }
    lemma_expr_progress(ts, p + 3);
    if let Ok((_, r)) = parse_expr_at(ts, p + 3) {
        lemma_expr_progress(ts, r + 1);
        if let Ok((_, s)) = parse_expr_at(ts, r + 1) {
            lemma_expr_progress(ts, s + 1);
        }
    }
}

// The statement grammar. As for expressions, the checks that a position
// moved forward before a recursive call always hold (see
// `lemma_statement_progress`).

/// A statement, starting at `p`. Which statement it is depends on its first
/// token; anything that no keyword or name starts is an expression statement.
pub open spec fn parse_statement_at(ts: Seq<TokenV>, p: int) -> StmtResult
    decreases ts.len() - p, 1int,
{
    match tok(ts, p) {
        None => Err(ParseErrorV::OutOfTokens),
        Some(first) => match first {
            TokenV::Let => parse_declaration_at(ts, p, true),
            TokenV::Const => parse_declaration_at(ts, p, false),
            TokenV::Identifier(name) => parse_assignment_at(ts, p, name),
            TokenV::Print => parse_print_at(ts, p),
            TokenV::If => parse_if_at(ts, p),
            TokenV::While => parse_while_at(ts, p),
            TokenV::For => parse_for_at(ts, p),
            _ => match terminated_expr(ts, p) {
                Err(e) => Err(e),
                Ok((e, q)) => Ok((StmtV::Expr(e), q)),
            },
        },
    }
}

/// `if (condition) { ... }`, with an optional `else` that is followed by a
/// block or by another `if` statement; `if` is at `p`.
pub open spec fn parse_if_at(ts: Seq<TokenV>, p: int) -> StmtResult
    decreases ts.len() - p, 0int,
{
    match paren_condition(ts, p + 1) {
        Err(e) => Err(e),
        Ok((condition, q)) => if p < q <= ts.len() {
            match parse_block_at(ts, q) {
                Err(e) => Err(e),
                Ok((then_branch, r)) => if q < r <= ts.len() {
                    else_part(ts, r, condition, then_branch)
                } else {
                    Err(ParseErrorV::OutOfTokens)
                },
            }
        } else {
            Err(ParseErrorV::OutOfTokens)
        },
    }
}

/// What follows the first branch of an `if` statement, at `r`.
pub open spec fn else_part(ts: Seq<TokenV>, r: int, condition: ExprV, then_branch: Seq<StmtV>) -> StmtResult
    decreases ts.len() - r, 0int,
{
    match tok(ts, r) {
        None => Err(ParseErrorV::OutOfTokens),
        Some(TokenV::Else) => match tok(ts, r + 1) {
            None => Err(ParseErrorV::OutOfTokens),
            Some(TokenV::If) => match parse_statement_at(ts, r + 1) {
                Err(e) => Err(e),
                Ok((s, t)) => Ok(
                    (StmtV::If { condition, then_branch, else_branch: Some(Box::new(s)) }, t),
                ),
            },
            Some(_) => match parse_block_at(ts, r + 1) {
                Err(e) => Err(e),
                Ok((b, t)) => Ok(
                    (
                        StmtV::If {
                            condition,
                            then_branch,
                            else_branch: Some(Box::new(StmtV::Block(b))),
                        },
                        t,
                    ),
                ),
            },
        },
        Some(_) => Ok((StmtV::If { condition, then_branch, else_branch: None }, r)),
    }
}

/// `while (condition) { ... }`, with `while` at `p`.
pub open spec fn parse_while_at(ts: Seq<TokenV>, p: int) -> StmtResult
    decreases ts.len() - p, 0int,
{
    match paren_condition(ts, p + 1) {
        Err(e) => Err(e),
        Ok((condition, q)) => if p < q <= ts.len() {
            match parse_block_at(ts, q) {
                Err(e) => Err(e),
                Ok((body, r)) => Ok((StmtV::While { condition, body }, r)),
            }
        } else {
            Err(ParseErrorV::OutOfTokens)
        },
    }
}

/// A `for` loop, with `for` at `p`.
pub open spec fn parse_for_at(ts: Seq<TokenV>, p: int) -> StmtResult
    decreases ts.len() - p, 0int,
{
    match parse_for_header_at(ts, p) {
        Err(e) => Err(e),
        Ok((h, q)) => if p < q <= ts.len() {
            match parse_block_at(ts, q) {
                Err(e) => Err(e),
                Ok((body, r)) => Ok(
                    (
                        StmtV::For {
                            var: h.var,
                            start: h.start,
                            inclusive: h.inclusive,
                            end: h.end,
                            step: h.step,
                            body,
                        },
                        r,
                    ),
                ),
            }
        } else {
            Err(ParseErrorV::OutOfTokens)
        },
    }
}

/// `{ statement* }`, with the `{` at `p`.
pub open spec fn parse_block_at(ts: Seq<TokenV>, p: int) -> BlockResult
    decreases ts.len() - p, 3int,
{
    match expect_at(ts, p, TokenV::LeftBrace) {
        Err(e) => Err(e),
        Ok(q) => block_items(ts, q, Seq::empty()),
    }
}

/// The statements of a block from `q` up to its `}`, after those already in `acc`.
pub open spec fn block_items(ts: Seq<TokenV>, q: int, acc: Seq<StmtV>) -> BlockResult
    decreases ts.len() - q, 2int,
{
    match tok(ts, q) {
        None => Err(ParseErrorV::OutOfTokens),
        Some(TokenV::RightBrace) => Ok((acc, q + 1)),
        Some(_) => match parse_statement_at(ts, q) {
            Err(e) => Err(e),
            Ok((s, q2)) => if q < q2 <= ts.len() {
                block_items(ts, q2, acc.push(s))
            } else {
                Err(ParseErrorV::OutOfTokens)
            },
        },
    }
}

/// The statements of a program from `q` up to `Eof`, after those already in `acc`.
pub open spec fn program_items(ts: Seq<TokenV>, q: int, acc: Seq<StmtV>) -> BlockResult
    decreases ts.len() - q,
{
    match tok(ts, q) {
        None => Err(ParseErrorV::OutOfTokens),
        Some(TokenV::Eof) => Ok((acc, q)),
        Some(_) => match parse_statement_at(ts, q) {
            Err(e) => Err(e),
            Ok((s, q2)) => if q < q2 <= ts.len() {
                program_items(ts, q2, acc.push(s))
            } else {
                Err(ParseErrorV::OutOfTokens)
            },
        },
    }
}

/// The statements of the program that the tokens from `p` on spell, up to `Eof`.
pub open spec fn parse_program_at(ts: Seq<TokenV>, p: int) -> Result<Seq<StmtV>, ParseErrorV> {
    match program_items(ts, p, Seq::empty()) {
        Ok((stmts, _)) => Ok(stmts),
        Err(e) => Err(e),
    }
}

/// Every statement and block consumes at least one token, and never reads
/// past the end.
pub proof fn lemma_statement_progress(ts: Seq<TokenV>, p: int)
    ensures
        parse_statement_at(ts, p) matches Ok((_, q)) ==> p < q <= ts.len(),
    decreases ts.len() - p, 1int,
{
    lemma_header_progress(ts, p);
    lemma_header_progress(ts, p + 1);
    if let Some(first) = tok(ts, p) {
        match first {
            TokenV::Identifier(name) => {
                assert(parse_assignment_at(ts, p, name) matches Ok((_, q)) ==> p < q <= ts.len());
            },
            TokenV::If => lemma_if_progress(ts, p),
            TokenV::While => {
                if let Ok((_, q)) = paren_condition(ts, p + 1) {
                    lemma_block_progress(ts, q);
                }
            },
            TokenV::For => {
                if let Ok((_, q)) = parse_for_header_at(ts, p) {
                    lemma_block_progress(ts, q);
                }
            },
            _ => {},
        }
    }
}

pub proof fn lemma_if_progress(ts: Seq<TokenV>, p: int)
    ensures
        parse_if_at(ts, p) matches Ok((_, q)) ==> p < q <= ts.len(),
    decreases ts.len() - p, 0int,
{
    lemma_header_progress(ts, p + 1);
    if let Ok((c, q)) = paren_condition(ts, p + 1) {
        if p < q <= ts.len() {
            lemma_block_progress(ts, q);
            if let Ok((b, r)) = parse_block_at(ts, q) {
                if q < r <= ts.len() {
                    lemma_else_progress(ts, r, c, b);
                }
            }
        }
    }
}

pub proof fn lemma_else_progress(ts: Seq<TokenV>, r: int, c: ExprV, b: Seq<StmtV>)
    ensures
        else_part(ts, r, c, b) matches Ok((_, q)) ==> r <= q <= ts.len(),
    decreases ts.len() - r, 0int,
{
    if r + 1 < ts.len() {
        lemma_statement_progress(ts, r + 1);
        lemma_block_progress(ts, r + 1);
    }
}

pub proof fn lemma_block_progress(ts: Seq<TokenV>, p: int)
    ensures
        parse_block_at(ts, p) matches Ok((_, q)) ==> p < q <= ts.len(),
    decreases ts.len() - p, 3int,
{
    if let Ok(q) = expect_at(ts, p, TokenV::LeftBrace) {
        lemma_block_items_progress(ts, q, Seq::empty());
    }
}

pub proof fn lemma_block_items_progress(ts: Seq<TokenV>, q: int, acc: Seq<StmtV>)
    ensures
        block_items(ts, q, acc) matches Ok((_, q2)) ==> q < q2 <= ts.len(),
    decreases ts.len() - q, 2int,
{
    if let Some(t) = tok(ts, q) {
        if t != TokenV::RightBrace {
            lemma_statement_progress(ts, q);
            if let Ok((s, q2)) = parse_statement_at(ts, q) {
                if q < q2 <= ts.len() {
                    lemma_block_items_progress(ts, q2, acc.push(s));
                }
            }
        }
    }
}

/// Whether a parse result stays before the end of the tokens: a success ends
/// at a position that still holds a token, and a failure is not a lack of
/// tokens.
pub open spec fn stays_within<T>(ts: Seq<TokenV>, r: Result<(T, int), ParseErrorV>) -> bool {
    match r {
        Ok((_, q)) => q < ts.len(),
        Err(e) => !(e is OutOfTokens),
    }
}

// On tokens that end with their only `Eof`, no part of the grammar consumes
// the `Eof`, so each one stops at or before it and never runs out.

pub proof fn lemma_comparison_within(ts: Seq<TokenV>, p: int)
    requires
        ends_with_eof(ts),
        0 <= p < ts.len(),
    ensures
        stays_within(ts, parse_comparison_at(ts, p)),
    decreases ts.len() - p, 6int,
{
    lemma_expr_within(ts, p);
    lemma_expr_progress(ts, p);
    if let Ok((l, q)) = parse_expr_at(ts, p) {
        lemma_comparison_rest_within(ts, q, l);
    }
}

pub proof fn lemma_comparison_rest_within(ts: Seq<TokenV>, q: int, left: ExprV)
    requires
        ends_with_eof(ts),
        0 <= q < ts.len(),
    ensures
        stays_within(ts, comparison_rest(ts, q, left)),
    decreases ts.len() - q, 5int,
{
    if let Some(op) = comparison_op(ts[q]) {
        lemma_expr_within(ts, q + 1);
        lemma_expr_progress(ts, q + 1);
        if let Ok((r, q2)) = parse_expr_at(ts, q + 1) {
            lemma_comparison_rest_within(ts, q2, ExprV::Binary(op, Box::new(left), Box::new(r)));
        }
    }
}

pub proof fn lemma_expr_within(ts: Seq<TokenV>, p: int)
    requires
        ends_with_eof(ts),
        0 <= p < ts.len(),
    ensures
        stays_within(ts, parse_expr_at(ts, p)),
    decreases ts.len() - p, 4int,
{
    lemma_term_within(ts, p);
    lemma_term_progress(ts, p);
    if let Ok((l, q)) = parse_term_at(ts, p) {
        lemma_expr_rest_within(ts, q, l);
    }
}

pub proof fn lemma_expr_rest_within(ts: Seq<TokenV>, q: int, left: ExprV)
    requires
        ends_with_eof(ts),
        0 <= q < ts.len(),
    ensures
        stays_within(ts, expr_rest(ts, q, left)),
    decreases ts.len() - q, 3int,
{
    if let Some(op) = additive_op(ts[q]) {
        lemma_term_within(ts, q + 1);
        lemma_term_progress(ts, q + 1);
        if let Ok((r, q2)) = parse_term_at(ts, q + 1) {
            lemma_expr_rest_within(ts, q2, ExprV::Binary(op, Box::new(left), Box::new(r)));
        }
    }
}

pub proof fn lemma_term_within(ts: Seq<TokenV>, p: int)
    requires
        ends_with_eof(ts),
        0 <= p < ts.len(),
    ensures
        stays_within(ts, parse_term_at(ts, p)),
    decreases ts.len() - p, 2int,
{
    lemma_factor_within(ts, p);
    lemma_factor_progress(ts, p);
    if let Ok((l, q)) = parse_factor_at(ts, p) {
        lemma_term_rest_within(ts, q, l);
    }
}

pub proof fn lemma_term_rest_within(ts: Seq<TokenV>, q: int, left: ExprV)
    requires
        ends_with_eof(ts),
        0 <= q < ts.len(),
    ensures
        stays_within(ts, term_rest(ts, q, left)),
    decreases ts.len() - q, 1int,
{
    if let Some(op) = multiplicative_op(ts[q]) {
        lemma_factor_within(ts, q + 1);
        lemma_factor_progress(ts, q + 1);
        if let Ok((r, q2)) = parse_factor_at(ts, q + 1) {
            lemma_term_rest_within(ts, q2, ExprV::Binary(op, Box::new(left), Box::new(r)));
        }
    }
}

pub proof fn lemma_factor_within(ts: Seq<TokenV>, p: int)
    requires
        ends_with_eof(ts),
        0 <= p < ts.len(),
    ensures
        stays_within(ts, parse_factor_at(ts, p)),
    decreases ts.len() - p, 0int,
{
    if ts[p] != TokenV::Eof {
        lemma_followed(ts, p);
    }
    match ts[p] {
        TokenV::Minus => lemma_factor_within(ts, p + 1),
        TokenV::Not => lemma_factor_within(ts, p + 1),
        TokenV::LeftParen => {
            lemma_comparison_within(ts, p + 1);
            lemma_comparison_progress(ts, p + 1);
            if let Ok((_, q)) = parse_comparison_at(ts, p + 1) {
                if ts[q] == TokenV::RightParen {
                    lemma_followed(ts, q);
                }
            }
        },
        _ => {},
    }
}

/// A token other than `Eof` is followed by another.
pub proof fn lemma_followed(ts: Seq<TokenV>, k: int)
    requires
        ends_with_eof(ts),
        0 <= k < ts.len(),
        ts[k] != TokenV::Eof,
    ensures
        k + 1 < ts.len(),
{
}

/// The parts of statements that hold no statements stay before the end.
pub proof fn lemma_expression_forms_within(ts: Seq<TokenV>, p: int)
    requires
        ends_with_eof(ts),
        0 <= p < ts.len(),
    ensures
        stays_within(ts, paren_condition(ts, p)),
        stays_within(ts, terminated_expr(ts, p)),
{
    lemma_comparison_within(ts, p);
    lemma_comparison_progress(ts, p);
    if let Ok((_, q)) = parse_comparison_at(ts, p) {
        if ts[q] == TokenV::Semicolon {
            lemma_followed(ts, q);
        }
    }
    if ts[p] == TokenV::LeftParen {
        lemma_followed(ts, p);
        lemma_comparison_within(ts, p + 1);
        lemma_comparison_progress(ts, p + 1);
        if let Ok((_, q)) = parse_comparison_at(ts, p + 1) {
            if ts[q] == TokenV::RightParen {
                lemma_followed(ts, q);
            }
        }
    }
}

pub proof fn lemma_declaration_within(ts: Seq<TokenV>, p: int, is_mutable: bool)
    requires
        ends_with_eof(ts),
        0 <= p,
        p + 1 < ts.len(),
    ensures
        stays_within(ts, parse_declaration_at(ts, p, is_mutable)),
{
    if declared_type_of(ts[p + 1]) is Some {
        lemma_followed(ts, p + 1);
        if ts[p + 2] is Identifier {
            lemma_followed(ts, p + 2);
            if ts[p + 3] == TokenV::Equals {
                lemma_followed(ts, p + 3);
                lemma_expression_forms_within(ts, p + 4);
            }
        }
    }
}

pub proof fn lemma_assignment_within(ts: Seq<TokenV>, p: int, name: Seq<char>)
    requires
        ends_with_eof(ts),
        0 <= p,
        p + 1 < ts.len(),
    ensures
        stays_within(ts, parse_assignment_at(ts, p, name)),
{
    if assignment_op(ts[p + 1]) is Some {
        lemma_followed(ts, p + 1);
        lemma_expression_forms_within(ts, p + 2);
    }
}

pub proof fn lemma_print_within(ts: Seq<TokenV>, p: int)
    requires
        ends_with_eof(ts),
        0 <= p,
        p + 1 < ts.len(),
    ensures
        stays_within(ts, parse_print_at(ts, p)),
{
    lemma_expression_forms_within(ts, p + 1);
    if let Ok((_, q)) = paren_condition(ts, p + 1) {
        if ts[q] == TokenV::Semicolon {
            lemma_followed(ts, q);
        }
    }
}

pub proof fn lemma_for_header_within(ts: Seq<TokenV>, p: int)
    requires
        ends_with_eof(ts),
        0 <= p,
        p + 1 < ts.len(),
    ensures
        stays_within(ts, parse_for_header_at(ts, p)),
{
    if ts[p + 1] is Identifier {
        lemma_followed(ts, p + 1);
        if ts[p + 2] == TokenV::In {
            lemma_followed(ts, p + 2);
            lemma_expr_within(ts, p + 3);
            lemma_expr_progress(ts, p + 3);
            if let Ok((_, r)) = parse_expr_at(ts, p + 3) {
                if ts[r] == TokenV::DotDot || ts[r] == TokenV::DotDotEqual {
                    lemma_followed(ts, r);
                    lemma_expr_within(ts, r + 1);
                    lemma_expr_progress(ts, r + 1);
                    if let Ok((_, s)) = parse_expr_at(ts, r + 1) {
                        if ts[s] == TokenV::By {
                            lemma_followed(ts, s);
                            lemma_expr_within(ts, s + 1);
                        }
                    }
                }
            }
        }
    }
}

pub proof fn lemma_statement_within(ts: Seq<TokenV>, p: int)
    requires
        ends_with_eof(ts),
        0 <= p < ts.len(),
    ensures
        stays_within(ts, parse_statement_at(ts, p)),
    decreases ts.len() - p, 1int,
{
    lemma_expression_forms_within(ts, p);
    if ts[p] != TokenV::Eof {
        lemma_followed(ts, p);
        lemma_declaration_within(ts, p, true);
        lemma_declaration_within(ts, p, false);
        lemma_print_within(ts, p);
        lemma_for_header_within(ts, p);
        if let TokenV::Identifier(name) = ts[p] {
            lemma_assignment_within(ts, p, name);
        }
        lemma_header_progress(ts, p + 1);
        lemma_header_progress(ts, p);
        match ts[p] {
            TokenV::If => lemma_if_within(ts, p),
            TokenV::While => {
                if let Ok((_, q)) = paren_condition(ts, p + 1) {
                    lemma_block_within(ts, q);
                }
            },
            TokenV::For => {
                if let Ok((_, q)) = parse_for_header_at(ts, p) {
                    lemma_block_within(ts, q);
                }
            },
            _ => {},
        }
    }
}

pub proof fn lemma_if_within(ts: Seq<TokenV>, p: int)
    requires
        ends_with_eof(ts),
        0 <= p,
        p + 1 < ts.len(),
    ensures
        stays_within(ts, parse_if_at(ts, p)),
    decreases ts.len() - p, 0int,
{
    lemma_expression_forms_within(ts, p + 1);
    lemma_header_progress(ts, p + 1);
    if let Ok((c, q)) = paren_condition(ts, p + 1) {
        lemma_block_within(ts, q);
        lemma_block_progress(ts, q);
        if let Ok((b, r)) = parse_block_at(ts, q) {
            lemma_else_within(ts, r, c, b);
        }
    }
}

pub proof fn lemma_else_within(ts: Seq<TokenV>, r: int, c: ExprV, b: Seq<StmtV>)
    requires
        ends_with_eof(ts),
        0 <= r < ts.len(),
    ensures
        stays_within(ts, else_part(ts, r, c, b)),
    decreases ts.len() - r, 0int,
{
    if ts[r] == TokenV::Else {
        lemma_followed(ts, r);
        lemma_statement_within(ts, r + 1);
        lemma_block_within(ts, r + 1);
    }
}

pub proof fn lemma_block_within(ts: Seq<TokenV>, p: int)
    requires
        ends_with_eof(ts),
        0 <= p < ts.len(),
    ensures
        stays_within(ts, parse_block_at(ts, p)),
    decreases ts.len() - p, 3int,
{
    if ts[p] == TokenV::LeftBrace {
        lemma_followed(ts, p);
        lemma_block_items_within(ts, p + 1, Seq::empty());
    }
}

pub proof fn lemma_block_items_within(ts: Seq<TokenV>, q: int, acc: Seq<StmtV>)
    requires
        ends_with_eof(ts),
        0 <= q < ts.len(),
    ensures
        stays_within(ts, block_items(ts, q, acc)),
    decreases ts.len() - q, 2int,
{
    if ts[q] == TokenV::RightBrace {
        lemma_followed(ts, q);
    } else {
        lemma_statement_within(ts, q);
        lemma_statement_progress(ts, q);
        if let Ok((s, q2)) = parse_statement_at(ts, q) {
            lemma_block_items_within(ts, q2, acc.push(s));
        }
    }
}

pub proof fn lemma_program_items_within(ts: Seq<TokenV>, q: int, acc: Seq<StmtV>)
    requires
        ends_with_eof(ts),
        0 <= q < ts.len(),
    ensures
        stays_within(ts, program_items(ts, q, acc)),
    decreases ts.len() - q,
{
    if ts[q] != TokenV::Eof {
        lemma_statement_within(ts, q);
        lemma_statement_progress(ts, q);
        if let Ok((s, q2)) = parse_statement_at(ts, q) {
            lemma_program_items_within(ts, q2, acc.push(s));
        }
    }
}

/// The lexer ends its tokens with `Eof` so that the parser always has a
/// current token to look at: the parse of what the lexer produced never runs
/// out of tokens. It either fails on a token it can see, or succeeds.
pub proof fn lemma_lexed_source_never_runs_out(source: Seq<char>)
    ensures
        lex(source) matches Ok(ts) ==> !(parse_program_at(ts, 0) matches Err(ParseErrorV::OutOfTokens)),
{
    lemma_lex_ends_with_eof(source);
    if let Ok(ts) = lex(source) {
        lemma_program_items_within(ts, 0, Seq::empty());
    }
}

/// Whether an expression parse produced what the grammar says it does,
/// ending at `pos`.
pub open spec fn expr_outcome(r: Result<Expr, ParseError>, pos: int, s: ExprResult) -> bool {
    match (r, s) {
        (Ok(e), Ok((ev, q))) => e@ == ev && pos == q,
        (Err(e), Err(ev)) => e@ == ev,
        _ => false,
    }
}

/// Whether a statement parse produced what the grammar says it does, ending at `pos`.
pub open spec fn stmt_outcome(r: Result<Stmt, ParseError>, pos: int, s: StmtResult) -> bool {
    match (r, s) {
        (Ok(x), Ok((sv, q))) => x@ == sv && pos == q,
        (Err(e), Err(ev)) => e@ == ev,
        _ => false,
    }
}

/// Whether a parse of statements produced what the grammar says it does, ending at `pos`.
pub open spec fn block_outcome(r: Result<Vec<Stmt>, ParseError>, pos: int, s: BlockResult) -> bool {
    match (r, s) {
        (Ok(x), Ok((sv, q))) => stmts_view(x@) == sv && pos == q,
        (Err(e), Err(ev)) => e@ == ev,
        _ => false,
    }
}

/// Appending a statement appends its view.
pub proof fn lemma_stmts_view_push(v: Seq<Stmt>, s: Stmt)
    ensures
        stmts_view(v.push(s)) == stmts_view(v).push(s@),
{
    assert(v.push(s).drop_last() == v);
}

/// A parser over a token stream, with the position of the current token.
#[derive(Debug)]
pub struct Parser {
    tokens: Vec<Token>,
    position: usize,
}

impl Parser {
    /// The tokens being parsed.
    pub closed spec fn token_views(&self) -> Seq<TokenV> {
        tokens_view(self.tokens@)
    }

    /// The position of the current token.
    pub closed spec fn at(&self) -> int {
        self.position as int
    }

    #[verifier::type_invariant]
    spec fn within_tokens(&self) -> bool {
        self.position <= self.tokens.len()
    }

    /// A parser at the first of `tokens`.
    pub fn new(tokens: Vec<Token>) -> (r: Parser)
        ensures
            r.token_views() == tokens_view(tokens@),
            r.at() == 0,
    {
        Parser { tokens, position: 0 }
    }

    /// The current token, without moving past it.
    fn peek(&self) -> (r: Result<&Token, ParseError>)
        ensures
            match tok(self.token_views(), self.at()) {
                Some(t) => r matches Ok(x) && x@ == t,
                None => r matches Err(e) && e@ == ParseErrorV::OutOfTokens,
            },
    {
        if self.position < self.tokens.len() {
            Ok(&self.tokens[self.position])
        } else {
            Err(ParseError::OutOfTokens)
        }
    }

    /// Moves past the current token and returns its position.
    fn advance(&mut self) -> (r: Result<usize, ParseError>)
        ensures
            final(self).token_views() == old(self).token_views(),
            match tok(old(self).token_views(), old(self).at()) {
                Some(_) => r == Ok::<usize, ParseError>(old(self).position) && final(self).at()
                    == old(self).at() + 1,
                None => r matches Err(e) && e@ == ParseErrorV::OutOfTokens,
            },
    {
        proof {
            use_type_invariant(&*self);
        }
        if self.position < self.tokens.len() {
            let p = self.position;
            self.position = self.position + 1;
            Ok(p)
        } else {
            Err(ParseError::OutOfTokens)
        }
    }

    /// Moves past the current token, which must be `expected`.
    fn expect(&mut self, expected: Token) -> (r: Result<(), ParseError>)
        ensures
            final(self).token_views() == old(self).token_views(),
            match expect_at(old(self).token_views(), old(self).at(), expected@) {
                Ok(q) => r is Ok && final(self).at() == q,
                Err(e) => r matches Err(x) && x@ == e,
            },
    {
        match self.advance() {
            Err(e) => Err(e),
            Ok(i) => {
                if self.tokens[i] == expected {
                    Ok(())
                } else {
                    Err(ParseError::Expected { expected, found: self.tokens[i].duplicate() })
                }
            },
        }
    }

    /// A comparison: `expr (op expr)*`.
    pub fn try_parse_comparison(&mut self) -> (r: Result<Expr, ParseError>)
        ensures
            final(self).token_views() == old(self).token_views(),
            expr_outcome(r, final(self).at(), parse_comparison_at(old(self).token_views(), old(self).at())),
        decreases old(self).token_views().len() - old(self).at(), 6int,
    {
        proof {
            use_type_invariant(&*self);
        }
        let ghost ts = self.token_views();
        let ghost p = self.at();
        let ghost goal = parse_comparison_at(ts, p);
        proof {
            lemma_expr_progress(ts, p);
        }
        let mut left = match self.try_parse_expr() {
            Ok(e) => e,
            Err(e) => return Err(e),
        };
        loop
            invariant_except_break
                self.token_views() == ts,
                ts == old(self).token_views(),
                p == old(self).at(),
                p <= self.at() <= ts.len(),
                goal == parse_comparison_at(ts, p),
                comparison_rest(ts, self.at(), left@) == goal,
            ensures
                self.token_views() == ts,
                ts == old(self).token_views(),
                p == old(self).at(),
                goal == Ok::<(ExprV, int), ParseErrorV>((left@, self.at())),
            decreases ts.len() - self.at(),
        {
            proof {
                use_type_invariant(&*self);
            }
            let ghost q = self.at();
            let op = match self.peek() {
                Err(e) => return Err(e),
                Ok(t) => match t {
                    Token::Less => BinOp::Less,
                    Token::Greater => BinOp::Greater,
                    Token::LessEqual => BinOp::LessEqual,
                    Token::GreaterEqual => BinOp::GreaterEqual,
                    Token::EqualEqual => BinOp::EqualEqual,
                    Token::NotEqual => BinOp::NotEqual,
                    _ => break,
                },
            };
            let _ = self.advance();
            proof {
                lemma_expr_progress(ts, q + 1);
            }
            let right = match self.try_parse_expr() {
                Ok(e) => e,
                Err(e) => return Err(e),
            };
            left = Expr::Binary(op, Box::new(left), Box::new(right));
        }
        Ok(left)
    }

    /// A sum: `term (op term)*`.
    pub fn try_parse_expr(&mut self) -> (r: Result<Expr, ParseError>)
        ensures
            final(self).token_views() == old(self).token_views(),
            expr_outcome(r, final(self).at(), parse_expr_at(old(self).token_views(), old(self).at())),
        decreases old(self).token_views().len() - old(self).at(), 4int,
    {
        proof {
            use_type_invariant(&*self);
        }
        let ghost ts = self.token_views();
        let ghost p = self.at();
        let ghost goal = parse_expr_at(ts, p);
        proof {
            lemma_term_progress(ts, p);
        }
        let mut left = match self.try_parse_term() {
            Ok(e) => e,
            Err(e) => return Err(e),
        };
        loop
            invariant_except_break
                self.token_views() == ts,
                ts == old(self).token_views(),
                p == old(self).at(),
                p <= self.at() <= ts.len(),
                goal == parse_expr_at(ts, p),
                expr_rest(ts, self.at(), left@) == goal,
            ensures
                self.token_views() == ts,
                ts == old(self).token_views(),
                p == old(self).at(),
                goal == Ok::<(ExprV, int), ParseErrorV>((left@, self.at())),
            decreases ts.len() - self.at(),
        {
            proof {
                use_type_invariant(&*self);
            }
            let ghost q = self.at();
            let op = match self.peek() {
                Err(e) => return Err(e),
                Ok(t) => match t {
                    Token::Plus => BinOp::Add,
                    Token::Minus => BinOp::Subtract,
                    _ => break,
                },
            };
            let _ = self.advance();
            proof {
                lemma_term_progress(ts, q + 1);
            }
            let right = match self.try_parse_term() {
                Ok(e) => e,
                Err(e) => return Err(e),
            };
            left = Expr::Binary(op, Box::new(left), Box::new(right));
        }
        Ok(left)
    }

    /// A product: `factor (op factor)*`.
    pub fn try_parse_term(&mut self) -> (r: Result<Expr, ParseError>)
        ensures
            final(self).token_views() == old(self).token_views(),
            expr_outcome(r, final(self).at(), parse_term_at(old(self).token_views(), old(self).at())),
        decreases old(self).token_views().len() - old(self).at(), 2int,
    {
        proof {
            use_type_invariant(&*self);
        }
        let ghost ts = self.token_views();
        let ghost p = self.at();
        let ghost goal = parse_term_at(ts, p);
        proof {
            lemma_factor_progress(ts, p);
        }
        let mut left = match self.try_parse_factor() {
            Ok(e) => e,
            Err(e) => return Err(e),
        };
        loop
            invariant_except_break
                self.token_views() == ts,
                ts == old(self).token_views(),
                p == old(self).at(),
                p <= self.at() <= ts.len(),
                goal == parse_term_at(ts, p),
                term_rest(ts, self.at(), left@) == goal,
            ensures
                self.token_views() == ts,
                ts == old(self).token_views(),
                p == old(self).at(),
                goal == Ok::<(ExprV, int), ParseErrorV>((left@, self.at())),
            decreases ts.len() - self.at(),
        {
            proof {
                use_type_invariant(&*self);
            }
            let ghost q = self.at();
            let op = match self.peek() {
                Err(e) => return Err(e),
                Ok(t) => match t {
                    Token::Star => BinOp::Multiply,
                    Token::Slash => BinOp::Divide,
                    Token::Modulo => BinOp::Modulo,
                    _ => break,
                },
            };
            let _ = self.advance();
            proof {
                lemma_factor_progress(ts, q + 1);
            }
            let right = match self.try_parse_factor() {
                Ok(e) => e,
                Err(e) => return Err(e),
            };
            left = Expr::Binary(op, Box::new(left), Box::new(right));
        }
        Ok(left)
    }

    /// An atom, or a prefix operator applied to a factor.
    pub fn try_parse_factor(&mut self) -> (r: Result<Expr, ParseError>)
        ensures
            final(self).token_views() == old(self).token_views(),
            expr_outcome(r, final(self).at(), parse_factor_at(old(self).token_views(), old(self).at())),
        decreases old(self).token_views().len() - old(self).at(), 0int,
    {
        proof {
            use_type_invariant(&*self);
        }
        let i = match self.advance() {
            Ok(i) => i,
            Err(e) => return Err(e),
        };
        match &self.tokens[i] {
            Token::Minus => match self.try_parse_factor() {
                Ok(x) => Ok(Expr::Unary(UnaryOp::Negate, Box::new(x))),
                Err(e) => Err(e),
            },
            Token::Not => match self.try_parse_factor() {
                Ok(x) => Ok(Expr::Unary(UnaryOp::Not, Box::new(x))),
                Err(e) => Err(e),
            },
            Token::Int(n) => Ok(Expr::Int(*n)),
            Token::Float(text) => Ok(Expr::Float(text.clone())),
            Token::True => Ok(Expr::Bool(true)),
            Token::False => Ok(Expr::Bool(false)),
            Token::LeftParen => {
                let inner = match self.try_parse_comparison() {
                    Ok(e) => e,
                    Err(e) => return Err(e),
                };
                match self.advance() {
                    Err(e) => Err(e),
                    Ok(j) => match &self.tokens[j] {
                        Token::RightParen => Ok(inner),
                        _ => Err(ParseError::ExpectedClosingParen),
                    },
                }
            },
            Token::Identifier(name) => Ok(Expr::Variable(name.clone())),
            other => Err(ParseError::ExpectedOperand(other.duplicate())),
        }
    }

    /// `(comparison)`, at the `(`.
    fn parse_paren_condition(&mut self) -> (r: Result<Expr, ParseError>)
        ensures
            final(self).token_views() == old(self).token_views(),
            expr_outcome(r, final(self).at(), paren_condition(old(self).token_views(), old(self).at())),
    {
        match self.expect(Token::LeftParen) {
            Err(e) => return Err(e),
            Ok(()) => {},
        }
        let condition = match self.try_parse_comparison() {
            Ok(c) => c,
            Err(e) => return Err(e),
        };
        match self.expect(Token::RightParen) {
            Err(e) => Err(e),
            Ok(()) => Ok(condition),
        }
    }

    /// An expression and the `;` after it.
    fn parse_terminated_expr(&mut self) -> (r: Result<Expr, ParseError>)
        ensures
            final(self).token_views() == old(self).token_views(),
            expr_outcome(r, final(self).at(), terminated_expr(old(self).token_views(), old(self).at())),
    {
        let e = match self.try_parse_comparison() {
            Ok(e) => e,
            Err(err) => return Err(err),
        };
        match self.expect(Token::Semicolon) {
            Err(err) => Err(err),
            Ok(()) => Ok(e),
        }
    }

    /// A declaration, at its `let` or `const`.
    fn parse_declaration(&mut self, is_mutable: bool) -> (r: Result<Stmt, ParseError>)
        requires
            tok(old(self).token_views(), old(self).at()) is Some,
        ensures
            final(self).token_views() == old(self).token_views(),
            stmt_outcome(
                r,
                final(self).at(),
                parse_declaration_at(old(self).token_views(), old(self).at(), is_mutable),
            ),
    {
        let _ = self.advance();
        let declared_type = match self.advance() {
            Err(e) => return Err(e),
            Ok(i) => match &self.tokens[i] {
                Token::IntType => Type::Int,
                Token::FloatType => Type::Float,
                Token::BoolType => Type::Bool,
                _ => return Err(ParseError::ExpectedType),
            },
        };
        let name = match self.advance() {
            Err(e) => return Err(e),
            Ok(i) => match &self.tokens[i] {
                Token::Identifier(name) => name.clone(),
                _ => return Err(ParseError::ExpectedVariableName),
            },
        };
        match self.expect(Token::Equals) {
            Err(e) => return Err(e),
            Ok(()) => {},
        }
        match self.parse_terminated_expr() {
            Err(e) => Err(e),
            Ok(value) => Ok(Stmt::Declaration { is_mutable, declared_type, name, value }),
        }
    }

    /// An assignment, at the assigned name.
    fn parse_assignment(&mut self) -> (r: Result<Stmt, ParseError>)
        requires
            tok(old(self).token_views(), old(self).at()) matches Some(TokenV::Identifier(_)),
        ensures
            final(self).token_views() == old(self).token_views(),
            tok(old(self).token_views(), old(self).at()) matches Some(TokenV::Identifier(name))
                && stmt_outcome(
                r,
                final(self).at(),
                parse_assignment_at(old(self).token_views(), old(self).at(), name),
            ),
    {
        let name = match self.advance() {
            Err(e) => return Err(e),
            Ok(i) => match &self.tokens[i] {
                Token::Identifier(name) => name.clone(),
                _ => return Err(ParseError::ExpectedVariableName),
            },
        };
        let op: Option<BinOp> = match self.peek() {
            Err(e) => return Err(e),
            Ok(t) => match t {
                Token::Equals => None,
                Token::PlusEqual => Some(BinOp::Add),
                Token::MinusEqual => Some(BinOp::Subtract),
                Token::StarEqual => Some(BinOp::Multiply),
                Token::SlashEqual => Some(BinOp::Divide),
                Token::ModuloEqual => Some(BinOp::Modulo),
                _ => return Err(ParseError::ExpectedAssignmentOperator),
            },
        };
        let _ = self.advance();
        let rhs = match self.parse_terminated_expr() {
            Err(e) => return Err(e),
            Ok(e) => e,
        };
        let value = match op {
            Some(binop) => {
                let target = Expr::Variable(name.clone());
                assert(target@ == ExprV::Variable(name@));
                Expr::Binary(binop, Box::new(target), Box::new(rhs))
            },
            None => rhs,
        };
        Ok(Stmt::Assignment { name, value })
    }

    /// A print statement, at `print`.
    fn parse_print(&mut self) -> (r: Result<Stmt, ParseError>)
        requires
            tok(old(self).token_views(), old(self).at()) is Some,
        ensures
            final(self).token_views() == old(self).token_views(),
            stmt_outcome(r, final(self).at(), parse_print_at(old(self).token_views(), old(self).at())),
    {
        let _ = self.advance();
        let e = match self.parse_paren_condition() {
            Err(err) => return Err(err),
            Ok(e) => e,
        };
        match self.expect(Token::Semicolon) {
            Err(err) => Err(err),
            Ok(()) => Ok(Stmt::Print(e)),
        }
    }

    /// The header of a `for` loop, at `for`: its variable, start, inclusiveness,
    /// end and step.
    fn parse_for_header(&mut self) -> (r: Result<(String, Expr, bool, Expr, Option<Expr>), ParseError>)
        requires
            tok(old(self).token_views(), old(self).at()) is Some,
        ensures
            final(self).token_views() == old(self).token_views(),
            match (r, parse_for_header_at(old(self).token_views(), old(self).at())) {
                (Ok((var, start, inclusive, end, step)), Ok((h, q))) => {
                    &&& var@ == h.var
                    &&& start@ == h.start
                    &&& inclusive == h.inclusive
                    &&& end@ == h.end
                    &&& opt_expr_view(step) == h.step
                    &&& final(self).at() == q
                },
                (Err(e), Err(ev)) => e@ == ev,
                _ => false,
            },
    {
        let _ = self.advance();
        let var = match self.advance() {
            Err(e) => return Err(e),
            Ok(i) => match &self.tokens[i] {
                Token::Identifier(name) => name.clone(),
                _ => return Err(ParseError::ExpectedLoopVariable),
            },
        };
        match self.expect(Token::In) {
            Err(e) => return Err(e),
            Ok(()) => {},
        }
        let start = match self.try_parse_expr() {
            Err(e) => return Err(e),
            Ok(e) => e,
        };
        let inclusive = match self.advance() {
            Err(e) => return Err(e),
            Ok(i) => match &self.tokens[i] {
                Token::DotDot => false,
                Token::DotDotEqual => true,
                _ => return Err(ParseError::ExpectedRange),
            },
        };
        let end = match self.try_parse_expr() {
            Err(e) => return Err(e),
            Ok(e) => e,
        };
        let by = match self.peek() {
            Err(e) => return Err(e),
            Ok(t) => matches!(t, Token::By),
        };
        let step = if by {
            let _ = self.advance();
            match self.try_parse_expr() {
                Err(e) => return Err(e),
                Ok(e) => Some(e),
            }
        } else {
            None
        };
        Ok((var, start, inclusive, end, step))
    }

    /// A statement.
    pub fn try_parse_statement(&mut self) -> (r: Result<Stmt, ParseError>)
        ensures
            final(self).token_views() == old(self).token_views(),
            stmt_outcome(r, final(self).at(), parse_statement_at(old(self).token_views(), old(self).at())),
        decreases old(self).token_views().len() - old(self).at(), 1int,
    {
        proof {
            use_type_invariant(&*self);
        }
        if self.position >= self.tokens.len() {
            return Err(ParseError::OutOfTokens);
        }
        let i = self.position;
        match &self.tokens[i] {
            Token::Let => self.parse_declaration(true),
            Token::Const => self.parse_declaration(false),
            Token::Identifier(_) => self.parse_assignment(),
            Token::Print => self.parse_print(),
            Token::If => self.parse_if(),
            Token::While => self.parse_while(),
            Token::For => self.parse_for(),
            _ => match self.parse_terminated_expr() {
                Err(e) => Err(e),
                Ok(e) => Ok(Stmt::Expr(e)),
            },
        }
    }

    /// An `if` statement, with an optional `else` branch that is a block or
    /// another `if` statement.
    fn parse_if(&mut self) -> (r: Result<Stmt, ParseError>)
        requires
            tok(old(self).token_views(), old(self).at()) == Some(TokenV::If),
        ensures
            final(self).token_views() == old(self).token_views(),
            stmt_outcome(r, final(self).at(), parse_if_at(old(self).token_views(), old(self).at())),
        decreases old(self).token_views().len() - old(self).at(), 0int,
    {
        let ghost ts = self.token_views();
        let ghost p = self.at();
        proof {
            lemma_header_progress(ts, p + 1);
        }
        let _ = self.advance();
        let condition = match self.parse_paren_condition() {
            Err(e) => return Err(e),
            Ok(c) => c,
        };
        let ghost q = self.at();
        proof {
            lemma_block_progress(ts, q);
        }
        let then_branch = match self.try_parse_block() {
            Err(e) => return Err(e),
            Ok(b) => b,
        };
        self.parse_else(condition, then_branch)
    }

    /// What follows the first branch of an `if` statement.
    fn parse_else(&mut self, condition: Expr, then_branch: Vec<Stmt>) -> (r: Result<Stmt, ParseError>)
        ensures
            final(self).token_views() == old(self).token_views(),
            stmt_outcome(
                r,
                final(self).at(),
                else_part(old(self).token_views(), old(self).at(), condition@, stmts_view(then_branch@)),
            ),
        decreases old(self).token_views().len() - old(self).at(), 0int,
    {
        let is_else = match self.peek() {
            Err(e) => return Err(e),
            Ok(t) => matches!(t, Token::Else),
        };
        if !is_else {
            return Ok(Stmt::If { condition, then_branch, else_branch: None });
        }
        let _ = self.advance();
        let is_if = match self.peek() {
            Err(e) => return Err(e),
            Ok(t) => matches!(t, Token::If),
        };
        let ghost cv = condition@;
        let ghost tv = stmts_view(then_branch@);
        let else_branch = if is_if {
            match self.try_parse_statement() {
                Err(e) => return Err(e),
                Ok(s) => s,
            }
        } else {
            match self.try_parse_block() {
                Err(e) => return Err(e),
                Ok(b) => {
                    let block = Stmt::Block(b);
                    assert(block@ == StmtV::Block(stmts_view(b@)));
                    block
                },
            }
        };
        let ghost ev = else_branch@;
        let r = Stmt::If { condition, then_branch, else_branch: Some(Box::new(else_branch)) };
        assert(r@ == StmtV::If { condition: cv, then_branch: tv, else_branch: Some(Box::new(ev)) });
        Ok(r)
    }

    /// A `while` loop.
    fn parse_while(&mut self) -> (r: Result<Stmt, ParseError>)
        requires
            tok(old(self).token_views(), old(self).at()) == Some(TokenV::While),
        ensures
            final(self).token_views() == old(self).token_views(),
            stmt_outcome(r, final(self).at(), parse_while_at(old(self).token_views(), old(self).at())),
        decreases old(self).token_views().len() - old(self).at(), 0int,
    {
        proof {
            lemma_header_progress(self.token_views(), self.at() + 1);
        }
        let _ = self.advance();
        let condition = match self.parse_paren_condition() {
            Err(e) => return Err(e),
            Ok(c) => c,
        };
        match self.try_parse_block() {
            Err(e) => Err(e),
            Ok(body) => Ok(Stmt::While { condition, body }),
        }
    }

    /// A `for` loop.
    fn parse_for(&mut self) -> (r: Result<Stmt, ParseError>)
        requires
            tok(old(self).token_views(), old(self).at()) == Some(TokenV::For),
        ensures
            final(self).token_views() == old(self).token_views(),
            stmt_outcome(r, final(self).at(), parse_for_at(old(self).token_views(), old(self).at())),
        decreases old(self).token_views().len() - old(self).at(), 0int,
    {
        proof {
            lemma_header_progress(self.token_views(), self.at());
        }
        let (var, start, inclusive, end, step) = match self.parse_for_header() {
            Err(e) => return Err(e),
            Ok(h) => h,
        };
        match self.try_parse_block() {
            Err(e) => Err(e),
            Ok(body) => Ok(Stmt::For { var, start, inclusive, end, step, body }),
        }
    }

    /// `{ statement* }`.
    pub fn try_parse_block(&mut self) -> (r: Result<Vec<Stmt>, ParseError>)
        ensures
            final(self).token_views() == old(self).token_views(),
            block_outcome(r, final(self).at(), parse_block_at(old(self).token_views(), old(self).at())),
        decreases old(self).token_views().len() - old(self).at(), 3int,
    {
        proof {
            use_type_invariant(&*self);
        }
        let ghost ts = self.token_views();
        let ghost p = self.at();
        match self.expect(Token::LeftBrace) {
            Err(e) => return Err(e),
            Ok(()) => {},
        }
        let mut statements: Vec<Stmt> = Vec::new();
        let ghost goal = parse_block_at(ts, p);
        loop
            invariant_except_break
                self.token_views() == ts,
                ts == old(self).token_views(),
                p == old(self).at(),
                goal == parse_block_at(ts, p),
                p < self.at() <= ts.len(),
                block_items(ts, self.at(), stmts_view(statements@)) == goal,
            ensures
                self.token_views() == ts,
                ts == old(self).token_views(),
                p == old(self).at(),
                goal == Ok::<(Seq<StmtV>, int), ParseErrorV>((stmts_view(statements@), self.at())),
            decreases ts.len() - self.at(),
        {
            proof {
                use_type_invariant(&*self);
            }
            let closing = match self.peek() {
                Err(e) => return Err(e),
                Ok(t) => matches!(t, Token::RightBrace),
            };
            if closing {
                let _ = self.advance();
                break;
            }
            proof {
                lemma_statement_progress(ts, self.at());
            }
            let s = match self.try_parse_statement() {
                Err(e) => return Err(e),
                Ok(s) => s,
            };
            proof {
                lemma_stmts_view_push(statements@, s);
            }
            statements.push(s);
        }
        Ok(statements)
    }

    /// A comparison: `expr (op expr)*`, which the tokens at the current position must spell.
    pub fn parse_comparison(&mut self) -> (r: Expr)
        requires
            parse_comparison_at(old(self).token_views(), old(self).at()) is Ok,
        ensures
            final(self).token_views() == old(self).token_views(),
            parse_comparison_at(old(self).token_views(), old(self).at()) == Ok::<(ExprV, int), ParseErrorV>(
                (r@, final(self).at()),
            ),
    {
        match self.try_parse_comparison() {
            Ok(x) => x,
            Err(_) => {
                assert(false);
                Expr::Int(0)
            },
        }
    }

    /// A sum: `term (op term)*`, which the tokens at the current position must spell.
    pub fn parse_expr(&mut self) -> (r: Expr)
        requires
            parse_expr_at(old(self).token_views(), old(self).at()) is Ok,
        ensures
            final(self).token_views() == old(self).token_views(),
            parse_expr_at(old(self).token_views(), old(self).at()) == Ok::<(ExprV, int), ParseErrorV>(
                (r@, final(self).at()),
            ),
    {
        match self.try_parse_expr() {
            Ok(x) => x,
            Err(_) => {
                assert(false);
                Expr::Int(0)
            },
        }
    }

    /// A product: `factor (op factor)*`, which the tokens at the current position must spell.
    pub fn parse_term(&mut self) -> (r: Expr)
        requires
            parse_term_at(old(self).token_views(), old(self).at()) is Ok,
        ensures
            final(self).token_views() == old(self).token_views(),
            parse_term_at(old(self).token_views(), old(self).at()) == Ok::<(ExprV, int), ParseErrorV>(
                (r@, final(self).at()),
            ),
    {
        match self.try_parse_term() {
            Ok(x) => x,
            Err(_) => {
                assert(false);
                Expr::Int(0)
            },
        }
    }

    /// An atom, or a prefix operator applied to a factor, which the tokens at the current position must spell.
    pub fn parse_factor(&mut self) -> (r: Expr)
        requires
            parse_factor_at(old(self).token_views(), old(self).at()) is Ok,
        ensures
            final(self).token_views() == old(self).token_views(),
            parse_factor_at(old(self).token_views(), old(self).at()) == Ok::<(ExprV, int), ParseErrorV>(
                (r@, final(self).at()),
            ),
    {
        match self.try_parse_factor() {
            Ok(x) => x,
            Err(_) => {
                assert(false);
                Expr::Int(0)
            },
        }
    }

    /// A statement, which the tokens at the current position must spell.
    pub fn parse_statement(&mut self) -> (r: Stmt)
        requires
            parse_statement_at(old(self).token_views(), old(self).at()) is Ok,
        ensures
            final(self).token_views() == old(self).token_views(),
            parse_statement_at(old(self).token_views(), old(self).at()) == Ok::<(StmtV, int), ParseErrorV>(
                (r@, final(self).at()),
            ),
    {
        match self.try_parse_statement() {
            Ok(x) => x,
            Err(_) => {
                assert(false);
                Stmt::Break
            },
        }
    }

    /// `{ statement* }`, which the tokens at the current position must spell.
    pub fn parse_block(&mut self) -> (r: Vec<Stmt>)
        requires
            parse_block_at(old(self).token_views(), old(self).at()) is Ok,
        ensures
            final(self).token_views() == old(self).token_views(),
            parse_block_at(old(self).token_views(), old(self).at()) == Ok::<(Seq<StmtV>, int), ParseErrorV>(
                (stmts_view(r@), final(self).at()),
            ),
    {
        match self.try_parse_block() {
            Ok(x) => x,
            Err(_) => {
                assert(false);
                Vec::new()
            },
        }
    }

    /// Parses the whole program: statements up to `Eof`, or the first syntax
    /// error. On success the parser stays at the `Eof`.
    pub fn try_parse_program(&mut self) -> (r: Result<Vec<Stmt>, ParseError>)
        ensures
            final(self).token_views() == old(self).token_views(),
            match (r, program_items(old(self).token_views(), old(self).at(), Seq::empty())) {
                (Ok(x), Ok((sv, q))) => stmts_view(x@) == sv && final(self).at() == q,
                (Err(e), Err(ev)) => e@ == ev,
                _ => false,
            },
    {
        let ghost ts = self.token_views();
        let ghost p = self.at();
        let ghost goal = program_items(ts, p, Seq::empty());
        let mut statements: Vec<Stmt> = Vec::new();
        loop
            invariant_except_break
                self.token_views() == ts,
                ts == old(self).token_views(),
                p == old(self).at(),
                goal == program_items(ts, p, Seq::empty()),
                program_items(ts, self.at(), stmts_view(statements@)) == goal,
            ensures
                self.token_views() == ts,
                ts == old(self).token_views(),
                p == old(self).at(),
                goal == Ok::<(Seq<StmtV>, int), ParseErrorV>((stmts_view(statements@), self.at())),
            decreases ts.len() - self.at(),
        {
            proof {
                use_type_invariant(&*self);
            }
            let at_end = match self.peek() {
                Err(e) => return Err(e),
                Ok(t) => matches!(t, Token::Eof),
            };
            if at_end {
                break;
            }
            proof {
                lemma_statement_progress(ts, self.at());
            }
            let s = match self.try_parse_statement() {
                Err(e) => return Err(e),
                Ok(s) => s,
            };
            proof {
                lemma_stmts_view_push(statements@, s);
            }
            statements.push(s);
        }
        Ok(statements)
    }

    /// Parses the whole program: the statements up to `Eof`, where the parser stops.
    pub fn parse_program(&mut self) -> (r: Vec<Stmt>)
        requires
            parse_program_at(old(self).token_views(), old(self).at()) is Ok,
        ensures
            final(self).token_views() == old(self).token_views(),
            parse_program_at(old(self).token_views(), old(self).at()) == Ok::<Seq<StmtV>, ParseErrorV>(
                stmts_view(r@),
            ),
            program_items(old(self).token_views(), old(self).at(), Seq::empty()) matches Ok((sv, q))
                && final(self).at() == q,
    {
        match self.try_parse_program() {
            Ok(statements) => statements,
            Err(_) => {
                assert(false);
                Vec::new()
            },
        }
    }
}

} // verus!
