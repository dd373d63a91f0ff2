//! Execution of statements and expressions.

use vstd::prelude::*;
use crate::value::{Type, Value, ValueV, Param, ParamV, Check, check_spec, params_view};
use crate::ast::{BinOp, UnaryOp, Expr, ExprV, Stmt, StmtV, stmts_view, exprs_view, duplicate_stmts};
use crate::environment::{Environment, EnvV, Variable, VariableV, Assigned, AssignSpec, lookup, with_scope, without_scope, define_spec, assign_spec, lemma_updates_keep_scope_count, well_typed, lemma_updates_keep_well_typed, keeps_scopes, keeps_bindings, may_gain, lemma_operations_keep_scopes};

verus! {

/// An arithmetic operation that can leave the range of `i64`.
#[derive(Debug, Clone, Copy, PartialEq, Eq, Structural)]
pub enum Arith {
    Add,
    Subtract,
    Multiply,
    Divide,
    Remainder,
    Negate,
}

/// Which bound of a `for` loop.
#[derive(Debug, Clone, Copy, PartialEq, Eq, Structural)]
pub enum Bound {
    Start,
    End,
    Step,
}

/// Why running a program stops.
#[derive(Debug, Clone, PartialEq)]
pub enum RuntimeError {
    /// A name that no scope binds.
    UndefinedVariable(String),
    /// A second definition of a name in one scope.
    AlreadyDeclared(String),
    /// A definition when no scope is left.
    NoScope,
    /// An assignment to a `const` variable.
    ConstAssignment(String),
    /// An assignment to a name that no scope binds.
    UndeclaredAssignment(String),
    /// A float stored into an int variable.
    FloatIntoInt(String),
    /// A value of the wrong type stored into a variable of this type.
    TypeMismatch(Type, String),
    /// A second definition of a function name.
    FunctionAlreadyDeclared(String),
    /// A call of a name that no function is defined under.
    UndefinedFunction(String),
    /// A call of a name bound to something other than a function.
    NotAFunction(String),
    /// A call with as many arguments as `got` of a function with `expected` parameters.
    WrongArgumentCount { name: String, expected: usize, got: usize },
    /// `break` or `continue` that ends a function body.
    FlowOutsideLoop,
    /// A boolean where arithmetic or an ordering comparison needs a number.
    ExpectedNumber,
    /// `==` or `!=` between a boolean and a number.
    CompareBoolWithNumber,
    /// A prefix operator applied to a value it does not apply to.
    InvalidOperand,
    /// An `if` or `while` condition that is not a boolean.
    ExpectedBoolCondition,
    /// A bound of a `for` loop that is not an int.
    LoopBoundNotInt(Bound),
    /// A `for` loop with a step of 0.
    ZeroStep,
    /// Integer arithmetic whose result leaves the range of `i64`.
    Overflow(Arith),
    /// An integer division by zero.
    DivisionByZero,
    /// An integer remainder by zero.
    RemainderByZero,
    /// A step that lacks what the previous action asked for (the result of a
    /// computation), or that finds no operand where one belongs.
    Protocol,
}

/// The mathematical counterpart of a [`RuntimeError`].
pub enum RuntimeErrorV {
    UndefinedVariable(Seq<char>),
    AlreadyDeclared(Seq<char>),
    NoScope,
    ConstAssignment(Seq<char>),
    UndeclaredAssignment(Seq<char>),
    FloatIntoInt(Seq<char>),
    TypeMismatch(Type, Seq<char>),
    FunctionAlreadyDeclared(Seq<char>),
    UndefinedFunction(Seq<char>),
    NotAFunction(Seq<char>),
    WrongArgumentCount { name: Seq<char>, expected: usize, got: usize },
    FlowOutsideLoop,
    ExpectedNumber,
    CompareBoolWithNumber,
    InvalidOperand,
    ExpectedBoolCondition,
    LoopBoundNotInt(Bound),
    ZeroStep,
    Overflow(Arith),
    DivisionByZero,
    RemainderByZero,
    Protocol,
}

impl View for RuntimeError {
    type V = RuntimeErrorV;

    open spec fn view(&self) -> RuntimeErrorV {
        match self {
            RuntimeError::UndefinedVariable(n) => RuntimeErrorV::UndefinedVariable(n@),
            RuntimeError::AlreadyDeclared(n) => RuntimeErrorV::AlreadyDeclared(n@),
            RuntimeError::NoScope => RuntimeErrorV::NoScope,
            RuntimeError::ConstAssignment(n) => RuntimeErrorV::ConstAssignment(n@),
            RuntimeError::UndeclaredAssignment(n) => RuntimeErrorV::UndeclaredAssignment(n@),
            RuntimeError::FloatIntoInt(n) => RuntimeErrorV::FloatIntoInt(n@),
            RuntimeError::TypeMismatch(t, n) => RuntimeErrorV::TypeMismatch(*t, n@),
            RuntimeError::FunctionAlreadyDeclared(n) => RuntimeErrorV::FunctionAlreadyDeclared(n@),
            RuntimeError::UndefinedFunction(n) => RuntimeErrorV::UndefinedFunction(n@),
            RuntimeError::NotAFunction(n) => RuntimeErrorV::NotAFunction(n@),
            RuntimeError::WrongArgumentCount { name, expected, got } => RuntimeErrorV::WrongArgumentCount {
                name: name@,
                expected: *expected,
                got: *got,
            },
            RuntimeError::FlowOutsideLoop => RuntimeErrorV::FlowOutsideLoop,
            RuntimeError::ExpectedNumber => RuntimeErrorV::ExpectedNumber,
            RuntimeError::CompareBoolWithNumber => RuntimeErrorV::CompareBoolWithNumber,
            RuntimeError::InvalidOperand => RuntimeErrorV::InvalidOperand,
            RuntimeError::ExpectedBoolCondition => RuntimeErrorV::ExpectedBoolCondition,
            RuntimeError::LoopBoundNotInt(b) => RuntimeErrorV::LoopBoundNotInt(*b),
            RuntimeError::ZeroStep => RuntimeErrorV::ZeroStep,
            RuntimeError::Overflow(a) => RuntimeErrorV::Overflow(*a),
            RuntimeError::DivisionByZero => RuntimeErrorV::DivisionByZero,
            RuntimeError::RemainderByZero => RuntimeErrorV::RemainderByZero,
            RuntimeError::Protocol => RuntimeErrorV::Protocol,
        }
    }
}

/// Whether a counting loop at `counter` goes on towards `end` in steps of
/// `step`: upwards for a positive step, downwards otherwise, with `end`
/// itself included when `inclusive`.
pub open spec fn loop_continues(counter: int, end: int, step: int, inclusive: bool) -> bool {
    if step > 0 {
        if inclusive { counter <= end } else { counter < end }
    } else {
        if inclusive { counter >= end } else { counter > end }
    }
}

/// Decides whether a `for` loop runs another iteration.
pub fn should_continue(counter: i64, end: i64, step: i64, inclusive: bool) -> (r: bool)
    ensures
        r == loop_continues(counter as int, end as int, step as int, inclusive),
{
    if step > 0 {
        if inclusive { counter <= end } else { counter < end }
    } else {
        if inclusive { counter >= end } else { counter > end }
    }
}

/// A floating-point computation that the library leaves to its caller,
/// which hands back the result with the next step.
#[derive(Debug, PartialEq)]
pub enum Request {
    /// The binary64 value (as bits) nearest to the decimal literal `text`.
    FloatLiteral(String),
    /// The binary64 value (as bits) nearest to an int.
    IntToFloat(i64),
    /// An arithmetic operator applied to two numbers, at least one of them a
    /// float; both are first converted to binary64. The result is a float.
    FloatArith(BinOp, Value, Value),
    /// A comparison operator applied to two numbers, both first converted to
    /// binary64. The result is a boolean.
    Compare(BinOp, Value, Value),
}

/// The mathematical counterpart of a [`Request`].
pub enum RequestV {
    FloatLiteral(Seq<char>),
    IntToFloat(i64),
    FloatArith(BinOp, ValueV, ValueV),
    Compare(BinOp, ValueV, ValueV),
}

impl View for Request {
    type V = RequestV;

    open spec fn view(&self) -> RequestV {
        match self {
            Request::FloatLiteral(t) => RequestV::FloatLiteral(t@),
            Request::IntToFloat(n) => RequestV::IntToFloat(*n),
            Request::FloatArith(op, l, r) => RequestV::FloatArith(*op, l@, r@),
            Request::Compare(op, l, r) => RequestV::Compare(*op, l@, r@),
        }
    }
}

/// What applying an operator to values gives: a value, a computation left
/// to the caller, or an error.
pub enum Applied {
    Value(Value),
    Outside(Request),
    Error(RuntimeError),
}

/// The mathematical counterpart of an [`Applied`].
pub enum AppliedV {
    Value(ValueV),
    Outside(RequestV),
    Error(RuntimeErrorV),
}

impl View for Applied {
    type V = AppliedV;

    open spec fn view(&self) -> AppliedV {
        match self {
            Applied::Value(v) => AppliedV::Value(v@),
            Applied::Outside(r) => AppliedV::Outside(r@),
            Applied::Error(e) => AppliedV::Error(e@),
        }
    }
}

pub open spec fn is_number(v: ValueV) -> bool {
    v is Int || v is Float
}

pub open spec fn is_arithmetic(op: BinOp) -> bool {
    op == BinOp::Add || op == BinOp::Subtract || op == BinOp::Multiply || op == BinOp::Divide
        || op == BinOp::Modulo
}

pub open spec fn is_ordering(op: BinOp) -> bool {
    op == BinOp::Less || op == BinOp::Greater || op == BinOp::LessEqual || op == BinOp::GreaterEqual
}

/// Integer arithmetic as Rust's operators on `i64` do it: division truncates
/// towards zero, the remainder takes the sign of the dividend, and a result
/// outside the range of `i64` or a zero divisor is an error.
pub open spec fn int_arith(op: BinOp, l: i64, r: i64) -> AppliedV {
    match op {
        BinOp::Add => match l.checked_add(r) {
            Some(v) => AppliedV::Value(ValueV::Int(v)),
            None => AppliedV::Error(RuntimeErrorV::Overflow(Arith::Add)),
        },
        BinOp::Subtract => match l.checked_sub(r) {
            Some(v) => AppliedV::Value(ValueV::Int(v)),
            None => AppliedV::Error(RuntimeErrorV::Overflow(Arith::Subtract)),
        },
        BinOp::Multiply => match l.checked_mul(r) {
            Some(v) => AppliedV::Value(ValueV::Int(v)),
            None => AppliedV::Error(RuntimeErrorV::Overflow(Arith::Multiply)),
        },
        BinOp::Divide => if r == 0 {
            AppliedV::Error(RuntimeErrorV::DivisionByZero)
        } else {
            match l.checked_div(r) {
                Some(v) => AppliedV::Value(ValueV::Int(v)),
                None => AppliedV::Error(RuntimeErrorV::Overflow(Arith::Divide)),
            }
        },
        _ => if r == 0 {
            AppliedV::Error(RuntimeErrorV::RemainderByZero)
        } else {
            match l.checked_rem(r) {
                Some(v) => AppliedV::Value(ValueV::Int(v)),
                None => AppliedV::Error(RuntimeErrorV::Overflow(Arith::Remainder)),
            }
        },
    }
}

/// Whether binary64 holds the int exactly: its magnitude is at most 2^53.
pub open spec fn exact_in_binary64(n: i64) -> bool {
    -0x20_0000_0000_0000 <= n <= 0x20_0000_0000_0000
}

/// A comparison operator applied to two ints.
pub open spec fn compare_ints(op: BinOp, a: i64, b: i64) -> bool {
    match op {
        BinOp::Less => a < b,
        BinOp::Greater => a > b,
        BinOp::LessEqual => a <= b,
        BinOp::GreaterEqual => a >= b,
        BinOp::EqualEqual => a == b,
        _ => a != b,
    }
}

/// Two numbers compared as binary64. Two ints that binary64 holds exactly
/// compare as the ints do, and are compared here; any other pair is
/// compared by the caller.
pub open spec fn compared(op: BinOp, l: ValueV, r: ValueV) -> AppliedV {
    match (l, r) {
        (ValueV::Int(a), ValueV::Int(b)) => if exact_in_binary64(a) && exact_in_binary64(b) {
            AppliedV::Value(ValueV::Bool(compare_ints(op, a, b)))
        } else {
            AppliedV::Outside(RequestV::Compare(op, l, r))
        },
        _ => AppliedV::Outside(RequestV::Compare(op, l, r)),
    }
}

/// A binary operator applied to two values. Arithmetic on two ints stays
/// in `i64`; with a float it is done in binary64 (by the caller). Ordering
/// comparisons always compare the numbers as binary64 (see [`compared`]).
/// `==` and `!=` compare two booleans directly, refuse a boolean against
/// anything else, and compare numbers as binary64. A non-number where a
/// number is needed is an error.
pub open spec fn binary_spec(op: BinOp, l: ValueV, r: ValueV) -> AppliedV {
    if is_arithmetic(op) {
        match (l, r) {
            (ValueV::Int(a), ValueV::Int(b)) => int_arith(op, a, b),
            _ => if is_number(l) && is_number(r) {
                AppliedV::Outside(RequestV::FloatArith(op, l, r))
            } else {
                AppliedV::Error(RuntimeErrorV::ExpectedNumber)
            },
        }
    } else if is_ordering(op) {
        if is_number(l) && is_number(r) {
            compared(op, l, r)
        } else {
            AppliedV::Error(RuntimeErrorV::ExpectedNumber)
        }
    } else {
        match (l, r) {
            (ValueV::Bool(a), ValueV::Bool(b)) => AppliedV::Value(
                ValueV::Bool(if op == BinOp::EqualEqual { a == b } else { a != b }),
            ),
            _ => if l is Bool || r is Bool {
                AppliedV::Error(RuntimeErrorV::CompareBoolWithNumber)
            } else if is_number(l) && is_number(r) {
                compared(op, l, r)
            } else {
                AppliedV::Error(RuntimeErrorV::ExpectedNumber)
            },
        }
    }
}

/// The sign bit of a binary64.
pub open spec fn sign_bit() -> u64 {
    0x8000_0000_0000_0000u64
}

/// A prefix operator applied to a value: `-` negates an int (an error for
/// `i64::MIN`) or a float (whose sign bit it flips, as IEEE 754 negation
/// does), `!` negates a boolean; anything else is an error.
pub open spec fn unary_spec(op: UnaryOp, v: ValueV) -> AppliedV {
    match (op, v) {
        (UnaryOp::Negate, ValueV::Int(n)) => match 0i64.checked_sub(n) {
            Some(m) => AppliedV::Value(ValueV::Int(m)),
            None => AppliedV::Error(RuntimeErrorV::Overflow(Arith::Negate)),
        },
        (UnaryOp::Negate, ValueV::Float(bits)) => AppliedV::Value(ValueV::Float(bits ^ sign_bit())),
        (UnaryOp::Not, ValueV::Bool(b)) => AppliedV::Value(ValueV::Bool(!b)),
        _ => AppliedV::Error(RuntimeErrorV::InvalidOperand),
    }
}

fn is_number_value(v: &Value) -> (r: bool)
    ensures
        r == is_number(v@),
{
    match v {
        Value::Int(_) | Value::Float(_) => true,
        _ => false,
    }
}

fn int_result(r: Option<i64>, overflow: Arith) -> (a: Applied)
    ensures
        match r {
            Some(v) => a@ == AppliedV::Value(ValueV::Int(v)),
            None => a@ == AppliedV::Error(RuntimeErrorV::Overflow(overflow)),
        },
{
    match r {
        Some(v) => Applied::Value(Value::Int(v)),
        None => Applied::Error(RuntimeError::Overflow(overflow)),
    }
}

/// Integer arithmetic on two ints.
pub fn int_arith_exec(op: BinOp, l: i64, r: i64) -> (a: Applied)
    requires
        is_arithmetic(op),
    ensures
        a@ == int_arith(op, l, r),
{
    match op {
        BinOp::Add => int_result(l.checked_add(r), Arith::Add),
        BinOp::Subtract => int_result(l.checked_sub(r), Arith::Subtract),
        BinOp::Multiply => int_result(l.checked_mul(r), Arith::Multiply),
        BinOp::Divide => if r == 0 {
            Applied::Error(RuntimeError::DivisionByZero)
        } else {
            int_result(l.checked_div(r), Arith::Divide)
        },
        _ => if r == 0 {
            Applied::Error(RuntimeError::RemainderByZero)
        } else {
            int_result(l.checked_rem(r), Arith::Remainder)
        },
    }
}

/// Compares two numbers, when binary64 holds both exactly as ints.
fn compare_numbers(op: BinOp, l: Value, r: Value) -> (a: Applied)
    ensures
        a@ == compared(op, l@, r@),
{
    let exact = match (&l, &r) {
        (Value::Int(a), Value::Int(b)) => if -0x20_0000_0000_0000i64 <= *a && *a <= 0x20_0000_0000_0000i64
            && -0x20_0000_0000_0000i64 <= *b && *b <= 0x20_0000_0000_0000i64 {
            Some(
                match op {
                    BinOp::Less => *a < *b,
                    BinOp::Greater => *a > *b,
                    BinOp::LessEqual => *a <= *b,
                    BinOp::GreaterEqual => *a >= *b,
                    BinOp::EqualEqual => *a == *b,
                    _ => *a != *b,
                },
            )
        } else {
            None
        },
        _ => None,
    };
    match exact {
        Some(x) => Applied::Value(Value::Bool(x)),
        None => Applied::Outside(Request::Compare(op, l, r)),
    }
}

/// Applies a binary operator to two values.
pub fn apply_binary(op: BinOp, l: Value, r: Value) -> (a: Applied)
    ensures
        a@ == binary_spec(op, l@, r@),
{
    let arithmetic = match op {
        BinOp::Add | BinOp::Subtract | BinOp::Multiply | BinOp::Divide | BinOp::Modulo => true,
        _ => false,
    };
    let ordering = match op {
        BinOp::Less | BinOp::Greater | BinOp::LessEqual | BinOp::GreaterEqual => true,
        _ => false,
    };
    if arithmetic {
        match (&l, &r) {
            (Value::Int(a), Value::Int(b)) => int_arith_exec(op, *a, *b),
            _ => if is_number_value(&l) && is_number_value(&r) {
                Applied::Outside(Request::FloatArith(op, l, r))
            } else {
                Applied::Error(RuntimeError::ExpectedNumber)
            },
        }
    } else if ordering {
        if is_number_value(&l) && is_number_value(&r) {
            compare_numbers(op, l, r)
        } else {
            Applied::Error(RuntimeError::ExpectedNumber)
        }
    } else {
        match (&l, &r) {
            (Value::Bool(a), Value::Bool(b)) => {
                let equal = *a == *b;
                Applied::Value(
                    Value::Bool(
                        match op {
                            BinOp::EqualEqual => equal,
                            _ => !equal,
                        },
                    ),
                )
            },
            _ => if matches!(l, Value::Bool(_)) || matches!(r, Value::Bool(_)) {
                Applied::Error(RuntimeError::CompareBoolWithNumber)
            } else if is_number_value(&l) && is_number_value(&r) {
                compare_numbers(op, l, r)
            } else {
                Applied::Error(RuntimeError::ExpectedNumber)
            },
        }
    }
}

/// Applies a prefix operator to a value.
pub fn apply_unary(op: UnaryOp, v: Value) -> (a: Applied)
    ensures
        a@ == unary_spec(op, v@),
{
    match (op, &v) {
        (UnaryOp::Negate, Value::Int(n)) => int_result(0i64.checked_sub(*n), Arith::Negate),
        (UnaryOp::Negate, Value::Float(bits)) => Applied::Value(
            Value::Float(*bits ^ 0x8000_0000_0000_0000u64),
        ),
        (UnaryOp::Not, Value::Bool(b)) => Applied::Value(Value::Bool(!*b)),
        _ => Applied::Error(RuntimeError::InvalidOperand),
    }
}

/// How a statement ended: normally, or with a jump that the enclosing
/// loop or function handles.
#[derive(Debug, PartialEq)]
pub enum Flow {
    Normal,
    Return(Value),
    Break,
    Continue,
}

/// The mathematical counterpart of a [`Flow`].
pub enum FlowV {
    Normal,
    Return(ValueV),
    Break,
    Continue,
}

impl View for Flow {
    type V = FlowV;

    open spec fn view(&self) -> FlowV {
        match self {
            Flow::Normal => FlowV::Normal,
            Flow::Return(v) => FlowV::Return(v@),
            Flow::Break => FlowV::Break,
            Flow::Continue => FlowV::Continue,
        }
    }
}

/// A jump on its way to the loop or function that handles it; a `Return`
/// carries its value on top of the value stack.
#[derive(Debug, Clone, Copy, PartialEq, Eq, Structural)]
pub enum Jump {
    Return,
    Break,
    Continue,
}

/// A running `for` loop: its variable, counter, end, step and body.
#[derive(Debug)]
pub struct ForState {
    pub var: String,
    pub counter: i64,
    pub end: i64,
    pub step: i64,
    pub inclusive: bool,
    pub body: Vec<Stmt>,
}

/// The mathematical counterpart of a [`ForState`].
pub struct ForStateV {
    pub var: Seq<char>,
    pub counter: i64,
    pub end: i64,
    pub step: i64,
    pub inclusive: bool,
    pub body: Seq<StmtV>,
}

impl View for ForState {
    type V = ForStateV;

    open spec fn view(&self) -> ForStateV {
        ForStateV {
            var: self.var@,
            counter: self.counter,
            end: self.end,
            step: self.step,
            inclusive: self.inclusive,
            body: stmts_view(self.body@),
        }
    }
}

/// A piece of pending work. The machine keeps a stack of them and always
/// works on the top one.
#[derive(Debug)]
pub enum Frame {
    /// Evaluate an expression and push its value.
    Eval(Expr),
    /// Execute a statement.
    Exec(Stmt),
    /// Apply an operator to the two values on top (the right one topmost).
    Binary(BinOp),
    /// Apply a prefix operator to the value on top.
    Unary(UnaryOp),
    /// Define a variable with the value on top.
    Declare { is_mutable: bool, declared_type: Type, name: String },
    /// Assign the value on top to a variable.
    Assign(String),
    /// Print the value on top.
    Print,
    /// Drop the value on top.
    Discard,
    /// Run one branch of an `if`, chosen by the condition on top.
    Branch { then_branch: Vec<Stmt>, else_branch: Option<Box<Stmt>> },
    /// A `while` loop about to evaluate its condition.
    Loop { condition: Expr, body: Vec<Stmt> },
    /// A `while` loop deciding on the condition on top.
    LoopTest { condition: Expr, body: Vec<Stmt> },
    /// Check that the bound of a `for` loop on top is an int.
    CheckBound(Bound),
    /// Start a `for` loop from the bounds on top.
    ForStart { var: String, inclusive: bool, has_step: bool, body: Vec<Stmt> },
    /// A `for` loop about to decide on another iteration.
    ForLoop(ForState),
    /// A `for` loop whose body is running; the counter moves on when it ends.
    ForNext(ForState),
    /// A block's scope, left when this frame is reached.
    Scope,
    /// Call a function with the arguments on top.
    Call { name: String, function: Value, argc: usize },
    /// A function body running; returns a value of the given type.
    Body(Type),
    /// Check the value on top against a function's return type.
    Returning(Type),
    /// A jump travelling down the stack.
    Unwinding(Jump),
    /// Wait for the result of a computation left to the caller.
    Await,
}

/// The mathematical counterpart of a [`Frame`].
pub enum FrameV {
    Eval(ExprV),
    Exec(StmtV),
    Binary(BinOp),
    Unary(UnaryOp),
    Declare { is_mutable: bool, declared_type: Type, name: Seq<char> },
    Assign(Seq<char>),
    Print,
    Discard,
    Branch { then_branch: Seq<StmtV>, else_branch: Option<Box<StmtV>> },
    Loop { condition: ExprV, body: Seq<StmtV> },
    LoopTest { condition: ExprV, body: Seq<StmtV> },
    CheckBound(Bound),
    ForStart { var: Seq<char>, inclusive: bool, has_step: bool, body: Seq<StmtV> },
    ForLoop(ForStateV),
    ForNext(ForStateV),
    Scope,
    Call { name: Seq<char>, function: ValueV, argc: usize },
    Body(Type),
    Returning(Type),
    Unwinding(Jump),
    Await,
}

impl View for Frame {
    type V = FrameV;

    open spec fn view(&self) -> FrameV {
        match self {
            Frame::Eval(e) => FrameV::Eval(e@),
            Frame::Exec(s) => FrameV::Exec(s@),
            Frame::Binary(op) => FrameV::Binary(*op),
            Frame::Unary(op) => FrameV::Unary(*op),
            Frame::Declare { is_mutable, declared_type, name } => FrameV::Declare {
                is_mutable: *is_mutable,
                declared_type: *declared_type,
                name: name@,
            },
            Frame::Assign(name) => FrameV::Assign(name@),
            Frame::Print => FrameV::Print,
            Frame::Discard => FrameV::Discard,
            Frame::Branch { then_branch, else_branch } => FrameV::Branch {
                then_branch: stmts_view(then_branch@),
                else_branch: match else_branch {
                    Some(b) => Some(Box::new((**b)@)),
                    None => None,
                },
            },
            Frame::Loop { condition, body } => FrameV::Loop {
                condition: condition@,
                body: stmts_view(body@),
            },
            Frame::LoopTest { condition, body } => FrameV::LoopTest {
                condition: condition@,
                body: stmts_view(body@),
            },
            Frame::CheckBound(b) => FrameV::CheckBound(*b),
            Frame::ForStart { var, inclusive, has_step, body } => FrameV::ForStart {
                var: var@,
                inclusive: *inclusive,
                has_step: *has_step,
                body: stmts_view(body@),
            },
            Frame::ForLoop(st) => FrameV::ForLoop(st@),
            Frame::ForNext(st) => FrameV::ForNext(st@),
            Frame::Scope => FrameV::Scope,
            Frame::Call { name, function, argc } => FrameV::Call {
                name: name@,
                function: function@,
                argc: *argc,
            },
            Frame::Body(t) => FrameV::Body(*t),
            Frame::Returning(t) => FrameV::Returning(*t),
            Frame::Unwinding(j) => FrameV::Unwinding(*j),
            Frame::Await => FrameV::Await,
        }
    }
}

/// What the machine asks of its caller after a step.
#[derive(Debug)]
pub enum Action {
    /// Nothing: step again.
    Continue,
    /// Compute this and pass the result to the next step.
    Compute(Request),
    /// Print this value, then step again.
    Print(Value),
    /// The statement has been executed, and ended with this flow.
    Finished(Flow),
    /// The expression has been evaluated to this value.
    Produced(Value),
    /// Execution stopped with this error.
    Failed(RuntimeError),
}

/// The mathematical counterpart of an [`Action`].
pub enum ActionV {
    Continue,
    Compute(RequestV),
    Print(ValueV),
    Finished(FlowV),
    Produced(ValueV),
    Failed(RuntimeErrorV),
}

impl View for Action {
    type V = ActionV;

    open spec fn view(&self) -> ActionV {
        match self {
            Action::Continue => ActionV::Continue,
            Action::Compute(r) => ActionV::Compute(r@),
            Action::Print(v) => ActionV::Print(v@),
            Action::Finished(f) => ActionV::Finished(f@),
            Action::Produced(v) => ActionV::Produced(v@),
            Action::Failed(e) => ActionV::Failed(e@),
        }
    }
}

/// The mathematical counterpart of a [`Machine`]: the environment, the
/// stack of pending work (its top last), the stack of computed values (its
/// top last), and whether the machine evaluates an expression (rather than
/// executing a statement).
pub struct MachineV {
    pub env: EnvV,
    pub frames: Seq<FrameV>,
    pub values: Seq<ValueV>,
    pub expression: bool,
}

pub open spec fn push_frame(m: MachineV, f: FrameV) -> MachineV {
    MachineV { frames: m.frames.push(f), ..m }
}

pub open spec fn push_value(m: MachineV, v: ValueV) -> MachineV {
    MachineV { values: m.values.push(v), ..m }
}

pub open spec fn drop_values(m: MachineV, n: int) -> MachineV {
    MachineV { values: m.values.take(m.values.len() - n), ..m }
}

pub open spec fn with_env(m: MachineV, env: EnvV) -> MachineV {
    MachineV { env, ..m }
}

pub open spec fn step_on(m: MachineV) -> (MachineV, ActionV) {
    (m, ActionV::Continue)
}

/// A failure: the error, and a machine with no work left.
pub open spec fn fail(m: MachineV, e: RuntimeErrorV) -> (MachineV, ActionV) {
    (MachineV { frames: Seq::empty(), ..m }, ActionV::Failed(e))
}

/// Waiting for the result of a computation, with `f` to go on with.
pub open spec fn compute_then(m: MachineV, f: FrameV, r: RequestV) -> (MachineV, ActionV) {
    (push_frame(push_frame(m, f), FrameV::Await), ActionV::Compute(r))
}

/// Frames that execute `stmts` in order (the first one on top).
pub open spec fn exec_frames(stmts: Seq<StmtV>) -> Seq<FrameV> {
    Seq::new(stmts.len(), |i: int| FrameV::Exec(stmts[stmts.len() - 1 - i]))
}

/// Frames that evaluate `args` in order (the first one on top).
pub open spec fn eval_frames(args: Seq<ExprV>) -> Seq<FrameV> {
    Seq::new(args.len(), |i: int| FrameV::Eval(args[args.len() - 1 - i]))
}

/// Frames that bind `params` in order (the first one on top), each to a
/// mutable variable of its declared type.
pub open spec fn bind_frames(params: Seq<ParamV>) -> Seq<FrameV> {
    Seq::new(
        params.len(),
        |i: int|
            FrameV::Declare {
                is_mutable: true,
                declared_type: params[params.len() - 1 - i].param_type,
                name: params[params.len() - 1 - i].name,
            },
    )
}

/// Entering a block: a new scope, and its statements to run, then the scope to leave.
pub open spec fn enter_block(m: MachineV, stmts: Seq<StmtV>) -> MachineV {
    MachineV {
        env: with_scope(m.env),
        frames: m.frames.push(FrameV::Scope) + exec_frames(stmts),
        ..m
    }
}

/// Using the result of applying an operator.
pub open spec fn applied_step(m: MachineV, a: AppliedV) -> (MachineV, ActionV) {
    match a {
        AppliedV::Value(v) => step_on(push_value(m, v)),
        AppliedV::Outside(r) => (push_frame(m, FrameV::Await), ActionV::Compute(r)),
        AppliedV::Error(e) => fail(m, e),
    }
}

/// Evaluating an expression: a literal or a variable gives its value at once,
/// an operator evaluates its operands first (left before right), a call looks
/// its function up and then evaluates its arguments (first to last).
pub open spec fn eval_step(m: MachineV, e: ExprV) -> (MachineV, ActionV) {
    match e {
        ExprV::Int(n) => step_on(push_value(m, ValueV::Int(n))),
        ExprV::Bool(b) => step_on(push_value(m, ValueV::Bool(b))),
        ExprV::Float(text) => (push_frame(m, FrameV::Await), ActionV::Compute(RequestV::FloatLiteral(text))),
        ExprV::Variable(name) => match lookup(m.env, name) {
            Some(var) => step_on(push_value(m, var.value)),
            None => fail(m, RuntimeErrorV::UndefinedVariable(name)),
        },
        ExprV::Binary(op, l, r) => step_on(
            push_frame(push_frame(push_frame(m, FrameV::Binary(op)), FrameV::Eval(*r)), FrameV::Eval(*l)),
        ),
        ExprV::Unary(op, x) => step_on(push_frame(push_frame(m, FrameV::Unary(op)), FrameV::Eval(*x))),
        ExprV::Call { name, arguments } => if m.env.functions.contains_key(name) {
            step_on(
                MachineV {
                    frames: m.frames.push(
                        FrameV::Call {
                            name,
                            function: m.env.functions[name],
                            argc: arguments.len() as usize,
                        },
                    ) + eval_frames(arguments),
                    ..m
                },
            )
        } else {
            fail(m, RuntimeErrorV::UndefinedFunction(name))
        },
    }
}

/// Executing a statement.
pub open spec fn exec_step(m: MachineV, s: StmtV) -> (MachineV, ActionV) {
    match s {
        StmtV::Declaration { is_mutable, declared_type, name, value } => step_on(
            push_frame(
                push_frame(m, FrameV::Declare { is_mutable, declared_type, name }),
                FrameV::Eval(value),
            ),
        ),
        StmtV::Assignment { name, value } => step_on(
            push_frame(push_frame(m, FrameV::Assign(name)), FrameV::Eval(value)),
        ),
        StmtV::If { condition, then_branch, else_branch } => step_on(
            push_frame(
                push_frame(m, FrameV::Branch { then_branch, else_branch }),
                FrameV::Eval(condition),
            ),
        ),
        StmtV::While { condition, body } => step_on(push_frame(m, FrameV::Loop { condition, body })),
        StmtV::For { var, start, inclusive, end, step, body } => {
            let m1 = push_frame(m, FrameV::ForStart { var, inclusive, has_step: step is Some, body });
            let m2 = match step {
                Some(e) => push_frame(push_frame(m1, FrameV::CheckBound(Bound::Step)), FrameV::Eval(e)),
                None => m1,
            };
            step_on(
                push_frame(
                    push_frame(
                        push_frame(push_frame(m2, FrameV::CheckBound(Bound::End)), FrameV::Eval(end)),
                        FrameV::CheckBound(Bound::Start),
                    ),
                    FrameV::Eval(start),
                ),
            )
        },
        StmtV::FunctionDef { name, parameters, return_type, body } => if m.env.functions.contains_key(
            name,
        ) {
            fail(m, RuntimeErrorV::FunctionAlreadyDeclared(name))
        } else {
            step_on(
                with_env(
                    m,
                    EnvV {
                        scopes: m.env.scopes,
                        functions: m.env.functions.insert(
                            name,
                            ValueV::Function { parameters, return_type, body },
                        ),
                    },
                ),
            )
        },
        StmtV::Block(stmts) => step_on(enter_block(m, stmts)),
        StmtV::Print(e) => step_on(push_frame(push_frame(m, FrameV::Print), FrameV::Eval(e))),
        StmtV::Expr(e) => step_on(push_frame(push_frame(m, FrameV::Discard), FrameV::Eval(e))),
        StmtV::Return(Some(e)) => step_on(
            push_frame(push_frame(m, FrameV::Unwinding(Jump::Return)), FrameV::Eval(e)),
        ),
        StmtV::Return(None) => step_on(
            push_frame(push_value(m, ValueV::Void), FrameV::Unwinding(Jump::Return)),
        ),
        StmtV::Break => step_on(push_frame(m, FrameV::Unwinding(Jump::Break))),
        StmtV::Continue => step_on(push_frame(m, FrameV::Unwinding(Jump::Continue))),
    }
}

/// Defining a variable from a value: a value of the declared type is
/// defined at once, an int for a float variable is first converted.
pub open spec fn declare_step(
    m: MachineV,
    is_mutable: bool,
    declared_type: Type,
    name: Seq<char>,
    v: ValueV,
) -> (MachineV, ActionV) {
    match check_spec(declared_type, v) {
        Check::Accept => match define_spec(m.env, name, VariableV { value: v, is_mutable, declared_type }) {
            Ok(env) => step_on(with_env(m, env)),
            Err(e) => fail(m, e),
        },
        Check::Widen(n) => compute_then(
            m,
            FrameV::Declare { is_mutable, declared_type, name },
            RequestV::IntToFloat(n),
        ),
        Check::FloatIntoInt => fail(m, RuntimeErrorV::FloatIntoInt(name)),
        Check::Mismatch => fail(m, RuntimeErrorV::TypeMismatch(declared_type, name)),
    }
}

/// Assigning a value to a variable.
pub open spec fn assign_step(m: MachineV, name: Seq<char>, v: ValueV) -> (MachineV, ActionV) {
    match assign_spec(m.env, name, v) {
        AssignSpec::Done(env) => step_on(with_env(m, env)),
        AssignSpec::Widen(n) => compute_then(m, FrameV::Assign(name), RequestV::IntToFloat(n)),
        AssignSpec::Refused(e) => fail(m, e),
    }
}

/// Starting a `for` loop from its bounds: a zero step is refused, then the
/// loop gets a scope of its own where its variable is defined as the start.
pub open spec fn for_start_step(
    m: MachineV,
    var: Seq<char>,
    inclusive: bool,
    has_step: bool,
    body: Seq<StmtV>,
) -> (MachineV, ActionV) {
    let n: int = if has_step { 3 } else { 2 };
    let vs = m.values;
    if vs.len() < n {
        fail(m, RuntimeErrorV::Protocol)
    } else {
        let start = vs[vs.len() - n];
        let end = vs[vs.len() - n + 1];
        let step = if has_step { vs.last() } else { ValueV::Int(1) };
        let m1 = drop_values(m, n);
        match (start, end, step) {
            (ValueV::Int(s), ValueV::Int(e), ValueV::Int(st)) => if st == 0 {
                fail(m1, RuntimeErrorV::ZeroStep)
            } else {
                match define_spec(
                    with_scope(m1.env),
                    var,
                    VariableV { value: ValueV::Int(s), is_mutable: true, declared_type: Type::Int },
                ) {
                    Ok(env) => step_on(
                        push_frame(
                            with_env(m1, env),
                            FrameV::ForLoop(
                                ForStateV { var, counter: s, end: e, step: st, inclusive, body },
                            ),
                        ),
                    ),
                    Err(err) => fail(with_env(m1, with_scope(m1.env)), err),
                }
            },
            _ => fail(m1, RuntimeErrorV::Protocol),
        }
    }
}

/// A `for` loop deciding on another iteration: it either ends (leaving its
/// scope) or sets its variable to the counter and runs its body.
pub open spec fn for_loop_step(m: MachineV, st: ForStateV) -> (MachineV, ActionV) {
    if loop_continues(st.counter as int, st.end as int, st.step as int, st.inclusive) {
        match assign_spec(m.env, st.var, ValueV::Int(st.counter)) {
            AssignSpec::Done(env) => step_on(
                push_frame(
                    push_frame(with_env(m, env), FrameV::ForNext(st)),
                    FrameV::Exec(StmtV::Block(st.body)),
                ),
            ),
            AssignSpec::Widen(_) => fail(m, RuntimeErrorV::Protocol),
            AssignSpec::Refused(e) => fail(m, e),
        }
    } else {
        step_on(with_env(m, without_scope(m.env)))
    }
}

/// The counter of a `for` loop moved on by its step.
pub open spec fn advanced(st: ForStateV) -> Option<ForStateV> {
    match st.counter.checked_add(st.step) {
        Some(c) => Some(ForStateV { counter: c, ..st }),
        None => None,
    }
}

/// Calling a function with the `argc` values on top: the callee must be a
/// function taking as many parameters; it gets a scope of its own where its
/// parameters are bound to the arguments, first to last, and then runs its
/// body as a block.
pub open spec fn call_step(m: MachineV, name: Seq<char>, function: ValueV, argc: usize) -> (MachineV, ActionV) {
    if m.values.len() < argc {
        fail(m, RuntimeErrorV::Protocol)
    } else {
        let args = m.values.skip(m.values.len() - argc);
        let m1 = drop_values(m, argc as int);
        match function {
            ValueV::Function { parameters, return_type, body } => if parameters.len() != argc {
                fail(
                    m1,
                    RuntimeErrorV::WrongArgumentCount {
                        name,
                        expected: parameters.len() as usize,
                        got: argc,
                    },
                )
            } else {
                step_on(
                    MachineV {
                        env: with_scope(m1.env),
                        frames: m1.frames.push(FrameV::Body(return_type)).push(
                            FrameV::Exec(StmtV::Block(body)),
                        ) + bind_frames(parameters),
                        values: m1.values + args.reverse(),
                        expression: m1.expression,
                    },
                )
            },
            _ => fail(m1, RuntimeErrorV::NotAFunction(name)),
        }
    }
}

/// Checking a returned value against the function's return type.
pub open spec fn returning_step(m: MachineV, t: Type, v: ValueV) -> (MachineV, ActionV) {
    match check_spec(t, v) {
        Check::Accept => step_on(push_value(m, v)),
        Check::Widen(n) => compute_then(m, FrameV::Returning(t), RequestV::IntToFloat(n)),
        Check::FloatIntoInt => fail(m, RuntimeErrorV::FloatIntoInt("return"@)),
        Check::Mismatch => fail(m, RuntimeErrorV::TypeMismatch(t, "return"@)),
    }
}

/// The flow that a jump becomes when it ends a statement.
pub open spec fn jump_flow(j: Jump, v: ValueV) -> FlowV {
    match j {
        Jump::Return => FlowV::Return(v),
        Jump::Break => FlowV::Break,
        Jump::Continue => FlowV::Continue,
    }
}

/// A jump meeting the frame below it. A block's scope, or a `for` loop's
/// between two rounds, is left. A `while`
/// loop ends on `break`, tests its condition again on `continue`, and lets
/// a `return` through. A `for` loop moves its counter on whatever the jump,
/// then ends on `break` (leaving its scope), goes on on `continue`, and lets
/// a `return` through (leaving its scope). A function body takes a `return`
/// and refuses the other jumps. Any other frame is dropped. At the bottom of
/// the stack the jump ends the statement.
pub open spec fn unwind_step(m: MachineV, j: Jump) -> (MachineV, ActionV) {
    if m.frames.len() == 0 {
        if j == Jump::Return {
            if m.values.len() == 0 {
                fail(m, RuntimeErrorV::Protocol)
            } else {
                (drop_values(m, 1), ActionV::Finished(FlowV::Return(m.values.last())))
            }
        } else {
            (m, ActionV::Finished(jump_flow(j, ValueV::Void)))
        }
    } else {
        let below = m.frames.last();
        let m1 = MachineV { frames: m.frames.drop_last(), ..m };
        let again = FrameV::Unwinding(j);
        match below {
            FrameV::Scope => step_on(push_frame(with_env(m1, without_scope(m1.env)), again)),
            FrameV::ForLoop(_) => step_on(push_frame(with_env(m1, without_scope(m1.env)), again)),
            FrameV::Loop { .. } => match j {
                Jump::Break => step_on(m1),
                Jump::Continue => step_on(m),
                Jump::Return => step_on(push_frame(m1, again)),
            },
            FrameV::ForNext(st) => match advanced(st) {
                None => fail(m1, RuntimeErrorV::Overflow(Arith::Add)),
                Some(next) => match j {
                    Jump::Break => step_on(with_env(m1, without_scope(m1.env))),
                    Jump::Continue => step_on(push_frame(m1, FrameV::ForLoop(next))),
                    Jump::Return => step_on(push_frame(with_env(m1, without_scope(m1.env)), again)),
                },
            },
            FrameV::Body(t) => if j == Jump::Return {
                step_on(push_frame(with_env(m1, without_scope(m1.env)), FrameV::Returning(t)))
            } else {
                fail(m1, RuntimeErrorV::FlowOutsideLoop)
            },
            _ => step_on(push_frame(m1, again)),
        }
    }
}

/// One step of the machine, given the result of the computation that the
/// previous step asked for, if any.
pub open spec fn next(m: MachineV, reply: Option<ValueV>) -> (MachineV, ActionV) {
    if m.frames.len() == 0 {
        if m.expression {
            if m.values.len() == 0 {
                fail(m, RuntimeErrorV::Protocol)
            } else {
                (m, ActionV::Produced(m.values.last()))
            }
        } else {
            (m, ActionV::Finished(FlowV::Normal))
        }
    } else {
        let m1 = MachineV { frames: m.frames.drop_last(), ..m };
        let vs = m1.values;
        let n = vs.len();
        match m.frames.last() {
            FrameV::Await => match reply {
                Some(v) => step_on(push_value(m1, v)),
                None => fail(m1, RuntimeErrorV::Protocol),
            },
            FrameV::Eval(e) => eval_step(m1, e),
            FrameV::Exec(s) => exec_step(m1, s),
            FrameV::Binary(op) => if n < 2 {
                fail(m1, RuntimeErrorV::Protocol)
            } else {
                applied_step(drop_values(m1, 2), binary_spec(op, vs[n - 2], vs[n - 1]))
            },
            FrameV::Unary(op) => if n < 1 {
                fail(m1, RuntimeErrorV::Protocol)
            } else {
                applied_step(drop_values(m1, 1), unary_spec(op, vs[n - 1]))
            },
            FrameV::Declare { is_mutable, declared_type, name } => if n < 1 {
                fail(m1, RuntimeErrorV::Protocol)
            } else {
                declare_step(drop_values(m1, 1), is_mutable, declared_type, name, vs[n - 1])
            },
            FrameV::Assign(name) => if n < 1 {
                fail(m1, RuntimeErrorV::Protocol)
            } else {
                assign_step(drop_values(m1, 1), name, vs[n - 1])
            },
            FrameV::Print => if n < 1 {
                fail(m1, RuntimeErrorV::Protocol)
            } else {
                (drop_values(m1, 1), ActionV::Print(vs[n - 1]))
            },
            FrameV::Discard => if n < 1 {
                fail(m1, RuntimeErrorV::Protocol)
            } else {
                step_on(drop_values(m1, 1))
            },
            FrameV::Branch { then_branch, else_branch } => if n < 1 {
                fail(m1, RuntimeErrorV::Protocol)
            } else {
                let m2 = drop_values(m1, 1);
                match vs[n - 1] {
                    ValueV::Bool(true) => step_on(push_frame(m2, FrameV::Exec(StmtV::Block(then_branch)))),
                    ValueV::Bool(false) => match else_branch {
                        Some(b) => step_on(push_frame(m2, FrameV::Exec(*b))),
                        None => step_on(m2),
                    },
                    _ => fail(m2, RuntimeErrorV::ExpectedBoolCondition),
                }
            },
            FrameV::Loop { condition, body } => step_on(
                push_frame(push_frame(m1, FrameV::LoopTest { condition, body }), FrameV::Eval(condition)),
            ),
            FrameV::LoopTest { condition, body } => if n < 1 {
                fail(m1, RuntimeErrorV::Protocol)
            } else {
                let m2 = drop_values(m1, 1);
                match vs[n - 1] {
                    ValueV::Bool(true) => step_on(
                        push_frame(
                            push_frame(m2, FrameV::Loop { condition, body }),
                            FrameV::Exec(StmtV::Block(body)),
                        ),
                    ),
                    ValueV::Bool(false) => step_on(m2),
                    _ => fail(m2, RuntimeErrorV::ExpectedBoolCondition),
                }
            },
            FrameV::CheckBound(b) => if n < 1 {
                fail(m1, RuntimeErrorV::Protocol)
            } else if vs[n - 1] is Int {
                step_on(m1)
            } else {
                fail(m1, RuntimeErrorV::LoopBoundNotInt(b))
            },
            FrameV::ForStart { var, inclusive, has_step, body } => for_start_step(
                m1,
                var,
                inclusive,
                has_step,
                body,
            ),
            FrameV::ForLoop(st) => for_loop_step(m1, st),
            FrameV::ForNext(st) => match advanced(st) {
                Some(next) => step_on(push_frame(m1, FrameV::ForLoop(next))),
                None => fail(m1, RuntimeErrorV::Overflow(Arith::Add)),
            },
            FrameV::Scope => step_on(with_env(m1, without_scope(m1.env))),
            FrameV::Call { name, function, argc } => call_step(m1, name, function, argc),
            FrameV::Body(t) => step_on(
                push_frame(
                    push_value(with_env(m1, without_scope(m1.env)), ValueV::Void),
                    FrameV::Returning(t),
                ),
            ),
            FrameV::Returning(t) => if n < 1 {
                fail(m1, RuntimeErrorV::Protocol)
            } else {
                returning_step(drop_values(m1, 1), t, vs[n - 1])
            },
            FrameV::Unwinding(j) => unwind_step(m1, j),
        }
    }
}

pub open spec fn frames_view(s: Seq<Frame>) -> Seq<FrameV> {
    s.map_values(|f: Frame| f@)
}

pub open spec fn values_view(s: Seq<Value>) -> Seq<ValueV> {
    s.map_values(|v: Value| v@)
}

pub open spec fn opt_value_view(v: Option<Value>) -> Option<ValueV> {
    match v {
        Some(x) => Some(x@),
        None => None,
    }
}

/// A machine that executes one statement, or evaluates one expression, in
/// small steps. It does no floating-point arithmetic and no printing itself:
/// a step asks for them through its action, and the result of a computation
/// is handed to the next step.
#[derive(Debug)]
pub struct Machine {
    env: Environment,
    frames: Vec<Frame>,
    values: Vec<Value>,
    expression: bool,
}

impl View for Machine {
    type V = MachineV;

    closed spec fn view(&self) -> MachineV {
        MachineV {
            env: self.env@,
            frames: frames_view(self.frames@),
            values: values_view(self.values@),
            expression: self.expression,
        }
    }
}

impl Machine {
    /// A machine about to execute `stmt` in `env`.
    pub fn for_statement(stmt: Stmt, env: Environment) -> (m: Machine)
        ensures
            m@ == (MachineV {
                env: env@,
                frames: seq![FrameV::Exec(stmt@)],
                values: Seq::empty(),
                expression: false,
            }),
    {
        let m = Machine { env, frames: vec![Frame::Exec(stmt)], values: Vec::new(), expression: false };
        assert(m@.frames =~= seq![FrameV::Exec(stmt@)]);
        assert(m@.values =~= Seq::<ValueV>::empty());
        m
    }

    /// A machine about to evaluate `expr` in `env`.
    pub fn for_expression(expr: Expr, env: Environment) -> (m: Machine)
        ensures
            m@ == (MachineV {
                env: env@,
                frames: seq![FrameV::Eval(expr@)],
                values: Seq::empty(),
                expression: true,
            }),
    {
        let m = Machine { env, frames: vec![Frame::Eval(expr)], values: Vec::new(), expression: true };
        assert(m@.frames =~= seq![FrameV::Eval(expr@)]);
        assert(m@.values =~= Seq::<ValueV>::empty());
        m
    }

    /// The environment.
    pub fn environment(&self) -> (e: &Environment)
        ensures
            e@ == self@.env,
    {
        &self.env
    }

    /// Gives the environment back.
    pub fn into_environment(self) -> (e: Environment)
        ensures
            e@ == self@.env,
    {
        self.env
    }

    fn push(&mut self, f: Frame)
        ensures
            final(self)@ == push_frame(old(self)@, f@),
    {
        let ghost fv = f@;
        self.frames.push(f);
        assert(frames_view(self.frames@) =~= frames_view(old(self).frames@).push(fv));
    }

    fn push_value(&mut self, v: Value)
        ensures
            final(self)@ == push_value(old(self)@, v@),
    {
        let ghost vv = v@;
        self.values.push(v);
        assert(values_view(self.values@) =~= values_view(old(self).values@).push(vv));
    }

    fn pop_value(&mut self) -> (r: Value)
        requires
            old(self).values@.len() > 0,
        ensures
            r@ == old(self)@.values.last(),
            final(self)@ == drop_values(old(self)@, 1),
            final(self).values@.len() == old(self).values@.len() - 1,
    {
        let r = self.values.pop().unwrap();
        assert(values_view(self.values@) =~= values_view(old(self).values@).take(
            old(self).values@.len() - 1,
        ));
        r
    }

    fn fail(&mut self, e: RuntimeError) -> (a: Action)
        ensures
            (final(self)@, a@) == fail(old(self)@, e@),
    {
        self.frames.clear();
        assert(frames_view(self.frames@) =~= Seq::<FrameV>::empty());
        Action::Failed(e)
    }

    fn compute_then(&mut self, f: Frame, r: Request) -> (a: Action)
        ensures
            (final(self)@, a@) == compute_then(old(self)@, f@, r@),
    {
        self.push(f);
        self.push(Frame::Await);
        Action::Compute(r)
    }

    /// Pushes frames that execute `stmts` in order.
    fn push_statements(&mut self, stmts: Vec<Stmt>)
        ensures
            final(self)@ == (MachineV {
                frames: old(self)@.frames + exec_frames(stmts_view(stmts@)),
                ..old(self)@
            }),
    {
        let ghost orig = stmts_view(stmts@);
        let ghost n = stmts@.len();
        proof {
            lemma_stmts_view_len(stmts@);
        }
        let mut rest = stmts;
        while rest.len() > 0
            invariant
                rest@.len() <= n,
                orig.len() == n,
                stmts_view(rest@) == orig.take(rest@.len() as int),
                self@ == (MachineV {
                    frames: old(self)@.frames + exec_frames(orig).take(n - rest@.len()),
                    ..old(self)@
                }),
            decreases rest@.len(),
        {
            let ghost k = rest@.len();
            let ghost before = rest@;
            let st = rest.pop().unwrap();
            assert(stmts_view(before) == stmts_view(before.drop_last()).push(before.last()@));
            assert(stmts_view(before)[k - 1] == st@);
            assert(st@ == orig[k - 1]);
            assert(stmts_view(rest@) == orig.take(k - 1)) by {
                assert(orig.take(k as int).drop_last() == orig.take(k - 1));
            }
            self.push(Frame::Exec(st));
            assert(exec_frames(orig).take(n - k + 1) == exec_frames(orig).take(n - k).push(
                FrameV::Exec(orig[k - 1]),
            ));
        }
        assert(exec_frames(orig).take(n as int) == exec_frames(orig));
    }

    /// Pushes frames that evaluate `args` in order.
    fn push_arguments(&mut self, args: Vec<Expr>)
        ensures
            final(self)@ == (MachineV {
                frames: old(self)@.frames + eval_frames(exprs_view(args@)),
                ..old(self)@
            }),
    {
        let ghost orig = exprs_view(args@);
        let ghost n = args@.len();
        proof {
            lemma_exprs_view_len(args@);
        }
        let mut rest = args;
        while rest.len() > 0
            invariant
                rest@.len() <= n,
                orig.len() == n,
                exprs_view(rest@) == orig.take(rest@.len() as int),
                self@ == (MachineV {
                    frames: old(self)@.frames + eval_frames(orig).take(n - rest@.len()),
                    ..old(self)@
                }),
            decreases rest@.len(),
        {
            let ghost k = rest@.len();
            let ghost before = rest@;
            let e = rest.pop().unwrap();
            assert(exprs_view(before) == exprs_view(before.drop_last()).push(before.last()@));
            assert(exprs_view(before)[k - 1] == e@);
            assert(e@ == orig[k - 1]);
            assert(exprs_view(rest@) == orig.take(k - 1)) by {
                assert(orig.take(k as int).drop_last() == orig.take(k - 1));
            }
            self.push(Frame::Eval(e));
            assert(eval_frames(orig).take(n - k + 1) == eval_frames(orig).take(n - k).push(
                FrameV::Eval(orig[k - 1]),
            ));
        }
        assert(eval_frames(orig).take(n as int) == eval_frames(orig));
    }

    /// Pushes frames that bind `params` in order.
    fn push_bindings(&mut self, params: Vec<Param>)
        ensures
            final(self)@ == (MachineV {
                frames: old(self)@.frames + bind_frames(params_view(params@)),
                ..old(self)@
            }),
    {
        let ghost orig = params_view(params@);
        let ghost n = params@.len();
        let mut rest = params;
        while rest.len() > 0
            invariant
                rest@.len() <= n,
                orig.len() == n,
                params_view(rest@) == orig.take(rest@.len() as int),
                self@ == (MachineV {
                    frames: old(self)@.frames + bind_frames(orig).take(n - rest@.len()),
                    ..old(self)@
                }),
            decreases rest@.len(),
        {
            let ghost k = rest@.len();
            let ghost before = rest@;
            let p = rest.pop().unwrap();
            assert(params_view(before)[k - 1] == p@);
            assert(params_view(rest@) =~= orig.take(k - 1)) by {
                assert(rest@ == before.drop_last());
                assert forall|i: int| 0 <= i < k - 1 implies params_view(rest@)[i] == orig[i] by {
                    assert(params_view(before)[i] == orig.take(k as int)[i]);
                }
            }
            self.push(Frame::Declare { is_mutable: true, declared_type: p.param_type, name: p.name });
            assert(bind_frames(orig).take(n - k + 1) == bind_frames(orig).take(n - k).push(
                bind_frames(orig)[n - k],
            ));
        }
        assert(bind_frames(orig).take(n as int) == bind_frames(orig));
    }
}

impl Machine {
    fn run_eval(&mut self, e: Expr) -> (a: Action)
        ensures
            (final(self)@, a@) == eval_step(old(self)@, e@),
    {
        match e {
            Expr::Int(n) => {
                self.push_value(Value::Int(n));
                Action::Continue
            },
            Expr::Bool(b) => {
                self.push_value(Value::Bool(b));
                Action::Continue
            },
            Expr::Float(text) => {
                self.push(Frame::Await);
                Action::Compute(Request::FloatLiteral(text))
            },
            Expr::Variable(name) => match self.env.try_get(name.as_str()) {
                Ok(v) => {
                    self.push_value(v);
                    Action::Continue
                },
                Err(err) => self.fail(err),
            },
            Expr::Binary(op, l, r) => {
                self.push(Frame::Binary(op));
                self.push(Frame::Eval(*r));
                self.push(Frame::Eval(*l));
                Action::Continue
            },
            Expr::Unary(op, x) => {
                self.push(Frame::Unary(op));
                self.push(Frame::Eval(*x));
                Action::Continue
            },
            Expr::Call { name, arguments } => match self.env.try_get_function(name.as_str()) {
                Err(err) => self.fail(err),
                Ok(function) => {
                    proof {
                        lemma_exprs_view_len(arguments@);
                    }
                    let argc = arguments.len();
                    self.push(Frame::Call { name, function, argc });
                    self.push_arguments(arguments);
                    Action::Continue
                },
            },
        }
    }

    fn run_exec(&mut self, s: Stmt) -> (a: Action)
        ensures
            (final(self)@, a@) == exec_step(old(self)@, s@),
    {
        match s {
            Stmt::Declaration { is_mutable, declared_type, name, value } => {
                self.push(Frame::Declare { is_mutable, declared_type, name });
                self.push(Frame::Eval(value));
                Action::Continue
            },
            Stmt::Assignment { name, value } => {
                self.push(Frame::Assign(name));
                self.push(Frame::Eval(value));
                Action::Continue
            },
            Stmt::If { condition, then_branch, else_branch } => {
                self.push(Frame::Branch { then_branch, else_branch });
                self.push(Frame::Eval(condition));
                Action::Continue
            },
            Stmt::While { condition, body } => {
                self.push(Frame::Loop { condition, body });
                Action::Continue
            },
            Stmt::For { var, start, inclusive, end, step, body } => {
                let has_step = step.is_some();
                self.push(Frame::ForStart { var, inclusive, has_step, body });
                match step {
                    Some(e) => {
                        self.push(Frame::CheckBound(Bound::Step));
                        self.push(Frame::Eval(e));
                    },
                    None => {},
                }
                self.push(Frame::CheckBound(Bound::End));
                self.push(Frame::Eval(end));
                self.push(Frame::CheckBound(Bound::Start));
                self.push(Frame::Eval(start));
                Action::Continue
            },
            Stmt::FunctionDef { name, parameters, return_type, body } => {
                let function = Value::Function { parameters, return_type, body };
                match self.env.try_define_function(name, function) {
                    Ok(()) => Action::Continue,
                    Err(err) => self.fail(err),
                }
            },
            Stmt::Block(stmts) => {
                self.env.push_scope();
                self.push(Frame::Scope);
                self.push_statements(stmts);
                Action::Continue
            },
            Stmt::Print(e) => {
                self.push(Frame::Print);
                self.push(Frame::Eval(e));
                Action::Continue
            },
            Stmt::Expr(e) => {
                self.push(Frame::Discard);
                self.push(Frame::Eval(e));
                Action::Continue
            },
            Stmt::Return(Some(e)) => {
                self.push(Frame::Unwinding(Jump::Return));
                self.push(Frame::Eval(e));
                Action::Continue
            },
            Stmt::Return(None) => {
                self.push_value(Value::Void);
                self.push(Frame::Unwinding(Jump::Return));
                Action::Continue
            },
            Stmt::Break => {
                self.push(Frame::Unwinding(Jump::Break));
                Action::Continue
            },
            Stmt::Continue => {
                self.push(Frame::Unwinding(Jump::Continue));
                Action::Continue
            },
        }
    }

    fn run_applied(&mut self, applied: Applied) -> (a: Action)
        ensures
            (final(self)@, a@) == applied_step(old(self)@, applied@),
    {
        match applied {
            Applied::Value(v) => {
                self.push_value(v);
                Action::Continue
            },
            Applied::Outside(r) => {
                self.push(Frame::Await);
                Action::Compute(r)
            },
            Applied::Error(e) => self.fail(e),
        }
    }

    fn run_declare(&mut self, is_mutable: bool, declared_type: Type, name: String, v: Value) -> (a: Action)
        ensures
            (final(self)@, a@) == declare_step(old(self)@, is_mutable, declared_type, name@, v@),
    {
        match declared_type.try_check_and_convert(&v) {
            Check::Accept => match self.env.try_define(name, Variable::new(v, is_mutable, declared_type)) {
                Ok(()) => Action::Continue,
                Err(err) => self.fail(err),
            },
            Check::Widen(n) => self.compute_then(
                Frame::Declare { is_mutable, declared_type, name },
                Request::IntToFloat(n),
            ),
            Check::FloatIntoInt => self.fail(RuntimeError::FloatIntoInt(name)),
            Check::Mismatch => self.fail(RuntimeError::TypeMismatch(declared_type, name)),
        }
    }

    fn run_assign(&mut self, name: String, v: Value) -> (a: Action)
        ensures
            (final(self)@, a@) == assign_step(old(self)@, name@, v@),
    {
        match self.env.try_assign(name.clone(), v) {
            Ok(Assigned::Stored) => Action::Continue,
            Ok(Assigned::NeedsWidening(n)) => self.compute_then(Frame::Assign(name), Request::IntToFloat(n)),
            Err(err) => self.fail(err),
        }
    }

    fn run_for_start(&mut self, var: String, inclusive: bool, has_step: bool, body: Vec<Stmt>) -> (a: Action)
        ensures
            (final(self)@, a@) == for_start_step(old(self)@, var@, inclusive, has_step, stmts_view(body@)),
    {
        let n: usize = if has_step { 3 } else { 2 };
        if self.values.len() < n {
            return self.fail(RuntimeError::Protocol);
        }
        let ghost vs = self@.values;
        let step = if has_step { self.pop_value() } else { Value::Int(1) };
        let end = self.pop_value();
        let start = self.pop_value();
        assert(self@ == drop_values(old(self)@, n as int)) by {
            assert(self@.values =~= old(self)@.values.take(vs.len() - n));
        }
        match (start, end, step) {
            (Value::Int(s), Value::Int(e), Value::Int(st)) => {
                if st == 0 {
                    return self.fail(RuntimeError::ZeroStep);
                }
                self.env.push_scope();
                match self.env.try_define(var.clone(), Variable::new(Value::Int(s), true, Type::Int)) {
                    Ok(()) => {
                        self.push(
                            Frame::ForLoop(ForState { var, counter: s, end: e, step: st, inclusive, body }),
                        );
                        Action::Continue
                    },
                    Err(err) => self.fail(err),
                }
            },
            _ => self.fail(RuntimeError::Protocol),
        }
    }

    fn run_for_loop(&mut self, st: ForState) -> (a: Action)
        ensures
            (final(self)@, a@) == for_loop_step(old(self)@, st@),
    {
        if should_continue(st.counter, st.end, st.step, st.inclusive) {
            match self.env.try_assign(st.var.clone(), Value::Int(st.counter)) {
                Ok(Assigned::Stored) => {
                    let body = duplicate_stmts(&st.body);
                    self.push(Frame::ForNext(st));
                    self.push(Frame::Exec(Stmt::Block(body)));
                    Action::Continue
                },
                Ok(Assigned::NeedsWidening(_)) => self.fail(RuntimeError::Protocol),
                Err(err) => self.fail(err),
            }
        } else {
            self.env.pop_scope();
            Action::Continue
        }
    }

    fn run_call(&mut self, name: String, function: Value, argc: usize) -> (a: Action)
        ensures
            (final(self)@, a@) == call_step(old(self)@, name@, function@, argc),
    {
        if self.values.len() < argc {
            return self.fail(RuntimeError::Protocol);
        }
        let ghost vs = self@.values;
        let ghost base = drop_values(old(self)@, argc as int);
        let ghost args = vs.skip(vs.len() - argc);
        let mut popped: Vec<Value> = Vec::new();
        assert(self@ == drop_values(old(self)@, 0)) by {
            assert(self@.values =~= vs.take(vs.len() - 0));
        }
        while popped.len() < argc
            invariant
                popped@.len() <= argc,
                argc <= vs.len(),
                vs == old(self)@.values,
                self@ == drop_values(old(self)@, popped@.len() as int),
                self.values@.len() == vs.len() - popped@.len(),
                values_view(popped@) == vs.skip(vs.len() - argc).reverse().take(popped@.len() as int),
            decreases argc - popped.len(),
        {
            let ghost k: int = popped@.len() as int;
            let v = self.pop_value();
            proof {
                assert(v@ == vs[vs.len() - 1 - k]);
            }
            popped.push(v);
            assert(values_view(popped@) =~= vs.skip(vs.len() - argc).reverse().take(k + 1));
            assert(self@ == drop_values(old(self)@, k + 1)) by {
                assert(self@.values =~= vs.take(vs.len() - (k + 1)));
            }
        }
        assert(values_view(popped@) =~= args.reverse());
        match function {
            Value::Function { parameters, return_type, body } => {
                if parameters.len() != argc {
                    return self.fail(
                        RuntimeError::WrongArgumentCount { name, expected: parameters.len(), got: argc },
                    );
                }
                self.env.push_frame();
                self.push(Frame::Body(return_type));
                self.push(Frame::Exec(Stmt::Block(body)));
                self.push_bindings(parameters);
                let ghost before = self@;
                let mut i: usize = 0;
                while i < popped.len()
                    invariant
                        i <= popped@.len(),
                        self@ == (MachineV {
                            values: before.values + values_view(popped@).take(i as int),
                            ..before
                        }),
                    decreases popped.len() - i,
                {
                    let v = popped[i].duplicate();
                    self.push_value(v);
                    assert(values_view(popped@).take(i + 1) == values_view(popped@).take(
                        i as int,
                    ).push(v@));
                    i = i + 1;
                }
                assert(values_view(popped@).take(popped@.len() as int) == values_view(popped@));
                Action::Continue
            },
            _ => self.fail(RuntimeError::NotAFunction(name)),
        }
    }

    fn run_returning(&mut self, t: Type, v: Value) -> (a: Action)
        ensures
            (final(self)@, a@) == returning_step(old(self)@, t, v@),
    {
        match t.try_check_and_convert(&v) {
            Check::Accept => {
                self.push_value(v);
                Action::Continue
            },
            Check::Widen(n) => self.compute_then(Frame::Returning(t), Request::IntToFloat(n)),
            Check::FloatIntoInt => self.fail(RuntimeError::FloatIntoInt(String::from_str("return"))),
            Check::Mismatch => self.fail(RuntimeError::TypeMismatch(t, String::from_str("return"))),
        }
    }

    fn run_unwind(&mut self, j: Jump) -> (a: Action)
        ensures
            (final(self)@, a@) == unwind_step(old(self)@, j),
    {
        if self.frames.len() == 0 {
            return match j {
                Jump::Return => if self.values.len() == 0 {
                    self.fail(RuntimeError::Protocol)
                } else {
                    let v = self.pop_value();
                    Action::Finished(Flow::Return(v))
                },
                Jump::Break => Action::Finished(Flow::Break),
                Jump::Continue => Action::Finished(Flow::Continue),
            };
        }
        let below = self.frames.pop().unwrap();
        assert(frames_view(self.frames@) =~= frames_view(old(self).frames@).drop_last());
        match below {
            Frame::Scope | Frame::ForLoop(_) => {
                self.env.pop_scope();
                self.push(Frame::Unwinding(j));
                Action::Continue
            },
            Frame::Loop { condition, body } => match j {
                Jump::Break => Action::Continue,
                Jump::Continue => {
                    self.push(Frame::Loop { condition, body });
                    assert(frames_view(self.frames@) =~= frames_view(old(self).frames@));
                    Action::Continue
                },
                Jump::Return => {
                    self.push(Frame::Unwinding(j));
                    Action::Continue
                },
            },
            Frame::ForNext(st) => match st.counter.checked_add(st.step) {
                None => self.fail(RuntimeError::Overflow(Arith::Add)),
                Some(c) => match j {
                    Jump::Break => {
                        self.env.pop_scope();
                        Action::Continue
                    },
                    Jump::Continue => {
                        self.push(Frame::ForLoop(ForState { counter: c, ..st }));
                        Action::Continue
                    },
                    Jump::Return => {
                        self.env.pop_scope();
                        self.push(Frame::Unwinding(j));
                        Action::Continue
                    },
                },
            },
            Frame::Body(t) => match j {
                Jump::Return => {
                    self.env.pop_frame();
                    self.push(Frame::Returning(t));
                    Action::Continue
                },
                _ => self.fail(RuntimeError::FlowOutsideLoop),
            },
            _ => {
                self.push(Frame::Unwinding(j));
                Action::Continue
            },
        }
    }
}

impl Machine {
    /// Performs one step that does not fail: the top frame's piece of work.
    /// `reply` is the result of the computation that the previous step
    /// asked for, if it asked for one.
    pub fn step(&mut self, reply: Option<Value>) -> (a: Action)
        requires
            !(next(old(self)@, opt_value_view(reply)).1 is Failed),
        ensures
            (final(self)@, a@) == next(old(self)@, opt_value_view(reply)),
    {
        self.try_step(reply)
    }

    /// Performs one step: the top frame's piece of work, or the error that
    /// stops it. `reply` is the result of the computation that the previous
    /// step asked for, if it asked for one. After a failure the machine
    /// holds no work.
    #[verifier::spinoff_prover]
    pub fn try_step(&mut self, reply: Option<Value>) -> (a: Action)
        ensures
            (final(self)@, a@) == next(old(self)@, opt_value_view(reply)),
    {
        if self.frames.len() == 0 {
            if self.expression {
                if self.values.len() == 0 {
                    return self.fail(RuntimeError::Protocol);
                }
                let v = self.values[self.values.len() - 1].duplicate();
                return Action::Produced(v);
            } else {
                return Action::Finished(Flow::Normal);
            }
        }
        let f = self.frames.pop().unwrap();
        assert(frames_view(self.frames@) =~= frames_view(old(self).frames@).drop_last());
        let n = self.values.len();
        match f {
            Frame::Await => match reply {
                Some(v) => {
                    self.push_value(v);
                    Action::Continue
                },
                None => self.fail(RuntimeError::Protocol),
            },
            Frame::Eval(e) => self.run_eval(e),
            Frame::Exec(s) => self.run_exec(s),
            Frame::Binary(op) => {
                if n < 2 {
                    return self.fail(RuntimeError::Protocol);
                }
                let ghost m1 = self@;
                let r = self.pop_value();
                let l = self.pop_value();
                assert(self@ == drop_values(m1, 2)) by {
                    assert(self@.values =~= m1.values.take(m1.values.len() - 2));
                }
                let applied = apply_binary(op, l, r);
                self.run_applied(applied)
            },
            Frame::Unary(op) => {
                if n < 1 {
                    return self.fail(RuntimeError::Protocol);
                }
                let v = self.pop_value();
                let applied = apply_unary(op, v);
                self.run_applied(applied)
            },
            Frame::Declare { is_mutable, declared_type, name } => {
                if n < 1 {
                    return self.fail(RuntimeError::Protocol);
                }
                let v = self.pop_value();
                self.run_declare(is_mutable, declared_type, name, v)
            },
            Frame::Assign(name) => {
                if n < 1 {
                    return self.fail(RuntimeError::Protocol);
                }
                let v = self.pop_value();
                self.run_assign(name, v)
            },
            Frame::Print => {
                if n < 1 {
                    return self.fail(RuntimeError::Protocol);
                }
                let v = self.pop_value();
                Action::Print(v)
            },
            Frame::Discard => {
                if n < 1 {
                    return self.fail(RuntimeError::Protocol);
                }
                let _ = self.pop_value();
                Action::Continue
            },
            Frame::Branch { then_branch, else_branch } => {
                if n < 1 {
                    return self.fail(RuntimeError::Protocol);
                }
                let v = self.pop_value();
                match v {
                    Value::Bool(true) => {
                        self.push(Frame::Exec(Stmt::Block(then_branch)));
                        Action::Continue
                    },
                    Value::Bool(false) => match else_branch {
                        Some(b) => {
                            self.push(Frame::Exec(*b));
                            Action::Continue
                        },
                        None => Action::Continue,
                    },
                    _ => self.fail(RuntimeError::ExpectedBoolCondition),
                }
            },
            Frame::Loop { condition, body } => {
                let test = condition.duplicate();
                self.push(Frame::LoopTest { condition, body });
                self.push(Frame::Eval(test));
                Action::Continue
            },
            Frame::LoopTest { condition, body } => {
                if n < 1 {
                    return self.fail(RuntimeError::Protocol);
                }
                let v = self.pop_value();
                match v {
                    Value::Bool(true) => {
                        let block = duplicate_stmts(&body);
                        self.push(Frame::Loop { condition, body });
                        self.push(Frame::Exec(Stmt::Block(block)));
                        Action::Continue
                    },
                    Value::Bool(false) => Action::Continue,
                    _ => self.fail(RuntimeError::ExpectedBoolCondition),
                }
            },
            Frame::CheckBound(b) => {
                if n < 1 {
                    return self.fail(RuntimeError::Protocol);
                }
                if matches!(self.values[n - 1], Value::Int(_)) {
                    Action::Continue
                } else {
                    self.fail(RuntimeError::LoopBoundNotInt(b))
                }
            },
            Frame::ForStart { var, inclusive, has_step, body } => self.run_for_start(
                var,
                inclusive,
                has_step,
                body,
            ),
            Frame::ForLoop(st) => self.run_for_loop(st),
            Frame::ForNext(st) => match st.counter.checked_add(st.step) {
                Some(c) => {
                    self.push(Frame::ForLoop(ForState { counter: c, ..st }));
                    Action::Continue
                },
                None => self.fail(RuntimeError::Overflow(Arith::Add)),
            },
            Frame::Scope => {
                self.env.pop_scope();
                Action::Continue
            },
            Frame::Call { name, function, argc } => self.run_call(name, function, argc),
            Frame::Body(t) => {
                self.env.pop_frame();
                self.push_value(Value::Void);
                self.push(Frame::Returning(t));
                Action::Continue
            },
            Frame::Returning(t) => {
                if n < 1 {
                    return self.fail(RuntimeError::Protocol);
                }
                let v = self.pop_value();
                self.run_returning(t, v)
            },
            Frame::Unwinding(j) => self.run_unwind(j),
        }
    }
}

pub proof fn lemma_stmts_view_len(s: Seq<Stmt>)
    ensures
        stmts_view(s).len() == s.len(),
    decreases s.len(),
{
    if s.len() > 0 {
        lemma_stmts_view_len(s.drop_last());
    }
}

pub proof fn lemma_exprs_view_len(s: Seq<Expr>)
    ensures
        exprs_view(s).len() == s.len(),
    decreases s.len(),
{
    if s.len() > 0 {
        lemma_exprs_view_len(s.drop_last());
    }
}

/// How many scopes of the environment a frame holds open: a block's scope,
/// a `for` loop's scope (where its variable lives) and a function's frame.
pub open spec fn scopes_held(f: FrameV) -> int {
    match f {
        FrameV::Scope => 1,
        FrameV::ForLoop(_) => 1,
        FrameV::ForNext(_) => 1,
        FrameV::Body(_) => 1,
        _ => 0,
    }
}

/// How many scopes of the environment the frames hold open.
pub open spec fn open_scopes(fs: Seq<FrameV>) -> int
    decreases fs.len(),
{
    if fs.len() == 0 {
        0
    } else {
        open_scopes(fs.drop_last()) + scopes_held(fs.last())
    }
}

proof fn lemma_open_scopes_nonneg(fs: Seq<FrameV>)
    ensures
        open_scopes(fs) >= 0,
    decreases fs.len(),
{
    if fs.len() > 0 {
        lemma_open_scopes_nonneg(fs.drop_last());
    }
}

/// A pushed frame adds the scopes it holds.
pub broadcast proof fn lemma_open_scopes_push(fs: Seq<FrameV>, f: FrameV)
    ensures
        #[trigger] open_scopes(fs.push(f)) == open_scopes(fs) + scopes_held(f),
{
    assert(fs.push(f).drop_last() == fs);
}

/// Appending frames that hold no scope adds none.
proof fn lemma_open_scopes_append(fs: Seq<FrameV>, t: Seq<FrameV>)
    requires
        forall|i: int| 0 <= i < t.len() ==> scopes_held(#[trigger] t[i]) == 0,
    ensures
        open_scopes(fs + t) == open_scopes(fs),
    decreases t.len(),
{
    if t.len() > 0 {
        assert((fs + t).drop_last() == fs + t.drop_last());
        lemma_open_scopes_append(fs, t.drop_last());
    }
}

/// The number of scopes in the environment beyond those the frames hold open.
pub open spec fn scope_base(m: MachineV) -> int {
    m.env.scopes.len() - open_scopes(m.frames)
}

/// Whether a step, unless it fails, keeps the scope base.
pub open spec fn keeps_scope_base(m: MachineV, reply: Option<ValueV>) -> bool {
    !(next(m, reply).1 is Failed) ==> scope_base(next(m, reply).0) == scope_base(m)
}

proof fn lemma_eval_keeps_scope_base(m: MachineV, reply: Option<ValueV>)
    requires
        scope_base(m) >= 0,
        m.frames.len() > 0,
        m.frames.last() is Eval,
    ensures
        keeps_scope_base(m, reply),
{
    broadcast use lemma_open_scopes_push;

    let fs = m.frames.drop_last();
    lemma_open_scopes_nonneg(fs);
    assert(m.frames == fs.push(m.frames.last()));
    if let FrameV::Eval(ExprV::Call { name, arguments }) = m.frames.last() {
        let t = eval_frames(arguments);
        let g = FrameV::Call { name, function: m.env.functions[name], argc: arguments.len() as usize };
        assert(forall|i: int| 0 <= i < t.len() ==> scopes_held(#[trigger] t[i]) == 0);
        lemma_open_scopes_append(fs.push(g), t);
    }
}

proof fn lemma_exec_keeps_scope_base(m: MachineV, reply: Option<ValueV>)
    requires
        scope_base(m) >= 0,
        m.frames.len() > 0,
        m.frames.last() is Exec,
    ensures
        keeps_scope_base(m, reply),
{
    broadcast use lemma_open_scopes_push;

    let fs = m.frames.drop_last();
    lemma_open_scopes_nonneg(fs);
    assert(m.frames == fs.push(m.frames.last()));
    if let FrameV::Exec(StmtV::Block(stmts)) = m.frames.last() {
        let t = exec_frames(stmts);
        assert(forall|i: int| 0 <= i < t.len() ==> scopes_held(#[trigger] t[i]) == 0);
        lemma_open_scopes_append(fs.push(FrameV::Scope), t);
    }
}

proof fn lemma_unwind_keeps_scope_base(m: MachineV, reply: Option<ValueV>)
    requires
        scope_base(m) >= 0,
        m.frames.len() > 0,
        m.frames.last() is Unwinding,
    ensures
        keeps_scope_base(m, reply),
{
    broadcast use lemma_open_scopes_push;

    let fs = m.frames.drop_last();
    lemma_open_scopes_nonneg(fs);
    assert(m.frames == fs.push(m.frames.last()));
    if fs.len() > 0 {
        let gs = fs.drop_last();
        lemma_open_scopes_nonneg(gs);
        assert(fs == gs.push(fs.last()));
    }
}

proof fn lemma_other_frames_keep_scope_base(m: MachineV, reply: Option<ValueV>)
    requires
        scope_base(m) >= 0,
        m.frames.len() > 0,
        !(m.frames.last() is Eval),
        !(m.frames.last() is Exec),
        !(m.frames.last() is Unwinding),
    ensures
        keeps_scope_base(m, reply),
{
    broadcast use lemma_open_scopes_push;

    let fs = m.frames.drop_last();
    lemma_open_scopes_nonneg(fs);
    assert(m.frames == fs.push(m.frames.last()));
    let n = m.values.len();
    match m.frames.last() {
        FrameV::Call { name, function, argc } => {
            if let ValueV::Function { parameters, return_type, body } = function {
                let t = bind_frames(parameters);
                assert(forall|i: int| 0 <= i < t.len() ==> scopes_held(#[trigger] t[i]) == 0);
                lemma_open_scopes_append(
                    fs.push(FrameV::Body(return_type)).push(FrameV::Exec(StmtV::Block(body))),
                    t,
                );
            }
        },
        FrameV::Assign(name) => {
            if n >= 1 {
                lemma_updates_keep_scope_count(m.env, name, m.values[n - 1], arbitrary());
            }
        },
        FrameV::ForLoop(st) => {
            lemma_updates_keep_scope_count(m.env, st.var, ValueV::Int(st.counter), arbitrary());
        },
        FrameV::Declare { is_mutable, declared_type, name } => {
            if n >= 1 {
                lemma_updates_keep_scope_count(
                    m.env,
                    name,
                    ValueV::Void,
                    VariableV { value: m.values[n - 1], is_mutable, declared_type },
                );
            }
        },
        _ => {},
    }
}

/// Every step that does not fail keeps the number of scopes that the
/// environment has beyond those its pending work holds open. So a block, a
/// loop or a call leaves the environment with as many scopes as it found,
/// and a statement that runs to its end leaves as many as it started with.
pub proof fn lemma_step_keeps_scope_base(m: MachineV, reply: Option<ValueV>)
    requires
        scope_base(m) >= 0,
    ensures
        !(next(m, reply).1 is Failed) ==> scope_base(next(m, reply).0) == scope_base(m),
{
    if m.frames.len() > 0 {
        match m.frames.last() {
            FrameV::Eval(_) => lemma_eval_keeps_scope_base(m, reply),
            FrameV::Exec(_) => lemma_exec_keeps_scope_base(m, reply),
            FrameV::Unwinding(_) => lemma_unwind_keeps_scope_base(m, reply),
            _ => lemma_other_frames_keep_scope_base(m, reply),
        }
    }
}

/// Every step keeps every variable holding a value of its declared type:
/// declarations, arguments and assignments check the value against the
/// variable's type before storing it, whatever the computations replied.
pub proof fn lemma_step_keeps_well_typed(m: MachineV, reply: Option<ValueV>)
    requires
        well_typed(m.env),
    ensures
        well_typed(next(m, reply).0.env),
{
    lemma_updates_keep_well_typed(m.env, Seq::empty(), ValueV::Void, arbitrary());
    if m.frames.len() > 0 {
        let vs = m.values;
        let n = vs.len();
        match m.frames.last() {
            FrameV::Declare { is_mutable, declared_type, name } => {
                if n >= 1 {
                    lemma_updates_keep_well_typed(
                        m.env,
                        name,
                        ValueV::Void,
                        VariableV { value: vs[n - 1], is_mutable, declared_type },
                    );
                }
            },
            FrameV::Assign(name) => {
                if n >= 1 {
                    lemma_updates_keep_well_typed(m.env, name, vs[n - 1], arbitrary());
                }
            },
            FrameV::ForStart { var, inclusive, has_step, body } => {
                let k: int = if has_step { 3 } else { 2 };
                if n >= k {
                    if let ValueV::Int(start) = vs[n - k] {
                        lemma_updates_keep_well_typed(
                            with_scope(m.env),
                            var,
                            ValueV::Void,
                            VariableV { value: ValueV::Int(start), is_mutable: true, declared_type: Type::Int },
                        );
                    }
                }
            },
            FrameV::ForLoop(st) => {
                lemma_updates_keep_well_typed(m.env, st.var, ValueV::Int(st.counter), arbitrary());
            },
            _ => {},
        }
    }
}

/// An expression without calls.
pub open spec fn call_free(e: ExprV) -> bool
    decreases e,
{
    match e {
        ExprV::Call { .. } => false,
        ExprV::Binary(_, l, r) => call_free(*l) && call_free(*r),
        ExprV::Unary(_, x) => call_free(*x),
        _ => true,
    }
}

/// A frame of the evaluation of an expression without calls.
pub open spec fn reads_only(f: FrameV) -> bool {
    match f {
        FrameV::Eval(e) => call_free(e),
        FrameV::Binary(_) => true,
        FrameV::Unary(_) => true,
        FrameV::Await => true,
        _ => false,
    }
}

/// Expressions read the environment and do not change it: while a machine
/// has only the evaluation of call-free expressions to do, no step changes
/// its environment, and what is left to do stays of that kind.
pub proof fn lemma_expression_reads_only(m: MachineV, reply: Option<ValueV>)
    requires
        forall|i: int| 0 <= i < m.frames.len() ==> reads_only(#[trigger] m.frames[i]),
    ensures
        next(m, reply).0.env == m.env,
        forall|i: int|
            0 <= i < next(m, reply).0.frames.len() ==> reads_only(#[trigger] next(m, reply).0.frames[i]),
{
    if m.frames.len() > 0 {
        let f = m.frames.last();
        assert(reads_only(m.frames[m.frames.len() - 1]));
        let m2 = next(m, reply).0;
        assert forall|i: int| 0 <= i < m2.frames.len() implies reads_only(#[trigger] m2.frames[i]) by {
            if i < m.frames.len() - 1 {
                assert(m2.frames[i] == m.frames[i]);
            }
        }
    }
}

/// The machine after one step for each reply, in order.
pub open spec fn run_steps(m: MachineV, replies: Seq<Option<ValueV>>) -> MachineV
    decreases replies.len(),
{
    if replies.len() == 0 {
        m
    } else {
        run_steps(next(m, replies[0]).0, replies.drop_first())
    }
}

/// Whether no step of that run fails.
pub open spec fn none_failed(m: MachineV, replies: Seq<Option<ValueV>>) -> bool
    decreases replies.len(),
{
    replies.len() == 0 || (!(next(m, replies[0]).1 is Failed) && none_failed(
        next(m, replies[0]).0,
        replies.drop_first(),
    ))
}

/// A machine that starts executing `s` in the environment `env`.
pub open spec fn statement_machine(env: EnvV, s: StmtV) -> MachineV {
    MachineV { env, frames: seq![FrameV::Exec(s)], values: Seq::empty(), expression: false }
}

/// A machine that starts evaluating `e` in the environment `env`.
pub open spec fn expression_machine(env: EnvV, e: ExprV) -> MachineV {
    MachineV { env, frames: seq![FrameV::Eval(e)], values: Seq::empty(), expression: true }
}

proof fn lemma_run_keeps_scope_base(m: MachineV, replies: Seq<Option<ValueV>>)
    requires
        scope_base(m) >= 0,
        none_failed(m, replies),
    ensures
        scope_base(run_steps(m, replies)) == scope_base(m),
    decreases replies.len(),
{
    if replies.len() > 0 {
        lemma_step_keeps_scope_base(m, replies[0]);
        lemma_run_keeps_scope_base(next(m, replies[0]).0, replies.drop_first());
    }
}

/// A statement that runs to its end, every step succeeding, leaves the
/// environment with as many scopes as it found: the blocks, loops and calls
/// inside it push and pop scopes in pairs.
pub proof fn lemma_statement_leaves_scopes(env: EnvV, s: StmtV, replies: Seq<Option<ValueV>>)
    requires
        none_failed(statement_machine(env, s), replies),
        run_steps(statement_machine(env, s), replies).frames.len() == 0,
    ensures
        run_steps(statement_machine(env, s), replies).env.scopes.len() == env.scopes.len(),
{
    let m = statement_machine(env, s);
    assert(open_scopes(Seq::<FrameV>::empty()) == 0);
    assert(m.frames.drop_last() =~= Seq::<FrameV>::empty());
    assert(open_scopes(m.frames) == 0);
    lemma_run_keeps_scope_base(m, replies);
}

/// However a run goes, failing or not and whatever the computations reply,
/// every variable keeps holding a value of its declared type.
pub proof fn lemma_run_keeps_well_typed(m: MachineV, replies: Seq<Option<ValueV>>)
    requires
        well_typed(m.env),
    ensures
        well_typed(run_steps(m, replies).env),
    decreases replies.len(),
{
    if replies.len() > 0 {
        lemma_step_keeps_well_typed(m, replies[0]);
        lemma_run_keeps_well_typed(next(m, replies[0]).0, replies.drop_first());
    }
}

proof fn lemma_run_reads_only(m: MachineV, replies: Seq<Option<ValueV>>)
    requires
        forall|i: int| 0 <= i < m.frames.len() ==> reads_only(#[trigger] m.frames[i]),
    ensures
        run_steps(m, replies).env == m.env,
    decreases replies.len(),
{
    if replies.len() > 0 {
        lemma_expression_reads_only(m, replies[0]);
        lemma_run_reads_only(next(m, replies[0]).0, replies.drop_first());
    }
}

/// Evaluating an expression without calls reads the environment and never
/// changes it, however many steps it takes and whatever the computations
/// reply.
pub proof fn lemma_expression_leaves_environment(env: EnvV, e: ExprV, replies: Seq<Option<ValueV>>)
    requires
        call_free(e),
    ensures
        run_steps(expression_machine(env, e), replies).env == env,
{
    let m = expression_machine(env, e);
    assert(reads_only(m.frames[0]));
    lemma_run_reads_only(m, replies);
}

/// The names that a statement declares in the scope it runs in: a
/// declaration its own, an `if` those of the statement that stands as its
/// `else` branch. Blocks, loops and calls declare in scopes of their own.
pub open spec fn top_declarations(s: StmtV) -> Set<Seq<char>>
    decreases s,
{
    match s {
        StmtV::Declaration { name, .. } => set![name],
        StmtV::If { else_branch, .. } => match else_branch {
            Some(b) => top_declarations(*b),
            None => Set::empty(),
        },
        _ => Set::empty(),
    }
}

/// A frame that, run in the scope a statement started in, declares only
/// names of `d` there.
pub open spec fn declares_within(f: FrameV, d: Set<Seq<char>>) -> bool {
    match f {
        FrameV::Declare { name, .. } => d.contains(name),
        FrameV::Exec(st) => top_declarations(st).subset_of(d),
        FrameV::Branch { else_branch, .. } => match else_branch {
            Some(b) => top_declarations(*b).subset_of(d),
            None => true,
        },
        _ => true,
    }
}

/// Every frame that runs in the scope the statement started in (no frame
/// below it holds a scope) declares only names of `d` there.
pub open spec fn outer_declarations_within(fs: Seq<FrameV>, d: Set<Seq<char>>) -> bool
    decreases fs.len(),
{
    if fs.len() == 0 {
        true
    } else {
        outer_declarations_within(fs.drop_last(), d) && (open_scopes(fs.drop_last()) == 0
            ==> declares_within(fs.last(), d))
    }
}

pub broadcast proof fn lemma_outer_declarations_push(fs: Seq<FrameV>, f: FrameV, d: Set<Seq<char>>)
    ensures
        #[trigger] outer_declarations_within(fs.push(f), d) == (outer_declarations_within(fs, d) && (
        open_scopes(fs) == 0 ==> declares_within(f, d))),
{
    assert(fs.push(f).drop_last() == fs);
}

proof fn lemma_open_scopes_grow(fs: Seq<FrameV>, t: Seq<FrameV>)
    ensures
        open_scopes(fs + t) >= open_scopes(fs),
    decreases t.len(),
{
    if t.len() > 0 {
        assert((fs + t).drop_last() == fs + t.drop_last());
        lemma_open_scopes_grow(fs, t.drop_last());
        lemma_open_scopes_nonneg(fs);
    } else {
        assert(fs + t == fs);
    }
}

/// Frames above one that holds a scope run in an inner scope.
proof fn lemma_outer_declarations_above_scope(fs: Seq<FrameV>, t: Seq<FrameV>, d: Set<Seq<char>>)
    requires
        open_scopes(fs) > 0,
        outer_declarations_within(fs, d),
    ensures
        outer_declarations_within(fs + t, d),
    decreases t.len(),
{
    if t.len() > 0 {
        assert((fs + t).drop_last() == fs + t.drop_last());
        lemma_outer_declarations_above_scope(fs, t.drop_last(), d);
        lemma_open_scopes_grow(fs, t.drop_last());
    } else {
        assert(fs + t == fs);
    }
}

/// Frames that declare nothing can be pushed anywhere.
proof fn lemma_outer_declarations_append(fs: Seq<FrameV>, t: Seq<FrameV>, d: Set<Seq<char>>)
    requires
        outer_declarations_within(fs, d),
        forall|i: int| 0 <= i < t.len() ==> declares_within(#[trigger] t[i], d),
    ensures
        outer_declarations_within(fs + t, d),
    decreases t.len(),
{
    if t.len() > 0 {
        assert((fs + t).drop_last() == fs + t.drop_last());
        assert(t.last() == t[t.len() - 1]);
        lemma_outer_declarations_append(fs, t.drop_last(), d);
    } else {
        assert(fs + t == fs);
    }
}

/// What holds while a statement that started in `e0` and declares the
/// names `d` runs: no scope below those it opened was left, its frames
/// declare in that scope only names of `d`, and the scopes it found keep
/// their bindings.
pub open spec fn statement_invariant(e0: EnvV, d: Set<Seq<char>>, m: MachineV) -> bool {
    &&& scope_base(m) == e0.scopes.len()
    &&& outer_declarations_within(m.frames, d)
    &&& keeps_scopes(e0, m.env, d)
}

/// Whether a step, unless it fails, keeps the statement invariant.
pub open spec fn keeps_statement_invariant(
    e0: EnvV,
    d: Set<Seq<char>>,
    m: MachineV,
    reply: Option<ValueV>,
) -> bool {
    !(next(m, reply).1 is Failed) ==> statement_invariant(e0, d, next(m, reply).0)
}

proof fn lemma_eval_keeps_statement_invariant(e0: EnvV, d: Set<Seq<char>>, m: MachineV, reply: Option<ValueV>)
    requires
        statement_invariant(e0, d, m),
        m.frames.len() > 0,
        m.frames.last() is Eval,
    ensures
        keeps_statement_invariant(e0, d, m, reply),
{
    broadcast use lemma_open_scopes_push, lemma_outer_declarations_push;

    lemma_step_keeps_scope_base(m, reply);
    let fs = m.frames.drop_last();
    assert(m.frames == fs.push(m.frames.last()));
    if let FrameV::Eval(ExprV::Call { name, arguments }) = m.frames.last() {
        let t = eval_frames(arguments);
        let g = FrameV::Call { name, function: m.env.functions[name], argc: arguments.len() as usize };
        assert(forall|i: int| 0 <= i < t.len() ==> declares_within(#[trigger] t[i], d));
        lemma_outer_declarations_append(fs.push(g), t, d);
    }
}

proof fn lemma_exec_keeps_statement_invariant(e0: EnvV, d: Set<Seq<char>>, m: MachineV, reply: Option<ValueV>)
    requires
        statement_invariant(e0, d, m),
        m.frames.len() > 0,
        m.frames.last() is Exec,
    ensures
        keeps_statement_invariant(e0, d, m, reply),
{
    broadcast use lemma_open_scopes_push, lemma_outer_declarations_push;

    lemma_step_keeps_scope_base(m, reply);
    let fs = m.frames.drop_last();
    assert(m.frames == fs.push(m.frames.last()));
    lemma_open_scopes_nonneg(fs);
    lemma_operations_keep_scopes(e0, m.env, d, Seq::empty(), ValueV::Void, arbitrary());
    if let FrameV::Exec(st) = m.frames.last() {
        match st {
            StmtV::Block(stmts) => {
                lemma_outer_declarations_above_scope(fs.push(FrameV::Scope), exec_frames(stmts), d);
            },
            StmtV::Declaration { name, .. } => {
                assert(top_declarations(st).contains(name));
            },
            _ => {},
        }
    }
}

proof fn lemma_unwind_keeps_statement_invariant(
    e0: EnvV,
    d: Set<Seq<char>>,
    m: MachineV,
    reply: Option<ValueV>,
)
    requires
        statement_invariant(e0, d, m),
        m.frames.len() > 0,
        m.frames.last() is Unwinding,
    ensures
        keeps_statement_invariant(e0, d, m, reply),
{
    broadcast use lemma_open_scopes_push, lemma_outer_declarations_push;

    lemma_step_keeps_scope_base(m, reply);
    let fs = m.frames.drop_last();
    assert(m.frames == fs.push(m.frames.last()));
    lemma_open_scopes_nonneg(fs);
    if fs.len() > 0 {
        let gs = fs.drop_last();
        lemma_open_scopes_nonneg(gs);
        assert(fs == gs.push(fs.last()));
        lemma_operations_keep_scopes(e0, m.env, d, Seq::empty(), ValueV::Void, arbitrary());
    }
}

proof fn lemma_other_frames_keep_statement_invariant(
    e0: EnvV,
    d: Set<Seq<char>>,
    m: MachineV,
    reply: Option<ValueV>,
)
    requires
        statement_invariant(e0, d, m),
        m.frames.len() > 0,
        !(m.frames.last() is Eval),
        !(m.frames.last() is Exec),
        !(m.frames.last() is Unwinding),
    ensures
        keeps_statement_invariant(e0, d, m, reply),
{
    broadcast use lemma_open_scopes_push, lemma_outer_declarations_push;

    lemma_step_keeps_scope_base(m, reply);
    let fs = m.frames.drop_last();
    assert(m.frames == fs.push(m.frames.last()));
    lemma_open_scopes_nonneg(fs);
    let n = m.values.len();
    lemma_operations_keep_scopes(e0, m.env, d, Seq::empty(), ValueV::Void, arbitrary());
    match m.frames.last() {
        FrameV::Call { name, function, argc } => {
            if let ValueV::Function { parameters, return_type, body } = function {
                let fs2 = fs.push(FrameV::Body(return_type)).push(FrameV::Exec(StmtV::Block(body)));
                lemma_open_scopes_nonneg(fs.push(FrameV::Body(return_type)));
                lemma_outer_declarations_above_scope(fs2, bind_frames(parameters), d);
            }
        },
        FrameV::Assign(name) => {
            if n >= 1 {
                lemma_operations_keep_scopes(e0, m.env, d, name, m.values[n - 1], arbitrary());
            }
        },
        FrameV::Declare { is_mutable, declared_type, name } => {
            if n >= 1 {
                lemma_operations_keep_scopes(
                    e0,
                    m.env,
                    d,
                    name,
                    ValueV::Void,
                    VariableV { value: m.values[n - 1], is_mutable, declared_type },
                );
            }
        },
        FrameV::ForStart { var, inclusive, has_step, body } => {
            let k: int = if has_step { 3 } else { 2 };
            lemma_operations_keep_scopes(e0, with_scope(m.env), d, Seq::empty(), ValueV::Void, arbitrary());
            if n >= k {
                if let ValueV::Int(start) = m.values[n - k] {
                    lemma_operations_keep_scopes(
                        e0,
                        with_scope(m.env),
                        d,
                        var,
                        ValueV::Void,
                        VariableV { value: ValueV::Int(start), is_mutable: true, declared_type: Type::Int },
                    );
                }
            }
        },
        FrameV::ForLoop(st) => {
            lemma_operations_keep_scopes(e0, m.env, d, st.var, ValueV::Int(st.counter), arbitrary());
        },
        _ => {},
    }
}

/// Every step that does not fail keeps the statement invariant.
pub proof fn lemma_step_keeps_statement_invariant(
    e0: EnvV,
    d: Set<Seq<char>>,
    m: MachineV,
    reply: Option<ValueV>,
)
    requires
        statement_invariant(e0, d, m),
    ensures
        !(next(m, reply).1 is Failed) ==> statement_invariant(e0, d, next(m, reply).0),
{
    if m.frames.len() > 0 {
        match m.frames.last() {
            FrameV::Eval(_) => lemma_eval_keeps_statement_invariant(e0, d, m, reply),
            FrameV::Exec(_) => lemma_exec_keeps_statement_invariant(e0, d, m, reply),
            FrameV::Unwinding(_) => lemma_unwind_keeps_statement_invariant(e0, d, m, reply),
            _ => lemma_other_frames_keep_statement_invariant(e0, d, m, reply),
        }
    } else {
        lemma_step_keeps_scope_base(m, reply);
    }
}

proof fn lemma_run_keeps_statement_invariant(
    e0: EnvV,
    d: Set<Seq<char>>,
    m: MachineV,
    replies: Seq<Option<ValueV>>,
)
    requires
        statement_invariant(e0, d, m),
        none_failed(m, replies),
    ensures
        statement_invariant(e0, d, run_steps(m, replies)),
    decreases replies.len(),
{
    if replies.len() > 0 {
        lemma_step_keeps_statement_invariant(e0, d, m, replies[0]);
        lemma_run_keeps_statement_invariant(e0, d, next(m, replies[0]).0, replies.drop_first());
    }
}

/// A statement that runs to its end, every step succeeding, keeps the
/// scopes it found: as many of them, each binding the same names with the
/// same mutability and declared types, and each constant with the same
/// value. Only the statement's own declarations add names, to the innermost
/// scope; values of mutable variables and the functions may change.
pub proof fn lemma_statement_keeps_bindings(env: EnvV, s: StmtV, replies: Seq<Option<ValueV>>)
    requires
        none_failed(statement_machine(env, s), replies),
        run_steps(statement_machine(env, s), replies).frames.len() == 0,
    ensures
        run_steps(statement_machine(env, s), replies).env.scopes.len() == env.scopes.len(),
        forall|i: int|
            0 <= i < env.scopes.len() ==> keeps_bindings(
                env.scopes[i],
                #[trigger] run_steps(statement_machine(env, s), replies).env.scopes[i],
                may_gain(env, i, top_declarations(s)),
            ),
{
    broadcast use lemma_open_scopes_push, lemma_outer_declarations_push;

    let m = statement_machine(env, s);
    let d = top_declarations(s);
    assert(open_scopes(Seq::<FrameV>::empty()) == 0);
    assert(outer_declarations_within(Seq::<FrameV>::empty(), d));
    assert(m.frames == Seq::<FrameV>::empty().push(FrameV::Exec(s)));
    assert(keeps_scopes(env, env, d));
    lemma_run_keeps_statement_invariant(env, d, m, replies);
    lemma_statement_leaves_scopes(env, s, replies);
}

} // verus!
