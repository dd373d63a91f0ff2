//! Laws of evaluation stated in terms of mathematics: what the operators
//! compute on ints and booleans, how a float is negated, when a `for` loop
//! runs its body, and how a call binds its arguments.

use vstd::prelude::*;
use crate::ast::{BinOp, UnaryOp, ExprV, StmtV};
use crate::value::{ValueV, ParamV};
use crate::environment::{
    EnvV, VariableV, lookup, with_scope, assign_spec, lemma_assign_then_lookup, lemma_define_then_lookup,
};
use crate::value::check_spec;
use crate::evaluator::bind_frames;
use crate::evaluator::{
    Arith, AppliedV, RuntimeErrorV, ActionV, FrameV, MachineV, ForStateV, FlowV, Jump, binary_spec,
    unary_spec, next, run_steps, expression_machine,
};

verus! {

/// Integer `+`, `-` and `*` give the sum, the difference (left minus right)
/// and the product of their operands when it fits in an `i64`, and an
/// overflow error when it does not.
pub proof fn lemma_int_sum_difference_product(a: i64, b: i64)
    ensures
        i64::MIN <= a + b <= i64::MAX ==> binary_spec(BinOp::Add, ValueV::Int(a), ValueV::Int(b))
            == AppliedV::Value(ValueV::Int((a + b) as i64)),
        !(i64::MIN <= a + b <= i64::MAX) ==> binary_spec(BinOp::Add, ValueV::Int(a), ValueV::Int(b))
            == AppliedV::Error(RuntimeErrorV::Overflow(Arith::Add)),
        i64::MIN <= a - b <= i64::MAX ==> binary_spec(BinOp::Subtract, ValueV::Int(a), ValueV::Int(b))
            == AppliedV::Value(ValueV::Int((a - b) as i64)),
        !(i64::MIN <= a - b <= i64::MAX) ==> binary_spec(
            BinOp::Subtract,
            ValueV::Int(a),
            ValueV::Int(b),
        ) == AppliedV::Error(RuntimeErrorV::Overflow(Arith::Subtract)),
        i64::MIN <= a * b <= i64::MAX ==> binary_spec(BinOp::Multiply, ValueV::Int(a), ValueV::Int(b))
            == AppliedV::Value(ValueV::Int((a * b) as i64)),
        !(i64::MIN <= a * b <= i64::MAX) ==> binary_spec(
            BinOp::Multiply,
            ValueV::Int(a),
            ValueV::Int(b),
        ) == AppliedV::Error(RuntimeErrorV::Overflow(Arith::Multiply)),
{
}

/// Comparisons of two ints that binary64 holds exactly (magnitude at most
/// 2^53) are the order and equality of the integers.
pub proof fn lemma_small_int_comparisons(a: i64, b: i64)
    requires
        -0x20_0000_0000_0000 <= a <= 0x20_0000_0000_0000,
        -0x20_0000_0000_0000 <= b <= 0x20_0000_0000_0000,
    ensures
        binary_spec(BinOp::Less, ValueV::Int(a), ValueV::Int(b)) == AppliedV::Value(ValueV::Bool(a < b)),
        binary_spec(BinOp::Greater, ValueV::Int(a), ValueV::Int(b)) == AppliedV::Value(ValueV::Bool(a > b)),
        binary_spec(BinOp::LessEqual, ValueV::Int(a), ValueV::Int(b)) == AppliedV::Value(
            ValueV::Bool(a <= b),
        ),
        binary_spec(BinOp::GreaterEqual, ValueV::Int(a), ValueV::Int(b)) == AppliedV::Value(
            ValueV::Bool(a >= b),
        ),
        binary_spec(BinOp::EqualEqual, ValueV::Int(a), ValueV::Int(b)) == AppliedV::Value(
            ValueV::Bool(a == b),
        ),
        binary_spec(BinOp::NotEqual, ValueV::Int(a), ValueV::Int(b)) == AppliedV::Value(
            ValueV::Bool(a != b),
        ),
{
}

/// `==` and `!=` on two booleans are their equality and inequality.
pub proof fn lemma_bool_equality(a: bool, b: bool)
    ensures
        binary_spec(BinOp::EqualEqual, ValueV::Bool(a), ValueV::Bool(b)) == AppliedV::Value(
            ValueV::Bool(a == b),
        ),
        binary_spec(BinOp::NotEqual, ValueV::Bool(a), ValueV::Bool(b)) == AppliedV::Value(
            ValueV::Bool(a != b),
        ),
{
}

/// `-` on an int is its negation (an overflow error for `i64::MIN`, whose
/// negation does not fit), and `!` on a boolean is its negation.
pub proof fn lemma_int_and_bool_negation(n: i64, b: bool)
    ensures
        n != i64::MIN ==> unary_spec(UnaryOp::Negate, ValueV::Int(n)) == AppliedV::Value(
            ValueV::Int(-n as i64),
        ),
        n == i64::MIN ==> unary_spec(UnaryOp::Negate, ValueV::Int(n)) == AppliedV::Error(
            RuntimeErrorV::Overflow(Arith::Negate),
        ),
        unary_spec(UnaryOp::Not, ValueV::Bool(b)) == AppliedV::Value(ValueV::Bool(!b)),
{
}

/// `-` on a float flips its sign and keeps its magnitude: the result's sign
/// bit is the opposite of the operand's, its other bits are the operand's,
/// and negating twice gives the operand back. So a negative float negates
/// to a positive one.
pub proof fn lemma_float_negation(x: u64)
    ensures
        unary_spec(UnaryOp::Negate, ValueV::Float(x)) matches AppliedV::Value(ValueV::Float(y)) && {
            &&& y & 0x7fff_ffff_ffff_ffffu64 == x & 0x7fff_ffff_ffff_ffffu64
            &&& (y >> 63u64) != (x >> 63u64)
            &&& unary_spec(UnaryOp::Negate, ValueV::Float(y)) == AppliedV::Value(ValueV::Float(x))
        },
{
    let y = x ^ 0x8000_0000_0000_0000u64;
    assert(y & 0x7fff_ffff_ffff_ffffu64 == x & 0x7fff_ffff_ffff_ffffu64) by (bit_vector)
        requires
            y == x ^ 0x8000_0000_0000_0000u64,
    ;
    assert((y >> 63u64) != (x >> 63u64)) by (bit_vector)
        requires
            y == x ^ 0x8000_0000_0000_0000u64,
    ;
    assert(y ^ 0x8000_0000_0000_0000u64 == x) by (bit_vector)
        requires
            y == x ^ 0x8000_0000_0000_0000u64,
    ;
}

/// The size of an integer, whatever its sign.
pub open spec fn magnitude(x: int) -> int {
    if x < 0 {
        -x
    } else {
        x
    }
}

/// Euclid's split of a natural number by a positive one, with the bound of
/// the quotient.
proof fn lemma_split(x: int, d: int)
    requires
        x >= 0,
        d > 0,
    ensures
        x == d * (x / d) + x % d,
        0 <= x % d < d,
        0 <= x / d <= x,
        x / d == x ==> x == 0 || d == 1,
{
    vstd::arithmetic::div_mod::lemma_fundamental_div_mod(x, d);
    vstd::arithmetic::div_mod::lemma_mod_pos_bound(x, d);
    vstd::arithmetic::div_mod::lemma_div_pos_is_pos(x, d);
    let q = x / d;
    let r = x % d;
    assert(q <= x && (q == x ==> x == 0 || d == 1)) by (nonlinear_arith)
        requires
            x == d * q + r,
            0 <= r,
            d >= 1,
            q >= 0,
    ;
}

/// Integer `/` and `%` agree, and divide as Rust's operators do: the
/// quotient times the divisor plus the remainder is the dividend, the
/// remainder is smaller than the divisor in size, and it is zero or has the
/// dividend's sign (the quotient is rounded towards zero).
pub proof fn lemma_int_division(a: i64, b: i64)
    requires
        b != 0,
        !(a == i64::MIN && b == -1),
    ensures
        binary_spec(BinOp::Divide, ValueV::Int(a), ValueV::Int(b)) matches AppliedV::Value(ValueV::Int(q))
            && binary_spec(BinOp::Modulo, ValueV::Int(a), ValueV::Int(b)) matches AppliedV::Value(
            ValueV::Int(r),
        ) && {
            &&& a == q * b + r
            &&& magnitude(r as int) < magnitude(b as int)
            &&& (r == 0 || (r < 0) == (a < 0))
        },
{
    let x = a as int;
    let d = b as int;
    if x == 0 {
    } else if x > 0 && d > 0 {
        lemma_split(x, d);
        let (q, r) = (x / d, x % d);
        assert(x == q * d + r) by (nonlinear_arith)
            requires
                x == d * q + r,
        ;
    } else if x < 0 && d < 0 {
        lemma_split(-x, -d);
        let (q, rr) = ((-x) / (-d), (-x) % (-d));
        assert(x == q * d + (-rr)) by (nonlinear_arith)
            requires
                -x == (-d) * q + rr,
        ;
    } else if x < 0 {
        lemma_split(-x, d);
        let (qq, rr) = ((-x) / d, (-x) % d);
        assert(x == (-qq) * d + (-rr)) by (nonlinear_arith)
            requires
                -x == d * qq + rr,
        ;
    } else {
        lemma_split(x, -d);
        let (qq, r) = (x / (-d), x % (-d));
        assert(x == (-qq) * d + r) by (nonlinear_arith)
            requires
                x == (-d) * qq + r,
        ;
    }
}

/// Integer `/` and `%` by zero are errors, and so is `i64::MIN` by `-1`,
/// whose quotient does not fit in an `i64`.
pub proof fn lemma_int_division_errors(a: i64)
    ensures
        binary_spec(BinOp::Divide, ValueV::Int(a), ValueV::Int(0)) == AppliedV::Error(
            RuntimeErrorV::DivisionByZero,
        ),
        binary_spec(BinOp::Modulo, ValueV::Int(a), ValueV::Int(0)) == AppliedV::Error(
            RuntimeErrorV::RemainderByZero,
        ),
        binary_spec(BinOp::Divide, ValueV::Int(i64::MIN), ValueV::Int(-1i64)) == AppliedV::Error(
            RuntimeErrorV::Overflow(Arith::Divide),
        ),
        binary_spec(BinOp::Modulo, ValueV::Int(i64::MIN), ValueV::Int(-1i64)) == AppliedV::Error(
            RuntimeErrorV::Overflow(Arith::Remainder),
        ),
{
}

/// Evaluating an operator applied to two int literals takes four steps,
/// left operand first, and produces what the operator gives on the two ints.
pub proof fn lemma_evaluates_binary_of_ints(env: EnvV, op: BinOp, a: i64, b: i64)
    requires
        binary_spec(op, ValueV::Int(a), ValueV::Int(b)) is Value,
    ensures
        ({
            let m = expression_machine(
                env,
                ExprV::Binary(op, Box::new(ExprV::Int(a)), Box::new(ExprV::Int(b))),
            );
            let done = run_steps(m, seq![None, None, None, None]);
            &&& done.env == env
            &&& done.frames.len() == 0
            &&& next(done, None).1 == ActionV::Produced(
                binary_spec(op, ValueV::Int(a), ValueV::Int(b))->Value_0,
            )
        }),
{
    let m = expression_machine(env, ExprV::Binary(op, Box::new(ExprV::Int(a)), Box::new(ExprV::Int(b))));
    let m1 = next(m, None).0;
    assert(m.frames.drop_last() =~= Seq::<FrameV>::empty());
    assert(m1.frames =~= seq![FrameV::Binary(op), FrameV::Eval(ExprV::Int(b)), FrameV::Eval(ExprV::Int(a))]);
    let m2 = next(m1, None).0;
    assert(m1.frames.drop_last() =~= seq![FrameV::Binary(op), FrameV::Eval(ExprV::Int(b))]);
    assert(m2.values =~= seq![ValueV::Int(a)]);
    let m3 = next(m2, None).0;
    assert(m2.frames.drop_last() =~= seq![FrameV::Binary(op)]);
    assert(m3.values =~= seq![ValueV::Int(a), ValueV::Int(b)]);
    let m4 = next(m3, None).0;
    assert(m3.frames.drop_last() =~= Seq::<FrameV>::empty());
    assert(m3.values.take(0) =~= Seq::<ValueV>::empty());
    assert(m4.values =~= seq![binary_spec(op, ValueV::Int(a), ValueV::Int(b))->Value_0]);
    let rs = seq![None::<ValueV>, None, None, None];
    assert(rs.drop_first() =~= seq![None::<ValueV>, None, None]);
    assert(rs.drop_first().drop_first() =~= seq![None::<ValueV>, None]);
    assert(rs.drop_first().drop_first().drop_first() =~= seq![None::<ValueV>]);
    assert(rs.drop_first().drop_first().drop_first().drop_first() =~= Seq::<Option<ValueV>>::empty());
    assert(run_steps(m4, Seq::<Option<ValueV>>::empty()) == m4);
    assert(run_steps(m3, seq![None::<ValueV>]) == m4);
    assert(run_steps(m2, seq![None::<ValueV>, None]) == m4);
    assert(run_steps(m1, seq![None::<ValueV>, None, None]) == m4);
    assert(run_steps(m, rs) == m4);
}

/// Evaluating a prefix operator applied to an int or boolean literal takes
/// two steps and produces what the operator gives on that value.
pub proof fn lemma_evaluates_unary_of_literal(env: EnvV, op: UnaryOp, x: ExprV)
    requires
        x is Int || x is Bool,
        unary_spec(op, if let ExprV::Int(n) = x { ValueV::Int(n) } else { ValueV::Bool(x->Bool_0) }) is Value,
    ensures
        ({
            let v = if let ExprV::Int(n) = x { ValueV::Int(n) } else { ValueV::Bool(x->Bool_0) };
            let m = expression_machine(env, ExprV::Unary(op, Box::new(x)));
            let done = run_steps(m, seq![None, None, None]);
            &&& done.env == env
            &&& done.frames.len() == 0
            &&& next(done, None).1 == ActionV::Produced(unary_spec(op, v)->Value_0)
        }),
{
    let v = if let ExprV::Int(n) = x { ValueV::Int(n) } else { ValueV::Bool(x->Bool_0) };
    let m = expression_machine(env, ExprV::Unary(op, Box::new(x)));
    let m1 = next(m, None).0;
    assert(m.frames.drop_last() =~= Seq::<FrameV>::empty());
    assert(m1.frames =~= seq![FrameV::Unary(op), FrameV::Eval(x)]);
    let m2 = next(m1, None).0;
    assert(m1.frames.drop_last() =~= seq![FrameV::Unary(op)]);
    assert(m2.values =~= seq![v]);
    let m3 = next(m2, None).0;
    assert(m2.frames.drop_last() =~= Seq::<FrameV>::empty());
    assert(m2.values.take(0) =~= Seq::<ValueV>::empty());
    assert(m3.values =~= seq![unary_spec(op, v)->Value_0]);
    let rs = seq![None::<ValueV>, None, None];
    assert(rs.drop_first() =~= seq![None::<ValueV>, None]);
    assert(rs.drop_first().drop_first() =~= seq![None::<ValueV>]);
    assert(rs.drop_first().drop_first().drop_first() =~= Seq::<Option<ValueV>>::empty());
    assert(run_steps(m3, Seq::<Option<ValueV>>::empty()) == m3);
    assert(run_steps(m2, seq![None::<ValueV>]) == m3);
    assert(run_steps(m1, seq![None::<ValueV>, None]) == m3);
    assert(run_steps(m, rs) == m3);
}

/// A `for` loop about to decide on another round runs its body, with its
/// variable set to the counter, exactly when the counter has not passed the
/// end: for a positive step when it is below the end (or at it, for `..=`),
/// for a negative step when it is above the end (or at it). Otherwise the
/// loop ends and nothing else changes but its scope, which is left.
pub proof fn lemma_for_loop_round(m: MachineV, st: ForStateV, reply: Option<ValueV>)
    requires
        m.frames.len() > 0,
        m.frames.last() == FrameV::ForLoop(st),
        assign_spec(m.env, st.var, ValueV::Int(st.counter)) is Done,
    ensures
        ({
            let runs = if st.step > 0 {
                if st.inclusive { st.counter <= st.end } else { st.counter < st.end }
            } else {
                if st.inclusive { st.counter >= st.end } else { st.counter > st.end }
            };
            let m2 = next(m, reply).0;
            &&& next(m, reply).1 == ActionV::Continue
            &&& runs ==> m2.frames == m.frames.drop_last().push(FrameV::ForNext(st)).push(
                FrameV::Exec(StmtV::Block(st.body)),
            ) && lookup(m2.env, st.var) == Some(
                VariableV { value: ValueV::Int(st.counter), ..lookup(m.env, st.var)->Some_0 },
            )
            &&& !runs ==> m2.frames == m.frames.drop_last() && m2.env.scopes == m.env.scopes.drop_last()
        }),
{
    lemma_assign_then_lookup(m.env, st.var, ValueV::Int(st.counter), st.var);
}

/// A `for` loop whose body has run moves its counter on by its step.
pub proof fn lemma_for_loop_advances(m: MachineV, st: ForStateV, reply: Option<ValueV>)
    requires
        m.frames.len() > 0,
        m.frames.last() == FrameV::ForNext(st),
        i64::MIN <= st.counter + st.step <= i64::MAX,
    ensures
        next(m, reply).0.frames == m.frames.drop_last().push(
            FrameV::ForLoop(ForStateV { counter: (st.counter + st.step) as i64, ..st }),
        ),
        next(m, reply).0.env == m.env,
{
}

/// A call of a function whose parameters match the arguments in number
/// enters a scope of its own and lines up, from the top of the stacks down,
/// the binding of the first parameter with the first argument, the second
/// with the second, and so on: the i-th parameter is bound to the value of
/// the i-th argument.
pub proof fn lemma_call_lines_up_arguments(
    m: MachineV,
    reply: Option<ValueV>,
    name: Seq<char>,
    parameters: Seq<ParamV>,
    return_type: crate::value::Type,
    body: Seq<StmtV>,
    argc: usize,
)
    requires
        m.frames.len() > 0,
        m.frames.last() == (FrameV::Call {
            name,
            function: ValueV::Function { parameters, return_type, body },
            argc,
        }),
        parameters.len() == argc,
        m.values.len() >= argc,
    ensures
        ({
            let m2 = next(m, reply).0;
            let n = argc as int;
            &&& m2.env == with_scope(m.env)
            &&& m2.values.len() == m.values.len()
            &&& m2.frames.len() == m.frames.len() + 1 + n
            &&& forall|i: int|
                0 <= i < n ==> m2.frames[m2.frames.len() - 1 - i] == (FrameV::Declare {
                    is_mutable: true,
                    declared_type: parameters[i].param_type,
                    name: parameters[i].name,
                }) && m2.values[m2.values.len() - 1 - i] == m.values[m.values.len() - n + i]
        }),
{
    let m2 = next(m, reply).0;
    let n = argc as int;
    let fs = m.frames.drop_last().push(FrameV::Body(return_type)).push(FrameV::Exec(StmtV::Block(body)));
    let args = m.values.skip(m.values.len() - n);
    let vs = m.values.take(m.values.len() - n);
    assert forall|i: int| 0 <= i < n implies m2.frames[m2.frames.len() - 1 - i] == (FrameV::Declare {
        is_mutable: true,
        declared_type: parameters[i].param_type,
        name: parameters[i].name,
    }) && m2.values[m2.values.len() - 1 - i] == m.values[m.values.len() - n + i] by {
        assert(m2.frames[m2.frames.len() - 1 - i] == crate::evaluator::bind_frames(parameters)[n - 1 - i]);
        assert(m2.values[m2.values.len() - 1 - i] == args.reverse()[n - 1 - i]);
    }
}

/// Steps that each take no reply.
pub open spec fn no_replies(n: nat) -> Seq<Option<ValueV>> {
    Seq::new(n, |i: int| None)
}

/// What binding the parameters `ps` to the values `args` leaves: the work
/// `below` and the values `vals` below them, the other scopes as they were,
/// and an innermost scope that binds each parameter to its value as a
/// mutable variable of its type and keeps what it bound under other names.
pub open spec fn bound_in_order(
    m: MachineV,
    below: Seq<FrameV>,
    vals: Seq<ValueV>,
    ps: Seq<ParamV>,
    args: Seq<ValueV>,
    done: MachineV,
) -> bool {
    &&& done.frames == below
    &&& done.values == vals
    &&& done.env.functions == m.env.functions
    &&& done.env.scopes.drop_last() == m.env.scopes.drop_last()
    &&& done.env.scopes.len() == m.env.scopes.len()
    &&& forall|i: int|
        0 <= i < ps.len() ==> #[trigger] done.env.scopes.last().contains_key(ps[i].name)
            && done.env.scopes.last()[ps[i].name] == (VariableV {
            value: args[i],
            is_mutable: true,
            declared_type: ps[i].param_type,
        })
    &&& forall|x: Seq<char>|
        m.env.scopes.last().contains_key(x) ==> #[trigger] done.env.scopes.last().contains_key(x)
            && done.env.scopes.last()[x] == m.env.scopes.last()[x]
}

/// The parts of [`bound_in_order`], put together.
proof fn lemma_bound_in_order(
    m: MachineV,
    below: Seq<FrameV>,
    vals: Seq<ValueV>,
    ps: Seq<ParamV>,
    args: Seq<ValueV>,
    done: MachineV,
)
    requires
        done.frames == below,
        done.values == vals,
        done.env.functions == m.env.functions,
        done.env.scopes.drop_last() == m.env.scopes.drop_last(),
        done.env.scopes.len() == m.env.scopes.len(),
        forall|i: int|
            0 <= i < ps.len() ==> #[trigger] done.env.scopes.last().contains_key(ps[i].name)
                && done.env.scopes.last()[ps[i].name] == (VariableV {
                value: args[i],
                is_mutable: true,
                declared_type: ps[i].param_type,
            }),
        forall|x: Seq<char>|
            m.env.scopes.last().contains_key(x) ==> #[trigger] done.env.scopes.last().contains_key(x)
                && done.env.scopes.last()[x] == m.env.scopes.last()[x],
    ensures
        bound_in_order(m, below, vals, ps, args, done),
{
}

/// Binding parameters to values that their types accept, the first
/// parameter to the value on top, one step per parameter.
#[verifier::spinoff_prover]
#[verifier::rlimit(40)]
proof fn lemma_bindings_run(
    m: MachineV,
    below: Seq<FrameV>,
    vals: Seq<ValueV>,
    ps: Seq<ParamV>,
    args: Seq<ValueV>,
)
    requires
        m.frames == below + bind_frames(ps),
        m.values == vals + args.reverse(),
        ps.len() == args.len(),
        m.env.scopes.len() > 0,
        forall|i: int| 0 <= i < ps.len() ==> !m.env.scopes.last().contains_key(#[trigger] ps[i].name),
        forall|i: int, j: int| 0 <= i < j < ps.len() ==> ps[i].name != ps[j].name,
        forall|i: int| 0 <= i < ps.len() ==> check_spec(ps[i].param_type, #[trigger] args[i]) is Accept,
    ensures
        bound_in_order(m, below, vals, ps, args, run_steps(m, no_replies(ps.len()))),
    decreases ps.len(),
{
    let n = ps.len();
    if n == 0 {
        assert(bind_frames(ps) =~= Seq::<FrameV>::empty());
        assert(below + bind_frames(ps) =~= below);
        assert(args.reverse() =~= Seq::<ValueV>::empty());
        assert(vals + args.reverse() =~= vals);
        assert(no_replies(0) =~= Seq::<Option<ValueV>>::empty());
        assert(run_steps(m, no_replies(0)) == m);
        assert(bound_in_order(m, below, vals, ps, args, m));
    } else {
        let p0 = ps[0];
        let a0 = args[0];
        let var0 = VariableV { value: a0, is_mutable: true, declared_type: p0.param_type };
        assert(m.frames.last() == bind_frames(ps)[n - 1]);
        assert(m.values.last() == args.reverse()[n - 1]);
        assert(check_spec(ps[0].param_type, args[0]) is Accept);
        assert(!m.env.scopes.last().contains_key(ps[0].name));
        let m1 = next(m, None).0;
        let rest_ps = ps.drop_first();
        let rest_args = args.drop_first();
        assert(m.frames.drop_last() =~= below + bind_frames(rest_ps));
        assert(m.values.take(m.values.len() - 1) =~= vals + rest_args.reverse());
        let k = m.env.scopes.len() - 1;
        let last1 = m.env.scopes.last().insert(p0.name, var0);
        assert(m1.env.scopes == m.env.scopes.update(k, last1));
        assert(m1.env.scopes.last() == last1);
        assert forall|i: int| 0 <= i < rest_ps.len() implies !m1.env.scopes.last().contains_key(
            #[trigger] rest_ps[i].name,
        ) by {
            assert(rest_ps[i] == ps[i + 1]);
            assert(ps[0].name != ps[i + 1].name);
            assert(!m.env.scopes.last().contains_key(ps[i + 1].name));
        }
        assert forall|i: int, j: int| 0 <= i < j < rest_ps.len() implies rest_ps[i].name != rest_ps[j].name by {
            assert(rest_ps[i] == ps[i + 1] && rest_ps[j] == ps[j + 1]);
        }
        assert forall|i: int| 0 <= i < rest_ps.len() implies check_spec(
            rest_ps[i].param_type,
            #[trigger] rest_args[i],
        ) is Accept by {
            assert(rest_ps[i] == ps[i + 1] && rest_args[i] == args[i + 1]);
            assert(check_spec(ps[i + 1].param_type, args[i + 1]) is Accept);
        }
        lemma_bindings_run(m1, below, vals, rest_ps, rest_args);
        let d1 = run_steps(m1, no_replies(rest_ps.len()));
        assert(bound_in_order(m1, below, vals, rest_ps, rest_args, d1));
        assert(no_replies(n).drop_first() =~= no_replies(rest_ps.len()));
        assert(no_replies(n)[0] == None::<ValueV>);
        let done = run_steps(m, no_replies(n));
        assert(done == d1);
        assert(m1.env.scopes.drop_last() =~= m.env.scopes.drop_last());
        assert(last1.contains_key(p0.name));
        assert(d1.env.scopes.last().contains_key(p0.name));
        assert forall|i: int| 0 <= i < ps.len() implies #[trigger] done.env.scopes.last().contains_key(
            ps[i].name,
        ) && done.env.scopes.last()[ps[i].name] == (VariableV {
            value: args[i],
            is_mutable: true,
            declared_type: ps[i].param_type,
        }) by {
            if i > 0 {
                assert(ps[i] == rest_ps[i - 1]);
                assert(args[i] == rest_args[i - 1]);
                assert(d1.env.scopes.last().contains_key(rest_ps[i - 1].name));
            }
        }
        assert forall|x: Seq<char>| m.env.scopes.last().contains_key(x) implies #[trigger] done.env.scopes.last().contains_key(
            x,
        ) && done.env.scopes.last()[x] == m.env.scopes.last()[x] by {
            assert(x != p0.name);
            assert(last1.contains_key(x));
            assert(d1.env.scopes.last().contains_key(x));
        }
        assert(done.frames == below);
        assert(done.values == vals);
        assert(done.env.functions == m.env.functions);
        assert(done.env.scopes.drop_last() == m.env.scopes.drop_last());
        assert(done.env.scopes.len() == m.env.scopes.len());
        lemma_bound_in_order(m, below, vals, ps, args, done);
    }
}

/// Calling a function with as many arguments as it has parameters, with
/// distinct parameter names and arguments of the parameters' types: after
/// the call step and one step per parameter, the callee runs its body in a
/// scope of its own that binds the first parameter to the first argument,
/// the second to the second, and so on, each as a mutable variable of the
/// parameter's type; the scopes of the caller are untouched.
#[verifier::spinoff_prover]
pub proof fn lemma_call_binds_arguments_in_order(
    m: MachineV,
    name: Seq<char>,
    parameters: Seq<ParamV>,
    return_type: crate::value::Type,
    body: Seq<StmtV>,
    argc: usize,
)
    requires
        m.frames.len() > 0,
        m.frames.last() == (FrameV::Call {
            name,
            function: ValueV::Function { parameters, return_type, body },
            argc,
        }),
        parameters.len() == argc,
        m.values.len() >= argc,
        forall|i: int, j: int| 0 <= i < j < argc ==> parameters[i].name != parameters[j].name,
        forall|i: int|
            0 <= i < argc ==> check_spec(
                parameters[i].param_type,
                #[trigger] m.values[m.values.len() - argc + i],
            ) is Accept,
    ensures
        ({
            let done = run_steps(m, no_replies((argc + 1) as nat));
            let n = argc as int;
            &&& done.frames == m.frames.drop_last().push(FrameV::Body(return_type)).push(
                FrameV::Exec(StmtV::Block(body)),
            )
            &&& done.values == m.values.take(m.values.len() - n)
            &&& done.env.scopes.drop_last() == m.env.scopes
            &&& forall|i: int|
                0 <= i < n ==> #[trigger] done.env.scopes.last().contains_key(parameters[i].name)
                    && done.env.scopes.last()[parameters[i].name] == (VariableV {
                    value: m.values[m.values.len() - n + i],
                    is_mutable: true,
                    declared_type: parameters[i].param_type,
                })
        }),
{
    let n = argc as int;
    let m1 = next(m, None).0;
    let args = m.values.skip(m.values.len() - n);
    let vals = m.values.take(m.values.len() - n);
    let below = m.frames.drop_last().push(FrameV::Body(return_type)).push(FrameV::Exec(StmtV::Block(body)));
    assert(m1.frames == below + bind_frames(parameters));
    assert(m1.values == vals + args.reverse());
    assert(m1.env == with_scope(m.env));
    assert(forall|i: int| 0 <= i < n ==> args[i] == m.values[m.values.len() - n + i]);
    assert forall|i: int| 0 <= i < parameters.len() implies check_spec(
        parameters[i].param_type,
        #[trigger] args[i],
    ) is Accept by {
        assert(args[i] == m.values[m.values.len() - n + i]);
    }
    assert(m1.env.scopes.last() == Map::<Seq<char>, VariableV>::empty());
    lemma_bindings_run(m1, below, vals, parameters, args);
    let d1 = run_steps(m1, no_replies(parameters.len()));
    assert(bound_in_order(m1, below, vals, parameters, args, d1));
    let rs = no_replies((argc + 1) as nat);
    assert(rs.drop_first() =~= no_replies(argc as nat));
    assert(rs[0] == None::<ValueV>);
    assert(run_steps(m, rs) == run_steps(m1, no_replies(argc as nat)));
    assert(with_scope(m.env).scopes.drop_last() =~= m.env.scopes);
    let done = run_steps(m, rs);
    assert(done == d1);
    assert(done.frames == below);
    assert(done.values == vals);
    assert(done.env.scopes.drop_last() == m.env.scopes);
    assert forall|i: int| 0 <= i < n implies #[trigger] done.env.scopes.last().contains_key(
        parameters[i].name,
    ) && done.env.scopes.last()[parameters[i].name] == (VariableV {
        value: m.values[m.values.len() - n + i],
        is_mutable: true,
        declared_type: parameters[i].param_type,
    }) by {
        assert(args[i] == m.values[m.values.len() - n + i]);
        assert(d1.env.scopes.last().contains_key(parameters[i].name));
    }
}

/// An `if` decides on its condition's value: `true` runs the first branch
/// as a block, `false` the `else` branch if there is one and nothing
/// otherwise, and anything but a boolean is an error. The condition's value
/// is used up either way.
pub proof fn lemma_if_chooses_branch(
    m: MachineV,
    reply: Option<ValueV>,
    then_branch: Seq<StmtV>,
    else_branch: Option<Box<StmtV>>,
)
    requires
        m.frames.len() > 0,
        m.frames.last() == (FrameV::Branch { then_branch, else_branch }),
        m.values.len() > 0,
    ensures
        ({
            let (m2, a) = next(m, reply);
            let rest = m.frames.drop_last();
            &&& m2.env == m.env
            &&& m.values.last() == ValueV::Bool(true) ==> a == ActionV::Continue && m2.frames == rest.push(
                FrameV::Exec(StmtV::Block(then_branch)),
            ) && m2.values == m.values.drop_last()
            &&& m.values.last() == ValueV::Bool(false) ==> a == ActionV::Continue && m2.values
                == m.values.drop_last() && m2.frames == match else_branch {
                Some(b) => rest.push(FrameV::Exec(*b)),
                None => rest,
            }
            &&& !(m.values.last() is Bool) ==> a == ActionV::Failed(RuntimeErrorV::ExpectedBoolCondition)
        }),
{
    assert(m.values.take(m.values.len() - 1) =~= m.values.drop_last());
}

/// A `while` loop tests its condition before every round: `true` runs the
/// body as a block and then tests again, `false` ends the loop, and
/// anything but a boolean is an error.
pub proof fn lemma_while_tests_condition(
    m: MachineV,
    reply: Option<ValueV>,
    condition: ExprV,
    body: Seq<StmtV>,
)
    requires
        m.frames.len() > 0,
        m.frames.last() == (FrameV::LoopTest { condition, body }),
        m.values.len() > 0,
    ensures
        ({
            let (m2, a) = next(m, reply);
            let rest = m.frames.drop_last();
            &&& m2.env == m.env
            &&& m.values.last() == ValueV::Bool(true) ==> a == ActionV::Continue && m2.frames == rest.push(
                FrameV::Loop { condition, body },
            ).push(FrameV::Exec(StmtV::Block(body))) && m2.values == m.values.drop_last()
            &&& m.values.last() == ValueV::Bool(false) ==> a == ActionV::Continue && m2.frames == rest
                && m2.values == m.values.drop_last()
            &&& !(m.values.last() is Bool) ==> a == ActionV::Failed(RuntimeErrorV::ExpectedBoolCondition)
        }),
{
    assert(m.values.take(m.values.len() - 1) =~= m.values.drop_last());
}

/// A `while` loop about to test its condition evaluates it.
pub proof fn lemma_while_evaluates_condition(
    m: MachineV,
    reply: Option<ValueV>,
    condition: ExprV,
    body: Seq<StmtV>,
)
    requires
        m.frames.len() > 0,
        m.frames.last() == (FrameV::Loop { condition, body }),
    ensures
        next(m, reply) == (MachineV {
            frames: m.frames.drop_last().push(FrameV::LoopTest { condition, body }).push(
                FrameV::Eval(condition),
            ),
            ..m
        }, ActionV::Continue),
{
}

/// `break` ends the innermost `while` loop it reaches, `continue` makes it
/// test its condition again, and `return` passes it by.
pub proof fn lemma_jumps_meet_while_loop(
    m: MachineV,
    reply: Option<ValueV>,
    j: Jump,
    condition: ExprV,
    body: Seq<StmtV>,
)
    requires
        m.frames.len() > 1,
        m.frames.last() == FrameV::Unwinding(j),
        m.frames[m.frames.len() - 2] == (FrameV::Loop { condition, body }),
    ensures
        ({
            let (m2, a) = next(m, reply);
            let rest = m.frames.drop_last().drop_last();
            &&& a == ActionV::Continue
            &&& m2.env == m.env
            &&& m2.values == m.values
            &&& j == Jump::Break ==> m2.frames == rest
            &&& j == Jump::Continue ==> m2.frames == rest.push(FrameV::Loop { condition, body })
            &&& j == Jump::Return ==> m2.frames == rest.push(FrameV::Unwinding(Jump::Return))
        }),
{
    assert(m.frames.drop_last().last() == m.frames[m.frames.len() - 2]);
    assert(m.frames.drop_last().drop_last().push(FrameV::Loop { condition, body }) =~= m.frames.drop_last());
}

/// `break` and `continue` at a `for` loop's body move its counter on by its
/// step; `break` then ends the loop and leaves its scope, `continue` goes on
/// with the next round.
pub proof fn lemma_jumps_meet_for_loop(m: MachineV, reply: Option<ValueV>, j: Jump, st: ForStateV)
    requires
        m.frames.len() > 1,
        m.frames.last() == FrameV::Unwinding(j),
        m.frames[m.frames.len() - 2] == FrameV::ForNext(st),
        i64::MIN <= st.counter + st.step <= i64::MAX,
        j != Jump::Return,
        m.env.scopes.len() > 0,
    ensures
        ({
            let (m2, a) = next(m, reply);
            let rest = m.frames.drop_last().drop_last();
            &&& a == ActionV::Continue
            &&& m2.values == m.values
            &&& j == Jump::Break ==> m2.frames == rest && m2.env.scopes == m.env.scopes.drop_last()
            &&& j == Jump::Continue ==> m2.env == m.env && m2.frames == rest.push(
                FrameV::ForLoop(ForStateV { counter: (st.counter + st.step) as i64, ..st }),
            )
        }),
{
    assert(m.frames.drop_last().last() == m.frames[m.frames.len() - 2]);
}

/// A `return` reaching a function's body ends the call: its scope is left
/// and the returned value, on top, is checked against the return type.
/// At the bottom of the stack a jump ends the statement with its flow.
pub proof fn lemma_return_ends_call(m: MachineV, reply: Option<ValueV>, t: crate::value::Type)
    requires
        m.frames.len() > 1,
        m.frames.last() == FrameV::Unwinding(Jump::Return),
        m.frames[m.frames.len() - 2] == FrameV::Body(t),
        m.env.scopes.len() > 0,
    ensures
        next(m, reply).1 == ActionV::Continue,
        next(m, reply).0.frames == m.frames.drop_last().drop_last().push(FrameV::Returning(t)),
        next(m, reply).0.env.scopes == m.env.scopes.drop_last(),
        next(m, reply).0.values == m.values,
{
    assert(m.frames.drop_last().last() == m.frames[m.frames.len() - 2]);
}

/// A jump with nothing below it ends the statement: `return` with the
/// value on top, `break` and `continue` as themselves.
pub proof fn lemma_jump_ends_statement(m: MachineV, reply: Option<ValueV>, j: Jump)
    requires
        m.frames.len() == 1,
        m.frames.last() == FrameV::Unwinding(j),
        j == Jump::Return ==> m.values.len() > 0,
    ensures
        j == Jump::Return ==> next(m, reply).1 == ActionV::Finished(FlowV::Return(m.values.last())),
        j == Jump::Break ==> next(m, reply).1 == ActionV::Finished(FlowV::Break),
        j == Jump::Continue ==> next(m, reply).1 == ActionV::Finished(FlowV::Continue),
{
    assert(m.frames.drop_last().len() == 0);
}

/// A `for` loop starts from its bounds: a step of 0 is an error, and
/// otherwise the loop gets a scope of its own whose variable starts at the
/// start bound, and counts from there towards the end bound by the step
/// (1 when none is written).
pub proof fn lemma_for_loop_starts(
    m: MachineV,
    reply: Option<ValueV>,
    var: Seq<char>,
    inclusive: bool,
    has_step: bool,
    body: Seq<StmtV>,
    start: i64,
    end: i64,
    step: i64,
)
    requires
        m.frames.len() > 0,
        m.frames.last() == (FrameV::ForStart { var, inclusive, has_step, body }),
        has_step ==> m.values.len() >= 3 && m.values[m.values.len() - 3] == ValueV::Int(start)
            && m.values[m.values.len() - 2] == ValueV::Int(end) && m.values.last() == ValueV::Int(step),
        !has_step ==> m.values.len() >= 2 && m.values[m.values.len() - 2] == ValueV::Int(start)
            && m.values.last() == ValueV::Int(end) && step == 1,
    ensures
        ({
            let (m2, a) = next(m, reply);
            &&& step == 0 ==> a == ActionV::Failed(RuntimeErrorV::ZeroStep)
            &&& step != 0 ==> a == ActionV::Continue && m2.env.scopes.len() == m.env.scopes.len() + 1
                && m2.env.scopes.last().contains_key(var) && m2.env.scopes.last()[var] == (VariableV {
                value: ValueV::Int(start),
                is_mutable: true,
                declared_type: crate::value::Type::Int,
            }) && m2.frames == m.frames.drop_last().push(
                FrameV::ForLoop(ForStateV { var, counter: start, end, step, inclusive, body }),
            )
        }),
{
}

/// Whether `v` is a value of type `t`.
pub open spec fn of_type(t: crate::value::Type, v: ValueV) -> bool {
    match (t, v) {
        (crate::value::Type::Int, ValueV::Int(_)) => true,
        (crate::value::Type::Float, ValueV::Float(_)) => true,
        (crate::value::Type::Bool, ValueV::Bool(_)) => true,
        _ => false,
    }
}

/// A declaration of a name that the innermost scope does not bind yet, with
/// a value of the declared type, binds the name to that value there, with
/// the declared mutability and type; the value is used up.
pub proof fn lemma_declaration_binds(
    m: MachineV,
    reply: Option<ValueV>,
    is_mutable: bool,
    declared_type: crate::value::Type,
    name: Seq<char>,
)
    requires
        m.frames.len() > 0,
        m.frames.last() == (FrameV::Declare { is_mutable, declared_type, name }),
        m.values.len() > 0,
        of_type(declared_type, m.values.last()),
        m.env.scopes.len() > 0,
        !m.env.scopes.last().contains_key(name),
    ensures
        next(m, reply).1 == ActionV::Continue,
        lookup(next(m, reply).0.env, name) == Some(
            VariableV { value: m.values.last(), is_mutable, declared_type },
        ),
        next(m, reply).0.values == m.values.drop_last(),
        next(m, reply).0.frames == m.frames.drop_last(),
{
    let var = VariableV { value: m.values.last(), is_mutable, declared_type };
    lemma_define_then_lookup(m.env, name, var, name);
    assert(m.values.take(m.values.len() - 1) =~= m.values.drop_last());
}

/// Assigning a value of its declared type to a mutable variable stores the
/// value in it, keeping its mutability and type; assigning to a constant is
/// an error and stores nothing.
pub proof fn lemma_assignment_stores(m: MachineV, reply: Option<ValueV>, name: Seq<char>)
    requires
        m.frames.len() > 0,
        m.frames.last() == FrameV::Assign(name),
        m.values.len() > 0,
        lookup(m.env, name) is Some,
    ensures
        ({
            let var = lookup(m.env, name)->Some_0;
            let v = m.values.last();
            &&& var.is_mutable && of_type(var.declared_type, v) ==> next(m, reply).1 == ActionV::Continue
                && lookup(next(m, reply).0.env, name) == Some(VariableV { value: v, ..var })
                && next(m, reply).0.values == m.values.drop_last()
            &&& !var.is_mutable ==> next(m, reply).1 == ActionV::Failed(RuntimeErrorV::ConstAssignment(name))
        }),
{
    if assign_spec(m.env, name, m.values.last()) is Done {
        lemma_assign_then_lookup(m.env, name, m.values.last(), name);
    }
    assert(m.values.take(m.values.len() - 1) =~= m.values.drop_last());
}

/// Reading a variable gives the value of the variable that the innermost
/// scope binding its name holds; an unbound name is an error.
pub proof fn lemma_variable_reads(m: MachineV, reply: Option<ValueV>, name: Seq<char>)
    requires
        m.frames.len() > 0,
        m.frames.last() == FrameV::Eval(ExprV::Variable(name)),
    ensures
        lookup(m.env, name) matches Some(var) ==> next(m, reply).0.values == m.values.push(var.value)
            && next(m, reply).0.env == m.env && next(m, reply).1 == ActionV::Continue,
        lookup(m.env, name) is None ==> next(m, reply).1 == ActionV::Failed(
            RuntimeErrorV::UndefinedVariable(name),
        ),
{
}

/// `print` hands out the value of its expression, on top, to be printed.
pub proof fn lemma_print_hands_out_value(m: MachineV, reply: Option<ValueV>)
    requires
        m.frames.len() > 0,
        m.frames.last() == FrameV::Print,
        m.values.len() > 0,
    ensures
        next(m, reply).1 == ActionV::Print(m.values.last()),
        next(m, reply).0.values == m.values.drop_last(),
        next(m, reply).0.env == m.env,
{
    assert(m.values.take(m.values.len() - 1) =~= m.values.drop_last());
}

/// A returned value of the function's return type is what the call gives;
/// a boolean for a number type, or a number for `bool`, is an error.
pub proof fn lemma_returned_value_checked(m: MachineV, reply: Option<ValueV>, t: crate::value::Type)
    requires
        m.frames.len() > 0,
        m.frames.last() == FrameV::Returning(t),
        m.values.len() > 0,
    ensures
        of_type(t, m.values.last()) ==> next(m, reply).1 == ActionV::Continue && next(m, reply).0.values
            == m.values && next(m, reply).0.frames == m.frames.drop_last(),
        (t == crate::value::Type::Bool) != (m.values.last() is Bool) ==> next(m, reply).1
            == ActionV::Failed(RuntimeErrorV::TypeMismatch(t, "return"@)),
{
    assert(m.values.take(m.values.len() - 1).push(m.values.last()) =~= m.values);
}

} // verus!
