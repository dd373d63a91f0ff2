use kyber::ast::{BinOp, Expr, Stmt, UnaryOp};
use kyber::environment::{Assigned, Environment, Variable};
use kyber::evaluator::{
    apply_binary, apply_unary, should_continue, Action, Applied, Arith, Bound, Flow, Machine, Request,
    RuntimeError,
};
use kyber::lexer::{tokenize, try_tokenize, LexError};
use kyber::parser::{ParseError, Parser};
use kyber::token::Token;
use kyber::value::{Check, Param, Type, Value};

fn as_f64(v: &Value) -> f64 {
    match v {
        Value::Int(n) => *n as f64,
        Value::Float(bits) => f64::from_bits(*bits),
        other => panic!("not a number: {:?}", other),
    }
}

fn compute(r: Request) -> Value {
    match r {
        Request::FloatLiteral(text) => Value::Float(text.parse::<f64>().unwrap().to_bits()),
        Request::IntToFloat(n) => Value::Float((n as f64).to_bits()),
        Request::FloatArith(op, l, r) => {
            let (a, b) = (as_f64(&l), as_f64(&r));
            let x = match op {
                BinOp::Add => a + b,
                BinOp::Subtract => a - b,
                BinOp::Multiply => a * b,
                BinOp::Divide => a / b,
                BinOp::Modulo => a % b,
                _ => unreachable!(),
            };
            Value::Float(x.to_bits())
        }
        Request::Compare(op, l, r) => {
            let (a, b) = (as_f64(&l), as_f64(&r));
            Value::Bool(match op {
                BinOp::Less => a < b,
                BinOp::Greater => a > b,
                BinOp::LessEqual => a <= b,
                BinOp::GreaterEqual => a >= b,
                BinOp::EqualEqual => a == b,
                BinOp::NotEqual => a != b,
                _ => unreachable!(),
            })
        }
    }
}

fn show(v: &Value) -> String {
    match v {
        Value::Int(n) => format!("{}", n),
        Value::Float(bits) => {
            let x = f64::from_bits(*bits);
            if x.fract() == 0.0 {
                format!("{:.1}", x)
            } else {
                format!("{}", x)
            }
        }
        Value::Bool(b) => format!("{}", b),
        other => format!("{:?}", other),
    }
}

/// Runs one statement to its end; the printed lines go to `out`.
fn execute(stmt: Stmt, env: Environment, out: &mut Vec<String>) -> (Environment, Result<Flow, RuntimeError>) {
    let mut m = Machine::for_statement(stmt, env);
    let mut reply = None;
    loop {
        match m.try_step(reply.take()) {
            Action::Continue => {}
            Action::Compute(r) => reply = Some(compute(r)),
            Action::Print(v) => out.push(show(&v)),
            Action::Finished(flow) => return (m.into_environment(), Ok(flow)),
            Action::Produced(_) => unreachable!(),
            Action::Failed(e) => return (m.into_environment(), Err(e)),
        }
    }
}

fn evaluate(expr: Expr, env: Environment) -> Result<Value, RuntimeError> {
    let mut m = Machine::for_expression(expr, env);
    let mut reply = None;
    loop {
        match m.try_step(reply.take()) {
            Action::Continue => {}
            Action::Compute(r) => reply = Some(compute(r)),
            Action::Print(_) => {}
            Action::Finished(_) => unreachable!(),
            Action::Produced(v) => return Ok(v),
            Action::Failed(e) => return Err(e),
        }
    }
}

fn run_statements(program: Vec<Stmt>) -> Result<Vec<String>, RuntimeError> {
    let mut env = Environment::new();
    let mut out = Vec::new();
    for stmt in program {
        let (e, r) = execute(stmt, env, &mut out);
        env = e;
        r?;
    }
    Ok(out)
}

fn run(source: &str) -> Result<Vec<String>, RuntimeError> {
    run_statements(parse(source))
}

fn parse(source: &str) -> Vec<Stmt> {
    let tokens = try_tokenize(source).expect("source lexes");
    Parser::new(tokens).try_parse_program().expect("source parses")
}

fn parse_error(source: &str) -> ParseError {
    Parser::new(try_tokenize(source).expect("source lexes")).try_parse_program().unwrap_err()
}

fn lit(n: i64) -> Box<Expr> {
    Box::new(Expr::Int(n))
}

fn var(name: &str) -> Expr {
    Expr::Variable(name.to_string())
}

// ---- lexer ----

#[test]
fn lexes_a_declaration() {
    assert_eq!(
        tokenize("let int x = 5;"),
        vec![
            Token::Let,
            Token::IntType,
            Token::Identifier("x".to_string()),
            Token::Equals,
            Token::Int(5),
            Token::Semicolon,
            Token::Eof
        ]
    );
}

#[test]
fn lexes_empty_source_as_eof() {
    assert_eq!(tokenize(""), vec![Token::Eof]);
    assert_eq!(tokenize("  \t\r\n "), vec![Token::Eof]);
}

#[test]
fn skips_line_comments() {
    assert_eq!(tokenize("1 // one\n2"), vec![Token::Int(1), Token::Int(2), Token::Eof]);
    assert_eq!(tokenize("// only a comment"), vec![Token::Eof]);
    assert_eq!(tokenize("6 / 3"), vec![Token::Int(6), Token::Slash, Token::Int(3), Token::Eof]);
}

#[test]
fn lexes_ranges_and_floats() {
    assert_eq!(tokenize("1..5"), vec![Token::Int(1), Token::DotDot, Token::Int(5), Token::Eof]);
    assert_eq!(tokenize("1..=5"), vec![Token::Int(1), Token::DotDotEqual, Token::Int(5), Token::Eof]);
    assert_eq!(tokenize("3.14"), vec![Token::Float("3.14".to_string()), Token::Eof]);
    assert_eq!(tokenize("007"), vec![Token::Int(7), Token::Eof]);
}

#[test]
fn lexes_two_character_operators() {
    assert_eq!(
        tokenize("== = != ! <= < >= >"),
        vec![
            Token::EqualEqual,
            Token::Equals,
            Token::NotEqual,
            Token::Not,
            Token::LessEqual,
            Token::Less,
            Token::GreaterEqual,
            Token::Greater,
            Token::Eof
        ]
    );
}

#[test]
fn lexes_keywords_and_names() {
    assert_eq!(
        tokenize("const float bool true false print if else while for in by _a1 letter"),
        vec![
            Token::Const,
            Token::FloatType,
            Token::BoolType,
            Token::True,
            Token::False,
            Token::Print,
            Token::If,
            Token::Else,
            Token::While,
            Token::For,
            Token::In,
            Token::By,
            Token::Identifier("_a1".to_string()),
            Token::Identifier("letter".to_string()),
            Token::Eof
        ]
    );
    assert_eq!(tokenize("aZ"), vec![Token::Identifier("aZ".to_string()), Token::Eof]);
}

#[test]
fn rejects_what_starts_no_token() {
    assert_eq!(try_tokenize("let int x = 5 @ 2;"), Err(LexError::UnexpectedCharacter('@')));
    assert_eq!(try_tokenize("a, b"), Err(LexError::UnexpectedCharacter(',')));
    // The upper-case range that starts a name stops before `Z`.
    assert_eq!(try_tokenize("Zed"), Err(LexError::UnexpectedCharacter('Z')));
    assert_eq!(try_tokenize("Yes"), Ok(vec![Token::Identifier("Yes".to_string()), Token::Eof]));
}

#[test]
fn rejects_malformed_numbers() {
    assert_eq!(try_tokenize("3."), Err(LexError::MalformedNumber));
    assert_eq!(try_tokenize("3.x"), Err(LexError::MalformedNumber));
    assert_eq!(try_tokenize(".5"), Err(LexError::UnexpectedCharacter('.')));
    assert_eq!(try_tokenize("9223372036854775808"), Err(LexError::IntegerOverflow));
    assert_eq!(try_tokenize("9223372036854775807"), Ok(vec![Token::Int(i64::MAX), Token::Eof]));
}

// ---- parser ----

#[test]
fn unary_minus_binds_tighter_than_multiplication() {
    let program = parse("-2 * 3;");
    assert_eq!(
        program,
        vec![Stmt::Expr(Expr::Binary(
            BinOp::Multiply,
            Box::new(Expr::Unary(UnaryOp::Negate, lit(2))),
            lit(3)
        ))]
    );
}

#[test]
fn products_bind_tighter_than_sums() {
    assert_eq!(
        parse("1 + 2 * 3;"),
        vec![Stmt::Expr(Expr::Binary(
            BinOp::Add,
            lit(1),
            Box::new(Expr::Binary(BinOp::Multiply, lit(2), lit(3)))
        ))]
    );
}

#[test]
fn operators_associate_to_the_left() {
    assert_eq!(
        parse("1 - 2 - 3;"),
        vec![Stmt::Expr(Expr::Binary(
            BinOp::Subtract,
            Box::new(Expr::Binary(BinOp::Subtract, lit(1), lit(2))),
            lit(3)
        ))]
    );
}

#[test]
fn parentheses_group() {
    assert_eq!(
        parse("(1 + 2) * 3 < 10;"),
        vec![Stmt::Expr(Expr::Binary(
            BinOp::Less,
            Box::new(Expr::Binary(
                BinOp::Multiply,
                Box::new(Expr::Binary(BinOp::Add, lit(1), lit(2))),
                lit(3)
            )),
            lit(10)
        ))]
    );
}

#[test]
fn compound_assignment_reads_the_variable() {
    // The lexer has no compound operators: `+=` is `+` then `=`.
    assert!(matches!(parse_error("x += 1;"), ParseError::ExpectedAssignmentOperator));
    let tokens = vec![
        Token::Identifier("x".to_string()),
        Token::PlusEqual,
        Token::Int(1),
        Token::Semicolon,
        Token::Eof,
    ];
    assert_eq!(
        Parser::new(tokens).parse_program(),
        vec![Stmt::Assignment {
            name: "x".to_string(),
            value: Expr::Binary(BinOp::Add, Box::new(var("x")), lit(1))
        }]
    );
}

#[test]
fn parses_declarations() {
    assert_eq!(
        parse("const bool b = !true;"),
        vec![Stmt::Declaration {
            is_mutable: false,
            declared_type: Type::Bool,
            name: "b".to_string(),
            value: Expr::Unary(UnaryOp::Not, Box::new(Expr::Bool(true)))
        }]
    );
}

#[test]
fn parses_else_if_chains() {
    let program = parse("if (a) { } else if (b) { print(1); } else { }");
    assert_eq!(
        program,
        vec![Stmt::If {
            condition: var("a"),
            then_branch: vec![],
            else_branch: Some(Box::new(Stmt::If {
                condition: var("b"),
                then_branch: vec![Stmt::Print(Expr::Int(1))],
                else_branch: Some(Box::new(Stmt::Block(vec![])))
            }))
        }]
    );
}

#[test]
fn parses_for_loops() {
    assert_eq!(
        parse("for i in 0..=10 by 2 { }"),
        vec![Stmt::For {
            var: "i".to_string(),
            start: Expr::Int(0),
            inclusive: true,
            end: Expr::Int(10),
            step: Some(Expr::Int(2)),
            body: vec![]
        }]
    );
    assert_eq!(
        parse("for i in 0..n { }"),
        vec![Stmt::For {
            var: "i".to_string(),
            start: Expr::Int(0),
            inclusive: false,
            end: var("n"),
            step: None,
            body: vec![]
        }]
    );
}

#[test]
fn reports_syntax_errors() {
    assert!(matches!(parse_error("let x = 5;"), ParseError::ExpectedType));
    assert!(matches!(parse_error("let int 5 = 5;"), ParseError::ExpectedVariableName));
    assert!(matches!(parse_error("x 5;"), ParseError::ExpectedAssignmentOperator));
    assert!(matches!(parse_error("(1 + 2;"), ParseError::ExpectedClosingParen));
    assert!(matches!(parse_error("for 1 in 0..2 {}"), ParseError::ExpectedLoopVariable));
    assert!(matches!(parse_error("for i in 0 2 {}"), ParseError::ExpectedRange));
    assert!(matches!(parse_error("print(*);"), ParseError::ExpectedOperand(Token::Star)));
    match parse_error("print(1)") {
        ParseError::Expected { expected, found } => {
            assert_eq!(expected, Token::Semicolon);
            assert_eq!(found, Token::Eof);
        }
        other => panic!("unexpected {:?}", other),
    }
    let mut p = Parser::new(vec![Token::Int(1)]);
    assert!(matches!(p.try_parse_program(), Err(ParseError::OutOfTokens)));
}

// ---- operators ----

#[test]
fn integer_arithmetic_truncates_and_checks() {
    let eval = |op, a: i64, b: i64| match apply_binary(op, Value::Int(a), Value::Int(b)) {
        Applied::Value(v) => Ok(v),
        Applied::Error(e) => Err(e),
        Applied::Outside(_) => panic!("int arithmetic stays inside"),
    };
    assert_eq!(eval(BinOp::Divide, -7, 2), Ok(Value::Int(-3)));
    assert_eq!(eval(BinOp::Modulo, -7, 2), Ok(Value::Int(-1)));
    assert_eq!(eval(BinOp::Add, i64::MAX, 1), Err(RuntimeError::Overflow(Arith::Add)));
    assert_eq!(eval(BinOp::Subtract, i64::MIN, 1), Err(RuntimeError::Overflow(Arith::Subtract)));
    assert_eq!(eval(BinOp::Multiply, i64::MAX, 2), Err(RuntimeError::Overflow(Arith::Multiply)));
    assert_eq!(eval(BinOp::Divide, 1, 0), Err(RuntimeError::DivisionByZero));
    assert_eq!(eval(BinOp::Divide, i64::MIN, -1), Err(RuntimeError::Overflow(Arith::Divide)));
    assert_eq!(eval(BinOp::Modulo, 1, 0), Err(RuntimeError::RemainderByZero));
    assert_eq!(eval(BinOp::Modulo, i64::MIN, -1), Err(RuntimeError::Overflow(Arith::Remainder)));
}

#[test]
fn floats_and_large_int_comparisons_go_outside() {
    let one = Value::Float(1.0f64.to_bits());
    assert!(matches!(
        apply_binary(BinOp::Add, Value::Int(1), one),
        Applied::Outside(Request::FloatArith(BinOp::Add, Value::Int(1), _))
    ));
    assert!(matches!(
        apply_binary(BinOp::Less, Value::Int(1), Value::Int(2)),
        Applied::Value(Value::Bool(true))
    ));
    assert!(matches!(
        apply_binary(BinOp::GreaterEqual, Value::Int(-3), Value::Int(2)),
        Applied::Value(Value::Bool(false))
    ));
    assert!(matches!(
        apply_binary(BinOp::NotEqual, Value::Int(9_007_199_254_740_992), Value::Int(7)),
        Applied::Value(Value::Bool(true))
    ));
    assert!(matches!(
        apply_binary(BinOp::EqualEqual, Value::Int(9_007_199_254_740_993), Value::Int(9_007_199_254_740_992)),
        Applied::Outside(Request::Compare(BinOp::EqualEqual, _, _))
    ));
    assert!(matches!(
        apply_binary(BinOp::Less, Value::Int(1), Value::Float(1.0f64.to_bits())),
        Applied::Outside(Request::Compare(BinOp::Less, Value::Int(1), _))
    ));
    assert!(matches!(
        apply_binary(BinOp::EqualEqual, Value::Bool(true), Value::Bool(true)),
        Applied::Value(Value::Bool(true))
    ));
    assert!(matches!(
        apply_binary(BinOp::NotEqual, Value::Bool(true), Value::Bool(true)),
        Applied::Value(Value::Bool(false))
    ));
    assert!(matches!(
        apply_binary(BinOp::EqualEqual, Value::Bool(true), Value::Int(1)),
        Applied::Error(RuntimeError::CompareBoolWithNumber)
    ));
    assert!(matches!(
        apply_binary(BinOp::Add, Value::Bool(true), Value::Int(1)),
        Applied::Error(RuntimeError::ExpectedNumber)
    ));
    assert!(matches!(
        apply_binary(BinOp::Less, Value::Int(1), Value::Void),
        Applied::Error(RuntimeError::ExpectedNumber)
    ));
}

#[test]
fn prefix_operators() {
    assert!(matches!(apply_unary(UnaryOp::Negate, Value::Int(5)), Applied::Value(Value::Int(-5))));
    assert!(matches!(
        apply_unary(UnaryOp::Negate, Value::Int(i64::MIN)),
        Applied::Error(RuntimeError::Overflow(Arith::Negate))
    ));
    match apply_unary(UnaryOp::Negate, Value::Float(2.5f64.to_bits())) {
        Applied::Value(Value::Float(bits)) => assert_eq!(f64::from_bits(bits), -2.5),
        _ => panic!("negation of a float"),
    }
    assert!(matches!(apply_unary(UnaryOp::Not, Value::Bool(false)), Applied::Value(Value::Bool(true))));
    assert!(matches!(
        apply_unary(UnaryOp::Not, Value::Int(1)),
        Applied::Error(RuntimeError::InvalidOperand)
    ));
}

#[test]
fn for_loops_continue_towards_their_end() {
    assert!(should_continue(0, 3, 1, false));
    assert!(!should_continue(3, 3, 1, false));
    assert!(should_continue(3, 3, 1, true));
    assert!(should_continue(3, 0, -1, false));
    assert!(!should_continue(0, 0, -1, false));
    assert!(should_continue(0, 0, -1, true));
}

#[test]
fn type_checks_widen_ints_only() {
    assert_eq!(Type::Int.try_check_and_convert(&Value::Int(1)), Check::Accept);
    assert_eq!(Type::Float.try_check_and_convert(&Value::Int(7)), Check::Widen(7));
    assert_eq!(Type::Int.try_check_and_convert(&Value::Float(0)), Check::FloatIntoInt);
    assert_eq!(Type::Bool.try_check_and_convert(&Value::Int(1)), Check::Mismatch);
    assert_eq!(Type::Float.try_check_and_convert(&Value::Float(0)), Check::Accept);
}

// ---- environment ----

#[test]
fn environment_scopes() {
    let mut env = Environment::new();
    assert_eq!(env.try_define("x".to_string(), Variable::new(Value::Int(1), true, Type::Int)), Ok(()));
    assert_eq!(
        env.try_define("x".to_string(), Variable::new(Value::Int(2), true, Type::Int)),
        Err(RuntimeError::AlreadyDeclared("x".to_string()))
    );
    env.push_scope();
    assert_eq!(env.try_define("x".to_string(), Variable::new(Value::Bool(true), false, Type::Bool)), Ok(()));
    assert_eq!(env.try_get("x"), Ok(Value::Bool(true)));
    assert_eq!(
        env.try_assign("x".to_string(), Value::Bool(false)),
        Err(RuntimeError::ConstAssignment("x".to_string()))
    );
    env.pop_scope();
    assert_eq!(env.try_get("x"), Ok(Value::Int(1)));
    assert_eq!(env.try_assign("x".to_string(), Value::Int(9)), Ok(Assigned::Stored));
    assert_eq!(env.try_get("x"), Ok(Value::Int(9)));
    assert_eq!(env.try_get("y"), Err(RuntimeError::UndefinedVariable("y".to_string())));
    assert_eq!(
        env.try_assign("y".to_string(), Value::Int(1)),
        Err(RuntimeError::UndeclaredAssignment("y".to_string()))
    );
    env.pop_scope();
    assert_eq!(
        env.try_define("z".to_string(), Variable::new(Value::Int(1), true, Type::Int)),
        Err(RuntimeError::NoScope)
    );
}

#[test]
fn environment_assignment_checks_types() {
    let mut env = Environment::new();
    env.try_define("f".to_string(), Variable::new(Value::Float(0), true, Type::Float)).unwrap();
    env.try_define("i".to_string(), Variable::new(Value::Int(0), true, Type::Int)).unwrap();
    assert_eq!(env.try_assign("f".to_string(), Value::Int(3)), Ok(Assigned::NeedsWidening(3)));
    assert_eq!(env.try_get("f"), Ok(Value::Float(0)));
    assert_eq!(
        env.try_assign("i".to_string(), Value::Float(0)),
        Err(RuntimeError::FloatIntoInt("i".to_string()))
    );
    assert_eq!(
        env.try_assign("i".to_string(), Value::Bool(true)),
        Err(RuntimeError::TypeMismatch(Type::Int, "i".to_string()))
    );
}

#[test]
fn environment_functions() {
    let mut env = Environment::new();
    let f = || Value::Function { parameters: vec![], return_type: Type::Int, body: vec![] };
    assert_eq!(env.try_define_function("f".to_string(), f()), Ok(()));
    assert_eq!(
        env.try_define_function("f".to_string(), f()),
        Err(RuntimeError::FunctionAlreadyDeclared("f".to_string()))
    );
    assert_eq!(env.try_get_function("f"), Ok(f()));
    assert_eq!(env.try_get_function("g"), Err(RuntimeError::UndefinedFunction("g".to_string())));
}

// ---- running programs ----

#[test]
fn prints_arithmetic() {
    assert_eq!(run("print(1 + 2 * 3); print(-7 / 2); print(-7 % 2);"), Ok(vec!["7".into(), "-3".into(), "-1".into()]));
}

#[test]
fn floats_print_with_a_point() {
    assert_eq!(
        run("print(1 + 2.5); print(2.0 * 3); let float f = 3; print(f); print(0.1 + 0.2);"),
        Ok(vec!["3.5".into(), "6.0".into(), "3.0".into(), "0.30000000000000004".into()])
    );
}

#[test]
fn while_loops_sum() {
    let src = "let int i = 0; let int sum = 0; while (i < 5) { i = i + 1; sum = sum + i; } print(sum);";
    assert_eq!(run(src), Ok(vec!["15".into()]));
}

#[test]
fn for_loops_count() {
    assert_eq!(run("for i in 0..3 { print(i); }"), Ok(vec!["0".into(), "1".into(), "2".into()]));
    assert_eq!(run("for i in 0..=4 by 2 { print(i); }"), Ok(vec!["0".into(), "2".into(), "4".into()]));
    assert_eq!(run("for i in 3..0 by -1 { print(i); }"), Ok(vec!["3".into(), "2".into(), "1".into()]));
    assert_eq!(run("for i in 0..0 { print(i); }"), Ok(vec![]));
}

#[test]
fn break_and_continue() {
    let program = vec![
        Stmt::Declaration { is_mutable: true, declared_type: Type::Int, name: "i".into(), value: Expr::Int(0) },
        Stmt::While {
            condition: Expr::Bool(true),
            body: vec![
                Stmt::Assignment { name: "i".into(), value: Expr::Binary(BinOp::Add, Box::new(var("i")), lit(1)) },
                Stmt::If {
                    condition: Expr::Binary(BinOp::EqualEqual, Box::new(var("i")), lit(2)),
                    then_branch: vec![Stmt::Continue],
                    else_branch: None,
                },
                Stmt::If {
                    condition: Expr::Binary(BinOp::Greater, Box::new(var("i")), lit(4)),
                    then_branch: vec![Stmt::Break],
                    else_branch: None,
                },
                Stmt::Print(var("i")),
            ],
        },
        Stmt::For {
            var: "k".into(),
            start: Expr::Int(0),
            inclusive: false,
            end: Expr::Int(10),
            step: None,
            body: vec![
                Stmt::If {
                    condition: Expr::Binary(BinOp::EqualEqual, Box::new(var("k")), lit(1)),
                    then_branch: vec![Stmt::Continue],
                    else_branch: None,
                },
                Stmt::If {
                    condition: Expr::Binary(BinOp::EqualEqual, Box::new(var("k")), lit(3)),
                    then_branch: vec![Stmt::Break],
                    else_branch: None,
                },
                Stmt::Print(var("k")),
            ],
        },
        Stmt::Print(var("i")),
    ];
    assert_eq!(
        run_statements(program),
        Ok(vec!["1".into(), "3".into(), "4".into(), "0".into(), "2".into(), "5".into()])
    );
}

#[test]
fn top_level_jumps_end_their_statement() {
    let (_, r) = execute(Stmt::Break, Environment::new(), &mut Vec::new());
    assert_eq!(r, Ok(Flow::Break));
    let (_, r) = execute(Stmt::Block(vec![Stmt::Continue, Stmt::Print(Expr::Int(1))]), Environment::new(), &mut Vec::new());
    assert_eq!(r, Ok(Flow::Continue));
    let (_, r) = execute(Stmt::Return(Some(Expr::Int(4))), Environment::new(), &mut Vec::new());
    assert_eq!(r, Ok(Flow::Return(Value::Int(4))));
    let (_, r) = execute(Stmt::Print(Expr::Int(1)), Environment::new(), &mut Vec::new());
    assert_eq!(r, Ok(Flow::Normal));
}

#[test]
fn blocks_have_their_own_scope() {
    assert_eq!(
        run("let int x = 1; if (true) { let int x = 2; print(x); } print(x);"),
        Ok(vec!["2".into(), "1".into()])
    );
    assert_eq!(run("if (true) { let int y = 2; } print(y);"), Err(RuntimeError::UndefinedVariable("y".into())));
    assert_eq!(run("let int x = 1; if (true) { x = 5; } print(x);"), Ok(vec!["5".into()]));
    // A block on its own is not a statement.
    assert!(matches!(parse_error("{ }"), ParseError::ExpectedOperand(Token::LeftBrace)));
}

#[test]
fn if_else_chains_run_one_branch() {
    let src = "let int x = 5; if (x < 3) { print(1); } else if (x < 6) { print(2); } else { print(3); }";
    assert_eq!(run(src), Ok(vec!["2".into()]));
}

#[test]
fn reports_runtime_errors() {
    assert_eq!(run("const int c = 1; c = 2;"), Err(RuntimeError::ConstAssignment("c".into())));
    assert_eq!(run("let int x = 1.5;"), Err(RuntimeError::FloatIntoInt("x".into())));
    assert_eq!(run("let int x = true;"), Err(RuntimeError::TypeMismatch(Type::Int, "x".into())));
    assert_eq!(run("let int x = 1; let int x = 2;"), Err(RuntimeError::AlreadyDeclared("x".into())));
    assert_eq!(run("y = 2;"), Err(RuntimeError::UndeclaredAssignment("y".into())));
    assert_eq!(run("print(1 / 0);"), Err(RuntimeError::DivisionByZero));
    assert_eq!(run("print(9223372036854775807 + 1);"), Err(RuntimeError::Overflow(Arith::Add)));
    assert_eq!(run("if (1) { }"), Err(RuntimeError::ExpectedBoolCondition));
    assert_eq!(run("while (0) { }"), Err(RuntimeError::ExpectedBoolCondition));
    assert_eq!(run("print(true + 1);"), Err(RuntimeError::ExpectedNumber));
    assert_eq!(run("print(true == 1);"), Err(RuntimeError::CompareBoolWithNumber));
    assert_eq!(run("print(-true);"), Err(RuntimeError::InvalidOperand));
    assert_eq!(run("for i in 0..3 by 0 { }"), Err(RuntimeError::ZeroStep));
    assert_eq!(run("for i in 1.5 + 1..3 { }"), Err(RuntimeError::LoopBoundNotInt(Bound::Start)));
    assert_eq!(run("for i in 0..true { }"), Err(RuntimeError::LoopBoundNotInt(Bound::End)));
    assert_eq!(run("for i in 0..3 by 1.0 { }"), Err(RuntimeError::LoopBoundNotInt(Bound::Step)));
    assert_eq!(
        run("for i in 9223372036854775806..=9223372036854775807 { }"),
        Err(RuntimeError::Overflow(Arith::Add))
    );
}

#[test]
fn bool_equality() {
    assert_eq!(run("print(true == true); print(true != false); print(1 == 1.0);"), Ok(vec!["true".into(), "true".into(), "true".into()]));
}

fn square_function() -> Stmt {
    Stmt::FunctionDef {
        name: "square".into(),
        parameters: vec![Param { name: "n".into(), param_type: Type::Float }],
        return_type: Type::Float,
        body: vec![Stmt::Return(Some(Expr::Binary(BinOp::Multiply, Box::new(var("n")), Box::new(var("n")))))],
    }
}

fn call(name: &str, args: Vec<Expr>) -> Expr {
    Expr::Call { name: name.into(), arguments: args }
}

#[test]
fn functions_take_arguments_and_return() {
    let program = vec![square_function(), Stmt::Print(call("square", vec![Expr::Int(3)]))];
    assert_eq!(run_statements(program), Ok(vec!["9.0".into()]));
}

#[test]
fn function_call_errors() {
    let program = vec![square_function(), Stmt::Print(call("square", vec![]))];
    assert_eq!(
        run_statements(program),
        Err(RuntimeError::WrongArgumentCount { name: "square".into(), expected: 1, got: 0 })
    );
    assert_eq!(
        run_statements(vec![Stmt::Print(call("nothing", vec![]))]),
        Err(RuntimeError::UndefinedFunction("nothing".into()))
    );
    let no_return = Stmt::FunctionDef { name: "f".into(), parameters: vec![], return_type: Type::Int, body: vec![] };
    assert_eq!(
        run_statements(vec![no_return, Stmt::Expr(call("f", vec![]))]),
        Err(RuntimeError::TypeMismatch(Type::Int, "return".into()))
    );
    let breaks = Stmt::FunctionDef { name: "g".into(), parameters: vec![], return_type: Type::Int, body: vec![Stmt::Break] };
    assert_eq!(
        run_statements(vec![breaks, Stmt::Expr(call("g", vec![]))]),
        Err(RuntimeError::FlowOutsideLoop)
    );
    assert_eq!(
        run_statements(vec![square_function(), square_function()]),
        Err(RuntimeError::FunctionAlreadyDeclared("square".into()))
    );
}

#[test]
fn return_leaves_loops_and_scopes() {
    let first_over = Stmt::FunctionDef {
        name: "first_over".into(),
        parameters: vec![Param { name: "limit".into(), param_type: Type::Int }],
        return_type: Type::Int,
        body: vec![Stmt::For {
            var: "i".into(),
            start: Expr::Int(0),
            inclusive: false,
            end: Expr::Int(100),
            step: None,
            body: vec![Stmt::If {
                condition: Expr::Binary(BinOp::Greater, Box::new(Expr::Binary(BinOp::Multiply, Box::new(var("i")), Box::new(var("i")))), Box::new(var("limit"))),
                then_branch: vec![Stmt::Return(Some(var("i")))],
                else_branch: None,
            }],
        }],
    };
    let program = vec![first_over, Stmt::Print(call("first_over", vec![Expr::Int(50)])), Stmt::Print(Expr::Int(0))];
    assert_eq!(run_statements(program), Ok(vec!["8".into(), "0".into()]));
}

#[test]
fn evaluates_expressions() {
    let mut env = Environment::new();
    env.try_define("x".into(), Variable::new(Value::Int(4), true, Type::Int)).unwrap();
    assert_eq!(evaluate(Expr::Binary(BinOp::Multiply, Box::new(var("x")), lit(3)), env), Ok(Value::Int(12)));
    assert_eq!(evaluate(Expr::Bool(false), Environment::new()), Ok(Value::Bool(false)));
    assert_eq!(evaluate(var("nope"), Environment::new()), Err(RuntimeError::UndefinedVariable("nope".into())));
}

#[test]
fn steps_report_each_computation() {
    let mut m = Machine::for_expression(Expr::Float("2.5".into()), Environment::new());
    match m.try_step(None) {
        Action::Compute(Request::FloatLiteral(text)) => assert_eq!(text, "2.5"),
        other => panic!("unexpected {:?}", other),
    }
    assert!(matches!(m.try_step(None), Action::Failed(RuntimeError::Protocol)));
}

#[test]
fn lexed_programs_never_run_out_of_tokens() {
    for source in ["let int x = ", "print(", "if (true) {", "for i in 0..", "x", "(1 + 2", "-", "while (1 <"] {
        let err = parse_error(source);
        assert!(!matches!(err, ParseError::OutOfTokens), "{:?} for {:?}", err, source);
    }
    assert!(matches!(parse_error("if (true) {"), ParseError::ExpectedOperand(Token::Eof)));
    assert!(matches!(parse_error("1 +"), ParseError::ExpectedOperand(Token::Eof)));
}

#[test]
fn variables_keep_values_of_their_declared_type() {
    assert_eq!(run("let float x = 1.5; x = 2; print(x);"), Ok(vec!["2.0".into()]));
    assert_eq!(run("let int n = 1; n = 2.5;"), Err(RuntimeError::FloatIntoInt("n".into())));
    assert_eq!(run("let bool b = true; b = 1;"), Err(RuntimeError::TypeMismatch(Type::Bool, "b".into())));
    assert_eq!(run("for i in 0..2 { i = true; }"), Err(RuntimeError::TypeMismatch(Type::Int, "i".into())));
}

#[test]
fn statements_leave_the_scopes_they_found() {
    let mut out = Vec::new();
    let mut env = Environment::new();
    env.try_define("x".into(), Variable::new(Value::Int(1), true, Type::Int)).unwrap();
    for source in ["if (true) { let int y = 2; if (true) { let int z = 3; } }", "for i in 0..3 { let int k = i; }", "while (x < 4) { x = x + 1; }"] {
        for stmt in parse(source) {
            let (e, r) = execute(stmt, env, &mut out);
            assert!(r.is_ok());
            env = e;
        }
    }
    assert_eq!(env.try_get("x"), Ok(Value::Int(4)));
    assert_eq!(env.try_get("y"), Err(RuntimeError::UndefinedVariable("y".into())));
    assert_eq!(env.try_get("i"), Err(RuntimeError::UndefinedVariable("i".into())));
    assert_eq!(env.try_define("w".into(), Variable::new(Value::Int(0), true, Type::Int)), Ok(()));
}

#[test]
fn small_int_comparisons_are_exact() {
    assert_eq!(run("print(3 < 4); print(4 <= 4); print(5 == 5); print(5 != 5); print(-1 > 0);"),
        Ok(vec!["true".into(), "true".into(), "true".into(), "false".into(), "false".into()]));
    assert_eq!(run("print(9007199254740993 == 9007199254740992);"), Ok(vec!["true".into()]));
}

#[test]
fn a_line_break_only_separates_tokens() {
    for (a, b) in [("let int x = 1;", "print(x);"), ("x // note", "y"), ("3", "4"), ("a <", "= b"), ("", "1.5")] {
        let joined = format!("{}\n{}", a, b);
        let mut expected = tokenize(a);
        expected.pop();
        expected.extend(tokenize(b));
        assert_eq!(tokenize(&joined), expected, "{:?} + {:?}", a, b);
    }
}

#[test]
fn leaving_a_block_forgets_its_definitions() {
    let mut env = Environment::new();
    env.try_define("x".into(), Variable::new(Value::Int(1), false, Type::Int)).unwrap();
    env.push_scope();
    env.try_define("x".into(), Variable::new(Value::Bool(true), true, Type::Bool)).unwrap();
    env.try_define("y".into(), Variable::new(Value::Int(2), true, Type::Int)).unwrap();
    assert_eq!(env.try_get("x"), Ok(Value::Bool(true)));
    env.pop_scope();
    assert_eq!(env.try_get("x"), Ok(Value::Int(1)));
    assert_eq!(env.try_get("y"), Err(RuntimeError::UndefinedVariable("y".into())));
}

#[test]
fn statements_keep_the_bindings_they_found() {
    let mut out = Vec::new();
    let mut env = Environment::new();
    env.try_define("c".into(), Variable::new(Value::Int(7), false, Type::Int)).unwrap();
    env.try_define("v".into(), Variable::new(Value::Int(0), true, Type::Int)).unwrap();
    for source in ["while (v < 3) { let int t = v; v = t + 1; }", "let bool b = true;", "if (v == 3) { let int u = 1; }"] {
        for stmt in parse(source) {
            let (e, r) = execute(stmt, env, &mut out);
            assert!(r.is_ok());
            env = e;
        }
    }
    assert_eq!(env.try_get("c"), Ok(Value::Int(7)));
    assert_eq!(env.try_get("v"), Ok(Value::Int(3)));
    assert_eq!(env.try_get("b"), Ok(Value::Bool(true)));
    assert_eq!(env.try_get("t"), Err(RuntimeError::UndefinedVariable("t".into())));
    assert_eq!(env.try_get("u"), Err(RuntimeError::UndefinedVariable("u".into())));
    assert_eq!(env.try_assign("c".into(), Value::Int(1)), Err(RuntimeError::ConstAssignment("c".into())));
}

#[test]
fn environment_operations_on_inputs_they_accept() {
    let mut env = Environment::new();
    env.define("x".into(), Variable::new(Value::Int(1), true, Type::Int));
    env.define("c".into(), Variable::new(Value::Int(5), false, Type::Int));
    env.define("f".into(), Variable::new(Value::Float(0), true, Type::Float));
    assert_eq!(env.get("x"), Value::Int(1));
    assert_eq!(env.assign("x".into(), Value::Int(4)), Assigned::Stored);
    assert_eq!(env.get("x"), Value::Int(4));
    assert_eq!(env.assign("f".into(), Value::Int(2)), Assigned::NeedsWidening(2));
    env.push_scope();
    env.define("c".into(), Variable::new(Value::Int(0), true, Type::Int));
    assert_eq!(env.assign("c".into(), Value::Int(2)), Assigned::Stored);
    assert_eq!(env.get("c"), Value::Int(2));
    env.pop_scope();
    assert_eq!(env.get("c"), Value::Int(5));
    let g = || Value::Function { parameters: vec![], return_type: Type::Int, body: vec![] };
    env.define_function("g".into(), g());
    assert_eq!(env.get_function("g"), g());
}

#[test]
fn checks_of_values_a_type_takes() {
    assert_eq!(Type::Int.check_and_convert(&Value::Int(1)), Check::Accept);
    assert_eq!(Type::Float.check_and_convert(&Value::Int(7)), Check::Widen(7));
    assert_eq!(Type::Bool.check_and_convert(&Value::Bool(false)), Check::Accept);
}

#[test]
fn parser_methods_on_tokens_they_accept() {
    let mut p = Parser::new(tokenize("let int x = 1; print(x);"));
    assert_eq!(
        p.parse_statement(),
        Stmt::Declaration { is_mutable: true, declared_type: Type::Int, name: "x".into(), value: Expr::Int(1) }
    );
    assert_eq!(p.parse_statement(), Stmt::Print(var("x")));
    assert_eq!(Parser::new(tokenize("(1)")).parse_factor(), Expr::Int(1));
    assert_eq!(Parser::new(tokenize("-2")).parse_factor(), Expr::Unary(UnaryOp::Negate, lit(2)));
    assert_eq!(Parser::new(tokenize("1 - 2 * 3")).parse_expr(), Expr::Binary(BinOp::Subtract, lit(1), Box::new(Expr::Binary(BinOp::Multiply, lit(2), lit(3)))));
    assert_eq!(Parser::new(tokenize("4 % 3")).parse_term(), Expr::Binary(BinOp::Modulo, lit(4), lit(3)));
    assert_eq!(Parser::new(tokenize("1 < 2")).parse_comparison(), Expr::Binary(BinOp::Less, lit(1), lit(2)));
    assert_eq!(Parser::new(tokenize("{ print(1); }")).parse_block(), vec![Stmt::Print(Expr::Int(1))]);
    assert!(matches!(Parser::new(tokenize("let x = 1;")).try_parse_statement(), Err(ParseError::ExpectedType)));
    assert!(matches!(Parser::new(tokenize("x;")).try_parse_statement(), Err(ParseError::ExpectedAssignmentOperator)));
    assert!(matches!(Parser::new(vec![Token::RightParen, Token::Eof]).try_parse_factor(), Err(ParseError::ExpectedOperand(Token::RightParen))));
    assert!(matches!(Parser::new(tokenize("(1")).try_parse_factor(), Err(ParseError::ExpectedClosingParen)));
}

#[test]
fn steps_that_do_not_fail() {
    let mut m = Machine::for_statement(parse("print(1 + 2);").pop().unwrap(), Environment::new());
    let mut printed = Vec::new();
    loop {
        match m.step(None) {
            Action::Continue => {}
            Action::Print(v) => printed.push(v),
            Action::Finished(Flow::Normal) => break,
            other => panic!("unexpected {:?}", other),
        }
    }
    assert_eq!(printed, vec![Value::Int(3)]);
}
