use tinylang::error::{EvalError, LexError, ParseError};
use tinylang::expr::{Expr, Sign, Type};
use tinylang::interpreter::{
    apply_sign, eval_expr, run_code, truthy, Interpreter, Scope, Value, Variable,
};
use tinylang::lexer::{lex, LexerContext, Token};
use tinylang::parser::{all_are_wf, parse, Node, ParserContext};

/// Exit code, output and error of a program.
fn run_with(mut ctx: Interpreter, code: &str) -> (Option<i64>, String, Option<EvalError>) {
    let tokens = lex(&mut LexerContext::new(String::from(code))).unwrap();
    let nodes = parse(&mut ParserContext::new(tokens), 0).unwrap();
    let result = run_code(&mut ctx, nodes);
    (ctx.exit_code, ctx.output.clone(), result.err())
}

fn run(code: &str) -> (Option<i64>, String, Option<EvalError>) {
    run_with(Interpreter::new(), code)
}

fn exits(code: &str, exit_code: i64) {
    assert_eq!(run(code), (Some(exit_code), String::new(), None), "{}", code);
}

fn prints(code: &str, output: &str) {
    assert_eq!(run(code), (None, String::from(output), None), "{}", code);
}

fn fails(code: &str, error: EvalError) {
    let (exit_code, _, e) = run(code);
    assert_eq!(e, Some(error), "{}", code);
    assert_eq!(exit_code, None, "{}", code);
}

fn string(s: &str) -> Value {
    Value::_String(String::from(s))
}

#[test]
fn exit_with_arithmetic_on_literals() {
    let values: [i64; 7] = [0, 1, 2, 7, 24, 1000, 123456789];
    for a in values {
        for b in values {
            exits(&format!("exit({} + {})", a, b), a + b);
            exits(&format!("exit({} - {})", a, b), a - b);
            exits(&format!("exit({} * {})", a, b), a * b);
            if b != 0 {
                exits(&format!("exit({} / {})", a, b), a / b);
                exits(&format!("exit {} / {}", a, b), a / b);
            }
        }
    }
}

#[test]
fn division_rounds_toward_zero() {
    exits("exit(7 / 2)", 3);
    exits("exit((0 - 7) / 2)", -3);
    exits("exit(7 / (0 - 2))", -3);
    exits("exit((0 - 7) / (0 - 2))", 3);
    exits("exit((0 - 1) / 2)", 0);
    exits("exit(0 / 5)", 0);
}

#[test]
fn exit_with_a_bool() {
    exits("exit(true)", 0);
    exits("exit(false)", 1);
    exits("exit true", 0);
    exits("exit !true", 1);
    exits("exit 1 = 1", 0);
    exits("exit 1 = 2", 1);
}

#[test]
fn exit_with_a_string_is_an_error() {
    fails("exit \"0\"", EvalError::ExitCode(Type::String));
}

#[test]
fn division_by_zero_is_an_error() {
    fails("exit(1 / 0)", EvalError::DivisionByZero);
    fails("exit(0 / 0)", EvalError::DivisionByZero);
    fails("x := 0 print 10 / x", EvalError::DivisionByZero);
    fails("print 1 + 2 / (3 - 3)", EvalError::DivisionByZero);
    fails("print((1 / 0) = (1 / 0))", EvalError::DivisionByZero);
    fails("x := 1 x /= 0", EvalError::DivisionByZero);
    fails("if 1 / 0 { print 1 }", EvalError::DivisionByZero);
    fails("while 1 / 0 { print 1 }", EvalError::DivisionByZero);
    fails("x := 5 / 0", EvalError::DivisionByZero);
}

#[test]
fn arithmetic_that_does_not_fit_is_an_error() {
    fails("exit 9223372036854775807 + 1", EvalError::Overflow);
    fails("exit 0 - 9223372036854775807 - 2", EvalError::Overflow);
    fails("exit 4611686018427387904 * 2", EvalError::Overflow);
    fails("exit((0 - 9223372036854775807 - 1) / (0 - 1))", EvalError::Overflow);
    exits("exit 9223372036854775806 + 1", i64::MAX);
    exits("exit 0 - 9223372036854775807 - 1", i64::MIN);
}

#[test]
fn output_before_an_error_stays() {
    assert_eq!(
        run("print 1 print 2 print 1 / 0 print 3"),
        (None, String::from("1\n2\n"), Some(EvalError::DivisionByZero))
    );
}

#[test]
fn declaration_of_another_type_is_an_error() {
    assert_eq!(
        run("x: Int = true"),
        (
            None,
            String::new(),
            Some(EvalError::TypeMismatch { expected: Type::Int, found: Type::Bool })
        )
    );
    fails(
        "x: String = 1",
        EvalError::TypeMismatch { expected: Type::String, found: Type::Int },
    );
    fails(
        "x: Bool = \"\"",
        EvalError::TypeMismatch { expected: Type::Bool, found: Type::String },
    );
    fails(
        "x: Int = 1 = 1",
        EvalError::TypeMismatch { expected: Type::Int, found: Type::Bool },
    );
}

#[test]
fn declaration_of_the_same_type() {
    prints("x: Int = 1 + 1 print x", "2\n");
    prints("x: String = \"a\" print x", "a\n");
    prints("x: Bool = !true print x", "false\n");
}

#[test]
fn any_accepts_every_value_when_declared() {
    prints("x: Any = 1 print x", "1\n");
    prints("x: Any = \"s\" print x", "s\n");
    prints("x: Any = true print x", "true\n");
}

#[test]
fn any_variable_takes_no_later_value() {
    fails(
        "x: Any = 1 x = 2",
        EvalError::ImplicitConversion { variable: Type::Any, value: Type::Int },
    );
}

#[test]
fn counting_loop_prints_each_value_once() {
    for n in 0..40i64 {
        let mut expected = String::new();
        let mut k = n;
        while k > 0 {
            expected.push_str(&format!("{}\n", k));
            k -= 1;
        }
        assert_eq!(
            run(&format!("x := {} while x {{ print x x -= 1 }}", n)),
            (None, expected.clone(), None)
        );
        assert_eq!(expected.lines().count() as i64, n);
    }
}

#[test]
fn concat_is_associative() {
    prints("print((\"a\" ; \"b\") ; \"c\")", "abc\n");
    prints("print \"a\" ; (\"b\" ; \"c\")", "abc\n");
    prints("print \"a\" ; \"b\" ; \"c\"", "abc\n");
    prints("a := \"x\" b := \"\" c := \"yz\" print a ; b ; c print a ; (b ; c)", "xyz\nxyz\n");
}

#[test]
fn concat_takes_two_strings() {
    fails("print \"a\" ; 1", EvalError::ImplicitCast { left: Type::String, right: Type::Int });
    fails("print true ; \"a\"", EvalError::ImplicitCast { left: Type::Bool, right: Type::String });
    fails("print 1 ; 2", EvalError::BadSign { sign: Sign::Concat, operand: Type::Int });
    fails("print true ; false", EvalError::BadSign { sign: Sign::Concat, operand: Type::Bool });
}

#[test]
fn assignment_to_an_undeclared_name_is_an_error() {
    assert_eq!(
        run("x = 5"),
        (None, String::new(), Some(EvalError::CouldNotSet(String::from("x"))))
    );
    fails("x += 1", EvalError::NotInitialized(String::from("x")));
    fails("{ y := 1 } y = 2", EvalError::CouldNotSet(String::from("y")));
}

#[test]
fn reading_an_undeclared_name_is_an_error() {
    fails("print x", EvalError::NotInitialized(String::from("x")));
    fails("x := x", EvalError::NotInitialized(String::from("x")));
    fails("{ y := 1 } print y", EvalError::NotInitialized(String::from("y")));
    fails("if true { y := 1 } print y", EvalError::NotInitialized(String::from("y")));
}

#[test]
fn assignment_keeps_the_type_of_the_variable() {
    fails(
        "x := 5 x = true",
        EvalError::ImplicitConversion { variable: Type::Int, value: Type::Bool },
    );
    fails(
        "x := \"s\" x = 1",
        EvalError::ImplicitConversion { variable: Type::String, value: Type::Int },
    );
    prints("x := 5 x = 6 print x", "6\n");
    prints("x := \"s\" x = x ; x print x", "ss\n");
}

#[test]
fn assignment_reaches_the_nearest_declaration() {
    prints("x := 1 { x = 2 } print x", "2\n");
    prints("x := 1 { x := 10 x = 20 print x } print x", "20\n1\n");
    prints("x := 1 { { x = 3 } } print x", "3\n");
    prints("x := 1 { x := true { x = false print x } print x } print x", "false\nfalse\n1\n");
}

#[test]
fn declaration_shadows_until_its_block_ends() {
    prints("x := 1 { x := \"in\" print x } print x", "in\n1\n");
    prints("x := 1 if true { x := 2 print x } print x", "2\n1\n");
    prints("x := 1 x := \"again\" print x", "again\n");
}

#[test]
fn each_iteration_has_a_scope_of_its_own() {
    prints("i := 2 while i { t := i * 10 print t i -= 1 }", "20\n10\n");
}

#[test]
fn condition_of_if() {
    prints("if 1 { print \"yes\" }", "yes\n");
    prints("if 0 { print \"yes\" }", "");
    prints("if 0 - 1 { print \"yes\" }", "yes\n");
    prints("if \"a\" { print \"yes\" }", "yes\n");
    prints("if \"\" { print \"yes\" }", "");
    prints("if true { print \"yes\" }", "yes\n");
    prints("if false { print \"yes\" }", "");
    prints("if !false { print \"yes\" }", "yes\n");
}

#[test]
fn condition_of_while() {
    prints("s := \"go\" while s { print s s = \"\" }", "go\n");
    prints("b := true while b { print b b = false }", "true\n");
    prints("while false { print 1 }", "");
}

#[test]
fn exit_ends_the_program() {
    assert_eq!(run("print 1 exit 3 print 2"), (Some(3), String::from("1\n"), None));
    assert_eq!(
        run("x := 0 while true { x += 1 if x = 3 { exit x } print x } print 99"),
        (Some(3), String::from("1\n2\n"), None)
    );
    assert_eq!(run("{ { exit 7 } print 1 } print 2"), (Some(7), String::new(), None));
    assert_eq!(run("exit 1 exit 2"), (Some(1), String::new(), None));
    assert_eq!(run("exit 0 print 1 / 0"), (Some(0), String::new(), None));
}

#[test]
fn program_without_exit_has_no_exit_code() {
    assert_eq!(run(""), (None, String::new(), None));
    assert_eq!(run("x := 1"), (None, String::new(), None));
}

#[test]
fn print_writes_one_line_per_value() {
    prints("print 0", "0\n");
    prints("print 0 - 5", "-5\n");
    prints("print 1234567890", "1234567890\n");
    prints("print 9223372036854775807", "9223372036854775807\n");
    prints("print 0 - 9223372036854775807 - 1", "-9223372036854775808\n");
    prints("print 10 print 100 print 101 print 9 print 99", "10\n100\n101\n9\n99\n");
    prints("print true print false", "true\nfalse\n");
    prints("print \"\"", "\n");
    prints("print \"a\nb\"", "a\nb\n");
    prints("print \"h\u{e9}\"", "h\u{e9}\n");
}

#[test]
fn equality_compares_any_two_values() {
    prints("print 1 = 1 print 1 = 2", "true\nfalse\n");
    prints("print \"a\" = \"a\" print \"a\" = \"b\"", "true\nfalse\n");
    prints("print true = true print true = false", "true\nfalse\n");
    prints("print 1 = \"1\" print true = 1 print \"\" = false", "false\nfalse\nfalse\n");
}

#[test]
fn negation_takes_a_bool() {
    prints("print !true print !false print !!true", "false\ntrue\ntrue\n");
    fails("print !1", EvalError::ExpectedBool(Type::Int));
    fails("print !\"\"", EvalError::ExpectedBool(Type::String));
}

#[test]
fn operators_take_operands_of_one_type() {
    fails("print 1 + true", EvalError::ImplicitCast { left: Type::Int, right: Type::Bool });
    fails("print \"1\" + 1", EvalError::ImplicitCast { left: Type::String, right: Type::Int });
    fails("print \"a\" + \"b\"", EvalError::BadSign { sign: Sign::Add, operand: Type::String });
    fails("print \"a\" * \"b\"", EvalError::BadSign { sign: Sign::Multiply, operand: Type::String });
    fails("print true + false", EvalError::BadSign { sign: Sign::Add, operand: Type::Bool });
    fails("print true / false", EvalError::BadSign { sign: Sign::Divide, operand: Type::Bool });
    fails("print true - false", EvalError::BadSign { sign: Sign::Subtract, operand: Type::Bool });
}

#[test]
fn left_operand_fails_first() {
    fails("print a + b", EvalError::NotInitialized(String::from("a")));
    fails("print 1 / 0 + b", EvalError::DivisionByZero);
    fails("print 1 + b + 1 / 0", EvalError::NotInitialized(String::from("b")));
}

#[test]
fn apply_sign_on_values() {
    assert_eq!(apply_sign(Sign::Add, Value::_Int(2), Value::_Int(3)), Ok(Value::_Int(5)));
    assert_eq!(apply_sign(Sign::Subtract, Value::_Int(2), Value::_Int(3)), Ok(Value::_Int(-1)));
    assert_eq!(apply_sign(Sign::Multiply, Value::_Int(-2), Value::_Int(3)), Ok(Value::_Int(-6)));
    assert_eq!(apply_sign(Sign::Divide, Value::_Int(-7), Value::_Int(2)), Ok(Value::_Int(-3)));
    assert_eq!(
        apply_sign(Sign::Divide, Value::_Int(i64::MIN), Value::_Int(-1)),
        Err(EvalError::Overflow)
    );
    assert_eq!(
        apply_sign(Sign::Divide, Value::_Int(i64::MIN), Value::_Int(0)),
        Err(EvalError::DivisionByZero)
    );
    assert_eq!(
        apply_sign(Sign::Concat, string("ab"), string("cd")),
        Ok(string("abcd"))
    );
    assert_eq!(apply_sign(Sign::Equal, string("ab"), string("ab")), Ok(Value::_Bool(true)));
    assert_eq!(apply_sign(Sign::Equal, string("1"), Value::_Int(1)), Ok(Value::_Bool(false)));
    assert_eq!(
        apply_sign(Sign::Equal, Value::_Bool(false), Value::_Bool(false)),
        Ok(Value::_Bool(true))
    );
}

#[test]
fn truthiness() {
    assert!(truthy(string("a")));
    assert!(truthy(string(" ")));
    assert!(truthy(string("\u{e9}")));
    assert!(!truthy(string("")));
    assert!(truthy(Value::_Int(1)));
    assert!(truthy(Value::_Int(-1)));
    assert!(truthy(Value::_Int(i64::MIN)));
    assert!(!truthy(Value::_Int(0)));
    assert!(truthy(Value::_Bool(true)));
    assert!(!truthy(Value::_Bool(false)));
}

#[test]
fn type_of_a_value() {
    assert_eq!(Type::from_value(string("")), Type::String);
    assert_eq!(Type::from_value(Value::_Int(0)), Type::Int);
    assert_eq!(Type::from_value(Value::_Bool(false)), Type::Bool);
}

#[test]
fn values_compare_by_content() {
    assert!(string("a").same(&string("a")));
    assert!(!string("a").same(&string("b")));
    assert!(!string("1").same(&Value::_Int(1)));
    assert!(Value::_Int(1).same(&Value::_Int(1)));
    assert!(!Value::_Bool(true).same(&Value::_Bool(false)));
    assert_eq!(string("a").clone(), string("a"));
}

#[test]
fn literals_evaluate_to_themselves() {
    let ctx = Interpreter::new();
    assert_eq!(eval_expr(Expr::Int(5), &ctx), Ok(Value::_Int(5)));
    assert_eq!(eval_expr(Expr::Bool(true), &ctx), Ok(Value::_Bool(true)));
    assert_eq!(eval_expr(Expr::StringLit(String::from("s")), &ctx), Ok(string("s")));
    assert_eq!(
        eval_expr(Expr::Not(Box::new(Expr::Bool(true))), &ctx),
        Ok(Value::_Bool(false))
    );
    assert_eq!(
        eval_expr(
            Expr::SumExpr { sign: Sign::Multiply, summands: vec![Expr::Int(6), Expr::Int(7)] },
            &ctx
        ),
        Ok(Value::_Int(42))
    );
    assert_eq!(
        eval_expr(Expr::Ident(String::from("x")), &ctx),
        Err(EvalError::NotInitialized(String::from("x")))
    );
}

#[test]
fn variables_of_a_new_interpreter() {
    let mut ctx = Interpreter::new();
    assert_eq!(ctx.exit_code, None);
    assert_eq!(ctx.output, "");
    assert!(ctx.get_var(String::from("x")).is_err());
    assert_eq!(
        ctx.set_var(String::from("x"), Value::_Int(1)),
        Err(EvalError::CouldNotSet(String::from("x")))
    );
    let _ = Scope::new();
    let _ = Variable::new(Value::_Int(1), Type::Int);
}

#[test]
fn scopes_are_closed_after_a_run() {
    let mut ctx = Interpreter::new();
    let tokens = lex(&mut LexerContext::new(String::from("x := 1 print x"))).unwrap();
    let nodes = parse(&mut ParserContext::new(tokens), 0).unwrap();
    assert_eq!(run_code(&mut ctx, nodes), Ok(()));
    assert_eq!(ctx.output, "1\n");
    assert!(ctx.get_var(String::from("x")).is_err());
    // a second program on the same interpreter sees none of the first one's variables
    let tokens = lex(&mut LexerContext::new(String::from("print 2 print x"))).unwrap();
    let nodes = parse(&mut ParserContext::new(tokens), 0).unwrap();
    assert_eq!(
        run_code(&mut ctx, nodes),
        Err(EvalError::NotInitialized(String::from("x")))
    );
    assert_eq!(ctx.output, "1\n2\n");
}

#[test]
fn scopes_are_closed_after_an_error_in_a_block() {
    let mut ctx = Interpreter::new();
    let tokens = lex(&mut LexerContext::new(String::from("{ { y := 1 print 1 / 0 } }"))).unwrap();
    let nodes = parse(&mut ParserContext::new(tokens), 0).unwrap();
    assert_eq!(run_code(&mut ctx, nodes), Err(EvalError::DivisionByZero));
    assert!(ctx.get_var(String::from("y")).is_err());
    assert_eq!(
        ctx.set_var(String::from("y"), Value::_Int(1)),
        Err(EvalError::CouldNotSet(String::from("y")))
    );
}

#[test]
fn nothing_runs_after_an_exit() {
    let mut ctx = Interpreter::new();
    assert_eq!(run_code(&mut ctx, vec![Node::Exit(Expr::Int(4))]), Ok(()));
    assert_eq!(run_code(&mut ctx, vec![Node::Print(Expr::Int(1)), Node::Exit(Expr::Int(5))]), Ok(()));
    assert_eq!(ctx.exit_code, Some(4));
    assert_eq!(ctx.output, "");
}

#[test]
fn step_limit_stops_a_loop() {
    assert_eq!(
        run_with(Interpreter::with_step_limit(3), "while true { print 1 }"),
        (None, String::from("1\n1\n1\n"), Some(EvalError::StepLimit))
    );
    assert_eq!(
        run_with(Interpreter::with_step_limit(0), "while true { print 1 }"),
        (None, String::new(), Some(EvalError::StepLimit))
    );
    assert_eq!(
        run_with(Interpreter::with_step_limit(0), "while false { print 1 } print 2"),
        (None, String::from("2\n"), None)
    );
}

#[test]
fn step_limit_allows_as_many_runs_as_it_says() {
    assert_eq!(
        run_with(Interpreter::with_step_limit(5), "x := 5 while x { print x x -= 1 }"),
        (None, String::from("5\n4\n3\n2\n1\n"), None)
    );
    assert_eq!(
        run_with(Interpreter::with_step_limit(4), "x := 5 while x { print x x -= 1 }"),
        (None, String::from("5\n4\n3\n2\n"), Some(EvalError::StepLimit))
    );
}

#[test]
fn step_limit_is_lower_inside_a_loop() {
    // the inner loop runs in the first run of the outer one, with one run less
    assert_eq!(
        run_with(
            Interpreter::with_step_limit(3),
            "a := 1 while a { a = 0 b := 2 while b { print b b -= 1 } }"
        ),
        (None, String::from("2\n1\n"), None)
    );
    assert_eq!(
        run_with(
            Interpreter::with_step_limit(2),
            "a := 1 while a { a = 0 b := 2 while b { print b b -= 1 } }"
        ),
        (None, String::from("2\n"), Some(EvalError::StepLimit))
    );
}

#[test]
fn nested_loops() {
    prints(
        "i := 2 while i { j := 2 while j { print i * 10 + j j -= 1 } i -= 1 }",
        "22\n21\n12\n11\n",
    );
}

#[test]
fn factorial() {
    exits("n := 10 f := 1 while n { f *= n n -= 1 } exit f", 3628800);
}

#[test]
fn errors_of_each_stage() {
    assert_eq!(
        lex(&mut LexerContext::new(String::from("x := $"))),
        Err(LexError::InvalidToken(b'$'))
    );
    let tokens = lex(&mut LexerContext::new(String::from("x := )"))).unwrap();
    assert_eq!(
        parse(&mut ParserContext::new(tokens), 0),
        Err(ParseError::ExpectedExpression(Token::CloseParen))
    );
}

#[test]
fn well_formed_trees() {
    let tokens = lex(&mut LexerContext::new(String::from(
        "x := 1 + 2 * 3 if !x { while x { x -= 1 { print x } } } exit x",
    )))
    .unwrap();
    let nodes = parse(&mut ParserContext::new(tokens), 0).unwrap();
    assert!(all_are_wf(&nodes));
    assert!(nodes.iter().all(|n| n.is_wf()));
    assert!(all_are_wf(&vec![]));

    let lonely = Expr::SumExpr { sign: Sign::Add, summands: vec![Expr::Int(1)] };
    assert!(!lonely.is_wf());
    let crowded =
        Expr::SumExpr { sign: Sign::Add, summands: vec![Expr::Int(1), Expr::Int(2), Expr::Int(3)] };
    assert!(!crowded.is_wf());
    assert!(!Expr::Not(Box::new(Expr::SumExpr { sign: Sign::Add, summands: vec![] })).is_wf());
    assert!(Expr::SumExpr { sign: Sign::Add, summands: vec![Expr::Int(1), Expr::Int(2)] }.is_wf());

    let bare_body = Node::If { expr: Expr::Bool(true), body: Box::new(Node::Print(Expr::Int(1))) };
    assert!(!bare_body.is_wf());
    assert!(!Node::Print(Expr::Int(1)).is_scope());
    assert!(Node::Scope(vec![]).is_scope());
    let in_scope = Node::While { expr: Expr::Bool(false), body: Box::new(Node::Scope(vec![])) };
    assert!(in_scope.is_wf());
    assert!(!all_are_wf(&vec![in_scope, Node::Scope(vec![bare_body])]));
    assert!(!Node::Exit(Expr::SumExpr { sign: Sign::Add, summands: vec![] }).is_wf());
}

#[test]
fn output_and_exit_code_can_be_read() {
    let mut ctx = Interpreter::new();
    assert_eq!(ctx.get_output(), "");
    assert_eq!(ctx.get_exit_code(), None);
    let tokens = lex(&mut LexerContext::new(String::from("print \"a\" exit 3"))).unwrap();
    let nodes = parse(&mut ParserContext::new(tokens), 0).unwrap();
    assert_eq!(run_code(&mut ctx, nodes), Ok(()));
    assert_eq!(ctx.get_output(), "a\n");
    assert_eq!(ctx.get_exit_code(), Some(3));
}

#[test]
fn variable_holds_its_value_and_type() {
    let v = Variable::new(Value::_Int(7), Type::Any);
    assert_eq!(*v.get_value(), Value::_Int(7));
    assert_eq!(v.get_type(), Type::Any);
    let copy = v.clone();
    assert_eq!(*copy.get_value(), Value::_Int(7));
    assert_eq!(copy.get_type(), Type::Any);
    let s = Variable::new(string("a"), Type::String);
    assert_eq!(*s.get_value(), string("a"));
    assert_eq!(s.get_type(), Type::String);
}
