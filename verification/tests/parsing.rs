use tinylang::error::ParseError;
use tinylang::expr::{make_binary, parse_expr, parse_expr_1, parse_primary, Expr, Sign, Type};
use tinylang::lexer::{lex, LexerContext, Token};
use tinylang::parser::{parse, Node, ParserContext};

fn tokens_of(code: &str) -> Vec<Token> {
    lex(&mut LexerContext::new(String::from(code))).unwrap()
}

fn expr_of(code: &str) -> Result<Expr, ParseError> {
    parse_expr(&mut ParserContext::new(tokens_of(code)))
}

fn program_of(code: &str) -> Result<Vec<Node>, ParseError> {
    parse(&mut ParserContext::new(tokens_of(code)), 0)
}

fn num(n: i64) -> Expr {
    Expr::Int(n)
}

fn name(s: &str) -> Expr {
    Expr::Ident(String::from(s))
}

fn text(s: &str) -> Expr {
    Expr::StringLit(String::from(s))
}

fn bin(sign: Sign, left: Expr, right: Expr) -> Expr {
    Expr::SumExpr { sign, summands: vec![left, right] }
}

#[test]
fn make_binary_has_two_operands() {
    assert_eq!(make_binary(Sign::Add, num(1), num(2)), bin(Sign::Add, num(1), num(2)));
}

#[test]
fn signs_of_tokens() {
    assert_eq!(Sign::from_token(&Token::Plus), Ok(Sign::Add));
    assert_eq!(Sign::from_token(&Token::Dash), Ok(Sign::Subtract));
    assert_eq!(Sign::from_token(&Token::Star), Ok(Sign::Multiply));
    assert_eq!(Sign::from_token(&Token::Slash), Ok(Sign::Divide));
    assert_eq!(Sign::from_token(&Token::Semicolon), Ok(Sign::Concat));
    assert_eq!(Sign::from_token(&Token::Equals), Ok(Sign::Equal));
    assert_eq!(
        Sign::from_token(&Token::Bang),
        Err(ParseError::ExpectedSign(Token::Bang))
    );
    assert_eq!(
        Sign::from_token(&Token::IntLit(1)),
        Err(ParseError::ExpectedSign(Token::IntLit(1)))
    );
}

#[test]
fn is_sign_agrees_with_from_token() {
    let all = vec![
        Token::Blank,
        Token::Print,
        Token::Exit,
        Token::Ident(String::from("a")),
        Token::TypeString,
        Token::TypeBool,
        Token::TypeInt,
        Token::TypeAny,
        Token::True,
        Token::False,
        Token::OpenParen,
        Token::CloseParen,
        Token::OpenBrace,
        Token::CloseBrace,
        Token::StringLit(String::from("s")),
        Token::IntLit(0),
        Token::Equals,
        Token::Bang,
        Token::Colon,
        Token::Plus,
        Token::Dash,
        Token::Star,
        Token::Slash,
        Token::Semicolon,
        Token::If,
        Token::While,
    ];
    let mut signs = 0;
    for t in all.iter() {
        assert_eq!(Sign::is_sign(t), Sign::from_token(t).is_ok());
        if Sign::is_sign(t) {
            signs += 1;
        }
    }
    assert_eq!(signs, 6);
}

#[test]
fn multiplication_and_division_bind_tighter() {
    assert_eq!(Sign::Multiply.get_precedence(), 2);
    assert_eq!(Sign::Divide.get_precedence(), 2);
    assert_eq!(Sign::Add.get_precedence(), 1);
    assert_eq!(Sign::Subtract.get_precedence(), 1);
    assert_eq!(Sign::Concat.get_precedence(), 1);
    assert_eq!(Sign::Equal.get_precedence(), 1);
}

#[test]
fn types_of_tokens() {
    assert_eq!(Type::from_token(Token::TypeString), Ok(Type::String));
    assert_eq!(Type::from_token(Token::TypeInt), Ok(Type::Int));
    assert_eq!(Type::from_token(Token::TypeBool), Ok(Type::Bool));
    assert_eq!(Type::from_token(Token::TypeAny), Ok(Type::Any));
    assert_eq!(
        Type::from_token(Token::Ident(String::from("Float"))),
        Err(ParseError::ExpectedType(Token::Ident(String::from("Float"))))
    );
}

#[test]
fn cursor_over_tokens() {
    let mut ctx = ParserContext::new(vec![Token::Print, Token::IntLit(1)]);
    assert_eq!(ctx.i, 0);
    assert_eq!(ctx.peek(0), Ok(Token::Print));
    assert_eq!(ctx.peek(1), Ok(Token::IntLit(1)));
    assert_eq!(ctx.peek(2), Err(ParseError::UnexpectedEnd));
    assert_eq!(ctx.peek(usize::MAX), Err(ParseError::UnexpectedEnd));
    assert!(ctx.check_token(Token::Print));
    assert!(!ctx.check_token(Token::Exit));
    assert_eq!(ctx.i, 0);
    assert_eq!(
        ctx.expect_token(Token::Exit),
        Err(ParseError::Expected { expected: Token::Exit, found: Some(Token::Print) })
    );
    assert_eq!(ctx.i, 0);
    assert_eq!(ctx.expect_token(Token::Print), Ok(Token::Print));
    assert_eq!(ctx.i, 1);
    assert_eq!(ctx.next_token(), Ok(Token::IntLit(1)));
    assert_eq!(ctx.i, 2);
    assert_eq!(ctx.next_token(), Err(ParseError::UnexpectedEnd));
    assert_eq!(ctx.i, 2);
    assert!(!ctx.check_token(Token::Print));
    assert_eq!(
        ctx.expect_token(Token::Print),
        Err(ParseError::Expected { expected: Token::Print, found: None })
    );
    assert_eq!(ctx.peek(0), Err(ParseError::UnexpectedEnd));
}

#[test]
fn primaries() {
    assert_eq!(expr_of("42"), Ok(num(42)));
    assert_eq!(expr_of("\"s\""), Ok(text("s")));
    assert_eq!(expr_of("true"), Ok(Expr::Bool(true)));
    assert_eq!(expr_of("false"), Ok(Expr::Bool(false)));
    assert_eq!(expr_of("x"), Ok(name("x")));
    assert_eq!(expr_of("(x)"), Ok(name("x")));
    assert_eq!(expr_of("((7))"), Ok(num(7)));
    assert_eq!(expr_of("!x"), Ok(Expr::Not(Box::new(name("x")))));
    assert_eq!(
        expr_of("!!true"),
        Ok(Expr::Not(Box::new(Expr::Not(Box::new(Expr::Bool(true))))))
    );
}

#[test]
fn negation_binds_tighter_than_any_operator() {
    assert_eq!(
        expr_of("!a = b"),
        Ok(bin(Sign::Equal, Expr::Not(Box::new(name("a"))), name("b")))
    );
    assert_eq!(
        expr_of("!(a = b)"),
        Ok(Expr::Not(Box::new(bin(Sign::Equal, name("a"), name("b")))))
    );
}

#[test]
fn tighter_operator_is_applied_first() {
    assert_eq!(
        expr_of("1 + 2 * 3"),
        Ok(bin(Sign::Add, num(1), bin(Sign::Multiply, num(2), num(3))))
    );
    assert_eq!(
        expr_of("1 * 2 + 3"),
        Ok(bin(Sign::Add, bin(Sign::Multiply, num(1), num(2)), num(3)))
    );
    assert_eq!(
        expr_of("1 + 2 * 3 / 4"),
        Ok(bin(
            Sign::Add,
            num(1),
            bin(Sign::Divide, bin(Sign::Multiply, num(2), num(3)), num(4))
        ))
    );
    assert_eq!(
        expr_of("1 * 2 + 3 * 4 - 5"),
        Ok(bin(
            Sign::Subtract,
            bin(
                Sign::Add,
                bin(Sign::Multiply, num(1), num(2)),
                bin(Sign::Multiply, num(3), num(4))
            ),
            num(5)
        ))
    );
}

#[test]
fn operators_associate_to_the_left() {
    assert_eq!(
        expr_of("1 - 2 - 3"),
        Ok(bin(Sign::Subtract, bin(Sign::Subtract, num(1), num(2)), num(3)))
    );
    assert_eq!(
        expr_of("8 / 4 / 2"),
        Ok(bin(Sign::Divide, bin(Sign::Divide, num(8), num(4)), num(2)))
    );
    assert_eq!(
        expr_of("a = b = c"),
        Ok(bin(Sign::Equal, bin(Sign::Equal, name("a"), name("b")), name("c")))
    );
}

#[test]
fn equality_binds_like_addition() {
    assert_eq!(
        expr_of("1 + 2 = 3"),
        Ok(bin(Sign::Equal, bin(Sign::Add, num(1), num(2)), num(3)))
    );
    assert_eq!(
        expr_of("6 = 2 * 3"),
        Ok(bin(Sign::Equal, num(6), bin(Sign::Multiply, num(2), num(3))))
    );
}

#[test]
fn concat_chain_nests_to_the_left() {
    assert_eq!(
        expr_of("\"a\" ; \"b\" ; \"c\""),
        Ok(bin(
            Sign::Concat,
            bin(Sign::Concat, text("a"), text("b")),
            text("c")
        ))
    );
}

#[test]
fn parentheses_group() {
    assert_eq!(
        expr_of("(1 + 2) * 3"),
        Ok(bin(Sign::Multiply, bin(Sign::Add, num(1), num(2)), num(3)))
    );
    assert_eq!(
        expr_of("1 - (2 - 3)"),
        Ok(bin(Sign::Subtract, num(1), bin(Sign::Subtract, num(2), num(3))))
    );
}

#[test]
fn expression_ends_at_a_token_that_is_no_operator() {
    let mut ctx = ParserContext::new(tokens_of("1 + 2 x"));
    assert_eq!(parse_expr(&mut ctx), Ok(bin(Sign::Add, num(1), num(2))));
    assert_eq!(ctx.i, 3);
    let mut ctx = ParserContext::new(tokens_of("1 )"));
    assert_eq!(parse_expr(&mut ctx), Ok(num(1)));
    assert_eq!(ctx.i, 1);
}

#[test]
fn expression_errors() {
    assert_eq!(expr_of(""), Err(ParseError::UnexpectedEnd));
    assert_eq!(expr_of("1 +"), Err(ParseError::UnexpectedEnd));
    assert_eq!(expr_of("1 + 2 *"), Err(ParseError::UnexpectedEnd));
    assert_eq!(expr_of("!"), Err(ParseError::UnexpectedEnd));
    assert_eq!(expr_of("+ 1"), Err(ParseError::ExpectedExpression(Token::Plus)));
    assert_eq!(expr_of("1 + )"), Err(ParseError::ExpectedExpression(Token::CloseParen)));
    assert_eq!(expr_of("print"), Err(ParseError::ExpectedExpression(Token::Print)));
    assert_eq!(
        expr_of("(1 + 2"),
        Err(ParseError::Expected { expected: Token::CloseParen, found: None })
    );
    assert_eq!(
        expr_of("(1 2)"),
        Err(ParseError::Expected { expected: Token::CloseParen, found: Some(Token::IntLit(2)) })
    );
    assert_eq!(expr_of("(1 + +)"), Err(ParseError::ExpectedExpression(Token::Plus)));
}

#[test]
fn parse_primary_takes_one_operand() {
    let mut ctx = ParserContext::new(tokens_of("1 + 2"));
    assert_eq!(parse_primary(&mut ctx), Ok(num(1)));
    assert_eq!(ctx.i, 1);
    let mut ctx = ParserContext::new(tokens_of("(1 + 2) * 3"));
    assert_eq!(parse_primary(&mut ctx), Ok(bin(Sign::Add, num(1), num(2))));
    assert_eq!(ctx.i, 5);
}

#[test]
fn parse_expr_1_respects_the_minimum_precedence() {
    let mut ctx = ParserContext::new(tokens_of("* 2 + 3"));
    assert_eq!(
        parse_expr_1(&mut ctx, num(1), 2),
        Ok(bin(Sign::Multiply, num(1), num(2)))
    );
    assert_eq!(ctx.i, 2);
    let mut ctx = ParserContext::new(tokens_of("* 2 + 3"));
    assert_eq!(
        parse_expr_1(&mut ctx, num(1), 0),
        Ok(bin(Sign::Add, bin(Sign::Multiply, num(1), num(2)), num(3)))
    );
    assert_eq!(ctx.i, 4);
    let mut ctx = ParserContext::new(tokens_of("+ 2 * 3"));
    assert_eq!(parse_expr_1(&mut ctx, num(1), 2), Ok(num(1)));
    assert_eq!(ctx.i, 0);
    let mut ctx = ParserContext::new(tokens_of("* 2"));
    assert_eq!(parse_expr_1(&mut ctx, num(1), 3), Ok(num(1)));
    assert_eq!(ctx.i, 0);
    let mut ctx = ParserContext::new(tokens_of("+ 2 * 3 * 4 - 5"));
    assert_eq!(
        parse_expr_1(&mut ctx, num(1), i8::MIN),
        Ok(bin(
            Sign::Subtract,
            bin(
                Sign::Add,
                num(1),
                bin(Sign::Multiply, bin(Sign::Multiply, num(2), num(3)), num(4))
            ),
            num(5)
        ))
    );
    let mut ctx = ParserContext::new(vec![]);
    assert_eq!(parse_expr_1(&mut ctx, num(1), 0), Ok(num(1)));
}

#[test]
fn print_and_exit_statements() {
    assert_eq!(program_of("print(1)"), Ok(vec![Node::Print(num(1))]));
    assert_eq!(program_of("exit(x)"), Ok(vec![Node::Exit(name("x"))]));
    assert_eq!(program_of("print 1"), Ok(vec![Node::Print(num(1))]));
    assert_eq!(
        program_of("exit 1 + 2"),
        Ok(vec![Node::Exit(bin(Sign::Add, num(1), num(2)))])
    );
    assert_eq!(
        program_of("print(1 + 2) exit(0)"),
        Ok(vec![Node::Print(bin(Sign::Add, num(1), num(2))), Node::Exit(num(0))])
    );
}

#[test]
fn parenthesised_argument_is_the_whole_argument() {
    assert_eq!(
        program_of("print(1) + 2"),
        Err(ParseError::UnexpectedToken(Token::Plus))
    );
    assert_eq!(
        program_of("print(1"),
        Err(ParseError::Expected { expected: Token::CloseParen, found: None })
    );
    assert_eq!(program_of("print"), Err(ParseError::UnexpectedEnd));
    assert_eq!(program_of("print()"), Err(ParseError::ExpectedExpression(Token::CloseParen)));
}

#[test]
fn declarations() {
    assert_eq!(
        program_of("x := 5"),
        Ok(vec![Node::Let { ident: String::from("x"), expr: num(5), var_type: Type::Auto }])
    );
    assert_eq!(
        program_of("x: Int = 5"),
        Ok(vec![Node::Let { ident: String::from("x"), expr: num(5), var_type: Type::Int }])
    );
    assert_eq!(
        program_of("s: String = \"a\" b: Bool = true a: Any = 1"),
        Ok(vec![
            Node::Let { ident: String::from("s"), expr: text("a"), var_type: Type::String },
            Node::Let { ident: String::from("b"), expr: Expr::Bool(true), var_type: Type::Bool },
            Node::Let { ident: String::from("a"), expr: num(1), var_type: Type::Any },
        ])
    );
    assert_eq!(
        program_of("x: Int = true"),
        Ok(vec![Node::Let {
            ident: String::from("x"),
            expr: Expr::Bool(true),
            var_type: Type::Int
        }])
    );
}

#[test]
fn declaration_errors() {
    assert_eq!(program_of("x:"), Err(ParseError::UnexpectedEnd));
    assert_eq!(program_of("x: Int"), Err(ParseError::Expected { expected: Token::Equals, found: None }));
    assert_eq!(
        program_of("x: Int 5"),
        Err(ParseError::Expected { expected: Token::Equals, found: Some(Token::IntLit(5)) })
    );
    assert_eq!(
        program_of("x: Float = 5"),
        Err(ParseError::ExpectedType(Token::Ident(String::from("Float"))))
    );
    assert_eq!(program_of("x: 5"), Err(ParseError::ExpectedType(Token::IntLit(5))));
    assert_eq!(program_of("x :="), Err(ParseError::UnexpectedEnd));
    assert_eq!(program_of("x: Int ="), Err(ParseError::UnexpectedEnd));
}

#[test]
fn assignments() {
    assert_eq!(
        program_of("x = x + 1"),
        Ok(vec![Node::Assign {
            ident: String::from("x"),
            expr: bin(Sign::Add, name("x"), num(1))
        }])
    );
    assert_eq!(
        program_of("x += 2 * 3"),
        Ok(vec![Node::Assign {
            ident: String::from("x"),
            expr: bin(Sign::Add, name("x"), bin(Sign::Multiply, num(2), num(3)))
        }])
    );
    assert_eq!(
        program_of("x -= 1 y *= 2 z /= 3"),
        Ok(vec![
            Node::Assign {
                ident: String::from("x"),
                expr: bin(Sign::Subtract, name("x"), num(1))
            },
            Node::Assign {
                ident: String::from("y"),
                expr: bin(Sign::Multiply, name("y"), num(2))
            },
            Node::Assign {
                ident: String::from("z"),
                expr: bin(Sign::Divide, name("z"), num(3))
            },
        ])
    );
}

#[test]
fn compound_assignment_takes_its_whole_right_side() {
    assert_eq!(
        program_of("x -= 1 - 2"),
        Ok(vec![Node::Assign {
            ident: String::from("x"),
            expr: bin(Sign::Subtract, name("x"), bin(Sign::Subtract, num(1), num(2)))
        }])
    );
}

#[test]
fn assignment_errors() {
    assert_eq!(program_of("x"), Err(ParseError::UnexpectedEnd));
    assert_eq!(program_of("x y"), Err(ParseError::UnexpectedToken(Token::Ident(String::from("y")))));
    assert_eq!(program_of("x 5"), Err(ParseError::UnexpectedToken(Token::IntLit(5))));
    assert_eq!(program_of("x ;= 5"), Err(ParseError::UnexpectedToken(Token::Semicolon)));
    assert_eq!(
        program_of("x + 5"),
        Err(ParseError::Expected { expected: Token::Equals, found: Some(Token::IntLit(5)) })
    );
    assert_eq!(
        program_of("x +"),
        Err(ParseError::Expected { expected: Token::Equals, found: None })
    );
    assert_eq!(program_of("x ="), Err(ParseError::UnexpectedEnd));
    assert_eq!(program_of("x +="), Err(ParseError::UnexpectedEnd));
}

#[test]
fn blocks_and_conditions() {
    assert_eq!(program_of("{}"), Ok(vec![Node::Scope(vec![])]));
    assert_eq!(
        program_of("{ print 1 { print 2 } }"),
        Ok(vec![Node::Scope(vec![
            Node::Print(num(1)),
            Node::Scope(vec![Node::Print(num(2))])
        ])])
    );
    assert_eq!(
        program_of("if x { print 1 } print 2"),
        Ok(vec![
            Node::If { expr: name("x"), body: Box::new(Node::Scope(vec![Node::Print(num(1))])) },
            Node::Print(num(2)),
        ])
    );
    assert_eq!(
        program_of("while x = 1 { }"),
        Ok(vec![Node::While {
            expr: bin(Sign::Equal, name("x"), num(1)),
            body: Box::new(Node::Scope(vec![]))
        }])
    );
    assert_eq!(
        program_of("if (x) { if !y { exit 1 } }"),
        Ok(vec![Node::If {
            expr: name("x"),
            body: Box::new(Node::Scope(vec![Node::If {
                expr: Expr::Not(Box::new(name("y"))),
                body: Box::new(Node::Scope(vec![Node::Exit(num(1))]))
            }]))
        }])
    );
}

#[test]
fn braces_must_balance() {
    assert_eq!(program_of("}"), Err(ParseError::UnexpectedCloseBrace));
    assert_eq!(program_of("print 1 }"), Err(ParseError::UnexpectedCloseBrace));
    assert_eq!(program_of("{ } }"), Err(ParseError::UnexpectedCloseBrace));
    assert_eq!(program_of("{"), Err(ParseError::UnexpectedEnd));
    assert_eq!(program_of("{ print 1"), Err(ParseError::UnexpectedEnd));
    assert_eq!(program_of("if x { { }"), Err(ParseError::UnexpectedEnd));
    assert_eq!(program_of("while x {"), Err(ParseError::UnexpectedEnd));
}

#[test]
fn condition_needs_its_block() {
    assert_eq!(
        program_of("if x print 1"),
        Err(ParseError::Expected { expected: Token::OpenBrace, found: Some(Token::Print) })
    );
    assert_eq!(
        program_of("while x"),
        Err(ParseError::Expected { expected: Token::OpenBrace, found: None })
    );
    assert_eq!(program_of("if"), Err(ParseError::UnexpectedEnd));
    assert_eq!(program_of("if { }"), Err(ParseError::ExpectedExpression(Token::OpenBrace)));
}

#[test]
fn token_that_starts_no_statement() {
    assert_eq!(program_of("5"), Err(ParseError::UnexpectedToken(Token::IntLit(5))));
    assert_eq!(program_of("print 1 + 2 )"), Err(ParseError::UnexpectedToken(Token::CloseParen)));
    assert_eq!(program_of("= 3"), Err(ParseError::UnexpectedToken(Token::Equals)));
    assert_eq!(program_of("Int x"), Err(ParseError::UnexpectedToken(Token::TypeInt)));
    assert_eq!(
        program_of("\"s\""),
        Err(ParseError::UnexpectedToken(Token::StringLit(String::from("s"))))
    );
}

#[test]
fn nested_parse_stops_after_its_closing_brace() {
    let mut ctx = ParserContext::new(tokens_of("print 1 } print 2"));
    assert_eq!(parse(&mut ctx, 1), Ok(vec![Node::Print(num(1))]));
    assert_eq!(ctx.i, 3);
    assert_eq!(parse(&mut ctx, 0), Ok(vec![Node::Print(num(2))]));
    assert_eq!(ctx.i, 5);
    let mut ctx = ParserContext::new(tokens_of("print 1"));
    assert_eq!(parse(&mut ctx, usize::MAX), Err(ParseError::UnexpectedEnd));
}

#[test]
fn empty_program() {
    assert_eq!(program_of(""), Ok(vec![]));
}

#[test]
fn trees_can_be_copied() {
    let e = expr_of("!(1 + x * \"s\") = true").unwrap();
    assert_eq!(e.clone(), e);
    let nodes = program_of(
        "x: Int = 1 y := \"a\" ; \"b\" if x { while !y { x -= 1 { print x } } } exit(x)",
    )
    .unwrap();
    assert!(nodes.len() == 4);
    for n in nodes.iter() {
        assert_eq!(n.clone(), *n);
    }
    assert_eq!(nodes.clone(), nodes);
}
