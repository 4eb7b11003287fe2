//! Expressions: their syntax tree, operators and types, and the
//! expression grammar.

use vstd::prelude::*;
use crate::error::{ParseError, ParseErrorView};
use crate::lexer::{Token, TokenView};
use crate::parser::ParserContext;

verus! {

/// A binary operator.
#[derive(Debug, Clone, Copy, PartialEq, Eq, Structural)]
pub enum Sign {
    Add,
    Subtract,
    Multiply,
    Divide,
    Equal,
    Concat,
}

/// The type of a variable.
#[derive(Debug, Clone, Copy, PartialEq, Eq, Structural)]
pub enum Type {
    Int,
    String,
    Bool,
    /// Accepts a value of any type when a variable is declared.
    Any,
    /// Stands for the type of the initializer.
    Auto,
}

/// An expression tree.
#[derive(Debug, PartialEq, Eq)]
pub enum Expr {
    /// An operator applied to its operands, of which there are two.
    SumExpr { sign: Sign, summands: Vec<Expr> },
    StringLit(String),
    Int(i64),
    Bool(bool),
    Not(Box<Expr>),
    Ident(String),
}

/// The mathematical value of an [`Expr`].
pub enum ExprView {
    SumExpr { sign: Sign, summands: Seq<ExprView> },
    StringLit(Seq<char>),
    Int(i64),
    Bool(bool),
    Not(Box<ExprView>),
    Ident(Seq<char>),
}

/// The values of a sequence of expressions, in order.
pub open spec fn expr_views(es: Seq<Expr>) -> Seq<ExprView>
    decreases es, 0int,
{
    if es.len() == 0 {
        Seq::empty()
    } else {
        expr_views(es.drop_last()).push(expr_view(es.last()))
    }
}

/// The value of an expression.
pub open spec fn expr_view(e: Expr) -> ExprView
    decreases e, 1int,
{
    match e {
        Expr::SumExpr { sign, summands } => ExprView::SumExpr {
            sign,
            summands: expr_views(summands@),
        },
        Expr::StringLit(s) => ExprView::StringLit(s@),
        Expr::Int(n) => ExprView::Int(n),
        Expr::Bool(b) => ExprView::Bool(b),
        Expr::Not(inner) => ExprView::Not(Box::new(expr_view(*inner))),
        Expr::Ident(s) => ExprView::Ident(s@),
    }
}

impl View for Expr {
    type V = ExprView;

    open spec fn view(&self) -> ExprView {
        expr_view(*self)
    }
}

impl ExprView {
    /// Every operator in the tree has exactly two operands.
    pub open spec fn wf(self) -> bool
        decreases self,
    {
        match self {
            ExprView::SumExpr { sign, summands } => summands.len() == 2 && summands[0].wf()
                && summands[1].wf(),
            ExprView::Not(inner) => inner.wf(),
            _ => true,
        }
    }

    /// `sign` applied to `left` and `right`.
    pub open spec fn binary(sign: Sign, left: ExprView, right: ExprView) -> ExprView {
        ExprView::SumExpr { sign, summands: seq![left, right] }
    }
}

/// The operator that a token stands for, if any.
pub open spec fn sign_of(t: TokenView) -> Option<Sign> {
    match t {
        TokenView::Plus => Some(Sign::Add),
        TokenView::Dash => Some(Sign::Subtract),
        TokenView::Star => Some(Sign::Multiply),
        TokenView::Slash => Some(Sign::Divide),
        TokenView::Semicolon => Some(Sign::Concat),
        TokenView::Equals => Some(Sign::Equal),
        _ => None,
    }
}

/// How tightly an operator binds: multiplication and division bind
/// tighter than the rest.
pub open spec fn precedence(s: Sign) -> int {
    match s {
        Sign::Multiply | Sign::Divide => 2,
        Sign::Add | Sign::Subtract | Sign::Concat | Sign::Equal => 1,
    }
}

/// The type that a token names, if any.
pub open spec fn type_of_token(t: TokenView) -> Option<Type> {
    match t {
        TokenView::TypeString => Some(Type::String),
        TokenView::TypeInt => Some(Type::Int),
        TokenView::TypeBool => Some(Type::Bool),
        TokenView::TypeAny => Some(Type::Any),
        _ => None,
    }
}

/// The token at position `i`, if there is one.
pub open spec fn token_at(tokens: Seq<TokenView>, i: int) -> Option<TokenView> {
    if 0 <= i < tokens.len() {
        Some(tokens[i])
    } else {
        None
    }
}

/// The operator at position `i`, if one stands there.
pub open spec fn sign_at(tokens: Seq<TokenView>, i: int) -> Option<Sign> {
    match token_at(tokens, i) {
        Some(t) => sign_of(t),
        None => None,
    }
}

/// A parse that began at `i` is taken only if it consumed something and
/// ended inside the input. Every parse of this grammar does: see
/// [`lemma_parses_advance`].
pub open spec fn advancing(
    tokens: Seq<TokenView>,
    i: int,
    r: Result<(ExprView, int), ParseErrorView>,
) -> Result<(ExprView, int), ParseErrorView> {
    match r {
        Ok((e, j)) => if i < j <= tokens.len() {
            r
        } else {
            Err(ParseErrorView::UnexpectedEnd)
        },
        Err(_) => r,
    }
}

/// An operand with its prefix operators, from position `i`:
/// a literal, a name, `!` and an operand, or an expression in
/// parentheses. Returns the expression and the position after it.
pub open spec fn unary(tokens: Seq<TokenView>, i: int) -> Result<(ExprView, int), ParseErrorView>
    decreases tokens.len() - i, 0int,
{
    if i < 0 || i >= tokens.len() {
        Err(ParseErrorView::UnexpectedEnd)
    } else {
        match tokens[i] {
            TokenView::StringLit(s) => Ok((ExprView::StringLit(s), i + 1)),
            TokenView::IntLit(n) => Ok((ExprView::Int(n), i + 1)),
            TokenView::True => Ok((ExprView::Bool(true), i + 1)),
            TokenView::False => Ok((ExprView::Bool(false), i + 1)),
            TokenView::Ident(s) => Ok((ExprView::Ident(s), i + 1)),
            TokenView::Bang => match unary(tokens, i + 1) {
                Ok((e, j)) => Ok((ExprView::Not(Box::new(e)), j)),
                Err(e) => Err(e),
            },
            TokenView::OpenParen => match expr(tokens, i + 1) {
                Ok((e, j)) => if token_at(tokens, j) == Some(TokenView::CloseParen) {
                    Ok((e, j + 1))
                } else {
                    Err(
                        ParseErrorView::Expected {
                            expected: TokenView::CloseParen,
                            found: token_at(tokens, j),
                        },
                    )
                },
                Err(e) => Err(e),
            },
            t => Err(ParseErrorView::ExpectedExpression(t)),
        }
    }
}

/// `lhs`, which ends at `i`, extended to the left-associated chain of
/// the multiplications and divisions that follow it.
pub open spec fn term_tail(tokens: Seq<TokenView>, i: int, lhs: ExprView) -> Result<
    (ExprView, int),
    ParseErrorView,
>
    decreases tokens.len() - i, 1int,
{
    match sign_at(tokens, i) {
        Some(op) => if precedence(op) >= 2 {
            match advancing(tokens, i, unary(tokens, i + 1)) {
                Ok((rhs, j)) => term_tail(tokens, j, ExprView::binary(op, lhs, rhs)),
                Err(e) => Err(e),
            }
        } else {
            Ok((lhs, i))
        },
        None => Ok((lhs, i)),
    }
}

/// The right operand, from position `i`, of an operator that binds with
/// precedence `p`: an operand together with every operator after it that
/// binds tighter than `p`.
pub open spec fn operand(tokens: Seq<TokenView>, i: int, p: int) -> Result<
    (ExprView, int),
    ParseErrorView,
>
    decreases tokens.len() - i, 2int,
{
    match advancing(tokens, i, unary(tokens, i)) {
        Ok((e, j)) => if p < 2 {
            term_tail(tokens, j, e)
        } else {
            Ok((e, j))
        },
        Err(e) => Err(e),
    }
}

/// `lhs`, which ends at `i`, extended to the left-associated chain of
/// the operators that follow it and bind with precedence `min` or
/// more, each with its right operand.
pub open spec fn tail(tokens: Seq<TokenView>, i: int, lhs: ExprView, min: int) -> Result<
    (ExprView, int),
    ParseErrorView,
>
    decreases tokens.len() - i, 3int,
{
    match sign_at(tokens, i) {
        Some(op) => if precedence(op) >= min {
            match advancing(tokens, i, operand(tokens, i + 1, precedence(op))) {
                Ok((rhs, j)) => tail(tokens, j, ExprView::binary(op, lhs, rhs), min),
                Err(e) => Err(e),
            }
        } else {
            Ok((lhs, i))
        },
        None => Ok((lhs, i)),
    }
}

/// The expression that starts at position `i`, and the position after
/// it: operands joined by operators, where multiplication and division
/// bind tighter than the other operators and every operator associates
/// to the left.
pub open spec fn expr(tokens: Seq<TokenView>, i: int) -> Result<(ExprView, int), ParseErrorView>
    decreases tokens.len() - i, 4int,
{
    match advancing(tokens, i, unary(tokens, i)) {
        Ok((e, j)) => tail(tokens, j, e, 0),
        Err(e) => Err(e),
    }
}

/// No operator that binds with precedence `min` or more stands at `i`.
pub open spec fn stops(tokens: Seq<TokenView>, i: int, min: int) -> bool {
    match sign_at(tokens, i) {
        Some(op) => precedence(op) < min,
        None => true,
    }
}

/// An operand consumes at least one token, ends inside the input and is
/// well formed.
pub proof fn lemma_unary(tokens: Seq<TokenView>, i: int)
    ensures
        match unary(tokens, i) {
            Ok((e, j)) => 0 <= i < j <= tokens.len() && e.wf(),
            Err(_) => true,
        },
    decreases tokens.len() - i, 0int,
{
    if 0 <= i < tokens.len() {
        match tokens[i] {
            TokenView::Bang => {
                lemma_unary(tokens, i + 1);
            },
            TokenView::OpenParen => {
                lemma_parses_advance(tokens, i + 1);
            },
            _ => {},
        }
    }
}

/// A chain of multiplications and divisions ends inside the input, at a
/// token that is no such operator, and is well formed if its first
/// operand is.
pub proof fn lemma_term_tail(tokens: Seq<TokenView>, i: int, lhs: ExprView)
    ensures
        match term_tail(tokens, i, lhs) {
            Ok((e, j)) => i <= j && (i <= tokens.len() ==> j <= tokens.len()) && (lhs.wf()
                ==> e.wf()) && stops(
                tokens,
                j,
                2,
            ),
            Err(_) => true,
        },
    decreases tokens.len() - i, 1int,
{
    match sign_at(tokens, i) {
        Some(op) => {
            if precedence(op) >= 2 {
                lemma_unary(tokens, i + 1);
                match advancing(tokens, i, unary(tokens, i + 1)) {
                    Ok((rhs, j)) => {
                        lemma_term_tail(tokens, j, ExprView::binary(op, lhs, rhs));
                    },
                    Err(_) => {},
                }
            }
        },
        None => {},
    }
}

/// The right operand of an operator consumes at least one token, ends
/// inside the input and is well formed; after that of an operator that
/// binds loosely no multiplication or division follows.
pub proof fn lemma_operand(tokens: Seq<TokenView>, i: int, p: int)
    ensures
        match operand(tokens, i, p) {
            Ok((e, j)) => 0 <= i < j <= tokens.len() && e.wf() && (p < 2 ==> stops(tokens, j, 2)),
            Err(_) => true,
        },
        operand(tokens, i, p) == (match unary(tokens, i) {
            Ok((e, j)) => if p < 2 {
                term_tail(tokens, j, e)
            } else {
                Ok((e, j))
            },
            Err(e) => Err(e),
        }),
    decreases tokens.len() - i, 2int,
{
    lemma_unary(tokens, i);
    match unary(tokens, i) {
        Ok((e, j)) => {
            if p < 2 {
                lemma_term_tail(tokens, j, e);
            }
        },
        Err(_) => {},
    }
}

/// A chain of operators ends inside the input, at a token that is no
/// operator of the precedence asked for, and is well formed if its first
/// operand is.
pub proof fn lemma_tail(tokens: Seq<TokenView>, i: int, lhs: ExprView, min: int)
    ensures
        match tail(tokens, i, lhs, min) {
            Ok((e, j)) => i <= j && (i <= tokens.len() ==> j <= tokens.len()) && (lhs.wf()
                ==> e.wf()) && stops(
                tokens,
                j,
                min,
            ),
            Err(_) => true,
        },
    decreases tokens.len() - i, 3int,
{
    match sign_at(tokens, i) {
        Some(op) => {
            if precedence(op) >= min {
                lemma_operand(tokens, i + 1, precedence(op));
                match advancing(tokens, i, operand(tokens, i + 1, precedence(op))) {
                    Ok((rhs, j)) => {
                        lemma_tail(tokens, j, ExprView::binary(op, lhs, rhs), min);
                    },
                    Err(_) => {},
                }
            }
        },
        None => {},
    }
}

/// An expression consumes at least one token, ends inside the input, at
/// a token that is no operator, and every operator in it has two
/// operands.
pub proof fn lemma_parses_advance(tokens: Seq<TokenView>, i: int)
    ensures
        match expr(tokens, i) {
            Ok((e, j)) => 0 <= i < j <= tokens.len() && e.wf() && sign_at(tokens, j) is None,
            Err(_) => true,
        },
        expr(tokens, i) == (match unary(tokens, i) {
            Ok((e, j)) => tail(tokens, j, e, 0),
            Err(e) => Err(e),
        }),
    decreases tokens.len() - i, 4int,
{
    lemma_unary(tokens, i);
    match unary(tokens, i) {
        Ok((e, j)) => {
            lemma_tail(tokens, j, e, 0);
        },
        Err(_) => {},
    }
}

/// The chain of the operators that bind as tightly as multiplication is
/// the chain of multiplications and divisions.
pub proof fn lemma_tail_tight(tokens: Seq<TokenView>, i: int, lhs: ExprView)
    ensures
        tail(tokens, i, lhs, 2) == term_tail(tokens, i, lhs),
    decreases tokens.len() - i,
{
    match sign_at(tokens, i) {
        Some(op) => {
            if precedence(op) >= 2 {
                lemma_unary(tokens, i + 1);
                lemma_operand(tokens, i + 1, precedence(op));
                match unary(tokens, i + 1) {
                    Ok((rhs, j)) => {
                        lemma_tail_tight(tokens, j, ExprView::binary(op, lhs, rhs));
                    },
                    Err(_) => {},
                }
            }
        },
        None => {},
    }
}

/// The values of a sequence of expressions are the values of its
/// members.
pub proof fn lemma_expr_views(es: Seq<Expr>)
    ensures
        expr_views(es).len() == es.len(),
        forall|k: int| 0 <= k < es.len() ==> #[trigger] expr_views(es)[k] == expr_view(es[k]),
    decreases es.len(),
{
    if es.len() > 0 {
        lemma_expr_views(es.drop_last());
    }
}

impl Sign {
    /// The operator that `token` stands for.
    pub fn from_token(token: &Token) -> (r: Result<Sign, ParseError>)
        ensures
            match r {
                Ok(s) => sign_of(token@) == Some(s),
                Err(e) => sign_of(token@) is None && e@ == ParseErrorView::ExpectedSign(token@),
            },
    {
        match token {
            Token::Plus => Ok(Sign::Add),
            Token::Dash => Ok(Sign::Subtract),
            Token::Star => Ok(Sign::Multiply),
            Token::Slash => Ok(Sign::Divide),
            Token::Semicolon => Ok(Sign::Concat),
            Token::Equals => Ok(Sign::Equal),
            _ => Err(ParseError::ExpectedSign(token.clone())),
        }
    }

    /// How tightly the operator binds.
    pub fn get_precedence(&self) -> (p: i8)
        ensures
            p == precedence(*self),
    {
        match self {
            Sign::Add => 1,
            Sign::Subtract => 1,
            Sign::Multiply => 2,
            Sign::Divide => 2,
            Sign::Concat => 1,
            Sign::Equal => 1,
        }
    }

    /// Whether `token` stands for an operator.
    pub fn is_sign(token: &Token) -> (r: bool)
        ensures
            r == sign_of(token@).is_some(),
    {
        match token {
            Token::Plus | Token::Dash | Token::Star | Token::Slash | Token::Semicolon
            | Token::Equals => true,
            _ => false,
        }
    }
}

impl Type {
    /// The type that `token` names.
    pub fn from_token(token: Token) -> (r: Result<Type, ParseError>)
        ensures
            match r {
                Ok(t) => type_of_token(token@) == Some(t),
                Err(e) => type_of_token(token@) is None && e@ == ParseErrorView::ExpectedType(
                    token@,
                ),
            },
    {
        match token {
            Token::TypeString => Ok(Type::String),
            Token::TypeInt => Ok(Type::Int),
            Token::TypeBool => Ok(Type::Bool),
            Token::TypeAny => Ok(Type::Any),
            _ => Err(ParseError::ExpectedType(token)),
        }
    }
}

/// What a parse returned and where it left the cursor, with the
/// expression and the error taken by their values.
pub open spec fn parsed(r: Result<Expr, ParseError>, end: int) -> Result<
    (ExprView, int),
    ParseErrorView,
> {
    match r {
        Ok(e) => Ok((e@, end)),
        Err(e) => Err(e@),
    }
}

/// `sign` applied to `left` and `right`.
pub fn make_binary(sign: Sign, left: Expr, right: Expr) -> (r: Expr)
    ensures
        r@ == ExprView::binary(sign, left@, right@),
{
    let mut summands: Vec<Expr> = Vec::new();
    summands.push(left);
    summands.push(right);
    proof {
        lemma_expr_views(summands@);
        assert(expr_views(summands@) =~= seq![left@, right@]);
    }
    Expr::SumExpr { sign, summands }
}

/// The operator that the next token stands for, if any.
fn next_sign(ctx: &ParserContext) -> (r: Option<Sign>)
    ensures
        r == sign_at(ctx.views(), ctx.i as int),
{
    if ctx.i >= ctx.tokens.len() {
        return None;
    }
    match Sign::from_token(&ctx.tokens[ctx.i]) {
        Ok(s) => Some(s),
        Err(_) => None,
    }
}

/// Whether `next` is an operator that binds with `min_precedence` or
/// more.
fn binds(next: Option<Sign>, min_precedence: i8) -> (r: bool)
    ensures
        r == (next matches Some(op) && precedence(op) >= min_precedence),
{
    match next {
        Some(op) => op.get_precedence() >= min_precedence,
        None => false,
    }
}

/// Parses one expression at the cursor and leaves the cursor after it.
pub fn parse_expr(ctx: &mut ParserContext) -> (r: Result<Expr, ParseError>)
    ensures
        final(ctx).tokens == old(ctx).tokens,
        parsed(r, final(ctx).i as int) == expr(old(ctx).views(), old(ctx).i as int),
        r matches Ok(e) ==> e@.wf() && old(ctx).i < final(ctx).i <= old(ctx).tokens.len(),
    decreases old(ctx).tokens.len() - old(ctx).i, 2int,
{
    proof {
        lemma_parses_advance(ctx.views(), ctx.i as int);
        lemma_unary(ctx.views(), ctx.i as int);
    }
    match parse_primary(ctx) {
        Ok(primary) => parse_expr_1(ctx, primary, 0),
        Err(e) => Err(e),
    }
}

/// With `lhs` already parsed and the cursor after it, parses the chain
/// of operators that follow and bind with `min_precedence` or more, each
/// with its right operand, by precedence climbing.
pub fn parse_expr_1(ctx: &mut ParserContext, lhs: Expr, min_precedence: i8) -> (r: Result<
    Expr,
    ParseError,
>)
    ensures
        final(ctx).tokens == old(ctx).tokens,
        parsed(r, final(ctx).i as int) == tail(
            old(ctx).views(),
            old(ctx).i as int,
            lhs@,
            min_precedence as int,
        ),
        r is Ok ==> old(ctx).i <= final(ctx).i,
    decreases old(ctx).tokens.len() - old(ctx).i, 1int,
{
    let ghost toks = ctx.views();
    let ghost start = ctx.i as int;
    let ghost min = min_precedence as int;
    let ghost first = lhs@;
    let mut acc = lhs;
    let mut next = next_sign(ctx);
    let mut go = binds(next, min_precedence);
    while go
        invariant
            go == !stops(toks, ctx.i as int, min),
            ctx.tokens == old(ctx).tokens,
            toks == old(ctx).views(),
            start == old(ctx).i,
            min == min_precedence,
            first == lhs@,
            start <= ctx.i,
            next == sign_at(toks, ctx.i as int),
            tail(toks, start, first, min) == tail(toks, ctx.i as int, acc@, min),
        decreases ctx.tokens.len() - ctx.i,
    {
        let op = next.unwrap();
        let p = op.get_precedence();
        let ghost at = ctx.i as int;
        ctx.i += 1;
        proof {
            lemma_operand(toks, at + 1, p as int);
            lemma_unary(toks, at + 1);
        }
        let mut rhs = match parse_primary(ctx) {
            Ok(e) => e,
            Err(e) => {
                return Err(e);
            },
        };
        let mut climb = match next_sign(ctx) {
            Some(s) => s.get_precedence() > p,
            None => false,
        };
        while climb
            invariant
                ctx.tokens == old(ctx).tokens,
                toks == old(ctx).views(),
                start == old(ctx).i,
                min == min_precedence,
                first == lhs@,
                start <= at,
                at + 1 < ctx.i <= toks.len(),
                p == precedence(op),
                sign_at(toks, at) == Some(op),
                p >= min,
                climb == !stops(toks, ctx.i as int, p + 1),
                tail(toks, start, first, min) == tail(toks, at, acc@, min),
                operand(toks, at + 1, p as int) == (if p < 2 {
                    term_tail(toks, ctx.i as int, rhs@)
                } else {
                    Ok((rhs@, ctx.i as int))
                }),
            decreases ctx.tokens.len() - ctx.i,
        {
            proof {
                lemma_tail_tight(toks, ctx.i as int, rhs@);
                lemma_tail(toks, ctx.i as int, rhs@, 2);
            }
            rhs = match parse_expr_1(ctx, rhs, p + 1) {
                Ok(e) => e,
                Err(e) => {
                    return Err(e);
                },
            };
            climb = match next_sign(ctx) {
                Some(s) => s.get_precedence() > p,
                None => false,
            };
        }
        proof {
            lemma_tail(toks, ctx.i as int, ExprView::binary(op, acc@, rhs@), min);
        }
        acc = make_binary(op, acc, rhs);
        next = next_sign(ctx);
        go = binds(next, min_precedence);
    }
    Ok(acc)
}

/// Parses one operand at the cursor: a literal, a name, `!` and an
/// operand, or an expression in parentheses.
pub fn parse_primary(ctx: &mut ParserContext) -> (r: Result<Expr, ParseError>)
    ensures
        final(ctx).tokens == old(ctx).tokens,
        parsed(r, final(ctx).i as int) == unary(old(ctx).views(), old(ctx).i as int),
    decreases old(ctx).tokens.len() - old(ctx).i, 0int,
{
    let token = match ctx.next_token() {
        Ok(t) => t,
        Err(e) => {
            return Err(e);
        },
    };
    match token {
        Token::StringLit(s) => Ok(Expr::StringLit(s)),
        Token::IntLit(n) => Ok(Expr::Int(n)),
        Token::False => Ok(Expr::Bool(false)),
        Token::True => Ok(Expr::Bool(true)),
        Token::Bang => match parse_primary(ctx) {
            Ok(e) => Ok(Expr::Not(Box::new(e))),
            Err(e) => Err(e),
        },
        Token::Ident(s) => Ok(Expr::Ident(s)),
        Token::OpenParen => match parse_expr(ctx) {
            Ok(e) => match ctx.expect_token(Token::CloseParen) {
                Ok(_) => Ok(e),
                Err(err) => Err(err),
            },
            Err(err) => Err(err),
        },
        other => Err(ParseError::ExpectedExpression(other)),
    }
}

impl Expr {
    /// Whether every operator in the tree has exactly two operands.
    pub fn is_wf(&self) -> (r: bool)
        ensures
            r == self@.wf(),
        decreases self,
    {
        match self {
            Expr::SumExpr { sign, summands } => {
                proof {
                    lemma_expr_views(summands@);
                }
                summands.len() == 2 && summands[0].is_wf() && summands[1].is_wf()
            },
            Expr::Not(inner) => inner.is_wf(),
            _ => true,
        }
    }
}

/// A copy of `e`.
fn clone_expr(e: &Expr) -> (r: Expr)
    ensures
        r@ == e@,
    decreases e, 1nat,
{
    match e {
        Expr::SumExpr { sign, summands } => Expr::SumExpr {
            sign: *sign,
            summands: clone_exprs(summands),
        },
        Expr::StringLit(s) => Expr::StringLit(s.clone()),
        Expr::Int(n) => Expr::Int(*n),
        Expr::Bool(b) => Expr::Bool(*b),
        Expr::Not(inner) => Expr::Not(Box::new(clone_expr(inner))),
        Expr::Ident(s) => Expr::Ident(s.clone()),
    }
}

/// A copy of `es`.
fn clone_exprs(es: &Vec<Expr>) -> (r: Vec<Expr>)
    ensures
        expr_views(r@) == expr_views(es@),
    decreases es, 0nat,
{
    let mut copies: Vec<Expr> = Vec::new();
    let mut i: usize = 0;
    while i < es.len()
        invariant
            i <= es.len(),
            copies.len() == i,
            forall|k: int| 0 <= k < i ==> expr_view(#[trigger] copies[k]) == expr_view(es[k]),
        decreases es.len() - i,
    {
        copies.push(clone_expr(&es[i]));
        i += 1;
    }
    proof {
        lemma_expr_views(copies@);
        lemma_expr_views(es@);
    }
    copies
}

impl Clone for Expr {
    fn clone(&self) -> (r: Self)
        ensures
            r@ == self@,
    {
        clone_expr(self)
    }
}

} // verus!
