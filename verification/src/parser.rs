//! Statements: their syntax tree, the cursor over tokens, and the
//! statement grammar.

use vstd::prelude::*;
use crate::error::{ParseError, ParseErrorView};
use crate::expr::{
    advancing, expr, expr_view, lemma_parses_advance, lemma_unary, make_binary, parse_expr,
    parse_primary, sign_of, token_at, type_of_token, unary, Expr, ExprView, Sign, Type,
};
use crate::lexer::{token_views, Token, TokenView};

verus! {

/// A statement.
#[derive(Debug, PartialEq, Eq)]
pub enum Node {
    Print(Expr),
    Exit(Expr),
    /// Declares `ident` with the value of `expr`; `var_type` is the
    /// declared type, or `Auto` for that of the value.
    Let { ident: String, expr: Expr, var_type: Type },
    Assign { ident: String, expr: Expr },
    /// `body` is a `Scope`.
    If { expr: Expr, body: Box<Node> },
    /// `body` is a `Scope`.
    While { expr: Expr, body: Box<Node> },
    Scope(Vec<Node>),
}

/// The mathematical value of a [`Node`].
pub enum NodeView {
    Print(ExprView),
    Exit(ExprView),
    Let { ident: Seq<char>, expr: ExprView, var_type: Type },
    Assign { ident: Seq<char>, expr: ExprView },
    If { expr: ExprView, body: Box<NodeView> },
    While { expr: ExprView, body: Box<NodeView> },
    Scope(Seq<NodeView>),
}

/// The values of a sequence of statements, in order.
pub open spec fn node_views(nodes: Seq<Node>) -> Seq<NodeView>
    decreases nodes, 0int,
{
    if nodes.len() == 0 {
        Seq::empty()
    } else {
        node_views(nodes.drop_last()).push(node_view(nodes.last()))
    }
}

/// The value of a statement.
pub open spec fn node_view(node: Node) -> NodeView
    decreases node, 1int,
{
    match node {
        Node::Print(e) => NodeView::Print(expr_view(e)),
        Node::Exit(e) => NodeView::Exit(expr_view(e)),
        Node::Let { ident, expr, var_type } => NodeView::Let {
            ident: ident@,
            expr: expr_view(expr),
            var_type,
        },
        Node::Assign { ident, expr } => NodeView::Assign { ident: ident@, expr: expr_view(expr) },
        Node::If { expr, body } => NodeView::If {
            expr: expr_view(expr),
            body: Box::new(node_view(*body)),
        },
        Node::While { expr, body } => NodeView::While {
            expr: expr_view(expr),
            body: Box::new(node_view(*body)),
        },
        Node::Scope(nodes) => NodeView::Scope(node_views(nodes@)),
    }
}

impl View for Node {
    type V = NodeView;

    open spec fn view(&self) -> NodeView {
        node_view(*self)
    }
}

impl NodeView {
    /// The body of every `If` and `While` in the tree is a `Scope`, and
    /// every operator has two operands.
    pub open spec fn wf(self) -> bool
        decreases self, 1int,
    {
        match self {
            NodeView::Print(e) => e.wf(),
            NodeView::Exit(e) => e.wf(),
            NodeView::Let { ident, expr, var_type } => expr.wf(),
            NodeView::Assign { ident, expr } => expr.wf(),
            NodeView::If { expr, body } => expr.wf() && *body is Scope && body.wf(),
            NodeView::While { expr, body } => expr.wf() && *body is Scope && body.wf(),
            NodeView::Scope(nodes) => all_wf(nodes),
        }
    }
}

/// Every statement of the sequence is well formed.
pub open spec fn all_wf(nodes: Seq<NodeView>) -> bool
    decreases nodes, 0int,
{
    nodes.len() > 0 ==> all_wf(nodes.drop_last()) && nodes.last().wf()
}

/// A cursor over a sequence of tokens.
pub struct ParserContext {
    pub tokens: Vec<Token>,
    /// How many tokens have been consumed.
    pub i: usize,
}

impl ParserContext {
    /// The values of the tokens.
    pub open spec fn views(&self) -> Seq<TokenView> {
        token_views(self.tokens@)
    }

    /// The token `ahead` places after the next one, without consuming
    /// anything; fails if that lies past the last token.
    pub fn peek(&self, ahead: usize) -> (r: Result<Token, ParseError>)
        ensures
            match r {
                Ok(t) => token_at(self.views(), self.i + ahead) == Some(t@),
                Err(e) => e@ == ParseErrorView::UnexpectedEnd && token_at(
                    self.views(),
                    self.i + ahead,
                ) is None,
            },
    {
        if self.i >= self.tokens.len() || ahead >= self.tokens.len() - self.i {
            return Err(ParseError::UnexpectedEnd);
        }
        Ok(self.tokens[self.i + ahead].clone())
    }

    /// Consumes and returns the next token; fails after the last one,
    /// leaving the cursor where it was.
    pub fn next_token(&mut self) -> (r: Result<Token, ParseError>)
        ensures
            final(self).tokens == old(self).tokens,
            match r {
                Ok(t) => token_at(old(self).views(), old(self).i as int) == Some(t@) && final(self).i == old(self).i + 1,
                Err(e) => e@ == ParseErrorView::UnexpectedEnd && token_at(
                    old(self).views(),
                    old(self).i as int,
                ) is None && final(self).i == old(self).i,
            },
    {
        if self.i >= self.tokens.len() {
            return Err(ParseError::UnexpectedEnd);
        }
        let token = self.tokens[self.i].clone();
        self.i += 1;
        Ok(token)
    }

    /// Whether the next token is `token`. Consumes nothing.
    pub fn check_token(&mut self, token: Token) -> (r: bool)
        ensures
            *final(self) == *old(self),
            r == (token_at(old(self).views(), old(self).i as int) == Some(token@)),
    {
        if self.i >= self.tokens.len() {
            return false;
        }
        self.tokens[self.i].same(&token)
    }

    /// Consumes the next token if it is `token`; otherwise fails, naming
    /// what was required and what stood there, and consumes nothing.
    pub fn expect_token(&mut self, token: Token) -> (r: Result<Token, ParseError>)
        ensures
            final(self).tokens == old(self).tokens,
            match r {
                Ok(t) => t@ == token@ && token_at(old(self).views(), old(self).i as int) == Some(
                    token@,
                ) && final(self).i == old(self).i + 1,
                Err(e) => e@ == (ParseErrorView::Expected {
                    expected: token@,
                    found: token_at(old(self).views(), old(self).i as int),
                }) && token_at(old(self).views(), old(self).i as int) != Some(token@) && final(self).i == old(self).i,
            },
    {
        if self.i >= self.tokens.len() {
            return Err(ParseError::Expected { expected: token, found: None });
        }
        if self.tokens[self.i].same(&token) {
            self.next_token()
        } else {
            let found = self.tokens[self.i].clone();
            Err(ParseError::Expected { expected: token, found: Some(found) })
        }
    }

    /// A cursor at the first of `tokens`.
    pub fn new(tokens: Vec<Token>) -> (r: Self)
        ensures
            r.tokens == tokens,
            r.i == 0,
    {
        Self { tokens, i: 0 }
    }
}

/// The argument of `print` and `exit` from position `i`: an expression
/// in parentheses where a parenthesis opens there, and otherwise an
/// expression that stands bare.
pub open spec fn argument(tokens: Seq<TokenView>, i: int) -> Result<(ExprView, int), ParseErrorView> {
    if token_at(tokens, i) == Some(TokenView::OpenParen) {
        unary(tokens, i)
    } else {
        expr(tokens, i)
    }
}

/// The initializer or new value of `ident`, from position `i`, made
/// into a statement by `make`.
pub open spec fn with_expr(
    tokens: Seq<TokenView>,
    i: int,
    make: spec_fn(ExprView) -> NodeView,
) -> Result<(NodeView, int), ParseErrorView> {
    match expr(tokens, i) {
        Ok((e, j)) => Ok((make(e), j)),
        Err(e) => Err(e),
    }
}

/// The error of a position that does not hold `t`.
pub open spec fn expected(tokens: Seq<TokenView>, i: int, t: TokenView) -> ParseErrorView {
    ParseErrorView::Expected { expected: t, found: token_at(tokens, i) }
}

/// Whether an operator can be combined with `=` into an assignment.
pub open spec fn compound(op: Sign) -> bool {
    op == Sign::Add || op == Sign::Subtract || op == Sign::Multiply || op == Sign::Divide
}

/// The statement that begins with the name `ident` at position `i`: a
/// declaration, an assignment or a compound assignment.
pub open spec fn named(tokens: Seq<TokenView>, i: int, ident: Seq<char>) -> Result<
    (NodeView, int),
    ParseErrorView,
> {
    match token_at(tokens, i + 1) {
        None => Err(ParseErrorView::UnexpectedEnd),
        Some(TokenView::Colon) => if token_at(tokens, i + 2) == Some(TokenView::Equals) {
            with_expr(
                tokens,
                i + 3,
                |e: ExprView| NodeView::Let { ident, expr: e, var_type: Type::Auto },
            )
        } else {
            match token_at(tokens, i + 2) {
                None => Err(ParseErrorView::UnexpectedEnd),
                Some(t) => match type_of_token(t) {
                    None => Err(ParseErrorView::ExpectedType(t)),
                    Some(var_type) => if token_at(tokens, i + 3) == Some(TokenView::Equals) {
                        with_expr(
                            tokens,
                            i + 4,
                            |e: ExprView| NodeView::Let { ident, expr: e, var_type },
                        )
                    } else {
                        Err(expected(tokens, i + 3, TokenView::Equals))
                    },
                },
            }
        },
        Some(TokenView::Equals) => with_expr(
            tokens,
            i + 2,
            |e: ExprView| NodeView::Assign { ident, expr: e },
        ),
        Some(t) => match sign_of(t) {
            Some(op) => if compound(op) {
                if token_at(tokens, i + 2) == Some(TokenView::Equals) {
                    with_expr(
                        tokens,
                        i + 3,
                        |e: ExprView|
                            NodeView::Assign {
                                ident,
                                expr: ExprView::binary(op, ExprView::Ident(ident), e),
                            },
                    )
                } else {
                    Err(expected(tokens, i + 2, TokenView::Equals))
                }
            } else {
                Err(ParseErrorView::UnexpectedToken(t))
            },
            None => Err(ParseErrorView::UnexpectedToken(t)),
        },
    }
}

/// A condition and the block in braces that it guards, from position
/// `i`: the condition, the statements of the block, and the position
/// after the closing brace.
pub open spec fn guarded(tokens: Seq<TokenView>, i: int) -> Result<
    (ExprView, Seq<NodeView>, int),
    ParseErrorView,
>
    decreases tokens.len() - i, 0int,
{
    match advancing(tokens, i, expr(tokens, i)) {
        Ok((cond, j)) => if token_at(tokens, j) == Some(TokenView::OpenBrace) {
            match block(tokens, j + 1, true) {
                Ok((nodes, k)) => Ok((cond, nodes, k)),
                Err(e) => Err(e),
            }
        } else {
            Err(expected(tokens, j, TokenView::OpenBrace))
        },
        Err(e) => Err(e),
    }
}

/// The statement that starts at position `i`, and the position after it.
pub open spec fn statement(tokens: Seq<TokenView>, i: int) -> Result<(NodeView, int), ParseErrorView>
    decreases tokens.len() - i, 0int,
{
    match token_at(tokens, i) {
        None => Err(ParseErrorView::UnexpectedEnd),
        Some(TokenView::Print) => match argument(tokens, i + 1) {
            Ok((e, j)) => Ok((NodeView::Print(e), j)),
            Err(e) => Err(e),
        },
        Some(TokenView::Exit) => match argument(tokens, i + 1) {
            Ok((e, j)) => Ok((NodeView::Exit(e), j)),
            Err(e) => Err(e),
        },
        Some(TokenView::OpenBrace) => match block(tokens, i + 1, true) {
            Ok((nodes, j)) => Ok((NodeView::Scope(nodes), j)),
            Err(e) => Err(e),
        },
        Some(TokenView::If) => match guarded(tokens, i + 1) {
            Ok((cond, nodes, k)) => Ok(
                (NodeView::If { expr: cond, body: Box::new(NodeView::Scope(nodes)) }, k),
            ),
            Err(e) => Err(e),
        },
        Some(TokenView::While) => match guarded(tokens, i + 1) {
            Ok((cond, nodes, k)) => Ok(
                (NodeView::While { expr: cond, body: Box::new(NodeView::Scope(nodes)) }, k),
            ),
            Err(e) => Err(e),
        },
        Some(TokenView::Ident(ident)) => named(tokens, i, ident),
        Some(t) => Err(ParseErrorView::UnexpectedToken(t)),
    }
}

/// The statements from position `i` to the end of their block, and the
/// position after it. A block that was opened by a brace (`nested`) ends
/// at its closing brace, which is consumed; the outermost one ends with
/// the input.
pub open spec fn block(tokens: Seq<TokenView>, i: int, nested: bool) -> Result<
    (Seq<NodeView>, int),
    ParseErrorView,
>
    decreases tokens.len() - i, 1int,
{
    if i >= tokens.len() {
        if nested {
            Err(ParseErrorView::UnexpectedEnd)
        } else {
            Ok((Seq::empty(), i))
        }
    } else if token_at(tokens, i) == Some(TokenView::CloseBrace) {
        if nested {
            Ok((Seq::empty(), i + 1))
        } else {
            Err(ParseErrorView::UnexpectedCloseBrace)
        }
    } else {
        match statement(tokens, i) {
            Ok((node, j)) => if i < j <= tokens.len() {
                match block(tokens, j, nested) {
                    Ok((rest, k)) => Ok((seq![node] + rest, k)),
                    Err(e) => Err(e),
                }
            } else {
                Err(ParseErrorView::UnexpectedEnd)
            },
            Err(e) => Err(e),
        }
    }
}

/// The statements of a whole program.
pub open spec fn program(tokens: Seq<TokenView>) -> Result<Seq<NodeView>, ParseErrorView> {
    match block(tokens, 0, false) {
        Ok((nodes, _)) => Ok(nodes),
        Err(e) => Err(e),
    }
}

/// The values of a sequence of statements are the values of its
/// members.
pub proof fn lemma_node_views(nodes: Seq<Node>)
    ensures
        node_views(nodes).len() == nodes.len(),
        forall|k: int| 0 <= k < nodes.len() ==> #[trigger] node_views(nodes)[k] == node_view(nodes[k]),
    decreases nodes.len(),
{
    if nodes.len() > 0 {
        lemma_node_views(nodes.drop_last());
    }
}

/// A sequence is well formed exactly when each of its statements is.
pub proof fn lemma_all_wf(nodes: Seq<NodeView>)
    ensures
        all_wf(nodes) <==> forall|k: int| 0 <= k < nodes.len() ==> (#[trigger] nodes[k]).wf(),
    decreases nodes.len(),
{
    if nodes.len() > 0 {
        lemma_all_wf(nodes.drop_last());
        if all_wf(nodes) {
            assert forall|k: int| 0 <= k < nodes.len() implies (#[trigger] nodes[k]).wf() by {
                if k < nodes.len() - 1 {
                    assert(nodes.drop_last()[k] == nodes[k]);
                }
            }
        } else if forall|k: int| 0 <= k < nodes.len() ==> (#[trigger] nodes[k]).wf() {
            assert forall|k: int| 0 <= k < nodes.drop_last().len() implies (
            #[trigger] nodes.drop_last()[k]).wf() by {
                assert(nodes.drop_last()[k] == nodes[k]);
            }
        }
    }
}

/// A declaration or assignment consumes at least two tokens, ends
/// inside the input and is well formed.
pub proof fn lemma_named(tokens: Seq<TokenView>, i: int, ident: Seq<char>)
    requires
        0 <= i,
    ensures
        match named(tokens, i, ident) {
            Ok((node, j)) => i + 1 < j <= tokens.len() && node.wf(),
            Err(_) => true,
        },
{
    lemma_parses_advance(tokens, i + 2);
    lemma_parses_advance(tokens, i + 3);
    lemma_parses_advance(tokens, i + 4);
    assert(ExprView::Ident(ident).wf());
}

/// A condition with its block consumes at least three tokens, ends
/// inside the input and is well formed.
pub proof fn lemma_guarded(tokens: Seq<TokenView>, i: int)
    requires
        0 <= i,
    ensures
        match guarded(tokens, i) {
            Ok((cond, nodes, k)) => i + 2 < k <= tokens.len() && cond.wf() && all_wf(nodes),
            Err(_) => true,
        },
        guarded(tokens, i) == (match expr(tokens, i) {
            Ok((cond, j)) => if token_at(tokens, j) == Some(TokenView::OpenBrace) {
                match block(tokens, j + 1, true) {
                    Ok((nodes, k)) => Ok((cond, nodes, k)),
                    Err(e) => Err(e),
                }
            } else {
                Err(expected(tokens, j, TokenView::OpenBrace))
            },
            Err(e) => Err(e),
        }),
    decreases tokens.len() - i, 0int,
{
    lemma_parses_advance(tokens, i);
    match expr(tokens, i) {
        Ok((cond, j)) => {
            if token_at(tokens, j) == Some(TokenView::OpenBrace) {
                lemma_block(tokens, j + 1, true);
            }
        },
        Err(_) => {},
    }
}

/// A statement consumes at least one token, ends inside the input and is
/// well formed.
pub proof fn lemma_statement(tokens: Seq<TokenView>, i: int)
    ensures
        match statement(tokens, i) {
            Ok((node, j)) => 0 <= i < j <= tokens.len() && node.wf(),
            Err(_) => true,
        },
    decreases tokens.len() - i, 0int,
{
    match token_at(tokens, i) {
        Some(TokenView::Print) | Some(TokenView::Exit) => {
            lemma_unary(tokens, i + 1);
            lemma_parses_advance(tokens, i + 1);
        },
        Some(TokenView::OpenBrace) => {
            lemma_block(tokens, i + 1, true);
        },
        Some(TokenView::If) | Some(TokenView::While) => {
            lemma_guarded(tokens, i + 1);
            match guarded(tokens, i + 1) {
                Ok((cond, nodes, k)) => {
                    assert(NodeView::Scope(nodes).wf());
                },
                Err(_) => {},
            }
        },
        Some(TokenView::Ident(ident)) => {
            lemma_named(tokens, i, ident);
        },
        _ => {},
    }
}

/// A block ends inside the input, every statement of it is well formed,
/// and each of its statements consumed something.
pub proof fn lemma_block(tokens: Seq<TokenView>, i: int, nested: bool)
    requires
        0 <= i,
    ensures
        match block(tokens, i, nested) {
            Ok((nodes, j)) => i <= j && (i <= tokens.len() ==> j <= tokens.len()) && all_wf(nodes)
                && (nested ==> i < j),
            Err(_) => true,
        },
        i < tokens.len() && token_at(tokens, i) != Some(TokenView::CloseBrace) ==> block(
            tokens,
            i,
            nested,
        ) == (match statement(tokens, i) {
            Ok((node, j)) => match block(tokens, j, nested) {
                Ok((rest, k)) => Ok((seq![node] + rest, k)),
                Err(e) => Err(e),
            },
            Err(e) => Err(e),
        }),
    decreases tokens.len() - i, 1int,
{
    if i < tokens.len() && token_at(tokens, i) != Some(TokenView::CloseBrace) {
        lemma_statement(tokens, i);
        match statement(tokens, i) {
            Ok((node, j)) => {
                lemma_block(tokens, j, nested);
                match block(tokens, j, nested) {
                    Ok((rest, k)) => {
                        let all = seq![node] + rest;
                        lemma_all_wf(rest);
                        lemma_all_wf(all);
                        assert forall|m: int| 0 <= m < all.len() implies (#[trigger] all[m]).wf() by {
                            if m > 0 {
                                assert(all[m] == rest[m - 1]);
                            }
                        }
                    },
                    Err(_) => {},
                }
            },
            Err(_) => {},
        }
    }
}

/// What a statement parse returned and where it left the cursor, taken
/// by their values.
pub open spec fn parsed_node(r: Result<Node, ParseError>, end: int) -> Result<
    (NodeView, int),
    ParseErrorView,
> {
    match r {
        Ok(node) => Ok((node@, end)),
        Err(e) => Err(e@),
    }
}

/// What a block parse returned and where it left the cursor, taken by
/// their values.
pub open spec fn parsed_nodes(r: Result<Vec<Node>, ParseError>, end: int) -> Result<
    (Seq<NodeView>, int),
    ParseErrorView,
> {
    match r {
        Ok(nodes) => Ok((node_views(nodes@), end)),
        Err(e) => Err(e@),
    }
}

/// Parses the argument of `print` or `exit` at the cursor.
fn parse_argument(ctx: &mut ParserContext) -> (r: Result<Expr, ParseError>)
    ensures
        final(ctx).tokens == old(ctx).tokens,
        crate::expr::parsed(r, final(ctx).i as int) == argument(old(ctx).views(), old(ctx).i as int),
{
    if ctx.check_token(Token::OpenParen) {
        parse_primary(ctx)
    } else {
        parse_expr(ctx)
    }
}

/// The nesting depth of a block opened at depth `scope`: one more, or
/// `scope` itself where the count can go no higher. It is never 0.
fn deeper(scope: usize) -> (r: usize)
    ensures
        r == if scope < usize::MAX {
            scope + 1
        } else {
            scope as int
        },
        r > 0,
{
    if scope < usize::MAX {
        scope + 1
    } else {
        scope
    }
}

/// With the cursor after the name `ident`, parses the rest of the
/// declaration or assignment that it begins.
fn parse_named(ctx: &mut ParserContext, ident: String) -> (r: Result<Node, ParseError>)
    requires
        0 < old(ctx).i <= old(ctx).tokens.len(),
    ensures
        final(ctx).tokens == old(ctx).tokens,
        parsed_node(r, final(ctx).i as int) == named(old(ctx).views(), old(ctx).i - 1, ident@),
{
    let token = match ctx.next_token() {
        Ok(t) => t,
        Err(e) => {
            return Err(e);
        },
    };
    match token {
        Token::Colon => {
            if ctx.check_token(Token::Equals) {
                ctx.i += 1;
                match parse_expr(ctx) {
                    Ok(expr) => Ok(Node::Let { ident, expr, var_type: Type::Auto }),
                    Err(e) => Err(e),
                }
            } else {
                let named_type = match ctx.next_token() {
                    Ok(t) => t,
                    Err(e) => {
                        return Err(e);
                    },
                };
                let var_type = match Type::from_token(named_type) {
                    Ok(t) => t,
                    Err(e) => {
                        return Err(e);
                    },
                };
                match ctx.expect_token(Token::Equals) {
                    Ok(_) => {},
                    Err(e) => {
                        return Err(e);
                    },
                }
                match parse_expr(ctx) {
                    Ok(expr) => Ok(Node::Let { ident, expr, var_type }),
                    Err(e) => Err(e),
                }
            }
        },
        Token::Equals => match parse_expr(ctx) {
            Ok(expr) => Ok(Node::Assign { ident, expr }),
            Err(e) => Err(e),
        },
        Token::Plus | Token::Dash | Token::Star | Token::Slash => {
            let sign = match Sign::from_token(&token) {
                Ok(s) => s,
                Err(e) => {
                    return Err(e);
                },
            };
            match ctx.expect_token(Token::Equals) {
                Ok(_) => {},
                Err(e) => {
                    return Err(e);
                },
            }
            match parse_expr(ctx) {
                Ok(rhs) => {
                    let target = ident.clone();
                    Ok(Node::Assign { ident, expr: make_binary(sign, Expr::Ident(target), rhs) })
                },
                Err(e) => Err(e),
            }
        },
        other => Err(ParseError::UnexpectedToken(other)),
    }
}

/// The block of `nodes`.
fn scope_of(nodes: Vec<Node>) -> (r: Node)
    ensures
        r@ == NodeView::Scope(node_views(nodes@)),
{
    Node::Scope(nodes)
}

/// Parses a condition and the block in braces that follows it.
fn parse_guarded(ctx: &mut ParserContext, scope: usize) -> (r: Result<(Expr, Vec<Node>), ParseError>)
    requires
        0 < old(ctx).i,
    ensures
        final(ctx).tokens == old(ctx).tokens,
        match r {
            Ok((cond, nodes)) => guarded(old(ctx).views(), old(ctx).i as int) == Ok::<
                (ExprView, Seq<NodeView>, int),
                ParseErrorView,
            >((cond@, node_views(nodes@), final(ctx).i as int)),
            Err(e) => guarded(old(ctx).views(), old(ctx).i as int) == Err::<
                (ExprView, Seq<NodeView>, int),
                ParseErrorView,
            >(e@),
        },
    decreases old(ctx).tokens.len() - old(ctx).i, 0int,
{
    proof {
        lemma_guarded(ctx.views(), ctx.i as int);
    }
    let cond = match parse_expr(ctx) {
        Ok(e) => e,
        Err(e) => {
            return Err(e);
        },
    };
    match ctx.expect_token(Token::OpenBrace) {
        Ok(_) => {},
        Err(e) => {
            return Err(e);
        },
    }
    match parse(ctx, deeper(scope)) {
        Ok(nodes) => Ok((cond, nodes)),
        Err(e) => Err(e),
    }
}

/// Parses one statement at the cursor.
fn parse_statement(ctx: &mut ParserContext, scope: usize) -> (r: Result<Node, ParseError>)
    ensures
        final(ctx).tokens == old(ctx).tokens,
        parsed_node(r, final(ctx).i as int) == statement(old(ctx).views(), old(ctx).i as int),
        r is Ok ==> old(ctx).i < final(ctx).i <= old(ctx).tokens.len(),
    decreases old(ctx).tokens.len() - old(ctx).i, 0int,
{
    let ghost toks = ctx.views();
    let ghost at = ctx.i as int;
    proof {
        lemma_statement(toks, at);
    }
    let token = match ctx.next_token() {
        Ok(t) => t,
        Err(e) => {
            return Err(e);
        },
    };
    match token {
        Token::Print => match parse_argument(ctx) {
            Ok(e) => Ok(Node::Print(e)),
            Err(e) => Err(e),
        },
        Token::Exit => match parse_argument(ctx) {
            Ok(e) => Ok(Node::Exit(e)),
            Err(e) => Err(e),
        },
        Token::OpenBrace => match parse(ctx, deeper(scope)) {
            Ok(nodes) => Ok(Node::Scope(nodes)),
            Err(e) => Err(e),
        },
        Token::If => match parse_guarded(ctx, scope) {
            Ok((expr, nodes)) => Ok(Node::If { expr, body: Box::new(scope_of(nodes)) }),
            Err(e) => Err(e),
        },
        Token::While => match parse_guarded(ctx, scope) {
            Ok((expr, nodes)) => Ok(Node::While { expr, body: Box::new(scope_of(nodes)) }),
            Err(e) => Err(e),
        },
        Token::Ident(ident) => parse_named(ctx, ident),
        other => Err(ParseError::UnexpectedToken(other)),
    }
}

/// `prefix` followed by the statements of `rest`, or the error of
/// `rest`.
pub open spec fn prepend_nodes(
    prefix: Seq<NodeView>,
    rest: Result<(Seq<NodeView>, int), ParseErrorView>,
) -> Result<(Seq<NodeView>, int), ParseErrorView> {
    match rest {
        Ok((nodes, end)) => Ok((prefix + nodes, end)),
        Err(e) => Err(e),
    }
}

/// Parses the statements at the cursor up to the end of their block:
/// with `scope` 0 up to the end of the tokens, and otherwise up to the
/// closing brace of the block, which is consumed.
pub fn parse(ctx: &mut ParserContext, scope: usize) -> (r: Result<Vec<Node>, ParseError>)
    ensures
        final(ctx).tokens == old(ctx).tokens,
        parsed_nodes(r, final(ctx).i as int) == block(
            old(ctx).views(),
            old(ctx).i as int,
            scope > 0,
        ),
        r matches Ok(nodes) ==> all_wf(node_views(nodes@)) && old(ctx).i <= final(ctx).i && (scope
            > 0 ==> old(ctx).i < final(ctx).i),
    decreases old(ctx).tokens.len() - old(ctx).i, 1int,
{
    let ghost toks = ctx.views();
    let ghost start = ctx.i as int;
    let ghost nested = scope > 0;
    let mut nodes: Vec<Node> = Vec::new();
    proof {
        match block(toks, start, nested) {
            Ok((ns, _)) => {
                assert(Seq::<NodeView>::empty() + ns =~= ns);
            },
            Err(_) => {},
        }
    }
    while ctx.i < ctx.tokens.len()
        invariant
            ctx.tokens == old(ctx).tokens,
            toks == old(ctx).views(),
            start == old(ctx).i,
            nested == (scope > 0),
            start <= ctx.i,
            block(toks, start, nested) == prepend_nodes(
                node_views(nodes@),
                block(toks, ctx.i as int, nested),
            ),
        decreases ctx.tokens.len() - ctx.i,
    {
        let ghost at = ctx.i as int;
        let ghost before = node_views(nodes@);
        proof {
            lemma_block(toks, at, nested);
        }
        if ctx.check_token(Token::CloseBrace) {
            if scope == 0 {
                return Err(ParseError::UnexpectedCloseBrace);
            }
            ctx.i += 1;
            proof {
                lemma_block(toks, start, nested);
            }
            return Ok(nodes);
        }
        let node = match parse_statement(ctx, scope) {
            Ok(n) => n,
            Err(e) => {
                return Err(e);
            },
        };
        proof {
            lemma_node_views(nodes@);
            lemma_node_views(nodes@.push(node));
            assert(node_views(nodes@.push(node)) =~= before.push(node@));
            match block(toks, ctx.i as int, nested) {
                Ok((rest, _)) => {
                    assert(before + (seq![node@] + rest) =~= before.push(node@) + rest);
                },
                Err(_) => {},
            }
        }
        nodes.push(node);
    }
    if scope > 0 {
        return Err(ParseError::UnexpectedEnd);
    }
    proof {
        lemma_block(toks, start, nested);
    }
    Ok(nodes)
}

impl Node {
    /// Whether the body of every `If` and `While` in the tree is a
    /// `Scope`, and every operator has two operands.
    pub fn is_wf(&self) -> (r: bool)
        ensures
            r == self@.wf(),
        decreases self, 1nat,
    {
        match self {
            Node::Print(e) => e.is_wf(),
            Node::Exit(e) => e.is_wf(),
            Node::Let { ident, expr, var_type } => expr.is_wf(),
            Node::Assign { ident, expr } => expr.is_wf(),
            Node::If { expr, body } => expr.is_wf() && body.is_scope() && body.is_wf(),
            Node::While { expr, body } => expr.is_wf() && body.is_scope() && body.is_wf(),
            Node::Scope(nodes) => all_are_wf(nodes),
        }
    }

    /// Whether the statement is a block.
    pub fn is_scope(&self) -> (r: bool)
        ensures
            r == (self@ is Scope),
    {
        match self {
            Node::Scope(_) => true,
            _ => false,
        }
    }
}

/// Whether every statement of `nodes` is well formed, which is what
/// running them asks for.
pub fn all_are_wf(nodes: &Vec<Node>) -> (r: bool)
    ensures
        r == all_wf(node_views(nodes@)),
    decreases nodes, 0nat,
{
    proof {
        lemma_node_views(nodes@);
        lemma_all_wf(node_views(nodes@));
    }
    let mut i: usize = 0;
    while i < nodes.len()
        invariant
            i <= nodes.len(),
            node_views(nodes@).len() == nodes.len(),
            forall|k: int|
                0 <= k < nodes.len() ==> #[trigger] node_views(nodes@)[k] == node_view(nodes[k]),
            forall|k: int| 0 <= k < i ==> (#[trigger] node_views(nodes@)[k]).wf(),
            all_wf(node_views(nodes@)) <==> forall|k: int|
                0 <= k < nodes.len() ==> (#[trigger] node_views(nodes@)[k]).wf(),
        decreases nodes.len() - i,
    {
        if !nodes[i].is_wf() {
            assert(!node_views(nodes@)[i as int].wf());
            return false;
        }
        i += 1;
    }
    true
}

/// A copy of `node`.
fn clone_node(node: &Node) -> (r: Node)
    ensures
        r@ == node@,
    decreases node, 1nat,
{
    match node {
        Node::Print(e) => Node::Print(e.clone()),
        Node::Exit(e) => Node::Exit(e.clone()),
        Node::Let { ident, expr, var_type } => Node::Let {
            ident: ident.clone(),
            expr: expr.clone(),
            var_type: *var_type,
        },
        Node::Assign { ident, expr } => Node::Assign { ident: ident.clone(), expr: expr.clone() },
        Node::If { expr, body } => Node::If { expr: expr.clone(), body: Box::new(clone_node(body)) },
        Node::While { expr, body } => Node::While {
            expr: expr.clone(),
            body: Box::new(clone_node(body)),
        },
        Node::Scope(nodes) => Node::Scope(clone_nodes(nodes)),
    }
}

/// A copy of `nodes`.
fn clone_nodes(nodes: &Vec<Node>) -> (r: Vec<Node>)
    ensures
        node_views(r@) == node_views(nodes@),
    decreases nodes, 0nat,
{
    let mut copies: Vec<Node> = Vec::new();
    let mut i: usize = 0;
    while i < nodes.len()
        invariant
            i <= nodes.len(),
            copies.len() == i,
            forall|k: int| 0 <= k < i ==> node_view(#[trigger] copies[k]) == node_view(nodes[k]),
        decreases nodes.len() - i,
    {
        copies.push(clone_node(&nodes[i]));
        i += 1;
    }
    proof {
        lemma_node_views(copies@);
        lemma_node_views(nodes@);
    }
    copies
}

impl Clone for Node {
    fn clone(&self) -> (r: Self)
        ensures
            r@ == self@,
    {
        clone_node(self)
    }
}

} // verus!
