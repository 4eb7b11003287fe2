//! Laws of the language, proved of its mathematical model.

use vstd::prelude::*;
use crate::error::{EvalErrorView, ParseErrorView};
use crate::expr::{
    expr, operand, precedence, sign_at, sign_of, tail, term_tail, unary, ExprView, Sign, Type,
};
use crate::interpreter::{
    apply, assign, done, eval, failed, fits, innermost, lemma_innermost,
    lemma_innermost_is, is_truthy, lookup, run, run_node, run_nodes, run_scope, run_while,
    text_of, text_of_int, trunc_div, type_of, Frames, InterpreterView, Run, ValueView,
    VariableView,
};
use crate::lexer::{
    alnum_end, digit_end, is_alpha, is_digit, lemma_alnum_end, lemma_digit_end, lemma_quote_at,
    lex_from, quote_at, TokenView,
};
use crate::parser::{all_wf, argument, block, compound, lemma_all_wf, program, statement, NodeView};

verus! {

/// What `+ - * /` compute on two integers.
pub open spec fn native(op: Sign, a: int, b: int) -> int
    recommends
        compound(op),
        op == Sign::Divide ==> b != 0,
{
    match op {
        Sign::Add => a + b,
        Sign::Subtract => a - b,
        Sign::Multiply => a * b,
        _ => trunc_div(a, b),
    }
}

/// A program of one statement runs that statement and leaves the scopes
/// as they were.
pub proof fn law_single_statement(node: NodeView, st: InterpreterView)
    requires
        !st.halted(),
        run_node(node, st.with_scopes(st.scopes.push(Map::empty())), st.step_limit).state.scopes
            == st.scopes.push(Map::empty()),
    ensures
        ({
            let inside = run_node(
                node,
                st.with_scopes(st.scopes.push(Map::empty())),
                st.step_limit,
            );
            run(seq![node], st) == (Run {
                state: inside.state.with_scopes(st.scopes),
                error: inside.error,
            })
        }),
{
    let entered = st.with_scopes(st.scopes.push(Map::empty()));
    let inside = run_node(node, entered, st.step_limit);
    let nodes = seq![node];
    assert(nodes[0] == node);
    assert(run_nodes(nodes, 0, entered, st.step_limit) == if inside.error is Some {
        inside
    } else {
        run_nodes(nodes, 1, inside.state, st.step_limit)
    });
    assert(run_nodes(nodes, 1, inside.state, st.step_limit) == done(inside.state));
    assert(st.scopes.push(Map::empty()).drop_last() =~= st.scopes);
}

/// `exit` with the result of `+`, `-`, `*` or `/` on two integers, the
/// second of which is not zero, sets the exit code to what the operation
/// computes, with `/` rounding toward zero; where that does not fit in
/// 64 signed bits the program stops with an overflow error instead.
/// Nothing is printed.
pub proof fn law_exit_arithmetic(op: Sign, a: i64, b: i64, st: InterpreterView)
    requires
        compound(op),
        b != 0,
        !st.halted(),
    ensures
        ({
            let node = NodeView::Exit(ExprView::binary(op, ExprView::Int(a), ExprView::Int(b)));
            let n = native(op, a as int, b as int);
            run(seq![node], st) == if fits(n) {
                done(st.exited(n as i64))
            } else {
                failed(st, EvalErrorView::Overflow)
            }
        }),
{
    let e = ExprView::binary(op, ExprView::Int(a), ExprView::Int(b));
    let node = NodeView::Exit(e);
    let entered = st.with_scopes(st.scopes.push(Map::empty()));
    assert(e->summands[0] == ExprView::Int(a));
    assert(e->summands[1] == ExprView::Int(b));
    assert(eval(ExprView::Int(a), entered.scopes) == Ok::<ValueView, EvalErrorView>(
        ValueView::_Int(a),
    ));
    assert(eval(ExprView::Int(b), entered.scopes) == Ok::<ValueView, EvalErrorView>(
        ValueView::_Int(b),
    ));
    assert(eval(e, entered.scopes) == apply(op, ValueView::_Int(a), ValueView::_Int(b)));
    law_single_statement(node, st);
}

/// `exit true` sets the exit code to 0 and `exit false` sets it to 1.
pub proof fn law_exit_bool(b: bool, st: InterpreterView)
    requires
        !st.halted(),
    ensures
        run(seq![NodeView::Exit(ExprView::Bool(b))], st) == done(
            st.exited(
                if b {
                    0i64
                } else {
                    1i64
                },
            ),
        ),
{
    law_single_statement(NodeView::Exit(ExprView::Bool(b)), st);
}

/// Division of an integer by zero is an error, whatever the dividend.
pub proof fn law_division_by_zero(left: ExprView, right: ExprView, scopes: Frames, dividend: i64)
    requires
        eval(left, scopes) == Ok::<ValueView, EvalErrorView>(ValueView::_Int(dividend)),
        eval(right, scopes) == Ok::<ValueView, EvalErrorView>(ValueView::_Int(0)),
    ensures
        eval(ExprView::binary(Sign::Divide, left, right), scopes) == Err::<
            ValueView,
            EvalErrorView,
        >(EvalErrorView::DivisionByZero),
{
    let e = ExprView::binary(Sign::Divide, left, right);
    assert(e->summands[0] == left);
    assert(e->summands[1] == right);
}

/// An error in an operand is the error of the whole expression: that of
/// the left operand, or else that of the right one. No value is made up
/// in its place.
pub proof fn law_error_propagates(
    sign: Sign,
    left: ExprView,
    right: ExprView,
    scopes: Frames,
    e: EvalErrorView,
)
    requires
        eval(left, scopes) == Err::<ValueView, EvalErrorView>(e) || (eval(left, scopes) is Ok
            && eval(right, scopes) == Err::<ValueView, EvalErrorView>(e)),
    ensures
        eval(ExprView::binary(sign, left, right), scopes) == Err::<ValueView, EvalErrorView>(e),
        eval(left, scopes) is Err ==> eval(ExprView::Not(Box::new(left)), scopes) == Err::<
            ValueView,
            EvalErrorView,
        >(e),
{
    let whole = ExprView::binary(sign, left, right);
    assert(whole->summands[0] == left);
    assert(whole->summands[1] == right);
}

/// The expression that a statement evaluates first, if it has one.
pub open spec fn expr_of(node: NodeView) -> Option<ExprView> {
    match node {
        NodeView::Print(e) => Some(e),
        NodeView::Exit(e) => Some(e),
        NodeView::Let { ident, expr, var_type } => Some(expr),
        NodeView::Assign { ident, expr } => Some(expr),
        NodeView::If { expr, body } => Some(expr),
        NodeView::While { expr, body } => Some(expr),
        NodeView::Scope(_) => None,
    }
}

/// A statement whose expression fails stops the program with that
/// error and changes nothing: no output, no variable, no exit code.
pub proof fn law_statement_fails(node: NodeView, st: InterpreterView, fuel: nat, e: EvalErrorView)
    requires
        node.wf(),
        expr_of(node) matches Some(x) && eval(x, st.scopes) == Err::<ValueView, EvalErrorView>(e),
    ensures
        run_node(node, st, fuel) == failed(st, e),
{
}

/// A declaration whose initializer is not of the declared type fails
/// with a type error and changes nothing; in particular it prints
/// nothing.
pub proof fn law_declaration_mismatch(
    ident: Seq<char>,
    init: ExprView,
    declared: Type,
    st: InterpreterView,
    fuel: nat,
    v: ValueView,
)
    requires
        eval(init, st.scopes) == Ok::<ValueView, EvalErrorView>(v),
        type_of(v) != declared,
        declared != Type::Auto,
        declared != Type::Any,
    ensures
        run_node(NodeView::Let { ident, expr: init, var_type: declared }, st, fuel) == failed(
            st,
            EvalErrorView::TypeMismatch { expected: declared, found: type_of(v) },
        ),
{
}

/// Joining three strings gives the same string however the two `;` are
/// grouped.
pub proof fn law_concat_associative(
    a: ExprView,
    b: ExprView,
    c: ExprView,
    scopes: Frames,
    x: Seq<char>,
    y: Seq<char>,
    z: Seq<char>,
)
    requires
        eval(a, scopes) == Ok::<ValueView, EvalErrorView>(ValueView::_String(x)),
        eval(b, scopes) == Ok::<ValueView, EvalErrorView>(ValueView::_String(y)),
        eval(c, scopes) == Ok::<ValueView, EvalErrorView>(ValueView::_String(z)),
    ensures
        eval(ExprView::binary(Sign::Concat, ExprView::binary(Sign::Concat, a, b), c), scopes)
            == Ok::<ValueView, EvalErrorView>(ValueView::_String(x + y + z)),
        eval(ExprView::binary(Sign::Concat, a, ExprView::binary(Sign::Concat, b, c)), scopes)
            == Ok::<ValueView, EvalErrorView>(ValueView::_String(x + y + z)),
{
    let ab = ExprView::binary(Sign::Concat, a, b);
    let bc = ExprView::binary(Sign::Concat, b, c);
    let left = ExprView::binary(Sign::Concat, ab, c);
    let right = ExprView::binary(Sign::Concat, a, bc);
    assert(ab->summands[0] == a && ab->summands[1] == b);
    assert(bc->summands[0] == b && bc->summands[1] == c);
    assert(left->summands[0] == ab && left->summands[1] == c);
    assert(right->summands[0] == a && right->summands[1] == bc);
    assert(eval(ab, scopes) == Ok::<ValueView, EvalErrorView>(ValueView::_String(x + y)));
    assert(eval(bc, scopes) == Ok::<ValueView, EvalErrorView>(ValueView::_String(y + z)));
    assert(x + (y + z) =~= x + y + z);
}

/// `;` joins two strings and nothing else: with an operand of another
/// type it is an error.
pub proof fn law_concat_takes_strings(
    a: ExprView,
    b: ExprView,
    scopes: Frames,
    x: ValueView,
    y: ValueView,
)
    requires
        eval(a, scopes) == Ok::<ValueView, EvalErrorView>(x),
        eval(b, scopes) == Ok::<ValueView, EvalErrorView>(y),
        !(x is _String && y is _String),
    ensures
        eval(ExprView::binary(Sign::Concat, a, b), scopes) is Err,
{
    let ab = ExprView::binary(Sign::Concat, a, b);
    assert(ab->summands[0] == a && ab->summands[1] == b);
}

/// The expression that a single token is, if it is a literal or a
/// name.
pub open spec fn atom(t: TokenView) -> Option<ExprView> {
    match t {
        TokenView::StringLit(s) => Some(ExprView::StringLit(s)),
        TokenView::IntLit(n) => Some(ExprView::Int(n)),
        TokenView::True => Some(ExprView::Bool(true)),
        TokenView::False => Some(ExprView::Bool(false)),
        TokenView::Ident(s) => Some(ExprView::Ident(s)),
        _ => None,
    }
}

/// Of two operators in a row the one that binds tighter is applied
/// first, and of two that bind alike the left one: `a + b * c` is
/// `a + (b * c)`, while `a * b + c` is `(a * b) + c` and `a - b - c` is
/// `(a - b) - c`.
pub proof fn law_precedence(
    ta: TokenView,
    t1: TokenView,
    tb: TokenView,
    t2: TokenView,
    tc: TokenView,
)
    requires
        atom(ta) is Some,
        atom(tb) is Some,
        atom(tc) is Some,
        sign_of(t1) is Some,
        sign_of(t2) is Some,
    ensures
        ({
            let (a, b, c) = (atom(ta)->0, atom(tb)->0, atom(tc)->0);
            let (first, second) = (sign_of(t1)->0, sign_of(t2)->0);
            expr(seq![ta, t1, tb, t2, tc], 0) == Ok::<(ExprView, int), ParseErrorView>(
                (
                    if precedence(second) > precedence(first) {
                        ExprView::binary(first, a, ExprView::binary(second, b, c))
                    } else {
                        ExprView::binary(second, ExprView::binary(first, a, b), c)
                    },
                    5,
                ),
            )
        }),
{
    let tokens = seq![ta, t1, tb, t2, tc];
    let (a, b, c) = (atom(ta)->0, atom(tb)->0, atom(tc)->0);
    let (first, second) = (sign_of(t1)->0, sign_of(t2)->0);
    assert(tokens[0] == ta && tokens[1] == t1 && tokens[2] == tb && tokens[3] == t2 && tokens[4]
        == tc);
    assert(unary(tokens, 0) == Ok::<(ExprView, int), ParseErrorView>((a, 1)));
    assert(unary(tokens, 2) == Ok::<(ExprView, int), ParseErrorView>((b, 3)));
    assert(unary(tokens, 4) == Ok::<(ExprView, int), ParseErrorView>((c, 5)));
    assert(sign_at(tokens, 1) == Some(first));
    assert(sign_at(tokens, 3) == Some(second));
    assert(sign_at(tokens, 5) is None);
    if precedence(second) > precedence(first) {
        let bc = ExprView::binary(second, b, c);
        assert(term_tail(tokens, 5, bc) == Ok::<(ExprView, int), ParseErrorView>((bc, 5)));
        assert(term_tail(tokens, 3, b) == Ok::<(ExprView, int), ParseErrorView>((bc, 5)));
        assert(operand(tokens, 2, 1) == Ok::<(ExprView, int), ParseErrorView>((bc, 5)));
        let whole = ExprView::binary(first, a, bc);
        assert(tail(tokens, 5, whole, 0) == Ok::<(ExprView, int), ParseErrorView>((whole, 5)));
        assert(tail(tokens, 1, a, 0) == Ok::<(ExprView, int), ParseErrorView>((whole, 5)));
    } else {
        let ab = ExprView::binary(first, a, b);
        let whole = ExprView::binary(second, ab, c);
        assert(term_tail(tokens, 3, b) == if precedence(first) < 2 {
            Ok::<(ExprView, int), ParseErrorView>((b, 3))
        } else {
            term_tail(tokens, 3, b)
        });
        assert(operand(tokens, 2, precedence(first)) == Ok::<(ExprView, int), ParseErrorView>(
            (b, 3),
        ));
        assert(term_tail(tokens, 5, c) == Ok::<(ExprView, int), ParseErrorView>((c, 5)));
        assert(operand(tokens, 4, precedence(second)) == Ok::<(ExprView, int), ParseErrorView>(
            (c, 5),
        ));
        assert(tail(tokens, 5, whole, 0) == Ok::<(ExprView, int), ParseErrorView>((whole, 5)));
        assert(tail(tokens, 3, ab, 0) == Ok::<(ExprView, int), ParseErrorView>((whole, 5)));
        assert(tail(tokens, 1, a, 0) == Ok::<(ExprView, int), ParseErrorView>((whole, 5)));
    }
}

/// A chain `x ; y ; z` of string literals is two nested joins, the left
/// one inside, and its value is the three strings joined.
pub proof fn law_concat_chain(x: Seq<char>, y: Seq<char>, z: Seq<char>, scopes: Frames)
    ensures
        ({
            let tokens = seq![
                TokenView::StringLit(x),
                TokenView::Semicolon,
                TokenView::StringLit(y),
                TokenView::Semicolon,
                TokenView::StringLit(z),
            ];
            let tree = ExprView::binary(
                Sign::Concat,
                ExprView::binary(Sign::Concat, ExprView::StringLit(x), ExprView::StringLit(y)),
                ExprView::StringLit(z),
            );
            &&& expr(tokens, 0) == Ok::<(ExprView, int), ParseErrorView>((tree, 5))
            &&& eval(tree, scopes) == Ok::<ValueView, EvalErrorView>(ValueView::_String(x + y + z))
        }),
{
    law_precedence(
        TokenView::StringLit(x),
        TokenView::Semicolon,
        TokenView::StringLit(y),
        TokenView::Semicolon,
        TokenView::StringLit(z),
    );
    law_concat_associative(
        ExprView::StringLit(x),
        ExprView::StringLit(y),
        ExprView::StringLit(z),
        scopes,
        x,
        y,
        z,
    );
}

/// The program `exit (a op b)`, and the same without the parentheses,
/// is the one statement that exits with the operator applied to the two
/// integers.
pub proof fn law_exit_parses(a: i64, t: TokenView, b: i64)
    requires
        sign_of(t) is Some,
    ensures
        ({
            let node = NodeView::Exit(
                ExprView::binary(sign_of(t)->0, ExprView::Int(a), ExprView::Int(b)),
            );
            &&& program(
                seq![
                    TokenView::Exit,
                    TokenView::OpenParen,
                    TokenView::IntLit(a),
                    t,
                    TokenView::IntLit(b),
                    TokenView::CloseParen,
                ],
            ) == Ok::<Seq<NodeView>, ParseErrorView>(seq![node])
            &&& program(seq![TokenView::Exit, TokenView::IntLit(a), t, TokenView::IntLit(b)])
                == Ok::<Seq<NodeView>, ParseErrorView>(seq![node])
        }),
{
    let op = sign_of(t)->0;
    let (ea, eb) = (ExprView::Int(a), ExprView::Int(b));
    let whole = ExprView::binary(op, ea, eb);
    let node = NodeView::Exit(whole);
    let p = precedence(op);
    {
        let tokens = seq![
            TokenView::Exit,
            TokenView::OpenParen,
            TokenView::IntLit(a),
            t,
            TokenView::IntLit(b),
            TokenView::CloseParen,
        ];
        assert(tokens[0] == TokenView::Exit && tokens[1] == TokenView::OpenParen && tokens[2]
            == TokenView::IntLit(a) && tokens[3] == t && tokens[4] == TokenView::IntLit(b)
            && tokens[5] == TokenView::CloseParen);
        assert(unary(tokens, 2) == Ok::<(ExprView, int), ParseErrorView>((ea, 3)));
        assert(unary(tokens, 4) == Ok::<(ExprView, int), ParseErrorView>((eb, 5)));
        assert(sign_at(tokens, 3) == Some(op));
        assert(sign_at(tokens, 5) is None);
        assert(term_tail(tokens, 5, eb) == Ok::<(ExprView, int), ParseErrorView>((eb, 5)));
        assert(operand(tokens, 4, p) == Ok::<(ExprView, int), ParseErrorView>((eb, 5)));
        assert(tail(tokens, 5, whole, 0) == Ok::<(ExprView, int), ParseErrorView>((whole, 5)));
        assert(tail(tokens, 3, ea, 0) == Ok::<(ExprView, int), ParseErrorView>((whole, 5)));
        assert(expr(tokens, 2) == Ok::<(ExprView, int), ParseErrorView>((whole, 5)));
        assert(unary(tokens, 1) == Ok::<(ExprView, int), ParseErrorView>((whole, 6)));
        assert(argument(tokens, 1) == unary(tokens, 1));
        assert(statement(tokens, 0) == Ok::<(NodeView, int), ParseErrorView>((node, 6)));
        assert(block(tokens, 6, false) == Ok::<(Seq<NodeView>, int), ParseErrorView>(
            (Seq::empty(), 6),
        ));
        assert(seq![node] + Seq::<NodeView>::empty() =~= seq![node]);
        assert(block(tokens, 0, false) == Ok::<(Seq<NodeView>, int), ParseErrorView>(
            (seq![node], 6),
        ));
    }
    {
        let tokens = seq![TokenView::Exit, TokenView::IntLit(a), t, TokenView::IntLit(b)];
        assert(tokens[0] == TokenView::Exit && tokens[1] == TokenView::IntLit(a) && tokens[2] == t
            && tokens[3] == TokenView::IntLit(b));
        assert(unary(tokens, 1) == Ok::<(ExprView, int), ParseErrorView>((ea, 2)));
        assert(unary(tokens, 3) == Ok::<(ExprView, int), ParseErrorView>((eb, 4)));
        assert(sign_at(tokens, 2) == Some(op));
        assert(sign_at(tokens, 4) is None);
        assert(term_tail(tokens, 4, eb) == Ok::<(ExprView, int), ParseErrorView>((eb, 4)));
        assert(operand(tokens, 3, p) == Ok::<(ExprView, int), ParseErrorView>((eb, 4)));
        assert(tail(tokens, 4, whole, 0) == Ok::<(ExprView, int), ParseErrorView>((whole, 4)));
        assert(tail(tokens, 2, ea, 0) == Ok::<(ExprView, int), ParseErrorView>((whole, 4)));
        assert(expr(tokens, 1) == Ok::<(ExprView, int), ParseErrorView>((whole, 4)));
        assert(argument(tokens, 1) == expr(tokens, 1));
        assert(statement(tokens, 0) == Ok::<(NodeView, int), ParseErrorView>((node, 4)));
        assert(block(tokens, 4, false) == Ok::<(Seq<NodeView>, int), ParseErrorView>(
            (Seq::empty(), 4),
        ));
        assert(seq![node] + Seq::<NodeView>::empty() =~= seq![node]);
        assert(block(tokens, 0, false) == Ok::<(Seq<NodeView>, int), ParseErrorView>(
            (seq![node], 4),
        ));
    }
}

/// The lines `n`, `n - 1`, ..., `1`, each with its line feed.
pub open spec fn countdown(n: int) -> Seq<char>
    decreases n,
{
    if n <= 0 {
        Seq::empty()
    } else {
        text_of_int(n) + seq!['\n'] + countdown(n - 1)
    }
}

/// The loop `while x { print x  x -= 1 }`.
pub open spec fn counting_loop(x: Seq<char>) -> NodeView {
    NodeView::While { expr: ExprView::Ident(x), body: Box::new(NodeView::Scope(counting_body(x))) }
}

/// The body of [`counting_loop`].
pub open spec fn counting_body(x: Seq<char>) -> Seq<NodeView> {
    seq![
        NodeView::Print(ExprView::Ident(x)),
        NodeView::Assign {
            ident: x,
            expr: ExprView::binary(Sign::Subtract, ExprView::Ident(x), ExprView::Int(1)),
        },
    ]
}

/// The scopes in which the integer variable that `x` refers to holds
/// `value`.
pub open spec fn with_int(scopes: Frames, x: Seq<char>, value: i64) -> Frames {
    let k = innermost(scopes, x);
    scopes.update(
        k,
        scopes[k].insert(x, VariableView { value: ValueView::_Int(value), var_type: Type::Int }),
    )
}

/// Opening an empty scope changes no variable that a name refers to.
pub proof fn lemma_enter_keeps(scopes: Frames, x: Seq<char>)
    ensures
        innermost(scopes.push(Map::empty()), x) == innermost(scopes, x),
{
    assert(scopes.push(Map::empty()).drop_last() =~= scopes);
}

/// A loop that prints an integer counter and takes one off it, as long
/// as the counter is not zero, ends when the counter starts at `n` and
/// is not negative, and when it may run `n` times: it has then printed
/// `n` lines, the numbers from `n` down to 1, and the counter is zero.
pub proof fn law_counting_loop(x: Seq<char>, n: i64, st: InterpreterView, fuel: nat)
    requires
        0 <= n <= fuel,
        !st.halted(),
        lookup(st.scopes, x) == Some(
            VariableView { value: ValueView::_Int(n), var_type: Type::Int },
        ),
    ensures
        run_node(counting_loop(x), st, fuel) == done(
            InterpreterView {
                output: st.output + countdown(n as int),
                scopes: with_int(st.scopes, x, 0),
                ..st
            },
        ),
    decreases n,
{
    let cond = ExprView::Ident(x);
    let body = counting_body(x);
    let k = innermost(st.scopes, x);
    let int_var = |v: i64| VariableView { value: ValueView::_Int(v), var_type: Type::Int };
    lemma_innermost(st.scopes, x);
    assert(run_node(counting_loop(x), st, fuel) == run_while(cond, body, st, fuel));
    assert(eval(cond, st.scopes) == Ok::<ValueView, EvalErrorView>(ValueView::_Int(n)));
    if n == 0 {
        assert(st.scopes[k].insert(x, int_var(0)) =~= st.scopes[k]);
        assert(with_int(st.scopes, x, 0) =~= st.scopes);
        assert(st.output + countdown(0) =~= st.output);
    } else {
        let entered = st.with_scopes(st.scopes.push(Map::empty()));
        lemma_enter_keeps(st.scopes, x);
        assert(entered.scopes[k] == st.scopes[k]);
        assert(body[0] == NodeView::Print(cond));
        let minus = ExprView::binary(Sign::Subtract, cond, ExprView::Int(1));
        assert(body[1] == NodeView::Assign { ident: x, expr: minus });
        // the body prints the counter
        let printed = entered.printed(text_of_int(n as int));
        assert(eval(cond, entered.scopes) == Ok::<ValueView, EvalErrorView>(ValueView::_Int(n)));
        assert(run_node(body[0], entered, (fuel - 1) as nat) == done(printed));
        // and takes one off it
        assert(minus->summands[0] == cond && minus->summands[1] == ExprView::Int(1));
        assert(eval(ExprView::Int(1), printed.scopes) == Ok::<ValueView, EvalErrorView>(
            ValueView::_Int(1),
        ));
        assert(eval(minus, printed.scopes) == Ok::<ValueView, EvalErrorView>(
            ValueView::_Int((n - 1) as i64),
        ));
        let lowered = entered.scopes.update(k, entered.scopes[k].insert(x, int_var((n - 1) as i64)));
        assert(assign(printed.scopes, x, ValueView::_Int((n - 1) as i64)) == Ok::<
            Frames,
            EvalErrorView,
        >(lowered));
        let assigned = printed.with_scopes(lowered);
        assert(run_node(body[1], printed, (fuel - 1) as nat) == done(assigned));
        assert(run_nodes(body, 2, assigned, (fuel - 1) as nat) == done(assigned));
        assert(run_nodes(body, 1, printed, (fuel - 1) as nat) == done(assigned));
        assert(run_nodes(body, 0, entered, (fuel - 1) as nat) == done(assigned));
        // the scope of the body is closed again
        let next_scopes = st.scopes.update(k, st.scopes[k].insert(x, int_var((n - 1) as i64)));
        assert(lowered.drop_last() =~= next_scopes);
        let next = assigned.with_scopes(next_scopes);
        assert(run_scope(body, st, (fuel - 1) as nat) == done(next));
        // and the loop goes on with the counter one lower
        assert forall|j: int| k < j < next_scopes.len() implies !(
        #[trigger] next_scopes[j]).contains_key(x) by {
            assert(next_scopes[j] == st.scopes[j]);
        }
        lemma_innermost_is(next_scopes, x, k);
        law_counting_loop(x, (n - 1) as i64, next, (fuel - 1) as nat);
        assert(run_node(counting_loop(x), next, (fuel - 1) as nat) == run_while(
            cond,
            body,
            next,
            (fuel - 1) as nat,
        ));
        assert(next_scopes[k].insert(x, int_var(0)) =~= st.scopes[k].insert(x, int_var(0)));
        assert(with_int(next_scopes, x, 0) =~= with_int(st.scopes, x, 0));
        assert(next.output + countdown(n - 1) =~= st.output + countdown(n as int));
    }
}

/// Whitespace leaves no token: the lexer never gives the token that
/// stands for it.
pub proof fn law_no_blank_token(bytes: Seq<u8>, i: int)
    ensures
        match lex_from(bytes, i) {
            Ok(tokens) => forall|k: int| 0 <= k < tokens.len() ==> tokens[k] != TokenView::Blank,
            Err(_) => true,
        },
    decreases bytes.len() - i,
{
    if 0 <= i < bytes.len() {
        lemma_alnum_end(bytes, i);
        lemma_digit_end(bytes, i);
        lemma_quote_at(bytes, i + 1);
        if is_alpha(bytes[i]) {
            law_no_blank_token(bytes, alnum_end(bytes, i));
        } else if is_digit(bytes[i]) {
            law_no_blank_token(bytes, digit_end(bytes, i));
        } else if bytes[i] == 0x22 {
            if quote_at(bytes, i + 1) < bytes.len() {
                law_no_blank_token(bytes, quote_at(bytes, i + 1) + 1);
            }
        } else {
            law_no_blank_token(bytes, i + 1);
        }
    }
}

/// What a run leaves alone: it opens no scope that it does not close,
/// it takes nothing back that was printed, it keeps an exit code that
/// was set, and it does not change the step limit.
pub open spec fn keeps(before: InterpreterView, after: InterpreterView) -> bool {
    &&& after.scopes.len() == before.scopes.len()
    &&& before.output.is_prefix_of(after.output)
    &&& before.halted() ==> after.exit_code == before.exit_code
    &&& after.step_limit == before.step_limit
}

/// A statement that runs with a scope open keeps what [`keeps`] names.
pub proof fn law_statement_keeps(node: NodeView, st: InterpreterView, fuel: nat)
    requires
        node.wf(),
        st.scopes.len() > 0,
        !st.halted(),
    ensures
        keeps(st, run_node(node, st, fuel).state),
    decreases fuel, node, 0nat,
{
    let after = run_node(node, st, fuel).state;
    match node {
        NodeView::Print(e) => {
            if eval(e, st.scopes) is Ok {
                let line = text_of(eval(e, st.scopes)->Ok_0);
                assert(after.output =~= st.output + (line + seq!['\n']));
            }
        },
        NodeView::Exit(e) => {},
        NodeView::Let { ident, expr, var_type } => {},
        NodeView::Assign { ident, expr } => {
            lemma_innermost(st.scopes, ident);
        },
        NodeView::If { expr, body } => {
            match *body {
                NodeView::Scope(nodes) => {
                    assert(NodeView::Scope(nodes).wf());
                    law_block_keeps(nodes, st, fuel);
                },
                _ => {},
            }
        },
        NodeView::While { expr, body } => {
            match *body {
                NodeView::Scope(nodes) => {
                    assert(NodeView::Scope(nodes).wf());
                    law_loop_keeps(expr, nodes, st, fuel);
                },
                _ => {},
            }
        },
        NodeView::Scope(nodes) => {
            law_block_keeps(nodes, st, fuel);
        },
    }
}

/// A block keeps what [`keeps`] names, whether or not a scope is open.
pub proof fn law_block_keeps(nodes: Seq<NodeView>, st: InterpreterView, fuel: nat)
    requires
        all_wf(nodes),
    ensures
        keeps(st, run_scope(nodes, st, fuel).state),
    decreases fuel, nodes, nodes.len() + 1,
{
    let entered = st.with_scopes(st.scopes.push(Map::empty()));
    law_statements_keep(nodes, 0, entered, fuel);
}

/// The statements of a block keep what [`keeps`] names.
pub proof fn law_statements_keep(nodes: Seq<NodeView>, i: int, st: InterpreterView, fuel: nat)
    requires
        all_wf(nodes),
        st.scopes.len() > 0,
        0 <= i,
    ensures
        keeps(st, run_nodes(nodes, i, st, fuel).state),
    decreases fuel, nodes, nodes.len() - i,
{
    if i < nodes.len() && !st.halted() {
        lemma_all_wf(nodes);
        law_statement_keeps(nodes[i], st, fuel);
        let first = run_node(nodes[i], st, fuel);
        if first.error is None {
            law_statements_keep(nodes, i + 1, first.state, fuel);
        }
    }
}

/// A loop keeps what [`keeps`] names.
pub proof fn law_loop_keeps(cond: ExprView, body: Seq<NodeView>, st: InterpreterView, fuel: nat)
    requires
        all_wf(body),
        !st.halted(),
    ensures
        keeps(st, run_while(cond, body, st, fuel).state),
    decreases fuel, body, body.len() + 2,
{
    match eval(cond, st.scopes) {
        Ok(v) => {
            if is_truthy(v) && fuel > 0 {
                law_block_keeps(body, st, (fuel - 1) as nat);
                let once = run_scope(body, st, (fuel - 1) as nat);
                if once.error is None && !once.state.halted() {
                    law_loop_keeps(cond, body, once.state, (fuel - 1) as nat);
                }
            }
        },
        Err(_) => {},
    }
}

} // verus!
