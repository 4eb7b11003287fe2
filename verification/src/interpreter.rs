//! The interpreter: values, variables and scopes, the evaluation of
//! expressions and the execution of statements.

use vstd::prelude::*;
use vstd::hash_map::StringHashMap;
use crate::error::{EvalError, EvalErrorView};
use crate::expr::{lemma_expr_views, Expr, ExprView, Sign, Type};
use crate::parser::{
    all_wf, lemma_all_wf, lemma_node_views, node_view, node_views, Node, NodeView,
};

verus! {

/// A value at run time.
#[derive(Debug, PartialEq, Eq, Hash)]
pub enum Value {
    _String(String),
    _Int(i64),
    _Bool(bool),
}

/// The mathematical value of a [`Value`].
pub enum ValueView {
    _String(Seq<char>),
    _Int(i64),
    _Bool(bool),
}

impl View for Value {
    type V = ValueView;

    open spec fn view(&self) -> ValueView {
        match self {
            Value::_String(s) => ValueView::_String(s@),
            Value::_Int(n) => ValueView::_Int(*n),
            Value::_Bool(b) => ValueView::_Bool(*b),
        }
    }
}

impl Clone for Value {
    fn clone(&self) -> (r: Self)
        ensures
            r@ == self@,
    {
        match self {
            Value::_String(s) => Value::_String(s.clone()),
            Value::_Int(n) => Value::_Int(*n),
            Value::_Bool(b) => Value::_Bool(*b),
        }
    }
}

impl Value {
    /// Whether two values are equal: of the same type and with the same
    /// content.
    pub fn same(&self, other: &Value) -> (r: bool)
        ensures
            r == (self@ == other@),
    {
        match (self, other) {
            (Value::_String(a), Value::_String(b)) => *a == *b,
            (Value::_Int(a), Value::_Int(b)) => *a == *b,
            (Value::_Bool(a), Value::_Bool(b)) => *a == *b,
            _ => false,
        }
    }
}

/// The type of a value.
pub open spec fn type_of(v: ValueView) -> Type {
    match v {
        ValueView::_String(_) => Type::String,
        ValueView::_Int(_) => Type::Int,
        ValueView::_Bool(_) => Type::Bool,
    }
}

impl Type {
    /// The type of `value`.
    pub fn from_value(value: Value) -> (r: Type)
        ensures
            r == type_of(value@),
    {
        match value {
            Value::_String(_) => Type::String,
            Value::_Int(_) => Type::Int,
            Value::_Bool(_) => Type::Bool,
        }
    }
}

/// The type of `value`.
fn type_of_value(value: &Value) -> (r: Type)
    ensures
        r == type_of(value@),
{
    match value {
        Value::_String(_) => Type::String,
        Value::_Int(_) => Type::Int,
        Value::_Bool(_) => Type::Bool,
    }
}

/// A variable: its current value and the type that it was declared
/// with, which never changes.
#[derive(Debug)]
pub struct Variable {
    value: Value,
    var_type: Type,
}

/// The mathematical value of a [`Variable`].
pub struct VariableView {
    pub value: ValueView,
    pub var_type: Type,
}

impl View for Variable {
    type V = VariableView;

    closed spec fn view(&self) -> VariableView {
        VariableView { value: self.value@, var_type: self.var_type }
    }
}

impl Clone for Variable {
    fn clone(&self) -> (r: Self)
        ensures
            r@ == self@,
    {
        Variable { value: self.value.clone(), var_type: self.var_type }
    }
}

impl Variable {
    /// A variable of type `var_type` that holds `value`.
    pub fn new(value: Value, var_type: Type) -> (r: Self)
        ensures
            r@ == (VariableView { value: value@, var_type }),
    {
        Self { value, var_type }
    }

    /// The value that the variable holds.
    pub fn get_value(&self) -> (r: &Value)
        ensures
            r@ == self@.value,
    {
        &self.value
    }

    /// The type that the variable was declared with.
    pub fn get_type(&self) -> (r: Type)
        ensures
            r == self@.var_type,
    {
        self.var_type
    }
}

/// The variables that one block declares, by name.
pub struct Scope {
    variables: StringHashMap<Variable>,
}

impl View for Scope {
    type V = Map<Seq<char>, VariableView>;

    closed spec fn view(&self) -> Map<Seq<char>, VariableView> {
        Map::new(
            |name: Seq<char>| self.variables@.contains_key(name),
            |name: Seq<char>| self.variables@[name]@,
        )
    }
}

impl Scope {
    /// A scope that declares nothing.
    pub fn new() -> (r: Self)
        ensures
            r@ == Map::<Seq<char>, VariableView>::empty(),
    {
        let r = Scope { variables: StringHashMap::new() };
        r
    }

    /// The variable called `name`, if the scope declares one.
    fn get(&self, name: &str) -> (r: Option<&Variable>)
        ensures
            match r {
                Some(v) => self@.contains_key(name@) && self@[name@] == v@,
                None => !self@.contains_key(name@),
            },
    {
        self.variables.get(name)
    }

    /// Declares `name` as `variable`, in place of an earlier variable of
    /// that name.
    fn insert(&mut self, name: String, variable: Variable)
        ensures
            final(self)@ == old(self)@.insert(name@, variable@),
    {
        self.variables.insert(name, variable);
    }
}

/// The scopes that are open, outermost first, each by its variables.
pub type Frames = Seq<Map<Seq<char>, VariableView>>;

/// The state of a running program.
pub struct Interpreter {
    scopes: Vec<Scope>,
    /// Everything printed so far.
    pub output: String,
    /// The exit code, once an `exit` statement has run.
    pub exit_code: Option<i64>,
    step_limit: u64,
}

/// The mathematical value of an [`Interpreter`].
pub struct InterpreterView {
    pub scopes: Frames,
    pub output: Seq<char>,
    pub exit_code: Option<i64>,
    pub step_limit: nat,
}

impl View for Interpreter {
    type V = InterpreterView;

    closed spec fn view(&self) -> InterpreterView {
        InterpreterView {
            scopes: Seq::new(self.scopes.len() as nat, |k: int| self.scopes[k]@),
            output: self.output@,
            exit_code: self.exit_code,
            step_limit: self.step_limit as nat,
        }
    }
}

/// The index of the innermost scope that declares `name`, or -1 if none
/// does.
pub open spec fn innermost(scopes: Frames, name: Seq<char>) -> int
    decreases scopes.len(),
{
    if scopes.len() == 0 {
        -1
    } else if scopes.last().contains_key(name) {
        scopes.len() - 1
    } else {
        innermost(scopes.drop_last(), name)
    }
}

/// The variable that `name` refers to: the one of the innermost scope
/// that declares it.
pub open spec fn lookup(scopes: Frames, name: Seq<char>) -> Option<VariableView> {
    let k = innermost(scopes, name);
    if k >= 0 {
        Some(scopes[k][name])
    } else {
        None
    }
}

/// The scopes after `value` has been assigned to `name`: the variable
/// that the name refers to holds the value, which must be of the
/// variable's type; nothing else changes.
pub open spec fn assign(scopes: Frames, name: Seq<char>, value: ValueView) -> Result<
    Frames,
    EvalErrorView,
> {
    let k = innermost(scopes, name);
    if k < 0 {
        Err(EvalErrorView::CouldNotSet(name))
    } else if scopes[k][name].var_type != type_of(value) {
        Err(
            EvalErrorView::ImplicitConversion {
                variable: scopes[k][name].var_type,
                value: type_of(value),
            },
        )
    } else {
        Ok(
            scopes.update(
                k,
                scopes[k].insert(name, VariableView { value, var_type: type_of(value) }),
            ),
        )
    }
}

/// The type of a variable that is declared as `declared` and
/// initialized with `value`: `Auto` takes the type of the value, `Any`
/// accepts every value, and any other type must be that of the value.
pub open spec fn declared_type(declared: Type, value: ValueView) -> Result<Type, EvalErrorView> {
    if declared == Type::Auto {
        Ok(type_of(value))
    } else if declared == Type::Any || declared == type_of(value) {
        Ok(declared)
    } else {
        Err(EvalErrorView::TypeMismatch { expected: declared, found: type_of(value) })
    }
}

/// The scopes after `name` has been declared in the innermost one.
pub open spec fn declare(scopes: Frames, name: Seq<char>, value: ValueView, declared: Type) -> Result<
    Frames,
    EvalErrorView,
>
    recommends
        scopes.len() > 0,
{
    match declared_type(declared, value) {
        Ok(var_type) => Ok(
            scopes.update(
                scopes.len() - 1,
                scopes.last().insert(name, VariableView { value, var_type }),
            ),
        ),
        Err(e) => Err(e),
    }
}

/// Whether `n` fits in 64 signed bits.
pub open spec fn fits(n: int) -> bool {
    i64::MIN <= n <= i64::MAX
}

/// The quotient of `a` by `b`, rounded toward zero.
pub open spec fn trunc_div(a: int, b: int) -> int
    recommends
        b != 0,
{
    if a >= 0 && b > 0 {
        a / b
    } else if a < 0 && b < 0 {
        (-a) / (-b)
    } else if a < 0 {
        -((-a) / b)
    } else {
        -(a / (-b))
    }
}

/// The integer `n` as a value, if it fits.
pub open spec fn int_result(n: int) -> Result<ValueView, EvalErrorView> {
    if fits(n) {
        Ok(ValueView::_Int(n as i64))
    } else {
        Err(EvalErrorView::Overflow)
    }
}

/// An operator other than `=` applied to two integers.
pub open spec fn arith(sign: Sign, a: i64, b: i64) -> Result<ValueView, EvalErrorView> {
    match sign {
        Sign::Add => int_result(a + b),
        Sign::Subtract => int_result(a - b),
        Sign::Multiply => int_result(a * b),
        Sign::Divide => if b == 0 {
            Err(EvalErrorView::DivisionByZero)
        } else {
            int_result(trunc_div(a as int, b as int))
        },
        _ => Err(EvalErrorView::BadSign { sign, operand: Type::Int }),
    }
}

/// An operator applied to two values. `=` compares any two values;
/// every other operator takes two values of one type: `;` joins two
/// strings, and `+ - * /` compute on two integers.
pub open spec fn apply(sign: Sign, left: ValueView, right: ValueView) -> Result<
    ValueView,
    EvalErrorView,
> {
    if sign == Sign::Equal {
        Ok(ValueView::_Bool(left == right))
    } else {
        match (left, right) {
            (ValueView::_String(a), ValueView::_String(b)) => if sign == Sign::Concat {
                Ok(ValueView::_String(a + b))
            } else {
                Err(EvalErrorView::BadSign { sign, operand: Type::String })
            },
            (ValueView::_Int(a), ValueView::_Int(b)) => arith(sign, a, b),
            (ValueView::_Bool(_), ValueView::_Bool(_)) => Err(
                EvalErrorView::BadSign { sign, operand: Type::Bool },
            ),
            _ => Err(EvalErrorView::ImplicitCast { left: type_of(left), right: type_of(right) }),
        }
    }
}

/// The negation of a value, which must be a `Bool`.
pub open spec fn negate(v: ValueView) -> Result<ValueView, EvalErrorView> {
    match v {
        ValueView::_Bool(b) => Ok(ValueView::_Bool(!b)),
        _ => Err(EvalErrorView::ExpectedBool(type_of(v))),
    }
}

/// The value of an expression in the given scopes, or the first error
/// met; the left operand of an operator is evaluated before the right
/// one. Of an operator that does not have two operands nothing is
/// said.
pub open spec fn eval(e: ExprView, scopes: Frames) -> Result<ValueView, EvalErrorView>
    decreases e,
{
    match e {
        ExprView::StringLit(s) => Ok(ValueView::_String(s)),
        ExprView::Int(n) => Ok(ValueView::_Int(n)),
        ExprView::Bool(b) => Ok(ValueView::_Bool(b)),
        ExprView::Ident(name) => match lookup(scopes, name) {
            Some(v) => Ok(v.value),
            None => Err(EvalErrorView::NotInitialized(name)),
        },
        ExprView::Not(inner) => match eval(*inner, scopes) {
            Ok(v) => negate(v),
            Err(e) => Err(e),
        },
        ExprView::SumExpr { sign, summands } => if summands.len() == 2 {
            match eval(summands[0], scopes) {
                Ok(left) => match eval(summands[1], scopes) {
                    Ok(right) => apply(sign, left, right),
                    Err(e) => Err(e),
                },
                Err(e) => Err(e),
            }
        } else {
            arbitrary()
        },
    }
}

/// Whether a value counts as true in a condition: a string that is not
/// empty, an integer that is not zero, and `true`.
pub open spec fn is_truthy(v: ValueView) -> bool {
    match v {
        ValueView::_String(s) => s.len() > 0,
        ValueView::_Int(n) => n != 0,
        ValueView::_Bool(b) => b,
    }
}

/// The innermost scope that declares a name does declare it, and no
/// scope inside it does.
pub proof fn lemma_innermost(scopes: Frames, name: Seq<char>)
    ensures
        -1 <= innermost(scopes, name) < scopes.len(),
        innermost(scopes, name) >= 0 ==> scopes[innermost(scopes, name)].contains_key(name),
        forall|j: int|
            innermost(scopes, name) < j < scopes.len() ==> !(#[trigger] scopes[j]).contains_key(
                name,
            ),
    decreases scopes.len(),
{
    if scopes.len() > 0 && !scopes.last().contains_key(name) {
        lemma_innermost(scopes.drop_last(), name);
        assert forall|j: int| innermost(scopes, name) < j < scopes.len() implies !(
        #[trigger] scopes[j]).contains_key(name) by {
            if j < scopes.len() - 1 {
                assert(scopes.drop_last()[j] == scopes[j]);
            }
        }
    }
}

/// A scope that declares a name, with no scope inside it that does, is
/// the innermost one that declares it.
pub proof fn lemma_innermost_is(scopes: Frames, name: Seq<char>, k: int)
    requires
        0 <= k < scopes.len(),
        scopes[k].contains_key(name),
        forall|j: int| k < j < scopes.len() ==> !(#[trigger] scopes[j]).contains_key(name),
    ensures
        innermost(scopes, name) == k,
{
    lemma_innermost(scopes, name);
}

/// What an evaluation returned, taken by its value.
pub open spec fn evaled(r: Result<Value, EvalError>) -> Result<ValueView, EvalErrorView> {
    match r {
        Ok(v) => Ok(v@),
        Err(e) => Err(e@),
    }
}

/// An operator other than `=` applied to two integers.
fn apply_arith(sign: Sign, a: i64, b: i64) -> (r: Result<Value, EvalError>)
    ensures
        evaled(r) == arith(sign, a, b),
{
    let computed = match sign {
        Sign::Add => a.checked_add(b),
        Sign::Subtract => a.checked_sub(b),
        Sign::Multiply => a.checked_mul(b),
        Sign::Divide => {
            if b == 0 {
                return Err(EvalError::DivisionByZero);
            }
            a.checked_div(b)
        },
        _ => {
            return Err(EvalError::BadSign { sign, operand: Type::Int });
        },
    };
    match computed {
        Some(n) => Ok(Value::_Int(n)),
        None => Err(EvalError::Overflow),
    }
}

/// An operator applied to two values.
pub fn apply_sign(sign: Sign, left: Value, right: Value) -> (r: Result<Value, EvalError>)
    ensures
        evaled(r) == apply(sign, left@, right@),
{
    if sign == Sign::Equal {
        return Ok(Value::_Bool(left.same(&right)));
    }
    match (left, right) {
        (Value::_String(a), Value::_String(b)) => {
            if sign == Sign::Concat {
                Ok(Value::_String(a.concat(b.as_str())))
            } else {
                Err(EvalError::BadSign { sign, operand: Type::String })
            }
        },
        (Value::_Int(a), Value::_Int(b)) => apply_arith(sign, a, b),
        (Value::_Bool(_), Value::_Bool(_)) => Err(
            EvalError::BadSign { sign, operand: Type::Bool },
        ),
        (l, r) => Err(EvalError::ImplicitCast { left: type_of_value(&l), right: type_of_value(&r) }),
    }
}

impl Interpreter {
    /// An interpreter with no scope open, nothing printed and no exit
    /// code, whose loops may run as often as a 64-bit counter counts.
    pub fn new() -> (r: Self)
        ensures
            r@ == (InterpreterView {
                scopes: Seq::empty(),
                output: Seq::empty(),
                exit_code: None,
                step_limit: u64::MAX as nat,
            }),
    {
        let r = Interpreter {
            scopes: Vec::new(),
            output: String::new(),
            exit_code: None,
            step_limit: u64::MAX,
        };
        assert(r@.scopes =~= Seq::empty());
        r
    }

    /// An interpreter like a new one, whose loops may run `step_limit`
    /// times.
    pub fn with_step_limit(step_limit: u64) -> (r: Self)
        ensures
            r@ == (InterpreterView {
                scopes: Seq::empty(),
                output: Seq::empty(),
                exit_code: None,
                step_limit: step_limit as nat,
            }),
    {
        let r = Interpreter { scopes: Vec::new(), output: String::new(), exit_code: None, step_limit };
        assert(r@.scopes =~= Seq::empty());
        r
    }

    /// Everything printed so far.
    pub fn get_output(&self) -> (r: &String)
        ensures
            r@ == self@.output,
    {
        &self.output
    }

    /// The exit code, once an `exit` statement has run.
    pub fn get_exit_code(&self) -> (r: Option<i64>)
        ensures
            r == self@.exit_code,
    {
        self.exit_code
    }

    /// The variable that `ident` refers to.
    pub fn get_var(&self, ident: String) -> (r: Result<&Variable, EvalError>)
        ensures
            match r {
                Ok(v) => lookup(self@.scopes, ident@) == Some(v@),
                Err(e) => lookup(self@.scopes, ident@) is None && e@ == EvalErrorView::NotInitialized(
                    ident@,
                ),
            },
    {
        let mut k = self.scopes.len();
        while k > 0
            invariant
                k <= self.scopes.len(),
                forall|j: int| k <= j < self.scopes.len() ==> !(#[trigger] self@.scopes[j]).contains_key(
                    ident@,
                ),
            decreases k,
        {
            k -= 1;
            match self.scopes[k].get(ident.as_str()) {
                Some(v) => {
                    proof {
                        lemma_innermost_is(self@.scopes, ident@, k as int);
                    }
                    return Ok(v);
                },
                None => {},
            }
        }
        proof {
            lemma_innermost(self@.scopes, ident@);
        }
        Err(EvalError::NotInitialized(ident))
    }
}

/// The value of `expr` in the scopes of `ctx`.
fn eval_in(expr: &Expr, ctx: &Interpreter) -> (r: Result<Value, EvalError>)
    requires
        expr@.wf(),
    ensures
        evaled(r) == eval(expr@, ctx@.scopes),
    decreases expr,
{
    match expr {
        Expr::StringLit(s) => Ok(Value::_String(s.clone())),
        Expr::Int(n) => Ok(Value::_Int(*n)),
        Expr::Bool(b) => Ok(Value::_Bool(*b)),
        Expr::Not(inner) => match eval_in(inner, ctx) {
            Ok(Value::_Bool(b)) => Ok(Value::_Bool(!b)),
            Ok(v) => Err(EvalError::ExpectedBool(type_of_value(&v))),
            Err(e) => Err(e),
        },
        Expr::SumExpr { sign, summands } => {
            proof {
                lemma_expr_views(summands@);
            }
            let left = match eval_in(&summands[0], ctx) {
                Ok(v) => v,
                Err(e) => {
                    return Err(e);
                },
            };
            let right = match eval_in(&summands[1], ctx) {
                Ok(v) => v,
                Err(e) => {
                    return Err(e);
                },
            };
            apply_sign(*sign, left, right)
        },
        Expr::Ident(name) => match ctx.get_var(name.clone()) {
            Ok(v) => Ok(v.value.clone()),
            Err(e) => Err(e),
        },
    }
}

/// The value of `expr` in the scopes of `ctx`, or the first error met.
pub fn eval_expr(expr: Expr, ctx: &Interpreter) -> (r: Result<Value, EvalError>)
    requires
        expr@.wf(),
    ensures
        evaled(r) == eval(expr@, ctx@.scopes),
{
    eval_in(&expr, ctx)
}

/// Whether `value` counts as true in a condition.
pub fn truthy(value: Value) -> (r: bool)
    ensures
        r == is_truthy(value@),
{
    match value {
        Value::_String(s) => s.as_str().unicode_len() > 0,
        Value::_Int(i) => i != 0,
        Value::_Bool(b) => b,
    }
}

/// The character of a decimal digit.
pub open spec fn digit_char(d: int) -> char
    recommends
        0 <= d < 10,
{
    (0x30 + d) as char
}

/// The decimal digits of a natural number, most significant first, with
/// no leading zero.
pub open spec fn decimal_digits(n: nat) -> Seq<char>
    decreases n,
{
    if n < 10 {
        seq![digit_char(n as int)]
    } else {
        decimal_digits(n / 10).push(digit_char((n % 10) as int))
    }
}

/// An integer in base 10, with a minus sign if it is negative.
pub open spec fn text_of_int(n: int) -> Seq<char> {
    if n < 0 {
        seq!['-'] + decimal_digits((-n) as nat)
    } else {
        decimal_digits(n as nat)
    }
}

/// What `print` writes for a value, without the line's end: a string as
/// it is, an integer in base 10, and `true` or `false`.
pub open spec fn text_of(v: ValueView) -> Seq<char> {
    match v {
        ValueView::_String(s) => s,
        ValueView::_Int(n) => text_of_int(n as int),
        ValueView::_Bool(b) => if b {
            seq!['t', 'r', 'u', 'e']
        } else {
            seq!['f', 'a', 'l', 's', 'e']
        },
    }
}

/// The exit code that a value stands for: an integer itself, `true` 0
/// and `false` 1.
pub open spec fn exit_code_of(v: ValueView) -> Result<i64, EvalErrorView> {
    match v {
        ValueView::_Int(n) => Ok(n),
        ValueView::_Bool(b) => Ok(
            if b {
                0i64
            } else {
                1i64
            },
        ),
        _ => Err(EvalErrorView::ExitCode(type_of(v))),
    }
}

/// Where a run ended: the state that it left, and the error that
/// stopped it, if one did.
pub struct Run {
    pub state: InterpreterView,
    pub error: Option<EvalErrorView>,
}

impl InterpreterView {
    /// The same state with other scopes.
    pub open spec fn with_scopes(self, scopes: Frames) -> InterpreterView {
        InterpreterView { scopes, ..self }
    }

    /// The same state with `line` and a line feed printed.
    pub open spec fn printed(self, line: Seq<char>) -> InterpreterView {
        InterpreterView { output: self.output + line + seq!['\n'], ..self }
    }

    /// The same state after an exit with `code`.
    pub open spec fn exited(self, code: i64) -> InterpreterView {
        InterpreterView { exit_code: Some(code), ..self }
    }

    /// Whether an `exit` statement has run.
    pub open spec fn halted(self) -> bool {
        self.exit_code is Some
    }
}

/// A run that ended in `state` with no error.
pub open spec fn done(state: InterpreterView) -> Run {
    Run { state, error: None }
}

/// A run that `e` stopped in `state`.
pub open spec fn failed(state: InterpreterView, e: EvalErrorView) -> Run {
    Run { state, error: Some(e) }
}

/// One statement run in state `st`. `fuel` is how often a loop may
/// still run.
pub open spec fn run_node(node: NodeView, st: InterpreterView, fuel: nat) -> Run
    decreases fuel, node, 0nat,
{
    match node {
        NodeView::Print(e) => match eval(e, st.scopes) {
            Ok(v) => done(st.printed(text_of(v))),
            Err(err) => failed(st, err),
        },
        NodeView::Exit(e) => match eval(e, st.scopes) {
            Ok(v) => match exit_code_of(v) {
                Ok(code) => done(st.exited(code)),
                Err(err) => failed(st, err),
            },
            Err(err) => failed(st, err),
        },
        NodeView::Let { ident, expr, var_type } => match eval(expr, st.scopes) {
            Ok(v) => match declare(st.scopes, ident, v, var_type) {
                Ok(scopes) => done(st.with_scopes(scopes)),
                Err(err) => failed(st, err),
            },
            Err(err) => failed(st, err),
        },
        NodeView::Assign { ident, expr } => match eval(expr, st.scopes) {
            Ok(v) => match assign(st.scopes, ident, v) {
                Ok(scopes) => done(st.with_scopes(scopes)),
                Err(err) => failed(st, err),
            },
            Err(err) => failed(st, err),
        },
        NodeView::If { expr, body } => match eval(expr, st.scopes) {
            Ok(v) => if is_truthy(v) {
                match *body {
                    NodeView::Scope(nodes) => run_scope(nodes, st, fuel),
                    _ => done(st),
                }
            } else {
                done(st)
            },
            Err(err) => failed(st, err),
        },
        NodeView::While { expr, body } => match *body {
            NodeView::Scope(nodes) => run_while(expr, nodes, st, fuel),
            _ => done(st),
        },
        NodeView::Scope(nodes) => run_scope(nodes, st, fuel),
    }
}

/// The statements of a block run in a scope of their own, which is
/// closed again however the run ends.
pub open spec fn run_scope(nodes: Seq<NodeView>, st: InterpreterView, fuel: nat) -> Run
    decreases fuel, nodes, nodes.len() + 1,
{
    let inner = run_nodes(nodes, 0, st.with_scopes(st.scopes.push(Map::empty())), fuel);
    Run { state: inner.state.with_scopes(inner.state.scopes.drop_last()), error: inner.error }
}

/// The statements from the `i`-th on, run in order up to the end, the
/// first error or an exit.
pub open spec fn run_nodes(nodes: Seq<NodeView>, i: int, st: InterpreterView, fuel: nat) -> Run
    decreases fuel, nodes, nodes.len() - i,
{
    if i < 0 || i >= nodes.len() || st.halted() {
        done(st)
    } else {
        let first = run_node(nodes[i], st, fuel);
        if first.error is Some {
            first
        } else {
            run_nodes(nodes, i + 1, first.state, fuel)
        }
    }
}

/// A loop: as long as the condition is true the body runs, each time in
/// a scope of its own. A loop that has run `fuel` times and would run
/// again stops with an error; inside its body a loop has one run less
/// each time.
pub open spec fn run_while(cond: ExprView, body: Seq<NodeView>, st: InterpreterView, fuel: nat) -> Run
    decreases fuel, body, body.len() + 2,
{
    match eval(cond, st.scopes) {
        Ok(v) => if !is_truthy(v) {
            done(st)
        } else if fuel == 0 {
            failed(st, EvalErrorView::StepLimit)
        } else {
            let once = run_scope(body, st, (fuel - 1) as nat);
            if once.error is Some || once.state.halted() {
                once
            } else {
                run_while(cond, body, once.state, (fuel - 1) as nat)
            }
        },
        Err(err) => failed(st, err),
    }
}

/// A whole program run in state `st`.
pub open spec fn run(nodes: Seq<NodeView>, st: InterpreterView) -> Run {
    run_scope(nodes, st, st.step_limit)
}

impl Interpreter {
    /// The innermost scope, which can be changed through the result.
    pub fn get_scope(&mut self) -> (r: &mut Scope)
        requires
            old(self)@.scopes.len() > 0,
        ensures
            r@ == old(self)@.scopes.last(),
            final(self)@.scopes =~= old(self)@.scopes.update(
                old(self)@.scopes.len() - 1,
                final(r)@,
            ),
            final(self)@.output == old(self)@.output,
            final(self)@.exit_code == old(self)@.exit_code,
            final(self)@.step_limit == old(self)@.step_limit,
    {
        let n = self.scopes.len();
        &mut self.scopes[n - 1]
    }

    /// Assigns `value` to the variable that `ident` refers to. On an
    /// error nothing changes.
    pub fn set_var(&mut self, ident: String, value: Value) -> (r: Result<(), EvalError>)
        ensures
            match r {
                Ok(()) => assign(old(self)@.scopes, ident@, value@) == Ok::<Frames, EvalErrorView>(
                    final(self)@.scopes,
                ) && final(self)@ == old(self)@.with_scopes(final(self)@.scopes),
                Err(e) => assign(old(self)@.scopes, ident@, value@) == Err::<Frames, EvalErrorView>(
                    e@,
                ) && final(self)@ == old(self)@,
            },
            final(self)@.scopes.len() == old(self)@.scopes.len(),
    {
        let value_type = type_of_value(&value);
        let mut k = self.scopes.len();
        while k > 0
            invariant
                *self == *old(self),
                k <= self.scopes.len(),
                value_type == type_of(value@),
                forall|j: int|
                    k <= j < self.scopes.len() ==> !(#[trigger] self@.scopes[j]).contains_key(ident@),
            decreases k,
        {
            k -= 1;
            let found = match self.scopes[k].get(ident.as_str()) {
                Some(v) => Some(v.var_type),
                None => None,
            };
            match found {
                Some(var_type) => {
                    proof {
                        lemma_innermost_is(self@.scopes, ident@, k as int);
                    }
                    if var_type != value_type {
                        return Err(
                            EvalError::ImplicitConversion { variable: var_type, value: value_type },
                        );
                    }
                    let ghost before = self@.scopes;
                    let variable = Variable::new(value, var_type);
                    self.scopes[k].insert(ident, variable);
                    proof {
                        assert(self@.scopes =~= before.update(
                            k as int,
                            before[k as int].insert(ident@, variable@),
                        ));
                    }
                    return Ok(());
                },
                None => {},
            }
        }
        proof {
            lemma_innermost(self@.scopes, ident@);
        }
        Err(EvalError::CouldNotSet(ident))
    }

    /// Declares `ident` in the innermost scope with `value`, where the
    /// value fits the declared type. On an error nothing changes.
    pub fn init_var(&mut self, ident: String, value: Value, var_type: Type) -> (r: Result<
        (),
        EvalError,
    >)
        requires
            old(self)@.scopes.len() > 0,
        ensures
            match r {
                Ok(()) => declare(old(self)@.scopes, ident@, value@, var_type) == Ok::<
                    Frames,
                    EvalErrorView,
                >(final(self)@.scopes) && final(self)@ == old(self)@.with_scopes(
                    final(self)@.scopes,
                ),
                Err(e) => declare(old(self)@.scopes, ident@, value@, var_type) == Err::<
                    Frames,
                    EvalErrorView,
                >(e@) && final(self)@ == old(self)@,
            },
            final(self)@.scopes.len() == old(self)@.scopes.len(),
    {
        let value_type = type_of_value(&value);
        let stored = if var_type == Type::Auto {
            value_type
        } else if var_type == Type::Any || var_type == value_type {
            var_type
        } else {
            return Err(EvalError::TypeMismatch { expected: var_type, found: value_type });
        };
        let ghost before = self@.scopes;
        let variable = Variable::new(value, stored);
        let n = self.scopes.len();
        self.scopes[n - 1].insert(ident, variable);
        proof {
            assert(self@.scopes =~= before.update(n - 1, before.last().insert(ident@, variable@)));
        }
        Ok(())
    }
}

/// The text of one decimal digit.
fn digit_str(d: u64) -> (r: &'static str)
    requires
        d < 10,
    ensures
        r@ == seq![digit_char(d as int)],
{
    proof {
        reveal_strlit("0");
        reveal_strlit("1");
        reveal_strlit("2");
        reveal_strlit("3");
        reveal_strlit("4");
        reveal_strlit("5");
        reveal_strlit("6");
        reveal_strlit("7");
        reveal_strlit("8");
        reveal_strlit("9");
    }
    let r = if d == 0 {
        "0"
    } else if d == 1 {
        "1"
    } else if d == 2 {
        "2"
    } else if d == 3 {
        "3"
    } else if d == 4 {
        "4"
    } else if d == 5 {
        "5"
    } else if d == 6 {
        "6"
    } else if d == 7 {
        "7"
    } else if d == 8 {
        "8"
    } else {
        "9"
    };
    r
}

/// Appends the decimal digits of `n` to `out`.
fn append_digits(out: &mut String, n: u64)
    ensures
        final(out)@ == old(out)@ + decimal_digits(n as nat),
    decreases n,
{
    if n >= 10 {
        append_digits(out, n / 10);
    }
    out.append(digit_str(n % 10));
}

/// `n` in base 10.
fn int_text(n: i64) -> (r: String)
    ensures
        r@ == text_of_int(n as int),
{
    let mut out = String::new();
    if n < 0 {
        proof {
            reveal_strlit("-");
        }
        out.append("-");
        let magnitude: u64 = (-(n + 1)) as u64 + 1;
        append_digits(&mut out, magnitude);
    } else {
        append_digits(&mut out, n as u64);
    }
    out
}

/// What `print` writes for `value`, without the line's end.
fn text_for(value: &Value) -> (r: String)
    ensures
        r@ == text_of(value@),
{
    match value {
        Value::_String(s) => s.clone(),
        Value::_Int(n) => int_text(*n),
        Value::_Bool(b) => {
            proof {
                reveal_strlit("true");
                reveal_strlit("false");
            }
            let r = if *b {
                String::from_str("true")
            } else {
                String::from_str("false")
            };
            r
        },
    }
}

/// How a run ended, from what it returned and the state that it left.
pub open spec fn outcome(r: Result<(), EvalError>, state: InterpreterView) -> Run {
    Run {
        state,
        error: match r {
            Ok(()) => None,
            Err(e) => Some(e@),
        },
    }
}

/// Runs one statement.
fn exec_node(ctx: &mut Interpreter, node: &Node, fuel: u64) -> (r: Result<(), EvalError>)
    requires
        node@.wf(),
        old(ctx)@.scopes.len() > 0,
    ensures
        outcome(r, final(ctx)@) == run_node(node@, old(ctx)@, fuel as nat),
        final(ctx)@.scopes.len() == old(ctx)@.scopes.len(),
        final(ctx)@.step_limit == old(ctx)@.step_limit,
    decreases fuel, node, 0nat,
{
    match node {
        Node::Print(e) => {
            let v = match eval_in(e, ctx) {
                Ok(v) => v,
                Err(err) => {
                    return Err(err);
                },
            };
            let text = text_for(&v);
            proof {
                reveal_strlit("\n");
            }
            ctx.output.append(text.as_str());
            ctx.output.append("\n");
            proof {
                assert(ctx.output@ =~= old(ctx).output@ + text_of(v@) + seq!['\n']);
            }
            Ok(())
        },
        Node::Exit(e) => {
            let v = match eval_in(e, ctx) {
                Ok(v) => v,
                Err(err) => {
                    return Err(err);
                },
            };
            let code = match v {
                Value::_Int(n) => n,
                Value::_Bool(b) => if b {
                    0
                } else {
                    1
                },
                other => {
                    return Err(EvalError::ExitCode(type_of_value(&other)));
                },
            };
            ctx.exit_code = Some(code);
            Ok(())
        },
        Node::Let { ident, expr, var_type } => {
            let v = match eval_in(expr, ctx) {
                Ok(v) => v,
                Err(err) => {
                    return Err(err);
                },
            };
            ctx.init_var(ident.clone(), v, *var_type)
        },
        Node::Assign { ident, expr } => {
            let v = match eval_in(expr, ctx) {
                Ok(v) => v,
                Err(err) => {
                    return Err(err);
                },
            };
            ctx.set_var(ident.clone(), v)
        },
        Node::If { expr, body } => {
            let v = match eval_in(expr, ctx) {
                Ok(v) => v,
                Err(err) => {
                    return Err(err);
                },
            };
            if truthy(v) {
                match &**body {
                    Node::Scope(nodes) => {
                        proof {
                            assert(node_view(**body).wf());
                        }
                        exec_scope(ctx, nodes, fuel)
                    },
                    _ => Ok(()),
                }
            } else {
                Ok(())
            }
        },
        Node::While { expr, body } => match &**body {
            Node::Scope(nodes) => {
                proof {
                    assert(node_view(**body).wf());
                }
                exec_while(ctx, expr, nodes, fuel)
            },
            _ => Ok(()),
        },
        Node::Scope(nodes) => exec_scope(ctx, nodes, fuel),
    }
}

/// Runs the statements of a block in a scope of their own.
fn exec_scope(ctx: &mut Interpreter, nodes: &Vec<Node>, fuel: u64) -> (r: Result<(), EvalError>)
    requires
        all_wf(node_views(nodes@)),
    ensures
        outcome(r, final(ctx)@) == run_scope(node_views(nodes@), old(ctx)@, fuel as nat),
        final(ctx)@.scopes.len() == old(ctx)@.scopes.len(),
        final(ctx)@.step_limit == old(ctx)@.step_limit,
    decreases fuel, nodes, 1nat,
{
    let ghost views = node_views(nodes@);
    ctx.scopes.push(Scope::new());
    let ghost entered = ctx@;
    proof {
        assert(entered.scopes =~= old(ctx)@.scopes.push(Map::empty()));
        lemma_node_views(nodes@);
        lemma_all_wf(views);
    }
    let mut i: usize = 0;
    let mut result: Result<(), EvalError> = Ok(());
    let mut go = nodes.len() > 0 && ctx.exit_code.is_none();
    while go
        invariant
            views == node_views(nodes@),
            views.len() == nodes.len(),
            forall|k: int| 0 <= k < nodes.len() ==> #[trigger] views[k] == node_view(nodes[k]),
            forall|k: int| 0 <= k < views.len() ==> (#[trigger] views[k]).wf(),
            i <= nodes.len(),
            ctx@.scopes.len() == entered.scopes.len(),
            entered.scopes.len() == old(ctx)@.scopes.len() + 1,
            ctx@.step_limit == old(ctx)@.step_limit,
            go == (result is Ok && i < nodes.len() && !ctx@.halted()),
            run_nodes(views, 0, entered, fuel as nat) == (match result {
                Ok(()) => run_nodes(views, i as int, ctx@, fuel as nat),
                Err(e) => failed(ctx@, e@),
            }),
        decreases nodes.len() - i,
    {
        result = exec_node(ctx, &nodes[i], fuel);
        i += 1;
        go = result.is_ok() && i < nodes.len() && ctx.exit_code.is_none();
    }
    let ghost inner = ctx@;
    ctx.scopes.pop();
    proof {
        assert(ctx@.scopes =~= inner.scopes.drop_last());
    }
    result
}

/// Runs a loop.
fn exec_while(ctx: &mut Interpreter, cond: &Expr, body: &Vec<Node>, fuel: u64) -> (r: Result<
    (),
    EvalError,
>)
    requires
        cond@.wf(),
        all_wf(node_views(body@)),
    ensures
        outcome(r, final(ctx)@) == run_while(cond@, node_views(body@), old(ctx)@, fuel as nat),
        final(ctx)@.scopes.len() == old(ctx)@.scopes.len(),
        final(ctx)@.step_limit == old(ctx)@.step_limit,
    decreases fuel, body, 2nat,
{
    let ghost views = node_views(body@);
    let mut left = fuel;
    loop
        invariant
            cond@.wf(),
            views == node_views(body@),
            all_wf(views),
            left <= fuel,
            ctx@.scopes.len() == old(ctx)@.scopes.len(),
            ctx@.step_limit == old(ctx)@.step_limit,
            run_while(cond@, views, old(ctx)@, fuel as nat) == run_while(
                cond@,
                views,
                ctx@,
                left as nat,
            ),
        decreases left,
    {
        let v = match eval_in(cond, ctx) {
            Ok(v) => v,
            Err(err) => {
                return Err(err);
            },
        };
        if !truthy(v) {
            return Ok(());
        }
        if left == 0 {
            return Err(EvalError::StepLimit);
        }
        left -= 1;
        match exec_scope(ctx, body, left) {
            Ok(()) => {},
            Err(err) => {
                return Err(err);
            },
        }
        if ctx.exit_code.is_some() {
            return Ok(());
        }
    }
}

/// Runs a program: the statements in order, in a scope of their own,
/// up to the end, the first error or an `exit` statement. What was
/// printed before an error stays printed.
pub fn run_code(ctx: &mut Interpreter, nodes: Vec<Node>) -> (r: Result<(), EvalError>)
    requires
        all_wf(node_views(nodes@)),
    ensures
        outcome(r, final(ctx)@) == run(node_views(nodes@), old(ctx)@),
        final(ctx)@.scopes.len() == old(ctx)@.scopes.len(),
        final(ctx)@.step_limit == old(ctx)@.step_limit,
{
    let fuel = ctx.step_limit;
    exec_scope(ctx, &nodes, fuel)
}

} // verus!
