//! The evaluator: runs a syntax tree against an arena of scopes, collecting the
//! printed lines.
use vstd::prelude::*;
use vstd::string::StringExecFns;
use crate::ast::{
    same_value, truthy, BinaryOp, Block, Expression, Function, Iteration, Literal, LogicalOp,
    Primary, Program, Statement, UnaryOp, Value,
};
use crate::parser::is_for_loop;
use crate::environment::{assigned, bound, lookup, owner, rebound, Environment, Scope};
use std::rc::Rc;

verus! {

/// What the evaluator asks of its host about numbers. Numbers travel through the
/// library as the bit patterns of IEEE-754 doubles; the host computes with them.
pub trait Numbers {
    /// The value of a number literal, a run of digits with an optional fraction.
    fn number(&self, text: &str) -> u64;

    /// `+`, `-`, `*` or `/` of two numbers.
    fn arithmetic(&self, op: BinaryOp, left: u64, right: u64) -> u64;

    /// `<`, `<=`, `>` or `>=` of two numbers.
    fn compare(&self, op: BinaryOp, left: u64, right: u64) -> bool;

    /// `==` of two numbers.
    fn equal(&self, left: u64, right: u64) -> bool;

    /// The negation of a number.
    fn negate(&self, value: u64) -> u64;

    /// A number as `print` writes it.
    fn render(&self, value: u64) -> String;
}

/// How many calls may be nested: as many as the machine's stack holds.
pub const CALL_DEPTH: usize = usize::MAX;

/// A function value: the declaration and the scope it was declared in.
pub struct Closure {
    pub name: String,
    pub declaration: Rc<Function>,
    pub scope: usize,
}

/// How a statement ended.
pub enum Completion {
    Normal,
    Return(Value),
    Error(String),
}

/// The operators that compute a number from two numbers.
pub open spec fn is_arithmetic(op: BinaryOp) -> bool {
    op == BinaryOp::Plus || op == BinaryOp::Minus || op == BinaryOp::Multiply || op
        == BinaryOp::Divide
}

/// The operators that order two numbers.
pub open spec fn is_comparison(op: BinaryOp) -> bool {
    op == BinaryOp::Less || op == BinaryOp::LessEqual || op == BinaryOp::Greater || op
        == BinaryOp::GreaterEqual
}

/// A binary operator applied to operands of kinds it is not defined for.
pub open spec fn binary_fails(op: BinaryOp, l: Value, r: Value) -> bool {
    if op == BinaryOp::EqualEqual || op == BinaryOp::NotEqual {
        false
    } else if op == BinaryOp::Plus {
        !((l is Number && r is Number) || (l is String && r is String))
    } else {
        !(l is Number && r is Number)
    }
}

/// The value of `and` / `or` decided by the left operand alone, if it decides.
pub open spec fn decided(op: LogicalOp, left: Value) -> Option<Value> {
    if (op == LogicalOp::And && !truthy(left)) || (op == LogicalOp::Or && truthy(left)) {
        Some(left)
    } else {
        None
    }
}

/// The value of a constant other than a number.
pub open spec fn primary_value(p: Primary) -> Value {
    match p {
        Primary::String(s) => Value::String(s),
        Primary::Boolean(b) => Value::Boolean(b),
        _ => Value::Nil,
    }
}

/// How `print` writes a value other than a number.
pub open spec fn display(v: Value, names: Seq<Closure>) -> Seq<char> {
    match v {
        Value::String(s) => s@,
        Value::Boolean(b) => if b {
            "true"@
        } else {
            "false"@
        },
        Value::Nil => "nil"@,
        Value::Function(i) => "<function "@ + if 0 <= i < names.len() {
            names[i as int].name@
        } else {
            Seq::empty()
        } + ">"@,
        Value::Number(_) => Seq::empty(),
    }
}

/// What `op` gives for an operand, as far as it does not depend on the host:
/// `!` is exact; `-` of a number is a number; `-` of anything else fails.
pub open spec fn unary_outcome(op: UnaryOp, v: Value, names: Seq<Closure>, r: Result<Value, String>) -> bool {
    &&& op == UnaryOp::Not ==> r == Ok::<Value, String>(Value::Boolean(!truthy(v)))
    &&& op == UnaryOp::Minus ==> (r is Ok <==> v is Number)
    &&& op == UnaryOp::Minus && v is Number ==> (r matches Ok(Value::Number(_)))
    &&& op == UnaryOp::Minus && !(v is Number) ==> (r matches Err(m) && m@
        == "Can't apply unary operator '-' to "@ + display(v, names))
}

/// What `op` gives for two operands, as far as it does not depend on the host:
/// it fails exactly on operands it is not defined for; equality of non-numbers
/// and joining strings are exact; numbers give a number or a boolean.
pub open spec fn binary_outcome(
    op: BinaryOp,
    l: Value,
    r: Value,
    names: Seq<Closure>,
    res: Result<Value, String>,
) -> bool {
    &&& res is Err <==> binary_fails(op, l, r)
    &&& binary_fails(op, l, r) && !(l is Number) && !(r is Number) ==> res->Err_0@ == "'"@
        + op_symbol(op) + "' operator is not defined for "@ + display(l, names) + " and "@
        + display(r, names)
    &&& op == BinaryOp::EqualEqual && !(l is Number && r is Number) ==> res == Ok::<Value, String>(
        Value::Boolean(same_value(l, r)),
    )
    &&& op == BinaryOp::NotEqual && !(l is Number && r is Number) ==> res == Ok::<Value, String>(
        Value::Boolean(!same_value(l, r)),
    )
    &&& op == BinaryOp::Plus && l is String && r is String ==> (res matches Ok(Value::String(s))
        && s@ == l->String_0@ + r->String_0@)
    &&& is_arithmetic(op) && l is Number && r is Number ==> (res matches Ok(Value::Number(_)))
    &&& is_comparison(op) && l is Number && r is Number ==> (res matches Ok(Value::Boolean(_)))
}

/// Names an intermediate session and result, so that a proof can point at them.
pub open spec fn midway(mid: Interpreter, v: Result<Value, String>) -> bool {
    true
}

/// The same session but for its scopes.
pub open spec fn same_but_scopes(a: Interpreter, b: Interpreter) -> bool {
    &&& a.functions == b.functions
    &&& a.output == b.output
    &&& a.steps == b.steps
}

/// Evaluating `e` in scope `scope` takes the session from `before` to `after`
/// and gives `r`. Operands are evaluated left to right and an error stops
/// evaluation; the right operand of `and` / `or` is evaluated only if the left
/// one does not decide. A call first evaluates its callee, and fails on a value
/// that is not a function; the call of a function is described by what it
/// leaves: a session grown from the one after the callee.
pub open spec fn evaluates_to(
    e: Expression,
    scope: int,
    before: Interpreter,
    after: Interpreter,
    r: Result<Value, String>,
) -> bool
    decreases e,
{
    match e {
        Expression::Literal(Literal::Variable(name)) => {
            &&& after == before
            &&& match lookup(before.env.scopes@, scope, name@) {
                Some(v) => r == Ok::<Value, String>(v),
                None => (r matches Err(m) && m@ == name@ + " not defined"@),
            }
        },
        Expression::Literal(Literal::Primary(p)) => {
            &&& after == before
            &&& p is Number ==> (r matches Ok(Value::Number(_)))
            &&& !(p is Number) ==> r == Ok::<Value, String>(primary_value(p))
        },
        Expression::Grouping(inner) => evaluates_to(*inner, scope, before, after, r),
        Expression::Unary(u) => exists|mid: Interpreter, v: Result<Value, String>|
            #[trigger] midway(mid, v) && evaluates_to(*u.expression, scope, before, mid, v) && after == mid && match v {
                Ok(x) => unary_outcome(u.op, x, mid.functions@, r),
                Err(_) => r == v,
            },
        Expression::Binary(b) => exists|m1: Interpreter, v1: Result<Value, String>|
            #[trigger] midway(m1, v1) && evaluates_to(*b.left, scope, before, m1, v1) && match v1 {
                Err(_) => after == m1 && r == v1,
                Ok(x) => exists|v2: Result<Value, String>|
                    #[trigger] midway(after, v2) && evaluates_to(*b.right, scope, m1, after, v2) && match v2 {
                        Err(_) => r == v2,
                        Ok(y) => binary_outcome(b.op, x, y, after.functions@, r),
                    },
            },
        Expression::Logical(l) => exists|m1: Interpreter, v1: Result<Value, String>|
            #[trigger] midway(m1, v1) && evaluates_to(*l.left, scope, before, m1, v1) && match v1 {
                Err(_) => after == m1 && r == v1,
                Ok(x) => match decided(l.op, x) {
                    Some(d) => after == m1 && r == Ok::<Value, String>(d),
                    None => evaluates_to(*l.right, scope, m1, after, r),
                },
            },
        Expression::Assignment(a) => exists|m1: Interpreter, v1: Result<Value, String>|
            #[trigger] midway(m1, v1) && evaluates_to(*a.value, scope, before, m1, v1) && match v1 {
                Err(_) => after == m1 && r == v1,
                Ok(x) => match owner(m1.env.scopes@, scope, a.variable@) {
                    Some(o) => {
                        &&& r == Ok::<Value, String>(x)
                        &&& assigned(m1.env.scopes@, after.env.scopes@, o, a.variable@, x)
                        &&& same_but_scopes(after, m1)
                    },
                    None => {
                        &&& after == m1
                        &&& (r matches Err(m) && m@ == "Variable '"@ + a.variable@
                            + "' not declared"@)
                    },
                },
            },
        Expression::Call(c) => exists|m0: Interpreter, f: Result<Value, String>|
            #[trigger] midway(m0, f) && evaluates_to(*c.callee, scope, before, m0, f) && match f {
                Err(_) => after == m0 && r == f,
                Ok(Value::Function(_)) => after.grows_from(&m0),
                Ok(v) => {
                    &&& after == m0
                    &&& r is Err
                    &&& !(v is Number) ==> r->Err_0@ == display(v, m0.functions@) + " is not callable"@
                },
            },
    }
}

/// Scope `scope` now binds `name` to `v`, all else in the arena as before.
pub open spec fn declared(before: Seq<Scope>, after: Seq<Scope>, scope: int, name: Seq<char>, v: Value) -> bool {
    &&& rebound(before, after, scope)
    &&& forall|k: Seq<char>|
        bound(#[trigger] after[scope].entries@, k) == if k == name {
            Some(v)
        } else {
            bound(before[scope].entries@, k)
        }
}

/// Names the sessions of a block run, so that a proof can point at them.
pub open spec fn opened_at(start: Interpreter, i: int, mid: Interpreter) -> bool {
    true
}

/// Names the sessions at the end of a loop, so that a proof can point at them.
pub open spec fn loop_end(k: int, mid: Interpreter, m1: Interpreter, v: Result<Value, String>) -> bool {
    true
}

/// Names an intermediate session, so that a proof can point at it.
pub open spec fn passed(mid: Interpreter) -> bool {
    true
}

/// `after` is `before` with one more scope, empty and enclosed by `parent`.
pub open spec fn opened(before: Interpreter, after: Interpreter, parent: int) -> bool {
    &&& after.env.scopes@.len() == before.env.scopes@.len() + 1
    &&& forall|j: int|
        0 <= j < before.env.scopes@.len() ==> #[trigger] after.env.scopes@[j] == before.env.scopes@[j]
    &&& after.env.scopes@.last().entries@.len() == 0
    &&& after.env.scopes@.last().parent == Some(parent as usize)
    &&& after.functions == before.functions
    &&& after.output == before.output
    &&& after.steps == before.steps
}

/// The first `i` statements of block `b` ran to normal completion in scope
/// `scope`, from `start` to `mid`.
pub open spec fn ran(b: Block, i: int, scope: int, start: Interpreter, mid: Interpreter) -> bool
    decreases b, i,
{
    if i <= 0 || i > b.statements@.len() {
        i == 0 && mid == start
    } else {
        exists|m: Interpreter|
            #[trigger] passed(m) && ran(b, i - 1, scope, start, m) && executes_to(
                b.statements@[i - 1],
                scope,
                m,
                mid,
                Completion::Normal,
            )
    }
}

/// Names the sessions of a loop round, so that a proof can point at them.
pub open spec fn round(m: Interpreter, m1: Interpreter, m2: Interpreter, x: Value) -> bool {
    true
}

/// `after` is `before` with one loop iteration fewer left.
pub open spec fn spent_step(before: Interpreter, after: Interpreter) -> bool {
    &&& after.env == before.env
    &&& after.functions == before.functions
    &&& after.output == before.output
    &&& before.steps > 0
    &&& after.steps == before.steps - 1
}

/// `k` rounds of loop `w` ran in scope `scope` from `start` to `mid`: in each the
/// condition was truthy, one iteration was spent, and the body completed normally.
pub open spec fn looped(w: Iteration, k: int, scope: int, start: Interpreter, mid: Interpreter) -> bool
    decreases w, k,
{
    if k <= 0 {
        k == 0 && mid == start
    } else {
        exists|m: Interpreter, m1: Interpreter, m2: Interpreter, x: Value|
            #[trigger] round(m, m1, m2, x) && looped(w, k - 1, scope, start, m) && evaluates_to(
                w.cond,
                scope,
                m,
                m1,
                Ok(x),
            ) && truthy(x) && spent_step(m1, m2) && executes_to(
                *w.body,
                scope,
                m2,
                mid,
                Completion::Normal,
            )
    }
}

/// Running `s` in scope `scope` takes the session from `before` to `after` and
/// completes with `r`. Blocks and loops are described by what they leave: a
/// session grown from `before`.
pub open spec fn executes_to(s: Statement, scope: int, before: Interpreter, after: Interpreter, r: Completion) -> bool
    decreases s, 0int,
{
    match s {
        Statement::Expression(e) => exists|v: Result<Value, String>|
            #[trigger] midway(after, v) && evaluates_to(e, scope, before, after, v) && match v {
                Ok(_) => r is Normal,
                Err(m) => r == Completion::Error(m),
            },
        Statement::Return(e) => exists|v: Result<Value, String>|
            #[trigger] midway(after, v) && evaluates_to(e, scope, before, after, v) && match v {
                Ok(x) => r == Completion::Return(x),
                Err(m) => r == Completion::Error(m),
            },
        Statement::Print(e) => exists|mid: Interpreter, v: Result<Value, String>|
            #[trigger] midway(mid, v) && evaluates_to(e, scope, before, mid, v) && match v {
                Err(m) => after == mid && r == Completion::Error(m),
                Ok(x) => {
                    &&& r is Normal
                    &&& after.env == mid.env
                    &&& after.functions == mid.functions
                    &&& after.steps == mid.steps
                    &&& after.output@.len() == mid.output@.len() + 1
                    &&& after.output@.drop_last() == mid.output@
                    &&& !(x is Number) ==> after.output@.last()@ == display(x, mid.functions@)
                },
            },
        Statement::Declaration(d) => match d.value {
            None => {
                &&& r is Normal
                &&& declared(before.env.scopes@, after.env.scopes@, scope, d.name@, Value::Nil)
                &&& same_but_scopes(after, before)
            },
            Some(e) => exists|mid: Interpreter, v: Result<Value, String>|
                #[trigger] midway(mid, v) && evaluates_to(e, scope, before, mid, v) && match v {
                    Err(m) => after == mid && r == Completion::Error(m),
                    Ok(x) => {
                        &&& r is Normal
                        &&& declared(mid.env.scopes@, after.env.scopes@, scope, d.name@, x)
                        &&& same_but_scopes(after, mid)
                    },
                },
        },
        Statement::Function(f) => {
            let index = before.functions@.len();
            &&& r is Normal
            &&& after.functions@.len() == index + 1
            &&& after.functions@.drop_last() == before.functions@
            &&& after.functions@.last().name@ == f.name@
            &&& after.functions@.last().scope == scope
            &&& declared(before.env.scopes@, after.env.scopes@, scope, f.name@, Value::Function(index as usize))
            &&& after.output == before.output
            &&& after.steps == before.steps
        },
        Statement::Conditional(c) => exists|mid: Interpreter, v: Result<Value, String>|
            #[trigger] midway(mid, v) && evaluates_to(c.cond, scope, before, mid, v) && match v {
                Err(m) => after == mid && r == Completion::Error(m),
                Ok(x) => if truthy(x) {
                    executes_to(*c.success, scope, mid, after, r)
                } else {
                    match c.failure {
                        Some(other) => executes_to(*other, scope, mid, after, r),
                        None => after == mid && r is Normal,
                    }
                },
            },
        Statement::Block(b) => exists|start: Interpreter, i: int, mid: Interpreter|
            #[trigger] opened_at(start, i, mid) && opened(before, start, scope) && ran(
                b,
                i,
                before.env.scopes@.len() as int,
                start,
                mid,
            ) && if i == b.statements@.len() {
                after == mid && r is Normal
            } else {
                &&& 0 <= i < b.statements@.len()
                &&& executes_to(b.statements@[i], before.env.scopes@.len() as int, mid, after, r)
                &&& !(r is Normal)
            },
        Statement::Iteration(w) => exists|k: int, mid: Interpreter, m1: Interpreter, v: Result<Value, String>|
            #[trigger] loop_end(k, mid, m1, v) && looped(w, k, scope, before, mid) && evaluates_to(
                w.cond,
                scope,
                mid,
                m1,
                v,
            ) && match v {
                Err(m) => after == m1 && r == Completion::Error(m),
                Ok(x) => if !truthy(x) {
                    after == m1 && r is Normal
                } else if m1.steps == 0 {
                    after == m1 && (r matches Completion::Error(m) && m@ == "Too many loop iterations."@)
                } else {
                    exists|m2: Interpreter|
                        #[trigger] passed(m2) && spent_step(m1, m2) && executes_to(
                            *w.body,
                            scope,
                            m2,
                            after,
                            r,
                        ) && !(r is Normal)
                },
            },
    }
}

/// `and` / `or` by the left operand alone: the operand itself where it decides.
pub fn short_circuit(op: LogicalOp, left: &Value) -> (r: Option<Value>)
    ensures
        r == decided(op, *left),
{
    let t = left.is_truthy();
    match op {
        LogicalOp::And => if !t {
            Some(left.copy())
        } else {
            None
        },
        LogicalOp::Or => if t {
            Some(left.copy())
        } else {
            None
        },
    }
}

/// Equality of values: numbers as the host compares them, all else by kind and
/// contents; values of different kinds are never equal.
pub fn values_equal<N: Numbers>(l: &Value, r: &Value, numbers: &N) -> (res: bool)
    ensures
        !(l is Number && r is Number) ==> res == same_value(*l, *r),
{
    match (l, r) {
        (Value::Number(a), Value::Number(b)) => numbers.equal(*a, *b),
        (Value::String(a), Value::String(b)) => *a == *b,
        (Value::Boolean(a), Value::Boolean(b)) => *a == *b,
        (Value::Nil, Value::Nil) => true,
        (Value::Function(a), Value::Function(b)) => *a == *b,
        _ => false,
    }
}

/// `and` and `or` stop at a deciding left operand and give that operand itself,
/// not a boolean made from it: a falsy operand decides `and`, a truthy one `or`.
pub proof fn lemma_short_circuit(v: Value)
    ensures
        !truthy(v) ==> decided(LogicalOp::And, v) == Some(v),
        truthy(v) ==> decided(LogicalOp::Or, v) == Some(v),
        decided(LogicalOp::And, Value::Boolean(false)) == Some(Value::Boolean(false)),
        decided(LogicalOp::Or, Value::Boolean(true)) == Some(Value::Boolean(true)),
        truthy(v) ==> decided(LogicalOp::And, v) is None,
        !truthy(v) ==> decided(LogicalOp::Or, v) is None,
{
}

/// `false and X` and `true or X` never evaluate `X`: when the left operand is a
/// constant that decides, evaluation leaves the session as it was, whatever `X`
/// is, and gives that constant itself.
pub proof fn lemma_short_circuit_skips_right(
    l: crate::ast::Logical,
    scope: int,
    before: Interpreter,
    after: Interpreter,
    r: Result<Value, String>,
    p: Primary,
)
    requires
        evaluates_to(Expression::Logical(l), scope, before, after, r),
        *l.left == Expression::Literal(Literal::Primary(p)),
        !(p is Number),
        decided(l.op, primary_value(p)) is Some,
    ensures
        after == before,
        r == Ok::<Value, String>(primary_value(p)),
{
    let (m1, v1) = choose|m1: Interpreter, v1: Result<Value, String>|
        #[trigger] midway(m1, v1) && evaluates_to(*l.left, scope, before, m1, v1) && match v1 {
            Err(_) => after == m1 && r == v1,
            Ok(x) => match decided(l.op, x) {
                Some(d) => after == m1 && r == Ok::<Value, String>(d),
                None => evaluates_to(*l.right, scope, m1, after, r),
            },
        };
    assert(m1 == before && v1 == Ok::<Value, String>(primary_value(p)));
}

/// `s1` and `s2` run alike: from any session, to the same sessions and outcomes.
pub open spec fn alike(s1: Statement, s2: Statement) -> bool {
    forall|scope: int, before: Interpreter, after: Interpreter, r: Completion|
        #[trigger] executes_to(s1, scope, before, after, r) == executes_to(s2, scope, before, after, r)
}

proof fn lemma_ran_alike(b1: Block, b2: Block, i: int, scope: int, start: Interpreter, mid: Interpreter)
    requires
        b1.statements@.len() == b2.statements@.len(),
        forall|j: int| 0 <= j < b1.statements@.len() ==> alike(#[trigger] b1.statements@[j], b2.statements@[j]),
    ensures
        ran(b1, i, scope, start, mid) ==> ran(b2, i, scope, start, mid),
    decreases i,
{
    if 0 < i <= b1.statements@.len() && ran(b1, i, scope, start, mid) {
        let m = choose|m: Interpreter|
            #[trigger] passed(m) && ran(b1, i - 1, scope, start, m) && executes_to(
                b1.statements@[i - 1],
                scope,
                m,
                mid,
                Completion::Normal,
            );
        lemma_ran_alike(b1, b2, i - 1, scope, start, m);
        assert(alike(b1.statements@[i - 1], b2.statements@[i - 1]));
        assert(executes_to(b2.statements@[i - 1], scope, m, mid, Completion::Normal));
        assert(passed(m));
    }
}

proof fn lemma_blocks_alike(b1: Block, b2: Block)
    requires
        b1.statements@.len() == b2.statements@.len(),
        forall|j: int| 0 <= j < b1.statements@.len() ==> alike(#[trigger] b1.statements@[j], b2.statements@[j]),
        forall|j: int| 0 <= j < b1.statements@.len() ==> alike(#[trigger] b2.statements@[j], b1.statements@[j]),
    ensures
        alike(Statement::Block(b1), Statement::Block(b2)),
{
    assert forall|scope: int, before: Interpreter, after: Interpreter, r: Completion|
        #[trigger] executes_to(Statement::Block(b1), scope, before, after, r) == executes_to(
            Statement::Block(b2),
            scope,
            before,
            after,
            r,
        ) by {
        lemma_block_step(b1, b2, scope, before, after, r);
        lemma_block_step(b2, b1, scope, before, after, r);
    }
}

proof fn lemma_block_step(b1: Block, b2: Block, scope: int, before: Interpreter, after: Interpreter, r: Completion)
    requires
        b1.statements@.len() == b2.statements@.len(),
        forall|j: int| 0 <= j < b1.statements@.len() ==> alike(#[trigger] b1.statements@[j], b2.statements@[j]),
    ensures
        executes_to(Statement::Block(b1), scope, before, after, r) ==> executes_to(
            Statement::Block(b2),
            scope,
            before,
            after,
            r,
        ),
{
    if executes_to(Statement::Block(b1), scope, before, after, r) {
        let inner = before.env.scopes@.len() as int;
        let (st, i, mid) = choose|st: Interpreter, i: int, mid: Interpreter|
            #[trigger] opened_at(st, i, mid) && opened(before, st, scope) && ran(b1, i, inner, st, mid)
                && if i == b1.statements@.len() {
                after == mid && r is Normal
            } else {
                &&& 0 <= i < b1.statements@.len()
                &&& executes_to(b1.statements@[i], inner, mid, after, r)
                &&& !(r is Normal)
            };
        lemma_ran_alike(b1, b2, i, inner, st, mid);
        if i != b1.statements@.len() {
            assert(alike(b1.statements@[i], b2.statements@[i]));
            assert(executes_to(b2.statements@[i], inner, mid, after, r));
        }
        assert(opened_at(st, i, mid));
    }
}

proof fn lemma_looped_alike(w1: Iteration, w2: Iteration, k: int, scope: int, start: Interpreter, mid: Interpreter)
    requires
        w1.cond == w2.cond,
        alike(*w1.body, *w2.body),
    ensures
        looped(w1, k, scope, start, mid) ==> looped(w2, k, scope, start, mid),
    decreases k,
{
    if k > 0 && looped(w1, k, scope, start, mid) {
        let (m, m1, m2, x) = choose|m: Interpreter, m1: Interpreter, m2: Interpreter, x: Value|
            #[trigger] round(m, m1, m2, x) && looped(w1, k - 1, scope, start, m) && evaluates_to(
                w1.cond,
                scope,
                m,
                m1,
                Ok(x),
            ) && truthy(x) && spent_step(m1, m2) && executes_to(
                *w1.body,
                scope,
                m2,
                mid,
                Completion::Normal,
            );
        lemma_looped_alike(w1, w2, k - 1, scope, start, m);
        assert(executes_to(*w2.body, scope, m2, mid, Completion::Normal));
        assert(round(m, m1, m2, x));
    }
}

proof fn lemma_loop_step(w1: Iteration, w2: Iteration, scope: int, before: Interpreter, after: Interpreter, r: Completion)
    requires
        w1.cond == w2.cond,
        alike(*w1.body, *w2.body),
    ensures
        executes_to(Statement::Iteration(w1), scope, before, after, r) ==> executes_to(
            Statement::Iteration(w2),
            scope,
            before,
            after,
            r,
        ),
{
    if executes_to(Statement::Iteration(w1), scope, before, after, r) {
        let (k, mid, m1, v) = choose|k: int, mid: Interpreter, m1: Interpreter, v: Result<Value, String>|
            #[trigger] loop_end(k, mid, m1, v) && looped(w1, k, scope, before, mid) && evaluates_to(
                w1.cond,
                scope,
                mid,
                m1,
                v,
            ) && match v {
                Err(m) => after == m1 && r == Completion::Error(m),
                Ok(x) => if !truthy(x) {
                    after == m1 && r is Normal
                } else if m1.steps == 0 {
                    after == m1 && (r matches Completion::Error(m) && m@ == "Too many loop iterations."@)
                } else {
                    exists|m2: Interpreter|
                        #[trigger] passed(m2) && spent_step(m1, m2) && executes_to(
                            *w1.body,
                            scope,
                            m2,
                            after,
                            r,
                        ) && !(r is Normal)
                },
            };
        lemma_looped_alike(w1, w2, k, scope, before, mid);
        if v is Ok && truthy(v->Ok_0) && m1.steps != 0 {
            let m2 = choose|m2: Interpreter|
                #[trigger] passed(m2) && spent_step(m1, m2) && executes_to(*w1.body, scope, m2, after, r)
                    && !(r is Normal);
            assert(executes_to(*w2.body, scope, m2, after, r));
            assert(passed(m2));
        }
        assert(loop_end(k, mid, m1, v));
    }
}

proof fn lemma_loops_alike(w1: Iteration, w2: Iteration)
    requires
        w1.cond == w2.cond,
        alike(*w1.body, *w2.body),
        alike(*w2.body, *w1.body),
    ensures
        alike(Statement::Iteration(w1), Statement::Iteration(w2)),
{
    assert forall|scope: int, before: Interpreter, after: Interpreter, r: Completion|
        #[trigger] executes_to(Statement::Iteration(w1), scope, before, after, r) == executes_to(
            Statement::Iteration(w2),
            scope,
            before,
            after,
            r,
        ) by {
        lemma_loop_step(w1, w2, scope, before, after, r);
        lemma_loop_step(w2, w1, scope, before, after, r);
    }
}

/// A `for` loop runs exactly as the block it stands for: any two statements of
/// the shape that `for (init; cond; inc) body` is read into, such as the parsed
/// `for` loop and `{ init; while (cond) { body; inc; } }` written out, run alike
/// from every session.
pub proof fn lemma_for_loop_runs_as_written(
    s1: Statement,
    s2: Statement,
    init: Option<Statement>,
    cond: Option<Expression>,
    inc: Option<Expression>,
    body: Statement,
)
    requires
        is_for_loop(s1, init, cond, inc, body),
        is_for_loop(s2, init, cond, inc, body),
    ensures
        alike(s1, s2),
{
    let o1 = s1->Block_0;
    let o2 = s2->Block_0;
    let n = o1.statements@.len() as int;
    let w1 = o1.statements@[n - 1];
    let w2 = o2.statements@[n - 1];
    let l1 = w1->Iteration_0;
    let l2 = w2->Iteration_0;
    match inc {
        Some(i) => {
            let b1 = (*l1.body)->Block_0;
            let b2 = (*l2.body)->Block_0;
            assert(b1.statements@ == b2.statements@);
            lemma_blocks_alike(b1, b2);
            lemma_blocks_alike(b2, b1);
            assert(*l1.body == Statement::Block(b1));
            assert(*l2.body == Statement::Block(b2));
        },
        None => {},
    }
    lemma_loops_alike(l1, l2);
    lemma_loops_alike(l2, l1);
    assert(w1 == Statement::Iteration(l1));
    assert(w2 == Statement::Iteration(l2));
    assert forall|j: int| 0 <= j < o1.statements@.len() implies alike(
        #[trigger] o1.statements@[j],
        o2.statements@[j],
    ) && alike(o2.statements@[j], o1.statements@[j]) by {
        if j == n - 1 {
            assert(o1.statements@[j] == w1);
            assert(o2.statements@[j] == w2);
        } else {
            assert(o1.statements@[j] == o2.statements@[j]);
        }
    }
    lemma_blocks_alike(o1, o2);
    assert(s1 == Statement::Block(o1));
    assert(s2 == Statement::Block(o2));
}

/// Only `false` and `nil` are falsy: every number (zero too), every string (the
/// empty one too), `true` and every function are truthy.
pub proof fn lemma_truthiness(v: Value)
    ensures
        !truthy(v) <==> (v is Nil || v == Value::Boolean(false)),
        v is Number ==> truthy(v),
        v is String ==> truthy(v),
        v is Function ==> truthy(v),
{
}

/// `nil == nil`; `nil` equals no number (nor any other value but `nil`); strings
/// are equal when their characters are.
pub proof fn lemma_equality(n: u64, a: String, b: String, v: Value)
    ensures
        same_value(Value::Nil, Value::Nil),
        !same_value(Value::Nil, Value::Number(n)),
        !(v is Nil) ==> !same_value(Value::Nil, v),
        same_value(Value::String(a), Value::String(b)) <==> a@ == b@,
{
}

/// How an error message writes a binary operator.
pub open spec fn op_symbol(op: BinaryOp) -> Seq<char> {
    match op {
        BinaryOp::EqualEqual => "=="@,
        BinaryOp::NotEqual => "!="@,
        BinaryOp::Less => "<"@,
        BinaryOp::LessEqual => "<="@,
        BinaryOp::Greater => ">"@,
        BinaryOp::GreaterEqual => ">="@,
        BinaryOp::Plus => "+"@,
        BinaryOp::Minus => "-"@,
        BinaryOp::Multiply => "*"@,
        BinaryOp::Divide => "/"@,
    }
}

/// How an error message writes a binary operator.
fn op_name(op: BinaryOp) -> (r: &'static str)
    ensures
        r@ == op_symbol(op),
{
    proof {
        reveal_strlit("==");
        reveal_strlit("!=");
        reveal_strlit("<");
        reveal_strlit("<=");
        reveal_strlit(">");
        reveal_strlit(">=");
        reveal_strlit("+");
        reveal_strlit("-");
        reveal_strlit("*");
        reveal_strlit("/");
    }
    match op {
        BinaryOp::EqualEqual => "==",
        BinaryOp::NotEqual => "!=",
        BinaryOp::Less => "<",
        BinaryOp::LessEqual => "<=",
        BinaryOp::Greater => ">",
        BinaryOp::GreaterEqual => ">=",
        BinaryOp::Plus => "+",
        BinaryOp::Minus => "-",
        BinaryOp::Multiply => "*",
        BinaryOp::Divide => "/",
    }
}

/// An interpreter session: the scopes, the closures made so far, the lines
/// printed so far, and the loop iterations left.
pub struct Interpreter {
    pub env: Environment,
    pub functions: Vec<Closure>,
    pub output: Vec<String>,
    pub steps: u64,
}

impl Interpreter {
    pub open spec fn wf(&self) -> bool {
        &&& self.env.wf()
        &&& forall|i: int|
            0 <= i < self.functions@.len() ==> #[trigger] self.functions@[i].scope
                < self.env.scopes@.len()
    }

    /// What only grows while a program runs.
    pub open spec fn grows_from(&self, before: &Interpreter) -> bool {
        &&& before.env.scopes@.len() <= self.env.scopes@.len()
        &&& before.functions@.len() <= self.functions@.len()
        &&& forall|i: int|
            0 <= i < before.functions@.len() ==> #[trigger] self.functions@[i] == before.functions@[i]
        &&& before.output@.len() <= self.output@.len()
        &&& forall|i: int| 0 <= i < before.output@.len() ==> #[trigger] self.output@[i] == before.output@[i]
        &&& self.steps <= before.steps
    }

    /// A session with an empty global scope that may run `steps` loop iterations.
    pub fn new(steps: u64) -> (r: Interpreter)
        ensures
            r.wf(),
            r.env.scopes@[0].entries@.len() == 0,
            r.env.scopes@[0].parent is None,
            r.env.scopes@.len() == 1,
            r.functions@.len() == 0,
            r.output@.len() == 0,
            r.steps == steps,
    {
        Interpreter { env: Environment::new(), functions: Vec::new(), output: Vec::new(), steps }
    }

    /// Evaluates `e` for code running in scope `scope`, with `depth` more calls
    /// allowed to nest.
    pub fn evaluate<N: Numbers>(&mut self, e: &Expression, scope: usize, depth: usize, numbers: &N) -> (r:
        Result<Value, String>)
        requires
            old(self).wf(),
            scope < old(self).env.scopes@.len(),
        ensures
            final(self).wf(),
            final(self).grows_from(old(self)),
            evaluates_to(*e, scope as int, *old(self), *final(self), r),
        decreases depth, 0nat, e, 1nat,
    {
        let ghost before = *self;
        match e {
            Expression::Literal(Literal::Variable(name)) => {
                match self.env.get(scope, name) {
                    Some(v) => Ok(v),
                    None => {
                        let mut m = name.clone();
                        m.append(" not defined");
                        proof {
                            reveal_strlit(" not defined");
                        }
                        Err(m)
                    },
                }
            },
            Expression::Literal(Literal::Primary(p)) => Ok(
                match p {
                    Primary::Number(text) => Value::Number(numbers.number(text.as_str())),
                    Primary::String(s) => Value::String(s.clone()),
                    Primary::Boolean(b) => Value::Boolean(*b),
                    Primary::Nil => Value::Nil,
                },
            ),
            Expression::Unary(u) => {
                let v = self.evaluate(&u.expression, scope, depth, numbers);
                let ghost mid = *self;
                let ghost gv = v;
                let r = match v {
                    Ok(x) => self.unary(u.op, &x, numbers),
                    Err(m) => Err(m),
                };
                proof {
                    assert(midway(mid, gv));
                    assert(evaluates_to(*u.expression, scope as int, before, mid, gv));
                    assert(evaluates_to(*e, scope as int, before, *self, r));
                }
                r
            },
            Expression::Binary(b) => {
                let v1 = self.evaluate(&b.left, scope, depth, numbers);
                let ghost m1 = *self;
                let ghost g1 = v1;
                let r = match v1 {
                    Err(m) => Err(m),
                    Ok(x) => {
                        let v2 = self.evaluate(&b.right, scope, depth, numbers);
                        let ghost m2 = *self;
                        let ghost g2 = v2;
                        let r2 = match v2 {
                            Ok(y) => self.binary(b.op, &x, &y, numbers),
                            Err(m) => Err(m),
                        };
                        proof {
                            assert(midway(m2, g2));
                            assert(evaluates_to(*b.right, scope as int, m1, m2, g2));
                        }
                        r2
                    },
                };
                proof {
                    assert(midway(m1, g1));
                    assert(evaluates_to(*b.left, scope as int, before, m1, g1));
                    assert(evaluates_to(*e, scope as int, before, *self, r));
                }
                r
            },
            Expression::Logical(l) => {
                let v1 = self.evaluate(&l.left, scope, depth, numbers);
                let ghost m1 = *self;
                let ghost g1 = v1;
                let r = match v1 {
                    Err(m) => Err(m),
                    Ok(left) => match short_circuit(l.op, &left) {
                        Some(v) => Ok(v),
                        None => self.evaluate(&l.right, scope, depth, numbers),
                    },
                };
                proof {
                    assert(midway(m1, g1));
                    assert(evaluates_to(*l.left, scope as int, before, m1, g1));
                    assert(evaluates_to(*e, scope as int, before, *self, r));
                }
                r
            },
            Expression::Grouping(inner) => self.evaluate(inner, scope, depth, numbers),
            Expression::Assignment(a) => {
                let v1 = self.evaluate(&a.value, scope, depth, numbers);
                let ghost m1 = *self;
                let ghost g1 = v1;
                let r = match v1 {
                    Err(m) => Err(m),
                    Ok(x) => {
                        let r1 = self.env.assign(scope, a.variable.clone(), x);
                        proof {
                            reveal_strlit("Variable '");
                            reveal_strlit("' not declared");
                            assert forall|i: int| 0 <= i < self.functions@.len() implies #[trigger] self.functions@[i].scope
                                < self.env.scopes@.len() by {}
                        }
                        r1
                    },
                };
                proof {
                    assert(midway(m1, g1));
                    assert(evaluates_to(*a.value, scope as int, before, m1, g1));
                    assert(evaluates_to(*e, scope as int, before, *self, r));
                }
                r
            },
            Expression::Call(c) => self.call(e, &c.callee, &c.arguments, scope, depth, numbers),
        }
    }

    /// Calls the value of `callee` with the values of `arguments`: the body runs in
    /// a new scope, enclosed by the closure's, that binds the parameters.
    fn call<N: Numbers>(
        &mut self,
        e: &Expression,
        callee: &Expression,
        arguments: &Vec<Expression>,
        scope: usize,
        depth: usize,
        numbers: &N,
    ) -> (r: Result<Value, String>)
        requires
            old(self).wf(),
            scope < old(self).env.scopes@.len(),
            e matches Expression::Call(c) && *c.callee == *callee && c.arguments == *arguments,
        ensures
            final(self).wf(),
            final(self).grows_from(old(self)),
            evaluates_to(*e, scope as int, *old(self), *final(self), r),
        decreases depth, 0nat, e, 0nat,
    {
        let ghost before = *self;
        let f = self.evaluate(callee, scope, depth, numbers);
        let ghost m0 = *self;
        let ghost gf = f;
        proof {
            assert(midway(m0, gf));
            assert(evaluates_to(*callee, scope as int, before, m0, gf));
        }
        let f = match f {
            Ok(v) => v,
            Err(m) => {
                return Err(m);
            },
        };
        let index = match f {
            Value::Function(i) => i,
            _ => {
                let mut m = self.display(&f, numbers);
                m.append(" is not callable");
                proof {
                    reveal_strlit(" is not callable");
                }
                return Err(m);
            },
        };
        if index >= self.functions.len() {
            return Err(String::from_str("value is not callable"));
        }
        let mut values: Vec<Value> = Vec::new();
        let mut i: usize = 0;
        while i < arguments.len()
            invariant
                self.wf(),
                self.grows_from(old(self)),
                self.grows_from(&m0),
                before == *old(self),
                gf == Ok::<Value, String>(Value::Function(index)),
                evaluates_to(*callee, scope as int, before, m0, gf),
                scope < self.env.scopes@.len(),
                index < self.functions@.len(),
                i <= arguments@.len(),
                e matches Expression::Call(c) && c.arguments == *arguments && *c.callee == *callee,
            decreases arguments@.len() - i,
        {
            proof {
                assert(decreases_to!(*arguments => arguments@[i as int]));
            }
            let ghost pre = *self;
            let v = self.evaluate(&arguments[i], scope, depth, numbers);
            proof {
                assert(self.grows_from(&pre));
                assert forall|j: int| 0 <= j < m0.functions@.len() implies #[trigger] self.functions@[j] == m0.functions@[j] by {
                    assert(pre.functions@[j] == m0.functions@[j]);
                }
                assert forall|j: int| 0 <= j < m0.output@.len() implies #[trigger] self.output@[j] == m0.output@[j] by {
                    assert(pre.output@[j] == m0.output@[j]);
                }
                assert(self.grows_from(&m0));
            }
            let v = match v {
                Ok(v) => v,
                Err(m) => {
                    proof {
                        assert(midway(m0, gf));
                    }
                    return Err(m);
                },
            };
            values.push(v);
            i = i + 1;
        }
        if depth == 0 {
            return Err(String::from_str("Too many nested calls."));
        }
        let declaration = self.functions[index].declaration.clone();
        let parent = self.functions[index].scope;
        let inner = self.env.append(parent);
        let mut k: usize = 0;
        let mut values = values;
        while k < declaration.params.len() && k < values.len()
            invariant
                self.wf(),
                self.grows_from(old(self)),
                self.grows_from(&m0),
                before == *old(self),
                gf == Ok::<Value, String>(Value::Function(index)),
                evaluates_to(*callee, scope as int, before, m0, gf),
                inner < self.env.scopes@.len(),
            decreases declaration.params@.len() - k,
        {
            let v = values[k].copy();
            self.env.declare(inner, declaration.params[k].clone(), v);
            k = k + 1;
        }
        match self.execute(&declaration.body, inner, depth - 1, numbers) {
            Completion::Return(v) => Ok(v),
            Completion::Error(m) => Err(m),
            Completion::Normal => Ok(Value::Nil),
        }
    }

    /// Runs `s` for code in scope `scope`, with `depth` more calls allowed to nest.
    pub fn execute<N: Numbers>(&mut self, s: &Statement, scope: usize, depth: usize, numbers: &N) -> (r:
        Completion)
        requires
            old(self).wf(),
            scope < old(self).env.scopes@.len(),
        ensures
            final(self).wf(),
            final(self).grows_from(old(self)),
            executes_to(*s, scope as int, *old(self), *final(self), r),
        decreases depth, 1nat, s, 0nat,
    {
        let ghost before = *self;
        match s {
            Statement::Expression(e) => {
                let v = self.evaluate(e, scope, depth, numbers);
                let ghost gv = v;
                proof {
                    assert(midway(*self, gv));
                    assert(evaluates_to(*e, scope as int, before, *self, gv));
                }
                match v {
                    Ok(_) => Completion::Normal,
                    Err(m) => Completion::Error(m),
                }
            },
            Statement::Print(e) => {
                let v = self.evaluate(e, scope, depth, numbers);
                let ghost mid = *self;
                let ghost gv = v;
                proof {
                    assert(midway(mid, gv));
                    assert(evaluates_to(*e, scope as int, before, mid, gv));
                }
                match v {
                    Ok(x) => {
                        let line = self.display(&x, numbers);
                        self.output.push(line);
                        proof {
                            assert(self.output@.drop_last() =~= mid.output@);
                        }
                        Completion::Normal
                    },
                    Err(m) => Completion::Error(m),
                }
            },
            Statement::Return(e) => {
                let v = self.evaluate(e, scope, depth, numbers);
                let ghost gv = v;
                proof {
                    assert(midway(*self, gv));
                    assert(evaluates_to(*e, scope as int, before, *self, gv));
                }
                match v {
                    Ok(x) => Completion::Return(x),
                    Err(m) => Completion::Error(m),
                }
            },
            Statement::Declaration(d) => {
                match &d.value {
                    Some(e) => {
                        let v = self.evaluate(e, scope, depth, numbers);
                        let ghost mid = *self;
                        let ghost gv = v;
                        proof {
                            assert(midway(mid, gv));
                            assert(evaluates_to(*e, scope as int, before, mid, gv));
                        }
                        match v {
                            Ok(x) => {
                                self.env.declare(scope, d.name.clone(), x);
                                proof {
                                    assert forall|i: int| 0 <= i < self.functions@.len() implies #[trigger] self.functions@[i].scope
                                        < self.env.scopes@.len() by {}
                                }
                                Completion::Normal
                            },
                            Err(m) => Completion::Error(m),
                        }
                    },
                    None => {
                        self.env.declare(scope, d.name.clone(), Value::Nil);
                        proof {
                            assert forall|i: int| 0 <= i < self.functions@.len() implies #[trigger] self.functions@[i].scope
                                < self.env.scopes@.len() by {}
                        }
                        Completion::Normal
                    },
                }
            },
            Statement::Function(f) => {
                let index = self.functions.len();
                self.functions.push(Closure { name: f.name.clone(), declaration: f.clone(), scope });
                self.env.declare(scope, f.name.clone(), Value::Function(index));
                proof {
                    assert(self.functions@.drop_last() =~= before.functions@);
                    assert forall|i: int| 0 <= i < self.functions@.len() implies #[trigger] self.functions@[i].scope
                        < self.env.scopes@.len() by {
                        if i < before.functions@.len() {
                            assert(self.functions@[i] == before.functions@[i]);
                        }
                    }
                }
                Completion::Normal
            },
            Statement::Block(b) => {
                let inner = self.env.append(scope);
                let ghost start = *self;
                proof {
                    assert forall|i: int| 0 <= i < self.functions@.len() implies #[trigger] self.functions@[i].scope
                        < self.env.scopes@.len() by {}
                    assert(opened(before, start, scope as int));
                }
                let mut i: usize = 0;
                while i < b.statements.len()
                    invariant
                        self.wf(),
                        self.grows_from(old(self)),
                        before == *old(self),
                        inner == before.env.scopes@.len(),
                        inner < self.env.scopes@.len(),
                        opened(before, start, scope as int),
                        i <= b.statements@.len(),
                        ran(*b, i as int, inner as int, start, *self),
                        *s matches Statement::Block(bb) && bb.statements == b.statements,
                    decreases b.statements@.len() - i,
                {
                    proof {
                        assert(decreases_to!(b.statements => b.statements@[i as int]));
                    }
                    let ghost m = *self;
                    let c = self.execute(&b.statements[i], inner, depth, numbers);
                    match c {
                        Completion::Normal => {
                            proof {
                                assert(passed(m));
                                assert(ran(*b, i + 1, inner as int, start, *self));
                            }
                        },
                        other => {
                            proof {
                                assert(opened_at(start, i as int, m));
                            }
                            return other;
                        },
                    }
                    i = i + 1;
                }
                proof {
                    assert(opened_at(start, i as int, *self));
                }
                Completion::Normal
            },
            Statement::Conditional(c) => {
                let v = self.evaluate(&c.cond, scope, depth, numbers);
                let ghost mid = *self;
                let ghost gv = v;
                proof {
                    assert(midway(mid, gv));
                    assert(evaluates_to(c.cond, scope as int, before, mid, gv));
                }
                let cond = match v {
                    Ok(v) => v,
                    Err(m) => {
                        return Completion::Error(m);
                    },
                };
                if cond.is_truthy() {
                    self.execute(&c.success, scope, depth, numbers)
                } else {
                    match &c.failure {
                        Some(f) => self.execute(f, scope, depth, numbers),
                        None => Completion::Normal,
                    }
                }
            },
            Statement::Iteration(w) => {
                let ghost mut k: int = 0;
                loop
                    invariant
                        self.wf(),
                        self.grows_from(old(self)),
                        before == *old(self),
                        scope < self.env.scopes@.len(),
                        looped(*w, k, scope as int, before, *self),
                        *s matches Statement::Iteration(ww) && ww.cond == w.cond && ww.body == w.body,
                    decreases self.steps,
                {
                    let ghost mid = *self;
                    let v = self.evaluate(&w.cond, scope, depth, numbers);
                    let ghost m1 = *self;
                    let ghost gv = v;
                    proof {
                        assert(loop_end(k, mid, m1, gv));
                    }
                    let cond = match v {
                        Ok(v) => v,
                        Err(m) => {
                            return Completion::Error(m);
                        },
                    };
                    if !cond.is_truthy() {
                        return Completion::Normal;
                    }
                    if self.steps == 0 {
                        proof {
                            reveal_strlit("Too many loop iterations.");
                        }
                        return Completion::Error(String::from_str("Too many loop iterations."));
                    }
                    self.steps = self.steps - 1;
                    let ghost m2 = *self;
                    let c = self.execute(&w.body, scope, depth, numbers);
                    match c {
                        Completion::Normal => {
                            proof {
                                assert(round(mid, m1, m2, cond));
                                k = k + 1;
                            }
                        },
                        other => {
                            proof {
                                assert(passed(m2));
                            }
                            return other;
                        },
                    }
                }
            },
        }
    }

    /// A value as `print` writes it.
    pub fn display<N: Numbers>(&self, v: &Value, numbers: &N) -> (r: String)
        ensures
            !(v is Number) ==> r@ == display(*v, self.functions@),
    {
        proof {
            reveal_strlit("true");
            reveal_strlit("false");
            reveal_strlit("nil");
            reveal_strlit("<function ");
            reveal_strlit(">");
        }
        match v {
            Value::Number(n) => numbers.render(*n),
            Value::String(s) => s.clone(),
            Value::Boolean(b) => if *b {
                String::from_str("true")
            } else {
                String::from_str("false")
            },
            Value::Nil => String::from_str("nil"),
            Value::Function(i) => {
                let mut m = String::from_str("<function ");
                if *i < self.functions.len() {
                    m.append(self.functions[*i].name.as_str());
                }
                m.append(">");
                m
            },
        }
    }

    /// `op` applied to a value.
    pub fn unary<N: Numbers>(&self, op: UnaryOp, v: &Value, numbers: &N) -> (r: Result<Value, String>)
        ensures
            unary_outcome(op, *v, self.functions@, r),
    {
        match op {
            UnaryOp::Not => Ok(Value::Boolean(!v.is_truthy())),
            UnaryOp::Minus => match v {
                Value::Number(n) => Ok(Value::Number(numbers.negate(*n))),
                _ => {
                    let mut m = String::from_str("Can't apply unary operator '-' to ");
                    let shown = self.display(v, numbers);
                    m.append(shown.as_str());
                    proof {
                        reveal_strlit("Can't apply unary operator '-' to ");
                    }
                    Err(m)
                },
            },
        }
    }

    /// `op` applied to two values.
    pub fn binary<N: Numbers>(&self, op: BinaryOp, l: &Value, r: &Value, numbers: &N) -> (res: Result<
        Value,
        String,
    >)
        ensures
            binary_outcome(op, *l, *r, self.functions@, res),
    {
        match op {
            BinaryOp::EqualEqual => return Ok(Value::Boolean(values_equal(l, r, numbers))),
            BinaryOp::NotEqual => return Ok(Value::Boolean(!values_equal(l, r, numbers))),
            _ => {},
        }
        match (l, r) {
            (Value::Number(a), Value::Number(b)) => {
                if op == BinaryOp::Plus || op == BinaryOp::Minus || op == BinaryOp::Multiply || op
                    == BinaryOp::Divide {
                    return Ok(Value::Number(numbers.arithmetic(op, *a, *b)));
                } else {
                    return Ok(Value::Boolean(numbers.compare(op, *a, *b)));
                }
            },
            (Value::String(a), Value::String(b)) => {
                if op == BinaryOp::Plus {
                    let mut s = a.clone();
                    s.append(b.as_str());
                    return Ok(Value::String(s));
                }
            },
            _ => {},
        }
        let mut m = String::from_str("'");
        m.append(op_name(op));
        m.append("' operator is not defined for ");
        let left = self.display(l, numbers);
        m.append(left.as_str());
        m.append(" and ");
        let right = self.display(r, numbers);
        m.append(right.as_str());
        proof {
            reveal_strlit("'");
            reveal_strlit("' operator is not defined for ");
            reveal_strlit(" and ");
        }
        Err(m)
    }
}

} // verus!

verus! {

/// The first `i` statements of `program` ran to normal completion in the global
/// scope, from `start` to `mid`.
pub open spec fn ran_program(program: Program, i: int, start: Interpreter, mid: Interpreter) -> bool
    decreases i,
{
    if i <= 0 || i > program.statements@.len() {
        i == 0 && mid == start
    } else {
        exists|m: Interpreter|
            #[trigger] passed(m) && ran_program(program, i - 1, start, m) && executes_to(
                program.statements@[i - 1],
                0,
                m,
                mid,
                Completion::Normal,
            )
    }
}

/// The outcome of a run that stopped at a statement that completed with `c`.
pub open spec fn stopped_with(c: Completion, r: Result<(), String>) -> bool {
    match c {
        Completion::Return(_) => (r matches Err(m) && m@ == "Cannot have return outside a function"@),
        Completion::Error(m) => r == Err::<(), String>(m),
        Completion::Normal => false,
    }
}

/// Running `program` took the session from `before` to `after` with outcome `r`:
/// its statements ran in order until one completed other than normally.
pub open spec fn ran_to(program: Program, before: Interpreter, after: Interpreter, r: Result<(), String>) -> bool {
    exists|i: int, mid: Interpreter, c: Completion|
        #[trigger] program_at(i, mid, c) && ran_program(program, i, before, mid) && if i
            == program.statements@.len() {
            after == mid && r is Ok
        } else {
            &&& 0 <= i < program.statements@.len()
            &&& executes_to(program.statements@[i], 0, mid, after, c)
            &&& stopped_with(c, r)
        }
}

/// Names the sessions of a program run, so that a proof can point at them.
pub open spec fn program_at(i: int, mid: Interpreter, c: Completion) -> bool {
    true
}

impl Program {
    /// Runs the statements in order in the global scope, stopping at the first
    /// error. A `return` outside any function is an error.
    pub fn run<N: Numbers>(&self, interpreter: &mut Interpreter, numbers: &N) -> (r: Result<(), String>)
        requires
            old(interpreter).wf(),
        ensures
            final(interpreter).wf(),
            final(interpreter).grows_from(old(interpreter)),
            ran_to(*self, *old(interpreter), *final(interpreter), r),
    {
        let ghost start = *interpreter;
        let mut i: usize = 0;
        while i < self.statements.len()
            invariant
                interpreter.wf(),
                interpreter.grows_from(old(interpreter)),
                start == *old(interpreter),
                i <= self.statements@.len(),
                ran_program(*self, i as int, start, *interpreter),
            decreases self.statements@.len() - i,
        {
            let ghost m = *interpreter;
            let c = interpreter.execute(&self.statements[i], 0, CALL_DEPTH, numbers);
            let ghost gc = c;
            match c {
                Completion::Normal => {
                    proof {
                        assert(passed(m));
                        assert(ran_program(*self, i + 1, start, *interpreter));
                    }
                },
                Completion::Return(_) => {
                    proof {
                        reveal_strlit("Cannot have return outside a function");
                        assert(program_at(i as int, m, gc));
                    }
                    return Err(String::from_str("Cannot have return outside a function"));
                },
                Completion::Error(msg) => {
                    proof {
                        assert(program_at(i as int, m, gc));
                    }
                    return Err(msg);
                },
            }
            i = i + 1;
        }
        proof {
            assert(program_at(i as int, *interpreter, Completion::Normal));
        }
        Ok(())
    }
}

} // verus!

