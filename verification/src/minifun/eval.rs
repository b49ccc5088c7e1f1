use vstd::prelude::*;
use crate::minifun::ast::{copy_term, BinOp, Term};
use crate::minifun::runtime::{copy_env, Environment, Value, ValueView};

verus! {

/// How deep applications may nest in one evaluation.
pub const MAX_CALL_DEPTH: u64 = 0xffff_ffff_ffff_ffff;

/// Why evaluation stopped.
#[derive(Debug, Clone, PartialEq, Eq)]
pub enum EvalError {
    /// A variable that is not in scope.
    UndefinedVariable(String),
    /// Something that is not a function applied to an argument.
    NotAFunction,
    /// `not` applied to something that is not a Boolean.
    NotABoolean,
    /// An `if` whose condition is not a Boolean.
    ConditionNotBoolean,
    /// A binary operator on operands of the wrong kinds.
    InvalidOperands,
    /// An arithmetic result that does not fit in an `i32`.
    ArithmeticOverflow,
    /// Applications nested deeper than the evaluator allows.
    OutOfFuel,
}

/// An integer result as a value, or the overflow error.
pub open spec fn int_result(v: int) -> Result<ValueView, EvalError> {
    if i32::MIN <= v <= i32::MAX {
        Ok(ValueView::Int(v as i32))
    } else {
        Err(EvalError::ArithmeticOverflow)
    }
}

/// The value of a binary operation on two values.
pub open spec fn binop_value(op: BinOp, l: ValueView, r: ValueView) -> Result<ValueView, EvalError> {
    match (l, r) {
        (ValueView::Int(a), ValueView::Int(b)) => match op {
            BinOp::Add => int_result(a + b),
            BinOp::Sub => int_result(a - b),
            BinOp::Mul => int_result(a * b),
            BinOp::Less => Ok(ValueView::Bool(a < b)),
            BinOp::And => Err(EvalError::InvalidOperands),
        },
        (ValueView::Bool(a), ValueView::Bool(b)) => match op {
            BinOp::And => Ok(ValueView::Bool(a && b)),
            _ => Err(EvalError::InvalidOperands),
        },
        _ => Err(EvalError::InvalidOperands),
    }
}

/// The value of a term in an environment, operands left to right; each
/// application of a function uses one unit of `fuel` for its body.
pub open spec fn term_value(t: Term, env: Map<Seq<char>, ValueView>, fuel: nat) -> Result<ValueView, EvalError>
    decreases fuel, t,
{
    match t {
        Term::Int(n) => Ok(ValueView::Int(n)),
        Term::Bool(b) => Ok(ValueView::Bool(b)),
        Term::Var(x) => if env.contains_key(x@) {
            Ok(env[x@])
        } else {
            Err(EvalError::UndefinedVariable(x))
        },
        Term::Fun { param, param_type: _, body } => Ok(ValueView::Closure { param: param@, body: *body, env }),
        Term::App(f, a) => match term_value(*f, env, fuel) {
            Err(e) => Err(e),
            Ok(fv) => match term_value(*a, env, fuel) {
                Err(e) => Err(e),
                Ok(av) => match fv {
                    ValueView::Closure { param, body, env: closure_env } => if fuel == 0 {
                        Err(EvalError::OutOfFuel)
                    } else {
                        term_value(body, closure_env.insert(param, av), (fuel - 1) as nat)
                    },
                    ValueView::RecursiveClosure { name, param, body, env: closure_env } => if fuel == 0 {
                        Err(EvalError::OutOfFuel)
                    } else {
                        term_value(body, closure_env.insert(name, fv).insert(param, av), (fuel - 1) as nat)
                    },
                    _ => Err(EvalError::NotAFunction),
                },
            },
        },
        Term::BinOp(l, op, r) => match term_value(*l, env, fuel) {
            Err(e) => Err(e),
            Ok(lv) => match term_value(*r, env, fuel) {
                Err(e) => Err(e),
                Ok(rv) => binop_value(op, lv, rv),
            },
        },
        Term::Not(v) => match term_value(*v, env, fuel) {
            Err(e) => Err(e),
            Ok(ValueView::Bool(b)) => Ok(ValueView::Bool(!b)),
            Ok(_) => Err(EvalError::NotABoolean),
        },
        Term::If(c, a, b) => match term_value(*c, env, fuel) {
            Err(e) => Err(e),
            Ok(ValueView::Bool(true)) => term_value(*a, env, fuel),
            Ok(ValueView::Bool(false)) => term_value(*b, env, fuel),
            Ok(_) => Err(EvalError::ConditionNotBoolean),
        },
        Term::Let(x, v, b) => match term_value(*v, env, fuel) {
            Err(e) => Err(e),
            Ok(vv) => term_value(*b, env.insert(x@, vv), fuel),
        },
        Term::LetFun { name, param, param_type: _, return_type: _, body, in_term } => term_value(
            *in_term,
            env.insert(
                name@,
                ValueView::RecursiveClosure { name: name@, param: param@, body: *body, env },
            ),
            fuel,
        ),
    }
}

/// The operators compute what they denote. Operands are evaluated left to
/// right and the first error stops the operation; on two integers `+`, `-`
/// and `*` give the sum, the difference and the product (an overflow error
/// where it does not fit in an `i32`) and `<` whether the first is the
/// smaller; on two Booleans `&&` is true exactly when both are; any other
/// pair of operands is refused.
pub proof fn lemma_operators_compute(l: Term, op: BinOp, r: Term, env: Map<Seq<char>, ValueView>, fuel: nat)
    ensures
        ({
            let v = term_value(Term::BinOp(Box::new(l), op, Box::new(r)), env, fuel);
            match (term_value(l, env, fuel), term_value(r, env, fuel)) {
                (Err(e), _) => v == Err::<ValueView, EvalError>(e),
                (Ok(_), Err(e)) => v == Err::<ValueView, EvalError>(e),
                (Ok(ValueView::Int(a)), Ok(ValueView::Int(b))) => {
                    let exact: int = match op {
                        BinOp::Add => a + b,
                        BinOp::Sub => a - b,
                        _ => a * b,
                    };
                    &&& (op is Add || op is Sub || op is Mul) ==> if i32::MIN <= exact <= i32::MAX {
                        v == Ok::<ValueView, EvalError>(ValueView::Int(exact as i32))
                    } else {
                        v == Err::<ValueView, EvalError>(EvalError::ArithmeticOverflow)
                    }
                    &&& op is Less ==> (v == Ok::<ValueView, EvalError>(ValueView::Bool(true)) <==> a < b)
                        && (v == Ok::<ValueView, EvalError>(ValueView::Bool(false)) <==> b <= a)
                    &&& op is And ==> v == Err::<ValueView, EvalError>(EvalError::InvalidOperands)
                },
                (Ok(ValueView::Bool(a)), Ok(ValueView::Bool(b))) => {
                    &&& op is And ==> (v == Ok::<ValueView, EvalError>(ValueView::Bool(true)) <==> (a
                        && b)) && (v == Ok::<ValueView, EvalError>(ValueView::Bool(false)) <==> (!a || !b))
                    &&& !(op is And) ==> v == Err::<ValueView, EvalError>(EvalError::InvalidOperands)
                },
                _ => v == Err::<ValueView, EvalError>(EvalError::InvalidOperands),
            }
        }),
{
}

/// A result with its value taken by its view.
pub open spec fn result_view(r: Result<Value, EvalError>) -> Result<ValueView, EvalError> {
    match r {
        Ok(v) => Ok(v@),
        Err(e) => Err(e),
    }
}

fn eval_binop(op: BinOp, left: Value, right: Value) -> (r: Result<Value, EvalError>)
    ensures
        result_view(r) == binop_value(op, left@, right@),
{
    match (left, right) {
        (Value::Int(a), Value::Int(b)) => match op {
            BinOp::Add => match a.checked_add(b) {
                Some(v) => Ok(Value::Int(v)),
                None => Err(EvalError::ArithmeticOverflow),
            },
            BinOp::Sub => match a.checked_sub(b) {
                Some(v) => Ok(Value::Int(v)),
                None => Err(EvalError::ArithmeticOverflow),
            },
            BinOp::Mul => match a.checked_mul(b) {
                Some(v) => Ok(Value::Int(v)),
                None => Err(EvalError::ArithmeticOverflow),
            },
            BinOp::Less => Ok(Value::Bool(a < b)),
            BinOp::And => Err(EvalError::InvalidOperands),
        },
        (Value::Bool(a), Value::Bool(b)) => match op {
            BinOp::And => Ok(Value::Bool(a && b)),
            _ => Err(EvalError::InvalidOperands),
        },
        _ => Err(EvalError::InvalidOperands),
    }
}

/// Evaluates a term with at most `fuel` nested applications.
pub fn eval_with_fuel(term: &Term, env: &Environment, fuel: u64) -> (r: Result<Value, EvalError>)
    ensures
        result_view(r) == term_value(*term, env@, fuel as nat),
    decreases fuel, term,
{
    match term {
        Term::Int(n) => Ok(Value::Int(*n)),
        Term::Bool(b) => Ok(Value::Bool(*b)),
        Term::Var(name) => match env.get(name.as_str()) {
            Some(v) => Ok(crate::minifun::runtime::copy_value(v)),
            None => Err(EvalError::UndefinedVariable(name.clone())),
        },
        Term::Fun { param, param_type: _, body } => Ok(
            Value::Closure { param: param.clone(), body: Box::new(copy_term(body)), env: copy_env(env) },
        ),
        Term::App(f, a) => {
            let function_value = eval_with_fuel(f, env, fuel)?;
            let argument_value = eval_with_fuel(a, env, fuel)?;
            match function_value {
                Value::Closure { param, body, env: closure_env } => {
                    if fuel == 0 {
                        return Err(EvalError::OutOfFuel);
                    }
                    let mut inner = closure_env;
                    inner.insert(param, argument_value);
                    eval_with_fuel(&body, &inner, fuel - 1)
                },
                Value::RecursiveClosure { name, param, body, env: closure_env } => {
                    if fuel == 0 {
                        return Err(EvalError::OutOfFuel);
                    }
                    let itself = Value::RecursiveClosure {
                        name: name.clone(),
                        param: param.clone(),
                        body: Box::new(copy_term(&body)),
                        env: copy_env(&closure_env),
                    };
                    let mut inner = closure_env;
                    inner.insert(name, itself);
                    inner.insert(param, argument_value);
                    eval_with_fuel(&body, &inner, fuel - 1)
                },
                _ => Err(EvalError::NotAFunction),
            }
        },
        Term::BinOp(l, op, r) => {
            let left = eval_with_fuel(l, env, fuel)?;
            let right = eval_with_fuel(r, env, fuel)?;
            eval_binop(*op, left, right)
        },
        Term::Not(v) => {
            let value = eval_with_fuel(v, env, fuel)?;
            match value {
                Value::Bool(b) => Ok(Value::Bool(!b)),
                _ => Err(EvalError::NotABoolean),
            }
        },
        Term::If(c, a, b) => {
            let condition = eval_with_fuel(c, env, fuel)?;
            match condition {
                Value::Bool(true) => eval_with_fuel(a, env, fuel),
                Value::Bool(false) => eval_with_fuel(b, env, fuel),
                _ => Err(EvalError::ConditionNotBoolean),
            }
        },
        Term::Let(x, v, b) => {
            let value = eval_with_fuel(v, env, fuel)?;
            let mut inner = copy_env(env);
            inner.insert(x.clone(), value);
            eval_with_fuel(b, &inner, fuel)
        },
        Term::LetFun { name, param, param_type: _, return_type: _, body, in_term } => {
            let closure = Value::RecursiveClosure {
                name: name.clone(),
                param: param.clone(),
                body: Box::new(copy_term(body)),
                env: copy_env(env),
            };
            let mut inner = copy_env(env);
            inner.insert(name.clone(), closure);
            eval_with_fuel(in_term, &inner, fuel)
        },
    }
}

/// Evaluates a term in an environment; `env` is left as it was.
pub fn eval(term: &Term, env: &mut Environment) -> (r: Result<Value, EvalError>)
    ensures
        final(env)@ == old(env)@,
        result_view(r) == term_value(*term, old(env)@, MAX_CALL_DEPTH as nat),
{
    eval_with_fuel(term, env, MAX_CALL_DEPTH)
}

} // verus!
