use vstd::prelude::*;
use crate::minifun::ast::{BinOp, Term};
use crate::minifun::eval::term_value;
use crate::minifun::runtime::ValueView;
use crate::minifun::types::{copy_type, Type, TypeEnvironment};

verus! {

/// Why a term has no type.
#[derive(Debug, PartialEq, Eq)]
pub enum TypeError {
    /// A variable that is not in scope.
    UndefinedVariable(String),
    /// A function applied to an argument of another type than its parameter's.
    ArgumentMismatch { expected: Type, found: Type },
    /// Something that is not a function applied to an argument.
    NotAFunction(Type),
    /// A binary operator on operands of the wrong types.
    OperandMismatch { op: BinOp, left: Type, right: Type },
    /// `not` applied to something that is not a Boolean.
    NotOperand(Type),
    /// An `if` whose condition is not a Boolean.
    ConditionNotBool(Type),
    /// An `if` whose branches have different types.
    BranchMismatch { then_type: Type, else_type: Type },
    /// A recursive function whose body has another type than the declared one.
    ReturnMismatch { name: String, declared: Type, found: Type },
}

/// The type of a binary operation on operands of the given types.
pub open spec fn binop_type(op: BinOp, left: Type, right: Type) -> Result<Type, TypeError> {
    match op {
        BinOp::Add | BinOp::Sub | BinOp::Mul => if left == Type::Int && right == Type::Int {
            Ok(Type::Int)
        } else {
            Err(TypeError::OperandMismatch { op, left, right })
        },
        BinOp::And => if left == Type::Bool && right == Type::Bool {
            Ok(Type::Bool)
        } else {
            Err(TypeError::OperandMismatch { op, left, right })
        },
        BinOp::Less => if left == Type::Int && right == Type::Int {
            Ok(Type::Bool)
        } else {
            Err(TypeError::OperandMismatch { op, left, right })
        },
    }
}

/// The type of a term where the variables have the types of `env`; the
/// first error found, left to right, when it has none.
pub open spec fn type_of(t: Term, env: Map<Seq<char>, Type>) -> Result<Type, TypeError>
    decreases t,
{
    match t {
        Term::Int(_) => Ok(Type::Int),
        Term::Bool(_) => Ok(Type::Bool),
        Term::Var(x) => if env.contains_key(x@) {
            Ok(env[x@])
        } else {
            Err(TypeError::UndefinedVariable(x))
        },
        Term::Fun { param, param_type, body } => match type_of(*body, env.insert(param@, param_type)) {
            Err(e) => Err(e),
            Ok(body_type) => Ok(Type::Fun(Box::new(param_type), Box::new(body_type))),
        },
        Term::App(f, a) => match type_of(*f, env) {
            Err(e) => Err(e),
            Ok(ft) => match type_of(*a, env) {
                Err(e) => Err(e),
                Ok(at) => match ft {
                    Type::Fun(input, output) => if *input == at {
                        Ok(*output)
                    } else {
                        Err(TypeError::ArgumentMismatch { expected: *input, found: at })
                    },
                    _ => Err(TypeError::NotAFunction(ft)),
                },
            },
        },
        Term::BinOp(l, op, r) => match type_of(*l, env) {
            Err(e) => Err(e),
            Ok(lt) => match type_of(*r, env) {
                Err(e) => Err(e),
                Ok(rt) => binop_type(op, lt, rt),
            },
        },
        Term::Not(v) => match type_of(*v, env) {
            Err(e) => Err(e),
            Ok(vt) => if vt == Type::Bool {
                Ok(Type::Bool)
            } else {
                Err(TypeError::NotOperand(vt))
            },
        },
        Term::If(c, a, b) => match type_of(*c, env) {
            Err(e) => Err(e),
            Ok(ct) => if ct != Type::Bool {
                Err(TypeError::ConditionNotBool(ct))
            } else {
                match type_of(*a, env) {
                    Err(e) => Err(e),
                    Ok(at) => match type_of(*b, env) {
                        Err(e) => Err(e),
                        Ok(bt) => if at == bt {
                            Ok(at)
                        } else {
                            Err(TypeError::BranchMismatch { then_type: at, else_type: bt })
                        },
                    },
                }
            },
        },
        Term::Let(x, v, b) => match type_of(*v, env) {
            Err(e) => Err(e),
            Ok(vt) => type_of(*b, env.insert(x@, vt)),
        },
        Term::LetFun { name, param, param_type, return_type, body, in_term } => {
            let fun_type = Type::Fun(Box::new(param_type), Box::new(return_type));
            match type_of(*body, env.insert(name@, fun_type).insert(param@, param_type)) {
                Err(e) => Err(e),
                Ok(bt) => if bt != return_type {
                    Err(TypeError::ReturnMismatch { name, declared: return_type, found: bt })
                } else {
                    type_of(*in_term, env.insert(name@, fun_type))
                },
            }
        },
    }
}

fn typecheck_binop(op: BinOp, left: Type, right: Type) -> (r: Result<Type, TypeError>)
    ensures
        r == binop_type(op, left, right),
{
    match op {
        BinOp::Add | BinOp::Sub | BinOp::Mul => if left == Type::Int && right == Type::Int {
            Ok(Type::Int)
        } else {
            Err(TypeError::OperandMismatch { op, left, right })
        },
        BinOp::And => if left == Type::Bool && right == Type::Bool {
            Ok(Type::Bool)
        } else {
            Err(TypeError::OperandMismatch { op, left, right })
        },
        BinOp::Less => if left == Type::Int && right == Type::Int {
            Ok(Type::Bool)
        } else {
            Err(TypeError::OperandMismatch { op, left, right })
        },
    }
}

/// The type of a term where the variables have the types of `env`, or the
/// first type error, left to right. `env` is left as it was.
pub fn typecheck(term: &Term, env: &mut TypeEnvironment) -> (r: Result<Type, TypeError>)
    requires
        old(env).wf(),
    ensures
        final(env)@ == old(env)@,
        final(env).wf(),
        r == type_of(*term, old(env)@),
    decreases term,
{
    match term {
        Term::Int(_) => Ok(Type::Int),
        Term::Bool(_) => Ok(Type::Bool),
        Term::Var(name) => match env.get(name.as_str()) {
            Some(t) => Ok(copy_type(t)),
            None => Err(TypeError::UndefinedVariable(name.clone())),
        },
        Term::Fun { param, param_type, body } => {
            let mut inner = env.copy();
            inner.insert(param.clone(), copy_type(param_type));
            let body_type = typecheck(body, &mut inner)?;
            Ok(Type::Fun(Box::new(copy_type(param_type)), Box::new(body_type)))
        },
        Term::App(f, a) => {
            let ft = typecheck(f, env)?;
            let at = typecheck(a, env)?;
            match ft {
                Type::Fun(input, output) => if *input == at {
                    Ok(*output)
                } else {
                    Err(TypeError::ArgumentMismatch { expected: *input, found: at })
                },
                _ => Err(TypeError::NotAFunction(ft)),
            }
        },
        Term::BinOp(l, op, r) => {
            let lt = typecheck(l, env)?;
            let rt = typecheck(r, env)?;
            typecheck_binop(*op, lt, rt)
        },
        Term::Not(v) => {
            let vt = typecheck(v, env)?;
            if vt == Type::Bool {
                Ok(Type::Bool)
            } else {
                Err(TypeError::NotOperand(vt))
            }
        },
        Term::If(c, a, b) => {
            let ct = typecheck(c, env)?;
            if ct != Type::Bool {
                return Err(TypeError::ConditionNotBool(ct));
            }
            let at = typecheck(a, env)?;
            let bt = typecheck(b, env)?;
            if at == bt {
                Ok(at)
            } else {
                Err(TypeError::BranchMismatch { then_type: at, else_type: bt })
            }
        },
        Term::Let(x, v, b) => {
            let vt = typecheck(v, env)?;
            let mut inner = env.copy();
            inner.insert(x.clone(), vt);
            typecheck(b, &mut inner)
        },
        Term::LetFun { name, param, param_type, return_type, body, in_term } => {
            let fun_type = Type::Fun(Box::new(copy_type(param_type)), Box::new(copy_type(return_type)));
            let mut function_env = env.copy();
            function_env.insert(name.clone(), copy_type(&fun_type));
            function_env.insert(param.clone(), copy_type(param_type));
            let bt = typecheck(body, &mut function_env)?;
            if bt != *return_type {
                return Err(
                    TypeError::ReturnMismatch {
                        name: name.clone(),
                        declared: copy_type(return_type),
                        found: bt,
                    },
                );
            }
            let mut inner = env.copy();
            inner.insert(name.clone(), fun_type);
            typecheck(in_term, &mut inner)
        },
    }
}

/// The type of an integer or Boolean value; none for a function.
pub open spec fn base_type(v: ValueView) -> Option<Type> {
    match v {
        ValueView::Int(_) => Some(Type::Int),
        ValueView::Bool(_) => Some(Type::Bool),
        _ => None,
    }
}

/// The checker accepts every operation that computes: where the operands
/// have types `lt` and `rt`, evaluate (in some memory) to values of those
/// types, and the operation on them yields a value, the operation is
/// well typed, with the type of that value.
pub proof fn lemma_operations_that_compute_are_typed(
    l: Term,
    op: BinOp,
    r: Term,
    env: Map<Seq<char>, Type>,
    values: Map<Seq<char>, ValueView>,
    fuel: nat,
)
    requires
        type_of(l, env) is Ok,
        type_of(r, env) is Ok,
        term_value(l, values, fuel) matches Ok(a) && base_type(a) == Some(type_of(l, env)->Ok_0),
        term_value(r, values, fuel) matches Ok(b) && base_type(b) == Some(type_of(r, env)->Ok_0),
    ensures
        term_value(Term::BinOp(Box::new(l), op, Box::new(r)), values, fuel) matches Ok(v) ==> type_of(
            Term::BinOp(Box::new(l), op, Box::new(r)),
            env,
        ) == Ok::<Type, TypeError>(base_type(v)->Some_0) && base_type(v) is Some,
{
}

} // verus!

