use vstd::prelude::*;
use crate::minifun::types::{copy_type, Type};

verus! {

/// A MiniFun term.
#[derive(Debug)]
pub enum Term {
    Int(i32),
    Bool(bool),
    Var(String),
    /// `fun (param: param_type) -> body`
    Fun { param: String, param_type: Type, body: Box<Term> },
    App(Box<Term>, Box<Term>),
    BinOp(Box<Term>, BinOp, Box<Term>),
    Not(Box<Term>),
    If(Box<Term>, Box<Term>, Box<Term>),
    /// `let name = value in body`
    Let(String, Box<Term>, Box<Term>),
    /// `letfun name(param: param_type): return_type = body in in_term`,
    /// where `body` may call `name`.
    LetFun {
        name: String,
        param: String,
        param_type: Type,
        return_type: Type,
        body: Box<Term>,
        in_term: Box<Term>,
    },
}

#[derive(Debug, Clone, Copy, PartialEq, Eq, Structural)]
pub enum BinOp {
    Add,
    Sub,
    Mul,
    And,
    Less,
}

/// A copy of a term, equal to it.
pub fn copy_term(t: &Term) -> (r: Term)
    ensures
        r == *t,
    decreases t,
{
    match t {
        Term::Int(n) => Term::Int(*n),
        Term::Bool(b) => Term::Bool(*b),
        Term::Var(x) => Term::Var(x.clone()),
        Term::Fun { param, param_type, body } => Term::Fun {
            param: param.clone(),
            param_type: copy_type(param_type),
            body: Box::new(copy_term(body)),
        },
        Term::App(f, a) => Term::App(Box::new(copy_term(f)), Box::new(copy_term(a))),
        Term::BinOp(l, op, r) => Term::BinOp(Box::new(copy_term(l)), *op, Box::new(copy_term(r))),
        Term::Not(v) => Term::Not(Box::new(copy_term(v))),
        Term::If(c, a, b) => Term::If(
            Box::new(copy_term(c)),
            Box::new(copy_term(a)),
            Box::new(copy_term(b)),
        ),
        Term::Let(x, v, b) => Term::Let(x.clone(), Box::new(copy_term(v)), Box::new(copy_term(b))),
        Term::LetFun { name, param, param_type, return_type, body, in_term } => Term::LetFun {
            name: name.clone(),
            param: param.clone(),
            param_type: copy_type(param_type),
            return_type: copy_type(return_type),
            body: Box::new(copy_term(body)),
            in_term: Box::new(copy_term(in_term)),
        },
    }
}

} // verus!
