use vstd::prelude::*;
use crate::bindings::{Bindings, Dup};

verus! {

/// The types of MiniFun's checked terms.
#[derive(Debug, Eq)]
pub enum Type {
    Int,
    Bool,
    Fun(Box<Type>, Box<Type>),
}

/// Decides whether two types are equal.
pub fn type_eq(a: &Type, b: &Type) -> (r: bool)
    ensures
        r == (*a == *b),
    decreases a,
{
    match (a, b) {
        (Type::Int, Type::Int) => true,
        (Type::Bool, Type::Bool) => true,
        (Type::Fun(a1, b1), Type::Fun(a2, b2)) => type_eq(a1, a2) && type_eq(b1, b2),
        _ => false,
    }
}

impl PartialEq for Type {
    fn eq(&self, other: &Self) -> (r: bool) {
        type_eq(self, other)
    }
}

impl vstd::std_specs::cmp::PartialEqSpecImpl for Type {
    open spec fn obeys_eq_spec() -> bool {
        true
    }

    open spec fn eq_spec(&self, other: &Self) -> bool {
        *self == *other
    }
}

impl View for Type {
    type V = Type;

    open spec fn view(&self) -> Type {
        *self
    }
}

/// A copy of a type, equal to it.
pub fn copy_type(t: &Type) -> (r: Type)
    ensures
        r == *t,
    decreases t,
{
    match t {
        Type::Int => Type::Int,
        Type::Bool => Type::Bool,
        Type::Fun(a, b) => Type::Fun(Box::new(copy_type(a)), Box::new(copy_type(b))),
    }
}

impl Dup for Type {
    fn dup(&self) -> (r: Self) {
        copy_type(self)
    }
}

/// The types of the variables in scope.
pub type TypeEnvironment = Bindings<Type>;

/// No variable in scope.
pub fn empty_type_env() -> (r: TypeEnvironment)
    ensures
        r.wf(),
        r@ == Map::<Seq<char>, Type>::empty(),
{
    TypeEnvironment::new()
}

} // verus!
