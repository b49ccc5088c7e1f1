use vstd::prelude::*;

verus! {

/// A MiniImp program: one input variable, one output variable and a body.
#[derive(Debug)]
pub struct Program {
    pub input: String,
    pub output: String,
    pub body: Command,
}

#[derive(Debug)]
pub enum Command {
    Skip,
    Assign(String, AExpr),
    Sequence(Box<Command>, Box<Command>),
    If(BExpr, Box<Command>, Box<Command>),
    While(BExpr, Box<Command>),
}

#[derive(Debug)]
pub enum AExpr {
    Var(String),
    Int(i32),
    Add(Box<AExpr>, Box<AExpr>),
    Sub(Box<AExpr>, Box<AExpr>),
    Mul(Box<AExpr>, Box<AExpr>),
}

#[derive(Debug)]
pub enum BExpr {
    True,
    False,
    And(Box<BExpr>, Box<BExpr>),
    Not(Box<BExpr>),
    Less(Box<AExpr>, Box<AExpr>),
}

/// A copy of an arithmetic expression, equal to it.
pub fn copy_aexpr(e: &AExpr) -> (r: AExpr)
    ensures
        r == *e,
    decreases e,
{
    match e {
        AExpr::Var(x) => AExpr::Var(x.clone()),
        AExpr::Int(n) => AExpr::Int(*n),
        AExpr::Add(a, b) => AExpr::Add(Box::new(copy_aexpr(a)), Box::new(copy_aexpr(b))),
        AExpr::Sub(a, b) => AExpr::Sub(Box::new(copy_aexpr(a)), Box::new(copy_aexpr(b))),
        AExpr::Mul(a, b) => AExpr::Mul(Box::new(copy_aexpr(a)), Box::new(copy_aexpr(b))),
    }
}

/// A copy of a Boolean expression, equal to it.
pub fn copy_bexpr(e: &BExpr) -> (r: BExpr)
    ensures
        r == *e,
    decreases e,
{
    match e {
        BExpr::True => BExpr::True,
        BExpr::False => BExpr::False,
        BExpr::And(a, b) => BExpr::And(Box::new(copy_bexpr(a)), Box::new(copy_bexpr(b))),
        BExpr::Not(a) => BExpr::Not(Box::new(copy_bexpr(a))),
        BExpr::Less(a, b) => BExpr::Less(Box::new(copy_aexpr(a)), Box::new(copy_aexpr(b))),
    }
}

/// A copy of a command, equal to it.
pub fn copy_command(c: &Command) -> (r: Command)
    ensures
        r == *c,
    decreases c,
{
    match c {
        Command::Skip => Command::Skip,
        Command::Assign(x, e) => Command::Assign(x.clone(), copy_aexpr(e)),
        Command::Sequence(a, b) => Command::Sequence(
            Box::new(copy_command(a)),
            Box::new(copy_command(b)),
        ),
        Command::If(g, a, b) => Command::If(
            copy_bexpr(g),
            Box::new(copy_command(a)),
            Box::new(copy_command(b)),
        ),
        Command::While(g, a) => Command::While(copy_bexpr(g), Box::new(copy_command(a))),
    }
}

/// Two arithmetic expressions have the same shape, constants and variable names.
pub open spec fn same_aexpr(a: AExpr, b: AExpr) -> bool
    decreases a,
{
    match (a, b) {
        (AExpr::Var(x), AExpr::Var(y)) => x@ == y@,
        (AExpr::Int(n), AExpr::Int(m)) => n == m,
        (AExpr::Add(a1, a2), AExpr::Add(b1, b2)) => same_aexpr(*a1, *b1) && same_aexpr(*a2, *b2),
        (AExpr::Sub(a1, a2), AExpr::Sub(b1, b2)) => same_aexpr(*a1, *b1) && same_aexpr(*a2, *b2),
        (AExpr::Mul(a1, a2), AExpr::Mul(b1, b2)) => same_aexpr(*a1, *b1) && same_aexpr(*a2, *b2),
        _ => false,
    }
}

/// Two Boolean expressions have the same shape, constants and variable names.
pub open spec fn same_bexpr(a: BExpr, b: BExpr) -> bool
    decreases a,
{
    match (a, b) {
        (BExpr::True, BExpr::True) => true,
        (BExpr::False, BExpr::False) => true,
        (BExpr::And(a1, a2), BExpr::And(b1, b2)) => same_bexpr(*a1, *b1) && same_bexpr(*a2, *b2),
        (BExpr::Not(a1), BExpr::Not(b1)) => same_bexpr(*a1, *b1),
        (BExpr::Less(a1, a2), BExpr::Less(b1, b2)) => same_aexpr(*a1, *b1) && same_aexpr(*a2, *b2),
        _ => false,
    }
}

/// Decides `same_aexpr`.
pub fn aexpr_eq(a: &AExpr, b: &AExpr) -> (r: bool)
    ensures
        r == same_aexpr(*a, *b),
    decreases a,
{
    match (a, b) {
        (AExpr::Var(x), AExpr::Var(y)) => x.eq(y),
        (AExpr::Int(n), AExpr::Int(m)) => *n == *m,
        (AExpr::Add(a1, a2), AExpr::Add(b1, b2)) => aexpr_eq(a1, b1) && aexpr_eq(a2, b2),
        (AExpr::Sub(a1, a2), AExpr::Sub(b1, b2)) => aexpr_eq(a1, b1) && aexpr_eq(a2, b2),
        (AExpr::Mul(a1, a2), AExpr::Mul(b1, b2)) => aexpr_eq(a1, b1) && aexpr_eq(a2, b2),
        _ => false,
    }
}

/// Decides `same_bexpr`.
pub fn bexpr_eq(a: &BExpr, b: &BExpr) -> (r: bool)
    ensures
        r == same_bexpr(*a, *b),
    decreases a,
{
    match (a, b) {
        (BExpr::True, BExpr::True) => true,
        (BExpr::False, BExpr::False) => true,
        (BExpr::And(a1, a2), BExpr::And(b1, b2)) => bexpr_eq(a1, b1) && bexpr_eq(a2, b2),
        (BExpr::Not(a1), BExpr::Not(b1)) => bexpr_eq(a1, b1),
        (BExpr::Less(a1, a2), BExpr::Less(b1, b2)) => aexpr_eq(a1, b1) && aexpr_eq(a2, b2),
        _ => false,
    }
}

} // verus!
