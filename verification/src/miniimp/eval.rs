use vstd::prelude::*;
use crate::miniimp::ast::{AExpr, BExpr, Command, Program};
use crate::miniimp::runtime::{Memory, RuntimeError};

verus! {

/// The number of loop iterations that one run of a `while` may take.
pub const FUEL: u64 = 0xffff_ffff_ffff_ffff;

/// An integer as an `i32` result, or the overflow error when it does not fit.
pub open spec fn fit_i32(v: int) -> Result<i32, RuntimeError> {
    if i32::MIN <= v <= i32::MAX {
        Ok(v as i32)
    } else {
        Err(RuntimeError::ArithmeticOverflow)
    }
}

/// Which arithmetic operator.
#[derive(Clone, Copy)]
pub enum ArithOp {
    Add,
    Sub,
    Mul,
}

pub open spec fn apply_arith(op: ArithOp, x: int, y: int) -> int {
    match op {
        ArithOp::Add => x + y,
        ArithOp::Sub => x - y,
        ArithOp::Mul => x * y,
    }
}

/// Left operand first, then right operand, then the operation itself.
pub open spec fn arith_result(
    op: ArithOp,
    l: Result<i32, RuntimeError>,
    r: Result<i32, RuntimeError>,
) -> Result<i32, RuntimeError> {
    match l {
        Err(e) => Err(e),
        Ok(x) => match r {
            Err(e) => Err(e),
            Ok(y) => fit_i32(apply_arith(op, x as int, y as int)),
        },
    }
}

/// The value of an arithmetic expression in a memory.
pub open spec fn aexpr_value(e: AExpr, m: Map<Seq<char>, i32>) -> Result<i32, RuntimeError>
    decreases e,
{
    match e {
        AExpr::Var(x) => if m.contains_key(x@) {
            Ok(m[x@])
        } else {
            Err(RuntimeError::UndefinedVariable(x))
        },
        AExpr::Int(n) => Ok(n),
        AExpr::Add(a, b) => arith_result(ArithOp::Add, aexpr_value(*a, m), aexpr_value(*b, m)),
        AExpr::Sub(a, b) => arith_result(ArithOp::Sub, aexpr_value(*a, m), aexpr_value(*b, m)),
        AExpr::Mul(a, b) => arith_result(ArithOp::Mul, aexpr_value(*a, m), aexpr_value(*b, m)),
    }
}

/// The value of a Boolean expression in a memory; `&&` does not look at its
/// right operand when the left one is false.
pub open spec fn bexpr_value(e: BExpr, m: Map<Seq<char>, i32>) -> Result<bool, RuntimeError>
    decreases e,
{
    match e {
        BExpr::True => Ok(true),
        BExpr::False => Ok(false),
        BExpr::And(a, b) => match bexpr_value(*a, m) {
            Err(e) => Err(e),
            Ok(false) => Ok(false),
            Ok(true) => bexpr_value(*b, m),
        },
        BExpr::Not(a) => match bexpr_value(*a, m) {
            Err(e) => Err(e),
            Ok(v) => Ok(!v),
        },
        BExpr::Less(a, b) => match aexpr_value(*a, m) {
            Err(e) => Err(e),
            Ok(x) => match aexpr_value(*b, m) {
                Err(e) => Err(e),
                Ok(y) => Ok(x < y),
            },
        },
    }
}

/// Running a command from a memory: the memory at the end (or where an error
/// stopped the run) and whether the run succeeded. Each run of a `while`
/// may take at most `fuel` iterations.
pub open spec fn run_command(c: Command, m: Map<Seq<char>, i32>, fuel: nat) -> (
    Map<Seq<char>, i32>,
    Result<(), RuntimeError>,
)
    decreases fuel, c,
{
    match c {
        Command::Skip => (m, Ok(())),
        Command::Assign(x, e) => match aexpr_value(e, m) {
            Err(err) => (m, Err(err)),
            Ok(v) => (m.insert(x@, v), Ok(())),
        },
        Command::Sequence(a, b) => {
            let (m1, r1) = run_command(*a, m, fuel);
            match r1 {
                Err(err) => (m1, Err(err)),
                Ok(_) => run_command(*b, m1, fuel),
            }
        },
        Command::If(g, a, b) => match bexpr_value(g, m) {
            Err(err) => (m, Err(err)),
            Ok(true) => run_command(*a, m, fuel),
            Ok(false) => run_command(*b, m, fuel),
        },
        Command::While(g, body) => match bexpr_value(g, m) {
            Err(err) => (m, Err(err)),
            Ok(false) => (m, Ok(())),
            Ok(true) => if fuel == 0 {
                (m, Err(RuntimeError::OutOfFuel))
            } else {
                let (m1, r1) = run_command(*body, m, fuel);
                match r1 {
                    Err(err) => (m1, Err(err)),
                    Ok(_) => run_command(Command::While(g, body), m1, (fuel - 1) as nat),
                }
            },
        },
    }
}

/// What a program returns for an input: its output variable's value after
/// the body has run from a memory holding only the input.
pub open spec fn program_result(p: Program, input: i32) -> Result<i32, RuntimeError> {
    let (m, r) = run_command(p.body, Map::empty().insert(p.input@, input), FUEL as nat);
    match r {
        Err(e) => Err(e),
        Ok(_) => if m.contains_key(p.output@) {
            Ok(m[p.output@])
        } else {
            Err(RuntimeError::UndefinedVariable(p.output))
        },
    }
}

pub(crate) fn arith(op: ArithOp, x: i32, y: i32) -> (r: Result<i32, RuntimeError>)
    ensures
        r == fit_i32(apply_arith(op, x as int, y as int)),
{
    let v = match op {
        ArithOp::Add => x.checked_add(y),
        ArithOp::Sub => x.checked_sub(y),
        ArithOp::Mul => x.checked_mul(y),
    };
    match v {
        Some(v) => Ok(v),
        None => Err(RuntimeError::ArithmeticOverflow),
    }
}

/// Evaluates an arithmetic expression.
pub fn eval_aexpr(expr: &AExpr, memory: &Memory) -> (r: Result<i32, RuntimeError>)
    ensures
        r == aexpr_value(*expr, memory@),
    decreases expr,
{
    match expr {
        AExpr::Int(n) => Ok(*n),
        AExpr::Var(name) => match memory.lookup(name.as_str()) {
            Some(v) => Ok(v),
            None => Err(RuntimeError::UndefinedVariable(name.clone())),
        },
        AExpr::Add(left, right) => {
            let x = eval_aexpr(left, memory)?;
            let y = eval_aexpr(right, memory)?;
            arith(ArithOp::Add, x, y)
        },
        AExpr::Sub(left, right) => {
            let x = eval_aexpr(left, memory)?;
            let y = eval_aexpr(right, memory)?;
            arith(ArithOp::Sub, x, y)
        },
        AExpr::Mul(left, right) => {
            let x = eval_aexpr(left, memory)?;
            let y = eval_aexpr(right, memory)?;
            arith(ArithOp::Mul, x, y)
        },
    }
}

/// Evaluates a Boolean expression.
pub fn eval_bexpr(expr: &BExpr, memory: &Memory) -> (r: Result<bool, RuntimeError>)
    ensures
        r == bexpr_value(*expr, memory@),
    decreases expr,
{
    match expr {
        BExpr::True => Ok(true),
        BExpr::False => Ok(false),
        BExpr::And(left, right) => {
            let l = eval_bexpr(left, memory)?;
            if !l {
                return Ok(false);
            }
            eval_bexpr(right, memory)
        },
        BExpr::Not(value) => {
            let v = eval_bexpr(value, memory)?;
            Ok(!v)
        },
        BExpr::Less(left, right) => {
            let x = eval_aexpr(left, memory)?;
            let y = eval_aexpr(right, memory)?;
            Ok(x < y)
        },
    }
}

/// Runs a command, each `while` run taking at most `fuel` iterations.
pub fn eval_command_with_fuel(command: &Command, memory: &mut Memory, fuel: u64) -> (r: Result<
    (),
    RuntimeError,
>)
    ensures
        (final(memory)@, r) == run_command(*command, old(memory)@, fuel as nat),
    decreases fuel, command,
{
    match command {
        Command::Skip => Ok(()),
        Command::Assign(name, expr) => {
            let value = eval_aexpr(expr, memory)?;
            memory.set(name.clone(), value);
            Ok(())
        },
        Command::Sequence(first, second) => {
            eval_command_with_fuel(first, memory, fuel)?;
            eval_command_with_fuel(second, memory, fuel)
        },
        Command::If(condition, then_branch, else_branch) => {
            if eval_bexpr(condition, memory)? {
                eval_command_with_fuel(then_branch, memory, fuel)
            } else {
                eval_command_with_fuel(else_branch, memory, fuel)
            }
        },
        Command::While(condition, body) => {
            let mut remaining = fuel;
            loop
                invariant
                    remaining <= fuel,
                    run_command(*command, old(memory)@, fuel as nat) == run_command(
                        *command,
                        memory@,
                        remaining as nat,
                    ),
                    *command == Command::While(*condition, *body),
                decreases remaining,
            {
                let go = eval_bexpr(condition, memory)?;
                if !go {
                    return Ok(());
                }
                if remaining == 0 {
                    return Err(RuntimeError::OutOfFuel);
                }
                eval_command_with_fuel(body, memory, remaining)?;
                remaining = remaining - 1;
            }
        },
    }
}

/// Runs a command.
pub fn eval_command(command: &Command, memory: &mut Memory) -> (r: Result<(), RuntimeError>)
    ensures
        (final(memory)@, r) == run_command(*command, old(memory)@, FUEL as nat),
{
    eval_command_with_fuel(command, memory, FUEL)
}

/// Runs a program on an input and returns the value of its output variable.
pub fn eval_program(program: &Program, input_value: i32) -> (r: Result<i32, RuntimeError>)
    ensures
        r == program_result(*program, input_value),
{
    let mut memory = Memory::new();
    memory.set(program.input.clone(), input_value);
    eval_command(&program.body, &mut memory)?;
    match memory.lookup(program.output.as_str()) {
        Some(v) => Ok(v),
        None => Err(RuntimeError::UndefinedVariable(program.output.clone())),
    }
}

} // verus!
