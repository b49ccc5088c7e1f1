use vstd::prelude::*;
use crate::minifun::eval::EvalError;
use crate::minifun::inference::{InferError, InferErrorView, MonoType, MonoView};
use crate::minifun::lexer::Token as FunToken;
use crate::minifun::parser::{
    Expected as FunExpected, ParseError as FunParseError, Site as FunSite,
    SyntaxError as FunSyntaxError,
};
use crate::minifun::typecheck::TypeError;
use crate::minifun::types::Type;
use crate::miniimp::lexer::Token as ImpToken;
use crate::miniimp::parser::{
    Expected as ImpExpected, ParseError as ImpParseError, Site as ImpSite,
    SyntaxError as ImpSyntaxError,
};
use crate::miniimp::pretty::{int_text, push_int, push_str};
use crate::miniimp::runtime::RuntimeError;
use crate::minifun::ast::BinOp;
use crate::text::{
    chars_of, collect_string, decimal_digits, lemma_scan_end, push_decimal, scan, scan_end, Class,
    LexError,
};

verus! {

// ---------------------------------------------------------------------------
// Pieces: quoted strings and types as their `Debug` forms show them.

/// A string as its `Debug` form shows it: between double quotes, with
/// backslashes, quotes and control characters escaped as std escapes them.
pub uninterp spec fn debug_string(s: Seq<char>) -> Seq<char>;

/// The `Debug` form of a string slice, `format!("{:?}", s)`: std's `Debug`
/// for `str` writes the characters between double quotes, escaping each one
/// as `char::escape_debug` does (and not escaping `'`). The contract names
/// that text `debug_string` and says nothing more of it.
#[verifier::external_body]
fn debug_quote(s: &str) -> (r: String)
    ensures
        r@ == debug_string(s@),
{
    format!("{:?}", s)
}

pub(crate) fn push_debug_string(out: &mut Vec<char>, s: &str)
    ensures
        final(out)@ == old(out)@ + debug_string(s@),
{
    let quoted = debug_quote(s);
    push_str(out, quoted.as_str());
}

/// A type as its `Debug` form shows it, such as `Fun(Int, Bool)`.
pub open spec fn type_text(t: Type) -> Seq<char>
    decreases t,
{
    match t {
        Type::Int => "Int"@,
        Type::Bool => "Bool"@,
        Type::Fun(a, b) => "Fun("@ + type_text(*a) + ", "@ + type_text(*b) + ")"@,
    }
}

fn push_type(out: &mut Vec<char>, t: &Type)
    ensures
        final(out)@ == old(out)@ + type_text(*t),
    decreases t,
{
    let ghost start = out@;
    match t {
        Type::Int => push_str(out, "Int"),
        Type::Bool => push_str(out, "Bool"),
        Type::Fun(a, b) => {
            push_str(out, "Fun(");
            push_type(out, a);
            push_str(out, ", ");
            push_type(out, b);
            push_str(out, ")");
        },
    }
    assert(out@ =~= start + type_text(*t));
}

/// A type with variables as its `Debug` form shows it, such as
/// `Fun(Var("a0"), Int)`.
pub open spec fn mono_text(t: MonoView) -> Seq<char>
    decreases t,
{
    match t {
        MonoView::Int => "Int"@,
        MonoView::Bool => "Bool"@,
        MonoView::Var(v) => "Var("@ + debug_string(v) + ")"@,
        MonoView::Fun(a, b) => "Fun("@ + mono_text(*a) + ", "@ + mono_text(*b) + ")"@,
    }
}

fn push_mono(out: &mut Vec<char>, t: &MonoType)
    ensures
        final(out)@ == old(out)@ + mono_text(t@),
    decreases t,
{
    let ghost start = out@;
    match t {
        MonoType::Int => push_str(out, "Int"),
        MonoType::Bool => push_str(out, "Bool"),
        MonoType::Var(v) => {
            push_str(out, "Var(");
            push_debug_string(out, v.as_str());
            push_str(out, ")");
        },
        MonoType::Fun(a, b) => {
            push_str(out, "Fun(");
            push_mono(out, a);
            push_str(out, ", ");
            push_mono(out, b);
            push_str(out, ")");
        },
    }
    assert(out@ =~= start + mono_text(t@));
}

/// A token as its `Debug` form shows it.
pub open spec fn imp_token_text(t: ImpToken) -> Seq<char> {
    match t {
        ImpToken::Input => "Input"@,
        ImpToken::Output => "Output"@,
        ImpToken::Skip => "Skip"@,
        ImpToken::If => "If"@,
        ImpToken::Then => "Then"@,
        ImpToken::Else => "Else"@,
        ImpToken::While => "While"@,
        ImpToken::Do => "Do"@,
        ImpToken::True => "True"@,
        ImpToken::False => "False"@,
        ImpToken::Identifier(x) => "Identifier("@ + debug_string(x@) + ")"@,
        ImpToken::Integer(n) => "Integer("@ + int_text(n as int) + ")"@,
        ImpToken::Assign => "Assign"@,
        ImpToken::Plus => "Plus"@,
        ImpToken::Minus => "Minus"@,
        ImpToken::Star => "Star"@,
        ImpToken::Less => "Less"@,
        ImpToken::AndAnd => "AndAnd"@,
        ImpToken::Bang => "Bang"@,
        ImpToken::LeftParen => "LeftParen"@,
        ImpToken::RightParen => "RightParen"@,
        ImpToken::LeftBrace => "LeftBrace"@,
        ImpToken::RightBrace => "RightBrace"@,
        ImpToken::Semicolon => "Semicolon"@,
        ImpToken::Eof => "Eof"@,
    }
}

/// A token as its `Debug` form shows it.
pub open spec fn fun_token_text(t: FunToken) -> Seq<char> {
    match t {
        FunToken::Fun => "Fun"@,
        FunToken::Let => "Let"@,
        FunToken::LetFun => "LetFun"@,
        FunToken::In => "In"@,
        FunToken::If => "If"@,
        FunToken::Then => "Then"@,
        FunToken::Else => "Else"@,
        FunToken::True => "True"@,
        FunToken::False => "False"@,
        FunToken::Not => "Not"@,
        FunToken::IntType => "IntType"@,
        FunToken::BoolType => "BoolType"@,
        FunToken::Identifier(x) => "Identifier("@ + debug_string(x@) + ")"@,
        FunToken::Integer(n) => "Integer("@ + int_text(n as int) + ")"@,
        FunToken::Plus => "Plus"@,
        FunToken::Minus => "Minus"@,
        FunToken::Star => "Star"@,
        FunToken::Less => "Less"@,
        FunToken::AndAnd => "AndAnd"@,
        FunToken::Equal => "Equal"@,
        FunToken::Colon => "Colon"@,
        FunToken::Arrow => "Arrow"@,
        FunToken::LeftParen => "LeftParen"@,
        FunToken::RightParen => "RightParen"@,
        FunToken::Eof => "Eof"@,
    }
}

fn push_imp_token(out: &mut Vec<char>, t: &ImpToken)
    ensures
        final(out)@ == old(out)@ + imp_token_text(*t),
{
    let ghost start = out@;
    match t {
        ImpToken::Input => push_str(out, "Input"),
        ImpToken::Output => push_str(out, "Output"),
        ImpToken::Skip => push_str(out, "Skip"),
        ImpToken::If => push_str(out, "If"),
        ImpToken::Then => push_str(out, "Then"),
        ImpToken::Else => push_str(out, "Else"),
        ImpToken::While => push_str(out, "While"),
        ImpToken::Do => push_str(out, "Do"),
        ImpToken::True => push_str(out, "True"),
        ImpToken::False => push_str(out, "False"),
        ImpToken::Identifier(x) => {
            push_str(out, "Identifier(");
            push_debug_string(out, x.as_str());
            push_str(out, ")");
        },
        ImpToken::Integer(n) => {
            push_str(out, "Integer(");
            push_int(out, *n);
            push_str(out, ")");
        },
        ImpToken::Assign => push_str(out, "Assign"),
        ImpToken::Plus => push_str(out, "Plus"),
        ImpToken::Minus => push_str(out, "Minus"),
        ImpToken::Star => push_str(out, "Star"),
        ImpToken::Less => push_str(out, "Less"),
        ImpToken::AndAnd => push_str(out, "AndAnd"),
        ImpToken::Bang => push_str(out, "Bang"),
        ImpToken::LeftParen => push_str(out, "LeftParen"),
        ImpToken::RightParen => push_str(out, "RightParen"),
        ImpToken::LeftBrace => push_str(out, "LeftBrace"),
        ImpToken::RightBrace => push_str(out, "RightBrace"),
        ImpToken::Semicolon => push_str(out, "Semicolon"),
        ImpToken::Eof => push_str(out, "Eof"),
    }
    assert(out@ =~= start + imp_token_text(*t));
}

fn push_fun_token(out: &mut Vec<char>, t: &FunToken)
    ensures
        final(out)@ == old(out)@ + fun_token_text(*t),
{
    let ghost start = out@;
    match t {
        FunToken::Fun => push_str(out, "Fun"),
        FunToken::Let => push_str(out, "Let"),
        FunToken::LetFun => push_str(out, "LetFun"),
        FunToken::In => push_str(out, "In"),
        FunToken::If => push_str(out, "If"),
        FunToken::Then => push_str(out, "Then"),
        FunToken::Else => push_str(out, "Else"),
        FunToken::True => push_str(out, "True"),
        FunToken::False => push_str(out, "False"),
        FunToken::Not => push_str(out, "Not"),
        FunToken::IntType => push_str(out, "IntType"),
        FunToken::BoolType => push_str(out, "BoolType"),
        FunToken::Identifier(x) => {
            push_str(out, "Identifier(");
            push_debug_string(out, x.as_str());
            push_str(out, ")");
        },
        FunToken::Integer(n) => {
            push_str(out, "Integer(");
            push_int(out, *n);
            push_str(out, ")");
        },
        FunToken::Plus => push_str(out, "Plus"),
        FunToken::Minus => push_str(out, "Minus"),
        FunToken::Star => push_str(out, "Star"),
        FunToken::Less => push_str(out, "Less"),
        FunToken::AndAnd => push_str(out, "AndAnd"),
        FunToken::Equal => push_str(out, "Equal"),
        FunToken::Colon => push_str(out, "Colon"),
        FunToken::Arrow => push_str(out, "Arrow"),
        FunToken::LeftParen => push_str(out, "LeftParen"),
        FunToken::RightParen => push_str(out, "RightParen"),
        FunToken::Eof => push_str(out, "Eof"),
    }
    assert(out@ =~= start + fun_token_text(*t));
}
// ---------------------------------------------------------------------------
// Type errors.

/// How a type error about operands begins: what the operator expects.
pub open spec fn operator_expectation(op: BinOp) -> Seq<char> {
    match op {
        BinOp::And => "Type error: and expects Bool and Bool, but got "@,
        BinOp::Less => "Type error: < expects Int and Int, but got "@,
        _ => "Type error: arithmetic operator expects Int and Int, but got "@,
    }
}

/// The sentence that reports a type error.
pub open spec fn type_error_message(e: TypeError) -> Seq<char> {
    match e {
        TypeError::UndefinedVariable(x) => "Type error: variable '"@ + x@ + "' is not defined"@,
        TypeError::ArgumentMismatch { expected, found } => "Type error: function expected argument of type "@
            + type_text(expected) + ", but got "@ + type_text(found),
        TypeError::NotAFunction(t) => "Type error: attempted to apply a non-function value of type "@ + type_text(t),
        TypeError::OperandMismatch { op, left, right } => operator_expectation(op) + type_text(left) + " and "@
            + type_text(right),
        TypeError::NotOperand(t) => "Type error: not expects Bool, but got "@ + type_text(t),
        TypeError::ConditionNotBool(t) => "Type error: if condition must be Bool, but got "@ + type_text(t),
        TypeError::BranchMismatch { then_type, else_type } => "Type error: if branches have different types: "@
            + type_text(then_type) + " and "@ + type_text(else_type),
        TypeError::ReturnMismatch { name, declared, found } => "Type error: recursive function '"@ + name@
            + "' declared return type "@ + type_text(declared) + ", but body has type "@ + type_text(found),
    }
}

impl TypeError {
    /// The error as a sentence, such as `Type error: variable 'x' is not defined`.
    pub fn message(&self) -> (r: String)
        ensures
            r@ == type_error_message(*self),
    {
        let mut out: Vec<char> = Vec::new();
        match self {
            TypeError::UndefinedVariable(x) => {
                push_str(&mut out, "Type error: variable '");
                push_str(&mut out, x.as_str());
                push_str(&mut out, "' is not defined");
            },
            TypeError::ArgumentMismatch { expected, found } => {
                push_str(&mut out, "Type error: function expected argument of type ");
                push_type(&mut out, expected);
                push_str(&mut out, ", but got ");
                push_type(&mut out, found);
            },
            TypeError::NotAFunction(t) => {
                push_str(&mut out, "Type error: attempted to apply a non-function value of type ");
                push_type(&mut out, t);
            },
            TypeError::OperandMismatch { op, left, right } => {
                match op {
                    BinOp::And => push_str(&mut out, "Type error: and expects Bool and Bool, but got "),
                    BinOp::Less => push_str(&mut out, "Type error: < expects Int and Int, but got "),
                    _ => push_str(&mut out, "Type error: arithmetic operator expects Int and Int, but got "),
                }
                push_type(&mut out, left);
                push_str(&mut out, " and ");
                push_type(&mut out, right);
            },
            TypeError::NotOperand(t) => {
                push_str(&mut out, "Type error: not expects Bool, but got ");
                push_type(&mut out, t);
            },
            TypeError::ConditionNotBool(t) => {
                push_str(&mut out, "Type error: if condition must be Bool, but got ");
                push_type(&mut out, t);
            },
            TypeError::BranchMismatch { then_type, else_type } => {
                push_str(&mut out, "Type error: if branches have different types: ");
                push_type(&mut out, then_type);
                push_str(&mut out, " and ");
                push_type(&mut out, else_type);
            },
            TypeError::ReturnMismatch { name, declared, found } => {
                push_str(&mut out, "Type error: recursive function '");
                push_str(&mut out, name.as_str());
                push_str(&mut out, "' declared return type ");
                push_type(&mut out, declared);
                push_str(&mut out, ", but body has type ");
                push_type(&mut out, found);
            },
        }
        assert(out@ =~= type_error_message(*self));
        collect_string(out.as_slice())
    }
}

// ---------------------------------------------------------------------------
// Inference errors.

/// The sentence that reports an inference error.
pub open spec fn infer_error_message(e: InferErrorView) -> Seq<char> {
    match e {
        InferErrorView::UnboundVariable(x) => "Unbound variable '"@ + x + "'"@,
        InferErrorView::OccursCheck(v, t) => "Occurs check failed: cannot construct infinite type "@ + v + " = "@
            + mono_text(t),
        InferErrorView::Mismatch(l, r) => "Cannot unify "@ + mono_text(l) + " with "@ + mono_text(r),
        InferErrorView::TooManyTypeVariables => "Too many type variables"@,
    }
}

impl InferError {
    /// The error as a sentence, such as `Cannot unify Int with Bool`.
    pub fn message(&self) -> (r: String)
        ensures
            r@ == infer_error_message(self@),
    {
        let mut out: Vec<char> = Vec::new();
        match self {
            InferError::UnboundVariable(x) => {
                push_str(&mut out, "Unbound variable '");
                push_str(&mut out, x.as_str());
                push_str(&mut out, "'");
            },
            InferError::OccursCheck { var, ty } => {
                push_str(&mut out, "Occurs check failed: cannot construct infinite type ");
                push_str(&mut out, var.as_str());
                push_str(&mut out, " = ");
                push_mono(&mut out, ty);
            },
            InferError::Mismatch { left, right } => {
                push_str(&mut out, "Cannot unify ");
                push_mono(&mut out, left);
                push_str(&mut out, " with ");
                push_mono(&mut out, right);
            },
            InferError::TooManyTypeVariables => {
                push_str(&mut out, "Too many type variables");
            },
        }
        assert(out@ =~= infer_error_message(self@));
        collect_string(out.as_slice())
    }
}

// ---------------------------------------------------------------------------
// Evaluation errors.

/// The sentence that reports why a MiniFun evaluation stopped.
pub open spec fn eval_error_message(e: EvalError) -> Seq<char> {
    match e {
        EvalError::UndefinedVariable(x) => "Runtime error: variable '"@ + x@ + "' is undefined"@,
        EvalError::NotAFunction => "Runtime error: attempted to apply a non-function value"@,
        EvalError::NotABoolean => "Runtime error: not operator expects a boolean"@,
        EvalError::ConditionNotBoolean => "Runtime error: if condition must be a boolean"@,
        EvalError::InvalidOperands => "Runtime error: invalid operands for binary operator"@,
        EvalError::ArithmeticOverflow => "Runtime error: arithmetic overflow"@,
        EvalError::OutOfFuel => "Runtime error: applications nested too deeply"@,
    }
}

impl EvalError {
    /// The error as a sentence, such as `Runtime error: variable 'x' is undefined`.
    pub fn message(&self) -> (r: String)
        ensures
            r@ == eval_error_message(*self),
    {
        let mut out: Vec<char> = Vec::new();
        match self {
            EvalError::UndefinedVariable(x) => {
                push_str(&mut out, "Runtime error: variable '");
                push_str(&mut out, x.as_str());
                push_str(&mut out, "' is undefined");
            },
            EvalError::NotAFunction => push_str(&mut out, "Runtime error: attempted to apply a non-function value"),
            EvalError::NotABoolean => push_str(&mut out, "Runtime error: not operator expects a boolean"),
            EvalError::ConditionNotBoolean => push_str(&mut out, "Runtime error: if condition must be a boolean"),
            EvalError::InvalidOperands => push_str(&mut out, "Runtime error: invalid operands for binary operator"),
            EvalError::ArithmeticOverflow => push_str(&mut out, "Runtime error: arithmetic overflow"),
            EvalError::OutOfFuel => push_str(&mut out, "Runtime error: applications nested too deeply"),
        }
        assert(out@ =~= eval_error_message(*self));
        collect_string(out.as_slice())
    }
}

/// The sentence that reports why a MiniImp run stopped.
pub open spec fn runtime_error_message(e: RuntimeError) -> Seq<char> {
    match e {
        RuntimeError::UndefinedVariable(x) => "Runtime error: variable '"@ + x@ + "' is undefined"@,
        RuntimeError::ArithmeticOverflow => "Runtime error: arithmetic overflow"@,
        RuntimeError::OutOfFuel => "Runtime error: loop ran too many iterations"@,
    }
}

impl RuntimeError {
    /// The error as a sentence, such as `Runtime error: variable 'x' is undefined`.
    pub fn message(&self) -> (r: String)
        ensures
            r@ == runtime_error_message(*self),
    {
        let mut out: Vec<char> = Vec::new();
        match self {
            RuntimeError::UndefinedVariable(x) => {
                push_str(&mut out, "Runtime error: variable '");
                push_str(&mut out, x.as_str());
                push_str(&mut out, "' is undefined");
            },
            RuntimeError::ArithmeticOverflow => push_str(&mut out, "Runtime error: arithmetic overflow"),
            RuntimeError::OutOfFuel => push_str(&mut out, "Runtime error: loop ran too many iterations"),
        }
        assert(out@ =~= runtime_error_message(*self));
        collect_string(out.as_slice())
    }
}

// ---------------------------------------------------------------------------
// Lexer and parser errors.

/// What a lexer error says was expected after a character: another `&`,
/// or `=` after `:`.
pub open spec fn expectation(expected: char) -> Seq<char> {
    if expected == '&' {
        ": expected another '&'"@
    } else {
        ": expected '"@ + seq![expected] + "' after ':'"@
    }
}

/// The digits of `source` that start at `position`.
pub open spec fn digits_at(source: Seq<char>, position: int) -> Seq<char> {
    if position <= source.len() {
        source.subrange(position, scan_end(source, position, Class::Digit))
    } else {
        Seq::empty()
    }
}

/// The sentence that reports a lexer error in `source`; an integer that is
/// out of range is quoted with its digits.
pub open spec fn lex_error_message(e: LexError, source: Seq<char>) -> Seq<char> {
    match e {
        LexError::UnexpectedCharacter { position, character } => "Lexer error at character "@ + decimal_digits(
            position as nat,
        ) + ": unexpected character '"@ + seq![character] + "'"@,
        LexError::ExpectedCharacter { position, expected } => "Lexer error at character "@ + decimal_digits(
            position as nat,
        ) + expectation(expected),
        LexError::IntegerOutOfRange { position } => "Lexer error at character "@ + decimal_digits(position as nat)
            + ": integer '"@ + digits_at(source, position as int) + "' is outside the i32 range"@,
    }
}

impl LexError {
    /// The error as a sentence, such as
    /// `Lexer error at character 3: unexpected character '#'`; `source` is
    /// the text that was lexed.
    pub fn message(&self, source: &str) -> (r: String)
        ensures
            r@ == lex_error_message(*self, source@),
    {
        let mut out: Vec<char> = Vec::new();
        push_str(&mut out, "Lexer error at character ");
        match self {
            LexError::UnexpectedCharacter { position, character } => {
                push_decimal(*position, &mut out);
                push_str(&mut out, ": unexpected character '");
                out.push(*character);
                push_str(&mut out, "'");
            },
            LexError::ExpectedCharacter { position, expected } => {
                push_decimal(*position, &mut out);
                if *expected == '&' {
                    push_str(&mut out, ": expected another '&'");
                } else {
                    push_str(&mut out, ": expected '");
                    out.push(*expected);
                    push_str(&mut out, "' after ':'");
                }
            },
            LexError::IntegerOutOfRange { position } => {
                push_decimal(*position, &mut out);
                push_str(&mut out, ": integer '");
                let chars = chars_of(source);
                if *position <= chars.len() {
                    let end = scan(&chars, *position, Class::Digit);
                    proof {
                        lemma_scan_end(chars@, *position as int, Class::Digit);
                    }
                    let ghost before = out@;
                    let mut i: usize = *position;
                    assert(out@ =~= before + chars@.subrange(*position as int, i as int));
                    while i < end
                        invariant
                            chars@ == source@,
                            *position <= i <= end <= chars@.len(),
                            out@ == before + chars@.subrange(*position as int, i as int),
                        decreases end - i,
                    {
                        out.push(chars[i]);
                        i = i + 1;
                        assert(out@ =~= before + chars@.subrange(*position as int, i as int));
                    }
                }
                push_str(&mut out, "' is outside the i32 range");
            },
        }
        assert(out@ =~= lex_error_message(*self, source@));
        collect_string(out.as_slice())
    }
}
/// What the MiniImp parser expected at a site, as the error sentence names it.
pub open spec fn miniimp_site_text(s: ImpSite) -> Seq<char> {
    match s {
        ImpSite::InputKeyword => "'input'"@,
        ImpSite::SemicolonAfterInput => "';' after the input declaration"@,
        ImpSite::OutputKeyword => "'output'"@,
        ImpSite::SemicolonAfterOutput => "';' after the output declaration"@,
        ImpSite::EndOfProgram => "end of MiniImp program"@,
        ImpSite::EndOfArithmetic => "end of arithmetic expression"@,
        ImpSite::EndOfBoolean => "end of Boolean expression"@,
        ImpSite::AssignAfterTarget => "':=' after an assignment target"@,
        ImpSite::IfKeyword => "'if'"@,
        ImpSite::ThenAfterCondition => "'then' after the if condition"@,
        ImpSite::ElseAfterThenBranch => "'else' after the then branch"@,
        ImpSite::WhileKeyword => "'while'"@,
        ImpSite::DoAfterCondition => "'do' after the while condition"@,
        ImpSite::OpenBrace => "'{'"@,
        ImpSite::CloseBraceAfterBlock => "'}' after a command block"@,
        ImpSite::LessInComparison => "'<' in a Boolean comparison"@,
        ImpSite::CloseParenAfterArithmetic => "')' after an arithmetic expression"@,
    }
}

fn push_miniimp_site(out: &mut Vec<char>, s: ImpSite)
    ensures
        final(out)@ == old(out)@ + miniimp_site_text(s),
{
    match s {
        ImpSite::InputKeyword => push_str(out, "'input'"),
        ImpSite::SemicolonAfterInput => push_str(out, "';' after the input declaration"),
        ImpSite::OutputKeyword => push_str(out, "'output'"),
        ImpSite::SemicolonAfterOutput => push_str(out, "';' after the output declaration"),
        ImpSite::EndOfProgram => push_str(out, "end of MiniImp program"),
        ImpSite::EndOfArithmetic => push_str(out, "end of arithmetic expression"),
        ImpSite::EndOfBoolean => push_str(out, "end of Boolean expression"),
        ImpSite::AssignAfterTarget => push_str(out, "':=' after an assignment target"),
        ImpSite::IfKeyword => push_str(out, "'if'"),
        ImpSite::ThenAfterCondition => push_str(out, "'then' after the if condition"),
        ImpSite::ElseAfterThenBranch => push_str(out, "'else' after the then branch"),
        ImpSite::WhileKeyword => push_str(out, "'while'"),
        ImpSite::DoAfterCondition => push_str(out, "'do' after the while condition"),
        ImpSite::OpenBrace => push_str(out, "'{'"),
        ImpSite::CloseBraceAfterBlock => push_str(out, "'}' after a command block"),
        ImpSite::LessInComparison => push_str(out, "'<' in a Boolean comparison"),
        ImpSite::CloseParenAfterArithmetic => push_str(out, "')' after an arithmetic expression"),
    }
}

/// What the MiniImp parser expected, as the error sentence names it.
pub open spec fn miniimp_expected_text(e: ImpExpected) -> Seq<char> {
    match e {
        ImpExpected::Symbol(_, s) => miniimp_site_text(s),
        ImpExpected::Identifier => "an identifier"@,
        ImpExpected::Command => "a command"@,
        ImpExpected::ArithmeticExpression => "an arithmetic expression"@,
    }
}

/// The sentence that reports a MiniImp parse error.
pub open spec fn miniimp_parse_message(e: ImpParseError) -> Seq<char> {
    "Parser error at token "@ + decimal_digits(e.position as nat) + ": expected "@ + miniimp_expected_text(
        e.expected,
    ) + ", but found "@ + imp_token_text(e.found)
}

impl ImpParseError {
    /// The error as a sentence, such as
    /// `Parser error at token 2: expected an identifier, but found Eof`.
    pub fn message(&self) -> (r: String)
        ensures
            r@ == miniimp_parse_message(*self),
    {
        let mut out: Vec<char> = Vec::new();
        push_str(&mut out, "Parser error at token ");
        push_decimal(self.position, &mut out);
        push_str(&mut out, ": expected ");
        match &self.expected {
            ImpExpected::Symbol(_, s) => push_miniimp_site(&mut out, *s),
            ImpExpected::Identifier => push_str(&mut out, "an identifier"),
            ImpExpected::Command => push_str(&mut out, "a command"),
            ImpExpected::ArithmeticExpression => push_str(&mut out, "an arithmetic expression"),
        }
        push_str(&mut out, ", but found ");
        push_imp_token(&mut out, &self.found);
        assert(out@ =~= miniimp_parse_message(*self));
        collect_string(out.as_slice())
    }
}

/// The sentence that reports why a MiniImp source text does not parse.
pub open spec fn miniimp_syntax_message(e: ImpSyntaxError, source: Seq<char>) -> Seq<char> {
    match e {
        ImpSyntaxError::Lex(l) => lex_error_message(l, source),
        ImpSyntaxError::Parse(p) => miniimp_parse_message(p),
    }
}

impl ImpSyntaxError {
    /// The error as a sentence; `source` is the text that was parsed.
    pub fn message(&self, source: &str) -> (r: String)
        ensures
            r@ == miniimp_syntax_message(*self, source@),
    {
        match self {
            ImpSyntaxError::Lex(l) => l.message(source),
            ImpSyntaxError::Parse(p) => p.message(),
        }
    }
}

/// What the MiniFun parser expected at a site, as the error sentence names it.
pub open spec fn minifun_site_text(s: FunSite) -> Seq<char> {
    match s {
        FunSite::EndOfExpression => "end of MiniFun expression"@,
        FunSite::LetKeyword => "'let'"@,
        FunSite::EqualAfterName => "'=' after the let-bound name"@,
        FunSite::InAfterValue => "'in' after the let-bound expression"@,
        FunSite::LetFunKeyword => "'letfun'"@,
        FunSite::OpenParenAfterName => "'(' after the recursive function name"@,
        FunSite::ColonAfterRecursiveParameter => "':' after the recursive function parameter"@,
        FunSite::CloseParenAfterRecursiveParameter => "')' after the recursive function parameter"@,
        FunSite::ColonBeforeReturnType => "':' before the recursive function return type"@,
        FunSite::EqualBeforeBody => "'=' before the recursive function body"@,
        FunSite::InAfterBody => "'in' after the recursive function body"@,
        FunSite::IfKeyword => "'if'"@,
        FunSite::ThenAfterCondition => "'then' after the if condition"@,
        FunSite::ElseAfterThenBranch => "'else' after the then branch"@,
        FunSite::FunKeyword => "'fun'"@,
        FunSite::OpenParenAfterFun => "'(' after 'fun'"@,
        FunSite::ColonAfterParameter => "':' after the function parameter"@,
        FunSite::CloseParenAfterParameter => "')' after the function parameter"@,
        FunSite::ArrowBeforeBody => "'->' before the function body"@,
        FunSite::CloseParenAfterType => "')' after a type"@,
        FunSite::CloseParenAfterExpression => "')' after a MiniFun expression"@,
    }
}

fn push_minifun_site(out: &mut Vec<char>, s: FunSite)
    ensures
        final(out)@ == old(out)@ + minifun_site_text(s),
{
    match s {
        FunSite::EndOfExpression => push_str(out, "end of MiniFun expression"),
        FunSite::LetKeyword => push_str(out, "'let'"),
        FunSite::EqualAfterName => push_str(out, "'=' after the let-bound name"),
        FunSite::InAfterValue => push_str(out, "'in' after the let-bound expression"),
        FunSite::LetFunKeyword => push_str(out, "'letfun'"),
        FunSite::OpenParenAfterName => push_str(out, "'(' after the recursive function name"),
        FunSite::ColonAfterRecursiveParameter => push_str(out, "':' after the recursive function parameter"),
        FunSite::CloseParenAfterRecursiveParameter => push_str(out, "')' after the recursive function parameter"),
        FunSite::ColonBeforeReturnType => push_str(out, "':' before the recursive function return type"),
        FunSite::EqualBeforeBody => push_str(out, "'=' before the recursive function body"),
        FunSite::InAfterBody => push_str(out, "'in' after the recursive function body"),
        FunSite::IfKeyword => push_str(out, "'if'"),
        FunSite::ThenAfterCondition => push_str(out, "'then' after the if condition"),
        FunSite::ElseAfterThenBranch => push_str(out, "'else' after the then branch"),
        FunSite::FunKeyword => push_str(out, "'fun'"),
        FunSite::OpenParenAfterFun => push_str(out, "'(' after 'fun'"),
        FunSite::ColonAfterParameter => push_str(out, "':' after the function parameter"),
        FunSite::CloseParenAfterParameter => push_str(out, "')' after the function parameter"),
        FunSite::ArrowBeforeBody => push_str(out, "'->' before the function body"),
        FunSite::CloseParenAfterType => push_str(out, "')' after a type"),
        FunSite::CloseParenAfterExpression => push_str(out, "')' after a MiniFun expression"),
    }
}

/// What the MiniFun parser expected, as the error sentence names it.
pub open spec fn minifun_expected_text(e: FunExpected) -> Seq<char> {
    match e {
        FunExpected::Symbol(_, s) => minifun_site_text(s),
        FunExpected::Identifier => "an identifier"@,
        FunExpected::Type => "a type"@,
        FunExpected::Expression => "a MiniFun expression"@,
    }
}

/// The sentence that reports a MiniFun parse error.
pub open spec fn minifun_parse_message(e: FunParseError) -> Seq<char> {
    "Parser error at token "@ + decimal_digits(e.position as nat) + ": expected "@ + minifun_expected_text(
        e.expected,
    ) + ", but found "@ + fun_token_text(e.found)
}

impl FunParseError {
    /// The error as a sentence, such as
    /// `Parser error at token 2: expected an identifier, but found Eof`.
    pub fn message(&self) -> (r: String)
        ensures
            r@ == minifun_parse_message(*self),
    {
        let mut out: Vec<char> = Vec::new();
        push_str(&mut out, "Parser error at token ");
        push_decimal(self.position, &mut out);
        push_str(&mut out, ": expected ");
        match &self.expected {
            FunExpected::Symbol(_, s) => push_minifun_site(&mut out, *s),
            FunExpected::Identifier => push_str(&mut out, "an identifier"),
            FunExpected::Type => push_str(&mut out, "a type"),
            FunExpected::Expression => push_str(&mut out, "a MiniFun expression"),
        }
        push_str(&mut out, ", but found ");
        push_fun_token(&mut out, &self.found);
        assert(out@ =~= minifun_parse_message(*self));
        collect_string(out.as_slice())
    }
}

/// The sentence that reports why a MiniFun source text does not parse.
pub open spec fn minifun_syntax_message(e: FunSyntaxError, source: Seq<char>) -> Seq<char> {
    match e {
        FunSyntaxError::Lex(l) => lex_error_message(l, source),
        FunSyntaxError::Parse(p) => minifun_parse_message(p),
    }
}

impl FunSyntaxError {
    /// The error as a sentence; `source` is the text that was parsed.
    pub fn message(&self, source: &str) -> (r: String)
        ensures
            r@ == minifun_syntax_message(*self, source@),
    {
        match self {
            FunSyntaxError::Lex(l) => l.message(source),
            FunSyntaxError::Parse(p) => p.message(),
        }
    }
}

} // verus!
