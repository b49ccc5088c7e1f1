use vstd::prelude::*;
use crate::minifun::ast::{BinOp, Term};
use crate::minifun::eval::{term_value, EvalError};
use crate::minifun::runtime::ValueView;
use crate::minifun::lexer::{copy_token, lex, lex_from, tokens_match, Token};
use crate::minifun::types::Type;
use crate::text::LexError;

verus! {

/// The places of the grammar where the parser expects one given token.
#[derive(Debug, Clone, Copy, PartialEq, Eq)]
pub enum Site {
    EndOfExpression,
    LetKeyword,
    EqualAfterName,
    InAfterValue,
    LetFunKeyword,
    OpenParenAfterName,
    ColonAfterRecursiveParameter,
    CloseParenAfterRecursiveParameter,
    ColonBeforeReturnType,
    EqualBeforeBody,
    InAfterBody,
    IfKeyword,
    ThenAfterCondition,
    ElseAfterThenBranch,
    FunKeyword,
    OpenParenAfterFun,
    ColonAfterParameter,
    CloseParenAfterParameter,
    ArrowBeforeBody,
    CloseParenAfterType,
    CloseParenAfterExpression,
}

/// What the parser was looking for when it stopped.
#[derive(Debug, Clone, PartialEq, Eq)]
pub enum Expected {
    /// A token of this kind, at the place of the grammar that `Site` names.
    Symbol(Token, Site),
    Identifier,
    Type,
    Expression,
}

/// Why a token sequence is not a MiniFun term: at token index `position`
/// the parser expected `expected` and found `found`.
#[derive(Debug, Clone, PartialEq, Eq)]
pub struct ParseError {
    pub position: usize,
    pub expected: Expected,
    pub found: Token,
}

/// Why a source text is not a MiniFun term.
#[derive(Debug, Clone, PartialEq, Eq)]
pub enum SyntaxError {
    Lex(LexError),
    Parse(ParseError),
}

/// A parse: the phrase and how many tokens it took, or the error.
pub type Parsed<T> = Result<(T, nat), ParseError>;

/// The token at `p`; past the end the parser sees `Eof`.
pub open spec fn cur(t: Seq<Token>, p: nat) -> Token {
    if p < t.len() {
        t[p as int]
    } else {
        Token::Eof
    }
}

/// How many tokens are left from `p`.
pub open spec fn rem(t: Seq<Token>, p: nat) -> nat {
    if p < t.len() {
        (t.len() - p) as nat
    } else {
        0
    }
}

/// The variant of a token, as a number; payloads are ignored.
pub open spec fn kind(t: Token) -> int {
    match t {
        Token::Fun => 0,
        Token::Let => 1,
        Token::LetFun => 2,
        Token::In => 3,
        Token::If => 4,
        Token::Then => 5,
        Token::Else => 6,
        Token::True => 7,
        Token::False => 8,
        Token::Not => 9,
        Token::IntType => 10,
        Token::BoolType => 11,
        Token::Identifier(_) => 12,
        Token::Integer(_) => 13,
        Token::Plus => 14,
        Token::Minus => 15,
        Token::Star => 16,
        Token::Less => 17,
        Token::AndAnd => 18,
        Token::Equal => 19,
        Token::Colon => 20,
        Token::Arrow => 21,
        Token::LeftParen => 22,
        Token::RightParen => 23,
        Token::Eof => 24,
    }
}

/// Whether the token at `p` is of the kind of `k`.
pub open spec fn at(t: Seq<Token>, p: nat, k: Token) -> bool {
    kind(cur(t, p)) == kind(k)
}

/// Taking one token of the kind of `k` at `p`: how many tokens that takes.
pub open spec fn expect(t: Seq<Token>, p: nat, k: Token, what: Site) -> Parsed<()> {
    if at(t, p, k) {
        if cur(t, p) is Eof {
            Ok(((), 0))
        } else {
            Ok(((), 1))
        }
    } else {
        Err(ParseError { position: p as usize, expected: Expected::Symbol(k, what), found: cur(t, p) })
    }
}

/// Taking an identifier at `p`.
pub open spec fn expect_identifier(t: Seq<Token>, p: nat) -> Parsed<String> {
    match cur(t, p) {
        Token::Identifier(name) => Ok((name, 1)),
        other => Err(
            ParseError {
                position: (if other is Eof { p } else { p + 1 }) as usize,
                expected: Expected::Identifier,
                found: other,
            },
        ),
    }
}

/// Adds `n` tokens to what a parse took.
pub open spec fn after<T>(n: nat, r: Parsed<T>) -> Parsed<T> {
    match r {
        Ok((v, m)) => Ok((v, n + m)),
        Err(e) => Err(e),
    }
}

// ---------------------------------------------------------------------------
// Types:
//   type := type_atom ('->' type)?
//   type_atom := 'Int' | 'Bool' | '(' type ')'
// ---------------------------------------------------------------------------

pub open spec fn type_expr(t: Seq<Token>, p: nat) -> Parsed<Type>
    decreases rem(t, p), 2nat,
{
    match type_atom(t, p) {
        Err(e) => Err(e),
        Ok((left, n)) => if at(t, p + n, Token::Arrow) {
            match type_expr(t, p + n + 1) {
                Err(e) => Err(e),
                Ok((right, m)) => Ok((Type::Fun(Box::new(left), Box::new(right)), n + 1 + m)),
            }
        } else {
            Ok((left, n))
        },
    }
}

pub open spec fn type_atom(t: Seq<Token>, p: nat) -> Parsed<Type>
    decreases rem(t, p), 1nat,
{
    if at(t, p, Token::IntType) {
        Ok((Type::Int, 1))
    } else if at(t, p, Token::BoolType) {
        Ok((Type::Bool, 1))
    } else if at(t, p, Token::LeftParen) {
        match type_expr(t, p + 1) {
            Err(e) => Err(e),
            Ok((ty, n)) => match expect(t, p + 1 + n, Token::RightParen, Site::CloseParenAfterType) {
                Err(e) => Err(e),
                Ok((_, m)) => Ok((ty, 1 + n + m)),
            },
        }
    } else {
        Err(ParseError { position: p as usize, expected: Expected::Type, found: cur(t, p) })
    }
}

// ---------------------------------------------------------------------------
// Terms:
//   term := let | letfun | if | fun | and
//   let := 'let' identifier '=' term 'in' term
//   letfun := 'letfun' identifier '(' identifier ':' type ')' ':' type '=' term 'in' term
//   if := 'if' term 'then' term 'else' term
//   fun := 'fun' '(' identifier ':' type ')' '->' term
//   and := less ('&&' less)*
//   less := additive ('<' additive)*
//   additive := multiplicative (('+' | '-') multiplicative)*
//   multiplicative := unary ('*' unary)*
//   unary := 'not' unary | '-' unary | application
//   application := atom atom*
//   atom := integer | 'true' | 'false' | identifier | '(' term ')'
// ---------------------------------------------------------------------------

/// The part of a `fun` after the keyword, up to the arrow: the parameter
/// and its type.
#[verifier::opaque]
pub open spec fn fun_head(t: Seq<Token>, p: nat) -> Parsed<(String, Type)> {
    match expect(t, p, Token::LeftParen, Site::OpenParenAfterFun) {
        Err(e) => Err(e),
        Ok((_, n1)) => match expect_identifier(t, p + n1) {
            Err(e) => Err(e),
            Ok((param, n2)) => match expect(t, p + n1 + n2, Token::Colon, Site::ColonAfterParameter) {
                Err(e) => Err(e),
                Ok((_, n3)) => match type_expr(t, p + n1 + n2 + n3) {
                    Err(e) => Err(e),
                    Ok((ty, n4)) => match expect(t, p + n1 + n2 + n3 + n4, Token::RightParen, Site::CloseParenAfterParameter) {
                        Err(e) => Err(e),
                        Ok((_, n5)) => match expect(t, p + n1 + n2 + n3 + n4 + n5, Token::Arrow, Site::ArrowBeforeBody) {
                            Err(e) => Err(e),
                            Ok((_, n6)) => Ok(((param, ty), n1 + n2 + n3 + n4 + n5 + n6)),
                        },
                    },
                },
            },
        },
    }
}

/// The part of a `letfun` after the keyword, up to `=`: the name, the
/// parameter, its type and the return type.
#[verifier::opaque]
pub open spec fn letfun_head(t: Seq<Token>, p: nat) -> Parsed<(String, String, Type, Type)> {
    match expect_identifier(t, p) {
        Err(e) => Err(e),
        Ok((name, n1)) => match expect(t, p + n1, Token::LeftParen, Site::OpenParenAfterName) {
            Err(e) => Err(e),
            Ok((_, n2)) => match expect_identifier(t, p + n1 + n2) {
                Err(e) => Err(e),
                Ok((param, n3)) => match expect(t, p + n1 + n2 + n3, Token::Colon, Site::ColonAfterRecursiveParameter) {
                    Err(e) => Err(e),
                    Ok((_, n4)) => match type_expr(t, p + n1 + n2 + n3 + n4) {
                        Err(e) => Err(e),
                        Ok((param_type, n5)) => {
                            let q = p + n1 + n2 + n3 + n4 + n5;
                            match expect(t, q, Token::RightParen, Site::CloseParenAfterRecursiveParameter) {
                                Err(e) => Err(e),
                                Ok((_, n6)) => match expect(t, q + n6, Token::Colon, Site::ColonBeforeReturnType) {
                                    Err(e) => Err(e),
                                    Ok((_, n7)) => match type_expr(t, q + n6 + n7) {
                                        Err(e) => Err(e),
                                        Ok((return_type, n8)) => match expect(
                                            t,
                                            q + n6 + n7 + n8,
                                            Token::Equal,
                                            Site::EqualBeforeBody,
                                        ) {
                                            Err(e) => Err(e),
                                            Ok((_, n9)) => Ok(
                                                (
                                                    (name, param, param_type, return_type),
                                                    (q + n6 + n7 + n8 + n9 - p) as nat,
                                                ),
                                            ),
                                        },
                                    },
                                },
                            }
                        },
                    },
                },
            },
        },
    }
}

#[verifier::opaque]
pub open spec fn term(t: Seq<Token>, p: nat) -> Parsed<Term>
    decreases rem(t, p), 20nat,
{
    match cur(t, p) {
        Token::Let => let_term(t, p),
        Token::LetFun => letfun_term(t, p),
        Token::If => if_term(t, p),
        Token::Fun => fun_term(t, p),
        _ => and_expr(t, p),
    }
}

#[verifier::opaque]
pub open spec fn let_term(t: Seq<Token>, p: nat) -> Parsed<Term>
    decreases rem(t, p), 19nat,
{
    match expect(t, p, Token::Let, Site::LetKeyword) {
        Err(e) => Err(e),
        Ok(_) => match expect_identifier(t, p + 1) {
            Err(e) => Err(e),
            Ok((name, n1)) => match expect(t, p + 1 + n1, Token::Equal, Site::EqualAfterName) {
                Err(e) => Err(e),
                Ok((_, n2)) => match term(t, p + 1 + n1 + n2) {
                    Err(e) => Err(e),
                    Ok((value, n3)) => match expect(t, p + 1 + n1 + n2 + n3, Token::In, Site::InAfterValue) {
                        Err(e) => Err(e),
                        Ok((_, n4)) => match term(t, p + 1 + n1 + n2 + n3 + n4) {
                            Err(e) => Err(e),
                            Ok((body, n5)) => Ok(
                                (
                                    Term::Let(name, Box::new(value), Box::new(body)),
                                    1 + n1 + n2 + n3 + n4 + n5,
                                ),
                            ),
                        },
                    },
                },
            },
        },
    }
}

#[verifier::opaque]
pub open spec fn letfun_term(t: Seq<Token>, p: nat) -> Parsed<Term>
    decreases rem(t, p), 19nat,
{
    match expect(t, p, Token::LetFun, Site::LetFunKeyword) {
        Err(e) => Err(e),
        Ok(_) => match letfun_head(t, p + 1) {
            Err(e) => Err(e),
            Ok(((name, param, param_type, return_type), n1)) => match term(t, p + 1 + n1) {
                Err(e) => Err(e),
                Ok((body, n2)) => match expect(t, p + 1 + n1 + n2, Token::In, Site::InAfterBody) {
                    Err(e) => Err(e),
                    Ok((_, n3)) => match term(t, p + 1 + n1 + n2 + n3) {
                        Err(e) => Err(e),
                        Ok((in_term, n4)) => Ok(
                            (
                                Term::LetFun {
                                    name,
                                    param,
                                    param_type,
                                    return_type,
                                    body: Box::new(body),
                                    in_term: Box::new(in_term),
                                },
                                1 + n1 + n2 + n3 + n4,
                            ),
                        ),
                    },
                },
            },
        },
    }
}

#[verifier::opaque]
pub open spec fn if_term(t: Seq<Token>, p: nat) -> Parsed<Term>
    decreases rem(t, p), 19nat,
{
    match expect(t, p, Token::If, Site::IfKeyword) {
        Err(e) => Err(e),
        Ok(_) => match term(t, p + 1) {
            Err(e) => Err(e),
            Ok((c, n1)) => match expect(t, p + 1 + n1, Token::Then, Site::ThenAfterCondition) {
                Err(e) => Err(e),
                Ok((_, n2)) => match term(t, p + 1 + n1 + n2) {
                    Err(e) => Err(e),
                    Ok((a, n3)) => match expect(t, p + 1 + n1 + n2 + n3, Token::Else, Site::ElseAfterThenBranch) {
                        Err(e) => Err(e),
                        Ok((_, n4)) => match term(t, p + 1 + n1 + n2 + n3 + n4) {
                            Err(e) => Err(e),
                            Ok((b, n5)) => Ok(
                                (
                                    Term::If(Box::new(c), Box::new(a), Box::new(b)),
                                    1 + n1 + n2 + n3 + n4 + n5,
                                ),
                            ),
                        },
                    },
                },
            },
        },
    }
}

#[verifier::opaque]
pub open spec fn fun_term(t: Seq<Token>, p: nat) -> Parsed<Term>
    decreases rem(t, p), 19nat,
{
    match expect(t, p, Token::Fun, Site::FunKeyword) {
        Err(e) => Err(e),
        Ok(_) => match fun_head(t, p + 1) {
            Err(e) => Err(e),
            Ok(((param, param_type), n1)) => match term(t, p + 1 + n1) {
                Err(e) => Err(e),
                Ok((body, n2)) => Ok(
                    (Term::Fun { param, param_type, body: Box::new(body) }, 1 + n1 + n2),
                ),
            },
        },
    }
}

#[verifier::opaque]
pub open spec fn and_expr(t: Seq<Token>, p: nat) -> Parsed<Term>
    decreases rem(t, p), 18nat,
{
    match less_expr(t, p) {
        Err(e) => Err(e),
        Ok((left, n)) => after(n, and_rest(t, p + n, left)),
    }
}

#[verifier::opaque]
pub open spec fn and_rest(t: Seq<Token>, p: nat, left: Term) -> Parsed<Term>
    decreases rem(t, p), 17nat,
{
    if at(t, p, Token::AndAnd) {
        match less_expr(t, p + 1) {
            Err(e) => Err(e),
            Ok((right, n)) => after(
                1 + n,
                and_rest(t, p + 1 + n, Term::BinOp(Box::new(left), BinOp::And, Box::new(right))),
            ),
        }
    } else {
        Ok((left, 0))
    }
}

#[verifier::opaque]
pub open spec fn less_expr(t: Seq<Token>, p: nat) -> Parsed<Term>
    decreases rem(t, p), 16nat,
{
    match additive(t, p) {
        Err(e) => Err(e),
        Ok((left, n)) => after(n, less_rest(t, p + n, left)),
    }
}

#[verifier::opaque]
pub open spec fn less_rest(t: Seq<Token>, p: nat, left: Term) -> Parsed<Term>
    decreases rem(t, p), 15nat,
{
    if at(t, p, Token::Less) {
        match additive(t, p + 1) {
            Err(e) => Err(e),
            Ok((right, n)) => after(
                1 + n,
                less_rest(t, p + 1 + n, Term::BinOp(Box::new(left), BinOp::Less, Box::new(right))),
            ),
        }
    } else {
        Ok((left, 0))
    }
}

#[verifier::opaque]
pub open spec fn additive(t: Seq<Token>, p: nat) -> Parsed<Term>
    decreases rem(t, p), 14nat,
{
    match multiplicative(t, p) {
        Err(e) => Err(e),
        Ok((left, n)) => after(n, additive_rest(t, p + n, left)),
    }
}

#[verifier::opaque]
pub open spec fn additive_rest(t: Seq<Token>, p: nat, left: Term) -> Parsed<Term>
    decreases rem(t, p), 13nat,
{
    if at(t, p, Token::Plus) || at(t, p, Token::Minus) {
        match multiplicative(t, p + 1) {
            Err(e) => Err(e),
            Ok((right, n)) => {
                let op = if at(t, p, Token::Plus) {
                    BinOp::Add
                } else {
                    BinOp::Sub
                };
                after(1 + n, additive_rest(t, p + 1 + n, Term::BinOp(Box::new(left), op, Box::new(right))))
            },
        }
    } else {
        Ok((left, 0))
    }
}

#[verifier::opaque]
pub open spec fn multiplicative(t: Seq<Token>, p: nat) -> Parsed<Term>
    decreases rem(t, p), 12nat,
{
    match unary(t, p) {
        Err(e) => Err(e),
        Ok((left, n)) => after(n, multiplicative_rest(t, p + n, left)),
    }
}

#[verifier::opaque]
pub open spec fn multiplicative_rest(t: Seq<Token>, p: nat, left: Term) -> Parsed<Term>
    decreases rem(t, p), 11nat,
{
    if at(t, p, Token::Star) {
        match unary(t, p + 1) {
            Err(e) => Err(e),
            Ok((right, n)) => after(
                1 + n,
                multiplicative_rest(
                    t,
                    p + 1 + n,
                    Term::BinOp(Box::new(left), BinOp::Mul, Box::new(right)),
                ),
            ),
        }
    } else {
        Ok((left, 0))
    }
}

#[verifier::opaque]
pub open spec fn unary(t: Seq<Token>, p: nat) -> Parsed<Term>
    decreases rem(t, p), 10nat,
{
    if at(t, p, Token::Not) {
        match unary(t, p + 1) {
            Err(e) => Err(e),
            Ok((e, n)) => Ok((Term::Not(Box::new(e)), 1 + n)),
        }
    } else if at(t, p, Token::Minus) {
        match unary(t, p + 1) {
            Err(e) => Err(e),
            Ok((e, n)) => Ok((Term::BinOp(Box::new(Term::Int(0)), BinOp::Sub, Box::new(e)), 1 + n)),
        }
    } else {
        application(t, p)
    }
}

#[verifier::opaque]
pub open spec fn application(t: Seq<Token>, p: nat) -> Parsed<Term>
    decreases rem(t, p), 9nat,
{
    match atom(t, p) {
        Err(e) => Err(e),
        Ok((f, n)) => after(n, application_rest(t, p + n, f)),
    }
}

/// The term of a token that is a whole atom by itself.
pub open spec fn simple_atom(k: Token) -> Option<Term> {
    match k {
        Token::Integer(v) => Some(Term::Int(v)),
        Token::True => Some(Term::Bool(true)),
        Token::False => Some(Term::Bool(false)),
        Token::Identifier(name) => Some(Term::Var(name)),
        _ => None,
    }
}

/// Further arguments applied to `left`, as long as an atom starts.
#[verifier::opaque]
pub open spec fn application_rest(t: Seq<Token>, p: nat, left: Term) -> Parsed<Term>
    decreases rem(t, p), 8nat,
{
    match simple_atom(cur(t, p)) {
        Some(a) => after(1, application_rest(t, p + 1, Term::App(Box::new(left), Box::new(a)))),
        None => if at(t, p, Token::LeftParen) {
            match term(t, p + 1) {
                Err(e) => Err(e),
                Ok((a, n)) => match expect(t, p + 1 + n, Token::RightParen, Site::CloseParenAfterExpression) {
                    Err(e) => Err(e),
                    Ok((_, m)) => after(
                        1 + n + m,
                        application_rest(t, p + 1 + n + m, Term::App(Box::new(left), Box::new(a))),
                    ),
                },
            }
        } else {
            Ok((left, 0))
        },
    }
}

#[verifier::opaque]
pub open spec fn atom(t: Seq<Token>, p: nat) -> Parsed<Term>
    decreases rem(t, p), 7nat,
{
    match simple_atom(cur(t, p)) {
        Some(a) => Ok((a, 1)),
        None => if at(t, p, Token::LeftParen) {
            match term(t, p + 1) {
                Err(e) => Err(e),
                Ok((a, n)) => match expect(t, p + 1 + n, Token::RightParen, Site::CloseParenAfterExpression) {
                    Err(e) => Err(e),
                    Ok((_, m)) => Ok((a, 1 + n + m)),
                },
            }
        } else {
            Err(ParseError { position: p as usize, expected: Expected::Expression, found: cur(t, p) })
        },
    }
}

/// The outcome of an executable parse that started at `from` and stopped at
/// `to`, in the terms of the spec functions.
pub open spec fn outcome<T>(r: Result<T, ParseError>, from: usize, to: usize) -> Parsed<T> {
    match r {
        Ok(v) => Ok((v, (to - from) as nat)),
        Err(e) => Err(e),
    }
}

/// The whole-phrase parse of a token sequence: the phrase has to be followed
/// by `Eof`.
pub open spec fn whole<T>(t: Seq<Token>, r: Parsed<T>) -> Result<T, ParseError> {
    match r {
        Err(e) => Err(e),
        Ok((v, n)) => match expect(t, n, Token::Eof, Site::EndOfExpression) {
            Err(e) => Err(e),
            Ok(_) => Ok(v),
        },
    }
}

pub open spec fn lift<T>(r: Result<T, ParseError>) -> Result<T, SyntaxError> {
    match r {
        Ok(v) => Ok(v),
        Err(e) => Err(SyntaxError::Parse(e)),
    }
}

/// What parsing a source text gives: the lexer's error, or the parser's
/// answer on the tokens that the lexer emits (identifiers are strings with
/// the characters that the lexer read).
pub open spec fn parses_to<T>(
    source: Seq<char>,
    r: Result<T, SyntaxError>,
    parsed: spec_fn(Seq<Token>) -> Result<T, ParseError>,
) -> bool {
    match lex_from(source, 0) {
        Err(e) => r == Err::<T, SyntaxError>(SyntaxError::Lex(e)),
        Ok(shapes) => exists|tokens: Seq<Token>|
            tokens_match(shapes, tokens) && r == lift(#[trigger] parsed(tokens)),
    }
}

fn kind_index(t: &Token) -> (r: u8)
    ensures
        r == kind(*t),
{
    match t {
        Token::Fun => 0,
        Token::Let => 1,
        Token::LetFun => 2,
        Token::In => 3,
        Token::If => 4,
        Token::Then => 5,
        Token::Else => 6,
        Token::True => 7,
        Token::False => 8,
        Token::Not => 9,
        Token::IntType => 10,
        Token::BoolType => 11,
        Token::Identifier(_) => 12,
        Token::Integer(_) => 13,
        Token::Plus => 14,
        Token::Minus => 15,
        Token::Star => 16,
        Token::Less => 17,
        Token::AndAnd => 18,
        Token::Equal => 19,
        Token::Colon => 20,
        Token::Arrow => 21,
        Token::LeftParen => 22,
        Token::RightParen => 23,
        Token::Eof => 24,
    }
}

/// Parses a whole MiniFun term.
pub fn parse_term(source: &str) -> (r: Result<Term, SyntaxError>)
    ensures
        parses_to(source@, r, |t: Seq<Token>| whole(t, term(t, 0))),
{
    let tokens = match lex(source) {
        Ok(tokens) => tokens,
        Err(e) => return Err(SyntaxError::Lex(e)),
    };
    let ghost t = tokens@;
    let mut parser = Parser::new(tokens);
    let r = match parser.parse_term() {
        Ok(term) => match parser.expect_simple(Token::Eof, Site::EndOfExpression) {
            Ok(()) => Ok(term),
            Err(e) => Err(SyntaxError::Parse(e)),
        },
        Err(e) => Err(SyntaxError::Parse(e)),
    };
    assert((|t: Seq<Token>| whole(t, term(t, 0)))(t) == whole(t, term(t, 0)));
    r
}

struct Parser {
    tokens: Vec<Token>,
    position: usize,
}

impl Parser {
    fn new(tokens: Vec<Token>) -> (r: Self)
        ensures
            r.tokens == tokens,
            r.position == 0,
    {
        Parser { tokens, position: 0 }
    }

    fn current(&self) -> (r: Token)
        ensures
            r == cur(self.tokens@, self.position as nat),
    {
        if self.position < self.tokens.len() {
            copy_token(&self.tokens[self.position])
        } else {
            Token::Eof
        }
    }

    fn advance(&mut self) -> (r: Token)
        requires
            old(self).position <= old(self).tokens.len(),
        ensures
            final(self).tokens == old(self).tokens,
            r == cur(old(self).tokens@, old(self).position as nat),
            final(self).position == (if r is Eof {
                old(self).position
            } else {
                (old(self).position + 1) as usize
            }),
            final(self).position <= final(self).tokens.len(),
    {
        let token = self.current();
        if !matches!(token, Token::Eof) {
            self.position = self.position + 1;
        }
        token
    }

    fn check(&self, expected: &Token) -> (r: bool)
        ensures
            r == at(self.tokens@, self.position as nat, *expected),
    {
        let t = self.current();
        kind_index(&t) == kind_index(expected)
    }

    fn consume(&mut self, expected: &Token) -> (r: bool)
        requires
            old(self).position <= old(self).tokens.len(),
        ensures
            final(self).tokens == old(self).tokens,
            r == at(old(self).tokens@, old(self).position as nat, *expected),
            final(self).position == (if r && !(*expected is Eof) {
                (old(self).position + 1) as usize
            } else {
                old(self).position
            }),
            final(self).position <= final(self).tokens.len(),
    {
        if self.check(expected) {
            self.advance();
            true
        } else {
            false
        }
    }

    fn error(&self, expected: Expected, found: Token) -> (r: ParseError)
        ensures
            r == (ParseError { position: self.position, expected, found }),
    {
        ParseError { position: self.position, expected, found }
    }

    fn expect_simple(&mut self, expected: Token, what: Site) -> (r: Result<(), ParseError>)
        requires
            old(self).position <= old(self).tokens.len(),
        ensures
            final(self).tokens == old(self).tokens,
            final(self).position <= final(self).tokens.len(),
            r is Ok ==> old(self).position <= final(self).position,
            outcome(r, old(self).position, final(self).position) == expect(
                old(self).tokens@,
                old(self).position as nat,
                expected,
                what,
            ),
    {
        if self.consume(&expected) {
            Ok(())
        } else {
            let found = self.current();
            Err(self.error(Expected::Symbol(expected, what), found))
        }
    }

    fn expect_identifier(&mut self) -> (r: Result<String, ParseError>)
        requires
            old(self).position <= old(self).tokens.len(),
        ensures
            final(self).tokens == old(self).tokens,
            final(self).position <= final(self).tokens.len(),
            r is Ok ==> old(self).position <= final(self).position,
            outcome(r, old(self).position, final(self).position) == expect_identifier(
                old(self).tokens@,
                old(self).position as nat,
            ),
    {
        match self.advance() {
            Token::Identifier(name) => Ok(name),
            token => Err(self.error(Expected::Identifier, token)),
        }
    }

    fn parse_type(&mut self) -> (r: Result<Type, ParseError>)
        requires
            old(self).position <= old(self).tokens.len(),
        ensures
            final(self).tokens == old(self).tokens,
            final(self).position <= final(self).tokens.len(),
            r is Ok ==> old(self).position <= final(self).position,
            outcome(r, old(self).position, final(self).position) == type_expr(
                old(self).tokens@,
                old(self).position as nat,
            ),
        decreases rem(old(self).tokens@, old(self).position as nat), 2nat,
    {
        let left = self.parse_type_atom()?;
        if self.consume(&Token::Arrow) {
            let right = self.parse_type()?;
            Ok(Type::Fun(Box::new(left), Box::new(right)))
        } else {
            Ok(left)
        }
    }

    fn parse_type_atom(&mut self) -> (r: Result<Type, ParseError>)
        requires
            old(self).position <= old(self).tokens.len(),
        ensures
            final(self).tokens == old(self).tokens,
            final(self).position <= final(self).tokens.len(),
            r is Ok ==> old(self).position <= final(self).position,
            outcome(r, old(self).position, final(self).position) == type_atom(
                old(self).tokens@,
                old(self).position as nat,
            ),
        decreases rem(old(self).tokens@, old(self).position as nat), 1nat,
    {
        if self.consume(&Token::IntType) {
            return Ok(Type::Int);
        }
        if self.consume(&Token::BoolType) {
            return Ok(Type::Bool);
        }
        if self.consume(&Token::LeftParen) {
            let ty = self.parse_type()?;
            self.expect_simple(Token::RightParen, Site::CloseParenAfterType)?;
            return Ok(ty);
        }
        let found = self.current();
        Err(self.error(Expected::Type, found))
    }

    #[verifier::spinoff_prover]
    #[verifier::rlimit(100)]
    fn parse_function_head(&mut self) -> (r: Result<(String, Type), ParseError>)
        requires
            old(self).position <= old(self).tokens.len(),
        ensures
            final(self).tokens == old(self).tokens,
            final(self).position <= final(self).tokens.len(),
            r is Ok ==> old(self).position <= final(self).position,
            outcome(r, old(self).position, final(self).position) == fun_head(
                old(self).tokens@,
                old(self).position as nat,
            ),
    {
        proof {
            reveal(fun_head);
        }
        self.expect_simple(Token::LeftParen, Site::OpenParenAfterFun)?;
        let param = self.expect_identifier()?;
        self.expect_simple(Token::Colon, Site::ColonAfterParameter)?;
        let param_type = self.parse_type()?;
        self.expect_simple(Token::RightParen, Site::CloseParenAfterParameter)?;
        self.expect_simple(Token::Arrow, Site::ArrowBeforeBody)?;
        Ok((param, param_type))
    }

    #[verifier::spinoff_prover]
    #[verifier::rlimit(100)]
    fn parse_letfun_head(&mut self) -> (r: Result<(String, String, Type, Type), ParseError>)
        requires
            old(self).position <= old(self).tokens.len(),
        ensures
            final(self).tokens == old(self).tokens,
            final(self).position <= final(self).tokens.len(),
            r is Ok ==> old(self).position <= final(self).position,
            outcome(r, old(self).position, final(self).position) == letfun_head(
                old(self).tokens@,
                old(self).position as nat,
            ),
    {
        proof {
            reveal(letfun_head);
        }
        let name = self.expect_identifier()?;
        self.expect_simple(Token::LeftParen, Site::OpenParenAfterName)?;
        let param = self.expect_identifier()?;
        self.expect_simple(Token::Colon, Site::ColonAfterRecursiveParameter)?;
        let param_type = self.parse_type()?;
        self.expect_simple(Token::RightParen, Site::CloseParenAfterRecursiveParameter)?;
        self.expect_simple(Token::Colon, Site::ColonBeforeReturnType)?;
        let return_type = self.parse_type()?;
        self.expect_simple(Token::Equal, Site::EqualBeforeBody)?;
        Ok((name, param, param_type, return_type))
    }

    #[verifier::spinoff_prover]
    #[verifier::rlimit(100)]
    fn parse_term(&mut self) -> (r: Result<Term, ParseError>)
        requires
            old(self).position <= old(self).tokens.len(),
        ensures
            final(self).tokens == old(self).tokens,
            final(self).position <= final(self).tokens.len(),
            r is Ok ==> old(self).position <= final(self).position,
            outcome(r, old(self).position, final(self).position) == term(
                old(self).tokens@,
                old(self).position as nat,
            ),
        decreases rem(old(self).tokens@, old(self).position as nat), 20nat,
    {
        proof {
            reveal_with_fuel(term, 1);
        }
        match self.current() {
            Token::Let => self.parse_let(),
            Token::LetFun => self.parse_letfun(),
            Token::If => self.parse_if(),
            Token::Fun => self.parse_function(),
            _ => self.parse_and_expression(),
        }
    }

    #[verifier::spinoff_prover]
    #[verifier::rlimit(100)]
    fn parse_let(&mut self) -> (r: Result<Term, ParseError>)
        requires
            old(self).position <= old(self).tokens.len(),
        ensures
            final(self).tokens == old(self).tokens,
            final(self).position <= final(self).tokens.len(),
            r is Ok ==> old(self).position <= final(self).position,
            outcome(r, old(self).position, final(self).position) == let_term(
                old(self).tokens@,
                old(self).position as nat,
            ),
        decreases rem(old(self).tokens@, old(self).position as nat), 19nat,
    {
        proof {
            reveal(let_term);
        }
        self.expect_simple(Token::Let, Site::LetKeyword)?;
        let name = self.expect_identifier()?;
        self.expect_simple(Token::Equal, Site::EqualAfterName)?;
        let value = self.parse_term()?;
        self.expect_simple(Token::In, Site::InAfterValue)?;
        let body = self.parse_term()?;
        Ok(Term::Let(name, Box::new(value), Box::new(body)))
    }

    #[verifier::spinoff_prover]
    #[verifier::rlimit(100)]
    fn parse_letfun(&mut self) -> (r: Result<Term, ParseError>)
        requires
            old(self).position <= old(self).tokens.len(),
        ensures
            final(self).tokens == old(self).tokens,
            final(self).position <= final(self).tokens.len(),
            r is Ok ==> old(self).position <= final(self).position,
            outcome(r, old(self).position, final(self).position) == letfun_term(
                old(self).tokens@,
                old(self).position as nat,
            ),
        decreases rem(old(self).tokens@, old(self).position as nat), 19nat,
    {
        proof {
            reveal(letfun_term);
        }
        self.expect_simple(Token::LetFun, Site::LetFunKeyword)?;
        let (name, param, param_type, return_type) = self.parse_letfun_head()?;
        let body = self.parse_term()?;
        self.expect_simple(Token::In, Site::InAfterBody)?;
        let in_term = self.parse_term()?;
        Ok(
            Term::LetFun {
                name,
                param,
                param_type,
                return_type,
                body: Box::new(body),
                in_term: Box::new(in_term),
            },
        )
    }

    #[verifier::spinoff_prover]
    #[verifier::rlimit(100)]
    fn parse_if(&mut self) -> (r: Result<Term, ParseError>)
        requires
            old(self).position <= old(self).tokens.len(),
        ensures
            final(self).tokens == old(self).tokens,
            final(self).position <= final(self).tokens.len(),
            r is Ok ==> old(self).position <= final(self).position,
            outcome(r, old(self).position, final(self).position) == if_term(
                old(self).tokens@,
                old(self).position as nat,
            ),
        decreases rem(old(self).tokens@, old(self).position as nat), 19nat,
    {
        proof {
            reveal(if_term);
        }
        self.expect_simple(Token::If, Site::IfKeyword)?;
        let condition = self.parse_term()?;
        self.expect_simple(Token::Then, Site::ThenAfterCondition)?;
        let then_branch = self.parse_term()?;
        self.expect_simple(Token::Else, Site::ElseAfterThenBranch)?;
        let else_branch = self.parse_term()?;
        Ok(Term::If(Box::new(condition), Box::new(then_branch), Box::new(else_branch)))
    }

    #[verifier::spinoff_prover]
    #[verifier::rlimit(100)]
    fn parse_function(&mut self) -> (r: Result<Term, ParseError>)
        requires
            old(self).position <= old(self).tokens.len(),
        ensures
            final(self).tokens == old(self).tokens,
            final(self).position <= final(self).tokens.len(),
            r is Ok ==> old(self).position <= final(self).position,
            outcome(r, old(self).position, final(self).position) == fun_term(
                old(self).tokens@,
                old(self).position as nat,
            ),
        decreases rem(old(self).tokens@, old(self).position as nat), 19nat,
    {
        proof {
            reveal(fun_term);
        }
        self.expect_simple(Token::Fun, Site::FunKeyword)?;
        let (param, param_type) = self.parse_function_head()?;
        let body = self.parse_term()?;
        Ok(Term::Fun { param, param_type, body: Box::new(body) })
    }

    #[verifier::spinoff_prover]
    #[verifier::rlimit(100)]
    fn parse_and_expression(&mut self) -> (r: Result<Term, ParseError>)
        requires
            old(self).position <= old(self).tokens.len(),
        ensures
            final(self).tokens == old(self).tokens,
            final(self).position <= final(self).tokens.len(),
            r is Ok ==> old(self).position <= final(self).position,
            outcome(r, old(self).position, final(self).position) == and_expr(
                old(self).tokens@,
                old(self).position as nat,
            ),
        decreases rem(old(self).tokens@, old(self).position as nat), 18nat,
    {
        proof {
            reveal_with_fuel(and_expr, 1);
            reveal_with_fuel(and_rest, 1);
        }
        let ghost t = self.tokens@;
        let ghost t0 = self.tokens;
        let ghost start = self.position;
        let mut term = self.parse_less_expression()?;
        while self.check(&Token::AndAnd)
            invariant
                self.tokens == t0,
                t0 == old(self).tokens,
                start == old(self).position,
                self.tokens@ == t,
                start <= self.position <= self.tokens.len(),
                and_expr(t, start as nat) == after(
                    (self.position - start) as nat,
                    and_rest(t, self.position as nat, term),
                ),
            decreases self.tokens.len() - self.position,
        {
            proof {
                reveal_with_fuel(and_rest, 1);
            }
            self.advance();
            let right = self.parse_less_expression()?;
            term = Term::BinOp(Box::new(term), BinOp::And, Box::new(right));
        }
        Ok(term)
    }

    #[verifier::spinoff_prover]
    #[verifier::rlimit(100)]
    fn parse_less_expression(&mut self) -> (r: Result<Term, ParseError>)
        requires
            old(self).position <= old(self).tokens.len(),
        ensures
            final(self).tokens == old(self).tokens,
            final(self).position <= final(self).tokens.len(),
            r is Ok ==> old(self).position <= final(self).position,
            outcome(r, old(self).position, final(self).position) == less_expr(
                old(self).tokens@,
                old(self).position as nat,
            ),
        decreases rem(old(self).tokens@, old(self).position as nat), 16nat,
    {
        proof {
            reveal_with_fuel(less_expr, 1);
            reveal_with_fuel(less_rest, 1);
        }
        let ghost t = self.tokens@;
        let ghost t0 = self.tokens;
        let ghost start = self.position;
        let mut term = self.parse_additive_expression()?;
        while self.check(&Token::Less)
            invariant
                self.tokens == t0,
                t0 == old(self).tokens,
                start == old(self).position,
                self.tokens@ == t,
                start <= self.position <= self.tokens.len(),
                less_expr(t, start as nat) == after(
                    (self.position - start) as nat,
                    less_rest(t, self.position as nat, term),
                ),
            decreases self.tokens.len() - self.position,
        {
            proof {
                reveal_with_fuel(less_rest, 1);
            }
            self.advance();
            let right = self.parse_additive_expression()?;
            term = Term::BinOp(Box::new(term), BinOp::Less, Box::new(right));
        }
        Ok(term)
    }

    #[verifier::spinoff_prover]
    #[verifier::rlimit(100)]
    fn parse_additive_expression(&mut self) -> (r: Result<Term, ParseError>)
        requires
            old(self).position <= old(self).tokens.len(),
        ensures
            final(self).tokens == old(self).tokens,
            final(self).position <= final(self).tokens.len(),
            r is Ok ==> old(self).position <= final(self).position,
            outcome(r, old(self).position, final(self).position) == additive(
                old(self).tokens@,
                old(self).position as nat,
            ),
        decreases rem(old(self).tokens@, old(self).position as nat), 14nat,
    {
        proof {
            reveal_with_fuel(additive, 1);
            reveal_with_fuel(additive_rest, 1);
        }
        let ghost t = self.tokens@;
        let ghost t0 = self.tokens;
        let ghost start = self.position;
        let mut term = self.parse_multiplicative_expression()?;
        while self.check(&Token::Plus) || self.check(&Token::Minus)
            invariant
                self.tokens == t0,
                t0 == old(self).tokens,
                start == old(self).position,
                self.tokens@ == t,
                start <= self.position <= self.tokens.len(),
                additive(t, start as nat) == after(
                    (self.position - start) as nat,
                    additive_rest(t, self.position as nat, term),
                ),
            decreases self.tokens.len() - self.position,
        {
            proof {
                reveal_with_fuel(additive_rest, 1);
            }
            let plus = self.check(&Token::Plus);
            self.advance();
            let right = self.parse_multiplicative_expression()?;
            let op = if plus {
                BinOp::Add
            } else {
                BinOp::Sub
            };
            term = Term::BinOp(Box::new(term), op, Box::new(right));
        }
        Ok(term)
    }

    #[verifier::spinoff_prover]
    #[verifier::rlimit(100)]
    fn parse_multiplicative_expression(&mut self) -> (r: Result<Term, ParseError>)
        requires
            old(self).position <= old(self).tokens.len(),
        ensures
            final(self).tokens == old(self).tokens,
            final(self).position <= final(self).tokens.len(),
            r is Ok ==> old(self).position <= final(self).position,
            outcome(r, old(self).position, final(self).position) == multiplicative(
                old(self).tokens@,
                old(self).position as nat,
            ),
        decreases rem(old(self).tokens@, old(self).position as nat), 12nat,
    {
        proof {
            reveal_with_fuel(multiplicative, 1);
            reveal_with_fuel(multiplicative_rest, 1);
        }
        let ghost t = self.tokens@;
        let ghost t0 = self.tokens;
        let ghost start = self.position;
        let mut term = self.parse_unary_expression()?;
        while self.check(&Token::Star)
            invariant
                self.tokens == t0,
                t0 == old(self).tokens,
                start == old(self).position,
                self.tokens@ == t,
                start <= self.position <= self.tokens.len(),
                multiplicative(t, start as nat) == after(
                    (self.position - start) as nat,
                    multiplicative_rest(t, self.position as nat, term),
                ),
            decreases self.tokens.len() - self.position,
        {
            proof {
                reveal_with_fuel(multiplicative_rest, 1);
            }
            self.advance();
            let right = self.parse_unary_expression()?;
            term = Term::BinOp(Box::new(term), BinOp::Mul, Box::new(right));
        }
        Ok(term)
    }

    #[verifier::spinoff_prover]
    #[verifier::rlimit(100)]
    fn parse_unary_expression(&mut self) -> (r: Result<Term, ParseError>)
        requires
            old(self).position <= old(self).tokens.len(),
        ensures
            final(self).tokens == old(self).tokens,
            final(self).position <= final(self).tokens.len(),
            r is Ok ==> old(self).position <= final(self).position,
            outcome(r, old(self).position, final(self).position) == unary(
                old(self).tokens@,
                old(self).position as nat,
            ),
        decreases rem(old(self).tokens@, old(self).position as nat), 10nat,
    {
        proof {
            reveal_with_fuel(unary, 1);
        }
        if self.consume(&Token::Not) {
            let operand = self.parse_unary_expression()?;
            return Ok(Term::Not(Box::new(operand)));
        }
        if self.consume(&Token::Minus) {
            let operand = self.parse_unary_expression()?;
            return Ok(Term::BinOp(Box::new(Term::Int(0)), BinOp::Sub, Box::new(operand)));
        }
        self.parse_application()
    }

    fn starts_atom(&self) -> (r: bool)
        ensures
            r == (simple_atom(cur(self.tokens@, self.position as nat)) is Some || at(
                self.tokens@,
                self.position as nat,
                Token::LeftParen,
            )),
    {
        match self.current() {
            Token::Integer(_) | Token::True | Token::False | Token::Identifier(_) | Token::LeftParen => true,
            _ => false,
        }
    }

    #[verifier::spinoff_prover]
    #[verifier::rlimit(100)]
    fn parse_application(&mut self) -> (r: Result<Term, ParseError>)
        requires
            old(self).position <= old(self).tokens.len(),
        ensures
            final(self).tokens == old(self).tokens,
            final(self).position <= final(self).tokens.len(),
            r is Ok ==> old(self).position <= final(self).position,
            outcome(r, old(self).position, final(self).position) == application(
                old(self).tokens@,
                old(self).position as nat,
            ),
        decreases rem(old(self).tokens@, old(self).position as nat), 9nat,
    {
        proof {
            reveal_with_fuel(application, 1);
            reveal_with_fuel(application_rest, 1);
            reveal_with_fuel(atom, 1);
        }
        let ghost t = self.tokens@;
        let ghost t0 = self.tokens;
        let ghost start = self.position;
        let mut term = self.parse_atom()?;
        while self.starts_atom()
            invariant
                self.tokens == t0,
                t0 == old(self).tokens,
                start == old(self).position,
                self.tokens@ == t,
                start <= self.position <= self.tokens.len(),
                application(t, start as nat) == after(
                    (self.position - start) as nat,
                    application_rest(t, self.position as nat, term),
                ),
            decreases self.tokens.len() - self.position,
        {
            proof {
                reveal_with_fuel(application_rest, 1);
                reveal_with_fuel(atom, 1);
            }
            let argument = self.parse_atom()?;
            term = Term::App(Box::new(term), Box::new(argument));
        }
        Ok(term)
    }

    #[verifier::spinoff_prover]
    #[verifier::rlimit(100)]
    fn parse_atom(&mut self) -> (r: Result<Term, ParseError>)
        requires
            old(self).position <= old(self).tokens.len(),
        ensures
            final(self).tokens == old(self).tokens,
            final(self).position <= final(self).tokens.len(),
            r is Ok ==> old(self).position <= final(self).position,
            outcome(r, old(self).position, final(self).position) == atom(
                old(self).tokens@,
                old(self).position as nat,
            ),
        decreases rem(old(self).tokens@, old(self).position as nat), 7nat,
    {
        proof {
            reveal_with_fuel(atom, 1);
        }
        match self.current() {
            Token::Integer(value) => {
                self.advance();
                Ok(Term::Int(value))
            },
            Token::True => {
                self.advance();
                Ok(Term::Bool(true))
            },
            Token::False => {
                self.advance();
                Ok(Term::Bool(false))
            },
            Token::Identifier(name) => {
                self.advance();
                Ok(Term::Var(name))
            },
            Token::LeftParen => {
                self.advance();
                let term = self.parse_term()?;
                self.expect_simple(Token::RightParen, Site::CloseParenAfterExpression)?;
                Ok(term)
            },
            token => Err(self.error(Expected::Expression, token)),
        }
    }
}

/// A unary minus negates. Where `-` stands before an operand that parses,
/// the term parsed there takes one token more than the operand and, in
/// every memory, evaluates to the operand's value negated: an overflow
/// error for the least `i32`, a refusal for an operand that is not an
/// integer, and the operand's own error where it has one.
pub proof fn lemma_unary_minus_negates(t: Seq<Token>, p: nat, values: Map<Seq<char>, ValueView>, fuel: nat)
    requires
        at(t, p, Token::Minus),
        unary(t, p + 1) is Ok,
    ensures
        unary(t, p) is Ok,
        ({
            let (neg, n) = unary(t, p)->Ok_0;
            let (e, m) = unary(t, p + 1)->Ok_0;
            &&& n == m + 1
            &&& match term_value(e, values, fuel) {
                Ok(ValueView::Int(k)) => if k == i32::MIN {
                    term_value(neg, values, fuel) == Err::<ValueView, EvalError>(EvalError::ArithmeticOverflow)
                } else {
                    term_value(neg, values, fuel) == Ok::<ValueView, EvalError>(ValueView::Int((-k) as i32))
                },
                Ok(_) => term_value(neg, values, fuel) == Err::<ValueView, EvalError>(EvalError::InvalidOperands),
                Err(err) => term_value(neg, values, fuel) == Err::<ValueView, EvalError>(err),
            }
        }),
{
    reveal(unary);
    assert(!at(t, p, Token::Not));
    let (e, m) = unary(t, p + 1)->Ok_0;
    let neg = Term::BinOp(Box::new(Term::Int(0)), BinOp::Sub, Box::new(e));
    assert(unary(t, p) == Ok::<(Term, nat), ParseError>((neg, 1 + m)));
    assert(term_value(Term::Int(0), values, fuel) == Ok::<ValueView, EvalError>(ValueView::Int(0)));
    assert(term_value(neg, values, fuel) == match term_value(e, values, fuel) {
        Err(err) => Err(err),
        Ok(ev) => crate::minifun::eval::binop_value(BinOp::Sub, ValueView::Int(0), ev),
    });
}

} // verus!

