use vstd::prelude::*;
use crate::miniimp::ast::{AExpr, BExpr, Command, Program};
use crate::miniimp::lexer::{copy_token, lex, lex_from, tokens_match, Token};
use crate::text::LexError;

verus! {

/// The places of the grammar where the parser expects one given token.
#[derive(Debug, Clone, Copy, PartialEq, Eq)]
pub enum Site {
    InputKeyword,
    SemicolonAfterInput,
    OutputKeyword,
    SemicolonAfterOutput,
    EndOfProgram,
    EndOfArithmetic,
    EndOfBoolean,
    AssignAfterTarget,
    IfKeyword,
    ThenAfterCondition,
    ElseAfterThenBranch,
    WhileKeyword,
    DoAfterCondition,
    OpenBrace,
    CloseBraceAfterBlock,
    LessInComparison,
    CloseParenAfterArithmetic,
}

/// What the parser was looking for when it stopped.
#[derive(Debug, Clone, PartialEq, Eq)]
pub enum Expected {
    /// A token of this kind, at the place of the grammar that `Site` names.
    Symbol(Token, Site),
    Identifier,
    Command,
    ArithmeticExpression,
}

/// Why a token sequence is not a MiniImp phrase: at token index `position`
/// the parser expected `expected` and found `found`.
#[derive(Debug, Clone, PartialEq, Eq)]
pub struct ParseError {
    pub position: usize,
    pub expected: Expected,
    pub found: Token,
}

/// Why a source text is not a MiniImp phrase.
#[derive(Debug, Clone, PartialEq, Eq)]
pub enum SyntaxError {
    Lex(LexError),
    Parse(ParseError),
}

/// A parse: the phrase and how many tokens it took, or the error.
pub type Parsed<T> = Result<(T, nat), ParseError>;

/// The token at `p`; past the end the parser sees `Eof`.
pub open spec fn cur(t: Seq<Token>, p: nat) -> Token {
    if p < t.len() {
        t[p as int]
    } else {
        Token::Eof
    }
}

/// How many tokens are left from `p`.
pub open spec fn rem(t: Seq<Token>, p: nat) -> nat {
    if p < t.len() {
        (t.len() - p) as nat
    } else {
        0
    }
}

/// The variant of a token, as a number; payloads are ignored.
pub open spec fn kind(t: Token) -> int {
    match t {
        Token::Input => 0,
        Token::Output => 1,
        Token::Skip => 2,
        Token::If => 3,
        Token::Then => 4,
        Token::Else => 5,
        Token::While => 6,
        Token::Do => 7,
        Token::True => 8,
        Token::False => 9,
        Token::Identifier(_) => 10,
        Token::Integer(_) => 11,
        Token::Assign => 12,
        Token::Plus => 13,
        Token::Minus => 14,
        Token::Star => 15,
        Token::Less => 16,
        Token::AndAnd => 17,
        Token::Bang => 18,
        Token::LeftParen => 19,
        Token::RightParen => 20,
        Token::LeftBrace => 21,
        Token::RightBrace => 22,
        Token::Semicolon => 23,
        Token::Eof => 24,
    }
}

/// Whether the token at `p` is of the kind of `k`.
pub open spec fn at(t: Seq<Token>, p: nat, k: Token) -> bool {
    kind(cur(t, p)) == kind(k)
}

/// Taking one token of the kind of `k` at `p`: how many tokens that takes.
pub open spec fn expect(t: Seq<Token>, p: nat, k: Token, what: Site) -> Parsed<()> {
    if at(t, p, k) {
        if cur(t, p) is Eof {
            Ok(((), 0))
        } else {
            Ok(((), 1))
        }
    } else {
        Err(ParseError { position: p as usize, expected: Expected::Symbol(k, what), found: cur(t, p) })
    }
}

/// Taking an identifier at `p`.
pub open spec fn expect_identifier(t: Seq<Token>, p: nat) -> Parsed<String> {
    match cur(t, p) {
        Token::Identifier(name) => Ok((name, 1)),
        other => Err(
            ParseError {
                position: (if other is Eof { p } else { p + 1 }) as usize,
                expected: Expected::Identifier,
                found: other,
            },
        ),
    }
}

/// Adds `n` tokens to what a parse took.
pub open spec fn after<T>(n: nat, r: Parsed<T>) -> Parsed<T> {
    match r {
        Ok((v, m)) => Ok((v, n + m)),
        Err(e) => Err(e),
    }
}

// ---------------------------------------------------------------------------
// Arithmetic expressions:
//   additive := multiplicative (('+' | '-') multiplicative)*
//   multiplicative := unary ('*' unary)*
//   unary := '-' unary | atom
//   atom := integer | identifier | '(' additive ')'
// ---------------------------------------------------------------------------

pub open spec fn additive(t: Seq<Token>, p: nat) -> Parsed<AExpr>
    decreases rem(t, p), 6nat,
{
    match multiplicative(t, p) {
        Err(e) => Err(e),
        Ok((left, n)) => after(n, additive_rest(t, p + n, left)),
    }
}

pub open spec fn additive_rest(t: Seq<Token>, p: nat, left: AExpr) -> Parsed<AExpr>
    decreases rem(t, p), 5nat,
{
    if at(t, p, Token::Plus) || at(t, p, Token::Minus) {
        match multiplicative(t, p + 1) {
            Err(e) => Err(e),
            Ok((right, n)) => {
                let e = if at(t, p, Token::Plus) {
                    AExpr::Add(Box::new(left), Box::new(right))
                } else {
                    AExpr::Sub(Box::new(left), Box::new(right))
                };
                after(1 + n, additive_rest(t, p + 1 + n, e))
            },
        }
    } else {
        Ok((left, 0))
    }
}

pub open spec fn multiplicative(t: Seq<Token>, p: nat) -> Parsed<AExpr>
    decreases rem(t, p), 4nat,
{
    match unary(t, p) {
        Err(e) => Err(e),
        Ok((left, n)) => after(n, multiplicative_rest(t, p + n, left)),
    }
}

pub open spec fn multiplicative_rest(t: Seq<Token>, p: nat, left: AExpr) -> Parsed<AExpr>
    decreases rem(t, p), 3nat,
{
    if at(t, p, Token::Star) {
        match unary(t, p + 1) {
            Err(e) => Err(e),
            Ok((right, n)) => after(
                1 + n,
                multiplicative_rest(t, p + 1 + n, AExpr::Mul(Box::new(left), Box::new(right))),
            ),
        }
    } else {
        Ok((left, 0))
    }
}

pub open spec fn unary(t: Seq<Token>, p: nat) -> Parsed<AExpr>
    decreases rem(t, p), 2nat,
{
    if at(t, p, Token::Minus) {
        match unary(t, p + 1) {
            Err(e) => Err(e),
            Ok((e, n)) => Ok((AExpr::Sub(Box::new(AExpr::Int(0)), Box::new(e)), 1 + n)),
        }
    } else {
        arithmetic_atom(t, p)
    }
}

pub open spec fn arithmetic_atom(t: Seq<Token>, p: nat) -> Parsed<AExpr>
    decreases rem(t, p), 1nat,
{
    match cur(t, p) {
        Token::Integer(v) => Ok((AExpr::Int(v), 1)),
        Token::Identifier(name) => Ok((AExpr::Var(name), 1)),
        Token::LeftParen => match additive(t, p + 1) {
            Err(e) => Err(e),
            Ok((e, n)) => match expect(t, p + 1 + n, Token::RightParen, Site::CloseParenAfterArithmetic) {
                Err(err) => Err(err),
                Ok((_, m)) => Ok((e, 1 + n + m)),
            },
        },
        other => Err(
            ParseError {
                position: p as usize,
                expected: Expected::ArithmeticExpression,
                found: other,
            },
        ),
    }
}

// ---------------------------------------------------------------------------
// Boolean expressions:
//   boolean := negation ('&&' negation)*
//   negation := '!' negation | batom
//   batom := 'true' | 'false' | '(' boolean ')' | additive '<' additive
// A parenthesis first tries a Boolean expression and falls back on a
// comparison whose left operand starts with the parenthesis.
// ---------------------------------------------------------------------------

pub open spec fn boolean(t: Seq<Token>, p: nat) -> Parsed<BExpr>
    decreases rem(t, p), 6nat,
{
    match negation(t, p) {
        Err(e) => Err(e),
        Ok((left, n)) => after(n, boolean_rest(t, p + n, left)),
    }
}

pub open spec fn boolean_rest(t: Seq<Token>, p: nat, left: BExpr) -> Parsed<BExpr>
    decreases rem(t, p), 5nat,
{
    if at(t, p, Token::AndAnd) {
        match negation(t, p + 1) {
            Err(e) => Err(e),
            Ok((right, n)) => after(
                1 + n,
                boolean_rest(t, p + 1 + n, BExpr::And(Box::new(left), Box::new(right))),
            ),
        }
    } else {
        Ok((left, 0))
    }
}

pub open spec fn negation(t: Seq<Token>, p: nat) -> Parsed<BExpr>
    decreases rem(t, p), 4nat,
{
    if at(t, p, Token::Bang) {
        match negation(t, p + 1) {
            Err(e) => Err(e),
            Ok((e, n)) => Ok((BExpr::Not(Box::new(e)), 1 + n)),
        }
    } else {
        boolean_atom(t, p)
    }
}

pub open spec fn comparison(t: Seq<Token>, p: nat) -> Parsed<BExpr> {
    match additive(t, p) {
        Err(e) => Err(e),
        Ok((left, n)) => match expect(t, p + n, Token::Less, Site::LessInComparison) {
            Err(e) => Err(e),
            Ok((_, m)) => match additive(t, p + n + m) {
                Err(e) => Err(e),
                Ok((right, k)) => Ok((BExpr::Less(Box::new(left), Box::new(right)), n + m + k)),
            },
        },
    }
}

pub open spec fn boolean_atom(t: Seq<Token>, p: nat) -> Parsed<BExpr>
    decreases rem(t, p), 3nat,
{
    if at(t, p, Token::True) {
        Ok((BExpr::True, 1))
    } else if at(t, p, Token::False) {
        Ok((BExpr::False, 1))
    } else if at(t, p, Token::LeftParen) {
        match boolean(t, p + 1) {
            Ok((e, n)) => if at(t, p + 1 + n, Token::RightParen) {
                Ok((e, 2 + n))
            } else {
                comparison(t, p)
            },
            Err(_) => comparison(t, p),
        }
    } else {
        comparison(t, p)
    }
}

// ---------------------------------------------------------------------------
// Commands:
//   sequence := (command (';'+ command)* ';'*)?      (ended by '}' or Eof)
//   command := 'skip' | identifier ':=' additive | if | while | block
//   if := 'if' boolean 'then' branch 'else' branch
//   while := 'while' boolean 'do' branch
//   branch := block | command
//   block := '{' sequence '}'
// ---------------------------------------------------------------------------

/// How many `;` follow `p`.
pub open spec fn semicolons(t: Seq<Token>, p: nat) -> nat
    decreases rem(t, p),
{
    if at(t, p, Token::Semicolon) {
        1 + semicolons(t, p + 1)
    } else {
        0
    }
}

pub open spec fn ends_sequence(t: Seq<Token>, p: nat) -> bool {
    at(t, p, Token::RightBrace) || at(t, p, Token::Eof)
}

pub open spec fn sequence(t: Seq<Token>, p: nat) -> Parsed<Command>
    decreases rem(t, p), 6nat,
{
    if ends_sequence(t, p) {
        Ok((Command::Skip, 0))
    } else {
        match command(t, p) {
            Err(e) => Err(e),
            Ok((first, n)) => after(n, sequence_rest(t, p + n, first)),
        }
    }
}

pub open spec fn sequence_rest(t: Seq<Token>, p: nat, done: Command) -> Parsed<Command>
    decreases rem(t, p), 5nat,
{
    if at(t, p, Token::Semicolon) {
        let q = p + 1 + semicolons(t, p + 1);
        if ends_sequence(t, q) {
            Ok((done, (q - p) as nat))
        } else {
            match command(t, q) {
                Err(e) => Err(e),
                Ok((c, n)) => after(
                    (q - p) as nat + n,
                    sequence_rest(t, q + n, Command::Sequence(Box::new(done), Box::new(c))),
                ),
            }
        }
    } else {
        Ok((done, 0))
    }
}

pub open spec fn branch(t: Seq<Token>, p: nat) -> Parsed<Command>
    decreases rem(t, p), 4nat,
{
    if at(t, p, Token::LeftBrace) {
        block(t, p)
    } else {
        command(t, p)
    }
}

pub open spec fn command(t: Seq<Token>, p: nat) -> Parsed<Command>
    decreases rem(t, p), 3nat,
{
    match cur(t, p) {
        Token::Skip => Ok((Command::Skip, 1)),
        Token::Identifier(name) => match expect(t, p + 1, Token::Assign, Site::AssignAfterTarget) {
            Err(e) => Err(e),
            Ok((_, m)) => match additive(t, p + 1 + m) {
                Err(e) => Err(e),
                Ok((e, n)) => Ok((Command::Assign(name, e), 1 + m + n)),
            },
        },
        Token::If => if_command(t, p),
        Token::While => while_command(t, p),
        Token::LeftBrace => block(t, p),
        other => Err(
            ParseError { position: p as usize, expected: Expected::Command, found: other },
        ),
    }
}

pub open spec fn if_command(t: Seq<Token>, p: nat) -> Parsed<Command>
    decreases rem(t, p), 2nat,
{
    match expect(t, p, Token::If, Site::IfKeyword) {
        Err(e) => Err(e),
        Ok(_) => {
            match boolean(t, p + 1) {
                Err(e) => Err(e),
                Ok((g, n1)) => match expect(t, p + 1 + n1, Token::Then, Site::ThenAfterCondition) {
                    Err(e) => Err(e),
                    Ok((_, n2)) => match branch(t, p + 1 + n1 + n2) {
                        Err(e) => Err(e),
                        Ok((a, n3)) => match expect(t, p + 1 + n1 + n2 + n3, Token::Else, Site::ElseAfterThenBranch) {
                            Err(e) => Err(e),
                            Ok((_, n4)) => match branch(t, p + 1 + n1 + n2 + n3 + n4) {
                                Err(e) => Err(e),
                                Ok((b, n5)) => Ok(
                                    (
                                        Command::If(g, Box::new(a), Box::new(b)),
                                        1 + n1 + n2 + n3 + n4 + n5,
                                    ),
                                ),
                            },
                        },
                    },
                },
            }
        },
    }
}

pub open spec fn while_command(t: Seq<Token>, p: nat) -> Parsed<Command>
    decreases rem(t, p), 2nat,
{
    match expect(t, p, Token::While, Site::WhileKeyword) {
        Err(e) => Err(e),
        Ok(_) => {
            match boolean(t, p + 1) {
                Err(e) => Err(e),
                Ok((g, n1)) => match expect(t, p + 1 + n1, Token::Do, Site::DoAfterCondition) {
                    Err(e) => Err(e),
                    Ok((_, n2)) => match branch(t, p + 1 + n1 + n2) {
                        Err(e) => Err(e),
                        Ok((body, n3)) => Ok((Command::While(g, Box::new(body)), 1 + n1 + n2 + n3)),
                    },
                },
            }
        },
    }
}

pub open spec fn block(t: Seq<Token>, p: nat) -> Parsed<Command>
    decreases rem(t, p), 2nat,
{
    match expect(t, p, Token::LeftBrace, Site::OpenBrace) {
        Err(e) => Err(e),
        Ok(_) => {
            match sequence(t, p + 1) {
                Err(e) => Err(e),
                Ok((c, n)) => match expect(t, p + 1 + n, Token::RightBrace, Site::CloseBraceAfterBlock) {
                    Err(e) => Err(e),
                    Ok((_, m)) => Ok((c, 1 + n + m)),
                },
            }
        },
    }
}

/// The outcome of an executable parse that started at `from` and stopped at
/// `to`, in the terms of the spec functions.
pub open spec fn outcome<T>(r: Result<T, ParseError>, from: usize, to: usize) -> Parsed<T> {
    match r {
        Ok(v) => Ok((v, (to - from) as nat)),
        Err(e) => Err(e),
    }
}

/// The whole-phrase parse of a token sequence: the phrase has to be followed
/// by `Eof`.
pub open spec fn whole<T>(t: Seq<Token>, r: Parsed<T>, what: Site) -> Result<T, ParseError> {
    match r {
        Err(e) => Err(e),
        Ok((v, n)) => match expect(t, n, Token::Eof, what) {
            Err(e) => Err(e),
            Ok(_) => Ok(v),
        },
    }
}

/// The program that a token sequence spells.
pub open spec fn program(t: Seq<Token>) -> Result<Program, ParseError> {
    match expect(t, 0, Token::Input, Site::InputKeyword) {
        Err(e) => Err(e),
        Ok((_, n1)) => match expect_identifier(t, n1) {
            Err(e) => Err(e),
            Ok((input, n2)) => match expect(t, n1 + n2, Token::Semicolon, Site::SemicolonAfterInput) {
                Err(e) => Err(e),
                Ok((_, n3)) => match expect(t, n1 + n2 + n3, Token::Output, Site::OutputKeyword) {
                    Err(e) => Err(e),
                    Ok((_, n4)) => match expect_identifier(t, n1 + n2 + n3 + n4) {
                        Err(e) => Err(e),
                        Ok((output, n5)) => match expect(
                            t,
                            n1 + n2 + n3 + n4 + n5,
                            Token::Semicolon,
                            Site::SemicolonAfterOutput,
                        ) {
                            Err(e) => Err(e),
                            Ok((_, n6)) => {
                                let p = n1 + n2 + n3 + n4 + n5 + n6;
                                match sequence(t, p) {
                                    Err(e) => Err(e),
                                    Ok((body, n7)) => match expect(t, p + n7, Token::Eof, Site::EndOfProgram) {
                                        Err(e) => Err(e),
                                        Ok(_) => Ok(Program { input, output, body }),
                                    },
                                }
                            },
                        },
                    },
                },
            },
        },
    }
}

pub open spec fn lift<T>(r: Result<T, ParseError>) -> Result<T, SyntaxError> {
    match r {
        Ok(v) => Ok(v),
        Err(e) => Err(SyntaxError::Parse(e)),
    }
}

/// What parsing a source text gives: the lexer's error, or the parser's
/// answer on the tokens that the lexer emits (identifiers are strings with
/// the characters that the lexer read).
pub open spec fn parses_to<T>(
    source: Seq<char>,
    r: Result<T, SyntaxError>,
    parsed: spec_fn(Seq<Token>) -> Result<T, ParseError>,
) -> bool {
    match lex_from(source, 0) {
        Err(e) => r == Err::<T, SyntaxError>(SyntaxError::Lex(e)),
        Ok(shapes) => exists|tokens: Seq<Token>|
            tokens_match(shapes, tokens) && r == lift(#[trigger] parsed(tokens)),
    }
}

fn kind_index(t: &Token) -> (r: u8)
    ensures
        r == kind(*t),
{
    match t {
        Token::Input => 0,
        Token::Output => 1,
        Token::Skip => 2,
        Token::If => 3,
        Token::Then => 4,
        Token::Else => 5,
        Token::While => 6,
        Token::Do => 7,
        Token::True => 8,
        Token::False => 9,
        Token::Identifier(_) => 10,
        Token::Integer(_) => 11,
        Token::Assign => 12,
        Token::Plus => 13,
        Token::Minus => 14,
        Token::Star => 15,
        Token::Less => 16,
        Token::AndAnd => 17,
        Token::Bang => 18,
        Token::LeftParen => 19,
        Token::RightParen => 20,
        Token::LeftBrace => 21,
        Token::RightBrace => 22,
        Token::Semicolon => 23,
        Token::Eof => 24,
    }
}

/// Parses a MiniImp program: `input x; output y;` followed by commands.
pub fn parse_program(source: &str) -> (r: Result<Program, SyntaxError>)
    ensures
        parses_to(source@, r, |t: Seq<Token>| program(t)),
{
    let tokens = match lex(source) {
        Ok(tokens) => tokens,
        Err(e) => return Err(SyntaxError::Lex(e)),
    };
    let ghost t = tokens@;
    let mut parser = Parser::new(tokens);
    let r = parser.parse_program();
    let r = match r {
        Ok(p) => Ok(p),
        Err(e) => Err(SyntaxError::Parse(e)),
    };
    assert((|t: Seq<Token>| program(t))(t) == program(t));
    r
}

/// Parses a whole arithmetic expression.
pub fn parse_aexpr(source: &str) -> (r: Result<AExpr, SyntaxError>)
    ensures
        parses_to(source@, r, |t: Seq<Token>| whole(t, additive(t, 0), Site::EndOfArithmetic)),
{
    let tokens = match lex(source) {
        Ok(tokens) => tokens,
        Err(e) => return Err(SyntaxError::Lex(e)),
    };
    let ghost t = tokens@;
    let mut parser = Parser::new(tokens);
    let r = match parser.parse_additive_expression() {
        Ok(expression) => match parser.expect_simple(Token::Eof, Site::EndOfArithmetic) {
            Ok(()) => Ok(expression),
            Err(e) => Err(SyntaxError::Parse(e)),
        },
        Err(e) => Err(SyntaxError::Parse(e)),
    };
    assert((|t: Seq<Token>| whole(t, additive(t, 0), Site::EndOfArithmetic))(t) == whole(t, additive(t, 0), Site::EndOfArithmetic));
    r
}

/// Parses a whole Boolean expression.
pub fn parse_bexpr(source: &str) -> (r: Result<BExpr, SyntaxError>)
    ensures
        parses_to(source@, r, |t: Seq<Token>| whole(t, boolean(t, 0), Site::EndOfBoolean)),
{
    let tokens = match lex(source) {
        Ok(tokens) => tokens,
        Err(e) => return Err(SyntaxError::Lex(e)),
    };
    let ghost t = tokens@;
    let mut parser = Parser::new(tokens);
    let r = match parser.parse_boolean_expression() {
        Ok(expression) => match parser.expect_simple(Token::Eof, Site::EndOfBoolean) {
            Ok(()) => Ok(expression),
            Err(e) => Err(SyntaxError::Parse(e)),
        },
        Err(e) => Err(SyntaxError::Parse(e)),
    };
    assert((|t: Seq<Token>| whole(t, boolean(t, 0), Site::EndOfBoolean))(t) == whole(t, boolean(t, 0), Site::EndOfBoolean));
    r
}

struct Parser {
    tokens: Vec<Token>,
    position: usize,
}

impl Parser {
    fn new(tokens: Vec<Token>) -> (r: Self)
        ensures
            r.tokens == tokens,
            r.position == 0,
    {
        Parser { tokens, position: 0 }
    }

    fn current(&self) -> (r: Token)
        ensures
            r == cur(self.tokens@, self.position as nat),
    {
        if self.position < self.tokens.len() {
            copy_token(&self.tokens[self.position])
        } else {
            Token::Eof
        }
    }

    fn advance(&mut self) -> (r: Token)
        requires
            old(self).position <= old(self).tokens.len(),
        ensures
            final(self).tokens == old(self).tokens,
            r == cur(old(self).tokens@, old(self).position as nat),
            final(self).position == (if r is Eof {
                old(self).position
            } else {
                (old(self).position + 1) as usize
            }),
            final(self).position <= final(self).tokens.len(),
    {
        let token = self.current();
        if !matches!(token, Token::Eof) {
            self.position = self.position + 1;
        }
        token
    }

    fn check(&self, expected: &Token) -> (r: bool)
        ensures
            r == at(self.tokens@, self.position as nat, *expected),
    {
        let t = self.current();
        kind_index(&t) == kind_index(expected)
    }

    fn consume(&mut self, expected: &Token) -> (r: bool)
        requires
            old(self).position <= old(self).tokens.len(),
        ensures
            final(self).tokens == old(self).tokens,
            r == at(old(self).tokens@, old(self).position as nat, *expected),
            final(self).position == (if r && !(*expected is Eof) {
                (old(self).position + 1) as usize
            } else {
                old(self).position
            }),
            final(self).position <= final(self).tokens.len(),
    {
        if self.check(expected) {
            self.advance();
            true
        } else {
            false
        }
    }

    #[verifier::spinoff_prover]
    #[verifier::rlimit(100)]
    fn parse_program(&mut self) -> (r: Result<Program, ParseError>)
        requires
            old(self).position == 0,
        ensures
            r == program(old(self).tokens@),
    {
        self.expect_simple(Token::Input, Site::InputKeyword)?;
        let input = self.expect_identifier()?;
        self.expect_simple(Token::Semicolon, Site::SemicolonAfterInput)?;
        self.expect_simple(Token::Output, Site::OutputKeyword)?;
        let output = self.expect_identifier()?;
        self.expect_simple(Token::Semicolon, Site::SemicolonAfterOutput)?;
        let body = self.parse_command_sequence()?;
        self.expect_simple(Token::Eof, Site::EndOfProgram)?;
        Ok(Program { input, output, body })
    }

    fn error(&self, expected: Expected, found: Token) -> (r: ParseError)
        ensures
            r == (ParseError { position: self.position, expected, found }),
    {
        ParseError { position: self.position, expected, found }
    }

    fn expect_simple(&mut self, expected: Token, what: Site) -> (r: Result<(), ParseError>)
        requires
            old(self).position <= old(self).tokens.len(),
        ensures
            final(self).tokens == old(self).tokens,
            final(self).position <= final(self).tokens.len(),
            r is Ok ==> old(self).position <= final(self).position,
            outcome(r, old(self).position, final(self).position) == expect(
                old(self).tokens@,
                old(self).position as nat,
                expected,
                what,
            ),
    {
        if self.consume(&expected) {
            Ok(())
        } else {
            let found = self.current();
            Err(self.error(Expected::Symbol(expected, what), found))
        }
    }

    fn expect_identifier(&mut self) -> (r: Result<String, ParseError>)
        requires
            old(self).position <= old(self).tokens.len(),
        ensures
            final(self).tokens == old(self).tokens,
            final(self).position <= final(self).tokens.len(),
            r is Ok ==> old(self).position <= final(self).position,
            outcome(r, old(self).position, final(self).position) == expect_identifier(
                old(self).tokens@,
                old(self).position as nat,
            ),
    {
        match self.advance() {
            Token::Identifier(name) => Ok(name),
            token => Err(self.error(Expected::Identifier, token)),
        }
    }

    fn parse_additive_expression(&mut self) -> (r: Result<AExpr, ParseError>)
        requires
            old(self).position <= old(self).tokens.len(),
        ensures
            final(self).tokens == old(self).tokens,
            final(self).position <= final(self).tokens.len(),
            r is Ok ==> old(self).position <= final(self).position,
            outcome(r, old(self).position, final(self).position) == additive(
                old(self).tokens@,
                old(self).position as nat,
            ),
        decreases rem(old(self).tokens@, old(self).position as nat), 4nat,
    {
        let ghost t = self.tokens@;
        let ghost t0 = self.tokens;
        let ghost start = self.position;
        let mut expression = self.parse_multiplicative_expression()?;
        while self.check(&Token::Plus) || self.check(&Token::Minus)
            invariant
                self.tokens == t0,
                t0 == old(self).tokens,
                start == old(self).position,
                self.tokens@ == t,
                start <= self.position <= self.tokens.len(),
                additive(t, start as nat) == after(
                    (self.position - start) as nat,
                    additive_rest(t, self.position as nat, expression),
                ),
            decreases self.tokens.len() - self.position,
        {
            let plus = self.check(&Token::Plus);
            self.advance();
            let right = self.parse_multiplicative_expression()?;
            expression = if plus {
                AExpr::Add(Box::new(expression), Box::new(right))
            } else {
                AExpr::Sub(Box::new(expression), Box::new(right))
            };
        }
        Ok(expression)
    }

    fn parse_multiplicative_expression(&mut self) -> (r: Result<AExpr, ParseError>)
        requires
            old(self).position <= old(self).tokens.len(),
        ensures
            final(self).tokens == old(self).tokens,
            final(self).position <= final(self).tokens.len(),
            r is Ok ==> old(self).position <= final(self).position,
            outcome(r, old(self).position, final(self).position) == multiplicative(
                old(self).tokens@,
                old(self).position as nat,
            ),
        decreases rem(old(self).tokens@, old(self).position as nat), 3nat,
    {
        let ghost t = self.tokens@;
        let ghost t0 = self.tokens;
        let ghost start = self.position;
        let mut expression = self.parse_unary_arithmetic_expression()?;
        while self.check(&Token::Star)
            invariant
                self.tokens == t0,
                t0 == old(self).tokens,
                start == old(self).position,
                self.tokens@ == t,
                start <= self.position <= self.tokens.len(),
                multiplicative(t, start as nat) == after(
                    (self.position - start) as nat,
                    multiplicative_rest(t, self.position as nat, expression),
                ),
            decreases self.tokens.len() - self.position,
        {
            self.advance();
            let right = self.parse_unary_arithmetic_expression()?;
            expression = AExpr::Mul(Box::new(expression), Box::new(right));
        }
        Ok(expression)
    }

    fn parse_unary_arithmetic_expression(&mut self) -> (r: Result<AExpr, ParseError>)
        requires
            old(self).position <= old(self).tokens.len(),
        ensures
            final(self).tokens == old(self).tokens,
            final(self).position <= final(self).tokens.len(),
            r is Ok ==> old(self).position <= final(self).position,
            outcome(r, old(self).position, final(self).position) == unary(
                old(self).tokens@,
                old(self).position as nat,
            ),
        decreases rem(old(self).tokens@, old(self).position as nat), 2nat,
    {
        if self.consume(&Token::Minus) {
            let operand = self.parse_unary_arithmetic_expression()?;
            return Ok(AExpr::Sub(Box::new(AExpr::Int(0)), Box::new(operand)));
        }
        self.parse_arithmetic_atom()
    }

    fn parse_arithmetic_atom(&mut self) -> (r: Result<AExpr, ParseError>)
        requires
            old(self).position <= old(self).tokens.len(),
        ensures
            final(self).tokens == old(self).tokens,
            final(self).position <= final(self).tokens.len(),
            r is Ok ==> old(self).position <= final(self).position,
            outcome(r, old(self).position, final(self).position) == arithmetic_atom(
                old(self).tokens@,
                old(self).position as nat,
            ),
        decreases rem(old(self).tokens@, old(self).position as nat), 1nat,
    {
        match self.current() {
            Token::Integer(value) => {
                self.advance();
                Ok(AExpr::Int(value))
            },
            Token::Identifier(name) => {
                self.advance();
                Ok(AExpr::Var(name))
            },
            Token::LeftParen => {
                self.advance();
                let expression = self.parse_additive_expression()?;
                self.expect_simple(Token::RightParen, Site::CloseParenAfterArithmetic)?;
                Ok(expression)
            },
            token => Err(self.error(Expected::ArithmeticExpression, token)),
        }
    }

    fn parse_boolean_expression(&mut self) -> (r: Result<BExpr, ParseError>)
        requires
            old(self).position <= old(self).tokens.len(),
        ensures
            final(self).tokens == old(self).tokens,
            final(self).position <= final(self).tokens.len(),
            r is Ok ==> old(self).position <= final(self).position,
            outcome(r, old(self).position, final(self).position) == boolean(
                old(self).tokens@,
                old(self).position as nat,
            ),
        decreases rem(old(self).tokens@, old(self).position as nat), 5nat,
    {
        self.parse_boolean_and()
    }

    fn parse_boolean_and(&mut self) -> (r: Result<BExpr, ParseError>)
        requires
            old(self).position <= old(self).tokens.len(),
        ensures
            final(self).tokens == old(self).tokens,
            final(self).position <= final(self).tokens.len(),
            r is Ok ==> old(self).position <= final(self).position,
            outcome(r, old(self).position, final(self).position) == boolean(
                old(self).tokens@,
                old(self).position as nat,
            ),
        decreases rem(old(self).tokens@, old(self).position as nat), 4nat,
    {
        let ghost t = self.tokens@;
        let ghost t0 = self.tokens;
        let ghost start = self.position;
        let mut expression = self.parse_boolean_not()?;
        while self.check(&Token::AndAnd)
            invariant
                self.tokens == t0,
                t0 == old(self).tokens,
                start == old(self).position,
                self.tokens@ == t,
                start <= self.position <= self.tokens.len(),
                boolean(t, start as nat) == after(
                    (self.position - start) as nat,
                    boolean_rest(t, self.position as nat, expression),
                ),
            decreases self.tokens.len() - self.position,
        {
            self.advance();
            let right = self.parse_boolean_not()?;
            expression = BExpr::And(Box::new(expression), Box::new(right));
        }
        Ok(expression)
    }

    fn parse_boolean_not(&mut self) -> (r: Result<BExpr, ParseError>)
        requires
            old(self).position <= old(self).tokens.len(),
        ensures
            final(self).tokens == old(self).tokens,
            final(self).position <= final(self).tokens.len(),
            r is Ok ==> old(self).position <= final(self).position,
            outcome(r, old(self).position, final(self).position) == negation(
                old(self).tokens@,
                old(self).position as nat,
            ),
        decreases rem(old(self).tokens@, old(self).position as nat), 3nat,
    {
        if self.consume(&Token::Bang) {
            let operand = self.parse_boolean_not()?;
            return Ok(BExpr::Not(Box::new(operand)));
        }
        self.parse_boolean_atom()
    }

    #[verifier::spinoff_prover]
    #[verifier::rlimit(100)]
    fn parse_boolean_atom(&mut self) -> (r: Result<BExpr, ParseError>)
        requires
            old(self).position <= old(self).tokens.len(),
        ensures
            final(self).tokens == old(self).tokens,
            final(self).position <= final(self).tokens.len(),
            r is Ok ==> old(self).position <= final(self).position,
            outcome(r, old(self).position, final(self).position) == boolean_atom(
                old(self).tokens@,
                old(self).position as nat,
            ),
        decreases rem(old(self).tokens@, old(self).position as nat), 2nat,
    {
        if self.consume(&Token::True) {
            return Ok(BExpr::True);
        }
        if self.consume(&Token::False) {
            return Ok(BExpr::False);
        }
        let ghost t = self.tokens@;
        let ghost t0 = self.tokens;
        let ghost p = self.position;
        if self.check(&Token::LeftParen) {
            let saved_position = self.position;
            self.advance();
            let attempt = self.parse_boolean_expression();
            if let Ok(expression) = attempt {
                if self.consume(&Token::RightParen) {
                    return Ok(expression);
                }
            }
            self.position = saved_position;
        }
        let left = self.parse_additive_expression()?;
        self.expect_simple(Token::Less, Site::LessInComparison)?;
        let right = self.parse_additive_expression()?;
        Ok(BExpr::Less(Box::new(left), Box::new(right)))
    }

    #[verifier::spinoff_prover]
    #[verifier::rlimit(100)]
    fn parse_command_sequence(&mut self) -> (r: Result<Command, ParseError>)
        requires
            old(self).position <= old(self).tokens.len(),
        ensures
            final(self).tokens == old(self).tokens,
            final(self).position <= final(self).tokens.len(),
            r is Ok ==> old(self).position <= final(self).position,
            outcome(r, old(self).position, final(self).position) == sequence(
                old(self).tokens@,
                old(self).position as nat,
            ),
        decreases rem(old(self).tokens@, old(self).position as nat), 5nat,
    {
        if self.check(&Token::RightBrace) || self.check(&Token::Eof) {
            return Ok(Command::Skip);
        }
        let ghost t = self.tokens@;
        let ghost t0 = self.tokens;
        let ghost start = self.position;
        let mut done = self.parse_command_atom()?;
        loop
            invariant
                self.tokens == t0,
                t0 == old(self).tokens,
                start == old(self).position,
                self.tokens@ == t,
                start <= self.position <= self.tokens.len(),
                sequence(t, start as nat) == after(
                    (self.position - start) as nat,
                    sequence_rest(t, self.position as nat, done),
                ),
            ensures
                self.tokens == t0,
                t0 == old(self).tokens,
                start == old(self).position,
                self.tokens@ == t,
                start <= self.position <= self.tokens.len(),
                sequence(t, start as nat) == Ok::<(Command, nat), ParseError>(
                    (done, (self.position - start) as nat),
                ),
            decreases self.tokens.len() - self.position,
        {
            let ghost p = self.position;
            if !self.consume(&Token::Semicolon) {
                break;
            }
            while self.check(&Token::Semicolon)
                invariant
                    self.tokens == t0,
                t0 == old(self).tokens,
                start == old(self).position,
                self.tokens@ == t,
                    p < self.position <= self.tokens.len(),
                    p + 1 + semicolons(t, (p + 1) as nat) == self.position + semicolons(
                        t,
                        self.position as nat,
                    ),
                decreases self.tokens.len() - self.position,
            {
                self.advance();
            }
            if self.check(&Token::RightBrace) || self.check(&Token::Eof) {
                break;
            }
            let command = self.parse_command_atom()?;
            done = Command::Sequence(Box::new(done), Box::new(command));
        }
        Ok(done)
    }

    #[verifier::spinoff_prover]
    #[verifier::rlimit(100)]
    fn parse_command_atom(&mut self) -> (r: Result<Command, ParseError>)
        requires
            old(self).position <= old(self).tokens.len(),
        ensures
            final(self).tokens == old(self).tokens,
            final(self).position <= final(self).tokens.len(),
            r is Ok ==> old(self).position <= final(self).position,
            outcome(r, old(self).position, final(self).position) == command(
                old(self).tokens@,
                old(self).position as nat,
            ),
        decreases rem(old(self).tokens@, old(self).position as nat), 3nat,
    {
        match self.current() {
            Token::Skip => {
                self.advance();
                Ok(Command::Skip)
            },
            Token::Identifier(name) => {
                self.advance();
                self.expect_simple(Token::Assign, Site::AssignAfterTarget)?;
                let expression = self.parse_additive_expression()?;
                Ok(Command::Assign(name, expression))
            },
            Token::If => self.parse_if_command(),
            Token::While => self.parse_while_command(),
            Token::LeftBrace => self.parse_block(),
            token => Err(self.error(Expected::Command, token)),
        }
    }

    #[verifier::spinoff_prover]
    #[verifier::rlimit(100)]
    fn parse_if_command(&mut self) -> (r: Result<Command, ParseError>)
        requires
            old(self).position <= old(self).tokens.len(),
        ensures
            final(self).tokens == old(self).tokens,
            final(self).position <= final(self).tokens.len(),
            r is Ok ==> old(self).position <= final(self).position,
            outcome(r, old(self).position, final(self).position) == if_command(
                old(self).tokens@,
                old(self).position as nat,
            ),
        decreases rem(old(self).tokens@, old(self).position as nat), 2nat,
    {
        self.expect_simple(Token::If, Site::IfKeyword)?;
        let condition = self.parse_boolean_expression()?;
        self.expect_simple(Token::Then, Site::ThenAfterCondition)?;
        let then_branch = self.parse_command_or_block()?;
        self.expect_simple(Token::Else, Site::ElseAfterThenBranch)?;
        let else_branch = self.parse_command_or_block()?;
        Ok(Command::If(condition, Box::new(then_branch), Box::new(else_branch)))
    }

    #[verifier::spinoff_prover]
    #[verifier::rlimit(100)]
    fn parse_while_command(&mut self) -> (r: Result<Command, ParseError>)
        requires
            old(self).position <= old(self).tokens.len(),
        ensures
            final(self).tokens == old(self).tokens,
            final(self).position <= final(self).tokens.len(),
            r is Ok ==> old(self).position <= final(self).position,
            outcome(r, old(self).position, final(self).position) == while_command(
                old(self).tokens@,
                old(self).position as nat,
            ),
        decreases rem(old(self).tokens@, old(self).position as nat), 2nat,
    {
        self.expect_simple(Token::While, Site::WhileKeyword)?;
        let condition = self.parse_boolean_expression()?;
        self.expect_simple(Token::Do, Site::DoAfterCondition)?;
        let body = self.parse_command_or_block()?;
        Ok(Command::While(condition, Box::new(body)))
    }

    fn parse_command_or_block(&mut self) -> (r: Result<Command, ParseError>)
        requires
            old(self).position <= old(self).tokens.len(),
        ensures
            final(self).tokens == old(self).tokens,
            final(self).position <= final(self).tokens.len(),
            r is Ok ==> old(self).position <= final(self).position,
            outcome(r, old(self).position, final(self).position) == branch(
                old(self).tokens@,
                old(self).position as nat,
            ),
        decreases rem(old(self).tokens@, old(self).position as nat), 4nat,
    {
        if self.check(&Token::LeftBrace) {
            self.parse_block()
        } else {
            self.parse_command_atom()
        }
    }

    #[verifier::spinoff_prover]
    #[verifier::rlimit(100)]
    fn parse_block(&mut self) -> (r: Result<Command, ParseError>)
        requires
            old(self).position <= old(self).tokens.len(),
        ensures
            final(self).tokens == old(self).tokens,
            final(self).position <= final(self).tokens.len(),
            r is Ok ==> old(self).position <= final(self).position,
            outcome(r, old(self).position, final(self).position) == block(
                old(self).tokens@,
                old(self).position as nat,
            ),
        decreases rem(old(self).tokens@, old(self).position as nat), 2nat,
    {
        self.expect_simple(Token::LeftBrace, Site::OpenBrace)?;
        let command = self.parse_command_sequence()?;
        self.expect_simple(Token::RightBrace, Site::CloseBraceAfterBlock)?;
        Ok(command)
    }
}

} // verus!
