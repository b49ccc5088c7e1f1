use vstd::prelude::*;
use crate::text::{
    chars_of, decimal, decimal_value, is_digit, is_whitespace, is_word_start, lemma_scan_end, scan,
    scan_end, str_eq, string_of_range, whitespace, Class, LexError,
};

verus! {

/// The tokens of MiniImp.
#[derive(Debug, Clone, PartialEq, Eq)]
pub enum Token {
    Input,
    Output,
    Skip,
    If,
    Then,
    Else,
    While,
    Do,
    True,
    False,
    Identifier(String),
    Integer(i32),
    Assign,
    Plus,
    Minus,
    Star,
    Less,
    AndAnd,
    Bang,
    LeftParen,
    RightParen,
    LeftBrace,
    RightBrace,
    Semicolon,
    Eof,
}

/// A copy of a token, equal to it.
pub fn copy_token(t: &Token) -> (r: Token)
    ensures
        r == *t,
{
    match t {
        Token::Input => Token::Input,
        Token::Output => Token::Output,
        Token::Skip => Token::Skip,
        Token::If => Token::If,
        Token::Then => Token::Then,
        Token::Else => Token::Else,
        Token::While => Token::While,
        Token::Do => Token::Do,
        Token::True => Token::True,
        Token::False => Token::False,
        Token::Identifier(x) => Token::Identifier(x.clone()),
        Token::Integer(n) => Token::Integer(*n),
        Token::Assign => Token::Assign,
        Token::Plus => Token::Plus,
        Token::Minus => Token::Minus,
        Token::Star => Token::Star,
        Token::Less => Token::Less,
        Token::AndAnd => Token::AndAnd,
        Token::Bang => Token::Bang,
        Token::LeftParen => Token::LeftParen,
        Token::RightParen => Token::RightParen,
        Token::LeftBrace => Token::LeftBrace,
        Token::RightBrace => Token::RightBrace,
        Token::Semicolon => Token::Semicolon,
        Token::Eof => Token::Eof,
    }
}

/// What the lexer emits, up to the identity of identifier strings: either
/// exactly this token, or an identifier with these characters.
pub enum Shape {
    Exact(Token),
    Ident(Seq<char>),
}

pub open spec fn shape_of(t: Token, s: Shape) -> bool {
    match s {
        Shape::Exact(e) => t == e,
        Shape::Ident(w) => t matches Token::Identifier(x) && x@ == w,
    }
}

pub open spec fn tokens_match(shapes: Seq<Shape>, tokens: Seq<Token>) -> bool {
    &&& shapes.len() == tokens.len()
    &&& forall|i: int| 0 <= i < tokens.len() ==> shape_of(#[trigger] tokens[i], shapes[i])
}

/// The reserved words of MiniImp, and the token each one stands for.
pub open spec fn keyword(w: Seq<char>) -> Option<Token> {
    if w == "input"@ {
        Some(Token::Input)
    } else if w == "output"@ {
        Some(Token::Output)
    } else if w == "skip"@ {
        Some(Token::Skip)
    } else if w == "if"@ {
        Some(Token::If)
    } else if w == "then"@ {
        Some(Token::Then)
    } else if w == "else"@ {
        Some(Token::Else)
    } else if w == "while"@ {
        Some(Token::While)
    } else if w == "do"@ {
        Some(Token::Do)
    } else if w == "true"@ {
        Some(Token::True)
    } else if w == "false"@ {
        Some(Token::False)
    } else if w == "and"@ {
        Some(Token::AndAnd)
    } else if w == "not"@ {
        Some(Token::Bang)
    } else {
        None
    }
}

pub open spec fn word_shape(w: Seq<char>) -> Shape {
    match keyword(w) {
        Some(t) => Shape::Exact(t),
        None => Shape::Ident(w),
    }
}

/// What the lexer does at one position of the source.
pub enum Step {
    /// Nothing is emitted; lexing goes on at this position.
    Skip(int),
    /// A token is emitted; lexing goes on at this position.
    Emit(Shape, int),
    Fail(LexError),
}

/// One step of the lexer at `pos`, which lies inside the source.
pub open spec fn lex_step(chars: Seq<char>, pos: int) -> Step {
    let c = chars[pos];
    if is_whitespace(c) {
        Step::Skip(pos + 1)
    } else if c == '/' && pos + 1 < chars.len() && chars[pos + 1] == '/' {
        Step::Skip(scan_end(chars, pos + 2, Class::NotNewline))
    } else if is_digit(c) {
        let end = scan_end(chars, pos, Class::Digit);
        let v = decimal_value(chars.subrange(pos, end));
        if v <= i32::MAX {
            Step::Emit(Shape::Exact(Token::Integer(v as i32)), end)
        } else {
            Step::Fail(LexError::IntegerOutOfRange { position: pos as usize })
        }
    } else if is_word_start(c) {
        let end = scan_end(chars, pos, Class::WordChar);
        Step::Emit(word_shape(chars.subrange(pos, end)), end)
    } else if c == ':' {
        if pos + 1 < chars.len() && chars[pos + 1] == '=' {
            Step::Emit(Shape::Exact(Token::Assign), pos + 2)
        } else {
            Step::Fail(LexError::ExpectedCharacter { position: pos as usize, expected: '=' })
        }
    } else if c == '&' {
        if pos + 1 < chars.len() && chars[pos + 1] == '&' {
            Step::Emit(Shape::Exact(Token::AndAnd), pos + 2)
        } else {
            Step::Fail(LexError::ExpectedCharacter { position: pos as usize, expected: '&' })
        }
    } else {
        match single_char_token(c) {
            Some(t) => Step::Emit(Shape::Exact(t), pos + 1),
            None => Step::Fail(
                LexError::UnexpectedCharacter { position: pos as usize, character: c },
            ),
        }
    }
}

/// The punctuation that is one character long.
pub open spec fn single_char_token(c: char) -> Option<Token> {
    if c == '+' {
        Some(Token::Plus)
    } else if c == '-' {
        Some(Token::Minus)
    } else if c == '*' {
        Some(Token::Star)
    } else if c == '<' {
        Some(Token::Less)
    } else if c == '!' {
        Some(Token::Bang)
    } else if c == '(' {
        Some(Token::LeftParen)
    } else if c == ')' {
        Some(Token::RightParen)
    } else if c == '{' {
        Some(Token::LeftBrace)
    } else if c == '}' {
        Some(Token::RightBrace)
    } else if c == ';' {
        Some(Token::Semicolon)
    } else {
        None
    }
}

pub proof fn lemma_step_advances(chars: Seq<char>, pos: int)
    requires
        0 <= pos < chars.len(),
    ensures
        match lex_step(chars, pos) {
            Step::Skip(n) => pos < n <= chars.len(),
            Step::Emit(_, n) => pos < n <= chars.len(),
            Step::Fail(_) => true,
        },
{
    lemma_scan_end(chars, pos, Class::Digit);
    lemma_scan_end(chars, pos, Class::WordChar);
    if pos + 2 <= chars.len() {
        lemma_scan_end(chars, pos + 2, Class::NotNewline);
    }
}

/// Lexing from `pos` to the end of the source: the shapes of the tokens, or
/// the first error.
pub open spec fn lex_from(chars: Seq<char>, pos: int) -> Result<Seq<Shape>, LexError>
    decreases chars.len() - pos,
{
    if pos < 0 || pos >= chars.len() {
        Ok(seq![Shape::Exact(Token::Eof)])
    } else {
        proof {
            lemma_step_advances(chars, pos);
        }
        match lex_step(chars, pos) {
            Step::Skip(n) => lex_from(chars, n),
            Step::Emit(s, n) => match lex_from(chars, n) {
                Ok(rest) => Ok(seq![s] + rest),
                Err(e) => Err(e),
            },
            Step::Fail(e) => Err(e),
        }
    }
}

pub open spec fn prepend(done: Seq<Shape>, r: Result<Seq<Shape>, LexError>) -> Result<
    Seq<Shape>,
    LexError,
> {
    match r {
        Ok(rest) => Ok(done + rest),
        Err(e) => Err(e),
    }
}

fn keyword_token(w: &str) -> (r: Option<Token>)
    ensures
        r == keyword(w@),
{
    if str_eq(w, "input") {
        Some(Token::Input)
    } else if str_eq(w, "output") {
        Some(Token::Output)
    } else if str_eq(w, "skip") {
        Some(Token::Skip)
    } else if str_eq(w, "if") {
        Some(Token::If)
    } else if str_eq(w, "then") {
        Some(Token::Then)
    } else if str_eq(w, "else") {
        Some(Token::Else)
    } else if str_eq(w, "while") {
        Some(Token::While)
    } else if str_eq(w, "do") {
        Some(Token::Do)
    } else if str_eq(w, "true") {
        Some(Token::True)
    } else if str_eq(w, "false") {
        Some(Token::False)
    } else if str_eq(w, "and") {
        Some(Token::AndAnd)
    } else if str_eq(w, "not") {
        Some(Token::Bang)
    } else {
        None
    }
}

fn single_char(c: char) -> (r: Option<Token>)
    ensures
        r == single_char_token(c),
{
    if c == '+' {
        Some(Token::Plus)
    } else if c == '-' {
        Some(Token::Minus)
    } else if c == '*' {
        Some(Token::Star)
    } else if c == '<' {
        Some(Token::Less)
    } else if c == '!' {
        Some(Token::Bang)
    } else if c == '(' {
        Some(Token::LeftParen)
    } else if c == ')' {
        Some(Token::RightParen)
    } else if c == '{' {
        Some(Token::LeftBrace)
    } else if c == '}' {
        Some(Token::RightBrace)
    } else if c == ';' {
        Some(Token::Semicolon)
    } else {
        None
    }
}

/// Splits MiniImp source text into tokens, ending with `Eof`.
pub fn lex(source: &str) -> (r: Result<Vec<Token>, LexError>)
    ensures
        match r {
            Ok(tokens) => lex_from(source@, 0) matches Ok(shapes) && tokens_match(shapes, tokens@),
            Err(e) => lex_from(source@, 0) == Err::<Seq<Shape>, LexError>(e),
        },
{
    let characters = chars_of(source);
    let ghost chars = characters@;
    let mut tokens: Vec<Token> = Vec::new();
    let mut position: usize = 0;
    let ghost mut done: Seq<Shape> = seq![];
    assert(prepend(done, lex_from(chars, 0)) =~~= lex_from(chars, 0)) by {
        match lex_from(chars, 0) {
            Ok(rest) => {
                assert(done + rest =~= rest);
            },
            Err(_) => {},
        }
    }
    while position < characters.len()
        invariant
            chars == characters@,
            chars == source@,
            position <= characters.len(),
            tokens_match(done, tokens@),
            lex_from(chars, 0) == prepend(done, lex_from(chars, position as int)),
        decreases characters.len() - position,
    {
        let character = characters[position];
        proof {
            lemma_step_advances(chars, position as int);
            lemma_scan_end(chars, position as int, Class::Digit);
            lemma_scan_end(chars, position as int, Class::WordChar);
        }
        let ghost step = lex_step(chars, position as int);
        if whitespace(character) {
            position = position + 1;
            continue;
        }
        if character == '/' && position + 1 < characters.len() && characters[position + 1] == '/' {
            position = scan(&characters, position + 2, Class::NotNewline);
            continue;
        }
        if '0' <= character && character <= '9' {
            let start = position;
            position = scan(&characters, position, Class::Digit);
            match decimal(&characters, start, position) {
                Some(value) => {
                    let ghost s = Shape::Exact(Token::Integer(value));
                    proof {
                        assert(step == Step::Emit(s, position as int));
                        assert(prepend(done.push(s), lex_from(chars, position as int))
                            =~~= prepend(done, lex_from(chars, start as int))) by {
                            match lex_from(chars, position as int) {
                                Ok(rest) => {
                                    assert(done.push(s) + rest =~= done + (seq![s] + rest));
                                },
                                Err(_) => {},
                            }
                        }
                        done = done.push(s);
                    }
                    tokens.push(Token::Integer(value));
                    continue;
                },
                None => {
                    return Err(LexError::IntegerOutOfRange { position: start });
                },
            }
        }
        if ('a' <= character && character <= 'z') || ('A' <= character && character <= 'Z')
            || character == '_' {
            let start = position;
            position = scan(&characters, position, Class::WordChar);
            let word = string_of_range(&characters, start, position);
            let token = match keyword_token(word.as_str()) {
                Some(t) => t,
                None => Token::Identifier(word),
            };
            let ghost s = word_shape(chars.subrange(start as int, position as int));
            proof {
                assert(step == Step::Emit(s, position as int));
                assert(shape_of(token, s));
                assert(prepend(done.push(s), lex_from(chars, position as int)) =~~= prepend(
                    done,
                    lex_from(chars, start as int),
                )) by {
                    match lex_from(chars, position as int) {
                        Ok(rest) => {
                            assert(done.push(s) + rest =~= done + (seq![s] + rest));
                        },
                        Err(_) => {},
                    }
                }
                done = done.push(s);
            }
            tokens.push(token);
            continue;
        }
        let (token, width) = if character == ':' {
            if position + 1 < characters.len() && characters[position + 1] == '=' {
                (Token::Assign, 2)
            } else {
                return Err(LexError::ExpectedCharacter { position, expected: '=' });
            }
        } else if character == '&' {
            if position + 1 < characters.len() && characters[position + 1] == '&' {
                (Token::AndAnd, 2)
            } else {
                return Err(LexError::ExpectedCharacter { position, expected: '&' });
            }
        } else {
            match single_char(character) {
                Some(t) => (t, 1),
                None => {
                    return Err(LexError::UnexpectedCharacter { position, character });
                },
            }
        };
        let ghost s = Shape::Exact(token);
        let ghost start = position;
        position = position + width;
        proof {
            assert(step == Step::Emit(s, position as int));
            assert(prepend(done.push(s), lex_from(chars, position as int)) =~~= prepend(
                done,
                lex_from(chars, start as int),
            )) by {
                match lex_from(chars, position as int) {
                    Ok(rest) => {
                        assert(done.push(s) + rest =~= done + (seq![s] + rest));
                    },
                    Err(_) => {},
                }
            }
            done = done.push(s);
        }
        tokens.push(token);
    }
    let ghost eof = Shape::Exact(Token::Eof);
    proof {
        assert(done + seq![eof] =~= done.push(eof));
    }
    tokens.push(Token::Eof);
    Ok(tokens)
}


/// Lexing from `pos` on succeeds with shapes that end in `Eof` and hold it
/// nowhere else.
proof fn lemma_lex_from_eof(chars: Seq<char>, pos: int)
    requires
        lex_from(chars, pos) is Ok,
    ensures
        lex_from(chars, pos)->Ok_0.len() >= 1,
        lex_from(chars, pos)->Ok_0.last() == Shape::Exact(Token::Eof),
        forall|i: int|
            0 <= i < lex_from(chars, pos)->Ok_0.len() - 1 ==> !(#[trigger] lex_from(chars, pos)->Ok_0[i]
                == Shape::Exact(Token::Eof)),
    decreases chars.len() - pos,
{
    if 0 <= pos < chars.len() {
        lemma_step_advances(chars, pos);
        match lex_step(chars, pos) {
            Step::Skip(n) => lemma_lex_from_eof(chars, n),
            Step::Emit(s, n) => {
                lemma_lex_from_eof(chars, n);
                let rest = lex_from(chars, n)->Ok_0;
                let all = seq![s] + rest;
                assert(lex_from(chars, pos)->Ok_0 == all);
                assert(s != Shape::Exact(Token::Eof));
                assert forall|i: int| 0 <= i < all.len() - 1 implies !(#[trigger] all[i] == Shape::Exact(
                    Token::Eof,
                )) by {
                    if i > 0 {
                        assert(all[i] == rest[i - 1]);
                    }
                }
            },
            Step::Fail(_) => {},
        }
    }
}

/// The source from `pos` on holds only whitespace and `//` comments: each
/// step of the lexer skips.
pub open spec fn blank_from(chars: Seq<char>, pos: int) -> bool
    decreases chars.len() - pos,
{
    if pos < 0 || pos >= chars.len() {
        true
    } else {
        proof {
            lemma_step_advances(chars, pos);
        }
        match lex_step(chars, pos) {
            Step::Skip(n) => blank_from(chars, n),
            _ => false,
        }
    }
}

proof fn lemma_blank_lexes_to_eof(chars: Seq<char>, pos: int)
    requires
        blank_from(chars, pos),
    ensures
        lex_from(chars, pos) == Ok::<Seq<Shape>, LexError>(seq![Shape::Exact(Token::Eof)]),
    decreases chars.len() - pos,
{
    if 0 <= pos < chars.len() {
        lemma_step_advances(chars, pos);
        if let Step::Skip(n) = lex_step(chars, pos) {
            lemma_blank_lexes_to_eof(chars, n);
        }
    }
}

proof fn lemma_whitespace_is_blank(chars: Seq<char>, pos: int)
    requires
        forall|i: int| 0 <= i < chars.len() ==> is_whitespace(#[trigger] chars[i]),
    ensures
        blank_from(chars, pos),
    decreases chars.len() - pos,
{
    if 0 <= pos < chars.len() {
        lemma_whitespace_is_blank(chars, pos + 1);
    }
}

/// A successful lexing ends with `Eof`, and only there; a source of only
/// whitespace and `//` comments (in particular, of only whitespace) lexes to
/// `Eof` alone.
pub proof fn lemma_lexing_ends_with_eof(source: Seq<char>, tokens: Seq<Token>)
    ensures
        lex_from(source, 0) matches Ok(shapes) && tokens_match(shapes, tokens) ==> {
            &&& tokens.len() >= 1
            &&& tokens.last() == Token::Eof
            &&& forall|i: int| 0 <= i < tokens.len() - 1 ==> !(#[trigger] tokens[i] is Eof)
        },
        blank_from(source, 0) ==> lex_from(source, 0) == Ok::<Seq<Shape>, LexError>(
            seq![Shape::Exact(Token::Eof)],
        ),
        (forall|i: int| 0 <= i < source.len() ==> is_whitespace(#[trigger] source[i])) ==> lex_from(source, 0)
            == Ok::<Seq<Shape>, LexError>(seq![Shape::Exact(Token::Eof)]),
{
    if lex_from(source, 0) is Ok {
        lemma_lex_from_eof(source, 0);
        let shapes = lex_from(source, 0)->Ok_0;
        if tokens_match(shapes, tokens) {
            assert(shape_of(tokens[tokens.len() - 1], shapes[shapes.len() - 1]));
            assert forall|i: int| 0 <= i < tokens.len() - 1 implies !(#[trigger] tokens[i] is Eof) by {
                assert(shape_of(tokens[i], shapes[i]));
                assert(!(shapes[i] == Shape::Exact(Token::Eof)));
            }
        }
    }
    if blank_from(source, 0) {
        lemma_blank_lexes_to_eof(source, 0);
    }
    if forall|i: int| 0 <= i < source.len() ==> is_whitespace(#[trigger] source[i]) {
        lemma_whitespace_is_blank(source, 0);
        lemma_blank_lexes_to_eof(source, 0);
    }
}

} // verus!
