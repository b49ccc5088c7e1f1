use vstd::prelude::*;
use crate::miniimp::ast::{same_aexpr, AExpr};
use crate::miniimp::lexer::{
    keyword, lemma_step_advances, lex_from, lex_step, prepend, shape_of, tokens_match, Shape, Step, Token,
};
use crate::miniimp::parser::{
    additive, additive_rest, arithmetic_atom, cur, expect, lift, multiplicative, multiplicative_rest,
    parses_to, unary, whole, Site, SyntaxError,
};
use crate::miniimp::pretty::{aexpr_text, int_text};
use crate::text::{
    decimal_digits, decimal_value, digit_char, digit_value, is_digit, is_word_char, is_word_start,
    lemma_scan_end, scan_end, Class,
};

verus! {

/// A name that reads back as an identifier: a letter or `_`, then letters,
/// digits and `_`, and no reserved word.
pub open spec fn identifier_name(x: Seq<char>) -> bool {
    &&& x.len() > 0
    &&& is_word_start(x[0])
    &&& forall|i: int| 0 <= i < x.len() ==> is_word_char(#[trigger] x[i])
    &&& keyword(x) is None
}

/// An expression whose printed text reads back: its names are identifiers
/// and its integers are not negative.
pub open spec fn readable(e: AExpr) -> bool
    decreases e,
{
    match e {
        AExpr::Var(x) => identifier_name(x@),
        AExpr::Int(n) => n >= 0,
        AExpr::Add(a, b) => readable(*a) && readable(*b),
        AExpr::Sub(a, b) => readable(*a) && readable(*b),
        AExpr::Mul(a, b) => readable(*a) && readable(*b),
    }
}

/// The tokens that the printed text of an expression lexes to.
pub open spec fn expression_shapes(e: AExpr) -> Seq<Shape>
    decreases e,
{
    match e {
        AExpr::Var(x) => seq![Shape::Ident(x@)],
        AExpr::Int(n) => seq![Shape::Exact(Token::Integer(n))],
        AExpr::Add(a, b) => seq![Shape::Exact(Token::LeftParen)] + expression_shapes(*a) + seq![
            Shape::Exact(Token::Plus),
        ] + expression_shapes(*b) + seq![Shape::Exact(Token::RightParen)],
        AExpr::Sub(a, b) => seq![Shape::Exact(Token::LeftParen)] + expression_shapes(*a) + seq![
            Shape::Exact(Token::Minus),
        ] + expression_shapes(*b) + seq![Shape::Exact(Token::RightParen)],
        AExpr::Mul(a, b) => seq![Shape::Exact(Token::LeftParen)] + expression_shapes(*a) + seq![
            Shape::Exact(Token::Star),
        ] + expression_shapes(*b) + seq![Shape::Exact(Token::RightParen)],
    }
}

proof fn lemma_digit_char(d: nat)
    requires
        d < 10,
    ensures
        digit_value(digit_char(d)) == d,
        is_digit(digit_char(d)),
{
    if d == 0 {
        assert(('0' as int) - ('0' as int) == 0);
    } else if d == 1 {
        assert(('1' as int) - ('0' as int) == 1);
    } else if d == 2 {
        assert(('2' as int) - ('0' as int) == 2);
    } else if d == 3 {
        assert(('3' as int) - ('0' as int) == 3);
    } else if d == 4 {
        assert(('4' as int) - ('0' as int) == 4);
    } else if d == 5 {
        assert(('5' as int) - ('0' as int) == 5);
    } else if d == 6 {
        assert(('6' as int) - ('0' as int) == 6);
    } else if d == 7 {
        assert(('7' as int) - ('0' as int) == 7);
    } else if d == 8 {
        assert(('8' as int) - ('0' as int) == 8);
    } else {
        assert(('9' as int) - ('0' as int) == 9);
    }
}

pub proof fn lemma_digits(n: nat)
    ensures
        decimal_digits(n).len() >= 1,
        decimal_value(decimal_digits(n)) == n,
        forall|j: int| 0 <= j < decimal_digits(n).len() ==> is_digit(#[trigger] decimal_digits(n)[j]),
    decreases n,
{
    if n < 10 {
        lemma_digit_char(n);
        assert(decimal_digits(n).drop_last() =~= Seq::<char>::empty());
        assert(decimal_value(Seq::<char>::empty()) == 0);
        assert(decimal_value(decimal_digits(n)) == 10 * decimal_value(decimal_digits(n).drop_last()) + digit_value(
            decimal_digits(n).last(),
        ));
    } else {
        lemma_digit_char(n % 10);
        lemma_digits(n / 10);
        let d = decimal_digits(n / 10);
        assert(decimal_digits(n) == d.push(digit_char(n % 10)));
        assert(decimal_digits(n).drop_last() =~= d);
        assert(decimal_value(decimal_digits(n)) == 10 * decimal_value(d) + digit_value(digit_char(n % 10)));
        assert(10 * (n / 10) + n % 10 == n);
        assert forall|j: int| 0 <= j < decimal_digits(n).len() implies is_digit(#[trigger] decimal_digits(n)[j]) by {
            if j < d.len() {
                assert(decimal_digits(n)[j] == d[j]);
            }
        }
    }
}

proof fn lemma_lex_emit(chars: Seq<char>, p: int, s: Shape, n: int)
    requires
        0 <= p < chars.len(),
        lex_step(chars, p) == Step::Emit(s, n),
    ensures
        lex_from(chars, p) == prepend(seq![s], lex_from(chars, n)),
{
    lemma_step_advances(chars, p);
}

proof fn lemma_lex_skip(chars: Seq<char>, p: int, n: int)
    requires
        0 <= p < chars.len(),
        lex_step(chars, p) == Step::Skip(n),
    ensures
        lex_from(chars, p) == lex_from(chars, n),
{
    lemma_step_advances(chars, p);
}

proof fn lemma_prepend_prepend(s1: Seq<Shape>, s2: Seq<Shape>, r: Result<Seq<Shape>, crate::text::LexError>)
    ensures
        prepend(s1, prepend(s2, r)) == prepend(s1 + s2, r),
{
    if let Ok(x) = r {
        assert(s1 + (s2 + x) =~= (s1 + s2) + x);
    }
}

/// The printed text of a readable expression, standing in `chars` at `pos`
/// and followed by the end, a space or `)`, lexes to its shapes.
#[verifier::spinoff_prover]
#[verifier::rlimit(100)]
proof fn lemma_lex_text(chars: Seq<char>, pos: int, e: AExpr)
    requires
        readable(e),
        0 <= pos,
        pos + aexpr_text(e).len() <= chars.len(),
        chars.subrange(pos, pos + aexpr_text(e).len()) == aexpr_text(e),
        pos + aexpr_text(e).len() == chars.len() || chars[pos + aexpr_text(e).len()] == ' '
            || chars[pos + aexpr_text(e).len()] == ')',
    ensures
        lex_from(chars, pos) == prepend(expression_shapes(e), lex_from(chars, pos + aexpr_text(e).len())),
    decreases e,
{
    reveal_strlit(" + ");
    reveal_strlit(" - ");
    reveal_strlit(" * ");
    let text = aexpr_text(e);
    let q = pos + text.len();
    assert forall|i: int| 0 <= i < text.len() implies chars[pos + i] == #[trigger] text[i] by {
        assert(chars.subrange(pos, q)[i] == chars[pos + i]);
    }
    match e {
        AExpr::Var(x) => {
            assert(text == x@);
            lemma_scan_end(chars, pos, Class::WordChar);
            let end = scan_end(chars, pos, Class::WordChar);
            assert forall|j: int| pos <= j < q implies is_word_char(#[trigger] chars[j]) by {
                assert(chars[pos + (j - pos)] == text[j - pos]);
            }
            lemma_scan_until(chars, pos, q, Class::WordChar);
            assert(chars.subrange(pos, end) =~= x@);
            lemma_lex_emit(chars, pos, Shape::Ident(x@), q);
        },
        AExpr::Int(n) => {
            lemma_digits(n as nat);
            assert(text == decimal_digits(n as nat));
            assert forall|j: int| pos <= j < q implies is_digit(#[trigger] chars[j]) by {
                assert(chars[pos + (j - pos)] == text[j - pos]);
            }
            lemma_scan_until(chars, pos, q, Class::Digit);
            assert(chars.subrange(pos, q) =~= decimal_digits(n as nat));
            assert(is_digit(chars[pos]));
            lemma_lex_emit(chars, pos, Shape::Exact(Token::Integer(n)), q);
        },
        AExpr::Add(a, b) => {
            let la = aexpr_text(*a).len() as int;
            let lb = aexpr_text(*b).len() as int;
            lemma_lex_parts(chars, pos, *a, *b, " + "@);
            lemma_lex_text(chars, pos + 1, *a);
            lemma_lex_text(chars, pos + 4 + la, *b);
            lemma_lex_compose(
                chars,
                pos,
                aexpr_text(*a).len() as int,
                aexpr_text(*b).len() as int,
                '+',
                Token::Plus,
                expression_shapes(*a),
                expression_shapes(*b),
            );
        },
        AExpr::Sub(a, b) => {
            let la = aexpr_text(*a).len() as int;
            let lb = aexpr_text(*b).len() as int;
            lemma_lex_parts(chars, pos, *a, *b, " - "@);
            lemma_lex_text(chars, pos + 1, *a);
            lemma_lex_text(chars, pos + 4 + la, *b);
            lemma_lex_compose(
                chars,
                pos,
                aexpr_text(*a).len() as int,
                aexpr_text(*b).len() as int,
                '-',
                Token::Minus,
                expression_shapes(*a),
                expression_shapes(*b),
            );
        },
        AExpr::Mul(a, b) => {
            let la = aexpr_text(*a).len() as int;
            let lb = aexpr_text(*b).len() as int;
            lemma_lex_parts(chars, pos, *a, *b, " * "@);
            lemma_lex_text(chars, pos + 1, *a);
            lemma_lex_text(chars, pos + 4 + la, *b);
            lemma_lex_compose(
                chars,
                pos,
                aexpr_text(*a).len() as int,
                aexpr_text(*b).len() as int,
                '*',
                Token::Star,
                expression_shapes(*a),
                expression_shapes(*b),
            );
        },
    }
}

/// A scan from `pos` over a run of the class that ends at `q`, before the
/// end or a character out of the class, stops at `q`.
proof fn lemma_scan_until(chars: Seq<char>, pos: int, q: int, k: Class)
    requires
        0 <= pos <= q <= chars.len(),
        forall|j: int| pos <= j < q ==> crate::text::in_class(k, #[trigger] chars[j]),
        q == chars.len() || !crate::text::in_class(k, chars[q]),
    ensures
        scan_end(chars, pos, k) == q,
    decreases q - pos,
{
    if pos < q {
        lemma_scan_until(chars, pos + 1, q, k);
    }
}

/// Where the parts of `(a op b)` stand in `chars`.
proof fn lemma_lex_parts(chars: Seq<char>, pos: int, a: AExpr, b: AExpr, op: Seq<char>)
    requires
        op == " + "@ || op == " - "@ || op == " * "@,
        0 <= pos,
        pos + ("("@ + aexpr_text(a) + op + aexpr_text(b) + ")"@).len() <= chars.len(),
        chars.subrange(pos, pos + ("("@ + aexpr_text(a) + op + aexpr_text(b) + ")"@).len()) == "("@ + aexpr_text(a)
            + op + aexpr_text(b) + ")"@,
    ensures
        ({
            let la = aexpr_text(a).len() as int;
            let lb = aexpr_text(b).len() as int;
            &&& ("("@ + aexpr_text(a) + op + aexpr_text(b) + ")"@).len() == 5 + la + lb
            &&& chars[pos] == '('
            &&& chars[pos + 1 + la] == ' '
            &&& chars[pos + 2 + la] == op[1]
            &&& chars[pos + 3 + la] == ' '
            &&& chars[pos + 4 + la + lb] == ')'
            &&& chars.subrange(pos + 1, pos + 1 + la) == aexpr_text(a)
            &&& chars.subrange(pos + 4 + la, pos + 4 + la + lb) == aexpr_text(b)
        }),
{
    reveal_strlit("(");
    reveal_strlit(")");
    reveal_strlit(" + ");
    reveal_strlit(" - ");
    reveal_strlit(" * ");
    let ta = aexpr_text(a);
    let tb = aexpr_text(b);
    let text = "("@ + ta + op + tb + ")"@;
    let la = ta.len() as int;
    let lb = tb.len() as int;
    let q = pos + text.len();
    assert forall|i: int| 0 <= i < text.len() implies chars[pos + i] == #[trigger] text[i] by {
        assert(chars.subrange(pos, q)[i] == chars[pos + i]);
    }
    assert(text[0] == '(');
    assert(text[1 + la] == op[0]);
    assert(text[2 + la] == op[1]);
    assert(text[3 + la] == op[2]);
    assert(text[4 + la + lb] == ')');
    assert forall|i: int| 0 <= i < la implies chars.subrange(pos + 1, pos + 1 + la)[i] == ta[i] by {
        assert(text[1 + i] == ta[i]);
    }
    assert(chars.subrange(pos + 1, pos + 1 + la) =~= ta);
    assert forall|i: int| 0 <= i < lb implies chars.subrange(pos + 4 + la, pos + 4 + la + lb)[i] == tb[i] by {
        assert(text[4 + la + i] == tb[i]);
    }
    assert(chars.subrange(pos + 4 + la, pos + 4 + la + lb) =~= tb);
}

/// The lexing of `(a op b)` from the lexing of `a` and of `b`.
proof fn lemma_lex_compose(
    chars: Seq<char>,
    pos: int,
    la: int,
    lb: int,
    c: char,
    t: Token,
    sa: Seq<Shape>,
    sb: Seq<Shape>,
)
    requires
        (c == '+' && t == Token::Plus) || (c == '-' && t == Token::Minus) || (c == '*' && t == Token::Star),
        0 <= pos,
        0 <= la,
        0 <= lb,
        pos + 5 + la + lb <= chars.len(),
        chars[pos] == '(',
        chars[pos + 1 + la] == ' ',
        chars[pos + 2 + la] == c,
        chars[pos + 3 + la] == ' ',
        chars[pos + 4 + la + lb] == ')',
        lex_from(chars, pos + 1) == prepend(sa, lex_from(chars, pos + 1 + la)),
        lex_from(chars, pos + 4 + la) == prepend(sb, lex_from(chars, pos + 4 + la + lb)),
    ensures
        lex_from(chars, pos) == prepend(
            seq![Shape::Exact(Token::LeftParen)] + sa + seq![Shape::Exact(t)] + sb + seq![
                Shape::Exact(Token::RightParen),
            ],
            lex_from(chars, pos + 5 + la + lb),
        ),
{
    let q = pos + 5 + la + lb;
    lemma_lex_emit(chars, pos, Shape::Exact(Token::LeftParen), pos + 1);
    lemma_lex_skip(chars, pos + 1 + la, pos + 2 + la);
    lemma_lex_emit(chars, pos + 2 + la, Shape::Exact(t), pos + 3 + la);
    lemma_lex_skip(chars, pos + 3 + la, pos + 4 + la);
    lemma_lex_emit(chars, pos + 4 + la + lb, Shape::Exact(Token::RightParen), q);
    let rest = lex_from(chars, q);
    let lp = seq![Shape::Exact(Token::LeftParen)];
    let op = seq![Shape::Exact(t)];
    let rp = seq![Shape::Exact(Token::RightParen)];
    lemma_prepend_prepend(sb, rp, rest);
    lemma_prepend_prepend(op, sb + rp, rest);
    lemma_prepend_prepend(sa, op + (sb + rp), rest);
    lemma_prepend_prepend(lp, sa + (op + (sb + rp)), rest);
    assert(lp + (sa + (op + (sb + rp))) =~= lp + sa + op + sb + rp);
}


/// The tokens of `t` from position `p` on have the shapes `s`.
pub open spec fn tokens_at(t: Seq<Token>, p: int, s: Seq<Shape>) -> bool {
    &&& 0 <= p
    &&& p + s.len() <= t.len()
    &&& forall|i: int| 0 <= i < s.len() ==> shape_of(#[trigger] t[p as int + i], s[i])
}

proof fn lemma_first_shape(e: AExpr)
    ensures
        expression_shapes(e).len() >= 1,
        expression_shapes(e)[0] is Ident || expression_shapes(e)[0] == Shape::Exact(Token::LeftParen)
            || expression_shapes(e)[0] matches Shape::Exact(Token::Integer(_)),
{
}

proof fn lemma_tokens_at_split(t: Seq<Token>, p: int, s1: Seq<Shape>, s2: Seq<Shape>)
    requires
        tokens_at(t, p, s1 + s2),
    ensures
        tokens_at(t, p, s1),
        tokens_at(t, p + s1.len(), s2),
{
    assert forall|i: int| 0 <= i < s1.len() implies shape_of(#[trigger] t[p as int + i], s1[i]) by {
        assert((s1 + s2)[i] == s1[i]);
    }
    assert forall|i: int| 0 <= i < s2.len() implies shape_of(#[trigger] t[p as int + s1.len() + i], s2[i]) by {
        assert((s1 + s2)[s1.len() + i] == s2[i]);
        assert(t[p as int + (s1.len() + i)] == t[p as int + s1.len() + i]);
    }
}

/// The tokens of an expression, standing in `t` at `p`, parse back to it as
/// an atom.
#[verifier::spinoff_prover]
#[verifier::rlimit(100)]
proof fn lemma_parse_atom(t: Seq<Token>, p: nat, e: AExpr)
    requires
        tokens_at(t, p as int, expression_shapes(e)),
    ensures
        arithmetic_atom(t, p) matches Ok((e2, k)) && k == expression_shapes(e).len() && same_aexpr(e2, e),
    decreases e,
{
    assert(shape_of(t[p as int + 0], expression_shapes(e)[0]));
    match e {
        AExpr::Var(x) => {
            assert(cur(t, p) == t[p as int]);
        },
        AExpr::Int(n) => {
            assert(cur(t, p) == t[p as int]);
        },
        AExpr::Add(a, b) => {
            let sa = expression_shapes(*a);
            let sb = expression_shapes(*b);
            let lp = seq![Shape::Exact(Token::LeftParen)];
            let op = seq![Shape::Exact(Token::Plus)];
            let rp = seq![Shape::Exact(Token::RightParen)];
            lemma_tokens_at_split(t, p as int, lp + sa + op + sb, rp);
            lemma_tokens_at_split(t, p as int, lp + sa + op, sb);
            lemma_tokens_at_split(t, p as int, lp + sa, op);
            lemma_tokens_at_split(t, p as int, lp, sa);
            lemma_parse_atom(t, p + 1, *a);
            lemma_parse_atom(t, (p + 2 + sa.len()) as nat, *b);
            lemma_first_shape(*a);
            lemma_first_shape(*b);
            assert(shape_of(t[p as int + 1 + 0], sa[0]));
            assert(shape_of(t[p as int + 2 + sa.len() + 0], sb[0]));
            assert(shape_of(t[p as int + 1 + sa.len() + 0], op[0]));
            assert(shape_of(t[p as int + 2 + sa.len() + sb.len() + 0], rp[0]));
            let a2 = arithmetic_atom(t, p + 1)->Ok_0.0;
            let b2 = arithmetic_atom(t, (p + 2 + sa.len()) as nat)->Ok_0.0;
            lemma_parse_compose(t, p, sa.len(), sb.len(), Token::Plus, a2, b2);
        },
        AExpr::Sub(a, b) => {
            let sa = expression_shapes(*a);
            let sb = expression_shapes(*b);
            let lp = seq![Shape::Exact(Token::LeftParen)];
            let op = seq![Shape::Exact(Token::Minus)];
            let rp = seq![Shape::Exact(Token::RightParen)];
            lemma_tokens_at_split(t, p as int, lp + sa + op + sb, rp);
            lemma_tokens_at_split(t, p as int, lp + sa + op, sb);
            lemma_tokens_at_split(t, p as int, lp + sa, op);
            lemma_tokens_at_split(t, p as int, lp, sa);
            lemma_parse_atom(t, p + 1, *a);
            lemma_parse_atom(t, (p + 2 + sa.len()) as nat, *b);
            lemma_first_shape(*a);
            lemma_first_shape(*b);
            assert(shape_of(t[p as int + 1 + 0], sa[0]));
            assert(shape_of(t[p as int + 2 + sa.len() + 0], sb[0]));
            assert(shape_of(t[p as int + 1 + sa.len() + 0], op[0]));
            assert(shape_of(t[p as int + 2 + sa.len() + sb.len() + 0], rp[0]));
            let a2 = arithmetic_atom(t, p + 1)->Ok_0.0;
            let b2 = arithmetic_atom(t, (p + 2 + sa.len()) as nat)->Ok_0.0;
            lemma_parse_compose(t, p, sa.len(), sb.len(), Token::Minus, a2, b2);
        },
        AExpr::Mul(a, b) => {
            let sa = expression_shapes(*a);
            let sb = expression_shapes(*b);
            let lp = seq![Shape::Exact(Token::LeftParen)];
            let op = seq![Shape::Exact(Token::Star)];
            let rp = seq![Shape::Exact(Token::RightParen)];
            lemma_tokens_at_split(t, p as int, lp + sa + op + sb, rp);
            lemma_tokens_at_split(t, p as int, lp + sa + op, sb);
            lemma_tokens_at_split(t, p as int, lp + sa, op);
            lemma_tokens_at_split(t, p as int, lp, sa);
            lemma_parse_atom(t, p + 1, *a);
            lemma_parse_atom(t, (p + 2 + sa.len()) as nat, *b);
            lemma_first_shape(*a);
            lemma_first_shape(*b);
            assert(shape_of(t[p as int + 1 + 0], sa[0]));
            assert(shape_of(t[p as int + 2 + sa.len() + 0], sb[0]));
            assert(shape_of(t[p as int + 1 + sa.len() + 0], op[0]));
            assert(shape_of(t[p as int + 2 + sa.len() + sb.len() + 0], rp[0]));
            let a2 = arithmetic_atom(t, p + 1)->Ok_0.0;
            let b2 = arithmetic_atom(t, (p + 2 + sa.len()) as nat)->Ok_0.0;
            lemma_parse_compose(t, p, sa.len(), sb.len(), Token::Star, a2, b2);
        },
    }
}


/// The expression that `(a op b)` stands for.
pub open spec fn operation(op: Token, a: AExpr, b: AExpr) -> AExpr {
    match op {
        Token::Plus => AExpr::Add(Box::new(a), Box::new(b)),
        Token::Minus => AExpr::Sub(Box::new(a), Box::new(b)),
        _ => AExpr::Mul(Box::new(a), Box::new(b)),
    }
}

/// Parsing `(a op b)` from the parses of `a` and of `b` as atoms.
#[verifier::spinoff_prover]
#[verifier::rlimit(100)]
proof fn lemma_parse_compose(t: Seq<Token>, p: nat, la: nat, lb: nat, op: Token, a2: AExpr, b2: AExpr)
    requires
        op == Token::Plus || op == Token::Minus || op == Token::Star,
        p + 3 + la + lb <= t.len(),
        t[p as int] == Token::LeftParen,
        t[p as int + 1 + la] == op,
        t[p as int + 2 + la + lb] == Token::RightParen,
        !(t[p as int + 1] is Minus),
        !(t[p as int + 2 + la] is Minus),
        arithmetic_atom(t, p + 1) == Ok::<(AExpr, nat), crate::miniimp::parser::ParseError>((a2, la)),
        arithmetic_atom(t, (p + 2 + la) as nat) == Ok::<(AExpr, nat), crate::miniimp::parser::ParseError>((b2, lb)),
    ensures
        arithmetic_atom(t, p) == Ok::<(AExpr, nat), crate::miniimp::parser::ParseError>(
            (operation(op, a2, b2), la + lb + 3),
        ),
{
    let pa = (p + 1) as nat;
    let pm = (p + 1 + la) as nat;
    let pb = (p + 2 + la) as nat;
    let pr = (p + 2 + la + lb) as nat;
    assert(cur(t, p) == Token::LeftParen);
    assert(cur(t, pm) == op);
    assert(cur(t, pr) == Token::RightParen);
    assert(unary(t, pa) == arithmetic_atom(t, pa));
    assert(unary(t, pb) == arithmetic_atom(t, pb));
    assert(multiplicative_rest(t, pr, operation(op, a2, b2)) == Ok::<(AExpr, nat), crate::miniimp::parser::ParseError>((operation(op, a2, b2), 0)));
    assert(additive_rest(t, pr, operation(op, a2, b2)) == Ok::<(AExpr, nat), crate::miniimp::parser::ParseError>((operation(op, a2, b2), 0)));
    assert(multiplicative_rest(t, pr, b2) == Ok::<(AExpr, nat), crate::miniimp::parser::ParseError>((b2, 0)));
    if op == Token::Star {
        assert(multiplicative_rest(t, pm, a2) == Ok::<(AExpr, nat), crate::miniimp::parser::ParseError>((operation(op, a2, b2), 1 + lb)));
        assert(multiplicative(t, pa) == Ok::<(AExpr, nat), crate::miniimp::parser::ParseError>((operation(op, a2, b2), la + 1 + lb)));
        assert(additive(t, pa) == Ok::<(AExpr, nat), crate::miniimp::parser::ParseError>((operation(op, a2, b2), la + 1 + lb)));
    } else {
        assert(multiplicative_rest(t, pm, a2) == Ok::<(AExpr, nat), crate::miniimp::parser::ParseError>((a2, 0)));
        assert(multiplicative(t, pa) == Ok::<(AExpr, nat), crate::miniimp::parser::ParseError>((a2, la)));
        assert(multiplicative(t, pb) == Ok::<(AExpr, nat), crate::miniimp::parser::ParseError>((b2, lb)));
        assert(additive_rest(t, pm, a2) == Ok::<(AExpr, nat), crate::miniimp::parser::ParseError>((operation(op, a2, b2), 1 + lb)));
        assert(additive(t, pa) == Ok::<(AExpr, nat), crate::miniimp::parser::ParseError>((operation(op, a2, b2), la + 1 + lb)));
    }
    assert(expect(t, pr, Token::RightParen, Site::CloseParenAfterArithmetic) == Ok::<((), nat), crate::miniimp::parser::ParseError>(((), 1)));
}


/// `r` is what `parse_aexpr` returns for `source`, as its contract states.
pub open spec fn aexpr_parse_of(source: Seq<char>, r: Result<AExpr, SyntaxError>) -> bool {
    parses_to(source, r, |t: Seq<Token>| whole(t, additive(t, 0), Site::EndOfArithmetic))
}

/// A whole token sequence that spells a readable expression, then `Eof`,
/// parses to it.
proof fn lemma_parse_whole(t: Seq<Token>, e: AExpr)
    requires
        tokens_match(expression_shapes(e) + seq![Shape::Exact(Token::Eof)], t),
    ensures
        whole(t, additive(t, 0), Site::EndOfArithmetic) matches Ok(e2) && same_aexpr(e2, e),
{
    let s = expression_shapes(e);
    let all = s + seq![Shape::Exact(Token::Eof)];
    let k = s.len();
    assert forall|i: int| 0 <= i < s.len() implies shape_of(#[trigger] t[0 + i], s[i]) by {
        assert(shape_of(t[i], all[i]));
        assert(all[i] == s[i]);
    }
    assert(tokens_at(t, 0, s));
    lemma_parse_atom(t, 0, e);
    lemma_first_shape(e);
    assert(shape_of(t[0], all[0]));
    assert(shape_of(t[k as int], all[k as int]));
    assert(t[k as int] == Token::Eof);
    let e2 = arithmetic_atom(t, 0)->Ok_0.0;
    assert(cur(t, k) == Token::Eof);
    assert(unary(t, 0) == arithmetic_atom(t, 0));
    assert(multiplicative_rest(t, k, e2) == Ok::<(AExpr, nat), crate::miniimp::parser::ParseError>((e2, 0)));
    assert(multiplicative(t, 0) == Ok::<(AExpr, nat), crate::miniimp::parser::ParseError>((e2, k)));
    assert(additive_rest(t, k, e2) == Ok::<(AExpr, nat), crate::miniimp::parser::ParseError>((e2, 0)));
    assert(additive(t, 0) == Ok::<(AExpr, nat), crate::miniimp::parser::ParseError>((e2, k)));
    assert(expect(t, k, Token::Eof, Site::EndOfArithmetic) == Ok::<((), nat), crate::miniimp::parser::ParseError>(((), 0)));
}

/// Printing an expression and parsing the text gives it back: where the
/// names of an expression are identifiers and no reserved words and its
/// integers are not negative, its printed text lexes to its tokens followed
/// by `Eof`, and parsing that text as a whole arithmetic expression (as
/// `parse_aexpr` does) gives an expression with the same structure, names
/// and integers.
pub proof fn lemma_printed_expression_parses_back(e: AExpr)
    requires
        readable(e),
    ensures
        lex_from(aexpr_text(e), 0) == Ok::<Seq<Shape>, crate::text::LexError>(
            expression_shapes(e) + seq![Shape::Exact(Token::Eof)],
        ),
        forall|tokens: Seq<Token>|
            #[trigger] tokens_match(expression_shapes(e) + seq![Shape::Exact(Token::Eof)], tokens) ==> (whole(
                tokens,
                additive(tokens, 0),
                Site::EndOfArithmetic,
            ) matches Ok(e2) && same_aexpr(e2, e)),
        forall|r: Result<AExpr, SyntaxError>|
            #[trigger] aexpr_parse_of(aexpr_text(e), r) ==> (r matches Ok(e2) && same_aexpr(e2, e)),
{
    let text = aexpr_text(e);
    assert(text.subrange(0, text.len() as int) =~= text);
    lemma_lex_text(text, 0, e);
    assert(lex_from(text, text.len() as int) == Ok::<Seq<Shape>, crate::text::LexError>(
        seq![Shape::Exact(Token::Eof)],
    ));
    let shapes = expression_shapes(e) + seq![Shape::Exact(Token::Eof)];
    assert forall|tokens: Seq<Token>| #[trigger] tokens_match(shapes, tokens) implies (whole(
        tokens,
        additive(tokens, 0),
        Site::EndOfArithmetic,
    ) matches Ok(e2) && same_aexpr(e2, e)) by {
        lemma_parse_whole(tokens, e);
    }
    assert forall|r: Result<AExpr, SyntaxError>| #[trigger] aexpr_parse_of(text, r) implies (r matches Ok(e2)
        && same_aexpr(e2, e)) by {
        let tokens = choose|tokens: Seq<Token>|
            #[trigger] tokens_match(shapes, tokens) && r == lift(
                (|t: Seq<Token>| whole(t, additive(t, 0), Site::EndOfArithmetic))(tokens),
            );
        lemma_parse_whole(tokens, e);
    }
}

} // verus!
