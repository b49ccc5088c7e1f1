use vstd::prelude::*;
use crate::miniimp::ast::{same_aexpr, same_bexpr, AExpr, BExpr};
use crate::miniimp::cfg::SimpleStatement;
use crate::miniimp::pretty::{aexpr_text, bexpr_text, int_text, statement_text};
use crate::miniimp::round_trip::lemma_digits;
use crate::text::{decimal_digits, decimal_value, is_digit, is_word_char, is_word_start};

verus! {

// ---------------------------------------------------------------------------
// Where names are plain identifiers, the printed text of an expression or a
// statement determines it.

/// A name made of a letter or `_` and then letters, digits and `_`.
pub open spec fn plain_name(x: Seq<char>) -> bool {
    &&& x.len() > 0
    &&& is_word_start(x[0])
    &&& forall|i: int| 0 <= i < x.len() ==> is_word_char(#[trigger] x[i])
}

/// Every variable of the expression has a plain name.
pub open spec fn plain_a(e: AExpr) -> bool
    decreases e,
{
    match e {
        AExpr::Var(x) => plain_name(x@),
        AExpr::Int(_) => true,
        AExpr::Add(l, r) => plain_a(*l) && plain_a(*r),
        AExpr::Sub(l, r) => plain_a(*l) && plain_a(*r),
        AExpr::Mul(l, r) => plain_a(*l) && plain_a(*r),
    }
}

/// Every variable of the expression has a plain name.
pub open spec fn plain_b(e: BExpr) -> bool
    decreases e,
{
    match e {
        BExpr::And(l, r) => plain_b(*l) && plain_b(*r),
        BExpr::Not(v) => plain_b(*v),
        BExpr::Less(l, r) => plain_a(*l) && plain_a(*r),
        _ => true,
    }
}

/// The statement's variables, assigned and read, have plain names.
pub open spec fn plain_statement(s: SimpleStatement) -> bool {
    match s {
        SimpleStatement::Skip => true,
        SimpleStatement::Assign(x, e) => plain_name(x@) && plain_a(e),
        SimpleStatement::Guard(g) => plain_b(g),
    }
}

/// Two statements of the same kind, with the same variable names and
/// expressions.
pub open spec fn statement_like(a: SimpleStatement, b: SimpleStatement) -> bool {
    match a {
        SimpleStatement::Skip => b is Skip,
        SimpleStatement::Assign(x, e) => match b {
            SimpleStatement::Assign(y, f) => x@ == y@ && same_aexpr(e, f),
            _ => false,
        },
        SimpleStatement::Guard(g) => match b {
            SimpleStatement::Guard(h) => same_bexpr(g, h),
            _ => false,
        },
    }
}

/// What may follow a printed expression: nothing, a space or `)`.
pub open spec fn stops(z: Seq<char>) -> bool {
    z.len() == 0 || z[0] == ' ' || z[0] == ')'
}

/// A character that is neither a space nor a parenthesis.
pub open spec fn atom_char(c: char) -> bool {
    c != ' ' && c != '(' && c != ')'
}

pub open spec fn atom_text(t: Seq<char>) -> bool {
    t.len() > 0 && forall|i: int| 0 <= i < t.len() ==> atom_char(#[trigger] t[i])
}

/// Two runs of atom characters, each followed by what may follow an
/// expression, that start a common text are the same run.
proof fn lemma_atom_run(ta: Seq<char>, tb: Seq<char>, x: Seq<char>, y: Seq<char>)
    requires
        atom_text(ta),
        atom_text(tb),
        ta + x == tb + y,
        stops(x),
        stops(y),
    ensures
        ta == tb,
        x == y,
{
    let w = ta + x;
    if ta.len() < tb.len() {
        assert(w[ta.len() as int] == x[0]);
        assert((tb + y)[ta.len() as int] == tb[ta.len() as int]);
    } else if tb.len() < ta.len() {
        assert((tb + y)[tb.len() as int] == y[0]);
        assert(w[tb.len() as int] == ta[tb.len() as int]);
    }
    assert forall|i: int| 0 <= i < ta.len() implies ta[i] == tb[i] by {
        assert(w[i] == ta[i]);
        assert((tb + y)[i] == tb[i]);
    }
    assert(ta =~= tb);
    assert(w.len() == (tb + y).len());
    assert(x.len() == y.len());
    assert forall|i: int| 0 <= i < x.len() implies x[i] == y[i] by {
        assert(w[ta.len() + i] == x[i]);
        assert((tb + y)[tb.len() + i] == y[i]);
    }
    assert(x =~= y);
}

proof fn lemma_int_text(n: int)
    requires
        i32::MIN <= n <= i32::MAX,
    ensures
        atom_text(int_text(n)),
        is_digit(int_text(n)[0]) || int_text(n)[0] == '-',
        (int_text(n)[0] == '-') == (n < 0),
{
    reveal_strlit("-");
    if n < 0 {
        lemma_digits((-n) as nat);
        let d = decimal_digits((-n) as nat);
        assert forall|i: int| 0 <= i < int_text(n).len() implies atom_char(#[trigger] int_text(n)[i]) by {
            if i > 0 {
                assert(int_text(n)[i] == d[i - 1]);
            }
        }
    } else {
        lemma_digits(n as nat);
    }
}

proof fn lemma_int_text_injective(n: int, m: int)
    requires
        i32::MIN <= n <= i32::MAX,
        i32::MIN <= m <= i32::MAX,
        int_text(n) == int_text(m),
    ensures
        n == m,
{
    reveal_strlit("-");
    lemma_int_text(n);
    lemma_int_text(m);
    if n < 0 {
        lemma_digits((-n) as nat);
        lemma_digits((-m) as nat);
        assert(int_text(n).drop_first() =~= decimal_digits((-n) as nat));
        assert(int_text(m).drop_first() =~= decimal_digits((-m) as nat));
    } else {
        lemma_digits(n as nat);
        lemma_digits(m as nat);
    }
}

/// The operator text of an arithmetic operation.
pub open spec fn op_text(e: AExpr) -> Seq<char> {
    match e {
        AExpr::Add(_, _) => " + "@,
        AExpr::Sub(_, _) => " - "@,
        AExpr::Mul(_, _) => " * "@,
        _ => Seq::empty(),
    }
}

proof fn lemma_var_text(x: Seq<char>)
    requires
        plain_name(x),
    ensures
        atom_text(x),
        !is_digit(x[0]) && x[0] != '-' && x[0] != '(' && x[0] != '!',
{
    assert forall|i: int| 0 <= i < x.len() implies atom_char(#[trigger] x[i]) by {
        assert(is_word_char(x[i]));
    }
}

/// The first character of an expression's text: `(` exactly for an operation.
proof fn lemma_aexpr_first(e: AExpr)
    requires
        plain_a(e),
    ensures
        aexpr_text(e).len() > 0,
        (aexpr_text(e)[0] == '(') == !(e is Var || e is Int),
        (e is Var || e is Int) ==> atom_text(aexpr_text(e)),
        aexpr_text(e)[0] != '!',
        e is Var ==> is_word_start(aexpr_text(e)[0]),
        e is Int ==> is_digit(aexpr_text(e)[0]) || aexpr_text(e)[0] == '-',
{
    reveal_strlit("(");
    match e {
        AExpr::Var(x) => lemma_var_text(x@),
        AExpr::Int(n) => lemma_int_text(n as int),
        _ => {},
    }
}

/// Splits `(` t1 op t2 `)` followed by `x`.
proof fn lemma_split_op(t1: Seq<char>, op: Seq<char>, t2: Seq<char>, x: Seq<char>)
    requires
        op.len() == 3,
    ensures
        ("("@ + t1 + op + t2 + ")"@ + x).drop_first() == t1 + (op + t2 + ")"@ + x),
        ("("@ + t1 + op + t2 + ")"@ + x).len() == 1 + t1.len() + 3 + t2.len() + 1 + x.len(),
{
    reveal_strlit("(");
    reveal_strlit(")");
    assert(("("@ + t1 + op + t2 + ")"@ + x).drop_first() =~= t1 + (op + t2 + ")"@ + x));
}

/// After equal prefixes, the rests are equal.
proof fn lemma_rest_equal(t: Seq<char>, r1: Seq<char>, r2: Seq<char>)
    requires
        t + r1 == t + r2,
    ensures
        r1 == r2,
{
    assert((t + r1).len() == t.len() + r1.len());
    assert((t + r2).len() == t.len() + r2.len());
    assert(r1.len() == r2.len());
    assert forall|i: int| 0 <= i < r1.len() implies r1[i] == r2[i] by {
        assert((t + r1)[t.len() + i] == r1[i]);
        assert((t + r2)[t.len() + i] == r2[i]);
    }
    assert(r1 =~= r2);
}

/// The parts of `(t1 o1 t2)x` and `(u1 o2 u2)y` when the two are equal.
proof fn lemma_op_parts(
    t1: Seq<char>,
    o1: Seq<char>,
    t2: Seq<char>,
    x: Seq<char>,
    u1: Seq<char>,
    o2: Seq<char>,
    u2: Seq<char>,
    y: Seq<char>,
)
    requires
        o1 == " + "@ || o1 == " - "@ || o1 == " * "@,
        o2 == " + "@ || o2 == " - "@ || o2 == " * "@,
        "("@ + t1 + o1 + t2 + ")"@ + x == "("@ + u1 + o2 + u2 + ")"@ + y,
    ensures
        t1 + (o1 + t2 + ")"@ + x) == u1 + (o2 + u2 + ")"@ + y),
        stops(o1 + t2 + ")"@ + x),
        stops(o2 + u2 + ")"@ + y),
{
    reveal_strlit(" + ");
    reveal_strlit(" - ");
    reveal_strlit(" * ");
    lemma_split_op(t1, o1, t2, x);
    lemma_split_op(u1, o2, u2, y);
    assert((o1 + t2 + ")"@ + x)[0] == o1[0]);
    assert((o2 + u2 + ")"@ + y)[0] == o2[0]);
}

/// After the first operands: the operators agree, and so do the rests.
proof fn lemma_op_middle(
    o1: Seq<char>,
    t2: Seq<char>,
    x: Seq<char>,
    o2: Seq<char>,
    u2: Seq<char>,
    y: Seq<char>,
)
    requires
        o1 == " + "@ || o1 == " - "@ || o1 == " * "@,
        o2 == " + "@ || o2 == " - "@ || o2 == " * "@,
        o1 + t2 + ")"@ + x == o2 + u2 + ")"@ + y,
    ensures
        o1 == o2,
        t2 + (")"@ + x) == u2 + (")"@ + y),
        stops(")"@ + x),
        stops(")"@ + y),
{
    reveal_strlit(" + ");
    reveal_strlit(" - ");
    reveal_strlit(" * ");
    reveal_strlit(")");
    let r1 = o1 + t2 + ")"@ + x;
    let r2 = o2 + u2 + ")"@ + y;
    assert(o1 =~= r1.subrange(0, 3));
    assert(o2 =~= r2.subrange(0, 3));
    assert(r1.subrange(3, r1.len() as int) =~= t2 + (")"@ + x));
    assert(r2.subrange(3, r2.len() as int) =~= u2 + (")"@ + y));
    assert((")"@ + x)[0] == ')');
    assert((")"@ + y)[0] == ')');
}

proof fn lemma_op_text(e: AExpr)
    requires
        !(e is Var || e is Int),
    ensures
        op_text(e) == " + "@ || op_text(e) == " - "@ || op_text(e) == " * "@,
        e is Add <==> op_text(e)[1] == '+',
        e is Sub <==> op_text(e)[1] == '-',
        e is Mul <==> op_text(e)[1] == '*',
{
    reveal_strlit(" + ");
    reveal_strlit(" - ");
    reveal_strlit(" * ");
}

/// Where names are plain, the text of an arithmetic expression, followed by
/// what may follow it, determines the expression.
#[verifier::spinoff_prover]
#[verifier::rlimit(100)]
pub proof fn lemma_aexpr_text_injective(a: AExpr, b: AExpr, x: Seq<char>, y: Seq<char>)
    requires
        plain_a(a),
        plain_a(b),
        aexpr_text(a) + x == aexpr_text(b) + y,
        stops(x),
        stops(y),
    ensures
        aexpr_text(a) == aexpr_text(b),
        x == y,
        same_aexpr(a, b),
    decreases a,
{
    lemma_aexpr_first(a);
    lemma_aexpr_first(b);
    let ta = aexpr_text(a);
    let tb = aexpr_text(b);
    assert((ta + x)[0] == ta[0]);
    assert((tb + y)[0] == tb[0]);
    if (a is Var || a is Int) && (b is Var || b is Int) {
        lemma_atom_run(ta, tb, x, y);
        match (a, b) {
            (AExpr::Int(n), AExpr::Int(m)) => lemma_int_text_injective(n as int, m as int),
            _ => {},
        }
    } else if !(a is Var || a is Int) && !(b is Var || b is Int) {
        match a {
            AExpr::Add(a1, a2) | AExpr::Sub(a1, a2) | AExpr::Mul(a1, a2) => {
                match b {
                    AExpr::Add(b1, b2) | AExpr::Sub(b1, b2) | AExpr::Mul(b1, b2) => {
                        let t1 = aexpr_text(*a1);
                        let t2 = aexpr_text(*a2);
                        let u1 = aexpr_text(*b1);
                        let u2 = aexpr_text(*b2);
                        let o1 = op_text(a);
                        let o2 = op_text(b);
                        lemma_op_text(a);
                        lemma_op_text(b);
                        assert(ta == "("@ + t1 + o1 + t2 + ")"@);
                        assert(tb == "("@ + u1 + o2 + u2 + ")"@);
                        lemma_op_parts(t1, o1, t2, x, u1, o2, u2, y);
                        lemma_aexpr_text_injective(*a1, *b1, o1 + t2 + ")"@ + x, o2 + u2 + ")"@ + y);
                        lemma_op_middle(o1, t2, x, o2, u2, y);
                        lemma_aexpr_text_injective(*a2, *b2, ")"@ + x, ")"@ + y);
                        lemma_rest_equal(")"@, x, y);
                    },
                    _ => {},
                }
            },
            _ => {},
        }
    }
}


/// Drops the opening characters `pre` of `pre + t + rest`.
proof fn lemma_drop_prefix(pre: Seq<char>, t: Seq<char>, rest: Seq<char>, whole: Seq<char>)
    requires
        whole =~= pre + t + rest,
    ensures
        whole.subrange(pre.len() as int, whole.len() as int) == t + rest,
{
    assert(whole.subrange(pre.len() as int, whole.len() as int) =~= t + rest);
}

/// The first character of a Boolean expression's text.
proof fn lemma_bexpr_first(e: BExpr)
    ensures
        bexpr_text(e).len() > 0,
        e is True ==> bexpr_text(e) == "true"@ && atom_text(bexpr_text(e)) && bexpr_text(e)[0] == 't',
        e is False ==> bexpr_text(e) == "false"@ && atom_text(bexpr_text(e)) && bexpr_text(e)[0] == 'f',
        (e is And || e is Less) ==> bexpr_text(e)[0] == '(',
        e is Not ==> bexpr_text(e)[0] == '!',
{
    reveal_strlit("true");
    reveal_strlit("false");
    reveal_strlit("(");
    reveal_strlit("!(");
}

/// A Boolean expression's text and an arithmetic expression's text, each
/// followed by what may follow it, that start a common text are as long.
#[verifier::spinoff_prover]
#[verifier::rlimit(100)]
proof fn lemma_cross(p: BExpr, q: AExpr, x: Seq<char>, y: Seq<char>)
    requires
        plain_b(p),
        plain_a(q),
        bexpr_text(p) + x == aexpr_text(q) + y,
        stops(x),
        stops(y),
    ensures
        bexpr_text(p) == aexpr_text(q),
        x == y,
    decreases p,
{
    reveal_strlit(" && ");
    reveal_strlit(" < ");
    reveal_strlit(")");
    reveal_strlit(" + ");
    reveal_strlit(" - ");
    reveal_strlit(" * ");
    lemma_bexpr_first(p);
    lemma_aexpr_first(q);
    let tp = bexpr_text(p);
    let tq = aexpr_text(q);
    assert((tp + x)[0] == tp[0]);
    assert((tq + y)[0] == tq[0]);
    match p {
        BExpr::True | BExpr::False => {
            if q is Var || q is Int {
                lemma_atom_run(tp, tq, x, y);
            } else {
                assert(tp[0] != '(');
                assert(tq[0] == '(');
            }
        },
        BExpr::And(p1, p2) => {
            match q {
                AExpr::Add(q1, q2) | AExpr::Sub(q1, q2) | AExpr::Mul(q1, q2) => {
                    let o = op_text(q);
                    lemma_op_text(q);
                    let r1 = " && "@ + bexpr_text(*p2) + ")"@ + x;
                    let r2 = o + aexpr_text(*q2) + ")"@ + y;
                    lemma_drop_prefix("("@, bexpr_text(*p1), r1, tp + x);
                    lemma_drop_prefix("("@, aexpr_text(*q1), r2, tq + y);
                    assert(r1[0] == ' ' && r2[0] == ' ');
                    lemma_cross(*p1, *q1, r1, r2);
                    assert(r1[1] == '&');
                },
                _ => {},
            }
        },
        BExpr::Less(c1, c2) => {
            match q {
                AExpr::Add(q1, q2) | AExpr::Sub(q1, q2) | AExpr::Mul(q1, q2) => {
                    let o = op_text(q);
                    lemma_op_text(q);
                    let r1 = " < "@ + aexpr_text(*c2) + ")"@ + x;
                    let r2 = o + aexpr_text(*q2) + ")"@ + y;
                    lemma_drop_prefix("("@, aexpr_text(*c1), r1, tp + x);
                    lemma_drop_prefix("("@, aexpr_text(*q1), r2, tq + y);
                    assert(r1[0] == ' ' && r2[0] == ' ');
                    lemma_aexpr_text_injective(*c1, *q1, r1, r2);
                    assert(r1[1] == '<');
                },
                _ => {},
            }
        },
        _ => {},
    }
}

/// Where names are plain, the text of a Boolean expression, followed by
/// what may follow it, determines the expression.
#[verifier::spinoff_prover]
#[verifier::rlimit(100)]
pub proof fn lemma_bexpr_text_injective(a: BExpr, b: BExpr, x: Seq<char>, y: Seq<char>)
    requires
        plain_b(a),
        plain_b(b),
        bexpr_text(a) + x == bexpr_text(b) + y,
        stops(x),
        stops(y),
    ensures
        bexpr_text(a) == bexpr_text(b),
        x == y,
        same_bexpr(a, b),
    decreases a,
{
    reveal_strlit(" && ");
    reveal_strlit(" < ");
    reveal_strlit(")");
    reveal_strlit("true");
    reveal_strlit("false");
    lemma_bexpr_first(a);
    lemma_bexpr_first(b);
    let ta = bexpr_text(a);
    let tb = bexpr_text(b);
    assert((ta + x)[0] == ta[0]);
    assert((tb + y)[0] == tb[0]);
    match (a, b) {
        (BExpr::True, BExpr::True) | (BExpr::False, BExpr::False) | (BExpr::True, BExpr::False) | (
            BExpr::False,
            BExpr::True,
        ) => {
            lemma_atom_run(ta, tb, x, y);
        },
        (BExpr::Not(a1), BExpr::Not(b1)) => {
            let r1 = ")"@ + x;
            let r2 = ")"@ + y;
            lemma_drop_prefix("!("@, bexpr_text(*a1), r1, ta + x);
            lemma_drop_prefix("!("@, bexpr_text(*b1), r2, tb + y);
            assert(r1[0] == ')' && r2[0] == ')');
            lemma_bexpr_text_injective(*a1, *b1, r1, r2);
            lemma_rest_equal(")"@, x, y);
        },
        (BExpr::And(a1, a2), BExpr::And(b1, b2)) => {
            let r1 = " && "@ + bexpr_text(*a2) + ")"@ + x;
            let r2 = " && "@ + bexpr_text(*b2) + ")"@ + y;
            lemma_drop_prefix("("@, bexpr_text(*a1), r1, ta + x);
            lemma_drop_prefix("("@, bexpr_text(*b1), r2, tb + y);
            assert(r1[0] == ' ' && r2[0] == ' ');
            lemma_bexpr_text_injective(*a1, *b1, r1, r2);
            let s1 = ")"@ + x;
            let s2 = ")"@ + y;
            lemma_drop_prefix(" && "@, bexpr_text(*a2), s1, r1);
            lemma_drop_prefix(" && "@, bexpr_text(*b2), s2, r2);
            assert(s1[0] == ')' && s2[0] == ')');
            lemma_bexpr_text_injective(*a2, *b2, s1, s2);
            lemma_rest_equal(")"@, x, y);
        },
        (BExpr::Less(a1, a2), BExpr::Less(b1, b2)) => {
            let r1 = " < "@ + aexpr_text(*a2) + ")"@ + x;
            let r2 = " < "@ + aexpr_text(*b2) + ")"@ + y;
            lemma_drop_prefix("("@, aexpr_text(*a1), r1, ta + x);
            lemma_drop_prefix("("@, aexpr_text(*b1), r2, tb + y);
            assert(r1[0] == ' ' && r2[0] == ' ');
            lemma_aexpr_text_injective(*a1, *b1, r1, r2);
            let s1 = ")"@ + x;
            let s2 = ")"@ + y;
            lemma_drop_prefix(" < "@, aexpr_text(*a2), s1, r1);
            lemma_drop_prefix(" < "@, aexpr_text(*b2), s2, r2);
            assert(s1[0] == ')' && s2[0] == ')');
            lemma_aexpr_text_injective(*a2, *b2, s1, s2);
            lemma_rest_equal(")"@, x, y);
        },
        (BExpr::And(a1, a2), BExpr::Less(b1, b2)) => {
            let r1 = " && "@ + bexpr_text(*a2) + ")"@ + x;
            let r2 = " < "@ + aexpr_text(*b2) + ")"@ + y;
            lemma_drop_prefix("("@, bexpr_text(*a1), r1, ta + x);
            lemma_drop_prefix("("@, aexpr_text(*b1), r2, tb + y);
            assert(r1[0] == ' ' && r2[0] == ' ');
            lemma_cross(*a1, *b1, r1, r2);
            assert(r1[1] == '&');
            assert(r2[1] == '<');
        },
        (BExpr::Less(a1, a2), BExpr::And(b1, b2)) => {
            let r1 = " < "@ + aexpr_text(*a2) + ")"@ + x;
            let r2 = " && "@ + bexpr_text(*b2) + ")"@ + y;
            lemma_drop_prefix("("@, aexpr_text(*a1), r1, ta + x);
            lemma_drop_prefix("("@, bexpr_text(*b1), r2, tb + y);
            assert(r1[0] == ' ' && r2[0] == ' ');
            lemma_cross(*b1, *a1, r2, r1);
            assert(r1[1] == '<');
            assert(r2[1] == '&');
        },
        _ => {},
    }
}

/// Where names are plain, the text of a statement determines it.
#[verifier::spinoff_prover]
#[verifier::rlimit(100)]
pub proof fn lemma_statement_text_injective(a: SimpleStatement, b: SimpleStatement)
    requires
        plain_statement(a),
        plain_statement(b),
        statement_text(a) == statement_text(b),
    ensures
        statement_like(a, b),
{
    reveal_strlit("skip");
    reveal_strlit(" := ");
    reveal_strlit("guard ");
    reveal_strlit("guard");
    let ta = statement_text(a);
    let tb = statement_text(b);
    match (a, b) {
        (SimpleStatement::Assign(x, e), SimpleStatement::Assign(y, f)) => {
            lemma_var_text(x@);
            lemma_var_text(y@);
            let r1 = " := "@ + aexpr_text(e);
            let r2 = " := "@ + aexpr_text(f);
            assert(ta =~= x@ + r1);
            assert(tb =~= y@ + r2);
            assert(r1[0] == ' ' && r2[0] == ' ');
            lemma_atom_run(x@, y@, r1, r2);
            lemma_drop_prefix(" := "@, aexpr_text(e), Seq::empty(), r1);
            lemma_drop_prefix(" := "@, aexpr_text(f), Seq::empty(), r2);
            assert(aexpr_text(e) + Seq::<char>::empty() =~= aexpr_text(e));
            assert(aexpr_text(f) + Seq::<char>::empty() =~= aexpr_text(f));
            lemma_aexpr_text_injective(e, f, Seq::empty(), Seq::empty());
            assert(x@ == y@);
            assert(same_aexpr(e, f));
        },
        (SimpleStatement::Guard(g), SimpleStatement::Guard(h)) => {
            lemma_drop_prefix("guard "@, bexpr_text(g), Seq::empty(), ta);
            lemma_drop_prefix("guard "@, bexpr_text(h), Seq::empty(), tb);
            assert(bexpr_text(g) + Seq::<char>::empty() =~= bexpr_text(g));
            assert(bexpr_text(h) + Seq::<char>::empty() =~= bexpr_text(h));
            lemma_bexpr_text_injective(g, h, Seq::empty(), Seq::empty());
            assert(same_bexpr(g, h));
        },
        (SimpleStatement::Assign(x, e), SimpleStatement::Guard(h)) => {
            lemma_assign_is_not_guard(x@, e, h);
        },
        (SimpleStatement::Guard(h), SimpleStatement::Assign(x, e)) => {
            lemma_assign_is_not_guard(x@, e, h);
        },
        (SimpleStatement::Assign(x, e), SimpleStatement::Skip) => {
            assert(ta[x@.len() as int + 1] == ':');
            if ta.len() == 4 {
                assert("skip"@[x@.len() as int + 1] != ':');
            }
        },
        (SimpleStatement::Skip, SimpleStatement::Assign(x, e)) => {
            assert(tb[x@.len() as int + 1] == ':');
            if tb.len() == 4 {
                assert("skip"@[x@.len() as int + 1] != ':');
            }
        },
        (SimpleStatement::Guard(g), SimpleStatement::Skip) => {
            lemma_bexpr_first(g);
            assert(ta.len() > 4);
        },
        (SimpleStatement::Skip, SimpleStatement::Guard(g)) => {
            lemma_bexpr_first(g);
            assert(tb.len() > 4);
        },
        _ => {},
    }
}

proof fn lemma_assign_is_not_guard(x: Seq<char>, e: AExpr, h: BExpr)
    requires
        plain_name(x),
    ensures
        x + " := "@ + aexpr_text(e) != "guard "@ + bexpr_text(h),
{
    reveal_strlit(" := ");
    reveal_strlit("guard ");
    reveal_strlit("guard");
    lemma_var_text(x);
    lemma_bexpr_first(h);
    let t1 = x + " := "@ + aexpr_text(e);
    let t2 = "guard "@ + bexpr_text(h);
    if t1 == t2 {
        let r1 = " := "@ + aexpr_text(e);
        let r2 = " "@ + bexpr_text(h);
        reveal_strlit(" ");
        assert(t1 =~= x + r1);
        assert(t2 =~= "guard"@ + r2);
        assert(atom_text("guard"@));
        lemma_atom_run(x, "guard"@, r1, r2);
        assert(r1[1] == ':');
        assert(r2[1] == bexpr_text(h)[0]);
    }
}

} // verus!
