use vstd::prelude::*;
use crate::minifun::ast::{BinOp, Term};
use crate::minifun::eval::{binop_value, int_result, term_value, EvalError};
use crate::minifun::runtime::ValueView;
use crate::minifun::typecheck::{binop_type, type_of, TypeError};
use crate::minifun::types::Type;

verus! {

/// A value has type `t`, looking at most `depth` function values deep:
/// integers and Booleans have their own types; a function value has type
/// `a -> b` when the values of its environment have the types of some type
/// environment in which its body has type `b`, once its parameter (and, for a
/// recursive one, its own name) is added.
pub open spec fn value_has_type(v: ValueView, t: Type, depth: nat) -> bool
    decreases depth,
{
    match v {
        ValueView::Int(_) => t == Type::Int,
        ValueView::Bool(_) => t == Type::Bool,
        ValueView::Closure { param, body, env } => match t {
            Type::Fun(a, b) => depth > 0 && exists|g: Map<Seq<char>, Type>|
                #![trigger type_of(body, g.insert(param, *a))]
                type_of(body, g.insert(param, *a)) == Ok::<Type, TypeError>(*b) && (forall|x: Seq<char>|
                    #![trigger g.contains_key(x)]
                    g.contains_key(x) ==> env.contains_key(x) && value_has_type(
                        env[x],
                        g[x],
                        (depth - 1) as nat,
                    )),
            _ => false,
        },
        ValueView::RecursiveClosure { name, param, body, env } => match t {
            Type::Fun(a, b) => depth > 0 && exists|g: Map<Seq<char>, Type>|
                #![trigger type_of(body, g.insert(name, t).insert(param, *a))]
                type_of(body, g.insert(name, t).insert(param, *a)) == Ok::<Type, TypeError>(*b) && (forall|
                    x: Seq<char>,
                |
                    #![trigger g.contains_key(x)]
                    g.contains_key(x) ==> env.contains_key(x) && value_has_type(
                        env[x],
                        g[x],
                        (depth - 1) as nat,
                    )),
            _ => false,
        },
    }
}

/// Every variable of the type environment `g` has a value in `env`, of its
/// type, looking at most `depth` function values deep.
pub open spec fn env_has_types(env: Map<Seq<char>, ValueView>, g: Map<Seq<char>, Type>, depth: nat) -> bool {
    forall|x: Seq<char>|
        #![trigger g.contains_key(x)]
        g.contains_key(x) ==> env.contains_key(x) && value_has_type(env[x], g[x], depth)
}

proof fn lemma_value_depth(v: ValueView, t: Type, d1: nat, d2: nat)
    requires
        d1 <= d2,
        value_has_type(v, t, d1),
    ensures
        value_has_type(v, t, d2),
    decreases d1,
{
    match v {
        ValueView::Closure { param, body, env } => {
            if let Type::Fun(a, b) = t {
                let g = choose|g: Map<Seq<char>, Type>|
                    #![trigger type_of(body, g.insert(param, *a))]
                    type_of(body, g.insert(param, *a)) == Ok::<Type, TypeError>(*b) && (forall|x: Seq<char>|
                        #![trigger g.contains_key(x)]
                        g.contains_key(x) ==> env.contains_key(x) && value_has_type(
                            env[x],
                            g[x],
                            (d1 - 1) as nat,
                        ));
                assert forall|x: Seq<char>| #![trigger g.contains_key(x)] g.contains_key(x) implies env.contains_key(x)
                    && value_has_type(env[x], g[x], (d2 - 1) as nat) by {
                    lemma_value_depth(env[x], g[x], (d1 - 1) as nat, (d2 - 1) as nat);
                }
            }
        },
        ValueView::RecursiveClosure { name, param, body, env } => {
            if let Type::Fun(a, b) = t {
                let g = choose|g: Map<Seq<char>, Type>|
                    #![trigger type_of(body, g.insert(name, t).insert(param, *a))]
                    type_of(body, g.insert(name, t).insert(param, *a)) == Ok::<Type, TypeError>(*b) && (forall|
                        x: Seq<char>,
                    |
                        #![trigger g.contains_key(x)]
                        g.contains_key(x) ==> env.contains_key(x) && value_has_type(
                            env[x],
                            g[x],
                            (d1 - 1) as nat,
                        ));
                assert forall|x: Seq<char>| #![trigger g.contains_key(x)] g.contains_key(x) implies env.contains_key(x)
                    && value_has_type(env[x], g[x], (d2 - 1) as nat) by {
                    lemma_value_depth(env[x], g[x], (d1 - 1) as nat, (d2 - 1) as nat);
                }
            }
        },
        _ => {},
    }
}

proof fn lemma_env_depth(env: Map<Seq<char>, ValueView>, g: Map<Seq<char>, Type>, d1: nat, d2: nat)
    requires
        d1 <= d2,
        env_has_types(env, g, d1),
    ensures
        env_has_types(env, g, d2),
{
    assert forall|x: Seq<char>| #![trigger g.contains_key(x)] g.contains_key(x) implies env.contains_key(x) && value_has_type(
        env[x],
        g[x],
        d2,
    ) by {
        lemma_value_depth(env[x], g[x], d1, d2);
    }
}

/// Adding a variable of type `t` with a value of that type keeps the
/// environment typed, at the larger of the two depths.
proof fn lemma_env_insert(
    env: Map<Seq<char>, ValueView>,
    g: Map<Seq<char>, Type>,
    d: nat,
    x: Seq<char>,
    v: ValueView,
    t: Type,
    dv: nat,
) -> (d2: nat)
    requires
        env_has_types(env, g, d),
        value_has_type(v, t, dv),
    ensures
        d <= d2,
        dv <= d2,
        env_has_types(env.insert(x, v), g.insert(x, t), d2),
{
    let d2 = if d <= dv {
        dv
    } else {
        d
    };
    lemma_env_depth(env, g, d, d2);
    lemma_value_depth(v, t, dv, d2);
    let g2 = g.insert(x, t);
    assert forall|y: Seq<char>| #![trigger g2.contains_key(y)] g2.contains_key(y) implies env.insert(x, v).contains_key(y)
        && value_has_type(env.insert(x, v)[y], g2[y], d2) by {
        if y != x {
            assert(g[y] == g2[y]);
        }
    }
    d2
}

/// A value of type `Int` is an integer, and one of type `Bool` a Boolean.
proof fn lemma_base_values(v: ValueView, t: Type, d: nat)
    requires
        value_has_type(v, t, d),
    ensures
        t == Type::Int ==> v is Int,
        t == Type::Bool ==> v is Bool,
        t is Fun ==> (v is Closure || v is RecursiveClosure),
{
}

proof fn lemma_binop_sound(op: BinOp, lv: ValueView, lt: Type, rv: ValueView, rt: Type, dl: nat, dr: nat)
    requires
        value_has_type(lv, lt, dl),
        value_has_type(rv, rt, dr),
        binop_type(op, lt, rt) is Ok,
    ensures
        match binop_value(op, lv, rv) {
            Ok(v) => value_has_type(v, binop_type(op, lt, rt)->Ok_0, 0),
            Err(e) => e is ArithmeticOverflow,
        },
{
    lemma_base_values(lv, lt, dl);
    lemma_base_values(rv, rt, dr);
    match (lv, rv) {
        (ValueView::Int(a), ValueView::Int(b)) => {
            match op {
                BinOp::Add => {
                    assert(int_result(a + b) is Ok ==> int_result(a + b)->Ok_0 is Int);
                },
                BinOp::Sub => {
                    assert(int_result(a - b) is Ok ==> int_result(a - b)->Ok_0 is Int);
                },
                BinOp::Mul => {
                    assert(int_result(a * b) is Ok ==> int_result(a * b)->Ok_0 is Int);
                },
                _ => {},
            }
        },
        _ => {},
    }
}

/// The evaluation of a term of type `type_of(t, g)` in an environment whose
/// values have the types of `g` gives a value of that type (looking at most
/// the returned depth deep) or stops at an overflow or at the nesting limit.
proof fn lemma_term_sound(
    t: Term,
    g: Map<Seq<char>, Type>,
    env: Map<Seq<char>, ValueView>,
    d: nat,
    fuel: nat,
) -> (d2: nat)
    requires
        type_of(t, g) is Ok,
        env_has_types(env, g, d),
    ensures
        match term_value(t, env, fuel) {
            Ok(v) => value_has_type(v, type_of(t, g)->Ok_0, d2),
            Err(e) => e is ArithmeticOverflow || e is OutOfFuel,
        },
    decreases fuel, t,
{
    match t {
        Term::Int(_) => 0,
        Term::Bool(_) => 0,
        Term::Var(x) => {
            assert(g.contains_key(x@));
            assert(value_has_type(env[x@], g[x@], d));
            d
        },
        Term::Fun { param, param_type, body } => {
            let bt = type_of(*body, g.insert(param@, param_type))->Ok_0;
            assert(type_of(*body, g.insert(param@, param_type)) == Ok::<Type, TypeError>(bt));
            let ft = Type::Fun(Box::new(param_type), Box::new(bt));
            let v = ValueView::Closure { param: param@, body: *body, env };
            assert(env_has_types(env, g, ((d + 1) - 1) as nat));
            assert(value_has_type(v, ft, d + 1));
            d + 1
        },
        Term::App(f, a) => {
            let df = lemma_term_sound(*f, g, env, d, fuel);
            let da = lemma_term_sound(*a, g, env, d, fuel);
            if term_value(*f, env, fuel) is Ok && term_value(*a, env, fuel) is Ok && fuel > 0 {
                let fv = term_value(*f, env, fuel)->Ok_0;
                let av = term_value(*a, env, fuel)->Ok_0;
                let ft = type_of(*f, g)->Ok_0;
                let at = type_of(*a, g)->Ok_0;
                lemma_base_values(fv, ft, df);
                match ft {
                    Type::Fun(input, output) => {
                        assert(*input == at);
                        match fv {
                            ValueView::Closure { param, body, env: cenv } => {
                                let cg = choose|cg: Map<Seq<char>, Type>|
                                    #![trigger type_of(body, cg.insert(param, *input))]
                                    type_of(body, cg.insert(param, *input)) == Ok::<Type, TypeError>(*output) && (
                                    forall|x: Seq<char>|
                                        #![trigger cg.contains_key(x)]
                                        cg.contains_key(x) ==> cenv.contains_key(x) && value_has_type(
                                            cenv[x],
                                            cg[x],
                                            (df - 1) as nat,
                                        ));
                                assert(env_has_types(cenv, cg, (df - 1) as nat));
                                let db = lemma_env_insert(cenv, cg, (df - 1) as nat, param, av, at, da);
                                lemma_term_sound(
                                    body,
                                    cg.insert(param, *input),
                                    cenv.insert(param, av),
                                    db,
                                    (fuel - 1) as nat,
                                )
                            },
                            ValueView::RecursiveClosure { name, param, body, env: cenv } => {
                                let cg = choose|cg: Map<Seq<char>, Type>|
                                    #![trigger type_of(body, cg.insert(name, ft).insert(param, *input))]
                                    type_of(body, cg.insert(name, ft).insert(param, *input)) == Ok::<
                                        Type,
                                        TypeError,
                                    >(*output) && (forall|x: Seq<char>|
                                        #![trigger cg.contains_key(x)]
                                        cg.contains_key(x) ==> cenv.contains_key(x) && value_has_type(
                                            cenv[x],
                                            cg[x],
                                            (df - 1) as nat,
                                        ));
                                assert(env_has_types(cenv, cg, (df - 1) as nat));
                                let d1 = lemma_env_insert(cenv, cg, (df - 1) as nat, name, fv, ft, df);
                                let db = lemma_env_insert(
                                    cenv.insert(name, fv),
                                    cg.insert(name, ft),
                                    d1,
                                    param,
                                    av,
                                    at,
                                    da,
                                );
                                lemma_term_sound(
                                    body,
                                    cg.insert(name, ft).insert(param, *input),
                                    cenv.insert(name, fv).insert(param, av),
                                    db,
                                    (fuel - 1) as nat,
                                )
                            },
                            _ => 0,
                        }
                    },
                    _ => 0,
                }
            } else {
                0
            }
        },
        Term::BinOp(l, op, r) => {
            let dl = lemma_term_sound(*l, g, env, d, fuel);
            let dr = lemma_term_sound(*r, g, env, d, fuel);
            if term_value(*l, env, fuel) is Ok && term_value(*r, env, fuel) is Ok {
                lemma_binop_sound(
                    op,
                    term_value(*l, env, fuel)->Ok_0,
                    type_of(*l, g)->Ok_0,
                    term_value(*r, env, fuel)->Ok_0,
                    type_of(*r, g)->Ok_0,
                    dl,
                    dr,
                );
            }
            0
        },
        Term::Not(v) => {
            let dv = lemma_term_sound(*v, g, env, d, fuel);
            if term_value(*v, env, fuel) is Ok {
                lemma_base_values(term_value(*v, env, fuel)->Ok_0, type_of(*v, g)->Ok_0, dv);
            }
            0
        },
        Term::If(c, a, b) => {
            let dc = lemma_term_sound(*c, g, env, d, fuel);
            if term_value(*c, env, fuel) is Ok {
                lemma_base_values(term_value(*c, env, fuel)->Ok_0, type_of(*c, g)->Ok_0, dc);
                if term_value(*c, env, fuel) == Ok::<ValueView, EvalError>(ValueView::Bool(true)) {
                    lemma_term_sound(*a, g, env, d, fuel)
                } else {
                    lemma_term_sound(*b, g, env, d, fuel)
                }
            } else {
                0
            }
        },
        Term::Let(x, v, b) => {
            let dv = lemma_term_sound(*v, g, env, d, fuel);
            if term_value(*v, env, fuel) is Ok {
                let vv = term_value(*v, env, fuel)->Ok_0;
                let vt = type_of(*v, g)->Ok_0;
                let d1 = lemma_env_insert(env, g, d, x@, vv, vt, dv);
                lemma_term_sound(*b, g.insert(x@, vt), env.insert(x@, vv), d1, fuel)
            } else {
                0
            }
        },
        Term::LetFun { name, param, param_type, return_type, body, in_term } => {
            let ft = Type::Fun(Box::new(param_type), Box::new(return_type));
            let rc = ValueView::RecursiveClosure { name: name@, param: param@, body: *body, env };
            assert(type_of(*body, g.insert(name@, ft).insert(param@, param_type)) == Ok::<Type, TypeError>(
                return_type,
            ));
            assert(env_has_types(env, g, ((d + 1) - 1) as nat));
            assert(value_has_type(rc, ft, d + 1));
            let d1 = lemma_env_insert(env, g, d, name@, rc, ft, d + 1);
            lemma_term_sound(*in_term, g.insert(name@, ft), env.insert(name@, rc), d1, fuel)
        },
    }
}

/// Well-typed terms do not go wrong: a term that has a type where the
/// variables have the types of `g`, evaluated in an environment whose values
/// have those types, gives a value of the term's type, or stops at an
/// arithmetic overflow or at the nesting limit; it never meets an undefined
/// variable, a non-function applied to an argument, a condition or `not`
/// operand that is not a Boolean, or operands of the wrong kinds.
pub proof fn lemma_well_typed_terms_do_not_go_wrong(
    t: Term,
    g: Map<Seq<char>, Type>,
    env: Map<Seq<char>, ValueView>,
    depth: nat,
    fuel: nat,
)
    requires
        type_of(t, g) is Ok,
        env_has_types(env, g, depth),
    ensures
        match term_value(t, env, fuel) {
            Ok(v) => exists|d: nat| value_has_type(v, type_of(t, g)->Ok_0, d),
            Err(e) => e is ArithmeticOverflow || e is OutOfFuel,
        },
{
    let d = lemma_term_sound(t, g, env, depth, fuel);
    if term_value(t, env, fuel) is Ok {
        assert(value_has_type(term_value(t, env, fuel)->Ok_0, type_of(t, g)->Ok_0, d));
    }
}

/// A closed term that has a type evaluates, from the empty environment, to a
/// value of that type, or stops at an arithmetic overflow or at the nesting
/// limit.
pub proof fn lemma_closed_terms_do_not_go_wrong(t: Term, fuel: nat)
    requires
        type_of(t, Map::empty()) is Ok,
    ensures
        match term_value(t, Map::empty(), fuel) {
            Ok(v) => exists|d: nat| value_has_type(v, type_of(t, Map::empty())->Ok_0, d),
            Err(e) => e is ArithmeticOverflow || e is OutOfFuel,
        },
{
    lemma_well_typed_terms_do_not_go_wrong(t, Map::empty(), Map::empty(), 0, fuel);
}

} // verus!
