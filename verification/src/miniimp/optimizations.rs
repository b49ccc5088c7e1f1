use vstd::prelude::*;
use crate::miniimp::ast::{aexpr_eq, bexpr_eq, same_aexpr, same_bexpr, AExpr, BExpr};
use crate::miniimp::cfg::{edge_targets, ends_only_at_exit, BasicBlock, BlockId, ControlFlowGraph, SimpleStatement};
use crate::miniimp::dataflow::{
    defined_sets, defined_var, defined_variables_analysis, is_least_live_solution,
    is_least_reaching_solution, live_sets, live_variables_analysis,
    reaching_definitions_analysis, reaching_sets, used_variables, uses, Definition, DefinitionSet,
    DefinitionView,
};
use crate::miniimp::sets::names_of;
use crate::miniimp::graph_runs::{lemma_defined_reads_never_fail, run_graph};
use crate::miniimp::runtime::RuntimeError;
use crate::miniimp::eval::{aexpr_value, apply_arith, arith, bexpr_value, ArithOp};
use crate::miniimp::sets::{sorted_names, VariableSet};
use crate::text::{chars_before, str_eq};
use crate::miniimp::pretty::{aexpr_text, statement_text, statement_to_string};

verus! {

/// A variable that a block reads although some path reaches the block
/// without assigning it.
#[derive(Debug, Clone, PartialEq, Eq)]
pub struct UndefinedVariable {
    pub variable: String,
    pub block: BlockId,
}

/// The variables that block `b` needs defined on entry: those its statement
/// reads, and the output at the exit block (it is read when the program ends).
pub open spec fn needed_vars(cfg: &ControlFlowGraph, b: int) -> Set<Seq<char>> {
    uses(cfg.spec_blocks()[b].statement).union(
        if b == cfg.exit {
            set![cfg.output@]
        } else {
            Set::empty()
        },
    )
}

/// Block `b` reads `x` although `x` is not surely defined on entry to it.
pub open spec fn possibly_undefined(cfg: &ControlFlowGraph, x: Seq<char>, b: int) -> bool {
    &&& 0 <= b < cfg.spec_blocks().len()
    &&& needed_vars(cfg, b).contains(x)
    &&& !defined_sets(cfg).0[b].contains(x)
}

/// `errors` reports `x` at block `b`.
pub open spec fn reported(errors: Seq<UndefinedVariable>, x: Seq<char>, b: int) -> bool {
    exists|i: int| 0 <= i < errors.len() && #[trigger] errors[i].variable@ == x && errors[i].block == b
}

/// `errors` reports each possibly undefined use exactly once, block by block,
/// and within a block in the order of the variables' characters.
pub open spec fn undefined_report(cfg: &ControlFlowGraph, errors: Seq<UndefinedVariable>) -> bool {
    &&& forall|i: int|
        0 <= i < errors.len() ==> possibly_undefined(
            cfg,
            (#[trigger] errors[i]).variable@,
            errors[i].block as int,
        )
    &&& forall|x: Seq<char>, b: int| possibly_undefined(cfg, x, b) ==> #[trigger] reported(errors, x, b)
    &&& forall|i: int, j: int|
        0 <= i < j < errors.len() ==> (#[trigger] errors[i]).block <= (#[trigger] errors[j]).block
    &&& forall|i: int, j: int|
        0 <= i < j < errors.len() && (#[trigger] errors[i]).block == (#[trigger] errors[j]).block
            ==> chars_before(errors[i].variable@, errors[j].variable@)
}

/// Checks that every variable a block reads is surely defined on entry to
/// it (the output counts as read at the exit block). `Ok` when none is
/// possibly undefined; else every such use, once, in the order of the blocks.
/// A graph that passes never stops on an undefined variable, on any input,
/// and where only its exit ends a run, a run that ends holds the output.
pub fn check_undefined_variables(cfg: &ControlFlowGraph) -> (r: Result<(), Vec<UndefinedVariable>>)
    requires
        cfg.wf(),
    ensures
        r is Ok <==> forall|x: Seq<char>, b: int| !possibly_undefined(cfg, x, b),
        r matches Err(errors) ==> errors@.len() > 0 && undefined_report(cfg, errors@),
        r is Ok ==> forall|input: i32, fuel: nat|
            !(#[trigger] run_graph(*cfg, input, fuel) matches Err(RuntimeError::UndefinedVariable(_))),
        r is Ok && ends_only_at_exit(*cfg) ==> forall|input: i32, fuel: nat|
            #[trigger] run_graph(*cfg, input, fuel) matches Ok(last) ==> last.contains_key(cfg.output@),
{
    let analysis = defined_variables_analysis(cfg);
    let blocks = cfg.blocks();
    let annotated = analysis.blocks();
    let mut errors: Vec<UndefinedVariable> = Vec::new();
    let mut b: usize = 0;
    while b < blocks.len()
        invariant
            cfg.wf(),
            blocks@ == cfg.spec_blocks(),
            annotated@ == analysis.spec_blocks(),
            annotated@.len() == blocks@.len(),
            forall|k: int| #![trigger annotated@[k]]
                0 <= k < blocks@.len() ==> annotated@[k].annotation.in_set@ == defined_sets(cfg).0[k],
            b <= blocks.len(),
            forall|i: int| 0 <= i < errors@.len() ==> (#[trigger] errors@[i]).block < b,
            forall|i: int|
                0 <= i < errors@.len() ==> possibly_undefined(
                    cfg,
                    (#[trigger] errors@[i]).variable@,
                    errors@[i].block as int,
                ),
            forall|x: Seq<char>, c: int|
                0 <= c < b && possibly_undefined(cfg, x, c) ==> #[trigger] reported(errors@, x, c),
            forall|i: int, j: int|
                0 <= i < j < errors@.len() ==> (#[trigger] errors@[i]).block <= (
                #[trigger] errors@[j]).block,
            forall|i: int, j: int|
                0 <= i < j < errors@.len() && (#[trigger] errors@[i]).block == (#[trigger] errors@[j]).block
                    ==> chars_before(errors@[i].variable@, errors@[j].variable@),
        decreases blocks.len() - b,
    {
        let mut needed = used_variables(&blocks[b].statement);
        if blocks[b].id == cfg.exit {
            needed.insert(cfg.output.clone());
        }
        let in_set = &annotated[b].annotation.in_set;
        let names = sorted_names(&needed);
        let ghost before = errors@;
        let mut here = VariableSet::new();
        let mut j: usize = 0;
        proof {
            assert(blocks@[b as int].id == b);
            assert(needed@ == needed_vars(cfg, b as int));
            assert(in_set@ == defined_sets(cfg).0[b as int]);
        }
        while j < names.len()
            invariant
                cfg.wf(),
                blocks@ == cfg.spec_blocks(),
                b < blocks@.len(),
                in_set@ == defined_sets(cfg).0[b as int],
                crate::miniimp::sets::names_of(names@) == needed_vars(cfg, b as int),
                j <= names.len(),
                errors@.len() >= before.len(),
                forall|i: int| 0 <= i < before.len() ==> errors@[i] == before[i],
                forall|i: int| 0 <= i < before.len() ==> (#[trigger] before[i]).block < b,
                forall|i: int|
                    before.len() <= i < errors@.len() ==> (#[trigger] errors@[i]).block == b
                        && here@.contains(errors@[i].variable@),
                forall|x: Seq<char>| #[trigger] here@.contains(x) ==> reported(errors@, x, b as int),
                forall|x: Seq<char>, c: int|
                    0 <= c < b && possibly_undefined(cfg, x, c) ==> #[trigger] reported(before, x, c),
                forall|i: int|
                    0 <= i < errors@.len() ==> possibly_undefined(
                        cfg,
                        (#[trigger] errors@[i]).variable@,
                        errors@[i].block as int,
                    ),
                forall|k: int|
                    0 <= k < j && !in_set@.contains((#[trigger] names@[k])@) ==> here@.contains(
                        names@[k]@,
                    ),
                forall|i: int, k: int|
                    0 <= i < k < errors@.len() ==> (#[trigger] errors@[i]).block <= (
                    #[trigger] errors@[k]).block,
                forall|a: int, c: int|
                    0 <= a < c < names@.len() ==> chars_before((#[trigger] names@[a])@, (#[trigger] names@[c])@),
                forall|i: int|
                    before.len() <= i < errors@.len() ==> exists|k: int|
                        0 <= k < j && #[trigger] names@[k]@ == (#[trigger] errors@[i]).variable@,
                forall|i: int, k: int|
                    0 <= i < k < errors@.len() && (#[trigger] errors@[i]).block == (#[trigger] errors@[k]).block
                        ==> chars_before(errors@[i].variable@, errors@[k].variable@),
            decreases names.len() - j,
        {
            let name = &names[j];
            proof {
                assert(crate::miniimp::sets::names_of(names@).contains(names@[j as int]@));
            }
            if !in_set.contains(name) && !here.contains(name) {
                let ghost prev = errors@;
                let ghost prev_here = here@;
                here.insert(name.clone());
                errors.push(UndefinedVariable { variable: name.clone(), block: b });
                proof {
                    assert(errors@[prev.len() as int].variable@ == name@);
                    assert forall|x: Seq<char>| #[trigger] here@.contains(x) implies reported(
                        errors@,
                        x,
                        b as int,
                    ) by {
                        if x == name@ {
                            assert(errors@[prev.len() as int].variable@ == x);
                        } else {
                            assert(prev_here.contains(x));
                            assert(reported(prev, x, b as int));
                            let i = choose|i: int|
                                0 <= i < prev.len() && #[trigger] prev[i].variable@ == x
                                    && prev[i].block == b;
                            assert(errors@[i] == prev[i]);
                        }
                    }
                    assert forall|i: int|
                        before.len() <= i < errors@.len() implies exists|k: int|
                            0 <= k < j + 1 && #[trigger] names@[k]@ == (#[trigger] errors@[i]).variable@ by {
                        if i < prev.len() {
                            assert(errors@[i] == prev[i]);
                        } else {
                            assert(names@[j as int]@ == errors@[i].variable@);
                        }
                    }
                    assert forall|i: int, k: int|
                        0 <= i < k < errors@.len() && (#[trigger] errors@[i]).block == (#[trigger] errors@[k]).block
                            implies chars_before(errors@[i].variable@, errors@[k].variable@) by {
                        if k == prev.len() && i < before.len() {
                            assert(errors@[i] == before[i]);
                            assert(before[i].block < b);
                        } else if k == prev.len() {
                            assert(errors@[i] == prev[i]);
                            let m = choose|m: int| 0 <= m < j && #[trigger] names@[m]@ == prev[i].variable@;
                            assert(chars_before(names@[m]@, names@[j as int]@));
                        } else {
                            assert(errors@[i] == prev[i]);
                            assert(errors@[k] == prev[k]);
                        }
                    }
                    assert forall|i: int, k: int|
                        0 <= i < k < errors@.len() implies (#[trigger] errors@[i]).block <= (
                        #[trigger] errors@[k]).block by {
                        if k == prev.len() && i < before.len() {
                            assert(errors@[i] == before[i]);
                            assert(before[i].block < b);
                        } else if k == prev.len() {
                            assert(errors@[i] == prev[i]);
                        } else {
                            assert(errors@[i] == prev[i]);
                            assert(errors@[k] == prev[k]);
                        }
                    }
                }
            }
            j = j + 1;
        }
        proof {
            assert forall|i: int| 0 <= i < errors@.len() implies (#[trigger] errors@[i]).block <= b by {
                if i < before.len() {
                    assert(errors@[i] == before[i]);
                }
            }
            assert forall|x: Seq<char>, c: int|
                0 <= c <= b && possibly_undefined(cfg, x, c) implies #[trigger] reported(
                errors@,
                x,
                c,
            ) by {
                if c < b {
                    assert(reported(before, x, c));
                    let i = choose|i: int|
                        0 <= i < before.len() && #[trigger] before[i].variable@ == x && before[i].block
                            == c;
                    assert(errors@[i] == before[i]);
                } else {
                    let k = choose|k: int| 0 <= k < names@.len() && #[trigger] names@[k]@ == x;
                    assert(here@.contains(names@[k]@));
                }
            }
        }
        b = b + 1;
    }
    if errors.len() == 0 {
        proof {
            assert forall|x: Seq<char>, c: int| !possibly_undefined(cfg, x, c) by {
                if possibly_undefined(cfg, x, c) {
                    assert(reported(errors@, x, c));
                }
            }
            let (ins, outs) = defined_sets(cfg);
            assert forall|k: int|
                #![trigger cfg.spec_blocks()[k]]
                0 <= k < cfg.spec_blocks().len() implies uses(cfg.spec_blocks()[k].statement).subset_of(ins[k]) by {
                assert forall|x: Seq<char>| uses(cfg.spec_blocks()[k].statement).contains(x) implies ins[k].contains(x) by {
                    assert(!possibly_undefined(cfg, x, k));
                    assert(needed_vars(cfg, k).contains(x));
                }
            }
            if ends_only_at_exit(*cfg) {
                assert forall|k: int|
                    #![trigger cfg.spec_blocks()[k]]
                    0 <= k < cfg.spec_blocks().len() && cfg.spec_blocks()[k].outgoing is End implies ins[k].contains(
                        cfg.output@,
                    ) by {
                    assert(!possibly_undefined(cfg, cfg.output@, k));
                    assert(needed_vars(cfg, k).contains(cfg.output@));
                }
            }
            assert forall|input: i32, fuel: nat|
                !(#[trigger] run_graph(*cfg, input, fuel) matches Err(RuntimeError::UndefinedVariable(_)))
                    && (ends_only_at_exit(*cfg) ==> (run_graph(*cfg, input, fuel) matches Ok(last)
                    ==> last.contains_key(cfg.output@))) by {
                lemma_defined_reads_never_fail(*cfg, ins, outs, input, fuel);
            }
        }
        Ok(())
    } else {
        proof {
            assert(possibly_undefined(cfg, errors@[0].variable@, errors@[0].block as int));
        }
        Err(errors)
    }
}

/// An arithmetic node over two operands.
pub open spec fn arith_node(op: ArithOp, l: AExpr, r: AExpr) -> AExpr {
    match op {
        ArithOp::Add => AExpr::Add(Box::new(l), Box::new(r)),
        ArithOp::Sub => AExpr::Sub(Box::new(l), Box::new(r)),
        ArithOp::Mul => AExpr::Mul(Box::new(l), Box::new(r)),
    }
}

/// An operation on two folded operands: a constant when both are constants
/// and the result fits in an `i32`, else the operation itself.
pub open spec fn fold_op(op: ArithOp, l: AExpr, r: AExpr) -> AExpr {
    match l {
        AExpr::Int(a) => match r {
            AExpr::Int(b) => if i32::MIN <= apply_arith(op, a as int, b as int) <= i32::MAX {
                AExpr::Int(apply_arith(op, a as int, b as int) as i32)
            } else {
                arith_node(op, l, r)
            },
            _ => arith_node(op, l, r),
        },
        _ => arith_node(op, l, r),
    }
}

/// Constant folding of an arithmetic expression, bottom up.
pub open spec fn fold_a(e: AExpr) -> AExpr
    decreases e,
{
    match e {
        AExpr::Var(x) => AExpr::Var(x),
        AExpr::Int(n) => AExpr::Int(n),
        AExpr::Add(l, r) => fold_op(ArithOp::Add, fold_a(*l), fold_a(*r)),
        AExpr::Sub(l, r) => fold_op(ArithOp::Sub, fold_a(*l), fold_a(*r)),
        AExpr::Mul(l, r) => fold_op(ArithOp::Mul, fold_a(*l), fold_a(*r)),
    }
}

/// A conjunction of two folded operands: `false` when either is `false`,
/// the other operand when one is `true`.
pub open spec fn fold_and(l: BExpr, r: BExpr) -> BExpr {
    if l is False || r is False {
        BExpr::False
    } else if l is True {
        r
    } else if r is True {
        l
    } else {
        BExpr::And(Box::new(l), Box::new(r))
    }
}

/// A negation of a folded operand.
pub open spec fn fold_not(v: BExpr) -> BExpr {
    match v {
        BExpr::True => BExpr::False,
        BExpr::False => BExpr::True,
        _ => BExpr::Not(Box::new(v)),
    }
}

/// A comparison of two folded operands: decided when both are constants.
pub open spec fn fold_less(l: AExpr, r: AExpr) -> BExpr {
    match l {
        AExpr::Int(a) => match r {
            AExpr::Int(b) => if a < b {
                BExpr::True
            } else {
                BExpr::False
            },
            _ => BExpr::Less(Box::new(l), Box::new(r)),
        },
        _ => BExpr::Less(Box::new(l), Box::new(r)),
    }
}

/// Constant folding of a Boolean expression, bottom up.
pub open spec fn fold_b(e: BExpr) -> BExpr
    decreases e,
{
    match e {
        BExpr::True => BExpr::True,
        BExpr::False => BExpr::False,
        BExpr::And(l, r) => fold_and(fold_b(*l), fold_b(*r)),
        BExpr::Not(v) => fold_not(fold_b(*v)),
        BExpr::Less(l, r) => fold_less(fold_a(*l), fold_a(*r)),
    }
}

/// Constant folding of a statement's expression.
pub open spec fn fold_statement(s: SimpleStatement) -> SimpleStatement {
    match s {
        SimpleStatement::Skip => SimpleStatement::Skip,
        SimpleStatement::Assign(x, e) => SimpleStatement::Assign(x, fold_a(e)),
        SimpleStatement::Guard(g) => SimpleStatement::Guard(fold_b(g)),
    }
}

/// Two statements that print the same text; a pass reports a change where
/// a statement's text changed.
pub open spec fn same_statement(a: SimpleStatement, b: SimpleStatement) -> bool {
    statement_text(a) == statement_text(b)
}

/// A block with another statement.
pub open spec fn with_statement(b: BasicBlock, s: SimpleStatement) -> BasicBlock {
    BasicBlock { id: b.id, statement: s, outgoing: b.outgoing }
}

/// `after` is `before` with the statement of each block `k` replaced by
/// `f(k, statement)`, and `changed` says whether some statement differs.
pub open spec fn rewritten(
    before: ControlFlowGraph,
    after: ControlFlowGraph,
    f: spec_fn(int, SimpleStatement) -> SimpleStatement,
    changed: bool,
) -> bool {
    &&& after.input == before.input
    &&& after.output == before.output
    &&& after.entry == before.entry
    &&& after.exit == before.exit
    &&& after.spec_blocks().len() == before.spec_blocks().len()
    &&& forall|k: int|
        0 <= k < before.spec_blocks().len() ==> #[trigger] after.spec_blocks()[k] == with_statement(
            before.spec_blocks()[k],
            f(k, before.spec_blocks()[k].statement),
        )
    &&& changed == exists|k: int|
        0 <= k < before.spec_blocks().len() && !same_statement(
            f(k, before.spec_blocks()[k].statement),
            #[trigger] before.spec_blocks()[k].statement,
        )
}

/// Rewriting statements keeps a graph well formed when the exit stays a
/// `skip`.
pub proof fn lemma_rewritten_wf(
    before: ControlFlowGraph,
    after: ControlFlowGraph,
    f: spec_fn(int, SimpleStatement) -> SimpleStatement,
    changed: bool,
)
    requires
        before.wf(),
        rewritten(before, after, f, changed),
        f(before.exit as int, SimpleStatement::Skip) is Skip,
    ensures
        after.wf(),
{
    let bs = before.spec_blocks();
    let cs = after.spec_blocks();
    assert(cs[before.exit as int] == with_statement(bs[before.exit as int], f(before.exit as int, bs[before.exit as int].statement)));
    assert forall|i: int| #![trigger cs[i]] 0 <= i < cs.len() implies cs[i].id == i by {
        assert(cs[i] == with_statement(bs[i], f(i, bs[i].statement)));
        assert(bs[i].id == i);
    }
    assert forall|i: int, j: int|
        #![trigger edge_targets(cs[i].outgoing)[j]]
        0 <= i < cs.len() && 0 <= j < edge_targets(cs[i].outgoing).len()
            implies edge_targets(cs[i].outgoing)[j] < cs.len() by {
        assert(cs[i] == with_statement(bs[i], f(i, bs[i].statement)));
        assert(edge_targets(bs[i].outgoing)[j] < bs.len());
    }
}

/// Folding keeps the value of an arithmetic expression in every memory,
/// errors included: an operation whose constant result would not fit in an
/// `i32` stays unfolded.
pub proof fn lemma_fold_aexpr_preserves_value(e: AExpr, m: Map<Seq<char>, i32>)
    ensures
        aexpr_value(fold_a(e), m) == aexpr_value(e, m),
    decreases e,
{
    match e {
        AExpr::Add(l, r) => {
            lemma_fold_aexpr_preserves_value(*l, m);
            lemma_fold_aexpr_preserves_value(*r, m);
        },
        AExpr::Sub(l, r) => {
            lemma_fold_aexpr_preserves_value(*l, m);
            lemma_fold_aexpr_preserves_value(*r, m);
        },
        AExpr::Mul(l, r) => {
            lemma_fold_aexpr_preserves_value(*l, m);
            lemma_fold_aexpr_preserves_value(*r, m);
        },
        _ => {},
    }
}

/// Folding keeps the value of a Boolean expression in every memory where
/// the expression evaluates without error.
pub proof fn lemma_fold_bexpr_preserves_value(e: BExpr, m: Map<Seq<char>, i32>)
    requires
        bexpr_value(e, m) is Ok,
    ensures
        bexpr_value(fold_b(e), m) == bexpr_value(e, m),
    decreases e,
{
    match e {
        BExpr::And(l, r) => {
            lemma_fold_bexpr_preserves_value(*l, m);
            if bexpr_value(*l, m) == Ok::<bool, crate::miniimp::runtime::RuntimeError>(true) {
                lemma_fold_bexpr_preserves_value(*r, m);
            }
        },
        BExpr::Not(v) => {
            lemma_fold_bexpr_preserves_value(*v, m);
        },
        BExpr::Less(l, r) => {
            lemma_fold_aexpr_preserves_value(*l, m);
            lemma_fold_aexpr_preserves_value(*r, m);
        },
        _ => {},
    }
}

fn fold_binary(op: ArithOp, l: AExpr, r: AExpr) -> (res: AExpr)
    ensures
        res == fold_op(op, l, r),
{
    if let AExpr::Int(a) = &l {
        if let AExpr::Int(b) = &r {
            if let Ok(v) = arith(op, *a, *b) {
                return AExpr::Int(v);
            }
        }
    }
    match op {
        ArithOp::Add => AExpr::Add(Box::new(l), Box::new(r)),
        ArithOp::Sub => AExpr::Sub(Box::new(l), Box::new(r)),
        ArithOp::Mul => AExpr::Mul(Box::new(l), Box::new(r)),
    }
}

/// Constant folding of an arithmetic expression.
fn fold_aexpr(e: &AExpr) -> (r: AExpr)
    ensures
        r == fold_a(*e),
    decreases e,
{
    match e {
        AExpr::Var(x) => AExpr::Var(x.clone()),
        AExpr::Int(n) => AExpr::Int(*n),
        AExpr::Add(l, r) => fold_binary(ArithOp::Add, fold_aexpr(l), fold_aexpr(r)),
        AExpr::Sub(l, r) => fold_binary(ArithOp::Sub, fold_aexpr(l), fold_aexpr(r)),
        AExpr::Mul(l, r) => fold_binary(ArithOp::Mul, fold_aexpr(l), fold_aexpr(r)),
    }
}

/// Constant folding of a Boolean expression.
fn fold_bexpr(e: &BExpr) -> (r: BExpr)
    ensures
        r == fold_b(*e),
    decreases e,
{
    match e {
        BExpr::True => BExpr::True,
        BExpr::False => BExpr::False,
        BExpr::And(l, r) => {
            let l = fold_bexpr(l);
            let r = fold_bexpr(r);
            if matches!(l, BExpr::False) || matches!(r, BExpr::False) {
                BExpr::False
            } else if matches!(l, BExpr::True) {
                r
            } else if matches!(r, BExpr::True) {
                l
            } else {
                BExpr::And(Box::new(l), Box::new(r))
            }
        },
        BExpr::Not(v) => {
            let v = fold_bexpr(v);
            match v {
                BExpr::True => BExpr::False,
                BExpr::False => BExpr::True,
                _ => BExpr::Not(Box::new(v)),
            }
        },
        BExpr::Less(l, r) => {
            let l = fold_aexpr(l);
            let r = fold_aexpr(r);
            if let AExpr::Int(a) = &l {
                if let AExpr::Int(b) = &r {
                    return if *a < *b {
                        BExpr::True
                    } else {
                        BExpr::False
                    };
                }
            }
            BExpr::Less(Box::new(l), Box::new(r))
        },
    }
}

/// Decides `same_statement`.
fn statement_eq(a: &SimpleStatement, b: &SimpleStatement) -> (r: bool)
    ensures
        r == same_statement(*a, *b),
{
    let x = statement_to_string(a);
    let y = statement_to_string(b);
    str_eq(x.as_str(), y.as_str())
}

/// Constant folding on every block; returns whether the text of some
/// statement changed.
pub fn constant_folding(cfg: &mut ControlFlowGraph) -> (changed: bool)
    ensures
        rewritten(*old(cfg), *final(cfg), folding_rule(), changed),
{
    let ghost before = *cfg;
    let n = cfg.blocks().len();
    let mut changed = false;
    let mut b: usize = 0;
    while b < n
        invariant
            n == before.spec_blocks().len(),
            b <= n,
            cfg.input == before.input,
            cfg.output == before.output,
            cfg.entry == before.entry,
            cfg.exit == before.exit,
            cfg.spec_blocks().len() == n,
            forall|k: int|
                0 <= k < b ==> #[trigger] cfg.spec_blocks()[k] == with_statement(
                    before.spec_blocks()[k],
                    fold_statement(before.spec_blocks()[k].statement),
                ),
            forall|k: int| b <= k < n ==> #[trigger] cfg.spec_blocks()[k] == before.spec_blocks()[k],
            changed == exists|k: int|
                0 <= k < b && !same_statement(
                    fold_statement(before.spec_blocks()[k].statement),
                    #[trigger] before.spec_blocks()[k].statement,
                ),
        decreases n - b,
    {
        assert(cfg.spec_blocks()[b as int] == before.spec_blocks()[b as int]);
        let statement = match &cfg.blocks()[b].statement {
            SimpleStatement::Skip => SimpleStatement::Skip,
            SimpleStatement::Assign(x, e) => SimpleStatement::Assign(x.clone(), fold_aexpr(e)),
            SimpleStatement::Guard(g) => SimpleStatement::Guard(fold_bexpr(g)),
        };
        let ghost old_statement = before.spec_blocks()[b as int].statement;
        assert(statement == fold_statement(old_statement));
        if !statement_eq(&statement, &cfg.blocks()[b].statement) {
            changed = true;
        }
        let ghost was_changed = changed;
        cfg.set_statement(b, statement);
        b = b + 1;
        assert(changed == exists|k: int|
            0 <= k < b && !same_statement(
                fold_statement(before.spec_blocks()[k].statement),
                #[trigger] before.spec_blocks()[k].statement,
            )) by {
            if !same_statement(fold_statement(old_statement), old_statement) {
                assert(!same_statement(
                    fold_statement(before.spec_blocks()[b - 1].statement),
                    before.spec_blocks()[b - 1].statement,
                ));
            }
        }
    }
    changed
}

/// The statements of a graph's blocks, in order.
pub open spec fn statements_of(cfg: ControlFlowGraph) -> Seq<SimpleStatement> {
    cfg.spec_blocks().map_values(|b: BasicBlock| b.statement)
}

/// Definition `d` is an assignment whose block, in `statements`, assigns the
/// constant `v`.
pub open spec fn assigns_constant(statements: Seq<SimpleStatement>, d: DefinitionView, v: i32) -> bool {
    match d {
        DefinitionView::Input(_) => false,
        DefinitionView::Assignment(_, b) => b < statements.len() && (
        statements[b as int] matches SimpleStatement::Assign(_, AExpr::Int(w)) && w == v),
    }
}

/// Some definition of `x` is among `defs`.
pub open spec fn defines(defs: Set<DefinitionView>, x: Seq<char>) -> bool {
    exists|d: DefinitionView| #[trigger] defs.contains(d) && defined_var(d) == x
}

/// Every definition of `x` among `defs` assigns the constant `v`.
pub open spec fn all_assign(
    statements: Seq<SimpleStatement>,
    defs: Set<DefinitionView>,
    x: Seq<char>,
    v: i32,
) -> bool {
    forall|d: DefinitionView| #[trigger] defs.contains(d) && defined_var(d) == x ==> assigns_constant(statements, d, v)
}

/// The constant that `x` holds wherever the definitions `defs` reach: some
/// definition of `x` reaches, and all of them assign that same constant.
pub open spec fn constant_of(statements: Seq<SimpleStatement>, defs: Set<DefinitionView>, x: Seq<char>) -> Option<i32> {
    if defines(defs, x) && exists|v: i32| all_assign(statements, defs, x, v) {
        Some(choose|v: i32| all_assign(statements, defs, x, v))
    } else {
        None
    }
}

/// Each variable of an arithmetic expression replaced by its constant,
/// where it has one.
pub open spec fn propagate_a(e: AExpr, statements: Seq<SimpleStatement>, defs: Set<DefinitionView>) -> AExpr
    decreases e,
{
    match e {
        AExpr::Var(x) => match constant_of(statements, defs, x@) {
            Some(v) => AExpr::Int(v),
            None => AExpr::Var(x),
        },
        AExpr::Int(n) => AExpr::Int(n),
        AExpr::Add(l, r) => AExpr::Add(
            Box::new(propagate_a(*l, statements, defs)),
            Box::new(propagate_a(*r, statements, defs)),
        ),
        AExpr::Sub(l, r) => AExpr::Sub(
            Box::new(propagate_a(*l, statements, defs)),
            Box::new(propagate_a(*r, statements, defs)),
        ),
        AExpr::Mul(l, r) => AExpr::Mul(
            Box::new(propagate_a(*l, statements, defs)),
            Box::new(propagate_a(*r, statements, defs)),
        ),
    }
}

/// Each variable of a Boolean expression replaced by its constant, where it
/// has one.
pub open spec fn propagate_b(e: BExpr, statements: Seq<SimpleStatement>, defs: Set<DefinitionView>) -> BExpr
    decreases e,
{
    match e {
        BExpr::True => BExpr::True,
        BExpr::False => BExpr::False,
        BExpr::And(l, r) => BExpr::And(
            Box::new(propagate_b(*l, statements, defs)),
            Box::new(propagate_b(*r, statements, defs)),
        ),
        BExpr::Not(v) => BExpr::Not(Box::new(propagate_b(*v, statements, defs))),
        BExpr::Less(l, r) => BExpr::Less(
            Box::new(propagate_a(*l, statements, defs)),
            Box::new(propagate_a(*r, statements, defs)),
        ),
    }
}

/// Constant propagation into a statement's expression.
pub open spec fn propagate_statement(
    s: SimpleStatement,
    statements: Seq<SimpleStatement>,
    defs: Set<DefinitionView>,
) -> SimpleStatement {
    match s {
        SimpleStatement::Skip => SimpleStatement::Skip,
        SimpleStatement::Assign(x, e) => SimpleStatement::Assign(x, propagate_a(e, statements, defs)),
        SimpleStatement::Guard(g) => SimpleStatement::Guard(propagate_b(g, statements, defs)),
    }
}

/// The constant that every definition of `variable` among `definitions`
/// assigns, if they agree and there is one.
fn constant_value(
    variable: &String,
    definitions: &DefinitionSet,
    statements: &Vec<SimpleStatement>,
) -> (r: Option<i32>)
    ensures
        r == constant_of(statements@, definitions@, variable@),
{
    let items = definitions.to_vec();
    let ghost x = variable@;
    let ghost st = statements@;
    let mut result: Option<i32> = None;
    let mut i: usize = 0;
    while i < items.len()
        invariant
            names_of(items@) == definitions@,
            st == statements@,
            x == variable@,
            i <= items.len(),
            result matches Some(v) ==> (forall|k: int|
                0 <= k < i && defined_var((#[trigger] items@[k])@) == x ==> assigns_constant(
                    st,
                    items@[k]@,
                    v,
                )) && (exists|k: int| 0 <= k < i && defined_var((#[trigger] items@[k])@) == x),
            result is None ==> forall|k: int| 0 <= k < i ==> defined_var((#[trigger] items@[k])@) != x,
        decreases items.len() - i,
    {
        let d = &items[i];
        proof {
            assert(names_of(items@).contains(items@[i as int]@));
        }
        if crate::text::str_eq(d.variable(), variable.as_str()) {
            let value = match d {
                Definition::Input(_) => {
                    proof {
                        assert forall|v: i32| !all_assign(st, definitions@, x, v) by {
                            assert(definitions@.contains(items@[i as int]@));
                        }
                    }
                    return None;
                },
                Definition::Assignment { block, .. } => {
                    let block = *block;
                    let constant = if block < statements.len() {
                        match &statements[block] {
                            SimpleStatement::Assign(_, AExpr::Int(w)) => Some(*w),
                            _ => None,
                        }
                    } else {
                        None
                    };
                    match constant {
                        Some(w) => w,
                        None => {
                            proof {
                                assert forall|v: i32| !all_assign(st, definitions@, x, v) by {
                                    assert(definitions@.contains(items@[i as int]@));
                                }
                            }
                            return None;
                        },
                    }
                },
            };
            proof {
                assert(assigns_constant(st, items@[i as int]@, value));
            }
            match result {
                None => {
                    result = Some(value);
                },
                Some(previous) => {
                    if previous != value {
                        proof {
                            let k = choose|k: int|
                                0 <= k < i && defined_var((#[trigger] items@[k])@) == x;
                            assert forall|v: i32| !all_assign(st, definitions@, x, v) by {
                                assert(definitions@.contains(items@[i as int]@));
                                assert(definitions@.contains(items@[k]@));
                                assert(assigns_constant(st, items@[k]@, previous));
                            }
                        }
                        return None;
                    }
                },
            }
        }
        i = i + 1;
    }
    proof {
        match result {
            Some(v) => {
                assert(all_assign(st, definitions@, x, v)) by {
                    assert forall|d: DefinitionView| #[trigger] definitions@.contains(d) && defined_var(d) == x
                        implies assigns_constant(st, d, v) by {
                        let k = choose|k: int| 0 <= k < items@.len() && #[trigger] items@[k]@ == d;
                    }
                }
                let k = choose|k: int| 0 <= k < i && defined_var((#[trigger] items@[k])@) == x;
                assert(definitions@.contains(items@[k]@));
                assert(defines(definitions@, x));
                let w = choose|w: i32| all_assign(st, definitions@, x, w);
                assert(assigns_constant(st, items@[k]@, w));
            },
            None => {
                assert(!defines(definitions@, x)) by {
                    if defines(definitions@, x) {
                        let d = choose|d: DefinitionView| #[trigger] definitions@.contains(d) && defined_var(d) == x;
                        let k = choose|k: int| 0 <= k < items@.len() && #[trigger] items@[k]@ == d;
                    }
                }
            },
        }
    }
    result
}

fn propagate_aexpr(e: &AExpr, definitions: &DefinitionSet, statements: &Vec<SimpleStatement>) -> (r: AExpr)
    ensures
        r == propagate_a(*e, statements@, definitions@),
    decreases e,
{
    match e {
        AExpr::Var(x) => match constant_value(x, definitions, statements) {
            Some(v) => AExpr::Int(v),
            None => AExpr::Var(x.clone()),
        },
        AExpr::Int(n) => AExpr::Int(*n),
        AExpr::Add(l, r) => AExpr::Add(
            Box::new(propagate_aexpr(l, definitions, statements)),
            Box::new(propagate_aexpr(r, definitions, statements)),
        ),
        AExpr::Sub(l, r) => AExpr::Sub(
            Box::new(propagate_aexpr(l, definitions, statements)),
            Box::new(propagate_aexpr(r, definitions, statements)),
        ),
        AExpr::Mul(l, r) => AExpr::Mul(
            Box::new(propagate_aexpr(l, definitions, statements)),
            Box::new(propagate_aexpr(r, definitions, statements)),
        ),
    }
}

fn propagate_bexpr(e: &BExpr, definitions: &DefinitionSet, statements: &Vec<SimpleStatement>) -> (r: BExpr)
    ensures
        r == propagate_b(*e, statements@, definitions@),
    decreases e,
{
    match e {
        BExpr::True => BExpr::True,
        BExpr::False => BExpr::False,
        BExpr::And(l, r) => BExpr::And(
            Box::new(propagate_bexpr(l, definitions, statements)),
            Box::new(propagate_bexpr(r, definitions, statements)),
        ),
        BExpr::Not(v) => BExpr::Not(Box::new(propagate_bexpr(v, definitions, statements))),
        BExpr::Less(l, r) => BExpr::Less(
            Box::new(propagate_aexpr(l, definitions, statements)),
            Box::new(propagate_aexpr(r, definitions, statements)),
        ),
    }
}

/// Constant propagation on every block: a variable whose reaching
/// definitions all assign one same constant is replaced by it. Returns
/// whether the text of some statement changed.
pub fn constant_propagation(cfg: &mut ControlFlowGraph) -> (changed: bool)
    requires
        old(cfg).wf(),
    ensures
        rewritten(*old(cfg), *final(cfg), propagation_rule(*old(cfg)), changed),
        is_least_reaching_solution(&*old(cfg), reaching_sets(&*old(cfg)).0, reaching_sets(&*old(cfg)).1),
{
    let ghost before = *cfg;
    let reaching = reaching_definitions_analysis(cfg);
    let n = cfg.blocks().len();
    let mut statements: Vec<SimpleStatement> = Vec::new();
    let mut b: usize = 0;
    while b < n
        invariant
            n == before.spec_blocks().len(),
            *cfg == before,
            b <= n,
            statements@.len() == b,
            forall|k: int| 0 <= k < b ==> #[trigger] statements@[k] == statements_of(before)[k],
        decreases n - b,
    {
        statements.push(crate::miniimp::cfg::copy_statement(&cfg.blocks()[b].statement));
        b = b + 1;
    }
    assert(statements@ =~= statements_of(before));
    let annotated = reaching.blocks();
    let mut changed = false;
    let mut b: usize = 0;
    while b < n
        invariant
            n == before.spec_blocks().len(),
            statements@ == statements_of(before),
            annotated@ == reaching.spec_blocks(),
            annotated@.len() == n,
            forall|k: int| #![trigger annotated@[k]]
                0 <= k < n ==> annotated@[k].annotation.in_set@ == reaching_sets(&before).0[k],
            b <= n,
            cfg.input == before.input,
            cfg.output == before.output,
            cfg.entry == before.entry,
            cfg.exit == before.exit,
            cfg.spec_blocks().len() == n,
            forall|k: int|
                0 <= k < b ==> #[trigger] cfg.spec_blocks()[k] == with_statement(
                    before.spec_blocks()[k],
                    propagate_statement(before.spec_blocks()[k].statement, statements_of(before), reaching_sets(&before).0[k]),
                ),
            forall|k: int| b <= k < n ==> #[trigger] cfg.spec_blocks()[k] == before.spec_blocks()[k],
            changed == exists|k: int|
                0 <= k < b && !same_statement(
                    propagate_statement(before.spec_blocks()[k].statement, statements_of(before), reaching_sets(&before).0[k]),
                    #[trigger] before.spec_blocks()[k].statement,
                ),
        decreases n - b,
    {
        assert(cfg.spec_blocks()[b as int] == before.spec_blocks()[b as int]);
        let definitions = &annotated[b].annotation.in_set;
        let statement = match &cfg.blocks()[b].statement {
            SimpleStatement::Skip => SimpleStatement::Skip,
            SimpleStatement::Assign(x, e) => SimpleStatement::Assign(
                x.clone(),
                propagate_aexpr(e, definitions, &statements),
            ),
            SimpleStatement::Guard(g) => SimpleStatement::Guard(propagate_bexpr(g, definitions, &statements)),
        };
        let ghost old_statement = before.spec_blocks()[b as int].statement;
        let ghost defs = reaching_sets(&before).0[b as int];
        assert(statement == propagate_statement(old_statement, statements_of(before), defs));
        if !statement_eq(&statement, &cfg.blocks()[b].statement) {
            changed = true;
        }
        cfg.set_statement(b, statement);
        b = b + 1;
        assert(changed == exists|k: int|
            0 <= k < b && !same_statement(
                propagate_statement(before.spec_blocks()[k].statement, statements_of(before), reaching_sets(&before).0[k]),
                #[trigger] before.spec_blocks()[k].statement,
            )) by {
            if !same_statement(propagate_statement(old_statement, statements_of(before), defs), old_statement) {
                assert(!same_statement(
                    propagate_statement(before.spec_blocks()[b - 1].statement, statements_of(before), reaching_sets(&before).0[b - 1]),
                    before.spec_blocks()[b - 1].statement,
                ));
            }
        }
    }
    changed
}

/// Dead-store elimination of one statement: an assignment to a variable
/// that is not live after it becomes `skip`.
pub open spec fn eliminate_statement(s: SimpleStatement, live_after: Set<Seq<char>>) -> SimpleStatement {
    match s {
        SimpleStatement::Assign(x, _) => if live_after.contains(x@) {
            s
        } else {
            SimpleStatement::Skip
        },
        _ => s,
    }
}

/// Dead-store elimination on every block: an assignment whose variable is
/// not live after it becomes `skip`; blocks and edges stay. Returns whether
/// some statement changed.
pub fn dead_store_elimination(cfg: &mut ControlFlowGraph) -> (changed: bool)
    requires
        old(cfg).wf(),
    ensures
        rewritten(*old(cfg), *final(cfg), elimination_rule(*old(cfg)), changed),
        is_least_live_solution(&*old(cfg), live_sets(&*old(cfg)).0, live_sets(&*old(cfg)).1),
{
    let ghost before = *cfg;
    let live = live_variables_analysis(cfg);
    let annotated = live.blocks();
    let n = cfg.blocks().len();
    let mut changed = false;
    let mut b: usize = 0;
    while b < n
        invariant
            n == before.spec_blocks().len(),
            annotated@ == live.spec_blocks(),
            annotated@.len() == n,
            forall|k: int| #![trigger annotated@[k]]
                0 <= k < n ==> annotated@[k].annotation.out_set@ == live_sets(&before).1[k],
            b <= n,
            cfg.input == before.input,
            cfg.output == before.output,
            cfg.entry == before.entry,
            cfg.exit == before.exit,
            cfg.spec_blocks().len() == n,
            forall|k: int|
                0 <= k < b ==> #[trigger] cfg.spec_blocks()[k] == with_statement(
                    before.spec_blocks()[k],
                    eliminate_statement(before.spec_blocks()[k].statement, live_sets(&before).1[k]),
                ),
            forall|k: int| b <= k < n ==> #[trigger] cfg.spec_blocks()[k] == before.spec_blocks()[k],
            changed == exists|k: int|
                0 <= k < b && !same_statement(
                    eliminate_statement(before.spec_blocks()[k].statement, live_sets(&before).1[k]),
                    #[trigger] before.spec_blocks()[k].statement,
                ),
        decreases n - b,
    {
        assert(cfg.spec_blocks()[b as int] == before.spec_blocks()[b as int]);
        let ghost old_statement = before.spec_blocks()[b as int].statement;
        let ghost live_after = live_sets(&before).1[b as int];
        let dead = match &cfg.blocks()[b].statement {
            SimpleStatement::Assign(x, _) => !annotated[b].annotation.out_set.contains(x),
            _ => false,
        };
        if dead {
            cfg.set_statement(b, SimpleStatement::Skip);
            changed = true;
        } else {
            proof {
                assert(eliminate_statement(old_statement, live_after) == old_statement);
                lemma_same_statement_refl(old_statement);
            }
        }
        b = b + 1;
        assert(changed == exists|k: int|
            0 <= k < b && !same_statement(
                eliminate_statement(before.spec_blocks()[k].statement, live_sets(&before).1[k]),
                #[trigger] before.spec_blocks()[k].statement,
            )) by {
            if dead {
                lemma_assignment_is_not_skip(old_statement);
                assert(!same_statement(
                    eliminate_statement(before.spec_blocks()[b - 1].statement, live_sets(&before).1[b - 1]),
                    before.spec_blocks()[b - 1].statement,
                ));
            }
        }
    }
    changed
}

/// An assignment does not print as `skip`: its text has `:` right after
/// the variable and the space.
proof fn lemma_assignment_is_not_skip(s: SimpleStatement)
    requires
        s is Assign,
    ensures
        !same_statement(SimpleStatement::Skip, s),
{
    reveal_strlit("skip");
    reveal_strlit(" := ");
    if let SimpleStatement::Assign(x, e) = s {
        let t = x@ + " := "@ + aexpr_text(e);
        assert(t[x@.len() as int + 1] == ':');
        if t.len() == 4 {
            assert("skip"@[x@.len() as int + 1] != ':');
        }
    }
}

pub proof fn lemma_same_aexpr_refl(e: AExpr)
    ensures
        same_aexpr(e, e),
    decreases e,
{
    match e {
        AExpr::Add(l, r) => {
            lemma_same_aexpr_refl(*l);
            lemma_same_aexpr_refl(*r);
        },
        AExpr::Sub(l, r) => {
            lemma_same_aexpr_refl(*l);
            lemma_same_aexpr_refl(*r);
        },
        AExpr::Mul(l, r) => {
            lemma_same_aexpr_refl(*l);
            lemma_same_aexpr_refl(*r);
        },
        _ => {},
    }
}

pub proof fn lemma_same_bexpr_refl(e: BExpr)
    ensures
        same_bexpr(e, e),
    decreases e,
{
    match e {
        BExpr::And(l, r) => {
            lemma_same_bexpr_refl(*l);
            lemma_same_bexpr_refl(*r);
        },
        BExpr::Not(v) => {
            lemma_same_bexpr_refl(*v);
        },
        BExpr::Less(l, r) => {
            lemma_same_aexpr_refl(*l);
            lemma_same_aexpr_refl(*r);
        },
        _ => {},
    }
}

pub proof fn lemma_same_statement_refl(s: SimpleStatement)
    ensures
        same_statement(s, s),
{
}

/// What constant folding does to the statement of each block.
pub open spec fn folding_rule() -> spec_fn(int, SimpleStatement) -> SimpleStatement {
    |k: int, s: SimpleStatement| fold_statement(s)
}

/// What constant propagation does to the statement of each block of `cfg`:
/// it uses the definitions that reach the block.
pub open spec fn propagation_rule(cfg: ControlFlowGraph) -> spec_fn(int, SimpleStatement) -> SimpleStatement {
    |k: int, s: SimpleStatement| propagate_statement(s, statements_of(cfg), reaching_sets(&cfg).0[k])
}

/// What dead-store elimination does to the statement of each block of
/// `cfg`: it uses the variables live after the block.
pub open spec fn elimination_rule(cfg: ControlFlowGraph) -> spec_fn(int, SimpleStatement) -> SimpleStatement {
    |k: int, s: SimpleStatement| eliminate_statement(s, live_sets(&cfg).1[k])
}

/// One of the passes of the optimizer.
#[derive(Debug, Clone, Copy, PartialEq, Eq, Structural)]
pub enum OptimizationPass {
    ConstantPropagation,
    ConstantFolding,
    DeadStoreElimination,
}

impl OptimizationPass {
    /// The name of the pass, as messages print it.
    pub fn name(&self) -> (r: &'static str)
        ensures
            r@ == match self {
                OptimizationPass::ConstantPropagation => "constant propagation"@,
                OptimizationPass::ConstantFolding => "constant folding"@,
                OptimizationPass::DeadStoreElimination => "dead-store elimination"@,
            },
    {
        match self {
            OptimizationPass::ConstantPropagation => "constant propagation",
            OptimizationPass::ConstantFolding => "constant folding",
            OptimizationPass::DeadStoreElimination => "dead-store elimination",
        }
    }
}

/// What pass `p` does to `before`: `after`, and whether something changed.
#[verifier::opaque]
pub open spec fn pass_result(
    p: OptimizationPass,
    before: ControlFlowGraph,
    after: ControlFlowGraph,
    changed: bool,
) -> bool {
    match p {
        OptimizationPass::ConstantPropagation => rewritten(before, after, propagation_rule(before), changed)
            && is_least_reaching_solution(&before, reaching_sets(&before).0, reaching_sets(&before).1),
        OptimizationPass::ConstantFolding => rewritten(before, after, folding_rule(), changed),
        OptimizationPass::DeadStoreElimination => rewritten(before, after, elimination_rule(before), changed)
            && is_least_live_solution(&before, live_sets(&before).0, live_sets(&before).1),
    }
}

/// The passes to run, in order, each round, and the most rounds to run.
#[derive(Debug, Clone)]
pub struct OptimizationPipeline {
    pub passes: Vec<OptimizationPass>,
    pub maximum_rounds: usize,
}

impl Default for OptimizationPipeline {
    /// Propagation, folding and dead-store elimination, for at most 20 rounds.
    fn default() -> (r: Self)
        ensures
            r.passes@ == seq![
                OptimizationPass::ConstantPropagation,
                OptimizationPass::ConstantFolding,
                OptimizationPass::DeadStoreElimination,
            ],
            r.maximum_rounds == 20,
    {
        let mut passes = Vec::new();
        passes.push(OptimizationPass::ConstantPropagation);
        passes.push(OptimizationPass::ConstantFolding);
        passes.push(OptimizationPass::DeadStoreElimination);
        assert(passes@ =~= seq![
            OptimizationPass::ConstantPropagation,
            OptimizationPass::ConstantFolding,
            OptimizationPass::DeadStoreElimination,
        ]);
        OptimizationPipeline { passes, maximum_rounds: 20 }
    }
}

/// What a run of the pipeline did: the rounds it ran, how many pass runs
/// changed the graph, and whether the last round changed nothing.
#[derive(Debug, Clone, PartialEq, Eq, Structural)]
pub struct OptimizationResult {
    pub rounds: usize,
    pub changed_passes: usize,
    pub reached_fixed_point: bool,
}

/// How many flags are set.
pub open spec fn count_true(flags: Seq<bool>) -> nat
    decreases flags.len(),
{
    if flags.len() == 0 {
        0
    } else {
        count_true(flags.drop_last()) + if flags.last() {
            1nat
        } else {
            0nat
        }
    }
}

/// How many flags are set over all rounds.
pub open spec fn total_changes(flags: Seq<Seq<bool>>) -> nat
    decreases flags.len(),
{
    if flags.len() == 0 {
        0
    } else {
        total_changes(flags.drop_last()) + count_true(flags.last())
    }
}

/// One round: `graphs[i + 1]` and `flags[i]` are what `passes[i]` makes of
/// `graphs[i]`.
pub open spec fn round_run(passes: Seq<OptimizationPass>, graphs: Seq<ControlFlowGraph>, flags: Seq<bool>) -> bool {
    &&& graphs.len() == passes.len() + 1
    &&& flags.len() == passes.len()
    &&& forall|i: int|
        #![trigger passes[i]]
        0 <= i < passes.len() ==> pass_result(passes[i], graphs[i], graphs[i + 1], flags[i])
}

/// A run of the pipeline from `start` to `end`: `graphs[j]` and `flags[j]`
/// are round `j`, each round starts where the previous one ended, every
/// round but the last changed something, and the run stops at a round that
/// changed nothing or after the most rounds.
pub open spec fn pipeline_run(
    passes: Seq<OptimizationPass>,
    maximum_rounds: nat,
    start: ControlFlowGraph,
    graphs: Seq<Seq<ControlFlowGraph>>,
    flags: Seq<Seq<bool>>,
    end: ControlFlowGraph,
    result: OptimizationResult,
) -> bool {
    let n = result.rounds as int;
    &&& graphs.len() == n
    &&& flags.len() == n
    &&& n <= maximum_rounds
    &&& forall|j: int| #![trigger graphs[j]] 0 <= j < n ==> round_run(passes, graphs[j], flags[j])
    &&& forall|j: int|
        #![trigger graphs[j]]
        0 <= j < n ==> graphs[j][0] == if j == 0 {
            start
        } else {
            graphs[j - 1][passes.len() as int]
        }
    &&& end == if n == 0 {
        start
    } else {
        graphs[n - 1][passes.len() as int]
    }
    &&& forall|j: int| #![trigger flags[j]] 0 <= j < n - 1 ==> flags[j].contains(true)
    &&& result.reached_fixed_point == (n > 0 && !flags[n - 1].contains(true))
    &&& !result.reached_fixed_point ==> n == maximum_rounds
    &&& result.changed_passes == capped(total_changes(flags))
}

/// A count as a `usize`: itself where it fits, else the largest `usize`.
pub open spec fn capped(n: nat) -> nat {
    if n <= usize::MAX {
        n
    } else {
        usize::MAX as nat
    }
}

proof fn lemma_count_true_push(flags: Seq<bool>, f: bool)
    ensures
        count_true(flags.push(f)) == count_true(flags) + if f {
            1nat
        } else {
            0nat
        },
        flags.push(f).contains(true) == (flags.contains(true) || f),
        count_true(flags) <= flags.len(),
    decreases flags.len(),
{
    assert(flags.push(f).drop_last() =~= flags);
    if flags.len() > 0 {
        lemma_count_true_push(flags.drop_last(), flags.last());
        assert(flags.drop_last().push(flags.last()) =~= flags);
    }
    if flags.push(f).contains(true) && !f {
        let k = choose|k: int| 0 <= k < flags.push(f).len() && flags.push(f)[k] == true;
        assert(flags[k] == true);
    }
    if flags.contains(true) {
        let k = choose|k: int| 0 <= k < flags.len() && flags[k] == true;
        assert(flags.push(f)[k] == true);
    }
    if f {
        assert(flags.push(f)[flags.len() as int] == true);
    }
}

proof fn lemma_total_changes_bound(flags: Seq<Seq<bool>>, m: nat)
    requires
        forall|j: int| 0 <= j < flags.len() ==> (#[trigger] flags[j]).len() == m,
    ensures
        total_changes(flags) <= flags.len() * m,
    decreases flags.len(),
{
    if flags.len() > 0 {
        let rest = flags.drop_last();
        lemma_total_changes_bound(rest, m);
        lemma_count_true_push(flags.last(), false);
        assert(flags.last().len() == m);
        let k = rest.len();
        assert(k * m + m == (k + 1) * m) by (nonlinear_arith);
    }
}

/// A run counts at most one change for each pass in each round: the number
/// of passes that reported a change is at most the number of rounds times
/// the number of passes.
pub proof fn lemma_changed_passes_bounded(
    passes: Seq<OptimizationPass>,
    maximum_rounds: nat,
    start: ControlFlowGraph,
    graphs: Seq<Seq<ControlFlowGraph>>,
    flags: Seq<Seq<bool>>,
    end: ControlFlowGraph,
    result: OptimizationResult,
)
    requires
        pipeline_run(passes, maximum_rounds, start, graphs, flags, end, result),
    ensures
        result.changed_passes <= result.rounds * passes.len(),
{
    assert forall|j: int| 0 <= j < flags.len() implies (#[trigger] flags[j]).len() == passes.len() by {
        assert(round_run(passes, graphs[j], flags[j]));
    }
    lemma_total_changes_bound(flags, passes.len());
}


/// What a pass call ensures is its `pass_result`, and the graph stays well
/// formed.
proof fn lemma_pass_step(pass: OptimizationPass, g0: ControlFlowGraph, g1: ControlFlowGraph, changed: bool)
    requires
        g0.wf(),
        match pass {
            OptimizationPass::ConstantPropagation => rewritten(g0, g1, propagation_rule(g0), changed)
                && is_least_reaching_solution(&g0, reaching_sets(&g0).0, reaching_sets(&g0).1),
            OptimizationPass::ConstantFolding => rewritten(g0, g1, folding_rule(), changed),
            OptimizationPass::DeadStoreElimination => rewritten(g0, g1, elimination_rule(g0), changed)
                && is_least_live_solution(&g0, live_sets(&g0).0, live_sets(&g0).1),
        },
    ensures
        pass_result(pass, g0, g1, changed),
        g1.wf(),
{
    reveal(pass_result);
    match pass {
        OptimizationPass::ConstantPropagation => lemma_rewritten_wf(g0, g1, propagation_rule(g0), changed),
        OptimizationPass::ConstantFolding => lemma_rewritten_wf(g0, g1, folding_rule(), changed),
        OptimizationPass::DeadStoreElimination => lemma_rewritten_wf(g0, g1, elimination_rule(g0), changed),
    }
}

/// Appending a round that starts where the run so far ends keeps the rounds
/// chained.
proof fn lemma_round_append(
    passes: Seq<OptimizationPass>,
    start: ControlFlowGraph,
    graphs: Seq<Seq<ControlFlowGraph>>,
    flags: Seq<Seq<bool>>,
    gs: Seq<ControlFlowGraph>,
    fs: Seq<bool>,
)
    requires
        graphs.len() == flags.len(),
        forall|j: int| #![trigger graphs[j]] 0 <= j < graphs.len() ==> round_run(passes, graphs[j], flags[j]),
        forall|j: int|
            #![trigger graphs[j]]
            0 <= j < graphs.len() ==> graphs[j][0] == if j == 0 {
                start
            } else {
                graphs[j - 1][passes.len() as int]
            },
        forall|j: int| #![trigger flags[j]] 0 <= j < flags.len() ==> flags[j].contains(true),
        round_run(passes, gs, fs),
        gs[0] == if graphs.len() == 0 {
            start
        } else {
            graphs[graphs.len() - 1][passes.len() as int]
        },
    ensures
        ({
            let g2 = graphs.push(gs);
            let f2 = flags.push(fs);
            &&& forall|j: int| #![trigger g2[j]] 0 <= j < g2.len() ==> round_run(passes, g2[j], f2[j])
            &&& forall|j: int|
                #![trigger g2[j]]
                0 <= j < g2.len() ==> g2[j][0] == if j == 0 {
                    start
                } else {
                    g2[j - 1][passes.len() as int]
                }
            &&& forall|j: int| #![trigger f2[j]] 0 <= j < f2.len() - 1 ==> f2[j].contains(true)
            &&& total_changes(f2) == total_changes(flags) + count_true(fs)
        }),
{
    let g2 = graphs.push(gs);
    let f2 = flags.push(fs);
    assert(f2.drop_last() =~= flags);
    assert forall|j: int| #![trigger g2[j]] 0 <= j < g2.len() implies round_run(passes, g2[j], f2[j])
        && g2[j][0] == (if j == 0 {
        start
    } else {
        g2[j - 1][passes.len() as int]
    }) by {
        if j < graphs.len() {
            assert(g2[j] == graphs[j]);
            assert(f2[j] == flags[j]);
            if j > 0 {
                assert(g2[j - 1] == graphs[j - 1]);
            }
        } else {
            assert(g2[j] == gs);
            assert(f2[j] == fs);
            if j > 0 {
                assert(g2[j - 1] == graphs[j - 1]);
            }
        }
    }
    assert forall|j: int| #![trigger f2[j]] 0 <= j < f2.len() - 1 implies f2[j].contains(true) by {
        assert(f2[j] == flags[j]);
    }
}

proof fn lemma_count_true_contains(flags: Seq<bool>)
    ensures
        (count_true(flags) > 0) == flags.contains(true),
    decreases flags.len(),
{
    if flags.len() > 0 {
        lemma_count_true_contains(flags.drop_last());
        lemma_count_true_push(flags.drop_last(), flags.last());
        assert(flags.drop_last().push(flags.last()) =~= flags);
    }
}

/// Runs each pass once, in order; returns how many changed the graph, and
/// the graphs and changes of the round.
fn run_round(passes: &Vec<OptimizationPass>, cfg: &mut ControlFlowGraph) -> (r: (
    usize,
    Ghost<Seq<ControlFlowGraph>>,
    Ghost<Seq<bool>>,
))
    requires
        old(cfg).wf(),
    ensures
        final(cfg).wf(),
        round_run(passes@, r.1@, r.2@),
        r.1@[0] == *old(cfg),
        r.1@[passes@.len() as int] == *final(cfg),
        r.0 == count_true(r.2@),
{
    let ghost n = passes.len() as int;
    let ghost mut gs: Seq<ControlFlowGraph> = seq![*cfg];
    let ghost mut fs: Seq<bool> = Seq::empty();
    let mut count: usize = 0;
    let mut i: usize = 0;
    while i < passes.len()
        invariant
            cfg.wf(),
            n == passes@.len(),
            i <= n,
            gs.len() == i + 1,
            fs.len() == i,
            gs[0] == *old(cfg),
            gs[i as int] == *cfg,
            forall|k: int|
                #![trigger passes@[k]]
                0 <= k < i ==> pass_result(passes@[k], gs[k], gs[k + 1], fs[k]),
            count == count_true(fs),
            count_true(fs) <= i,
        decreases n - i,
    {
        let ghost g0 = *cfg;
        let pass = passes[i];
        let changed = match pass {
            OptimizationPass::ConstantPropagation => constant_propagation(cfg),
            OptimizationPass::ConstantFolding => constant_folding(cfg),
            OptimizationPass::DeadStoreElimination => dead_store_elimination(cfg),
        };
        proof {
            lemma_pass_step(pass, g0, *cfg, changed);
            lemma_count_true_push(fs, changed);
        }
        if changed {
            count = count + 1;
        }
        proof {
            gs = gs.push(*cfg);
            fs = fs.push(changed);
        }
        i = i + 1;
    }
    (count, Ghost(gs), Ghost(fs))
}

impl OptimizationPipeline {
    /// Runs the passes in order, round after round, until a round changes
    /// nothing or `maximum_rounds` rounds have run.
    pub fn run(&self, cfg: &mut ControlFlowGraph) -> (r: OptimizationResult)
        requires
            old(cfg).wf(),
        ensures
            final(cfg).wf(),
            exists|graphs: Seq<Seq<ControlFlowGraph>>, flags: Seq<Seq<bool>>|
                pipeline_run(
                    self.passes@,
                    self.maximum_rounds as nat,
                    *old(cfg),
                    graphs,
                    flags,
                    *final(cfg),
                    r,
                ),
    {
        let ghost start = *cfg;
        let ghost passes = self.passes@;
        let ghost n = self.passes.len() as int;
        let ghost mut graphs: Seq<Seq<ControlFlowGraph>> = Seq::empty();
        let ghost mut flags: Seq<Seq<bool>> = Seq::empty();
        let mut rounds: usize = 0;
        let mut changed_passes: usize = 0;
        while rounds < self.maximum_rounds
            invariant
                cfg.wf(),
                start == *old(cfg),
                passes == self.passes@,
                n == passes.len(),
                rounds <= self.maximum_rounds,
                graphs.len() == rounds,
                flags.len() == rounds,
                forall|j: int| #![trigger graphs[j]] 0 <= j < rounds ==> round_run(passes, graphs[j], flags[j]),
                forall|j: int|
                    #![trigger graphs[j]]
                    0 <= j < rounds ==> graphs[j][0] == if j == 0 {
                        start
                    } else {
                        graphs[j - 1][n]
                    },
                *cfg == if rounds == 0 {
                    start
                } else {
                    graphs[rounds - 1][n]
                },
                forall|j: int| #![trigger flags[j]] 0 <= j < rounds ==> flags[j].contains(true),
                changed_passes == capped(total_changes(flags)),
            decreases self.maximum_rounds - rounds,
        {
            let (count, Ghost(gs), Ghost(fs)) = run_round(&self.passes, cfg);
            proof {
                lemma_count_true_contains(fs);
                lemma_round_append(passes, start, graphs, flags, gs, fs);
                graphs = graphs.push(gs);
                flags = flags.push(fs);
                assert(flags[rounds as int] == fs);
            }
            changed_passes = changed_passes.saturating_add(count);
            rounds = rounds + 1;
            if count == 0 {
                let r = OptimizationResult { rounds, changed_passes, reached_fixed_point: true };
                proof {
                    assert(pipeline_run(passes, self.maximum_rounds as nat, start, graphs, flags, *cfg, r));
                }
                return r;
            }
        }
        let r = OptimizationResult { rounds, changed_passes, reached_fixed_point: false };
        proof {
            assert(pipeline_run(passes, self.maximum_rounds as nat, start, graphs, flags, *cfg, r));
        }
        r
    }
}

proof fn lemma_fold_op_normal(op: ArithOp, l: AExpr, r: AExpr)
    requires
        fold_a(l) == l,
        fold_a(r) == r,
    ensures
        fold_a(fold_op(op, l, r)) == fold_op(op, l, r),
{
}

/// Folding an expression that folding produced changes nothing.
pub proof fn lemma_fold_aexpr_idempotent(e: AExpr)
    ensures
        fold_a(fold_a(e)) == fold_a(e),
    decreases e,
{
    match e {
        AExpr::Add(l, r) => {
            lemma_fold_aexpr_idempotent(*l);
            lemma_fold_aexpr_idempotent(*r);
            lemma_fold_op_normal(ArithOp::Add, fold_a(*l), fold_a(*r));
        },
        AExpr::Sub(l, r) => {
            lemma_fold_aexpr_idempotent(*l);
            lemma_fold_aexpr_idempotent(*r);
            lemma_fold_op_normal(ArithOp::Sub, fold_a(*l), fold_a(*r));
        },
        AExpr::Mul(l, r) => {
            lemma_fold_aexpr_idempotent(*l);
            lemma_fold_aexpr_idempotent(*r);
            lemma_fold_op_normal(ArithOp::Mul, fold_a(*l), fold_a(*r));
        },
        _ => {},
    }
}

/// Folding a Boolean expression that folding produced changes nothing.
pub proof fn lemma_fold_bexpr_idempotent(e: BExpr)
    ensures
        fold_b(fold_b(e)) == fold_b(e),
    decreases e,
{
    match e {
        BExpr::And(l, r) => {
            lemma_fold_bexpr_idempotent(*l);
            lemma_fold_bexpr_idempotent(*r);
        },
        BExpr::Not(v) => {
            lemma_fold_bexpr_idempotent(*v);
        },
        BExpr::Less(l, r) => {
            lemma_fold_aexpr_idempotent(*l);
            lemma_fold_aexpr_idempotent(*r);
        },
        _ => {},
    }
}

/// Constant folding reaches its fixed point in one pass: folding the graph
/// that a folding pass produced reports no change.
pub proof fn lemma_folding_settles(
    g0: ControlFlowGraph,
    g1: ControlFlowGraph,
    g2: ControlFlowGraph,
    c1: bool,
    c2: bool,
)
    requires
        rewritten(g0, g1, folding_rule(), c1),
        rewritten(g1, g2, folding_rule(), c2),
    ensures
        !c2,
        g2.spec_blocks() == g1.spec_blocks(),
{
    assert forall|k: int| 0 <= k < g1.spec_blocks().len() implies same_statement(
        folding_rule()(k, g1.spec_blocks()[k].statement),
        #[trigger] g1.spec_blocks()[k].statement,
    ) && folding_rule()(k, g1.spec_blocks()[k].statement) == g1.spec_blocks()[k].statement by {
        let s0 = g0.spec_blocks()[k].statement;
        assert(g1.spec_blocks()[k] == with_statement(g0.spec_blocks()[k], fold_statement(s0)));
        match s0 {
            SimpleStatement::Assign(_, e) => lemma_fold_aexpr_idempotent(e),
            SimpleStatement::Guard(g) => lemma_fold_bexpr_idempotent(g),
            _ => {},
        }
        lemma_same_statement_refl(g1.spec_blocks()[k].statement);
    }
    assert forall|k: int| 0 <= k < g1.spec_blocks().len() implies #[trigger] g2.spec_blocks()[k]
        == g1.spec_blocks()[k] by {
        assert(g2.spec_blocks()[k] == with_statement(
            g1.spec_blocks()[k],
            folding_rule()(k, g1.spec_blocks()[k].statement),
        ));
    }
    assert(g2.spec_blocks() =~= g1.spec_blocks());
}


/// `after` is a statement of the kind of `before`, assigning the same
/// variable, whose expression has the value of `before`'s in memory `m`
/// (for a guard: wherever `before`'s has one).
pub open spec fn computes_as(before: SimpleStatement, after: SimpleStatement, m: Map<Seq<char>, i32>) -> bool {
    match (before, after) {
        (SimpleStatement::Skip, SimpleStatement::Skip) => true,
        (SimpleStatement::Assign(x, e), SimpleStatement::Assign(y, f)) => x == y && aexpr_value(f, m) == aexpr_value(
            e,
            m,
        ),
        (SimpleStatement::Guard(g), SimpleStatement::Guard(h)) => bexpr_value(g, m) is Ok ==> bexpr_value(h, m)
            == bexpr_value(g, m),
        _ => false,
    }
}

/// Constant folding keeps the graph and what each statement computes: the
/// blocks, their ids and edges, entry, exit, input and output stay; each
/// block keeps its kind of statement and assigned variable; an assignment's
/// expression keeps its value in every memory, and a guard its value in every
/// memory where it has one; and folding the folded graph again reports no
/// change.
pub proof fn lemma_constant_folding_keeps_meaning(
    g0: ControlFlowGraph,
    g1: ControlFlowGraph,
    changed: bool,
)
    requires
        rewritten(g0, g1, folding_rule(), changed),
    ensures
        g1.input == g0.input,
        g1.output == g0.output,
        g1.entry == g0.entry,
        g1.exit == g0.exit,
        g1.spec_blocks().len() == g0.spec_blocks().len(),
        forall|k: int|
            0 <= k < g0.spec_blocks().len() ==> (#[trigger] g1.spec_blocks()[k]).id == g0.spec_blocks()[k].id
                && g1.spec_blocks()[k].outgoing == g0.spec_blocks()[k].outgoing,
        forall|k: int, m: Map<Seq<char>, i32>|
            0 <= k < g0.spec_blocks().len() ==> #[trigger] computes_as(
                g0.spec_blocks()[k].statement,
                g1.spec_blocks()[k].statement,
                m,
            ),
        forall|g2: ControlFlowGraph, c2: bool| #[trigger] rewritten(g1, g2, folding_rule(), c2) ==> !c2,
{
    assert forall|k: int| 0 <= k < g0.spec_blocks().len() implies (#[trigger] g1.spec_blocks()[k]).id
        == g0.spec_blocks()[k].id && g1.spec_blocks()[k].outgoing == g0.spec_blocks()[k].outgoing by {
        assert(g1.spec_blocks()[k] == with_statement(g0.spec_blocks()[k], fold_statement(g0.spec_blocks()[k].statement)));
    }
    assert forall|k: int, m: Map<Seq<char>, i32>|
        0 <= k < g0.spec_blocks().len() implies #[trigger] computes_as(g0.spec_blocks()[k].statement, g1.spec_blocks()[k].statement, m) by {
        assert(g1.spec_blocks()[k] == with_statement(g0.spec_blocks()[k], fold_statement(g0.spec_blocks()[k].statement)));
        match g0.spec_blocks()[k].statement {
            SimpleStatement::Assign(_, e) => lemma_fold_aexpr_preserves_value(e, m),
            SimpleStatement::Guard(g) => {
                if bexpr_value(g, m) is Ok {
                    lemma_fold_bexpr_preserves_value(g, m);
                }
            },
            _ => {},
        }
    }
    assert forall|g2: ControlFlowGraph, c2: bool| #[trigger] rewritten(g1, g2, folding_rule(), c2) implies !c2 by {
        lemma_folding_settles(g0, g1, g2, changed, c2);
    }
}


/// Constant propagation replaces a variable `x` by the constant `v` exactly
/// when at least one definition of `x` is among the definitions `defs` that
/// reach the block, none of them is the input, and every one of them is an
/// assignment whose block's statement assigns the constant `v`.
pub proof fn lemma_constant_of_exactly(
    statements: Seq<SimpleStatement>,
    defs: Set<DefinitionView>,
    x: Seq<char>,
    v: i32,
)
    ensures
        constant_of(statements, defs, x) == Some(v) <==> (defines(defs, x) && all_assign(statements, defs, x, v)),
        all_assign(statements, defs, x, v) ==> forall|d: DefinitionView|
            #[trigger] defs.contains(d) && defined_var(d) == x ==> d is Assignment && assigns_constant(
                statements,
                d,
                v,
            ),
{
    if defines(defs, x) && all_assign(statements, defs, x, v) {
        let w = choose|w: i32| all_assign(statements, defs, x, w);
        let d = choose|d: DefinitionView| #[trigger] defs.contains(d) && defined_var(d) == x;
        assert(assigns_constant(statements, d, v));
        assert(assigns_constant(statements, d, w));
    }
    if all_assign(statements, defs, x, v) {
        assert forall|d: DefinitionView| #[trigger] defs.contains(d) && defined_var(d) == x implies d is Assignment
            && assigns_constant(statements, d, v) by {
            assert(assigns_constant(statements, d, v));
        }
    }
}

} // verus!
