use vstd::prelude::*;
use crate::miniimp::ast::{AExpr, BExpr};
use crate::miniimp::cfg::{
    edge_targets, ends_only_at_exit, lemma_pred_list_members, pred_list, BasicBlock, BlockId, ControlFlowGraph,
    OutgoingEdges, SimpleStatement,
};
use crate::miniimp::dataflow::{
    aexpr_vars, bexpr_vars, defined_in, defined_out, defined_var, defs, incoming, is_defined_solution, meet,
    uses, defined_block_ok, is_live_solution, is_reaching_solution, live_block_ok, live_in,
    live_out, live_sets, reaching_block_ok, reaching_in, reaching_sets, union_over,
    DefinitionView,
};
use crate::miniimp::eval::{aexpr_value, bexpr_value};
use crate::miniimp::optimizations::{
    all_assign, assigns_constant, constant_of, eliminate_statement,
    elimination_rule, fold_statement, folding_rule, lemma_rewritten_wf, pass_result, pipeline_run,
    round_run, OptimizationPass, OptimizationResult,
    lemma_fold_aexpr_preserves_value, lemma_fold_bexpr_preserves_value, propagate_a, propagate_b,
    propagate_statement, propagation_rule, rewritten, statements_of, with_statement,
};
use crate::miniimp::runtime::RuntimeError;

verus! {

/// Running one block: the memory after its statement and the block that
/// control goes to (`None` at a block without successor), or the error.
/// A branch follows its guard; any other statement takes the `true` edge.
pub open spec fn block_step(blk: BasicBlock, m: Map<Seq<char>, i32>) -> Result<
    (Map<Seq<char>, i32>, Option<BlockId>),
    RuntimeError,
> {
    let effect: Result<(Map<Seq<char>, i32>, bool), RuntimeError> = match blk.statement {
        SimpleStatement::Skip => Ok((m, true)),
        SimpleStatement::Assign(x, e) => match aexpr_value(e, m) {
            Ok(v) => Ok((m.insert(x@, v), true)),
            Err(err) => Err(err),
        },
        SimpleStatement::Guard(g) => match bexpr_value(g, m) {
            Ok(c) => Ok((m, c)),
            Err(err) => Err(err),
        },
    };
    match effect {
        Err(err) => Err(err),
        Ok((m2, c)) => Ok(
            (
                m2,
                match blk.outgoing {
                    OutgoingEdges::End => None,
                    OutgoingEdges::Goto(n) => Some(n),
                    OutgoingEdges::Branch { on_true, on_false } => Some(
                        if c {
                            on_true
                        } else {
                            on_false
                        },
                    ),
                },
            ),
        ),
    }
}

/// Running the blocks of a graph from block `b` in memory `m`, at most
/// `fuel` blocks: the memory when control reaches a block without
/// successor, or the error.
pub open spec fn run_blocks(bs: Seq<BasicBlock>, b: int, m: Map<Seq<char>, i32>, fuel: nat) -> Result<
    Map<Seq<char>, i32>,
    RuntimeError,
>
    decreases fuel,
{
    if fuel == 0 || !(0 <= b < bs.len()) {
        Err(RuntimeError::OutOfFuel)
    } else {
        match block_step(bs[b], m) {
            Err(err) => Err(err),
            Ok((m2, None)) => Ok(m2),
            Ok((m2, Some(n))) => run_blocks(bs, n as int, m2, (fuel - 1) as nat),
        }
    }
}

/// Running a graph on an input value: from the entry block, in a memory that
/// holds only the input.
pub open spec fn run_graph(cfg: ControlFlowGraph, input: i32, fuel: nat) -> Result<Map<Seq<char>, i32>, RuntimeError> {
    run_blocks(cfg.spec_blocks(), cfg.entry as int, Map::empty().insert(cfg.input@, input), fuel)
}

proof fn lemma_folded_step(blk: BasicBlock, m: Map<Seq<char>, i32>)
    requires
        block_step(blk, m) is Ok,
    ensures
        block_step(with_statement(blk, fold_statement(blk.statement)), m) == block_step(blk, m),
{
    match blk.statement {
        SimpleStatement::Assign(_, e) => lemma_fold_aexpr_preserves_value(e, m),
        SimpleStatement::Guard(g) => lemma_fold_bexpr_preserves_value(g, m),
        _ => {},
    }
}

/// Constant folding keeps every run that succeeds: from any block and
/// memory, the folded graph ends in the same memory.
pub proof fn lemma_folding_keeps_runs(
    g0: ControlFlowGraph,
    g1: ControlFlowGraph,
    changed: bool,
    b: int,
    m: Map<Seq<char>, i32>,
    fuel: nat,
)
    requires
        rewritten(g0, g1, folding_rule(), changed),
        run_blocks(g0.spec_blocks(), b, m, fuel) is Ok,
    ensures
        run_blocks(g1.spec_blocks(), b, m, fuel) == run_blocks(g0.spec_blocks(), b, m, fuel),
    decreases fuel,
{
    let b0 = g0.spec_blocks();
    let b1 = g1.spec_blocks();
    assert(b1[b] == with_statement(b0[b], folding_rule()(b, b0[b].statement)));
    lemma_folded_step(b0[b], m);
    if let Ok((m2, Some(n))) = block_step(b0[b], m) {
        lemma_folding_keeps_runs(g0, g1, changed, n as int, m2, (fuel - 1) as nat);
    }
}

/// What the runs of a graph keep true about the definitions in force, at
/// the entry of block `b` with memory `m`: `last` maps each variable that
/// has a value to the definition that gave it, which reaches `b`, and a
/// variable whose last definition assigned a constant holds that constant.
pub open spec fn definitions_in_force(
    cfg: ControlFlowGraph,
    ins: Seq<Set<DefinitionView>>,
    b: int,
    m: Map<Seq<char>, i32>,
    last: Map<Seq<char>, DefinitionView>,
) -> bool {
    &&& forall|x: Seq<char>| #[trigger] m.contains_key(x) <==> last.contains_key(x)
    &&& forall|x: Seq<char>|
        #[trigger] last.contains_key(x) ==> defined_var(last[x]) == x && ins[b].contains(last[x])
    &&& forall|x: Seq<char>, c: i32|
        last.contains_key(x) && #[trigger] assigns_constant(statements_of(cfg), last[x], c) ==> m[x] == c
}

/// Where the definitions of a run stand after one step from block `b`.
pub open spec fn last_after(
    blk: BasicBlock,
    b: int,
    last: Map<Seq<char>, DefinitionView>,
) -> Map<Seq<char>, DefinitionView> {
    match blk.statement {
        SimpleStatement::Assign(x, _) => last.insert(x@, DefinitionView::Assignment(x@, b as usize)),
        _ => last,
    }
}

proof fn lemma_union_over_contains(sets: Seq<Set<DefinitionView>>, t: Seq<BlockId>, i: int, d: DefinitionView)
    requires
        0 <= i < t.len(),
        sets[t[i] as int].contains(d),
    ensures
        crate::miniimp::dataflow::union_over(sets, t).contains(d),
    decreases t.len(),
{
    if i < t.len() - 1 {
        lemma_union_over_contains(sets, t.drop_last(), i, d);
    }
}

/// One step of a run keeps the definitions in force at the next block.
proof fn lemma_step_keeps_definitions(
    cfg: ControlFlowGraph,
    ins: Seq<Set<DefinitionView>>,
    outs: Seq<Set<DefinitionView>>,
    b: int,
    m: Map<Seq<char>, i32>,
    last: Map<Seq<char>, DefinitionView>,
)
    requires
        cfg.wf(),
        is_reaching_solution(&cfg, ins, outs),
        0 <= b < cfg.spec_blocks().len(),
        definitions_in_force(cfg, ins, b, m, last),
        block_step(cfg.spec_blocks()[b], m) matches Ok((_, Some(_))),
    ensures
        block_step(cfg.spec_blocks()[b], m) matches Ok((m2, Some(n))) && definitions_in_force(
            cfg,
            ins,
            n as int,
            m2,
            last_after(cfg.spec_blocks()[b], b, last),
        ),
{
    let bs = cfg.spec_blocks();
    let blk = bs[b];
    let (m2, next) = block_step(blk, m)->Ok_0;
    let n = next->Some_0 as int;
    let last2 = last_after(blk, b, last);
    assert(bs[b].id == b);
    assert(0 <= n < bs.len()) by {
        match blk.outgoing {
            OutgoingEdges::Goto(t) => {
                assert(crate::miniimp::cfg::edge_targets(bs[b].outgoing)[0] == t);
            },
            OutgoingEdges::Branch { on_true, on_false } => {
                assert(crate::miniimp::cfg::edge_targets(bs[b].outgoing)[0] == on_true);
                assert(crate::miniimp::cfg::edge_targets(bs[b].outgoing)[1] == on_false);
            },
            _ => {},
        }
    }
    assert(reaching_block_ok(&cfg, ins, outs, b));
    assert(reaching_block_ok(&cfg, ins, outs, n));
    // the definitions leaving `b` reach `n`
    assert(crate::miniimp::cfg::edge_targets(blk.outgoing).contains(n as BlockId)) by {
        match blk.outgoing {
            OutgoingEdges::Goto(t) => {
                assert(crate::miniimp::cfg::edge_targets(blk.outgoing)[0] == t);
            },
            OutgoingEdges::Branch { on_true, on_false } => {
                assert(crate::miniimp::cfg::edge_targets(blk.outgoing)[0] == on_true);
                assert(crate::miniimp::cfg::edge_targets(blk.outgoing)[1] == on_false);
            },
            _ => {},
        }
    }
    crate::miniimp::cfg::lemma_successors_predecessors(&cfg, b as BlockId, n as BlockId);
    let preds = crate::miniimp::cfg::pred_list(bs, n as BlockId, bs.len() as int);
    let k = choose|k: int| 0 <= k < preds.len() && preds[k] == b as BlockId;
    assert forall|d: DefinitionView| outs[b].contains(d) implies ins[n].contains(d) by {
        lemma_union_over_contains(outs, preds, k, d);
        reveal(reaching_in);
    }
    assert forall|x: Seq<char>| #[trigger] last2.contains_key(x) implies defined_var(last2[x]) == x
        && ins[n].contains(last2[x]) by {
        if let SimpleStatement::Assign(y, _) = blk.statement {
            if x == y@ {
            } else {
                assert(ins[b].contains(last[x]));
            }
        } else {
            assert(ins[b].contains(last[x]));
        }
    }
    assert forall|x: Seq<char>, c: i32|
        last2.contains_key(x) && #[trigger] assigns_constant(statements_of(cfg), last2[x], c) implies m2[x] == c by {
        if let SimpleStatement::Assign(y, e) = blk.statement {
            if x == y@ {
                assert(statements_of(cfg)[b] == blk.statement);
            }
        }
    }
}

proof fn lemma_propagated_aexpr(
    cfg: ControlFlowGraph,
    ins: Seq<Set<DefinitionView>>,
    b: int,
    m: Map<Seq<char>, i32>,
    last: Map<Seq<char>, DefinitionView>,
    e: AExpr,
)
    requires
        definitions_in_force(cfg, ins, b, m, last),
        aexpr_value(e, m) is Ok,
    ensures
        aexpr_value(propagate_a(e, statements_of(cfg), ins[b]), m) == aexpr_value(e, m),
    decreases e,
{
    let st = statements_of(cfg);
    match e {
        AExpr::Var(x) => {
            if let Some(c) = constant_of(st, ins[b], x@) {
                assert(m.contains_key(x@));
                assert(last.contains_key(x@));
                assert(ins[b].contains(last[x@]));
                assert(all_assign(st, ins[b], x@, c));
                assert(assigns_constant(st, last[x@], c));
            }
        },
        AExpr::Add(l, r) => {
            lemma_propagated_aexpr(cfg, ins, b, m, last, *l);
            if aexpr_value(*l, m) is Ok {
                lemma_propagated_aexpr(cfg, ins, b, m, last, *r);
            }
        },
        AExpr::Sub(l, r) => {
            lemma_propagated_aexpr(cfg, ins, b, m, last, *l);
            if aexpr_value(*l, m) is Ok {
                lemma_propagated_aexpr(cfg, ins, b, m, last, *r);
            }
        },
        AExpr::Mul(l, r) => {
            lemma_propagated_aexpr(cfg, ins, b, m, last, *l);
            if aexpr_value(*l, m) is Ok {
                lemma_propagated_aexpr(cfg, ins, b, m, last, *r);
            }
        },
        _ => {},
    }
}

proof fn lemma_propagated_bexpr(
    cfg: ControlFlowGraph,
    ins: Seq<Set<DefinitionView>>,
    b: int,
    m: Map<Seq<char>, i32>,
    last: Map<Seq<char>, DefinitionView>,
    e: BExpr,
)
    requires
        definitions_in_force(cfg, ins, b, m, last),
        bexpr_value(e, m) is Ok,
    ensures
        bexpr_value(propagate_b(e, statements_of(cfg), ins[b]), m) == bexpr_value(e, m),
    decreases e,
{
    match e {
        BExpr::And(l, r) => {
            lemma_propagated_bexpr(cfg, ins, b, m, last, *l);
            if bexpr_value(*l, m) == Ok::<bool, RuntimeError>(true) {
                lemma_propagated_bexpr(cfg, ins, b, m, last, *r);
            }
        },
        BExpr::Not(v) => lemma_propagated_bexpr(cfg, ins, b, m, last, *v),
        BExpr::Less(l, r) => {
            lemma_propagated_aexpr(cfg, ins, b, m, last, *l);
            if aexpr_value(*l, m) is Ok {
                lemma_propagated_aexpr(cfg, ins, b, m, last, *r);
            }
        },
        _ => {},
    }
}

proof fn lemma_propagation_keeps_runs_from(
    g0: ControlFlowGraph,
    g1: ControlFlowGraph,
    changed: bool,
    b: int,
    m: Map<Seq<char>, i32>,
    last: Map<Seq<char>, DefinitionView>,
    fuel: nat,
)
    requires
        g0.wf(),
        rewritten(g0, g1, propagation_rule(g0), changed),
        is_reaching_solution(&g0, reaching_sets(&g0).0, reaching_sets(&g0).1),
        0 <= b < g0.spec_blocks().len(),
        definitions_in_force(g0, reaching_sets(&g0).0, b, m, last),
        run_blocks(g0.spec_blocks(), b, m, fuel) is Ok,
    ensures
        run_blocks(g1.spec_blocks(), b, m, fuel) == run_blocks(g0.spec_blocks(), b, m, fuel),
    decreases fuel,
{
    let b0 = g0.spec_blocks();
    let b1 = g1.spec_blocks();
    let ins = reaching_sets(&g0).0;
    let outs = reaching_sets(&g0).1;
    let blk = b0[b];
    assert(b1[b] == with_statement(blk, propagation_rule(g0)(b, blk.statement)));
    assert(b1[b] == with_statement(blk, propagate_statement(blk.statement, statements_of(g0), ins[b])));
    match blk.statement {
        SimpleStatement::Assign(_, e) => lemma_propagated_aexpr(g0, ins, b, m, last, e),
        SimpleStatement::Guard(g) => lemma_propagated_bexpr(g0, ins, b, m, last, g),
        _ => {},
    }
    assert(block_step(b1[b], m) == block_step(blk, m));
    if let Ok((m2, Some(n))) = block_step(blk, m) {
        lemma_step_keeps_definitions(g0, ins, outs, b, m, last);
        lemma_propagation_keeps_runs_from(g0, g1, changed, n as int, m2, last_after(blk, b, last), (fuel - 1) as nat);
    }
}

/// Constant propagation keeps every run of the program that succeeds: on
/// any input, the graph after propagation ends in the same memory.
pub proof fn lemma_propagation_keeps_runs(
    g0: ControlFlowGraph,
    g1: ControlFlowGraph,
    changed: bool,
    input: i32,
    fuel: nat,
)
    requires
        g0.wf(),
        rewritten(g0, g1, propagation_rule(g0), changed),
        is_reaching_solution(&g0, reaching_sets(&g0).0, reaching_sets(&g0).1),
        run_graph(g0, input, fuel) is Ok,
    ensures
        run_graph(g1, input, fuel) == run_graph(g0, input, fuel),
{
    let ins = reaching_sets(&g0).0;
    let outs = reaching_sets(&g0).1;
    let entry = g0.entry as int;
    let m = Map::<Seq<char>, i32>::empty().insert(g0.input@, input);
    let last = Map::<Seq<char>, DefinitionView>::empty().insert(g0.input@, DefinitionView::Input(g0.input@));
    assert(reaching_block_ok(&g0, ins, outs, entry));
    assert(ins[entry].contains(DefinitionView::Input(g0.input@))) by {
        reveal(reaching_in);
    }
    assert(definitions_in_force(g0, ins, entry, m, last));
    lemma_propagation_keeps_runs_from(g0, g1, changed, entry, m, last, fuel);
}

/// Two memories agree on the variables of `vs`: each has a value for them
/// when the other does, and the same one.
pub open spec fn agree_on(m1: Map<Seq<char>, i32>, m2: Map<Seq<char>, i32>, vs: Set<Seq<char>>) -> bool {
    forall|x: Seq<char>|
        #[trigger] vs.contains(x) ==> m1.contains_key(x) == m2.contains_key(x) && (m1.contains_key(x)
            ==> m1[x] == m2[x])
}

proof fn lemma_aexpr_agree(e: AExpr, m1: Map<Seq<char>, i32>, m2: Map<Seq<char>, i32>)
    requires
        agree_on(m1, m2, aexpr_vars(e)),
    ensures
        aexpr_value(e, m1) == aexpr_value(e, m2),
    decreases e,
{
    match e {
        AExpr::Var(x) => {
            assert(aexpr_vars(e).contains(x@));
        },
        AExpr::Add(l, r) | AExpr::Sub(l, r) | AExpr::Mul(l, r) => {
            assert forall|x: Seq<char>| #[trigger] aexpr_vars(*l).contains(x) implies aexpr_vars(e).contains(x) by {}
            assert forall|x: Seq<char>| #[trigger] aexpr_vars(*r).contains(x) implies aexpr_vars(e).contains(x) by {}
            lemma_aexpr_agree(*l, m1, m2);
            lemma_aexpr_agree(*r, m1, m2);
        },
        _ => {},
    }
}

proof fn lemma_bexpr_agree(e: BExpr, m1: Map<Seq<char>, i32>, m2: Map<Seq<char>, i32>)
    requires
        agree_on(m1, m2, bexpr_vars(e)),
    ensures
        bexpr_value(e, m1) == bexpr_value(e, m2),
    decreases e,
{
    match e {
        BExpr::And(l, r) => {
            assert forall|x: Seq<char>| #[trigger] bexpr_vars(*l).contains(x) implies bexpr_vars(e).contains(x) by {}
            assert forall|x: Seq<char>| #[trigger] bexpr_vars(*r).contains(x) implies bexpr_vars(e).contains(x) by {}
            lemma_bexpr_agree(*l, m1, m2);
            lemma_bexpr_agree(*r, m1, m2);
        },
        BExpr::Not(v) => {
            lemma_bexpr_agree(*v, m1, m2);
        },
        BExpr::Less(l, r) => {
            assert forall|x: Seq<char>| #[trigger] aexpr_vars(*l).contains(x) implies bexpr_vars(e).contains(x) by {}
            assert forall|x: Seq<char>| #[trigger] aexpr_vars(*r).contains(x) implies bexpr_vars(e).contains(x) by {}
            lemma_aexpr_agree(*l, m1, m2);
            lemma_aexpr_agree(*r, m1, m2);
        },
        _ => {},
    }
}

proof fn lemma_union_over_has(sets: Seq<Set<Seq<char>>>, t: Seq<BlockId>, i: int, x: Seq<char>)
    requires
        0 <= i < t.len(),
        sets[t[i] as int].contains(x),
    ensures
        union_over(sets, t).contains(x),
    decreases t.len(),
{
    if i < t.len() - 1 {
        lemma_union_over_has(sets, t.drop_last(), i, x);
    }
}

proof fn lemma_elimination_keeps_output_from(
    g0: ControlFlowGraph,
    g1: ControlFlowGraph,
    changed: bool,
    b: int,
    m1: Map<Seq<char>, i32>,
    m2: Map<Seq<char>, i32>,
    fuel: nat,
)
    requires
        g0.wf(),
        rewritten(g0, g1, elimination_rule(g0), changed),
        is_live_solution(&g0, live_sets(&g0).0, live_sets(&g0).1),
        forall|k: int|
            0 <= k < g0.spec_blocks().len() && (#[trigger] g0.spec_blocks()[k]).outgoing is End ==> k
                == g0.exit,
        0 <= b < g0.spec_blocks().len(),
        agree_on(m1, m2, live_sets(&g0).0[b]),
        run_blocks(g0.spec_blocks(), b, m1, fuel) is Ok,
    ensures
        run_blocks(g1.spec_blocks(), b, m2, fuel) is Ok,
        agree_on(
            run_blocks(g0.spec_blocks(), b, m1, fuel)->Ok_0,
            run_blocks(g1.spec_blocks(), b, m2, fuel)->Ok_0,
            set![g0.output@],
        ),
    decreases fuel,
{
    let b0 = g0.spec_blocks();
    let b1 = g1.spec_blocks();
    let ins = live_sets(&g0).0;
    let outs = live_sets(&g0).1;
    let blk = b0[b];
    let live_after = outs[b];
    assert(b1[b] == with_statement(blk, elimination_rule(g0)(b, blk.statement)));
    assert(b1[b] == with_statement(blk, eliminate_statement(blk.statement, live_after)));
    assert(live_block_ok(&g0, ins, outs, b));
    reveal(live_in);
    reveal(live_out);
    assert(b0[b].id == b);
    let (n1, m1s) = match block_step(blk, m1) {
        Ok((m, next)) => (next, m),
        Err(_) => (None, m1),
    };
    // the statement, run on both sides, leaves the memories agreeing after the block
    match blk.statement {
        SimpleStatement::Assign(x, e) => {
            assert forall|y: Seq<char>| #[trigger] aexpr_vars(e).contains(y) implies ins[b].contains(y) by {}
            lemma_aexpr_agree(e, m1, m2);
        },
        SimpleStatement::Guard(g) => {
            assert forall|y: Seq<char>| #[trigger] bexpr_vars(g).contains(y) implies ins[b].contains(y) by {}
            lemma_bexpr_agree(g, m1, m2);
        },
        _ => {},
    }
    let (m2s, n2) = match block_step(b1[b], m2) {
        Ok((m, next)) => (m, next),
        Err(_) => (m2, None),
    };
    assert(block_step(b1[b], m2) is Ok);
    assert(n1 == n2);
    assert(agree_on(m1s, m2s, live_after)) by {
        assert forall|y: Seq<char>| #[trigger] live_after.contains(y) implies m1s.contains_key(y)
            == m2s.contains_key(y) && (m1s.contains_key(y) ==> m1s[y] == m2s[y]) by {
            if let SimpleStatement::Assign(x, _) = blk.statement {
                if y != x@ {
                    assert(ins[b].contains(y));
                }
            } else {
                assert(ins[b].contains(y));
            }
        }
    }
    match n1 {
        None => {
            assert(blk.outgoing is End);
            assert(b == g0.exit);
            assert(live_after.contains(g0.output@));
        },
        Some(n) => {
            let n = n as int;
            assert(0 <= n < b0.len()) by {
                match blk.outgoing {
                    OutgoingEdges::Goto(t) => {
                        assert(crate::miniimp::cfg::edge_targets(b0[b].outgoing)[0] == t);
                    },
                    OutgoingEdges::Branch { on_true, on_false } => {
                        assert(crate::miniimp::cfg::edge_targets(b0[b].outgoing)[0] == on_true);
                        assert(crate::miniimp::cfg::edge_targets(b0[b].outgoing)[1] == on_false);
                    },
                    _ => {},
                }
            }
            let t = crate::miniimp::cfg::edge_targets(blk.outgoing);
            let k: int = match blk.outgoing {
                OutgoingEdges::Branch { on_true, on_false } => if n == on_true {
                    0
                } else {
                    1
                },
                _ => 0,
            };
            assert(t[k] == n);
            assert forall|y: Seq<char>| #[trigger] ins[n].contains(y) implies live_after.contains(y) by {
                lemma_union_over_has(ins, t, k, y);
            }
            assert(agree_on(m1s, m2s, ins[n]));
            lemma_elimination_keeps_output_from(g0, g1, changed, n, m1s, m2s, (fuel - 1) as nat);
        },
    }
}

/// Dead-store elimination keeps what a program returns: on any input on
/// which the graph's run succeeds, the run after elimination succeeds too
/// and ends with the same value of the output variable. (Only the exit block
/// may end a run, as in the graph of a program.)
pub proof fn lemma_elimination_keeps_output(
    g0: ControlFlowGraph,
    g1: ControlFlowGraph,
    changed: bool,
    input: i32,
    fuel: nat,
)
    requires
        g0.wf(),
        rewritten(g0, g1, elimination_rule(g0), changed),
        is_live_solution(&g0, live_sets(&g0).0, live_sets(&g0).1),
        forall|k: int|
            0 <= k < g0.spec_blocks().len() && (#[trigger] g0.spec_blocks()[k]).outgoing is End ==> k
                == g0.exit,
        run_graph(g0, input, fuel) is Ok,
    ensures
        run_graph(g1, input, fuel) is Ok,
        run_graph(g1, input, fuel)->Ok_0.contains_key(g0.output@) == run_graph(g0, input, fuel)->Ok_0.contains_key(
            g0.output@,
        ),
        run_graph(g0, input, fuel)->Ok_0.contains_key(g0.output@) ==> run_graph(g1, input, fuel)->Ok_0[g0.output@]
            == run_graph(g0, input, fuel)->Ok_0[g0.output@],
{
    let m = Map::<Seq<char>, i32>::empty().insert(g0.input@, input);
    lemma_elimination_keeps_output_from(g0, g1, changed, g0.entry as int, m, m, fuel);
    assert(set![g0.output@].contains(g0.output@));
}

/// When the first run succeeds, so does the second, and both end with the
/// same value of `out`, or both without one.
pub open spec fn same_output(
    r0: Result<Map<Seq<char>, i32>, RuntimeError>,
    r1: Result<Map<Seq<char>, i32>, RuntimeError>,
    out: Seq<char>,
) -> bool {
    r0 is Ok ==> {
        &&& r1 is Ok
        &&& r1->Ok_0.contains_key(out) == r0->Ok_0.contains_key(out)
        &&& r0->Ok_0.contains_key(out) ==> r1->Ok_0[out] == r0->Ok_0[out]
    }
}

proof fn lemma_pass_keeps_output(
    p: OptimizationPass,
    g0: ControlFlowGraph,
    g1: ControlFlowGraph,
    changed: bool,
    input: i32,
    fuel: nat,
)
    requires
        g0.wf(),
        ends_only_at_exit(g0),
        pass_result(p, g0, g1, changed),
    ensures
        g1.wf(),
        ends_only_at_exit(g1),
        g1.output == g0.output,
        same_output(run_graph(g0, input, fuel), run_graph(g1, input, fuel), g0.output@),
{
    reveal(pass_result);
    let (rule, ok) = match p {
        OptimizationPass::ConstantPropagation => (propagation_rule(g0), true),
        OptimizationPass::ConstantFolding => (folding_rule(), true),
        OptimizationPass::DeadStoreElimination => (elimination_rule(g0), true),
    };
    lemma_rewritten_wf(g0, g1, rule, changed);
    assert forall|k: int|
        0 <= k < g1.spec_blocks().len() && (#[trigger] g1.spec_blocks()[k]).outgoing is End implies k == g1.exit by {
        assert(g1.spec_blocks()[k] == with_statement(g0.spec_blocks()[k], rule(k, g0.spec_blocks()[k].statement)));
        assert(g0.spec_blocks()[k].outgoing is End);
    }
    if run_graph(g0, input, fuel) is Ok {
        match p {
            OptimizationPass::ConstantPropagation => {
                lemma_propagation_keeps_runs(g0, g1, changed, input, fuel);
            },
            OptimizationPass::ConstantFolding => {
                lemma_folding_keeps_runs(
                    g0,
                    g1,
                    changed,
                    g0.entry as int,
                    Map::empty().insert(g0.input@, input),
                    fuel,
                );
            },
            OptimizationPass::DeadStoreElimination => {
                lemma_elimination_keeps_output(g0, g1, changed, input, fuel);
            },
        }
    }
}

proof fn lemma_round_keeps_output(
    passes: Seq<OptimizationPass>,
    gs: Seq<ControlFlowGraph>,
    fs: Seq<bool>,
    i: int,
    input: i32,
    fuel: nat,
)
    requires
        round_run(passes, gs, fs),
        0 <= i <= passes.len(),
        gs[0].wf(),
        ends_only_at_exit(gs[0]),
    ensures
        gs[i].wf(),
        ends_only_at_exit(gs[i]),
        gs[i].output == gs[0].output,
        same_output(run_graph(gs[0], input, fuel), run_graph(gs[i], input, fuel), gs[0].output@),
    decreases i,
{
    if i > 0 {
        lemma_round_keeps_output(passes, gs, fs, i - 1, input, fuel);
        assert(pass_result(passes[i - 1], gs[i - 1], gs[i], fs[i - 1]));
        lemma_pass_keeps_output(passes[i - 1], gs[i - 1], gs[i], fs[i - 1], input, fuel);
    }
}

proof fn lemma_rounds_keep_output(
    passes: Seq<OptimizationPass>,
    start: ControlFlowGraph,
    graphs: Seq<Seq<ControlFlowGraph>>,
    flags: Seq<Seq<bool>>,
    j: int,
    input: i32,
    fuel: nat,
)
    requires
        graphs.len() == flags.len(),
        0 <= j <= graphs.len(),
        forall|r: int| #![trigger graphs[r]] 0 <= r < graphs.len() ==> round_run(passes, graphs[r], flags[r]),
        forall|r: int|
            #![trigger graphs[r]]
            0 <= r < graphs.len() ==> graphs[r][0] == if r == 0 {
                start
            } else {
                graphs[r - 1][passes.len() as int]
            },
        start.wf(),
        ends_only_at_exit(start),
    ensures
        ({
            let g = if j == 0 {
                start
            } else {
                graphs[j - 1][passes.len() as int]
            };
            &&& g.wf()
            &&& ends_only_at_exit(g)
            &&& g.output == start.output
            &&& same_output(run_graph(start, input, fuel), run_graph(g, input, fuel), start.output@)
        }),
    decreases j,
{
    if j > 0 {
        lemma_rounds_keep_output(passes, start, graphs, flags, j - 1, input, fuel);
        assert(round_run(passes, graphs[j - 1], flags[j - 1]));
        assert(graphs[j - 1][0] == if j - 1 == 0 {
            start
        } else {
            graphs[j - 2][passes.len() as int]
        });
        lemma_round_keeps_output(passes, graphs[j - 1], flags[j - 1], passes.len() as int, input, fuel);
    }
}

/// The optimization pipeline keeps what a program returns: on any input on
/// which the graph's run succeeds, the run of the optimized graph succeeds
/// as well and ends with the same value of the output variable.
pub proof fn lemma_pipeline_keeps_output(
    passes: Seq<OptimizationPass>,
    maximum_rounds: nat,
    start: ControlFlowGraph,
    graphs: Seq<Seq<ControlFlowGraph>>,
    flags: Seq<Seq<bool>>,
    end: ControlFlowGraph,
    result: OptimizationResult,
    input: i32,
    fuel: nat,
)
    requires
        start.wf(),
        ends_only_at_exit(start),
        pipeline_run(passes, maximum_rounds, start, graphs, flags, end, result),
    ensures
        same_output(run_graph(start, input, fuel), run_graph(end, input, fuel), start.output@),
{
    lemma_rounds_keep_output(passes, start, graphs, flags, result.rounds as int, input, fuel);
}

// ---------------------------------------------------------------------------
// Reading only surely defined variables.

/// An expression whose variables the memory holds is computed, or it
/// overflows; it never reads an undefined variable.
proof fn lemma_aexpr_reads_defined(e: AExpr, m: Map<Seq<char>, i32>)
    requires
        aexpr_vars(e).subset_of(m.dom()),
    ensures
        aexpr_value(e, m) matches Err(err) ==> err is ArithmeticOverflow,
    decreases e,
{
    match e {
        AExpr::Var(x) => {
            assert(aexpr_vars(e).contains(x@));
        },
        AExpr::Add(a, b) | AExpr::Sub(a, b) | AExpr::Mul(a, b) => {
            lemma_aexpr_reads_defined(*a, m);
            lemma_aexpr_reads_defined(*b, m);
        },
        _ => {},
    }
}

proof fn lemma_bexpr_reads_defined(e: BExpr, m: Map<Seq<char>, i32>)
    requires
        bexpr_vars(e).subset_of(m.dom()),
    ensures
        bexpr_value(e, m) matches Err(err) ==> err is ArithmeticOverflow,
    decreases e,
{
    match e {
        BExpr::And(a, b) => {
            lemma_bexpr_reads_defined(*a, m);
            lemma_bexpr_reads_defined(*b, m);
        },
        BExpr::Not(a) => {
            lemma_bexpr_reads_defined(*a, m);
        },
        BExpr::Less(a, b) => {
            lemma_aexpr_reads_defined(*a, m);
            lemma_aexpr_reads_defined(*b, m);
        },
        _ => {},
    }
}

/// The meet of sets lies in each of them.
proof fn lemma_meet_below<A>(list: Seq<Set<A>>, top: Set<A>, j: int)
    requires
        0 <= j < list.len(),
    ensures
        meet(list, top).subset_of(list[j]),
    decreases list.len(),
{
    if list.len() > 1 && j < list.len() - 1 {
        lemma_meet_below(list.drop_last(), top, j);
        assert(list.drop_last()[j] == list[j]);
    }
}

/// A block whose statement reads only variables the memory holds steps
/// without reading an undefined variable, and the memory after it holds
/// those variables and the one it assigns.
proof fn lemma_step_reads_defined(blk: BasicBlock, m: Map<Seq<char>, i32>, known: Set<Seq<char>>)
    requires
        uses(blk.statement).subset_of(known),
        known.subset_of(m.dom()),
    ensures
        block_step(blk, m) matches Err(err) ==> err is ArithmeticOverflow,
        block_step(blk, m) matches Ok((m2, next)) ==> defined_out(blk.statement, known).subset_of(m2.dom())
            && (next matches Some(n) ==> edge_targets(blk.outgoing).contains(n)),
{
    match blk.statement {
        SimpleStatement::Assign(x, e) => lemma_aexpr_reads_defined(e, m),
        SimpleStatement::Guard(g) => lemma_bexpr_reads_defined(g, m),
        _ => {},
    }
    match blk.outgoing {
        OutgoingEdges::Goto(n) => {
            assert(edge_targets(blk.outgoing)[0] == n);
        },
        OutgoingEdges::Branch { on_true, on_false } => {
            assert(edge_targets(blk.outgoing)[0] == on_true);
            assert(edge_targets(blk.outgoing)[1] == on_false);
        },
        _ => {},
    }
}

/// Where `b` has an edge to `n`, what is defined after `b` includes what is
/// surely defined on entry to `n`.
proof fn lemma_defined_along_edge(
    cfg: ControlFlowGraph,
    ins: Seq<Set<Seq<char>>>,
    outs: Seq<Set<Seq<char>>>,
    b: int,
    n: BlockId,
)
    requires
        cfg.wf(),
        is_defined_solution(&cfg, ins, outs),
        0 <= b < cfg.spec_blocks().len(),
        edge_targets(cfg.spec_blocks()[b].outgoing).contains(n),
    ensures
        n < cfg.spec_blocks().len(),
        ins[n as int].subset_of(outs[b]),
{
    let bs = cfg.spec_blocks();
    let j = choose|j: int| 0 <= j < edge_targets(bs[b].outgoing).len() && edge_targets(bs[b].outgoing)[j] == n;
    assert(edge_targets(bs[b].outgoing)[j] < bs.len());
    lemma_pred_list_members(bs, n, bs.len() as int, b);
    let preds = pred_list(bs, n, bs.len() as int);
    assert(bs[b].id == b);
    assert(preds.contains(b as BlockId));
    let k = choose|k: int| 0 <= k < preds.len() && preds[k] == b as BlockId;
    let list = incoming(&cfg, outs, n as int);
    assert(list[k] == outs[b]);
    lemma_meet_below(list, crate::miniimp::dataflow::graph_vars(&cfg), k);
    assert(defined_block_ok(&cfg, ins, outs, n as int));
    reveal(defined_in);
}

proof fn lemma_run_reads_defined(
    cfg: ControlFlowGraph,
    ins: Seq<Set<Seq<char>>>,
    outs: Seq<Set<Seq<char>>>,
    b: int,
    m: Map<Seq<char>, i32>,
    fuel: nat,
)
    requires
        cfg.wf(),
        is_defined_solution(&cfg, ins, outs),
        forall|k: int|
            #![trigger cfg.spec_blocks()[k]]
            0 <= k < cfg.spec_blocks().len() ==> uses(cfg.spec_blocks()[k].statement).subset_of(ins[k]),
        0 <= b < cfg.spec_blocks().len() ==> ins[b].subset_of(m.dom()),
    ensures
        !(run_blocks(cfg.spec_blocks(), b, m, fuel) matches Err(RuntimeError::UndefinedVariable(_))),
        (forall|k: int|
            #![trigger cfg.spec_blocks()[k]]
            0 <= k < cfg.spec_blocks().len() && cfg.spec_blocks()[k].outgoing is End ==> ins[k].contains(cfg.output@))
            ==> (run_blocks(cfg.spec_blocks(), b, m, fuel) matches Ok(last) ==> last.contains_key(cfg.output@)),
    decreases fuel,
{
    let bs = cfg.spec_blocks();
    if fuel > 0 && 0 <= b < bs.len() {
        assert(uses(bs[b].statement).subset_of(ins[b]));
        lemma_step_reads_defined(bs[b], m, ins[b]);
        assert(defined_block_ok(&cfg, ins, outs, b));
        match block_step(bs[b], m) {
            Ok((m2, Some(n))) => {
                lemma_defined_along_edge(cfg, ins, outs, b, n);
                lemma_run_reads_defined(cfg, ins, outs, n as int, m2, (fuel - 1) as nat);
            },
            Ok((m2, None)) => {
                assert(bs[b].outgoing is End);
            },
            _ => {},
        }
    }
}

/// A graph whose every block reads only variables that a solution of the
/// defined-variable equations has on entry to the block never reads an
/// undefined variable: no run of it, on any input and however long, stops
/// with that error. Where, moreover, the output is surely defined on entry
/// to every block without successor, a run that ends holds the output.
pub proof fn lemma_defined_reads_never_fail(
    cfg: ControlFlowGraph,
    ins: Seq<Set<Seq<char>>>,
    outs: Seq<Set<Seq<char>>>,
    input: i32,
    fuel: nat,
)
    requires
        cfg.wf(),
        is_defined_solution(&cfg, ins, outs),
        forall|k: int|
            #![trigger cfg.spec_blocks()[k]]
            0 <= k < cfg.spec_blocks().len() ==> uses(cfg.spec_blocks()[k].statement).subset_of(ins[k]),
    ensures
        !(run_graph(cfg, input, fuel) matches Err(RuntimeError::UndefinedVariable(_))),
        (forall|k: int|
            #![trigger cfg.spec_blocks()[k]]
            0 <= k < cfg.spec_blocks().len() && cfg.spec_blocks()[k].outgoing is End ==> ins[k].contains(cfg.output@))
            ==> (run_graph(cfg, input, fuel) matches Ok(last) ==> last.contains_key(cfg.output@)),
{
    let e = cfg.entry as int;
    let m = Map::<Seq<char>, i32>::empty().insert(cfg.input@, input);
    let list = incoming(&cfg, outs, e);
    let np = pred_list(cfg.spec_blocks(), cfg.entry, cfg.spec_blocks().len() as int).len();
    assert(list[np as int] == set![cfg.input@]);
    lemma_meet_below(list, crate::miniimp::dataflow::graph_vars(&cfg), np as int);
    assert(defined_block_ok(&cfg, ins, outs, e));
    reveal(defined_in);
    assert(set![cfg.input@].subset_of(m.dom()));
    lemma_run_reads_defined(cfg, ins, outs, e, m, fuel);
}

} // verus!

