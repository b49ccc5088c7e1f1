use vstd::prelude::*;
use crate::miniimp::ast::{same_aexpr, same_bexpr, AExpr, BExpr};
use crate::miniimp::cfg::{ControlFlowGraph, SimpleStatement};
use crate::miniimp::dataflow::{
    is_least_live_solution, is_least_reaching_solution, is_live_solution, is_reaching_solution,
    lemma_least_live_unique, lemma_least_reaching_unique, live_block_ok, live_sets, reaching_block_ok,
    reaching_sets,
};
use crate::miniimp::optimizations::{
    constant_of, eliminate_statement, elimination_rule, fold_a, fold_and, fold_b, fold_less, fold_not,
    fold_op, fold_statement, folding_rule, pass_result, pipeline_run, propagate_a, propagate_b,
    propagate_statement, propagation_rule, rewritten, round_run, same_statement, statements_of,
    with_statement, OptimizationPass, OptimizationResult,
};
use crate::miniimp::printed::{
    lemma_statement_text_injective, plain_a, plain_b, plain_statement, statement_like,
};

verus! {

/// Two graph values that agree in every field: input, output, entry, exit
/// and the blocks.
pub open spec fn same_graph(g: ControlFlowGraph, h: ControlFlowGraph) -> bool {
    &&& g.input == h.input
    &&& g.output == h.output
    &&& g.entry == h.entry
    &&& g.exit == h.exit
    &&& g.spec_blocks() == h.spec_blocks()
}

// ---------------------------------------------------------------------------
// A rewrite that reports no change returns each statement as it was.

/// The number of nodes of a Boolean expression.
pub open spec fn bsize(e: BExpr) -> nat
    decreases e,
{
    match e {
        BExpr::And(l, r) => 1 + bsize(*l) + bsize(*r),
        BExpr::Not(v) => 1 + bsize(*v),
        _ => 1,
    }
}

proof fn lemma_same_bsize(a: BExpr, b: BExpr)
    requires
        same_bexpr(a, b),
    ensures
        bsize(a) == bsize(b),
    decreases a,
{
    match (a, b) {
        (BExpr::And(a1, a2), BExpr::And(b1, b2)) => {
            lemma_same_bsize(*a1, *b1);
            lemma_same_bsize(*a2, *b2);
        },
        (BExpr::Not(a1), BExpr::Not(b1)) => {
            lemma_same_bsize(*a1, *b1);
        },
        _ => {},
    }
}

proof fn lemma_fold_b_size(e: BExpr)
    ensures
        bsize(fold_b(e)) <= bsize(e),
    decreases e,
{
    match e {
        BExpr::And(l, r) => {
            lemma_fold_b_size(*l);
            lemma_fold_b_size(*r);
        },
        BExpr::Not(v) => {
            lemma_fold_b_size(*v);
        },
        _ => {},
    }
}

proof fn lemma_fold_a_unchanged(e: AExpr)
    requires
        same_aexpr(fold_a(e), e),
    ensures
        fold_a(e) == e,
    decreases e,
{
    match e {
        AExpr::Add(l, r) => {
            if same_aexpr(fold_a(*l), *l) {
                lemma_fold_a_unchanged(*l);
            }
            if same_aexpr(fold_a(*r), *r) {
                lemma_fold_a_unchanged(*r);
            }
        },
        AExpr::Sub(l, r) => {
            if same_aexpr(fold_a(*l), *l) {
                lemma_fold_a_unchanged(*l);
            }
            if same_aexpr(fold_a(*r), *r) {
                lemma_fold_a_unchanged(*r);
            }
        },
        AExpr::Mul(l, r) => {
            if same_aexpr(fold_a(*l), *l) {
                lemma_fold_a_unchanged(*l);
            }
            if same_aexpr(fold_a(*r), *r) {
                lemma_fold_a_unchanged(*r);
            }
        },
        _ => {},
    }
}

proof fn lemma_fold_b_unchanged(e: BExpr)
    requires
        same_bexpr(fold_b(e), e),
    ensures
        fold_b(e) == e,
    decreases e,
{
    lemma_same_bsize(fold_b(e), e);
    match e {
        BExpr::And(l, r) => {
            lemma_fold_b_size(*l);
            lemma_fold_b_size(*r);
            if same_bexpr(fold_b(*l), *l) {
                lemma_fold_b_unchanged(*l);
            }
            if same_bexpr(fold_b(*r), *r) {
                lemma_fold_b_unchanged(*r);
            }
        },
        BExpr::Not(v) => {
            if same_bexpr(fold_b(*v), *v) {
                lemma_fold_b_unchanged(*v);
            }
        },
        BExpr::Less(l, r) => {
            if same_aexpr(fold_a(*l), *l) {
                lemma_fold_a_unchanged(*l);
            }
            if same_aexpr(fold_a(*r), *r) {
                lemma_fold_a_unchanged(*r);
            }
        },
        _ => {},
    }
}

proof fn lemma_propagate_a_unchanged(e: AExpr, st: Seq<SimpleStatement>, defs: Set<crate::miniimp::dataflow::DefinitionView>)
    requires
        same_aexpr(propagate_a(e, st, defs), e),
    ensures
        propagate_a(e, st, defs) == e,
    decreases e,
{
    match e {
        AExpr::Add(l, r) => {
            lemma_propagate_a_unchanged(*l, st, defs);
            lemma_propagate_a_unchanged(*r, st, defs);
        },
        AExpr::Sub(l, r) => {
            lemma_propagate_a_unchanged(*l, st, defs);
            lemma_propagate_a_unchanged(*r, st, defs);
        },
        AExpr::Mul(l, r) => {
            lemma_propagate_a_unchanged(*l, st, defs);
            lemma_propagate_a_unchanged(*r, st, defs);
        },
        _ => {},
    }
}

proof fn lemma_propagate_b_unchanged(e: BExpr, st: Seq<SimpleStatement>, defs: Set<crate::miniimp::dataflow::DefinitionView>)
    requires
        same_bexpr(propagate_b(e, st, defs), e),
    ensures
        propagate_b(e, st, defs) == e,
    decreases e,
{
    match e {
        BExpr::And(l, r) => {
            lemma_propagate_b_unchanged(*l, st, defs);
            lemma_propagate_b_unchanged(*r, st, defs);
        },
        BExpr::Not(v) => {
            lemma_propagate_b_unchanged(*v, st, defs);
        },
        BExpr::Less(l, r) => {
            lemma_propagate_a_unchanged(*l, st, defs);
            lemma_propagate_a_unchanged(*r, st, defs);
        },
        _ => {},
    }
}


// ---------------------------------------------------------------------------
// The analyses and the rules of a graph depend only on its fields.

proof fn lemma_same_graph_reaching(g: ControlFlowGraph, h: ControlFlowGraph)
    requires
        same_graph(g, h),
        is_least_reaching_solution(&g, reaching_sets(&g).0, reaching_sets(&g).1),
    ensures
        reaching_sets(&h) == reaching_sets(&g),
        is_least_reaching_solution(&h, reaching_sets(&h).0, reaching_sets(&h).1),
{
    assert forall|i: Seq<Set<crate::miniimp::dataflow::DefinitionView>>, o: Seq<Set<crate::miniimp::dataflow::DefinitionView>>|
        #![trigger is_reaching_solution(&g, i, o)]
        #![trigger is_reaching_solution(&h, i, o)]
        is_reaching_solution(&g, i, o) == is_reaching_solution(&h, i, o) by {
        assert forall|b: int|
            #![trigger reaching_block_ok(&g, i, o, b)]
            #![trigger reaching_block_ok(&h, i, o, b)]
            reaching_block_ok(&g, i, o, b) == reaching_block_ok(&h, i, o, b) by {
            reveal(crate::miniimp::dataflow::reaching_in);
        }
    }
    let (i, o) = reaching_sets(&g);
    assert(is_least_reaching_solution(&h, i, o));
    lemma_least_reaching_unique(&h, i, o);
}

proof fn lemma_same_graph_live(g: ControlFlowGraph, h: ControlFlowGraph)
    requires
        same_graph(g, h),
        is_least_live_solution(&g, live_sets(&g).0, live_sets(&g).1),
    ensures
        live_sets(&h) == live_sets(&g),
        is_least_live_solution(&h, live_sets(&h).0, live_sets(&h).1),
{
    assert forall|i: Seq<Set<Seq<char>>>, o: Seq<Set<Seq<char>>>|
        #![trigger is_live_solution(&g, i, o)]
        #![trigger is_live_solution(&h, i, o)]
        is_live_solution(&g, i, o) == is_live_solution(&h, i, o) by {
        assert forall|b: int|
            #![trigger live_block_ok(&g, i, o, b)]
            #![trigger live_block_ok(&h, i, o, b)]
            live_block_ok(&g, i, o, b) == live_block_ok(&h, i, o, b) by {
            reveal(crate::miniimp::dataflow::live_out);
        }
    }
    let (i, o) = live_sets(&g);
    assert(is_least_live_solution(&h, i, o));
    lemma_least_live_unique(&h, i, o);
}

/// The rule of a pass: what it does to the statement of each block.
pub open spec fn pass_rule(p: OptimizationPass, g: ControlFlowGraph) -> spec_fn(int, SimpleStatement) -> SimpleStatement {
    match p {
        OptimizationPass::ConstantPropagation => propagation_rule(g),
        OptimizationPass::ConstantFolding => folding_rule(),
        OptimizationPass::DeadStoreElimination => elimination_rule(g),
    }
}

proof fn lemma_pass_result_parts(p: OptimizationPass, g: ControlFlowGraph, g1: ControlFlowGraph, c: bool)
    requires
        pass_result(p, g, g1, c),
    ensures
        rewritten(g, g1, pass_rule(p, g), c),
        p is ConstantPropagation ==> is_least_reaching_solution(&g, reaching_sets(&g).0, reaching_sets(&g).1),
        p is DeadStoreElimination ==> is_least_live_solution(&g, live_sets(&g).0, live_sets(&g).1),
{
    reveal(pass_result);
}

/// A pass on two graphs that agree in every field does the same to each
/// statement and reports the same.
proof fn lemma_pass_congruent(
    p: OptimizationPass,
    g: ControlFlowGraph,
    g1: ControlFlowGraph,
    c: bool,
    h: ControlFlowGraph,
    h1: ControlFlowGraph,
    d: bool,
)
    requires
        same_graph(g, h),
        pass_result(p, g, g1, c),
        pass_result(p, h, h1, d),
    ensures
        c == d,
{
    lemma_pass_result_parts(p, g, g1, c);
    lemma_pass_result_parts(p, h, h1, d);
    match p {
        OptimizationPass::ConstantPropagation => {
            lemma_same_graph_reaching(g, h);
            assert(statements_of(g) == statements_of(h));
        },
        OptimizationPass::DeadStoreElimination => {
            lemma_same_graph_live(g, h);
        },
        _ => {},
    }
    assert forall|k: int| #![trigger g.spec_blocks()[k]] 0 <= k < g.spec_blocks().len() implies pass_rule(p, g)(k, g.spec_blocks()[k].statement)
        == pass_rule(p, h)(k, h.spec_blocks()[k].statement) by {}
}

/// Every statement of the graph names its variables plainly.
pub open spec fn plain_graph(g: ControlFlowGraph) -> bool {
    forall|k: int|
        #![trigger g.spec_blocks()[k]]
        0 <= k < g.spec_blocks().len() ==> plain_statement(g.spec_blocks()[k].statement)
}

proof fn lemma_fold_a_plain(e: AExpr)
    requires
        plain_a(e),
    ensures
        plain_a(fold_a(e)),
    decreases e,
{
    match e {
        AExpr::Add(l, r) | AExpr::Sub(l, r) | AExpr::Mul(l, r) => {
            lemma_fold_a_plain(*l);
            lemma_fold_a_plain(*r);
        },
        _ => {},
    }
}

proof fn lemma_fold_b_plain(e: BExpr)
    requires
        plain_b(e),
    ensures
        plain_b(fold_b(e)),
    decreases e,
{
    match e {
        BExpr::And(l, r) => {
            lemma_fold_b_plain(*l);
            lemma_fold_b_plain(*r);
        },
        BExpr::Not(v) => {
            lemma_fold_b_plain(*v);
        },
        BExpr::Less(l, r) => {
            lemma_fold_a_plain(*l);
            lemma_fold_a_plain(*r);
        },
        _ => {},
    }
}

proof fn lemma_propagate_a_plain(e: AExpr, st: Seq<SimpleStatement>, defs: Set<crate::miniimp::dataflow::DefinitionView>)
    requires
        plain_a(e),
    ensures
        plain_a(propagate_a(e, st, defs)),
    decreases e,
{
    match e {
        AExpr::Add(l, r) | AExpr::Sub(l, r) | AExpr::Mul(l, r) => {
            lemma_propagate_a_plain(*l, st, defs);
            lemma_propagate_a_plain(*r, st, defs);
        },
        _ => {},
    }
}

proof fn lemma_propagate_b_plain(e: BExpr, st: Seq<SimpleStatement>, defs: Set<crate::miniimp::dataflow::DefinitionView>)
    requires
        plain_b(e),
    ensures
        plain_b(propagate_b(e, st, defs)),
    decreases e,
{
    match e {
        BExpr::And(l, r) => {
            lemma_propagate_b_plain(*l, st, defs);
            lemma_propagate_b_plain(*r, st, defs);
        },
        BExpr::Not(v) => {
            lemma_propagate_b_plain(*v, st, defs);
        },
        BExpr::Less(l, r) => {
            lemma_propagate_a_plain(*l, st, defs);
            lemma_propagate_a_plain(*r, st, defs);
        },
        _ => {},
    }
}

/// Each rule turns a statement with plain names into one with plain names.
proof fn lemma_rule_plain(p: OptimizationPass, g: ControlFlowGraph, k: int, s: SimpleStatement)
    requires
        plain_statement(s),
    ensures
        plain_statement(pass_rule(p, g)(k, s)),
{
    match p {
        OptimizationPass::ConstantFolding => match s {
            SimpleStatement::Assign(_, e) => lemma_fold_a_plain(e),
            SimpleStatement::Guard(b) => lemma_fold_b_plain(b),
            _ => {},
        },
        OptimizationPass::ConstantPropagation => {
            let st = statements_of(g);
            let defs = reaching_sets(&g).0[k];
            match s {
                SimpleStatement::Assign(_, e) => lemma_propagate_a_plain(e, st, defs),
                SimpleStatement::Guard(b) => lemma_propagate_b_plain(b, st, defs),
                _ => {},
            }
        },
        _ => {},
    }
}

/// A pass keeps the names of a graph plain.
proof fn lemma_pass_keeps_plain(p: OptimizationPass, g: ControlFlowGraph, g1: ControlFlowGraph, c: bool)
    requires
        pass_result(p, g, g1, c),
        plain_graph(g),
    ensures
        plain_graph(g1),
{
    lemma_pass_result_parts(p, g, g1, c);
    assert forall|k: int| #![trigger g1.spec_blocks()[k]] 0 <= k < g1.spec_blocks().len() implies plain_statement(
        g1.spec_blocks()[k].statement,
    ) by {
        let s = g.spec_blocks()[k].statement;
        lemma_rule_plain(p, g, k, s);
        assert(g1.spec_blocks()[k] == with_statement(g.spec_blocks()[k], pass_rule(p, g)(k, s)));
    }
}

/// A pass that reports no change on a graph with plain names leaves every
/// field of the graph as it was.
proof fn lemma_no_change_same(p: OptimizationPass, g: ControlFlowGraph, g1: ControlFlowGraph)
    requires
        pass_result(p, g, g1, false),
        plain_graph(g),
    ensures
        same_graph(g1, g),
{
    lemma_pass_result_parts(p, g, g1, false);
    let f = pass_rule(p, g);
    assert forall|k: int| 0 <= k < g.spec_blocks().len() implies #[trigger] g1.spec_blocks()[k] == g.spec_blocks()[k] by {
        let s = g.spec_blocks()[k].statement;
        assert(same_statement(f(k, s), s));
        assert(plain_statement(s));
        lemma_rule_plain(p, g, k, s);
        lemma_statement_text_injective(f(k, s), s);
        assert(statement_like(f(k, s), s));
        match p {
            OptimizationPass::ConstantFolding => {
                match s {
                    SimpleStatement::Assign(_, e) => lemma_fold_a_unchanged(e),
                    SimpleStatement::Guard(b) => lemma_fold_b_unchanged(b),
                    _ => {},
                }
            },
            OptimizationPass::ConstantPropagation => {
                let st = statements_of(g);
                let defs = reaching_sets(&g).0[k];
                match s {
                    SimpleStatement::Assign(_, e) => lemma_propagate_a_unchanged(e, st, defs),
                    SimpleStatement::Guard(b) => lemma_propagate_b_unchanged(b, st, defs),
                    _ => {},
                }
            },
            _ => {},
        }
        assert(f(k, s) == s);
        assert(g1.spec_blocks()[k] == with_statement(g.spec_blocks()[k], s));
    }
    assert(g1.spec_blocks() =~= g.spec_blocks());
}


/// In a round where no pass reported a change, from a graph with plain
/// names, every graph of the round agrees in every field with the first.
proof fn lemma_quiet_round(passes: Seq<OptimizationPass>, gs: Seq<ControlFlowGraph>, fs: Seq<bool>, j: int)
    requires
        round_run(passes, gs, fs),
        !fs.contains(true),
        plain_graph(gs[0]),
        0 <= j <= passes.len(),
    ensures
        same_graph(gs[j], gs[0]),
    decreases j,
{
    if j > 0 {
        lemma_quiet_round(passes, gs, fs, j - 1);
        assert(pass_result(passes[j - 1], gs[j - 1], gs[j], fs[j - 1]));
        if fs[j - 1] {
            assert(fs.contains(true));
        }
        assert(plain_graph(gs[j - 1]));
        lemma_no_change_same(passes[j - 1], gs[j - 1], gs[j]);
    }
}

/// Every graph of a round starts from a graph with plain names has plain
/// names.
proof fn lemma_round_keeps_plain(passes: Seq<OptimizationPass>, gs: Seq<ControlFlowGraph>, fs: Seq<bool>, j: int)
    requires
        round_run(passes, gs, fs),
        plain_graph(gs[0]),
        0 <= j <= passes.len(),
    ensures
        plain_graph(gs[j]),
    decreases j,
{
    if j > 0 {
        lemma_round_keeps_plain(passes, gs, fs, j - 1);
        assert(pass_result(passes[j - 1], gs[j - 1], gs[j], fs[j - 1]));
        lemma_pass_keeps_plain(passes[j - 1], gs[j - 1], gs[j], fs[j - 1]);
    }
}

proof fn lemma_rounds_keep_plain(
    passes: Seq<OptimizationPass>,
    start: ControlFlowGraph,
    graphs: Seq<Seq<ControlFlowGraph>>,
    flags: Seq<Seq<bool>>,
    j: int,
)
    requires
        graphs.len() == flags.len(),
        0 <= j <= graphs.len(),
        forall|r: int| #![trigger graphs[r]] 0 <= r < graphs.len() ==> round_run(passes, graphs[r], flags[r]),
        forall|r: int|
            #![trigger graphs[r]]
            0 <= r < graphs.len() ==> graphs[r][0] == if r == 0 {
                start
            } else {
                graphs[r - 1][passes.len() as int]
            },
        plain_graph(start),
    ensures
        plain_graph(if j == 0 { start } else { graphs[j - 1][passes.len() as int] }),
    decreases j,
{
    if j > 0 {
        lemma_rounds_keep_plain(passes, start, graphs, flags, j - 1);
        assert(round_run(passes, graphs[j - 1], flags[j - 1]));
        assert(graphs[j - 1][0] == if j - 1 == 0 {
            start
        } else {
            graphs[j - 2][passes.len() as int]
        });
        lemma_round_keeps_plain(passes, graphs[j - 1], flags[j - 1], passes.len() as int);
    }
}

/// At a fixed point the passes have nothing left to do: when a run of the
/// pipeline from a graph whose variables have plain names stops because its
/// last round changed nothing, each of its passes, applied to the final
/// graph, reports no change.
pub proof fn lemma_fixed_point_is_stable(
    passes: Seq<OptimizationPass>,
    maximum_rounds: nat,
    start: ControlFlowGraph,
    graphs: Seq<Seq<ControlFlowGraph>>,
    flags: Seq<Seq<bool>>,
    end: ControlFlowGraph,
    result: OptimizationResult,
)
    requires
        pipeline_run(passes, maximum_rounds, start, graphs, flags, end, result),
        result.reached_fixed_point,
        plain_graph(start),
    ensures
        forall|i: int, g2: ControlFlowGraph, c2: bool|
            0 <= i < passes.len() && #[trigger] pass_result(passes[i], end, g2, c2) ==> !c2,
{
    let n = result.rounds as int;
    let gs = graphs[n - 1];
    let fs = flags[n - 1];
    assert(round_run(passes, gs, fs));
    let m = passes.len() as int;
    lemma_rounds_keep_plain(passes, start, graphs, flags, n - 1);
    assert(graphs[n - 1][0] == if n - 1 == 0 {
        start
    } else {
        graphs[n - 2][m]
    });
    assert forall|i: int, g2: ControlFlowGraph, c2: bool|
        0 <= i < passes.len() && #[trigger] pass_result(passes[i], end, g2, c2) implies !c2 by {
        lemma_quiet_round(passes, gs, fs, i);
        lemma_quiet_round(passes, gs, fs, m);
        assert(pass_result(passes[i], gs[i], gs[i + 1], fs[i]));
        if fs[i] {
            assert(fs.contains(true));
        }
        assert(same_graph(gs[i], end));
        lemma_pass_congruent(passes[i], gs[i], gs[i + 1], false, end, g2, c2);
    }
}

} // verus!
