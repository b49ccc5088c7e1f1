use vstd::prelude::*;
use crate::miniimp::ast::{Command, Program};
use crate::miniimp::cfg::{
    command_size, edge_targets, ends_only_at_exit, layout, lemma_layout, mk_block, program_blocks, BasicBlock,
    ControlFlowGraph, OutgoingEdges, SimpleStatement,
};
use crate::miniimp::eval::{bexpr_value, program_result, run_command, FUEL};
use crate::miniimp::graph_runs::{block_step, lemma_pipeline_keeps_output, run_blocks, run_graph};
use crate::miniimp::optimizations::{pipeline_run, OptimizationPass, OptimizationResult};
use crate::miniimp::runtime::RuntimeError;

verus! {

/// Following `n` edges from block `b` in memory `m`: the block reached and the
/// memory there, or `None` where a step fails, leaves the graph or ends the run.
pub open spec fn walk(bs: Seq<BasicBlock>, b: int, m: Map<Seq<char>, i32>, n: nat) -> Option<
    (int, Map<Seq<char>, i32>),
>
    decreases n,
{
    if n == 0 {
        Some((b, m))
    } else if !(0 <= b < bs.len()) {
        None
    } else {
        match block_step(bs[b], m) {
            Ok((m2, Some(t))) => walk(bs, t as int, m2, (n - 1) as nat),
            _ => None,
        }
    }
}

/// The blocks `blocks` stand in `bs` from position `base` on.
pub open spec fn placed(bs: Seq<BasicBlock>, blocks: Seq<BasicBlock>, base: int) -> bool {
    &&& 0 <= base
    &&& base + blocks.len() <= bs.len()
    &&& forall|i: int| #![trigger blocks[i]] 0 <= i < blocks.len() ==> bs[base + i] == blocks[i]
}

proof fn lemma_walk_compose(
    bs: Seq<BasicBlock>,
    b: int,
    m: Map<Seq<char>, i32>,
    n1: nat,
    b1: int,
    m1: Map<Seq<char>, i32>,
    n2: nat,
)
    requires
        walk(bs, b, m, n1) == Some((b1, m1)),
    ensures
        walk(bs, b, m, n1 + n2) == walk(bs, b1, m1, n2),
    decreases n1,
{
    if n1 > 0 {
        match block_step(bs[b], m) {
            Ok((m2, Some(t))) => {
                lemma_walk_compose(bs, t as int, m2, (n1 - 1) as nat, b1, m1, n2);
                assert((n1 + n2 - 1) as nat == ((n1 - 1) as nat + n2) as nat);
            },
            _ => {},
        }
    }
}

proof fn lemma_walk_runs(
    bs: Seq<BasicBlock>,
    b: int,
    m: Map<Seq<char>, i32>,
    n: nat,
    b1: int,
    m1: Map<Seq<char>, i32>,
    fuel: nat,
)
    requires
        walk(bs, b, m, n) == Some((b1, m1)),
    ensures
        run_blocks(bs, b, m, n + fuel) == run_blocks(bs, b1, m1, fuel),
    decreases n,
{
    if n > 0 {
        match block_step(bs[b], m) {
            Ok((m2, Some(t))) => {
                lemma_walk_runs(bs, t as int, m2, (n - 1) as nat, b1, m1, fuel);
                assert((n + fuel - 1) as nat == ((n - 1) as nat + fuel) as nat);
            },
            _ => {},
        }
    }
}

proof fn lemma_placed_split(bs: Seq<BasicBlock>, x: Seq<BasicBlock>, y: Seq<BasicBlock>, base: int)
    requires
        placed(bs, x + y, base),
    ensures
        placed(bs, x, base),
        placed(bs, y, base + x.len()),
{
    assert forall|i: int| #![trigger x[i]] 0 <= i < x.len() implies bs[base + i] == x[i] by {
        assert((x + y)[i] == x[i]);
    }
    assert forall|i: int| #![trigger y[i]] 0 <= i < y.len() implies bs[base + x.len() + i] == y[i] by {
        assert((x + y)[x.len() + i] == y[i]);
    }
}

/// One step through a block placed at `at`.
proof fn lemma_walk_one(bs: Seq<BasicBlock>, at: int, m: Map<Seq<char>, i32>, m2: Map<Seq<char>, i32>, t: usize, n: nat)
    requires
        0 <= at < bs.len(),
        block_step(bs[at], m) == Ok::<_, RuntimeError>((m2, Some(t))),
    ensures
        walk(bs, at, m, n + 1) == walk(bs, t as int, m2, n),
{
    assert((n + 1 - 1) as nat == n);
}

/// A command whose graph stands in `bs`, run to completion from memory `m`:
/// the walk from its entry block reaches the block after it, `next`, with the
/// memory the command ends in. The result is the number of steps taken.
proof fn lemma_layout_runs(
    c: Command,
    next: int,
    base: int,
    bs: Seq<BasicBlock>,
    m: Map<Seq<char>, i32>,
    fuel: nat,
) -> (n: nat)
    requires
        0 <= next <= usize::MAX,
        1 <= base,
        base + command_size(c) <= usize::MAX + 1,
        placed(bs, layout(c, next, base).0, base),
        run_command(c, m, fuel).1 is Ok,
    ensures
        walk(bs, layout(c, next, base).1, m, n) == Some((next, run_command(c, m, fuel).0)),
    decreases fuel, c,
{
    lemma_layout(c, next, base);
    let blocks = layout(c, next, base).0;
    match c {
        Command::Skip => {
            assert(bs[base] == blocks[0]);
            lemma_walk_one(bs, base, m, m, next as usize, 0);
            1
        },
        Command::Assign(x, e) => {
            assert(bs[base] == blocks[0]);
            lemma_walk_one(bs, base, m, run_command(c, m, fuel).0, next as usize, 0);
            1
        },
        Command::Sequence(a, b) => {
            let (tb, b_entry) = layout(*b, next, base);
            lemma_layout(*b, next, base);
            let (ta, a_entry) = layout(*a, b_entry, base + tb.len());
            lemma_placed_split(bs, tb, ta, base);
            let m1 = run_command(*a, m, fuel).0;
            let n1 = lemma_layout_runs(*a, b_entry, base + tb.len(), bs, m, fuel);
            let n2 = lemma_layout_runs(*b, next, base, bs, m1, fuel);
            lemma_walk_compose(bs, a_entry, m, n1, b_entry, m1, n2);
            n1 + n2
        },
        Command::If(g, a, b) => {
            let (ta, a_entry) = layout(*a, next, base);
            lemma_layout(*a, next, base);
            let (tb, b_entry) = layout(*b, next, base + ta.len());
            lemma_layout(*b, next, base + ta.len());
            let guard = base + ta.len() + tb.len();
            let gb = mk_block(
                guard,
                SimpleStatement::Guard(g),
                OutgoingEdges::Branch { on_true: a_entry as usize, on_false: b_entry as usize },
            );
            lemma_placed_split(bs, ta + tb, seq![gb], base);
            lemma_placed_split(bs, ta, tb, base);
            assert(bs[guard] == seq![gb][0]);
            if bexpr_value(g, m) == Ok::<bool, RuntimeError>(true) {
                let n1 = lemma_layout_runs(*a, next, base, bs, m, fuel);
                lemma_walk_one(bs, guard, m, m, a_entry as usize, n1);
                n1 + 1
            } else {
                let n1 = lemma_layout_runs(*b, next, base + ta.len(), bs, m, fuel);
                lemma_walk_one(bs, guard, m, m, b_entry as usize, n1);
                n1 + 1
            }
        },
        Command::While(g, body) => {
            let (tb, body_entry) = layout(*body, base, base + 1);
            lemma_layout(*body, base, base + 1);
            let gb = mk_block(
                base,
                SimpleStatement::Guard(g),
                OutgoingEdges::Branch { on_true: body_entry as usize, on_false: next as usize },
            );
            lemma_placed_split(bs, seq![gb], tb, base);
            assert(bs[base] == seq![gb][0]);
            if bexpr_value(g, m) == Ok::<bool, RuntimeError>(false) {
                lemma_walk_one(bs, base, m, m, next as usize, 0);
                1
            } else {
                let m1 = run_command(*body, m, fuel).0;
                let n1 = lemma_layout_runs(*body, base, base + 1, bs, m, fuel);
                let n2 = lemma_layout_runs(c, next, base, bs, m1, (fuel - 1) as nat);
                lemma_walk_compose(bs, body_entry, m, n1, base, m1, n2);
                lemma_walk_one(bs, base, m, m, body_entry as usize, n1 + n2);
                n1 + n2 + 1
            }
        },
    }
}

/// A command whose graph stands in `bs`, stopped by error `e` (not the loop
/// budget) when run from memory `m`: the walk from its entry block reaches,
/// after the returned number of steps, a block whose step fails with `e`, in
/// the returned memory.
proof fn lemma_layout_fails(
    c: Command,
    next: int,
    base: int,
    bs: Seq<BasicBlock>,
    m: Map<Seq<char>, i32>,
    fuel: nat,
    e: RuntimeError,
) -> (r: (nat, int, Map<Seq<char>, i32>))
    requires
        0 <= next <= usize::MAX,
        1 <= base,
        base + command_size(c) <= usize::MAX + 1,
        placed(bs, layout(c, next, base).0, base),
        run_command(c, m, fuel).1 == Err::<(), RuntimeError>(e),
        !(e is OutOfFuel),
    ensures
        walk(bs, layout(c, next, base).1, m, r.0) == Some((r.1, r.2)),
        0 <= r.1 < bs.len(),
        block_step(bs[r.1], r.2) == Err::<(Map<Seq<char>, i32>, Option<usize>), RuntimeError>(e),
    decreases fuel, c,
{
    lemma_layout(c, next, base);
    let blocks = layout(c, next, base).0;
    match c {
        Command::Skip => {
            (0, base, m)
        },
        Command::Assign(x, ex) => {
            assert(bs[base] == blocks[0]);
            (0, base, m)
        },
        Command::Sequence(a, b) => {
            let (tb, b_entry) = layout(*b, next, base);
            lemma_layout(*b, next, base);
            let (ta, a_entry) = layout(*a, b_entry, base + tb.len());
            lemma_placed_split(bs, tb, ta, base);
            if run_command(*a, m, fuel).1 is Err {
                lemma_layout_fails(*a, b_entry, base + tb.len(), bs, m, fuel, e)
            } else {
                let m1 = run_command(*a, m, fuel).0;
                let n1 = lemma_layout_runs(*a, b_entry, base + tb.len(), bs, m, fuel);
                let r2 = lemma_layout_fails(*b, next, base, bs, m1, fuel, e);
                lemma_walk_compose(bs, a_entry, m, n1, b_entry, m1, r2.0);
                (n1 + r2.0, r2.1, r2.2)
            }
        },
        Command::If(g, a, b) => {
            let (ta, a_entry) = layout(*a, next, base);
            lemma_layout(*a, next, base);
            let (tb, b_entry) = layout(*b, next, base + ta.len());
            lemma_layout(*b, next, base + ta.len());
            let guard = base + ta.len() + tb.len();
            let gb = mk_block(
                guard,
                SimpleStatement::Guard(g),
                OutgoingEdges::Branch { on_true: a_entry as usize, on_false: b_entry as usize },
            );
            lemma_placed_split(bs, ta + tb, seq![gb], base);
            lemma_placed_split(bs, ta, tb, base);
            assert(bs[guard] == seq![gb][0]);
            if bexpr_value(g, m) is Err {
                (0, guard, m)
            } else if bexpr_value(g, m) == Ok::<bool, RuntimeError>(true) {
                let r1 = lemma_layout_fails(*a, next, base, bs, m, fuel, e);
                lemma_walk_one(bs, guard, m, m, a_entry as usize, r1.0);
                (r1.0 + 1, r1.1, r1.2)
            } else {
                let r1 = lemma_layout_fails(*b, next, base + ta.len(), bs, m, fuel, e);
                lemma_walk_one(bs, guard, m, m, b_entry as usize, r1.0);
                (r1.0 + 1, r1.1, r1.2)
            }
        },
        Command::While(g, body) => {
            let (tb, body_entry) = layout(*body, base, base + 1);
            lemma_layout(*body, base, base + 1);
            let gb = mk_block(
                base,
                SimpleStatement::Guard(g),
                OutgoingEdges::Branch { on_true: body_entry as usize, on_false: next as usize },
            );
            lemma_placed_split(bs, seq![gb], tb, base);
            assert(bs[base] == seq![gb][0]);
            if bexpr_value(g, m) is Err {
                (0, base, m)
            } else if run_command(*body, m, fuel).1 is Err {
                let r1 = lemma_layout_fails(*body, base, base + 1, bs, m, fuel, e);
                lemma_walk_one(bs, base, m, m, body_entry as usize, r1.0);
                (r1.0 + 1, r1.1, r1.2)
            } else {
                let m1 = run_command(*body, m, fuel).0;
                let n1 = lemma_layout_runs(*body, base, base + 1, bs, m, fuel);
                let r2 = lemma_layout_fails(c, next, base, bs, m1, (fuel - 1) as nat, e);
                lemma_walk_compose(bs, body_entry, m, n1, base, m1, r2.0);
                lemma_walk_one(bs, base, m, m, body_entry as usize, n1 + r2.0);
                (n1 + r2.0 + 1, r2.1, r2.2)
            }
        },
    }
}

/// From `k` steps on, running the graph on `input` gives `result`.
pub open spec fn graph_settles(
    cfg: ControlFlowGraph,
    input: i32,
    k: nat,
    result: Result<Map<Seq<char>, i32>, RuntimeError>,
) -> bool {
    forall|fuel: nat| #![trigger run_graph(cfg, input, fuel)] k <= fuel ==> run_graph(cfg, input, fuel) == result
}

/// The graph of a program runs as the program does. Where the body, run from a
/// memory that holds only the input, comes to its end, the graph, given enough
/// steps, ends in the same memory; where the body stops at an error other than
/// the exhausted loop budget, the graph, given enough steps, stops at the same
/// error.
pub proof fn lemma_graph_runs_as_program(p: Program, cfg: ControlFlowGraph, input: i32)
    requires
        command_size(p.body) < usize::MAX,
        cfg.spec_blocks() == program_blocks(p),
        cfg.entry == layout(p.body, 0, 1).1,
        cfg.input@ == p.input@,
    ensures
        ({
            let (m, r) = run_command(p.body, Map::empty().insert(p.input@, input), FUEL as nat);
            match r {
                Ok(_) => exists|k: nat| graph_settles(cfg, input, k, Ok(m)),
                Err(e) => !(e is OutOfFuel) ==> exists|k: nat| graph_settles(cfg, input, k, Err(e)),
            }
        }),
{
    let m0 = Map::<Seq<char>, i32>::empty().insert(p.input@, input);
    let pb = program_blocks(p);
    let exit_block = mk_block(0, SimpleStatement::Skip, OutgoingEdges::End);
    lemma_layout(p.body, 0, 1);
    let lb = layout(p.body, 0, 1).0;
    let entry = layout(p.body, 0, 1).1;
    assert forall|i: int| #![trigger lb[i]] 0 <= i < lb.len() implies pb[1 + i] == lb[i] by {
        assert(pb[1 + i] == (seq![exit_block] + lb)[1 + i]);
    }
    assert(placed(pb, lb, 1));
    assert(pb[0] == exit_block);
    let (m, r) = run_command(p.body, m0, FUEL as nat);
    match r {
        Ok(_) => {
            let n = lemma_layout_runs(p.body, 0, 1, pb, m0, FUEL as nat);
            assert forall|fuel: nat| #![trigger run_graph(cfg, input, fuel)] n + 1 <= fuel implies run_graph(
                cfg,
                input,
                fuel,
            ) == Ok::<_, RuntimeError>(m) by {
                lemma_walk_runs(pb, entry, m0, n, 0, m, (fuel - n) as nat);
                assert((n + (fuel - n) as nat) as nat == fuel);
            }
            assert(graph_settles(cfg, input, n + 1, Ok(m)));
        },
        Err(e) => {
            if !(e is OutOfFuel) {
                let w = lemma_layout_fails(p.body, 0, 1, pb, m0, FUEL as nat, e);
                assert forall|fuel: nat| #![trigger run_graph(cfg, input, fuel)] w.0 + 1 <= fuel implies run_graph(
                    cfg,
                    input,
                    fuel,
                ) == Err::<Map<Seq<char>, i32>, RuntimeError>(e) by {
                    lemma_walk_runs(pb, entry, m0, w.0, w.1, w.2, (fuel - w.0) as nat);
                    assert((w.0 + (fuel - w.0) as nat) as nat == fuel);
                }
                assert(graph_settles(cfg, input, w.0 + 1, Err(e)));
            }
        },
    }
}

/// From `k` steps on, running the graph on `input` ends with `value` in the
/// variable `out`.
pub open spec fn graph_returns(cfg: ControlFlowGraph, input: i32, k: nat, out: Seq<char>, value: i32) -> bool {
    forall|fuel: nat|
        #![trigger run_graph(cfg, input, fuel)]
        k <= fuel ==> {
            &&& run_graph(cfg, input, fuel) is Ok
            &&& run_graph(cfg, input, fuel)->Ok_0.contains_key(out)
            &&& run_graph(cfg, input, fuel)->Ok_0[out] == value
        }
}

/// Optimizing the graph of a program keeps what the program returns: where
/// the program returns a value for an input, the graph that the optimization
/// pipeline makes of the program's graph, given enough steps, ends with that
/// value in the output variable.
pub proof fn lemma_optimized_graph_returns_program_result(
    p: Program,
    cfg: ControlFlowGraph,
    passes: Seq<OptimizationPass>,
    maximum_rounds: nat,
    graphs: Seq<Seq<ControlFlowGraph>>,
    flags: Seq<Seq<bool>>,
    end: ControlFlowGraph,
    result: OptimizationResult,
    input: i32,
)
    requires
        command_size(p.body) < usize::MAX,
        cfg.wf(),
        ends_only_at_exit(cfg),
        cfg.spec_blocks() == program_blocks(p),
        cfg.entry == layout(p.body, 0, 1).1,
        cfg.input@ == p.input@,
        cfg.output@ == p.output@,
        pipeline_run(passes, maximum_rounds, cfg, graphs, flags, end, result),
        program_result(p, input) is Ok,
    ensures
        exists|k: nat| graph_returns(end, input, k, p.output@, program_result(p, input)->Ok_0),
{
    lemma_graph_runs_as_program(p, cfg, input);
    let (m, r) = run_command(p.body, Map::empty().insert(p.input@, input), FUEL as nat);
    let k = choose|k: nat| graph_settles(cfg, input, k, Ok(m));
    assert forall|fuel: nat| #![trigger run_graph(end, input, fuel)] k <= fuel implies {
        &&& run_graph(end, input, fuel) is Ok
        &&& run_graph(end, input, fuel)->Ok_0.contains_key(p.output@)
        &&& run_graph(end, input, fuel)->Ok_0[p.output@] == program_result(p, input)->Ok_0
    } by {
        assert(run_graph(cfg, input, fuel) == Ok::<_, RuntimeError>(m));
        lemma_pipeline_keeps_output(passes, maximum_rounds, cfg, graphs, flags, end, result, input, fuel);
    }
    assert(graph_returns(end, input, k, p.output@, program_result(p, input)->Ok_0));
}


/// Block `b` is reached from block `a` along exactly `n` edges.
pub open spec fn reaches_in(bs: Seq<BasicBlock>, a: int, b: int, n: nat) -> bool
    decreases n,
{
    if n == 0 {
        a == b
    } else {
        0 <= a < bs.len() && exists|j: int|
            0 <= j < edge_targets(bs[a].outgoing).len() && reaches_in(
                bs,
                #[trigger] edge_targets(bs[a].outgoing)[j] as int,
                b,
                (n - 1) as nat,
            )
    }
}

/// Block `b` is reached from block `a` along some path of edges.
pub open spec fn reaches(bs: Seq<BasicBlock>, a: int, b: int) -> bool {
    exists|n: nat| #[trigger] reaches_in(bs, a, b, n)
}

proof fn lemma_reaches_self(bs: Seq<BasicBlock>, a: int)
    ensures
        reaches(bs, a, a),
{
    assert(reaches_in(bs, a, a, 0));
}

proof fn lemma_reaches_in_trans(bs: Seq<BasicBlock>, a: int, b: int, c: int, n1: nat, n2: nat)
    requires
        reaches_in(bs, a, b, n1),
        reaches_in(bs, b, c, n2),
    ensures
        reaches_in(bs, a, c, n1 + n2),
    decreases n1,
{
    if n1 > 0 {
        let j = choose|j: int|
            0 <= j < edge_targets(bs[a].outgoing).len() && reaches_in(
                bs,
                #[trigger] edge_targets(bs[a].outgoing)[j] as int,
                b,
                (n1 - 1) as nat,
            );
        let t = edge_targets(bs[a].outgoing)[j] as int;
        lemma_reaches_in_trans(bs, t, b, c, (n1 - 1) as nat, n2);
        assert((n1 + n2 - 1) as nat == ((n1 - 1) as nat + n2) as nat);
    }
}

proof fn lemma_reaches_trans(bs: Seq<BasicBlock>, a: int, b: int, c: int)
    requires
        reaches(bs, a, b),
        reaches(bs, b, c),
    ensures
        reaches(bs, a, c),
{
    let n1 = choose|n: nat| #[trigger] reaches_in(bs, a, b, n);
    let n2 = choose|n: nat| #[trigger] reaches_in(bs, b, c, n);
    lemma_reaches_in_trans(bs, a, b, c, n1, n2);
}

/// Following one edge of block `a`.
proof fn lemma_reaches_edge(bs: Seq<BasicBlock>, a: int, j: int)
    requires
        0 <= a < bs.len(),
        0 <= j < edge_targets(bs[a].outgoing).len(),
    ensures
        reaches(bs, a, edge_targets(bs[a].outgoing)[j] as int),
{
    let t = edge_targets(bs[a].outgoing)[j] as int;
    assert(reaches_in(bs, t, t, 0));
    assert(reaches_in(bs, a, t, 1));
}

/// In the layout of a command placed in `bs`, every block reaches the block
/// after the command, `next`, and the entry reaches every block; a block
/// branches exactly when its statement is a guard.
#[verifier::spinoff_prover]
#[verifier::rlimit(60)]
proof fn lemma_layout_paths(c: Command, next: int, base: int, bs: Seq<BasicBlock>)
    requires
        0 <= next <= usize::MAX,
        1 <= base,
        base + command_size(c) <= usize::MAX + 1,
        placed(bs, layout(c, next, base).0, base),
    ensures
        forall|i: int|
            0 <= i < layout(c, next, base).0.len() ==> #[trigger] reaches(bs, base + i, next) && reaches(
                bs,
                layout(c, next, base).1,
                base + i,
            ),
        forall|i: int|
            0 <= i < layout(c, next, base).0.len() ==> ((#[trigger] layout(c, next, base).0[i]).outgoing is Branch
                <==> layout(c, next, base).0[i].statement is Guard),
    decreases c,
{
    lemma_layout(c, next, base);
    let blocks = layout(c, next, base).0;
    let entry = layout(c, next, base).1;
    match c {
        Command::Skip | Command::Assign(_, _) => {
            assert(bs[base] == blocks[0]);
            lemma_reaches_edge(bs, base, 0);
            lemma_reaches_self(bs, base);
            assert(base + 0 == base);
        },
        Command::Sequence(a, b) => {
            let (tb, b_entry) = layout(*b, next, base);
            lemma_layout(*b, next, base);
            let (ta, a_entry) = layout(*a, b_entry, base + tb.len());
            lemma_placed_split(bs, tb, ta, base);
            let ba = base + tb.len();
            lemma_layout(*a, b_entry, ba);
            lemma_layout_paths(*b, next, base, bs);
            lemma_layout_paths(*a, b_entry, ba, bs);
            let ea = a_entry - ba;
            assert(reaches(bs, ba + ea, b_entry));
            let eb = b_entry - base;
            assert(reaches(bs, base + eb, next));
            assert forall|i: int| 0 <= i < blocks.len() implies #[trigger] reaches(bs, base + i, next) && reaches(
                bs,
                entry,
                base + i,
            ) by {
                if i < tb.len() {
                    assert(0 <= i < layout(*b, next, base).0.len());
                    assert(reaches(bs, base + i, next));
                    assert(reaches(bs, layout(*b, next, base).1, base + i));
                    assert(reaches(bs, b_entry, base + i));
                    lemma_reaches_trans(bs, a_entry, b_entry, base + i);
                } else {
                    let k = i - tb.len();
                    assert(0 <= k < layout(*a, b_entry, ba).0.len());
                    assert(reaches(bs, ba + k, b_entry));
                    assert(reaches(bs, layout(*a, b_entry, ba).1, ba + k));
                    assert(base + i == ba + k);
                    lemma_reaches_trans(bs, base + i, b_entry, next);
                }
            }
            assert forall|i: int| 0 <= i < blocks.len() implies ((#[trigger] blocks[i]).outgoing is Branch
                <==> blocks[i].statement is Guard) by {
                if i < tb.len() {
                    assert(blocks[i] == tb[i]);
                } else {
                    assert(blocks[i] == ta[i - tb.len()]);
                }
            }
        },
        Command::If(g, a, b) => {
            let (ta, a_entry) = layout(*a, next, base);
            lemma_layout(*a, next, base);
            let (tb, b_entry) = layout(*b, next, base + ta.len());
            lemma_layout(*b, next, base + ta.len());
            let guard = base + ta.len() + tb.len();
            let gb = mk_block(
                guard,
                SimpleStatement::Guard(g),
                OutgoingEdges::Branch { on_true: a_entry as usize, on_false: b_entry as usize },
            );
            lemma_placed_split(bs, ta + tb, seq![gb], base);
            lemma_placed_split(bs, ta, tb, base);
            assert(bs[guard] == seq![gb][0]);
            lemma_layout_paths(*a, next, base, bs);
            lemma_layout_paths(*b, next, base + ta.len(), bs);
            lemma_reaches_edge(bs, guard, 0);
            lemma_reaches_edge(bs, guard, 1);
            assert forall|i: int| 0 <= i < blocks.len() implies #[trigger] reaches(bs, base + i, next) && reaches(
                bs,
                entry,
                base + i,
            ) by {
                if i < ta.len() {
                    assert(0 <= i < layout(*a, next, base).0.len());
                    assert(reaches(bs, base + i, next));
                    assert(reaches(bs, layout(*a, next, base).1, base + i));
                    lemma_reaches_trans(bs, guard, a_entry, base + i);
                } else if i < ta.len() + tb.len() {
                    let k = i - ta.len();
                    let bb = base + ta.len();
                    assert(0 <= k < layout(*b, next, bb).0.len());
                    assert(reaches(bs, bb + k, next));
                    assert(reaches(bs, layout(*b, next, bb).1, bb + k));
                    assert(base + i == bb + k);
                    lemma_reaches_trans(bs, guard, b_entry, base + i);
                } else {
                    let k = a_entry - base;
                    assert(reaches(bs, base + k, next));
                    lemma_reaches_trans(bs, guard, a_entry, next);
                    lemma_reaches_self(bs, guard);
                }
            }
            assert forall|i: int| 0 <= i < blocks.len() implies ((#[trigger] blocks[i]).outgoing is Branch
                <==> blocks[i].statement is Guard) by {
                if i < ta.len() {
                    assert(blocks[i] == ta[i]);
                } else if i < ta.len() + tb.len() {
                    assert(blocks[i] == tb[i - ta.len()]);
                } else {
                    assert(blocks[i] == gb);
                }
            }
        },
        Command::While(g, body) => {
            let (tb, body_entry) = layout(*body, base, base + 1);
            lemma_layout(*body, base, base + 1);
            let gb = mk_block(
                base,
                SimpleStatement::Guard(g),
                OutgoingEdges::Branch { on_true: body_entry as usize, on_false: next as usize },
            );
            lemma_placed_split(bs, seq![gb], tb, base);
            assert(bs[base] == seq![gb][0]);
            lemma_layout_paths(*body, base, base + 1, bs);
            lemma_reaches_edge(bs, base, 0);
            lemma_reaches_edge(bs, base, 1);
            lemma_reaches_self(bs, base);
            assert forall|i: int| 0 <= i < blocks.len() implies #[trigger] reaches(bs, base + i, next) && reaches(
                bs,
                entry,
                base + i,
            ) by {
                if i > 0 {
                    let k = i - 1;
                    let b1 = base + 1;
                    assert(0 <= k < layout(*body, base, b1).0.len());
                    assert(reaches(bs, b1 + k, base));
                    assert(reaches(bs, layout(*body, base, b1).1, b1 + k));
                    assert(base + i == b1 + k);
                    lemma_reaches_trans(bs, base + i, base, next);
                    lemma_reaches_trans(bs, base, body_entry, base + i);
                }
            }
            assert forall|i: int| 0 <= i < blocks.len() implies ((#[trigger] blocks[i]).outgoing is Branch
                <==> blocks[i].statement is Guard) by {
                if i > 0 {
                    assert(blocks[i] == tb[i - 1]);
                }
            }
        },
    }
}


/// The shape of a program's graph: the entry is not the exit, every block is
/// reached from the entry and reaches the exit, and a block branches exactly
/// when its statement is a guard.
pub proof fn lemma_program_graph_shape(p: Program, cfg: ControlFlowGraph)
    requires
        command_size(p.body) < usize::MAX,
        cfg.spec_blocks() == program_blocks(p),
        cfg.entry == layout(p.body, 0, 1).1,
        cfg.exit == 0,
    ensures
        cfg.entry != cfg.exit,
        forall|k: int|
            0 <= k < cfg.spec_blocks().len() ==> #[trigger] reaches(cfg.spec_blocks(), cfg.entry as int, k)
                && reaches(cfg.spec_blocks(), k, cfg.exit as int),
        forall|k: int|
            0 <= k < cfg.spec_blocks().len() ==> ((#[trigger] cfg.spec_blocks()[k]).outgoing is Branch
                <==> cfg.spec_blocks()[k].statement is Guard),
{
    let pb = program_blocks(p);
    let exit_block = mk_block(0, SimpleStatement::Skip, OutgoingEdges::End);
    lemma_layout(p.body, 0, 1);
    let lb = layout(p.body, 0, 1).0;
    let entry = layout(p.body, 0, 1).1;
    assert forall|i: int| #![trigger lb[i]] 0 <= i < lb.len() implies pb[1 + i] == lb[i] by {
        assert(pb[1 + i] == (seq![exit_block] + lb)[1 + i]);
    }
    assert(placed(pb, lb, 1));
    assert(pb[0] == exit_block);
    lemma_layout_paths(p.body, 0, 1, pb);
    assert(reaches(pb, 1 + (entry - 1), 0));
    assert forall|k: int| 0 <= k < pb.len() implies #[trigger] reaches(pb, entry, k) && reaches(pb, k, 0) by {
        if k == 0 {
            lemma_reaches_self(pb, 0);
        } else {
            let i = k - 1;
            assert(0 <= i < lb.len());
            assert(reaches(pb, 1 + i, 0));
            assert(reaches(pb, entry, 1 + i));
        }
    }
    assert(reaches(pb, entry, 0));
    assert forall|k: int| 0 <= k < pb.len() implies ((#[trigger] pb[k]).outgoing is Branch
        <==> pb[k].statement is Guard) by {
        if k > 0 {
            assert(pb[k] == lb[k - 1]);
        }
    }
}

} // verus!
