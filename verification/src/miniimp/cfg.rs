use vstd::prelude::*;
use crate::miniimp::ast::{copy_aexpr, copy_bexpr, AExpr, BExpr, Command, Program};
use crate::miniimp::cfg_runs::{lemma_program_graph_shape, reaches};

verus! {

pub type BlockId = usize;

/// The control-flow graph of a MiniImp program: one simple statement per
/// block, the entry block, and the exit block (a `skip` with no successor).
#[derive(Debug)]
pub struct ControlFlowGraph {
    pub input: String,
    pub output: String,
    pub entry: BlockId,
    pub exit: BlockId,
    pub blocks: Vec<BasicBlock>,
}

#[derive(Debug)]
pub struct BasicBlock {
    pub id: BlockId,
    pub statement: SimpleStatement,
    pub outgoing: OutgoingEdges,
}

/// A control-flow graph whose blocks carry an annotation each.
#[derive(Debug)]
pub struct AnnotatedControlFlowGraph<A> {
    pub input: String,
    pub output: String,
    pub entry: BlockId,
    pub exit: BlockId,
    pub blocks: Vec<AnnotatedBasicBlock<A>>,
}

#[derive(Debug)]
pub struct AnnotatedBasicBlock<A> {
    pub id: BlockId,
    pub statement: SimpleStatement,
    pub outgoing: OutgoingEdges,
    pub annotation: A,
}

#[derive(Debug)]
pub enum SimpleStatement {
    Skip,
    Assign(String, AExpr),
    Guard(BExpr),
}

#[derive(Debug, Clone, Copy, PartialEq, Eq)]
pub enum OutgoingEdges {
    End,
    Goto(BlockId),
    Branch { on_true: BlockId, on_false: BlockId },
}

/// A copy of a statement, equal to it.
pub fn copy_statement(s: &SimpleStatement) -> (r: SimpleStatement)
    ensures
        r == *s,
{
    match s {
        SimpleStatement::Skip => SimpleStatement::Skip,
        SimpleStatement::Assign(x, e) => SimpleStatement::Assign(x.clone(), copy_aexpr(e)),
        SimpleStatement::Guard(g) => SimpleStatement::Guard(copy_bexpr(g)),
    }
}

/// The successors of a block along its outgoing edges, `true` edge first.
pub open spec fn edge_targets(e: OutgoingEdges) -> Seq<BlockId> {
    match e {
        OutgoingEdges::End => seq![],
        OutgoingEdges::Goto(n) => seq![n],
        OutgoingEdges::Branch { on_true, on_false } => seq![on_true, on_false],
    }
}

/// How many blocks the graph of a command has.
pub open spec fn command_size(c: Command) -> nat
    decreases c,
{
    match c {
        Command::Skip => 1,
        Command::Assign(_, _) => 1,
        Command::Sequence(a, b) => command_size(*a) + command_size(*b),
        Command::If(_, a, b) => 1 + command_size(*a) + command_size(*b),
        Command::While(_, body) => 1 + command_size(*body),
    }
}

pub open spec fn mk_block(id: int, statement: SimpleStatement, outgoing: OutgoingEdges) -> BasicBlock {
    BasicBlock { id: id as usize, statement, outgoing }
}

/// Only the exit block ends a run: every other block has a successor.
pub open spec fn ends_only_at_exit(g: ControlFlowGraph) -> bool {
    forall|k: int|
        0 <= k < g.spec_blocks().len() && (#[trigger] g.spec_blocks()[k]).outgoing is End ==> k == g.exit
}

/// The blocks of a command's graph, numbered from `base` in creation order,
/// and its entry block; control leaves the command towards `next`.
/// A sequence lays out its second part first; a conditional lays out both
/// branches and then its guard; a loop lays out its guard and then its body,
/// whose end leads back to the guard.
pub open spec fn layout(c: Command, next: int, base: int) -> (Seq<BasicBlock>, int)
    decreases c,
{
    match c {
        Command::Skip => (seq![mk_block(base, SimpleStatement::Skip, OutgoingEdges::Goto(next as usize))], base),
        Command::Assign(x, e) => (
            seq![mk_block(base, SimpleStatement::Assign(x, e), OutgoingEdges::Goto(next as usize))],
            base,
        ),
        Command::Sequence(a, b) => {
            let (bs, b_entry) = layout(*b, next, base);
            let (as_, a_entry) = layout(*a, b_entry, base + bs.len());
            (bs + as_, a_entry)
        },
        Command::If(g, a, b) => {
            let (ta, a_entry) = layout(*a, next, base);
            let (tb, b_entry) = layout(*b, next, base + ta.len());
            let guard = base + ta.len() + tb.len();
            (
                ta + tb + seq![
                    mk_block(
                        guard,
                        SimpleStatement::Guard(g),
                        OutgoingEdges::Branch {
                            on_true: a_entry as usize,
                            on_false: b_entry as usize,
                        },
                    ),
                ],
                guard,
            )
        },
        Command::While(g, body) => {
            let (tb, body_entry) = layout(*body, base, base + 1);
            (
                seq![
                    mk_block(
                        base,
                        SimpleStatement::Guard(g),
                        OutgoingEdges::Branch {
                            on_true: body_entry as usize,
                            on_false: next as usize,
                        },
                    ),
                ] + tb,
                base,
            )
        },
    }
}

/// Every edge target of the blocks lies in `[lo, hi)` or is `next`.
pub open spec fn targets_within(bs: Seq<BasicBlock>, lo: int, hi: int, next: int) -> bool {
    forall|i: int, j: int|
        #![trigger edge_targets(bs[i].outgoing)[j]]
        0 <= i < bs.len() && 0 <= j < edge_targets(bs[i].outgoing).len() ==> {
            let t = edge_targets(bs[i].outgoing)[j] as int;
            (lo <= t < hi) || t == next
        }
}

/// The layout of a command has `command_size` blocks numbered `base, base+1, ...`,
/// its entry among them, and edges only among them or to `next`.
pub proof fn lemma_layout(c: Command, next: int, base: int)
    requires
        0 <= next,
        0 <= base,
        base + command_size(c) <= usize::MAX + 1,
        next <= usize::MAX,
    ensures
        layout(c, next, base).0.len() == command_size(c),
        base <= layout(c, next, base).1 < base + command_size(c),
        forall|i: int| #![trigger layout(c, next, base).0[i]]
            0 <= i < layout(c, next, base).0.len() ==> layout(c, next, base).0[i].id == base + i,
        targets_within(layout(c, next, base).0, base, base + command_size(c), next),
    decreases c,
{
    match c {
        Command::Sequence(a, b) => {
            lemma_layout(*b, next, base);
            let (bs, b_entry) = layout(*b, next, base);
            lemma_layout(*a, b_entry, base + bs.len());
            let (as_, a_entry) = layout(*a, b_entry, base + bs.len());
            let all = bs + as_;
            assert forall|i: int| #![trigger all[i]] 0 <= i < all.len() implies all[i].id == base + i by {
                if i >= bs.len() {
                    assert(all[i] == as_[i - bs.len()]);
                }
            }
            assert forall|i: int, j: int|
                #![trigger edge_targets(all[i].outgoing)[j]]
                0 <= i < all.len() && 0 <= j < edge_targets(all[i].outgoing).len() implies {
                    let t = edge_targets(all[i].outgoing)[j] as int;
                    (base <= t < base + command_size(c)) || t == next
                } by {
                if i >= bs.len() {
                    assert(all[i] == as_[i - bs.len()]);
                    assert(edge_targets(as_[i - bs.len()].outgoing)[j] == edge_targets(all[i].outgoing)[j]);
                } else {
                    assert(all[i] == bs[i]);
                    assert(edge_targets(bs[i].outgoing)[j] == edge_targets(all[i].outgoing)[j]);
                }
            }
        },
        Command::If(g, a, b) => {
            lemma_layout(*a, next, base);
            let (ta, a_entry) = layout(*a, next, base);
            lemma_layout(*b, next, base + ta.len());
            let (tb, b_entry) = layout(*b, next, base + ta.len());
            let guard = base + ta.len() + tb.len();
            let gb = mk_block(
                guard,
                SimpleStatement::Guard(g),
                OutgoingEdges::Branch { on_true: a_entry as usize, on_false: b_entry as usize },
            );
            let all = ta + tb + seq![gb];
            assert forall|i: int| #![trigger all[i]] 0 <= i < all.len() implies all[i].id == base + i by {
                if i < ta.len() {
                    assert(all[i] == ta[i]);
                } else if i < ta.len() + tb.len() {
                    assert(all[i] == tb[i - ta.len()]);
                } else {
                    assert(all[i] == gb);
                }
            }
            assert forall|i: int, j: int|
                #![trigger edge_targets(all[i].outgoing)[j]]
                0 <= i < all.len() && 0 <= j < edge_targets(all[i].outgoing).len() implies {
                    let t = edge_targets(all[i].outgoing)[j] as int;
                    (base <= t < base + command_size(c)) || t == next
                } by {
                if i < ta.len() {
                    assert(all[i] == ta[i]);
                    assert(edge_targets(ta[i].outgoing)[j] == edge_targets(all[i].outgoing)[j]);
                } else if i < ta.len() + tb.len() {
                    assert(all[i] == tb[i - ta.len()]);
                    assert(edge_targets(tb[i - ta.len()].outgoing)[j] == edge_targets(all[i].outgoing)[j]);
                } else {
                    assert(all[i] == gb);
                }
            }
        },
        Command::While(g, body) => {
            lemma_layout(*body, base, base + 1);
            let (tb, body_entry) = layout(*body, base, base + 1);
            let gb = mk_block(
                base,
                SimpleStatement::Guard(g),
                OutgoingEdges::Branch { on_true: body_entry as usize, on_false: next as usize },
            );
            let all = seq![gb] + tb;
            assert forall|i: int| #![trigger all[i]] 0 <= i < all.len() implies all[i].id == base + i by {
                if i > 0 {
                    assert(all[i] == tb[i - 1]);
                }
            }
            assert forall|i: int, j: int|
                #![trigger edge_targets(all[i].outgoing)[j]]
                0 <= i < all.len() && 0 <= j < edge_targets(all[i].outgoing).len() implies {
                    let t = edge_targets(all[i].outgoing)[j] as int;
                    (base <= t < base + command_size(c)) || t == next
                } by {
                if i > 0 {
                    assert(all[i] == tb[i - 1]);
                    assert(edge_targets(tb[i - 1].outgoing)[j] == edge_targets(all[i].outgoing)[j]);
                }
            }
        },
        _ => {},
    }
}

/// No block of a command's layout ends the run: each has a successor.
pub proof fn lemma_layout_continues(c: Command, next: int, base: int)
    ensures
        forall|i: int| #![trigger layout(c, next, base).0[i]]
            0 <= i < layout(c, next, base).0.len() ==> !(layout(c, next, base).0[i].outgoing is End),
    decreases c,
{
    match c {
        Command::Sequence(a, b) => {
            lemma_layout_continues(*b, next, base);
            let (bs, b_entry) = layout(*b, next, base);
            lemma_layout_continues(*a, b_entry, base + bs.len());
            let (as_, _) = layout(*a, b_entry, base + bs.len());
            assert forall|i: int| 0 <= i < (bs + as_).len() implies !((bs + as_)[i].outgoing is End) by {
                if i >= bs.len() {
                    assert((bs + as_)[i] == as_[i - bs.len()]);
                } else {
                    assert((bs + as_)[i] == bs[i]);
                }
            }
        },
        Command::If(g, a, b) => {
            lemma_layout_continues(*a, next, base);
            let (ta, _) = layout(*a, next, base);
            lemma_layout_continues(*b, next, base + ta.len());
            let (tb, _) = layout(*b, next, base + ta.len());
            let all = layout(c, next, base).0;
            assert forall|i: int| 0 <= i < all.len() implies !(all[i].outgoing is End) by {
                if i < ta.len() {
                    assert(all[i] == ta[i]);
                } else if i < ta.len() + tb.len() {
                    assert(all[i] == tb[i - ta.len()]);
                }
            }
        },
        Command::While(g, body) => {
            lemma_layout_continues(*body, base, base + 1);
            let (tb, _) = layout(*body, base, base + 1);
            let all = layout(c, next, base).0;
            assert forall|i: int| 0 <= i < all.len() implies !(all[i].outgoing is End) by {
                if i > 0 {
                    assert(all[i] == tb[i - 1]);
                }
            }
        },
        _ => {},
    }
}

/// In the graph of a program only the exit block, the first one, ends the run.
pub proof fn lemma_program_ends_at_exit(p: Program)
    ensures
        forall|k: int| #![trigger program_blocks(p)[k]]
            0 <= k < program_blocks(p).len() && program_blocks(p)[k].outgoing is End ==> k == 0,
{
    lemma_layout_continues(p.body, 0, 1);
    let lb = layout(p.body, 0, 1).0;
    assert forall|k: int| #![trigger program_blocks(p)[k]]
        0 <= k < program_blocks(p).len() && program_blocks(p)[k].outgoing is End implies k == 0 by {
        if k > 0 {
            assert(program_blocks(p)[k] == lb[k - 1]);
        }
    }
}

/// The ids, in increasing order, of the blocks among the first `n` that have
/// an edge to `id`.
pub open spec fn pred_list(bs: Seq<BasicBlock>, id: BlockId, n: int) -> Seq<BlockId>
    decreases n,
{
    if n <= 0 {
        seq![]
    } else {
        let r = pred_list(bs, id, n - 1);
        if edge_targets(bs[n - 1].outgoing).contains(id) {
            r.push(bs[n - 1].id)
        } else {
            r
        }
    }
}

/// Every id that `pred_list` yields is the id of one of the first `n` blocks.
pub proof fn lemma_pred_list_ids(bs: Seq<BasicBlock>, id: BlockId, n: int, bound: int)
    requires
        n <= bs.len(),
        forall|i: int| 0 <= i < n ==> bs[i].id < bound,
    ensures
        forall|k: int| 0 <= k < pred_list(bs, id, n).len() ==> pred_list(bs, id, n)[k] < bound,
        pred_list(bs, id, n).len() <= if n < 0 { 0 } else { n },
    decreases n,
{
    if n > 0 {
        lemma_pred_list_ids(bs, id, n - 1, bound);
    }
}

/// Where each block's id is its index, `pred_list` comes in strictly
/// increasing order, below `n`.
pub proof fn lemma_pred_list_increasing(bs: Seq<BasicBlock>, id: BlockId, n: int)
    requires
        0 <= n <= bs.len(),
        forall|k: int| #![trigger bs[k]] 0 <= k < bs.len() ==> bs[k].id == k,
    ensures
        forall|i: int, j: int|
            0 <= i < j < pred_list(bs, id, n).len() ==> #[trigger] pred_list(bs, id, n)[i] < #[trigger] pred_list(
                bs,
                id,
                n,
            )[j],
        forall|i: int| 0 <= i < pred_list(bs, id, n).len() ==> #[trigger] pred_list(bs, id, n)[i] < n,
    decreases n,
{
    if n > 0 {
        lemma_pred_list_increasing(bs, id, n - 1);
        assert(bs[n - 1].id == n - 1);
        let r = pred_list(bs, id, n - 1);
        let t = pred_list(bs, id, n);
        if edge_targets(bs[n - 1].outgoing).contains(id) {
            assert(t == r.push(bs[n - 1].id));
            assert forall|i: int, j: int| 0 <= i < j < t.len() implies #[trigger] t[i] < #[trigger] t[j] by {
                assert(t[i] == r[i]);
                if j < r.len() {
                    assert(t[j] == r[j]);
                }
            }
            assert forall|i: int| 0 <= i < t.len() implies #[trigger] t[i] < n by {
                if i < r.len() {
                    assert(t[i] == r[i]);
                }
            }
        }
    }
}

/// `lemma_pred_list_increasing` for annotated blocks.
pub proof fn lemma_annotated_pred_list_increasing<A>(bs: Seq<AnnotatedBasicBlock<A>>, id: BlockId, n: int)
    requires
        0 <= n <= bs.len(),
        forall|k: int| #![trigger bs[k]] 0 <= k < bs.len() ==> bs[k].id == k,
    ensures
        forall|i: int, j: int|
            0 <= i < j < annotated_pred_list(bs, id, n).len() ==> #[trigger] annotated_pred_list(bs, id, n)[i]
                < #[trigger] annotated_pred_list(bs, id, n)[j],
        forall|i: int| 0 <= i < annotated_pred_list(bs, id, n).len() ==> #[trigger] annotated_pred_list(bs, id, n)[i] < n,
    decreases n,
{
    if n > 0 {
        lemma_annotated_pred_list_increasing(bs, id, n - 1);
        assert(bs[n - 1].id == n - 1);
        let r = annotated_pred_list(bs, id, n - 1);
        let t = annotated_pred_list(bs, id, n);
        if edge_targets(bs[n - 1].outgoing).contains(id) {
            assert(t == r.push(bs[n - 1].id));
            assert forall|i: int, j: int| 0 <= i < j < t.len() implies #[trigger] t[i] < #[trigger] t[j] by {
                assert(t[i] == r[i]);
                if j < r.len() {
                    assert(t[j] == r[j]);
                }
            }
            assert forall|i: int| 0 <= i < t.len() implies #[trigger] t[i] < n by {
                if i < r.len() {
                    assert(t[i] == r[i]);
                }
            }
        }
    }
}

pub proof fn lemma_pred_list_members(bs: Seq<BasicBlock>, id: BlockId, n: int, i: int)
    requires
        0 <= n <= bs.len(),
        forall|k: int| #![trigger bs[k]] 0 <= k < bs.len() ==> bs[k].id == k,
        0 <= i < bs.len(),
    ensures
        pred_list(bs, id, n).contains(i as BlockId) <==> (i < n && edge_targets(bs[i].outgoing).contains(id)),
    decreases n,
{
    if n > 0 {
        lemma_pred_list_members(bs, id, n - 1, i);
        let r = pred_list(bs, id, n - 1);
        assert(bs[n - 1].id == n - 1);
        if edge_targets(bs[n - 1].outgoing).contains(id) {
            let t = r.push(bs[n - 1].id);
            assert(t[r.len() as int] == bs[n - 1].id);
            if t.contains(i as BlockId) && i != n - 1 {
                let k = choose|k: int| 0 <= k < t.len() && #[trigger] t[k] == i as BlockId;
                assert(r[k] == i as BlockId);
            }
            if r.contains(i as BlockId) {
                let k = choose|k: int| 0 <= k < r.len() && #[trigger] r[k] == i as BlockId;
                assert(t[k] == i as BlockId);
            }
        }
    }
}

/// Control can go from block `i` to block `j` in one step exactly when `i`
/// is among the predecessors of `j`.
pub proof fn lemma_successors_predecessors(cfg: &ControlFlowGraph, i: BlockId, j: BlockId)
    requires
        cfg.wf(),
        i < cfg.spec_blocks().len(),
    ensures
        edge_targets(cfg.spec_blocks()[i as int].outgoing).contains(j) <==> pred_list(
            cfg.spec_blocks(),
            j,
            cfg.spec_blocks().len() as int,
        ).contains(i),
{
    lemma_pred_list_members(cfg.spec_blocks(), j, cfg.spec_blocks().len() as int, i as int);
}

/// Blocks numbered by their position, every edge inside the graph, entry and
/// exit among the blocks, and the exit a `skip` with no successor.
pub open spec fn blocks_wf(bs: Seq<BasicBlock>, entry: int, exit: int) -> bool {
    &&& bs.len() <= usize::MAX
    &&& forall|i: int| #![trigger bs[i]] 0 <= i < bs.len() ==> bs[i].id == i
    &&& forall|i: int, j: int|
        #![trigger edge_targets(bs[i].outgoing)[j]]
        0 <= i < bs.len() && 0 <= j < edge_targets(bs[i].outgoing).len()
            ==> edge_targets(bs[i].outgoing)[j] < bs.len()
    &&& 0 <= entry < bs.len()
    &&& 0 <= exit < bs.len()
    &&& bs[exit].statement is Skip
    &&& bs[exit].outgoing is End
}

/// The blocks of the graph of a program: the exit block first, then the
/// layout of the body, which leads to the exit.
pub open spec fn program_blocks(p: Program) -> Seq<BasicBlock> {
    seq![mk_block(0, SimpleStatement::Skip, OutgoingEdges::End)] + layout(p.body, 0, 1).0
}

impl ControlFlowGraph {
    pub open spec fn spec_blocks(&self) -> Seq<BasicBlock> {
        self.blocks@
    }

    pub open spec fn wf(&self) -> bool {
        blocks_wf(self.spec_blocks(), self.entry as int, self.exit as int)
    }

    /// The graph of a program.
    pub fn from_program(program: &Program) -> (r: Self)
        requires
            command_size(program.body) < usize::MAX,
        ensures
            r.wf(),
            r.input == program.input,
            r.output == program.output,
            r.exit == 0,
            r.entry == layout(program.body, 0, 1).1,
            r.spec_blocks() == program_blocks(*program),
            ends_only_at_exit(r),
            r.entry != r.exit,
            forall|k: int|
                0 <= k < r.spec_blocks().len() ==> #[trigger] reaches(r.spec_blocks(), r.entry as int, k)
                    && reaches(r.spec_blocks(), k, r.exit as int),
            forall|k: int|
                0 <= k < r.spec_blocks().len() ==> ((#[trigger] r.spec_blocks()[k]).outgoing is Branch
                    <==> r.spec_blocks()[k].statement is Guard),
    {
        let mut builder = CfgBuilder { blocks: Vec::new() };
        let exit = builder.add_block(SimpleStatement::Skip, OutgoingEdges::End);
        let entry = builder.build_command(&program.body, exit);
        proof {
            lemma_layout(program.body, 0, 1);
            let bs = builder.blocks@;
            let (lb, _) = layout(program.body, 0, 1);
            assert(bs =~= program_blocks(*program));
            assert forall|i: int| #![trigger bs[i]] 0 <= i < bs.len() implies bs[i].id == i by {
                if i > 0 {
                    assert(bs[i] == lb[i - 1]);
                }
            }
            assert forall|i: int, j: int|
                #![trigger edge_targets(bs[i].outgoing)[j]]
                0 <= i < bs.len() && 0 <= j < edge_targets(bs[i].outgoing).len()
                    implies edge_targets(bs[i].outgoing)[j] < bs.len() by {
                if i > 0 {
                    assert(bs[i] == lb[i - 1]);
                    assert(edge_targets(lb[i - 1].outgoing)[j] == edge_targets(bs[i].outgoing)[j]);
                }
            }
        }
        let r = ControlFlowGraph {
            input: program.input.clone(),
            output: program.output.clone(),
            entry,
            exit,
            blocks: builder.blocks,
        };
        proof {
            lemma_program_graph_shape(*program, r);
            lemma_program_ends_at_exit(*program);
            assert forall|k: int|
                0 <= k < r.spec_blocks().len() && (#[trigger] r.spec_blocks()[k]).outgoing is End implies k
                    == r.exit by {
                assert(r.spec_blocks()[k] == program_blocks(*program)[k]);
            }
        }
        r
    }

    pub fn blocks(&self) -> (r: &[BasicBlock])
        ensures
            r@ == self.spec_blocks(),
    {
        self.blocks.as_slice()
    }

    pub fn block(&self, id: BlockId) -> (r: Option<&BasicBlock>)
        ensures
            r == (if id < self.spec_blocks().len() {
                Some(&self.spec_blocks()[id as int])
            } else {
                None::<&BasicBlock>
            }),
    {
        if id < self.blocks.len() {
            Some(&self.blocks[id])
        } else {
            None
        }
    }

    /// The blocks that control may reach from `id` in one step.
    pub fn successors(&self, id: BlockId) -> (r: Vec<BlockId>)
        ensures
            r@ == (if id < self.spec_blocks().len() {
                edge_targets(self.spec_blocks()[id as int].outgoing)
            } else {
                Seq::<BlockId>::empty()
            }),
    {
        if id < self.blocks.len() {
            targets(&self.blocks[id].outgoing)
        } else {
            Vec::new()
        }
    }

    /// The blocks from which control may reach `id` in one step.
    pub fn predecessors(&self, id: BlockId) -> (r: Vec<BlockId>)
        requires
            self.wf(),
        ensures
            r@ == pred_list(self.spec_blocks(), id, self.spec_blocks().len() as int),
            forall|i: int, j: int| 0 <= i < j < r@.len() ==> r@[i] < r@[j],
    {
        proof {
            lemma_pred_list_increasing(self.spec_blocks(), id, self.spec_blocks().len() as int);
        }
        let mut r: Vec<BlockId> = Vec::new();
        let mut j: usize = 0;
        while j < self.blocks.len()
            invariant
                j <= self.blocks.len(),
                self.wf(),
                r@ == pred_list(self.spec_blocks(), id, j as int),
            decreases self.blocks.len() - j,
        {
            let succ = targets(&self.blocks[j].outgoing);
            if contains_id(&succ, id) {
                r.push(self.blocks[j].id);
            }
            j = j + 1;
        }
        r
    }

    /// The same graph with an annotation on every block, computed by
    /// `annotation_for` from the block.
    pub fn annotate_with<A, F: Fn(&BasicBlock) -> A>(&self, annotation_for: F) -> (r:
        AnnotatedControlFlowGraph<A>)
        requires
            forall|i: int|
                0 <= i < self.spec_blocks().len() ==> annotation_for.requires(
                    (&self.spec_blocks()[i],),
                ),
        ensures
            r.input == self.input,
            r.output == self.output,
            r.entry == self.entry,
            r.exit == self.exit,
            r.spec_blocks().len() == self.spec_blocks().len(),
            forall|i: int| #![trigger r.spec_blocks()[i]]
                0 <= i < self.spec_blocks().len() ==> {
                    &&& r.spec_blocks()[i].id == self.spec_blocks()[i].id
                    &&& r.spec_blocks()[i].statement == self.spec_blocks()[i].statement
                    &&& r.spec_blocks()[i].outgoing == self.spec_blocks()[i].outgoing
                    &&& annotation_for.ensures(
                        (&self.spec_blocks()[i],),
                        r.spec_blocks()[i].annotation,
                    )
                },
    {
        let mut blocks: Vec<AnnotatedBasicBlock<A>> = Vec::new();
        let mut j: usize = 0;
        while j < self.blocks.len()
            invariant
                j <= self.blocks.len(),
                blocks.len() == j,
                forall|i: int|
                    0 <= i < self.spec_blocks().len() ==> annotation_for.requires(
                        (&self.spec_blocks()[i],),
                    ),
                forall|i: int| #![trigger blocks@[i]]
                    0 <= i < j ==> {
                        &&& blocks@[i].id == self.spec_blocks()[i].id
                        &&& blocks@[i].statement == self.spec_blocks()[i].statement
                        &&& blocks@[i].outgoing == self.spec_blocks()[i].outgoing
                        &&& annotation_for.ensures(
                            (&self.spec_blocks()[i],),
                            blocks@[i].annotation,
                        )
                    },
            decreases self.blocks.len() - j,
        {
            let block = &self.blocks[j];
            let annotation = annotation_for(block);
            blocks.push(
                AnnotatedBasicBlock {
                    id: block.id,
                    statement: copy_statement(&block.statement),
                    outgoing: block.outgoing,
                    annotation,
                },
            );
            j = j + 1;
        }
        AnnotatedControlFlowGraph {
            input: self.input.clone(),
            output: self.output.clone(),
            entry: self.entry,
            exit: self.exit,
            blocks,
        }
    }

    /// Replaces the statement of block `id`; the edges stay as they are.
    pub fn set_statement(&mut self, id: BlockId, statement: SimpleStatement)
        requires
            id < old(self).spec_blocks().len(),
        ensures
            final(self).input == old(self).input,
            final(self).output == old(self).output,
            final(self).entry == old(self).entry,
            final(self).exit == old(self).exit,
            final(self).spec_blocks() == old(self).spec_blocks().update(
                id as int,
                BasicBlock {
                    id: old(self).spec_blocks()[id as int].id,
                    statement,
                    outgoing: old(self).spec_blocks()[id as int].outgoing,
                },
            ),
    {
        let old_id = self.blocks[id].id;
        let outgoing = self.blocks[id].outgoing;
        self.blocks.set(id, BasicBlock { id: old_id, statement, outgoing });
    }
}

/// The successors along some edges, as a vector.
fn targets(e: &OutgoingEdges) -> (r: Vec<BlockId>)
    ensures
        r@ == edge_targets(*e),
{
    match e {
        OutgoingEdges::End => Vec::new(),
        OutgoingEdges::Goto(next) => {
            let mut v = Vec::new();
            v.push(*next);
            v
        },
        OutgoingEdges::Branch { on_true, on_false } => {
            let mut v = Vec::new();
            v.push(*on_true);
            v.push(*on_false);
            assert(v@ =~= seq![*on_true, *on_false]);
            v
        },
    }
}

pub fn contains_id(v: &Vec<BlockId>, id: BlockId) -> (r: bool)
    ensures
        r == v@.contains(id),
{
    let mut i: usize = 0;
    while i < v.len()
        invariant
            i <= v.len(),
            forall|j: int| 0 <= j < i ==> v@[j] != id,
        decreases v.len() - i,
    {
        if v[i] == id {
            return true;
        }
        i = i + 1;
    }
    false
}

impl<A> AnnotatedControlFlowGraph<A> {
    pub open spec fn spec_blocks(&self) -> Seq<AnnotatedBasicBlock<A>> {
        self.blocks@
    }

    pub fn blocks(&self) -> (r: &[AnnotatedBasicBlock<A>])
        ensures
            r@ == self.spec_blocks(),
    {
        self.blocks.as_slice()
    }

    pub fn block(&self, id: BlockId) -> (r: Option<&AnnotatedBasicBlock<A>>)
        ensures
            r == (if id < self.spec_blocks().len() {
                Some(&self.spec_blocks()[id as int])
            } else {
                None::<&AnnotatedBasicBlock<A>>
            }),
    {
        if id < self.blocks.len() {
            Some(&self.blocks[id])
        } else {
            None
        }
    }

    pub fn successors(&self, id: BlockId) -> (r: Vec<BlockId>)
        ensures
            r@ == (if id < self.spec_blocks().len() {
                edge_targets(self.spec_blocks()[id as int].outgoing)
            } else {
                Seq::<BlockId>::empty()
            }),
    {
        if id < self.blocks.len() {
            targets(&self.blocks[id].outgoing)
        } else {
            Vec::new()
        }
    }

    /// The blocks from which control may reach `id` in one step.
    pub fn predecessors(&self, id: BlockId) -> (r: Vec<BlockId>)
        ensures
            r@ == annotated_pred_list(self.spec_blocks(), id, self.spec_blocks().len() as int),
            (forall|k: int| 0 <= k < self.spec_blocks().len() ==> #[trigger] self.spec_blocks()[k].id == k)
                ==> forall|i: int, j: int| 0 <= i < j < r@.len() ==> r@[i] < r@[j],
    {
        proof {
            if forall|k: int| 0 <= k < self.spec_blocks().len() ==> #[trigger] self.spec_blocks()[k].id == k {
                lemma_annotated_pred_list_increasing(self.spec_blocks(), id, self.spec_blocks().len() as int);
            }
        }
        let mut r: Vec<BlockId> = Vec::new();
        let mut j: usize = 0;
        while j < self.blocks.len()
            invariant
                j <= self.blocks.len(),
                r@ == annotated_pred_list(self.spec_blocks(), id, j as int),
            decreases self.blocks.len() - j,
        {
            let succ = targets(&self.blocks[j].outgoing);
            if contains_id(&succ, id) {
                r.push(self.blocks[j].id);
            }
            j = j + 1;
        }
        r
    }
}

/// `pred_list` for annotated blocks.
pub open spec fn annotated_pred_list<A>(bs: Seq<AnnotatedBasicBlock<A>>, id: BlockId, n: int) -> Seq<
    BlockId,
>
    decreases n,
{
    if n <= 0 {
        seq![]
    } else {
        let r = annotated_pred_list(bs, id, n - 1);
        if edge_targets(bs[n - 1].outgoing).contains(id) {
            r.push(bs[n - 1].id)
        } else {
            r
        }
    }
}

/// The graph of a program.
pub fn program_to_cfg(program: &Program) -> (r: ControlFlowGraph)
    requires
        command_size(program.body) < usize::MAX,
    ensures
        r.wf(),
        r.input == program.input,
        r.output == program.output,
        r.exit == 0,
        r.entry == layout(program.body, 0, 1).1,
        r.spec_blocks() == program_blocks(*program),
        ends_only_at_exit(r),
        r.entry != r.exit,
        forall|k: int|
            0 <= k < r.spec_blocks().len() ==> #[trigger] reaches(r.spec_blocks(), r.entry as int, k)
                && reaches(r.spec_blocks(), k, r.exit as int),
        forall|k: int|
            0 <= k < r.spec_blocks().len() ==> ((#[trigger] r.spec_blocks()[k]).outgoing is Branch
                <==> r.spec_blocks()[k].statement is Guard),
{
    ControlFlowGraph::from_program(program)
}

struct CfgBuilder {
    pub blocks: Vec<BasicBlock>,
}

impl CfgBuilder {
    fn add_block(&mut self, statement: SimpleStatement, outgoing: OutgoingEdges) -> (r: BlockId)
        requires
            old(self).blocks.len() < usize::MAX,
        ensures
            r == old(self).blocks.len(),
            final(self).blocks@ == old(self).blocks@.push(
                BasicBlock { id: r, statement, outgoing },
            ),
    {
        let id = self.blocks.len();
        self.blocks.push(BasicBlock { id, statement, outgoing });
        id
    }

    fn build_command(&mut self, command: &Command, continuation: BlockId) -> (r: BlockId)
        requires
            old(self).blocks.len() + command_size(*command) <= usize::MAX,
        ensures
            final(self).blocks@ == old(self).blocks@ + layout(
                *command,
                continuation as int,
                old(self).blocks.len() as int,
            ).0,
            r == layout(*command, continuation as int, old(self).blocks.len() as int).1,
        decreases command,
    {
        let ghost base = self.blocks.len() as int;
        let ghost before = self.blocks@;
        proof {
            lemma_layout(*command, continuation as int, base);
        }
        match command {
            Command::Skip => {
                let r = self.add_block(SimpleStatement::Skip, OutgoingEdges::Goto(continuation));
                assert(self.blocks@ =~= before + layout(*command, continuation as int, base).0);
                r
            },
            Command::Assign(variable, expression) => {
                let r = self.add_block(
                    SimpleStatement::Assign(variable.clone(), copy_aexpr(expression)),
                    OutgoingEdges::Goto(continuation),
                );
                assert(self.blocks@ =~= before + layout(*command, continuation as int, base).0);
                r
            },
            Command::Sequence(first, second) => {
                proof {
                    lemma_layout(**second, continuation as int, base);
                }
                let second_entry = self.build_command(second, continuation);
                let r = self.build_command(first, second_entry);
                assert(self.blocks@ =~= before + layout(*command, continuation as int, base).0);
                r
            },
            Command::If(condition, then_branch, else_branch) => {
                proof {
                    lemma_layout(**then_branch, continuation as int, base);
                }
                let then_entry = self.build_command(then_branch, continuation);
                proof {
                    lemma_layout(**else_branch, continuation as int, self.blocks.len() as int);
                }
                let else_entry = self.build_command(else_branch, continuation);
                let r = self.add_block(
                    SimpleStatement::Guard(copy_bexpr(condition)),
                    OutgoingEdges::Branch { on_true: then_entry, on_false: else_entry },
                );
                assert(self.blocks@ =~= before + layout(*command, continuation as int, base).0);
                r
            },
            Command::While(condition, body) => {
                let guard_id = self.add_block(
                    SimpleStatement::Guard(copy_bexpr(condition)),
                    OutgoingEdges::End,
                );
                proof {
                    lemma_layout(**body, guard_id as int, guard_id + 1);
                }
                let body_entry = self.build_command(body, guard_id);
                self.blocks.set(
                    guard_id,
                    BasicBlock {
                        id: guard_id,
                        statement: SimpleStatement::Guard(copy_bexpr(condition)),
                        outgoing: OutgoingEdges::Branch {
                            on_true: body_entry,
                            on_false: continuation,
                        },
                    },
                );
                assert(self.blocks@ =~= before + layout(*command, continuation as int, base).0);
                guard_id
            },
        }
    }
}

} // verus!
