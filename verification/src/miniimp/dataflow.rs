use vstd::prelude::*;
use crate::miniimp::ast::{AExpr, BExpr};
use crate::miniimp::cfg::{
    blocks_wf, edge_targets, lemma_pred_list_ids, pred_list, AnnotatedControlFlowGraph, BasicBlock, BlockId, ControlFlowGraph,
    SimpleStatement,
};
use crate::text::{
    chars_before, lemma_chars_before_irreflexive, lemma_chars_before_total,
    lemma_chars_before_transitive, str_before, str_eq,
};
use crate::miniimp::sets::{
    lemma_names_insert, lemma_count_grows, lemma_mass_nonneg, lemma_mass_update,
    lemma_slack_nonneg, lemma_slack_update, mass, names_of, slack, ItemSet, SetElement, VariableSet,
};

verus! {

/// Where a variable gets a value: from the program input, or from the
/// assignment in a block.
#[derive(Debug, Clone, PartialEq, Eq, PartialOrd, Ord)]
pub enum Definition {
    Input(String),
    Assignment { variable: String, block: BlockId },
}

/// A definition, with the variable taken by its characters.
pub enum DefinitionView {
    Input(Seq<char>),
    Assignment(Seq<char>, BlockId),
}

impl View for Definition {
    type V = DefinitionView;

    open spec fn view(&self) -> DefinitionView {
        match self {
            Definition::Input(x) => DefinitionView::Input(x@),
            Definition::Assignment { variable, block } => DefinitionView::Assignment(variable@, *block),
        }
    }
}

/// The variable that a definition gives a value to.
pub open spec fn defined_var(d: DefinitionView) -> Seq<char> {
    match d {
        DefinitionView::Input(x) => x,
        DefinitionView::Assignment(x, _) => x,
    }
}

impl Definition {
    /// The variable that the definition gives a value to.
    pub fn variable(&self) -> (r: &str)
        ensures
            r@ == defined_var(self@),
    {
        match self {
            Definition::Input(variable) => variable.as_str(),
            Definition::Assignment { variable, .. } => variable.as_str(),
        }
    }
}

impl SetElement for Definition {
    fn same_as(&self, other: &Self) -> (r: bool) {
        match (self, other) {
            (Definition::Input(x), Definition::Input(y)) => x.eq(y),
            (
                Definition::Assignment { variable: x, block: a },
                Definition::Assignment { variable: y, block: b },
            ) => x.eq(y) && *a == *b,
            _ => false,
        }
    }

    fn duplicate(&self) -> (r: Self) {
        match self {
            Definition::Input(x) => Definition::Input(x.clone()),
            Definition::Assignment { variable, block } => Definition::Assignment {
                variable: variable.clone(),
                block: *block,
            },
        }
    }
}

/// A set of definitions.
pub type DefinitionSet = ItemSet<Definition>;

/// The facts that an analysis attaches to a block: on entry and on exit.
#[derive(Debug)]
pub struct DataflowAnnotation<T> {
    pub in_set: T,
    pub out_set: T,
}

/// The variables that occur in an arithmetic expression.
pub open spec fn aexpr_vars(e: AExpr) -> Set<Seq<char>>
    decreases e,
{
    match e {
        AExpr::Var(x) => set![x@],
        AExpr::Int(_) => Set::empty(),
        AExpr::Add(a, b) => aexpr_vars(*a).union(aexpr_vars(*b)),
        AExpr::Sub(a, b) => aexpr_vars(*a).union(aexpr_vars(*b)),
        AExpr::Mul(a, b) => aexpr_vars(*a).union(aexpr_vars(*b)),
    }
}

/// The variables that occur in a Boolean expression.
pub open spec fn bexpr_vars(e: BExpr) -> Set<Seq<char>>
    decreases e,
{
    match e {
        BExpr::True => Set::empty(),
        BExpr::False => Set::empty(),
        BExpr::And(a, b) => bexpr_vars(*a).union(bexpr_vars(*b)),
        BExpr::Not(a) => bexpr_vars(*a),
        BExpr::Less(a, b) => aexpr_vars(*a).union(aexpr_vars(*b)),
    }
}

/// The variables that a statement reads.
pub open spec fn uses(s: SimpleStatement) -> Set<Seq<char>> {
    match s {
        SimpleStatement::Skip => Set::empty(),
        SimpleStatement::Assign(_, e) => aexpr_vars(e),
        SimpleStatement::Guard(g) => bexpr_vars(g),
    }
}

/// The variables that a statement writes.
pub open spec fn defs(s: SimpleStatement) -> Set<Seq<char>> {
    match s {
        SimpleStatement::Assign(x, _) => set![x@],
        _ => Set::empty(),
    }
}

/// The variables read or written by the first `n` blocks.
pub open spec fn blocks_vars(bs: Seq<BasicBlock>, n: int) -> Set<Seq<char>>
    decreases n,
{
    if n <= 0 {
        Set::empty()
    } else {
        blocks_vars(bs, n - 1).union(uses(bs[n - 1].statement)).union(defs(bs[n - 1].statement))
    }
}

/// Every variable of a graph: its input, its output, and every variable that
/// a block reads or writes.
pub open spec fn graph_vars(cfg: &ControlFlowGraph) -> Set<Seq<char>> {
    set![cfg.input@, cfg.output@].union(blocks_vars(cfg.spec_blocks(), cfg.spec_blocks().len() as int))
}

pub proof fn lemma_blocks_vars(bs: Seq<BasicBlock>, n: int, i: int)
    requires
        0 <= i < n <= bs.len(),
    ensures
        uses(bs[i].statement).subset_of(blocks_vars(bs, n)),
        defs(bs[i].statement).subset_of(blocks_vars(bs, n)),
    decreases n,
{
    if i < n - 1 {
        lemma_blocks_vars(bs, n - 1, i);
    }
}

/// The variables of an arithmetic expression.
pub fn variables_in_aexpr(expression: &AExpr) -> (r: VariableSet)
    ensures
        r@ == aexpr_vars(*expression),
    decreases expression,
{
    match expression {
        AExpr::Var(variable) => VariableSet::singleton(variable.clone()),
        AExpr::Int(_) => VariableSet::new(),
        AExpr::Add(left, right) => variables_in_aexpr(left).union(&variables_in_aexpr(right)),
        AExpr::Sub(left, right) => variables_in_aexpr(left).union(&variables_in_aexpr(right)),
        AExpr::Mul(left, right) => variables_in_aexpr(left).union(&variables_in_aexpr(right)),
    }
}

/// The variables of a Boolean expression.
pub fn variables_in_bexpr(expression: &BExpr) -> (r: VariableSet)
    ensures
        r@ == bexpr_vars(*expression),
    decreases expression,
{
    match expression {
        BExpr::True => VariableSet::new(),
        BExpr::False => VariableSet::new(),
        BExpr::And(left, right) => variables_in_bexpr(left).union(&variables_in_bexpr(right)),
        BExpr::Not(value) => variables_in_bexpr(value),
        BExpr::Less(left, right) => variables_in_aexpr(left).union(&variables_in_aexpr(right)),
    }
}

/// The variables that a statement reads.
pub fn used_variables(statement: &SimpleStatement) -> (r: VariableSet)
    ensures
        r@ == uses(*statement),
{
    match statement {
        SimpleStatement::Skip => VariableSet::new(),
        SimpleStatement::Assign(_, expression) => variables_in_aexpr(expression),
        SimpleStatement::Guard(condition) => variables_in_bexpr(condition),
    }
}

/// The variables that a statement writes.
pub fn defined_variables(statement: &SimpleStatement) -> (r: VariableSet)
    ensures
        r@ == defs(*statement),
{
    match statement {
        SimpleStatement::Assign(variable, _) => VariableSet::singleton(variable.clone()),
        SimpleStatement::Skip | SimpleStatement::Guard(_) => VariableSet::new(),
    }
}

/// Every variable of a graph.
pub fn all_variables(cfg: &ControlFlowGraph) -> (r: VariableSet)
    ensures
        r@ == graph_vars(cfg),
{
    let mut variables = VariableSet::singleton(cfg.input.clone());
    variables.insert(cfg.output.clone());
    let blocks = cfg.blocks();
    let mut i: usize = 0;
    while i < blocks.len()
        invariant
            i <= blocks.len(),
            blocks@ == cfg.spec_blocks(),
            variables@ == set![cfg.input@, cfg.output@].union(blocks_vars(cfg.spec_blocks(), i as int)),
        decreases blocks.len() - i,
    {
        variables.extend(&used_variables(&blocks[i].statement));
        variables.extend(&defined_variables(&blocks[i].statement));
        i = i + 1;
        assert(variables@ =~= set![cfg.input@, cfg.output@].union(blocks_vars(cfg.spec_blocks(), i as int)));
    }
    variables
}

/// The sets that a list of sets holds.
pub open spec fn views<T: View>(v: Seq<ItemSet<T>>) -> Seq<Set<T::V>> {
    v.map_values(|s: ItemSet<T>| s@)
}

/// The union of `sets[t]` over the targets `t`.
pub open spec fn union_over<A>(sets: Seq<Set<A>>, targets: Seq<BlockId>) -> Set<A>
    decreases targets.len(),
{
    if targets.len() == 0 {
        Set::empty()
    } else {
        union_over(sets, targets.drop_last()).union(sets[targets.last() as int])
    }
}

pub proof fn lemma_union_over_grows<A>(a: Seq<Set<A>>, b: Seq<Set<A>>, t: Seq<BlockId>)
    requires
        a.len() == b.len(),
        forall|j: int| 0 <= j < a.len() ==> a[j].subset_of(b[j]),
        forall|j: int| 0 <= j < t.len() ==> t[j] < a.len(),
    ensures
        union_over(a, t).subset_of(union_over(b, t)),
    decreases t.len(),
{
    if t.len() > 0 {
        lemma_union_over_grows(a, b, t.drop_last());
    }
}

pub proof fn lemma_union_over_within<A>(a: Seq<Set<A>>, t: Seq<BlockId>, u: Set<A>)
    requires
        forall|j: int| 0 <= j < a.len() ==> a[j].subset_of(u),
        forall|j: int| 0 <= j < t.len() ==> t[j] < a.len(),
    ensures
        union_over(a, t).subset_of(u),
    decreases t.len(),
{
    if t.len() > 0 {
        lemma_union_over_within(a, t.drop_last(), u);
    }
}

/// Each set of `a` lies in the set of `b` at the same place.
pub open spec fn pointwise_subset<A>(a: Seq<Set<A>>, b: Seq<Set<A>>) -> bool {
    &&& a.len() == b.len()
    &&& forall|k: int| 0 <= k < a.len() ==> #[trigger] a[k].subset_of(b[k])
}

pub proof fn lemma_pointwise_antisymmetric<A>(a: Seq<Set<A>>, b: Seq<Set<A>>)
    requires
        pointwise_subset(a, b),
        pointwise_subset(b, a),
    ensures
        a == b,
{
    assert forall|k: int| 0 <= k < a.len() implies a[k] == b[k] by {
        assert(a[k].subset_of(b[k]));
        assert(b[k].subset_of(a[k]));
        assert(a[k] =~= b[k]);
    }
    assert(a =~= b);
}

/// The variables live on exit from block `b`: those live on entry to a
/// successor, and the output at the exit block.
#[verifier::opaque]
pub open spec fn live_out(cfg: &ControlFlowGraph, ins: Seq<Set<Seq<char>>>, b: int) -> Set<Seq<char>> {
    union_over(ins, edge_targets(cfg.spec_blocks()[b].outgoing)).union(
        if b == cfg.exit {
            set![cfg.output@]
        } else {
            Set::empty()
        },
    )
}

/// The variables live on entry to a statement: those it reads, and those
/// live after it that it does not write.
#[verifier::opaque]
pub open spec fn live_in(s: SimpleStatement, out: Set<Seq<char>>) -> Set<Seq<char>> {
    uses(s).union(out.difference(defs(s)))
}

/// The live-variable equations of block `b`.
pub open spec fn live_block_ok(
    cfg: &ControlFlowGraph,
    ins: Seq<Set<Seq<char>>>,
    outs: Seq<Set<Seq<char>>>,
    b: int,
) -> bool {
    &&& outs[b] == live_out(cfg, ins, b)
    &&& ins[b] == live_in(cfg.spec_blocks()[b].statement, outs[b])
}

/// The live-variable equations hold for every block.
pub open spec fn is_live_solution(
    cfg: &ControlFlowGraph,
    ins: Seq<Set<Seq<char>>>,
    outs: Seq<Set<Seq<char>>>,
) -> bool {
    &&& ins.len() == cfg.spec_blocks().len()
    &&& outs.len() == cfg.spec_blocks().len()
    &&& forall|b: int| 0 <= b < ins.len() ==> #[trigger] live_block_ok(cfg, ins, outs, b)
}

/// No solution of the live-variable equations has a smaller set anywhere.
pub open spec fn below_live_solutions(
    cfg: &ControlFlowGraph,
    ins: Seq<Set<Seq<char>>>,
    outs: Seq<Set<Seq<char>>>,
) -> bool {
    forall|i2: Seq<Set<Seq<char>>>, o2: Seq<Set<Seq<char>>>|
        #[trigger] is_live_solution(cfg, i2, o2) ==> pointwise_subset(ins, i2) && pointwise_subset(
            outs,
            o2,
        )
}

/// The least solution of the live-variable equations.
pub open spec fn is_least_live_solution(
    cfg: &ControlFlowGraph,
    ins: Seq<Set<Seq<char>>>,
    outs: Seq<Set<Seq<char>>>,
) -> bool {
    &&& is_live_solution(cfg, ins, outs)
    &&& below_live_solutions(cfg, ins, outs)
}

/// The live-variable sets of a graph, on entry and on exit of each block:
/// the least solution of the equations.
pub open spec fn live_sets(cfg: &ControlFlowGraph) -> (Seq<Set<Seq<char>>>, Seq<Set<Seq<char>>>) {
    choose|p: (Seq<Set<Seq<char>>>, Seq<Set<Seq<char>>>)| is_least_live_solution(cfg, p.0, p.1)
}

/// A least solution is the one `live_sets` names.
pub proof fn lemma_least_live_unique(
    cfg: &ControlFlowGraph,
    ins: Seq<Set<Seq<char>>>,
    outs: Seq<Set<Seq<char>>>,
)
    requires
        is_least_live_solution(cfg, ins, outs),
    ensures
        live_sets(cfg) == (ins, outs),
{
    assert(is_least_live_solution(cfg, (ins, outs).0, (ins, outs).1));
    let p = live_sets(cfg);
    assert(is_least_live_solution(cfg, p.0, p.1));
    assert(is_live_solution(cfg, p.0, p.1));
    assert(is_live_solution(cfg, ins, outs));
    lemma_pointwise_antisymmetric(ins, p.0);
    lemma_pointwise_antisymmetric(outs, p.1);
}

/// The sets on entry that an annotated graph carries.
pub open spec fn annotation_ins(g: &AnnotatedControlFlowGraph<DataflowAnnotation<VariableSet>>) -> Seq<
    Set<Seq<char>>,
> {
    g.spec_blocks().map_values(|b: crate::miniimp::cfg::AnnotatedBasicBlock<DataflowAnnotation<VariableSet>>| b.annotation.in_set@)
}

/// The sets on exit that an annotated graph carries.
pub open spec fn annotation_outs(g: &AnnotatedControlFlowGraph<DataflowAnnotation<VariableSet>>) -> Seq<
    Set<Seq<char>>,
> {
    g.spec_blocks().map_values(|b: crate::miniimp::cfg::AnnotatedBasicBlock<DataflowAnnotation<VariableSet>>| b.annotation.out_set@)
}

/// The definition sets on entry that an annotated graph carries.
pub open spec fn definition_ins(g: &AnnotatedControlFlowGraph<DataflowAnnotation<DefinitionSet>>) -> Seq<
    Set<DefinitionView>,
> {
    g.spec_blocks().map_values(|b: crate::miniimp::cfg::AnnotatedBasicBlock<DataflowAnnotation<DefinitionSet>>| b.annotation.in_set@)
}

/// The definition sets on exit that an annotated graph carries.
pub open spec fn definition_outs(g: &AnnotatedControlFlowGraph<DataflowAnnotation<DefinitionSet>>) -> Seq<
    Set<DefinitionView>,
> {
    g.spec_blocks().map_values(|b: crate::miniimp::cfg::AnnotatedBasicBlock<DataflowAnnotation<DefinitionSet>>| b.annotation.out_set@)
}

/// An annotated graph has the blocks and edges of `cfg`.
pub open spec fn same_graph<A>(cfg: &ControlFlowGraph, g: &AnnotatedControlFlowGraph<A>) -> bool {
    &&& g.input == cfg.input
    &&& g.output == cfg.output
    &&& g.entry == cfg.entry
    &&& g.exit == cfg.exit
    &&& g.spec_blocks().len() == cfg.spec_blocks().len()
    &&& forall|i: int| #![trigger g.spec_blocks()[i]]
        0 <= i < cfg.spec_blocks().len() ==> {
            &&& g.spec_blocks()[i].id == cfg.spec_blocks()[i].id
            &&& g.spec_blocks()[i].statement == cfg.spec_blocks()[i].statement
            &&& g.spec_blocks()[i].outgoing == cfg.spec_blocks()[i].outgoing
        }
}

/// The current sets of the live-variable iteration lie below the equations.
#[verifier::opaque]
pub open spec fn live_below(
    cfg: &ControlFlowGraph,
    ins: Seq<Set<Seq<char>>>,
    outs: Seq<Set<Seq<char>>>,
    u: Set<Seq<char>>,
) -> bool {
    &&& ins.len() == cfg.spec_blocks().len()
    &&& outs.len() == cfg.spec_blocks().len()
    &&& forall|b: int|
        #![trigger ins[b]]
        0 <= b < ins.len() ==> {
            &&& ins[b].subset_of(u)
            &&& outs[b].subset_of(u)
            &&& ins[b].subset_of(live_in(cfg.spec_blocks()[b].statement, outs[b]))
            &&& outs[b].subset_of(live_out(cfg, ins, b))
        }
}

/// One block update of the live-variable iteration keeps the sets below the
/// equations and inside the universe, and only makes them grow.
proof fn lemma_live_step(
    cfg: &ControlFlowGraph,
    ins: Seq<Set<Seq<char>>>,
    outs: Seq<Set<Seq<char>>>,
    b: int,
    new_in: Set<Seq<char>>,
    new_out: Set<Seq<char>>,
    u: Seq<Seq<char>>,
)
    requires
        cfg.wf(),
        0 <= b < ins.len(),
        live_below(cfg, ins, outs, graph_vars(cfg)),
        forall|x: Seq<char>| graph_vars(cfg).contains(x) ==> u.contains(x),
        new_out == live_out(cfg, ins, b),
        new_in == live_in(cfg.spec_blocks()[b].statement, new_out),
    ensures
        live_below(cfg, ins.update(b, new_in), outs.update(b, new_out), graph_vars(cfg)),
        ins[b].subset_of(new_in),
        outs[b].subset_of(new_out),
        slack(u, ins.update(b, new_in), ins.len() as int) + slack(
            u,
            outs.update(b, new_out),
            ins.len() as int,
        ) <= slack(u, ins, ins.len() as int) + slack(u, outs, ins.len() as int),
        (new_in != ins[b] || new_out != outs[b]) ==> slack(
            u,
            ins.update(b, new_in),
            ins.len() as int,
        ) + slack(u, outs.update(b, new_out), ins.len() as int) < slack(
            u,
            ins,
            ins.len() as int,
        ) + slack(u, outs, ins.len() as int),
{
    reveal(live_out);
    reveal(live_in);
    reveal(live_below);
    let n = ins.len() as int;
    let bs = cfg.spec_blocks();
    let g = graph_vars(cfg);
    let ins2 = ins.update(b, new_in);
    let outs2 = outs.update(b, new_out);
    assert(ins[b].subset_of(live_in(bs[b].statement, outs[b])));
    assert(ins[b].subset_of(new_in));
    assert(outs[b].subset_of(new_out));
    assert forall|j: int| 0 <= j < edge_targets(bs[b].outgoing).len() implies edge_targets(
        bs[b].outgoing,
    )[j] < ins.len() by {
        assert(edge_targets(bs[b].outgoing)[j] < bs.len());
    }
    assert forall|j: int| 0 <= j < ins.len() implies ins[j].subset_of(g) by {
        assert(ins[j].subset_of(g));
    }
    lemma_union_over_within(ins, edge_targets(bs[b].outgoing), g);
    assert(new_out.subset_of(g));
    crate::miniimp::dataflow::lemma_blocks_vars(bs, bs.len() as int, b);
    assert(new_in.subset_of(g));
    assert forall|j: int| 0 <= j < ins.len() implies ins[j].subset_of(#[trigger] ins2[j]) by {
        if j == b {
        } else {
        }
    }
    assert forall|c: int| #![trigger ins2[c]] 0 <= c < ins2.len() implies {
        &&& ins2[c].subset_of(g)
        &&& outs2[c].subset_of(g)
        &&& ins2[c].subset_of(live_in(bs[c].statement, outs2[c]))
        &&& outs2[c].subset_of(live_out(cfg, ins2, c))
    } by {
        assert forall|j: int| 0 <= j < edge_targets(bs[c].outgoing).len() implies edge_targets(
            bs[c].outgoing,
        )[j] < ins.len() by {
            assert(edge_targets(bs[c].outgoing)[j] < bs.len());
        }
        lemma_union_over_grows(ins, ins2, edge_targets(bs[c].outgoing));
        if c != b {
            assert(ins[c] == ins2[c]);
            assert(outs[c].subset_of(live_out(cfg, ins, c)));
        }
    }
    lemma_slack_update(u, ins, n, b, new_in);
    lemma_slack_update(u, outs, n, b, new_out);
    lemma_count_grows(u, ins[b], new_in);
    lemma_count_grows(u, outs[b], new_out);
    if new_in != ins[b] {
        let x = choose|x: Seq<char>| new_in.contains(x) && !ins[b].contains(x);
        assert(new_in.contains(x) && !ins[b].contains(x)) by {
            if forall|x: Seq<char>| new_in.contains(x) ==> ins[b].contains(x) {
                assert(new_in =~= ins[b]);
            }
        }
        assert(u.contains(x));
    }
    if new_out != outs[b] {
        let x = choose|x: Seq<char>| new_out.contains(x) && !outs[b].contains(x);
        assert(new_out.contains(x) && !outs[b].contains(x)) by {
            if forall|x: Seq<char>| new_out.contains(x) ==> outs[b].contains(x) {
                assert(new_out =~= outs[b]);
            }
        }
        assert(u.contains(x));
    }
}

pub proof fn lemma_target_in_graph(cfg: &ControlFlowGraph, b: int, j: int)
    requires
        cfg.wf(),
        0 <= b < cfg.spec_blocks().len(),
        0 <= j < edge_targets(cfg.spec_blocks()[b].outgoing).len(),
    ensures
        edge_targets(cfg.spec_blocks()[b].outgoing)[j] < cfg.spec_blocks().len(),
{
    let bs = cfg.spec_blocks();
    assert(blocks_wf(bs, cfg.entry as int, cfg.exit as int));
    assert(edge_targets(bs[b].outgoing)[j] < bs.len());
}

/// The union of the sets of the successors of block `b`.
fn union_of_successors(cfg: &ControlFlowGraph, sets: &Vec<VariableSet>, b: BlockId) -> (r: VariableSet)
    requires
        cfg.wf(),
        sets.len() == cfg.spec_blocks().len(),
        b < cfg.spec_blocks().len(),
    ensures
        r@ == union_over(views(sets@), edge_targets(cfg.spec_blocks()[b as int].outgoing)),
{
    let successors = cfg.successors(b);
    let ghost t = edge_targets(cfg.spec_blocks()[b as int].outgoing);
    assert(successors@ == t);
    let mut r = VariableSet::new();
    let mut j: usize = 0;
    while j < successors.len()
        invariant
            cfg.wf(),
            sets.len() == cfg.spec_blocks().len(),
            b < cfg.spec_blocks().len(),
            successors@ == t,
            t == edge_targets(cfg.spec_blocks()[b as int].outgoing),
            j <= successors.len(),
            r@ == union_over(views(sets@), t.subrange(0, j as int)),
        decreases successors.len() - j,
    {
        proof {
            lemma_target_in_graph(cfg, b as int, j as int);
        }
        r.extend(&sets[successors[j]]);
        j = j + 1;
        assert(t.subrange(0, j as int).drop_last() =~= t.subrange(0, j - 1));
    }
    assert(t.subrange(0, successors.len() as int) =~= t);
    r
}

/// A vector of `n` empty sets.
fn empty_sets<T: SetElement>(n: usize) -> (r: Vec<ItemSet<T>>)
    ensures
        r.len() == n,
        forall|i: int| 0 <= i < n ==> (#[trigger] r@[i])@ == Set::<T::V>::empty(),
{
    let mut r: Vec<ItemSet<T>> = Vec::new();
    let mut i: usize = 0;
    while i < n
        invariant
            i <= n,
            r.len() == i,
            forall|k: int| 0 <= k < i ==> (#[trigger] r@[k])@ == Set::<T::V>::empty(),
        decreases n - i,
    {
        r.push(ItemSet::new());
        i = i + 1;
    }
    r
}

/// Copies of `n` sets equal to `s`.
fn copies(s: &VariableSet, n: usize) -> (r: Vec<VariableSet>)
    ensures
        r.len() == n,
        forall|i: int| 0 <= i < n ==> (#[trigger] r@[i])@ == s@,
{
    let mut r: Vec<VariableSet> = Vec::new();
    let mut i: usize = 0;
    while i < n
        invariant
            i <= n,
            r.len() == i,
            forall|k: int| 0 <= k < i ==> (#[trigger] r@[k])@ == s@,
        decreases n - i,
    {
        r.push(s.copy());
        i = i + 1;
    }
    r
}

/// One block update of the live-variable iteration stays below every
/// solution.
proof fn lemma_live_step_least(
    cfg: &ControlFlowGraph,
    ins: Seq<Set<Seq<char>>>,
    outs: Seq<Set<Seq<char>>>,
    b: int,
    new_in: Set<Seq<char>>,
    new_out: Set<Seq<char>>,
)
    requires
        cfg.wf(),
        0 <= b < ins.len(),
        ins.len() == cfg.spec_blocks().len(),
        outs.len() == ins.len(),
        below_live_solutions(cfg, ins, outs),
        new_out == live_out(cfg, ins, b),
        new_in == live_in(cfg.spec_blocks()[b].statement, new_out),
    ensures
        below_live_solutions(cfg, ins.update(b, new_in), outs.update(b, new_out)),
{
    let bs = cfg.spec_blocks();
    let t = edge_targets(bs[b].outgoing);
    assert forall|i2: Seq<Set<Seq<char>>>, o2: Seq<Set<Seq<char>>>|
        #[trigger] is_live_solution(cfg, i2, o2) implies pointwise_subset(
        ins.update(b, new_in),
        i2,
    ) && pointwise_subset(outs.update(b, new_out), o2) by {
        reveal(live_out);
        reveal(live_in);
        assert(live_block_ok(cfg, i2, o2, b));
        assert forall|j: int| 0 <= j < t.len() implies t[j] < ins.len() by {
            assert(edge_targets(bs[b].outgoing)[j] < bs.len());
        }
        assert forall|k: int| 0 <= k < ins.len() implies ins[k].subset_of(i2[k]) by {}
        lemma_union_over_grows(ins, i2, t);
        assert(new_out.subset_of(o2[b]));
        assert(new_in.subset_of(i2[b]));
        assert forall|k: int| 0 <= k < ins.len() implies (#[trigger] ins.update(b, new_in)[k]).subset_of(
            i2[k],
        ) by {}
        assert forall|k: int| 0 <= k < ins.len() implies (#[trigger] outs.update(b, new_out)[k]).subset_of(
            o2[k],
        ) by {}
    }
}

/// Live-variable analysis: for every block, the variables whose current
/// value may still be read before the program ends (the output counts as
/// read at the exit). Iterates the equations, from empty sets, until none
/// changes.
pub fn live_variables_analysis(cfg: &ControlFlowGraph) -> (r: AnnotatedControlFlowGraph<
    DataflowAnnotation<VariableSet>,
>)
    requires
        cfg.wf(),
    ensures
        same_graph(cfg, &r),
        is_least_live_solution(cfg, annotation_ins(&r), annotation_outs(&r)),
        live_sets(cfg) == (annotation_ins(&r), annotation_outs(&r)),
{
    let universe = all_variables(cfg);
    let universe_names = universe.to_vec();
    let ghost u = universe_names@.map_values(|s: String| s@);
    proof {
        assert forall|x: Seq<char>| graph_vars(cfg).contains(x) implies u.contains(x) by {
            let k = choose|k: int| 0 <= k < universe_names@.len() && #[trigger] universe_names@[k]@ == x;
            assert(u[k] == x);
        }
    }
    let block_count = cfg.blocks().len();
    let mut in_sets = empty_sets(block_count);
    let mut out_sets = empty_sets(block_count);
    let exit_boundary = VariableSet::singleton(cfg.output.clone());
    proof {
        reveal(live_below);
        reveal(live_in);
        reveal(live_out);
        assert forall|b: int| #![trigger views(in_sets@)[b]] 0 <= b < block_count implies {
            &&& views(in_sets@)[b].subset_of(graph_vars(cfg))
            &&& views(out_sets@)[b].subset_of(graph_vars(cfg))
            &&& views(in_sets@)[b].subset_of(live_in(cfg.spec_blocks()[b].statement, views(out_sets@)[b]))
            &&& views(out_sets@)[b].subset_of(live_out(cfg, views(in_sets@), b))
        } by {
            assert(views(in_sets@)[b] == in_sets@[b]@);
            assert(views(out_sets@)[b] == out_sets@[b]@);
        }
        assert forall|i2: Seq<Set<Seq<char>>>, o2: Seq<Set<Seq<char>>>|
            #[trigger] is_live_solution(cfg, i2, o2) implies pointwise_subset(views(in_sets@), i2)
            && pointwise_subset(views(out_sets@), o2) by {
            assert forall|k: int| 0 <= k < block_count implies (#[trigger] views(in_sets@)[k]).subset_of(
                i2[k],
            ) by {
                assert(views(in_sets@)[k] == in_sets@[k]@);
            }
            assert forall|k: int| 0 <= k < block_count implies (#[trigger] views(out_sets@)[k]).subset_of(
                o2[k],
            ) by {
                assert(views(out_sets@)[k] == out_sets@[k]@);
            }
        }
    }
    loop
        invariant
            cfg.wf(),
            block_count == cfg.spec_blocks().len(),
            in_sets.len() == block_count,
            out_sets.len() == block_count,
            exit_boundary@ == set![cfg.output@],
            forall|x: Seq<char>| graph_vars(cfg).contains(x) ==> u.contains(x),
            live_below(cfg, views(in_sets@), views(out_sets@), graph_vars(cfg)),
            below_live_solutions(cfg, views(in_sets@), views(out_sets@)),
        ensures
            in_sets.len() == block_count,
            out_sets.len() == block_count,
            is_least_live_solution(cfg, views(in_sets@), views(out_sets@)),
        decreases slack(u, views(in_sets@), block_count as int) + slack(
            u,
            views(out_sets@),
            block_count as int,
        ),
    {
        let mut changed = false;
        let ghost ins0 = views(in_sets@);
        let ghost outs0 = views(out_sets@);
        let ghost m0 = slack(u, ins0, block_count as int) + slack(u, outs0, block_count as int);
        let mut k = block_count;
        while k > 0
            invariant
                cfg.wf(),
                block_count == cfg.spec_blocks().len(),
                in_sets.len() == block_count,
                out_sets.len() == block_count,
                k <= block_count,
                exit_boundary@ == set![cfg.output@],
                forall|x: Seq<char>| graph_vars(cfg).contains(x) ==> u.contains(x),
                live_below(cfg, views(in_sets@), views(out_sets@), graph_vars(cfg)),
                below_live_solutions(cfg, views(in_sets@), views(out_sets@)),
                slack(u, views(in_sets@), block_count as int) + slack(
                    u,
                    views(out_sets@),
                    block_count as int,
                ) <= m0,
                changed ==> slack(u, views(in_sets@), block_count as int) + slack(
                    u,
                    views(out_sets@),
                    block_count as int,
                ) < m0,
                !changed ==> views(in_sets@) == ins0 && views(out_sets@) == outs0,
                !changed ==> forall|b: int|
                    k <= b < block_count ==> #[trigger] live_block_ok(
                        cfg,
                        views(in_sets@),
                        views(out_sets@),
                        b,
                    ),
            decreases k,
        {
            k = k - 1;
            let b = k;
            let statement = &cfg.blocks()[b].statement;
            let mut new_out = union_of_successors(cfg, &in_sets, b);
            if b == cfg.exit {
                new_out.extend(&exit_boundary);
            }
            let mut new_in = new_out.difference(&defined_variables(statement));
            new_in.extend(&used_variables(statement));
            let ghost ins = views(in_sets@);
            let ghost outs = views(out_sets@);
            proof {
                assert(new_out@ =~= live_out(cfg, ins, b as int)) by {
                    reveal(live_out);
                }
                assert(new_in@ =~= live_in(cfg.spec_blocks()[b as int].statement, new_out@)) by {
                    reveal(live_in);
                }
                lemma_live_step(cfg, ins, outs, b as int, new_in@, new_out@, u);
                lemma_live_step_least(cfg, ins, outs, b as int, new_in@, new_out@);
            }
            if !new_in.same(&in_sets[b]) || !new_out.same(&out_sets[b]) {
                in_sets.set(b, new_in);
                out_sets.set(b, new_out);
                changed = true;
                proof {
                    assert(views(in_sets@) =~= ins.update(b as int, new_in@));
                    assert(views(out_sets@) =~= outs.update(b as int, new_out@));
                }
            } else {
                proof {
                    assert(views(in_sets@)[b as int] == new_in@);
                    assert(views(out_sets@)[b as int] == new_out@);
                    assert(live_block_ok(cfg, views(in_sets@), views(out_sets@), b as int));
                }
            }
        }
        if !changed {
            break;
        }
        proof {
            lemma_slack_nonneg(u, views(in_sets@), block_count as int);
            lemma_slack_nonneg(u, views(out_sets@), block_count as int);
        }
    }
    let ghost final_ins = views(in_sets@);
    let ghost final_outs = views(out_sets@);
    let annotation_for = (
        |block: &BasicBlock| -> (a: DataflowAnnotation<VariableSet>)
            requires
                block.id < in_sets.len(),
                block.id < out_sets.len(),
            ensures
                a.in_set@ == in_sets@.index(block.id as int)@,
                a.out_set@ == out_sets@.index(block.id as int)@,
            {
                DataflowAnnotation {
                    in_set: in_sets[block.id].copy(),
                    out_set: out_sets[block.id].copy(),
                }
            }
    );
    let r = cfg.annotate_with(annotation_for);
    proof {
        assert(annotation_ins(&r) =~= final_ins);
        assert(annotation_outs(&r) =~= final_outs);
        lemma_least_live_unique(cfg, final_ins, final_outs);
    }
    r
}

/// The intersection of a non-empty list of sets; `top` for the empty list.
pub open spec fn meet<A>(list: Seq<Set<A>>, top: Set<A>) -> Set<A>
    decreases list.len(),
{
    if list.len() == 0 {
        top
    } else if list.len() == 1 {
        list[0]
    } else {
        meet(list.drop_last(), top).intersect(list.last())
    }
}

pub proof fn lemma_meet_grows<A>(a: Seq<Set<A>>, b: Seq<Set<A>>, top: Set<A>)
    requires
        a.len() == b.len(),
        forall|j: int| 0 <= j < a.len() ==> a[j].subset_of(b[j]),
    ensures
        meet(a, top).subset_of(meet(b, top)),
    decreases a.len(),
{
    if a.len() > 1 {
        lemma_meet_grows(a.drop_last(), b.drop_last(), top);
    }
}

pub proof fn lemma_meet_within<A>(a: Seq<Set<A>>, top: Set<A>, u: Set<A>)
    requires
        top.subset_of(u),
        forall|j: int| 0 <= j < a.len() ==> a[j].subset_of(u),
    ensures
        meet(a, top).subset_of(u),
    decreases a.len(),
{
    if a.len() > 1 {
        lemma_meet_within(a.drop_last(), top, u);
    }
}

/// What reaches block `b` from its predecessors: their sets on exit, in
/// order, and the program input at the entry block.
pub open spec fn incoming(cfg: &ControlFlowGraph, outs: Seq<Set<Seq<char>>>, b: int) -> Seq<
    Set<Seq<char>>,
> {
    pred_list(cfg.spec_blocks(), b as usize, cfg.spec_blocks().len() as int).map_values(
        |p: BlockId| outs[p as int],
    ) + if b == cfg.entry {
        seq![set![cfg.input@]]
    } else {
        Seq::<Set<Seq<char>>>::empty()
    }
}

/// The variables surely defined on entry to block `b`: those defined on
/// every incoming path.
#[verifier::opaque]
pub open spec fn defined_in(cfg: &ControlFlowGraph, outs: Seq<Set<Seq<char>>>, b: int) -> Set<Seq<char>> {
    meet(incoming(cfg, outs, b), graph_vars(cfg))
}

/// The variables surely defined after a statement.
pub open spec fn defined_out(s: SimpleStatement, in_set: Set<Seq<char>>) -> Set<Seq<char>> {
    in_set.union(defs(s))
}

/// The defined-variable equations of block `b`.
pub open spec fn defined_block_ok(
    cfg: &ControlFlowGraph,
    ins: Seq<Set<Seq<char>>>,
    outs: Seq<Set<Seq<char>>>,
    b: int,
) -> bool {
    &&& ins[b] == defined_in(cfg, outs, b)
    &&& outs[b] == defined_out(cfg.spec_blocks()[b].statement, ins[b])
}

/// The defined-variable equations hold for every block.
pub open spec fn is_defined_solution(
    cfg: &ControlFlowGraph,
    ins: Seq<Set<Seq<char>>>,
    outs: Seq<Set<Seq<char>>>,
) -> bool {
    &&& ins.len() == cfg.spec_blocks().len()
    &&& outs.len() == cfg.spec_blocks().len()
    &&& forall|b: int| 0 <= b < ins.len() ==> #[trigger] defined_block_ok(cfg, ins, outs, b)
}

/// Every set of `a` lies in `u`.
pub open spec fn sets_within<A>(a: Seq<Set<A>>, u: Set<A>) -> bool {
    forall|k: int| 0 <= k < a.len() ==> #[trigger] a[k].subset_of(u)
}

/// No solution of the defined-variable equations over the variables of the
/// graph has a larger set anywhere.
pub open spec fn above_defined_solutions(
    cfg: &ControlFlowGraph,
    ins: Seq<Set<Seq<char>>>,
    outs: Seq<Set<Seq<char>>>,
) -> bool {
    forall|i2: Seq<Set<Seq<char>>>, o2: Seq<Set<Seq<char>>>|
        #[trigger] is_defined_solution(cfg, i2, o2) && sets_within(i2, graph_vars(cfg)) && sets_within(
            o2,
            graph_vars(cfg),
        ) ==> pointwise_subset(i2, ins) && pointwise_subset(o2, outs)
}

/// The greatest solution of the defined-variable equations over the
/// variables of the graph.
pub open spec fn is_greatest_defined_solution(
    cfg: &ControlFlowGraph,
    ins: Seq<Set<Seq<char>>>,
    outs: Seq<Set<Seq<char>>>,
) -> bool {
    &&& is_defined_solution(cfg, ins, outs)
    &&& sets_within(ins, graph_vars(cfg))
    &&& sets_within(outs, graph_vars(cfg))
    &&& above_defined_solutions(cfg, ins, outs)
}

/// The surely-defined variables of a graph, on entry and on exit of each
/// block: the greatest solution of the equations.
pub open spec fn defined_sets(cfg: &ControlFlowGraph) -> (Seq<Set<Seq<char>>>, Seq<Set<Seq<char>>>) {
    choose|p: (Seq<Set<Seq<char>>>, Seq<Set<Seq<char>>>)| is_greatest_defined_solution(cfg, p.0, p.1)
}

/// A greatest solution is the one `defined_sets` names.
pub proof fn lemma_greatest_defined_unique(
    cfg: &ControlFlowGraph,
    ins: Seq<Set<Seq<char>>>,
    outs: Seq<Set<Seq<char>>>,
)
    requires
        is_greatest_defined_solution(cfg, ins, outs),
    ensures
        defined_sets(cfg) == (ins, outs),
{
    assert(is_greatest_defined_solution(cfg, (ins, outs).0, (ins, outs).1));
    let p = defined_sets(cfg);
    assert(is_greatest_defined_solution(cfg, p.0, p.1));
    assert(is_defined_solution(cfg, p.0, p.1));
    assert(is_defined_solution(cfg, ins, outs));
    lemma_pointwise_antisymmetric(ins, p.0);
    lemma_pointwise_antisymmetric(outs, p.1);
}

/// The current sets of the defined-variable iteration lie above the equations.
#[verifier::opaque]
pub open spec fn defined_above(
    cfg: &ControlFlowGraph,
    ins: Seq<Set<Seq<char>>>,
    outs: Seq<Set<Seq<char>>>,
    u: Set<Seq<char>>,
) -> bool {
    &&& ins.len() == cfg.spec_blocks().len()
    &&& outs.len() == cfg.spec_blocks().len()
    &&& forall|b: int|
        #![trigger ins[b]]
        0 <= b < ins.len() ==> {
            &&& ins[b].subset_of(u)
            &&& outs[b].subset_of(u)
            &&& defined_in(cfg, outs, b).subset_of(ins[b])
            &&& defined_out(cfg.spec_blocks()[b].statement, ins[b]).subset_of(outs[b])
        }
}

proof fn lemma_incoming(cfg: &ControlFlowGraph, a: Seq<Set<Seq<char>>>, b: Seq<Set<Seq<char>>>, c: int)
    requires
        cfg.wf(),
        a.len() == cfg.spec_blocks().len(),
        b.len() == a.len(),
        0 <= c < a.len(),
        forall|j: int| 0 <= j < a.len() ==> a[j].subset_of(b[j]),
    ensures
        incoming(cfg, a, c).len() == incoming(cfg, b, c).len(),
        forall|j: int| 0 <= j < incoming(cfg, a, c).len() ==> incoming(cfg, a, c)[j].subset_of(
            incoming(cfg, b, c)[j],
        ),
{
    let bs = cfg.spec_blocks();
    lemma_pred_list_ids(bs, c as usize, bs.len() as int, bs.len() as int);
}

proof fn lemma_incoming_within(cfg: &ControlFlowGraph, a: Seq<Set<Seq<char>>>, c: int, u: Set<Seq<char>>)
    requires
        cfg.wf(),
        a.len() == cfg.spec_blocks().len(),
        0 <= c < a.len(),
        forall|j: int| 0 <= j < a.len() ==> a[j].subset_of(u),
        u.contains(cfg.input@),
    ensures
        forall|j: int| 0 <= j < incoming(cfg, a, c).len() ==> incoming(cfg, a, c)[j].subset_of(u),
{
    let bs = cfg.spec_blocks();
    lemma_pred_list_ids(bs, c as usize, bs.len() as int, bs.len() as int);
    let l = pred_list(bs, c as usize, bs.len() as int);
    assert forall|j: int| 0 <= j < incoming(cfg, a, c).len() implies incoming(cfg, a, c)[j].subset_of(
        u,
    ) by {
        if j < l.len() {
            assert(l[j] < a.len());
        }
    }
}

/// One block update of the defined-variable iteration keeps the sets above
/// the equations and inside the universe, and only makes them shrink.
proof fn lemma_defined_step(
    cfg: &ControlFlowGraph,
    ins: Seq<Set<Seq<char>>>,
    outs: Seq<Set<Seq<char>>>,
    b: int,
    new_in: Set<Seq<char>>,
    new_out: Set<Seq<char>>,
    u: Seq<Seq<char>>,
)
    requires
        cfg.wf(),
        0 <= b < ins.len(),
        defined_above(cfg, ins, outs, graph_vars(cfg)),
        forall|x: Seq<char>| graph_vars(cfg).contains(x) ==> u.contains(x),
        new_in == defined_in(cfg, outs, b),
        new_out == defined_out(cfg.spec_blocks()[b].statement, new_in),
    ensures
        defined_above(cfg, ins.update(b, new_in), outs.update(b, new_out), graph_vars(cfg)),
        mass(u, ins.update(b, new_in), ins.len() as int) + mass(
            u,
            outs.update(b, new_out),
            ins.len() as int,
        ) <= mass(u, ins, ins.len() as int) + mass(u, outs, ins.len() as int),
        (new_in != ins[b] || new_out != outs[b]) ==> mass(
            u,
            ins.update(b, new_in),
            ins.len() as int,
        ) + mass(u, outs.update(b, new_out), ins.len() as int) < mass(
            u,
            ins,
            ins.len() as int,
        ) + mass(u, outs, ins.len() as int),
{
    reveal(defined_above);
    reveal(defined_in);
    let n = ins.len() as int;
    let bs = cfg.spec_blocks();
    let g = graph_vars(cfg);
    let ins2 = ins.update(b, new_in);
    let outs2 = outs.update(b, new_out);
    assert(new_in.subset_of(ins[b]));
    assert(new_out.subset_of(outs[b]));
    assert forall|j: int| 0 <= j < ins.len() implies outs[j].subset_of(g) by {
        assert(ins[j].subset_of(g));
        assert(outs[j].subset_of(g));
    }
    lemma_incoming_within(cfg, outs, b, g);
    lemma_meet_within(incoming(cfg, outs, b), g, g);
    lemma_blocks_vars(bs, bs.len() as int, b);
    assert forall|j: int| 0 <= j < ins.len() implies (#[trigger] outs2[j]).subset_of(outs[j]) by {}
    assert forall|c: int| #![trigger ins2[c]] 0 <= c < ins2.len() implies {
        &&& ins2[c].subset_of(g)
        &&& outs2[c].subset_of(g)
        &&& defined_in(cfg, outs2, c).subset_of(ins2[c])
        &&& defined_out(bs[c].statement, ins2[c]).subset_of(outs2[c])
    } by {
        lemma_incoming(cfg, outs2, outs, c);
        lemma_meet_grows(incoming(cfg, outs2, c), incoming(cfg, outs, c), g);
        if c != b {
            assert(ins[c] == ins2[c]);
            assert(defined_in(cfg, outs, c).subset_of(ins[c]));
        }
    }
    lemma_mass_update(u, ins, n, b, new_in);
    lemma_mass_update(u, outs, n, b, new_out);
    lemma_count_grows(u, new_in, ins[b]);
    lemma_count_grows(u, new_out, outs[b]);
    if new_in != ins[b] {
        let x = choose|x: Seq<char>| ins[b].contains(x) && !new_in.contains(x);
        assert(ins[b].contains(x) && !new_in.contains(x)) by {
            if forall|x: Seq<char>| ins[b].contains(x) ==> new_in.contains(x) {
                assert(new_in =~= ins[b]);
            }
        }
        assert(u.contains(x));
    }
    if new_out != outs[b] {
        let x = choose|x: Seq<char>| outs[b].contains(x) && !new_out.contains(x);
        assert(outs[b].contains(x) && !new_out.contains(x)) by {
            if forall|x: Seq<char>| outs[b].contains(x) ==> new_out.contains(x) {
                assert(new_out =~= outs[b]);
            }
        }
        assert(u.contains(x));
    }
}

/// One block update of the defined-variable iteration stays above every
/// solution over the variables of the graph.
proof fn lemma_defined_step_greatest(
    cfg: &ControlFlowGraph,
    ins: Seq<Set<Seq<char>>>,
    outs: Seq<Set<Seq<char>>>,
    b: int,
    new_in: Set<Seq<char>>,
    new_out: Set<Seq<char>>,
)
    requires
        cfg.wf(),
        0 <= b < ins.len(),
        ins.len() == cfg.spec_blocks().len(),
        outs.len() == ins.len(),
        above_defined_solutions(cfg, ins, outs),
        new_in == defined_in(cfg, outs, b),
        new_out == defined_out(cfg.spec_blocks()[b].statement, new_in),
    ensures
        above_defined_solutions(cfg, ins.update(b, new_in), outs.update(b, new_out)),
{
    let g = graph_vars(cfg);
    assert forall|i2: Seq<Set<Seq<char>>>, o2: Seq<Set<Seq<char>>>|
        #[trigger] is_defined_solution(cfg, i2, o2) && sets_within(i2, g) && sets_within(o2, g)
        implies pointwise_subset(i2, ins.update(b, new_in)) && pointwise_subset(
        o2,
        outs.update(b, new_out),
    ) by {
        reveal(defined_in);
        assert(defined_block_ok(cfg, i2, o2, b));
        assert forall|k: int| 0 <= k < ins.len() implies o2[k].subset_of(outs[k]) by {}
        lemma_incoming(cfg, o2, outs, b);
        lemma_meet_grows(incoming(cfg, o2, b), incoming(cfg, outs, b), g);
        assert(i2[b].subset_of(new_in));
        assert(o2[b].subset_of(new_out));
        assert forall|k: int| 0 <= k < ins.len() implies i2[k].subset_of(
            #[trigger] ins.update(b, new_in)[k],
        ) by {}
        assert forall|k: int| 0 <= k < ins.len() implies o2[k].subset_of(
            #[trigger] outs.update(b, new_out)[k],
        ) by {}
    }
}

/// The intersection of the sets of a non-empty list, `default` for the
/// empty list.
fn intersection_all(sets: &Vec<VariableSet>, default: &VariableSet) -> (r: VariableSet)
    ensures
        r@ == meet(views(sets@), default@),
{
    if sets.len() == 0 {
        return default.copy();
    }
    let mut current = sets[0].copy();
    let mut i: usize = 1;
    while i < sets.len()
        invariant
            1 <= i <= sets.len(),
            current@ == meet(views(sets@).subrange(0, i as int), default@),
        decreases sets.len() - i,
    {
        current = current.intersection(&sets[i]);
        i = i + 1;
        assert(views(sets@).subrange(0, i as int).drop_last() =~= views(sets@).subrange(
            0,
            i - 1,
        ));
    }
    assert(views(sets@).subrange(0, sets.len() as int) =~= views(sets@));
    current
}

/// The sets that reach block `b`, as a list of copies.
fn incoming_sets(cfg: &ControlFlowGraph, outs: &Vec<VariableSet>, b: BlockId, boundary: &VariableSet) -> (r: Vec<VariableSet>)
    requires
        cfg.wf(),
        outs.len() == cfg.spec_blocks().len(),
        b < outs.len(),
        boundary@ == set![cfg.input@],
    ensures
        views(r@) == incoming(cfg, views(outs@), b as int),
{
    let bs = cfg.blocks();
    let predecessors = cfg.predecessors(b);
    proof {
        lemma_pred_list_ids(cfg.spec_blocks(), b, bs@.len() as int, bs@.len() as int);
    }
    let mut r: Vec<VariableSet> = Vec::new();
    let mut j: usize = 0;
    while j < predecessors.len()
        invariant
            j <= predecessors.len(),
            predecessors@ == pred_list(cfg.spec_blocks(), b, cfg.spec_blocks().len() as int),
            forall|k: int| 0 <= k < predecessors@.len() ==> predecessors@[k] < outs.len(),
            r.len() == j,
            forall|k: int| 0 <= k < j ==> (#[trigger] r@[k])@ == outs@[predecessors@[k] as int]@,
        decreases predecessors.len() - j,
    {
        r.push(outs[predecessors[j]].copy());
        j = j + 1;
    }
    let ghost before = views(r@);
    if b == cfg.entry {
        r.push(boundary.copy());
    }
    assert(views(r@) =~= incoming(cfg, views(outs@), b as int));
    r
}

/// Defined-variable analysis: for every block, the variables that surely
/// have a value on entry and on exit, whatever path led there. Starts from
/// all the variables of the graph and shrinks the sets until none changes.
pub fn defined_variables_analysis(cfg: &ControlFlowGraph) -> (r: AnnotatedControlFlowGraph<
    DataflowAnnotation<VariableSet>,
>)
    requires
        cfg.wf(),
    ensures
        same_graph(cfg, &r),
        is_greatest_defined_solution(cfg, annotation_ins(&r), annotation_outs(&r)),
        defined_sets(cfg) == (annotation_ins(&r), annotation_outs(&r)),
{
    let universe = all_variables(cfg);
    let universe_names = universe.to_vec();
    let ghost u = universe_names@.map_values(|s: String| s@);
    proof {
        assert forall|x: Seq<char>| graph_vars(cfg).contains(x) implies u.contains(x) by {
            let k = choose|k: int| 0 <= k < universe_names@.len() && #[trigger] universe_names@[k]@ == x;
            assert(u[k] == x);
        }
    }
    let block_count = cfg.blocks().len();
    let mut in_sets = copies(&universe, block_count);
    let mut out_sets = copies(&universe, block_count);
    let entry_boundary = VariableSet::singleton(cfg.input.clone());
    proof {
        reveal(defined_above);
        reveal(defined_in);
        let g = graph_vars(cfg);
        assert forall|b: int| #![trigger views(in_sets@)[b]] 0 <= b < block_count implies {
            &&& views(in_sets@)[b].subset_of(g)
            &&& views(out_sets@)[b].subset_of(g)
            &&& defined_in(cfg, views(out_sets@), b).subset_of(views(in_sets@)[b])
            &&& defined_out(cfg.spec_blocks()[b].statement, views(in_sets@)[b]).subset_of(
                views(out_sets@)[b],
            )
        } by {
            assert(views(in_sets@)[b] == in_sets@[b]@);
            assert(views(out_sets@)[b] == out_sets@[b]@);
            assert forall|j: int| 0 <= j < block_count implies views(out_sets@)[j].subset_of(g) by {
                assert(views(out_sets@)[j] == out_sets@[j]@);
            }
            lemma_incoming_within(cfg, views(out_sets@), b, g);
            lemma_meet_within(incoming(cfg, views(out_sets@), b), g, g);
            lemma_blocks_vars(cfg.spec_blocks(), block_count as int, b);
        }
        assert forall|i2: Seq<Set<Seq<char>>>, o2: Seq<Set<Seq<char>>>|
            #[trigger] is_defined_solution(cfg, i2, o2) && sets_within(i2, g) && sets_within(o2, g)
            implies pointwise_subset(i2, views(in_sets@)) && pointwise_subset(o2, views(out_sets@)) by {
            assert forall|k: int| 0 <= k < block_count implies i2[k].subset_of(
                #[trigger] views(in_sets@)[k],
            ) by {
                assert(views(in_sets@)[k] == in_sets@[k]@);
            }
            assert forall|k: int| 0 <= k < block_count implies o2[k].subset_of(
                #[trigger] views(out_sets@)[k],
            ) by {
                assert(views(out_sets@)[k] == out_sets@[k]@);
            }
        }
    }
    loop
        invariant
            cfg.wf(),
            block_count == cfg.spec_blocks().len(),
            in_sets.len() == block_count,
            out_sets.len() == block_count,
            entry_boundary@ == set![cfg.input@],
            universe@ == graph_vars(cfg),
            forall|x: Seq<char>| graph_vars(cfg).contains(x) ==> u.contains(x),
            defined_above(cfg, views(in_sets@), views(out_sets@), graph_vars(cfg)),
            above_defined_solutions(cfg, views(in_sets@), views(out_sets@)),
        ensures
            in_sets.len() == block_count,
            out_sets.len() == block_count,
            is_defined_solution(cfg, views(in_sets@), views(out_sets@)),
            defined_above(cfg, views(in_sets@), views(out_sets@), graph_vars(cfg)),
            above_defined_solutions(cfg, views(in_sets@), views(out_sets@)),
        decreases mass(u, views(in_sets@), block_count as int) + mass(
            u,
            views(out_sets@),
            block_count as int,
        ),
    {
        let mut changed = false;
        let ghost ins0 = views(in_sets@);
        let ghost outs0 = views(out_sets@);
        let ghost m0 = mass(u, ins0, block_count as int) + mass(u, outs0, block_count as int);
        let mut b: usize = 0;
        while b < block_count
            invariant
                cfg.wf(),
                block_count == cfg.spec_blocks().len(),
                in_sets.len() == block_count,
                out_sets.len() == block_count,
                b <= block_count,
                entry_boundary@ == set![cfg.input@],
                universe@ == graph_vars(cfg),
                forall|x: Seq<char>| graph_vars(cfg).contains(x) ==> u.contains(x),
                defined_above(cfg, views(in_sets@), views(out_sets@), graph_vars(cfg)),
                above_defined_solutions(cfg, views(in_sets@), views(out_sets@)),
                mass(u, views(in_sets@), block_count as int) + mass(
                    u,
                    views(out_sets@),
                    block_count as int,
                ) <= m0,
                changed ==> mass(u, views(in_sets@), block_count as int) + mass(
                    u,
                    views(out_sets@),
                    block_count as int,
                ) < m0,
                !changed ==> views(in_sets@) == ins0 && views(out_sets@) == outs0,
                !changed ==> forall|c: int|
                    0 <= c < b ==> #[trigger] defined_block_ok(
                        cfg,
                        views(in_sets@),
                        views(out_sets@),
                        c,
                    ),
            decreases block_count - b,
        {
            let statement = &cfg.blocks()[b].statement;
            let incoming_list = incoming_sets(cfg, &out_sets, b, &entry_boundary);
            let new_in = intersection_all(&incoming_list, &universe);
            let new_out = new_in.union(&defined_variables(statement));
            let ghost ins = views(in_sets@);
            let ghost outs = views(out_sets@);
            proof {
                assert(new_in@ == defined_in(cfg, outs, b as int)) by {
                    reveal(defined_in);
                }
                lemma_defined_step(cfg, ins, outs, b as int, new_in@, new_out@, u);
                lemma_defined_step_greatest(cfg, ins, outs, b as int, new_in@, new_out@);
            }
            if !new_in.same(&in_sets[b]) || !new_out.same(&out_sets[b]) {
                in_sets.set(b, new_in);
                out_sets.set(b, new_out);
                changed = true;
                proof {
                    assert(views(in_sets@) =~= ins.update(b as int, new_in@));
                    assert(views(out_sets@) =~= outs.update(b as int, new_out@));
                }
            } else {
                proof {
                    assert(views(in_sets@)[b as int] == new_in@);
                    assert(views(out_sets@)[b as int] == new_out@);
                    assert(defined_block_ok(cfg, views(in_sets@), views(out_sets@), b as int));
                }
            }
            b = b + 1;
        }
        if !changed {
            break;
        }
        proof {
            lemma_mass_nonneg(u, views(in_sets@), block_count as int);
            lemma_mass_nonneg(u, views(out_sets@), block_count as int);
        }
    }
    let ghost final_ins = views(in_sets@);
    let ghost final_outs = views(out_sets@);
    let annotation_for = (
        |block: &BasicBlock| -> (a: DataflowAnnotation<VariableSet>)
            requires
                block.id < in_sets.len(),
                block.id < out_sets.len(),
            ensures
                a.in_set@ == in_sets@.index(block.id as int)@,
                a.out_set@ == out_sets@.index(block.id as int)@,
            {
                DataflowAnnotation {
                    in_set: in_sets[block.id].copy(),
                    out_set: out_sets[block.id].copy(),
                }
            }
    );
    let r = cfg.annotate_with(annotation_for);
    proof {
        assert(annotation_ins(&r) =~= final_ins);
        assert(annotation_outs(&r) =~= final_outs);
        reveal(defined_above);
        assert(sets_within(final_ins, graph_vars(cfg))) by {
            assert forall|k: int| 0 <= k < final_ins.len() implies #[trigger] final_ins[k].subset_of(
                graph_vars(cfg),
            ) by {
                assert(final_ins[k].subset_of(graph_vars(cfg)));
            }
        }
        assert(sets_within(final_outs, graph_vars(cfg))) by {
            assert forall|k: int| 0 <= k < final_outs.len() implies #[trigger] final_outs[k].subset_of(
                graph_vars(cfg),
            ) by {
                assert(final_ins[k].subset_of(graph_vars(cfg)));
            }
        }
        lemma_greatest_defined_unique(cfg, final_ins, final_outs);
    }
    r
}

/// The definitions made in the first `n` blocks, after the input's.
pub open spec fn definitions_upto(cfg: &ControlFlowGraph, n: int) -> Seq<DefinitionView>
    decreases n,
{
    if n <= 0 {
        seq![DefinitionView::Input(cfg.input@)]
    } else {
        let r = definitions_upto(cfg, n - 1);
        match cfg.spec_blocks()[n - 1].statement {
            SimpleStatement::Assign(x, _) => r.push(DefinitionView::Assignment(x@, (n - 1) as usize)),
            _ => r,
        }
    }
}

proof fn lemma_definitions_upto_grows(cfg: &ControlFlowGraph, n: int, d: DefinitionView)
    requires
        0 < n,
        definitions_upto(cfg, n - 1).contains(d),
    ensures
        definitions_upto(cfg, n).contains(d),
{
    let r = definitions_upto(cfg, n - 1);
    let t = definitions_upto(cfg, n);
    let k = choose|k: int| 0 <= k < r.len() && r[k] == d;
    if let SimpleStatement::Assign(x, _) = cfg.spec_blocks()[n - 1].statement {
        assert(t[k] == r[k]);
    }
}

proof fn lemma_definitions_upto(cfg: &ControlFlowGraph, n: int, j: int)
    requires
        0 <= j < n <= cfg.spec_blocks().len(),
    ensures
        definitions_upto(cfg, n).contains(DefinitionView::Input(cfg.input@)),
        cfg.spec_blocks()[j].statement matches SimpleStatement::Assign(x, _) ==> definitions_upto(
            cfg,
            n,
        ).contains(DefinitionView::Assignment(x@, j as usize)),
    decreases n,
{
    let input = DefinitionView::Input(cfg.input@);
    if n == 1 {
        assert(definitions_upto(cfg, 0)[0] == input);
        lemma_definitions_upto_grows(cfg, 1, input);
    } else {
        lemma_definitions_upto(cfg, n - 1, 0);
        lemma_definitions_upto_grows(cfg, n, input);
    }
    if let SimpleStatement::Assign(x, _) = cfg.spec_blocks()[j].statement {
        let d = DefinitionView::Assignment(x@, j as usize);
        if j < n - 1 {
            lemma_definitions_upto(cfg, n - 1, j);
            lemma_definitions_upto_grows(cfg, n, d);
        } else {
            let r = definitions_upto(cfg, n - 1);
            assert(definitions_upto(cfg, n)[r.len() as int] == d);
        }
    }
}

/// The definitions that reach the entry of block `b`: those leaving a
/// predecessor, and the input's at the entry block.
#[verifier::opaque]
pub open spec fn reaching_in(cfg: &ControlFlowGraph, outs: Seq<Set<DefinitionView>>, b: int) -> Set<
    DefinitionView,
> {
    union_over(outs, pred_list(cfg.spec_blocks(), b as usize, cfg.spec_blocks().len() as int)).union(
        if b == cfg.entry {
            set![DefinitionView::Input(cfg.input@)]
        } else {
            Set::empty()
        },
    )
}

/// The definitions that leave block `b`: an assignment kills every other
/// definition of its variable and adds its own.
pub open spec fn reaching_out(s: SimpleStatement, b: int, in_set: Set<DefinitionView>) -> Set<
    DefinitionView,
> {
    match s {
        SimpleStatement::Assign(x, _) => in_set.filter(|d: DefinitionView| defined_var(d) != x@).insert(
            DefinitionView::Assignment(x@, b as usize),
        ),
        _ => in_set,
    }
}

/// The reaching-definition equations of block `b`.
pub open spec fn reaching_block_ok(
    cfg: &ControlFlowGraph,
    ins: Seq<Set<DefinitionView>>,
    outs: Seq<Set<DefinitionView>>,
    b: int,
) -> bool {
    &&& ins[b] == reaching_in(cfg, outs, b)
    &&& outs[b] == reaching_out(cfg.spec_blocks()[b].statement, b, ins[b])
}

/// The reaching-definition equations hold for every block.
pub open spec fn is_reaching_solution(
    cfg: &ControlFlowGraph,
    ins: Seq<Set<DefinitionView>>,
    outs: Seq<Set<DefinitionView>>,
) -> bool {
    &&& ins.len() == cfg.spec_blocks().len()
    &&& outs.len() == cfg.spec_blocks().len()
    &&& forall|b: int| 0 <= b < ins.len() ==> #[trigger] reaching_block_ok(cfg, ins, outs, b)
}

/// No solution of the reaching-definition equations has a smaller set
/// anywhere.
pub open spec fn below_reaching_solutions(
    cfg: &ControlFlowGraph,
    ins: Seq<Set<DefinitionView>>,
    outs: Seq<Set<DefinitionView>>,
) -> bool {
    forall|i2: Seq<Set<DefinitionView>>, o2: Seq<Set<DefinitionView>>|
        #[trigger] is_reaching_solution(cfg, i2, o2) ==> pointwise_subset(ins, i2) && pointwise_subset(
            outs,
            o2,
        )
}

/// The least solution of the reaching-definition equations.
pub open spec fn is_least_reaching_solution(
    cfg: &ControlFlowGraph,
    ins: Seq<Set<DefinitionView>>,
    outs: Seq<Set<DefinitionView>>,
) -> bool {
    &&& is_reaching_solution(cfg, ins, outs)
    &&& below_reaching_solutions(cfg, ins, outs)
}

/// The reaching definitions of a graph, on entry and on exit of each block:
/// the least solution of the equations.
pub open spec fn reaching_sets(cfg: &ControlFlowGraph) -> (Seq<Set<DefinitionView>>, Seq<Set<DefinitionView>>) {
    choose|p: (Seq<Set<DefinitionView>>, Seq<Set<DefinitionView>>)| is_least_reaching_solution(cfg, p.0, p.1)
}

/// A least solution is the one `reaching_sets` names.
pub proof fn lemma_least_reaching_unique(
    cfg: &ControlFlowGraph,
    ins: Seq<Set<DefinitionView>>,
    outs: Seq<Set<DefinitionView>>,
)
    requires
        is_least_reaching_solution(cfg, ins, outs),
    ensures
        reaching_sets(cfg) == (ins, outs),
{
    assert(is_least_reaching_solution(cfg, (ins, outs).0, (ins, outs).1));
    let p = reaching_sets(cfg);
    assert(is_least_reaching_solution(cfg, p.0, p.1));
    assert(is_reaching_solution(cfg, p.0, p.1));
    assert(is_reaching_solution(cfg, ins, outs));
    lemma_pointwise_antisymmetric(ins, p.0);
    lemma_pointwise_antisymmetric(outs, p.1);
}

/// One block update of the reaching-definition iteration stays below every
/// solution.
proof fn lemma_reaching_step_least(
    cfg: &ControlFlowGraph,
    ins: Seq<Set<DefinitionView>>,
    outs: Seq<Set<DefinitionView>>,
    b: int,
    new_in: Set<DefinitionView>,
    new_out: Set<DefinitionView>,
)
    requires
        cfg.wf(),
        0 <= b < ins.len(),
        ins.len() == cfg.spec_blocks().len(),
        outs.len() == ins.len(),
        below_reaching_solutions(cfg, ins, outs),
        new_in == reaching_in(cfg, outs, b),
        new_out == reaching_out(cfg.spec_blocks()[b].statement, b, new_in),
    ensures
        below_reaching_solutions(cfg, ins.update(b, new_in), outs.update(b, new_out)),
{
    let bs = cfg.spec_blocks();
    lemma_pred_list_ids(bs, b as usize, bs.len() as int, bs.len() as int);
    assert forall|i2: Seq<Set<DefinitionView>>, o2: Seq<Set<DefinitionView>>|
        #[trigger] is_reaching_solution(cfg, i2, o2) implies pointwise_subset(
        ins.update(b, new_in),
        i2,
    ) && pointwise_subset(outs.update(b, new_out), o2) by {
        reveal(reaching_in);
        assert(reaching_block_ok(cfg, i2, o2, b));
        assert forall|k: int| 0 <= k < ins.len() implies outs[k].subset_of(o2[k]) by {}
        lemma_union_over_grows(outs, o2, pred_list(bs, b as usize, bs.len() as int));
        assert(new_in.subset_of(i2[b]));
        assert(new_out.subset_of(o2[b]));
        assert forall|k: int| 0 <= k < ins.len() implies (#[trigger] ins.update(b, new_in)[k]).subset_of(
            i2[k],
        ) by {}
        assert forall|k: int| 0 <= k < ins.len() implies (#[trigger] outs.update(b, new_out)[k]).subset_of(
            o2[k],
        ) by {}
    }
}

#[verifier::opaque]
pub open spec fn reaching_below(
    cfg: &ControlFlowGraph,
    ins: Seq<Set<DefinitionView>>,
    outs: Seq<Set<DefinitionView>>,
    u: Seq<DefinitionView>,
) -> bool {
    &&& ins.len() == cfg.spec_blocks().len()
    &&& outs.len() == cfg.spec_blocks().len()
    &&& forall|b: int|
        #![trigger ins[b]]
        0 <= b < ins.len() ==> {
            &&& forall|d: DefinitionView| ins[b].contains(d) ==> u.contains(d)
            &&& forall|d: DefinitionView| outs[b].contains(d) ==> u.contains(d)
            &&& ins[b].subset_of(reaching_in(cfg, outs, b))
            &&& outs[b].subset_of(reaching_out(cfg.spec_blocks()[b].statement, b, ins[b]))
        }
}

proof fn lemma_reaching_step(
    cfg: &ControlFlowGraph,
    ins: Seq<Set<DefinitionView>>,
    outs: Seq<Set<DefinitionView>>,
    b: int,
    new_in: Set<DefinitionView>,
    new_out: Set<DefinitionView>,
    u: Seq<DefinitionView>,
)
    requires
        cfg.wf(),
        0 <= b < ins.len(),
        u == definitions_upto(cfg, cfg.spec_blocks().len() as int),
        reaching_below(cfg, ins, outs, u),
        new_in == reaching_in(cfg, outs, b),
        new_out == reaching_out(cfg.spec_blocks()[b].statement, b, new_in),
    ensures
        reaching_below(cfg, ins.update(b, new_in), outs.update(b, new_out), u),
        slack(u, ins.update(b, new_in), ins.len() as int) + slack(
            u,
            outs.update(b, new_out),
            ins.len() as int,
        ) <= slack(u, ins, ins.len() as int) + slack(u, outs, ins.len() as int),
        (new_in != ins[b] || new_out != outs[b]) ==> slack(
            u,
            ins.update(b, new_in),
            ins.len() as int,
        ) + slack(u, outs.update(b, new_out), ins.len() as int) < slack(
            u,
            ins,
            ins.len() as int,
        ) + slack(u, outs, ins.len() as int),
{
    reveal(reaching_below);
    reveal(reaching_in);
    let n = ins.len() as int;
    let bs = cfg.spec_blocks();
    let ins2 = ins.update(b, new_in);
    let outs2 = outs.update(b, new_out);
    let g = Set::new(|d: DefinitionView| u.contains(d));
    assert(ins[b].subset_of(new_in));
    assert(outs[b].subset_of(new_out));
    lemma_pred_list_ids(bs, b as usize, bs.len() as int, bs.len() as int);
    assert forall|j: int| 0 <= j < ins.len() implies outs[j].subset_of(g) by {
        assert(ins[j].subset_of(g));
    }
    lemma_union_over_within(outs, pred_list(bs, b as usize, bs.len() as int), g);
    lemma_definitions_upto(cfg, n, b);
    assert forall|d: DefinitionView| new_in.contains(d) implies u.contains(d) by {
        assert(g.contains(d));
    }
    assert forall|d: DefinitionView| new_out.contains(d) implies u.contains(d) by {
        if new_in.contains(d) {
        }
    }
    assert forall|j: int| 0 <= j < ins.len() implies outs[j].subset_of(#[trigger] outs2[j]) by {}
    assert forall|c: int| #![trigger ins2[c]] 0 <= c < ins2.len() implies {
        &&& forall|d: DefinitionView| ins2[c].contains(d) ==> u.contains(d)
        &&& forall|d: DefinitionView| outs2[c].contains(d) ==> u.contains(d)
        &&& ins2[c].subset_of(reaching_in(cfg, outs2, c))
        &&& outs2[c].subset_of(reaching_out(bs[c].statement, c, ins2[c]))
    } by {
        lemma_pred_list_ids(bs, c as usize, bs.len() as int, bs.len() as int);
        lemma_union_over_grows(outs, outs2, pred_list(bs, c as usize, bs.len() as int));
        if c != b {
            assert(ins[c] == ins2[c]);
            assert(ins[c].subset_of(reaching_in(cfg, outs, c)));
        }
    }
    lemma_slack_update(u, ins, n, b, new_in);
    lemma_slack_update(u, outs, n, b, new_out);
    lemma_count_grows(u, ins[b], new_in);
    lemma_count_grows(u, outs[b], new_out);
    if new_in != ins[b] {
        let x = choose|x: DefinitionView| new_in.contains(x) && !ins[b].contains(x);
        assert(new_in.contains(x) && !ins[b].contains(x)) by {
            if forall|x: DefinitionView| new_in.contains(x) ==> ins[b].contains(x) {
                assert(new_in =~= ins[b]);
            }
        }
    }
    if new_out != outs[b] {
        let x = choose|x: DefinitionView| new_out.contains(x) && !outs[b].contains(x);
        assert(new_out.contains(x) && !outs[b].contains(x)) by {
            if forall|x: DefinitionView| new_out.contains(x) ==> outs[b].contains(x) {
                assert(new_out =~= outs[b]);
            }
        }
    }
}

/// The definitions of `set` whose variable is not `variable`.
fn kill(set: &DefinitionSet, variable: &String) -> (r: DefinitionSet)
    ensures
        r@ == set@.filter(|d: DefinitionView| defined_var(d) != variable@),
{
    let items = set.to_vec();
    let mut r = DefinitionSet::new();
    let mut i: usize = 0;
    while i < items.len()
        invariant
            i <= items.len(),
            names_of(items@) == set@,
            r@ == names_of(items@.subrange(0, i as int)).filter(
                |d: DefinitionView| defined_var(d) != variable@,
            ),
        decreases items.len() - i,
    {
        if !crate::text::str_eq(items[i].variable(), variable.as_str()) {
            r.insert(items[i].duplicate());
        }
        i = i + 1;
        assert(r@ =~= names_of(items@.subrange(0, i as int)).filter(
            |d: DefinitionView| defined_var(d) != variable@,
        )) by {
            let s = items@.subrange(0, i as int);
            let s0 = items@.subrange(0, i - 1);
            assert forall|x: DefinitionView| names_of(s).contains(x) implies (names_of(s0).contains(x)
                || x == items@[i - 1]@) by {
                let k = choose|k: int| 0 <= k < s.len() && #[trigger] s[k]@ == x;
                if k < i - 1 {
                    assert(s0[k]@ == x);
                }
            }
            assert forall|x: DefinitionView| names_of(s0).contains(x) implies names_of(s).contains(x) by {
                let k = choose|k: int| 0 <= k < s0.len() && #[trigger] s0[k]@ == x;
                assert(s[k]@ == x);
            }
            assert(s[i - 1]@ == items@[i - 1]@);
        }
    }
    assert(items@.subrange(0, items.len() as int) =~= items@);
    r
}

/// The union of the sets of the predecessors of block `b`.
fn union_of_predecessors(cfg: &ControlFlowGraph, sets: &Vec<DefinitionSet>, b: BlockId) -> (r: DefinitionSet)
    requires
        cfg.wf(),
        sets.len() == cfg.spec_blocks().len(),
        b < cfg.spec_blocks().len(),
    ensures
        r@ == union_over(views(sets@), pred_list(cfg.spec_blocks(), b, cfg.spec_blocks().len() as int)),
{
    let predecessors = cfg.predecessors(b);
    let ghost t = pred_list(cfg.spec_blocks(), b, cfg.spec_blocks().len() as int);
    proof {
        lemma_pred_list_ids(cfg.spec_blocks(), b, cfg.spec_blocks().len() as int, cfg.spec_blocks().len() as int);
    }
    let mut r = DefinitionSet::new();
    let mut j: usize = 0;
    while j < predecessors.len()
        invariant
            sets.len() == cfg.spec_blocks().len(),
            predecessors@ == t,
            forall|k: int| 0 <= k < t.len() ==> t[k] < sets.len(),
            j <= predecessors.len(),
            r@ == union_over(views(sets@), t.subrange(0, j as int)),
        decreases predecessors.len() - j,
    {
        r.extend(&sets[predecessors[j]]);
        j = j + 1;
        assert(t.subrange(0, j as int).drop_last() =~= t.subrange(0, j - 1));
    }
    assert(t.subrange(0, predecessors.len() as int) =~= t);
    r
}

/// Reaching-definitions analysis: for every block, the definitions (the
/// input, or an assignment block) whose value may still be the current one
/// on entry and on exit. Iterates the equations, from empty sets, until none
/// changes.
pub fn reaching_definitions_analysis(cfg: &ControlFlowGraph) -> (r: AnnotatedControlFlowGraph<
    DataflowAnnotation<DefinitionSet>,
>)
    requires
        cfg.wf(),
    ensures
        same_graph(cfg, &r),
        is_least_reaching_solution(cfg, definition_ins(&r), definition_outs(&r)),
        reaching_sets(cfg) == (definition_ins(&r), definition_outs(&r)),
{
    let block_count = cfg.blocks().len();
    let ghost u = definitions_upto(cfg, block_count as int);
    let mut in_sets: Vec<DefinitionSet> = empty_sets(block_count);
    let mut out_sets: Vec<DefinitionSet> = empty_sets(block_count);
    let input_definition = Definition::Input(cfg.input.clone());
    proof {
        reveal(reaching_below);
        assert forall|b: int| #![trigger views(in_sets@)[b]] 0 <= b < block_count implies {
            &&& forall|d: DefinitionView| views(in_sets@)[b].contains(d) ==> u.contains(d)
            &&& forall|d: DefinitionView| views(out_sets@)[b].contains(d) ==> u.contains(d)
            &&& views(in_sets@)[b].subset_of(reaching_in(cfg, views(out_sets@), b))
            &&& views(out_sets@)[b].subset_of(
                reaching_out(cfg.spec_blocks()[b].statement, b, views(in_sets@)[b]),
            )
        } by {
            assert(views(in_sets@)[b] == in_sets@[b]@);
            assert(views(out_sets@)[b] == out_sets@[b]@);
        }
        assert forall|i2: Seq<Set<DefinitionView>>, o2: Seq<Set<DefinitionView>>|
            #[trigger] is_reaching_solution(cfg, i2, o2) implies pointwise_subset(views(in_sets@), i2)
            && pointwise_subset(views(out_sets@), o2) by {
            assert forall|k: int| 0 <= k < block_count implies (#[trigger] views(in_sets@)[k]).subset_of(
                i2[k],
            ) by {
                assert(views(in_sets@)[k] == in_sets@[k]@);
            }
            assert forall|k: int| 0 <= k < block_count implies (#[trigger] views(out_sets@)[k]).subset_of(
                o2[k],
            ) by {
                assert(views(out_sets@)[k] == out_sets@[k]@);
            }
        }
    }
    loop
        invariant
            cfg.wf(),
            block_count == cfg.spec_blocks().len(),
            in_sets.len() == block_count,
            out_sets.len() == block_count,
            input_definition@ == DefinitionView::Input(cfg.input@),
            u == definitions_upto(cfg, block_count as int),
            reaching_below(cfg, views(in_sets@), views(out_sets@), u),
            below_reaching_solutions(cfg, views(in_sets@), views(out_sets@)),
        ensures
            in_sets.len() == block_count,
            out_sets.len() == block_count,
            is_least_reaching_solution(cfg, views(in_sets@), views(out_sets@)),
        decreases slack(u, views(in_sets@), block_count as int) + slack(
            u,
            views(out_sets@),
            block_count as int,
        ),
    {
        let mut changed = false;
        let ghost ins0 = views(in_sets@);
        let ghost outs0 = views(out_sets@);
        let ghost m0 = slack(u, ins0, block_count as int) + slack(u, outs0, block_count as int);
        let mut b: usize = 0;
        while b < block_count
            invariant
                cfg.wf(),
                block_count == cfg.spec_blocks().len(),
                in_sets.len() == block_count,
                out_sets.len() == block_count,
                b <= block_count,
                input_definition@ == DefinitionView::Input(cfg.input@),
                u == definitions_upto(cfg, block_count as int),
                reaching_below(cfg, views(in_sets@), views(out_sets@), u),
                below_reaching_solutions(cfg, views(in_sets@), views(out_sets@)),
                slack(u, views(in_sets@), block_count as int) + slack(
                    u,
                    views(out_sets@),
                    block_count as int,
                ) <= m0,
                changed ==> slack(u, views(in_sets@), block_count as int) + slack(
                    u,
                    views(out_sets@),
                    block_count as int,
                ) < m0,
                !changed ==> views(in_sets@) == ins0 && views(out_sets@) == outs0,
                !changed ==> forall|c: int|
                    0 <= c < b ==> #[trigger] reaching_block_ok(
                        cfg,
                        views(in_sets@),
                        views(out_sets@),
                        c,
                    ),
            decreases block_count - b,
        {
            let statement = &cfg.blocks()[b].statement;
            let mut new_in = union_of_predecessors(cfg, &out_sets, b);
            if b == cfg.entry {
                new_in.insert(input_definition.duplicate());
            }
            let mut new_out = new_in.copy();
            if let SimpleStatement::Assign(variable, _) = statement {
                new_out = kill(&new_out, variable);
                new_out.insert(Definition::Assignment { variable: variable.clone(), block: cfg.blocks()[b].id });
            }
            let ghost ins = views(in_sets@);
            let ghost outs = views(out_sets@);
            proof {
                assert(cfg.spec_blocks()[b as int].id == b);
                assert(new_in@ =~= reaching_in(cfg, outs, b as int)) by {
                    reveal(reaching_in);
                }
                assert(new_out@ =~= reaching_out(cfg.spec_blocks()[b as int].statement, b as int, new_in@));
                lemma_reaching_step(cfg, ins, outs, b as int, new_in@, new_out@, u);
                lemma_reaching_step_least(cfg, ins, outs, b as int, new_in@, new_out@);
            }
            if !new_in.same(&in_sets[b]) || !new_out.same(&out_sets[b]) {
                in_sets.set(b, new_in);
                out_sets.set(b, new_out);
                changed = true;
                proof {
                    assert(views(in_sets@) =~= ins.update(b as int, new_in@));
                    assert(views(out_sets@) =~= outs.update(b as int, new_out@));
                }
            } else {
                proof {
                    assert(views(in_sets@)[b as int] == new_in@);
                    assert(views(out_sets@)[b as int] == new_out@);
                    assert(reaching_block_ok(cfg, views(in_sets@), views(out_sets@), b as int));
                }
            }
            b = b + 1;
        }
        if !changed {
            break;
        }
        proof {
            lemma_slack_nonneg(u, views(in_sets@), block_count as int);
            lemma_slack_nonneg(u, views(out_sets@), block_count as int);
        }
    }
    let ghost final_ins = views(in_sets@);
    let ghost final_outs = views(out_sets@);
    let annotation_for = (
        |block: &BasicBlock| -> (a: DataflowAnnotation<DefinitionSet>)
            requires
                block.id < in_sets.len(),
                block.id < out_sets.len(),
            ensures
                a.in_set@ == in_sets@.index(block.id as int)@,
                a.out_set@ == out_sets@.index(block.id as int)@,
            {
                DataflowAnnotation {
                    in_set: in_sets[block.id].copy(),
                    out_set: out_sets[block.id].copy(),
                }
            }
    );
    let r = cfg.annotate_with(annotation_for);
    proof {
        assert(definition_ins(&r) =~= final_ins);
        assert(definition_outs(&r) =~= final_outs);
        lemma_least_reaching_unique(cfg, final_ins, final_outs);
    }
    r
}


/// The order of definitions that their derived comparison gives: input
/// definitions first, by variable; then assignments, by variable and then
/// by block.
pub open spec fn definition_before(a: DefinitionView, b: DefinitionView) -> bool {
    match (a, b) {
        (DefinitionView::Input(x), DefinitionView::Input(y)) => chars_before(x, y),
        (DefinitionView::Input(_), DefinitionView::Assignment(_, _)) => true,
        (DefinitionView::Assignment(_, _), DefinitionView::Input(_)) => false,
        (DefinitionView::Assignment(x, i), DefinitionView::Assignment(y, j)) => chars_before(x, y) || (x == y && i
            < j),
    }
}

proof fn lemma_definition_before_order(a: DefinitionView, b: DefinitionView, c: DefinitionView)
    ensures
        definition_before(a, b) && definition_before(b, c) ==> definition_before(a, c),
        a != b ==> definition_before(a, b) || definition_before(b, a),
        !(definition_before(a, b) && definition_before(b, a)),
{
    match (a, b) {
        (DefinitionView::Input(x), DefinitionView::Input(y)) => {
            lemma_chars_before_total(x, y);
        },
        (DefinitionView::Assignment(x, _), DefinitionView::Assignment(y, _)) => {
            lemma_chars_before_total(x, y);
            lemma_chars_before_irreflexive(x);
        },
        _ => {},
    }
    match (a, b, c) {
        (DefinitionView::Input(x), DefinitionView::Input(y), DefinitionView::Input(z)) => {
            if chars_before(x, y) && chars_before(y, z) {
                lemma_chars_before_transitive(x, y, z);
            }
        },
        (DefinitionView::Assignment(x, _), DefinitionView::Assignment(y, _), DefinitionView::Assignment(z, _)) => {
            if chars_before(x, y) && chars_before(y, z) {
                lemma_chars_before_transitive(x, y, z);
            }
        },
        _ => {},
    }
}

fn definition_before_exec(a: &Definition, b: &Definition) -> (r: bool)
    ensures
        r == definition_before(a@, b@),
{
    match (a, b) {
        (Definition::Input(x), Definition::Input(y)) => str_before(x.as_str(), y.as_str()),
        (Definition::Input(_), Definition::Assignment { .. }) => true,
        (Definition::Assignment { .. }, Definition::Input(_)) => false,
        (Definition::Assignment { variable: x, block: i }, Definition::Assignment { variable: y, block: j }) => {
            str_before(x.as_str(), y.as_str()) || (str_eq(x.as_str(), y.as_str()) && *i < *j)
        },
    }
}

/// The definitions of a set, each once, in the order of `definition_before`.
pub fn sorted_definitions(set: &DefinitionSet) -> (r: Vec<Definition>)
    ensures
        names_of(r@) == set@,
        forall|i: int, j: int|
            0 <= i < j < r@.len() ==> definition_before((#[trigger] r@[i])@, (#[trigger] r@[j])@),
{
    let items = set.to_vec();
    let mut r: Vec<Definition> = Vec::new();
    let mut i: usize = 0;
    proof {
        assert(names_of(r@) =~= names_of(items@.subrange(0, 0)));
    }
    while i < items.len()
        invariant
            i <= items.len(),
            names_of(r@) == names_of(items@.subrange(0, i as int)),
            forall|a: int, b: int|
                0 <= a < b < r@.len() ==> definition_before((#[trigger] r@[a])@, (#[trigger] r@[b])@),
        decreases items.len() - i,
    {
        let x = &items[i];
        let mut p: usize = 0;
        loop
            invariant
                p <= r.len(),
                forall|k: int| 0 <= k < p ==> definition_before((#[trigger] r@[k])@, x@),
            ensures
                p <= r.len(),
                forall|k: int| 0 <= k < p ==> definition_before((#[trigger] r@[k])@, x@),
                p < r.len() ==> !definition_before(r@[p as int]@, x@),
            decreases r.len() - p,
        {
            if p >= r.len() {
                break;
            }
            if !definition_before_exec(&r[p], x) {
                break;
            }
            p = p + 1;
        }
        let ghost before = r@;
        proof {
            assert(items@.subrange(0, i + 1) =~= items@.subrange(0, i as int).insert(i as int, items@[i as int]));
            lemma_names_insert(items@.subrange(0, i as int), i as int, items@[i as int]);
        }
        if p < r.len() && r[p].same_as(x) {
            proof {
                assert(names_of(before).contains(x@));
                assert(names_of(before).insert(x@) =~= names_of(before));
            }
        } else {
            r.insert(p, x.duplicate());
            proof {
                lemma_names_insert(before, p as int, r@[p as int]);
                assert forall|a: int, b: int| 0 <= a < b < r@.len() implies definition_before(
                    (#[trigger] r@[a])@,
                    (#[trigger] r@[b])@,
                ) by {
                    if b < p {
                        assert(r@[a] == before[a] && r@[b] == before[b]);
                    } else if b == p {
                        assert(r@[a] == before[a]);
                    } else {
                        assert(r@[b] == before[b - 1]);
                        lemma_definition_before_order(before[p as int]@, x@, x@);
                        lemma_definition_before_order(x@, before[p as int]@, before[b - 1]@);
                        if b - 1 > p {
                            assert(definition_before(before[p as int]@, before[b - 1]@));
                        }
                        if a < p {
                            assert(r@[a] == before[a]);
                            lemma_definition_before_order(before[a]@, x@, before[b - 1]@);
                        } else if a > p {
                            assert(r@[a] == before[a - 1]);
                        }
                    }
                }
            }
        }
        i = i + 1;
    }
    proof {
        assert(items@.subrange(0, items@.len() as int) =~= items@);
    }
    r
}

} // verus!
