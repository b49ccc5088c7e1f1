use vstd::prelude::*;
use crate::miniimp::ast::{AExpr, BExpr};
use crate::miniimp::cfg::{
    AnnotatedBasicBlock, AnnotatedControlFlowGraph, BasicBlock, BlockId, ControlFlowGraph,
    OutgoingEdges, SimpleStatement,
};
use crate::miniimp::dataflow::{
    definition_before, sorted_definitions, DataflowAnnotation, Definition, DefinitionSet, DefinitionView,
};
use crate::miniimp::sets::{names_of, sorted_names, VariableSet};
use crate::messages::{debug_string, push_debug_string};
use crate::miniimp::optimizations::UndefinedVariable;
use crate::text::{chars_before, chars_of, collect_string, decimal_digits, push_decimal};

verus! {

/// An integer in decimal, with a minus sign when negative.
pub open spec fn int_text(n: int) -> Seq<char> {
    if n < 0 {
        "-"@ + decimal_digits((-n) as nat)
    } else {
        decimal_digits(n as nat)
    }
}

/// An arithmetic expression, fully parenthesized.
pub open spec fn aexpr_text(e: AExpr) -> Seq<char>
    decreases e,
{
    match e {
        AExpr::Var(x) => x@,
        AExpr::Int(n) => int_text(n as int),
        AExpr::Add(a, b) => "("@ + aexpr_text(*a) + " + "@ + aexpr_text(*b) + ")"@,
        AExpr::Sub(a, b) => "("@ + aexpr_text(*a) + " - "@ + aexpr_text(*b) + ")"@,
        AExpr::Mul(a, b) => "("@ + aexpr_text(*a) + " * "@ + aexpr_text(*b) + ")"@,
    }
}

/// A Boolean expression, fully parenthesized.
pub open spec fn bexpr_text(e: BExpr) -> Seq<char>
    decreases e,
{
    match e {
        BExpr::True => "true"@,
        BExpr::False => "false"@,
        BExpr::And(a, b) => "("@ + bexpr_text(*a) + " && "@ + bexpr_text(*b) + ")"@,
        BExpr::Not(a) => "!("@ + bexpr_text(*a) + ")"@,
        BExpr::Less(a, b) => "("@ + aexpr_text(*a) + " < "@ + aexpr_text(*b) + ")"@,
    }
}

/// A simple statement as text.
pub open spec fn statement_text(s: SimpleStatement) -> Seq<char> {
    match s {
        SimpleStatement::Skip => "skip"@,
        SimpleStatement::Assign(x, e) => x@ + " := "@ + aexpr_text(e),
        SimpleStatement::Guard(g) => "guard "@ + bexpr_text(g),
    }
}

/// A character as it stands inside a quoted DOT label.
pub open spec fn escape_char(c: char) -> Seq<char> {
    if c == '\\' {
        "\\\\"@
    } else if c == '"' {
        "\\\""@
    } else if c == '\n' {
        "\\n"@
    } else {
        seq![c]
    }
}

/// A text as it stands inside a quoted DOT label.
pub open spec fn escape_text(s: Seq<char>) -> Seq<char>
    decreases s.len(),
{
    if s.len() == 0 {
        Seq::empty()
    } else {
        escape_text(s.drop_last()) + escape_char(s.last())
    }
}

/// The label of a block: its id, its statement, any extra lines, and whether
/// it is the entry or the exit.
pub open spec fn block_label(id: BlockId, s: SimpleStatement, extra: Seq<char>, entry: BlockId, exit: BlockId) -> Seq<char> {
    "B"@ + decimal_digits(id as nat) + ": "@ + statement_text(s) + extra + (if id == entry {
        "\n(entry)"@
    } else {
        Seq::empty()
    }) + (if id == exit {
        "\n(exit)"@
    } else {
        Seq::empty()
    })
}

/// The DOT line of a node.
pub open spec fn node_line(id: BlockId, label: Seq<char>) -> Seq<char> {
    "  B"@ + decimal_digits(id as nat) + " [label=\""@ + escape_text(label) + "\"];\n"@
}

/// The DOT lines of the edges that leave a block.
pub open spec fn edge_lines(id: BlockId, e: OutgoingEdges) -> Seq<char> {
    match e {
        OutgoingEdges::End => Seq::empty(),
        OutgoingEdges::Goto(next) => "  B"@ + decimal_digits(id as nat) + " -> B"@ + decimal_digits(
            next as nat,
        ) + ";\n"@,
        OutgoingEdges::Branch { on_true, on_false } => "  B"@ + decimal_digits(id as nat) + " -> B"@
            + decimal_digits(on_true as nat) + " [label=\"true\"];\n"@ + "  B"@ + decimal_digits(
            id as nat,
        ) + " -> B"@ + decimal_digits(on_false as nat) + " [label=\"false\"];\n"@,
    }
}

/// The node lines of the first `n` blocks.
pub open spec fn node_lines(bs: Seq<BasicBlock>, entry: BlockId, exit: BlockId, n: int) -> Seq<char>
    decreases n,
{
    if n <= 0 {
        Seq::empty()
    } else {
        node_lines(bs, entry, exit, n - 1) + node_line(
            bs[n - 1].id,
            block_label(bs[n - 1].id, bs[n - 1].statement, Seq::empty(), entry, exit),
        )
    }
}

/// The edge lines of the first `n` blocks.
pub open spec fn all_edge_lines(bs: Seq<BasicBlock>, n: int) -> Seq<char>
    decreases n,
{
    if n <= 0 {
        Seq::empty()
    } else {
        all_edge_lines(bs, n - 1) + edge_lines(bs[n - 1].id, bs[n - 1].outgoing)
    }
}

/// The Graphviz DOT text of a graph.
pub open spec fn dot_text(cfg: ControlFlowGraph) -> Seq<char> {
    let bs = cfg.spec_blocks();
    "digraph CFG {\n"@ + "  node [shape=box];\n"@ + node_lines(bs, cfg.entry, cfg.exit, bs.len() as int)
        + all_edge_lines(bs, bs.len() as int) + "}\n"@
}

/// The node lines of the first `n` annotated blocks, each annotation given
/// by its text.
pub open spec fn annotated_node_lines<A>(
    bs: Seq<AnnotatedBasicBlock<A>>,
    texts: Seq<Seq<char>>,
    entry: BlockId,
    exit: BlockId,
    n: int,
) -> Seq<char>
    decreases n,
{
    if n <= 0 {
        Seq::empty()
    } else {
        annotated_node_lines(bs, texts, entry, exit, n - 1) + node_line(
            bs[n - 1].id,
            block_label(bs[n - 1].id, bs[n - 1].statement, "\n"@ + texts[n - 1], entry, exit),
        )
    }
}

/// The edge lines of the first `n` annotated blocks.
pub open spec fn annotated_edge_lines<A>(bs: Seq<AnnotatedBasicBlock<A>>, n: int) -> Seq<char>
    decreases n,
{
    if n <= 0 {
        Seq::empty()
    } else {
        annotated_edge_lines(bs, n - 1) + edge_lines(bs[n - 1].id, bs[n - 1].outgoing)
    }
}

/// The Graphviz DOT text of an annotated graph.
pub open spec fn annotated_dot_text<A>(g: AnnotatedControlFlowGraph<A>, texts: Seq<Seq<char>>) -> Seq<char> {
    let bs = g.spec_blocks();
    "digraph CFG {\n"@ + "  node [shape=box];\n"@ + annotated_node_lines(
        bs,
        texts,
        g.entry,
        g.exit,
        bs.len() as int,
    ) + annotated_edge_lines(bs, bs.len() as int) + "}\n"@
}

pub(crate) fn push_str(out: &mut Vec<char>, s: &str)
    ensures
        final(out)@ == old(out)@ + s@,
{
    let n = s.unicode_len();
    let mut i: usize = 0;
    while i < n
        invariant
            n == s@.len(),
            i <= n,
            out@ == old(out)@ + s@.subrange(0, i as int),
        decreases n - i,
    {
        out.push(s.get_char(i));
        i = i + 1;
        assert(out@ =~= old(out)@ + s@.subrange(0, i as int));
    }
    assert(s@.subrange(0, n as int) =~= s@);
}

pub(crate) fn push_int(out: &mut Vec<char>, n: i32)
    ensures
        final(out)@ == old(out)@ + int_text(n as int),
{
    if n < 0 {
        push_str(out, "-");
        let magnitude: i64 = -(n as i64);
        push_decimal(magnitude as usize, out);
    } else {
        push_decimal(n as usize, out);
    }
    assert(final(out)@ =~= old(out)@ + int_text(n as int));
}

fn push_aexpr(out: &mut Vec<char>, e: &AExpr)
    ensures
        final(out)@ == old(out)@ + aexpr_text(*e),
    decreases e,
{
    let ghost start = out@;
    match e {
        AExpr::Var(x) => push_str(out, x.as_str()),
        AExpr::Int(n) => push_int(out, *n),
        AExpr::Add(a, b) | AExpr::Sub(a, b) | AExpr::Mul(a, b) => {
            let op = match e {
                AExpr::Add(..) => " + ",
                AExpr::Sub(..) => " - ",
                _ => " * ",
            };
            push_str(out, "(");
            push_aexpr(out, a);
            push_str(out, op);
            push_aexpr(out, b);
            push_str(out, ")");
        },
    }
    assert(out@ =~= start + aexpr_text(*e));
}

fn push_bexpr(out: &mut Vec<char>, e: &BExpr)
    ensures
        final(out)@ == old(out)@ + bexpr_text(*e),
    decreases e,
{
    let ghost start = out@;
    match e {
        BExpr::True => push_str(out, "true"),
        BExpr::False => push_str(out, "false"),
        BExpr::And(a, b) => {
            push_str(out, "(");
            push_bexpr(out, a);
            push_str(out, " && ");
            push_bexpr(out, b);
            push_str(out, ")");
        },
        BExpr::Not(a) => {
            push_str(out, "!(");
            push_bexpr(out, a);
            push_str(out, ")");
        },
        BExpr::Less(a, b) => {
            push_str(out, "(");
            push_aexpr(out, a);
            push_str(out, " < ");
            push_aexpr(out, b);
            push_str(out, ")");
        },
    }
    assert(out@ =~= start + bexpr_text(*e));
}

fn push_statement(out: &mut Vec<char>, s: &SimpleStatement)
    ensures
        final(out)@ == old(out)@ + statement_text(*s),
{
    let ghost start = out@;
    match s {
        SimpleStatement::Skip => push_str(out, "skip"),
        SimpleStatement::Assign(x, e) => {
            push_str(out, x.as_str());
            push_str(out, " := ");
            push_aexpr(out, e);
        },
        SimpleStatement::Guard(g) => {
            push_str(out, "guard ");
            push_bexpr(out, g);
        },
    }
    assert(out@ =~= start + statement_text(*s));
}

/// An arithmetic expression as text.
pub fn aexpr_to_string(e: &AExpr) -> (r: String)
    ensures
        r@ == aexpr_text(*e),
{
    let mut out: Vec<char> = Vec::new();
    push_aexpr(&mut out, e);
    assert(out@ =~= aexpr_text(*e));
    collect_string(out.as_slice())
}

/// A Boolean expression as text.
pub fn bexpr_to_string(e: &BExpr) -> (r: String)
    ensures
        r@ == bexpr_text(*e),
{
    let mut out: Vec<char> = Vec::new();
    push_bexpr(&mut out, e);
    assert(out@ =~= bexpr_text(*e));
    collect_string(out.as_slice())
}

/// A statement as text.
pub fn statement_to_string(s: &SimpleStatement) -> (r: String)
    ensures
        r@ == statement_text(*s),
{
    let mut out: Vec<char> = Vec::new();
    push_statement(&mut out, s);
    assert(out@ =~= statement_text(*s));
    collect_string(out.as_slice())
}

fn push_escaped(out: &mut Vec<char>, label: &Vec<char>)
    ensures
        final(out)@ == old(out)@ + escape_text(label@),
{
    let mut i: usize = 0;
    while i < label.len()
        invariant
            i <= label.len(),
            out@ == old(out)@ + escape_text(label@.subrange(0, i as int)),
        decreases label.len() - i,
    {
        let c = label[i];
        let ghost before = out@;
        if c == '\\' {
            push_str(out, "\\\\");
        } else if c == '"' {
            push_str(out, "\\\"");
        } else if c == '\n' {
            push_str(out, "\\n");
        } else {
            out.push(c);
        }
        proof {
            assert(label@.subrange(0, i + 1).drop_last() =~= label@.subrange(0, i as int));
            assert(out@ =~= before + escape_char(c));
        }
        i = i + 1;
    }
    assert(label@.subrange(0, label.len() as int) =~= label@);
}

fn push_label(
    out: &mut Vec<char>,
    id: BlockId,
    s: &SimpleStatement,
    extra: &str,
    entry: BlockId,
    exit: BlockId,
)
    ensures
        final(out)@ == old(out)@ + block_label(id, *s, extra@, entry, exit),
{
    let ghost start = out@;
    push_str(out, "B");
    push_decimal(id, out);
    push_str(out, ": ");
    push_statement(out, s);
    push_str(out, extra);
    if id == entry {
        push_str(out, "\n(entry)");
    }
    if id == exit {
        push_str(out, "\n(exit)");
    }
    assert(out@ =~= start + block_label(id, *s, extra@, entry, exit));
}

fn push_node(out: &mut Vec<char>, id: BlockId, label: &Vec<char>)
    ensures
        final(out)@ == old(out)@ + node_line(id, label@),
{
    let ghost start = out@;
    push_str(out, "  B");
    push_decimal(id, out);
    push_str(out, " [label=\"");
    push_escaped(out, label);
    push_str(out, "\"];\n");
    assert(out@ =~= start + node_line(id, label@));
}

fn push_edges(out: &mut Vec<char>, id: BlockId, e: &OutgoingEdges)
    ensures
        final(out)@ == old(out)@ + edge_lines(id, *e),
{
    let ghost start = out@;
    match e {
        OutgoingEdges::End => {},
        OutgoingEdges::Goto(next) => {
            push_str(out, "  B");
            push_decimal(id, out);
            push_str(out, " -> B");
            push_decimal(*next, out);
            push_str(out, ";\n");
        },
        OutgoingEdges::Branch { on_true, on_false } => {
            push_str(out, "  B");
            push_decimal(id, out);
            push_str(out, " -> B");
            push_decimal(*on_true, out);
            push_str(out, " [label=\"true\"];\n");
            push_str(out, "  B");
            push_decimal(id, out);
            push_str(out, " -> B");
            push_decimal(*on_false, out);
            push_str(out, " [label=\"false\"];\n");
        },
    }
    assert(out@ =~= start + edge_lines(id, *e));
}

impl ControlFlowGraph {
    /// The graph in Graphviz DOT: a box per block, labelled with its id and
    /// statement, and an arrow per edge, branch edges labelled `true` and
    /// `false`.
    pub fn to_dot(&self) -> (r: String)
        ensures
            r@ == dot_text(*self),
    {
        let bs = self.blocks();
        let mut out: Vec<char> = Vec::new();
        push_str(&mut out, "digraph CFG {\n");
        push_str(&mut out, "  node [shape=box];\n");
        let ghost head = out@;
        let mut i: usize = 0;
        while i < bs.len()
            invariant
                bs@ == self.spec_blocks(),
                i <= bs.len(),
                out@ == head + node_lines(bs@, self.entry, self.exit, i as int),
            decreases bs.len() - i,
        {
            let mut label: Vec<char> = Vec::new();
            push_label(&mut label, bs[i].id, &bs[i].statement, "", self.entry, self.exit);
            proof {
                reveal_strlit("");
                assert(""@ =~= Seq::<char>::empty());
            }
            push_node(&mut out, bs[i].id, &label);
            i = i + 1;
        }
        let ghost middle = out@;
        let mut i: usize = 0;
        while i < bs.len()
            invariant
                bs@ == self.spec_blocks(),
                i <= bs.len(),
                out@ == middle + all_edge_lines(bs@, i as int),
            decreases bs.len() - i,
        {
            push_edges(&mut out, bs[i].id, &bs[i].outgoing);
            i = i + 1;
        }
        push_str(&mut out, "}\n");
        assert(out@ =~= dot_text(*self));
        collect_string(out.as_slice())
    }
}

impl<A> AnnotatedControlFlowGraph<A> {
    /// The annotated graph in Graphviz DOT, with `annotation_texts[i]` as
    /// the text of the annotation of block `i`, on the lines after its
    /// statement.
    pub fn to_dot_with(&self, annotation_texts: &[String]) -> (r: String)
        requires
            annotation_texts@.len() == self.spec_blocks().len(),
        ensures
            r@ == annotated_dot_text(*self, annotation_texts@.map_values(|t: String| t@)),
    {
        let ghost texts = annotation_texts@.map_values(|t: String| t@);
        let bs = self.blocks();
        let mut out: Vec<char> = Vec::new();
        push_str(&mut out, "digraph CFG {\n");
        push_str(&mut out, "  node [shape=box];\n");
        let ghost head = out@;
        let mut i: usize = 0;
        while i < bs.len()
            invariant
                bs@ == self.spec_blocks(),
                annotation_texts@.len() == bs@.len(),
                texts == annotation_texts@.map_values(|t: String| t@),
                i <= bs.len(),
                out@ == head + annotated_node_lines(bs@, texts, self.entry, self.exit, i as int),
            decreases bs.len() - i,
        {
            let mut extra: Vec<char> = Vec::new();
            extra.push('\n');
            push_str(&mut extra, annotation_texts[i].as_str());
            let extra_text = collect_string(extra.as_slice());
            proof {
                reveal_strlit("\n");
                assert(extra_text@ =~= "\n"@ + texts[i as int]);
            }
            let mut label: Vec<char> = Vec::new();
            push_label(&mut label, bs[i].id, &bs[i].statement, extra_text.as_str(), self.entry, self.exit);
            push_node(&mut out, bs[i].id, &label);
            i = i + 1;
        }
        let ghost middle = out@;
        let mut i: usize = 0;
        while i < bs.len()
            invariant
                bs@ == self.spec_blocks(),
                i <= bs.len(),
                out@ == middle + annotated_edge_lines(bs@, i as int),
            decreases bs.len() - i,
        {
            push_edges(&mut out, bs[i].id, &bs[i].outgoing);
            i = i + 1;
        }
        push_str(&mut out, "}\n");
        assert(out@ =~= annotated_dot_text(*self, texts));
        collect_string(out.as_slice())
    }
}

/// The line of a block in the plain-text listing of a graph.
pub open spec fn listing_line(b: BasicBlock) -> Seq<char> {
    "B"@ + decimal_digits(b.id as nat) + ": "@ + statement_text(b.statement) + match b.outgoing {
        OutgoingEdges::End => " -> end\n"@,
        OutgoingEdges::Goto(next) => " -> B"@ + decimal_digits(next as nat) + "\n"@,
        OutgoingEdges::Branch { on_true, on_false } => " -> true: B"@ + decimal_digits(on_true as nat)
            + ", false: B"@ + decimal_digits(on_false as nat) + "\n"@,
    }
}

/// The listing lines of the first `n` blocks.
pub open spec fn listing_lines(bs: Seq<BasicBlock>, n: int) -> Seq<char>
    decreases n,
{
    if n <= 0 {
        Seq::empty()
    } else {
        listing_lines(bs, n - 1) + listing_line(bs[n - 1])
    }
}

/// The plain-text listing of a graph: a header, then a line per block with
/// its statement and edges.
pub open spec fn listing_text(cfg: ControlFlowGraph) -> Seq<char> {
    "CFG(input: "@ + cfg.input@ + ", output: "@ + cfg.output@ + ", entry: B"@ + decimal_digits(
        cfg.entry as nat,
    ) + ", exit: B"@ + decimal_digits(cfg.exit as nat) + ")\n"@ + listing_lines(
        cfg.spec_blocks(),
        cfg.spec_blocks().len() as int,
    )
}

fn push_listing_line(out: &mut Vec<char>, b: &BasicBlock)
    ensures
        final(out)@ == old(out)@ + listing_line(*b),
{
    let ghost start = out@;
    push_str(out, "B");
    push_decimal(b.id, out);
    push_str(out, ": ");
    push_statement(out, &b.statement);
    match b.outgoing {
        OutgoingEdges::End => push_str(out, " -> end\n"),
        OutgoingEdges::Goto(next) => {
            push_str(out, " -> B");
            push_decimal(next, out);
            push_str(out, "\n");
        },
        OutgoingEdges::Branch { on_true, on_false } => {
            push_str(out, " -> true: B");
            push_decimal(on_true, out);
            push_str(out, ", false: B");
            push_decimal(on_false, out);
            push_str(out, "\n");
        },
    }
    assert(out@ =~= start + listing_line(*b));
}

impl ControlFlowGraph {
    /// The graph as plain text: its input, output, entry and exit, then each
    /// block with its statement and where control goes next.
    pub fn listing(&self) -> (r: String)
        ensures
            r@ == listing_text(*self),
    {
        let bs = self.blocks();
        let mut out: Vec<char> = Vec::new();
        push_str(&mut out, "CFG(input: ");
        push_str(&mut out, self.input.as_str());
        push_str(&mut out, ", output: ");
        push_str(&mut out, self.output.as_str());
        push_str(&mut out, ", entry: B");
        push_decimal(self.entry, &mut out);
        push_str(&mut out, ", exit: B");
        push_decimal(self.exit, &mut out);
        push_str(&mut out, ")\n");
        let ghost head = out@;
        let mut i: usize = 0;
        while i < bs.len()
            invariant
                bs@ == self.spec_blocks(),
                i <= bs.len(),
                out@ == head + listing_lines(bs@, i as int),
            decreases bs.len() - i,
        {
            push_listing_line(&mut out, &bs[i]);
            i = i + 1;
        }
        assert(out@ =~= listing_text(*self));
        collect_string(out.as_slice())
    }
}

/// A definition as text: the variable, `@`, and `input` or the block.
pub open spec fn definition_text(d: DefinitionView) -> Seq<char> {
    match d {
        DefinitionView::Input(x) => x + "@input"@,
        DefinitionView::Assignment(x, b) => x + "@B"@ + decimal_digits(b as nat),
    }
}

impl Definition {
    /// The definition as text, such as `x@input` or `x@B3`.
    pub fn text(&self) -> (r: String)
        ensures
            r@ == definition_text(self@),
    {
        let mut out: Vec<char> = Vec::new();
        match self {
            Definition::Input(x) => {
                push_str(&mut out, x.as_str());
                push_str(&mut out, "@input");
            },
            Definition::Assignment { variable, block } => {
                push_str(&mut out, variable.as_str());
                push_str(&mut out, "@B");
                push_decimal(*block, &mut out);
            },
        }
        assert(out@ =~= definition_text(self@));
        collect_string(out.as_slice())
    }
}

impl UndefinedVariable {
    /// The report as a sentence.
    pub fn message(&self) -> (r: String)
        ensures
            r@ == "variable '"@ + self.variable@ + "' may be undefined before block B"@ + decimal_digits(
                self.block as nat,
            ),
    {
        let mut out: Vec<char> = Vec::new();
        push_str(&mut out, "variable '");
        push_str(&mut out, self.variable.as_str());
        push_str(&mut out, "' may be undefined before block B");
        push_decimal(self.block, &mut out);
        collect_string(out.as_slice())
    }
}


// ---------------------------------------------------------------------------
// Annotations as text.

/// Texts separated by `, `.
pub open spec fn joined(items: Seq<Seq<char>>) -> Seq<char>
    decreases items.len(),
{
    if items.len() == 0 {
        Seq::empty()
    } else if items.len() == 1 {
        items[0]
    } else {
        joined(items.drop_last()) + ", "@ + items.last()
    }
}

/// Texts between braces, separated by `, `, as a set's `Debug` form shows them.
pub open spec fn braced(items: Seq<Seq<char>>) -> Seq<char> {
    "{"@ + joined(items) + "}"@
}

/// Names, each quoted as its `Debug` form shows it.
pub open spec fn quoted_names(names: Seq<String>) -> Seq<Seq<char>> {
    names.map_values(|n: String| debug_string(n@))
}

/// Names in the order of their characters.
pub open spec fn names_sorted(names: Seq<String>) -> bool {
    forall|i: int, j: int| 0 <= i < j < names.len() ==> chars_before((#[trigger] names[i])@, (#[trigger] names[j])@)
}

/// A definition as its `Debug` form shows it, such as
/// `Assignment { variable: "x", block: 2 }`.
pub open spec fn definition_debug(d: DefinitionView) -> Seq<char> {
    match d {
        DefinitionView::Input(x) => "Input("@ + debug_string(x) + ")"@,
        DefinitionView::Assignment(x, b) => "Assignment { variable: "@ + debug_string(x) + ", block: "@
            + decimal_digits(b as nat) + " }"@,
    }
}

/// Definitions, each as its `Debug` form shows it.
pub open spec fn definitions_debug(defs: Seq<Definition>) -> Seq<Seq<char>> {
    defs.map_values(|d: Definition| definition_debug(d@))
}

/// Definitions in the order of `definition_before`.
pub open spec fn definitions_sorted(defs: Seq<Definition>) -> bool {
    forall|i: int, j: int| 0 <= i < j < defs.len() ==> definition_before((#[trigger] defs[i])@, (#[trigger] defs[j])@)
}

/// The text of an annotation whose sets show as `ins` and `outs`.
pub open spec fn annotation_text(ins: Seq<Seq<char>>, outs: Seq<Seq<char>>) -> Seq<char> {
    "IN = "@ + braced(ins) + "\nOUT = "@ + braced(outs)
}

/// `t` is the text of an annotation of variable sets: its two sets, each
/// as its names quoted and in the order of their characters.
pub open spec fn shows_variable_sets(a: DataflowAnnotation<VariableSet>, t: Seq<char>) -> bool {
    exists|ins: Seq<String>, outs: Seq<String>|
        #![trigger annotation_text(quoted_names(ins), quoted_names(outs))]
        names_of(ins) == a.in_set@ && names_sorted(ins) && names_of(outs) == a.out_set@ && names_sorted(outs)
            && t == annotation_text(quoted_names(ins), quoted_names(outs))
}

/// `t` is the text of an annotation of definition sets: its two sets, each
/// as its definitions' `Debug` forms in the order of `definition_before`.
pub open spec fn shows_definition_sets(a: DataflowAnnotation<DefinitionSet>, t: Seq<char>) -> bool {
    exists|ins: Seq<Definition>, outs: Seq<Definition>|
        #![trigger annotation_text(definitions_debug(ins), definitions_debug(outs))]
        names_of(ins) == a.in_set@ && definitions_sorted(ins) && names_of(outs) == a.out_set@
            && definitions_sorted(outs) && t == annotation_text(definitions_debug(ins), definitions_debug(outs))
}

/// `texts[k]` is the text of the annotation of block `k`, for every block.
pub open spec fn variable_set_texts(g: AnnotatedControlFlowGraph<DataflowAnnotation<VariableSet>>, texts: Seq<Seq<char>>) -> bool {
    &&& texts.len() == g.spec_blocks().len()
    &&& forall|k: int| 0 <= k < texts.len() ==> shows_variable_sets(g.spec_blocks()[k].annotation, #[trigger] texts[k])
}

/// `texts[k]` is the text of the annotation of block `k`, for every block.
pub open spec fn definition_set_texts(g: AnnotatedControlFlowGraph<DataflowAnnotation<DefinitionSet>>, texts: Seq<Seq<char>>) -> bool {
    &&& texts.len() == g.spec_blocks().len()
    &&& forall|k: int| 0 <= k < texts.len() ==> shows_definition_sets(g.spec_blocks()[k].annotation, #[trigger] texts[k])
}

fn push_braced(out: &mut Vec<char>, items: &Vec<String>)
    ensures
        final(out)@ == old(out)@ + braced(items@.map_values(|t: String| t@)),
{
    let ghost texts = items@.map_values(|t: String| t@);
    let ghost start = out@;
    push_str(out, "{");
    let mut i: usize = 0;
    while i < items.len()
        invariant
            texts == items@.map_values(|t: String| t@),
            i <= items.len(),
            out@ == start + "{"@ + joined(texts.subrange(0, i as int)),
        decreases items.len() - i,
    {
        let ghost before = out@;
        if i > 0 {
            push_str(out, ", ");
        }
        push_str(out, items[i].as_str());
        proof {
            let t = texts.subrange(0, i + 1);
            assert(t.drop_last() =~= texts.subrange(0, i as int));
            if i == 0 {
                assert(joined(texts.subrange(0, 0)) =~= Seq::<char>::empty());
                assert(joined(t) == t[0]);
            }
        }
        i = i + 1;
        assert(out@ =~= start + "{"@ + joined(texts.subrange(0, i as int)));
    }
    push_str(out, "}");
    assert(texts.subrange(0, items.len() as int) =~= texts);
    assert(out@ =~= start + braced(texts));
}

fn quote_names(names: &Vec<String>) -> (r: Vec<String>)
    ensures
        r@.map_values(|t: String| t@) == quoted_names(names@),
{
    let mut r: Vec<String> = Vec::new();
    let mut i: usize = 0;
    while i < names.len()
        invariant
            i <= names.len(),
            r@.len() == i,
            forall|k: int| 0 <= k < i ==> (#[trigger] r@[k])@ == debug_string(names@[k]@),
        decreases names.len() - i,
    {
        let mut out: Vec<char> = Vec::new();
        push_debug_string(&mut out, names[i].as_str());
        r.push(collect_string(out.as_slice()));
        i = i + 1;
    }
    assert(r@.map_values(|t: String| t@) =~= quoted_names(names@));
    r
}

fn definition_text_debug(d: &Definition) -> (r: String)
    ensures
        r@ == definition_debug(d@),
{
    let mut out: Vec<char> = Vec::new();
    match d {
        Definition::Input(x) => {
            push_str(&mut out, "Input(");
            push_debug_string(&mut out, x.as_str());
            push_str(&mut out, ")");
        },
        Definition::Assignment { variable, block } => {
            push_str(&mut out, "Assignment { variable: ");
            push_debug_string(&mut out, variable.as_str());
            push_str(&mut out, ", block: ");
            push_decimal(*block, &mut out);
            push_str(&mut out, " }");
        },
    }
    assert(out@ =~= definition_debug(d@));
    collect_string(out.as_slice())
}

fn show_definitions(defs: &Vec<Definition>) -> (r: Vec<String>)
    ensures
        r@.map_values(|t: String| t@) == definitions_debug(defs@),
{
    let mut r: Vec<String> = Vec::new();
    let mut i: usize = 0;
    while i < defs.len()
        invariant
            i <= defs.len(),
            r@.len() == i,
            forall|k: int| 0 <= k < i ==> (#[trigger] r@[k])@ == definition_debug(defs@[k]@),
        decreases defs.len() - i,
    {
        r.push(definition_text_debug(&defs[i]));
        i = i + 1;
    }
    assert(r@.map_values(|t: String| t@) =~= definitions_debug(defs@));
    r
}

impl DataflowAnnotation<VariableSet> {
    /// The annotation as text: `IN = ` and the set of names on one line,
    /// `OUT = ` and the other on the next; each set in braces, its names
    /// quoted, in the order of their characters.
    pub fn text(&self) -> (r: String)
        ensures
            shows_variable_sets(*self, r@),
    {
        let ins = sorted_names(&self.in_set);
        let outs = sorted_names(&self.out_set);
        let mut out: Vec<char> = Vec::new();
        push_str(&mut out, "IN = ");
        push_braced(&mut out, &quote_names(&ins));
        push_str(&mut out, "\nOUT = ");
        push_braced(&mut out, &quote_names(&outs));
        assert(out@ =~= annotation_text(quoted_names(ins@), quoted_names(outs@)));
        collect_string(out.as_slice())
    }
}

impl DataflowAnnotation<DefinitionSet> {
    /// The annotation as text: `IN = ` and the set of definitions on one
    /// line, `OUT = ` and the other on the next; each set in braces, its
    /// definitions as their `Debug` forms show them, in the order of
    /// `definition_before`.
    pub fn text(&self) -> (r: String)
        ensures
            shows_definition_sets(*self, r@),
    {
        let ins = sorted_definitions(&self.in_set);
        let outs = sorted_definitions(&self.out_set);
        let mut out: Vec<char> = Vec::new();
        push_str(&mut out, "IN = ");
        push_braced(&mut out, &show_definitions(&ins));
        push_str(&mut out, "\nOUT = ");
        push_braced(&mut out, &show_definitions(&outs));
        assert(out@ =~= annotation_text(definitions_debug(ins@), definitions_debug(outs@)));
        collect_string(out.as_slice())
    }
}


// ---------------------------------------------------------------------------
// The listing of an annotated graph.

/// The position of the first newline of `t` at or after `from`, or the length.
pub open spec fn first_newline(t: Seq<char>, from: int) -> int
    decreases t.len() - from,
{
    if from < 0 || from >= t.len() {
        t.len() as int
    } else if t[from] == '\n' {
        from
    } else {
        first_newline(t, from + 1)
    }
}

pub proof fn lemma_first_newline(t: Seq<char>, from: int)
    requires
        0 <= from <= t.len(),
    ensures
        from <= first_newline(t, from) <= t.len(),
        forall|i: int| from <= i < first_newline(t, from) ==> t[i] != '\n',
        first_newline(t, from) < t.len() ==> t[first_newline(t, from)] == '\n',
    decreases t.len() - from,
{
    if from < t.len() && t[from] != '\n' {
        lemma_first_newline(t, from + 1);
    }
}

/// A line without the carriage return that may end it.
pub open spec fn without_return(line: Seq<char>) -> Seq<char> {
    if line.len() > 0 && line.last() == '\r' {
        line.drop_last()
    } else {
        line
    }
}

/// The lines of `t` from position `from`, as `str::lines` splits them, each
/// indented by four spaces and ended by a newline.
pub open spec fn indented_from(t: Seq<char>, from: int) -> Seq<char>
    decreases t.len() - from,
{
    if from < 0 || from >= t.len() {
        Seq::empty()
    } else {
        let k = first_newline(t, from);
        proof {
            lemma_first_newline(t, from);
        }
        "    "@ + without_return(t.subrange(from, k)) + "\n"@ + if k < t.len() {
            indented_from(t, k + 1)
        } else {
            Seq::empty()
        }
    }
}

/// The edge line of a block in the listing of an annotated graph.
pub open spec fn indented_edge_line(e: OutgoingEdges) -> Seq<char> {
    match e {
        OutgoingEdges::End => "    -> end\n"@,
        OutgoingEdges::Goto(next) => "    -> B"@ + decimal_digits(next as nat) + "\n"@,
        OutgoingEdges::Branch { on_true, on_false } => "    -> true: B"@ + decimal_digits(on_true as nat)
            + ", false: B"@ + decimal_digits(on_false as nat) + "\n"@,
    }
}

/// The listing lines of the first `n` annotated blocks.
pub open spec fn annotated_listing_lines<A>(bs: Seq<AnnotatedBasicBlock<A>>, texts: Seq<Seq<char>>, n: int) -> Seq<char>
    decreases n,
{
    if n <= 0 {
        Seq::empty()
    } else {
        annotated_listing_lines(bs, texts, n - 1) + "B"@ + decimal_digits(bs[n - 1].id as nat) + ": "@
            + statement_text(bs[n - 1].statement) + "\n"@ + indented_from(texts[n - 1], 0) + indented_edge_line(
            bs[n - 1].outgoing,
        )
    }
}

/// The plain-text listing of an annotated graph.
pub open spec fn annotated_listing_text<A>(g: AnnotatedControlFlowGraph<A>, texts: Seq<Seq<char>>) -> Seq<char> {
    "CFG(input: "@ + g.input@ + ", output: "@ + g.output@ + ", entry: B"@ + decimal_digits(g.entry as nat)
        + ", exit: B"@ + decimal_digits(g.exit as nat) + ")\n"@ + annotated_listing_lines(
        g.spec_blocks(),
        texts,
        g.spec_blocks().len() as int,
    )
}

fn push_indented(out: &mut Vec<char>, chars: &Vec<char>, from: usize)
    requires
        from <= chars.len(),
    ensures
        final(out)@ == old(out)@ + indented_from(chars@, from as int),
    decreases chars.len() - from,
{
    if from >= chars.len() {
        return;
    }
    let ghost t = chars@;
    proof {
        lemma_first_newline(t, from as int);
    }
    let mut k: usize = from;
    while k < chars.len() && chars[k] != '\n'
        invariant
            t == chars@,
            from <= k <= chars.len(),
            first_newline(t, from as int) == first_newline(t, k as int),
        decreases chars.len() - k,
    {
        k = k + 1;
    }
    let ghost start = out@;
    push_str(out, "    ");
    let stop = if k > from && chars[k - 1] == '\r' {
        k - 1
    } else {
        k
    };
    let mut i: usize = from;
    let ghost before = out@;
    assert(out@ =~= before + t.subrange(from as int, i as int));
    while i < stop
        invariant
            t == chars@,
            from <= i <= stop <= k <= chars.len(),
            out@ == before + t.subrange(from as int, i as int),
        decreases stop - i,
    {
        out.push(chars[i]);
        i = i + 1;
        assert(out@ =~= before + t.subrange(from as int, i as int));
    }
    push_str(out, "\n");
    proof {
        assert(t.subrange(from as int, stop as int) =~= without_return(t.subrange(from as int, k as int)));
    }
    if k < chars.len() {
        push_indented(out, chars, k + 1);
    }
    assert(out@ =~= start + indented_from(t, from as int));
}

fn push_indented_edge_line(out: &mut Vec<char>, e: OutgoingEdges)
    ensures
        final(out)@ == old(out)@ + indented_edge_line(e),
{
    let ghost start = out@;
    match e {
        OutgoingEdges::End => push_str(out, "    -> end\n"),
        OutgoingEdges::Goto(next) => {
            push_str(out, "    -> B");
            push_decimal(next, out);
            push_str(out, "\n");
        },
        OutgoingEdges::Branch { on_true, on_false } => {
            push_str(out, "    -> true: B");
            push_decimal(on_true, out);
            push_str(out, ", false: B");
            push_decimal(on_false, out);
            push_str(out, "\n");
        },
    }
    assert(out@ =~= start + indented_edge_line(e));
}

impl<A> AnnotatedControlFlowGraph<A> {
    /// The annotated graph as text: a header, then for each block its
    /// statement, the lines of `annotation_texts[i]` indented by four spaces,
    /// and where control goes next.
    pub fn listing_with(&self, annotation_texts: &[String]) -> (r: String)
        requires
            annotation_texts@.len() == self.spec_blocks().len(),
        ensures
            r@ == annotated_listing_text(*self, annotation_texts@.map_values(|t: String| t@)),
    {
        let ghost texts = annotation_texts@.map_values(|t: String| t@);
        let bs = self.blocks();
        let mut out: Vec<char> = Vec::new();
        push_str(&mut out, "CFG(input: ");
        push_str(&mut out, self.input.as_str());
        push_str(&mut out, ", output: ");
        push_str(&mut out, self.output.as_str());
        push_str(&mut out, ", entry: B");
        push_decimal(self.entry, &mut out);
        push_str(&mut out, ", exit: B");
        push_decimal(self.exit, &mut out);
        push_str(&mut out, ")\n");
        let ghost head = out@;
        let mut i: usize = 0;
        while i < bs.len()
            invariant
                bs@ == self.spec_blocks(),
                texts == annotation_texts@.map_values(|t: String| t@),
                annotation_texts@.len() == bs@.len(),
                i <= bs.len(),
                out@ == head + annotated_listing_lines(bs@, texts, i as int),
            decreases bs.len() - i,
        {
            let ghost before = out@;
            push_str(&mut out, "B");
            push_decimal(bs[i].id, &mut out);
            push_str(&mut out, ": ");
            push_statement(&mut out, &bs[i].statement);
            push_str(&mut out, "\n");
            let chars = chars_of(annotation_texts[i].as_str());
            push_indented(&mut out, &chars, 0);
            push_indented_edge_line(&mut out, bs[i].outgoing);
            i = i + 1;
            assert(out@ =~= head + annotated_listing_lines(bs@, texts, i as int));
        }
        assert(out@ =~= annotated_listing_text(*self, texts));
        collect_string(out.as_slice())
    }
}

fn variable_set_texts_of(g: &AnnotatedControlFlowGraph<DataflowAnnotation<VariableSet>>) -> (r: Vec<String>)
    ensures
        variable_set_texts(*g, r@.map_values(|t: String| t@)),
{
    let bs = g.blocks();
    let mut r: Vec<String> = Vec::new();
    let mut i: usize = 0;
    while i < bs.len()
        invariant
            bs@ == g.spec_blocks(),
            i <= bs.len(),
            r@.len() == i,
            forall|k: int| 0 <= k < i ==> shows_variable_sets(bs@[k].annotation, (#[trigger] r@[k])@),
        decreases bs.len() - i,
    {
        r.push(bs[i].annotation.text());
        i = i + 1;
    }
    let ghost texts = r@.map_values(|t: String| t@);
    assert forall|k: int| 0 <= k < texts.len() implies shows_variable_sets(g.spec_blocks()[k].annotation, #[trigger] texts[k]) by {
        assert(texts[k] == r@[k]@);
    }
    r
}

fn definition_set_texts_of(g: &AnnotatedControlFlowGraph<DataflowAnnotation<DefinitionSet>>) -> (r: Vec<String>)
    ensures
        definition_set_texts(*g, r@.map_values(|t: String| t@)),
{
    let bs = g.blocks();
    let mut r: Vec<String> = Vec::new();
    let mut i: usize = 0;
    while i < bs.len()
        invariant
            bs@ == g.spec_blocks(),
            i <= bs.len(),
            r@.len() == i,
            forall|k: int| 0 <= k < i ==> shows_definition_sets(bs@[k].annotation, (#[trigger] r@[k])@),
        decreases bs.len() - i,
    {
        r.push(bs[i].annotation.text());
        i = i + 1;
    }
    let ghost texts = r@.map_values(|t: String| t@);
    assert forall|k: int| 0 <= k < texts.len() implies shows_definition_sets(g.spec_blocks()[k].annotation, #[trigger] texts[k]) by {
        assert(texts[k] == r@[k]@);
    }
    r
}

impl AnnotatedControlFlowGraph<DataflowAnnotation<VariableSet>> {
    /// The graph in Graphviz DOT, each block labelled with its statement and
    /// the text of its annotation.
    pub fn to_dot(&self) -> (r: String)
        ensures
            exists|texts: Seq<Seq<char>>|
                #![trigger variable_set_texts(*self, texts)]
                variable_set_texts(*self, texts) && r@ == annotated_dot_text(*self, texts),
    {
        let texts = variable_set_texts_of(self);
        let r = self.to_dot_with(texts.as_slice());
        proof {
            let t = texts@.map_values(|t: String| t@);
            assert(variable_set_texts(*self, t));
        }
        r
    }

    /// The graph as text, each block with the lines of the text of its
    /// annotation.
    pub fn listing(&self) -> (r: String)
        ensures
            exists|texts: Seq<Seq<char>>|
                #![trigger variable_set_texts(*self, texts)]
                variable_set_texts(*self, texts) && r@ == annotated_listing_text(*self, texts),
    {
        let texts = variable_set_texts_of(self);
        let r = self.listing_with(texts.as_slice());
        proof {
            let t = texts@.map_values(|t: String| t@);
            assert(variable_set_texts(*self, t));
        }
        r
    }
}

impl AnnotatedControlFlowGraph<DataflowAnnotation<DefinitionSet>> {
    /// The graph in Graphviz DOT, each block labelled with its statement and
    /// the text of its annotation.
    pub fn to_dot(&self) -> (r: String)
        ensures
            exists|texts: Seq<Seq<char>>|
                #![trigger definition_set_texts(*self, texts)]
                definition_set_texts(*self, texts) && r@ == annotated_dot_text(*self, texts),
    {
        let texts = definition_set_texts_of(self);
        let r = self.to_dot_with(texts.as_slice());
        proof {
            let t = texts@.map_values(|t: String| t@);
            assert(definition_set_texts(*self, t));
        }
        r
    }

    /// The graph as text, each block with the lines of the text of its
    /// annotation.
    pub fn listing(&self) -> (r: String)
        ensures
            exists|texts: Seq<Seq<char>>|
                #![trigger definition_set_texts(*self, texts)]
                definition_set_texts(*self, texts) && r@ == annotated_listing_text(*self, texts),
    {
        let texts = definition_set_texts_of(self);
        let r = self.listing_with(texts.as_slice());
        proof {
            let t = texts@.map_values(|t: String| t@);
            assert(definition_set_texts(*self, t));
        }
        r
    }
}

} // verus!

