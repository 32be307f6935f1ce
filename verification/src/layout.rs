//! Where the nodes of a program stand in its graph: the tables first, then
//! clause by clause the source of the chain, a filter and a join for each
//! predicate of the body, and the node that makes the rows of the head.

use crate::babyflow::OUTBOX;
use crate::compile::bind;
use crate::compile::build_clause;
use crate::compile::build_clauses;
use crate::compile::compile;
use crate::compile::declare;
use crate::compile::declared_flags;
use crate::compile::extend;
use crate::compile::extend_all;
use crate::compile::Chain;
use crate::join::JoinState;
use crate::compile::head_terms;
use crate::compile::input_of;
use crate::compile::output_of;
use crate::node::NodeView;
use crate::program::PredicateView;
use crate::program::ProgramView;
use crate::query::Graph;
use crate::reach::tables_of;
use crate::relation::Condition;
use crate::relation::Term;
use crate::sound::columns_after;
use crate::sound::width_before;
use vstd::prelude::*;

verus! {

/// The number of nodes before those of the clause `c`.
pub open spec fn nodes_before(p: ProgramView, c: int) -> int
    decreases c,
{
    if c <= 0 {
        2 * p.names.len() as int
    } else {
        nodes_before(p, c - 1) + 2 + 2 * p.clauses[c - 1].body.len()
    }
}

/// The source from which the chain of the clause `c` starts.
pub open spec fn seed_at(p: ProgramView, c: int) -> int {
    nodes_before(p, c)
}

/// The filter before the predicate `j` of the body of the clause `c`.
pub open spec fn filter_at(p: ProgramView, c: int, j: int) -> int {
    nodes_before(p, c) + 1 + 2 * j
}

/// The join for the predicate `j` of the body of the clause `c`.
pub open spec fn join_at(p: ProgramView, c: int, j: int) -> int {
    nodes_before(p, c) + 2 + 2 * j
}

/// The node that makes the rows of the head of the clause `c`.
pub open spec fn head_at(p: ProgramView, c: int) -> int {
    nodes_before(p, c) + 1 + 2 * p.clauses[c].body.len()
}

/// The node at the end of the chain of the clause `c` when the first `j`
/// predicates of its body are joined: the source, or the join of the
/// predicate before.
pub open spec fn feeder_at(p: ProgramView, c: int, j: int) -> int {
    if j <= 0 {
        seed_at(p, c)
    } else {
        join_at(p, c, j - 1)
    }
}

/// The conditions of the filter before the predicate `j` of `body`.
pub open spec fn conditions_at(body: Seq<PredicateView>, j: int) -> Seq<Condition> {
    seq![Condition::Width(body[j].args.len() as usize)] + bind(
        columns_after(body, j),
        body[j].args,
        width_before(body, j) as usize,
    ).conditions
}

/// The key columns of the chain in the join for the predicate `j` of
/// `body`.
pub open spec fn left_key_at(body: Seq<PredicateView>, j: int) -> Seq<usize> {
    bind(columns_after(body, j), body[j].args, width_before(body, j) as usize).left_key
}

/// The key columns of the predicate `j` of `body` in its join.
pub open spec fn right_key_at(body: Seq<PredicateView>, j: int) -> Seq<usize> {
    bind(columns_after(body, j), body[j].args, width_before(body, j) as usize).right_key
}

/// The terms that make the head of the clause `c` of a solution of its
/// body.
pub open spec fn terms_at(p: ProgramView, c: int) -> Seq<Term> {
    head_terms(
        columns_after(p.clauses[c].body, p.clauses[c].body.len() as int),
        p.clauses[c].head.args,
    ).unwrap()
}

/// Whether the two nodes of the relation `r` stand in `g`: the node that
/// merges what feeds into it, which sends to its table.
pub open spec fn relation_laid(g: Graph, r: int) -> bool {
    &&& g.operators[2 * r] == NodeView::Merge
    &&& g.operators[2 * r + 1] is Distinct
    &&& g.outputs[2 * r].contains(((2 * r + 1) as usize, 0usize))
}

/// Whether the filter and the join for the predicate `j` of the body of
/// the clause `c` stand in `g`, with their edges.
pub open spec fn stage_laid(p: ProgramView, g: Graph, c: int, j: int) -> bool {
    let body = p.clauses[c].body;
    let filter = filter_at(p, c, j);
    let join = join_at(p, c, j);
    &&& g.operators[filter] == NodeView::Filter(conditions_at(body, j))
    &&& g.operators[join] is Join
    &&& tables_of(g.operators[join]).left_key == left_key_at(body, j)
    &&& tables_of(g.operators[join]).right_key == right_key_at(body, j)
    &&& body[j].name < p.names.len()
    &&& g.outputs[output_of(body[j].name) as int].contains((filter as usize, 0usize))
    &&& g.outputs[filter].contains((join as usize, 1usize))
    &&& g.outputs[feeder_at(p, c, j)].contains((join as usize, 0usize))
}

/// Whether the source of the chain of the clause `c` and the first `j`
/// stages of the chain stand in `g`.
pub open spec fn chain_laid(p: ProgramView, g: Graph, c: int, j: int) -> bool {
    &&& g.operators[seed_at(p, c)] is Source
    &&& forall|i: int| 0 <= i < j ==> #[trigger] stage_laid(p, g, c, i)
}

/// Whether the nodes of the clause `c` stand in `g`: its chain, and the
/// node that makes the rows of its head, which sends into the relation of
/// the head.
pub open spec fn line_laid(p: ProgramView, g: Graph, c: int) -> bool {
    let clause = p.clauses[c];
    let n = clause.body.len() as int;
    let head = head_at(p, c);
    &&& chain_laid(p, g, c, n)
    &&& width_before(clause.body, n) <= usize::MAX
    &&& head_terms(columns_after(clause.body, n), clause.head.args) is Some
    &&& g.operators[head] == NodeView::Project(terms_at(p, c))
    &&& clause.head.name < p.names.len()
    &&& g.outputs[feeder_at(p, c, n)].contains((head as usize, 0usize))
    &&& g.outputs[head].contains((input_of(clause.head.name), 0usize))
}

/// Whether the tables of the relations of `p` and the nodes of its first
/// `k` clauses stand in `g`.
pub open spec fn laid(p: ProgramView, g: Graph, k: int) -> bool {
    &&& g.wf()
    &&& 0 <= k <= p.clauses.len()
    &&& nodes_before(p, k) <= g.operators.len()
    &&& forall|r: int| 0 <= r < p.names.len() ==> #[trigger] relation_laid(g, r)
    &&& forall|c: int| 0 <= c < k ==> #[trigger] line_laid(p, g, c)
}

/// Whether the graph `more` is the graph `g` with nodes and edges added:
/// the nodes of `g` are in it as they are in `g`, and with them their
/// edges.
pub open spec fn extends(g: Graph, more: Graph) -> bool {
    &&& g.operators.is_prefix_of(more.operators)
    &&& g.outputs.len() <= more.outputs.len()
    &&& forall|i: int|
        0 <= i < g.outputs.len() ==> (#[trigger] g.outputs[i]).is_prefix_of(more.outputs[i])
}

/// The nodes of a clause are counted from the tables on.
pub proof fn lemma_nodes_before(p: ProgramView, c: int, k: int)
    requires
        0 <= c <= k,
    ensures
        2 * p.names.len() <= nodes_before(p, c) <= nodes_before(p, k),
        c < k ==> head_at(p, c) < nodes_before(p, k),
    decreases k,
{
    if c < k {
        lemma_nodes_before(p, c, k - 1);
        if c < k - 1 {
        }
    } else if c > 0 {
        lemma_nodes_before(p, c - 1, k - 1);
    }
}

/// An edge of a graph is an edge of every graph that extends it.
pub proof fn lemma_extends_edge(g: Graph, more: Graph, from: int, to: (usize, usize))
    requires
        extends(g, more),
        0 <= from < g.outputs.len(),
        g.outputs[from].contains(to),
    ensures
        more.outputs[from].contains(to),
{
    let k = choose|k: int| 0 <= k < g.outputs[from].len() && g.outputs[from][k] == to;
    assert(g.outputs[from].is_prefix_of(more.outputs[from]));
    assert(more.outputs[from][k] == to);
}

/// A graph with one node more extends the graph.
pub proof fn lemma_with_op_extends(g: Graph, state: NodeView)
    requires
        g.wf(),
    ensures
        extends(g, g.with_op(state)),
{
    let more = g.with_op(state);
    assert forall|i: int| 0 <= i < g.outputs.len() implies (#[trigger] g.outputs[i]).is_prefix_of(
        more.outputs[i],
    ) by {
        assert(more.outputs[i] == g.outputs[i]);
    }
}

/// A graph with one edge more extends the graph.
pub proof fn lemma_with_edge_extends(g: Graph, from: int, to: (usize, usize))
    requires
        g.wf(),
        0 <= from < g.operators.len(),
    ensures
        extends(g, g.with_edge(from, to)),
{
    let more = g.with_edge(from, to);
    assert forall|i: int| 0 <= i < g.outputs.len() implies (#[trigger] g.outputs[i]).is_prefix_of(
        more.outputs[i],
    ) by {
        if i != from {
            assert(more.outputs[i] == g.outputs[i]);
        }
    }
}

/// What extends a graph that extends another extends that one.
pub proof fn lemma_extends_twice(a: Graph, b: Graph, c: Graph)
    requires
        extends(a, b),
        extends(b, c),
    ensures
        extends(a, c),
{
    assert forall|i: int| 0 <= i < a.outputs.len() implies (#[trigger] a.outputs[i]).is_prefix_of(
        c.outputs[i],
    ) by {
        assert(a.outputs[i].is_prefix_of(b.outputs[i]));
        assert(b.outputs[i].is_prefix_of(c.outputs[i]));
    }
}

/// The relations that stand in a graph stand in every graph that extends
/// it.
pub proof fn lemma_relation_laid_extends(g: Graph, more: Graph, r: int)
    requires
        g.wf(),
        extends(g, more),
        0 <= r,
        2 * r + 1 < g.operators.len(),
        relation_laid(g, r),
    ensures
        relation_laid(more, r),
{
    assert(more.operators[2 * r] == g.operators[2 * r]);
    assert(more.operators[2 * r + 1] == g.operators[2 * r + 1]);
    lemma_extends_edge(g, more, 2 * r, ((2 * r + 1) as usize, 0usize));
}

/// A stage that stands in a graph stands in every graph that extends it.
pub proof fn lemma_stage_laid_extends(p: ProgramView, g: Graph, more: Graph, c: int, j: int)
    requires
        g.wf(),
        extends(g, more),
        0 <= c,
        0 <= j,
        2 * p.names.len() <= g.operators.len(),
        join_at(p, c, j) < g.operators.len(),
        stage_laid(p, g, c, j),
    ensures
        stage_laid(p, more, c, j),
{
    let body = p.clauses[c].body;
    let filter = filter_at(p, c, j);
    let join = join_at(p, c, j);
    lemma_nodes_before(p, 0, c);
    assert(more.operators[filter] == g.operators[filter]);
    assert(more.operators[join] == g.operators[join]);
    lemma_extends_edge(g, more, output_of(body[j].name) as int, (filter as usize, 0usize));
    lemma_extends_edge(g, more, filter, (join as usize, 1usize));
    lemma_extends_edge(g, more, feeder_at(p, c, j), (join as usize, 0usize));
}

/// A chain that stands in a graph stands in every graph that extends it.
pub proof fn lemma_chain_laid_extends(p: ProgramView, g: Graph, more: Graph, c: int, j: int)
    requires
        g.wf(),
        extends(g, more),
        0 <= c,
        0 <= j,
        2 * p.names.len() <= g.operators.len(),
        filter_at(p, c, j) <= g.operators.len(),
        chain_laid(p, g, c, j),
    ensures
        chain_laid(p, more, c, j),
{
    lemma_nodes_before(p, 0, c);
    assert(more.operators[seed_at(p, c)] == g.operators[seed_at(p, c)]);
    assert forall|i: int| 0 <= i < j implies #[trigger] stage_laid(p, more, c, i) by {
        assert(stage_laid(p, g, c, i));
        lemma_stage_laid_extends(p, g, more, c, i);
    }
}

/// The nodes of a clause that stand in a graph stand in every graph that
/// extends it.
pub proof fn lemma_line_laid_extends(p: ProgramView, g: Graph, more: Graph, c: int)
    requires
        g.wf(),
        extends(g, more),
        0 <= c,
        2 * p.names.len() <= g.operators.len(),
        head_at(p, c) < g.operators.len(),
        line_laid(p, g, c),
    ensures
        line_laid(p, more, c),
{
    let n = p.clauses[c].body.len() as int;
    let head = head_at(p, c);
    lemma_chain_laid_extends(p, g, more, c, n);
    lemma_nodes_before(p, 0, c);
    assert(more.operators[head] == g.operators[head]);
    lemma_extends_edge(g, more, feeder_at(p, c, n), (head as usize, 0usize));
    lemma_extends_edge(g, more, head, (input_of(p.clauses[c].head.name), 0usize));
}

/// What stands in a graph stands in every graph that extends it.
pub proof fn lemma_laid_extends(p: ProgramView, g: Graph, more: Graph, k: int)
    requires
        laid(p, g, k),
        extends(g, more),
        more.wf(),
    ensures
        laid(p, more, k),
{
    lemma_nodes_before(p, 0, k);
    assert forall|r: int| 0 <= r < p.names.len() implies #[trigger] relation_laid(more, r) by {
        assert(relation_laid(g, r));
        lemma_relation_laid_extends(g, more, r);
    }
    assert forall|c: int| 0 <= c < k implies #[trigger] line_laid(p, more, c) by {
        assert(line_laid(p, g, c));
        lemma_nodes_before(p, c, k);
        lemma_line_laid_extends(p, g, more, c);
    }
}

/// Whether the graph `g` has not run: no row waits, the tables of its
/// joins and of its relations are empty, and every source holds the one
/// empty row and is scheduled.
pub open spec fn fresh(g: Graph) -> bool {
    &&& forall|i: int| 0 <= i < g.inboxes.len() ==> (#[trigger] g.inboxes[i]).len() == 0
    &&& forall|i: int|
        0 <= i < g.operators.len() ==> match #[trigger] g.operators[i] {
            NodeView::Source(rows) => rows == seq![Seq::<i64>::empty()] && g.schedule.contains(
                i as usize,
            ),
            NodeView::Distinct(table) => table.len() == 0,
            NodeView::Join(s) => s.left.len() == 0 && s.right.len() == 0,
            _ => true,
        }
}

/// Whether a node in state `state` has not run.
pub open spec fn fresh_state(state: NodeView) -> bool {
    match state {
        NodeView::Source(rows) => rows == seq![Seq::<i64>::empty()],
        NodeView::Distinct(table) => table.len() == 0,
        NodeView::Join(s) => s.left.len() == 0 && s.right.len() == 0,
        _ => true,
    }
}

/// A graph that has not run has not run with one node more that has not
/// run.
pub proof fn lemma_with_op_fresh(g: Graph, state: NodeView)
    requires
        g.wf(),
        fresh(g),
        fresh_state(state),
    ensures
        fresh(g.with_op(state)),
{
    let more = g.with_op(state);
    let id = g.operators.len() as usize;
    assert forall|i: int| 0 <= i < more.inboxes.len() implies (#[trigger] more.inboxes[i]).len()
        == 0 by {
        if i < g.inboxes.len() {
            assert(more.inboxes[i] == g.inboxes[i]);
        }
    }
    assert forall|x: usize| g.schedule.contains(x) implies more.schedule.contains(x) by {
        let k = choose|k: int| 0 <= k < g.schedule.len() && g.schedule[k] == x;
        assert(more.schedule[k] == x);
    }
    if !g.schedule.contains(id) {
        assert(more.schedule[g.schedule.len() as int] == id);
    }
    assert forall|i: int| 0 <= i < more.operators.len() implies match #[trigger] more.operators[i] {
        NodeView::Source(rows) => rows == seq![Seq::<i64>::empty()] && more.schedule.contains(
            i as usize,
        ),
        NodeView::Distinct(table) => table.len() == 0,
        NodeView::Join(s) => s.left.len() == 0 && s.right.len() == 0,
        _ => true,
    } by {
        if i < g.operators.len() {
            assert(more.operators[i] == g.operators[i]);
        }
    }
}

/// A graph that has not run has not run with one edge more.
pub proof fn lemma_with_edge_fresh(g: Graph, from: int, to: (usize, usize))
    requires
        fresh(g),
    ensures
        fresh(g.with_edge(from, to)),
{
}

/// The tables of `n` relations, declared in the empty graph, stand there,
/// and the graph has not run.
pub proof fn lemma_declare_laid(n: nat)
    requires
        2 * n + 1 < OUTBOX,
    ensures
        declare(Graph::empty(), n).wf(),
        declare(Graph::empty(), n).operators.len() == 2 * n,
        fresh(declare(Graph::empty(), n)),
        forall|r: int| 0 <= r < n ==> #[trigger] relation_laid(declare(Graph::empty(), n), r),
    decreases n,
{
    let g = declare(Graph::empty(), n);
    if n == 0 {
        assert(Graph::empty().schedule.no_duplicates());
    } else {
        lemma_declare_laid((n - 1) as nat);
        let g0 = declare(Graph::empty(), (n - 1) as nat);
        let g1 = g0.with_op(NodeView::Merge);
        let g2 = g1.with_op(NodeView::Distinct(Seq::empty()));
        let from = g0.operators.len() as int;
        let to = ((from + 1) as usize, 0usize);
        assert(g == g2.with_edge(from, to));
        lemma_with_op_fresh(g0, NodeView::Merge);
        lemma_with_op_fresh(g1, NodeView::Distinct(Seq::empty()));
        lemma_with_edge_fresh(g2, from, to);
        lemma_with_op_extends(g0, NodeView::Merge);
        lemma_with_op_extends(g1, NodeView::Distinct(Seq::empty()));
        lemma_with_edge_extends(g2, from, to);
        lemma_extends_twice(g0, g1, g2);
        lemma_extends_twice(g0, g2, g);
        assert(g.outputs[from][g.outputs[from].len() - 1] == to);
        assert forall|r: int| 0 <= r < n implies #[trigger] relation_laid(g, r) by {
            if r < n - 1 {
                assert(relation_laid(g0, r));
                lemma_relation_laid_extends(g0, g, r);
            }
        }
    }
}

/// With one predicate more joined to the chain of a clause, the stage of
/// that predicate stands in the graph.
pub proof fn lemma_extend_laid(
    p: ProgramView,
    c: int,
    j: int,
    declared: Seq<bool>,
    chain: Chain,
)
    requires
        0 <= c < p.clauses.len(),
        0 <= j < p.clauses[c].body.len(),
        declared.len() == p.names.len(),
        laid(p, chain.net, c),
        chain_laid(p, chain.net, c, j),
        fresh(chain.net),
        chain.net.operators.len() == filter_at(p, c, j),
        chain.acc == feeder_at(p, c, j),
        chain.offset == width_before(p.clauses[c].body, j),
        chain.columns == columns_after(p.clauses[c].body, j),
        extend(declared, chain, p.clauses[c].body[j]) is Ok,
    ensures
        ({
            let next = extend(declared, chain, p.clauses[c].body[j]).unwrap();
            &&& laid(p, next.net, c)
            &&& chain_laid(p, next.net, c, j + 1)
            &&& fresh(next.net)
            &&& next.net.operators.len() == filter_at(p, c, j + 1)
            &&& next.acc == feeder_at(p, c, j + 1)
            &&& next.offset == width_before(p.clauses[c].body, j + 1)
            &&& next.columns == columns_after(p.clauses[c].body, j + 1)
        }),
{
    let body = p.clauses[c].body;
    let pred = body[j];
    let b = bind(chain.columns, pred.args, chain.offset);
    let n = chain.net.operators.len() as usize;
    let table = output_of(pred.name) as int;
    let filter_state = NodeView::Filter(conditions_at(body, j));
    let join_state = NodeView::Join(JoinState::empty(b.left_key, b.right_key));
    let g0 = chain.net;
    let g1 = g0.with_op(filter_state);
    let g2 = g1.with_edge(table, (n, 0usize));
    let g3 = g2.with_op(join_state);
    let g4 = g3.with_edge(chain.acc as int, ((n + 1) as usize, 0usize));
    let g5 = g4.with_edge(n as int, ((n + 1) as usize, 1usize));
    let next = extend(declared, chain, pred).unwrap();
    assert(next.net == g5);
    lemma_nodes_before(p, 0, c);
    lemma_with_op_fresh(g0, filter_state);
    lemma_with_op_fresh(g2, join_state);
    lemma_with_op_extends(g0, filter_state);
    lemma_with_edge_extends(g1, table, (n, 0usize));
    lemma_with_op_extends(g2, join_state);
    lemma_with_edge_extends(g3, chain.acc as int, ((n + 1) as usize, 0usize));
    lemma_with_edge_extends(g4, n as int, ((n + 1) as usize, 1usize));
    lemma_extends_twice(g0, g1, g2);
    lemma_extends_twice(g0, g2, g3);
    lemma_extends_twice(g0, g3, g4);
    lemma_extends_twice(g0, g4, g5);
    lemma_extends_twice(g2, g3, g4);
    lemma_extends_twice(g2, g4, g5);
    lemma_extends_twice(g4, g5, g5);
    lemma_laid_extends(p, g0, g5, c);
    lemma_chain_laid_extends(p, g0, g5, c, j);
    assert(g2.outputs[table][g2.outputs[table].len() - 1] == (n, 0usize));
    lemma_extends_edge(g2, g5, table, (n, 0usize));
    assert(g4.outputs[chain.acc as int][g4.outputs[chain.acc as int].len() - 1] == (
        (n + 1) as usize,
        0usize,
    ));
    lemma_extends_edge(g4, g5, chain.acc as int, ((n + 1) as usize, 0usize));
    assert(g5.outputs[n as int][g5.outputs[n as int].len() - 1] == ((n + 1) as usize, 1usize));
    assert(g5.operators[n as int] == filter_state);
    assert(g5.operators[n + 1] == join_state);
    assert(stage_laid(p, g5, c, j));
    assert forall|i: int| 0 <= i < j + 1 implies #[trigger] stage_laid(p, g5, c, i) by {}
}

/// With the first `j` predicates of its body joined to the chain of a
/// clause, their stages stand in the graph.
pub proof fn lemma_extend_all_laid(
    p: ProgramView,
    c: int,
    j: int,
    declared: Seq<bool>,
    seeded: Chain,
)
    requires
        0 <= c < p.clauses.len(),
        0 <= j <= p.clauses[c].body.len(),
        declared.len() == p.names.len(),
        laid(p, seeded.net, c),
        chain_laid(p, seeded.net, c, 0),
        fresh(seeded.net),
        seeded.net.operators.len() == filter_at(p, c, 0),
        seeded.acc == seed_at(p, c),
        seeded.offset == 0,
        seeded.columns == Seq::<(usize, usize)>::empty(),
        extend_all(declared, seeded, p.clauses[c].body.take(j)) is Ok,
    ensures
        ({
            let chain = extend_all(declared, seeded, p.clauses[c].body.take(j)).unwrap();
            &&& laid(p, chain.net, c)
            &&& chain_laid(p, chain.net, c, j)
            &&& fresh(chain.net)
            &&& chain.net.operators.len() == filter_at(p, c, j)
            &&& chain.acc == feeder_at(p, c, j)
            &&& chain.offset == width_before(p.clauses[c].body, j)
            &&& chain.columns == columns_after(p.clauses[c].body, j)
        }),
    decreases j,
{
    let body = p.clauses[c].body;
    if j > 0 {
        assert(body.take(j).drop_last() =~= body.take(j - 1));
        assert(body.take(j).last() == body[j - 1]);
        lemma_extend_all_laid(p, c, j - 1, declared, seeded);
        lemma_extend_laid(
            p,
            c,
            j - 1,
            declared,
            extend_all(declared, seeded, body.take(j - 1)).unwrap(),
        );
    }
}

/// With one clause more built into a graph, the nodes of that clause stand
/// in it.
pub proof fn lemma_build_clause_laid(p: ProgramView, c: int, declared: Seq<bool>, net: Graph)
    requires
        0 <= c < p.clauses.len(),
        declared.len() == p.names.len(),
        p.clauses[c].head.name < p.names.len(),
        laid(p, net, c),
        fresh(net),
        net.operators.len() == nodes_before(p, c),
        build_clause(declared, net, p.clauses[c]) is Ok,
    ensures
        laid(p, build_clause(declared, net, p.clauses[c]).unwrap(), c + 1),
        fresh(build_clause(declared, net, p.clauses[c]).unwrap()),
        build_clause(declared, net, p.clauses[c]).unwrap().operators.len() == nodes_before(
            p,
            c + 1,
        ),
{
    let clause = p.clauses[c];
    let body = clause.body;
    let n = body.len() as int;
    let source = NodeView::Source(seq![Seq::<i64>::empty()]);
    let seeded = Chain {
        net: net.with_op(source),
        acc: net.operators.len() as usize,
        offset: 0,
        columns: Seq::empty(),
    };
    lemma_nodes_before(p, 0, c);
    lemma_with_op_fresh(net, source);
    lemma_with_op_extends(net, source);
    lemma_laid_extends(p, net, seeded.net, c);
    assert(body.take(n) =~= body);
    lemma_extend_all_laid(p, c, n, declared, seeded);
    let chain = extend_all(declared, seeded, body).unwrap();
    let terms = head_terms(chain.columns, clause.head.args).unwrap();
    let state = NodeView::Project(terms);
    let at = chain.net.operators.len() as usize;
    let g0 = chain.net;
    let g1 = g0.with_op(state);
    let g2 = g1.with_edge(chain.acc as int, (at, 0usize));
    let to = (input_of(clause.head.name), 0usize);
    let g3 = g2.with_edge(at as int, to);
    let g = build_clause(declared, net, clause).unwrap();
    assert(g == g3);
    lemma_with_op_fresh(g0, state);
    lemma_with_op_extends(g0, state);
    lemma_with_edge_extends(g1, chain.acc as int, (at, 0usize));
    lemma_with_edge_extends(g2, at as int, to);
    lemma_extends_twice(g0, g1, g2);
    lemma_extends_twice(g0, g2, g3);
    lemma_laid_extends(p, g0, g3, c);
    lemma_chain_laid_extends(p, g0, g3, c, n);
    assert(g2.outputs[chain.acc as int][g2.outputs[chain.acc as int].len() - 1] == (at, 0usize));
    lemma_extends_edge(g2, g3, chain.acc as int, (at, 0usize));
    assert(g3.outputs[at as int][g3.outputs[at as int].len() - 1] == to);
    assert(g3.operators[at as int] == state);
    assert(line_laid(p, g3, c));
    assert forall|k: int| 0 <= k < c + 1 implies #[trigger] line_laid(p, g3, k) by {}
}

/// With the first `k` clauses of a program built into the graph of its
/// tables, the nodes of these clauses stand in it.
pub proof fn lemma_build_clauses_laid(p: ProgramView, k: int)
    requires
        p.wf(),
        2 * p.names.len() + 1 < OUTBOX,
        0 <= k <= p.clauses.len(),
        build_clauses(
            declared_flags(p),
            declare(Graph::empty(), p.names.len()),
            p.clauses.take(k),
        ) is Ok,
    ensures
        ({
            let g = build_clauses(
                declared_flags(p),
                declare(Graph::empty(), p.names.len()),
                p.clauses.take(k),
            ).unwrap();
            &&& laid(p, g, k)
            &&& fresh(g)
            &&& g.operators.len() == nodes_before(p, k)
        }),
    decreases k,
{
    let start = declare(Graph::empty(), p.names.len());
    if k == 0 {
        lemma_declare_laid(p.names.len());
    } else {
        assert(p.clauses.take(k).drop_last() =~= p.clauses.take(k - 1));
        assert(p.clauses.take(k).last() == p.clauses[k - 1]);
        lemma_build_clauses_laid(p, k - 1);
        lemma_build_clause_laid(
            p,
            k - 1,
            declared_flags(p),
            build_clauses(declared_flags(p), start, p.clauses.take(k - 1)).unwrap(),
        );
    }
}

/// In the graph of a program, the tables of its relations and the nodes
/// of its clauses stand where they belong, and the graph has not run.
pub proof fn lemma_compile_laid(p: ProgramView)
    requires
        p.wf(),
        compile(p) is Ok,
    ensures
        laid(p, compile(p).unwrap(), p.clauses.len() as int),
        fresh(compile(p).unwrap()),
        compile(p).unwrap().operators.len() == nodes_before(p, p.clauses.len() as int),
{
    assert(p.clauses.take(p.clauses.len() as int) =~= p.clauses);
    lemma_build_clauses_laid(p, p.clauses.len() as int);
}

} // verus!
