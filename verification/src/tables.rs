//! What a sink behind a table comes to hold: the table, every row once.

use crate::babyflow::deliveries;
use crate::babyflow::lemma_dispatch_inbox;
use crate::babyflow::lemma_dispatch_keeps_shape;
use crate::babyflow::lemma_step_keeps_wf;
use crate::babyflow::ports_to;
use crate::babyflow::run_for;
use crate::babyflow::step;
use crate::babyflow::tagged;
use crate::babyflow::Net;
use crate::babyflow::Operator;
use crate::babyflow::OUTBOX;
use crate::babyflow::forgets_nothing;
use crate::babyflow::lemma_ports_to_none;
use crate::babyflow::lemma_rest_leaves_nothing_waiting;
use crate::babyflow::lemma_run_past_rest;
use crate::node::lemma_nodes_read_all;
use crate::compile::compile;
use crate::layout::lemma_compile_laid;
use crate::layout::lemma_nodes_before;
use crate::layout::relation_laid;
use crate::compile::kept;
use crate::compile::output_of;
use crate::compile::render;
use crate::node::NodeView;
use crate::program::ProgramView;
use crate::query::with_unary;
use crate::distinct::lemma_sift_grows;
use crate::distinct::lemma_sift_keeps_distinct;
use crate::distinct::sift;
use crate::node::arriving;
use crate::node::on_port;
use crate::node::Node;
use crate::query::table_of;
use crate::query::Graph;
use vstd::prelude::*;

verus! {

/// The rows of one input among messages that wait one behind the other
/// are those among the first, then those among the second.
pub proof fn lemma_on_port_of_both(
    a: Seq<(Seq<i64>, usize)>,
    b: Seq<(Seq<i64>, usize)>,
    port: usize,
)
    ensures
        on_port(a + b, port) == on_port(a, port) + on_port(b, port),
    decreases a.len(),
{
    if a.len() == 0 {
        assert(a + b =~= b);
        assert(on_port(a, port) + on_port(b, port) =~= on_port(b, port));
    } else {
        lemma_on_port_of_both(a.drop_first(), b, port);
        assert((a + b).drop_first() =~= a.drop_first() + b);
        assert((a + b)[0] == a[0]);
        assert(seq![a[0].0] + (on_port(a.drop_first(), port) + on_port(b, port)) =~= (seq![a[0].0]
            + on_port(a.drop_first(), port)) + on_port(b, port));
    }
}

/// Rows that arrive on one input are the rows of that input.
pub proof fn lemma_on_port_of_arriving(rows: Seq<Seq<i64>>, port: usize)
    ensures
        on_port(arriving(rows, port), port) == rows,
    decreases rows.len(),
{
    let tagged_rows = arriving(rows, port);
    if rows.len() > 0 {
        lemma_on_port_of_arriving(rows.drop_first(), port);
        assert(tagged_rows.drop_first() =~= arriving(rows.drop_first(), port));
        assert(seq![rows[0]] + rows.drop_first() =~= rows);
    }
}

/// What is sent to a subscriber's first input alone arrives there row by
/// row.
pub proof fn lemma_deliveries_to_first_input(sent: Seq<Seq<i64>>)
    ensures
        deliveries(sent, seq![0usize]) == arriving(sent, 0),
    decreases sent.len(),
{
    if sent.len() == 0 {
        assert(arriving(sent, 0) =~= Seq::<(Seq<i64>, usize)>::empty());
    } else {
        lemma_deliveries_to_first_input(sent.drop_last());
        assert(tagged(sent.last(), seq![0usize]) =~= seq![(sent.last(), 0usize)]);
        assert(arriving(sent.drop_last(), 0) + seq![(sent.last(), 0usize)] =~= arriving(sent, 0));
    }
}

/// What is sent to no subscriber arrives nowhere.
pub proof fn lemma_deliveries_to_no_input(sent: Seq<Seq<i64>>)
    ensures
        deliveries(sent, Seq::<usize>::empty()) == Seq::<(Seq<i64>, usize)>::empty(),
    decreases sent.len(),
{
    if sent.len() > 0 {
        lemma_deliveries_to_no_input(sent.drop_last());
        assert(tagged(sent.last(), Seq::<usize>::empty()) =~= Seq::<(Seq<i64>, usize)>::empty());
    }
}

/// Whether, in the graph `g`, the node `sink` is a sink that follows the
/// table `table` and nothing else: the first input of `sink` subscribes to
/// `table`, once, and none of its inputs to any other node; what `sink` has
/// kept and what waits for it are together what the table holds; the table
/// holds no row twice; and `sink` is scheduled where something waits for
/// it.
pub open spec fn follows(g: Graph, table: int, sink: int) -> bool {
    &&& g.wf()
    &&& 0 <= table < g.operators.len()
    &&& 0 <= sink < g.operators.len()
    &&& table != sink
    &&& g.operators[table] is Distinct
    &&& g.operators[sink] is Sink
    &&& table_of(g.operators[table]).no_duplicates()
    &&& kept(g.operators[sink]) + on_port(g.inboxes[sink], 0) == table_of(g.operators[table])
    &&& ports_to(g.outputs[table], sink as usize) == seq![0usize]
    &&& forall|i: int|
        0 <= i < g.outputs.len() && i != table ==> ports_to(#[trigger] g.outputs[i], sink as usize)
            == Seq::<usize>::empty()
    &&& on_port(g.inboxes[sink], 0).len() > 0 ==> g.schedule.contains(sink as usize)
}

/// A sink that follows a table follows it after one more invocation.
pub proof fn lemma_step_follows(g: Graph, table: int, sink: int)
    requires
        follows(g, table, sink),
    ensures
        follows(step::<Vec<i64>, Node>(g), table, sink),
{
    if g.schedule.len() > 0 {
        let at = g.schedule[0] as int;
        let r = <Node as Operator<Vec<i64>>>::react(g.operators[at], g.inboxes[at]);
        let popped = Net {
            operators: g.operators.update(at, r.next),
            inboxes: g.inboxes.update(at, r.left),
            schedule: g.schedule.drop_first(),
            ..g
        };
        let after = popped.dispatch(at, r.sent);
        lemma_step_keeps_wf::<Vec<i64>, Node>(g);
        lemma_dispatch_keeps_shape(popped, at, r.sent);
        lemma_dispatch_inbox(popped, at, r.sent, sink as usize);
        let waiting = on_port(g.inboxes[sink], 0);
        assert forall|id: usize| id != at && g.schedule.contains(id) implies popped.schedule.contains(
            id,
        ) by {
            let k = choose|k: int| 0 <= k < g.schedule.len() && g.schedule[k] == id;
            assert(popped.schedule[k - 1] == id);
        }
        if at == sink {
            assert(r.sent =~= Seq::<Seq<i64>>::empty());
            assert(after == popped);
            assert(on_port(after.inboxes[sink], 0) =~= Seq::<Seq<i64>>::empty());
            assert(kept(after.operators[sink]) + on_port(after.inboxes[sink], 0) =~= kept(
                g.operators[sink],
            ) + waiting);
        } else if at == table {
            let old_table = table_of(g.operators[table]);
            let first = on_port(g.inboxes[table], 0);
            lemma_sift_grows(old_table, first);
            lemma_sift_keeps_distinct(old_table, first);
            assert(r.sent == sift(old_table, first).passed);
            lemma_deliveries_to_first_input(r.sent);
            lemma_on_port_of_both(g.inboxes[sink], arriving(r.sent, 0), 0);
            lemma_on_port_of_arriving(r.sent, 0);
            assert(kept(g.operators[sink]) + (waiting + r.sent) =~= (kept(g.operators[sink])
                + waiting) + r.sent);
        } else {
            lemma_deliveries_to_no_input(r.sent);
            assert(after.inboxes[sink] =~= g.inboxes[sink]);
        }
    }
}

/// A sink that follows a table follows it however long the graph runs.
pub proof fn lemma_run_follows(g: Graph, budget: nat, table: int, sink: int)
    requires
        follows(g, table, sink),
    ensures
        follows(run_for::<Vec<i64>, Node>(g, budget), table, sink),
    decreases budget,
{
    if budget > 0 && g.schedule.len() > 0 {
        lemma_step_follows(g, table, sink);
        lemma_run_follows(step::<Vec<i64>, Node>(g), (budget - 1) as nat, table, sink);
    }
}

/// When a graph has come to rest, a sink that follows a table holds the
/// rows of the table, in their order: every row that the table has let
/// through, once.
pub proof fn lemma_sink_holds_table(g: Graph, table: int, sink: int)
    requires
        follows(g, table, sink),
        g.schedule.len() == 0,
    ensures
        kept(g.operators[sink]) == table_of(g.operators[table]),
        kept(g.operators[sink]).no_duplicates(),
{
    assert(!g.schedule.contains(sink as usize));
    assert(kept(g.operators[sink]) + on_port(g.inboxes[sink], 0) =~= kept(g.operators[sink]));
}

/// Whether the graph `g` holds the tables of `n` relations, each still
/// empty: it is well-formed, for the relation `r` the node `output_of(r)`
/// is a table that holds nothing, and no message waits.
pub open spec fn holds_tables(g: Graph, n: nat) -> bool {
    &&& g.wf()
    &&& 2 * n <= g.operators.len()
    &&& forall|r: int|
        0 <= r < n ==> #[trigger] g.operators[2 * r + 1] == NodeView::Distinct(Seq::empty())
    &&& forall|i: int| 0 <= i < g.inboxes.len() ==> (#[trigger] g.inboxes[i]).len() == 0
}

/// In the graph of a program the tables of its relations stand empty.
pub proof fn lemma_compile_holds_tables(p: ProgramView)
    requires
        p.wf(),
        compile(p) is Ok,
    ensures
        holds_tables(compile(p).unwrap(), p.names.len()),
{
    let g = compile(p).unwrap();
    lemma_compile_laid(p);
    lemma_nodes_before(p, 0, p.clauses.len() as int);
    assert forall|r: int| 0 <= r < p.names.len() implies #[trigger] g.operators[2 * r + 1]
        == NodeView::Distinct(Seq::empty()) by {
        assert(relation_laid(g, r));
        assert(table_of(g.operators[2 * r + 1]) =~= Seq::<Seq<i64>>::empty());
    }
}

/// A sink put behind a table of a graph that has not run follows that
/// table.
pub proof fn lemma_new_sink_follows(net: Graph, table: int)
    requires
        net.wf(),
        net.operators.len() + 1 < OUTBOX,
        0 <= table < net.operators.len(),
        net.operators[table] == NodeView::Distinct(Seq::empty()),
    ensures
        follows(
            with_unary(net, NodeView::Sink(Seq::empty()), table as usize),
            table,
            net.operators.len() as int,
        ),
{
    let sink = net.operators.len() as int;
    let g = with_unary(net, NodeView::Sink(Seq::empty()), table as usize);
    assert(g.wf());
    assert(on_port(g.inboxes[sink], 0) =~= Seq::<Seq<i64>>::empty());
    assert(kept(g.operators[sink]) + on_port(g.inboxes[sink], 0) =~= table_of(
        g.operators[table],
    ));
    assert forall|i: int| 0 <= i < net.outputs.len() implies ports_to(
        #[trigger] net.outputs[i],
        sink as usize,
    ) == Seq::<usize>::empty() by {
        lemma_ports_to_none(net.outputs[i], sink as usize);
    }
    assert(g.outputs[table].drop_last() =~= net.outputs[table]);
    assert forall|i: int| 0 <= i < g.outputs.len() && i != table implies ports_to(
        #[trigger] g.outputs[i],
        sink as usize,
    ) == Seq::<usize>::empty() by {
        if i < net.outputs.len() {
            assert(g.outputs[i] == net.outputs[i]);
        }
    }
}

/// Rendering a relation gives the rows of its table as it stands when the
/// graph has come to rest, in the order in which the table let them
/// through, and so no row twice.
pub proof fn lemma_render_gives_table(p: ProgramView, name: Seq<char>, budget: nat)
    requires
        p.wf(),
        render(p, name, budget) is Ok,
    ensures
        ({
            let relation = p.names.index_of(name) as usize;
            let net = compile(p).unwrap();
            let end = run_for::<Vec<i64>, Node>(
                with_unary(net, NodeView::Sink(Seq::empty()), output_of(relation)),
                budget,
            );
            &&& render(p, name, budget).unwrap() == table_of(
                end.operators[output_of(relation) as int],
            )
            &&& render(p, name, budget).unwrap().no_duplicates()
        }),
{
    let relation = p.names.index_of(name);
    assert(0 <= relation < p.names.len());
    let net = compile(p).unwrap();
    lemma_compile_holds_tables(p);
    let table = 2 * relation + 1;
    assert(net.operators[2 * relation + 1] == NodeView::Distinct(Seq::empty()));
    lemma_new_sink_follows(net, table);
    let sink = net.operators.len() as int;
    let start = with_unary(net, NodeView::Sink(Seq::empty()), table as usize);
    lemma_run_follows(start, budget, table, sink);
    lemma_sink_holds_table(run_for::<Vec<i64>, Node>(start, budget), table, sink);
}

/// Where rendering succeeds, the graph of the program has reached its
/// fixpoint: no node is scheduled, and no row waits for any node.
pub proof fn lemma_render_at_rest(p: ProgramView, name: Seq<char>, budget: nat)
    requires
        p.wf(),
        render(p, name, budget) is Ok,
    ensures
        ({
            let relation = p.names.index_of(name) as usize;
            let net = compile(p).unwrap();
            let end = run_for::<Vec<i64>, Node>(
                with_unary(net, NodeView::Sink(Seq::empty()), output_of(relation)),
                budget,
            );
            &&& end.schedule.len() == 0
            &&& forall|i: int| 0 <= i <= net.operators.len() ==> (#[trigger] end.inboxes[i]).len() == 0
        }),
{
    let relation = p.names.index_of(name);
    assert(0 <= relation < p.names.len());
    let net = compile(p).unwrap();
    lemma_compile_holds_tables(p);
    let start = with_unary(net, NodeView::Sink(Seq::empty()), output_of(relation as usize));
    assert(start.wf());
    assert forall|i: int| 0 <= i < start.inboxes.len() implies (#[trigger] start.inboxes[i]).len()
        == 0 by {
        if i < net.inboxes.len() {
            assert(start.inboxes[i] == net.inboxes[i]);
        }
    }
    assert(forgets_nothing(start));
    lemma_nodes_read_all();
    lemma_rest_leaves_nothing_waiting::<Vec<i64>, Node>(start, budget);
}

/// Where a budget is enough for rendering, every larger budget gives the
/// same rows.
pub proof fn lemma_render_with_more(p: ProgramView, name: Seq<char>, budget: nat, more: nat)
    requires
        render(p, name, budget) is Ok,
        budget <= more,
    ensures
        render(p, name, more) == render(p, name, budget),
{
    let net = compile(p).unwrap();
    let start = with_unary(
        net,
        NodeView::Sink(Seq::empty()),
        output_of(p.names.index_of(name) as usize),
    );
    lemma_run_past_rest::<Vec<i64>, Node>(start, budget, more);
}

} // verus!
