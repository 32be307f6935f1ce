//! Building a graph of relational operators, one operator after the other.

use crate::babyflow::clone_keeps_view;
use crate::babyflow::lemma_dispatch_keeps_shape;
use crate::babyflow::lemma_step_keeps_wf;
use crate::babyflow::run_for;
use crate::babyflow::step;
use crate::babyflow::Dataflow;
use crate::babyflow::InputPort;
use crate::babyflow::Net;
use crate::babyflow::OutputPort;
use crate::babyflow::OUTBOX;
use crate::distinct::lemma_sift_grows;
use crate::join::JoinState;
use crate::join::JoinTables;
use crate::node::on_port;
use crate::node::Node;
use crate::node::NodeView;
use crate::relation::copy_row;
use crate::relation::views;
use crate::relation::Condition;
use crate::relation::Term;
use vstd::prelude::*;

verus! {

/// The state of a graph of relational operators.
pub type Graph = Net<NodeView, Seq<i64>>;

/// The graph `net` with one node more, in state `state`, whose first input
/// subscribes to the node `from`.
pub open spec fn with_unary(net: Graph, state: NodeView, from: usize) -> Graph {
    net.with_op(state).with_edge(from as int, (net.operators.len() as usize, 0))
}

/// The graph `net` with one node more, in state `state`, whose first input
/// subscribes to the node `left` and whose second to the node `right`.
pub open spec fn with_binary(net: Graph, state: NodeView, left: usize, right: usize) -> Graph {
    net.with_op(state).with_edge(left as int, (net.operators.len() as usize, 0)).with_edge(
        right as int,
        (net.operators.len() as usize, 1),
    )
}

/// The table of a node that lets each row through once: the rows that it
/// has let through, oldest first.
pub open spec fn table_of(state: NodeView) -> Seq<Seq<i64>> {
    match state {
        NodeView::Distinct(table) => table,
        _ => Seq::empty(),
    }
}

/// One invocation takes no row out of a table: the table of a node holds
/// afterwards what it held, in the same order, and what it has let through
/// since.
pub proof fn lemma_step_keeps_tables(net: Graph, id: int)
    requires
        net.wf(),
        0 <= id < net.operators.len(),
        net.operators[id] is Distinct,
    ensures
        step::<Vec<i64>, Node>(net).operators.len() == net.operators.len(),
        step::<Vec<i64>, Node>(net).operators[id] is Distinct,
        table_of(net.operators[id]).is_prefix_of(
            table_of(step::<Vec<i64>, Node>(net).operators[id]),
        ),
{
    if net.schedule.len() > 0 {
        let at = net.schedule[0] as int;
        let r = <Node as crate::babyflow::Operator<Vec<i64>>>::react(
            net.operators[at],
            net.inboxes[at],
        );
        let popped = Net {
            operators: net.operators.update(at, r.next),
            inboxes: net.inboxes.update(at, r.left),
            schedule: net.schedule.drop_first(),
            ..net
        };
        lemma_dispatch_keeps_shape(popped, at, r.sent);
        if at == id {
            lemma_sift_grows(table_of(net.operators[id]), on_port(net.inboxes[at], 0));
        }
    }
}

/// What a relation has once derived it keeps: however long a graph runs,
/// the table of a node holds afterwards what it held before, in the same
/// order, followed by what it has let through since.
pub proof fn lemma_tables_only_grow(net: Graph, budget: nat, id: int)
    requires
        net.wf(),
        0 <= id < net.operators.len(),
        net.operators[id] is Distinct,
    ensures
        run_for::<Vec<i64>, Node>(net, budget).operators.len() == net.operators.len(),
        run_for::<Vec<i64>, Node>(net, budget).operators[id] is Distinct,
        table_of(net.operators[id]).is_prefix_of(
            table_of(run_for::<Vec<i64>, Node>(net, budget).operators[id]),
        ),
    decreases budget,
{
    if budget > 0 && net.schedule.len() > 0 {
        let next = step::<Vec<i64>, Node>(net);
        lemma_step_keeps_tables(net, id);
        lemma_step_keeps_wf::<Vec<i64>, Node>(net);
        lemma_tables_only_grow(next, (budget - 1) as nat, id);
    }
}

/// A graph of relational operators under construction.
pub struct Query {
    pub df: Dataflow<Vec<i64>, Node>,
}

impl View for Query {
    type V = Graph;

    open spec fn view(&self) -> Graph {
        self.df@
    }
}

/// The output of a node of a [`Query`]: what further operators are built on.
#[derive(Clone, Copy, Debug)]
pub struct Operator {
    output_port: OutputPort,
}

impl Query {
    /// The graph is in a state that its own functions leave it in.
    pub open spec fn wf(&self) -> bool {
        self.df.wf()
    }

    /// Whether the graph has room for `n` nodes more.
    pub open spec fn has_room(&self, n: int) -> bool {
        self@.operators.len() + n < OUTBOX
    }

    /// A graph without nodes.
    pub fn new() -> (q: Self)
        ensures
            q.wf(),
            q@ == Graph::empty(),
    {
        Query { df: Dataflow::new().0 }
    }

    /// Makes the input `p` a subscriber of `o`.
    pub fn wire(&mut self, o: Operator, p: InputPort)
        requires
            old(self).wf(),
            o.id() < old(self)@.operators.len(),
            old(self)@.valid_target(p.id()),
        ensures
            final(self).wf(),
            final(self)@ == old(self)@.with_edge(o.id() as int, (p.id(), p.port())),
    {
        self.df.add_edge(o.output_port, p)
    }

    /// Adds a node that sends `rows`, once, in their order.
    pub fn source(&mut self, rows: Vec<Vec<i64>>) -> (r: Operator)
        requires
            old(self).wf(),
            old(self).has_room(1),
        ensures
            final(self).wf(),
            final(self)@ == old(self)@.with_op(NodeView::Source(views(rows@))),
            r.id() == old(self)@.operators.len(),
    {
        let output_port = self.df.add_source(Node::Source(rows));
        Operator { output_port }
    }

    /// Adds a node that sends on every row it receives, and gives its input
    /// before anything subscribes to it: what is built on its output can be
    /// wired back into it.
    pub fn merge(&mut self) -> (r: (InputPort, Operator))
        requires
            old(self).wf(),
            old(self).has_room(1),
        ensures
            final(self).wf(),
            final(self)@ == old(self)@.with_op(NodeView::Merge),
            r.0.id() == old(self)@.operators.len(),
            r.0.port() == 0,
            r.1.id() == old(self)@.operators.len(),
    {
        let (input, output_port) = self.df.add_op(Node::Merge);
        (input, Operator { output_port })
    }

    /// Runs the graph until no node is scheduled, or until `budget` nodes
    /// have run. Says whether no node is scheduled at the end.
    pub fn run(&mut self, budget: usize) -> (quiescent: bool)
        requires
            old(self).wf(),
        ensures
            final(self).wf(),
            final(self)@ == run_for::<Vec<i64>, Node>(old(self)@, budget as nat),
            quiescent == (final(self)@.schedule.len() == 0),
    {
        assert(clone_keeps_view::<Vec<i64>>());
        self.df.run(budget)
    }

    /// A copy of the rows that the sink `sink` has kept, oldest first;
    /// nothing where `sink` is no sink of the graph.
    pub fn rows(&self, sink: usize) -> (r: Option<Vec<Vec<i64>>>)
        requires
            self.wf(),
        ensures
            match r {
                Some(rows) => sink < self@.operators.len() && self@.operators[sink as int]
                    == NodeView::Sink(views(rows@)),
                None => !(sink < self@.operators.len() && self@.operators[sink as int] is Sink),
            },
    {
        if sink >= self.df.len() {
            return None;
        }
        match self.df.operator(sink) {
            Node::Sink(kept) => {
                let mut rows: Vec<Vec<i64>> = Vec::new();
                let mut i: usize = 0;
                while i < kept.len()
                    invariant
                        i <= kept.len(),
                        views(rows@) == views(kept@).take(i as int),
                    decreases kept.len() - i,
                {
                    let ghost before = rows@;
                    rows.push(copy_row(&kept[i]));
                    proof {
                        assert(views(rows@) =~= views(before).push(kept@[i as int]@));
                        assert(views(kept@).take(i + 1) =~= views(kept@).take(i as int).push(
                            kept@[i as int]@,
                        ));
                    }
                    i += 1;
                }
                proof {
                    assert(views(kept@).take(i as int) =~= views(kept@));
                }
                Some(rows)
            },
            _ => None,
        }
    }
}

impl Operator {
    /// The node whose output this is.
    pub closed spec fn id(&self) -> usize {
        self.output_port.id()
    }

    /// The node whose output this is.
    pub fn node(&self) -> (r: usize)
        ensures
            r == self.id(),
    {
        self.output_port.node()
    }

    /// Lets each row through once: the first time it comes.
    pub fn distinct(self, q: &mut Query) -> (r: Operator)
        requires
            old(q).wf(),
            old(q).has_room(1),
            self.id() < old(q)@.operators.len(),
        ensures
            final(q).wf(),
            final(q)@ == with_unary(old(q)@, NodeView::Distinct(Seq::empty()), self.id()),
            r.id() == old(q)@.operators.len(),
    {
        let table: Vec<Vec<i64>> = Vec::new();
        proof {
            assert(views(table@) =~= Seq::empty());
        }
        let (input, output_port) = q.df.add_op(Node::Distinct(table));
        q.df.add_edge(self.output_port, input);
        Operator { output_port }
    }

    /// Sends on the rows of `self` and those of `rhs`, none dropped and none
    /// added.
    pub fn union(self, rhs: Operator, q: &mut Query) -> (r: Operator)
        requires
            old(q).wf(),
            old(q).has_room(1),
            self.id() < old(q)@.operators.len(),
            rhs.id() < old(q)@.operators.len(),
        ensures
            final(q).wf(),
            final(q)@ == with_binary(old(q)@, NodeView::Union, self.id(), rhs.id()),
            r.id() == old(q)@.operators.len(),
    {
        let (input1, input2, output_port) = q.df.add_op_2(Node::Union);
        q.df.add_edge(self.output_port, input1);
        q.df.add_edge(rhs.output_port, input2);
        Operator { output_port }
    }

    /// Sends on the rows that meet every one of `conditions`.
    pub fn filter(self, conditions: Vec<Condition>, q: &mut Query) -> (r: Operator)
        requires
            old(q).wf(),
            old(q).has_room(1),
            self.id() < old(q)@.operators.len(),
        ensures
            final(q).wf(),
            final(q)@ == with_unary(old(q)@, NodeView::Filter(conditions@), self.id()),
            r.id() == old(q)@.operators.len(),
    {
        let (input, output_port) = q.df.add_op(Node::Filter(conditions));
        q.df.add_edge(self.output_port, input);
        Operator { output_port }
    }

    /// Sends what `terms` make of each row.
    pub fn map(self, terms: Vec<Term>, q: &mut Query) -> (r: Operator)
        requires
            old(q).wf(),
            old(q).has_room(1),
            self.id() < old(q)@.operators.len(),
        ensures
            final(q).wf(),
            final(q)@ == with_unary(old(q)@, NodeView::Project(terms@), self.id()),
            r.id() == old(q)@.operators.len(),
    {
        let (input, output_port) = q.df.add_op(Node::Project(terms));
        q.df.add_edge(self.output_port, input);
        Operator { output_port }
    }

    /// Ends the chain in a sink that keeps every row, and gives the sink's
    /// id, by which [`Query::rows`] finds what it has kept.
    pub fn sink(self, q: &mut Query) -> (sink: usize)
        requires
            old(q).wf(),
            old(q).has_room(1),
            self.id() < old(q)@.operators.len(),
        ensures
            final(q).wf(),
            final(q)@ == with_unary(old(q)@, NodeView::Sink(Seq::empty()), self.id()),
            sink == old(q)@.operators.len(),
    {
        let kept: Vec<Vec<i64>> = Vec::new();
        proof {
            assert(views(kept@) =~= Seq::empty());
        }
        let sink = q.df.len();
        let input = q.df.add_sink(Node::Sink(kept));
        q.df.add_edge(self.output_port, input);
        sink
    }

    /// Joins the rows of `self` with those of `rhs` that agree with them on
    /// the key columns: `left_key` names the columns of a row of `self`,
    /// `right_key` those of a row of `rhs`.
    pub fn join(
        self,
        rhs: Operator,
        left_key: Vec<usize>,
        right_key: Vec<usize>,
        q: &mut Query,
    ) -> (r: Operator)
        requires
            old(q).wf(),
            old(q).has_room(1),
            self.id() < old(q)@.operators.len(),
            rhs.id() < old(q)@.operators.len(),
        ensures
            final(q).wf(),
            final(q)@ == with_binary(
                old(q)@,
                NodeView::Join(JoinState::empty(left_key@, right_key@)),
                self.id(),
                rhs.id(),
            ),
            r.id() == old(q)@.operators.len(),
    {
        let tables = JoinTables::new(left_key, right_key);
        let (input1, input2, output_port) = q.df.add_op_2(Node::Join(tables));
        q.df.add_edge(self.output_port, input1);
        q.df.add_edge(rhs.output_port, input2);
        Operator { output_port }
    }
}

} // verus!
