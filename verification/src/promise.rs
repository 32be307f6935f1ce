//! Promises about the rows that travel through a graph: what holds of every
//! row that reaches a node or leaves it, whatever the order in which nodes
//! run.

use crate::babyflow::run_for;
use crate::babyflow::step;
use crate::babyflow::Net;
use crate::babyflow::Operator;
use crate::babyflow::OUTBOX;
use crate::distinct::sift;
use crate::join::lemma_arrive_all_keeps_keys;
use crate::join::JoinState;
use crate::node::arriving;
use crate::node::fire;
use crate::node::on_port;
use crate::node::pick_all;
use crate::node::select;
use crate::node::Node;
use crate::node::NodeView;
use crate::query::Graph;
use crate::relation::meets_all;
use crate::relation::pick;
use crate::relation::probe;
use crate::relation::project;
use vstd::prelude::*;

verus! {

/// What is promised of the rows of one node: of those that reach its first
/// input, of those that reach its second, and of those that it sends.
pub struct Promise {
    pub first: spec_fn(Seq<i64>) -> bool,
    pub second: spec_fn(Seq<i64>) -> bool,
    pub sent: spec_fn(Seq<i64>) -> bool,
}

impl Promise {
    /// Whether `row` may reach the input `port`. Nothing is promised of
    /// inputs that no node reads.
    pub open spec fn takes(self, port: usize, row: Seq<i64>) -> bool {
        if port == 0 {
            (self.first)(row)
        } else if port == 1 {
            (self.second)(row)
        } else {
            true
        }
    }

    /// Whether `row` may be sent.
    pub open spec fn sends(self, row: Seq<i64>) -> bool {
        (self.sent)(row)
    }

    /// Whether every one of `rows` may reach the input `port`.
    pub open spec fn takes_all(self, port: usize, rows: Seq<Seq<i64>>) -> bool {
        forall|i: int| 0 <= i < rows.len() ==> self.takes(port, #[trigger] rows[i])
    }

    /// Whether every one of `rows` may be sent.
    pub open spec fn sends_all(self, rows: Seq<Seq<i64>>) -> bool {
        forall|i: int| 0 <= i < rows.len() ==> self.sends(#[trigger] rows[i])
    }

    /// Whether a node in state `state` keeps the promise: the rows that
    /// it holds are as promised, and of rows that reach it as promised it
    /// makes rows that it may send.
    pub open spec fn kept_by(self, state: NodeView) -> bool {
        match state {
            NodeView::Source(rows) => self.sends_all(rows),
            NodeView::Sink(rows) => self.takes_all(0, rows),
            NodeView::Project(terms) => forall|row: Seq<i64>|
                #![trigger self.takes(0, row)]
                self.takes(0, row) && pick(row, terms) is Some ==> self.sends(
                    pick(row, terms).unwrap(),
                ),
            NodeView::Filter(conditions) => forall|row: Seq<i64>|
                #![trigger self.takes(0, row)]
                self.takes(0, row) && meets_all(row, conditions) ==> self.sends(row),
            NodeView::Union => forall|row: Seq<i64>|
                #![trigger self.sends(row)]
                self.takes(0, row) || self.takes(1, row) ==> self.sends(row),
            NodeView::Distinct(table) => {
                &&& self.sends_all(table)
                &&& forall|row: Seq<i64>|
                    #![trigger self.takes(0, row)]
                    self.takes(0, row) ==> self.sends(row)
            },
            NodeView::Join(tables) => {
                &&& self.takes_all(0, tables.left)
                &&& self.takes_all(1, tables.right)
                &&& self.joins(tables.left_key, tables.right_key)
            },
            NodeView::Merge => forall|row: Seq<i64>|
                #![trigger self.takes(0, row)]
                self.takes(0, row) ==> self.sends(row),
        }
    }

    /// Whether a row that may reach the first input, followed by one that
    /// may reach the second and agrees with it on the key columns, may be
    /// sent.
    pub open spec fn joins(self, left_key: Seq<usize>, right_key: Seq<usize>) -> bool {
        forall|w: Seq<i64>, u: Seq<i64>|
            #![trigger self.takes(0, w), self.takes(1, u)]
            self.takes(0, w) && self.takes(1, u) && project(w, left_key) is Some && project(
                w,
                left_key,
            ) == project(u, right_key) ==> self.sends(w + u)
    }
}

/// The rows of one input among the messages that wait are among those
/// messages, with that input.
pub proof fn lemma_on_port_rows(pending: Seq<(Seq<i64>, usize)>, port: usize)
    ensures
        forall|i: int|
            0 <= i < on_port(pending, port).len() ==> exists|k: int|
                0 <= k < pending.len() && #[trigger] pending[k] == (
                    #[trigger] on_port(pending, port)[i],
                    port,
                ),
    decreases pending.len(),
{
    if pending.len() > 0 {
        let rest = pending.drop_first();
        lemma_on_port_rows(rest, port);
        let rows = on_port(pending, port);
        assert forall|i: int| 0 <= i < rows.len() implies exists|k: int|
            0 <= k < pending.len() && #[trigger] pending[k] == (#[trigger] rows[i], port) by {
            if pending[0].1 == port {
                if i == 0 {
                    assert(pending[0] == (rows[0], port));
                } else {
                    assert(rows[i] == on_port(rest, port)[i - 1]);
                    let k = choose|k: int|
                        0 <= k < rest.len() && #[trigger] rest[k] == (on_port(rest, port)[i - 1], port);
                    assert(pending[k + 1] == (rows[i], port));
                }
            } else {
                let k = choose|k: int|
                    0 <= k < rest.len() && #[trigger] rest[k] == (on_port(rest, port)[i], port);
                assert(pending[k + 1] == (rows[i], port));
            }
        }
    }
}

/// What terms make of rows that may reach a node may be sent, where the
/// node keeps the promise.
proof fn lemma_pick_all_sends(pr: Promise, rows: Seq<Seq<i64>>, terms: Seq<crate::relation::Term>)
    requires
        pr.kept_by(NodeView::Project(terms)),
        pr.takes_all(0, rows),
    ensures
        pr.sends_all(pick_all(rows, terms)),
    decreases rows.len(),
{
    if rows.len() > 0 {
        let head = rows.drop_last();
        assert forall|i: int| 0 <= i < head.len() implies pr.takes(0, #[trigger] head[i]) by {
            assert(head[i] == rows[i]);
        }
        lemma_pick_all_sends(pr, head, terms);
        assert(pr.takes(0, rows[rows.len() - 1]));
    }
}

/// The rows that pass a filter may be sent, where the filter keeps the
/// promise.
proof fn lemma_select_sends(
    pr: Promise,
    rows: Seq<Seq<i64>>,
    conditions: Seq<crate::relation::Condition>,
)
    requires
        pr.kept_by(NodeView::Filter(conditions)),
        pr.takes_all(0, rows),
    ensures
        pr.sends_all(select(rows, conditions)),
    decreases rows.len(),
{
    if rows.len() > 0 {
        let head = rows.drop_last();
        assert forall|i: int| 0 <= i < head.len() implies pr.takes(0, #[trigger] head[i]) by {
            assert(head[i] == rows[i]);
        }
        lemma_select_sends(pr, head, conditions);
        assert(pr.takes(0, rows[rows.len() - 1]));
    }
}

/// The rows that pass a table, and those that it comes to hold, may be
/// sent, where the table keeps the promise.
proof fn lemma_sift_sends(pr: Promise, table: Seq<Seq<i64>>, input: Seq<Seq<i64>>)
    requires
        pr.kept_by(NodeView::Distinct(table)),
        pr.takes_all(0, input),
    ensures
        pr.sends_all(sift(table, input).table),
        pr.sends_all(sift(table, input).passed),
    decreases input.len(),
{
    if input.len() > 0 {
        let head = input.drop_last();
        assert forall|i: int| 0 <= i < head.len() implies pr.takes(0, #[trigger] head[i]) by {
            assert(head[i] == input[i]);
        }
        lemma_sift_sends(pr, table, head);
        assert(pr.takes(0, input[input.len() - 1]));
    }
}

/// What a row that reaches the first input of a join finds in the right
/// table may be sent.
proof fn lemma_probe_right_sends(
    pr: Promise,
    row: Seq<i64>,
    key: Seq<i64>,
    left_key: Seq<usize>,
    table: Seq<Seq<i64>>,
    right_key: Seq<usize>,
)
    requires
        pr.joins(left_key, right_key),
        pr.takes(0, row),
        project(row, left_key) == Some(key),
        pr.takes_all(1, table),
    ensures
        pr.sends_all(probe(row, key, table, right_key, true)),
    decreases table.len(),
{
    if table.len() > 0 {
        let head = table.drop_last();
        assert forall|i: int| 0 <= i < head.len() implies pr.takes(1, #[trigger] head[i]) by {
            assert(head[i] == table[i]);
        }
        lemma_probe_right_sends(pr, row, key, left_key, head, right_key);
        assert(pr.takes(1, table[table.len() - 1]));
    }
}

/// What a row that reaches the second input of a join finds in the left
/// table may be sent.
proof fn lemma_probe_left_sends(
    pr: Promise,
    row: Seq<i64>,
    key: Seq<i64>,
    right_key: Seq<usize>,
    table: Seq<Seq<i64>>,
    left_key: Seq<usize>,
)
    requires
        pr.joins(left_key, right_key),
        pr.takes(1, row),
        project(row, right_key) == Some(key),
        pr.takes_all(0, table),
    ensures
        pr.sends_all(probe(row, key, table, left_key, false)),
    decreases table.len(),
{
    if table.len() > 0 {
        let head = table.drop_last();
        assert forall|i: int| 0 <= i < head.len() implies pr.takes(0, #[trigger] head[i]) by {
            assert(head[i] == table[i]);
        }
        lemma_probe_left_sends(pr, row, key, right_key, head, left_key);
        assert(pr.takes(0, table[table.len() - 1]));
    }
}

/// Whether every one of `events` may arrive as it does.
pub open spec fn may_arrive(pr: Promise, events: Seq<(Seq<i64>, usize)>) -> bool {
    forall|k: int| 0 <= k < events.len() ==> pr.takes((#[trigger] events[k]).1, events[k].0)
}

/// Arrivals as promised leave a join that keeps the promise keeping it,
/// and what they bring about may be sent.
proof fn lemma_arrive_all_sends(pr: Promise, s: JoinState, events: Seq<(Seq<i64>, usize)>)
    requires
        pr.kept_by(NodeView::Join(s)),
        may_arrive(pr, events),
    ensures
        pr.kept_by(NodeView::Join(s.arrive_all(events).next)),
        pr.sends_all(s.arrive_all(events).emitted),
    decreases events.len(),
{
    if events.len() > 0 {
        let head = events.drop_last();
        assert forall|k: int| 0 <= k < head.len() implies pr.takes(
            (#[trigger] head[k]).1,
            head[k].0,
        ) by {
            assert(head[k] == events[k]);
        }
        lemma_arrive_all_sends(pr, s, head);
        lemma_arrive_all_keeps_keys(s, head);
        let before = s.arrive_all(head);
        let row = events.last().0;
        let port = events.last().1;
        assert(pr.takes(events[events.len() - 1].1, events[events.len() - 1].0));
        let last = before.next.arrive(row, port);
        if port == 0 && project(row, s.left_key) is Some {
            lemma_probe_right_sends(
                pr,
                row,
                project(row, before.next.left_key).unwrap(),
                before.next.left_key,
                before.next.right,
                before.next.right_key,
            );
        } else if port == 1 && project(row, s.right_key) is Some {
            lemma_probe_left_sends(
                pr,
                row,
                project(row, before.next.right_key).unwrap(),
                before.next.right_key,
                before.next.left,
                before.next.left_key,
            );
        }
        assert(pr.sends_all(last.emitted));
        assert(pr.kept_by(NodeView::Join(last.next)));
    }
}

/// One invocation on rows as promised leaves a node that keeps its promise
/// keeping it, and what the node sends may be sent.
pub proof fn lemma_fire_keeps(
    pr: Promise,
    state: NodeView,
    first: Seq<Seq<i64>>,
    second: Seq<Seq<i64>>,
)
    requires
        pr.kept_by(state),
        pr.takes_all(0, first),
        pr.takes_all(1, second),
    ensures
        pr.kept_by(fire(state, first, second).next),
        pr.sends_all(fire(state, first, second).sent),
{
    match state {
        NodeView::Source(rows) => {},
        NodeView::Sink(rows) => {},
        NodeView::Project(terms) => {
            lemma_pick_all_sends(pr, first, terms);
        },
        NodeView::Filter(conditions) => {
            lemma_select_sends(pr, first, conditions);
        },
        NodeView::Union => {},
        NodeView::Distinct(table) => {
            lemma_sift_sends(pr, table, first);
        },
        NodeView::Join(tables) => {
            let events = arriving(first, 0) + arriving(second, 1);
            assert forall|k: int| 0 <= k < events.len() implies pr.takes(
                (#[trigger] events[k]).1,
                events[k].0,
            ) by {
                if k < first.len() {
                    assert(events[k] == (first[k], 0usize));
                } else {
                    assert(events[k] == (second[k - first.len()], 1usize));
                }
            }
            lemma_arrive_all_sends(pr, tables, events);
        },
        NodeView::Merge => {},
    }
}

/// Whether what the node `from` may send may reach the input `to`.
pub open spec fn passes(promises: Seq<Promise>, from: int, to: (usize, usize)) -> bool {
    to.0 < promises.len() ==> forall|row: Seq<i64>|
        #![trigger promises[from].sends(row)]
        promises[from].sends(row) ==> promises[to.0 as int].takes(to.1, row)
}

/// Whether the graph `g` stands as `promises` say, one promise for each
/// node: every node keeps its promise, every row that waits for a node may
/// reach it, and along every edge what may be sent may arrive.
pub open spec fn promised(promises: Seq<Promise>, g: Graph) -> bool {
    &&& g.wf()
    &&& promises.len() == g.operators.len()
    &&& forall|i: int|
        0 <= i < g.operators.len() ==> (#[trigger] promises[i]).kept_by(g.operators[i])
    &&& forall|i: int, k: int|
        0 <= i < g.inboxes.len() && 0 <= k < g.inboxes[i].len() ==> promises[i].takes(
            (#[trigger] g.inboxes[i][k]).1,
            g.inboxes[i][k].0,
        )
    &&& forall|i: int, j: int|
        0 <= i < g.outputs.len() && 0 <= j < g.outputs[i].len() ==> passes(
            promises,
            i,
            #[trigger] g.outputs[i][j],
        )
}

/// A row handed to a subscriber that may take it leaves a graph standing
/// as promised.
proof fn lemma_deliver_promised(promises: Seq<Promise>, g: Graph, m: Seq<i64>, to: (usize, usize))
    requires
        promised(promises, g),
        to.0 < promises.len() ==> promises[to.0 as int].takes(to.1, m),
    ensures
        promised(promises, g.deliver(m, to)),
{
    let after = g.deliver(m, to);
    assert(after.wf());
    assert forall|i: int, k: int|
        0 <= i < after.inboxes.len() && 0 <= k < after.inboxes[i].len() implies promises[i].takes(
        (#[trigger] after.inboxes[i][k]).1,
        after.inboxes[i][k].0,
    ) by {
        if to.0 != OUTBOX && to.0 < g.inboxes.len() && i == to.0 {
            if k < g.inboxes[i].len() {
                assert(after.inboxes[i][k] == g.inboxes[i][k]);
            }
        } else {
            assert(after.inboxes[i] == g.inboxes[i]);
        }
    }
}

/// A row that the node `from` may send, handed to subscribers of `from`,
/// leaves a graph standing as promised.
proof fn lemma_fan_out_promised(
    promises: Seq<Promise>,
    g: Graph,
    from: int,
    m: Seq<i64>,
    targets: Seq<(usize, usize)>,
)
    requires
        promised(promises, g),
        0 <= from < promises.len(),
        promises[from].sends(m),
        forall|j: int| 0 <= j < targets.len() ==> passes(promises, from, #[trigger] targets[j]),
    ensures
        promised(promises, g.fan_out(m, targets)),
    decreases targets.len(),
{
    if targets.len() > 0 {
        let head = targets.drop_last();
        assert forall|j: int| 0 <= j < head.len() implies passes(promises, from, #[trigger] head[j]) by {
            assert(head[j] == targets[j]);
        }
        lemma_fan_out_promised(promises, g, from, m, head);
        assert(passes(promises, from, targets[targets.len() - 1]));
        lemma_deliver_promised(promises, g.fan_out(m, head), m, targets.last());
    }
}

/// Rows that the node `from` may send, handed on, leave a graph standing
/// as promised.
proof fn lemma_dispatch_promised(promises: Seq<Promise>, g: Graph, from: int, sent: Seq<Seq<i64>>)
    requires
        promised(promises, g),
        0 <= from < promises.len(),
        promises[from].sends_all(sent),
    ensures
        promised(promises, g.dispatch(from, sent)),
    decreases sent.len(),
{
    if sent.len() > 0 {
        let head = sent.drop_last();
        assert forall|i: int| 0 <= i < head.len() implies promises[from].sends(#[trigger] head[i]) by {
            assert(head[i] == sent[i]);
        }
        lemma_dispatch_promised(promises, g, from, head);
        assert(promises[from].sends(sent[sent.len() - 1]));
        lemma_fan_out_promised(promises, g.dispatch(from, head), from, sent.last(), g.outputs[from]);
    }
}

/// One invocation leaves a graph standing as promised.
pub proof fn lemma_step_promised(promises: Seq<Promise>, g: Graph)
    requires
        promised(promises, g),
    ensures
        promised(promises, step::<Vec<i64>, Node>(g)),
{
    if g.schedule.len() > 0 {
        let at = g.schedule[0] as int;
        let pr = promises[at];
        let pending = g.inboxes[at];
        let first = on_port(pending, 0);
        let second = on_port(pending, 1);
        lemma_on_port_rows(pending, 0);
        lemma_on_port_rows(pending, 1);
        assert forall|i: int| 0 <= i < first.len() implies pr.takes(0, #[trigger] first[i]) by {
            let k = choose|k: int|
                0 <= k < pending.len() && #[trigger] pending[k] == (first[i], 0usize);
            assert(pr.takes(g.inboxes[at][k].1, g.inboxes[at][k].0));
        }
        assert forall|i: int| 0 <= i < second.len() implies pr.takes(1, #[trigger] second[i]) by {
            let k = choose|k: int|
                0 <= k < pending.len() && #[trigger] pending[k] == (second[i], 1usize);
            assert(pr.takes(g.inboxes[at][k].1, g.inboxes[at][k].0));
        }
        lemma_fire_keeps(pr, g.operators[at], first, second);
        let r = <Node as Operator<Vec<i64>>>::react(g.operators[at], pending);
        let popped = Net {
            operators: g.operators.update(at, r.next),
            inboxes: g.inboxes.update(at, r.left),
            schedule: g.schedule.drop_first(),
            ..g
        };
        assert(popped.schedule.no_duplicates());
        assert forall|i: int| 0 <= i < popped.schedule.len() implies #[trigger] popped.schedule[i]
            < popped.operators.len() by {
            assert(popped.schedule[i] == g.schedule[i + 1]);
        }
        assert(popped.wf());
        assert forall|i: int, k: int|
            0 <= i < popped.inboxes.len() && 0 <= k < popped.inboxes[i].len() implies promises[i].takes(

            (#[trigger] popped.inboxes[i][k]).1,
            popped.inboxes[i][k].0,
        ) by {
            assert(i != at);
            assert(popped.inboxes[i] == g.inboxes[i]);
        }
        assert(promised(promises, popped));
        lemma_dispatch_promised(promises, popped, at, r.sent);
    }
}

/// However long a graph runs, it stands as promised where it did at the
/// start.
pub proof fn lemma_run_promised(promises: Seq<Promise>, g: Graph, budget: nat)
    requires
        promised(promises, g),
    ensures
        promised(promises, run_for::<Vec<i64>, Node>(g, budget)),
    decreases budget,
{
    if budget > 0 && g.schedule.len() > 0 {
        lemma_step_promised(promises, g);
        lemma_run_promised(promises, step::<Vec<i64>, Node>(g), (budget - 1) as nat);
    }
}

/// A graph stands as promised with one node more, where that node keeps
/// its promise.
pub proof fn lemma_with_op_promised(
    promises: Seq<Promise>,
    g: Graph,
    pr: Promise,
    state: NodeView,
)
    requires
        promised(promises, g),
        g.operators.len() + 1 < OUTBOX,
        pr.kept_by(state),
    ensures
        promised(promises.push(pr), g.with_op(state)),
{
    let more = promises.push(pr);
    let after = g.with_op(state);
    assert(after.wf());
    assert forall|i: int| 0 <= i < after.operators.len() implies (#[trigger] more[i]).kept_by(
        after.operators[i],
    ) by {
        if i < g.operators.len() {
            assert(more[i] == promises[i]);
        }
    }
    assert forall|i: int, k: int|
        0 <= i < after.inboxes.len() && 0 <= k < after.inboxes[i].len() implies more[i].takes(
        (#[trigger] after.inboxes[i][k]).1,
        after.inboxes[i][k].0,
    ) by {
        assert(after.inboxes[i] == g.inboxes[i]);
        assert(more[i] == promises[i]);
    }
    assert forall|i: int, j: int|
        0 <= i < after.outputs.len() && 0 <= j < after.outputs[i].len() implies passes(
        more,
        i,
        #[trigger] after.outputs[i][j],
    ) by {
        assert(after.outputs[i] == g.outputs[i]);
        let to = g.outputs[i][j];
        assert(passes(promises, i, to));
        assert(g.valid_target(to.0));
        if to.0 < more.len() {
            assert(more[to.0 as int] == promises[to.0 as int]);
            assert(more[i] == promises[i]);
        }
    }
}

/// A graph stands as promised with one edge more, where what may be sent
/// along it may arrive.
pub proof fn lemma_with_edge_promised(
    promises: Seq<Promise>,
    g: Graph,
    from: int,
    to: (usize, usize),
)
    requires
        promised(promises, g),
        0 <= from < g.operators.len(),
        to.0 < g.operators.len(),
        passes(promises, from, to),
    ensures
        promised(promises, g.with_edge(from, to)),
{
    let after = g.with_edge(from, to);
    assert(after.wf());
    assert forall|i: int, j: int|
        0 <= i < after.outputs.len() && 0 <= j < after.outputs[i].len() implies passes(
        promises,
        i,
        #[trigger] after.outputs[i][j],
    ) by {
        if i == from {
            if j < g.outputs[i].len() {
                assert(after.outputs[i][j] == g.outputs[i][j]);
            }
        } else {
            assert(after.outputs[i] == g.outputs[i]);
        }
    }
}

} // verus!
