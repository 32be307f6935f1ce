//! The relational operators as nodes of a graph: what each kind does with
//! the rows that wait on its inputs.

use crate::babyflow::Ctx;
use crate::babyflow::Operator;
use crate::babyflow::Reaction;
use crate::distinct::holds_row;
use crate::distinct::sift;
use crate::join::lemma_arrive_all_in_runs;
use crate::join::JoinState;
use crate::join::JoinTables;
use crate::relation::copy_row;
use crate::relation::meets_all;
use crate::relation::pick;
use crate::relation::pick_row;
use crate::relation::row_meets_all;
use crate::relation::views;
use crate::relation::Condition;
use crate::relation::Term;
use std::collections::VecDeque;
use vstd::prelude::*;

verus! {

/// The values that wait on one input of a node, oldest first.
pub struct RecvCtx<T> {
    inputs: VecDeque<T>,
}

impl<T: View> RecvCtx<T> {
    /// The values that wait, oldest first.
    pub closed spec fn waiting(&self) -> Seq<T::V> {
        self.inputs@.map_values(|t: T| t@)
    }

    /// An input on which nothing waits.
    pub fn new() -> (r: Self)
        ensures
            r.waiting() == Seq::<T::V>::empty(),
    {
        let r = RecvCtx { inputs: VecDeque::new() };
        proof {
            assert(r.waiting() =~= Seq::<T::V>::empty());
        }
        r
    }

    /// Puts `t` before everything that waits.
    pub fn unpull(&mut self, t: T)
        ensures
            final(self).waiting() == seq![t@] + old(self).waiting(),
    {
        self.inputs.push_front(t);
        proof {
            assert(self.waiting() =~= seq![t@] + old(self).waiting());
        }
    }

    /// Takes the value that has waited longest.
    pub fn pull(&mut self) -> (r: Option<T>)
        ensures
            match r {
                Some(t) => {
                    &&& old(self).waiting().len() > 0
                    &&& t@ == old(self).waiting()[0]
                    &&& final(self).waiting() == old(self).waiting().drop_first()
                },
                None => old(self).waiting().len() == 0 && final(self).waiting() == old(
                    self,
                ).waiting(),
            },
    {
        let r = self.inputs.pop_front();
        proof {
            assert(self.waiting() =~= if r is Some {
                old(self).waiting().drop_first()
            } else {
                old(self).waiting()
            });
        }
        r
    }
}

/// The values that a node has sent while it runs, in their order.
pub struct SendCtx<O> {
    outputs: Vec<O>,
}

impl<O: View> SendCtx<O> {
    /// The values sent so far, oldest first.
    pub closed spec fn sent(&self) -> Seq<O::V> {
        self.outputs@.map_values(|o: O| o@)
    }

    /// An output to which nothing was sent.
    pub fn new() -> (r: Self)
        ensures
            r.sent() == Seq::<O::V>::empty(),
    {
        let r = SendCtx { outputs: Vec::new() };
        proof {
            assert(r.sent() =~= Seq::<O::V>::empty());
        }
        r
    }

    /// Sends `o`.
    pub fn push(&mut self, o: O)
        ensures
            final(self).sent() == old(self).sent().push(o@),
    {
        self.outputs.push(o);
        proof {
            assert(self.sent() =~= old(self).sent().push(o@));
        }
    }

    /// Sends the values of `batch`, in their order.
    pub fn push_all(&mut self, batch: Vec<O>)
        ensures
            final(self).sent() == old(self).sent() + batch@.map_values(|o: O| o@),
    {
        let mut batch = batch;
        let ghost all = batch@;
        self.outputs.append(&mut batch);
        proof {
            assert(self.sent() =~= old(self).sent() + all.map_values(|o: O| o@));
        }
    }

    /// Everything that was sent, oldest first.
    pub fn into_sent(self) -> (r: Vec<O>)
        ensures
            r@.map_values(|o: O| o@) == self.sent(),
    {
        self.outputs
    }
}

/// The rows of `pending` that arrived on the input `port`, in their order.
pub open spec fn on_port(pending: Seq<(Seq<i64>, usize)>, port: usize) -> Seq<Seq<i64>>
    decreases pending.len(),
{
    if pending.len() == 0 {
        Seq::empty()
    } else {
        let rest = on_port(pending.drop_first(), port);
        if pending[0].1 == port {
            seq![pending[0].0] + rest
        } else {
            rest
        }
    }
}

/// The rows `rows`, each marked as arriving on the input `port`.
pub open spec fn arriving(rows: Seq<Seq<i64>>, port: usize) -> Seq<(Seq<i64>, usize)> {
    rows.map_values(|r: Seq<i64>| (r, port))
}

/// What `terms` make of each of `rows` that has the columns they take, in
/// the order of `rows`.
pub open spec fn pick_all(rows: Seq<Seq<i64>>, terms: Seq<Term>) -> Seq<Seq<i64>>
    decreases rows.len(),
{
    if rows.len() == 0 {
        Seq::empty()
    } else {
        let rest = pick_all(rows.drop_last(), terms);
        match pick(rows.last(), terms) {
            Some(p) => rest.push(p),
            None => rest,
        }
    }
}

/// The rows of `rows` that meet every one of `conditions`, in their order.
pub open spec fn select(rows: Seq<Seq<i64>>, conditions: Seq<Condition>) -> Seq<Seq<i64>>
    decreases rows.len(),
{
    if rows.len() == 0 {
        Seq::empty()
    } else {
        let rest = select(rows.drop_last(), conditions);
        if meets_all(rows.last(), conditions) {
            rest.push(rows.last())
        } else {
            rest
        }
    }
}

/// A relational operator.
pub enum Node {
    /// Sends the rows it holds, once, in their order.
    Source(Vec<Vec<i64>>),
    /// Keeps every row it receives, in the order of arrival.
    Sink(Vec<Vec<i64>>),
    /// Sends what its terms make of each row it receives. A row that lacks
    /// a column that they take is dropped.
    Project(Vec<Term>),
    /// Sends on the rows that meet all its conditions.
    Filter(Vec<Condition>),
    /// Sends on the rows that wait on its first input, then those that wait
    /// on its second.
    Union,
    /// Sends on each row the first time it receives it, and keeps it.
    Distinct(Vec<Vec<i64>>),
    /// Joins the rows of its first input with those of its second, on their
    /// key columns.
    Join(JoinTables),
    /// Sends on every row it receives.
    Merge,
}

/// The state of a [`Node`].
pub enum NodeView {
    Source(Seq<Seq<i64>>),
    Sink(Seq<Seq<i64>>),
    Project(Seq<Term>),
    Filter(Seq<Condition>),
    Union,
    Distinct(Seq<Seq<i64>>),
    Join(JoinState),
    Merge,
}

impl View for Node {
    type V = NodeView;

    open spec fn view(&self) -> NodeView {
        match self {
            Node::Source(rows) => NodeView::Source(views(rows@)),
            Node::Sink(rows) => NodeView::Sink(views(rows@)),
            Node::Project(terms) => NodeView::Project(terms@),
            Node::Filter(conditions) => NodeView::Filter(conditions@),
            Node::Union => NodeView::Union,
            Node::Distinct(table) => NodeView::Distinct(views(table@)),
            Node::Join(tables) => NodeView::Join(tables@),
            Node::Merge => NodeView::Merge,
        }
    }
}

/// What a node makes of one invocation.
pub struct Outcome {
    pub next: NodeView,
    pub sent: Seq<Seq<i64>>,
}

/// What a node in state `state` does when `first` waits on its first input
/// and `second` on its second.
pub open spec fn fire(state: NodeView, first: Seq<Seq<i64>>, second: Seq<Seq<i64>>) -> Outcome {
    match state {
        NodeView::Source(rows) => Outcome { next: NodeView::Source(Seq::empty()), sent: rows },
        NodeView::Sink(rows) => Outcome { next: NodeView::Sink(rows + first), sent: Seq::empty() },
        NodeView::Project(terms) => Outcome { next: state, sent: pick_all(first, terms) },
        NodeView::Filter(conditions) => Outcome { next: state, sent: select(first, conditions) },
        NodeView::Union => Outcome { next: state, sent: first + second },
        NodeView::Distinct(table) => Outcome {
            next: NodeView::Distinct(sift(table, first).table),
            sent: sift(table, first).passed,
        },
        NodeView::Join(tables) => {
            let end = tables.arrive_all(arriving(first, 0) + arriving(second, 1));
            Outcome { next: NodeView::Join(end.next), sent: end.emitted }
        },
        NodeView::Merge => Outcome { next: state, sent: first },
    }
}

/// A node reads everything that waits for it.
pub proof fn lemma_nodes_read_all()
    ensures
        crate::babyflow::reads_all::<Vec<i64>, Node>(),
{
    assert forall|state: NodeView, pending: Seq<(Seq<i64>, usize)>|
        (#[trigger] <Node as Operator<Vec<i64>>>::react(state, pending)).left.len() == 0 by {}
}

/// A union drops no row and adds none: what it sends is, as a multiset,
/// what waits on its first input together with what waits on its second.
pub proof fn lemma_union_keeps_every_row(first: Seq<Seq<i64>>, second: Seq<Seq<i64>>)
    ensures
        fire(NodeView::Union, first, second).next == NodeView::Union,
        fire(NodeView::Union, first, second).sent.to_multiset() == first.to_multiset().add(
            second.to_multiset(),
        ),
{
    vstd::seq_lib::lemma_multiset_commutative(first, second);
}

/// Parts what waits in `c` by the input it arrived on: the rows of the
/// first input, and those of the second, each oldest first. Rows that
/// arrived on any other input are dropped.
pub fn split(c: &mut Ctx<Vec<i64>>) -> (r: (RecvCtx<Vec<i64>>, RecvCtx<Vec<i64>>))
    ensures
        final(c).pending() == Seq::<(Seq<i64>, usize)>::empty(),
        final(c).sent() == old(c).sent(),
        r.0.waiting() == on_port(old(c).pending(), 0),
        r.1.waiting() == on_port(old(c).pending(), 1),
{
    let mut first: RecvCtx<Vec<i64>> = RecvCtx::new();
    let mut second: RecvCtx<Vec<i64>> = RecvCtx::new();
    let ghost all = c.pending();
    let ghost mut done: int = 0;
    loop
        invariant
            0 <= done <= all.len(),
            all == old(c).pending(),
            c.sent() == old(c).sent(),
            c.pending() == all.take(all.len() - done),
            first.waiting() == on_port(all.skip(all.len() - done), 0),
            second.waiting() == on_port(all.skip(all.len() - done), 1),
        ensures
            c.pending() == Seq::<(Seq<i64>, usize)>::empty(),
            c.sent() == old(c).sent(),
            first.waiting() == on_port(all, 0),
            second.waiting() == on_port(all, 1),
        decreases all.len() - done,
    {
        match c.recv() {
            Some((row, port)) => {
                proof {
                    let tail = all.skip(all.len() - done - 1);
                    assert(tail[0] == (row@, port));
                    assert(tail.drop_first() =~= all.skip(all.len() - done));
                    assert(all.take(all.len() - done).drop_last() =~= all.take(
                        all.len() - done - 1,
                    ));
                }
                if port == 0 {
                    first.unpull(row);
                } else if port == 1 {
                    second.unpull(row);
                }
                proof {
                    done = done + 1;
                }
            },
            None => {
                proof {
                    assert(all.skip(0) =~= all);
                }
                break ;
            },
        }
    }
    (first, second)
}

/// Sends on everything that waits on `recv`.
pub fn forward(recv: &mut RecvCtx<Vec<i64>>, send: &mut SendCtx<Vec<i64>>)
    ensures
        final(recv).waiting() == Seq::<Seq<i64>>::empty(),
        final(send).sent() == old(send).sent() + old(recv).waiting(),
{
    let ghost all = recv.waiting();
    let ghost mut done: int = 0;
    loop
        invariant
            0 <= done <= all.len(),
            recv.waiting() == all.skip(done),
            send.sent() == old(send).sent() + all.take(done),
        ensures
            recv.waiting() == Seq::<Seq<i64>>::empty(),
            send.sent() == old(send).sent() + all,
        decreases all.len() - done,
    {
        match recv.pull() {
            Some(v) => {
                send.push(v);
                proof {
                    assert(all.skip(done).drop_first() =~= all.skip(done + 1));
                    assert(old(send).sent() + all.take(done + 1) =~= (old(send).sent() + all.take(
                        done,
                    )).push(all[done]));
                    done = done + 1;
                }
            },
            None => {
                proof {
                    assert(all.take(done) =~= all);
                }
                break ;
            },
        }
    }
}

/// Keeps everything that waits on `recv`, behind what `kept` holds.
pub fn collect(kept: &mut Vec<Vec<i64>>, recv: &mut RecvCtx<Vec<i64>>)
    ensures
        final(recv).waiting() == Seq::<Seq<i64>>::empty(),
        views(final(kept)@) == views(old(kept)@) + old(recv).waiting(),
{
    let ghost all = recv.waiting();
    let ghost mut done: int = 0;
    loop
        invariant
            0 <= done <= all.len(),
            recv.waiting() == all.skip(done),
            views(kept@) == views(old(kept)@) + all.take(done),
        ensures
            recv.waiting() == Seq::<Seq<i64>>::empty(),
            views(kept@) == views(old(kept)@) + all,
        decreases all.len() - done,
    {
        match recv.pull() {
            Some(v) => {
                let ghost before = kept@;
                kept.push(v);
                proof {
                    assert(views(kept@) =~= views(before).push(v@));
                    assert(all.skip(done).drop_first() =~= all.skip(done + 1));
                    assert(views(old(kept)@) + all.take(done + 1) =~= (views(old(kept)@)
                        + all.take(done)).push(all[done]));
                    done = done + 1;
                }
            },
            None => {
                proof {
                    assert(all.take(done) =~= all);
                }
                break ;
            },
        }
    }
}

/// Sends what `terms` make of each row that waits on `recv`.
pub fn apply(terms: &Vec<Term>, recv: &mut RecvCtx<Vec<i64>>, send: &mut SendCtx<Vec<i64>>)
    ensures
        final(recv).waiting() == Seq::<Seq<i64>>::empty(),
        final(send).sent() == old(send).sent() + pick_all(old(recv).waiting(), terms@),
{
    let ghost all = recv.waiting();
    let ghost mut done: int = 0;
    loop
        invariant
            0 <= done <= all.len(),
            recv.waiting() == all.skip(done),
            send.sent() == old(send).sent() + pick_all(all.take(done), terms@),
        ensures
            recv.waiting() == Seq::<Seq<i64>>::empty(),
            send.sent() == old(send).sent() + pick_all(all, terms@),
        decreases all.len() - done,
    {
        match recv.pull() {
            Some(v) => {
                proof {
                    assert(all.skip(done).drop_first() =~= all.skip(done + 1));
                    assert(all.take(done + 1).drop_last() =~= all.take(done));
                    assert(all.take(done + 1).last() == v@);
                }
                match pick_row(&v, terms) {
                    Some(p) => {
                        send.push(p);
                        proof {
                            assert(old(send).sent() + pick_all(all.take(done + 1), terms@) =~= (old(
                                send,
                            ).sent() + pick_all(all.take(done), terms@)).push(p@));
                        }
                    },
                    None => {},
                }
                proof {
                    done = done + 1;
                }
            },
            None => {
                proof {
                    assert(all.take(done) =~= all);
                }
                break ;
            },
        }
    }
}

/// Sends on the rows that wait on `recv` and meet every one of
/// `conditions`.
pub fn keep(
    conditions: &Vec<Condition>,
    recv: &mut RecvCtx<Vec<i64>>,
    send: &mut SendCtx<Vec<i64>>,
)
    ensures
        final(recv).waiting() == Seq::<Seq<i64>>::empty(),
        final(send).sent() == old(send).sent() + select(old(recv).waiting(), conditions@),
{
    let ghost all = recv.waiting();
    let ghost mut done: int = 0;
    loop
        invariant
            0 <= done <= all.len(),
            recv.waiting() == all.skip(done),
            send.sent() == old(send).sent() + select(all.take(done), conditions@),
        ensures
            recv.waiting() == Seq::<Seq<i64>>::empty(),
            send.sent() == old(send).sent() + select(all, conditions@),
        decreases all.len() - done,
    {
        match recv.pull() {
            Some(v) => {
                proof {
                    assert(all.skip(done).drop_first() =~= all.skip(done + 1));
                    assert(all.take(done + 1).drop_last() =~= all.take(done));
                    assert(all.take(done + 1).last() == v@);
                }
                if row_meets_all(&v, conditions) {
                    send.push(v);
                    proof {
                        assert(old(send).sent() + select(all.take(done + 1), conditions@) =~= (old(
                            send,
                        ).sent() + select(all.take(done), conditions@)).push(all[done]));
                    }
                }
                proof {
                    done = done + 1;
                }
            },
            None => {
                proof {
                    assert(all.take(done) =~= all);
                }
                break ;
            },
        }
    }
}

/// Sends on each row that waits on `recv` and that `table` does not hold
/// yet, and enters it in `table`.
pub fn dedup(
    table: &mut Vec<Vec<i64>>,
    recv: &mut RecvCtx<Vec<i64>>,
    send: &mut SendCtx<Vec<i64>>,
)
    ensures
        final(recv).waiting() == Seq::<Seq<i64>>::empty(),
        views(final(table)@) == sift(views(old(table)@), old(recv).waiting()).table,
        final(send).sent() == old(send).sent() + sift(
            views(old(table)@),
            old(recv).waiting(),
        ).passed,
{
    let ghost all = recv.waiting();
    let ghost start = views(table@);
    let ghost mut done: int = 0;
    loop
        invariant
            0 <= done <= all.len(),
            start == views(old(table)@),
            recv.waiting() == all.skip(done),
            views(table@) == sift(start, all.take(done)).table,
            send.sent() == old(send).sent() + sift(start, all.take(done)).passed,
        ensures
            recv.waiting() == Seq::<Seq<i64>>::empty(),
            views(table@) == sift(start, all).table,
            send.sent() == old(send).sent() + sift(start, all).passed,
        decreases all.len() - done,
    {
        match recv.pull() {
            Some(v) => {
                proof {
                    assert(all.skip(done).drop_first() =~= all.skip(done + 1));
                    assert(all.take(done + 1).drop_last() =~= all.take(done));
                    assert(all.take(done + 1).last() == v@);
                }
                if !holds_row(table, &v) {
                    let ghost before = table@;
                    table.push(copy_row(&v));
                    send.push(v);
                    proof {
                        assert(views(table@) =~= views(before).push(v@));
                        assert(old(send).sent() + sift(start, all.take(done + 1)).passed =~= (old(
                            send,
                        ).sent() + sift(start, all.take(done)).passed).push(v@));
                    }
                }
                proof {
                    done = done + 1;
                }
            },
            None => {
                proof {
                    assert(all.take(done) =~= all);
                }
                break ;
            },
        }
    }
}

/// Takes into `tables` every row that waits on `recv`, as arriving on the
/// input `port`, and sends the joined rows that they bring about.
pub fn feed(
    tables: &mut JoinTables,
    recv: &mut RecvCtx<Vec<i64>>,
    port: usize,
    send: &mut SendCtx<Vec<i64>>,
)
    ensures
        final(recv).waiting() == Seq::<Seq<i64>>::empty(),
        final(tables)@ == old(tables)@.arrive_all(arriving(old(recv).waiting(), port)).next,
        final(send).sent() == old(send).sent() + old(tables)@.arrive_all(
            arriving(old(recv).waiting(), port),
        ).emitted,
{
    let ghost all = recv.waiting();
    let ghost events = arriving(all, port);
    let ghost start = tables@;
    let ghost mut done: int = 0;
    loop
        invariant
            0 <= done <= all.len(),
            events == arriving(all, port),
            start == old(tables)@,
            recv.waiting() == all.skip(done),
            tables@ == start.arrive_all(events.take(done)).next,
            send.sent() == old(send).sent() + start.arrive_all(events.take(done)).emitted,
        ensures
            recv.waiting() == Seq::<Seq<i64>>::empty(),
            tables@ == start.arrive_all(events).next,
            send.sent() == old(send).sent() + start.arrive_all(events).emitted,
        decreases all.len() - done,
    {
        match recv.pull() {
            Some(v) => {
                proof {
                    assert(all.skip(done).drop_first() =~= all.skip(done + 1));
                    assert(events.take(done + 1).drop_last() =~= events.take(done));
                    assert(events.take(done + 1).last() == (v@, port));
                }
                let ghost sent = send.sent();
                let out = tables.arrive(v, port);
                proof {
                    assert(out@.map_values(|o: Vec<i64>| o@) =~= views(out@));
                }
                send.push_all(out);
                proof {
                    let before = start.arrive_all(events.take(done));
                    assert(sent + views(out@) =~= old(send).sent() + (before.emitted + views(
                        out@,
                    )));
                    done = done + 1;
                }
            },
            None => {
                proof {
                    assert(events.take(done) =~= events);
                }
                break ;
            },
        }
    }
}

impl Operator<Vec<i64>> for Node {
    open spec fn react(state: NodeView, pending: Seq<(Seq<i64>, usize)>) -> Reaction<
        NodeView,
        Seq<i64>,
    > {
        let outcome = fire(state, on_port(pending, 0), on_port(pending, 1));
        Reaction { next: outcome.next, left: Seq::empty(), sent: outcome.sent }
    }

    fn run(&mut self, c: &mut Ctx<Vec<i64>>) {
        let (mut first, mut second) = split(c);
        let mut send: SendCtx<Vec<i64>> = SendCtx::new();
        match self {
            Node::Source(rows) => {
                let mut held: Vec<Vec<i64>> = Vec::new();
                std::mem::swap(rows, &mut held);
                proof {
                    assert(views(rows@) =~= Seq::empty());
                    assert(held@.map_values(|o: Vec<i64>| o@) =~= views(held@));
                }
                send.push_all(held);
            },
            Node::Sink(rows) => {
                collect(rows, &mut first);
            },
            Node::Project(terms) => {
                apply(terms, &mut first, &mut send);
            },
            Node::Filter(conditions) => {
                keep(conditions, &mut first, &mut send);
            },
            Node::Union => {
                forward(&mut first, &mut send);
                forward(&mut second, &mut send);
            },
            Node::Distinct(table) => {
                dedup(table, &mut first, &mut send);
            },
            Node::Join(tables) => {
                proof {
                    lemma_arrive_all_in_runs(
                        tables@,
                        arriving(first.waiting(), 0),
                        arriving(second.waiting(), 1),
                    );
                }
                feed(tables, &mut first, 0, &mut send);
                feed(tables, &mut second, 1, &mut send);
            },
            Node::Merge => {
                forward(&mut first, &mut send);
            },
        }
        c.send_all(send.into_sent());
    }
}

} // verus!
