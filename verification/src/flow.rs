//! Where rows go: what one invocation does to the rows that wait for a
//! node, and what each kind of node makes of the rows that reach it.

use crate::babyflow::lemma_dispatch_inbox;
use crate::babyflow::lemma_dispatch_keeps_shape;
use crate::babyflow::lemma_fan_out_keeps_shape;
use crate::babyflow::step;
use crate::babyflow::Net;
use crate::babyflow::Operator;
use crate::babyflow::OUTBOX;
use crate::distinct::sift;
use crate::join::lemma_arrive_all_keeps_keys;
use crate::join::JoinState;
use crate::node::fire;
use crate::node::on_port;
use crate::node::pick_all;
use crate::node::select;
use crate::node::Node;
use crate::query::Graph;
use crate::relation::meets_all;
use crate::relation::pick;
use crate::relation::probe;
use crate::relation::project;
use crate::relation::Condition;
use crate::relation::Term;
use vstd::prelude::*;

verus! {

/// Whether the message `m` waits for the input `port` of the operator
/// `id`.
pub open spec fn waits<S, V>(net: Net<S, V>, id: int, port: usize, m: V) -> bool {
    0 <= id < net.inboxes.len() && net.inboxes[id].contains((m, port))
}

/// A message handed to a subscriber leaves every message waiting that
/// waited.
pub proof fn lemma_deliver_keeps_waiting<S, V>(
    net: Net<S, V>,
    x: V,
    to: (usize, usize),
    id: int,
    port: usize,
    m: V,
)
    requires
        waits(net, id, port, m),
    ensures
        waits(net.deliver(x, to), id, port, m),
{
    let k = choose|k: int| 0 <= k < net.inboxes[id].len() && net.inboxes[id][k] == (m, port);
    let after = net.deliver(x, to);
    if to.0 != OUTBOX && to.0 < net.inboxes.len() && to.0 == id {
        assert(after.inboxes[id][k] == (m, port));
    }
}

/// A message handed to subscribers leaves every message waiting that
/// waited.
pub proof fn lemma_fan_out_keeps_waiting<S, V>(
    net: Net<S, V>,
    x: V,
    targets: Seq<(usize, usize)>,
    id: int,
    port: usize,
    m: V,
)
    requires
        waits(net, id, port, m),
    ensures
        waits(net.fan_out(x, targets), id, port, m),
    decreases targets.len(),
{
    if targets.len() > 0 {
        lemma_fan_out_keeps_waiting(net, x, targets.drop_last(), id, port, m);
        lemma_deliver_keeps_waiting(
            net.fan_out(x, targets.drop_last()),
            x,
            targets.last(),
            id,
            port,
            m,
        );
    }
}

/// Messages handed on leave every message waiting that waited.
pub proof fn lemma_dispatch_keeps_waiting<S, V>(
    net: Net<S, V>,
    from: int,
    sent: Seq<V>,
    id: int,
    port: usize,
    m: V,
)
    requires
        waits(net, id, port, m),
    ensures
        waits(net.dispatch(from, sent), id, port, m),
    decreases sent.len(),
{
    if sent.len() > 0 {
        lemma_dispatch_keeps_waiting(net, from, sent.drop_last(), id, port, m);
        lemma_fan_out_keeps_waiting(
            net.dispatch(from, sent.drop_last()),
            sent.last(),
            net.outputs[from],
            id,
            port,
            m,
        );
    }
}

/// A message handed to subscribers waits for each of them.
pub proof fn lemma_fan_out_delivers<S, V>(
    net: Net<S, V>,
    x: V,
    targets: Seq<(usize, usize)>,
    e: int,
)
    requires
        0 <= e < targets.len(),
        targets[e].0 < net.inboxes.len(),
        targets[e].0 != OUTBOX,
    ensures
        waits(net.fan_out(x, targets), targets[e].0 as int, targets[e].1, x),
    decreases targets.len(),
{
    let head = targets.drop_last();
    lemma_fan_out_keeps_shape(net, x, head);
    let before = net.fan_out(x, head);
    if e < targets.len() - 1 {
        lemma_fan_out_delivers(net, x, head, e);
        lemma_deliver_keeps_waiting(before, x, targets.last(), targets[e].0 as int, targets[e].1, x);
    } else {
        let to = targets[e];
        let after = before.deliver(x, to);
        let inbox = after.inboxes[to.0 as int];
        assert(inbox[inbox.len() - 1] == (x, to.1));
    }
}

/// Every message handed on waits for every subscriber of the sender.
pub proof fn lemma_dispatch_delivers<S, V>(
    net: Net<S, V>,
    from: int,
    sent: Seq<V>,
    e: int,
    i: int,
)
    requires
        0 <= i < sent.len(),
        0 <= e < net.outputs[from].len(),
        net.outputs[from][e].0 < net.inboxes.len(),
        net.outputs[from][e].0 != OUTBOX,
    ensures
        waits(
            net.dispatch(from, sent),
            net.outputs[from][e].0 as int,
            net.outputs[from][e].1,
            sent[i],
        ),
    decreases sent.len(),
{
    let head = sent.drop_last();
    let targets = net.outputs[from];
    lemma_dispatch_keeps_shape(net, from, head);
    let before = net.dispatch(from, head);
    if i < sent.len() - 1 {
        lemma_dispatch_delivers(net, from, head, e, i);
        lemma_fan_out_keeps_waiting(
            before,
            sent.last(),
            targets,
            targets[e].0 as int,
            targets[e].1,
            sent[i],
        );
    } else {
        lemma_fan_out_delivers(before, sent.last(), targets, e);
    }
}

/// The rows that wait for an input are the rows of that input.
pub proof fn lemma_on_port_contains(pending: Seq<(Seq<i64>, usize)>, port: usize, row: Seq<i64>)
    requires
        pending.contains((row, port)),
    ensures
        on_port(pending, port).contains(row),
    decreases pending.len(),
{
    let k = choose|k: int| 0 <= k < pending.len() && pending[k] == (row, port);
    let rest = pending.drop_first();
    let rows = on_port(pending, port);
    if k == 0 {
        assert(rows[0] == row);
    } else {
        assert(rest[k - 1] == (row, port));
        lemma_on_port_contains(rest, port, row);
        let i = choose|i: int| 0 <= i < on_port(rest, port).len() && on_port(rest, port)[i] == row;
        if pending[0].1 == port {
            assert(rows[i + 1] == row);
        } else {
            assert(rows[i] == row);
        }
    }
}

/// A row that meets the conditions of a filter passes it.
pub proof fn lemma_select_contains(
    rows: Seq<Seq<i64>>,
    conditions: Seq<Condition>,
    row: Seq<i64>,
)
    requires
        rows.contains(row),
        meets_all(row, conditions),
    ensures
        select(rows, conditions).contains(row),
    decreases rows.len(),
{
    let k = choose|k: int| 0 <= k < rows.len() && rows[k] == row;
    let head = rows.drop_last();
    let all = select(rows, conditions);
    if k < rows.len() - 1 {
        assert(head[k] == row);
        lemma_select_contains(head, conditions, row);
        let i = choose|i: int|
            0 <= i < select(head, conditions).len() && select(head, conditions)[i] == row;
        assert(all[i] == row);
    } else {
        assert(all[all.len() - 1] == row);
    }
}

/// What terms make of a row that has the columns they take is among what
/// they make of rows that hold it.
pub proof fn lemma_pick_all_contains(rows: Seq<Seq<i64>>, terms: Seq<Term>, row: Seq<i64>)
    requires
        rows.contains(row),
        pick(row, terms) is Some,
    ensures
        pick_all(rows, terms).contains(pick(row, terms).unwrap()),
    decreases rows.len(),
{
    let k = choose|k: int| 0 <= k < rows.len() && rows[k] == row;
    let head = rows.drop_last();
    let all = pick_all(rows, terms);
    let made = pick(row, terms).unwrap();
    if k < rows.len() - 1 {
        assert(head[k] == row);
        lemma_pick_all_contains(head, terms, row);
        let i = choose|i: int|
            0 <= i < pick_all(head, terms).len() && pick_all(head, terms)[i] == made;
        assert(all[i] == made);
    } else {
        assert(all[all.len() - 1] == made);
    }
}

/// A table holds afterwards what it held and every row that reached it,
/// and every row that it did not hold before has passed.
pub proof fn lemma_sift_contains(table: Seq<Seq<i64>>, input: Seq<Seq<i64>>)
    ensures
        forall|row: Seq<i64>| table.contains(row) ==> #[trigger] sift(table, input).table.contains(row),
        forall|row: Seq<i64>| input.contains(row) ==> #[trigger] sift(table, input).table.contains(row),
        forall|row: Seq<i64>|
            #[trigger] sift(table, input).table.contains(row) && !table.contains(row) ==> sift(
                table,
                input,
            ).passed.contains(row),
    decreases input.len(),
{
    let end = sift(table, input);
    if input.len() > 0 {
        let head = input.drop_last();
        let last = input.last();
        lemma_sift_contains(table, head);
        let before = sift(table, head);
        assert forall|row: Seq<i64>| before.table.contains(row) implies end.table.contains(row) by {
            let k = choose|k: int| 0 <= k < before.table.len() && before.table[k] == row;
            assert(end.table[k] == row);
        }
        assert forall|row: Seq<i64>| before.passed.contains(row) implies end.passed.contains(row) by {
            let k = choose|k: int| 0 <= k < before.passed.len() && before.passed[k] == row;
            assert(end.passed[k] == row);
        }
        assert forall|row: Seq<i64>| input.contains(row) implies #[trigger] end.table.contains(
            row,
        ) by {
            let k = choose|k: int| 0 <= k < input.len() && input[k] == row;
            if k < head.len() {
                assert(head[k] == row);
                assert(before.table.contains(row));
            } else if !before.table.contains(row) {
                assert(end.table[end.table.len() - 1] == row);
            }
        }
        assert forall|row: Seq<i64>|
            #[trigger] end.table.contains(row) && !table.contains(row) implies end.passed.contains(
            row,
        ) by {
            if before.table.contains(row) {
                assert(before.passed.contains(row));
            } else {
                let k = choose|k: int| 0 <= k < end.table.len() && end.table[k] == row;
                assert(k == before.table.len());
                assert(end.passed[end.passed.len() - 1] == row);
            }
        }
        assert forall|row: Seq<i64>| table.contains(row) implies #[trigger] end.table.contains(
            row,
        ) by {
            assert(before.table.contains(row));
        }
    }
}

/// What a row finds in a table holds the row joined to every row of the
/// table that has its key.
pub proof fn lemma_probe_contains(
    row: Seq<i64>,
    key: Seq<i64>,
    table: Seq<Seq<i64>>,
    cols: Seq<usize>,
    row_first: bool,
    other: Seq<i64>,
)
    requires
        table.contains(other),
        project(other, cols) == Some(key),
    ensures
        probe(row, key, table, cols, row_first).contains(
            if row_first {
                row + other
            } else {
                other + row
            },
        ),
    decreases table.len(),
{
    let k = choose|k: int| 0 <= k < table.len() && table[k] == other;
    let head = table.drop_last();
    let all = probe(row, key, table, cols, row_first);
    let joined = if row_first {
        row + other
    } else {
        other + row
    };
    if k < table.len() - 1 {
        assert(head[k] == other);
        lemma_probe_contains(row, key, head, cols, row_first, other);
        let found = probe(row, key, head, cols, row_first);
        let i = choose|i: int| 0 <= i < found.len() && found[i] == joined;
        assert(all[i] == joined);
    } else {
        assert(all[all.len() - 1] == joined);
    }
}

/// Whether the join `s` has sent on every pair of its tables that agrees
/// on the keys and was not a pair of the tables `left` and `right`
/// already: `emitted` holds it.
pub open spec fn pairs_sent(
    s: JoinState,
    left: Seq<Seq<i64>>,
    right: Seq<Seq<i64>>,
    emitted: Seq<Seq<i64>>,
) -> bool {
    forall|w: Seq<i64>, u: Seq<i64>|
        #![trigger s.left.contains(w), s.right.contains(u)]
        s.left.contains(w) && s.right.contains(u) && project(w, s.left_key) == project(
            u,
            s.right_key,
        ) ==> (left.contains(w) && right.contains(u)) || emitted.contains(w + u)
}

/// Whether the tables of the join `s` hold what the tables `left` and
/// `right` hold, and only rows that have their key columns.
pub open spec fn tables_grown(s: JoinState, left: Seq<Seq<i64>>, right: Seq<Seq<i64>>) -> bool {
    &&& forall|w: Seq<i64>| left.contains(w) ==> #[trigger] s.left.contains(w)
    &&& forall|u: Seq<i64>| right.contains(u) ==> #[trigger] s.right.contains(u)
}

/// Whether every row of the tables of `s` has its key columns.
pub open spec fn keyed(s: JoinState) -> bool {
    &&& forall|w: Seq<i64>| #[trigger] s.left.contains(w) ==> project(w, s.left_key) is Some
    &&& forall|u: Seq<i64>| #[trigger] s.right.contains(u) ==> project(u, s.right_key) is Some
}

/// Arrivals leave in the tables of a join what was there, bring in every
/// row that arrives with its key columns, and send on every pair that they
/// make.
pub proof fn lemma_arrive_all_contains(s: JoinState, events: Seq<(Seq<i64>, usize)>)
    requires
        keyed(s),
    ensures
        keyed(s.arrive_all(events).next),
        tables_grown(s.arrive_all(events).next, s.left, s.right),
        pairs_sent(s.arrive_all(events).next, s.left, s.right, s.arrive_all(events).emitted),
        forall|w: Seq<i64>|
            #![trigger events.contains((w, 0usize))]
            events.contains((w, 0usize)) && project(w, s.left_key) is Some ==> s.arrive_all(
                events,
            ).next.left.contains(w),
        forall|u: Seq<i64>|
            #![trigger events.contains((u, 1usize))]
            events.contains((u, 1usize)) && project(u, s.right_key) is Some ==> s.arrive_all(
                events,
            ).next.right.contains(u),
    decreases events.len(),
{
    let end = s.arrive_all(events);
    if events.len() > 0 {
        let head = events.drop_last();
        let row = events.last().0;
        let port = events.last().1;
        lemma_arrive_all_contains(s, head);
        lemma_arrive_all_keeps_keys(s, head);
        let before = s.arrive_all(head);
        let last = before.next.arrive(row, port);
        assert forall|x: Seq<i64>| before.emitted.contains(x) implies end.emitted.contains(x) by {
            let k = choose|k: int| 0 <= k < before.emitted.len() && before.emitted[k] == x;
            assert(end.emitted[k] == x);
        }
        assert forall|x: Seq<i64>| last.emitted.contains(x) implies end.emitted.contains(x) by {
            let k = choose|k: int| 0 <= k < last.emitted.len() && last.emitted[k] == x;
            assert(end.emitted[before.emitted.len() + k] == x);
        }
        assert forall|w: Seq<i64>| before.next.left.contains(w) implies end.next.left.contains(
            w,
        ) by {
            let k = choose|k: int| 0 <= k < before.next.left.len() && before.next.left[k] == w;
            assert(end.next.left[k] == w);
        }
        assert forall|u: Seq<i64>| before.next.right.contains(u) implies end.next.right.contains(
            u,
        ) by {
            let k = choose|k: int| 0 <= k < before.next.right.len() && before.next.right[k] == u;
            assert(end.next.right[k] == u);
        }
        assert forall|w: Seq<i64>| #[trigger] end.next.left.contains(w) implies project(
            w,
            s.left_key,
        ) is Some by {
            if !before.next.left.contains(w) {
                let k = choose|k: int| 0 <= k < end.next.left.len() && end.next.left[k] == w;
                assert(k == before.next.left.len());
            }
        }
        assert forall|u: Seq<i64>| #[trigger] end.next.right.contains(u) implies project(
            u,
            s.right_key,
        ) is Some by {
            if !before.next.right.contains(u) {
                let k = choose|k: int| 0 <= k < end.next.right.len() && end.next.right[k] == u;
                assert(k == before.next.right.len());
            }
        }
        assert forall|w: Seq<i64>|
            #![trigger events.contains((w, 0usize))]
            events.contains((w, 0usize)) && project(w, s.left_key) is Some implies end.next.left.contains(
            w,
        ) by {
            let k = choose|k: int| 0 <= k < events.len() && events[k] == (w, 0usize);
            if k < head.len() {
                assert(head[k] == (w, 0usize));
                assert(head.contains((w, 0usize)));
            } else {
                assert(end.next.left[end.next.left.len() - 1] == w);
            }
        }
        assert forall|u: Seq<i64>|
            #![trigger events.contains((u, 1usize))]
            events.contains((u, 1usize)) && project(u, s.right_key) is Some implies end.next.right.contains(
            u,
        ) by {
            let k = choose|k: int| 0 <= k < events.len() && events[k] == (u, 1usize);
            if k < head.len() {
                assert(head[k] == (u, 1usize));
                assert(head.contains((u, 1usize)));
            } else {
                assert(end.next.right[end.next.right.len() - 1] == u);
            }
        }
        assert forall|w: Seq<i64>, u: Seq<i64>|
            #![trigger end.next.left.contains(w), end.next.right.contains(u)]
            end.next.left.contains(w) && end.next.right.contains(u) && project(w, s.left_key)
                == project(u, s.right_key) implies (s.left.contains(w) && s.right.contains(u))
            || end.emitted.contains(w + u) by {
            if before.next.left.contains(w) && before.next.right.contains(u) {
                if !(s.left.contains(w) && s.right.contains(u)) {
                    assert(before.emitted.contains(w + u));
                }
            } else if !before.next.left.contains(w) {
                let k = choose|k: int| 0 <= k < end.next.left.len() && end.next.left[k] == w;
                assert(k == before.next.left.len());
                assert(w == row && port == 0);
                assert(end.next.right == before.next.right);
                lemma_probe_contains(
                    row,
                    project(row, s.left_key).unwrap(),
                    before.next.right,
                    s.right_key,
                    true,
                    u,
                );
            } else {
                let k = choose|k: int| 0 <= k < end.next.right.len() && end.next.right[k] == u;
                assert(k == before.next.right.len());
                assert(u == row && port == 1);
                assert(end.next.left == before.next.left);
                lemma_probe_contains(
                    row,
                    project(row, s.right_key).unwrap(),
                    before.next.left,
                    s.left_key,
                    false,
                    w,
                );
            }
        }
    }
}

/// What one invocation sends: what the node that has waited longest
/// makes of the rows that wait for it.
pub open spec fn sent_now(g: Graph) -> Seq<Seq<i64>> {
    let at = g.schedule[0] as int;
    fire(g.operators[at], on_port(g.inboxes[at], 0), on_port(g.inboxes[at], 1)).sent
}

/// One invocation leaves every other node as it is, and every row waiting
/// for it that waited.
pub proof fn lemma_step_elsewhere(g: Graph, id: int)
    requires
        g.wf(),
        0 <= id < g.operators.len(),
        g.schedule.len() == 0 || id != g.schedule[0],
    ensures
        step::<Vec<i64>, Node>(g).operators.len() == g.operators.len(),
        step::<Vec<i64>, Node>(g).inboxes.len() == g.inboxes.len(),
        step::<Vec<i64>, Node>(g).outputs == g.outputs,
        step::<Vec<i64>, Node>(g).operators[id] == g.operators[id],
        forall|port: usize, m: Seq<i64>|
            waits(g, id, port, m) ==> #[trigger] waits(step::<Vec<i64>, Node>(g), id, port, m),
{
    if g.schedule.len() > 0 {
        let at = g.schedule[0] as int;
        let r = <Node as Operator<Vec<i64>>>::react(g.operators[at], g.inboxes[at]);
        let popped = Net {
            operators: g.operators.update(at, r.next),
            inboxes: g.inboxes.update(at, r.left),
            schedule: g.schedule.drop_first(),
            ..g
        };
        lemma_dispatch_keeps_shape(popped, at, r.sent);
        assert forall|port: usize, m: Seq<i64>| waits(g, id, port, m) implies #[trigger] waits(
            step::<Vec<i64>, Node>(g),
            id,
            port,
            m,
        ) by {
            assert(popped.inboxes[id] == g.inboxes[id]);
            lemma_dispatch_keeps_waiting(popped, at, r.sent, id, port, m);
        }
    }
}

/// One invocation leaves the node that runs in the state that it makes of
/// the rows that waited for it, and every row that it sends waits for
/// every one of its subscribers.
pub proof fn lemma_step_here(g: Graph)
    requires
        g.wf(),
        g.schedule.len() > 0,
    ensures
        ({
            let at = g.schedule[0] as int;
            let next = step::<Vec<i64>, Node>(g);
            &&& 0 <= at < g.operators.len()
            &&& next.operators.len() == g.operators.len()
            &&& next.inboxes.len() == g.inboxes.len()
            &&& next.outputs == g.outputs
            &&& next.operators[at] == fire(
                g.operators[at],
                on_port(g.inboxes[at], 0),
                on_port(g.inboxes[at], 1),
            ).next
            &&& forall|e: int, i: int|
                0 <= e < g.outputs[at].len() && 0 <= i < sent_now(g).len() && (
                #[trigger] g.outputs[at][e]).0 != OUTBOX ==> waits(
                    next,
                    g.outputs[at][e].0 as int,
                    g.outputs[at][e].1,
                    #[trigger] sent_now(g)[i],
                )
        }),
{
    let at = g.schedule[0] as int;
    let r = <Node as Operator<Vec<i64>>>::react(g.operators[at], g.inboxes[at]);
    let popped = Net {
        operators: g.operators.update(at, r.next),
        inboxes: g.inboxes.update(at, r.left),
        schedule: g.schedule.drop_first(),
        ..g
    };
    lemma_dispatch_keeps_shape(popped, at, r.sent);
    let next = step::<Vec<i64>, Node>(g);
    assert forall|e: int, i: int|
        0 <= e < g.outputs[at].len() && 0 <= i < sent_now(g).len() && (
        #[trigger] g.outputs[at][e]).0 != OUTBOX implies waits(
        next,
        g.outputs[at][e].0 as int,
        g.outputs[at][e].1,
        #[trigger] sent_now(g)[i],
    ) by {
        assert(g.valid_target(g.outputs[at][e].0));
        lemma_dispatch_delivers(popped, at, r.sent, e, i);
    }
}

/// A row that one invocation sends waits afterwards for a subscriber of
/// the node that ran.
pub proof fn lemma_step_delivers(g: Graph, to: (usize, usize), row: Seq<i64>)
    requires
        g.wf(),
        g.schedule.len() > 0,
        g.outputs[g.schedule[0] as int].contains(to),
        sent_now(g).contains(row),
        to.0 != OUTBOX,
    ensures
        waits(step::<Vec<i64>, Node>(g), to.0 as int, to.1, row),
{
    let at = g.schedule[0] as int;
    lemma_step_here(g);
    let e = choose|e: int| 0 <= e < g.outputs[at].len() && g.outputs[at][e] == to;
    let i = choose|i: int| 0 <= i < sent_now(g).len() && sent_now(g)[i] == row;
    assert(waits(
        step::<Vec<i64>, Node>(g),
        g.outputs[at][e].0 as int,
        g.outputs[at][e].1,
        sent_now(g)[i],
    ));
}

/// One invocation leaves every other node scheduled that was scheduled.
pub proof fn lemma_step_keeps_scheduled(g: Graph, id: int)
    requires
        g.wf(),
        0 <= id < g.operators.len(),
        g.schedule.contains(id as usize),
        id != g.schedule[0],
    ensures
        step::<Vec<i64>, Node>(g).schedule.contains(id as usize),
{
    let at = g.schedule[0] as int;
    let r = <Node as Operator<Vec<i64>>>::react(g.operators[at], g.inboxes[at]);
    let popped = Net {
        operators: g.operators.update(at, r.next),
        inboxes: g.inboxes.update(at, r.left),
        schedule: g.schedule.drop_first(),
        ..g
    };
    let k = choose|k: int| 0 <= k < g.schedule.len() && g.schedule[k] == id as usize;
    assert(popped.schedule[k - 1] == id as usize);
    assert(popped.schedule.contains(id as usize));
    lemma_dispatch_inbox(popped, at, r.sent, id as usize);
    assert(popped.dispatch(at, r.sent).schedule.contains(id as usize));
}

} // verus!
