//! Rows on their way: where a row that has set out is, until the table or
//! the join that it is bound for holds it.

use crate::babyflow::step;
use crate::flow::keyed;
use crate::flow::lemma_arrive_all_contains;
use crate::flow::lemma_on_port_contains;
use crate::flow::lemma_pick_all_contains;
use crate::flow::lemma_select_contains;
use crate::flow::lemma_sift_contains;
use crate::flow::lemma_step_delivers;
use crate::flow::lemma_step_elsewhere;
use crate::flow::lemma_step_here;
use crate::flow::lemma_step_keeps_scheduled;
use crate::flow::pairs_sent;
use crate::flow::sent_now;
use crate::flow::tables_grown;
use crate::flow::waits;
use crate::join::lemma_arrive_all_keeps_keys;
use crate::join::JoinState;
use crate::node::arriving;
use crate::node::on_port;
use crate::node::Node;
use crate::node::NodeView;
use crate::query::table_of;
use crate::query::Graph;
use crate::relation::meets_all;
use crate::relation::pick;
use crate::relation::project;
use vstd::prelude::*;

verus! {

/// The tables of a join in state `state`; empty ones where it is no join.
pub open spec fn tables_of(state: NodeView) -> JoinState {
    match state {
        NodeView::Join(s) => s,
        _ => JoinState::empty(Seq::empty(), Seq::empty()),
    }
}

/// Whether the node `b` of `g` is a join whose tables hold only rows with
/// their key columns.
pub open spec fn is_join(g: Graph, b: int) -> bool {
    &&& 0 <= b < g.operators.len()
    &&& g.operators[b] is Join
    &&& keyed(tables_of(g.operators[b]))
}

/// Whether the row `x` is bound for the left table of the join `b` and
/// not lost: it waits for the first input of `b`, or the left table holds
/// it, or it lacks a key column.
pub open spec fn joined_left(g: Graph, b: int, x: Seq<i64>) -> bool {
    ||| waits(g, b, 0, x)
    ||| tables_of(g.operators[b]).left.contains(x)
    ||| project(x, tables_of(g.operators[b]).left_key) is None
}

/// Whether the row `x` is bound for the right table of the join `b` and
/// not lost.
pub open spec fn joined_right(g: Graph, b: int, x: Seq<i64>) -> bool {
    ||| waits(g, b, 1, x)
    ||| tables_of(g.operators[b]).right.contains(x)
    ||| project(x, tables_of(g.operators[b]).right_key) is None
}

/// The rows that arrive at a join when it runs hold every row that waits
/// for it, with its input.
proof fn lemma_events_contain(g: Graph, b: int, port: usize, x: Seq<i64>)
    requires
        waits(g, b, port, x),
        port == 0 || port == 1,
    ensures
        (arriving(on_port(g.inboxes[b], 0), 0) + arriving(on_port(g.inboxes[b], 1), 1)).contains(
            (x, port),
        ),
{
    let first = on_port(g.inboxes[b], 0);
    let second = on_port(g.inboxes[b], 1);
    let events = arriving(first, 0) + arriving(second, 1);
    lemma_on_port_contains(g.inboxes[b], port, x);
    if port == 0 {
        let i = choose|i: int| 0 <= i < first.len() && first[i] == x;
        assert(events[i] == (x, 0usize));
    } else {
        let i = choose|i: int| 0 <= i < second.len() && second[i] == x;
        assert(events[first.len() + i] == (x, 1usize));
    }
}

/// One invocation leaves a join a join, with its key columns, and its
/// tables holding what they held.
pub proof fn lemma_join_stays(g: Graph, b: int)
    requires
        g.wf(),
        is_join(g, b),
    ensures
        is_join(step::<Vec<i64>, Node>(g), b),
        tables_of(step::<Vec<i64>, Node>(g).operators[b]).left_key == tables_of(
            g.operators[b],
        ).left_key,
        tables_of(step::<Vec<i64>, Node>(g).operators[b]).right_key == tables_of(
            g.operators[b],
        ).right_key,
        tables_grown(
            tables_of(step::<Vec<i64>, Node>(g).operators[b]),
            tables_of(g.operators[b]).left,
            tables_of(g.operators[b]).right,
        ),
{
    if g.schedule.len() > 0 && g.schedule[0] == b {
        lemma_step_here(g);
        let s = tables_of(g.operators[b]);
        let events = arriving(on_port(g.inboxes[b], 0), 0) + arriving(on_port(g.inboxes[b], 1), 1);
        lemma_arrive_all_contains(s, events);
        lemma_arrive_all_keeps_keys(s, events);
    } else {
        lemma_step_elsewhere(g, b);
    }
}

/// A row bound for the left table of a join stays bound for it through
/// one invocation.
pub proof fn lemma_joined_left_step(g: Graph, b: int, x: Seq<i64>)
    requires
        g.wf(),
        is_join(g, b),
        joined_left(g, b, x),
    ensures
        joined_left(step::<Vec<i64>, Node>(g), b, x),
{
    lemma_join_stays(g, b);
    if g.schedule.len() > 0 && g.schedule[0] == b {
        lemma_step_here(g);
        let s = tables_of(g.operators[b]);
        let events = arriving(on_port(g.inboxes[b], 0), 0) + arriving(on_port(g.inboxes[b], 1), 1);
        lemma_arrive_all_contains(s, events);
        if waits(g, b, 0, x) {
            lemma_events_contain(g, b, 0, x);
        }
    } else {
        lemma_step_elsewhere(g, b);
    }
}

/// A row bound for the right table of a join stays bound for it through
/// one invocation.
pub proof fn lemma_joined_right_step(g: Graph, b: int, x: Seq<i64>)
    requires
        g.wf(),
        is_join(g, b),
        joined_right(g, b, x),
    ensures
        joined_right(step::<Vec<i64>, Node>(g), b, x),
{
    lemma_join_stays(g, b);
    if g.schedule.len() > 0 && g.schedule[0] == b {
        lemma_step_here(g);
        let s = tables_of(g.operators[b]);
        let events = arriving(on_port(g.inboxes[b], 0), 0) + arriving(on_port(g.inboxes[b], 1), 1);
        lemma_arrive_all_contains(s, events);
        if waits(g, b, 1, x) {
            lemma_events_contain(g, b, 1, x);
        }
    } else {
        lemma_step_elsewhere(g, b);
    }
}

/// Whether in `g` the node `m` merges into the table `t`.
pub open spec fn merges_into(g: Graph, m: int, t: int) -> bool {
    &&& 0 <= m < g.operators.len()
    &&& 0 <= t < g.operators.len()
    &&& g.operators[m] == NodeView::Merge
    &&& g.operators[t] is Distinct
    &&& g.outputs[m].contains((t as usize, 0usize))
}

/// Whether the row `y` is bound for the table `t` through the node `m`
/// that merges into it, and not lost: it waits for `m` or for `t`, or the
/// table holds it.
pub open spec fn tabled_row(g: Graph, m: int, t: int, y: Seq<i64>) -> bool {
    ||| waits(g, m, 0, y)
    ||| waits(g, t, 0, y)
    ||| table_of(g.operators[t]).contains(y)
}

/// One invocation leaves a merging node and its table what they are, and
/// the table holding what it held.
pub proof fn lemma_merge_stays(g: Graph, m: int, t: int)
    requires
        g.wf(),
        merges_into(g, m, t),
    ensures
        merges_into(step::<Vec<i64>, Node>(g), m, t),
        forall|y: Seq<i64>|
            table_of(g.operators[t]).contains(y) ==> #[trigger] table_of(
                step::<Vec<i64>, Node>(g).operators[t],
            ).contains(y),
{
    if g.schedule.len() > 0 {
        lemma_step_here(g);
        let at = g.schedule[0] as int;
        if at != m {
            lemma_step_elsewhere(g, m);
        }
        if at != t {
            lemma_step_elsewhere(g, t);
        } else {
            lemma_sift_contains(table_of(g.operators[t]), on_port(g.inboxes[t], 0));
        }
    }
}

/// A row bound for a table stays bound for it through one invocation.
pub proof fn lemma_tabled_row_step(g: Graph, m: int, t: int, y: Seq<i64>)
    requires
        g.wf(),
        merges_into(g, m, t),
        tabled_row(g, m, t, y),
    ensures
        tabled_row(step::<Vec<i64>, Node>(g), m, t, y),
{
    lemma_merge_stays(g, m, t);
    if g.schedule.len() > 0 {
        lemma_step_here(g);
        let at = g.schedule[0] as int;
        if at != m {
            lemma_step_elsewhere(g, m);
        }
        if at != t {
            lemma_step_elsewhere(g, t);
        }
        if at == m && waits(g, m, 0, y) {
            lemma_on_port_contains(g.inboxes[m], 0, y);
            lemma_step_delivers(g, (t as usize, 0usize), y);
        }
        if at == t && waits(g, t, 0, y) {
            lemma_on_port_contains(g.inboxes[t], 0, y);
            lemma_sift_contains(table_of(g.operators[t]), on_port(g.inboxes[t], 0));
        }
    }
}

/// Whether in `g` the node `h` makes rows that go to the table `t` through
/// the node `m`.
pub open spec fn heads_into(g: Graph, h: int, m: int, t: int) -> bool {
    &&& merges_into(g, m, t)
    &&& 0 <= h < g.operators.len()
    &&& g.operators[h] is Project
    &&& g.outputs[h].contains((m as usize, 0usize))
}

/// Whether what the node `h` makes of the row `x` is bound for the table
/// `t`, and not lost: `x` waits for `h`, or what `h` makes of it is bound
/// for the table, or `h` makes nothing of it.
pub open spec fn headed(g: Graph, h: int, m: int, t: int, x: Seq<i64>) -> bool {
    ||| waits(g, h, 0, x)
    ||| g.operators[h] matches NodeView::Project(terms) && (pick(x, terms) is None || tabled_row(
        g,
        m,
        t,
        pick(x, terms).unwrap(),
    ))
}

/// One invocation leaves the nodes from a head to its table what they
/// are.
pub proof fn lemma_head_stays(g: Graph, h: int, m: int, t: int)
    requires
        g.wf(),
        heads_into(g, h, m, t),
    ensures
        heads_into(step::<Vec<i64>, Node>(g), h, m, t),
        step::<Vec<i64>, Node>(g).operators[h] == g.operators[h],
{
    lemma_merge_stays(g, m, t);
    if g.schedule.len() > 0 {
        lemma_step_here(g);
        if g.schedule[0] != h {
            lemma_step_elsewhere(g, h);
        }
    }
}

/// What a head makes of a row stays bound for the table through one
/// invocation.
pub proof fn lemma_headed_step(g: Graph, h: int, m: int, t: int, x: Seq<i64>)
    requires
        g.wf(),
        heads_into(g, h, m, t),
        headed(g, h, m, t, x),
    ensures
        headed(step::<Vec<i64>, Node>(g), h, m, t, x),
{
    lemma_head_stays(g, h, m, t);
    if g.schedule.len() > 0 {
        lemma_step_here(g);
        let at = g.schedule[0] as int;
        let terms = g.operators[h]->Project_0;
        if at == h && waits(g, h, 0, x) {
            if pick(x, terms) is Some {
                lemma_on_port_contains(g.inboxes[h], 0, x);
                lemma_pick_all_contains(on_port(g.inboxes[h], 0), terms, x);
                lemma_step_delivers(g, (m as usize, 0usize), pick(x, terms).unwrap());
            }
        } else {
            if at != h {
                lemma_step_elsewhere(g, h);
            }
            if !waits(g, h, 0, x) && pick(x, terms) is Some {
                lemma_tabled_row_step(g, m, t, pick(x, terms).unwrap());
            }
        }
    }
}

/// Whether in `g` the node `f` is a filter before the second input of the
/// join `b`.
pub open spec fn filters_into(g: Graph, f: int, b: int) -> bool {
    &&& 0 <= f < g.operators.len()
    &&& g.operators[f] is Filter
    &&& is_join(g, b)
    &&& g.outputs[f].contains((b as usize, 1usize))
}

/// Whether the row `u` is bound through the filter `f` for the right table
/// of the join `b`, and not lost: it waits for `f`, or it is bound for the
/// table, or it does not pass `f`.
pub open spec fn fed(g: Graph, f: int, b: int, u: Seq<i64>) -> bool {
    ||| waits(g, f, 0, u)
    ||| g.operators[f] matches NodeView::Filter(conditions) && (!meets_all(u, conditions)
        || joined_right(g, b, u))
}

/// One invocation leaves a filter before a join what it is.
pub proof fn lemma_filter_stays(g: Graph, f: int, b: int)
    requires
        g.wf(),
        filters_into(g, f, b),
    ensures
        filters_into(step::<Vec<i64>, Node>(g), f, b),
        step::<Vec<i64>, Node>(g).operators[f] == g.operators[f],
{
    lemma_join_stays(g, b);
    if g.schedule.len() > 0 {
        lemma_step_here(g);
        if g.schedule[0] != f {
            lemma_step_elsewhere(g, f);
        }
    }
}

/// A row bound through a filter for a join stays bound for it through one
/// invocation.
pub proof fn lemma_fed_step(g: Graph, f: int, b: int, u: Seq<i64>)
    requires
        g.wf(),
        filters_into(g, f, b),
        fed(g, f, b, u),
    ensures
        fed(step::<Vec<i64>, Node>(g), f, b, u),
{
    lemma_filter_stays(g, f, b);
    if g.schedule.len() > 0 {
        lemma_step_here(g);
        let at = g.schedule[0] as int;
        let conditions = g.operators[f]->Filter_0;
        if at == f && waits(g, f, 0, u) {
            if meets_all(u, conditions) {
                lemma_on_port_contains(g.inboxes[f], 0, u);
                lemma_select_contains(on_port(g.inboxes[f], 0), conditions, u);
                lemma_step_delivers(g, (b as usize, 1usize), u);
            }
        } else {
            if at != f {
                lemma_step_elsewhere(g, f);
            }
            if !waits(g, f, 0, u) && meets_all(u, conditions) {
                lemma_joined_right_step(g, b, u);
            }
        }
    }
}

/// Whether in `g` the table `t` sends to the filter `f`.
pub open spec fn feeds(g: Graph, t: int, f: int) -> bool {
    &&& 0 <= t < g.operators.len()
    &&& g.operators[t] is Distinct
    &&& g.outputs[t].contains((f as usize, 0usize))
}

/// Whether every row of the table `t` is bound through the filter `f` for
/// the join `b`.
pub open spec fn table_fed(g: Graph, t: int, f: int, b: int) -> bool {
    forall|u: Seq<i64>| #[trigger] table_of(g.operators[t]).contains(u) ==> fed(g, f, b, u)
}

/// One invocation leaves a table a table, and its rows in it.
pub proof fn lemma_table_stays(g: Graph, t: int, f: int)
    requires
        g.wf(),
        feeds(g, t, f),
    ensures
        feeds(step::<Vec<i64>, Node>(g), t, f),
{
    if g.schedule.len() > 0 {
        lemma_step_here(g);
        if g.schedule[0] != t {
            lemma_step_elsewhere(g, t);
        }
    }
}

/// The rows of a table stay bound for a join behind it through one
/// invocation, and the rows that the table takes in set out for it.
pub proof fn lemma_table_fed_step(g: Graph, t: int, f: int, b: int)
    requires
        g.wf(),
        feeds(g, t, f),
        filters_into(g, f, b),
        table_fed(g, t, f, b),
    ensures
        table_fed(step::<Vec<i64>, Node>(g), t, f, b),
{
    let next = step::<Vec<i64>, Node>(g);
    assert forall|u: Seq<i64>| #[trigger] table_of(next.operators[t]).contains(u) implies fed(
        next,
        f,
        b,
        u,
    ) by {
        if g.schedule.len() > 0 && g.schedule[0] == t {
            lemma_step_here(g);
            let old = table_of(g.operators[t]);
            lemma_sift_contains(old, on_port(g.inboxes[t], 0));
            if old.contains(u) {
                lemma_fed_step(g, f, b, u);
            } else {
                lemma_step_delivers(g, (f as usize, 0usize), u);
            }
        } else {
            lemma_step_elsewhere(g, t);
            lemma_fed_step(g, f, b, u);
        }
    }
}

/// Whether `w` and `u` are a pair of the tables of the join `a`: the left
/// table holds `w`, the right one `u`, and they agree on their keys.
pub open spec fn pair_of(g: Graph, a: int, w: Seq<i64>, u: Seq<i64>) -> bool {
    let s = tables_of(g.operators[a]);
    s.left.contains(w) && s.right.contains(u) && project(w, s.left_key) == project(u, s.right_key)
}

/// A pair of the tables of a join after one invocation was a pair before,
/// or has been sent by that invocation.
pub proof fn lemma_pair_step(g: Graph, a: int, w: Seq<i64>, u: Seq<i64>)
    requires
        g.wf(),
        is_join(g, a),
        pair_of(step::<Vec<i64>, Node>(g), a, w, u),
    ensures
        pair_of(g, a, w, u) || (g.schedule.len() > 0 && g.schedule[0] == a && sent_now(g).contains(
            w + u,
        )),
{
    lemma_join_stays(g, a);
    if g.schedule.len() > 0 && g.schedule[0] == a {
        lemma_step_here(g);
        let s = tables_of(g.operators[a]);
        let events = arriving(on_port(g.inboxes[a], 0), 0) + arriving(on_port(g.inboxes[a], 1), 1);
        lemma_arrive_all_contains(s, events);
        lemma_arrive_all_keeps_keys(s, events);
        let end = s.arrive_all(events);
        assert(pairs_sent(end.next, s.left, s.right, end.emitted));
        assert(end.next.left.contains(w) && end.next.right.contains(u));
    } else {
        lemma_step_elsewhere(g, a);
    }
}

/// Whether every pair of the tables of the join `a` is bound for the left
/// table of the join `b`.
pub open spec fn pairs_joined(g: Graph, a: int, b: int) -> bool {
    forall|w: Seq<i64>, u: Seq<i64>| #[trigger] pair_of(g, a, w, u) ==> joined_left(g, b, w + u)
}

/// The pairs of a join stay bound for the join behind it through one
/// invocation, and the pairs that it makes set out for it.
pub proof fn lemma_pairs_joined_step(g: Graph, a: int, b: int)
    requires
        g.wf(),
        is_join(g, a),
        is_join(g, b),
        a != b,
        g.outputs[a].contains((b as usize, 0usize)),
        pairs_joined(g, a, b),
    ensures
        pairs_joined(step::<Vec<i64>, Node>(g), a, b),
{
    let next = step::<Vec<i64>, Node>(g);
    assert forall|w: Seq<i64>, u: Seq<i64>| #[trigger] pair_of(next, a, w, u) implies joined_left(
        next,
        b,
        w + u,
    ) by {
        lemma_pair_step(g, a, w, u);
        if pair_of(g, a, w, u) {
            lemma_joined_left_step(g, b, w + u);
        } else {
            lemma_step_delivers(g, (b as usize, 0usize), w + u);
        }
    }
}

/// Whether what the head `h` makes of every pair of the tables of the join
/// `a` is bound for the table `t`.
pub open spec fn pairs_headed(g: Graph, a: int, h: int, m: int, t: int) -> bool {
    forall|w: Seq<i64>, u: Seq<i64>| #[trigger] pair_of(g, a, w, u) ==> headed(g, h, m, t, w + u)
}

/// What a head makes of the pairs of a join stays bound for its table
/// through one invocation, and the pairs that the join makes set out for
/// the head.
pub proof fn lemma_pairs_headed_step(g: Graph, a: int, h: int, m: int, t: int)
    requires
        g.wf(),
        is_join(g, a),
        heads_into(g, h, m, t),
        g.outputs[a].contains((h as usize, 0usize)),
        pairs_headed(g, a, h, m, t),
    ensures
        pairs_headed(step::<Vec<i64>, Node>(g), a, h, m, t),
{
    let next = step::<Vec<i64>, Node>(g);
    assert forall|w: Seq<i64>, u: Seq<i64>| #[trigger] pair_of(next, a, w, u) implies headed(
        next,
        h,
        m,
        t,
        w + u,
    ) by {
        lemma_pair_step(g, a, w, u);
        if pair_of(g, a, w, u) {
            lemma_headed_step(g, h, m, t, w + u);
        } else {
            lemma_step_delivers(g, (h as usize, 0usize), w + u);
        }
    }
}

/// Whether the node `s` of `g` is a source that holds the one empty row and
/// has not run.
pub open spec fn seeded(g: Graph, s: int) -> bool {
    g.operators[s] == NodeView::Source(seq![Seq::<i64>::empty()])
}

/// Whether the node `s` of `g` is the source of a chain: it holds the one
/// empty row and is scheduled, or it has sent it and holds nothing.
pub open spec fn is_seed(g: Graph, s: int) -> bool {
    &&& 0 <= s < g.operators.len()
    &&& (seeded(g, s) && g.schedule.contains(s as usize)) || g.operators[s] == NodeView::Source(
        Seq::empty(),
    )
}

/// One invocation leaves the source of a chain the source of a chain.
pub proof fn lemma_seed_stays(g: Graph, s: int)
    requires
        g.wf(),
        is_seed(g, s),
    ensures
        is_seed(step::<Vec<i64>, Node>(g), s),
        seeded(step::<Vec<i64>, Node>(g), s) ==> seeded(g, s),
        seeded(g, s) && !seeded(step::<Vec<i64>, Node>(g), s) ==> g.schedule.len() > 0
            && g.schedule[0] == s && sent_now(g) == seq![Seq::<i64>::empty()],
{
    let one = seq![Seq::<i64>::empty()];
    assert(one.len() == 1);
    assert(one != Seq::<Seq<i64>>::empty());
    if g.schedule.len() > 0 {
        lemma_step_here(g);
        if g.schedule[0] != s {
            lemma_step_elsewhere(g, s);
            if seeded(g, s) {
                lemma_step_keeps_scheduled(g, s);
            }
        }
    }
}

/// Whether the empty row of the source `s` is bound for the left table of
/// the join `b`: the source still holds it, or it is bound for the table.
pub open spec fn seed_joined(g: Graph, s: int, b: int) -> bool {
    seeded(g, s) || joined_left(g, b, Seq::empty())
}

/// The empty row of a source stays bound for the join behind it through
/// one invocation.
pub proof fn lemma_seed_joined_step(g: Graph, s: int, b: int)
    requires
        g.wf(),
        is_seed(g, s),
        is_join(g, b),
        g.outputs[s].contains((b as usize, 0usize)),
        seed_joined(g, s, b),
    ensures
        seed_joined(step::<Vec<i64>, Node>(g), s, b),
{
    lemma_seed_stays(g, s);
    let next = step::<Vec<i64>, Node>(g);
    if !seeded(next, s) {
        if seeded(g, s) {
            assert(sent_now(g)[0] == Seq::<i64>::empty());
            lemma_step_delivers(g, (b as usize, 0usize), Seq::empty());
        } else {
            lemma_joined_left_step(g, b, Seq::empty());
        }
    }
}

/// Whether what the head `h` makes of the empty row of the source `s` is
/// bound for the table `t`.
pub open spec fn seed_headed(g: Graph, s: int, h: int, m: int, t: int) -> bool {
    seeded(g, s) || headed(g, h, m, t, Seq::empty())
}

/// What a head makes of the empty row of a source stays bound for its
/// table through one invocation.
pub proof fn lemma_seed_headed_step(g: Graph, s: int, h: int, m: int, t: int)
    requires
        g.wf(),
        is_seed(g, s),
        heads_into(g, h, m, t),
        g.outputs[s].contains((h as usize, 0usize)),
        seed_headed(g, s, h, m, t),
    ensures
        seed_headed(step::<Vec<i64>, Node>(g), s, h, m, t),
{
    lemma_seed_stays(g, s);
    let next = step::<Vec<i64>, Node>(g);
    if !seeded(next, s) {
        if seeded(g, s) {
            assert(sent_now(g)[0] == Seq::<i64>::empty());
            lemma_step_delivers(g, (h as usize, 0usize), Seq::empty());
        } else {
            lemma_headed_step(g, h, m, t, Seq::empty());
        }
    }
}

} // verus!
