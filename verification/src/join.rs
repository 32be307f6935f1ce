//! The incremental equi-join: two growing tables, each probed by what
//! arrives on the other side.

use crate::relation::probe;
use crate::relation::probe_table;
use crate::relation::project;
use crate::relation::project_row;
use crate::relation::views;
use vstd::multiset::Multiset;
use vstd::prelude::*;
use vstd::seq_lib::lemma_multiset_commutative;

verus! {

/// The state of a join: on each side the key columns, and the rows that
/// have arrived there, oldest first.
pub struct JoinState {
    pub left_key: Seq<usize>,
    pub left: Seq<Seq<i64>>,
    pub right_key: Seq<usize>,
    pub right: Seq<Seq<i64>>,
}

/// What one arrival does to a join.
pub struct Arrival {
    pub next: JoinState,
    pub emitted: Seq<Seq<i64>>,
}

impl JoinState {
    /// A join on the given key columns, into which nothing has arrived.
    pub open spec fn empty(left_key: Seq<usize>, right_key: Seq<usize>) -> JoinState {
        JoinState { left_key, left: Seq::empty(), right_key, right: Seq::empty() }
    }

    /// The arrival of `row` on the input `port`. A row on the left input 0 is
    /// joined to every row of the right table with its key, then enters the
    /// left table; a row on the right input 1 likewise, the sides
    /// exchanged. A row that lacks a key column, or that arrives on another
    /// input, is dropped.
    pub open spec fn arrive(self, row: Seq<i64>, port: usize) -> Arrival {
        if port == 0 {
            match project(row, self.left_key) {
                Some(key) => Arrival {
                    next: JoinState { left: self.left.push(row), ..self },
                    emitted: probe(row, key, self.right, self.right_key, true),
                },
                None => Arrival { next: self, emitted: Seq::empty() },
            }
        } else if port == 1 {
            match project(row, self.right_key) {
                Some(key) => Arrival {
                    next: JoinState { right: self.right.push(row), ..self },
                    emitted: probe(row, key, self.left, self.left_key, false),
                },
                None => Arrival { next: self, emitted: Seq::empty() },
            }
        } else {
            Arrival { next: self, emitted: Seq::empty() }
        }
    }

    /// The arrivals `events`, one after the other: each a row and the input
    /// it arrives on.
    pub open spec fn arrive_all(self, events: Seq<(Seq<i64>, usize)>) -> Arrival
        decreases events.len(),
    {
        if events.len() == 0 {
            Arrival { next: self, emitted: Seq::empty() }
        } else {
            let before = self.arrive_all(events.drop_last());
            let last = before.next.arrive(events.last().0, events.last().1);
            Arrival { next: last.next, emitted: before.emitted + last.emitted }
        }
    }
}

/// Every pair of a row of `left` and a row of `right` that agree on their
/// key columns, joined: by the rows of `left` in their order, and for each
/// by the rows of `right` in theirs.
pub open spec fn pairs(
    left: Seq<Seq<i64>>,
    left_key: Seq<usize>,
    right: Seq<Seq<i64>>,
    right_key: Seq<usize>,
) -> Seq<Seq<i64>>
    decreases left.len(),
{
    if left.len() == 0 {
        Seq::empty()
    } else {
        let row = left.last();
        let rest = pairs(left.drop_last(), left_key, right, right_key);
        match project(row, left_key) {
            Some(key) => rest + probe(row, key, right, right_key, true),
            None => rest,
        }
    }
}

/// The rows of `events` that arrive on the input `port` and have the key
/// columns `key`, in their order: what the table of that side comes to hold.
pub open spec fn arrivals(events: Seq<(Seq<i64>, usize)>, port: usize, key: Seq<usize>) -> Seq<
    Seq<i64>,
>
    decreases events.len(),
{
    if events.len() == 0 {
        Seq::empty()
    } else {
        let rest = arrivals(events.drop_last(), port, key);
        let last = events.last();
        if last.1 == port && project(last.0, key) is Some {
            rest.push(last.0)
        } else {
            rest
        }
    }
}

/// Arrivals leave the key columns of a join as they are.
pub proof fn lemma_arrive_all_keeps_keys(s: JoinState, events: Seq<(Seq<i64>, usize)>)
    ensures
        s.arrive_all(events).next.left_key == s.left_key,
        s.arrive_all(events).next.right_key == s.right_key,
    decreases events.len(),
{
    if events.len() > 0 {
        lemma_arrive_all_keeps_keys(s, events.drop_last());
    }
}

/// Arrivals in two runs come to the same as in one.
pub proof fn lemma_arrive_all_in_runs(
    s: JoinState,
    first: Seq<(Seq<i64>, usize)>,
    second: Seq<(Seq<i64>, usize)>,
)
    ensures
        s.arrive_all(first + second).next == s.arrive_all(first).next.arrive_all(second).next,
        s.arrive_all(first + second).emitted == s.arrive_all(first).emitted + s.arrive_all(
            first,
        ).next.arrive_all(second).emitted,
    decreases second.len(),
{
    let mid = s.arrive_all(first);
    if second.len() == 0 {
        assert(first + second =~= first);
        assert(mid.emitted + Seq::<Seq<i64>>::empty() =~= mid.emitted);
    } else {
        lemma_arrive_all_in_runs(s, first, second.drop_last());
        assert((first + second).drop_last() =~= first + second.drop_last());
        assert((first + second).last() == second.last());
        let before = mid.next.arrive_all(second.drop_last());
        let last = before.next.arrive(second.last().0, second.last().1);
        assert((mid.emitted + before.emitted) + last.emitted =~= mid.emitted + (before.emitted
            + last.emitted));
    }
}

/// No rows make the empty multiset.
proof fn lemma_no_rows()
    ensures
        Seq::<Seq<i64>>::empty().to_multiset() == Multiset::<Seq<i64>>::empty(),
{
    let none = Seq::<Seq<i64>>::empty();
    vstd::seq_lib::to_multiset_len(none);
    vstd::multiset::lemma_multiset_empty_len(none.to_multiset());
}

/// One more row on the right adds to the pairs what that row makes with the
/// rows on the left.
proof fn lemma_pairs_right_push(
    left: Seq<Seq<i64>>,
    left_key: Seq<usize>,
    right: Seq<Seq<i64>>,
    right_key: Seq<usize>,
    row: Seq<i64>,
    key: Seq<i64>,
)
    requires
        project(row, right_key) == Some(key),
    ensures
        pairs(left, left_key, right.push(row), right_key).to_multiset() == pairs(
            left,
            left_key,
            right,
            right_key,
        ).to_multiset().add(probe(row, key, left, left_key, false).to_multiset()),
    decreases left.len(),
{
    broadcast use vstd::multiset::group_multiset_axioms;

    let grown = right.push(row);
    lemma_no_rows();
    if left.len() == 0 {
        assert(pairs(left, left_key, grown, right_key).to_multiset() =~= pairs(
            left,
            left_key,
            right,
            right_key,
        ).to_multiset().add(probe(row, key, left, left_key, false).to_multiset()));
    } else {
        let l = left.last();
        let head = left.drop_last();
        lemma_pairs_right_push(head, left_key, right, right_key, row, key);
        let old_rest = pairs(head, left_key, right, right_key);
        let new_rest = pairs(head, left_key, grown, right_key);
        let probe_head = probe(row, key, head, left_key, false);
        assert(grown.drop_last() =~= right);
        assert(grown.last() == row);
        match project(l, left_key) {
            Some(lk) => {
                let old_probe = probe(l, lk, right, right_key, true);
                let new_probe = probe(l, lk, grown, right_key, true);
                lemma_multiset_commutative(old_rest, old_probe);
                lemma_multiset_commutative(new_rest, new_probe);
                if lk == key {
                    assert(new_probe == old_probe.push(l + row));
                    assert(probe(row, key, left, left_key, false) == probe_head.push(l + row));
                    vstd::seq_lib::to_multiset_build(old_probe, l + row);
                    vstd::seq_lib::to_multiset_build(probe_head, l + row);
                    assert(pairs(left, left_key, grown, right_key).to_multiset() =~= pairs(
                        left,
                        left_key,
                        right,
                        right_key,
                    ).to_multiset().add(probe(row, key, left, left_key, false).to_multiset()));
                } else {
                    assert(new_probe == old_probe);
                    assert(probe(row, key, left, left_key, false) == probe_head);
                    assert(pairs(left, left_key, grown, right_key).to_multiset() =~= pairs(
                        left,
                        left_key,
                        right,
                        right_key,
                    ).to_multiset().add(probe(row, key, left, left_key, false).to_multiset()));
                }
            },
            None => {
                assert(probe(row, key, left, left_key, false) == probe_head);
            },
        }
    }
}

/// One arrival adds to the pairs of the two tables exactly what it emits.
proof fn lemma_arrive_adds_pairs(s: JoinState, row: Seq<i64>, port: usize)
    ensures
        ({
            let a = s.arrive(row, port);
            pairs(a.next.left, s.left_key, a.next.right, s.right_key).to_multiset() == pairs(
                s.left,
                s.left_key,
                s.right,
                s.right_key,
            ).to_multiset().add(a.emitted.to_multiset())
        }),
{
    broadcast use vstd::multiset::group_multiset_axioms;

    let a = s.arrive(row, port);
    let before = pairs(s.left, s.left_key, s.right, s.right_key);
    let after = pairs(a.next.left, s.left_key, a.next.right, s.right_key);
    if port == 0 && project(row, s.left_key) is Some {
        let key = project(row, s.left_key).unwrap();
        let grown = s.left.push(row);
        assert(grown.drop_last() =~= s.left);
        assert(grown.last() == row);
        assert(after == before + a.emitted);
        lemma_multiset_commutative(before, a.emitted);
    } else if port == 1 && project(row, s.right_key) is Some {
        let key = project(row, s.right_key).unwrap();
        lemma_pairs_right_push(s.left, s.left_key, s.right, s.right_key, row, key);
    } else {
        lemma_no_rows();
        assert(a.emitted.to_multiset() =~= Multiset::empty());
        assert(after.to_multiset() =~= before.to_multiset().add(a.emitted.to_multiset()));
    }
}

/// Whatever the order in which rows arrive on the two sides of a join, it
/// emits every pair of a left arrival and a right arrival that agree on
/// their keys, joined, exactly once, and nothing else: what it has emitted
/// is, as a multiset, the pairs of the rows that arrived on the left with
/// those that arrived on the right.
pub proof fn lemma_join_emits_each_pair_once(
    left_key: Seq<usize>,
    right_key: Seq<usize>,
    events: Seq<(Seq<i64>, usize)>,
)
    ensures
        ({
            let end = JoinState::empty(left_key, right_key).arrive_all(events);
            &&& end.next.left_key == left_key
            &&& end.next.right_key == right_key
            &&& end.next.left == arrivals(events, 0, left_key)
            &&& end.next.right == arrivals(events, 1, right_key)
            &&& end.emitted.to_multiset() == pairs(
                arrivals(events, 0, left_key),
                left_key,
                arrivals(events, 1, right_key),
                right_key,
            ).to_multiset()
        }),
    decreases events.len(),
{
    broadcast use vstd::multiset::group_multiset_axioms;

    let start = JoinState::empty(left_key, right_key);
    let end = start.arrive_all(events);
    lemma_no_rows();
    if events.len() == 0 {
        assert(end.emitted.to_multiset() =~= pairs(
            arrivals(events, 0, left_key),
            left_key,
            arrivals(events, 1, right_key),
            right_key,
        ).to_multiset());
    } else {
        lemma_join_emits_each_pair_once(left_key, right_key, events.drop_last());
        let before = start.arrive_all(events.drop_last());
        let last = before.next.arrive(events.last().0, events.last().1);
        lemma_arrive_adds_pairs(before.next, events.last().0, events.last().1);
        lemma_multiset_commutative(before.emitted, last.emitted);
        assert(end.emitted.to_multiset() =~= pairs(
            end.next.left,
            left_key,
            end.next.right,
            right_key,
        ).to_multiset());
    }
}

/// Rows of one width, each followed by another row, are the same only
/// where both parts are.
proof fn lemma_joined_rows_differ(a: Seq<i64>, b: Seq<i64>, c: Seq<i64>, d: Seq<i64>)
    requires
        a.len() == c.len(),
        a + b == c + d,
    ensures
        a == c,
        b == d,
{
    assert((a + b).subrange(0, a.len() as int) =~= a);
    assert((c + d).subrange(0, c.len() as int) =~= c);
    assert((a + b).subrange(a.len() as int, (a + b).len() as int) =~= b);
    assert((c + d).subrange(c.len() as int, (c + d).len() as int) =~= d);
}

/// What a row finds in a table of distinct rows: the row followed by a row
/// of the table, each time by another.
proof fn lemma_probe_distinct(
    row: Seq<i64>,
    key: Seq<i64>,
    table: Seq<Seq<i64>>,
    cols: Seq<usize>,
)
    requires
        table.no_duplicates(),
    ensures
        probe(row, key, table, cols, true).no_duplicates(),
        forall|k: int|
            0 <= k < probe(row, key, table, cols, true).len() ==> exists|j: int|
                0 <= j < table.len() && #[trigger] probe(row, key, table, cols, true)[k] == row
                    + #[trigger] table[j],
    decreases table.len(),
{
    if table.len() > 0 {
        let head = table.drop_last();
        let last = table.last();
        lemma_probe_distinct(row, key, head, cols);
        let before = probe(row, key, head, cols, true);
        let found = probe(row, key, table, cols, true);
        assert forall|k: int| 0 <= k < found.len() implies exists|j: int|
            0 <= j < table.len() && #[trigger] found[k] == row + #[trigger] table[j] by {
            if k < before.len() {
                let j = choose|j: int| 0 <= j < head.len() && before[k] == row + #[trigger] head[j];
                assert(found[k] == row + table[j]);
            } else {
                assert(found[k] == row + table[table.len() - 1]);
            }
        }
        if project(last, cols) == Some(key) {
            assert forall|i: int, k: int| 0 <= i < k < found.len() implies found[i] != found[k] by {
                if k == before.len() {
                    let j = choose|j: int|
                        0 <= j < head.len() && before[i] == row + #[trigger] head[j];
                    if found[i] == found[k] {
                        lemma_joined_rows_differ(row, head[j], row, last);
                        assert(table[j] == table[table.len() - 1]);
                    }
                }
            }
        }
    }
}

/// The pairs of two tables are each a row of the left table followed by a
/// row of the right one.
proof fn lemma_pairs_rows(
    left: Seq<Seq<i64>>,
    left_key: Seq<usize>,
    right: Seq<Seq<i64>>,
    right_key: Seq<usize>,
)
    requires
        right.no_duplicates(),
    ensures
        forall|k: int|
            0 <= k < pairs(left, left_key, right, right_key).len() ==> exists|i: int, j: int|
                0 <= i < left.len() && 0 <= j < right.len() && #[trigger] pairs(
                    left,
                    left_key,
                    right,
                    right_key,
                )[k] == #[trigger] left[i] + #[trigger] right[j],
    decreases left.len(),
{
    if left.len() > 0 {
        let head = left.drop_last();
        let row = left.last();
        lemma_pairs_rows(head, left_key, right, right_key);
        let before = pairs(head, left_key, right, right_key);
        let all = pairs(left, left_key, right, right_key);
        assert forall|k: int| 0 <= k < all.len() implies exists|i: int, j: int|
            0 <= i < left.len() && 0 <= j < right.len() && #[trigger] all[k] == #[trigger] left[i]
                + #[trigger] right[j] by {
            if k < before.len() {
                let (i, j) = choose|i: int, j: int|
                    0 <= i < head.len() && 0 <= j < right.len() && before[k] == #[trigger] head[i]
                        + #[trigger] right[j];
                assert(all[k] == left[i] + right[j]);
            } else {
                let key = project(row, left_key).unwrap();
                lemma_probe_distinct(row, key, right, right_key);
                let found = probe(row, key, right, right_key, true);
                let at = k - before.len();
                let j = choose|j: int| 0 <= j < right.len() && found[at] == row + #[trigger] right[j];
                assert(all[k] == left[left.len() - 1] + right[j]);
            }
        }
    }
}

/// Tables of distinct rows, those of the left one all of one width, have
/// no pair twice.
proof fn lemma_pairs_distinct(
    left: Seq<Seq<i64>>,
    left_key: Seq<usize>,
    right: Seq<Seq<i64>>,
    right_key: Seq<usize>,
    width: nat,
)
    requires
        left.no_duplicates(),
        right.no_duplicates(),
        forall|i: int| 0 <= i < left.len() ==> (#[trigger] left[i]).len() == width,
    ensures
        pairs(left, left_key, right, right_key).no_duplicates(),
    decreases left.len(),
{
    if left.len() > 0 {
        let head = left.drop_last();
        let row = left.last();
        assert forall|i: int| 0 <= i < head.len() implies (#[trigger] head[i]).len() == width by {
            assert(head[i] == left[i]);
        }
        lemma_pairs_distinct(head, left_key, right, right_key, width);
        lemma_pairs_rows(head, left_key, right, right_key);
        let before = pairs(head, left_key, right, right_key);
        match project(row, left_key) {
            Some(key) => {
                lemma_probe_distinct(row, key, right, right_key);
                let found = probe(row, key, right, right_key, true);
                assert forall|a: int, b: int|
                    0 <= a < before.len() && 0 <= b < found.len() implies before[a] != found[b] by {
                    let (i, j) = choose|i: int, j: int|
                        0 <= i < head.len() && 0 <= j < right.len() && before[a] == #[trigger] head[i]
                            + #[trigger] right[j];
                    let k = choose|k: int|
                        0 <= k < right.len() && found[b] == row + #[trigger] right[k];
                    if before[a] == found[b] {
                        assert(head[i] == left[i]);
                        lemma_joined_rows_differ(head[i], right[j], row, right[k]);
                        assert(left[i] == left[left.len() - 1]);
                    }
                }
                vstd::seq_lib::lemma_no_dup_in_concat(before, found);
            },
            None => {},
        }
    }
}

/// Where no row arrives twice on one side of a join, and the rows that
/// arrive on its left side are all of one width, the join emits no row
/// twice.
pub proof fn lemma_join_emits_no_row_twice(
    left_key: Seq<usize>,
    right_key: Seq<usize>,
    events: Seq<(Seq<i64>, usize)>,
    width: nat,
    row: Seq<i64>,
)
    requires
        arrivals(events, 0, left_key).no_duplicates(),
        arrivals(events, 1, right_key).no_duplicates(),
        forall|i: int|
            0 <= i < arrivals(events, 0, left_key).len() ==> (#[trigger] arrivals(
                events,
                0,
                left_key,
            )[i]).len() == width,
    ensures
        JoinState::empty(left_key, right_key).arrive_all(events).emitted.to_multiset().count(row)
            <= 1,
{
    let left = arrivals(events, 0, left_key);
    let right = arrivals(events, 1, right_key);
    let all = pairs(left, left_key, right, right_key);
    lemma_join_emits_each_pair_once(left_key, right_key, events);
    lemma_pairs_distinct(left, left_key, right, right_key, width);
    all.lemma_multiset_has_no_duplicates();
}

/// The two tables of a join.
pub struct JoinTables {
    pub left_key: Vec<usize>,
    pub left: Vec<Vec<i64>>,
    pub right_key: Vec<usize>,
    pub right: Vec<Vec<i64>>,
}

impl View for JoinTables {
    type V = JoinState;

    open spec fn view(&self) -> JoinState {
        JoinState {
            left_key: self.left_key@,
            left: views(self.left@),
            right_key: self.right_key@,
            right: views(self.right@),
        }
    }
}

impl JoinTables {
    /// Empty tables for a join on the given key columns.
    pub fn new(left_key: Vec<usize>, right_key: Vec<usize>) -> (t: JoinTables)
        ensures
            t@ == JoinState::empty(left_key@, right_key@),
    {
        let t = JoinTables { left_key, left: Vec::new(), right_key, right: Vec::new() };
        proof {
            assert(views(t.left@) =~= Seq::empty());
            assert(views(t.right@) =~= Seq::empty());
        }
        t
    }

    /// Takes in `row`, which arrived on the input `port`, and gives the
    /// joined rows that it brings about.
    pub fn arrive(&mut self, row: Vec<i64>, port: usize) -> (out: Vec<Vec<i64>>)
        ensures
            final(self)@ == old(self)@.arrive(row@, port).next,
            views(out@) == old(self)@.arrive(row@, port).emitted,
    {
        if port == 0 {
            match project_row(&row, &self.left_key) {
                Some(key) => {
                    let out = probe_table(&row, &key, &self.right, &self.right_key, true);
                    self.left.push(row);
                    proof {
                        assert(views(self.left@) =~= views(old(self).left@).push(row@));
                    }
                    out
                },
                None => {
                    let out: Vec<Vec<i64>> = Vec::new();
                    proof {
                        assert(views(out@) =~= Seq::empty());
                    }
                    out
                },
            }
        } else if port == 1 {
            match project_row(&row, &self.right_key) {
                Some(key) => {
                    let out = probe_table(&row, &key, &self.left, &self.left_key, false);
                    self.right.push(row);
                    proof {
                        assert(views(self.right@) =~= views(old(self).right@).push(row@));
                    }
                    out
                },
                None => {
                    let out: Vec<Vec<i64>> = Vec::new();
                    proof {
                        assert(views(out@) =~= Seq::empty());
                    }
                    out
                },
            }
        } else {
            let out: Vec<Vec<i64>> = Vec::new();
            proof {
                assert(views(out@) =~= Seq::empty());
            }
            out
        }
    }
}

} // verus!
