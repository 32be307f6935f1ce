//! Ready-made operators: two on integers, and three on rows of integers.

use crate::babyflow::newest_first;
use crate::babyflow::Ctx;
use crate::babyflow::Operator;
use crate::babyflow::Reaction;
use crate::join::JoinState;
use crate::join::JoinTables;
use crate::relation::project;
use crate::relation::project_row;
use crate::relation::views;
use vstd::prelude::*;

verus! {

/// An operator on single integers.
pub enum IntOp {
    /// Sends the integers it holds, once, in their order.
    Source(Vec<i64>),
    /// Sends the successor of each integer it receives, wrapping round at
    /// the largest.
    Inc,
}

/// The state of an [`IntOp`].
pub enum IntOpView {
    Source(Seq<i64>),
    Inc,
}

impl View for IntOp {
    type V = IntOpView;

    open spec fn view(&self) -> IntOpView {
        match self {
            IntOp::Source(v) => IntOpView::Source(v@),
            IntOp::Inc => IntOpView::Inc,
        }
    }
}

/// The successor of `i`, and the smallest integer after the largest.
pub open spec fn succ(i: i64) -> i64 {
    if i == i64::MAX {
        i64::MIN
    } else {
        (i + 1) as i64
    }
}

/// The successors of the integers in `pending`, newest first.
pub open spec fn successors(pending: Seq<(i64, usize)>) -> Seq<i64> {
    Seq::new(pending.len(), |k: int| succ(pending[pending.len() - 1 - k].0))
}

impl Operator<i64> for IntOp {
    open spec fn react(state: IntOpView, pending: Seq<(i64, usize)>) -> Reaction<IntOpView, i64> {
        match state {
            IntOpView::Source(v) => Reaction {
                next: IntOpView::Source(Seq::empty()),
                left: pending,
                sent: v,
            },
            IntOpView::Inc => Reaction {
                next: IntOpView::Inc,
                left: Seq::empty(),
                sent: successors(pending),
            },
        }
    }

    fn run(&mut self, c: &mut Ctx<i64>) {
        match self {
            IntOp::Source(v) => {
                let mut items: Vec<i64> = Vec::new();
                std::mem::swap(v, &mut items);
                let mut k: usize = 0;
                while k < items.len()
                    invariant
                        k <= items.len(),
                        c.pending() == old(c).pending(),
                        c.sent() == old(c).sent() + items@.take(k as int),
                    decreases items.len() - k,
                {
                    c.send(items[k]);
                    proof {
                        assert(items@.take(k + 1) =~= items@.take(k as int).push(items@[k as int]));
                    }
                    k += 1;
                }
                proof {
                    assert(items@.take(k as int) =~= items@);
                }
            },
            IntOp::Inc => {
                let ghost all = c.pending();
                let ghost mut done: int = 0;
                loop
                    invariant
                        0 <= done <= all.len(),
                        c.pending() == all.take(all.len() - done),
                        c.sent() == old(c).sent() + successors(all).take(done),
                    ensures
                        c.pending() == Seq::<(i64, usize)>::empty(),
                        c.sent() == old(c).sent() + successors(all),
                    decreases all.len() - done,
                {
                    match c.recv() {
                        Some((i, _)) => {
                            let next = if i == i64::MAX {
                                i64::MIN
                            } else {
                                i + 1
                            };
                            c.send(next);
                            proof {
                                assert(all.take(all.len() - done).drop_last() =~= all.take(
                                    all.len() - done - 1,
                                ));
                                assert(successors(all).take(done + 1) =~= successors(all).take(
                                    done,
                                ).push(next));
                                done = done + 1;
                            }
                        },
                        None => {
                            proof {
                                assert(successors(all).take(done) =~= successors(all));
                            }
                            break ;
                        },
                    }
                }
            },
        }
    }
}

/// An operator on rows of integers.
pub enum DataOp {
    /// Sends the rows it holds, once, in their order.
    Source(Vec<Vec<i64>>),
    /// Sends, of each row it receives, the columns it names, in the order in
    /// which it names them. A row that lacks one of them is dropped.
    Project(Vec<usize>),
    /// Joins the rows that arrive on input 0 with those that arrive on
    /// input 1, on their key columns.
    Join(JoinTables),
}

/// The state of a [`DataOp`].
pub enum DataOpView {
    Source(Seq<Seq<i64>>),
    Project(Seq<usize>),
    Join(JoinState),
}

impl View for DataOp {
    type V = DataOpView;

    open spec fn view(&self) -> DataOpView {
        match self {
            DataOp::Source(rows) => DataOpView::Source(views(rows@)),
            DataOp::Project(cols) => DataOpView::Project(cols@),
            DataOp::Join(tables) => DataOpView::Join(tables@),
        }
    }
}

/// The columns `cols` of each of `rows` that has them all, in the order of
/// `rows`.
pub open spec fn project_all(rows: Seq<(Seq<i64>, usize)>, cols: Seq<usize>) -> Seq<Seq<i64>>
    decreases rows.len(),
{
    if rows.len() == 0 {
        Seq::empty()
    } else {
        let rest = project_all(rows.drop_last(), cols);
        match project(rows.last().0, cols) {
            Some(p) => rest.push(p),
            None => rest,
        }
    }
}

impl Operator<Vec<i64>> for DataOp {
    open spec fn react(state: DataOpView, pending: Seq<(Seq<i64>, usize)>) -> Reaction<
        DataOpView,
        Seq<i64>,
    > {
        match state {
            DataOpView::Source(rows) => Reaction {
                next: DataOpView::Source(Seq::empty()),
                left: pending,
                sent: rows,
            },
            DataOpView::Project(cols) => Reaction {
                next: state,
                left: Seq::empty(),
                sent: project_all(newest_first(pending), cols),
            },
            DataOpView::Join(tables) => {
                let end = tables.arrive_all(newest_first(pending));
                Reaction { next: DataOpView::Join(end.next), left: Seq::empty(), sent: end.emitted }
            },
        }
    }

    fn run(&mut self, c: &mut Ctx<Vec<i64>>) {
        match self {
            DataOp::Source(v) => {
                let mut rows: Vec<Vec<i64>> = Vec::new();
                std::mem::swap(v, &mut rows);
                proof {
                    assert(views(v@) =~= Seq::empty());
                    assert(rows@.map_values(|m: Vec<i64>| m@) =~= views(rows@));
                }
                c.send_all(rows);
            },
            DataOp::Project(cols) => {
                let ghost all = newest_first(c.pending());
                let ghost mut done: int = 0;
                loop
                    invariant
                        0 <= done <= all.len(),
                        all == newest_first(old(c).pending()),
                        c.pending() == old(c).pending().take(all.len() - done),
                        c.sent() == old(c).sent() + project_all(all.take(done), cols@),
                    ensures
                        c.pending() == Seq::<(Seq<i64>, usize)>::empty(),
                        c.sent() == old(c).sent() + project_all(all, cols@),
                    decreases all.len() - done,
                {
                    match c.recv() {
                        Some((row, _)) => {
                            proof {
                                let seen = all.take(done + 1);
                                assert(seen.drop_last() =~= all.take(done));
                                assert(seen.last().0 == row@);
                                assert(old(c).pending().take(all.len() - done).drop_last()
                                    =~= old(c).pending().take(all.len() - done - 1));
                            }
                            match project_row(&row, cols) {
                                Some(p) => {
                                    c.send(p);
                                },
                                None => {},
                            }
                            proof {
                                done = done + 1;
                            }
                        },
                        None => {
                            proof {
                                assert(all.take(done) =~= all);
                            }
                            break ;
                        },
                    }
                }
            },
            DataOp::Join(tables) => {
                let ghost all = newest_first(c.pending());
                let ghost start = tables@;
                let ghost mut done: int = 0;
                loop
                    invariant
                        0 <= done <= all.len(),
                        all == newest_first(old(c).pending()),
                        c.pending() == old(c).pending().take(all.len() - done),
                        tables@ == start.arrive_all(all.take(done)).next,
                        c.sent() == old(c).sent() + start.arrive_all(all.take(done)).emitted,
                    ensures
                        c.pending() == Seq::<(Seq<i64>, usize)>::empty(),
                        tables@ == start.arrive_all(all).next,
                        c.sent() == old(c).sent() + start.arrive_all(all).emitted,
                    decreases all.len() - done,
                {
                    match c.recv() {
                        Some((row, port)) => {
                            proof {
                                let seen = all.take(done + 1);
                                assert(seen.drop_last() =~= all.take(done));
                                assert(seen.last() == (row@, port));
                                assert(old(c).pending().take(all.len() - done).drop_last()
                                    =~= old(c).pending().take(all.len() - done - 1));
                            }
                            let ghost sent = c.sent();
                            let out = tables.arrive(row, port);
                            proof {
                                assert(out@.map_values(|m: Vec<i64>| m@) =~= views(out@));
                            }
                            c.send_all(out);
                            proof {
                                let before = start.arrive_all(all.take(done));
                                assert(sent + views(out@) =~= old(c).sent() + (before.emitted
                                    + views(out@)));
                                done = done + 1;
                            }
                        },
                        None => {
                            proof {
                                assert(all.take(done) =~= all);
                            }
                            break ;
                        },
                    }
                }
            },
        }
    }
}

} // verus!
