//! Rendering is sound: every row that it gives is one that the clauses of
//! the program derive.

use crate::babyflow::OUTBOX;
use crate::compile::bind;
use crate::babyflow::run_for;
use crate::compile::build_clause;
use crate::compile::build_clauses;
use crate::compile::compile;
use crate::compile::declare;
use crate::compile::declared_flags;
use crate::compile::extend;
use crate::compile::extend_all;
use crate::compile::input_of;
use crate::compile::render;
use crate::node::Node;
use crate::promise::lemma_run_promised;
use crate::compile::output_of;
use crate::compile::Chain;
use crate::join::JoinState;
use crate::node::NodeView;
use crate::promise::lemma_with_edge_promised;
use crate::promise::lemma_with_op_promised;
use crate::promise::passes;
use crate::promise::promised;
use crate::promise::Promise;
use crate::query::with_unary;
use crate::query::Graph;
use crate::compile::column_of;
use crate::compile::head_terms;
use crate::meaning::holds;
use crate::meaning::instance;
use crate::meaning::lemma_clause_derives;
use crate::meaning::value_of;
use crate::program::Atom;
use crate::program::PredicateView;
use crate::program::ProgramView;
use crate::relation::meets;
use crate::relation::meets_all;
use crate::relation::pick;
use crate::relation::project;
use crate::relation::Condition;
use crate::relation::Term;
use vstd::prelude::*;

verus! {

/// A column that is bound stands among the columns with its variable.
pub proof fn lemma_column_of_entry(columns: Seq<(usize, usize)>, x: usize)
    ensures
        match column_of(columns, x) {
            Some(c) => exists|k: int| 0 <= k < columns.len() && #[trigger] columns[k] == (x, c),
            None => forall|k: int| 0 <= k < columns.len() ==> (#[trigger] columns[k]).0 != x,
        },
    decreases columns.len(),
{
    if columns.len() > 0 {
        if columns.last().0 == x {
            assert(columns[columns.len() - 1] == (x, columns.last().1));
        } else {
            let head = columns.drop_last();
            lemma_column_of_entry(head, x);
            match column_of(head, x) {
                Some(c) => {
                    let k = choose|k: int| 0 <= k < head.len() && #[trigger] head[k] == (x, c);
                    assert(columns[k] == (x, c));
                },
                None => {
                    assert forall|k: int| 0 <= k < columns.len() implies (#[trigger] columns[k]).0
                        != x by {
                        if k < head.len() {
                            assert(head[k] == columns[k]);
                        }
                    }
                },
            }
        }
    }
}

/// Whether every column of `columns` lies before `offset`.
pub open spec fn before_offset(columns: Seq<(usize, usize)>, offset: int) -> bool {
    forall|k: int| 0 <= k < columns.len() ==> (#[trigger] columns[k]).1 < offset
}

/// What binding the arguments `args` at `offset`, after `columns`, says
/// of the place `place`.
pub open spec fn bound_at(
    columns: Seq<(usize, usize)>,
    args: Seq<Atom>,
    offset: usize,
    place: int,
) -> bool {
    let b = bind(columns, args, offset);
    match args[place] {
        Atom::Lit(c) => b.conditions.contains(Condition::Is(place as usize, c)),
        Atom::Var(x) => match column_of(columns, x) {
            Some(col) => exists|k: int|
                0 <= k < b.left_key.len() && #[trigger] b.left_key[k] == col && b.right_key[k]
                    == place,
            None => {
                &&& column_of(b.columns, x) is Some
                &&& offset <= column_of(b.columns, x).unwrap() <= offset + place
                &&& {
                    let first = column_of(b.columns, x).unwrap() - offset;
                    first == place || b.conditions.contains(
                        Condition::Same(first as usize, place as usize),
                    )
                }
            },
        },
    }
}

/// What binding keeps of the columns that it starts from, and what it
/// gives of its own.
pub open spec fn binds_well(columns: Seq<(usize, usize)>, args: Seq<Atom>, offset: usize) -> bool {
    let b = bind(columns, args, offset);
    &&& b.left_key.len() == b.right_key.len()
    &&& forall|y: usize|
        column_of(columns, y) is Some ==> #[trigger] column_of(b.columns, y) == column_of(columns, y)
    &&& forall|y: usize|
        column_of(columns, y) is None && (#[trigger] column_of(b.columns, y)) is Some ==> {
            let c = column_of(b.columns, y).unwrap();
            offset <= c < offset + args.len() && args[c - offset] == Atom::Var(y)
        }
    &&& columns.is_prefix_of(b.columns)
    &&& forall|k: int|
        columns.len() <= k < b.columns.len() ==> {
            let c = (#[trigger] b.columns[k]).1;
            offset <= c < offset + args.len() && args[c - offset] == Atom::Var(b.columns[k].0)
        }
    &&& forall|place: int| 0 <= place < args.len() ==> bound_at(columns, args, offset, place)
}

/// Binding the arguments of a predicate does what [`binds_well`] says.
pub proof fn lemma_bind(columns: Seq<(usize, usize)>, args: Seq<Atom>, offset: usize)
    requires
        before_offset(columns, offset as int),
        offset + args.len() <= usize::MAX,
    ensures
        binds_well(columns, args, offset),
    decreases args.len(),
{
    let b = bind(columns, args, offset);
    if args.len() > 0 {
        let head = args.drop_last();
        let place = args.len() - 1;
        lemma_bind(columns, head, offset);
        let before = bind(columns, head, offset);
        assert forall|y: usize| column_of(before.columns, y) is Some implies #[trigger] column_of(
            b.columns,
            y,
        ) == column_of(before.columns, y) by {
            if b.columns != before.columns {
                assert(b.columns.drop_last() =~= before.columns);
            }
        }
        assert forall|q: int| 0 <= q < head.len() implies bound_at(columns, args, offset, q) by {
            assert(bound_at(columns, head, offset, q));
            assert(head[q] == args[q]);
            match args[q] {
                Atom::Lit(c) => {
                    let is = Condition::Is(q as usize, c);
                    let k = choose|k: int|
                        0 <= k < before.conditions.len() && before.conditions[k] == is;
                    assert(b.conditions[k] == is);
                },
                Atom::Var(x) => {
                    match column_of(columns, x) {
                        Some(col) => {
                            let k = choose|k: int|
                                0 <= k < before.left_key.len() && #[trigger] before.left_key[k]
                                    == col && before.right_key[k] == q;
                            assert(b.left_key[k] == col && b.right_key[k] == q);
                        },
                        None => {
                            let c = column_of(before.columns, x).unwrap();
                            assert(args[place] == Atom::Var(x) ==> column_of(before.columns, x)
                                is Some);
                            assert(column_of(b.columns, x) == Some(c));
                            let first = c - offset;
                            if first != q {
                                let same = Condition::Same(first as usize, q as usize);
                                let k = choose|k: int|
                                    0 <= k < before.conditions.len() && before.conditions[k]
                                        == same;
                                assert(b.conditions[k] == same);
                            }
                        },
                    }
                },
            }
        }
        match args[place] {
            Atom::Lit(c) => {
                assert(b.conditions[b.conditions.len() - 1] == Condition::Is(place as usize, c));
                assert forall|k: int| columns.len() <= k < b.columns.len() implies {
                    let c = (#[trigger] b.columns[k]).1;
                    offset <= c < offset + args.len() && args[c - offset] == Atom::Var(
                        b.columns[k].0,
                    )
                } by {
                    let c = before.columns[k].1;
                    assert(head[c - offset] == args[c - offset]);
                }
                assert forall|y: usize|
                    column_of(columns, y) is None && (#[trigger] column_of(
                        b.columns,
                        y,
                    )) is Some implies {
                    let c = column_of(b.columns, y).unwrap();
                    offset <= c < offset + args.len() && args[c - offset] == Atom::Var(y)
                } by {
                    let c = column_of(before.columns, y).unwrap();
                    assert(head[c - offset] == args[c - offset]);
                }
            },
            Atom::Var(x) => {
                lemma_column_of_entry(columns, x);
                match column_of(before.columns, x) {
                    Some(c) => {
                        if c < offset {
                            assert(column_of(columns, x) is Some);
                            assert(b.left_key[b.left_key.len() - 1] == c);
                            assert(b.right_key[b.left_key.len() - 1] == place);
                        } else {
                            if column_of(columns, x) is Some {
                                let col = column_of(columns, x).unwrap();
                                let k = choose|k: int|
                                    0 <= k < columns.len() && #[trigger] columns[k] == (x, col);
                                assert(columns[k].1 < offset);
                            }
                            assert(column_of(columns, x) is None);
                            assert(b.conditions[b.conditions.len() - 1] == Condition::Same(
                                (c - offset) as usize,
                                place as usize,
                            ));
                        }
                        assert forall|k: int| columns.len() <= k < b.columns.len() implies {
                            let c = (#[trigger] b.columns[k]).1;
                            offset <= c < offset + args.len() && args[c - offset] == Atom::Var(
                                b.columns[k].0,
                            )
                        } by {
                            let c = before.columns[k].1;
                            assert(head[c - offset] == args[c - offset]);
                        }
                        assert forall|y: usize|
                            column_of(columns, y) is None && (#[trigger] column_of(
                                b.columns,
                                y,
                            )) is Some implies {
                            let c = column_of(b.columns, y).unwrap();
                            offset <= c < offset + args.len() && args[c - offset] == Atom::Var(y)
                        } by {
                            let c = column_of(before.columns, y).unwrap();
                            assert(head[c - offset] == args[c - offset]);
                        }
                    },
                    None => {
                        assert(column_of(columns, x) is None);
                        assert(b.columns == before.columns.push((x, (offset + place) as usize)));
                        assert(column_of(b.columns, x) == Some((offset + place) as usize));
                        assert forall|k: int| columns.len() <= k < b.columns.len() implies {
                            let c = (#[trigger] b.columns[k]).1;
                            offset <= c < offset + args.len() && args[c - offset] == Atom::Var(
                                b.columns[k].0,
                            )
                        } by {
                            if k < before.columns.len() {
                                let c = before.columns[k].1;
                                assert(b.columns[k] == before.columns[k]);
                                assert(head[c - offset] == args[c - offset]);
                            }
                        }
                        assert forall|y: usize|
                            column_of(columns, y) is None && (#[trigger] column_of(
                                b.columns,
                                y,
                            )) is Some implies {
                            let c = column_of(b.columns, y).unwrap();
                            offset <= c < offset + args.len() && args[c - offset] == Atom::Var(y)
                        } by {
                            if y != x {
                                assert(b.columns.drop_last() =~= before.columns);
                                let c = column_of(before.columns, y).unwrap();
                                assert(head[c - offset] == args[c - offset]);
                            }
                        }
                        assert forall|y: usize| column_of(columns, y) is Some implies #[trigger] column_of(
                            b.columns,
                            y,
                        ) == column_of(columns, y) by {
                            assert(b.columns.drop_last() =~= before.columns);
                        }
                    },
                }
            },
        }
        assert(bound_at(columns, args, offset, place));
    } else {
        assert(columns.is_prefix_of(b.columns));
    }
}

/// The number of columns that the first `j` predicates of `body` have
/// together.
pub open spec fn width_before(body: Seq<PredicateView>, j: int) -> int
    decreases j,
{
    if j <= 0 {
        0
    } else {
        width_before(body, j - 1) + body[j - 1].args.len()
    }
}

/// The columns that are bound when the first `j` predicates of `body` have
/// been joined.
pub open spec fn columns_after(body: Seq<PredicateView>, j: int) -> Seq<(usize, usize)>
    decreases j,
{
    if j <= 0 {
        Seq::empty()
    } else {
        bind(
            columns_after(body, j - 1),
            body[j - 1].args,
            width_before(body, j - 1) as usize,
        ).columns
    }
}

/// The rows that the first `j` predicates of `body` make where the
/// variables have the values `v`, one behind the other.
pub open spec fn solution(body: Seq<PredicateView>, j: int, v: spec_fn(usize) -> i64) -> Seq<i64>
    decreases j,
{
    if j <= 0 {
        Seq::empty()
    } else {
        solution(body, j - 1, v) + instance(body[j - 1].args, v)
    }
}

/// Whether `w` solves the first `j` predicates of `body`: under some
/// values of the variables it is the rows that they make, one behind the
/// other, and the program derives each of those rows.
pub open spec fn solves(p: ProgramView, body: Seq<PredicateView>, j: int, w: Seq<i64>) -> bool {
    exists|v: spec_fn(usize) -> i64|
        {
            &&& #[trigger] solution(body, j, v) == w
            &&& forall|i: int|
                0 <= i < j ==> holds(p, (#[trigger] body[i]).name, instance(body[i].args, v))
        }
}

/// Whether the columns bound after the first `j` predicates of `body` are
/// those of the variables of these predicates: each column is a place of a
/// variable, and each variable has a column.
pub open spec fn columns_fit(body: Seq<PredicateView>, j: int) -> bool {
    let columns = columns_after(body, j);
    &&& forall|k: int|
        0 <= k < columns.len() ==> exists|i: int, place: int|
            {
                &&& 0 <= i < j
                &&& 0 <= place < body[i].args.len()
                &&& #[trigger] body[i].args[place] == Atom::Var((#[trigger] columns[k]).0)
                &&& columns[k].1 == width_before(body, i) + place
            }
    &&& forall|i: int, place: int|
        0 <= i < j && 0 <= place < body[i].args.len() && (#[trigger] body[i].args[place]) is Var
            ==> column_of(columns, body[i].args[place]->Var_0) is Some
    &&& before_offset(columns, width_before(body, j))
}

/// The widths of the predicates of a body add up.
pub proof fn lemma_width_grows(body: Seq<PredicateView>, i: int, j: int)
    requires
        0 <= i <= j,
    ensures
        0 <= width_before(body, i) <= width_before(body, j),
    decreases j,
{
    if i < j {
        lemma_width_grows(body, i, j - 1);
    } else if i > 0 {
        lemma_width_grows(body, i - 1, j - 1);
    }
}

/// The columns bound along a body are those of its variables.
pub proof fn lemma_columns_fit(body: Seq<PredicateView>, j: int)
    requires
        0 <= j <= body.len(),
        width_before(body, j) <= usize::MAX,
    ensures
        columns_fit(body, j),
    decreases j,
{
    if j > 0 {
        lemma_width_grows(body, j - 1, j);
        lemma_columns_fit(body, j - 1);
        let before = columns_after(body, j - 1);
        let offset = width_before(body, j - 1);
        let args = body[j - 1].args;
        lemma_bind(before, args, offset as usize);
        let columns = columns_after(body, j);
        assert forall|k: int| 0 <= k < columns.len() implies exists|i: int, place: int|
            {
                &&& 0 <= i < j
                &&& 0 <= place < body[i].args.len()
                &&& #[trigger] body[i].args[place] == Atom::Var((#[trigger] columns[k]).0)
                &&& columns[k].1 == width_before(body, i) + place
            } by {
            if k < before.len() {
                assert(columns[k] == before[k]);
                let (i, place) = choose|i: int, place: int|
                    {
                        &&& 0 <= i < j - 1
                        &&& 0 <= place < body[i].args.len()
                        &&& #[trigger] body[i].args[place] == Atom::Var((#[trigger] before[k]).0)
                        &&& before[k].1 == width_before(body, i) + place
                    };
                assert(body[i].args[place] == Atom::Var(columns[k].0));
            } else {
                let place = columns[k].1 - offset;
                assert(body[j - 1].args[place] == Atom::Var(columns[k].0));
            }
        }
        assert forall|i: int, place: int|
            0 <= i < j && 0 <= place < body[i].args.len() && (
            #[trigger] body[i].args[place]) is Var implies column_of(
            columns,
            body[i].args[place]->Var_0,
        ) is Some by {
            let x = body[i].args[place]->Var_0;
            if i < j - 1 {
                assert(column_of(before, x) is Some);
            } else {
                assert(bound_at(before, args, offset as usize, place));
            }
        }
        assert forall|k: int| 0 <= k < columns.len() implies (#[trigger] columns[k]).1
            < width_before(body, j) by {
            if k < before.len() {
                assert(columns[k] == before[k]);
            }
        }
    }
}

/// A solution holds, at the place of each argument, the value of that
/// argument.
pub proof fn lemma_solution_at(
    body: Seq<PredicateView>,
    j: int,
    v: spec_fn(usize) -> i64,
    i: int,
    place: int,
)
    requires
        0 <= i < j,
        0 <= place < body[i].args.len(),
    ensures
        solution(body, j, v).len() == width_before(body, j),
        width_before(body, i) + place < width_before(body, j),
        solution(body, j, v)[width_before(body, i) + place] == value_of(body[i].args[place], v),
    decreases j,
{
    lemma_solution_len(body, j - 1, v);
    lemma_width_grows(body, i, j - 1);
    if i < j - 1 {
        lemma_solution_at(body, j - 1, v, i, place);
    }
}

/// A solution is as wide as its predicates together.
pub proof fn lemma_solution_len(body: Seq<PredicateView>, j: int, v: spec_fn(usize) -> i64)
    ensures
        solution(body, j, v).len() == width_before(body, j),
    decreases j,
{
    if j > 0 {
        lemma_solution_len(body, j - 1, v);
    }
}

/// Values that agree on the variables of the first predicates make the
/// same solution of them.
pub proof fn lemma_solution_agrees(
    body: Seq<PredicateView>,
    j: int,
    v: spec_fn(usize) -> i64,
    w: spec_fn(usize) -> i64,
)
    requires
        0 <= j <= body.len(),
        forall|i: int, place: int|
            0 <= i < j && 0 <= place < body[i].args.len() ==> value_of(
                #[trigger] body[i].args[place],
                v,
            ) == value_of(body[i].args[place], w),
    ensures
        solution(body, j, v) == solution(body, j, w),
        forall|i: int| 0 <= i < j ==> instance((#[trigger] body[i]).args, v) == instance(body[i].args, w),
    decreases j,
{
    if j > 0 {
        lemma_solution_agrees(body, j - 1, v, w);
        assert forall|i: int| 0 <= i < j implies instance((#[trigger] body[i]).args, v) == instance(
            body[i].args,
            w,
        ) by {
            assert forall|place: int| 0 <= place < body[i].args.len() implies instance(
                body[i].args,
                v,
            )[place] == instance(body[i].args, w)[place] by {
                assert(value_of(body[i].args[place], v) == value_of(body[i].args[place], w));
            }
            assert(instance(body[i].args, v) =~= instance(body[i].args, w));
        }
    }
}

/// A solution holds, in the column bound to a variable, the value of that
/// variable.
pub proof fn lemma_solution_at_column(
    body: Seq<PredicateView>,
    j: int,
    v: spec_fn(usize) -> i64,
    x: usize,
)
    requires
        0 <= j <= body.len(),
        width_before(body, j) <= usize::MAX,
        column_of(columns_after(body, j), x) is Some,
    ensures
        0 <= column_of(columns_after(body, j), x).unwrap() < solution(body, j, v).len(),
        solution(body, j, v)[column_of(columns_after(body, j), x).unwrap() as int] == v(x),
{
    let columns = columns_after(body, j);
    let col = column_of(columns, x).unwrap();
    lemma_columns_fit(body, j);
    lemma_column_of_entry(columns, x);
    let k = choose|k: int| 0 <= k < columns.len() && #[trigger] columns[k] == (x, col);
    let (i, place) = choose|i: int, place: int|
        {
            &&& 0 <= i < j
            &&& 0 <= place < body[i].args.len()
            &&& #[trigger] body[i].args[place] == Atom::Var((#[trigger] columns[k]).0)
            &&& columns[k].1 == width_before(body, i) + place
        };
    lemma_solution_at(body, j, v, i, place);
}

/// The heart of a join along a body: a solution of the first `j`
/// predicates, followed by a row of the relation of the next predicate
/// that fits that predicate and agrees with the solution on the variables
/// that both hold, solves the first `j + 1` predicates.
pub proof fn lemma_join_step(
    p: ProgramView,
    body: Seq<PredicateView>,
    j: int,
    w: Seq<i64>,
    u: Seq<i64>,
)
    requires
        0 <= j < body.len(),
        width_before(body, j + 1) <= usize::MAX,
        solves(p, body, j, w),
        holds(p, body[j].name, u),
        u.len() == body[j].args.len(),
        meets_all(
            u,
            bind(columns_after(body, j), body[j].args, width_before(body, j) as usize).conditions,
        ),
        project(
            w,
            bind(columns_after(body, j), body[j].args, width_before(body, j) as usize).left_key,
        ) is Some,
        project(
            w,
            bind(columns_after(body, j), body[j].args, width_before(body, j) as usize).left_key,
        ) == project(
            u,
            bind(columns_after(body, j), body[j].args, width_before(body, j) as usize).right_key,
        ),
    ensures
        solves(p, body, j + 1, w + u),
{
    let columns = columns_after(body, j);
    let offset = width_before(body, j);
    let args = body[j].args;
    let b = bind(columns, args, offset as usize);
    lemma_width_grows(body, j, j + 1);
    lemma_width_grows(body, 0, j);
    lemma_columns_fit(body, j);
    lemma_bind(columns, args, offset as usize);
    let v = choose|v: spec_fn(usize) -> i64|
        {
            &&& #[trigger] solution(body, j, v) == w
            &&& forall|i: int|
                0 <= i < j ==> holds(p, (#[trigger] body[i]).name, instance(body[i].args, v))
        };
    let v2 = |x: usize|
        if column_of(columns, x) is Some {
            v(x)
        } else if column_of(b.columns, x) is Some {
            u[column_of(b.columns, x).unwrap() - offset]
        } else {
            v(x)
        };
    assert forall|i: int, place: int|
        0 <= i < j && 0 <= place < body[i].args.len() implies value_of(
        #[trigger] body[i].args[place],
        v2,
    ) == value_of(body[i].args[place], v) by {
        if body[i].args[place] is Var {
            assert(column_of(columns, body[i].args[place]->Var_0) is Some);
        }
    }
    lemma_solution_agrees(body, j, v2, v);
    let left = project(w, b.left_key).unwrap();
    let right = project(u, b.right_key).unwrap();
    assert forall|place: int| 0 <= place < args.len() implies value_of(args[place], v2)
        == u[place] by {
        assert(bound_at(columns, args, offset as usize, place));
        match args[place] {
            Atom::Lit(c) => {
                let is = Condition::Is(place as usize, c);
                let k = choose|k: int| 0 <= k < b.conditions.len() && b.conditions[k] == is;
                assert(meets(u, b.conditions[k]));
            },
            Atom::Var(x) => {
                match column_of(columns, x) {
                    Some(col) => {
                        let k = choose|k: int|
                            0 <= k < b.left_key.len() && #[trigger] b.left_key[k] == col
                                && b.right_key[k] == place;
                        assert(left[k] == w[col as int]);
                        assert(right[k] == u[place]);
                        lemma_solution_at_column(body, j, v, x);
                    },
                    None => {
                        let first = column_of(b.columns, x).unwrap() - offset;
                        if first != place {
                            let same = Condition::Same(first as usize, place as usize);
                            let k = choose|k: int|
                                0 <= k < b.conditions.len() && b.conditions[k] == same;
                            assert(meets(u, b.conditions[k]));
                        }
                    },
                }
            },
        }
    }
    assert(instance(args, v2) =~= u);
    assert(solution(body, j + 1, v2) == w + u);
    assert forall|i: int| 0 <= i < j + 1 implies holds(
        p,
        (#[trigger] body[i]).name,
        instance(body[i].args, v2),
    ) by {
        if i < j {
            assert(instance(body[i].args, v2) == instance(body[i].args, v));
        }
    }
}

/// The terms of a head stand place by place for its arguments.
pub proof fn lemma_head_terms(columns: Seq<(usize, usize)>, args: Seq<Atom>)
    requires
        head_terms(columns, args) is Some,
    ensures
        head_terms(columns, args).unwrap().len() == args.len(),
        forall|place: int|
            0 <= place < args.len() ==> match #[trigger] args[place] {
                Atom::Lit(c) => head_terms(columns, args).unwrap()[place] == Term::Literal(c),
                Atom::Var(x) => column_of(columns, x) is Some && head_terms(
                    columns,
                    args,
                ).unwrap()[place] == Term::Column(column_of(columns, x).unwrap()),
            },
    decreases args.len(),
{
    if args.len() > 0 {
        lemma_head_terms(columns, args.drop_last());
        let terms = head_terms(columns, args).unwrap();
        let before = head_terms(columns, args.drop_last()).unwrap();
        assert forall|place: int| 0 <= place < args.len() implies match #[trigger] args[place] {
            Atom::Lit(c) => terms[place] == Term::Literal(c),
            Atom::Var(x) => column_of(columns, x) is Some && terms[place] == Term::Column(
                column_of(columns, x).unwrap(),
            ),
        } by {
            if place < args.len() - 1 {
                assert(args.drop_last()[place] == args[place]);
                assert(terms[place] == before[place]);
            }
        }
    }
}

/// The end of a chain: what the terms of the head make of a solution of
/// the whole body is a row that the clause derives.
pub proof fn lemma_head_step(p: ProgramView, c: int, w: Seq<i64>, terms: Seq<Term>)
    requires
        0 <= c < p.clauses.len(),
        width_before(p.clauses[c].body, p.clauses[c].body.len() as int) <= usize::MAX,
        solves(p, p.clauses[c].body, p.clauses[c].body.len() as int, w),
        head_terms(
            columns_after(p.clauses[c].body, p.clauses[c].body.len() as int),
            p.clauses[c].head.args,
        ) == Some(terms),
        pick(w, terms) is Some,
    ensures
        holds(p, p.clauses[c].head.name, pick(w, terms).unwrap()),
{
    let body = p.clauses[c].body;
    let n = body.len() as int;
    let head = p.clauses[c].head;
    let columns = columns_after(body, n);
    let v = choose|v: spec_fn(usize) -> i64|
        {
            &&& #[trigger] solution(body, n, v) == w
            &&& forall|i: int|
                0 <= i < n ==> holds(p, (#[trigger] body[i]).name, instance(body[i].args, v))
        };
    lemma_head_terms(columns, head.args);
    let row = pick(w, terms).unwrap();
    assert forall|place: int| 0 <= place < head.args.len() implies row[place] == value_of(
        head.args[place],
        v,
    ) by {
        match head.args[place] {
            Atom::Lit(c) => {},
            Atom::Var(x) => {
                lemma_solution_at_column(body, n, v, x);
            },
        }
    }
    assert(row =~= instance(head.args, v));
    lemma_clause_derives(p, c, v);
}

/// Whether the row `u` fits the predicate `j` of `body`: the program
/// derives it for the relation of that predicate, and it meets the
/// conditions that the predicate puts on a row.
pub open spec fn fits(p: ProgramView, body: Seq<PredicateView>, j: int, u: Seq<i64>) -> bool {
    &&& holds(p, body[j].name, u)
    &&& meets_all(
        u,
        seq![Condition::Width(body[j].args.len() as usize)] + bind(
            columns_after(body, j),
            body[j].args,
            width_before(body, j) as usize,
        ).conditions,
    )
}

/// What is promised of the nodes of a relation: every row that reaches
/// them or leaves them is derived for that relation.
pub open spec fn of_relation(p: ProgramView, r: usize) -> Promise {
    Promise {
        first: |row: Seq<i64>| holds(p, r, row),
        second: |row: Seq<i64>| true,
        sent: |row: Seq<i64>| holds(p, r, row),
    }
}

/// What is promised of the source at the start of a chain: it sends
/// solutions of no predicates.
pub open spec fn of_seed(p: ProgramView, body: Seq<PredicateView>) -> Promise {
    Promise {
        first: |row: Seq<i64>| true,
        second: |row: Seq<i64>| true,
        sent: |row: Seq<i64>| solves(p, body, 0, row),
    }
}

/// What is promised of the filter before the predicate `j` of a body: it
/// is reached by rows derived for the relation of that predicate, and
/// sends those that fit the predicate.
pub open spec fn of_filter(p: ProgramView, body: Seq<PredicateView>, j: int) -> Promise {
    Promise {
        first: |row: Seq<i64>| holds(p, body[j].name, row),
        second: |row: Seq<i64>| true,
        sent: |row: Seq<i64>| fits(p, body, j, row),
    }
}

/// What is promised of the join for the predicate `j` of a body: solutions
/// of the predicates before it reach its first input, rows that fit it
/// reach its second, and it sends solutions of the predicates up to it.
pub open spec fn of_join(p: ProgramView, body: Seq<PredicateView>, j: int) -> Promise {
    Promise {
        first: |row: Seq<i64>| solves(p, body, j, row),
        second: |row: Seq<i64>| fits(p, body, j, row),
        sent: |row: Seq<i64>| solves(p, body, j + 1, row),
    }
}

/// What is promised of the node that makes the rows of a head: solutions
/// of the whole body reach it, and it sends rows derived for the relation
/// of the head.
pub open spec fn of_head(p: ProgramView, body: Seq<PredicateView>, r: usize) -> Promise {
    Promise {
        first: |row: Seq<i64>| solves(p, body, body.len() as int, row),
        second: |row: Seq<i64>| true,
        sent: |row: Seq<i64>| holds(p, r, row),
    }
}

/// Whether the promises of the two nodes of the relation `r` are about
/// that relation: what its table sends is derived for it, and what is
/// derived for it may feed into it.
pub open spec fn tabled(p: ProgramView, promises: Seq<Promise>, r: int) -> bool {
    &&& forall|row: Seq<i64>|
        #![trigger promises[2 * r + 1].sends(row)]
        promises[2 * r + 1].sends(row) ==> holds(p, r as usize, row)
    &&& forall|row: Seq<i64>|
        #![trigger promises[2 * r].takes(0, row)]
        holds(p, r as usize, row) ==> promises[2 * r].takes(0, row)
}

/// Whether the graph `g` stands as `promises` say and holds the tables of
/// `n` relations of `p`, with promises about those relations.
pub open spec fn stands(p: ProgramView, promises: Seq<Promise>, g: Graph, n: nat) -> bool {
    &&& promised(promises, g)
    &&& 2 * n <= g.operators.len()
    &&& forall|r: int| 0 <= r < n ==> #[trigger] tabled(p, promises, r)
}

/// More promises behind those of the tables leave the tables as promised.
proof fn lemma_tabled_still(
    p: ProgramView,
    promises: Seq<Promise>,
    more: Seq<Promise>,
    n: nat,
)
    requires
        2 * n <= promises.len(),
        promises.is_prefix_of(more),
        forall|r: int| 0 <= r < n ==> #[trigger] tabled(p, promises, r),
    ensures
        forall|r: int| 0 <= r < n ==> #[trigger] tabled(p, more, r),
{
    assert forall|r: int| 0 <= r < n implies #[trigger] tabled(p, more, r) by {
        assert(tabled(p, promises, r));
        assert(more[2 * r] == promises[2 * r]);
        assert(more[2 * r + 1] == promises[2 * r + 1]);
    }
}

/// The tables of `n` relations stand as promised.
pub proof fn lemma_declare_stands(p: ProgramView, n: nat) -> (promises: Seq<Promise>)
    requires
        2 * n + 1 < OUTBOX,
    ensures
        stands(p, promises, declare(Graph::empty(), n), n),
        declare(Graph::empty(), n).operators.len() == 2 * n,
    decreases n,
{
    if n == 0 {
        let promises = Seq::<Promise>::empty();
        assert(Graph::empty().schedule.no_duplicates());
        assert(promised(promises, Graph::empty()));
        promises
    } else {
        let before = lemma_declare_stands(p, (n - 1) as nat);
        let g0 = declare(Graph::empty(), (n - 1) as nat);
        let r = (n - 1) as usize;
        let pr = of_relation(p, r);
        let g1 = g0.with_op(NodeView::Merge);
        let p1 = before.push(pr);
        lemma_with_op_promised(before, g0, pr, NodeView::Merge);
        let g2 = g1.with_op(NodeView::Distinct(Seq::empty()));
        let p2 = p1.push(pr);
        lemma_with_op_promised(p1, g1, pr, NodeView::Distinct(Seq::empty()));
        let from = g0.operators.len() as int;
        assert(passes(p2, from, ((from + 1) as usize, 0usize)));
        lemma_with_edge_promised(p2, g2, from, ((from + 1) as usize, 0usize));
        lemma_tabled_still(p, before, p2, (n - 1) as nat);
        assert(tabled(p, p2, n - 1));
        p2
    }
}

/// A chain that stands as promised stands so with one predicate more
/// joined to it.
pub proof fn lemma_extend_stands(
    p: ProgramView,
    body: Seq<PredicateView>,
    j: int,
    declared: Seq<bool>,
    chain: Chain,
    promises: Seq<Promise>,
) -> (more: Seq<Promise>)
    requires
        0 <= j < body.len(),
        stands(p, promises, chain.net, declared.len()),
        chain.offset == width_before(body, j),
        chain.columns == columns_after(body, j),
        chain.acc < chain.net.operators.len(),
        forall|row: Seq<i64>|
            #![trigger promises[chain.acc as int].sends(row)]
            promises[chain.acc as int].sends(row) ==> solves(p, body, j, row),
        extend(declared, chain, body[j]) is Ok,
    ensures
        ({
            let next = extend(declared, chain, body[j]).unwrap();
            &&& stands(p, more, next.net, declared.len())
            &&& next.offset == width_before(body, j + 1)
            &&& next.columns == columns_after(body, j + 1)
            &&& next.acc < next.net.operators.len()
            &&& forall|row: Seq<i64>|
                #![trigger more[next.acc as int].sends(row)]
                more[next.acc as int].sends(row) ==> solves(p, body, j + 1, row)
        }),
{
    let pred = body[j];
    let b = bind(chain.columns, pred.args, chain.offset);
    let n = chain.net.operators.len() as usize;
    let conditions = seq![Condition::Width(pred.args.len() as usize)] + b.conditions;
    let table = output_of(pred.name);
    // the filter
    let filter = of_filter(p, body, j);
    let g1 = chain.net.with_op(NodeView::Filter(conditions));
    let p1 = promises.push(filter);
    assert(filter.kept_by(NodeView::Filter(conditions)));
    lemma_with_op_promised(promises, chain.net, filter, NodeView::Filter(conditions));
    assert(tabled(p, promises, pred.name as int));
    assert(p1[table as int] == promises[table as int]);
    assert(passes(p1, table as int, (n, 0usize)));
    lemma_with_edge_promised(p1, g1, table as int, (n, 0usize));
    let g2 = g1.with_edge(table as int, (n, 0usize));
    assert(g2 == with_unary(chain.net, NodeView::Filter(conditions), table));
    // the join
    let join = of_join(p, body, j);
    let state = NodeView::Join(JoinState::empty(b.left_key, b.right_key));
    assert forall|w: Seq<i64>, u: Seq<i64>|
        #![trigger join.takes(0, w), join.takes(1, u)]
        join.takes(0, w) && join.takes(1, u) && project(w, b.left_key) is Some && project(
            w,
            b.left_key,
        ) == project(u, b.right_key) implies join.sends(w + u) by {
        assert(meets(u, conditions[0]));
        assert forall|k: int| 0 <= k < b.conditions.len() implies meets(
            u,
            #[trigger] b.conditions[k],
        ) by {
            assert(meets(u, conditions[k + 1]));
        }
        lemma_join_step(p, body, j, w, u);
    }
    assert(join.kept_by(state));
    let g3 = g2.with_op(state);
    let p2 = p1.push(join);
    lemma_with_op_promised(p1, g2, join, state);
    assert(p2[chain.acc as int] == promises[chain.acc as int]);
    assert(passes(p2, chain.acc as int, ((n + 1) as usize, 0usize)));
    lemma_with_edge_promised(p2, g3, chain.acc as int, ((n + 1) as usize, 0usize));
    let g4 = g3.with_edge(chain.acc as int, ((n + 1) as usize, 0usize));
    assert(p2[n as int] == filter);
    assert(passes(p2, n as int, ((n + 1) as usize, 1usize)));
    lemma_with_edge_promised(p2, g4, n as int, ((n + 1) as usize, 1usize));
    lemma_tabled_still(p, promises, p2, declared.len());
    p2
}

/// A chain that stands as promised at its start stands so with the first
/// `j` predicates of its body joined to it.
pub proof fn lemma_extend_all_stands(
    p: ProgramView,
    body: Seq<PredicateView>,
    j: int,
    declared: Seq<bool>,
    seeded: Chain,
    promises: Seq<Promise>,
) -> (more: Seq<Promise>)
    requires
        0 <= j <= body.len(),
        stands(p, promises, seeded.net, declared.len()),
        seeded.offset == 0,
        seeded.columns == Seq::<(usize, usize)>::empty(),
        seeded.acc < seeded.net.operators.len(),
        forall|row: Seq<i64>|
            #![trigger promises[seeded.acc as int].sends(row)]
            promises[seeded.acc as int].sends(row) ==> solves(p, body, 0, row),
        extend_all(declared, seeded, body.take(j)) is Ok,
    ensures
        ({
            let chain = extend_all(declared, seeded, body.take(j)).unwrap();
            &&& stands(p, more, chain.net, declared.len())
            &&& chain.offset == width_before(body, j)
            &&& chain.columns == columns_after(body, j)
            &&& chain.acc < chain.net.operators.len()
            &&& forall|row: Seq<i64>|
                #![trigger more[chain.acc as int].sends(row)]
                more[chain.acc as int].sends(row) ==> solves(p, body, j, row)
        }),
    decreases j,
{
    if j == 0 {
        promises
    } else {
        assert(body.take(j).drop_last() =~= body.take(j - 1));
        assert(body.take(j).last() == body[j - 1]);
        let before = lemma_extend_all_stands(p, body, j - 1, declared, seeded, promises);
        let chain = extend_all(declared, seeded, body.take(j - 1)).unwrap();
        lemma_extend_stands(p, body, j - 1, declared, chain, before)
    }
}

/// A graph that stands as promised stands so with one clause of the
/// program more built into it.
pub proof fn lemma_build_clause_stands(
    p: ProgramView,
    c: int,
    declared: Seq<bool>,
    net: Graph,
    promises: Seq<Promise>,
) -> (more: Seq<Promise>)
    requires
        0 <= c < p.clauses.len(),
        p.clauses[c].head.name < declared.len(),
        stands(p, promises, net, declared.len()),
        build_clause(declared, net, p.clauses[c]) is Ok,
    ensures
        stands(p, more, build_clause(declared, net, p.clauses[c]).unwrap(), declared.len()),
{
    let clause = p.clauses[c];
    let body = clause.body;
    let n = body.len() as int;
    let source = NodeView::Source(seq![Seq::<i64>::empty()]);
    let seeded = Chain {
        net: net.with_op(source),
        acc: net.operators.len() as usize,
        offset: 0,
        columns: Seq::empty(),
    };
    let seed = of_seed(p, body);
    let none = |x: usize| 0i64;
    assert(solution(body, 0, none) == Seq::<i64>::empty());
    assert(solves(p, body, 0, Seq::<i64>::empty()));
    assert(seed.kept_by(source));
    lemma_with_op_promised(promises, net, seed, source);
    let p0 = promises.push(seed);
    lemma_tabled_still(p, promises, p0, declared.len());
    assert(body.take(n) =~= body);
    let p1 = lemma_extend_all_stands(p, body, n, declared, seeded, p0);
    let chain = extend_all(declared, seeded, body).unwrap();
    let terms = head_terms(chain.columns, clause.head.args).unwrap();
    let head = of_head(p, body, clause.head.name);
    let project_state = NodeView::Project(terms);
    assert forall|row: Seq<i64>|
        #![trigger head.takes(0, row)]
        head.takes(0, row) && pick(row, terms) is Some implies head.sends(
        pick(row, terms).unwrap(),
    ) by {
        lemma_head_step(p, c, row, terms);
    }
    assert(head.kept_by(project_state));
    lemma_with_op_promised(p1, chain.net, head, project_state);
    let at = chain.net.operators.len() as usize;
    let p2 = p1.push(head);
    let g1 = chain.net.with_op(project_state);
    assert(p2[chain.acc as int] == p1[chain.acc as int]);
    assert(passes(p2, chain.acc as int, (at, 0usize)));
    lemma_with_edge_promised(p2, g1, chain.acc as int, (at, 0usize));
    let g2 = g1.with_edge(chain.acc as int, (at, 0usize));
    lemma_tabled_still(p, p1, p2, declared.len());
    assert(tabled(p, p2, clause.head.name as int));
    assert(passes(p2, at as int, (input_of(clause.head.name), 0usize)));
    lemma_with_edge_promised(p2, g2, at as int, (input_of(clause.head.name), 0usize));
    p2
}

/// A graph that stands as promised stands so with the first `k` clauses
/// of the program built into it.
pub proof fn lemma_build_clauses_stands(
    p: ProgramView,
    k: int,
    declared: Seq<bool>,
    net: Graph,
    promises: Seq<Promise>,
) -> (more: Seq<Promise>)
    requires
        0 <= k <= p.clauses.len(),
        forall|c: int| 0 <= c < p.clauses.len() ==> (#[trigger] p.clauses[c]).head.name < declared.len(),
        stands(p, promises, net, declared.len()),
        build_clauses(declared, net, p.clauses.take(k)) is Ok,
    ensures
        stands(p, more, build_clauses(declared, net, p.clauses.take(k)).unwrap(), declared.len()),
    decreases k,
{
    if k == 0 {
        promises
    } else {
        assert(p.clauses.take(k).drop_last() =~= p.clauses.take(k - 1));
        assert(p.clauses.take(k).last() == p.clauses[k - 1]);
        let before = lemma_build_clauses_stands(p, k - 1, declared, net, promises);
        lemma_build_clause_stands(
            p,
            k - 1,
            declared,
            build_clauses(declared, net, p.clauses.take(k - 1)).unwrap(),
            before,
        )
    }
}

/// The graph of a program stands as promised: whatever travels through
/// it is derived by the clauses of the program.
pub proof fn lemma_compile_stands(p: ProgramView) -> (promises: Seq<Promise>)
    requires
        p.wf(),
        compile(p) is Ok,
    ensures
        stands(p, promises, compile(p).unwrap(), p.names.len()),
{
    let tables = lemma_declare_stands(p, p.names.len());
    assert(p.clauses.take(p.clauses.len() as int) =~= p.clauses);
    lemma_build_clauses_stands(
        p,
        p.clauses.len() as int,
        declared_flags(p),
        declare(Graph::empty(), p.names.len()),
        tables,
    )
}

/// Rendering is sound: every row that it gives for a relation is a row
/// that the clauses of the program derive for that relation.
pub proof fn lemma_render_sound(p: ProgramView, name: Seq<char>, budget: nat, i: int)
    requires
        p.wf(),
        render(p, name, budget) is Ok,
        0 <= i < render(p, name, budget).unwrap().len(),
    ensures
        holds(p, p.names.index_of(name) as usize, render(p, name, budget).unwrap()[i]),
{
    let r = p.names.index_of(name);
    assert(0 <= r < p.names.len());
    let net = compile(p).unwrap();
    let promises = lemma_compile_stands(p);
    let sink = of_relation(p, r as usize);
    let state = NodeView::Sink(Seq::empty());
    assert(sink.kept_by(state));
    lemma_with_op_promised(promises, net, sink, state);
    let more = promises.push(sink);
    let at = net.operators.len() as usize;
    let table = output_of(r as usize);
    assert(tabled(p, promises, r));
    assert(more[table as int] == promises[table as int]);
    assert(passes(more, table as int, (at, 0usize)));
    lemma_with_edge_promised(more, net.with_op(state), table as int, (at, 0usize));
    let start = with_unary(net, state, table);
    lemma_run_promised(more, start, budget);
    let end = run_for::<Vec<i64>, Node>(start, budget);
    assert(more[at as int].kept_by(end.operators[at as int]));
}

} // verus!
