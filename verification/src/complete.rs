//! Rendering is complete: every row that the clauses of the program derive
//! for a relation is among the rows that rendering gives.

use crate::babyflow::lemma_step_keeps_wf;
use crate::babyflow::run_for;
use crate::babyflow::step;
use crate::compile::bind;
use crate::compile::column_of;
use crate::compile::input_of;
use crate::compile::output_of;
use crate::flow::keyed;
use crate::flow::lemma_step_here;
use crate::layout::filter_at;
use crate::layout::fresh;
use crate::layout::head_at;
use crate::layout::join_at;
use crate::layout::laid;
use crate::layout::lemma_nodes_before;
use crate::layout::line_laid;
use crate::layout::relation_laid;
use crate::layout::seed_at;
use crate::layout::stage_laid;
use crate::layout::terms_at;
use crate::node::Node;
use crate::node::NodeView;
use crate::program::ProgramView;
use crate::query::table_of;
use crate::query::Graph;
use crate::reach::is_join;
use crate::reach::is_seed;
use crate::reach::lemma_filter_stays;
use crate::reach::lemma_head_stays;
use crate::reach::lemma_join_stays;
use crate::reach::lemma_merge_stays;
use crate::reach::lemma_pairs_headed_step;
use crate::reach::lemma_pairs_joined_step;
use crate::reach::lemma_seed_headed_step;
use crate::reach::lemma_seed_joined_step;
use crate::reach::lemma_seed_stays;
use crate::reach::lemma_table_fed_step;
use crate::reach::lemma_table_stays;
use crate::reach::merges_into;
use crate::reach::pair_of;
use crate::reach::pairs_headed;
use crate::reach::pairs_joined;
use crate::reach::seed_headed;
use crate::reach::seed_joined;
use crate::reach::seeded;
use crate::reach::table_fed;
use crate::reach::tables_of;
use crate::layout::conditions_at;
use crate::layout::left_key_at;
use crate::layout::right_key_at;
use crate::compile::compile;
use crate::compile::render;
use crate::layout::lemma_compile_laid;
use crate::layout::lemma_laid_extends;
use crate::layout::lemma_with_edge_extends;
use crate::layout::lemma_with_edge_fresh;
use crate::layout::lemma_with_op_extends;
use crate::layout::lemma_with_op_fresh;
use crate::layout::lemma_extends_twice;
use crate::meaning::derives;
use crate::meaning::holds;
use crate::meaning::instance;
use crate::query::with_unary;
use crate::reach::fed;
use crate::reach::headed;
use crate::reach::joined_left;
use crate::reach::joined_right;
use crate::reach::tabled_row;
use crate::sound::lemma_render_sound;
use crate::tables::lemma_render_at_rest;
use crate::tables::lemma_render_gives_table;
use crate::meaning::value_of;
use crate::program::Atom;
use crate::program::PredicateView;
use crate::relation::meets;
use crate::relation::meets_all;
use crate::relation::pick;
use crate::relation::project;
use crate::relation::Condition;
use crate::relation::Term;
use crate::sound::before_offset;
use crate::sound::columns_after;
use crate::sound::lemma_bind;
use crate::sound::lemma_column_of_entry;
use crate::sound::lemma_columns_fit;
use crate::sound::lemma_head_terms;
use crate::sound::lemma_solution_at_column;
use crate::sound::lemma_solution_len;
use crate::sound::lemma_width_grows;
use crate::sound::solution;
use crate::sound::width_before;
use vstd::prelude::*;

verus! {

/// Whether the keys and the conditions that binding the arguments `args`
/// gives speak of those arguments only: each pair of key columns is a
/// column bound before and a place of its variable, each condition a place
/// of a literal with that literal or two places of one variable.
pub open spec fn binds_only(columns: Seq<(usize, usize)>, args: Seq<Atom>, offset: usize) -> bool {
    let b = bind(columns, args, offset);
    &&& forall|k: int|
        0 <= k < b.left_key.len() ==> {
            &&& (#[trigger] b.right_key[k]) < args.len()
            &&& args[b.right_key[k] as int] is Var
            &&& column_of(columns, args[b.right_key[k] as int]->Var_0) == Some(b.left_key[k])
        }
    &&& forall|k: int|
        0 <= k < b.conditions.len() ==> match #[trigger] b.conditions[k] {
            Condition::Is(place, c) => place < args.len() && args[place as int] == Atom::Lit(c),
            Condition::Same(first, place) => {
                &&& first < args.len()
                &&& place < args.len()
                &&& args[first as int] is Var
                &&& args[first as int] == args[place as int]
            },
            Condition::Width(n) => false,
        }
}

/// Binding the arguments of a predicate gives what [`binds_only`] says.
pub proof fn lemma_bind_only(columns: Seq<(usize, usize)>, args: Seq<Atom>, offset: usize)
    requires
        before_offset(columns, offset as int),
        offset + args.len() <= usize::MAX,
    ensures
        binds_only(columns, args, offset),
    decreases args.len(),
{
    let b = bind(columns, args, offset);
    if args.len() > 0 {
        let head = args.drop_last();
        let place = args.len() - 1;
        lemma_bind_only(columns, head, offset);
        lemma_bind(columns, head, offset);
        let before = bind(columns, head, offset);
        assert forall|k: int| 0 <= k < before.left_key.len() implies {
            &&& (#[trigger] b.right_key[k]) < args.len()
            &&& args[b.right_key[k] as int] is Var
            &&& column_of(columns, args[b.right_key[k] as int]->Var_0) == Some(b.left_key[k])
        } by {
            assert(b.right_key[k] == before.right_key[k]);
            assert(b.left_key[k] == before.left_key[k]);
            assert(head[before.right_key[k] as int] == args[before.right_key[k] as int]);
        }
        assert forall|k: int| 0 <= k < before.conditions.len() implies match #[trigger] b.conditions[k] {
            Condition::Is(q, c) => q < args.len() && args[q as int] == Atom::Lit(c),
            Condition::Same(first, q) => {
                &&& first < args.len()
                &&& q < args.len()
                &&& args[first as int] is Var
                &&& args[first as int] == args[q as int]
            },
            Condition::Width(n) => false,
        } by {
            assert(b.conditions[k] == before.conditions[k]);
            match before.conditions[k] {
                Condition::Is(q, c) => {
                    assert(head[q as int] == args[q as int]);
                },
                Condition::Same(first, q) => {
                    assert(head[first as int] == args[first as int]);
                    assert(head[q as int] == args[q as int]);
                },
                Condition::Width(n) => {},
            }
        }
        match args[place] {
            Atom::Lit(c) => {},
            Atom::Var(x) => {
                lemma_column_of_entry(columns, x);
                match column_of(before.columns, x) {
                    Some(c) => {
                        if c < offset {
                            assert(column_of(columns, x) == Some(c));
                        } else {
                            if column_of(columns, x) is Some {
                                let col = column_of(columns, x).unwrap();
                                let k = choose|k: int|
                                    0 <= k < columns.len() && #[trigger] columns[k] == (x, col);
                                assert(columns[k].1 < offset);
                            }
                            assert(head[c - offset] == Atom::Var(x));
                            assert(args[c - offset] == head[c - offset]);
                        }
                    },
                    None => {},
                }
            },
        }
    }
}

/// The row that a predicate makes under values of the variables meets the
/// conditions that the predicate puts on a row.
pub proof fn lemma_instance_meets(body: Seq<PredicateView>, j: int, v: spec_fn(usize) -> i64)
    requires
        0 <= j < body.len(),
        width_before(body, j + 1) <= usize::MAX,
    ensures
        meets_all(instance(body[j].args, v), conditions_at(body, j)),
{
    let columns = columns_after(body, j);
    let offset = width_before(body, j);
    let args = body[j].args;
    let b = bind(columns, args, offset as usize);
    let u = instance(args, v);
    lemma_width_grows(body, j, j + 1);
    lemma_width_grows(body, 0, j);
    lemma_columns_fit(body, j);
    lemma_bind_only(columns, args, offset as usize);
    let all = conditions_at(body, j);
    assert forall|k: int| 0 <= k < all.len() implies meets(u, #[trigger] all[k]) by {
        if k > 0 {
            assert(all[k] == b.conditions[k - 1]);
        }
    }
}

/// The solution of the predicates before a predicate and the row that the
/// predicate makes, under the same values of the variables, agree on the
/// key columns of its join.
pub proof fn lemma_keys_agree(body: Seq<PredicateView>, j: int, v: spec_fn(usize) -> i64)
    requires
        0 <= j < body.len(),
        width_before(body, j + 1) <= usize::MAX,
    ensures
        project(solution(body, j, v), left_key_at(body, j)) is Some,
        project(solution(body, j, v), left_key_at(body, j)) == project(
            instance(body[j].args, v),
            right_key_at(body, j),
        ),
{
    let columns = columns_after(body, j);
    let offset = width_before(body, j);
    let args = body[j].args;
    let b = bind(columns, args, offset as usize);
    let w = solution(body, j, v);
    let u = instance(args, v);
    lemma_width_grows(body, j, j + 1);
    lemma_width_grows(body, 0, j);
    lemma_columns_fit(body, j);
    lemma_bind(columns, args, offset as usize);
    lemma_bind_only(columns, args, offset as usize);
    lemma_solution_len(body, j, v);
    assert forall|k: int| 0 <= k < b.left_key.len() implies (#[trigger] b.left_key[k]) < w.len()
        && w[b.left_key[k] as int] == u[b.right_key[k] as int] by {
        let place = b.right_key[k];
        let x = args[place as int]->Var_0;
        lemma_solution_at_column(body, j, v, x);
    }
    assert forall|k: int| 0 <= k < b.right_key.len() implies (#[trigger] b.right_key[k]) < u.len() by {
        assert(b.right_key[k] < args.len());
    }
    assert(project(w, b.left_key).unwrap() =~= project(u, b.right_key).unwrap());
}

/// The terms of a head make, of a solution of the whole body, the row that
/// the head makes under the same values of the variables.
pub proof fn lemma_head_row(
    body: Seq<PredicateView>,
    args: Seq<Atom>,
    terms: Seq<Term>,
    v: spec_fn(usize) -> i64,
)
    requires
        width_before(body, body.len() as int) <= usize::MAX,
        crate::compile::head_terms(columns_after(body, body.len() as int), args) == Some(terms),
    ensures
        pick(solution(body, body.len() as int, v), terms) == Some(instance(args, v)),
{
    let n = body.len() as int;
    let columns = columns_after(body, n);
    let w = solution(body, n, v);
    lemma_head_terms(columns, args);
    assert forall|place: int| 0 <= place < terms.len() implies (#[trigger] terms[place] matches Term::Column(
        c,
    ) ==> c < w.len()) by {
        match args[place] {
            Atom::Lit(c) => {},
            Atom::Var(x) => {
                lemma_solution_at_column(body, n, v, x);
            },
        }
    }
    let row = pick(w, terms).unwrap();
    assert forall|place: int| 0 <= place < args.len() implies row[place] == value_of(
        args[place],
        v,
    ) by {
        match args[place] {
            Atom::Lit(c) => {},
            Atom::Var(x) => {
                lemma_solution_at_column(body, n, v, x);
            },
        }
    }
    assert(row =~= instance(args, v));
}

/// Whether the stage of the predicate `j` of the body of the clause `c`
/// stands in `g` and passes rows on: every row of the table of the
/// predicate is bound for the join, and every pair of the join for the
/// join behind it.
pub open spec fn stage_flows(p: ProgramView, g: Graph, c: int, j: int) -> bool {
    let body = p.clauses[c].body;
    let join = join_at(p, c, j);
    &&& stage_laid(p, g, c, j)
    &&& is_join(g, join)
    &&& table_fed(g, output_of(body[j].name) as int, filter_at(p, c, j), join)
    &&& j + 1 < body.len() ==> pairs_joined(g, join, join_at(p, c, j + 1))
}

/// Whether the nodes of the clause `c` stand in `g` and pass rows on, from
/// the source of the chain to the table of the head.
pub open spec fn line_flows(p: ProgramView, g: Graph, c: int) -> bool {
    let clause = p.clauses[c];
    let n = clause.body.len() as int;
    let seed = seed_at(p, c);
    let head = head_at(p, c);
    let m = input_of(clause.head.name) as int;
    let t = output_of(clause.head.name) as int;
    &&& line_laid(p, g, c)
    &&& is_seed(g, seed)
    &&& forall|j: int| 0 <= j < n ==> #[trigger] stage_flows(p, g, c, j)
    &&& if n == 0 {
        seed_headed(g, seed, head, m, t)
    } else {
        seed_joined(g, seed, join_at(p, c, 0)) && pairs_headed(g, join_at(p, c, n - 1), head, m, t)
    }
}

/// Whether the nodes of the program `p` stand in `g` and pass rows on.
pub open spec fn flows(p: ProgramView, g: Graph) -> bool {
    &&& laid(p, g, p.clauses.len() as int)
    &&& forall|c: int| 0 <= c < p.clauses.len() ==> #[trigger] line_flows(p, g, c)
}

/// The shapes that the nodes of a clause make in a graph in which they
/// stand.
pub proof fn lemma_line_shapes(p: ProgramView, g: Graph, c: int)
    requires
        laid(p, g, p.clauses.len() as int),
        0 <= c < p.clauses.len(),
    ensures
        ({
            let clause = p.clauses[c];
            let n = clause.body.len() as int;
            let m = input_of(clause.head.name) as int;
            let t = output_of(clause.head.name) as int;
            &&& 0 <= seed_at(p, c) < head_at(p, c) < g.operators.len()
            &&& merges_into(g, m, t)
            &&& g.operators[head_at(p, c)] is Project
            &&& g.outputs[head_at(p, c)].contains((m as usize, 0usize))
            &&& forall|j: int|
                0 <= j < n ==> {
                    &&& seed_at(p, c) < #[trigger] filter_at(p, c, j) < join_at(p, c, j) < head_at(
                        p,
                        c,
                    )
                    &&& g.operators[output_of(clause.body[j].name) as int] is Distinct
                    &&& 0 <= output_of(clause.body[j].name) < g.operators.len()
                }
        }),
{
    let clause = p.clauses[c];
    let n = clause.body.len() as int;
    lemma_nodes_before(p, c, p.clauses.len() as int);
    lemma_nodes_before(p, 0, c);
    assert(line_laid(p, g, c));
    assert(relation_laid(g, clause.head.name as int));
    assert forall|j: int| 0 <= j < n implies {
        &&& seed_at(p, c) < #[trigger] filter_at(p, c, j) < join_at(p, c, j) < head_at(p, c)
        &&& g.operators[output_of(clause.body[j].name) as int] is Distinct
        &&& 0 <= output_of(clause.body[j].name) < g.operators.len()
    } by {
        assert(stage_laid(p, g, c, j));
        assert(relation_laid(g, clause.body[j].name as int));
    }
}

/// In a graph that has not run, the nodes that stand in it pass rows on.
pub proof fn lemma_fresh_flows(p: ProgramView, g: Graph)
    requires
        laid(p, g, p.clauses.len() as int),
        fresh(g),
    ensures
        flows(p, g),
{
    assert forall|c: int| 0 <= c < p.clauses.len() implies #[trigger] line_flows(p, g, c) by {
        let clause = p.clauses[c];
        let n = clause.body.len() as int;
        lemma_line_shapes(p, g, c);
        assert(line_laid(p, g, c));
        assert forall|j: int| 0 <= j < n implies #[trigger] stage_flows(p, g, c, j) by {
            assert(stage_laid(p, g, c, j));
            assert(filter_at(p, c, j) < join_at(p, c, j));
            let s = tables_of(g.operators[join_at(p, c, j)]);
            assert(s.left.len() == 0 && s.right.len() == 0);
            assert(keyed(s));
            let table = table_of(g.operators[output_of(clause.body[j].name) as int]);
            assert(table.len() == 0);
        }
        if n > 0 {
            assert(stage_flows(p, g, c, n - 1));
            let s = tables_of(g.operators[join_at(p, c, n - 1)]);
            assert(s.left.len() == 0);
        }
    }
}

/// The nodes of a program go on passing rows through one invocation.
pub proof fn lemma_flows_step(p: ProgramView, g: Graph)
    requires
        flows(p, g),
    ensures
        flows(p, step::<Vec<i64>, Node>(g)),
{
    let next = step::<Vec<i64>, Node>(g);
    let count = p.clauses.len() as int;
    lemma_step_keeps_wf::<Vec<i64>, Node>(g);
    if g.schedule.len() > 0 {
        lemma_step_here(g);
    }
    lemma_nodes_before(p, 0, count);
    assert forall|r: int| 0 <= r < p.names.len() implies #[trigger] relation_laid(next, r) by {
        assert(relation_laid(g, r));
        lemma_merge_stays(g, 2 * r, 2 * r + 1);
    }
    assert forall|c: int| 0 <= c < count implies #[trigger] line_flows(p, next, c) by {
        let clause = p.clauses[c];
        let n = clause.body.len() as int;
        let seed = seed_at(p, c);
        let head = head_at(p, c);
        let m = input_of(clause.head.name) as int;
        let t = output_of(clause.head.name) as int;
        assert(line_flows(p, g, c));
        lemma_line_shapes(p, g, c);
        lemma_seed_stays(g, seed);
        lemma_head_stays(g, head, m, t);
        assert forall|j: int| 0 <= j < n implies #[trigger] stage_flows(p, next, c, j) by {
            let filter = filter_at(p, c, j);
            let join = join_at(p, c, j);
            let table = output_of(clause.body[j].name) as int;
            assert(stage_flows(p, g, c, j));
            assert(filter < join);
            lemma_join_stays(g, join);
            lemma_filter_stays(g, filter, join);
            lemma_table_stays(g, table, filter);
            lemma_table_fed_step(g, table, filter, join);
            if j + 1 < n {
                assert(stage_flows(p, g, c, j + 1));
                lemma_pairs_joined_step(g, join, join_at(p, c, j + 1));
            }
        }
        if n == 0 {
            lemma_seed_headed_step(g, seed, head, m, t);
        } else {
            assert(stage_flows(p, g, c, 0));
            assert(stage_flows(p, g, c, n - 1));
            lemma_seed_joined_step(g, seed, join_at(p, c, 0));
            lemma_pairs_headed_step(g, join_at(p, c, n - 1), head, m, t);
        }
        assert forall|j: int| 0 <= j < n implies #[trigger] stage_laid(p, next, c, j) by {
            assert(stage_flows(p, next, c, j));
        }
    }
    assert forall|c: int| 0 <= c < count implies #[trigger] line_laid(p, next, c) by {
        assert(line_flows(p, next, c));
    }
}

/// The nodes of a program go on passing rows however long the graph
/// runs.
pub proof fn lemma_flows_run(p: ProgramView, g: Graph, budget: nat)
    requires
        flows(p, g),
    ensures
        flows(p, run_for::<Vec<i64>, Node>(g, budget)),
    decreases budget,
{
    if budget > 0 && g.schedule.len() > 0 {
        lemma_flows_step(p, g);
        lemma_flows_run(p, step::<Vec<i64>, Node>(g), (budget - 1) as nat);
    }
}

/// Whether the graph `g` is at rest: no node is scheduled, and no row
/// waits.
pub open spec fn at_rest(g: Graph) -> bool {
    &&& g.schedule.len() == 0
    &&& forall|i: int| 0 <= i < g.inboxes.len() ==> (#[trigger] g.inboxes[i]).len() == 0
}

/// Whether the table of the relation `r` holds `row`.
pub open spec fn in_table(g: Graph, r: usize, row: Seq<i64>) -> bool {
    table_of(g.operators[output_of(r) as int]).contains(row)
}

/// At rest, where the tables hold the rows that the first `j + 1`
/// predicates of a body make under some values of the variables, the join
/// of the predicate `j` holds the solution of the predicates before it on
/// its left, and the row of the predicate on its right.
pub proof fn lemma_chain_reaches(
    p: ProgramView,
    g: Graph,
    c: int,
    v: spec_fn(usize) -> i64,
    j: int,
)
    requires
        flows(p, g),
        at_rest(g),
        0 <= c < p.clauses.len(),
        0 <= j < p.clauses[c].body.len(),
        forall|i: int|
            0 <= i <= j ==> in_table(
                g,
                (#[trigger] p.clauses[c].body[i]).name,
                instance(p.clauses[c].body[i].args, v),
            ),
    ensures
        pair_of(
            g,
            join_at(p, c, j),
            solution(p.clauses[c].body, j, v),
            instance(p.clauses[c].body[j].args, v),
        ),
    decreases j,
{
    let clause = p.clauses[c];
    let body = clause.body;
    let n = body.len() as int;
    let seed = seed_at(p, c);
    let join = join_at(p, c, j);
    let filter = filter_at(p, c, j);
    let w = solution(body, j, v);
    let u = instance(body[j].args, v);
    assert(line_flows(p, g, c));
    assert(stage_flows(p, g, c, j));
    lemma_line_shapes(p, g, c);
    assert(filter < join);
    lemma_width_grows(body, j + 1, n);
    lemma_keys_agree(body, j, v);
    lemma_instance_meets(body, j, v);
    let s = tables_of(g.operators[join]);
    // the solution of the predicates before is on the left
    if j == 0 {
        let one = seq![Seq::<i64>::empty()];
        assert(one.len() == 1);
        assert(!seeded(g, seed));
        assert(joined_left(g, join, Seq::empty()));
        assert(g.inboxes[join].len() == 0);
        assert(w == Seq::<i64>::empty());
    } else {
        lemma_chain_reaches(p, g, c, v, j - 1);
        assert(stage_flows(p, g, c, j - 1));
        assert(pair_of(g, join_at(p, c, j - 1), solution(body, j - 1, v), instance(
            body[j - 1].args,
            v,
        )));
        assert(joined_left(g, join, solution(body, j - 1, v) + instance(body[j - 1].args, v)));
        assert(g.inboxes[join].len() == 0);
    }
    assert(s.left.contains(w));
    // the row of the predicate is on the right
    assert(in_table(g, body[j].name, u));
    assert(fed(g, filter, join, u));
    assert(g.inboxes[filter].len() == 0);
    assert(joined_right(g, join, u));
    assert(s.right.contains(u));
}

/// At rest the tables are closed under the clauses: where they hold the
/// rows that the predicates of the body of a clause make under some values
/// of the variables, the table of the head holds the row that the head
/// makes under these values.
pub proof fn lemma_closed_at_rest(p: ProgramView, g: Graph, c: int, v: spec_fn(usize) -> i64)
    requires
        flows(p, g),
        at_rest(g),
        0 <= c < p.clauses.len(),
        forall|i: int|
            0 <= i < p.clauses[c].body.len() ==> in_table(
                g,
                (#[trigger] p.clauses[c].body[i]).name,
                instance(p.clauses[c].body[i].args, v),
            ),
    ensures
        in_table(g, p.clauses[c].head.name, instance(p.clauses[c].head.args, v)),
{
    let clause = p.clauses[c];
    let body = clause.body;
    let n = body.len() as int;
    let seed = seed_at(p, c);
    let head = head_at(p, c);
    let m = input_of(clause.head.name) as int;
    let t = output_of(clause.head.name) as int;
    assert(line_flows(p, g, c));
    assert(line_laid(p, g, c));
    lemma_line_shapes(p, g, c);
    lemma_head_row(body, clause.head.args, terms_at(p, c), v);
    let x = solution(body, n, v);
    let row = instance(clause.head.args, v);
    if n == 0 {
        let one = seq![Seq::<i64>::empty()];
        assert(one.len() == 1);
        assert(!seeded(g, seed));
        assert(x == Seq::<i64>::empty());
    } else {
        lemma_chain_reaches(p, g, c, v, n - 1);
    }
    assert(headed(g, head, m, t, x));
    assert(g.inboxes[head].len() == 0);
    assert(tabled_row(g, m, t, row));
    assert(g.inboxes[m].len() == 0);
    assert(g.inboxes[t].len() == 0);
}

/// At rest the tables hold every row that the clauses derive.
pub proof fn lemma_tables_complete(p: ProgramView, g: Graph, depth: nat, r: usize, row: Seq<i64>)
    requires
        flows(p, g),
        at_rest(g),
        derives(p, depth, r, row),
    ensures
        in_table(g, r, row),
    decreases depth,
{
    let (c, v) = choose|c: int, v: spec_fn(usize) -> i64|
        {
            &&& 0 <= c < p.clauses.len()
            &&& (#[trigger] p.clauses[c]).head.name == r
            &&& #[trigger] instance(p.clauses[c].head.args, v) == row
            &&& forall|j: int|
                0 <= j < p.clauses[c].body.len() ==> derives(
                    p,
                    (depth - 1) as nat,
                    (#[trigger] p.clauses[c].body[j]).name,
                    instance(p.clauses[c].body[j].args, v),
                )
        };
    assert forall|i: int| 0 <= i < p.clauses[c].body.len() implies in_table(
        g,
        (#[trigger] p.clauses[c].body[i]).name,
        instance(p.clauses[c].body[i].args, v),
    ) by {
        lemma_tables_complete(
            p,
            g,
            (depth - 1) as nat,
            p.clauses[c].body[i].name,
            instance(p.clauses[c].body[i].args, v),
        );
    }
    lemma_closed_at_rest(p, g, c, v);
}

/// Rendering is complete: every row that the clauses of the program derive
/// for a relation is among the rows that rendering gives for it.
pub proof fn lemma_render_complete(p: ProgramView, name: Seq<char>, budget: nat, row: Seq<i64>)
    requires
        p.wf(),
        render(p, name, budget) is Ok,
        holds(p, p.names.index_of(name) as usize, row),
    ensures
        render(p, name, budget).unwrap().contains(row),
{
    let r = p.names.index_of(name);
    assert(0 <= r < p.names.len());
    let net = compile(p).unwrap();
    let count = p.clauses.len() as int;
    lemma_compile_laid(p);
    lemma_nodes_before(p, 0, count);
    let state = NodeView::Sink(Seq::empty());
    let table = output_of(r as usize);
    let at = net.operators.len() as usize;
    let g1 = net.with_op(state);
    let start = with_unary(net, state, table);
    assert(start == g1.with_edge(table as int, (at, 0usize)));
    lemma_with_op_fresh(net, state);
    lemma_with_edge_fresh(g1, table as int, (at, 0usize));
    lemma_with_op_extends(net, state);
    lemma_with_edge_extends(g1, table as int, (at, 0usize));
    lemma_extends_twice(net, g1, start);
    assert(start.wf());
    lemma_laid_extends(p, net, start, count);
    lemma_fresh_flows(p, start);
    lemma_flows_run(p, start, budget);
    let end = run_for::<Vec<i64>, Node>(start, budget);
    lemma_render_at_rest(p, name, budget);
    lemma_render_gives_table(p, name, budget);
    assert(end.inboxes.len() == end.operators.len());
    crate::babyflow::lemma_run_keeps_shape::<Vec<i64>, Node>(start, budget);
    assert(at_rest(end));
    let relation = r as usize;
    let depth = choose|depth: nat| derives(p, depth, relation, row);
    lemma_tables_complete(p, end, depth, relation, row);
}

/// Rendering gives what the program means: the rows that it gives for a
/// relation are the rows that the clauses derive for that relation, each
/// of them once.
pub proof fn lemma_render_exact(p: ProgramView, name: Seq<char>, budget: nat)
    requires
        p.wf(),
        render(p, name, budget) is Ok,
    ensures
        render(p, name, budget).unwrap().no_duplicates(),
        forall|row: Seq<i64>|
            #[trigger] render(p, name, budget).unwrap().contains(row) <==> holds(
                p,
                p.names.index_of(name) as usize,
                row,
            ),
{
    let rows = render(p, name, budget).unwrap();
    let relation = p.names.index_of(name) as usize;
    lemma_render_gives_table(p, name, budget);
    assert forall|row: Seq<i64>| #[trigger] rows.contains(row) <==> holds(p, relation, row) by {
        if holds(p, relation, row) {
            lemma_render_complete(p, name, budget, row);
        }
        if rows.contains(row) {
            let i = choose|i: int| 0 <= i < rows.len() && rows[i] == row;
            lemma_render_sound(p, name, budget, i);
        }
    }
}

} // verus!
