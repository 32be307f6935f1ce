//! From a program to the graph that evaluates it: every relation a table
//! that feeds on the clauses with that relation in their heads, every
//! clause a chain of joins over the tables that its body names.

use crate::babyflow::lemma_run_keeps_shape;
use crate::complete::lemma_render_exact;
use crate::meaning::holds;
use crate::babyflow::run_for;
use crate::babyflow::InputPort;
use crate::babyflow::OUTBOX;
use crate::join::JoinState;
use crate::node::Node;
use crate::node::NodeView;
use crate::program::Atom;
use crate::program::Clause;
use crate::program::ClauseView;
use crate::program::Predicate;
use crate::program::predicates_view;
use crate::program::PredicateView;
use crate::program::Program;
use crate::program::ProgramView;
use crate::query::with_binary;
use crate::query::with_unary;
use crate::query::Graph;
use crate::query::Operator;
use crate::query::Query;
use crate::relation::views;
use crate::relation::Condition;
use crate::relation::Term;
use vstd::prelude::*;

verus! {

/// Why a relation could not be rendered.
#[derive(Clone, Copy, Debug, PartialEq, Eq, Structural)]
pub enum RenderError {
    /// The relation asked for, or one that a body names, has no clause.
    UndeclaredRelation,
    /// A head holds a variable that the body of its clause does not hold.
    UnboundVariable,
    /// The graph would have more nodes, or a row more columns, than can be
    /// counted.
    TooLarge,
    /// Nodes were still scheduled when the budget was spent.
    OutOfBudget,
}

/// The column to which `columns` binds the variable `var`, if they bind it.
/// Each entry of `columns` is a variable and its column.
pub open spec fn column_of(columns: Seq<(usize, usize)>, var: usize) -> Option<usize>
    decreases columns.len(),
{
    if columns.len() == 0 {
        None
    } else if columns.last().0 == var {
        Some(columns.last().1)
    } else {
        column_of(columns.drop_last(), var)
    }
}

/// What the arguments of a body predicate come to, given the columns bound
/// so far.
pub struct Binding {
    /// The columns of the chain that hold the variables shared with it.
    pub left_key: Seq<usize>,
    /// Where the predicate holds those variables, in the same order.
    pub right_key: Seq<usize>,
    /// What a row of the relation must meet to fit the predicate.
    pub conditions: Seq<Condition>,
    /// The columns bound afterwards.
    pub columns: Seq<(usize, usize)>,
}

/// The arguments `args` of a body predicate, taken from the first to the
/// last, where the chain has `offset` columns before those of the
/// predicate and `columns` binds variables to columns. A literal is a
/// condition on its place. A variable bound by the chain is a pair of key
/// columns; one bound by an earlier place of this predicate is a condition
/// that the two places agree; a new one is bound to its place, counted from
/// the start of the chain's rows.
pub open spec fn bind(columns: Seq<(usize, usize)>, args: Seq<Atom>, offset: usize) -> Binding
    decreases args.len(),
{
    if args.len() == 0 {
        Binding { left_key: Seq::empty(), right_key: Seq::empty(), conditions: Seq::empty(), columns }
    } else {
        let before = bind(columns, args.drop_last(), offset);
        let place = (args.len() - 1) as usize;
        match args.last() {
            Atom::Lit(v) => Binding {
                conditions: before.conditions.push(Condition::Is(place, v)),
                ..before
            },
            Atom::Var(x) => match column_of(before.columns, x) {
                Some(c) => if c < offset {
                    Binding {
                        left_key: before.left_key.push(c),
                        right_key: before.right_key.push(place),
                        ..before
                    }
                } else {
                    Binding {
                        conditions: before.conditions.push(
                            Condition::Same((c - offset) as usize, place),
                        ),
                        ..before
                    }
                },
                None => Binding {
                    columns: before.columns.push((x, (offset + place) as usize)),
                    ..before
                },
            },
        }
    }
}

/// The terms that make a row of the head out of a row of the chain: a
/// literal for a literal, for a variable the column that `columns` binds it
/// to. Nothing where a variable is not bound.
pub open spec fn head_terms(columns: Seq<(usize, usize)>, args: Seq<Atom>) -> Option<Seq<Term>>
    decreases args.len(),
{
    if args.len() == 0 {
        Some(Seq::empty())
    } else {
        match head_terms(columns, args.drop_last()) {
            None => None,
            Some(before) => match args.last() {
                Atom::Lit(v) => Some(before.push(Term::Literal(v))),
                Atom::Var(x) => match column_of(columns, x) {
                    Some(c) => Some(before.push(Term::Column(c))),
                    None => None,
                },
            },
        }
    }
}

/// The column to which `columns` binds the variable `var`, if they bind it.
pub fn find_column(columns: &Vec<(usize, usize)>, var: usize) -> (r: Option<usize>)
    ensures
        r == column_of(columns@, var),
{
    let mut i: usize = columns.len();
    proof {
        assert(columns@.take(i as int) =~= columns@);
    }
    while i > 0
        invariant
            i <= columns.len(),
            column_of(columns@, var) == column_of(columns@.take(i as int), var),
        decreases i,
    {
        proof {
            assert(columns@.take(i as int).drop_last() =~= columns@.take(i - 1));
        }
        if columns[i - 1].0 == var {
            return Some(columns[i - 1].1);
        }
        i -= 1;
    }
    None
}

/// What [`bind_args`] gives: the key columns on both sides, and the
/// conditions.
pub struct Bound {
    pub left_key: Vec<usize>,
    pub right_key: Vec<usize>,
    pub conditions: Vec<Condition>,
}

/// Takes the arguments `args` of a body predicate as [`bind`] says, and
/// enters the variables that they bind in `columns`.
pub fn bind_args(columns: &mut Vec<(usize, usize)>, args: &Vec<Atom>, offset: usize) -> (r: Bound)
    requires
        offset + args.len() <= usize::MAX,
    ensures
        r.left_key@ == bind(old(columns)@, args@, offset).left_key,
        r.right_key@ == bind(old(columns)@, args@, offset).right_key,
        r.conditions@ == bind(old(columns)@, args@, offset).conditions,
        final(columns)@ == bind(old(columns)@, args@, offset).columns,
{
    let mut left_key: Vec<usize> = Vec::new();
    let mut right_key: Vec<usize> = Vec::new();
    let mut conditions: Vec<Condition> = Vec::new();
    let mut i: usize = 0;
    while i < args.len()
        invariant
            i <= args.len(),
            offset + args.len() <= usize::MAX,
            left_key@ == bind(old(columns)@, args@.take(i as int), offset).left_key,
            right_key@ == bind(old(columns)@, args@.take(i as int), offset).right_key,
            conditions@ == bind(old(columns)@, args@.take(i as int), offset).conditions,
            columns@ == bind(old(columns)@, args@.take(i as int), offset).columns,
        decreases args.len() - i,
    {
        proof {
            assert(args@.take(i + 1).drop_last() =~= args@.take(i as int));
        }
        match args[i] {
            Atom::Lit(v) => {
                conditions.push(Condition::Is(i, v));
            },
            Atom::Var(x) => {
                match find_column(columns, x) {
                    Some(c) => {
                        if c < offset {
                            left_key.push(c);
                            right_key.push(i);
                        } else {
                            conditions.push(Condition::Same(c - offset, i));
                        }
                    },
                    None => {
                        columns.push((x, offset + i));
                    },
                }
            },
        }
        i += 1;
    }
    proof {
        assert(args@.take(i as int) =~= args@);
    }
    Bound { left_key, right_key, conditions }
}

/// The terms that make a row of the head, as [`head_terms`] says.
pub fn terms_of_head(columns: &Vec<(usize, usize)>, args: &Vec<Atom>) -> (r: Option<Vec<Term>>)
    ensures
        match r {
            Some(terms) => head_terms(columns@, args@) == Some(terms@),
            None => head_terms(columns@, args@) is None,
        },
{
    let mut terms: Vec<Term> = Vec::new();
    let mut i: usize = 0;
    while i < args.len()
        invariant
            i <= args.len(),
            head_terms(columns@, args@.take(i as int)) == Some(terms@),
        decreases args.len() - i,
    {
        proof {
            assert(args@.take(i + 1).drop_last() =~= args@.take(i as int));
        }
        match args[i] {
            Atom::Lit(v) => {
                terms.push(Term::Literal(v));
            },
            Atom::Var(x) => {
                match find_column(columns, x) {
                    Some(c) => {
                        terms.push(Term::Column(c));
                    },
                    None => {
                        proof {
                            lemma_head_terms_fail(columns@, args@, i as int);
                        }
                        return None;
                    },
                }
            },
        }
        i += 1;
    }
    proof {
        assert(args@.take(i as int) =~= args@);
    }
    Some(terms)
}

/// Where the arguments up to some place have no terms, all of them have
/// none.
proof fn lemma_head_terms_fail(columns: Seq<(usize, usize)>, args: Seq<Atom>, i: int)
    requires
        0 <= i < args.len(),
        head_terms(columns, args.take(i + 1)) is None,
    ensures
        head_terms(columns, args) is None,
    decreases args.len(),
{
    if i + 1 < args.len() {
        assert(args.drop_last().take(i + 1) =~= args.take(i + 1));
        lemma_head_terms_fail(columns, args.drop_last(), i);
    } else {
        assert(args.take(i + 1) =~= args);
    }
}

/// The node into which the clauses of the relation `r` feed.
pub open spec fn input_of(r: usize) -> usize {
    (2 * r) as usize
}

/// The node out of which the rows of the relation `r` come, each once.
pub open spec fn output_of(r: usize) -> usize {
    (2 * r + 1) as usize
}

/// The graph `net` with the tables of `n` relations more: for each a node
/// that merges what feeds into the relation, and behind it one that lets
/// each row through once.
pub open spec fn declare(net: Graph, n: nat) -> Graph
    decreases n,
{
    if n == 0 {
        net
    } else {
        let before = declare(net, (n - 1) as nat);
        with_unary(
            before.with_op(NodeView::Merge),
            NodeView::Distinct(Seq::empty()),
            before.operators.len() as usize,
        )
    }
}

/// A chain of joins under construction: the graph, the node at the end of
/// the chain, the number of columns of its rows, and the columns that hold
/// the variables met so far.
pub struct Chain {
    pub net: Graph,
    pub acc: usize,
    pub offset: usize,
    pub columns: Seq<(usize, usize)>,
}

/// The chain `chain` with the body predicate `p` joined to it: the rows of
/// the relation of `p` that fit `p`, joined to the rows of the chain on
/// the variables that both hold. `declared` says of each relation whether
/// it has a clause.
pub open spec fn extend(declared: Seq<bool>, chain: Chain, p: PredicateView) -> Result<
    Chain,
    RenderError,
> {
    if !(p.name < declared.len() && declared[p.name as int]) {
        Err(RenderError::UndeclaredRelation)
    } else if chain.net.operators.len() + 2 >= OUTBOX || chain.offset + p.args.len()
        > usize::MAX {
        Err(RenderError::TooLarge)
    } else {
        let b = bind(chain.columns, p.args, chain.offset);
        let n = chain.net.operators.len() as usize;
        let filtered = with_unary(
            chain.net,
            NodeView::Filter(seq![Condition::Width(p.args.len() as usize)] + b.conditions),
            output_of(p.name),
        );
        let joined = with_binary(
            filtered,
            NodeView::Join(JoinState::empty(b.left_key, b.right_key)),
            chain.acc,
            n,
        );
        Ok(
            Chain {
                net: joined,
                acc: (n + 1) as usize,
                offset: (chain.offset + p.args.len()) as usize,
                columns: b.columns,
            },
        )
    }
}

/// The chain `chain` with the predicates of `body` joined to it, from the
/// first to the last.
pub open spec fn extend_all(declared: Seq<bool>, chain: Chain, body: Seq<PredicateView>) -> Result<
    Chain,
    RenderError,
>
    decreases body.len(),
{
    if body.len() == 0 {
        Ok(chain)
    } else {
        match extend_all(declared, chain, body.drop_last()) {
            Ok(before) => extend(declared, before, body.last()),
            Err(e) => Err(e),
        }
    }
}

/// The graph `net` with the clause `clause` built into it: a source of one
/// empty row, the chain of joins over the body, and the rows of the head
/// made of what comes out, fed into the relation of the head.
pub open spec fn build_clause(declared: Seq<bool>, net: Graph, clause: ClauseView) -> Result<
    Graph,
    RenderError,
> {
    if net.operators.len() + 1 >= OUTBOX {
        Err(RenderError::TooLarge)
    } else {
        let seeded = Chain {
            net: net.with_op(NodeView::Source(seq![Seq::empty()])),
            acc: net.operators.len() as usize,
            offset: 0,
            columns: Seq::empty(),
        };
        match extend_all(declared, seeded, clause.body) {
            Err(e) => Err(e),
            Ok(chain) => match head_terms(chain.columns, clause.head.args) {
                None => Err(RenderError::UnboundVariable),
                Some(terms) => if chain.net.operators.len() + 1 >= OUTBOX {
                    Err(RenderError::TooLarge)
                } else {
                    Ok(
                        with_unary(chain.net, NodeView::Project(terms), chain.acc).with_edge(
                            chain.net.operators.len() as int,
                            (input_of(clause.head.name), 0),
                        ),
                    )
                },
            },
        }
    }
}

/// The graph `net` with the clauses `clauses` built into it, from the first
/// to the last.
pub open spec fn build_clauses(declared: Seq<bool>, net: Graph, clauses: Seq<ClauseView>) -> Result<
    Graph,
    RenderError,
>
    decreases clauses.len(),
{
    if clauses.len() == 0 {
        Ok(net)
    } else {
        match build_clauses(declared, net, clauses.drop_last()) {
            Ok(before) => build_clause(declared, before, clauses.last()),
            Err(e) => Err(e),
        }
    }
}

/// Whether `handles` are the tables of the relations in the graph `net`:
/// for the relation `r` the input of the node `input_of(r)` and the output
/// of the node `output_of(r)`, both nodes of `net`.
pub open spec fn tables_in(handles: Seq<(InputPort, Operator)>, net: Graph) -> bool {
    &&& 2 * handles.len() <= net.operators.len()
    &&& forall|r: int|
        0 <= r < handles.len() ==> {
            &&& (#[trigger] handles[r]).0.id() == 2 * r
            &&& handles[r].0.port() == 0
            &&& handles[r].1.id() == 2 * r + 1
        }
}

/// Adds to the empty graph `q` the tables of `n` relations.
pub fn declare_tables(q: &mut Query, n: usize) -> (handles: Vec<(InputPort, Operator)>)
    requires
        old(q).wf(),
        old(q)@.operators.len() == 0,
        2 * n + 1 < OUTBOX,
    ensures
        final(q).wf(),
        final(q)@ == declare(old(q)@, n as nat),
        final(q)@.operators.len() == 2 * n,
        handles@.len() == n,
        tables_in(handles@, final(q)@),
{
    let mut handles: Vec<(InputPort, Operator)> = Vec::new();
    let mut r: usize = 0;
    while r < n
        invariant
            r <= n,
            2 * n + 1 < OUTBOX,
            q.wf(),
            q@ == declare(old(q)@, r as nat),
            q@.operators.len() == 2 * r,
            handles@.len() == r,
            tables_in(handles@, q@),
        decreases n - r,
    {
        let (input, merged) = q.merge();
        let output = merged.distinct(q);
        handles.push((input, output));
        r += 1;
    }
    handles
}

/// Joins the body predicate `p` to the chain that ends in `acc`, as
/// [`extend`] says, and gives the new end of the chain and the number of
/// columns of its rows.
pub fn extend_chain(
    q: &mut Query,
    handles: &Vec<(InputPort, Operator)>,
    declared: &Vec<bool>,
    acc: Operator,
    offset: usize,
    columns: &mut Vec<(usize, usize)>,
    p: &Predicate,
) -> (r: Result<(Operator, usize), RenderError>)
    requires
        old(q).wf(),
        tables_in(handles@, old(q)@),
        handles@.len() == declared@.len(),
        acc.id() < old(q)@.operators.len(),
    ensures
        match extend(
            declared@,
            Chain { net: old(q)@, acc: acc.id(), offset, columns: old(columns)@ },
            p@,
        ) {
            Ok(chain) => {
                &&& r matches Ok(end)
                &&& end.0.id() == chain.acc
                &&& end.1 == chain.offset
                &&& final(q).wf()
                &&& final(q)@ == chain.net
                &&& final(columns)@ == chain.columns
                &&& tables_in(handles@, final(q)@)
                &&& end.0.id() < final(q)@.operators.len()
            },
            Err(e) => r == Err::<(Operator, usize), RenderError>(e),
        },
{
    if p.name >= declared.len() || !declared[p.name] {
        return Err(RenderError::UndeclaredRelation);
    }
    if q.df.len() >= OUTBOX - 2 || p.args.len() > usize::MAX - offset {
        return Err(RenderError::TooLarge);
    }
    let bound = bind_args(columns, &p.args, offset);
    let mut conditions: Vec<Condition> = Vec::new();
    conditions.push(Condition::Width(p.args.len()));
    let mut rest = bound.conditions;
    conditions.append(&mut rest);
    let table = handles[p.name].1;
    let filtered = table.filter(conditions, q);
    let joined = acc.join(filtered, bound.left_key, bound.right_key, q);
    Ok((joined, offset + p.args.len()))
}

/// Where a chain fails at some predicate of a body, it fails for the whole
/// body, and for the same reason.
proof fn lemma_extend_all_fails(
    declared: Seq<bool>,
    chain: Chain,
    body: Seq<PredicateView>,
    i: int,
)
    requires
        0 <= i < body.len(),
        extend_all(declared, chain, body.take(i + 1)) is Err,
    ensures
        extend_all(declared, chain, body) == extend_all(declared, chain, body.take(i + 1)),
    decreases body.len(),
{
    if i + 1 < body.len() {
        assert(body.drop_last().take(i + 1) =~= body.take(i + 1));
        lemma_extend_all_fails(declared, chain, body.drop_last(), i);
    } else {
        assert(body.take(i + 1) =~= body);
    }
}

/// Builds the clause `clause` into the graph `q`, as [`build_clause`] says.
pub fn add_clause(
    q: &mut Query,
    handles: &Vec<(InputPort, Operator)>,
    declared: &Vec<bool>,
    clause: &Clause,
) -> (r: Result<(), RenderError>)
    requires
        old(q).wf(),
        tables_in(handles@, old(q)@),
        handles@.len() == declared@.len(),
        clause.head.name < handles@.len(),
    ensures
        match build_clause(declared@, old(q)@, clause@) {
            Ok(net) => {
                &&& r is Ok
                &&& final(q).wf()
                &&& final(q)@ == net
                &&& tables_in(handles@, final(q)@)
            },
            Err(e) => r == Err::<(), RenderError>(e),
        },
{
    if q.df.len() >= OUTBOX - 1 {
        return Err(RenderError::TooLarge);
    }
    let mut rows: Vec<Vec<i64>> = Vec::new();
    rows.push(Vec::new());
    proof {
        assert(views(rows@) =~= seq![Seq::<i64>::empty()]);
    }
    let ghost seeded = Chain {
        net: q@.with_op(NodeView::Source(seq![Seq::empty()])),
        acc: q@.operators.len() as usize,
        offset: 0,
        columns: Seq::empty(),
    };
    let ghost body = predicates_view(clause.body@);
    let mut acc = q.source(rows);
    let mut offset: usize = 0;
    let mut columns: Vec<(usize, usize)> = Vec::new();
    let mut i: usize = 0;
    while i < clause.body.len()
        invariant
            i <= clause.body.len(),
            body == predicates_view(clause.body@),
            old(q)@.operators.len() + 1 < OUTBOX,
            seeded == (Chain {
                net: old(q)@.with_op(NodeView::Source(seq![Seq::empty()])),
                acc: old(q)@.operators.len() as usize,
                offset: 0,
                columns: Seq::empty(),
            }),
            q.wf(),
            tables_in(handles@, q@),
            handles@.len() == declared@.len(),
            acc.id() < q@.operators.len(),
            extend_all(declared@, seeded, body.take(i as int)) == Ok::<Chain, RenderError>(
                Chain { net: q@, acc: acc.id(), offset, columns: columns@ },
            ),
        decreases clause.body.len() - i,
    {
        let ghost before = Chain { net: q@, acc: acc.id(), offset, columns: columns@ };
        proof {
            assert(body.take(i + 1).drop_last() =~= body.take(i as int));
            assert(body.take(i + 1).last() == clause.body@[i as int]@);
            assert(extend_all(declared@, seeded, body.take(i + 1)) == extend(
                declared@,
                before,
                clause.body@[i as int]@,
            ));
        }
        match extend_chain(q, handles, declared, acc, offset, &mut columns, &clause.body[i]) {
            Ok((end, width)) => {
                acc = end;
                offset = width;
            },
            Err(e) => {
                proof {
                    lemma_extend_all_fails(declared@, seeded, body, i as int);
                }
                return Err(e);
            },
        }
        i += 1;
    }
    proof {
        assert(body.take(i as int) =~= body);
    }
    match terms_of_head(&columns, &clause.head.args) {
        None => Err(RenderError::UnboundVariable),
        Some(terms) => {
            if q.df.len() >= OUTBOX - 1 {
                return Err(RenderError::TooLarge);
            }
            let projected = acc.map(terms, q);
            q.wire(projected, handles[clause.head.name].0);
            Ok(())
        },
    }
}

/// Where building fails at some clause, it fails for all the clauses, and
/// for the same reason.
proof fn lemma_build_clauses_fails(
    declared: Seq<bool>,
    net: Graph,
    clauses: Seq<ClauseView>,
    i: int,
)
    requires
        0 <= i < clauses.len(),
        build_clauses(declared, net, clauses.take(i + 1)) is Err,
    ensures
        build_clauses(declared, net, clauses) == build_clauses(declared, net, clauses.take(i + 1)),
    decreases clauses.len(),
{
    if i + 1 < clauses.len() {
        assert(clauses.drop_last().take(i + 1) =~= clauses.take(i + 1));
        lemma_build_clauses_fails(declared, net, clauses.drop_last(), i);
    } else {
        assert(clauses.take(i + 1) =~= clauses);
    }
}

/// The clauses `clauses` as plain values.
pub open spec fn clauses_view(clauses: Seq<Clause>) -> Seq<ClauseView> {
    clauses.map_values(|c: Clause| c@)
}

/// Builds the clauses `clauses` into the graph `q`, as [`build_clauses`]
/// says.
pub fn add_clauses(
    q: &mut Query,
    handles: &Vec<(InputPort, Operator)>,
    declared: &Vec<bool>,
    clauses: &Vec<Clause>,
) -> (r: Result<(), RenderError>)
    requires
        old(q).wf(),
        tables_in(handles@, old(q)@),
        handles@.len() == declared@.len(),
        forall|i: int| 0 <= i < clauses@.len() ==> (#[trigger] clauses@[i]).head.name < handles@.len(),
    ensures
        match build_clauses(declared@, old(q)@, clauses_view(clauses@)) {
            Ok(net) => {
                &&& r is Ok
                &&& final(q).wf()
                &&& final(q)@ == net
                &&& tables_in(handles@, final(q)@)
            },
            Err(e) => r == Err::<(), RenderError>(e),
        },
{
    let ghost all = clauses_view(clauses@);
    let mut i: usize = 0;
    while i < clauses.len()
        invariant
            i <= clauses.len(),
            all == clauses_view(clauses@),
            q.wf(),
            tables_in(handles@, q@),
            handles@.len() == declared@.len(),
            forall|i: int|
                0 <= i < clauses@.len() ==> (#[trigger] clauses@[i]).head.name < handles@.len(),
            build_clauses(declared@, old(q)@, all.take(i as int)) == Ok::<Graph, RenderError>(q@),
        decreases clauses.len() - i,
    {
        proof {
            assert(all.take(i + 1).drop_last() =~= all.take(i as int));
            assert(all.take(i + 1).last() == clauses@[i as int]@);
            assert(build_clauses(declared@, old(q)@, all.take(i + 1)) == build_clause(
                declared@,
                q@,
                clauses@[i as int]@,
            ));
        }
        match add_clause(q, handles, declared, &clauses[i]) {
            Ok(()) => {},
            Err(e) => {
                proof {
                    lemma_build_clauses_fails(declared@, old(q)@, all, i as int);
                }
                return Err(e);
            },
        }
        i += 1;
    }
    proof {
        assert(all.take(i as int) =~= all);
    }
    Ok(())
}

/// Of each relation of `p`, by its integer, whether it has a clause.
pub open spec fn declared_flags(p: ProgramView) -> Seq<bool> {
    Seq::new(p.names.len(), |r: int| p.declared(r as usize))
}

/// The graph that evaluates the program `p`: the tables of its relations,
/// and its clauses built in, from the first to the last.
pub open spec fn compile(p: ProgramView) -> Result<Graph, RenderError> {
    if 2 * p.names.len() + 1 >= OUTBOX {
        Err(RenderError::TooLarge)
    } else {
        build_clauses(declared_flags(p), declare(Graph::empty(), p.names.len()), p.clauses)
    }
}

/// The rows that a sink in state `state` has kept; none where it is no
/// sink.
pub open spec fn kept(state: NodeView) -> Seq<Seq<i64>> {
    match state {
        NodeView::Sink(rows) => rows,
        _ => Seq::empty(),
    }
}

/// The rows of the relation `name` of the program `p`, in the order in
/// which its table let them through: what a sink behind that table has
/// kept when the graph of `p` has come to rest within `budget`
/// invocations.
pub open spec fn render(p: ProgramView, name: Seq<char>, budget: nat) -> Result<
    Seq<Seq<i64>>,
    RenderError,
> {
    if !(p.names.contains(name) && p.declared(p.names.index_of(name) as usize)) {
        Err(RenderError::UndeclaredRelation)
    } else {
        match compile(p) {
            Err(e) => Err(e),
            Ok(net) => if net.operators.len() + 1 >= OUTBOX {
                Err(RenderError::TooLarge)
            } else {
                let end = run_for::<Vec<i64>, Node>(
                    with_unary(
                        net,
                        NodeView::Sink(Seq::empty()),
                        output_of(p.names.index_of(name) as usize),
                    ),
                    budget,
                );
                if end.schedule.len() > 0 {
                    Err(RenderError::OutOfBudget)
                } else {
                    Ok(kept(end.operators[net.operators.len() as int]))
                }
            },
        }
    }
}

/// Says of each relation of `program`, by its integer, whether it has a
/// clause.
pub fn flag_declared(program: &Program) -> (flags: Vec<bool>)
    requires
        program.wf(),
    ensures
        flags@ == declared_flags(program@),
{
    proof {
        program.lemma_wf();
    }
    let n = program.names().len();
    let clauses = program.clauses();
    let ghost all = program@.clauses;
    let mut flags: Vec<bool> = Vec::new();
    let mut r: usize = 0;
    while r < n
        invariant
            r <= n,
            flags@.len() == r,
            forall|k: int| 0 <= k < r ==> !(#[trigger] flags@[k]),
        decreases n - r,
    {
        flags.push(false);
        r += 1;
    }
    let mut i: usize = 0;
    while i < clauses.len()
        invariant
            i <= clauses.len(),
            all == clauses@.map_values(|c: Clause| c@),
            forall|k: int| 0 <= k < all.len() ==> (#[trigger] all[k]).head.name < n,
            flags@.len() == n,
            forall|k: int|
                0 <= k < n ==> (#[trigger] flags@[k] <==> exists|j: int|
                    0 <= j < i && (#[trigger] all[j]).head.name == k),
        decreases clauses.len() - i,
    {
        let head = clauses[i].head.name;
        assert(all[i as int].head.name == head);
        let ghost before = flags@;
        flags.set(head, true);
        proof {
            assert forall|k: int| 0 <= k < n implies (#[trigger] flags@[k] <==> exists|j: int|
                0 <= j < i + 1 && (#[trigger] all[j]).head.name == k) by {
                if k == head {
                    assert(all[i as int].head.name == k);
                } else {
                    assert(flags@[k] == before[k]);
                    if before[k] {
                        let j = choose|j: int| 0 <= j < i && (#[trigger] all[j]).head.name == k;
                        assert(0 <= j < i + 1 && all[j].head.name == k);
                    }
                    if exists|j: int| 0 <= j < i + 1 && (#[trigger] all[j]).head.name == k {
                        let j = choose|j: int| 0 <= j < i + 1 && (#[trigger] all[j]).head.name == k;
                        assert(j < i);
                    }
                }
            }
        }
        i += 1;
    }
    proof {
        assert(flags@ =~= declared_flags(program@));
    }
    flags
}

impl Program {
    /// Evaluates the program and gives the rows of the relation `output`:
    /// the rows that the clauses derive for it, each once, in the order in
    /// which they were derived. The evaluation runs until no row is left
    /// to derive, for at most `budget` invocations of nodes; it fails where
    /// that is not enough.
    pub fn render(&self, output: &str, budget: usize) -> (r: Result<Vec<Vec<i64>>, RenderError>)
        requires
            self.wf(),
        ensures
            match render(self@, output@, budget as nat) {
                Ok(rows) => r matches Ok(out) && views(out@) == rows,
                Err(e) => r == Err::<Vec<Vec<i64>>, RenderError>(e),
            },
            r matches Ok(out) ==> {
                &&& views(out@).no_duplicates()
                &&& forall|row: Seq<i64>|
                    #[trigger] views(out@).contains(row) <==> holds(
                        self@,
                        self@.names.index_of(output@) as usize,
                        row,
                    )
            },
    {
        proof {
            self.lemma_wf();
            if render(self@, output@, budget as nat) is Ok {
                lemma_render_exact(self@, output@, budget as nat);
            }
        }
        let name = output.to_owned();
        let flags = flag_declared(self);
        let relation = match self.names().lookup(&name) {
            Some(id) => id,
            None => {
                return Err(RenderError::UndeclaredRelation);
            },
        };
        if !flags[relation] {
            return Err(RenderError::UndeclaredRelation);
        }
        let n = self.names().len();
        if n >= (OUTBOX - 1) / 2 {
            return Err(RenderError::TooLarge);
        }
        let mut q = Query::new();
        let handles = declare_tables(&mut q, n);
        let clauses = self.clauses();
        proof {
            assert(clauses_view(clauses@) =~= self@.clauses);
            assert forall|i: int| 0 <= i < clauses@.len() implies (#[trigger] clauses@[i]).head.name
                < handles@.len() by {
                assert(self@.clauses[i].head.name == clauses@[i].head.name);
            }
        }
        match add_clauses(&mut q, &handles, &flags, clauses) {
            Ok(()) => {},
            Err(e) => {
                return Err(e);
            },
        }
        if q.df.len() >= OUTBOX - 1 {
            return Err(RenderError::TooLarge);
        }
        let ghost start = q@;
        let sink = handles[relation].1.sink(&mut q);
        proof {
            q.df.lemma_wf();
            lemma_run_keeps_shape::<Vec<i64>, Node>(q@, budget as nat);
        }
        if !q.run(budget) {
            return Err(RenderError::OutOfBudget);
        }
        match q.rows(sink) {
            Some(rows) => Ok(rows),
            None => {
                let rows: Vec<Vec<i64>> = Vec::new();
                proof {
                    assert(views(rows@) =~= Seq::<Seq<i64>>::empty());
                }
                Ok(rows)
            },
        }
    }
}

} // verus!
