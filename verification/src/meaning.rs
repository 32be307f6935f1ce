//! What a program means: the rows that its clauses derive.

use crate::program::Atom;
use crate::program::PredicateView;
use crate::program::ProgramView;
use vstd::prelude::*;

verus! {

/// The value of the argument `a` where the variables have the values `v`.
pub open spec fn value_of(a: Atom, v: spec_fn(usize) -> i64) -> i64 {
    match a {
        Atom::Lit(c) => c,
        Atom::Var(x) => v(x),
    }
}

/// The row that the arguments `args` make where the variables have the
/// values `v`.
pub open spec fn instance(args: Seq<Atom>, v: spec_fn(usize) -> i64) -> Seq<i64> {
    Seq::new(args.len(), |i: int| value_of(args[i], v))
}

/// Whether the clauses of `p` derive the row `row` of the relation `r` in
/// at most `depth` steps, one above the other: some clause has `r` in its
/// head, and under some values of its variables its head makes `row` and
/// each predicate of its body makes a row derived in fewer steps.
pub open spec fn derives(p: ProgramView, depth: nat, r: usize, row: Seq<i64>) -> bool
    decreases depth,
{
    depth > 0 && exists|c: int, v: spec_fn(usize) -> i64|
        {
            &&& 0 <= c < p.clauses.len()
            &&& (#[trigger] p.clauses[c]).head.name == r
            &&& #[trigger] instance(p.clauses[c].head.args, v) == row
            &&& forall|j: int|
                0 <= j < p.clauses[c].body.len() ==> derives(
                    p,
                    (depth - 1) as nat,
                    (#[trigger] p.clauses[c].body[j]).name,
                    instance(p.clauses[c].body[j].args, v),
                )
        }
}

/// Whether the clauses of `p` derive the row `row` of the relation `r`.
pub open spec fn holds(p: ProgramView, r: usize, row: Seq<i64>) -> bool {
    exists|depth: nat| derives(p, depth, r, row)
}

/// What is derived in some number of steps is derived in any larger
/// number.
pub proof fn lemma_derives_deeper(p: ProgramView, depth: nat, deeper: nat, r: usize, row: Seq<i64>)
    requires
        derives(p, depth, r, row),
        depth <= deeper,
    ensures
        derives(p, deeper, r, row),
    decreases depth,
{
    let (c, v) = choose|c: int, v: spec_fn(usize) -> i64|
        {
            &&& 0 <= c < p.clauses.len()
            &&& (#[trigger] p.clauses[c]).head.name == r
            &&& #[trigger] instance(p.clauses[c].head.args, v) == row
            &&& forall|j: int|
                0 <= j < p.clauses[c].body.len() ==> derives(
                    p,
                    (depth - 1) as nat,
                    (#[trigger] p.clauses[c].body[j]).name,
                    instance(p.clauses[c].body[j].args, v),
                )
        };
    assert forall|j: int| 0 <= j < p.clauses[c].body.len() implies derives(
        p,
        (deeper - 1) as nat,
        (#[trigger] p.clauses[c].body[j]).name,
        instance(p.clauses[c].body[j].args, v),
    ) by {
        lemma_derives_deeper(
            p,
            (depth - 1) as nat,
            (deeper - 1) as nat,
            p.clauses[c].body[j].name,
            instance(p.clauses[c].body[j].args, v),
        );
    }
}

/// Rows that are derived, finitely many of them, are all derived within
/// one number of steps.
pub proof fn lemma_derived_together(
    p: ProgramView,
    body: Seq<PredicateView>,
    v: spec_fn(usize) -> i64,
    n: int,
) -> (depth: nat)
    requires
        0 <= n <= body.len(),
        forall|j: int| 0 <= j < n ==> holds(p, (#[trigger] body[j]).name, instance(body[j].args, v)),
    ensures
        forall|j: int|
            0 <= j < n ==> derives(p, depth, (#[trigger] body[j]).name, instance(body[j].args, v)),
    decreases n,
{
    if n == 0 {
        0
    } else {
        let before = lemma_derived_together(p, body, v, n - 1);
        let last = body[n - 1];
        assert(holds(p, last.name, instance(last.args, v)));
        let own = choose|d: nat| derives(p, d, last.name, instance(last.args, v));
        let depth = if own > before {
            own
        } else {
            before
        };
        assert forall|j: int| 0 <= j < n implies derives(
            p,
            depth,
            (#[trigger] body[j]).name,
            instance(body[j].args, v),
        ) by {
            if j < n - 1 {
                lemma_derives_deeper(p, before, depth, body[j].name, instance(body[j].args, v));
            } else {
                lemma_derives_deeper(p, own, depth, body[j].name, instance(body[j].args, v));
            }
        }
        depth
    }
}

/// A clause derives the row of its head where the rows of its body are
/// derived.
pub proof fn lemma_clause_derives(p: ProgramView, c: int, v: spec_fn(usize) -> i64)
    requires
        0 <= c < p.clauses.len(),
        forall|j: int|
            0 <= j < p.clauses[c].body.len() ==> holds(
                p,
                (#[trigger] p.clauses[c].body[j]).name,
                instance(p.clauses[c].body[j].args, v),
            ),
    ensures
        holds(p, p.clauses[c].head.name, instance(p.clauses[c].head.args, v)),
{
    let body = p.clauses[c].body;
    let depth = lemma_derived_together(p, body, v, body.len() as int);
    assert(derives(p, depth + 1, p.clauses[c].head.name, instance(p.clauses[c].head.args, v)));
}

} // verus!
