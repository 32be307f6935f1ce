//! Rows of integers, and what the relational operators compute on them.

use vstd::prelude::*;

verus! {

/// The rows of `rows`, each as a sequence of integers.
pub open spec fn views(rows: Seq<Vec<i64>>) -> Seq<Seq<i64>> {
    rows.map_values(|r: Vec<i64>| r@)
}

/// Whether `row` has every column that `cols` names.
pub open spec fn has_columns(row: Seq<i64>, cols: Seq<usize>) -> bool {
    forall|i: int| 0 <= i < cols.len() ==> #[trigger] cols[i] < row.len()
}

/// The columns `cols` of `row`, in the order of `cols`; nothing where `row`
/// lacks one of them.
pub open spec fn project(row: Seq<i64>, cols: Seq<usize>) -> Option<Seq<i64>> {
    if has_columns(row, cols) {
        Some(Seq::new(cols.len(), |i: int| row[cols[i] as int]))
    } else {
        None
    }
}

/// Of the rows of `table` whose columns `cols` are `key`, in their order,
/// each joined to `row`: behind it where `row_first`, before it otherwise.
pub open spec fn probe(
    row: Seq<i64>,
    key: Seq<i64>,
    table: Seq<Seq<i64>>,
    cols: Seq<usize>,
    row_first: bool,
) -> Seq<Seq<i64>>
    decreases table.len(),
{
    if table.len() == 0 {
        Seq::empty()
    } else {
        let rest = probe(row, key, table.drop_last(), cols, row_first);
        let other = table.last();
        if project(other, cols) == Some(key) {
            rest.push(
                if row_first {
                    row + other
                } else {
                    other + row
                },
            )
        } else {
            rest
        }
    }
}

/// Where a column of a new row comes from.
#[derive(Clone, Copy, Debug)]
pub enum Term {
    /// From that column of the old row.
    Column(usize),
    /// From nowhere: it is this integer.
    Literal(i64),
}

/// Whether `row` has every column that `terms` takes from it.
pub open spec fn has_terms(row: Seq<i64>, terms: Seq<Term>) -> bool {
    forall|i: int|
        0 <= i < terms.len() ==> (#[trigger] terms[i] matches Term::Column(c) ==> c < row.len())
}

/// What the term `t` makes of `row`.
pub open spec fn pick_one(row: Seq<i64>, t: Term) -> i64 {
    match t {
        Term::Column(c) => row[c as int],
        Term::Literal(v) => v,
    }
}

/// The row that `terms` make of `row`, column by column; nothing where
/// `row` lacks a column that they take from it.
pub open spec fn pick(row: Seq<i64>, terms: Seq<Term>) -> Option<Seq<i64>> {
    if has_terms(row, terms) {
        Some(Seq::new(terms.len(), |i: int| pick_one(row, terms[i])))
    } else {
        None
    }
}

/// What a row must meet to pass a filter.
#[derive(Clone, Copy, Debug)]
pub enum Condition {
    /// The column holds the integer.
    Is(usize, i64),
    /// The two columns hold the same integer.
    Same(usize, usize),
    /// The row has that many columns.
    Width(usize),
}

/// Whether `row` meets the condition `c`. It does not where it lacks a
/// column that `c` speaks of.
pub open spec fn meets(row: Seq<i64>, c: Condition) -> bool {
    match c {
        Condition::Is(col, v) => col < row.len() && row[col as int] == v,
        Condition::Same(a, b) => a < row.len() && b < row.len() && row[a as int] == row[b as int],
        Condition::Width(n) => row.len() == n,
    }
}

/// Whether `row` meets every one of `conditions`.
pub open spec fn meets_all(row: Seq<i64>, conditions: Seq<Condition>) -> bool {
    forall|i: int| 0 <= i < conditions.len() ==> meets(row, #[trigger] conditions[i])
}

/// A copy of `row`.
pub fn copy_row(row: &Vec<i64>) -> (r: Vec<i64>)
    ensures
        r@ == row@,
{
    let r = row.clone();
    proof {
        assert(r@ =~= row@);
    }
    r
}

/// Whether two rows hold the same integers.
pub fn same_row(a: &Vec<i64>, b: &Vec<i64>) -> (r: bool)
    ensures
        r == (a@ == b@),
{
    if a.len() != b.len() {
        return false;
    }
    let mut i: usize = 0;
    while i < a.len()
        invariant
            i <= a.len() == b.len(),
            a@.take(i as int) == b@.take(i as int),
        decreases a.len() - i,
    {
        if a[i] != b[i] {
            return false;
        }
        proof {
            assert(a@.take(i + 1) =~= a@.take(i as int).push(a@[i as int]));
            assert(b@.take(i + 1) =~= b@.take(i as int).push(b@[i as int]));
        }
        i += 1;
    }
    proof {
        assert(a@.take(i as int) =~= a@);
        assert(b@.take(i as int) =~= b@);
    }
    true
}

/// The row `a` followed by the row `b`.
pub fn concat_rows(a: &Vec<i64>, b: &Vec<i64>) -> (r: Vec<i64>)
    ensures
        r@ == a@ + b@,
{
    let mut r = copy_row(a);
    let mut i: usize = 0;
    while i < b.len()
        invariant
            i <= b.len(),
            r@ == a@ + b@.take(i as int),
        decreases b.len() - i,
    {
        r.push(b[i]);
        proof {
            assert(b@.take(i + 1) =~= b@.take(i as int).push(b@[i as int]));
            assert(a@ + b@.take(i + 1) =~= (a@ + b@.take(i as int)).push(b@[i as int]));
        }
        i += 1;
    }
    proof {
        assert(b@.take(i as int) =~= b@);
    }
    r
}

/// The columns `cols` of `row`, or nothing where `row` lacks one of them.
pub fn project_row(row: &Vec<i64>, cols: &Vec<usize>) -> (r: Option<Vec<i64>>)
    ensures
        match r {
            Some(k) => project(row@, cols@) == Some(k@),
            None => project(row@, cols@) is None,
        },
{
    let mut k: Vec<i64> = Vec::new();
    let mut i: usize = 0;
    while i < cols.len()
        invariant
            i <= cols.len(),
            has_columns(row@, cols@.take(i as int)),
            k@ == Seq::new(i as nat, |j: int| row@[cols@[j] as int]),
        decreases cols.len() - i,
    {
        let c = cols[i];
        if c >= row.len() {
            return None;
        }
        k.push(row[c]);
        proof {
            let upto = cols@.take(i + 1);
            assert forall|j: int| 0 <= j < upto.len() implies #[trigger] upto[j] < row@.len() by {
                if j < i {
                    assert(cols@.take(i as int)[j] == cols@[j]);
                }
            }
            assert(k@ =~= Seq::new((i + 1) as nat, |j: int| row@[cols@[j] as int]));
        }
        i += 1;
    }
    proof {
        assert(cols@.take(i as int) =~= cols@);
        assert(k@ =~= Seq::new(cols@.len(), |j: int| row@[cols@[j] as int]));
    }
    Some(k)
}

/// The row that `terms` make of `row`, or nothing where `row` lacks a column
/// that they take from it.
pub fn pick_row(row: &Vec<i64>, terms: &Vec<Term>) -> (r: Option<Vec<i64>>)
    ensures
        match r {
            Some(k) => pick(row@, terms@) == Some(k@),
            None => pick(row@, terms@) is None,
        },
{
    let mut k: Vec<i64> = Vec::new();
    let mut i: usize = 0;
    while i < terms.len()
        invariant
            i <= terms.len(),
            has_terms(row@, terms@.take(i as int)),
            k@ == Seq::new(i as nat, |j: int| pick_one(row@, terms@[j])),
        decreases terms.len() - i,
    {
        let value = match terms[i] {
            Term::Column(c) => {
                if c >= row.len() {
                    return None;
                }
                row[c]
            },
            Term::Literal(v) => v,
        };
        k.push(value);
        proof {
            let upto = terms@.take(i + 1);
            assert forall|j: int| 0 <= j < upto.len() implies (#[trigger] upto[j] matches Term::Column(
                c,
            ) ==> c < row@.len()) by {
                if j < i {
                    assert(terms@.take(i as int)[j] == terms@[j]);
                }
            }
            assert(k@ =~= Seq::new((i + 1) as nat, |j: int| pick_one(row@, terms@[j])));
        }
        i += 1;
    }
    proof {
        assert(terms@.take(i as int) =~= terms@);
        assert(k@ =~= Seq::new(terms@.len(), |j: int| pick_one(row@, terms@[j])));
    }
    Some(k)
}

/// Whether `row` meets every one of `conditions`.
pub fn row_meets_all(row: &Vec<i64>, conditions: &Vec<Condition>) -> (r: bool)
    ensures
        r == meets_all(row@, conditions@),
{
    let mut i: usize = 0;
    while i < conditions.len()
        invariant
            i <= conditions.len(),
            meets_all(row@, conditions@.take(i as int)),
        decreases conditions.len() - i,
    {
        let holds = match conditions[i] {
            Condition::Is(col, v) => col < row.len() && row[col] == v,
            Condition::Same(a, b) => a < row.len() && b < row.len() && row[a] == row[b],
            Condition::Width(n) => row.len() == n,
        };
        if !holds {
            return false;
        }
        proof {
            let upto = conditions@.take(i + 1);
            assert forall|j: int| 0 <= j < upto.len() implies meets(row@, #[trigger] upto[j]) by {
                if j < i {
                    assert(conditions@.take(i as int)[j] == conditions@[j]);
                }
            }
        }
        i += 1;
    }
    proof {
        assert(conditions@.take(i as int) =~= conditions@);
    }
    true
}

/// The rows of `table` that agree with `key` on the columns `cols`, each
/// joined to `row`.
pub fn probe_table(
    row: &Vec<i64>,
    key: &Vec<i64>,
    table: &Vec<Vec<i64>>,
    cols: &Vec<usize>,
    row_first: bool,
) -> (out: Vec<Vec<i64>>)
    ensures
        views(out@) == probe(row@, key@, views(table@), cols@, row_first),
{
    let mut out: Vec<Vec<i64>> = Vec::new();
    let mut i: usize = 0;
    while i < table.len()
        invariant
            i <= table.len(),
            views(out@) == probe(row@, key@, views(table@).take(i as int), cols@, row_first),
        decreases table.len() - i,
    {
        let ghost seen = views(table@).take(i + 1);
        proof {
            assert(seen.drop_last() =~= views(table@).take(i as int));
            assert(seen.last() == table@[i as int]@);
        }
        let other = &table[i];
        let found = match project_row(other, cols) {
            Some(k) => same_row(&k, key),
            None => false,
        };
        if found {
            let joined = if row_first {
                concat_rows(row, other)
            } else {
                concat_rows(other, row)
            };
            let ghost before = out@;
            out.push(joined);
            proof {
                assert(views(out@) =~= views(before).push(joined@));
            }
        }
        i += 1;
    }
    proof {
        assert(views(table@).take(i as int) =~= views(table@));
    }
    out
}

} // verus!
