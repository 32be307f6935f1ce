//! Deduplication: the table of a relation, which lets each row pass once.

use crate::relation::same_row;
use crate::relation::views;
use vstd::prelude::*;

verus! {

/// What a table makes of the rows that reach it.
pub struct Sifted {
    /// The table afterwards: every row that has passed, oldest first.
    pub table: Seq<Seq<i64>>,
    /// The rows that passed this time, in their order.
    pub passed: Seq<Seq<i64>>,
}

/// What the table `table` makes of the rows `input`, one after the other: a
/// row that it holds already is dropped, any other enters it and passes.
pub open spec fn sift(table: Seq<Seq<i64>>, input: Seq<Seq<i64>>) -> Sifted
    decreases input.len(),
{
    if input.len() == 0 {
        Sifted { table, passed: Seq::empty() }
    } else {
        let before = sift(table, input.drop_last());
        let row = input.last();
        if before.table.contains(row) {
            before
        } else {
            Sifted { table: before.table.push(row), passed: before.passed.push(row) }
        }
    }
}

/// Whether `table` holds `row`.
pub fn holds_row(table: &Vec<Vec<i64>>, row: &Vec<i64>) -> (r: bool)
    ensures
        r == views(table@).contains(row@),
{
    let mut i: usize = 0;
    while i < table.len()
        invariant
            i <= table.len(),
            !views(table@).take(i as int).contains(row@),
        decreases table.len() - i,
    {
        if same_row(&table[i], row) {
            proof {
                assert(views(table@)[i as int] == row@);
            }
            return true;
        }
        proof {
            let upto = views(table@).take(i + 1);
            assert forall|j: int| 0 <= j < upto.len() implies upto[j] != row@ by {
                if j < i {
                    assert(views(table@).take(i as int)[j] == upto[j]);
                }
            }
        }
        i += 1;
    }
    proof {
        assert(views(table@).take(i as int) =~= views(table@));
    }
    false
}

/// Rows that reach a table in two batches fare as they do in one: how the
/// input is cut into invocations makes no difference.
pub proof fn lemma_sift_in_batches(
    table: Seq<Seq<i64>>,
    first: Seq<Seq<i64>>,
    second: Seq<Seq<i64>>,
)
    ensures
        sift(table, first + second).table == sift(sift(table, first).table, second).table,
        sift(table, first + second).passed == sift(table, first).passed + sift(
            sift(table, first).table,
            second,
        ).passed,
    decreases second.len(),
{
    let mid = sift(table, first);
    if second.len() == 0 {
        assert(first + second =~= first);
        assert(mid.passed + Seq::<Seq<i64>>::empty() =~= mid.passed);
    } else {
        lemma_sift_in_batches(table, first, second.drop_last());
        assert((first + second).drop_last() =~= first + second.drop_last());
        assert((first + second).last() == second.last());
        let before = sift(mid.table, second.drop_last());
        assert(mid.passed + before.passed.push(second.last()) =~= (mid.passed
            + before.passed).push(second.last()));
    }
}

/// A table never loses a row, and what passes is what it gains: afterwards
/// it holds what it held, followed by the rows that passed.
pub proof fn lemma_sift_grows(table: Seq<Seq<i64>>, input: Seq<Seq<i64>>)
    ensures
        sift(table, input).table == table + sift(table, input).passed,
    decreases input.len(),
{
    if input.len() == 0 {
        assert(table + Seq::<Seq<i64>>::empty() =~= table);
    } else {
        lemma_sift_grows(table, input.drop_last());
        let before = sift(table, input.drop_last());
        assert(table + before.passed.push(input.last()) =~= (table + before.passed).push(
            input.last(),
        ));
    }
}

/// A table that holds no row twice never comes to hold one twice.
pub proof fn lemma_sift_keeps_distinct(table: Seq<Seq<i64>>, input: Seq<Seq<i64>>)
    requires
        table.no_duplicates(),
    ensures
        sift(table, input).table.no_duplicates(),
    decreases input.len(),
{
    if input.len() > 0 {
        lemma_sift_keeps_distinct(table, input.drop_last());
    }
}

/// Through a table that starts empty, the rows that pass are the rows of
/// the input, each once.
proof fn lemma_sift_distinct(input: Seq<Seq<i64>>)
    ensures
        sift(Seq::empty(), input).table == sift(Seq::empty(), input).passed,
        sift(Seq::empty(), input).passed.no_duplicates(),
        forall|row: Seq<i64>|
            sift(Seq::empty(), input).passed.contains(row) <==> input.contains(row),
    decreases input.len(),
{
    let end = sift(Seq::empty(), input);
    if input.len() == 0 {
    } else {
        let head = input.drop_last();
        let last = input.last();
        lemma_sift_distinct(head);
        let before = sift(Seq::empty(), head);
        assert forall|row: Seq<i64>| end.passed.contains(row) <==> input.contains(row) by {
            if input.contains(row) {
                let i = choose|i: int| 0 <= i < input.len() && input[i] == row;
                if i < head.len() {
                    assert(head[i] == row);
                    assert(head.contains(row));
                    assert(before.passed.contains(row));
                    let j = choose|j: int| 0 <= j < before.passed.len() && before.passed[j] == row;
                    assert(end.passed[j] == row);
                } else {
                    assert(row == last);
                    if !before.table.contains(last) {
                        assert(end.passed[end.passed.len() - 1] == last);
                    }
                }
            }
            if end.passed.contains(row) {
                let j = choose|j: int| 0 <= j < end.passed.len() && end.passed[j] == row;
                if j < before.passed.len() {
                    assert(before.passed[j] == row);
                    assert(head.contains(row));
                    let i = choose|i: int| 0 <= i < head.len() && head[i] == row;
                    assert(input[i] == row);
                } else {
                    assert(row == last);
                    assert(input[input.len() - 1] == row);
                }
            }
        }
    }
}

/// A row that reaches an empty table once or many times, in whatever order
/// with other rows, passes exactly once; a row that never reaches it does
/// not pass.
pub proof fn lemma_sift_passes_once(input: Seq<Seq<i64>>, row: Seq<i64>)
    ensures
        input.contains(row) ==> sift(Seq::empty(), input).passed.to_multiset().count(row) == 1,
        !input.contains(row) ==> sift(Seq::empty(), input).passed.to_multiset().count(row) == 0,
{
    let passed = sift(Seq::empty(), input).passed;
    lemma_sift_distinct(input);
    passed.lemma_multiset_has_no_duplicates();
    vstd::seq_lib::to_multiset_contains(passed, row);
}

} // verus!
