use datalog::babyflow::Dataflow;
use datalog::join::JoinTables;
use datalog::node::Node;
use datalog::ops::DataOp;
use datalog::ops::IntOp;
use datalog::query::Query;
use datalog::relation::Condition;
use datalog::relation::Term;

fn sorted(mut rows: Vec<Vec<i64>>) -> Vec<Vec<i64>> {
    rows.sort();
    rows
}

#[test]
fn a_lone_source_that_sends_nothing_rests_after_one_invocation() {
    let (mut d, _): (Dataflow<i64, IntOp>, _) = Dataflow::new();
    d.add_source(IntOp::Source(Vec::new()));
    assert!(d.step());
    assert!(!d.step());
    assert!(d.run(usize::MAX));
    assert!(d.outbox().is_empty());
}

#[test]
fn what_goes_to_no_subscriber_goes_nowhere() {
    let (mut d, _): (Dataflow<i64, IntOp>, _) = Dataflow::new();
    d.add_source(IntOp::Source(vec![1, 2, 3]));
    assert!(d.run(1));
    assert!(d.outbox().is_empty());
}

#[test]
fn a_budget_of_nothing_runs_nothing() {
    let (mut d, outbox): (Dataflow<i64, IntOp>, _) = Dataflow::new();
    let source = d.add_source(IntOp::Source(vec![1]));
    d.add_edge(source, outbox);
    assert!(!d.run(0));
    assert!(d.outbox().is_empty());
    assert!(d.run(1));
    assert_eq!(d.outbox(), &vec![1]);
}

#[test]
fn every_subscriber_gets_every_message_in_order() {
    let (mut d, outbox): (Dataflow<i64, IntOp>, _) = Dataflow::new();
    let source = d.add_source(IntOp::Source(vec![1, 2]));
    let (inc_in, inc) = d.add_op(IntOp::Inc);
    d.add_edge(source, outbox);
    d.add_edge(source, inc_in);
    d.add_edge(source, outbox);
    d.add_edge(inc, outbox);
    assert!(d.run(usize::MAX));
    assert_eq!(d.outbox(), &vec![1, 1, 2, 2, 3, 2]);
}

#[test]
fn the_successor_of_the_largest_integer_is_the_smallest() {
    let (mut d, outbox): (Dataflow<i64, IntOp>, _) = Dataflow::new();
    let source = d.add_source(IntOp::Source(vec![i64::MAX, -1]));
    let (inc_in, inc) = d.add_op(IntOp::Inc);
    d.add_edge(source, inc_in);
    d.add_edge(inc, outbox);
    assert!(d.run(usize::MAX));
    assert_eq!(d.outbox(), &vec![0, i64::MIN]);
    assert_eq!(d.into_outbox(), vec![0, i64::MIN]);
}

#[test]
fn a_source_sends_its_rows_once() {
    let (mut d, outbox): (Dataflow<Vec<i64>, DataOp>, _) = Dataflow::new();
    let source = d.add_source(DataOp::Source(vec![vec![1], vec![2]]));
    d.add_edge(source, outbox);
    assert!(d.run(usize::MAX));
    assert_eq!(d.outbox(), &vec![vec![1], vec![2]]);
    match d.operator(0) {
        DataOp::Source(rows) => assert!(rows.is_empty()),
        _ => panic!("the source is no source"),
    }
}

#[test]
fn projection_takes_the_newest_row_first_and_drops_short_rows() {
    let (mut d, outbox): (Dataflow<Vec<i64>, DataOp>, _) = Dataflow::new();
    let source = d.add_source(DataOp::Source(vec![vec![1, 2, 3], vec![4], vec![5, 6, 7]]));
    let (project_in, project) = d.add_op(DataOp::Project(vec![2, 0]));
    d.add_edge(source, project_in);
    d.add_edge(project, outbox);
    assert!(d.run(usize::MAX));
    assert_eq!(d.outbox(), &vec![vec![7, 5], vec![3, 1]]);
}

#[test]
fn a_join_keeps_its_tables_between_invocations() {
    let (mut d, outbox): (Dataflow<Vec<i64>, DataOp>, _) = Dataflow::new();
    let (left, right, join) = d.add_op_2(DataOp::Join(JoinTables::new(vec![0], vec![0])));
    let source1 = d.add_source(DataOp::Source(vec![vec![1, 10]]));
    let source2 = d.add_source(DataOp::Source(vec![vec![1, 20]]));
    d.add_edge(source1, left);
    d.add_edge(source2, right);
    d.add_edge(join, outbox);
    // the join, then the first source, then the join again, ...
    assert!(d.step());
    assert!(d.step());
    assert!(d.step());
    assert!(d.outbox().is_empty());
    assert!(d.run(usize::MAX));
    assert_eq!(d.outbox(), &vec![vec![1, 10, 1, 20]]);
}

#[test]
fn distinct_lets_each_row_through_once_in_the_order_of_first_arrival() {
    let mut q = Query::new();
    let sink = q
        .source(vec![vec![3], vec![1], vec![3], vec![2], vec![1], vec![3]])
        .distinct(&mut q)
        .sink(&mut q);
    assert!(q.run(usize::MAX));
    assert_eq!(q.rows(sink).unwrap(), vec![vec![3], vec![1], vec![2]]);
}

#[test]
fn distinct_remembers_across_invocations() {
    let mut q = Query::new();
    let first = q.source(vec![vec![1], vec![2]]);
    let second = q.source(vec![vec![2], vec![3], vec![1]]);
    let (input, merged) = q.merge();
    let sink = merged.distinct(&mut q).sink(&mut q);
    q.wire(first, input);
    q.wire(second, input);
    assert!(q.run(usize::MAX));
    assert_eq!(q.rows(sink).unwrap(), vec![vec![1], vec![2], vec![3]]);
}

#[test]
fn union_drops_no_row_and_adds_none() {
    let mut q = Query::new();
    let a = q.source(vec![vec![1], vec![2], vec![1]]);
    let b = q.source(vec![vec![2], vec![2], vec![9]]);
    let sink = a.union(b, &mut q).sink(&mut q);
    assert!(q.run(usize::MAX));
    assert_eq!(
        q.rows(sink).unwrap(),
        vec![vec![1], vec![2], vec![1], vec![2], vec![2], vec![9]]
    );
}

fn join_of(left: Vec<Vec<i64>>, right: Vec<Vec<i64>>, left_first: bool) -> Vec<Vec<i64>> {
    let mut q = Query::new();
    let (l, r) = if left_first {
        let l = q.source(left);
        let r = q.source(right);
        (l, r)
    } else {
        let r = q.source(right);
        let l = q.source(left);
        (l, r)
    };
    let sink = l.join(r, vec![0], vec![0], &mut q).sink(&mut q);
    assert!(q.run(usize::MAX));
    q.rows(sink).unwrap()
}

#[test]
fn a_join_emits_every_matching_pair_once_whatever_side_comes_first() {
    let left = vec![vec![1, 10], vec![2, 20], vec![1, 11], vec![4, 40]];
    let right = vec![vec![1, 100], vec![3, 300], vec![2, 200], vec![1, 101]];
    let expected = vec![
        vec![1, 10, 1, 100],
        vec![1, 10, 1, 101],
        vec![1, 11, 1, 100],
        vec![1, 11, 1, 101],
        vec![2, 20, 2, 200],
    ];
    assert_eq!(sorted(join_of(left.clone(), right.clone(), true)), expected);
    assert_eq!(sorted(join_of(left, right, false)), expected);
}

#[test]
fn a_join_emits_a_pair_for_every_pair_of_arrivals() {
    let left = vec![vec![1, 10], vec![1, 10]];
    let right = vec![vec![1, 7]];
    assert_eq!(
        join_of(left, right, true),
        vec![vec![1, 10, 1, 7], vec![1, 10, 1, 7]]
    );
}

#[test]
fn a_join_fed_one_stream_on_both_sides_pairs_it_with_itself() {
    // Each batch arrives on both sides at once. The left batch is taken
    // first and finds nothing; the right batch then finds the whole left
    // batch.
    let mut q = Query::new();
    let rows = q.source(vec![vec![1, 10], vec![1, 11], vec![2, 20]]);
    let sink = rows.join(rows, vec![0], vec![0], &mut q).sink(&mut q);
    assert!(q.run(usize::MAX));
    assert_eq!(
        q.rows(sink).unwrap(),
        vec![
            vec![1, 10, 1, 10],
            vec![1, 11, 1, 10],
            vec![1, 10, 1, 11],
            vec![1, 11, 1, 11],
            vec![2, 20, 2, 20],
        ]
    );
}

#[test]
fn a_join_on_no_columns_pairs_everything() {
    let mut q = Query::new();
    let a = q.source(vec![vec![1], vec![2]]);
    let b = q.source(vec![vec![8], vec![9]]);
    let sink = a.join(b, vec![], vec![], &mut q).sink(&mut q);
    assert!(q.run(usize::MAX));
    assert_eq!(
        q.rows(sink).unwrap(),
        vec![vec![1, 8], vec![2, 8], vec![1, 9], vec![2, 9]]
    );
}

#[test]
fn filter_and_map_work_row_by_row() {
    let mut q = Query::new();
    let sink = q
        .source(vec![vec![1, 5], vec![2, 6], vec![1, 7], vec![1]])
        .filter(vec![Condition::Is(0, 1), Condition::Width(2)], &mut q)
        .map(vec![Term::Column(1), Term::Literal(0)], &mut q)
        .sink(&mut q);
    assert!(q.run(usize::MAX));
    assert_eq!(q.rows(sink).unwrap(), vec![vec![5, 0], vec![7, 0]]);
}

#[test]
fn rows_of_something_that_is_no_sink_are_not_given() {
    let mut q = Query::new();
    let source = q.source(vec![vec![1]]);
    let sink = source.sink(&mut q);
    assert_eq!(q.rows(0), None);
    assert_eq!(q.rows(7), None);
    assert_eq!(q.rows(sink), Some(Vec::new()));
}

#[test]
fn a_cycle_runs_until_nothing_new_comes() {
    // Counts up from 0 to 3: each row that is new goes round once more.
    let mut q = Query::new();
    let seed = q.source(vec![vec![0]]);
    let succ = q.source(vec![vec![0, 1], vec![1, 2], vec![2, 3]]);
    let (input, merged) = q.merge();
    let known = merged.distinct(&mut q);
    let next = known
        .join(succ, vec![0], vec![0], &mut q)
        .map(vec![Term::Column(2)], &mut q);
    q.wire(seed, input);
    q.wire(next, input);
    let sink = known.sink(&mut q);
    assert!(q.run(usize::MAX));
    assert_eq!(
        q.rows(sink).unwrap(),
        vec![vec![0], vec![1], vec![2], vec![3]]
    );
}

#[test]
fn a_table_only_grows_while_the_graph_runs() {
    let mut q = Query::new();
    let seed = q.source(vec![vec![0]]);
    let succ = q.source(vec![vec![0, 1], vec![1, 2], vec![2, 3]]);
    let (input, merged) = q.merge();
    let table = q.df.len();
    let known = merged.distinct(&mut q);
    let next = known
        .join(succ, vec![0], vec![0], &mut q)
        .map(vec![Term::Column(2)], &mut q);
    q.wire(seed, input);
    q.wire(next, input);
    let mut before: Vec<Vec<i64>> = Vec::new();
    while q.df.step() {
        let now = match q.df.operator(table) {
            Node::Distinct(rows) => rows.clone(),
            _ => panic!("the table is no table"),
        };
        assert!(now.len() >= before.len());
        assert_eq!(&now[..before.len()], &before[..]);
        before = now;
    }
    assert_eq!(before, vec![vec![0], vec![1], vec![2], vec![3]]);
}

#[test]
fn a_cycle_without_a_table_does_not_rest() {
    let mut q = Query::new();
    let seed = q.source(vec![vec![0]]);
    let (input, merged) = q.merge();
    q.wire(seed, input);
    q.wire(merged, input);
    assert!(!q.run(1_000));
}

#[test]
fn nodes_are_numbered_in_the_order_in_which_they_are_added() {
    let (mut d, outbox): (Dataflow<i64, IntOp>, _) = Dataflow::new();
    assert_eq!(outbox.place(), (usize::MAX, 0));
    let source = d.add_source(IntOp::Source(vec![1]));
    let (first, second, out) = d.add_op_2(IntOp::Inc);
    let sink = d.add_sink(IntOp::Inc);
    assert_eq!(source.node(), 0);
    assert_eq!(first.place(), (1, 0));
    assert_eq!(second.place(), (1, 1));
    assert_eq!(out.node(), 1);
    assert_eq!(sink.place(), (2, 0));
    assert_eq!(d.len(), 3);

    let mut q = Query::new();
    let rows = q.source(vec![]);
    let (input, merged) = q.merge();
    assert_eq!(rows.node(), 0);
    assert_eq!(input.place(), (1, 0));
    assert_eq!(merged.node(), 1);
    assert_eq!(merged.distinct(&mut q).node(), 2);
}
