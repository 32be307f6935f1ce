use datalog::babyflow::Dataflow;
use datalog::join::JoinTables;
use datalog::ops::DataOp;
use datalog::ops::IntOp;

#[test]
fn dataflow_test() {
    let (mut d, outbox): (Dataflow<i64, IntOp>, _) = Dataflow::new();

    let (_, source) = d.add_op(IntOp::Source(vec![10, 20, 30]));
    let (inc1_in, inc1) = d.add_op(IntOp::Inc);

    d.add_edge(source, inc1_in);
    d.add_edge(inc1, outbox);

    assert!(d.run(usize::MAX));
    assert_eq!(d.outbox(), &vec![31, 21, 11]);
}

#[test]
fn babyflow_dataflow_test() {
    let (mut d, outbox): (Dataflow<Vec<i64>, DataOp>, _) = Dataflow::new();

    let source1 = d.add_source(DataOp::Source(vec![
        vec![10, 20, 30],
        vec![40, 50, 60],
        vec![70, 80, 90],
    ]));
    let source2 = d.add_source(DataOp::Source(vec![
        vec![10, 20, 30],
        vec![10, 50, 60],
        vec![70, 80, 90],
    ]));
    let (left, right, join) = d.add_op_2(DataOp::Join(JoinTables::new(vec![0], vec![0])));

    d.add_edge(source1, left);
    d.add_edge(source2, right);
    d.add_edge(join, outbox);

    assert!(d.run(usize::MAX));
    let mut out = d.outbox().clone();
    out.sort();
    assert_eq!(
        out,
        vec![
            vec![10, 20, 30, 10, 20, 30],
            vec![10, 20, 30, 10, 50, 60],
            vec![70, 80, 90, 70, 80, 90],
        ]
    );
}
