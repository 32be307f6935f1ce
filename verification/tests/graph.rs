use datalog::babyflow::Dataflow;
use datalog::node::Node;
use datalog::ops::IntOp;
use datalog::query::Query;

#[test]
fn mod_test_df() {
    let (mut df, outbox): (Dataflow<i64, IntOp>, _) = Dataflow::new();

    let output = df.add_source(IntOp::Source(vec![1, 2, 3]));

    df.add_edge(output, outbox);

    assert!(df.run(usize::MAX));

    for v in df.outbox() {
        println!("v = {}", v);
    }
    assert_eq!(df.outbox(), &vec![1, 2, 3]);
}

#[test]
fn mod_test_df_binary() {
    let (mut df, _): (Dataflow<Vec<i64>, Node>, _) = Dataflow::new();

    let source1 = df.add_source(Node::Source(vec![vec![1], vec![2], vec![3]]));
    let source2 = df.add_source(Node::Source(vec![vec![2], vec![3], vec![4]]));

    let (input1, input2, both) = df.add_op_2(Node::Union);
    let sink = df.len();
    let input = df.add_sink(Node::Sink(Vec::new()));

    df.add_edge(source1, input1);
    df.add_edge(source2, input2);
    df.add_edge(both, input);

    assert!(df.run(usize::MAX));

    match df.operator(sink) {
        Node::Sink(rows) => {
            for (k, v) in rows.iter().enumerate() {
                if k < 3 {
                    println!("left = {}", v[0]);
                } else {
                    println!("right = {}", v[0]);
                }
            }
            assert_eq!(
                rows,
                &vec![vec![1], vec![2], vec![3], vec![2], vec![3], vec![4]]
            );
        }
        _ => panic!("the sink is no sink"),
    }
}

#[test]
fn babyflow2_test_df() {
    let (mut df, _): (Dataflow<Vec<i64>, Node>, _) = Dataflow::new();

    let output = df.add_source(Node::Source(vec![vec![1], vec![2], vec![3]]));
    let sink = df.len();
    let input = df.add_sink(Node::Sink(Vec::new()));

    df.add_edge(output, input);

    assert!(df.run(usize::MAX));

    match df.operator(sink) {
        Node::Sink(rows) => {
            for v in rows {
                println!("v = {}", v[0]);
            }
            assert_eq!(rows, &vec![vec![1], vec![2], vec![3]]);
        }
        _ => panic!("the sink is no sink"),
    }
}

#[test]
fn babyflow2_test_df_binary() {
    let (mut df, outbox): (Dataflow<Vec<i64>, Node>, _) = Dataflow::new();

    let source1 = df.add_source(Node::Source(vec![vec![1], vec![2], vec![3]]));
    let source2 = df.add_source(Node::Source(vec![vec![2], vec![3], vec![4]]));

    let (input1, input2, both) = df.add_op_2(Node::Union);

    df.add_edge(source1, input1);
    df.add_edge(source2, input2);
    df.add_edge(both, outbox);

    assert!(df.run(usize::MAX));

    for (k, v) in df.outbox().iter().enumerate() {
        if k < 3 {
            println!("left = {}", v[0]);
        } else {
            println!("right = {}", v[0]);
        }
    }
    assert_eq!(
        df.outbox(),
        &vec![vec![1], vec![2], vec![3], vec![2], vec![3], vec![4]]
    );
}

#[test]
fn test_query() {
    let names = ["a", "b", "c", "x", "y", "y2", "z"];
    let id = |name: &str| names.iter().position(|n| *n == name).unwrap() as i64;

    let mut q = Query::new();

    let left = q.source(vec![vec![1, id("a")], vec![2, id("b")], vec![3, id("c")]]);
    let right = q.source(vec![
        vec![1, id("x")],
        vec![2, id("y")],
        vec![2, id("y2")],
        vec![3, id("z")],
    ]);
    let sink = left.join(right, vec![0], vec![0], &mut q).sink(&mut q);

    assert!(q.run(usize::MAX));

    let rows = q.rows(sink).unwrap();
    for i in &rows {
        println!(
            "v: {:?}",
            (i[0], names[i[1] as usize], names[i[3] as usize])
        );
    }
    let mut found: Vec<(i64, &str, &str)> = rows
        .iter()
        .map(|i| (i[0], names[i[1] as usize], names[i[3] as usize]))
        .collect();
    found.sort();
    assert_eq!(
        found,
        vec![(1, "a", "x"), (2, "b", "y"), (2, "b", "y2"), (3, "c", "z")]
    );
}
