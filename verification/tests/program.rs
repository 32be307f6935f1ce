use datalog::compile::RenderError;
use datalog::program::Arg;
use datalog::program::Atom;
use datalog::program::Interner;
use datalog::program::Program;

fn lit(v: i64) -> Arg {
    Arg::Lit(v)
}

fn var(name: &str) -> Arg {
    Arg::Var(name.to_string())
}

fn pred(name: &str, args: Vec<Arg>) -> (String, Vec<Arg>) {
    (name.to_string(), args)
}

fn reachability(edges: &[(i64, i64)]) -> Program {
    let mut p = Program::new();
    for (from, to) in edges {
        p.clause(pred("edge", vec![lit(*from), lit(*to)]), vec![]);
    }
    p.clause(pred("reachable", vec![lit(1)]), vec![]);
    p.clause(
        pred("reachable", vec![var("A")]),
        vec![
            pred("reachable", vec![var("B")]),
            pred("edge", vec![var("B"), var("A")]),
        ],
    );
    p
}

const EDGES: [(i64, i64); 8] = [
    (1, 2),
    (2, 3),
    (1, 3),
    (1, 4),
    (1, 2),
    (2, 4),
    (4, 5),
    (6, 7),
];

#[test]
fn reachable_from_one() {
    let p = reachability(&EDGES);
    let rows = p.render("reachable", 1_000_000).unwrap();
    let mut values: Vec<i64> = rows
        .iter()
        .map(|row| {
            assert_eq!(row.len(), 1);
            row[0]
        })
        .collect();
    values.sort();
    assert_eq!(values, vec![1, 2, 3, 4, 5]);
}

#[test]
fn reachable_whatever_the_order_of_the_facts() {
    let mut edges = EDGES.to_vec();
    edges.reverse();
    let p = reachability(&edges);
    let mut values: Vec<i64> = p
        .render("reachable", 1_000_000)
        .unwrap()
        .iter()
        .map(|row| row[0])
        .collect();
    values.sort();
    assert_eq!(values, vec![1, 2, 3, 4, 5]);
}

#[test]
fn render_twice_gives_the_same_rows() {
    let p = reachability(&EDGES);
    let first = p.render("reachable", 1_000_000).unwrap();
    let second = p.render("reachable", 1_000_000).unwrap();
    assert_eq!(first, second);
}

#[test]
fn facts_come_out_once_each() {
    let p = reachability(&EDGES);
    let rows = p.render("edge", 1_000_000).unwrap();
    assert_eq!(
        rows,
        vec![
            vec![1, 2],
            vec![2, 3],
            vec![1, 3],
            vec![1, 4],
            vec![2, 4],
            vec![4, 5],
            vec![6, 7],
        ]
    );
}

#[test]
fn undeclared_output_is_refused() {
    let p = reachability(&EDGES);
    assert_eq!(
        p.render("path", 1_000_000),
        Err(RenderError::UndeclaredRelation)
    );
}

#[test]
fn undeclared_body_relation_is_refused() {
    let mut p = Program::new();
    p.clause(
        pred("q", vec![var("X")]),
        vec![pred("missing", vec![var("X")])],
    );
    assert_eq!(p.render("q", 1_000), Err(RenderError::UndeclaredRelation));
}

#[test]
fn unbound_head_variable_is_refused() {
    let mut p = Program::new();
    p.clause(pred("e", vec![lit(1)]), vec![]);
    p.clause(pred("q", vec![var("Y")]), vec![pred("e", vec![var("X")])]);
    assert_eq!(p.render("q", 1_000), Err(RenderError::UnboundVariable));
}

#[test]
fn a_spent_budget_is_reported() {
    let p = reachability(&EDGES);
    assert_eq!(p.render("reachable", 3), Err(RenderError::OutOfBudget));
}

#[test]
fn constants_in_a_body_select_rows() {
    let mut p = Program::new();
    p.clause(pred("edge", vec![lit(1), lit(2)]), vec![]);
    p.clause(pred("edge", vec![lit(2), lit(3)]), vec![]);
    p.clause(pred("edge", vec![lit(1), lit(4)]), vec![]);
    p.clause(
        pred("from_one", vec![var("X")]),
        vec![pred("edge", vec![lit(1), var("X")])],
    );
    assert_eq!(
        p.render("from_one", 1_000).unwrap(),
        vec![vec![2], vec![4]]
    );
}

#[test]
fn a_variable_twice_in_one_predicate_selects_rows() {
    let mut p = Program::new();
    p.clause(pred("edge", vec![lit(1), lit(1)]), vec![]);
    p.clause(pred("edge", vec![lit(1), lit(2)]), vec![]);
    p.clause(pred("edge", vec![lit(3), lit(3)]), vec![]);
    p.clause(
        pred("loops", vec![var("X")]),
        vec![pred("edge", vec![var("X"), var("X")])],
    );
    assert_eq!(p.render("loops", 1_000).unwrap(), vec![vec![1], vec![3]]);
}

#[test]
fn predicates_of_another_width_do_not_match() {
    let mut p = Program::new();
    p.clause(pred("r", vec![lit(1), lit(2)]), vec![]);
    p.clause(pred("r", vec![lit(7)]), vec![]);
    p.clause(pred("one", vec![var("X")]), vec![pred("r", vec![var("X")])]);
    assert_eq!(p.render("one", 1_000).unwrap(), vec![vec![7]]);
}

#[test]
fn a_head_may_hold_literals() {
    let mut p = Program::new();
    p.clause(pred("n", vec![lit(5)]), vec![]);
    p.clause(
        pred("tagged", vec![lit(0), var("X"), var("X")]),
        vec![pred("n", vec![var("X")])],
    );
    assert_eq!(p.render("tagged", 1_000).unwrap(), vec![vec![0, 5, 5]]);
}

#[test]
fn mutual_recursion_reaches_a_fixpoint() {
    let mut p = Program::new();
    p.clause(pred("succ", vec![lit(0), lit(1)]), vec![]);
    p.clause(pred("succ", vec![lit(1), lit(2)]), vec![]);
    p.clause(pred("succ", vec![lit(2), lit(3)]), vec![]);
    p.clause(pred("succ", vec![lit(3), lit(4)]), vec![]);
    p.clause(pred("even", vec![lit(0)]), vec![]);
    p.clause(
        pred("odd", vec![var("N")]),
        vec![
            pred("even", vec![var("M")]),
            pred("succ", vec![var("M"), var("N")]),
        ],
    );
    p.clause(
        pred("even", vec![var("N")]),
        vec![
            pred("odd", vec![var("M")]),
            pred("succ", vec![var("M"), var("N")]),
        ],
    );
    let mut even: Vec<Vec<i64>> = p.render("even", 100_000).unwrap();
    even.sort();
    assert_eq!(even, vec![vec![0], vec![2], vec![4]]);
    let mut odd: Vec<Vec<i64>> = p.render("odd", 100_000).unwrap();
    odd.sort();
    assert_eq!(odd, vec![vec![1], vec![3]]);
}

#[test]
fn names_get_integers_in_the_order_of_first_use() {
    let mut names = Interner::new();
    assert_eq!(names.len(), 0);
    assert_eq!(names.intern("edge".to_string()), 0);
    assert_eq!(names.intern("path".to_string()), 1);
    assert_eq!(names.intern("edge".to_string()), 0);
    assert_eq!(names.intern("".to_string()), 2);
    assert_eq!(names.len(), 3);
    assert_eq!(names.lookup(&"path".to_string()), Some(1));
    assert_eq!(names.lookup(&"pat".to_string()), None);
}

fn atoms(args: &[Atom]) -> Vec<String> {
    args.iter().map(|a| format!("{:?}", a)).collect()
}

#[test]
fn a_clause_is_kept_with_integers_for_its_names() {
    let mut p = Program::new();
    p.clause(
        pred("path", vec![var("X"), var("Z"), lit(7)]),
        vec![
            pred("edge", vec![var("X"), var("Y")]),
            pred("path", vec![var("Y"), var("Z"), lit(-1)]),
        ],
    );
    p.clause(pred("edge", vec![var("Z"), var("X")]), vec![]);

    assert_eq!(p.names().len(), 2);
    assert_eq!(p.names().lookup(&"path".to_string()), Some(0));
    assert_eq!(p.names().lookup(&"edge".to_string()), Some(1));

    let clauses = p.clauses();
    assert_eq!(clauses.len(), 2);
    assert_eq!(clauses[0].head.name, 0);
    assert_eq!(atoms(&clauses[0].head.args), vec!["Var(0)", "Var(1)", "Lit(7)"]);
    assert_eq!(clauses[0].body.len(), 2);
    assert_eq!(clauses[0].body[0].name, 1);
    assert_eq!(atoms(&clauses[0].body[0].args), vec!["Var(0)", "Var(2)"]);
    assert_eq!(clauses[0].body[1].name, 0);
    assert_eq!(
        atoms(&clauses[0].body[1].args),
        vec!["Var(2)", "Var(1)", "Lit(-1)"]
    );
    // variable names count within one clause
    assert_eq!(clauses[1].head.name, 1);
    assert_eq!(atoms(&clauses[1].head.args), vec!["Var(0)", "Var(1)"]);
    assert!(clauses[1].body.is_empty());
}

#[test]
fn a_join_on_two_variables_and_a_product() {
    let mut p = Program::new();
    for (a, b) in [(1, 2), (2, 1), (1, 1), (3, 4)] {
        p.clause(pred("e", vec![lit(a), lit(b)]), vec![]);
    }
    // pairs that go both ways
    p.clause(
        pred("both", vec![var("X"), var("Y")]),
        vec![
            pred("e", vec![var("X"), var("Y")]),
            pred("e", vec![var("Y"), var("X")]),
        ],
    );
    let mut both = p.render("both", 100_000).unwrap();
    both.sort();
    assert_eq!(both, vec![vec![1, 1], vec![1, 2], vec![2, 1]]);

    p.clause(pred("n", vec![lit(8)]), vec![]);
    p.clause(pred("n", vec![lit(9)]), vec![]);
    p.clause(
        pred("product", vec![var("A"), var("B")]),
        vec![pred("n", vec![var("A")]), pred("n", vec![var("B")])],
    );
    let mut product = p.render("product", 100_000).unwrap();
    product.sort();
    assert_eq!(
        product,
        vec![vec![8, 8], vec![8, 9], vec![9, 8], vec![9, 9]]
    );
}
