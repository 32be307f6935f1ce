use datalog::distinct::holds_row;
use datalog::join::JoinTables;
use datalog::relation::concat_rows;
use datalog::relation::copy_row;
use datalog::relation::pick_row;
use datalog::relation::probe_table;
use datalog::relation::project_row;
use datalog::relation::row_meets_all;
use datalog::relation::same_row;
use datalog::relation::Condition;
use datalog::relation::Term;

#[test]
fn columns_are_projected_in_the_order_asked() {
    assert_eq!(
        project_row(&vec![10, 20, 30], &vec![2, 0, 2]),
        Some(vec![30, 10, 30])
    );
    assert_eq!(project_row(&vec![10, 20, 30], &vec![]), Some(vec![]));
}

#[test]
fn a_missing_column_projects_to_nothing() {
    assert_eq!(project_row(&vec![10, 20, 30], &vec![0, 3]), None);
    assert_eq!(project_row(&vec![], &vec![0]), None);
}

#[test]
fn terms_take_columns_and_literals() {
    assert_eq!(
        pick_row(
            &vec![10, 20],
            &vec![Term::Column(1), Term::Literal(-7), Term::Column(0)]
        ),
        Some(vec![20, -7, 10])
    );
    assert_eq!(pick_row(&vec![10, 20], &vec![Term::Column(2)]), None);
    assert_eq!(pick_row(&vec![], &vec![Term::Literal(1)]), Some(vec![1]));
}

#[test]
fn conditions_are_met_together() {
    let row = vec![5, 5, 9];
    assert!(row_meets_all(&row, &vec![]));
    assert!(row_meets_all(
        &row,
        &vec![
            Condition::Width(3),
            Condition::Is(2, 9),
            Condition::Same(0, 1)
        ]
    ));
    assert!(!row_meets_all(&row, &vec![Condition::Width(2)]));
    assert!(!row_meets_all(&row, &vec![Condition::Is(2, 8)]));
    assert!(!row_meets_all(&row, &vec![Condition::Same(0, 2)]));
    assert!(!row_meets_all(&row, &vec![Condition::Is(3, 9)]));
    assert!(!row_meets_all(&row, &vec![Condition::Same(0, 3)]));
}

#[test]
fn rows_are_copied_joined_and_told_apart() {
    assert_eq!(copy_row(&vec![1, 2]), vec![1, 2]);
    assert_eq!(concat_rows(&vec![1, 2], &vec![3]), vec![1, 2, 3]);
    assert_eq!(concat_rows(&vec![], &vec![]), Vec::<i64>::new());
    assert!(same_row(&vec![1, 2], &vec![1, 2]));
    assert!(!same_row(&vec![1, 2], &vec![1, 3]));
    assert!(!same_row(&vec![1, 2], &vec![1, 2, 0]));
}

#[test]
fn a_table_is_probed_by_key() {
    let table = vec![vec![1, 10], vec![2, 20], vec![1, 11], vec![3]];
    assert_eq!(
        probe_table(&vec![7, 1], &vec![1], &table, &vec![0], true),
        vec![vec![7, 1, 1, 10], vec![7, 1, 1, 11]]
    );
    assert_eq!(
        probe_table(&vec![7, 1], &vec![1], &table, &vec![0], false),
        vec![vec![1, 10, 7, 1], vec![1, 11, 7, 1]]
    );
    assert_eq!(
        probe_table(&vec![7], &vec![20], &table, &vec![1], true),
        vec![vec![7, 2, 20]]
    );
    assert_eq!(
        probe_table(&vec![7], &vec![4], &table, &vec![0], true),
        Vec::<Vec<i64>>::new()
    );
}

#[test]
fn a_table_holds_the_rows_put_in_it() {
    let table = vec![vec![1, 2], vec![3]];
    assert!(holds_row(&table, &vec![3]));
    assert!(holds_row(&table, &vec![1, 2]));
    assert!(!holds_row(&table, &vec![1]));
    assert!(!holds_row(&Vec::new(), &vec![]));
}

#[test]
fn a_row_is_probed_before_it_is_kept() {
    let mut t = JoinTables::new(vec![0], vec![0]);
    assert_eq!(t.arrive(vec![1, 10], 0), Vec::<Vec<i64>>::new());
    assert_eq!(t.arrive(vec![1, 20], 1), vec![vec![1, 10, 1, 20]]);
    assert_eq!(
        t.arrive(vec![1, 11], 0),
        vec![vec![1, 11, 1, 20]]
    );
    assert_eq!(
        t.arrive(vec![1, 21], 1),
        vec![vec![1, 10, 1, 21], vec![1, 11, 1, 21]]
    );
    assert_eq!(t.arrive(vec![2, 30], 1), Vec::<Vec<i64>>::new());
    assert_eq!(t.left, vec![vec![1, 10], vec![1, 11]]);
    assert_eq!(t.right, vec![vec![1, 20], vec![1, 21], vec![2, 30]]);
}

#[test]
fn a_row_without_its_key_or_on_no_input_is_dropped() {
    let mut t = JoinTables::new(vec![1], vec![0]);
    assert_eq!(t.arrive(vec![5], 0), Vec::<Vec<i64>>::new());
    assert_eq!(t.arrive(vec![], 1), Vec::<Vec<i64>>::new());
    assert_eq!(t.arrive(vec![5, 5], 2), Vec::<Vec<i64>>::new());
    assert!(t.left.is_empty());
    assert!(t.right.is_empty());
}
