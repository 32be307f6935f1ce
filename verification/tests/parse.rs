use datalog::compile::RenderError;
use datalog::parse::tokens_of;
use datalog::parse::BuildError;
use datalog::parse::Token;
use datalog::program::Arg;
use datalog::program::Program;

const REACHABLE: &str = "
    edge(1, 2). edge(2, 3). edge(1, 3). edge(1, 4).
    edge(1, 2). edge(2, 4). edge(4, 5). edge(6, 7).
    reachable(1).
    reachable(A) :- reachable(B), edge(B, A).
";

#[test]
fn a_program_is_read_from_text() {
    let p = Program::build(REACHABLE).unwrap();
    let mut rows = p.render("reachable", 1_000_000).unwrap();
    rows.sort();
    assert_eq!(rows, vec![vec![1], vec![2], vec![3], vec![4], vec![5]]);
}

#[test]
fn text_and_calls_build_the_same_program() {
    let mut q = Program::new();
    q.clause(("n".to_string(), vec![Arg::Lit(-3)]), vec![]);
    q.clause(
        ("m".to_string(), vec![Arg::Var("X".to_string()), Arg::Lit(0)]),
        vec![("n".to_string(), vec![Arg::Var("X".to_string())])],
    );
    let p = Program::build("n(-3).\nm(X,0):-n(X).").unwrap();
    assert_eq!(p.render("m", 1_000), q.render("m", 1_000));
    assert_eq!(p.render("m", 1_000).unwrap(), vec![vec![-3, 0]]);
}

#[test]
fn the_empty_text_is_the_empty_program() {
    let p = Program::build("  \n\t ").unwrap();
    assert_eq!(p.render("", 10), Err(RenderError::UndeclaredRelation));
}

fn names(tokens: &[Token]) -> Vec<String> {
    tokens
        .iter()
        .map(|t| match t {
            Token::Name(n) => format!("name {}", n),
            Token::Number(v) => format!("number {}", v),
            Token::Open => "(".to_string(),
            Token::Close => ")".to_string(),
            Token::Comma => ",".to_string(),
            Token::Dot => ".".to_string(),
            Token::Neck => ":-".to_string(),
        })
        .collect()
}

#[test]
fn tokens_are_told_apart() {
    let tokens = tokens_of("p_1(X,-12) :- q( 007 ).").unwrap();
    assert_eq!(
        names(&tokens),
        vec![
            "name p_1", "(", "name X", ",", "number -12", ")", ":-", "name q", "(", "number 7",
            ")", "."
        ]
    );
}

#[test]
fn the_largest_and_the_smallest_integer_are_read() {
    let tokens = tokens_of("9223372036854775807 -9223372036854775808").unwrap();
    assert_eq!(
        names(&tokens),
        vec![
            "number 9223372036854775807",
            "number -9223372036854775808"
        ]
    );
}

#[test]
fn an_integer_out_of_range_is_no_token() {
    assert!(tokens_of("9223372036854775808").is_none());
    assert!(tokens_of("-9223372036854775809").is_none());
    assert!(tokens_of("99999999999999999999999999999999999999999999").is_none());
}

#[test]
fn bad_tokens_are_refused() {
    for text in ["p(1) : q(1).", "p(-).", "p(1)?", "p(é)."] {
        assert!(matches!(
            Program::build(text),
            Err(BuildError::BadToken)
        ));
    }
}

#[test]
fn bad_clauses_are_refused() {
    for text in [
        "p(1)",
        "p.",
        "p(1,).",
        "p(1) :- .",
        "p(1) :- q(1),.",
        "p(1) q(1).",
        "(1).",
        "p(1) :- q(1) r(1).",
        "p((1)).",
    ] {
        assert!(matches!(
            Program::build(text),
            Err(BuildError::BadClause)
        ));
    }
}

#[test]
fn a_predicate_may_have_no_arguments() {
    let p = Program::build("on(). lit() :- on().").unwrap();
    assert_eq!(p.render("lit", 1_000).unwrap(), vec![Vec::<i64>::new()]);
}
