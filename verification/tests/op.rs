use panproto_gat::op::{Implicit, Operation};
use panproto_gat::sort::SortExpr;
use panproto_gat::term::Term;

#[test]
fn unary_op() {
    let op = Operation::unary("src", "e", SortExpr::name("Edge"), SortExpr::name("Vertex"));
    assert_eq!(op.arity(), 1);
    assert_eq!(op.output.head().as_str(), "Vertex");
}

#[test]
fn nullary_op() {
    let op = Operation::nullary("zero", SortExpr::name("Int"));
    assert_eq!(op.arity(), 0);
    assert_eq!(op.output.head().as_str(), "Int");
}

#[test]
fn binary_op() {
    let op = Operation::new(
        "add",
        vec![("a".to_string(), SortExpr::from("Int")), ("b".to_string(), SortExpr::from("Int"))],
        SortExpr::name("Int"),
    );
    assert_eq!(op.arity(), 2);
    assert_eq!(op.explicit_arity(), 2);
    assert!(op.inputs.iter().all(|(_, _, imp)| matches!(imp, Implicit::No)));
}

#[test]
fn with_implicit_inputs_preserves_tags() {
    let op = Operation::with_implicit(
        "app",
        vec![
            ("a".to_string(), SortExpr::from("Ty"), Implicit::Yes),
            ("b".to_string(), SortExpr::from("Ty"), Implicit::Yes),
            (
                "f".to_string(),
                SortExpr::App { name: "arrow".to_string(), args: vec![Term::var("a"), Term::var("b")] },
                Implicit::No,
            ),
        ],
        SortExpr::Name("Ty".to_string()),
    );
    assert_eq!(op.arity(), 3);
    assert_eq!(op.explicit_arity(), 1);
}

#[test]
fn dependent_output() {
    let op = Operation::unary(
        "id",
        "x",
        SortExpr::name("Ob"),
        SortExpr::App { name: "Hom".to_string(), args: vec![Term::var("x"), Term::var("x")] },
    );
    assert_eq!(op.output.head().as_str(), "Hom");
    assert_eq!(op.output.args().len(), 2);
}
