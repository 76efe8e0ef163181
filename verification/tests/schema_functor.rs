use panproto_gat::eq::Equation;
use panproto_gat::op::Operation;
use panproto_gat::schema_functor::{TheoryConstraint, TheoryEndofunctor, TheoryTransform};
use panproto_gat::sort::{Sort, SortExpr, ValueKind};
use panproto_gat::term::Term;
use panproto_gat::theory::Theory;

fn unary(name: &str, x: &str, a: &str, b: &str) -> Operation {
    Operation::unary(name, x, SortExpr::name(a), SortExpr::name(b))
}

fn graph_theory() -> Theory {
    Theory::new(
        "ThGraph",
        vec![Sort::simple("Vertex"), Sort::simple("Edge")],
        vec![unary("src", "e", "Edge", "Vertex"), unary("tgt", "e", "Edge", "Vertex")],
        Vec::new(),
    )
}

#[test]
fn constraint_unconstrained() {
    assert!(TheoryConstraint::Unconstrained.satisfied_by(&graph_theory()));
}

#[test]
fn constraint_has_sort() {
    let t = graph_theory();
    assert!(TheoryConstraint::HasSort("Vertex".to_string()).satisfied_by(&t));
    assert!(!TheoryConstraint::HasSort("Foo".to_string()).satisfied_by(&t));
}

#[test]
fn constraint_has_op() {
    let t = graph_theory();
    assert!(TheoryConstraint::HasOp("src".to_string()).satisfied_by(&t));
    assert!(!TheoryConstraint::HasOp("bar".to_string()).satisfied_by(&t));
}

#[test]
fn constraint_all() {
    let t = graph_theory();
    let c = TheoryConstraint::All(vec![
        TheoryConstraint::HasSort("Vertex".to_string()),
        TheoryConstraint::HasSort("Edge".to_string()),
    ]);
    assert!(c.satisfied_by(&t));
    let c2 = TheoryConstraint::All(vec![
        TheoryConstraint::HasSort("Vertex".to_string()),
        TheoryConstraint::HasSort("Missing".to_string()),
    ]);
    assert!(!c2.satisfied_by(&t));
}

#[test]
fn constraint_not() {
    let t = graph_theory();
    assert!(TheoryConstraint::Not(Box::new(TheoryConstraint::HasSort("Foo".to_string()))).satisfied_by(&t));
}

#[test]
fn constraint_any_and_value_kinds() {
    let t = graph_theory();
    let c = TheoryConstraint::Any(vec![
        TheoryConstraint::HasSort("Missing".to_string()),
        TheoryConstraint::HasOp("tgt".to_string()),
    ]);
    assert!(c.satisfied_by(&t));
    assert!(!TheoryConstraint::Any(vec![]).satisfied_by(&t));
    assert!(TheoryConstraint::All(vec![]).satisfied_by(&t));
    assert!(!TheoryConstraint::HasValSort(ValueKind::Str).satisfied_by(&t));
}

#[test]
fn transform_identity() {
    let t = graph_theory();
    let result = TheoryTransform::Identity.apply(&t).unwrap();
    assert_eq!(result.sorts.len(), t.sorts.len());
    assert_eq!(result.ops.len(), t.ops.len());
}

#[test]
fn transform_add_sort() {
    let t = graph_theory();
    let result = TheoryTransform::AddSort { sort: Sort::simple("Label"), vertex_kind: None }.apply(&t).unwrap();
    assert_eq!(result.sorts.len(), 3);
    assert!(result.has_sort("Label"));
}

#[test]
fn transform_drop_sort() {
    let t = graph_theory();
    let result = TheoryTransform::DropSort("Edge".to_string()).apply(&t).unwrap();
    assert_eq!(result.sorts.len(), 1);
    assert!(result.has_sort("Vertex"));
    assert_eq!(result.ops.len(), 0);
}

#[test]
fn transform_rename_sort() {
    let t = graph_theory();
    let result = TheoryTransform::RenameSort { old: "Vertex".to_string(), new: "Node".to_string() }.apply(&t).unwrap();
    assert!(result.has_sort("Node"));
    assert!(!result.has_sort("Vertex"));
    let src = result.find_op("src").unwrap();
    assert_eq!(src.output.head().as_str(), "Node");
}

#[test]
fn transform_add_op() {
    let t = graph_theory();
    let result = TheoryTransform::AddOp(unary("label", "e", "Edge", "Vertex")).apply(&t).unwrap();
    assert_eq!(result.ops.len(), 3);
    assert!(result.has_op("label"));
}

#[test]
fn transform_drop_op() {
    let t = graph_theory();
    let result = TheoryTransform::DropOp("src".to_string()).apply(&t).unwrap();
    assert_eq!(result.ops.len(), 1);
    assert!(!result.has_op("src"));
    assert!(result.has_op("tgt"));
}

#[test]
fn transform_rename_op() {
    let t = graph_theory();
    let result = TheoryTransform::RenameOp { old: "src".to_string(), new: "source".to_string() }.apply(&t).unwrap();
    assert!(result.has_op("source"));
    assert!(!result.has_op("src"));
}

#[test]
fn transform_compose() {
    let t = graph_theory();
    let composed = TheoryTransform::Compose(
        Box::new(TheoryTransform::AddSort { sort: Sort::simple("Label"), vertex_kind: None }),
        Box::new(TheoryTransform::RenameSort { old: "Vertex".to_string(), new: "Node".to_string() }),
    );
    let result = composed.apply(&t).unwrap();
    assert!(result.has_sort("Label"));
    assert!(result.has_sort("Node"));
    assert!(!result.has_sort("Vertex"));
}

#[test]
fn endofunctor_applicable() {
    let t = graph_theory();
    let f = TheoryEndofunctor {
        name: "add_label".to_string(),
        precondition: TheoryConstraint::HasSort("Vertex".to_string()),
        transform: TheoryTransform::AddSort { sort: Sort::simple("Label"), vertex_kind: None },
    };
    assert!(f.applicable_to(&t));
    let result = f.apply(&t).unwrap();
    assert!(result.has_sort("Label"));
}

#[test]
fn endofunctor_not_applicable() {
    let t = graph_theory();
    let f = TheoryEndofunctor {
        name: "needs_foo".to_string(),
        precondition: TheoryConstraint::HasSort("Foo".to_string()),
        transform: TheoryTransform::Identity,
    };
    assert!(!f.applicable_to(&t));
    assert!(f.apply(&t).is_err());
}

#[test]
fn endofunctor_compose() {
    let f1 = TheoryEndofunctor {
        name: "add_label".to_string(),
        precondition: TheoryConstraint::Unconstrained,
        transform: TheoryTransform::AddSort { sort: Sort::simple("Label"), vertex_kind: None },
    };
    let f2 = TheoryEndofunctor {
        name: "rename_vertex".to_string(),
        precondition: TheoryConstraint::HasSort("Vertex".to_string()),
        transform: TheoryTransform::RenameSort { old: "Vertex".to_string(), new: "Node".to_string() },
    };
    let composed = f1.compose(&f2);
    let t = graph_theory();
    let result = composed.apply(&t).unwrap();
    assert!(result.has_sort("Label"));
    assert!(result.has_sort("Node"));
}

#[test]
fn drop_sort_cascades_to_equations() {
    let t = Theory::new(
        "T",
        vec![Sort::simple("A"), Sort::simple("B")],
        vec![unary("f", "x", "A", "B"), Operation::nullary("a0", SortExpr::name("A"))],
        vec![Equation::new(
            "law",
            Term::app("f", vec![Term::constant("a0")]),
            Term::app("f", vec![Term::constant("a0")]),
        )],
    );
    let result = TheoryTransform::DropSort("A".to_string()).apply(&t).unwrap();
    assert_eq!(result.sorts.len(), 1);
    assert_eq!(result.ops.len(), 0);
    assert_eq!(result.eqs.len(), 0);
}

#[test]
fn transform_rename_sort_to_existing_name_is_kept_as_given() {
    let t = graph_theory();
    let result = TheoryTransform::RenameSort { old: "Missing".to_string(), new: "Node".to_string() }.apply(&t).unwrap();
    assert_eq!(result.sorts.len(), 2);
    assert!(result.has_sort("Vertex"));
}
