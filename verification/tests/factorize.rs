use panproto_gat::eq::Equation;
use panproto_gat::factorize::{factorize, validate_factorization, Factorization};
use panproto_gat::maps::RenameMap;
use panproto_gat::morphism::TheoryMorphism;
use panproto_gat::op::Operation;
use panproto_gat::schema_functor::TheoryTransform;
use panproto_gat::sort::{Sort, SortExpr, SortParam};
use panproto_gat::term::Term;
use panproto_gat::theory::Theory;

fn rmap(pairs: &[(&str, &str)]) -> RenameMap {
    RenameMap { entries: pairs.iter().map(|(a, b)| (a.to_string(), b.to_string())).collect() }
}

fn unary(name: &str, x: &str, a: &str, b: &str) -> Operation {
    Operation::unary(name, x, SortExpr::name(a), SortExpr::name(b))
}

fn graph_theory() -> Theory {
    Theory::new(
        "ThGraph",
        vec![Sort::simple("Vertex"), Sort::simple("Edge")],
        vec![unary("src", "e", "Edge", "Vertex"), unary("tgt", "e", "Edge", "Vertex")],
        Vec::new(),
    )
}

fn renamed_graph_theory() -> Theory {
    Theory::new(
        "ThRenamedGraph",
        vec![Sort::simple("Node"), Sort::simple("Arrow")],
        vec![unary("source", "e", "Arrow", "Node"), unary("target", "e", "Arrow", "Node")],
        Vec::new(),
    )
}

#[test]
fn identity_morphism_empty_factorization() {
    let t = graph_theory();
    let morph = TheoryMorphism::new("id", "ThGraph", "ThGraph", rmap(&[("Vertex", "Vertex"), ("Edge", "Edge")]), rmap(&[("src", "src"), ("tgt", "tgt")]));
    let result = factorize(&morph, &t, &t).unwrap();
    assert!(result.steps.is_empty(), "identity morphism should produce no steps");
}

#[test]
fn pure_rename_morphism() {
    let domain = graph_theory();
    let codomain = renamed_graph_theory();
    let morph = TheoryMorphism::new(
        "rename",
        "ThGraph",
        "ThRenamedGraph",
        rmap(&[("Vertex", "Node"), ("Edge", "Arrow")]),
        rmap(&[("src", "source"), ("tgt", "target")]),
    );
    let result = factorize(&morph, &domain, &codomain).unwrap();
    assert_eq!(result.steps.len(), 4);
    validate_factorization(&result, &domain, &codomain).unwrap();
}

#[test]
fn adding_sort_produces_add_step() {
    let domain = Theory::new("T1", vec![Sort::simple("A")], Vec::new(), Vec::new());
    let codomain = Theory::new("T2", vec![Sort::simple("A"), Sort::simple("B")], Vec::new(), Vec::new());
    let morph = TheoryMorphism::new("add_b", "T1", "T2", rmap(&[("A", "A")]), rmap(&[]));
    let result = factorize(&morph, &domain, &codomain).unwrap();
    assert_eq!(result.steps.len(), 1);
    assert!(matches!(result.steps[0].transform, TheoryTransform::AddSort { .. }));
    validate_factorization(&result, &domain, &codomain).unwrap();
}

#[test]
fn dropping_sort_produces_correct_sequence() {
    let domain = Theory::new("T1", vec![Sort::simple("A"), Sort::simple("B")], vec![unary("f", "x", "A", "B")], Vec::new());
    let codomain = Theory::new("T2", vec![Sort::simple("A")], Vec::new(), Vec::new());
    let morph = TheoryMorphism::new("drop_b", "T1", "T2", rmap(&[("A", "A")]), rmap(&[]));
    let result = factorize(&morph, &domain, &codomain).unwrap();
    assert!(result.steps.len() >= 2);
    validate_factorization(&result, &domain, &codomain).unwrap();
}

#[test]
fn dependent_sort_ordering() {
    let domain = Theory::new("T1", vec![Sort::simple("A")], Vec::new(), Vec::new());
    let codomain = Theory::new(
        "T2",
        vec![Sort::simple("A"), Sort::simple("B"), Sort::dependent("C", vec![SortParam::new("x", SortExpr::name("B"))])],
        Vec::new(),
        Vec::new(),
    );
    let morph = TheoryMorphism::new("add", "T1", "T2", rmap(&[("A", "A")]), rmap(&[]));
    let result = factorize(&morph, &domain, &codomain).unwrap();
    let b_idx = result.steps.iter().position(|s| matches!(&s.transform, TheoryTransform::AddSort { sort, .. } if sort.name == "B"));
    let c_idx = result.steps.iter().position(|s| matches!(&s.transform, TheoryTransform::AddSort { sort, .. } if sort.name == "C"));
    assert!(b_idx.is_some() && c_idx.is_some());
    assert!(b_idx.unwrap() < c_idx.unwrap(), "B must come before C");
    validate_factorization(&result, &domain, &codomain).unwrap();
}

#[test]
fn mixed_add_drop_rename() {
    let domain = Theory::new("T1", vec![Sort::simple("A"), Sort::simple("B")], vec![unary("f", "x", "A", "B")], Vec::new());
    let codomain = Theory::new("T2", vec![Sort::simple("Alpha"), Sort::simple("C")], vec![unary("g", "x", "Alpha", "C")], Vec::new());
    let morph = TheoryMorphism::new("mixed", "T1", "T2", rmap(&[("A", "Alpha")]), rmap(&[]));
    let result = factorize(&morph, &domain, &codomain).unwrap();
    assert!(!result.steps.is_empty());
    validate_factorization(&result, &domain, &codomain).unwrap();
}

#[test]
fn equation_changes() {
    let domain = Theory::new(
        "T1",
        vec![Sort::simple("A")],
        vec![Operation::nullary("a", SortExpr::name("A")), Operation::nullary("b", SortExpr::name("A"))],
        vec![Equation::new("old_eq", Term::constant("a"), Term::constant("b"))],
    );
    let codomain = Theory::new(
        "T2",
        vec![Sort::simple("A")],
        vec![Operation::nullary("a", SortExpr::name("A")), Operation::nullary("b", SortExpr::name("A"))],
        vec![Equation::new("new_eq", Term::constant("b"), Term::constant("a"))],
    );
    let morph = TheoryMorphism::new("eq_change", "T1", "T2", rmap(&[("A", "A")]), rmap(&[("a", "a"), ("b", "b")]));
    let result = factorize(&morph, &domain, &codomain).unwrap();
    let has_drop = result.steps.iter().any(|s| matches!(&s.transform, TheoryTransform::DropEquation(n) if n == "old_eq"));
    let has_add = result.steps.iter().any(|s| matches!(&s.transform, TheoryTransform::AddEquation(eq) if eq.name == "new_eq"));
    assert!(has_drop, "should drop old equation");
    assert!(has_add, "should add new equation");
    validate_factorization(&result, &domain, &codomain).unwrap();
}

#[test]
fn validate_factorization_catches_missing_sort() {
    let domain = graph_theory();
    let bad_factorization = Factorization { steps: vec![], domain: "ThGraph".to_string(), codomain: "ThRenamedGraph".to_string() };
    let codomain = renamed_graph_theory();
    let result = validate_factorization(&bad_factorization, &domain, &codomain);
    assert!(result.is_err());
}

#[test]
fn factorization_step_names_follow_the_plan() {
    let domain = graph_theory();
    let codomain = renamed_graph_theory();
    let morph = TheoryMorphism::new(
        "rename",
        "ThGraph",
        "ThRenamedGraph",
        rmap(&[("Vertex", "Node"), ("Edge", "Arrow")]),
        rmap(&[("src", "source"), ("tgt", "target")]),
    );
    let result = factorize(&morph, &domain, &codomain).unwrap();
    let names: Vec<&str> = result.steps.iter().map(|s| s.name.as_str()).collect();
    assert_eq!(names, vec!["rename_sort_Vertex_Node", "rename_sort_Edge_Arrow", "rename_op_src_source", "rename_op_tgt_target"]);
    assert_eq!(result.domain, "ThGraph");
    assert_eq!(result.codomain, "ThRenamedGraph");
}
