use panproto_gat::eq::{DirectedEquation, Equation};
use panproto_gat::maps::RenameMap;
use panproto_gat::morphism::{check_morphism, TheoryMorphism};
use panproto_gat::op::Operation;
use panproto_gat::pullback::pullback;
use panproto_gat::sort::{Sort, SortExpr};
use panproto_gat::term::Term;
use panproto_gat::theory::Theory;

fn rmap(pairs: &[(&str, &str)]) -> RenameMap {
    RenameMap { entries: pairs.iter().map(|(a, b)| (a.to_string(), b.to_string())).collect() }
}

fn unary(name: &str, x: &str, a: &str, b: &str) -> Operation {
    Operation::unary(name, x, SortExpr::name(a), SortExpr::name(b))
}

#[test]
fn pullback_identity_morphisms() {
    let theory = Theory::new(
        "ThGraph",
        vec![Sort::simple("Vertex"), Sort::simple("Edge")],
        vec![unary("src", "e", "Edge", "Vertex"), unary("tgt", "e", "Edge", "Vertex")],
        Vec::new(),
    );
    let id1 = TheoryMorphism::new(
        "id1",
        "ThGraph",
        "ThGraph",
        rmap(&[("Vertex", "Vertex"), ("Edge", "Edge")]),
        rmap(&[("src", "src"), ("tgt", "tgt")]),
    );
    let id2 = TheoryMorphism::new(
        "id2",
        "ThGraph",
        "ThGraph",
        rmap(&[("Vertex", "Vertex"), ("Edge", "Edge")]),
        rmap(&[("src", "src"), ("tgt", "tgt")]),
    );
    let result = pullback(&theory, &theory, &id1, &id2).unwrap();
    assert_eq!(result.theory.sorts.len(), 2);
    assert_eq!(result.theory.ops.len(), 2);
    assert!(result.theory.find_sort("Vertex").is_some());
    assert!(result.theory.find_sort("Edge").is_some());
    assert!(result.theory.find_op("src").is_some());
    assert!(result.theory.find_op("tgt").is_some());
    assert!(check_morphism(&result.proj1, &result.theory, &theory).is_ok());
    assert!(check_morphism(&result.proj2, &result.theory, &theory).is_ok());
}

#[test]
fn pullback_disjoint_images() {
    let t1 = Theory::new("T1", vec![Sort::simple("A")], Vec::new(), Vec::new());
    let t2 = Theory::new("T2", vec![Sort::simple("B")], Vec::new(), Vec::new());
    let m1 = TheoryMorphism::new("m1", "T1", "Target", rmap(&[("A", "X")]), rmap(&[]));
    let m2 = TheoryMorphism::new("m2", "T2", "Target", rmap(&[("B", "Y")]), rmap(&[]));
    let result = pullback(&t1, &t2, &m1, &m2).unwrap();
    assert_eq!(result.theory.sorts.len(), 0);
    assert_eq!(result.theory.ops.len(), 0);
    assert_eq!(result.theory.eqs.len(), 0);
}

#[test]
fn pullback_shared_vertex_sort() {
    let t1 = Theory::new(
        "T1",
        vec![Sort::simple("V1"), Sort::simple("E1")],
        vec![unary("src1", "e", "E1", "V1")],
        Vec::new(),
    );
    let t2 = Theory::new(
        "T2",
        vec![Sort::simple("V2"), Sort::simple("F2")],
        vec![unary("src2", "f", "F2", "V2")],
        Vec::new(),
    );
    let m1 = TheoryMorphism::new("m1", "T1", "Target", rmap(&[("V1", "Vertex"), ("E1", "Edge")]), rmap(&[("src1", "src")]));
    let m2 = TheoryMorphism::new("m2", "T2", "Target", rmap(&[("V2", "Vertex"), ("F2", "Edge")]), rmap(&[("src2", "src")]));
    let result = pullback(&t1, &t2, &m1, &m2).unwrap();
    assert_eq!(result.theory.sorts.len(), 2);
    assert!(result.theory.find_sort("V1=V2").is_some());
    assert!(result.theory.find_sort("E1=F2").is_some());
    assert_eq!(result.theory.ops.len(), 1);
    assert!(result.theory.find_op("src1=src2").is_some());
    assert!(check_morphism(&result.proj1, &result.theory, &t1).is_ok());
    assert!(check_morphism(&result.proj2, &result.theory, &t2).is_ok());
}

#[test]
fn projection_morphisms_validate() {
    let theory = Theory::new(
        "Monoid",
        vec![Sort::simple("Carrier")],
        vec![
            Operation::new(
                "mul",
                vec![("a".into(), SortExpr::from("Carrier")), ("b".into(), SortExpr::from("Carrier"))],
                SortExpr::name("Carrier"),
            ),
            Operation::nullary("unit", SortExpr::name("Carrier")),
        ],
        vec![Equation::new(
            "left_id",
            Term::app("mul", vec![Term::constant("unit"), Term::var("a")]),
            Term::var("a"),
        )],
    );
    let id1 = TheoryMorphism::new("id1", "Monoid", "Monoid", rmap(&[("Carrier", "Carrier")]), rmap(&[("mul", "mul"), ("unit", "unit")]));
    let id2 = TheoryMorphism::new("id2", "Monoid", "Monoid", rmap(&[("Carrier", "Carrier")]), rmap(&[("mul", "mul"), ("unit", "unit")]));
    let result = pullback(&theory, &theory, &id1, &id2).unwrap();
    assert_eq!(result.theory.sorts.len(), 1);
    assert_eq!(result.theory.ops.len(), 2);
    assert_eq!(result.theory.eqs.len(), 1);
    check_morphism(&result.proj1, &result.theory, &theory).unwrap();
    check_morphism(&result.proj2, &result.theory, &theory).unwrap();
}

#[test]
fn equation_pairing() {
    let t1 = Theory::new(
        "T1",
        vec![Sort::simple("S")],
        vec![unary("f", "x", "S", "S")],
        vec![Equation::new(
            "idem1",
            Term::app("f", vec![Term::app("f", vec![Term::var("x")])]),
            Term::app("f", vec![Term::var("x")]),
        )],
    );
    let t2 = Theory::new(
        "T2",
        vec![Sort::simple("T")],
        vec![unary("g", "y", "T", "T")],
        vec![Equation::new(
            "idem2",
            Term::app("g", vec![Term::app("g", vec![Term::var("x")])]),
            Term::app("g", vec![Term::var("x")]),
        )],
    );
    let m1 = TheoryMorphism::new("m1", "T1", "Target", rmap(&[("S", "U")]), rmap(&[("f", "h")]));
    let m2 = TheoryMorphism::new("m2", "T2", "Target", rmap(&[("T", "U")]), rmap(&[("g", "h")]));
    let result = pullback(&t1, &t2, &m1, &m2).unwrap();
    assert_eq!(result.theory.sorts.len(), 1);
    assert_eq!(result.theory.ops.len(), 1);
    assert_eq!(result.theory.eqs.len(), 1);
    assert!(result.theory.find_eq("idem1=idem2").is_some());
    check_morphism(&result.proj1, &result.theory, &t1).unwrap();
    check_morphism(&result.proj2, &result.theory, &t2).unwrap();
}

#[test]
fn equation_pairing_with_renamed_vars() {
    let t1 = Theory::new(
        "T1",
        vec![Sort::simple("S")],
        vec![Operation::new("f", vec![("a".into(), SortExpr::from("S")), ("b".into(), SortExpr::from("S"))], SortExpr::name("S"))],
        vec![Equation::new(
            "comm1",
            Term::app("f", vec![Term::var("a"), Term::var("b")]),
            Term::app("f", vec![Term::var("b"), Term::var("a")]),
        )],
    );
    let t2 = Theory::new(
        "T2",
        vec![Sort::simple("T")],
        vec![Operation::new("g", vec![("x".into(), SortExpr::from("T")), ("y".into(), SortExpr::from("T"))], SortExpr::name("T"))],
        vec![Equation::new(
            "comm2",
            Term::app("g", vec![Term::var("x"), Term::var("y")]),
            Term::app("g", vec![Term::var("y"), Term::var("x")]),
        )],
    );
    let m1 = TheoryMorphism::new("m1", "T1", "Target", rmap(&[("S", "U")]), rmap(&[("f", "h")]));
    let m2 = TheoryMorphism::new("m2", "T2", "Target", rmap(&[("T", "U")]), rmap(&[("g", "h")]));
    let result = pullback(&t1, &t2, &m1, &m2).unwrap();
    assert_eq!(result.theory.eqs.len(), 1);
    assert!(result.theory.find_eq("comm1=comm2").is_some());
    check_morphism(&result.proj1, &result.theory, &t1).unwrap();
    check_morphism(&result.proj2, &result.theory, &t2).unwrap();
}

#[test]
fn pullback_pairs_directed_eqs() {
    let t1 = Theory::full(
        "T1",
        Vec::new(),
        vec![Sort::simple("S")],
        vec![unary("f", "x", "S", "S")],
        Vec::new(),
        vec![DirectedEquation::new(
            "rule1",
            Term::app("f", vec![Term::app("f", vec![Term::var("x")])]),
            Term::app("f", vec![Term::var("x")]),
            "_".to_string(),
        )],
        Vec::new(),
    );
    let t2 = Theory::full(
        "T2",
        Vec::new(),
        vec![Sort::simple("T")],
        vec![unary("g", "y", "T", "T")],
        Vec::new(),
        vec![DirectedEquation::new(
            "rule2",
            Term::app("g", vec![Term::app("g", vec![Term::var("y")])]),
            Term::app("g", vec![Term::var("y")]),
            "_".to_string(),
        )],
        Vec::new(),
    );
    let m1 = TheoryMorphism::new("m1", "T1", "Target", rmap(&[("S", "U")]), rmap(&[("f", "h")]));
    let m2 = TheoryMorphism::new("m2", "T2", "Target", rmap(&[("T", "U")]), rmap(&[("g", "h")]));
    let result = pullback(&t1, &t2, &m1, &m2).unwrap();
    assert_eq!(result.theory.directed_eqs.len(), 1);
    assert!(result.theory.find_directed_eq("rule1=rule2").is_some());
}

#[test]
fn pullback_no_directed_eq_match() {
    let t1 = Theory::full(
        "T1",
        Vec::new(),
        vec![Sort::simple("S")],
        vec![unary("f", "x", "S", "S")],
        Vec::new(),
        vec![DirectedEquation::new("rule1", Term::app("f", vec![Term::var("x")]), Term::var("x"), "_".to_string())],
        Vec::new(),
    );
    let t2 = Theory::full(
        "T2",
        Vec::new(),
        vec![Sort::simple("T")],
        vec![unary("g", "y", "T", "T")],
        Vec::new(),
        vec![DirectedEquation::new("rule2", Term::var("y"), Term::app("g", vec![Term::var("y")]), "_".to_string())],
        Vec::new(),
    );
    let m1 = TheoryMorphism::new("m1", "T1", "Target", rmap(&[("S", "U")]), rmap(&[("f", "h")]));
    let m2 = TheoryMorphism::new("m2", "T2", "Target", rmap(&[("T", "U")]), rmap(&[("g", "h")]));
    let result = pullback(&t1, &t2, &m1, &m2).unwrap();
    assert_eq!(result.theory.directed_eqs.len(), 0);
}

#[test]
fn same_name_sorts_not_duplicated() {
    let t1 = Theory::new("T1", vec![Sort::simple("Vertex")], Vec::new(), Vec::new());
    let t2 = Theory::new("T2", vec![Sort::simple("Vertex")], Vec::new(), Vec::new());
    let m1 = TheoryMorphism::new("m1", "T1", "Target", rmap(&[("Vertex", "V")]), rmap(&[]));
    let m2 = TheoryMorphism::new("m2", "T2", "Target", rmap(&[("Vertex", "V")]), rmap(&[]));
    let result = pullback(&t1, &t2, &m1, &m2).unwrap();
    assert_eq!(result.theory.sorts.len(), 1);
    assert!(result.theory.find_sort("Vertex").is_some());
    assert!(result.theory.find_sort("Vertex=Vertex").is_none());
}

#[test]
fn pullback_names_and_projection_maps() {
    let t1 = Theory::new("T1", vec![Sort::simple("V1")], Vec::new(), Vec::new());
    let t2 = Theory::new("T2", vec![Sort::simple("V2")], Vec::new(), Vec::new());
    let m1 = TheoryMorphism::new("m1", "T1", "Target", rmap(&[("V1", "V")]), rmap(&[]));
    let m2 = TheoryMorphism::new("m2", "T2", "Target", rmap(&[("V2", "V")]), rmap(&[]));
    let result = pullback(&t1, &t2, &m1, &m2).unwrap();
    assert_eq!(result.theory.name, "T1_T2_pullback");
    assert_eq!(result.proj1.sort_map.get(&"V1=V2".to_string()).map(|s| s.as_str()), Some("V1"));
    assert_eq!(result.proj2.sort_map.get(&"V1=V2".to_string()).map(|s| s.as_str()), Some("V2"));
}

#[test]
fn pullback_rejects_morphism_naming_unknown_sort() {
    let t1 = Theory::new("T1", vec![Sort::simple("A")], Vec::new(), Vec::new());
    let t2 = Theory::new("T2", vec![Sort::simple("B")], Vec::new(), Vec::new());
    let m1 = TheoryMorphism::new("m1", "T1", "T", rmap(&[("A", "X"), ("Z", "X")]), RenameMap::new());
    let m2 = TheoryMorphism::new("m2", "T2", "T", rmap(&[("B", "X")]), RenameMap::new());
    let result = pullback(&t1, &t2, &m1, &m2);
    assert!(matches!(result, Err(panproto_gat::error::GatError::SortNotFound(ref n)) if n == "Z"));
}

#[test]
fn pullback_rejects_morphism_naming_unknown_op() {
    let t1 = Theory::new("T1", vec![Sort::simple("A")], Vec::new(), Vec::new());
    let t2 = Theory::new("T2", vec![Sort::simple("B")], Vec::new(), Vec::new());
    let m1 = TheoryMorphism::new("m1", "T1", "T", rmap(&[("A", "X")]), RenameMap::new());
    let m2 = TheoryMorphism::new("m2", "T2", "T", rmap(&[("B", "X")]), rmap(&[("g", "h")]));
    let result = pullback(&t1, &t2, &m1, &m2);
    assert!(matches!(result, Err(panproto_gat::error::GatError::OpNotFound(ref n)) if n == "g"));
}
