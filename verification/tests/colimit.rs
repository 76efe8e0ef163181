use panproto_gat::colimit::colimit_by_name;
use panproto_gat::eq::{DirectedEquation, Equation};
use panproto_gat::error::GatError;
use panproto_gat::maps::RenameMap;
use panproto_gat::morphism::TheoryMorphism;
use panproto_gat::op::Operation;
use panproto_gat::pushout::{colimit, pushout_by_name};
use panproto_gat::sort::{Sort, SortExpr, SortParam, ValueKind};
use panproto_gat::term::Term;
use panproto_gat::theory::{ConflictPolicy, ConflictStrategy, Theory};

fn rmap(pairs: &[(&str, &str)]) -> RenameMap {
    RenameMap { entries: pairs.iter().map(|(a, b)| (a.to_string(), b.to_string())).collect() }
}

fn unary(name: &str, x: &str, a: &str, b: &str) -> Operation {
    Operation::unary(name, x, SortExpr::name(a), SortExpr::name(b))
}

fn empty() -> Theory {
    Theory::new("Empty", Vec::new(), Vec::new(), Vec::new())
}

fn rules_theory(name: &str, sorts: Vec<Sort>, ops: Vec<Operation>, rules: Vec<DirectedEquation>) -> Theory {
    Theory::full(name, Vec::new(), sorts, ops, Vec::new(), rules, Vec::new())
}

fn policy_theory(name: &str, policy: ConflictPolicy) -> Theory {
    Theory::full(name, Vec::new(), Vec::new(), Vec::new(), Vec::new(), Vec::new(), vec![policy])
}

#[test]
fn graph_constraint_colimit() {
    let shared = Theory::new("ThVertex", vec![Sort::simple("Vertex")], Vec::new(), Vec::new());
    let th_graph = Theory::new(
        "ThGraph",
        vec![Sort::simple("Vertex"), Sort::simple("Edge")],
        vec![unary("src", "e", "Edge", "Vertex"), unary("tgt", "e", "Edge", "Vertex")],
        Vec::new(),
    );
    let th_constraint = Theory::new(
        "ThConstraint",
        vec![Sort::simple("Vertex"), Sort::simple("Constraint")],
        vec![unary("target", "c", "Constraint", "Vertex")],
        Vec::new(),
    );
    let result = colimit_by_name(&th_graph, &th_constraint, &shared).unwrap();
    assert_eq!(result.name, "ThGraph_ThConstraint_colimit");
    assert_eq!(result.sorts.len(), 3);
    assert_eq!(result.ops.len(), 3);
    assert!(result.find_sort("Vertex").is_some());
    assert!(result.find_sort("Edge").is_some());
    assert!(result.find_sort("Constraint").is_some());
    assert!(result.find_op("src").is_some());
    assert!(result.find_op("tgt").is_some());
    assert!(result.find_op("target").is_some());
}

#[test]
fn sort_conflict_detected() {
    let t1 = Theory::new("T1", vec![Sort::simple("X")], Vec::new(), Vec::new());
    let t2 = Theory::new("T2", vec![Sort::dependent("X", vec![SortParam::new("a", SortExpr::name("S"))])], Vec::new(), Vec::new());
    let result = colimit_by_name(&t1, &t2, &empty());
    assert!(matches!(result, Err(GatError::SortConflict { .. })));
}

#[test]
fn op_conflict_detected() {
    let t1 = Theory::new("T1", vec![Sort::simple("A"), Sort::simple("B")], vec![unary("f", "x", "A", "B")], Vec::new());
    let t2 = Theory::new("T2", vec![Sort::simple("A"), Sort::simple("B")], vec![unary("f", "x", "B", "A")], Vec::new());
    let result = colimit_by_name(&t1, &t2, &empty());
    assert!(matches!(result, Err(GatError::OpConflict { .. })));
}

#[test]
fn eq_conflict_detected() {
    let t1 = Theory::new("T1", Vec::new(), Vec::new(), vec![Equation::new("ax", Term::var("x"), Term::var("y"))]);
    let t2 = Theory::new("T2", Vec::new(), Vec::new(), vec![Equation::new("ax", Term::var("a"), Term::var("a"))]);
    let result = colimit_by_name(&t1, &t2, &empty());
    assert!(matches!(result, Err(GatError::EqConflict { .. })));
}

#[test]
fn alpha_equivalent_eqs_not_conflicted() {
    let t1 = Theory::new("T1", Vec::new(), Vec::new(), vec![Equation::new("ax", Term::var("x"), Term::var("y"))]);
    let t2 = Theory::new("T2", Vec::new(), Vec::new(), vec![Equation::new("ax", Term::var("a"), Term::var("b"))]);
    let result = colimit_by_name(&t1, &t2, &empty()).unwrap();
    assert_eq!(result.eqs.len(), 1);
}

#[test]
fn compatible_non_shared_duplicates_allowed() {
    let t1 = Theory::new("T1", vec![Sort::simple("X")], Vec::new(), Vec::new());
    let t2 = Theory::new("T2", vec![Sort::simple("X")], Vec::new(), Vec::new());
    let result = colimit_by_name(&t1, &t2, &empty()).unwrap();
    assert_eq!(result.sorts.len(), 1);
}

#[test]
fn colimit_merges_directed_eqs() {
    let t1 = rules_theory(
        "T1",
        vec![Sort::simple("A")],
        vec![unary("f", "x", "A", "A")],
        vec![DirectedEquation::new(
            "rule1",
            Term::app("f", vec![Term::app("f", vec![Term::var("x")])]),
            Term::app("f", vec![Term::var("x")]),
            "_".to_string(),
        )],
    );
    let t2 = rules_theory(
        "T2",
        vec![Sort::simple("A")],
        vec![unary("f", "x", "A", "A"), Operation::nullary("c", SortExpr::name("A"))],
        vec![DirectedEquation::new("rule2", Term::app("f", vec![Term::constant("c")]), Term::constant("c"), "_".to_string())],
    );
    let result = colimit_by_name(&t1, &t2, &empty()).unwrap();
    assert_eq!(result.directed_eqs.len(), 2);
    assert!(result.find_directed_eq("rule1").is_some());
    assert!(result.find_directed_eq("rule2").is_some());
}

#[test]
fn colimit_shared_directed_eq_not_duplicated() {
    let de = DirectedEquation::new("shared_rule", Term::app("f", vec![Term::var("x")]), Term::var("x"), "_".to_string());
    let shared = rules_theory("Shared", vec![Sort::simple("A")], vec![unary("f", "x", "A", "A")], vec![de.copy()]);
    let t1 = rules_theory("T1", vec![Sort::simple("A")], vec![unary("f", "x", "A", "A")], vec![de.copy()]);
    let t2 = rules_theory("T2", vec![Sort::simple("A")], vec![unary("f", "x", "A", "A")], vec![de]);
    let result = colimit_by_name(&t1, &t2, &shared).unwrap();
    assert_eq!(result.directed_eqs.len(), 1);
}

#[test]
fn colimit_directed_eq_conflict() {
    let t1 = rules_theory("T1", Vec::new(), Vec::new(), vec![DirectedEquation::new("rule", Term::var("x"), Term::var("y"), "_".to_string())]);
    let t2 = rules_theory(
        "T2",
        Vec::new(),
        Vec::new(),
        vec![DirectedEquation::new("rule", Term::constant("a"), Term::constant("b"), "_".to_string())],
    );
    let result = colimit_by_name(&t1, &t2, &empty());
    assert!(matches!(result, Err(GatError::DirectedEqConflict { .. })));
}

#[test]
fn colimit_merges_policies() {
    let t1 = policy_theory("T1", ConflictPolicy { name: "p1".into(), value_kind: ValueKind::Str, strategy: ConflictStrategy::KeepLeft });
    let t2 = policy_theory("T2", ConflictPolicy { name: "p2".into(), value_kind: ValueKind::Int, strategy: ConflictStrategy::Fail });
    let result = colimit_by_name(&t1, &t2, &empty()).unwrap();
    assert_eq!(result.policies.len(), 2);
    assert!(result.find_policy("p1").is_some());
    assert!(result.find_policy("p2").is_some());
}

#[test]
fn colimit_policy_conflict() {
    let t1 = policy_theory("T1", ConflictPolicy { name: "p".into(), value_kind: ValueKind::Str, strategy: ConflictStrategy::KeepLeft });
    let t2 = policy_theory("T2", ConflictPolicy { name: "p".into(), value_kind: ValueKind::Str, strategy: ConflictStrategy::KeepRight });
    let result = colimit_by_name(&t1, &t2, &empty());
    assert!(matches!(result, Err(GatError::PolicyConflict { .. })));
}

#[test]
fn colimit_equations_with_renamed_ops() {
    let t1 = Theory::new(
        "T1",
        vec![Sort::simple("A")],
        vec![unary("f", "x", "A", "A")],
        vec![Equation::new("idem", Term::app("f", vec![Term::app("f", vec![Term::var("x")])]), Term::app("f", vec![Term::var("x")]))],
    );
    let t2 = Theory::new(
        "T2",
        vec![Sort::simple("A")],
        vec![unary("g", "x", "A", "A")],
        vec![Equation::new("idem", Term::app("g", vec![Term::app("g", vec![Term::var("x")])]), Term::app("g", vec![Term::var("x")]))],
    );
    let i1 = TheoryMorphism::new("i1", "Shared", "T1", rmap(&[("A", "A")]), rmap(&[("f", "f")]));
    let i2 = TheoryMorphism::new("i2", "Shared", "T2", rmap(&[("A", "A")]), rmap(&[("f", "g")]));
    let result = colimit(&t1, &t2, &i1, &i2).unwrap();
    assert_eq!(result.theory.eqs.len(), 1);
    assert!(result.theory.find_eq("idem").is_some());
    assert!(result.theory.find_op("f").is_some());
    assert!(result.theory.find_op("g").is_none());
}

#[test]
fn shared_declarations_not_duplicated() {
    let shared = Theory::new(
        "Shared",
        vec![Sort::simple("S")],
        vec![Operation::nullary("c", SortExpr::name("S"))],
        vec![Equation::new("e", Term::var("x"), Term::var("x"))],
    );
    let t1 = Theory::new(
        "T1",
        vec![Sort::simple("S"), Sort::simple("A")],
        vec![Operation::nullary("c", SortExpr::name("S"))],
        vec![Equation::new("e", Term::var("x"), Term::var("x"))],
    );
    let t2 = Theory::new(
        "T2",
        vec![Sort::simple("S"), Sort::simple("B")],
        vec![Operation::nullary("c", SortExpr::name("S"))],
        vec![Equation::new("e", Term::var("x"), Term::var("x"))],
    );
    let result = colimit_by_name(&t1, &t2, &shared).unwrap();
    assert_eq!(result.sorts.len(), 3);
    assert_eq!(result.ops.len(), 1);
    assert_eq!(result.eqs.len(), 1);
}

fn graph_and_constraint() -> (Theory, Theory, Theory) {
    let shared = Theory::new("ThVertex", vec![Sort::simple("Vertex")], Vec::new(), Vec::new());
    let th_graph = Theory::new(
        "ThGraph",
        vec![Sort::simple("Vertex"), Sort::simple("Edge")],
        vec![unary("src", "e", "Edge", "Vertex")],
        Vec::new(),
    );
    let th_constraint = Theory::new(
        "ThConstraint",
        vec![Sort::simple("Vertex"), Sort::simple("Constraint")],
        vec![unary("target", "c", "Constraint", "Vertex")],
        Vec::new(),
    );
    (shared, th_graph, th_constraint)
}

#[test]
fn pushout_universal_property_graph_constraint() {
    let (shared, th_graph, th_constraint) = graph_and_constraint();
    let pushout = pushout_by_name(&th_graph, &th_constraint, &shared).unwrap();
    let q = Theory::new(
        "Q",
        vec![Sort::simple("Vertex"), Sort::simple("Edge"), Sort::simple("Constraint"), Sort::simple("Extra")],
        vec![unary("src", "e", "Edge", "Vertex"), unary("target", "c", "Constraint", "Vertex")],
        Vec::new(),
    );
    let k1 = TheoryMorphism::new("k1", "ThGraph", "Q", rmap(&[("Vertex", "Vertex"), ("Edge", "Edge")]), rmap(&[("src", "src")]));
    let k2 = TheoryMorphism::new(
        "k2",
        "ThConstraint",
        "Q",
        rmap(&[("Vertex", "Vertex"), ("Constraint", "Constraint")]),
        rmap(&[("target", "target")]),
    );
    let mediator = pushout.verify_universal(&q, &k1, &k2).expect("alternative cocone factors through pushout");
    assert_eq!(mediator.sort_map.get(&"Vertex".to_string()).map(|s| s.as_str()), Some("Vertex"));
    assert_eq!(mediator.sort_map.get(&"Edge".to_string()).map(|s| s.as_str()), Some("Edge"));
    assert_eq!(mediator.sort_map.get(&"Constraint".to_string()).map(|s| s.as_str()), Some("Constraint"));
    assert_eq!(mediator.name, "mediator_ThGraph_ThConstraint_colimit_to_Q");
}

#[test]
fn pushout_identity_cocone_has_identity_mediator() {
    let (shared, th_graph, th_constraint) = graph_and_constraint();
    let result = pushout_by_name(&th_graph, &th_constraint, &shared).unwrap();
    let m = result.verify_universal(&result.theory, &result.inclusion1, &result.inclusion2).unwrap();
    for (k, v) in &m.sort_map.entries {
        assert_eq!(k, v);
    }
    for (k, v) in &m.op_map.entries {
        assert_eq!(k, v);
    }
}

#[test]
fn pushout_cocone_verifies_and_names_inclusions() {
    let (shared, th_graph, th_constraint) = graph_and_constraint();
    let result = pushout_by_name(&th_graph, &th_constraint, &shared).unwrap();
    assert_eq!(result.inclusion1.name, "incl_ThGraph_ThGraph_ThConstraint_colimit");
    assert_eq!(result.inclusion2.codomain, "ThGraph_ThConstraint_colimit");
    let i1 = TheoryMorphism::new("i1", "ThVertex", "ThGraph", rmap(&[("Vertex", "Vertex")]), rmap(&[]));
    let i2 = TheoryMorphism::new("i2", "ThVertex", "ThConstraint", rmap(&[("Vertex", "Vertex")]), rmap(&[]));
    assert!(result.verify_cocone(&i1, &i2, &shared).is_ok());
}

#[test]
fn pushout_by_name_missing_shared_sort() {
    let (_, th_graph, th_constraint) = graph_and_constraint();
    let shared = Theory::new("Sh", vec![Sort::simple("Missing")], Vec::new(), Vec::new());
    match pushout_by_name(&th_graph, &th_constraint, &shared) {
        Err(GatError::MissingSortMapping(msg)) => {
            assert_eq!(msg, "i1: shared sort `Missing` is not present in target theory `ThGraph`");
        },
        other => panic!("expected MissingSortMapping, got {other:?}"),
    }
}

#[test]
fn universal_codomain_mismatch_is_reported() {
    let (shared, th_graph, th_constraint) = graph_and_constraint();
    let pushout = pushout_by_name(&th_graph, &th_constraint, &shared).unwrap();
    let q = Theory::new("Q", vec![Sort::simple("Vertex")], Vec::new(), Vec::new());
    let k1 = TheoryMorphism::new("k1", "ThGraph", "Other", rmap(&[]), rmap(&[]));
    let k2 = TheoryMorphism::new("k2", "ThConstraint", "Q", rmap(&[]), rmap(&[]));
    match pushout.verify_universal(&q, &k1, &k2) {
        Err(GatError::EquationNotPreserved { equation, detail }) => {
            assert_eq!(equation, "universal property");
            assert_eq!(detail, "alternative cocone codomain mismatch: k1=Other, k2=Q, q=Q");
        },
        other => panic!("expected EquationNotPreserved, got {other:?}"),
    }
}

#[test]
fn universal_leg_missing_mapping_is_reported() {
    let (shared, th_graph, th_constraint) = graph_and_constraint();
    let pushout = pushout_by_name(&th_graph, &th_constraint, &shared).unwrap();
    let q = Theory::new("Q", vec![Sort::simple("Vertex")], Vec::new(), Vec::new());
    let k1 = TheoryMorphism::new("k1", "ThGraph", "Q", rmap(&[("Vertex", "Vertex")]), rmap(&[]));
    let k2 = TheoryMorphism::new("k2", "ThConstraint", "Q", rmap(&[]), rmap(&[]));
    match pushout.verify_universal(&q, &k1, &k2) {
        Err(GatError::EquationNotPreserved { equation, detail }) => {
            assert_eq!(equation, "universal property sort Edge");
            assert_eq!(detail, "k1 has no mapping for sort `Edge`");
        },
        other => panic!("expected EquationNotPreserved, got {other:?}"),
    }
}

#[test]
fn colimit_cocone_failure_is_reported() {
    let t1 = Theory::new("T1", vec![Sort::simple("A"), Sort::simple("B")], Vec::new(), Vec::new());
    let t2 = Theory::new("T2", vec![Sort::simple("A")], Vec::new(), Vec::new());
    let i1 = TheoryMorphism::new("i1", "S", "T1", rmap(&[("s", "A"), ("t", "B")]), rmap(&[]));
    let i2 = TheoryMorphism::new("i2", "S", "T2", rmap(&[("s", "A"), ("t", "A")]), rmap(&[]));
    match colimit(&t1, &t2, &i1, &i2) {
        Err(GatError::EquationNotPreserved { equation, .. }) => assert_eq!(equation, "cocone sort s"),
        other => panic!("expected EquationNotPreserved, got {other:?}"),
    }
}

#[test]
fn colimit_by_name_rejects_shared_sort_neither_declares() {
    let t1 = Theory::new("T1", vec![Sort::simple("A")], Vec::new(), Vec::new());
    let t2 = Theory::new("T2", vec![Sort::simple("A")], Vec::new(), Vec::new());
    let shared = Theory::new("S", vec![Sort::simple("Ghost")], Vec::new(), Vec::new());
    assert!(matches!(colimit_by_name(&t1, &t2, &shared), Err(GatError::MissingSortMapping(_))));
    assert!(pushout_by_name(&t1, &t2, &shared).is_err());
}

#[test]
fn colimit_by_name_matches_pushout_theory() {
    let t1 = Theory::new("T1", vec![Sort::simple("A"), Sort::simple("B")], vec![unary("f", "x", "A", "B")], Vec::new());
    let t2 = Theory::new("T2", vec![Sort::simple("A"), Sort::simple("C")], vec![unary("g", "x", "A", "C")], Vec::new());
    let shared = Theory::new("S", vec![Sort::simple("A")], Vec::new(), Vec::new());
    let by_name = colimit_by_name(&t1, &t2, &shared).expect("pushout exists");
    let full = pushout_by_name(&t1, &t2, &shared).expect("pushout exists");
    let names = |t: &Theory| t.sorts.iter().map(|s| s.name.clone()).collect::<Vec<_>>();
    let ops = |t: &Theory| t.ops.iter().map(|o| o.name.clone()).collect::<Vec<_>>();
    assert_eq!(by_name.name, full.theory.name);
    assert_eq!(names(&by_name), names(&full.theory));
    assert_eq!(ops(&by_name), ops(&full.theory));
}
