use panproto_gat::colimit::colimit_by_name;
use panproto_gat::composition::{recompose, CompositionSpec, CompositionStep};
use panproto_gat::error::GatError;
use panproto_gat::maps::NameMap;
use panproto_gat::op::Operation;
use panproto_gat::sort::{Sort, SortExpr, SortParam};
use panproto_gat::theory::Theory;

fn unary(name: &str, x: &str, a: &str, b: &str) -> Operation {
    Operation::unary(name, x, SortExpr::name(a), SortExpr::name(b))
}

fn base_registry() -> NameMap<Theory> {
    let mut reg = NameMap::new();
    reg.insert(
        "ThGraph".into(),
        Theory::new(
            "ThGraph",
            vec![Sort::simple("Vertex"), Sort::simple("Edge")],
            vec![unary("src", "e", "Edge", "Vertex"), unary("tgt", "e", "Edge", "Vertex")],
            vec![],
        ),
    );
    reg.insert(
        "ThConstraint".into(),
        Theory::new(
            "ThConstraint",
            vec![Sort::simple("Vertex"), Sort::dependent("Constraint", vec![SortParam::new("v", SortExpr::name("Vertex"))])],
            vec![unary("target", "c", "Constraint", "Vertex")],
            vec![],
        ),
    );
    reg.insert(
        "ThMulti".into(),
        Theory::new(
            "ThMulti",
            vec![Sort::simple("Vertex"), Sort::simple("Edge"), Sort::simple("EdgeLabel")],
            vec![unary("edge_label", "e", "Edge", "EdgeLabel")],
            vec![],
        ),
    );
    reg.insert(
        "ThWType".into(),
        Theory::new(
            "ThWType",
            vec![Sort::simple("Node"), Sort::simple("Arc"), Sort::simple("Value")],
            vec![
                unary("anchor", "n", "Node", "Vertex"),
                unary("arc_src", "a", "Arc", "Node"),
                unary("arc_tgt", "a", "Arc", "Node"),
                unary("arc_edge", "a", "Arc", "Edge"),
                unary("node_value", "n", "Node", "Value"),
            ],
            vec![],
        ),
    );
    reg
}

#[test]
fn base_step_verifies_existence() {
    let reg = base_registry();
    let spec = CompositionSpec { result_name: "Result".into(), steps: vec![CompositionStep::Base("ThWType".into())] };
    let theory = recompose(&spec, &reg).unwrap();
    assert_eq!(theory.name, "Result");
    assert_eq!(theory.sorts.len(), 3);
}

#[test]
fn base_step_missing_theory_errors() {
    let reg = base_registry();
    let spec = CompositionSpec { result_name: "Result".into(), steps: vec![CompositionStep::Base("ThNonexistent".into())] };
    let result = recompose(&spec, &reg);
    assert!(matches!(result, Err(GatError::TheoryNotFound(_))));
}

#[test]
fn single_colimit_step() {
    let reg = base_registry();
    let spec = CompositionSpec {
        result_name: "GraphConstraint".into(),
        steps: vec![CompositionStep::Colimit {
            left: "ThGraph".into(),
            right: "ThConstraint".into(),
            shared_sorts: vec!["Vertex".into()],
            shared_ops: vec![],
        }],
    };
    let theory = recompose(&spec, &reg).unwrap();
    assert_eq!(theory.name, "GraphConstraint");
    assert_eq!(theory.sorts.len(), 3);
    assert_eq!(theory.ops.len(), 3);
}

#[test]
fn chained_colimit_matches_direct() {
    let reg = base_registry();
    let spec = CompositionSpec {
        result_name: "SchemaA".into(),
        steps: vec![
            CompositionStep::Colimit {
                left: "ThGraph".into(),
                right: "ThConstraint".into(),
                shared_sorts: vec!["Vertex".into()],
                shared_ops: vec![],
            },
            CompositionStep::Colimit {
                left: "step_0".into(),
                right: "ThMulti".into(),
                shared_sorts: vec!["Vertex".into(), "Edge".into()],
                shared_ops: vec![],
            },
        ],
    };
    let from_spec = recompose(&spec, &reg).unwrap();
    let g = reg.get(&"ThGraph".to_string()).unwrap();
    let c = reg.get(&"ThConstraint".to_string()).unwrap();
    let m = reg.get(&"ThMulti".to_string()).unwrap();
    let shared_v = Theory::new("sv", vec![Sort::simple("Vertex")], vec![], vec![]);
    let gc = colimit_by_name(g, c, &shared_v).unwrap();
    let shared_ve = Theory::new("sve", vec![Sort::simple("Vertex"), Sort::simple("Edge")], vec![], vec![]);
    let mut direct = colimit_by_name(&gc, m, &shared_ve).unwrap();
    direct.name = "SchemaA".into();
    assert_eq!(from_spec.sorts.len(), direct.sorts.len());
    assert_eq!(from_spec.ops.len(), direct.ops.len());
    for sort in &direct.sorts {
        assert!(from_spec.find_sort(&sort.name).is_some(), "missing sort: {}", sort.name);
    }
    for op in &direct.ops {
        assert!(from_spec.find_op(&op.name).is_some(), "missing op: {}", op.name);
    }
}

#[test]
fn empty_spec_errors() {
    let reg = base_registry();
    let spec = CompositionSpec { result_name: "Empty".into(), steps: vec![] };
    let result = recompose(&spec, &reg);
    assert!(matches!(result, Err(GatError::TheoryNotFound(_))));
    assert_eq!(result.unwrap_err(), GatError::TheoryNotFound("empty composition spec for 'Empty'".to_string()));
}

#[test]
fn shared_op_missing_on_one_side_errors() {
    let reg = base_registry();
    let spec = CompositionSpec {
        result_name: "R".into(),
        steps: vec![CompositionStep::Colimit {
            left: "ThGraph".into(),
            right: "ThConstraint".into(),
            shared_sorts: vec!["Vertex".into()],
            shared_ops: vec!["src".into()],
        }],
    };
    match recompose(&spec, &reg) {
        Err(GatError::FactorizationError(msg)) => {
            assert_eq!(msg, "shared operation 'src' not found in right theory 'ThConstraint'");
        },
        other => panic!("expected FactorizationError, got {other:?}"),
    }
}
