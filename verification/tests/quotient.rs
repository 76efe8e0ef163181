use panproto_gat::eq::{DirectedEquation, Equation};
use panproto_gat::error::GatError;
use panproto_gat::op::Operation;
use panproto_gat::quotient::quotient;
use panproto_gat::sort::{Sort, SortClosure, SortExpr, SortKind, SortParam, ValueKind};
use panproto_gat::term::Term;
use panproto_gat::theory::{ConflictPolicy, ConflictStrategy, Theory};

fn unary(name: &str, x: &str, a: &str, b: &str) -> Operation {
    Operation::unary(name, x, SortExpr::name(a), SortExpr::name(b))
}

fn ids(pairs: &[(&str, &str)]) -> Vec<(String, String)> {
    pairs.iter().map(|(a, b)| (a.to_string(), b.to_string())).collect()
}

fn two_sort_theory() -> Theory {
    let eq1 = Equation::new(
        "f_idem",
        Term::app("f", vec![Term::app("f", vec![Term::var("x")])]),
        Term::app("f", vec![Term::var("x")]),
    );
    Theory::full(
        "TwoSort",
        Vec::new(),
        vec![Sort::simple("A"), Sort::simple("B")],
        vec![unary("f", "x", "A", "A"), unary("g", "x", "B", "B")],
        vec![eq1],
        Vec::new(),
        Vec::new(),
    )
}

fn theory_of(sorts: Vec<Sort>, ops: Vec<Operation>, eqs: Vec<Equation>) -> Theory {
    Theory::full("T", Vec::new(), sorts, ops, eqs, Vec::new(), Vec::new())
}

#[test]
fn empty_identifications_returns_isomorphic() {
    let t = two_sort_theory();
    let q = quotient(&t, &[]).unwrap();
    assert_eq!(q.sorts.len(), t.sorts.len());
    assert_eq!(q.ops.len(), t.ops.len());
    assert_eq!(q.eqs.len(), t.eqs.len());
    assert_eq!(q.name, t.name);
}

#[test]
fn merge_two_sorts() {
    let t = two_sort_theory();
    let q = quotient(&t, &ids(&[("A", "B")])).unwrap();
    assert_eq!(q.sorts.len(), 1);
    assert!(q.find_sort("A").is_some());
    assert!(q.find_sort("B").is_none());
    assert_eq!(q.ops.len(), 2);
    let g = q.find_op("g").expect("op g not found");
    assert_eq!(g.output.head().as_str(), "A");
    assert_eq!(g.inputs[0].1.head().as_str(), "A");
}

#[test]
fn merge_two_ops() {
    let t = theory_of(vec![Sort::simple("S")], vec![unary("f", "x", "S", "S"), unary("g", "x", "S", "S")], Vec::new());
    let q = quotient(&t, &ids(&[("f", "g")])).unwrap();
    assert_eq!(q.ops.len(), 1);
    assert!(q.find_op("f").is_some());
    assert!(q.find_op("g").is_none());
}

#[test]
fn transitive_closure() {
    let t = theory_of(vec![Sort::simple("A"), Sort::simple("B"), Sort::simple("C")], Vec::new(), Vec::new());
    let q = quotient(&t, &ids(&[("A", "B"), ("B", "C")])).unwrap();
    assert_eq!(q.sorts.len(), 1);
    assert!(q.find_sort("A").is_some());
}

#[test]
fn incompatible_sort_arities_error() {
    let s_dep = Sort::dependent("B", vec![SortParam::new("x", SortExpr::name("A"))]);
    let t = theory_of(vec![Sort::simple("A"), s_dep], Vec::new(), Vec::new());
    let result = quotient(&t, &ids(&[("A", "B")]));
    assert!(result.is_err());
    match result {
        Err(GatError::QuotientIncompatible { detail, .. }) => {
            assert!(detail.contains("arities differ"));
        },
        other => panic!("expected QuotientIncompatible, got {other:?}"),
    }
}

#[test]
fn incompatible_op_signatures_error() {
    let t = theory_of(
        vec![Sort::simple("A"), Sort::simple("B")],
        vec![unary("f", "x", "A", "A"), unary("g", "x", "A", "B")],
        Vec::new(),
    );
    let result = quotient(&t, &ids(&[("f", "g")]));
    assert!(result.is_err());
    match result {
        Err(GatError::QuotientIncompatible { detail, .. }) => {
            assert!(detail.contains("signatures differ"));
        },
        other => panic!("expected QuotientIncompatible, got {other:?}"),
    }
}

#[test]
fn equations_renamed_and_deduplicated() {
    let eq1 = Equation::new("eq_f", Term::app("f", vec![Term::var("x")]), Term::var("x"));
    let eq2 = Equation::new("eq_g", Term::app("g", vec![Term::var("x")]), Term::var("x"));
    let t = theory_of(vec![Sort::simple("S")], vec![unary("f", "x", "S", "S"), unary("g", "x", "S", "S")], vec![eq1, eq2]);
    let q = quotient(&t, &ids(&[("f", "g")])).unwrap();
    assert_eq!(q.eqs.len(), 1);
    assert_eq!(q.eqs[0].name.as_str(), "eq_f");
}

#[test]
fn mixed_sort_and_op_identifications() {
    let t = theory_of(
        vec![Sort::simple("A"), Sort::simple("B")],
        vec![unary("f", "x", "A", "A"), unary("g", "x", "B", "B")],
        Vec::new(),
    );
    let q = quotient(&t, &ids(&[("A", "B"), ("f", "g")])).unwrap();
    assert_eq!(q.sorts.len(), 1);
    assert_eq!(q.ops.len(), 1);
    assert!(q.find_sort("A").is_some());
    assert!(q.find_op("f").is_some());
}

#[test]
fn sort_params_renamed_in_dependent_sorts() {
    let s_dep = Sort::dependent("D", vec![SortParam::new("x", SortExpr::name("B"))]);
    let t = theory_of(vec![Sort::simple("A"), Sort::simple("B"), s_dep], Vec::new(), Vec::new());
    let q = quotient(&t, &ids(&[("A", "B")])).unwrap();
    assert_eq!(q.sorts.len(), 2);
    let d = q.find_sort("D").expect("sort D not found");
    assert_eq!(d.params[0].sort.head().as_str(), "A");
}

#[test]
fn directed_eqs_and_policies_survive_quotient() {
    let de = DirectedEquation::new("g_to_x", Term::app("g", vec![Term::var("x")]), Term::var("x"), "_".to_string());
    let policy = ConflictPolicy { name: "keep_left_str".into(), value_kind: ValueKind::Str, strategy: ConflictStrategy::KeepLeft };
    let t = Theory::full(
        "T",
        Vec::new(),
        vec![Sort::simple("S")],
        vec![unary("f", "x", "S", "S"), unary("g", "x", "S", "S")],
        Vec::new(),
        vec![de],
        vec![policy],
    );
    let q = quotient(&t, &ids(&[("f", "g")])).unwrap();
    assert_eq!(q.directed_eqs.len(), 1);
    let survived = q.find_directed_eq("g_to_x").expect("directed equation g_to_x not found");
    assert_eq!(survived.lhs, Term::app("f", vec![Term::var("x")]));
    assert_eq!(survived.rhs, Term::var("x"));
    assert_eq!(q.policies.len(), 1);
    assert!(q.find_policy("keep_left_str").is_some());
}

#[test]
fn identifying_sorts_with_differing_kind_fails() {
    let s_a = Sort::with_kind("A", SortKind::Val(ValueKind::Str));
    let t = theory_of(vec![s_a, Sort::simple("B")], Vec::new(), Vec::new());
    match quotient(&t, &ids(&[("A", "B")])) {
        Err(GatError::QuotientIncompatible { detail, .. }) => {
            assert!(detail.contains("kinds differ"), "got detail: {detail}");
        },
        other => panic!("expected QuotientIncompatible on kind mismatch, got {other:?}"),
    }
}

#[test]
fn identifying_sorts_with_differing_closure_fails() {
    let s_b = Sort { name: "B".to_string(), params: Vec::new(), kind: SortKind::default(), closure: SortClosure::Closed(vec!["mk_b".to_string()]) };
    let t = theory_of(vec![Sort::simple("A"), s_b], Vec::new(), Vec::new());
    match quotient(&t, &ids(&[("A", "B")])) {
        Err(GatError::QuotientIncompatible { detail, .. }) => {
            assert!(detail.contains("closures differ"), "got detail: {detail}");
        },
        other => panic!("expected QuotientIncompatible on closure mismatch, got {other:?}"),
    }
}

#[test]
fn identifying_sorts_with_matching_kind_and_closure_succeeds() {
    let s_a = Sort::with_kind("A", SortKind::Val(ValueKind::Int));
    let s_b = Sort::with_kind("B", SortKind::Val(ValueKind::Int));
    let t = theory_of(vec![s_a, s_b], Vec::new(), Vec::new());
    let q = quotient(&t, &ids(&[("A", "B")])).unwrap();
    assert_eq!(q.sorts.len(), 1);
    assert!(q.find_sort("A").is_some());
}

#[test]
fn alpha_variant_equations_deduplicated() {
    let eq_x = Equation::new("e1", Term::app("f", vec![Term::var("x")]), Term::var("x"));
    let eq_y = Equation::new("e2", Term::app("f", vec![Term::var("y")]), Term::var("y"));
    let theory = theory_of(
        vec![Sort::simple("S"), Sort::simple("A"), Sort::simple("B")],
        vec![unary("f", "z", "S", "S")],
        vec![eq_x, eq_y],
    );
    let quotiented = quotient(&theory, &ids(&[("A", "B")])).unwrap();
    assert_eq!(quotiented.eqs.len(), 1);
}

fn two_point_loop_theory() -> Theory {
    Theory::new(
        "Pointed",
        vec![
            Sort::simple("Pt"),
            Sort::dependent("Hom", vec![SortParam::new("a", SortExpr::name("Pt")), SortParam::new("b", SortExpr::name("Pt"))]),
        ],
        vec![
            Operation::new("pt1", vec![], SortExpr::name("Pt")),
            Operation::new("pt2", vec![], SortExpr::name("Pt")),
            Operation::new("loop1", vec![], SortExpr::app("Hom", vec![Term::constant("pt1"), Term::constant("pt1")])),
            Operation::new("loop2", vec![], SortExpr::app("Hom", vec![Term::constant("pt2"), Term::constant("pt2")])),
        ],
        vec![],
    )
}

fn collect_referenced_ops(term: &Term, names: &mut Vec<String>) {
    match term {
        Term::Var(_) | Term::Hole { .. } => {},
        Term::App { op, args } => {
            names.push(op.clone());
            for arg in args {
                collect_referenced_ops(arg, names);
            }
        },
        Term::Case { scrutinee, branches } => {
            collect_referenced_ops(scrutinee, names);
            for branch in branches {
                names.push(branch.constructor.clone());
                collect_referenced_ops(&branch.body, names);
            }
        },
        Term::Let { bound, body, .. } => {
            collect_referenced_ops(bound, names);
            collect_referenced_ops(body, names);
        },
    }
}

fn assert_no_dangling_op_references(theory: &Theory) {
    for op in &theory.ops {
        let sorts = op.inputs.iter().map(|(_, s, _)| s).chain(std::iter::once(&op.output));
        for sort in sorts {
            let mut names = Vec::new();
            for arg in sort.args() {
                collect_referenced_ops(&arg, &mut names);
            }
            for name in names {
                assert!(theory.has_op(&name), "signature of `{}` mentions `{name}`, absent from the quotient: {sort:?}", op.name);
            }
        }
    }
}

#[test]
fn quotient_renames_ops_inside_dependent_sort_arguments() {
    let theory = two_point_loop_theory();
    let Ok(quotiented) = quotient(&theory, &ids(&[("pt1", "pt2")])) else {
        panic!("identifying two points of the same sort must be compatible");
    };
    assert_no_dangling_op_references(&quotiented);
}

#[test]
fn quotient_identifies_ops_compatible_after_op_renaming() {
    let theory = two_point_loop_theory();
    let Ok(quotiented) = quotient(&theory, &ids(&[("pt1", "pt2"), ("loop1", "loop2")])) else {
        panic!("loop signatures must agree once the points are identified");
    };
    assert_no_dangling_op_references(&quotiented);
    assert_eq!(quotiented.ops.len(), 2, "one point and one loop survive: {:?}", quotiented.ops);
}

#[test]
fn quotient_representative_is_least_name() {
    let t = theory_of(vec![Sort::simple("Z"), Sort::simple("M")], Vec::new(), Vec::new());
    let q = quotient(&t, &ids(&[("Z", "M")])).unwrap();
    assert_eq!(q.sorts.len(), 1);
    assert!(q.find_sort("M").is_some());
    assert!(q.find_sort("Z").is_none());
}

#[test]
fn quotient_unknown_name_errors() {
    let t = theory_of(vec![Sort::simple("A")], Vec::new(), Vec::new());
    assert!(quotient(&t, &ids(&[("A", "Nope")])).is_err());
}
