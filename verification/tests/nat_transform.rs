use panproto_gat::error::GatError;
use panproto_gat::maps::{RenameMap, Subst};
use panproto_gat::morphism::TheoryMorphism;
use panproto_gat::nat_transform::{check_natural_transformation, horizontal_compose, vertical_compose, NaturalTransformation};
use panproto_gat::op::Operation;
use panproto_gat::sort::{Sort, SortExpr};
use panproto_gat::term::Term;
use panproto_gat::theory::Theory;

fn s(n: &str) -> SortExpr {
    SortExpr::name(n)
}

fn two_sort_theory() -> Theory {
    Theory::new("T", vec![Sort::simple("A"), Sort::simple("B")], vec![Operation::unary("f", "x", s("A"), s("B"))], Vec::new())
}

fn rmap(pairs: &[(&str, &str)]) -> RenameMap {
    RenameMap { entries: pairs.iter().map(|(a, b)| (a.to_string(), b.to_string())).collect() }
}

fn identity_morphism(theory: &Theory, name: &str) -> TheoryMorphism {
    let sort_map = RenameMap { entries: theory.sorts.iter().map(|x| (x.name.clone(), x.name.clone())).collect() };
    let op_map = RenameMap { entries: theory.ops.iter().map(|o| (o.name.clone(), o.name.clone())).collect() };
    TheoryMorphism::new(name, &theory.name, &theory.name, sort_map, op_map)
}

fn comps(pairs: Vec<(&str, Term)>) -> Subst {
    Subst { entries: pairs.into_iter().map(|(k, t)| (k.to_string(), t)).collect() }
}

fn identity_nat_trans(theory: &Theory, source: &str, target: &str, name: &str) -> NaturalTransformation {
    let components = Subst { entries: theory.sorts.iter().map(|x| (x.name.clone(), Term::var("x"))).collect() };
    NaturalTransformation { name: name.to_string(), source: source.to_string(), target: target.to_string(), components }
}

#[test]
fn identity_nat_trans_validates() {
    let theory = two_sort_theory();
    let morph = identity_morphism(&theory, "id");
    let nt = identity_nat_trans(&theory, "id", "id", "id_nt");

    let result = check_natural_transformation(&nt, &morph, &morph, &theory, &theory);
    assert!(result.is_ok(), "expected Ok, got {result:?}");
}

#[test]
fn vertical_compose_identities_yields_identity() {
    let theory = two_sort_theory();
    let alpha = identity_nat_trans(&theory, "id", "id", "alpha");
    let beta = identity_nat_trans(&theory, "id", "id", "beta");

    let composed = vertical_compose(&alpha, &beta, &theory).expect("composable");

    for sort in &theory.sorts {
        let comp = composed.components.get(&sort.name).expect("missing component for sort");
        assert_eq!(comp, &Term::var("x"));
    }
}

#[test]
fn naturality_violation_detected() {
    let theory = two_sort_theory();
    let _morph = identity_morphism(&theory, "id");

    let theory_with_const = Theory::new(
        "T",
        vec![Sort::simple("A"), Sort::simple("B")],
        vec![Operation::unary("f", "x", s("A"), s("B")), Operation::nullary("bad", s("B"))],
        Vec::new(),
    );
    let morph2 = identity_morphism(&theory_with_const, "id");

    let nt = NaturalTransformation {
        name: "bad_nt".to_string(),
        source: "id".to_string(),
        target: "id".to_string(),
        components: comps(vec![("A", Term::var("x")), ("B", Term::constant("bad"))]),
    };

    let result = check_natural_transformation(&nt, &morph2, &morph2, &theory, &theory_with_const);
    assert!(matches!(result, Err(GatError::NaturalityViolation { .. })), "expected NaturalityViolation, got {result:?}");
}

#[test]
fn missing_component_detected() {
    let theory = two_sort_theory();
    let morph = identity_morphism(&theory, "id");

    let nt = NaturalTransformation {
        name: "partial".to_string(),
        source: "id".to_string(),
        target: "id".to_string(),
        components: comps(vec![("A", Term::var("x"))]),
    };

    let result = check_natural_transformation(&nt, &morph, &morph, &theory, &theory);
    assert!(matches!(result, Err(GatError::MissingNatTransComponent(_))), "expected MissingNatTransComponent, got {result:?}");
}

#[test]
fn domain_mismatch_detected() {
    let t1 = Theory::new("T1", vec![Sort::simple("A")], Vec::new(), Vec::new());
    let _t2 = Theory::new("T2", vec![Sort::simple("B")], Vec::new(), Vec::new());

    let f = TheoryMorphism::new("f", "T1", "T1", rmap(&[("A", "A")]), RenameMap::new());
    let g = TheoryMorphism::new("g", "T2", "T2", rmap(&[("B", "B")]), RenameMap::new());

    let nt = NaturalTransformation { name: "bad".to_string(), source: "f".to_string(), target: "g".to_string(), components: Subst::new() };

    let result = check_natural_transformation(&nt, &f, &g, &t1, &t1);
    assert!(matches!(result, Err(GatError::NatTransDomainMismatch { .. })), "expected NatTransDomainMismatch, got {result:?}");
}

#[test]
fn composition_mismatch_detected() {
    let theory = two_sort_theory();
    let alpha = identity_nat_trans(&theory, "f", "g", "alpha");
    let beta = identity_nat_trans(&theory, "h", "k", "beta");

    let result = vertical_compose(&alpha, &beta, &theory);
    assert!(matches!(result, Err(GatError::NatTransComposeMismatch { .. })), "expected NatTransComposeMismatch, got {result:?}");
}

#[test]
fn domain_mismatch_names_both_morphisms() {
    let t1 = Theory::new("T1", vec![Sort::simple("A")], Vec::new(), Vec::new());
    let f = TheoryMorphism::new("f", "T1", "T1", rmap(&[("A", "A")]), RenameMap::new());
    let g = TheoryMorphism::new("g", "T1", "T2", rmap(&[("A", "A")]), RenameMap::new());
    let nt = identity_nat_trans(&t1, "f", "g", "nt");
    let result = check_natural_transformation(&nt, &f, &g, &t1, &t1);
    assert_eq!(
        result,
        Err(GatError::NatTransDomainMismatch { source_morphism: "f".to_string(), target_morphism: "g".to_string() })
    );
}

#[test]
fn missing_component_names_first_domain_sort() {
    let theory = two_sort_theory();
    let morph = identity_morphism(&theory, "id");
    let nt = NaturalTransformation {
        name: "partial".to_string(),
        source: "id".to_string(),
        target: "id".to_string(),
        components: comps(vec![("B", Term::var("x"))]),
    };
    let result = check_natural_transformation(&nt, &morph, &morph, &theory, &theory);
    assert_eq!(result, Err(GatError::MissingNatTransComponent("A".to_string())));
}

#[test]
fn component_with_unknown_operation_is_invalid() {
    let theory = two_sort_theory();
    let morph = identity_morphism(&theory, "id");
    let nt = NaturalTransformation {
        name: "nt".to_string(),
        source: "id".to_string(),
        target: "id".to_string(),
        components: comps(vec![("A", Term::var("x")), ("B", Term::app("g", vec![Term::var("x")]))]),
    };
    let result = check_natural_transformation(&nt, &morph, &morph, &theory, &theory);
    assert_eq!(
        result,
        Err(GatError::NatTransComponentInvalid { sort: "B".to_string(), detail: "operation g not found in codomain".to_string() })
    );
}

#[test]
fn naturality_violation_reports_both_sides() {
    let theory = Theory::new(
        "T",
        vec![Sort::simple("A"), Sort::simple("B")],
        vec![Operation::unary("f", "x", s("A"), s("B")), Operation::nullary("bad", s("B"))],
        Vec::new(),
    );
    let morph = identity_morphism(&theory, "id");
    let nt = NaturalTransformation {
        name: "bad_nt".to_string(),
        source: "id".to_string(),
        target: "id".to_string(),
        components: comps(vec![("A", Term::var("x")), ("B", Term::constant("bad"))]),
    };
    let result = check_natural_transformation(&nt, &morph, &morph, &theory, &theory);
    assert_eq!(
        result,
        Err(GatError::NaturalityViolation { op: "f".to_string(), lhs: "bad()".to_string(), rhs: "f(x)".to_string() })
    );
}

#[test]
fn naturality_of_binary_operation_uses_indexed_variables() {
    let theory = Theory::new(
        "T",
        vec![Sort::simple("A")],
        vec![Operation::new("m", vec![("a".to_string(), s("A")), ("b".to_string(), s("A"))], s("A"))],
        Vec::new(),
    );
    let morph = identity_morphism(&theory, "id");
    let nt = identity_nat_trans(&theory, "id", "id", "id_nt");
    assert_eq!(check_natural_transformation(&nt, &morph, &morph, &theory, &theory), Ok(()));
}

#[test]
fn vertical_compose_substitutes_alpha_into_beta() {
    let theory = Theory::new("T", vec![Sort::simple("A")], vec![Operation::unary("u", "x", s("A"), s("A"))], Vec::new());
    let alpha = NaturalTransformation {
        name: "alpha".to_string(),
        source: "F".to_string(),
        target: "G".to_string(),
        components: comps(vec![("A", Term::app("u", vec![Term::var("x")]))]),
    };
    let beta = NaturalTransformation {
        name: "beta".to_string(),
        source: "G".to_string(),
        target: "H".to_string(),
        components: comps(vec![("A", Term::app("v", vec![Term::var("x")]))]),
    };
    let composed = vertical_compose(&alpha, &beta, &theory).expect("composable");
    assert_eq!(composed.name, "beta.alpha");
    assert_eq!(composed.source, "F");
    assert_eq!(composed.target, "H");
    assert_eq!(
        composed.components.get(&"A".to_string()),
        Some(&Term::app("v", vec![Term::app("u", vec![Term::var("x")])]))
    );
}

#[test]
fn vertical_compose_missing_component() {
    let theory = two_sort_theory();
    let alpha = identity_nat_trans(&theory, "F", "G", "alpha");
    let beta = NaturalTransformation {
        name: "beta".to_string(),
        source: "G".to_string(),
        target: "H".to_string(),
        components: comps(vec![("A", Term::var("x"))]),
    };
    let result = vertical_compose(&alpha, &beta, &theory);
    assert!(matches!(result, Err(GatError::MissingNatTransComponent(ref n)) if n == "B"));
}

#[test]
fn horizontal_compose_renames_and_substitutes() {
    let theory = Theory::new("T", vec![Sort::simple("A")], vec![Operation::unary("u", "x", s("A"), s("A"))], Vec::new());
    let f = identity_morphism(&theory, "F");
    let g = TheoryMorphism::new("G", "T", "T2", rmap(&[("A", "A2")]), RenameMap::new());
    let h = TheoryMorphism::new("H", "T2", "T3", rmap(&[("A2", "A3")]), rmap(&[("u", "w")]));
    let alpha = NaturalTransformation {
        name: "alpha".to_string(),
        source: "F".to_string(),
        target: "G".to_string(),
        components: comps(vec![("A", Term::app("u", vec![Term::var("x")]))]),
    };
    let beta = NaturalTransformation {
        name: "beta".to_string(),
        source: "H".to_string(),
        target: "K".to_string(),
        components: comps(vec![("A2", Term::app("v", vec![Term::var("x")]))]),
    };
    let composed = horizontal_compose(&alpha, &beta, &f, &g, &h, &theory).expect("composable");
    assert_eq!(composed.name, "beta*alpha");
    assert_eq!(composed.source, "H.F");
    assert_eq!(composed.target, "K.G");
    assert_eq!(
        composed.components.get(&"A".to_string()),
        Some(&Term::app("v", vec![Term::app("w", vec![Term::var("x")])]))
    );
}

#[test]
fn horizontal_compose_reports_unmapped_sort() {
    let theory = two_sort_theory();
    let f = identity_morphism(&theory, "F");
    let g = TheoryMorphism::new("G", "T", "T", rmap(&[("A", "A")]), RenameMap::new());
    let alpha = identity_nat_trans(&theory, "F", "G", "alpha");
    let beta = identity_nat_trans(&theory, "H", "K", "beta");
    let result = horizontal_compose(&alpha, &beta, &f, &g, &f, &theory);
    assert_eq!(result.err(), Some(GatError::MissingSortMapping("B".to_string())));
}

#[test]
fn horizontal_compose_reports_missing_beta_component() {
    let theory = two_sort_theory();
    let f = identity_morphism(&theory, "F");
    let g = TheoryMorphism::new("G", "T", "T", rmap(&[("A", "C"), ("B", "B")]), RenameMap::new());
    let alpha = identity_nat_trans(&theory, "F", "G", "alpha");
    let beta = identity_nat_trans(&theory, "H", "K", "beta");
    let result = horizontal_compose(&alpha, &beta, &f, &g, &f, &theory);
    assert_eq!(result.err(), Some(GatError::MissingNatTransComponent("C".to_string())));
}

#[test]
fn identity_is_unit_of_vertical_composition() {
    let theory = Theory::new("T", vec![Sort::simple("A")], vec![Operation::unary("u", "x", s("A"), s("A"))], Vec::new());
    let id = identity_nat_trans(&theory, "F", "F", "id");
    let nt = NaturalTransformation {
        name: "nt".to_string(),
        source: "F".to_string(),
        target: "F".to_string(),
        components: comps(vec![("A", Term::app("u", vec![Term::var("x")]))]),
    };
    let expected = Some(&Term::app("u", vec![Term::var("x")]));
    let after = vertical_compose(&id, &nt, &theory).expect("composable");
    assert_eq!(after.components.get(&"A".to_string()), expected);
    let before = vertical_compose(&nt, &id, &theory).expect("composable");
    assert_eq!(before.components.get(&"A".to_string()), expected);
}
