use std::collections::BTreeMap;

use panproto_gat::eq::{DirectedEquation, Equation};
use panproto_gat::error::GatError;
use panproto_gat::maps::RenameMap;
use panproto_gat::morphism::{check_morphism, TheoryMorphism};
use panproto_gat::op::Operation;
use panproto_gat::sort::{Sort, SortExpr, SortKind, SortParam, ValueKind};
use panproto_gat::term::Term;
use panproto_gat::theory::Theory;

fn rmap(pairs: &[(&str, &str)]) -> RenameMap {
    RenameMap { entries: pairs.iter().map(|(a, b)| (a.to_string(), b.to_string())).collect() }
}

fn as_btree(m: &RenameMap) -> BTreeMap<String, String> {
    let mut out = BTreeMap::new();
    for (k, v) in &m.entries {
        out.insert(k.clone(), v.clone());
    }
    out
}

fn unary(name: &str, x: &str, a: &str, b: SortExpr) -> Operation {
    Operation::unary(name, x, SortExpr::name(a), b)
}

fn s(n: &str) -> SortExpr {
    SortExpr::name(n)
}

fn binary(name: &str, a: &str, b: &str, sort: &str) -> Operation {
    Operation::new(name, vec![(a.to_string(), SortExpr::from(sort)), (b.to_string(), SortExpr::from(sort))], s(sort))
}

fn monoid_eqs(mul_name: &str, unit_name: &str) -> Vec<Equation> {
    let assoc = Equation::new(
        "assoc",
        Term::app(mul_name, vec![Term::var("a"), Term::app(mul_name, vec![Term::var("b"), Term::var("c")])]),
        Term::app(mul_name, vec![Term::app(mul_name, vec![Term::var("a"), Term::var("b")]), Term::var("c")]),
    );
    let left_id = Equation::new("left_id", Term::app(mul_name, vec![Term::constant(unit_name), Term::var("a")]), Term::var("a"));
    let right_id = Equation::new("right_id", Term::app(mul_name, vec![Term::var("a"), Term::constant(unit_name)]), Term::var("a"));
    vec![assoc, left_id, right_id]
}

fn monoid_theory(name: &str, mul_name: &str, unit_name: &str) -> Theory {
    Theory::new(
        name,
        vec![Sort::simple("Carrier")],
        vec![binary(mul_name, "a", "b", "Carrier"), Operation::nullary(unit_name, s("Carrier"))],
        monoid_eqs(mul_name, unit_name),
    )
}

fn hom(a: &str, b: &str) -> SortExpr {
    SortExpr::App { name: "Hom".to_string(), args: vec![Term::var(a), Term::var(b)] }
}

fn hom_sort(a: &str, b: &str) -> Sort {
    Sort::dependent("Hom", vec![SortParam::new(a, s("Ob")), SortParam::new(b, s("Ob"))])
}

#[test]
fn identity_morphism_is_valid() {
    let t = monoid_theory("Monoid", "mul", "unit");
    let m = TheoryMorphism::new("id", "Monoid", "Monoid", rmap(&[("Carrier", "Carrier")]), rmap(&[("mul", "mul"), ("unit", "unit")]));
    assert!(check_morphism(&m, &t, &t).is_ok());
}

#[test]
fn renaming_morphism_is_valid() {
    let domain = monoid_theory("M1", "mul", "unit");
    let codomain = monoid_theory("M2", "times", "one");
    let m = TheoryMorphism::new("rename", "M1", "M2", rmap(&[("Carrier", "Carrier")]), rmap(&[("mul", "times"), ("unit", "one")]));
    assert!(check_morphism(&m, &domain, &codomain).is_ok());
}

#[test]
fn missing_sort_mapping_fails() {
    let t = monoid_theory("M", "mul", "unit");
    let m = TheoryMorphism::new("bad", "M", "M", rmap(&[]), rmap(&[("mul", "mul"), ("unit", "unit")]));
    let result = check_morphism(&m, &t, &t);
    assert!(matches!(result, Err(GatError::MissingSortMapping(_))));
}

#[test]
fn missing_op_mapping_fails() {
    let t = monoid_theory("M", "mul", "unit");
    let m = TheoryMorphism::new("bad", "M", "M", rmap(&[("Carrier", "Carrier")]), rmap(&[("mul", "mul")]));
    let result = check_morphism(&m, &t, &t);
    assert!(matches!(result, Err(GatError::MissingOpMapping(_))));
}

#[test]
fn sort_arity_mismatch_fails() {
    let domain = Theory::new("D", vec![Sort::simple("S")], Vec::new(), Vec::new());
    let codomain = Theory::new("C", vec![Sort::dependent("T", vec![SortParam::new("x", s("T"))])], Vec::new(), Vec::new());
    let m = TheoryMorphism::new("bad", "D", "C", rmap(&[("S", "T")]), rmap(&[]));
    let result = check_morphism(&m, &domain, &codomain);
    assert!(matches!(result, Err(GatError::SortArityMismatch { .. })));
}

#[test]
fn op_type_mismatch_fails() {
    let domain = Theory::new("D", vec![Sort::simple("A"), Sort::simple("B")], vec![unary("f", "x", "A", s("B"))], Vec::new());
    let codomain = Theory::new("C", vec![Sort::simple("A"), Sort::simple("B")], vec![unary("f", "x", "B", s("A"))], Vec::new());
    let m = TheoryMorphism::new("bad", "D", "C", rmap(&[("A", "A"), ("B", "B")]), rmap(&[("f", "f")]));
    let result = check_morphism(&m, &domain, &codomain);
    assert!(matches!(result, Err(GatError::OpTypeMismatch { .. })));
}

#[test]
fn morphism_with_renamed_equation_vars() {
    let domain = Theory::new(
        "D",
        vec![Sort::simple("S")],
        vec![binary("f", "a", "b", "S")],
        vec![Equation::new(
            "comm",
            Term::app("f", vec![Term::var("a"), Term::var("b")]),
            Term::app("f", vec![Term::var("b"), Term::var("a")]),
        )],
    );
    let codomain = Theory::new(
        "C",
        vec![Sort::simple("S")],
        vec![binary("f", "x", "y", "S")],
        vec![Equation::new(
            "comm",
            Term::app("f", vec![Term::var("x"), Term::var("y")]),
            Term::app("f", vec![Term::var("y"), Term::var("x")]),
        )],
    );
    let m = TheoryMorphism::new("id", "D", "C", rmap(&[("S", "S")]), rmap(&[("f", "f")]));
    assert!(check_morphism(&m, &domain, &codomain).is_ok(), "morphism should be valid: equations are alpha-equivalent");
}

#[test]
fn morphism_equation_multiplicity_mismatch_fails() {
    let domain = Theory::new(
        "D",
        vec![Sort::simple("S")],
        vec![binary("f", "a", "b", "S"), unary("g", "x", "S", s("S"))],
        vec![Equation::new("eq1", Term::app("f", vec![Term::var("x"), Term::var("x")]), Term::app("g", vec![Term::var("x")]))],
    );
    let codomain = Theory::new(
        "C",
        vec![Sort::simple("S")],
        vec![binary("f", "a", "b", "S"), unary("g", "x", "S", s("S"))],
        vec![Equation::new("eq1", Term::app("f", vec![Term::var("a"), Term::var("b")]), Term::app("g", vec![Term::var("a")]))],
    );
    let m = TheoryMorphism::new("bad", "D", "C", rmap(&[("S", "S")]), rmap(&[("f", "f"), ("g", "g")]));
    assert!(check_morphism(&m, &domain, &codomain).is_err(), "morphism should fail: equations have different variable multiplicity");
}

fn rule_theory(name: &str, sort: &str, op: &str, var: &str, rules: Vec<DirectedEquation>) -> Theory {
    Theory::full(name, Vec::new(), vec![Sort::simple(sort)], vec![unary(op, var, sort, s(sort))], Vec::new(), rules, Vec::new())
}

#[test]
fn morphism_preserves_directed_eqs() {
    let theory = rule_theory(
        "T",
        "A",
        "f",
        "x",
        vec![DirectedEquation::new(
            "idem",
            Term::app("f", vec![Term::app("f", vec![Term::var("x")])]),
            Term::app("f", vec![Term::var("x")]),
            "_".to_string(),
        )],
    );
    let m = TheoryMorphism::new("id", "T", "T", rmap(&[("A", "A")]), rmap(&[("f", "f")]));
    assert!(check_morphism(&m, &theory, &theory).is_ok());
}

#[test]
fn morphism_renaming_preserves_directed_eqs() {
    let domain = rule_theory(
        "D",
        "A",
        "f",
        "x",
        vec![DirectedEquation::new("rule", Term::app("f", vec![Term::var("x")]), Term::var("x"), "_".to_string())],
    );
    let codomain = rule_theory(
        "C",
        "B",
        "g",
        "y",
        vec![DirectedEquation::new("rule", Term::app("g", vec![Term::var("y")]), Term::var("y"), "_".to_string())],
    );
    let m = TheoryMorphism::new("rename", "D", "C", rmap(&[("A", "B")]), rmap(&[("f", "g")]));
    assert!(check_morphism(&m, &domain, &codomain).is_ok());
}

#[test]
fn morphism_missing_directed_eq_fails() {
    let domain = rule_theory(
        "D",
        "A",
        "f",
        "x",
        vec![DirectedEquation::new("rule", Term::app("f", vec![Term::var("x")]), Term::var("x"), "_".to_string())],
    );
    let codomain = Theory::new("C", vec![Sort::simple("A")], vec![unary("f", "x", "A", s("A"))], Vec::new());
    let m = TheoryMorphism::new("bad", "D", "C", rmap(&[("A", "A")]), rmap(&[("f", "f")]));
    assert!(matches!(check_morphism(&m, &domain, &codomain), Err(GatError::DirectedEquationNotPreserved { .. })));
}

#[test]
fn identity_is_unit_for_compose() {
    let t = monoid_theory("M", "mul", "unit");
    let id = TheoryMorphism::identity(&t);
    let codomain = monoid_theory("M2", "times", "one");
    let f = TheoryMorphism::new("rename", "M", "M2", rmap(&[("Carrier", "Carrier")]), rmap(&[("mul", "times"), ("unit", "one")]));
    let id_then_f = id.compose(&f).unwrap();
    assert_eq!(as_btree(&id_then_f.sort_map), as_btree(&f.sort_map));
    assert_eq!(as_btree(&id_then_f.op_map), as_btree(&f.op_map));
    let id_cod = TheoryMorphism::identity(&codomain);
    let f_then_id = f.compose(&id_cod).unwrap();
    assert_eq!(as_btree(&f_then_id.sort_map), as_btree(&f.sort_map));
    assert_eq!(as_btree(&f_then_id.op_map), as_btree(&f.op_map));
}

#[test]
fn compose_is_associative() {
    let m1 = TheoryMorphism::new("m1", "T1", "T2", rmap(&[("A", "B")]), rmap(&[("f", "g")]));
    let m2 = TheoryMorphism::new("m2", "T2", "T3", rmap(&[("B", "C")]), rmap(&[("g", "h")]));
    let m3 = TheoryMorphism::new("m3", "T3", "T4", rmap(&[("C", "D")]), rmap(&[("h", "k")]));
    let left = m1.compose(&m2).unwrap().compose(&m3).unwrap();
    let right = m1.compose(&m2.compose(&m3).unwrap()).unwrap();
    assert_eq!(as_btree(&left.sort_map), as_btree(&right.sort_map));
    assert_eq!(as_btree(&left.op_map), as_btree(&right.op_map));
    assert_eq!(left.domain, right.domain);
    assert_eq!(left.codomain, right.codomain);
}

#[test]
fn sort_kind_mismatch_fails() {
    let domain = Theory::new("D", vec![Sort::simple("S")], Vec::new(), Vec::new());
    let codomain = Theory::new("C", vec![Sort::with_kind("T", SortKind::Val(ValueKind::Int))], Vec::new(), Vec::new());
    let m = TheoryMorphism::new("bad", "D", "C", rmap(&[("S", "T")]), rmap(&[]));
    let result = check_morphism(&m, &domain, &codomain);
    assert!(matches!(result, Err(GatError::SortKindMismatch { .. })), "expected SortKindMismatch, got {result:?}");
}

#[test]
fn sort_param_mismatch_fails() {
    let domain = Theory::new(
        "D",
        vec![
            Sort::simple("A"),
            Sort::simple("B"),
            Sort::dependent("Hom", vec![SortParam::new("a", s("A")), SortParam::new("b", s("A"))]),
        ],
        Vec::new(),
        Vec::new(),
    );
    let codomain = Theory::new(
        "C",
        vec![
            Sort::simple("X"),
            Sort::simple("Y"),
            Sort::dependent("Arr", vec![SortParam::new("a", s("X")), SortParam::new("b", s("Y"))]),
        ],
        Vec::new(),
        Vec::new(),
    );
    let m = TheoryMorphism::new("bad", "D", "C", rmap(&[("A", "X"), ("B", "Y"), ("Hom", "Arr")]), rmap(&[]));
    let result = check_morphism(&m, &domain, &codomain);
    assert!(matches!(result, Err(GatError::SortParamMismatch { .. })), "expected SortParamMismatch, got {result:?}");
}

#[test]
fn morphism_no_directed_eqs_still_valid() {
    let t = monoid_theory("M", "mul", "unit");
    let m = TheoryMorphism::new("id", "M", "M", rmap(&[("Carrier", "Carrier")]), rmap(&[("mul", "mul"), ("unit", "unit")]));
    assert!(check_morphism(&m, &t, &t).is_ok());
}

fn category_theory_for_morphism() -> Theory {
    let id_op = unary("id", "x", "Ob", hom("x", "x"));
    Theory::new("Cat", vec![Sort::simple("Ob"), hom_sort("a", "b")], vec![id_op], Vec::new())
}

#[test]
fn identity_morphism_on_dependent_category_is_valid() {
    let cat = category_theory_for_morphism();
    let m = TheoryMorphism::new("id", "Cat", "Cat", rmap(&[("Ob", "Ob"), ("Hom", "Hom")]), rmap(&[("id", "id")]));
    assert!(check_morphism(&m, &cat, &cat).is_ok(), "identity on dependent category should be a valid morphism");
}

#[test]
fn morphism_dropping_sort_parameter_is_rejected() {
    let domain = Theory::new("D", vec![Sort::simple("Ob"), hom_sort("a", "b")], vec![unary("id", "x", "Ob", hom("x", "x"))], Vec::new());
    let codomain = Theory::new(
        "C",
        vec![Sort::simple("Ob"), Sort::dependent("Hom", vec![SortParam::new("a", s("Ob"))])],
        vec![unary("id", "x", "Ob", SortExpr::App { name: "Hom".to_string(), args: vec![Term::var("x")] })],
        Vec::new(),
    );
    let m = TheoryMorphism::new("bad", "D", "C", rmap(&[("Ob", "Ob"), ("Hom", "Hom")]), rmap(&[("id", "id")]));
    assert!(check_morphism(&m, &domain, &codomain).is_err(), "morphism that drops a sort parameter should be rejected");
}

#[test]
fn rename_recurses_through_dependent_sort_args_and_equations() {
    let empty_ctx = Operation::nullary("empty_ctx", s("Ctx"));
    let ty_over = Operation::new(
        "ty_over",
        vec![("g".to_string(), SortExpr::from("Ctx"))],
        SortExpr::App { name: "Ty".to_string(), args: vec![Term::var("g")] },
    );
    let refl = Equation::new(
        "refl",
        Term::app("ty_over", vec![Term::constant("empty_ctx")]),
        Term::app("ty_over", vec![Term::constant("empty_ctx")]),
    );
    let domain = Theory::new(
        "D",
        vec![Sort::simple("Ctx"), Sort::dependent("Ty", vec![SortParam::new("g", s("Ctx"))])],
        vec![empty_ctx, ty_over.copy()],
        vec![refl],
    );
    let empty_ctx2 = Operation::nullary("empty2", s("C2"));
    let ty_over2 = Operation::new(
        "ty2",
        vec![("g".to_string(), SortExpr::from("C2"))],
        SortExpr::App { name: "T2".to_string(), args: vec![Term::var("g")] },
    );
    let refl2 = Equation::new("refl", Term::app("ty2", vec![Term::constant("empty2")]), Term::app("ty2", vec![Term::constant("empty2")]));
    let codomain = Theory::new(
        "C",
        vec![Sort::simple("C2"), Sort::dependent("T2", vec![SortParam::new("g", s("C2"))])],
        vec![empty_ctx2, ty_over2],
        vec![refl2],
    );
    let sort_map = rmap(&[("Ctx", "C2"), ("Ty", "T2")]);
    let op_map = rmap(&[("empty_ctx", "empty2"), ("ty_over", "ty2")]);
    let m = TheoryMorphism::new("retag", "D", "C", sort_map.copy(), op_map.copy());
    assert!(check_morphism(&m, &domain, &codomain).is_ok(), "renaming morphism on dependent theory must check");
    let mapped_output = ty_over.output.apply_maps(&sort_map, &op_map);
    assert_eq!(mapped_output.head().as_str(), "T2", "head must be renamed");
    let nested = SortExpr::App { name: "Ty".to_string(), args: vec![Term::app("empty_ctx", vec![])] };
    let nested_mapped = nested.apply_maps(&sort_map, &op_map);
    if let SortExpr::App { ref name, ref args } = nested_mapped {
        assert_eq!(name.as_str(), "T2", "head recursed");
        assert_eq!(args.len(), 1);
        if let Term::App { op, .. } = &args[0] {
            assert_eq!(op.as_str(), "empty2", "nested op inside sort arg must also be renamed");
        } else {
            panic!("expected nested app, got {:?}", &args[0]);
        }
    } else {
        panic!("expected App, got {nested_mapped:?}");
    }
    let renamed_eq = domain.eqs[0].rename_ops(&op_map);
    if let Term::App { op, args } = &renamed_eq.lhs {
        assert_eq!(op.as_str(), "ty2");
        if let Term::App { op: inner, .. } = &args[0] {
            assert_eq!(inner.as_str(), "empty2");
        } else {
            panic!("expected inner app, got {:?}", &args[0]);
        }
    } else {
        panic!("expected outer app, got {:?}", &renamed_eq.lhs);
    }
}

#[test]
fn morphism_rejected_when_mapped_equation_absent_from_codomain() {
    let domain = monoid_theory("Mdom", "mul", "unit");
    let codomain = Theory::new(
        "Mcod",
        vec![Sort::simple("Carrier")],
        vec![binary("mul", "a", "b", "Carrier"), Operation::nullary("unit", s("Carrier"))],
        Vec::new(),
    );
    let m = TheoryMorphism::new("bad", "Mdom", "Mcod", rmap(&[("Carrier", "Carrier")]), rmap(&[("mul", "mul"), ("unit", "unit")]));
    assert!(
        matches!(check_morphism(&m, &domain, &codomain), Err(GatError::EquationNotPreserved { .. })),
        "missing mapped equation in codomain must yield EquationNotPreserved",
    );
}

#[test]
fn morphism_rejected_when_mapped_equation_only_derivable_not_listed() {
    let domain = Theory::new(
        "D",
        vec![Sort::simple("A")],
        vec![unary("f", "x", "A", s("A"))],
        vec![Equation::new("idem", Term::app("f", vec![Term::app("f", vec![Term::var("x")])]), Term::var("x"))],
    );
    let codomain = rule_theory(
        "C",
        "A",
        "f",
        "x",
        vec![DirectedEquation::new("rule", Term::app("f", vec![Term::var("x")]), Term::var("x"), "_".to_string())],
    );
    let m = TheoryMorphism::new("syntactic", "D", "C", rmap(&[("A", "A")]), rmap(&[("f", "f")]));
    assert!(
        matches!(check_morphism(&m, &domain, &codomain), Err(GatError::EquationNotPreserved { .. })),
        "the current syntactic check rejects derivable-but-not-listed equations",
    );
}

#[test]
fn morphism_between_alpha_variant_categories_is_valid() {
    let cat_x = Theory::new("CatX", vec![Sort::simple("Ob"), hom_sort("a", "b")], vec![unary("id", "x", "Ob", hom("x", "x"))], Vec::new());
    let cat_y = Theory::new("CatY", vec![Sort::simple("Ob"), hom_sort("a", "b")], vec![unary("id", "y", "Ob", hom("y", "y"))], Vec::new());
    let m = TheoryMorphism::new("alpha", "CatX", "CatY", rmap(&[("Ob", "Ob"), ("Hom", "Hom")]), rmap(&[("id", "id")]));
    assert!(check_morphism(&m, &cat_x, &cat_y).is_ok(), "morphism between alpha-variant dependent theories should be accepted");
}

#[test]
fn morphism_reordering_parameters_is_rejected() {
    let compose_d = Operation::new(
        "compose",
        vec![
            ("x".to_string(), SortExpr::from("Ob")),
            ("y".to_string(), SortExpr::from("Ob")),
            ("z".to_string(), SortExpr::from("Ob")),
            ("f".to_string(), hom("x", "y")),
            ("g".to_string(), hom("y", "z")),
        ],
        hom("x", "z"),
    );
    let domain = Theory::new("D", vec![Sort::simple("Ob"), hom_sort("a", "b")], vec![compose_d], Vec::new());
    let compose_c = Operation::new(
        "compose",
        vec![
            ("y".to_string(), SortExpr::from("Ob")),
            ("x".to_string(), SortExpr::from("Ob")),
            ("z".to_string(), SortExpr::from("Ob")),
            ("f".to_string(), hom("x", "y")),
            ("g".to_string(), hom("y", "z")),
        ],
        hom("x", "z"),
    );
    let codomain = Theory::new("C", vec![Sort::simple("Ob"), hom_sort("a", "b")], vec![compose_c], Vec::new());
    let m = TheoryMorphism::new("reorder", "D", "C", rmap(&[("Ob", "Ob"), ("Hom", "Hom")]), rmap(&[("compose", "compose")]));
    assert!(check_morphism(&m, &domain, &codomain).is_err(), "reordering parameter positions is not a valid morphism");
}

#[test]
fn morphism_renames_sort_param_names() {
    let domain = Theory::new("D", vec![Sort::simple("Ob"), hom_sort("a", "b")], vec![unary("id", "x", "Ob", hom("x", "x"))], Vec::new());
    let codomain = Theory::new("C", vec![Sort::simple("Ob"), hom_sort("p", "q")], vec![unary("id", "v", "Ob", hom("v", "v"))], Vec::new());
    let m = TheoryMorphism::new("rename_params", "D", "C", rmap(&[("Ob", "Ob"), ("Hom", "Hom")]), rmap(&[("id", "id")]));
    assert!(check_morphism(&m, &domain, &codomain).is_ok(), "sort parameter name differences should not block a morphism");
}

#[test]
fn morphism_with_non_positional_name_swap_is_rejected() {
    let domain = Theory::new(
        "D",
        vec![Sort::simple("Ob"), hom_sort("a", "b")],
        vec![Operation::new(
            "parallel",
            vec![("x".to_string(), SortExpr::from("Ob")), ("y".to_string(), SortExpr::from("Ob"))],
            hom("x", "y"),
        )],
        Vec::new(),
    );
    let codomain = Theory::new(
        "C",
        vec![Sort::simple("Ob"), hom_sort("a", "b")],
        vec![Operation::new(
            "parallel",
            vec![("x_prime".to_string(), SortExpr::from("Ob")), ("y_prime".to_string(), SortExpr::from("Ob"))],
            hom("y_prime", "x_prime"),
        )],
        Vec::new(),
    );
    let m = TheoryMorphism::new("bad_swap", "D", "C", rmap(&[("Ob", "Ob"), ("Hom", "Hom")]), rmap(&[("parallel", "parallel")]));
    assert!(check_morphism(&m, &domain, &codomain).is_err(), "argument swap is a genuine signature difference, not a rename");
}

#[test]
fn compose_names_and_unmapped_error() {
    let m1 = TheoryMorphism::new("m1", "T1", "T2", rmap(&[("A", "B")]), rmap(&[]));
    let m2 = TheoryMorphism::new("m2", "T2", "T3", rmap(&[("B", "C")]), rmap(&[]));
    let c = m1.compose(&m2).unwrap();
    assert_eq!(c.name, "m1;m2");
    assert_eq!(c.domain, "T1");
    assert_eq!(c.codomain, "T3");
    let m3 = TheoryMorphism::new("m3", "T2", "T3", rmap(&[]), rmap(&[]));
    match m1.compose(&m3) {
        Err(GatError::ComposeUnmapped { kind, name, image }) => {
            assert_eq!(kind, "sort");
            assert_eq!(name, "A");
            assert_eq!(image, "B");
        },
        other => panic!("expected ComposeUnmapped, got {other:?}"),
    }
}

#[test]
fn identity_morphism_maps_names_to_themselves() {
    let t = monoid_theory("M", "mul", "unit");
    let id = TheoryMorphism::identity(&t);
    assert_eq!(id.name, "id_M");
    assert_eq!(as_btree(&id.sort_map).get("Carrier").map(|s| s.as_str()), Some("Carrier"));
    assert_eq!(as_btree(&id.op_map).len(), 2);
    assert!(check_morphism(&id, &t, &t).is_ok());
}
