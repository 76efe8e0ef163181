use panproto_gat::eq::DirectedEquation;
use panproto_gat::maps::{RenameMap, Subst};
use panproto_gat::op::Implicit;
use panproto_gat::sort::{
    classify_builtin_coercion, positional_param_rename, signatures_equivalent_modulo_param_rename,
    sort_params_equivalent_modulo_rename, BuiltinOp, CoercionClass, Sort, SortExpr, SortParam, ValueKind,
};
use panproto_gat::term::Term;

const ALL_CLASSES: [CoercionClass; 4] =
    [CoercionClass::Iso, CoercionClass::Retraction, CoercionClass::Projection, CoercionClass::Opaque];

fn mapping(pairs: &[(&str, Term)]) -> Subst {
    Subst { entries: pairs.iter().map(|(k, v)| (k.to_string(), v.clone())).collect() }
}

fn names(ns: &[&str]) -> Vec<String> {
    ns.iter().map(|n| n.to_string()).collect()
}

fn app(name: &str, args: Vec<Term>) -> SortExpr {
    SortExpr::App { name: name.to_string(), args }
}

#[test]
fn simple_sort() {
    let s = Sort::simple("Vertex");
    assert!(s.is_simple());
    assert_eq!(s.arity(), 0);
    assert_eq!(s.name.as_str(), "Vertex");
}

#[test]
fn dependent_sort() {
    let s = Sort::dependent("Hom", vec![SortParam::new("a", SortExpr::from("Ob")), SortParam::new("b", SortExpr::from("Ob"))]);
    assert!(!s.is_simple());
    assert_eq!(s.arity(), 2);
}

#[test]
fn sort_expr_from_str() {
    let e: SortExpr = "Ob".into();
    assert_eq!(e, SortExpr::Name("Ob".to_string()));
    assert_eq!(e.head().as_str(), "Ob");
}

#[test]
fn sort_expr_app_head() {
    let e = app("Hom", vec![Term::var("x"), Term::var("y")]);
    assert_eq!(e.head().as_str(), "Hom");
    assert_eq!(e.args().len(), 2);
}

#[test]
fn sort_expr_alpha_eq_name_vs_empty_app() {
    let a = SortExpr::Name("Ob".to_string());
    let b = app("Ob", Vec::new());
    assert!(a.alpha_eq(&b));
    assert!(b.alpha_eq(&a));
}

#[test]
fn sort_expr_alpha_eq_structural() {
    let a = app("Hom", vec![Term::var("x"), Term::var("y")]);
    let b = app("Hom", vec![Term::var("x"), Term::var("y")]);
    let c = app("Hom", vec![Term::var("y"), Term::var("x")]);
    assert!(a.alpha_eq(&b));
    assert!(!a.alpha_eq(&c));
}

#[test]
fn sort_expr_subst() {
    let e = app("Hom", vec![Term::var("x"), Term::var("y")]);
    let m = mapping(&[("x", Term::constant("a")), ("y", Term::constant("b"))]);
    let result = e.subst(&m);
    assert_eq!(result, app("Hom", vec![Term::constant("a"), Term::constant("b")]));
}

#[test]
fn sort_expr_subst_name_unchanged() {
    let e = SortExpr::Name("Ob".to_string());
    let m = mapping(&[("x", Term::constant("a"))]);
    assert_eq!(e.subst(&m), e);
}

#[test]
fn sort_expr_display() {
    let e = app("Hom", vec![Term::var("x"), Term::var("y")]);
    assert_eq!(e.to_string(), "Hom(x, y)");
    let n = SortExpr::Name("Ob".to_string());
    assert_eq!(n.to_string(), "Ob");
}

#[test]
fn coercion_class_identity() {
    for &x in &ALL_CLASSES {
        assert_eq!(CoercionClass::Iso.compose(x), x, "Iso is left identity");
        assert_eq!(x.compose(CoercionClass::Iso), x, "Iso is right identity");
    }
}

#[test]
fn coercion_class_absorption() {
    for &x in &ALL_CLASSES {
        assert_eq!(CoercionClass::Opaque.compose(x), CoercionClass::Opaque, "Opaque absorbs on left");
        assert_eq!(x.compose(CoercionClass::Opaque), CoercionClass::Opaque, "Opaque absorbs on right");
    }
}

#[test]
fn coercion_class_associativity() {
    for &a in &ALL_CLASSES {
        for &b in &ALL_CLASSES {
            for &c in &ALL_CLASSES {
                assert_eq!(a.compose(b).compose(c), a.compose(b.compose(c)), "associativity: ({a:?} . {b:?}) . {c:?}");
            }
        }
    }
}

#[test]
fn coercion_class_commutativity() {
    for &a in &ALL_CLASSES {
        for &b in &ALL_CLASSES {
            assert_eq!(a.compose(b), b.compose(a), "commutativity: {a:?} . {b:?} == {b:?} . {a:?}");
        }
    }
}

#[test]
fn coercion_class_ordering_consistent_with_compose() {
    for &a in &ALL_CLASSES {
        for &b in &ALL_CLASSES {
            let composed = a.compose(b);
            assert!(composed >= a, "compose({a:?}, {b:?}) = {composed:?} should be >= {a:?}");
            assert!(composed >= b, "compose({a:?}, {b:?}) = {composed:?} should be >= {b:?}");
        }
    }
}

#[test]
fn classify_builtin_coercion_coverage() {
    let coercion_ops =
        [BuiltinOp::IntToFloat, BuiltinOp::FloatToInt, BuiltinOp::IntToStr, BuiltinOp::FloatToStr, BuiltinOp::StrToInt, BuiltinOp::StrToFloat];
    for op in coercion_ops {
        assert!(classify_builtin_coercion(op).is_some(), "{op:?} should be classified");
    }
    assert!(classify_builtin_coercion(BuiltinOp::Add).is_none());
    assert!(classify_builtin_coercion(BuiltinOp::Concat).is_none());
}

#[test]
fn no_builtin_classified_as_iso() {
    let coercion_ops =
        [BuiltinOp::IntToFloat, BuiltinOp::FloatToInt, BuiltinOp::IntToStr, BuiltinOp::FloatToStr, BuiltinOp::StrToInt, BuiltinOp::StrToFloat];
    for op in coercion_ops {
        if let Some((_, _, class)) = classify_builtin_coercion(op) {
            assert_ne!(class, CoercionClass::Iso, "{op:?} should not be classified as Iso");
        }
    }
}

#[test]
fn needs_complement_storage_consistent_with_lattice() {
    assert!(!CoercionClass::Iso.needs_complement_storage(), "Iso: lossless, no storage");
    assert!(CoercionClass::Retraction.needs_complement_storage(), "Retraction: stores residual");
    assert!(!CoercionClass::Projection.needs_complement_storage(), "Projection: derived value re-computed, no storage");
    assert!(CoercionClass::Opaque.needs_complement_storage(), "Opaque: stores entire original");
}

#[test]
fn projection_compose_laws() {
    assert_eq!(CoercionClass::Projection.compose(CoercionClass::Projection), CoercionClass::Projection);
    assert_eq!(CoercionClass::Retraction.compose(CoercionClass::Projection), CoercionClass::Opaque);
    assert_eq!(CoercionClass::Projection.compose(CoercionClass::Retraction), CoercionClass::Opaque);
    assert_eq!(CoercionClass::Iso.compose(CoercionClass::Projection), CoercionClass::Projection);
    assert_eq!(CoercionClass::Opaque.compose(CoercionClass::Projection), CoercionClass::Opaque);
}

#[test]
fn empty_args_app_normalizes_to_name() {
    let raw = app("Ob", Vec::new());
    let n = raw.normalize();
    assert!(matches!(n, SortExpr::Name(ref s) if s.as_str() == "Ob"));
    assert_eq!(n.clone().normalize(), n);
}

#[test]
fn smart_constructor_collapses_empty_args() {
    let v = SortExpr::app("Ob", Vec::new());
    assert!(matches!(v, SortExpr::Name(_)));
}

#[test]
fn smart_constructor_preserves_nonempty() {
    let v = SortExpr::app("Hom", vec![Term::var("x"), Term::var("y")]);
    assert!(matches!(v, SortExpr::App { .. }));
}

#[test]
fn eq_treats_name_and_empty_app_equal() {
    let a = SortExpr::Name("Ob".to_string());
    let b = app("Ob", Vec::new());
    assert_eq!(a, b);
}

#[test]
fn subst_produces_normalized_output() {
    let e = app("S", vec![Term::var("x")]);
    let m = mapping(&[("x", Term::constant("c"))]);
    let r = e.subst(&m);
    assert!(matches!(r, SortExpr::App { .. }));
}

#[test]
fn rename_head_normalizes_empty_app() {
    let e = app("Ob", Vec::new());
    let sm = RenameMap { entries: vec![("Ob".to_string(), "Obj".to_string())] };
    let r = e.rename_head(&sm);
    assert!(matches!(r, SortExpr::Name(ref n) if n.as_str() == "Obj"));
}

#[test]
fn positional_rename_identity_is_empty() {
    let r = positional_param_rename(&names(&["a", "b"]), &names(&["a", "b"]));
    assert!(r.is_empty(), "identity rename should be empty");
}

#[test]
fn positional_rename_maps_differing_names_only() {
    let r = positional_param_rename(&names(&["a", "y", "c"]), &names(&["x", "y", "z"]));
    assert_eq!(r.len(), 2);
    assert_eq!(r.get(&"a".to_string()), Some(&Term::var("x")));
    assert_eq!(r.get(&"c".to_string()), Some(&Term::var("z")));
    assert!(!r.contains_key(&"y".to_string()));
}

#[test]
fn signature_equivalence_accepts_alpha_variant() {
    let lhs_inputs = vec![("a".to_string(), SortExpr::from("Ob"), Implicit::No)];
    let lhs_output = app("Hom", vec![Term::var("a"), Term::var("a")]);
    let rhs_inputs = vec![("x".to_string(), SortExpr::from("Ob"), Implicit::No)];
    let rhs_output = app("Hom", vec![Term::var("x"), Term::var("x")]);
    assert!(signatures_equivalent_modulo_param_rename(&lhs_inputs, &lhs_output, &rhs_inputs, &rhs_output));
}

#[test]
fn signature_equivalence_rejects_swap() {
    let hom = |a: &str, b: &str| app("Hom", vec![Term::var(a), Term::var(b)]);
    let lhs_inputs = vec![("x".to_string(), SortExpr::from("Ob"), Implicit::No), ("y".to_string(), SortExpr::from("Ob"), Implicit::No)];
    let rhs_inputs = vec![("x".to_string(), SortExpr::from("Ob"), Implicit::No), ("y".to_string(), SortExpr::from("Ob"), Implicit::No)];
    assert!(!signatures_equivalent_modulo_param_rename(&lhs_inputs, &hom("x", "y"), &rhs_inputs, &hom("y", "x")));
}

#[test]
fn signature_equivalence_rejects_arity_mismatch() {
    let lhs_inputs = vec![("x".to_string(), SortExpr::from("Ob"), Implicit::No)];
    let rhs_inputs: Vec<(String, SortExpr, Implicit)> = Vec::new();
    assert!(!signatures_equivalent_modulo_param_rename(&lhs_inputs, &SortExpr::from("Ob"), &rhs_inputs, &SortExpr::from("Ob")));
}

#[test]
fn sort_params_rename_alpha_equivalent() {
    let lhs = vec![SortParam::new("a", SortExpr::from("Ob")), SortParam::new("b", SortExpr::from("Ob"))];
    let rhs = vec![SortParam::new("p", SortExpr::from("Ob")), SortParam::new("q", SortExpr::from("Ob"))];
    assert!(sort_params_equivalent_modulo_rename(&lhs, &rhs));
}

#[test]
fn refined_value_kinds_are_distinct_and_named() {
    for (kind, name) in [
        (ValueKind::DateTime, "date-time"),
        (ValueKind::Date, "date"),
        (ValueKind::Time, "time"),
        (ValueKind::Decimal, "decimal"),
        (ValueKind::Uuid, "uuid"),
    ] {
        assert_ne!(kind, ValueKind::Str, "{kind:?} must not collapse to Str");
        assert_eq!(kind.as_str(), name);
        assert!(ValueKind::all().contains(&kind), "{kind:?} missing from all()");
    }
}

#[test]
fn sort_params_rename_detects_dependent_difference() {
    let lhs = vec![SortParam::new("Gamma", SortExpr::from("Ctx")), SortParam::new("A", app("Ty", vec![Term::var("Gamma")]))];
    let rhs = vec![SortParam::new("G", SortExpr::from("Ctx")), SortParam::new("A", app("Ty", vec![Term::var("G")]))];
    assert!(sort_params_equivalent_modulo_rename(&lhs, &rhs));
}

#[test]
fn sort_params_rename_rejects_genuine_difference() {
    let lhs = vec![SortParam::new("Gamma", SortExpr::from("Ctx")), SortParam::new("A", app("Ty", vec![Term::var("Gamma")]))];
    let rhs = vec![SortParam::new("G", SortExpr::from("Ctx")), SortParam::new("A", app("Ty", vec![Term::var("A")]))];
    assert!(!sort_params_equivalent_modulo_rename(&lhs, &rhs));
}

#[test]
fn alpha_eq_modulo_rewrites_status_reports_exhaustion() {
    let rule = DirectedEquation::new(
        "expand",
        Term::app("f", vec![Term::var("x")]),
        Term::app("f", vec![Term::app("f", vec![Term::var("x")])]),
        "_".to_string(),
    );
    let s1 = app("Tm", vec![Term::app("f", vec![Term::constant("a")])]);
    let s2 = app("Tm", vec![Term::constant("b")]);
    let (equal, exhausted) = s1.alpha_eq_modulo_rewrites_status(&s2, &vec![rule], 5);
    assert!(!equal);
    assert!(exhausted, "looping argument normalization must be flagged");
}

#[test]
fn alpha_eq_modulo_rewrites_status_terminating_not_exhausted() {
    let rule = DirectedEquation::new("left_id", Term::app("add", vec![Term::constant("zero"), Term::var("y")]), Term::var("y"), "_".to_string());
    let s1 = app("Tm", vec![Term::app("add", vec![Term::constant("zero"), Term::constant("a")])]);
    let s2 = app("Tm", vec![Term::constant("a")]);
    let (equal, exhausted) = s1.alpha_eq_modulo_rewrites_status(&s2, &vec![rule], 100);
    assert!(equal, "add(zero, a) normalizes to a");
    assert!(!exhausted);
}

#[test]
fn subst_empty_is_identity_and_keeps_head() {
    let e = app("Hom", vec![Term::var("x"), Term::app("f", vec![Term::var("y")])]);
    assert_eq!(e.subst(&Subst::new()), e);
    let after = e.subst(&mapping(&[("x", Term::constant("c"))]));
    assert_eq!(after.head(), e.head());
}

#[test]
fn coercion_class_lattice_helpers() {
    assert!(CoercionClass::Iso.is_lossless());
    assert!(!CoercionClass::Opaque.is_lossless());
    assert_eq!(CoercionClass::all().len(), 4);
    assert!(CoercionClass::Iso < CoercionClass::Opaque);
}
