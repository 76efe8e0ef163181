use panproto_gat::alpha::{alpha_equivalent, alpha_equivalent_equation};
use panproto_gat::eq::{compose_subst, DirectedEquation, Equation};
use panproto_gat::maps::{RenameMap, Subst};
use panproto_gat::matching::match_pattern;
use panproto_gat::normalize::{normalize, normalize_with_status};
use panproto_gat::term::{CaseBranch, Term};

fn mk_subst(pairs: &[(&str, Term)]) -> Subst {
    Subst { entries: pairs.iter().map(|(k, v)| (k.to_string(), v.clone())).collect() }
}

fn make_directed_eq(name: &str, lhs: Term, rhs: Term) -> DirectedEquation {
    DirectedEquation::new(name, lhs, rhs, "_".to_string())
}

fn case_of(scrutinee: Term, constructor: &str, binders: &[&str], body: Term) -> Term {
    Term::Case {
        scrutinee: Box::new(scrutinee),
        branches: vec![CaseBranch {
            constructor: constructor.to_string(),
            binders: binders.iter().map(|b| b.to_string()).collect(),
            body,
        }],
    }
}

#[test]
fn term_substitution() {
    let term = Term::app("add", vec![Term::var("x"), Term::constant("zero")]);
    let subst = mk_subst(&[("x", Term::var("y"))]);
    let result = term.substitute(&subst);
    assert_eq!(result, Term::app("add", vec![Term::var("y"), Term::constant("zero")]));
}

#[test]
fn free_variables() {
    let term = Term::app("f", vec![Term::var("x"), Term::var("y")]);
    let vars = term.free_vars();
    assert!(vars.contains("x"));
    assert!(vars.contains("y"));
    assert_eq!(vars.len(), 2);
}

#[test]
fn alpha_eq_same_vars() {
    let t1 = Term::app("f", vec![Term::var("x"), Term::var("y")]);
    let t2 = Term::app("f", vec![Term::var("x"), Term::var("y")]);
    assert!(alpha_equivalent(&t1, &t2));
}

#[test]
fn alpha_eq_renamed_vars() {
    let t1 = Term::app("f", vec![Term::var("x"), Term::var("y")]);
    let t2 = Term::app("f", vec![Term::var("a"), Term::var("b")]);
    assert!(alpha_equivalent(&t1, &t2));
}

#[test]
fn alpha_eq_non_injective_rejected() {
    let t1 = Term::app("f", vec![Term::var("x"), Term::var("x")]);
    let t2 = Term::app("f", vec![Term::var("a"), Term::var("b")]);
    assert!(!alpha_equivalent(&t1, &t2));
}

#[test]
fn alpha_eq_non_surjective_rejected() {
    let t1 = Term::app("f", vec![Term::var("a"), Term::var("b")]);
    let t2 = Term::app("f", vec![Term::var("x"), Term::var("x")]);
    assert!(!alpha_equivalent(&t1, &t2));
}

#[test]
fn alpha_eq_different_ops() {
    let t1 = Term::app("f", vec![Term::var("x")]);
    let t2 = Term::app("g", vec![Term::var("x")]);
    assert!(!alpha_equivalent(&t1, &t2));
}

#[test]
fn alpha_eq_different_structure() {
    let t1 = Term::app("f", vec![Term::var("x"), Term::app("g", vec![Term::var("y")])]);
    let t2 = Term::app("f", vec![Term::var("x"), Term::var("y")]);
    assert!(!alpha_equivalent(&t1, &t2));
}

#[test]
fn alpha_eq_constants() {
    let t1 = Term::app("f", vec![Term::constant("c")]);
    let t2 = Term::app("f", vec![Term::constant("c")]);
    assert!(alpha_equivalent(&t1, &t2));
}

#[test]
fn alpha_eq_constants_differ() {
    let t1 = Term::app("f", vec![Term::constant("c")]);
    let t2 = Term::app("f", vec![Term::constant("d")]);
    assert!(!alpha_equivalent(&t1, &t2));
}

#[test]
fn alpha_eq_nested_renamed() {
    let t1 = Term::app(
        "f",
        vec![Term::app("g", vec![Term::var("x"), Term::var("y")]), Term::app("h", vec![Term::var("y"), Term::var("x")])],
    );
    let t2 = Term::app(
        "f",
        vec![Term::app("g", vec![Term::var("a"), Term::var("b")]), Term::app("h", vec![Term::var("b"), Term::var("a")])],
    );
    assert!(alpha_equivalent(&t1, &t2));
}

#[test]
fn alpha_eq_equation_shared_bijection() {
    let lhs1 = Term::app("f", vec![Term::var("x"), Term::var("y")]);
    let rhs1 = Term::app("g", vec![Term::var("y"), Term::var("x")]);
    let lhs2 = Term::app("f", vec![Term::var("a"), Term::var("b")]);
    let rhs2 = Term::app("g", vec![Term::var("b"), Term::var("a")]);
    assert!(alpha_equivalent_equation(&lhs1, &rhs1, &lhs2, &rhs2));
}

#[test]
fn alpha_eq_equation_inconsistent_bijection() {
    let lhs1 = Term::app("f", vec![Term::var("x"), Term::var("y")]);
    let rhs1 = Term::app("g", vec![Term::var("y")]);
    let lhs2 = Term::app("f", vec![Term::var("a"), Term::var("b")]);
    let rhs2 = Term::app("g", vec![Term::var("a")]);
    assert!(!alpha_equivalent_equation(&lhs1, &rhs1, &lhs2, &rhs2));
}

#[test]
fn match_pattern_var_binds() {
    let pat = Term::var("x");
    let term = Term::app("f", vec![Term::constant("a")]);
    let result = match_pattern(&pat, &term);
    assert!(result.is_some());
    let subst = result.unwrap();
    assert_eq!(subst.get(&"x".to_string()).unwrap(), &term);
}

#[test]
fn match_pattern_op_matches() {
    let pat = Term::app("f", vec![Term::var("x"), Term::var("y")]);
    let term = Term::app("f", vec![Term::constant("a"), Term::constant("b")]);
    let result = match_pattern(&pat, &term);
    assert!(result.is_some());
    let subst = result.unwrap();
    assert_eq!(subst.get(&"x".to_string()).unwrap(), &Term::constant("a"));
    assert_eq!(subst.get(&"y".to_string()).unwrap(), &Term::constant("b"));
}

#[test]
fn match_pattern_op_mismatch() {
    let pat = Term::app("f", vec![Term::var("x")]);
    let term = Term::app("g", vec![Term::constant("a")]);
    assert!(match_pattern(&pat, &term).is_none());
}

#[test]
fn match_pattern_repeated_var_consistent() {
    let pat = Term::app("f", vec![Term::var("x"), Term::var("x")]);
    let term = Term::app("f", vec![Term::constant("a"), Term::constant("a")]);
    assert!(match_pattern(&pat, &term).is_some());
}

#[test]
fn match_pattern_repeated_var_inconsistent() {
    let pat = Term::app("f", vec![Term::var("x"), Term::var("x")]);
    let term = Term::app("f", vec![Term::constant("a"), Term::constant("b")]);
    assert!(match_pattern(&pat, &term).is_none());
}

#[test]
fn normalize_no_rules() {
    let term = Term::app("f", vec![Term::var("x")]);
    let result = normalize(&term, &vec![], 100);
    assert_eq!(result, term);
}

#[test]
fn normalize_simple_rewrite() {
    let rule = make_directed_eq("left_id", Term::app("add", vec![Term::constant("zero"), Term::var("y")]), Term::var("y"));
    let term = Term::app("add", vec![Term::constant("zero"), Term::var("x")]);
    let result = normalize(&term, &vec![rule], 100);
    assert_eq!(result, Term::var("x"));
}

#[test]
fn normalize_nested() {
    let rule = make_directed_eq("left_id", Term::app("add", vec![Term::constant("zero"), Term::var("y")]), Term::var("y"));
    let term = Term::app("f", vec![Term::app("add", vec![Term::constant("zero"), Term::var("x")])]);
    let result = normalize(&term, &vec![rule], 100);
    assert_eq!(result, Term::app("f", vec![Term::var("x")]));
}

#[test]
fn normalize_multi_step() {
    let rule = make_directed_eq("left_id", Term::app("add", vec![Term::constant("zero"), Term::var("y")]), Term::var("y"));
    let term = Term::app(
        "add",
        vec![Term::constant("zero"), Term::app("add", vec![Term::constant("zero"), Term::var("x")])],
    );
    let result = normalize(&term, &vec![rule], 100);
    assert_eq!(result, Term::var("x"));
}

#[test]
fn normalize_max_steps_guard() {
    let rule = make_directed_eq(
        "expand",
        Term::app("f", vec![Term::var("x")]),
        Term::app("f", vec![Term::app("f", vec![Term::var("x")])]),
    );
    let term = Term::app("f", vec![Term::constant("a")]);
    let result = normalize(&term, &vec![rule], 5);
    assert!(matches!(result, Term::App { .. }));
}

#[test]
fn normalize_with_status_reports_exhaustion() {
    let rule = make_directed_eq(
        "expand",
        Term::app("f", vec![Term::var("x")]),
        Term::app("f", vec![Term::app("f", vec![Term::var("x")])]),
    );
    let term = Term::app("f", vec![Term::constant("a")]);
    let (_, exhausted) = normalize_with_status(&term, &vec![rule], 5);
    assert!(exhausted, "a looping rule set must report budget exhaustion");
}

#[test]
fn normalize_with_status_terminating_is_not_exhausted() {
    let rule = make_directed_eq("left_id", Term::app("add", vec![Term::constant("zero"), Term::var("y")]), Term::var("y"));
    let term = Term::app("add", vec![Term::constant("zero"), Term::var("x")]);
    let (result, exhausted) = normalize_with_status(&term, &vec![rule], 100);
    assert_eq!(result, Term::var("x"));
    assert!(!exhausted);
}

#[test]
fn alpha_eq_var_vs_app() {
    assert!(!alpha_equivalent(&Term::var("x"), &Term::constant("c")));
}

#[test]
fn alpha_eq_arity_mismatch() {
    let t1 = Term::app("f", vec![Term::var("x")]);
    let t2 = Term::app("f", vec![Term::var("x"), Term::var("y")]);
    assert!(!alpha_equivalent(&t1, &t2));
}

#[test]
fn compose_subst_agrees_with_sequential_application() {
    let t = Term::app("f", vec![Term::var("x"), Term::var("y")]);
    let sigma = mk_subst(&[("x", Term::app("g", vec![Term::var("a")]))]);
    let tau = mk_subst(&[("y", Term::constant("b")), ("a", Term::constant("c"))]);
    let sequential = t.substitute(&sigma).substitute(&tau);
    let composed = t.substitute(&compose_subst(&tau, &sigma));
    assert_eq!(sequential, composed);
}

#[test]
fn substitute_empty_is_identity_unit() {
    let t = Term::app("f", vec![Term::var("x"), Term::constant("c")]);
    let empty = mk_subst(&[]);
    assert_eq!(t.substitute(&empty), t);
}

#[test]
fn compose_subst_empty_left_is_right() {
    let sigma = mk_subst(&[("x", Term::var("y"))]);
    let empty = mk_subst(&[]);
    let composed = compose_subst(&empty, &sigma);
    assert_eq!(composed.get(&"x".to_string()).unwrap(), &Term::var("y"));
    assert_eq!(composed.len(), 1);
}

#[test]
fn compose_subst_empty_right_is_left() {
    let tau = mk_subst(&[("y", Term::var("z"))]);
    let empty = mk_subst(&[]);
    let composed = compose_subst(&tau, &empty);
    assert_eq!(composed.get(&"y".to_string()).unwrap(), &Term::var("z"));
    assert_eq!(composed.len(), 1);
}

#[test]
fn alpha_equivalence_transitive() {
    let a = Term::app("f", vec![Term::var("x"), Term::var("y")]);
    let b = Term::app("f", vec![Term::var("u"), Term::var("v")]);
    let c = Term::app("f", vec![Term::var("p"), Term::var("q")]);
    assert!(alpha_equivalent(&a, &b));
    assert!(alpha_equivalent(&b, &c));
    assert!(alpha_equivalent(&a, &c));
}

#[test]
fn substitute_avoids_capture_under_case_binder() {
    let term = case_of(Term::var("s"), "c", &["y"], Term::app("pair", vec![Term::var("x"), Term::var("y")]));
    let subst = mk_subst(&[("x", Term::var("y"))]);
    let result = term.substitute(&subst);
    let free = result.free_vars();
    assert!(free.contains("y"), "substituted y must remain free, got {free:?} from {result:?}");
    assert!(free.contains("s"), "scrutinee stays free, got {free:?}");
}

#[test]
fn substitute_preserves_alpha_equivalence_under_case_binder() {
    let with_y = case_of(Term::var("s"), "c", &["y"], Term::app("pair", vec![Term::var("x"), Term::var("y")]));
    let with_z = case_of(Term::var("s"), "c", &["z"], Term::app("pair", vec![Term::var("x"), Term::var("z")]));
    assert!(alpha_equivalent(&with_y, &with_z), "inputs are alpha-equal");
    let subst = mk_subst(&[("x", Term::var("y"))]);
    let out_y = with_y.substitute(&subst);
    let out_z = with_z.substitute(&subst);
    assert!(alpha_equivalent(&out_y, &out_z), "substitution must respect alpha-equivalence: {out_y:?} vs {out_z:?}");
}

#[test]
fn normalize_case_contraction_respects_alpha_equivalence() {
    let build = |inner_binder: &str| {
        case_of(
            Term::app("c", vec![Term::var("v")]),
            "c",
            &["w"],
            case_of(Term::var("s"), "d", &[inner_binder], Term::app("pair", vec![Term::var("w"), Term::var(inner_binder)])),
        )
    };
    let shadowing = build("v");
    let distinct = build("u");
    assert!(alpha_equivalent(&shadowing, &distinct), "inputs are alpha-equal");
    let nf_shadowing = normalize(&shadowing, &vec![], 100);
    let nf_distinct = normalize(&distinct, &vec![], 100);
    assert!(alpha_equivalent(&nf_shadowing, &nf_distinct), "normalization must respect alpha-equivalence: {nf_shadowing:?} vs {nf_distinct:?}");
}

#[test]
fn let_substitute_does_not_capture() {
    let body = Term::app("f", vec![Term::var("x"), Term::var("y")]);
    let t = Term::Let { name: "x".to_string(), bound: Box::new(Term::constant("a")), body: Box::new(body) };
    let subst = mk_subst(&[("y", Term::app("g", vec![Term::var("x")]))]);
    let result = t.substitute(&subst);
    if let Term::Let { name, body, .. } = result {
        assert_ne!(name.as_str(), "x");
        if let Term::App { args, .. } = *body {
            assert!(matches!(&args[1], Term::App { op, .. } if op.as_str() == "g"));
        } else {
            panic!("expected App body");
        }
    } else {
        panic!("expected Let result");
    }
}

#[test]
fn rename_ops_empty_is_identity_and_renames() {
    let t = Term::app("f", vec![Term::app("g", vec![Term::var("x")]), Term::constant("c")]);
    assert_eq!(t.rename_ops(&RenameMap::new()), t);
    let m = RenameMap { entries: vec![("g".to_string(), "h".to_string())] };
    assert_eq!(t.rename_ops(&m), Term::app("f", vec![Term::app("h", vec![Term::var("x")]), Term::constant("c")]));
}

#[test]
fn equation_rename_ops_renames_both_sides() {
    let e = Equation::new("e", Term::app("f", vec![Term::var("x")]), Term::app("f", vec![Term::var("y")]));
    let m = RenameMap { entries: vec![("f".to_string(), "g".to_string())] };
    let r = e.rename_ops(&m);
    assert_eq!(r.name, "e");
    assert_eq!(r.lhs, Term::app("g", vec![Term::var("x")]));
    assert_eq!(r.rhs, Term::app("g", vec![Term::var("y")]));
}

#[test]
fn normalize_with_status_fixed_point_at_budget_is_not_exhausted() {
    let rule = make_directed_eq("left_id", Term::app("add", vec![Term::constant("zero"), Term::var("y")]), Term::var("y"));
    let term = Term::app("add", vec![Term::constant("zero"), Term::var("x")]);
    assert_eq!(normalize_with_status(&term, &vec![rule], 1), (Term::var("x"), false));
}

#[test]
fn normalize_with_status_zero_budget_on_normal_form_is_not_exhausted() {
    let rule = make_directed_eq("left_id", Term::app("add", vec![Term::constant("zero"), Term::var("y")]), Term::var("y"));
    assert_eq!(normalize_with_status(&Term::var("x"), &vec![rule], 0), (Term::var("x"), false));
}
