use panproto_gat::eq::DirectedEquation;
use panproto_gat::error::GatError;
use panproto_gat::op::Operation;
use panproto_gat::rewriting::{
    check_local_confluence, check_termination_via_lpo, first_order_unify, lpo_greater, occurs, replace_at_position,
    term_at_position, validate_rewrite_system, OpPrecedence,
};
use panproto_gat::sort::{Sort, SortExpr};
use panproto_gat::term::Term;
use panproto_gat::theory::Theory;

fn mk_rule(name: &str, lhs: Term, rhs: Term) -> DirectedEquation {
    DirectedEquation::new(name, lhs, rhs, "_".to_string())
}

fn unary(name: &str, x: &str, a: &str, b: &str) -> Operation {
    Operation::unary(name, x, SortExpr::name(a), SortExpr::name(b))
}

fn trivial_theory(rules: Vec<DirectedEquation>) -> Theory {
    Theory::full(
        "T",
        Vec::new(),
        vec![Sort::simple("S")],
        vec![
            Operation::nullary("zero", SortExpr::name("S")),
            unary("succ", "n", "S", "S"),
            unary("f", "x", "S", "S"),
            unary("g", "x", "S", "S"),
            unary("h", "x", "S", "S"),
            Operation::new("add", vec![("a".to_string(), SortExpr::from("S")), ("b".to_string(), SortExpr::from("S"))], SortExpr::name("S")),
        ],
        Vec::new(),
        rules,
        Vec::new(),
    )
}

#[test]
fn confluence_reports_trivially_joinable_pair() {
    let r1 = mk_rule("a", Term::app("f", vec![Term::var("x")]), Term::app("g", vec![Term::var("x")]));
    let r2 = mk_rule("b", Term::app("h", vec![Term::var("y")]), Term::app("f", vec![Term::var("y")]));
    let theory = trivial_theory(vec![r1, r2]);
    let report = check_local_confluence(&theory, 32).unwrap();
    for cp in &report.critical_pairs {
        assert!(cp.joins, "unexpected non-joining pair: {cp:?}");
    }
}

#[test]
fn confluence_reports_known_critical_pair() {
    let r1 = mk_rule("r1", Term::app("f", vec![Term::app("g", vec![Term::var("x")])]), Term::var("x"));
    let r2 = mk_rule("r2", Term::app("g", vec![Term::var("y")]), Term::app("h", vec![Term::var("y")]));
    let theory = trivial_theory(vec![r1, r2]);
    let report = check_local_confluence(&theory, 32).unwrap();
    assert!(
        report.critical_pairs.iter().any(|cp| !cp.joins && cp.rule_a == "r1" && cp.rule_b == "r2"),
        "expected non-joining critical pair between r1 and r2, got {:?}",
        report.critical_pairs
    );
}

#[test]
fn confluence_detects_non_joinable() {
    let r1 = mk_rule("r1", Term::app("f", vec![Term::var("x")]), Term::app("g", vec![Term::var("x")]));
    let r2 = mk_rule("r2", Term::app("f", vec![Term::var("x")]), Term::app("h", vec![Term::var("x")]));
    let theory = trivial_theory(vec![r1, r2]);
    let report = check_local_confluence(&theory, 32).unwrap();
    assert!(!report.is_locally_confluent());
    assert!(!report.non_joining().is_empty());
}

#[test]
fn validate_rewrite_system_flags_non_confluent() {
    let r1 = mk_rule("r1", Term::app("f", vec![Term::var("x")]), Term::app("g", vec![Term::var("x")]));
    let r2 = mk_rule("r2", Term::app("f", vec![Term::var("x")]), Term::app("h", vec![Term::var("x")]));
    let theory = trivial_theory(vec![r1, r2]);
    let report = validate_rewrite_system(&theory).unwrap();
    assert!(!report.is_sound());
    assert!(!report.warnings().is_empty());
}

#[test]
fn validate_rewrite_system_accepts_sound_and_empty() {
    let empty = Theory::new("T", vec![Sort::simple("S")], Vec::new(), Vec::new());
    assert!(validate_rewrite_system(&empty).unwrap().is_sound());
    let r = mk_rule("left_id", Term::app("add", vec![Term::constant("zero"), Term::var("y")]), Term::var("y"));
    let theory = trivial_theory(vec![r]);
    let report = validate_rewrite_system(&theory).unwrap();
    assert!(report.is_sound(), "warnings: {:?}", report.warnings());
}

#[test]
fn lpo_accepts_decreasing_rule() {
    let r = mk_rule("left_id", Term::app("add", vec![Term::constant("zero"), Term::var("y")]), Term::var("y"));
    let theory = trivial_theory(vec![r]);
    let prec = OpPrecedence::new(&["zero", "add"]);
    let report = check_termination_via_lpo(&theory, &prec).unwrap();
    assert!(report.is_lpo_terminating(), "got violations {:?}", report.violations);
}

#[test]
fn term_at_position_preserves_index_in_three_arg_app() {
    let term = Term::app("f", vec![Term::constant("a"), Term::constant("b"), Term::constant("c")]);
    assert_eq!(term_at_position(&term, &[0]), Some(Term::constant("a")));
    assert_eq!(term_at_position(&term, &[1]), Some(Term::constant("b")));
    assert_eq!(term_at_position(&term, &[2]), Some(Term::constant("c")));
}

#[test]
fn replace_at_position_inside_let_body() {
    let t = Term::Let {
        name: "x".to_string(),
        bound: Box::new(Term::constant("a")),
        body: Box::new(Term::app("f", vec![Term::var("x")])),
    };
    let result = replace_at_position(&t, &[1], Term::app("g", vec![Term::var("x")]));
    match result {
        Ok(Term::Let { body, .. }) => {
            assert_eq!(*body, Term::app("g", vec![Term::var("x")]));
        },
        other => panic!("expected Ok(Let), got {other:?}"),
    }
}

#[test]
fn replace_at_position_invalid_var_errors() {
    let t = Term::var("x");
    let err = replace_at_position(&t, &[0], Term::constant("a"));
    assert!(matches!(err, Err(GatError::InvalidRewritePosition { .. })));
}

#[test]
fn lpo_rejects_hole_in_rule() {
    let r = mk_rule("bad", Term::app("f", vec![Term::Hole { name: None }]), Term::constant("a"));
    let theory = trivial_theory(vec![r]);
    let prec = OpPrecedence::new(&["a", "f"]);
    let err = check_termination_via_lpo(&theory, &prec);
    assert!(matches!(err, Err(GatError::LpoHoleInRule { .. })));
}

#[test]
fn lpo_rejects_increasing_rule() {
    let r = mk_rule("expand", Term::var("y"), Term::app("f", vec![Term::var("y")]));
    let theory = trivial_theory(vec![r]);
    let prec = OpPrecedence::new(&["f"]);
    let report = check_termination_via_lpo(&theory, &prec).unwrap();
    assert!(!report.is_lpo_terminating());
    assert_eq!(report.violations.len(), 1);
    assert_eq!(report.violations[0].rule, "expand");
}

#[test]
fn lpo_is_deterministic_and_respects_precedence() {
    let s = Term::app("f", vec![Term::app("g", vec![Term::var("x")])]);
    let t = Term::app("h", vec![Term::var("x")]);
    let prec = OpPrecedence::new(&["h", "g", "f"]);
    assert_eq!(lpo_greater(&s, &t, &prec), lpo_greater(&s, &t, &prec));
    assert!(lpo_greater(&s, &t, &prec));
    let rev = OpPrecedence::new(&["f", "g", "h"]);
    assert!(!lpo_greater(&s, &t, &rev));
    assert!(!lpo_greater(&Term::var("x"), &s, &prec));
}

#[test]
fn unify_binds_variables_and_rejects_occurs() {
    let l = Term::app("f", vec![Term::var("x"), Term::constant("a")]);
    let r = Term::app("f", vec![Term::constant("b"), Term::var("y")]);
    let s = first_order_unify(&l, &r).expect("unifiable");
    assert_eq!(s.get(&"x".to_string()), Some(&Term::constant("b")));
    assert_eq!(s.get(&"y".to_string()), Some(&Term::constant("a")));
    assert!(first_order_unify(&Term::var("x"), &Term::app("f", vec![Term::var("x")])).is_none());
    assert!(occurs(&"x".to_string(), &Term::app("f", vec![Term::var("x")])));
    assert!(first_order_unify(&Term::constant("a"), &Term::constant("b")).is_none());
}

#[test]
fn term_at_position_out_of_range_is_none() {
    let term = Term::app("f", vec![Term::constant("a")]);
    assert_eq!(term_at_position(&term, &[3]), None);
    assert_eq!(term_at_position(&term, &[]), Some(term.clone()));
}
