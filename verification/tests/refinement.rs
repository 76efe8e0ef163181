use panproto_gat::refinement::{bound_direction, RefinedSort, RefinementError};

fn parse_number(kind: &str, value: &str) -> Result<f64, RefinementError> {
    value.parse::<f64>().map_err(|_| RefinementError::MalformedConstraint { kind: kind.to_string(), value: value.to_string() })
}

fn numeric_verdict(kind: &str, self_val: &str, other_val: &str) -> Result<bool, RefinementError> {
    match bound_direction(kind) {
        Some(true) => Ok(parse_number(kind, self_val)? <= parse_number(kind, other_val)?),
        Some(false) => Ok(parse_number(kind, self_val)? >= parse_number(kind, other_val)?),
        None => Ok(false),
    }
}

fn try_subsort_of(a: &RefinedSort, b: &RefinedSort) -> Result<bool, RefinementError> {
    let verdicts: Vec<Vec<Result<bool, RefinementError>>> = b
        .constraints
        .iter()
        .map(|oc| {
            a.constraints
                .iter()
                .map(|sc| if sc.kind == oc.kind { numeric_verdict(&sc.kind, &sc.value, &oc.value) } else { Ok(false) })
                .collect()
        })
        .collect();
    a.try_subsort_with(b, &verdicts)
}

fn subsort_of(a: &RefinedSort, b: &RefinedSort) -> bool {
    try_subsort_of(a, b).unwrap_or(false)
}

#[test]
fn subsort_same_base_tighter_max() {
    let narrow = RefinedSort::from_constraints("string", &[("maxLength".into(), "100".into())]);
    let wide = RefinedSort::from_constraints("string", &[("maxLength".into(), "300".into())]);
    assert!(subsort_of(&narrow, &wide));
    assert!(!subsort_of(&wide, &narrow));
}

#[test]
fn subsort_same_base_tighter_min() {
    let narrow = RefinedSort::from_constraints("int", &[("minimum".into(), "10".into())]);
    let wide = RefinedSort::from_constraints("int", &[("minimum".into(), "0".into())]);
    assert!(subsort_of(&narrow, &wide));
    assert!(!subsort_of(&wide, &narrow));
}

#[test]
fn subsort_different_base_returns_false() {
    let a = RefinedSort::from_constraints("string", &[("maxLength".into(), "100".into())]);
    let b = RefinedSort::from_constraints("int", &[("maxLength".into(), "200".into())]);
    assert!(!subsort_of(&a, &b));
}

#[test]
fn identical_constraints_not_strict_subsort() {
    let a = RefinedSort::from_constraints("string", &[("maxLength".into(), "100".into())]);
    let b = RefinedSort::from_constraints("string", &[("maxLength".into(), "100".into())]);
    assert!(!subsort_of(&a, &b));
}

#[test]
fn additional_constraint_makes_subsort() {
    let narrow = RefinedSort::from_constraints("string", &[("maxLength".into(), "100".into()), ("minLength".into(), "5".into())]);
    let wide = RefinedSort::from_constraints("string", &[("maxLength".into(), "100".into())]);
    assert!(subsort_of(&narrow, &wide));
}

#[test]
fn malformed_numeric_constraint_is_explicit_error() {
    let bad = RefinedSort::from_constraints("string", &[("maxLength".into(), "abc".into())]);
    let good = RefinedSort::from_constraints("string", &[("maxLength".into(), "300".into())]);
    let err = try_subsort_of(&bad, &good).expect_err("a malformed maxLength must surface as an error, not a silent false");
    match err {
        RefinementError::MalformedConstraint { kind, value } => {
            assert_eq!(kind, "maxLength");
            assert_eq!(value, "abc");
        },
        other => panic!("expected MalformedConstraint, got {other:?}"),
    }
    assert!(matches!(try_subsort_of(&good, &bad), Err(RefinementError::MalformedConstraint { .. })));
    assert!(!subsort_of(&bad, &good));
}

#[test]
fn try_subsort_of_matches_subsort_of_on_well_formed() {
    let narrow = RefinedSort::from_constraints("string", &[("maxLength".into(), "100".into())]);
    let wide = RefinedSort::from_constraints("string", &[("maxLength".into(), "300".into())]);
    assert!(try_subsort_of(&narrow, &wide).expect("well-formed values decide"));
    assert!(!try_subsort_of(&wide, &narrow).expect("well-formed values decide"));
    assert_eq!(try_subsort_of(&narrow, &wide).ok(), Some(subsort_of(&narrow, &wide)));
}

#[test]
fn from_constraints_round_trip() {
    let sort = RefinedSort::from_constraints("string", &[("maxLength".into(), "300".into()), ("format".into(), "uri".into())]);
    assert_eq!(sort.base.as_str(), "string");
    assert_eq!(sort.constraints.len(), 2);
    assert_eq!(sort.constraints[0].kind.as_str(), "maxLength");
    assert_eq!(sort.constraints[0].value.as_str(), "300");
}

#[test]
fn non_numeric_constraints_compare_by_value() {
    let a = RefinedSort::from_constraints("string", &[("format".into(), "uri".into()), ("maxLength".into(), "10".into())]);
    let b = RefinedSort::from_constraints("string", &[("format".into(), "uri".into())]);
    let c = RefinedSort::from_constraints("string", &[("format".into(), "email".into())]);
    assert!(subsort_of(&a, &b));
    assert!(!subsort_of(&a, &c));
    assert_eq!(bound_direction("format"), None);
    assert_eq!(bound_direction("maxItems"), Some(true));
    assert_eq!(bound_direction("exclusiveMinimum"), Some(false));
}

#[test]
fn verdicts_decide_numeric_dominance() {
    let a = RefinedSort::from_constraints("int", &[("maximum".into(), "7".into())]);
    let b = RefinedSort::from_constraints("int", &[("maximum".into(), "9".into())]);
    assert_eq!(a.try_subsort_with(&b, &vec![vec![Ok(true)]]), Ok(true));
    assert_eq!(a.try_subsort_with(&b, &vec![vec![Ok(false)]]), Ok(false));
}
