use panproto_gat::error::GatError;
use panproto_gat::maps::RenameMap;
use panproto_gat::model::{migrate_model, ModelValue, OpRow, TableModel};
use panproto_gat::morphism::TheoryMorphism;

fn int_val(v: i64) -> ModelValue {
    ModelValue::Int(v)
}

fn rmap(pairs: &[(&str, &str)]) -> RenameMap {
    RenameMap { entries: pairs.iter().map(|(a, b)| (a.to_string(), b.to_string())).collect() }
}

fn binary_table(range: std::ops::Range<i64>, f: impl Fn(i64, i64) -> i64) -> Vec<OpRow> {
    let mut rows = Vec::new();
    for a in range.clone() {
        for b in range.clone() {
            rows.push((vec![int_val(a), int_val(b)], int_val(f(a, b))));
        }
    }
    rows
}

#[test]
fn integer_monoid_model() {
    let mut model = TableModel::new("Monoid");
    model.add_sort("Carrier", (0..10).map(int_val).collect());
    model.add_op("mul", binary_table(0..10, |a, b| a + b));
    model.add_op("unit", vec![(Vec::new(), int_val(0))]);

    assert_eq!(model.eval("mul", &vec![int_val(3), int_val(4)]).unwrap(), int_val(7));
    assert_eq!(model.eval("unit", &vec![]).unwrap(), int_val(0));

    let zero = model.eval("unit", &vec![]).unwrap();
    assert_eq!(model.eval("mul", &vec![zero, int_val(5)]).unwrap(), int_val(5));
    let zero = model.eval("unit", &vec![]).unwrap();
    assert_eq!(model.eval("mul", &vec![int_val(5), zero]).unwrap(), int_val(5));

    let bc = model.eval("mul", &vec![int_val(2), int_val(3)]).unwrap();
    let lhs = model.eval("mul", &vec![int_val(1), bc]).unwrap();
    let ab = model.eval("mul", &vec![int_val(1), int_val(2)]).unwrap();
    let rhs = model.eval("mul", &vec![ab, int_val(3)]).unwrap();
    assert_eq!(lhs, rhs);
}

#[test]
fn migrate_model_renames_sorts_and_ops() {
    let mut model = TableModel::new("M2");
    model.add_sort("Carrier", vec![int_val(0), int_val(1)]);
    model.add_op("times", binary_table(0..5, |a, b| a * b));
    model.add_op("one", vec![(Vec::new(), int_val(1))]);

    let morphism = TheoryMorphism::new("rename", "M1", "M2", rmap(&[("Carrier", "Carrier")]), rmap(&[("mul", "times"), ("unit", "one")]));
    let migrated = migrate_model(&morphism, &model).unwrap();

    assert!(migrated.sort_interp.contains_key(&"Carrier".to_string()));
    assert!(migrated.op_interp.contains_key(&"mul".to_string()));
    assert!(migrated.op_interp.contains_key(&"unit".to_string()));

    assert_eq!(migrated.eval("mul", &vec![int_val(3), int_val(4)]).unwrap(), int_val(12));
    assert_eq!(migrated.eval("unit", &vec![]).unwrap(), int_val(1));
}

#[test]
fn migrate_model_missing_sort_fails() {
    let model = TableModel::new("Empty");
    let morphism = TheoryMorphism::new("bad", "X", "Empty", rmap(&[("S", "Missing")]), RenameMap::new());
    let result = migrate_model(&morphism, &model);
    assert!(matches!(result, Err(GatError::ModelError(_))));
}

#[test]
fn migrate_model_missing_op_names_the_image() {
    let mut model = TableModel::new("M");
    model.add_sort("S", vec![int_val(0)]);
    let morphism = TheoryMorphism::new("m", "X", "M", rmap(&[("S", "S")]), rmap(&[("f", "g")]));
    let result = migrate_model(&morphism, &model);
    assert_eq!(result.err(), Some(GatError::ModelError("operation interpretation for 'g' not found in model".to_string())));
}

#[test]
fn eval_missing_op_fails() {
    let model = TableModel::new("Empty");
    let result = model.eval("nonexistent", &vec![]);
    assert!(matches!(result, Err(GatError::OpNotFound(_))));
}

#[test]
fn eval_without_row_is_model_error() {
    let mut model = TableModel::new("M");
    model.add_op("f", vec![(vec![int_val(1)], int_val(2))]);
    assert_eq!(
        model.eval("f", &vec![int_val(3)]).err(),
        Some(GatError::ModelError("operation 'f' is not defined on the given arguments".to_string()))
    );
}

#[test]
fn model_debug_format() {
    let model = TableModel::new("Test");
    let debug_str = format!("{model:?}");
    assert!(debug_str.contains("Test"));
}

fn record(pairs: &[(&str, i64)]) -> ModelValue {
    ModelValue::Record(pairs.iter().map(|(k, v)| (k.to_string(), int_val(*v))).collect())
}

#[test]
fn records_compare_as_maps() {
    let mut model = TableModel::new("M");
    model.add_op("f", vec![(vec![record(&[("a", 1), ("b", 2)])], int_val(7))]);
    assert_eq!(model.eval("f", &vec![record(&[("b", 2), ("a", 1)])]).unwrap(), int_val(7));
    assert_eq!(model.eval("f", &vec![record(&[("a", 0), ("b", 2), ("a", 1)])]).unwrap(), int_val(7));
    assert!(model.eval("f", &vec![record(&[("a", 1)])]).is_err());
    assert!(model.eval("f", &vec![record(&[("a", 1), ("b", 3)])]).is_err());
}
