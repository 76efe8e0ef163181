use panproto_gat::alg_struct::AlgStruct;

#[test]
fn build_struct_with_builder() {
    let s = AlgStruct::new("Person")
        .with_param("T", "Type")
        .with_field("name", "string")
        .with_field("age", "int")
        .with_optional_field("email", "string");

    assert_eq!(s.name.as_str(), "Person");
    assert_eq!(s.params.len(), 1);
    assert_eq!(s.fields.len(), 3);
    assert_eq!(s.required_field_count(), 2);
}

#[test]
fn empty_struct() {
    let s = AlgStruct::new("Unit");
    assert!(s.params.is_empty());
    assert!(s.fields.is_empty());
    assert_eq!(s.required_field_count(), 0);
}
