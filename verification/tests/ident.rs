use std::collections::HashMap;
use panproto_gat::ident::{Ident, Name, NameSite, ScopeSupply, ScopeTag, SiteRename};

#[test]
fn ident_equality_ignores_name() {
    let mut supply = ScopeSupply::new();
    let scope = ScopeTag::fresh(&mut supply);
    let a = Ident::new(scope, 0, "Vertex");
    let b = Ident::new(scope, 0, "Node");
    assert_eq!(a, b, "same (scope, index) should be equal regardless of name");
}

#[test]
fn ident_inequality_different_scope() {
    let mut supply = ScopeSupply::new();
    let a = Ident::new(ScopeTag::fresh(&mut supply), 0, "Vertex");
    let b = Ident::new(ScopeTag::fresh(&mut supply), 0, "Vertex");
    assert_ne!(a, b, "different scopes should be unequal even with same name");
}

#[test]
fn ident_inequality_different_index() {
    let mut supply = ScopeSupply::new();
    let scope = ScopeTag::fresh(&mut supply);
    let a = Ident::new(scope, 0, "Vertex");
    let b = Ident::new(scope, 1, "Vertex");
    assert_ne!(a, b, "different indices should be unequal");
}

#[test]
fn ident_hash_consistency() {
    let mut supply = ScopeSupply::new();
    let scope = ScopeTag::fresh(&mut supply);
    let key = Ident::new(scope, 42, "original");
    let mut map = HashMap::new();
    map.insert(key.clone(), "value");
    let renamed = key.renamed("renamed");
    assert_eq!(map.get(&renamed), Some(&"value"));
}

#[test]
fn ident_renamed_preserves_identity() {
    let mut supply = ScopeSupply::new();
    let scope = ScopeTag::fresh(&mut supply);
    let a = Ident::new(scope, 5, "old_name");
    let b = a.renamed("new_name");
    assert_eq!(a, b);
    assert_eq!(b.name.as_str(), "new_name");
}

#[test]
fn ident_from_legacy_is_deterministic() {
    let a = Ident::from_legacy("post:body.text");
    let b = Ident::from_legacy("post:body.text");
    assert_eq!(a, b);
    assert_eq!(a.scope, ScopeTag::legacy());
    assert_eq!(a.name.as_str(), "post:body.text");
}

#[test]
fn ident_from_legacy_different_names_differ() {
    let a = Ident::from_legacy("post:body.text");
    let b = Ident::from_legacy("post:body.content");
    assert_ne!(a, b);
}

#[test]
fn name_ptr_eq_fast_path() {
    let shared = String::from("hello");
    let a = Name(shared.clone());
    let b = Name(shared.clone());
    assert_eq!(a, b);
}

#[test]
fn name_string_eq_fallback() {
    let a = Name::new("hello");
    let b = Name(String::from("hello"));
    assert_eq!(a, b);
}

#[test]
fn name_from_conversions() {
    let from_str = Name::new("hello");
    let from_string = Name(String::from("hello"));
    let from_owned = Name("hello".to_owned());
    assert_eq!(from_str, from_string);
    assert_eq!(from_string, from_owned);
}

#[test]
fn name_partial_eq_str() {
    let name = Name::new("test");
    assert!(name.as_str() == "test");
    assert!(name.as_str() == "test");
}

#[test]
fn name_display() {
    let name = Name::new("my_field");
    assert_eq!(name.to_string(), "my_field");
}

#[test]
fn name_ordering() {
    let a = Name::new("alpha");
    let b = Name::new("beta");
    assert!(a < b);
}

#[test]
fn site_rename_construction() {
    let rename = SiteRename::new(NameSite::EdgeLabel, "text", "body");
    assert_eq!(rename.site, NameSite::EdgeLabel);
    assert_eq!(rename.old.as_str(), "text");
    assert_eq!(rename.new.as_str(), "body");
}

#[test]
fn ident_display() {
    let mut supply = ScopeSupply::new();
    let scope = ScopeTag::fresh(&mut supply);
    let id = Ident::new(scope, 0, "Vertex");
    assert_eq!(id.to_string(), "Vertex");
}

#[test]
fn fresh_scopes_are_distinct_and_not_legacy() {
    let mut supply = ScopeSupply::new();
    let a = ScopeTag::fresh(&mut supply);
    let b = ScopeTag::fresh(&mut supply);
    assert_ne!(a, b);
    assert_ne!(a, ScopeTag::legacy());
    assert_ne!(b, ScopeTag::legacy());
}

#[test]
fn ident_order_follows_scope_then_index() {
    let a = Ident::new(ScopeTag::from_raw(1), 9, "z");
    let b = Ident::new(ScopeTag::from_raw(2), 0, "a");
    let c = Ident::new(ScopeTag::from_raw(2), 1, "a");
    assert!(a < b);
    assert!(b < c);
}

#[test]
fn legacy_index_keeps_low_bits_of_digest() {
    assert_eq!(panproto_gat::ident::legacy_index_of(0x1_0000_0005), 5);
    assert_eq!(panproto_gat::ident::legacy_index_of(0xffff_ffff), 0xffff_ffff);
    let mut h = std::collections::hash_map::DefaultHasher::new();
    std::hash::Hash::hash("post:body.text", &mut h);
    let digest = std::hash::Hasher::finish(&h);
    assert_eq!(Ident::from_legacy("post:body.text").index, panproto_gat::ident::legacy_index_of(digest));
}
