use schema_registry::filename::{get_schema_name, get_schema_version, is_schema};

#[test]
fn default_document_names() {
    assert!(is_schema("Foo.json"));
    assert!(is_schema("Foo"));
    assert!(!is_schema("Foo.v1_2_0.json"));
}

#[test]
fn resource_name_is_first_segment() {
    assert_eq!(get_schema_name("Foo.v1_2_0.json"), "Foo");
    assert_eq!(get_schema_name("Foo.json"), "Foo");
    assert_eq!(get_schema_name("Foo"), "Foo");
}

#[test]
fn version_token_is_between_first_and_last_segment() {
    assert_eq!(get_schema_version("Foo.v1_2_0.json"), "v1_2_0");
    assert_eq!(get_schema_version("Foo.v1.2.0.json"), "v1.2.0");
    assert_eq!(get_schema_version("Foo.json"), "");
}
