use schema_registry::model::LookupError;
use schema_registry::registry::{setup_models, IndexError, Registry, SchemaFile};
use schema_registry::version::Version;

fn file(name: &str) -> SchemaFile {
    SchemaFile { file_name: name.to_string(), path: format!("/schemas/{}", name) }
}

fn foo_registry() -> Registry {
    let files = vec![file("Foo.json"), file("Foo.v1_0_0.json"), file("Foo.v1_2_0.json")];
    setup_models(&files).unwrap()
}

#[test]
fn indexing_groups_documents_by_resource() {
    let reg = foo_registry();
    assert_eq!(reg.models.len(), 1);
    let m = &reg.models[0];
    assert_eq!(m.resource, "Foo");
    assert_eq!(m.versions.len(), 3);
    assert!(m.versions[0].name.is_none());
    assert_eq!(m.versions[1].name, Some(Version { major: 1, minor: 0, patch: 0 }));
    assert_eq!(m.versions[2].name, Some(Version { major: 1, minor: 2, patch: 0 }));
    assert_eq!(m.versions[2].path, "/schemas/Foo.v1_2_0.json");
}

#[test]
fn versions_are_listed_greatest_first() {
    let reg = foo_registry();
    assert_eq!(reg.get_schema_versions("Foo").unwrap(), vec!["v1.2.0".to_string(), "v1.0.0".to_string()]);
    assert!(matches!(reg.get_schema_versions("Bar"), Err(LookupError::UnknownResource)));
}

#[test]
fn version_list_sorts_out_of_order_files() {
    let files = vec![file("A.v1_10_0.json"), file("A.v2_0_0.json"), file("A.v1_9_9.json"), file("A.json")];
    let reg = setup_models(&files).unwrap();
    assert_eq!(reg.get_schema_versions("A").unwrap(), vec!["v2.0.0", "v1.10.0", "v1.9.9"]);
}

#[test]
fn resources_are_sorted_and_unique() {
    let files = vec![file("Zed.json"), file("Alpha.v1_0_0.json"), file("Zed.v1_0_0.json"), file("Mid.json")];
    let reg = setup_models(&files).unwrap();
    assert_eq!(reg.models.len(), 3);
    assert_eq!(reg.get_schemas(), vec!["Alpha", "Mid", "Zed"]);
}

#[test]
fn bad_version_token_fails_indexing() {
    let files = vec![file("Foo.json"), file("Foo.vX_0_0.json"), file("Bar.v1.json")];
    match setup_models(&files) {
        Err(IndexError::InvalidVersionToken(name)) => assert_eq!(name, "Foo.vX_0_0.json"),
        Ok(_) => panic!("indexing should fail"),
    }
}

#[test]
fn empty_directory_gives_empty_registry() {
    let reg = setup_models(&vec![]).unwrap();
    assert!(reg.models.is_empty());
    assert!(reg.get_schemas().is_empty());
    assert!(Registry::new().models.is_empty());
}

#[test]
fn unknown_version_falls_back_to_default() {
    let reg = foo_registry();
    assert_eq!(reg.content_path("Foo", "v9.9.9").unwrap(), "/schemas/Foo.json");
    assert_eq!(reg.content_path("Foo", "v1.0.0").unwrap(), "/schemas/Foo.v1_0_0.json");
    assert!(matches!(reg.content_path("Nope", "v1.0.0"), Err(LookupError::UnknownResource)));
}

#[test]
fn unknown_version_without_default_is_an_error() {
    let reg = setup_models(&vec![file("Bar.v1_0_0.json")]).unwrap();
    assert!(matches!(reg.content_path("Bar", "v9.9.9"), Err(LookupError::NoDefaultVersion)));
    assert_eq!(reg.content_path("Bar", "v1.0.0").unwrap(), "/schemas/Bar.v1_0_0.json");
}

#[test]
fn latest_and_default_lookups() {
    let reg = foo_registry();
    let m = &reg.models[0];
    assert_eq!(m.find_latest().unwrap().path, "/schemas/Foo.v1_2_0.json");
    assert_eq!(m.find_default_version().unwrap().path, "/schemas/Foo.json");
    assert_eq!(m.find_version("v1.0.0").unwrap().path, "/schemas/Foo.v1_0_0.json");
    assert!(m.find_version("v1_0_0").is_none());
    let only_default = setup_models(&vec![file("Q.json")]).unwrap();
    assert_eq!(only_default.models[0].find_latest().unwrap().path, "/schemas/Q.json");
    let only_named = setup_models(&vec![file("R.v1_0_0.json")]).unwrap();
    assert!(matches!(only_named.models[0].find_default_version(), Err(LookupError::NoDefaultVersion)));
}

#[test]
fn latest_documents_per_resource() {
    let files = vec![file("Foo.json"), file("Foo.v1_2_0.json"), file("Foo.v1_0_0.json"), file("Bar.json")];
    let reg = setup_models(&files).unwrap();
    let docs = reg.latest_documents().unwrap();
    assert_eq!(docs.len(), 2);
    assert_eq!(docs[0].resource, "Foo");
    assert_eq!(docs[0].path, "/schemas/Foo.v1_2_0.json");
    assert_eq!(docs[1].resource, "Bar");
    assert_eq!(docs[1].path, "/schemas/Bar.json");
    assert_eq!(reg.latest_version_text("Foo").unwrap(), "v1.2.0");
    assert_eq!(reg.latest_version_text("Bar").unwrap(), "");
}
