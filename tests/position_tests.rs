use schema_registry::position::{CurrentPosition, LinkError, RedfishModel};
use schema_registry::registry::{setup_models, Registry, SchemaFile};

fn file(name: &str) -> SchemaFile {
    SchemaFile { file_name: name.to_string(), path: format!("/schemas/{}", name) }
}

fn registry() -> Registry {
    let names = ["Foo.json", "Foo.v1_0_0.json", "Foo.v1_2_0.json", "A.json", "B.v1_1_0.json", "C.json", "ServiceRoot.json"];
    let files: Vec<SchemaFile> = names.iter().map(|n| file(n)).collect();
    setup_models(&files).unwrap()
}

fn resources(pos: &CurrentPosition) -> Vec<String> {
    pos.current().into_iter().map(|m| m.resource).collect()
}

fn link(resource: &str) -> String {
    format!("http://redfish.dmtf.org/schemas/v1/{}.json", resource)
}

#[test]
fn starts_at_service_root() {
    let pos = CurrentPosition::new();
    let cur = pos.current();
    assert_eq!(cur.len(), 1);
    assert_eq!(cur[0].resource, "ServiceRoot");
    assert_eq!(cur[0].link, "http://redfish.dmtf.org/schemas/v1/ServiceRoot.json");
    assert_eq!(cur[0].version, "");
    assert_eq!(cur[0].fragment, "");
}

#[test]
fn from_resource_builds_link() {
    let m = RedfishModel::from_resource("Chassis");
    assert_eq!(m.link, "http://redfish.dmtf.org/schemas/v1/Chassis.json");
    assert_eq!(m.resource, "Chassis");
}

#[test]
fn resolving_a_link_gives_latest_version_and_fragment() {
    let reg = registry();
    let mut pos = CurrentPosition::new();
    let m = pos.get_schema_by_url(&reg, "http://redfish.dmtf.org/schemas/v1/Foo.json#/bar").unwrap();
    assert_eq!(m.resource, "Foo");
    assert_eq!(m.version, "v1.2.0");
    assert_eq!(m.fragment, "/bar");
    assert_eq!(m.link, "http://redfish.dmtf.org/schemas/v1/Foo.json#/bar");
    assert_eq!(resources(&pos), vec!["ServiceRoot", "Foo"]);
}

#[test]
fn link_without_fragment_or_versions() {
    let reg = registry();
    let mut pos = CurrentPosition::new();
    let m = pos.get_schema_by_url(&reg, &link("A")).unwrap();
    assert_eq!(m.version, "");
    assert_eq!(m.fragment, "");
}

#[test]
fn revisiting_truncates_the_history() {
    let reg = registry();
    let mut pos = CurrentPosition::new();
    pos.reset("A");
    pos.get_schema_by_url(&reg, &link("B")).unwrap();
    pos.get_schema_by_url(&reg, &link("C")).unwrap();
    assert_eq!(resources(&pos), vec!["A", "B", "C"]);
    let again = format!("{}#/x", link("B"));
    pos.get_schema_by_url(&reg, &again).unwrap();
    let cur = pos.current();
    assert_eq!(cur.len(), 2);
    assert_eq!(cur[0].resource, "A");
    assert_eq!(cur[1].resource, "B");
    assert_eq!(cur[1].fragment, "/x");
    assert_eq!(cur[1].version, "v1.1.0");
}

#[test]
fn revisiting_the_first_entry_keeps_only_it() {
    let reg = registry();
    let mut pos = CurrentPosition::new();
    pos.get_schema_by_url(&reg, &link("Foo")).unwrap();
    pos.get_schema_by_url(&reg, &link("ServiceRoot")).unwrap();
    assert_eq!(resources(&pos), vec!["ServiceRoot"]);
}

#[test]
fn bad_links_leave_the_history_unchanged() {
    let reg = registry();
    let mut pos = CurrentPosition::new();
    pos.get_schema_by_url(&reg, &link("Foo")).unwrap();
    assert!(matches!(pos.get_schema_by_url(&reg, "not a url"), Err(LinkError::InvalidUrl(_))));
    assert!(matches!(pos.get_schema_by_url(&reg, "http://example.com/other/Foo.json"), Err(LinkError::LinkNotRecognized)));
    assert!(matches!(pos.get_schema_by_url(&reg, "http://redfish.dmtf.org/schemas/v1/Foo.xml"), Err(LinkError::LinkNotRecognized)));
    assert!(matches!(pos.get_schema_by_url(&reg, &link("Missing")), Err(LinkError::UnknownResource)));
    assert_eq!(resources(&pos), vec!["ServiceRoot", "Foo"]);
}

#[test]
fn reset_discards_history() {
    let reg = registry();
    let mut pos = CurrentPosition::new();
    pos.get_schema_by_url(&reg, &link("Foo")).unwrap();
    pos.reset("Chassis");
    let cur = pos.current();
    assert_eq!(cur.len(), 1);
    assert_eq!(cur[0].resource, "Chassis");
    assert_eq!(cur[0].link, "http://redfish.dmtf.org/schemas/v1/Chassis.json");
}
