use schema_registry::search::{search, search_by_keyword, match_definition, match_property, JsonValue, KeywordMatcher, ParsedDocument, SearchError};

fn s(text: &str) -> JsonValue {
    JsonValue::String(text.to_string())
}

fn obj(members: Vec<(&str, JsonValue)>) -> JsonValue {
    JsonValue::Object(members.into_iter().map(|(k, v)| (k.to_string(), v)).collect())
}

fn outlet_doc() -> JsonValue {
    obj(vec![
        ("title", s("Outlet")),
        ("definitions", obj(vec![
            ("Outlet", obj(vec![
                ("properties", obj(vec![
                    ("PowerState", obj(vec![("description", s("Power state of the outlet."))])),
                    ("Name", obj(vec![("description", s("The name."))])),
                ])),
            ])),
            ("Other", obj(vec![("properties", obj(vec![("Id", obj(vec![]))]))])),
        ])),
    ])
}

#[test]
fn keyword_hits_name_and_description() {
    let docs = vec![ParsedDocument { resource: "Outlet".to_string(), content: outlet_doc() }];
    let results = search("power", &docs).unwrap();
    assert_eq!(results.len(), 1);
    let r = &results[0];
    assert_eq!(r.name, "Outlet");
    assert_eq!(r.model, "Outlet");
    assert_eq!(r.properties.len(), 2);
    assert_eq!(r.properties[0].name, "PowerState");
    assert!(r.properties[0].value.is_none());
    assert_eq!(r.properties[1].name, "PowerState");
    let v = r.properties[1].value.as_ref().unwrap();
    assert_eq!(v.name, "description");
    assert_eq!(v.content, "Power state of the outlet.");
}

#[test]
fn long_description_wins_over_description() {
    let m = KeywordMatcher::new("fan").unwrap();
    let p = obj(vec![("description", s("Fan speed")), ("longDescription", s("The FAN speed in RPM"))]);
    let v = match_property(&p, &m).unwrap();
    assert_eq!(v.name, "longDescription");
    assert_eq!(v.content, "The FAN speed in RPM");
    let q = obj(vec![("description", s("Fan speed")), ("longDescription", s("Rotations"))]);
    assert_eq!(match_property(&q, &m).unwrap().name, "description");
    assert!(match_property(&s("fan"), &m).is_none());
    assert!(match_property(&obj(vec![("description", JsonValue::Bool(true))]), &m).is_none());
}

#[test]
fn definition_without_properties_has_no_hits() {
    let m = KeywordMatcher::new("x").unwrap();
    assert!(match_definition(&obj(vec![("type", s("x"))]), &m).is_empty());
    assert!(match_definition(&JsonValue::Null, &m).is_empty());
}

#[test]
fn document_without_definitions_has_no_results() {
    let m = KeywordMatcher::new("power").unwrap();
    let docs = vec![
        ParsedDocument { resource: "Empty".to_string(), content: obj(vec![("title", s("power"))]) },
        ParsedDocument { resource: "Array".to_string(), content: JsonValue::Array(vec![outlet_doc()]) },
    ];
    assert!(search_by_keyword(&m, &docs).is_empty());
}

#[test]
fn results_follow_document_order() {
    let docs = vec![
        ParsedDocument { resource: "B".to_string(), content: outlet_doc() },
        ParsedDocument { resource: "A".to_string(), content: outlet_doc() },
    ];
    let results = search("NAME", &docs).unwrap();
    assert_eq!(results.len(), 2);
    assert_eq!(results[0].name, "B");
    assert_eq!(results[1].name, "A");
    assert_eq!(results[0].properties.len(), 2);
    assert_eq!(results[0].properties[0].name, "Name");
}

#[test]
fn keyword_is_a_regex() {
    let m = KeywordMatcher::new("^pow.*ate$").unwrap();
    assert!(m.is_match("PowerState"));
    assert!(!m.is_match("Name"));
}

#[test]
fn invalid_pattern_is_an_error() {
    let docs = vec![ParsedDocument { resource: "Outlet".to_string(), content: outlet_doc() }];
    assert!(matches!(search("power(", &docs), Err(SearchError::InvalidPattern(_))));
}
