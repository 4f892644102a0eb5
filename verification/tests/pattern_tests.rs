use ipmes_rust::pattern::parser::{
    can_read_orels, can_read_pattern, get_input_files, parse_event_type, parse_json, Json, PatternParsingError,
};
use ipmes_rust::pattern::{Pattern, PatternEntity, PatternEvent, PatternEventType};
use ipmes_rust::pattern::order_relation::OrderRelation;
use ipmes_rust::sub_pattern::{decompose, has_shared_node};

fn simple_pattern_event(signature: &str, subject: usize, object: usize) -> PatternEvent {
    PatternEvent {
        id: 0,
        signature: signature.to_string(),
        event_type: PatternEventType::Default,
        subject: PatternEntity { id: subject, signature: "".to_string() },
        object: PatternEntity { id: object, signature: "".to_string() },
    }
}

fn obj(entries: Vec<(&str, Json)>) -> Json {
    Json::Object(entries.into_iter().map(|(k, v)| (k.to_string(), v)).collect())
}

fn num(v: u64) -> Json {
    Json::Number(Some(v))
}

fn text(s: &str) -> Json {
    Json::Str(s.to_string())
}

#[test]
fn test_input_file_name_parsing() {
    assert_eq!(
        get_input_files("TTP11"),
        ("TTP11_node.json".to_string(), "TTP11_edge.json".to_string(), "TTP11_oRels.json".to_string())
    );
    assert_eq!(
        get_input_files("TTP11_regex"),
        ("TTP11_regex_node.json".to_string(), "TTP11_regex_edge.json".to_string(), "TTP11_oRels.json".to_string())
    );
}

#[test]
fn sub_pattern_test_hsn() {
    let e1 = &simple_pattern_event("a", 10, 19);
    let e2 = &simple_pattern_event("b", 9, 15);
    let e3 = &simple_pattern_event("c", 11, 13);
    let e4 = &simple_pattern_event("d", 10, 13);

    let parents: Vec<&PatternEvent> = vec![e1, e3];
    assert!(has_shared_node(e4, &parents));

    let parents: Vec<&PatternEvent> = vec![e2];
    assert!(!has_shared_node(e4, &parents));

    let parents: Vec<&PatternEvent> = vec![e3];
    assert!(has_shared_node(e4, &parents));

    let parents: Vec<&PatternEvent> = vec![];
    assert!(has_shared_node(e4, &parents));
}

#[test]
fn test_parse_event_type() {
    assert_eq!(parse_event_type(&obj(vec![])).unwrap(), PatternEventType::Default);
    assert_eq!(parse_event_type(&obj(vec![("Frequency", num(10))])).unwrap(), PatternEventType::Frequency(10));
    assert_eq!(
        parse_event_type(&obj(vec![("Type", text("Default")), ("Frequency", num(10))])).unwrap(),
        PatternEventType::Default
    );
    assert_eq!(
        parse_event_type(&obj(vec![("Type", text("Flow")), ("Frequency", num(10))])).unwrap(),
        PatternEventType::Flow
    );
    assert!(parse_event_type(&obj(vec![("Type", text("Dummy"))])).is_err());
    assert!(parse_event_type(&obj(vec![("Type", text("Frequency"))])).is_err());
    assert!(parse_event_type(&obj(vec![("Frequency", num(0))])).is_err());
}

#[test]
fn frequency_of_one_is_refused() {
    assert!(matches!(
        parse_event_type(&obj(vec![("Frequency", num(1))])),
        Err(PatternParsingError::InvalidFrequency(1))
    ));
    assert!(matches!(
        parse_event_type(&obj(vec![("Type", text("Frequency")), ("Frequency", num(1))])),
        Err(PatternParsingError::InvalidFrequency(1))
    ));
    assert_eq!(
        parse_event_type(&obj(vec![("Type", text("Frequency")), ("Frequency", num(2))])).unwrap(),
        PatternEventType::Frequency(2)
    );
}

fn sample_pattern_json(version: &str) -> Json {
    let entity = |id: u64| obj(vec![("ID", num(id)), ("Signature", text(""))]);
    obj(vec![
        ("Version", text(version)),
        ("UseRegex", Json::Bool(false)),
        ("Entities", Json::Array(vec![entity(0), entity(1), entity(2)])),
        (
            "Events",
            Json::Array(vec![
                obj(vec![
                    ("ID", num(0)),
                    ("Signature", text("aaa")),
                    ("SubjectID", num(0)),
                    ("ObjectID", num(1)),
                    ("Parents", Json::Array(vec![])),
                ]),
                obj(vec![
                    ("ID", num(1)),
                    ("Signature", text("bbb")),
                    ("SubjectID", num(1)),
                    ("ObjectID", num(2)),
                    ("Parents", Json::Array(vec![num(0)])),
                ]),
            ]),
        ),
    ])
}

#[test]
fn parser_test_sample_pattern() {
    let json_obj = sample_pattern_json("0.2.0");
    assert!(can_read_pattern(&json_obj));
    let pattern = parse_json(&json_obj).unwrap();

    assert!(!pattern.use_regex);
    assert_eq!(pattern.entities.len(), 3);

    let correct_events = [
        PatternEvent {
            id: 0,
            event_type: PatternEventType::Default,
            signature: "aaa".to_string(),
            subject: PatternEntity { id: 0, signature: "".to_string() },
            object: PatternEntity { id: 1, signature: "".to_string() },
        },
        PatternEvent {
            id: 1,
            event_type: PatternEventType::Default,
            signature: "bbb".to_string(),
            subject: PatternEntity { id: 1, signature: "".to_string() },
            object: PatternEntity { id: 2, signature: "".to_string() },
        },
    ];
    assert_eq!(pattern.events, correct_events);

    assert_eq!(pattern.order.get_roots(), vec![0]);
    assert_eq!(pattern.order.get_next(0), vec![1]);
    assert!(pattern.order.get_next(1).is_empty());
}

#[test]
fn parser_rejects_other_versions() {
    let json_obj = sample_pattern_json("0.1");
    match parse_json(&json_obj) {
        Err(PatternParsingError::UnsupportedVersion(v)) => assert_eq!(v, "0.1"),
        _ => panic!("version 0.1 must be refused"),
    }
}

#[test]
fn parser_reports_missing_keys() {
    let json_obj = obj(vec![("Version", text("0.2.0"))]);
    assert!(matches!(parse_json(&json_obj), Err(PatternParsingError::KeyError("Entities"))));
    let json_obj = obj(vec![]);
    assert!(matches!(parse_json(&json_obj), Err(PatternParsingError::KeyError("Version"))));
}

#[test]
fn parser_reports_undefined_entity() {
    let json_obj = obj(vec![
        ("Version", text("0.2.0")),
        ("Entities", Json::Array(vec![obj(vec![("ID", num(0)), ("Signature", text(""))])])),
        (
            "Events",
            Json::Array(vec![obj(vec![
                ("ID", num(0)),
                ("Signature", text("a")),
                ("SubjectID", num(0)),
                ("ObjectID", num(5)),
            ])]),
        ),
    ]);
    assert!(matches!(parse_json(&json_obj), Err(PatternParsingError::UndefinedEntityId(5))));
}

#[test]
fn parser_reports_no_event_and_cycles() {
    let json_obj = obj(vec![
        ("Version", text("0.2.0")),
        ("Entities", Json::Array(vec![])),
        ("Events", Json::Array(vec![])),
    ]);
    assert!(matches!(parse_json(&json_obj), Err(PatternParsingError::NoEventInPattern)));

    let entity = |id: u64| obj(vec![("ID", num(id)), ("Signature", text(""))]);
    let json_obj = obj(vec![
        ("Version", text("0.2.0")),
        ("Entities", Json::Array(vec![entity(0), entity(1)])),
        (
            "Events",
            Json::Array(vec![
                obj(vec![
                    ("ID", num(7)),
                    ("Signature", text("a")),
                    ("SubjectID", num(0)),
                    ("ObjectID", num(1)),
                    ("Parents", Json::Array(vec![num(9)])),
                ]),
                obj(vec![
                    ("ID", num(9)),
                    ("Signature", text("b")),
                    ("SubjectID", num(1)),
                    ("ObjectID", num(0)),
                    ("Parents", Json::Array(vec![num(7)])),
                ]),
            ]),
        ),
    ]);
    assert!(can_read_pattern(&json_obj));
    assert!(matches!(parse_json(&json_obj), Err(PatternParsingError::DependencyCycle)));
}

#[test]
fn parser_detects_unknown_parent() {
    let entity = |id: u64| obj(vec![("ID", num(id)), ("Signature", text(""))]);
    let json_obj = obj(vec![
        ("Version", text("0.2.0")),
        ("Entities", Json::Array(vec![entity(0), entity(1)])),
        (
            "Events",
            Json::Array(vec![obj(vec![
                ("ID", num(3)),
                ("Signature", text("a")),
                ("SubjectID", num(0)),
                ("ObjectID", num(1)),
                ("Parents", Json::Array(vec![num(4)])),
            ])]),
        ),
    ]);
    assert!(!can_read_pattern(&json_obj));
}

#[test]
fn from_graph_builds_roots_only() {
    let pattern = Pattern::from_graph(&["v1", "v2", "v3"], &[(0, 1, "e1"), (1, 2, "e2")], true);
    assert!(pattern.use_regex);
    assert_eq!(pattern.entities.len(), 3);
    assert_eq!(pattern.events[1].subject, PatternEntity { id: 1, signature: "v2".to_string() });
    let mut roots = pattern.order.get_roots();
    roots.sort();
    assert_eq!(roots, vec![0, 1]);
    assert!(pattern.order.is_valid());
}

#[test]
fn decompose_covers_every_event_once() {
    let pattern = Pattern::from_graph(
        &["v1", "v2", "v3", "v4"],
        &[(0, 1, "e1"), (1, 2, "e2"), (3, 2, "e3"), (2, 3, "e4")],
        false,
    );
    let decomposition = decompose(&pattern);
    let mut seen: Vec<usize> = decomposition.iter().flat_map(|sp| sp.events.iter().map(|e| e.id)).collect();
    seen.sort();
    assert_eq!(seen, vec![0, 1, 2, 3]);
}

#[test]
fn order_relation_distances() {
    let order = OrderRelation::from_order_rules(&[(0, 1), (1, 2), (0, 2)], &[0]);
    assert_eq!(order.get_distance(&0, &2), 1);
    assert_eq!(order.get_distance(&0, &1), 1);
    assert_eq!(order.get_distance(&1, &2), 1);
    assert_eq!(order.get_distance(&1, &1), 0);
    assert_eq!(order.get_distance(&2, &0), i32::MAX);
    let chain = OrderRelation::from_order_rules(&[(0, 1), (1, 2)], &[0]);
    assert_eq!(chain.get_distance(&0, &2), 2);
}

#[test]
fn order_relation_file_is_read_into_arcs() {
    let json = obj(vec![
        ("root", obj(vec![("children", Json::Array(vec![num(0), num(1)]))])),
        ("0", obj(vec![("children", Json::Array(vec![num(2)]))])),
        ("1", obj(vec![("children", Json::Array(vec![num(2)]))])),
        ("2", obj(vec![("children", Json::Array(vec![]))])),
    ]);
    assert!(can_read_orels(&json));
    let order = OrderRelation::from_orels_json(&json).expect("a well-formed order relation file");
    let mut roots = order.get_roots();
    roots.sort();
    assert_eq!(roots, vec![0, 1]);
    assert_eq!(order.get_next(0), vec![2]);
    let mut prev = order.get_previous(2);
    prev.sort();
    assert_eq!(prev, vec![0, 1]);
    assert_eq!(order.get_distance(&0, &2), 1);
    assert_eq!(order.get_distance(&2, &0), i32::MAX);
}

#[test]
fn order_relation_file_format_errors() {
    let missing_children = obj(vec![("root", obj(vec![("next", Json::Array(vec![num(0)]))]))]);
    assert!(can_read_orels(&missing_children));
    assert!(OrderRelation::from_orels_json(&missing_children).is_none());
    let bad_key = obj(vec![("first", obj(vec![("children", Json::Array(vec![num(0)]))]))]);
    assert!(OrderRelation::from_orels_json(&bad_key).is_none());
    let bad_child = obj(vec![("root", obj(vec![("children", Json::Array(vec![text("0")]))]))]);
    assert!(OrderRelation::from_orels_json(&bad_child).is_none());
    assert!(OrderRelation::from_orels_json(&Json::Array(vec![])).is_none());
    let overflowing_key = obj(vec![("4294967295", obj(vec![("children", Json::Array(vec![]))]))]);
    assert!(!can_read_orels(&overflowing_key));
}
