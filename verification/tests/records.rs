use refgraph::document::{parse_record, record_from_doc, scan, Doc, ParseError, Schema};

fn reference(id: u64) -> Doc {
    Doc::Table(vec![("__raw__".to_string(), Doc::Unsigned(id)), ("name".to_string(), Doc::Text("n".to_string()))])
}

#[test]
fn record_with_nested_references() {
    let text = br#"{"__fileName__": "dir/File.qst", "__snoID__": 7,
        "a": {"__raw__": 10, "name": "x"},
        "b": [{"__raw__": 11, "name": "y"}, {"deep": [[{"name": "z", "__raw__": 12}]]}],
        "c": 5, "d": "text", "e": null, "f": true}"#;
    let r = parse_record(text, &Schema::standard()).unwrap().unwrap();
    assert_eq!(r.id, 7);
    assert_eq!(r.filename, "dir/File.qst");
    assert_eq!(r.outbound_references, vec![12, 11, 10]);
    assert_eq!(r.distance, 0);
    assert!(!r.incoming_truncated);
    assert!(!r.outgoing_truncated);
}

#[test]
fn malformed_text_is_an_error() {
    let r = parse_record(b"{not json", &Schema::standard());
    assert_eq!(r.err(), Some(ParseError::Malformed));
    let r = parse_record(b"", &Schema::standard());
    assert_eq!(r.err(), Some(ParseError::Malformed));
}

#[test]
fn record_without_id_or_filename_is_skipped() {
    let s = Schema::standard();
    assert!(parse_record(br#"{"__fileName__": "a"}"#, &s).unwrap().is_none());
    assert!(parse_record(br#"{"__snoID__": 1}"#, &s).unwrap().is_none());
    assert!(parse_record(br#"{"__fileName__": 3, "__snoID__": 1}"#, &s).unwrap().is_none());
    assert!(parse_record(br#"{"__fileName__": "a", "__snoID__": "1"}"#, &s).unwrap().is_none());
    assert!(parse_record(br#"{"__fileName__": "a", "__snoID__": -1}"#, &s).unwrap().is_none());
    assert!(parse_record(br#"{"__fileName__": "a", "__snoID__": 1.5}"#, &s).unwrap().is_none());
    assert!(parse_record(br#"[1, 2]"#, &s).unwrap().is_none());
    assert!(parse_record(br#"{"__fileName__": "a", "__snoID__": 1}"#, &s).unwrap().is_some());
}

#[test]
fn reference_is_not_searched_further() {
    let text = br#"{"__fileName__": "a", "__snoID__": 1,
        "r": {"__raw__": 5, "name": "x", "inner": {"__raw__": 6, "name": "y"}}}"#;
    let r = parse_record(text, &Schema::standard()).unwrap().unwrap();
    assert_eq!(r.outbound_references, vec![5]);
}

#[test]
fn marker_without_name_is_no_reference() {
    let text = br#"{"__fileName__": "a", "__snoID__": 1,
        "r": {"__raw__": 5, "inner": {"__raw__": 6, "name": "y"}}, "name": "top"}"#;
    let r = parse_record(text, &Schema::standard()).unwrap().unwrap();
    assert_eq!(r.outbound_references, vec![6]);
}

#[test]
fn reference_without_an_id_skips_the_record() {
    let text = br#"{"__fileName__": "a", "__snoID__": 1, "r": {"__raw__": "five", "name": "x"}}"#;
    assert!(parse_record(text, &Schema::standard()).unwrap().is_none());
}

#[test]
fn repeated_references_are_all_listed() {
    let text = br#"{"__fileName__": "a", "__snoID__": 1, "l": [{"__raw__": 5, "name": "x"}, {"__raw__": 5, "name": "y"}]}"#;
    let r = parse_record(text, &Schema::standard()).unwrap().unwrap();
    assert_eq!(r.outbound_references, vec![5, 5]);
}

#[test]
fn scan_meets_last_child_first() {
    let doc = Doc::List(vec![reference(1), Doc::List(vec![reference(2), reference(3)]), Doc::Null, reference(4)]);
    assert_eq!(scan(&doc, &Schema::standard()), Some(vec![4, 3, 2, 1]));
    assert_eq!(scan(&Doc::Null, &Schema::standard()), Some(vec![]));
    assert_eq!(scan(&reference(9), &Schema::standard()), Some(vec![9]));
    let bad = Doc::List(vec![
        reference(1),
        Doc::Table(vec![("__raw__".to_string(), Doc::Number), ("name".to_string(), Doc::Null)]),
    ]);
    assert_eq!(scan(&bad, &Schema::standard()), None);
}

#[test]
fn record_from_a_document_built_by_hand() {
    let doc = Doc::Table(vec![
        ("__fileName__".to_string(), Doc::Text("p/q.json".to_string())),
        ("__snoID__".to_string(), Doc::Unsigned(42)),
        ("x".to_string(), reference(8)),
        ("y".to_string(), Doc::Bool(false)),
    ]);
    let r = record_from_doc(&doc, &Schema::standard()).unwrap();
    assert_eq!(r.id, 42);
    assert_eq!(r.filename, "p/q.json");
    assert_eq!(r.outbound_references, vec![8]);
    assert!(record_from_doc(&Doc::Text("x".to_string()), &Schema::standard()).is_none());
}

#[test]
fn other_keys_can_be_configured() {
    let s = Schema {
        id_key: "id".to_string(),
        filename_key: "file".to_string(),
        marker_key: "ref".to_string(),
        name_key: "label".to_string(),
    };
    let text = br#"{"file": "a", "id": 3, "k": {"ref": 9, "label": "l"}, "m": {"__raw__": 1, "name": "n"}}"#;
    let r = parse_record(text, &s).unwrap().unwrap();
    assert_eq!(r.id, 3);
    assert_eq!(r.outbound_references, vec![9]);
}
