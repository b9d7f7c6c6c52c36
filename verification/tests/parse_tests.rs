use rustman::{normalize_candidates, parse_page, RawCandidate};

fn raw(name: &str, version: &str, description: &str) -> RawCandidate {
    RawCandidate {
        name: String::from(name),
        version: String::from(version),
        description: String::from(description),
    }
}

#[test]
fn normalize_drops_null_versions_and_lowercases() {
    let cands = vec![
        raw("Tokio", "1.0.0", "Async Runtime"),
        raw("Gone", "null", "no version reported"),
        raw("Serde", "1.0.229", "SERIALIZATION"),
    ];
    let out = normalize_candidates(&cands);
    assert_eq!(out.len(), 2);
    assert_eq!(out[0].name, "tokio");
    assert_eq!(out[0].version, "1.0.0");
    assert_eq!(out[0].description, "async runtime");
    assert_eq!(out[1].name, "serde");
    assert_eq!(out[1].description, "serialization");
}

#[test]
fn normalize_keeps_duplicates_and_empty_descriptions() {
    let cands = vec![raw("a", "0.1.0", ""), raw("a", "0.1.0", "")];
    let out = normalize_candidates(&cands);
    assert_eq!(out.len(), 2);
    assert_eq!(out[0].description, "");
}

#[test]
fn parse_page_reads_real_entries() {
    let body = r#"{"crates":[
        {"name":"Tokio","max_version":"1.0.0","description":"Async Runtime"},
        {"name":"dead","max_version":null,"description":"never stored"}
    ]}"#;
    let out = parse_page(body).expect("well-formed body");
    assert_eq!(out.len(), 1);
    assert_eq!(out[0].name, "tokio");
    assert_eq!(out[0].version, "1.0.0");
    assert_eq!(out[0].description, "async runtime");
}

#[test]
fn parse_page_of_empty_array_yields_nothing() {
    let out = parse_page(r#"{"crates":[]}"#).expect("well-formed body");
    assert_eq!(out.len(), 0);
}

#[test]
fn parse_page_rejects_malformed_json() {
    assert!(parse_page("{not json").is_none());
    assert!(parse_page("").is_none());
}

#[test]
fn parse_page_tolerates_missing_fields() {
    let body = r#"{"crates":[{"name":"NoVersionField","description":"x"}]}"#;
    let out = parse_page(body).expect("well-formed body");
    assert_eq!(out.len(), 0);
}
