use rustman::{Crate, Database};

fn mk(name: &str, version: &str, description: &str) -> Crate {
    Crate {
        name: String::from(name),
        version: String::from(version),
        description: String::from(description),
    }
}

fn two_record_db() -> Database {
    let mut db = Database::default();
    db.push(mk("tokio", "1.0.0", "async runtime"));
    db.push(mk("serde", "1.0.0", "serialization"));
    db
}

fn needles(terms: &[&str]) -> Vec<String> {
    terms.iter().map(|t| String::from(*t)).collect()
}

#[test]
fn search_single_term_hits_description() {
    let db = two_record_db();
    let r = db.search(&needles(&["async"]));
    assert_eq!(r.len(), 1);
    assert_eq!(r[0].name, "tokio");
}

#[test]
fn search_is_case_insensitive() {
    let db = two_record_db();
    let r = db.search(&needles(&["SER"]));
    assert_eq!(r.len(), 1);
    assert_eq!(r[0].name, "serde");
}

#[test]
fn search_multiple_terms_is_conjunction() {
    let db = two_record_db();
    let r = db.search(&needles(&["a", "e"]));
    assert_eq!(r.len(), 2);
    assert_eq!(r[0].name, "tokio");
    assert_eq!(r[1].name, "serde");
}

#[test]
fn search_no_terms_matches_all() {
    let db = two_record_db();
    let r = db.search(&needles(&[]));
    assert_eq!(r.len(), 2);
}

#[test]
fn search_conjunction_across_records_is_empty() {
    let db = two_record_db();
    let r = db.search(&needles(&["tokio", "serialization"]));
    assert_eq!(r.len(), 0);
}

#[test]
fn search_does_not_mutate() {
    let db = two_record_db();
    let _ = db.search(&needles(&["async"]));
    assert_eq!(db.snapshot().len(), 2);
}

#[test]
fn contains_requires_every_needle() {
    let c = mk("tokio", "1.0.0", "async runtime");
    assert!(c.contains(&needles(&["tok", "runtime"])));
    assert!(!c.contains(&needles(&["tok", "serialization"])));
    assert!(c.contains(&needles(&[])));
}

#[test]
fn contains_is_case_sensitive_as_given() {
    let c = mk("tokio", "1.0.0", "async runtime");
    assert!(!c.contains(&needles(&["TOK"])));
}

#[test]
fn contains_sub_finds_substrings() {
    assert!(rustman::contains_sub("hello world", "lo wo"));
    assert!(rustman::contains_sub("hello", ""));
    assert!(rustman::contains_sub("hello", "hello"));
    assert!(!rustman::contains_sub("hello", "hello!"));
    assert!(!rustman::contains_sub("", "x"));
}

#[test]
fn contains_sub_handles_multibyte_characters() {
    assert!(rustman::contains_sub("naïve café", "ïve"));
    assert!(rustman::contains_sub("naïve café", "café"));
    assert!(!rustman::contains_sub("naïve café", "naive"));
}

#[test]
fn str_eq_compares_characters() {
    assert!(rustman::str_eq("abc", "abc"));
    assert!(!rustman::str_eq("abc", "abd"));
    assert!(!rustman::str_eq("abc", "ab"));
    assert!(rustman::str_eq("", ""));
}
