use rustman::{Crate, Database, PageFetch, RetryBudget, UpdateError, MAX_NET_TRY, PAGE_COUNT};
use std::sync::{Arc, Mutex};
use unchained::Unchained;

fn mk(name: &str, version: &str, description: &str) -> Crate {
    Crate {
        name: String::from(name),
        version: String::from(version),
        description: String::from(description),
    }
}

fn body_page() -> String {
    String::from(
        r#"{"crates":[
        {"name":"Tokio","max_version":"1.0.0","description":"Async Runtime"},
        {"name":"dead","max_version":null,"description":"never stored"}
    ]}"#,
    )
}

fn empty_page() -> String {
    String::from(r#"{"crates":[]}"#)
}

fn full_range(first: PageFetch) -> Vec<PageFetch> {
    let mut pages = vec![first];
    for _ in 1..PAGE_COUNT {
        pages.push(PageFetch::Body(empty_page()));
    }
    pages
}

#[test]
fn update_end_to_end_scenario() {
    let mut db = Database::default();
    let pages = full_range(PageFetch::Body(body_page()));
    assert_eq!(pages.len(), 299);
    db.update(&pages).expect("every page is well-formed");

    let r = db.search(&[String::from("async runtime")]);
    assert_eq!(r.len(), 1);
    assert_eq!(r[0].name, "tokio");
    assert_eq!(r[0].version, "1.0.0");

    let gone = db.search(&[String::from("never stored")]);
    assert_eq!(gone.len(), 0);
    assert_eq!(db.snapshot().len(), 1);
}

#[test]
fn update_replaces_prior_contents() {
    let mut db = Database::default();
    db.push(mk("stale", "0.0.1", "from the last cycle"));
    let pages = full_range(PageFetch::Body(body_page()));
    db.update(&pages).expect("every page is well-formed");
    assert_eq!(db.search(&[String::from("stale")]).len(), 0);
    assert_eq!(db.snapshot().len(), 1);
}

#[test]
fn update_of_empty_pages_yields_empty_snapshot() {
    let mut db = Database::default();
    let pages = full_range(PageFetch::Body(empty_page()));
    db.update(&pages).expect("every page is well-formed");
    assert_eq!(db.snapshot().len(), 0);
}

#[test]
fn update_fails_on_exhausted_page() {
    let mut db = Database::default();
    let mut pages = vec![
        PageFetch::Body(empty_page()),
        PageFetch::Body(empty_page()),
        PageFetch::Failed,
    ];
    pages.push(PageFetch::Body(empty_page()));
    match db.update(&pages) {
        Err(UpdateError::NetworkExhausted { page }) => assert_eq!(page, 3),
        _ => panic!("expected a network-exhausted abort"),
    }
}

#[test]
fn update_fails_on_malformed_body() {
    let mut db = Database::default();
    let pages = vec![
        PageFetch::Body(empty_page()),
        PageFetch::Body(String::from("{not json")),
    ];
    match db.update(&pages) {
        Err(UpdateError::MalformedResponse { page }) => assert_eq!(page, 2),
        _ => panic!("expected a malformed-response abort"),
    }
}

#[test]
fn clear_then_push_forgets_old_records() {
    let mut db = Database::default();
    db.push(mk("old", "1.0.0", "before the clear"));
    db.clear();
    db.push(mk("new", "2.0.0", "after the clear"));
    let snap = db.snapshot();
    assert_eq!(snap.len(), 1);
    assert_eq!(snap[0].name, "new");
}

#[test]
fn concurrent_pushes_lose_nothing() {
    let n: usize = 64;
    let db = Arc::new(Mutex::new(Database::default()));
    let handle = db.clone();
    (0..n).unchained_for_each(move |i| {
        let rec = mk(&format!("name{}", i), "1.0.0", &format!("entry number {}", i));
        handle.lock().unwrap().push(rec);
    });
    let snap = db.lock().unwrap().snapshot();
    assert_eq!(snap.len(), n);
    for i in 0..n {
        let wanted = format!("name{}", i);
        assert_eq!(snap.iter().filter(|c| c.name == wanted).count(), 1);
    }
}

#[test]
fn clear_before_concurrent_pushes_keeps_no_stale_record() {
    let db = Arc::new(Mutex::new(Database::default()));
    db.lock().unwrap().push(mk("stale", "0.0.1", "previous cycle"));
    db.lock().unwrap().clear();
    let handle = db.clone();
    (0..16usize).unchained_for_each(move |i| {
        let rec = mk(&format!("fresh{}", i), "1.0.0", "current cycle");
        handle.lock().unwrap().push(rec);
    });
    let snap = db.lock().unwrap().snapshot();
    assert_eq!(snap.len(), 16);
    assert!(snap.iter().all(|c| c.name != "stale"));
}

#[test]
fn retry_budget_aborts_at_the_cap() {
    let mut budget = RetryBudget::new();
    for attempt in 1..=MAX_NET_TRY {
        let abort = budget.record_failure();
        assert_eq!(abort, attempt == MAX_NET_TRY);
    }
    assert_eq!(budget.failures, 10);
}
