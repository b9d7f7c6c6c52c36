use rustman::{add_to_black_list, black_list_contains, parse_black_list, render_black_list};

#[test]
fn add_twice_keeps_one_entry() {
    let mut bl: Vec<String> = Vec::new();
    assert!(add_to_black_list(&mut bl, "foo"));
    assert!(!add_to_black_list(&mut bl, "foo"));
    assert_eq!(bl, vec![String::from("foo")]);
    let text = render_black_list(&bl);
    assert_eq!(parse_black_list(&text), vec![String::from("foo")]);
}

#[test]
fn adds_keep_insertion_order() {
    let mut bl: Vec<String> = Vec::new();
    add_to_black_list(&mut bl, "first");
    add_to_black_list(&mut bl, "second");
    add_to_black_list(&mut bl, "first");
    let text = render_black_list(&bl);
    let read_back = parse_black_list(&text);
    assert_eq!(read_back, vec![String::from("first"), String::from("second")]);
}

#[test]
fn contains_sees_exact_names_only() {
    let mut bl: Vec<String> = Vec::new();
    add_to_black_list(&mut bl, "foo");
    assert!(black_list_contains(&bl, "foo"));
    assert!(!black_list_contains(&bl, "fo"));
    assert!(!black_list_contains(&bl, "foot"));
}

#[test]
fn render_writes_one_name_per_line() {
    let bl = vec![String::from("a"), String::from("bc")];
    assert_eq!(render_black_list(&bl), "a\nbc\n");
    let empty: Vec<String> = Vec::new();
    assert_eq!(render_black_list(&empty), "");
}

#[test]
fn parse_splits_on_newlines() {
    assert_eq!(parse_black_list(""), Vec::<String>::new());
    assert_eq!(parse_black_list("a"), vec![String::from("a")]);
    assert_eq!(parse_black_list("a\nb\n"), vec![String::from("a"), String::from("b")]);
    assert_eq!(
        parse_black_list("a\n\nb"),
        vec![String::from("a"), String::from(""), String::from("b")]
    );
}

#[test]
fn round_trip_preserves_names() {
    let mut bl: Vec<String> = Vec::new();
    for name in ["serde", "tokio", "rand"] {
        add_to_black_list(&mut bl, name);
    }
    let text = render_black_list(&bl);
    assert_eq!(parse_black_list(&text), bl);
}
