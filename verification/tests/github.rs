use tuiman::github::{query, FRAGMENT};

#[test]
fn query_aliases_every_repo() {
    let q = query(&["a/b", "c/d.e"]);
    assert!(q.contains(r#"r0: repository(owner: "a", name: "b") { ...F }"#));
    assert!(q.contains(r#"r1: repository(owner: "c", name: "d.e") { ...F }"#));
    assert!(q.ends_with(FRAGMENT));
}

#[test]
fn an_empty_batch_asks_for_nothing_but_the_fragment() {
    assert_eq!(query(&[]), format!("query {{\n}}{}", FRAGMENT));
}

#[test]
fn the_query_is_one_line_per_repository_in_order() {
    let q = query(&["x/y", "p/q", "m/n"]);
    let lines: Vec<&str> = q.lines().take(5).collect();
    assert_eq!(
        lines,
        [
            "query {",
            r#"  r0: repository(owner: "x", name: "y") { ...F }"#,
            r#"  r1: repository(owner: "p", name: "q") { ...F }"#,
            r#"  r2: repository(owner: "m", name: "n") { ...F }"#,
            "}",
        ]
    );
    assert!(FRAGMENT.contains("fragment F on Repository {"));
}
