use link_indexer::domain::{check_protocol, dedup_links, parse_links, Domain, RError};
use link_indexer::strutil::str_has_substr;

#[test]
fn construction_keeps_host_and_prefixes_base() {
    let d = Domain::new(String::from("https://blog.com/blog/async-tests-tokio-rust/")).unwrap();
    assert_eq!(d.base, "https://blog.com");
    assert_eq!(d.host, "blog.com");
    assert!(d.indexables.is_empty());
}

#[test]
fn construction_fails_with_parse_error_on_unparseable_input() {
    let d = Domain::new(String::from("blog.com/----/"));
    assert!(matches!(d, Err(RError::Parse(_))));
}

#[test]
fn construction_fails_loudly_when_the_url_has_no_host() {
    let d = Domain::new(String::from("data:text/plain,Stuff"));
    assert!(matches!(d, Err(RError::MissingHost)));
}

#[test]
fn check_protocol_is_idempotent_on_examples() {
    let once = check_protocol(String::from("blog.com"));
    assert_eq!(once, "https://blog.com");
    let twice = check_protocol(once.clone());
    assert_eq!(twice, once);

    let already = check_protocol(String::from("https://blog.com"));
    assert_eq!(check_protocol(already.clone()), already);
}

#[test]
fn classifier_produces_the_four_expected_entries() {
    let links = vec![
        String::from("example-base.com"),
        String::from("/path/path"),
        String::from("/example/path"),
        String::from("https://example-base.com"),
    ];
    let results = parse_links(String::from("example-base.com"), links);
    assert_eq!(
        results,
        vec![
            String::from("example-base.com"),
            String::from("example-base.com/path/path"),
            String::from("example-base.com/example/path"),
            String::from("https://example-base.com"),
        ]
    );
}

#[test]
fn classifier_counts_a_link_twice_when_both_rules_match() {
    let results = parse_links(String::from("x.com/"), vec![String::from("/x.com/foo")]);
    assert_eq!(
        results,
        vec![String::from("x.com//x.com/foo"), String::from("/x.com/foo")]
    );
}

#[test]
fn classifier_drops_an_unrelated_link() {
    let results = parse_links(
        String::from("example-base.com"),
        vec![String::from("https://other.com/page")],
    );
    assert!(results.is_empty());
}

#[test]
fn classifier_accepts_an_empty_set() {
    let results = parse_links(String::from("example-base.com"), Vec::new());
    assert!(results.is_empty());
}

#[test]
fn dedup_keeps_first_occurrences_in_order() {
    let links = vec![
        String::from("/a"),
        String::from("/b"),
        String::from("/a"),
        String::from("/c"),
        String::from("/b"),
    ];
    let unique = dedup_links(links);
    assert_eq!(
        unique,
        vec![String::from("/a"), String::from("/b"), String::from("/c")]
    );
}

#[test]
fn processing_a_page_collects_the_in_scope_links() {
    let mut d = Domain::new(String::from("https://blog.com/x")).unwrap();
    assert_eq!(d.base, "https://blog.com");
    let html = "<html><body>\
        <a href=\"/a\">A</a>\
        <a href=\"https://blog.com/b\">B</a>\
        <a href=\"https://other.com/c\">C</a>\
        <a href=\"/a\">again</a>\
        <a>no href</a>\
        </body></html>";
    d.process_links(html);
    assert_eq!(
        d.indexables,
        vec![
            String::from("https://blog.com/a"),
            String::from("https://blog.com/b"),
        ]
    );
    assert_eq!(d.base, "https://blog.com");
    assert_eq!(d.host, "blog.com");
}

#[test]
fn processing_a_page_without_anchors_yields_nothing() {
    let mut d = Domain::new(String::from("https://blog.com")).unwrap();
    d.process_links("<html><body><p>plain text</p></body></html>");
    assert!(d.indexables.is_empty());
}

#[test]
fn fetch_errors_carry_their_message() {
    let e = RError::Fetch(String::from("connection refused"));
    assert!(matches!(e, RError::Fetch(m) if m == "connection refused"));
}

#[test]
fn substring_search_agrees_with_std() {
    assert!(str_has_substr("https://blog.com", "https://"));
    assert!(str_has_substr("abc", ""));
    assert!(!str_has_substr("ab", "abc"));
    assert!(str_has_substr("notexample-base.com", "example-base.com"));
    assert!(!str_has_substr("example-base.org", "example-base.com"));
}
