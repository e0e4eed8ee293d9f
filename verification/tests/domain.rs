use link_indexer::domain::{check_protocol, parse_links, Domain};
use regex::Regex;
use std::collections::HashSet;

#[test]
fn test_domain() {
    let arg_str = String::from("https://blog.com/blog/async-tests-tokio-rust/");
    let d = Domain::new(arg_str);
    assert!(d.is_ok());

    let arg_str = String::from("blog.com/----/");
    let d = Domain::new(arg_str);
    assert!(d.is_err());
}

#[test]
fn test_check_protocol() {
    let arg_tes1 = String::from("https://blog.com");

    assert_eq!(check_protocol(String::from("https://blog.com")), arg_tes1);
    assert_eq!(check_protocol(String::from("blog.com")), arg_tes1);
}

#[test]
fn test_parse_links() {
    let mut set = HashSet::new();
    set.insert("example-base.com".to_owned());
    set.insert("/path/path".to_owned());
    set.insert("/example/path".to_owned());
    set.insert("https://example-base.com".to_owned());
    let links: Vec<String> = set.into_iter().collect();
    let results = parse_links("example-base.com".to_owned(), links);
    let filtered = results
        .into_iter()
        .map(|s| check_protocol(s))
        .filter(|it| {
            let r = Regex::new(r"^(https)://+example-base.com+([a-zA-Z0-9\\/]*)$");
            r.unwrap().is_match(it)
        })
        .collect::<Vec<String>>();

    assert_eq!(filtered.len(), 4);
}
