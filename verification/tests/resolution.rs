use githubdns::hosts::reconcile;
use githubdns::lookup::FetchError;
use githubdns::resolution::{same_chars, ResolutionMap};
use githubdns::resolve::{domain_list, record, resolve_all, Lookup, DEFAULT_DOMAINS};

fn page(address: &str) -> String {
    format!(
        "\r\n\r\n<html><body><ul class=\"comma-separated\"><li>{}</li></ul></body></html>",
        address
    )
}

#[test]
fn new_map_is_empty() {
    let map = ResolutionMap::new();
    assert_eq!(map.len(), 0);
    assert_eq!(map.get("github.com"), None);
}

#[test]
fn insert_enters_and_get_finds() {
    let mut map = ResolutionMap::new();
    assert_eq!(map.insert(String::from("github.com"), String::from("1.1.1.1")), None);
    assert_eq!(map.insert(String::from("b.example"), String::new()), None);
    assert_eq!(map.len(), 2);
    assert_eq!(map.get("github.com"), Some(String::from("1.1.1.1")));
    assert_eq!(map.get("b.example"), Some(String::new()));
    assert_eq!(map.get("github.co"), None);
    assert_eq!(map.domain_at(0), &vec!['g', 'i', 't', 'h', 'u', 'b', '.', 'c', 'o', 'm']);
    assert_eq!(map.address_at(0), &vec!['1', '.', '1', '.', '1', '.', '1']);
    assert_eq!(map.domain_at(1), &vec!['b', '.', 'e', 'x', 'a', 'm', 'p', 'l', 'e']);
    assert_eq!(map.address_at(1), &Vec::<char>::new());
}

#[test]
fn insert_again_replaces_in_place() {
    let mut map = ResolutionMap::new();
    map.insert(String::from("a.example"), String::from("1.1.1.1"));
    map.insert(String::from("b.example"), String::from("2.2.2.2"));
    assert_eq!(
        map.insert(String::from("a.example"), String::from("3.3.3.3")),
        Some(String::from("1.1.1.1"))
    );
    assert_eq!(map.len(), 2);
    assert_eq!(map.get("a.example"), Some(String::from("3.3.3.3")));
    assert_eq!(map.get("b.example"), Some(String::from("2.2.2.2")));
    assert_eq!(map.domain_at(0).iter().collect::<String>(), "a.example");
    assert_eq!(map.domain_at(1).iter().collect::<String>(), "b.example");
}

#[test]
fn same_chars_compares_texts() {
    assert!(same_chars(&vec![], &vec![]));
    assert!(same_chars(&vec!['a', 'b'], &vec!['a', 'b']));
    assert!(!same_chars(&vec!['a', 'b'], &vec!['a', 'c']));
    assert!(!same_chars(&vec!['a', 'b'], &vec!['a']));
}

#[test]
fn default_domains_are_the_four() {
    assert_eq!(
        domain_list(DEFAULT_DOMAINS),
        vec![
            "github.com",
            "github.global.ssl.fastly.net",
            "codeload.github.com",
            "assets-cdn.github.com"
        ]
    );
}

#[test]
fn domain_list_cuts_at_commas() {
    assert_eq!(domain_list("a.example"), vec!["a.example"]);
    assert_eq!(domain_list("a,b,,c"), vec!["a", "b", "", "c"]);
    assert_eq!(domain_list(""), vec![""]);
}

#[test]
fn record_enters_the_address_on_the_page() {
    let mut map = ResolutionMap::new();
    record(
        &mut map,
        &Lookup { domain: String::from("github.com"), page: Ok(page("192.30.253.112")) },
    );
    assert_eq!(map.get("github.com"), Some(String::from("192.30.253.112")));
    record(
        &mut map,
        &Lookup { domain: String::from("x.example"), page: Ok(String::from("no list")) },
    );
    assert_eq!(map.get("x.example"), Some(String::new()));
    assert_eq!(map.len(), 2);
}

#[test]
fn record_of_a_failure_changes_nothing() {
    let mut map = ResolutionMap::new();
    map.insert(String::from("github.com"), String::from("1.1.1.1"));
    for error in [
        FetchError::Resolve,
        FetchError::Connect,
        FetchError::Handshake,
        FetchError::Write,
        FetchError::Read,
        FetchError::NotText,
    ] {
        record(&mut map, &Lookup { domain: String::from("github.com"), page: Err(error) });
        record(&mut map, &Lookup { domain: String::from("other.example"), page: Err(error) });
    }
    assert_eq!(map.len(), 1);
    assert_eq!(map.get("github.com"), Some(String::from("1.1.1.1")));
    assert_eq!(map.get("other.example"), None);
}

#[test]
fn one_failure_of_three_leaves_the_other_two() {
    let outcomes = vec![
        Lookup { domain: String::from("github.com"), page: Ok(page("192.30.253.112")) },
        Lookup { domain: String::from("codeload.github.com"), page: Err(FetchError::Connect) },
        Lookup {
            domain: String::from("github.global.ssl.fastly.net"),
            page: Ok(page("151.101.1.194")),
        },
    ];
    let map = resolve_all(&outcomes);
    assert_eq!(map.len(), 2);
    assert_eq!(map.get("github.com"), Some(String::from("192.30.253.112")));
    assert_eq!(map.get("codeload.github.com"), None);
    assert_eq!(
        map.get("github.global.ssl.fastly.net"),
        Some(String::from("151.101.1.194"))
    );
    assert_eq!(
        reconcile("127.0.0.1 localhost\n9.9.9.9 codeload.github.com", "\n", &map),
        "127.0.0.1 localhost\n\
         9.9.9.9 codeload.github.com\n\
         # ----Generated By githubdns ---\n\
         192.30.253.112\t github.com\n\
         151.101.1.194\t github.global.ssl.fastly.net\n\
         # ----Generated By githubdns ---"
    );
}

#[test]
fn resolve_all_of_nothing_is_empty() {
    assert_eq!(resolve_all(&Vec::new()).len(), 0);
}

#[test]
fn later_page_of_a_domain_decides() {
    let outcomes = vec![
        Lookup { domain: String::from("a.example"), page: Ok(page("1.1.1.1")) },
        Lookup { domain: String::from("b.example"), page: Ok(page("2.2.2.2")) },
        Lookup { domain: String::from("a.example"), page: Ok(page("3.3.3.3")) },
        Lookup { domain: String::from("b.example"), page: Err(FetchError::Read) },
    ];
    let map = resolve_all(&outcomes);
    assert_eq!(map.len(), 2);
    assert_eq!(map.get("a.example"), Some(String::from("3.3.3.3")));
    assert_eq!(map.get("b.example"), Some(String::from("2.2.2.2")));
}
