use tpb::cli::{discovery_options, should_insert_search, DiscoveryOptions};

#[test]
fn treats_an_unknown_first_word_as_a_search() {
    assert!(should_insert_search(Some("fedora")));
    assert!(should_insert_search(Some("Ubuntu 24.04")));
    assert!(!should_insert_search(Some("search")));
    assert!(!should_insert_search(Some("discover")));
    assert!(!should_insert_search(Some("cache")));
    assert!(!should_insert_search(Some("help")));
    assert!(!should_insert_search(Some("--no-color")));
    assert!(!should_insert_search(Some("-V")));
    assert!(!should_insert_search(None));
}

#[test]
fn carries_discovery_options_over() {
    let options = discovery_options(DiscoveryOptions {
        shodan_queries: vec!["q".to_string()],
        shodan_limit: 50,
        concurrency: 12,
        timeout: 10,
        verbose: true,
    });
    assert_eq!(options.shodan_queries, ["q"]);
    assert_eq!(options.shodan_limit, 50);
    assert_eq!(options.concurrency, 12);
    assert_eq!(options.timeout_secs, 10);
    assert!(options.verbose);
}
