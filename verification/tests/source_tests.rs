use tpb::source::{
    deduplicate_sources, parse_sources, plan_sources, sources_after_discovery, split_env_list,
    Source, SourceError, SourcePlan, KNOWN_MIRRORS,
};
use tpb::web_url::WebUrl;

/// The endpoint URL that a source address parses to.
fn endpoint(address: &str) -> WebUrl {
    parse_sources(vec![address.to_string()], "test")
        .expect("an http(s) URL")
        .remove(0)
        .endpoint
}

#[test]
fn rejects_non_http_schemes() {
    let result = parse_sources(vec!["ftp://example.test".to_string()], "cli");
    assert!(result.is_err());
}

#[test]
fn deduplicates_by_normalized_endpoint() {
    let sources = parse_sources(
        vec![
            "http://example.test/".to_string(),
            "HTTP://EXAMPLE.TEST".to_string(),
        ],
        "cli",
    )
    .unwrap();
    assert_eq!(deduplicate_sources(sources).len(), 1);
}

#[test]
fn known_mirrors_are_non_empty_and_parse_as_valid_sources() {
    assert!(!KNOWN_MIRRORS.is_empty());
    let sources = parse_sources(
        KNOWN_MIRRORS.iter().map(|url| url.to_string()).collect(),
        "known mirror",
    )
    .expect("every built-in known mirror must be a valid http(s) URL");
    assert_eq!(sources.len(), KNOWN_MIRRORS.len());
}

#[test]
fn names_the_first_source_that_is_refused() {
    match parse_sources(
        vec![
            "https://fine.example".to_string(),
            "not a url".to_string(),
            "ftp://example.test".to_string(),
        ],
        "cli",
    ) {
        Err(SourceError::InvalidUrl { input }) => assert_eq!(input, "not a url"),
        other => panic!("unexpected {:?}", other),
    }
    match parse_sources(vec!["ftp://example.test".to_string()], "cli") {
        Err(error) => {
            assert_eq!(
                error.message(),
                "unsupported URL scheme `ftp` for `ftp://example.test`"
            );
        }
        other => panic!("unexpected {:?}", other),
    }
    let invalid = SourceError::InvalidUrl { input: "x".to_string() };
    assert_eq!(
        invalid.message(),
        "invalid proxy URL `x`; pass the full base URL of a Pirate Bay API mirror"
    );
}

#[test]
fn keeps_the_first_of_each_endpoint_in_order() {
    let sources = parse_sources(
        vec![
            "https://b.example/api/".to_string(),
            "https://a.example".to_string(),
            "https://B.example/api".to_string(),
            "https://a.example/other".to_string(),
        ],
        "cli",
    )
    .unwrap();
    let kept = deduplicate_sources(sources);
    let endpoints: Vec<&str> = kept.iter().map(|s| s.endpoint.as_str()).collect();
    assert_eq!(
        endpoints,
        ["https://b.example/api/", "https://a.example/", "https://a.example/other"]
    );
}

#[test]
fn labels_a_source_by_host_and_port() {
    let with_port = Source {
        endpoint: endpoint("http://203.0.113.7:3333/torznab"),
        origin: "cli".to_string(),
    };
    assert_eq!(with_port.label(), "203.0.113.7:3333");
    let without = Source {
        endpoint: endpoint("https://apibay.org"),
        origin: "cli".to_string(),
    };
    assert_eq!(without.label(), "apibay.org");
}

#[test]
fn reads_an_environment_list_of_endpoints() {
    assert_eq!(
        split_env_list(" https://a.example , ,https://b.example,"),
        ["https://a.example", "https://b.example"]
    );
    assert!(split_env_list("").is_empty());
}

#[test]
fn prefers_flags_then_environment_then_saved_endpoints() {
    match plan_sources(&vec!["https://flag.example".to_string()], Some("https://env.example")) {
        SourcePlan::Use { raw, origin } => {
            assert_eq!(raw, ["https://flag.example"]);
            assert_eq!(origin, "cli");
        }
        SourcePlan::ReadDiscovered => panic!("flags come first"),
    }
    match plan_sources(&Vec::new(), Some("https://env.example, https://two.example")) {
        SourcePlan::Use { raw, origin } => {
            assert_eq!(raw, ["https://env.example", "https://two.example"]);
            assert_eq!(origin, "environment");
        }
        SourcePlan::ReadDiscovered => panic!("the environment comes next"),
    }
    assert!(matches!(plan_sources(&Vec::new(), None), SourcePlan::ReadDiscovered));
}

#[test]
fn falls_back_to_the_known_mirrors() {
    let sources = sources_after_discovery(Vec::new()).expect("known mirrors parse");
    assert_eq!(sources.len(), 1);
    assert_eq!(sources[0].endpoint.as_str(), "https://apibay.org/");
    assert_eq!(sources[0].origin, "known mirror");
    let saved = sources_after_discovery(vec!["http://saved.example:9117/torznab".to_string()])
        .expect("saved endpoint parses");
    assert_eq!(saved[0].origin, "discovery cache");
}
