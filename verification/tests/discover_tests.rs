use tpb::discover::{
    candidate_url, check_discovery_request, collect_probes, parse_shodan_output, probe_url,
    probe_verdict, shodan_arguments, shodan_failure_message, sort_by_latency, validate_options,
    DiscoveryError, DiscoveryOptions, DiscoveryResult,
};
use tpb::source::{parse_sources, Source};
use tpb::web_url::WebUrl;

/// The endpoint URL that a source address parses to.
fn endpoint(address: &str) -> WebUrl {
    parse_sources(vec![address.to_string()], "test")
        .expect("an http(s) URL")
        .remove(0)
        .endpoint
}

fn options(queries: Vec<String>, limit: usize, concurrency: usize, timeout: u64) -> DiscoveryOptions {
    DiscoveryOptions {
        shodan_queries: queries,
        shodan_limit: limit,
        concurrency,
        timeout_secs: timeout,
        verbose: false,
    }
}

fn found(endpoint: &str, latency_ms: u128) -> DiscoveryResult {
    DiscoveryResult {
        endpoint: endpoint.to_string(),
        origin: "shodan:q".to_string(),
        latency_ms,
    }
}

#[test]
fn converts_shodan_address_to_torznab_endpoint() {
    assert_eq!(
        candidate_url("203.0.113.7", 3333),
        "http://203.0.113.7:3333/torznab"
    );
    assert_eq!(
        candidate_url("2001:db8::1", 443),
        "https://[2001:db8::1]/torznab"
    );
}

#[test]
fn rejects_discovery_without_an_explicit_query() {
    let options = DiscoveryOptions {
        shodan_queries: Vec::new(),
        shodan_limit: 50,
        concurrency: 10,
        timeout_secs: 10,
        verbose: false,
    };
    assert!(validate_options(&options).is_ok());
}

#[test]
fn refuses_a_discovery_request_without_a_query() {
    let request = options(Vec::new(), 50, 10, 10);
    assert_eq!(check_discovery_request(&request), Err(DiscoveryError::NoQuery));
    assert_eq!(
        DiscoveryError::NoQuery.message(),
        "discovery requires at least one --shodan-query; there is no built-in default fingerprint"
    );
    let request = options(vec!["http.title:x".to_string()], 50, 10, 10);
    assert_eq!(check_discovery_request(&request), Ok(()));
}

#[test]
fn checks_each_discovery_bound_in_order() {
    assert_eq!(validate_options(&options(Vec::new(), 0, 0, 0)), Err(DiscoveryError::ShodanLimit));
    assert_eq!(validate_options(&options(Vec::new(), 1001, 10, 10)), Err(DiscoveryError::ShodanLimit));
    assert_eq!(validate_options(&options(Vec::new(), 1000, 101, 0)), Err(DiscoveryError::Concurrency));
    assert_eq!(validate_options(&options(Vec::new(), 1, 100, 121)), Err(DiscoveryError::Timeout));
    assert_eq!(validate_options(&options(Vec::new(), 1, 1, 120)), Ok(()));
    assert_eq!(DiscoveryError::Timeout.message(), "--timeout must be between 1 and 120 seconds");
}

#[test]
fn writes_standard_ports_as_schemes() {
    assert_eq!(candidate_url("198.51.100.2", 80), "http://198.51.100.2/torznab");
    assert_eq!(candidate_url("[2001:db8::2]", 8080), "http://[2001:db8::2]:8080/torznab");
}

#[test]
fn reads_candidates_from_shodan_output() {
    let stdout = "203.0.113.7\t3333\n\n  198.51.100.2 \t 443 \nnot-a-port\tabc\n\t80\n2001:db8::1\t80\r\n";
    let sources = parse_shodan_output(stdout, "http.title:x");
    let endpoints: Vec<&str> = sources.iter().map(|s| s.endpoint.as_str()).collect();
    assert_eq!(
        endpoints,
        [
            "http://203.0.113.7:3333/torznab",
            "https://198.51.100.2/torznab",
            "http://[2001:db8::1]/torznab",
        ]
    );
    assert!(sources.iter().all(|s| s.origin == "shodan:http.title:x"));
}

#[test]
fn orders_verified_endpoints_by_latency_keeping_ties_in_order() {
    let sorted = sort_by_latency(vec![
        found("http://c.example/torznab", 30),
        found("http://a.example/torznab", 10),
        found("http://d.example/torznab", 30),
        found("http://b.example/torznab", 20),
    ]);
    let order: Vec<&str> = sorted.iter().map(|d| d.endpoint.as_str()).collect();
    assert_eq!(
        order,
        [
            "http://a.example/torznab",
            "http://b.example/torznab",
            "http://c.example/torznab",
            "http://d.example/torznab",
        ]
    );
}

#[test]
fn asks_shodan_for_addresses_and_ports() {
    assert_eq!(
        shodan_arguments("http.title:x", 50),
        ["search", "--fields", "ip_str,port", "--limit", "50", "http.title:x"]
    );
    assert_eq!(
        shodan_failure_message("  Error: no API key\n"),
        "Shodan CLI failed: Error: no API key"
    );
}

#[test]
fn keeps_only_candidates_that_answer_with_capabilities() {
    let source = Source {
        endpoint: endpoint("http://203.0.113.7:3333/torznab"),
        origin: "shodan:q".to_string(),
    };
    assert_eq!(probe_url(&source).as_str(), "http://203.0.113.7:3333/torznab?t=caps");
    let verified = probe_verdict(source, "<caps><searching/></caps>", 42).expect("caps document");
    assert_eq!(verified.endpoint, "http://203.0.113.7:3333/torznab");
    assert_eq!(verified.origin, "shodan:q");
    assert_eq!(verified.latency_ms, 42);
    let other = Source {
        endpoint: endpoint("http://198.51.100.2/torznab"),
        origin: "shodan:q".to_string(),
    };
    assert_eq!(
        probe_verdict(other, "<html></html>", 5).unwrap_err(),
        "http://198.51.100.2/torznab is not a Torznab endpoint"
    );
}

#[test]
fn collects_probe_outcomes_fastest_first() {
    let probes = vec![
        Ok(found("http://slow.example/torznab", 90)),
        Err("http://x.example/torznab did not respond".to_string()),
        Ok(found("http://fast.example/torznab", 15)),
    ];
    let (working, notes) = collect_probes(probes.clone(), true);
    let order: Vec<&str> = working.iter().map(|d| d.endpoint.as_str()).collect();
    assert_eq!(order, ["http://fast.example/torznab", "http://slow.example/torznab"]);
    assert_eq!(notes, ["reject: http://x.example/torznab did not respond"]);
    let (working, notes) = collect_probes(probes, false);
    assert_eq!(working.len(), 2);
    assert!(notes.is_empty());
}
