use tpb::discover::DiscoveryResult;
use tpb::search::{
    attribute_results, cached_results_warning, discovered_endpoints, discovery_step,
    empty_search_message, join_query, retry_after_failure, next_batch, rank_results, rank_torrents,
    saved_endpoints_notice, search_verdict, sources_from_discovery, validate_search_limits,
    DiscoveryStep, SearchError, SearchVerdict,
};
use tpb::torrent::Torrent;

fn result(title: &str, source: &str, seeders: Option<u64>, magnet: Option<&str>) -> Torrent {
    Torrent {
        title: title.into(),
        source: source.into(),
        seeders,
        magnet: magnet.map(|m| m.to_string()),
        ..Torrent::default()
    }
}

#[test]
fn checks_the_limit_before_the_fanout() {
    assert_eq!(validate_search_limits(0, 0), Err(SearchError::Limit));
    assert_eq!(validate_search_limits(101, 10), Err(SearchError::Limit));
    assert_eq!(validate_search_limits(40, 0), Err(SearchError::Fanout));
    assert_eq!(validate_search_limits(40, 101), Err(SearchError::Fanout));
    assert_eq!(validate_search_limits(1, 100), Ok(()));
    assert_eq!(SearchError::Fanout.message(), "--fanout must be between 1 and 100");
}

#[test]
fn joins_query_words_with_spaces() {
    assert_eq!(join_query(&vec!["Ubuntu".to_string(), "24.04".to_string()]), "Ubuntu 24.04");
    assert_eq!(join_query(&vec!["one".to_string()]), "one");
    assert_eq!(join_query(&Vec::new()), "");
}

#[test]
fn asks_the_next_batch_only_while_nothing_was_found() {
    assert_eq!(next_batch(25, 10, 0, false), Some((0, 10)));
    assert_eq!(next_batch(25, 10, 10, false), Some((10, 20)));
    assert_eq!(next_batch(25, 10, 20, false), Some((20, 25)));
    assert_eq!(next_batch(25, 10, 25, false), None);
    assert_eq!(next_batch(25, 10, 10, true), None);
}

#[test]
fn attributes_results_to_their_source() {
    let tagged = attribute_results(
        vec![result("A", "", Some(1), None), result("B", "old", None, None)],
        &"mirror.example".to_string(),
    );
    assert_eq!(tagged.len(), 2);
    assert!(tagged.iter().all(|t| t.source == "mirror.example" && t.sources == ["mirror.example"]));
    assert_eq!(tagged[1].title, "B");
}

#[test]
fn ranks_by_seeders_then_source_then_title() {
    let ranked = rank_torrents(vec![
        result("b", "x", Some(5), None),
        result("none", "a", None, None),
        result("a", "y", Some(5), None),
        result("top", "z", Some(9), None),
        result("a", "x", Some(5), None),
    ]);
    let order: Vec<(&str, &str)> = ranked.iter().map(|t| (t.source.as_str(), t.title.as_str())).collect();
    assert_eq!(order, [("z", "top"), ("x", "a"), ("x", "b"), ("y", "a"), ("a", "none")]);
}

#[test]
fn shows_the_best_condensed_results_up_to_the_limit() {
    let shown = rank_results(
        vec![
            result("low", "one.example", Some(1), Some("magnet:?xt=urn:btih:AAA")),
            result("high", "one.example", Some(20), Some("magnet:?xt=urn:btih:BBB")),
            result("low again", "two.example", Some(3), Some("magnet:?xt=urn:btih:aaa")),
            result("mid", "two.example", Some(8), Some("magnet:?xt=urn:btih:CCC")),
        ],
        2,
    )
    .expect("counts fit");
    let titles: Vec<&str> = shown.iter().map(|t| t.title.as_str()).collect();
    assert_eq!(titles, ["high", "mid"]);
    let all = rank_results(
        vec![
            result("low", "one.example", Some(1), Some("magnet:?xt=urn:btih:AAA")),
            result("low again", "two.example", Some(3), Some("magnet:?xt=urn:btih:aaa")),
        ],
        40,
    )
    .expect("counts fit");
    assert_eq!(all.len(), 1);
    assert_eq!(all[0].seeders, Some(2));
    assert!(all[0].averaged_swarm_stats);
}

#[test]
fn refuses_to_rank_overflowing_swarm_counts() {
    let shown = rank_results(
        vec![
            result("a", "one", Some(u64::MAX), Some("magnet:?xt=urn:btih:AAA")),
            result("b", "two", Some(u64::MAX), Some("magnet:?xt=urn:btih:AAA")),
        ],
        40,
    );
    assert!(shown.is_none());
}

#[test]
fn discovers_when_asked_or_when_nothing_is_configured() {
    assert_eq!(discovery_step(3, true), DiscoveryStep::Explicit);
    assert_eq!(discovery_step(0, true), DiscoveryStep::Explicit);
    assert_eq!(discovery_step(0, false), DiscoveryStep::Automatic);
    assert_eq!(discovery_step(2, false), DiscoveryStep::Skip);
}

#[test]
fn decides_between_showing_results_the_cache_and_failing() {
    match search_verdict(vec![result("a", "s", None, None)], false, true, "q") {
        SearchVerdict::Show { results, save_to_cache } => {
            assert_eq!(results.len(), 1);
            assert!(save_to_cache);
        }
        SearchVerdict::Empty { .. } => panic!("there are results"),
    }
    match search_verdict(Vec::new(), true, true, "fedora") {
        SearchVerdict::Empty { read_cache, message } => {
            assert!(!read_cache);
            assert_eq!(
                message,
                "no mirror returned results for: fedora (use --verbose for request failures)"
            );
        }
        SearchVerdict::Show { .. } => panic!("there are no results"),
    }
    assert_eq!(empty_search_message("fedora", false), "no results found for: fedora");
    assert_eq!(
        cached_results_warning(),
        "warning: live mirrors are unavailable; showing a cached result from the last 15 minutes"
    );
}

#[test]
fn turns_verified_endpoints_into_sources() {
    let results = vec![
        DiscoveryResult {
            endpoint: "http://a.example/torznab".into(),
            origin: "shodan:q".into(),
            latency_ms: 3,
        },
        DiscoveryResult {
            endpoint: "not a url".into(),
            origin: "shodan:q".into(),
            latency_ms: 4,
        },
    ];
    let sources = sources_from_discovery(&results);
    assert_eq!(sources.len(), 1);
    assert_eq!(sources[0].endpoint.as_str(), "http://a.example/torznab");
    assert_eq!(sources[0].origin, "shodan:q");
    assert_eq!(discovered_endpoints(&results), ["http://a.example/torznab", "not a url"]);
    assert_eq!(
        saved_endpoints_notice(2, "/home/u/.config/tpb/indexers"),
        "Saved 2 verified endpoint(s) to /home/u/.config/tpb/indexers"
    );
}

#[test]
fn retries_a_source_once_after_a_timeout_or_failed_connection() {
    assert!(retry_after_failure(1, true, false));
    assert!(retry_after_failure(1, false, true));
    assert!(!retry_after_failure(1, false, false));
    assert!(!retry_after_failure(2, true, true));
}
