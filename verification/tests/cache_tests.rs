use tpb::cache::{
    cache_is_fresh, discovered_sources_content, parse_discovered_sources, query_hash,
    search_cache_file_name, SEARCH_CACHE_TTL_SECS,
};

/// FNV-1a over the bytes of the lowercase query, computed independently.
fn reference_hash(query: &str) -> u64 {
    let mut hash: u64 = 0xcbf2_9ce4_8422_2325;
    for byte in query.to_lowercase().bytes() {
        hash = (hash ^ u64::from(byte)).wrapping_mul(0x0000_0100_0000_01b3);
    }
    hash
}

#[test]
fn query_hash_is_case_insensitive_and_stable() {
    assert_eq!(query_hash("Ubuntu 24.04"), query_hash("ubuntu 24.04"));
    assert_eq!(query_hash("same"), query_hash("same"));
}

#[test]
fn hashes_queries_with_fnv1a_of_the_lowercase_bytes() {
    assert_eq!(query_hash(""), 0xcbf2_9ce4_8422_2325);
    assert_eq!(query_hash("a"), 0xaf63_dc4c_8601_ec8c);
    assert_eq!(query_hash("ÄRGER"), reference_hash("ärger"));
    assert_ne!(query_hash("ubuntu"), query_hash("debian"));
}

#[test]
fn names_cache_files_by_sixteen_hex_digits() {
    assert_eq!(search_cache_file_name(""), "cbf29ce484222325.json");
    assert_eq!(search_cache_file_name("a"), "af63dc4c8601ec8c.json");
    assert_eq!(
        search_cache_file_name("Ubuntu 24.04"),
        format!("{:016x}.json", reference_hash("ubuntu 24.04"))
    );
}

#[test]
fn keeps_cached_searches_for_fifteen_minutes() {
    assert_eq!(SEARCH_CACHE_TTL_SECS, 900);
    assert!(cache_is_fresh(1_000, 1_000));
    assert!(cache_is_fresh(1_900, 1_000));
    assert!(!cache_is_fresh(1_901, 1_000));
    assert!(cache_is_fresh(500, 1_000));
}

#[test]
fn reads_saved_endpoints_skipping_blanks_and_comments() {
    let content = "# saved by discover\n  http://a.example/torznab  \n\nhttp://b.example:9117/api\r\n#http://c.example\n";
    assert_eq!(
        parse_discovered_sources(content),
        ["http://a.example/torznab", "http://b.example:9117/api"]
    );
    assert!(parse_discovered_sources("").is_empty());
}

#[test]
fn writes_one_endpoint_per_line() {
    assert_eq!(discovered_sources_content(&Vec::new()), None);
    let endpoints = vec!["http://a.example/torznab".to_string(), "http://b.example/api".to_string()];
    let content = discovered_sources_content(&endpoints).expect("something to save");
    assert_eq!(content, "http://a.example/torznab\nhttp://b.example/api\n");
}

#[test]
fn saved_endpoints_read_back_unchanged() {
    let endpoints = vec![
        "http://203.0.113.7:3333/torznab".to_string(),
        "https://[2001:db8::1]/torznab".to_string(),
        "http://localhost:9117/api/v2.0/indexers/all/results/torznab/api".to_string(),
    ];
    let content = discovered_sources_content(&endpoints).expect("something to save");
    assert_eq!(parse_discovered_sources(&content), endpoints);
}
