use tpb::torrent::{condense_by_hash, condense_checked, source_summary, Torrent};

#[test]
fn condenses_identical_info_hashes_and_averages_swarm_counts() {
    let first = Torrent {
        source: "one.example".into(),
        sources: vec!["one.example".into()],
        title: "Example torrent".into(),
        magnet: Some("magnet:?xt=urn:btih:ABC123&dn=Example".into()),
        seeders: Some(3),
        leechers: Some(8),
        ..Torrent::default()
    };
    let second = Torrent {
        source: "two.example".into(),
        sources: vec!["two.example".into()],
        title: "Example torrent (alternate title)".into(),
        magnet: Some("magnet:?xt=urn:btih:abc123&dn=Another".into()),
        seeders: Some(11),
        leechers: Some(4),
        ..Torrent::default()
    };

    let condensed = condense_by_hash(vec![first, second]);
    assert_eq!(condensed.len(), 1);
    assert_eq!(condensed[0].seeders, Some(7));
    assert_eq!(condensed[0].leechers, Some(6));
    assert_eq!(condensed[0].sources, ["one.example", "two.example"]);
    assert!(condensed[0].averaged_swarm_stats);
}

#[test]
fn leaves_distinct_hashes_uncondensed() {
    let first = Torrent {
        source: "one.example".into(),
        title: "First".into(),
        magnet: Some("magnet:?xt=urn:btih:AAA".into()),
        ..Torrent::default()
    };
    let second = Torrent {
        source: "one.example".into(),
        title: "Second".into(),
        magnet: Some("magnet:?xt=urn:btih:BBB".into()),
        ..Torrent::default()
    };
    let condensed = condense_by_hash(vec![first, second]);
    assert_eq!(condensed.len(), 2);
    assert!(!condensed[0].averaged_swarm_stats);
}

#[test]
fn keeps_results_without_a_magnet_link_separate() {
    let first = Torrent {
        title: "No magnet A".into(),
        ..Torrent::default()
    };
    let second = Torrent {
        title: "No magnet B".into(),
        ..Torrent::default()
    };
    let condensed = condense_by_hash(vec![first, second]);
    assert_eq!(condensed.len(), 2);
}

fn hashed(source: &str, magnet: &str, seeders: Option<u64>, leechers: Option<u64>) -> Torrent {
    Torrent {
        source: source.into(),
        title: format!("from {source}"),
        magnet: Some(magnet.into()),
        seeders,
        leechers,
        ..Torrent::default()
    }
}

#[test]
fn condensing_pools_every_sample_of_a_hash_and_rounds_half_up() {
    let condensed = condense_by_hash(vec![
        hashed("a.example", "magnet:?xt=urn:btih:F00", Some(1), Some(2)),
        hashed("b.example", "magnet:?xt=urn:btih:f00", Some(2), None),
        hashed("c.example", "magnet:?xt=urn:btmh:f00", None, None),
    ]);
    assert_eq!(condensed.len(), 1);
    // Seeds 1 and 2 average to 1.5, rounded half up to 2; one leech sample stays 2.
    assert_eq!(condensed[0].seeders, Some(2));
    assert_eq!(condensed[0].leechers, Some(2));
    assert_eq!(condensed[0].sources, ["a.example", "b.example", "c.example"]);
    assert_eq!(condensed[0].title, "from a.example");
}

#[test]
fn condensing_keeps_first_seen_order_and_fills_missing_metadata() {
    let mut first = hashed("a.example", "magnet:?xt=urn:btih:AAA", Some(5), Some(1));
    first.grabs = Some(3);
    let mut other = hashed("a.example", "magnet:?xt=urn:btih:BBB", Some(9), Some(9));
    other.category = Some("Linux".into());
    let mut again = hashed("b.example", "magnet:?xt=urn:btih:aaa", Some(5), Some(1));
    again.size_bytes = Some(4096);
    again.category = Some("ISO".into());
    again.grabs = Some(10);
    let condensed = condense_by_hash(vec![first, other, again]);
    assert_eq!(condensed.len(), 2);
    assert_eq!(condensed[0].title, "from a.example");
    assert_eq!(condensed[0].size_bytes, Some(4096));
    assert_eq!(condensed[0].category.as_deref(), Some("ISO"));
    assert_eq!(condensed[0].grabs, Some(10));
    assert!(condensed[0].averaged_swarm_stats);
    assert_eq!(condensed[1].category.as_deref(), Some("Linux"));
    assert!(!condensed[1].averaged_swarm_stats);
}

#[test]
fn condensing_twice_changes_nothing() {
    let once = condense_by_hash(vec![
        hashed("a.example", "magnet:?xt=urn:btih:AAA", Some(3), Some(8)),
        hashed("b.example", "magnet:?xt=urn:btih:aaa", Some(11), Some(4)),
        hashed("c.example", "magnet:?xt=urn:btih:CCC", Some(1), None),
    ]);
    let twice = condense_by_hash(once.clone());
    assert_eq!(once.len(), twice.len());
    for (a, b) in once.iter().zip(twice.iter()) {
        assert_eq!(a.seeders, b.seeders);
        assert_eq!(a.leechers, b.leechers);
        assert_eq!(a.sources, b.sources);
        assert_eq!(a.averaged_swarm_stats, b.averaged_swarm_stats);
    }
}

#[test]
fn checked_condensing_refuses_overflowing_swarm_counts() {
    let big = hashed("a.example", "magnet:?xt=urn:btih:AAA", Some(u64::MAX), None);
    let more = hashed("b.example", "magnet:?xt=urn:btih:AAA", Some(1), None);
    assert!(condense_checked(vec![big, more]).is_none());
    let fine = condense_checked(vec![
        hashed("a.example", "magnet:?xt=urn:btih:AAA", Some(4), None),
        hashed("b.example", "magnet:?xt=urn:btih:AAA", Some(6), None),
    ])
    .expect("small counts fit");
    assert_eq!(fine[0].seeders, Some(5));
}

#[test]
fn summarizes_the_sources_of_a_result() {
    let mut t = Torrent {
        source: "own.example".into(),
        ..Torrent::default()
    };
    assert_eq!(source_summary(&t), "own.example");
    t.sources = vec!["one.example".into()];
    assert_eq!(source_summary(&t), "one.example");
    t.sources = vec!["one.example".into(), "two.example".into(), "three.example".into()];
    assert_eq!(source_summary(&t), "one.example +2 more");
}
