use tpb::discover::DiscoveryResult;
use tpb::render::{discovery_lines, format_bytes, torrent_lines};
use tpb::torrent::Torrent;

/// The floating-point formatting that byte sizes follow.
fn float_format(value: u64) -> String {
    const UNITS: [&str; 5] = ["B", "KiB", "MiB", "GiB", "TiB"];
    let mut size = value as f64;
    let mut unit = 0;
    while size >= 1024.0 && unit < UNITS.len() - 1 {
        size /= 1024.0;
        unit += 1;
    }
    if unit == 0 {
        format!("{value} B")
    } else {
        format!("{size:.2} {}", UNITS[unit])
    }
}

#[test]
fn formats_byte_sizes_with_units() {
    assert_eq!(format_bytes(512), "512 B");
    assert_eq!(format_bytes(1536), "1.50 KiB");
    assert_eq!(format_bytes(1_073_741_824), "1.00 GiB");
}

#[test]
fn formats_byte_sizes_as_floating_point_division_does() {
    let mut samples: Vec<u64> = vec![
        0,
        1,
        1023,
        1024,
        1025,
        1_048_575,
        1_048_576,
        1_503_238_553,
        5_000_000_000,
        1_099_511_627_775,
        1_099_511_627_776,
        u64::MAX,
        u64::MAX - 1,
        (1 << 53) + 1,
        9_007_199_254_740_993,
    ];
    // Values whose hundredths sit on a rounding boundary.
    for k in 0..2000u64 {
        samples.push(k * 1024 / 200 + 1024);
        samples.push(k * 1_048_576 / 200 + 1_048_576);
        samples.push(k.wrapping_mul(0x9e37_79b9_7f4a_7c15));
    }
    for v in samples {
        assert_eq!(format_bytes(v), float_format(v), "value {v}");
    }
}

#[test]
fn formats_huge_sizes_in_tebibytes() {
    assert_eq!(format_bytes(u64::MAX), "16777216.00 TiB");
    assert_eq!(format_bytes(1_099_511_627_776), "1.00 TiB");
}

fn example_results() -> Vec<Torrent> {
    vec![
        Torrent {
            title: "Ubuntu".into(),
            source: "a.example".into(),
            sources: vec!["a.example".into(), "b.example".into()],
            size_bytes: Some(1536),
            seeders: Some(7),
            leechers: Some(6),
            grabs: Some(2),
            averaged_swarm_stats: true,
            category: Some("Linux".into()),
            published: Some("2026-01-01 00:00 UTC".into()),
            magnet: Some("magnet:?xt=urn:btih:abc".into()),
            download: Some("https://a.example/d/1".into()),
            ..Torrent::default()
        },
        Torrent {
            title: "Plain".into(),
            details: Some("https://a.example/t/2".into()),
            ..Torrent::default()
        },
    ]
}

#[test]
fn prints_numbered_results_with_metadata_and_links() {
    let lines = torrent_lines(&example_results(), false);
    assert_eq!(
        lines,
        [
            "1. Ubuntu  [a.example +1 more]",
            "   1.50 KiB · 7 avg seeds · 6 avg leech · 2 grabs · Linux · 2026-01-01 00:00 UTC · 2 sources",
            "magnet:?xt=urn:btih:abc",
            "",
            "2. Plain  []",
            "https://a.example/t/2",
            "",
        ]
    );
}

#[test]
fn paints_results_when_color_is_on() {
    let single = vec![Torrent {
        title: "T".into(),
        source: "s".into(),
        seeders: Some(1),
        ..Torrent::default()
    }];
    let lines = torrent_lines(&single, true);
    assert_eq!(
        lines,
        [
            "\x1b[2m1\x1b[0m. \x1b[1m\x1b[36mT\x1b[0m  \x1b[2m[s]\x1b[0m",
            "   \x1b[32m1 seeds\x1b[0m",
            "",
        ]
    );
}

#[test]
fn prints_a_table_of_verified_endpoints() {
    let results = vec![
        DiscoveryResult {
            endpoint: "http://a.example/torznab".into(),
            origin: "shodan:q".into(),
            latency_ms: 42,
        },
        DiscoveryResult {
            endpoint: "http://b.example:9117/torznab".into(),
            origin: "shodan:q".into(),
            latency_ms: 1234,
        },
    ];
    let (out, err) = discovery_lines(&results, false);
    assert_eq!(
        out,
        [
            format!("{:<58} {:>8}  {}", "ENDPOINT", "LATENCY", "SOURCE"),
            "─".repeat(86),
            format!("{:<58} {:>7}{}  {}", "http://a.example/torznab", "42", "ms", "shodan:q"),
            format!("{:<58} {:>7}{}  {}", "http://b.example:9117/torznab", "1234", "ms", "shodan:q"),
        ]
    );
    assert_eq!(err, ["", "2 verified endpoint(s)"]);
}

#[test]
fn says_so_when_no_endpoint_was_verified() {
    let (out, err) = discovery_lines(&[], false);
    assert_eq!(out, ["No reachable Torznab endpoints found."]);
    assert!(err.is_empty());
    let (out, _) = discovery_lines(&[], true);
    assert_eq!(out, ["\x1b[33mNo reachable Torznab endpoints found.\x1b[0m"]);
}
