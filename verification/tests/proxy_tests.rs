use tpb::proxy::{
    build_probe_url, build_request_url, build_search_url, civil_from_days, format_unix_timestamp, parse_response,
    urlencoding_light, ApiTorrent,
};
use tpb::source::parse_sources;
use tpb::web_url::WebUrl;

/// The endpoint URL that a source address parses to.
fn endpoint(address: &str) -> WebUrl {
    parse_sources(vec![address.to_string()], "test")
        .expect("an http(s) URL")
        .remove(0)
        .endpoint
}

const RESULTS: &str = r#"[
  {"id": "1001", "name": "Ubuntu 24.04", "info_hash": "ABC123DEF456", "leechers": "4",
   "seeders": "27", "num_files": "1", "size": "1503238553", "username": "someone",
   "added": "1767225600", "status": "vip", "category": "500", "imdb": ""},
  {"id": "1002", "name": "Debian 12", "info_hash": "0011AABB", "leechers": "x",
   "seeders": "3", "num_files": "1", "size": "", "username": "someone",
   "added": "0", "status": "member", "category": "0", "imdb": ""}
]"#;

const EMPTY: &str = r#"[{"id": "0", "name": "No results returned", "info_hash": "0000000000000000000000000000000000000000",
  "leechers": "0", "seeders": "0", "num_files": "0", "size": "0", "username": "", "added": "0",
  "status": "member", "category": "0", "imdb": ""}]"#;

/// Reads the rows of a response body the way the API shapes them: an
/// array of objects whose fields are strings.
fn rows(body: &str) -> Vec<ApiTorrent> {
    let value: serde_json::Value = serde_json::from_str(body).expect("valid JSON");
    let field = |row: &serde_json::Value, key: &str| -> String {
        row.get(key)
            .and_then(|v| v.as_str())
            .expect("string field")
            .to_string()
    };
    value
        .as_array()
        .expect("an array of rows")
        .iter()
        .map(|row| ApiTorrent {
            id: field(row, "id"),
            name: field(row, "name"),
            info_hash: field(row, "info_hash"),
            leechers: field(row, "leechers"),
            seeders: field(row, "seeders"),
            size: field(row, "size"),
            added: field(row, "added"),
            category: field(row, "category"),
        })
        .collect()
}

#[test]
fn builds_the_query_url() {
    let base = endpoint("https://apibay.example");
    let url = build_search_url(&base, "ubuntu 24.04");
    assert_eq!(url.as_str(), "https://apibay.example/q.php?q=ubuntu+24.04");
}

#[test]
fn parses_a_results_response() {
    let results = parse_response(rows(RESULTS));
    assert_eq!(results.len(), 2);

    let first = &results[0];
    assert_eq!(first.title, "Ubuntu 24.04");
    assert_eq!(
        first.magnet.as_deref(),
        Some("magnet:?xt=urn:btih:ABC123DEF456&dn=Ubuntu%2024.04")
    );
    assert_eq!(first.seeders, Some(27));
    assert_eq!(first.leechers, Some(4));
    assert_eq!(first.size_bytes, Some(1_503_238_553));
    assert_eq!(first.category.as_deref(), Some("500"));
    assert_eq!(first.published.as_deref(), Some("2026-01-01 00:00 UTC"));
}

#[test]
fn treats_the_no_results_sentinel_as_zero_results() {
    let results = parse_response(rows(EMPTY));
    assert!(results.is_empty());
}

#[test]
fn converts_epoch_seconds_to_a_readable_utc_timestamp() {
    assert_eq!(format_unix_timestamp(0), "1970-01-01 00:00 UTC");
    assert_eq!(format_unix_timestamp(1_704_067_200), "2024-01-01 00:00 UTC");
    assert_eq!(format_unix_timestamp(1_767_225_600), "2026-01-01 00:00 UTC");
}

#[test]
fn leaves_unreadable_row_fields_out() {
    let results = parse_response(rows(RESULTS));
    let second = &results[1];
    assert_eq!(second.title, "Debian 12");
    assert_eq!(second.leechers, None);
    assert_eq!(second.seeders, Some(3));
    assert_eq!(second.size_bytes, None);
    assert_eq!(second.category, None);
    assert_eq!(second.published.as_deref(), Some("1970-01-01 00:00 UTC"));
    assert_eq!(second.magnet.as_deref(), Some("magnet:?xt=urn:btih:0011AABB&dn=Debian%2012"));
}

#[test]
fn drops_rows_without_a_name_or_hash() {
    let mut list = rows(RESULTS);
    list[0].name = String::new();
    list[1].info_hash = String::new();
    assert!(parse_response(list).is_empty());
}

#[test]
fn formats_times_before_the_epoch_and_within_a_day() {
    assert_eq!(format_unix_timestamp(-1), "1969-12-31 23:59 UTC");
    assert_eq!(format_unix_timestamp(951_825_600), "2000-02-29 12:00 UTC");
    assert_eq!(format_unix_timestamp(86_399), "1970-01-01 23:59 UTC");
}

#[test]
fn converts_day_counts_to_civil_dates() {
    assert_eq!(civil_from_days(0), (1970, 1, 1));
    assert_eq!(civil_from_days(-1), (1969, 12, 31));
    assert_eq!(civil_from_days(11_016), (2000, 2, 29));
    assert_eq!(civil_from_days(-719_468), (0, 3, 1));
}

#[test]
fn percent_encodes_everything_but_unreserved_bytes() {
    assert_eq!(urlencoding_light("Ubuntu 24.04"), "Ubuntu%2024.04");
    assert_eq!(urlencoding_light("a-b_c.d~e"), "a-b_c.d~e");
    assert_eq!(urlencoding_light("&/é"), "%26%2F%C3%A9");
}

#[test]
fn probes_a_mirror_with_a_test_search() {
    let base = endpoint("https://mirror.example/some/path?x=1");
    assert_eq!(build_probe_url(&base).as_str(), "https://mirror.example/q.php?q=test");
}

/// Day counts to civil dates by the days-from-civil inverse, computed
/// independently in plain integer arithmetic.
fn reference_timestamp(seconds: i64) -> String {
    let days = seconds.div_euclid(86_400);
    let secs_of_day = seconds.rem_euclid(86_400);
    let z = days + 719_468;
    let era = if z >= 0 { z } else { z - 146_096 } / 146_097;
    let doe = (z - era * 146_097) as u64;
    let yoe = (doe - doe / 1_460 + doe / 36_524 - doe / 146_096) / 365;
    let y = yoe as i64 + era * 400;
    let doy = doe - (365 * yoe + yoe / 4 - yoe / 100);
    let mp = (5 * doy + 2) / 153;
    let d = (doy - (153 * mp + 2) / 5 + 1) as u32;
    let m = if mp < 10 { mp + 3 } else { mp - 9 } as u32;
    let y = if m <= 2 { y + 1 } else { y };
    format!(
        "{y:04}-{m:02}-{d:02} {:02}:{:02} UTC",
        secs_of_day / 3600,
        (secs_of_day % 3600) / 60
    )
}

#[test]
fn formats_any_second_count_like_the_civil_calendar() {
    let mut samples: Vec<i64> = vec![
        i64::MIN,
        i64::MIN + 1,
        i64::MAX,
        -62_167_219_200 - 86_400,
        -62_167_219_200,
        253_402_300_799,
        253_402_300_800,
    ];
    for k in -3000i64..3000 {
        samples.push(k * 1_234_567_891);
        samples.push(k * 86_400 - 1);
    }
    for s in samples {
        assert_eq!(format_unix_timestamp(s), reference_timestamp(s), "seconds {s}");
    }
    assert_eq!(format_unix_timestamp(-62_167_219_200 - 86_400), "-001-12-31 00:00 UTC");
}

#[test]
fn asks_each_source_for_a_bounded_number_of_results_with_the_key() {
    let base = endpoint("https://apibay.example");
    let url = build_request_url(&base, "ubuntu 24.04", 20, Some("k&ey"));
    assert_eq!(url.as_str(), "https://apibay.example/q.php?q=ubuntu+24.04&limit=20&apikey=k%26ey");
    let url = build_request_url(&base, "debian", 5, None);
    assert_eq!(url.as_str(), "https://apibay.example/q.php?q=debian&limit=5");
}
