use tpb::torznab::{
    build_url, is_caps_document, is_error_document, parse_feed, parse_search_response,
    read_feed_events, TorznabError,
};
use tpb::source::parse_sources;
use tpb::web_url::WebUrl;
use tpb::xml::XmlEvent;

/// The endpoint URL that a source address parses to.
fn endpoint(address: &str) -> WebUrl {
    parse_sources(vec![address.to_string()], "test")
        .expect("an http(s) URL")
        .remove(0)
        .endpoint
}

const SEARCH_FEED: &str = r#"<?xml version="1.0" encoding="UTF-8"?>
<rss version="2.0" xmlns:torznab="http://torznab.com/schemas/2015/feed">
  <channel>
    <title>Example indexer</title>
    <item>
      <title>Ubuntu &amp; Friends</title>
      <guid>https://indexer.example/details/42</guid>
      <link>https://indexer.example/details/42</link>
      <pubDate>Mon, 01 Jan 2024 00:00:00 +0000</pubDate>
      <size>1073741824</size>
      <enclosure url="https://indexer.example/download/42" length="1073741824" type="application/x-bittorrent"/>
      <torznab:attr name="seeders" value="27"/>
      <torznab:attr name="peers" value="4"/>
      <torznab:attr name="magneturl" value="magnet:?xt=urn:btih:abc"/>
    </item>
    <item>
      <title></title>
      <guid>https://indexer.example/details/43</guid>
      <torznab:attr name="seeders" value="5"/>
    </item>
    <item>
      <title><![CDATA[Debian 12 netinst]]></title>
      <link>magnet:?xt=urn:btih:def</link>
      <category>Linux</category>
      <torznab:attr name="grabs" value="12"/>
    </item>
  </channel>
</rss>
"#;

const EMPTY_FEED: &str = r#"<?xml version="1.0" encoding="UTF-8"?>
<rss version="2.0" xmlns:torznab="http://torznab.com/schemas/2015/feed">
  <channel>
    <title>Example indexer</title>
  </channel>
</rss>
"#;

const ERROR_RESPONSE: &str = r#"<?xml version="1.0" encoding="UTF-8"?>
<error code="100" description="Incorrect user credentials"/>
"#;

const MALFORMED: &str = r#"<?xml version="1.0" encoding="UTF-8"?>
<rss version="2.0">
  <channel>
    <item>
      <title>Broken</title>
  </channel>
</rss>
"#;

const CAPS: &str = r#"<?xml version="1.0" encoding="UTF-8"?>
<caps>
  <server title="Example indexer"/>
  <limits max="100" default="50"/>
  <searching>
    <search available="yes" supportedParams="q"/>
  </searching>
</caps>
"#;

#[test]
fn parses_a_torznab_result_feed() {
    let xml = SEARCH_FEED;
    let results = parse_feed(xml).expect("feed parses");
    assert_eq!(results.len(), 2);
    let result = &results[0];
    assert_eq!(result.title, "Ubuntu & Friends");
    assert_eq!(result.magnet.as_deref(), Some("magnet:?xt=urn:btih:abc"));
    assert_eq!(
        result.download.as_deref(),
        Some("https://indexer.example/download/42")
    );
    assert_eq!(result.seeders, Some(27));
    assert_eq!(result.leechers, Some(4));
    assert_eq!(result.size_bytes, Some(1_073_741_824));
}

#[test]
fn drops_items_without_a_title() {
    let xml = SEARCH_FEED;
    let results = parse_feed(xml).expect("feed parses");
    assert!(results.iter().all(|item| !item.title.is_empty()));
}

#[test]
fn rejects_torznab_error_documents() {
    let xml = ERROR_RESPONSE;
    assert!(parse_search_response(xml).is_err());
}

#[test]
fn treats_malformed_xml_as_a_parse_failure() {
    let xml = MALFORMED;
    assert!(parse_search_response(xml).is_err());
}

#[test]
fn treats_an_empty_feed_as_zero_results_not_an_error() {
    let xml = EMPTY_FEED;
    let results = parse_search_response(xml).expect("empty feed is valid");
    assert!(results.is_empty());
}

#[test]
fn identifies_caps_documents() {
    let caps = CAPS;
    assert!(is_caps_document(caps));
    assert!(!is_caps_document("<html><title>not torznab</title></html>"));
}

#[test]
fn preserves_existing_endpoint_query_parameters() {
    let endpoint = endpoint("https://example.test/torznab?profile=linux");
    let url = build_url(&endpoint, &[("t", "search"), ("q", "ubuntu")], Some("key"));
    assert_eq!(
        url.as_str(),
        "https://example.test/torznab?profile=linux&t=search&q=ubuntu&apikey=key"
    );
}

#[test]
fn reads_cdata_titles_links_and_categories() {
    let results = parse_feed(SEARCH_FEED).expect("feed parses");
    let second = &results[1];
    assert_eq!(second.title, "Debian 12 netinst");
    assert_eq!(second.magnet.as_deref(), Some("magnet:?xt=urn:btih:def"));
    assert_eq!(second.category.as_deref(), Some("Linux"));
    assert_eq!(second.grabs, Some(12));
    assert_eq!(second.download, None);
    let first = &results[0];
    assert_eq!(first.details.as_deref(), Some("https://indexer.example/details/42"));
    assert_eq!(first.published.as_deref(), Some("Mon, 01 Jan 2024 00:00:00 +0000"));
}

#[test]
fn builds_an_infohash_magnet_when_no_magnet_is_given() {
    let xml = r#"<rss><channel><item><title>Only a hash</title><torznab:attr name="infohash" value="0123abcd"/></item></channel></rss>"#;
    let results = parse_feed(xml).expect("feed parses");
    assert_eq!(results.len(), 1);
    assert_eq!(results[0].magnet.as_deref(), Some("magnet:?xt=urn:btih:0123abcd"));
}

#[test]
fn reports_which_kind_of_failure_a_response_is() {
    assert_eq!(parse_search_response(ERROR_RESPONSE).unwrap_err(), TorznabError::ErrorResponse);
    assert_eq!(parse_search_response(MALFORMED).unwrap_err(), TorznabError::InvalidXml);
    assert_eq!(TorznabError::ErrorResponse.message(), "indexer returned a Torznab error response");
    assert_eq!(TorznabError::InvalidXml.message(), "invalid Torznab XML");
}

#[test]
fn recognizes_error_documents_only_at_the_root() {
    assert!(is_error_document(ERROR_RESPONSE));
    assert!(!is_error_document(SEARCH_FEED));
    assert!(!is_error_document("<rss><error/></rss>"));
    assert!(!is_caps_document(""));
    assert!(!is_caps_document(SEARCH_FEED));
}

#[test]
fn builds_a_url_without_an_api_key() {
    let endpoint = endpoint("http://localhost:3333/torznab");
    let url = build_url(&endpoint, &[("t", "caps")], None);
    assert_eq!(url.as_str(), "http://localhost:3333/torznab?t=caps");
    let url = build_url(&endpoint, &[("q", "a&b c")], None);
    assert_eq!(url.as_str(), "http://localhost:3333/torznab?q=a%26b+c");
}

#[test]
fn reads_results_from_tokenizer_events() {
    let attr = |name: &str, value: &str| {
        XmlEvent::Tag(
            b"torznab:attr".to_vec(),
            Some(vec![
                (b"name".to_vec(), name.as_bytes().to_vec()),
                (b"value".to_vec(), value.as_bytes().to_vec()),
            ]),
            true,
        )
    };
    let events = vec![
        XmlEvent::Other,
        XmlEvent::Tag(b"rss".to_vec(), Some(Vec::new()), false),
        XmlEvent::Tag(b"item".to_vec(), Some(Vec::new()), false),
        XmlEvent::Tag(b"title".to_vec(), Some(Vec::new()), false),
        XmlEvent::Text(b"A &amp; B".to_vec()),
        XmlEvent::End(b"title".to_vec()),
        attr("seeders", "9"),
        XmlEvent::End(b"item".to_vec()),
        XmlEvent::Tag(b"item".to_vec(), Some(Vec::new()), false),
        XmlEvent::End(b"item".to_vec()),
        XmlEvent::End(b"rss".to_vec()),
        XmlEvent::Eof,
    ];
    let results = read_feed_events(&events).expect("feed reads");
    assert_eq!(results.len(), 1);
    assert_eq!(results[0].title, "A & B");
    assert_eq!(results[0].seeders, Some(9));
    let failing = vec![XmlEvent::Tag(b"rss".to_vec(), None, false), XmlEvent::Error];
    assert_eq!(read_feed_events(&failing).unwrap_err(), TorznabError::InvalidXml);
    let unfinished = vec![XmlEvent::Tag(b"rss".to_vec(), None, false)];
    assert!(read_feed_events(&unfinished).is_err());
}
