# tpb

A terminal-first torrent search client. It searches one or more mirrors of a
public torrent search API, discovers candidate Torznab endpoints with the
Shodan CLI and keeps only those that answer with a capability document, and
prints normalized, de-duplicated, ranked results.

## Layout

- `src/` is the library, verified with Verus:
  - `text.rs`: character-level helpers (trimming, splitting, lines, number
    parsing and formatting).
  - `xml.rs`: the XML tokenizer (`quick_xml`) seen as a sequence of plain
    events, and the decoding of names, texts and attributes.
  - `web_url.rs`: URLs through the `url` crate.
  - `torznab.rs`: reading Torznab feeds, capability and error documents;
    building request URLs.
  - `proxy.rs`: the search API's URLs and rows, percent-encoding and UTC
    timestamps.
  - `torrent.rs`: the result type and condensing results that share an
    info hash.
  - `source.rs`, `discover.rs`, `search.rs`, `cache.rs`, `cli.rs`,
    `render.rs`: sources, discovery, the steps of a search, the local store,
    the command line and the printed output.
- `app/` is the program around the library: argument parsing with clap,
  HTTP with reqwest, the Shodan process, files, JSON with serde, printing.
- `tests/` exercises the library on concrete inputs.
