//! The Torznab protocol: reading capability, error and RSS search documents
//! into normalized results, and building request URLs.
use crate::text::{
    append_str, chars_are, chars_of, has_prefix, parse_u64, parse_unsigned, starts_with_str,
    string_from_chars,
};
use crate::torrent::{empty_torrent, torrent_views, Torrent, TorrentView};
use crate::web_url::{url_append_pair, url_query_pairs, WebUrl};
use crate::xml::{
    attr_lookup, attr_lookup_exec, attr_map_view, decode_attributes, decode_attributes_exec,
    decode_xml_text, local_name, local_name_exec, raw_pairs_view, xml_event, xml_offset, xml_text,
    byte_len, XmlCursor, XmlEvent, XmlEventView,
};
use vstd::prelude::*;

verus! {

/// Why a search response was not accepted.
#[derive(Debug, PartialEq, Eq)]
pub enum TorznabError {
    /// The document is a Torznab `<error>` document.
    ErrorResponse,
    /// The document is not well-formed XML, or a text or attribute in a
    /// result item does not decode.
    InvalidXml,
}

impl TorznabError {
    pub fn message(&self) -> (r: String)
        ensures
            r@ == match self {
                TorznabError::ErrorResponse => "indexer returned a Torznab error response"@,
                TorznabError::InvalidXml => "invalid Torznab XML"@,
            },
    {
        match self {
            TorznabError::ErrorResponse => String::from_str("indexer returned a Torznab error response"),
            TorznabError::InvalidXml => String::from_str("invalid Torznab XML"),
        }
    }
}

// ---------------------------------------------------------------------------
// Field updates of a result item
// ---------------------------------------------------------------------------

/// `str::parse::<u64>` as an optional value.
pub open spec fn u64_of(s: Seq<char>) -> Option<u64> {
    match parse_unsigned(s, u64::MAX as nat) {
        Some(v) => Some(v as u64),
        None => None,
    }
}

pub fn u64_of_exec(s: &[char]) -> (r: Option<u64>)
    ensures
        r == u64_of(s@),
{
    parse_u64(s)
}

/// A link goes to `magnet` when it is a magnet URI, otherwise (when not
/// empty) to `download`.
pub open spec fn set_link(item: TorrentView, value: Seq<char>) -> TorrentView {
    if has_prefix(value, "magnet:"@) {
        TorrentView { magnet: Some(value), ..item }
    } else if value.len() > 0 {
        TorrentView { download: Some(value), ..item }
    } else {
        item
    }
}

/// An `<enclosure>`: its `url` is a link, and its `length` gives the size
/// unless one is known already.
pub open spec fn apply_enclosure(item: TorrentView, m: Seq<(Seq<char>, Seq<char>)>) -> TorrentView {
    let linked = match attr_lookup(m, "url"@) {
        Some(u) => set_link(item, u),
        None => item,
    };
    if linked.size_bytes is None {
        TorrentView {
            size_bytes: match attr_lookup(m, "length"@) {
                Some(l) => u64_of(l),
                None => None,
            },
            ..linked
        }
    } else {
        linked
    }
}

/// A `<torznab:attr name=.. value=..>` applied to an item.
pub open spec fn apply_named_attr(item: TorrentView, name: Seq<char>, value: Seq<char>) -> TorrentView {
    if name == "magneturl"@ {
        TorrentView { magnet: Some(value), ..item }
    } else if name == "seeders"@ {
        TorrentView { seeders: u64_of(value), ..item }
    } else if name == "peers"@ || name == "leechers"@ {
        TorrentView { leechers: u64_of(value), ..item }
    } else if name == "grabs"@ || name == "downloads"@ {
        TorrentView { grabs: u64_of(value), ..item }
    } else if name == "size"@ {
        TorrentView { size_bytes: u64_of(value), ..item }
    } else if name == "infohash"@ && item.magnet is None {
        TorrentView { magnet: Some("magnet:?xt=urn:btih:"@ + value), ..item }
    } else {
        item
    }
}

/// An attribute element needs both `name` and `value`; otherwise it is
/// ignored.
pub open spec fn set_torznab_attr(item: TorrentView, m: Seq<(Seq<char>, Seq<char>)>) -> TorrentView {
    match (attr_lookup(m, "name"@), attr_lookup(m, "value"@)) {
        (Some(n), Some(v)) => apply_named_attr(item, n, v),
        _ => item,
    }
}

/// What a `<torznab:attr>` element with attributes `m` does to an item,
/// by the value of its `name` attribute (the last one wins, as when the
/// attributes are collected into a map): `seeders` sets the seeders,
/// `peers` or `leechers` the leechers, `grabs` or `downloads` the grabs,
/// `size` the size (each read as a number), `magneturl` the magnet link,
/// and `infohash` a magnet link for that hash when there is none yet. Each
/// changes only that field; any other name, or a missing `name` or
/// `value`, leaves the item as it is.
pub proof fn law_torznab_attr(item: TorrentView, m: Seq<(Seq<char>, Seq<char>)>)
    ensures
        ({
            let r = set_torznab_attr(item, m);
            match (attr_lookup(m, "name"@), attr_lookup(m, "value"@)) {
                (Some(n), Some(v)) => {
                    &&& (n == "seeders"@ ==> r == TorrentView { seeders: u64_of(v), ..item })
                    &&& (n == "peers"@ || n == "leechers"@ ==> r == TorrentView { leechers: u64_of(v), ..item })
                    &&& (n == "grabs"@ || n == "downloads"@ ==> r == TorrentView { grabs: u64_of(v), ..item })
                    &&& (n == "size"@ ==> r == TorrentView { size_bytes: u64_of(v), ..item })
                    &&& (n == "magneturl"@ ==> r == TorrentView { magnet: Some(v), ..item })
                    &&& (n == "infohash"@ && item.magnet is None ==> r == TorrentView {
                        magnet: Some("magnet:?xt=urn:btih:"@ + v),
                        ..item
                    })
                    &&& (n == "infohash"@ && item.magnet is Some ==> r == item)
                    &&& (n != "seeders"@ && n != "peers"@ && n != "leechers"@ && n != "grabs"@
                        && n != "downloads"@ && n != "size"@ && n != "magneturl"@ && n != "infohash"@
                        ==> r == item)
                },
                _ => r == item,
            }
        }),
{
    reveal_strlit("seeders");
    reveal_strlit("peers");
    reveal_strlit("leechers");
    reveal_strlit("grabs");
    reveal_strlit("downloads");
    reveal_strlit("size");
    reveal_strlit("magneturl");
    reveal_strlit("infohash");
    let names: Seq<Seq<char>> = seq!["magneturl"@, "seeders"@, "peers"@, "leechers"@, "grabs"@, "downloads"@, "size"@, "infohash"@];
    assert forall|i: int, j: int| 0 <= i < j < 8 implies names[i] != names[j] by {
        if names[i] == names[j] {
            assert(names[i].len() == names[j].len());
            assert(names[i][0] == names[j][0]);
            assert(names[i][1] == names[j][1]);
        }
    }
}

/// The text of a child element of an item, stored by the element's name.
/// Empty texts are ignored.
pub open spec fn set_text_field(item: TorrentView, name: Seq<char>, value: Seq<char>) -> TorrentView {
    if value.len() == 0 {
        item
    } else if name == "title"@ {
        TorrentView { title: value, ..item }
    } else if name == "guid"@ || name == "link"@ {
        if has_prefix(value, "magnet:"@) {
            TorrentView { magnet: Some(value), ..item }
        } else if name == "link"@ {
            TorrentView { details: Some(value), ..item }
        } else {
            item
        }
    } else if name == "category"@ {
        TorrentView { category: Some(value), ..item }
    } else if name == "pubDate"@ || name == "published"@ {
        TorrentView { published: Some(value), ..item }
    } else if name == "size"@ && item.size_bytes is None {
        TorrentView { size_bytes: u64_of(value), ..item }
    } else {
        item
    }
}

/// What the text of an item's child element does, by the element's name:
/// `title` sets the title, `category` the category, `pubDate` or
/// `published` the date, `size` the size when none is known (read as a
/// number); a `link` or `guid` holding a magnet URI sets the magnet link,
/// any other `link` the details page. Each changes only that field; an
/// empty text, a `guid` that is no magnet URI, and any other element leave
/// the item as it is.
pub proof fn law_text_field(item: TorrentView, name: Seq<char>, value: Seq<char>)
    ensures
        ({
            let r = set_text_field(item, name, value);
            let magnet = value.len() >= 7 && value.take(7) == "magnet:"@;
            &&& (value.len() == 0 ==> r == item)
            &&& (value.len() > 0 && name == "title"@ ==> r == TorrentView { title: value, ..item })
            &&& (value.len() > 0 && name == "category"@ ==> r == TorrentView { category: Some(value), ..item })
            &&& (value.len() > 0 && (name == "pubDate"@ || name == "published"@) ==> r == TorrentView {
                published: Some(value),
                ..item
            })
            &&& (value.len() > 0 && name == "size"@ && item.size_bytes is None ==> r == TorrentView {
                size_bytes: u64_of(value),
                ..item
            })
            &&& (value.len() > 0 && name == "size"@ && item.size_bytes is Some ==> r == item)
            &&& ((name == "link"@ || name == "guid"@) && magnet ==> r == TorrentView { magnet: Some(value), ..item })
            &&& (value.len() > 0 && name == "link"@ && !magnet ==> r == TorrentView { details: Some(value), ..item })
            &&& (name == "guid"@ && !magnet ==> r == item)
            &&& (name != "title"@ && name != "category"@ && name != "pubDate"@ && name != "published"@
                && name != "size"@ && name != "link"@ && name != "guid"@ ==> r == item)
        }),
{
    reveal_strlit("title");
    reveal_strlit("category");
    reveal_strlit("pubDate");
    reveal_strlit("published");
    reveal_strlit("size");
    reveal_strlit("link");
    reveal_strlit("guid");
    reveal_strlit("magnet:");
    let names: Seq<Seq<char>> = seq!["title"@, "guid"@, "link"@, "category"@, "pubDate"@, "published"@, "size"@];
    assert forall|i: int, j: int| 0 <= i < j < 7 implies names[i] != names[j] by {
        if names[i] == names[j] {
            assert(names[i].len() == names[j].len());
            assert(names[i][0] == names[j][0]);
            assert(names[i][1] == names[j][1]);
        }
    }
}

/// An `<enclosure>` with attributes `m`: its `url` becomes the magnet link
/// when it is a magnet URI, otherwise (when not empty) the download link;
/// its `length` gives the size unless one is known. Nothing else changes.
pub proof fn law_enclosure(item: TorrentView, m: Seq<(Seq<char>, Seq<char>)>)
    ensures
        ({
            let r = apply_enclosure(item, m);
            &&& r.title == item.title && r.seeders == item.seeders && r.leechers == item.leechers
            &&& r.grabs == item.grabs && r.details == item.details && r.category == item.category
            &&& r.published == item.published && r.sources == item.sources && r.source == item.source
            &&& (item.size_bytes is Some ==> r.size_bytes == item.size_bytes)
            &&& (item.size_bytes is None ==> r.size_bytes == match attr_lookup(m, "length"@) {
                Some(l) => u64_of(l),
                None => None,
            })
            &&& match attr_lookup(m, "url"@) {
                Some(u) => if u.len() >= 7 && u.take(7) == "magnet:"@ {
                    r.magnet == Some(u) && r.download == item.download
                } else if u.len() > 0 {
                    r.download == Some(u) && r.magnet == item.magnet
                } else {
                    r.download == item.download && r.magnet == item.magnet
                },
                None => r.download == item.download && r.magnet == item.magnet,
            }
        }),
{
    reveal_strlit("magnet:");
}

fn text_of(v: &[char]) -> (r: Option<String>)
    ensures
        r matches Some(s) && s@ == v@,
{
    Some(string_from_chars(v))
}

fn set_link_exec(item: &mut Torrent, value: &[char])
    ensures
        final(item)@ == set_link(old(item)@, value@),
{
    if starts_with_str(value, "magnet:") {
        item.magnet = text_of(value);
    } else if value.len() > 0 {
        item.download = text_of(value);
    }
}

fn apply_enclosure_exec(item: &mut Torrent, m: &Vec<(Vec<char>, Vec<char>)>)
    ensures
        final(item)@ == apply_enclosure(old(item)@, attr_map_view(m@)),
{
    match attr_lookup_exec(m, "url") {
        Some(u) => set_link_exec(item, u.as_slice()),
        None => {},
    }
    if item.size_bytes.is_none() {
        item.size_bytes = match attr_lookup_exec(m, "length") {
            Some(l) => u64_of_exec(l.as_slice()),
            None => None,
        };
    }
}

fn apply_named_attr_exec(item: &mut Torrent, name: &[char], value: &[char])
    ensures
        final(item)@ == apply_named_attr(old(item)@, name@, value@),
{
    if chars_are(name, "magneturl") {
        item.magnet = text_of(value);
    } else if chars_are(name, "seeders") {
        item.seeders = u64_of_exec(value);
    } else if chars_are(name, "peers") || chars_are(name, "leechers") {
        item.leechers = u64_of_exec(value);
    } else if chars_are(name, "grabs") || chars_are(name, "downloads") {
        item.grabs = u64_of_exec(value);
    } else if chars_are(name, "size") {
        item.size_bytes = u64_of_exec(value);
    } else if chars_are(name, "infohash") && item.magnet.is_none() {
        let mut m = chars_of("magnet:?xt=urn:btih:");
        let ghost prefix = m@;
        crate::text::append_chars(&mut m, value);
        item.magnet = Some(string_from_chars(m.as_slice()));
    }
}

fn set_torznab_attr_exec(item: &mut Torrent, m: &Vec<(Vec<char>, Vec<char>)>)
    ensures
        final(item)@ == set_torznab_attr(old(item)@, attr_map_view(m@)),
{
    let name = attr_lookup_exec(m, "name");
    let value = attr_lookup_exec(m, "value");
    match (name, value) {
        (Some(n), Some(v)) => apply_named_attr_exec(item, n.as_slice(), v.as_slice()),
        _ => {},
    }
}

fn set_text_field_exec(item: &mut Torrent, name: &[char], value: &[char])
    ensures
        final(item)@ == set_text_field(old(item)@, name@, value@),
{
    if value.len() == 0 {
        return ;
    }
    if chars_are(name, "title") {
        item.title = string_from_chars(value);
    } else if chars_are(name, "guid") || chars_are(name, "link") {
        if starts_with_str(value, "magnet:") {
            item.magnet = text_of(value);
        } else if chars_are(name, "link") {
            item.details = text_of(value);
        }
    } else if chars_are(name, "category") {
        item.category = text_of(value);
    } else if chars_are(name, "pubDate") || chars_are(name, "published") {
        item.published = text_of(value);
    } else if chars_are(name, "size") && item.size_bytes.is_none() {
        item.size_bytes = u64_of_exec(value);
    }
}

// ---------------------------------------------------------------------------
// The feed reader as a fold over the tokenizer's events
// ---------------------------------------------------------------------------

/// Where the feed reader stands: the finished items, the item being read
/// (if inside one), and the child element whose text is expected.
pub ghost struct FeedState {
    pub results: Seq<TorrentView>,
    pub current: Option<TorrentView>,
    pub field: Option<Seq<char>>,
}

pub open spec fn feed_start() -> FeedState {
    FeedState { results: seq![], current: None, field: None }
}

pub open spec fn decoded_attributes(a: Option<Seq<(Seq<u8>, Seq<u8>)>>) -> Option<
    Seq<(Seq<char>, Seq<char>)>,
> {
    match a {
        Some(raw) => decode_attributes(raw),
        None => None,
    }
}

/// One event applied to the reader state; `None` is a failure.
pub open spec fn feed_step(st: FeedState, ev: XmlEventView) -> Option<FeedState> {
    match ev {
        XmlEventView::Tag { name, attributes, empty } => {
            let n = local_name(name);
            if !empty && n == "item"@ {
                Some(FeedState { current: Some(empty_torrent()), field: None, ..st })
            } else {
                match st.current {
                    None => Some(st),
                    Some(item) => if n == "enclosure"@ {
                        match decoded_attributes(attributes) {
                            None => None,
                            Some(m) => Some(
                                FeedState {
                                    current: Some(apply_enclosure(item, m)),
                                    field: if empty { st.field } else { None },
                                    ..st
                                },
                            ),
                        }
                    } else if n == "attr"@ {
                        match decoded_attributes(attributes) {
                            None => None,
                            Some(m) => Some(
                                FeedState {
                                    current: Some(set_torznab_attr(item, m)),
                                    field: if empty { st.field } else { None },
                                    ..st
                                },
                            ),
                        }
                    } else if empty {
                        Some(st)
                    } else {
                        Some(FeedState { field: Some(n), ..st })
                    },
                }
            }
        },
        XmlEventView::End { name } => {
            let n = local_name(name);
            if n == "item"@ {
                Some(
                    FeedState {
                        results: match st.current {
                            Some(item) => if item.title.len() > 0 {
                                st.results.push(item)
                            } else {
                                st.results
                            },
                            None => st.results,
                        },
                        current: None,
                        field: None,
                    },
                )
            } else if st.field == Some(n) {
                Some(FeedState { field: None, ..st })
            } else {
                Some(st)
            }
        },
        XmlEventView::Text { raw } => text_step(st, raw),
        XmlEventView::CData { raw } => text_step(st, raw),
        XmlEventView::Other => Some(st),
        XmlEventView::Eof => Some(st),
        XmlEventView::Error => None,
    }
}

pub open spec fn text_step(st: FeedState, raw: Seq<u8>) -> Option<FeedState> {
    match (st.current, st.field) {
        (Some(item), Some(f)) => match xml_text(raw) {
            None => None,
            Some(v) => Some(FeedState { current: Some(set_text_field(item, f, v)), ..st }),
        },
        _ => Some(st),
    }
}

/// The reader state after the first `n` events of `text`.
pub open spec fn feed_fold(text: Seq<char>, n: nat) -> Option<FeedState>
    decreases n,
{
    if n == 0 {
        Some(feed_start())
    } else {
        match feed_fold(text, (n - 1) as nat) {
            None => None,
            Some(st) => feed_step(st, xml_event(text, (n - 1) as nat)),
        }
    }
}

/// `text` is read successfully into `results`: its `n`-th event is the end
/// of input, none before it ends the input or fails, and the reader state
/// after them holds `results`.
pub open spec fn feed_accepts(text: Seq<char>, n: nat, results: Seq<TorrentView>) -> bool {
    &&& forall|i: nat| i < n ==> !(#[trigger] xml_event(text, i)).is_terminal()
    &&& xml_event(text, n) is Eof
    &&& feed_fold(text, n) matches Some(st)
    &&& st.results == results
}

/// `text` is a feed whose results are `results`.
pub open spec fn feed_parses_to(text: Seq<char>, results: Seq<TorrentView>) -> bool {
    exists|n: nat| feed_accepts(text, n, results)
}

/// Every finished item in `results` has a title.
pub open spec fn all_titled(results: Seq<TorrentView>) -> bool {
    forall|i: int| 0 <= i < results.len() ==> (#[trigger] results[i]).title.len() > 0
}

proof fn lemma_fold_titled(text: Seq<char>, n: nat)
    ensures
        feed_fold(text, n) matches Some(st) ==> all_titled(st.results),
    decreases n,
{
    if n > 0 {
        lemma_fold_titled(text, (n - 1) as nat);
        if let Some(st) = feed_fold(text, (n - 1) as nat) {
            if let Some(next) = feed_step(st, xml_event(text, (n - 1) as nat)) {
                assert forall|i: int| 0 <= i < next.results.len() implies (#[trigger] next.results[i]).title.len() > 0 by {
                    if i < st.results.len() {
                        assert(next.results[i] == st.results[i]);
                    }
                }
            }
        }
    }
}

/// Items without a title are dropped as malformed: every result that a
/// feed is read into has a non-empty title.
pub proof fn law_feed_results_have_titles(text: Seq<char>, results: Seq<TorrentView>)
    requires
        feed_parses_to(text, results),
    ensures
        all_titled(results),
{
    let n = choose|n: nat| feed_accepts(text, n, results);
    lemma_fold_titled(text, n);
}

pub open spec fn as_state(results: Seq<Torrent>, open: bool, item: Torrent, field: Option<Vec<char>>) -> FeedState {
    FeedState {
        results: torrent_views(results),
        current: if open { Some(item@) } else { None },
        field: match field {
            Some(f) => Some(f@),
            None => None,
        },
    }
}

/// The views of a list of events.
pub open spec fn event_views(evs: Seq<XmlEvent>) -> Seq<XmlEventView> {
    evs.map_values(|e: XmlEvent| e@)
}

/// The reader state after the events `evs`, in order.
pub open spec fn fold_events(evs: Seq<XmlEventView>) -> Option<FeedState>
    decreases evs.len(),
{
    if evs.len() == 0 {
        Some(feed_start())
    } else {
        match fold_events(evs.drop_last()) {
            None => None,
            Some(st) => feed_step(st, evs.last()),
        }
    }
}

/// The events `evs` are read successfully into `results`: event `n` is the
/// end of input, none before it ends the input or fails, and the reader
/// state after them holds `results`.
pub open spec fn events_accept_at(evs: Seq<XmlEventView>, n: int, results: Seq<TorrentView>) -> bool {
    &&& 0 <= n < evs.len()
    &&& forall|i: int| 0 <= i < n ==> !(#[trigger] evs[i]).is_terminal()
    &&& evs[n] is Eof
    &&& fold_events(evs.take(n)) matches Some(st)
    &&& st.results == results
}

/// The events `evs` are a feed whose results are `results`.
pub open spec fn events_accept(evs: Seq<XmlEventView>, results: Seq<TorrentView>) -> bool {
    exists|n: int| events_accept_at(evs, n, results)
}

proof fn lemma_fold_events_fails(evs: Seq<XmlEventView>, j: int, n: int)
    requires
        0 <= j <= n <= evs.len(),
        fold_events(evs.take(j)) is None,
    ensures
        fold_events(evs.take(n)) is None,
    decreases n - j,
{
    if j < n {
        lemma_fold_events_fails(evs, j, n - 1);
        assert(evs.take(n).drop_last() =~= evs.take(n - 1));
    }
}

/// Nothing is accepted once event `j` (not the end of input) fails or is
/// an error, when no event before it ended the input.
proof fn lemma_events_reject(evs: Seq<XmlEventView>, j: int)
    requires
        0 <= j < evs.len(),
        forall|i: int| 0 <= i < j ==> !(#[trigger] evs[i]).is_terminal(),
        !(evs[j] is Eof),
        fold_events(evs.take(j + 1)) is None || evs[j] is Error,
    ensures
        forall|v: Seq<TorrentView>| !events_accept(evs, v),
{
    assert forall|v: Seq<TorrentView>| !events_accept(evs, v) by {
        assert forall|n: int| !events_accept_at(evs, n, v) by {
            if events_accept_at(evs, n, v) {
                if n < j {
                    assert(!evs[n].is_terminal());
                } else if n == j {
                } else if evs[j] is Error {
                    assert(!evs[j].is_terminal());
                } else {
                    lemma_fold_events_fails(evs, j + 1, n);
                }
            }
        }
    }
}

/// Reads the tokenizer's events of a Torznab RSS search response into
/// normalized results: the events up to the end of input are folded by
/// `feed_step`. Items without a title are dropped as malformed rather than
/// surfaced as empty results.
pub fn read_feed_events(events: &Vec<XmlEvent>) -> (r: Result<Vec<Torrent>, TorznabError>)
    ensures
        r matches Ok(v) ==> events_accept(event_views(events@), torrent_views(v@)),
        r matches Err(e) ==> e == TorznabError::InvalidXml,
        r is Err ==> forall|v: Seq<TorrentView>| !events_accept(event_views(events@), v),
{
    let ghost evs = event_views(events@);
    let mut results: Vec<Torrent> = Vec::new();
    let mut open = false;
    let mut item = Torrent::default();
    let mut field: Option<Vec<char>> = None;
    let mut k: usize = 0;
    assert(torrent_views(results@) =~= Seq::<TorrentView>::empty());
    assert(evs.take(0) =~= Seq::<XmlEventView>::empty());
    while k < events.len()
        invariant
            evs == event_views(events@),
            k <= events@.len(),
            forall|i: int| 0 <= i < k ==> !(#[trigger] evs[i]).is_terminal(),
            fold_events(evs.take(k as int)) == Some(as_state(results@, open, item, field)),
        decreases events@.len() - k,
    {
        let ghost st = as_state(results@, open, item, field);
        assert(evs.take(k + 1).drop_last() =~= evs.take(k as int));
        assert(evs[k as int] == events@[k as int]@);
        assert(fold_events(evs.take(k + 1)) == feed_step(st, evs[k as int]));
        match &events[k] {
            XmlEvent::Eof => {
                assert(events_accept_at(evs, k as int, torrent_views(results@)));
                return Ok(results);
            },
            XmlEvent::Error => {
                proof {
                    lemma_events_reject(evs, k as int);
                }
                return Err(TorznabError::InvalidXml);
            },
            XmlEvent::Other => {},
            XmlEvent::Tag(name, attributes, empty) => {
                let n = local_name_exec(name.as_slice());
                if !*empty && chars_are(n.as_slice(), "item") {
                    open = true;
                    item = Torrent::default();
                    field = None;
                } else if open {
                    let is_enclosure = chars_are(n.as_slice(), "enclosure");
                    let is_attr = chars_are(n.as_slice(), "attr");
                    if is_enclosure || is_attr {
                        let decoded = match attributes {
                            Some(a) => decode_attributes_exec(a),
                            None => None,
                        };
                        match decoded {
                            Some(m) => {
                                if is_enclosure {
                                    apply_enclosure_exec(&mut item, &m);
                                } else {
                                    set_torznab_attr_exec(&mut item, &m);
                                }
                                if !*empty {
                                    field = None;
                                }
                            },
                            None => {
                                proof {
                                    lemma_events_reject(evs, k as int);
                                }
                                return Err(TorznabError::InvalidXml);
                            },
                        }
                    } else if !*empty {
                        field = Some(n);
                    }
                }
            },
            XmlEvent::End(name) => {
                let n = local_name_exec(name.as_slice());
                if chars_are(n.as_slice(), "item") {
                    if open && !item.title.as_str().is_empty() {
                        let mut done = Torrent::default();
                        std::mem::swap(&mut done, &mut item);
                        results.push(done);
                        assert(torrent_views(results@) =~= st.results.push(done@));
                    }
                    open = false;
                    field = None;
                } else {
                    let same = match &field {
                        Some(f) => crate::text::same_chars(f.as_slice(), n.as_slice()),
                        None => false,
                    };
                    if same {
                        field = None;
                    }
                }
            },
            XmlEvent::Text(raw) => {
                if !text_event(&mut item, open, &field, raw) {
                    proof {
                        lemma_events_reject(evs, k as int);
                    }
                    return Err(TorznabError::InvalidXml);
                }
            },
            XmlEvent::CData(raw) => {
                if !text_event(&mut item, open, &field, raw) {
                    proof {
                        lemma_events_reject(evs, k as int);
                    }
                    return Err(TorznabError::InvalidXml);
                }
            },
        }
        k = k + 1;
    }
    proof {
        assert forall|v: Seq<TorrentView>| !events_accept(evs, v) by {
            assert forall|n: int| !events_accept_at(evs, n, v) by {
                if events_accept_at(evs, n, v) {
                    assert(!evs[n].is_terminal());
                }
            }
        }
    }
    Err(TorznabError::InvalidXml)
}

/// The event list read from `text` agrees with the tokenizer's events, so
/// folding a prefix of it is folding that many of the document's events.
proof fn lemma_fold_events_matches(text: Seq<char>, evs: Seq<XmlEventView>, n: int)
    requires
        0 <= n <= evs.len(),
        forall|i: int| 0 <= i < evs.len() ==> #[trigger] evs[i] == xml_event(text, i as nat),
    ensures
        fold_events(evs.take(n)) == feed_fold(text, n as nat),
    decreases n,
{
    if n > 0 {
        lemma_fold_events_matches(text, evs, n - 1);
        assert(evs.take(n).drop_last() =~= evs.take(n - 1));
        assert(evs.take(n).last() == evs[n - 1]);
    } else {
        assert(evs.take(0) =~= Seq::<XmlEventView>::empty());
    }
}

/// Parses a Torznab RSS search response into normalized results: reads the
/// document's events up to the end of input or an error, then reads them
/// into results with `read_feed_events`.
pub fn parse_feed(xml: &str) -> (r: Result<Vec<Torrent>, TorznabError>)
    ensures
        r matches Ok(v) ==> feed_parses_to(xml@, torrent_views(v@)),
        r matches Err(e) ==> e == TorznabError::InvalidXml,
        r is Err ==> forall|n: nat, v: Seq<TorrentView>| !feed_accepts(xml@, n, v),
{
    let mut cursor = XmlCursor::new(xml);
    let mut events: Vec<XmlEvent> = Vec::new();
    loop
        invariant_except_break
            events@.len() == cursor.index(),
            forall|i: int| 0 <= i < events@.len() ==> !(#[trigger] events@[i]@).is_terminal(),
            xml_offset(xml@, cursor.index()) <= byte_len(xml@),
        invariant
            cursor.source() == xml@,
            forall|i: int| 0 <= i < events@.len() ==> (#[trigger] events@[i])@ == xml_event(xml@, i as nat),
        ensures
            events@.len() > 0,
            events@.last()@.is_terminal(),
            forall|i: int| 0 <= i < events@.len() - 1 ==> !(#[trigger] events@[i]@).is_terminal(),
        decreases byte_len(xml@) - xml_offset(xml@, cursor.index()),
    {
        let ghost k = cursor.index();
        let ev = cursor.next_event();
        let terminal = match &ev {
            XmlEvent::Eof | XmlEvent::Error => true,
            _ => false,
        };
        let ghost before = events@;
        events.push(ev);
        assert(events@[k as int] == ev);
        assert(forall|i: int| 0 <= i < before.len() ==> events@[i] == before[i]);
        if terminal {
            break;
        }
    }
    let ghost evs = event_views(events@);
    let ghost last = events@.len() - 1;
    proof {
        assert forall|i: int| 0 <= i < evs.len() implies #[trigger] evs[i] == xml_event(xml@, i as nat) by {
            assert(evs[i] == events@[i]@);
        }
    }
    let r = read_feed_events(&events);
    proof {
        assert forall|n: nat, v: Seq<TorrentView>| feed_accepts(xml@, n, v) <==> events_accept_at(evs, n as int, v) by {
            if feed_accepts(xml@, n, v) {
                if n < last {
                    assert(!evs[n as int].is_terminal());
                } else if n > last {
                    assert(!xml_event(xml@, last as nat).is_terminal());
                    assert(evs[last] == events@[last]@);
                }
                lemma_fold_events_matches(xml@, evs, n as int);
            }
            if events_accept_at(evs, n as int, v) {
                lemma_fold_events_matches(xml@, evs, n as int);
                assert forall|i: nat| i < n implies !(#[trigger] xml_event(xml@, i)).is_terminal() by {
                    assert(!evs[i as int].is_terminal());
                }
            }
        }
        if r is Err {
            assert forall|n: nat, v: Seq<TorrentView>| !feed_accepts(xml@, n, v) by {
                if feed_accepts(xml@, n, v) {
                    assert(events_accept_at(evs, n as int, v));
                    assert(events_accept(evs, v));
                }
            }
        }
        if r is Ok {
            let v = torrent_views(r->Ok_0@);
            let n = choose|n: int| events_accept_at(evs, n, v);
            assert(feed_accepts(xml@, n as nat, v));
        }
    }
    r
}

/// Applies a text event to the item being read; false when it fails.
fn text_event(item: &mut Torrent, open: bool, field: &Option<Vec<char>>, raw: &Vec<u8>) -> (ok: bool)
    ensures
        ({
            let st = FeedState {
                results: seq![],
                current: if open { Some(old(item)@) } else { None },
                field: match field {
                    Some(f) => Some(f@),
                    None => None,
                },
            };
            match text_step(st, raw@) {
                None => !ok,
                Some(next) => ok && next.current == (if open { Some(final(item)@) } else { None }),
            }
        }),
        !open ==> final(item)@ == old(item)@,
{
    if !open {
        return true;
    }
    match field {
        None => true,
        Some(f) => match decode_xml_text(raw.as_slice()) {
            None => false,
            Some(v) => {
                let vc = chars_of(v.as_str());
                set_text_field_exec(item, f.as_slice(), vc.as_slice());
                true
            },
        },
    }
}


// ---------------------------------------------------------------------------
// The root element of a document
// ---------------------------------------------------------------------------

/// Events that settle what the root element is: a tag, the end of input
/// or an error. Declarations, comments, doctypes, text and the like before
/// the root are passed over.
pub open spec fn settles_root(ev: XmlEventView) -> bool {
    ev is Tag || ev is Eof || ev is Error
}

/// The `n`-th event of `text` is the first one that settles the root.
pub open spec fn root_event_at(text: Seq<char>, n: nat) -> bool {
    &&& forall|i: nat| i < n ==> !settles_root(#[trigger] xml_event(text, i))
    &&& settles_root(xml_event(text, n))
}

/// The root element of `text` has the local name `name`.
pub open spec fn root_named(text: Seq<char>, name: Seq<char>) -> bool {
    exists|n: nat| #[trigger]
        root_event_at(text, n) && (xml_event(text, n) matches XmlEventView::Tag { name: q, .. }
            && local_name(q) == name)
}

/// Whether the root element of `xml` has the local name `name`; false for
/// a document that ends or fails before any element.
fn root_is(xml: &str, name: &str) -> (r: bool)
    ensures
        r == root_named(xml@, name@),
{
    let mut cursor = XmlCursor::new(xml);
    loop
        invariant
            cursor.source() == xml@,
            forall|i: nat| i < cursor.index() ==> !settles_root(#[trigger] xml_event(xml@, i)),
            xml_offset(xml@, cursor.index()) <= byte_len(xml@),
        decreases byte_len(xml@) - xml_offset(xml@, cursor.index()),
    {
        let ghost k = cursor.index();
        let ev = cursor.next_event();
        match ev {
            XmlEvent::Tag(q, ..) => {
                let n = local_name_exec(q.as_slice());
                let found = chars_are(n.as_slice(), name);
                proof {
                    assert(root_event_at(xml@, k));
                    if !found {
                        assert forall|m: nat| !(#[trigger] root_event_at(xml@, m) && (xml_event(
                            xml@,
                            m,
                        ) matches XmlEventView::Tag { name: q2, .. } && local_name(q2)
                            == name@)) by {
                            if root_event_at(xml@, m) && m > k {
                                assert(settles_root(xml_event(xml@, k)));
                            }
                        }
                    }
                }
                return found;
            },
            XmlEvent::Eof | XmlEvent::Error => {
                proof {
                    assert forall|m: nat| !(#[trigger] root_event_at(xml@, m) && (xml_event(
                        xml@,
                        m,
                    ) matches XmlEventView::Tag { name: q2, .. } && local_name(q2) == name@)) by {
                        if root_event_at(xml@, m) && m > k {
                            assert(settles_root(xml_event(xml@, k)));
                        }
                    }
                }
                return false;
            },
            _ => {},
        }
    }
}

/// Returns true if `xml` is a Torznab capability document, i.e. its root
/// element is `<caps>`. This is the sole basis for treating an HTTP service
/// as a Torznab indexer.
pub fn is_caps_document(xml: &str) -> (r: bool)
    ensures
        r == root_named(xml@, "caps"@),
{
    root_is(xml, "caps")
}

/// Returns true if `xml` is a Torznab error document (root `<error>`).
pub fn is_error_document(xml: &str) -> (r: bool)
    ensures
        r == root_named(xml@, "error"@),
{
    root_is(xml, "error")
}

/// Parses a response, treating a Torznab `<error>` document as a hard
/// failure rather than an empty result set.
pub fn parse_search_response(body: &str) -> (r: Result<Vec<Torrent>, TorznabError>)
    ensures
        (r == Err::<Vec<Torrent>, TorznabError>(TorznabError::ErrorResponse)) <==> root_named(body@, "error"@),
        r is Ok <==> !root_named(body@, "error"@) && exists|v: Seq<TorrentView>| feed_parses_to(body@, v),
        r matches Err(e) ==> e == TorznabError::ErrorResponse || e == TorznabError::InvalidXml,
        r matches Ok(v) ==> feed_parses_to(body@, torrent_views(v@)),
{
    if is_error_document(body) {
        return Err(TorznabError::ErrorResponse);
    }
    parse_feed(body)
}
// ---------------------------------------------------------------------------
// Request URLs
// ---------------------------------------------------------------------------

/// The serialization after appending each of `pairs`, in order, to the
/// query of the URL serialized as `url`.
pub open spec fn appended_pairs(url: Seq<char>, pairs: Seq<(Seq<char>, Seq<char>)>) -> Seq<char>
    decreases pairs.len(),
{
    if pairs.len() == 0 {
        url
    } else {
        url_append_pair(appended_pairs(url, pairs.drop_last()), pairs.last().0, pairs.last().1)
    }
}

/// The request URL: the endpoint's own query kept, then `pairs`, then the
/// `apikey` parameter when a key is given.
pub open spec fn request_url(endpoint: Seq<char>, pairs: Seq<(Seq<char>, Seq<char>)>, api_key: Option<Seq<char>>) -> Seq<char> {
    let u = appended_pairs(endpoint, pairs);
    match api_key {
        Some(k) => url_append_pair(u, "apikey"@, k),
        None => u,
    }
}

pub open spec fn str_pair_views(v: Seq<(&str, &str)>) -> Seq<(Seq<char>, Seq<char>)> {
    v.map_values(|p: (&str, &str)| (p.0@, p.1@))
}

/// Builds a request URL from an endpoint, keeping the endpoint's existing
/// query parameters.
pub fn build_url(endpoint: &WebUrl, pairs: &[(&str, &str)], api_key: Option<&str>) -> (r: WebUrl)
    ensures
        r@ == request_url(
            endpoint@,
            str_pair_views(pairs@),
            match api_key {
                Some(k) => Some(k@),
                None => None,
            },
        ),
        url_query_pairs(r@) == url_query_pairs(endpoint@) + str_pair_views(pairs@) + match api_key {
            Some(k) => seq![("apikey"@, k@)],
            None => Seq::<(Seq<char>, Seq<char>)>::empty(),
        },
{
    let mut url = endpoint.duplicate();
    let mut i: usize = 0;
    while i < pairs.len()
        invariant
            i <= pairs@.len(),
            url@ == appended_pairs(endpoint@, str_pair_views(pairs@).take(i as int)),
            url_query_pairs(url@) == url_query_pairs(endpoint@) + str_pair_views(pairs@).take(i as int),
        decreases pairs@.len() - i,
    {
        let (key, value) = pairs[i];
        assert(str_pair_views(pairs@).take(i + 1).drop_last() =~= str_pair_views(pairs@).take(i as int));
        url.append_pair(key, value);
        i = i + 1;
        assert(str_pair_views(pairs@).take(i as int) =~= str_pair_views(pairs@).take(i - 1).push(str_pair_views(pairs@)[i - 1]));
    }
    assert(str_pair_views(pairs@).take(pairs@.len() as int) =~= str_pair_views(pairs@));
    if let Some(key) = api_key {
        url.append_pair("apikey", key);
    }
    assert(url_query_pairs(url@) =~= url_query_pairs(endpoint@) + str_pair_views(pairs@) + match api_key {
        Some(k) => seq![("apikey"@, k@)],
        None => Seq::<(Seq<char>, Seq<char>)>::empty(),
    });
    url
}
} // verus!
