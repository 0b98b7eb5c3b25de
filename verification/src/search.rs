//! Search orchestration decisions: the checks on a search request, the
//! fallback batches of sources, attribution of results to their source,
//! and the final ranking of condensed results.
use crate::discover::DiscoveryResult;
use crate::source::Source;
use crate::cache::SEARCH_CACHE_TTL_SECS;
use crate::text::{append_str, chars_of, decimal, push_decimal, string_from_chars, string_views};
use crate::torrent::{
    condense_checked, condense_fits, condense_spec, torrent_views, Torrent, TorrentView,
};
use crate::web_url::{url_parse, WebUrl};
use vstd::prelude::*;

verus! {

// ---------------------------------------------------------------------------
// Request checks
// ---------------------------------------------------------------------------

/// Why a search request is refused before any source is asked.
#[derive(Debug, PartialEq, Eq)]
pub enum SearchError {
    Limit,
    Fanout,
}

impl SearchError {
    pub fn message(&self) -> (r: String)
        ensures
            r@ == match self {
                SearchError::Limit => "--limit must be between 1 and 100"@,
                SearchError::Fanout => "--fanout must be between 1 and 100"@,
            },
    {
        match self {
            SearchError::Limit => String::from_str("--limit must be between 1 and 100"),
            SearchError::Fanout => String::from_str("--fanout must be between 1 and 100"),
        }
    }
}

/// Checks the result limit and the per-batch fanout, in that order.
pub fn validate_search_limits(limit: usize, fanout: usize) -> (r: Result<(), SearchError>)
    ensures
        r == (if !(1 <= limit <= 100) {
            Err(SearchError::Limit)
        } else if !(1 <= fanout <= 100) {
            Err(SearchError::Fanout)
        } else {
            Ok(())
        }),
{
    if !(1 <= limit && limit <= 100) {
        return Err(SearchError::Limit);
    }
    if !(1 <= fanout && fanout <= 100) {
        return Err(SearchError::Fanout);
    }
    Ok(())
}

/// The query words joined by single spaces.
pub open spec fn join_words(words: Seq<Seq<char>>) -> Seq<char>
    decreases words.len(),
{
    if words.len() == 0 {
        seq![]
    } else if words.len() == 1 {
        words[0]
    } else {
        join_words(words.drop_last()) + " "@ + words.last()
    }
}

pub fn join_query(words: &Vec<String>) -> (r: String)
    ensures
        r@ == join_words(string_views(words@)),
{
    let ghost w = string_views(words@);
    let mut out: Vec<char> = Vec::new();
    let mut i: usize = 0;
    assert(w.take(0) =~= Seq::<Seq<char>>::empty());
    while i < words.len()
        invariant
            i <= words@.len(),
            w == string_views(words@),
            out@ == join_words(w.take(i as int)),
        decreases words@.len() - i,
    {
        assert(w.take(i + 1).drop_last() =~= w.take(i as int));
        assert(w[i as int] == words@[i as int]@);
        if i > 0 {
            append_str(&mut out, " ");
        }
        append_str(&mut out, words[i].as_str());
        i = i + 1;
        proof {
            if i == 1 {
                assert(w.take(0) =~= Seq::<Seq<char>>::empty());
            }
        }
    }
    assert(w.take(words@.len() as int) =~= w);
    string_from_chars(out.as_slice())
}

// ---------------------------------------------------------------------------
// Fallback batches
// ---------------------------------------------------------------------------

/// The next batch of sources to ask, as a range of positions: the next
/// `fanout` sources after the `done` already asked, unless results were
/// found or every source was asked.
pub fn next_batch(total: usize, fanout: usize, done: usize, found_results: bool) -> (r: Option<(usize, usize)>)
    requires
        fanout > 0,
        done <= total,
    ensures
        found_results || done == total ==> r is None,
        !found_results && done < total ==> r == Some((done, if total - done < fanout { total } else { (done + fanout) as usize })),
{
    if found_results || done == total {
        return None;
    }
    let end = if total - done < fanout { total } else { done + fanout };
    Some((done, end))
}

/// The pause before a search of one source is tried again, in
/// milliseconds.
pub const TRANSIENT_RETRY_DELAY_MS: u64 = 250;

/// Whether a search of one source is tried again after a failure: once,
/// after the first attempt, and only when it timed out or could not
/// connect. HTTP error statuses and malformed responses are not retried,
/// since they will not resolve on an immediate second attempt.
pub fn retry_after_failure(attempts: usize, timed_out: bool, connect_failed: bool) -> (r: bool)
    ensures
        r == (attempts == 1 && (timed_out || connect_failed)),
{
    attempts == 1 && (timed_out || connect_failed)
}

/// Results from one source, each attributed to it.
pub fn attribute_results(results: Vec<Torrent>, label: &String) -> (r: Vec<Torrent>)
    ensures
        r@.len() == results@.len(),
        forall|i: int| 0 <= i < r@.len() ==> #[trigger] r@[i]@ == (TorrentView {
            source: label@,
            sources: seq![label@],
            ..results@[i]@
        }),
{
    let mut out: Vec<Torrent> = Vec::new();
    let mut rest = results;
    let ghost all = rest@;
    let n = rest.len();
    let mut i: usize = 0;
    assert(all.skip(0) =~= all);
    while i < n
        invariant
            n == all.len(),
            i <= n,
            rest@ == all.skip(i as int),
            out@.len() == i,
            forall|j: int| 0 <= j < i ==> #[trigger] out@[j]@ == (TorrentView {
                source: label@,
                sources: seq![label@],
                ..all[j]@
            }),
        decreases n - i,
    {
        let mut t = rest.remove(0);
        assert(t == all[i as int]);
        t.source = label.clone();
        let mut sources: Vec<String> = Vec::new();
        sources.push(label.clone());
        t.sources = sources;
        assert(string_views(t.sources@) =~= seq![label@]);
        out.push(t);
        i = i + 1;
        assert(rest@ =~= all.skip(i as int));
    }
    out
}

/// The (endpoint, origin) of the source for each verified endpoint whose
/// address parses, in order.
pub open spec fn discovered_sources(results: Seq<DiscoveryResult>) -> Seq<(Seq<char>, Seq<char>)>
    decreases results.len(),
{
    if results.len() == 0 {
        seq![]
    } else {
        let rest = discovered_sources(results.drop_last());
        match url_parse(results.last().endpoint@) {
            Some(u) => rest.push((u, results.last().origin@)),
            None => rest,
        }
    }
}

pub open spec fn source_pairs(v: Seq<Source>) -> Seq<(Seq<char>, Seq<char>)> {
    v.map_values(|s: Source| (s.endpoint@, s.origin@))
}

/// Sources for the endpoints that discovery verified, skipping any whose
/// address does not parse.
pub fn sources_from_discovery(results: &Vec<DiscoveryResult>) -> (r: Vec<Source>)
    ensures
        source_pairs(r@) == discovered_sources(results@),
{
    let mut out: Vec<Source> = Vec::new();
    let mut i: usize = 0;
    assert(results@.take(0) =~= Seq::<DiscoveryResult>::empty());
    while i < results.len()
        invariant
            i <= results@.len(),
            source_pairs(out@) == discovered_sources(results@.take(i as int)),
        decreases results@.len() - i,
    {
        assert(results@.take(i + 1).drop_last() =~= results@.take(i as int));
        assert(results@.take(i + 1).last() == results@[i as int]);
        let ghost before = out@;
        match WebUrl::parse(results[i].endpoint.as_str()) {
            Some(endpoint) => {
                out.push(Source { endpoint, origin: results[i].origin.clone() });
                assert(source_pairs(out@) =~= source_pairs(before).push((out@.last().endpoint@, out@.last().origin@)));
            },
            None => {},
        }
        i = i + 1;
    }
    assert(results@.take(results@.len() as int) =~= results@);
    out
}

/// The message when a search produced nothing: no source returned results
/// (with failures to report), or the query simply matched nothing.
pub open spec fn empty_search_text(query: Seq<char>, any_failures: bool) -> Seq<char> {
    if any_failures {
        "no mirror returned results for: "@ + query + " (use --verbose for request failures)"@
    } else {
        "no results found for: "@ + query
    }
}

pub fn empty_search_message(query: &str, any_failures: bool) -> (r: String)
    ensures
        r@ == empty_search_text(query@, any_failures),
{
    if any_failures {
        let mut out = chars_of("no mirror returned results for: ");
        append_str(&mut out, query);
        append_str(&mut out, " (use --verbose for request failures)");
        string_from_chars(out.as_slice())
    } else {
        let mut out = chars_of("no results found for: ");
        append_str(&mut out, query);
        string_from_chars(out.as_slice())
    }
}

// ---------------------------------------------------------------------------
// The steps of a search run
// ---------------------------------------------------------------------------

/// Whether a search first discovers endpoints through Shodan.
#[derive(Debug, PartialEq, Eq)]
pub enum DiscoveryStep {
    /// Sources are configured and `--shodan` was not given.
    Skip,
    /// `--shodan` asked for discovery.
    Explicit,
    /// Nothing is configured: discover automatically (and say so).
    Automatic,
}

/// Discovery runs when asked for, or automatically when no source is
/// configured, so that a bare `tpb <query>` works with no configuration.
pub fn discovery_step(configured: usize, shodan: bool) -> (r: DiscoveryStep)
    ensures
        shodan ==> r == DiscoveryStep::Explicit,
        !shodan && configured == 0 ==> r == DiscoveryStep::Automatic,
        !shodan && configured > 0 ==> r == DiscoveryStep::Skip,
{
    if shodan {
        DiscoveryStep::Explicit
    } else if configured == 0 {
        DiscoveryStep::Automatic
    } else {
        DiscoveryStep::Skip
    }
}

/// The notice printed before an automatic discovery.
pub const AUTO_DISCOVERY_NOTICE: &'static str = "no mirrors configured; discovering some via Shodan (pass --indexer or set TPB_INDEXERS to skip this)";

/// The error when no source is left to search.
pub const NO_SOURCES_MESSAGE: &'static str = "provide --indexer <endpoint URL>, set TPB_INDEXERS, or add --shodan to discover mirrors";

/// What a finished search does next.
pub enum SearchVerdict {
    /// Print `results`, and save them to the cache when `save_to_cache`.
    Show { results: Vec<Torrent>, save_to_cache: bool },
    /// Nothing to show: print a cached result if `read_cache` finds a fresh
    /// one, else fail with `message`.
    Empty { read_cache: bool, message: String },
}

/// Decides what a search with the ranked results `ranked` does next.
pub fn search_verdict(ranked: Vec<Torrent>, no_cache: bool, any_failures: bool, query: &str) -> (r: SearchVerdict)
    ensures
        ranked@.len() > 0 ==> (r matches SearchVerdict::Show { results, save_to_cache } && results@
            == ranked@ && save_to_cache == !no_cache),
        ranked@.len() == 0 ==> (r matches SearchVerdict::Empty { read_cache, message } && read_cache
            == !no_cache && message@ == empty_search_text(query@, any_failures)),
{
    if ranked.len() > 0 {
        SearchVerdict::Show { results: ranked, save_to_cache: !no_cache }
    } else {
        SearchVerdict::Empty { read_cache: !no_cache, message: empty_search_message(query, any_failures) }
    }
}

/// The warning printed above results read from the cache.
pub fn cached_results_warning() -> (r: String)
    ensures
        r@ == "warning: live mirrors are unavailable; showing a cached result from the last "@
            + decimal((SEARCH_CACHE_TTL_SECS / 60) as nat) + " minutes"@,
{
    let mut out = chars_of("warning: live mirrors are unavailable; showing a cached result from the last ");
    push_decimal(&mut out, (SEARCH_CACHE_TTL_SECS / 60) as u128);
    append_str(&mut out, " minutes");
    string_from_chars(out.as_slice())
}

/// The endpoints of the verified discovery results, in order, as they are
/// saved.
pub fn discovered_endpoints(results: &Vec<DiscoveryResult>) -> (r: Vec<String>)
    ensures
        r@.len() == results@.len(),
        forall|i: int| 0 <= i < r@.len() ==> #[trigger] r@[i]@ == results@[i].endpoint@,
{
    let mut out: Vec<String> = Vec::new();
    let mut i: usize = 0;
    while i < results.len()
        invariant
            i <= results@.len(),
            out@.len() == i,
            forall|j: int| 0 <= j < i ==> #[trigger] out@[j]@ == results@[j].endpoint@,
        decreases results@.len() - i,
    {
        out.push(results[i].endpoint.clone());
        i = i + 1;
    }
    out
}

/// The notice after verified endpoints were saved to `path`.
pub fn saved_endpoints_notice(count: usize, path: &str) -> (r: String)
    ensures
        r@ == "Saved "@ + decimal(count as nat) + " verified endpoint(s) to "@ + path@,
{
    let mut out = chars_of("Saved ");
    push_decimal(&mut out, count as u128);
    append_str(&mut out, " verified endpoint(s) to ");
    append_str(&mut out, path);
    string_from_chars(out.as_slice())
}

// ---------------------------------------------------------------------------
// Ranking
// ---------------------------------------------------------------------------

/// `a` has more seeders than `b`, where no count ranks below any count.
pub open spec fn more_seeders(a: Option<u64>, b: Option<u64>) -> bool {
    match (a, b) {
        (Some(x), Some(y)) => x > y,
        (Some(_), None) => true,
        _ => false,
    }
}

/// Lexicographic order of texts by character.
pub open spec fn text_less(a: Seq<char>, b: Seq<char>) -> bool
    decreases a.len(),
{
    if a.len() == 0 {
        b.len() > 0
    } else if b.len() == 0 {
        false
    } else if a[0] != b[0] {
        (a[0] as u32) < (b[0] as u32)
    } else {
        text_less(a.drop_first(), b.drop_first())
    }
}

/// The ranking order: more seeders first, then by source, then by title.
pub open spec fn ranks_before(a: TorrentView, b: TorrentView) -> bool {
    ||| more_seeders(a.seeders, b.seeders)
    ||| a.seeders == b.seeders && text_less(a.source, b.source)
    ||| a.seeders == b.seeders && a.source == b.source && text_less(a.title, b.title)
}

/// Where a stable insertion places `x` into the ranked list `sorted`:
/// after every entry that `x` does not rank before.
pub open spec fn rank_slot(sorted: Seq<TorrentView>, x: TorrentView) -> int
    decreases sorted.len(),
{
    if sorted.len() == 0 {
        0
    } else if !ranks_before(x, sorted.last()) {
        sorted.len() as int
    } else {
        rank_slot(sorted.drop_last(), x)
    }
}

/// `ts` in ranking order, equal entries keeping their order (a stable
/// sort).
pub open spec fn ranked(ts: Seq<TorrentView>) -> Seq<TorrentView>
    decreases ts.len(),
{
    if ts.len() == 0 {
        seq![]
    } else {
        let s = ranked(ts.drop_last());
        s.insert(rank_slot(s, ts.last()), ts.last())
    }
}

fn text_less_exec(a: &[char], b: &[char]) -> (r: bool)
    ensures
        r == text_less(a@, b@),
{
    let mut i: usize = 0;
    assert(a@.skip(0) =~= a@);
    assert(b@.skip(0) =~= b@);
    while i < a.len() && i < b.len() && a[i] == b[i]
        invariant
            i <= a@.len(),
            i <= b@.len(),
            text_less(a@, b@) == text_less(a@.skip(i as int), b@.skip(i as int)),
        decreases a@.len() - i,
    {
        assert(a@.skip(i as int).drop_first() =~= a@.skip(i + 1));
        assert(b@.skip(i as int).drop_first() =~= b@.skip(i + 1));
        i = i + 1;
    }
    let ghost sa = a@.skip(i as int);
    let ghost sb = b@.skip(i as int);
    if i == a.len() {
        assert(sa.len() == 0);
        return i < b.len();
    }
    if i == b.len() {
        assert(sb.len() == 0 && sa.len() > 0);
        return false;
    }
    assert(sa[0] == a@[i as int] && sb[0] == b@[i as int]);
    (a[i] as u32) < (b[i] as u32)
}

fn text_less_strings(a: &String, b: &String) -> (r: bool)
    ensures
        r == text_less(a@, b@),
{
    let ac = chars_of(a.as_str());
    let bc = chars_of(b.as_str());
    text_less_exec(ac.as_slice(), bc.as_slice())
}

fn ranks_before_exec(a: &Torrent, b: &Torrent) -> (r: bool)
    ensures
        r == ranks_before(a@, b@),
{
    let more = match (a.seeders, b.seeders) {
        (Some(x), Some(y)) => x > y,
        (Some(_), None) => true,
        _ => false,
    };
    if more {
        return true;
    }
    if a.seeders != b.seeders {
        return false;
    }
    if text_less_strings(&a.source, &b.source) {
        return true;
    }
    a.source == b.source && text_less_strings(&a.title, &b.title)
}

/// Sorts results into ranking order (a stable sort).
pub fn rank_torrents(torrents: Vec<Torrent>) -> (r: Vec<Torrent>)
    ensures
        torrent_views(r@) == ranked(torrent_views(torrents@)),
{
    let ghost all = torrent_views(torrents@);
    let mut out: Vec<Torrent> = Vec::new();
    let mut rest = torrents;
    let n = rest.len();
    let mut i: usize = 0;
    assert(torrent_views(out@) =~= ranked(all.take(0)));
    while i < n
        invariant
            n == all.len(),
            i <= n,
            torrent_views(rest@) == all.skip(i as int),
            rest@.len() == n - i,
            torrent_views(out@) == ranked(all.take(i as int)),
        decreases n - i,
    {
        let ghost pre = all.take(i as int);
        assert(all.take(i + 1).drop_last() =~= pre);
        assert(torrent_views(rest@)[0] == rest@[0]@);
        let ghost old_rest = rest@;
        let x = rest.remove(0);
        assert(x@ == all[i as int]);
        assert(torrent_views(rest@) =~= torrent_views(old_rest).drop_first());
        assert(all.take(i + 1).last() == x@);
        let ghost sorted = torrent_views(out@);
        let mut p: usize = out.len();
        assert(sorted.take(out@.len() as int) =~= sorted);
        while p > 0 && ranks_before_exec(&x, &out[p - 1])
            invariant
                p <= out@.len(),
                sorted == torrent_views(out@),
                rank_slot(sorted, x@) == rank_slot(sorted.take(p as int), x@),
            decreases p,
        {
            assert(sorted.take(p as int).drop_last() =~= sorted.take(p - 1));
            assert(sorted.take(p as int).last() == out@[p - 1]@);
            p = p - 1;
        }
        proof {
            if p > 0 {
                assert(sorted.take(p as int).last() == out@[p - 1]@);
            } else {
                assert(sorted.take(0) =~= Seq::<TorrentView>::empty());
            }
        }
        let ghost before = out@;
        out.insert(p, x);
        assert(torrent_views(out@) =~= sorted.insert(p as int, all[i as int]));
        i = i + 1;
        assert(torrent_views(rest@) =~= all.skip(i as int));
    }
    assert(all.take(n as int) =~= all);
    out
}

/// The results to show: condensed by info hash, ranked, and cut to
/// `limit`; `None` where pooling the swarm counts would overflow 64 bits.
pub fn rank_results(torrents: Vec<Torrent>, limit: usize) -> (r: Option<Vec<Torrent>>)
    ensures
        r is Some <==> condense_fits(torrent_views(torrents@)),
        r matches Some(v) ==> torrent_views(v@) == ranked(condense_spec(torrent_views(torrents@))).take(
            if limit < ranked(condense_spec(torrent_views(torrents@))).len() {
                limit as int
            } else {
                ranked(condense_spec(torrent_views(torrents@))).len() as int
            },
        ),
{
    let condensed = match condense_checked(torrents) {
        Some(c) => c,
        None => return None,
    };
    let mut ranked_list = rank_torrents(condensed);
    let ghost before = torrent_views(ranked_list@);
    ranked_list.truncate(limit);
    assert(torrent_views(ranked_list@) =~= before.take(
        if limit < before.len() { limit as int } else { before.len() as int },
    ));
    Some(ranked_list)
}

// ---------------------------------------------------------------------------
// Laws of ranking
// ---------------------------------------------------------------------------

proof fn lemma_text_less_asym(a: Seq<char>, b: Seq<char>)
    ensures
        text_less(a, b) ==> !text_less(b, a),
        !text_less(a, a),
        a != b ==> text_less(a, b) || text_less(b, a),
    decreases a.len(),
{
    if a.len() > 0 && b.len() > 0 {
        lemma_text_less_asym(a.drop_first(), b.drop_first());
        lemma_text_less_asym(a.drop_first(), a.drop_first());
        if a[0] == b[0] && a.drop_first() == b.drop_first() {
            assert forall|k: int| 0 <= k < a.len() implies a[k] == b[k] by {
                if k > 0 {
                    assert(a[k] == a.drop_first()[k - 1]);
                    assert(b[k] == b.drop_first()[k - 1]);
                }
            }
            assert(a =~= b);
        }
        if a[0] != b[0] {
            vstd::utf8::char_u32_cast(a[0], a[0] as u32);
            vstd::utf8::char_u32_cast(b[0], b[0] as u32);
            assert(a[0] as u32 != b[0] as u32);
        }
    } else if a.len() > 0 {
        lemma_text_less_asym(a.drop_first(), a.drop_first());
    } else if b.len() == 0 {
        assert(a =~= b);
    }
}

proof fn lemma_text_less_trans(a: Seq<char>, b: Seq<char>, c: Seq<char>)
    requires
        text_less(a, b),
        text_less(b, c),
    ensures
        text_less(a, c),
    decreases a.len(),
{
    if a.len() > 0 && b.len() > 0 && c.len() > 0 && a[0] == b[0] && b[0] == c[0] {
        lemma_text_less_trans(a.drop_first(), b.drop_first(), c.drop_first());
    }
}

proof fn lemma_text_less_prefix(a: Seq<char>, b: Seq<char>)
    requires
        b.len() > 0,
    ensures
        text_less(a, a + b),
        !text_less(a + b, a),
    decreases a.len(),
{
    if a.len() > 0 {
        assert((a + b).drop_first() =~= a.drop_first() + b);
        assert((a + b)[0] == a[0]);
        lemma_text_less_prefix(a.drop_first(), b);
    }
}

proof fn lemma_text_less_at(a: Seq<char>, b: Seq<char>, k: int)
    requires
        0 <= k < a.len(),
        k < b.len(),
        a.take(k) == b.take(k),
        a[k] != b[k],
    ensures
        text_less(a, b) <==> (a[k] as u32) < (b[k] as u32),
    decreases k,
{
    if k > 0 {
        assert(a[0] == a.take(k)[0] && b[0] == b.take(k)[0]);
        assert(a.drop_first().take(k - 1) =~= a.take(k).drop_first());
        assert(b.drop_first().take(k - 1) =~= b.take(k).drop_first());
        assert(a.drop_first()[k - 1] == a[k] && b.drop_first()[k - 1] == b[k]);
        lemma_text_less_at(a.drop_first(), b.drop_first(), k - 1);
    }
}

/// Texts are compared lexicographically, character by character: no text
/// is below itself, a proper prefix comes before the longer text, and
/// otherwise the first differing character decides, whatever the lengths.
pub proof fn law_text_order(a: Seq<char>, b: Seq<char>)
    ensures
        !text_less(a, a),
        b.len() > 0 ==> text_less(a, a + b) && !text_less(a + b, a),
        forall|k: int| 0 <= k < a.len() && k < b.len() && a.take(k) == b.take(k) && a[k] != b[k] ==>
            (text_less(a, b) <==> (#[trigger] a[k] as u32) < (b[k] as u32)),
{
    lemma_text_less_asym(a, a);
    if b.len() > 0 {
        lemma_text_less_prefix(a, b);
    }
    assert forall|k: int| 0 <= k < a.len() && k < b.len() && a.take(k) == b.take(k) && a[k] != b[k] implies
        (text_less(a, b) <==> (#[trigger] a[k] as u32) < (b[k] as u32)) by {
        lemma_text_less_at(a, b, k);
    }
}

/// Two results share the key that ranking compares.
pub open spec fn same_rank(a: TorrentView, b: TorrentView) -> bool {
    a.seeders == b.seeders && a.source == b.source && a.title == b.title
}

proof fn lemma_rank_total(a: TorrentView, b: TorrentView)
    ensures
        ranks_before(a, b) ==> !ranks_before(b, a),
        ranks_before(a, b) || ranks_before(b, a) || same_rank(a, b),
{
    lemma_text_less_asym(a.source, b.source);
    lemma_text_less_asym(a.title, b.title);
}

proof fn lemma_rank_trans(a: TorrentView, b: TorrentView, c: TorrentView)
    requires
        ranks_before(a, b),
        ranks_before(b, c),
    ensures
        ranks_before(a, c),
{
    if a.seeders == b.seeders && b.seeders == c.seeders {
        if text_less(a.source, b.source) && text_less(b.source, c.source) {
            lemma_text_less_trans(a.source, b.source, c.source);
        }
        if text_less(a.title, b.title) && text_less(b.title, c.title) {
            lemma_text_less_trans(a.title, b.title, c.title);
        }
    }
}

proof fn lemma_rank_not_before(a: TorrentView, b: TorrentView, c: TorrentView)
    requires
        !ranks_before(a, b),
        !ranks_before(b, c),
    ensures
        !ranks_before(a, c),
{
    lemma_rank_total(a, b);
    lemma_rank_total(b, c);
    lemma_rank_total(a, c);
    lemma_rank_total(c, a);
    if ranks_before(b, a) && ranks_before(c, b) {
        lemma_rank_trans(c, b, a);
    }
}

/// `s` is in ranking order: no entry ranks before an earlier one.
pub open spec fn rank_sorted(s: Seq<TorrentView>) -> bool {
    forall|i: int, j: int| 0 <= i < j < s.len() ==> !ranks_before(#[trigger] s[j], #[trigger] s[i])
}

proof fn lemma_rank_slot(s: Seq<TorrentView>, x: TorrentView)
    ensures
        0 <= rank_slot(s, x) <= s.len(),
        forall|k: int| rank_slot(s, x) <= k < s.len() ==> ranks_before(x, #[trigger] s[k]),
        rank_slot(s, x) > 0 ==> !ranks_before(x, s[rank_slot(s, x) - 1]),
    decreases s.len(),
{
    if s.len() > 0 && ranks_before(x, s.last()) {
        lemma_rank_slot(s.drop_last(), x);
        assert forall|k: int| rank_slot(s, x) <= k < s.len() implies ranks_before(x, #[trigger] s[k]) by {
            if k < s.len() - 1 {
                assert(s[k] == s.drop_last()[k]);
            }
        }
    }
}

proof fn lemma_insert_sorted(s: Seq<TorrentView>, x: TorrentView)
    requires
        rank_sorted(s),
    ensures
        rank_sorted(s.insert(rank_slot(s, x), x)),
{
    lemma_rank_slot(s, x);
    let p = rank_slot(s, x);
    let t = s.insert(p, x);
    assert forall|i: int, j: int| 0 <= i < j < t.len() implies !ranks_before(#[trigger] t[j], #[trigger] t[i]) by {
        if j < p {
            assert(t[i] == s[i] && t[j] == s[j]);
        } else if j == p {
            assert(t[i] == s[i]);
            if i < p - 1 {
                assert(!ranks_before(s[p - 1], s[i]));
                lemma_rank_not_before(x, s[p - 1], s[i]);
            }
        } else if i == p {
            assert(t[j] == s[j - 1]);
            lemma_rank_total(x, s[j - 1]);
        } else if i < p {
            assert(t[i] == s[i] && t[j] == s[j - 1]);
        } else {
            assert(t[i] == s[i - 1] && t[j] == s[j - 1]);
        }
    }
}

/// Ranking puts results in order (more seeders first, then by source, then
/// by title) and neither drops nor adds any.
pub proof fn law_ranked_is_sorted_permutation(ts: Seq<TorrentView>)
    ensures
        rank_sorted(ranked(ts)),
        ranked(ts).to_multiset() == ts.to_multiset(),
        ranked(ts).len() == ts.len(),
    decreases ts.len(),
{
    broadcast use vstd::seq_lib::to_multiset_insert, vstd::seq_lib::to_multiset_build;
    if ts.len() > 0 {
        let pre = ts.drop_last();
        law_ranked_is_sorted_permutation(pre);
        let s = ranked(pre);
        lemma_rank_slot(s, ts.last());
        lemma_insert_sorted(s, ts.last());
        assert(pre.push(ts.last()) =~= ts);
    } else {
        assert(ranked(ts) =~= ts);
    }
}

/// In the ranked list, a result never comes after one with fewer seeders
/// (a count beats no count); among equal seeders, sources are in text
/// order; among equal seeders and source, titles are in text order.
pub proof fn law_ranked_by_seeders_source_title(ts: Seq<TorrentView>)
    ensures
        forall|i: int, j: int| 0 <= i < j < ranked(ts).len() ==> {
            let (a, b) = (#[trigger] ranked(ts)[i], #[trigger] ranked(ts)[j]);
            &&& (b.seeders matches Some(y) ==> a.seeders matches Some(x) && x >= y)
            &&& (a.seeders == b.seeders ==> !text_less(b.source, a.source))
            &&& (a.seeders == b.seeders && a.source == b.source ==> !text_less(b.title, a.title))
        },
{
    law_ranked_is_sorted_permutation(ts);
}

/// The results shown are the best-ranked condensed results, at most
/// `limit` of them, in ranking order.
pub proof fn law_rank_results(ts: Seq<TorrentView>, limit: nat)
    ensures
        ({
            let all = ranked(condense_spec(ts));
            let shown = all.take(if limit < all.len() { limit as int } else { all.len() as int });
            &&& shown.len() == if limit < condense_spec(ts).len() { limit as int } else { condense_spec(ts).len() as int }
            &&& rank_sorted(shown)
            &&& forall|i: int, j: int| 0 <= i < shown.len() <= j < all.len() ==> !ranks_before(#[trigger] all[j], #[trigger] shown[i])
        }),
{
    let all = ranked(condense_spec(ts));
    law_ranked_is_sorted_permutation(condense_spec(ts));
    let shown = all.take(if limit < all.len() { limit as int } else { all.len() as int });
    assert forall|i: int, j: int| 0 <= i < j < shown.len() implies !ranks_before(#[trigger] shown[j], #[trigger] shown[i]) by {
        assert(shown[i] == all[i] && shown[j] == all[j]);
    }
    assert forall|i: int, j: int| 0 <= i < shown.len() <= j < all.len() implies !ranks_before(#[trigger] all[j], #[trigger] shown[i]) by {
        assert(shown[i] == all[i]);
    }
}
} // verus!
