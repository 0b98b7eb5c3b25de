//! Shodan-assisted endpoint discovery: the checks on a discovery request,
//! turning Shodan's output into candidate endpoints, and ordering the
//! verified ones.
//!
//! A Shodan fingerprint match is not proof that a service speaks the
//! expected protocol; every candidate is probed before it is kept, and
//! discovery never runs without an explicit, user-supplied query.
use crate::source::Source;
use crate::text::{
    append_chars, append_str, char_vec_views, chars_of, decimal, lines_of, lines_spec,
    parse_u16, parse_unsigned, push_decimal, split_chars, split_spec, string_from_chars,
    string_views, trim, trim_chars, trim_str,
};
use crate::text::has_prefix;
use crate::torznab::{build_url, is_caps_document, request_url, root_named, str_pair_views};
use crate::web_url::{url_parse, url_query_pairs, WebUrl};
use vstd::prelude::*;

verus! {

/// Options of a discovery run.
pub struct DiscoveryOptions {
    pub shodan_queries: Vec<String>,
    pub shodan_limit: usize,
    pub concurrency: usize,
    pub timeout_secs: u64,
    pub verbose: bool,
}

/// An endpoint that answered the capability probe.
#[derive(Debug, Clone)]
pub struct DiscoveryResult {
    pub endpoint: String,
    pub origin: String,
    pub latency_ms: u128,
}

/// Why a discovery request is refused.
#[derive(Debug, PartialEq, Eq)]
pub enum DiscoveryError {
    ShodanLimit,
    Concurrency,
    Timeout,
    NoQuery,
}

impl DiscoveryError {
    pub fn message(&self) -> (r: String)
        ensures
            r@ == match self {
                DiscoveryError::ShodanLimit => "--shodan-limit must be between 1 and 1000"@,
                DiscoveryError::Concurrency => "--concurrency must be between 1 and 100"@,
                DiscoveryError::Timeout => "--timeout must be between 1 and 120 seconds"@,
                DiscoveryError::NoQuery => "discovery requires at least one --shodan-query; there is no built-in default fingerprint"@,
            },
    {
        match self {
            DiscoveryError::ShodanLimit => String::from_str("--shodan-limit must be between 1 and 1000"),
            DiscoveryError::Concurrency => String::from_str("--concurrency must be between 1 and 100"),
            DiscoveryError::Timeout => String::from_str("--timeout must be between 1 and 120 seconds"),
            DiscoveryError::NoQuery => String::from_str(
                "discovery requires at least one --shodan-query; there is no built-in default fingerprint",
            ),
        }
    }
}

/// The bounds on a discovery run's options, checked in this order.
pub open spec fn options_error(limit: int, concurrency: int, timeout: int) -> Option<DiscoveryError> {
    if !(1 <= limit <= 1000) {
        Some(DiscoveryError::ShodanLimit)
    } else if !(1 <= concurrency <= 100) {
        Some(DiscoveryError::Concurrency)
    } else if !(1 <= timeout <= 120) {
        Some(DiscoveryError::Timeout)
    } else {
        None
    }
}

/// Checks that the Shodan limit, concurrency and timeout are in range.
pub fn validate_options(options: &DiscoveryOptions) -> (r: Result<(), DiscoveryError>)
    ensures
        r is Ok <==> options_error(options.shodan_limit as int, options.concurrency as int, options.timeout_secs as int) is None,
        r matches Err(e) ==> Some(e) == options_error(options.shodan_limit as int, options.concurrency as int, options.timeout_secs as int),
{
    if !(1 <= options.shodan_limit && options.shodan_limit <= 1000) {
        return Err(DiscoveryError::ShodanLimit);
    }
    if !(1 <= options.concurrency && options.concurrency <= 100) {
        return Err(DiscoveryError::Concurrency);
    }
    if !(1 <= options.timeout_secs && options.timeout_secs <= 120) {
        return Err(DiscoveryError::Timeout);
    }
    Ok(())
}

/// Checks a discovery request: the options are in range and at least one
/// Shodan query is given.
pub fn check_discovery_request(options: &DiscoveryOptions) -> (r: Result<(), DiscoveryError>)
    ensures
        r is Ok <==> options_error(options.shodan_limit as int, options.concurrency as int, options.timeout_secs as int) is None
            && options.shodan_queries@.len() > 0,
        r matches Err(e) ==> match options_error(options.shodan_limit as int, options.concurrency as int, options.timeout_secs as int) {
            Some(o) => e == o,
            None => e == DiscoveryError::NoQuery,
        },
{
    validate_options(options)?;
    if options.shodan_queries.len() == 0 {
        return Err(DiscoveryError::NoQuery);
    }
    Ok(())
}

/// The endpoint URL for a Shodan match: IPv6 hosts are bracketed; port 443
/// means https, port 80 plain http, any other port is written out.
pub open spec fn candidate_url_spec(host: Seq<char>, port: u16) -> Seq<char> {
    let h = if host.contains(':') && !(host.len() > 0 && host[0] == '[') {
        "["@ + host + "]"@
    } else {
        host
    };
    if port == 443 {
        "https://"@ + h + "/torznab"@
    } else if port == 80 {
        "http://"@ + h + "/torznab"@
    } else {
        "http://"@ + h + ":"@ + decimal(port as nat) + "/torznab"@
    }
}

/// A candidate endpoint is the `/torznab` path of its host: over https
/// exactly when the port is 443, and with the port written out unless it
/// is 443 or 80.
pub proof fn law_candidate_url(host: Seq<char>, port: u16)
    ensures
        ({
            let u = candidate_url_spec(host, port);
            let tail = "/torznab"@;
            &&& u.len() >= tail.len() && u.skip(u.len() - tail.len()) == tail
            &&& (port == 443 <==> has_prefix(u, "https://"@))
            &&& (port != 443 ==> has_prefix(u, "http://"@))
            &&& (port != 443 && port != 80 ==> ({
                let p = ":"@ + decimal(port as nat) + tail;
                u.len() >= p.len() && u.skip(u.len() - p.len()) == p
            }))
        }),
{
    reveal_strlit("/torznab");
    reveal_strlit("https://");
    reveal_strlit("http://");
    reveal_strlit(":");
    reveal_strlit("[");
    reveal_strlit("]");
    let u = candidate_url_spec(host, port);
    let tail = "/torznab"@;
    let h = if host.contains(':') && !(host.len() > 0 && host[0] == '[') {
        "["@ + host + "]"@
    } else {
        host
    };
    if port == 443 {
        assert(u == "https://"@ + h + tail);
        assert(u.take(8) =~= "https://"@);
        assert(u.skip(u.len() - tail.len()) =~= tail);
    } else if port == 80 {
        assert(u == "http://"@ + h + tail);
        assert(u.take(7) =~= "http://"@);
        assert(u[4] == ':');
        assert(u.skip(u.len() - tail.len()) =~= tail);
    } else {
        let p = ":"@ + decimal(port as nat) + tail;
        assert(u == "http://"@ + h + p);
        assert(u.take(7) =~= "http://"@);
        assert(u[4] == ':');
        assert(u.skip(u.len() - p.len()) =~= p);
        assert(u.skip(u.len() - tail.len()) =~= tail);
    }
}

fn contains_char(s: &[char], c: char) -> (r: bool)
    ensures
        r == s@.contains(c),
{
    let mut i: usize = 0;
    while i < s.len()
        invariant
            i <= s@.len(),
            forall|j: int| 0 <= j < i ==> s@[j] != c,
        decreases s@.len() - i,
    {
        if s[i] == c {
            return true;
        }
        i = i + 1;
    }
    false
}

pub fn candidate_url(host: &str, port: u16) -> (r: String)
    ensures
        r@ == candidate_url_spec(host@, port),
{
    let hc = chars_of(host);
    let mut h: Vec<char> = Vec::new();
    if contains_char(hc.as_slice(), ':') && !(hc.len() > 0 && hc[0] == '[') {
        h.push('[');
        append_chars(&mut h, hc.as_slice());
        h.push(']');
        proof {
            reveal_strlit("[");
            reveal_strlit("]");
        }
        assert(h@ =~= "["@ + host@ + "]"@);
    } else {
        append_chars(&mut h, hc.as_slice());
        assert(h@ =~= host@);
    }
    let mut out: Vec<char>;
    if port == 443 {
        out = chars_of("https://");
        append_chars(&mut out, h.as_slice());
        append_str(&mut out, "/torznab");
    } else if port == 80 {
        out = chars_of("http://");
        append_chars(&mut out, h.as_slice());
        append_str(&mut out, "/torznab");
    } else {
        out = chars_of("http://");
        append_chars(&mut out, h.as_slice());
        append_str(&mut out, ":");
        crate::text::push_decimal(&mut out, port as u128);
        append_str(&mut out, "/torznab");
    }
    assert(out@ =~= candidate_url_spec(host@, port));
    string_from_chars(out.as_slice())
}

/// The host and port of one line of `shodan search --fields ip_str,port`
/// output: the first tab-separated field (trimmed, not empty) and the
/// second one read as a port.
pub open spec fn shodan_line(line: Seq<char>) -> Option<(Seq<char>, u16)> {
    let fields = split_spec(line, '\t');
    let host = trim(fields[0]);
    if host.len() == 0 || fields.len() < 2 {
        None
    } else {
        match parse_unsigned(trim(fields[1]), 0xffff) {
            Some(p) => Some((host, p as u16)),
            None => None,
        }
    }
}

/// The candidate URL of each line of Shodan output that names a host and
/// port and whose candidate URL parses, in order.
pub open spec fn shodan_candidates(lines: Seq<Seq<char>>) -> Seq<Seq<char>>
    decreases lines.len(),
{
    if lines.len() == 0 {
        seq![]
    } else {
        let rest = shodan_candidates(lines.drop_last());
        match shodan_line(lines.last()) {
            Some((h, p)) => match url_parse(candidate_url_spec(h, p)) {
                Some(u) => rest.push(u),
                None => rest,
            },
            None => rest,
        }
    }
}

pub proof fn lemma_split_nonempty(s: Seq<char>, c: char)
    ensures
        split_spec(s, c).len() >= 1,
    decreases s.len(),
{
    crate::text::lemma_find_char(s, c);
    if crate::text::find_char(s, c) >= 0 {
        lemma_split_nonempty(s.skip(crate::text::find_char(s, c) + 1), c);
    }
}

/// Turns the output of `shodan search --fields ip_str,port` into candidate
/// sources with origin `shodan:<query>`.
pub fn parse_shodan_output(stdout: &str, query: &str) -> (r: Vec<Source>)
    ensures
        r@.len() == shodan_candidates(lines_spec(stdout@)).len(),
        forall|i: int| 0 <= i < r@.len() ==> {
            &&& (#[trigger] r@[i]).endpoint@ == shodan_candidates(lines_spec(stdout@))[i]
            &&& r@[i].origin@ == "shodan:"@ + query@
        },
{
    let text = chars_of(stdout);
    let lines = lines_of(text.as_slice());
    let ghost ls = lines_spec(stdout@);
    let mut origin_chars = chars_of("shodan:");
    append_str(&mut origin_chars, query);
    let mut out: Vec<Source> = Vec::new();
    let mut i: usize = 0;
    assert(ls.take(0) =~= Seq::<Seq<char>>::empty());
    while i < lines.len()
        invariant
            i <= lines@.len(),
            char_vec_views(lines@) == ls,
            origin_chars@ == "shodan:"@ + query@,
            out@.len() == shodan_candidates(ls.take(i as int)).len(),
            forall|j: int| 0 <= j < out@.len() ==> {
                &&& (#[trigger] out@[j]).endpoint@ == shodan_candidates(ls.take(i as int))[j]
                &&& out@[j].origin@ == "shodan:"@ + query@
            },
        decreases lines@.len() - i,
    {
        assert(ls.take(i + 1).drop_last() =~= ls.take(i as int));
        assert(ls.take(i + 1).last() == lines@[i as int]@);
        let ghost line = lines@[i as int]@;
        let fields = split_chars(lines[i].as_slice(), '\t');
        proof {
            lemma_split_nonempty(line, '\t');
        }
        assert(char_vec_views(fields@)[0] == fields@[0]@);
        let host = trim_chars(fields[0].as_slice());
        if host.len() > 0 && fields.len() >= 2 {
            assert(char_vec_views(fields@)[1] == fields@[1]@);
            let port_text = trim_chars(fields[1].as_slice());
            match parse_u16(port_text.as_slice()) {
                Some(port) => {
                    let hs = string_from_chars(host.as_slice());
                    let url = candidate_url(hs.as_str(), port);
                    match WebUrl::parse(url.as_str()) {
                        Some(endpoint) => {
                            out.push(Source { endpoint, origin: string_from_chars(origin_chars.as_slice()) });
                        },
                        None => {},
                    }
                },
                None => {},
            }
        }
        i = i + 1;
    }
    assert(ls.take(lines@.len() as int) =~= ls);
    out
}

/// Where a stable insertion places latency `x` into the ordered list
/// `sorted`: after every entry that is not slower.
pub open spec fn latency_slot(sorted: Seq<u128>, x: u128) -> int
    decreases sorted.len(),
{
    if sorted.len() == 0 {
        0
    } else if sorted.last() <= x {
        sorted.len() as int
    } else {
        latency_slot(sorted.drop_last(), x)
    }
}

/// The positions of `lat` in the order of a stable sort by latency.
pub open spec fn latency_order(lat: Seq<u128>) -> Seq<int>
    decreases lat.len(),
{
    if lat.len() == 0 {
        seq![]
    } else {
        let o = latency_order(lat.drop_last());
        let sorted = o.map_values(|k: int| lat[k]);
        o.insert(latency_slot(sorted, lat.last()), lat.len() - 1)
    }
}

pub open spec fn latencies(v: Seq<DiscoveryResult>) -> Seq<u128> {
    v.map_values(|d: DiscoveryResult| d.latency_ms)
}

proof fn lemma_latency_slot(sorted: Seq<u128>, x: u128)
    ensures
        0 <= latency_slot(sorted, x) <= sorted.len(),
    decreases sorted.len(),
{
    if sorted.len() > 0 {
        lemma_latency_slot(sorted.drop_last(), x);
    }
}

/// `o` lists positions of `lat` fastest first, equal latencies in their
/// original positions' order.
pub open spec fn latency_sorted(lat: Seq<u128>, o: Seq<int>) -> bool {
    forall|a: int, b: int| 0 <= a < b < o.len() ==> #[trigger] lat[o[a]] < #[trigger] lat[o[b]]
        || (lat[o[a]] == lat[o[b]] && o[a] < o[b])
}

/// `o` holds each position below `n` exactly once.
pub open spec fn is_index_permutation(o: Seq<int>, n: nat) -> bool {
    &&& o.len() == n
    &&& forall|a: int| 0 <= a < o.len() ==> 0 <= #[trigger] o[a] < n
    &&& forall|a: int, b: int| 0 <= a < b < o.len() ==> #[trigger] o[a] != #[trigger] o[b]
}

proof fn lemma_latency_slot_bounds(sorted: Seq<u128>, x: u128)
    requires
        forall|a: int, b: int| 0 <= a < b < sorted.len() ==> #[trigger] sorted[a] <= #[trigger] sorted[b],
    ensures
        forall|j: int| 0 <= j < latency_slot(sorted, x) ==> #[trigger] sorted[j] <= x,
        forall|j: int| latency_slot(sorted, x) <= j < sorted.len() ==> #[trigger] sorted[j] > x,
    decreases sorted.len(),
{
    lemma_latency_slot(sorted, x);
    if sorted.len() > 0 {
        let pre = sorted.drop_last();
        if sorted.last() <= x {
            assert forall|j: int| 0 <= j < sorted.len() implies #[trigger] sorted[j] <= x by {
                if j < sorted.len() - 1 {
                    assert(sorted[j] <= sorted[sorted.len() - 1]);
                }
            }
        } else {
            lemma_latency_slot_bounds(pre, x);
            assert forall|j: int| 0 <= j < latency_slot(sorted, x) implies #[trigger] sorted[j] <= x by {
                assert(sorted[j] == pre[j]);
            }
            assert forall|j: int| latency_slot(sorted, x) <= j < sorted.len() implies #[trigger] sorted[j] > x by {
                if j < sorted.len() - 1 {
                    assert(sorted[j] == pre[j]);
                }
            }
        }
    }
}

/// Ordering by latency puts the fastest endpoints first, keeps endpoints
/// of equal latency in their order, and neither drops nor repeats any.
pub proof fn law_latency_order(lat: Seq<u128>)
    ensures
        latency_sorted(lat, latency_order(lat)),
        is_index_permutation(latency_order(lat), lat.len()),
    decreases lat.len(),
{
    if lat.len() > 0 {
        let n = lat.len() - 1;
        let pre = lat.drop_last();
        law_latency_order(pre);
        let o = latency_order(pre);
        let x = lat.last();
        let sorted = o.map_values(|k: int| lat[k]);
        assert forall|a: int| 0 <= a < o.len() implies #[trigger] sorted[a] == pre[o[a]] by {
            assert(lat[o[a]] == pre[o[a]]);
        }
        assert forall|a: int, b: int| 0 <= a < b < sorted.len() implies #[trigger] sorted[a] <= #[trigger] sorted[b] by {
            assert(sorted[a] == pre[o[a]] && sorted[b] == pre[o[b]]);
        }
        lemma_latency_slot_bounds(sorted, x);
        lemma_latency_slot(sorted, x);
        let p = latency_slot(sorted, x);
        let r = latency_order(lat);
        assert(r == o.insert(p, n));
        assert forall|a: int| 0 <= a < r.len() implies 0 <= #[trigger] r[a] < lat.len() by {
            if a < p {
                assert(r[a] == o[a]);
            } else if a > p {
                assert(r[a] == o[a - 1]);
            }
        }
        assert forall|a: int, b: int| 0 <= a < b < r.len() implies #[trigger] r[a] != #[trigger] r[b] by {
            if a < p && b < p {
                assert(r[a] == o[a] && r[b] == o[b]);
            } else if a < p && b == p {
                assert(r[a] == o[a]);
            } else if a < p {
                assert(r[a] == o[a] && r[b] == o[b - 1]);
            } else if a == p {
                assert(r[b] == o[b - 1]);
            } else {
                assert(r[a] == o[a - 1] && r[b] == o[b - 1]);
            }
        }
        assert forall|a: int, b: int| 0 <= a < b < r.len() implies #[trigger] lat[r[a]] < #[trigger] lat[r[b]]
            || (lat[r[a]] == lat[r[b]] && r[a] < r[b]) by {
            if a < p && b < p {
                assert(r[a] == o[a] && r[b] == o[b]);
                assert(lat[o[a]] == pre[o[a]] && lat[o[b]] == pre[o[b]]);
            } else if a < p && b == p {
                assert(r[a] == o[a]);
                assert(sorted[a] <= x);
                assert(o[a] < n);
            } else if a < p {
                assert(r[a] == o[a] && r[b] == o[b - 1]);
                assert(lat[o[a]] == pre[o[a]] && lat[o[b - 1]] == pre[o[b - 1]]);
            } else if a == p {
                assert(r[b] == o[b - 1]);
                assert(sorted[b - 1] > x);
            } else {
                assert(r[a] == o[a - 1] && r[b] == o[b - 1]);
                assert(lat[o[a - 1]] == pre[o[a - 1]] && lat[o[b - 1]] == pre[o[b - 1]]);
            }
        }
    }
}

/// Orders discovered endpoints by latency, fastest first; endpoints with
/// equal latency keep their order.
pub fn sort_by_latency(results: Vec<DiscoveryResult>) -> (r: Vec<DiscoveryResult>)
    ensures
        r@.len() == results@.len(),
        forall|i: int| 0 <= i < r@.len() ==> #[trigger] r@[i] == results@[latency_order(latencies(results@))[i]],
{
    let ghost all = results@;
    let ghost lat = latencies(all);
    let mut out: Vec<DiscoveryResult> = Vec::new();
    let ghost mut order: Seq<int> = seq![];
    let mut rest = results;
    let n = rest.len();
    let mut i: usize = 0;
    while i < n
        invariant
            n == all.len(),
            lat == latencies(all),
            i <= n,
            rest@ == all.skip(i as int),
            order == latency_order(lat.take(i as int)),
            order.len() == i,
            out@.len() == i,
            forall|j: int| 0 <= j < i ==> 0 <= #[trigger] order[j] < i,
            forall|j: int| 0 <= j < i ==> #[trigger] out@[j] == all[order[j]],
        decreases n - i,
    {
        let x = rest.remove(0);
        assert(x == all[i as int]);
        let ghost pre = lat.take(i as int);
        let ghost nxt = lat.take(i + 1);
        assert(nxt.drop_last() =~= pre);
        assert(nxt.last() == x.latency_ms);
        let ghost sorted = order.map_values(|k: int| nxt[k]);
        assert(sorted =~= out@.map_values(|d: DiscoveryResult| d.latency_ms)) by {
            assert forall|j: int| 0 <= j < i implies sorted[j] == out@[j].latency_ms by {
                assert(nxt[order[j]] == lat[order[j]]);
                assert(lat[order[j]] == all[order[j]].latency_ms);
            }
        }
        let mut p: usize = out.len();
        assert(sorted.take(out@.len() as int) =~= sorted);
        while p > 0 && out[p - 1].latency_ms > x.latency_ms
            invariant
                p <= out@.len(),
                latency_slot(sorted, x.latency_ms) == latency_slot(sorted.take(p as int), x.latency_ms),
                sorted.len() == out@.len(),
                forall|j: int| 0 <= j < out@.len() ==> sorted[j] == #[trigger] out@[j].latency_ms,
            decreases p,
        {
            assert(sorted.take(p as int).drop_last() =~= sorted.take(p - 1));
            p = p - 1;
        }
        proof {
            if p > 0 {
                assert(sorted.take(p as int).last() == out@[p - 1].latency_ms);
            } else {
                assert(sorted.take(0) =~= Seq::<u128>::empty());
            }
        }
        assert(latency_slot(sorted, x.latency_ms) == p);
        assert(sorted.take(out@.len() as int) =~= sorted);
        let ghost before = out@;
        out.insert(p, x);
        proof {
            order = order.insert(p as int, i as int);
            assert forall|j: int| 0 <= j < i + 1 implies 0 <= #[trigger] order[j] < i + 1 by {
                if j < p {} else if j > p {}
            }
            assert forall|j: int| 0 <= j < i + 1 implies #[trigger] out@[j] == all[order[j]] by {
                if j < p {
                    assert(out@[j] == before[j]);
                } else if j > p {
                    assert(out@[j] == before[j - 1]);
                }
            }
        }
        i = i + 1;
        assert(rest@ =~= all.skip(i as int));
    }
    assert(lat.take(n as int) =~= lat);
    out
}

// ---------------------------------------------------------------------------
// Running Shodan and probing candidates
// ---------------------------------------------------------------------------

/// The arguments of the Shodan CLI run for one query:
/// `search --fields ip_str,port --limit <limit> <query>`.
pub fn shodan_arguments(query: &str, limit: usize) -> (r: Vec<String>)
    ensures
        string_views(r@) == seq!["search"@, "--fields"@, "ip_str,port"@, "--limit"@, decimal(limit as nat), query@],
{
    let mut out: Vec<String> = Vec::new();
    out.push(String::from_str("search"));
    out.push(String::from_str("--fields"));
    out.push(String::from_str("ip_str,port"));
    out.push(String::from_str("--limit"));
    let mut digits: Vec<char> = Vec::new();
    push_decimal(&mut digits, limit as u128);
    out.push(string_from_chars(digits.as_slice()));
    out.push(String::from_str(query));
    assert(string_views(out@) =~= seq!["search"@, "--fields"@, "ip_str,port"@, "--limit"@, decimal(limit as nat), query@]);
    out
}

/// The error reported when the Shodan CLI exits unsuccessfully, with its
/// trimmed standard error.
pub fn shodan_failure_message(stderr: &str) -> (r: String)
    ensures
        r@ == "Shodan CLI failed: "@ + trim(stderr@),
{
    let mut out = chars_of("Shodan CLI failed: ");
    let t = trim_str(stderr);
    append_chars(&mut out, t.as_slice());
    string_from_chars(out.as_slice())
}

/// The capability request for a candidate: its endpoint with `t=caps`.
pub fn probe_url(source: &Source) -> (r: WebUrl)
    ensures
        r@ == request_url(source.endpoint@, seq![("t"@, "caps"@)], None),
        url_query_pairs(r@) == url_query_pairs(source.endpoint@).push(("t"@, "caps"@)),
{
    let pairs: [(&str, &str); 1] = [("t", "caps")];
    let r = build_url(&source.endpoint, pairs.as_slice(), None);
    assert(str_pair_views(pairs@) =~= seq![("t"@, "caps"@)]);
    assert(url_query_pairs(source.endpoint@) + seq![("t"@, "caps"@)] + Seq::<(Seq<char>, Seq<char>)>::empty()
        =~= url_query_pairs(source.endpoint@).push(("t"@, "caps"@)));
    r
}

/// What a candidate's answer to the capability request decides: a
/// capability document makes it a verified endpoint, anything else
/// rejects it.
pub fn probe_verdict(source: Source, body: &str, latency_ms: u128) -> (r: Result<DiscoveryResult, String>)
    ensures
        r is Ok <==> root_named(body@, "caps"@),
        r matches Ok(d) ==> d.endpoint@ == source.endpoint@ && d.origin@ == source.origin@ && d.latency_ms == latency_ms,
        r matches Err(m) ==> m@ == source.endpoint@ + " is not a Torznab endpoint"@,
{
    if !is_caps_document(body) {
        let mut out = chars_of(source.endpoint.as_str());
        append_str(&mut out, " is not a Torznab endpoint");
        return Err(string_from_chars(out.as_slice()));
    }
    Ok(DiscoveryResult {
        endpoint: String::from_str(source.endpoint.as_str()),
        origin: source.origin,
        latency_ms,
    })
}

/// The verified endpoints among the probe outcomes, in order.
pub open spec fn probe_successes(probes: Seq<Result<DiscoveryResult, String>>) -> Seq<DiscoveryResult>
    decreases probes.len(),
{
    if probes.len() == 0 {
        seq![]
    } else {
        let rest = probe_successes(probes.drop_last());
        match probes.last() {
            Ok(d) => rest.push(d),
            Err(_) => rest,
        }
    }
}

/// The rejection notes among the probe outcomes, in order.
pub open spec fn probe_rejections(probes: Seq<Result<DiscoveryResult, String>>) -> Seq<Seq<char>>
    decreases probes.len(),
{
    if probes.len() == 0 {
        seq![]
    } else {
        let rest = probe_rejections(probes.drop_last());
        match probes.last() {
            Ok(_) => rest,
            Err(m) => rest.push("reject: "@ + m@),
        }
    }
}

/// The outcome of a discovery run from its probe outcomes: the verified
/// endpoints, fastest first, and the rejection notes to print (only when
/// verbose).
pub fn collect_probes(probes: Vec<Result<DiscoveryResult, String>>, verbose: bool) -> (r: (Vec<DiscoveryResult>, Vec<String>))
    ensures
        r.0@.len() == probe_successes(probes@).len(),
        forall|i: int| 0 <= i < r.0@.len() ==> #[trigger] r.0@[i] == probe_successes(probes@)[latency_order(latencies(probe_successes(probes@)))[i]],
        verbose ==> string_views(r.1@) == probe_rejections(probes@),
        !verbose ==> r.1@.len() == 0,
{
    let ghost all = probes@;
    let mut working: Vec<DiscoveryResult> = Vec::new();
    let mut notes: Vec<String> = Vec::new();
    let mut rest = probes;
    let n = rest.len();
    let mut i: usize = 0;
    assert(all.take(0) =~= Seq::<Result<DiscoveryResult, String>>::empty());
    while i < n
        invariant
            n == all.len(),
            i <= n,
            rest@ == all.skip(i as int),
            working@ == probe_successes(all.take(i as int)),
            verbose ==> string_views(notes@) == probe_rejections(all.take(i as int)),
            !verbose ==> notes@.len() == 0,
        decreases n - i,
    {
        let p = rest.remove(0);
        assert(p == all[i as int]);
        assert(all.take(i + 1).drop_last() =~= all.take(i as int));
        assert(all.take(i + 1).last() == p);
        match p {
            Ok(d) => {
                working.push(d);
            },
            Err(m) => {
                if verbose {
                    let mut out = chars_of("reject: ");
                    append_str(&mut out, m.as_str());
                    let ghost before = notes@;
                    notes.push(string_from_chars(out.as_slice()));
                    assert(string_views(notes@) =~= string_views(before).push("reject: "@ + m@));
                }
            },
        }
        i = i + 1;
        assert(rest@ =~= all.skip(i as int));
    }
    assert(all.take(n as int) =~= all);
    (sort_by_latency(working), notes)
}

} // verus!
