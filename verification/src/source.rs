//! Search sources: API mirrors given by URL, where they come from, and how
//! the configured list is chosen and de-duplicated.
use crate::text::{
    append_str, chars_of, decimal, opt_view, push_decimal, split_chars, split_spec,
    string_from_chars, string_views, trim, trim_chars, char_vec_views,
};
use crate::web_url::{url_host, url_parse, url_port, url_scheme, WebUrl};
use vstd::prelude::*;

verus! {

/// Public mirrors known to run this exact API, tried when nothing else is
/// configured or saved.
pub const KNOWN_MIRRORS: [&'static str; 1] = ["https://apibay.org"];

/// A mirror to search, and where its address came from.
#[derive(Debug)]
pub struct Source {
    pub endpoint: WebUrl,
    pub origin: String,
}

/// `host[:port]` of a URL, or its whole serialization when it has no host.
pub open spec fn label_spec(url: Seq<char>) -> Seq<char> {
    let host = match url_host(url) {
        Some(h) => h,
        None => url,
    };
    match url_port(url) {
        Some(p) => host + ":"@ + decimal(p as nat),
        None => host,
    }
}

impl Source {
    /// A short, stable label for terminal output and per-result attribution.
    pub fn label(&self) -> (r: String)
        ensures
            r@ == label_spec(self.endpoint@),
    {
        let host = match self.endpoint.host_str() {
            Some(h) => h,
            None => self.endpoint.as_str().to_owned(),
        };
        match self.endpoint.port() {
            Some(port) => {
                let mut out = chars_of(host.as_str());
                out.push(':');
                push_decimal(&mut out, port as u128);
                proof {
                    reveal_strlit(":");
                }
                assert(out@ =~= label_spec(self.endpoint@));
                string_from_chars(out.as_slice())
            },
            None => host,
        }
    }
}

/// Why a list of sources was refused.
#[derive(Debug)]
pub enum SourceError {
    /// The text at this position of the list is not a URL.
    InvalidUrl { input: String },
    /// The URL's scheme is neither `http` nor `https`.
    UnsupportedScheme { scheme: String, input: String },
}

impl SourceError {
    pub fn message(&self) -> (r: String)
        ensures
            r@ == match self {
                SourceError::InvalidUrl { input } => "invalid proxy URL `"@ + input@
                    + "`; pass the full base URL of a Pirate Bay API mirror"@,
                SourceError::UnsupportedScheme { scheme, input } => "unsupported URL scheme `"@
                    + scheme@ + "` for `"@ + input@ + "`"@,
            },
    {
        match self {
            SourceError::InvalidUrl { input } => {
                let mut out = chars_of("invalid proxy URL `");
                append_str(&mut out, input.as_str());
                append_str(&mut out, "`; pass the full base URL of a Pirate Bay API mirror");
                string_from_chars(out.as_slice())
            },
            SourceError::UnsupportedScheme { scheme, input } => {
                let mut out = chars_of("unsupported URL scheme `");
                append_str(&mut out, scheme.as_str());
                append_str(&mut out, "` for `");
                append_str(&mut out, input.as_str());
                append_str(&mut out, "`");
                string_from_chars(out.as_slice())
            },
        }
    }
}

/// A text is accepted as a source when it parses as a URL with scheme
/// `http` or `https`.
pub open spec fn accepted_source(input: Seq<char>) -> bool {
    match url_parse(input) {
        Some(u) => url_scheme(u) == "http"@ || url_scheme(u) == "https"@,
        None => false,
    }
}

/// The error reported for the text `input` that is not accepted.
pub open spec fn source_error_for(e: SourceError, input: Seq<char>) -> bool {
    match e {
        SourceError::InvalidUrl { input: i } => i@ == input && url_parse(input) is None,
        SourceError::UnsupportedScheme { scheme, input: i } => i@ == input && url_parse(input) is Some
            && scheme@ == url_scheme(url_parse(input)->0),
    }
}

/// `r` is what parsing the texts `raw` with origin `origin` gives: `Ok`
/// exactly when every text is accepted, with one source per text;
/// otherwise the error for the first text that is not accepted.
pub open spec fn sources_parsed(raw: Seq<String>, origin: Seq<char>, r: Result<Vec<Source>, SourceError>) -> bool {
    &&& r is Ok <==> forall|i: int| 0 <= i < raw.len() ==> accepted_source(#[trigger] raw[i]@)
    &&& r matches Ok(v) ==> v@.len() == raw.len() && forall|i: int| 0 <= i < raw.len() ==> {
        &&& Some((#[trigger] v@[i]).endpoint@) == url_parse(raw[i]@)
        &&& v@[i].origin@ == origin
    }
    &&& r matches Err(e) ==> exists|k: int| 0 <= k < raw.len() && !accepted_source(#[trigger] raw[k]@)
        && (forall|i: int| 0 <= i < k ==> accepted_source(#[trigger] raw[i]@)) && source_error_for(e, raw[k]@)
}

/// The sources given by `raw`, all with origin `origin`.
pub fn parse_sources(raw: Vec<String>, origin: &str) -> (r: Result<Vec<Source>, SourceError>)
    ensures
        sources_parsed(raw@, origin@, r),
{
    let mut out: Vec<Source> = Vec::new();
    let mut i: usize = 0;
    while i < raw.len()
        invariant
            i <= raw@.len(),
            out@.len() == i,
            forall|j: int| 0 <= j < i ==> accepted_source(#[trigger] raw@[j]@),
            forall|j: int| 0 <= j < i ==> {
                &&& Some((#[trigger] out@[j]).endpoint@) == url_parse(raw@[j]@)
                &&& out@[j].origin@ == origin@
            },
        decreases raw@.len() - i,
    {
        let input = &raw[i];
        match WebUrl::parse(input.as_str()) {
            None => {
                return Err(SourceError::InvalidUrl { input: input.clone() });
            },
            Some(endpoint) => {
                let scheme = endpoint.scheme();
                let sc = chars_of(scheme.as_str());
                if crate::text::chars_are(sc.as_slice(), "http") || crate::text::chars_are(sc.as_slice(), "https") {
                    out.push(Source { endpoint, origin: origin.to_owned() });
                } else {
                    return Err(SourceError::UnsupportedScheme { scheme, input: input.clone() });
                }
            },
        }
        i = i + 1;
    }
    Ok(out)
}

/// The key two sources are compared by: the serialized URL without
/// trailing slashes, lowercased.
pub open spec fn dedup_key(url: Seq<char>) -> Seq<char> {
    crate::text::unicode_lowercase(trim_trailing_slashes(url))
}

pub open spec fn trim_trailing_slashes(s: Seq<char>) -> Seq<char>
    decreases s.len(),
{
    if s.len() > 0 && s.last() == '/' {
        trim_trailing_slashes(s.drop_last())
    } else {
        s
    }
}

fn trim_trailing_slashes_exec(s: &[char]) -> (r: Vec<char>)
    ensures
        r@ == trim_trailing_slashes(s@),
{
    let mut j: usize = s.len();
    assert(s@.take(s@.len() as int) =~= s@);
    while j > 0 && s[j - 1] == '/'
        invariant
            j <= s@.len(),
            trim_trailing_slashes(s@) == trim_trailing_slashes(s@.take(j as int)),
        decreases j,
    {
        assert(s@.take(j as int).drop_last() =~= s@.take(j - 1));
        j = j - 1;
    }
    let mut out: Vec<char> = Vec::new();
    let mut k: usize = 0;
    while k < j
        invariant
            k <= j <= s@.len(),
            out@ == s@.take(k as int),
        decreases j - k,
    {
        out.push(s[k]);
        k = k + 1;
        assert(out@ =~= s@.take(k as int));
    }
    out
}

/// The positions of the sources kept by de-duplication: each source whose
/// key no earlier source has.
pub open spec fn first_of_key(keys: Seq<Seq<char>>, i: int) -> bool {
    forall|j: int| 0 <= j < i ==> keys[j] != keys[i]
}

pub open spec fn source_keys(v: Seq<Source>) -> Seq<Seq<char>> {
    v.map_values(|s: Source| dedup_key(s.endpoint@))
}

/// The sources that de-duplication keeps, in order.
pub open spec fn dedup_spec(keys: Seq<Seq<char>>) -> Seq<int>
    decreases keys.len(),
{
    if keys.len() == 0 {
        seq![]
    } else {
        let rest = dedup_spec(keys.drop_last());
        if first_of_key(keys, keys.len() - 1) {
            rest.push(keys.len() - 1)
        } else {
            rest
        }
    }
}

proof fn lemma_dedup_range(keys: Seq<Seq<char>>)
    ensures
        dedup_spec(keys).len() <= keys.len(),
        forall|j: int| 0 <= j < dedup_spec(keys).len() ==> 0 <= #[trigger] dedup_spec(keys)[j] < keys.len(),
    decreases keys.len(),
{
    if keys.len() > 0 {
        lemma_dedup_range(keys.drop_last());
    }
}

/// Endpoints are compared without trailing slashes: adding one changes
/// no key, and the key of an endpoint never ends with one.
pub proof fn law_dedup_key_ignores_trailing_slashes(url: Seq<char>)
    ensures
        dedup_key(url + seq!['/']) == dedup_key(url),
        trim_trailing_slashes(url).len() == 0 || trim_trailing_slashes(url).last() != '/',
        trim_trailing_slashes(url).len() <= url.len(),
        trim_trailing_slashes(url) == url.take(trim_trailing_slashes(url).len() as int),
    decreases url.len(),
{
    assert((url + seq!['/']).drop_last() =~= url);
    if url.len() > 0 && url.last() == '/' {
        law_dedup_key_ignores_trailing_slashes(url.drop_last());
        assert(url.drop_last().take(trim_trailing_slashes(url).len() as int) =~= url.take(trim_trailing_slashes(url).len() as int));
    } else {
        assert(url.take(url.len() as int) =~= url);
    }
}

proof fn lemma_dedup_ordered(keys: Seq<Seq<char>>)
    ensures
        forall|a: int, b: int| 0 <= a < b < dedup_spec(keys).len() ==> #[trigger] dedup_spec(keys)[a] < #[trigger] dedup_spec(keys)[b],
        forall|a: int| 0 <= a < dedup_spec(keys).len() ==> 0 <= #[trigger] dedup_spec(keys)[a] < keys.len()
            && first_of_key(keys, dedup_spec(keys)[a]),
    decreases keys.len(),
{
    if keys.len() > 0 {
        let pre = keys.drop_last();
        lemma_dedup_ordered(pre);
        let d = dedup_spec(keys);
        let dp = dedup_spec(pre);
        assert forall|a: int| 0 <= a < d.len() implies 0 <= #[trigger] d[a] < keys.len() && first_of_key(keys, d[a]) by {
            if a < dp.len() {
                assert(d[a] == dp[a]);
                assert(first_of_key(pre, dp[a]));
                assert forall|j: int| 0 <= j < dp[a] implies #[trigger] keys[j] != keys[dp[a]] by {
                    assert(keys[j] == pre[j] && keys[dp[a]] == pre[dp[a]]);
                }
            }
        }
        assert forall|a: int, b: int| 0 <= a < b < d.len() implies #[trigger] d[a] < #[trigger] d[b] by {
            if b < dp.len() {
                assert(d[a] == dp[a] && d[b] == dp[b]);
            } else {
                assert(d[a] == dp[a]);
            }
        }
    }
}

proof fn lemma_dedup_covers(keys: Seq<Seq<char>>, i: int)
    requires
        0 <= i < keys.len(),
    ensures
        exists|a: int| 0 <= a < dedup_spec(keys).len() && keys[i] == keys[#[trigger] dedup_spec(keys)[a]],
    decreases keys.len(),
{
    let pre = keys.drop_last();
    let d = dedup_spec(keys);
    let dp = dedup_spec(pre);
    let last = keys.len() - 1;
    lemma_dedup_range(pre);
    if i < last {
        lemma_dedup_covers(pre, i);
        let a = choose|a: int| 0 <= a < dp.len() && pre[i] == pre[#[trigger] dp[a]];
        assert(d[a] == dp[a]);
        assert(keys[i] == keys[d[a]]);
    } else if first_of_key(keys, last) {
        assert(d[dp.len() as int] == last);
    } else {
        let j = choose|j: int| 0 <= j < last && keys[j] == keys[last];
        lemma_dedup_covers(pre, j);
        let a = choose|a: int| 0 <= a < dp.len() && pre[j] == pre[#[trigger] dp[a]];
        assert(d[a] == dp[a]);
        assert(keys[i] == keys[d[a]]);
    }
}

/// De-duplication keeps, in their order, exactly the first source of each
/// endpoint key: the kept positions increase, each holds the first
/// occurrence of its key (so no two kept sources share a key), and every
/// key of the input is kept.
pub proof fn law_dedup_first_of_each_key(keys: Seq<Seq<char>>)
    ensures
        forall|a: int, b: int| 0 <= a < b < dedup_spec(keys).len() ==> #[trigger] dedup_spec(keys)[a] < #[trigger] dedup_spec(keys)[b],
        forall|a: int| 0 <= a < dedup_spec(keys).len() ==> 0 <= #[trigger] dedup_spec(keys)[a] < keys.len()
            && first_of_key(keys, dedup_spec(keys)[a]),
        forall|a: int, b: int| 0 <= a < b < dedup_spec(keys).len() ==> keys[#[trigger] dedup_spec(keys)[a]] != keys[#[trigger] dedup_spec(keys)[b]],
        forall|i: int| 0 <= i < keys.len() ==> exists|a: int| 0 <= a < dedup_spec(keys).len() && #[trigger] keys[i] == keys[dedup_spec(keys)[a]],
{
    lemma_dedup_ordered(keys);
    let d = dedup_spec(keys);
    assert forall|a: int, b: int| 0 <= a < b < d.len() implies keys[#[trigger] d[a]] != keys[#[trigger] d[b]] by {
        assert(d[a] < d[b]);
        assert(first_of_key(keys, d[b]));
        assert(keys[d[a]] != keys[d[b]]);
    }
    assert forall|i: int| 0 <= i < keys.len() implies exists|a: int| 0 <= a < d.len() && #[trigger] keys[i] == keys[d[a]] by {
        lemma_dedup_covers(keys, i);
    }
}

/// Keeps the first source of each endpoint, comparing endpoints without
/// trailing slashes and case-insensitively.
pub fn deduplicate_sources(sources: Vec<Source>) -> (r: Vec<Source>)
    ensures
        r@.len() == dedup_spec(source_keys(sources@)).len(),
        forall|i: int| 0 <= i < r@.len() ==> {
            let k = dedup_spec(source_keys(sources@))[i];
            &&& 0 <= k < sources@.len()
            &&& (#[trigger] r@[i]).endpoint@ == sources@[k].endpoint@
            &&& r@[i].origin@ == sources@[k].origin@
        },
{
    let ghost keys = source_keys(sources@);
    let mut seen: Vec<Vec<char>> = Vec::new();
    let mut out: Vec<Source> = Vec::new();
    let mut rest = sources;
    let ghost all = rest@;
    let mut i: usize = 0;
    let n = rest.len();
    assert(all.skip(0) =~= all);
    while i < n
        invariant
            n == all.len(),
            keys == source_keys(all),
            i <= n,
            rest@ == all.skip(i as int),
            char_vec_views(seen@) == keys.take(i as int),
            out@.len() == dedup_spec(keys.take(i as int)).len(),
            forall|j: int| 0 <= j < out@.len() ==> {
                let k = dedup_spec(keys.take(i as int))[j];
                &&& 0 <= k < i
                &&& (#[trigger] out@[j]).endpoint@ == all[k].endpoint@
                &&& out@[j].origin@ == all[k].origin@
            },
        decreases n - i,
    {
        let s = rest.remove(0);
        assert(s == all[i as int]);
        let url_chars = chars_of(s.endpoint.as_str());
        let trimmed = trim_trailing_slashes_exec(url_chars.as_slice());
        let tstr = string_from_chars(trimmed.as_slice());
        let lowered = crate::text::to_lowercase(tstr.as_str());
        let key = chars_of(lowered.as_str());
        assert(key@ == keys[i as int]);
        let mut found = false;
        let mut j: usize = 0;
        while j < seen.len()
            invariant
                j <= seen@.len(),
                seen@.len() == i,
                i < keys.len(),
                char_vec_views(seen@) == keys.take(i as int),
                key@ == keys[i as int],
                found == exists|m: int| 0 <= m < j && keys[m] == keys[i as int],
            decreases seen@.len() - j,
        {
            assert(char_vec_views(seen@)[j as int] == seen@[j as int]@);
            assert(keys.take(i as int)[j as int] == keys[j as int]);
            if crate::text::same_chars(seen[j].as_slice(), key.as_slice()) {
                found = true;
            }
            j = j + 1;
        }
        let ghost pre = keys.take(i as int);
        let ghost nxt = keys.take(i + 1);
        assert(nxt.drop_last() =~= pre);
        assert(first_of_key(nxt, i as int) == !found) by {
            assert forall|m: int| 0 <= m < i implies nxt[m] == keys[m] by {}
        }
        let ghost seen_before = seen@;
        seen.push(key);
        assert(char_vec_views(seen@) =~= nxt) by {
            assert(char_vec_views(seen@) =~= char_vec_views(seen_before).push(keys[i as int]));
        }
        assert(dedup_spec(nxt) == if first_of_key(nxt, i as int) {
            dedup_spec(pre).push(i as int)
        } else {
            dedup_spec(pre)
        });
        let ghost out_before = out@;
        if !found {
            out.push(s);
        }
        proof {
            lemma_dedup_range(nxt);
            assert forall|j: int| 0 <= j < out@.len() implies {
                let k = dedup_spec(nxt)[j];
                &&& 0 <= k < i + 1
                &&& (#[trigger] out@[j]).endpoint@ == all[k].endpoint@
                &&& out@[j].origin@ == all[k].origin@
            } by {
                if j < out_before.len() {
                    assert(out@[j] == out_before[j]);
                }
            }
        }
        i = i + 1;
        assert(keys.take(i as int) == nxt);
        assert(rest@ =~= all.skip(i as int));
    }
    assert(keys.take(n as int) =~= keys);
    proof {
        lemma_dedup_range(keys);
    }
    out
}

/// Where the list of sources to search comes from, in priority order.
pub enum SourcePlan {
    /// Use these addresses, labelled with this origin.
    Use { raw: Vec<String>, origin: String },
    /// Read the endpoints saved by discovery and go on with
    /// `sources_after_discovery`.
    ReadDiscovered,
}

/// The pieces trimmed, and empty ones dropped.
pub open spec fn nonempty_trimmed(pieces: Seq<Seq<char>>) -> Seq<Seq<char>>
    decreases pieces.len(),
{
    if pieces.len() == 0 {
        seq![]
    } else {
        let rest = nonempty_trimmed(pieces.drop_last());
        let t = trim(pieces.last());
        if t.len() > 0 {
            rest.push(t)
        } else {
            rest
        }
    }
}

/// The `,`-separated list in an environment value, each entry trimmed and
/// empty entries dropped.
pub open spec fn env_list(value: Seq<char>) -> Seq<Seq<char>> {
    nonempty_trimmed(split_spec(value, ','))
}

pub fn split_env_list(value: &str) -> (r: Vec<String>)
    ensures
        string_views(r@) == env_list(value@),
{
    let c = chars_of(value);
    let parts = split_chars(c.as_slice(), ',');
    let ghost pieces = split_spec(value@, ',');
    let mut out: Vec<String> = Vec::new();
    let mut i: usize = 0;
    assert(string_views(out@) =~= nonempty_trimmed(pieces.take(0)));
    while i < parts.len()
        invariant
            i <= parts@.len(),
            char_vec_views(parts@) == pieces,
            string_views(out@) == nonempty_trimmed(pieces.take(i as int)),
        decreases parts@.len() - i,
    {
        assert(char_vec_views(parts@)[i as int] == parts@[i as int]@);
        assert(pieces.take(i + 1).drop_last() =~= pieces.take(i as int));
        let t = trim_chars(parts[i].as_slice());
        let ghost before = out@;
        if t.len() > 0 {
            out.push(string_from_chars(t.as_slice()));
            assert(string_views(out@) =~= string_views(before).push(t@));
        }
        i = i + 1;
    }
    assert(pieces.take(parts@.len() as int) =~= pieces);
    out
}

/// Resolves where the sources come from: explicit `--indexer` values, then
/// the `TPB_INDEXERS` environment list, then the endpoints saved by a
/// previous discovery.
pub fn plan_sources(indexers: &Vec<String>, env_value: Option<&str>) -> (r: SourcePlan)
    ensures
        indexers@.len() > 0 ==> (r matches SourcePlan::Use { raw, origin } && string_views(raw@)
            == string_views(indexers@) && origin@ == "cli"@),
        indexers@.len() == 0 && env_value is Some ==> (r matches SourcePlan::Use { raw, origin }
            && string_views(raw@) == env_list(env_value->0@) && origin@ == "environment"@),
        indexers@.len() == 0 && env_value is None ==> r is ReadDiscovered,
{
    if indexers.len() > 0 {
        return SourcePlan::Use {
            raw: crate::torrent::copy_texts(indexers),
            origin: String::from_str("cli"),
        };
    }
    match env_value {
        Some(v) => SourcePlan::Use { raw: split_env_list(v), origin: String::from_str("environment") },
        None => SourcePlan::ReadDiscovered,
    }
}

/// The sources once saved discovery results are known: those, or the
/// built-in known mirrors when none were saved.
pub fn sources_after_discovery(discovered: Vec<String>) -> (r: Result<Vec<Source>, SourceError>)
    ensures
        discovered@.len() > 0 ==> sources_parsed(discovered@, "discovery cache"@, r),
        discovered@.len() == 0 ==> exists|raw: Seq<String>| raw.len() == 1 && raw[0]@ == "https://apibay.org"@
            && #[trigger] sources_parsed(raw, "known mirror"@, r),
{
    if discovered.len() > 0 {
        return parse_sources(discovered, "discovery cache");
    }
    let mut raw: Vec<String> = Vec::new();
    raw.push(String::from_str(KNOWN_MIRRORS[0]));
    parse_sources(raw, "known mirror")
}

} // verus!
