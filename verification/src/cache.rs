//! What the local store keeps and how it names it: the saved indexer
//! endpoints (one per line) and the cached searches (a file per query,
//! named by a case-insensitive FNV-1a hash, fresh for fifteen minutes).
use vstd::prelude::*;
use vstd::utf8::*;
use crate::text::{
    append_str, char_vec_views, chars_of, hex_digits, is_ws, lemma_find_char_at, lines_of,
    lines_spec, push_hex, string_from_chars, string_views, strip_cr, to_lowercase, trim, trim_chars,
    trim_start, unicode_lowercase,
};

verus! {

/// How long a cached search stays fresh, in seconds (fifteen minutes).
pub const SEARCH_CACHE_TTL_SECS: u64 = 900;

/// The FNV-1a offset basis.
pub const FNV_OFFSET: u64 = 0xcbf2_9ce4_8422_2325;

/// The FNV-1a prime.
pub const FNV_PRIME: u64 = 0x0000_0100_0000_01b3;

/// One FNV-1a step: xor the byte in, then multiply modulo 2^64.
pub open spec fn fnv_step(hash: u64, byte: u8) -> u64 {
    vstd::wrapping::u64_specs::wrapping_mul(hash ^ (byte as u64), FNV_PRIME)
}

/// FNV-1a over `bytes`, from the offset basis.
pub open spec fn fnv1a(bytes: Seq<u8>) -> u64
    decreases bytes.len(),
{
    if bytes.len() == 0 {
        FNV_OFFSET
    } else {
        fnv_step(fnv1a(bytes.drop_last()), bytes.last())
    }
}

/// The cache key of a query: FNV-1a over the UTF-8 bytes of its lowercase form.
pub open spec fn query_hash_spec(query: Seq<char>) -> u64 {
    fnv1a(encode_utf8(unicode_lowercase(query)))
}

/// The cache key of `query`; a stable file name, not a security boundary.
pub fn query_hash(query: &str) -> (r: u64)
    ensures
        r == query_hash_spec(query@),
{
    let lower = to_lowercase(query);
    let bytes = lower.as_str().as_bytes();
    let mut hash: u64 = FNV_OFFSET;
    let mut i: usize = 0;
    while i < bytes.len()
        invariant
            i <= bytes@.len(),
            bytes@ == encode_utf8(unicode_lowercase(query@)),
            hash == fnv1a(bytes@.take(i as int)),
        decreases bytes@.len() - i,
    {
        let b = bytes[i];
        assert(bytes@.take(i + 1).drop_last() =~= bytes@.take(i as int));
        hash = (hash ^ (b as u64)).wrapping_mul(FNV_PRIME);
        i = i + 1;
    }
    assert(bytes@.take(bytes@.len() as int) =~= bytes@);
    hash
}

/// Queries that differ only in letter case share one cache entry: two
/// queries whose lowercase forms agree have the same key.
pub proof fn law_query_hash_case_insensitive(a: Seq<char>, b: Seq<char>)
    requires
        unicode_lowercase(a) == unicode_lowercase(b),
    ensures
        query_hash_spec(a) == query_hash_spec(b),
{
}

/// The file name under which the results of `query` are cached: the key
/// as sixteen lowercase hexadecimal digits, then `.json`.
pub open spec fn search_cache_file_spec(query: Seq<char>) -> Seq<char> {
    hex_digits(query_hash_spec(query) as nat, 16, false) + ".json"@
}

pub fn search_cache_file_name(query: &str) -> (r: String)
    ensures
        r@ == search_cache_file_spec(query@),
{
    let h = query_hash(query);
    let mut out: Vec<char> = Vec::new();
    push_hex(&mut out, h, 16, false);
    append_str(&mut out, ".json");
    string_from_chars(out.as_slice())
}

/// Whether results saved at `saved_at_secs` are still fresh at `now_secs`
/// (a clock that went backwards counts as no time passed).
pub open spec fn is_fresh(now_secs: u64, saved_at_secs: u64) -> bool {
    now_secs <= saved_at_secs || now_secs - saved_at_secs <= SEARCH_CACHE_TTL_SECS
}

pub fn cache_is_fresh(now_secs: u64, saved_at_secs: u64) -> (r: bool)
    ensures
        r == is_fresh(now_secs, saved_at_secs),
{
    now_secs.saturating_sub(saved_at_secs) <= SEARCH_CACHE_TTL_SECS
}

// ---------------------------------------------------------------------------
// The saved endpoint list
// ---------------------------------------------------------------------------

/// A trimmed line that names an endpoint: not empty and not a `#` comment.
pub open spec fn is_endpoint_line(t: Seq<char>) -> bool {
    t.len() > 0 && t[0] != '#'
}

/// The trimmed endpoint lines among `lines`, in order.
pub open spec fn endpoint_lines(lines: Seq<Seq<char>>) -> Seq<Seq<char>>
    decreases lines.len(),
{
    if lines.len() == 0 {
        seq![]
    } else {
        let t = trim(lines[0]);
        let head: Seq<Seq<char>> = if is_endpoint_line(t) {
            seq![t]
        } else {
            seq![]
        };
        head + endpoint_lines(lines.drop_first())
    }
}

/// The endpoints that a saved file with text `content` lists.
pub open spec fn saved_endpoints(content: Seq<char>) -> Seq<Seq<char>> {
    endpoint_lines(lines_spec(content))
}

/// Reads the endpoints out of the text of the saved file.
pub fn parse_discovered_sources(content: &str) -> (r: Vec<String>)
    ensures
        string_views(r@) == saved_endpoints(content@),
{
    let c = chars_of(content);
    let lines = lines_of(c.as_slice());
    let ghost all = lines_spec(content@);
    let mut out: Vec<String> = Vec::new();
    let mut i: usize = 0;
    assert(all.skip(0) =~= all);
    assert(string_views(out@) =~= Seq::<Seq<char>>::empty());
    while i < lines.len()
        invariant
            i <= lines@.len(),
            char_vec_views(lines@) == all,
            endpoint_lines(all) == string_views(out@) + endpoint_lines(all.skip(i as int)),
        decreases lines@.len() - i,
    {
        assert(char_vec_views(lines@)[i as int] == lines@[i as int]@);
        let ghost rest = all.skip(i as int);
        assert(rest[0] == all[i as int]);
        assert(rest.drop_first() =~= all.skip(i + 1));
        let t = trim_chars(lines[i].as_slice());
        let ghost before = out@;
        if t.len() > 0 && t[0] != '#' {
            out.push(string_from_chars(t.as_slice()));
            assert(string_views(out@) =~= string_views(before) + seq![t@]);
        } else {
            assert(string_views(out@) =~= string_views(before));
        }
        i = i + 1;
    }
    assert(all.skip(lines@.len() as int) =~= Seq::<Seq<char>>::empty());
    assert(string_views(out@) + Seq::<Seq<char>>::empty() =~= string_views(out@));
    out
}

/// The text of the saved file: each endpoint on a line of its own, each
/// line ended by `\n`.
pub open spec fn endpoint_file_text(endpoints: Seq<Seq<char>>) -> Seq<char>
    decreases endpoints.len(),
{
    if endpoints.len() == 0 {
        seq![]
    } else {
        endpoints[0] + seq!['\n'] + endpoint_file_text(endpoints.drop_first())
    }
}

/// The text to save for `endpoints`, or `None` when there is nothing to
/// save (an empty list leaves the saved file as it is).
pub fn discovered_sources_content(endpoints: &Vec<String>) -> (r: Option<String>)
    ensures
        endpoints@.len() == 0 <==> r is None,
        r matches Some(s) ==> s@ == endpoint_file_text(string_views(endpoints@)),
{
    if endpoints.len() == 0 {
        return None;
    }
    let ghost all = string_views(endpoints@);
    let mut out: Vec<char> = Vec::new();
    let mut i: usize = 0;
    assert(all.skip(0) =~= all);
    while i < endpoints.len()
        invariant
            i <= endpoints@.len(),
            all == string_views(endpoints@),
            endpoint_file_text(all) == out@ + endpoint_file_text(all.skip(i as int)),
        decreases endpoints@.len() - i,
    {
        let ghost rest = all.skip(i as int);
        assert(rest[0] == endpoints@[i as int]@);
        assert(rest.drop_first() =~= all.skip(i + 1));
        let ghost before = out@;
        append_str(&mut out, endpoints[i].as_str());
        out.push('\n');
        assert(out@ =~= before + endpoints@[i as int]@ + seq!['\n']);
        assert(before + endpoint_file_text(rest) =~= out@ + endpoint_file_text(all.skip(i + 1)));
        i = i + 1;
    }
    assert(all.skip(endpoints@.len() as int) =~= Seq::<Seq<char>>::empty());
    assert(out@ + Seq::<char>::empty() =~= out@);
    Some(string_from_chars(out.as_slice()))
}

/// An endpoint that survives a save and a load unchanged: not empty, no
/// white space at either end, no line break, and not read as a comment.
pub open spec fn is_storable_endpoint(e: Seq<char>) -> bool {
    &&& e.len() > 0
    &&& !is_ws(e[0])
    &&& !is_ws(e.last())
    &&& e[0] != '#'
    &&& forall|k: int| 0 <= k < e.len() ==> e[k] != '\n'
}

proof fn lemma_trim_unchanged(e: Seq<char>)
    requires
        e.len() > 0,
        !is_ws(e[0]),
        !is_ws(e.last()),
    ensures
        trim(e) == e,
{
    assert(trim_start(e) == e);
}

/// Saving endpoints and loading them again gives back the same list, for
/// every list of endpoints that can be stored.
pub proof fn law_saved_endpoints_round_trip(endpoints: Seq<Seq<char>>)
    requires
        forall|i: int| 0 <= i < endpoints.len() ==> is_storable_endpoint(#[trigger] endpoints[i]),
    ensures
        saved_endpoints(endpoint_file_text(endpoints)) == endpoints,
    decreases endpoints.len(),
{
    if endpoints.len() > 0 {
        let e = endpoints[0];
        let rest = endpoints.drop_first();
        assert(is_storable_endpoint(endpoints[0]));
        assert forall|i: int| 0 <= i < rest.len() implies is_storable_endpoint(#[trigger] rest[i]) by {
            assert(rest[i] == endpoints[i + 1]);
        }
        law_saved_endpoints_round_trip(rest);
        let s = endpoint_file_text(endpoints);
        let n = e.len() as int;
        assert(s == e + seq!['\n'] + endpoint_file_text(rest));
        assert forall|k: int| 0 <= k < n implies s[k] != '\n' by {
            assert(s[k] == e[k]);
        }
        assert(s[n] == '\n');
        lemma_find_char_at(s, '\n', n);
        assert(s.take(n) =~= e);
        assert(s.skip(n + 1) =~= endpoint_file_text(rest));
        assert(e.last() != '\r');
        assert(strip_cr(e) == e);
        let lines = lines_spec(s);
        assert(lines == seq![e] + lines_spec(endpoint_file_text(rest)));
        assert(lines[0] == e);
        assert(lines.drop_first() =~= lines_spec(endpoint_file_text(rest)));
        lemma_trim_unchanged(e);
        assert(endpoint_lines(lines) == seq![e] + endpoint_lines(lines.drop_first()));
        assert(seq![e] + rest =~= endpoints);
    } else {
        assert(endpoint_file_text(endpoints) =~= Seq::<char>::empty());
        assert(lines_spec(Seq::<char>::empty()) =~= Seq::<Seq<char>>::empty());
        assert(endpoints =~= Seq::<Seq<char>>::empty());
    }
}

} // verus!
