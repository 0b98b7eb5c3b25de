//! The normalized search result and the condensing of results that share a
//! BitTorrent info hash.
use crate::text::{
    ascii_lower, chars_are, chars_of, has_prefix, opt_view, seq_contains_text, starts_with_str,
    string_views, to_ascii_lowercase,
};
use crate::web_url::{url_parse, url_query_pairs, WebUrl, pair_views};
use vstd::prelude::*;

verus! {

/// One normalized search result. The four counters at the end record the
/// swarm samples that an averaged `seeders`/`leechers` value was made from.
#[derive(Debug, Clone)]
pub struct Torrent {
    pub source: String,
    pub sources: Vec<String>,
    pub title: String,
    pub magnet: Option<String>,
    pub download: Option<String>,
    pub details: Option<String>,
    pub category: Option<String>,
    pub published: Option<String>,
    pub size_bytes: Option<u64>,
    pub seeders: Option<u64>,
    pub leechers: Option<u64>,
    pub grabs: Option<u64>,
    pub averaged_swarm_stats: bool,
    pub seeder_total: u64,
    pub seeder_samples: u64,
    pub leecher_total: u64,
    pub leecher_samples: u64,
}

/// A `Torrent` with every text as its characters.
pub ghost struct TorrentView {
    pub source: Seq<char>,
    pub sources: Seq<Seq<char>>,
    pub title: Seq<char>,
    pub magnet: Option<Seq<char>>,
    pub download: Option<Seq<char>>,
    pub details: Option<Seq<char>>,
    pub category: Option<Seq<char>>,
    pub published: Option<Seq<char>>,
    pub size_bytes: Option<u64>,
    pub seeders: Option<u64>,
    pub leechers: Option<u64>,
    pub grabs: Option<u64>,
    pub averaged_swarm_stats: bool,
    pub seeder_total: u64,
    pub seeder_samples: u64,
    pub leecher_total: u64,
    pub leecher_samples: u64,
}

impl View for Torrent {
    type V = TorrentView;

    open spec fn view(&self) -> TorrentView {
        TorrentView {
            source: self.source@,
            sources: string_views(self.sources@),
            title: self.title@,
            magnet: opt_view(self.magnet),
            download: opt_view(self.download),
            details: opt_view(self.details),
            category: opt_view(self.category),
            published: opt_view(self.published),
            size_bytes: self.size_bytes,
            seeders: self.seeders,
            leechers: self.leechers,
            grabs: self.grabs,
            averaged_swarm_stats: self.averaged_swarm_stats,
            seeder_total: self.seeder_total,
            seeder_samples: self.seeder_samples,
            leecher_total: self.leecher_total,
            leecher_samples: self.leecher_samples,
        }
    }
}

/// The empty result: no text, no values, no samples.
pub open spec fn empty_torrent() -> TorrentView {
    TorrentView {
        source: seq![],
        sources: seq![],
        title: seq![],
        magnet: None,
        download: None,
        details: None,
        category: None,
        published: None,
        size_bytes: None,
        seeders: None,
        leechers: None,
        grabs: None,
        averaged_swarm_stats: false,
        seeder_total: 0,
        seeder_samples: 0,
        leecher_total: 0,
        leecher_samples: 0,
    }
}

impl Default for Torrent {
    fn default() -> (r: Torrent)
        ensures
            r@ == empty_torrent(),
    {
        let r = Torrent {
            source: String::new(),
            sources: Vec::new(),
            title: String::new(),
            magnet: None,
            download: None,
            details: None,
            category: None,
            published: None,
            size_bytes: None,
            seeders: None,
            leechers: None,
            grabs: None,
            averaged_swarm_stats: false,
            seeder_total: 0,
            seeder_samples: 0,
            leecher_total: 0,
            leecher_samples: 0,
        };
        assert(r@.sources =~= Seq::<Seq<char>>::empty());
        r
    }
}

/// The views of a sequence of results.
pub open spec fn torrent_views(v: Seq<Torrent>) -> Seq<TorrentView> {
    v.map_values(|t: Torrent| t@)
}


// ---------------------------------------------------------------------------
// Copies
// ---------------------------------------------------------------------------

pub fn copy_text(s: &String) -> (r: String)
    ensures
        r@ == s@,
{
    s.clone()
}

pub fn copy_opt_text(o: &Option<String>) -> (r: Option<String>)
    ensures
        opt_view(r) == opt_view(*o),
{
    match o {
        Some(s) => Some(s.clone()),
        None => None,
    }
}

pub fn copy_texts(v: &Vec<String>) -> (r: Vec<String>)
    ensures
        string_views(r@) == string_views(v@),
{
    let mut out: Vec<String> = Vec::new();
    let mut i: usize = 0;
    while i < v.len()
        invariant
            i <= v@.len(),
            string_views(out@) == string_views(v@).take(i as int),
        decreases v@.len() - i,
    {
        let ghost before = out@;
        let c = v[i].clone();
        assert(c@ == v@[i as int]@);
        out.push(c);
        i = i + 1;
        assert(string_views(out@) =~= string_views(v@).take(i as int)) by {
            assert(out@ == before.push(c));
            assert(string_views(v@).take(i as int) =~= string_views(v@).take(i - 1).push(v@[i - 1]@));
        }
    }
    assert(string_views(v@).take(v@.len() as int) =~= string_views(v@));
    out
}

impl Torrent {
    /// A copy of this result.
    pub fn duplicate(&self) -> (r: Torrent)
        ensures
            r@ == self@,
    {
        Torrent {
            source: copy_text(&self.source),
            sources: copy_texts(&self.sources),
            title: copy_text(&self.title),
            magnet: copy_opt_text(&self.magnet),
            download: copy_opt_text(&self.download),
            details: copy_opt_text(&self.details),
            category: copy_opt_text(&self.category),
            published: copy_opt_text(&self.published),
            size_bytes: self.size_bytes,
            seeders: self.seeders,
            leechers: self.leechers,
            grabs: self.grabs,
            averaged_swarm_stats: self.averaged_swarm_stats,
            seeder_total: self.seeder_total,
            seeder_samples: self.seeder_samples,
            leecher_total: self.leecher_total,
            leecher_samples: self.leecher_samples,
        }
    }
}

// ---------------------------------------------------------------------------
// The info hash of a result
// ---------------------------------------------------------------------------

/// The info hash named by the first `xt` pair whose lowercased value is a
/// `urn:btih:` or `urn:btmh:` URN, lowercased.
pub open spec fn xt_hash(pairs: Seq<(Seq<char>, Seq<char>)>) -> Option<Seq<char>>
    decreases pairs.len(),
{
    if pairs.len() == 0 {
        None
    } else {
        let v = ascii_lower(pairs[0].1);
        if pairs[0].0 == "xt"@ && has_prefix(v, "urn:btih:"@) {
            Some(v.skip("urn:btih:"@.len() as int))
        } else if pairs[0].0 == "xt"@ && has_prefix(v, "urn:btmh:"@) {
            Some(v.skip("urn:btmh:"@.len() as int))
        } else {
            xt_hash(pairs.drop_first())
        }
    }
}

/// The key under which results are condensed: the info hash in the query
/// of the result's magnet URI, when it has one that parses as a URL.
pub open spec fn magnet_key(t: TorrentView) -> Option<Seq<char>> {
    match t.magnet {
        None => None,
        Some(m) => match url_parse(m) {
            None => None,
            Some(u) => xt_hash(url_query_pairs(u)),
        },
    }
}

fn skip_chars(v: &Vec<char>, n: usize) -> (r: Vec<char>)
    requires
        n <= v@.len(),
    ensures
        r@ == v@.skip(n as int),
{
    let mut out: Vec<char> = Vec::new();
    let mut i: usize = n;
    while i < v.len()
        invariant
            n <= i <= v@.len(),
            out@ == v@.subrange(n as int, i as int),
        decreases v@.len() - i,
    {
        out.push(v[i]);
        i = i + 1;
        assert(out@ =~= v@.subrange(n as int, i as int));
    }
    assert(out@ =~= v@.skip(n as int));
    out
}

fn xt_hash_exec(pairs: &Vec<(String, String)>) -> (r: Option<Vec<char>>)
    ensures
        match r {
            Some(h) => xt_hash(pair_views(pairs@)) == Some(h@),
            None => xt_hash(pair_views(pairs@)) is None,
        },
{
    let mut i: usize = 0;
    assert(pair_views(pairs@).skip(0) =~= pair_views(pairs@));
    while i < pairs.len()
        invariant
            i <= pairs@.len(),
            xt_hash(pair_views(pairs@)) == xt_hash(pair_views(pairs@).skip(i as int)),
        decreases pairs@.len() - i,
    {
        let ghost rest = pair_views(pairs@).skip(i as int);
        assert(rest[0] == (pairs@[i as int].0@, pairs@[i as int].1@));
        assert(rest.drop_first() =~= pair_views(pairs@).skip(i + 1));
        let key = chars_of(pairs[i].0.as_str());
        let raw = chars_of(pairs[i].1.as_str());
        let v = to_ascii_lowercase(raw.as_slice());
        if chars_are(key.as_slice(), "xt") {
            if starts_with_str(v.as_slice(), "urn:btih:") {
                proof { reveal_strlit("urn:btih:"); }
                return Some(skip_chars(&v, 9));
            }
            if starts_with_str(v.as_slice(), "urn:btmh:") {
                proof { reveal_strlit("urn:btmh:"); }
                return Some(skip_chars(&v, 9));
            }
        }
        i = i + 1;
    }
    assert(pair_views(pairs@).skip(pairs@.len() as int) =~= Seq::<(Seq<char>, Seq<char>)>::empty());
    None
}

/// The info hash of a result (see `magnet_key`).
pub fn torrent_hash(t: &Torrent) -> (r: Option<Vec<char>>)
    ensures
        match r {
            Some(h) => magnet_key(t@) == Some(h@),
            None => magnet_key(t@) is None,
        },
{
    match &t.magnet {
        None => None,
        Some(m) => match WebUrl::parse(m.as_str()) {
            None => None,
            Some(u) => {
                let pairs = u.query_pairs();
                xt_hash_exec(&pairs)
            },
        },
    }
}

// ---------------------------------------------------------------------------
// Condensing results that share an info hash
// ---------------------------------------------------------------------------

/// A result made ready for merging: a reported swarm count becomes its
/// first sample, and its own source becomes its source list when that is
/// empty.
pub open spec fn prepared(t: TorrentView) -> TorrentView {
    let t1 = if t.seeder_samples == 0 && t.seeders is Some {
        TorrentView { seeder_total: t.seeders->0, seeder_samples: 1, ..t }
    } else {
        t
    };
    let t2 = if t1.leecher_samples == 0 && t1.leechers is Some {
        TorrentView { leecher_total: t1.leechers->0, leecher_samples: 1, ..t1 }
    } else {
        t1
    };
    if t2.sources.len() == 0 && t2.source.len() > 0 {
        TorrentView { sources: seq![t2.source], ..t2 }
    } else {
        t2
    }
}

/// The mean of `count` samples summing to `total`, rounded half up; none
/// without samples.
pub open spec fn average(total: int, count: int) -> Option<u64> {
    if count > 0 {
        Some(((total + count / 2) / count) as u64)
    } else {
        None
    }
}

pub open spec fn max_opt(a: Option<u64>, b: Option<u64>) -> Option<u64> {
    match (a, b) {
        (Some(x), Some(y)) => Some(if x >= y { x } else { y }),
        (Some(x), None) => Some(x),
        (None, Some(y)) => Some(y),
        (None, None) => None,
    }
}

/// `a` followed by each source of `b` that it does not hold yet.
pub open spec fn union_sources(a: Seq<Seq<char>>, b: Seq<Seq<char>>) -> Seq<Seq<char>>
    decreases b.len(),
{
    if b.len() == 0 {
        a
    } else {
        union_sources(if a.contains(b[0]) { a } else { a.push(b[0]) }, b.drop_first())
    }
}

/// The sums that merging `b` into `a` computes fit in 64 bits.
pub open spec fn merge_fits(a: TorrentView, b: TorrentView) -> bool {
    &&& a.seeder_samples + b.seeder_samples <= u64::MAX
    &&& a.seeder_total + b.seeder_total + (a.seeder_samples + b.seeder_samples) / 2 <= u64::MAX
    &&& a.leecher_samples + b.leecher_samples <= u64::MAX
    &&& a.leecher_total + b.leecher_total + (a.leecher_samples + b.leecher_samples) / 2
        <= u64::MAX
}

/// `b` merged into `a`: samples pooled and averaged, the larger grab count,
/// missing size, category and date filled from `b`, sources united.
pub open spec fn merged(a: TorrentView, b: TorrentView) -> TorrentView {
    let st = a.seeder_total + b.seeder_total;
    let ss = a.seeder_samples + b.seeder_samples;
    let lt = a.leecher_total + b.leecher_total;
    let ls = a.leecher_samples + b.leecher_samples;
    TorrentView {
        seeder_total: st as u64,
        seeder_samples: ss as u64,
        seeders: average(st, ss),
        leecher_total: lt as u64,
        leecher_samples: ls as u64,
        leechers: average(lt, ls),
        grabs: max_opt(a.grabs, b.grabs),
        size_bytes: if a.size_bytes is None { b.size_bytes } else { a.size_bytes },
        category: if a.category is None { b.category } else { a.category },
        published: if a.published is None { b.published } else { a.published },
        sources: union_sources(a.sources, b.sources),
        ..a
    }
}

/// The first position in `acc` whose key is `h`, or -1.
pub open spec fn key_index(acc: Seq<TorrentView>, h: Seq<char>) -> int
    decreases acc.len(),
{
    if acc.len() == 0 {
        -1
    } else {
        let j = key_index(acc.drop_last(), h);
        if j >= 0 {
            j
        } else if magnet_key(acc.last()) == Some(h) {
            acc.len() - 1
        } else {
            -1
        }
    }
}

/// One result folded into the condensed list: merged into the entry with
/// its info hash, or appended.
pub open spec fn condense_step(acc: Seq<TorrentView>, t: TorrentView) -> Seq<TorrentView> {
    let p = prepared(t);
    match magnet_key(p) {
        None => acc.push(p),
        Some(h) => {
            let i = key_index(acc, h);
            if i >= 0 {
                acc.update(i, merged(acc[i], p))
            } else {
                acc.push(p)
            }
        },
    }
}

/// The condensed list of `ts`, before the averaged flag is set.
pub open spec fn condensed(ts: Seq<TorrentView>) -> Seq<TorrentView>
    decreases ts.len(),
{
    if ts.len() == 0 {
        seq![]
    } else {
        condense_step(condensed(ts.drop_last()), ts.last())
    }
}

pub open spec fn step_fits(acc: Seq<TorrentView>, t: TorrentView) -> bool {
    let p = prepared(t);
    match magnet_key(p) {
        None => true,
        Some(h) => {
            let i = key_index(acc, h);
            i >= 0 ==> merge_fits(acc[i], p)
        },
    }
}

/// Every merge made while condensing `ts` stays within 64 bits.
pub open spec fn condense_fits(ts: Seq<TorrentView>) -> bool
    decreases ts.len(),
{
    ts.len() == 0 || (condense_fits(ts.drop_last()) && step_fits(condensed(ts.drop_last()), ts.last()))
}

pub open spec fn flag_averaged(t: TorrentView) -> TorrentView {
    TorrentView { averaged_swarm_stats: t.sources.len() > 1, ..t }
}

/// What `condense_by_hash` returns for `ts`.
pub open spec fn condense_spec(ts: Seq<TorrentView>) -> Seq<TorrentView> {
    condensed(ts).map_values(|t: TorrentView| flag_averaged(t))
}

proof fn lemma_fits_prefix(ts: Seq<TorrentView>, j: int)
    requires
        0 <= j <= ts.len(),
        condense_fits(ts),
    ensures
        condense_fits(ts.take(j)),
    decreases ts.len() - j,
{
    if j < ts.len() {
        assert(ts.drop_last() =~= ts.take(ts.len() - 1));
        lemma_fits_prefix(ts.drop_last(), j);
        assert(ts.drop_last().take(j) =~= ts.take(j));
    } else {
        assert(ts.take(j) =~= ts);
    }
}

fn prepare(t: &mut Torrent)
    ensures
        final(t)@ == prepared(old(t)@),
{
    if t.seeder_samples == 0 {
        if let Some(s) = t.seeders {
            t.seeder_total = s;
            t.seeder_samples = 1;
        }
    }
    if t.leecher_samples == 0 {
        if let Some(l) = t.leechers {
            t.leecher_total = l;
            t.leecher_samples = 1;
        }
    }
    if t.sources.len() == 0 && !t.source.as_str().is_empty() {
        let ghost before = t.sources@;
        let s = t.source.clone();
        t.sources.push(s);
        assert(string_views(t.sources@) =~= seq![t.source@]);
    }
}

fn average_option(total: u64, count: u64) -> (r: Option<u64>)
    requires
        total + count / 2 <= u64::MAX,
    ensures
        r == average(total as int, count as int),
{
    if count > 0 {
        Some((total + count / 2) / count)
    } else {
        None
    }
}

fn max_option(current: Option<u64>, candidate: Option<u64>) -> (r: Option<u64>)
    ensures
        r == max_opt(current, candidate),
{
    match (current, candidate) {
        (Some(c), Some(d)) => Some(if c >= d { c } else { d }),
        (Some(c), None) => Some(c),
        (None, Some(d)) => Some(d),
        (None, None) => None,
    }
}

fn union_into(target: &mut Vec<String>, incoming: &Vec<String>)
    ensures
        string_views(final(target)@) == union_sources(string_views(old(target)@), string_views(incoming@)),
{
    let mut i: usize = 0;
    assert(string_views(incoming@).skip(0) =~= string_views(incoming@));
    while i < incoming.len()
        invariant
            i <= incoming@.len(),
            union_sources(string_views(old(target)@), string_views(incoming@)) == union_sources(
                string_views(target@),
                string_views(incoming@).skip(i as int),
            ),
        decreases incoming@.len() - i,
    {
        let ghost rest = string_views(incoming@).skip(i as int);
        assert(rest[0] == incoming@[i as int]@);
        assert(rest.drop_first() =~= string_views(incoming@).skip(i + 1));
        if !seq_contains_text(target, &incoming[i]) {
            let ghost before = target@;
            target.push(incoming[i].clone());
            assert(string_views(target@) =~= string_views(before).push(incoming@[i as int]@));
        }
        i = i + 1;
    }
    assert(string_views(incoming@).skip(incoming@.len() as int) =~= Seq::<Seq<char>>::empty());
}

fn merge_torrent(target: &mut Torrent, incoming: &Torrent)
    requires
        merge_fits(old(target)@, incoming@),
    ensures
        final(target)@ == merged(old(target)@, incoming@),
{
    target.seeder_total = target.seeder_total + incoming.seeder_total;
    target.seeder_samples = target.seeder_samples + incoming.seeder_samples;
    target.seeders = average_option(target.seeder_total, target.seeder_samples);
    target.leecher_total = target.leecher_total + incoming.leecher_total;
    target.leecher_samples = target.leecher_samples + incoming.leecher_samples;
    target.leechers = average_option(target.leecher_total, target.leecher_samples);
    target.grabs = max_option(target.grabs, incoming.grabs);
    if target.size_bytes.is_none() {
        target.size_bytes = incoming.size_bytes;
    }
    if target.category.is_none() {
        target.category = copy_opt_text(&incoming.category);
    }
    if target.published.is_none() {
        target.published = copy_opt_text(&incoming.published);
    }
    union_into(&mut target.sources, &incoming.sources);
}

pub open spec fn key_views(keys: Seq<Option<Vec<char>>>) -> Seq<Option<Seq<char>>> {
    keys.map_values(|k: Option<Vec<char>>| match k {
        Some(v) => Some(v@),
        None => None,
    })
}

fn find_key(keys: &Vec<Option<Vec<char>>>, h: &Vec<char>, Ghost(acc): Ghost<Seq<TorrentView>>) -> (r: Option<usize>)
    requires
        keys@.len() == acc.len(),
        forall|j: int| 0 <= j < acc.len() ==> key_views(keys@)[j] == magnet_key(#[trigger] acc[j]),
    ensures
        match r {
            Some(i) => i < acc.len() && key_index(acc, h@) == i,
            None => key_index(acc, h@) == -1,
        },
{
    let mut i: usize = 0;
    while i < keys.len()
        invariant
            i <= keys@.len(),
            keys@.len() == acc.len(),
            forall|j: int| 0 <= j < acc.len() ==> key_views(keys@)[j] == magnet_key(#[trigger] acc[j]),
            key_index(acc.take(i as int), h@) == -1,
        decreases keys@.len() - i,
    {
        let ghost t = acc.take(i + 1);
        assert(t.drop_last() =~= acc.take(i as int));
        assert(key_views(keys@)[i as int] == magnet_key(acc[i as int]));
        let hit = match &keys[i] {
            Some(k) => crate::text::same_chars(k.as_slice(), h.as_slice()),
            None => false,
        };
        if hit {
            proof { lemma_key_index_extends(acc, h@, i as int); }
            return Some(i);
        }
        i = i + 1;
    }
    assert(acc.take(acc.len() as int) =~= acc);
    None
}

/// The first match found in a prefix is the first match overall.
proof fn lemma_key_index_extends(acc: Seq<TorrentView>, h: Seq<char>, i: int)
    requires
        0 <= i < acc.len(),
        key_index(acc.take(i), h) == -1,
        magnet_key(acc[i]) == Some(h),
    ensures
        key_index(acc, h) == i,
    decreases acc.len(),
{
    if i < acc.len() - 1 {
        assert(acc.drop_last().take(i) =~= acc.take(i));
        assert(acc.drop_last()[i] == acc[i]);
        lemma_key_index_extends(acc.drop_last(), h, i);
    } else {
        assert(acc.drop_last() =~= acc.take(i));
    }
}

fn merge_fits_exec(a: &Torrent, b: &Torrent) -> (r: bool)
    ensures
        r == merge_fits(a@, b@),
{
    let max: u128 = 0xffff_ffff_ffff_ffff;
    let ss: u128 = a.seeder_samples as u128 + b.seeder_samples as u128;
    let st: u128 = a.seeder_total as u128 + b.seeder_total as u128;
    let ls: u128 = a.leecher_samples as u128 + b.leecher_samples as u128;
    let lt: u128 = a.leecher_total as u128 + b.leecher_total as u128;
    ss <= max && st + ss / 2 <= max && ls <= max && lt + ls / 2 <= max
}

/// The condensed list before the averaged flag is set. With `check`, the
/// fold stops with `None` at the first merge whose sums would not fit in
/// 64 bits; without it, the caller vouches that none overflows.
fn condense_fold(torrents: &Vec<Torrent>, check: bool) -> (r: Option<Vec<Torrent>>)
    requires
        !check ==> condense_fits(torrent_views(torrents@)),
    ensures
        r is Some <==> condense_fits(torrent_views(torrents@)),
        r matches Some(v) ==> torrent_views(v@) == condensed(torrent_views(torrents@)),
{
    let ghost input = torrent_views(torrents@);
    let mut condensed_list: Vec<Torrent> = Vec::new();
    let mut keys: Vec<Option<Vec<char>>> = Vec::new();
    let mut i: usize = 0;
    assert(torrent_views(condensed_list@) =~= condensed(input.take(0)));
    assert(input.take(0) =~= Seq::<TorrentView>::empty());
    while i < torrents.len()
        invariant
            i <= torrents@.len(),
            input == torrent_views(torrents@),
            !check ==> condense_fits(input),
            condense_fits(input.take(i as int)),
            torrent_views(condensed_list@) == condensed(input.take(i as int)),
            keys@.len() == condensed_list@.len(),
            forall|j: int| 0 <= j < condensed_list@.len() ==> key_views(keys@)[j] == magnet_key(
                #[trigger] torrent_views(condensed_list@)[j],
            ),
        decreases torrents@.len() - i,
    {
        let ghost acc = torrent_views(condensed_list@);
        let ghost pre = input.take(i as int);
        proof {
            assert(input.take(i + 1).drop_last() =~= pre);
            assert(input.take(i + 1).last() == torrents@[i as int]@);
            if !check {
                lemma_fits_prefix(input, i + 1);
            }
        }
        let mut t = torrents[i].duplicate();
        prepare(&mut t);
        let key = torrent_hash(&t);
        match key {
            None => {
                condensed_list.push(t);
                keys.push(None);
                assert(torrent_views(condensed_list@) =~= acc.push(prepared(torrents@[i as int]@)));
                assert(key_views(keys@)[acc.len() as int] == magnet_key(torrent_views(condensed_list@)[acc.len() as int]));
            },
            Some(h) => {
                match find_key(&keys, &h, Ghost(acc)) {
                    Some(pos) => {
                        if check && !merge_fits_exec(&condensed_list[pos], &t) {
                            proof {
                                assert(!step_fits(acc, input[i as int]));
                                assert(!condense_fits(input.take(i + 1)));
                                if condense_fits(input) {
                                    lemma_fits_prefix(input, i + 1);
                                }
                            }
                            return None;
                        }
                        let mut target = condensed_list[pos].duplicate();
                        merge_torrent(&mut target, &t);
                        condensed_list.set(pos, target);
                        assert(torrent_views(condensed_list@) =~= acc.update(pos as int, merged(acc[pos as int], prepared(torrents@[i as int]@))));
                        assert(magnet_key(merged(acc[pos as int], prepared(torrents@[i as int]@))) == magnet_key(acc[pos as int]));
                    },
                    None => {
                        let ghost hv = h@;
                        condensed_list.push(t);
                        keys.push(Some(h));
                        assert(torrent_views(condensed_list@) =~= acc.push(prepared(torrents@[i as int]@)));
                        assert(key_views(keys@)[acc.len() as int] == Some(hv));
                    },
                }
            },
        }
        proof {
            assert forall|j: int| 0 <= j < condensed_list@.len() implies key_views(keys@)[j] == magnet_key(
                #[trigger] torrent_views(condensed_list@)[j]) by {
                if j < acc.len() {
                    assert(key_views(keys@)[j] == key_views(keys@)[j]);
                }
            }
            assert(condense_fits(input.take(i + 1)));
        }
        i = i + 1;
    }
    assert(input.take(torrents@.len() as int) =~= input);
    Some(condensed_list)
}

/// Sets the averaged flag on each condensed entry.
fn flag_all(condensed_list: Vec<Torrent>) -> (r: Vec<Torrent>)
    ensures
        torrent_views(r@) == torrent_views(condensed_list@).map_values(|t: TorrentView| flag_averaged(t)),
{
    let mut out: Vec<Torrent> = Vec::new();
    let mut k: usize = 0;
    let ghost all = torrent_views(condensed_list@);
    while k < condensed_list.len()
        invariant
            k <= condensed_list@.len(),
            all == torrent_views(condensed_list@),
            torrent_views(out@) == all.take(k as int).map_values(|t: TorrentView| flag_averaged(t)),
        decreases condensed_list@.len() - k,
    {
        let mut t = condensed_list[k].duplicate();
        assert(t@.sources.len() == t.sources@.len());
        t.averaged_swarm_stats = t.sources.len() > 1;
        assert(t@ == flag_averaged(all[k as int]));
        let ghost before = out@;
        out.push(t);
        k = k + 1;
        assert(all.take(k as int) =~= all.take(k - 1).push(all[k - 1]));
        assert(torrent_views(out@) =~= torrent_views(before).push(t@));
        assert(torrent_views(out@) =~= all.take(k as int).map_values(|t: TorrentView| flag_averaged(t)));
    }
    assert(all.take(all.len() as int) =~= all);
    out
}

/// Merge results that share a BitTorrent info hash, averaging swarm counts
/// across the indexers that reported them.
pub fn condense_by_hash(torrents: Vec<Torrent>) -> (r: Vec<Torrent>)
    requires
        condense_fits(torrent_views(torrents@)),
    ensures
        torrent_views(r@) == condense_spec(torrent_views(torrents@)),
{
    match condense_fold(&torrents, false) {
        Some(c) => flag_all(c),
        None => Vec::new(),
    }
}

/// `condense_by_hash` where the pooled swarm counts fit in 64 bits;
/// `None` for the inputs on which a merge would overflow.
pub fn condense_checked(torrents: Vec<Torrent>) -> (r: Option<Vec<Torrent>>)
    ensures
        r is Some <==> condense_fits(torrent_views(torrents@)),
        r matches Some(v) ==> torrent_views(v@) == condense_spec(torrent_views(torrents@)),
{
    match condense_fold(&torrents, true) {
        Some(c) => Some(flag_all(c)),
        None => None,
    }
}

// ---------------------------------------------------------------------------
// The summary of where a result came from
// ---------------------------------------------------------------------------

/// The source label shown for a result: its own source when it lists none,
/// the single listed source, or the first one and how many more.
pub open spec fn summary_spec(t: TorrentView) -> Seq<char> {
    if t.sources.len() == 0 {
        t.source
    } else if t.sources.len() == 1 {
        t.sources[0]
    } else {
        t.sources[0] + " +"@ + crate::text::decimal((t.sources.len() - 1) as nat) + " more"@
    }
}

pub fn source_summary(torrent: &Torrent) -> (r: String)
    ensures
        r@ == summary_spec(torrent@),
{
    let n = torrent.sources.len();
    if n == 0 {
        torrent.source.clone()
    } else if n == 1 {
        torrent.sources[0].clone()
    } else {
        let mut out = chars_of(torrent.sources[0].as_str());
        crate::text::append_str(&mut out, " +");
        crate::text::push_decimal(&mut out, (n - 1) as u128);
        crate::text::append_str(&mut out, " more");
        crate::text::string_from_chars(out.as_slice())
    }
}

// ---------------------------------------------------------------------------
// Laws of condensing
// ---------------------------------------------------------------------------

pub proof fn lemma_key_index(acc: Seq<TorrentView>, h: Seq<char>)
    ensures
        -1 <= key_index(acc, h) < acc.len(),
        key_index(acc, h) >= 0 ==> magnet_key(acc[key_index(acc, h)]) == Some(h),
        key_index(acc, h) == -1 ==> forall|j: int| 0 <= j < acc.len() ==> magnet_key(#[trigger] acc[j]) != Some(h),
    decreases acc.len(),
{
    if acc.len() > 0 {
        lemma_key_index(acc.drop_last(), h);
        assert forall|j: int| 0 <= j < acc.len() - 1 implies acc.drop_last()[j] == acc[j] by {}
    }
}

/// No two entries of `v` share an info hash.
pub open spec fn keys_unique(v: Seq<TorrentView>) -> bool {
    forall|i: int, j: int|
        0 <= i < j < v.len() && (#[trigger] magnet_key(v[j])) is Some ==> #[trigger] magnet_key(v[i]) != magnet_key(v[j])
}

proof fn lemma_merged_key(a: TorrentView, b: TorrentView)
    ensures
        magnet_key(merged(a, b)) == magnet_key(a),
        magnet_key(flag_averaged(a)) == magnet_key(a),
        magnet_key(prepared(a)) == magnet_key(a),
{
}

proof fn lemma_condensed_unique(ts: Seq<TorrentView>)
    ensures
        keys_unique(condensed(ts)),
        condensed(ts).len() <= ts.len(),
    decreases ts.len(),
{
    if ts.len() > 0 {
        let acc = condensed(ts.drop_last());
        lemma_condensed_unique(ts.drop_last());
        let p = prepared(ts.last());
        let out = condensed(ts);
        match magnet_key(p) {
            None => {
                assert(out == acc.push(p));
            },
            Some(h) => {
                lemma_key_index(acc, h);
                let i = key_index(acc, h);
                if i >= 0 {
                    lemma_merged_key(acc[i], p);
                    assert forall|a: int, b: int|
                        0 <= a < b < out.len() && (#[trigger] magnet_key(out[b])) is Some implies #[trigger] magnet_key(out[a]) != magnet_key(out[b]) by {
                        assert(magnet_key(out[a]) == magnet_key(acc[a]));
                        assert(magnet_key(out[b]) == magnet_key(acc[b]));
                    }
                } else {
                    assert(out == acc.push(p));
                    assert forall|a: int, b: int|
                        0 <= a < b < out.len() && (#[trigger] magnet_key(out[b])) is Some implies #[trigger] magnet_key(out[a]) != magnet_key(out[b]) by {
                        if b == acc.len() {
                            assert(out[a] == acc[a]);
                        } else {
                            assert(out[a] == acc[a] && out[b] == acc[b]);
                        }
                    }
                }
            },
        }
    }
}

/// Condensing leaves no two results with the same info hash, never makes
/// the list longer, and marks exactly the results with more than one
/// source as averaged.
pub proof fn law_condense_shape(ts: Seq<TorrentView>)
    ensures
        keys_unique(condense_spec(ts)),
        condense_spec(ts).len() <= ts.len(),
        forall|i: int| 0 <= i < condense_spec(ts).len() ==>
            (#[trigger] condense_spec(ts)[i]).averaged_swarm_stats == (condense_spec(ts)[i].sources.len() > 1),
{
    lemma_condensed_unique(ts);
    let c = condensed(ts);
    let out = condense_spec(ts);
    assert forall|i: int, j: int|
        0 <= i < j < out.len() && (#[trigger] magnet_key(out[j])) is Some implies #[trigger] magnet_key(out[i]) != magnet_key(out[j]) by {
        lemma_merged_key(c[i], c[i]);
        lemma_merged_key(c[j], c[j]);
    }
}

/// Every info hash among the inputs is the hash of some condensed result,
/// and every condensed result's hash is one of an input.
pub proof fn law_condense_keeps_hashes(ts: Seq<TorrentView>)
    ensures
        forall|k: int| 0 <= k < ts.len() && (#[trigger] magnet_key(ts[k])) is Some ==>
            exists|i: int| 0 <= i < condense_spec(ts).len() && magnet_key(#[trigger] condense_spec(ts)[i]) == magnet_key(ts[k]),
        forall|i: int| 0 <= i < condense_spec(ts).len() && (#[trigger] magnet_key(condense_spec(ts)[i])) is Some ==>
            exists|k: int| 0 <= k < ts.len() && magnet_key(#[trigger] ts[k]) == magnet_key(condense_spec(ts)[i]),
{
    lemma_condensed_keys(ts);
    let c = condensed(ts);
    let out = condense_spec(ts);
    assert forall|k: int| 0 <= k < ts.len() && (#[trigger] magnet_key(ts[k])) is Some implies
        exists|i: int| 0 <= i < out.len() && magnet_key(#[trigger] out[i]) == magnet_key(ts[k]) by {
        let i = choose|i: int| 0 <= i < c.len() && magnet_key(c[i]) == magnet_key(ts[k]);
        lemma_merged_key(c[i], c[i]);
        assert(magnet_key(out[i]) == magnet_key(ts[k]));
    }
    assert forall|i: int| 0 <= i < out.len() && (#[trigger] magnet_key(out[i])) is Some implies
        exists|k: int| 0 <= k < ts.len() && magnet_key(#[trigger] ts[k]) == magnet_key(out[i]) by {
        lemma_merged_key(c[i], c[i]);
        assert(magnet_key(c[i]) is Some);
    }
}

proof fn lemma_condensed_keys(ts: Seq<TorrentView>)
    ensures
        forall|k: int| 0 <= k < ts.len() && (#[trigger] magnet_key(ts[k])) is Some ==>
            exists|i: int| 0 <= i < condensed(ts).len() && magnet_key(#[trigger] condensed(ts)[i]) == magnet_key(ts[k]),
        forall|i: int| 0 <= i < condensed(ts).len() && (#[trigger] magnet_key(condensed(ts)[i])) is Some ==>
            exists|k: int| 0 <= k < ts.len() && magnet_key(#[trigger] ts[k]) == magnet_key(condensed(ts)[i]),
    decreases ts.len(),
{
    if ts.len() > 0 {
        let pre = ts.drop_last();
        let acc = condensed(pre);
        lemma_condensed_keys(pre);
        let t = ts.last();
        let p = prepared(t);
        let out = condensed(ts);
        lemma_merged_key(t, t);
        let n = ts.len() - 1;
        match magnet_key(p) {
            None => {
                assert(out == acc.push(p));
            },
            Some(h) => {
                lemma_key_index(acc, h);
                let ki = key_index(acc, h);
                if ki >= 0 {
                    lemma_merged_key(acc[ki], p);
                } else {
                    assert(out == acc.push(p));
                }
            },
        }
        assert forall|k: int| 0 <= k < ts.len() && (#[trigger] magnet_key(ts[k])) is Some implies
            exists|i: int| 0 <= i < out.len() && magnet_key(#[trigger] out[i]) == magnet_key(ts[k]) by {
            if k < n {
                assert(ts[k] == pre[k]);
                let i = choose|i: int| 0 <= i < acc.len() && magnet_key(#[trigger] acc[i]) == magnet_key(pre[k]);
                assert(magnet_key(out[i]) == magnet_key(acc[i])) by {
                    match magnet_key(p) {
                        None => {},
                        Some(h) => {
                            let ki = key_index(acc, h);
                            if ki >= 0 { lemma_merged_key(acc[ki], p); } else {}
                        },
                    }
                }
            } else {
                match magnet_key(p) {
                    None => {},
                    Some(h) => {
                        let ki = key_index(acc, h);
                        if ki >= 0 {
                            assert(magnet_key(out[ki]) == Some(h));
                        } else {
                            assert(magnet_key(out[acc.len() as int]) == Some(h));
                        }
                    },
                }
            }
        }
        assert forall|i: int| 0 <= i < out.len() && (#[trigger] magnet_key(out[i])) is Some implies
            exists|k: int| 0 <= k < ts.len() && magnet_key(#[trigger] ts[k]) == magnet_key(out[i]) by {
            if i < acc.len() && magnet_key(out[i]) == magnet_key(acc[i]) {
                let k = choose|k: int| 0 <= k < pre.len() && magnet_key(#[trigger] pre[k]) == magnet_key(acc[i]);
                assert(ts[k] == pre[k]);
            } else {
                assert(magnet_key(out[i]) == magnet_key(ts[n]));
            }
        }
    }
}

/// A result as a parser produces it: no swarm samples recorded yet.
pub open spec fn fresh(t: TorrentView) -> bool {
    t.seeder_samples == 0 && t.seeder_total == 0 && t.leecher_samples == 0 && t.leecher_total == 0
}

/// How many of `ts` have info hash `h` and report seeders.
pub open spec fn seed_count(ts: Seq<TorrentView>, h: Seq<char>) -> nat
    decreases ts.len(),
{
    if ts.len() == 0 {
        0
    } else {
        seed_count(ts.drop_last(), h) + if magnet_key(ts.last()) == Some(h) && ts.last().seeders is Some { 1nat } else { 0nat }
    }
}

/// The seeders reported by those of `ts` with info hash `h`, summed.
pub open spec fn seed_sum(ts: Seq<TorrentView>, h: Seq<char>) -> nat
    decreases ts.len(),
{
    if ts.len() == 0 {
        0
    } else {
        seed_sum(ts.drop_last(), h) + match (magnet_key(ts.last()) == Some(h), ts.last().seeders) {
            (true, Some(s)) => s as nat,
            _ => 0nat,
        }
    }
}

/// How many of `ts` have info hash `h` and report leechers.
pub open spec fn leech_count(ts: Seq<TorrentView>, h: Seq<char>) -> nat
    decreases ts.len(),
{
    if ts.len() == 0 {
        0
    } else {
        leech_count(ts.drop_last(), h) + if magnet_key(ts.last()) == Some(h) && ts.last().leechers is Some { 1nat } else { 0nat }
    }
}

/// The leechers reported by those of `ts` with info hash `h`, summed.
pub open spec fn leech_sum(ts: Seq<TorrentView>, h: Seq<char>) -> nat
    decreases ts.len(),
{
    if ts.len() == 0 {
        0
    } else {
        leech_sum(ts.drop_last(), h) + match (magnet_key(ts.last()) == Some(h), ts.last().leechers) {
            (true, Some(s)) => s as nat,
            _ => 0nat,
        }
    }
}

/// The swarm numbers of entry `e` are those pooled from every result of
/// `ts` with info hash `h`.
pub open spec fn pooled(e: TorrentView, ts: Seq<TorrentView>, h: Seq<char>) -> bool {
    &&& e.seeder_samples == seed_count(ts, h)
    &&& e.seeder_total == seed_sum(ts, h)
    &&& e.seeders == average(seed_sum(ts, h) as int, seed_count(ts, h) as int)
    &&& e.leecher_samples == leech_count(ts, h)
    &&& e.leecher_total == leech_sum(ts, h)
    &&& e.leechers == average(leech_sum(ts, h) as int, leech_count(ts, h) as int)
}

proof fn lemma_counts_zero(ts: Seq<TorrentView>, h: Seq<char>)
    requires
        forall|k: int| 0 <= k < ts.len() ==> magnet_key(#[trigger] ts[k]) != Some(h),
    ensures
        seed_count(ts, h) == 0,
        seed_sum(ts, h) == 0,
        leech_count(ts, h) == 0,
        leech_sum(ts, h) == 0,
    decreases ts.len(),
{
    if ts.len() > 0 {
        assert forall|k: int| 0 <= k < ts.drop_last().len() implies magnet_key(#[trigger] ts.drop_last()[k]) != Some(h) by {
            assert(ts.drop_last()[k] == ts[k]);
        }
        lemma_counts_zero(ts.drop_last(), h);
        assert(magnet_key(ts[ts.len() - 1]) != Some(h));
    }
}

proof fn lemma_pooled_other(pre: Seq<TorrentView>, t: TorrentView, e: TorrentView, g: Seq<char>)
    requires
        pooled(e, pre, g),
        magnet_key(t) != Some(g),
    ensures
        pooled(e, pre.push(t), g),
{
    assert(pre.push(t).drop_last() =~= pre);
}

proof fn lemma_pooled_new(pre: Seq<TorrentView>, t: TorrentView, h: Seq<char>)
    requires
        seed_count(pre, h) == 0,
        seed_sum(pre, h) == 0,
        leech_count(pre, h) == 0,
        leech_sum(pre, h) == 0,
        fresh(t),
        magnet_key(t) == Some(h),
    ensures
        pooled(prepared(t), pre.push(t), h),
{
    assert(pre.push(t).drop_last() =~= pre);
}

proof fn lemma_pooled_merge(pre: Seq<TorrentView>, a: TorrentView, t: TorrentView, h: Seq<char>)
    requires
        pooled(a, pre, h),
        fresh(t),
        magnet_key(t) == Some(h),
        merge_fits(a, prepared(t)),
    ensures
        pooled(merged(a, prepared(t)), pre.push(t), h),
{
    assert(pre.push(t).drop_last() =~= pre);
}

proof fn lemma_no_key_in_prefix(pre: Seq<TorrentView>, h: Seq<char>)
    requires
        forall|j: int| 0 <= j < condensed(pre).len() ==> magnet_key(#[trigger] condensed(pre)[j]) != Some(h),
    ensures
        seed_count(pre, h) == 0,
        seed_sum(pre, h) == 0,
        leech_count(pre, h) == 0,
        leech_sum(pre, h) == 0,
{
    lemma_condensed_keys(pre);
    let acc = condensed(pre);
    assert forall|k: int| 0 <= k < pre.len() implies magnet_key(#[trigger] pre[k]) != Some(h) by {
        if magnet_key(pre[k]) == Some(h) {
            let j = choose|j: int| 0 <= j < acc.len() && magnet_key(#[trigger] acc[j]) == magnet_key(pre[k]);
        }
    }
    lemma_counts_zero(pre, h);
}

proof fn lemma_condensed_pooled(ts: Seq<TorrentView>)
    requires
        forall|k: int| 0 <= k < ts.len() ==> fresh(#[trigger] ts[k]),
        condense_fits(ts),
    ensures
        forall|i: int| 0 <= i < condensed(ts).len() && (#[trigger] magnet_key(condensed(ts)[i])) is Some ==>
            pooled(condensed(ts)[i], ts, magnet_key(condensed(ts)[i])->0),
    decreases ts.len(),
{
    if ts.len() > 0 {
        let pre = ts.drop_last();
        let acc = condensed(pre);
        assert forall|k: int| 0 <= k < pre.len() implies fresh(#[trigger] pre[k]) by {
            assert(pre[k] == ts[k]);
        }
        lemma_condensed_pooled(pre);
        lemma_condensed_unique(pre);
        let t = ts.last();
        assert(fresh(ts[ts.len() - 1]));
        assert(pre.push(t) =~= ts);
        let p = prepared(t);
        lemma_merged_key(t, t);
        let out = condensed(ts);
        match magnet_key(p) {
            None => {
                assert forall|i: int| 0 <= i < out.len() && (#[trigger] magnet_key(out[i])) is Some implies
                    pooled(out[i], ts, magnet_key(out[i])->0) by {
                    assert(out[i] == acc[i]);
                    lemma_pooled_other(pre, t, acc[i], magnet_key(acc[i])->0);
                }
            },
            Some(h) => {
                lemma_key_index(acc, h);
                let ki = key_index(acc, h);
                if ki >= 0 {
                    lemma_merged_key(acc[ki], p);
                    lemma_pooled_merge(pre, acc[ki], t, h);
                    assert forall|i: int| 0 <= i < out.len() && (#[trigger] magnet_key(out[i])) is Some implies
                        pooled(out[i], ts, magnet_key(out[i])->0) by {
                        if i != ki {
                            assert(out[i] == acc[i]);
                            assert(magnet_key(acc[i]) != magnet_key(acc[ki])) by {
                                if i < ki {} else {}
                            }
                            lemma_pooled_other(pre, t, acc[i], magnet_key(acc[i])->0);
                        }
                    }
                } else {
                    lemma_no_key_in_prefix(pre, h);
                    lemma_pooled_new(pre, t, h);
                    assert forall|i: int| 0 <= i < out.len() && (#[trigger] magnet_key(out[i])) is Some implies
                        pooled(out[i], ts, magnet_key(out[i])->0) by {
                        if i < acc.len() {
                            assert(out[i] == acc[i]);
                            lemma_pooled_other(pre, t, acc[i], magnet_key(acc[i])->0);
                        }
                    }
                }
            },
        }
    }
}

/// The largest grab count reported by the results of `ts` with info hash
/// `h`; none when none of them reports one.
pub open spec fn max_grabs(ts: Seq<TorrentView>, h: Seq<char>) -> Option<u64>
    decreases ts.len(),
{
    if ts.len() == 0 {
        None
    } else {
        let rest = max_grabs(ts.drop_last(), h);
        let t = ts.last();
        if magnet_key(t) == Some(h) && t.grabs is Some {
            match rest {
                Some(g) => Some(if g >= t.grabs->0 { g } else { t.grabs->0 }),
                None => t.grabs,
            }
        } else {
            rest
        }
    }
}

proof fn lemma_max_grabs_none(ts: Seq<TorrentView>, h: Seq<char>)
    requires
        forall|k: int| 0 <= k < ts.len() ==> magnet_key(#[trigger] ts[k]) != Some(h),
    ensures
        max_grabs(ts, h) is None,
    decreases ts.len(),
{
    if ts.len() > 0 {
        let pre = ts.drop_last();
        assert forall|k: int| 0 <= k < pre.len() implies magnet_key(#[trigger] pre[k]) != Some(h) by {
            assert(pre[k] == ts[k]);
        }
        lemma_max_grabs_none(pre, h);
        assert(magnet_key(ts[ts.len() - 1]) != Some(h));
    }
}

proof fn lemma_condensed_grabs(ts: Seq<TorrentView>)
    ensures
        forall|i: int| 0 <= i < condensed(ts).len() && (#[trigger] magnet_key(condensed(ts)[i])) is Some ==>
            condensed(ts)[i].grabs == max_grabs(ts, magnet_key(condensed(ts)[i])->0),
    decreases ts.len(),
{
    if ts.len() > 0 {
        let pre = ts.drop_last();
        let acc = condensed(pre);
        lemma_condensed_grabs(pre);
        lemma_condensed_unique(pre);
        let t = ts.last();
        let p = prepared(t);
        lemma_merged_key(t, t);
        assert(p.grabs == t.grabs);
        let out = condensed(ts);
        match magnet_key(p) {
            None => {
                assert forall|i: int| 0 <= i < out.len() && (#[trigger] magnet_key(out[i])) is Some implies
                    out[i].grabs == max_grabs(ts, magnet_key(out[i])->0) by {
                    assert(out[i] == acc[i]);
                }
            },
            Some(h) => {
                lemma_key_index(acc, h);
                let ki = key_index(acc, h);
                if ki >= 0 {
                    lemma_merged_key(acc[ki], p);
                    assert forall|i: int| 0 <= i < out.len() && (#[trigger] magnet_key(out[i])) is Some implies
                        out[i].grabs == max_grabs(ts, magnet_key(out[i])->0) by {
                        if i != ki {
                            assert(out[i] == acc[i]);
                            assert(magnet_key(acc[i]) != magnet_key(acc[ki])) by {
                                if i < ki {} else {}
                            }
                        } else {
                            assert(out[i] == merged(acc[ki], p));
                        }
                    }
                } else {
                    lemma_condensed_keys(pre);
                    assert forall|k: int| 0 <= k < pre.len() implies magnet_key(#[trigger] pre[k]) != Some(h) by {
                        if magnet_key(pre[k]) == Some(h) {
                            let i = choose|i: int| 0 <= i < acc.len() && magnet_key(#[trigger] acc[i]) == magnet_key(pre[k]);
                            assert(magnet_key(acc[i]) != Some(h));
                        }
                    }
                    lemma_max_grabs_none(pre, h);
                    assert forall|i: int| 0 <= i < out.len() && (#[trigger] magnet_key(out[i])) is Some implies
                        out[i].grabs == max_grabs(ts, magnet_key(out[i])->0) by {
                        if i < acc.len() {
                            assert(out[i] == acc[i]);
                        } else {
                            assert(out[i] == p);
                        }
                    }
                }
            },
        }
    }
}

/// A condensed result keeps the largest grab count that any result with
/// its info hash reported (none only when none reported one): it is at
/// least every reported count, and it is one of them.
pub proof fn law_condense_keeps_largest_grabs(ts: Seq<TorrentView>)
    ensures
        forall|i: int| 0 <= i < condense_spec(ts).len() && (#[trigger] magnet_key(condense_spec(ts)[i])) is Some ==>
            condense_spec(ts)[i].grabs == max_grabs(ts, magnet_key(condense_spec(ts)[i])->0),
        forall|i: int, k: int| 0 <= i < condense_spec(ts).len() && 0 <= k < ts.len()
            && (#[trigger] magnet_key(condense_spec(ts)[i])) is Some
            && magnet_key(#[trigger] ts[k]) == magnet_key(condense_spec(ts)[i]) && ts[k].grabs is Some ==>
            condense_spec(ts)[i].grabs is Some && condense_spec(ts)[i].grabs->0 >= ts[k].grabs->0,
{
    lemma_condensed_grabs(ts);
    let c = condensed(ts);
    assert forall|i: int| 0 <= i < condense_spec(ts).len() && (#[trigger] magnet_key(condense_spec(ts)[i])) is Some implies
        condense_spec(ts)[i].grabs == max_grabs(ts, magnet_key(condense_spec(ts)[i])->0) by {
        lemma_merged_key(c[i], c[i]);
    }
    assert forall|i: int, k: int| 0 <= i < condense_spec(ts).len() && 0 <= k < ts.len()
        && (#[trigger] magnet_key(condense_spec(ts)[i])) is Some
        && magnet_key(#[trigger] ts[k]) == magnet_key(condense_spec(ts)[i]) && ts[k].grabs is Some implies
        condense_spec(ts)[i].grabs is Some && condense_spec(ts)[i].grabs->0 >= ts[k].grabs->0 by {
        lemma_merged_key(c[i], c[i]);
        lemma_max_grabs_bound(ts, magnet_key(c[i])->0, k);
    }
}

proof fn lemma_max_grabs_bound(ts: Seq<TorrentView>, h: Seq<char>, k: int)
    requires
        0 <= k < ts.len(),
        magnet_key(ts[k]) == Some(h),
        ts[k].grabs is Some,
    ensures
        max_grabs(ts, h) is Some,
        max_grabs(ts, h)->0 >= ts[k].grabs->0,
    decreases ts.len(),
{
    let pre = ts.drop_last();
    if k < ts.len() - 1 {
        assert(pre[k] == ts[k]);
        lemma_max_grabs_bound(pre, h, k);
    }
}

/// The first size, category and publication date reported by the results
/// of `ts` with info hash `h`, each on its own (none when no such result
/// reports one).
pub open spec fn first_reported(ts: Seq<TorrentView>, h: Seq<char>) -> (Option<u64>, Option<Seq<char>>, Option<Seq<char>>)
    decreases ts.len(),
{
    if ts.len() == 0 {
        (None, None, None)
    } else {
        let (s, c, p) = first_reported(ts.drop_last(), h);
        let t = ts.last();
        if magnet_key(t) == Some(h) {
            (
                if s is Some { s } else { t.size_bytes },
                if c is Some { c } else { t.category },
                if p is Some { p } else { t.published },
            )
        } else {
            (s, c, p)
        }
    }
}

proof fn lemma_first_reported_none(ts: Seq<TorrentView>, h: Seq<char>)
    requires
        forall|k: int| 0 <= k < ts.len() ==> magnet_key(#[trigger] ts[k]) != Some(h),
    ensures
        first_reported(ts, h) == (None::<u64>, None::<Seq<char>>, None::<Seq<char>>),
    decreases ts.len(),
{
    if ts.len() > 0 {
        let pre = ts.drop_last();
        assert forall|k: int| 0 <= k < pre.len() implies magnet_key(#[trigger] pre[k]) != Some(h) by {
            assert(pre[k] == ts[k]);
        }
        lemma_first_reported_none(pre, h);
        assert(magnet_key(ts[ts.len() - 1]) != Some(h));
    }
}

/// The metadata of a condensed result, as `first_reported` gives it.
pub open spec fn filled_from_first(e: TorrentView, ts: Seq<TorrentView>) -> bool {
    let f = first_reported(ts, magnet_key(e)->0);
    e.size_bytes == f.0 && e.category == f.1 && e.published == f.2
}

proof fn lemma_condensed_first(ts: Seq<TorrentView>)
    ensures
        forall|i: int| 0 <= i < condensed(ts).len() && (#[trigger] magnet_key(condensed(ts)[i])) is Some ==>
            filled_from_first(condensed(ts)[i], ts),
    decreases ts.len(),
{
    if ts.len() > 0 {
        let pre = ts.drop_last();
        let acc = condensed(pre);
        lemma_condensed_first(pre);
        lemma_condensed_unique(pre);
        let t = ts.last();
        let p = prepared(t);
        lemma_merged_key(t, t);
        let out = condensed(ts);
        match magnet_key(p) {
            None => {
                assert forall|i: int| 0 <= i < out.len() && (#[trigger] magnet_key(out[i])) is Some implies
                    filled_from_first(out[i], ts) by {
                    assert(out[i] == acc[i]);
                }
            },
            Some(h) => {
                lemma_key_index(acc, h);
                let ki = key_index(acc, h);
                if ki >= 0 {
                    lemma_merged_key(acc[ki], p);
                    assert forall|i: int| 0 <= i < out.len() && (#[trigger] magnet_key(out[i])) is Some implies
                        filled_from_first(out[i], ts) by {
                        if i != ki {
                            assert(out[i] == acc[i]);
                            assert(magnet_key(acc[i]) != magnet_key(acc[ki])) by {
                                if i < ki {} else {}
                            }
                        } else {
                            assert(out[i] == merged(acc[ki], p));
                        }
                    }
                } else {
                    lemma_condensed_keys(pre);
                    assert forall|k: int| 0 <= k < pre.len() implies magnet_key(#[trigger] pre[k]) != Some(h) by {
                        if magnet_key(pre[k]) == Some(h) {
                            let i = choose|i: int| 0 <= i < acc.len() && magnet_key(#[trigger] acc[i]) == magnet_key(pre[k]);
                            assert(magnet_key(acc[i]) != Some(h));
                        }
                    }
                    lemma_first_reported_none(pre, h);
                    assert forall|i: int| 0 <= i < out.len() && (#[trigger] magnet_key(out[i])) is Some implies
                        filled_from_first(out[i], ts) by {
                        if i < acc.len() {
                            assert(out[i] == acc[i]);
                        } else {
                            assert(out[i] == p);
                        }
                    }
                }
            },
        }
    }
}

/// A condensed result's size, category and publication date are each the
/// first one that a result with its info hash reported, in input order.
pub proof fn law_condense_fills_metadata_from_first(ts: Seq<TorrentView>)
    ensures
        forall|i: int| 0 <= i < condense_spec(ts).len() && (#[trigger] magnet_key(condense_spec(ts)[i])) is Some ==>
            filled_from_first(condense_spec(ts)[i], ts),
{
    lemma_condensed_first(ts);
    let c = condensed(ts);
    assert forall|i: int| 0 <= i < condense_spec(ts).len() && (#[trigger] magnet_key(condense_spec(ts)[i])) is Some implies
        filled_from_first(condense_spec(ts)[i], ts) by {
        lemma_merged_key(c[i], c[i]);
    }
}

/// The sources a result names: its list, or its own source when the list
/// is empty.
pub open spec fn named_sources(t: TorrentView) -> Seq<Seq<char>> {
    if t.sources.len() == 0 && t.source.len() > 0 {
        seq![t.source]
    } else {
        t.sources
    }
}

/// Some result of `ts` with info hash `h` names source `x`.
pub open spec fn listed_by(ts: Seq<TorrentView>, h: Seq<char>, x: Seq<char>) -> bool
    decreases ts.len(),
{
    if ts.len() == 0 {
        false
    } else {
        listed_by(ts.drop_last(), h, x) || (magnet_key(ts.last()) == Some(h) && named_sources(ts.last()).contains(x))
    }
}

proof fn lemma_union_contains(a: Seq<Seq<char>>, b: Seq<Seq<char>>, x: Seq<char>)
    ensures
        union_sources(a, b).contains(x) <==> a.contains(x) || b.contains(x),
    decreases b.len(),
{
    if b.len() > 0 {
        let a1 = if a.contains(b[0]) { a } else { a.push(b[0]) };
        lemma_union_contains(a1, b.drop_first(), x);
        if b.drop_first().contains(x) {
            let k = choose|k: int| 0 <= k < b.drop_first().len() && b.drop_first()[k] == x;
            assert(b[k + 1] == x);
        }
        if b.contains(x) && !b.drop_first().contains(x) {
            let k = choose|k: int| 0 <= k < b.len() && b[k] == x;
            if k > 0 {
                assert(b.drop_first()[k - 1] == x);
            }
            if !a.contains(b[0]) {
                assert(a1[a.len() as int] == b[0]);
            }
            assert(a1.contains(b[0]));
        }
        if a1.contains(x) && !a.contains(x) {
            let k = choose|k: int| 0 <= k < a1.len() && a1[k] == x;
            assert(k == a.len());
            assert(b[0] == x);
        }
        if a.contains(x) {
            let k = choose|k: int| 0 <= k < a.len() && a[k] == x;
            assert(a1[k] == x);
        }
    }
}

proof fn lemma_listed_none(ts: Seq<TorrentView>, h: Seq<char>, x: Seq<char>)
    requires
        forall|k: int| 0 <= k < ts.len() ==> magnet_key(#[trigger] ts[k]) != Some(h),
    ensures
        !listed_by(ts, h, x),
    decreases ts.len(),
{
    if ts.len() > 0 {
        let pre = ts.drop_last();
        assert forall|k: int| 0 <= k < pre.len() implies magnet_key(#[trigger] pre[k]) != Some(h) by {
            assert(pre[k] == ts[k]);
        }
        lemma_listed_none(pre, h, x);
        assert(magnet_key(ts[ts.len() - 1]) != Some(h));
    }
}

proof fn lemma_condensed_sources(ts: Seq<TorrentView>, x: Seq<char>)
    ensures
        forall|i: int| 0 <= i < condensed(ts).len() && (#[trigger] magnet_key(condensed(ts)[i])) is Some ==>
            (condensed(ts)[i].sources.contains(x) <==> listed_by(ts, magnet_key(condensed(ts)[i])->0, x)),
    decreases ts.len(),
{
    if ts.len() > 0 {
        let pre = ts.drop_last();
        let acc = condensed(pre);
        lemma_condensed_sources(pre, x);
        lemma_condensed_unique(pre);
        let t = ts.last();
        let p = prepared(t);
        lemma_merged_key(t, t);
        assert(p.sources == named_sources(t));
        let out = condensed(ts);
        match magnet_key(p) {
            None => {
                assert forall|i: int| 0 <= i < out.len() && (#[trigger] magnet_key(out[i])) is Some implies
                    (out[i].sources.contains(x) <==> listed_by(ts, magnet_key(out[i])->0, x)) by {
                    assert(out[i] == acc[i]);
                }
            },
            Some(h) => {
                lemma_key_index(acc, h);
                let ki = key_index(acc, h);
                if ki >= 0 {
                    lemma_merged_key(acc[ki], p);
                    lemma_union_contains(acc[ki].sources, p.sources, x);
                    assert forall|i: int| 0 <= i < out.len() && (#[trigger] magnet_key(out[i])) is Some implies
                        (out[i].sources.contains(x) <==> listed_by(ts, magnet_key(out[i])->0, x)) by {
                        if i != ki {
                            assert(out[i] == acc[i]);
                            assert(magnet_key(acc[i]) != magnet_key(acc[ki])) by {
                                if i < ki {} else {}
                            }
                        } else {
                            assert(out[i] == merged(acc[ki], p));
                        }
                    }
                } else {
                    lemma_condensed_keys(pre);
                    assert forall|k: int| 0 <= k < pre.len() implies magnet_key(#[trigger] pre[k]) != Some(h) by {
                        if magnet_key(pre[k]) == Some(h) {
                            let i = choose|i: int| 0 <= i < acc.len() && magnet_key(#[trigger] acc[i]) == magnet_key(pre[k]);
                            assert(magnet_key(acc[i]) != Some(h));
                        }
                    }
                    lemma_listed_none(pre, h, x);
                    assert forall|i: int| 0 <= i < out.len() && (#[trigger] magnet_key(out[i])) is Some implies
                        (out[i].sources.contains(x) <==> listed_by(ts, magnet_key(out[i])->0, x)) by {
                        if i < acc.len() {
                            assert(out[i] == acc[i]);
                        } else {
                            assert(out[i] == p);
                        }
                    }
                }
            },
        }
    }
}

/// A condensed result names exactly the sources that the results with its
/// info hash named (a result with no list names its own source).
pub proof fn law_condense_unites_sources(ts: Seq<TorrentView>, x: Seq<char>)
    ensures
        forall|i: int| 0 <= i < condense_spec(ts).len() && (#[trigger] magnet_key(condense_spec(ts)[i])) is Some ==>
            (condense_spec(ts)[i].sources.contains(x) <==> listed_by(ts, magnet_key(condense_spec(ts)[i])->0, x)),
{
    lemma_condensed_sources(ts, x);
    let c = condensed(ts);
    assert forall|i: int| 0 <= i < condense_spec(ts).len() && (#[trigger] magnet_key(condense_spec(ts)[i])) is Some implies
        (condense_spec(ts)[i].sources.contains(x) <==> listed_by(ts, magnet_key(condense_spec(ts)[i])->0, x)) by {
        lemma_merged_key(c[i], c[i]);
    }
}

/// When results carry no recorded samples (as every parser yields them),
/// each condensed result's seeders and leechers are the rounded mean of
/// the values that the results with its info hash reported, together with
/// how many reported one and their sum.
pub proof fn law_condense_averages(ts: Seq<TorrentView>)
    requires
        forall|k: int| 0 <= k < ts.len() ==> fresh(#[trigger] ts[k]),
        condense_fits(ts),
    ensures
        forall|i: int| 0 <= i < condense_spec(ts).len() && (#[trigger] magnet_key(condense_spec(ts)[i])) is Some ==>
            pooled(condense_spec(ts)[i], ts, magnet_key(condense_spec(ts)[i])->0),
{
    lemma_condensed_pooled(ts);
    let c = condensed(ts);
    assert forall|i: int| 0 <= i < condense_spec(ts).len() && (#[trigger] magnet_key(condense_spec(ts)[i])) is Some implies
        pooled(condense_spec(ts)[i], ts, magnet_key(condense_spec(ts)[i])->0) by {
        lemma_merged_key(c[i], c[i]);
    }
}

/// Preparing `e` for merging changes nothing.
pub open spec fn settled(e: TorrentView) -> bool {
    &&& e.seeder_samples == 0 ==> e.seeders is None
    &&& e.leecher_samples == 0 ==> e.leechers is None
    &&& e.sources.len() == 0 ==> e.source.len() == 0
}

proof fn lemma_union_grows(a: Seq<Seq<char>>, b: Seq<Seq<char>>)
    ensures
        union_sources(a, b).len() >= a.len(),
    decreases b.len(),
{
    if b.len() > 0 {
        let a1 = if a.contains(b[0]) { a } else { a.push(b[0]) };
        lemma_union_grows(a1, b.drop_first());
    }
}

proof fn lemma_condensed_settled(ts: Seq<TorrentView>)
    requires
        condense_fits(ts),
    ensures
        forall|i: int| 0 <= i < condensed(ts).len() ==> settled(#[trigger] condensed(ts)[i]),
    decreases ts.len(),
{
    if ts.len() > 0 {
        let pre = ts.drop_last();
        let acc = condensed(pre);
        lemma_condensed_settled(pre);
        let p = prepared(ts.last());
        assert(settled(p));
        match magnet_key(p) {
            None => {},
            Some(h) => {
                lemma_key_index(acc, h);
                let ki = key_index(acc, h);
                if ki >= 0 {
                    lemma_union_grows(acc[ki].sources, p.sources);
                    assert(settled(merged(acc[ki], p)));
                }
            },
        }
        let out = condensed(ts);
        assert forall|i: int| 0 <= i < out.len() implies settled(#[trigger] out[i]) by {
            if i < acc.len() {
                match magnet_key(p) {
                    None => { assert(out[i] == acc[i]); },
                    Some(h) => {
                        let ki = key_index(acc, h);
                        if i != ki { assert(out[i] == acc[i]); }
                    },
                }
            }
        }
    }
}

/// A list of settled results with distinct info hashes condenses to itself,
/// without merging anything.
proof fn lemma_condensed_fixed(v: Seq<TorrentView>)
    requires
        keys_unique(v),
        forall|i: int| 0 <= i < v.len() ==> settled(#[trigger] v[i]),
    ensures
        condensed(v) == v,
        condense_fits(v),
    decreases v.len(),
{
    if v.len() > 0 {
        let pre = v.drop_last();
        assert forall|i: int, j: int|
            0 <= i < j < pre.len() && (#[trigger] magnet_key(pre[j])) is Some implies #[trigger] magnet_key(pre[i]) != magnet_key(pre[j]) by {
            assert(pre[i] == v[i] && pre[j] == v[j]);
        }
        assert forall|i: int| 0 <= i < pre.len() implies settled(#[trigger] pre[i]) by {
            assert(pre[i] == v[i]);
        }
        lemma_condensed_fixed(pre);
        let last = v.last();
        assert(settled(v[v.len() - 1]));
        assert(prepared(last) == last);
        match magnet_key(last) {
            None => {},
            Some(h) => {
                lemma_key_index(pre, h);
                if key_index(pre, h) >= 0 {
                    let ki = key_index(pre, h);
                    assert(magnet_key(v[ki]) != magnet_key(v[v.len() - 1]));
                }
            },
        }
        assert(pre.push(last) =~= v);
    }
}

/// Condensing twice is condensing once: the condensed list has distinct
/// info hashes and nothing left to merge.
pub proof fn law_condense_idempotent(ts: Seq<TorrentView>)
    requires
        condense_fits(ts),
    ensures
        condense_fits(condense_spec(ts)),
        condense_spec(condense_spec(ts)) == condense_spec(ts),
{
    let c = condensed(ts);
    let out = condense_spec(ts);
    law_condense_shape(ts);
    lemma_condensed_settled(ts);
    assert forall|i: int| 0 <= i < out.len() implies settled(#[trigger] out[i]) by {
        assert(settled(c[i]));
    }
    lemma_condensed_fixed(out);
    assert(condense_spec(out) =~= out) by {
        assert forall|i: int| 0 <= i < out.len() implies flag_averaged(out[i]) == out[i] by {}
    }
}
} // verus!
