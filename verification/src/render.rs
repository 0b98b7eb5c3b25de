//! Terminal rendering: ANSI styling, byte sizes, and the lines printed for
//! search results and discovered endpoints.
use crate::discover::DiscoveryResult;
use crate::text::{
    append_chars, append_str, chars_of, decimal, push_decimal, push_zero_padded, string_from_chars,
    string_views, zero_pad,
};
use crate::torrent::{source_summary, summary_spec, Torrent, TorrentView};
use vstd::arithmetic::div_mod::lemma_div_denominator;
use vstd::prelude::*;

verus! {

pub const RESET: &'static str = "\x1b[0m";
pub const BOLD: &'static str = "\x1b[1m";
pub const DIM: &'static str = "\x1b[2m";
pub const RED: &'static str = "\x1b[31m";
pub const GREEN: &'static str = "\x1b[32m";
pub const YELLOW: &'static str = "\x1b[33m";
pub const MAGENTA: &'static str = "\x1b[35m";
pub const CYAN: &'static str = "\x1b[36m";
pub const BOLD_CYAN: &'static str = "\x1b[1m\x1b[36m";

/// `text` wrapped in the style `code` and a reset, or left plain.
pub open spec fn paint_spec(code: Seq<char>, text: Seq<char>, enabled: bool) -> Seq<char> {
    if enabled {
        code + text + "\x1b[0m"@
    } else {
        text
    }
}

pub fn paint(code: &str, text: &[char], enabled: bool) -> (r: Vec<char>)
    ensures
        r@ == paint_spec(code@, text@, enabled),
{
    if enabled {
        let mut out = chars_of(code);
        append_chars(&mut out, text);
        append_str(&mut out, RESET);
        out
    } else {
        let mut out: Vec<char> = Vec::new();
        append_chars(&mut out, text);
        assert(out@ =~= text@);
        out
    }
}

// ---------------------------------------------------------------------------
// Byte sizes
// ---------------------------------------------------------------------------

pub open spec fn two_pow(k: nat) -> nat
    decreases k,
{
    if k == 0 {
        1
    } else {
        2 * two_pow((k - 1) as nat)
    }
}

/// How many low bits a 64-bit float drops from the integer `v`: the
/// halvings that bring it below 2^53.
pub open spec fn f64_shift(v: nat) -> nat
    decreases v,
{
    if v < 0x20_0000_0000_0000 {
        0
    } else {
        1 + f64_shift(v / 2)
    }
}

/// `v as f64`: the nearest value with 53 significant bits, ties to even.
pub open spec fn f64_of(v: nat) -> nat {
    let p = two_pow(f64_shift(v));
    let q = v / p;
    let r = v % p;
    if 2 * r > p || (2 * r == p && q % 2 == 1) {
        (q + 1) * p
    } else {
        q * p
    }
}

/// The binary unit that `format_bytes` uses for a value `f`: how often it
/// can be divided by 1024 (at most 4 times) and stay at least 1.
pub open spec fn unit_of(f: nat) -> nat {
    if f >= 0x100_0000_0000 {
        4
    } else if f >= 0x4000_0000 {
        3
    } else if f >= 0x10_0000 {
        2
    } else if f >= 0x400 {
        1
    } else {
        0
    }
}

pub open spec fn unit_name(u: nat) -> Seq<char> {
    if u == 0 {
        "B"@
    } else if u == 1 {
        "KiB"@
    } else if u == 2 {
        "MiB"@
    } else if u == 3 {
        "GiB"@
    } else {
        "TiB"@
    }
}

/// `f / d` in hundredths, rounded to nearest with ties to even.
pub open spec fn hundredths(f: nat, d: nat) -> nat {
    let q = f * 100 / d;
    let r = f * 100 % d;
    if 2 * r > d || (2 * r == d && q % 2 == 1) {
        q + 1
    } else {
        q
    }
}

/// `format!("{:.2}", x)` for a value given in hundredths.
pub open spec fn two_decimals(h: nat) -> Seq<char> {
    decimal(h / 100) + "."@ + zero_pad(decimal(h % 100), 2)
}

/// `value` as a byte count: plain below 1 KiB, otherwise in the largest
/// binary unit up to TiB with two decimals. The value is first rounded to
/// a 64-bit float and divided by 1024 per unit, then rounded to hundredths
/// half to even, which is what `{:.2}` on that float prints.
pub open spec fn format_bytes_spec(value: nat) -> Seq<char> {
    if value < 1024 {
        decimal(value) + " B"@
    } else {
        let f = f64_of(value);
        let u = unit_of(f);
        two_decimals(hundredths(f, two_pow(10 * u))) + " "@ + unit_name(u)
    }
}

proof fn lemma_two_pow_values()
    ensures
        two_pow(0) == 1,
        two_pow(10) == 0x400,
        two_pow(20) == 0x10_0000,
        two_pow(30) == 0x4000_0000,
        two_pow(40) == 0x100_0000_0000,
{
    reveal_with_fuel(two_pow, 41);
}

fn f64_of_exec(v: u64) -> (r: u128)
    ensures
        r == f64_of(v as nat),
        r < 0x40_0000_0000_0000_0000,
        v >= 1024 ==> r >= 1024,
{
    let mut t: u64 = v;
    let mut p: u128 = 1;
    let ghost mut s: nat = 0;
    assert(v as nat / 1 == v);
    while t >= 0x20_0000_0000_0000
        invariant
            p == two_pow(s),
            t as nat == v as nat / p as nat,
            f64_shift(v as nat) == s + f64_shift(t as nat),
            1 <= p <= 0x1000,
            p * t <= v,
            p > 1 ==> t >= 0x10_0000_0000_0000,
        decreases t,
    {
        assert(p <= 0x800) by (nonlinear_arith)
            requires
                p * t <= v,
                t >= 0x20_0000_0000_0000,
                v < 0x1_0000_0000_0000_0000,
                p >= 1;
        proof {
            lemma_div_denominator(v as int, p as int, 2);
        }
        assert(p * 2 * (t / 2) <= p * t) by (nonlinear_arith);
        t = t / 2;
        p = p * 2;
        proof {
            s = s + 1;
        }
        assert(p * t <= v);
    }
    assert(f64_shift(t as nat) == 0);
    let q: u128 = v as u128 / p;
    let r: u128 = v as u128 % p;
    assert(q == t);
    assert(r < p);
    assert(q * p + r == v) by (nonlinear_arith)
        requires
            q == v as nat / p as nat,
            r == v as nat % p as nat,
            p >= 1;
    let res = if 2 * r > p || (2 * r == p && q % 2 == 1) {
        assert((q + 1) * p < 0x40_0000_0000_0000_0000) by (nonlinear_arith)
            requires
                q < 0x20_0000_0000_0000,
                p <= 0x1000;
        assert((q + 1) * p >= q * p) by (nonlinear_arith);
        (q + 1) * p
    } else {
        q * p
    };
    assert(res < 0x40_0000_0000_0000_0000) by (nonlinear_arith)
        requires
            res == q * p || res < 0x40_0000_0000_0000_0000,
            res >= q * p,
            q < 0x20_0000_0000_0000,
            p <= 0x1000;
    assert(v >= 1024 ==> res >= 1024) by (nonlinear_arith)
        requires
            res >= q * p,
            q * p + r == v,
            r < p,
            p >= 1,
            p > 1 ==> q >= 0x10_0000_0000_0000,
            q == t;
    res
}

/// Formats a byte count with binary units, e.g. `1.50 KiB`.
pub fn format_bytes(value: u64) -> (r: String)
    ensures
        r@ == format_bytes_spec(value as nat),
{
    let mut out: Vec<char> = Vec::new();
    if value < 1024 {
        push_decimal(&mut out, value as u128);
        append_str(&mut out, " B");
        return string_from_chars(out.as_slice());
    }
    let f = f64_of_exec(value);
    proof {
        lemma_two_pow_values();
    }
    let (d, unit): (u128, &str) = if f >= 0x100_0000_0000 {
        (0x100_0000_0000, "TiB")
    } else if f >= 0x4000_0000 {
        (0x4000_0000, "GiB")
    } else if f >= 0x10_0000 {
        (0x10_0000, "MiB")
    } else {
        (0x400, "KiB")
    };
    assert(d == two_pow(10 * unit_of(f as nat)));
    assert(unit@ == unit_name(unit_of(f as nat)));
    let x: u128 = f * 100;
    let q: u128 = x / d;
    let rem: u128 = x % d;
    let h: u128 = if 2 * rem > d || (2 * rem == d && q % 2 == 1) {
        q + 1
    } else {
        q
    };
    assert(h == hundredths(f as nat, d as nat));
    push_decimal(&mut out, h / 100);
    out.push('.');
    push_zero_padded(&mut out, h % 100, 2);
    out.push(' ');
    append_str(&mut out, unit);
    proof {
        reveal_strlit(".");
        reveal_strlit(" ");
    }
    assert(out@ =~= format_bytes_spec(value as nat));
    string_from_chars(out.as_slice())
}


// ---------------------------------------------------------------------------
// Search results
// ---------------------------------------------------------------------------

/// Items joined with `sep` between them.
pub open spec fn join(items: Seq<Seq<char>>, sep: Seq<char>) -> Seq<char>
    decreases items.len(),
{
    if items.len() == 0 {
        seq![]
    } else if items.len() == 1 {
        items[0]
    } else {
        join(items.drop_last(), sep) + sep + items.last()
    }
}

pub open spec fn opt_item(present: bool, item: Seq<char>) -> Seq<Seq<char>> {
    if present {
        seq![item]
    } else {
        seq![]
    }
}

/// The metadata shown under a result's title, in order: size, seeders,
/// leechers, grabs, category, date, and the number of sources when more
/// than one.
pub open spec fn metadata_items(t: TorrentView, color: bool) -> Seq<Seq<char>> {
    let avg = t.averaged_swarm_stats;
    opt_item(t.size_bytes is Some, paint_spec(YELLOW@, format_bytes_spec(t.size_bytes->0 as nat), color))
        + opt_item(t.seeders is Some, paint_spec(GREEN@, decimal(t.seeders->0 as nat) + if avg { " avg seeds"@ } else { " seeds"@ }, color))
        + opt_item(t.leechers is Some, paint_spec(RED@, decimal(t.leechers->0 as nat) + if avg { " avg leech"@ } else { " leech"@ }, color))
        + opt_item(t.grabs is Some, paint_spec(DIM@, decimal(t.grabs->0 as nat) + " grabs"@, color))
        + opt_item(t.category is Some, paint_spec(MAGENTA@, t.category->0, color))
        + opt_item(t.published is Some, paint_spec(DIM@, t.published->0, color))
        + opt_item(t.sources.len() > 1, paint_spec(DIM@, decimal(t.sources.len()) + " sources"@, color))
}

/// The link shown for a result: its magnet URI, else its download link,
/// else its details page.
pub open spec fn link_of(t: TorrentView) -> Option<Seq<char>> {
    if t.magnet is Some {
        t.magnet
    } else if t.download is Some {
        t.download
    } else {
        t.details
    }
}

/// The lines printed for the result at `position` (counting from 0).
pub open spec fn torrent_block(t: TorrentView, position: nat, color: bool) -> Seq<Seq<char>> {
    let head = paint_spec(DIM@, decimal(position + 1), color) + ". "@ + paint_spec(BOLD_CYAN@, t.title, color) + "  "@
        + paint_spec(DIM@, "["@ + summary_spec(t) + "]"@, color);
    let items = metadata_items(t, color);
    let meta = if items.len() > 0 {
        seq!["   "@ + join(items, paint_spec(DIM@, " · "@, color))]
    } else {
        seq![]
    };
    let link = match link_of(t) {
        Some(l) => seq![paint_spec(DIM@, l, color)],
        None => seq![],
    };
    seq![head] + meta + link + seq![seq![]]
}

/// The line above a result's closing blank line is its link: the magnet
/// link when it has one, otherwise its download link, otherwise its
/// details page; with none of the three, no link line is printed and the
/// block is the title line, the metadata line if any, and the blank line.
pub proof fn law_result_link(t: TorrentView, position: nat, color: bool)
    ensures
        ({
            let b = torrent_block(t, position, color);
            let meta: int = if metadata_items(t, color).len() > 0 { 1 } else { 0 };
            &&& b.len() >= 2
            &&& b.last() == Seq::<char>::empty()
            &&& (t.magnet is Some ==> b[b.len() - 2] == paint_spec(DIM@, t.magnet->0, color))
            &&& (t.magnet is None && t.download is Some ==> b[b.len() - 2] == paint_spec(DIM@, t.download->0, color))
            &&& (t.magnet is None && t.download is None && t.details is Some ==> b[b.len() - 2] == paint_spec(DIM@, t.details->0, color))
            &&& (t.magnet is Some || t.download is Some || t.details is Some ==> b.len() == 3 + meta)
            &&& (t.magnet is None && t.download is None && t.details is None ==> b.len() == 2 + meta)
        }),
{
}

/// The lines printed for a list of results.
pub open spec fn torrent_lines_spec(ts: Seq<TorrentView>, color: bool) -> Seq<Seq<char>>
    decreases ts.len(),
{
    if ts.len() == 0 {
        seq![]
    } else {
        torrent_lines_spec(ts.drop_last(), color) + torrent_block(ts.last(), (ts.len() - 1) as nat, color)
    }
}

fn push_painted(out: &mut Vec<Vec<char>>, code: &str, text: &[char], color: bool)
    ensures
        final(out)@.len() == old(out)@.len() + 1,
        forall|i: int| 0 <= i < old(out)@.len() ==> final(out)@[i] == old(out)@[i],
        final(out)@.last()@ == paint_spec(code@, text@, color),
{
    out.push(paint(code, text, color));
}

fn join_items(items: &Vec<Vec<char>>, sep: &[char]) -> (r: Vec<char>)
    ensures
        r@ == join(crate::text::char_vec_views(items@), sep@),
{
    let ghost views = crate::text::char_vec_views(items@);
    let mut out: Vec<char> = Vec::new();
    let mut i: usize = 0;
    assert(views.take(0) =~= Seq::<Seq<char>>::empty());
    while i < items.len()
        invariant
            i <= items@.len(),
            views == crate::text::char_vec_views(items@),
            out@ == join(views.take(i as int), sep@),
        decreases items@.len() - i,
    {
        assert(views.take(i + 1).drop_last() =~= views.take(i as int));
        assert(views[i as int] == items@[i as int]@);
        if i > 0 {
            append_chars(&mut out, sep);
        }
        append_chars(&mut out, items[i].as_slice());
        i = i + 1;
        proof {
            if i == 1 {
                assert(views.take(0) =~= Seq::<Seq<char>>::empty());
            }
        }
    }
    assert(views.take(items@.len() as int) =~= views);
    out
}

fn number_text(n: u64, suffix: &str) -> (r: Vec<char>)
    ensures
        r@ == decimal(n as nat) + suffix@,
{
    let mut out: Vec<char> = Vec::new();
    push_decimal(&mut out, n as u128);
    append_str(&mut out, suffix);
    out
}

fn one_item(present: bool, code: &str, text: &[char], color: bool) -> (r: Vec<Vec<char>>)
    ensures
        crate::text::char_vec_views(r@) == opt_item(present, paint_spec(code@, text@, color)),
{
    let mut items: Vec<Vec<char>> = Vec::new();
    if present {
        items.push(paint(code, text, color));
    }
    assert(crate::text::char_vec_views(items@) =~= opt_item(present, paint_spec(code@, text@, color)));
    items
}

fn append_items(a: &mut Vec<Vec<char>>, b: Vec<Vec<char>>)
    ensures
        crate::text::char_vec_views(final(a)@) == crate::text::char_vec_views(old(a)@) + crate::text::char_vec_views(b@),
{
    let mut b = b;
    let ghost bv = b@;
    a.append(&mut b);
    assert(crate::text::char_vec_views(a@) =~= crate::text::char_vec_views(old(a)@) + crate::text::char_vec_views(bv));
}

fn swarm_label(n: Option<u64>, avg: bool, with_avg: &str, plain: &str) -> (r: Vec<char>)
    ensures
        n is Some ==> r@ == decimal(n->0 as nat) + if avg { with_avg@ } else { plain@ },
{
    match n {
        Some(v) => if avg { number_text(v, with_avg) } else { number_text(v, plain) },
        None => Vec::new(),
    }
}

fn metadata_exec(t: &Torrent, color: bool) -> (r: Vec<Vec<char>>)
    ensures
        crate::text::char_vec_views(r@) == metadata_items(t@, color),
{
    let avg = t.averaged_swarm_stats;
    let size_text = match t.size_bytes {
        Some(size) => chars_of(format_bytes(size).as_str()),
        None => Vec::new(),
    };
    let mut items = one_item(t.size_bytes.is_some(), YELLOW, size_text.as_slice(), color);
    let seeds = swarm_label(t.seeders, avg, " avg seeds", " seeds");
    append_items(&mut items, one_item(t.seeders.is_some(), GREEN, seeds.as_slice(), color));
    let leech = swarm_label(t.leechers, avg, " avg leech", " leech");
    append_items(&mut items, one_item(t.leechers.is_some(), RED, leech.as_slice(), color));
    let grabs = match t.grabs {
        Some(g) => number_text(g, " grabs"),
        None => Vec::new(),
    };
    append_items(&mut items, one_item(t.grabs.is_some(), DIM, grabs.as_slice(), color));
    let category = match &t.category {
        Some(c) => chars_of(c.as_str()),
        None => Vec::new(),
    };
    append_items(&mut items, one_item(t.category.is_some(), MAGENTA, category.as_slice(), color));
    let published = match &t.published {
        Some(c) => chars_of(c.as_str()),
        None => Vec::new(),
    };
    append_items(&mut items, one_item(t.published.is_some(), DIM, published.as_slice(), color));
    let n = t.sources.len();
    assert(t@.sources.len() == n);
    let sources = number_text(n as u64, " sources");
    append_items(&mut items, one_item(n > 1, DIM, sources.as_slice(), color));
    items
}

#[verifier::spinoff_prover]
#[verifier::rlimit(40)]
fn torrent_block_exec(t: &Torrent, position: usize, color: bool) -> (r: Vec<Vec<char>>)
    requires
        position < usize::MAX,
    ensures
        crate::text::char_vec_views(r@) == torrent_block(t@, position as nat, color),
{
    let mut head: Vec<char> = Vec::new();
    let mut num: Vec<char> = Vec::new();
    push_decimal(&mut num, (position + 1) as u128);
    let p1 = paint(DIM, num.as_slice(), color);
    append_chars(&mut head, p1.as_slice());
    append_str(&mut head, ". ");
    let title = chars_of(t.title.as_str());
    let p2 = paint(BOLD_CYAN, title.as_slice(), color);
    append_chars(&mut head, p2.as_slice());
    append_str(&mut head, "  ");
    let mut bracket = chars_of("[");
    let summary = source_summary(t);
    append_str(&mut bracket, summary.as_str());
    append_str(&mut bracket, "]");
    let p3 = paint(DIM, bracket.as_slice(), color);
    append_chars(&mut head, p3.as_slice());
    assert(head@ =~= paint_spec(DIM@, decimal((position + 1) as nat), color) + ". "@ + paint_spec(BOLD_CYAN@, t@.title, color) + "  "@
        + paint_spec(DIM@, "["@ + summary_spec(t@) + "]"@, color));
    let mut lines: Vec<Vec<char>> = Vec::new();
    lines.push(head);
    let items = metadata_exec(t, color);
    let ghost before_meta = lines@;
    if items.len() > 0 {
        let sep_text = chars_of(" · ");
        let sep = paint(DIM, sep_text.as_slice(), color);
        let mut meta = chars_of("   ");
        let joined = join_items(&items, sep.as_slice());
        append_chars(&mut meta, joined.as_slice());
        lines.push(meta);
    }
    let ghost before_link = lines@;
    let link: Option<&String> = if t.magnet.is_some() {
        t.magnet.as_ref()
    } else if t.download.is_some() {
        t.download.as_ref()
    } else {
        t.details.as_ref()
    };
    match link {
        Some(l) => {
            let lc = chars_of(l.as_str());
            lines.push(paint(DIM, lc.as_slice(), color));
        },
        None => {},
    }
    lines.push(Vec::new());
    assert(crate::text::char_vec_views(lines@) =~= torrent_block(t@, position as nat, color));
    lines
}

/// The lines printed for `torrents`: for each, a numbered title line with
/// its source, a metadata line when there is any, its link, and a blank
/// line.
pub fn torrent_lines(torrents: &[Torrent], color: bool) -> (r: Vec<String>)
    ensures
        string_views(r@) == torrent_lines_spec(crate::torrent::torrent_views(torrents@), color),
{
    let ghost ts = crate::torrent::torrent_views(torrents@);
    let mut out: Vec<String> = Vec::new();
    let mut i: usize = 0;
    assert(string_views(out@) =~= torrent_lines_spec(ts.take(0), color));
    while i < torrents.len()
        invariant
            i <= torrents@.len(),
            ts == crate::torrent::torrent_views(torrents@),
            string_views(out@) == torrent_lines_spec(ts.take(i as int), color),
        decreases torrents@.len() - i,
    {
        assert(ts.take(i + 1).drop_last() =~= ts.take(i as int));
        assert(ts.take(i + 1).last() == torrents@[i as int]@);
        let block = torrent_block_exec(&torrents[i], i, color);
        let mut k: usize = 0;
        let ghost start = string_views(out@);
        while k < block.len()
            invariant
                k <= block@.len(),
                string_views(out@) == start + crate::text::char_vec_views(block@).take(k as int),
            decreases block@.len() - k,
        {
            let ghost before = out@;
            out.push(string_from_chars(block[k].as_slice()));
            k = k + 1;
            assert(string_views(out@) =~= start + crate::text::char_vec_views(block@).take(k as int)) by {
                assert(string_views(out@) =~= string_views(before).push(block@[k - 1]@));
            }
        }
        assert(crate::text::char_vec_views(block@).take(block@.len() as int) =~= crate::text::char_vec_views(block@));
        i = i + 1;
    }
    assert(ts.take(torrents@.len() as int) =~= ts);
    out
}

// ---------------------------------------------------------------------------
// Discovered endpoints
// ---------------------------------------------------------------------------

/// `s` followed by spaces to at least `w` characters (`{:<w}`).
pub open spec fn pad_right(s: Seq<char>, w: nat) -> Seq<char> {
    if s.len() < w {
        s + Seq::new((w - s.len()) as nat, |i: int| ' ')
    } else {
        s
    }
}

/// `s` preceded by spaces to at least `w` characters (`{:>w}`).
pub open spec fn pad_left(s: Seq<char>, w: nat) -> Seq<char> {
    if s.len() < w {
        Seq::new((w - s.len()) as nat, |i: int| ' ') + s
    } else {
        s
    }
}

fn spaces(n: usize) -> (r: Vec<char>)
    ensures
        r@ == Seq::new(n as nat, |i: int| ' '),
{
    let mut out: Vec<char> = Vec::new();
    let mut i: usize = 0;
    while i < n
        invariant
            i <= n,
            out@ == Seq::new(i as nat, |j: int| ' '),
        decreases n - i,
    {
        out.push(' ');
        i = i + 1;
        assert(out@ =~= Seq::new(i as nat, |j: int| ' '));
    }
    out
}

fn pad_right_exec(s: &[char], w: usize) -> (r: Vec<char>)
    ensures
        r@ == pad_right(s@, w as nat),
{
    let mut out: Vec<char> = Vec::new();
    append_chars(&mut out, s);
    if s.len() < w {
        let sp = spaces(w - s.len());
        append_chars(&mut out, sp.as_slice());
    }
    assert(out@ =~= pad_right(s@, w as nat));
    out
}

fn pad_left_exec(s: &[char], w: usize) -> (r: Vec<char>)
    ensures
        r@ == pad_left(s@, w as nat),
{
    let mut out: Vec<char> = Vec::new();
    if s.len() < w {
        out = spaces(w - s.len());
    }
    append_chars(&mut out, s);
    assert(out@ =~= pad_left(s@, w as nat));
    out
}

/// The table row of one verified endpoint.
pub open spec fn discovery_row(d: DiscoveryResult, color: bool) -> Seq<char> {
    pad_right(paint_spec(CYAN@, d.endpoint@, color), 58) + " "@ + pad_left(
        paint_spec(DIM@, decimal(d.latency_ms as nat), color),
        7,
    ) + paint_spec(DIM@, "ms"@, color) + "  "@ + paint_spec(DIM@, d.origin@, color)
}

/// What is printed for the verified endpoints: the lines for standard
/// output (a table, or a notice that there are none) and for standard
/// error (the count).
pub open spec fn discovery_output(results: Seq<DiscoveryResult>, color: bool) -> (Seq<Seq<char>>, Seq<Seq<char>>) {
    if results.len() == 0 {
        (seq![paint_spec(YELLOW@, "No reachable Torznab endpoints found."@, color)], seq![])
    } else {
        let header = pad_right(paint_spec(BOLD@, "ENDPOINT"@, color), 58) + " "@ + pad_left(
            paint_spec(BOLD@, "LATENCY"@, color),
            8,
        ) + "  "@ + paint_spec(BOLD@, "SOURCE"@, color);
        let rule = paint_spec(DIM@, Seq::new(86, |i: int| '─'), color);
        (
            seq![header, rule] + results.map_values(|d: DiscoveryResult| discovery_row(d, color)),
            seq![seq![], paint_spec(GREEN@, decimal(results.len()), color) + " verified endpoint(s)"@],
        )
    }
}

/// The lines printed for the verified endpoints, as (standard output,
/// standard error).
pub fn discovery_lines(results: &[DiscoveryResult], color: bool) -> (r: (Vec<String>, Vec<String>))
    ensures
        (string_views(r.0@), string_views(r.1@)) == discovery_output(results@, color),
{
    let mut out: Vec<String> = Vec::new();
    let mut err: Vec<String> = Vec::new();
    if results.len() == 0 {
        let msg = chars_of("No reachable Torznab endpoints found.");
        let p = paint(YELLOW, msg.as_slice(), color);
        out.push(string_from_chars(p.as_slice()));
        assert(string_views(out@) =~= discovery_output(results@, color).0);
        assert(string_views(err@) =~= discovery_output(results@, color).1);
        return (out, err);
    }
    let mut header: Vec<char> = Vec::new();
    let h1 = chars_of("ENDPOINT");
    let p1 = paint(BOLD, h1.as_slice(), color);
    let c1 = pad_right_exec(p1.as_slice(), 58);
    append_chars(&mut header, c1.as_slice());
    append_str(&mut header, " ");
    let h2 = chars_of("LATENCY");
    let p2 = paint(BOLD, h2.as_slice(), color);
    let c2 = pad_left_exec(p2.as_slice(), 8);
    append_chars(&mut header, c2.as_slice());
    append_str(&mut header, "  ");
    let h3 = chars_of("SOURCE");
    let p3 = paint(BOLD, h3.as_slice(), color);
    append_chars(&mut header, p3.as_slice());
    out.push(string_from_chars(header.as_slice()));
    let mut rule: Vec<char> = Vec::new();
    let mut k: usize = 0;
    while k < 86
        invariant
            k <= 86,
            rule@ == Seq::new(k as nat, |i: int| '─'),
        decreases 86 - k,
    {
        rule.push('─');
        k = k + 1;
        assert(rule@ =~= Seq::new(k as nat, |i: int| '─'));
    }
    let pr = paint(DIM, rule.as_slice(), color);
    out.push(string_from_chars(pr.as_slice()));
    let ghost spec_out = discovery_output(results@, color).0;
    assert(string_views(out@) =~= spec_out.take(2));
    let mut i: usize = 0;
    while i < results.len()
        invariant
            i <= results@.len(),
            spec_out == discovery_output(results@, color).0,
            spec_out.len() == results@.len() + 2,
            string_views(out@) == spec_out.take(i + 2),
        decreases results@.len() - i,
    {
        let d = &results[i];
        let mut row: Vec<char> = Vec::new();
        let ec = chars_of(d.endpoint.as_str());
        let pe = paint(CYAN, ec.as_slice(), color);
        let ce = pad_right_exec(pe.as_slice(), 58);
        append_chars(&mut row, ce.as_slice());
        append_str(&mut row, " ");
        let mut lat: Vec<char> = Vec::new();
        push_decimal(&mut lat, d.latency_ms);
        let pl = paint(DIM, lat.as_slice(), color);
        let cl = pad_left_exec(pl.as_slice(), 7);
        append_chars(&mut row, cl.as_slice());
        let ms = chars_of("ms");
        let pm = paint(DIM, ms.as_slice(), color);
        append_chars(&mut row, pm.as_slice());
        append_str(&mut row, "  ");
        let oc = chars_of(d.origin.as_str());
        let po = paint(DIM, oc.as_slice(), color);
        append_chars(&mut row, po.as_slice());
        assert(row@ =~= discovery_row(results@[i as int], color));
        let ghost before = out@;
        out.push(string_from_chars(row.as_slice()));
        i = i + 1;
        assert(string_views(out@) =~= spec_out.take(i + 2)) by {
            assert(string_views(out@) =~= string_views(before).push(row@));
            assert(spec_out[i + 1] == discovery_row(results@[i - 1], color));
        }
    }
    assert(spec_out.take(results@.len() as int + 2) =~= spec_out);
    err.push(String::new());
    let mut count: Vec<char> = Vec::new();
    push_decimal(&mut count, results.len() as u128);
    let pc = paint(GREEN, count.as_slice(), color);
    let mut summary: Vec<char> = Vec::new();
    append_chars(&mut summary, pc.as_slice());
    append_str(&mut summary, " verified endpoint(s)");
    err.push(string_from_chars(summary.as_slice()));
    assert(string_views(err@) =~= discovery_output(results@, color).1);
    (out, err)
}
} // verus!
