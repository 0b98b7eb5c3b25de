//! The Pirate Bay's public JSON search API ("apibay") and the mirrors that
//! run the same software: request URLs, and the mapping of its result rows
//! to normalized results.
use crate::text::{
    append_chars, append_str, chars_of, decimal, has_prefix, hex_digit, hex_digits, padded_int, parse_i64,
    parse_i64_spec, push_decimal, push_hex, push_padded_i64, push_zero_padded, same_chars, string_from_chars,
    zero_pad,
};
use crate::torrent::{empty_torrent, torrent_views, Torrent, TorrentView};
use crate::torznab::{u64_of, u64_of_exec};
use crate::web_url::{url_append_pair, url_clear_query, url_query_pairs, url_set_path, WebUrl};
use vstd::arithmetic::div_mod::lemma_fundamental_div_mod_converse;
use vstd::prelude::*;
use vstd::utf8::encode_utf8;

verus! {

// ---------------------------------------------------------------------------
// The calendar
// ---------------------------------------------------------------------------

pub open spec fn is_leap_year(y: int) -> bool {
    (y % 4 == 0 && y % 100 != 0) || y % 400 == 0
}

pub open spec fn days_in_month(y: int, m: int) -> int {
    if m == 2 {
        if is_leap_year(y) {
            29
        } else {
            28
        }
    } else if m == 4 || m == 6 || m == 9 || m == 11 {
        30
    } else {
        31
    }
}

/// Days in year `y` before the first of month `m`.
pub open spec fn days_before_month(y: int, m: int) -> int {
    let base: int = if m == 1 {
        0
    } else if m == 2 {
        31
    } else if m == 3 {
        59
    } else if m == 4 {
        90
    } else if m == 5 {
        120
    } else if m == 6 {
        151
    } else if m == 7 {
        181
    } else if m == 8 {
        212
    } else if m == 9 {
        243
    } else if m == 10 {
        273
    } else if m == 11 {
        304
    } else {
        334
    };
    base + if m > 2 && is_leap_year(y) {
        1int
    } else {
        0int
    }
}

/// Days from 0001-01-01 to the first of January of year `y`, in the
/// proleptic Gregorian calendar (negative before year 1).
pub open spec fn days_before_year(y: int) -> int {
    365 * (y - 1) + (y - 1) / 4 - (y - 1) / 100 + (y - 1) / 400
}

/// The day number of a date: days since 1970-01-01.
pub open spec fn days_from_civil(y: int, m: int, d: int) -> int {
    days_before_year(y) + days_before_month(y, m) + d - 1 - 719162
}

pub open spec fn valid_date(y: int, m: int, d: int) -> bool {
    1 <= m <= 12 && 1 <= d <= days_in_month(y, m)
}

proof fn lemma_year_of_era(doe: u32, yoe: u32, next: u32)
    by (bit_vector)
    requires
        doe <= 146096,
        yoe == (doe - doe / 1460 + doe / 36524 - doe / 146096) / 365,
        next == yoe + 1,
    ensures
        yoe <= 399,
        365 * yoe + yoe / 4 - yoe / 100 <= doe,
        doe < 365 * next + next / 4 - next / 100 + next / 400,
        doe <= 365 * yoe + yoe / 4 - yoe / 100 + 365,
{
}

proof fn lemma_month_of_year(doy: u32, t: u32, mp: u32, s0: u32, s1: u32)
    by (bit_vector)
    requires
        doy <= 365,
        t == 5 * doy + 2,
        mp == t / 153,
        s0 == 153 * mp + 2,
        s1 == 153 * mp + 155,
    ensures
        mp <= 11,
        s0 / 5 <= doy,
        doy < s1 / 5,
{
}

/// `x / d` and `(x - 1) / d` differ by one exactly when `d` divides `x`.
proof fn lemma_floor_step(x: int, d: int)
    requires
        d > 0,
    ensures
        x / d - (x - 1) / d == if x % d == 0 { 1int } else { 0int },
{
    let q = x / d;
    let r = x % d;
    assert(x == q * d + r) by (nonlinear_arith)
        requires
            d > 0,
            q == x / d,
            r == x % d,
    ;
    if r == 0 {
        assert(x - 1 == (q - 1) * d + (d - 1)) by (nonlinear_arith)
            requires
                x == q * d + r,
                r == 0,
        ;
        lemma_fundamental_div_mod_converse(x - 1, d, q - 1, d - 1);
    } else {
        lemma_fundamental_div_mod_converse(x - 1, d, q, r - 1);
    }
}

/// Division of `k * m + r` by a divisor `d` of `m`.
proof fn lemma_div_shift(k: int, m: int, r: int, d: int)
    requires
        d > 0,
        m % d == 0,
        m >= 0,
    ensures
        (k * m + r) / d == k * (m / d) + r / d,
        (k * m + r) % d == r % d,
{
    let md = m / d;
    assert(m == md * d) by (nonlinear_arith)
        requires
            d > 0,
            md == m / d,
            m % d == 0,
    ;
    let q = r / d;
    let s = r % d;
    assert(r == q * d + s) by (nonlinear_arith)
        requires
            d > 0,
            q == r / d,
            s == r % d,
    ;
    assert(k * m + r == (k * md + q) * d + s) by (nonlinear_arith)
        requires
            m == md * d,
            r == q * d + s,
    ;
    lemma_fundamental_div_mod_converse(k * m + r, d, k * md + q, s);
}

/// The first of March of year `400 * era + yoe` (for `yoe < 400`), counted in
/// the days before the following January.
proof fn lemma_year_start(era: int, yoe: int)
    requires
        0 <= yoe < 400,
    ensures
        days_before_year(400 * era + yoe + 1) == 146097 * era + 365 * yoe + yoe / 4 - yoe / 100,
        days_before_year(400 * era + yoe) + 365 + (if is_leap_year(400 * era + yoe) { 1int } else { 0int })
            == days_before_year(400 * era + yoe + 1),
{
    let y = 400 * era + yoe;
    lemma_div_shift(era, 400, yoe, 4);
    lemma_div_shift(era, 400, yoe, 100);
    lemma_div_shift(era, 400, yoe, 400);
    assert(yoe / 400 == 0);
    lemma_floor_step(y, 4);
    lemma_floor_step(y, 100);
    lemma_floor_step(y, 400);
    assert((y + 1 - 1) == y);
    if y % 400 == 0 {
        assert(y % 100 == 0 && y % 4 == 0) by {
            lemma_div_shift(y / 400, 400, 0, 100);
            lemma_div_shift(y / 400, 400, 0, 4);
            assert(y == (y / 400) * 400) by (nonlinear_arith)
                requires
                    y % 400 == 0,
            ;
        }
    }
    if y % 100 == 0 {
        assert(y % 4 == 0) by {
            lemma_div_shift(y / 100, 100, 0, 4);
            assert(y == (y / 100) * 100) by (nonlinear_arith)
                requires
                    y % 100 == 0,
            ;
        }
    }
}

/// Whether the February that ends March-based year `yoe` of an era has a
/// leap day.
proof fn lemma_next_leap(era: int, yoe: int)
    requires
        0 <= yoe < 400,
    ensures
        (if is_leap_year(400 * era + yoe + 1) { 1int } else { 0int }) == ((yoe + 1) / 4 - yoe / 4)
            - ((yoe + 1) / 100 - yoe / 100) + (yoe + 1) / 400,
{
    let n = yoe + 1;
    lemma_div_shift(era, 400, n, 4);
    lemma_div_shift(era, 400, n, 100);
    lemma_div_shift(era, 400, n, 400);
    lemma_floor_step(n, 4);
    lemma_floor_step(n, 100);
    lemma_floor_step(n, 400);
    assert((n - 1) / 400 == 0);
    if n % 400 == 0 {
        assert(n == 400);
    }
    if n % 100 == 0 {
        assert(n % 4 == 0) by {
            lemma_div_shift(n / 100, 100, 0, 4);
            assert(n == (n / 100) * 100) by (nonlinear_arith)
                requires
                    n % 100 == 0,
            ;
        }
    }
}

/// Howard Hinnant's `civil_from_days`: converts a day count since the Unix
/// epoch into a proleptic-Gregorian (year, month, day).
#[verifier::spinoff_prover]
#[verifier::rlimit(40)]
pub fn civil_from_days(z: i64) -> (r: (i64, u32, u32))
    requires
        i64::MIN + 146_096 - 719_468 <= z <= i64::MAX - 719_468,
    ensures
        valid_date(r.0 as int, r.1 as int, r.2 as int),
        days_from_civil(r.0 as int, r.1 as int, r.2 as int) == z,
{
    let zp: i64 = z + 719_468;
    let era: i64 = match zp.checked_div_euclid(146_097) {
        Some(e) => e,
        None => 0,
    };
    assert(era == zp / 146_097);
    let doe64: i64 = zp - era * 146_097;
    assert(0 <= doe64 < 146_097);
    let doe: u32 = doe64 as u32;
    let yoe: u32 = (doe - doe / 1460 + doe / 36_524 - doe / 146_096) / 365;
    proof {
        lemma_year_of_era(doe, yoe, (yoe + 1) as u32);
    }
    let y: i64 = yoe as i64 + era * 400;
    let doy: u32 = doe - (365 * yoe + yoe / 4 - yoe / 100);
    let mp: u32 = (5 * doy + 2) / 153;
    proof {
        lemma_month_of_year(doy, (5 * doy + 2) as u32, mp, (153 * mp + 2) as u32, (153 * mp + 155) as u32);
    }
    let d: u32 = doy - (153 * mp + 2) / 5 + 1;
    let m: u32 = if mp < 10 {
        mp + 3
    } else {
        mp - 9
    };
    let year: i64 = if m <= 2 {
        y + 1
    } else {
        y
    };
    proof {
        lemma_year_start(era as int, yoe as int);
        lemma_next_leap(era as int, yoe as int);
        assert(y == 400 * era + yoe);
        assert(zp == era * 146_097 + doe);
    }
    (year, m, d)
}

/// `format!("{year:04}-{month:02}-{day:02} {hour:02}:{minute:02} UTC")`.
pub open spec fn timestamp_text(year: int, month: nat, day: nat, hour: nat, minute: nat) -> Seq<char> {
    padded_int(year, 4) + "-"@ + zero_pad(decimal(month), 2) + "-"@ + zero_pad(decimal(day), 2) + " "@
        + zero_pad(decimal(hour), 2) + ":"@ + zero_pad(decimal(minute), 2) + " UTC"@
}

/// The text shown for a Unix time in seconds: its UTC date, hour and
/// minute.
pub open spec fn unix_time_text(seconds: int) -> Seq<char> {
    let days = seconds / 86400;
    let secs = seconds % 86400;
    let (y, m, d) = choose|y: int, m: int, d: int| valid_date(y, m, d) && days_from_civil(y, m, d) == days;
    timestamp_text(y, m as nat, d as nat, (secs / 3600) as nat, ((secs % 3600) / 60) as nat)
}

/// Year `y` has 365 days, and one more in a leap year.
proof fn lemma_year_len(y: int)
    ensures
        days_before_year(y + 1) == days_before_year(y) + 365 + (if is_leap_year(y) { 1int } else { 0int }),
{
    lemma_floor_step(y, 4);
    lemma_floor_step(y, 100);
    lemma_floor_step(y, 400);
    assert((y + 1 - 1) == y);
    if y % 400 == 0 {
        assert(y % 100 == 0 && y % 4 == 0) by {
            lemma_div_shift(y / 400, 400, 0, 100);
            lemma_div_shift(y / 400, 400, 0, 4);
            assert(y == (y / 400) * 400) by (nonlinear_arith)
                requires
                    y % 400 == 0,
            ;
        }
    }
    if y % 100 == 0 {
        assert(y % 4 == 0) by {
            lemma_div_shift(y / 100, 100, 0, 4);
            assert(y == (y / 100) * 100) by (nonlinear_arith)
                requires
                    y % 100 == 0,
            ;
        }
    }
}

proof fn lemma_years_grow(a: int, b: int)
    requires
        a <= b,
    ensures
        days_before_year(b) >= days_before_year(a) + 365 * (b - a),
    decreases b - a,
{
    if a < b {
        lemma_years_grow(a, b - 1);
        lemma_year_len(b - 1);
    }
}

proof fn lemma_day_of_year(y: int, m: int, d: int)
    requires
        valid_date(y, m, d),
    ensures
        0 <= days_before_month(y, m) + d - 1 < 365 + (if is_leap_year(y) { 1int } else { 0int }),
{
}

proof fn lemma_months_ordered(y: int, m1: int, m2: int)
    requires
        1 <= m1 < m2 <= 12,
    ensures
        days_before_month(y, m1) + days_in_month(y, m1) <= days_before_month(y, m2),
{
}

/// A day number names at most one date.
pub proof fn lemma_civil_unique(y1: int, m1: int, d1: int, y2: int, m2: int, d2: int)
    requires
        valid_date(y1, m1, d1),
        valid_date(y2, m2, d2),
        days_from_civil(y1, m1, d1) == days_from_civil(y2, m2, d2),
    ensures
        y1 == y2 && m1 == m2 && d1 == d2,
{
    lemma_day_of_year(y1, m1, d1);
    lemma_day_of_year(y2, m2, d2);
    if y1 < y2 {
        lemma_year_len(y1);
        lemma_years_grow(y1 + 1, y2);
    } else if y2 < y1 {
        lemma_year_len(y2);
        lemma_years_grow(y2 + 1, y1);
    } else {
        if m1 < m2 {
            lemma_months_ordered(y1, m1, m2);
        } else if m2 < m1 {
            lemma_months_ordered(y1, m2, m1);
        }
    }
}

/// The calendar day after `(y, m, d)`.
pub open spec fn next_date(y: int, m: int, d: int) -> (int, int, int) {
    if d < days_in_month(y, m) {
        (y, m, d + 1)
    } else if m < 12 {
        (y, m + 1, 1)
    } else {
        (y + 1, 1, 1)
    }
}

/// Day numbers count calendar days from the epoch: day 0 is 1970-01-01,
/// and the day number after that of a date names the next calendar date.
/// With `civil_from_days`, which returns the one valid date of a day
/// number, `civil_from_days(z + 1)` is the day after `civil_from_days(z)`.
pub proof fn law_civil_successor(y: int, m: int, d: int, y2: int, m2: int, d2: int)
    requires
        valid_date(y, m, d),
        valid_date(y2, m2, d2),
        days_from_civil(y2, m2, d2) == days_from_civil(y, m, d) + 1,
    ensures
        days_from_civil(1970, 1, 1) == 0,
        valid_date(next_date(y, m, d).0, next_date(y, m, d).1, next_date(y, m, d).2),
        (y2, m2, d2) == next_date(y, m, d),
{
    let (ny, nm, nd) = next_date(y, m, d);
    if d < days_in_month(y, m) {
    } else if m < 12 {
        assert(days_before_month(y, m + 1) == days_before_month(y, m) + days_in_month(y, m));
    } else {
        lemma_year_len(y);
    }
    assert(days_from_civil(ny, nm, nd) == days_from_civil(y, m, d) + 1);
    lemma_civil_unique(ny, nm, nd, y2, m2, d2);
}

pub fn format_unix_timestamp(seconds: i64) -> (r: String)
    ensures
        r@ == unix_time_text(seconds as int),
{
    let days: i64 = match seconds.checked_div_euclid(86_400) {
        Some(v) => v,
        None => 0,
    };
    let secs: i64 = match seconds.checked_rem_euclid(86_400) {
        Some(v) => v,
        None => 0,
    };
    assert(days == seconds / 86400 && secs == seconds % 86400);
    let (year, month, day) = civil_from_days(days);
    let hour: i64 = secs / 3600;
    let minute: i64 = (secs % 3600) / 60;
    let mut out: Vec<char> = Vec::new();
    push_padded_i64(&mut out, year, 4);
    out.push('-');
    push_zero_padded(&mut out, month as u128, 2);
    out.push('-');
    push_zero_padded(&mut out, day as u128, 2);
    out.push(' ');
    push_zero_padded(&mut out, hour as u128, 2);
    out.push(':');
    push_zero_padded(&mut out, minute as u128, 2);
    append_str(&mut out, " UTC");
    proof {
        let ghost w = choose|y: int, m: int, d: int| valid_date(y, m, d) && days_from_civil(y, m, d) == days;
        lemma_civil_unique(w.0, w.1, w.2, year as int, month as int, day as int);
        reveal_strlit("-");
        reveal_strlit(" ");
        reveal_strlit(":");
    }
    assert(out@ =~= unix_time_text(seconds as int));
    string_from_chars(out.as_slice())
}


// ---------------------------------------------------------------------------
// Request URLs
// ---------------------------------------------------------------------------

/// The search URL for `query` on a mirror: path `/q.php`, query `q=<query>`.
pub fn build_search_url(base: &WebUrl, query: &str) -> (r: WebUrl)
    ensures
        r@ == url_append_pair(url_clear_query(url_set_path(base@, "/q.php"@)), "q"@, query@),
        url_query_pairs(r@) == seq![("q"@, query@)],
{
    let mut url = base.duplicate();
    url.set_path("/q.php");
    url.clear_query();
    url.append_pair("q", query);
    url
}

/// The query of a search request sent to one source: the search terms,
/// how many results to return (`limit`), and the API key when one is
/// configured.
pub open spec fn search_request_pairs(query: Seq<char>, per_source_limit: nat, api_key: Option<Seq<char>>) -> Seq<(Seq<char>, Seq<char>)> {
    seq![("q"@, query), ("limit"@, decimal(per_source_limit))] + match api_key {
        Some(k) => seq![("apikey"@, k)],
        None => Seq::<(Seq<char>, Seq<char>)>::empty(),
    }
}

/// The search request for `query` on a source: the search URL, asking for
/// at most `per_source_limit` results, with the API key as `apikey` when
/// one is given.
pub fn build_request_url(base: &WebUrl, query: &str, per_source_limit: usize, api_key: Option<&str>) -> (r: WebUrl)
    ensures
        url_query_pairs(r@) == search_request_pairs(
            query@,
            per_source_limit as nat,
            match api_key {
                Some(k) => Some(k@),
                None => None,
            },
        ),
{
    let mut url = build_search_url(base, query);
    let mut digits: Vec<char> = Vec::new();
    push_decimal(&mut digits, per_source_limit as u128);
    let limit = string_from_chars(digits.as_slice());
    url.append_pair("limit", limit.as_str());
    if let Some(key) = api_key {
        url.append_pair("apikey", key);
    }
    let ghost k = match api_key {
        Some(k) => Some(k@),
        None => None::<Seq<char>>,
    };
    assert(url_query_pairs(url@) =~= search_request_pairs(query@, per_source_limit as nat, k));
    url
}

/// The URL used to check that a candidate mirror answers searches.
pub fn build_probe_url(base: &WebUrl) -> (r: WebUrl)
    ensures
        r@ == url_append_pair(url_clear_query(url_set_path(base@, "/q.php"@)), "q"@, "test"@),
        url_query_pairs(r@) == seq![("q"@, "test"@)],
{
    build_search_url(base, "test")
}

// ---------------------------------------------------------------------------
// Percent-encoding of the magnet display name
// ---------------------------------------------------------------------------

/// The bytes left as they are: ASCII letters, digits and `-_.~`.
pub open spec fn unreserved(b: u8) -> bool {
    (65 <= b <= 90) || (97 <= b <= 122) || (48 <= b <= 57) || b == 45 || b == 95 || b == 46 || b == 126
}

pub open spec fn encode_byte(b: u8) -> Seq<char> {
    if unreserved(b) {
        seq![b as char]
    } else {
        seq!['%'] + hex_digits(b as nat, 2, true)
    }
}

pub open spec fn percent_encode(bytes: Seq<u8>) -> Seq<char>
    decreases bytes.len(),
{
    if bytes.len() == 0 {
        seq![]
    } else {
        percent_encode(bytes.drop_last()) + encode_byte(bytes.last())
    }
}

proof fn lemma_hex_char(d: int)
    requires
        0 <= d < 16,
    ensures
        '0' <= hex_digit(d, true) <= '9' || 'A' <= hex_digit(d, true) <= 'F',
{
}

proof fn lemma_hex_pair(b: u8)
    ensures
        ({
            let e = encode_byte(b);
            !unreserved(b) ==> {
                &&& e.len() == 3
                &&& e[0] == '%'
                &&& forall|k: int| 1 <= k < 3 ==> ('0' <= #[trigger] e[k] <= '9' || 'A' <= e[k] <= 'F')
            }
        }),
{
    reveal_with_fuel(hex_digits, 3);
    let h = hex_digits(b as nat, 2, true);
    assert(h == seq![hex_digit(((b as nat / 16) % 16) as int, true), hex_digit((b as nat % 16) as int, true)]);
    lemma_hex_char(((b as nat / 16) % 16) as int);
    lemma_hex_char((b as nat % 16) as int);
}

/// Percent-encoding leaves a text of unreserved bytes (ASCII letters,
/// digits and `-_.~`) as it is, and turns every other byte into three
/// characters, `%` and two uppercase hexadecimal digits.
pub proof fn law_percent_encode(bytes: Seq<u8>)
    ensures
        (forall|i: int| 0 <= i < bytes.len() ==> unreserved(#[trigger] bytes[i])) ==>
            percent_encode(bytes) == bytes.map_values(|b: u8| b as char),
        forall|b: u8| !unreserved(b) ==> {
            let e = #[trigger] encode_byte(b);
            &&& e.len() == 3
            &&& e[0] == '%'
            &&& forall|k: int| 1 <= k < 3 ==> ('0' <= #[trigger] e[k] <= '9' || 'A' <= e[k] <= 'F')
        },
    decreases bytes.len(),
{
    if bytes.len() > 0 {
        law_percent_encode(bytes.drop_last());
        if forall|i: int| 0 <= i < bytes.len() ==> unreserved(#[trigger] bytes[i]) {
            assert forall|i: int| 0 <= i < bytes.drop_last().len() implies unreserved(#[trigger] bytes.drop_last()[i]) by {
                assert(bytes.drop_last()[i] == bytes[i]);
            }
            assert(unreserved(bytes[bytes.len() - 1]));
            assert(percent_encode(bytes) =~= bytes.map_values(|b: u8| b as char));
        }
    } else {
        assert(percent_encode(bytes) =~= bytes.map_values(|b: u8| b as char));
    }
    assert forall|b: u8| !unreserved(b) implies {
        let e = #[trigger] encode_byte(b);
        &&& e.len() == 3
        &&& e[0] == '%'
        &&& forall|k: int| 1 <= k < 3 ==> ('0' <= #[trigger] e[k] <= '9' || 'A' <= e[k] <= 'F')
    } by {
        lemma_hex_pair(b);
    }
}

/// A minimal, dependency-free percent-encoder for the magnet `dn` parameter:
/// each UTF-8 byte of `value` that is not unreserved becomes `%XX`.
pub fn urlencoding_light(value: &str) -> (r: String)
    ensures
        r@ == percent_encode(encode_utf8(value@)),
{
    let bytes = value.as_bytes();
    let mut out: Vec<char> = Vec::new();
    let mut i: usize = 0;
    while i < bytes.len()
        invariant
            i <= bytes@.len(),
            out@ == percent_encode(bytes@.take(i as int)),
        decreases bytes@.len() - i,
    {
        let b = bytes[i];
        let ghost before = out@;
        if (65 <= b && b <= 90) || (97 <= b && b <= 122) || (48 <= b && b <= 57) || b == 45 || b == 95
            || b == 46 || b == 126 {
            out.push(b as char);
        } else {
            out.push('%');
            push_hex(&mut out, b as u64, 2, true);
        }
        i = i + 1;
        assert(bytes@.take(i as int).drop_last() =~= bytes@.take(i - 1));
        assert(out@ =~= before + encode_byte(b));
    }
    assert(bytes@.take(bytes@.len() as int) =~= bytes@);
    string_from_chars(out.as_slice())
}

// ---------------------------------------------------------------------------
// Result rows
// ---------------------------------------------------------------------------

/// One row of the API's JSON result array; every field is a string.
pub struct ApiTorrent {
    pub id: String,
    pub name: String,
    pub info_hash: String,
    pub leechers: String,
    pub seeders: String,
    pub size: String,
    pub added: String,
    pub category: String,
}

/// The result a row stands for. The API's "no results" sentinel row (id
/// `0`) and rows without an info hash or a name stand for none.
pub open spec fn row_torrent(row: ApiTorrent) -> Option<TorrentView> {
    if row.id@ == "0"@ || row.info_hash@.len() == 0 || row.name@.len() == 0 {
        None
    } else {
        Some(
            TorrentView {
                title: row.name@,
                magnet: Some(
                    "magnet:?xt=urn:btih:"@ + row.info_hash@ + "&dn="@ + percent_encode(
                        encode_utf8(row.name@),
                    ),
                ),
                category: if row.category@ != "0"@ {
                    Some(row.category@)
                } else {
                    None
                },
                size_bytes: u64_of(row.size@),
                seeders: u64_of(row.seeders@),
                leechers: u64_of(row.leechers@),
                published: match parse_i64_spec(row.added@) {
                    Some(t) => Some(unix_time_text(t)),
                    None => None,
                },
                ..empty_torrent()
            },
        )
    }
}

/// The results that `rows` stand for, in order.
pub open spec fn rows_torrents(rows: Seq<ApiTorrent>) -> Seq<TorrentView>
    decreases rows.len(),
{
    if rows.len() == 0 {
        seq![]
    } else {
        let rest = rows_torrents(rows.drop_last());
        match row_torrent(rows.last()) {
            Some(t) => rest.push(t),
            None => rest,
        }
    }
}

/// The rows of `rows` that are not the no-results sentinel (id `0`) and
/// carry both an info hash and a name, in order.
pub open spec fn result_rows(rows: Seq<ApiTorrent>) -> Seq<ApiTorrent>
    decreases rows.len(),
{
    if rows.len() == 0 {
        seq![]
    } else {
        let rest = result_rows(rows.drop_last());
        let row = rows.last();
        if row.id@ != "0"@ && row.info_hash@.len() > 0 && row.name@.len() > 0 {
            rest.push(row)
        } else {
            rest
        }
    }
}

/// A row that is not the sentinel and has an info hash and a name stands
/// for one result, titled by its name, with a magnet link for its hash and
/// its swarm counts and size read as numbers, whatever those texts hold;
/// the sentinel stands for none.
pub proof fn law_row_result(row: ApiTorrent)
    ensures
        row.id@ == "0"@ ==> row_torrent(row) is None,
        row.id@ != "0"@ && row.info_hash@.len() > 0 && row.name@.len() > 0 ==> {
            &&& row_torrent(row) is Some
            &&& row_torrent(row)->0.title == row.name@
            &&& row_torrent(row)->0.seeders == u64_of(row.seeders@)
            &&& row_torrent(row)->0.leechers == u64_of(row.leechers@)
            &&& row_torrent(row)->0.size_bytes == u64_of(row.size@)
            &&& row_torrent(row)->0.magnet is Some
            &&& has_prefix(row_torrent(row)->0.magnet->0, "magnet:?xt=urn:btih:"@ + row.info_hash@)
            &&& (row.category@ == "0"@ <==> row_torrent(row)->0.category is None)
        },
{
    if row.id@ != "0"@ && row.info_hash@.len() > 0 && row.name@.len() > 0 {
        let m = row_torrent(row)->0.magnet->0;
        let p = "magnet:?xt=urn:btih:"@ + row.info_hash@;
        assert(m.take(p.len() as int) =~= p);
    }
}

/// Parsing the rows of a response gives exactly one result per row that is
/// not the sentinel and has an info hash and a name, in their order, each
/// titled by its row's name and carrying its row's swarm counts.
pub proof fn law_rows_results(rows: Seq<ApiTorrent>)
    ensures
        rows_torrents(rows).len() == result_rows(rows).len(),
        forall|i: int| 0 <= i < rows_torrents(rows).len() ==> {
            &&& (#[trigger] rows_torrents(rows)[i]).title == result_rows(rows)[i].name@
            &&& rows_torrents(rows)[i].seeders == u64_of(result_rows(rows)[i].seeders@)
            &&& rows_torrents(rows)[i].leechers == u64_of(result_rows(rows)[i].leechers@)
        },
    decreases rows.len(),
{
    if rows.len() > 0 {
        let pre = rows.drop_last();
        law_rows_results(pre);
        law_row_result(rows.last());
        let a = rows_torrents(rows);
        let b = result_rows(rows);
        assert forall|i: int| 0 <= i < a.len() implies {
            &&& (#[trigger] a[i]).title == b[i].name@
            &&& a[i].seeders == u64_of(b[i].seeders@)
            &&& a[i].leechers == u64_of(b[i].leechers@)
        } by {
            if i < rows_torrents(pre).len() {
                assert(a[i] == rows_torrents(pre)[i]);
                assert(b[i] == result_rows(pre)[i]);
            }
        }
    }
}

fn row_to_torrent(row: &ApiTorrent) -> (r: Option<Torrent>)
    ensures
        match r {
            Some(t) => row_torrent(*row) == Some(t@),
            None => row_torrent(*row) is None,
        },
{
    let id = chars_of(row.id.as_str());
    if crate::text::chars_are(id.as_slice(), "0") || row.info_hash.as_str().is_empty()
        || row.name.as_str().is_empty() {
        return None;
    }
    let mut magnet = chars_of("magnet:?xt=urn:btih:");
    append_str(&mut magnet, row.info_hash.as_str());
    append_str(&mut magnet, "&dn=");
    let encoded = urlencoding_light(row.name.as_str());
    append_str(&mut magnet, encoded.as_str());
    let cat = chars_of(row.category.as_str());
    let category = if !crate::text::chars_are(cat.as_slice(), "0") {
        Some(row.category.clone())
    } else {
        None
    };
    let size = chars_of(row.size.as_str());
    let seeders = chars_of(row.seeders.as_str());
    let leechers = chars_of(row.leechers.as_str());
    let added = chars_of(row.added.as_str());
    let published = match parse_i64(added.as_slice()) {
        Some(t) => Some(format_unix_timestamp(t)),
        None => None,
    };
    let mut t = Torrent::default();
    t.title = row.name.clone();
    t.magnet = Some(string_from_chars(magnet.as_slice()));
    t.category = category;
    t.size_bytes = u64_of_exec(size.as_slice());
    t.seeders = u64_of_exec(seeders.as_slice());
    t.leechers = u64_of_exec(leechers.as_slice());
    t.published = published;
    proof {
        assert(magnet@ =~= "magnet:?xt=urn:btih:"@ + row.info_hash@ + "&dn="@ + percent_encode(
            encode_utf8(row.name@),
        ));
    }
    Some(t)
}

/// Maps the rows of a search response to results. A response that only
/// holds the no-results sentinel is a legitimate empty result set.
pub fn parse_response(rows: Vec<ApiTorrent>) -> (r: Vec<Torrent>)
    ensures
        torrent_views(r@) == rows_torrents(rows@),
{
    let mut out: Vec<Torrent> = Vec::new();
    let mut i: usize = 0;
    assert(torrent_views(out@) =~= rows_torrents(rows@.take(0)));
    while i < rows.len()
        invariant
            i <= rows@.len(),
            torrent_views(out@) == rows_torrents(rows@.take(i as int)),
        decreases rows@.len() - i,
    {
        let ghost before = out@;
        assert(rows@.take(i + 1).drop_last() =~= rows@.take(i as int));
        assert(rows@.take(i + 1).last() == rows@[i as int]);
        match row_to_torrent(&rows[i]) {
            Some(t) => {
                out.push(t);
                assert(torrent_views(out@) =~= torrent_views(before).push(out@.last()@));
            },
            None => {},
        }
        i = i + 1;
    }
    assert(rows@.take(rows@.len() as int) =~= rows@);
    out
}
} // verus!
