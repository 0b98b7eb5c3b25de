//! Character-level text utilities shared by the parsers and renderers:
//! comparison, trimming, splitting, number parsing and number formatting.
use vstd::prelude::*;
use vstd::utf8::*;

verus! {

// ---------------------------------------------------------------------------
// Conversions between `str`/`String` and character vectors
// ---------------------------------------------------------------------------

/// The characters of `s`, in order.
pub fn chars_of(s: &str) -> (r: Vec<char>)
    ensures
        r@ == s@,
{
    let mut out: Vec<char> = Vec::new();
    for c in it: s.chars()
        invariant
            it.seq() == s@,
            out@ == s@.take(it.index() as int),
    {
        out.push(c);
        assert(out@ =~= s@.take(it.index() as int + 1));
    }
    assert(s@.take(s@.len() as int) =~= s@);
    out
}

/// A string holding exactly the characters of `v`
/// (`<String as FromIterator<&char>>::from_iter`).
#[verifier::external_body]
pub(crate) fn string_from_chars(v: &[char]) -> (r: String)
    ensures
        r@ == v@,
{
    String::from_iter(v)
}

/// `std::str::from_utf8`: succeeds exactly on valid UTF-8 and then yields
/// the decoded characters.
#[verifier::external_body]
pub(crate) fn utf8_str(bytes: &[u8]) -> (r: Option<&str>)
    ensures
        r is Some <==> valid_utf8(bytes@),
        r matches Some(s) ==> s@ == decode_utf8(bytes@),
{
    std::str::from_utf8(bytes).ok()
}

/// The views of a sequence of strings.
pub open spec fn string_views(v: Seq<String>) -> Seq<Seq<char>> {
    v.map_values(|s: String| s@)
}

/// The views of a sequence of character vectors.
pub open spec fn char_vec_views(v: Seq<Vec<char>>) -> Seq<Seq<char>> {
    v.map_values(|s: Vec<char>| s@)
}

/// An optional string by its characters.
pub open spec fn opt_view(o: Option<String>) -> Option<Seq<char>> {
    match o {
        Some(s) => Some(s@),
        None => None,
    }
}

pub fn chars_to_string_opt(v: &Option<Vec<char>>) -> (r: Option<String>)
    ensures
        opt_view(r) == match v {
            Some(c) => Some(c@),
            None => None::<Seq<char>>,
        },
{
    match v {
        Some(c) => Some(string_from_chars(c.as_slice())),
        None => None,
    }
}

// ---------------------------------------------------------------------------
// Comparison and prefixes
// ---------------------------------------------------------------------------

pub fn same_chars(a: &[char], b: &[char]) -> (r: bool)
    ensures
        r == (a@ == b@),
{
    if a.len() != b.len() {
        return false;
    }
    let mut i: usize = 0;
    while i < a.len()
        invariant
            a@.len() == b@.len(),
            i <= a@.len(),
            forall|j: int| 0 <= j < i ==> a@[j] == b@[j],
        decreases a@.len() - i,
    {
        if a[i] != b[i] {
            return false;
        }
        i = i + 1;
    }
    assert(a@ =~= b@);
    true
}

/// Whether the characters `a` equal the text `lit`.
pub fn chars_are(a: &[char], lit: &str) -> (r: bool)
    ensures
        r == (a@ == lit@),
{
    let l = chars_of(lit);
    same_chars(a, l.as_slice())
}

/// Whether `s` begins with `p`.
pub open spec fn has_prefix(s: Seq<char>, p: Seq<char>) -> bool {
    p.len() <= s.len() && s.take(p.len() as int) == p
}

pub fn starts_with(s: &[char], p: &[char]) -> (r: bool)
    ensures
        r == has_prefix(s@, p@),
{
    if p.len() > s.len() {
        return false;
    }
    let mut i: usize = 0;
    while i < p.len()
        invariant
            p@.len() <= s@.len(),
            i <= p@.len(),
            forall|j: int| 0 <= j < i ==> s@[j] == p@[j],
        decreases p@.len() - i,
    {
        if s[i] != p[i] {
            assert(s@.take(p@.len() as int)[i as int] != p@[i as int]);
            return false;
        }
        i = i + 1;
    }
    assert(s@.take(p@.len() as int) =~= p@);
    true
}

/// Whether `s` begins with the text `lit`.
pub fn starts_with_str(s: &[char], lit: &str) -> (r: bool)
    ensures
        r == has_prefix(s@, lit@),
{
    let p = chars_of(lit);
    starts_with(s, p.as_slice())
}

/// `a` followed by the characters of `b`.
pub fn append_str(a: &mut Vec<char>, b: &str)
    ensures
        final(a)@ == old(a)@ + b@,
{
    let c = chars_of(b);
    append_chars(a, c.as_slice());
}

pub fn append_chars(a: &mut Vec<char>, b: &[char])
    ensures
        final(a)@ == old(a)@ + b@,
{
    let mut i: usize = 0;
    while i < b.len()
        invariant
            i <= b@.len(),
            a@ == old(a)@ + b@.take(i as int),
        decreases b@.len() - i,
    {
        a.push(b[i]);
        i = i + 1;
        assert(a@ =~= old(a)@ + b@.take(i as int));
    }
    assert(b@.take(b@.len() as int) =~= b@);
}

pub fn seq_contains_text(v: &Vec<String>, s: &String) -> (r: bool)
    ensures
        r == string_views(v@).contains(s@),
{
    let mut i: usize = 0;
    while i < v.len()
        invariant
            i <= v@.len(),
            forall|j: int| 0 <= j < i ==> v@[j]@ != s@,
        decreases v@.len() - i,
    {
        if v[i] == *s {
            assert(string_views(v@)[i as int] == s@);
            return true;
        }
        i = i + 1;
    }
    assert forall|j: int| 0 <= j < string_views(v@).len() implies string_views(v@)[j] != s@ by {
        assert(string_views(v@)[j] == v@[j]@);
    }
    false
}

// ---------------------------------------------------------------------------
// Case conversion
// ---------------------------------------------------------------------------

pub open spec fn ascii_lower_char(c: char) -> char {
    if 'A' <= c && c <= 'Z' {
        ((c as u32) + 32) as char
    } else {
        c
    }
}

/// ASCII lowercase: only `A`..=`Z` change (as `str::to_ascii_lowercase`).
pub open spec fn ascii_lower(s: Seq<char>) -> Seq<char> {
    s.map_values(|c: char| ascii_lower_char(c))
}

pub fn ascii_lower_char_exec(c: char) -> (r: char)
    ensures
        r == ascii_lower_char(c),
{
    if 'A' <= c && c <= 'Z' {
        let b: u8 = c as u8;
        ((b + 32) as char)
    } else {
        c
    }
}

pub fn to_ascii_lowercase(s: &[char]) -> (r: Vec<char>)
    ensures
        r@ == ascii_lower(s@),
{
    let mut out: Vec<char> = Vec::new();
    let mut i: usize = 0;
    while i < s.len()
        invariant
            i <= s@.len(),
            out@ == ascii_lower(s@.take(i as int)),
        decreases s@.len() - i,
    {
        out.push(ascii_lower_char_exec(s[i]));
        i = i + 1;
        assert(out@ =~= ascii_lower(s@.take(i as int)));
    }
    assert(s@.take(s@.len() as int) =~= s@);
    out
}

// ---------------------------------------------------------------------------
// Whitespace and trimming
// ---------------------------------------------------------------------------

/// The Unicode `White_Space` property, which `char::is_whitespace` and
/// `str::trim` use.
pub open spec fn is_ws(c: char) -> bool {
    let u = c as u32;
    ||| 0x09 <= u <= 0x0D
    ||| u == 0x20
    ||| u == 0x85
    ||| u == 0xA0
    ||| u == 0x1680
    ||| 0x2000 <= u <= 0x200A
    ||| u == 0x2028
    ||| u == 0x2029
    ||| u == 0x202F
    ||| u == 0x205F
    ||| u == 0x3000
}

pub fn is_ws_exec(c: char) -> (r: bool)
    ensures
        r == is_ws(c),
{
    let u = c as u32;
    (0x09 <= u && u <= 0x0D) || u == 0x20 || u == 0x85 || u == 0xA0 || u == 0x1680 || (0x2000
        <= u && u <= 0x200A) || u == 0x2028 || u == 0x2029 || u == 0x202F || u == 0x205F || u
        == 0x3000
}

pub open spec fn trim_start(s: Seq<char>) -> Seq<char>
    decreases s.len(),
{
    if s.len() > 0 && is_ws(s[0]) {
        trim_start(s.drop_first())
    } else {
        s
    }
}

pub open spec fn trim_end(s: Seq<char>) -> Seq<char>
    decreases s.len(),
{
    if s.len() > 0 && is_ws(s.last()) {
        trim_end(s.drop_last())
    } else {
        s
    }
}

/// `str::trim`: leading and trailing white space removed.
pub open spec fn trim(s: Seq<char>) -> Seq<char> {
    trim_end(trim_start(s))
}

proof fn lemma_trim_start_skip(s: Seq<char>, i: int)
    requires
        0 <= i <= s.len(),
        forall|k: int| 0 <= k < i ==> is_ws(s[k]),
    ensures
        trim_start(s) == trim_start(s.skip(i)),
    decreases i,
{
    if i > 0 {
        assert(s.drop_first().skip(i - 1) =~= s.skip(i));
        assert forall|k: int| 0 <= k < i - 1 implies is_ws(s.drop_first()[k]) by {
            assert(s.drop_first()[k] == s[k + 1]);
        }
        assert(is_ws(s[0]));
        lemma_trim_start_skip(s.drop_first(), i - 1);
    } else {
        assert(s.skip(0) =~= s);
    }
}

proof fn lemma_trim_end_take(s: Seq<char>, j: int)
    requires
        0 <= j <= s.len(),
        forall|k: int| j <= k < s.len() ==> is_ws(s[k]),
    ensures
        trim_end(s) == trim_end(s.take(j)),
    decreases s.len() - j,
{
    if j < s.len() {
        assert(s.drop_last().take(j) =~= s.take(j));
        assert(is_ws(s.last()));
        lemma_trim_end_take(s.drop_last(), j);
    } else {
        assert(s.take(j) =~= s);
    }
}

pub fn trim_chars(s: &[char]) -> (r: Vec<char>)
    ensures
        r@ == trim(s@),
{
    let mut i: usize = 0;
    while i < s.len() && is_ws_exec(s[i])
        invariant
            i <= s@.len(),
            forall|k: int| 0 <= k < i ==> is_ws(s@[k]),
        decreases s@.len() - i,
    {
        i = i + 1;
    }
    proof {
        lemma_trim_start_skip(s@, i as int);
    }
    let ghost t = s@.skip(i as int);
    assert(trim_start(t) == t);
    let mut j: usize = s.len();
    while j > i && is_ws_exec(s[j - 1])
        invariant
            i <= j <= s@.len(),
            forall|k: int| j <= k < s@.len() ==> is_ws(s@[k]),
        decreases j,
    {
        j = j - 1;
    }
    let mut out: Vec<char> = Vec::new();
    let mut k: usize = i;
    while k < j
        invariant
            i <= k <= j,
            j <= s@.len(),
            out@ == s@.subrange(i as int, k as int),
        decreases j - k,
    {
        out.push(s[k]);
        k = k + 1;
        assert(out@ =~= s@.subrange(i as int, k as int));
    }
    proof {
        lemma_trim_end_take(t, j - i);
        assert(t.take(j - i) =~= s@.subrange(i as int, j as int));
        let u = t.take(j - i);
        if u.len() > 0 {
            assert(u.last() == s@[j - 1]);
        }
    }
    out
}

pub fn trim_str(s: &str) -> (r: Vec<char>)
    ensures
        r@ == trim(s@),
{
    let c = chars_of(s);
    trim_chars(c.as_slice())
}

// ---------------------------------------------------------------------------
// Splitting
// ---------------------------------------------------------------------------

/// Index of the first `c` in `s`, or -1.
pub open spec fn find_char(s: Seq<char>, c: char) -> int
    decreases s.len(),
{
    if s.len() == 0 {
        -1
    } else if s[0] == c {
        0
    } else {
        let r = find_char(s.drop_first(), c);
        if r < 0 {
            -1
        } else {
            r + 1
        }
    }
}

pub proof fn lemma_find_char(s: Seq<char>, c: char)
    ensures
        -1 <= find_char(s, c) < s.len(),
        find_char(s, c) >= 0 ==> s[find_char(s, c)] == c,
        forall|k: int|
            0 <= k < s.len() && (find_char(s, c) < 0 || k < find_char(s, c)) ==> s[k] != c,
    decreases s.len(),
{
    if s.len() > 0 && s[0] != c {
        lemma_find_char(s.drop_first(), c);
        assert forall|k: int|
            0 <= k < s.len() && (find_char(s, c) < 0 || k < find_char(s, c)) implies s[k]
            != c by {
            if k > 0 {
                assert(s[k] == s.drop_first()[k - 1]);
            }
        }
    }
}

/// Characterises `find_char` by the scan that computes it.
pub proof fn lemma_find_char_at(s: Seq<char>, c: char, i: int)
    requires
        0 <= i <= s.len(),
        forall|k: int| 0 <= k < i ==> s[k] != c,
    ensures
        i < s.len() && s[i] == c ==> find_char(s, c) == i,
        i == s.len() ==> find_char(s, c) == -1,
    decreases i,
{
    if i > 0 {
        lemma_find_char_at(s.drop_first(), c, i - 1);
    }
}

/// `str::split(c)`: the pieces between occurrences of `c` (always at
/// least one piece).
pub open spec fn split_spec(s: Seq<char>, c: char) -> Seq<Seq<char>>
    decreases s.len(),
{
    let i = find_char(s, c);
    if i < 0 {
        seq![s]
    } else {
        proof {
            lemma_find_char(s, c);
        }
        seq![s.take(i)] + split_spec(s.skip(i + 1), c)
    }
}

/// `str::lines`: pieces ended by `\n`, a `\r` directly before that `\n`
/// removed, and no final empty piece after a trailing line end.
pub open spec fn lines_spec(s: Seq<char>) -> Seq<Seq<char>>
    decreases s.len(),
{
    if s.len() == 0 {
        seq![]
    } else {
        let i = find_char(s, '\n');
        if i < 0 {
            seq![s]
        } else {
            proof {
                lemma_find_char(s, '\n');
            }
            seq![strip_cr(s.take(i))] + lines_spec(s.skip(i + 1))
        }
    }
}

pub open spec fn strip_cr(s: Seq<char>) -> Seq<char> {
    if s.len() > 0 && s.last() == '\r' {
        s.drop_last()
    } else {
        s
    }
}

/// Splits `s` at every `c`, as `str::split`.
pub fn split_chars(s: &[char], c: char) -> (r: Vec<Vec<char>>)
    ensures
        char_vec_views(r@) == split_spec(s@, c),
{
    let mut out: Vec<Vec<char>> = Vec::new();
    let mut piece: Vec<char> = Vec::new();
    let mut start: usize = 0;
    let mut i: usize = 0;
    assert(s@.skip(0) =~= s@);
    assert(char_vec_views(out@) =~= Seq::<Seq<char>>::empty());
    while i < s.len()
        invariant
            start <= i <= s@.len(),
            piece@ == s@.subrange(start as int, i as int),
            forall|k: int| start <= k < i ==> s@[k] != c,
            split_spec(s@, c) == char_vec_views(out@) + split_spec(s@.skip(start as int), c),
        decreases s@.len() - i,
    {
        if s[i] == c {
            let ghost rest = s@.skip(start as int);
            let ghost pstart = start as int;
            proof {
                assert forall|k: int| 0 <= k < i - start implies rest[k] != c by {
                    assert(rest[k] == s@[start + k]);
                }
                lemma_find_char_at(rest, c, i - start);
                assert(rest.take(i - start) =~= piece@);
                assert(rest.skip(i - start + 1) =~= s@.skip(i + 1));
            }
            let ghost before = out@;
            let ghost pv = piece@;
            out.push(piece);
            piece = Vec::new();
            i = i + 1;
            start = i;
            assert(char_vec_views(out@) =~= char_vec_views(before) + seq![pv]);
            assert(piece@ =~= s@.subrange(start as int, i as int));
        } else {
            piece.push(s[i]);
            i = i + 1;
            assert(piece@ =~= s@.subrange(start as int, i as int));
        }
    }
    let ghost rest = s@.skip(start as int);
    proof {
        assert forall|k: int| 0 <= k < rest.len() implies rest[k] != c by {
            assert(rest[k] == s@[start + k]);
        }
        lemma_find_char_at(rest, c, rest.len() as int);
        assert(rest =~= piece@);
    }
    let ghost before = out@;
    out.push(piece);
    assert(char_vec_views(out@) =~= char_vec_views(before) + seq![rest]);
    out
}


/// Splits `s` into lines, as `str::lines`.
pub fn lines_of(s: &[char]) -> (r: Vec<Vec<char>>)
    ensures
        char_vec_views(r@) == lines_spec(s@),
{
    let mut out: Vec<Vec<char>> = Vec::new();
    let mut piece: Vec<char> = Vec::new();
    let mut start: usize = 0;
    let mut i: usize = 0;
    assert(s@.skip(0) =~= s@);
    assert(char_vec_views(out@) =~= Seq::<Seq<char>>::empty());
    while i < s.len()
        invariant
            start <= i <= s@.len(),
            piece@ == s@.subrange(start as int, i as int),
            forall|k: int| start <= k < i ==> s@[k] != '\n',
            lines_spec(s@) == char_vec_views(out@) + lines_spec(s@.skip(start as int)),
        decreases s@.len() - i,
    {
        if s[i] == '\n' {
            let ghost rest = s@.skip(start as int);
            proof {
                assert forall|k: int| 0 <= k < i - start implies rest[k] != '\n' by {
                    assert(rest[k] == s@[start + k]);
                }
                lemma_find_char_at(rest, '\n', i - start);
                assert(rest.take(i - start) =~= piece@);
                assert(rest.skip(i - start + 1) =~= s@.skip(i + 1));
            }
            let ghost before = out@;
            let ghost pv = piece@;
            let n = piece.len();
            if n > 0 && piece[n - 1] == '\r' {
                piece.pop();
            }
            assert(piece@ =~= strip_cr(pv));
            let ghost sv = piece@;
            out.push(piece);
            piece = Vec::new();
            i = i + 1;
            start = i;
            assert(char_vec_views(out@) =~= char_vec_views(before) + seq![sv]);
            assert(piece@ =~= s@.subrange(start as int, i as int));
        } else {
            piece.push(s[i]);
            i = i + 1;
            assert(piece@ =~= s@.subrange(start as int, i as int));
        }
    }
    let ghost rest = s@.skip(start as int);
    proof {
        assert forall|k: int| 0 <= k < rest.len() implies rest[k] != '\n' by {
            assert(rest[k] == s@[start + k]);
        }
        lemma_find_char_at(rest, '\n', rest.len() as int);
        assert(rest =~= piece@);
    }
    if piece.len() > 0 {
        let ghost before = out@;
        out.push(piece);
        assert(char_vec_views(out@) =~= char_vec_views(before) + seq![rest]);
    } else {
        assert(char_vec_views(out@) =~= char_vec_views(out@) + lines_spec(rest));
    }
    out
}

// ---------------------------------------------------------------------------
// Numbers: decimal and hexadecimal digits, parsing
// ---------------------------------------------------------------------------

pub open spec fn digit_char(d: int) -> char {
    (48 + d) as char
}

/// The decimal digits of `n`, without leading zeros (`"0"` for zero).
pub open spec fn decimal(n: nat) -> Seq<char>
    decreases n,
{
    if n < 10 {
        seq![digit_char(n as int)]
    } else {
        decimal(n / 10).push(digit_char((n % 10) as int))
    }
}

fn digit_exec(d: u128) -> (r: char)
    requires
        d < 10,
    ensures
        r == digit_char(d as int),
{
    let b: u8 = (d as u8) + 48;
    b as char
}

/// Appends the decimal digits of `n` to `out`.
pub fn push_decimal(out: &mut Vec<char>, n: u128)
    ensures
        final(out)@ == old(out)@ + decimal(n as nat),
    decreases n,
{
    if n >= 10 {
        push_decimal(out, n / 10);
    }
    let ghost mid = out@;
    out.push(digit_exec(n % 10));
    proof {
        if n >= 10 {
            assert(decimal(n as nat) == decimal((n / 10) as nat).push(digit_char((n % 10) as int)));
        }
    }
    assert(final_eq(out@, old(out)@, n as nat));
}

pub open spec fn final_eq(now: Seq<char>, before: Seq<char>, n: nat) -> bool {
    now =~= before + decimal(n)
}

/// `s` preceded by zeros to make it at least `w` characters long.
pub open spec fn zero_pad(s: Seq<char>, w: nat) -> Seq<char> {
    if s.len() < w {
        Seq::new((w - s.len()) as nat, |i: int| '0') + s
    } else {
        s
    }
}

/// `format!("{:0w$}", v)` for an integer: the sign, then zeros, then digits,
/// at least `w` characters in all.
pub open spec fn padded_int(v: int, w: nat) -> Seq<char> {
    if v < 0 {
        seq!['-'] + zero_pad(decimal((-v) as nat), if w >= 1 { (w - 1) as nat } else { 0 })
    } else {
        zero_pad(decimal(v as nat), w)
    }
}

pub fn push_zero_padded(out: &mut Vec<char>, n: u128, w: usize)
    ensures
        final(out)@ == old(out)@ + zero_pad(decimal(n as nat), w as nat),
{
    let mut digits: Vec<char> = Vec::new();
    push_decimal(&mut digits, n);
    assert(digits@ =~= decimal(n as nat));
    let mut k: usize = digits.len();
    let ghost start = out@;
    while k < w
        invariant
            digits@.len() <= k <= w || (k == digits@.len() && k >= w),
            out@ == start + Seq::new((k - digits@.len()) as nat, |i: int| '0'),
        decreases w - k,
    {
        out.push('0');
        k = k + 1;
        assert(out@ =~= start + Seq::new((k - digits@.len()) as nat, |i: int| '0'));
    }
    append_chars(out, digits.as_slice());
    assert(out@ =~= start + zero_pad(decimal(n as nat), w as nat));
}

/// Appends `format!("{:0w$}", v)` for a signed integer.
pub fn push_padded_i64(out: &mut Vec<char>, v: i64, w: usize)
    ensures
        final(out)@ == old(out)@ + padded_int(v as int, w as nat),
{
    if v < 0 {
        out.push('-');
        let ghost after_sign = out@;
        let mag: u128 = (0i128 - (v as i128)) as u128;
        let w1: usize = if w >= 1 { w - 1 } else { 0 };
        push_zero_padded(out, mag, w1);
        assert(out@ =~= old(out)@ + padded_int(v as int, w as nat));
    } else {
        push_zero_padded(out, v as u128, w);
    }
}

pub open spec fn hex_digit(d: int, upper: bool) -> char {
    if d < 10 {
        digit_char(d)
    } else if upper {
        (55 + d) as char
    } else {
        (87 + d) as char
    }
}

/// The last `k` hexadecimal digits of `n`, most significant first.
pub open spec fn hex_digits(n: nat, k: nat, upper: bool) -> Seq<char>
    decreases k,
{
    if k == 0 {
        seq![]
    } else {
        hex_digits(n / 16, (k - 1) as nat, upper).push(hex_digit((n % 16) as int, upper))
    }
}

fn hex_digit_exec(d: u64, upper: bool) -> (r: char)
    requires
        d < 16,
    ensures
        r == hex_digit(d as int, upper),
{
    let b: u8 = d as u8;
    if b < 10 {
        (b + 48) as char
    } else if upper {
        (b + 55) as char
    } else {
        (b + 87) as char
    }
}

/// Appends the last `k` hexadecimal digits of `n`.
pub fn push_hex(out: &mut Vec<char>, n: u64, k: u32, upper: bool)
    ensures
        final(out)@ == old(out)@ + hex_digits(n as nat, k as nat, upper),
    decreases k,
{
    if k > 0 {
        push_hex(out, n / 16, k - 1, upper);
        out.push(hex_digit_exec(n % 16, upper));
        assert(hex_digits(n as nat, k as nat, upper) == hex_digits((n / 16) as nat, (k - 1) as nat, upper).push(hex_digit((n % 16) as int, upper)));
        assert(final_hex(out@, old(out)@, n as nat, k as nat, upper));
    } else {
        assert(out@ =~= old(out)@ + hex_digits(n as nat, k as nat, upper));
    }
}

pub open spec fn final_hex(now: Seq<char>, before: Seq<char>, n: nat, k: nat, upper: bool) -> bool {
    now =~= before + hex_digits(n, k, upper)
}

pub open spec fn is_digit(c: char) -> bool {
    '0' <= c && c <= '9'
}

pub open spec fn all_digits(s: Seq<char>) -> bool {
    forall|i: int| 0 <= i < s.len() ==> is_digit(s[i])
}

/// The number that the decimal digits `s` denote.
pub open spec fn digits_value(s: Seq<char>) -> nat
    decreases s.len(),
{
    if s.len() == 0 {
        0
    } else {
        digits_value(s.drop_last()) * 10 + ((s.last() as int) - 48) as nat
    }
}

/// The digits after an optional leading `+`, as the integer `FromStr`
/// impls take them for an unsigned type.
pub open spec fn unsigned_body(s: Seq<char>) -> Seq<char> {
    if s.len() > 0 && s[0] == '+' {
        s.drop_first()
    } else {
        s
    }
}

/// `str::parse` for an unsigned integer type whose largest value is `max`.
pub open spec fn parse_unsigned(s: Seq<char>, max: nat) -> Option<nat> {
    let d = unsigned_body(s);
    if d.len() > 0 && all_digits(d) && digits_value(d) <= max {
        Some(digits_value(d))
    } else {
        None
    }
}

/// `str::parse::<i64>`: an optional sign, then at least one digit, in range.
pub open spec fn parse_i64_spec(s: Seq<char>) -> Option<int> {
    if s.len() > 0 && s[0] == '-' {
        let d = s.drop_first();
        if d.len() > 0 && all_digits(d) && digits_value(d) <= 0x8000_0000_0000_0000 {
            Some(-(digits_value(d) as int))
        } else {
            None
        }
    } else {
        match parse_unsigned(s, 0x7fff_ffff_ffff_ffff) {
            Some(v) => Some(v as int),
            None => None,
        }
    }
}

proof fn lemma_digits_value_grows(s: Seq<char>, i: int)
    requires
        0 <= i <= s.len(),
    ensures
        digits_value(s.take(i)) <= digits_value(s),
    decreases s.len() - i,
{
    if i < s.len() {
        lemma_digits_value_grows(s, i + 1);
        assert(s.take(i + 1).drop_last() =~= s.take(i));
    } else {
        assert(s.take(i) =~= s);
    }
}

/// Reads the digits `s[from..]`, giving their value if all are digits and
/// the value is at most `max`.
fn read_digits(s: &[char], from: usize, max: u64) -> (r: Option<u64>)
    requires
        from <= s@.len(),
        max >= 9,
    ensures
        ({
            let d = s@.skip(from as int);
            r == if d.len() > 0 && all_digits(d) && digits_value(d) <= max {
                Some(digits_value(d) as u64)
            } else {
                None
            }
        }),
{
    let ghost d = s@.skip(from as int);
    if from == s.len() {
        return None;
    }
    let mut acc: u64 = 0;
    let mut i: usize = from;
    while i < s.len()
        invariant
            from <= i <= s@.len(),
            d == s@.skip(from as int),
            acc as nat == digits_value(d.take(i - from)),
            acc <= max,
            max >= 9,
            all_digits(d.take(i - from)),
        decreases s@.len() - i,
    {
        let c = s[i];
        assert(d[i - from] == c);
        if !('0' <= c && c <= '9') {
            assert(!all_digits(d));
            return None;
        }
        let cu: u32 = c as u32;
        assert(48 <= cu <= 57);
        let dv: u64 = (cu - 48) as u64;
        assert(d.take(i - from + 1).drop_last() =~= d.take(i - from));
        if acc > (max - dv) / 10 {
            proof {
                assert(digits_value(d.take(i - from + 1)) > max) by (nonlinear_arith)
                    requires
                        acc > (max - dv) / 10,
                        digits_value(d.take(i - from + 1)) == acc * 10 + dv,
                        dv <= max;
                lemma_digits_value_grows(d, i - from + 1);
            }
            return None;
        }
        assert(acc * 10 + dv <= max) by (nonlinear_arith)
            requires
                acc <= (max - dv) / 10,
                dv <= 9;
        acc = acc * 10 + dv;
        i = i + 1;
        assert(all_digits(d.take(i - from)));
    }
    assert(d.take(d.len() as int) =~= d);
    Some(acc)
}

/// `str::parse` for an unsigned type whose largest value is `max`.
pub fn parse_unsigned_exec(s: &[char], max: u64) -> (r: Option<u64>)
    requires
        max >= 9,
    ensures
        r is None <==> parse_unsigned(s@, max as nat) is None,
        r matches Some(v) ==> parse_unsigned(s@, max as nat) == Some(v as nat),
{
    let from: usize = if s.len() > 0 && s[0] == '+' { 1 } else { 0 };
    assert(s@.skip(from as int) =~= unsigned_body(s@));
    read_digits(s, from, max)
}

/// `str::parse::<u64>`.
pub fn parse_u64(s: &[char]) -> (r: Option<u64>)
    ensures
        r is None <==> parse_unsigned(s@, u64::MAX as nat) is None,
        r matches Some(v) ==> parse_unsigned(s@, u64::MAX as nat) == Some(v as nat),
{
    parse_unsigned_exec(s, u64::MAX)
}

/// `str::parse::<u16>`.
pub fn parse_u16(s: &[char]) -> (r: Option<u16>)
    ensures
        r is None <==> parse_unsigned(s@, u16::MAX as nat) is None,
        r matches Some(v) ==> parse_unsigned(s@, u16::MAX as nat) == Some(v as nat),
{
    match parse_unsigned_exec(s, 0xffff) {
        Some(v) => Some(v as u16),
        None => None,
    }
}

/// `str::parse::<i64>`.
pub fn parse_i64(s: &[char]) -> (r: Option<i64>)
    ensures
        r is None <==> parse_i64_spec(s@) is None,
        r matches Some(v) ==> parse_i64_spec(s@) == Some(v as int),
{
    if s.len() > 0 && s[0] == '-' {
        assert(s@.skip(1) =~= s@.drop_first());
        match read_digits(s, 1, 0x8000_0000_0000_0000) {
            Some(m) => {
                if m == 0x8000_0000_0000_0000 {
                    Some(i64::MIN)
                } else {
                    Some(0 - (m as i64))
                }
            },
            None => None,
        }
    } else {
        match parse_unsigned_exec(s, 0x7fff_ffff_ffff_ffff) {
            Some(v) => Some(v as i64),
            None => None,
        }
    }
}

/// What `str::to_lowercase` gives for `s` (the Unicode lowercase mapping).
pub uninterp spec fn unicode_lowercase(s: Seq<char>) -> Seq<char>;

/// `str::to_lowercase`.
#[verifier::external_body]
pub(crate) fn to_lowercase(s: &str) -> (r: String)
    ensures
        r@ == unicode_lowercase(s@),
{
    s.to_lowercase()
}
} // verus!
