//! XML tokenizing through `quick_xml`, seen by the rest of the library as a
//! sequence of plain events, and the small decoding steps (UTF-8, entity
//! unescaping, local names, attribute maps) applied to those events.
use crate::text::{chars_of, opt_view, same_chars, utf8_str};
use quick_xml::events::Event::{
    CData as RawCData, Empty as RawEmpty, End as RawEnd, Eof as RawEof, Start as RawStart,
    Text as RawText,
};
use quick_xml::Reader;
use crate::xml::XmlEvent::{CData, End, Eof, Error, Other, Tag, Text};
use vstd::prelude::*;
use vstd::utf8::*;

verus! {

#[verifier::external_type_specification]
#[verifier::external_body]
#[verifier::reject_recursive_types(R)]
pub struct ExReader<R>(Reader<R>);

/// One tokenizer event, as plain values. Start and empty-element tags are
/// both `Tag`; declarations, comments, doctypes and processing
/// instructions are `Other`; a tokenizer error is `Error`.
/// A tag carries its name, its attributes as raw key and value bytes
/// (`None` when they do not tokenize) and whether it is an empty-element
/// tag.
pub enum XmlEvent {
    Tag(Vec<u8>, Option<Vec<(Vec<u8>, Vec<u8>)>>, bool),
    End(Vec<u8>),
    Text(Vec<u8>),
    CData(Vec<u8>),
    Other,
    Eof,
    Error,
}

pub ghost enum XmlEventView {
    Tag { name: Seq<u8>, attributes: Option<Seq<(Seq<u8>, Seq<u8>)>>, empty: bool },
    End { name: Seq<u8> },
    Text { raw: Seq<u8> },
    CData { raw: Seq<u8> },
    Other,
    Eof,
    Error,
}

pub open spec fn raw_pairs_view(v: Seq<(Vec<u8>, Vec<u8>)>) -> Seq<(Seq<u8>, Seq<u8>)> {
    v.map_values(|p: (Vec<u8>, Vec<u8>)| (p.0@, p.1@))
}

impl View for XmlEvent {
    type V = XmlEventView;

    open spec fn view(&self) -> XmlEventView {
        match self {
            XmlEvent::Tag(name, attributes, empty) => XmlEventView::Tag {
                name: name@,
                attributes: match attributes {
                    Some(a) => Some(raw_pairs_view(a@)),
                    None => None,
                },
                empty: *empty,
            },
            XmlEvent::End(name) => XmlEventView::End { name: name@ },
            XmlEvent::Text(raw) => XmlEventView::Text { raw: raw@ },
            XmlEvent::CData(raw) => XmlEventView::CData { raw: raw@ },
            XmlEvent::Other => XmlEventView::Other,
            XmlEvent::Eof => XmlEventView::Eof,
            XmlEvent::Error => XmlEventView::Error,
        }
    }
}

impl XmlEventView {
    /// After this event the tokenizer yields nothing new.
    pub open spec fn is_terminal(self) -> bool {
        self is Eof || self is Error
    }
}

/// The `index`-th event (counting from 0) that `quick_xml::Reader::read_event`
/// yields for the document `text`, read by a reader made with
/// `Reader::from_str` and `trim_text(true)`.
pub uninterp spec fn xml_event(text: Seq<char>, index: nat) -> XmlEventView;

/// `Reader::buffer_position` after `index` events of `text` have been read.
pub uninterp spec fn xml_offset(text: Seq<char>, index: nat) -> nat;

/// The number of UTF-8 bytes of `text`.
pub open spec fn byte_len(text: Seq<char>) -> nat {
    encode_utf8(text).len()
}

/// A `quick_xml` reader over a document, with the document and the number
/// of events read so far kept alongside for the contracts. Only the two
/// functions below make or change one.
pub struct XmlCursor<'a> {
    reader: Reader<&'a [u8]>,
    text: Ghost<Seq<char>>,
    count: Ghost<nat>,
}

impl<'a> XmlCursor<'a> {
    pub closed spec fn source(&self) -> Seq<char> {
        self.text@
    }

    pub closed spec fn index(&self) -> nat {
        self.count@
    }

    /// `Reader::from_str(xml)` with `config_mut().trim_text(true)`: a reader
    /// at the start of `xml` (position 0) that drops white space around
    /// text.
    #[verifier::external_body]
    pub(crate) fn new(xml: &'a str) -> (r: Self)
        ensures
            r.source() == xml@,
            r.index() == 0,
            xml_offset(r.source(), r.index()) == 0,
    {
        let mut reader = Reader::from_str(xml);
        reader.config_mut().trim_text(true);
        XmlCursor { reader, text: Ghost(xml@), count: Ghost(0) }
    }

    /// `Reader::read_event`, converted into an `XmlEvent`. The contract
    /// claims what the `quick_xml` 0.37 source shows: the event is a
    /// function of the document and of how many were read before; the
    /// buffer position never passes the end of the input; and every event
    /// other than `Eof` or an error consumes input, so the position grows.
    #[verifier::external_body]
    pub(crate) fn next_event(&mut self) -> (r: XmlEvent)
        ensures
            final(self).source() == old(self).source(),
            final(self).index() == old(self).index() + 1,
            r@ == xml_event(old(self).source(), old(self).index()),
            xml_offset(final(self).source(), final(self).index()) <= byte_len(final(self).source()),
            !r@.is_terminal() ==> xml_offset(final(self).source(), final(self).index())
                > xml_offset(old(self).source(), old(self).index()),
    {
        let ev = self.reader.read_event();
        let empty = matches!(ev, Ok(RawEmpty(_)));
        match ev {
            Ok(RawStart(e)) | Ok(RawEmpty(e)) => Tag(
                e.name().0.to_vec(),
                e.attributes().map(|a| a.ok().map(|a| (a.key.0.to_vec(), a.value.to_vec()))).collect(),
                empty
            ),
            Ok(RawEnd(e)) => End(e.name().0.to_vec()),
            Ok(RawText(e)) => Text(e.to_vec()),
            Ok(RawCData(e)) => CData(e.to_vec()),
            Ok(RawEof) => Eof,
            Ok(_) => Other,
            Err(_) => Error,
        }
    }
}

/// What `quick_xml::escape::unescape` gives for `raw` (`None` on an error).
pub uninterp spec fn xml_unescaped(raw: Seq<char>) -> Option<Seq<char>>;

/// `quick_xml::escape::unescape`: replaces entity and character references.
/// Its source returns the input unchanged when it holds no `&`.
#[verifier::external_body]
pub(crate) fn unescape(raw: &str) -> (r: Option<String>)
    ensures
        opt_view(r) == xml_unescaped(raw@),
        !raw@.contains('&') ==> opt_view(r) == Some(raw@),
{
    quick_xml::escape::unescape(raw).ok().map(|text| text.into_owned())
}

/// Raw bytes decoded as UTF-8 and then unescaped.
pub open spec fn xml_text(raw: Seq<u8>) -> Option<Seq<char>> {
    if valid_utf8(raw) {
        xml_unescaped(decode_utf8(raw))
    } else {
        None
    }
}

pub fn decode_xml_text(raw: &[u8]) -> (r: Option<String>)
    ensures
        opt_view(r) == xml_text(raw@),
{
    match utf8_str(raw) {
        Some(s) => unescape(s),
        None => None,
    }
}

/// The part of `s` after its last `:` (all of `s` when it has none).
pub open spec fn after_last_colon(s: Seq<char>) -> Seq<char>
    decreases s.len(),
{
    if s.len() == 0 {
        s
    } else if s.last() == ':' {
        seq![]
    } else {
        after_last_colon(s.drop_last()).push(s.last())
    }
}

/// The local part of a qualified name: its UTF-8 text (empty when it is not
/// UTF-8) after the last `:`.
pub open spec fn local_name(name: Seq<u8>) -> Seq<char> {
    after_last_colon(if valid_utf8(name) { decode_utf8(name) } else { seq![] })
}

pub fn after_last_colon_exec(s: &[char]) -> (r: Vec<char>)
    ensures
        r@ == after_last_colon(s@),
{
    let mut i: usize = s.len();
    assert(s@.take(s@.len() as int) =~= s@);
    assert(after_last_colon(s@) =~= after_last_colon(s@.take(i as int)) + s@.subrange(
        i as int,
        s@.len() as int,
    ));
    while i > 0 && s[i - 1] != ':'
        invariant
            i <= s@.len(),
            after_last_colon(s@) == after_last_colon(s@.take(i as int)) + s@.subrange(
                i as int,
                s@.len() as int,
            ),
        decreases i,
    {
        let ghost t = s@.take(i as int);
        assert(t.drop_last() =~= s@.take(i - 1));
        assert(s@.subrange(i - 1, s@.len() as int) =~= seq![s@[i - 1]] + s@.subrange(
            i as int,
            s@.len() as int,
        ));
        i = i - 1;
    }
    if i == 0 {
        assert(s@.take(0) =~= Seq::<char>::empty());
    } else {
        assert(s@.take(i as int).last() == ':');
    }
    let mut out: Vec<char> = Vec::new();
    let mut k: usize = i;
    while k < s.len()
        invariant
            i <= k <= s@.len(),
            out@ == s@.subrange(i as int, k as int),
        decreases s@.len() - k,
    {
        out.push(s[k]);
        k = k + 1;
        assert(out@ =~= s@.subrange(i as int, k as int));
    }
    assert(after_last_colon(s@.take(i as int)) =~= Seq::<char>::empty());
    assert(out@ =~= after_last_colon(s@));
    out
}

pub fn local_name_exec(name: &[u8]) -> (r: Vec<char>)
    ensures
        r@ == local_name(name@),
{
    match utf8_str(name) {
        Some(s) => {
            let c = chars_of(s);
            after_last_colon_exec(c.as_slice())
        },
        None => Vec::new(),
    }
}

/// Attributes by local name and decoded value, in document order;
/// `None` when a value does not decode.
pub open spec fn decode_attributes(raw: Seq<(Seq<u8>, Seq<u8>)>) -> Option<
    Seq<(Seq<char>, Seq<char>)>,
>
    decreases raw.len(),
{
    if raw.len() == 0 {
        Some(seq![])
    } else {
        match decode_attributes(raw.drop_last()) {
            None => None,
            Some(m) => match xml_text(raw.last().1) {
                None => None,
                Some(v) => Some(m.push((local_name(raw.last().0), v))),
            },
        }
    }
}

/// The value of `key` in an attribute list, where a later entry wins over
/// an earlier one (as when the pairs are collected into a map).
pub open spec fn attr_lookup(m: Seq<(Seq<char>, Seq<char>)>, key: Seq<char>) -> Option<Seq<char>>
    decreases m.len(),
{
    if m.len() == 0 {
        None
    } else if m.last().0 == key {
        Some(m.last().1)
    } else {
        attr_lookup(m.drop_last(), key)
    }
}

pub open spec fn attr_map_view(m: Seq<(Vec<char>, Vec<char>)>) -> Seq<(Seq<char>, Seq<char>)> {
    m.map_values(|p: (Vec<char>, Vec<char>)| (p.0@, p.1@))
}

pub fn decode_attributes_exec(raw: &Vec<(Vec<u8>, Vec<u8>)>) -> (r: Option<
    Vec<(Vec<char>, Vec<char>)>,
>)
    ensures
        match r {
            Some(m) => decode_attributes(raw_pairs_view(raw@)) == Some(attr_map_view(m@)),
            None => decode_attributes(raw_pairs_view(raw@)) is None,
        },
{
    let mut out: Vec<(Vec<char>, Vec<char>)> = Vec::new();
    let mut i: usize = 0;
    while i < raw.len()
        invariant
            i <= raw@.len(),
            decode_attributes(raw_pairs_view(raw@).take(i as int)) == Some(attr_map_view(out@)),
        decreases raw@.len() - i,
    {
        let ghost pre = raw_pairs_view(raw@).take(i as int);
        let ghost nxt = raw_pairs_view(raw@).take(i + 1);
        assert(nxt.drop_last() =~= pre);
        assert(nxt.last() == (raw@[i as int].0@, raw@[i as int].1@));
        let key = local_name_exec(raw[i].0.as_slice());
        match decode_xml_text(raw[i].1.as_slice()) {
            Some(v) => {
                let vc = chars_of(v.as_str());
                let ghost before = out@;
                out.push((key, vc));
                assert(attr_map_view(out@) =~= attr_map_view(before).push((key@, vc@)));
            },
            None => {
                proof {
                    lemma_decode_attributes_none(raw_pairs_view(raw@), i as int + 1);
                }
                assert(raw_pairs_view(raw@).take(raw@.len() as int) =~= raw_pairs_view(raw@));
                return None;
            },
        }
        i = i + 1;
    }
    assert(raw_pairs_view(raw@).take(raw@.len() as int) =~= raw_pairs_view(raw@));
    Some(out)
}

/// Once a prefix fails to decode, every longer prefix fails.
pub proof fn lemma_decode_attributes_none(raw: Seq<(Seq<u8>, Seq<u8>)>, i: int)
    requires
        0 <= i <= raw.len(),
        decode_attributes(raw.take(i)) is None,
    ensures
        decode_attributes(raw) is None,
    decreases raw.len() - i,
{
    if i < raw.len() {
        assert(raw.take(i + 1).drop_last() =~= raw.take(i));
        lemma_decode_attributes_none(raw, i + 1);
    } else {
        assert(raw.take(i) =~= raw);
    }
}

/// Looks `key` up in a decoded attribute list (the last entry wins).
pub fn attr_lookup_exec(m: &Vec<(Vec<char>, Vec<char>)>, key: &str) -> (r: Option<Vec<char>>)
    ensures
        match r {
            Some(v) => attr_lookup(attr_map_view(m@), key@) == Some(v@),
            None => attr_lookup(attr_map_view(m@), key@) is None,
        },
{
    let k = chars_of(key);
    let mut i: usize = m.len();
    assert(attr_map_view(m@).take(m@.len() as int) =~= attr_map_view(m@));
    while i > 0
        invariant
            i <= m@.len(),
            k@ == key@,
            attr_lookup(attr_map_view(m@), key@) == attr_lookup(attr_map_view(m@).take(i as int), key@),
        decreases i,
    {
        let ghost t = attr_map_view(m@).take(i as int);
        assert(t.drop_last() =~= attr_map_view(m@).take(i - 1));
        assert(t.last() == (m@[i - 1].0@, m@[i - 1].1@));
        if same_chars(m[i - 1].0.as_slice(), k.as_slice()) {
            let v = copy_chars(m[i - 1].1.as_slice());
            return Some(v);
        }
        i = i - 1;
    }
    None
}

pub fn copy_chars(s: &[char]) -> (r: Vec<char>)
    ensures
        r@ == s@,
{
    let mut out: Vec<char> = Vec::new();
    let mut i: usize = 0;
    while i < s.len()
        invariant
            i <= s@.len(),
            out@ == s@.take(i as int),
        decreases s@.len() - i,
    {
        out.push(s[i]);
        i = i + 1;
        assert(out@ =~= s@.take(i as int));
    }
    assert(s@.take(s@.len() as int) =~= s@);
    out
}

} // verus!
