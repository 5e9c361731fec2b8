//! The XML event model every parser of the editor works on.
//!
//! Tokenizing a document is quick-xml's job; this module reads its events into
//! plain values (`XmlEvent`) and writes events back out the way quick-xml's
//! writer does.

use vstd::prelude::*;
use vstd::string::StringSliceAdditionalSpecFns;
use quick_xml::events::attributes::Attributes;
use quick_xml::events::Event;
use quick_xml::reader::Reader;

use crate::text::{from_char_range, to_chars};

verus! {

#[verifier::external_type_specification]
#[verifier::external_body]
#[verifier::reject_recursive_types(R)]
pub struct ExReader<R>(Reader<R>);

#[verifier::external_type_specification]
#[verifier::external_body]
pub struct ExAttributes<'a>(Attributes<'a>);

#[verifier::external_type_specification]
#[verifier::external_body]
pub struct ExAttribute<'a>(quick_xml::events::attributes::Attribute<'a>);

#[verifier::external_type_specification]
#[verifier::external_body]
pub struct ExAttrError(quick_xml::events::attributes::AttrError);

#[verifier::external_type_specification]
#[verifier::external_body]
pub struct ExXmlError(quick_xml::Error);

/// The kind of markup one read of the reader produced.
#[derive(PartialEq, Eq, Structural, Clone, Copy)]
pub enum Markup {
    Start,
    End,
    Empty,
    Text,
    CData,
    Comment,
    Decl,
    PI,
    DocType,
    Eof,
}

/// One read of a reader: the kind and raw content of the event, or `None`
/// where the read failed.
pub type RawRead = Option<(Markup, Seq<char>)>;

/// What successive `read_event` calls on `Reader::from_str(doc)` return: each
/// event's kind and raw bytes (the slice the event dereferences to), up to and
/// including the first end-of-file event or the first error.
pub uninterp spec fn xml_reads(doc: Seq<char>) -> Seq<RawRead>;

/// The reads a reader has still to deliver.
pub uninterp spec fn reader_pending(r: Reader<&[u8]>) -> Seq<RawRead>;

/// What iterating `Attributes::new(content, offset)` yields: for each item,
/// the key and the raw (still escaped) value of an attribute, or `None` for an
/// item that is an attribute error.
pub uninterp spec fn xml_attribute_items(content: Seq<char>, offset: nat) -> Seq<
    Option<(Seq<char>, Seq<char>)>,
>;

/// The items an attribute iterator has still to deliver.
pub uninterp spec fn attributes_pending(it: Attributes) -> Seq<Option<(Seq<char>, Seq<char>)>>;

/// What `quick_xml::escape::unescape(raw)` returns: the text with its entity
/// and character references resolved, or `None` where it fails.
pub uninterp spec fn xml_unescape(raw: Seq<char>) -> Option<Seq<char>>;

/// The key of an attribute item that parsed.
pub open spec fn item_key(item: Option<(Seq<char>, Seq<char>)>) -> Seq<char> {
    match item {
        Some(kv) => kv.0,
        None => Seq::empty(),
    }
}

/// The raw value of an attribute item that parsed.
pub open spec fn item_value(item: Option<(Seq<char>, Seq<char>)>) -> Seq<char> {
    match item {
        Some(kv) => kv.1,
        None => Seq::empty(),
    }
}

/// The attribute items that parsed have distinct keys.
pub open spec fn item_keys_distinct(items: Seq<Option<(Seq<char>, Seq<char>)>>) -> bool {
    forall|i: int, j: int|
        0 <= i < j < items.len() && items[i] is Some && items[j] is Some ==> item_key(#[trigger] items[i])
            != item_key(#[trigger] items[j])
}

/// A read ends the stream when it failed or reached the end of the document.
pub open spec fn is_final_read(r: RawRead) -> bool {
    match r {
        None => true,
        Some((k, _)) => k == Markup::Eof,
    }
}

/// Reads that stop at their first final read, which is their last one.
pub open spec fn ends_once(reads: Seq<RawRead>) -> bool {
    &&& reads.len() > 0
    &&& is_final_read(reads.last())
    &&& forall|i: int| 0 <= i < reads.len() - 1 ==> !is_final_read(#[trigger] reads[i])
}

/// `Reader::from_str`: a reader over `doc`, which will deliver the reads that
/// `xml_reads` names; those end with exactly one end-of-file event or error.
#[verifier::external_body]
fn open_reader<'a>(doc: &'a str) -> (r: Reader<&'a [u8]>)
    ensures
        reader_pending(r) == xml_reads(doc@),
        ends_once(reader_pending(r)),
{
    Reader::from_str(doc)
}

/// `Reader::read_event`: delivers the next pending read, as the event's kind
/// and the text of the bytes it dereferences to.
#[verifier::external_body]
fn read_markup<'a>(reader: &mut Reader<&'a [u8]>) -> (res: Result<(Markup, String), quick_xml::Error>)
    ensures
        reader_pending(*old(reader)).len() > 0 ==> {
            &&& reader_pending(*final(reader)) == reader_pending(*old(reader)).drop_first()
            &&& match res {
                Ok((k, raw)) => reader_pending(*old(reader))[0] == Some((k, raw@)),
                Err(_) => reader_pending(*old(reader))[0] is None,
            }
        },
{
    let ev = reader.read_event()?;
    let kind = match &ev {
        Event::Start(_) => Markup::Start,
        Event::End(_) => Markup::End,
        Event::Empty(_) => Markup::Empty,
        Event::Text(_) => Markup::Text,
        Event::CData(_) => Markup::CData,
        Event::Comment(_) => Markup::Comment,
        Event::Decl(_) => Markup::Decl,
        Event::PI(_) => Markup::PI,
        Event::DocType(_) => Markup::DocType,
        Event::Eof => Markup::Eof,
    };
    Ok((kind, String::from_utf8_lossy(&ev).into_owned()))
}

/// The `Display` text of a quick-xml error; nothing is stated of it.
#[verifier::external_body]
fn xml_error_message(e: &quick_xml::Error) -> String {
    e.to_string()
}

/// `Attributes::new(content, offset)`, started where the tag's name ends: an
/// iterator that will deliver the items `xml_attribute_items` names. It
/// checks for duplicates: a key whose bytes equal those of a key it has
/// already delivered is an error item. Started at that offset (an ASCII
/// whitespace byte or the end), every key it delivers begins after ASCII
/// whitespace and ends at `=` or ASCII whitespace, so it is whole UTF-8 and
/// its text is as distinct as its bytes: the keys it delivers are distinct.
#[verifier::external_body]
fn open_attributes<'a>(content: &'a str, offset: usize) -> (it: Attributes<'a>)
    requires
        offset <= content.spec_bytes().len(),
        offset as nat == name_byte_len(content.spec_bytes()),
    ensures
        attributes_pending(it) == xml_attribute_items(content@, offset as nat),
        item_keys_distinct(attributes_pending(it)),
{
    Attributes::new(content, offset)
}

/// `Iterator::next` on an attribute iterator: the next pending item (an error
/// item as `Some(None)`), or `None` once all are delivered.
#[verifier::external_body]
fn next_attribute(it: &mut Attributes) -> (res: Option<Option<(String, String)>>)
    ensures
        attributes_pending(*old(it)).len() == 0 ==> res is None,
        attributes_pending(*old(it)).len() > 0 ==> {
            &&& attributes_pending(*final(it)) == attributes_pending(*old(it)).drop_first()
            &&& match res {
                Some(Some((k, v))) => attributes_pending(*old(it))[0] == Some((k@, v@)),
                Some(None) => attributes_pending(*old(it))[0] is None,
                None => false,
            }
        },
{
    match it.next() {
        None => None,
        Some(Err(_)) => Some(None),
        Some(Ok(a)) => Some(Some((
            String::from_utf8_lossy(a.key.as_ref()).into_owned(),
            String::from_utf8_lossy(&a.value).into_owned(),
        ))),
    }
}

/// `quick_xml::escape::unescape`: the text with references resolved, as
/// `xml_unescape` names it.
#[verifier::external_body]
fn unescape(raw: &str) -> (res: Option<String>)
    ensures
        match res {
            Some(s) => xml_unescape(raw@) == Some(s@),
            None => xml_unescape(raw@) is None,
        },
{
    quick_xml::escape::unescape(raw).ok().map(std::borrow::Cow::into_owned)
}

} // verus!

verus! {

/// An attribute of an element: its key and its unescaped value.
pub struct XmlAttr {
    pub key: String,
    pub value: String,
}

/// A start or empty-element tag.
pub struct XmlElement {
    /// Everything between `<` and `>` (or `/>`), as it stands in the document.
    pub content: String,
    /// The qualified name: `content` up to its first XML whitespace.
    pub name: String,
    /// The attributes that parsed, in document order.
    pub attrs: Vec<XmlAttr>,
}

/// One event of a document.
pub enum XmlEvent {
    /// `<name ...>`
    Start(XmlElement),
    /// `<name .../>`
    Empty(XmlElement),
    /// `</name>`, with the name as it stands after `</`.
    End(String),
    /// Character data: the raw (escaped) text and the unescaped text
    /// (empty where unescaping failed).
    Text(String, String),
    /// Any other markup (comment, CDATA, declaration, processing instruction,
    /// doctype), kept as the exact text the writer emits for it.
    Other(String),
}

pub struct ElementView {
    pub content: Seq<char>,
    pub name: Seq<char>,
    pub attrs: Seq<(Seq<char>, Seq<char>)>,
}

pub enum EventView {
    Start(ElementView),
    Empty(ElementView),
    End(Seq<char>),
    Text(Seq<char>, Seq<char>),
    Other(Seq<char>),
}

impl DeepView for XmlAttr {
    type V = (Seq<char>, Seq<char>);

    open spec fn deep_view(&self) -> (Seq<char>, Seq<char>) {
        (self.key@, self.value@)
    }
}

impl DeepView for XmlElement {
    type V = ElementView;

    open spec fn deep_view(&self) -> ElementView {
        ElementView { content: self.content@, name: self.name@, attrs: self.attrs.deep_view() }
    }
}

impl DeepView for XmlEvent {
    type V = EventView;

    open spec fn deep_view(&self) -> EventView {
        match self {
            XmlEvent::Start(e) => EventView::Start(e.deep_view()),
            XmlEvent::Empty(e) => EventView::Empty(e.deep_view()),
            XmlEvent::End(n) => EventView::End(n@),
            XmlEvent::Text(raw, t) => EventView::Text(raw@, t@),
            XmlEvent::Other(m) => EventView::Other(m@),
        }
    }
}

/// The whitespace quick-xml separates names and attributes by.
pub open spec fn is_xml_space(c: char) -> bool {
    c == ' ' || c == '\r' || c == '\n' || c == '\t'
}

pub open spec fn is_xml_space_byte(b: u8) -> bool {
    b == 32 || b == 13 || b == 10 || b == 9
}

/// The length of the leading run of non-whitespace characters.
pub open spec fn name_len(s: Seq<char>) -> nat
    decreases s.len(),
{
    if s.len() == 0 || is_xml_space(s[0]) {
        0
    } else {
        1 + name_len(s.drop_first())
    }
}

/// The same length counted in bytes.
pub open spec fn name_byte_len(s: Seq<u8>) -> nat
    decreases s.len(),
{
    if s.len() == 0 || is_xml_space_byte(s[0]) {
        0
    } else {
        1 + name_byte_len(s.drop_first())
    }
}

/// The unescaped text, or the empty text where unescaping fails.
pub open spec fn unescaped_or_empty(raw: Seq<char>) -> Seq<char> {
    match xml_unescape(raw) {
        Some(t) => t,
        None => Seq::empty(),
    }
}

/// The attributes that parsed, with their values unescaped.
pub open spec fn parsed_attrs(items: Seq<Option<(Seq<char>, Seq<char>)>>) -> Seq<
    (Seq<char>, Seq<char>),
>
    decreases items.len(),
{
    if items.len() == 0 {
        Seq::empty()
    } else {
        let rest = parsed_attrs(items.drop_last());
        match items.last() {
            Some((k, v)) => rest.push((k, unescaped_or_empty(v))),
            None => rest,
        }
    }
}

/// The attribute keys of an element are distinct, as XML requires.
pub open spec fn keys_distinct(attrs: Seq<(Seq<char>, Seq<char>)>) -> bool {
    forall|i: int, j: int| 0 <= i < j < attrs.len() ==> #[trigger] attrs[i].0 != #[trigger] attrs[j].0
}

/// A start or empty tag's attribute keys are distinct.
pub open spec fn element_keyed(e: EventView) -> bool {
    match e {
        EventView::Start(el) => keys_distinct(el.attrs),
        EventView::Empty(el) => keys_distinct(el.attrs),
        _ => true,
    }
}

/// Every element's attribute keys are distinct.
pub open spec fn well_keyed(events: Seq<EventView>) -> bool {
    forall|i: int| 0 <= i < events.len() ==> element_keyed(#[trigger] events[i])
}

/// `k` is the key of one of the items that parsed.
spec fn key_among(items: Seq<Option<(Seq<char>, Seq<char>)>>, k: Seq<char>) -> bool {
    exists|i: int| 0 <= i < items.len() && items[i] is Some && #[trigger] item_key(items[i]) == k
}

proof fn lemma_parsed_keys(items: Seq<Option<(Seq<char>, Seq<char>)>>)
    requires
        item_keys_distinct(items),
    ensures
        keys_distinct(parsed_attrs(items)),
        forall|p: int| 0 <= p < parsed_attrs(items).len() ==> key_among(items, #[trigger] parsed_attrs(items)[p].0),
    decreases items.len(),
{
    if items.len() > 0 {
        let r = items.drop_last();
        assert forall|i: int, j: int|
            0 <= i < j < r.len() && r[i] is Some && r[j] is Some implies item_key(#[trigger] r[i])
                != item_key(#[trigger] r[j]) by {
            assert(r[i] == items[i] && r[j] == items[j]);
        }
        lemma_parsed_keys(r);
        let pr = parsed_attrs(r);
        let pa = parsed_attrs(items);
        let n = items.len() - 1;
        assert forall|p: int| 0 <= p < pr.len() implies key_among(items, #[trigger] pr[p].0) by {
            assert(key_among(r, pr[p].0));
            let i = choose|i: int| 0 <= i < r.len() && r[i] is Some && #[trigger] item_key(r[i]) == pr[p].0;
            assert(items[i] == r[i]);
        }
        if items[n] is Some {
            let k = item_key(items[n]);
            assert(pa == pr.push((k, unescaped_or_empty(item_value(items[n])))));
            assert forall|a: int| 0 <= a < pr.len() implies #[trigger] pr[a].0 != k by {
                assert(key_among(r, pr[a].0));
                let i = choose|i: int| 0 <= i < r.len() && r[i] is Some && #[trigger] item_key(r[i]) == pr[a].0;
                assert(items[i] == r[i]);
                assert(item_key(items[i]) != item_key(items[n]));
            }
            assert forall|a: int, b: int| 0 <= a < b < pa.len() implies #[trigger] pa[a].0
                != #[trigger] pa[b].0 by {
                assert(pa[a] == pr[a]);
                if b < pr.len() {
                    assert(pa[b] == pr[b]);
                } else {
                    assert(pa[b].0 == k);
                    assert(pr[a].0 != k);
                }
            }
            assert forall|p: int| 0 <= p < pa.len() implies key_among(items, #[trigger] pa[p].0) by {
                if p < pr.len() {
                    assert(pa[p] == pr[p]);
                } else {
                    assert(item_key(items[n]) == pa[p].0);
                }
            }
        } else {
            assert(pa == pr);
        }
    }
}

/// The element a start or empty tag with this content stands for.
pub open spec fn element_view(content: Seq<char>) -> ElementView {
    ElementView {
        content,
        name: content.take(name_len(content) as int),
        attrs: parsed_attrs(
            xml_attribute_items(content, name_byte_len(vstd::utf8::encode_utf8(content))),
        ),
    }
}

/// The event one successful read stands for.
pub open spec fn event_view(k: Markup, raw: Seq<char>) -> EventView {
    match k {
        Markup::Start => EventView::Start(element_view(raw)),
        Markup::Empty => EventView::Empty(element_view(raw)),
        Markup::End => EventView::End(raw),
        Markup::Text => EventView::Text(raw, unescaped_or_empty(raw)),
        Markup::CData => EventView::Other("<![CDATA["@ + raw + "]]>"@),
        Markup::Comment => EventView::Other("<!--"@ + raw + "-->"@),
        Markup::Decl => EventView::Other("<?"@ + raw + "?>"@),
        Markup::PI => EventView::Other("<?"@ + raw + "?>"@),
        Markup::DocType => EventView::Other("<!DOCTYPE "@ + raw + ">"@),
        Markup::Eof => EventView::Other(Seq::empty()),
    }
}

pub open spec fn read_event_view(r: RawRead) -> EventView {
    match r {
        Some((k, raw)) => event_view(k, raw),
        None => EventView::Other(Seq::empty()),
    }
}

/// The events of a document read to its end, or `None` where a read fails
/// before the end.
pub open spec fn document_events(reads: Seq<RawRead>) -> Option<Seq<EventView>> {
    if reads.len() > 0 && reads.last() is Some {
        Some(Seq::new((reads.len() - 1) as nat, |i: int| read_event_view(reads[i])))
    } else {
        None
    }
}

/// The events of `doc`, as quick-xml reads them.
pub open spec fn xml_document(doc: Seq<char>) -> Option<Seq<EventView>> {
    document_events(xml_reads(doc))
}

fn name_length(chars: &Vec<char>) -> (n: usize)
    ensures
        n == name_len(chars@),
        n <= chars@.len(),
{
    let mut i: usize = 0;
    assert(chars@.skip(0) == chars@);
    while i < chars.len() && !(chars[i] == ' ' || chars[i] == '\r' || chars[i] == '\n'
        || chars[i] == '\t')
        invariant
            i <= chars@.len(),
            name_len(chars@) == i + name_len(chars@.skip(i as int)),
        decreases chars@.len() - i,
    {
        assert(chars@.skip(i as int).drop_first() == chars@.skip(i + 1));
        i = i + 1;
    }
    i
}

fn name_byte_length(bytes: &[u8]) -> (n: usize)
    ensures
        n == name_byte_len(bytes@),
        n <= bytes@.len(),
{
    let mut i: usize = 0;
    assert(bytes@.skip(0) == bytes@);
    while i < bytes.len() && !(bytes[i] == 32 || bytes[i] == 13 || bytes[i] == 10 || bytes[i]
        == 9)
        invariant
            i <= bytes@.len(),
            name_byte_len(bytes@) == i + name_byte_len(bytes@.skip(i as int)),
        decreases bytes@.len() - i,
    {
        assert(bytes@.skip(i as int).drop_first() == bytes@.skip(i + 1));
        i = i + 1;
    }
    i
}

/// The unescaped text, or the empty text where unescaping fails.
fn unescape_or_empty(raw: &str) -> (t: String)
    ensures
        t@ == unescaped_or_empty(raw@),
{
    match unescape(raw) {
        Some(t) => t,
        None => String::new(),
    }
}

/// Builds the element for the content of a start or empty tag.
pub fn element_of(content: String) -> (el: XmlElement)
    ensures
        el.deep_view() == element_view(content@),
        keys_distinct(el.deep_view().attrs),
{
    let chars = to_chars(content.as_str());
    let n = name_length(&chars);
    let name = from_char_range(&chars, 0, n);
    let offset = name_byte_length(content.as_str().as_bytes());
    let mut attrs: Vec<XmlAttr> = Vec::new();
    let mut it = open_attributes(content.as_str(), offset);
    let ghost items = xml_attribute_items(content@, offset as nat);
    proof {
        lemma_parsed_keys(items);
    }
    assert(items.skip(0) == items);
    loop
        invariant_except_break
            attributes_pending(it).len() <= items.len(),
            items.skip(items.len() - attributes_pending(it).len()) == attributes_pending(it),
            attrs.deep_view() == parsed_attrs(
                items.take(items.len() - attributes_pending(it).len()),
            ),
        invariant
            items == xml_attribute_items(content@, offset as nat),
        ensures
            attrs.deep_view() == parsed_attrs(items),
        decreases attributes_pending(it).len(),
    {
        let ghost done = (items.len() - attributes_pending(it).len()) as int;
        match next_attribute(&mut it) {
            None => {
                assert(items.take(done) == items);
                break;
            },
            Some(None) => {
                assert(items.take(done + 1).drop_last() == items.take(done));
            },
            Some(Some((k, v))) => {
                let value = unescape_or_empty(v.as_str());
                attrs.push(XmlAttr { key: k, value });
                assert(items.take(done + 1).drop_last() == items.take(done));
                assert(attrs.deep_view() =~= parsed_attrs(items.take(done)).push(
                    (k@, unescaped_or_empty(v@)),
                ));
            },
        }
    }
    XmlElement { content, name, attrs }
}

/// `prefix`, then `raw`, then `suffix`.
fn wrapped(prefix: &str, raw: &str, suffix: &str) -> (s: String)
    ensures
        s@ == prefix@ + raw@ + suffix@,
{
    let mut s = String::from_str(prefix);
    s.append(raw);
    s.append(suffix);
    s
}

/// The event for one successful read.
fn event_of(k: Markup, raw: String) -> (ev: XmlEvent)
    requires
        k != Markup::Eof,
    ensures
        ev.deep_view() == event_view(k, raw@),
        element_keyed(ev.deep_view()),
{
    match k {
        Markup::Start => XmlEvent::Start(element_of(raw)),
        Markup::Empty => XmlEvent::Empty(element_of(raw)),
        Markup::End => XmlEvent::End(raw),
        Markup::Text => {
            let t = unescape_or_empty(raw.as_str());
            XmlEvent::Text(raw, t)
        },
        Markup::CData => XmlEvent::Other(wrapped("<![CDATA[", raw.as_str(), "]]>")),
        Markup::Comment => XmlEvent::Other(wrapped("<!--", raw.as_str(), "-->")),
        Markup::Decl => XmlEvent::Other(wrapped("<?", raw.as_str(), "?>")),
        Markup::PI => XmlEvent::Other(wrapped("<?", raw.as_str(), "?>")),
        Markup::DocType => XmlEvent::Other(wrapped("<!DOCTYPE ", raw.as_str(), ">")),
        Markup::Eof => XmlEvent::Other(String::new()),
    }
}

/// An XML error, with quick-xml's message.
pub struct XmlError {
    pub message: String,
}

/// Reads the whole of `doc` into events; fails where quick-xml reports an
/// error before the end of the document.
pub fn read_document(doc: &str) -> (res: Result<Vec<XmlEvent>, XmlError>)
    ensures
        match res {
            Ok(evs) => xml_document(doc@) == Some(evs.deep_view()) && well_keyed(evs.deep_view()),
            Err(_) => xml_document(doc@) is None,
        },
{
    let mut reader = open_reader(doc);
    let ghost reads = xml_reads(doc@);
    let mut events: Vec<XmlEvent> = Vec::new();
    loop
        invariant
            reads == xml_reads(doc@),
            ends_once(reads),
            0 < reader_pending(reader).len() <= reads.len(),
            reads.skip(reads.len() - reader_pending(reader).len()) == reader_pending(reader),
            events@.len() == reads.len() - reader_pending(reader).len(),
            forall|i: int|
                0 <= i < events@.len() ==> #[trigger] events@[i].deep_view() == read_event_view(
                    reads[i],
                ) && element_keyed(events@[i].deep_view()),
        decreases reader_pending(reader).len(),
    {
        let ghost done = events@.len() as int;
        assert(reads[done] == reader_pending(reader)[0]);
        match read_markup(&mut reader) {
            Err(e) => {
                assert(reads.last() == reads[done]) by {
                    if done < reads.len() - 1 {
                        assert(!is_final_read(reads[done]));
                    }
                }
                return Err(XmlError { message: xml_error_message(&e) });
            },
            Ok((k, raw)) => {
                if k == Markup::Eof {
                    assert(done == reads.len() - 1) by {
                        if done < reads.len() - 1 {
                            assert(!is_final_read(reads[done]));
                        }
                    }
                    assert(events.deep_view() =~= Seq::new(
                        (reads.len() - 1) as nat,
                        |i: int| read_event_view(reads[i]),
                    ));
                    return Ok(events);
                }
                assert(done < reads.len() - 1) by {
                    if done == reads.len() - 1 {
                        assert(is_final_read(reads.last()));
                    }
                }
                assert(reads.skip(done + 1) == reader_pending(reader));
                events.push(event_of(k, raw));
            },
        }
    }
}

} // verus!

verus! {

/// The index of the first `:` in `s`, if any.
pub open spec fn colon_index(s: Seq<char>) -> Option<nat>
    decreases s.len(),
{
    if s.len() == 0 {
        None
    } else if s[0] == ':' {
        Some(0)
    } else {
        match colon_index(s.drop_first()) {
            Some(i) => Some(i + 1),
            None => None,
        }
    }
}

/// The local part of a qualified name: what follows its first `:`
/// (quick-xml's `local_name`).
pub open spec fn local_part(name: Seq<char>) -> Seq<char> {
    match colon_index(name) {
        Some(i) => name.skip(i + 1 as int),
        None => name,
    }
}

/// The value of the first attribute with this key.
pub open spec fn attr_value(attrs: Seq<(Seq<char>, Seq<char>)>, key: Seq<char>) -> Option<
    Seq<char>,
>
    decreases attrs.len(),
{
    if attrs.len() == 0 {
        None
    } else if attrs[0].0 == key {
        Some(attrs[0].1)
    } else {
        attr_value(attrs.drop_first(), key)
    }
}

/// The local part of a qualified name.
pub fn local_name(name: &String) -> (l: String)
    ensures
        l@ == local_part(name@),
{
    let chars = to_chars(name.as_str());
    let mut i: usize = 0;
    assert(chars@.skip(0) == chars@);
    while i < chars.len() && chars[i] != ':'
        invariant
            i <= chars@.len(),
            colon_index(chars@) == match colon_index(chars@.skip(i as int)) {
                Some(j) => Some((j + i) as nat),
                None => None,
            },
        decreases chars@.len() - i,
    {
        assert(chars@.skip(i as int).drop_first() == chars@.skip(i + 1));
        i = i + 1;
    }
    if i < chars.len() {
        assert(chars@.skip(i as int)[0] == ':');
        let l = from_char_range(&chars, i + 1, chars.len());
        assert(chars@.subrange(i + 1, chars@.len() as int) == chars@.skip(i + 1));
        l
    } else {
        assert(chars@.skip(i as int).len() == 0);
        name.clone()
    }
}

/// Whether `s` holds exactly the text `lit`.
pub fn is_text(s: &String, lit: &str) -> (b: bool)
    ensures
        b == (s@ == lit@),
{
    s.eq(&String::from_str(lit))
}

/// The value of the first attribute of `el` with this key.
pub fn attribute(el: &XmlElement, key: &str) -> (v: Option<String>)
    ensures
        match v {
            Some(s) => attr_value(el.attrs.deep_view(), key@) == Some(s@),
            None => attr_value(el.attrs.deep_view(), key@) is None,
        },
{
    let ghost attrs = el.attrs.deep_view();
    let mut i: usize = 0;
    assert(attrs.skip(0) == attrs);
    while i < el.attrs.len()
        invariant
            attrs == el.attrs.deep_view(),
            i <= attrs.len(),
            attr_value(attrs, key@) == attr_value(attrs.skip(i as int), key@),
        decreases attrs.len() - i,
    {
        assert(attrs.skip(i as int)[0] == attrs[i as int]);
        assert(attrs.skip(i as int).drop_first() == attrs.skip(i + 1));
        if is_text(&el.attrs[i].key, key) {
            return Some(el.attrs[i].value.clone());
        }
        i = i + 1;
    }
    None
}

} // verus!

verus! {

/// The events read before the stream ended.
pub open spec fn events_read(reads: Seq<RawRead>) -> Seq<EventView> {
    Seq::new((reads.len() - 1) as nat, |i: int| read_event_view(reads[i]))
}

/// Reads `doc` event by event up to its end or its first error: the events
/// read, and whether the stream ended with an error.
pub fn read_until_error(doc: &str) -> (r: (Vec<XmlEvent>, bool))
    ensures
        r.0.deep_view() == events_read(xml_reads(doc@)),
        r.1 == (xml_reads(doc@).last() is None),
        well_keyed(r.0.deep_view()),
{
    let mut reader = open_reader(doc);
    let ghost reads = xml_reads(doc@);
    let mut events: Vec<XmlEvent> = Vec::new();
    loop
        invariant
            reads == xml_reads(doc@),
            ends_once(reads),
            0 < reader_pending(reader).len() <= reads.len(),
            reads.skip(reads.len() - reader_pending(reader).len()) == reader_pending(reader),
            events@.len() == reads.len() - reader_pending(reader).len(),
            forall|i: int|
                0 <= i < events@.len() ==> #[trigger] events@[i].deep_view() == read_event_view(
                    reads[i],
                ) && element_keyed(events@[i].deep_view()),
        decreases reader_pending(reader).len(),
    {
        let ghost done = events@.len() as int;
        assert(reads[done] == reader_pending(reader)[0]);
        match read_markup(&mut reader) {
            Err(_) => {
                assert(done == reads.len() - 1) by {
                    if done < reads.len() - 1 {
                        assert(!is_final_read(reads[done]));
                    }
                }
                assert(events.deep_view() =~= events_read(reads));
                return (events, true);
            },
            Ok((k, raw)) => {
                if k == Markup::Eof {
                    assert(done == reads.len() - 1) by {
                        if done < reads.len() - 1 {
                            assert(!is_final_read(reads[done]));
                        }
                    }
                    assert(events.deep_view() =~= events_read(reads));
                    return (events, false);
                }
                assert(done < reads.len() - 1) by {
                    if done == reads.len() - 1 {
                        assert(is_final_read(reads.last()));
                    }
                }
                assert(reads.skip(done + 1) == reader_pending(reader));
                events.push(event_of(k, raw));
            },
        }
    }
}

} // verus!
