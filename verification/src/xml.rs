//! The XML tokenizer the report parser reads through: quick-xml's pull
//! reader, and the plain events the parser consumes.

use vstd::prelude::*;

use quick_xml::events::attributes::{AttrError, Attribute, Attributes};
use quick_xml::events::{BytesStart, Event};
use quick_xml::{Reader, XmlVersion};

use crate::junit::{attr_view, event_view, tag_view, EventView, TagView};
use crate::text::str_eq;

verus! {

#[verifier::external_type_specification]
#[verifier::external_body]
#[verifier::reject_recursive_types(R)]
pub struct ExReader<R>(Reader<R>);

#[verifier::external_type_specification]
#[verifier::external_body]
pub struct ExBytesStart<'a>(BytesStart<'a>);

#[verifier::external_type_specification]
#[verifier::external_body]
pub struct ExAttributes<'a>(Attributes<'a>);

#[verifier::external_type_specification]
#[verifier::external_body]
pub struct ExAttribute<'a>(Attribute<'a>);

/// The error type of the attribute iterator's items.
#[verifier::external_type_specification]
#[verifier::external_body]
pub struct ExAttrError(AttrError);

/// One attribute: its local name and its normalized value.
#[derive(Debug, Clone, PartialEq, Eq)]
pub struct XmlAttribute {
    pub key: String,
    pub value: String,
}

/// An element tag: its local name and its attributes in document order,
/// or the message of the first attribute that could not be read.
/// Attributes are read only for the elements the report parser inspects
/// (`testcase` and its status children); other tags carry none.
#[derive(Debug, PartialEq, Eq)]
pub struct XmlTag {
    pub name: String,
    pub attributes: Result<Vec<XmlAttribute>, String>,
}

/// One event of the XML stream, as the report parser sees it.
#[derive(Debug, PartialEq, Eq)]
pub enum XmlEvent {
    /// An opening tag `<name ...>`.
    Start(XmlTag),
    /// A self-closing tag `<name .../>`.
    Empty(XmlTag),
    /// A closing tag.
    End,
    /// Text, CDATA, comments, declarations, processing instructions,
    /// DOCTYPE and entity references: nothing the parser reads.
    Other,
    /// The end of the input.
    Eof,
    /// Malformed XML, with the reader's message.
    Malformed(String),
}

/// What kind of event quick-xml's reader gave: a tag opened or standing
/// alone, a tag closed, anything else, the end, or its error's message.
pub enum TokenKind {
    Start,
    Empty,
    End,
    Other,
    Eof,
    Malformed(Seq<char>),
}

/// The kind of the `k`-th event (counting from zero) that quick-xml's
/// reader gives for `xml`, read from its start with text trimmed.
pub uninterp spec fn xml_token(xml: Seq<char>, k: nat) -> TokenKind;

/// The local name of the tag of the `k`-th event for `xml`.
pub uninterp spec fn xml_tag_name(xml: Seq<char>, k: nat) -> Seq<char>;

/// The `j`-th item of the attribute iterator of the tag of the `k`-th event
/// for `xml`: the end, an attribute, or its error's message.
pub uninterp spec fn xml_attribute(xml: Seq<char>, k: nat, j: nat) -> Option<Result<(), Seq<char>>>;

/// The local name of the key of that `j`-th attribute.
pub uninterp spec fn xml_attr_key(xml: Seq<char>, k: nat, j: nat) -> Seq<char>;

/// The normalized value of that `j`-th attribute, or its error's message.
pub uninterp spec fn xml_attr_value(xml: Seq<char>, k: nat, j: nat) -> Result<Seq<char>, Seq<char>>;

/// quick-xml's reader over a text, with the text it reads and how many
/// events it has given.
pub struct XmlReader<'a> {
    reader: Reader<&'a [u8]>,
    source: Ghost<Seq<char>>,
    count: Ghost<nat>,
    trimmed: Ghost<bool>,
}

impl<'a> XmlReader<'a> {
    /// The text the reader reads.
    pub closed spec fn source(&self) -> Seq<char> {
        self.source@
    }

    /// How many events it has given.
    pub closed spec fn count(&self) -> nat {
        self.count@
    }

    /// Whether it trims the whitespace around text.
    pub closed spec fn trimmed(&self) -> bool {
        self.trimmed@
    }
}

/// The tag of an event, with the event's place in its text.
pub struct StartTag<'a> {
    tag: BytesStart<'a>,
    source: Ghost<Seq<char>>,
    index: Ghost<nat>,
}

impl<'a> StartTag<'a> {
    /// The text the tag was read from.
    pub closed spec fn source(&self) -> Seq<char> {
        self.source@
    }

    /// The number of the event the tag came with.
    pub closed spec fn index(&self) -> nat {
        self.index@
    }
}

/// The attribute iterator of a tag, with how many items it has given.
pub struct AttrIter<'b> {
    iter: Attributes<'b>,
    source: Ghost<Seq<char>>,
    index: Ghost<nat>,
    pos: Ghost<nat>,
}

impl<'b> AttrIter<'b> {
    pub closed spec fn source(&self) -> Seq<char> {
        self.source@
    }

    pub closed spec fn index(&self) -> nat {
        self.index@
    }

    /// How many items the iterator has given.
    pub closed spec fn pos(&self) -> nat {
        self.pos@
    }
}

/// One attribute of a tag, with its place.
pub struct AttrItem<'b> {
    attr: Attribute<'b>,
    source: Ghost<Seq<char>>,
    index: Ghost<nat>,
    pos: Ghost<nat>,
}

impl<'b> AttrItem<'b> {
    pub closed spec fn source(&self) -> Seq<char> {
        self.source@
    }

    pub closed spec fn index(&self) -> nat {
        self.index@
    }

    pub closed spec fn pos(&self) -> nat {
        self.pos@
    }
}

/// A raw event of quick-xml's reader, its tags still unread.
pub enum Token<'a> {
    Start(BytesStart<'a>),
    Empty(BytesStart<'a>),
    End,
    Other,
    Eof,
    Malformed(String),
}

/// The kind of a raw event.
pub open spec fn token_kind(t: Token) -> TokenKind {
    match t {
        Token::Start(_) => TokenKind::Start,
        Token::Empty(_) => TokenKind::Empty,
        Token::End => TokenKind::End,
        Token::Other => TokenKind::Other,
        Token::Eof => TokenKind::Eof,
        Token::Malformed(m) => TokenKind::Malformed(m@),
    }
}

/// A reader over `xml` (`Reader::from_str`), which has given no event yet.
#[verifier::external_body]
pub(crate) fn reader_for<'a>(xml: &'a str) -> (r: XmlReader<'a>)
    ensures
        r.source() == xml@,
        r.count() == 0,
        !r.trimmed(),
{
    XmlReader { reader: Reader::from_str(xml), source: Ghost(xml@), count: Ghost(0), trimmed: Ghost(false) }
}

/// Drops whitespace around text (`Config::trim_text(true)` on the reader's
/// configuration), before the first event is read.
#[verifier::external_body]
pub(crate) fn trim_text(reader: &mut XmlReader)
    requires
        old(reader).count() == 0,
    ensures
        final(reader).source() == old(reader).source(),
        final(reader).count() == 0,
        final(reader).trimmed(),
{
    reader.reader.config_mut().trim_text(true);
}

/// The next event of the reader (`Reader::read_event`), each variant moved
/// into a `Token`, an error as its message: the kind `xml_token` names for
/// the reader's text and the number of events given so far.
#[verifier::external_body]
fn read_event<'a>(reader: &mut XmlReader<'a>) -> (t: Token<'a>)
    requires
        old(reader).trimmed(),
    ensures
        token_kind(t) == xml_token(old(reader).source(), old(reader).count()),
        final(reader).source() == old(reader).source(),
        final(reader).count() == old(reader).count() + 1,
        final(reader).trimmed(),
{
    match reader.reader.read_event() {
        Ok(Event::Start(tag)) => Token::Start(tag),
        Ok(Event::Empty(tag)) => Token::Empty(tag),
        Ok(Event::End(_)) => Token::End,
        Ok(Event::Text(_)) => Token::Other,
        Ok(Event::CData(_)) => Token::Other,
        Ok(Event::Comment(_)) => Token::Other,
        Ok(Event::Decl(_)) => Token::Other,
        Ok(Event::PI(_)) => Token::Other,
        Ok(Event::DocType(_)) => Token::Other,
        Ok(Event::GeneralRef(_)) => Token::Other,
        Ok(Event::Eof) => Token::Eof,
        Err(err) => Token::Malformed(err.to_string()),
    }
}

/// The local name of a tag (`BytesStart::local_name`), as text.
#[verifier::external_body]
fn tag_name(tag: &StartTag) -> (n: String)
    ensures
        n@ == xml_tag_name(tag.source(), tag.index()),
{
    tag.tag.local_name().as_ref().to_owned()
}

/// An iterator over a tag's attributes (`BytesStart::attributes`), which has
/// given no item yet.
#[verifier::external_body]
fn tag_attributes<'b>(tag: &'b StartTag) -> (it: AttrIter<'b>)
    ensures
        it.source() == tag.source(),
        it.index() == tag.index(),
        it.pos() == 0,
{
    AttrIter { iter: tag.tag.attributes(), source: tag.source, index: tag.index, pos: Ghost(0) }
}

/// The next attribute (`Attributes::next`), an error as its message: the
/// item `xml_attribute` names for the tag's place and the items given so
/// far.
#[verifier::external_body]
fn next_attribute<'b>(it: &mut AttrIter<'b>) -> (r: Option<Result<AttrItem<'b>, String>>)
    ensures
        match r {
            None => xml_attribute(old(it).source(), old(it).index(), old(it).pos()) is None,
            Some(Err(m)) => xml_attribute(old(it).source(), old(it).index(), old(it).pos()) == Some(
                Err::<(), Seq<char>>(m@),
            ),
            Some(Ok(a)) => xml_attribute(old(it).source(), old(it).index(), old(it).pos()) == Some(
                Ok::<(), Seq<char>>(()),
            ) && a.source() == old(it).source() && a.index() == old(it).index() && a.pos() == old(it).pos(),
        },
        final(it).source() == old(it).source(),
        final(it).index() == old(it).index(),
        final(it).pos() == old(it).pos() + 1,
{
    match it.iter.next() {
        Some(Ok(attr)) => Some(Ok(AttrItem { attr, source: it.source, index: it.index, pos: it.pos })),
        Some(Err(err)) => Some(Err(err.to_string())),
        None => None,
    }
}

/// The local name of an attribute's key (`QName::local_name`), as text.
#[verifier::external_body]
fn attribute_key(a: &AttrItem) -> (k: String)
    ensures
        k@ == xml_attr_key(a.source(), a.index(), a.pos()),
{
    a.attr.key.local_name().as_ref().to_owned()
}

/// An attribute's value with entities resolved and whitespace normalized
/// as XML 1.0 prescribes (`Attribute::normalized_value`), an error as its
/// message.
#[verifier::external_body]
fn attribute_value(a: &AttrItem) -> (v: Result<String, String>)
    ensures
        match v {
            Ok(s) => xml_attr_value(a.source(), a.index(), a.pos()) == Ok::<Seq<char>, Seq<char>>(s@),
            Err(m) => xml_attr_value(a.source(), a.index(), a.pos()) == Err::<Seq<char>, Seq<char>>(m@),
        },
{
    match a.attr.normalized_value(XmlVersion::Implicit1_0) {
        Ok(value) => Ok(value.into_owned()),
        Err(err) => Err(err.to_string()),
    }
}

/// Whether the report parser reads the attributes of an element so named.
pub open spec fn inspected(name: Seq<char>) -> bool {
    name == "testcase"@ || name == "failure"@ || name == "error"@ || name == "skipped"@
}

/// The message for an attribute list that outlasted the input.
pub open spec fn endless_attributes() -> Seq<char> {
    "the attribute list did not end within the input"@
}

/// The attributes of the tag of event `k` for `xml`, from the `j`-th item
/// on: each attribute's key and value, until the iterator ends, or the
/// first error's message. Past `budget` items the list counts as endless.
pub open spec fn attrs_from(xml: Seq<char>, k: nat, j: nat, budget: nat) -> Result<
    Seq<(Seq<char>, Seq<char>)>,
    Seq<char>,
>
    decreases budget - j,
{
    if j >= budget {
        Err(endless_attributes())
    } else {
        match xml_attribute(xml, k, j) {
            None => Ok(Seq::empty()),
            Some(Err(m)) => Err(m),
            Some(Ok(_)) => match xml_attr_value(xml, k, j) {
                Err(m) => Err(m),
                Ok(v) => match attrs_from(xml, k, j + 1, budget) {
                    Ok(rest) => Ok(seq![(xml_attr_key(xml, k, j), v)] + rest),
                    Err(m) => Err(m),
                },
            },
        }
    }
}

/// Attributes already read, ahead of what the rest of the list gives.
pub open spec fn ahead(
    read: Seq<(Seq<char>, Seq<char>)>,
    rest: Result<Seq<(Seq<char>, Seq<char>)>, Seq<char>>,
) -> Result<Seq<(Seq<char>, Seq<char>)>, Seq<char>> {
    match rest {
        Ok(r) => Ok(read + r),
        Err(m) => Err(m),
    }
}

/// The attributes the parser reads of the tag of event `k`: none unless the
/// element is inspected.
pub open spec fn tag_attrs(xml: Seq<char>, k: nat, budget: nat) -> Result<Seq<(Seq<char>, Seq<char>)>, Seq<char>> {
    if inspected(xml_tag_name(xml, k)) {
        attrs_from(xml, k, 0, budget)
    } else {
        Ok(Seq::empty())
    }
}

/// The tag of event `k` for `xml`, as the parser reads it.
pub open spec fn tag_at(xml: Seq<char>, k: nat, budget: nat) -> TagView {
    TagView { name: xml_tag_name(xml, k), attributes: tag_attrs(xml, k, budget) }
}

/// Event `k` for `xml`, as the parser reads it.
pub open spec fn event_at(xml: Seq<char>, k: nat, budget: nat) -> EventView {
    match xml_token(xml, k) {
        TokenKind::Start => EventView::Start(tag_at(xml, k, budget)),
        TokenKind::Empty => EventView::Empty(tag_at(xml, k, budget)),
        TokenKind::End => EventView::End,
        TokenKind::Other => EventView::Other,
        TokenKind::Eof => EventView::Eof,
        TokenKind::Malformed(m) => EventView::Malformed(m),
    }
}

/// The views of attributes read.
pub open spec fn attrs_view(v: Seq<XmlAttribute>) -> Seq<(Seq<char>, Seq<char>)> {
    v.map_values(|a: XmlAttribute| attr_view(a))
}

/// Reads a tag: its name, and for an inspected element its attributes.
/// Each attribute takes at least one byte of the input, so `budget` (the
/// input's length) bounds the loop; an iterator that outlasted it would
/// come back as an error.
fn read_tag(tag: &StartTag, budget: usize) -> (t: XmlTag)
    ensures
        tag_view(t) == tag_at(tag.source(), tag.index(), budget as nat),
{
    let ghost xml = tag.source();
    let ghost k = tag.index();
    let name = tag_name(tag);
    if !(str_eq(name.as_str(), "testcase") || str_eq(name.as_str(), "failure") || str_eq(name.as_str(), "error")
        || str_eq(name.as_str(), "skipped")) {
        let none: Vec<XmlAttribute> = Vec::new();
        assert(attrs_view(none@) =~= Seq::<(Seq<char>, Seq<char>)>::empty());
        let t = XmlTag { name, attributes: Ok(none) };
        proof {
            reveal_strlit("testcase");
            reveal_strlit("failure");
            reveal_strlit("error");
            reveal_strlit("skipped");
        }
        assert(!inspected(xml_tag_name(xml, k)));
        return t;
    }
    let mut iter = tag_attributes(tag);
    let mut out: Vec<XmlAttribute> = Vec::new();
    let mut n: usize = 0;
    assert(attrs_view(out@) =~= Seq::<(Seq<char>, Seq<char>)>::empty());
    assert(ahead(attrs_view(out@), attrs_from(xml, k, 0, budget as nat)) =~= attrs_from(xml, k, 0, budget as nat));
    while n < budget
        invariant
            n <= budget,
            xml == tag.source(),
            k == tag.index(),
            inspected(name@),
            name@ == xml_tag_name(xml, k),
            iter.source() == xml,
            iter.index() == k,
            iter.pos() == n,
            attrs_from(xml, k, 0, budget as nat) == ahead(attrs_view(out@), attrs_from(xml, k, n as nat, budget as nat)),
        decreases budget - n,
    {
        match next_attribute(&mut iter) {
            None => {
                assert(attrs_from(xml, k, n as nat, budget as nat) == Ok::<Seq<(Seq<char>, Seq<char>)>, Seq<char>>(
                    Seq::empty(),
                ));
                assert(attrs_view(out@) + Seq::<(Seq<char>, Seq<char>)>::empty() =~= attrs_view(out@));
                assert(tag_attrs(xml, k, budget as nat) == Ok::<Seq<(Seq<char>, Seq<char>)>, Seq<char>>(
                    attrs_view(out@),
                ));
                let t = XmlTag { name, attributes: Ok(out) };
                assert(tag_view(t).attributes == tag_attrs(xml, k, budget as nat));
                assert(tag_view(t).name == xml_tag_name(xml, k));
                assert(tag_view(t) == tag_at(xml, k, budget as nat));
                return t;
            },
            Some(Err(message)) => {
                assert(attrs_from(xml, k, n as nat, budget as nat) == Err::<Seq<(Seq<char>, Seq<char>)>, Seq<char>>(
                    message@,
                ));
                let t = XmlTag { name, attributes: Err(message) };
                assert(tag_view(t).attributes == tag_attrs(xml, k, budget as nat));
                assert(tag_view(t).name == xml_tag_name(xml, k));
                assert(tag_view(t) == tag_at(xml, k, budget as nat));
                return t;
            },
            Some(Ok(attribute)) => {
                let key = attribute_key(&attribute);
                match attribute_value(&attribute) {
                    Ok(value) => {
                        let ghost before = attrs_view(out@);
                        let ghost pair = (key@, value@);
                        out.push(XmlAttribute { key, value });
                        assert(attrs_view(out@) =~= before.push(pair));
                        assert forall|rest: Seq<(Seq<char>, Seq<char>)>| before + (seq![pair] + rest)
                            =~= before.push(pair) + rest by {}
                    },
                    Err(message) => {
                        let t = XmlTag { name, attributes: Err(message) };
                        return t;
                    },
                }
            },
        }
        n += 1;
    }
    let t = XmlTag { name, attributes: Err("the attribute list did not end within the input".to_owned()) };
    proof {
        reveal_strlit("the attribute list did not end within the input");
    }
    t
}

/// The next event of the reader, its tag read (see `read_tag`): event
/// `event_at` names for the reader's text and the number of events it has
/// given.
pub fn next_event(reader: &mut XmlReader, budget: usize) -> (e: XmlEvent)
    requires
        old(reader).trimmed(),
    ensures
        event_view(e) == event_at(old(reader).source(), old(reader).count(), budget as nat),
        final(reader).source() == old(reader).source(),
        final(reader).count() == old(reader).count() + 1,
        final(reader).trimmed(),
{
    let source = Ghost(reader.source());
    let index = Ghost(reader.count());
    match read_event(reader) {
        Token::Start(tag) => XmlEvent::Start(read_tag(&StartTag { tag, source, index }, budget)),
        Token::Empty(tag) => XmlEvent::Empty(read_tag(&StartTag { tag, source, index }, budget)),
        Token::End => XmlEvent::End,
        Token::Other => XmlEvent::Other,
        Token::Eof => XmlEvent::Eof,
        Token::Malformed(message) => XmlEvent::Malformed(message),
    }
}

} // verus!
