//! The events of an XML document, and the parser that yields them.

use vstd::prelude::*;
use xml::reader::{ParserConfig, XmlEvent};

verus! {

/// An attribute of an opening tag: its local name and its value.
pub type Attribute = (String, String);

/// One event of an XML document. A tag is known by its local name, and an
/// opening tag by its attributes besides.
#[derive(Debug, PartialEq, Eq)]
pub enum XmlReadEvent {
    StartDocument,
    EndDocument,
    ProcessingInstruction,
    StartElement(String, Vec<Attribute>),
    EndElement(String),
    CData(String),
    Comment,
    Characters(String),
    Whitespace,
}

/// What the parser yields next: an event, or the description of the fault that
/// ends the document, which starts with its position.
pub type XmlResult = Result<XmlReadEvent, String>;

/// An attribute as its local name and its value.
pub struct AttributeView {
    pub name: Seq<char>,
    pub value: Seq<char>,
}

/// An event as the text that it holds.
pub enum EventView {
    StartDocument,
    EndDocument,
    ProcessingInstruction,
    StartElement { name: Seq<char>, attributes: Seq<AttributeView> },
    EndElement { name: Seq<char> },
    CData(Seq<char>),
    Comment,
    Characters(Seq<char>),
    Whitespace,
}

/// An event, or the description of a fault.
pub type ItemView = Result<EventView, Seq<char>>;

/// The events of a document, in order.
pub type Stream = Seq<ItemView>;

/// The attributes of an opening tag, in document order.
pub open spec fn attributes_view(attributes: Seq<Attribute>) -> Seq<AttributeView> {
    attributes.map_values(
        |attribute: Attribute| AttributeView { name: attribute.0@, value: attribute.1@ },
    )
}

impl View for XmlReadEvent {
    type V = EventView;

    open spec fn view(&self) -> EventView {
        match self {
            XmlReadEvent::StartDocument => EventView::StartDocument,
            XmlReadEvent::EndDocument => EventView::EndDocument,
            XmlReadEvent::ProcessingInstruction => EventView::ProcessingInstruction,
            XmlReadEvent::StartElement(name, attributes) => EventView::StartElement {
                name: name@,
                attributes: attributes_view(attributes@),
            },
            XmlReadEvent::EndElement(name) => EventView::EndElement { name: name@ },
            XmlReadEvent::CData(text) => EventView::CData(text@),
            XmlReadEvent::Comment => EventView::Comment,
            XmlReadEvent::Characters(text) => EventView::Characters(text@),
            XmlReadEvent::Whitespace => EventView::Whitespace,
        }
    }
}

/// What the parser yielded, as texts.
pub open spec fn item_view(item: XmlResult) -> ItemView {
    match item {
        Ok(event) => Ok(event@),
        Err(fault) => Err(fault@),
    }
}

/// Everything that the parser yielded, as texts.
pub open spec fn stream_view(items: Seq<XmlResult>) -> Stream {
    items.map_values(|item: XmlResult| item_view(item))
}

/// A document ends with its first fault or with the event that marks its end,
/// and comments are left out.
pub open spec fn is_document(stream: Stream) -> bool {
    &&& stream.len() > 0
    &&& stream.last() is Err || stream.last() == Ok::<_, Seq<char>>(EventView::EndDocument)
    &&& forall|i: int|
        0 <= i < stream.len() - 1 ==> (#[trigger] stream[i] is Ok && !(stream[i]->Ok_0 is EndDocument))
    &&& forall|i: int|
        0 <= i < stream.len() && #[trigger] stream[i] is Ok ==> !(stream[i]->Ok_0 is Comment)
}

/// The events that the XML parser reads out of `source`, comments left out.
pub uninterp spec fn xml_events(source: Seq<u8>) -> Stream;

/// Runs the parser of the `xml` crate over `source`: `ParserConfig::new()` with
/// `ignore_comments(true)`, `create_reader`, and the iteration of the reader.
///
/// The events depend on the bytes alone. They are named by [`xml_events`], and
/// nothing is said of which events a given source has, except that the
/// iteration stops behind the first fault or the end of the document and that
/// it holds no comment. A fault is told by the text that its `Display` writes.
#[verifier::external_body]
pub(crate) fn parse_events(source: &[u8]) -> (events: Vec<XmlResult>)
    ensures
        stream_view(events@) == xml_events(source@),
        is_document(stream_view(events@)),
{
    ParserConfig::new().ignore_comments(true).create_reader(source).into_iter().map(|item| item.map(|event| match event {
        XmlEvent::StartDocument { .. } => XmlReadEvent::StartDocument,
        XmlEvent::EndDocument => XmlReadEvent::EndDocument,
        XmlEvent::ProcessingInstruction { .. } => XmlReadEvent::ProcessingInstruction,
        XmlEvent::StartElement { name, attributes, .. } => XmlReadEvent::StartElement(
            name.local_name,
            attributes.into_iter().map(|a| (a.name.local_name, a.value)).collect(),
        ),
        XmlEvent::EndElement { name } => XmlReadEvent::EndElement(name.local_name),
        XmlEvent::CData(text) => XmlReadEvent::CData(text),
        XmlEvent::Comment(_) => XmlReadEvent::Comment,
        XmlEvent::Characters(text) => XmlReadEvent::Characters(text),
        XmlEvent::Whitespace(_) => XmlReadEvent::Whitespace,
    }).map_err(|fault| fault.to_string())).collect()
}

}
