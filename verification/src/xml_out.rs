use vstd::prelude::*;
use quick_xml::events::{BytesDecl, BytesEnd, BytesStart, BytesText, Event};

verus! {

/// An event that an XML writer writes: a declaration (its version), a
/// doctype (its text, written as it is), a start tag, an empty tag (each
/// with its name and attributes), an end tag, or text (escaped on writing).
pub enum XmlOut {
    Decl(String),
    DocType(String),
    Start(String, Vec<(String, String)>),
    Empty(String, Vec<(String, String)>),
    End(String),
    Text(String),
}

/// An XML event as a spec value.
pub enum XmlOutView {
    Decl(Seq<char>),
    DocType(Seq<char>),
    Start(Seq<char>, Seq<(Seq<char>, Seq<char>)>),
    Empty(Seq<char>, Seq<(Seq<char>, Seq<char>)>),
    End(Seq<char>),
    Text(Seq<char>),
}

/// Attributes as spec values.
pub open spec fn attrs_view(a: Seq<(String, String)>) -> Seq<(Seq<char>, Seq<char>)> {
    a.map_values(|p: (String, String)| (p.0@, p.1@))
}

impl View for XmlOut {
    type V = XmlOutView;

    open spec fn view(&self) -> XmlOutView {
        match self {
            XmlOut::Decl(v) => XmlOutView::Decl(v@),
            XmlOut::DocType(t) => XmlOutView::DocType(t@),
            XmlOut::Start(n, a) => XmlOutView::Start(n@, attrs_view(a@)),
            XmlOut::Empty(n, a) => XmlOutView::Empty(n@, attrs_view(a@)),
            XmlOut::End(n) => XmlOutView::End(n@),
            XmlOut::Text(t) => XmlOutView::Text(t@),
        }
    }
}

/// Events as spec values.
pub open spec fn xml_outs_view(v: Seq<XmlOut>) -> Seq<XmlOutView> {
    v.map_values(|e: XmlOut| e@)
}

/// The bytes that quick-xml's `Writer` writes for the events, one after the
/// other, into an empty buffer: without indentation, or indented by four
/// spaces a level where `pretty`.
pub uninterp spec fn xml_written(evs: Seq<XmlOutView>, pretty: bool) -> Seq<u8>;

/// Converts an event to quick-xml's form: the declaration with its version
/// alone, the doctype as given, tags with their attributes in order, and
/// text that quick-xml escapes.
#[verifier::external_body]
fn xml_out_event(e: &XmlOut) -> Event<'_> {
    match e {
        XmlOut::Decl(v) => Event::Decl(BytesDecl::new(v, None, None)),
        XmlOut::DocType(t) => Event::DocType(BytesText::from_escaped(t)),
        XmlOut::Start(n, a) => Event::Start(BytesStart::new(n).with_attributes(a.iter().map(|(k, v)| (k.as_str(), v.as_str())))),
        XmlOut::Empty(n, a) => Event::Empty(BytesStart::new(n).with_attributes(a.iter().map(|(k, v)| (k.as_str(), v.as_str())))),
        XmlOut::End(n) => Event::End(BytesEnd::new(n)),
        XmlOut::Text(t) => Event::Text(BytesText::new(t)),
    }
}

/// Writes the events with quick-xml's `Writer` (`Writer::new`, or
/// `Writer::new_with_indent` with four spaces where `pretty`) into a byte
/// buffer, and returns the buffer: the bytes are those the name
/// [`xml_written`] stands for. `write_event` fails only where the buffer
/// does, and a buffer in memory does not.
#[verifier::external_body]
pub(crate) fn write_xml(evs: &Vec<XmlOut>, pretty: bool) -> (out: Vec<u8>)
    ensures
        out@ == xml_written(xml_outs_view(evs@), pretty),
{
    let mut w = if pretty { quick_xml::Writer::new_with_indent(Vec::new(), b' ', 4) } else { quick_xml::Writer::new(Vec::new()) };
    for e in evs {
        w.write_event(xml_out_event(e)).unwrap();
    }
    w.into_inner()
}

}
