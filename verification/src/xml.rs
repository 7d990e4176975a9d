//! The events of an XML document, as read by quick_xml's reader and reduced
//! to what the search for the orchestra text needs.

use vstd::prelude::*;
use quick_xml::events::Event;
use quick_xml::Reader;

verus! {

/// The part of an XML event that the search for the orchestra text reads.
pub enum XmlEvent {
    /// An opening tag, with its name.
    Start(Vec<u8>),
    /// A piece of text, decoded.
    Text(String),
    /// A piece of text that could not be decoded.
    UndecodableText,
    /// A closing tag.
    End,
    /// The end of the document.
    Eof,
    /// Any other event, or a parse error.
    Other,
}

#[verifier::external_type_specification]
#[verifier::external_body]
#[verifier::reject_recursive_types(R)]
pub struct ExXmlReader<R>(Reader<R>);

/// The events that quick_xml's reader, created by `Reader::from_str(content)`,
/// returns one after the other from `read_event_into`, each reduced to an
/// `XmlEvent`, up to and including the first end of document. The reader
/// depends on nothing but `content`, and after the end of the document (or a
/// fatal error) it returns the end of the document for ever.
pub uninterp spec fn csd_events(content: Seq<char>) -> Seq<XmlEvent>;

/// A reader over the events of a document, with the document and the number
/// of events read so far.
pub struct XmlEvents<'a> {
    reader: Reader<&'a [u8]>,
    content: Ghost<Seq<char>>,
    pos: Ghost<nat>,
}

impl<'a> View for XmlEvents<'a> {
    /// The document, and how many of its events have been read.
    type V = (Seq<char>, nat);

    closed spec fn view(&self) -> (Seq<char>, nat) {
        (self.content@, self.pos@)
    }
}

/// Calls `quick_xml::Reader::from_str`: a reader before the first event of
/// `content`.
#[verifier::external_body]
pub fn xml_events<'a>(content: &'a str) -> (events: XmlEvents<'a>)
    ensures
        events@.0 == content@,
        events@.1 == 0,
{
    XmlEvents { reader: Reader::from_str(content), content: Ghost(content@), pos: Ghost(0) }
}

/// Calls `quick_xml::Reader::read_event_into` and keeps what the search reads:
/// a start tag's name (`BytesStart::name`), a text's content decoded by
/// `BytesText::decode`, and which kind the event is; a parse error counts as
/// `Other`. The event is the next one of the document; past its end, the end
/// of the document again.
#[verifier::external_body]
pub fn next_xml_event(events: &mut XmlEvents, buf: &mut Vec<u8>) -> (ev: XmlEvent)
    ensures
        final(events)@.0 == old(events)@.0,
        final(events)@.1 == old(events)@.1 + 1,
        old(events)@.1 < csd_events(old(events)@.0).len() ==> ev == csd_events(
            old(events)@.0,
        )[old(events)@.1 as int],
        old(events)@.1 >= csd_events(old(events)@.0).len() ==> ev is Eof,
{
    let ev = match events.reader.read_event_into(buf) {
        Ok(Event::Start(e)) => XmlEvent::Start(e.name().as_ref().to_vec()),
        Ok(Event::Text(e)) => match e.decode() {
            Ok(t) => XmlEvent::Text(t.into_owned()),
            Err(_) => XmlEvent::UndecodableText,
        },
        Ok(Event::End(_)) => XmlEvent::End,
        Ok(Event::Eof) => XmlEvent::Eof,
        _ => XmlEvent::Other,
    };
    events.pos = Ghost((events.pos@ + 1) as nat);
    ev
}

} // verus!
