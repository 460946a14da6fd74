//! XML events as plain values, read with quick-xml.
//!
//! The reader of quick-xml is kept behind trusted items: what it reads from
//! a text is named ([`xml_events`]), and the reader is treated as the queue
//! of the events it has yet to give ([`pending_events`]).
use quick_xml::events::{BytesStart, Event};
use vstd::prelude::*;

verus! {

#[verifier::external_type_specification]
#[verifier::external_body]
#[verifier::reject_recursive_types(R)]
pub struct ExXmlReader<R>(quick_xml::Reader<R>);

#[verifier::external_type_specification]
#[verifier::external_body]
pub struct ExBytesStart<'a>(BytesStart<'a>);

/// An attribute of a tag: its qualified name and its raw (not unescaped)
/// value, both as bytes.
pub struct XmlAttribute {
    pub key: Vec<u8>,
    pub value: Vec<u8>,
}

/// A start or empty tag: its local name, and its attributes in order
/// (`None` for an attribute that could not be read).
pub struct XmlTag {
    pub local_name: Vec<u8>,
    pub attributes: Vec<Option<XmlAttribute>>,
}

/// An XML event, as plain values.
pub enum XmlEvent {
    /// A start tag `<tag ...>`.
    Start(XmlTag),
    /// An empty-element tag `<tag .../>`.
    Empty(XmlTag),
    /// Character data with its entities unescaped (`None` where unescaping
    /// failed).
    Text(Option<String>),
    /// An end tag `</tag>`, by its local name.
    End(Vec<u8>),
    /// Any other event (comments, CDATA, declarations, ...).
    Other,
    /// The end of the input.
    Eof,
    /// A syntax error.
    Error,
}

/// The view of a tag.
pub struct TagView {
    pub local_name: Seq<u8>,
    pub attributes: Seq<Option<(Seq<u8>, Seq<u8>)>>,
}

/// The view of an event.
pub enum EventView {
    Start(TagView),
    Empty(TagView),
    Text(Option<Seq<char>>),
    End(Seq<u8>),
    Other,
    Eof,
    Error,
}

/// The view of an attribute slot.
pub open spec fn attribute_view(a: Option<XmlAttribute>) -> Option<(Seq<u8>, Seq<u8>)> {
    match a {
        Some(a) => Some((a.key@, a.value@)),
        None => None,
    }
}

impl View for XmlTag {
    type V = TagView;

    open spec fn view(&self) -> TagView {
        TagView {
            local_name: self.local_name@,
            attributes: self.attributes@.map_values(|a: Option<XmlAttribute>| attribute_view(a)),
        }
    }
}

impl View for XmlEvent {
    type V = EventView;

    open spec fn view(&self) -> EventView {
        match self {
            XmlEvent::Start(t) => EventView::Start(t@),
            XmlEvent::Empty(t) => EventView::Empty(t@),
            XmlEvent::Text(t) => EventView::Text(
                match t {
                    Some(s) => Some(s@),
                    None => None,
                },
            ),
            XmlEvent::End(n) => EventView::End(n@),
            XmlEvent::Other => EventView::Other,
            XmlEvent::Eof => EventView::Eof,
            XmlEvent::Error => EventView::Error,
        }
    }
}

/// Whether reading stops at this event: the end of the input or an error.
pub open spec fn is_terminal(e: EventView) -> bool {
    e is Eof || e is Error
}

/// The events that quick-xml's `Reader::from_str(text)` gives by repeated
/// `read_event` calls, up to and including the first end of input or error.
pub uninterp spec fn xml_events(text: Seq<char>) -> Seq<EventView>;

/// The events that a reader has yet to give, up to and including the first
/// end of input or error.
pub uninterp spec fn pending_events(reader: quick_xml::Reader<&[u8]>) -> Seq<EventView>;

/// Whether the reading of `events` ends with their last event, and only
/// there.
pub open spec fn ends_at_last(events: Seq<EventView>) -> bool {
    &&& events.len() > 0
    &&& is_terminal(events.last())
    &&& forall|i: int| 0 <= i < events.len() - 1 ==> !is_terminal(#[trigger] events[i])
}

/// `quick_xml::Reader::from_str`: a reader of `text` with the default
/// configuration. Claimed: the events it has to give are those named by
/// [`xml_events`], and they end at the first end of input or error, which
/// comes after finitely many events (each event consumes input, and at the
/// end of the input the reader gives `Eof`).
#[verifier::external_body]
fn xml_reader<'a>(text: &'a str) -> (reader: quick_xml::Reader<&'a [u8]>)
    ensures
        pending_events(reader) == xml_events(text@),
        ends_at_last(pending_events(reader)),
{
    quick_xml::Reader::from_str(text)
}

/// `quick_xml::Reader::read_event`, with the event converted to plain
/// values (local names, raw attribute bytes, unescaped text). Claimed: the
/// event is the first of the pending events, and, unless it is the end of
/// input or an error, it leaves the queue. Nothing is claimed of the reader
/// after an end of input (which quick-xml gives again on every later call)
/// or an error (after which quick-xml may go on parsing).
#[verifier::external_body]
fn read_xml_event(reader: &mut quick_xml::Reader<&[u8]>) -> (event: XmlEvent)
    requires
        pending_events(*old(reader)).len() > 0,
    ensures
        event@ == pending_events(*old(reader))[0],
        !is_terminal(event@) ==> pending_events(*final(reader)) == pending_events(
            *old(reader),
        ).drop_first(),
{
    match reader.read_event() {
        Ok(Event::Start(e)) => XmlEvent::Start(xml_tag(&e)),
        Ok(Event::Empty(e)) => XmlEvent::Empty(xml_tag(&e)),
        Ok(Event::Text(t)) => XmlEvent::Text(t.unescape().ok().map(String::from)),
        Ok(Event::End(e)) => XmlEvent::End(e.local_name().as_ref().to_vec()),
        Ok(Event::Eof) => XmlEvent::Eof,
        Ok(_) => XmlEvent::Other,
        Err(_) => XmlEvent::Error,
    }
}

/// Converts a start or empty tag of quick-xml to plain values: its local
/// name (`BytesStart::local_name`) and, for each item of
/// `BytesStart::attributes`, the attribute's qualified name and raw value,
/// or `None` where the item is an error. Nothing is claimed of the result:
/// [`read_xml_event`] states what the tags it gives are.
#[verifier::external_body]
fn xml_tag(e: &BytesStart) -> XmlTag {
    XmlTag {
        local_name: e.local_name().as_ref().to_vec(),
        attributes: e.attributes().map(|a| a.ok().map(|a| XmlAttribute { key: a.key.as_ref().to_vec(), value: a.value.to_vec() })).collect(),
    }
}

impl XmlEvent {
    /// Whether reading stops at this event.
    pub fn ends_reading(&self) -> (r: bool)
        ensures
            r == is_terminal(self@),
    {
        match self {
            XmlEvent::Eof => true,
            XmlEvent::Error => true,
            _ => false,
        }
    }
}

/// The XML events of `text`, as quick-xml reads them: up to and including
/// the first end of input or error.
pub fn read_xml_events(text: &str) -> (events: Vec<XmlEvent>)
    ensures
        events@.map_values(|e: XmlEvent| e@) == xml_events(text@),
{
    let mut reader = xml_reader(text);
    let ghost all = xml_events(text@);
    let mut events: Vec<XmlEvent> = Vec::new();
    loop
        invariant
            all == xml_events(text@),
            ends_at_last(all),
            events.len() < all.len(),
            events@.map_values(|e: XmlEvent| e@) == all.take(events.len() as int),
            pending_events(reader) == all.skip(events.len() as int),
        decreases all.len() - events.len(),
    {
        let ghost before = events@;
        let event = read_xml_event(&mut reader);
        let stop = event.ends_reading();
        events.push(event);
        proof {
            assert(events@.map_values(|e: XmlEvent| e@) =~= all.take(events.len() as int));
            if !stop {
                assert(pending_events(reader) =~= all.skip(events.len() as int));
            }
        }
        if stop {
            proof {
                if events.len() < all.len() {
                    assert(!is_terminal(all[events.len() - 1]));
                }
                assert(all.take(events.len() as int) =~= all);
            }
            return events;
        }
    }
}

} // verus!
