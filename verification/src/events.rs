//! XML events: start and end tags, texts, and the attributes of a tag.

use quick_xml::events::Event;
use vstd::prelude::*;
use vstd::utf8::valid_utf8;

use crate::bytes::{byte_from, find_byte, AMPERSAND};
use crate::text::{plain_text, text_result, unescape, unescaped, utf8_text};

verus! {

/// A start tag or an empty-element tag.
pub struct Tag {
    /// The tag name.
    pub name: Vec<u8>,
    /// What follows the name: white space and attributes.
    pub rest: Vec<u8>,
}

/// One step through a document.
pub enum XmlEvent {
    /// `<name ...>`
    Start(Tag),
    /// `<name .../>`
    Empty(Tag),
    /// `</name>`
    End(Vec<u8>),
    /// Text between tags, as it is written.
    Text(Vec<u8>),
    /// A comment, a CDATA section, a declaration or a processing instruction.
    Other,
    /// The document is not well formed; the message, and the offset that was reached.
    Failed { message: String, position: usize },
    /// The document has ended.
    Eof,
}

/// One step through a document.
#[verifier::ext_equal]
pub enum EventView {
    Start { name: Seq<u8>, rest: Seq<u8> },
    Empty { name: Seq<u8>, rest: Seq<u8> },
    End { name: Seq<u8> },
    Text { content: Seq<u8> },
    Other,
    Failed { message: Seq<char>, position: int },
    Eof,
}

impl View for XmlEvent {
    type V = EventView;

    open spec fn view(&self) -> EventView {
        match *self {
            XmlEvent::Start(tag) => EventView::Start { name: tag.name@, rest: tag.rest@ },
            XmlEvent::Empty(tag) => EventView::Empty { name: tag.name@, rest: tag.rest@ },
            XmlEvent::End(name) => EventView::End { name: name@ },
            XmlEvent::Text(content) => EventView::Text { content: content@ },
            XmlEvent::Other => EventView::Other,
            XmlEvent::Failed { message, position } => EventView::Failed {
                message: message@,
                position: position as int,
            },
            XmlEvent::Eof => EventView::Eof,
        }
    }
}

/// The bytes of a tag are text.
pub open spec fn is_text(event: EventView) -> bool {
    match event {
        EventView::Start { name, rest } => valid_utf8(name + rest),
        EventView::Empty { name, rest } => valid_utf8(name + rest),
        _ => true,
    }
}

/// The events are those of a document: they end with the end of the document, which comes nowhere
/// else, and their tags are text.
pub open spec fn readable(events: Seq<EventView>) -> bool {
    &&& events.len() > 0
    &&& events.last() is Eof
    &&& forall|i: int| 0 <= i < events.len() - 1 ==> !(#[trigger] events[i] is Eof)
    &&& forall|i: int| 0 <= i < events.len() ==> is_text(#[trigger] events[i])
}

/// What is left after the next event. The end of the document is never used up.
pub open spec fn rest_events(events: Seq<EventView>) -> Seq<EventView> {
    if events[0] is Eof {
        events
    } else {
        events.skip(1)
    }
}

/// What is left after an event is readable still, and shorter unless the document has ended.
pub proof fn lemma_rest_events(events: Seq<EventView>)
    requires
        readable(events),
    ensures
        is_text(events[0]),
        readable(rest_events(events)),
        events[0] is Eof ==> rest_events(events) == events,
        !(events[0] is Eof) ==> rest_events(events).len() == events.len() - 1,
{
    if !(events[0] is Eof) {
        let rest = events.skip(1);
        assert(rest.last() == events.last());
        assert forall|i: int| 0 <= i < rest.len() - 1 implies !(#[trigger] rest[i] is Eof) by {
            assert(rest[i] == events[i + 1]);
        }
        assert forall|i: int| 0 <= i < rest.len() implies is_text(#[trigger] rest[i]) by {
            assert(rest[i] == events[i + 1]);
        }
    }
}

/// A source of events.
pub trait EventSource {
    /// The events to come.
    spec fn pending(&self) -> Seq<EventView>;

    /// The next event. The end of the document is delivered again and again.
    fn next_event(&mut self) -> (event: XmlEvent)
        requires
            readable(old(self).pending()),
        ensures
            event@ == old(self).pending()[0],
            is_text(event@),
            final(self).pending() == rest_events(old(self).pending()),
            readable(final(self).pending()),
    ;
}

#[verifier::external_type_specification]
#[verifier::external_body]
#[verifier::reject_recursive_types(R)]
pub struct ExReader<R>(quick_xml::Reader<R>);

/// The events of a document, as `quick_xml::Reader` reads them from its bytes with the check of
/// end names switched off.
pub uninterp spec fn document_events(bytes: Seq<u8>) -> Seq<EventView>;

/// The events that a `quick_xml::Reader` has yet to deliver.
pub uninterp spec fn pending_events(reader: quick_xml::Reader<&[u8]>) -> Seq<EventView>;

/// `quick_xml::Reader::from_reader`, with `check_end_names` switched off. The reader will deliver
/// the events of the document: finitely many, each but the last taken from at least one byte of
/// the input, and the last one the end of the document. A tag is cut out of the input at the `<`
/// and at the `>`, or at the `/` before it, and its name at white space, so that the tags of text
/// are text.
#[verifier::external_body]
fn open_reader<'a>(bytes: &'a [u8]) -> (reader: quick_xml::Reader<&'a [u8]>)
    requires
        valid_utf8(bytes@),
    ensures
        pending_events(reader) == document_events(bytes@),
        readable(pending_events(reader)),
        pending_events(reader).len() <= bytes@.len() + 1,
{
    let mut reader = quick_xml::Reader::from_reader(bytes);
    reader.config_mut().check_end_names = false;
    reader
}

/// `quick_xml::Reader::read_event` delivers the next event and, once the document has ended, its
/// end again. An error comes with its message and with `buffer_position`.
#[verifier::external_body]
fn read_event(reader: &mut quick_xml::Reader<&[u8]>) -> (event: XmlEvent)
    requires
        pending_events(*old(reader)).len() > 0,
    ensures
        event@ == pending_events(*old(reader))[0],
        pending_events(*final(reader)) == rest_events(pending_events(*old(reader))),
{
    match reader.read_event() {
        Ok(Event::Start(e)) => XmlEvent::Start(
            Tag { name: e.name().as_ref().to_vec(), rest: e.attributes_raw().to_vec() }),
        Ok(Event::Empty(e)) => XmlEvent::Empty(
            Tag { name: e.name().as_ref().to_vec(), rest: e.attributes_raw().to_vec() }),
        Ok(Event::End(e)) => XmlEvent::End(e.name().as_ref().to_vec()),
        Ok(Event::Text(e)) => XmlEvent::Text(e.to_vec()),
        Ok(Event::Eof) => XmlEvent::Eof,
        Ok(_) => XmlEvent::Other,
        Err(e) => XmlEvent::Failed {
            message: e.to_string(), position: reader.buffer_position() as usize },
    }
}

/// The events of a document in memory.
pub struct XmlReader<'a> {
    reader: quick_xml::Reader<&'a [u8]>,
}

impl<'a> XmlReader<'a> {
    /// The events of the document `bytes`.
    pub fn new(bytes: &'a [u8]) -> (events: Self)
        requires
            valid_utf8(bytes@),
        ensures
            events.pending() == document_events(bytes@),
            readable(events.pending()),
            events.pending().len() <= bytes@.len() + 1,
    {
        XmlReader { reader: open_reader(bytes) }
    }
}

impl<'a> EventSource for XmlReader<'a> {
    closed spec fn pending(&self) -> Seq<EventView> {
        pending_events(self.reader)
    }

    fn next_event(&mut self) -> (event: XmlEvent) {
        proof {
            lemma_rest_events(self.pending());
        }
        read_event(&mut self.reader)
    }
}

/// A list of events.
pub struct EventList {
    /// The events to come, the next one last.
    reversed: Vec<XmlEvent>,
}

/// The views of a list of events.
pub open spec fn event_views(events: Seq<XmlEvent>) -> Seq<EventView> {
    Seq::new(events.len(), |i: int| events[i]@)
}

impl EventList {
    /// The given events, and then the end of the document.
    pub fn new(events: Vec<XmlEvent>) -> (list: Self)
        requires
            forall|i: int|
                0 <= i < events@.len() ==> !(#[trigger] events@[i]@ is Eof) && is_text(
                    events@[i]@,
                ),
        ensures
            list.pending() == event_views(events@).push(EventView::Eof),
            readable(list.pending()),
    {
        let ghost views = event_views(events@);
        let mut left = events;
        let mut reversed: Vec<XmlEvent> = Vec::new();
        assert(event_views(left@) + event_views(reversed@).reverse() =~= views);
        loop
            invariant
                event_views(left@) + event_views(reversed@).reverse() == views,
                views == event_views(events@),
                forall|i: int|
                    0 <= i < events@.len() ==> !(#[trigger] events@[i]@ is Eof) && is_text(
                        events@[i]@,
                    ),
            decreases left@.len(),
        {
            let ghost left_before = left@;
            let ghost reversed_before = reversed@;
            match left.pop() {
                Some(event) => {
                    reversed.push(event);
                    proof {
                        assert(event_views(left@) =~= event_views(left_before).drop_last());
                        assert(event_views(reversed@).reverse() =~= seq![event@] + event_views(
                            reversed_before,
                        ).reverse());
                        assert(event_views(left_before) =~= event_views(left@).push(event@));
                        assert(event_views(left@) + event_views(reversed@).reverse()
                            =~= event_views(left_before) + event_views(reversed_before).reverse());
                    }
                },
                None => {
                    let list = EventList { reversed };
                    proof {
                        assert(event_views(reversed@).reverse() =~= views);
                        assert forall|i: int| 0 <= i < list.pending().len() - 1 implies !(
                        #[trigger] list.pending()[i] is Eof) by {
                            assert(list.pending()[i] == events@[i]@);
                        }
                        assert forall|i: int| 0 <= i < list.pending().len() implies is_text(
                            #[trigger] list.pending()[i],
                        ) by {
                            if i < events@.len() {
                                assert(list.pending()[i] == events@[i]@);
                            }
                        }
                    }
                    return list;
                },
            }
        }
    }
}

impl EventSource for EventList {
    closed spec fn pending(&self) -> Seq<EventView> {
        event_views(self.reversed@).reverse().push(EventView::Eof)
    }

    fn next_event(&mut self) -> (event: XmlEvent) {
        let ghost before = self.reversed@;
        proof {
            lemma_rest_events(self.pending());
        }
        match self.reversed.pop() {
            Some(event) => {
                proof {
                    let views = event_views(before).reverse();
                    assert(views[0] == event@);
                    assert(event_views(self.reversed@).reverse() =~= views.skip(1));
                    assert(views.push(EventView::Eof).skip(1) =~= views.skip(1).push(
                        EventView::Eof,
                    ));
                }
                event
            },
            None => XmlEvent::Eof,
        }
    }
}

/// An attribute of a tag.
pub enum AttrItem {
    /// A key and a value, as they are written.
    Pair { key: Vec<u8>, value: Vec<u8> },
    /// The attribute is not well formed.
    Broken { message: String },
}

/// An attribute of a tag.
#[verifier::ext_equal]
pub enum AttrView {
    Pair { key: Seq<u8>, value: Seq<u8> },
    Broken { message: Seq<char> },
}

impl View for AttrItem {
    type V = AttrView;

    open spec fn view(&self) -> AttrView {
        match *self {
            AttrItem::Pair { key, value } => AttrView::Pair { key: key@, value: value@ },
            AttrItem::Broken { message } => AttrView::Broken { message: message@ },
        }
    }
}

/// The views of a list of attributes.
pub open spec fn attr_views(attrs: Seq<AttrItem>) -> Seq<AttrView> {
    Seq::new(attrs.len(), |i: int| attrs[i]@)
}

/// The attributes of a tag with this name and this rest, as `quick_xml` reads them.
pub uninterp spec fn tag_attributes(name: Seq<u8>, rest: Seq<u8>) -> Seq<AttrView>;

/// `quick_xml::events::attributes::Attributes::new` on the name and the rest of a tag delivers its
/// attributes in order; an error comes with its message. It takes text.
#[verifier::external_body]
pub(crate) fn attributes_of(tag: &Tag) -> (attrs: Vec<AttrItem>)
    requires
        valid_utf8(tag.name@ + tag.rest@),
    ensures
        attr_views(attrs@) == tag_attributes(tag.name@, tag.rest@),
{
    let content = [tag.name.as_slice(), tag.rest.as_slice()].concat();
    let text = String::from_utf8_lossy(&content);
    quick_xml::events::attributes::Attributes::new(&text, tag.name.len())
        .map(|attr| match attr {
            Ok(a) => AttrItem::Pair { key: a.key.as_ref().to_vec(), value: a.value.into_owned() },
            Err(e) => AttrItem::Broken { message: e.to_string() },
        })
        .collect()
}

/// The text of a value: its entities are replaced where there is an `&`. The message of the error
/// where they cannot be.
pub open spec fn value_text(raw: Seq<u8>) -> Result<Seq<char>, Seq<char>> {
    if byte_from(raw, AMPERSAND, 0) is None {
        Ok(plain_text(raw))
    } else {
        unescaped(plain_text(raw))
    }
}

/// The text of an attribute value or of a text between tags.
pub fn attr_text(raw: &[u8]) -> (text: Result<String, String>)
    ensures
        text_result(text) == value_text(raw@),
{
    let text = utf8_text(raw);
    match find_byte(raw, AMPERSAND, 0) {
        None => Ok(text),
        Some(_) => unescape(text.as_str()),
    }
}

} // verus!
