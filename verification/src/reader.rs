//! Reading the events of a document one after another.

use std::collections::VecDeque;

use vstd::prelude::*;

use crate::error::{DecodeError, ErrorView, XmlError};
use crate::event::{
    is_document, item_view, parse_events, stream_view, xml_events, EventView, ItemView, Stream,
    XmlReadEvent, XmlResult,
};
use crate::text::text_eq;

verus! {

/// Everything but standalone whitespace matters to the decoder.
pub open spec fn is_significant(item: ItemView) -> bool {
    !(item is Ok && item->Ok_0 is Whitespace)
}

/// The events of a document without standalone whitespace.
pub open spec fn significant(stream: Stream) -> Stream {
    stream.filter(|item: ItemView| is_significant(item))
}

/// An error that is told by a message.
pub open spec fn message(text: Seq<char>) -> ErrorView {
    ErrorView::Message(text)
}

/// The outcome of an operation that hands nothing back.
pub open spec fn unit_view(result: Result<(), DecodeError>) -> Result<(), ErrorView> {
    match result {
        Ok(_) => Ok(()),
        Err(error) => Err(error@),
    }
}

/// The outcome of an operation that hands a text back.
pub open spec fn text_view(result: Result<String, DecodeError>) -> Result<Seq<char>, ErrorView> {
    match result {
        Ok(text) => Ok(text@),
        Err(error) => Err(error@),
    }
}

/// The outcome of reading the next event, and the events behind it. A document
/// that has ended is malformed to one who expects more of it.
pub open spec fn next_event(stream: Stream) -> (Result<EventView, ErrorView>, Stream) {
    if stream.len() == 0 {
        (Err(ErrorView::MalformedDocument), stream)
    } else {
        match stream[0] {
            Ok(event) => (Ok(event), stream.drop_first()),
            Err(fault) => (Err(ErrorView::XmlError(fault)), stream.drop_first()),
        }
    }
}

/// Reading an opening tag that must bear the given name.
pub open spec fn opening_tag(stream: Stream, name: Seq<char>, complaint: Seq<char>) -> (
    Result<(), ErrorView>,
    Stream,
) {
    let (event, rest) = next_event(stream);
    match event {
        Ok(EventView::StartElement { name: found, .. }) => if found == name {
            (Ok(()), rest)
        } else {
            (Err(message(complaint)), rest)
        },
        Ok(_) => (Err(ErrorView::MalformedDocument), rest),
        Err(error) => (Err(error), rest),
    }
}

/// Reading a closing tag that must bear the given name.
pub open spec fn closing_tag(stream: Stream, name: Seq<char>, complaint: Seq<char>) -> (
    Result<(), ErrorView>,
    Stream,
) {
    let (event, rest) = next_event(stream);
    match event {
        Ok(EventView::EndElement { name: found }) => if found == name {
            (Ok(()), rest)
        } else {
            (Err(message(complaint)), rest)
        },
        Ok(_) => (Err(ErrorView::MalformedDocument), rest),
        Err(error) => (Err(error), rest),
    }
}

/// The text of an event that holds character data.
pub open spec fn character_data(item: ItemView) -> Option<Seq<char>> {
    match item {
        Ok(EventView::Characters(text)) => Some(text),
        Ok(EventView::CData(text)) => Some(text),
        _ => None,
    }
}

/// How many events at the front of a stream hold character data without a
/// break.
pub open spec fn run_length(stream: Stream) -> nat
    decreases stream.len(),
{
    if stream.len() > 0 && character_data(stream[0]) is Some {
        1 + run_length(stream.drop_first())
    } else {
        0
    }
}

/// The text of the events at the front of a stream that hold character data.
pub open spec fn run_text(stream: Stream) -> Seq<char>
    decreases stream.len(),
{
    if stream.len() > 0 && character_data(stream[0]) is Some {
        character_data(stream[0])->0 + run_text(stream.drop_first())
    } else {
        Seq::empty()
    }
}

/// Reading character data as far as it goes. A fault right behind it spoils
/// the whole.
pub open spec fn characters(stream: Stream) -> (Result<Seq<char>, ErrorView>, Stream) {
    let length = run_length(stream) as int;
    if length < stream.len() && stream[length] is Err {
        (Err(ErrorView::XmlError(stream[length]->Err_0)), stream.skip(length + 1))
    } else {
        (Ok(run_text(stream)), stream.skip(length))
    }
}

/// Reading a tag that holds character data only.
pub open spec fn tag_contents(stream: Stream, name: Seq<char>) -> (
    Result<Seq<char>, ErrorView>,
    Stream,
) {
    let (opened, inside) = opening_tag(stream, name, "Got wrong tag name"@);
    match opened {
        Err(error) => (Err(error), inside),
        Ok(_) => {
            let (contents, behind) = characters(inside);
            match contents {
                Err(error) => (Err(error), behind),
                Ok(text) => {
                    let (event, rest) = next_event(behind);
                    match event {
                        Ok(EventView::EndElement { .. }) => (Ok(text), rest),
                        Ok(_) => (Err(ErrorView::MalformedDocument), rest),
                        Err(error) => (Err(error), rest),
                    }
                },
            }
        },
    }
}

/// Skipping events, with `depth` tags open, up to the closing tag that leaves
/// none open.
pub open spec fn skip_tag(stream: Stream, depth: int) -> (Result<(), ErrorView>, Stream)
    decreases stream.len(),
{
    if stream.len() == 0 {
        (Err(message("Unexpected EOF"@)), stream)
    } else {
        let rest = stream.drop_first();
        match stream[0] {
            Err(fault) => (Err(ErrorView::XmlError(fault)), rest),
            Ok(EventView::StartElement { .. }) => skip_tag(rest, depth + 1),
            Ok(EventView::EndElement { .. }) => if depth == 1 {
                (Ok(()), rest)
            } else {
                skip_tag(rest, depth - 1)
            },
            Ok(_) => skip_tag(rest, depth),
        }
    }
}

/// A run of character data is part of its stream.
pub proof fn lemma_run_length(stream: Stream)
    ensures
        run_length(stream) <= stream.len(),
    decreases stream.len(),
{
    if stream.len() > 0 && character_data(stream[0]) is Some {
        lemma_run_length(stream.drop_first());
    }
}

/// Reading character data adds no events.
pub proof fn lemma_characters_progress(stream: Stream)
    ensures
        characters(stream).1.len() <= stream.len(),
{
    lemma_run_length(stream);
}

/// Reading a tag uses events up.
pub proof fn lemma_tag_contents_progress(stream: Stream, name: Seq<char>)
    ensures
        tag_contents(stream, name).0 is Ok ==> tag_contents(stream, name).1.len() < stream.len(),
{
    let (_, inside) = opening_tag(stream, name, "Got wrong tag name"@);
    lemma_characters_progress(inside);
}

/// Skipping a tag uses events up.
pub proof fn lemma_skip_tag_progress(stream: Stream, depth: int)
    ensures
        skip_tag(stream, depth).0 is Ok ==> skip_tag(stream, depth).1.len() < stream.len(),
    decreases stream.len(),
{
    if stream.len() > 0 {
        let rest = stream.drop_first();
        lemma_skip_tag_progress(rest, depth + 1);
        lemma_skip_tag_progress(rest, depth - 1);
        lemma_skip_tag_progress(rest, depth);
    }
}

/// Whether an event is anything but standalone whitespace.
fn filter_whitespace_events(event: &XmlResult) -> (keep: bool)
    ensures
        keep == is_significant(item_view(*event)),
{
    match event {
        Ok(XmlReadEvent::Whitespace) => false,
        _ => true,
    }
}

/// The events of a document that are yet to be read.
pub struct XmlEventReader {
    events: VecDeque<XmlResult>,
}

impl View for XmlEventReader {
    type V = Stream;

    closed spec fn view(&self) -> Stream {
        stream_view(self.events@)
    }
}

impl XmlEventReader {
    /// Reads the events of an XML document, without standalone whitespace.
    pub fn from_source(source: &[u8]) -> (reader: XmlEventReader)
        ensures
            reader@ == significant(xml_events(source@)),
            is_document(xml_events(source@)),
    {
        XmlEventReader::from_events(parse_events(source))
    }

    /// Reads the given events, without standalone whitespace.
    pub fn from_events(events: Vec<XmlResult>) -> (reader: XmlEventReader)
        ensures
            reader@ == significant(stream_view(events@)),
    {
        let mut kept: VecDeque<XmlResult> = VecDeque::new();
        let ghost all = stream_view(events@);
        let ghost keep = |item: ItemView| is_significant(item);
        assert(all.take(0).filter(keep) =~= Seq::<ItemView>::empty()) by {
            reveal(Seq::filter);
        }
        assert(stream_view(kept@) =~= Seq::<ItemView>::empty());
        for event in it: events
            invariant
                all == stream_view(it.seq()),
                keep == (|item: ItemView| is_significant(item)),
                stream_view(kept@) == all.take(it.index()).filter(keep),
        {
            proof {
                let i = it.index();
                assert(all[i] == item_view(event));
                assert(all.take(i + 1).drop_last() =~= all.take(i));
                reveal(Seq::filter);
            }
            let ghost before = kept@;
            if filter_whitespace_events(&event) {
                kept.push_back(event);
                assert(stream_view(kept@) =~= stream_view(before).push(item_view(event)));
            }
        }
        assert(all.take(all.len() as int) =~= all);
        XmlEventReader { events: kept }
    }

    /// Borrows the next event from the event stream without consuming it.
    pub fn peek(&self) -> (item: Option<&XmlResult>)
        ensures
            match item {
                Some(item) => self@.len() > 0 && item_view(*item) == self@[0],
                None => self@.len() == 0,
            },
    {
        if self.events.len() == 0 {
            None
        } else {
            Some(&self.events[0])
        }
    }

    /// Consumes the next event of the stream.
    pub fn next(&mut self) -> (item: Option<XmlResult>)
        ensures
            match item {
                Some(item) => {
                    &&& old(self)@.len() > 0
                    &&& item_view(item) == old(self)@[0]
                    &&& final(self)@ == old(self)@.drop_first()
                },
                None => old(self)@.len() == 0 && final(self)@ == old(self)@,
            },
    {
        let item = self.events.pop_front();
        proof {
            if old(self).events@.len() > 0 {
                assert(stream_view(self.events@) =~= stream_view(old(self).events@).drop_first());
            }
        }
        item
    }

    /// Consumes the next event, which the document owes.
    pub(crate) fn read_event(&mut self) -> (event: Result<XmlReadEvent, DecodeError>)
        ensures
            ({
                let (expected, rest) = next_event(old(self)@);
                &&& final(self)@ == rest
                &&& match event {
                    Ok(event) => expected == Ok::<EventView, ErrorView>(event@),
                    Err(error) => expected == Err::<EventView, ErrorView>(error@),
                }
            }),
    {
        match self.next() {
            None => Err(DecodeError::MalformedDocument),
            Some(Ok(event)) => Ok(event),
            Some(Err(fault)) => Err(DecodeError::from(XmlError { message: fault })),
        }
    }

    /// Consumes the next event and returns `Ok(())` if it was an opening tag
    /// with the given name, otherwise returns an error.
    pub fn expect_start_with_name(&mut self, expected_name: &str) -> (result: Result<
        (),
        DecodeError,
    >)
        ensures
            (unit_view(result), final(self)@) == opening_tag(
                old(self)@,
                expected_name@,
                "Wrong opening tag"@,
            ),
    {
        match self.read_event() {
            Ok(XmlReadEvent::StartElement(name, _)) => {
                if text_eq(name.as_str(), expected_name) {
                    Ok(())
                } else {
                    Err(DecodeError::Message("Wrong opening tag"))
                }
            },
            Ok(_) => Err(DecodeError::MalformedDocument),
            Err(error) => Err(error),
        }
    }

    /// Consumes the next event and returns `Ok(())` if it was a closing tag
    /// with the given name, otherwise returns an error.
    pub fn expect_end_with_name(&mut self, expected_name: &str) -> (result: Result<
        (),
        DecodeError,
    >)
        ensures
            (unit_view(result), final(self)@) == closing_tag(
                old(self)@,
                expected_name@,
                "Wrong closing tag"@,
            ),
    {
        match self.read_event() {
            Ok(XmlReadEvent::EndElement(name)) => {
                if text_eq(name.as_str(), expected_name) {
                    Ok(())
                } else {
                    Err(DecodeError::Message("Wrong closing tag"))
                }
            },
            Ok(_) => Err(DecodeError::MalformedDocument),
            Err(error) => Err(error),
        }
    }

    /// Reads one `Characters` or `CData` event if the next event is a
    /// `Characters` or `CData` event.
    ///
    /// If the next event in the stream is not a character event, this function
    /// will return `Ok(None)` and leave the stream untouched.
    ///
    /// This is the inner kernel of `read_characters`, which is the public
    /// version of a similar idea.
    fn read_one_characters_event(&mut self) -> (piece: Result<Option<String>, DecodeError>)
        ensures
            ({
                let stream = old(self)@;
                match piece {
                    Ok(Some(text)) => {
                        &&& stream.len() > 0
                        &&& character_data(stream[0]) == Some(text@)
                        &&& final(self)@ == stream.drop_first()
                    },
                    Ok(None) => {
                        &&& stream.len() == 0 || (stream[0] is Ok && character_data(stream[0]) is None)
                        &&& final(self)@ == stream
                    },
                    Err(error) => {
                        &&& stream.len() > 0
                        &&& stream[0] is Err
                        &&& error@ == ErrorView::XmlError(stream[0]->Err_0)
                        &&& final(self)@ == stream.drop_first()
                    },
                }
            }),
    {
        let found = match self.peek() {
            Some(Ok(XmlReadEvent::Characters(_))) => true,
            Some(Ok(XmlReadEvent::CData(_))) => true,
            Some(Ok(_)) => false,
            Some(Err(_)) => true,
            None => false,
        };
        if !found {
            return Ok(None);
        }
        match self.next() {
            Some(Ok(XmlReadEvent::Characters(value))) => Ok(Some(value)),
            Some(Ok(XmlReadEvent::CData(value))) => Ok(Some(value)),
            Some(Err(fault)) => Err(DecodeError::from(XmlError { message: fault })),
            _ => Ok(None),
        }
    }

    /// Reads a contiguous sequence of zero or more `Characters` and `CData`
    /// events from the event stream.
    ///
    /// The parser keeps `CData` apart from `Characters`, because a CDATA
    /// section that holds only whitespace is significant while standalone
    /// whitespace is not. So the pieces are joined here.
    pub fn read_characters(&mut self) -> (text: Result<String, DecodeError>)
        ensures
            (text_view(text), final(self)@) == characters(old(self)@),
    {
        let mut buffer = String::new();
        let ghost stream = self@;
        let ghost mut read: int = 0;
        assert(stream.skip(0) =~= stream);
        loop
            invariant
                stream == old(self)@,
                0 <= read <= stream.len(),
                self@ == stream.skip(read),
                run_length(stream) == read + run_length(stream.skip(read)),
                run_text(stream) =~= buffer@ + run_text(stream.skip(read)),
            ensures
                read == run_length(stream),
                read < stream.len() ==> stream[read] is Ok,
                self@ == stream.skip(read),
                buffer@ =~= run_text(stream),
            decreases stream.len() - read,
        {
            let piece = self.read_one_characters_event();
            proof {
                if read < stream.len() {
                    assert(stream.skip(read)[0] == stream[read]);
                    assert(stream.skip(read).drop_first() =~= stream.skip(read + 1));
                }
            }
            match piece {
                Ok(Some(text)) => {
                    buffer.append(text.as_str());
                    proof {
                        read = read + 1;
                    }
                },
                Ok(None) => {
                    break;
                },
                Err(error) => {
                    return Err(error);
                },
            }
        }
        Ok(buffer)
    }

    /// Reads a tag completely and returns its text content. This is intended
    /// for parsing simple tags where we don't care about the attributes or
    /// children, only the text value, for Vector3s and such, which are encoded
    /// like:
    ///
    /// <Vector3>
    ///     <X>0</X>
    ///     <Y>0</Y>
    ///     <Z>0</Z>
    /// </Vector3>
    pub fn read_tag_contents(&mut self, expected_name: &str) -> (contents: Result<
        String,
        DecodeError,
    >)
        ensures
            (text_view(contents), final(self)@) == tag_contents(old(self)@, expected_name@),
    {
        match self.read_event() {
            Ok(XmlReadEvent::StartElement(name, _)) => {
                if !text_eq(name.as_str(), expected_name) {
                    return Err(DecodeError::Message("Got wrong tag name"));
                }
            },
            Ok(_) => {
                return Err(DecodeError::MalformedDocument);
            },
            Err(error) => {
                return Err(error);
            },
        }
        match self.read_characters() {
            Err(error) => Err(error),
            Ok(contents) => match self.read_event() {
                Ok(XmlReadEvent::EndElement(_)) => Ok(contents),
                Ok(_) => Err(DecodeError::MalformedDocument),
                Err(error) => Err(error),
            },
        }
    }

    /// Consume events from the iterator until we reach the end of the next
    /// tag.
    pub fn eat_unknown_tag(&mut self) -> (result: Result<(), DecodeError>)
        ensures
            (unit_view(result), final(self)@) == skip_tag(old(self)@, 0),
    {
        let mut depth: i128 = 0;
        let ghost stream = self@;
        assert(stream.len() == self.events.len());
        loop
            invariant
                stream == old(self)@,
                skip_tag(stream, 0) == skip_tag(self@, depth as int),
                self@.len() <= stream.len() <= usize::MAX,
                -(stream.len() - self@.len()) <= depth <= stream.len() - self@.len(),
            decreases self@.len(),
        {
            match self.next() {
                None => {
                    return Err(DecodeError::Message("Unexpected EOF"));
                },
                Some(Err(fault)) => {
                    return Err(DecodeError::from(XmlError { message: fault }));
                },
                Some(Ok(XmlReadEvent::StartElement(..))) => {
                    depth += 1;
                },
                Some(Ok(XmlReadEvent::EndElement(_))) => {
                    depth -= 1;
                    if depth == 0 {
                        return Ok(());
                    }
                },
                Some(Ok(_)) => {},
            }
        }
    }
}

}
