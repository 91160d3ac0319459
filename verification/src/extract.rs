//! Text extraction: from the bytes of a markup document to the text that it holds.
use vstd::prelude::*;

verus! {

/// The failure of the markup parser on one document.
#[verifier::external_type_specification]
#[verifier::external_body]
pub struct ExMarkupError(xml::reader::Error);

/// What the markup parser yields for a document, event by event: for an event of
/// character data its text, for any other event `None`. The whole is `None` where
/// the parser fails on the document.
pub uninterp spec fn markup_events(bytes: Seq<u8>) -> Option<Seq<Option<Seq<char>>>>;

/// Runs `xml::reader::EventReader` with its default configuration over `bytes` and
/// collects its events up to the end of the document, keeping of each event only
/// the text of a `Characters` event. The parser reads nothing but `bytes`, so its
/// events are a function of them. The first error ends the run and is returned.
#[verifier::external_body]
fn read_events(bytes: &[u8]) -> (r: Result<Vec<Option<String>>, xml::reader::Error>)
    ensures
        match r {
            Ok(events) => markup_events(bytes@) == Some(events.deep_view()),
            Err(_) => markup_events(bytes@) is None,
        },
{
    let mut events = Vec::new();
    for event in xml::reader::EventReader::new(bytes) {
        match event? {
            xml::reader::XmlEvent::Characters(text) => events.push(Some(text)),
            _ => events.push(None),
        }
    }
    Ok(events)
}

/// The message of `xml::reader::Error`, as its `Display` writes it: the position in
/// the document and the reason.
#[verifier::external_body]
fn error_message(error: &xml::reader::Error) -> (message: String) {
    error.to_string()
}

/// Why no text could be had from a document.
#[derive(Debug)]
pub enum ExtractError {
    /// The document could not be read; the message says why.
    Unreadable(String),
    /// The document is not well-formed markup; the message says where and why.
    Malformed(String),
}

impl ExtractError {
    /// The message of the failure.
    pub fn message(&self) -> (message: &String)
        ensures
            *message == match *self {
                ExtractError::Unreadable(m) => m,
                ExtractError::Malformed(m) => m,
            },
    {
        match self {
            ExtractError::Unreadable(m) => m,
            ExtractError::Malformed(m) => m,
        }
    }
}

/// The pieces of text among the events: the texts of the events that carry one, in
/// their order.
pub open spec fn pieces(events: Seq<Option<Seq<char>>>) -> Seq<Seq<char>>
    decreases events.len(),
{
    if events.len() == 0 {
        Seq::empty()
    } else {
        match events.last() {
            Some(text) => pieces(events.drop_last()).push(text),
            None => pieces(events.drop_last()),
        }
    }
}

/// The pieces in their order, with exactly one space between each piece and the
/// next: no space stands before the first piece or behind the last.
pub open spec fn joined(pieces: Seq<Seq<char>>) -> Seq<char>
    decreases pieces.len(),
{
    if pieces.len() == 0 {
        Seq::empty()
    } else if pieces.len() == 1 {
        pieces[0]
    } else {
        joined(pieces.drop_last()).push(' ') + pieces.last()
    }
}

/// The text of a sequence of events: its pieces of text, separated by single spaces.
pub open spec fn joined_text(events: Seq<Option<Seq<char>>>) -> Seq<char> {
    joined(pieces(events))
}

/// The text of the given events: all character data in its order, with one space
/// between each piece and the next.
pub fn collect_text(events: &Vec<Option<String>>) -> (text: String)
    ensures
        text@ == joined_text(events.deep_view()),
{
    let mut text = String::new();
    let mut first = true;
    let mut i: usize = 0;
    while i < events.len()
        invariant
            i <= events@.len(),
            text@ == joined_text(events.deep_view().take(i as int)),
            first == (pieces(events.deep_view().take(i as int)).len() == 0),
        decreases events@.len() - i,
    {
        proof {
            let now = events.deep_view().take(i + 1);
            assert(now.drop_last() =~= events.deep_view().take(i as int));
            assert(now.last() == events@[i as int].deep_view());
            let before = pieces(now.drop_last());
            if let Some(piece) = now.last() {
                assert(before.push(piece).drop_last() =~= before);
            }
        }
        match &events[i] {
            Some(piece) => {
                if !first {
                    text.push(' ');
                }
                text.append(piece.as_str());
                first = false;
            },
            None => {},
        }
        i += 1;
    }
    proof {
        assert(events.deep_view().take(i as int) =~= events.deep_view());
    }
    text
}

/// The text of a markup document: its pieces of character data in document order,
/// separated by single spaces. Markup that is not character data adds nothing. A
/// document that the parser refuses gives `ExtractError::Malformed`.
pub fn extract_text(bytes: &[u8]) -> (r: Result<String, ExtractError>)
    ensures
        match markup_events(bytes@) {
            Some(events) => r matches Ok(text) && text@ == joined_text(events),
            None => r matches Err(ExtractError::Malformed(_)),
        },
{
    match read_events(bytes) {
        Ok(events) => Ok(collect_text(&events)),
        Err(error) => Err(ExtractError::Malformed(error_message(&error))),
    }
}

} // verus!
