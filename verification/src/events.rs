//! The low-level XML event stream.
//!
//! The tokenizer collaborator (quick_xml) produces element-open events with
//! their attributes, element-close events, text events, and various other
//! events that carry no values for the flattener.  Everything it hands back
//! is turned into plain byte values here.  Parsing an in-memory slice
//! involves no I/O, time or randomness, so the stream a given input yields
//! is a function of the bytes alone; it is given the name [`tokens_of`],
//! and [`tokenize`] returns exactly that stream.
use vstd::prelude::*;

use quick_xml::events::BytesStart;
use quick_xml::events::Event;
use quick_xml::reader::Reader;

verus! {

/// One event of the stream, as plain values.  `position` is the byte
/// offset the tokenizer had reached after the event, used in diagnostics.
pub enum ParsedEvent {
    /// An element opened, with its attributes as (name, raw value) pairs in
    /// document order.
    Start { name: Vec<u8>, attrs: Vec<(Vec<u8>, Vec<u8>)> },
    /// An element closed.
    End { name: Vec<u8>, position: usize },
    /// Raw text content, entities still escaped.
    Text { raw: Vec<u8>, position: usize },
    /// A comment, declaration, doctype, processing instruction, CDATA or
    /// self-closing element: carries no value for the flattener.  That a
    /// self-closing element's attributes fall here, recorded nowhere, is a
    /// deliberate choice of the event model.
    Other,
    /// Clean end of the document.
    Eof,
    /// The tokenizer reported invalid markup at this byte position; no
    /// further events follow.
    Malformed { position: usize },
}

/// The mathematical content of an event.
pub enum EventModel {
    Start { name: Seq<u8>, attrs: Seq<(Seq<u8>, Seq<u8>)> },
    End { name: Seq<u8>, position: int },
    Text { raw: Seq<u8>, position: int },
    Other,
    Eof,
    Malformed { position: int },
}

/// The content of an exec event.
pub open spec fn model_of(e: ParsedEvent) -> EventModel {
    match e {
        ParsedEvent::Start { name, attrs } => EventModel::Start {
            name: name@,
            attrs: attrs.deep_view(),
        },
        ParsedEvent::End { name, position } => EventModel::End {
            name: name@,
            position: position as int,
        },
        ParsedEvent::Text { raw, position } => EventModel::Text {
            raw: raw@,
            position: position as int,
        },
        ParsedEvent::Other => EventModel::Other,
        ParsedEvent::Eof => EventModel::Eof,
        ParsedEvent::Malformed { position } => EventModel::Malformed {
            position: position as int,
        },
    }
}

/// Whether an event ends the stream.
pub open spec fn is_terminal(m: EventModel) -> bool {
    m is Eof || m is Malformed
}

/// A well-formed event stream: non-empty, ends with its one terminal event.
pub open spec fn terminated(evs: Seq<EventModel>) -> bool {
    &&& evs.len() > 0
    &&& is_terminal(evs.last())
    &&& forall|i: int| 0 <= i < evs.len() - 1 ==> !is_terminal(#[trigger] evs[i])
}

/// The event stream the tokenizer yields for a byte input, up to and
/// including its first terminal event — end of document or first failure.
/// Parsing an in-memory slice is deterministic, so this is a function of
/// the bytes alone.
pub uninterp spec fn tokens_of(input: Seq<u8>) -> Seq<EventModel>;

/// The part of its event stream that a reader has not yet handed out.
pub uninterp spec fn reader_pending(r: Reader<&[u8]>) -> Seq<EventModel>;

/// The byte offset a reader has reached.
pub uninterp spec fn reader_offset(r: Reader<&[u8]>) -> int;

/// The raw bytes of the name of an element-open payload.
pub uninterp spec fn start_name_of(e: BytesStart<'static>) -> Seq<u8>;

/// The attributes of an element-open payload, as (name, raw value) pairs
/// in document order, or `None` when their markup is invalid.
pub uninterp spec fn start_attrs_of(e: BytesStart<'static>) -> Option<Seq<(Seq<u8>, Seq<u8>)>>;

#[verifier::external_type_specification]
#[verifier::external_body]
#[verifier::reject_recursive_types(R)]
pub struct ExReader<R>(Reader<R>);

#[verifier::external_type_specification]
#[verifier::external_body]
pub struct ExBytesStart<'a>(BytesStart<'a>);

/// One event as the tokenizer hands it out, the element-open payload still
/// in the tokenizer's own representation.
enum RawEvent {
    Start(BytesStart<'static>),
    End { name: Vec<u8>, position: usize },
    Text { raw: Vec<u8>, position: usize },
    Other,
    Eof,
    Malformed { position: usize },
}

/// Whether a raw event is the stream event `m`, for a reader left in state
/// `r2` after handing it out.  An element-open payload whose attribute
/// markup is invalid stands for the failure event at the reader's offset.
spec fn raw_matches(ev: RawEvent, m: EventModel, r2: Reader<&[u8]>) -> bool {
    match ev {
        RawEvent::Start(e) => match start_attrs_of(e) {
            Some(attrs) => m == (EventModel::Start { name: start_name_of(e), attrs }),
            None => m == (EventModel::Malformed { position: reader_offset(r2) }),
        },
        RawEvent::End { name, position } => m == (EventModel::End {
            name: name@,
            position: position as int,
        }),
        RawEvent::Text { raw, position } => m == (EventModel::Text {
            raw: raw@,
            position: position as int,
        }),
        RawEvent::Other => m == EventModel::Other,
        RawEvent::Eof => m == EventModel::Eof,
        RawEvent::Malformed { position } => m == (EventModel::Malformed {
            position: position as int,
        }),
    }
}

/// Relies on `quick_xml::reader::Reader::from_reader`: a fresh XML parser
/// over an in-memory byte slice, with the default configuration.  What it
/// will yield is a function of the bytes alone; reading makes progress
/// through the finite input, so the stream ends with one end-of-document
/// or failure event.
#[verifier::external_body]
fn reader_from_bytes<'a>(input: &'a [u8]) -> (r: Reader<&'a [u8]>)
    ensures
        reader_pending(r) == tokens_of(input@),
        terminated(reader_pending(r)),
{
    Reader::from_reader(input)
}

/// Relies on `quick_xml`'s `Reader::read_event_into` for the next event
/// and `Reader::buffer_position` for the offsets: the head of the reader's
/// pending stream is handed out and consumed.  An element-open payload is
/// returned whole, to be read through `start_name` and `start_attrs`; when
/// its attribute markup is invalid the stream's event is the failure event
/// at the reader's new offset.
#[verifier::external_body]
fn read_next_event(r: &mut Reader<&[u8]>) -> (ev: RawEvent)
    ensures
        reader_pending(*old(r)).len() > 0 ==> {
            &&& raw_matches(ev, reader_pending(*old(r))[0], *final(r))
            &&& reader_pending(*final(r)) == reader_pending(*old(r)).drop_first()
        },
{
    let mut buf: Vec<u8> = Vec::new();
    match r.read_event_into(&mut buf) {
        Err(_) => RawEvent::Malformed { position: r.buffer_position() },
        Ok(Event::Eof) => RawEvent::Eof,
        Ok(Event::Start(e)) => RawEvent::Start(e.into_owned()),
        Ok(Event::End(e)) => RawEvent::End {
            name: e.name().0.to_vec(),
            position: r.buffer_position(),
        },
        Ok(Event::Text(e)) => RawEvent::Text { raw: e.to_vec(), position: r.buffer_position() },
        Ok(_) => RawEvent::Other,
    }
}

/// Relies on `quick_xml`'s `BytesStart::name`: the raw bytes of the
/// element's name.
#[verifier::external_body]
fn start_name(e: &BytesStart<'static>) -> (name: Vec<u8>)
    ensures
        name@ == start_name_of(*e),
{
    e.name().0.to_vec()
}

/// Relies on `quick_xml`'s `BytesStart::attributes` iterator and the `key`
/// and `value` fields of `Attribute`: the element's attributes as (name,
/// raw value) pairs in document order, or `None` when the tokenizer reports
/// the attribute markup itself as invalid.
#[verifier::external_body]
fn start_attrs(e: &BytesStart<'static>) -> (attrs: Option<Vec<(Vec<u8>, Vec<u8>)>>)
    ensures
        attrs is Some <==> start_attrs_of(*e) is Some,
        attrs matches Some(v) ==> start_attrs_of(*e) == Some(v.deep_view()),
{
    let mut out: Vec<(Vec<u8>, Vec<u8>)> = Vec::new();
    for a in e.attributes() {
        match a {
            Ok(a) => out.push((a.key.0.to_vec(), a.value.to_vec())),
            Err(_) => return None,
        }
    }
    Some(out)
}

/// Relies on `quick_xml`'s `Reader::buffer_position`: the byte offset the
/// parser has reached, used in diagnostics.
#[verifier::external_body]
fn reader_position(r: &Reader<&[u8]>) -> (p: usize)
    ensures
        p as int == reader_offset(*r),
{
    r.buffer_position()
}

/// Reads the whole event stream of `input`: exactly the stream the
/// tokenizer yields for these bytes, whose one terminal event — clean end
/// of document or first tokenizer failure — comes last.
pub fn tokenize(input: &[u8]) -> (events: Vec<ParsedEvent>)
    ensures
        events@.map_values(|e: ParsedEvent| model_of(e)) == tokens_of(input@),
        terminated(events@.map_values(|e: ParsedEvent| model_of(e))),
{
    let ghost toks = tokens_of(input@);
    let mut r = reader_from_bytes(input);
    let mut events: Vec<ParsedEvent> = Vec::new();
    proof {
        assert(toks.skip(0) =~= toks);
        assert(toks.take(0) =~= events@.map_values(|e: ParsedEvent| model_of(e)));
    }
    loop
        invariant_except_break
            terminated(toks),
            toks == tokens_of(input@),
            events@.len() < toks.len(),
            events@.map_values(|e: ParsedEvent| model_of(e)) == toks.take(events@.len() as int),
            reader_pending(r) == toks.skip(events@.len() as int),
        ensures
            events@.map_values(|e: ParsedEvent| model_of(e)) == toks,
        decreases toks.len() - events@.len(),
    {
        let ghost i = events@.len() as int;
        let ghost pending = toks.skip(i);
        let ghost prefix = events@.map_values(|e: ParsedEvent| model_of(e));
        proof {
            assert(pending.len() > 0);
            assert(pending[0] == toks[i]);
            assert(pending.drop_first() =~= toks.skip(i + 1));
        }
        let ev = read_next_event(&mut r);
        match ev {
            RawEvent::Eof => {
                events.push(ParsedEvent::Eof);
                proof {
                    assert(is_terminal(toks[i]));
                    assert(i == toks.len() - 1);
                    assert(events@.map_values(|e: ParsedEvent| model_of(e)) =~= prefix.push(
                        toks[i],
                    ));
                    assert(prefix.push(toks[i]) =~= toks);
                }
                break ;
            },
            RawEvent::Malformed { position } => {
                events.push(ParsedEvent::Malformed { position });
                proof {
                    assert(is_terminal(toks[i]));
                    assert(i == toks.len() - 1);
                    assert(events@.map_values(|e: ParsedEvent| model_of(e)) =~= prefix.push(
                        toks[i],
                    ));
                    assert(prefix.push(toks[i]) =~= toks);
                }
                break ;
            },
            RawEvent::Start(e) => {
                let name = start_name(&e);
                match start_attrs(&e) {
                    Some(attrs) => {
                        events.push(ParsedEvent::Start { name, attrs });
                        proof {
                            assert(!is_terminal(toks[i]));
                            assert(i != toks.len() - 1);
                            assert(events@.map_values(|e: ParsedEvent| model_of(e)) =~= toks.take(
                                i + 1,
                            ));
                        }
                    },
                    None => {
                        let position = reader_position(&r);
                        events.push(ParsedEvent::Malformed { position });
                        proof {
                            assert(is_terminal(toks[i]));
                            assert(i == toks.len() - 1);
                            assert(events@.map_values(|e: ParsedEvent| model_of(e)) =~= prefix.push(
                                toks[i],
                            ));
                            assert(prefix.push(toks[i]) =~= toks);
                        }
                        break ;
                    },
                }
            },
            RawEvent::End { name, position } => {
                events.push(ParsedEvent::End { name, position });
                proof {
                    assert(!is_terminal(toks[i]));
                    assert(i != toks.len() - 1);
                    assert(events@.map_values(|e: ParsedEvent| model_of(e)) =~= toks.take(i + 1));
                }
            },
            RawEvent::Text { raw, position } => {
                events.push(ParsedEvent::Text { raw, position });
                proof {
                    assert(!is_terminal(toks[i]));
                    assert(i != toks.len() - 1);
                    assert(events@.map_values(|e: ParsedEvent| model_of(e)) =~= toks.take(i + 1));
                }
            },
            RawEvent::Other => {
                events.push(ParsedEvent::Other);
                proof {
                    assert(!is_terminal(toks[i]));
                    assert(i != toks.len() - 1);
                    assert(events@.map_values(|e: ParsedEvent| model_of(e)) =~= toks.take(i + 1));
                }
            },
        }
    }
    events
}

} // verus!
