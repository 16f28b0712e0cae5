//! The outside calls the KML reader makes, each behind a trusted wrapper
//! with a name for its result: the run of events quick-xml reads from a
//! text, with each event's payload as plain values, and std's lenient UTF-8
//! decoding of bytes. What the KML reader makes of them is verified in `kml`.

use vstd::prelude::*;
use vstd::utf8::{decode_utf8, valid_utf8};

use quick_xml::events::Event::{CData, End, Eof, Start, Text};
use quick_xml::Reader;

verus! {

/// One event quick-xml reads before the end of input, its payload as plain
/// values: a start or end tag's local name as bytes, text with its entities
/// resolved (`None` where quick-xml reports an error resolving them), a CDATA
/// section's bytes, or any other event (empty elements, comments,
/// declarations, processing instructions, doctypes).
pub enum RawEvent {
    Start(Vec<u8>),
    End(Vec<u8>),
    Text(Option<String>),
    CData(Vec<u8>),
    Other,
}

pub enum RawEventV {
    Start(Seq<u8>),
    End(Seq<u8>),
    Text(Option<Seq<char>>),
    CData(Seq<u8>),
    Other,
}

impl View for RawEvent {
    type V = RawEventV;

    open spec fn view(&self) -> RawEventV {
        match self {
            RawEvent::Start(b) => RawEventV::Start(b@),
            RawEvent::End(b) => RawEventV::End(b@),
            RawEvent::Text(t) => RawEventV::Text(
                match t {
                    Some(s) => Some(s@),
                    None => None,
                },
            ),
            RawEvent::CData(b) => RawEventV::CData(b@),
            RawEvent::Other => RawEventV::Other,
        }
    }
}

pub open spec fn raws_view(v: Seq<RawEvent>) -> Seq<RawEventV> {
    v.map_values(|r: RawEvent| r@)
}

/// What quick-xml reads from a text, with text trimmed and end tags not
/// checked against start tags: the events before the end of input or the
/// first error, and that error's message if there was one.
pub uninterp spec fn kml_raw_events(text: Seq<char>) -> (Seq<RawEventV>, Option<Seq<char>>);

/// quick-xml's `Reader::read_event`, called on a reader over `text` (made by
/// `Reader::from_str`, with `trim_text(true)` and `check_end_names(false)`)
/// until it reports the end of input or an error. Each payload is converted
/// to plain values: `local_name`, `unescape`, the CDATA bytes, the error's
/// `Display`. The run depends on the text alone; what it holds is named, not
/// stated.
#[verifier::external_body]
pub(crate) fn read_raw_events(text: &str) -> (r: (Vec<RawEvent>, Option<String>))
    ensures
        (raws_view(r.0@), match r.1 {
            Some(m) => Some(m@),
            None => None,
        }) == kml_raw_events(text@),
{
    let mut reader = Reader::from_str(text);
    reader.trim_text(true).check_end_names(false);
    let mut evs = Vec::new();
    loop {
        let ev = match reader.read_event() {
            Ok(Start(e)) => RawEvent::Start(e.local_name().as_ref().to_vec()),
            Ok(End(e)) => RawEvent::End(e.local_name().as_ref().to_vec()),
            Ok(Text(e)) => RawEvent::Text(e.unescape().ok().map(String::from)),
            Ok(CData(e)) => RawEvent::CData(e.to_vec()),
            Ok(Eof) => return (evs, None),
            Ok(_) => RawEvent::Other,
            Err(e) => return (evs, Some(e.to_string())),
        };
        evs.push(ev);
    }
}

/// What `String::from_utf8_lossy` makes of a byte sequence.
pub uninterp spec fn utf8_lossy(bytes: Seq<u8>) -> Seq<char>;

/// `String::from_utf8_lossy`: a function of the bytes alone; valid UTF-8 is
/// decoded as it stands (invalid sequences become U+FFFD, which is left
/// unstated here).
#[verifier::external_body]
pub(crate) fn from_utf8_lossy(bytes: &[u8]) -> (s: String)
    ensures
        s@ == utf8_lossy(bytes@),
        valid_utf8(bytes@) ==> s@ == decode_utf8(bytes@),
{
    String::from_utf8_lossy(bytes).into_owned()
}

} // verus!
