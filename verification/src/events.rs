use vstd::prelude::*;

verus! {

/// An attribute of an element: its local name, namespace URI, prefix and
/// value.
#[derive(Clone, Debug, PartialEq, Eq)]
pub struct XmlAttribute {
    pub name: String,
    pub namespace: Option<String>,
    pub prefix: Option<String>,
    pub value: String,
}

/// One event of a pull parser over an XML document, as the readers take
/// it: element names are local names, and the events that no reader acts
/// on (start of document, processing instructions, CDATA, comments, white
/// space) are all `Other`.
#[derive(Clone, Debug, PartialEq, Eq)]
pub enum XmlEvent {
    StartElement { name: String, attributes: Vec<XmlAttribute> },
    EndElement { name: String },
    Characters(String),
    EndDocument,
    Other,
}

/// What kind of failure the parser reported in place of an event.
#[derive(Clone, Copy, Debug, PartialEq, Eq)]
pub enum ReadErrorKind {
    /// The document ended while elements were still open.
    UnexpectedEof,
    /// Any other failure: the document is not well-formed, or could not be
    /// read or decoded.
    Failed,
}

/// What a reader fed one parser event does next.
#[derive(Clone, Debug, PartialEq, Eq)]
pub enum Advance<T> {
    /// Nothing to hand out yet: feed the next event.
    Continue,
    /// An entry is complete.
    Yield(T),
    /// The stream of entries is over.
    End,
    /// The parser failed; its error is what the stream hands out.
    Error,
}

/// The parts of a parser event that the readers look at.
pub enum EventView {
    StartElement { name: Seq<char>, attributes: Seq<XmlAttribute> },
    EndElement { name: Seq<char> },
    Characters(Seq<char>),
    EndDocument,
    Other,
}

impl View for XmlEvent {
    type V = EventView;

    open spec fn view(&self) -> EventView {
        match self {
            XmlEvent::StartElement { name, attributes } => EventView::StartElement {
                name: name@,
                attributes: attributes@,
            },
            XmlEvent::EndElement { name } => EventView::EndElement { name: name@ },
            XmlEvent::Characters(s) => EventView::Characters(s@),
            XmlEvent::EndDocument => EventView::EndDocument,
            XmlEvent::Other => EventView::Other,
        }
    }
}

/// A parser result as the readers see it.
pub open spec fn read_view(r: Result<XmlEvent, ReadErrorKind>) -> Result<EventView, ReadErrorKind> {
    match r {
        Ok(e) => Ok(e@),
        Err(k) => Err(k),
    }
}

impl<T: View> View for Advance<T> {
    type V = Advance<T::V>;

    open spec fn view(&self) -> Advance<T::V> {
        match self {
            Advance::Continue => Advance::Continue,
            Advance::Yield(t) => Advance::Yield(t@),
            Advance::End => Advance::End,
            Advance::Error => Advance::Error,
        }
    }
}

/// The view of an optional string.
pub open spec fn opt_chars(s: Option<String>) -> Option<Seq<char>> {
    match s {
        Some(t) => Some(t@),
        None => None,
    }
}

/// The view of an optional list of attributes.
pub open spec fn opt_attrs(a: Option<Vec<XmlAttribute>>) -> Option<Seq<XmlAttribute>> {
    match a {
        Some(v) => Some(v@),
        None => None,
    }
}

/// The lowercase form of a string, as `str::to_lowercase` computes it from
/// the Unicode case tables.
pub uninterp spec fn unicode_lowercase(s: Seq<char>) -> Seq<char>;

/// Trusted: `str::to_lowercase`. Its result is a function of the string
/// alone; what it is on given characters (the Unicode lowercase mapping)
/// is left to the name `unicode_lowercase`.
#[verifier::external_body]
pub(crate) fn to_lowercase(s: &str) -> (r: String)
    ensures
        r@ == unicode_lowercase(s@),
{
    s.to_lowercase()
}

/// The names of the elements left open by a run of events, outermost
/// first: an opening element is pushed, a closing one pops the innermost.
pub open spec fn open_names(evs: Seq<Result<EventView, ReadErrorKind>>) -> Seq<Seq<char>>
    decreases evs.len(),
{
    if evs.len() == 0 {
        Seq::empty()
    } else {
        let before = open_names(evs.drop_last());
        match evs.last() {
            Ok(EventView::StartElement { name, .. }) => before.push(name),
            Ok(EventView::EndElement { .. }) => if before.len() > 0 {
                before.drop_last()
            } else {
                before
            },
            _ => before,
        }
    }
}

/// An event after which a parser hands out nothing new: the end of the
/// document, or a failure.
pub open spec fn is_terminal(e: Result<EventView, ReadErrorKind>) -> bool {
    (e matches Ok(EventView::EndDocument)) || e is Err
}

/// The views of a list of parser results.
pub open spec fn events_view(v: Seq<Result<XmlEvent, ReadErrorKind>>) -> Seq<Result<EventView, ReadErrorKind>> {
    v.map_values(|e: Result<XmlEvent, ReadErrorKind>| read_view(e))
}

/// The error value of the `xml` crate's reader.
#[verifier::external_type_specification]
#[verifier::external_body]
pub struct ExXmlError(xml::reader::Error);

/// How a stream of entries read from a document ends.
#[derive(Debug)]
pub enum StreamEnd {
    /// The stream is over.
    Finished,
    /// The parser failed: the stream hands out this error, and hands it out
    /// again whenever it is asked for more.
    Failed { error: xml::reader::Error, row: u64, column: u64, message: String },
    /// The parser has nothing new to say, yet the stream never ends.
    Endless,
}

/// Whether a stream end reports the parser's failure at the given row and
/// column (counted from 0) with the given message; trivially so for an end
/// that is no failure.
pub open spec fn failure_matches(e: StreamEnd, row: u64, column: u64, message: Seq<char>) -> bool {
    match e {
        StreamEnd::Failed { row: r, column: c, message: m, .. } => r == row && c == column && m@ == message,
        _ => true,
    }
}

/// The outcome that a stream end stands for.
pub open spec fn end_advance(e: StreamEnd) -> Advance<()> {
    match e {
        StreamEnd::Finished => Advance::End,
        StreamEnd::Failed { .. } => Advance::Error,
        StreamEnd::Endless => Advance::Continue,
    }
}

/// Whether every closing element in a run closes an open one.
pub open spec fn well_nested(evs: Seq<Result<EventView, ReadErrorKind>>) -> bool {
    forall|i: int|
        0 <= i < evs.len() && (#[trigger] evs[i] matches Ok(EventView::EndElement { .. })) ==> open_names(
            evs.take(i),
        ).len() > 0
}

/// Whether no element opens while `u32::MAX` elements are open.
pub open spec fn depth_fits(evs: Seq<Result<EventView, ReadErrorKind>>) -> bool {
    forall|i: int|
        0 <= i < evs.len() && (#[trigger] evs[i] matches Ok(EventView::StartElement { .. })) ==> open_names(
            evs.take(i),
        ).len() < u32::MAX
}

}
