use vstd::prelude::*;
use xml::common::Position;
use xml::reader::{ErrorKind, EventReader, XmlEvent as XE};
use crate::events::{events_view, is_terminal, read_view, EventView, ReadErrorKind, XmlAttribute, XmlEvent};

verus! {

/// The results that the `xml` crate's pull parser hands out for a document,
/// up to and including the first end of document or failure.
pub uninterp spec fn xml_events(doc: Seq<u8>) -> Seq<Result<EventView, ReadErrorKind>>;

/// An event with the attributes of a start element left out.
pub open spec fn strip_attributes(e: Result<EventView, ReadErrorKind>) -> Result<EventView, ReadErrorKind> {
    match e {
        Ok(EventView::StartElement { name, .. }) => Ok(
            EventView::StartElement { name, attributes: Seq::empty() },
        ),
        _ => e,
    }
}

/// The attribute lists of the start elements among some events, in order.
pub open spec fn start_attributes(evs: Seq<Result<EventView, ReadErrorKind>>) -> Seq<Seq<XmlAttribute>>
    decreases evs.len(),
{
    if evs.len() == 0 {
        Seq::empty()
    } else {
        let before = start_attributes(evs.drop_last());
        match evs.last() {
            Ok(EventView::StartElement { attributes, .. }) => before.push(attributes),
            _ => before,
        }
    }
}

/// Trusted: iterates the `xml` crate's `EventReader` over the document.
/// Its iterator hands out events up to and including the first end of
/// document or failure, and stops there (the parser would repeat that
/// result forever). Each event is converted one for one: element names to
/// their local names, the events no reader acts on (start of document,
/// processing instructions, CDATA, comments, white space) to `Other`, an
/// error to whether it is an unexpected end of input. Attributes are left
/// out here and given by `parse_attributes`. Which events come for given
/// bytes is the parser's business, left to the name `xml_events`.
#[verifier::external_body]
fn parse_events(doc: &[u8]) -> (r: Vec<Result<XmlEvent, ReadErrorKind>>)
    ensures
        events_view(r@) == xml_events(doc@).map_values(
            |e: Result<EventView, ReadErrorKind>| strip_attributes(e),
        ),
        r@.len() > 0,
        is_terminal(events_view(r@).last()),
        forall|i: int| 0 <= i < r@.len() - 1 ==> !is_terminal(#[trigger] events_view(r@)[i]),
{
    let mut out = Vec::new();
    for r in EventReader::new(doc) {
        out.push(match r {
            Ok(XE::StartElement { name, .. }) => Ok(XmlEvent::StartElement { name: name.local_name, attributes: Vec::new() }),
            Ok(XE::EndElement { name }) => Ok(XmlEvent::EndElement { name: name.local_name }),
            Ok(XE::Characters(text)) => Ok(XmlEvent::Characters(text)),
            Ok(XE::EndDocument) => Ok(XmlEvent::EndDocument),
            Ok(_) => Ok(XmlEvent::Other),
            Err(e) if e.kind() == &ErrorKind::UnexpectedEof => Err(ReadErrorKind::UnexpectedEof),
            Err(_) => Err(ReadErrorKind::Failed),
        });
    }
    out
}

/// Trusted: iterates the `xml` crate's `EventReader` over the document as
/// `parse_events` does and gives the attributes of each start element, in
/// order, each attribute converted one for one to its local name,
/// namespace URI, prefix and value.
#[verifier::external_body]
fn parse_attributes(doc: &[u8]) -> (r: Vec<Vec<XmlAttribute>>)
    ensures
        r@.map_values(|v: Vec<XmlAttribute>| v@) == start_attributes(xml_events(doc@)),
{
    let mut out = Vec::new();
    for r in EventReader::new(doc) {
        if let Ok(XE::StartElement { attributes, .. }) = r {
            out.push(attributes.into_iter().map(|a| XmlAttribute { name: a.name.local_name, namespace: a.name.namespace, prefix: a.name.prefix, value: a.value }).collect());
        }
    }
    out
}

/// Where the parser places the failure a document ends with (row and
/// column, counted from 0), as `Error::position` gives it.
pub uninterp spec fn xml_failure_position(doc: Seq<u8>) -> (u64, u64);

/// The message of the failure a document ends with, as `Error::msg` gives
/// it.
pub uninterp spec fn xml_failure_message(doc: Seq<u8>) -> Seq<char>;

/// Trusted: iterates the `xml` crate's `EventReader` over the document and
/// gives back the error it ends with, as the parser made it, if it ends
/// with one, with its position and message.
#[verifier::external_body]
pub(crate) fn parse_failure(doc: &[u8]) -> (r: Option<(xml::reader::Error, u64, u64, String)>)
    ensures
        r is Some <==> (xml_events(doc@).len() > 0 && xml_events(doc@).last() is Err),
        r matches Some((_, row, column, message)) ==> (row, column) == xml_failure_position(doc@)
            && message@ == xml_failure_message(doc@),
{
    match EventReader::new(doc).into_iter().last() {
        Some(Err(e)) => {
            let (p, m) = (e.position(), e.msg().to_string());
            Some((e, p.row, p.column, m))
        },
        _ => None,
    }
}

proof fn lemma_start_attributes_concat(a: Seq<Result<EventView, ReadErrorKind>>, b: Seq<Result<EventView, ReadErrorKind>>)
    ensures
        start_attributes(a + b) == start_attributes(a) + start_attributes(b),
    decreases b.len(),
{
    if b.len() == 0 {
        assert(a + b == a);
        assert(start_attributes(a) + start_attributes(b) == start_attributes(a));
    } else {
        lemma_start_attributes_concat(a, b.drop_last());
        assert((a + b).drop_last() == a + b.drop_last());
        assert((a + b).last() == b.last());
        match b.last() {
            Ok(EventView::StartElement { attributes, .. }) => {
                assert(start_attributes(a) + start_attributes(b.drop_last()).push(attributes) == (
                start_attributes(a) + start_attributes(b.drop_last())).push(attributes));
            },
            _ => {},
        }
    }
}

proof fn lemma_start_attributes_step(evs: Seq<Result<EventView, ReadErrorKind>>, i: int)
    requires
        0 <= i < evs.len(),
    ensures
        start_attributes(evs.skip(i)) == start_attributes(seq![evs[i]]) + start_attributes(evs.skip(i + 1)),
        start_attributes(seq![evs[i]]) == (match evs[i] {
            Ok(EventView::StartElement { attributes, .. }) => seq![attributes],
            _ => Seq::<Seq<XmlAttribute>>::empty(),
        }),
{
    assert(evs.skip(i) == seq![evs[i]] + evs.skip(i + 1));
    lemma_start_attributes_concat(seq![evs[i]], evs.skip(i + 1));
    let one = seq![evs[i]];
    assert(one.drop_last() == Seq::<Result<EventView, ReadErrorKind>>::empty());
    assert(one.last() == evs[i]);
    assert(start_attributes(one.drop_last()) == Seq::<Seq<XmlAttribute>>::empty());
    match evs[i] {
        Ok(EventView::StartElement { attributes, .. }) => {
            assert(Seq::<Seq<XmlAttribute>>::empty().push(attributes) == seq![attributes]);
        },
        _ => {},
    }
}

/// The events that the `xml` crate's pull parser hands out for a document,
/// with their attributes, up to and including the first end of document or
/// failure, which is the last of them.
pub fn document_events(doc: &[u8]) -> (r: Vec<Result<XmlEvent, ReadErrorKind>>)
    ensures
        events_view(r@) == xml_events(doc@),
        r@.len() > 0,
        is_terminal(events_view(r@).last()),
        forall|i: int| 0 <= i < r@.len() - 1 ==> !is_terminal(#[trigger] events_view(r@)[i]),
{
    let events = parse_events(doc);
    let mut attrs = parse_attributes(doc);
    let ghost full = xml_events(doc@);
    let ghost stripped = events_view(events@);
    let ghost a0 = attrs@;
    let n = attrs.len();
    let mut rev: Vec<Vec<XmlAttribute>> = Vec::new();
    while attrs.len() > 0
        invariant
            a0.len() == n,
            attrs.len() + rev.len() == n,
            forall|j: int| 0 <= j < attrs.len() ==> attrs@[j] == a0[j],
            forall|j: int| 0 <= j < rev.len() ==> #[trigger] rev@[j] == a0[n - 1 - j],
        decreases attrs.len(),
    {
        let a = attrs.pop().unwrap();
        rev.push(a);
    }
    proof {
        assert(full.skip(0) == full);
        assert(a0.map_values(|v: Vec<XmlAttribute>| v@) == start_attributes(full));
    }
    let mut out: Vec<Result<XmlEvent, ReadErrorKind>> = Vec::new();
    let ghost raw = events@;
    assert(full.len() == raw.len());
    for ev in it: events.into_iter()
        invariant
            it.seq() == raw,
            full.len() == raw.len(),
            stripped == events_view(raw),
            stripped == full.map_values(|e: Result<EventView, ReadErrorKind>| strip_attributes(e)),
            events_view(out@) == full.take(it.index() as int),
            rev.len() == start_attributes(full.skip(it.index() as int)).len(),
            forall|m: int| 0 <= m < rev.len() ==> #[trigger] rev@[rev.len() - 1 - m]@ == start_attributes(
                full.skip(it.index() as int),
            )[m],
    {
        let ghost i = it.index() as int;
        let ghost rs = start_attributes(full.skip(i));
        proof {
            lemma_start_attributes_step(full, i);
            assert(stripped[i] == read_view(ev));
            assert(stripped[i] == strip_attributes(full[i]));
            assert(full.take(i + 1) == full.take(i).push(full[i]));
        }
        match ev {
            Ok(XmlEvent::StartElement { name, .. }) => {
                proof {
                    assert(full[i] is Ok && full[i]->Ok_0 is StartElement);
                    assert(start_attributes(seq![full[i]]).len() == 1);
                    assert(rs.len() > 0);
                }
                let ghost old_rev = rev@;
                proof {
                    assert(old_rev[old_rev.len() - 1 - 0]@ == rs[0]);
                }
                let attributes = rev.pop().unwrap();
                proof {
                    assert(attributes@ == rs[0]);
                    assert forall|m: int| 0 <= m < rev.len() implies #[trigger] rev@[rev.len() - 1 - m]@
                        == start_attributes(full.skip(i + 1))[m] by {
                        assert(rev@[rev.len() - 1 - m] == old_rev[old_rev.len() - 1 - (m + 1)]);
                        assert(rs[m + 1] == start_attributes(full.skip(i + 1))[m]);
                    }
                }
                out.push(Ok(XmlEvent::StartElement { name, attributes }));
                proof {
                    assert(events_view(out@) == events_view(out@).drop_last().push(read_view(out@.last())));
                }
            },
            other => {
                out.push(other);
                proof {
                    assert(rs == start_attributes(full.skip(i + 1)));
                }
            },
        }
        proof {
            assert(events_view(out@) =~= full.take(i + 1));
        }
    }
    proof {
        assert(full.take(full.len() as int) == full);
        assert(events_view(out@) == full);
        assert forall|i: int| 0 <= i < full.len() implies is_terminal(#[trigger] full[i]) == is_terminal(
            stripped[i],
        ) by {
            assert(stripped[i] == strip_attributes(full[i]));
        }
        assert(is_terminal(full[full.len() - 1]) == is_terminal(stripped[full.len() - 1]));
    }
    out
}

}
