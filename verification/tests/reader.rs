use pies::events::{Advance, ReadErrorKind, XmlAttribute, XmlEvent};
use pies::reader::{PiesEntry, PiesState, Segment};

fn attr(n: &str, v: &str) -> XmlAttribute {
    XmlAttribute { name: n.to_string(), namespace: None, prefix: None, value: v.to_string() }
}

fn start(n: &str, attrs: Vec<XmlAttribute>) -> Result<XmlEvent, ReadErrorKind> {
    Ok(XmlEvent::StartElement { name: n.to_string(), attributes: attrs })
}

fn end(n: &str) -> Result<XmlEvent, ReadErrorKind> {
    Ok(XmlEvent::EndElement { name: n.to_string() })
}

fn text(t: &str) -> Result<XmlEvent, ReadErrorKind> {
    Ok(XmlEvent::Characters(t.to_string()))
}

fn entry(
    tag: &str,
    item_num: Option<u32>,
    parent: &str,
    segment: &str,
    attributes: Option<Vec<XmlAttribute>>,
    value: Option<&str>,
) -> PiesEntry {
    PiesEntry {
        tag: tag.to_string(),
        item_num,
        parent: parent.to_string(),
        segment: segment.to_string(),
        attributes,
        value: value.map(|v| v.to_string()),
    }
}

/// Feeds events and collects what comes out, stopping at the end of the stream.
fn run(events: Vec<Result<XmlEvent, ReadErrorKind>>) -> (Vec<PiesEntry>, Advance<PiesEntry>) {
    let mut state = PiesState::new();
    let mut out = Vec::new();
    for ev in events {
        match state.try_step(ev).expect("event accepted") {
            Advance::Continue => {}
            Advance::Yield(e) => out.push(e),
            other => return (out, other),
        }
    }
    (out, Advance::Continue)
}

fn document() -> Vec<Result<XmlEvent, ReadErrorKind>> {
    vec![
        Ok(XmlEvent::Other),
        start("PIES", vec![]),
        Ok(XmlEvent::Other),
        start("Header", vec![]),
        start("PIESVersion", vec![]),
        text("6.5"),
        end("PIESVersion"),
        end("Header"),
        start("PriceSheets", vec![]),
        start("PriceSheet", vec![attr("MaintenanceType", "A")]),
        start("PriceSheetName", vec![]),
        text("Retail"),
        end("PriceSheetName"),
        end("PriceSheet"),
        end("PriceSheets"),
        start("MarketingCopy", vec![]),
        end("MarketingCopy"),
        start("Items", vec![]),
        start("Item", vec![attr("MaintenanceType", "A")]),
        start("PartNumber", vec![]),
        text("P-1"),
        end("PartNumber"),
        end("Item"),
        start("ITEM", vec![]),
        start("PartNumber", vec![]),
        text("P-2"),
        end("PartNumber"),
        end("ITEM"),
        end("Items"),
        start("Trailer", vec![]),
        start("ItemCount", vec![]),
        text("2"),
        end("ItemCount"),
        end("Trailer"),
        end("PIES"),
        Ok(XmlEvent::EndDocument),
    ]
}

#[test]
fn a_document_becomes_its_entries() {
    let (entries, last) = run(document());
    assert_eq!(last, Advance::End);
    let expected = vec![
        entry("PIESVersion", None, "Header", "Header", None, Some("6.5")),
        entry("PriceSheetName", None, "PriceSheet", "Price", Some(vec![]), Some("Retail")),
        entry("PriceSheet", None, "PriceSheets", "Price", None, None),
        entry("PartNumber", Some(1), "Item", "Items", Some(vec![]), Some("P-1")),
        entry("Item", Some(1), "Items", "Items", None, None),
        entry("PartNumber", Some(2), "ITEM", "Items", Some(vec![]), Some("P-2")),
        entry("ITEM", Some(2), "Items", "Items", None, None),
        entry("ItemCount", None, "Trailer", "Trailer", Some(vec![]), Some("2")),
    ];
    assert_eq!(entries, expected);
}

#[test]
fn segments_follow_their_markers() {
    let mut state = PiesState::new();
    assert_eq!(state.segment_state(), Segment::Off);
    for (ev, seg) in [
        (start("PIES", vec![]), Segment::Off),
        (start("Header", vec![]), Segment::Header),
        (start("PriceSheets", vec![]), Segment::Price),
        (start("MarketingCopy", vec![]), Segment::Mkt),
        (start("Items", vec![]), Segment::Item),
        (start("Trailer", vec![]), Segment::Trailer),
        (start("Header", vec![]), Segment::Trailer),
    ] {
        assert_eq!(state.step(ev), Advance::Continue);
        assert_eq!(state.segment_state(), seg);
    }
}

#[test]
fn text_before_the_header_is_ignored() {
    let (entries, _) = run(vec![
        start("PIES", vec![]),
        start("Note", vec![]),
        text("ignored"),
        end("Note"),
        start("Header", vec![]),
        start("Version", vec![]),
        end("Version"),
    ]);
    assert_eq!(entries, vec![entry("Version", None, "Header", "Header", None, None)]);
}

#[test]
fn header_entries_keep_attributes_back() {
    let (entries, _) = run(vec![
        start("PIES", vec![]),
        start("Header", vec![]),
        start("Version", vec![attr("k", "v")]),
        end("Version"),
    ]);
    assert_eq!(entries, vec![entry("Version", None, "Header", "Header", None, None)]);
}

#[test]
fn parser_failures() {
    let mut state = PiesState::new();
    assert_eq!(state.step(Err(ReadErrorKind::UnexpectedEof)), Advance::End);
    assert_eq!(state.step(Err(ReadErrorKind::Failed)), Advance::Error);
    assert_eq!(state.step(Ok(XmlEvent::EndDocument)), Advance::End);
}

#[test]
fn closing_with_nothing_open_is_refused() {
    let mut state = PiesState::new();
    assert!(!state.accepts(&end("PIES"), false));
    assert_eq!(state.try_step(end("PIES")), None);
    assert!(state.accepts(&start("PIES", vec![]), false));
}

#[test]
fn closing_a_segment_without_a_pending_segment_name_is_refused() {
    let mut state = PiesState::new();
    for ev in [start("Root", vec![]), start("Wrap", vec![]), start("Header", vec![])] {
        assert_eq!(state.step(ev), Advance::Continue);
    }
    assert_eq!(state.try_step(end("Header")), None);
}

#[test]
fn item_count_uses_the_caller_decision() {
    let mut state = PiesState::new();
    for ev in [start("PIES", vec![]), start("Header", vec![]), start("PriceSheets", vec![]),
        start("MarketingCopy", vec![]), start("Items", vec![])] {
        assert_eq!(state.step(ev), Advance::Continue);
    }
    assert_eq!(state.step_with(start("Product", vec![]), true), Advance::Continue);
    assert_eq!(state.step_with(start("Part", vec![]), false), Advance::Continue);
    match state.step(end("Part")) {
        Advance::Yield(e) => assert_eq!(e.item_num, Some(1)),
        other => panic!("unexpected {:?}", other),
    }
}
