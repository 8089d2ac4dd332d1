use pies::events::{Advance, ReadErrorKind, XmlAttribute, XmlEvent};
use pies::xsd::tes::{SchemaState, XsdEntry};

fn start(n: &str, attrs: Vec<XmlAttribute>) -> Result<XmlEvent, ReadErrorKind> {
    Ok(XmlEvent::StartElement { name: n.to_string(), attributes: attrs })
}

fn end(n: &str) -> Result<XmlEvent, ReadErrorKind> {
    Ok(XmlEvent::EndElement { name: n.to_string() })
}

fn text(t: &str) -> Result<XmlEvent, ReadErrorKind> {
    Ok(XmlEvent::Characters(t.to_string()))
}

fn entry(tag: &str, parent: &str, node: u32, value: Option<&str>) -> XsdEntry {
    XsdEntry {
        tag: tag.to_string(),
        parent: parent.to_string(),
        node,
        attributes: Some(vec![]),
        value: value.map(|v| v.to_string()),
    }
}

#[test]
fn elements_come_out_with_the_element_around_them() {
    let mut state = SchemaState::new();
    let events = vec![
        start("root", vec![]),
        start("child", vec![]),
        end("child"),
        start("note", vec![]),
        text("T"),
        end("note"),
        end("root"),
        Ok(XmlEvent::EndDocument),
        Err(ReadErrorKind::UnexpectedEof),
    ];
    let mut out = Vec::new();
    let mut last = Advance::Continue;
    for ev in events {
        assert!(state.accepts(&ev));
        match state.step(ev) {
            Advance::Continue => {}
            Advance::Yield(e) => out.push(e),
            other => {
                last = other;
                break;
            }
        }
    }
    assert_eq!(last, Advance::End);
    assert_eq!(out, vec![entry("root", "root", 2, None), entry("note", "root", 2, Some("T"))]);
}

#[test]
fn text_after_a_nested_element_is_refused() {
    let mut state = SchemaState::new();
    assert_eq!(state.step(start("root", vec![])), Advance::Continue);
    assert!(state.accepts(&start("child", vec![])));
    assert!(matches!(state.step(start("child", vec![])), Advance::Yield(_)));
    assert!(!state.accepts(&text("t")));
}

#[test]
fn text_with_no_recorded_parent_is_refused() {
    let mut state = SchemaState::new();
    assert_eq!(state.step(start("root", vec![])), Advance::Continue);
    assert!(!state.accepts(&text("t")));
}

#[test]
fn end_of_document_is_passed_over() {
    let mut state = SchemaState::new();
    assert_eq!(state.step(Ok(XmlEvent::EndDocument)), Advance::Continue);
    assert_eq!(state.step(Err(ReadErrorKind::Failed)), Advance::Error);
}
