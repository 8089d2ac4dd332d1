use pies::events::{Advance, ReadErrorKind, XmlAttribute, XmlEvent};
use pies::xsd::{SchemaState, XsdEntry};

fn attr(n: &str, v: &str) -> XmlAttribute {
    XmlAttribute { name: n.to_string(), namespace: None, prefix: None, value: v.to_string() }
}

fn start(n: &str, attrs: Vec<XmlAttribute>) -> Result<XmlEvent, ReadErrorKind> {
    Ok(XmlEvent::StartElement { name: n.to_string(), attributes: attrs })
}

fn end(n: &str) -> Result<XmlEvent, ReadErrorKind> {
    Ok(XmlEvent::EndElement { name: n.to_string() })
}

fn text(t: &str) -> Result<XmlEvent, ReadErrorKind> {
    Ok(XmlEvent::Characters(t.to_string()))
}

fn entry(tag: &str, parent: Option<&str>, node: u32, attributes: Option<Vec<XmlAttribute>>, value: Option<&str>) -> XsdEntry {
    XsdEntry {
        tag: tag.to_string(),
        parent: parent.map(|p| p.to_string()),
        node,
        attributes,
        value: value.map(|v| v.to_string()),
    }
}

#[test]
fn schema_elements_come_out_with_their_parents() {
    let mut state = SchemaState::new();
    let events = vec![
        Ok(XmlEvent::Other),
        start("schema", vec![]),
        Ok(XmlEvent::Other),
        start("element", vec![attr("name", "a")]),
        start("annotation", vec![]),
        start("documentation", vec![]),
        text("Doc"),
        end("documentation"),
        end("annotation"),
        end("element"),
        end("schema"),
        Ok(XmlEvent::EndDocument),
    ];
    let mut out = Vec::new();
    let mut last = Advance::Continue;
    for ev in events {
        assert!(state.accepts(&ev));
        match state.step(ev) {
            Advance::Continue => {}
            Advance::Yield(e) => out.push(e),
            other => {
                last = other;
                break;
            }
        }
    }
    assert_eq!(last, Advance::End);
    assert_eq!(
        out,
        vec![
            entry("schema", None, 2, Some(vec![]), None),
            entry("element", Some("schema"), 3, Some(vec![attr("name", "a")]), None),
            entry("annotation", Some("element"), 4, Some(vec![]), None),
            entry("documentation", Some("annotation"), 4, Some(vec![]), Some("Doc")),
        ]
    );
}

#[test]
fn schema_refusals_and_failures() {
    let mut state = SchemaState::new();
    assert!(!state.accepts(&text("x")));
    assert!(!state.accepts(&end("schema")));
    assert_eq!(state.step(Err(ReadErrorKind::UnexpectedEof)), Advance::End);
    assert_eq!(state.step(Err(ReadErrorKind::Failed)), Advance::Error);
    assert_eq!(state.step(Ok(XmlEvent::Other)), Advance::Continue);
}
