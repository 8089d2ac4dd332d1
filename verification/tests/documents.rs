use pies::events::{StreamEnd, XmlAttribute};
use pies::reader::{pies_entries, PiesEntry};
use pies::xsd::{schema_entries, XsdEntry};

fn attr(n: &str, v: &str) -> XmlAttribute {
    XmlAttribute { name: n.to_string(), namespace: None, prefix: None, value: v.to_string() }
}

fn entry(
    tag: &str,
    item_num: Option<u32>,
    parent: &str,
    segment: &str,
    attributes: Option<Vec<XmlAttribute>>,
    value: Option<&str>,
) -> PiesEntry {
    PiesEntry {
        tag: tag.to_string(),
        item_num,
        parent: parent.to_string(),
        segment: segment.to_string(),
        attributes,
        value: value.map(|v| v.to_string()),
    }
}

const PIES_DOC: &str = r#"<?xml version="1.0" encoding="UTF-8"?>
<PIES>
  <Header><PIESVersion>6.5</PIESVersion></Header>
  <PriceSheets>
    <PriceSheet MaintenanceType="A"><PriceSheetName>Retail</PriceSheetName></PriceSheet>
  </PriceSheets>
  <MarketingCopy></MarketingCopy>
  <Items>
    <Item MaintenanceType="A"><PartNumber>P-1</PartNumber></Item>
  </Items>
  <Trailer><ItemCount>1</ItemCount></Trailer>
</PIES>
"#;

#[test]
fn a_pies_document_is_read_into_entries() {
    let (entries, end) = pies_entries(PIES_DOC.as_bytes()).expect("document accepted");
    assert!(matches!(end, StreamEnd::Finished));
    assert_eq!(
        entries,
        vec![
            entry("PIESVersion", None, "Header", "Header", None, Some("6.5")),
            entry("PriceSheetName", None, "PriceSheet", "Price", Some(vec![]), Some("Retail")),
            entry("PriceSheet", None, "PriceSheets", "Price", None, None),
            entry("PartNumber", Some(1), "Item", "Items", Some(vec![]), Some("P-1")),
            entry("Item", Some(1), "Items", "Items", None, None),
            entry("ItemCount", None, "Trailer", "Trailer", Some(vec![]), Some("1")),
        ]
    );
}

#[test]
fn attributes_reach_the_entries() {
    let doc = r#"<PIES><Header/><PriceSheets><PriceSheet Code="X"/></PriceSheets></PIES>"#;
    let (entries, end) = pies_entries(doc.as_bytes()).expect("document accepted");
    assert!(matches!(end, StreamEnd::Finished));
    assert_eq!(entries, vec![entry("PriceSheet", None, "PriceSheets", "Price", Some(vec![attr("Code", "X")]), None)]);
}

#[test]
fn a_malformed_document_fails_after_the_entries_before_the_fault() {
    let doc = "<PIES><Header><Version>1</Version></Header></Wrong>";
    let (entries, end) = pies_entries(doc.as_bytes()).expect("document accepted");
    assert_eq!(entries, vec![entry("Version", None, "Header", "Header", None, Some("1"))]);
    assert!(matches!(end, StreamEnd::Failed { .. }));
}

#[test]
fn a_truncated_document_fails() {
    let (entries, end) = pies_entries(b"<PIES><Header>").expect("document accepted");
    assert!(entries.is_empty());
    assert!(matches!(end, StreamEnd::Failed { .. }));
}

#[test]
fn a_failure_reports_where_the_parser_stopped() {
    let (_, end) = pies_entries(b"<PIES>\n<Header></Wrong>").expect("document accepted");
    match end {
        StreamEnd::Failed { error, row, column, message } => {
            assert_eq!(row, 1);
            assert!(column > 0);
            assert!(!message.is_empty());
            let shown = error.to_string();
            assert!(shown.starts_with(&format!("{}:{} ", row + 1, column + 1)));
            assert!(shown.ends_with(&message));
        }
        _ => panic!("the document is malformed"),
    }
}

#[test]
fn a_header_too_deep_is_refused() {
    assert!(pies_entries(b"<a><b><Header></Header></b></a>").is_none());
}

#[test]
fn a_schema_document_is_read_into_entries() {
    let doc = r#"<xs:schema xmlns:xs="http://www.w3.org/2001/XMLSchema"><xs:element name="a"><xs:annotation><xs:documentation>Doc</xs:documentation></xs:annotation></xs:element></xs:schema>"#;
    let (entries, end) = schema_entries(doc.as_bytes()).expect("document accepted");
    assert!(matches!(end, StreamEnd::Finished));
    let e = |tag: &str, parent: Option<&str>, node: u32, attributes: Vec<XmlAttribute>, value: Option<&str>| XsdEntry {
        tag: tag.to_string(),
        parent: parent.map(|p| p.to_string()),
        node,
        attributes: Some(attributes),
        value: value.map(|v| v.to_string()),
    };
    assert_eq!(
        entries,
        vec![
            e("schema", None, 2, vec![], None),
            e("element", Some("schema"), 3, vec![attr("name", "a")], None),
            e("annotation", Some("element"), 4, vec![], None),
            e("documentation", Some("annotation"), 4, vec![], Some("Doc")),
        ]
    );
}

#[test]
fn a_parented_schema_stream_never_ends_after_the_document() {
    let (entries, end) = pies::xsd::tes::schema_entries(b"<root><child/><note>T</note></root>").expect("document accepted");
    assert!(matches!(end, StreamEnd::Endless));
    let e = |tag: &str, value: Option<&str>| pies::xsd::tes::XsdEntry {
        tag: tag.to_string(),
        parent: "root".to_string(),
        node: 2,
        attributes: Some(vec![]),
        value: value.map(|v| v.to_string()),
    };
    assert_eq!(entries, vec![e("root", None), e("note", Some("T"))]);
}

#[test]
fn prefixed_attributes_keep_their_prefix() {
    let doc = r#"<root xmlns:p="urn:x"><a p:k="v" plain="w">t</a></root>"#;
    let (entries, end) = schema_entries(doc.as_bytes()).expect("document accepted");
    assert!(matches!(end, StreamEnd::Finished));
    assert_eq!(entries.len(), 2);
    assert_eq!(entries[1].tag, "a");
    assert_eq!(
        entries[1].attributes,
        Some(vec![
            XmlAttribute { name: "k".to_string(), namespace: Some("urn:x".to_string()), prefix: Some("p".to_string()), value: "v".to_string() },
            attr("plain", "w"),
        ])
    );
    assert_eq!(entries[1].value, Some("t".to_string()));
    assert_eq!(entries[1].parent, Some("root".to_string()));
}

#[test]
fn document_events_end_with_the_document() {
    // The parser leaves comments out by default.
    let evs = pies::document::document_events(b"<a x=\"1\"><!-- c -->t</a>");
    assert_eq!(
        evs,
        vec![
            Ok(pies::events::XmlEvent::Other),
            Ok(pies::events::XmlEvent::StartElement { name: "a".to_string(), attributes: vec![attr("x", "1")] }),
            Ok(pies::events::XmlEvent::Characters("t".to_string())),
            Ok(pies::events::XmlEvent::EndElement { name: "a".to_string() }),
            Ok(pies::events::XmlEvent::EndDocument),
        ]
    );
}
