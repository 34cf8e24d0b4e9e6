use gamut::{
    Namespace, WellKnownNs, XmpArray, XmpItem, XmpMeta, XmpPacket, XmpProperty, XmpValue,
    XmpWriter, CANONICAL_BEGIN, CANONICAL_PACKET_ID, RDF_NAMESPACE, XML_NAMESPACE,
};

const FOO: &str = "http://example.com/foo/";

fn simple(text: &str) -> XmpValue {
    XmpValue::Simple(text.into())
}

fn item(text: &str) -> XmpItem {
    XmpItem {
        value: simple(text),
        qualifiers: vec![],
    }
}

/// A graph with every kind of value, with nesting and with qualifiers.
fn rich_graph() -> XmpMeta {
    let dc = WellKnownNs::DublinCore.uri();
    let mut meta = XmpMeta::new();
    meta.set_text(dc, "format", "a & b < c > d \"e\" 'f'\r\n\tg");
    meta.set_text(dc, "source", "");
    meta.set(XmpProperty::new(
        WellKnownNs::Xmp.uri(),
        "BaseURL",
        XmpValue::Uri("http://example.com/?a=1&b=\"2\"".into()),
    ));
    meta.set(XmpProperty::new(
        dc,
        "subject",
        XmpValue::Array(XmpArray::Bag(vec![item("one"), item("  two  ")])),
    ));
    meta.set(XmpProperty::new(
        dc,
        "creator",
        XmpValue::Array(XmpArray::Sequence(vec![
            item("A"),
            XmpItem {
                value: XmpValue::Structured(vec![XmpProperty::new(FOO, "Name", simple("B"))]),
                qualifiers: vec![],
            },
        ])),
    ));
    meta.set(XmpProperty::new(
        FOO,
        "Box",
        XmpValue::Structured(vec![
            XmpProperty::new(FOO, "Width", simple("3")),
            XmpProperty::new(
                FOO,
                "Inner",
                XmpValue::Structured(vec![XmpProperty::new(FOO, "Depth", simple("4"))]),
            ),
        ]),
    ));
    let mut qualified = XmpProperty::new(FOO, "Author", simple("N.N."));
    qualified.qualifiers = vec![
        XmpProperty::new(XML_NAMESPACE, "lang", simple("de")),
        XmpProperty::new(FOO, "Role", simple("editor")),
    ];
    meta.set(qualified);
    meta.set_lang_alt(dc, "title", "x-default", "Hello");
    meta.set_lang_alt(dc, "title", "fr", "Bonjour");
    meta
}

#[test]
fn every_kind_of_value_is_read_back() {
    let meta = rich_graph();
    assert_eq!(XmpMeta::from_packet(&meta.to_packet()).unwrap(), meta);
    for writer in [
        XmpWriter::new().wrap_xmpmeta(false).padding(0),
        XmpWriter::new().writable(false).padding(7),
    ] {
        let bytes = writer.serialize(&meta);
        assert_eq!(XmpMeta::from_packet(&bytes).unwrap(), meta);
    }
}

#[test]
fn a_bare_body_is_read_back() {
    let meta = rich_graph();
    let body = XmpWriter::new().wrap_xmpmeta(false).serialize_body(&meta);
    assert_eq!(XmpMeta::from_packet(body.as_bytes()).unwrap(), meta);
    let packet = XmpPacket {
        body,
        writable: false,
        padding: 0,
    };
    assert_eq!(packet.parse().unwrap(), meta);
}

#[test]
fn the_empty_graph_is_read_back() {
    let meta = XmpMeta::new();
    assert_eq!(XmpMeta::from_packet(&meta.to_packet()).unwrap(), meta);
}

#[test]
fn writing_what_was_read_changes_nothing() {
    let bytes = rich_graph().to_packet();
    let read = XmpMeta::from_packet(&bytes).unwrap();
    assert_eq!(read.to_packet(), bytes);
}

#[test]
fn the_body_has_one_fixed_form() {
    let mut meta = XmpMeta::new();
    meta.set_text(WellKnownNs::Xmp.uri(), "Rating", "5");
    assert_eq!(
        XmpWriter::new().wrap_xmpmeta(false).serialize_body(&meta),
        "<rdf:RDF xmlns:rdf=\"http://www.w3.org/1999/02/22-rdf-syntax-ns#\">\
         <rdf:Description rdf:about=\"\" xmlns:xmp=\"http://ns.adobe.com/xap/1.0/\">\
         <xmp:Rating>5</xmp:Rating></rdf:Description></rdf:RDF>"
    );
}

#[test]
fn a_written_packet_scans_to_what_it_was_made_from() {
    let mut meta = XmpMeta::new();
    meta.set_text(FOO, "A", "1");
    let writer = XmpWriter::new().padding(5).writable(true);
    let decoded = XmpPacket::scan_with_source(&writer.serialize(&meta)).unwrap();
    assert_eq!(decoded.packet.body, writer.serialize_body(&meta));
    assert_eq!(decoded.packet.padding, 5);
    assert!(decoded.packet.writable);
    assert!(!decoded.had_bom);
    assert_eq!(
        decoded.header_attribute("begin").as_deref(),
        Some(CANONICAL_BEGIN)
    );
    assert_eq!(
        decoded.header_attribute("id").as_deref(),
        Some(CANONICAL_PACKET_ID)
    );
    let read_only = XmpWriter::new().padding(0).writable(false);
    let packet = XmpPacket::scan(&read_only.serialize(&meta)).unwrap();
    assert!(!packet.writable);
    assert_eq!(packet.padding, 0);
}

#[test]
fn a_graph_does_not_depend_on_where_it_stands() {
    let meta = rich_graph();
    let body = XmpWriter::new().serialize_body(&meta);
    let moved = format!("<?xpacket begin='' id='long'?>\n\n\n   {body}\n<?xpacket end='r'?>");
    assert_eq!(XmpMeta::from_packet(moved.as_bytes()).unwrap(), meta);
    assert_eq!(
        XmpPacket::scan(moved.as_bytes()).unwrap().parse().unwrap(),
        meta
    );
}

#[test]
fn registered_prefixes_are_used_and_collisions_resolved() {
    let mut meta = XmpMeta::new();
    meta.set_text("urn:one", "A", "1");
    meta.set_text("urn:two", "B", "2");
    let writer = XmpWriter::new()
        .wrap_xmpmeta(false)
        .with_namespace(Namespace::new("urn:one", "same"))
        .with_namespace(Namespace::new("urn:two", "same"));
    let body = writer.serialize_body(&meta);
    assert!(body.contains("xmlns:same=\"urn:one\""));
    assert!(!body.contains("xmlns:same=\"urn:two\""));
    assert_eq!(XmpMeta::from_packet(body.as_bytes()).unwrap(), meta);
}

#[test]
fn the_rdf_prefix_is_not_given_away() {
    let mut meta = XmpMeta::new();
    meta.set_text("urn:one", "A", "1");
    let body = XmpWriter::new()
        .with_namespace(Namespace::new("urn:one", "rdf"))
        .serialize_body(&meta);
    assert!(body.contains(&format!("xmlns:rdf=\"{RDF_NAMESPACE}\"")));
    assert!(!body.contains("xmlns:rdf=\"urn:one\""));
    assert_eq!(XmpMeta::from_packet(body.as_bytes()).unwrap(), meta);
}

#[test]
fn a_packet_is_made_and_read_in_a_few_lines() {
    let dc = WellKnownNs::DublinCore.uri();
    let xmp = WellKnownNs::Xmp.uri();
    let mut meta = XmpMeta::new();
    meta.set_lang_alt(dc, "title", "x-default", "My Photo");
    meta.set_text(xmp, "CreatorTool", "gamut");
    let parsed = XmpMeta::from_packet(&meta.to_packet()).unwrap();
    assert_eq!(parsed.get_lang_alt(dc, "title", "x-default"), Some("My Photo"));
    assert_eq!(parsed.get_text(xmp, "CreatorTool"), Some("gamut"));
}
