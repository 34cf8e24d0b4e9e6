use gamut::{XmpError, XmpMeta, XmpPacket, XmpPropertyForm, XmpValue};

const RDF: &str = "http://www.w3.org/1999/02/22-rdf-syntax-ns#";

#[test]
fn spans_slice_the_decoded_text() {
    let text = format!(
        "<?xpacket begin='\u{FEFF}' id='x'?>\u{e9}\n<rdf:RDF xmlns:rdf='{RDF}'/>  \
         <?xpacket end='w'?>"
    );
    let decoded = XmpPacket::scan_with_source(text.as_bytes()).unwrap();
    let envelope = decoded.envelope;
    let slice = |start: usize, end: usize| &decoded.decoded[start..end];
    let header = envelope.header.unwrap();
    let trailer = envelope.trailer.unwrap();
    assert!(slice(header.start, header.end).starts_with("<?xpacket begin"));
    assert_eq!(slice(trailer.start, trailer.end), "<?xpacket end='w'?>");
    assert_eq!(envelope.body.start, header.end);
    assert_eq!(envelope.body.end, trailer.start);
    assert_eq!(
        slice(envelope.content.start, envelope.content.end),
        decoded.packet.body
    );
    assert_eq!(slice(envelope.padding.start, envelope.padding.end), "  ");
}

#[test]
fn property_spans_slice_the_decoded_text() {
    let text = format!(
        "<?xpacket?> <rdf:RDF xmlns:rdf='{RDF}'><rdf:Description xmlns:f='urn:f' f:a='\u{e9}'>\
         <f:b>x</f:b></rdf:Description></rdf:RDF><?xpacket end='r'?>"
    );
    let decoded = XmpPacket::scan_with_source(text.as_bytes()).unwrap();
    let document = decoded.parse().unwrap();
    assert_eq!(document.properties.len(), 2);
    for property in &document.properties {
        let slice = &decoded.decoded[property.span.start..property.span.end];
        match property.form {
            XmpPropertyForm::Attribute => {
                assert_eq!(slice, "<rdf:Description xmlns:f='urn:f' f:a='\u{e9}'>");
            }
            XmpPropertyForm::Element => assert_eq!(slice, "<f:b>x</f:b>"),
            _ => panic!("another form"),
        }
    }
}

#[test]
fn a_fault_of_the_xml_is_an_xml_error() {
    for xml in ["<a><b></a>", "<a", "</a>", "<a/><b/>"] {
        assert!(matches!(
            XmpMeta::from_packet(xml.as_bytes()),
            Err(XmpError::Xml(_))
        ));
    }
    for xml in ["", "text", "<!-- nothing -->", "<a/>"] {
        assert_eq!(XmpMeta::from_packet(xml.as_bytes()), Err(XmpError::MissingRdf));
    }
}

#[test]
fn nesting_beyond_the_limit_is_refused() {
    let depth: usize = 65_536;
    let xml = format!("{}{}", "<a>".repeat(depth), "</a>".repeat(depth));
    assert_eq!(
        XmpPacket::scan(xml.as_bytes()).unwrap().parse(),
        Err(XmpError::Xml("elements are nested too deeply".into()))
    );
}

#[test]
fn references_are_resolved() {
    let xml = format!(
        "<rdf:RDF xmlns:rdf='{RDF}'><rdf:Description xmlns:f='urn:f' f:a='&#x41;&quot;&apos;'>\
         <f:b>&#65;&#x20AC;&gt;</f:b></rdf:Description></rdf:RDF>"
    );
    let meta = XmpMeta::from_packet(xml.as_bytes()).unwrap();
    assert_eq!(meta.get_text("urn:f", "a"), Some("A\"'"));
    assert_eq!(meta.get_text("urn:f", "b"), Some("A\u{20ac}>"));
}

#[test]
fn an_unknown_entity_is_refused() {
    let xml = format!(
        "<rdf:RDF xmlns:rdf='{RDF}'><rdf:Description xmlns:f='urn:f'><f:b>&nbsp;</f:b>\
         </rdf:Description></rdf:RDF>"
    );
    assert!(XmpMeta::from_packet(xml.as_bytes()).is_err());
}

#[test]
fn marks_before_the_content_are_counted() {
    for marks in ["", "\u{FEFF}", "\u{FEFF}\u{FEFF}"] {
        let text = format!(
            "<?xpacket?>{marks}<rdf:RDF xmlns:rdf='{RDF}'><rdf:Description xmlns:f='urn:f'>\
             <f:b>\u{e9}</f:b></rdf:Description></rdf:RDF><?xpacket end='r'?>"
        );
        let decoded = XmpPacket::scan_with_source(text.as_bytes()).unwrap();
        let document = decoded.parse().unwrap();
        let span = document.properties[0].span;
        assert_eq!(&decoded.decoded[span.start..span.end], "<f:b>\u{e9}</f:b>");
        assert_eq!(
            XmpMeta::from_packet(text.as_bytes()).unwrap().get_text("urn:f", "b"),
            Some("\u{e9}")
        );
        let bare = format!("{marks}{}", decoded.packet.body.trim_start_matches('\u{FEFF}'));
        assert_eq!(
            XmpMeta::from_packet(bare.as_bytes()).unwrap().get_text("urn:f", "b"),
            Some("\u{e9}")
        );
    }
}

#[test]
fn every_span_is_a_tag_or_an_element() {
    let text = format!(
        "<?xpacket?> \u{FEFF}<x:xmpmeta xmlns:x='adobe:ns:meta/'><rdf:RDF xmlns:rdf='{RDF}'>\
         <rdf:Description xmlns:f='urn:f' f:a='1' f:c='2'><f:b>x</f:b><f:e/></rdf:Description>\
         <rdf:Description xmlns:g='urn:g'><g:a rdf:parseType='Resource'><g:h>y</g:h></g:a>\
         </rdf:Description></rdf:RDF></x:xmpmeta> <?xpacket end='w'?>"
    );
    let decoded = XmpPacket::scan_with_source(text.as_bytes()).unwrap();
    let document = decoded.parse().unwrap();
    let content = decoded.envelope.content;
    let mut spans = Vec::new();
    spans.extend(document.properties.iter().map(|p| p.span));
    spans.extend(document.nodes.iter().map(|n| n.span));
    spans.extend(document.namespaces.iter().map(|n| n.span));
    spans.extend(document.descriptions.iter().map(|d| d.span));
    assert!(spans.len() > 10);
    for span in spans {
        assert!(content.start <= span.start && span.end <= content.end);
        let slice = &decoded.decoded[span.start..span.end];
        assert!(slice.starts_with('<') && slice.ends_with('>'));
    }
    let names: Vec<(&str, &str)> = document
        .properties
        .iter()
        .map(|p| (p.namespace.as_str(), p.name.as_str()))
        .collect();
    assert_eq!(
        names,
        [("urn:f", "a"), ("urn:f", "c"), ("urn:f", "b"), ("urn:f", "e"), ("urn:g", "a")]
    );
    assert_eq!(document.meta.properties.len(), names.len());
    for (namespace, name) in names {
        assert!(document.meta.get(namespace, name).is_some());
    }
    assert_eq!(document.clone(), document);
}

#[test]
fn both_forms_of_a_structure_are_read_alike() {
    let meta = |property: &str| {
        let xml = format!(
            "<rdf:RDF xmlns:rdf='{RDF}'><rdf:Description xmlns:f='urn:f'>{property}\
             </rdf:Description></rdf:RDF>"
        );
        XmpMeta::from_packet(xml.as_bytes()).unwrap()
    };
    let nested = meta(
        "<f:s xml:lang='en'><rdf:Description f:c='3'><f:a>1</f:a><f:b>2</f:b>\
         </rdf:Description></f:s>",
    );
    let concise = meta(
        "<f:s rdf:parseType='Resource' xml:lang='en' f:c='3'><f:a>1</f:a><f:b>2</f:b></f:s>",
    );
    assert_eq!(nested, concise);
    let array = |item: &str| meta(&format!("<f:l><rdf:Bag>{item}</rdf:Bag></f:l>"));
    assert_eq!(
        array("<rdf:li><rdf:Description><f:a>1</f:a></rdf:Description></rdf:li>"),
        array("<rdf:li rdf:parseType='Resource'><f:a>1</f:a></rdf:li>")
    );
}

#[test]
fn both_forms_of_a_structure_fail_alike() {
    let read = |property: &str| {
        let xml = format!(
            "<x:xmpmeta xmlns:x='adobe:ns:meta/'><rdf:RDF xmlns:rdf='{RDF}'>\
             <rdf:Description xmlns:f='urn:f'><f:z>0</f:z>{property}</rdf:Description>\
             </rdf:RDF></x:xmpmeta>"
        );
        XmpMeta::from_packet(xml.as_bytes())
    };
    let forms = |fields: &str| {
        (
            read(&format!("<f:s><rdf:Description>{fields}</rdf:Description></f:s>")),
            read(&format!("<f:s rdf:parseType='Resource'>{fields}</f:s>")),
        )
    };
    let (nested, concise) = forms("<f:a>1</f:a><f:b>2</f:b>");
    assert!(nested.is_ok());
    assert_eq!(nested, concise);
    let property = nested.unwrap().get("urn:f", "s").unwrap().clone();
    assert!(property.qualifiers.is_empty());
    match property.value {
        XmpValue::Structured(fields) => {
            let names: Vec<&str> = fields.iter().map(|f| f.name.as_str()).collect();
            assert_eq!(names, ["a", "b"]);
        }
        _ => panic!("no structure"),
    }
    let (nested, concise) = forms("<f:a rdf:parseType='Literal'>1</f:a>");
    assert!(nested.is_err());
    assert_eq!(nested, concise);
}
