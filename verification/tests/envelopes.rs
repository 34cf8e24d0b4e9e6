use gamut::encoding::{decode_packet, encode_packet};
use gamut::repair::repair_close_tag_case;
use gamut::{
    canonicalise_xmp_packet, close_xmp_wrappers, rdf_prefix_case_mismatch, repair_rdf_prefix_case,
    repair_xmp_serialisation, XmpEdit, XmpEncoding, XmpError, XmpMeta, XmpPacket, XmpProperty,
    XmpValue,
};

const ENCODINGS: [XmpEncoding; 5] = [
    XmpEncoding::Utf8,
    XmpEncoding::Utf16Be,
    XmpEncoding::Utf16Le,
    XmpEncoding::Utf32Be,
    XmpEncoding::Utf32Le,
];

const RDF: &str = "http://www.w3.org/1999/02/22-rdf-syntax-ns#";

fn packet_with(rating: &str) -> String {
    format!(
        "<?xpacket begin='' id='custom' bytes='9'?>\n<rdf:RDF xmlns:rdf='{RDF}' \
         xmlns:foo='urn:foo'><rdf:Description rdf:about=''><foo:A>{rating}</foo:A>\
         </rdf:Description></rdf:RDF>\n   <?xpacket end='w'?>"
    )
}

#[test]
fn text_survives_every_encoding() {
    let text = "<?xpacket?>a\u{e9}\u{20ac}\u{1d11e}\u{7ff}\u{ffff}";
    for encoding in ENCODINGS {
        for bom in [true, false] {
            let bytes = encode_packet(text, encoding, bom);
            assert_eq!(XmpEncoding::detect(&bytes), encoding);
            let (found, had_bom, decoded) = decode_packet(&bytes).unwrap();
            assert_eq!(found, encoding);
            assert_eq!(had_bom, bom);
            assert_eq!(decoded, text);
            assert_eq!(encode_packet(&decoded, found, had_bom), bytes);
        }
    }
}

#[test]
fn exact_bytes_of_the_wide_encodings() {
    let text = "a\u{1d11e}";
    assert_eq!(
        encode_packet(text, XmpEncoding::Utf16Be, true),
        [0xFE, 0xFF, 0x00, 0x61, 0xD8, 0x34, 0xDD, 0x1E]
    );
    assert_eq!(
        encode_packet(text, XmpEncoding::Utf16Le, false),
        [0x61, 0x00, 0x34, 0xD8, 0x1E, 0xDD]
    );
    assert_eq!(
        encode_packet(text, XmpEncoding::Utf32Be, false),
        [0x00, 0x00, 0x00, 0x61, 0x00, 0x01, 0xD1, 0x1E]
    );
    assert_eq!(
        encode_packet(text, XmpEncoding::Utf32Le, true),
        [0xFF, 0xFE, 0x00, 0x00, 0x61, 0x00, 0x00, 0x00, 0x1E, 0xD1, 0x01, 0x00]
    );
}

#[test]
fn malformed_encodings_are_refused() {
    for bytes in [
        vec![0xFE, 0xFF, 0xD8, 0x00],
        vec![0xFF, 0xFE, 0x00, 0xDC, 0x61, 0x00],
        vec![0xFE, 0xFF, 0x00],
        vec![0x00, 0x00, 0xFE, 0xFF, 0x00, 0x11, 0x00, 0x00],
        vec![0x00, 0x00, 0xFE, 0xFF, 0x00, 0x00, 0xD8, 0x00],
        vec![0xC3, 0x28],
    ] {
        assert!(matches!(XmpPacket::scan(&bytes), Err(XmpError::Encoding(_))));
        assert!(matches!(
            XmpMeta::from_packet(&bytes),
            Err(XmpError::Encoding(_))
        ));
        assert!(matches!(
            repair_rdf_prefix_case(&bytes),
            Err(XmpError::Encoding(_))
        ));
        assert_eq!(rdf_prefix_case_mismatch(&bytes), None);
        assert!(close_xmp_wrappers(&bytes).is_err());
        assert!(repair_xmp_serialisation(&bytes).is_err());
        assert!(canonicalise_xmp_packet(&bytes).is_err());
    }
}

#[test]
fn a_bare_document_has_no_padding() {
    let packet = XmpPacket::scan(b"  <rdf:RDF/>  \n").unwrap();
    assert_eq!(packet.body, "<rdf:RDF/>");
    assert_eq!(packet.padding, 0);
    assert!(!packet.writable);
}

#[test]
fn a_bare_document_keeps_its_bytes_when_attributes_are_removed() {
    let bytes = b" <rdf:RDF id='x'/> ";
    assert_eq!(
        XmpPacket::remove_header_attributes(bytes, &["id"]).unwrap(),
        bytes
    );
}

#[test]
fn removing_attributes_twice_is_removing_them_once() {
    for encoding in ENCODINGS {
        let source = encode_packet(&packet_with("3"), encoding, true);
        let reduced = XmpPacket::remove_header_attributes(&source, &["bytes", "none"]).unwrap();
        let expected = packet_with("3").replace(" bytes='9'", "");
        assert_eq!(reduced, encode_packet(&expected, encoding, true));
        assert_eq!(
            XmpPacket::remove_header_attributes(&reduced, &["bytes", "none"]).unwrap(),
            reduced
        );
        let decoded = XmpPacket::scan_with_source(&reduced).unwrap();
        assert_eq!(decoded.header_attribute("bytes"), None);
        assert_eq!(decoded.header_attribute("id").as_deref(), Some("custom"));
    }
}

#[test]
fn a_malformed_instruction_keeps_its_attributes() {
    let bytes = b"<?xpacket id='x' odd bytes='9'?><rdf:RDF/><?xpacket end='w'?>";
    assert_eq!(
        XmpPacket::remove_header_attributes(bytes, &["bytes"]).unwrap(),
        bytes
    );
}

#[test]
fn transcoding_keeps_the_packet() {
    let text = packet_with("3");
    for encoding in ENCODINGS {
        let source = encode_packet(&text, encoding, true);
        let output = XmpPacket::transcode_to_utf8(&source).unwrap();
        if encoding == XmpEncoding::Utf8 {
            assert_eq!(output, source);
        } else {
            assert_eq!(output, text.as_bytes());
        }
        let before = XmpPacket::scan_with_source(&source).unwrap();
        let after = XmpPacket::scan_with_source(&output).unwrap();
        assert_eq!(after.decoded, before.decoded);
        assert_eq!(after.packet, before.packet);
        assert_eq!(after.envelope, before.envelope);
        assert_eq!(after.encoding, XmpEncoding::Utf8);
    }
}

#[test]
fn the_prefix_repair_changes_only_the_root_names() {
    let wrong = format!(
        "<?xpacket begin='' id='x'?><Rdf:RDF xmlns:rdf='{RDF}'><rdf:Description/>\
         </Rdf:RDF>  <?xpacket end='w'?>"
    );
    let right = wrong
        .replace("<Rdf:RDF", "<rdf:RDF")
        .replace("</Rdf:RDF>", "</rdf:RDF>");
    for encoding in ENCODINGS {
        let source = encode_packet(&wrong, encoding, false);
        assert_eq!(rdf_prefix_case_mismatch(&source).as_deref(), Some("Rdf"));
        let repaired = repair_rdf_prefix_case(&source).unwrap().unwrap();
        assert_eq!(repaired, encode_packet(&right, encoding, false));
        assert_eq!(rdf_prefix_case_mismatch(&repaired), None);
        assert_eq!(repair_rdf_prefix_case(&repaired).unwrap(), None);
    }
}

#[test]
fn closed_wrappers_are_balanced() {
    let open = format!(
        "<?xpacket begin='' id='x'?><x:xmpmeta xmlns:x='adobe:ns:meta/'>\
         <rdf:RDF xmlns:rdf='{RDF}'><rdf:Description/> \n<?xpacket end='r'?>"
    );
    for encoding in ENCODINGS {
        let source = encode_packet(&open, encoding, true);
        let closed = close_xmp_wrappers(&source).unwrap().unwrap();
        let expected = open.replace(
            "<rdf:Description/> \n",
            "<rdf:Description/></rdf:RDF></x:xmpmeta> \n",
        );
        assert_eq!(closed, encode_packet(&expected, encoding, true));
        assert_eq!(close_xmp_wrappers(&closed).unwrap(), None);
        assert!(XmpMeta::from_packet(&closed).is_ok());
    }
    assert_eq!(close_xmp_wrappers(b"<rdf:RDF>").unwrap(), None);
}

#[test]
fn the_case_repair_leaves_nothing() {
    let source = b"<?xpacket?><a><dc:Title>x</DC:title></A><?xpacket end='w'?>";
    let repaired = repair_xmp_serialisation(source).unwrap().unwrap();
    assert_eq!(
        repaired,
        b"<?xpacket?><a><dc:Title>x</dc:Title></a><?xpacket end='w'?>"
    );
    assert_eq!(repair_xmp_serialisation(&repaired).unwrap(), None);
}

#[test]
fn the_canonical_form_is_canonical() {
    let source = encode_packet(&packet_with("3"), XmpEncoding::Utf32Le, true);
    let canonical = canonicalise_xmp_packet(&source).unwrap();
    let expected = packet_with("3").replace(
        "<?xpacket begin='' id='custom' bytes='9'?>",
        "<?xpacket begin='\u{FEFF}' id='W5M0MpCehiHzreSzNTczkc9d'?>",
    );
    assert_eq!(canonical, expected.as_bytes());
    assert_eq!(canonicalise_xmp_packet(&canonical).unwrap(), canonical);
    assert_eq!(
        XmpPacket::scan(&canonical).unwrap(),
        XmpPacket::scan(&source).unwrap()
    );
}

#[test]
fn a_canonical_packet_needs_both_instructions() {
    assert_eq!(
        canonicalise_xmp_packet(b"<rdf:RDF/>"),
        Err(XmpError::Encoding("XMP packet header is missing"))
    );
    assert_eq!(
        canonicalise_xmp_packet(b"<?xpacket?><rdf:RDF/>"),
        Err(XmpError::Encoding("XMP packet trailer is missing"))
    );
}

#[test]
fn a_changed_edit_keeps_the_envelope_and_reads_back() {
    for encoding in ENCODINGS {
        let source = encode_packet(&packet_with("3"), encoding, true);
        let mut edit = XmpEdit::from_packet(&source).unwrap();
        edit.set(XmpProperty::new("urn:foo", "A", XmpValue::Simple("4".into())));
        let changed = edit.finish();
        assert_ne!(changed, source);
        let before = XmpPacket::scan_with_source(&source).unwrap();
        let after = XmpPacket::scan_with_source(&changed).unwrap();
        assert_eq!(after.encoding, encoding);
        assert!(after.had_bom);
        assert_eq!(after.packet.padding, before.packet.padding);
        assert_eq!(after.packet.writable, before.packet.writable);
        assert_eq!(after.header_attribute("id"), before.header_attribute("id"));
        let meta = XmpMeta::from_packet(&changed).unwrap();
        assert_eq!(meta.get_text("urn:foo", "A"), Some("4"));
        assert_eq!(meta.properties.len(), 1);
    }
}

#[test]
fn setting_and_restoring_returns_the_source() {
    let source = packet_with("3");
    let mut edit = XmpEdit::from_packet(source.as_bytes()).unwrap();
    edit.meta_mut().set_text("urn:foo", "A", "4");
    assert_eq!(edit.meta().get_text("urn:foo", "A"), Some("4"));
    edit.meta_mut().set_text("urn:foo", "A", "3");
    assert_eq!(edit.finish(), source.as_bytes());
}

#[test]
fn renaming_an_unused_namespace_changes_nothing() {
    let source = packet_with("3");
    let mut edit = XmpEdit::from_packet(source.as_bytes()).unwrap();
    assert_eq!(edit.remap_namespace("urn:none", "urn:other"), 0);
    assert_eq!(edit.remap_namespace("urn:foo", "urn:foo"), 0);
    assert_eq!(edit.finish(), source.as_bytes());
}

#[test]
fn a_renamed_namespace_is_gone() {
    let mut edit = XmpEdit::from_packet(packet_with("3").as_bytes()).unwrap();
    assert_eq!(edit.remap_namespace("urn:foo", "urn:bar"), 1);
    assert!(edit.meta().get("urn:foo", "A").is_none());
    assert_eq!(edit.meta().get_text("urn:bar", "A"), Some("3"));
    assert_eq!(edit.remap_namespace("urn:foo", "urn:bar"), 0);
}

#[test]
fn an_edit_needs_a_packet_that_parses() {
    assert!(matches!(
        XmpEdit::from_packet(b"<a/>"),
        Err(XmpError::MissingRdf)
    ));
}

#[test]
fn the_trailer_is_read_by_whole_attribute_names() {
    let writable = |trailer: &str| {
        let text = format!("<?xpacket begin='' id='x'?><rdf:RDF/>{trailer}");
        XmpPacket::scan(text.as_bytes()).unwrap().writable
    };
    assert!(!writable("<?xpacket end='r' send='w'?>"));
    assert!(!writable("<?xpacket send='w'?>"));
    assert!(!writable("<?xpacket end='ww'?>"));
    assert!(writable("<?xpacket end = 'w'?>"));
    assert!(writable("<?xpacket send='r' end\n=\t\"w\" ?>"));
}

#[test]
fn any_end_attribute_can_ask_for_writability() {
    let writable = |trailer: &str| {
        let text = format!("<?xpacket begin='' id='x'?><rdf:RDF/>{trailer}");
        XmpPacket::scan(text.as_bytes()).unwrap().writable
    };
    assert!(writable("<?xpacket foo end='w'?>"));
    assert!(writable("<?xpacket foo= end='w'?>"));
    assert!(writable("<?xpacket foo=bar\nend=\"w\"?>"));
    assert!(writable("<?xpacket foo=\"x end='w'?>"));
    assert!(writable("<?xpacket end='r' end='w'?>"));
    assert!(writable("<?xpacket end='w' end='r'?>"));
    assert!(writable("<?xpacket a='1'end='w'"));
    assert!(!writable("<?xpacket foo end='r' bar?>"));
    assert!(!writable("<?xpacket foo?>"));
    assert!(!writable("<?xpacket foo note=\"end='w'\"?>"));
}

#[test]
fn a_wrong_case_root_must_be_balanced() {
    let unclosed = format!("<RDF:RDF xmlns:rdf='{RDF}'><RDF:RDF></RDF:RDF>");
    assert_eq!(rdf_prefix_case_mismatch(unclosed.as_bytes()), None);
    assert_eq!(repair_rdf_prefix_case(unclosed.as_bytes()).unwrap(), None);
    let nested = format!("<RDF:RDF xmlns:rdf='{RDF}'><RDF:RDF></RDF:RDF></RDF:RDF>");
    assert_eq!(
        rdf_prefix_case_mismatch(nested.as_bytes()).as_deref(),
        Some("RDF")
    );
    assert_eq!(
        repair_rdf_prefix_case(nested.as_bytes()).unwrap().unwrap(),
        format!("<rdf:RDF xmlns:rdf='{RDF}'><RDF:RDF></RDF:RDF></rdf:RDF>").as_bytes()
    );
}

#[test]
fn the_prefix_must_be_bound_by_a_whole_attribute() {
    let other = format!("<Rdf:RDF myxmlns:rdf='{RDF}'></Rdf:RDF>");
    assert_eq!(rdf_prefix_case_mismatch(other.as_bytes()), None);
    let elsewhere = "<Rdf:RDF xmlns:rdf='urn:other'></Rdf:RDF>";
    assert_eq!(rdf_prefix_case_mismatch(elsewhere.as_bytes()), None);
    for attributes in [
        format!("bare xmlns:rdf='{RDF}'"),
        format!("a=b xmlns:rdf=\"{RDF}\""),
        format!("xmlns:rdf='urn:other' xmlns:rdf='{RDF}'"),
    ] {
        let root = format!("<Rdf:RDF {attributes}></Rdf:RDF>");
        assert_eq!(
            rdf_prefix_case_mismatch(root.as_bytes()).as_deref(),
            Some("Rdf")
        );
        assert_eq!(
            repair_rdf_prefix_case(root.as_bytes()).unwrap().unwrap(),
            format!("<rdf:RDF {attributes}></rdf:RDF>").as_bytes()
        );
    }
    let behind = format!("<Rdf:RDF a='>' xmlns:rdf='{RDF}'></Rdf:RDF>");
    assert_eq!(rdf_prefix_case_mismatch(behind.as_bytes()), None);
    let below = format!("<Rdf:RDF bare><a xmlns:rdf='{RDF}'/></Rdf:RDF>");
    assert_eq!(rdf_prefix_case_mismatch(below.as_bytes()), None);
    let spaced = format!("<Rdf:RDF a='1' xmlns:rdf = \"{RDF}\"></Rdf:RDF>");
    assert_eq!(
        rdf_prefix_case_mismatch(spaced.as_bytes()).as_deref(),
        Some("Rdf")
    );
}

#[test]
fn closing_tags_are_respelt_before_wrappers_are_closed() {
    for (wrong, right) in [
        ("<rdf:RDF></rdf:rdf>", "<rdf:RDF></rdf:RDF>"),
        ("<x:xmpmeta></x:XMPMETA>", "<x:xmpmeta></x:xmpmeta>"),
        (
            "<x:xmpmeta><rdf:RDF></RDF:RDF>",
            "<x:xmpmeta><rdf:RDF></rdf:RDF></x:xmpmeta>",
        ),
    ] {
        let packet = |body: &str| {
            format!("<?xpacket begin='' id='x'?>{body}<?xpacket end='r'?>").into_bytes()
        };
        let repaired = repair_xmp_serialisation(&packet(wrong)).unwrap().unwrap();
        assert_eq!(repaired, packet(right));
        assert_eq!(repair_xmp_serialisation(&repaired).unwrap(), None);
    }
}

#[test]
fn the_case_repair_changes_closing_names_only() {
    let source = b"<?xpacket?><a B='C'>D</A ><!-- </A> --><?xpacket end='w'?>";
    let repaired = repair_xmp_serialisation(source).unwrap().unwrap();
    assert_eq!(
        repaired,
        b"<?xpacket?><a B='C'>D</a ><!-- </A> --><?xpacket end='w'?>"
    );
    assert!(repaired.eq_ignore_ascii_case(source));
    let body = b"<a><B x='</A>'></b></A>";
    let cased = repair_close_tag_case(body).unwrap();
    assert!(cased.eq_ignore_ascii_case(body));
    assert_eq!(repair_close_tag_case(&cased), None);
    assert_eq!(repair_close_tag_case(b"<a></a>"), None);
}

#[test]
fn removing_attributes_keeps_the_others() {
    let text = "<?xpacket begin='' id = \"a'b\"\n\u{e9}='\u{20ac}' bytes='9' bytes='8'  ?>\
                <rdf:RDF/><?xpacket end='w'?>";
    for encoding in ENCODINGS {
        let source = encode_packet(text, encoding, true);
        let reduced = XmpPacket::remove_header_attributes(&source, &["bytes", "begin"]).unwrap();
        let before = XmpPacket::scan_with_source(&source).unwrap();
        let after = XmpPacket::scan_with_source(&reduced).unwrap();
        for name in ["id", "\u{e9}", "none"] {
            assert_eq!(after.header_attribute(name), before.header_attribute(name));
        }
        assert_eq!(after.header_attribute("id").as_deref(), Some("a'b"));
        assert_eq!(after.header_attribute("\u{e9}").as_deref(), Some("\u{20ac}"));
        assert_eq!(before.header_attribute("begin").as_deref(), Some(""));
        assert_eq!(after.header_attribute("begin"), None);
        assert_eq!(after.header_attribute("bytes"), None);
        assert_eq!(after.encoding, before.encoding);
        assert_eq!(after.packet, before.packet);
    }
}

#[test]
fn a_cloned_edit_is_a_transaction_of_its_own() {
    let source = packet_with("3").into_bytes();
    let edit = XmpEdit::from_packet(&source).unwrap();
    let mut copy = edit.clone();
    assert!(copy.remove("urn:foo", "A"));
    assert_eq!(edit.meta().get_text("urn:foo", "A"), Some("3"));
    assert_eq!(edit.finish(), source);
    assert_ne!(copy.finish(), source);
}
