use gamut::{
    rdf_prefix_case_mismatch, repair_rdf_prefix_case, XmpEncoding, XmpError, XmpPacket,
};
use gamut::text::find;

const UTF8_BOM: [u8; 3] = [0xEF, 0xBB, 0xBF];

const WRAPPED: &str = "<?xpacket begin=\"\" id=\"W5M0MpCehiHzreSzNTczkc9d\"?><rdf:RDF/>   \n  <?xpacket end=\"w\"?>";

#[test]
fn scans_writable_wrapper_with_exact_padding() {
    let pkt = XmpPacket::scan(WRAPPED.as_bytes()).unwrap();
    assert_eq!(pkt.body, "<rdf:RDF/>");
    assert!(pkt.writable);
    assert_eq!(pkt.padding, 6);
}

#[test]
fn read_only_trailer_is_not_writable() {
    let s = "<?xpacket begin=\"\" id=\"x\"?><rdf:RDF/><?xpacket end=\"r\"?>";
    let pkt = XmpPacket::scan(s.as_bytes()).unwrap();
    assert!(!pkt.writable);
    assert_eq!(pkt.padding, 0);
}

#[test]
fn bare_rdf_without_wrapper_is_accepted() {
    let pkt = XmpPacket::scan(b"<rdf:RDF/>").unwrap();
    assert_eq!(pkt.body, "<rdf:RDF/>");
    assert!(!pkt.writable);
}

#[test]
fn strips_utf8_bom() {
    let mut bytes = UTF8_BOM.to_vec();
    bytes.extend_from_slice(b"<rdf:RDF/>");
    let pkt = XmpPacket::scan(&bytes).unwrap();
    assert_eq!(pkt.body, "<rdf:RDF/>");
}

#[test]
fn decodes_utf16_bom() {
    let bytes = encode_utf16("<rdf:RDF/>", true, true);
    let decoded = XmpPacket::scan_with_source(&bytes).unwrap();
    assert_eq!(decoded.encoding, XmpEncoding::Utf16Be);
    assert_eq!(decoded.packet.body, "<rdf:RDF/>");
}

#[test]
fn decodes_utf16_le_and_utf32_both_orders() {
    let text = "<?xpacket begin='' id='x'?><rdf:RDF/>  <?xpacket end='w'?>";
    for (bytes, expected) in [
        (encode_utf16(text, false, true), XmpEncoding::Utf16Le),
        (encode_utf32(text, true, true), XmpEncoding::Utf32Be),
        (encode_utf32(text, false, true), XmpEncoding::Utf32Le),
    ] {
        let decoded = XmpPacket::scan_with_source(&bytes).unwrap();
        assert_eq!(decoded.encoding, expected);
        assert_eq!(decoded.packet.body, "<rdf:RDF/>");
        assert_eq!(decoded.packet.padding, 2);
        assert!(decoded.packet.writable);
    }
}

#[test]
fn detects_wide_encoding_without_a_bom() {
    let utf16 = encode_utf16("<?xml version='1.0'?><rdf:RDF/>", false, false);
    let utf32 = encode_utf32("<?xml version='1.0'?><rdf:RDF/>", true, false);
    assert_eq!(
        XmpPacket::scan_with_source(&utf16).unwrap().encoding,
        XmpEncoding::Utf16Le
    );
    assert_eq!(
        XmpPacket::scan_with_source(&utf32).unwrap().encoding,
        XmpEncoding::Utf32Be
    );
}

#[test]
fn single_quoted_trailer_is_detected() {
    // XML permits either style.
    let writable = "<?xpacket begin='' id='x'?><rdf:RDF/><?xpacket end='w'?>";
    assert!(XmpPacket::scan(writable.as_bytes()).unwrap().writable);
    let read_only = "<?xpacket begin='' id='x'?><rdf:RDF/><?xpacket end='r'?>";
    assert!(!XmpPacket::scan(read_only.as_bytes()).unwrap().writable);
}

#[test]
fn unrelated_w_byte_in_the_trailer_is_not_writable() {
    // Writability comes from the end attribute alone — a stray `w` elsewhere in the
    // instruction (here in a nonstandard extra attribute) must not flip it.
    let s = "<?xpacket begin=\"\" id=\"x\"?><rdf:RDF/><?xpacket end=\"r\" note=\"w\"?>";
    assert!(!XmpPacket::scan(s.as_bytes()).unwrap().writable);
}

#[test]
fn detects_balanced_wrong_case_rdf_prefix_before_xml_parsing() {
    let packet = "<x:xmpmeta xmlns:x='adobe:ns:meta/'>\
     <RDF:RDF xmlns:rdf='http://www.w3.org/1999/02/22-rdf-syntax-ns#'>\
     <rdf:Description rdf:about=''/></RDF:RDF></x:xmpmeta>";
    assert_eq!(
        rdf_prefix_case_mismatch(packet.as_bytes()).as_deref(),
        Some("RDF")
    );
}

#[test]
fn header_without_trailer_is_read_only() {
    // A truncated wrapper (header but no trailer) still yields the body, as read-only.
    let pkt = XmpPacket::scan(b"<?xpacket begin=\"\" id=\"x\"?><rdf:RDF/>").unwrap();
    assert_eq!(pkt.body, "<rdf:RDF/>");
    assert!(!pkt.writable);
}

#[test]
fn unterminated_header_is_rejected() {
    assert!(matches!(
        XmpPacket::scan(b"<?xpacket begin=\"\"<rdf:RDF/>"),
        Err(XmpError::Encoding("unterminated <?xpacket?> header"))
    ));
}

#[test]
fn accepts_bom_character_in_the_begin_attribute() {
    // Packets from Adobe tools carry the BOM character
    // inside the attribute value, which must not confuse body extraction.
    let s = "<?xpacket begin=\"\u{FEFF}\" id=\"W5M0MpCehiHzreSzNTczkc9d\"?>\
             <rdf:RDF/><?xpacket end=\"r\"?>";
    let pkt = XmpPacket::scan(s.as_bytes()).unwrap();
    assert_eq!(pkt.body, "<rdf:RDF/>");
    assert!(!pkt.writable);
}

#[test]
fn find_handles_edges() {
    assert_eq!(find(b"xy<?xpacket", b"<?xpacket"), Some(2));
    // An exact-length match must be found (guards the `>` length check).
    assert_eq!(find(b"abc", b"abc"), Some(0));
    // A needle longer than the haystack is absent.
    assert_eq!(find(b"ab", b"abc"), None);
    // An empty needle is never found (and must not panic on `windows(0)`).
    assert_eq!(find(b"abc", b""), None);
}

#[test]
fn rejects_non_utf8_body() {
    let mut bytes = b"<rdf:RDF>".to_vec();
    bytes.push(0xFF); // invalid UTF-8 in the body
    assert!(matches!(
        XmpPacket::scan(&bytes),
        Err(XmpError::Encoding(_))
    ));
}

#[test]
fn exposes_exact_decoded_envelope_spans() {
    let decoded = XmpPacket::scan_with_source(WRAPPED.as_bytes()).unwrap();
    let envelope = decoded.envelope;
    let header = envelope.header.unwrap();
    let trailer = envelope.trailer.unwrap();
    assert!(decoded.decoded[header.start..header.end].starts_with("<?xpacket"));
    assert_eq!(
        &decoded.decoded[envelope.body.start..envelope.padding.start],
        "<rdf:RDF/>"
    );
    assert_eq!(
        &decoded.decoded[envelope.content.start..envelope.content.end],
        "<rdf:RDF/>"
    );
    assert_eq!(
        &decoded.decoded[envelope.padding.start..envelope.padding.end],
        "   \n  "
    );
    assert_eq!(
        &decoded.decoded[trailer.start..trailer.end],
        "<?xpacket end=\"w\"?>"
    );
}

#[test]
fn reads_header_attributes_without_substring_false_matches() {
    let decoded = XmpPacket::scan_with_source(
        b"<?xpacket begin='' id='x' bytes='12'?>X<?xpacket end='r'?>",
    )
    .unwrap();
    assert_eq!(decoded.header_attribute("bytes").as_deref(), Some("12"));
    assert_eq!(decoded.header_attribute("byte"), None);
}

#[test]
fn transcodes_a_wide_packet_without_rewriting_its_xml() {
    let source = encode_utf16(
        "<?xpacket begin='' id='x'?><rdf:RDF/> <?xpacket end='w'?>",
        false,
        true,
    );
    assert_eq!(
        String::from_utf8(XmpPacket::transcode_to_utf8(&source).unwrap()).unwrap(),
        "<?xpacket begin='' id='x'?><rdf:RDF/> <?xpacket end='w'?>"
    );
}

#[test]
fn transcode_tolerates_an_incomplete_trailing_wide_code_unit() {
    let mut source = encode_utf32("<rdf:RDF/>", true, false);
    source.extend_from_slice(b"\r\n");
    assert_eq!(
        XmpPacket::transcode_to_utf8(&source).unwrap(),
        b"<rdf:RDF/>"
    );
}

#[test]
fn removes_only_selected_packet_header_attributes() {
    let source =
        b"<?xpacket begin='' id='x' bytes = \"42\" encoding='UTF-8' keep='yes'?><rdf:RDF/>";
    let output = XmpPacket::remove_header_attributes(source, &["bytes", "encoding"]).unwrap();
    assert_eq!(
        String::from_utf8(output).unwrap(),
        "<?xpacket begin='' id='x' keep='yes'?><rdf:RDF/>"
    );
}

#[test]
fn repairs_only_the_wrong_case_rdf_root_names() {
    let packet = "<x:xmpmeta xmlns:x='adobe:ns:meta/'>\
     <RDF:RDF xmlns:rdf='http://www.w3.org/1999/02/22-rdf-syntax-ns#'>\
     <rdf:Description rdf:about='' note='RDF:RDF'/></RDF:RDF></x:xmpmeta>";
    let repaired = repair_rdf_prefix_case(packet.as_bytes()).unwrap().unwrap();
    assert_eq!(
        String::from_utf8(repaired).unwrap(),
        packet
            .replacen("<RDF:RDF", "<rdf:RDF", 1)
            .replacen("</RDF:RDF>", "</rdf:RDF>", 1)
    );
}

fn encode_utf16(text: &str, big_endian: bool, bom: bool) -> Vec<u8> {
    let mut bytes = if bom {
        if big_endian {
            vec![0xFE, 0xFF]
        } else {
            vec![0xFF, 0xFE]
        }
    } else {
        Vec::new()
    };
    for unit in text.encode_utf16() {
        let encoded = if big_endian {
            unit.to_be_bytes()
        } else {
            unit.to_le_bytes()
        };
        bytes.extend_from_slice(&encoded);
    }
    bytes
}

fn encode_utf32(text: &str, big_endian: bool, bom: bool) -> Vec<u8> {
    let mut bytes = if bom {
        if big_endian {
            vec![0x00, 0x00, 0xFE, 0xFF]
        } else {
            vec![0xFF, 0xFE, 0x00, 0x00]
        }
    } else {
        Vec::new()
    };
    for character in text.chars() {
        let scalar = u32::from(character);
        let encoded = if big_endian {
            scalar.to_be_bytes()
        } else {
            scalar.to_le_bytes()
        };
        bytes.extend_from_slice(&encoded);
    }
    bytes
}
